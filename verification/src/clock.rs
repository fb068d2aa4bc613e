//! Monotonic clock used by the engine.
//!
//! Values are only ever used relatively (and the microsecond value is
//! truncated to 32 bits on the wire, where peers likewise only difference
//! it), so the epoch is arbitrary. An offset keeps early values away from 0,
//! which the protocol reserves to mean "no timestamp sample yet".

use std::time::Instant;
use vstd::prelude::*;

verus! {

/// [`std::time::Instant`], carried through and never looked into.
#[verifier::external_type_specification]
#[verifier::external_body]
pub struct ExInstant(std::time::Instant);

/// [`std::time::Instant::now`]: the current time, of which nothing is known
/// beforehand.
pub assume_specification[ std::time::Instant::now ]() -> std::time::Instant;

/// The nanoseconds that [`std::time::Instant::elapsed`] says have passed since
/// `start`. It depends on when it is called, so nothing is claimed of it.
#[verifier::external_body]
fn elapsed_nanos(start: &Instant) -> (r: u128)
{
    start.elapsed().as_nanos()
}

/// The nanoseconds that [`std::time::SystemTime::elapsed`] says have passed
/// since the Unix epoch, cut to 64 bits; `None` if the system clock stands
/// before it. It depends on when it is called, so nothing is claimed of it.
#[verifier::external_body]
pub(crate) fn unix_nanos() -> (r: Option<u64>)
{
    match std::time::UNIX_EPOCH.elapsed() {
        Ok(d) => Some(d.as_nanos() as u64),
        Err(_) => None,
    }
}

/// One reading of the clock. A whole call into the engine goes by a single
/// reading.
#[derive(Clone, Copy, PartialEq, Eq, Structural, Debug)]
pub struct Now {
    /// milliseconds
    pub ms: u64,
    /// microseconds
    pub us: u64,
}

impl Now {
    /// What a clock reads `nanos` nanoseconds after it was started.
    pub open spec fn after(nanos: u128) -> Now {
        Now {
            ms: ((nanos / 1_000_000) as u64).saturating_add(1_000),
            us: ((nanos / 1_000) as u64).saturating_add(1_000_000),
        }
    }

    /// What a clock reads `nanos` nanoseconds after it was started.
    pub fn elapsed(nanos: u128) -> (r: Now)
        ensures
            r == Now::after(nanos),
            r.ms >= 1_000,
            r.us >= 1_000_000,
    {
        Now {
            ms: ((nanos / 1_000_000) as u64).saturating_add(1_000),
            us: ((nanos / 1_000) as u64).saturating_add(1_000_000),
        }
    }
}

#[derive(Clone, Copy)]
pub struct Clock {
    start: Instant,
}

impl Clock {
    /// A clock that starts now.
    pub fn new() -> Self {
        Clock { start: Instant::now() }
    }

    /// Microseconds; never less than a second's worth.
    pub fn micros(&self) -> (r: u64)
        ensures
            exists|nanos: u128| r == (#[trigger] Now::after(nanos)).us,
            r >= 1_000_000,
    {
        self.now().us
    }

    /// Milliseconds; never less than a second's worth.
    pub fn millis(&self) -> (r: u64)
        ensures
            exists|nanos: u128| r == (#[trigger] Now::after(nanos)).ms,
            r >= 1_000,
    {
        self.now().ms
    }

    /// Both, from a single look at the time.
    pub fn now(&self) -> (r: Now)
        ensures
            exists|nanos: u128| r == #[trigger] Now::after(nanos),
            r.ms >= 1_000,
            r.us >= 1_000_000,
    {
        Now::elapsed(elapsed_nanos(&self.start))
    }
}

/// Readings of one clock are in the order in which they are taken: one taken
/// after `n` nanoseconds is not smaller than one taken after `m`, and neither
/// are its milliseconds than the other's microseconds, nor the other way
/// round. Nanoseconds that do not fit are left out, and the last claim stops
/// where the microseconds come to their end.
pub proof fn lemma_readings_in_order(m: u128, n: u128)
    requires
        m <= n,
        n / 1_000 <= u64::MAX,
    ensures
        Now::after(m).us <= Now::after(n).us,
        Now::after(m).ms <= Now::after(n).ms,
        Now::after(m).us / 1_000 <= Now::after(n).ms,
        Now::after(n).us < u64::MAX ==> Now::after(m).ms * 1_000 <= Now::after(n).us,
{
    let (a, b) = ((m / 1_000) as u64, (n / 1_000) as u64);
    let (c, d) = ((m / 1_000_000) as u64, (n / 1_000_000) as u64);
    assert(a == m / 1_000 && b == n / 1_000 && c == m / 1_000_000 && d == n / 1_000_000);
}

/// The two readings are of the same instant: the milliseconds are what is left
/// of the microseconds without their last three digits. Neither is ever 0.
pub proof fn lemma_same_instant(nanos: u128)
    requires
        nanos < 0x1_0000_0000_0000_0000,
    ensures
        Now::after(nanos).ms == Now::after(nanos).us / 1000,
        Now::after(nanos).ms >= 1000,
        Now::after(nanos).us >= 1_000_000,
{
}

/// A clock that has run longer by some microseconds reads as many more.
pub proof fn lemma_clock_runs(nanos: u128, micros: u64)
    requires
        nanos + micros * 1000 < 0x1_0000_0000_0000_0000,
    ensures
        Now::after((nanos + micros * 1000) as u128).us == Now::after(nanos).us + micros,
{
}

} // verus!

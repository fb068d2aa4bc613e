//! The round trip time, its variance, and the retransmission timeout made of
//! the two.

use vstd::prelude::*;

verus! {

/// The quotient rounded towards zero, for a positive divisor.
pub open spec fn truncated_div(x: int, y: int) -> int {
    if x >= 0 {
        x / y
    } else {
        -((-x) / y)
    }
}

/// The distance of `x` from 0, where a signed 32-bit number can hold it.
pub open spec fn wrapped_abs(x: i32) -> i32 {
    if x >= 0 || x == i32::MIN {
        x
    } else {
        (-x) as i32
    }
}

/// All in milliseconds.
#[derive(Clone, Copy, PartialEq, Eq, Structural, Debug)]
pub struct Rtt {
    /// 0 until the first sample
    pub rtt: u32,
    pub rtt_var: u32,
    pub rto: u32,
}

impl Rtt {
    pub open spec fn initial() -> Rtt {
        Rtt { rtt: 0, rtt_var: 800, rto: 3000 }
    }

    /// The variance after a sample that is `delta` off the estimate: a quarter
    /// of the way to the size of `delta`.
    pub open spec fn moved_var(self, delta: i32) -> u32 {
        let step = truncated_div(
            wrapped_abs(delta).wrapping_sub(self.rtt_var as i32) as int,
            4,
        ) as i32;
        (self.rtt_var as i32).wrapping_add(step) as u32
    }

    /// The estimate after a sample `ertt`: the first sample is the estimate,
    /// every later one moves it by an eighth. The timeout is the estimate and
    /// four times the variance, but at least a second.
    pub open spec fn sampled(self, ertt: u32) -> Rtt {
        let rtt = if self.rtt == 0 {
            ertt
        } else {
            (self.rtt - self.rtt / 8 + ertt / 8) as u32
        };
        let rtt_var = if self.rtt == 0 {
            ertt / 2
        } else {
            self.moved_var((self.rtt as i32).wrapping_sub(ertt as i32))
        };
        let sum = rtt.wrapping_add(rtt_var.wrapping_mul(4));
        Rtt {
            rtt,
            rtt_var,
            rto: if sum > 1000 {
                sum
            } else {
                1000
            },
        }
    }

    pub fn add_sample(&mut self, ertt: u32)
        ensures
            *final(self) == old(self).sampled(ertt),
    {
        if self.rtt == 0 {
            // First round trip time sample
            self.rtt = ertt;
            self.rtt_var = ertt / 2;
        } else {
            // Compute new round trip times
            let delta: i32 = (self.rtt as i32).wrapping_sub(ertt as i32);
            let size: i32 = if delta >= 0 || delta == i32::MIN {
                delta
            } else {
                -delta
            };
            let step: i32 = size.wrapping_sub(self.rtt_var as i32) / 4;
            self.rtt_var = (self.rtt_var as i32).wrapping_add(step) as u32;
            self.rtt = self.rtt - self.rtt / 8 + ertt / 8;
        }
        let sum: u32 = self.rtt.wrapping_add(self.rtt_var.wrapping_mul(4));
        self.rto = if sum > 1000 {
            sum
        } else {
            1000
        };
    }
}

/// No round trip time makes the timeout shorter than a second.
pub proof fn lemma_rto_at_least_a_second(r: Rtt, ertt: u32)
    ensures
        r.sampled(ertt).rto >= 1000,
{
}

/// On a steady path the estimate stays within the range of what was measured.
pub proof fn lemma_rtt_stays_between(r: Rtt, ertt: u32)
    requires
        r.rtt != 0,
    ensures
        r.rtt <= ertt ==> r.sampled(ertt).rtt <= ertt,
        r.rtt >= ertt ==> r.sampled(ertt).rtt <= r.rtt,
{
}

/// The first round trip is the estimate, and half of it the variance.
pub proof fn lemma_first_round_trip(r: Rtt, ertt: u32)
    requires
        r.rtt == 0,
        ertt < 0x1000_0000,
    ensures
        ({
            let after = r.sampled(ertt);
            let wait = ertt + 4 * (ertt / 2);
            &&& after.rtt == ertt
            &&& after.rtt_var == ertt / 2
            &&& after.rto == (if wait > 1000 {
                wait
            } else {
                1000
            })
        }),
{
}

/// Every later one moves the estimate by an eighth of the way, up to rounding,
/// and the variance by a quarter of the way to how far off the estimate was.
/// The timeout leaves room for four times the variance.
pub proof fn lemma_later_round_trips(r: Rtt, ertt: u32)
    requires
        0 < r.rtt < 0x1000_0000,
        r.rtt_var < 0x1000_0000,
        ertt < 0x1000_0000,
    ensures
        ({
            let after = r.sampled(ertt);
            let off = if r.rtt >= ertt {
                r.rtt - ertt
            } else {
                ertt - r.rtt
            };
            let wait = after.rtt + 4 * after.rtt_var;
            &&& -8 < 8 * after.rtt - (7 * r.rtt + ertt) < 8
            &&& -4 < 4 * after.rtt_var - (3 * r.rtt_var + off) < 4
            &&& after.rto == (if wait > 1000 {
                wait
            } else {
                1000
            })
        }),
{
    let delta = (r.rtt as i32).wrapping_sub(ertt as i32);
    assert(delta == r.rtt - ertt);
    let x = wrapped_abs(delta).wrapping_sub(r.rtt_var as i32) as int;
    assert(-4 < 4 * truncated_div(x, 4) - x < 4);
}

} // verus!

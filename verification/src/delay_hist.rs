//! One-way delay history with a drifting base.
//!
//! The two clocks (in the two peers) are assumed not to progress at the exact
//! same rate. They drift, which gives the delay samples a systematic error,
//! so the delay base is periodically re-derived from recent minima, and can
//! be shifted to compensate for observed clock skew in the other direction.

use crate::util::{lemma_wrapping_less_32, wrapping_compare_less, wrapping_less};
use vstd::prelude::*;

verus! {

pub const CUR_DELAY_SIZE: usize = 3;

/// experiments suggest that a clock skew of 10 ms per 325 seconds
/// is not impossible. Reset delay_base every 13 minutes. The clock
/// skew is dealt with by observing the delay base in the other
/// direction, and adjusting our own upwards if the opposite direction
/// delay base keeps going down
pub const DELAY_BASE_HISTORY: usize = 13;

const TIMESTAMP_MASK: u32 = 0xffff_ffff;

/// What a delay history holds.
#[verifier::ext_equal]
pub struct DelayHistView {
    pub delay_base: u32,
    /// the last few delays over the base
    pub cur: Seq<u32>,
    /// the slot of `cur` that the next delay goes to
    pub cur_idx: int,
    /// the lowest sample of each of the last minutes
    pub base: Seq<u32>,
    /// the slot of `base` that the current minute goes to
    pub base_idx: int,
    /// when the current minute began
    pub base_time: u64,
    /// whether there has been a sample
    pub sampled: bool,
}

/// `a` or `b`, whichever comes first on the circle of timestamps.
pub open spec fn earlier(a: u32, b: u32) -> u32 {
    if wrapping_less(a, b, 0xffff_ffff) {
        a
    } else {
        b
    }
}

/// The earliest of the first `n` timestamps of `s`, each compared with the
/// earliest of those before it.
pub open spec fn earliest(s: Seq<u32>, n: int) -> u32
    decreases n,
{
    if n <= 1 {
        s[0]
    } else {
        earlier(s[n - 1], earliest(s, n - 1))
    }
}

pub open spec fn min_u32(a: u32, b: u32) -> u32 {
    if a <= b {
        a
    } else {
        b
    }
}

impl DelayHistView {
    pub open spec fn wf(self) -> bool {
        &&& self.cur.len() == CUR_DELAY_SIZE
        &&& self.base.len() == DELAY_BASE_HISTORY
        &&& 0 <= self.cur_idx < CUR_DELAY_SIZE
        &&& 0 <= self.base_idx < DELAY_BASE_HISTORY
    }

    /// A history without samples.
    pub open spec fn fresh(current_ms: u64) -> DelayHistView {
        DelayHistView {
            delay_base: 0,
            cur: Seq::new(CUR_DELAY_SIZE as nat, |i: int| 0u32),
            cur_idx: 0,
            base: Seq::new(DELAY_BASE_HISTORY as nat, |i: int| 0u32),
            base_idx: 0,
            base_time: current_ms,
            sampled: false,
        }
    }

    pub open spec fn shifted(self, offset: u32) -> DelayHistView {
        DelayHistView {
            delay_base: self.delay_base.wrapping_add(offset),
            base: self.base.map_values(|v: u32| v.wrapping_add(offset)),
            ..self
        }
    }

    /// The history with every base set to `sample` if there was no sample
    /// before.
    pub open spec fn based(self, sample: u32) -> DelayHistView {
        if self.sampled {
            self
        } else {
            DelayHistView {
                delay_base: sample,
                base: Seq::new(DELAY_BASE_HISTORY as nat, |i: int| sample),
                sampled: true,
                ..self
            }
        }
    }

    /// The history with `sample` weighed against the base of this minute and
    /// against the overall base, and its delay over the latter remembered.
    pub open spec fn measured(self, sample: u32) -> DelayHistView {
        let delay_base = earlier(sample, self.delay_base);
        DelayHistView {
            delay_base,
            cur: self.cur.update(self.cur_idx, sample.wrapping_sub(delay_base)),
            cur_idx: (self.cur_idx + 1) % CUR_DELAY_SIZE as int,
            base: self.base.update(self.base_idx, earlier(sample, self.base[self.base_idx])),
            ..self
        }
    }

    /// The history at the end of a minute: a new minute starts out with
    /// `sample`, and the base is the lowest of all minutes.
    pub open spec fn rolled(self, sample: u32, current_ms: u64) -> DelayHistView {
        if current_ms.wrapping_sub(self.base_time) > 60 * 1000 {
            let base_idx = (self.base_idx + 1) % DELAY_BASE_HISTORY as int;
            let base = self.base.update(base_idx, sample);
            DelayHistView {
                delay_base: earliest(base, DELAY_BASE_HISTORY as int),
                base,
                base_idx,
                base_time: current_ms,
                ..self
            }
        } else {
            self
        }
    }

    pub open spec fn sampled_with(self, sample: u32, current_ms: u64) -> DelayHistView {
        self.based(sample).measured(sample).rolled(sample, current_ms)
    }

    /// The lowest of the recent delays.
    pub open spec fn value(self) -> u32 {
        if self.sampled {
            min_u32(self.cur[0], min_u32(self.cur[1], self.cur[2]))
        } else {
            u32::MAX
        }
    }
}

#[derive(Clone, Copy)]
pub struct DelayHist {
    pub delay_base: u32,
    // history of delay samples, normalized by using the delay_base. These
    // values measure the queuing delay in microseconds
    pub cur_delay_hist: [u32; CUR_DELAY_SIZE],
    pub cur_delay_idx: usize,
    // history of delay_base. Relative values only.
    pub delay_base_hist: [u32; DELAY_BASE_HISTORY],
    pub delay_base_idx: usize,
    // the time when we last stepped the delay_base_idx
    pub delay_base_time: u64,
    pub delay_base_initialized: bool,
}

impl View for DelayHist {
    type V = DelayHistView;

    open spec fn view(&self) -> DelayHistView {
        DelayHistView {
            delay_base: self.delay_base,
            cur: self.cur_delay_hist@,
            cur_idx: self.cur_delay_idx as int,
            base: self.delay_base_hist@,
            base_idx: self.delay_base_idx as int,
            base_time: self.delay_base_time,
            sampled: self.delay_base_initialized,
        }
    }
}

impl DelayHist {
    pub fn new(current_ms: u64) -> (r: Self)
        ensures
            r@ == DelayHistView::fresh(current_ms),
            r@.wf(),
    {
        DelayHist {
            delay_base: 0,
            cur_delay_hist: [0; CUR_DELAY_SIZE],
            cur_delay_idx: 0,
            delay_base_hist: [0; DELAY_BASE_HISTORY],
            delay_base_idx: 0,
            delay_base_time: current_ms,
            delay_base_initialized: false,
        }
    }

    pub fn clear(&mut self, current_ms: u64)
        ensures
            final(self)@ == DelayHistView::fresh(current_ms),
            final(self)@.wf(),
    {
        *self = DelayHist::new(current_ms);
    }

    /// Increase all base delays by `offset`, used to account for clock skew
    /// observed via the other side's shrinking base delay.
    pub fn shift(&mut self, offset: u32)
        requires
            old(self)@.wf(),
        ensures
            final(self)@ == old(self)@.shifted(offset),
            final(self)@.wf(),
    {
        let ghost before = self.delay_base_hist@;
        let mut i: usize = 0;
        while i < DELAY_BASE_HISTORY
            invariant
                i <= DELAY_BASE_HISTORY,
                before.len() == DELAY_BASE_HISTORY,
                *self == (DelayHist { delay_base_hist: self.delay_base_hist, ..*old(self) }),
                forall|k: int|
                    0 <= k < DELAY_BASE_HISTORY ==> #[trigger] self.delay_base_hist@[k] == (if k
                        < i {
                        before[k].wrapping_add(offset)
                    } else {
                        before[k]
                    }),
            decreases DELAY_BASE_HISTORY - i,
        {
            self.delay_base_hist[i] = self.delay_base_hist[i].wrapping_add(offset);
            i += 1;
        }
        self.delay_base = self.delay_base.wrapping_add(offset);
        assert(self@.base =~= old(self)@.shifted(offset).base);
    }

    pub fn add_sample(&mut self, sample: u32, current_ms: u64)
        requires
            old(self)@.wf(),
        ensures
            final(self)@ == old(self)@.sampled_with(sample, current_ms),
            final(self)@.wf(),
    {
        // The min-operations against the sample below are subject to
        // wrapping, and care needs to be taken to choose the true minimum;
        // all arithmetic that assumes wrapping must be unsigned.
        if !self.delay_base_initialized {
            // no real measurements yet; initialize everything with this
            // sample
            self.delay_base_hist = [sample;DELAY_BASE_HISTORY];
            self.delay_base = sample;
            self.delay_base_initialized = true;
        }
        assert(self@ =~= old(self)@.based(sample));
        if wrapping_compare_less(
            sample,
            self.delay_base_hist[self.delay_base_idx],
            TIMESTAMP_MASK,
        ) {
            self.delay_base_hist[self.delay_base_idx] = sample;
        }
        if wrapping_compare_less(sample, self.delay_base, TIMESTAMP_MASK) {
            self.delay_base = sample;
        }
        // this operation may wrap, and is supposed to

        let delay: u32 = sample.wrapping_sub(self.delay_base);

        self.cur_delay_hist[self.cur_delay_idx] = delay;
        self.cur_delay_idx = (self.cur_delay_idx + 1) % CUR_DELAY_SIZE;
        assert(self@ =~= old(self)@.based(sample).measured(sample));

        // once every minute
        if current_ms.wrapping_sub(self.delay_base_time) > 60 * 1000 {
            self.delay_base_time = current_ms;
            self.delay_base_idx = (self.delay_base_idx + 1) % DELAY_BASE_HISTORY;
            // initialize the new slot to the current sample, then pick the
            // lowest delay in the history as the new base
            self.delay_base_hist[self.delay_base_idx] = sample;
            let mut lowest: u32 = self.delay_base_hist[0];
            let mut i: usize = 0;
            while i < DELAY_BASE_HISTORY
                invariant
                    i <= DELAY_BASE_HISTORY,
                    lowest == earliest(self.delay_base_hist@, i as int),
                decreases DELAY_BASE_HISTORY - i,
            {
                let v: u32 = self.delay_base_hist[i];
                if wrapping_compare_less(v, lowest, TIMESTAMP_MASK) {
                    lowest = v;
                }
                i += 1;
            }
            self.delay_base = lowest;
        }
    }

    /// The lowest of the recent delay samples; u32::MAX if there are no
    /// samples yet.
    pub fn get_value(&self) -> (r: u32)
        requires
            self@.wf(),
        ensures
            r == self@.value(),
    {
        if !self.delay_base_initialized {
            return u32::MAX;
        }
        let mut value: u32 = u32::MAX;
        let mut i: usize = 0;
        while i < CUR_DELAY_SIZE
            invariant
                i <= CUR_DELAY_SIZE,
                i == 0 ==> value == u32::MAX,
                i == 1 ==> value == self.cur_delay_hist@[0],
                i == 2 ==> value == min_u32(self.cur_delay_hist@[0], self.cur_delay_hist@[1]),
                i == 3 ==> value == min_u32(
                    self.cur_delay_hist@[0],
                    min_u32(self.cur_delay_hist@[1], self.cur_delay_hist@[2]),
                ),
            decreases CUR_DELAY_SIZE - i,
        {
            if self.cur_delay_hist[i] < value {
                value = self.cur_delay_hist[i];
            }
            i += 1;
        }
        value
    }
}

/// Which of two timestamps comes first does not depend on where the clock
/// started.
proof fn lemma_earlier_shifted(a: u32, b: u32, offset: u32)
    ensures
        earlier(a.wrapping_add(offset), b.wrapping_add(offset)) == earlier(a, b).wrapping_add(
            offset,
        ),
{
    lemma_wrapping_less_32(a, b);
    lemma_wrapping_less_32(a.wrapping_add(offset), b.wrapping_add(offset));
    assert(b.wrapping_add(offset).wrapping_sub(a.wrapping_add(offset)) == b.wrapping_sub(a));
    assert(a.wrapping_add(offset) == b.wrapping_add(offset) <==> a == b);
}

proof fn lemma_earliest_shifted(s: Seq<u32>, t: Seq<u32>, n: int, offset: u32)
    requires
        1 <= n <= s.len(),
        t == s.map_values(|v: u32| v.wrapping_add(offset)),
    ensures
        earliest(t, n) == earliest(s, n).wrapping_add(offset),
    decreases n,
{
    if n > 1 {
        lemma_earliest_shifted(s, t, n - 1, offset);
        lemma_earlier_shifted(s[n - 1], earliest(s, n - 1), offset);
    }
}

/// Only differences of timestamps count: if the peer's clock is set by an
/// offset, and the history is shifted by it, all goes on as before.
pub proof fn lemma_shift_commutes(h: DelayHistView, offset: u32, sample: u32, current_ms: u64)
    requires
        h.wf(),
    ensures
        h.shifted(offset).sampled_with(sample.wrapping_add(offset), current_ms) == h.sampled_with(
            sample,
            current_ms,
        ).shifted(offset),
        h.shifted(offset).value() == h.value(),
{
    let moved = sample.wrapping_add(offset);
    let a = h.based(sample);
    let b = h.shifted(offset).based(moved);
    assert(b =~= a.shifted(offset));
    let c = a.measured(sample);
    let d = b.measured(moved);
    lemma_earlier_shifted(sample, a.delay_base, offset);
    lemma_earlier_shifted(sample, a.base[a.base_idx], offset);
    assert(d.base =~= c.shifted(offset).base);
    assert(moved.wrapping_sub(d.delay_base) == sample.wrapping_sub(c.delay_base));
    assert(d =~= c.shifted(offset));
    let e = c.rolled(sample, current_ms);
    let f = d.rolled(moved, current_ms);
    let base_idx = (c.base_idx + 1) % DELAY_BASE_HISTORY as int;
    assert(d.base.update(base_idx, moved) =~= c.base.update(base_idx, sample).map_values(
        |v: u32| v.wrapping_add(offset),
    ));
    lemma_earliest_shifted(
        c.base.update(base_idx, sample),
        d.base.update(base_idx, moved),
        DELAY_BASE_HISTORY as int,
        offset,
    );
    assert(f =~= e.shifted(offset));
}

/// How far past `start` a timestamp lies on the circle.
pub open spec fn past(start: u32, t: u32) -> int {
    (t - start) % 0x1_0000_0000
}

/// Whether a timestamp lies on the half of the circle that begins at `start`.
pub open spec fn on_half(start: u32, t: u32) -> bool {
    past(start, t) < 0x8000_0000
}

/// On one half of the circle, the earlier of two timestamps is the one that
/// lies less far past its start.
proof fn lemma_earlier_on_half(start: u32, a: u32, b: u32)
    requires
        on_half(start, a),
        on_half(start, b),
    ensures
        on_half(start, earlier(a, b)),
        past(start, earlier(a, b)) <= past(start, a),
        past(start, earlier(a, b)) <= past(start, b),
        earlier(a, b) == a || earlier(a, b) == b,
{
    lemma_wrapping_less_32(a, b);
}

proof fn lemma_earliest_on_half(start: u32, s: Seq<u32>, n: int)
    requires
        1 <= n <= s.len(),
        forall|i: int| 0 <= i < s.len() ==> on_half(start, #[trigger] s[i]),
    ensures
        on_half(start, earliest(s, n)),
        forall|i: int| 0 <= i < n ==> past(start, earliest(s, n)) <= past(start, #[trigger] s[i]),
    decreases n,
{
    if n > 1 {
        lemma_earliest_on_half(start, s, n - 1);
        lemma_earlier_on_half(start, s[n - 1], earliest(s, n - 1));
    }
}

/// The first sample is the base, and has no delay over it.
pub proof fn lemma_first_sample_is_base(h: DelayHistView, sample: u32, current_ms: u64)
    requires
        h.wf(),
        !h.sampled,
    ensures
        ({
            let after = h.sampled_with(sample, current_ms);
            &&& after.sampled
            &&& after.delay_base == sample
            &&& forall|i: int| 0 <= i < 13 ==> #[trigger] after.base[i] == sample
            &&& after.cur[h.cur_idx] == 0
            &&& after.value() == 0
        }),
{
    let a = h.based(sample);
    let b = a.measured(sample);
    assert(earlier(sample, sample) == sample);
    let c = b.rolled(sample, current_ms);
    assert forall|i: int| 0 <= i < 13 implies #[trigger] c.base[i] == sample by {}
    lemma_earliest_same(c.base, 13, sample);
}

proof fn lemma_earliest_same(s: Seq<u32>, n: int, v: u32)
    requires
        1 <= n <= s.len(),
        forall|i: int| 0 <= i < s.len() ==> #[trigger] s[i] == v,
    ensures
        earliest(s, n) == v,
    decreases n,
{
    if n > 1 {
        lemma_earliest_same(s, n - 1, v);
    }
}

/// A sample counts for what it is over the base: the base is not past it, and
/// what is remembered of it is how far it lies past the base.
pub proof fn lemma_sample_is_weighed(h: DelayHistView, sample: u32, current_ms: u64, start: u32)
    requires
        h.wf(),
        h.sampled,
        on_half(start, h.delay_base),
        on_half(start, sample),
    ensures
        ({
            let after = h.sampled_with(sample, current_ms);
            let base = if past(start, sample) < past(start, h.delay_base) {
                past(start, sample)
            } else {
                past(start, h.delay_base)
            };
            &&& after.cur[h.cur_idx] == past(start, sample) - base
            &&& after.cur_idx == (h.cur_idx + 1) % 3
            &&& forall|i: int| 0 <= i < 3 && i != h.cur_idx ==> #[trigger] after.cur[i] == h.cur[i]
            &&& current_ms.wrapping_sub(h.base_time) <= 60000 ==> past(start, after.delay_base)
                == base
        }),
{
    lemma_wrapping_less_32(sample, h.delay_base);
}

/// The base is taken anew after every minute: it is the lowest of what the last
/// 13 minutes had, the new one beginning with this sample. Within a minute, the
/// minute's own base goes down to a lower sample.
pub proof fn lemma_base_is_lowest_of_minutes(
    h: DelayHistView,
    sample: u32,
    current_ms: u64,
    start: u32,
)
    requires
        h.wf(),
        h.sampled,
        on_half(start, sample),
        forall|i: int| 0 <= i < 13 ==> on_half(start, #[trigger] h.base[i]),
    ensures
        ({
            let after = h.sampled_with(sample, current_ms);
            let over = current_ms.wrapping_sub(h.base_time) > 60000;
            let next = (h.base_idx + 1) % 13;
            &&& over ==> {
                &&& after.base_time == current_ms
                &&& after.base_idx == next
                &&& after.base[next] == sample
                &&& forall|i: int| 0 <= i < 13 ==> past(start, after.delay_base) <= past(
                    start,
                    #[trigger] after.base[i],
                )
                &&& after.base.contains(after.delay_base)
            }
            &&& !over ==> {
                &&& after.base_time == h.base_time
                &&& after.base_idx == h.base_idx
                &&& past(start, after.base[h.base_idx]) <= past(start, sample)
                &&& past(start, after.base[h.base_idx]) <= past(start, h.base[h.base_idx])
            }
            &&& forall|i: int| 0 <= i < 13 && i != h.base_idx && i != after.base_idx ==> (
            #[trigger] after.base[i]) == h.base[i]
        }),
{
    let b = h.measured(sample);
    lemma_earlier_on_half(start, sample, h.base[h.base_idx]);
    let after = b.rolled(sample, current_ms);
    assert forall|i: int| 0 <= i < 13 implies on_half(start, #[trigger] after.base[i]) by {
        if i != h.base_idx {
            assert(on_half(start, h.base[i]));
        }
    }
    if current_ms.wrapping_sub(h.base_time) > 60000 {
        lemma_earliest_on_half(start, after.base, 13);
        lemma_earliest_is_one(after.base, 13);
    }
}

proof fn lemma_earliest_is_one(s: Seq<u32>, n: int)
    requires
        1 <= n <= s.len(),
    ensures
        s.contains(earliest(s, n)),
    decreases n,
{
    if n > 1 {
        lemma_earliest_is_one(s, n - 1);
        assert(s.contains(s[n - 1]));
    } else {
        assert(s.contains(s[0]));
    }
}

/// The delay to go by is the lowest of the last three.
pub proof fn lemma_value_is_lowest(h: DelayHistView)
    requires
        h.wf(),
        h.sampled,
    ensures
        forall|i: int| 0 <= i < 3 ==> h.value() <= #[trigger] h.cur[i],
        h.cur.contains(h.value()),
{
    assert(h.cur.contains(h.cur[0]) && h.cur.contains(h.cur[1]) && h.cur.contains(h.cur[2]));
}

} // verus!

//! The estimate of how far the peer's clock drifts away from ours, taken from
//! the slope of the averaged delay samples.

use crate::engine::rtt::truncated_div;
use vstd::prelude::*;

verus! {

/// The furthest a single delay sample may sit from the average delay baseline.
pub const MAX_AVERAGE_DELAY_SAMPLE: u32 = 536_870_911;

#[derive(Clone, Copy, PartialEq, Eq, Structural, Debug)]
pub struct Drift {
    /// average of the delay samples of the last full slot of 5 seconds,
    /// relative to average_delay_base
    pub average_delay: i32,
    pub current_delay_sum: i64,
    pub current_delay_samples: i32,
    pub average_delay_base: u32,
    /// when the current slot ends
    pub average_sample_time: u64,
    /// estimated clock drift, microseconds per 5 seconds
    pub clock_drift: i32,
    pub clock_drift_raw: i32,
}

pub open spec fn min_int(a: int, b: int) -> int {
    if a <= b {
        a
    } else {
        b
    }
}

pub open spec fn max_int(a: int, b: int) -> int {
    if a >= b {
        a
    } else {
        b
    }
}

/// How far, and which way, `sample` lies from `base` on the circle of
/// timestamps, cut to what the average can represent.
pub open spec fn clamped_distance(base: u32, sample: u32) -> int {
    let down = base.wrapping_sub(sample);
    let up = sample.wrapping_sub(base);
    if down > up {
        min_int(up as int, MAX_AVERAGE_DELAY_SAMPLE as int)
    } else {
        -min_int(down as int, MAX_AVERAGE_DELAY_SAMPLE as int)
    }
}

/// What to add to both of two averages so that 0 comes to lie between them.
pub open spec fn adjustment(a: int, b: int) -> int {
    if min_int(a, b) > 0 {
        -min_int(a, b)
    } else if max_int(a, b) < 0 {
        -max_int(a, b)
    } else {
        0
    }
}

impl Drift {
    pub open spec fn wf(self) -> bool {
        &&& -536_870_911 <= self.average_delay <= 536_870_911
        &&& 0 <= self.current_delay_samples
        &&& -536_870_911 * self.current_delay_samples <= self.current_delay_sum
        &&& self.current_delay_sum <= 536_870_911 * self.current_delay_samples
        &&& -1_073_741_822 <= self.clock_drift <= 1_073_741_822
    }

    pub open spec fn initial(average_sample_time: u64) -> Drift {
        Drift {
            average_delay: 0,
            current_delay_sum: 0,
            current_delay_samples: 0,
            average_delay_base: 0,
            average_sample_time,
            clock_drift: 0,
            clock_drift_raw: 0,
        }
    }

    /// With one more sample in the current slot. (A slot takes as many samples
    /// as can be counted.)
    pub open spec fn summed(self, sample: u32) -> Drift {
        let base = if self.average_delay_base == 0 {
            sample
        } else {
            self.average_delay_base
        };
        if self.current_delay_samples < i32::MAX {
            Drift {
                average_delay_base: base,
                current_delay_sum: (self.current_delay_sum + clamped_distance(base, sample)) as i64,
                current_delay_samples: (self.current_delay_samples + 1) as i32,
                ..self
            }
        } else {
            Drift { average_delay_base: base, ..self }
        }
    }

    /// At the end of a slot: the average of the slot, the drift since the
    /// slot before, and a fresh slot. Only the slope counts, so both averages
    /// are moved to lie around 0.
    pub open spec fn closed_slot(self) -> Drift {
        let average = truncated_div(
            self.current_delay_sum as int,
            self.current_delay_samples as int,
        );
        let adjust = adjustment(self.average_delay as int, average);
        let drift = average - self.average_delay;
        Drift {
            average_delay: (average + adjust) as i32,
            current_delay_sum: 0,
            current_delay_samples: 0,
            average_delay_base: self.average_delay_base.wrapping_sub((adjust as i32) as u32),
            average_sample_time: self.average_sample_time.wrapping_add(5000),
            clock_drift: truncated_div(self.clock_drift * 7 + drift, 8) as i32,
            clock_drift_raw: drift as i32,
        }
    }

    pub open spec fn sampled(self, sample: u32, current_ms: u64) -> Drift {
        let summed = self.summed(sample);
        if current_ms > self.average_sample_time {
            summed.closed_slot()
        } else {
            summed
        }
    }

    pub fn add_sample(&mut self, actual_delay: u32, current_ms: u64)
        requires
            old(self).wf(),
        ensures
            *final(self) == old(self).sampled(actual_delay, current_ms),
            final(self).wf(),
    {
        // keep an average of the delay samples received within the last
        // 5 seconds, based off average_delay_base to deal with wrapping
        if self.average_delay_base == 0 {
            self.average_delay_base = actual_delay;
        }
        // distances walking from the base to the sample, both directions

        let dist_down: u32 = self.average_delay_base.wrapping_sub(actual_delay);
        let dist_up: u32 = actual_delay.wrapping_sub(self.average_delay_base);
        // both are derived from reply_micro, which the peer picks
        // freely, so clamp the sample to the range this average can
        // represent
        let sample: i64 = if dist_down > dist_up {
            // base < sample: positive sample
            if dist_up < MAX_AVERAGE_DELAY_SAMPLE {
                dist_up as i64
            } else {
                MAX_AVERAGE_DELAY_SAMPLE as i64
            }
        } else {
            // base >= sample: negative sample
            if dist_down < MAX_AVERAGE_DELAY_SAMPLE {
                -(dist_down as i64)
            } else {
                -(MAX_AVERAGE_DELAY_SAMPLE as i64)
            }
        };
        if self.current_delay_samples < i32::MAX {
            self.current_delay_sum = self.current_delay_sum + sample;
            self.current_delay_samples = self.current_delay_samples + 1;
        }
        if current_ms > self.average_sample_time {
            self.close_slot();
        }
    }

    fn close_slot(&mut self)
        requires
            old(self).wf(),
            old(self).current_delay_samples > 0,
        ensures
            *final(self) == old(self).closed_slot(),
            final(self).wf(),
    {
        let mut prev_average_delay: i32 = self.average_delay;
        let ghost sum = self.current_delay_sum as int;
        let ghost samples = self.current_delay_samples as int;
        assert(-536_870_911 <= truncated_div(sum, samples) <= 536_870_911) by {
            if sum >= 0 {
                lemma_div_at_most(sum, samples, 536_870_911);
            } else {
                lemma_div_at_most(-sum, samples, 536_870_911);
            }
        }
        self.average_delay = (self.current_delay_sum / self.current_delay_samples as i64) as i32;
        // each slot represents 5 seconds
        self.average_sample_time = self.average_sample_time.wrapping_add(5000);
        self.current_delay_sum = 0;
        self.current_delay_samples = 0;

        // We're only interested in the slope of the curve formed by
        // the average delay samples, so cancel out the offset to
        // avoid trouble with wrapping. Normalize around zero: try to
        // keep min <= 0 and max >= 0.
        let min_sample: i32 = if prev_average_delay < self.average_delay {
            prev_average_delay
        } else {
            self.average_delay
        };
        let max_sample: i32 = if prev_average_delay > self.average_delay {
            prev_average_delay
        } else {
            self.average_delay
        };
        let mut adjust: i32 = 0;
        if min_sample > 0 {
            adjust = -min_sample;
        } else if max_sample < 0 {
            adjust = -max_sample;
        }
        if adjust != 0 {
            self.average_delay_base = self.average_delay_base.wrapping_sub(adjust as u32);
            self.average_delay = self.average_delay + adjust;
            prev_average_delay = prev_average_delay + adjust;
        }
        // update the clock drift estimate: the average slope across
        // our history, in microseconds per 5 seconds

        let drift: i32 = self.average_delay - prev_average_delay;
        // clock_drift is a rolling average
        self.clock_drift = ((self.clock_drift as i64 * 7 + drift as i64) / 8) as i32;
        self.clock_drift_raw = drift;
    }
}

/// Whatever delays the peer reports, the estimate stays within its bounds.
pub proof fn lemma_drift_bounded(d: Drift, sample: u32, current_ms: u64)
    requires
        d.wf(),
    ensures
        d.sampled(sample, current_ms).wf(),
{
    let e = d.summed(sample);
    assert(e.wf());
    if current_ms > d.average_sample_time {
        let sum = e.current_delay_sum as int;
        let samples = e.current_delay_samples as int;
        if sum >= 0 {
            lemma_div_at_most(sum, samples, 536_870_911);
        } else {
            lemma_div_at_most(-sum, samples, 536_870_911);
        }
    }
}

proof fn lemma_div_at_most(x: int, n: int, most: int)
    by (nonlinear_arith)
    requires
        0 <= x <= most * n,
        n > 0,
    ensures
        0 <= x / n <= most,
{
}

/// The drift is the slope of the delays: a slot of 5 seconds whose one sample
/// lies `e` past the base differs from the slot before by as much as it lies
/// past that one's average, and that difference moves the estimate by an eighth
/// of the way. What the averages are relative to may change, but not what they
/// are.
pub proof fn lemma_drift_is_slope(d: Drift, sample: u32, current_ms: u64, e: int)
    requires
        d.wf(),
        d.average_delay_base != 0,
        d.current_delay_samples == 0,
        d.average_sample_time < current_ms,
        d.average_sample_time < u64::MAX - 5000,
        -536_870_911 <= e <= 536_870_911,
        (sample - d.average_delay_base) % 0x1_0000_0000 == e % 0x1_0000_0000,
    ensures
        ({
            let after = d.sampled(sample, current_ms);
            &&& after.clock_drift_raw == e - d.average_delay
            &&& -8 < 8 * after.clock_drift - (7 * d.clock_drift + (e - d.average_delay)) < 8
            &&& (after.average_delay_base + after.average_delay) % 0x1_0000_0000 == sample
            &&& after.current_delay_samples == 0
            &&& after.current_delay_sum == 0
            &&& after.average_sample_time == d.average_sample_time + 5000
        }),
{
    assert(clamped_distance(d.average_delay_base, sample) == e);
    let s = d.summed(sample);
    assert(s.current_delay_sum == e && s.current_delay_samples == 1);
    assert(truncated_div(e, 1) == e);
    let adjust: i32 = adjustment(d.average_delay as int, e) as i32;
    assert(adjust >= 0 ==> adjust as u32 == adjust) by (bit_vector);
    assert(adjust < 0 ==> adjust as u32 == 0x1_0000_0000 + adjust) by (bit_vector);
    let x = d.clock_drift * 7 + (e - d.average_delay);
    assert(-8 < 8 * truncated_div(x, 8) - x < 8);
}

/// Within a slot, samples are gathered and the estimate rests.
pub proof fn lemma_drift_rests(d: Drift, sample: u32, current_ms: u64)
    requires
        d.wf(),
        current_ms <= d.average_sample_time,
        d.current_delay_samples < i32::MAX,
    ensures
        ({
            let after = d.sampled(sample, current_ms);
            &&& after.clock_drift == d.clock_drift
            &&& after.average_delay == d.average_delay
            &&& after.average_sample_time == d.average_sample_time
            &&& after.current_delay_samples == d.current_delay_samples + 1
        }),
{
}

} // verus!
//! The congestion window and what moves it: the LEDBAT controller, slow
//! start, and the decay on loss.

use crate::engine::ledbat::{
    halve, halved, is_near_target, ledbat, ledbat_window, lemma_beyond_is_near, near_target,
    slow_start, slow_start_window, EXACT,
};
use vstd::prelude::*;

verus! {

/// this is the minimum max_window value. It can never drop below this
pub const MIN_WINDOW_SIZE: usize = 10;

/// milliseconds
pub const MAX_WINDOW_DECAY: i64 = 100;

#[derive(Clone, Copy, PartialEq, Eq, Structural, Debug)]
pub struct Cwnd {
    /// maximum window size, in bytes
    pub max_window: usize,
    pub opt_sndbuf: usize,
    /// target delay in microseconds
    pub target_delay: usize,
    /// true if we're in slow-start (exponential growth) phase
    pub slow_start: bool,
    /// the slow-start threshold, in bytes
    pub ssthresh: usize,
    /// ms when we last decayed window (wraps)
    pub last_rwin_decay: i64,
    /// timestamp of the last time the cwnd was full
    pub last_maxed_out_window: u64,
}

/// The target delay in force: a setting that is no positive 32-bit number
/// stands for 100 ms.
pub open spec fn effective_target(target_delay: usize) -> i32 {
    if (target_delay as i32) <= 0 {
        100_000
    } else {
        target_delay as i32
    }
}

/// The delay to go by: what was measured, but no more than the round trip
/// took, and with a penalty for a clock that drifts very far.
pub open spec fn effective_delay(measured: u32, min_rtt: i64, clock_drift: i32) -> i32 {
    let delay = (if (measured as u64) <= (min_rtt as u64) {
        measured as u64
    } else {
        min_rtt as u64
    }) as i32;
    if clock_drift < -200_000 {
        delay.wrapping_add(((-clock_drift - 200_000) / 7) as i32)
    } else {
        delay
    }
}

/// `w` kept at or above the minimum, and at or below `most` otherwise.
pub open spec fn clamped_window(w: usize, most: usize) -> usize {
    if w < MIN_WINDOW_SIZE {
        MIN_WINDOW_SIZE
    } else if w > most {
        most
    } else {
        w
    }
}

impl Cwnd {
    pub open spec fn initial(opt_sndbuf: usize, target_delay: usize) -> Cwnd {
        Cwnd {
            max_window: 0,
            opt_sndbuf,
            target_delay,
            slow_start: true,
            ssthresh: opt_sndbuf,
            last_rwin_decay: 0,
            last_maxed_out_window: 0,
        }
    }

    /// A loss: the window is halved, at most once in a while, and slow start
    /// is over.
    pub open spec fn decayed(self, current_ms: u64) -> Cwnd {
        if (current_ms as i64).wrapping_sub(self.last_rwin_decay) >= MAX_WINDOW_DECAY {
            let max_window = if halved(self.max_window) < MIN_WINDOW_SIZE {
                MIN_WINDOW_SIZE
            } else {
                halved(self.max_window)
            };
            Cwnd {
                max_window,
                last_rwin_decay: current_ms as i64,
                slow_start: false,
                ssthresh: max_window,
                ..self
            }
        } else {
            self
        }
    }

    /// `bytes_acked` came back at a delay of `our_delay`.
    pub open spec fn controlled(
        self,
        current_ms: u64,
        bytes_acked: usize,
        our_delay: i32,
        packet_size: usize,
    ) -> Cwnd {
        let target = effective_target(self.target_delay);
        // if it was more than 1 second since we tried to send a packet and
        // stopped because we hit the max window, we're most likely rate
        // limited; don't let the window grow indefinitely
        let limited = current_ms.wrapping_sub(self.last_maxed_out_window) > 1000;
        let ledbat = ledbat_window(
            self.max_window,
            bytes_acked,
            target.wrapping_sub(our_delay),
            target,
            limited,
        );
        let ss = slow_start_window(self.max_window, bytes_acked, packet_size);
        if !self.slow_start {
            Cwnd { max_window: clamped_window(ledbat, self.opt_sndbuf), ..self }
        } else if ss > self.ssthresh {
            Cwnd {
                slow_start: false,
                max_window: clamped_window(self.max_window, self.opt_sndbuf),
                ..self
            }
        } else if near_target(our_delay, target) {
            // even a little under the target delay, we conservatively
            // discontinue the slow start phase
            Cwnd {
                slow_start: false,
                ssthresh: self.max_window,
                max_window: clamped_window(self.max_window, self.opt_sndbuf),
                ..self
            }
        } else {
            Cwnd {
                max_window: clamped_window(
                    if ss > ledbat {
                        ss
                    } else {
                        ledbat
                    },
                    self.opt_sndbuf,
                ),
                ..self
            }
        }
    }

    /// The retransmission timer ran out with (`idle`) nothing or something in
    /// flight: an idle window decays by a third, any other starts over with
    /// one packet.
    pub open spec fn timed_out(self, idle: bool, packet_size: usize) -> Cwnd {
        if idle && self.max_window > packet_size {
            let third_off = (self.max_window as u128 * 2 / 3) as usize;
            Cwnd {
                max_window: if third_off > packet_size {
                    third_off
                } else {
                    packet_size
                },
                ..self
            }
        } else {
            Cwnd { max_window: packet_size, slow_start: true, ..self }
        }
    }

    pub fn can_decay_win(&self, msec: i64) -> (r: bool)
        ensures
            r == (msec.wrapping_sub(self.last_rwin_decay) >= MAX_WINDOW_DECAY),
    {
        msec.wrapping_sub(self.last_rwin_decay) >= MAX_WINDOW_DECAY
    }

    /// If we can, decay max window
    pub fn maybe_decay_win(&mut self, current_ms: u64)
        ensures
            *final(self) == old(self).decayed(current_ms),
    {
        if self.can_decay_win(current_ms as i64) {
            // TCP uses 0.5
            self.max_window = halve(self.max_window);
            self.last_rwin_decay = current_ms as i64;
            if self.max_window < MIN_WINDOW_SIZE {
                self.max_window = MIN_WINDOW_SIZE;
            }
            self.slow_start = false;
            self.ssthresh = self.max_window;
        }
    }

    /// The LEDBAT congestion controller. `measured` is the lowest recent
    /// delay.
    pub fn apply_ccontrol(
        &mut self,
        current_ms: u64,
        bytes_acked: usize,
        measured: u32,
        min_rtt: i64,
        clock_drift: i32,
        packet_size: usize,
    )
        requires
            bytes_acked > 0,
            packet_size > 0,
            clock_drift > i32::MIN,
        ensures
            *final(self) == old(self).controlled(
                current_ms,
                bytes_acked,
                effective_delay(measured, min_rtt, clock_drift),
                packet_size,
            ),
            // a delay at the target or beyond never lets the window grow
            old(self).max_window <= EXACT && effective_delay(measured, min_rtt, clock_drift)
                >= effective_target(old(self).target_delay) ==> final(self).max_window
                <= old(self).max_window || final(self).max_window <= MIN_WINDOW_SIZE,
    {
        // the delay can never be greater than the rtt
        let rtt: u64 = min_rtt as u64;
        let mut our_delay: i32 = (if (measured as u64) <= rtt {
            measured as u64
        } else {
            rtt
        }) as i32;
        // target is microseconds
        let mut target: i32 = self.target_delay as i32;
        if target <= 0 {
            target = 100_000;
        }
        // compensate for very large clock drift that would otherwise give
        // certain endpoints an unfair share of the bandwidth (e.g. peers
        // "cheating" uTP by making their clock run slower)

        if clock_drift < -200_000 {
            let penalty: i32 = (-clock_drift - 200_000) / 7;
            our_delay = our_delay.wrapping_add(penalty);
        }
        let off_target: i32 = target.wrapping_sub(our_delay);
        proof {
            if our_delay >= target {
                lemma_beyond_is_near(our_delay, target);
            }
        }
        let limited: bool = current_ms.wrapping_sub(self.last_maxed_out_window) > 1000;
        let ledbat_cwnd: usize = ledbat(
            self.max_window,
            bytes_acked,
            off_target,
            target,
            limited,
        );
        if self.slow_start {
            let ss_cwnd: usize = slow_start(self.max_window, bytes_acked, packet_size);
            if ss_cwnd > self.ssthresh {
                self.slow_start = false;
            } else if is_near_target(our_delay, target) {
                self.slow_start = false;
                self.ssthresh = self.max_window;
            } else {
                self.max_window = if ss_cwnd > ledbat_cwnd {
                    ss_cwnd
                } else {
                    ledbat_cwnd
                };
            }
        } else {
            self.max_window = ledbat_cwnd;
        }
        // make sure that the congestion window is below max and that we
        // don't shrink our window too small
        if self.max_window < MIN_WINDOW_SIZE {
            self.max_window = MIN_WINDOW_SIZE;
        } else if self.max_window > self.opt_sndbuf {
            self.max_window = self.opt_sndbuf;
        }
    }

    pub fn on_timeout(&mut self, idle: bool, packet_size: usize)
        ensures
            *final(self) == old(self).timed_out(idle, packet_size),
    {
        if idle && self.max_window > packet_size {
            // connection is idling; let the window decay by a third
            let third_off: usize = (self.max_window as u128 * 2 / 3) as usize;
            self.max_window = if third_off > packet_size {
                third_off
            } else {
                packet_size
            };
        } else {
            // reset the congestion window to fit one packet, to start over
            // again
            self.max_window = packet_size;
            self.slow_start = true;
        }
    }
}

/// However the controller comes out, the window ends up at the minimum or
/// above it, and within the send buffer if that is larger than the minimum.
pub proof fn lemma_control_bounds(
    c: Cwnd,
    current_ms: u64,
    bytes_acked: usize,
    our_delay: i32,
    packet_size: usize,
)
    requires
        c.opt_sndbuf >= MIN_WINDOW_SIZE,
    ensures
        MIN_WINDOW_SIZE <= c.controlled(
            current_ms,
            bytes_acked,
            our_delay,
            packet_size,
        ).max_window <= c.opt_sndbuf,
{
}

} // verus!

//! What an incoming packet tells about the path: which packets got through, how
//! long they took, and what that means for the congestion window.

use crate::clock::Now;
use crate::delay_hist::DelayHistView;
use crate::engine::drift::lemma_drift_bounded;
use crate::engine::eack::{age, min_i64, shorter_rtt, DUPLICATE_ACKS_BEFORE_RESEND, MAX_MASK};
use crate::engine::mtu::{lemma_search_keeps_order, Mtu};
use crate::engine::queue::lemma_queue_at;
use crate::engine::state::{Seen, SendSide, SockView, UtpSock};
use crate::engine::window::effective_delay;
use crate::packet::{be16, be32, Header, HEADER_SIZE, ST_STATE};
use crate::util::{wrapping_compare_less, wrapping_less};
use vstd::prelude::*;

verus! {

/// The header fields that the engine goes by.
#[derive(Clone, Copy, PartialEq, Eq, Structural, Debug)]
pub struct Fields {
    pub packet_type: u8,
    /// the peer's time when it sent the packet, in microseconds
    pub tv_usec: u32,
    /// the delay of our packets, as the peer measured it
    pub reply_micro: u32,
    pub window_size: u32,
    pub seq_nr: u16,
    pub ack_nr: u16,
}

pub open spec fn fields_of(buf: Seq<u8>) -> Fields {
    Fields {
        packet_type: (buf[0] / 16) as u8,
        tv_usec: be32(buf, 4) as u32,
        reply_micro: be32(buf, 8) as u32,
        window_size: be32(buf, 12) as u32,
        seq_nr: be16(buf, 16) as u16,
        ack_nr: be16(buf, 18) as u16,
    }
}

pub fn read_fields(buf: &[u8]) -> (r: Fields)
    requires
        buf@.len() >= HEADER_SIZE,
    ensures
        r == fields_of(buf@),
{
    let h = Header(buf);
    Fields {
        packet_type: h.packet_type(),
        tv_usec: h.tv_usec(),
        reply_micro: h.reply_micro(),
        window_size: h.window_size(),
        seq_nr: h.seq_nr(),
        ack_nr: h.ack_nr(),
    }
}

impl Fields {
    /// The delay that the peer has measured; 0 if it has not yet.
    pub open spec fn delay(self) -> u32 {
        if self.reply_micro == 0x7fff_ffff {
            0
        } else {
            self.reply_micro
        }
    }

    /// The delay of the packet itself, by the two clocks; 0 if the peer did
    /// not say when it sent it.
    pub open spec fn their_delay(self, now: Now) -> u32 {
        if self.tv_usec == 0 {
            0
        } else {
            (now.us as u32).wrapping_sub(self.tv_usec)
        }
    }
}

/// What a look at the packets that an ack covers comes to.
pub struct Tally {
    /// bytes acked
    pub bytes: int,
    /// the minimum rtt of all acks: an upper limit on the delay we'll accept
    /// back from the other peer
    pub rtt: i64,
    pub mtu: Mtu,
}

/// The delay base of ours is shifted against a shift of theirs from `prev` to
/// `base`, in order to take the clock skew into account, but never by more
/// than 10 milliseconds.
pub open spec fn skew_compensated(ours: DelayHistView, prev: u32, base: u32) -> DelayHistView {
    if prev != 0 && wrapping_less(base, prev, 0xffff_ffff) && prev.wrapping_sub(base) <= 10000 {
        ours.shifted(prev.wrapping_sub(base))
    } else {
        ours
    }
}

/// A delay estimate that exceeds the round trip time is brought down to it.
/// Without samples there is no estimate.
pub open spec fn capped_at(hist: DelayHistView, rtt: i64) -> DelayHistView {
    if hist.sampled && hist.value() as i64 > rtt {
        hist.shifted((hist.value() as i64).wrapping_sub(rtt) as u32)
    } else {
        hist
    }
}

impl SockView {
    /// How many packets an ack of `ack_nr` covers; none if it is an old one.
    pub open spec fn acks_of(self, ack_nr: u16) -> u16 {
        let n = ack_nr.wrapping_sub(
            self.send.seq_nr.wrapping_sub(1).wrapping_sub(self.send.cur_window_packets),
        );
        if n > self.send.cur_window_packets {
            0
        } else {
            n
        }
    }

    /// The same ack as before, in a packet that holds nothing else, is a
    /// duplicate. Enough of them tell that something did not get through,
    /// possibly the MTU probe.
    pub open spec fn duplicates_counted(self, f: Fields, now_ms: u64) -> SockView {
        if self.send.cur_window_packets == 0 {
            self
        } else if f.ack_nr == self.oldest_seq().wrapping_sub(1) && f.packet_type == ST_STATE {
            let count = self.send.duplicate_ack.wrapping_add(1);
            let probe_fails = count as u32 == DUPLICATE_ACKS_BEFORE_RESEND && self.mtu.probe_seq
                != 0;
            SockView {
                send: SendSide { duplicate_ack: count, ..self.send },
                mtu: if !probe_fails {
                    self.mtu
                } else if f.ack_nr as u32 == self.mtu.probe_seq.wrapping_sub(1) & 0xffff {
                    // it's likely the probe was rejected due to its size, but
                    // we haven't got an ICMP report back yet
                    self.mtu.probe_lost(now_ms)
                } else {
                    // A non-probe was blocked before our probe. Can't
                    // conclude much, send a new probe
                    self.mtu.no_probe()
                },
                ..self
            }
        } else {
            SockView { send: SendSide { duplicate_ack: 0, ..self.send }, ..self }
        }
    }

    /// A look at the `n` oldest packets, which are about to be acked.
    pub open spec fn tallied(self, now: Now, n: int) -> Tally
        decreases n,
    {
        if n <= 0 {
            Tally { bytes: 0, rtt: i64::MAX, mtu: self.mtu }
        } else {
            let t = self.tallied(now, n - 1);
            let seq = self.oldest_seq().wrapping_add((n - 1) as u16);
            if self.was_sent(seq) {
                let p = self.packet_at(seq)->0;
                Tally {
                    bytes: t.bytes + p.payload,
                    rtt: min_i64(t.rtt, age(now, p.time_sent)),
                    mtu: if t.mtu.probe_seq != 0 && seq as u32 == t.mtu.probe_seq {
                        t.mtu.probe_acked(now.ms)
                    } else {
                        t.mtu
                    },
                }
            } else {
                t
            }
        }
    }

    /// The delays in both directions are noted; the one of this packet is to
    /// be reported back.
    pub open spec fn delays_noted(self, f: Fields, now: Now, current_ms: u64) -> SockView {
        let theirs = if f.their_delay(now) != 0 {
            self.their_hist.sampled_with(f.their_delay(now), current_ms)
        } else {
            self.their_hist
        };
        let ours = skew_compensated(self.our_hist, self.their_hist.delay_base, theirs.delay_base);
        SockView {
            seen: Seen {
                last_measured_delay: current_ms,
                reply_micro: f.their_delay(now),
                ..self.seen
            },
            their_hist: theirs,
            our_hist: if f.delay() != 0 {
                ours.sampled_with(f.delay(), current_ms)
            } else {
                ours
            },
            drift: if f.delay() != 0 {
                self.drift.sampled(f.delay(), current_ms)
            } else {
                self.drift
            },
            ..self
        }
    }

    /// The congestion controller goes by acks for which there is a delay.
    pub open spec fn congestion_controlled(
        self,
        f: Fields,
        current_ms: u64,
        bytes: int,
        rtt: i64,
    ) -> SockView {
        if f.delay() != 0 && bytes >= 1 {
            SockView {
                cwnd: self.cwnd.controlled(
                    current_ms,
                    bytes as usize,
                    effective_delay(self.our_hist.value(), rtt, self.drift.clock_drift),
                    self.packet_size(),
                ),
                ..self
            }
        } else {
            self
        }
    }

    /// The bytes that a packet with ack `acks` and mask `selack` acks.
    pub open spec fn bytes_acked(self, f: Fields, selack: Option<Seq<u8>>, now: Now) -> int {
        self.tallied(now, self.acks_of(f.ack_nr) as int).bytes + match selack {
            Some(mask) => self.eacked_bytes(
                f.ack_nr.wrapping_add(2),
                mask,
                8 * mask.len() as int,
            ),
            None => 0,
        }
    }

    /// The shortest time that one of those packets took.
    pub open spec fn rtt_acked(self, f: Fields, selack: Option<Seq<u8>>, now: Now) -> i64 {
        let rtt = self.tallied(now, self.acks_of(f.ack_nr) as int).rtt;
        match selack {
            Some(mask) => self.eacked_rtt(
                now,
                f.ack_nr.wrapping_add(2),
                mask,
                8 * mask.len() as int,
                rtt,
            ),
            None => rtt,
        }
    }

    /// All that an incoming packet tells about the path.
    #[verifier::opaque]
    pub open spec fn measured(
        self,
        f: Fields,
        selack: Option<Seq<u8>>,
        now: Now,
        current_ms: u64,
    ) -> SockView {
        let s = self.duplicates_counted(f, now.ms);
        let bytes = s.bytes_acked(f, selack, now);
        let rtt = s.rtt_acked(f, selack, now);
        let s = SockView { mtu: s.tallied(now, s.acks_of(f.ack_nr) as int).mtu, ..s };
        let s = s.delays_noted(f, now, current_ms);
        let s = SockView { our_hist: capped_at(s.our_hist, rtt), ..s };
        s.congestion_controlled(f, current_ms, bytes, rtt)
    }
}

/// `b` differs from `a` at most in what is learnt about the path.
pub open spec fn measure_frame(a: SockView, b: SockView) -> bool {
    b == (SockView {
        send: SendSide { duplicate_ack: b.send.duplicate_ack, ..a.send },
        seen: b.seen,
        cwnd: b.cwnd,
        mtu: b.mtu,
        drift: b.drift,
        our_hist: b.our_hist,
        their_hist: b.their_hist,
        ..a
    })
}

proof fn lemma_duplicates_counted(s: SockView, f: Fields, now_ms: u64)
    requires
        s.aux_wf(),
    ensures
        s.duplicates_counted(f, now_ms).aux_wf(),
        s.duplicates_counted(f, now_ms) == (SockView {
            send: s.duplicates_counted(f, now_ms).send,
            mtu: s.duplicates_counted(f, now_ms).mtu,
            ..s
        }),
{
    if s.mtu.probe_seq != 0 {
        lemma_search_keeps_order(s.mtu, now_ms);
    }
}

/// A tally is bounded, and keeps the MTU search in order.
pub proof fn lemma_tallied(s: SockView, now: Now, n: int)
    requires
        s.send_wf(),
        s.mtu.wf(),
    ensures
        s.tallied(now, n).mtu.wf(),
        0 <= s.tallied(now, n).bytes,
        n >= 0 ==> s.tallied(now, n).bytes <= 1382 * n,
    decreases n,
{
    if n > 0 {
        lemma_tallied(s, now, n - 1);
        let t = s.tallied(now, n - 1);
        let seq = s.oldest_seq().wrapping_add((n - 1) as u16);
        lemma_queue_at(
            s.outbuf,
            s.send.seq_nr,
            s.send.cur_window_packets,
            s.send.cur_window,
            seq as int,
        );
        if t.mtu.probe_seq != 0 {
            lemma_search_keeps_order(t.mtu, now.ms);
        }
    }
}

proof fn lemma_delays_noted(s: SockView, f: Fields, now: Now, current_ms: u64)
    requires
        s.aux_wf(),
    ensures
        s.delays_noted(f, now, current_ms).aux_wf(),
        measure_frame(s, s.delays_noted(f, now, current_ms)),
{
    lemma_drift_bounded(s.drift, f.delay(), current_ms);
}

/// Measuring keeps the socket in order, and everything else alone.
pub proof fn lemma_measured(
    s: SockView,
    f: Fields,
    selack: Option<Seq<u8>>,
    now: Now,
    current_ms: u64,
)
    requires
        s.send_wf(),
        s.aux_wf(),
    ensures
        s.measured(f, selack, now, current_ms).aux_wf(),
        measure_frame(s, s.measured(f, selack, now, current_ms)),
{
    reveal(SockView::measured);
    let a = s.duplicates_counted(f, now.ms);
    lemma_duplicates_counted(s, f, now.ms);
    lemma_tallied(a, now, a.acks_of(f.ack_nr) as int);
    let b = SockView { mtu: a.tallied(now, a.acks_of(f.ack_nr) as int).mtu, ..a };
    lemma_delays_noted(b, f, now, current_ms);
}

impl UtpSock {
    /// Counts duplicate acks.
    fn count_duplicates(&mut self, f: Fields, now_ms: u64)
        requires
            old(self)@.mtu.wf(),
        ensures
            final(self)@ == old(self)@.duplicates_counted(f, now_ms),
            old(self).bufs_wf() ==> final(self).bufs_wf(),
    {
        // if we get the same ack_nr as in the last packet, increase the
        // duplicate_ack counter, otherwise reset it to 0. It's important to
        // only count ACKs in ST_STATE packets (in line with BSD4.4 TCP).
        if self.send.cur_window_packets > 0 {
            if f.ack_nr == self.send.seq_nr.wrapping_sub(
                self.send.cur_window_packets,
            ).wrapping_sub(1) && f.packet_type == ST_STATE {
                self.send.duplicate_ack = self.send.duplicate_ack.wrapping_add(1);
                if self.send.duplicate_ack as u32 == DUPLICATE_ACKS_BEFORE_RESEND
                    && self.mtu.probe_seq != 0 {
                    // it's likely the probe was rejected due to its size, but
                    // we haven't got an ICMP report back yet
                    if f.ack_nr as u32 == self.mtu.probe_seq.wrapping_sub(1) & 0xffff {
                        self.mtu.on_probe_lost(now_ms);
                    } else {
                        // A non-probe was blocked before our probe. Can't
                        // conclude much, send a new probe
                        self.mtu.drop_probe();
                    }
                }
            } else {
                self.send.duplicate_ack = 0;
            }
        }
    }

    /// Looks at the `acks` oldest packets. Returns how many bytes they make up,
    /// and the shortest time that one of them took.
    fn tally(&mut self, now: Now, acks: u16) -> (r: (usize, i64))
        requires
            old(self).bufs_wf(),
            old(self)@.send_wf(),
            old(self)@.mtu.wf(),
        ensures
            ({
                let t = old(self)@.tallied(now, acks as int);
                &&& r.0 == t.bytes
                &&& r.1 == t.rtt
                &&& final(self)@ == (SockView { mtu: t.mtu, ..old(self)@ })
            }),
            final(self).bufs_wf(),
    {
        // figure out how many bytes were acked
        let mut acked_bytes: usize = 0;
        let mut min_rtt: i64 = i64::MAX;
        let mut i: u16 = 0;
        let ghost s = self@;
        while i < acks
            invariant
                self.bufs_wf(),
                s == old(self)@,
                s.send_wf(),
                s.mtu.wf(),
                i <= acks,
                self@ == (SockView { mtu: s.tallied(now, i as int).mtu, ..s }),
                acked_bytes == s.tallied(now, i as int).bytes,
                min_rtt == s.tallied(now, i as int).rtt,
            decreases acks - i,
        {
            let seq: u16 = self.send.seq_nr.wrapping_sub(
                self.send.cur_window_packets,
            ).wrapping_add(i);
            proof {
                lemma_tallied(s, now, i as int);
                lemma_tallied(s, now, i + 1);
            }
            match self.sent_packet(seq) {
                Some((payload, time_sent)) => {
                    acked_bytes = acked_bytes + payload;
                    if self.mtu.probe_seq != 0 && seq as u32 == self.mtu.probe_seq {
                        self.mtu.on_probe_acked(now.ms);
                    }
                    min_rtt = shorter_rtt(min_rtt, now, time_sent);
                },
                None => {},
            }
            i = i + 1;
        }
        (acked_bytes, min_rtt)
    }

    /// Takes note of the delays in both directions.
    fn note_delays(&mut self, f: Fields, now: Now, current_ms: u64)
        requires
            old(self)@.aux_wf(),
        ensures
            final(self)@ == old(self)@.delays_noted(f, now, current_ms),
            old(self).bufs_wf() ==> final(self).bufs_wf(),
    {
        self.seen.last_measured_delay = current_ms;
        // get delay in both directions, record the delay to report back
        let their_delay: u32 = if f.tv_usec == 0 {
            0
        } else {
            (now.us as u32).wrapping_sub(f.tv_usec)
        };
        self.seen.reply_micro = their_delay;
        let prev: u32 = self.their_hist.delay_base;
        if their_delay != 0 {
            self.their_hist.add_sample(their_delay, current_ms);
        }
        // if their new delay base is less than their previous one, we should
        // shift our delay base in the other direction in order to take the
        // clock skew into account

        let base: u32 = self.their_hist.delay_base;
        if prev != 0 && wrapping_compare_less(base, prev, 0xffff_ffff) {
            // never adjust more than 10 milliseconds
            if prev.wrapping_sub(base) <= 10000 {
                self.our_hist.shift(prev.wrapping_sub(base));
            }
        }
        let actual_delay: u32 = if f.reply_micro == 0x7fff_ffff {
            0
        } else {
            f.reply_micro
        };
        // if actual_delay is 0, the other end hasn't received a sample from
        // us yet; we can't update our history without a true sample
        if actual_delay != 0 {
            self.our_hist.add_sample(actual_delay, current_ms);
            self.drift.add_sample(actual_delay, current_ms);
        }
    }

    /// If the delay estimate exceeds the RTT, adjusts the base delay to
    /// compensate.
    fn cap_delay(&mut self, min_rtt: i64)
        requires
            old(self)@.aux_wf(),
        ensures
            final(self)@ == (SockView {
                our_hist: capped_at(old(self)@.our_hist, min_rtt),
                ..old(self)@
            }),
            old(self).bufs_wf() ==> final(self).bufs_wf(),
    {
        let value: i64 = self.our_hist.get_value() as i64;
        if self.our_hist.delay_base_initialized && value > min_rtt {
            self.our_hist.shift(value.wrapping_sub(min_rtt) as u32);
        }
    }

    /// Takes note of all that an incoming packet tells about the path.
    pub fn measure(&mut self, f: Fields, selack: Option<&[u8]>, now: Now, current_ms: u64)
        requires
            old(self).bufs_wf(),
            old(self)@.send_wf(),
            old(self)@.aux_wf(),
            selack is Some ==> selack->0@.len() <= MAX_MASK,
        ensures
            final(self)@ == old(self)@.measured(
                f,
                match selack {
                    Some(m) => Some(m@),
                    None => None,
                },
                now,
                current_ms,
            ),
            final(self).bufs_wf(),
    {
        let ghost s0 = self@;
        proof {
            reveal(SockView::measured);
            lemma_duplicates_counted(s0, f, now.ms);
        }
        self.count_duplicates(f, now.ms);
        let ghost s1 = self@;
        let acks: u16 = self.acks_for(f.ack_nr);
        proof {
            lemma_tallied(s1, now, acks as int);
            lemma_queue_at(
                s1.outbuf,
                s1.send.seq_nr,
                s1.send.cur_window_packets,
                s1.send.cur_window,
                0,
            );
        }
        // count bytes acked by EACK
        let mut eacked_bytes: usize = 0;
        let (acked_bytes, mut min_rtt): (usize, i64) = self.tally(now, acks);
        match selack {
            Some(mask) => {
                proof {
                    lemma_eacked_apart(
                        s1,
                        self@,
                        now,
                        f.ack_nr.wrapping_add(2),
                        mask@,
                        8 * mask@.len() as int,
                        min_rtt,
                    );
                }
                eacked_bytes = self.selective_ack_bytes(
                    now,
                    f.ack_nr.wrapping_add(2),
                    mask,
                    &mut min_rtt,
                );
            },
            None => {},
        }
        proof {
            lemma_delays_noted(self@, f, now, current_ms);
        }
        self.note_delays(f, now, current_ms);
        self.cap_delay(min_rtt);
        // only apply the congestion controller on acks
        let bytes: usize = acked_bytes + eacked_bytes;
        if f.reply_micro != 0x7fff_ffff && f.reply_micro != 0 && bytes >= 1 {
            let packet_size: usize = self.get_packet_size();
            let delay: u32 = self.our_hist.get_value();
            self.cwnd.apply_ccontrol(
                current_ms,
                bytes,
                delay,
                min_rtt,
                self.drift.clock_drift,
                packet_size,
            );
        }
    }

    /// The number of packets that an ack of `ack_nr` covers.
    pub fn acks_for(&self, ack_nr: u16) -> (r: u16)
        ensures
            r == self@.acks_of(ack_nr),
    {
        let acks: u16 = ack_nr.wrapping_sub(
            self.send.seq_nr.wrapping_sub(1).wrapping_sub(self.send.cur_window_packets),
        );
        // this happens when we receive an old ack nr
        if acks > self.send.cur_window_packets {
            0
        } else {
            acks
        }
    }
}

/// What a mask acks does not depend on the MTU search.
proof fn lemma_eacked_apart(
    a: SockView,
    b: SockView,
    now: Now,
    base: u16,
    mask: Seq<u8>,
    n: int,
    rtt: i64,
)
    requires
        b == (SockView { mtu: b.mtu, ..a }),
    ensures
        a.eacked_bytes(base, mask, n) == b.eacked_bytes(base, mask, n),
        a.eacked_rtt(now, base, mask, n, rtt) == b.eacked_rtt(now, base, mask, n, rtt),
    decreases n,
{
    if n > 0 {
        lemma_eacked_apart(a, b, now, base, mask, n - 1, rtt);
    }
}

} // verus!

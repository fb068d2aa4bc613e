//! Taking acked packets out of the send queue.

use crate::circular::ring_put;
use crate::clock::Now;
use crate::engine::queue::{lemma_queue_at, lemma_queue_remove, lemma_queue_shrink};
use crate::engine::slots::lemma_ring_put_twice;
use crate::engine::state::{OutgoingPacket, SendSide, SockView, UtpSock};
use vstd::prelude::*;

verus! {

#[derive(Clone, Copy, PartialEq, Eq, Structural, Debug)]
pub enum AckResult {
    Acked,
    AlreadyAcked,
    NotSent,
}

/// The milliseconds since `time_sent`, which is in microseconds.
pub open spec fn round_trip(now: Now, time_sent: u64) -> u32 {
    (now.us.wrapping_sub(time_sent) / 1000) as u32
}

impl SockView {
    /// What becomes of an ack of number `seq`.
    pub open spec fn ack_result(self, seq: u16) -> AckResult {
        match self.packet_at(seq) {
            // the packet has already been acked (or not sent)
            None => AckResult::AlreadyAcked,
            // can't ack packets that haven't been sent yet!
            Some(p) => if p.transmissions == 0 {
                AckResult::NotSent
            } else {
                AckResult::Acked
            },
        }
    }

    /// The packet `seq` is acked: it leaves the queue and the window, the
    /// retransmission timer starts over, and if the packet was sent only once,
    /// its round trip counts for the estimate.
    #[verifier::opaque]
    pub open spec fn acked(self, now: Now, current_ms: u64, seq: u16) -> SockView {
        if self.ack_result(seq) == AckResult::Acked {
            let p = self.packet_at(seq)->0;
            let ertt = round_trip(now, p.time_sent);
            let rtt = if p.transmissions == 1 {
                self.rtt.sampled(ertt)
            } else {
                self.rtt
            };
            SockView {
                rtt,
                rtt_hist: if p.transmissions == 1 && self.rtt.rtt != 0 {
                    self.rtt_hist.sampled_with(ertt, current_ms)
                } else {
                    self.rtt_hist
                },
                send: SendSide {
                    retransmit_timeout: rtt.rto,
                    rto_timeout: current_ms.wrapping_add(rtt.rto as u64),
                    cur_window: if p.need_resend {
                        self.send.cur_window
                    } else {
                        (self.send.cur_window - p.payload) as usize
                    },
                    retransmit_count: 0,
                    ..self.send
                },
                outbuf: ring_put(self.outbuf, seq as int, None),
                ..self
            }
        } else {
            self
        }
    }

    /// The oldest place of the window is given up.
    pub open spec fn window_shrunk(self) -> SockView {
        SockView {
            send: SendSide {
                cur_window_packets: (self.send.cur_window_packets - 1) as u16,
                ..self.send
            },
            ..self
        }
    }

    /// The `n` oldest packets are acked, up to the first that was never sent.
    #[verifier::opaque]
    pub open spec fn oldest_acked(self, now: Now, current_ms: u64, n: int) -> SockView
        decreases n,
    {
        if n <= 0 || self.ack_result(self.oldest_seq()) == AckResult::NotSent {
            self
        } else {
            self.acked(now, current_ms, self.oldest_seq()).window_shrunk().oldest_acked(
                now,
                current_ms,
                n - 1,
            )
        }
    }

    /// The window is shrunk until its oldest packet is one that still waits to
    /// be acked.
    #[verifier::opaque]
    pub open spec fn window_trimmed(self) -> SockView
        decreases self.send.cur_window_packets,
    {
        if self.send.cur_window_packets > 0 && self.packet_at(self.oldest_seq()) is None {
            self.window_shrunk().window_trimmed()
        } else {
            self
        }
    }
}

/// `b` differs from `a` at most in what acks change.
pub open spec fn ack_frame(a: SockView, b: SockView) -> bool {
    &&& b == (SockView {
        send: SendSide {
            cur_window_packets: b.send.cur_window_packets,
            cur_window: b.send.cur_window,
            retransmit_timeout: b.send.retransmit_timeout,
            rto_timeout: b.send.rto_timeout,
            retransmit_count: b.send.retransmit_count,
            ..a.send
        },
        rtt: b.rtt,
        rtt_hist: b.rtt_hist,
        outbuf: b.outbuf,
        ..a
    })
    &&& b.send.retransmit_count == 0 || b.send.retransmit_count == a.send.retransmit_count
    &&& a.rtt_hist.wf() ==> b.rtt_hist.wf()
    &&& b.outbuf.len() == a.outbuf.len()
}

pub proof fn lemma_acked(s: SockView, now: Now, current_ms: u64, seq: u16)
    requires
        s.send_wf(),
    ensures
        ({
            let t = s.acked(now, current_ms, seq);
            &&& t.send_wf()
            &&& ack_frame(s, t)
            &&& t.send.cur_window_packets == s.send.cur_window_packets
            &&& s.ack_result(seq) != AckResult::NotSent ==> t.packet_at(seq) is None
            &&& forall|k: int|
                #![trigger t.outbuf[k]]
                0 <= k < s.outbuf.len() && k != seq as int % s.outbuf.len() as int ==> t.outbuf[k]
                    == s.outbuf[k]
        }),
{
    reveal(SockView::acked);
    lemma_queue_at(
        s.outbuf,
        s.send.seq_nr,
        s.send.cur_window_packets,
        s.send.cur_window,
        seq as int,
    );
    let t = s.acked(now, current_ms, seq);
    if s.ack_result(seq) == AckResult::Acked {
        lemma_queue_remove(
            s.outbuf,
            s.send.seq_nr,
            s.send.cur_window_packets,
            s.send.cur_window,
            seq as int,
            t.send.cur_window,
        );
        lemma_ring_put_twice(s.outbuf, seq as int, None, None);
    }
}

pub proof fn lemma_window_shrunk(s: SockView)
    requires
        s.send_wf(),
        s.send.cur_window_packets > 0,
        s.packet_at(s.oldest_seq()) is None,
    ensures
        s.window_shrunk().send_wf(),
        ack_frame(s, s.window_shrunk()),
{
    lemma_queue_shrink(s.outbuf, s.send.seq_nr, s.send.cur_window_packets, s.send.cur_window);
}

/// Acking the oldest packets keeps the send queue in order.
pub proof fn lemma_oldest_acked(s: SockView, now: Now, current_ms: u64, n: int)
    requires
        s.send_wf(),
        n <= s.send.cur_window_packets,
    ensures
        s.oldest_acked(now, current_ms, n).send_wf(),
        ack_frame(s, s.oldest_acked(now, current_ms, n)),
    decreases n,
{
    reveal(SockView::oldest_acked);
    if n > 0 && s.ack_result(s.oldest_seq()) != AckResult::NotSent {
        lemma_acked(s, now, current_ms, s.oldest_seq());
        let t = s.acked(now, current_ms, s.oldest_seq());
        lemma_window_shrunk(t);
        lemma_oldest_acked(t.window_shrunk(), now, current_ms, n - 1);
    }
}

/// Trimming the window keeps the send queue in order, and brings the oldest
/// packet to the start of the window.
pub proof fn lemma_window_trimmed(s: SockView)
    requires
        s.send_wf(),
    ensures
        s.window_trimmed().send_wf(),
        s.window_trimmed().oldest_there(),
        ack_frame(s, s.window_trimmed()),
        s.window_trimmed().outbuf == s.outbuf,
    decreases s.send.cur_window_packets,
{
    reveal(SockView::window_trimmed);
    if s.send.cur_window_packets > 0 && s.packet_at(s.oldest_seq()) is None {
        lemma_window_shrunk(s);
        lemma_window_trimmed(s.window_shrunk());
    }
}

impl UtpSock {
    pub fn ack_packet(&mut self, now: Now, current_ms: u64, seq: u16) -> (r: AckResult)
        requires
            old(self).bufs_wf(),
            old(self)@.send_wf(),
            old(self)@.rtt_hist.wf(),
        ensures
            r == old(self)@.ack_result(seq),
            final(self)@ == old(self)@.acked(now, current_ms, seq),
            final(self).bufs_wf(),
    {
        proof {
            reveal(SockView::acked);
            lemma_queue_at(
                self@.outbuf,
                self.send.seq_nr,
                self.send.cur_window_packets,
                self.send.cur_window,
                seq as int,
            );
        }
        match self.outgoing(seq) {
            // the packet has already been acked (or not sent)
            None => {
                return AckResult::AlreadyAcked;
            },
            // can't ack packets that haven't been sent yet!
            Some(pkt) => {
                if pkt.transmissions == 0 {
                    return AckResult::NotSent;
                }
            },
        }
        let pkt: OutgoingPacket = match self.take_outgoing(seq) {
            Some(p) => p,
            None => {
                return AckResult::AlreadyAcked;
            },
        };
        // if we never re-sent the packet, update the RTT estimate
        if pkt.transmissions == 1 {
            // Estimate the round trip time.
            let ertt: u32 = (now.us.wrapping_sub(pkt.time_sent) / 1000) as u32;
            if self.rtt.rtt != 0 {
                self.rtt_hist.add_sample(ertt, current_ms);
            }
            self.rtt.add_sample(ertt);
        }
        self.send.retransmit_timeout = self.rtt.rto;
        self.send.rto_timeout = current_ms.wrapping_add(self.rtt.rto as u64);
        // if need_resend is set, this packet was already considered
        // timed-out, and is not included in the cur_window anymore
        if !pkt.need_resend {
            self.send.cur_window = self.send.cur_window - pkt.payload;
        }
        self.send.retransmit_count = 0;
        AckResult::Acked
    }

    /// Acks the `acks` oldest packets.
    pub fn ack_oldest(&mut self, now: Now, current_ms: u64, acks: u16)
        requires
            old(self).bufs_wf(),
            old(self)@.send_wf(),
            old(self)@.rtt_hist.wf(),
            acks <= old(self)@.send.cur_window_packets,
        ensures
            final(self)@ == old(self)@.oldest_acked(now, current_ms, acks as int),
            final(self).bufs_wf(),
    {
        let ghost whole = self@.oldest_acked(now, current_ms, acks as int);
        let mut left: u16 = acks;
        while left > 0
            invariant
                self.bufs_wf(),
                self@.send_wf(),
                self@.rtt_hist.wf(),
                left <= self@.send.cur_window_packets,
                self@.oldest_acked(now, current_ms, left as int) == whole,
                whole == old(self)@.oldest_acked(now, current_ms, acks as int),
            decreases left,
        {
            let seq: u16 = self.send.seq_nr.wrapping_sub(self.send.cur_window_packets);
            let ghost before = self@;
            proof {
                reveal(SockView::oldest_acked);
                lemma_acked(before, now, current_ms, seq);
            }
            // if the packet has not been sent yet we have to stop; this
            // can happen when an ack_nr covers packets stuffed into the
            // outgoing buffer that were never sent
            if self.ack_packet(now, current_ms, seq) == AckResult::NotSent {
                proof {
                    reveal(SockView::acked);
                }
                return ;
            }
            proof {
                lemma_window_shrunk(self@);
            }
            self.send.cur_window_packets = self.send.cur_window_packets - 1;
            left = left - 1;
        }
        proof {
            reveal(SockView::oldest_acked);
        }
    }

    /// Shrinks the window until its oldest packet is one that still waits to
    /// be acked.
    pub fn trim_window(&mut self)
        requires
            old(self).bufs_wf(),
            old(self)@.send_wf(),
        ensures
            final(self)@ == old(self)@.window_trimmed(),
            final(self).bufs_wf(),
    {
        let ghost whole = self@.window_trimmed();
        while self.send.cur_window_packets > 0 && self.outgoing(
            self.send.seq_nr.wrapping_sub(self.send.cur_window_packets),
        ).is_none()
            invariant
                self.bufs_wf(),
                self@.send_wf(),
                self@.window_trimmed() == whole,
                whole == old(self)@.window_trimmed(),
            decreases self.send.cur_window_packets,
        {
            proof {
                reveal(SockView::window_trimmed);
                lemma_window_shrunk(self@);
            }
            self.send.cur_window_packets = self.send.cur_window_packets - 1;
        }
        proof {
            reveal(SockView::window_trimmed);
        }
    }
}

} // verus!

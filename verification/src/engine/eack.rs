//! Selective acks: what the mask of segments that the peer received says about
//! the packets in the send queue.

use crate::clock::Now;
use crate::engine::acks::{ack_frame, lemma_acked};
use crate::engine::model::{mask_bit, packet_sent, St};
use crate::engine::queue::{lemma_queue_at, lemma_slots_differ};
use crate::engine::send::st;
use crate::engine::state::{Io, SendSide, SockView, UtpSock, MAX_PAYLOAD, OUTGOING_BUFFER_MAX_SIZE};
use crate::engine::transmit::{
    io_frame, lemma_io_frame_refl, lemma_io_frame_trans, lemma_oldest_stays, lemma_packet_sent,
    lemma_same_contents_refl, lemma_same_contents_trans, same_contents, send_frame,
};
use vstd::prelude::*;

verus! {

/// if we receive this many duplicate acks, we resend the packet that hasn't
/// been acked yet
pub const DUPLICATE_ACKS_BEFORE_RESEND: u32 = 3;

/// The number of resends that are remembered at a time.
pub const MAX_EACK: usize = 128;

/// The longest mask that a packet can carry.
pub const MAX_MASK: usize = 255;

/// The sequence number that bit `i` of a mask beginning at `base` stands for.
pub open spec fn bit_seq(base: u16, i: int) -> u16 {
    ((base + i) % 0x10000) as u16
}

/// How long ago `time_sent` was, in microseconds, for the upper limit on the
/// delay; a made-up length in case our clock is not monotonic.
pub open spec fn age(now: Now, time_sent: u64) -> i64 {
    if time_sent < now.us {
        (now.us - time_sent) as i64
    } else {
        50000
    }
}

pub open spec fn min_i64(a: i64, b: i64) -> i64 {
    if a <= b {
        a
    } else {
        b
    }
}

impl SockView {
    /// Whether the window reaches over `seq`, and past it: a selective ack is
    /// never about the oldest packet.
    pub open spec fn past_oldest(self, seq: u16) -> bool {
        (self.send.seq_nr - 1 - seq) % 0x10000 < self.send.cur_window_packets - 1
    }

    pub open spec fn was_sent(self, seq: u16) -> bool {
        self.packet_at(seq) is Some && self.packet_at(seq)->0.transmissions > 0
    }

    /// Whether bit `i` of the mask acks a packet that was sent.
    pub open spec fn bit_acks(self, base: u16, mask: Seq<u8>, i: int) -> bool {
        mask_bit(mask, i) && self.past_oldest(bit_seq(base, i)) && self.was_sent(bit_seq(base, i))
    }

    /// The bytes that the first `n` bits of the mask ack.
    pub open spec fn eacked_bytes(self, base: u16, mask: Seq<u8>, n: int) -> int
        decreases n,
    {
        if n <= 0 {
            0
        } else {
            self.eacked_bytes(base, mask, n - 1) + (if self.bit_acks(base, mask, n - 1) {
                self.packet_at(bit_seq(base, n - 1))->0.payload as int
            } else {
                0
            })
        }
    }

    /// The shortest time that a packet acked by the first `n` bits took, if
    /// that is shorter than `rtt`.
    pub open spec fn eacked_rtt(self, now: Now, base: u16, mask: Seq<u8>, n: int, rtt: i64) -> i64
        decreases n,
    {
        if n <= 0 {
            rtt
        } else {
            let before = self.eacked_rtt(now, base, mask, n - 1, rtt);
            if self.bit_acks(base, mask, n - 1) {
                min_i64(before, age(now, self.packet_at(bit_seq(base, n - 1))->0.time_sent))
            } else {
                before
            }
        }
    }
}

/// What a walk over the mask, from the newest number down, comes to.
pub struct Scan {
    pub s: SockView,
    /// the numbers acked so far
    pub count: u32,
    /// a stack of the numbers to resend
    pub resends: Seq<u16>,
}

/// `v` on top of the stack. If it is full, the lower half is thrown away.
pub open spec fn resend_pushed(resends: Seq<u16>, v: u16) -> Seq<u16> {
    if resends.len() >= MAX_EACK - 2 {
        resends.skip((MAX_EACK / 2) as int).push(v)
    } else {
        resends.push(v)
    }
}

/// Whether number `v` may be resent for the first time since the last resends.
pub open spec fn may_resend(s: SockView, v: u16, count: u32) -> bool {
    v.wrapping_sub(s.send.fast_resend_seq_nr) <= OUTGOING_BUFFER_MAX_SIZE && count
        >= DUPLICATE_ACKS_BEFORE_RESEND
}

impl Scan {
    /// A bit of the mask, which stands for number `v`: if it is set, it acks
    /// that packet; if it is not, and enough bits above it are, the packet
    /// counts as lost.
    #[verifier::opaque]
    pub open spec fn noted(self, now: Now, current_ms: u64, v: u16, set: bool) -> Scan {
        let count = if set {
            (self.count + 1) as u32
        } else {
            self.count
        };
        if !self.s.past_oldest(v) {
            self
        } else if !self.s.was_sent(v) {
            Scan { count, ..self }
        } else if set {
            Scan { count, s: self.s.acked(now, current_ms, v), ..self }
        } else if may_resend(self.s, v, count) {
            Scan { count, resends: resend_pushed(self.resends, v), ..self }
        } else {
            Scan { count, ..self }
        }
    }

    /// Bit `i` of the mask.
    pub open spec fn stepped(
        self,
        now: Now,
        current_ms: u64,
        base: u16,
        mask: Seq<u8>,
        i: int,
    ) -> Scan {
        self.noted(now, current_ms, bit_seq(base, i), mask_bit(mask, i))
    }

    /// The walk over the bits below `n`, down to the one before the mask.
    #[verifier::opaque]
    pub open spec fn scanned(
        self,
        now: Now,
        current_ms: u64,
        base: u16,
        mask: Seq<u8>,
        n: int,
    ) -> Scan
        decreases n + 1,
    {
        if n < 0 {
            self
        } else {
            self.stepped(now, current_ms, base, mask, n - 1).scanned(
                now,
                current_ms,
                base,
                mask,
                n - 1,
            )
        }
    }
}

/// The packets on top of the stack are sent again, at most four in all of which
/// `done` have been. Says whether any was.
#[verifier::opaque]
pub open spec fn resent(st: St, resends: Seq<u16>, done: int) -> (bool, St)
    decreases resends.len(),
{
    if resends.len() == 0 || done >= 4 {
        (done > 0, st)
    } else {
        let v = resends.last();
        if st.s.packet_at(v) is None {
            // don't consider the tail of 0:es to be lost packets; some of
            // these may have been acked already
            resent(st, resends.drop_last(), done)
        } else {
            let sent = packet_sent(st, v);
            let s = SockView {
                send: SendSide { fast_resend_seq_nr: v.wrapping_add(1), ..sent.s.send },
                ..sent.s
            };
            resent(St { s, ..sent }, resends.drop_last(), done + 1)
        }
    }
}

/// A selective ack with `mask`, whose first bit stands for number `base`.
#[verifier::opaque]
pub open spec fn selectively_acked(st: St, base: u16, mask: Seq<u8>) -> St {
    if st.s.send.cur_window_packets == 0 {
        st
    } else {
        let scan = Scan { s: st.s, count: 0, resends: Seq::empty() }.scanned(
            st.io.now,
            st.io.current_ms,
            base,
            mask,
            8 * mask.len() as int,
        );
        // if we get enough duplicate acks to start resending, the first
        // packet we should resend is base-1
        let resends = if may_resend(scan.s, base.wrapping_sub(1), scan.count) {
            scan.resends.push(base.wrapping_sub(1))
        } else {
            scan.resends
        };
        let (back_off, after) = resent(St { s: scan.s, ..st }, resends, 0);
        St {
            s: SockView {
                cwnd: if back_off {
                    after.s.cwnd.decayed(st.io.current_ms)
                } else {
                    after.s.cwnd
                },
                send: SendSide { duplicate_ack: scan.count as u8, ..after.s.send },
                ..after.s
            },
            ..after
        }
    }
}

/// A step of the walk keeps the send queue in order, and the oldest packet in
/// it.
pub proof fn lemma_stepped(scan: Scan, now: Now, current_ms: u64, base: u16, mask: Seq<u8>, i: int)
    requires
        scan.s.send_wf(),
        scan.s.oldest_there(),
        scan.s.send.cur_window_packets > 0,
        scan.count < u32::MAX,
    ensures
        ({
            let t = scan.stepped(now, current_ms, base, mask, i);
            &&& t.s.send_wf()
            &&& t.s.oldest_there()
            &&& ack_frame(scan.s, t.s)
            &&& t.s.send.cur_window_packets == scan.s.send.cur_window_packets
            &&& t.count <= scan.count + 1
            &&& scan.resends.len() <= MAX_EACK ==> t.resends.len() <= MAX_EACK
        }),
{
    reveal(Scan::noted);
    let v = bit_seq(base, i);
    if scan.s.past_oldest(v) {
        let s = scan.s;
        lemma_acked(s, now, current_ms, v);
        let oldest = s.oldest_seq();
        lemma_queue_at(
            s.outbuf,
            s.send.seq_nr,
            s.send.cur_window_packets,
            s.send.cur_window,
            oldest as int,
        );
        assert((s.send.seq_nr - 1 - oldest) % 0x10000 == s.send.cur_window_packets - 1);
        lemma_slots_differ(
            s.outbuf,
            s.send.seq_nr,
            s.send.cur_window_packets,
            s.send.cur_window,
            v,
            oldest,
        );
    }
}

pub proof fn lemma_scanned(scan: Scan, now: Now, current_ms: u64, base: u16, mask: Seq<u8>, n: int)
    requires
        scan.s.send_wf(),
        scan.s.oldest_there(),
        scan.s.send.cur_window_packets > 0,
        scan.count + n < u32::MAX,
    ensures
        ({
            let t = scan.scanned(now, current_ms, base, mask, n);
            &&& t.s.send_wf()
            &&& t.s.oldest_there()
            &&& ack_frame(scan.s, t.s)
            &&& t.s.send.cur_window_packets == scan.s.send.cur_window_packets
        }),
    decreases n + 1,
{
    reveal(Scan::scanned);
    if n >= 0 {
        lemma_stepped(scan, now, current_ms, base, mask, n - 1);
        lemma_scanned(
            scan.stepped(now, current_ms, base, mask, n - 1),
            now,
            current_ms,
            base,
            mask,
            n - 1,
        );
    }
}

/// `b` differs from `a` at most in what sending packets again changes.
pub open spec fn resend_frame(a: SockView, b: SockView) -> bool {
    send_frame(
        SockView {
            send: SendSide { fast_resend_seq_nr: b.send.fast_resend_seq_nr, ..a.send },
            ..a
        },
        b,
    )
}

/// Sending packets again keeps the send queue in order.
pub proof fn lemma_resent(st: St, resends: Seq<u16>, done: int)
    requires
        st.s.send_wf(),
        st.s.mtu.wf(),
        st.s.oldest_there(),
    ensures
        ({
            let after = resent(st, resends, done).1;
            &&& after.s.send_wf()
            &&& after.s.mtu.wf()
            &&& after.s.oldest_there()
            &&& resend_frame(st.s, after.s)
            &&& io_frame(st, after)
            &&& same_contents(st.s.outbuf, after.s.outbuf)
        }),
    decreases resends.len(),
{
    reveal(resent);
    lemma_same_contents_refl(st.s.outbuf);
    lemma_io_frame_refl(st);
    if resends.len() > 0 && done < 4 {
        let v = resends.last();
        if st.s.packet_at(v) is None {
            lemma_resent(st, resends.drop_last(), done);
        } else {
            lemma_packet_sent(st, v);
            let sent = packet_sent(st, v);
            let s = SockView {
                send: SendSide { fast_resend_seq_nr: v.wrapping_add(1), ..sent.s.send },
                ..sent.s
            };
            let next = St { s, ..sent };
            lemma_oldest_stays(st.s, s);
            lemma_resent(next, resends.drop_last(), done + 1);
            lemma_same_contents_trans(
                st.s.outbuf,
                s.outbuf,
                resent(next, resends.drop_last(), done + 1).1.s.outbuf,
            );
            lemma_io_frame_trans(
                st,
                next,
                resent(next, resends.drop_last(), done + 1).1,
            );
        }
    }
}

/// `b` differs from `a` at most in what acks and resends change.
pub open spec fn eack_frame(a: SockView, b: SockView) -> bool {
    &&& b == (SockView {
        send: SendSide {
            cur_window: b.send.cur_window,
            retransmit_timeout: b.send.retransmit_timeout,
            rto_timeout: b.send.rto_timeout,
            retransmit_count: b.send.retransmit_count,
            last_sent_packet: b.send.last_sent_packet,
            fast_resend_seq_nr: b.send.fast_resend_seq_nr,
            duplicate_ack: b.send.duplicate_ack,
            ..a.send
        },
        cwnd: b.cwnd,
        rtt: b.rtt,
        rtt_hist: b.rtt_hist,
        mtu: b.mtu,
        in_ack_list: b.in_ack_list,
        outbuf: b.outbuf,
        ..a
    })
    &&& b.send.retransmit_count == 0 || b.send.retransmit_count == a.send.retransmit_count
    &&& a.rtt_hist.wf() ==> b.rtt_hist.wf()
    &&& a.mtu.last == b.mtu.last
}

/// A selective ack keeps the send queue in order, and its oldest packet.
pub proof fn lemma_selectively_acked(st: St, base: u16, mask: Seq<u8>)
    requires
        st.s.send_wf(),
        st.s.mtu.wf(),
        st.s.oldest_there(),
        mask.len() <= MAX_MASK,
    ensures
        ({
            let after = selectively_acked(st, base, mask);
            &&& after.s.send_wf()
            &&& after.s.mtu.wf()
            &&& after.s.oldest_there()
            &&& eack_frame(st.s, after.s)
            &&& io_frame(st, after)
        }),
{
    reveal(selectively_acked);
    lemma_io_frame_refl(st);
    if st.s.send.cur_window_packets > 0 {
        let start = Scan { s: st.s, count: 0, resends: Seq::empty() };
        let n = 8 * mask.len() as int;
        lemma_scanned(start, st.io.now, st.io.current_ms, base, mask, n);
        let scan = start.scanned(st.io.now, st.io.current_ms, base, mask, n);
        let resends = if may_resend(scan.s, base.wrapping_sub(1), scan.count) {
            scan.resends.push(base.wrapping_sub(1))
        } else {
            scan.resends
        };
        lemma_resent(St { s: scan.s, ..st }, resends, 0);
    }
}

/// The shorter of `min_rtt` and the time since `time_sent`.
pub fn shorter_rtt(min_rtt: i64, now: Now, time_sent: u64) -> (r: i64)
    ensures
        r == min_i64(min_rtt, age(now, time_sent)),
{
    // in case our clock is not monotonic
    let rtt: i64 = if time_sent < now.us {
        (now.us - time_sent) as i64
    } else {
        50000
    };
    if min_rtt <= rtt {
        min_rtt
    } else {
        rtt
    }
}

/// Whether bit `i` of the mask is set.
fn mask_bit_at(mask: &[u8], i: usize) -> (r: bool)
    requires
        i < 8 * mask@.len(),
    ensures
        r == mask_bit(mask@, i as int),
{
    (mask[i / 8] >> ((i % 8) as u8)) & 1 == 1
}

impl UtpSock {
    /// Whether `seq` is a number of the window other than the oldest.
    fn past_oldest(&self, seq: u16) -> (r: bool)
        requires
            self.send.cur_window_packets > 0,
        ensures
            r == self@.past_oldest(seq),
    {
        // ignore bits that haven't been sent yet and bits that fall below
        // the ACKed sequence number. Sequence number space:
        //
        //     rejected <   accepted   > rejected
        // <============+--------------+============>
        //              ^              ^
        //        (seq_nr-wnd)         seq_nr
        self.send.seq_nr.wrapping_sub(seq).wrapping_sub(1) < self.send.cur_window_packets - 1
    }

    /// The packet under `seq`, if it was sent: its payload, and when it was
    /// sent.
    pub fn sent_packet(&self, seq: u16) -> (r: Option<(usize, u64)>)
        requires
            self.outbuf.wf(),
        ensures
            r is Some <==> self@.was_sent(seq),
            r matches Some((payload, time_sent)) ==> payload == self@.packet_at(seq)->0.payload
                && time_sent == self@.packet_at(seq)->0.time_sent,
    {
        match self.outgoing(seq) {
            Some(p) => if p.transmissions > 0 {
                Some((p.payload, p.time_sent))
            } else {
                None
            },
            None => None,
        }
    }

    /// count the number of bytes that were acked by the EACK header
    pub fn selective_ack_bytes(
        &self,
        now: Now,
        base: u16,
        mask: &[u8],
        min_rtt: &mut i64,
    ) -> (r: usize)
        requires
            self.bufs_wf(),
            self@.send_wf(),
            mask@.len() <= MAX_MASK,
        ensures
            r == self@.eacked_bytes(base, mask@, 8 * mask@.len() as int),
            *final(min_rtt) == self@.eacked_rtt(
                now,
                base,
                mask@,
                8 * mask@.len() as int,
                *old(min_rtt),
            ),
            r <= 8 * MAX_MASK * MAX_PAYLOAD,
    {
        let top: usize = 8 * mask.len();
        if self.send.cur_window_packets == 0 {
            proof {
                lemma_nothing_eacked(self@, now, base, mask@, top as int, *min_rtt);
            }
            return 0;
        }
        let mut acked_bytes: usize = 0;
        let mut i: usize = 0;
        while i < top
            invariant
                self.bufs_wf(),
                self@.send_wf(),
                self.send.cur_window_packets > 0,
                mask@.len() <= MAX_MASK,
                top == 8 * mask@.len(),
                i <= top,
                acked_bytes == self@.eacked_bytes(base, mask@, i as int),
                acked_bytes <= i * 1382,
                *min_rtt == self@.eacked_rtt(now, base, mask@, i as int, *old(min_rtt)),
            decreases top - i,
        {
            let v: u16 = base.wrapping_add(i as u16);
            proof {
                lemma_queue_at(
                    self@.outbuf,
                    self.send.seq_nr,
                    self.send.cur_window_packets,
                    self.send.cur_window,
                    v as int,
                );
            }
            if self.past_oldest(v) && mask_bit_at(mask, i) {
                // ignore bits that represent packets we haven't sent yet
                // or packets that have already been acked
                match self.sent_packet(v) {
                    Some((payload, time_sent)) => {
                        acked_bytes = acked_bytes + payload;
                        *min_rtt = shorter_rtt(*min_rtt, now, time_sent);
                    },
                    None => {},
                }
            }
            i = i + 1;
        }
        acked_bytes
    }

    /// One bit of the mask: acks the packet it stands for, or puts it on the
    /// stack of those to resend.
    fn scan_bit(
        &mut self,
        now: Now,
        current_ms: u64,
        v: u16,
        set: bool,
        count: &mut u32,
        resends: &mut Vec<u16>,
    )
        requires
            old(self).bufs_wf(),
            old(self)@.send_wf(),
            old(self)@.rtt_hist.wf(),
            old(self)@.send.cur_window_packets > 0,
            *old(count) < u32::MAX,
        ensures
            final(self).bufs_wf(),
            (Scan { s: final(self)@, count: *final(count), resends: final(resends)@ }) == (Scan {
                s: old(self)@,
                count: *old(count),
                resends: old(resends)@,
            }).noted(now, current_ms, v, set),
    {
        proof {
            reveal(Scan::noted);
        }
        if !self.past_oldest(v) {
            return ;
        }
        // this counts as a duplicate ack, even though we might have
        // received an ack for this packet previously (in another EACK
        // message for instance)

        if set {
            *count = *count + 1;
        }
        // ignore bits that represent packets we haven't sent yet
        // or packets that have already been acked

        if self.sent_packet(v).is_none() {
            return ;
        }
        if set {
            self.ack_packet(now, current_ms, v);
            return ;
        }
        // Resend segments: if count is less than our re-send limit, we
        // haven't seen enough acked packets in front of this one to
        // warrant a re-send

        if self.may_resend(v, *count) {
            push_resend(resends, v);
        }
    }

    fn may_resend(&self, v: u16, count: u32) -> (r: bool)
        ensures
            r == may_resend(self@, v, count),
    {
        v.wrapping_sub(self.send.fast_resend_seq_nr) as usize <= OUTGOING_BUFFER_MAX_SIZE && count
            >= DUPLICATE_ACKS_BEFORE_RESEND
    }

    /// Walks over the mask, from higher sequence numbers to lower. Returns how
    /// many numbers were acked, and the stack of those to resend.
    fn scan_mask(&mut self, now: Now, current_ms: u64, base: u16, mask: &[u8]) -> (r: (
        u32,
        Vec<u16>,
    ))
        requires
            old(self).bufs_wf(),
            old(self)@.send_wf(),
            old(self)@.rtt_hist.wf(),
            old(self)@.oldest_there(),
            old(self)@.send.cur_window_packets > 0,
            mask@.len() <= MAX_MASK,
        ensures
            final(self).bufs_wf(),
            (Scan { s: final(self)@, count: r.0, resends: r.1@ }) == (Scan {
                s: old(self)@,
                count: 0,
                resends: Seq::empty(),
            }).scanned(now, current_ms, base, mask@, 8 * mask@.len() as int),
    {
        let mut count: u32 = 0;
        let mut resends: Vec<u16> = Vec::new();
        let mut n: usize = 8 * mask.len();
        let ghost start = Scan { s: self@, count: 0, resends: Seq::empty() };
        let ghost top = 8 * mask@.len();
        while n > 0
            invariant
                self.bufs_wf(),
                self@.send_wf(),
                self@.rtt_hist.wf(),
                self@.oldest_there(),
                self@.send.cur_window_packets > 0,
                mask@.len() <= MAX_MASK,
                top == 8 * mask@.len(),
                n <= top,
                count + n <= top,
                (Scan { s: self@, count, resends: resends@ }).scanned(
                    now,
                    current_ms,
                    base,
                    mask@,
                    n as int,
                ) == start.scanned(now, current_ms, base, mask@, top as int),
            decreases n,
        {
            proof {
                reveal(Scan::scanned);
                lemma_stepped(
                    Scan { s: self@, count, resends: resends@ },
                    now,
                    current_ms,
                    base,
                    mask@,
                    n - 1,
                );
            }
            n = n - 1;
            let v: u16 = base.wrapping_add(n as u16);
            assert(v == bit_seq(base, n as int));
            let set: bool = mask_bit_at(mask, n);
            self.scan_bit(now, current_ms, v, set, &mut count, &mut resends);
        }
        proof {
            reveal_with_fuel(Scan::scanned, 2);
        }
        let v: u16 = base.wrapping_sub(1);
        assert(v == bit_seq(base, -1));
        self.scan_bit(now, current_ms, v, false, &mut count, &mut resends);
        (count, resends)
    }

    pub fn selective_ack(&mut self, io: &mut Io, base: u16, mask: &[u8])
        requires
            old(self).bufs_wf(),
            old(self)@.send_wf(),
            old(self)@.mtu.wf(),
            old(self)@.rtt_hist.wf(),
            old(self)@.oldest_there(),
            mask@.len() <= MAX_MASK,
        ensures
            st(*final(self), *final(io)) == selectively_acked(
                st(*old(self), *old(io)),
                base,
                mask@,
            ),
            final(self).bufs_wf(),
    {
        proof {
            reveal(selectively_acked);
        }
        if self.send.cur_window_packets == 0 {
            return ;
        }
        proof {
            lemma_scanned(
                Scan { s: self@, count: 0, resends: Seq::empty() },
                io.now,
                io.current_ms,
                base,
                mask@,
                8 * mask@.len() as int,
            );
        }
        let (count, mut resends): (u32, Vec<u16>) = self.scan_mask(
            io.now,
            io.current_ms,
            base,
            mask,
        );
        if self.may_resend(base.wrapping_sub(1), count) {
            // if we get enough duplicate acks to start resending, the first
            // packet we should resend is base-1
            resends.push(base.wrapping_sub(1));
        }
        proof {
            lemma_resent(st(*self, *io), resends@, 0);
        }
        // On Loss
        let back_off: bool = self.resend(io, resends);
        if back_off {
            self.cwnd.maybe_decay_win(io.current_ms);
        }
        self.send.duplicate_ack = count as u8;
    }

    /// Sends the packets on top of the stack again, at most four. Returns
    /// whether there was any.
    fn resend(&mut self, io: &mut Io, resends: Vec<u16>) -> (r: bool)
        requires
            old(self).bufs_wf(),
            old(self)@.send_wf(),
            old(self)@.mtu.wf(),
            old(self)@.oldest_there(),
        ensures
            r == resent(st(*old(self), *old(io)), resends@, 0).0,
            st(*final(self), *final(io)) == resent(st(*old(self), *old(io)), resends@, 0).1,
            final(self).bufs_wf(),
    {
        let mut left: usize = resends.len();
        let mut done: usize = 0;
        let ghost whole = resent(st(*self, *io), resends@, 0);
        assert(resends@.take(left as int) =~= resends@);
        while left > 0 && done < 4
            invariant
                self.bufs_wf(),
                self@.send_wf(),
                self@.mtu.wf(),
                self@.oldest_there(),
                left <= resends@.len(),
                done <= 4,
                resent(st(*self, *io), resends@.take(left as int), done as int) == whole,
                whole == resent(st(*old(self), *old(io)), resends@, 0),
            decreases left,
        {
            let ghost before = st(*self, *io);
            proof {
                reveal(resent);
                assert(resends@.take(left as int).drop_last() =~= resends@.take(left - 1));
            }
            left = left - 1;
            let v: u16 = resends[left];
            // don't consider the tail of 0:es to be lost packets; some of
            // these may have been acked already
            if self.outgoing(v).is_some() {
                proof {
                    lemma_packet_sent(before, v);
                }
                self.send_packet_at(io, v);
                self.send.fast_resend_seq_nr = v.wrapping_add(1);
                done = done + 1;
                proof {
                    lemma_oldest_stays(before.s, self@);
                }
            }
        }
        proof {
            reveal(resent);
        }
        done > 0
    }
}

/// Puts `v` on the stack. If it is full, throws away the lower half.
fn push_resend(resends: &mut Vec<u16>, v: u16)
    ensures
        final(resends)@ == resend_pushed(old(resends)@, v),
{
    if resends.len() >= MAX_EACK - 2 {
        let upper: Vec<u16> = resends.split_off(MAX_EACK / 2);
        assert(upper@ =~= old(resends)@.skip((MAX_EACK / 2) as int));
        *resends = upper;
    }
    resends.push(v);
}

proof fn lemma_nothing_eacked(
    s: SockView,
    now: Now,
    base: u16,
    mask: Seq<u8>,
    n: int,
    rtt: i64,
)
    requires
        s.send.cur_window_packets == 0,
    ensures
        s.eacked_bytes(base, mask, n) == 0,
        s.eacked_rtt(now, base, mask, n, rtt) == rtt,
    decreases n,
{
    if n > 0 {
        lemma_nothing_eacked(s, now, base, mask, n - 1, rtt);
    }
}

} // verus!

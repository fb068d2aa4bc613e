//! Handing received data to the user in order, and keeping what came too early.

use crate::circular::{
    is_ring_size, lemma_grown_at, lemma_grown_size, lemma_grown_total, lemma_ring_size_16,
    lemma_total_at_least, lemma_total_bound, lemma_total_update, ring_at, ring_ensured, ring_put,
    ring_total, slot_weight,
};
use crate::engine::model::{ack_sent, scheduled, St};
use crate::engine::send::st;
use crate::engine::slots::{
    lemma_ring_size_pos, lemma_slot_views_at, lemma_slot_views_ensured, lemma_slot_views_put,
};
use crate::engine::state::{
    count_weight, reorder_wf, Io, RecvSide, SendSide, SockView, UtpSock, REORDER_BUFFER_MAX_SIZE,
};
use crate::engine::transmit::{
    io_frame, lemma_io_frame_refl, lemma_io_frame_trans, lemma_scheduled, same_user,
};
use crate::engine::write::lemma_ack_sent;
use vstd::arithmetic::div_mod::*;
use vstd::prelude::*;

verus! {

impl SockView {
    /// The user gets `data`, unless there is none or reading is shut down.
    pub open spec fn handed_up(self, data: Seq<u8>) -> SockView {
        if data.len() > 0 && !self.recv.read_shutdown {
            SockView { user: self.user.with_read(data), ..self }
        } else {
            self
        }
    }

    /// The next packet in order has been dealt with.
    pub open spec fn advanced(self) -> SockView {
        SockView {
            recv: RecvSide { ack_nr: self.recv.ack_nr.wrapping_add(1), ..self.recv },
            ..self
        }
    }

    /// Whether the FIN is the packet that was dealt with last.
    pub open spec fn fin_is_next(self) -> bool {
        !self.recv.got_fin_reached && self.recv.got_fin && self.recv.eof_pkt == self.recv.ack_nr
    }

    /// The end of the stream: the user learns of it, and the timer runs out
    /// soon.
    pub open spec fn ended(self, current_ms: u64) -> SockView {
        let thrice = self.rtt.rto.wrapping_mul(3);
        let wait: u64 = if thrice < 60 {
            thrice as u64
        } else {
            60
        };
        SockView {
            recv: RecvSide { got_fin_reached: true, ..self.recv },
            send: SendSide { rto_timeout: current_ms.wrapping_add(wait), ..self.send },
            user: self.user.with_eof(),
            ..self
        }
    }

    /// What waits in the reorder buffer under the next number in order.
    pub open spec fn next_in_order(self) -> Option<Seq<u8>> {
        ring_at(self.inbuf, self.recv.ack_nr + 1)
    }

    /// The next packet in order leaves the reorder buffer for the user.
    pub open spec fn taken_up(self) -> SockView {
        let p = self.next_in_order()->0;
        let s = SockView {
            inbuf: ring_put(self.inbuf, self.recv.ack_nr + 1, None),
            recv: RecvSide {
                reorder_count: (self.recv.reorder_count - 1) as u16,
                ..self.recv
            },
            ..self
        };
        s.handed_up(p).advanced()
    }
}

/// All packets up to the FIN have been received: the user learns of the end of
/// the stream, the peer gets an ack at once, and stragglers with higher
/// numbers are ignored.
#[verifier::opaque]
pub open spec fn fin_reached(st: St) -> St {
    if st.s.fin_is_next() {
        let acked = ack_sent(St { s: st.s.ended(st.io.current_ms), ..st });
        St {
            s: SockView { recv: RecvSide { reorder_count: 0, ..acked.s.recv }, ..acked.s },
            ..acked
        }
    } else {
        st
    }
}

/// Reaching the FIN changes nothing but what it says.
pub proof fn lemma_fin_reached(st: St)
    ensures
        ({
            let f = fin_reached(st);
            &&& st.s.fin_is_next() ==> f.s == (SockView {
                recv: RecvSide { got_fin_reached: true, reorder_count: 0, ..st.s.recv },
                send: SendSide {
                    rto_timeout: f.s.send.rto_timeout,
                    last_sent_packet: f.s.send.last_sent_packet,
                    last_rcv_win: f.s.send.last_rcv_win,
                    ..st.s.send
                },
                user: st.s.user.with_eof(),
                in_ack_list: false,
                ..st.s
            })
            &&& !st.s.fin_is_next() ==> f == st
            &&& io_frame(st, f)
        }),
{
    reveal(fin_reached);
    lemma_io_frame_refl(st);
    lemma_ack_sent(St { s: st.s.ended(st.io.current_ms), ..st });
}

/// What waits in the reorder buffer is handed up as long as it is next.
#[verifier::opaque]
pub open spec fn reordered(st: St) -> St
    decreases st.s.recv.reorder_count,
{
    let f = fin_reached(st);
    if f.s.recv.reorder_count == 0 || f.s.next_in_order() is None {
        f
    } else {
        proof {
            lemma_fin_reached(st);
        }
        reordered(St { s: f.s.taken_up(), ..f })
    }
}

/// The packet that is next in order arrives with `data`.
#[verifier::opaque]
pub open spec fn received_in_order(st: St, data: Seq<u8>) -> St {
    scheduled(reordered(St { s: st.s.handed_up(data).advanced(), ..st }))
}

/// Whether packet `seq` lies behind the end of the stream.
pub open spec fn behind_fin(s: SockView, seq: u16) -> bool {
    s.recv.got_fin && seq > s.recv.eof_pkt
}

/// A packet arrives `ahead` places before its turn. It is kept for later,
/// unless it is there already. Says how much of it was taken in.
#[verifier::opaque]
pub open spec fn received_early(st: St, seq: u16, ahead: int, data: Seq<u8>) -> (int, St) {
    if behind_fin(st.s, seq) {
        // something is wrong
        (0, st)
    } else {
        // grow the circle buffer before checking for duplicates so we
        // don't look at an older packet (the indices wrap)
        let inbuf = ring_ensured(st.s.inbuf, seq + 1, ahead + 1);
        if ring_at(inbuf, seq as int) is Some {
            (0, St { s: SockView { inbuf, ..st.s }, ..st })
        } else {
            let s = SockView {
                inbuf: ring_put(inbuf, seq as int, Some(data)),
                recv: RecvSide {
                    reorder_count: (st.s.recv.reorder_count + 1) as u16,
                    ..st.s.recv
                },
                ..st.s
            };
            (data.len() as int, scheduled(St { s, ..st }))
        }
    }
}

/// What holds of the reorder buffer while it is being emptied.
#[verifier::opaque]
pub open spec fn reorder_mid(inbuf: Seq<Option<Seq<u8>>>, count: u16, ended: bool) -> bool {
    let n = inbuf.len() as int;
    &&& is_ring_size(n)
    &&& 16 <= n <= 2048
    &&& count <= ring_total(inbuf, count_weight())
    &&& !ended ==> count == ring_total(inbuf, count_weight())
}

impl SockView {
    pub open spec fn recv_mid(self) -> bool {
        reorder_mid(self.inbuf, self.recv.reorder_count, self.recv.got_fin_reached)
    }
}

/// A slot in use shows in the total.
pub proof fn lemma_none_counted(inbuf: Seq<Option<Seq<u8>>>)
    requires
        ring_total(inbuf, count_weight()) == 0,
    ensures
        forall|k: int| 0 <= k < inbuf.len() ==> inbuf[k] is None,
{
    assert forall|k: int| 0 <= k < inbuf.len() implies inbuf[k] is None by {
        lemma_total_at_least(inbuf, count_weight(), k);
    }
}

/// When nothing more is next, the reorder buffer is in order.
pub proof fn lemma_reorder_done(s: SockView)
    requires
        s.recv_mid(),
        s.recv.reorder_count == 0 || s.next_in_order() is None,
    ensures
        reorder_wf(s.inbuf, s.recv.ack_nr, s.recv.reorder_count, s.recv.got_fin_reached),
{
    reveal(reorder_wf);
    reveal(reorder_mid);
    lemma_mod_bound(s.recv.ack_nr + 1, s.inbuf.len() as int);
    if s.recv.reorder_count == 0 && !s.recv.got_fin_reached {
        lemma_none_counted(s.inbuf);
    }
}

pub proof fn lemma_reorder_start(s: SockView)
    requires
        reorder_wf(s.inbuf, s.recv.ack_nr, s.recv.reorder_count, s.recv.got_fin_reached),
    ensures
        s.recv_mid(),
        16 <= s.inbuf.len() <= 2048,
{
    reveal(reorder_wf);
    reveal(reorder_mid);
}

/// An empty reorder buffer is in order wherever the stream begins.
pub proof fn lemma_reorder_anywhere(s: SockView, ack_nr: u16)
    requires
        reorder_wf(s.inbuf, s.recv.ack_nr, 0, false),
    ensures
        reorder_wf(s.inbuf, ack_nr, 0, false),
{
    reveal(reorder_wf);
    lemma_none_counted(s.inbuf);
    lemma_mod_bound(ack_nr + 1, s.inbuf.len() as int);
}

pub proof fn lemma_taken_up(s: SockView)
    requires
        s.recv_mid(),
        s.recv.reorder_count > 0,
        s.next_in_order() is Some,
    ensures
        s.taken_up().recv_mid(),
{
    reveal(reorder_mid);
    let k = (s.recv.ack_nr + 1) % (s.inbuf.len() as int);
    lemma_mod_bound(s.recv.ack_nr + 1, s.inbuf.len() as int);
    lemma_total_update(s.inbuf, count_weight(), k, None);
}

/// `b` differs from `a` at most in what receiving data changes.
pub open spec fn deliver_frame(a: SockView, b: SockView) -> bool {
    &&& b == (SockView {
        recv: RecvSide {
            ack_nr: b.recv.ack_nr,
            reorder_count: b.recv.reorder_count,
            got_fin_reached: b.recv.got_fin_reached,
            ..a.recv
        },
        send: SendSide {
            rto_timeout: b.send.rto_timeout,
            last_sent_packet: b.send.last_sent_packet,
            last_rcv_win: b.send.last_rcv_win,
            ..a.send
        },
        in_ack_list: b.in_ack_list,
        user: b.user,
        inbuf: b.inbuf,
        ..a
    })
    &&& b.user.error == a.user.error
    &&& same_user(a.user, b.user)
    &&& a.end_wf() ==> b.end_wf()
}

/// Emptying the reorder buffer leaves it in order.
pub proof fn lemma_reordered(st: St)
    requires
        st.s.recv_mid(),
    ensures
        ({
            let after = reordered(st);
            &&& reorder_wf(
                after.s.inbuf,
                after.s.recv.ack_nr,
                after.s.recv.reorder_count,
                after.s.recv.got_fin_reached,
            )
            &&& deliver_frame(st.s, after.s)
            &&& io_frame(st, after)
        }),
    decreases st.s.recv.reorder_count,
{
    reveal(reordered);
    let f = fin_reached(st);
    lemma_fin_reached(st);
    assert(f.s.recv_mid()) by {
        reveal(reorder_mid);
    }
    if f.s.recv.reorder_count == 0 || f.s.next_in_order() is None {
        lemma_reorder_done(f.s);
    } else {
        lemma_taken_up(f.s);
        let next = St { s: f.s.taken_up(), ..f };
        lemma_reordered(next);
        lemma_io_frame_trans(st, f, reordered(next));
    }
}

/// Taking in the next packet leaves the reorder buffer in order.
pub proof fn lemma_received_in_order(st: St, data: Seq<u8>)
    requires
        reorder_wf(
            st.s.inbuf,
            st.s.recv.ack_nr,
            st.s.recv.reorder_count,
            st.s.recv.got_fin_reached,
        ),
    ensures
        ({
            let after = received_in_order(st, data);
            &&& reorder_wf(
                after.s.inbuf,
                after.s.recv.ack_nr,
                after.s.recv.reorder_count,
                after.s.recv.got_fin_reached,
            )
            &&& deliver_frame(st.s, after.s)
            &&& io_frame(st, after)
        }),
{
    reveal(received_in_order);
    lemma_reorder_start(st.s);
    let next = St { s: st.s.handed_up(data).advanced(), ..st };
    lemma_reordered(next);
    let done = reordered(next);
    lemma_scheduled(done);
    lemma_io_frame_trans(st, done, scheduled(done));
}

/// The ring that packet `seq`, which is `ahead` places early, is put in.
proof fn lemma_reorder_grown(
    inbuf: Seq<Option<Seq<u8>>>,
    ack_nr: u16,
    count: u16,
    ended: bool,
    seq: u16,
    ahead: int,
)
    requires
        reorder_wf(inbuf, ack_nr, count, ended),
        1 <= ahead < REORDER_BUFFER_MAX_SIZE,
        seq == (ack_nr + 1 + ahead) % 0x10000,
    ensures
        ({
            let grown = ring_ensured(inbuf, seq + 1, ahead + 1);
            &&& reorder_wf(grown, ack_nr, count, ended)
            &&& grown.len() > ahead + 1
            &&& (seq as int) % (grown.len() as int) != (ack_nr + 1) % (grown.len() as int)
        }),
{
    reveal(reorder_wf);
    let n = inbuf.len() as int;
    let grown = ring_ensured(inbuf, seq + 1, ahead + 1);
    let m = grown.len() as int;
    lemma_grown_size(n, ahead + 1);
    lemma_ring_size_16(n);
    lemma_ring_size_16(m);
    // the next number in order, counted back from this one
    let start = seq - ahead;
    assert(start % 0x10000 == (ack_nr + 1) % 0x10000);
    assert(start % n == (ack_nr + 1) % n) by {
        assert((start % 0x10000) % n == start % n);
        assert(((ack_nr + 1) % 0x10000) % n == (ack_nr + 1) % n);
    }
    assert(start % m == (ack_nr + 1) % m) by {
        assert((start % 0x10000) % m == start % m);
        assert(((ack_nr + 1) % 0x10000) % m == (ack_nr + 1) % m);
    }
    if ahead + 1 >= n {
        lemma_grown_total(inbuf, start, m, count_weight());
        lemma_grown_at(inbuf, start, m, start);
    }
    if seq as int % m == start % m {
        lemma_sub_mod_noop(seq as int, start, m);
        lemma_small_mod(ahead as nat, m as nat);
        lemma_small_mod(0, m as nat);
    }
}

/// Keeping a packet for later leaves the reorder buffer in order.
pub proof fn lemma_received_early(st: St, seq: u16, ahead: int, data: Seq<u8>)
    requires
        reorder_wf(
            st.s.inbuf,
            st.s.recv.ack_nr,
            st.s.recv.reorder_count,
            st.s.recv.got_fin_reached,
        ),
        1 <= ahead < REORDER_BUFFER_MAX_SIZE,
        seq == (st.s.recv.ack_nr + 1 + ahead) % 0x10000,
    ensures
        ({
            let after = received_early(st, seq, ahead, data).1;
            &&& reorder_wf(
                after.s.inbuf,
                after.s.recv.ack_nr,
                after.s.recv.reorder_count,
                after.s.recv.got_fin_reached,
            )
            &&& deliver_frame(st.s, after.s)
            &&& io_frame(st, after)
            &&& st.s.recv.reorder_count < u16::MAX
        }),
{
    reveal(received_early);
    lemma_io_frame_refl(st);
    lemma_reorder_grown(
        st.s.inbuf,
        st.s.recv.ack_nr,
        st.s.recv.reorder_count,
        st.s.recv.got_fin_reached,
        seq,
        ahead,
    );
    reveal(reorder_wf);
    let grown = ring_ensured(st.s.inbuf, seq + 1, ahead + 1);
    let m = grown.len() as int;
    lemma_mod_bound(seq as int, m);
    lemma_mod_bound(st.s.recv.ack_nr + 1, m);
    assert forall|k: int| 0 <= k < m implies slot_weight(#[trigger] grown[k], count_weight())
        <= 1 by {}
    lemma_total_bound(grown, count_weight(), 1);
    assert(ring_total(grown, count_weight()) <= 2048);
    lemma_total_update(grown, count_weight(), seq as int % m, Some(data));
    let s = SockView {
        inbuf: ring_put(grown, seq as int, Some(data)),
        recv: RecvSide {
            reorder_count: (st.s.recv.reorder_count + 1) as u16,
            ..st.s.recv
        },
        ..st.s
    };
    lemma_scheduled(St { s, ..st });
}

impl UtpSock {
    fn hand_up(&mut self, data: &[u8])
        ensures
            final(self)@ == old(self)@.handed_up(data@),
            old(self).bufs_wf() ==> final(self).bufs_wf(),
    {
        if data.len() > 0 && !self.recv.read_shutdown {
            // Post bytes to the upper layer
            self.user.on_read(data);
        }
    }

    /// If the FIN is the packet that was dealt with last, ends the stream.
    fn reach_fin(&mut self, io: &mut Io)
        requires
            old(self).bufs_wf(),
        ensures
            st(*final(self), *final(io)) == fin_reached(st(*old(self), *old(io))),
            final(self).bufs_wf(),
    {
        proof {
            reveal(fin_reached);
        }
        if !self.recv.got_fin_reached && self.recv.got_fin && self.recv.eof_pkt
            == self.recv.ack_nr {
            self.end_stream(io.current_ms);
            // if the other end wants to close, ack
            self.send_ack(io);
            // we have received all packets up to eof_pkt; ignore any
            // stragglers with higher sequence numbers
            self.recv.reorder_count = 0;
        }
    }

    fn end_stream(&mut self, current_ms: u64)
        ensures
            final(self)@ == old(self)@.ended(current_ms),
            old(self).bufs_wf() ==> final(self).bufs_wf(),
    {
        self.recv.got_fin_reached = true;
        let thrice: u32 = self.rtt.rto.wrapping_mul(3);
        let wait: u32 = if thrice < 60 {
            thrice
        } else {
            60
        };
        self.send.rto_timeout = current_ms.wrapping_add(wait as u64);
        self.user.on_eof();
    }

    /// Takes what waits under the next number out of the reorder buffer.
    fn take_next(&mut self) -> (r: Option<Vec<u8>>)
        requires
            old(self).bufs_wf(),
        ensures
            final(self).bufs_wf(),
            old(self)@.next_in_order() == (match r {
                Some(p) => Some(p@),
                None => None,
            }),
            final(self)@ == (SockView {
                inbuf: ring_put(old(self)@.inbuf, old(self)@.recv.ack_nr + 1, None),
                ..old(self)@
            }),
    {
        proof {
            self.inbuf.lemma_wf_size();
            lemma_ring_size_pos(self.inbuf@.len() as int);
            lemma_slot_views_at(self.inbuf@, self.recv.ack_nr + 1);
            lemma_slot_views_put(self.inbuf@, self.recv.ack_nr + 1, None);
        }
        self.inbuf.take(self.recv.ack_nr as usize + 1)
    }

    /// Hands up what waits in the reorder buffer as long as it is next.
    fn reorder(&mut self, io: &mut Io)
        requires
            old(self).bufs_wf(),
            old(self)@.recv_mid(),
        ensures
            st(*final(self), *final(io)) == reordered(st(*old(self), *old(io))),
            final(self).bufs_wf(),
    {
        let ghost whole = reordered(st(*self, *io));
        loop
            invariant
                self.bufs_wf(),
                self@.recv_mid(),
                reordered(st(*self, *io)) == whole,
                whole == reordered(st(*old(self), *old(io))),
            decreases self@.recv.reorder_count,
        {
            let ghost before = st(*self, *io);
            proof {
                reveal(reordered);
                lemma_fin_reached(before);
                reveal(reorder_mid);
                lemma_mod_bound(self@.recv.ack_nr + 1, self@.inbuf.len() as int);
            }
            self.reach_fin(io);
            let ghost f = self@;
            if self.recv.reorder_count == 0 {
                return ;
            }
            let p: Vec<u8> = match self.take_next() {
                Some(p) => p,
                None => {
                    assert(self@.inbuf =~= f.inbuf);
                    return ;
                },
            };
            proof {
                lemma_taken_up(f);
            }
            // Pass the bytes to the upper layer
            self.recv.reorder_count = self.recv.reorder_count - 1;
            self.hand_up(p.as_slice());
            self.recv.ack_nr = self.recv.ack_nr.wrapping_add(1);
        }
    }

    /// Takes in the packet that is next in order.
    pub fn receive_in_order(&mut self, io: &mut Io, data: &[u8])
        requires
            old(self).bufs_wf(),
            reorder_wf(
                old(self)@.inbuf,
                old(self)@.recv.ack_nr,
                old(self)@.recv.reorder_count,
                old(self)@.recv.got_fin_reached,
            ),
        ensures
            st(*final(self), *final(io)) == received_in_order(st(*old(self), *old(io)), data@),
            final(self).bufs_wf(),
    {
        proof {
            reveal(received_in_order);
            lemma_reorder_start(self@);
        }
        self.hand_up(data);
        self.recv.ack_nr = self.recv.ack_nr.wrapping_add(1);
        // Check if the next packet has been received too, but is waiting
        // in the reorder buffer.
        self.reorder(io);
        self.schedule_ack(io);
    }

    /// Takes in a packet that is `ahead` places early. Returns how much of it
    /// was taken in.
    pub fn receive_early(&mut self, io: &mut Io, seq: u16, ahead: u16, data: &[u8]) -> (r: usize)
        requires
            old(self).bufs_wf(),
            reorder_wf(
                old(self)@.inbuf,
                old(self)@.recv.ack_nr,
                old(self)@.recv.reorder_count,
                old(self)@.recv.got_fin_reached,
            ),
            1 <= ahead < REORDER_BUFFER_MAX_SIZE,
            seq == (old(self)@.recv.ack_nr + 1 + ahead) % 0x10000,
        ensures
            r == received_early(st(*old(self), *old(io)), seq, ahead as int, data@).0,
            st(*final(self), *final(io)) == received_early(
                st(*old(self), *old(io)),
                seq,
                ahead as int,
                data@,
            ).1,
            final(self).bufs_wf(),
    {
        proof {
            lemma_received_early(st(*self, *io), seq, ahead as int, data@);
            reveal(received_early);
        }
        // if we have received a FIN packet, and the EOF-sequence number
        // is lower than the sequence number of this packet, something is
        // wrong
        if self.recv.got_fin && seq > self.recv.eof_pkt {
            return 0;
        }
        // grow the circle buffer before checking for duplicates so we
        // don't look at an older packet (the indices wrap)

        self.grow_inbuf(seq, ahead);
        proof {
            self.inbuf.lemma_wf_size();
            lemma_ring_size_pos(self.inbuf@.len() as int);
            lemma_slot_views_at(self.inbuf@, seq as int);
        }
        // duplicate? discard
        if self.inbuf.get(seq as usize).is_some() {
            return 0;
        }
        // Insert into the reorder buffer

        let kept: Vec<u8> = vstd::slice::slice_to_vec(data);
        proof {
            lemma_slot_views_put(self.inbuf@, seq as int, Some(kept));
        }
        self.inbuf.put(seq as usize, Some(kept));
        self.recv.reorder_count = self.recv.reorder_count + 1;
        self.schedule_ack(io);
        data.len()
    }

    fn grow_inbuf(&mut self, seq: u16, ahead: u16)
        requires
            old(self).bufs_wf(),
            ahead < REORDER_BUFFER_MAX_SIZE,
        ensures
            final(self)@ == (SockView {
                inbuf: ring_ensured(old(self)@.inbuf, seq + 1, ahead + 1),
                ..old(self)@
            }),
            final(self).bufs_wf(),
    {
        proof {
            self.inbuf.lemma_wf_size();
            lemma_ring_size_pos(self.inbuf@.len() as int);
            lemma_grown_size(self.inbuf@.len() as int, ahead + 1);
            lemma_slot_views_ensured(self.inbuf@, seq + 1, ahead + 1);
        }
        self.inbuf.ensure_size(seq as usize + 1, ahead as usize + 1);
    }
}

} // verus!

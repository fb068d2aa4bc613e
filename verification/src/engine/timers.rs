//! What a socket does as time passes: resending, giving up, and keeping the
//! connection alive.

use crate::circular::{ring_at, ring_put, ring_total};
use crate::conn_shared::{ConnView, ErrorKind};
use crate::engine::model::{flushed, keep_alive_sent, ms_between, packet_sent, St};
use crate::engine::mtu::lemma_search_keeps_order;
use crate::engine::queue::{lemma_queue_at, lemma_queue_replace, lemma_slots_differ};
use crate::engine::send::st;
use crate::engine::slots::lemma_ring_put_twice;
use crate::engine::state::{
    flight_weight, queue_wf, ConnState, Io, PacketView, RecvSide, SendSide, SockView, UtpSock,
    PACKET_SIZE,
};
use crate::engine::transmit::{
    io_frame, lemma_flushed_from, lemma_io_frame_refl, lemma_io_frame_trans, lemma_oldest_stays,
    lemma_packet_sent, lemma_same_contents_refl, lemma_same_contents_trans, same_contents,
};
use crate::engine::write::lemma_ack_sent;
use vstd::arithmetic::div_mod::*;
use vstd::prelude::*;

verus! {

/// 29 seconds determined from measuring many home NAT devices
pub const KEEPALIVE_INTERVAL: i32 = 29000;

impl PacketView {
    /// The packet is given up as lost if it is on its way.
    pub open spec fn lost(self) -> PacketView {
        PacketView { need_resend: self.transmissions > 0, ..self }
    }
}

pub open spec fn slot_lost(slot: Option<PacketView>) -> Option<PacketView> {
    match slot {
        Some(p) => Some(p.lost()),
        None => None,
    }
}

impl SockView {
    /// Every packet is considered lost, so that none is in flight.
    pub open spec fn all_lost(self) -> SockView {
        SockView {
            outbuf: self.outbuf.map_values(|slot: Option<PacketView>| slot_lost(slot)),
            send: SendSide { cur_window: 0, ..self.send },
            ..self
        }
    }

    /// Whether nothing is outstanding but the MTU probe.
    pub open spec fn only_probe_out(self) -> bool {
        &&& self.send.cur_window_packets == 1
        &&& self.send.seq_nr.wrapping_sub(1) as u32 == self.mtu.probe_seq
        &&& self.mtu.probe_seq != 0
    }

    /// Whether the connection is given up if the retransmission timer runs
    /// out once more: 4 consecutive transmissions have timed out (2 when still
    /// connecting).
    pub open spec fn out_of_retries(self) -> bool {
        self.send.retransmit_count >= 4 || self.state == ConnState::SynSent
            && self.send.retransmit_count >= 2
    }

    /// The probe under way is given up. If nothing else was outstanding, it
    /// was likely dropped for its size.
    pub open spec fn probe_given_up(self, now_ms: u64) -> SockView {
        SockView {
            mtu: if self.only_probe_out() {
                self.mtu.probe_lost(now_ms).no_probe()
            } else {
                self.mtu.no_probe()
            },
            ..self
        }
    }

    /// The connection fails with a timeout. One that nobody here has waited
    /// for yet, or that its user has closed, is not kept around.
    pub open spec fn timed_out(self) -> SockView {
        SockView {
            state: if self.state == ConnState::SynRecv || self.send.close_requested {
                ConnState::Destroy
            } else {
                ConnState::Reset
            },
            user: self.user.with_error(ErrorKind::TimedOut),
            ..self
        }
    }

    /// The timer starts over, with twice the time unless `probe_only` was
    /// lost, and all is to be sent again.
    pub open spec fn backed_off(self, current_ms: u64, probe_only: bool) -> SockView {
        let timeout = if probe_only {
            self.send.retransmit_timeout
        } else {
            self.send.retransmit_timeout.wrapping_mul(2)
        };
        let send = SendSide {
            retransmit_timeout: timeout,
            rto_timeout: current_ms.wrapping_add(timeout as u64),
            ..self.send
        };
        let s = if probe_only {
            SockView { send, ..self }
        } else {
            SockView {
                send: SendSide { duplicate_ack: 0, ..send },
                cwnd: self.cwnd.timed_out(send.cur_window_packets == 0, self.packet_size()),
                ..self
            }
        };
        s.all_lost()
    }

    /// The timer ran out with packets outstanding.
    pub open spec fn retrying(self) -> SockView {
        SockView {
            send: SendSide {
                retransmit_count: (self.send.retransmit_count + 1) as u16,
                fast_timeout: true,
                timeout_seq_nr: self.send.seq_nr,
                ..self.send
            },
            ..self
        }
    }

    /// Whether the retransmission timer has run out.
    pub open spec fn rto_expired(self, current_ms: u64) -> bool {
        ms_between(current_ms, self.send.rto_timeout) >= 0 && self.send.rto_timeout > 0
    }

    /// A window that the peer closed is opened for one packet after a while,
    /// to see whether it still is.
    pub open spec fn window_probed(self, current_ms: u64) -> SockView {
        if ms_between(current_ms, self.send.zerowindow_time) >= 0 && self.send.max_window_user
            == 0 {
            SockView { send: SendSide { max_window_user: PACKET_SIZE, ..self.send }, ..self }
        } else {
            self
        }
    }

    /// A full connection is writable again once there is room for a packet.
    pub open spec fn writable_again(self, current_ms: u64) -> SockView {
        if self.state == ConnState::ConnectedFull {
            if self.full(usize::MAX) {
                self.asked_full(usize::MAX, current_ms)
            } else {
                SockView {
                    state: ConnState::Connected,
                    user: self.user.with_writable(),
                    ..self
                }
            }
        } else {
            self
        }
    }
}

/// The timer starts over, and the oldest packet is sent again, the others to
/// follow.
#[verifier::opaque]
pub open spec fn retried(st: St, probe_only: bool) -> St {
    let s = st.s.backed_off(st.io.current_ms, probe_only);
    if s.send.cur_window_packets > 0 {
        packet_sent(St { s: s.retrying(), ..st }, s.oldest_seq())
    } else {
        St { s, ..st }
    }
}

/// The retransmission timer has run out.
#[verifier::opaque]
pub open spec fn rto_handled(st: St) -> St {
    let s = st.s.probe_given_up(st.io.now.ms);
    if s.state == ConnState::SynRecv || s.out_of_retries() {
        St { s: s.timed_out(), ..st }
    } else {
        retried(St { s, ..st }, st.s.only_probe_out())
    }
}

pub open spec fn is_up(state: ConnState) -> bool {
    state == ConnState::Connected || state == ConnState::ConnectedFull
}

/// A connection on which nothing was sent for long shows that it is there.
pub open spec fn kept_alive(st: St) -> St {
    if is_up(st.s.state) && !st.s.send.fin_sent && ms_between(
        st.io.current_ms,
        st.s.send.last_sent_packet,
    ) >= KEEPALIVE_INTERVAL {
        keep_alive_sent(st)
    } else {
        st
    }
}

/// The window probe and the retransmission timer.
#[verifier::opaque]
pub open spec fn due_handled(st: St) -> St {
    let s = st.s.window_probed(st.io.current_ms);
    if s.rto_expired(st.io.current_ms) {
        rto_handled(St { s, ..st })
    } else {
        St { s, ..st }
    }
}

/// What is left to do for a connection that has not just been given up.
#[verifier::opaque]
pub open spec fn carried_on(st: St) -> St {
    if st.s.state == ConnState::Destroy || st.s.state == ConnState::Reset {
        st
    } else {
        kept_alive(St { s: st.s.writable_again(st.io.current_ms), ..st })
    }
}

/// The timers of the socket, with what was due flushed already.
pub open spec fn timers_run(st: St) -> St {
    if is_up(st.s.state) || st.s.state == ConnState::SynSent || st.s.state == ConnState::SynRecv {
        carried_on(due_handled(st))
    } else {
        st
    }
}

/// A socket is given a chance to act on the passing of time.
#[verifier::opaque]
pub open spec fn timeouts_checked(st: St) -> St {
    if st.s.state == ConnState::Destroy {
        st
    } else {
        timers_run(flushed(st).1)
    }
}

/// Giving all packets up keeps the send queue in order.
pub proof fn lemma_all_lost(s: SockView)
    requires
        s.send_wf(),
    ensures
        s.all_lost().send_wf(),
        s.oldest_there() ==> s.all_lost().oldest_there(),
        same_contents(s.outbuf, s.all_lost().outbuf),
{
    reveal(queue_wf);
    reveal(same_contents);
    let t = s.all_lost();
    lemma_queue_at(
        s.outbuf,
        s.send.seq_nr,
        s.send.cur_window_packets,
        s.send.cur_window,
        s.oldest_seq() as int,
    );
    lemma_weightless(t.outbuf);
}

/// Packets of which none is in flight weigh nothing.
proof fn lemma_weightless(slots: Seq<Option<PacketView>>)
    requires
        forall|k: int|
            0 <= k < slots.len() && #[trigger] slots[k] is Some ==> !slots[k]->0.in_flight(),
    ensures
        ring_total(slots, flight_weight()) == 0,
    decreases slots.len(),
{
    if slots.len() > 0 {
        let front = slots.drop_last();
        assert forall|k: int|
            0 <= k < front.len() && #[trigger] front[k] is Some implies !front[k]->0.in_flight() by {
            assert(front[k] == slots[k]);
        }
        lemma_weightless(front);
        assert(slots[slots.len() - 1] == slots.last());
    }
}

/// `b` differs from `a` at most in what the timers change. What is received,
/// and what is to be, is left alone.
pub open spec fn timer_frame(a: SockView, b: SockView) -> bool {
    &&& b.peer == a.peer
    &&& b.recv == a.recv
    &&& b.seen == a.seen
    &&& b.inbuf == a.inbuf
    &&& b.rtt == a.rtt
    &&& b.drift == a.drift
    &&& b.rtt_hist == a.rtt_hist
    &&& b.our_hist == a.our_hist
    &&& b.their_hist == a.their_hist
    &&& b.extensions == a.extensions
    &&& b.user == (ConnView { error: b.user.error, notified: b.user.notified, ..a.user })
    &&& b.send.seq_nr == a.send.seq_nr
    &&& b.send.cur_window_packets == a.send.cur_window_packets
    &&& b.send.fin_sent == a.send.fin_sent
    &&& b.send.close_requested == a.send.close_requested
    &&& b.state == ConnState::SynSent ==> a.state == ConnState::SynSent
}

/// Backing off keeps the socket in order.
pub proof fn lemma_backed_off(s: SockView, current_ms: u64, probe_only: bool)
    requires
        s.wf(),
    ensures
        ({
            let b = s.backed_off(current_ms, probe_only);
            &&& b.wf()
            &&& timer_frame(s, b)
            &&& same_contents(s.outbuf, b.outbuf)
            &&& b.send.retransmit_count == s.send.retransmit_count
            &&& b.state == s.state
        }),
{
    let b = s.backed_off(current_ms, probe_only);
    let c = SockView {
        outbuf: s.outbuf,
        send: SendSide { cur_window: s.send.cur_window, ..b.send },
        ..b
    };
    assert(b == c.all_lost());
    lemma_all_lost(c);
}

/// Trying again keeps the socket in order.
proof fn lemma_retried(st: St, probe_only: bool)
    requires
        st.s.wf(),
        st.s.send.retransmit_count < 4,
    ensures
        retried(st, probe_only).s.wf(),
        timer_frame(st.s, retried(st, probe_only).s),
        io_frame(st, retried(st, probe_only)),
        same_contents(st.s.outbuf, retried(st, probe_only).s.outbuf),
{
    reveal(retried);
    lemma_io_frame_refl(st);
    lemma_backed_off(st.s, st.io.current_ms, probe_only);
    let b = st.s.backed_off(st.io.current_ms, probe_only);
    if b.send.cur_window_packets > 0 {
        let r = St { s: b.retrying(), ..st };
        lemma_packet_sent(r, b.oldest_seq());
        let after = packet_sent(r, b.oldest_seq());
        lemma_oldest_stays(b, after.s);
        lemma_same_contents_trans(st.s.outbuf, b.outbuf, after.s.outbuf);
    }
}

/// Handling an expired timer keeps the socket in order.
pub proof fn lemma_rto_handled(st: St)
    requires
        st.s.wf(),
    ensures
        rto_handled(st).s.wf(),
        timer_frame(st.s, rto_handled(st).s),
        io_frame(st, rto_handled(st)),
        same_contents(st.s.outbuf, rto_handled(st).s.outbuf),
        st.s.state == ConnState::SynRecv ==> rto_handled(st).s.state == ConnState::Destroy,
{
    reveal(rto_handled);
    lemma_io_frame_refl(st);
    lemma_same_contents_refl(st.s.outbuf);
    if st.s.only_probe_out() {
        lemma_search_keeps_order(st.s.mtu, st.io.now.ms);
    }
    let s = st.s.probe_given_up(st.io.now.ms);
    if s.state == ConnState::SynRecv || s.out_of_retries() {
    } else {
        lemma_retried(St { s, ..st }, st.s.only_probe_out());
    }
}

proof fn lemma_kept_alive(st: St)
    requires
        st.s.wf(),
    ensures
        kept_alive(st).s.wf(),
        timer_frame(st.s, kept_alive(st).s),
        io_frame(st, kept_alive(st)),
        kept_alive(st).s.outbuf == st.s.outbuf,
        kept_alive(st).s.state == st.s.state,
{
    lemma_io_frame_refl(st);
    let before = RecvSide { ack_nr: st.s.recv.ack_nr.wrapping_sub(1), ..st.s.recv };
    lemma_ack_sent(St { s: SockView { recv: before, ..st.s }, ..st });
}

proof fn lemma_timer_frame_trans(a: SockView, b: SockView, c: SockView)
    requires
        timer_frame(a, b),
        timer_frame(b, c),
    ensures
        timer_frame(a, c),
{
}

proof fn lemma_writable_again(s: SockView, current_ms: u64)
    requires
        s.wf(),
    ensures
        s.writable_again(current_ms).wf(),
        timer_frame(s, s.writable_again(current_ms)),
        s.writable_again(current_ms).outbuf == s.outbuf,
{
}

pub proof fn lemma_due_handled(st: St)
    requires
        st.s.wf(),
    ensures
        due_handled(st).s.wf(),
        timer_frame(st.s, due_handled(st).s),
        io_frame(st, due_handled(st)),
        same_contents(st.s.outbuf, due_handled(st).s.outbuf),
{
    reveal(due_handled);
    lemma_io_frame_refl(st);
    lemma_same_contents_refl(st.s.outbuf);
    let s = st.s.window_probed(st.io.current_ms);
    lemma_rto_handled(St { s, ..st });
    lemma_timer_frame_trans(st.s, s, due_handled(st).s);
}

proof fn lemma_carried_on(st: St)
    requires
        st.s.wf(),
    ensures
        carried_on(st).s.wf(),
        timer_frame(st.s, carried_on(st).s),
        io_frame(st, carried_on(st)),
        carried_on(st).s.outbuf == st.s.outbuf,
{
    reveal(carried_on);
    lemma_io_frame_refl(st);
    let w = St { s: st.s.writable_again(st.io.current_ms), ..st };
    lemma_writable_again(st.s, st.io.current_ms);
    lemma_kept_alive(w);
    lemma_timer_frame_trans(st.s, w.s, kept_alive(w).s);
}

/// The timers keep the socket in order.
pub proof fn lemma_timers_run(st: St)
    requires
        st.s.wf(),
    ensures
        timers_run(st).s.wf(),
        timer_frame(st.s, timers_run(st).s),
        io_frame(st, timers_run(st)),
        same_contents(st.s.outbuf, timers_run(st).s.outbuf),
{
    lemma_io_frame_refl(st);
    lemma_same_contents_refl(st.s.outbuf);
    let due = due_handled(st);
    lemma_due_handled(st);
    lemma_carried_on(due);
    lemma_timer_frame_trans(st.s, due.s, carried_on(due).s);
    lemma_io_frame_trans(st, due, carried_on(due));
}

pub proof fn lemma_timeouts_checked(st: St)
    requires
        st.s.wf(),
    ensures
        timeouts_checked(st).s.wf(),
        timer_frame(st.s, timeouts_checked(st).s),
        io_frame(st, timeouts_checked(st)),
        same_contents(st.s.outbuf, timeouts_checked(st).s.outbuf),
{
    reveal(timeouts_checked);
    lemma_io_frame_refl(st);
    lemma_same_contents_refl(st.s.outbuf);
    if st.s.state != ConnState::Destroy {
        lemma_flushed_from(st, st.s.packet_size(), st.s.oldest_seq());
        let f = flushed(st).1;
        lemma_oldest_stays(st.s, f.s);
        lemma_timers_run(f);
        lemma_timer_frame_trans(st.s, f.s, timers_run(f).s);
        lemma_same_contents_trans(st.s.outbuf, f.s.outbuf, timers_run(f).s.outbuf);
        lemma_io_frame_trans(st, f, timers_run(f));
    }
}

/// What a slot holds once the `n` newest numbers have been given up.
spec fn newest_lost(slot: Option<PacketView>, seq_nr: u16, n: int) -> Option<PacketView> {
    match slot {
        Some(p) => if (seq_nr - 1 - p.seq()) % 0x10000 < n {
            Some(p.lost())
        } else {
            slot
        },
        None => None,
    }
}

spec fn newest_given_up(s: SockView, t: SockView, n: int) -> bool {
    &&& t.send_wf()
    &&& t == (SockView {
        send: SendSide { cur_window: t.send.cur_window, ..s.send },
        outbuf: t.outbuf,
        ..s
    })
    &&& t.outbuf.len() == s.outbuf.len()
    &&& forall|k: int|
        #![trigger t.outbuf[k]]
        0 <= k < s.outbuf.len() ==> t.outbuf[k] == newest_lost(s.outbuf[k], s.send.seq_nr, n)
}

/// One more packet is given up.
proof fn lemma_one_given_up(s: SockView, t: SockView, n: int, u: SockView)
    requires
        s.send_wf(),
        newest_given_up(s, t, n),
        0 <= n < s.send.cur_window_packets,
        ({
            let seq = s.send.seq_nr.wrapping_sub(n as u16).wrapping_sub(1);
            match t.packet_at(seq) {
                Some(p) => u == (SockView {
                    outbuf: ring_put(t.outbuf, seq as int, Some(p.lost())),
                    send: SendSide {
                        cur_window: if p.in_flight() {
                            (t.send.cur_window - p.payload) as usize
                        } else {
                            t.send.cur_window
                        },
                        ..t.send
                    },
                    ..t
                }),
                None => u == t,
            }
        }),
    ensures
        newest_given_up(s, u, n + 1),
{
    let seq = s.send.seq_nr.wrapping_sub(n as u16).wrapping_sub(1);
    let seq_nr = s.send.seq_nr;
    let packets = s.send.cur_window_packets;
    let len = s.outbuf.len() as int;
    lemma_queue_at(t.outbuf, seq_nr, packets, t.send.cur_window, seq as int);
    assert((seq_nr - 1 - seq) % 0x10000 == n);
    match t.packet_at(seq) {
        Some(p) => {
            lemma_queue_replace(
                t.outbuf,
                seq_nr,
                packets,
                t.send.cur_window,
                seq as int,
                p.lost(),
                u.send.cur_window,
            );
        },
        None => {},
    }
    assert forall|k: int| #![trigger u.outbuf[k]] 0 <= k < len implies u.outbuf[k] == newest_lost(
        s.outbuf[k],
        seq_nr,
        n + 1,
    ) by {
        assert(t.outbuf[k] == newest_lost(s.outbuf[k], seq_nr, n));
        if s.outbuf[k] is Some {
            let q = s.outbuf[k]->0.seq();
            lemma_mod_bound(k, len);
            lemma_small_mod(k as nat, len as nat);
            lemma_queue_at(s.outbuf, seq_nr, packets, s.send.cur_window, k);
            assert(ring_at(s.outbuf, k) == s.outbuf[k]);
            if (seq_nr - 1 - q) % 0x10000 == n {
                // this is the packet that is given up
                assert(q == seq);
            } else if k == seq as int % len {
                lemma_slots_differ(
                    s.outbuf,
                    seq_nr,
                    packets,
                    s.send.cur_window,
                    q as u16,
                    seq,
                );
            }
        }
    }
}

impl UtpSock {
    /// Considers every packet lost.
    fn lose_all(&mut self)
        requires
            old(self).bufs_wf(),
            old(self)@.send_wf(),
        ensures
            final(self)@ == old(self)@.all_lost(),
            final(self).bufs_wf(),
    {
        let ghost s = self@;
        let mut i: u16 = 0;
        proof {
            reveal(queue_wf);
            assert(newest_given_up(s, s, 0));
        }
        while i < self.send.cur_window_packets
            invariant
                self.bufs_wf(),
                s.send_wf(),
                s == old(self)@,
                i <= s.send.cur_window_packets,
                newest_given_up(s, self@, i as int),
            decreases s.send.cur_window_packets - i,
        {
            let seq: u16 = self.send.seq_nr.wrapping_sub(i).wrapping_sub(1);
            let ghost t = self@;
            proof {
                lemma_queue_at(
                    t.outbuf,
                    t.send.seq_nr,
                    t.send.cur_window_packets,
                    t.send.cur_window,
                    seq as int,
                );
            }
            if self.outgoing(seq).is_some() {
                match self.take_outgoing(seq) {
                    Some(mut pkt) => {
                        if pkt.transmissions > 0 && !pkt.need_resend {
                            pkt.need_resend = true;
                            self.send.cur_window = self.send.cur_window - pkt.payload;
                        }
                        proof {
                            lemma_ring_put_twice(t.outbuf, seq as int, None, Some(pkt@));
                        }
                        self.put_outgoing(seq, pkt);
                    },
                    None => {},
                }
            }
            proof {
                lemma_one_given_up(s, t, i as int, self@);
            }
            i = i + 1;
        }
        proof {
            lemma_all_given_up(s, self@);
        }
    }

    /// The retransmission timer has run out.
    fn handle_rto(&mut self, io: &mut Io)
        requires
            old(self).wf(),
        ensures
            st(*final(self), *final(io)) == rto_handled(st(*old(self), *old(io))),
            final(self).bufs_wf(),
    {
        proof {
            reveal(rto_handled);
            if self@.only_probe_out() {
                lemma_search_keeps_order(self@.mtu, io.now.ms);
            }
        }
        let mut ignore_loss: bool = false;
        if self.send.cur_window_packets == 1 && self.send.seq_nr.wrapping_sub(1) as u32
            == self.mtu.probe_seq && self.mtu.probe_seq != 0 {
            // our only outstanding packet timed out, and it was the MTU
            // probe: likely dropped for size, not congestion
            self.mtu.on_probe_lost(io.now.ms);
            ignore_loss = true;
        }
        // we dropped the probe, allow a new one

        self.mtu.drop_probe();
        assert(self@ == old(self)@.probe_given_up(io.now.ms));
        // They initiated the connection but failed to respond before the
        // rto. Kill the connection and do not notify the accept side beyond
        // the error.
        if self.state == ConnState::SynRecv {
            self.state = ConnState::Destroy;
            self.user.on_error(ErrorKind::TimedOut);
            return ;
        }
        if self.send.retransmit_count >= 4 || (self.state == ConnState::SynSent
            && self.send.retransmit_count >= 2) {
            // 4 consecutive transmissions have timed out (2 when still
            // connecting). Kill it.
            self.state = if self.send.close_requested {
                ConnState::Destroy
            } else {
                ConnState::Reset
            };
            self.user.on_error(ErrorKind::TimedOut);
            return ;
        }
        self.retry(io, ignore_loss);
    }

    /// Starts the timer over, and sends all packets again, beginning with the
    /// oldest.
    fn retry(&mut self, io: &mut Io, probe_only: bool)
        requires
            old(self).wf(),
            old(self)@.send.retransmit_count < 4,
        ensures
            st(*final(self), *final(io)) == retried(st(*old(self), *old(io)), probe_only),
            final(self).bufs_wf(),
    {
        proof {
            reveal(retried);
            lemma_backed_off(self@, io.current_ms, probe_only);
        }
        self.back_off(io.current_ms, probe_only);
        if self.send.cur_window_packets > 0 {
            self.send.retransmit_count = self.send.retransmit_count + 1;
            self.send.fast_timeout = true;
            self.send.timeout_seq_nr = self.send.seq_nr;
            // Re-send the oldest packet.
            let seq: u16 = self.send.seq_nr.wrapping_sub(self.send.cur_window_packets);
            self.send_packet_at(io, seq);
        }
    }

    fn back_off(&mut self, current_ms: u64, probe_only: bool)
        requires
            old(self).wf(),
        ensures
            final(self)@ == old(self)@.backed_off(current_ms, probe_only),
            final(self).bufs_wf(),
    {
        // Increase RTO
        let new_timeout: u32 = if probe_only {
            self.send.retransmit_timeout
        } else {
            self.send.retransmit_timeout.wrapping_mul(2)
        };
        self.send.retransmit_timeout = new_timeout;
        self.send.rto_timeout = current_ms.wrapping_add(new_timeout as u64);
        if !probe_only {
            // On Timeout
            self.send.duplicate_ack = 0;
            let packet_size: usize = self.get_packet_size();
            self.cwnd.on_timeout(self.send.cur_window_packets == 0, packet_size);
        }
        // every packet should be considered lost

        self.lose_all();
    }

    /// Marks a full socket as writable again if there is room.
    pub fn check_writable(&mut self, current_ms: u64)
        requires
            old(self)@.send_wf(),
            old(self)@.mtu.wf(),
        ensures
            final(self)@ == old(self)@.writable_again(current_ms),
            old(self).bufs_wf() ==> final(self).bufs_wf(),
    {
        if self.state == ConnState::ConnectedFull {
            if !self.is_full(current_ms, usize::MAX) {
                self.state = ConnState::Connected;
                self.user.on_writable();
            }
        }
    }

    fn handle_due(&mut self, io: &mut Io)
        requires
            old(self).wf(),
        ensures
            st(*final(self), *final(io)) == due_handled(st(*old(self), *old(io))),
            final(self).bufs_wf(),
    {
        proof {
            reveal(due_handled);
        }
        // Reset max window...
        if ms_elapsed(io.current_ms, self.send.zerowindow_time) && self.send.max_window_user == 0 {
            self.send.max_window_user = PACKET_SIZE;
        }
        if ms_elapsed(io.current_ms, self.send.rto_timeout) && self.send.rto_timeout > 0 {
            self.handle_rto(io);
        }
    }

    fn carry_on(&mut self, io: &mut Io)
        requires
            old(self).wf(),
        ensures
            st(*final(self), *final(io)) == carried_on(st(*old(self), *old(io))),
            final(self).bufs_wf(),
    {
        proof {
            reveal(carried_on);
        }
        if self.state == ConnState::Destroy || self.state == ConnState::Reset {
            return ;
        }
        // Mark the socket as writable

        self.check_writable(io.current_ms);
        if (self.state == ConnState::Connected || self.state == ConnState::ConnectedFull)
            && !self.send.fin_sent && io.current_ms.wrapping_sub(
            self.send.last_sent_packet,
        ) as u32 as i32 >= KEEPALIVE_INTERVAL {
            self.send_keep_alive(io);
        }
    }

    /// Lets the socket act on the passing of time.
    pub fn check_timeouts(&mut self, io: &mut Io)
        requires
            old(self).wf(),
        ensures
            st(*final(self), *final(io)) == timeouts_checked(st(*old(self), *old(io))),
            final(self).wf(),
    {
        proof {
            reveal(timeouts_checked);
            lemma_timeouts_checked(st(*self, *io));
        }
        if self.state == ConnState::Destroy {
            return ;
        }
        let ghost before = st(*self, *io);
        proof {
            lemma_flushed_from(before, before.s.packet_size(), before.s.oldest_seq());
        }
        self.flush_packets(io);
        proof {
            lemma_oldest_stays(before.s, self@);
            lemma_due_handled(st(*self, *io));
        }
        match self.state {
            ConnState::SynSent | ConnState::SynRecv | ConnState::ConnectedFull
            | ConnState::Connected => {
                self.handle_due(io);
                self.carry_on(io);
            },
            _ => {},
        }
    }
}

/// Whether the moment `b` has come at time `a`, on millisecond clocks.
pub fn ms_elapsed(a: u64, b: u64) -> (r: bool)
    ensures
        r == (ms_between(a, b) >= 0),
{
    (a.wrapping_sub(b) as u32 as i32) >= 0
}

/// Once the whole window is given up, no packet is in flight.
proof fn lemma_all_given_up(s: SockView, t: SockView)
    requires
        s.send_wf(),
        newest_given_up(s, t, s.send.cur_window_packets as int),
    ensures
        t == s.all_lost(),
{
    reveal(queue_wf);
    assert(t.outbuf =~= s.all_lost().outbuf);
    lemma_weightless(t.outbuf);
}

} // verus!

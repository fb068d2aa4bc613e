//! The timers of a connection: what it does when an ack does not come, when
//! the peer has no room, and when nothing has been sent for long.

use crate::conn_shared::ErrorKind;
use crate::engine::flow::{full_payload, lemma_flush_sends_what_waits, no_room, waits};
use crate::engine::model::{data_sent, flushed, flushed_from, ms_between, packet_sent, St};
use crate::engine::queue::{lemma_queue_at, lemma_slots_differ};
use crate::engine::recovery::{goes_out, in_window, lemma_own_number, sent_at};
use crate::engine::state::{ConnState, PacketView, RecvSide, SendSide, SockView};
use crate::engine::timers::{
    carried_on, due_handled, lemma_backed_off, lemma_due_handled, retried, rto_handled,
    timeouts_checked,
};
use crate::engine::timing::{lemma_ack_tells_all, lemma_packet_tells_all};
use crate::engine::transmit::{
    lemma_flushed_from, lemma_oldest_stays, lemma_packet_sent, lemma_same_contents_at, only_sent_to,
    same_contents,
};
use crate::engine::write::lemma_ack_sent;
use crate::packet::be16;
use vstd::prelude::*;

verus! {

/// Whether a timer that is set for `at` has run out at `now`. (Times that are
/// further apart than 2^31 ms are not told apart.)
pub open spec fn has_passed(now: u64, at: u64) -> bool {
    at <= now && now - at < 0x8000_0000
}

/// Whether a timer that is set for `at` has not run out at `now`.
pub open spec fn is_ahead(now: u64, at: u64) -> bool {
    now < at && at - now <= 0x8000_0000
}

proof fn lemma_clock(now: u64, at: u64)
    ensures
        has_passed(now, at) ==> ms_between(now, at) == now - at,
        is_ahead(now, at) ==> ms_between(now, at) < 0,
{
    if is_ahead(now, at) {
        let d: u64 = now.wrapping_sub(at);
        let e: u64 = (at - now) as u64;
        assert(d == 0x1_0000_0000_0000_0000 - e);
        assert((d as u32 as i32) < 0) by (bit_vector)
            requires
                d == 0x1_0000_0000_0000_0000 - e,
                0 < e <= 0x8000_0000,
        ;
    }
}

/// Whether the retransmission timer is running and has run out.
pub open spec fn ack_overdue(st: St) -> bool {
    st.s.send.rto_timeout > 0 && has_passed(st.io.current_ms, st.s.send.rto_timeout)
}

/// Whether the probe is all that is outstanding.
pub open spec fn probe_alone(s: SockView) -> bool {
    &&& s.send.cur_window_packets == 1
    &&& s.mtu.probe_seq != 0
    &&& s.mtu.probe_seq == (s.send.seq_nr - 1) % 0x10000
}

/// Whether another try is due when an ack is overdue: four in a row are made,
/// two while the connection is being dialled, none for a connection that nobody
/// has answered for.
pub open spec fn tries_left(s: SockView) -> bool {
    &&& s.send.retransmit_count < 4
    &&& s.state == ConnState::SynSent ==> s.send.retransmit_count < 2
    &&& s.state != ConnState::SynRecv
}

/// The state that an overdue ack leaves before the oldest packet goes out.
proof fn lemma_overdue_splits(st: St) -> (r: St)
    requires
        st.s.wf(),
        ack_overdue(st),
        tries_left(st.s),
        !probe_alone(st.s),
    ensures
        r.s.wf(),
        r.io == st.io,
        r.s.seen == st.s.seen,
        r.s.recv == st.s.recv,
        r.s.peer == st.s.peer,
        r.s.send.seq_nr == st.s.send.seq_nr,
        r.s.send.cur_window_packets == st.s.send.cur_window_packets,
        r.s.send.cur_window == 0,
        r.s.send.retransmit_timeout == st.s.send.retransmit_timeout.wrapping_mul(2),
        r.s.send.rto_timeout == st.io.current_ms.wrapping_add(
            st.s.send.retransmit_timeout.wrapping_mul(2) as u64,
        ),
        r.s.send.duplicate_ack == 0,
        r.s.mtu.probe_seq == 0,
        r.s.mtu.last == st.s.mtu.last,
        r.s.outbuf.len() == st.s.outbuf.len(),
        forall|k: int|
            0 <= k < r.s.outbuf.len() ==> (#[trigger] r.s.outbuf[k]) == (match st.s.outbuf[k] {
                Some(p) => Some(PacketView { need_resend: p.transmissions > 0, ..p }),
                None => None,
            }),
        st.s.send.cur_window_packets > 0 ==> {
            &&& due_handled(st) == packet_sent(r, st.s.oldest_seq())
            &&& r.s.cwnd.max_window == st.s.mtu.last - 20
            &&& r.s.cwnd.slow_start
            &&& r.s.send.retransmit_count == st.s.send.retransmit_count + 1
            &&& r.s.send.fast_timeout
        },
        st.s.send.cur_window_packets == 0 ==> {
            &&& due_handled(st) == r
            &&& r.s.send.retransmit_count == st.s.send.retransmit_count
            &&& r.s.cwnd == st.s.cwnd.timed_out(true, (st.s.mtu.last - 20) as usize)
        },
        r.s.state == st.s.state,
        r.s.user == st.s.user,
{
    reveal(due_handled);
    reveal(rto_handled);
    reveal(retried);
    lemma_clock(st.io.current_ms, st.s.send.rto_timeout);
    let w = st.s.window_probed(st.io.current_ms);
    assert(!w.only_probe_out());
    let g = w.probe_given_up(st.io.now.ms);
    lemma_backed_off(g, st.io.current_ms, false);
    let b = g.backed_off(st.io.current_ms, false);
    if st.s.send.cur_window_packets > 0 {
        St { s: b.retrying(), ..st }
    } else {
        St { s: b, ..st }
    }
}

/// When an ack is overdue, the oldest packet goes out again, and nothing else
/// does. The next time twice as long is waited. All that was in flight counts
/// as lost, and the window starts over with one packet.
pub proof fn lemma_overdue_ack_resends_oldest(st: St)
    requires
        st.s.wf(),
        ack_overdue(st),
        tries_left(st.s),
        !probe_alone(st.s),
        st.s.send.cur_window_packets > 0,
    ensures
        ({
            let after = due_handled(st);
            let oldest = ((st.s.send.seq_nr - st.s.send.cur_window_packets) % 0x10000) as u16;
            let d = after.io.outgoing.last();
            &&& st.s.packet_at(oldest) is Some
            &&& after.io.outgoing.len() == st.io.outgoing.len() + 1
            &&& after.io.outgoing.drop_last() == st.io.outgoing
            &&& d.addr == st.s.peer.key.addr
            &&& be16(d.data, 16) == oldest
            &&& d.data.skip(20) == st.s.packet_at(oldest)->0.data.skip(20)
            &&& after.s.state == st.s.state
            &&& after.s.send.cur_window == st.s.packet_at(oldest)->0.payload
            &&& forall|q: u16| #[trigger]
                after.s.packet_at(q) is Some && in_window(st.s, q) && q != oldest
                    ==> after.s.packet_at(q)->0.transmissions == 0 || after.s.packet_at(
                    q,
                )->0.need_resend
            &&& after.s.send.retransmit_count == st.s.send.retransmit_count + 1
            &&& after.s.send.fast_timeout
            &&& st.s.send.retransmit_timeout < 0x8000_0000 ==> after.s.send.retransmit_timeout == 2
                * st.s.send.retransmit_timeout
            &&& st.s.send.retransmit_timeout < 0x8000_0000 && st.io.current_ms < 0x8000_0000_0000_0000
                ==> after.s.send.rto_timeout == st.io.current_ms + 2 * st.s.send.retransmit_timeout
            &&& after.s.cwnd.max_window == st.s.mtu.last - 20
            &&& after.s.cwnd.slow_start
            &&& after.s.send.duplicate_ack == 0
            &&& st.s.packet_at(oldest)->0.transmissions > 0 ==> after.s.mtu.probe_seq == 0
        }),
{
    let oldest = st.s.oldest_seq();
    let r = lemma_overdue_splits(st);
    lemma_queue_at(
        st.s.outbuf,
        st.s.send.seq_nr,
        st.s.send.cur_window_packets,
        st.s.send.cur_window,
        oldest as int,
    );
    lemma_own_number(st.s, oldest);
    lemma_packet_sent(r, oldest);
    lemma_packet_tells_all(r, oldest);
    reveal(packet_sent);
    reveal(data_sent);
    let after = due_handled(st);
    assert forall|q: u16| #[trigger]
        after.s.packet_at(q) is Some && in_window(st.s, q) && q != oldest implies after.s.packet_at(
        q,
    )->0.transmissions == 0 || after.s.packet_at(q)->0.need_resend by {
        lemma_slots_differ(
            st.s.outbuf,
            st.s.send.seq_nr,
            st.s.send.cur_window_packets,
            st.s.send.cur_window,
            q,
            oldest,
        );
        lemma_queue_at(
            st.s.outbuf,
            st.s.send.seq_nr,
            st.s.send.cur_window_packets,
            st.s.send.cur_window,
            q as int,
        );
        assert(after.s.packet_at(q) == r.s.packet_at(q));
    }
}

/// When the timer runs out with nothing outstanding, nothing is sent, and the
/// window shrinks by a third, but not below one packet.
pub proof fn lemma_idle_window_shrinks(st: St)
    requires
        st.s.wf(),
        ack_overdue(st),
        tries_left(st.s),
        st.s.send.cur_window_packets == 0,
    ensures
        ({
            let after = due_handled(st);
            let w = st.s.cwnd.max_window;
            let one = st.s.mtu.last - 20;
            let less = w * 2 / 3;
            &&& after.io.outgoing == st.io.outgoing
            &&& after.s.cwnd.max_window == (if w > one && less > one {
                less
            } else {
                one
            })
            &&& w > one ==> after.s.cwnd.slow_start == st.s.cwnd.slow_start
            &&& w <= one ==> after.s.cwnd.slow_start
            &&& after.s.send.retransmit_count == st.s.send.retransmit_count
            &&& st.s.send.retransmit_timeout < 0x8000_0000 ==> after.s.send.retransmit_timeout == 2
                * st.s.send.retransmit_timeout
        }),
{
    let r = lemma_overdue_splits(st);
}

/// When an ack is overdue once too often, the connection has failed: nothing is
/// sent any more, and the user learns why. Of a connection that its user has
/// closed, or never had, nothing is kept.
pub proof fn lemma_overdue_ack_gives_up(st: St)
    requires
        st.s.wf(),
        ack_overdue(st),
        !tries_left(st.s),
    ensures
        ({
            let after = due_handled(st);
            &&& after.io == st.io
            &&& after.s.user.notified
            &&& after.s.user.error == (match st.s.user.error {
                Some(k) => Some(k),
                None => Some(ErrorKind::TimedOut),
            })
            &&& after.s.state == (if st.s.state == ConnState::SynRecv
                || st.s.send.close_requested {
                ConnState::Destroy
            } else {
                ConnState::Reset
            })
        }),
{
    reveal(due_handled);
    reveal(rto_handled);
    lemma_clock(st.io.current_ms, st.s.send.rto_timeout);
}

/// As long as no ack is overdue, the timers send nothing and give nothing up.
pub proof fn lemma_timers_wait(st: St)
    requires
        st.s.wf(),
        st.s.send.rto_timeout == 0 || is_ahead(st.io.current_ms, st.s.send.rto_timeout),
    ensures
        ({
            let after = due_handled(st);
            &&& after.io == st.io
            &&& after.s == (SockView {
                send: SendSide { max_window_user: after.s.send.max_window_user, ..st.s.send },
                ..st.s
            })
        }),
{
    reveal(due_handled);
    lemma_clock(st.io.current_ms, st.s.send.rto_timeout);
}

/// A window that the peer has closed is tried again with one packet when its
/// time has come, and not before. An open one is left alone.
pub proof fn lemma_closed_window_is_tried(st: St)
    requires
        st.s.wf(),
    ensures
        ({
            let before = st.s.send.max_window_user;
            let after = due_handled(st).s.send.max_window_user;
            &&& before != 0 ==> after == before
            &&& before == 0 && is_ahead(st.io.current_ms, st.s.send.zerowindow_time) ==> after == 0
            &&& before == 0 && has_passed(st.io.current_ms, st.s.send.zerowindow_time) ==> after
                == 1435
        }),
{
    reveal(due_handled);
    reveal(rto_handled);
    reveal(retried);
    lemma_clock(st.io.current_ms, st.s.send.zerowindow_time);
    let w = st.s.window_probed(st.io.current_ms);
    let g = w.probe_given_up(st.io.now.ms);
    let b = g.backed_off(st.io.current_ms, w.only_probe_out());
    lemma_due_handled(st);
    reveal(packet_sent);
    reveal(data_sent);
}

/// A connection that has nothing to send shows every 29 seconds that it is
/// still there, with an ack of the packet before the last; until then it keeps
/// quiet.
pub proof fn lemma_quiet_connection_shows_itself(st: St)
    requires
        st.s.wf(),
        st.s.state == ConnState::Connected,
        !st.s.send.fin_sent,
        st.s.send.cur_window_packets == 0,
        st.s.send.rto_timeout == 0 || is_ahead(st.io.current_ms, st.s.send.rto_timeout),
        has_passed(st.io.current_ms, st.s.send.last_sent_packet),
    ensures
        ({
            let after = timeouts_checked(st);
            let quiet = st.io.current_ms - st.s.send.last_sent_packet;
            let d = after.io.outgoing.last();
            &&& quiet < 29000 ==> after.io.outgoing == st.io.outgoing
            &&& quiet >= 29000 ==> {
                &&& after.io.outgoing.len() == st.io.outgoing.len() + 1
                &&& after.io.outgoing.drop_last() == st.io.outgoing
                &&& d.addr == st.s.peer.key.addr
                &&& d.data[0] == 0x21
                &&& be16(d.data, 18) == (st.s.recv.ack_nr - 1) % 0x10000
                &&& be16(d.data, 16) == st.s.send.seq_nr
                &&& after.s.send.last_sent_packet == st.io.current_ms
            }
            &&& after.s.recv == st.s.recv
            &&& after.s.state == st.s.state
        }),
{
    reveal(timeouts_checked);
    reveal(flushed_from);
    reveal(carried_on);
    assert(flushed(st).1 == st);
    lemma_timers_wait(st);
    let due = due_handled(st);
    lemma_clock(st.io.current_ms, st.s.send.last_sent_packet);
    let before = RecvSide { ack_nr: st.s.recv.ack_nr.wrapping_sub(1), ..st.s.recv };
    lemma_ack_tells_all(St { s: SockView { recv: before, ..due.s }, ..due });
    lemma_ack_sent(St { s: SockView { recv: before, ..due.s }, ..due });
}

/// Whenever the timers are looked at, what waits to be sent is, as far as there
/// is room, and a connection counts as full only if there is no room for a full
/// packet; if it was full and is not any more, its user is told.
pub proof fn lemma_tick_sends_what_waits(st: St, q: u16)
    requires
        st.s.wf(),
        st.s.state == ConnState::Connected || st.s.state == ConnState::ConnectedFull,
        st.s.send.rto_timeout == 0 || is_ahead(st.io.current_ms, st.s.send.rto_timeout),
        st.s.send.max_window_user > 0,
        in_window(st.s, q),
    ensures
        ({
            let after = timeouts_checked(st).s;
            let held = (st.s.send.seq_nr - 1 - q) % 0x10000 == 0 && st.s.send.cur_window_packets > 1
                && st.s.packet_at(q) is Some && st.s.packet_at(q)->0.payload < full_payload(st.s);
            &&& waits(after, q) ==> held || no_room(after, full_payload(after))
            &&& after.state == ConnState::ConnectedFull ==> no_room(after, full_payload(after))
            &&& st.s.state == ConnState::ConnectedFull && after.state == ConnState::Connected
                ==> after.user.notified
        }),
{
    reveal(timeouts_checked);
    reveal(carried_on);
    lemma_flush_sends_what_waits(st, q);
    lemma_flushed_from(st, st.s.packet_size(), st.s.oldest_seq());
    let f = flushed(st).1;
    lemma_oldest_stays(st.s, f.s);
    lemma_timers_wait(f);
    lemma_closed_window_is_tried(f);
    let due = due_handled(f);
    let w = St { s: due.s.writable_again(due.io.current_ms), ..due };
    let before = RecvSide { ack_nr: w.s.recv.ack_nr.wrapping_sub(1), ..w.s.recv };
    lemma_ack_sent(St { s: SockView { recv: before, ..w.s }, ..w });
}

/// Flushing leaves the timers alone.
proof fn lemma_flush_timers(st: St)
    requires
        st.s.wf(),
    ensures
        ({
            let f = flushed(st).1;
            &&& f.s.wf()
            &&& f.s.state == st.s.state
            &&& f.s.user == st.s.user
            &&& f.s.peer == st.s.peer
            &&& f.s.send == (SendSide {
                cur_window: f.s.send.cur_window,
                last_sent_packet: f.s.send.last_sent_packet,
                ..st.s.send
            })
            &&& f.s.mtu.last == st.s.mtu.last
            &&& f.io.current_ms == st.io.current_ms
            &&& f.io.now == st.io.now
            &&& st.io.outgoing.len() <= f.io.outgoing.len()
            &&& f.io.outgoing.take(st.io.outgoing.len() as int) == st.io.outgoing
            &&& same_contents(st.s.outbuf, f.s.outbuf)
        }),
{
    lemma_flushed_from(st, st.s.packet_size(), st.s.oldest_seq());
    lemma_oldest_stays(st.s, flushed(st).1.s);
    reveal(only_sent_to);
}

/// Whenever the timers are looked at and an ack is overdue once too often, the
/// connection is given up.
pub proof fn lemma_tick_gives_up(st: St)
    requires
        st.s.wf(),
        st.s.state == ConnState::Connected || st.s.state == ConnState::ConnectedFull || st.s.state
            == ConnState::SynSent || st.s.state == ConnState::SynRecv,
        ack_overdue(st),
        !tries_left(st.s),
    ensures
        ({
            let after = timeouts_checked(st).s;
            &&& after.user.notified
            &&& after.user.error == (match st.s.user.error {
                Some(k) => Some(k),
                None => Some(ErrorKind::TimedOut),
            })
            &&& after.state == (if st.s.state == ConnState::SynRecv || st.s.send.close_requested {
                ConnState::Destroy
            } else {
                ConnState::Reset
            })
        }),
{
    reveal(timeouts_checked);
    reveal(carried_on);
    lemma_flush_timers(st);
    lemma_overdue_ack_gives_up(flushed(st).1);
}

/// Whenever the timers are looked at and an ack is overdue, the oldest packet
/// goes out again.
pub proof fn lemma_tick_resends_oldest(st: St)
    requires
        st.s.wf(),
        st.s.state == ConnState::Connected || st.s.state == ConnState::ConnectedFull || st.s.state
            == ConnState::SynSent,
        ack_overdue(st),
        tries_left(st.s),
        st.s.send.cur_window_packets > 1,
    ensures
        ({
            let oldest = ((st.s.send.seq_nr - st.s.send.cur_window_packets) % 0x10000) as u16;
            let after = timeouts_checked(st);
            &&& st.s.packet_at(oldest) is Some
            &&& goes_out(st, after, oldest, st.s.packet_at(oldest)->0.data.skip(20))
            &&& after.s.send.retransmit_count == st.s.send.retransmit_count + 1
            &&& st.s.send.retransmit_timeout < 0x8000_0000 ==> after.s.send.retransmit_timeout == 2
                * st.s.send.retransmit_timeout
        }),
{
    reveal(timeouts_checked);
    reveal(carried_on);
    lemma_flush_timers(st);
    let f = flushed(st).1;
    let oldest = st.s.oldest_seq();
    assert(oldest == (st.s.send.seq_nr - st.s.send.cur_window_packets) % 0x10000);
    lemma_overdue_ack_resends_oldest(f);
    lemma_due_handled(f);
    lemma_queue_at(
        st.s.outbuf,
        st.s.send.seq_nr,
        st.s.send.cur_window_packets,
        st.s.send.cur_window,
        oldest as int,
    );
    lemma_same_contents_at(st.s.outbuf, f.s.outbuf, oldest as int);
    let due = due_handled(f);
    let w = St { s: due.s.writable_again(due.io.current_ms), ..due };
    let before = RecvSide { ack_nr: w.s.recv.ack_nr.wrapping_sub(1), ..w.s.recv };
    let k = St { s: SockView { recv: before, ..w.s }, ..w };
    lemma_ack_sent(k);
    lemma_ack_tells_all(k);
    let after = timeouts_checked(st);
    let n = f.io.outgoing.len() as int;
    let body = st.s.packet_at(oldest)->0.data.skip(20);
    assert(due.io.outgoing[n] == due.io.outgoing.last());
    assert(after.io.outgoing[n] == due.io.outgoing[n]) by {
        if after.io.outgoing.len() > due.io.outgoing.len() {
            assert(after.io.outgoing.drop_last()[n] == due.io.outgoing[n]);
        }
    }
    assert(sent_at(st, after, n, oldest as int, body));
}

/// A connection that has sent its FIN does not show itself any more.
pub proof fn lemma_closing_connection_keeps_quiet(st: St)
    requires
        st.s.wf(),
        st.s.send.fin_sent,
        st.s.send.cur_window_packets == 0,
        st.s.send.rto_timeout == 0 || is_ahead(st.io.current_ms, st.s.send.rto_timeout),
    ensures
        timeouts_checked(st).io.outgoing == st.io.outgoing,
{
    reveal(timeouts_checked);
    reveal(flushed_from);
    reveal(carried_on);
    assert(flushed(st).1 == st);
    lemma_timers_wait(st);
}

} // verus!

//! What a socket does for its users: connections and datagrams are handed out
//! in the order in which they came, what comes in is acked, and calls are
//! answered with what there is to say.

use crate::addr::SocketAddr;
use crate::clock::Now;
use crate::conn_shared::{ConnView, ErrorKind};
use crate::endpoint::{Arrival, EndpointView, Error, Handle, Step};
use crate::engine::context::{all_wf, lemma_index, lemma_put, ContextView};
use crate::engine::model::St;
use crate::engine::opening::lemma_closing_queues_fin;
use crate::engine::receive::is_utp;
use crate::engine::serving::lemma_syn_makes_a_connection;
use crate::engine::state::{ConnState, IoView, Key, RecvSide, SendSide, SockView};
use crate::engine::sweep::{
    is_ack_of, lemma_acks_issued, lemma_acks_leave_users, lemma_owed_acks_go_out, lemma_timed,
    rst_kept,
};
use crate::engine::timers::{lemma_timeouts_checked, timeouts_checked};
use crate::engine::transmit::only_sent_to;
use crate::engine::users::{lemma_conn_at, lemma_with_conn, lemma_with_conn_socket};
use crate::engine::write::{closing, drained, lemma_ack_sent, lemma_drained, lemma_packet_written};
use crate::packet::{be16, ST_FIN};
use vstd::prelude::*;

verus! {

/// A new connection waits to be accepted behind those that came before it. If
/// five wait already, it does not.
pub proof fn lemma_connections_queue_up(
    e: EndpointView,
    now: Now,
    buf: Seq<u8>,
    addr: SocketAddr,
)
    requires
        is_utp(buf, addr),
        buf[0] / 16 == 4,
        !e.ctx.has_key(Key { addr, recv_id: (be16(buf, 2) + 1) as u32 }),
        e.ctx.sockets.len() <= 3000,
    ensures
        ({
            let (r, after) = e.processed(now, buf, addr, false);
            let h = Handle {
                key: Key { addr, recv_id: (be16(buf, 2) + 1) as u32 },
                id: e.ctx.next_id,
            };
            &&& e.backlog.len() < 5 ==> r == Arrival::Connection && after.backlog
                == e.backlog.push(h)
            &&& e.backlog.len() >= 5 ==> r == Arrival::Nothing && after.backlog == e.backlog
            &&& after.non_utp == e.non_utp
        }),
{
    reveal(EndpointView::processed);
    lemma_syn_makes_a_connection(e.ctx, now, buf, addr);
}

/// The connection that has waited longest is accepted first, and only once.
pub proof fn lemma_accepted_in_order(e: EndpointView, h: Handle)
    requires
        e.backlog.len() < 5,
    ensures
        ({
            let more = EndpointView { backlog: e.backlog.push(h), ..e };
            let (r, after) = more.accepted();
            &&& e.backlog.len() == 0 ==> r == Step::Done(h) && after == e
            &&& e.backlog.len() > 0 ==> r == e.accepted().0 && after.backlog
                == e.accepted().1.backlog.push(h)
        }),
{
    let more = e.backlog.push(h);
    if e.backlog.len() == 0 {
        assert(more.skip(1) =~= e.backlog);
    } else {
        assert(more.skip(1) =~= e.backlog.skip(1).push(h));
    }
}

/// A datagram that is not uTP is kept for whoever asks for it, unless a hundred
/// wait already, and is handed out as it came, cut to the room that there is.
pub proof fn lemma_foreign_datagram_is_handed_out(
    e: EndpointView,
    now: Now,
    buf: Seq<u8>,
    addr: SocketAddr,
    blocked: bool,
    room: Seq<u8>,
)
    requires
        !is_utp(buf, addr),
        e.non_utp.len() == 0,
        buf.len() <= usize::MAX,
    ensures
        ({
            let (r, after) = e.processed(now, buf, addr, blocked);
            let (step, filled, left) = after.foreign_taken(room);
            let n = if buf.len() < room.len() {
                buf.len() as int
            } else {
                room.len() as int
            };
            &&& r == Arrival::NonUtp
            &&& after.ctx == e.ctx
            &&& after.backlog == e.backlog
            &&& step == Step::Done((n as usize, addr))
            &&& filled.len() == room.len()
            &&& filled.take(n) == buf.take(n)
            &&& filled.skip(n) == room.skip(n)
            &&& left == e
        }),
{
    reveal(EndpointView::processed);
    let after = e.processed(now, buf, addr, blocked).1;
    let (step, filled, left) = after.foreign_taken(room);
    let n = if buf.len() < room.len() {
        buf.len() as int
    } else {
        room.len() as int
    };
    assert(left.non_utp =~= e.non_utp);
    assert(filled.take(n) =~= buf.take(n));
    assert(filled.skip(n) =~= room.skip(n));
}

/// More than a hundred datagrams that are not uTP are not kept.
pub proof fn lemma_foreign_datagrams_are_bounded(
    e: EndpointView,
    now: Now,
    buf: Seq<u8>,
    addr: SocketAddr,
    blocked: bool,
)
    requires
        !is_utp(buf, addr),
        e.non_utp.len() >= 100,
    ensures
        e.processed(now, buf, addr, blocked) == (Arrival::Nothing, e),
{
    reveal(EndpointView::processed);
}

/// The hundredth read error in a row closes the socket. Any datagram starts the
/// count over.
pub proof fn lemma_read_errors_add_up(
    e: EndpointView,
    now: Now,
    buf: Seq<u8>,
    addr: SocketAddr,
    blocked: bool,
)
    requires
        e.wf(),
        !e.closed,
    ensures
        e.on_read_error(now).closed <==> e.read_errors == 99,
        e.read_errors < 99 ==> e.on_read_error(now).read_errors == e.read_errors + 1,
        e.on_datagram(now, buf, addr, blocked).read_errors == 0,
        e.on_idle(now).read_errors == e.read_errors,
{
    reveal(EndpointView::processed);
}

/// Looking at the timers takes nothing back that was to be sent.
proof fn lemma_timed_sends_on(c: ContextView, i: int)
    requires
        c.wf(),
        0 <= i,
    ensures
        ({
            let after = c.timed_from(i).io.outgoing;
            &&& c.io.outgoing.len() <= after.len()
            &&& after.take(c.io.outgoing.len() as int) == c.io.outgoing
        }),
    decreases c.sockets.len() - i,
{
    reveal(ContextView::timed_from);
    let n = c.io.outgoing.len() as int;
    assert(c.io.outgoing.take(n) =~= c.io.outgoing);
    if i < c.sockets.len() {
        lemma_timed(c, i);
        reveal(all_wf);
        lemma_timeouts_checked(c.st_at(i));
        reveal(only_sent_to);
        let d = c.timed(i);
        let m = d.io.outgoing.len() as int;
        if d.sockets.len() == c.sockets.len() {
            lemma_timed_sends_on(d, i + 1);
            let after = c.timed_from(i).io.outgoing;
            assert(after.take(n) =~= after.take(m).take(n));
        } else {
            lemma_timed_sends_on(d, i);
            let after = c.timed_from(i).io.outgoing;
            assert(after.take(n) =~= after.take(m).take(n));
        }
    }
}

/// What comes in is acked at once: when a datagram has been processed, every
/// ack that is owed goes out.
pub proof fn lemma_datagrams_are_acked(
    e: EndpointView,
    now: Now,
    buf: Seq<u8>,
    addr: SocketAddr,
    blocked: bool,
)
    requires
        !e.closed,
        e.processed(now, buf, addr, blocked).1.ctx.wf(),
    ensures
        ({
            let mid = e.processed(now, buf, addr, blocked).1.ctx;
            let after = e.on_datagram(now, buf, addr, blocked).ctx.io.outgoing;
            let n = mid.io.outgoing.len();
            &&& after.len() >= n + mid.io.ack_list.len()
            &&& after.take(n as int) == mid.io.outgoing
            &&& forall|j: int|
                0 <= j < mid.io.ack_list.len() ==> is_ack_of(
                    mid,
                    #[trigger] mid.io.ack_list[j],
                    after[n + j],
                )
        }),
{
    let mid = e.processed(now, buf, addr, blocked).1.ctx;
    lemma_owed_acks_go_out(mid, now);
    lemma_acks_issued(mid, now);
    let acked = mid.acks_issued(now);
    let after = e.on_datagram(now, buf, addr, blocked).ctx.io.outgoing;
    lemma_timeouts_send_on(acked, now);
    let n = mid.io.outgoing.len() as int;
    let m = acked.io.outgoing.len() as int;
    assert(after.take(n) =~= after.take(m).take(n));
    assert forall|j: int| 0 <= j < mid.io.ack_list.len() implies is_ack_of(
        mid,
        #[trigger] mid.io.ack_list[j],
        after[n + j],
    ) by {
        assert(after.take(m)[n + j] == after[n + j]);
    }
}

proof fn lemma_timeouts_send_on(c: ContextView, now: Now)
    requires
        c.wf(),
    ensures
        ({
            let after = c.timeouts_checked(now).io.outgoing;
            &&& c.io.outgoing.len() <= after.len()
            &&& after.take(c.io.outgoing.len() as int) == c.io.outgoing
        }),
{
    assert(c.io.outgoing.take(c.io.outgoing.len() as int) =~= c.io.outgoing);
    let d = ContextView {
        io: IoView { now, current_ms: now.ms, ..c.io },
        last_check: now.ms,
        rst_info: rst_kept(c.rst_info, now.ms),
        ..c
    };
    lemma_timed_sends_on(d, 0);
}

/// A call that waits for a connection is told of a failure before anything
/// else, then of success; it gives up only when there is neither, and waits
/// only while there can still be either.
pub proof fn lemma_connect_is_answered(e: EndpointView, h: Handle, late: bool)
    ensures
        ({
            let u = e.user(h);
            let r = e.connect_answer(h, late);
            &&& r == Step::<()>::Done(()) <==> u.error is None && u.got_connect
            &&& (exists|k: ErrorKind| r == Step::<()>::Failed(Error::ConnectFailed(k)))
                <==> u.error is Some
            &&& u.error is Some ==> r == Step::<()>::Failed(Error::ConnectFailed(u.error->0))
            &&& r is Wait ==> !late && !e.closed && !u.closed && !u.destroyed
            &&& late ==> !(r is Wait)
        }),
{
}

/// A call that reads hears of a failure only when there is nothing to read and
/// the stream has not ended, and waits only while there can be something.
pub proof fn lemma_read_is_answered(e: EndpointView, h: Handle, room: nat, late: bool)
    requires
        0 < room <= usize::MAX,
    ensures
        ({
            let u = e.user(h);
            let r = e.recv_answer(h, room, late);
            &&& r is Failed ==> u.read_buf.len() == 0 && !u.got_eof
            &&& u.read_buf.len() > 0 ==> r == Step::Done(
                (if u.read_buf.len() < room {
                    u.read_buf.len() as int
                } else {
                    room as int
                }) as usize,
            )
            &&& r is Done && r->Done_0 == 0 ==> u.got_eof && u.read_buf.len() == 0
            &&& u.read_buf.len() == 0 && !u.got_eof && u.error is Some ==> r
                == Step::<usize>::Failed(Error::ReadFailed(u.error->0))
            &&& r is Wait <==> u.read_buf.len() == 0 && !u.got_eof && u.error is None
                && !u.destroyed && !u.closed && !late
        }),
{
}

/// A call that writes is refused on a connection that has failed, that is
/// closed or that is gone, and then nothing is written. Otherwise what is
/// accepted is more than nothing, and only when nothing is does the call wait.
pub proof fn lemma_write_is_answered(
    e: EndpointView,
    now: Now,
    h: Handle,
    buf: Seq<u8>,
    late: bool,
)
    requires
        buf.len() > 0,
    ensures
        ({
            let u = e.user(h);
            let (r, after) = e.sent(now, h, buf, late);
            let (n, ctx) = e.ctx.written_to(now, h.key, buf);
            let fine = u.error is None && !u.closed && !u.destroyed;
            &&& u.error is Some ==> r == Step::<usize>::Failed(Error::WriteFailed(u.error->0))
            &&& !fine ==> r is Failed && after == e
            &&& fine ==> after.ctx == ctx
            &&& r is Wait <==> fine && !late && !(n is Some && n->0 > 0)
            &&& r is Done <==> fine && n is Some && n->0 > 0
        }),
{
    reveal(EndpointView::sent);
}

/// What the user of a connection reads is gone from it, and what is left is what
/// comes next.
pub proof fn lemma_read_leaves_the_rest(
    e: EndpointView,
    now: Now,
    h: Handle,
    room: nat,
    i: int,
)
    requires
        e.ctx.wf(),
        0 <= i < e.ctx.sockets.len(),
        e.ctx.sockets[i].user.id == h.id,
        e.ctx.sockets[i].peer.key == h.key,
    ensures
        ({
            let before = e.ctx.sockets[i].user.read_buf;
            let n = if before.len() < room {
                before.len() as int
            } else {
                room as int
            };
            let after = e.recv_stepped(now, h, room).ctx;
            &&& after.sockets.len() == e.ctx.sockets.len()
            &&& after.sockets[i].user.read_buf == before.skip(n)
            &&& after.sockets[i].user.got_eof == e.ctx.sockets[i].user.got_eof
        }),
{
    reveal(EndpointView::recv_stepped);
    let c = e.ctx;
    let u = c.sockets[i].user;
    lemma_conn_at(c, i);
    let n = if u.read_buf.len() < room {
        u.read_buf.len() as int
    } else {
        room as int
    };
    assert(u.read_buf.skip(0) =~= u.read_buf);
    if n > 0 {
        let v = u.without_read(n);
        lemma_with_conn(c, h.id, v);
        lemma_with_conn_socket(c, i, v);
        let d = c.with_conn(h.id, v);
        let t = d.at_time(now);
        lemma_index(t, i);
        reveal(all_wf);
        lemma_drained(t.st_at(i));
        lemma_ack_sent(t.st_at(i));
        lemma_put(t, i, drained(t.st_at(i)));
        lemma_acks_leave_users(d.drained_of(now, h.key), now);
    }
}

/// Closing a connection that is up has its socket send a FIN, and its user
/// refused from then on.
pub proof fn lemma_closing_reaches_the_socket(e: EndpointView, now: Now, h: Handle, i: int)
    requires
        e.ctx.wf(),
        0 <= i < e.ctx.sockets.len(),
        e.ctx.sockets[i].user.id == h.id,
        e.ctx.sockets[i].peer.key == h.key,
        !e.ctx.sockets[i].user.destroyed,
        !e.ctx.sockets[i].user.closed,
        e.ctx.sockets[i].state == ConnState::Connected || e.ctx.sockets[i].state
            == ConnState::ConnectedFull,
    ensures
        ({
            let after = e.conn_closed(now, h).ctx.sockets;
            &&& after.len() == e.ctx.sockets.len()
            &&& after[i].user.closed
            &&& after[i].send.fin_sent
            &&& after[i].send.close_requested
            &&& forall|j: int| 0 <= j < after.len() && j != i ==> (#[trigger] after[j])
                == e.ctx.sockets[j]
        }),
{
    reveal(EndpointView::conn_closed);
    let c = e.ctx;
    let u = c.sockets[i].user;
    lemma_conn_at(c, i);
    let v = ConnView { closed: true, notified: true, ..u };
    lemma_with_conn(c, h.id, v);
    lemma_with_conn_socket(c, i, v);
    let d = c.with_conn(h.id, v);
    let t = d.at_time(now);
    lemma_index(t, i);
    reveal(all_wf);
    assert(t.sockets[i].wf());
    lemma_closing_queues_fin(t.st_at(i));
    lemma_user_stays(t.st_at(i));
}

/// The engine's side of closing leaves alone what the user sees.
proof fn lemma_user_stays(st: St)
    requires
        st.s.wf(),
    ensures
        closing(st).s.user == st.s.user,
{
    let s = st.s;
    let closed = SockView {
        recv: RecvSide { read_shutdown: true, ..s.recv },
        send: SendSide { close_requested: true, fin_sent: true, ..s.send },
        ..s
    };
    if !s.send.fin_sent {
        lemma_packet_written(St { s: closed, ..st }, ST_FIN, Seq::empty());
    }
}

/// A connection that its user lets go of is closed first, if it is not yet.
pub proof fn lemma_dropping_closes(e: EndpointView, now: Now, h: Handle, i: int)
    requires
        e.ctx.wf(),
        0 <= i < e.ctx.sockets.len(),
        e.ctx.sockets[i].user.id == h.id,
        e.ctx.sockets[i].peer.key == h.key,
        !e.ctx.sockets[i].user.destroyed,
        !e.ctx.sockets[i].user.closed,
    ensures
        e.conn_dropped(now, h).ctx == e.conn_closed(now, h).ctx.released(h.id),
{
    lemma_conn_at(e.ctx, i);
}

/// A connection that there is no room for is given up at once, and nothing is
/// kept of it for its user.
pub proof fn lemma_turned_away_is_closed(e: EndpointView, now: Now, i: int)
    requires
        e.ctx.wf(),
        0 <= i < e.ctx.sockets.len(),
        e.ctx.sockets[i].state == ConnState::SynRecv,
    ensures
        ({
            let s = e.ctx.sockets[i];
            let after = e.turned_away(now, s.peer.key, s.user.id);
            &&& after.ctx.sockets.len() == e.ctx.sockets.len()
            &&& after.ctx.sockets[i].state == ConnState::Destroy
            &&& after.ctx.sockets[i].user.released
            &&& after.ctx.sockets[i].user.closed
            &&& after.backlog == e.backlog
        }),
{
    let c = e.ctx;
    let s = c.sockets[i];
    lemma_conn_at(c, i);
    let v = ConnView { closed: true, released: true, ..s.user };
    lemma_with_conn(c, s.user.id, v);
    lemma_with_conn_socket(c, i, v);
    let t = c.with_conn(s.user.id, v).at_time(now);
    lemma_index(t, i);
}

} // verus!

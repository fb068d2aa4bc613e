//! What holds of the engine across its calls.

use crate::addr::SocketAddr;
use crate::clock::Now;
use crate::conn_shared::ErrorKind;
use crate::engine::context::{all_wf, ContextView, RstInfo};
use crate::engine::deliver::{
    fin_reached, lemma_fin_reached, received_early, received_in_order, reordered,
};
use crate::engine::extensions::{exts_from, exts_of, lemma_exts_from};
use crate::engine::incoming::{arrived, handled, lemma_arrived, lemma_heard_from, taken_in};
use crate::engine::link::{happened, lemma_event_receives_nothing, Event};
use crate::engine::measure::{fields_of, lemma_measured};
use crate::engine::model::{byte_of, mask_bit, St};
use crate::engine::mtu::lemma_search_keeps_order;
use crate::engine::progress::{lemma_progressed, progressed};
use crate::engine::receive::{is_utp, rst_place, ProcessUdp, RST_INFO_LIMIT};
use crate::engine::state::{ConnState, IoView, SockView, REORDER_BUFFER_MAX_SIZE};
use crate::engine::sweep::{lemma_timed, rst_kept, TIMEOUT_CHECK_INTERVAL};
use crate::engine::timers::{
    due_handled, lemma_backed_off, lemma_timeouts_checked, retried, rto_handled, timeouts_checked,
};
use crate::engine::transmit::{lemma_io_frame_refl, lemma_packet_sent};
use crate::engine::write::{
    lemma_ack_sent, lemma_closing, lemma_drained, lemma_written, timed_io_frame,
};
use crate::packet::{lemma_be32_round_trip, HEADER_SIZE, ST_STATE};
use vstd::prelude::*;

verus! {

/// Bit `i` of the byte made from `f` is set exactly where `f` holds.
proof fn lemma_byte_of(f: spec_fn(int) -> bool, i: int)
    requires
        0 <= i < 8,
    ensures
        ((byte_of(f) >> (i as u8)) & 1 == 1) == f(i),
{
    let a: u8 = if f(0) { 1 } else { 0 };
    let b: u8 = if f(1) { 1 } else { 0 };
    let c: u8 = if f(2) { 1 } else { 0 };
    let d: u8 = if f(3) { 1 } else { 0 };
    let e: u8 = if f(4) { 1 } else { 0 };
    let g: u8 = if f(5) { 1 } else { 0 };
    let h: u8 = if f(6) { 1 } else { 0 };
    let j: u8 = if f(7) { 1 } else { 0 };
    let x: u8 = byte_of(f);
    assert(x == a + 2 * b + 4 * c + 8 * d + 16 * e + 32 * g + 64 * h + 128 * j);
    assert((x >> 0u8) & 1 == a && (x >> 1u8) & 1 == b && (x >> 2u8) & 1 == c && (x >> 3u8) & 1 == d
        && (x >> 4u8) & 1 == e && (x >> 5u8) & 1 == g && (x >> 6u8) & 1 == h && (x >> 7u8) & 1 == j)
        by (bit_vector)
        requires
            x == a + 2 * b + 4 * c + 8 * d + 16 * e + 32 * g + 64 * h + 128 * j,
            a <= 1,
            b <= 1,
            c <= 1,
            d <= 1,
            e <= 1,
            g <= 1,
            h <= 1,
            j <= 1,
    ;
}

/// The mask in an ack says which segments have been received.
proof fn lemma_mask_of(s: SockView, mask: Seq<u8>)
    requires
        mask == seq![
            byte_of(|i: int| s.has_segment(i + 0)),
            byte_of(|i: int| s.has_segment(i + 8)),
            byte_of(|i: int| s.has_segment(i + 16)),
            byte_of(|i: int| s.has_segment(i + 24)),
        ],
    ensures
        forall|i: int| #[trigger] mask_bit(mask, i) == s.has_segment(i),
{
    assert forall|i: int| #[trigger] mask_bit(mask, i) == s.has_segment(i) by {
        if 0 <= i < 32 {
            let k = i / 8;
            let r = i % 8;
            if k == 0 {
                lemma_byte_of(|i: int| s.has_segment(i + 0), r);
            } else if k == 1 {
                lemma_byte_of(|i: int| s.has_segment(i + 8), r);
            } else if k == 2 {
                lemma_byte_of(|i: int| s.has_segment(i + 16), r);
            } else {
                lemma_byte_of(|i: int| s.has_segment(i + 24), r);
            }
        }
    }
}

/// An ack tells the peer what it is meant to: read back as a packet, it acks
/// what was received in order, and bit for bit what was received beyond that.
pub proof fn lemma_ack_reads_back(s: SockView, bits: Seq<u8>)
    ensures
        ({
            let b = s.ack_bytes();
            let f = fields_of(b);
            let e = exts_of(b, bits);
            &&& b.len() >= HEADER_SIZE
            &&& f.packet_type == ST_STATE
            &&& f.ack_nr == s.recv.ack_nr
            &&& f.seq_nr == s.send.seq_nr
            &&& f.window_size == s.send.last_rcv_win as u32
            &&& e.end == Some(b.len() as int)
            &&& e.bits == bits
            &&& e.selack is Some <==> s.sends_eack()
            &&& e.selack matches Some(mask) ==> forall|i: int| #[trigger]
                mask_bit(mask, i) == s.has_segment(i)
        }),
{
    reveal(SockView::ack_bytes);
    let b = s.ack_bytes();
    lemma_be32_round_trip(b, 12, s.send.last_rcv_win as u32);
    if s.sends_eack() {
        let mask = b.subrange(22, 26);
        assert(mask =~= seq![
            byte_of(|i: int| s.has_segment(i + 0)),
            byte_of(|i: int| s.has_segment(i + 8)),
            byte_of(|i: int| s.has_segment(i + 16)),
            byte_of(|i: int| s.has_segment(i + 24)),
        ]);
        lemma_mask_of(s, mask);
        assert(b.len() == 26 && b[1] == 1 && b[20] == 0 && b[21] == 4);
        assert(exts_from(b, 26, 0, Some(mask), bits).end == Some(26int));
        reveal_with_fuel(exts_from, 2);
        assert(b.subrange(22, 26) == mask);
    }
}

/// Only the first packet of a stream that we do not know is answered with a
/// RST. While it is remembered, others at the same number are not.
pub proof fn lemma_one_rst(c: ContextView, now: Now, addr: SocketAddr, id: u32, seq_nr: u16)
    ensures
        ({
            let once = c.rejected(addr, id, seq_nr);
            let again = once.at_time(now).rejected(addr, id, seq_nr);
            &&& once.io.outgoing.len() <= c.io.outgoing.len() + 1
            &&& again.io.outgoing == once.io.outgoing
            &&& again.sockets == c.sockets
        }),
{
    reveal(ContextView::rejected);
    lemma_rst_found(c, addr, id, seq_nr);
}

proof fn lemma_rst_found(c: ContextView, addr: SocketAddr, id: u32, seq_nr: u16)
    ensures
        c.rst_info.len() <= RST_INFO_LIMIT ==> ({
            let list = c.rejected(addr, id, seq_nr).rst_info;
            rst_place(list, addr, id, seq_nr, 0) < list.len()
        }),
        rst_place(c.rst_info, addr, id, seq_nr, 0) < c.rst_info.len() ==> ({
            let list = c.rejected(addr, id, seq_nr).rst_info;
            rst_place(list, addr, id, seq_nr, 0) < list.len()
        }),
{
    reveal(ContextView::rejected);
    let list = c.rejected(addr, id, seq_nr).rst_info;
    let i = rst_place(c.rst_info, addr, id, seq_nr, 0);
    lemma_rst_place(c.rst_info, addr, id, seq_nr, 0);
    if i < c.rst_info.len() {
        lemma_rst_at(list, addr, id, seq_nr, 0, i);
    } else if c.rst_info.len() <= RST_INFO_LIMIT {
        lemma_rst_at(list, addr, id, seq_nr, 0, c.rst_info.len() as int);
    }
}

/// The search finds what it is after.
proof fn lemma_rst_place(
    list: Seq<RstInfo>,
    addr: SocketAddr,
    id: u32,
    seq_nr: u16,
    i: int,
)
    requires
        0 <= i <= list.len(),
    ensures
        i <= rst_place(list, addr, id, seq_nr, i) <= list.len(),
        rst_place(list, addr, id, seq_nr, i) < list.len() ==> list[rst_place(
            list,
            addr,
            id,
            seq_nr,
            i,
        )].is_for(addr, id, seq_nr),
    decreases list.len() - i,
{
    if i < list.len() && !list[i].is_for(addr, id, seq_nr) {
        lemma_rst_place(list, addr, id, seq_nr, i + 1);
    }
}

/// What is there is found, at its place or before.
proof fn lemma_rst_at(
    list: Seq<RstInfo>,
    addr: SocketAddr,
    id: u32,
    seq_nr: u16,
    i: int,
    k: int,
)
    requires
        0 <= i <= k < list.len(),
        list[k].is_for(addr, id, seq_nr),
    ensures
        rst_place(list, addr, id, seq_nr, i) <= k,
    decreases k - i,
{
    if !list[i].is_for(addr, id, seq_nr) {
        lemma_rst_at(list, addr, id, seq_nr, i + 1, k);
    }
}

/// The search tells whether a stream is noted as rejected.
pub proof fn lemma_rst_missing(list: Seq<RstInfo>, addr: SocketAddr, id: u32, seq_nr: u16)
    ensures
        rst_place(list, addr, id, seq_nr, 0) < list.len() <==> exists|i: int|
            0 <= i < list.len() && (#[trigger] list[i]).addr == addr && list[i].connid == id
                && list[i].ack_nr == seq_nr,
{
    lemma_rst_place(list, addr, id, seq_nr, 0);
    let p = rst_place(list, addr, id, seq_nr, 0);
    if p < list.len() {
        assert(list[p].is_for(addr, id, seq_nr));
    }
    if exists|i: int|
        0 <= i < list.len() && (#[trigger] list[i]).addr == addr && list[i].connid == id
            && list[i].ack_nr == seq_nr {
        let i = choose|i: int|
            0 <= i < list.len() && (#[trigger] list[i]).addr == addr && list[i].connid == id
                && list[i].ack_nr == seq_nr;
        lemma_rst_at(list, addr, id, seq_nr, 0, i);
    }
}

/// A connection request that is to be ignored is: no reply goes out, and
/// nothing is remembered of it.
pub proof fn lemma_blocked_is_ignored(c: ContextView, now: Now, buf: Seq<u8>, addr: SocketAddr)
    requires
        c.is_incoming(buf, addr),
    ensures
        c.received(now, buf, addr, true) == (ProcessUdp::Handled, c.at_time(now)),
{
    let d = c.at_time(now);
    assert(c.accept_key(buf, addr) == d.accept_key(buf, addr));
}

/// A datagram that is not uTP is left to others: it changes nothing.
pub proof fn lemma_foreign_is_left(
    c: ContextView,
    now: Now,
    buf: Seq<u8>,
    addr: SocketAddr,
    blocked: bool,
)
    requires
        !is_utp(buf, addr),
    ensures
        c.received(now, buf, addr, blocked) == (ProcessUdp::NotUtp, c),
{
}

/// The timers are looked at no more often than every half second: in between,
/// nothing changes but what time it is.
pub proof fn lemma_timers_rest(c: ContextView, now: Now)
    requires
        now.ms.wrapping_sub(c.last_check) < TIMEOUT_CHECK_INTERVAL,
    ensures
        c.timeouts_checked(now) == (ContextView {
            io: IoView { now, current_ms: now.ms, ..c.io },
            ..c
        }),
{
}

/// A connection that is dialled and not answered is given up: each time its
/// timer runs out it is tried once more, but not more than twice.
pub proof fn lemma_dialling_gives_up(st: St)
    requires
        st.s.wf(),
        st.s.state == ConnState::SynSent,
        st.s.rto_expired(st.io.current_ms),
    ensures
        ({
            let after = due_handled(st).s;
            &&& st.s.send.retransmit_count < 2 && st.s.send.cur_window_packets > 0
                ==> after.state == ConnState::SynSent && after.send.retransmit_count
                == st.s.send.retransmit_count + 1 && after.user == st.s.user
            &&& st.s.send.retransmit_count >= 2 ==> after.user.error is Some && (after.state
                == ConnState::Reset || after.state == ConnState::Destroy)
            &&& st.s.send.retransmit_count >= 2 && st.s.user.error is None ==> after.user.error
                == Some(ErrorKind::TimedOut)
        }),
{
    reveal(due_handled);
    reveal(rto_handled);
    reveal(retried);
    let w = st.s.window_probed(st.io.current_ms);
    let g = w.probe_given_up(st.io.now.ms);
    if !g.out_of_retries() {
        if w.only_probe_out() {
            lemma_search_keeps_order(w.mtu, st.io.now.ms);
        }
        lemma_backed_off(g, st.io.current_ms, w.only_probe_out());
        let b = g.backed_off(st.io.current_ms, w.only_probe_out());
        if b.send.cur_window_packets > 0 {
            lemma_packet_sent(
                St { s: b.retrying(), ..st },
                b.oldest_seq(),
            );
        }
    }
}

/// Whatever happens to a socket, the datagrams that it sends go to its peer,
/// and no other socket's acks are touched.
pub proof fn lemma_event_keeps_to_its_peer(st: St, e: Event)
    requires
        st.s.wf(),
        e.possible(st.s),
    ensures
        timed_io_frame(st, happened(st, e)),
{
    lemma_io_frame_refl(st);
    match e {
        Event::Write(data) => lemma_written(st, data),
        Event::Read(n) => {},
        Event::Drained => lemma_drained(st),
        Event::Close => lemma_closing(st),
        Event::Tick => lemma_timeouts_checked(st),
        Event::Ack => lemma_ack_sent(st),
        Event::Arrive(buf) => lemma_arrived(st, buf, false),
        Event::Reset => {},
    }
}

proof fn lemma_reordered_eof(st: St)
    ensures
        st.s.user.got_eof ==> reordered(st).s.user.got_eof,
    decreases st.s.recv.reorder_count,
{
    reveal(reordered);
    let f = fin_reached(st);
    lemma_fin_reached(st);
    if f.s.recv.reorder_count == 0 || f.s.next_in_order() is None {
    } else {
        lemma_reordered_eof(St { s: f.s.taken_up(), ..f });
    }
}

proof fn lemma_arrival_eof(st: St, buf: Seq<u8>)
    requires
        st.s.wf(),
        buf.len() >= HEADER_SIZE,
    ensures
        st.s.user.got_eof ==> arrived(st, buf, false).1.s.user.got_eof,
{
    reveal(arrived);
    reveal(handled);
    reveal(taken_in);
    let f = fields_of(buf);
    let e = exts_of(buf, st.s.extensions);
    let io = IoView { current_ms: st.io.now.ms, ..st.io };
    lemma_exts_from(buf, HEADER_SIZE as int, buf[1], None, st.s.extensions);
    let s = SockView { extensions: e.bits, ..st.s };
    let h = St { s: s.heard_from(f, io.current_ms), io };
    lemma_heard_from(s, f, io.current_ms);
    if e.end is Some && h.s.ahead(f.seq_nr) < REORDER_BUFFER_MAX_SIZE {
        let data = buf.skip(e.end->0);
        lemma_measured(h.s, f, e.selack, h.io.now, h.io.current_ms);
        let m = St { s: h.s.measured(f, e.selack, h.io.now, h.io.current_ms), ..h };
        lemma_progressed(m, f, e.selack);
        let p = progressed(m, f, e.selack);
        let noted = St { s: p.s.fin_noted(f), ..p };
        reveal(received_in_order);
        reveal(received_early);
        lemma_reordered_eof(St { s: noted.s.handed_up(data).advanced(), ..noted });
    }
}

/// The end of the stream stays the end, whatever happens.
pub proof fn lemma_eof_stays(st: St, e: Event)
    requires
        st.s.wf(),
        e.possible(st.s),
        st.s.user.got_eof,
    ensures
        happened(st, e).s.user.got_eof,
{
    match e {
        Event::Read(n) => {},
        Event::Arrive(buf) => lemma_arrival_eof(st, buf),
        _ => {
            lemma_event_receives_nothing(st, e);
        },
    }
}

impl ContextView {
    /// Whether there is a connection numbered `id` that its user has not let
    /// go of.
    pub open spec fn is_held(self, id: u64) -> bool {
        ||| exists|i: int|
            0 <= i < self.sockets.len() && (#[trigger] self.sockets[i]).user.id == id
                && !self.sockets[i].user.released
        ||| self.is_gone(id)
    }

    /// Whether the connection numbered `id` is held, and its user knows that
    /// its socket is gone.
    pub open spec fn is_known_gone(self, id: u64) -> bool {
        exists|i: int|
            0 <= i < self.gone.len() && (#[trigger] self.gone[i]).id == id
                && self.gone[i].destroyed
    }
}

proof fn lemma_put_held(c: ContextView, i: int, after: St, id: u64)
    requires
        0 <= i < c.sockets.len(),
        c.is_held(id),
        timed_io_frame(c.st_at(i), after),
    ensures
        c.put(i, after).is_held(id),
{
    let d = c.put(i, after);
    if c.is_gone(id) {
        let j = choose|j: int| 0 <= j < c.gone.len() && (#[trigger] c.gone[j]).id == id;
        assert(d.gone[j].id == id);
    } else {
        let j = choose|j: int|
            0 <= j < c.sockets.len() && (#[trigger] c.sockets[j]).user.id == id
                && !c.sockets[j].user.released;
        assert(d.sockets[j].user.id == id && !d.sockets[j].user.released);
    }
}

proof fn lemma_destroyed_held(c: ContextView, i: int, id: u64)
    requires
        0 <= i < c.sockets.len(),
        c.is_held(id),
    ensures
        c.destroyed(i).is_held(id),
        c.is_known_gone(id) ==> c.destroyed(i).is_known_gone(id),
        c.sockets[i].user.id == id && !c.sockets[i].user.released ==> c.destroyed(
            i,
        ).is_known_gone(id),
{
    let d = c.destroyed(i);
    if c.is_known_gone(id) {
        let j = choose|j: int|
            0 <= j < c.gone.len() && (#[trigger] c.gone[j]).id == id && c.gone[j].destroyed;
        assert(d.gone[j] == c.gone[j]);
    }
    if c.sockets[i].user.id == id && !c.sockets[i].user.released {
        let n = c.gone.len() as int;
        assert(d.gone[n].id == id && d.gone[n].destroyed);
    }
    if c.is_gone(id) {
        let j = choose|j: int| 0 <= j < c.gone.len() && (#[trigger] c.gone[j]).id == id;
        assert(d.gone[j].id == id);
    } else {
        let j = choose|j: int|
            0 <= j < c.sockets.len() && (#[trigger] c.sockets[j]).user.id == id
                && !c.sockets[j].user.released;
        if j < i {
            assert(d.sockets[j] == c.sockets[j]);
        } else if j > i {
            assert(d.sockets[j - 1] == c.sockets[j]);
        }
    }
}

proof fn lemma_timed_from_held(c: ContextView, i: int, id: u64)
    requires
        c.wf(),
        0 <= i <= c.sockets.len(),
        c.is_held(id),
    ensures
        c.timed_from(i).is_held(id),
    decreases c.sockets.len() - i,
{
    reveal(ContextView::timed_from);
    if i < c.sockets.len() {
        reveal(all_wf);
        lemma_timed(c, i);
        lemma_timeouts_checked(c.st_at(i));
        let after = timeouts_checked(c.st_at(i));
        lemma_put_held(c, i, after, id);
        let p = c.put(i, after);
        if p.sockets[i].state == ConnState::Destroy {
            lemma_destroyed_held(p, i, id);
        }
        let d = c.timed(i);
        if d.sockets.len() == c.sockets.len() {
            lemma_timed_from_held(d, i + 1, id);
        } else {
            lemma_timed_from_held(d, i, id);
        }
    }
}

/// A connection that its user holds is not forgotten as time passes, even if
/// its socket comes to an end.
pub proof fn lemma_held_stays(c: ContextView, now: Now, id: u64)
    requires
        c.wf(),
        c.is_held(id),
    ensures
        c.timeouts_checked(now).is_held(id),
{
    let io = IoView { now, current_ms: now.ms, ..c.io };
    let d = ContextView { io, ..c };
    assert(d.is_held(id));
    let e = ContextView {
        io,
        last_check: now.ms,
        rst_info: rst_kept(c.rst_info, now.ms),
        ..c
    };
    assert(e.is_held(id));
    lemma_timed_from_held(e, 0, id);
}

proof fn lemma_timed_from_swept(c: ContextView, i: int, id: u64)
    requires
        c.wf(),
        0 <= i <= c.sockets.len(),
        forall|j: int| 0 <= j < i ==> (#[trigger] c.sockets[j]).state != ConnState::Destroy,
    ensures
        ({
            let d = c.timed_from(i);
            &&& forall|j: int|
                0 <= j < d.sockets.len() ==> (#[trigger] d.sockets[j]).state != ConnState::Destroy
            &&& d.is_gone(id) && !d.is_known_gone(id) ==> c.is_gone(id) && !c.is_known_gone(id)
            &&& d.io.current_ms == c.io.current_ms
            &&& d == (ContextView { sockets: d.sockets, io: d.io, gone: d.gone, ..c })
        }),
    decreases c.sockets.len() - i,
{
    reveal(ContextView::timed_from);
    if i < c.sockets.len() {
        reveal(all_wf);
        lemma_timed(c, i);
        lemma_timeouts_checked(c.st_at(i));
        let p = c.put(i, timeouts_checked(c.st_at(i)));
        let d = c.timed(i);
        if p.is_known_gone(id) {
            let j = choose|j: int|
                0 <= j < p.gone.len() && (#[trigger] p.gone[j]).id == id && p.gone[j].destroyed;
            assert(d.gone[j] == p.gone[j]);
        }
        if d.is_gone(id) && !d.is_known_gone(id) {
            let j = choose|j: int| 0 <= j < d.gone.len() && (#[trigger] d.gone[j]).id == id;
            assert(j < c.gone.len() ==> c.gone[j] == d.gone[j]);
        }
        if d.sockets.len() == c.sockets.len() {
            lemma_timed_from_swept(d, i + 1, id);
        } else {
            assert forall|j: int| 0 <= j < i implies (#[trigger] d.sockets[j]).state
                != ConnState::Destroy by {
                assert(d.sockets[j] == c.sockets[j]);
            }
            lemma_timed_from_swept(d, i, id);
        }
    }
}

/// When the timers are looked at, no socket is left that has come to its end.
pub proof fn lemma_swept(c: ContextView, now: Now)
    requires
        c.wf(),
        now.ms.wrapping_sub(c.last_check) >= TIMEOUT_CHECK_INTERVAL,
    ensures
        ({
            let d = c.timeouts_checked(now);
            &&& d.io.current_ms == now.ms
            &&& d.last_check == now.ms
            &&& d.clock == c.clock
            &&& forall|j: int|
                0 <= j < d.sockets.len() ==> (#[trigger] d.sockets[j]).state != ConnState::Destroy
        }),
{
    let e = ContextView {
        io: IoView { now, current_ms: now.ms, ..c.io },
        last_check: now.ms,
        rst_info: rst_kept(c.rst_info, now.ms),
        ..c
    };
    lemma_timed_from_swept(e, 0, 0);
}

/// The user of every connection that loses its socket when the timers are
/// looked at, and is held, learns of it.
pub proof fn lemma_swept_tells(c: ContextView, now: Now, id: u64)
    requires
        c.wf(),
        c.is_held(id),
        !c.is_gone(id),
    ensures
        c.timeouts_checked(now).has_socket(id) || c.timeouts_checked(now).is_known_gone(id),
{
    let e = ContextView {
        io: IoView { now, current_ms: now.ms, ..c.io },
        last_check: now.ms,
        rst_info: rst_kept(c.rst_info, now.ms),
        ..c
    };
    lemma_timed_from_swept(e, 0, id);
    lemma_held_stays(c, now, id);
}

/// When all sockets are taken out, the user of every connection that had one
/// and is held learns of it.
pub proof fn lemma_emptied_tells(c: ContextView, id: u64)
    requires
        c.is_held(id),
        c.is_gone(id) ==> c.is_known_gone(id),
    ensures
        c.emptied().is_known_gone(id),
    decreases c.sockets.len(),
{
    reveal(ContextView::emptied);
    if c.sockets.len() > 0 {
        lemma_destroyed_held(c, 0, id);
        let d = c.destroyed(0);
        if !c.is_gone(id) && d.is_gone(id) {
            let j = choose|j: int| 0 <= j < d.gone.len() && (#[trigger] d.gone[j]).id == id;
            if j < c.gone.len() {
                assert(c.gone[j] == d.gone[j]);
            }
            assert(d.gone[j].destroyed);
        }
        lemma_emptied_tells(d, id);
    }
}

} // verus!

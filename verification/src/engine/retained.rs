//! A packet stays in the send queue until the peer acks it.

use crate::clock::Now;
use crate::engine::acks::{
    lemma_acked, lemma_oldest_acked, lemma_window_shrunk, lemma_window_trimmed, AckResult,
};
use crate::engine::deliver::{lemma_received_early, lemma_received_in_order};
use crate::engine::eack::{
    bit_seq, lemma_resent, lemma_scanned, lemma_selectively_acked, lemma_stepped, may_resend,
    resent, selectively_acked, Scan, MAX_MASK,
};
use crate::engine::extensions::{exts_of, lemma_exts_from};
use crate::engine::incoming::{arrived, handled, lemma_heard_from, taken_in};
use crate::engine::link::{happened, Event};
use crate::engine::measure::{fields_of, lemma_measured, Fields};
use crate::engine::model::{mask_bit, packet_sent, packet_written, St};
use crate::engine::progress::{
    fast_retried, lemma_fast_retried, lemma_nagle_flushed, lemma_progressed, lemma_queue_moved,
    lemma_state_moved, nagle_flushed, progressed, queue_moved, state_moved,
};
use crate::engine::queue::{lemma_queue_at, lemma_slots_differ};
use crate::engine::state::{
    ConnState, IoView, RecvSide, SendSide, SockView, MAX_PAYLOAD, OUTGOING_BUFFER_MAX_SIZE,
    REORDER_BUFFER_MAX_SIZE,
};
use crate::engine::timers::{is_up, lemma_timeouts_checked, timeouts_checked};
use crate::engine::transmit::{
    lemma_flushed_from, lemma_packet_sent, lemma_same_contents_at, same_contents,
};
use crate::engine::write::{
    chunk_len, closing, lemma_ack_sent, lemma_new_packet, lemma_packet_written, lemma_queued,
    lemma_with_extended, lemma_with_packet, lemma_writing, lemma_written, writing, written,
};
use crate::packet::{HEADER_SIZE, ST_DATA, ST_FIN, ST_NUM_STATES};
use vstd::prelude::*;

verus! {

impl SockView {
    /// Whether the packet numbered `q` is in the send queue, and its payload
    /// begins with `body`.
    pub open spec fn retains(self, q: u16, body: Seq<u8>) -> bool {
        match self.packet_at(q) {
            Some(p) => p.seq() == q && body.is_prefix_of(p.body()),
            None => false,
        }
    }

    /// Whether number `q` is one of the `n` oldest of the window.
    pub open spec fn among_oldest(self, n: int, q: u16) -> bool {
        (q - self.oldest_seq()) % 0x10000 < n
    }
}

/// Whether a bit of the mask, whose first bit stands for `base`, acks `q`.
pub open spec fn mask_acks(mask: Seq<u8>, base: u16, q: u16) -> bool {
    exists|i: int| #[trigger] mask_bit(mask, i) && bit_seq(base, i) == q
}

/// Whether a packet with the fields `f` and the mask `selack` acks number `q`
/// of the socket: by its ack number, which acks all up to it, or by a bit of
/// the mask, which begins two numbers past it.
pub open spec fn acks_number(s: SockView, f: Fields, selack: Option<Seq<u8>>, q: u16) -> bool {
    ||| s.among_oldest(s.acks_of(f.ack_nr) as int, q)
    ||| selack matches Some(mask) && mask_acks(mask, f.ack_nr.wrapping_add(2), q)
}

/// A packet in the queue is in the window.
proof fn lemma_in_window(s: SockView, q: u16, body: Seq<u8>)
    requires
        s.send_wf(),
        s.retains(q, body),
    ensures
        (s.send.seq_nr - 1 - q) % 0x10000 < s.send.cur_window_packets,
        s.outbuf.len() > 0,
{
    lemma_queue_at(
        s.outbuf,
        s.send.seq_nr,
        s.send.cur_window_packets,
        s.send.cur_window,
        q as int,
    );
}

proof fn lemma_same_retains(a: SockView, b: SockView, q: u16, body: Seq<u8>)
    requires
        a.send_wf(),
        a.retains(q, body),
        same_contents(a.outbuf, b.outbuf),
    ensures
        b.retains(q, body),
{
    lemma_in_window(a, q, body);
    lemma_same_contents_at(a.outbuf, b.outbuf, q as int);
}

proof fn lemma_queued_retains(s: SockView, flags: u8, data: Seq<u8>, q: u16, body: Seq<u8>)
    requires
        s.send_wf(),
        s.mtu.wf(),
        s.send.cur_window_packets < OUTGOING_BUFFER_MAX_SIZE,
        data.len() <= MAX_PAYLOAD,
        s.retains(q, body),
    ensures
        s.queued(flags, data).retains(q, body),
{
    lemma_in_window(s, q, body);
    let n = s.room_in_last(data.len() as int);
    if n == 0 {
        lemma_with_packet(s, flags, data);
        assert(s.with_packet(flags, data).packet_at(q) == s.packet_at(q));
    } else {
        let e = s.with_extended(flags, data.take(n));
        lemma_with_extended(s, flags, data.take(n));
        lemma_extended_retains(s, flags, data.take(n), q, body);
        assert(data.take(data.len() as int) =~= data);
        if n != data.len() {
            lemma_with_packet(e, flags, data.skip(n));
            assert(e.with_packet(flags, data.skip(n)).packet_at(q) == e.packet_at(q));
        }
    }
}

proof fn lemma_extended_retains(s: SockView, flags: u8, data: Seq<u8>, q: u16, body: Seq<u8>)
    requires
        s.send_wf(),
        s.last_open(),
        s.packet_at(s.send.seq_nr.wrapping_sub(1))->0.payload + data.len() <= MAX_PAYLOAD,
        s.retains(q, body),
    ensures
        s.with_extended(flags, data).retains(q, body),
{
    lemma_in_window(s, q, body);
    let last = s.send.seq_nr.wrapping_sub(1);
    let t = s.with_extended(flags, data);
    lemma_with_extended(s, flags, data);
    let n = s.outbuf.len() as int;
    lemma_queue_at(
        s.outbuf,
        s.send.seq_nr,
        s.send.cur_window_packets,
        s.send.cur_window,
        last as int,
    );
    lemma_queue_at(
        s.outbuf,
        s.send.seq_nr,
        s.send.cur_window_packets,
        s.send.cur_window,
        q as int,
    );
    if q == last {
        let x = s.packet_at(q)->0.body();
        assert(body =~= (x + data).subrange(0, body.len() as int)) by {
            assert(body =~= x.subrange(0, body.len() as int));
        }
    } else {
        assert((s.send.seq_nr - 1 - last) % 0x10000 == 0);
        lemma_slots_differ(
            s.outbuf,
            s.send.seq_nr,
            s.send.cur_window_packets,
            s.send.cur_window,
            q,
            last,
        );
    }
}

proof fn lemma_packet_written_retains(st: St, flags: u8, data: Seq<u8>, q: u16, body: Seq<u8>)
    requires
        st.s.send_wf(),
        st.s.mtu.wf(),
        st.s.send.cur_window_packets < OUTGOING_BUFFER_MAX_SIZE - 1 || st.s.send.fin_sent
            && st.s.send.cur_window_packets < OUTGOING_BUFFER_MAX_SIZE,
        data.len() <= MAX_PAYLOAD,
        st.s.retains(q, body),
    ensures
        packet_written(st, flags, data).s.retains(q, body),
{
    let send = if st.s.send.cur_window_packets == 0 {
        SendSide {
            retransmit_timeout: st.s.rtt.rto,
            rto_timeout: st.io.current_ms.wrapping_add(st.s.rtt.rto as u64),
            ..st.s.send
        }
    } else {
        st.s.send
    };
    let s = SockView { send: SendSide { last_rcv_win: st.s.rcv_window(), ..send }, ..st.s };
    lemma_queued(s, flags, data);
    lemma_queued_retains(s, flags, data, q, body);
    let queued = St { s: s.queued(flags, data), ..st };
    lemma_flushed_from(queued, queued.s.packet_size(), queued.s.oldest_seq());
    lemma_same_retains(queued.s, packet_written(st, flags, data).s, q, body);
}

proof fn lemma_writing_retains(
    st: St,
    packet_size: usize,
    sent: int,
    rest: Seq<u8>,
    q: u16,
    body: Seq<u8>,
)
    requires
        st.s.send_wf(),
        st.s.mtu.wf(),
        st.s.oldest_there(),
        st.s.state == ConnState::Connected,
        0 < packet_size <= MAX_PAYLOAD,
        st.s.retains(q, body),
    ensures
        writing(st, packet_size, sent, rest).1.s.retains(q, body),
    decreases rest.len(),
{
    reveal(writing);
    let n = chunk_len(rest.len(), packet_size);
    if !st.s.full(n as usize) {
        let next = packet_written(st, ST_DATA, rest.take(n));
        lemma_packet_written(st, ST_DATA, rest.take(n));
        lemma_packet_written_retains(st, ST_DATA, rest.take(n), q, body);
        if 0 < n < rest.len() {
            lemma_writing_retains(next, packet_size, sent + n, rest.skip(n), q, body);
        }
    }
}

proof fn lemma_written_retains(st: St, data: Seq<u8>, q: u16, body: Seq<u8>)
    requires
        st.s.wf(),
        st.s.retains(q, body),
    ensures
        written(st, data).1.s.retains(q, body),
{
    reveal(written);
    if st.s.state == ConnState::Connected && !st.s.send.fin_sent {
        lemma_writing_retains(
            St { io: IoView { current_ms: st.io.now.ms, ..st.io }, ..st },
            st.s.packet_size(),
            0,
            data,
            q,
            body,
        );
    }
}

proof fn lemma_closing_retains(st: St, q: u16, body: Seq<u8>)
    requires
        st.s.wf(),
        st.s.retains(q, body),
    ensures
        closing(st).s.retains(q, body),
{
    let s = st.s;
    let closed = SockView {
        recv: RecvSide { read_shutdown: true, ..s.recv },
        send: SendSide { close_requested: true, fin_sent: true, ..s.send },
        ..s
    };
    if is_up(s.state) && !s.send.fin_sent {
        lemma_packet_written_retains(St { s: closed, ..st }, ST_FIN, Seq::empty(), q, body);
    }
}

proof fn lemma_acked_retains(
    s: SockView,
    now: Now,
    current_ms: u64,
    v: u16,
    q: u16,
    body: Seq<u8>,
)
    requires
        s.send_wf(),
        s.retains(q, body),
        q != v,
        (s.send.seq_nr - 1 - v) % 0x10000 < s.send.cur_window_packets,
    ensures
        s.acked(now, current_ms, v).retains(q, body),
{
    lemma_in_window(s, q, body);
    lemma_acked(s, now, current_ms, v);
    lemma_slots_differ(
        s.outbuf,
        s.send.seq_nr,
        s.send.cur_window_packets,
        s.send.cur_window,
        q,
        v,
    );
    lemma_queue_at(
        s.outbuf,
        s.send.seq_nr,
        s.send.cur_window_packets,
        s.send.cur_window,
        q as int,
    );
    let t = s.acked(now, current_ms, v);
    let k = q as int % s.outbuf.len() as int;
    assert(t.outbuf[k] == s.outbuf[k]);
}

proof fn lemma_oldest_acked_retains(
    s: SockView,
    now: Now,
    current_ms: u64,
    n: int,
    q: u16,
    body: Seq<u8>,
)
    requires
        s.send_wf(),
        n <= s.send.cur_window_packets,
        s.retains(q, body),
        !s.among_oldest(n, q),
    ensures
        s.oldest_acked(now, current_ms, n).retains(q, body),
    decreases n,
{
    reveal(SockView::oldest_acked);
    if n > 0 && s.ack_result(s.oldest_seq()) != AckResult::NotSent {
        let oldest = s.oldest_seq();
        assert(q != oldest);
        assert((s.send.seq_nr - 1 - oldest) % 0x10000 == s.send.cur_window_packets - 1);
        lemma_acked(s, now, current_ms, oldest);
        lemma_acked_retains(s, now, current_ms, oldest, q, body);
        let t = s.acked(now, current_ms, oldest);
        lemma_window_shrunk(t);
        let u = t.window_shrunk();
        lemma_next_oldest(oldest as int, u.oldest_seq() as int, q as int, n);
        lemma_oldest_acked_retains(u, now, current_ms, n - 1, q, body);
    }
}

proof fn lemma_next_oldest(a: int, b: int, q: int, n: int)
    requires
        (b - a - 1) % 0x10000 == 0,
        (q - a) % 0x10000 >= n,
        n > 0,
    ensures
        (q - b) % 0x10000 >= n - 1,
{
}

proof fn lemma_scanned_retains(
    scan: Scan,
    now: Now,
    current_ms: u64,
    base: u16,
    mask: Seq<u8>,
    n: int,
    q: u16,
    body: Seq<u8>,
)
    requires
        scan.s.send_wf(),
        scan.s.oldest_there(),
        scan.s.send.cur_window_packets > 0,
        scan.count + n < u32::MAX,
        scan.s.retains(q, body),
        !mask_acks(mask, base, q),
    ensures
        scan.scanned(now, current_ms, base, mask, n).s.retains(q, body),
    decreases n + 1,
{
    reveal(Scan::scanned);
    if n >= 0 {
        lemma_stepped(scan, now, current_ms, base, mask, n - 1);
        let next = scan.stepped(now, current_ms, base, mask, n - 1);
        let v = bit_seq(base, n - 1);
        assert(next.s.retains(q, body)) by {
            reveal(Scan::noted);
            if scan.s.past_oldest(v) && mask_bit(mask, n - 1) {
                assert(q != v);
                lemma_acked_retains(scan.s, now, current_ms, v, q, body);
            }
        }
        lemma_scanned_retains(next, now, current_ms, base, mask, n - 1, q, body);
    }
}

proof fn lemma_eack_retains(st: St, base: u16, mask: Seq<u8>, q: u16, body: Seq<u8>)
    requires
        st.s.send_wf(),
        st.s.mtu.wf(),
        st.s.oldest_there(),
        mask.len() <= MAX_MASK,
        st.s.retains(q, body),
        !mask_acks(mask, base, q),
    ensures
        selectively_acked(st, base, mask).s.retains(q, body),
{
    reveal(selectively_acked);
    if st.s.send.cur_window_packets > 0 {
        let start = Scan { s: st.s, count: 0, resends: Seq::empty() };
        let n = 8 * mask.len() as int;
        lemma_scanned(start, st.io.now, st.io.current_ms, base, mask, n);
        lemma_scanned_retains(start, st.io.now, st.io.current_ms, base, mask, n, q, body);
        let scan = start.scanned(st.io.now, st.io.current_ms, base, mask, n);
        let resends = if may_resend(scan.s, base.wrapping_sub(1), scan.count) {
            scan.resends.push(base.wrapping_sub(1))
        } else {
            scan.resends
        };
        let mid = St { s: scan.s, ..st };
        lemma_resent(mid, resends, 0);
        lemma_same_retains(scan.s, resent(mid, resends, 0).1.s, q, body);
    }
}

proof fn lemma_state_moved_retains(st: St, f: Fields, acks: u16, q: u16, body: Seq<u8>)
    requires
        st.s.wf(),
        acks <= st.s.send.cur_window_packets,
        st.s.retains(q, body),
    ensures
        state_moved(st, f, acks).s.retains(q, body),
        state_moved(st, f, acks).s.oldest_seq() == st.s.oldest_seq(),
{
    reveal(state_moved);
    let s = st.s.window_noted(f, st.io.current_ms).accepted(f);
    if s.completes(f) {
        let c = St { s: s.connected(), ..st };
        lemma_written_retains(c, Seq::empty(), q, body);
        lemma_written(c, Seq::empty());
    }
}

proof fn lemma_queue_moved_retains(st: St, f: Fields, acks: u16, q: u16, body: Seq<u8>)
    requires
        st.s.wf(),
        acks <= st.s.send.cur_window_packets,
        st.s.retains(q, body),
        !st.s.among_oldest(acks as int, q),
    ensures
        queue_moved(st, f, acks).s.retains(q, body),
{
    reveal(queue_moved);
    let s = st.s.fast_resend_moved(f);
    lemma_oldest_acked(s, st.io.now, st.io.current_ms, acks as int);
    lemma_oldest_acked_retains(s, st.io.now, st.io.current_ms, acks as int, q, body);
    lemma_window_trimmed(s.oldest_acked(st.io.now, st.io.current_ms, acks as int));
}

proof fn lemma_resends_retain(st: St, q: u16, body: Seq<u8>)
    requires
        st.s.wf(),
        st.s.retains(q, body),
    ensures
        fast_retried(nagle_flushed(st)).s.retains(q, body),
        fast_retried(nagle_flushed(st)).s.wf(),
{
    lemma_nagle_flushed(st);
    let n = nagle_flushed(st);
    lemma_fast_retried(n);
    assert(n.s.retains(q, body)) by {
        reveal(nagle_flushed);
        let last = st.s.send.seq_nr.wrapping_sub(1);
        lemma_packet_sent(st, last);
        lemma_same_retains(st.s, packet_sent(st, last).s, q, body);
    }
    assert(fast_retried(n).s.retains(q, body)) by {
        reveal(fast_retried);
        let s = SockView {
            send: SendSide {
                fast_resend_seq_nr: n.s.send.fast_resend_seq_nr.wrapping_add(1),
                ..n.s.send
            },
            ..n.s
        };
        lemma_packet_sent(St { s, ..n }, n.s.oldest_seq());
        lemma_same_retains(s, packet_sent(St { s, ..n }, n.s.oldest_seq()).s, q, body);
    }
}

proof fn lemma_progressed_retains(
    st: St,
    f: Fields,
    selack: Option<Seq<u8>>,
    q: u16,
    body: Seq<u8>,
)
    requires
        st.s.wf(),
        selack is Some ==> selack->0.len() <= MAX_MASK,
        st.s.retains(q, body),
        !acks_number(st.s, f, selack, q),
    ensures
        progressed(st, f, selack).s.retains(q, body),
{
    reveal(progressed);
    let acks = st.s.acks_of(f.ack_nr);
    let a = state_moved(st, f, acks);
    lemma_state_moved(st, f, acks);
    lemma_state_moved_retains(st, f, acks, q, body);
    let b = queue_moved(a, f, acks);
    lemma_queue_moved(a, f, acks);
    lemma_queue_moved_retains(a, f, acks, q, body);
    lemma_resends_retain(b, q, body);
    let c = fast_retried(nagle_flushed(b));
    match selack {
        Some(mask) => lemma_eack_retains(c, f.ack_nr.wrapping_add(2), mask, q, body),
        None => {},
    }
}

/// Taking data in leaves the send queue alone.
proof fn lemma_taken_in_leaves_queue(st: St, f: Fields, data: Seq<u8>)
    requires
        st.s.wf(),
        st.s.ahead(f.seq_nr) < REORDER_BUFFER_MAX_SIZE,
    ensures
        taken_in(st, f, data).1.s.outbuf == st.s.outbuf,
        taken_in(st, f, data).1.s.send.seq_nr == st.s.send.seq_nr,
{
    reveal(taken_in);
    let noted = St { s: st.s.fin_noted(f), ..st };
    lemma_received_in_order(noted, data);
    let ahead = st.s.ahead(f.seq_nr);
    if ahead > 0 {
        lemma_received_early(noted, f.seq_nr, ahead as int, data);
    }
}

proof fn lemma_handled_retains(
    st: St,
    f: Fields,
    selack: Option<Seq<u8>>,
    data: Seq<u8>,
    q: u16,
    body: Seq<u8>,
)
    requires
        st.s.wf(),
        selack is Some ==> selack->0.len() <= MAX_MASK,
        st.s.retains(q, body),
        !acks_number(st.s, f, selack, q),
    ensures
        handled(st, f, selack, data).1.s.retains(q, body),
{
    reveal(handled);
    if st.s.ahead(f.seq_nr) < REORDER_BUFFER_MAX_SIZE {
        lemma_measured(st.s, f, selack, st.io.now, st.io.current_ms);
        let m = St { s: st.s.measured(f, selack, st.io.now, st.io.current_ms), ..st };
        lemma_progressed(m, f, selack);
        lemma_progressed_retains(m, f, selack, q, body);
        lemma_taken_in_leaves_queue(progressed(m, f, selack), f, data);
    }
}

/// A packet stays in the send queue, with its number and its payload, whatever
/// happens, until a packet arrives that acks it.
pub proof fn lemma_retained_until_acked(st: St, e: Event, q: u16, body: Seq<u8>)
    requires
        st.s.wf(),
        e.possible(st.s),
        st.s.retains(q, body),
        e matches Event::Arrive(buf) ==> !acks_number(
            st.s,
            fields_of(buf),
            exts_of(buf, st.s.extensions).selack,
            q,
        ),
    ensures
        happened(st, e).s.retains(q, body),
{
    match e {
        Event::Write(data) => lemma_written_retains(st, data, q, body),
        Event::Read(n) => {},
        Event::Reset => {},
        Event::Drained => lemma_ack_sent(st),
        Event::Close => lemma_closing_retains(st, q, body),
        Event::Tick => {
            lemma_timeouts_checked(st);
            lemma_same_retains(st.s, timeouts_checked(st).s, q, body);
        },
        Event::Ack => lemma_ack_sent(st),
        Event::Arrive(buf) => {
            reveal(arrived);
            let f = fields_of(buf);
            let x = exts_of(buf, st.s.extensions);
            let io = IoView { current_ms: st.io.now.ms, ..st.io };
            lemma_exts_from(buf, HEADER_SIZE as int, buf[1], None, st.s.extensions);
            let s = SockView { extensions: x.bits, ..st.s };
            let h = St { s: s.heard_from(f, io.current_ms), io };
            lemma_heard_from(s, f, io.current_ms);
            if x.end is Some {
                lemma_handled_retains(h, f, x.selack, buf.skip(x.end->0), q, body);
            }
        },
    }
}

impl SockView {
    /// Whether `q` is a number that `before` had not given out yet.
    pub open spec fn newly_numbered(self, before: SockView, q: u16) -> bool {
        q.wrapping_sub(before.send.seq_nr) < self.send.seq_nr.wrapping_sub(before.send.seq_nr)
    }
}

proof fn lemma_queued_adds(s: SockView, flags: u8, data: Seq<u8>)
    requires
        s.send_wf(),
        s.mtu.wf(),
        s.send.cur_window_packets < OUTGOING_BUFFER_MAX_SIZE,
        data.len() <= MAX_PAYLOAD,
    ensures
        s.queued(flags, data).send.seq_nr == s.send.seq_nr || s.queued(flags, data).send.seq_nr
            == s.send.seq_nr.wrapping_add(1) && s.queued(flags, data).retains(
            s.send.seq_nr,
            Seq::empty(),
        ),
{
    let n = s.room_in_last(data.len() as int);
    let none = Seq::<u8>::empty();
    if n == 0 {
        lemma_with_packet(s, flags, data);
        lemma_new_packet(s, flags, data);
        assert(none =~= data.subrange(0, 0));
    } else {
        let e = s.with_extended(flags, data.take(n));
        lemma_with_extended(s, flags, data.take(n));
        assert(data.take(data.len() as int) =~= data);
        if n != data.len() {
            lemma_with_packet(e, flags, data.skip(n));
            lemma_new_packet(e, flags, data.skip(n));
            assert(none =~= data.skip(n).subrange(0, 0));
        }
    }
}

proof fn lemma_packet_written_adds(st: St, flags: u8, data: Seq<u8>)
    requires
        st.s.send_wf(),
        st.s.mtu.wf(),
        st.s.send.cur_window_packets < OUTGOING_BUFFER_MAX_SIZE - 1 || st.s.send.fin_sent
            && st.s.send.cur_window_packets < OUTGOING_BUFFER_MAX_SIZE,
        data.len() <= MAX_PAYLOAD,
    ensures
        ({
            let after = packet_written(st, flags, data).s;
            after.send.seq_nr == st.s.send.seq_nr || after.send.seq_nr
                == st.s.send.seq_nr.wrapping_add(1) && after.retains(
                st.s.send.seq_nr,
                Seq::empty(),
            )
        }),
{
    let send = if st.s.send.cur_window_packets == 0 {
        SendSide {
            retransmit_timeout: st.s.rtt.rto,
            rto_timeout: st.io.current_ms.wrapping_add(st.s.rtt.rto as u64),
            ..st.s.send
        }
    } else {
        st.s.send
    };
    let s = SockView { send: SendSide { last_rcv_win: st.s.rcv_window(), ..send }, ..st.s };
    lemma_queued(s, flags, data);
    lemma_queued_adds(s, flags, data);
    let queued = St { s: s.queued(flags, data), ..st };
    lemma_flushed_from(queued, queued.s.packet_size(), queued.s.oldest_seq());
    if queued.s.send.seq_nr != st.s.send.seq_nr {
        lemma_same_retains(
            queued.s,
            packet_written(st, flags, data).s,
            st.s.send.seq_nr,
            Seq::empty(),
        );
    }
}

proof fn lemma_writing_adds(st: St, packet_size: usize, sent: int, rest: Seq<u8>, q: u16)
    requires
        st.s.send_wf(),
        st.s.mtu.wf(),
        st.s.oldest_there(),
        st.s.state == ConnState::Connected,
        0 < packet_size <= MAX_PAYLOAD,
        writing(st, packet_size, sent, rest).1.s.newly_numbered(st.s, q),
    ensures
        writing(st, packet_size, sent, rest).1.s.retains(q, Seq::empty()),
    decreases rest.len(),
{
    reveal(writing);
    let n = chunk_len(rest.len(), packet_size);
    let after = writing(st, packet_size, sent, rest).1.s;
    let none = Seq::<u8>::empty();
    if !st.s.full(n as usize) {
        let next = packet_written(st, ST_DATA, rest.take(n));
        lemma_packet_written(st, ST_DATA, rest.take(n));
        lemma_packet_written_adds(st, ST_DATA, rest.take(n));
        if 0 < n < rest.len() {
            lemma_writing(next, packet_size, sent + n, rest.skip(n));
            lemma_few(after);
            lemma_few(st.s);
            if q == st.s.send.seq_nr && next.s.send.seq_nr != st.s.send.seq_nr {
                lemma_writing_retains(next, packet_size, sent + n, rest.skip(n), q, none);
            } else {
                assert(after.newly_numbered(next.s, q));
                lemma_writing_adds(next, packet_size, sent + n, rest.skip(n), q);
            }
        }
    }
}

proof fn lemma_few(s: SockView)
    requires
        s.send_wf(),
    ensures
        s.send.cur_window_packets <= OUTGOING_BUFFER_MAX_SIZE,
{
    lemma_queue_at(s.outbuf, s.send.seq_nr, s.send.cur_window_packets, s.send.cur_window, 0);
}

proof fn lemma_written_adds(st: St, data: Seq<u8>, q: u16)
    requires
        st.s.wf(),
        written(st, data).1.s.newly_numbered(st.s, q),
    ensures
        written(st, data).1.s.retains(q, Seq::empty()),
{
    reveal(written);
    if st.s.state == ConnState::Connected && !st.s.send.fin_sent {
        lemma_writing_adds(
            St { io: IoView { current_ms: st.io.now.ms, ..st.io }, ..st },
            st.s.packet_size(),
            0,
            data,
            q,
        );
    }
}

proof fn lemma_closing_adds(st: St, q: u16)
    requires
        st.s.wf(),
        closing(st).s.newly_numbered(st.s, q),
    ensures
        closing(st).s.retains(q, Seq::empty()),
{
    let s = st.s;
    let closed = SockView {
        recv: RecvSide { read_shutdown: true, ..s.recv },
        send: SendSide { close_requested: true, fin_sent: true, ..s.send },
        ..s
    };
    if is_up(s.state) && !s.send.fin_sent {
        lemma_packet_written_adds(St { s: closed, ..st }, ST_FIN, Seq::empty());
    }
}

/// What the peer's acks move on gives out a number at most when a dialled
/// connection is answered.
proof fn lemma_progressed_numbers(st: St, f: Fields, selack: Option<Seq<u8>>)
    requires
        st.s.wf(),
        selack is Some ==> selack->0.len() <= MAX_MASK,
    ensures
        progressed(st, f, selack).s.send.seq_nr == state_moved(
            st,
            f,
            st.s.acks_of(f.ack_nr),
        ).s.send.seq_nr,
{
    reveal(progressed);
    reveal(queue_moved);
    reveal(nagle_flushed);
    reveal(fast_retried);
    let acks = st.s.acks_of(f.ack_nr);
    let a = state_moved(st, f, acks);
    lemma_state_moved(st, f, acks);
    let b = queue_moved(a, f, acks);
    lemma_queue_moved(a, f, acks);
    let m = a.s.fast_resend_moved(f);
    lemma_oldest_acked(m, a.io.now, a.io.current_ms, acks as int);
    lemma_window_trimmed(m.oldest_acked(a.io.now, a.io.current_ms, acks as int));
    let n = nagle_flushed(b);
    lemma_nagle_flushed(b);
    lemma_packet_sent(b, b.s.send.seq_nr.wrapping_sub(1));
    let s = SockView {
        send: SendSide {
            fast_resend_seq_nr: n.s.send.fast_resend_seq_nr.wrapping_add(1),
            ..n.s.send
        },
        ..n.s
    };
    lemma_packet_sent(St { s, ..n }, n.s.oldest_seq());
    lemma_fast_retried(n);
    match selack {
        Some(mask) => lemma_selectively_acked(fast_retried(n), f.ack_nr.wrapping_add(2), mask),
        None => {},
    }
}

proof fn lemma_progressed_adds(st: St, f: Fields, selack: Option<Seq<u8>>, q: u16)
    requires
        st.s.wf(),
        selack is Some ==> selack->0.len() <= MAX_MASK,
        progressed(st, f, selack).s.newly_numbered(st.s, q),
        selack matches Some(mask) ==> !mask_acks(mask, f.ack_nr.wrapping_add(2), q),
    ensures
        progressed(st, f, selack).s.retains(q, Seq::empty()),
{
    let none = Seq::<u8>::empty();
    lemma_progressed_numbers(st, f, selack);
    reveal(progressed);
    let acks = st.s.acks_of(f.ack_nr);
    let a = state_moved(st, f, acks);
    lemma_state_moved(st, f, acks);
    let s = st.s.window_noted(f, st.io.current_ms).accepted(f);
    let c = St { s: s.connected(), ..st };
    lemma_written(c, Seq::empty());
    lemma_few(st.s);
    lemma_few(a.s);
    assert(a.s.retains(q, none) && a.s.oldest_seq() == st.s.oldest_seq()
        && st.s.send.cur_window_packets <= a.s.send.cur_window_packets) by {
        reveal(state_moved);
        lemma_written_adds(c, Seq::empty(), q);
    }
    assert(!a.s.among_oldest(acks as int, q)) by {
        lemma_new_is_not_old(st.s, a.s, q);
        assert(acks <= st.s.send.cur_window_packets);
    }
    lemma_queue_moved(a, f, acks);
    lemma_queue_moved_retains(a, f, acks, q, none);
    let b = queue_moved(a, f, acks);
    lemma_resends_retain(b, q, none);
    let d = fast_retried(nagle_flushed(b));
    match selack {
        Some(mask) => lemma_eack_retains(d, f.ack_nr.wrapping_add(2), mask, q, none),
        None => {},
    }
}

/// A new number lies past the window that there was.
proof fn lemma_new_is_not_old(s: SockView, t: SockView, q: u16)
    requires
        t.newly_numbered(s, q),
        t.oldest_seq() == s.oldest_seq(),
        s.send.cur_window_packets <= t.send.cur_window_packets <= OUTGOING_BUFFER_MAX_SIZE,
    ensures
        !t.among_oldest(s.send.cur_window_packets as int, q),
{
    let o = s.oldest_seq() as int;
    let x = q.wrapping_sub(s.send.seq_nr) as int;
    let a = s.send.cur_window_packets as int;
    let b = t.send.cur_window_packets as int;
    assert((s.send.seq_nr - o - a) % 0x10000 == 0);
    assert((t.send.seq_nr - o - b) % 0x10000 == 0);
    assert(t.send.seq_nr.wrapping_sub(s.send.seq_nr) == b - a);
    assert((q - o - a - x) % 0x10000 == 0);
    assert((q - o) % 0x10000 == a + x);
}

proof fn lemma_handled_adds(
    st: St,
    f: Fields,
    selack: Option<Seq<u8>>,
    data: Seq<u8>,
    q: u16,
)
    requires
        st.s.wf(),
        selack is Some ==> selack->0.len() <= MAX_MASK,
        handled(st, f, selack, data).1.s.newly_numbered(st.s, q),
        selack matches Some(mask) ==> !mask_acks(mask, f.ack_nr.wrapping_add(2), q),
    ensures
        handled(st, f, selack, data).1.s.retains(q, Seq::empty()),
{
    reveal(handled);
    if st.s.ahead(f.seq_nr) < REORDER_BUFFER_MAX_SIZE {
        lemma_measured(st.s, f, selack, st.io.now, st.io.current_ms);
        let m = St { s: st.s.measured(f, selack, st.io.now, st.io.current_ms), ..st };
        lemma_progressed(m, f, selack);
        lemma_taken_in_leaves_queue(progressed(m, f, selack), f, data);
        lemma_progressed_adds(m, f, selack, q);
    }
}

/// A packet that is numbered is in the send queue, unless the very packet that
/// made it be sent acks it.
pub proof fn lemma_numbered_is_retained(st: St, e: Event, q: u16)
    requires
        st.s.wf(),
        e.possible(st.s),
        happened(st, e).s.newly_numbered(st.s, q),
        e matches Event::Arrive(buf) ==> (exts_of(buf, st.s.extensions).selack matches Some(mask)
            ==> !mask_acks(mask, fields_of(buf).ack_nr.wrapping_add(2), q)),
    ensures
        happened(st, e).s.retains(q, Seq::empty()),
{
    match e {
        Event::Write(data) => lemma_written_adds(st, data, q),
        Event::Read(n) => {},
        Event::Reset => {},
        Event::Drained => lemma_ack_sent(st),
        Event::Close => lemma_closing_adds(st, q),
        Event::Tick => lemma_timeouts_checked(st),
        Event::Ack => lemma_ack_sent(st),
        Event::Arrive(buf) => {
            reveal(arrived);
            let f = fields_of(buf);
            let x = exts_of(buf, st.s.extensions);
            let io = IoView { current_ms: st.io.now.ms, ..st.io };
            lemma_exts_from(buf, HEADER_SIZE as int, buf[1], None, st.s.extensions);
            let s = SockView { extensions: x.bits, ..st.s };
            let h = St { s: s.heard_from(f, io.current_ms), io };
            lemma_heard_from(s, f, io.current_ms);
            if f.packet_type >= ST_NUM_STATES || !st.s.ack_plausible(f) || x.end is None {
            } else {
                lemma_handled_adds(h, f, x.selack, buf.skip(x.end->0), q);
            }
        },
    }
}

} // verus!

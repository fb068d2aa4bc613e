//! No packet that arrives and no timer disturbs the stream that a socket sends.

use crate::clock::Now;
use crate::engine::acks::{
    lemma_acked, lemma_oldest_acked, lemma_window_shrunk, lemma_window_trimmed, AckResult,
};
use crate::engine::deliver::{
    fin_reached, lemma_fin_reached, received_early, received_in_order, reordered,
};
use crate::engine::eack::{
    bit_seq, lemma_resent, lemma_scanned, lemma_selectively_acked, lemma_stepped, may_resend,
    resent, selectively_acked, Scan, MAX_MASK,
};
use crate::engine::extensions::{exts_of, lemma_exts_from};
use crate::engine::incoming::{arrived, handled, lemma_heard_from, taken_in};
use crate::engine::measure::{fields_of, lemma_measured, Fields};
use crate::engine::model::{ack_sent, flushed, packet_sent, St};
use crate::engine::mtu::lemma_search_keeps_order;
use crate::engine::progress::{
    fast_retried, lemma_fast_retried, lemma_nagle_flushed, lemma_progressed, lemma_queue_moved,
    lemma_state_moved, nagle_flushed, progressed, queue_moved, state_moved,
};
use crate::engine::queue::lemma_queue_at;
use crate::engine::state::{
    ConnState, IoView, RecvSide, SendSide, SockView, OUTGOING_BUFFER_MAX_SIZE,
    REORDER_BUFFER_MAX_SIZE,
};
use crate::engine::stream::{
    advances, joined, kept, lemma_ack_advances, lemma_advances_trans, lemma_flush_advances,
    lemma_kept_advances, lemma_kept_refl, lemma_kept_trans, lemma_packet_advances,
    lemma_same_advances, lemma_written_advances,
};
use crate::engine::timers::{
    carried_on, due_handled, is_up, kept_alive, lemma_backed_off, lemma_due_handled, retried,
    rto_handled, timeouts_checked,
};
use crate::engine::transmit::{lemma_flushed_from, lemma_oldest_stays, lemma_packet_sent};
use crate::engine::write::{drained, lemma_ack_sent, lemma_written};
use crate::packet::{HEADER_SIZE, ST_NUM_STATES, ST_STATE};
use vstd::prelude::*;

verus! {

/// A queue has slots.
pub proof fn lemma_slots(s: SockView)
    requires
        s.send_wf(),
    ensures
        s.outbuf.len() > 0,
{
    lemma_queue_at(s.outbuf, s.send.seq_nr, s.send.cur_window_packets, s.send.cur_window, 0);
}

/// A window has so many packets at most.
pub proof fn lemma_few_packets(s: SockView)
    requires
        s.send_wf(),
    ensures
        s.send.cur_window_packets <= OUTGOING_BUFFER_MAX_SIZE,
{
    lemma_queue_at(s.outbuf, s.send.seq_nr, s.send.cur_window_packets, s.send.cur_window, 0);
}

/// What a step was and did, said shorter.
pub proof fn lemma_sends_after(a: St, b: St, s: Seq<Seq<u8>>, t: Seq<Seq<u8>>)
    requires
        advances(a, s, b, t),
    ensures
        b.s.sends(t),
{
    reveal(advances);
}

pub proof fn lemma_acked_kept(s: SockView, now: Now, current_ms: u64, seq: u16)
    requires
        s.send_wf(),
    ensures
        kept(s.outbuf, s.acked(now, current_ms, seq).outbuf),
{
    reveal(SockView::acked);
    reveal(kept);
    lemma_queue_at(
        s.outbuf,
        s.send.seq_nr,
        s.send.cur_window_packets,
        s.send.cur_window,
        seq as int,
    );
}

pub proof fn lemma_oldest_acked_kept(s: SockView, now: Now, current_ms: u64, n: int)
    requires
        s.send_wf(),
        n <= s.send.cur_window_packets,
    ensures
        kept(s.outbuf, s.oldest_acked(now, current_ms, n).outbuf),
    decreases n,
{
    reveal(SockView::oldest_acked);
    lemma_kept_refl(s.outbuf);
    if n > 0 && s.ack_result(s.oldest_seq()) != AckResult::NotSent {
        lemma_acked(s, now, current_ms, s.oldest_seq());
        lemma_acked_kept(s, now, current_ms, s.oldest_seq());
        let t = s.acked(now, current_ms, s.oldest_seq());
        lemma_window_shrunk(t);
        let u = t.window_shrunk();
        lemma_oldest_acked_kept(u, now, current_ms, n - 1);
        lemma_kept_trans(s.outbuf, u.outbuf, u.oldest_acked(now, current_ms, n - 1).outbuf);
    }
}

pub proof fn lemma_scanned_kept(
    scan: Scan,
    now: Now,
    current_ms: u64,
    base: u16,
    mask: Seq<u8>,
    n: int,
)
    requires
        scan.s.send_wf(),
        scan.s.oldest_there(),
        scan.s.send.cur_window_packets > 0,
        scan.count + n < u32::MAX,
    ensures
        kept(scan.s.outbuf, scan.scanned(now, current_ms, base, mask, n).s.outbuf),
    decreases n + 1,
{
    reveal(Scan::scanned);
    lemma_kept_refl(scan.s.outbuf);
    if n >= 0 {
        lemma_stepped(scan, now, current_ms, base, mask, n - 1);
        let next = scan.stepped(now, current_ms, base, mask, n - 1);
        assert(kept(scan.s.outbuf, next.s.outbuf)) by {
            reveal(Scan::noted);
            lemma_acked_kept(scan.s, now, current_ms, bit_seq(base, n - 1));
        }
        lemma_scanned_kept(next, now, current_ms, base, mask, n - 1);
        lemma_kept_trans(
            scan.s.outbuf,
            next.s.outbuf,
            next.scanned(now, current_ms, base, mask, n - 1).s.outbuf,
        );
    }
}

pub proof fn lemma_resent_advances(st: St, resends: Seq<u16>, done: int, stream: Seq<Seq<u8>>)
    requires
        st.s.send_wf(),
        st.s.mtu.wf(),
        st.s.sends(stream),
    ensures
        advances(st, stream, resent(st, resends, done).1, stream),
    decreases resends.len(),
{
    reveal(resent);
    lemma_slots(st.s);
    if resends.len() == 0 || done >= 4 {
        lemma_same_advances(st, st, stream);
    } else {
        let v = resends.last();
        if st.s.packet_at(v) is None {
            lemma_resent_advances(st, resends.drop_last(), done, stream);
        } else {
            lemma_packet_sent(st, v);
            lemma_packet_advances(st, v, stream);
            let sent = packet_sent(st, v);
            lemma_sends_after(st, sent, stream, stream);
            lemma_slots(sent.s);
            let s = SockView {
                send: SendSide { fast_resend_seq_nr: v.wrapping_add(1), ..sent.s.send },
                ..sent.s
            };
            let next = St { s, ..sent };
            lemma_same_advances(sent, next, stream);
            lemma_resent_advances(next, resends.drop_last(), done + 1, stream);
            let after = resent(next, resends.drop_last(), done + 1).1;
            lemma_advances_trans(st, stream, sent, stream, next, stream);
            lemma_advances_trans(st, stream, next, stream, after, stream);
        }
    }
}

pub proof fn lemma_eack_advances(st: St, base: u16, mask: Seq<u8>, stream: Seq<Seq<u8>>)
    requires
        st.s.send_wf(),
        st.s.mtu.wf(),
        st.s.oldest_there(),
        mask.len() <= MAX_MASK,
        st.s.sends(stream),
    ensures
        advances(st, stream, selectively_acked(st, base, mask), stream),
{
    reveal(selectively_acked);
    lemma_slots(st.s);
    let after = selectively_acked(st, base, mask);
    if st.s.send.cur_window_packets == 0 {
        lemma_same_advances(st, after, stream);
    } else {
        let start = Scan { s: st.s, count: 0, resends: Seq::empty() };
        let n = 8 * mask.len() as int;
        lemma_scanned(start, st.io.now, st.io.current_ms, base, mask, n);
        lemma_scanned_kept(start, st.io.now, st.io.current_ms, base, mask, n);
        let scan = start.scanned(st.io.now, st.io.current_ms, base, mask, n);
        let resends = if may_resend(scan.s, base.wrapping_sub(1), scan.count) {
            scan.resends.push(base.wrapping_sub(1))
        } else {
            scan.resends
        };
        let mid = St { s: scan.s, ..st };
        lemma_kept_advances(st, mid, stream);
        lemma_sends_after(st, mid, stream, stream);
        lemma_resent(mid, resends, 0);
        lemma_resent_advances(mid, resends, 0, stream);
        let r = resent(mid, resends, 0).1;
        lemma_advances_trans(st, stream, mid, stream, r, stream);
        lemma_sends_after(st, r, stream, stream);
        lemma_slots(r.s);
        lemma_same_advances(r, after, stream);
        lemma_advances_trans(st, stream, r, stream, after, stream);
    }
}

pub proof fn lemma_lost_kept(s: SockView)
    ensures
        kept(s.outbuf, s.all_lost().outbuf),
{
    reveal(kept);
}

pub proof fn lemma_retried_advances(st: St, probe_only: bool, stream: Seq<Seq<u8>>)
    requires
        st.s.wf(),
        st.s.sends(stream),
    ensures
        advances(st, stream, retried(st, probe_only), stream),
{
    reveal(retried);
    lemma_slots(st.s);
    lemma_backed_off(st.s, st.io.current_ms, probe_only);
    let s = st.s.backed_off(st.io.current_ms, probe_only);
    assert(kept(st.s.outbuf, s.outbuf)) by {
        lemma_lost_kept(SockView { outbuf: st.s.outbuf, ..s });
    }
    let lost = St { s, ..st };
    lemma_kept_advances(st, lost, stream);
    if s.send.cur_window_packets > 0 {
        let again = St { s: s.retrying(), ..st };
        lemma_sends_after(st, lost, stream, stream);
        lemma_slots(s);
        lemma_same_advances(lost, again, stream);
        lemma_advances_trans(st, stream, lost, stream, again, stream);
        lemma_sends_after(st, again, stream, stream);
        lemma_packet_advances(again, s.oldest_seq(), stream);
        lemma_advances_trans(
            st,
            stream,
            again,
            stream,
            packet_sent(again, s.oldest_seq()),
            stream,
        );
    }
}

pub proof fn lemma_due_advances(st: St, stream: Seq<Seq<u8>>)
    requires
        st.s.wf(),
        st.s.sends(stream),
    ensures
        advances(st, stream, due_handled(st), stream),
{
    reveal(due_handled);
    reveal(rto_handled);
    lemma_slots(st.s);
    let w = St { s: st.s.window_probed(st.io.current_ms), ..st };
    if w.s.rto_expired(st.io.current_ms) {
        let g = St { s: w.s.probe_given_up(st.io.now.ms), ..st };
        if g.s.state == ConnState::SynRecv || g.s.out_of_retries() {
            lemma_same_advances(st, due_handled(st), stream);
        } else {
            lemma_same_advances(st, g, stream);
            lemma_sends_after(st, g, stream, stream);
            if w.s.only_probe_out() {
                lemma_search_keeps_order(w.s.mtu, st.io.now.ms);
            }
            lemma_retried_advances(g, w.s.only_probe_out(), stream);
            lemma_advances_trans(st, stream, g, stream, due_handled(st), stream);
        }
    } else {
        lemma_same_advances(st, due_handled(st), stream);
    }
}

pub proof fn lemma_kept_alive_advances(st: St, stream: Seq<Seq<u8>>)
    requires
        st.s.outbuf.len() > 0,
        st.s.sends(stream),
    ensures
        advances(st, stream, kept_alive(st), stream),
{
    let before = RecvSide { ack_nr: st.s.recv.ack_nr.wrapping_sub(1), ..st.s.recv };
    let b = St { s: SockView { recv: before, ..st.s }, ..st };
    let acked = ack_sent(b);
    lemma_same_advances(st, b, stream);
    lemma_ack_advances(b, stream);
    lemma_advances_trans(st, stream, b, stream, acked, stream);
    lemma_sends_after(st, acked, stream, stream);
    lemma_ack_sent(b);
    if kept_alive(st) == st {
        lemma_same_advances(st, st, stream);
    } else {
        lemma_same_advances(acked, kept_alive(st), stream);
        lemma_advances_trans(st, stream, acked, stream, kept_alive(st), stream);
    }
}

pub proof fn lemma_carried_on_advances(st: St, stream: Seq<Seq<u8>>)
    requires
        st.s.outbuf.len() > 0,
        st.s.sends(stream),
    ensures
        advances(st, stream, carried_on(st), stream),
{
    reveal(carried_on);
    if st.s.state == ConnState::Destroy || st.s.state == ConnState::Reset {
        lemma_same_advances(st, st, stream);
    } else {
        let w = St { s: st.s.writable_again(st.io.current_ms), ..st };
        lemma_same_advances(st, w, stream);
        lemma_kept_alive_advances(w, stream);
        lemma_advances_trans(st, stream, w, stream, kept_alive(w), stream);
    }
}

/// The passing of time does not disturb the stream.
pub proof fn lemma_timeouts_advance(st: St, stream: Seq<Seq<u8>>)
    requires
        st.s.wf(),
        st.s.sends(stream),
    ensures
        advances(st, stream, timeouts_checked(st), stream),
{
    reveal(timeouts_checked);
    lemma_slots(st.s);
    let after = timeouts_checked(st);
    if st.s.state == ConnState::Destroy {
        lemma_same_advances(st, after, stream);
    } else {
        let f = flushed(st).1;
        lemma_flushed_from(st, st.s.packet_size(), st.s.oldest_seq());
        lemma_flush_advances(st, st.s.packet_size(), st.s.oldest_seq(), stream);
        lemma_oldest_stays(st.s, f.s);
        lemma_sends_after(st, f, stream, stream);
        if is_up(f.s.state) || f.s.state == ConnState::SynSent || f.s.state == ConnState::SynRecv {
            let d = due_handled(f);
            lemma_due_handled(f);
            lemma_due_advances(f, stream);
            lemma_sends_after(f, d, stream, stream);
            lemma_slots(d.s);
            lemma_carried_on_advances(d, stream);
            lemma_advances_trans(f, stream, d, stream, carried_on(d), stream);
            lemma_advances_trans(st, stream, f, stream, after, stream);
        }
    }
}

/// Reading does not disturb the stream.
pub proof fn lemma_drained_advances(st: St, stream: Seq<Seq<u8>>)
    requires
        st.s.wf(),
        st.s.sends(stream),
    ensures
        advances(st, stream, drained(st), stream),
{
    lemma_slots(st.s);
    if st.s.rcv_window() > st.s.send.last_rcv_win && st.s.send.last_rcv_win == 0 {
        lemma_ack_advances(st, stream);
    } else {
        lemma_same_advances(st, drained(st), stream);
    }
}

/// A dialled connection that is answered writes an empty packet.
pub proof fn lemma_state_advances(st: St, f: Fields, acks: u16, stream: Seq<Seq<u8>>) -> (t: Seq<
    Seq<u8>,
>)
    requires
        st.s.wf(),
        acks <= st.s.send.cur_window_packets,
        st.s.sends(stream),
    ensures
        advances(st, stream, state_moved(st, f, acks), t),
        joined(t) == joined(stream),
        t.len() - stream.len() <= OUTGOING_BUFFER_MAX_SIZE,
{
    reveal(state_moved);
    lemma_slots(st.s);
    let after = state_moved(st, f, acks);
    let s = st.s.window_noted(f, st.io.current_ms).accepted(f);
    if s.completes(f) {
        let c = St { s: s.connected(), ..st };
        lemma_same_advances(st, c, stream);
        lemma_sends_after(st, c, stream, stream);
        let t = lemma_written_advances(c, Seq::empty(), stream);
        lemma_advances_trans(st, stream, c, stream, after, t);
        lemma_written(c, Seq::empty());
        lemma_few_packets(after.s);
        assert(joined(stream) + Seq::<u8>::empty().take(0) =~= joined(stream));
        t
    } else {
        lemma_same_advances(st, after, stream);
        stream
    }
}

pub proof fn lemma_queue_moved_advances(st: St, f: Fields, acks: u16, stream: Seq<Seq<u8>>)
    requires
        st.s.wf(),
        acks <= st.s.send.cur_window_packets,
        st.s.sends(stream),
    ensures
        advances(st, stream, queue_moved(st, f, acks), stream),
{
    reveal(queue_moved);
    lemma_slots(st.s);
    let s = st.s.fast_resend_moved(f);
    lemma_oldest_acked(s, st.io.now, st.io.current_ms, acks as int);
    lemma_oldest_acked_kept(s, st.io.now, st.io.current_ms, acks as int);
    let t = s.oldest_acked(st.io.now, st.io.current_ms, acks as int);
    lemma_window_trimmed(t);
    lemma_kept_advances(st, queue_moved(st, f, acks), stream);
}

pub proof fn lemma_nagle_advances(st: St, stream: Seq<Seq<u8>>)
    requires
        st.s.wf(),
        st.s.sends(stream),
    ensures
        advances(st, stream, nagle_flushed(st), stream),
{
    reveal(nagle_flushed);
    lemma_slots(st.s);
    if nagle_flushed(st) == st {
        lemma_same_advances(st, st, stream);
    } else {
        lemma_packet_advances(st, st.s.send.seq_nr.wrapping_sub(1), stream);
    }
}

pub proof fn lemma_fast_retried_advances(st: St, stream: Seq<Seq<u8>>)
    requires
        st.s.wf(),
        st.s.sends(stream),
    ensures
        advances(st, stream, fast_retried(st), stream),
{
    reveal(fast_retried);
    lemma_slots(st.s);
    let oldest = st.s.oldest_seq();
    let s = SockView {
        send: SendSide {
            fast_resend_seq_nr: st.s.send.fast_resend_seq_nr.wrapping_add(1),
            ..st.s.send
        },
        ..st.s
    };
    if st.s.send.fast_timeout && oldest == st.s.send.fast_resend_seq_nr && st.s.was_sent(oldest) {
        let b = St { s, ..st };
        lemma_same_advances(st, b, stream);
        lemma_sends_after(st, b, stream, stream);
        lemma_packet_advances(b, oldest, stream);
        lemma_advances_trans(st, stream, b, stream, packet_sent(b, oldest), stream);
    } else {
        lemma_same_advances(st, fast_retried(st), stream);
    }
}

/// What the peer's acks move on does not disturb the stream.
pub proof fn lemma_progress_advances(
    st: St,
    f: Fields,
    selack: Option<Seq<u8>>,
    stream: Seq<Seq<u8>>,
) -> (t: Seq<Seq<u8>>)
    requires
        st.s.wf(),
        selack is Some ==> selack->0.len() <= MAX_MASK,
        st.s.sends(stream),
    ensures
        advances(st, stream, progressed(st, f, selack), t),
        joined(t) == joined(stream),
        t.len() - stream.len() <= OUTGOING_BUFFER_MAX_SIZE,
{
    reveal(progressed);
    let acks = st.s.acks_of(f.ack_nr);
    let a = state_moved(st, f, acks);
    lemma_state_moved(st, f, acks);
    let t = lemma_state_advances(st, f, acks, stream);
    lemma_sends_after(st, a, stream, t);
    let b = queue_moved(a, f, acks);
    lemma_queue_moved(a, f, acks);
    lemma_queue_moved_advances(a, f, acks, t);
    lemma_sends_after(a, b, t, t);
    let n = nagle_flushed(b);
    lemma_nagle_flushed(b);
    lemma_nagle_advances(b, t);
    lemma_sends_after(b, n, t, t);
    let c = fast_retried(n);
    lemma_fast_retried(n);
    lemma_fast_retried_advances(n, t);
    lemma_sends_after(n, c, t, t);
    lemma_advances_trans(st, stream, a, t, b, t);
    lemma_advances_trans(st, stream, b, t, n, t);
    lemma_advances_trans(st, stream, n, t, c, t);
    let d = match selack {
        Some(mask) => selectively_acked(c, f.ack_nr.wrapping_add(2), mask),
        None => c,
    };
    match selack {
        Some(mask) => {
            lemma_eack_advances(c, f.ack_nr.wrapping_add(2), mask, t);
            lemma_selectively_acked(c, f.ack_nr.wrapping_add(2), mask);
            lemma_advances_trans(st, stream, c, t, d, t);
        },
        None => {},
    }
    lemma_sends_after(st, d, stream, t);
    lemma_slots(d.s);
    let after = progressed(st, f, selack);
    lemma_same_advances(d, after, t);
    lemma_advances_trans(st, stream, d, t, after, t);
    t
}

pub proof fn lemma_fin_advances(st: St, stream: Seq<Seq<u8>>)
    requires
        st.s.outbuf.len() > 0,
        st.s.sends(stream),
    ensures
        advances(st, stream, fin_reached(st), stream),
{
    reveal(fin_reached);
    if st.s.fin_is_next() {
        let e = St { s: st.s.ended(st.io.current_ms), ..st };
        lemma_same_advances(st, e, stream);
        lemma_ack_advances(e, stream);
        lemma_ack_sent(e);
        let acked = ack_sent(e);
        lemma_advances_trans(st, stream, e, stream, acked, stream);
        lemma_sends_after(st, acked, stream, stream);
        lemma_same_advances(acked, fin_reached(st), stream);
        lemma_advances_trans(st, stream, acked, stream, fin_reached(st), stream);
    } else {
        lemma_same_advances(st, st, stream);
    }
}

pub proof fn lemma_reorder_advances(st: St, stream: Seq<Seq<u8>>)
    requires
        st.s.outbuf.len() > 0,
        st.s.sends(stream),
    ensures
        advances(st, stream, reordered(st), stream),
        reordered(st).s.outbuf.len() > 0,
    decreases st.s.recv.reorder_count,
{
    reveal(reordered);
    let f = fin_reached(st);
    lemma_fin_reached(st);
    lemma_fin_advances(st, stream);
    lemma_sends_after(st, f, stream, stream);
    if f.s.recv.reorder_count == 0 || f.s.next_in_order() is None {
    } else {
        let next = St { s: f.s.taken_up(), ..f };
        lemma_same_advances(f, next, stream);
        lemma_sends_after(f, next, stream, stream);
        lemma_reorder_advances(next, stream);
        lemma_advances_trans(st, stream, f, stream, next, stream);
        lemma_advances_trans(st, stream, next, stream, reordered(next), stream);
    }
}

pub proof fn lemma_taken_in_advances(st: St, f: Fields, data: Seq<u8>, stream: Seq<Seq<u8>>)
    requires
        st.s.wf(),
        st.s.sends(stream),
    ensures
        advances(st, stream, taken_in(st, f, data).1, stream),
{
    reveal(taken_in);
    lemma_slots(st.s);
    let after = taken_in(st, f, data).1;
    if f.packet_type == ST_STATE || !is_up(st.s.state) {
        lemma_same_advances(st, after, stream);
    } else if st.s.ahead(f.seq_nr) == 0 {
        reveal(received_in_order);
        let next = St { s: st.s.fin_noted(f).handed_up(data).advanced(), ..st };
        lemma_same_advances(st, next, stream);
        lemma_sends_after(st, next, stream, stream);
        lemma_reorder_advances(next, stream);
        let done = reordered(next);
        lemma_advances_trans(st, stream, next, stream, done, stream);
        lemma_sends_after(st, done, stream, stream);
        lemma_same_advances(done, after, stream);
        lemma_advances_trans(st, stream, done, stream, after, stream);
    } else {
        reveal(received_early);
        lemma_same_advances(st, after, stream);
    }
}

/// Whatever packet arrives, it does not disturb the stream.
pub proof fn lemma_arrival_advances(st: St, buf: Seq<u8>, syn: bool, stream: Seq<Seq<u8>>) -> (t:
    Seq<Seq<u8>>)
    requires
        st.s.wf(),
        buf.len() >= HEADER_SIZE,
        st.s.sends(stream),
    ensures
        advances(st, stream, arrived(st, buf, syn).1, t),
        joined(t) == joined(stream),
        t.len() - stream.len() <= OUTGOING_BUFFER_MAX_SIZE,
{
    reveal(arrived);
    lemma_slots(st.s);
    let after = arrived(st, buf, syn).1;
    let f = fields_of(buf);
    let e = exts_of(buf, st.s.extensions);
    let io = IoView { current_ms: st.io.now.ms, ..st.io };
    let s = SockView { extensions: e.bits, ..st.s };
    let heard = St { s: s.heard_from(f, io.current_ms), io };
    if f.packet_type >= ST_NUM_STATES || !st.s.ack_plausible(f) || e.end is None
        || syn {
        lemma_same_advances(st, after, stream);
        stream
    } else {
        lemma_exts_from(buf, HEADER_SIZE as int, buf[1], None, st.s.extensions);
        lemma_heard_from(s, f, io.current_ms);
        lemma_same_advances(st, heard, stream);
        lemma_sends_after(st, heard, stream, stream);
        let t = lemma_handled_advances(heard, f, e.selack, buf.skip(e.end->0), stream);
        lemma_advances_trans(st, stream, heard, stream, after, t);
        t
    }
}

pub proof fn lemma_handled_advances(
    st: St,
    f: Fields,
    selack: Option<Seq<u8>>,
    data: Seq<u8>,
    stream: Seq<Seq<u8>>,
) -> (t: Seq<Seq<u8>>)
    requires
        st.s.wf(),
        selack is Some ==> selack->0.len() <= MAX_MASK,
        st.s.sends(stream),
    ensures
        advances(st, stream, handled(st, f, selack, data).1, t),
        joined(t) == joined(stream),
        t.len() - stream.len() <= OUTGOING_BUFFER_MAX_SIZE,
{
    reveal(handled);
    lemma_slots(st.s);
    let after = handled(st, f, selack, data).1;
    if st.s.ahead(f.seq_nr) >= REORDER_BUFFER_MAX_SIZE {
        lemma_same_advances(st, after, stream);
        stream
    } else {
        lemma_measured(st.s, f, selack, st.io.now, st.io.current_ms);
        let m = St { s: st.s.measured(f, selack, st.io.now, st.io.current_ms), ..st };
        lemma_same_advances(st, m, stream);
        lemma_sends_after(st, m, stream, stream);
        lemma_progressed(m, f, selack);
        let t = lemma_progress_advances(m, f, selack, stream);
        let p = progressed(m, f, selack);
        lemma_sends_after(m, p, stream, t);
        lemma_taken_in_advances(p, f, data, t);
        lemma_advances_trans(st, stream, m, stream, p, t);
        lemma_advances_trans(st, stream, p, t, after, t);
        t
    }
}

} // verus!

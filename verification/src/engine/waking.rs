//! Users are woken: whatever changes for the user of a connection, the user is
//! told.

use crate::conn_shared::ConnView;
use crate::engine::acks::{lemma_oldest_acked, lemma_window_trimmed};
use crate::engine::deliver::{
    fin_reached, lemma_fin_reached, received_early, received_in_order, reordered,
};
use crate::engine::eack::lemma_selectively_acked;
use crate::engine::extensions::{exts_of, lemma_exts_from};
use crate::engine::incoming::{arrived, handled, lemma_heard_from, taken_in};
use crate::engine::link::{happened, Event};
use crate::engine::measure::{fields_of, lemma_measured, Fields};
use crate::engine::model::{flushed, St};
use crate::engine::mtu::lemma_search_keeps_order;
use crate::engine::progress::{
    fast_retried, lemma_fast_retried, lemma_nagle_flushed, lemma_queue_moved, lemma_state_moved,
    nagle_flushed, progressed, queue_moved, state_moved,
};
use crate::engine::state::{IoView, RecvSide, SendSide, SockView};
use crate::engine::timers::{
    carried_on, due_handled, lemma_backed_off, retried, rto_handled, timeouts_checked,
};
use crate::engine::transmit::{lemma_flushed_from, lemma_oldest_stays, lemma_packet_sent};
use crate::engine::write::{lemma_ack_sent, lemma_packet_written, lemma_written};
use crate::packet::{HEADER_SIZE, ST_FIN};
use vstd::prelude::*;

verus! {

/// Whether something has come about that a blocked user waits for: data, the
/// end of the stream, the completion of the connection, or its failure.
pub open spec fn news(a: ConnView, b: ConnView) -> bool {
    ||| b.read_buf.len() > a.read_buf.len()
    ||| b.got_eof && !a.got_eof
    ||| b.got_connect && !a.got_connect
    ||| b.error != a.error
    ||| b.destroyed && !a.destroyed
}

/// The user is told of all news, and being told is not undone.
pub open spec fn wakes(a: SockView, b: SockView) -> bool {
    &&& news(a.user, b.user) ==> b.user.notified
    &&& a.user.notified ==> b.user.notified
}

proof fn lemma_flush_user(st: St)
    requires
        st.s.wf(),
    ensures
        flushed(st).1.s.user == st.s.user,
        flushed(st).1.s.wf(),
        flushed(st).1.s.state == st.s.state,
{
    lemma_flushed_from(st, st.s.packet_size(), st.s.oldest_seq());
    lemma_oldest_stays(st.s, flushed(st).1.s);
}

proof fn lemma_due_wakes(st: St)
    requires
        st.s.wf(),
    ensures
        wakes(st.s, due_handled(st).s),
{
    reveal(due_handled);
    reveal(rto_handled);
    reveal(retried);
    let w = st.s.window_probed(st.io.current_ms);
    let g = w.probe_given_up(st.io.now.ms);
    if w.only_probe_out() {
        lemma_search_keeps_order(w.mtu, st.io.now.ms);
    }
    lemma_backed_off(g, st.io.current_ms, w.only_probe_out());
    let b = g.backed_off(st.io.current_ms, w.only_probe_out());
    if g.send.retransmit_count < 4 {
        lemma_packet_sent(St { s: b.retrying(), ..st }, b.oldest_seq());
    }
}

proof fn lemma_tick_wakes(st: St)
    requires
        st.s.wf(),
    ensures
        wakes(st.s, timeouts_checked(st).s),
{
    reveal(timeouts_checked);
    reveal(carried_on);
    lemma_flush_user(st);
    let f = flushed(st).1;
    lemma_due_wakes(f);
    let due = due_handled(f);
    let w = St { s: due.s.writable_again(due.io.current_ms), ..due };
    let before = RecvSide { ack_nr: w.s.recv.ack_nr.wrapping_sub(1), ..w.s.recv };
    lemma_ack_sent(St { s: SockView { recv: before, ..w.s }, ..w });
}

proof fn lemma_reordered_wakes(st: St)
    ensures
        wakes(st.s, reordered(st).s),
    decreases st.s.recv.reorder_count,
{
    reveal(reordered);
    let f = fin_reached(st);
    lemma_fin_reached(st);
    if f.s.recv.reorder_count == 0 || f.s.next_in_order() is None {
    } else {
        lemma_reordered_wakes(St { s: f.s.taken_up(), ..f });
    }
}

proof fn lemma_taken_in_wakes(st: St, f: Fields, data: Seq<u8>)
    ensures
        wakes(st.s, taken_in(st, f, data).1.s),
{
    reveal(taken_in);
    reveal(received_in_order);
    reveal(received_early);
    let noted = St { s: st.s.fin_noted(f), ..st };
    let next = St { s: noted.s.handed_up(data).advanced(), ..noted };
    lemma_reordered_wakes(next);
}

proof fn lemma_progress_wakes(st: St, f: Fields, selack: Option<Seq<u8>>)
    requires
        st.s.wf(),
        selack is Some ==> selack->0.len() <= 255,
    ensures
        wakes(st.s, progressed(st, f, selack).s),
{
    reveal(progressed);
    let acks = st.s.acks_of(f.ack_nr);
    let a = state_moved(st, f, acks);
    lemma_state_moved(st, f, acks);
    assert(wakes(st.s, a.s)) by {
        reveal(state_moved);
        let s = st.s.window_noted(f, st.io.current_ms).accepted(f);
        if s.completes(f) {
            lemma_written(St { s: s.connected(), ..st }, Seq::empty());
        }
    }
    let b = queue_moved(a, f, acks);
    lemma_queue_moved(a, f, acks);
    assert(b.s.user == a.s.user) by {
        reveal(queue_moved);
        let t = a.s.fast_resend_moved(f);
        lemma_oldest_acked(t, a.io.now, a.io.current_ms, acks as int);
        lemma_window_trimmed(t.oldest_acked(a.io.now, a.io.current_ms, acks as int));
    }
    let n = nagle_flushed(b);
    lemma_nagle_flushed(b);
    assert(n.s.user == b.s.user) by {
        reveal(nagle_flushed);
        lemma_packet_sent(b, b.s.send.seq_nr.wrapping_sub(1));
    }
    let c = fast_retried(n);
    lemma_fast_retried(n);
    assert(c.s.user == n.s.user) by {
        reveal(fast_retried);
        let s = SockView {
            send: SendSide {
                fast_resend_seq_nr: n.s.send.fast_resend_seq_nr.wrapping_add(1),
                ..n.s.send
            },
            ..n.s
        };
        lemma_packet_sent(St { s, ..n }, n.s.oldest_seq());
    }
    match selack {
        Some(mask) => lemma_selectively_acked(c, f.ack_nr.wrapping_add(2), mask),
        None => {},
    }
}

proof fn lemma_arrival_wakes(st: St, buf: Seq<u8>)
    requires
        st.s.wf(),
        buf.len() >= HEADER_SIZE,
    ensures
        wakes(st.s, arrived(st, buf, false).1.s),
{
    reveal(arrived);
    reveal(handled);
    let f = fields_of(buf);
    let e = exts_of(buf, st.s.extensions);
    let io = IoView { current_ms: st.io.now.ms, ..st.io };
    lemma_exts_from(buf, HEADER_SIZE as int, buf[1], None, st.s.extensions);
    let s = SockView { extensions: e.bits, ..st.s };
    let h = St { s: s.heard_from(f, io.current_ms), io };
    lemma_heard_from(s, f, io.current_ms);
    if e.end is Some {
        lemma_measured(h.s, f, e.selack, h.io.now, h.io.current_ms);
        let m = St { s: h.s.measured(f, e.selack, h.io.now, h.io.current_ms), ..h };
        lemma_progress_wakes(m, f, e.selack);
        lemma_taken_in_wakes(progressed(m, f, e.selack), f, buf.skip(e.end->0));
    }
}

/// Whatever happens to a connection, its user is told of what there is to know:
/// that there is data to read, that the stream has ended, that the connection
/// is up, or that it failed.
pub proof fn lemma_user_is_woken(st: St, e: Event)
    requires
        st.s.wf(),
        e.possible(st.s),
    ensures
        wakes(st.s, happened(st, e).s),
{
    match e {
        Event::Write(data) => lemma_written(st, data),
        Event::Read(n) => {},
        Event::Drained => lemma_ack_sent(st),
        Event::Close => {
            let s = st.s;
            let closed = SockView {
                recv: RecvSide { read_shutdown: true, ..s.recv },
                send: SendSide { close_requested: true, fin_sent: true, ..s.send },
                ..s
            };
            if !s.send.fin_sent {
                lemma_packet_written(St { s: closed, ..st }, ST_FIN, Seq::empty());
            }
        },
        Event::Tick => lemma_tick_wakes(st),
        Event::Ack => lemma_ack_sent(st),
        Event::Arrive(buf) => lemma_arrival_wakes(st, buf),
        Event::Reset => {},
    }
}

} // verus!

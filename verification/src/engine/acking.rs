//! What a socket acks, it has received.

use crate::circular::lemma_ring_size_16;
use crate::engine::deliver::{
    fin_reached, lemma_fin_reached, received_early, received_in_order, reordered,
};
use crate::engine::delivery::buffered;
use crate::engine::eack::{lemma_scanned, may_resend, resent, selectively_acked, Scan, MAX_MASK};
use crate::engine::extensions::{exts_from, exts_of, lemma_exts_from, EXT_BITS, EXT_SELACK};
use crate::engine::incoming::{arrived, handled, lemma_heard_from, taken_in};
use crate::engine::laws::lemma_ack_reads_back;
use crate::engine::link::{happened, Event};
use crate::engine::measure::{fields_of, lemma_measured, Fields};
use crate::engine::model::{
    ack_sent, data_sent, flushed, flushed_from, mask_bit, packet_sent, packet_written, stamped, St,
};
use crate::engine::mtu::lemma_search_keeps_order;
use crate::engine::progress::{
    fast_retried, lemma_fast_retried, lemma_nagle_flushed, lemma_queue_moved, lemma_state_moved,
    nagle_flushed, progressed, queue_moved, state_moved,
};
use crate::engine::queue::lemma_queue_at;
use crate::engine::state::{
    reorder_wf, ConnState, IoView, RecvSide, SendSide, SockView, MAX_PAYLOAD,
    OUTGOING_BUFFER_MAX_SIZE, REORDER_BUFFER_MAX_SIZE,
};
use crate::engine::stream::{
    carries, kept, lemma_flush_advances, lemma_kept_advances, lemma_packet_advances,
    lemma_packet_written_advances, lemma_queued_carried, lemma_same_advances, stream_queued,
};
use crate::engine::stream_steps::{
    lemma_fast_retried_advances, lemma_lost_kept, lemma_nagle_advances, lemma_queue_moved_advances,
    lemma_scanned_kept, lemma_sends_after, lemma_slots, lemma_state_advances,
};
use crate::engine::timers::{
    carried_on, due_handled, is_up, kept_alive, lemma_backed_off, lemma_due_handled, retried,
    rto_handled, timeouts_checked,
};
use crate::engine::transmit::{lemma_flushed_from, lemma_oldest_stays, lemma_packet_sent};
use crate::engine::write::{
    chunk_len, closing, lemma_packet_written, lemma_queued, writing, written,
};
use crate::packet::{
    be16, lemma_be16_round_trip, put_be16, HEADER_SIZE, ST_DATA, ST_FIN, ST_NUM_STATES, ST_STATE,
};
use vstd::arithmetic::div_mod::*;
use vstd::prelude::*;

verus! {

impl SockView {
    /// Whether the packet `d` past the next expected one has been received.
    pub open spec fn got_early(self, d: int) -> bool {
        0 <= d < self.inbuf.len() && buffered(self.inbuf, self.recv.ack_nr + 1, d) is Some
    }

    /// Whether `data` acks nothing but what the socket has received. Its ack
    /// number is `back` behind.
    pub open spec fn tells_back(self, data: Seq<u8>, back: int) -> bool {
        &&& 0 <= back <= 1
        &&& data.len() >= HEADER_SIZE
        &&& be16(data, 18) == (self.recv.ack_nr - back) % 0x10000
        &&& forall|bits: Seq<u8>, mask: Seq<u8>, i: int|
            #![trigger exts_of(data, bits), mask_bit(mask, i)]
            exts_of(data, bits).selack == Some(mask) && mask_bit(mask, i) ==> self.got_early(
                i + 1 - back,
            )
    }

    /// Whether `data` acks nothing but what the socket has received, all of
    /// that or all but the last packet.
    pub open spec fn tells(self, data: Seq<u8>) -> bool {
        self.tells_back(data, 0) || self.tells_back(data, 1)
    }
}

/// From `a` to `b` nothing is received, and all that is sent acks only what has
/// been.
#[verifier::opaque]
pub open spec fn told(a: St, b: St) -> bool {
    &&& b.s.recv.ack_nr == a.s.recv.ack_nr
    &&& b.s.inbuf == a.s.inbuf
    &&& a.io.outgoing.len() <= b.io.outgoing.len()
    &&& b.io.outgoing.take(a.io.outgoing.len() as int) == a.io.outgoing
    &&& forall|j: int|
        a.io.outgoing.len() <= j < b.io.outgoing.len() ==> a.s.tells(
            (#[trigger] b.io.outgoing[j]).data,
        )
}

proof fn lemma_told_trans(a: St, b: St, c: St)
    requires
        told(a, b),
        told(b, c),
    ensures
        told(a, c),
{
    reveal(told);
    let n = b.io.outgoing.len() as int;
    assert(c.io.outgoing.take(a.io.outgoing.len() as int) =~= c.io.outgoing.take(n).take(
        a.io.outgoing.len() as int,
    ));
    assert forall|j: int| a.io.outgoing.len() <= j < c.io.outgoing.len() implies a.s.tells(
        (#[trigger] c.io.outgoing[j]).data,
    ) by {
        if j < n {
            assert(c.io.outgoing.take(n)[j] == b.io.outgoing[j]);
        } else {
            let d = c.io.outgoing[j].data;
            assert(b.s.tells(d));
            lemma_tells_same(b.s, a.s, d);
        }
    }
}

/// What is told depends only on what was received.
proof fn lemma_tells_same(a: SockView, b: SockView, d: Seq<u8>)
    requires
        a.tells(d),
        b.recv.ack_nr == a.recv.ack_nr,
        b.inbuf == a.inbuf,
    ensures
        b.tells(d),
{
    let back: int = if a.tells_back(d, 0) {
        0
    } else {
        1
    };
    assert forall|bits: Seq<u8>, mask: Seq<u8>, i: int|
        #![trigger exts_of(d, bits), mask_bit(mask, i)]
        exts_of(d, bits).selack == Some(mask) && mask_bit(mask, i) implies b.got_early(
        i + 1 - back,
    ) by {
        assert(a.got_early(i + 1 - back));
    }
    assert(b.tells_back(d, back));
}

/// A step that sends nothing and receives nothing.
proof fn lemma_told_same(a: St, b: St)
    requires
        b.s.recv.ack_nr == a.s.recv.ack_nr,
        b.s.inbuf == a.s.inbuf,
        b.io.outgoing == a.io.outgoing,
    ensures
        told(a, b),
{
    reveal(told);
    assert(b.io.outgoing.take(a.io.outgoing.len() as int) =~= a.io.outgoing);
}

/// Extension headers do not depend on what comes before them.
proof fn lemma_exts_same(
    a: Seq<u8>,
    b: Seq<u8>,
    at: int,
    ext: u8,
    selack: Option<Seq<u8>>,
    bits: Seq<u8>,
)
    requires
        a.len() == b.len(),
        at >= HEADER_SIZE,
        forall|k: int| HEADER_SIZE <= k < a.len() ==> a[k] == b[k],
    ensures
        exts_from(a, at, ext, selack, bits) == exts_from(b, at, ext, selack, bits),
    decreases a.len() - at,
{
    let start = at + 2;
    if ext == 0 || start > a.len() || a.len() - start < a[start - 1] {
    } else {
        let len = a[start - 1] as int;
        let body = a.subrange(start, start + len);
        assert(body =~= b.subrange(start, start + len));
        if !(ext == EXT_BITS && len != 8) {
            lemma_exts_same(
                a,
                b,
                start + len,
                a[start - 2],
                if ext == EXT_SELACK {
                    Some(body)
                } else {
                    selack
                },
                if ext == EXT_BITS {
                    body
                } else {
                    bits
                },
            );
        }
    }
}

/// An ack of socket `s` tells what socket `t` has received, `back` before it.
proof fn lemma_ack_tells(s: SockView, t: SockView, data: Seq<u8>, back: int)
    requires
        0 <= back <= 1,
        s.recv.ack_nr == (t.recv.ack_nr - back) % 0x10000,
        s.inbuf == t.inbuf,
        s.recv.reorder_count == t.recv.reorder_count,
        s.recv.got_fin_reached == t.recv.got_fin_reached,
        s.sends_eack() ==> t.recv_wf(),
        data.len() == s.ack_bytes().len(),
        data[1] == s.ack_bytes()[1],
        be16(data, 18) == be16(s.ack_bytes(), 18),
        forall|k: int| HEADER_SIZE <= k < data.len() ==> data[k] == s.ack_bytes()[k],
    ensures
        t.tells_back(data, back),
{
    let b = s.ack_bytes();
    lemma_ack_reads_back(s, Seq::empty());
    assert(be16(b, 18) == s.recv.ack_nr);
    assert forall|bits: Seq<u8>, mask: Seq<u8>, i: int|
        #![trigger exts_of(data, bits), mask_bit(mask, i)]
        exts_of(data, bits).selack == Some(mask) && mask_bit(mask, i) implies t.got_early(
        i + 1 - back,
    ) by {
        lemma_exts_same(data, b, HEADER_SIZE as int, b[1], None, bits);
        lemma_ack_reads_back(s, bits);
        assert(exts_of(data, bits) == exts_of(b, bits));
        let m = exts_of(b, bits).selack->0;
        assert(m == mask);
        assert(forall|k: int| #[trigger] mask_bit(m, k) == s.has_segment(k));
        assert(s.has_segment(i));
        reveal(reorder_wf);
        let n = t.inbuf.len() as int;
        lemma_ring_size_16(n);
        let x = s.recv.ack_nr + i + 2;
        let y = t.recv.ack_nr + 1 + (i + 1 - back);
        assert(x % 0x10000 == y % 0x10000);
        assert(x % n == (x % 0x10000) % n);
        assert(y % n == (y % 0x10000) % n);
        if i + 1 - back == n {
            // that would be the next packet, which is not there
            lemma_mod_add_multiples_vanish(t.recv.ack_nr + 1, n);
            assert(y == n + (t.recv.ack_nr + 1));
        }
    }
}

proof fn lemma_told_ack(st: St)
    requires
        st.s.sends_eack() ==> st.s.recv_wf(),
    ensures
        told(st, ack_sent(st)),
{
    let s = SockView {
        send: SendSide { last_rcv_win: st.s.rcv_window(), ..st.s.send },
        ..st.s
    };
    let after = ack_sent(st);
    let data = stamped(St { s, ..st }, s.ack_bytes());
    assert({
        &&& after.s.recv == st.s.recv
        &&& after.s.inbuf == st.s.inbuf
        &&& after.io.outgoing == st.io.outgoing.push(after.io.outgoing.last())
        &&& after.io.outgoing.last().data == data
    }) by {
        reveal(ack_sent);
        reveal(data_sent);
    }
    lemma_ack_reads_back(s, Seq::empty());
    lemma_ack_tells(s, st.s, data, 0);
    reveal(told);
    assert(after.io.outgoing.take(st.io.outgoing.len() as int) =~= st.io.outgoing);
}

proof fn lemma_told_kept_alive(st: St)
    requires
        st.s.recv_wf(),
    ensures
        told(st, kept_alive(st)),
{
    let before = RecvSide { ack_nr: st.s.recv.ack_nr.wrapping_sub(1), ..st.s.recv };
    let b = St { s: SockView { recv: before, ..st.s }, ..st };
    let s = SockView {
        send: SendSide { last_rcv_win: b.s.rcv_window(), ..b.s.send },
        ..b.s
    };
    let after = kept_alive(st);
    if after == st {
        lemma_told_same(st, st);
    } else {
        let data = stamped(St { s, ..b }, s.ack_bytes());
        assert({
            &&& after.s.recv == st.s.recv
            &&& after.s.inbuf == st.s.inbuf
            &&& after.io.outgoing == st.io.outgoing.push(after.io.outgoing.last())
            &&& after.io.outgoing.last().data == data
        }) by {
            reveal(ack_sent);
            reveal(data_sent);
        }
        lemma_ack_reads_back(s, Seq::empty());
        lemma_ack_tells(s, st.s, data, 1);
        reveal(told);
        assert(after.io.outgoing.take(st.io.outgoing.len() as int) =~= st.io.outgoing);
    }
}

/// A packet of the stream acks all that was received in order.
proof fn lemma_told_packet(st: St, seq: u16, stream: Seq<Seq<u8>>)
    requires
        st.s.send_wf(),
        st.s.sends(stream),
    ensures
        told(st, packet_sent(st, seq)),
{
    let s = st.s;
    let after = packet_sent(st, seq);
    lemma_queue_at(
        s.outbuf,
        s.send.seq_nr,
        s.send.cur_window_packets,
        s.send.cur_window,
        seq as int,
    );
    match s.packet_at(seq) {
        None => {
            reveal(packet_sent);
            lemma_told_same(st, after);
        },
        Some(p) => {
            let data = put_be16(p.data, 18, s.recv.ack_nr as int);
            let out = stamped(st, data);
            assert({
                &&& after.s.recv == s.recv
                &&& after.s.inbuf == s.inbuf
                &&& after.io.outgoing == st.io.outgoing.push(after.io.outgoing.last())
                &&& after.io.outgoing.last().data == out
            }) by {
                reveal(packet_sent);
                reveal(data_sent);
            }
            assert(p.data[1] == 0) by {
                reveal(carries);
            }
            lemma_be16_round_trip(p.data, 18, s.recv.ack_nr);
            assert(out[1] == 0 && out.len() >= HEADER_SIZE);
            assert(be16(out, 18) == s.recv.ack_nr);
            assert(s.tells_back(out, 0));
            reveal(told);
            assert(after.io.outgoing.take(st.io.outgoing.len() as int) =~= st.io.outgoing);
        },
    }
}

proof fn lemma_told_flush(st: St, packet_size: usize, i: u16, stream: Seq<Seq<u8>>)
    requires
        st.s.send_wf(),
        st.s.mtu.wf(),
        st.s.sends(stream),
    ensures
        told(st, flushed_from(st, packet_size, i).1),
    decreases st.s.send.seq_nr.wrapping_sub(i),
{
    reveal(flushed_from);
    let s = st.s;
    if i == s.send.seq_nr {
        lemma_told_same(st, st);
    } else {
        match s.packet_at(i) {
            Some(p) if p.waiting() => {
                if s.full(usize::MAX) {
                    lemma_told_same(st, flushed_from(st, packet_size, i).1);
                } else if i != s.send.seq_nr.wrapping_sub(1) || s.send.cur_window_packets == 1
                    || p.payload >= packet_size {
                    lemma_packet_sent(st, i);
                    lemma_packet_advances(st, i, stream);
                    let next = packet_sent(st, i);
                    lemma_sends_after(st, next, stream, stream);
                    lemma_told_packet(st, i, stream);
                    lemma_told_flush(next, packet_size, i.wrapping_add(1), stream);
                    lemma_told_trans(
                        st,
                        next,
                        flushed_from(next, packet_size, i.wrapping_add(1)).1,
                    );
                } else {
                    lemma_told_flush(st, packet_size, i.wrapping_add(1), stream);
                }
            },
            _ => {
                lemma_told_flush(st, packet_size, i.wrapping_add(1), stream);
            },
        }
    }
}

proof fn lemma_told_packet_written(st: St, flags: u8, data: Seq<u8>, stream: Seq<Seq<u8>>)
    requires
        st.s.send_wf(),
        st.s.mtu.wf(),
        st.s.send.cur_window_packets < OUTGOING_BUFFER_MAX_SIZE - 1 || st.s.send.fin_sent
            && st.s.send.cur_window_packets < OUTGOING_BUFFER_MAX_SIZE,
        data.len() <= MAX_PAYLOAD,
        carries(st.s.outbuf, st.s.send.seq_nr, false, stream),
        flags == ST_FIN && st.s.send.fin_sent && data.len() == 0 || flags == ST_DATA,
    ensures
        told(st, packet_written(st, flags, data)),
{
    let send = if st.s.send.cur_window_packets == 0 {
        SendSide {
            retransmit_timeout: st.s.rtt.rto,
            rto_timeout: st.io.current_ms.wrapping_add(st.s.rtt.rto as u64),
            ..st.s.send
        }
    } else {
        st.s.send
    };
    let s = SockView { send: SendSide { last_rcv_win: st.s.rcv_window(), ..send }, ..st.s };
    let t = stream_queued(s, data, stream);
    lemma_queued_carried(s, flags, data, stream);
    lemma_queued(s, flags, data);
    let q = St { s: s.queued(flags, data), ..st };
    lemma_told_same(st, q);
    lemma_told_flush(q, q.s.packet_size(), q.s.oldest_seq(), t);
    lemma_told_trans(st, q, packet_written(st, flags, data));
}

proof fn lemma_told_writing(
    st: St,
    packet_size: usize,
    sent: int,
    rest: Seq<u8>,
    stream: Seq<Seq<u8>>,
)
    requires
        st.s.send_wf(),
        st.s.mtu.wf(),
        st.s.oldest_there(),
        st.s.state == ConnState::Connected,
        0 < packet_size <= MAX_PAYLOAD,
        st.s.sends(stream),
        !st.s.send.fin_sent,
    ensures
        told(st, writing(st, packet_size, sent, rest).1),
    decreases rest.len(),
{
    reveal(writing);
    let n = chunk_len(rest.len(), packet_size);
    let after = writing(st, packet_size, sent, rest).1;
    if st.s.full(n as usize) {
        lemma_told_same(st, after);
    } else {
        let next = packet_written(st, ST_DATA, rest.take(n));
        lemma_packet_written(st, ST_DATA, rest.take(n));
        lemma_told_packet_written(st, ST_DATA, rest.take(n), stream);
        let t = lemma_packet_written_advances(st, st, ST_DATA, rest.take(n), stream);
        if 0 < n < rest.len() {
            lemma_sends_after(st, next, stream, t);
            lemma_told_writing(next, packet_size, sent + n, rest.skip(n), t);
            lemma_told_trans(st, next, after);
        }
    }
}

proof fn lemma_told_written(st: St, data: Seq<u8>, stream: Seq<Seq<u8>>)
    requires
        st.s.wf(),
        st.s.sends(stream),
    ensures
        told(st, written(st, data).1),
{
    reveal(written);
    let after = written(st, data).1;
    if st.s.state != ConnState::Connected || st.s.send.fin_sent {
        lemma_told_same(st, after);
    } else {
        let timed = St { io: IoView { current_ms: st.io.now.ms, ..st.io }, ..st };
        lemma_told_same(st, timed);
        lemma_told_writing(timed, st.s.packet_size(), 0, data, stream);
        lemma_told_trans(st, timed, after);
    }
}

proof fn lemma_told_closing(st: St, stream: Seq<Seq<u8>>)
    requires
        st.s.wf(),
        st.s.sends(stream),
    ensures
        told(st, closing(st)),
{
    let s = st.s;
    let after = closing(st);
    if is_up(s.state) && !s.send.fin_sent {
        let closed = St {
            s: SockView {
                recv: RecvSide { read_shutdown: true, ..s.recv },
                send: SendSide { close_requested: true, fin_sent: true, ..s.send },
                ..s
            },
            ..st
        };
        lemma_told_same(st, closed);
        lemma_told_packet_written(closed, ST_FIN, Seq::empty(), stream);
        lemma_told_trans(st, closed, after);
    } else {
        lemma_told_same(st, after);
    }
}

proof fn lemma_told_resent(st: St, resends: Seq<u16>, done: int, stream: Seq<Seq<u8>>)
    requires
        st.s.send_wf(),
        st.s.mtu.wf(),
        st.s.sends(stream),
    ensures
        told(st, resent(st, resends, done).1),
    decreases resends.len(),
{
    reveal(resent);
    if resends.len() == 0 || done >= 4 {
        lemma_told_same(st, st);
    } else {
        let v = resends.last();
        if st.s.packet_at(v) is None {
            lemma_told_resent(st, resends.drop_last(), done, stream);
        } else {
            lemma_packet_sent(st, v);
            lemma_packet_advances(st, v, stream);
            lemma_told_packet(st, v, stream);
            let sent = packet_sent(st, v);
            lemma_sends_after(st, sent, stream, stream);
            let s = SockView {
                send: SendSide { fast_resend_seq_nr: v.wrapping_add(1), ..sent.s.send },
                ..sent.s
            };
            let next = St { s, ..sent };
            lemma_slots(sent.s);
            lemma_same_advances(sent, next, stream);
            lemma_sends_after(sent, next, stream, stream);
            lemma_told_same(sent, next);
            lemma_told_trans(st, sent, next);
            lemma_told_resent(next, resends.drop_last(), done + 1, stream);
            lemma_told_trans(st, next, resent(next, resends.drop_last(), done + 1).1);
        }
    }
}

proof fn lemma_told_eack(st: St, base: u16, mask: Seq<u8>, stream: Seq<Seq<u8>>)
    requires
        st.s.send_wf(),
        st.s.mtu.wf(),
        st.s.oldest_there(),
        mask.len() <= MAX_MASK,
        st.s.sends(stream),
    ensures
        told(st, selectively_acked(st, base, mask)),
{
    reveal(selectively_acked);
    let after = selectively_acked(st, base, mask);
    if st.s.send.cur_window_packets == 0 {
        lemma_told_same(st, after);
    } else {
        let start = Scan { s: st.s, count: 0, resends: Seq::empty() };
        let n = 8 * mask.len() as int;
        lemma_scanned(start, st.io.now, st.io.current_ms, base, mask, n);
        lemma_scanned_kept(start, st.io.now, st.io.current_ms, base, mask, n);
        let scan = start.scanned(st.io.now, st.io.current_ms, base, mask, n);
        let resends = if may_resend(scan.s, base.wrapping_sub(1), scan.count) {
            scan.resends.push(base.wrapping_sub(1))
        } else {
            scan.resends
        };
        let mid = St { s: scan.s, ..st };
        lemma_slots(st.s);
        lemma_kept_advances(st, mid, stream);
        lemma_sends_after(st, mid, stream, stream);
        lemma_told_same(st, mid);
        lemma_told_resent(mid, resends, 0, stream);
        let r = resent(mid, resends, 0).1;
        lemma_told_trans(st, mid, r);
        lemma_told_same(r, after);
        lemma_told_trans(st, r, after);
    }
}

proof fn lemma_told_due(st: St, stream: Seq<Seq<u8>>)
    requires
        st.s.wf(),
        st.s.sends(stream),
    ensures
        told(st, due_handled(st)),
{
    reveal(due_handled);
    reveal(rto_handled);
    reveal(retried);
    lemma_slots(st.s);
    let after = due_handled(st);
    let w = st.s.window_probed(st.io.current_ms);
    let g = w.probe_given_up(st.io.now.ms);
    if w.rto_expired(st.io.current_ms) && !(g.state == ConnState::SynRecv || g.out_of_retries()) {
        if w.only_probe_out() {
            lemma_search_keeps_order(w.mtu, st.io.now.ms);
        }
        let probe_only = w.only_probe_out();
        lemma_backed_off(g, st.io.current_ms, probe_only);
        let b = g.backed_off(st.io.current_ms, probe_only);
        let lost = St { s: b, ..st };
        lemma_told_same(st, lost);
        if b.send.cur_window_packets > 0 {
            let again = St { s: b.retrying(), ..st };
            assert(kept(st.s.outbuf, b.outbuf)) by {
                lemma_lost_kept(SockView { outbuf: st.s.outbuf, ..b });
            }
            lemma_kept_advances(st, again, stream);
            lemma_sends_after(st, again, stream, stream);
            lemma_told_same(st, again);
            lemma_told_packet(again, b.oldest_seq(), stream);
            lemma_told_trans(st, again, after);
        }
    } else {
        lemma_told_same(st, after);
    }
}

proof fn lemma_told_timeouts(st: St, stream: Seq<Seq<u8>>)
    requires
        st.s.wf(),
        st.s.sends(stream),
    ensures
        told(st, timeouts_checked(st)),
{
    reveal(timeouts_checked);
    let after = timeouts_checked(st);
    if st.s.state == ConnState::Destroy {
        lemma_told_same(st, after);
    } else {
        let f = flushed(st).1;
        lemma_flushed_from(st, st.s.packet_size(), st.s.oldest_seq());
        lemma_flush_advances(st, st.s.packet_size(), st.s.oldest_seq(), stream);
        lemma_oldest_stays(st.s, f.s);
        lemma_sends_after(st, f, stream, stream);
        lemma_told_flush(st, st.s.packet_size(), st.s.oldest_seq(), stream);
        if is_up(f.s.state) || f.s.state == ConnState::SynSent || f.s.state == ConnState::SynRecv {
            let d = due_handled(f);
            lemma_due_handled(f);
            lemma_told_due(f, stream);
            lemma_told_trans(st, f, d);
            reveal(carried_on);
            if d.s.state == ConnState::Destroy || d.s.state == ConnState::Reset {
            } else {
                let w = St { s: d.s.writable_again(d.io.current_ms), ..d };
                lemma_told_same(d, w);
                lemma_told_kept_alive(w);
                lemma_told_trans(d, w, kept_alive(w));
                lemma_told_trans(st, d, after);
            }
        }
    }
}

proof fn lemma_told_progress(st: St, f: Fields, selack: Option<Seq<u8>>, stream: Seq<Seq<u8>>)
    requires
        st.s.wf(),
        selack is Some ==> selack->0.len() <= MAX_MASK,
        st.s.sends(stream),
    ensures
        told(st, progressed(st, f, selack)),
{
    reveal(progressed);
    let acks = st.s.acks_of(f.ack_nr);
    let a = state_moved(st, f, acks);
    lemma_state_moved(st, f, acks);
    let t = lemma_state_advances(st, f, acks, stream);
    lemma_sends_after(st, a, stream, t);
    lemma_told_state(st, f, acks, stream);
    let b = queue_moved(a, f, acks);
    lemma_queue_moved(a, f, acks);
    lemma_queue_moved_advances(a, f, acks, t);
    lemma_sends_after(a, b, t, t);
    lemma_told_same(a, b);
    let n = nagle_flushed(b);
    lemma_nagle_flushed(b);
    lemma_nagle_advances(b, t);
    lemma_sends_after(b, n, t, t);
    assert(told(b, n)) by {
        reveal(nagle_flushed);
        lemma_told_same(b, b);
        lemma_told_packet(b, b.s.send.seq_nr.wrapping_sub(1), t);
    }
    let c = fast_retried(n);
    lemma_fast_retried(n);
    lemma_fast_retried_advances(n, t);
    lemma_sends_after(n, c, t, t);
    lemma_told_fast(n, t);
    lemma_told_trans(st, a, b);
    lemma_told_trans(st, b, n);
    lemma_told_trans(st, n, c);
    let d = match selack {
        Some(mask) => selectively_acked(c, f.ack_nr.wrapping_add(2), mask),
        None => c,
    };
    match selack {
        Some(mask) => {
            lemma_told_eack(c, f.ack_nr.wrapping_add(2), mask, t);
            lemma_told_trans(st, c, d);
        },
        None => {},
    }
    let after = progressed(st, f, selack);
    lemma_told_same(d, after);
    lemma_told_trans(st, d, after);
}

proof fn lemma_told_state(st: St, f: Fields, acks: u16, stream: Seq<Seq<u8>>)
    requires
        st.s.wf(),
        acks <= st.s.send.cur_window_packets,
        st.s.sends(stream),
    ensures
        told(st, state_moved(st, f, acks)),
{
    reveal(state_moved);
    lemma_slots(st.s);
    let after = state_moved(st, f, acks);
    let s = st.s.window_noted(f, st.io.current_ms).accepted(f);
    if s.completes(f) {
        let c = St { s: s.connected(), ..st };
        lemma_same_advances(st, c, stream);
        lemma_sends_after(st, c, stream, stream);
        lemma_told_same(st, c);
        lemma_told_written(c, Seq::empty(), stream);
        lemma_told_trans(st, c, after);
    } else {
        lemma_told_same(st, after);
    }
}

proof fn lemma_told_fast(st: St, stream: Seq<Seq<u8>>)
    requires
        st.s.wf(),
        st.s.sends(stream),
    ensures
        told(st, fast_retried(st)),
{
    reveal(fast_retried);
    lemma_slots(st.s);
    let oldest = st.s.oldest_seq();
    if st.s.send.fast_timeout && oldest == st.s.send.fast_resend_seq_nr && st.s.was_sent(oldest) {
        let s = SockView {
            send: SendSide {
                fast_resend_seq_nr: st.s.send.fast_resend_seq_nr.wrapping_add(1),
                ..st.s.send
            },
            ..st.s
        };
        let b = St { s, ..st };
        lemma_same_advances(st, b, stream);
        lemma_sends_after(st, b, stream, stream);
        lemma_told_same(st, b);
        lemma_told_packet(b, oldest, stream);
        lemma_told_trans(st, b, packet_sent(b, oldest));
    } else {
        lemma_told_same(st, fast_retried(st));
    }
}

/// All that is sent from `a` to `b` acks only what has been received by then.
#[verifier::opaque]
pub open spec fn tells_after(a: St, b: St) -> bool {
    &&& a.io.outgoing.len() <= b.io.outgoing.len()
    &&& b.io.outgoing.take(a.io.outgoing.len() as int) == a.io.outgoing
    &&& forall|j: int|
        a.io.outgoing.len() <= j < b.io.outgoing.len() ==> b.s.tells(
            (#[trigger] b.io.outgoing[j]).data,
        )
}

proof fn lemma_silent(a: St, b: St)
    requires
        b.io.outgoing == a.io.outgoing,
    ensures
        tells_after(a, b),
{
    reveal(tells_after);
    assert(b.io.outgoing.take(a.io.outgoing.len() as int) =~= a.io.outgoing);
}

/// Reaching the end of the stream is acked.
proof fn lemma_fin_tells(st: St)
    ensures
        tells_after(st, fin_reached(st)),
{
    reveal(fin_reached);
    if st.s.fin_is_next() {
        let e = St { s: st.s.ended(st.io.current_ms), ..st };
        lemma_told_ack(e);
        let acked = ack_sent(e);
        let f = fin_reached(st);
        reveal(told);
        reveal(tells_after);
        assert forall|j: int| st.io.outgoing.len() <= j < f.io.outgoing.len() implies f.s.tells(
            (#[trigger] f.io.outgoing[j]).data,
        ) by {
            lemma_tells_same(e.s, f.s, f.io.outgoing[j].data);
        }
    } else {
        lemma_silent(st, st);
    }
}

proof fn lemma_reordered_tells(st: St)
    ensures
        tells_after(st, reordered(st)),
    decreases st.s.recv.reorder_count,
{
    reveal(reordered);
    let f = fin_reached(st);
    lemma_fin_reached(st);
    lemma_fin_tells(st);
    if f.s.recv.reorder_count == 0 || f.s.next_in_order() is None {
    } else {
        // the end has not been reached yet, so nothing has been sent
        assert(!st.s.fin_is_next());
        let next = St { s: f.s.taken_up(), ..f };
        lemma_reordered_tells(next);
        reveal(tells_after);
    }
}

proof fn lemma_taken_in_tells(st: St, f: Fields, data: Seq<u8>)
    ensures
        tells_after(st, taken_in(st, f, data).1),
{
    reveal(taken_in);
    let after = taken_in(st, f, data).1;
    if f.packet_type == ST_STATE || !is_up(st.s.state) {
        lemma_silent(st, after);
    } else if st.s.ahead(f.seq_nr) == 0 {
        reveal(received_in_order);
        let next = St { s: st.s.fin_noted(f).handed_up(data).advanced(), ..st };
        lemma_reordered_tells(next);
        let done = reordered(next);
        reveal(tells_after);
        assert forall|j: int|
            st.io.outgoing.len() <= j < after.io.outgoing.len() implies after.s.tells(
            (#[trigger] after.io.outgoing[j]).data,
        ) by {
            lemma_tells_same(done.s, after.s, after.io.outgoing[j].data);
        }
    } else {
        reveal(received_early);
        lemma_silent(st, after);
    }
}

/// All that is sent from `a` to `b` acks only what has been received.
pub open spec fn speaks_true(a: St, b: St) -> bool {
    forall|j: int|
        a.io.outgoing.len() <= j < b.io.outgoing.len() ==> a.s.tells(
            (#[trigger] b.io.outgoing[j]).data,
        ) || b.s.tells(b.io.outgoing[j].data)
}

proof fn lemma_told_true(a: St, b: St)
    requires
        told(a, b),
    ensures
        speaks_true(a, b),
{
    reveal(told);
}

proof fn lemma_handled_true(
    st: St,
    f: Fields,
    selack: Option<Seq<u8>>,
    data: Seq<u8>,
    stream: Seq<Seq<u8>>,
)
    requires
        st.s.wf(),
        selack is Some ==> selack->0.len() <= MAX_MASK,
        st.s.sends(stream),
    ensures
        speaks_true(st, handled(st, f, selack, data).1),
{
    reveal(handled);
    let after = handled(st, f, selack, data).1;
    if st.s.ahead(f.seq_nr) < REORDER_BUFFER_MAX_SIZE {
        lemma_slots(st.s);
        lemma_measured(st.s, f, selack, st.io.now, st.io.current_ms);
        let m = St { s: st.s.measured(f, selack, st.io.now, st.io.current_ms), ..st };
        lemma_same_advances(st, m, stream);
        lemma_sends_after(st, m, stream, stream);
        lemma_told_same(st, m);
        lemma_told_progress(m, f, selack, stream);
        let p = progressed(m, f, selack);
        lemma_told_trans(st, m, p);
        lemma_taken_in_tells(p, f, data);
        reveal(told);
        reveal(tells_after);
        assert forall|j: int|
            st.io.outgoing.len() <= j < after.io.outgoing.len() implies st.s.tells(
            (#[trigger] after.io.outgoing[j]).data,
        ) || after.s.tells(after.io.outgoing[j].data) by {
            if j < p.io.outgoing.len() {
                assert(after.io.outgoing.take(p.io.outgoing.len() as int)[j] == p.io.outgoing[j]);
            }
        }
    }
}

/// Whatever happens to a socket past its handshake, what it sends acks only
/// what it has received.
pub proof fn lemma_event_speaks_true(st: St, e: Event, stream: Seq<Seq<u8>>)
    requires
        st.s.wf(),
        e.possible(st.s),
        st.s.sends(stream),
        st.s.state != ConnState::SynSent,
    ensures
        speaks_true(st, happened(st, e)),
{
    let after = happened(st, e);
    match e {
        Event::Write(data) => {
            lemma_told_written(st, data, stream);
            lemma_told_true(st, after);
        },
        Event::Read(n) => {},
        Event::Reset => {},
        Event::Drained => {
            lemma_told_ack(st);
            lemma_told_true(st, ack_sent(st));
        },
        Event::Close => {
            lemma_told_closing(st, stream);
            lemma_told_true(st, after);
        },
        Event::Tick => {
            lemma_told_timeouts(st, stream);
            lemma_told_true(st, after);
        },
        Event::Ack => {
            lemma_told_ack(st);
            lemma_told_true(st, after);
        },
        Event::Arrive(buf) => {
            reveal(arrived);
            lemma_slots(st.s);
            let f = fields_of(buf);
            let x = exts_of(buf, st.s.extensions);
            let io = IoView { current_ms: st.io.now.ms, ..st.io };
            lemma_exts_from(buf, HEADER_SIZE as int, buf[1], None, st.s.extensions);
            let s = SockView { extensions: x.bits, ..st.s };
            let h = St { s: s.heard_from(f, io.current_ms), io };
            lemma_heard_from(s, f, io.current_ms);
            if f.packet_type >= ST_NUM_STATES || !st.s.ack_plausible(f) || x.end is None {
            } else {
                lemma_same_advances(st, h, stream);
                lemma_sends_after(st, h, stream, stream);
                lemma_handled_true(h, f, x.selack, buf.skip(x.end->0), stream);
                assert forall|j: int|
                    st.io.outgoing.len() <= j < after.io.outgoing.len() implies st.s.tells(
                    (#[trigger] after.io.outgoing[j]).data,
                ) || after.s.tells(after.io.outgoing[j].data) by {
                    if h.s.tells(after.io.outgoing[j].data) {
                        lemma_tells_same(h.s, st.s, after.io.outgoing[j].data);
                    }
                }
            }
        },
    }
}

} // verus!

//! Flow control: how much is sent and accepted at a time.

use crate::engine::model::{data_sent, flushed, flushed_from, packet_sent, packet_written, St};
use crate::engine::queue::{lemma_queue_at, lemma_slots_differ};
use crate::engine::state::{
    queue_wf, ConnState, IoView, SendSide, SockView, OUTGOING_BUFFER_MAX_SIZE,
};
use crate::engine::transmit::{lemma_flushed_from, lemma_packet_sent};
use crate::engine::write::{
    chunk_len, lemma_packet_written, lemma_queued, lemma_with_extended, lemma_with_packet,
    lemma_writing, lemma_written, writing, written,
};
use crate::packet::ST_DATA;
use vstd::arithmetic::div_mod::*;
use vstd::prelude::*;

verus! {

/// The most bytes that may be in flight: what the congestion window, the send
/// buffer and the window that the peer advertised all allow.
pub open spec fn flight_limit(s: SockView) -> int {
    let ours = if s.cwnd.max_window < s.cwnd.opt_sndbuf {
        s.cwnd.max_window
    } else {
        s.cwnd.opt_sndbuf
    };
    if ours < s.send.max_window_user {
        ours as int
    } else {
        s.send.max_window_user as int
    }
}

/// The most payload that goes into a packet made now.
pub open spec fn full_payload(s: SockView) -> int {
    s.mtu.last - 20
}

/// Whether there is no room for `n` more bytes in flight.
pub open spec fn no_room(s: SockView, n: int) -> bool {
    s.send.cur_window_packets >= 1023 || s.send.cur_window + n > flight_limit(s)
}

/// Whether no packet that waits to be sent is larger, by more than `excess`,
/// than one made now. (One can be if the size in use has become smaller since
/// it was made.)
#[verifier::opaque]
pub open spec fn waiting_fit(s: SockView, excess: nat) -> bool {
    forall|k: int|
        0 <= k < s.outbuf.len() && (#[trigger] s.outbuf[k]) is Some && (s.outbuf[k]->0.transmissions
            == 0 || s.outbuf[k]->0.need_resend) ==> s.outbuf[k]->0.payload <= full_payload(s)
            + excess
}

/// Sending a packet touches no other.
proof fn lemma_others_stay(st: St, seq: u16)
    requires
        st.s.send_wf(),
        st.s.mtu.wf(),
    ensures
        ({
            let t = packet_sent(st, seq).s;
            let k = seq as int % st.s.outbuf.len() as int;
            &&& t.outbuf.len() == st.s.outbuf.len()
            &&& 0 <= k < t.outbuf.len()
            &&& forall|j: int| 0 <= j < t.outbuf.len() && j != k ==> (#[trigger] t.outbuf[j])
                == st.s.outbuf[j]
            &&& st.s.packet_at(seq) is Some ==> t.outbuf[k] is Some && t.outbuf[k]->0.payload
                == st.s.packet_at(seq)->0.payload && t.outbuf[k]->0.transmissions > 0
                && !t.outbuf[k]->0.need_resend
            &&& st.s.packet_at(seq) is None ==> t.outbuf[k] == st.s.outbuf[k]
        }),
{
    reveal(packet_sent);
    reveal(data_sent);
    lemma_queue_at(
        st.s.outbuf,
        st.s.send.seq_nr,
        st.s.send.cur_window_packets,
        st.s.send.cur_window,
        seq as int,
    );
}

proof fn lemma_sent_fits(st: St, seq: u16, excess: nat)
    requires
        st.s.send_wf(),
        st.s.mtu.wf(),
        waiting_fit(st.s, excess),
    ensures
        waiting_fit(packet_sent(st, seq).s, excess),
        st.s.packet_at(seq) is Some ==> packet_sent(st, seq).s.send.cur_window
            <= st.s.send.cur_window + full_payload(st.s) + excess,
{
    reveal(waiting_fit);
    lemma_others_stay(st, seq);
    lemma_packet_sent(st, seq);
    reveal(packet_sent);
    reveal(data_sent);
    lemma_queue_at(
        st.s.outbuf,
        st.s.send.seq_nr,
        st.s.send.cur_window_packets,
        st.s.send.cur_window,
        seq as int,
    );
}

proof fn lemma_flush_within(st: St, packet_size: usize, i: u16, excess: nat)
    requires
        st.s.send_wf(),
        st.s.mtu.wf(),
        waiting_fit(st.s, excess),
    ensures
        ({
            let after = flushed_from(st, packet_size, i).1.s;
            &&& waiting_fit(after, excess)
            &&& after.send.cur_window <= st.s.send.cur_window || after.send.cur_window
                <= flight_limit(st.s) + excess
        }),
    decreases st.s.send.seq_nr.wrapping_sub(i),
{
    reveal(flushed_from);
    if i != st.s.send.seq_nr {
        match st.s.packet_at(i) {
            Some(p) if p.waiting() => {
                if st.s.full(usize::MAX) {
                    assert(waiting_fit(st.s.asked_full(usize::MAX, st.io.current_ms), excess)) by {
                        reveal(waiting_fit);
                    }
                } else if i != st.s.send.seq_nr.wrapping_sub(1) || st.s.send.cur_window_packets == 1
                    || p.payload >= packet_size {
                    lemma_packet_sent(st, i);
                    lemma_sent_fits(st, i, excess);
                    lemma_flush_within(packet_sent(st, i), packet_size, i.wrapping_add(1), excess);
                } else {
                    lemma_flush_within(st, packet_size, i.wrapping_add(1), excess);
                }
            },
            _ => {
                lemma_flush_within(st, packet_size, i.wrapping_add(1), excess);
            },
        }
    }
}

/// Flushing never takes what is in flight above what the congestion window,
/// the send buffer and the peer's window allow.
pub proof fn lemma_flush_keeps_to_window(st: St, excess: nat)
    requires
        st.s.wf(),
        waiting_fit(st.s, excess),
    ensures
        ({
            let after = flushed(st).1.s;
            &&& after.send.cur_window <= st.s.send.cur_window || after.send.cur_window
                <= flight_limit(st.s) + excess
            &&& flight_limit(after) == flight_limit(st.s)
        }),
{
    lemma_flushed_from(st, st.s.packet_size(), st.s.oldest_seq());
    lemma_flush_within(st, st.s.packet_size(), st.s.oldest_seq(), excess);
}

/// Queueing data makes no packet that is too large.
proof fn lemma_queued_fits(s: SockView, flags: u8, data: Seq<u8>, excess: nat)
    requires
        s.send_wf(),
        s.mtu.wf(),
        s.send.cur_window_packets < OUTGOING_BUFFER_MAX_SIZE,
        data.len() <= full_payload(s),
        waiting_fit(s, excess),
    ensures
        waiting_fit(s.queued(flags, data), excess),
{
    let n = s.room_in_last(data.len() as int);
    if n == 0 {
        lemma_packet_fits(s, flags, data, excess);
    } else {
        lemma_extended_fits(s, flags, data.take(n), excess);
        assert(data.take(data.len() as int) =~= data);
        if n != data.len() {
            lemma_with_extended(s, flags, data.take(n));
            lemma_packet_fits(s.with_extended(flags, data.take(n)), flags, data.skip(n), excess);
        }
    }
}

proof fn lemma_packet_fits(s: SockView, flags: u8, data: Seq<u8>, excess: nat)
    requires
        queue_wf(s.outbuf, s.send.seq_nr, s.send.cur_window_packets, s.send.cur_window),
        s.mtu.wf(),
        s.send.cur_window_packets < OUTGOING_BUFFER_MAX_SIZE,
        data.len() <= full_payload(s),
        waiting_fit(s, excess),
    ensures
        waiting_fit(s.with_packet(flags, data), excess),
{
    reveal(waiting_fit);
    let t = s.with_packet(flags, data);
    let seq = s.send.seq_nr;
    let n = s.send.cur_window_packets;
    lemma_with_packet(s, flags, data);
    lemma_queue_at(t.outbuf, t.send.seq_nr, t.send.cur_window_packets, t.send.cur_window, 0);
    lemma_queue_at(s.outbuf, seq, n, s.send.cur_window, 0);
    let m = t.outbuf.len() as int;
    assert forall|k: int|
        0 <= k < m && (#[trigger] t.outbuf[k]) is Some && (t.outbuf[k]->0.transmissions == 0
            || t.outbuf[k]->0.need_resend) implies t.outbuf[k]->0.payload <= full_payload(t)
        + excess by {
        lemma_queue_at(t.outbuf, t.send.seq_nr, t.send.cur_window_packets, t.send.cur_window, k);
        lemma_small_mod(k as nat, m as nat);
        let p = t.outbuf[k]->0;
        let q = p.seq() as u16;
        assert(t.packet_at(q) == Some(p));
        if q != seq {
            assert((seq - 1 - q) % 0x10000 < n);
            assert(t.packet_at(q) == s.packet_at(q));
            lemma_queue_at(s.outbuf, seq, n, s.send.cur_window, q as int);
            assert(s.outbuf[q as int % s.outbuf.len() as int] == Some(p));
        }
    }
}

proof fn lemma_extended_fits(s: SockView, flags: u8, data: Seq<u8>, excess: nat)
    requires
        s.send_wf(),
        s.mtu.wf(),
        s.packet_at(s.send.seq_nr.wrapping_sub(1)) is Some,
        s.packet_at(s.send.seq_nr.wrapping_sub(1))->0.payload + data.len() <= full_payload(s),
        waiting_fit(s, excess),
    ensures
        waiting_fit(s.with_extended(flags, data), excess),
{
    reveal(waiting_fit);
    let last = s.send.seq_nr.wrapping_sub(1);
    lemma_queue_at(
        s.outbuf,
        s.send.seq_nr,
        s.send.cur_window_packets,
        s.send.cur_window,
        last as int,
    );
}

proof fn lemma_packet_written_within(st: St, flags: u8, data: Seq<u8>, excess: nat)
    requires
        st.s.send_wf(),
        st.s.mtu.wf(),
        st.s.send.cur_window_packets < OUTGOING_BUFFER_MAX_SIZE - 1,
        data.len() <= full_payload(st.s),
        waiting_fit(st.s, excess),
    ensures
        ({
            let after = packet_written(st, flags, data).s;
            &&& waiting_fit(after, excess)
            &&& after.send.cur_window <= st.s.send.cur_window || after.send.cur_window
                <= flight_limit(st.s) + excess
        }),
{
    let send = if st.s.send.cur_window_packets == 0 {
        SendSide {
            retransmit_timeout: st.s.rtt.rto,
            rto_timeout: st.io.current_ms.wrapping_add(st.s.rtt.rto as u64),
            ..st.s.send
        }
    } else {
        st.s.send
    };
    let s = SockView { send: SendSide { last_rcv_win: st.s.rcv_window(), ..send }, ..st.s };
    assert(waiting_fit(s, excess)) by {
        reveal(waiting_fit);
    }
    lemma_queued_fits(s, flags, data, excess);
    lemma_queued(s, flags, data);
    let q = St { s: s.queued(flags, data), ..st };
    lemma_flush_within(q, q.s.packet_size(), q.s.oldest_seq(), excess);
}

proof fn lemma_writing_within(st: St, packet_size: usize, sent: int, rest: Seq<u8>, excess: nat)
    requires
        st.s.send_wf(),
        st.s.mtu.wf(),
        packet_size == full_payload(st.s),
        waiting_fit(st.s, excess),
    ensures
        ({
            let after = writing(st, packet_size, sent, rest).1.s;
            &&& waiting_fit(after, excess)
            &&& after.send.cur_window <= st.s.send.cur_window || after.send.cur_window
                <= flight_limit(st.s) + excess
        }),
    decreases rest.len(),
{
    reveal(writing);
    let n = chunk_len(rest.len(), packet_size);
    if st.s.full(n as usize) {
        assert(waiting_fit(writing(st, packet_size, sent, rest).1.s, excess)) by {
            reveal(waiting_fit);
        }
    } else {
        let next = packet_written(st, ST_DATA, rest.take(n));
        lemma_packet_written(st, ST_DATA, rest.take(n));
        lemma_packet_written_within(st, ST_DATA, rest.take(n), excess);
        if 0 < n < rest.len() {
            lemma_writing_within(next, packet_size, sent + n, rest.skip(n), excess);
        }
    }
}

/// Writing never takes what is in flight above what the congestion window, the
/// send buffer and the peer's window allow.
pub proof fn lemma_write_keeps_to_window(st: St, data: Seq<u8>, excess: nat)
    requires
        st.s.wf(),
        waiting_fit(st.s, excess),
    ensures
        ({
            let after = written(st, data).1.s;
            &&& after.send.cur_window <= st.s.send.cur_window || after.send.cur_window
                <= flight_limit(st.s) + excess
            &&& flight_limit(after) == flight_limit(st.s)
            &&& waiting_fit(after, excess)
        }),
{
    lemma_written(st, data);
    reveal(written);
    if st.s.state == ConnState::Connected && !st.s.send.fin_sent {
        lemma_writing_within(
            St { io: IoView { current_ms: st.io.now.ms, ..st.io }, ..st },
            st.s.packet_size(),
            0,
            data,
            excess,
        );
    }
}

/// No packet is larger than the largest size that is ever in use, so that the
/// windows are kept to within the difference of that and the size in use.
pub proof fn lemma_waiting_fit_somehow(s: SockView)
    requires
        s.wf(),
    ensures
        waiting_fit(s, (1382 - full_payload(s)) as nat),
{
    reveal(waiting_fit);
    assert forall|k: int|
        0 <= k < s.outbuf.len() && (#[trigger] s.outbuf[k]) is Some implies s.outbuf[k]->0.payload
        <= 1382 by {
        lemma_queue_at(
            s.outbuf,
            s.send.seq_nr,
            s.send.cur_window_packets,
            s.send.cur_window,
            k,
        );
        lemma_small_mod(k as nat, s.outbuf.len());
    }
}

/// How many bytes of a write of `len` go into its first packet.
pub open spec fn first_chunk(s: SockView, len: nat) -> int {
    if len < full_payload(s) {
        len as int
    } else {
        full_payload(s)
    }
}

proof fn lemma_writing_stops(st: St, packet_size: usize, sent: int, rest: Seq<u8>)
    requires
        st.s.send_wf(),
        st.s.mtu.wf(),
        st.s.oldest_there(),
        st.s.state == ConnState::Connected,
        packet_size == full_payload(st.s),
        rest.len() > 0,
    ensures
        ({
            let (n, after) = writing(st, packet_size, sent, rest);
            &&& n == sent <==> no_room(st.s, first_chunk(st.s, rest.len()))
            &&& n < sent + rest.len() ==> no_room(
                after.s,
                first_chunk(after.s, (sent + rest.len() - n) as nat),
            )
            &&& after.s.state == ConnState::ConnectedFull ==> no_room(
                after.s,
                full_payload(after.s),
            )
            &&& n < sent + rest.len() && no_room(after.s, full_payload(after.s)) ==> after.s.state
                == ConnState::ConnectedFull
        }),
    decreases rest.len(),
{
    reveal(writing);
    lemma_writing(st, packet_size, sent, rest);
    let n = chunk_len(rest.len(), packet_size);
    if !st.s.full(n as usize) {
        let next = packet_written(st, ST_DATA, rest.take(n));
        lemma_packet_written(st, ST_DATA, rest.take(n));
        if 0 < n < rest.len() {
            lemma_writing_stops(next, packet_size, sent + n, rest.skip(n));
            lemma_writing(next, packet_size, sent + n, rest.skip(n));
        }
    }
}

/// A write is accepted as far as there is room: nothing is if there is none for
/// its first packet, and it stops short only where there is none for the next.
/// The connection is full when there is none for a full packet.
pub proof fn lemma_write_fills_the_window(st: St, data: Seq<u8>)
    requires
        st.s.wf(),
        data.len() > 0,
    ensures
        ({
            let (n, after) = written(st, data);
            let open = st.s.state == ConnState::Connected && !st.s.send.fin_sent;
            &&& n > 0 <==> open && !no_room(st.s, first_chunk(st.s, data.len()))
            &&& open && n < data.len() ==> no_room(
                after.s,
                first_chunk(after.s, (data.len() - n) as nat),
            )
            &&& open && after.s.state == ConnState::ConnectedFull ==> no_room(
                after.s,
                full_payload(after.s),
            )
            &&& open && n < data.len() && no_room(after.s, full_payload(after.s)) ==> after.s.state
                == ConnState::ConnectedFull
        }),
{
    reveal(written);
    lemma_written(st, data);
    if st.s.state == ConnState::Connected && !st.s.send.fin_sent {
        lemma_writing_stops(
            St { io: IoView { current_ms: st.io.now.ms, ..st.io }, ..st },
            st.s.packet_size(),
            0,
            data,
        );
    }
}

/// A flush from number `i` on leaves what is before it in the window.
proof fn lemma_flush_leaves(st: St, packet_size: usize, i: u16, q: u16)
    requires
        st.s.send_wf(),
        st.s.mtu.wf(),
        (st.s.send.seq_nr - i) % 0x10000 <= st.s.send.cur_window_packets,
        (st.s.send.seq_nr - i) % 0x10000 <= (st.s.send.seq_nr - 1 - q) % 0x10000
            < st.s.send.cur_window_packets,
    ensures
        flushed_from(st, packet_size, i).1.s.packet_at(q) == st.s.packet_at(q),
    decreases st.s.send.seq_nr.wrapping_sub(i),
{
    reveal(flushed_from);
    if i != st.s.send.seq_nr {
        lemma_step(st.s.send.seq_nr as int, i as int, q as int);
        match st.s.packet_at(i) {
            Some(p) if p.waiting() => {
                if st.s.full(usize::MAX) {
                } else if i != st.s.send.seq_nr.wrapping_sub(1) || st.s.send.cur_window_packets == 1
                    || p.payload >= packet_size {
                    lemma_packet_sent(st, i);
                    lemma_others_stay(st, i);
                    lemma_slots_differ(
                        st.s.outbuf,
                        st.s.send.seq_nr,
                        st.s.send.cur_window_packets,
                        st.s.send.cur_window,
                        i,
                        q,
                    );
                    lemma_queue_at(
                        st.s.outbuf,
                        st.s.send.seq_nr,
                        st.s.send.cur_window_packets,
                        st.s.send.cur_window,
                        q as int,
                    );
                    lemma_flush_leaves(packet_sent(st, i), packet_size, i.wrapping_add(1), q);
                } else {
                    lemma_flush_leaves(st, packet_size, i.wrapping_add(1), q);
                }
            },
            _ => {
                lemma_flush_leaves(st, packet_size, i.wrapping_add(1), q);
            },
        }
    }
}

/// One number closer to `s`.
proof fn lemma_step(s: int, i: int, q: int)
    requires
        0 <= s < 0x10000,
        0 <= i < 0x10000,
        0 <= q < 0x10000,
        s != i,
    ensures
        (s - (i + 1) % 0x10000) % 0x10000 == (s - i) % 0x10000 - 1,
        (s - 1 - i) % 0x10000 == (s - i) % 0x10000 - 1,
        (s - i) % 0x10000 <= (s - 1 - q) % 0x10000 ==> q != i,
        (s - 1 - q) % 0x10000 < (s - i) % 0x10000 && q != i ==> (s - 1 - q) % 0x10000 < (s - i)
            % 0x10000 - 1,
{
}

/// Whether a packet waits to be sent for the first time or again.
pub open spec fn waits(s: SockView, q: u16) -> bool {
    s.packet_at(q) is Some && (s.packet_at(q)->0.transmissions == 0 || s.packet_at(
        q,
    )->0.need_resend)
}

proof fn lemma_flush_sends(st: St, packet_size: usize, i: u16, q: u16)
    requires
        st.s.send_wf(),
        st.s.mtu.wf(),
        packet_size == full_payload(st.s),
        (st.s.send.seq_nr - i) % 0x10000 <= st.s.send.cur_window_packets,
        (st.s.send.seq_nr - 1 - q) % 0x10000 < (st.s.send.seq_nr - i) % 0x10000,
    ensures
        ({
            let (ran_out, after) = flushed_from(st, packet_size, i);
            let held = (st.s.send.seq_nr - 1 - q) % 0x10000 == 0 && st.s.send.cur_window_packets > 1
                && st.s.packet_at(q) is Some && st.s.packet_at(q)->0.payload < full_payload(st.s);
            &&& ran_out ==> no_room(after.s, full_payload(after.s))
            &&& !ran_out && !held ==> !waits(after.s, q)
            &&& held ==> after.s.packet_at(q) == st.s.packet_at(q) || !waits(st.s, q)
        }),
    decreases st.s.send.seq_nr.wrapping_sub(i),
{
    reveal(flushed_from);
    if i != st.s.send.seq_nr {
        lemma_step(st.s.send.seq_nr as int, i as int, q as int);
        let next = i.wrapping_add(1);
        match st.s.packet_at(i) {
            Some(p) if p.waiting() => {
                if st.s.full(usize::MAX) {
                } else if i != st.s.send.seq_nr.wrapping_sub(1) || st.s.send.cur_window_packets == 1
                    || p.payload >= packet_size {
                    let t = packet_sent(st, i);
                    lemma_packet_sent(st, i);
                    lemma_others_stay(st, i);
                    lemma_queue_at(
                        st.s.outbuf,
                        st.s.send.seq_nr,
                        st.s.send.cur_window_packets,
                        st.s.send.cur_window,
                        q as int,
                    );
                    if q == i {
                        lemma_flush_leaves(t, packet_size, next, q);
                        lemma_flush_ran_out(t, packet_size, next);
                    } else {
                        lemma_slots_differ(
                            st.s.outbuf,
                            st.s.send.seq_nr,
                            st.s.send.cur_window_packets,
                            st.s.send.cur_window,
                            i,
                            q,
                        );
                        lemma_flush_sends(t, packet_size, next, q);
                    }
                } else if q == i {
                    lemma_flush_leaves(st, packet_size, next, q);
                    lemma_flush_ran_out(st, packet_size, next);
                } else {
                    lemma_flush_sends(st, packet_size, next, q);
                }
            },
            _ => {
                if q == i {
                    lemma_flush_leaves(st, packet_size, next, q);
                    lemma_flush_ran_out(st, packet_size, next);
                } else {
                    lemma_flush_sends(st, packet_size, next, q);
                }
            },
        }
    }
}

/// A flush that stops has run out of room.
proof fn lemma_flush_ran_out(st: St, packet_size: usize, i: u16)
    requires
        st.s.send_wf(),
        st.s.mtu.wf(),
    ensures
        ({
            let (ran_out, after) = flushed_from(st, packet_size, i);
            ran_out ==> no_room(after.s, full_payload(after.s))
        }),
    decreases st.s.send.seq_nr.wrapping_sub(i),
{
    reveal(flushed_from);
    if i != st.s.send.seq_nr {
        match st.s.packet_at(i) {
            Some(p) if p.waiting() => {
                if st.s.full(usize::MAX) {
                } else if i != st.s.send.seq_nr.wrapping_sub(1) || st.s.send.cur_window_packets == 1
                    || p.payload >= packet_size {
                    lemma_packet_sent(st, i);
                    lemma_flush_ran_out(packet_sent(st, i), packet_size, i.wrapping_add(1));
                } else {
                    lemma_flush_ran_out(st, packet_size, i.wrapping_add(1));
                }
            },
            _ => {
                lemma_flush_ran_out(st, packet_size, i.wrapping_add(1));
            },
        }
    }
}

/// After a flush nothing waits that could have been sent: what still does is
/// for want of room, or it is the newest packet, is small, and others are
/// outstanding. Such a packet is held back even if there is room.
pub proof fn lemma_flush_sends_what_waits(st: St, q: u16)
    requires
        st.s.wf(),
        (st.s.send.seq_nr - 1 - q) % 0x10000 < st.s.send.cur_window_packets,
    ensures
        ({
            let (ran_out, after) = flushed(st);
            let held = (st.s.send.seq_nr - 1 - q) % 0x10000 == 0 && st.s.send.cur_window_packets > 1
                && st.s.packet_at(q) is Some && st.s.packet_at(q)->0.payload < full_payload(st.s);
            &&& waits(after.s, q) ==> held || no_room(after.s, full_payload(after.s))
            &&& held && waits(st.s, q) ==> after.s.packet_at(q) == st.s.packet_at(q)
            &&& ran_out ==> no_room(after.s, full_payload(after.s))
        }),
{
    lemma_queue_at(
        st.s.outbuf,
        st.s.send.seq_nr,
        st.s.send.cur_window_packets,
        st.s.send.cur_window,
        q as int,
    );
    lemma_flush_sends(st, st.s.packet_size(), st.s.oldest_seq(), q);
}

} // verus!

//! What becomes of what a user writes.

use crate::engine::flow::{full_payload, no_room};
use crate::engine::model::{data_sent, flushed, flushed_from, packet_sent, packet_written, St};
use crate::engine::queue::{lemma_flight_bound, lemma_queue_at};
use crate::engine::state::{ConnState, IoView, SendSide, SockView};
use crate::engine::timing::lemma_packet_tells_all;
use crate::engine::transmit::{lemma_flushed_from, lemma_packet_sent, lemma_same_contents_at};
use crate::engine::write::{
    chunk_len, lemma_new_packet, lemma_packet_written, lemma_with_extended, lemma_with_packet,
    new_packet, writing, written,
};
use crate::packet::{be16, be32, ST_DATA};
use vstd::prelude::*;

verus! {

/// The room that is left for the peer's data.
pub open spec fn rcv_room(s: SockView) -> int {
    if s.user.read_buf.len() < s.recv.opt_rcvbuf {
        s.recv.opt_rcvbuf - s.user.read_buf.len()
    } else {
        0
    }
}

/// The header of a new packet: its type, the id that the peer knows the
/// connection by, and how much room there is for the peer's data.
proof fn lemma_new_header(s: SockView, flags: u8, data: Seq<u8>)
    requires
        flags <= 4,
        data.len() <= 1382,
    ensures
        ({
            let d = new_packet(s, flags, data).data;
            &&& d.len() == 20 + data.len()
            &&& d[0] == 16 * flags + 1
            &&& d[1] == 0
            &&& be16(d, 2) == s.peer.conn_id_send as int % 0x10000
            &&& be32(d, 12) == s.send.last_rcv_win as int % 0x1_0000_0000
            &&& be16(d, 16) == s.send.seq_nr
            &&& d.skip(20) == data
        }),
{
    lemma_new_packet(s, flags, data);
    let d = new_packet(s, flags, data).data;
    let c: u32 = s.peer.conn_id_send;
    assert(c as u16 == c % 0x10000) by (bit_vector);
    let w: usize = s.send.last_rcv_win;
    assert(w as u32 == w as u64 % 0x1_0000_0000) by (bit_vector);
    let v: u32 = w as u32;
    assert(d[12] == (v / 0x100_0000) as u8);
    assert(d[13] == (v / 0x1_0000 % 256) as u8);
    assert(d[14] == (v / 256 % 256) as u8);
    assert(d[15] == (v % 256) as u8);
    assert(be32(d, 12) == v);
    assert(d[2] == (c as u16 / 256) as u8);
    assert(d[3] == (c as u16 % 256) as u8);
}

/// What is written to a connection with nothing outstanding, if it fits one
/// packet and the window, goes out at once: as one packet with the next number,
/// the data, and the room that there is for the peer's. From then on an ack is
/// waited for.
pub proof fn lemma_write_goes_out_at_once(st: St, data: Seq<u8>)
    requires
        st.s.wf(),
        st.s.state == ConnState::Connected,
        !st.s.send.fin_sent,
        st.s.send.cur_window_packets == 0,
        0 < data.len() <= full_payload(st.s),
        !no_room(st.s, full_payload(st.s)),
        st.io.now.ms < 0x8000_0000_0000_0000,
    ensures
        ({
            let (n, after) = written(st, data);
            let d = after.io.outgoing.last();
            &&& n == data.len()
            &&& after.io.outgoing.len() == st.io.outgoing.len() + 1
            &&& after.io.outgoing.drop_last() == st.io.outgoing
            &&& d.addr == st.s.peer.key.addr
            &&& d.data[0] == 0x01
            &&& d.data[1] == 0
            &&& be16(d.data, 2) == st.s.peer.conn_id_send as int % 0x10000
            &&& be32(d.data, 12) == rcv_room(st.s) % 0x1_0000_0000
            &&& be16(d.data, 16) == st.s.send.seq_nr
            &&& be16(d.data, 18) == st.s.recv.ack_nr
            &&& d.data.skip(20) == data
            &&& after.s.send.seq_nr == (st.s.send.seq_nr + 1) % 0x10000
            &&& after.s.send.cur_window_packets == 1
            &&& after.s.send.cur_window == data.len()
            &&& after.s.send.rto_timeout == st.io.now.ms + st.s.rtt.rto
            &&& after.s.send.retransmit_timeout == st.s.rtt.rto
            &&& !after.s.in_ack_list
        }),
{
    reveal(written);
    reveal(writing);
    let w = St { io: IoView { current_ms: st.io.now.ms, ..st.io }, ..st };
    assert(data.take(data.len() as int) =~= data);
    assert(written(st, data) == (data.len() as int, packet_written(w, ST_DATA, data)));
    lemma_idle_packet(w, data);
}

proof fn lemma_idle_packet(st: St, data: Seq<u8>)
    requires
        st.s.wf(),
        st.s.state == ConnState::Connected,
        !st.s.send.fin_sent,
        st.s.send.cur_window_packets == 0,
        0 < data.len() <= full_payload(st.s),
        !no_room(st.s, full_payload(st.s)),
        st.io.current_ms < 0x8000_0000_0000_0000,
    ensures
        ({
            let after = packet_written(st, ST_DATA, data);
            let d = after.io.outgoing.last();
            &&& after.io.outgoing.len() == st.io.outgoing.len() + 1
            &&& after.io.outgoing.drop_last() == st.io.outgoing
            &&& d.addr == st.s.peer.key.addr
            &&& d.data[0] == 0x01
            &&& d.data[1] == 0
            &&& be16(d.data, 2) == st.s.peer.conn_id_send as int % 0x10000
            &&& be32(d.data, 12) == rcv_room(st.s) % 0x1_0000_0000
            &&& be16(d.data, 16) == st.s.send.seq_nr
            &&& be16(d.data, 18) == st.s.recv.ack_nr
            &&& d.data.skip(20) == data
            &&& after.s.send.seq_nr == (st.s.send.seq_nr + 1) % 0x10000
            &&& after.s.send.cur_window_packets == 1
            &&& after.s.send.cur_window == data.len()
            &&& after.s.send.rto_timeout == st.io.current_ms + st.s.rtt.rto
            &&& after.s.send.retransmit_timeout == st.s.rtt.rto
            &&& !after.s.in_ack_list
        }),
{
    let s = SockView {
        send: SendSide {
            retransmit_timeout: st.s.rtt.rto,
            rto_timeout: st.io.current_ms.wrapping_add(st.s.rtt.rto as u64),
            last_rcv_win: st.s.rcv_window(),
            ..st.s.send
        },
        ..st.s
    };
    assert(s.room_in_last(data.len() as int) == 0);
    lemma_queue_at(
        s.outbuf,
        s.send.seq_nr,
        s.send.cur_window_packets,
        s.send.cur_window,
        0,
    );
    lemma_flight_bound(
        s.outbuf,
        s.send.seq_nr,
        s.send.cur_window_packets,
        s.send.cur_window,
    );
    lemma_with_packet(s, ST_DATA, data);
    let q = St { s: s.with_packet(ST_DATA, data), ..st };
    let seq = s.send.seq_nr;
    let p = new_packet(s, ST_DATA, data);
    assert(packet_written(st, ST_DATA, data) == flushed(q).1);
    assert(q.s.packet_at(seq) == Some(p));
    assert(q.s.oldest_seq() == seq);
    lemma_packet_sent(q, seq);
    let sent = packet_sent(q, seq);
    assert(flushed(q).1 == sent) by {
        reveal_with_fuel(flushed_from, 2);
        reveal(flushed_from);
        assert(flushed_from(sent, q.s.packet_size(), seq.wrapping_add(1)).1 == sent);
    }
    lemma_packet_tells_all(q, seq);
    lemma_new_header(s, ST_DATA, data);
    let d = sent.io.outgoing.last().data;
    assert(d.take(4)[0] == p.data.take(4)[0]);
    assert(d.take(4)[1] == p.data.take(4)[1]);
    assert(d.take(4)[2] == p.data.take(4)[2]);
    assert(d.take(4)[3] == p.data.take(4)[3]);
    lemma_middle_kept(q, seq);
}

/// Sending a packet leaves the window that it tells of alone.
proof fn lemma_middle_kept(st: St, seq: u16)
    requires
        st.s.send_wf(),
        st.s.packet_at(seq) is Some,
    ensures
        be32(packet_sent(st, seq).io.outgoing.last().data, 12) == be32(
            st.s.packet_at(seq)->0.data,
            12,
        ),
{
    reveal(packet_sent);
    reveal(data_sent);
    lemma_queue_at(
        st.s.outbuf,
        st.s.send.seq_nr,
        st.s.send.cur_window_packets,
        st.s.send.cur_window,
        seq as int,
    );
}

/// What is written while the newest packet has not been sent yet fills that up,
/// as far as it has room, before it makes another.
pub proof fn lemma_write_fills_newest(st: St, data: Seq<u8>, p: u16)
    requires
        st.s.wf(),
        st.s.state == ConnState::Connected,
        !st.s.send.fin_sent,
        st.s.send.cur_window_packets > 0,
        p == (st.s.send.seq_nr - 1) % 0x10000,
        st.s.packet_at(p) is Some,
        st.s.packet_at(p)->0.transmissions == 0,
        data.len() > 0,
        st.s.packet_at(p)->0.payload + data.len() <= full_payload(st.s),
        !no_room(st.s, data.len() as int),
    ensures
        ({
            let (n, after) = written(st, data);
            &&& n == data.len()
            &&& after.s.send.seq_nr == st.s.send.seq_nr
            &&& after.s.send.cur_window_packets == st.s.send.cur_window_packets
            &&& after.s.packet_at(p) is Some
            &&& after.s.packet_at(p)->0.data.skip(20) == st.s.packet_at(p)->0.data.skip(20) + data
        }),
{
    reveal(written);
    reveal(writing);
    let w = St { io: IoView { current_ms: st.io.now.ms, ..st.io }, ..st };
    assert(data.take(data.len() as int) =~= data);
    let s = SockView {
        send: SendSide { last_rcv_win: st.s.rcv_window(), ..st.s.send },
        ..st.s
    };
    assert(s.room_in_last(data.len() as int) == data.len());
    lemma_with_extended(s, ST_DATA, data);
    let q = St { s: s.with_extended(ST_DATA, data), ..w };
    assert(written(st, data) == (data.len() as int, flushed(q).1));
    lemma_flushed_from(q, q.s.packet_size(), q.s.oldest_seq());
    lemma_queue_at(
        q.s.outbuf,
        q.s.send.seq_nr,
        q.s.send.cur_window_packets,
        q.s.send.cur_window,
        p as int,
    );
    lemma_same_contents_at(
        q.s.outbuf,
        flushed(q).1.s.outbuf,
        p as int,
    );
}

proof fn lemma_writing_notes(st: St, packet_size: usize, sent: int, rest: Seq<u8>)
    requires
        st.s.send_wf(),
        st.s.mtu.wf(),
        st.s.oldest_there(),
        st.s.state == ConnState::Connected,
        packet_size == full_payload(st.s),
    ensures
        ({
            let (n, after) = writing(st, packet_size, sent, rest);
            n < sent + rest.len() ==> after.s.cwnd.last_maxed_out_window == st.io.current_ms
        }),
    decreases rest.len(),
{
    reveal(writing);
    let n = chunk_len(rest.len(), packet_size);
    if !st.s.full(n as usize) {
        let next = packet_written(st, ST_DATA, rest.take(n));
        lemma_packet_written(st, ST_DATA, rest.take(n));
        if 0 < n < rest.len() {
            lemma_writing_notes(next, packet_size, sent + n, rest.skip(n));
        }
    }
}

/// A write that stops short for want of room leaves a note that the window was
/// full.
pub proof fn lemma_full_window_is_noted(st: St, data: Seq<u8>)
    requires
        st.s.wf(),
        st.s.state == ConnState::Connected,
        !st.s.send.fin_sent,
    ensures
        written(st, data).0 < data.len() ==> written(st, data).1.s.cwnd.last_maxed_out_window
            == st.io.now.ms,
{
    reveal(written);
    lemma_writing_notes(
        St { io: IoView { current_ms: st.io.now.ms, ..st.io }, ..st },
        st.s.packet_size(),
        0,
        data,
    );
}

} // verus!

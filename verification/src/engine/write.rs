//! What the user of a connection does to it: writing, reading what came in,
//! and closing.

use crate::circular::{lemma_grown_size, ring_ensured};
use crate::engine::model::{
    ack_sent, data_sent, flushed, packet_written, scheduled, with_header, zeros, St,
};
use crate::engine::queue::{
    lemma_append_keeps, lemma_queue_append, lemma_queue_at, lemma_queue_replace,
};
use crate::engine::send::{st, zero_bytes};
use crate::engine::slots::{lemma_ring_put_twice, lemma_ring_size_pos, lemma_slot_views_ensured};
use crate::engine::state::{
    queue_wf, ConnState, Io, IoView, OutgoingPacket, PacketView, RecvSide, SendSide, SockView,
    UtpSock, MAX_PAYLOAD, OUTGOING_BUFFER_MAX_SIZE,
};
use crate::engine::transmit::{
    io_frame, lemma_data_sent, lemma_flushed_from, lemma_io_frame_refl, lemma_io_frame_trans,
    lemma_oldest_stays, lemma_scheduled,
};
use crate::engine::window::Cwnd;
use crate::packet;
use crate::packet::{be16, put_be16, HEADER_SIZE, ST_DATA, ST_FIN};
use vstd::prelude::*;

verus! {

/// Filling in a header leaves the payload and the sequence number alone.
proof fn lemma_header_keeps(s: SockView, data: Seq<u8>, flags: u8)
    requires
        data.len() >= HEADER_SIZE,
    ensures
        with_header(s, data, flags).len() == data.len(),
        be16(with_header(s, data, flags), 16) == be16(data, 16),
        with_header(s, data, flags).skip(HEADER_SIZE as int) == data.skip(HEADER_SIZE as int),
{
    assert(with_header(s, data, flags).skip(HEADER_SIZE as int) =~= data.skip(HEADER_SIZE as int));
}

/// The packet that `data` makes when it gets one of its own.
pub open spec fn new_packet(s: SockView, flags: u8, data: Seq<u8>) -> PacketView {
    PacketView {
        payload: data.len() as usize,
        time_sent: 0,
        transmissions: 0,
        need_resend: false,
        data: put_be16(
            with_header(s, zeros(HEADER_SIZE as nat) + data, flags),
            16,
            s.send.seq_nr as int,
        ),
    }
}

pub proof fn lemma_new_packet(s: SockView, flags: u8, data: Seq<u8>)
    requires
        data.len() <= MAX_PAYLOAD,
    ensures
        new_packet(s, flags, data).wf(),
        new_packet(s, flags, data).seq() == s.send.seq_nr,
        new_packet(s, flags, data).body() == data,
{
    let b = zeros(HEADER_SIZE as nat) + data;
    lemma_header_keeps(s, b, flags);
    let h = with_header(s, b, flags);
    packet::lemma_be16_round_trip(h, 16, s.send.seq_nr);
    assert(b.skip(HEADER_SIZE as int) =~= data);
    assert(put_be16(h, 16, s.send.seq_nr as int).skip(HEADER_SIZE as int) =~= data);
}

/// `b` differs from `a` at most in what queueing packets changes.
pub open spec fn queue_frame(a: SockView, b: SockView) -> bool {
    b == (SockView {
        send: SendSide {
            seq_nr: b.send.seq_nr,
            cur_window_packets: b.send.cur_window_packets,
            ..a.send
        },
        outbuf: b.outbuf,
        ..a
    })
}

pub proof fn lemma_with_packet(s: SockView, flags: u8, data: Seq<u8>)
    requires
        queue_wf(s.outbuf, s.send.seq_nr, s.send.cur_window_packets, s.send.cur_window),
        s.send.cur_window_packets < OUTGOING_BUFFER_MAX_SIZE,
        data.len() <= MAX_PAYLOAD,
    ensures
        ({
            let t = s.with_packet(flags, data);
            &&& queue_wf(t.outbuf, t.send.seq_nr, t.send.cur_window_packets, t.send.cur_window)
            &&& t.send.cur_window_packets == s.send.cur_window_packets + 1
            &&& queue_frame(s, t)
            &&& t.packet_at(s.send.seq_nr) == Some(new_packet(s, flags, data))
            &&& s.oldest_there() ==> t.oldest_there()
            &&& forall|q: u16|
                (s.send.seq_nr - 1 - q) % 0x10000 < s.send.cur_window_packets ==> t.packet_at(q)
                    == #[trigger] s.packet_at(q)
        }),
{
    lemma_new_packet(s, flags, data);
    let p = new_packet(s, flags, data);
    let n = s.send.cur_window_packets;
    let seq = s.send.seq_nr;
    let t = s.with_packet(flags, data);
    lemma_queue_append(s.outbuf, seq, n, s.send.cur_window, p);
    lemma_queue_at(
        t.outbuf,
        t.send.seq_nr,
        t.send.cur_window_packets,
        t.send.cur_window,
        seq as int,
    );
    lemma_queue_at(s.outbuf, seq, n, s.send.cur_window, 0);
    lemma_grown_size(s.outbuf.len() as int, n as int);
    lemma_ring_put_twice(ring_ensured(s.outbuf, seq as int, n as int), seq as int, Some(p), None);
    assert forall|q: u16| (seq - 1 - q) % 0x10000 < n implies t.packet_at(q)
        == #[trigger] s.packet_at(q) by {
        lemma_append_keeps(s.outbuf, seq, n, s.send.cur_window, p, q);
    }
    assert(t.oldest_seq() == s.oldest_seq());
    if n > 0 {
        assert(t.packet_at(s.oldest_seq()) == s.packet_at(s.oldest_seq()));
    }
}

pub proof fn lemma_with_extended(s: SockView, flags: u8, data: Seq<u8>)
    requires
        queue_wf(s.outbuf, s.send.seq_nr, s.send.cur_window_packets, s.send.cur_window),
        s.packet_at(s.send.seq_nr.wrapping_sub(1)) is Some,
        s.packet_at(s.send.seq_nr.wrapping_sub(1))->0.transmissions == 0,
        s.packet_at(s.send.seq_nr.wrapping_sub(1))->0.payload + data.len() <= MAX_PAYLOAD,
    ensures
        ({
            let t = s.with_extended(flags, data);
            let last = s.send.seq_nr.wrapping_sub(1);
            &&& queue_wf(t.outbuf, t.send.seq_nr, t.send.cur_window_packets, t.send.cur_window)
            &&& t == (SockView { outbuf: t.outbuf, ..s })
            &&& s.oldest_there() ==> t.oldest_there()
            &&& t.packet_at(last) is Some
            &&& t.packet_at(last)->0.payload == s.packet_at(last)->0.payload + data.len()
            &&& t.packet_at(last)->0.transmissions == 0
            &&& t.packet_at(last)->0.seq() == s.packet_at(last)->0.seq()
            &&& t.packet_at(last)->0.body() == s.packet_at(last)->0.body() + data
        }),
{
    let last = s.send.seq_nr.wrapping_sub(1);
    let p = s.packet_at(last)->0;
    let t = s.with_extended(flags, data);
    lemma_queue_at(
        s.outbuf,
        s.send.seq_nr,
        s.send.cur_window_packets,
        s.send.cur_window,
        last as int,
    );
    lemma_queue_at(
        s.outbuf,
        s.send.seq_nr,
        s.send.cur_window_packets,
        s.send.cur_window,
        s.oldest_seq() as int,
    );
    lemma_header_keeps(s, p.data + data, flags);
    let e = PacketView {
        payload: (p.payload + data.len()) as usize,
        data: with_header(s, p.data + data, flags),
        ..p
    };
    assert((p.data + data).skip(HEADER_SIZE as int) =~= p.body() + data);
    lemma_queue_replace(
        s.outbuf,
        s.send.seq_nr,
        s.send.cur_window_packets,
        s.send.cur_window,
        last as int,
        e,
        s.send.cur_window,
    );
}

/// Queueing data keeps the send queue in order and everything else alone.
pub proof fn lemma_queued(s: SockView, flags: u8, data: Seq<u8>)
    requires
        s.send_wf(),
        s.mtu.wf(),
        s.send.cur_window_packets < OUTGOING_BUFFER_MAX_SIZE,
        data.len() <= MAX_PAYLOAD,
    ensures
        ({
            let t = s.queued(flags, data);
            &&& queue_wf(t.outbuf, t.send.seq_nr, t.send.cur_window_packets, t.send.cur_window)
            &&& s.send.cur_window_packets <= t.send.cur_window_packets
            &&& t.send.cur_window_packets <= s.send.cur_window_packets + 1
            &&& t.oldest_seq() == s.oldest_seq()
            &&& queue_frame(s, t)
            &&& s.oldest_there() ==> t.oldest_there()
        }),
{
    let n = s.room_in_last(data.len() as int);
    if n == 0 {
        lemma_with_packet(s, flags, data);
    } else {
        lemma_with_extended(s, flags, data.take(n));
        assert(data.take(data.len() as int) =~= data);
        if n != data.len() {
            lemma_with_packet(s.with_extended(flags, data.take(n)), flags, data.skip(n));
        }
    }
}

/// `b` differs from `a` at most in what writing changes.
pub open spec fn write_frame(a: SockView, b: SockView) -> bool {
    &&& b == (SockView {
        send: SendSide {
            seq_nr: b.send.seq_nr,
            cur_window_packets: b.send.cur_window_packets,
            cur_window: b.send.cur_window,
            retransmit_timeout: b.send.retransmit_timeout,
            rto_timeout: b.send.rto_timeout,
            last_sent_packet: b.send.last_sent_packet,
            last_rcv_win: b.send.last_rcv_win,
            ..a.send
        },
        state: b.state,
        cwnd: Cwnd { last_maxed_out_window: b.cwnd.last_maxed_out_window, ..a.cwnd },
        mtu: b.mtu,
        in_ack_list: b.in_ack_list,
        outbuf: b.outbuf,
        ..a
    })
    &&& a.mtu.last == b.mtu.last
    &&& b.state == a.state || a.state == ConnState::Connected && b.state
        == ConnState::ConnectedFull
}

/// Writing a packet keeps the send queue in order and everything else alone.
pub proof fn lemma_packet_written(st: St, flags: u8, data: Seq<u8>)
    requires
        st.s.send_wf(),
        st.s.mtu.wf(),
        st.s.send.cur_window_packets < OUTGOING_BUFFER_MAX_SIZE - 1 || st.s.send.fin_sent
            && st.s.send.cur_window_packets < OUTGOING_BUFFER_MAX_SIZE,
        data.len() <= MAX_PAYLOAD,
    ensures
        ({
            let after = packet_written(st, flags, data);
            &&& after.s.send_wf()
            &&& after.s.mtu.wf()
            &&& write_frame(st.s, after.s)
            &&& st.s.send.cur_window_packets <= after.s.send.cur_window_packets
            &&& after.s.oldest_seq() == st.s.oldest_seq()
            &&& after.s.state == st.s.state
            &&& io_frame(st, after)
            &&& st.s.oldest_there() ==> after.s.oldest_there()
        }),
{
    let send = if st.s.send.cur_window_packets == 0 {
        SendSide {
            retransmit_timeout: st.s.rtt.rto,
            rto_timeout: st.io.current_ms.wrapping_add(st.s.rtt.rto as u64),
            ..st.s.send
        }
    } else {
        st.s.send
    };
    let s = SockView { send: SendSide { last_rcv_win: st.s.rcv_window(), ..send }, ..st.s };
    lemma_queued(s, flags, data);
    let q = St { s: s.queued(flags, data), ..st };
    lemma_flushed_from(q, q.s.packet_size(), q.s.oldest_seq());
    let after = flushed(q).1;
    if st.s.oldest_there() {
        lemma_oldest_stays(q.s, after.s);
    }
}

/// How many of `len` bytes go into the next packet.
pub open spec fn chunk_len(len: nat, packet_size: usize) -> int {
    if len < packet_size {
        len as int
    } else {
        packet_size as int
    }
}

/// `rest` is written packet by packet, until all of it is or there is no more
/// room. `sent` bytes have been written already. Without room for a full
/// packet the connection counts as full.
#[verifier::opaque]
pub open spec fn writing(st: St, packet_size: usize, sent: int, rest: Seq<u8>) -> (int, St)
    decreases rest.len(),
{
    let n = chunk_len(rest.len(), packet_size);
    if st.s.full(n as usize) {
        let s = st.s.asked_full(n as usize, st.io.current_ms);
        (
            sent,
            if s.full(usize::MAX) {
                St {
                    s: SockView {
                        state: ConnState::ConnectedFull,
                        ..s.asked_full(usize::MAX, st.io.current_ms)
                    },
                    ..st
                }
            } else {
                St { s, ..st }
            },
        )
    } else {
        let next = packet_written(st, ST_DATA, rest.take(n));
        if n <= 0 || n >= rest.len() {
            (sent + n, next)
        } else {
            writing(next, packet_size, sent + n, rest.skip(n))
        }
    }
}

/// `data` is written as far as there is room. Says how much of it was; 0 means
/// the socket is not currently writable.
#[verifier::opaque]
pub open spec fn written(st: St, data: Seq<u8>) -> (int, St) {
    if st.s.state != ConnState::Connected || st.s.send.fin_sent {
        (0, st)
    } else {
        writing(
            St { io: IoView { current_ms: st.io.now.ms, ..st.io }, ..st },
            st.s.packet_size(),
            0,
            data,
        )
    }
}

/// Writing keeps the send queue in order and everything else alone.
pub proof fn lemma_writing(st: St, packet_size: usize, sent: int, rest: Seq<u8>)
    requires
        st.s.send_wf(),
        st.s.mtu.wf(),
        st.s.oldest_there(),
        st.s.state == ConnState::Connected,
        0 < packet_size <= MAX_PAYLOAD,
    ensures
        ({
            let (n, after) = writing(st, packet_size, sent, rest);
            &&& sent <= n <= sent + rest.len()
            &&& after.s.send_wf()
            &&& after.s.mtu.wf()
            &&& after.s.oldest_there()
            &&& write_frame(st.s, after.s)
            &&& st.s.send.cur_window_packets <= after.s.send.cur_window_packets
            &&& after.s.oldest_seq() == st.s.oldest_seq()
            &&& io_frame(st, after)
        }),
    decreases rest.len(),
{
    reveal(writing);
    let n = chunk_len(rest.len(), packet_size);
    lemma_io_frame_refl(st);
    if !st.s.full(n as usize) {
        let next = packet_written(st, ST_DATA, rest.take(n));
        lemma_packet_written(st, ST_DATA, rest.take(n));
        if 0 < n < rest.len() {
            lemma_writing(next, packet_size, sent + n, rest.skip(n));
            lemma_io_frame_trans(
                st,
                next,
                writing(next, packet_size, sent + n, rest.skip(n)).1,
            );
        }
    }
}

/// `b` differs from `a` at most in the datagrams that go out, the acks that are
/// owed, and the time of the timers.
pub open spec fn timed_io_frame(a: St, b: St) -> bool {
    io_frame(St { io: IoView { current_ms: b.io.current_ms, ..a.io }, ..a }, b)
}

pub proof fn lemma_written(st: St, data: Seq<u8>)
    requires
        st.s.wf(),
    ensures
        ({
            let (n, after) = written(st, data);
            &&& 0 <= n <= data.len()
            &&& after.s.wf()
            &&& write_frame(st.s, after.s)
            &&& st.s.send.cur_window_packets <= after.s.send.cur_window_packets
            &&& after.s.oldest_seq() == st.s.oldest_seq()
            &&& timed_io_frame(st, after)
        }),
{
    reveal(written);
    lemma_io_frame_refl(st);
    if st.s.state == ConnState::Connected && !st.s.send.fin_sent {
        lemma_writing(
            St { io: IoView { current_ms: st.io.now.ms, ..st.io }, ..st },
            st.s.packet_size(),
            0,
            data,
        );
    }
}

/// The user has taken what was read. If that made room, the peer is told: at
/// once if there was none before, with the next ack otherwise.
pub open spec fn drained(st: St) -> St {
    if st.s.rcv_window() > st.s.send.last_rcv_win {
        if st.s.send.last_rcv_win == 0 {
            ack_sent(st)
        } else {
            scheduled(St { io: IoView { current_ms: st.io.now.ms, ..st.io }, ..st })
        }
    } else {
        st
    }
}

/// The user closes the connection: what is queued is still sent, and a FIN
/// after it. A connection that is not up is given up.
pub open spec fn closing(st: St) -> St {
    let s = st.s;
    if s.state == ConnState::Connected || s.state == ConnState::ConnectedFull {
        let closed = SockView {
            recv: RecvSide { read_shutdown: true, ..s.recv },
            send: SendSide { close_requested: true, fin_sent: true, ..s.send },
            ..s
        };
        if !s.send.fin_sent {
            packet_written(St { s: closed, ..st }, ST_FIN, Seq::empty())
        } else if s.send.fin_sent_acked {
            St { s: SockView { state: ConnState::Destroy, ..closed }, ..st }
        } else {
            St { s: closed, ..st }
        }
    } else if s.state == ConnState::SynSent {
        let wait: u64 = if s.rtt.rto.wrapping_mul(2) < 60 {
            s.rtt.rto.wrapping_mul(2) as u64
        } else {
            60
        };
        St {
            s: SockView {
                send: SendSide { rto_timeout: st.io.now.ms.wrapping_add(wait), ..s.send },
                state: ConnState::Destroy,
                ..s
            },
            ..st
        }
    } else {
        St { s: SockView { state: ConnState::Destroy, ..s }, ..st }
    }
}

/// Sending an ack changes nothing but when and what we last sent.
pub proof fn lemma_ack_sent(st: St)
    ensures
        ({
            let after = ack_sent(st);
            &&& after.s == (SockView {
                send: SendSide {
                    last_sent_packet: st.io.current_ms,
                    last_rcv_win: st.s.rcv_window(),
                    ..st.s.send
                },
                in_ack_list: false,
                ..st.s
            })
            &&& io_frame(st, after)
            &&& !st.s.in_ack_list ==> after.io.ack_list == st.io.ack_list
        }),
{
    reveal(ack_sent);
    let s = SockView {
        send: SendSide { last_rcv_win: st.s.rcv_window(), ..st.s.send },
        ..st.s
    };
    lemma_data_sent(St { s, ..st }, s.ack_bytes());
    reveal(data_sent);
}

pub proof fn lemma_drained(st: St)
    requires
        st.s.wf(),
    ensures
        drained(st).s.wf(),
        timed_io_frame(st, drained(st)),
{
    lemma_io_frame_refl(st);
    lemma_ack_sent(st);
    lemma_scheduled(St { io: IoView { current_ms: st.io.now.ms, ..st.io }, ..st });
}

pub proof fn lemma_closing(st: St)
    requires
        st.s.wf(),
    ensures
        closing(st).s.wf(),
        io_frame(st, closing(st)),
{
    lemma_io_frame_refl(st);
    let s = st.s;
    let closed = SockView {
        recv: RecvSide { read_shutdown: true, ..s.recv },
        send: SendSide { close_requested: true, fin_sent: true, ..s.send },
        ..s
    };
    if !s.send.fin_sent {
        lemma_packet_written(St { s: closed, ..st }, ST_FIN, Seq::empty());
    }
}

impl UtpSock {
    /// Fills in the header fields that every outgoing packet has.
    fn set_header(&self, data: &mut Vec<u8>, flags: u8)
        requires
            old(data)@.len() >= HEADER_SIZE,
        ensures
            final(data)@ == with_header(self@, old(data)@, flags),
    {
        packet::set_version_type(data.as_mut_slice(), 1, flags);
        packet::set_ext(data.as_mut_slice(), 0);
        packet::set_conn_id(data.as_mut_slice(), self.peer.conn_id_send as u16);
        packet::set_window_size(data.as_mut_slice(), self.send.last_rcv_win as u32);
        packet::set_ack_nr(data.as_mut_slice(), self.recv.ack_nr);
    }

    /// Queues a new packet.
    fn append_packet(&mut self, flags: u8, data: &[u8])
        requires
            old(self).bufs_wf(),
            old(self)@.send.cur_window_packets < OUTGOING_BUFFER_MAX_SIZE,
            data@.len() <= MAX_PAYLOAD,
        ensures
            final(self)@ == old(self)@.with_packet(flags, data@),
            final(self).bufs_wf(),
    {
        let mut buf: Vec<u8> = zero_bytes(HEADER_SIZE);
        buf.extend_from_slice(data);
        assert(buf@ == zeros(HEADER_SIZE as nat) + data@);
        self.set_header(&mut buf, flags);
        packet::set_seq_nr(buf.as_mut_slice(), self.send.seq_nr);
        let pkt = OutgoingPacket {
            payload: data.len(),
            time_sent: 0,
            transmissions: 0,
            need_resend: false,
            data: buf,
        };
        // Remember the message in the outgoing queue.
        let ghost packets = self.send.cur_window_packets as int;
        let ghost seq = self.send.seq_nr as int;
        proof {
            self.outbuf.lemma_wf_size();
            lemma_grown_size(self.outbuf@.len() as int, packets);
            lemma_ring_size_pos(self.outbuf@.len() as int);
            lemma_slot_views_ensured(self.outbuf@, seq, packets);
        }
        self.outbuf.ensure_size(self.send.seq_nr as usize, self.send.cur_window_packets as usize);
        self.put_outgoing(self.send.seq_nr, pkt);
        self.send.seq_nr = self.send.seq_nr.wrapping_add(1);
        self.send.cur_window_packets = self.send.cur_window_packets + 1;
    }

    /// Puts `data` at the end of the newest packet.
    fn extend_last(&mut self, flags: u8, data: &[u8])
        requires
            old(self).bufs_wf(),
            old(self)@.send_wf(),
            old(self)@.packet_at(old(self)@.send.seq_nr.wrapping_sub(1)) is Some,
            data@.len() <= MAX_PAYLOAD,
        ensures
            final(self)@ == old(self)@.with_extended(flags, data@),
            final(self).bufs_wf(),
    {
        let last_seq: u16 = self.send.seq_nr.wrapping_sub(1);
        proof {
            lemma_queue_at(
                self@.outbuf,
                self.send.seq_nr,
                self.send.cur_window_packets,
                self.send.cur_window,
                last_seq as int,
            );
        }
        let ghost before = self@;
        match self.take_outgoing(last_seq) {
            Some(mut pkt) => {
                let ghost p = pkt@;
                pkt.data.extend_from_slice(data);
                assert(pkt.data@ =~= p.data + data@);
                pkt.payload = pkt.payload + data.len();
                self.set_header(&mut pkt.data, flags);
                proof {
                    lemma_ring_put_twice(before.outbuf, last_seq as int, None, Some(pkt@));
                }
                self.put_outgoing(last_seq, pkt);
            },
            None => {},
        }
    }

    /// Queues `data`: the newest packet is filled up first, if it hasn't been
    /// sent yet.
    fn queue(&mut self, flags: u8, data: &[u8])
        requires
            old(self).bufs_wf(),
            old(self)@.send_wf(),
            old(self)@.mtu.wf(),
            old(self)@.send.cur_window_packets < OUTGOING_BUFFER_MAX_SIZE,
            data@.len() <= MAX_PAYLOAD,
        ensures
            final(self)@ == old(self)@.queued(flags, data@),
            final(self).bufs_wf(),
    {
        let packet_size: usize = self.get_packet_size();
        // if there's any room left in the last packet in the window and
        // it hasn't been sent yet, fill that frame first
        let room: usize = if self.send.cur_window_packets > 0 {
            match self.outgoing(self.send.seq_nr.wrapping_sub(1)) {
                Some(p) => if p.transmissions == 0 && p.payload < packet_size {
                    packet_size - p.payload
                } else {
                    0
                },
                None => 0,
            }
        } else {
            0
        };
        let n: usize = if data.len() < room {
            data.len()
        } else {
            room
        };
        if n == 0 {
            self.append_packet(flags, data);
        } else {
            let (head, rest) = data.split_at(n);
            assert(data@.take(n as int) =~= head@);
            assert(data@.skip(n as int) =~= rest@);
            self.extend_last(flags, head);
            if rest.len() > 0 {
                self.append_packet(flags, rest);
            } else {
                assert(head@ =~= data@);
            }
        }
    }

    /// Queues `data` in a packet of type `flags`, which is ST_DATA or ST_FIN,
    /// and sends what can be sent.
    pub fn write_outgoing_packet(&mut self, io: &mut Io, flags: u8, data: &[u8])
        requires
            old(self).bufs_wf(),
            old(self)@.send_wf(),
            old(self)@.mtu.wf(),
            old(self)@.send.cur_window_packets < OUTGOING_BUFFER_MAX_SIZE - 1
                || old(self)@.send.fin_sent && old(self)@.send.cur_window_packets
                < OUTGOING_BUFFER_MAX_SIZE,
            data@.len() <= MAX_PAYLOAD,
        ensures
            st(*final(self), *final(io)) == packet_written(st(*old(self), *old(io)), flags, data@),
            final(self).bufs_wf(),
    {
        // Setup initial timeout timer
        if self.send.cur_window_packets == 0 {
            self.send.retransmit_timeout = self.rtt.rto;
            self.send.rto_timeout = io.current_ms.wrapping_add(
                self.send.retransmit_timeout as u64,
            );
        }
        self.send.last_rcv_win = self.get_rcv_window();
        proof {
            lemma_queued(self@, flags, data@);
        }
        self.queue(flags, data);
        self.flush_packets(io);
    }

    /// Returns bytes accepted; 0 means the socket is not currently writable.
    pub fn write_engine(&mut self, io: &mut Io, buf: &[u8]) -> (r: usize)
        requires
            old(self).wf(),
        ensures
            r == written(st(*old(self), *old(io)), buf@).0,
            st(*final(self), *final(io)) == written(st(*old(self), *old(io)), buf@).1,
            final(self).wf(),
    {
        proof {
            reveal(written);
            lemma_written(st(*self, *io), buf@);
        }
        if self.state != ConnState::Connected {
            return 0;
        }
        if self.send.fin_sent {
            return 0;
        }
        io.current_ms = io.now.ms;
        // don't send unless it will all fit in the window

        let packet_size: usize = self.get_packet_size();
        let mut sent: usize = 0;
        let mut num_to_send: usize = if buf.len() < packet_size {
            buf.len()
        } else {
            packet_size
        };
        let ghost whole = writing(st(*self, *io), packet_size, 0, buf@);
        assert(buf@.skip(0) =~= buf@);
        while !self.is_full(io.current_ms, num_to_send)
            invariant
                self.bufs_wf(),
                self@.send_wf(),
                self@.mtu.wf(),
                self@.oldest_there(),
                self@.state == ConnState::Connected,
                0 < packet_size <= MAX_PAYLOAD,
                sent <= buf@.len(),
                num_to_send == chunk_len((buf@.len() - sent) as nat, packet_size),
                whole == writing(st(*self, *io), packet_size, sent as int, buf@.skip(sent as int)),
                whole == written(st(*old(self), *old(io)), buf@),
                whole.1.s.wf(),
            decreases buf@.len() - sent,
        {
            // Send an outgoing packet. Also add it to the outgoing queue of
            // packets that have been sent but not ACKed.
            let ghost rest = buf@.skip(sent as int);
            proof {
                reveal(writing);
                lemma_packet_written(st(*self, *io), ST_DATA, rest.take(num_to_send as int));
            }
            assert(sent + num_to_send <= buf.len());
            let chunk: &[u8] = &buf[sent..sent + num_to_send];
            assert(chunk@ =~= rest.take(num_to_send as int));
            self.write_outgoing_packet(io, ST_DATA, chunk);
            sent = sent + num_to_send;
            assert(rest.skip(num_to_send as int) =~= buf@.skip(sent as int));
            num_to_send = if buf.len() - sent < packet_size {
                buf.len() - sent
            } else {
                packet_size
            };
            if num_to_send == 0 {
                return sent;
            }
        }
        proof {
            reveal(writing);
        }
        if self.is_full(io.current_ms, usize::MAX) {
            // mark the socket as not being writable
            self.state = ConnState::ConnectedFull;
        }
        sent
    }

    pub fn read_drained(&mut self, io: &mut Io)
        requires
            old(self).wf(),
        ensures
            st(*final(self), *final(io)) == drained(st(*old(self), *old(io))),
            final(self).wf(),
    {
        proof {
            lemma_drained(st(*self, *io));
        }
        let rcvwin: usize = self.get_rcv_window();
        if rcvwin > self.send.last_rcv_win {
            // If last window was 0 send ACK immediately, otherwise defer
            if self.send.last_rcv_win == 0 {
                self.send_ack(io);
            } else {
                io.current_ms = io.now.ms;
                self.schedule_ack(io);
            }
        }
    }

    pub fn close_engine(&mut self, io: &mut Io)
        requires
            old(self).wf(),
        ensures
            st(*final(self), *final(io)) == closing(st(*old(self), *old(io))),
            final(self).wf(),
    {
        proof {
            lemma_closing(st(*self, *io));
        }
        match self.state {
            ConnState::Connected | ConnState::ConnectedFull => {
                self.recv.read_shutdown = true;
                self.send.close_requested = true;
                if !self.send.fin_sent {
                    self.send.fin_sent = true;
                    let empty: [u8; 0] = [];
                    assert(empty@ =~= Seq::<u8>::empty());
                    self.write_outgoing_packet(io, ST_FIN, &empty);
                } else if self.send.fin_sent_acked {
                    self.state = ConnState::Destroy;
                }
            },
            ConnState::SynSent => {
                let twice: u32 = self.rtt.rto.wrapping_mul(2);
                let wait: u32 = if twice < 60 {
                    twice
                } else {
                    60
                };
                self.send.rto_timeout = io.now.ms.wrapping_add(wait as u64);
                self.state = ConnState::Destroy;
            },
            _ => {
                self.state = ConnState::Destroy;
            },
        }
    }
}

} // verus!

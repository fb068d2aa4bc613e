//! How a connection comes up and goes down.

use crate::addr::SocketAddr;
use crate::clock::Now;
use crate::conn_shared::ErrorKind;
use crate::engine::acks::{lemma_oldest_acked, lemma_window_trimmed};
use crate::engine::context::ContextView;
use crate::engine::create::lemma_dialling;
use crate::engine::eack::lemma_selectively_acked;
use crate::engine::extensions::{exts_of, payload_of};
use crate::engine::incoming::arrived;
use crate::engine::measure::fields_of;
use crate::engine::model::{flushed, flushed_from, packet_sent, St};
use crate::engine::progress::{fast_retried, nagle_flushed, queue_moved, state_moved};
use crate::engine::queue::lemma_queue_at;
use crate::engine::recovery::lemma_packet_kept;
use crate::engine::settling::{
    lemma_measured_queue, lemma_moved_ahead, lemma_moves, lemma_taken_in_apart, lemma_told_stays,
    moves,
};
use crate::engine::state::{ConnState, IoView, Key, RecvSide, SendSide, SockView};
use crate::engine::stream::{kept, lemma_kept_refl, lemma_kept_trans};
use crate::engine::timing::{
    heard, heeded, lemma_ack_tells_all, lemma_heeded, lemma_packet_tells_all,
};
use crate::engine::transmit::{lemma_flushed_from, lemma_packet_sent, lemma_same_contents_at};
use crate::engine::write::{
    closing, lemma_ack_sent, lemma_new_packet, lemma_packet_written, lemma_queued,
    lemma_with_packet, lemma_written, new_packet,
};
use crate::packet::{be16, ST_FIN};
use vstd::prelude::*;

verus! {

/// A dialled connection sends a SYN: it carries the id that the peer's packets
/// are to come with, and the connection's first number. It has the connection
/// wait for three seconds before it tries again.
pub proof fn lemma_dialling_sends_syn(c: ContextView, now: Now, addr: SocketAddr)
    requires
        now.ms < 0x8000_0000_0000_0000,
    ensures
        ({
            let after = c.dialled(now, addr);
            let s = after.sockets.last();
            let d = after.io.outgoing.last();
            let id = c.dial_key(addr).recv_id;
            &&& after.sockets.drop_last() == c.sockets
            &&& after.io.outgoing.drop_last() == c.io.outgoing
            &&& d.addr == addr
            &&& d.data.len() == 20
            &&& d.data[0] == 0x41
            &&& be16(d.data, 2) == id as int % 0x10000
            &&& be16(d.data, 16) == (s.send.seq_nr - 1) % 0x10000
            &&& s.state == ConnState::SynSent
            &&& s.peer.key == (Key { addr, recv_id: id })
            &&& s.peer.conn_id_send == id.wrapping_add(1)
            &&& s.send.cur_window_packets == 1
            &&& s.send.rto_timeout == now.ms + 3000
            &&& s.send.retransmit_timeout == 3000
            &&& s.send.retransmit_count == 0
            &&& s.user.id == c.next_id
            &&& after.next_id == c.next_id + 1 || c.next_id == u64::MAX
        }),
{
    reveal(ContextView::dialled);
    let s = c.dialler(now, addr);
    let key = c.dial_key(addr);
    let io = IoView { now, current_ms: now.ms, ..c.io };
    let seq = s.send.seq_nr.wrapping_sub(1);
    let peer = s.peer;
    lemma_dialling(c.next_id, peer, c.options, now, seq);
    assert(s.packet_at(seq) is Some);
    let p = s.packet_at(seq)->0;
    let id: u32 = key.recv_id;
    assert(id as u16 == id % 0x10000) by (bit_vector);
    let st = St { s, io };
    lemma_packet_tells_all(st, seq);
    lemma_packet_sent(st, seq);
    let after = c.dialled(now, addr);
    let d = after.io.outgoing.last().data;
    assert(p.data.len() == 20);
    assert(p.data[0] == 0x41);
    assert(d.take(4)[0] == p.data.take(4)[0]);
    assert(d.take(4)[2] == p.data.take(4)[2]);
    assert(d.take(4)[3] == p.data.take(4)[3]);
    assert(be16(p.data, 16) == seq);
    assert(be16(p.data, 2) == id as u16);
    assert(after.sockets.drop_last() =~= c.sockets);
}

/// A SYN that is accepted is answered with an ack of its number, under the id
/// that it came with; packets are taken under the next id.
pub proof fn lemma_accepting_answers_syn(c: ContextView, buf: Seq<u8>, addr: SocketAddr)
    requires
        buf.len() >= 20,
        buf[0] / 16 == 4,
    ensures
        ({
            let after = c.accepting(buf, addr);
            let s = after.sockets.last();
            let d = after.io.outgoing.last();
            let id = be16(buf, 2);
            &&& after.sockets.drop_last() == c.sockets
            &&& after.io.outgoing.drop_last() == c.io.outgoing
            &&& d.addr == addr
            &&& d.data[0] == 0x21
            &&& be16(d.data, 2) == id
            &&& be16(d.data, 18) == be16(buf, 16)
            &&& be16(d.data, 16) == s.send.seq_nr
            &&& s.state == ConnState::SynRecv
            &&& s.peer.key == (Key { addr, recv_id: (id + 1) as u32 })
            &&& s.peer.conn_id_send == id
            &&& s.recv.ack_nr == be16(buf, 16)
            &&& s.send.cur_window_packets == 0
            &&& s.user.id == c.next_id
        }),
{
    reveal(ContextView::accepting);
    reveal(arrived);
    let s = c.answerer(buf, addr);
    let io = IoView { current_ms: c.io.now.ms, ..c.io };
    let st = St { s, io };
    let heard = arrived(st, buf, true).1;
    lemma_ack_tells_all(heard);
    lemma_ack_sent(heard);
    let after = c.accepting(buf, addr);
    assert(after.sockets.drop_last() =~= c.sockets);
}

/// The peer's ack completes a dialled connection: it is up, its user is told,
/// and the peer's packets are expected from the number that it came with.
pub proof fn lemma_answer_completes_dialling(st: St, buf: Seq<u8>)
    requires
        st.s.wf(),
        heeded(st.s, buf),
        st.s.state == ConnState::SynSent,
        buf[0] / 16 == 2,
    ensures
        ({
            let after = arrived(st, buf, false).1.s;
            &&& after.state == ConnState::Connected || after.state == ConnState::ConnectedFull
            &&& after.user.got_connect
            &&& after.user.notified
            &&& after.recv.ack_nr == (be16(buf, 16) - 1) % 0x10000
            &&& after.user.error == st.s.user.error
        }),
{
    let f = fields_of(buf);
    let m = moves(st, buf);
    lemma_moves(st, buf);
    lemma_heeded(st, buf);
    lemma_recv_apart(st, buf);
    lemma_up_stays(st, buf);
    lemma_taken_in_apart(m.moved, f, payload_of(buf)->0);
    assert(m.stated.s.user.got_connect && m.stated.s.user.notified && m.stated.s.user.error
        == st.s.user.error && (m.stated.s.state == ConnState::Connected || m.stated.s.state
        == ConnState::ConnectedFull)) by {
        reveal(state_moved);
        let s = m.measured.s.window_noted(f, m.measured.io.current_ms).accepted(f);
        lemma_written(St { s: s.connected(), ..m.measured }, Seq::empty());
    }
}

/// The peer's first data completes an incoming connection: it is up, and its
/// user is told that it can write.
pub proof fn lemma_data_completes_accepting(st: St, buf: Seq<u8>)
    requires
        st.s.wf(),
        heeded(st.s, buf),
        st.s.state == ConnState::SynRecv,
        !st.s.send.fin_sent,
        buf[0] / 16 == 0,
    ensures
        ({
            let after = arrived(st, buf, false).1.s;
            &&& after.state == ConnState::Connected
            &&& after.user.notified
        }),
{
    let f = fields_of(buf);
    let m = moves(st, buf);
    lemma_moves(st, buf);
    lemma_heeded(st, buf);
    lemma_recv_apart(st, buf);
    assert(m.stated.s.user.notified && m.stated.s.state == ConnState::Connected) by {
        reveal(state_moved);
    }
    lemma_up_stays(st, buf);
    lemma_taken_in_apart(m.moved, f, payload_of(buf)->0);
    lemma_told_stays(m.moved, f, payload_of(buf)->0);
}

/// What a packet moves on leaves alone what was received.
proof fn lemma_recv_apart(st: St, buf: Seq<u8>)
    requires
        st.s.wf(),
        heeded(st.s, buf),
    ensures
        ({
            let m = moves(st, buf);
            &&& m.measured.s.state == st.s.state
            &&& m.measured.s.user == st.s.user
            &&& m.measured.s.send.fin_sent == st.s.send.fin_sent
            &&& m.moved.s.recv == heard(st, buf).s.recv
            &&& m.moved.s.ahead(fields_of(buf).seq_nr) < 1024
        }),
{
    lemma_measured_queue(st, buf);
    lemma_moved_ahead(st, buf);
}

/// A connection that is up stays up while the queue moves, and its user stays
/// told.
proof fn lemma_up_stays(st: St, buf: Seq<u8>)
    requires
        st.s.wf(),
        heeded(st.s, buf),
    ensures
        ({
            let m = moves(st, buf);
            &&& m.acked.s.state == m.stated.s.state
            &&& m.acked.s.user == m.stated.s.user
        }),
{
    let f = fields_of(buf);
    let m = moves(st, buf);
    lemma_moves(st, buf);
    let acks = m.measured.s.acks_of(f.ack_nr);
    reveal(queue_moved);
    let t = m.stated.s.fast_resend_moved(f);
    lemma_oldest_acked(t, m.stated.io.now, m.stated.io.current_ms, acks as int);
    lemma_window_trimmed(t.oldest_acked(m.stated.io.now, m.stated.io.current_ms, acks as int));
    let last = m.queued.s.send.seq_nr.wrapping_sub(1);
    reveal(nagle_flushed);
    lemma_packet_sent(m.queued, last);
    reveal(fast_retried);
    let s = SockView {
        send: SendSide {
            fast_resend_seq_nr: m.nagled.s.send.fast_resend_seq_nr.wrapping_add(1),
            ..m.nagled.s.send
        },
        ..m.nagled.s
    };
    lemma_packet_sent(St { s, ..m.nagled }, m.nagled.s.oldest_seq());
    lemma_heeded(st, buf);
    match exts_of(buf, st.s.extensions).selack {
        Some(mask) => lemma_selectively_acked(
            m.retried,
            f.ack_nr.wrapping_add(2),
            mask,
        ),
        None => {},
    }
}

proof fn lemma_flush_kept(st: St, packet_size: usize, i: u16)
    requires
        st.s.send_wf(),
        st.s.mtu.wf(),
    ensures
        kept(st.s.outbuf, flushed_from(st, packet_size, i).1.s.outbuf),
    decreases st.s.send.seq_nr.wrapping_sub(i),
{
    reveal(flushed_from);
    lemma_kept_refl(st.s.outbuf);
    if i != st.s.send.seq_nr {
        match st.s.packet_at(i) {
            Some(p) if p.waiting() => {
                if st.s.full(usize::MAX) {
                } else if i != st.s.send.seq_nr.wrapping_sub(1) || st.s.send.cur_window_packets == 1
                    || p.payload >= packet_size {
                    lemma_packet_sent(st, i);
                    lemma_packet_kept(st, i);
                    let t = packet_sent(st, i);
                    lemma_flush_kept(t, packet_size, i.wrapping_add(1));
                    lemma_kept_trans(
                        st.s.outbuf,
                        t.s.outbuf,
                        flushed_from(t, packet_size, i.wrapping_add(1)).1.s.outbuf,
                    );
                } else {
                    lemma_flush_kept(st, packet_size, i.wrapping_add(1));
                }
            },
            _ => {
                lemma_flush_kept(st, packet_size, i.wrapping_add(1));
            },
        }
    }
}

/// Closing a connection that is up queues a FIN behind all that was written,
/// once. From then on nothing is written any more, and nothing read.
pub proof fn lemma_closing_queues_fin(st: St)
    requires
        st.s.wf(),
        st.s.state == ConnState::Connected || st.s.state == ConnState::ConnectedFull,
    ensures
        ({
            let after = closing(st).s;
            let fin = st.s.send.seq_nr;
            &&& after.send.fin_sent
            &&& after.send.close_requested
            &&& after.recv.read_shutdown
            &&& !st.s.send.fin_sent ==> {
                &&& after.send.seq_nr == (fin + 1) % 0x10000
                &&& after.send.cur_window_packets == st.s.send.cur_window_packets + 1
                &&& after.packet_at(fin) is Some
                &&& after.packet_at(fin)->0.data.len() == 20
                &&& after.packet_at(fin)->0.data[0] == 0x11
                &&& be16(after.packet_at(fin)->0.data, 16) == fin
                &&& after.state == st.s.state
            }
            &&& st.s.send.fin_sent ==> {
                &&& after.send.seq_nr == st.s.send.seq_nr
                &&& closing(st).io == st.io
                &&& after.state == (if st.s.send.fin_sent_acked {
                    ConnState::Destroy
                } else {
                    st.s.state
                })
            }
        }),
{
    let s = st.s;
    if !s.send.fin_sent {
        let closed = SockView {
            recv: RecvSide { read_shutdown: true, ..s.recv },
            send: SendSide { close_requested: true, fin_sent: true, ..s.send },
            ..s
        };
        let none = Seq::<u8>::empty();
        lemma_packet_written(St { s: closed, ..st }, ST_FIN, none);
        let send = if s.send.cur_window_packets == 0 {
            SendSide {
                retransmit_timeout: s.rtt.rto,
                rto_timeout: st.io.current_ms.wrapping_add(s.rtt.rto as u64),
                ..closed.send
            }
        } else {
            closed.send
        };
        let t = SockView {
            send: SendSide { last_rcv_win: closed.rcv_window(), ..send },
            ..closed
        };
        assert(t.room_in_last(0) == 0);
        lemma_with_packet(t, ST_FIN, none);
        let q = St { s: t.with_packet(ST_FIN, none), ..st };
        let after = flushed(q).1;
        assert(closing(st) == after);
        lemma_queued(t, ST_FIN, none);
        lemma_flush_kept(q, q.s.packet_size(), q.s.oldest_seq());
        lemma_flushed_from(q, q.s.packet_size(), q.s.oldest_seq());
        let fin = s.send.seq_nr;
        let p = new_packet(t, ST_FIN, none);
        lemma_new_packet(t, ST_FIN, none);
        assert(p.data[0] == 0x11);
        assert(q.s.packet_at(fin) == Some(p));
        lemma_queue_at(
            q.s.outbuf,
            q.s.send.seq_nr,
            q.s.send.cur_window_packets,
            q.s.send.cur_window,
            fin as int,
        );
        lemma_same_contents_at(q.s.outbuf, after.s.outbuf, fin as int);
        reveal(kept);
    }
}

/// Closing a connection that is not up gives it up, without a word to the peer.
pub proof fn lemma_closing_gives_up(st: St)
    requires
        st.s.wf(),
        st.s.state != ConnState::Connected,
        st.s.state != ConnState::ConnectedFull,
    ensures
        closing(st).s.state == ConnState::Destroy,
        closing(st).io == st.io,
{
}

/// A RST ends a connection: its user learns of it, unless something else went
/// wrong before. One that its user has closed is done.
pub proof fn lemma_reset_ends_it(s: SockView)
    ensures
        ({
            let after = s.reset();
            &&& after.state == (if s.send.close_requested {
                ConnState::Destroy
            } else {
                ConnState::Reset
            })
            &&& after.user.notified
            &&& after.user.error == (match s.user.error {
                Some(k) => Some(k),
                None => Some(ErrorKind::ConnectionReset),
            })
            &&& after.user.read_buf == s.user.read_buf
        }),
{
}

} // verus!

//! What a connection says about time: the delay that it reports to its peer is
//! the one that the peer's packets had.

use crate::engine::deliver::{lemma_received_in_order, received_early};
use crate::engine::extensions::{exts_of, lemma_end_fixed, lemma_exts_from, payload_of};
use crate::engine::incoming::{arrived, handled, lemma_arrived, lemma_heard_from, taken_in};
use crate::engine::laws::lemma_ack_reads_back;
use crate::engine::measure::{fields_of, lemma_measured, Fields};
use crate::engine::model::{ack_sent, data_sent, packet_sent, St};
use crate::engine::progress::{lemma_progressed, progressed};
use crate::engine::queue::lemma_queue_at;
use crate::engine::state::{ConnState, IoView, SendSide, SockView};
use crate::packet::{
    be16, be32, lemma_be16_round_trip, lemma_be32_round_trip, put_be16, put_be32, HEADER_SIZE,
};
use crate::util::lemma_wrapping_less_16;
use vstd::prelude::*;

verus! {

/// Whether the packet `buf` acks something that the socket sent, and not more
/// than three packets before what is outstanding.
pub open spec fn acks_known(s: SockView, buf: Seq<u8>) -> bool {
    (s.send.seq_nr - 1 - be16(buf, 18)) % 0x10000 <= s.send.cur_window_packets + 3
}

/// Whether the socket has to take notice of the packet `buf`: it is a packet,
/// it acks something known, and its own number is one of the next 1024. (What
/// number the first packet of a dialled connection has is up to the peer.)
pub open spec fn heeded(s: SockView, buf: Seq<u8>) -> bool {
    &&& buf.len() >= 20
    &&& buf[0] / 16 <= 4
    &&& payload_of(buf) is Some
    &&& acks_known(s, buf)
    &&& s.state != ConnState::SynSent ==> (be16(buf, 16) - s.recv.ack_nr - 1) % 0x10000 < 1024
}

/// On the circle of numbers, what lies at most `window` behind `last` is
/// neither past it nor before the window.
pub proof fn lemma_on_circle(last: u16, window: u16, ack: u16)
    requires
        0 < window < 0x8000,
    ensures
        (last - ack) % 0x10000 <= window <==> !(0 < (ack - last) % 0x10000 < 0x8000) && !(0 < (
        last.wrapping_sub(window) - ack) % 0x10000 < 0x8000),
{
}

/// What a packet is made of for the steps that follow.
pub open spec fn heard(st: St, buf: Seq<u8>) -> St {
    let io = IoView { current_ms: st.io.now.ms, ..st.io };
    let s = SockView { extensions: exts_of(buf, st.s.extensions).bits, ..st.s };
    St { s: s.heard_from(fields_of(buf), io.current_ms), io }
}

pub open spec fn measured_by(st: St, buf: Seq<u8>) -> St {
    let h = heard(st, buf);
    St {
        s: h.s.measured(
            fields_of(buf),
            exts_of(buf, st.s.extensions).selack,
            h.io.now,
            h.io.current_ms,
        ),
        ..h
    }
}

/// A packet that is heeded is measured, moves things on, and is taken in.
pub proof fn lemma_heeded(st: St, buf: Seq<u8>)
    requires
        st.s.wf(),
        heeded(st.s, buf),
    ensures
        ({
            let f = fields_of(buf);
            let selack = exts_of(buf, st.s.extensions).selack;
            let m = measured_by(st, buf);
            let p = progressed(m, f, selack);
            &&& arrived(st, buf, false) == taken_in(p, f, payload_of(buf)->0)
            &&& heard(st, buf).s.wf()
            &&& m.s.wf()
            &&& p.s.wf()
            &&& selack is Some ==> selack->0.len() <= 255
            &&& heard(st, buf).s.ahead(f.seq_nr) < 1024
        }),
{
    reveal(arrived);
    reveal(handled);
    let f = fields_of(buf);
    let e = exts_of(buf, st.s.extensions);
    let h = heard(st, buf);
    let s = SockView { extensions: e.bits, ..st.s };
    lemma_queue_at(
        st.s.outbuf,
        st.s.send.seq_nr,
        st.s.send.cur_window_packets,
        st.s.send.cur_window,
        0,
    );
    let last = st.s.send.seq_nr.wrapping_sub(1);
    let window = (st.s.send.cur_window_packets + 3) as u16;
    lemma_on_circle(last, window, f.ack_nr);
    lemma_wrapping_less_16(last as u32, f.ack_nr as u32);
    lemma_wrapping_less_16(f.ack_nr as u32, last.wrapping_sub(window) as u32);
    lemma_exts_from(buf, HEADER_SIZE as int, buf[1], None, st.s.extensions);
    lemma_end_fixed(
        buf,
        HEADER_SIZE as int,
        buf[1],
        None,
        None,
        st.s.extensions,
        Seq::empty(),
    );
    lemma_heard_from(s, f, h.io.current_ms);
    lemma_measured(h.s, f, e.selack, h.io.now, h.io.current_ms);
    lemma_progressed(measured_by(st, buf), f, e.selack);
}

/// Taking data in leaves the times alone.
proof fn lemma_taken_in_seen(st: St, f: Fields, data: Seq<u8>)
    requires
        st.s.wf(),
    ensures
        taken_in(st, f, data).1.s.seen == st.s.seen,
{
    reveal(taken_in);
    let noted = St { s: st.s.fin_noted(f), ..st };
    let ahead = st.s.ahead(f.seq_nr);
    lemma_received_in_order(noted, data);
    reveal(received_early);
}

/// The delay that is reported to the peer is the time from the peer's stamp to
/// the packet's arrival: the stamp and the delay add up to the time of arrival,
/// on the 32 bits that both have on the wire. A packet without a stamp has no
/// delay.
pub proof fn lemma_reply_measures_the_trip(st: St, buf: Seq<u8>)
    requires
        st.s.wf(),
        heeded(st.s, buf),
    ensures
        ({
            let reply = arrived(st, buf, false).1.s.seen.reply_micro;
            &&& be32(buf, 4) != 0 ==> (reply + be32(buf, 4)) % 0x1_0000_0000 == st.io.now.us as int
                % 0x1_0000_0000
            &&& be32(buf, 4) == 0 ==> reply == 0
        }),
{
    lemma_heeded(st, buf);
    let f = fields_of(buf);
    let selack = exts_of(buf, st.s.extensions).selack;
    let m = measured_by(st, buf);
    let us: u64 = st.io.now.us;
    assert(us as u32 == us % 0x1_0000_0000) by (bit_vector);
    assert(m.s.seen.reply_micro == f.their_delay(st.io.now)) by {
        reveal(SockView::measured);
    }
    lemma_progressed(m, f, selack);
    lemma_taken_in_seen(progressed(m, f, selack), f, payload_of(buf)->0);
}

/// Of two packets with the same stamp, the one that arrives later by some time
/// is reported with a delay that is longer by that time.
pub proof fn lemma_later_is_longer(a: St, first: Seq<u8>, b: St, second: Seq<u8>)
    requires
        a.s.wf(),
        b.s.wf(),
        heeded(a.s, first),
        heeded(b.s, second),
        be32(first, 4) == be32(second, 4),
        be32(first, 4) != 0,
    ensures
        (arrived(b, second, false).1.s.seen.reply_micro - arrived(
            a,
            first,
            false,
        ).1.s.seen.reply_micro) % 0x1_0000_0000 == (b.io.now.us - a.io.now.us) % 0x1_0000_0000,
{
    lemma_reply_measures_the_trip(a, first);
    lemma_reply_measures_the_trip(b, second);
    lemma_apart(
        arrived(a, first, false).1.s.seen.reply_micro as int,
        arrived(b, second, false).1.s.seen.reply_micro as int,
        be32(first, 4),
        a.io.now.us as int,
        b.io.now.us as int,
    );
}

/// Sums with the same number are as far apart as what is added to it.
proof fn lemma_apart(x: int, y: int, t: int, a: int, b: int)
    requires
        (x + t) % 0x1_0000_0000 == a % 0x1_0000_0000,
        (y + t) % 0x1_0000_0000 == b % 0x1_0000_0000,
    ensures
        (y - x) % 0x1_0000_0000 == (b - a) % 0x1_0000_0000,
{
}

/// What the bytes of a datagram that goes out now say about time: when it was
/// sent, and the delay of the peer's last packet.
pub proof fn lemma_stamps(st: St, buf: Seq<u8>)
    requires
        buf.len() >= 20,
    ensures
        ({
            let after = data_sent(st, buf);
            let d = after.io.outgoing.last().data;
            &&& after.io.outgoing.len() == st.io.outgoing.len() + 1
            &&& after.io.outgoing.drop_last() == st.io.outgoing
            &&& d.len() == buf.len()
            &&& be32(d, 4) == st.io.now.us as int % 0x1_0000_0000
            &&& be32(d, 8) == st.s.seen.reply_micro
            &&& forall|k: int| 0 <= k < 4 || 12 <= k < buf.len() ==> #[trigger] d[k] == buf[k]
        }),
{
    reveal(data_sent);
    let us: u64 = st.io.now.us;
    assert(us as u32 == us % 0x1_0000_0000) by (bit_vector);
    let b = put_be32(buf, 4, (us as u32) as int);
    lemma_be32_round_trip(buf, 4, us as u32);
    lemma_be32_round_trip(b, 8, st.s.seen.reply_micro);
    assert(data_sent(st, buf).io.outgoing.drop_last() =~= st.io.outgoing);
}

/// The header of an ack.
proof fn lemma_ack_bytes(s: SockView)
    ensures
        ({
            let b = s.ack_bytes();
            &&& b.len() >= 20
            &&& b[0] == 0x21
            &&& be16(b, 2) == s.peer.conn_id_send as int % 0x10000
            &&& be32(b, 12) == s.send.last_rcv_win as int % 0x1_0000_0000
            &&& be16(b, 16) == s.send.seq_nr
            &&& be16(b, 18) == s.recv.ack_nr
        }),
{
    lemma_ack_reads_back(s, Seq::empty());
    let w: usize = s.send.last_rcv_win;
    assert(w as u32 == w as u64 % 0x1_0000_0000) by (bit_vector);
    let b = s.ack_bytes();
    let f = fields_of(b);
    assert(be32(b, 12) == f.window_size);
    lemma_ack_start(s);
}

proof fn lemma_ack_start(s: SockView)
    ensures
        s.ack_bytes()[0] == 0x21,
        be16(s.ack_bytes(), 2) == s.peer.conn_id_send as int % 0x10000,
{
    reveal(SockView::ack_bytes);
    let c: u32 = s.peer.conn_id_send;
    assert(c as u16 == c % 0x10000) by (bit_vector);
    assert(s.ack_bytes()[2] == (c as u16 / 256) as u8);
    assert(s.ack_bytes()[3] == (c as u16 % 256) as u8);
}

/// An ack goes out as one datagram to the peer. It says when it was sent, what
/// delay the peer's last packet had, how far the stream has been received, and
/// how much room there is for more.
pub proof fn lemma_ack_tells_all(st: St)
    ensures
        ({
            let after = ack_sent(st);
            let d = after.io.outgoing.last();
            let room = st.s.recv.opt_rcvbuf - st.s.user.read_buf.len();
            &&& after.io.outgoing.len() == st.io.outgoing.len() + 1
            &&& after.io.outgoing.drop_last() == st.io.outgoing
            &&& d.addr == st.s.peer.key.addr
            &&& d.conn == Some(st.s.user.id)
            &&& d.clean == (st.s.user.error is None)
            &&& d.data.len() >= 20
            &&& d.data[0] == 0x21
            &&& be16(d.data, 2) == st.s.peer.conn_id_send as int % 0x10000
            &&& be32(d.data, 4) == st.io.now.us as int % 0x1_0000_0000
            &&& be32(d.data, 8) == st.s.seen.reply_micro
            &&& be32(d.data, 12) == (if room > 0 {
                room
            } else {
                0
            }) % 0x1_0000_0000
            &&& be16(d.data, 16) == st.s.send.seq_nr
            &&& be16(d.data, 18) == st.s.recv.ack_nr
            &&& !after.s.in_ack_list
            &&& after.s.send.last_sent_packet == st.io.current_ms
        }),
{
    reveal(ack_sent);
    let s = SockView {
        send: SendSide { last_rcv_win: st.s.rcv_window(), ..st.s.send },
        ..st.s
    };
    lemma_ack_bytes(s);
    lemma_stamps(St { s, ..st }, s.ack_bytes());
    reveal(data_sent);
}

/// A packet of the send queue goes out as one datagram to the peer, with its
/// number and its payload. It says when it was sent, what delay the peer's last
/// packet had, and how far the stream has been received.
pub proof fn lemma_packet_tells_all(st: St, seq: u16)
    requires
        st.s.send_wf(),
        st.s.packet_at(seq) is Some,
    ensures
        ({
            let p = st.s.packet_at(seq)->0;
            let after = packet_sent(st, seq);
            let d = after.io.outgoing.last();
            &&& after.io.outgoing.len() == st.io.outgoing.len() + 1
            &&& after.io.outgoing.drop_last() == st.io.outgoing
            &&& d.addr == st.s.peer.key.addr
            &&& d.conn == Some(st.s.user.id)
            &&& d.clean == (st.s.user.error is None)
            &&& d.data.len() == p.data.len()
            &&& d.data.take(4) == p.data.take(4)
            &&& be32(d.data, 4) == st.io.now.us as int % 0x1_0000_0000
            &&& be32(d.data, 8) == st.s.seen.reply_micro
            &&& be16(d.data, 16) == be16(p.data, 16)
            &&& be16(d.data, 18) == st.s.recv.ack_nr
            &&& d.data.skip(20) == p.data.skip(20)
            &&& !after.s.in_ack_list
            &&& after.s.packet_at(seq) is Some
            &&& after.s.packet_at(seq)->0.time_sent == st.io.now.us
            &&& !after.s.packet_at(seq)->0.need_resend
            &&& p.transmissions < u32::MAX ==> after.s.packet_at(seq)->0.transmissions
                == p.transmissions + 1
            &&& after.s.send.cur_window == st.s.send.cur_window + (if p.transmissions == 0
                || p.need_resend {
                p.payload as int
            } else {
                0
            })
        }),
{
    reveal(packet_sent);
    let s = st.s;
    lemma_queue_at(
        s.outbuf,
        s.send.seq_nr,
        s.send.cur_window_packets,
        s.send.cur_window,
        seq as int,
    );
    let p = s.packet_at(seq)->0;
    let t = s.sending(st.io.now.ms, p);
    let b = put_be16(p.data, 18, s.recv.ack_nr as int);
    lemma_be16_round_trip(p.data, 18, s.recv.ack_nr);
    lemma_stamps(St { s: t, ..st }, b);
    reveal(data_sent);
    let d = packet_sent(st, seq).io.outgoing.last().data;
    assert(d.take(4) =~= p.data.take(4));
    assert(d.skip(20) =~= p.data.skip(20));
}

/// What the peer gets back: in whatever a connection sends next, the stamp of
/// the last packet that came and the delay that is reported for it add up to
/// the time when that packet came.
pub proof fn lemma_delay_is_reported(st: St, buf: Seq<u8>, later: St)
    requires
        st.s.wf(),
        heeded(st.s, buf),
        be32(buf, 4) != 0,
        later.s == arrived(st, buf, false).1.s,
    ensures
        (be32(ack_sent(later).io.outgoing.last().data, 8) + be32(buf, 4)) % 0x1_0000_0000
            == st.io.now.us as int % 0x1_0000_0000,
        forall|seq: u16| #[trigger]
            later.s.packet_at(seq) is Some ==> (be32(
                packet_sent(later, seq).io.outgoing.last().data,
                8,
            ) + be32(buf, 4)) % 0x1_0000_0000 == st.io.now.us as int % 0x1_0000_0000,
{
    lemma_reply_measures_the_trip(st, buf);
    lemma_ack_tells_all(later);
    lemma_arrived(st, buf, false);
    assert forall|seq: u16| #[trigger] later.s.packet_at(seq) is Some implies (be32(
        packet_sent(later, seq).io.outgoing.last().data,
        8,
    ) + be32(buf, 4)) % 0x1_0000_0000 == st.io.now.us as int % 0x1_0000_0000 by {
        lemma_packet_tells_all(later, seq);
    }
}

/// A packet that acks what was never sent, or what was acked long ago, is
/// ignored.
pub proof fn lemma_unknown_acks_are_ignored(st: St, buf: Seq<u8>)
    requires
        st.s.wf(),
        buf.len() >= 20,
        !acks_known(st.s, buf),
        !(buf[0] / 16 == 4 && st.s.state == ConnState::SynRecv),
    ensures
        ({
            let (n, after) = arrived(st, buf, false);
            &&& n == 0
            &&& after.s == st.s
            &&& after.io.outgoing == st.io.outgoing
            &&& after.io.ack_list == st.io.ack_list
        }),
{
    reveal(arrived);
    let f = fields_of(buf);
    lemma_queue_at(
        st.s.outbuf,
        st.s.send.seq_nr,
        st.s.send.cur_window_packets,
        st.s.send.cur_window,
        0,
    );
    let last = st.s.send.seq_nr.wrapping_sub(1);
    let window = (st.s.send.cur_window_packets + 3) as u16;
    lemma_on_circle(last, window, f.ack_nr);
    lemma_wrapping_less_16(last as u32, f.ack_nr as u32);
    lemma_wrapping_less_16(f.ack_nr as u32, last.wrapping_sub(window) as u32);
}

} // verus!

//! The acks that a connection owes: what comes in is acked, and what is told in
//! vain once is told again.

use crate::circular::ring_at;
use crate::engine::deliver::{
    fin_reached, lemma_fin_reached, lemma_received_in_order, received_early, received_in_order,
    reordered,
};
use crate::engine::extensions::{exts_from, exts_of, lemma_end_fixed, payload_of};
use crate::engine::incoming::{arrived, handled, taken_in};
use crate::engine::laws::lemma_ack_reads_back;
use crate::engine::measure::{fields_of, lemma_measured, Fields};
use crate::engine::model::{ack_sent, mask_bit, St};
use crate::engine::progress::{lemma_progressed, progressed};
use crate::engine::queue::lemma_queue_at;
use crate::engine::settling::{lemma_moves, moves};
use crate::engine::state::{ConnState, SendSide, SockView};
use crate::engine::timers::is_up;
use crate::engine::timing::{
    acks_known, heard, heeded, lemma_ack_tells_all, lemma_heeded, lemma_on_circle, lemma_stamps,
    measured_by,
};
use crate::engine::write::{drained, lemma_ack_sent};
use crate::packet::{be16, be32, HEADER_SIZE};
use crate::util::lemma_wrapping_less_16;
use vstd::prelude::*;

verus! {

/// The next packet in order is acked: as it has come in, an ack is owed. (The
/// end of the stream is acked at once, and once more.)
pub proof fn lemma_next_packet_is_acked(st: St, buf: Seq<u8>)
    requires
        st.s.wf(),
        heeded(st.s, buf),
        st.s.state == ConnState::Connected || st.s.state == ConnState::ConnectedFull,
        !st.s.send.fin_sent,
        buf[0] / 16 != 2,
        be16(buf, 16) == (st.s.recv.ack_nr + 1) % 0x10000,
    ensures
        arrived(st, buf, false).1.s.in_ack_list,
        arrived(st, buf, false).0 == payload_of(buf)->0.len(),
{
    lemma_parts(st, buf);
    reveal(taken_in);
    reveal(received_in_order);
}

/// A packet that comes in early, and for the first time, is acked too.
pub proof fn lemma_early_packet_is_acked(st: St, buf: Seq<u8>)
    requires
        st.s.wf(),
        heeded(st.s, buf),
        st.s.state == ConnState::Connected || st.s.state == ConnState::ConnectedFull,
        !st.s.send.fin_sent,
        buf[0] / 16 == 0,
        be16(buf, 16) != (st.s.recv.ack_nr + 1) % 0x10000,
        arrived(st, buf, false).0 > 0,
    ensures
        arrived(st, buf, false).1.s.in_ack_list,
{
    lemma_parts(st, buf);
    reveal(taken_in);
    reveal(received_early);
}

/// What a heeded packet of an open connection comes to.
proof fn lemma_parts(st: St, buf: Seq<u8>)
    requires
        st.s.wf(),
        heeded(st.s, buf),
        st.s.state == ConnState::Connected || st.s.state == ConnState::ConnectedFull,
        !st.s.send.fin_sent,
    ensures
        ({
            let f = fields_of(buf);
            let p = moves(st, buf).moved;
            &&& arrived(st, buf, false) == taken_in(p, f, payload_of(buf)->0)
            &&& is_up(p.s.state)
            &&& p.s.recv == st.s.recv
            &&& p.s.inbuf == st.s.inbuf
            &&& p.s.ahead(f.seq_nr) == (be16(buf, 16) - st.s.recv.ack_nr - 1) % 0x10000
        }),
{
    lemma_heeded(st, buf);
    lemma_moves(st, buf);
    let f = fields_of(buf);
    let selack = exts_of(buf, st.s.extensions).selack;
    let h = heard(st, buf);
    lemma_measured(h.s, f, selack, h.io.now, h.io.current_ms);
    let m = measured_by(st, buf);
    lemma_progressed(m, f, selack);
    assert(moves(st, buf).moved == progressed(m, f, selack)) by {
        reveal(progressed);
    }
}

/// A packet that has come in before is acked again, for the ack may have been
/// lost; nothing else comes of it.
pub proof fn lemma_old_packet_is_acked_again(st: St, buf: Seq<u8>)
    requires
        st.s.wf(),
        buf.len() >= 20,
        buf[0] / 16 <= 4,
        payload_of(buf) is Some,
        acks_known(st.s, buf),
        st.s.state != ConnState::SynSent,
        (be16(buf, 16) - st.s.recv.ack_nr - 1) % 0x10000 >= 0x10000 - 1024,
    ensures
        ({
            let (n, after) = arrived(st, buf, false);
            &&& n == 0
            &&& buf[0] / 16 != 2 ==> after.s.in_ack_list
            &&& buf[0] / 16 == 2 ==> after.s.in_ack_list == st.s.in_ack_list
            &&& after.s.send == st.s.send
            &&& after.s.recv == st.s.recv
            &&& after.s.user == st.s.user
            &&& after.s.cwnd == st.s.cwnd
            &&& after.s.state == st.s.state
            &&& after.s.outbuf == st.s.outbuf
            &&& after.s.inbuf == st.s.inbuf
            &&& after.io.outgoing == st.io.outgoing
        }),
{
    reveal(arrived);
    reveal(handled);
    let f = fields_of(buf);
    lemma_queue_at(
        st.s.outbuf,
        st.s.send.seq_nr,
        st.s.send.cur_window_packets,
        st.s.send.cur_window,
        0,
    );
    let last = st.s.send.seq_nr.wrapping_sub(1);
    let window = (st.s.send.cur_window_packets + 3) as u16;
    lemma_on_circle(last, window, f.ack_nr);
    lemma_wrapping_less_16(last as u32, f.ack_nr as u32);
    lemma_wrapping_less_16(f.ack_nr as u32, last.wrapping_sub(window) as u32);
    lemma_end_fixed(
        buf,
        HEADER_SIZE as int,
        buf[1],
        None,
        None,
        st.s.extensions,
        Seq::empty(),
    );
    assert(heard(st, buf).s.ahead(f.seq_nr) == (be16(buf, 16) - st.s.recv.ack_nr - 1) % 0x10000);
}

/// The room that is left for the peer's data.
pub open spec fn room(s: SockView) -> int {
    if s.user.read_buf.len() < s.recv.opt_rcvbuf {
        s.recv.opt_rcvbuf - s.user.read_buf.len()
    } else {
        0
    }
}

/// When reading has made room, the peer learns of it: at once if it had been
/// told that there is none, or else with an ack that is owed from then on. If
/// there is no more room than it knows of, nothing is said.
pub proof fn lemma_room_is_announced(st: St)
    requires
        st.s.wf(),
    ensures
        ({
            let after = drained(st);
            let known = st.s.send.last_rcv_win;
            let d = after.io.outgoing.last();
            &&& room(st.s) <= known ==> after == st
            &&& room(st.s) > known && known == 0 ==> {
                &&& after.io.outgoing.len() == st.io.outgoing.len() + 1
                &&& d.addr == st.s.peer.key.addr
                &&& be32(d.data, 12) == room(st.s) % 0x1_0000_0000
                &&& be16(d.data, 18) == st.s.recv.ack_nr
            }
            &&& room(st.s) > known && known > 0 ==> {
                &&& after.io.outgoing == st.io.outgoing
                &&& after.s.in_ack_list
            }
        }),
{
    lemma_ack_tells_all(st);
}

/// At the end of the stream, once all before it has come in, the user learns of
/// it, the peer gets an ack at once, and what is left of the connection does not
/// wait long.
pub proof fn lemma_end_is_acked_at_once(st: St)
    requires
        st.s.recv.got_fin,
        !st.s.recv.got_fin_reached,
        st.s.recv.eof_pkt == st.s.recv.ack_nr,
        st.io.current_ms < 0x8000_0000_0000_0000,
    ensures
        ({
            let after = fin_reached(st);
            let d = after.io.outgoing.last();
            &&& after.s.user.got_eof
            &&& after.s.user.notified
            &&& after.s.recv.got_fin_reached
            &&& after.io.outgoing.len() == st.io.outgoing.len() + 1
            &&& d.addr == st.s.peer.key.addr
            &&& be16(d.data, 18) == st.s.recv.ack_nr
            &&& st.io.current_ms <= after.s.send.rto_timeout <= st.io.current_ms + 60
            &&& after.s.user.read_buf == st.s.user.read_buf
        }),
{
    reveal(fin_reached);
    let e = St { s: st.s.ended(st.io.current_ms), ..st };
    lemma_ack_tells_all(e);
    lemma_ack_sent(e);
}

/// Before that, there is no end.
pub proof fn lemma_no_end_before(st: St)
    requires
        !st.s.recv.got_fin || st.s.recv.eof_pkt != st.s.recv.ack_nr || st.s.recv.got_fin_reached,
    ensures
        fin_reached(st) == st,
{
    reveal(fin_reached);
}

/// What comes in after the user has closed the connection is not handed up any
/// more.
pub proof fn lemma_closed_reads_nothing(st: St, buf: Seq<u8>)
    requires
        st.s.wf(),
        heeded(st.s, buf),
        st.s.recv.read_shutdown,
    ensures
        arrived(st, buf, false).1.s.user.read_buf == st.s.user.read_buf,
{
    lemma_heeded(st, buf);
    lemma_moves(st, buf);
    let f = fields_of(buf);
    let selack = exts_of(buf, st.s.extensions).selack;
    let h = heard(st, buf);
    lemma_measured(h.s, f, selack, h.io.now, h.io.current_ms);
    let m = measured_by(st, buf);
    lemma_progressed(m, f, selack);
    let p = progressed(m, f, selack);
    reveal(taken_in);
    reveal(received_in_order);
    reveal(received_early);
    let noted = St { s: p.s.fin_noted(f), ..p };
    lemma_reordered_closed(
        St { s: noted.s.handed_up(payload_of(buf)->0).advanced(), ..noted },
    );
}

proof fn lemma_reordered_closed(st: St)
    requires
        st.s.recv.read_shutdown,
    ensures
        reordered(st).s.user.read_buf == st.s.user.read_buf,
    decreases st.s.recv.reorder_count,
{
    reveal(reordered);
    let f = fin_reached(st);
    lemma_fin_reached(st);
    if f.s.recv.reorder_count == 0 || f.s.next_in_order() is None {
    } else {
        lemma_reordered_closed(St { s: f.s.taken_up(), ..f });
    }
}

/// An ack tells of what has come in early: while something has, it carries a
/// mask, and of the 30 packets after the next expected one a bit is set exactly
/// for those that are there.
pub proof fn lemma_ack_tells_of_early_packets(st: St, i: int)
    requires
        st.s.wf(),
        0 <= i < 30,
    ensures
        ({
            let d = ack_sent(st).io.outgoing.last().data;
            let early = st.s.recv.reorder_count != 0 && !st.s.recv.got_fin_reached;
            &&& early ==> {
                &&& d.len() == 26
                &&& d[1] == 1
                &&& d[20] == 0
                &&& d[21] == 4
                &&& i < st.s.inbuf.len() ==> (mask_bit(d.subrange(22, 26), i) <==> ring_at(
                    st.s.inbuf,
                    st.s.recv.ack_nr + 2 + i,
                ) is Some)
            }
            &&& !early ==> d.len() == 20 && d[1] == 0
        }),
{
    reveal(ack_sent);
    let s = SockView {
        send: SendSide { last_rcv_win: st.s.rcv_window(), ..st.s.send },
        ..st.s
    };
    let b = s.ack_bytes();
    lemma_ack_reads_back(s, Seq::empty());
    lemma_stamps(St { s, ..st }, b);
    let d = ack_sent(st).io.outgoing.last().data;
    lemma_ack_shape(s);
    if s.sends_eack() {
        assert(exts_of(b, Seq::empty()).selack == Some(b.subrange(22, 26))) by {
            reveal_with_fuel(exts_from, 2);
        }
        assert(d.subrange(22, 26) =~= b.subrange(22, 26));
        let mask = exts_of(b, Seq::empty()).selack->0;
        assert(mask_bit(mask, i) == s.has_segment(i));
        assert(mask == d.subrange(22, 26));
    }
}

proof fn lemma_ack_shape(s: SockView)
    ensures
        s.sends_eack() ==> s.ack_bytes().len() == 26 && s.ack_bytes()[1] == 1 && s.ack_bytes()[20]
            == 0 && s.ack_bytes()[21] == 4,
        !s.sends_eack() ==> s.ack_bytes().len() == 20 && s.ack_bytes()[1] == 0,
{
    reveal(SockView::ack_bytes);
}

/// The extension bits that the peer tells of are kept.
pub proof fn lemma_extension_bits_are_kept(st: St, buf: Seq<u8>)
    requires
        st.s.wf(),
        heeded(st.s, buf),
    ensures
        ({
            let after = arrived(st, buf, false).1.s.extensions;
            &&& buf[1] == 2 && buf.len() >= 30 && buf[20] == 0 && buf[21] == 8 ==> after
                == buf.subrange(22, 30)
            &&& buf[1] == 0 ==> after == st.s.extensions
        }),
{
    lemma_heeded(st, buf);
    lemma_moves(st, buf);
    let f = fields_of(buf);
    let e = exts_of(buf, st.s.extensions);
    let h = heard(st, buf);
    lemma_measured(h.s, f, e.selack, h.io.now, h.io.current_ms);
    let m = measured_by(st, buf);
    lemma_progressed(m, f, e.selack);
    let p = progressed(m, f, e.selack);
    lemma_extensions_apart(p, f, payload_of(buf)->0);
    assert(buf[1] == 2 && buf.len() >= 30 && buf[20] == 0 && buf[21] == 8 ==> e.bits
        == buf.subrange(22, 30)) by {
        reveal_with_fuel(exts_from, 2);
    }
}

proof fn lemma_extensions_apart(st: St, f: Fields, data: Seq<u8>)
    requires
        st.s.wf(),
    ensures
        taken_in(st, f, data).1.s.extensions == st.s.extensions,
{
    reveal(taken_in);
    let noted = St { s: st.s.fin_noted(f), ..st };
    lemma_received_in_order(noted, data);
    reveal(received_early);
}

/// The first FIN tells where the stream ends, and no later one moves that.
pub proof fn lemma_first_fin_counts(st: St, buf: Seq<u8>)
    requires
        st.s.wf(),
        heeded(st.s, buf),
        st.s.state == ConnState::Connected || st.s.state == ConnState::ConnectedFull,
        !st.s.send.fin_sent,
    ensures
        ({
            let after = arrived(st, buf, false).1.s.recv;
            &&& st.s.recv.got_fin ==> after.got_fin && after.eof_pkt == st.s.recv.eof_pkt
            &&& !st.s.recv.got_fin && buf[0] / 16 == 1 ==> after.got_fin && after.eof_pkt == be16(
                buf,
                16,
            )
            &&& !st.s.recv.got_fin && buf[0] / 16 != 1 ==> !after.got_fin
        }),
{
    lemma_parts(st, buf);
    let f = fields_of(buf);
    let p = moves(st, buf).moved;
    lemma_moves(st, buf);
    let noted = St { s: p.s.fin_noted(f), ..p };
    lemma_received_in_order(noted, payload_of(buf)->0);
    reveal(taken_in);
    reveal(received_early);
}

/// What comes in early with a number past the end of the stream is not taken.
pub proof fn lemma_nothing_past_the_end(st: St, buf: Seq<u8>)
    requires
        st.s.wf(),
        heeded(st.s, buf),
        st.s.state == ConnState::Connected || st.s.state == ConnState::ConnectedFull,
        !st.s.send.fin_sent,
        st.s.recv.got_fin,
        be16(buf, 16) > st.s.recv.eof_pkt,
        be16(buf, 16) != (st.s.recv.ack_nr + 1) % 0x10000,
    ensures
        arrived(st, buf, false).0 == 0,
        arrived(st, buf, false).1.s.inbuf == st.s.inbuf,
        arrived(st, buf, false).1.s.recv == st.s.recv,
{
    lemma_parts(st, buf);
    reveal(taken_in);
    reveal(received_early);
}

} // verus!

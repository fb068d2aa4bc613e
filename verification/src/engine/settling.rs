//! What the peer's packets settle: the packets that they ack are done with,
//! those that did not get through go out again, and the peer's window is known.

use crate::clock::Now;
use crate::engine::acks::{
    lemma_acked, lemma_oldest_acked, lemma_window_shrunk, lemma_window_trimmed,
};
use crate::engine::deliver::{
    fin_reached, lemma_fin_reached, lemma_received_in_order, received_early, received_in_order,
    reordered,
};
use crate::engine::eack::{lemma_selectively_acked, selectively_acked};
use crate::engine::extensions::{exts_from, exts_of, payload_of};
use crate::engine::flow::{full_payload, no_room};
use crate::engine::incoming::{arrived, lemma_arrived, lemma_taken_in, taken_in};
use crate::engine::measure::{fields_of, lemma_measured, Fields};
use crate::engine::model::{packet_sent, St};
use crate::engine::probing::lemma_acks_counted;
use crate::engine::progress::{
    fast_retried, lemma_eack_moved, lemma_fast_retried, lemma_nagle_flushed, lemma_progressed,
    lemma_queue_moved, lemma_state_moved, nagle_flushed, progressed, queue_moved, state_moved,
};
use crate::engine::queue::{lemma_queue_at, lemma_slots_differ};
use crate::engine::recovery::{
    first_missed, goes_out, got_through, in_window, lemma_first_missed_goes_out,
    lemma_loss_halves_window, lemma_missed_packets_go_out, lemma_own_number, missed, missed_below,
    more_sent, number_at, sent_at,
};
use crate::engine::state::{ConnState, SendSide, SockView};
use crate::engine::timing::{heard, heeded, lemma_heeded, lemma_packet_tells_all, measured_by};
use crate::engine::transmit::{lemma_io_frame_refl, lemma_packet_sent, only_sent_to};
use crate::engine::write::lemma_written;
use crate::packet::{be16, be32};
use crate::util::lemma_wrapping_less_16;
use vstd::prelude::*;

verus! {

/// The states between the measuring of a packet and the taking in of its data.
pub struct Moves {
    pub measured: St,
    pub stated: St,
    pub queued: St,
    pub nagled: St,
    pub retried: St,
    pub acked: St,
    pub moved: St,
}

pub open spec fn moves(st: St, buf: Seq<u8>) -> Moves {
    let f = fields_of(buf);
    let selack = exts_of(buf, st.s.extensions).selack;
    let measured = measured_by(st, buf);
    let acks = measured.s.acks_of(f.ack_nr);
    let stated = state_moved(measured, f, acks);
    let queued = queue_moved(stated, f, acks);
    let nagled = nagle_flushed(queued);
    let retried = fast_retried(nagled);
    let acked = match selack {
        Some(mask) => selectively_acked(retried, f.ack_nr.wrapping_add(2), mask),
        None => retried,
    };
    Moves {
        measured,
        stated,
        queued,
        nagled,
        retried,
        acked,
        moved: St { s: acked.s.writable_again(acked.io.current_ms), ..acked },
    }
}

/// A packet that is heeded goes through these states.
pub proof fn lemma_moves(st: St, buf: Seq<u8>)
    requires
        st.s.wf(),
        heeded(st.s, buf),
    ensures
        ({
            let f = fields_of(buf);
            let m = moves(st, buf);
            &&& arrived(st, buf, false) == taken_in(m.moved, f, payload_of(buf)->0)
            &&& m.measured.s.wf()
            &&& m.stated.s.wf()
            &&& m.queued.s.wf()
            &&& m.nagled.s.wf()
            &&& m.retried.s.wf()
            &&& m.acked.s.wf()
            &&& m.moved.s.wf()
            &&& m.measured.s.acks_of(f.ack_nr) <= m.stated.s.send.cur_window_packets
        }),
{
    let f = fields_of(buf);
    let selack = exts_of(buf, st.s.extensions).selack;
    lemma_heeded(st, buf);
    reveal(progressed);
    let m = moves(st, buf);
    let acks = m.measured.s.acks_of(f.ack_nr);
    lemma_state_moved(m.measured, f, acks);
    lemma_queue_moved(m.stated, f, acks);
    lemma_nagle_flushed(m.queued);
    lemma_fast_retried(m.nagled);
    match selack {
        Some(mask) => lemma_eack_moved(m.retried, f.ack_nr.wrapping_add(2), mask),
        None => {},
    }
    assert(m.moved == progressed(m.measured, f, selack));
}

/// Measuring leaves the send queue alone.
pub proof fn lemma_measured_queue(st: St, buf: Seq<u8>)
    requires
        st.s.wf(),
        heeded(st.s, buf),
    ensures
        ({
            let m = measured_by(st, buf);
            &&& m.s.send == (SendSide { duplicate_ack: m.s.send.duplicate_ack, ..st.s.send })
            &&& m.s.outbuf == st.s.outbuf
            &&& m.s.state == st.s.state
            &&& m.s.user == st.s.user
            &&& m.s.peer == st.s.peer
            &&& m.s.rtt == st.s.rtt
            &&& m.io.now == st.io.now
            &&& m.io.current_ms == st.io.now.ms
            &&& m.io.outgoing == st.io.outgoing
            &&& m.io.ack_list == st.io.ack_list
            &&& m.s.in_ack_list == st.s.in_ack_list
        }),
{
    lemma_heeded(st, buf);
    let h = heard(st, buf);
    lemma_measured(
        h.s,
        fields_of(buf),
        exts_of(buf, st.s.extensions).selack,
        h.io.now,
        h.io.current_ms,
    );
}

/// What taking data in leaves alone.
pub proof fn lemma_taken_in_apart(st: St, f: Fields, data: Seq<u8>)
    requires
        st.s.wf(),
        st.s.ahead(f.seq_nr) < 1024,
    ensures
        ({
            let after = taken_in(st, f, data).1;
            &&& after.s.send == (SendSide {
                rto_timeout: after.s.send.rto_timeout,
                last_sent_packet: after.s.send.last_sent_packet,
                last_rcv_win: after.s.send.last_rcv_win,
                ..st.s.send
            })
            &&& after.s.outbuf == st.s.outbuf
            &&& after.s.cwnd == st.s.cwnd
            &&& after.s.mtu == st.s.mtu
            &&& after.s.rtt == st.s.rtt
            &&& after.s.seen == st.s.seen
            &&& after.s.state == st.s.state
            &&& after.s.peer == st.s.peer
            &&& st.io.outgoing.len() <= after.io.outgoing.len()
            &&& after.io.outgoing.take(st.io.outgoing.len() as int) == st.io.outgoing
            &&& f.packet_type == 2 ==> after == st
        }),
{
    lemma_taken_in(st, f, data);
    reveal(only_sent_to);
    reveal(taken_in);
    let noted = St { s: st.s.fin_noted(f), ..st };
    lemma_received_in_order(noted, data);
    reveal(received_early);
}

/// Whether all of the `n` oldest packets have been sent at least once.
pub open spec fn oldest_sent(s: SockView, n: int) -> bool {
    forall|k: int| #![trigger number_at(s.oldest_seq(), k)]
        0 <= k < n && s.packet_at(number_at(s.oldest_seq(), k)) is Some ==> s.packet_at(
            number_at(s.oldest_seq(), k),
        )->0.transmissions > 0
}

/// Counting on from the next number.
proof fn lemma_next_number(seq_nr: u16, packets: u16, k: int)
    requires
        0 < packets <= 1024,
        0 <= k < packets - 1,
    ensures
        ({
            let oldest = seq_nr.wrapping_sub(packets);
            let next = seq_nr.wrapping_sub((packets - 1) as u16);
            let q = number_at(next, k);
            &&& q == number_at(oldest, k + 1)
            &&& q != oldest
            &&& (seq_nr - 1 - q) % 0x10000 < packets
            &&& (seq_nr - 1 - oldest) % 0x10000 < packets
        }),
{
}

proof fn lemma_all_oldest_acked(s: SockView, now: Now, current_ms: u64, n: int)
    requires
        s.send_wf(),
        0 <= n <= s.send.cur_window_packets,
        oldest_sent(s, n),
    ensures
        s.oldest_acked(now, current_ms, n).send.cur_window_packets == s.send.cur_window_packets - n,
    decreases n,
{
    reveal(SockView::oldest_acked);
    if n > 0 {
        let oldest = s.oldest_seq();
        lemma_queue_at(
            s.outbuf,
            s.send.seq_nr,
            s.send.cur_window_packets,
            s.send.cur_window,
            oldest as int,
        );
        assert(number_at(oldest, 0) == oldest);
        lemma_acked(s, now, current_ms, oldest);
        let t = s.acked(now, current_ms, oldest);
        lemma_window_shrunk(t);
        let u = t.window_shrunk();
        assert forall|k: int| #![trigger number_at(u.oldest_seq(), k)]
            0 <= k < n - 1 && u.packet_at(number_at(u.oldest_seq(), k)) is Some implies u.packet_at(
            number_at(u.oldest_seq(), k),
        )->0.transmissions > 0 by {
            let q = number_at(u.oldest_seq(), k);
            lemma_next_number(s.send.seq_nr, s.send.cur_window_packets, k);
            assert(q == number_at(oldest, k + 1));
            lemma_slots_differ(
                s.outbuf,
                s.send.seq_nr,
                s.send.cur_window_packets,
                s.send.cur_window,
                oldest,
                q,
            );
            lemma_queue_at(
                s.outbuf,
                s.send.seq_nr,
                s.send.cur_window_packets,
                s.send.cur_window,
                q as int,
            );
            assert(u.packet_at(q) == s.packet_at(q));
        }
        lemma_all_oldest_acked(u, now, current_ms, n - 1);
    }
}

proof fn lemma_trimmed_is_less(s: SockView)
    requires
        s.send_wf(),
    ensures
        s.window_trimmed().send.cur_window_packets <= s.send.cur_window_packets,
    decreases s.send.cur_window_packets,
{
    reveal(SockView::window_trimmed);
    if s.send.cur_window_packets > 0 && s.packet_at(s.oldest_seq()) is None {
        lemma_window_shrunk(s);
        lemma_trimmed_is_less(s.window_shrunk());
    }
}

/// What comes after the queue has moved adds no packet to it.
proof fn lemma_later_moves(st: St, buf: Seq<u8>)
    requires
        st.s.wf(),
        heeded(st.s, buf),
    ensures
        ({
            let m = moves(st, buf);
            let after = arrived(st, buf, false).1;
            &&& after.s.send.seq_nr == m.queued.s.send.seq_nr
            &&& after.s.send.cur_window_packets == m.queued.s.send.cur_window_packets
            &&& after.s.send.max_window_user == m.queued.s.send.max_window_user
            &&& after.s.send.zerowindow_time == m.queued.s.send.zerowindow_time
            &&& after.s.send.fin_sent_acked == m.queued.s.send.fin_sent_acked
            &&& m.queued.s.state == ConnState::Destroy ==> after.s.state == ConnState::Destroy
        }),
{
    let f = fields_of(buf);
    let m = moves(st, buf);
    lemma_moves(st, buf);
    lemma_heeded(st, buf);
    let last = m.queued.s.send.seq_nr.wrapping_sub(1);
    reveal(nagle_flushed);
    lemma_packet_sent(m.queued, last);
    reveal(fast_retried);
    let s = SockView {
        send: SendSide {
            fast_resend_seq_nr: m.nagled.s.send.fast_resend_seq_nr.wrapping_add(1),
            ..m.nagled.s.send
        },
        ..m.nagled.s
    };
    lemma_packet_sent(St { s, ..m.nagled }, m.nagled.s.oldest_seq());
    match exts_of(buf, st.s.extensions).selack {
        Some(mask) => lemma_selectively_acked(m.retried, f.ack_nr.wrapping_add(2), mask),
        None => {},
    }
    lemma_moved_ahead(st, buf);
    lemma_taken_in_apart(m.moved, f, payload_of(buf)->0);
}

/// The packets that arrive are not touched by what they move on.
pub proof fn lemma_moved_ahead(st: St, buf: Seq<u8>)
    requires
        st.s.wf(),
        heeded(st.s, buf),
    ensures
        moves(st, buf).moved.s.ahead(fields_of(buf).seq_nr) < 1024,
        moves(st, buf).moved.s.recv == heard(st, buf).s.recv,
{
    lemma_heeded(st, buf);
    let f = fields_of(buf);
    let selack = exts_of(buf, st.s.extensions).selack;
    let h = heard(st, buf);
    lemma_measured(h.s, f, selack, h.io.now, h.io.current_ms);
    let m = moves(st, buf);
    lemma_progressed(m.measured, f, selack);
    assert(m.moved == progressed(m.measured, f, selack)) by {
        reveal(progressed);
    }
}

/// The packets that an ack covers are done with: they leave the queue, and the
/// window with it.
pub proof fn lemma_acked_packets_leave(st: St, buf: Seq<u8>)
    requires
        st.s.wf(),
        heeded(st.s, buf),
        st.s.state != ConnState::SynSent,
        (be16(buf, 18) - (st.s.send.seq_nr - st.s.send.cur_window_packets - 1)) % 0x10000
            <= st.s.send.cur_window_packets,
        oldest_sent(
            st.s,
            (be16(buf, 18) - (st.s.send.seq_nr - st.s.send.cur_window_packets - 1)) % 0x10000,
        ),
    ensures
        ({
            let n = (be16(buf, 18) - (st.s.send.seq_nr - st.s.send.cur_window_packets - 1))
                % 0x10000;
            let after = arrived(st, buf, false).1.s;
            &&& after.send.seq_nr == st.s.send.seq_nr
            &&& after.send.cur_window_packets <= st.s.send.cur_window_packets - n
            &&& forall|q: u16|
                (st.s.send.seq_nr - 1 - q) % 0x10000 >= st.s.send.cur_window_packets - n
                    && #[trigger] after.packet_at(q) is Some ==> be16(
                    after.packet_at(q)->0.data,
                    16,
                ) != q
        }),
{
    let f = fields_of(buf);
    let m = moves(st, buf);
    let n = (be16(buf, 18) - (st.s.send.seq_nr - st.s.send.cur_window_packets - 1)) % 0x10000;
    lemma_moves(st, buf);
    lemma_measured_queue(st, buf);
    lemma_acks_counted(m.measured.s, f.ack_nr);
    assert(m.measured.s.acks_of(f.ack_nr) == n);
    reveal(state_moved);
    reveal(queue_moved);
    let a = m.stated.s.fast_resend_moved(f);
    assert(oldest_sent(a, n)) by {
        assert forall|k: int| #![trigger number_at(a.oldest_seq(), k)]
            0 <= k < n && a.packet_at(number_at(a.oldest_seq(), k)) is Some implies a.packet_at(
            number_at(a.oldest_seq(), k),
        )->0.transmissions > 0 by {
            let q = number_at(st.s.oldest_seq(), k);
            assert(a.packet_at(q) == st.s.packet_at(q));
        }
    }
    lemma_all_oldest_acked(a, st.io.now, st.io.now.ms, n);
    lemma_oldest_acked(a, st.io.now, st.io.now.ms, n);
    let b = a.oldest_acked(st.io.now, st.io.now.ms, n);
    lemma_trimmed_is_less(b);
    lemma_window_trimmed(b);
    lemma_later_moves(st, buf);
    let after = arrived(st, buf, false).1.s;
    lemma_arrived(st, buf, false);
    assert forall|q: u16|
        (st.s.send.seq_nr - 1 - q) % 0x10000 >= st.s.send.cur_window_packets - n
            && #[trigger] after.packet_at(q) is Some implies be16(after.packet_at(q)->0.data, 16)
        != q by {
        lemma_queue_at(
            after.outbuf,
            after.send.seq_nr,
            after.send.cur_window_packets,
            after.send.cur_window,
            q as int,
        );
    }
}

/// How much room the peer has is what it said last. If it has none, it is asked
/// again in 15 seconds.
pub proof fn lemma_peers_window_is_noted(st: St, buf: Seq<u8>)
    requires
        st.s.wf(),
        heeded(st.s, buf),
        st.io.now.ms < 0x8000_0000_0000_0000,
    ensures
        ({
            let after = arrived(st, buf, false).1.s.send;
            &&& after.max_window_user == be32(buf, 12)
            &&& be32(buf, 12) == 0 ==> after.zerowindow_time == st.io.now.ms + 15000
            &&& be32(buf, 12) != 0 ==> after.zerowindow_time == st.s.send.zerowindow_time
        }),
{
    let f = fields_of(buf);
    let m = moves(st, buf);
    lemma_moves(st, buf);
    lemma_measured_queue(st, buf);
    lemma_later_moves(st, buf);
    let acks = m.measured.s.acks_of(f.ack_nr);
    reveal(state_moved);
    let s = m.measured.s.window_noted(f, m.measured.io.current_ms).accepted(f);
    if s.completes(f) {
        lemma_written(St { s: s.connected(), ..m.measured }, Seq::empty());
    }
    reveal(queue_moved);
    lemma_oldest_acked(
        m.stated.s.fast_resend_moved(f),
        m.stated.io.now,
        m.stated.io.current_ms,
        acks as int,
    );
    lemma_window_trimmed(
        m.stated.s.fast_resend_moved(f).oldest_acked(
            m.stated.io.now,
            m.stated.io.current_ms,
            acks as int,
        ),
    );
}

/// Once all is acked after a FIN was sent, the FIN is known to have arrived, and
/// a connection that its user has closed is done.
pub proof fn lemma_acked_fin_ends_it(st: St, buf: Seq<u8>)
    requires
        st.s.wf(),
        heeded(st.s, buf),
        st.s.state != ConnState::SynSent,
        st.s.send.fin_sent,
        be16(buf, 18) == (st.s.send.seq_nr - 1) % 0x10000,
    ensures
        ({
            let after = arrived(st, buf, false).1.s;
            &&& after.send.fin_sent_acked
            &&& st.s.send.close_requested ==> after.state == ConnState::Destroy
        }),
{
    let f = fields_of(buf);
    let m = moves(st, buf);
    lemma_moves(st, buf);
    lemma_measured_queue(st, buf);
    lemma_later_moves(st, buf);
    lemma_acks_counted(m.measured.s, f.ack_nr);
    lemma_queue_at(
        st.s.outbuf,
        st.s.send.seq_nr,
        st.s.send.cur_window_packets,
        st.s.send.cur_window,
        0,
    );
    let acks = m.measured.s.acks_of(f.ack_nr);
    reveal(state_moved);
    reveal(queue_moved);
    let t = m.stated.s.fast_resend_moved(f);
    lemma_oldest_acked(t, m.stated.io.now, m.stated.io.current_ms, acks as int);
    lemma_window_trimmed(t.oldest_acked(m.stated.io.now, m.stated.io.current_ms, acks as int));
}

/// After a packet has come in, a connection counts as full only if there is no
/// room for a full packet; if it was full and is not any more, its user is
/// told.
pub proof fn lemma_room_is_told(st: St, buf: Seq<u8>)
    requires
        st.s.wf(),
        heeded(st.s, buf),
    ensures
        ({
            let after = arrived(st, buf, false).1.s;
            &&& after.state == ConnState::ConnectedFull ==> no_room(after, full_payload(after))
            &&& st.s.state == ConnState::ConnectedFull && after.state == ConnState::Connected
                ==> after.user.notified
        }),
{
    let f = fields_of(buf);
    let selack = exts_of(buf, st.s.extensions).selack;
    let m = moves(st, buf);
    lemma_moves(st, buf);
    lemma_moved_ahead(st, buf);
    lemma_taken_in_apart(m.moved, f, payload_of(buf)->0);
    lemma_told_stays(m.moved, f, payload_of(buf)->0);
    lemma_measured_queue(st, buf);
    reveal(state_moved);
    reveal(queue_moved);
    let acks = m.measured.s.acks_of(f.ack_nr);
    if st.s.state == ConnState::ConnectedFull {
        lemma_still_full(st, buf);
    }
}

/// Being told is not undone.
pub proof fn lemma_told_stays(st: St, f: Fields, data: Seq<u8>)
    requires
        st.s.wf(),
        st.s.ahead(f.seq_nr) < 1024,
    ensures
        st.s.user.notified ==> taken_in(st, f, data).1.s.user.notified,
{
    reveal(taken_in);
    reveal(received_in_order);
    reveal(received_early);
    let noted = St { s: st.s.fin_noted(f), ..st };
    lemma_reordered_told(St { s: noted.s.handed_up(data).advanced(), ..noted });
}

proof fn lemma_reordered_told(st: St)
    ensures
        st.s.user.notified ==> reordered(st).s.user.notified,
    decreases st.s.recv.reorder_count,
{
    reveal(reordered);
    let f = fin_reached(st);
    lemma_fin_reached(st);
    if f.s.recv.reorder_count == 0 || f.s.next_in_order() is None {
    } else {
        lemma_reordered_told(St { s: f.s.taken_up(), ..f });
    }
}

/// Until it is looked at again, a full connection stays full, unless it is
/// done.
proof fn lemma_still_full(st: St, buf: Seq<u8>)
    requires
        st.s.wf(),
        heeded(st.s, buf),
        st.s.state == ConnState::ConnectedFull,
    ensures
        ({
            let s = moves(st, buf).acked.s.state;
            s == ConnState::ConnectedFull || s == ConnState::Destroy
        }),
{
    let f = fields_of(buf);
    let m = moves(st, buf);
    lemma_moves(st, buf);
    lemma_measured_queue(st, buf);
    let acks = m.measured.s.acks_of(f.ack_nr);
    reveal(state_moved);
    reveal(queue_moved);
    let t = m.stated.s.fast_resend_moved(f);
    lemma_oldest_acked(t, m.stated.io.now, m.stated.io.current_ms, acks as int);
    lemma_window_trimmed(t.oldest_acked(m.stated.io.now, m.stated.io.current_ms, acks as int));
    let last = m.queued.s.send.seq_nr.wrapping_sub(1);
    reveal(nagle_flushed);
    lemma_packet_sent(m.queued, last);
    reveal(fast_retried);
    let s = SockView {
        send: SendSide {
            fast_resend_seq_nr: m.nagled.s.send.fast_resend_seq_nr.wrapping_add(1),
            ..m.nagled.s.send
        },
        ..m.nagled.s
    };
    lemma_packet_sent(St { s, ..m.nagled }, m.nagled.s.oldest_seq());
    lemma_heeded(st, buf);
    match exts_of(buf, st.s.extensions).selack {
        Some(mask) => lemma_selectively_acked(m.retried, f.ack_nr.wrapping_add(2), mask),
        None => {},
    }
}

/// Whether `buf` is a packet with a selective ack as its one extension.
pub open spec fn has_mask(buf: Seq<u8>) -> bool {
    &&& buf.len() >= 22
    &&& buf[1] == 1
    &&& buf[20] == 0
    &&& 22 + buf[21] <= buf.len()
}

pub open spec fn mask_in(buf: Seq<u8>) -> Seq<u8> {
    buf.subrange(22, 22 + buf[21])
}

/// Whether the packet `buf` acks, besides what its mask tells of, nothing new
/// to a connection that has packets outstanding and is not recovering from a
/// timeout.
pub open spec fn tells_of_loss(s: SockView, buf: Seq<u8>) -> bool {
    &&& heeded(s, buf)
    &&& has_mask(buf)
    &&& s.state == ConnState::Connected || s.state == ConnState::ConnectedFull
    &&& s.send.cur_window_packets >= 2
    &&& !s.send.fast_timeout
    &&& be16(buf, 18) == (s.send.seq_nr - s.send.cur_window_packets - 1) % 0x10000
    // what is acked has not been sent again since
    &&& !(0 < (be16(buf, 18) + 1 - s.send.fast_resend_seq_nr) % 0x10000 < 0x8000)
}

/// A packet that tells of loss comes down to its mask.
proof fn lemma_mask_counts(st: St, buf: Seq<u8>)
    requires
        st.s.wf(),
        tells_of_loss(st.s, buf),
    ensures
        ({
            let m = moves(st, buf);
            let base = ((be16(buf, 18) + 2) % 0x10000) as u16;
            &&& m.acked == selectively_acked(m.retried, base, mask_in(buf))
            &&& m.retried.io.outgoing == st.io.outgoing
            &&& m.retried.io.current_ms == st.io.now.ms
            &&& m.retried.s.peer == st.s.peer
            &&& m.retried.s.outbuf == st.s.outbuf
            &&& m.retried.s.send.seq_nr == st.s.send.seq_nr
            &&& m.retried.s.send.cur_window_packets == st.s.send.cur_window_packets
            &&& m.retried.s.send.fast_resend_seq_nr == st.s.send.fast_resend_seq_nr
            &&& be32(buf, 8) == 0 ==> m.retried.s.cwnd == st.s.cwnd
        }),
{
    let f = fields_of(buf);
    let m = moves(st, buf);
    lemma_moves(st, buf);
    lemma_measured_queue(st, buf);
    assert(exts_of(buf, st.s.extensions).selack == Some(mask_in(buf))) by {
        reveal_with_fuel(exts_from, 2);
    }
    lemma_acks_counted(m.measured.s, f.ack_nr);
    assert(m.measured.s.acks_of(f.ack_nr) == 0);
    lemma_queue_at(
        st.s.outbuf,
        st.s.send.seq_nr,
        st.s.send.cur_window_packets,
        st.s.send.cur_window,
        st.s.oldest_seq() as int,
    );
    reveal(state_moved);
    reveal(queue_moved);
    lemma_wrapping_less_16(
        st.s.send.fast_resend_seq_nr as u32,
        f.ack_nr.wrapping_add(1) as u32,
    );
    let t = m.stated.s.fast_resend_moved(f);
    assert(t == m.stated.s);
    assert(t.oldest_acked(m.stated.io.now, m.stated.io.current_ms, 0) == t) by {
        reveal(SockView::oldest_acked);
    }
    assert(t.window_trimmed() == t) by {
        reveal(SockView::window_trimmed);
    }
    reveal(nagle_flushed);
    reveal(fast_retried);
    if be32(buf, 8) == 0 {
        assert(m.measured.s.cwnd == st.s.cwnd) by {
            reveal(SockView::measured);
        }
    }
}

/// What is missed depends on nothing but the send queue.
proof fn lemma_missed_same(a: SockView, b: SockView, base: u16, mask: Seq<u8>, n: int)
    requires
        b.outbuf == a.outbuf,
        b.send.seq_nr == a.send.seq_nr,
        b.send.cur_window_packets == a.send.cur_window_packets,
        b.send.fast_resend_seq_nr == a.send.fast_resend_seq_nr,
    ensures
        missed_below(b, base, mask, n) == missed_below(a, base, mask, n),
        first_missed(b, base, mask) == first_missed(a, base, mask),
        forall|i: int| #[trigger] missed(b, base, mask, i) == missed(a, base, mask, i),
    decreases n + 1,
{
    let m = 8 * mask.len() as int;
    lemma_through_same(a, b, base, mask, 0, m);
    assert forall|i: int| #[trigger] missed(b, base, mask, i) == missed(a, base, mask, i) by {
        lemma_through_same(a, b, base, mask, i + 1, m);
    }
    if n >= 0 {
        lemma_missed_same(a, b, base, mask, n - 1);
    }
}

proof fn lemma_through_same(a: SockView, b: SockView, base: u16, mask: Seq<u8>, i: int, n: int)
    requires
        b.send.seq_nr == a.send.seq_nr,
        b.send.cur_window_packets == a.send.cur_window_packets,
    ensures
        got_through(b, base, mask, i, n) == got_through(a, base, mask, i, n),
    decreases n - i,
{
    if i < n {
        lemma_through_same(a, b, base, mask, i + 1, n);
    }
}

/// What went out has gone out.
proof fn lemma_went_out(st: St, buf: Seq<u8>, v: u16, body: Seq<u8>)
    requires
        st.s.wf(),
        tells_of_loss(st.s, buf),
        goes_out(moves(st, buf).retried, moves(st, buf).acked, v, body),
    ensures
        goes_out(st, arrived(st, buf, false).1, v, body),
{
    let m = moves(st, buf);
    let f = fields_of(buf);
    lemma_moves(st, buf);
    lemma_mask_counts(st, buf);
    lemma_moved_ahead(st, buf);
    lemma_taken_in_apart(m.moved, f, payload_of(buf)->0);
    let after = arrived(st, buf, false).1;
    let j = choose|j: int| #[trigger] sent_at(m.retried, m.acked, j, v as int, body);
    let n = m.moved.io.outgoing.len() as int;
    assert(after.io.outgoing.take(n)[j] == after.io.outgoing[j]);
    assert(sent_at(st, after, j, v as int, body));
}

/// The number before the mask is the one that the peer waits for.
proof fn lemma_awaited(seq_nr: u16, packets: u16, ack: int)
    requires
        0 < packets <= 1024,
        ack == (seq_nr - packets - 1) % 0x10000,
    ensures
        ({
            let base = ((ack + 2) % 0x10000) as u16;
            let v = number_at(base, -1);
            &&& v == seq_nr.wrapping_sub(packets)
            &&& v == (ack + 1) % 0x10000
            &&& (seq_nr - 1 - v) % 0x10000 < packets
        }),
{
}

/// A packet whose mask shows that at least three packets past the one that the
/// peer waits for got through makes that one go out again, once.
pub proof fn lemma_awaited_packet_goes_out(st: St, buf: Seq<u8>)
    requires
        st.s.wf(),
        tells_of_loss(st.s, buf),
        first_missed(st.s, ((be16(buf, 18) + 2) % 0x10000) as u16, mask_in(buf)),
    ensures
        ({
            let v = ((be16(buf, 18) + 1) % 0x10000) as u16;
            &&& st.s.packet_at(v) is Some
            &&& goes_out(st, arrived(st, buf, false).1, v, st.s.packet_at(v)->0.data.skip(20))
        }),
{
    let base = ((be16(buf, 18) + 2) % 0x10000) as u16;
    let mask = mask_in(buf);
    let v = number_at(base, -1);
    let m = moves(st, buf);
    lemma_moves(st, buf);
    lemma_mask_counts(st, buf);
    assert(m.retried.s.packet_at(v) == st.s.packet_at(v));
    lemma_queue_at(
        st.s.outbuf,
        st.s.send.seq_nr,
        st.s.send.cur_window_packets,
        st.s.send.cur_window,
        v as int,
    );
    lemma_awaited(st.s.send.seq_nr, st.s.send.cur_window_packets, be16(buf, 18));
    lemma_first_the_same(st.s, m.retried, base, mask);
    lemma_went_out(st, buf, v, st.s.packet_at(v)->0.data.skip(20));
}

proof fn lemma_first_the_same(s: SockView, c: St, base: u16, mask: Seq<u8>)
    requires
        c.s.wf(),
        c.s.outbuf == s.outbuf,
        c.s.send.seq_nr == s.send.seq_nr,
        c.s.send.cur_window_packets == s.send.cur_window_packets,
        c.s.send.fast_resend_seq_nr == s.send.fast_resend_seq_nr,
        c.s.send.cur_window_packets > 0,
        mask.len() <= 255,
        first_missed(s, base, mask),
        number_at(base, -1) == s.oldest_seq(),
        in_window(s, number_at(base, -1)),
    ensures
        s.packet_at(number_at(base, -1)) is Some,
        goes_out(
            c,
            selectively_acked(c, base, mask),
            number_at(base, -1),
            s.packet_at(number_at(base, -1))->0.data.skip(20),
        ),
{
    lemma_missed_same(s, c.s, base, mask, -1);
    lemma_first_missed_goes_out(c, base, mask);
}

/// A packet with a selective ack makes the packets go out again that did not
/// get through: every one that its mask shows to be missed, as long as less
/// than four come before it. (The one that the peer waits for is the first.)
pub proof fn lemma_lost_packets_go_out(st: St, buf: Seq<u8>, i: int)
    requires
        st.s.wf(),
        tells_of_loss(st.s, buf),
        missed(st.s, ((be16(buf, 18) + 2) % 0x10000) as u16, mask_in(buf), i),
        missed_below(st.s, ((be16(buf, 18) + 2) % 0x10000) as u16, mask_in(buf), i).len() < 3,
    ensures
        ({
            let v = number_at(((be16(buf, 18) + 2) % 0x10000) as u16, i);
            goes_out(st, arrived(st, buf, false).1, v, st.s.packet_at(v)->0.data.skip(20))
        }),
{
    let base = ((be16(buf, 18) + 2) % 0x10000) as u16;
    let mask = mask_in(buf);
    let v = number_at(base, i);
    let m = moves(st, buf);
    lemma_moves(st, buf);
    lemma_mask_counts(st, buf);
    lemma_missed_same(st.s, m.retried.s, base, mask, i);
    assert(missed(m.retried.s, base, mask, i));
    assert(m.retried.s.packet_at(v) == st.s.packet_at(v));
    lemma_missed_packets_go_out(m.retried, base, mask, i);
    lemma_went_out(st, buf, v, st.s.packet_at(v)->0.data.skip(20));
}

/// A loss halves the congestion window: when an ack makes packets go out again,
/// the window is half of what it was, at most once in 100 milliseconds. (The
/// ack tells of no delay, which would move the window too.)
pub proof fn lemma_loss_shrinks_window(st: St, buf: Seq<u8>)
    requires
        st.s.wf(),
        tells_of_loss(st.s, buf),
        buf[0] / 16 == 2,
        be32(buf, 8) == 0,
        st.s.cwnd.max_window <= 0x20_0000_0000_0000,
    ensures
        ({
            let after = arrived(st, buf, false).1;
            let before = st.s.cwnd;
            let half = before.max_window / 2;
            let rested = (st.io.now.ms as i64).wrapping_sub(before.last_rwin_decay) >= 100;
            &&& more_sent(st, after) && rested ==> {
                &&& after.s.cwnd.max_window == (if half < 10 {
                    10
                } else {
                    half
                })
                &&& after.s.cwnd.ssthresh == after.s.cwnd.max_window
                &&& !after.s.cwnd.slow_start
            }
            &&& !more_sent(st, after) || !rested ==> {
                &&& after.s.cwnd.max_window == before.max_window
                &&& after.s.cwnd.ssthresh == before.ssthresh
                &&& after.s.cwnd.slow_start == before.slow_start
            }
        }),
{
    let base = ((be16(buf, 18) + 2) % 0x10000) as u16;
    let m = moves(st, buf);
    lemma_moves(st, buf);
    lemma_mask_counts(st, buf);
    lemma_loss_halves_window(m.retried, base, mask_in(buf));
    lemma_moved_ahead(st, buf);
    lemma_taken_in_apart(m.moved, fields_of(buf), payload_of(buf)->0);
}

/// A packet that is acked leaves the queue and what is in flight, and the next
/// ack is waited for anew. If it was sent only once, the time it took is a
/// sample of the round trip; of one that was sent more often, it is not known
/// which time was acked, and nothing is learnt.
pub proof fn lemma_ack_samples_round_trip(s: SockView, now: Now, current_ms: u64, seq: u16)
    requires
        s.send_wf(),
        s.packet_at(seq) is Some,
        s.packet_at(seq)->0.transmissions > 0,
        s.packet_at(seq)->0.time_sent <= now.us,
        now.us < 0x100_0000_0000,
        current_ms < 0x8000_0000_0000_0000,
    ensures
        ({
            let p = s.packet_at(seq)->0;
            let t = s.acked(now, current_ms, seq);
            let took = (now.us - p.time_sent) / 1000;
            &&& t.packet_at(seq) is None
            &&& t.send.cur_window == s.send.cur_window - (if p.need_resend {
                0
            } else {
                p.payload as int
            })
            &&& t.send.retransmit_count == 0
            &&& t.rtt == (if p.transmissions == 1 {
                s.rtt.sampled(took as u32)
            } else {
                s.rtt
            })
            &&& t.rtt_hist == (if p.transmissions == 1 && s.rtt.rtt != 0 {
                s.rtt_hist.sampled_with(took as u32, current_ms)
            } else {
                s.rtt_hist
            })
            &&& t.send.retransmit_timeout == t.rtt.rto
            &&& t.send.rto_timeout == current_ms + t.rtt.rto
        }),
{
    reveal(SockView::acked);
    lemma_queue_at(
        s.outbuf,
        s.send.seq_nr,
        s.send.cur_window_packets,
        s.send.cur_window,
        seq as int,
    );
}

/// What was never sent cannot be acked.
pub proof fn lemma_unsent_is_not_acked(s: SockView, now: Now, current_ms: u64, seq: u16)
    requires
        s.packet_at(seq) is Some,
        s.packet_at(seq)->0.transmissions == 0,
    ensures
        s.acked(now, current_ms, seq) == s,
{
    reveal(SockView::acked);
}

/// After a timeout, an ack that brings the packet that timed out to the front
/// makes it go out once more, and no ack does so twice.
pub proof fn lemma_timed_out_packets_follow(st: St)
    requires
        st.s.wf(),
        st.s.send.fast_timeout,
        st.s.send.cur_window_packets > 0,
    ensures
        ({
            let oldest = ((st.s.send.seq_nr - st.s.send.cur_window_packets) % 0x10000) as u16;
            let after = fast_retried(st);
            let due = oldest == st.s.send.fast_resend_seq_nr;
            let sent = st.s.packet_at(oldest)->0.transmissions > 0;
            &&& st.s.packet_at(oldest) is Some
            &&& due && sent ==> {
                &&& goes_out(st, after, oldest, st.s.packet_at(oldest)->0.data.skip(20))
                &&& after.io.outgoing.len() == st.io.outgoing.len() + 1
                &&& after.s.send.fast_resend_seq_nr == (oldest + 1) % 0x10000
                &&& after.s.send.fast_timeout
            }
            &&& !due ==> after.io == st.io && !after.s.send.fast_timeout
            &&& due && !sent ==> after == st
        }),
{
    reveal(fast_retried);
    let oldest = st.s.oldest_seq();
    assert(oldest == (st.s.send.seq_nr - st.s.send.cur_window_packets) % 0x10000);
    if oldest == st.s.send.fast_resend_seq_nr && st.s.was_sent(oldest) {
        let s = SockView {
            send: SendSide {
                fast_resend_seq_nr: st.s.send.fast_resend_seq_nr.wrapping_add(1),
                ..st.s.send
            },
            ..st.s
        };
        let t = St { s, ..st };
        lemma_queue_at(
            st.s.outbuf,
            st.s.send.seq_nr,
            st.s.send.cur_window_packets,
            st.s.send.cur_window,
            oldest as int,
        );
        lemma_own_number(st.s, oldest);
        lemma_packet_sent(t, oldest);
        lemma_packet_tells_all(t, oldest);
        let after = fast_retried(st);
        let n = st.io.outgoing.len() as int;
        assert(after == packet_sent(t, oldest));
        assert(sent_at(st, after, n, oldest as int, st.s.packet_at(oldest)->0.data.skip(20)));
    }
}

/// A packet that was held back because others were outstanding goes out once it
/// is the only one that is left.
pub proof fn lemma_held_packet_goes_out(st: St, buf: Seq<u8>, newest: u16)
    requires
        st.s.wf(),
        heeded(st.s, buf),
        st.s.state != ConnState::SynSent,
        newest == (st.s.send.seq_nr - 1) % 0x10000,
        st.s.send.cur_window_packets >= 2,
        // all but the newest are acked
        be16(buf, 18) == (st.s.send.seq_nr - 2) % 0x10000,
        oldest_sent(st.s, st.s.send.cur_window_packets - 1),
        st.s.packet_at(newest) is Some,
        st.s.packet_at(newest)->0.transmissions == 0,
    ensures
        goes_out(
            st,
            arrived(st, buf, false).1,
            newest,
            st.s.packet_at(newest)->0.data.skip(20),
        ),
{
    let f = fields_of(buf);
    let m = moves(st, buf);
    let n = st.s.send.cur_window_packets - 1;
    lemma_moves(st, buf);
    lemma_measured_queue(st, buf);
    lemma_acks_counted(m.measured.s, f.ack_nr);
    lemma_queue_at(
        st.s.outbuf,
        st.s.send.seq_nr,
        st.s.send.cur_window_packets,
        st.s.send.cur_window,
        newest as int,
    );
    assert(m.measured.s.acks_of(f.ack_nr) == n);
    let a = m.stated.s.fast_resend_moved(f);
    assert(a.outbuf == st.s.outbuf && a.send.seq_nr == st.s.send.seq_nr
        && a.send.cur_window_packets == st.s.send.cur_window_packets && m.stated.io
        == m.measured.io && a.send_wf() && a.peer == st.s.peer) by {
        reveal(state_moved);
    }
    lemma_newest_left(a, m.stated.io.now, m.stated.io.current_ms, n, newest);
    let b = a.oldest_acked(m.stated.io.now, m.stated.io.current_ms, n);
    lemma_oldest_acked(a, m.stated.io.now, m.stated.io.current_ms, n);
    assert(b.window_trimmed() == b) by {
        reveal(SockView::window_trimmed);
        assert(b.oldest_seq() == newest);
    }
    assert(m.queued == (St { s: b, ..m.stated })) by {
        reveal(queue_moved);
    }
    let body = st.s.packet_at(newest)->0.data.skip(20);
    assert(m.nagled == packet_sent(m.queued, newest)) by {
        reveal(nagle_flushed);
    }
    lemma_own_number(m.queued.s, newest);
    lemma_packet_tells_all(m.queued, newest);
    let k = st.io.outgoing.len() as int;
    lemma_more_only(st, buf);
    let after = arrived(st, buf, false).1;
    let d = m.nagled.io.outgoing[k];
    assert(after.io.outgoing.take(k + 1)[k] == after.io.outgoing[k]);
    assert(sent_at(st, after, k, newest as int, body));
}

/// What has been sent stays sent.
proof fn lemma_more_only(st: St, buf: Seq<u8>)
    requires
        st.s.wf(),
        heeded(st.s, buf),
    ensures
        ({
            let m = moves(st, buf);
            let after = arrived(st, buf, false).1.io.outgoing;
            let before = m.nagled.io.outgoing;
            &&& before.len() <= after.len()
            &&& after.take(before.len() as int) == before
        }),
{
    let f = fields_of(buf);
    let m = moves(st, buf);
    lemma_moves(st, buf);
    lemma_heeded(st, buf);
    lemma_fast_retried(m.nagled);
    lemma_io_frame_refl(m.retried);
    match exts_of(buf, st.s.extensions).selack {
        Some(mask) => lemma_eack_moved(m.retried, f.ack_nr.wrapping_add(2), mask),
        None => {},
    }
    lemma_moved_ahead(st, buf);
    lemma_taken_in_apart(m.moved, f, payload_of(buf)->0);
    reveal(only_sent_to);
    let after = arrived(st, buf, false).1.io.outgoing;
    let a = m.nagled.io.outgoing;
    let b = m.retried.io.outgoing;
    let c = m.acked.io.outgoing;
    assert(after.take(a.len() as int) =~= after.take(c.len() as int).take(b.len() as int).take(
        a.len() as int,
    ));
}

/// Acking all but the newest leaves that.
proof fn lemma_newest_left(s: SockView, now: Now, current_ms: u64, n: int, newest: u16)
    requires
        s.send_wf(),
        0 <= n < s.send.cur_window_packets,
        newest == (s.send.seq_nr - 1) % 0x10000,
        oldest_sent(s, n),
    ensures
        s.oldest_acked(now, current_ms, n).send.cur_window_packets == s.send.cur_window_packets - n,
        s.oldest_acked(now, current_ms, n).packet_at(newest) == s.packet_at(newest),
    decreases n,
{
    lemma_all_oldest_acked(s, now, current_ms, n);
    reveal(SockView::oldest_acked);
    if n > 0 {
        let oldest = s.oldest_seq();
        lemma_queue_at(
            s.outbuf,
            s.send.seq_nr,
            s.send.cur_window_packets,
            s.send.cur_window,
            newest as int,
        );
        assert(number_at(oldest, 0) == oldest);
        lemma_acked(s, now, current_ms, oldest);
        let t = s.acked(now, current_ms, oldest);
        lemma_window_shrunk(t);
        let u = t.window_shrunk();
        lemma_slots_differ(
            s.outbuf,
            s.send.seq_nr,
            s.send.cur_window_packets,
            s.send.cur_window,
            oldest,
            newest,
        );
        assert(u.packet_at(newest) == s.packet_at(newest));
        lemma_rest_sent(s, u, n);
        lemma_newest_left(u, now, current_ms, n - 1, newest);
    }
}

/// When the oldest is done with, the others have been sent as before.
proof fn lemma_rest_sent(s: SockView, u: SockView, n: int)
    requires
        s.send_wf(),
        0 < n <= s.send.cur_window_packets,
        oldest_sent(s, n),
        u.outbuf.len() == s.outbuf.len(),
        u.send.seq_nr == s.send.seq_nr,
        u.send.cur_window_packets == s.send.cur_window_packets - 1,
        forall|k: int|
            0 <= k < s.outbuf.len() && k != s.oldest_seq() as int % s.outbuf.len() as int ==> (
            #[trigger] u.outbuf[k]) == s.outbuf[k],
    ensures
        oldest_sent(u, n - 1),
{
    let oldest = s.oldest_seq();
    lemma_queue_at(
        s.outbuf,
        s.send.seq_nr,
        s.send.cur_window_packets,
        s.send.cur_window,
        oldest as int,
    );
    assert forall|k: int| #![trigger number_at(u.oldest_seq(), k)]
        0 <= k < n - 1 && u.packet_at(number_at(u.oldest_seq(), k)) is Some implies u.packet_at(
        number_at(u.oldest_seq(), k),
    )->0.transmissions > 0 by {
        let q = number_at(u.oldest_seq(), k);
        lemma_next_number(s.send.seq_nr, s.send.cur_window_packets, k);
        assert(q == number_at(oldest, k + 1));
        lemma_slots_differ(
            s.outbuf,
            s.send.seq_nr,
            s.send.cur_window_packets,
            s.send.cur_window,
            oldest,
            q,
        );
        lemma_queue_at(
            s.outbuf,
            s.send.seq_nr,
            s.send.cur_window_packets,
            s.send.cur_window,
            q as int,
        );
        assert(u.packet_at(q) == s.packet_at(q));
    }
}

/// As long as not all is acked, the FIN is not known to have arrived.
pub proof fn lemma_unacked_fin_waits(st: St, buf: Seq<u8>)
    requires
        st.s.wf(),
        heeded(st.s, buf),
        st.s.state == ConnState::Connected || st.s.state == ConnState::ConnectedFull,
        be16(buf, 18) != (st.s.send.seq_nr - 1) % 0x10000,
        st.s.send.cur_window_packets > 0,
    ensures
        ({
            let after = arrived(st, buf, false).1.s;
            &&& after.send.fin_sent_acked == st.s.send.fin_sent_acked
            &&& after.state == ConnState::Connected || after.state == ConnState::ConnectedFull
        }),
{
    let f = fields_of(buf);
    let m = moves(st, buf);
    lemma_moves(st, buf);
    lemma_measured_queue(st, buf);
    lemma_later_moves(st, buf);
    lemma_acks_counted(m.measured.s, f.ack_nr);
    lemma_queue_at(
        st.s.outbuf,
        st.s.send.seq_nr,
        st.s.send.cur_window_packets,
        st.s.send.cur_window,
        0,
    );
    lemma_not_all(st.s.send.seq_nr, st.s.send.cur_window_packets, f.ack_nr);
    let acks = m.measured.s.acks_of(f.ack_nr);
    assert(acks != st.s.send.cur_window_packets);
    assert(m.stated.s.send.fin_sent_acked == st.s.send.fin_sent_acked && m.stated.s.state
        == st.s.state) by {
        reveal(state_moved);
    }
    assert(m.queued.s.send.fin_sent_acked == st.s.send.fin_sent_acked && m.queued.s.state
        == st.s.state) by {
        reveal(queue_moved);
        let t = m.stated.s.fast_resend_moved(f);
        lemma_oldest_acked(t, m.stated.io.now, m.stated.io.current_ms, acks as int);
        lemma_window_trimmed(t.oldest_acked(m.stated.io.now, m.stated.io.current_ms, acks as int));
    }
    lemma_sending_keeps_state(st, buf);
    lemma_moved_ahead(st, buf);
    lemma_taken_in_apart(m.moved, f, payload_of(buf)->0);
}

/// Not all of the window is acked unless the newest number is.
proof fn lemma_not_all(seq_nr: u16, packets: u16, ack: u16)
    requires
        0 < packets <= 1024,
        ack != (seq_nr - 1) % 0x10000,
    ensures
        (ack - (seq_nr - packets - 1)) % 0x10000 != packets,
{
}

/// What is sent after the queue has moved leaves the state alone.
proof fn lemma_sending_keeps_state(st: St, buf: Seq<u8>)
    requires
        st.s.wf(),
        heeded(st.s, buf),
    ensures
        moves(st, buf).acked.s.state == moves(st, buf).queued.s.state,
{
    let f = fields_of(buf);
    let m = moves(st, buf);
    lemma_moves(st, buf);
    let last = m.queued.s.send.seq_nr.wrapping_sub(1);
    reveal(nagle_flushed);
    lemma_packet_sent(m.queued, last);
    reveal(fast_retried);
    let s = SockView {
        send: SendSide {
            fast_resend_seq_nr: m.nagled.s.send.fast_resend_seq_nr.wrapping_add(1),
            ..m.nagled.s.send
        },
        ..m.nagled.s
    };
    lemma_packet_sent(St { s, ..m.nagled }, m.nagled.s.oldest_seq());
    lemma_heeded(st, buf);
    match exts_of(buf, st.s.extensions).selack {
        Some(mask) => lemma_selectively_acked(m.retried, f.ack_nr.wrapping_add(2), mask),
        None => {},
    }
}

/// What is acked needs no resend: resends go on past it, or where they were if
/// that is further.
pub proof fn lemma_resends_pass_what_is_acked(st: St, f: Fields, acks: u16)
    requires
        st.s.wf(),
        acks <= st.s.send.cur_window_packets,
    ensures
        ({
            let next = (f.ack_nr + 1) % 0x10000;
            let before = st.s.send.fast_resend_seq_nr;
            queue_moved(st, f, acks).s.send.fast_resend_seq_nr == (if 0 < (next - before) % 0x10000
                < 0x8000 {
                next
            } else {
                before as int
            })
        }),
{
    reveal(queue_moved);
    lemma_wrapping_less_16(
        st.s.send.fast_resend_seq_nr as u32,
        f.ack_nr.wrapping_add(1) as u32,
    );
    let t = st.s.fast_resend_moved(f);
    lemma_oldest_acked(t, st.io.now, st.io.current_ms, acks as int);
    lemma_window_trimmed(t.oldest_acked(st.io.now, st.io.current_ms, acks as int));
}

} // verus!

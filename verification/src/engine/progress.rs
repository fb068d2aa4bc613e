//! What an incoming packet moves on: the state of the connection, the send
//! queue, and what is sent because of that.

use crate::conn_shared::ConnView;
use crate::engine::acks::{lemma_oldest_acked, lemma_window_trimmed};
use crate::engine::eack::{lemma_selectively_acked, selectively_acked, MAX_MASK};
use crate::engine::measure::Fields;
use crate::engine::model::{packet_sent, St};
use crate::engine::send::st;
use crate::engine::state::{ConnState, Io, IoView, SendSide, SockView, UtpSock};
use crate::engine::timers::is_up;
use crate::engine::transmit::{
    io_frame, lemma_io_frame_refl, lemma_io_frame_trans, lemma_oldest_stays, lemma_packet_sent,
};
use crate::engine::write::{lemma_written, timed_io_frame, written};
use crate::packet::{ST_DATA, ST_STATE};
use crate::util::{wrapping_compare_less, wrapping_less};
use vstd::prelude::*;

verus! {

/// After this many milliseconds a window that the peer closed is tried again.
pub const ZERO_WINDOW_WAIT: u64 = 15000;

impl SockView {
    /// The peer says how much it has room for. If it has none, a timer will
    /// see to it that it is asked again.
    pub open spec fn window_noted(self, f: Fields, current_ms: u64) -> SockView {
        SockView {
            send: SendSide {
                max_window_user: f.window_size as usize,
                zerowindow_time: if f.window_size == 0 {
                    current_ms.wrapping_add(ZERO_WINDOW_WAIT)
                } else {
                    self.send.zerowindow_time
                },
                ..self.send
            },
            ..self
        }
    }

    /// The peer's first data completes an incoming connection. Writes were
    /// refused until then.
    pub open spec fn accepted(self, f: Fields) -> SockView {
        if f.packet_type == ST_DATA && self.state == ConnState::SynRecv {
            SockView { state: ConnState::Connected, user: self.user.with_writable(), ..self }
        } else {
            self
        }
    }

    /// The peer's ack completes an outgoing connection.
    pub open spec fn completes(self, f: Fields) -> bool {
        f.packet_type == ST_STATE && self.state == ConnState::SynSent
    }

    pub open spec fn connected(self) -> SockView {
        SockView { state: ConnState::Connected, user: self.user.with_connect(), ..self }
    }

    /// A FIN was sent, and everything is acked (including the FIN).
    pub open spec fn fin_acked(self) -> SockView {
        SockView {
            send: SendSide { fin_sent_acked: true, ..self.send },
            state: if self.send.close_requested {
                ConnState::Destroy
            } else {
                self.state
            },
            ..self
        }
    }

    /// Packets that are acked need no resend.
    pub open spec fn fast_resend_moved(self, f: Fields) -> SockView {
        let next = f.ack_nr.wrapping_add(1);
        if wrapping_less(self.send.fast_resend_seq_nr as u32, next as u32, 0xffff) {
            SockView { send: SendSide { fast_resend_seq_nr: next, ..self.send }, ..self }
        } else {
            self
        }
    }
}

/// The state of the connection moves on as `acks` packets are acked. A
/// dialled connection will not tell the remote it's ready until it writes, so
/// an empty write gets things rolling.
#[verifier::opaque]
pub open spec fn state_moved(st: St, f: Fields, acks: u16) -> St {
    let s = st.s.window_noted(f, st.io.current_ms).accepted(f);
    if s.completes(f) {
        written(St { s: s.connected(), ..st }, Seq::empty()).1
    } else if s.send.fin_sent && s.send.cur_window_packets == acks {
        St { s: s.fin_acked(), ..st }
    } else {
        St { s, ..st }
    }
}

/// A single packet that was held back is sent.
#[verifier::opaque]
pub open spec fn nagle_flushed(st: St) -> St {
    let last = st.s.send.seq_nr.wrapping_sub(1);
    if st.s.send.cur_window_packets == 1 && st.s.packet_at(last) is Some && st.s.packet_at(
        last,
    )->0.transmissions == 0 {
        packet_sent(st, last)
    } else {
        st
    }
}

/// After a timeout, every ack lets one more packet be resent, until one has
/// been that did not time out.
#[verifier::opaque]
pub open spec fn fast_retried(st: St) -> St {
    let oldest = st.s.oldest_seq();
    if !st.s.send.fast_timeout {
        st
    } else if oldest != st.s.send.fast_resend_seq_nr {
        // we've already resent the packet that timed out; leave fast-timeout
        // mode
        St { s: SockView { send: SendSide { fast_timeout: false, ..st.s.send }, ..st.s }, ..st }
    } else if st.s.was_sent(oldest) {
        // resend the oldest packet and bump fast_resend_seq_nr
        // to not allow another fast resend on it again
        let s = SockView {
            send: SendSide {
                fast_resend_seq_nr: st.s.send.fast_resend_seq_nr.wrapping_add(1),
                ..st.s.send
            },
            ..st.s
        };
        packet_sent(St { s, ..st }, oldest)
    } else {
        st
    }
}

/// The packets that `ack_nr` covers leave the queue.
#[verifier::opaque]
pub open spec fn queue_moved(st: St, f: Fields, acks: u16) -> St {
    St {
        s: st.s.fast_resend_moved(f).oldest_acked(
            st.io.now,
            st.io.current_ms,
            acks as int,
        ).window_trimmed(),
        ..st
    }
}

/// What a packet with the fields `f` and the mask `selack` moves on.
#[verifier::opaque]
pub open spec fn progressed(st: St, f: Fields, selack: Option<Seq<u8>>) -> St {
    let acks = st.s.acks_of(f.ack_nr);
    let a = state_moved(st, f, acks);
    let b = queue_moved(a, f, acks);
    let c = fast_retried(nagle_flushed(b));
    let d = match selack {
        Some(mask) => selectively_acked(c, f.ack_nr.wrapping_add(2), mask),
        None => c,
    };
    St { s: d.s.writable_again(d.io.current_ms), ..d }
}

/// `b` differs from `a` at most in what the peer's acks move on. What is
/// received is left alone.
pub open spec fn progress_frame(a: SockView, b: SockView) -> bool {
    &&& b.peer == a.peer
    &&& b.recv == a.recv
    &&& b.inbuf == a.inbuf
    &&& b.seen == a.seen
    &&& b.drift == a.drift
    &&& b.our_hist == a.our_hist
    &&& b.their_hist == a.their_hist
    &&& b.extensions == a.extensions
    &&& b.user == (ConnView {
        got_connect: b.user.got_connect,
        notified: b.user.notified,
        ..a.user
    })
    &&& b.state == ConnState::SynSent ==> a.state == ConnState::SynSent
    &&& b.send.close_requested == a.send.close_requested
    &&& b.send.fin_sent == a.send.fin_sent
    &&& is_up(a.state) && !a.send.fin_sent ==> is_up(b.state)
}

pub proof fn lemma_progress_frame_trans(a: SockView, b: SockView, c: SockView)
    requires
        progress_frame(a, b),
        progress_frame(b, c),
    ensures
        progress_frame(a, c),
{
}

pub proof fn lemma_timed_io_frame_trans(a: St, b: St, c: St)
    requires
        timed_io_frame(a, b),
        timed_io_frame(b, c),
    ensures
        timed_io_frame(a, c),
{
    lemma_io_frame_trans(
        St { io: IoView { current_ms: c.io.current_ms, ..a.io }, ..a },
        St { io: IoView { current_ms: c.io.current_ms, ..b.io }, ..b },
        c,
    );
}

pub proof fn lemma_state_moved(st: St, f: Fields, acks: u16)
    requires
        st.s.wf(),
        acks <= st.s.send.cur_window_packets,
    ensures
        ({
            let after = state_moved(st, f, acks);
            &&& after.s.wf()
            &&& progress_frame(st.s, after.s)
            &&& timed_io_frame(st, after)
            &&& acks <= after.s.send.cur_window_packets
        }),
{
    reveal(state_moved);
    lemma_io_frame_refl(st);
    let s = st.s.window_noted(f, st.io.current_ms).accepted(f);
    if s.completes(f) {
        let c = St { s: s.connected(), ..st };
        lemma_written(c, Seq::empty());
    }
}

pub proof fn lemma_queue_moved(st: St, f: Fields, acks: u16)
    requires
        st.s.wf(),
        acks <= st.s.send.cur_window_packets,
    ensures
        ({
            let after = queue_moved(st, f, acks);
            &&& after.s.wf()
            &&& progress_frame(st.s, after.s)
            &&& after.s.in_ack_list == st.s.in_ack_list
            &&& after.io == st.io
        }),
{
    reveal(queue_moved);
    let s = st.s.fast_resend_moved(f);
    lemma_oldest_acked(s, st.io.now, st.io.current_ms, acks as int);
    let t = s.oldest_acked(st.io.now, st.io.current_ms, acks as int);
    lemma_window_trimmed(t);
}

pub proof fn lemma_nagle_flushed(st: St)
    requires
        st.s.wf(),
    ensures
        nagle_flushed(st).s.wf(),
        progress_frame(st.s, nagle_flushed(st).s),
        io_frame(st, nagle_flushed(st)),
{
    reveal(nagle_flushed);
    lemma_io_frame_refl(st);
    let last = st.s.send.seq_nr.wrapping_sub(1);
    lemma_packet_sent(st, last);
    lemma_oldest_stays(st.s, packet_sent(st, last).s);
}

pub proof fn lemma_fast_retried(st: St)
    requires
        st.s.wf(),
    ensures
        fast_retried(st).s.wf(),
        progress_frame(st.s, fast_retried(st).s),
        io_frame(st, fast_retried(st)),
{
    reveal(fast_retried);
    lemma_io_frame_refl(st);
    let oldest = st.s.oldest_seq();
    let s = SockView {
        send: SendSide {
            fast_resend_seq_nr: st.s.send.fast_resend_seq_nr.wrapping_add(1),
            ..st.s.send
        },
        ..st.s
    };
    lemma_packet_sent(St { s, ..st }, oldest);
    lemma_oldest_stays(s, packet_sent(St { s, ..st }, oldest).s);
}

pub proof fn lemma_eack_moved(st: St, base: u16, mask: Seq<u8>)
    requires
        st.s.wf(),
        mask.len() <= MAX_MASK,
    ensures
        selectively_acked(st, base, mask).s.wf(),
        progress_frame(st.s, selectively_acked(st, base, mask).s),
        io_frame(st, selectively_acked(st, base, mask)),
{
    lemma_selectively_acked(st, base, mask);
}

pub proof fn lemma_writable_moved(s: SockView, current_ms: u64)
    requires
        s.wf(),
    ensures
        s.writable_again(current_ms).wf(),
        progress_frame(s, s.writable_again(current_ms)),
{
}

/// What the peer's acks move on leaves the socket in order.
pub proof fn lemma_progressed(st: St, f: Fields, selack: Option<Seq<u8>>)
    requires
        st.s.wf(),
        selack is Some ==> selack->0.len() <= MAX_MASK,
    ensures
        ({
            let after = progressed(st, f, selack);
            &&& after.s.wf()
            &&& progress_frame(st.s, after.s)
            &&& timed_io_frame(st, after)
        }),
{
    reveal(progressed);
    let acks = st.s.acks_of(f.ack_nr);
    let a = state_moved(st, f, acks);
    lemma_state_moved(st, f, acks);
    let b = queue_moved(a, f, acks);
    lemma_queue_moved(a, f, acks);
    let n = nagle_flushed(b);
    lemma_nagle_flushed(b);
    let c = fast_retried(n);
    lemma_fast_retried(n);
    let d = match selack {
        Some(mask) => selectively_acked(c, f.ack_nr.wrapping_add(2), mask),
        None => c,
    };
    lemma_io_frame_refl(c);
    match selack {
        Some(mask) => lemma_eack_moved(c, f.ack_nr.wrapping_add(2), mask),
        None => {},
    }
    lemma_writable_moved(d.s, d.io.current_ms);
    lemma_progress_frame_trans(st.s, a.s, b.s);
    lemma_progress_frame_trans(st.s, b.s, n.s);
    lemma_progress_frame_trans(st.s, n.s, c.s);
    lemma_progress_frame_trans(st.s, c.s, d.s);
    lemma_progress_frame_trans(st.s, d.s, progressed(st, f, selack).s);
    lemma_timed_io_frame_trans(st, a, n);
    lemma_timed_io_frame_trans(st, n, c);
    lemma_timed_io_frame_trans(st, c, d);
}

impl UtpSock {
    /// Takes note of the peer's window.
    fn note_window(&mut self, f: Fields, current_ms: u64)
        ensures
            final(self)@ == old(self)@.window_noted(f, current_ms),
            old(self).bufs_wf() ==> final(self).bufs_wf(),
    {
        self.send.max_window_user = f.window_size as usize;
        // if the remote window is 0, start a timer that will reset it to
        // a packet after 15 seconds
        if self.send.max_window_user == 0 {
            self.send.zerowindow_time = current_ms.wrapping_add(ZERO_WINDOW_WAIT);
        }
    }

    /// Moves the state of the connection on.
    fn move_state(&mut self, io: &mut Io, f: Fields, acks: u16)
        requires
            old(self).wf(),
        ensures
            st(*final(self), *final(io)) == state_moved(st(*old(self), *old(io)), f, acks),
            final(self).bufs_wf(),
    {
        proof {
            reveal(state_moved);
        }
        self.note_window(f, io.current_ms);
        // Incoming connection completion
        if f.packet_type == ST_DATA && self.state == ConnState::SynRecv {
            self.state = ConnState::Connected;
            // Writes are refused until the connection is established;
            // wake anyone waiting to retry.
            self.user.on_writable();
        }
        // Outgoing connection completion

        if f.packet_type == ST_STATE && self.state == ConnState::SynSent {
            self.state = ConnState::Connected;
            self.user.on_connect();
            // A dialled connection will not tell the remote it's ready
            // until it writes. If the dialer has no intention of writing,
            // this stalls everything, so do an empty write to get things
            // rolling.
            let empty: [u8; 0] = [];
            assert(empty@ =~= Seq::<u8>::empty());
            self.write_engine(io, &empty);
        } else if self.send.fin_sent && self.send.cur_window_packets == acks {
            // We've sent a fin, and everything was ACKed (including the FIN)
            self.send.fin_sent_acked = true;
            if self.send.close_requested {
                self.state = ConnState::Destroy;
            }
        }
    }

    /// Takes the packets that the ack covers out of the queue.
    fn move_queue(&mut self, io: &Io, f: Fields, acks: u16)
        requires
            old(self).wf(),
            acks <= old(self)@.send.cur_window_packets,
        ensures
            st(*final(self), *io) == queue_moved(st(*old(self), *io), f, acks),
            final(self).bufs_wf(),
    {
        proof {
            reveal(queue_moved);
        }
        // Update fast resend counter
        let next: u16 = f.ack_nr.wrapping_add(1);
        if wrapping_compare_less(self.send.fast_resend_seq_nr as u32, next as u32, 0xffff) {
            self.send.fast_resend_seq_nr = next;
        }
        proof {
            lemma_oldest_acked(self@, io.now, io.current_ms, acks as int);
        }
        self.ack_oldest(io.now, io.current_ms, acks);
        // packets in front of this may have been acked by a selective
        // ack (EACK). Keep shrinking the window until we hit a packet
        // still waiting to be acked
        self.trim_window();
    }

    /// Sends a single packet that was held back.
    fn flush_nagle(&mut self, io: &mut Io)
        requires
            old(self).wf(),
        ensures
            st(*final(self), *final(io)) == nagle_flushed(st(*old(self), *old(io))),
            final(self).bufs_wf(),
    {
        proof {
            reveal(nagle_flushed);
        }
        if self.send.cur_window_packets == 1 {
            let seq: u16 = self.send.seq_nr.wrapping_sub(1);
            let unsent: bool = match self.outgoing(seq) {
                Some(p) => p.transmissions == 0,
                None => false,
            };
            if unsent {
                self.send_packet_at(io, seq);
            }
        }
    }

    /// Fast timeout-retry
    fn fast_retry(&mut self, io: &mut Io)
        requires
            old(self).wf(),
        ensures
            st(*final(self), *final(io)) == fast_retried(st(*old(self), *old(io))),
            final(self).bufs_wf(),
    {
        proof {
            reveal(fast_retried);
        }
        if self.send.fast_timeout {
            let seq: u16 = self.send.seq_nr.wrapping_sub(self.send.cur_window_packets);
            // if fast_resend_seq_nr is not pointing to the oldest
            // outstanding packet, we've already resent the packet that
            // timed out; leave fast-timeout mode
            if seq != self.send.fast_resend_seq_nr {
                self.send.fast_timeout = false;
            } else if self.sent_packet(seq).is_some() {
                // resend the oldest packet and bump fast_resend_seq_nr
                // to not allow another fast resend on it again
                self.send.fast_resend_seq_nr = self.send.fast_resend_seq_nr.wrapping_add(1);
                self.send_packet_at(io, seq);
            }
        }
    }

    /// Acts on the acks of an incoming packet.
    pub fn progress(&mut self, io: &mut Io, f: Fields, selack: Option<&[u8]>)
        requires
            old(self).wf(),
            selack is Some ==> selack->0@.len() <= MAX_MASK,
        ensures
            st(*final(self), *final(io)) == progressed(
                st(*old(self), *old(io)),
                f,
                match selack {
                    Some(m) => Some(m@),
                    None => None,
                },
            ),
            final(self).bufs_wf(),
    {
        proof {
            reveal(progressed);
        }
        let acks: u16 = self.acks_for(f.ack_nr);
        proof {
            lemma_state_moved(st(*self, *io), f, acks);
        }
        self.move_state(io, f, acks);
        proof {
            lemma_queue_moved(st(*self, *io), f, acks);
        }
        self.move_queue(io, f, acks);
        proof {
            lemma_nagle_flushed(st(*self, *io));
        }
        self.flush_nagle(io);
        proof {
            lemma_fast_retried(st(*self, *io));
        }
        self.fast_retry(io);
        // Process selective acknowledgment
        match selack {
            Some(mask) => {
                proof {
                    lemma_eack_moved(st(*self, *io), f.ack_nr.wrapping_add(2), mask@);
                }
                self.selective_ack(io, f.ack_nr.wrapping_add(2), mask);
            },
            None => {},
        }
        // In case the ack dropped the current window below the max_window
        // size, mark the socket as writable
        self.check_writable(io.current_ms);
    }
}

} // verus!

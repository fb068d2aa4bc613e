//! What a socket does with a packet that is meant for it.

use crate::engine::deliver::{
    lemma_received_early, lemma_received_in_order, lemma_reorder_anywhere, received_early,
    received_in_order,
};
use crate::engine::eack::MAX_MASK;
use crate::engine::extensions::{exts_of, lemma_exts_from, parse_extensions};
use crate::engine::measure::{fields_of, lemma_measured, read_fields, Fields};
use crate::engine::model::{scheduled, St};
use crate::engine::progress::{lemma_progressed, lemma_timed_io_frame_trans, progressed};
use crate::engine::send::st;
use crate::engine::state::{
    ConnState, Io, IoView, RecvSide, Seen, SockView, UtpSock, REORDER_BUFFER_MAX_SIZE,
};
use crate::engine::timers::is_up;
use crate::engine::transmit::{io_frame, lemma_io_frame_refl, lemma_scheduled};
use crate::engine::write::timed_io_frame;
use crate::packet::{HEADER_SIZE, ST_FIN, ST_NUM_STATES, ST_STATE, ST_SYN};
use crate::util::{wrapping_compare_less, wrapping_less};
use vstd::prelude::*;

verus! {

/// Allow a reception window of at least 3 ack_nrs behind seq_nr.
/// A non-SYN packet with an ack_nr difference greater than this is
/// considered suspicious and ignored
pub const ACK_NR_ALLOWED_WINDOW: u16 = 3;

impl SockView {
    /// Whether the packet acks something that was sent not too long ago. A
    /// SYN acks nothing.
    pub open spec fn ack_plausible(self, f: Fields) -> bool {
        let last = self.send.seq_nr.wrapping_sub(1);
        let window = self.send.cur_window_packets.wrapping_add(ACK_NR_ALLOWED_WINDOW);
        ||| f.packet_type == ST_SYN && self.state == ConnState::SynRecv
        ||| !wrapping_less(last as u32, f.ack_nr as u32, 0xffff) && !wrapping_less(
            f.ack_nr as u32,
            last.wrapping_sub(window) as u32,
            0xffff,
        )
    }

    /// The peer is there. The first packet of a dialled connection tells where
    /// the peer's numbers begin.
    pub open spec fn heard_from(self, f: Fields, current_ms: u64) -> SockView {
        SockView {
            recv: if self.state == ConnState::SynSent {
                RecvSide { ack_nr: f.seq_nr.wrapping_sub(1), ..self.recv }
            } else {
                self.recv
            },
            seen: Seen { last_got_packet: current_ms, ..self.seen },
            ..self
        }
    }

    /// The first FIN tells where the stream ends.
    pub open spec fn fin_noted(self, f: Fields) -> SockView {
        if f.packet_type == ST_FIN && !self.recv.got_fin {
            SockView {
                recv: RecvSide { got_fin: true, eof_pkt: f.seq_nr, ..self.recv },
                ..self
            }
        } else {
            self
        }
    }

    /// How many packets past the expected packet number `seq` is; 0 means that
    /// it is the next expected one.
    pub open spec fn ahead(self, seq: u16) -> u16 {
        seq.wrapping_sub(self.recv.ack_nr).wrapping_sub(1)
    }
}

/// The data of a packet is taken in, if it has any and the connection is in a
/// state that can accept data. Says how much was.
#[verifier::opaque]
pub open spec fn taken_in(st: St, f: Fields, data: Seq<u8>) -> (int, St) {
    if f.packet_type == ST_STATE || !is_up(st.s.state) {
        (0, st)
    } else {
        let noted = St { s: st.s.fin_noted(f), ..st };
        let ahead = st.s.ahead(f.seq_nr);
        if ahead == 0 {
            (data.len() as int, received_in_order(noted, data))
        } else {
            received_early(noted, f.seq_nr, ahead as int, data)
        }
    }
}

/// A packet whose headers are in order is handled. One that is too far off is
/// not, but one that we have had before is acked again.
#[verifier::opaque]
pub open spec fn handled(st: St, f: Fields, selack: Option<Seq<u8>>, data: Seq<u8>) -> (int, St) {
    let ahead = st.s.ahead(f.seq_nr);
    if ahead >= REORDER_BUFFER_MAX_SIZE {
        (
            0,
            if ahead >= 0x10000 - REORDER_BUFFER_MAX_SIZE && f.packet_type != ST_STATE {
                scheduled(st)
            } else {
                st
            },
        )
    } else {
        let s = st.s.measured(f, selack, st.io.now, st.io.current_ms);
        taken_in(progressed(St { s, ..st }, f, selack), f, data)
    }
}

/// The packet `buf` arrives for the socket. `syn` is true when this is the SYN
/// of an incoming connection; then only the headers count. Says how many bytes
/// of payload were taken in.
#[verifier::opaque]
pub open spec fn arrived(st: St, buf: Seq<u8>, syn: bool) -> (int, St) {
    let f = fields_of(buf);
    let e = exts_of(buf, st.s.extensions);
    let io = IoView { current_ms: st.io.now.ms, ..st.io };
    if f.packet_type >= ST_NUM_STATES || !st.s.ack_plausible(f) {
        (0, St { io, ..st })
    } else {
        let s = SockView { extensions: e.bits, ..st.s };
        match e.end {
            None => (0, St { s, io }),
            Some(start) => {
                let heard = St { s: s.heard_from(f, io.current_ms), io };
                if syn {
                    (0, heard)
                } else {
                    handled(heard, f, e.selack, buf.skip(start))
                }
            },
        }
    }
}

pub proof fn lemma_taken_in(st: St, f: Fields, data: Seq<u8>)
    requires
        st.s.wf(),
        st.s.ahead(f.seq_nr) < REORDER_BUFFER_MAX_SIZE,
    ensures
        ({
            let (n, after) = taken_in(st, f, data);
            &&& after.s.wf()
            &&& io_frame(st, after)
            &&& 0 <= n <= data.len()
            &&& after.s.peer == st.s.peer
        }),
{
    reveal(taken_in);
    lemma_io_frame_refl(st);
    let noted = St { s: st.s.fin_noted(f), ..st };
    let ahead = st.s.ahead(f.seq_nr);
    lemma_received_in_order(noted, data);
    if ahead > 0 {
        lemma_received_early(noted, f.seq_nr, ahead as int, data);
        reveal(received_early);
    }
}

pub proof fn lemma_handled(st: St, f: Fields, selack: Option<Seq<u8>>, data: Seq<u8>)
    requires
        st.s.wf(),
        selack is Some ==> selack->0.len() <= MAX_MASK,
    ensures
        ({
            let (n, after) = handled(st, f, selack, data);
            &&& after.s.wf()
            &&& timed_io_frame(st, after)
            &&& 0 <= n <= data.len()
            &&& after.s.peer == st.s.peer
        }),
{
    reveal(handled);
    lemma_io_frame_refl(st);
    lemma_scheduled(st);
    let ahead = st.s.ahead(f.seq_nr);
    if ahead < REORDER_BUFFER_MAX_SIZE {
        let s = st.s.measured(f, selack, st.io.now, st.io.current_ms);
        lemma_measured(st.s, f, selack, st.io.now, st.io.current_ms);
        lemma_progressed(St { s, ..st }, f, selack);
        let p = progressed(St { s, ..st }, f, selack);
        lemma_taken_in(p, f, data);
        lemma_timed_io_frame_trans(st, p, taken_in(p, f, data).1);
    }
}

pub proof fn lemma_heard_from(s: SockView, f: Fields, current_ms: u64)
    requires
        s.wf(),
    ensures
        s.heard_from(f, current_ms).wf(),
        s.heard_from(f, current_ms).peer == s.peer,
{
    if s.state == ConnState::SynSent {
        lemma_reorder_anywhere(s, f.seq_nr.wrapping_sub(1));
    }
}

/// Whatever packet arrives, the socket stays in order.
pub proof fn lemma_arrived(st: St, buf: Seq<u8>, syn: bool)
    requires
        st.s.wf(),
        buf.len() >= HEADER_SIZE,
    ensures
        ({
            let (n, after) = arrived(st, buf, syn);
            &&& after.s.wf()
            &&& timed_io_frame(st, after)
            &&& 0 <= n <= buf.len()
            &&& after.s.peer == st.s.peer
        }),
{
    reveal(arrived);
    let f = fields_of(buf);
    let e = exts_of(buf, st.s.extensions);
    let io = IoView { current_ms: st.io.now.ms, ..st.io };
    lemma_io_frame_refl(St { io, ..st });
    lemma_exts_from(buf, HEADER_SIZE as int, buf[1], None, st.s.extensions);
    let s = SockView { extensions: e.bits, ..st.s };
    lemma_heard_from(s, f, io.current_ms);
    if e.end is Some {
        let heard = St { s: s.heard_from(f, io.current_ms), io };
        lemma_handled(heard, f, e.selack, buf.skip(e.end->0));
        lemma_timed_io_frame_trans(
            st,
            heard,
            handled(heard, f, e.selack, buf.skip(e.end->0)).1,
        );
    }
}

impl UtpSock {
    /// Whether the packet acks something that was sent not too long ago.
    fn ack_plausible(&self, f: Fields) -> (r: bool)
        ensures
            r == self@.ack_plausible(f),
    {
        // window packets size is used to calculate a minimum permissible
        // range for received acks. Acks falling out of this range are dropped
        let window: u16 = self.send.cur_window_packets.wrapping_add(ACK_NR_ALLOWED_WINDOW);
        let last: u16 = self.send.seq_nr.wrapping_sub(1);
        // ignore packets whose ack_nr is invalid; this would imply a spoofed
        // address or a malicious attempt to attack us
        if f.packet_type == ST_SYN && self.state == ConnState::SynRecv {
            true
        } else {
            !wrapping_compare_less(last as u32, f.ack_nr as u32, 0xffff) && !wrapping_compare_less(
                f.ack_nr as u32,
                last.wrapping_sub(window) as u32,
                0xffff,
            )
        }
    }

    /// Takes in the data of a packet. Returns how much was taken in.
    fn take_in(&mut self, io: &mut Io, f: Fields, data: &[u8]) -> (r: usize)
        requires
            old(self).wf(),
            old(self)@.ahead(f.seq_nr) < REORDER_BUFFER_MAX_SIZE,
        ensures
            r == taken_in(st(*old(self), *old(io)), f, data@).0,
            st(*final(self), *final(io)) == taken_in(st(*old(self), *old(io)), f, data@).1,
            final(self).bufs_wf(),
    {
        proof {
            reveal(taken_in);
        }
        if f.packet_type == ST_STATE {
            // This is a state packet only.
            return 0;
        }
        // The connection is not in a state that can accept data?

        if self.state != ConnState::Connected && self.state != ConnState::ConnectedFull {
            return 0;
        }
        // seqnr is how many packets past the expected packet this is.

        let seqnr: u16 = f.seq_nr.wrapping_sub(self.recv.ack_nr).wrapping_sub(1);
        // Is this a finalize packet?
        if f.packet_type == ST_FIN && !self.recv.got_fin {
            self.recv.got_fin = true;
            self.recv.eof_pkt = f.seq_nr;
            // the other end may have sent packets past the FIN; our
            // reorder_count may be out of sync, dealt with when we re-order
            // and hit the eof_pkt
        }
        // Getting an in-order packet?

        if seqnr == 0 {
            self.receive_in_order(io, data);
            data.len()
        } else {
            // Getting an out of order packet. It needs to be remembered and
            // reordered later.
            self.receive_early(io, f.seq_nr, seqnr, data)
        }
    }

    fn handle(&mut self, io: &mut Io, f: Fields, selack: Option<&[u8]>, data: &[u8]) -> (r: usize)
        requires
            old(self).wf(),
            selack is Some ==> selack->0@.len() <= MAX_MASK,
        ensures
            ({
                let h = handled(
                    st(*old(self), *old(io)),
                    f,
                    match selack {
                        Some(m) => Some(m@),
                        None => None,
                    },
                    data@,
                );
                &&& r == h.0
                &&& st(*final(self), *final(io)) == h.1
            }),
            final(self).bufs_wf(),
    {
        proof {
            reveal(handled);
        }
        // seqnr is how many packets past the expected packet this is.
        // Subtracting 1 makes 0 mean "this is the next expected packet".
        let seqnr: u16 = f.seq_nr.wrapping_sub(self.recv.ack_nr).wrapping_sub(1);
        // Getting an invalid sequence number?
        if seqnr as usize >= REORDER_BUFFER_MAX_SIZE {
            if seqnr as usize >= 0x10000 - REORDER_BUFFER_MAX_SIZE && f.packet_type != ST_STATE {
                self.schedule_ack(io);
            }
            return 0;
        }
        let ghost mask = match selack {
            Some(m) => Some(m@),
            None => None,
        };
        proof {
            lemma_measured(self@, f, mask, io.now, io.current_ms);
        }
        self.measure(f, selack, io.now, io.current_ms);
        proof {
            lemma_progressed(st(*self, *io), f, mask);
        }
        self.progress(io, f, selack);
        self.take_in(io, f, data)
    }

    /// Handles a packet that is meant for this socket. `syn` is true when this
    /// is the SYN of an incoming connection; parsing stops after the header in
    /// that case. Returns the number of payload bytes consumed.
    pub fn process_incoming(&mut self, io: &mut Io, buf: &[u8], syn: bool) -> (r: usize)
        requires
            old(self).wf(),
            buf@.len() >= HEADER_SIZE,
        ensures
            r == arrived(st(*old(self), *old(io)), buf@, syn).0,
            st(*final(self), *final(io)) == arrived(st(*old(self), *old(io)), buf@, syn).1,
            final(self).wf(),
    {
        proof {
            lemma_arrived(st(*self, *io), buf@, syn);
            reveal(arrived);
            lemma_exts_from(buf@, HEADER_SIZE as int, buf@[1], None, self@.extensions);
        }
        io.current_ms = io.now.ms;
        let f: Fields = read_fields(buf);
        if f.packet_type >= ST_NUM_STATES {
            return 0;
        }
        if !self.ack_plausible(f) {
            return 0;
        }
        // Skip the extension headers

        let (start, selack): (usize, Option<(usize, usize)>) = match parse_extensions(
            buf,
            &mut self.extensions,
        ) {
            Some(e) => e,
            None => {
                return 0;
            },
        };
        proof {
            lemma_heard_from(self@, f, io.current_ms);
        }
        if self.state == ConnState::SynSent {
            // if this is a syn-ack, initialize our ack_nr to match the
            // sequence number we got from the other end
            self.recv.ack_nr = f.seq_nr.wrapping_sub(1);
        }
        self.seen.last_got_packet = io.current_ms;
        if syn {
            return 0;
        }
        let data: &[u8] = &buf[start..buf.len()];
        assert(data@ =~= buf@.skip(start as int));
        let mask: Option<&[u8]> = match selack {
            Some((off, len)) => Some(&buf[off..off + len]),
            None => None,
        };
        self.handle(io, f, mask, data)
    }
}

} // verus!

//! Finding out which connection a datagram is for, if it is for any.

use crate::addr::SocketAddr;
use crate::clock::Now;
use crate::conn_shared::ErrorKind;
use crate::engine::context::{
    all_wf, lemma_push, lemma_put, lemma_sock_views, lemma_sock_views_push, lemma_sock_views_update,
    Context, ContextView, RstInfo,
};
use crate::engine::create::lemma_answering;
use crate::engine::incoming::{arrived, lemma_arrived};
use crate::engine::model::{ack_sent, zeros, St};
use crate::engine::progress::lemma_timed_io_frame_trans;
use crate::engine::send::{lemma_datagrams_push, st, zero_bytes};
use crate::engine::state::{ConnState, Datagram, DatagramView, IoView, Key, Peer, SockView, UtpSock};
use crate::engine::transmit::lemma_io_frame_refl;
use crate::engine::write::lemma_ack_sent;
use crate::packet;
use crate::packet::{
    be16, put_be16, put_be32, version_type_byte, wire_version_of, Header, HEADER_SIZE, ST_RESET,
    ST_SYN,
};
use crate::util::{rng_mix, rng_step};
use vstd::prelude::*;

verus! {

pub const RST_INFO_LIMIT: usize = 1000;

/// More connections than these are not accepted.
pub const MAX_SOCKETS: usize = 3000;

#[derive(Clone, Copy, PartialEq, Eq, Structural, Debug)]
pub enum ProcessUdp {
    /// Not recognized as uTP; hand to the non-uTP path.
    NotUtp,
    Handled,
    /// A new incoming connection was accepted; push it to the backlog. The
    /// connection is told by its key, and by its number.
    Accepted(Key, u64),
}

/// Whether a datagram is recognized as uTP. Zero ports are refused.
pub open spec fn is_utp(buf: Seq<u8>, addr: SocketAddr) -> bool {
    buf.len() >= HEADER_SIZE && addr.spec_port() != 0 && wire_version_of(buf) == 1
}

pub open spec fn packet_type_of(buf: Seq<u8>) -> u8 {
    (buf[0] / 16) as u8
}

pub open spec fn conn_id_of(buf: Seq<u8>) -> u32 {
    be16(buf, 2) as u32
}

pub open spec fn seq_nr_of(buf: Seq<u8>) -> u16 {
    be16(buf, 16) as u16
}

impl RstInfo {
    /// Whether this is the stream `connid` of `addr`, at number `ack_nr`.
    pub open spec fn is_for(self, addr: SocketAddr, connid: u32, ack_nr: u16) -> bool {
        self.connid == connid && self.addr == addr && self.ack_nr == ack_nr
    }
}

/// The first place from `i` on where a stream is noted as rejected; the length
/// if there is none.
pub open spec fn rst_place(
    list: Seq<RstInfo>,
    addr: SocketAddr,
    connid: u32,
    ack_nr: u16,
    i: int,
) -> int
    decreases list.len() - i,
{
    if i >= list.len() || list[i].is_for(addr, connid, ack_nr) {
        i
    } else {
        rst_place(list, addr, connid, ack_nr, i + 1)
    }
}

/// A RST.
pub open spec fn rst_bytes(conn_id_send: u32, ack_nr: u16, seq_nr: u16) -> Seq<u8> {
    let b = zeros(HEADER_SIZE as nat).update(0, version_type_byte(1, ST_RESET));
    let b = put_be16(b, 2, (conn_id_send as u16) as int);
    let b = put_be16(b, 18, ack_nr as int);
    put_be32(put_be16(b, 16, seq_nr as int), 12, 0)
}

impl SockView {
    /// The peer resets the connection.
    pub open spec fn reset(self) -> SockView {
        SockView {
            state: if self.send.close_requested {
                ConnState::Destroy
            } else {
                ConnState::Reset
            },
            user: self.user.with_error(ErrorKind::ConnectionReset),
            ..self
        }
    }
}

impl ContextView {
    /// Whether there is a connection with a key that sends under `id`.
    pub open spec fn sends_under(self, key: Key, id: u32) -> bool {
        self.has_key(key) && self.sockets[self.index_of(key)].peer.conn_id_send == id
    }

    /// The connection that a RST from `addr` is about. Its id is either our
    /// recv id or our send id. If it's our send id, and we initiated the
    /// connection, our recv id is id - 1; if we did not, it is id + 1.
    pub open spec fn reset_key(self, addr: SocketAddr, id: u32) -> Option<Key> {
        let k0 = Key { addr, recv_id: id };
        let k1 = Key { addr, recv_id: id.wrapping_add(1) };
        let k2 = Key { addr, recv_id: id.wrapping_sub(1) };
        if self.has_key(k0) {
            Some(k0)
        } else if self.sends_under(k1, id) {
            Some(k1)
        } else if self.sends_under(k2, id) {
            Some(k2)
        } else {
            None
        }
    }

    /// A RST arrives.
    #[verifier::opaque]
    pub open spec fn reset_received(self, addr: SocketAddr, id: u32) -> ContextView {
        match self.reset_key(addr, id) {
            Some(key) => {
                let i = self.index_of(key);
                self.put(i, St { s: self.sockets[i].reset(), io: self.io })
            },
            None => self,
        }
    }

    /// A packet of a stream that we do not know is rejected with a RST, at
    /// most once per stream.
    #[verifier::opaque]
    pub open spec fn rejected(self, addr: SocketAddr, id: u32, seq_nr: u16) -> ContextView {
        let now_ms = self.io.now.ms;
        let io = IoView { current_ms: now_ms, ..self.io };
        let i = rst_place(self.rst_info, addr, id, seq_nr, 0);
        if i < self.rst_info.len() {
            ContextView {
                io,
                rst_info: self.rst_info.update(
                    i,
                    RstInfo { timestamp: now_ms, ..self.rst_info[i] },
                ),
                ..self
            }
        } else if self.rst_info.len() > RST_INFO_LIMIT {
            ContextView { io, ..self }
        } else {
            let rng = rng_step(self.rng);
            ContextView {
                io: IoView {
                    outgoing: io.outgoing.push(
                        DatagramView {
                            addr,
                            data: rst_bytes(id, seq_nr, rng_mix(rng) as u32 as u16),
                            conn: None,
                            clean: false,
                        },
                    ),
                    ..io
                },
                rst_info: self.rst_info.push(
                    RstInfo { addr, connid: id, ack_nr: seq_nr, timestamp: now_ms },
                ),
                rng,
                ..self
            }
        }
    }

    /// Whether a datagram asks for a connection that could be accepted.
    pub open spec fn is_incoming(self, buf: Seq<u8>, addr: SocketAddr) -> bool {
        &&& is_utp(buf, addr)
        &&& packet_type_of(buf) == ST_SYN
        &&& !self.has_key(self.accept_key(buf, addr))
        &&& self.sockets.len() <= MAX_SOCKETS
    }

    pub open spec fn accept_key(self, buf: Seq<u8>, addr: SocketAddr) -> Key {
        Key { addr, recv_id: conn_id_of(buf).wrapping_add(1) }
    }

    /// The socket of a connection that is about to be accepted.
    pub open spec fn answerer(self, buf: Seq<u8>, addr: SocketAddr) -> SockView {
        let id = conn_id_of(buf);
        let peer = Peer {
            key: self.accept_key(buf, addr),
            conn_seed: id,
            conn_id_recv: id.wrapping_add(1),
            conn_id_send: id,
        };
        let seq_nr = rng_mix(rng_step(self.rng)) as u32 as u16;
        SockView::created(self.next_id, peer, self.options, self.io.now).answering(
            seq_nr_of(buf),
            seq_nr,
        )
    }

    /// A connection is accepted: the SYN is answered with an ack.
    #[verifier::opaque]
    pub open spec fn accepting(self, buf: Seq<u8>, addr: SocketAddr) -> ContextView {
        let s = self.answerer(buf, addr);
        let io = IoView { current_ms: self.io.now.ms, ..self.io };
        let after = ack_sent(arrived(St { s, io }, buf, true).1);
        ContextView {
            sockets: self.sockets.push(after.s),
            io: after.io,
            rng: rng_step(self.rng),
            next_id: (self.next_id + 1) as u64,
            ..self
        }
    }

    /// A packet arrives for the connection with a key.
    #[verifier::opaque]
    pub open spec fn delivered_to(self, key: Key, buf: Seq<u8>) -> ContextView {
        let i = self.index_of(key);
        self.put(i, arrived(self.st_at(i), buf, false).1)
    }

    /// A datagram arrives from `addr`. `blocked` tells whether an incoming
    /// connection from there is to be ignored.
    pub open spec fn received(
        self,
        now: Now,
        buf: Seq<u8>,
        addr: SocketAddr,
        blocked: bool,
    ) -> (ProcessUdp, ContextView) {
        let c = self.at_time(now);
        let id = conn_id_of(buf);
        let key = Key { addr, recv_id: id };
        if !is_utp(buf, addr) {
            (ProcessUdp::NotUtp, self)
        } else if packet_type_of(buf) == ST_RESET {
            (ProcessUdp::Handled, c.reset_received(addr, id))
        } else if packet_type_of(buf) != ST_SYN {
            (
                ProcessUdp::Handled,
                if c.has_key(key) {
                    c.delivered_to(key, buf)
                } else {
                    c.rejected(addr, id, seq_nr_of(buf))
                },
            )
        } else if !c.is_incoming(buf, addr) || blocked {
            (ProcessUdp::Handled, c)
        } else {
            (
                ProcessUdp::Accepted(c.accept_key(buf, addr), c.next_id),
                c.accepting(buf, addr),
            )
        }
    }
}

impl Context {
    fn send_rst(&mut self, addr: SocketAddr, conn_id_send: u32, ack_nr: u16, seq_nr: u16)
        ensures
            final(self)@ == (ContextView {
                io: IoView {
                    outgoing: old(self)@.io.outgoing.push(
                        DatagramView {
                            addr,
                            data: rst_bytes(conn_id_send, ack_nr, seq_nr),
                            conn: None,
                            clean: false,
                        },
                    ),
                    ..old(self)@.io
                },
                ..old(self)@
            }),
            final(self).sockets == old(self).sockets,
            final(self).clock == old(self).clock,
    {
        let mut b: Vec<u8> = zero_bytes(HEADER_SIZE);
        packet::set_version_type(b.as_mut_slice(), 1, ST_RESET);
        packet::set_conn_id(b.as_mut_slice(), conn_id_send as u16);
        packet::set_ack_nr(b.as_mut_slice(), ack_nr);
        packet::set_seq_nr(b.as_mut_slice(), seq_nr);
        packet::set_window_size(b.as_mut_slice(), 0);
        let d = Datagram { addr, data: b, conn: None, clean: false };
        proof {
            lemma_datagrams_push(self.io.outgoing@, d);
        }
        self.io.outgoing.push(d);
    }

    /// Where a stream is noted as rejected; the length if it is not.
    fn find_rst(&self, addr: SocketAddr, connid: u32, ack_nr: u16) -> (r: usize)
        ensures
            r == rst_place(self.rst_info@, addr, connid, ack_nr, 0),
            r <= self.rst_info@.len(),
    {
        let mut i: usize = 0;
        while i < self.rst_info.len()
            invariant
                i <= self.rst_info@.len(),
                rst_place(self.rst_info@, addr, connid, ack_nr, 0) == rst_place(
                    self.rst_info@,
                    addr,
                    connid,
                    ack_nr,
                    i as int,
                ),
            decreases self.rst_info@.len() - i,
        {
            let r: RstInfo = self.rst_info[i];
            if r.connid == connid && r.addr == addr && r.ack_nr == ack_nr {
                return i;
            }
            i = i + 1;
        }
        i
    }

    /// Rejects a packet of an unknown stream, replying with an RST (at most
    /// once per stream).
    fn reject(&mut self, addr: SocketAddr, id: u32, seq_nr: u16)
        requires
            old(self).wf(),
        ensures
            final(self).wf(),
            final(self)@ == old(self)@.rejected(addr, id, seq_nr),
            final(self).clock == old(self).clock,
    {
        proof {
            reveal(ContextView::rejected);
        }
        self.io.current_ms = self.io.now.ms;
        let i: usize = self.find_rst(addr, id, seq_nr);
        if i < self.rst_info.len() {
            let mut r: RstInfo = self.rst_info[i];
            r.timestamp = self.io.current_ms;
            self.rst_info.set(i, r);
            return ;
        }
        if self.rst_info.len() > RST_INFO_LIMIT {
            return ;
        }
        self.rst_info.push(
            RstInfo { addr, connid: id, ack_nr: seq_nr, timestamp: self.io.current_ms },
        );
        let rand_seq: u16 = self.rng.next_u32() as u16;
        self.send_rst(addr, id, seq_nr, rand_seq);
    }

    /// Whether there is a connection with a key that sends under `id`.
    fn sends_under(&self, key: Key, id: u32) -> (r: bool)
        requires
            self.wf(),
        ensures
            r == self@.sends_under(key, id),
    {
        proof {
            lemma_sock_views(self.sockets@);
        }
        match self.find(key) {
            Some(i) => {
                assert(self@.sockets[i as int] == self.sockets@[i as int]@);
                self.sockets[i].peer.conn_id_send == id
            },
            None => false,
        }
    }

    /// The connection that a RST is about.
    fn reset_key(&self, addr: SocketAddr, id: u32) -> (r: Option<Key>)
        requires
            self.wf(),
        ensures
            r == self@.reset_key(addr, id),
    {
        // id is either our recv id or our send id; we have to check every
        // case
        let k0 = Key { addr, recv_id: id };
        let k1 = Key { addr, recv_id: id.wrapping_add(1) };
        let k2 = Key { addr, recv_id: id.wrapping_sub(1) };
        if self.find(k0).is_some() {
            Some(k0)
        } else if self.sends_under(k1, id) {
            Some(k1)
        } else if self.sends_under(k2, id) {
            Some(k2)
        } else {
            None
        }
    }

    /// Handles a RST.
    fn receive_reset(&mut self, addr: SocketAddr, id: u32)
        requires
            old(self).wf(),
        ensures
            final(self).wf(),
            final(self)@ == old(self)@.reset_received(addr, id),
            final(self).clock == old(self).clock,
    {
        proof {
            reveal(ContextView::reset_received);
        }
        let found: Option<Key> = self.reset_key(addr, id);
        let key: Key = match found {
            Some(k) => k,
            None => {
                return ;
            },
        };
        match self.find(key) {
            Some(i) => {
                let ghost c = self@;
                let ghost sockets = self.sockets@;
                proof {
                    lemma_sock_views(sockets);
                    reveal(all_wf);
                    assert(c.sockets[i as int] == sockets[i as int]@);
                    let after = St { s: c.sockets[i as int].reset(), io: c.io };
                    lemma_io_frame_refl(c.st_at(i as int));
                    lemma_put(c, i as int, after);
                }
                self.sockets[i].on_reset();
                proof {
                    lemma_sock_views_update(sockets, i as int, self.sockets@[i as int]);
                    assert(self.sockets@ =~= sockets.update(i as int, self.sockets@[i as int]));
                }
            },
            None => {},
        }
    }

    /// Hands a packet to the connection with a key.
    fn deliver(&mut self, key: Key, buf: &[u8])
        requires
            old(self).wf(),
            old(self)@.has_key(key),
            buf@.len() >= HEADER_SIZE,
        ensures
            final(self).wf(),
            final(self)@ == old(self)@.delivered_to(key, buf@),
            final(self).clock == old(self).clock,
    {
        proof {
            reveal(ContextView::delivered_to);
        }
        match self.find(key) {
            Some(i) => {
                let ghost c = self@;
                let ghost sockets = self.sockets@;
                proof {
                    lemma_sock_views(sockets);
                    reveal(all_wf);
                    assert(c.sockets[i as int] == sockets[i as int]@);
                    lemma_arrived(c.st_at(i as int), buf@, false);
                    lemma_put(c, i as int, arrived(c.st_at(i as int), buf@, false).1);
                }
                self.sockets[i].process_incoming(&mut self.io, buf, false);
                proof {
                    lemma_sock_views_update(sockets, i as int, self.sockets@[i as int]);
                    assert(self.sockets@ =~= sockets.update(i as int, self.sockets@[i as int]));
                }
            },
            None => {},
        }
    }

    /// Whether a datagram asks for a connection that could be accepted, so
    /// that it is to be decided whether it should be.
    pub fn is_incoming(&self, buf: &[u8], addr: SocketAddr) -> (r: bool)
        requires
            self.wf(),
        ensures
            r == self@.is_incoming(buf@, addr),
    {
        proof {
            lemma_sock_views(self.sockets@);
        }
        if !recognize(buf, addr) {
            return false;
        }
        let h = Header(buf);
        if h.packet_type() != ST_SYN {
            return false;
        }
        let id: u32 = h.conn_id() as u32;
        if self.find(Key { addr, recv_id: id.wrapping_add(1) }).is_some() {
            // connection already exists
            return false;
        }
        self.sockets.len() <= MAX_SOCKETS
    }

    /// Creates a new socket to handle a new connection.
    fn accept(&mut self, buf: &[u8], addr: SocketAddr) -> (r: (Key, u64))
        requires
            old(self).wf(),
            old(self)@.is_incoming(buf@, addr),
            old(self)@.next_id < u64::MAX,
        ensures
            final(self).wf(),
            final(self)@ == old(self)@.accepting(buf@, addr),
            r.0 == old(self)@.accept_key(buf@, addr),
            r.1 == old(self)@.next_id,
            final(self).clock == old(self).clock,
    {
        let ghost c = self@;
        let h = Header(buf);
        let id: u32 = h.conn_id() as u32;
        let seq_nr: u16 = self.rng.next_u32() as u16;
        let now: Now = self.io.now;
        self.io.current_ms = now.ms;
        let key = Key { addr, recv_id: id.wrapping_add(1) };
        let peer = Peer {
            key,
            conn_seed: id,
            conn_id_recv: id.wrapping_add(1),
            conn_id_send: id,
        };
        let conn: u64 = self.next_id;
        proof {
            lemma_answering(conn, peer, c.options, now, seq_nr_of(buf@), seq_nr);
        }
        let mut sock: UtpSock = UtpSock::new(conn, peer, self.options, now);
        sock.answer(h.seq_nr(), seq_nr);
        let ghost mid = self@;
        let ghost before = st(sock, self.io);
        let ghost heard = arrived(before, buf@, true).1;
        proof {
            lemma_arrived(before, buf@, true);
            lemma_ack_sent(heard);
            lemma_timed_io_frame_trans(before, heard, ack_sent(heard));
            assert(!mid.has_key(key)) by {
                if mid.has_key(key) {
                    assert(c.has_key(key));
                }
            }
            lemma_push(mid, before.s, ack_sent(heard));
        }
        sock.process_incoming(&mut self.io, buf, true);
        sock.send_ack(&mut self.io);
        proof {
            reveal(ContextView::accepting);
            lemma_sock_views_push(self.sockets@, sock);
        }
        self.sockets.push(sock);
        self.next_id = conn + 1;
        (key, conn)
    }

    /// Handles a datagram, with the clock at `now`. `blocked` tells whether an
    /// incoming connection from there is to be ignored. Returns whether the
    /// datagram was recognized as uTP, and surfaces accepted connections to
    /// the caller.
    pub fn process_udp_at(
        &mut self,
        now: Now,
        buf: &[u8],
        addr: SocketAddr,
        blocked: bool,
    ) -> (r: ProcessUdp)
        requires
            old(self).wf(),
            old(self)@.next_id < u64::MAX,
        ensures
            final(self).wf(),
            r == old(self)@.received(now, buf@, addr, blocked).0,
            final(self)@ == old(self)@.received(now, buf@, addr, blocked).1,
            final(self).clock == old(self).clock,
    {
        if !recognize(buf, addr) {
            return ProcessUdp::NotUtp;
        }
        self.io.now = now;
        let h = Header(buf);
        let id: u32 = h.conn_id() as u32;
        let flags: u8 = h.packet_type();
        if flags == ST_RESET {
            self.receive_reset(addr, id);
            return ProcessUdp::Handled;
        }
        if flags != ST_SYN {
            let key = Key { addr, recv_id: id };
            if self.find(key).is_some() {
                self.deliver(key, buf);
            } else {
                // We have not found a matching utp_socket, and this isn't a
                // SYN.
                self.reject(addr, id, h.seq_nr());
            }
            return ProcessUdp::Handled;
        }
        // Incoming connection (ST_SYN).

        if !self.is_incoming(buf, addr) {
            return ProcessUdp::Handled;
        }
        // true means yes, block connection. false means no, don't block.

        if blocked {
            return ProcessUdp::Handled;
        }
        let (key, conn): (Key, u64) = self.accept(buf, addr);
        ProcessUdp::Accepted(key, conn)
    }

    pub fn process_udp(&mut self, buf: &[u8], addr: SocketAddr, blocked: bool) -> (r: ProcessUdp)
        requires
            old(self).wf(),
            old(self)@.next_id < u64::MAX,
        ensures
            final(self).wf(),
            exists|nanos: u128|
                {
                    let now = #[trigger] Now::after(nanos);
                    &&& r == old(self)@.received(now, buf@, addr, blocked).0
                    &&& final(self)@ == old(self)@.received(now, buf@, addr, blocked).1
                },
            final(self).clock == old(self).clock,
    {
        let now: Now = self.clock.now();
        self.process_udp_at(now, buf, addr, blocked)
    }
}

impl UtpSock {
    /// The peer resets the connection.
    pub fn on_reset(&mut self)
        ensures
            final(self)@ == old(self)@.reset(),
            old(self).bufs_wf() ==> final(self).bufs_wf(),
    {
        if self.send.close_requested {
            self.state = ConnState::Destroy;
        } else {
            self.state = ConnState::Reset;
        }
        self.user.on_error(ErrorKind::ConnectionReset);
    }
}

/// Whether a datagram is recognized as uTP.
pub fn recognize(buf: &[u8], addr: SocketAddr) -> (r: bool)
    ensures
        r == is_utp(buf@, addr),
{
    if buf.len() < HEADER_SIZE {
        return false;
    }
    if addr.port() == 0 {
        return false;
    }
    let h = Header(buf);
    h.wire_version() == 1
}

} // verus!

//! Putting acks on the wire, and stamping whatever goes there.

use crate::engine::model::{
    ack_sent, byte_of, data_sent, keep_alive_sent, scheduled, stamped, unscheduled, without, zeros,
    St,
};
use crate::engine::mtu::{UDP_IPV4_MTU, UDP_IPV4_OVERHEAD, UDP_TEREDO_MTU, UDP_TEREDO_OVERHEAD};
use crate::engine::slots::{lemma_ring_size_pos, lemma_slot_views_at};
use crate::engine::state::{
    datagram_views, Datagram, Io, IoView, Key, SockView, UtpSock, MAX_PAYLOAD,
};
use crate::packet;
use crate::packet::{HEADER_SIZE, ST_STATE};
use vstd::prelude::*;

verus! {

/// The state that a socket and what it shares stand for.
pub open spec fn st(s: UtpSock, io: Io) -> St {
    St { s: s@, io: io@ }
}

pub proof fn lemma_datagrams_push(out: Seq<Datagram>, d: Datagram)
    ensures
        datagram_views(out.push(d)) == datagram_views(out).push(d@),
{
    reveal(datagram_views);
    assert(datagram_views(out.push(d)) =~= datagram_views(out).push(d@));
}

impl Io {
    fn ack_list_remove(&mut self, key: Key)
        ensures
            final(self)@ == (IoView { ack_list: without(old(self)@.ack_list, key), ..old(self)@ }),
    {
        let ghost keys = self.ack_list@;
        let mut kept: Vec<Key> = Vec::new();
        let mut i: usize = 0;
        assert(keys.take(0) =~= Seq::empty());
        while i < self.ack_list.len()
            invariant
                i <= keys.len(),
                self.ack_list@ == keys,
                kept@ == without(keys.take(i as int), key),
            decreases keys.len() - i,
        {
            assert(keys.take(i + 1).drop_last() =~= keys.take(i as int));
            let k: Key = self.ack_list[i];
            if k != key {
                kept.push(k);
            }
            i += 1;
        }
        assert(keys.take(i as int) =~= keys);
        self.ack_list = kept;
    }
}

impl UtpSock {
    pub fn ack_list_remove(&mut self, io: &mut Io)
        ensures
            st(*final(self), *final(io)) == unscheduled(st(*old(self), *old(io))),
            old(self).bufs_wf() ==> final(self).bufs_wf(),
    {
        if self.in_ack_list {
            self.in_ack_list = false;
            io.ack_list_remove(self.peer.key);
        }
    }

    pub fn schedule_ack(&mut self, io: &mut Io)
        ensures
            st(*final(self), *final(io)) == scheduled(st(*old(self), *old(io))),
            old(self).bufs_wf() ==> final(self).bufs_wf(),
    {
        if !self.in_ack_list {
            self.in_ack_list = true;
            io.ack_list.push(self.peer.key);
        }
    }

    /// Calculates the current receive window
    pub fn get_rcv_window(&self) -> (r: usize)
        ensures
            r == self@.rcv_window(),
    {
        // Trim window down according to what's already buffered for the app.
        let numbuf: usize = self.user.read_buffer_len();
        self.recv.opt_rcvbuf.saturating_sub(numbuf)
    }

    pub fn get_udp_mtu(&self) -> (r: u32)
        ensures
            r == self@.udp_mtu(),
    {
        // Be conservative and assume all IPv6 connections are Teredo.
        if self.peer.key.addr.is_ipv6() {
            UDP_TEREDO_MTU
        } else {
            UDP_IPV4_MTU
        }
    }

    pub fn get_udp_overhead(&self) -> (r: usize)
        ensures
            r == (if self.peer.key.addr is V6 {
                UDP_TEREDO_OVERHEAD
            } else {
                UDP_IPV4_OVERHEAD
            }),
    {
        if self.peer.key.addr.is_ipv6() {
            UDP_TEREDO_OVERHEAD
        } else {
            UDP_IPV4_OVERHEAD
        }
    }

    /// returns the max number of bytes of payload the connection is allowed
    /// to send in one packet
    pub fn get_packet_size(&self) -> (r: usize)
        requires
            self.mtu.wf(),
        ensures
            r == self@.packet_size(),
            0 < r <= MAX_PAYLOAD,
    {
        let mtu: u32 = if self.mtu.last != 0 {
            self.mtu.last
        } else {
            self.mtu.ceiling
        };
        mtu as usize - HEADER_SIZE
    }

    /// Stamp the header timestamps and put the packet on the wire.
    pub fn send_data(&mut self, io: &mut Io, buf: &mut Vec<u8>)
        requires
            old(buf)@.len() >= HEADER_SIZE,
        ensures
            st(*final(self), *final(io)) == data_sent(st(*old(self), *old(io)), old(buf)@),
            final(buf)@ == stamped(st(*old(self), *old(io)), old(buf)@),
            old(self).bufs_wf() ==> final(self).bufs_wf(),
    {
        proof {
            reveal(data_sent);
        }
        let time: u64 = io.now.us;
        packet::set_tv_usec(buf.as_mut_slice(), time as u32);
        packet::set_reply_micro(buf.as_mut_slice(), self.seen.reply_micro);
        self.send.last_sent_packet = io.current_ms;
        let d = Datagram {
            addr: self.peer.key.addr,
            data: vstd::slice::slice_to_vec(buf.as_slice()),
            conn: Some(self.user.id),
            clean: self.user.cell.error.is_none(),
        };
        proof {
            lemma_datagrams_push(io.outgoing@, d);
        }
        io.outgoing.push(d);
        self.ack_list_remove(io);
    }

    /// One byte of the mask of segments received, beginning with segment
    /// `from`.
    fn eack_byte(&self, from: usize) -> (r: u8)
        requires
            self.inbuf.wf(),
            from <= 24,
        ensures
            r == byte_of(|i: int| self@.has_segment(i + from)),
    {
        bit(self.has_segment(from), 1) + bit(self.has_segment(from + 1), 2) + bit(
            self.has_segment(from + 2),
            4,
        ) + bit(self.has_segment(from + 3), 8) + bit(self.has_segment(from + 4), 16) + bit(
            self.has_segment(from + 5),
            32,
        ) + bit(self.has_segment(from + 6), 64) + bit(self.has_segment(from + 7), 128)
    }

    fn has_segment(&self, i: usize) -> (r: bool)
        requires
            self.inbuf.wf(),
            i < 32,
        ensures
            r == self@.has_segment(i as int),
    {
        proof {
            self.inbuf.lemma_wf_size();
            lemma_ring_size_pos(self.inbuf@.len() as int);
            lemma_slot_views_at(self.inbuf@, self.recv.ack_nr + i + 2);
        }
        i < 30 && i < self.inbuf.size() && self.inbuf.get(self.recv.ack_nr as usize + i + 2).is_some()
    }

    /// Puts the mask of segments received behind the header.
    fn put_eack(&self, b: &mut Vec<u8>)
        requires
            self.inbuf.wf(),
            old(b)@.len() == HEADER_SIZE + 6,
        ensures
            final(b)@ == self@.with_eack(old(b)@),
    {
        // Generate bit mask of segments received.
        let b0: u8 = self.eack_byte(0);
        let b1: u8 = self.eack_byte(8);
        let b2: u8 = self.eack_byte(16);
        let b3: u8 = self.eack_byte(24);
        packet::set_ext(b.as_mut_slice(), 1);
        b[HEADER_SIZE] = 0;  // ext_next
        b[HEADER_SIZE + 1] = 4;  // ext_len
        b[HEADER_SIZE + 2] = b0;
        b[HEADER_SIZE + 3] = b1;
        b[HEADER_SIZE + 4] = b2;
        b[HEADER_SIZE + 5] = b3;
    }

    /// An ack, but for the timestamps.
    fn ack_packet_bytes(&self) -> (b: Vec<u8>)
        requires
            self.inbuf.wf(),
        ensures
            b@ == self@.ack_bytes(),
            b@.len() >= HEADER_SIZE,
    {
        proof {
            reveal(SockView::ack_bytes);
        }
        // we never need to send EACK for connections that are shutting down
        let eack: bool = self.recv.reorder_count != 0 && !self.recv.got_fin_reached;
        let len: usize = if eack {
            HEADER_SIZE + 6
        } else {
            HEADER_SIZE
        };
        let mut b: Vec<u8> = zero_bytes(len);
        packet::set_version_type(b.as_mut_slice(), 1, ST_STATE);
        packet::set_conn_id(b.as_mut_slice(), self.peer.conn_id_send as u16);
        packet::set_ack_nr(b.as_mut_slice(), self.recv.ack_nr);
        packet::set_seq_nr(b.as_mut_slice(), self.send.seq_nr);
        packet::set_window_size(b.as_mut_slice(), self.send.last_rcv_win as u32);
        if eack {
            self.put_eack(&mut b);
        }
        b
    }

    pub fn send_ack(&mut self, io: &mut Io)
        requires
            old(self).bufs_wf(),
        ensures
            st(*final(self), *final(io)) == ack_sent(st(*old(self), *old(io))),
            final(self).bufs_wf(),
    {
        proof {
            reveal(ack_sent);
        }
        self.send.last_rcv_win = self.get_rcv_window();
        let mut b: Vec<u8> = self.ack_packet_bytes();
        self.send_data(io, &mut b);
    }

    pub fn send_keep_alive(&mut self, io: &mut Io)
        requires
            old(self).bufs_wf(),
        ensures
            st(*final(self), *final(io)) == keep_alive_sent(st(*old(self), *old(io))),
            final(self).bufs_wf(),
    {
        proof {
            reveal(ack_sent);
            reveal(data_sent);
        }
        self.recv.ack_nr = self.recv.ack_nr.wrapping_sub(1);
        self.send_ack(io);
        self.recv.ack_nr = self.recv.ack_nr.wrapping_add(1);
    }
}

/// `value` where `set` holds, 0 elsewhere.
fn bit(set: bool, value: u8) -> (r: u8)
    ensures
        r <= value,
        r == (if set {
            value
        } else {
            0
        }),
{
    if set {
        value
    } else {
        0
    }
}

pub fn zero_bytes(n: usize) -> (r: Vec<u8>)
    ensures
        r@ == zeros(n as nat),
{
    let mut b: Vec<u8> = Vec::new();
    while b.len() < n
        invariant
            b@ == zeros(b@.len()),
            b@.len() <= n,
        decreases n - b.len(),
    {
        b.push(0);
        assert(b@ =~= zeros(b@.len()));
    }
    b
}

} // verus!

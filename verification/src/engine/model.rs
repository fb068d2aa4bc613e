//! What the steps of the engine do, as functions on the state of a socket and
//! of what the sockets share.

use crate::circular::{ring_at, ring_ensured, ring_put};
use crate::engine::mtu::{Mtu, UDP_IPV4_MTU, UDP_TEREDO_MTU};
use crate::engine::state::{
    DatagramView, IoView, Key, PacketView, RecvSide, SendSide, SockView, OUTGOING_BUFFER_MAX_SIZE,
};
use crate::engine::window::Cwnd;
use crate::packet::{put_be16, put_be32, version_type_byte, HEADER_SIZE, ST_STATE};
use vstd::prelude::*;

verus! {

/// A socket together with what the sockets share.
pub struct St {
    pub s: SockView,
    pub io: IoView,
}

/// How many milliseconds `a` is past `b`, on clocks whose difference is taken
/// to fit 32 bits.
pub open spec fn ms_between(a: u64, b: u64) -> i32 {
    a.wrapping_sub(b) as u32 as i32
}

/// `keys` without `key`.
pub open spec fn without(keys: Seq<Key>, key: Key) -> Seq<Key>
    decreases keys.len(),
{
    if keys.len() == 0 {
        keys
    } else if keys.last() == key {
        without(keys.drop_last(), key)
    } else {
        without(keys.drop_last(), key).push(keys.last())
    }
}

pub open spec fn zeros(n: nat) -> Seq<u8> {
    Seq::new(n, |i: int| 0u8)
}

/// The byte whose bit `i` is set exactly where `f` holds of `i`.
pub open spec fn byte_of(f: spec_fn(int) -> bool) -> u8 {
    ((if f(0) { 1int } else { 0 }) + (if f(1) { 2int } else { 0 }) + (if f(2) { 4int } else { 0 })
        + (if f(3) { 8int } else { 0 }) + (if f(4) { 16int } else { 0 })
        + (if f(5) { 32int } else { 0 }) + (if f(6) { 64int } else { 0 })
        + (if f(7) { 128int } else { 0 })) as u8
}

/// Whether bit `i` of a mask is set; bits past the end are not.
pub open spec fn mask_bit(mask: Seq<u8>, i: int) -> bool {
    0 <= i < 8 * mask.len() && (mask[i / 8] >> ((i % 8) as u8)) & 1 == 1
}

impl SockView {
    /// The room that is left for the peer's data.
    pub open spec fn rcv_window(self) -> usize {
        if self.user.read_buf.len() < self.recv.opt_rcvbuf {
            (self.recv.opt_rcvbuf - self.user.read_buf.len()) as usize
        } else {
            0
        }
    }

    /// The largest datagram for the kind of path the peer is on. Be
    /// conservative and assume all IPv6 connections are Teredo.
    pub open spec fn udp_mtu(self) -> u32 {
        if self.peer.key.addr is V6 {
            UDP_TEREDO_MTU
        } else {
            UDP_IPV4_MTU
        }
    }

    /// The number of bytes of payload that go into one packet.
    pub open spec fn packet_size(self) -> usize {
        ((if self.mtu.last != 0 {
            self.mtu.last
        } else {
            self.mtu.ceiling
        }) - HEADER_SIZE) as usize
    }

    /// The packet that is found under a sequence number.
    pub open spec fn packet_at(self, seq: u16) -> Option<PacketView> {
        ring_at(self.outbuf, seq as int)
    }

    pub open spec fn oldest_seq(self) -> u16 {
        self.send.seq_nr.wrapping_sub(self.send.cur_window_packets)
    }

    /// Whether the segment `i` past the first missing one has been received.
    pub open spec fn has_segment(self, i: int) -> bool {
        0 <= i < 30 && i < self.inbuf.len() && ring_at(self.inbuf, self.recv.ack_nr + i + 2) is Some
    }

    /// Whether acks of this socket carry a mask of the segments received.
    pub open spec fn sends_eack(self) -> bool {
        self.recv.reorder_count != 0 && !self.recv.got_fin_reached
    }

    /// An ack, but for the timestamps.
    #[verifier::opaque]
    pub open spec fn ack_bytes(self) -> Seq<u8> {
        let len: nat = if self.sends_eack() {
            HEADER_SIZE as nat + 6
        } else {
            HEADER_SIZE as nat
        };
        let b = zeros(len).update(0, version_type_byte(1, ST_STATE));
        let b = put_be16(b, 2, (self.peer.conn_id_send as u16) as int);
        let b = put_be16(b, 18, self.recv.ack_nr as int);
        let b = put_be16(b, 16, self.send.seq_nr as int);
        let b = put_be32(b, 12, (self.send.last_rcv_win as u32) as int);
        if self.sends_eack() {
            self.with_eack(b)
        } else {
            b
        }
    }

    /// `b` with the mask of segments received as its one extension.
    pub open spec fn with_eack(self, b: Seq<u8>) -> Seq<u8> {
        b.update(1, 1).update(20, 0).update(21, 4).update(
            22,
            byte_of(|i: int| self.has_segment(i + 0)),
        ).update(23, byte_of(|i: int| self.has_segment(i + 8))).update(
            24,
            byte_of(|i: int| self.has_segment(i + 16)),
        ).update(25, byte_of(|i: int| self.has_segment(i + 24)))
    }

    /// Whether there is no room in the window for `bytes` more, or for a full
    /// packet if there are more than that. One place in the send queue is kept
    /// for the FIN packet.
    pub open spec fn full(self, bytes: usize) -> bool {
        let n = if bytes < self.packet_size() {
            bytes
        } else {
            self.packet_size()
        };
        ||| self.send.cur_window_packets >= OUTGOING_BUFFER_MAX_SIZE - 1
        ||| self.send.cur_window + n > self.cwnd.max_window
        ||| self.send.cur_window + n > self.cwnd.opt_sndbuf
        ||| self.send.cur_window + n > self.send.max_window_user
    }

    /// Asking whether there is room leaves a note if there is none.
    pub open spec fn asked_full(self, bytes: usize, current_ms: u64) -> SockView {
        if self.full(bytes) {
            SockView { cwnd: Cwnd { last_maxed_out_window: current_ms, ..self.cwnd }, ..self }
        } else {
            self
        }
    }
}

/// `buf` as it goes over the wire at this time: with our time, and with the
/// delay that the peer's packets had.
pub open spec fn stamped(st: St, buf: Seq<u8>) -> Seq<u8> {
    put_be32(put_be32(buf, 4, (st.io.now.us as u32) as int), 8, st.s.seen.reply_micro as int)
}

/// The socket owes no ack any more.
pub open spec fn unscheduled(st: St) -> St {
    if st.s.in_ack_list {
        St {
            s: SockView { in_ack_list: false, ..st.s },
            io: IoView { ack_list: without(st.io.ack_list, st.s.peer.key), ..st.io },
        }
    } else {
        st
    }
}

/// The socket owes an ack.
pub open spec fn scheduled(st: St) -> St {
    if st.s.in_ack_list {
        st
    } else {
        St {
            s: SockView { in_ack_list: true, ..st.s },
            io: IoView { ack_list: st.io.ack_list.push(st.s.peer.key), ..st.io },
        }
    }
}

/// `buf` is stamped and put on the wire. Whatever goes out acks what came in.
#[verifier::opaque]
pub open spec fn data_sent(st: St, buf: Seq<u8>) -> St {
    unscheduled(
        St {
            s: SockView {
                send: SendSide { last_sent_packet: st.io.current_ms, ..st.s.send },
                ..st.s
            },
            io: IoView {
                outgoing: st.io.outgoing.push(
                    DatagramView {
                        addr: st.s.peer.key.addr,
                        data: stamped(st, buf),
                        conn: Some(st.s.user.id),
                        clean: st.s.user.error is None,
                    },
                ),
                ..st.io
            },
        },
    )
}

#[verifier::opaque]
pub open spec fn ack_sent(st: St) -> St {
    let s = SockView {
        send: SendSide { last_rcv_win: st.s.rcv_window(), ..st.s.send },
        ..st.s
    };
    data_sent(St { s, ..st }, s.ack_bytes())
}

/// An ack of what was acked already.
pub open spec fn keep_alive_sent(st: St) -> St {
    let before = RecvSide { ack_nr: st.s.recv.ack_nr.wrapping_sub(1), ..st.s.recv };
    let acked = ack_sent(St { s: SockView { recv: before, ..st.s }, ..st });
    St { s: SockView { recv: st.s.recv, ..acked.s }, ..acked }
}

/// The search for the MTU as a packet of `len` bytes goes out for the first
/// (`first`) or another time.
pub open spec fn probed(m: Mtu, udp_mtu: u32, now_ms: u64, len: int, first: bool, seq: u16) -> Mtu {
    let m = if m.discover_time < now_ms {
        m.spec_reset(udp_mtu, now_ms)
    } else {
        m
    };
    if first && m.can_probe(len, seq) {
        Mtu { probe_seq: seq as u32, probe_size: len as u32, ..m }
    } else {
        m
    }
}

impl SockView {
    /// The books of the socket as the packet `p` goes out.
    pub open spec fn sending(self, now_ms: u64, p: PacketView) -> SockView {
        SockView {
            // only count against the window the first time we send the packet
            send: if p.waiting() {
                SendSide {
                    cur_window: (self.send.cur_window + p.payload) as usize,
                    ..self.send
                }
            } else {
                self.send
            },
            mtu: probed(
                self.mtu,
                self.udp_mtu(),
                now_ms,
                p.data.len() as int,
                p.transmissions == 0,
                self.send.seq_nr.wrapping_sub(1),
            ),
            ..self
        }
    }
}

impl PacketView {
    /// The packet once it went out, but for the timestamps in it.
    pub open spec fn sent(self, now_us: u64, ack_nr: u16) -> PacketView {
        PacketView {
            time_sent: now_us,
            transmissions: self.transmissions.saturating_add(1),
            need_resend: false,
            data: put_be16(self.data, 18, ack_nr as int),
            ..self
        }
    }
}

/// The packet under number `seq`, if there is one, is sent.
#[verifier::opaque]
pub open spec fn packet_sent(st: St, seq: u16) -> St {
    match st.s.packet_at(seq) {
        None => st,
        Some(p) => {
            let s = st.s.sending(st.io.now.ms, p);
            let sent = p.sent(st.io.now.us, s.recv.ack_nr);
            let after = data_sent(St { s, ..st }, sent.data);
            let kept = PacketView { data: stamped(st, sent.data), ..sent };
            St {
                s: SockView { outbuf: ring_put(st.s.outbuf, seq as int, Some(kept)), ..after.s },
                ..after
            }
        },
    }
}

/// Every packet from number `i` on that waits to be sent is sent, as long as
/// there is room in the window. The newest packet is held back while it is
/// small and others are in flight (Nagle).
#[verifier::opaque]
pub open spec fn flushed_from(st: St, packet_size: usize, i: u16) -> (bool, St)
    decreases st.s.send.seq_nr.wrapping_sub(i),
{
    if i == st.s.send.seq_nr {
        (false, st)
    } else {
        match st.s.packet_at(i) {
            Some(p) if p.waiting() => {
                if st.s.full(usize::MAX) {
                    (true, St { s: st.s.asked_full(usize::MAX, st.io.current_ms), ..st })
                } else if i != st.s.send.seq_nr.wrapping_sub(1) || st.s.send.cur_window_packets == 1
                    || p.payload >= packet_size {
                    proof {
                        reveal(packet_sent);
                        reveal(data_sent);
                    }
                    flushed_from(packet_sent(st, i), packet_size, i.wrapping_add(1))
                } else {
                    flushed_from(st, packet_size, i.wrapping_add(1))
                }
            },
            _ => flushed_from(st, packet_size, i.wrapping_add(1)),
        }
    }
}

/// Sends what waits to be sent; says whether the window ran out.
pub open spec fn flushed(st: St) -> (bool, St) {
    flushed_from(st, st.s.packet_size(), st.s.oldest_seq())
}

/// A packet's data with the header fields that every outgoing packet has.
pub open spec fn with_header(s: SockView, data: Seq<u8>, flags: u8) -> Seq<u8> {
    let b = data.update(0, version_type_byte(1, flags)).update(1, 0);
    let b = put_be16(b, 2, (s.peer.conn_id_send as u16) as int);
    let b = put_be32(b, 12, (s.send.last_rcv_win as u32) as int);
    put_be16(b, 18, s.recv.ack_nr as int)
}

impl SockView {
    /// How much of `len` bytes fits the newest packet, if that has not been
    /// sent yet.
    pub open spec fn room_in_last(self, len: int) -> int {
        match self.packet_at(self.send.seq_nr.wrapping_sub(1)) {
            Some(p) if self.send.cur_window_packets > 0 && p.transmissions == 0 && p.payload
                < self.packet_size() => {
                if len < self.packet_size() - p.payload {
                    len
                } else {
                    self.packet_size() - p.payload
                }
            },
            _ => 0,
        }
    }

    /// The newest packet takes `data` in at its end.
    pub open spec fn with_extended(self, flags: u8, data: Seq<u8>) -> SockView {
        let last = self.send.seq_nr.wrapping_sub(1);
        let p = self.packet_at(last)->0;
        SockView {
            outbuf: ring_put(
                self.outbuf,
                last as int,
                Some(
                    PacketView {
                        payload: (p.payload + data.len()) as usize,
                        data: with_header(self, p.data + data, flags),
                        ..p
                    },
                ),
            ),
            ..self
        }
    }

    /// A new packet with `data` as its payload is queued.
    pub open spec fn with_packet(self, flags: u8, data: Seq<u8>) -> SockView {
        let p = PacketView {
            payload: data.len() as usize,
            time_sent: 0,
            transmissions: 0,
            need_resend: false,
            data: put_be16(
                with_header(self, zeros(HEADER_SIZE as nat) + data, flags),
                16,
                self.send.seq_nr as int,
            ),
        };
        SockView {
            outbuf: ring_put(
                ring_ensured(
                    self.outbuf,
                    self.send.seq_nr as int,
                    self.send.cur_window_packets as int,
                ),
                self.send.seq_nr as int,
                Some(p),
            ),
            send: SendSide {
                seq_nr: self.send.seq_nr.wrapping_add(1),
                cur_window_packets: (self.send.cur_window_packets + 1) as u16,
                ..self.send
            },
            ..self
        }
    }

    /// `data` is queued: the newest packet is filled up first, the rest makes
    /// a packet of its own. Empty data makes an empty packet.
    pub open spec fn queued(self, flags: u8, data: Seq<u8>) -> SockView {
        let n = self.room_in_last(data.len() as int);
        if n == 0 {
            self.with_packet(flags, data)
        } else if n == data.len() {
            self.with_extended(flags, data)
        } else {
            self.with_extended(flags, data.take(n)).with_packet(flags, data.skip(n))
        }
    }
}

/// `data` is queued as a packet of type `flags`, and what waits is sent.
pub open spec fn packet_written(st: St, flags: u8, data: Seq<u8>) -> St {
    let send = if st.s.send.cur_window_packets == 0 {
        SendSide {
            retransmit_timeout: st.s.rtt.rto,
            rto_timeout: st.io.current_ms.wrapping_add(st.s.rtt.rto as u64),
            ..st.s.send
        }
    } else {
        st.s.send
    };
    let send = SendSide { last_rcv_win: st.s.rcv_window(), ..send };
    flushed(St { s: SockView { send, ..st.s }.queued(flags, data), ..st }).1
}

} // verus!

//! What the engine keeps: one socket per connection, and what the sockets
//! share while a call is under way.

use crate::addr::SocketAddr;
use crate::circular::{is_ring_size, ring_at, ring_total, CircularBuffer};
use crate::clock::Now;
use crate::conn_shared::{ConnShared, ConnView};
use crate::delay_hist::{DelayHist, DelayHistView};
use crate::engine::drift::Drift;
use crate::engine::mtu::Mtu;
use crate::engine::rtt::Rtt;
use crate::engine::window::Cwnd;
use crate::packet::{be16, HEADER_SIZE};
use vstd::prelude::*;

verus! {

pub const PACKET_SIZE: usize = 1435;

pub const OUTGOING_BUFFER_MAX_SIZE: usize = 1024;

pub const REORDER_BUFFER_MAX_SIZE: usize = 1024;

/// The most payload that a packet can carry: what is left of the largest MTU
/// after the header.
pub const MAX_PAYLOAD: usize = 1382;

#[derive(Clone, Copy, PartialEq, Eq, Structural, Hash, Debug)]
pub struct Key {
    pub addr: SocketAddr,
    pub recv_id: u32,
}

#[derive(Clone, Copy, PartialEq, Eq, Structural, Debug)]
pub enum ConnState {
    Idle,
    SynSent,
    SynRecv,
    Connected,
    ConnectedFull,
    Reset,
    Destroy,
}

/// A packet that has not been acked yet.
pub struct OutgoingPacket {
    pub payload: usize,
    /// microseconds
    pub time_sent: u64,
    pub transmissions: u32,
    pub need_resend: bool,
    /// header + payload; total wire length is data.len()
    pub data: Vec<u8>,
}

pub struct PacketView {
    pub payload: usize,
    pub time_sent: u64,
    pub transmissions: u32,
    pub need_resend: bool,
    pub data: Seq<u8>,
}

impl View for OutgoingPacket {
    type V = PacketView;

    open spec fn view(&self) -> PacketView {
        PacketView {
            payload: self.payload,
            time_sent: self.time_sent,
            transmissions: self.transmissions,
            need_resend: self.need_resend,
            data: self.data@,
        }
    }
}

impl PacketView {
    pub open spec fn wf(self) -> bool {
        &&& self.data.len() == HEADER_SIZE + self.payload
        &&& self.payload <= MAX_PAYLOAD
        &&& self.transmissions == 0 ==> !self.need_resend
    }

    /// Whether the packet is thought to be on its way: it was sent, and not
    /// given up as lost since.
    pub open spec fn in_flight(self) -> bool {
        self.transmissions > 0 && !self.need_resend
    }

    /// Whether the packet waits to be sent, for the first time or again.
    pub open spec fn waiting(self) -> bool {
        self.transmissions == 0 || self.need_resend
    }

    /// The packet's sequence number.
    pub open spec fn seq(self) -> int {
        be16(self.data, 16)
    }

    pub open spec fn body(self) -> Seq<u8> {
        self.data.skip(HEADER_SIZE as int)
    }
}

/// A datagram that is to go out.
pub struct Datagram {
    pub addr: SocketAddr,
    pub data: Vec<u8>,
    /// The connection it belongs to, if it belongs to one.
    pub conn: Option<u64>,
    /// Whether that connection was free of errors when the datagram was made.
    pub clean: bool,
}

pub struct DatagramView {
    pub addr: SocketAddr,
    pub data: Seq<u8>,
    pub conn: Option<u64>,
    pub clean: bool,
}

impl View for Datagram {
    type V = DatagramView;

    open spec fn view(&self) -> DatagramView {
        DatagramView { addr: self.addr, data: self.data@, conn: self.conn, clean: self.clean }
    }
}

/// What a call into the engine works with besides the socket it is about: the
/// time, the sockets that owe an ack, and the datagrams to be sent.
pub struct Io {
    /// the clock, as this call reads it
    pub now: Now,
    /// the time in milliseconds when the engine last looked at the clock for
    /// its timers
    pub current_ms: u64,
    pub ack_list: Vec<Key>,
    pub outgoing: Vec<Datagram>,
}

pub struct IoView {
    pub now: Now,
    pub current_ms: u64,
    pub ack_list: Seq<Key>,
    pub outgoing: Seq<DatagramView>,
}

#[verifier::opaque]
pub open spec fn datagram_views(s: Seq<Datagram>) -> Seq<DatagramView> {
    s.map_values(|d: Datagram| d@)
}

impl View for Io {
    type V = IoView;

    open spec fn view(&self) -> IoView {
        IoView {
            now: self.now,
            current_ms: self.current_ms,
            ack_list: self.ack_list@,
            outgoing: datagram_views(self.outgoing@),
        }
    }
}

/// Who a connection is with, and the numbers that its packets carry.
#[derive(Clone, Copy, PartialEq, Eq, Structural, Debug)]
pub struct Peer {
    pub key: Key,
    pub conn_seed: u32,
    // Connection ID for packets I receive
    pub conn_id_recv: u32,
    // Connection ID for packets I send
    pub conn_id_send: u32,
}

/// The books of the sending side.
#[derive(Clone, Copy, PartialEq, Eq, Structural, Debug)]
pub struct SendSide {
    pub retransmit_count: u16,
    pub duplicate_ack: u8,
    // the number of packets in the send queue. Packets that haven't
    // yet been sent count as well as packets marked as needing resend.
    // the oldest un-acked packet in the send queue is seq_nr - cur_window_packets
    pub cur_window_packets: u16,
    // how much of the window is used, number of bytes in-flight
    pub cur_window: usize,
    // max receive window for other end, in bytes
    pub max_window_user: usize,
    // This is the sequence number for the next packet to be sent.
    pub seq_nr: u16,
    pub timeout_seq_nr: u16,
    // sequence number of the next packet we're allowed to fast-resend
    pub fast_resend_seq_nr: u16,
    pub fast_timeout: bool,
    pub fin_sent: bool,
    pub fin_sent_acked: bool,
    pub close_requested: bool,
    pub retransmit_timeout: u32,
    // The RTO timer will timeout here
    pub rto_timeout: u64,
    // window-probe timer for a zero remote window
    pub zerowindow_time: u64,
    pub last_sent_packet: u64,
    // Last rcv window we advertised, in bytes
    pub last_rcv_win: usize,
}

/// The books of the receiving side.
#[derive(Clone, Copy, PartialEq, Eq, Structural, Debug)]
pub struct RecvSide {
    pub opt_rcvbuf: usize,
    pub reorder_count: u16,
    pub got_fin: bool,
    pub got_fin_reached: bool,
    pub read_shutdown: bool,
    // the sequence number of the FIN packet
    pub eof_pkt: u16,
    // All sequence numbers up to including this have been properly received
    // by us
    pub ack_nr: u16,
}

/// What was last seen of the peer.
#[derive(Clone, Copy, PartialEq, Eq, Structural, Debug)]
pub struct Seen {
    // the delay of the peer's last packet, for us to report back
    pub reply_micro: u32,
    pub last_got_packet: u64,
    pub last_measured_delay: u64,
}

pub struct UtpSock {
    pub peer: Peer,
    pub state: ConnState,
    pub in_ack_list: bool,
    pub send: SendSide,
    pub recv: RecvSide,
    pub seen: Seen,
    pub cwnd: Cwnd,
    pub rtt: Rtt,
    pub mtu: Mtu,
    pub drift: Drift,
    pub rtt_hist: DelayHist,
    pub our_hist: DelayHist,
    pub their_hist: DelayHist,
    // extension bytes from SYN packet
    pub extensions: [u8; 8],
    pub user: ConnShared,
    pub inbuf: CircularBuffer<Vec<u8>>,
    pub outbuf: CircularBuffer<OutgoingPacket>,
}

/// A socket, with its buffers as sequences of slots.
pub struct SockView {
    pub peer: Peer,
    pub state: ConnState,
    pub in_ack_list: bool,
    pub send: SendSide,
    pub recv: RecvSide,
    pub seen: Seen,
    pub cwnd: Cwnd,
    pub rtt: Rtt,
    pub mtu: Mtu,
    pub drift: Drift,
    pub rtt_hist: DelayHistView,
    pub our_hist: DelayHistView,
    pub their_hist: DelayHistView,
    pub extensions: Seq<u8>,
    pub user: ConnView,
    pub inbuf: Seq<Option<Seq<u8>>>,
    pub outbuf: Seq<Option<PacketView>>,
}

/// Slots with what they hold replaced by its view.
#[verifier::opaque]
pub open spec fn slot_views<T: View>(slots: Seq<Option<T>>) -> Seq<Option<T::V>> {
    slots.map_values(
        |o: Option<T>|
            match o {
                Some(v) => Some(v@),
                None => None,
            },
    )
}

impl View for UtpSock {
    type V = SockView;

    open spec fn view(&self) -> SockView {
        SockView {
            peer: self.peer,
            state: self.state,
            in_ack_list: self.in_ack_list,
            send: self.send,
            recv: self.recv,
            seen: self.seen,
            cwnd: self.cwnd,
            rtt: self.rtt,
            mtu: self.mtu,
            drift: self.drift,
            rtt_hist: self.rtt_hist@,
            our_hist: self.our_hist@,
            their_hist: self.their_hist@,
            extensions: self.extensions@,
            user: self.user@,
            inbuf: slot_views(self.inbuf@),
            outbuf: slot_views(self.outbuf@),
        }
    }
}

/// What a packet adds to the bytes in flight.
pub open spec fn flight_weight() -> spec_fn(PacketView) -> nat {
    |p: PacketView|
        if p.in_flight() {
            p.payload as nat
        } else {
            0
        }
}

/// What a buffered packet adds to the count of buffered packets.
pub open spec fn count_weight() -> spec_fn(Seq<u8>) -> nat {
    |p: Seq<u8>| 1
}

/// A send queue: every packet in it sits in the slot of its own number, that
/// number is one of the `packets` before `seq_nr`, and the packets in flight
/// make up `in_flight` bytes.
#[verifier::opaque]
pub open spec fn queue_wf(
    outbuf: Seq<Option<PacketView>>,
    seq_nr: u16,
    packets: u16,
    in_flight: usize,
) -> bool {
    let n = outbuf.len() as int;
    &&& is_ring_size(n)
    &&& 16 <= n <= 2048
    &&& packets <= n
    &&& packets <= OUTGOING_BUFFER_MAX_SIZE
    &&& forall|k: int| #![trigger outbuf[k]]
        0 <= k < n && outbuf[k] is Some ==> {
            &&& outbuf[k]->0.wf()
            &&& outbuf[k]->0.seq() % n == k
            &&& (seq_nr - 1 - outbuf[k]->0.seq()) % 0x10000 < packets
        }
    &&& in_flight == ring_total(outbuf, flight_weight())
}

/// A reorder buffer: until the end of the stream is reached, the counter tells
/// how many packets are in it, and the next expected packet is not among them.
#[verifier::opaque]
pub open spec fn reorder_wf(
    inbuf: Seq<Option<Seq<u8>>>,
    ack_nr: u16,
    count: u16,
    ended: bool,
) -> bool {
    let n = inbuf.len() as int;
    &&& is_ring_size(n)
    &&& 16 <= n <= 2048
    &&& count <= ring_total(inbuf, count_weight())
    &&& !ended ==> count == ring_total(inbuf, count_weight())
    &&& !ended ==> ring_at(inbuf, ack_nr + 1) is None
}

impl SockView {
    pub open spec fn send_wf(self) -> bool {
        &&& queue_wf(
            self.outbuf,
            self.send.seq_nr,
            self.send.cur_window_packets,
            self.send.cur_window,
        )
        &&& !self.send.fin_sent ==> self.send.cur_window_packets < OUTGOING_BUFFER_MAX_SIZE
    }

    /// The oldest packet of the window is still there.
    pub open spec fn oldest_there(self) -> bool {
        self.send.cur_window_packets > 0 ==> ring_at(
            self.outbuf,
            self.send.seq_nr.wrapping_sub(self.send.cur_window_packets) as int,
        ) is Some
    }

    /// The end of the stream is where a FIN was, and the user learns of it only
    /// there.
    pub open spec fn end_wf(self) -> bool {
        &&& self.recv.got_fin_reached ==> self.recv.got_fin
        &&& self.user.got_eof ==> self.recv.got_fin_reached
    }

    pub open spec fn recv_wf(self) -> bool {
        &&& self.end_wf()
        &&& reorder_wf(
            self.inbuf,
            self.recv.ack_nr,
            self.recv.reorder_count,
            self.recv.got_fin_reached,
        )
        &&& self.state == ConnState::SynSent ==> self.recv.reorder_count == 0
            && !self.recv.got_fin_reached
    }

    pub open spec fn aux_wf(self) -> bool {
        &&& self.mtu.wf()
        &&& self.drift.wf()
        &&& self.rtt_hist.wf()
        &&& self.our_hist.wf()
        &&& self.their_hist.wf()
        &&& self.extensions.len() == 8
        &&& self.send.retransmit_count <= 4
    }

    /// What holds of a socket also in the midst of handling acks.
    pub open spec fn inner_wf(self) -> bool {
        &&& self.send_wf()
        &&& self.recv_wf()
        &&& self.aux_wf()
    }

    pub open spec fn wf(self) -> bool {
        &&& self.inner_wf()
        &&& self.oldest_there()
    }
}

impl UtpSock {
    pub open spec fn wf(self) -> bool {
        &&& self.bufs_wf()
        &&& self@.wf()
    }

    pub open spec fn bufs_wf(self) -> bool {
        &&& self.inbuf.wf()
        &&& self.outbuf.wf()
    }
}

} // verus!

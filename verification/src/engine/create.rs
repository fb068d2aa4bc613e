//! How a socket starts out.

use crate::circular::{is_ring_size, lemma_total_empty, ring_put, CircularBuffer};
use crate::clock::Now;
use crate::conn_shared::{ConnShared, ConnView};
use crate::delay_hist::{DelayHist, DelayHistView};
use crate::engine::drift::Drift;
use crate::engine::model::zeros;
use crate::engine::mtu::{Mtu, UDP_IPV4_MTU, UDP_TEREDO_MTU};
use crate::engine::queue::lemma_queue_append;
use crate::engine::rtt::Rtt;
use crate::engine::send::zero_bytes;
use crate::engine::state::{
    count_weight, flight_weight, queue_wf, reorder_wf, slot_views, ConnState, OutgoingPacket,
    PacketView, Peer, RecvSide, Seen, SendSide, SockView, UtpSock, PACKET_SIZE,
};
use crate::engine::window::{Cwnd, MAX_WINDOW_DECAY};
use crate::packet;
use crate::packet::{put_be16, put_be32, version_type_byte, HEADER_SIZE, ST_SYN};
use vstd::prelude::*;

verus! {

/// The settings that a new socket takes over.
#[derive(Clone, Copy, PartialEq, Eq, Structural, Debug)]
pub struct Options {
    /// microseconds
    pub target_delay: usize,
    pub opt_sndbuf: usize,
    pub opt_rcvbuf: usize,
}

/// A ring that holds nothing.
pub open spec fn empty_ring<T>() -> Seq<Option<T>> {
    Seq::new(16, |k: int| None::<T>)
}

/// How long a dialled connection waits for an answer before it tries again, in
/// milliseconds.
pub const INITIAL_TIMEOUT: u32 = 3000;

impl SockView {
    /// A new socket for connection `id` with `peer`.
    pub open spec fn created(id: u64, peer: Peer, options: Options, now: Now) -> SockView {
        let udp_mtu = if peer.key.addr is V6 {
            UDP_TEREDO_MTU
        } else {
            UDP_IPV4_MTU
        };
        SockView {
            peer,
            state: ConnState::Idle,
            in_ack_list: false,
            send: SendSide {
                retransmit_count: 0,
                duplicate_ack: 0,
                cur_window_packets: 0,
                cur_window: 0,
                max_window_user: (255 * PACKET_SIZE) as usize,
                seq_nr: 1,
                timeout_seq_nr: 0,
                fast_resend_seq_nr: 1,
                fast_timeout: false,
                fin_sent: false,
                fin_sent_acked: false,
                close_requested: false,
                retransmit_timeout: 0,
                rto_timeout: 0,
                zerowindow_time: 0,
                last_sent_packet: now.ms,
                last_rcv_win: 0,
            },
            recv: RecvSide {
                opt_rcvbuf: options.opt_rcvbuf,
                reorder_count: 0,
                got_fin: false,
                got_fin_reached: false,
                read_shutdown: false,
                eof_pkt: 0,
                ack_nr: 0,
            },
            seen: Seen {
                reply_micro: 0,
                last_got_packet: now.ms,
                last_measured_delay: now.ms.wrapping_add(0x7000_0000),
            },
            // we need to fit one packet in the window when we start the
            // connection
            cwnd: Cwnd {
                max_window: (udp_mtu - HEADER_SIZE) as usize,
                last_rwin_decay: (now.ms as i64).wrapping_sub(MAX_WINDOW_DECAY),
                ..Cwnd::initial(options.opt_sndbuf, options.target_delay)
            },
            rtt: Rtt::initial(),
            mtu: Mtu { last: udp_mtu, ..Mtu::unset().spec_reset(udp_mtu, now.ms) },
            drift: Drift::initial(now.ms.wrapping_add(5000)),
            rtt_hist: DelayHistView::fresh(now.ms),
            our_hist: DelayHistView::fresh(now.ms),
            their_hist: DelayHistView::fresh(now.ms),
            extensions: zeros(8),
            user: ConnView::fresh(id, peer.key.addr),
            inbuf: empty_ring(),
            outbuf: empty_ring(),
        }
    }

    /// The SYN packet. SYN packets are special and have the receive ID in the
    /// connid field, instead of conn_id_send.
    pub open spec fn syn_packet(self) -> PacketView {
        let b = zeros(HEADER_SIZE as nat).update(0, version_type_byte(1, ST_SYN));
        let b = put_be16(b, 2, (self.peer.conn_id_recv as u16) as int);
        let b = put_be32(b, 12, (self.send.last_rcv_win as u32) as int);
        PacketView {
            payload: 0,
            time_sent: 0,
            transmissions: 0,
            need_resend: false,
            data: put_be16(b, 16, self.send.seq_nr as int),
        }
    }

    /// A new socket is about to dial, with `seq_nr` as its first number.
    pub open spec fn dialling(self, seq_nr: u16, now: Now) -> SockView {
        let s = SockView {
            state: ConnState::SynSent,
            send: SendSide {
                retransmit_timeout: INITIAL_TIMEOUT,
                rto_timeout: now.ms.wrapping_add(INITIAL_TIMEOUT as u64),
                last_rcv_win: self.rcv_window(),
                seq_nr,
                ..self.send
            },
            ..self
        };
        SockView {
            outbuf: ring_put(s.outbuf, seq_nr as int, Some(s.syn_packet())),
            send: SendSide {
                seq_nr: seq_nr.wrapping_add(1),
                cur_window_packets: 1,
                ..s.send
            },
            ..s
        }
    }

    /// A new socket answers a SYN numbered `ack_nr`, with `seq_nr` as its own
    /// first number.
    pub open spec fn answering(self, ack_nr: u16, seq_nr: u16) -> SockView {
        SockView {
            state: ConnState::SynRecv,
            recv: RecvSide { ack_nr, ..self.recv },
            send: SendSide { seq_nr, fast_resend_seq_nr: seq_nr, ..self.send },
            ..self
        }
    }
}

/// An empty ring is in order, whatever the numbers.
proof fn lemma_empty_rings(seq_nr: u16, ack_nr: u16)
    ensures
        queue_wf(empty_ring(), seq_nr, 0, 0),
        reorder_wf(empty_ring(), ack_nr, 0, false),
        is_ring_size(16),
{
    reveal(queue_wf);
    reveal(reorder_wf);
    vstd::arithmetic::power2::lemma2_to64();
    assert(vstd::arithmetic::power2::pow2(4) == 16);
    lemma_total_empty(empty_ring::<PacketView>(), flight_weight());
    lemma_total_empty(empty_ring::<Seq<u8>>(), count_weight());
}

/// A new socket is in order.
pub proof fn lemma_created(id: u64, peer: Peer, options: Options, now: Now)
    ensures
        SockView::created(id, peer, options, now).wf(),
{
    let s = SockView::created(id, peer, options, now);
    lemma_empty_rings(s.send.seq_nr, s.recv.ack_nr);
}

/// A new socket that answers a SYN is in order.
pub proof fn lemma_answering(
    id: u64,
    peer: Peer,
    options: Options,
    now: Now,
    ack_nr: u16,
    seq_nr: u16,
)
    ensures
        SockView::created(id, peer, options, now).answering(ack_nr, seq_nr).wf(),
{
    lemma_created(id, peer, options, now);
    lemma_empty_rings(seq_nr, ack_nr);
}

/// A new socket that dials is in order.
pub proof fn lemma_dialling(id: u64, peer: Peer, options: Options, now: Now, seq_nr: u16)
    ensures
        SockView::created(id, peer, options, now).dialling(seq_nr, now).wf(),
{
    lemma_created(id, peer, options, now);
    lemma_empty_rings(seq_nr, 0);
    let s = SockView::created(id, peer, options, now);
    let t = s.dialling(seq_nr, now);
    let before = SockView {
        state: ConnState::SynSent,
        send: SendSide {
            retransmit_timeout: INITIAL_TIMEOUT,
            rto_timeout: now.ms.wrapping_add(INITIAL_TIMEOUT as u64),
            last_rcv_win: s.rcv_window(),
            seq_nr,
            ..s.send
        },
        ..s
    };
    let p = before.syn_packet();
    let b = zeros(HEADER_SIZE as nat).update(0, version_type_byte(1, ST_SYN));
    let b = put_be16(b, 2, (before.peer.conn_id_recv as u16) as int);
    let b = put_be32(b, 12, (before.send.last_rcv_win as u32) as int);
    packet::lemma_be16_round_trip(b, 16, seq_nr);
    lemma_queue_append(empty_ring(), seq_nr, 0, 0, p);
    vstd::arithmetic::div_mod::lemma_mod_bound(seq_nr as int, 16);
    assert(t.oldest_seq() == seq_nr);
}

impl UtpSock {
    /// A new socket for connection `id` with `peer`.
    pub fn new(id: u64, peer: Peer, options: Options, now: Now) -> (r: UtpSock)
        ensures
            r@ == SockView::created(id, peer, options, now),
            r.wf(),
    {
        proof {
            lemma_created(id, peer, options, now);
        }
        let udp_mtu: u32 = if peer.key.addr.is_ipv6() {
            UDP_TEREDO_MTU
        } else {
            UDP_IPV4_MTU
        };
        // initialize MTU floor and ceiling
        let mut mtu = Mtu {
            discover_time: 0,
            ceiling: 0,
            floor: 0,
            last: 0,
            probe_seq: 0,
            probe_size: 0,
        };
        mtu.reset(udp_mtu, now.ms);
        mtu.last = mtu.ceiling;
        let send = SendSide {
            retransmit_count: 0,
            duplicate_ack: 0,
            cur_window_packets: 0,
            cur_window: 0,
            max_window_user: 255 * PACKET_SIZE,
            seq_nr: 1,
            timeout_seq_nr: 0,
            fast_resend_seq_nr: 1,
            fast_timeout: false,
            fin_sent: false,
            fin_sent_acked: false,
            close_requested: false,
            retransmit_timeout: 0,
            rto_timeout: 0,
            zerowindow_time: 0,
            last_sent_packet: now.ms,
            last_rcv_win: 0,
        };
        let recv = RecvSide {
            opt_rcvbuf: options.opt_rcvbuf,
            reorder_count: 0,
            got_fin: false,
            got_fin_reached: false,
            read_shutdown: false,
            eof_pkt: 0,
            ack_nr: 0,
        };
        let cwnd = Cwnd {
            // we need to fit one packet in the window when we start the
            // connection
            max_window: udp_mtu as usize - HEADER_SIZE,
            opt_sndbuf: options.opt_sndbuf,
            target_delay: options.target_delay,
            slow_start: true,
            ssthresh: options.opt_sndbuf,
            last_rwin_decay: (now.ms as i64).wrapping_sub(MAX_WINDOW_DECAY),
            last_maxed_out_window: 0,
        };
        let inbuf: CircularBuffer<Vec<u8>> = CircularBuffer::new();
        let outbuf: CircularBuffer<OutgoingPacket> = CircularBuffer::new();
        let extensions: [u8; 8] = [0, 0, 0, 0, 0, 0, 0, 0];
        proof {
            reveal(slot_views);
            assert(slot_views(inbuf@) =~= empty_ring());
            assert(slot_views(outbuf@) =~= empty_ring());
            assert(extensions@ =~= zeros(8));
        }
        UtpSock {
            peer,
            state: ConnState::Idle,
            in_ack_list: false,
            send,
            recv,
            seen: Seen {
                reply_micro: 0,
                last_got_packet: now.ms,
                last_measured_delay: now.ms.wrapping_add(0x7000_0000),
            },
            cwnd,
            rtt: Rtt { rtt: 0, rtt_var: 800, rto: 3000 },
            mtu,
            drift: Drift {
                average_delay: 0,
                current_delay_sum: 0,
                current_delay_samples: 0,
                average_delay_base: 0,
                average_sample_time: now.ms.wrapping_add(5000),
                clock_drift: 0,
                clock_drift_raw: 0,
            },
            rtt_hist: DelayHist::new(now.ms),
            our_hist: DelayHist::new(now.ms),
            their_hist: DelayHist::new(now.ms),
            extensions,
            user: ConnShared::new(id, peer.key.addr),
            inbuf,
            outbuf,
        }
    }

    fn syn_data(&self) -> (data: Vec<u8>)
        ensures
            data@ == self@.syn_packet().data,
    {
        let mut data: Vec<u8> = zero_bytes(HEADER_SIZE);
        packet::set_version_type(data.as_mut_slice(), 1, ST_SYN);
        packet::set_conn_id(data.as_mut_slice(), self.peer.conn_id_recv as u16);
        packet::set_window_size(data.as_mut_slice(), self.send.last_rcv_win as u32);
        packet::set_seq_nr(data.as_mut_slice(), self.send.seq_nr);
        data
    }

    /// Gets a new socket ready to dial: the SYN is its first packet.
    pub fn dial(&mut self, seq_nr: u16, now: Now)
        requires
            old(self).bufs_wf(),
            old(self)@.outbuf == empty_ring::<PacketView>(),
            old(self)@.send.cur_window_packets == 0,
        ensures
            final(self)@ == old(self)@.dialling(seq_nr, now),
            final(self).bufs_wf(),
    {
        self.state = ConnState::SynSent;
        // Setup initial timeout timer.
        self.send.retransmit_timeout = INITIAL_TIMEOUT;
        self.send.rto_timeout = now.ms.wrapping_add(self.send.retransmit_timeout as u64);
        self.send.last_rcv_win = self.get_rcv_window();
        self.send.seq_nr = seq_nr;
        // Create the connect packet. SYN packets are special and have the
        // receive ID in the connid field, instead of conn_id_send.
        let pkt = OutgoingPacket {
            payload: 0,
            time_sent: 0,
            transmissions: 0,
            need_resend: false,
            data: self.syn_data(),
        };
        self.put_outgoing(seq_nr, pkt);
        self.send.seq_nr = seq_nr.wrapping_add(1);
        self.send.cur_window_packets = 1;
    }

    /// Gets a new socket ready to answer a SYN.
    pub fn answer(&mut self, ack_nr: u16, seq_nr: u16)
        ensures
            final(self)@ == old(self)@.answering(ack_nr, seq_nr),
            old(self).bufs_wf() ==> final(self).bufs_wf(),
    {
        self.recv.ack_nr = ack_nr;
        self.send.seq_nr = seq_nr;
        self.send.fast_resend_seq_nr = seq_nr;
        self.state = ConnState::SynRecv;
    }
}

/// A new connection can send one full packet, of the largest size for the kind
/// of path it is on, and is in slow start. The search for the MTU has all sizes
/// from the smallest up before it, and a loss can shrink the window from the
/// start.
pub proof fn lemma_starts_with_one_packet(id: u64, peer: Peer, options: Options, now: Now)
    requires
        100 <= now.ms < 0x8000_0000_0000_0000 - 1_800_000,
    ensures
        ({
            let s = SockView::created(id, peer, options, now);
            let largest: int = if peer.key.addr is V6 {
                1232
            } else {
                1402
            };
            &&& s.cwnd.max_window == largest - 20
            &&& s.cwnd.slow_start
            &&& s.cwnd.ssthresh == options.opt_sndbuf
            &&& s.cwnd.opt_sndbuf == options.opt_sndbuf
            &&& s.cwnd.target_delay == options.target_delay
            &&& now.ms - s.cwnd.last_rwin_decay >= 100
            &&& s.mtu.last == largest
            &&& s.mtu.ceiling == largest
            &&& s.mtu.floor == 576
            &&& s.mtu.probe_seq == 0
            &&& s.mtu.discover_time == now.ms + 1_800_000
            &&& s.send.max_window_user >= largest
            &&& s.recv.opt_rcvbuf == options.opt_rcvbuf
            &&& s.rtt.rtt == 0
            &&& !s.our_hist.sampled
            &&& !s.their_hist.sampled
            &&& s.drift.clock_drift == 0
            &&& s.drift.average_sample_time == now.ms + 5000
            &&& s.user.error is None
            &&& s.user.read_buf.len() == 0
        }),
{
}

} // verus!

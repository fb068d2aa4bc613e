//! Sending the packets of the send queue.

use crate::addr::SocketAddr;
use crate::circular::{ring_at, ring_put};
use crate::clock::Now;
use crate::conn_shared::ConnView;
use crate::engine::model::{
    data_sent, flushed, flushed_from, packet_sent, probed, scheduled, stamped, without, St,
};
use crate::engine::queue::{lemma_flight_bound, lemma_queue_at, lemma_queue_replace};
use crate::engine::send::st;
use crate::engine::slots::{
    lemma_ring_put_twice, lemma_ring_size_pos, lemma_slot_views_at, lemma_slot_views_put,
};
use crate::engine::state::{
    DatagramView, Io, Key, OutgoingPacket, PacketView, SendSide, SockView, UtpSock,
    OUTGOING_BUFFER_MAX_SIZE,
};
use crate::engine::window::Cwnd;
use crate::packet;
use crate::packet::{be16, put_be16, HEADER_SIZE};
use vstd::arithmetic::div_mod::*;
use vstd::prelude::*;

verus! {

/// `b` differs from `a` at most in what sending packets changes.
pub open spec fn send_frame(a: SockView, b: SockView) -> bool {
    &&& b == (SockView {
        send: SendSide {
            cur_window: b.send.cur_window,
            last_sent_packet: b.send.last_sent_packet,
            ..a.send
        },
        cwnd: Cwnd { last_maxed_out_window: b.cwnd.last_maxed_out_window, ..a.cwnd },
        mtu: b.mtu,
        in_ack_list: b.in_ack_list,
        outbuf: b.outbuf,
        ..a
    })
    &&& a.mtu.last == b.mtu.last
}

/// What is owed to others stays, and a flag that tells whether an ack is owed
/// under `key` goes on to tell.
#[verifier::opaque]
pub open spec fn owing_kept(
    key: Key,
    owed_a: bool,
    a: Seq<Key>,
    owed_b: bool,
    b: Seq<Key>,
) -> bool {
    &&& owed_a == a.contains(key) && a.no_duplicates() ==> owed_b == b.contains(key)
        && b.no_duplicates()
    &&& forall|k: Key| k != key ==> (#[trigger] b.contains(k) <==> a.contains(k))
}

/// The datagrams of `a` come first in `b`, and all that follow are from
/// connection `conn` to `addr`.
#[verifier::opaque]
pub open spec fn only_sent_to(
    addr: SocketAddr,
    conn: u64,
    a: Seq<DatagramView>,
    b: Seq<DatagramView>,
) -> bool {
    &&& a.len() <= b.len()
    &&& b.take(a.len() as int) == a
    &&& forall|i: int|
        a.len() <= i < b.len() ==> (#[trigger] b[i]).addr == addr && b[i].conn == Some(conn)
}

/// The same connection, with the same hold on it.
pub open spec fn same_user(a: ConnView, b: ConnView) -> bool {
    &&& b.id == a.id
    &&& b.remote_addr == a.remote_addr
    &&& b.destroyed == a.destroyed
    &&& b.closed == a.closed
    &&& b.send_failed == a.send_failed
    &&& b.released == a.released
}

/// Of what the sockets share, `b` differs from `a` at most in the datagrams
/// that this connection sends to its peer, and in the ack that it owes.
pub open spec fn io_frame(a: St, b: St) -> bool {
    &&& b.s.peer.key == a.s.peer.key
    &&& same_user(a.s.user, b.s.user)
    &&& b.io.now == a.io.now
    &&& b.io.current_ms == a.io.current_ms
    &&& only_sent_to(a.s.peer.key.addr, a.s.user.id, a.io.outgoing, b.io.outgoing)
    &&& owing_kept(
        a.s.peer.key,
        a.s.in_ack_list,
        a.io.ack_list,
        b.s.in_ack_list,
        b.io.ack_list,
    )
}

/// Taking a key out leaves the others.
pub proof fn lemma_without(keys: Seq<Key>, key: Key)
    ensures
        !without(keys, key).contains(key),
        forall|k: Key|
            k != key ==> (#[trigger] without(keys, key).contains(k) <==> keys.contains(k)),
        keys.no_duplicates() ==> without(keys, key).no_duplicates(),
    decreases keys.len(),
{
    if keys.len() > 0 {
        let front = keys.drop_last();
        lemma_without(front, key);
        assert(keys =~= front.push(keys.last()));
        let kept = without(front, key);
        assert forall|k: Key| k != key implies (#[trigger] without(keys, key).contains(k)
            <==> keys.contains(k)) by {
            lemma_push_contains(front, keys.last(), k);
            lemma_push_contains(kept, keys.last(), k);
        }
        if keys.last() != key {
            lemma_push_contains(kept, keys.last(), key);
            if keys.no_duplicates() {
                assert(front.no_duplicates());
                assert(!front.contains(keys.last()));
                assert(!kept.contains(keys.last()));
            }
        }
    }
}

proof fn lemma_push_contains(keys: Seq<Key>, last: Key, k: Key)
    ensures
        keys.push(last).contains(k) <==> keys.contains(k) || k == last,
{
    let all = keys.push(last);
    if keys.contains(k) {
        let i = choose|i: int| 0 <= i < keys.len() && keys[i] == k;
        assert(all[i] == k);
    }
    if k == last {
        assert(all[keys.len() as int] == k);
    }
}

/// Sending keeps to the peer, and settles the ack that is owed.
pub proof fn lemma_data_sent(st: St, buf: Seq<u8>)
    ensures
        io_frame(st, data_sent(st, buf)),
{
    reveal(data_sent);
    reveal(only_sent_to);
    reveal(owing_kept);
    lemma_without(st.io.ack_list, st.s.peer.key);
    assert(data_sent(st, buf).io.outgoing.take(st.io.outgoing.len() as int) =~= st.io.outgoing);
}

/// Coming to owe an ack concerns no other connection.
pub proof fn lemma_scheduled(st: St)
    ensures
        io_frame(st, scheduled(st)),
{
    reveal(only_sent_to);
    reveal(owing_kept);
    let key = st.s.peer.key;
    assert(st.io.outgoing.take(st.io.outgoing.len() as int) =~= st.io.outgoing);
    if !st.s.in_ack_list {
        let keys = st.io.ack_list;
        assert forall|k: Key| #[trigger] keys.push(key).contains(k) <==> keys.contains(k) || k
            == key by {
            lemma_push_contains(keys, key, k);
        }
    }
}

/// Two send queues hold packets under the same numbers and with the same
/// contents.
#[verifier::opaque]
pub open spec fn same_contents(
    a: Seq<Option<PacketView>>,
    b: Seq<Option<PacketView>>,
) -> bool {
    &&& a.len() == b.len()
    &&& forall|k: int| #![trigger b[k]] #![trigger a[k]]
        0 <= k < a.len() ==> {
            &&& (b[k] is Some <==> a[k] is Some)
            &&& b[k] is Some ==> {
                &&& b[k]->0.payload == a[k]->0.payload
                &&& b[k]->0.seq() == a[k]->0.seq()
                &&& b[k]->0.body() == a[k]->0.body()
            }
        }
}

pub proof fn lemma_same_contents_refl(a: Seq<Option<PacketView>>)
    ensures
        same_contents(a, a),
{
    reveal(same_contents);
}

pub proof fn lemma_same_contents_trans(
    a: Seq<Option<PacketView>>,
    b: Seq<Option<PacketView>>,
    c: Seq<Option<PacketView>>,
)
    requires
        same_contents(a, b),
        same_contents(b, c),
    ensures
        same_contents(a, c),
{
    reveal(same_contents);
}

/// Where one of two queues with the same contents has a packet, the other has
/// one with the same number and payload.
pub proof fn lemma_same_contents_at(
    a: Seq<Option<PacketView>>,
    b: Seq<Option<PacketView>>,
    i: int,
)
    requires
        same_contents(a, b),
        a.len() > 0,
    ensures
        a.len() == b.len(),
        ring_at(a, i) is Some <==> ring_at(b, i) is Some,
        ring_at(a, i) is Some ==> {
            &&& ring_at(b, i)->0.payload == ring_at(a, i)->0.payload
            &&& ring_at(b, i)->0.seq() == ring_at(a, i)->0.seq()
            &&& ring_at(b, i)->0.body() == ring_at(a, i)->0.body()
        },
{
    reveal(same_contents);
    lemma_mod_bound(i, a.len() as int);
}

/// Between queues of the same contents, the oldest packet stays.
pub proof fn lemma_oldest_stays(a: SockView, b: SockView)
    requires
        a.send_wf(),
        a.oldest_there(),
        same_contents(a.outbuf, b.outbuf),
        a.send.seq_nr == b.send.seq_nr,
        a.send.cur_window_packets == b.send.cur_window_packets,
    ensures
        b.oldest_there(),
{
    let i = a.oldest_seq() as int;
    lemma_queue_at(a.outbuf, a.send.seq_nr, a.send.cur_window_packets, a.send.cur_window, i);
    lemma_same_contents_at(a.outbuf, b.outbuf, i);
}

pub proof fn lemma_stamp_keeps(st: St, buf: Seq<u8>)
    requires
        buf.len() >= HEADER_SIZE,
    ensures
        stamped(st, buf).len() == buf.len(),
        be16(stamped(st, buf), 16) == be16(buf, 16),
        stamped(st, buf).skip(HEADER_SIZE as int) == buf.skip(HEADER_SIZE as int),
        forall|v: int|
            #![trigger put_be16(buf, 18, v)]
            {
                &&& put_be16(buf, 18, v).len() == buf.len()
                &&& be16(put_be16(buf, 18, v), 16) == be16(buf, 16)
                &&& put_be16(buf, 18, v).skip(HEADER_SIZE as int) == buf.skip(HEADER_SIZE as int)
            },
{
    assert(stamped(st, buf).skip(HEADER_SIZE as int) =~= buf.skip(HEADER_SIZE as int));
    assert forall|v: int| #![trigger put_be16(buf, 18, v)] {
        &&& put_be16(buf, 18, v).len() == buf.len()
        &&& be16(put_be16(buf, 18, v), 16) == be16(buf, 16)
        &&& put_be16(buf, 18, v).skip(HEADER_SIZE as int) == buf.skip(HEADER_SIZE as int)
    } by {
        assert(put_be16(buf, 18, v).skip(HEADER_SIZE as int) =~= buf.skip(HEADER_SIZE as int));
    }
}

/// Sending a packet keeps the send queue in order and everything else alone.
pub proof fn lemma_packet_sent(st: St, seq: u16)
    requires
        st.s.send_wf(),
        st.s.mtu.wf(),
    ensures
        packet_sent(st, seq).s.send_wf(),
        packet_sent(st, seq).s.mtu.wf(),
        send_frame(st.s, packet_sent(st, seq).s),
        io_frame(st, packet_sent(st, seq)),
        same_contents(st.s.outbuf, packet_sent(st, seq).s.outbuf),
        st.s.packet_at(seq) is Some ==> {
            &&& st.s.send.cur_window + st.s.packet_at(seq)->0.payload <= usize::MAX
            &&& packet_sent(st, seq).s.packet_at(seq)->0.transmissions > 0
        },
{
    reveal(packet_sent);
    reveal(data_sent);
    reveal(same_contents);
    lemma_queue_at(
        st.s.outbuf,
        st.s.send.seq_nr,
        st.s.send.cur_window_packets,
        st.s.send.cur_window,
        seq as int,
    );
    let after = packet_sent(st, seq);
    let s = st.s;
    lemma_flight_bound(s.outbuf, s.send.seq_nr, s.send.cur_window_packets, s.send.cur_window);
    match s.packet_at(seq) {
        None => {
            lemma_io_frame_refl(st);
        },
        Some(p) => {
            let k = seq as int % s.outbuf.len() as int;
            lemma_mod_bound(seq as int, s.outbuf.len() as int);
            lemma_stamp_keeps(st, p.data);
            let data = put_be16(p.data, 18, s.recv.ack_nr as int);
            lemma_stamp_keeps(st, data);
            let sent = after.s.outbuf[k]->0;
            assert(sent.seq() == p.seq());
            lemma_queue_replace(
                s.outbuf,
                s.send.seq_nr,
                s.send.cur_window_packets,
                s.send.cur_window,
                seq as int,
                sent,
                after.s.send.cur_window,
            );
            lemma_data_sent(St { s: s.sending(st.io.now.ms, p), ..st }, data);
        },
    }
}

/// What goes out does not depend on what is in the send queue.
proof fn lemma_data_sent_apart(st: St, outbuf: Seq<Option<PacketView>>, buf: Seq<u8>)
    ensures
        ({
            let apart = St { s: SockView { outbuf, ..st.s }, ..st };
            &&& data_sent(apart, buf) == (St {
                s: SockView { outbuf, ..data_sent(st, buf).s },
                ..data_sent(st, buf)
            })
            &&& stamped(apart, buf) == stamped(st, buf)
        }),
{
    reveal(data_sent);
}

/// How to tell that a packet was sent.
proof fn lemma_packet_sent_is(st: St, seq: u16, after: St, kept: PacketView)
    requires
        st.s.packet_at(seq) is Some,
        ({
            let p = st.s.packet_at(seq)->0;
            let whole = St { s: st.s.sending(st.io.now.ms, p), ..st };
            let sent = p.sent(st.io.now.us, st.s.recv.ack_nr);
            &&& after.io == data_sent(whole, sent.data).io
            &&& after.s == (SockView {
                outbuf: ring_put(st.s.outbuf, seq as int, Some(kept)),
                ..data_sent(whole, sent.data).s
            })
            &&& kept == (PacketView { data: stamped(whole, sent.data), ..sent })
        }),
    ensures
        after == packet_sent(st, seq),
{
    reveal(packet_sent);
}

pub proof fn lemma_io_frame_trans(a: St, b: St, c: St)
    requires
        io_frame(a, b),
        io_frame(b, c),
    ensures
        io_frame(a, c),
{
    reveal(only_sent_to);
    reveal(owing_kept);
    assert(c.io.outgoing.take(a.io.outgoing.len() as int) =~= c.io.outgoing.take(
        b.io.outgoing.len() as int,
    ).take(a.io.outgoing.len() as int));
    assert forall|i: int| a.io.outgoing.len() <= i < c.io.outgoing.len() implies (
    #[trigger] c.io.outgoing[i]).addr == a.s.peer.key.addr && c.io.outgoing[i].conn == Some(
        a.s.user.id,
    ) by {
        if i < b.io.outgoing.len() {
            assert(c.io.outgoing.take(b.io.outgoing.len() as int)[i] == b.io.outgoing[i]);
        }
    }
}

pub proof fn lemma_io_frame_refl(a: St)
    ensures
        io_frame(a, a),
{
    reveal(only_sent_to);
    reveal(owing_kept);
    assert(a.io.outgoing.take(a.io.outgoing.len() as int) =~= a.io.outgoing);
}

/// Flushing keeps the send queue in order and everything else alone.
pub proof fn lemma_flushed_from(st: St, packet_size: usize, i: u16)
    requires
        st.s.send_wf(),
        st.s.mtu.wf(),
    ensures
        flushed_from(st, packet_size, i).1.s.send_wf(),
        flushed_from(st, packet_size, i).1.s.mtu.wf(),
        send_frame(st.s, flushed_from(st, packet_size, i).1.s),
        io_frame(st, flushed_from(st, packet_size, i).1),
        same_contents(st.s.outbuf, flushed_from(st, packet_size, i).1.s.outbuf),
    decreases st.s.send.seq_nr.wrapping_sub(i),
{
    reveal(flushed_from);
    lemma_same_contents_refl(st.s.outbuf);
    lemma_io_frame_refl(st);
    if i != st.s.send.seq_nr {
        match st.s.packet_at(i) {
            Some(p) if p.waiting() => {
                if st.s.full(usize::MAX) {
                } else if i != st.s.send.seq_nr.wrapping_sub(1) || st.s.send.cur_window_packets == 1
                    || p.payload >= packet_size {
                    lemma_packet_sent(st, i);
                    let next = packet_sent(st, i);
                    lemma_flushed_from(next, packet_size, i.wrapping_add(1));
                    lemma_same_contents_trans(
                        st.s.outbuf,
                        next.s.outbuf,
                        flushed_from(next, packet_size, i.wrapping_add(1)).1.s.outbuf,
                    );
                    lemma_io_frame_trans(
                        st,
                        next,
                        flushed_from(next, packet_size, i.wrapping_add(1)).1,
                    );
                } else {
                    lemma_flushed_from(st, packet_size, i.wrapping_add(1));
                }
            },
            _ => {
                lemma_flushed_from(st, packet_size, i.wrapping_add(1));
            },
        }
    }
}

impl UtpSock {
    /// The packet that is found under a sequence number.
    pub fn outgoing(&self, seq: u16) -> (r: Option<&OutgoingPacket>)
        requires
            self.outbuf.wf(),
        ensures
            self@.packet_at(seq) == (match r {
                Some(p) => Some(p@),
                None => None,
            }),
    {
        proof {
            self.outbuf.lemma_wf_size();
            lemma_ring_size_pos(self.outbuf@.len() as int);
            lemma_slot_views_at(self.outbuf@, seq as int);
        }
        self.outbuf.get(seq as usize)
    }

    /// Takes the packet that is found under a sequence number out of the send
    /// queue.
    pub fn take_outgoing(&mut self, seq: u16) -> (r: Option<OutgoingPacket>)
        requires
            old(self).bufs_wf(),
        ensures
            final(self).bufs_wf(),
            old(self)@.packet_at(seq) == (match r {
                Some(p) => Some(p@),
                None => None,
            }),
            final(self)@ == (SockView {
                outbuf: ring_put(old(self)@.outbuf, seq as int, None),
                ..old(self)@
            }),
    {
        proof {
            self.outbuf.lemma_wf_size();
            lemma_ring_size_pos(self.outbuf@.len() as int);
            lemma_slot_views_at(self.outbuf@, seq as int);
            lemma_slot_views_put(self.outbuf@, seq as int, None);
        }
        self.outbuf.take(seq as usize)
    }

    pub fn put_outgoing(&mut self, seq: u16, p: OutgoingPacket)
        requires
            old(self).bufs_wf(),
        ensures
            final(self).bufs_wf(),
            final(self)@ == (SockView {
                outbuf: ring_put(old(self)@.outbuf, seq as int, Some(p@)),
                ..old(self)@
            }),
    {
        proof {
            self.outbuf.lemma_wf_size();
            lemma_ring_size_pos(self.outbuf@.len() as int);
            lemma_slot_views_put(self.outbuf@, seq as int, Some(p));
        }
        self.outbuf.put(seq as usize, Some(p))
    }

    /// The search for the MTU as a packet of `len` bytes goes out.
    fn probe_mtu(&mut self, now_ms: u64, len: usize, first: bool)
        requires
            len <= u32::MAX,
        ensures
            final(self)@ == (SockView {
                mtu: probed(
                    old(self)@.mtu,
                    old(self)@.udp_mtu(),
                    now_ms,
                    len as int,
                    first,
                    old(self)@.send.seq_nr.wrapping_sub(1),
                ),
                ..old(self)@
            }),
            old(self).bufs_wf() ==> final(self).bufs_wf(),
    {
        if self.mtu.discover_time < now_ms {
            // it's time to reset our MTU assumptions and trigger a new search
            let udp_mtu: u32 = self.get_udp_mtu();
            self.mtu.reset(udp_mtu, now_ms);
        }
        // don't use packets larger than mtu_ceiling as probes. if seq_nr ==
        // 1, the probe would end up being 0 which is a magic number
        // representing no-probe.

        if self.mtu.floor < self.mtu.ceiling && len as u32 > self.mtu.floor && len as u32
            <= self.mtu.ceiling && self.mtu.probe_seq == 0 && self.send.seq_nr != 1 && first {
            // we've already incremented seq_nr for this packet
            self.mtu.probe_seq = self.send.seq_nr.wrapping_sub(1) as u32;
            self.mtu.probe_size = len as u32;
        }
    }

    /// Enters in the books that `pkt` goes out, and puts what we ack into it.
    fn prepare_packet(&mut self, now: Now, pkt: &mut OutgoingPacket)
        requires
            old(pkt)@.wf(),
            old(self)@.send.cur_window + old(pkt)@.payload <= usize::MAX,
        ensures
            final(self)@ == old(self)@.sending(now.ms, old(pkt)@),
            final(pkt)@ == old(pkt)@.sent(now.us, old(self)@.recv.ack_nr),
            old(self).bufs_wf() ==> final(self).bufs_wf(),
    {
        // only count against the window the first time we send the packet
        if pkt.transmissions == 0 || pkt.need_resend {
            self.send.cur_window = self.send.cur_window + pkt.payload;
        }
        pkt.need_resend = false;
        packet::set_ack_nr(pkt.data.as_mut_slice(), self.recv.ack_nr);
        pkt.time_sent = now.us;
        self.probe_mtu(now.ms, pkt.data.len(), pkt.transmissions == 0);
        pkt.transmissions = pkt.transmissions.saturating_add(1);
    }

    /// Sends the packet found under number `seq`, if there is one.
    pub fn send_packet_at(&mut self, io: &mut Io, seq: u16)
        requires
            old(self).bufs_wf(),
            old(self)@.send_wf(),
            old(self)@.mtu.wf(),
        ensures
            st(*final(self), *final(io)) == packet_sent(st(*old(self), *old(io)), seq),
            final(self).bufs_wf(),
    {
        let ghost before = st(*self, *io);
        proof {
            lemma_queue_at(
                before.s.outbuf,
                before.s.send.seq_nr,
                before.s.send.cur_window_packets,
                before.s.send.cur_window,
                seq as int,
            );
        }
        if self.outgoing(seq).is_none() {
            proof {
                reveal(packet_sent);
            }
            return ;
        }
        let mut pkt: OutgoingPacket = match self.take_outgoing(seq) {
            Some(p) => p,
            None => {
                return ;
            },
        };
        let ghost p = pkt@;
        self.prepare_packet(io.now, &mut pkt);
        let ghost whole = St { s: before.s.sending(before.io.now.ms, p), ..before };
        let ghost sent = p.sent(before.io.now.us, before.s.recv.ack_nr);
        proof {
            lemma_data_sent_apart(whole, self@.outbuf, pkt.data@);
        }
        self.send_data(io, &mut pkt.data);
        proof {
            lemma_ring_put_twice(before.s.outbuf, seq as int, None, Some(pkt@));
        }
        let ghost kept = pkt@;
        self.put_outgoing(seq, pkt);
        proof {
            lemma_packet_sent_is(before, seq, st(*self, *io), kept);
        }
    }

    /// Whether there is no room for `bytes` more, or for a full packet if
    /// that is less.
    pub fn is_full(&mut self, current_ms: u64, bytes: usize) -> (r: bool)
        requires
            old(self)@.send_wf(),
            old(self)@.mtu.wf(),
        ensures
            r == old(self)@.full(bytes),
            final(self)@ == old(self)@.asked_full(bytes, current_ms),
            old(self).bufs_wf() ==> final(self).bufs_wf(),
    {
        proof {
            lemma_flight_bound(
                self@.outbuf,
                self.send.seq_nr,
                self.send.cur_window_packets,
                self.send.cur_window,
            );
        }
        let packet_size: usize = self.get_packet_size();
        let n: usize = if bytes < packet_size {
            bytes
        } else {
            packet_size
        };
        let mut max_send: usize = self.cwnd.max_window;
        if self.cwnd.opt_sndbuf < max_send {
            max_send = self.cwnd.opt_sndbuf;
        }
        if self.send.max_window_user < max_send {
            max_send = self.send.max_window_user;
        }
        // subtract one to save space for the FIN packet

        if self.send.cur_window_packets as usize >= OUTGOING_BUFFER_MAX_SIZE - 1 {
            self.cwnd.last_maxed_out_window = current_ms;
            return true;
        }
        if self.send.cur_window + n > max_send {
            self.cwnd.last_maxed_out_window = current_ms;
            return true;
        }
        false
    }

    /// Sends what waits to be sent. Returns true if it ran out of window.
    pub fn flush_packets(&mut self, io: &mut Io) -> (r: bool)
        requires
            old(self).bufs_wf(),
            old(self)@.send_wf(),
            old(self)@.mtu.wf(),
        ensures
            r == flushed(st(*old(self), *old(io))).0,
            st(*final(self), *final(io)) == flushed(st(*old(self), *old(io))).1,
            final(self).bufs_wf(),
    {
        let packet_size: usize = self.get_packet_size();
        let ghost whole = flushed(st(*self, *io));
        // i has to be a wrapping 16 bit counter
        let mut i: u16 = self.send.seq_nr.wrapping_sub(self.send.cur_window_packets);
        while i != self.send.seq_nr
            invariant
                self.bufs_wf(),
                self@.send_wf(),
                self@.mtu.wf(),
                flushed_from(st(*self, *io), packet_size, i) == whole,
                whole == flushed(st(*old(self), *old(io))),
            decreases self.send.seq_nr.wrapping_sub(i),
        {
            let ghost now = st(*self, *io);
            proof {
                reveal(flushed_from);
            }
            let (send, payload): (bool, usize) = match self.outgoing(i) {
                None => (false, 0),
                Some(p) => (p.transmissions == 0 || p.need_resend, p.payload),
            };
            if send {
                // have we run out of quota?
                if self.is_full(io.current_ms, usize::MAX) {
                    return true;
                }
                // Nagle check: don't send the last packet if we have packets
                // in-flight and the current packet is still small.

                if i != self.send.seq_nr.wrapping_sub(1) || self.send.cur_window_packets == 1 || payload
                    >= packet_size {
                    proof {
                        lemma_packet_sent(now, i);
                    }
                    self.send_packet_at(io, i);
                }
            }
            i = i.wrapping_add(1);
        }
        proof {
            reveal(flushed_from);
        }
        false
    }
}

} // verus!

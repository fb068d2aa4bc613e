//! The stream that a socket sends: what its packets carry, and that nothing
//! which happens to the socket makes them carry anything else.

use crate::circular::{lemma_ring_size_16, ring_at};
use crate::engine::model::{
    ack_sent, data_sent, flushed_from, packet_sent, packet_written, stamped, St,
};
use crate::engine::queue::{lemma_queue_at, lemma_slots_differ};
use crate::engine::state::{
    queue_wf, ConnState, IoView, PacketView, RecvSide, SendSide, SockView, MAX_PAYLOAD,
    OUTGOING_BUFFER_MAX_SIZE,
};
use crate::engine::timers::is_up;
use crate::engine::transmit::{lemma_flushed_from, lemma_packet_sent, lemma_stamp_keeps};
use crate::engine::write::{
    chunk_len, closing, lemma_new_packet, lemma_packet_written, lemma_queued, lemma_with_extended,
    lemma_with_packet, lemma_writing, new_packet, writing, written,
};
use crate::packet::{be16, put_be16, HEADER_SIZE, ST_DATA, ST_FIN, ST_STATE, ST_SYN};
use vstd::arithmetic::div_mod::*;
use vstd::prelude::*;

verus! {

/// All payloads one after the other.
pub open spec fn joined(stream: Seq<Seq<u8>>) -> Seq<u8>
    decreases stream.len(),
{
    if stream.len() == 0 {
        Seq::empty()
    } else {
        joined(stream.drop_last()) + stream.last()
    }
}

/// The number of packet `i` of a stream of `len` packets, where the next packet
/// to come will have number `next`.
pub open spec fn number_of(len: nat, next: u16, i: int) -> int {
    (next - len + i) % 0x10000
}

/// Whether `data` is packet `i` of the stream: it has its number and carries
/// its payload. Only the last packet can be a FIN, and then nothing follows.
pub open spec fn is_packet(
    stream: Seq<Seq<u8>>,
    next: u16,
    fin_sent: bool,
    data: Seq<u8>,
    i: int,
) -> bool {
    &&& 0 <= i < stream.len()
    &&& data.len() >= HEADER_SIZE
    &&& data[1] == 0
    &&& be16(data, 16) == number_of(stream.len(), next, i)
    &&& data.skip(HEADER_SIZE as int) == stream[i]
    &&& data[0] / 16 == ST_FIN ==> fin_sent && i == stream.len() - 1
}

/// Where in the stream the packet numbered `seq` of a send queue stands.
pub open spec fn place(stream: Seq<Seq<u8>>, next: u16, seq: int) -> int {
    stream.len() - 1 - (next - 1 - seq) % 0x10000
}

/// A send queue holds nothing but packets of the stream.
#[verifier::opaque]
pub open spec fn carries(
    outbuf: Seq<Option<PacketView>>,
    next: u16,
    fin_sent: bool,
    stream: Seq<Seq<u8>>,
) -> bool {
    forall|k: int| #![trigger outbuf[k]]
        0 <= k < outbuf.len() && outbuf[k] is Some ==> is_packet(
            stream,
            next,
            fin_sent,
            outbuf[k]->0.data,
            place(stream, next, outbuf[k]->0.seq()),
        )
}

impl SockView {
    /// The socket's send queue holds nothing but packets of the stream, which
    /// ends with the packet numbered last.
    pub open spec fn sends(self, stream: Seq<Seq<u8>>) -> bool {
        carries(self.outbuf, self.send.seq_nr, self.send.fin_sent, stream)
    }

    /// Whether more data may still go into the newest packet: it is there, and
    /// has never been sent.
    pub open spec fn last_open(self) -> bool {
        match self.packet_at(self.send.seq_nr.wrapping_sub(1)) {
            Some(p) => p.transmissions == 0,
            None => false,
        }
    }

    /// Whether `data` is packet `i` of the stream, and will be.
    pub open spec fn has_sent(self, stream: Seq<Seq<u8>>, data: Seq<u8>, i: int) -> bool {
        &&& is_packet(stream, self.send.seq_nr, self.send.fin_sent, data, i)
        &&& i == stream.len() - 1 ==> !self.last_open()
    }

    /// Whether `data` is a packet of the stream, or one that is outside of it
    /// and carries no data.
    pub open spec fn may_send(self, stream: Seq<Seq<u8>>, data: Seq<u8>) -> bool {
        data[0] / 16 == ST_STATE || exists|i: int| self.has_sent(stream, data, i)
    }
}

/// From socket `a` to socket `b`, the stream goes from `s` to `t`: packets come
/// at its end, and none but an open last one changes.
pub open spec fn grows(a: SockView, s: Seq<Seq<u8>>, b: SockView, t: Seq<Seq<u8>>) -> bool {
    &&& s.len() <= t.len()
    &&& (b.send.seq_nr - a.send.seq_nr - (t.len() - s.len())) % 0x10000 == 0
    &&& forall|i: int| 0 <= i < s.len() - 1 ==> #[trigger] t[i] == s[i]
    &&& s.len() > 0 && !a.last_open() ==> t[s.len() - 1] == s[s.len() - 1]
    &&& s.len() == t.len() && !a.last_open() ==> !b.last_open()
    &&& a.send.fin_sent ==> b.send.fin_sent && t == s
}

/// From `a` to `b`, the stream goes from `s` to `t`, and all that is sent on
/// the way belongs to it.
#[verifier::opaque]
pub open spec fn advances(a: St, s: Seq<Seq<u8>>, b: St, t: Seq<Seq<u8>>) -> bool {
    &&& b.s.sends(t)
    &&& grows(a.s, s, b.s, t)
    &&& a.io.outgoing.len() <= b.io.outgoing.len()
    &&& forall|j: int|
        a.io.outgoing.len() <= j < b.io.outgoing.len() ==> b.s.may_send(
            t,
            (#[trigger] b.io.outgoing[j]).data,
        )
    &&& b.io.outgoing.take(a.io.outgoing.len() as int) == a.io.outgoing
}

/// What was a packet of the stream stays one as the stream grows.
pub proof fn lemma_has_sent_stays(
    a: SockView,
    s: Seq<Seq<u8>>,
    b: SockView,
    t: Seq<Seq<u8>>,
    data: Seq<u8>,
    i: int,
)
    requires
        grows(a, s, b, t),
        a.has_sent(s, data, i),
    ensures
        b.has_sent(t, data, i),
{
    let x = a.send.seq_nr - s.len() + i;
    let y = b.send.seq_nr - t.len() + i;
    assert((y - x) % 0x10000 == 0);
    assert(x % 0x10000 == y % 0x10000);
}

pub proof fn lemma_may_send_stays(
    a: SockView,
    s: Seq<Seq<u8>>,
    b: SockView,
    t: Seq<Seq<u8>>,
    data: Seq<u8>,
)
    requires
        grows(a, s, b, t),
        a.may_send(s, data),
    ensures
        b.may_send(t, data),
{
    if data[0] / 16 != ST_STATE {
        let i = choose|i: int| a.has_sent(s, data, i);
        lemma_has_sent_stays(a, s, b, t, data, i);
    }
}

pub proof fn lemma_grows_trans(
    a: SockView,
    s: Seq<Seq<u8>>,
    b: SockView,
    t: Seq<Seq<u8>>,
    c: SockView,
    u: Seq<Seq<u8>>,
)
    requires
        grows(a, s, b, t),
        grows(b, t, c, u),
    ensures
        grows(a, s, c, u),
{
    assert forall|i: int| 0 <= i < s.len() - 1 implies #[trigger] u[i] == s[i] by {
        assert(t[i] == s[i]);
    }
}

pub proof fn lemma_advances_trans(
    a: St,
    s: Seq<Seq<u8>>,
    b: St,
    t: Seq<Seq<u8>>,
    c: St,
    u: Seq<Seq<u8>>,
)
    requires
        advances(a, s, b, t),
        advances(b, t, c, u),
    ensures
        advances(a, s, c, u),
{
    reveal(advances);
    lemma_grows_trans(a.s, s, b.s, t, c.s, u);
    let n = b.io.outgoing.len() as int;
    assert(c.io.outgoing.take(a.io.outgoing.len() as int) =~= c.io.outgoing.take(n).take(
        a.io.outgoing.len() as int,
    ));
    assert forall|j: int| a.io.outgoing.len() <= j < c.io.outgoing.len() implies c.s.may_send(
        u,
        (#[trigger] c.io.outgoing[j]).data,
    ) by {
        if j < n {
            assert(c.io.outgoing.take(n)[j] == b.io.outgoing[j]);
            lemma_may_send_stays(b.s, t, c.s, u, b.io.outgoing[j].data);
        }
    }
}

/// Every packet in `b` is in `a` too, under the same number and with the same
/// payload. One that has been sent in `a` has been in `b`.
#[verifier::opaque]
pub open spec fn kept(a: Seq<Option<PacketView>>, b: Seq<Option<PacketView>>) -> bool {
    &&& a.len() == b.len()
    &&& forall|k: int| #![trigger b[k]]
        0 <= k < b.len() && b[k] is Some ==> {
            &&& a[k] is Some
            &&& b[k]->0.data.len() == a[k]->0.data.len()
            &&& b[k]->0.data[0] == a[k]->0.data[0]
            &&& b[k]->0.data[1] == a[k]->0.data[1]
            &&& b[k]->0.seq() == a[k]->0.seq()
            &&& b[k]->0.body() == a[k]->0.body()
            &&& b[k]->0.transmissions == 0 ==> a[k]->0.transmissions == 0
        }
}

pub proof fn lemma_kept_refl(a: Seq<Option<PacketView>>)
    ensures
        kept(a, a),
{
    reveal(kept);
}

pub proof fn lemma_kept_trans(
    a: Seq<Option<PacketView>>,
    b: Seq<Option<PacketView>>,
    c: Seq<Option<PacketView>>,
)
    requires
        kept(a, b),
        kept(b, c),
    ensures
        kept(a, c),
{
    reveal(kept);
}

/// A step that sends nothing and leaves the packets in the queue what they
/// are, if it leaves them there, leaves the stream alone.
pub proof fn lemma_kept_advances(a: St, b: St, stream: Seq<Seq<u8>>)
    requires
        a.s.sends(stream),
        a.s.outbuf.len() > 0,
        kept(a.s.outbuf, b.s.outbuf),
        b.s.send.seq_nr == a.s.send.seq_nr,
        b.s.send.fin_sent == a.s.send.fin_sent,
        b.io.outgoing == a.io.outgoing,
    ensures
        advances(a, stream, b, stream),
{
    reveal(advances);
    reveal(kept);
    reveal(carries);
    lemma_mod_bound(a.s.send.seq_nr.wrapping_sub(1) as int, a.s.outbuf.len() as int);
    assert(b.io.outgoing.take(a.io.outgoing.len() as int) =~= a.io.outgoing);
    assert forall|k: int| #![trigger b.s.outbuf[k]]
        0 <= k < b.s.outbuf.len() && b.s.outbuf[k] is Some implies is_packet(
        stream,
        b.s.send.seq_nr,
        b.s.send.fin_sent,
        b.s.outbuf[k]->0.data,
        place(stream, b.s.send.seq_nr, b.s.outbuf[k]->0.seq()),
    ) by {
        assert(a.s.outbuf[k] is Some);
        assert(b.s.outbuf[k]->0.data.skip(HEADER_SIZE as int) == b.s.outbuf[k]->0.body());
        assert(a.s.outbuf[k]->0.data.skip(HEADER_SIZE as int) == a.s.outbuf[k]->0.body());
    }
}

/// A step that leaves alone what counts for the stream.
pub proof fn lemma_same_advances(a: St, b: St, stream: Seq<Seq<u8>>)
    requires
        a.s.sends(stream),
        a.s.outbuf.len() > 0,
        b.s.outbuf == a.s.outbuf,
        b.s.send.seq_nr == a.s.send.seq_nr,
        b.s.send.fin_sent == a.s.send.fin_sent,
        b.io.outgoing == a.io.outgoing,
    ensures
        advances(a, stream, b, stream),
{
    lemma_kept_refl(a.s.outbuf);
    lemma_kept_advances(a, b, stream);
}

/// An ack is outside of the stream.
pub proof fn lemma_ack_advances(st: St, stream: Seq<Seq<u8>>)
    requires
        st.s.sends(stream),
        st.s.outbuf.len() > 0,
    ensures
        advances(st, stream, ack_sent(st), stream),
{
    let s = SockView {
        send: SendSide { last_rcv_win: st.s.rcv_window(), ..st.s.send },
        ..st.s
    };
    let after = ack_sent(st);
    assert({
        &&& after.s.outbuf == st.s.outbuf
        &&& after.s.send.seq_nr == st.s.send.seq_nr
        &&& after.s.send.fin_sent == st.s.send.fin_sent
        &&& after.io.outgoing.len() == st.io.outgoing.len() + 1
        &&& after.io.outgoing.last().data == stamped(St { s, ..st }, s.ack_bytes())
        &&& after.io.outgoing.drop_last() == st.io.outgoing
    }) by {
        reveal(ack_sent);
        reveal(data_sent);
    }
    let mid = St {
        s: after.s,
        io: IoView { outgoing: st.io.outgoing, ..after.io },
    };
    lemma_same_advances(st, mid, stream);
    assert(after.io.outgoing.last().data[0] / 16 == ST_STATE) by {
        reveal(SockView::ack_bytes);
    }
    reveal(advances);
    assert(after.io.outgoing.take(st.io.outgoing.len() as int) =~= st.io.outgoing);
}

/// A packet that goes out is a packet of the stream.
pub proof fn lemma_packet_advances(st: St, seq: u16, stream: Seq<Seq<u8>>)
    requires
        st.s.send_wf(),
        st.s.sends(stream),
    ensures
        advances(st, stream, packet_sent(st, seq), stream),
{
    let s = st.s;
    let after = packet_sent(st, seq);
    lemma_queue_at(
        s.outbuf,
        s.send.seq_nr,
        s.send.cur_window_packets,
        s.send.cur_window,
        seq as int,
    );
    match s.packet_at(seq) {
        None => {
            assert(after == st) by {
                reveal(packet_sent);
            }
            lemma_same_advances(st, after, stream);
        },
        Some(p) => {
            let k = seq as int % s.outbuf.len() as int;
            lemma_stamp_keeps(st, p.data);
            let data = put_be16(p.data, 18, s.recv.ack_nr as int);
            lemma_stamp_keeps(st, data);
            let out = stamped(st, data);
            assert({
                &&& after.s.send.seq_nr == s.send.seq_nr
                &&& after.s.send.fin_sent == s.send.fin_sent
                &&& after.io.outgoing.len() == st.io.outgoing.len() + 1
                &&& after.io.outgoing.last().data == out
                &&& after.io.outgoing.drop_last() == st.io.outgoing
                &&& after.s.outbuf == s.outbuf.update(k, after.s.outbuf[k])
                &&& after.s.outbuf[k] is Some
                &&& after.s.outbuf[k]->0.data == out
                &&& after.s.outbuf[k]->0.transmissions > 0
            }) by {
                reveal(packet_sent);
                reveal(data_sent);
            }
            assert(out[0] == p.data[0] && out[1] == p.data[1]);
            let mid = St { s: after.s, io: IoView { outgoing: st.io.outgoing, ..after.io } };
            assert(kept(s.outbuf, after.s.outbuf)) by {
                reveal(kept);
            }
            lemma_kept_advances(st, mid, stream);
            assert(after.s.sends(stream)) by {
                reveal(advances);
            }
            lemma_sent_closes(after.s, k, stream);
            reveal(advances);
            assert(after.io.outgoing.take(st.io.outgoing.len() as int) =~= st.io.outgoing);
            let i = place(stream, s.send.seq_nr, p.seq());
            assert(after.s.has_sent(stream, out, i));
        },
    }
}

/// A packet in the queue that has been sent is a packet of the stream for
/// good.
proof fn lemma_sent_closes(s: SockView, k: int, stream: Seq<Seq<u8>>)
    requires
        s.sends(stream),
        0 <= k < s.outbuf.len(),
        s.outbuf[k] is Some,
        s.outbuf[k]->0.transmissions > 0,
        s.outbuf[k]->0.seq() % (s.outbuf.len() as int) == k,
    ensures
        s.has_sent(
            stream,
            s.outbuf[k]->0.data,
            place(stream, s.send.seq_nr, s.outbuf[k]->0.seq()),
        ),
{
    reveal(carries);
    let p = s.outbuf[k]->0;
    let i = place(stream, s.send.seq_nr, p.seq());
    if i == stream.len() - 1 {
        assert(p.seq() == s.send.seq_nr.wrapping_sub(1));
    }
}

/// What is flushed is packets of the stream.
pub proof fn lemma_flush_advances(st: St, packet_size: usize, i: u16, stream: Seq<Seq<u8>>)
    requires
        st.s.send_wf(),
        st.s.mtu.wf(),
        st.s.sends(stream),
    ensures
        advances(st, stream, flushed_from(st, packet_size, i).1, stream),
    decreases st.s.send.seq_nr.wrapping_sub(i),
{
    reveal(flushed_from);
    let s = st.s;
    lemma_queue_at(s.outbuf, s.send.seq_nr, s.send.cur_window_packets, s.send.cur_window, 0);
    if i == s.send.seq_nr {
        lemma_same_advances(st, st, stream);
    } else {
        match s.packet_at(i) {
            Some(p) if p.waiting() => {
                if s.full(usize::MAX) {
                    lemma_same_advances(st, flushed_from(st, packet_size, i).1, stream);
                } else if i != s.send.seq_nr.wrapping_sub(1) || s.send.cur_window_packets == 1
                    || p.payload >= packet_size {
                    lemma_packet_sent(st, i);
                    lemma_packet_advances(st, i, stream);
                    let next = packet_sent(st, i);
                    assert(next.s.sends(stream)) by {
                        reveal(advances);
                    }
                    lemma_flush_advances(next, packet_size, i.wrapping_add(1), stream);
                    lemma_advances_trans(
                        st,
                        stream,
                        next,
                        stream,
                        flushed_from(next, packet_size, i.wrapping_add(1)).1,
                        stream,
                    );
                } else {
                    lemma_flush_advances(st, packet_size, i.wrapping_add(1), stream);
                }
            },
            _ => {
                lemma_flush_advances(st, packet_size, i.wrapping_add(1), stream);
            },
        }
    }
}

/// The newest packet of the queue is the last of the stream.
pub proof fn lemma_newest(s: SockView, stream: Seq<Seq<u8>>)
    requires
        queue_wf(s.outbuf, s.send.seq_nr, s.send.cur_window_packets, s.send.cur_window),
        carries(s.outbuf, s.send.seq_nr, s.send.fin_sent, stream),
        s.packet_at(s.send.seq_nr.wrapping_sub(1)) is Some,
    ensures
        s.packet_at(s.send.seq_nr.wrapping_sub(1))->0.seq() == s.send.seq_nr.wrapping_sub(1),
        stream.len() > 0,
        s.packet_at(s.send.seq_nr.wrapping_sub(1))->0.body() == stream.last(),
{
    reveal(carries);
    let last = s.send.seq_nr.wrapping_sub(1);
    let p = s.packet_at(last)->0;
    let n = s.outbuf.len() as int;
    lemma_queue_at(
        s.outbuf,
        s.send.seq_nr,
        s.send.cur_window_packets,
        s.send.cur_window,
        last as int,
    );
    lemma_ring_size_16(n);
    if p.seq() != last {
        let q = p.seq() as u16;
        assert((s.send.seq_nr - 1 - last) % 0x10000 == 0);
        lemma_slots_differ(
            s.outbuf,
            s.send.seq_nr,
            s.send.cur_window_packets,
            s.send.cur_window,
            q,
            last,
        );
    }
}

/// A new packet is the last of the stream it makes.
proof fn lemma_new_is_last(s: SockView, flags: u8, data: Seq<u8>, stream: Seq<Seq<u8>>)
    requires
        data.len() <= MAX_PAYLOAD,
        flags == ST_FIN ==> s.send.fin_sent,
        flags <= ST_SYN,
    ensures
        is_packet(
            stream.push(data),
            s.send.seq_nr.wrapping_add(1),
            s.send.fin_sent,
            new_packet(s, flags, data).data,
            stream.len() as int,
        ),
{
    lemma_new_packet(s, flags, data);
    let p = new_packet(s, flags, data);
    assert(p.data[0] / 16 == flags && p.data[1] == 0);
    assert(p.data.skip(HEADER_SIZE as int) == p.body());
    assert(p.seq() == be16(p.data, 16));
}

/// Where a packet in the queue is found, once another has been queued.
proof fn lemma_with_packet_at(s: SockView, flags: u8, data: Seq<u8>, k: int)
    requires
        queue_wf(s.outbuf, s.send.seq_nr, s.send.cur_window_packets, s.send.cur_window),
        s.send.cur_window_packets < OUTGOING_BUFFER_MAX_SIZE,
        data.len() <= MAX_PAYLOAD,
        0 <= k < s.with_packet(flags, data).outbuf.len(),
        s.with_packet(flags, data).outbuf[k] is Some,
    ensures
        ({
            let q = s.with_packet(flags, data).outbuf[k]->0;
            ||| q.seq() == s.send.seq_nr && q == new_packet(s, flags, data)
            ||| {
                &&& q.seq() != s.send.seq_nr
                &&& (s.send.seq_nr - 1 - q.seq()) % 0x10000 < s.send.cur_window_packets
                &&& s.packet_at(q.seq() as u16) == Some(q)
            }
        }),
{
    lemma_with_packet(s, flags, data);
    let t = s.with_packet(flags, data);
    let n = t.outbuf.len() as int;
    lemma_queue_at(t.outbuf, t.send.seq_nr, t.send.cur_window_packets, t.send.cur_window, k);
    lemma_small_mod(k as nat, n as nat);
    assert(ring_at(t.outbuf, k) == t.outbuf[k]);
    let q = t.outbuf[k]->0;
    assert(q.seq() % n == k);
    let seq = q.seq() as u16;
    assert(seq == q.seq());
    assert(t.packet_at(seq) == Some(q));
    if seq != s.send.seq_nr {
        let x = (t.send.seq_nr - 1 - seq) % 0x10000;
        assert(t.send.seq_nr == s.send.seq_nr.wrapping_add(1));
        assert((s.send.seq_nr - 1 - seq) % 0x10000 == x - 1);
        assert(t.packet_at(seq) == s.packet_at(seq));
    }
}

/// Queueing a packet puts its payload at the end of the stream.
pub proof fn lemma_packet_carried(s: SockView, flags: u8, data: Seq<u8>, stream: Seq<Seq<u8>>)
    requires
        queue_wf(s.outbuf, s.send.seq_nr, s.send.cur_window_packets, s.send.cur_window),
        s.send.cur_window_packets < OUTGOING_BUFFER_MAX_SIZE,
        data.len() <= MAX_PAYLOAD,
        carries(s.outbuf, s.send.seq_nr, false, stream),
        flags == ST_FIN ==> s.send.fin_sent,
        flags <= ST_SYN,
    ensures
        s.with_packet(flags, data).sends(stream.push(data)),
{
    reveal(carries);
    let t = s.with_packet(flags, data);
    let after = stream.push(data);
    let seq = s.send.seq_nr;
    lemma_new_is_last(s, flags, data, stream);
    assert(t.send.seq_nr == seq.wrapping_add(1) && t.send.fin_sent == s.send.fin_sent);
    lemma_queue_at(s.outbuf, seq, s.send.cur_window_packets, s.send.cur_window, 0);
    assert forall|k: int| #![trigger t.outbuf[k]]
        0 <= k < t.outbuf.len() && t.outbuf[k] is Some implies is_packet(
        after,
        t.send.seq_nr,
        t.send.fin_sent,
        t.outbuf[k]->0.data,
        place(after, t.send.seq_nr, t.outbuf[k]->0.seq()),
    ) by {
        lemma_with_packet_at(s, flags, data, k);
        let q = t.outbuf[k]->0;
        if q.seq() != seq {
            lemma_mod_bound(q.seq(), s.outbuf.len() as int);
            lemma_older_stays(stream, data, seq, s.send.fin_sent, q);
        }
    }
}

/// A packet of the stream stays one as another comes at its end.
proof fn lemma_older_stays(
    stream: Seq<Seq<u8>>,
    data: Seq<u8>,
    seq: u16,
    fin_sent: bool,
    q: PacketView,
)
    requires
        is_packet(stream, seq, false, q.data, place(stream, seq, q.seq())),
        q.seq() != seq,
    ensures
        is_packet(
            stream.push(data),
            seq.wrapping_add(1),
            fin_sent,
            q.data,
            place(stream.push(data), seq.wrapping_add(1), q.seq()),
        ),
{
    let i = place(stream, seq, q.seq());
    assert(0 <= q.seq() < 0x10000);
    let x = (seq.wrapping_add(1) - 1 - q.seq()) % 0x10000;
    assert((seq - 1 - q.seq()) % 0x10000 == x - 1);
}

/// Data that goes into the newest packet comes at the end of the stream's last
/// payload.
pub proof fn lemma_extended_carried(s: SockView, flags: u8, data: Seq<u8>, stream: Seq<Seq<u8>>)
    requires
        queue_wf(s.outbuf, s.send.seq_nr, s.send.cur_window_packets, s.send.cur_window),
        carries(s.outbuf, s.send.seq_nr, s.send.fin_sent, stream),
        s.last_open(),
        s.packet_at(s.send.seq_nr.wrapping_sub(1))->0.payload + data.len() <= MAX_PAYLOAD,
        flags != ST_FIN,
        flags <= ST_SYN,
    ensures
        stream.len() > 0,
        s.with_extended(flags, data).sends(
            stream.update(stream.len() - 1, stream.last() + data),
        ),
{
    lemma_newest(s, stream);
    lemma_with_extended(s, flags, data);
    let last = s.send.seq_nr.wrapping_sub(1);
    let t = s.with_extended(flags, data);
    let k0 = last as int % s.outbuf.len() as int;
    let after = stream.update(stream.len() - 1, stream.last() + data);
    lemma_queue_at(
        s.outbuf,
        s.send.seq_nr,
        s.send.cur_window_packets,
        s.send.cur_window,
        last as int,
    );
    let p = t.packet_at(last)->0;
    assert(p.data[0] / 16 == flags && p.data[1] == 0 && p.data.len() >= HEADER_SIZE);
    assert(p.data.skip(HEADER_SIZE as int) == p.body());
    assert forall|k: int| #![trigger t.outbuf[k]]
        0 <= k < t.outbuf.len() && t.outbuf[k] is Some implies is_packet(
        after,
        t.send.seq_nr,
        t.send.fin_sent,
        t.outbuf[k]->0.data,
        place(after, t.send.seq_nr, t.outbuf[k]->0.seq()),
    ) by {
        if k != k0 {
            lemma_queue_at(
                s.outbuf,
                s.send.seq_nr,
                s.send.cur_window_packets,
                s.send.cur_window,
                k,
            );
            lemma_small_mod(k as nat, s.outbuf.len() as nat);
            reveal(carries);
            assert(t.outbuf[k] == s.outbuf[k]);
            let q = s.outbuf[k]->0;
            assert(q.seq() != last);
            let i = place(stream, s.send.seq_nr, q.seq());
            assert(i < stream.len() - 1) by {
                assert(0 <= q.seq() < 0x10000);
                lemma_mod_bound(s.send.seq_nr - 1 - q.seq(), 0x10000);
                if (s.send.seq_nr - 1 - q.seq()) % 0x10000 == 0 {
                    assert(q.seq() == last);
                }
            }
            assert(is_packet(stream, s.send.seq_nr, s.send.fin_sent, q.data, i));
        } else {
            assert(p.seq() == last);
            assert(place(after, t.send.seq_nr, p.seq()) == stream.len() - 1);
        }
    }
    reveal(carries);
}

/// The stream once `data` has been queued by `s`.
pub open spec fn stream_queued(s: SockView, data: Seq<u8>, stream: Seq<Seq<u8>>) -> Seq<Seq<u8>> {
    let n = s.room_in_last(data.len() as int);
    let filled = stream.update(stream.len() - 1, stream.last() + data.take(n));
    if n == 0 {
        stream.push(data)
    } else if n == data.len() {
        filled
    } else {
        filled.push(data.skip(n))
    }
}

pub proof fn lemma_joined_push(stream: Seq<Seq<u8>>, data: Seq<u8>)
    ensures
        joined(stream.push(data)) == joined(stream) + data,
{
    assert(stream.push(data).drop_last() =~= stream);
}

/// Queueing data adds it to the stream's bytes.
pub proof fn lemma_joined_queued(s: SockView, data: Seq<u8>, stream: Seq<Seq<u8>>)
    requires
        s.room_in_last(data.len() as int) > 0 ==> stream.len() > 0,
        0 <= s.room_in_last(data.len() as int) <= data.len(),
    ensures
        joined(stream_queued(s, data, stream)) == joined(stream) + data,
{
    let n = s.room_in_last(data.len() as int);
    if n == 0 {
        lemma_joined_push(stream, data);
    } else {
        let filled = stream.update(stream.len() - 1, stream.last() + data.take(n));
        assert(filled.drop_last() =~= stream.drop_last());
        assert(joined(filled) =~= joined(stream) + data.take(n));
        if n == data.len() {
            assert(data.take(n) =~= data);
        } else {
            lemma_joined_push(filled, data.skip(n));
            assert(joined(stream) + data.take(n) + data.skip(n) =~= joined(stream) + data);
        }
    }
}

/// Queueing data lets the stream grow by it.
pub proof fn lemma_queued_carried(s: SockView, flags: u8, data: Seq<u8>, stream: Seq<Seq<u8>>)
    requires
        s.send_wf(),
        s.mtu.wf(),
        s.send.cur_window_packets < OUTGOING_BUFFER_MAX_SIZE,
        data.len() <= MAX_PAYLOAD,
        carries(s.outbuf, s.send.seq_nr, false, stream),
        flags == ST_FIN ==> s.send.fin_sent && data.len() == 0,
        flags <= ST_SYN,
    ensures
        s.queued(flags, data).sends(stream_queued(s, data, stream)),
        joined(stream_queued(s, data, stream)) == joined(stream) + data,
        stream_queued(s, data, stream).len() - stream.len() == s.queued(
            flags,
            data,
        ).send.cur_window_packets - s.send.cur_window_packets,
        grows(
            SockView { send: SendSide { fin_sent: false, ..s.send }, ..s },
            stream,
            s.queued(flags, data),
            stream_queued(s, data, stream),
        ),
{
    let n = s.room_in_last(data.len() as int);
    lemma_weaker_carries(s.outbuf, s.send.seq_nr, s.send.fin_sent, stream);
    if n == 0 {
        lemma_packet_carried(s, flags, data, stream);
    } else {
        lemma_extended_carried(s, flags, data.take(n), stream);
        let e = s.with_extended(flags, data.take(n));
        let filled = stream.update(stream.len() - 1, stream.last() + data.take(n));
        lemma_with_extended(s, flags, data.take(n));
        if n == data.len() {
            assert(data.take(n) =~= data);
        } else {
            let o = SockView { send: SendSide { fin_sent: false, ..s.send }, ..s };
            lemma_weaker_carries(s.outbuf, s.send.seq_nr, false, stream);
            lemma_extended_carried(o, flags, data.take(n), stream);
            assert(o.with_extended(flags, data.take(n)).outbuf == e.outbuf);
            lemma_packet_carried(e, flags, data.skip(n), filled);
        }
    }
    lemma_joined_queued(s, data, stream);
}

/// A queue without a FIN may be followed by one.
proof fn lemma_weaker_carries(
    outbuf: Seq<Option<PacketView>>,
    next: u16,
    fin_sent: bool,
    stream: Seq<Seq<u8>>,
)
    requires
        carries(outbuf, next, false, stream),
    ensures
        carries(outbuf, next, fin_sent, stream),
{
    reveal(carries);
}

/// Writing a packet lets the stream grow by its data. `a` is the socket before
/// it is marked as having sent a FIN, if it is.
pub proof fn lemma_packet_written_advances(
    a: St,
    st: St,
    flags: u8,
    data: Seq<u8>,
    stream: Seq<Seq<u8>>,
) -> (t: Seq<Seq<u8>>)
    requires
        st.s.send_wf(),
        st.s.mtu.wf(),
        st.s.send.cur_window_packets < OUTGOING_BUFFER_MAX_SIZE - 1 || st.s.send.fin_sent
            && st.s.send.cur_window_packets < OUTGOING_BUFFER_MAX_SIZE,
        data.len() <= MAX_PAYLOAD,
        a.s.sends(stream),
        !a.s.send.fin_sent,
        a.s.outbuf == st.s.outbuf,
        a.s.send.seq_nr == st.s.send.seq_nr,
        a.io.outgoing == st.io.outgoing,
        flags == ST_FIN ==> st.s.send.fin_sent && data.len() == 0,
        flags <= ST_SYN,
    ensures
        advances(a, stream, packet_written(st, flags, data), t),
        joined(t) == joined(stream) + data,
        t.len() - stream.len() == packet_written(st, flags, data).s.send.cur_window_packets
            - st.s.send.cur_window_packets,
{
    let send = if st.s.send.cur_window_packets == 0 {
        SendSide {
            retransmit_timeout: st.s.rtt.rto,
            rto_timeout: st.io.current_ms.wrapping_add(st.s.rtt.rto as u64),
            ..st.s.send
        }
    } else {
        st.s.send
    };
    let s = SockView { send: SendSide { last_rcv_win: st.s.rcv_window(), ..send }, ..st.s };
    let t = stream_queued(s, data, stream);
    lemma_queued_carried(s, flags, data, stream);
    lemma_queued(s, flags, data);
    let q = St { s: s.queued(flags, data), ..st };
    assert(advances(a, stream, q, t)) by {
        reveal(advances);
        assert(q.io.outgoing.take(a.io.outgoing.len() as int) =~= a.io.outgoing);
    }
    lemma_flush_advances(q, q.s.packet_size(), q.s.oldest_seq(), t);
    lemma_flushed_from(q, q.s.packet_size(), q.s.oldest_seq());
    lemma_advances_trans(a, stream, q, t, packet_written(st, flags, data), t);
    t
}

/// Writing lets the stream grow by what is written.
pub proof fn lemma_writing_advances(
    st: St,
    packet_size: usize,
    sent: int,
    rest: Seq<u8>,
    stream: Seq<Seq<u8>>,
) -> (t: Seq<Seq<u8>>)
    requires
        st.s.send_wf(),
        st.s.mtu.wf(),
        st.s.oldest_there(),
        st.s.state == ConnState::Connected,
        0 < packet_size <= MAX_PAYLOAD,
        st.s.sends(stream),
        !st.s.send.fin_sent,
    ensures
        ({
            let (n, after) = writing(st, packet_size, sent, rest);
            &&& advances(st, stream, after, t)
            &&& joined(t) == joined(stream) + rest.take(n - sent)
            &&& t.len() - stream.len() == after.s.send.cur_window_packets
                - st.s.send.cur_window_packets
        }),
    decreases rest.len(),
{
    reveal(writing);
    let n = chunk_len(rest.len(), packet_size);
    let (m, after) = writing(st, packet_size, sent, rest);
    lemma_queue_at(
        st.s.outbuf,
        st.s.send.seq_nr,
        st.s.send.cur_window_packets,
        st.s.send.cur_window,
        0,
    );
    if st.s.full(n as usize) {
        lemma_same_advances(st, after, stream);
        assert(joined(stream) =~= joined(stream) + rest.take(0));
        stream
    } else {
        let next = packet_written(st, ST_DATA, rest.take(n));
        lemma_packet_written(st, ST_DATA, rest.take(n));
        let t = lemma_packet_written_advances(st, st, ST_DATA, rest.take(n), stream);
        if n <= 0 || n >= rest.len() {
            t
        } else {
            assert(next.s.sends(t)) by {
                reveal(advances);
            }
            let u = lemma_writing_advances(next, packet_size, sent + n, rest.skip(n), t);
            lemma_advances_trans(st, stream, next, t, after, u);
            lemma_writing(next, packet_size, sent + n, rest.skip(n));
            assert(joined(stream) + rest.take(n) + rest.skip(n).take(m - sent - n)
                =~= joined(stream) + rest.take(m - sent));
            u
        }
    }
}

pub proof fn lemma_written_advances(st: St, data: Seq<u8>, stream: Seq<Seq<u8>>) -> (t: Seq<
    Seq<u8>,
>)
    requires
        st.s.wf(),
        st.s.sends(stream),
    ensures
        ({
            let (n, after) = written(st, data);
            &&& advances(st, stream, after, t)
            &&& joined(t) == joined(stream) + data.take(n)
            &&& t.len() - stream.len() == after.s.send.cur_window_packets
                - st.s.send.cur_window_packets
        }),
{
    reveal(written);
    let (n, after) = written(st, data);
    lemma_queue_at(
        st.s.outbuf,
        st.s.send.seq_nr,
        st.s.send.cur_window_packets,
        st.s.send.cur_window,
        0,
    );
    if st.s.state != ConnState::Connected || st.s.send.fin_sent {
        lemma_same_advances(st, after, stream);
        assert(joined(stream) =~= joined(stream) + data.take(0));
        stream
    } else {
        let timed = St { io: IoView { current_ms: st.io.now.ms, ..st.io }, ..st };
        let t = lemma_writing_advances(timed, st.s.packet_size(), 0, data, stream);
        lemma_same_advances(st, timed, stream);
        lemma_advances_trans(st, stream, timed, stream, after, t);
        t
    }
}

/// Closing lets the stream end, with a packet that carries nothing.
pub proof fn lemma_closing_advances(st: St, stream: Seq<Seq<u8>>) -> (t: Seq<Seq<u8>>)
    requires
        st.s.wf(),
        st.s.sends(stream),
    ensures
        advances(st, stream, closing(st), t),
        joined(t) == joined(stream),
        t.len() - stream.len() == closing(st).s.send.cur_window_packets
            - st.s.send.cur_window_packets,
{
    let s = st.s;
    let after = closing(st);
    lemma_queue_at(s.outbuf, s.send.seq_nr, s.send.cur_window_packets, s.send.cur_window, 0);
    if is_up(s.state) && !s.send.fin_sent {
        let closed = SockView {
            recv: RecvSide { read_shutdown: true, ..s.recv },
            send: SendSide { close_requested: true, fin_sent: true, ..s.send },
            ..s
        };
        let t = lemma_packet_written_advances(
            st,
            St { s: closed, ..st },
            ST_FIN,
            Seq::empty(),
            stream,
        );
        assert(joined(t) =~= joined(stream));
        t
    } else {
        lemma_same_advances(st, after, stream);
        stream
    }
}

} // verus!

//! Nothing is lost between two sockets: what the one has numbered, the other
//! has received, or it is still in the send queue.

use crate::engine::acking::lemma_event_speaks_true;
use crate::engine::delivery::got_stays;
use crate::engine::eack::{bit_seq, MAX_MASK};
use crate::engine::extensions::{exts_of, lemma_exts_from};
use crate::engine::incoming::arrived;
use crate::engine::link::{
    accepted_bytes, happened, lemma_event_sends, lemma_receiver_event, lemma_sender_event,
    lemma_starts_answered, lemma_starts_dialled, taken_bytes, Event, Link, Origin,
};
use crate::engine::measure::fields_of;
use crate::engine::model::{mask_bit, packet_sent, St};
use crate::engine::queue::{lemma_flight_bound, lemma_queue_at};
use crate::engine::retained::{
    acks_number, lemma_numbered_is_retained, lemma_retained_until_acked, mask_acks,
};
use crate::engine::state::{reorder_wf, ConnState, IoView, SockView, OUTGOING_BUFFER_MAX_SIZE};
use crate::engine::stream::{advances, carries, grows, number_of};
use crate::engine::stream_steps::lemma_arrival_advances;
use crate::packet::{be16, HEADER_SIZE, ST_STATE};
use vstd::arithmetic::div_mod::*;
use vstd::prelude::*;

verus! {

/// A link, and the acks that come back over it.
pub struct Path {
    pub link: Link,
    /// the payloads of the packets that the receiver of the link has numbered
    /// itself
    pub back: Seq<Seq<u8>>,
    /// the datagrams that the receiver has sent, with how many packets of the
    /// link each of them acks
    pub acks: Set<(int, Seq<u8>)>,
}

impl Link {
    /// Whether the receiver has received packet `i`.
    pub open spec fn has_got(self, i: int) -> bool {
        self.b.has_got(self.pos, i)
    }

    /// The number of packet `i`.
    pub open spec fn number(self, i: int) -> u16 {
        number_of(self.stream.len(), self.a.send.seq_nr, i) as u16
    }

    /// Whether packet `i` has been received, or is still queued.
    pub open spec fn accounts_for(self, i: int) -> bool {
        self.has_got(i) || self.a.retains(self.number(i), Seq::empty())
    }

    /// Whether `d` acks the first `p` packets, of which all have been taken in,
    /// and beyond those only packets that have been received.
    pub open spec fn acked_truly(self, d: Seq<u8>, p: int) -> bool {
        &&& -1 <= p <= self.pos
        &&& d.len() >= HEADER_SIZE
        &&& be16(d, 18) == (self.first() + p - 1) % 0x10000
        &&& forall|bits: Seq<u8>, mask: Seq<u8>, i: int|
            #![trigger exts_of(d, bits), mask_bit(mask, i)]
            exts_of(d, bits).selack == Some(mask) && mask_bit(mask, i) ==> self.has_got(p + 1 + i)
    }
}

impl Path {
    /// What holds at all times: every packet is accounted for.
    pub open spec fn wf(self) -> bool {
        &&& self.link.wf()
        &&& self.link.b.sends(self.back)
        &&& forall|p: int, d: Seq<u8>| #[trigger]
            self.acks.contains((p, d)) ==> self.link.acked_truly(d, p)
        &&& self.link.stream.len() - self.link.pos <= OUTGOING_BUFFER_MAX_SIZE
        &&& forall|i: int|
            0 <= i < self.link.stream.len() ==> #[trigger] self.link.accounts_for(i)
    }

    /// Whether the network may let `e` happen to the sender: a packet that
    /// arrives is one that the receiver has sent, not so long ago that its ack
    /// number could be taken for another.
    pub open spec fn lets_back(self, e: Event) -> bool {
        match e {
            Event::Arrive(buf) => exists|p: int|
                #[trigger] self.acks.contains((p, buf)) && self.link.pos - 0x8000 <= p,
            _ => true,
        }
    }
}

/// The packet that is expected next has not been received.
proof fn lemma_next_is_missing(l: Link)
    requires
        l.wf(),
        l.pos < l.stream.len(),
    ensures
        !l.has_got(l.pos),
{
    let b = l.b;
    reveal(reorder_wf);
    if b.recv.got_fin_reached {
        assert(l.pos == l.sent().len());
        assert(!l.a.last_open());
    }
}

/// What an honest ack number acks has been taken in.
proof fn lemma_acked_is_got(l: Link, buf: Seq<u8>, p: int, i: int)
    requires
        l.wf(),
        l.acked_truly(buf, p),
        l.pos - 0x8000 <= p,
        l.stream.len() - l.pos <= OUTGOING_BUFFER_MAX_SIZE,
        l.pos <= i < l.stream.len(),
        l.a.among_oldest(l.a.acks_of(fields_of(buf).ack_nr) as int, l.number(i)),
    ensures
        l.has_got(i),
{
    let a = l.a;
    let len = l.stream.len() as int;
    let packets = a.send.cur_window_packets as int;
    lemma_queue_at(
        a.outbuf,
        a.send.seq_nr,
        a.send.cur_window_packets,
        a.send.cur_window,
        0,
    );
    let f = fields_of(buf);
    assert(f.ack_nr == be16(buf, 18));
    let n = a.acks_of(f.ack_nr) as int;
    lemma_mod_bound(a.send.seq_nr - len + i, 0x10000);
    lemma_ack_place(
        a.send.seq_nr as int,
        len,
        packets,
        n,
        l.pos,
        p,
        i,
        f.ack_nr as int,
        a.oldest_seq() as int,
        l.number(i) as int,
    );
}

/// Where in the stream an ack number stands that acks `n` packets.
proof fn lemma_ack_place(
    seq: int,
    len: int,
    packets: int,
    n: int,
    pos: int,
    p: int,
    i: int,
    ack: int,
    oldest: int,
    q: int,
)
    requires
        0 <= n <= packets <= 1024,
        pos <= i < len,
        len - pos <= 1024,
        pos - 0x8000 <= p <= pos,
        q == (seq - len + i) % 0x10000,
        oldest == (seq - packets) % 0x10000,
        ack == (seq - len + p - 1) % 0x10000,
        (q - oldest) % 0x10000 < n,
        n == 0 || n == (ack - (seq - 1 - packets)) % 0x10000,
    ensures
        i < p,
{
    lemma_turns(seq - len + i, q);
    lemma_turns(seq - packets, oldest);
    lemma_turns(seq - len + p - 1, ack);
    let o = len - packets;
    assert((q - oldest - (i - o)) % 0x10000 == 0);
    assert((q - oldest) % 0x10000 == (i - o) % 0x10000);
    assert(0 <= i - o < n);
    assert((o + n - p) % 0x10000 == 0);
    assert(o + n == p);
}

proof fn lemma_turns(x: int, y: int)
    requires
        y == x % 0x10000,
    ensures
        (y - x) % 0x10000 == 0,
{
}

/// What the mask of an honest ack acks has been received.
proof fn lemma_masked_is_got(l: Link, buf: Seq<u8>, p: int, i: int, mask: Seq<u8>)
    requires
        l.wf(),
        l.acked_truly(buf, p),
        l.pos - 0x8000 <= p,
        l.stream.len() - l.pos <= OUTGOING_BUFFER_MAX_SIZE,
        l.pos <= i < l.stream.len() + OUTGOING_BUFFER_MAX_SIZE,
        exts_of(buf, l.a.extensions).selack == Some(mask),
        mask.len() <= MAX_MASK,
        mask_acks(mask, fields_of(buf).ack_nr.wrapping_add(2), l.number(i)),
    ensures
        l.has_got(i),
{
    let a = l.a;
    let len = l.stream.len() as int;
    let f = fields_of(buf);
    assert(f.ack_nr == be16(buf, 18));
    let base = f.ack_nr.wrapping_add(2);
    let q = l.number(i);
    let k = choose|k: int| #[trigger] mask_bit(mask, k) && bit_seq(base, k) == q;
    lemma_mod_bound(a.send.seq_nr - len + i, 0x10000);
    lemma_bit_place(l.first(), p, i, f.ack_nr as int, base as int, k, q as int);
    assert(exts_of(buf, a.extensions).selack == Some(mask) && mask_bit(mask, k));
}

/// Where in the stream bit `k` of a mask stands.
proof fn lemma_bit_place(first: int, p: int, i: int, ack: int, base: int, k: int, q: int)
    requires
        ack == (first + p - 1) % 0x10000,
        q == (first + i) % 0x10000,
        base == (ack + 2) % 0x10000,
        q == (base + k) % 0x10000,
        -0x8000 <= p + 1 + k - i + 0x1000,
        p + 1 + k - i < 0x1000,
    ensures
        i == p + 1 + k,
{
    lemma_turns(first + p - 1, ack);
    lemma_turns(first + i, q);
    lemma_turns(ack + 2, base);
    lemma_turns(base + k, q);
    assert((p + 1 + k - i) % 0x10000 == 0);
}

/// Numbers stay as the stream grows.
proof fn lemma_number_stays(l: Link, after: Link, i: int)
    requires
        grows(l.a, l.stream, after.a, after.stream),
    ensures
        after.number(i) == l.number(i),
{
    let x = l.a.send.seq_nr - l.stream.len() + i;
    let y = after.a.send.seq_nr - after.stream.len() + i;
    assert((y - x) % 0x10000 == 0);
    assert(x % 0x10000 == y % 0x10000);
}

/// A packet that was accounted for still is, whatever happens to the sender.
proof fn lemma_still_accounted(path: Path, io: IoView, e: Event, after: Link, i: int)
    requires
        path.wf(),
        e.possible(path.link.a),
        path.lets_back(e),
        after.a == happened(St { s: path.link.a, io }, e).s,
        after.b == path.link.b,
        after.pos == path.link.pos,
        grows(path.link.a, path.link.stream, after.a, after.stream),
        0 <= i < path.link.stream.len(),
    ensures
        after.accounts_for(i),
{
    let l = path.link;
    let st = St { s: l.a, io };
    lemma_number_stays(l, after, i);
    let q = l.number(i);
    assert(l.accounts_for(i));
    if !l.has_got(i) {
        match e {
            Event::Arrive(buf) => {
                let p = choose|p: int|
                    #[trigger] path.acks.contains((p, buf)) && l.pos - 0x8000 <= p;
                assert(l.acked_truly(buf, p));
                let f = fields_of(buf);
                let selack = exts_of(buf, l.a.extensions).selack;
                lemma_exts_from(buf, HEADER_SIZE as int, buf[1], None, l.a.extensions);
                if l.a.among_oldest(l.a.acks_of(f.ack_nr) as int, q) {
                    lemma_acked_is_got(l, buf, p, i);
                }
                if selack is Some && mask_acks(selack->0, f.ack_nr.wrapping_add(2), q) {
                    lemma_masked_is_got(l, buf, p, i, selack->0);
                }
                assert(!acks_number(l.a, f, selack, q));
            },
            _ => {},
        }
        lemma_retained_until_acked(st, e, q, Seq::empty());
    }
}

/// A packet that is new is accounted for.
proof fn lemma_new_accounted(path: Path, io: IoView, e: Event, after: Link, i: int)
    requires
        path.wf(),
        e.possible(path.link.a),
        path.lets_back(e),
        after.a == happened(St { s: path.link.a, io }, e).s,
        after.b == path.link.b,
        after.pos == path.link.pos,
        grows(path.link.a, path.link.stream, after.a, after.stream),
        after.stream.len() - path.link.stream.len() <= OUTGOING_BUFFER_MAX_SIZE,
        path.link.stream.len() <= i < after.stream.len(),
    ensures
        after.accounts_for(i),
{
    let l = path.link;
    let st = St { s: l.a, io };
    lemma_number_stays(l, after, i);
    let q = l.number(i);
    let len = l.stream.len() as int;
    lemma_turns(l.a.send.seq_nr - len + i, q as int);
    assert((q - l.a.send.seq_nr - (i - len)) % 0x10000 == 0);
    assert(q.wrapping_sub(l.a.send.seq_nr) == i - len);
    assert(after.a.send.seq_nr.wrapping_sub(l.a.send.seq_nr) == after.stream.len() - len);
    assert(after.a.newly_numbered(l.a, q));
    match e {
        Event::Arrive(buf) => {
            let p = choose|p: int|
                #[trigger] path.acks.contains((p, buf)) && l.pos - 0x8000 <= p;
            assert(l.acked_truly(buf, p));
            let f = fields_of(buf);
            let selack = exts_of(buf, l.a.extensions).selack;
            lemma_exts_from(buf, HEADER_SIZE as int, buf[1], None, l.a.extensions);
            if selack is Some && mask_acks(selack->0, f.ack_nr.wrapping_add(2), q) {
                lemma_masked_is_got(l, buf, p, i, selack->0);
            } else {
                lemma_numbered_is_retained(st, e, q);
            }
        },
        _ => {
            lemma_numbered_is_retained(st, e, q);
        },
    }
}

/// Not more is underway than fits the window.
proof fn lemma_underway_is_bounded(l: Link)
    requires
        l.wf(),
        l.stream.len() - l.pos <= 2 * OUTGOING_BUFFER_MAX_SIZE,
        l.pos < l.stream.len() ==> l.accounts_for(l.pos),
    ensures
        l.stream.len() - l.pos <= OUTGOING_BUFFER_MAX_SIZE,
{
    if l.pos < l.stream.len() {
        lemma_next_is_missing(l);
        let a = l.a;
        let q = l.number(l.pos);
        lemma_queue_at(
            a.outbuf,
            a.send.seq_nr,
            a.send.cur_window_packets,
            a.send.cur_window,
            q as int,
        );
        let len = l.stream.len() as int;
        lemma_turns(a.send.seq_nr - len + l.pos, q as int);
        assert((a.send.seq_nr - 1 - q - (len - 1 - l.pos)) % 0x10000 == 0);
        assert((a.send.seq_nr - 1 - q) % 0x10000 == (len - 1 - l.pos) % 0x10000);
    }
}

/// Whatever the network lets happen to the sender, every packet stays
/// accounted for.
pub proof fn lemma_sender_loses_nothing(path: Path, io: IoView, e: Event) -> (after: Path)
    requires
        path.wf(),
        e.possible(path.link.a),
        path.lets_back(e),
    ensures
        after.wf(),
        ({
            let st = happened(St { s: path.link.a, io }, e);
            &&& after.link.a == st.s
            &&& after.link.b == path.link.b
            &&& after.link.pos == path.link.pos
            &&& after.link.read == path.link.read
            &&& after.link.written == path.link.written + accepted_bytes(
                St { s: path.link.a, io },
                e,
            )
            &&& after.acks == path.acks
            &&& forall|x: (int, Seq<u8>)| #[trigger]
                path.link.wire.contains(x) ==> after.link.wire.contains(x)
            &&& forall|j: int|
                io.outgoing.len() <= j < st.io.outgoing.len() ==> {
                    let d = (#[trigger] st.io.outgoing[j]).data;
                    d[0] / 16 == ST_STATE || after.link.on_wire(d)
                }
        }),
{
    let l = path.link;
    let t = lemma_sender_event(l, io, e);
    assert forall|i: int| 0 <= i < t.stream.len() implies #[trigger] t.accounts_for(i) by {
        if i < l.stream.len() {
            lemma_still_accounted(path, io, e, t, i);
        } else {
            lemma_new_accounted(path, io, e, t, i);
        }
    }
    lemma_underway_is_bounded(t);
    assert forall|p: int, d: Seq<u8>| #[trigger] path.acks.contains((p, d)) implies t.acked_truly(
        d,
        p,
    ) by {
        assert(l.acked_truly(d, p));
        let x = l.first() + p - 1;
        let y = t.first() + p - 1;
        assert((y - x) % 0x10000 == 0);
        assert(x % 0x10000 == y % 0x10000);
        assert forall|bits: Seq<u8>, mask: Seq<u8>, i: int|
            #![trigger exts_of(d, bits), mask_bit(mask, i)]
            exts_of(d, bits).selack == Some(mask) && mask_bit(mask, i) implies t.has_got(
            p + 1 + i,
        ) by {
            assert(l.has_got(p + 1 + i));
        }
    }
    Path { link: t, ..path }
}

/// What is told of a state is true of the link.
proof fn lemma_told_is_true(l: Link, s: SockView, pos: int, d: Seq<u8>) -> (p: int)
    requires
        s.tells(d),
        0 <= pos <= l.pos,
        (s.recv.ack_nr + 1 - l.first() - pos) % 0x10000 == 0,
        got_stays(s, pos, l.b, l.pos),
    ensures
        l.acked_truly(d, p),
        p >= pos - 1,
{
    let back: int = if s.tells_back(d, 0) {
        0
    } else {
        1
    };
    let p = pos - back;
    let x = s.recv.ack_nr - back;
    let y = l.first() + p - 1;
    assert((x - y) % 0x10000 == 0);
    assert(x % 0x10000 == y % 0x10000);
    assert forall|bits: Seq<u8>, mask: Seq<u8>, i: int|
        #![trigger exts_of(d, bits), mask_bit(mask, i)]
        exts_of(d, bits).selack == Some(mask) && mask_bit(mask, i) implies l.has_got(p + 1 + i) by {
        assert(s.got_early(i + 1 - back));
        assert(s.has_got(pos, pos + (i + 1 - back)));
        assert(l.b.has_got(l.pos, pos + (i + 1 - back)));
    }
    p
}

/// Whatever the network lets happen to the receiver, every packet stays
/// accounted for, and what the receiver sends acks only what it has received.
pub proof fn lemma_receiver_loses_nothing(path: Path, io: IoView, e: Event) -> (after: Path)
    requires
        path.wf(),
        e.possible(path.link.b),
        path.link.lets(e),
    ensures
        after.wf(),
        ({
            let st = happened(St { s: path.link.b, io }, e);
            &&& after.link.b == st.s
            &&& after.link.a == path.link.a
            &&& after.link.stream == path.link.stream
            &&& after.link.written == path.link.written
            &&& after.link.wire == path.link.wire
            &&& after.link.pos >= path.link.pos
            &&& after.link.read == path.link.read + taken_bytes(path.link.b, e)
            &&& forall|x: (int, Seq<u8>)| #[trigger]
                path.acks.contains(x) ==> after.acks.contains(x)
            &&& forall|j: int|
                io.outgoing.len() <= j < st.io.outgoing.len() ==> exists|p: int|
                    p >= path.link.pos - 1 && #[trigger] after.acks.contains(
                        (p, (#[trigger] st.io.outgoing[j]).data),
                    )
        }),
{
    let l = path.link;
    let before = St { s: l.b, io };
    let st = happened(before, e);
    let t = lemma_receiver_event(l, io, e);
    let back = lemma_event_sends(before, e, path.back);
    lemma_event_speaks_true(before, e, path.back);
    assert(st.s.sends(back)) by {
        reveal(advances);
    }
    let acks = Set::new(
        |x: (int, Seq<u8>)|
            path.acks.contains(x) || (t.acked_truly(x.1, x.0) && exists|j: int|
                io.outgoing.len() <= j < st.io.outgoing.len() && (#[trigger] st.io.outgoing[j]).data
                    == x.1),
    );
    let after = Path { link: t, back, acks };
    assert forall|p: int, d: Seq<u8>| #[trigger] acks.contains((p, d)) implies t.acked_truly(
        d,
        p,
    ) by {
        if path.acks.contains((p, d)) {
            assert(l.acked_truly(d, p));
            assert forall|bits: Seq<u8>, mask: Seq<u8>, i: int|
                #![trigger exts_of(d, bits), mask_bit(mask, i)]
                exts_of(d, bits).selack == Some(mask) && mask_bit(mask, i) implies t.has_got(
                p + 1 + i,
            ) by {
                assert(l.has_got(p + 1 + i));
                assert(t.b.has_got(t.pos, p + 1 + i));
            }
        }
    }
    assert forall|i: int| 0 <= i < t.stream.len() implies #[trigger] t.accounts_for(i) by {
        assert(l.accounts_for(i));
        if l.has_got(i) {
            assert(t.b.has_got(t.pos, i));
        }
    }
    assert forall|j: int| io.outgoing.len() <= j < st.io.outgoing.len() implies exists|p: int|
        p >= l.pos - 1 && #[trigger] acks.contains((p, (#[trigger] st.io.outgoing[j]).data)) by {
        let d = st.io.outgoing[j].data;
        let p = if l.b.tells(d) {
            lemma_told_is_true(t, l.b, l.pos, d)
        } else {
            assert(st.s.tells(d));
            assert(got_stays(t.b, t.pos, t.b, t.pos));
            lemma_told_is_true(t, t.b, t.pos, d)
        };
        assert(acks.contains((p, d)));
    }
    assert forall|x: (int, Seq<u8>)| #[trigger] path.acks.contains(x) implies after.acks.contains(
        x,
    ) by {}
    after
}

/// Once the sender's queue is empty, all that was written has arrived: the
/// receiver has handed it up, or has it waiting to be read, unless its user
/// does not read any more.
pub proof fn lemma_empty_queue_means_arrived(path: Path)
    requires
        path.wf(),
        path.link.a.send.cur_window_packets == 0,
    ensures
        path.link.pos == path.link.stream.len(),
        !path.link.b.recv.read_shutdown ==> path.link.read + path.link.b.user.read_buf
            == path.link.written,
{
    let l = path.link;
    let a = l.a;
    lemma_flight_bound(a.outbuf, a.send.seq_nr, a.send.cur_window_packets, a.send.cur_window);
    lemma_queue_at(
        a.outbuf,
        a.send.seq_nr,
        a.send.cur_window_packets,
        a.send.cur_window,
        a.send.seq_nr.wrapping_sub(1) as int,
    );
    assert(!a.last_open());
    if l.pos < l.stream.len() {
        lemma_next_is_missing(l);
        assert(l.accounts_for(l.pos));
        lemma_queue_at(
            a.outbuf,
            a.send.seq_nr,
            a.send.cur_window_packets,
            a.send.cur_window,
            l.number(l.pos) as int,
        );
    }
    assert(l.sent() == l.stream);
    assert(l.stream.take(l.pos) =~= l.stream);
}

/// A connection starts out with every packet accounted for, in the direction
/// from the one who dials.
pub proof fn lemma_dialled_loses_nothing(
    from: Origin,
    io: IoView,
    seq_nr: u16,
    to: Origin,
    own_nr: u16,
)
    ensures
        (Path {
            link: Link {
                a: packet_sent(St { s: from.socket().dialling(seq_nr, from.now), io }, seq_nr).s,
                stream: seq![Seq::<u8>::empty()],
                written: Seq::empty(),
                wire: Set::empty(),
                b: to.socket().answering(seq_nr, own_nr),
                pos: 1,
                read: Seq::empty(),
            },
            back: Seq::empty(),
            acks: Set::empty(),
        }).wf(),
{
    lemma_starts_dialled(from, io, seq_nr, to, own_nr);
    let b = to.socket().answering(seq_nr, own_nr);
    assert(b.sends(Seq::empty())) by {
        reveal(carries);
    }
}

/// The same in the other direction.
pub proof fn lemma_answered_loses_nothing(
    from: Origin,
    syn_nr: u16,
    own_nr: u16,
    dialler: SockView,
    stream: Seq<Seq<u8>>,
    io: IoView,
    buf: Seq<u8>,
) -> (path: Path)
    requires
        dialler.wf(),
        dialler.sends(stream),
        dialler.state == ConnState::SynSent,
        dialler.user.read_buf.len() == 0,
        !dialler.recv.got_fin,
        buf.len() >= HEADER_SIZE,
        buf[0] / 16 == ST_STATE,
        be16(buf, 16) == own_nr,
        arrived(St { s: dialler, io }, buf, false).1.s.state != ConnState::SynSent,
    ensures
        path.wf(),
        path.link.a == from.socket().answering(syn_nr, own_nr),
        path.link.b == arrived(St { s: dialler, io }, buf, false).1.s,
        path.link.stream == Seq::<Seq<u8>>::empty(),
        path.link.read == Seq::<u8>::empty(),
{
    lemma_starts_answered(from, syn_nr, own_nr, dialler, io, buf);
    let st = St { s: dialler, io };
    let back = lemma_arrival_advances(st, buf, false, stream);
    reveal(advances);
    Path {
        link: Link {
            a: from.socket().answering(syn_nr, own_nr),
            stream: Seq::empty(),
            written: Seq::empty(),
            wire: Set::empty(),
            b: arrived(st, buf, false).1.s,
            pos: 0,
            read: Seq::empty(),
        },
        back,
        acks: Set::empty(),
    }
}

} // verus!

//! Two sockets and a network between them that may lose, repeat and reorder
//! what is sent: what the one side writes is what the other side reads.

use crate::clock::Now;
use crate::engine::create::{empty_ring, lemma_answering, lemma_dialling, Options};
use crate::engine::deliver::lemma_none_counted;
use crate::engine::delivery::{
    buffered, comes_as, got_stays, holds, lemma_arrival_receives, lemma_joined_next,
    lemma_receives_longer, lemma_same_received, lemma_state_receives, same_received,
};
use crate::engine::extensions::{exts_of, lemma_exts_from};
use crate::engine::incoming::{arrived, lemma_arrived, lemma_heard_from};
use crate::engine::measure::fields_of;
use crate::engine::model::{ack_sent, packet_sent, zeros, St};
use crate::engine::queue::lemma_queue_at;
use crate::engine::state::{
    reorder_wf, ConnState, IoView, Peer, RecvSide, SendSide, SockView, OUTGOING_BUFFER_MAX_SIZE,
};
use crate::engine::stream::{
    advances, carries, grows, joined, lemma_ack_advances, lemma_closing_advances,
    lemma_has_sent_stays, lemma_joined_push, lemma_packet_advances, lemma_same_advances,
    lemma_written_advances,
};
use crate::engine::stream_steps::{
    lemma_arrival_advances, lemma_drained_advances, lemma_few_packets, lemma_timeouts_advance,
};
use crate::engine::timers::{lemma_timeouts_checked, timeouts_checked};
use crate::engine::transmit::{lemma_oldest_stays, lemma_packet_sent};
use crate::engine::write::{
    closing, drained, lemma_ack_sent, lemma_closing, lemma_drained, lemma_packet_written,
    lemma_written, written,
};
use crate::packet::{
    be16, lemma_be16_round_trip, put_be16, put_be32, version_type_byte, HEADER_SIZE, ST_FIN,
    ST_STATE, ST_SYN,
};
use vstd::prelude::*;

verus! {

/// What can happen to a socket.
pub enum Event {
    /// the user writes
    Write(Seq<u8>),
    /// the user takes bytes that wait to be read
    Read(int),
    /// the user has taken all
    Drained,
    /// the user closes the connection
    Close,
    /// the timers are looked at
    Tick,
    /// an ack that was owed is sent
    Ack,
    /// a packet arrives
    Arrive(Seq<u8>),
    /// a RST arrives
    Reset,
}

impl Event {
    pub open spec fn possible(self, s: SockView) -> bool {
        match self {
            Event::Read(n) => 0 <= n <= s.user.read_buf.len(),
            Event::Arrive(buf) => buf.len() >= HEADER_SIZE,
            _ => true,
        }
    }
}

/// The socket, and what the sockets share, once `e` has happened.
pub open spec fn happened(st: St, e: Event) -> St {
    match e {
        Event::Write(data) => written(st, data).1,
        Event::Read(n) => St { s: SockView { user: st.s.user.without_read(n), ..st.s }, ..st },
        Event::Drained => drained(st),
        Event::Close => closing(st),
        Event::Tick => timeouts_checked(st),
        Event::Ack => ack_sent(st),
        Event::Arrive(buf) => arrived(st, buf, false).1,
        Event::Reset => St { s: st.s.reset(), ..st },
    }
}

/// The bytes that the user gets rid of by `e`.
pub open spec fn accepted_bytes(st: St, e: Event) -> Seq<u8> {
    match e {
        Event::Write(data) => data.take(written(st, data).0),
        _ => Seq::empty(),
    }
}

/// The bytes that the user gets by `e`.
pub open spec fn taken_bytes(s: SockView, e: Event) -> Seq<u8> {
    match e {
        Event::Read(n) => s.user.read_buf.take(n),
        _ => Seq::empty(),
    }
}

/// Whatever happens to a socket, it stays in order.
pub proof fn lemma_event_keeps_order(st: St, e: Event)
    requires
        st.s.wf(),
        e.possible(st.s),
    ensures
        happened(st, e).s.wf(),
{
    match e {
        Event::Write(data) => lemma_written(st, data),
        Event::Read(n) => {},
        Event::Drained => lemma_drained(st),
        Event::Close => lemma_closing(st),
        Event::Tick => lemma_timeouts_checked(st),
        Event::Ack => lemma_ack_sent(st),
        Event::Arrive(buf) => lemma_arrived(st, buf, false),
        Event::Reset => {},
    }
}

/// Whatever happens to a socket, its stream is what its user has written, and
/// all that it sends is packets of that stream or carries no data.
pub proof fn lemma_event_sends(st: St, e: Event, stream: Seq<Seq<u8>>) -> (t: Seq<Seq<u8>>)
    requires
        st.s.wf(),
        e.possible(st.s),
        st.s.sends(stream),
    ensures
        advances(st, stream, happened(st, e), t),
        joined(t) == joined(stream) + accepted_bytes(st, e),
        t.len() - stream.len() <= OUTGOING_BUFFER_MAX_SIZE,
{
    let none = Seq::<u8>::empty();
    assert(joined(stream) + none =~= joined(stream));
    lemma_queue_at(
        st.s.outbuf,
        st.s.send.seq_nr,
        st.s.send.cur_window_packets,
        st.s.send.cur_window,
        0,
    );
    lemma_event_keeps_order(st, e);
    lemma_few_packets(happened(st, e).s);
    match e {
        Event::Write(data) => lemma_written_advances(st, data, stream),
        Event::Read(n) => {
            lemma_same_advances(st, happened(st, e), stream);
            stream
        },
        Event::Drained => {
            lemma_drained_advances(st, stream);
            stream
        },
        Event::Close => lemma_closing_advances(st, stream),
        Event::Tick => {
            lemma_timeouts_advance(st, stream);
            stream
        },
        Event::Ack => {
            lemma_ack_advances(st, stream);
            stream
        },
        Event::Arrive(buf) => lemma_arrival_advances(st, buf, false, stream),
        Event::Reset => {
            lemma_same_advances(st, happened(st, e), stream);
            stream
        },
    }
}

/// What a socket has received is left alone by all but reading and what
/// arrives.
pub proof fn lemma_event_receives_nothing(st: St, e: Event)
    requires
        st.s.wf(),
        !(e is Arrive),
        !(e is Read),
    ensures
        same_received(st.s, happened(st, e).s),
        st.s.state != ConnState::SynSent ==> happened(st, e).s.state != ConnState::SynSent,
{
    match e {
        Event::Write(data) => lemma_written(st, data),
        Event::Drained => lemma_ack_sent(st),
        Event::Close => {
            lemma_closing_received(st);
        },
        Event::Tick => lemma_timeouts_checked(st),
        Event::Ack => lemma_ack_sent(st),
        _ => {},
    }
}

proof fn lemma_closing_received(st: St)
    requires
        st.s.wf(),
    ensures
        same_received(st.s, closing(st).s),
        st.s.state != ConnState::SynSent ==> closing(st).s.state != ConnState::SynSent,
{
    let s = st.s;
    let closed = SockView {
        recv: RecvSide { read_shutdown: true, ..s.recv },
        send: SendSide { close_requested: true, fin_sent: true, ..s.send },
        ..s
    };
    if !s.send.fin_sent {
        lemma_packet_written(St { s: closed, ..st }, ST_FIN, Seq::empty());
    }
}

/// One direction of a connection: socket `a` sends, socket `b` receives.
pub struct Link {
    pub a: SockView,
    /// the payloads of the packets that `a` has numbered
    pub stream: Seq<Seq<u8>>,
    /// what the user of `a` has written
    pub written: Seq<u8>,
    /// the datagrams that `a` has sent, with their places in the stream
    pub wire: Set<(int, Seq<u8>)>,
    pub b: SockView,
    /// how many packets of the stream `b` has taken in
    pub pos: int,
    /// what the user of `b` has read
    pub read: Seq<u8>,
}

/// The payloads that will not change any more.
pub open spec fn settled(a: SockView, stream: Seq<Seq<u8>>) -> Seq<Seq<u8>> {
    if a.last_open() && stream.len() > 0 {
        stream.drop_last()
    } else {
        stream
    }
}

impl Link {
    pub open spec fn sent(self) -> Seq<Seq<u8>> {
        settled(self.a, self.stream)
    }

    /// The number of the first packet of the stream.
    pub open spec fn first(self) -> int {
        self.a.send.seq_nr - self.stream.len()
    }

    /// Whether `d` has been sent as a packet of the stream.
    pub open spec fn on_wire(self, d: Seq<u8>) -> bool {
        exists|i: int| #[trigger] self.wire.contains((i, d))
    }

    /// What holds of a link at all times: all that is underway belongs to the
    /// stream, and all that has been taken in does.
    pub open spec fn wf(self) -> bool {
        &&& self.a.wf()
        &&& self.a.sends(self.stream)
        &&& self.written == joined(self.stream)
        &&& forall|i: int, d: Seq<u8>| #[trigger]
            self.wire.contains((i, d)) ==> self.a.has_sent(self.stream, d, i)
        &&& self.b.wf()
        &&& self.b.state != ConnState::SynSent
        &&& self.b.receives(self.first(), self.sent(), self.pos)
        &&& self.b.has_handed_up(self.sent(), self.pos, self.read)
        &&& self.b.recv.got_fin ==> self.a.send.fin_sent && !self.a.last_open()
    }

    /// Whether the network may let `e` happen to the receiver: a packet that
    /// arrives is one without data, or one that the sender has sent, not so
    /// long ago or so far ahead that its number could be taken for another.
    pub open spec fn lets(self, e: Event) -> bool {
        match e {
            Event::Arrive(buf) => buf[0] / 16 == ST_STATE || exists|i: int|
                #[trigger] self.wire.contains((i, buf)) && self.pos - 0x8000 <= i < self.pos
                    + 0x8000,
            _ => true,
        }
    }
}

/// What has settled stays as the stream grows.
proof fn lemma_settled_grows(a: SockView, s: Seq<Seq<u8>>, b: SockView, t: Seq<Seq<u8>>)
    requires
        grows(a, s, b, t),
    ensures
        settled(a, s).is_prefix_of(settled(b, t)),
        a.send.fin_sent && !a.last_open() ==> b.send.fin_sent && !b.last_open() && settled(b, t)
            == settled(a, s),
{
    let x = settled(a, s);
    let y = settled(b, t);
    if s.len() == t.len() && !a.last_open() {
        assert(t =~= s);
    }
    assert(x.len() <= y.len());
    assert forall|i: int| 0 <= i < x.len() implies x[i] == y[i] by {
        if i < s.len() - 1 {
            assert(t[i] == s[i]);
        }
    }
    assert(x =~= y.subrange(0, x.len() as int));
}

/// Where the count of numbers began is known up to whole turns.
proof fn lemma_first_turn(s: SockView, first: int, other: int, sent: Seq<Seq<u8>>, pos: int)
    requires
        s.receives(first, sent, pos),
        (other - first) % 0x10000 == 0,
    ensures
        s.receives(other, sent, pos),
{
    lemma_turn(s.recv.ack_nr + 1 - pos, first, other);
    lemma_turn(1 - sent.len(), first, other);
}

proof fn lemma_turn(a: int, x: int, y: int)
    requires
        (y - x) % 0x10000 == 0,
    ensures
        (a - x) % 0x10000 == (a - y) % 0x10000,
        (x - a) % 0x10000 == (y - a) % 0x10000,
{
}

/// What the receiver knows stays true as the stream grows.
proof fn lemma_receiver_stays(l: Link, a: SockView, t: Seq<Seq<u8>>)
    requires
        l.wf(),
        grows(l.a, l.stream, a, t),
    ensures
        l.b.receives(a.send.seq_nr - t.len(), settled(a, t), l.pos),
        l.b.has_handed_up(settled(a, t), l.pos, l.read),
{
    lemma_settled_grows(l.a, l.stream, a, t);
    lemma_receives_longer(l.b, l.first(), l.sent(), settled(a, t), l.pos);
    lemma_first_turn(l.b, l.first(), a.send.seq_nr - t.len(), settled(a, t), l.pos);
    assert(settled(a, t).take(l.pos) =~= l.sent().take(l.pos)) by {
        assert forall|i: int| 0 <= i < l.pos implies settled(a, t)[i] == l.sent()[i] by {
            assert(settled(a, t).subrange(0, l.sent().len() as int)[i] == settled(a, t)[i]);
        }
    }
}

/// Whatever happens to the sender, the link stays in order: what its user
/// writes is added to the stream, and what it sends to the wire.
pub proof fn lemma_sender_event(l: Link, io: IoView, e: Event) -> (after: Link)
    requires
        l.wf(),
        e.possible(l.a),
    ensures
        after.wf(),
        ({
            let before = St { s: l.a, io };
            let st = happened(before, e);
            &&& after.a == st.s
            &&& after.b == l.b
            &&& after.pos == l.pos
            &&& after.read == l.read
            &&& after.written == l.written + accepted_bytes(before, e)
            &&& grows(l.a, l.stream, after.a, after.stream)
            &&& after.stream.len() - l.stream.len() <= OUTGOING_BUFFER_MAX_SIZE
            &&& forall|p: (int, Seq<u8>)| #[trigger] l.wire.contains(p) ==> after.wire.contains(p)
            &&& forall|j: int|
                io.outgoing.len() <= j < st.io.outgoing.len() ==> {
                    let d = (#[trigger] st.io.outgoing[j]).data;
                    d[0] / 16 == ST_STATE || after.on_wire(d)
                }
        }),
{
    let before = St { s: l.a, io };
    let st = happened(before, e);
    lemma_event_keeps_order(before, e);
    let t = lemma_event_sends(before, e, l.stream);
    reveal(advances);
    let wire = Set::new(
        |p: (int, Seq<u8>)|
            l.wire.contains(p) || (st.s.has_sent(t, p.1, p.0) && exists|j: int|
                io.outgoing.len() <= j < st.io.outgoing.len() && (#[trigger] st.io.outgoing[j]).data
                    == p.1),
    );
    let after = Link {
        a: st.s,
        stream: t,
        written: l.written + accepted_bytes(before, e),
        wire,
        ..l
    };
    assert forall|i: int, d: Seq<u8>| #[trigger] wire.contains((i, d)) implies after.a.has_sent(
        t,
        d,
        i,
    ) by {
        if l.wire.contains((i, d)) {
            lemma_has_sent_stays(l.a, l.stream, after.a, t, d, i);
        }
    }
    assert forall|j: int| io.outgoing.len() <= j < st.io.outgoing.len() implies {
        let d = (#[trigger] st.io.outgoing[j]).data;
        d[0] / 16 == ST_STATE || after.on_wire(d)
    } by {
        let d = st.io.outgoing[j].data;
        assert(st.s.may_send(t, d));
        if d[0] / 16 != ST_STATE {
            let i = choose|i: int| st.s.has_sent(t, d, i);
            assert(after.wire.contains((i, d)));
            assert(after.on_wire(d));
        }
    }
    assert forall|p: (int, Seq<u8>)| #[trigger] l.wire.contains(p) implies after.wire.contains(
        p,
    ) by {}
    lemma_receiver_stays(l, after.a, t);
    lemma_settled_grows(l.a, l.stream, after.a, t);
    after
}

/// Whatever the network lets happen to the receiver, the link stays in order.
pub proof fn lemma_receiver_event(l: Link, io: IoView, e: Event) -> (after: Link)
    requires
        l.wf(),
        e.possible(l.b),
        l.lets(e),
    ensures
        after.wf(),
        after.b == happened(St { s: l.b, io }, e).s,
        after.a == l.a,
        after.stream == l.stream,
        after.written == l.written,
        after.wire == l.wire,
        after.pos >= l.pos,
        after.read == l.read + taken_bytes(l.b, e),
        got_stays(l.b, l.pos, after.b, after.pos),
{
    let before = St { s: l.b, io };
    let b = happened(before, e).s;
    lemma_event_keeps_order(before, e);
    assert(l.read + Seq::<u8>::empty() =~= l.read);
    match e {
        Event::Read(n) => {
            let read = l.read + l.b.user.read_buf.take(n);
            assert(read + l.b.user.read_buf.skip(n) =~= l.read + l.b.user.read_buf);
            assert forall|j: int| l.b.has_got(l.pos, j) implies #[trigger] b.has_got(
                l.pos,
                j,
            ) by {}
            Link { b, read, ..l }
        },
        Event::Arrive(buf) => {
            let i = choose|i: int|
                #[trigger] l.wire.contains((i, buf)) && l.pos - 0x8000 <= i < l.pos + 0x8000;
            if buf[0] / 16 != ST_STATE {
                lemma_sent_comes(l, buf, i);
            }
            let pos = lemma_arrival_receives(
                before,
                buf,
                l.first(),
                l.sent(),
                l.pos,
                i,
                l.read,
            );
            if buf[0] / 16 != ST_STATE {
                assert(l.a.has_sent(l.stream, buf, i));
            }
            Link { b, pos, ..l }
        },
        _ => {
            lemma_event_receives_nothing(before, e);
            lemma_same_received(l.b, b, l.first(), l.sent(), l.pos, l.read);
            Link { b, ..l }
        },
    }
}

/// A packet that was sent arrives as what it is.
proof fn lemma_sent_comes(l: Link, buf: Seq<u8>, i: int)
    requires
        l.wf(),
        l.wire.contains((i, buf)),
        l.pos - 0x8000 <= i < l.pos + 0x8000,
    ensures
        comes_as(buf, l.first(), l.sent(), l.pos, i),
{
    assert(l.a.has_sent(l.stream, buf, i));
}

proof fn lemma_joined_prefix(s: Seq<Seq<u8>>, n: int)
    requires
        0 <= n <= s.len(),
    ensures
        joined(s.take(n)).is_prefix_of(joined(s)),
    decreases s.len() - n,
{
    if n == s.len() {
        assert(s.take(n) =~= s);
        assert(joined(s) =~= joined(s).subrange(0, joined(s).len() as int));
    } else {
        lemma_joined_next(s, n);
        lemma_joined_prefix(s, n + 1);
        let x = joined(s.take(n));
        let y = joined(s.take(n + 1));
        let z = joined(s);
        assert(x =~= z.subrange(0, x.len() as int)) by {
            assert(x =~= y.subrange(0, x.len() as int));
            assert(y =~= z.subrange(0, y.len() as int));
        }
    }
}

/// What a user reads is a beginning of what the user at the other end has
/// written: the same bytes, in the same order, none missing and none twice.
/// A user who has read up to the end of the stream has read all of it.
pub proof fn lemma_reads_what_was_written(l: Link)
    requires
        l.wf(),
    ensures
        l.read.is_prefix_of(l.written),
        l.b.user.got_eof && !l.b.recv.read_shutdown && l.b.user.read_buf.len() == 0 ==> l.read
            == l.written,
{
    let sent = l.sent();
    let n = sent.len() as int;
    assert(sent.take(l.pos) =~= l.stream.take(l.pos));
    lemma_joined_prefix(l.stream, l.pos);
    let x = l.read;
    let y = l.read + l.b.user.read_buf;
    let z = joined(sent.take(l.pos));
    let w = l.written;
    assert(x =~= w.subrange(0, x.len() as int)) by {
        assert(x =~= y.subrange(0, x.len() as int));
        assert(y =~= z.subrange(0, y.len() as int));
        assert(z =~= w.subrange(0, z.len() as int));
    }
    if l.b.user.got_eof && !l.b.recv.read_shutdown && l.b.user.read_buf.len() == 0 {
        assert(l.pos == n);
        assert(sent == l.stream);
        assert(l.stream.take(l.pos) =~= l.stream);
        assert(x =~= y);
    }
}

/// Who a socket is for, and from when.
pub struct Origin {
    pub id: u64,
    pub peer: Peer,
    pub options: Options,
    pub now: Now,
}

impl Origin {
    pub open spec fn socket(self) -> SockView {
        SockView::created(self.id, self.peer, self.options, self.now)
    }
}

/// A connection starts out in order in the direction from the one who dials,
/// once its SYN is underway, to the one who answers that SYN.
pub proof fn lemma_starts_dialled(
    from: Origin,
    io: IoView,
    seq_nr: u16,
    to: Origin,
    own_nr: u16,
)
    ensures
        (Link {
            a: packet_sent(St { s: from.socket().dialling(seq_nr, from.now), io }, seq_nr).s,
            stream: seq![Seq::<u8>::empty()],
            written: Seq::empty(),
            wire: Set::empty(),
            b: to.socket().answering(seq_nr, own_nr),
            pos: 1,
            read: Seq::empty(),
        }).wf(),
{
    let dialler = from.socket().dialling(seq_nr, from.now);
    let answerer = to.socket().answering(seq_nr, own_nr);
    let st = St { s: dialler, io };
    lemma_dialling(from.id, from.peer, from.options, from.now, seq_nr);
    lemma_answering(to.id, to.peer, to.options, to.now, seq_nr, own_nr);
    let stream = seq![Seq::<u8>::empty()];
    let k = seq_nr as int % 16;
    vstd::arithmetic::div_mod::lemma_mod_bound(seq_nr as int, 16);
    let before = SockView {
        send: SendSide { seq_nr, cur_window_packets: 0, ..dialler.send },
        ..dialler
    };
    let p = before.syn_packet();
    assert(dialler.outbuf =~= empty_ring().update(k, Some(p)));
    let b0 = zeros(HEADER_SIZE as nat).update(0, version_type_byte(1, ST_SYN));
    let b1 = put_be16(b0, 2, (before.peer.conn_id_recv as u16) as int);
    let b2 = put_be32(b1, 12, (before.send.last_rcv_win as u32) as int);
    lemma_be16_round_trip(b2, 16, seq_nr);
    assert(p.data == put_be16(b2, 16, seq_nr as int));
    assert(p.seq() == seq_nr);
    assert(p.data.skip(HEADER_SIZE as int) =~= Seq::<u8>::empty());
    assert(p.data[0] / 16 == ST_SYN && p.data[1] == 0);
    assert(dialler.sends(stream)) by {
        reveal(carries);
    }
    lemma_packet_advances(st, seq_nr, stream);
    lemma_packet_sent(st, seq_nr);
    let a = packet_sent(st, seq_nr).s;
    lemma_oldest_stays(dialler, a);
    assert(a.sends(stream)) by {
        reveal(advances);
    }
    assert(!a.last_open()) by {
        lemma_queue_at(
            a.outbuf,
            a.send.seq_nr,
            a.send.cur_window_packets,
            a.send.cur_window,
            seq_nr as int,
        );
        assert(a.send.seq_nr.wrapping_sub(1) == seq_nr);
    }
    assert(joined(stream) =~= Seq::empty()) by {
        let none = Seq::<Seq<u8>>::empty();
        assert(stream =~= none.push(Seq::empty()));
        lemma_joined_push(none, Seq::empty());
    }
    assert(stream.take(1) =~= stream);
    lemma_nothing_held(answerer, 1, stream);
}

/// An empty reorder buffer holds nothing but packets of any stream.
proof fn lemma_nothing_held(s: SockView, pos: int, sent: Seq<Seq<u8>>)
    requires
        reorder_wf(s.inbuf, s.recv.ack_nr, 0, false),
    ensures
        holds(s.inbuf, s.recv.ack_nr + 1, pos, sent),
{
    reveal(holds);
    reveal(reorder_wf);
    lemma_none_counted(s.inbuf);
    assert forall|d: int| 0 <= d < s.inbuf.len() implies (#[trigger] buffered(
        s.inbuf,
        s.recv.ack_nr + 1,
        d,
    )) is None by {
        vstd::arithmetic::div_mod::lemma_mod_bound(s.recv.ack_nr + 1 + d, s.inbuf.len() as int);
    }
}

/// A connection starts out in order in the other direction, once the one who
/// dials has the answer. `buf` is that answer: it carries the number that the
/// first packet from the one who answers will have.
pub proof fn lemma_starts_answered(
    from: Origin,
    syn_nr: u16,
    own_nr: u16,
    dialler: SockView,
    io: IoView,
    buf: Seq<u8>,
)
    requires
        dialler.wf(),
        dialler.state == ConnState::SynSent,
        dialler.user.read_buf.len() == 0,
        !dialler.recv.got_fin,
        buf.len() >= HEADER_SIZE,
        buf[0] / 16 == ST_STATE,
        be16(buf, 16) == own_nr,
        arrived(St { s: dialler, io }, buf, false).1.s.state != ConnState::SynSent,
    ensures
        (Link {
            a: from.socket().answering(syn_nr, own_nr),
            stream: Seq::empty(),
            written: Seq::empty(),
            wire: Set::empty(),
            b: arrived(St { s: dialler, io }, buf, false).1.s,
            pos: 0,
            read: Seq::empty(),
        }).wf(),
{
    let a = from.socket().answering(syn_nr, own_nr);
    lemma_answering(from.id, from.peer, from.options, from.now, syn_nr, own_nr);
    let st = St { s: dialler, io };
    lemma_arrived(st, buf, false);
    reveal(arrived);
    let f = fields_of(buf);
    let e = exts_of(buf, dialler.extensions);
    let timed = IoView { current_ms: io.now.ms, ..io };
    lemma_exts_from(buf, HEADER_SIZE as int, buf[1], None, dialler.extensions);
    let s = SockView { extensions: e.bits, ..dialler };
    let h = St { s: s.heard_from(f, timed.current_ms), io: timed };
    lemma_heard_from(s, f, timed.current_ms);
    let sent = Seq::<Seq<u8>>::empty();
    lemma_nothing_held(h.s, 0, sent);
    assert(h.s.receives(own_nr as int, sent, 0));
    assert(h.s.has_handed_up(sent, 0, Seq::empty())) by {
        assert(sent.take(0) =~= sent);
        assert(h.s.user.read_buf =~= Seq::empty());
        assert(joined(sent) =~= Seq::empty());
        assert(Seq::<u8>::empty() + h.s.user.read_buf =~= Seq::empty());
    }
    lemma_state_receives(
        h,
        f,
        e.selack,
        buf.skip(e.end->0),
        own_nr as int,
        sent,
        0,
        Seq::empty(),
    );
    assert(a.sends(sent)) by {
        reveal(carries);
    }
    assert(settled(a, sent) == sent);
}

} // verus!

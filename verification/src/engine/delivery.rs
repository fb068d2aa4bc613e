//! What a socket hands to its user is the stream of its peer, in order and
//! without gaps.

use crate::circular::{
    grown_size, is_ring_size, lemma_grown_at, lemma_grown_size, lemma_ring_size_16, ring_at,
    ring_ensured, ring_put,
};
use crate::engine::deliver::{
    fin_reached, lemma_fin_reached, lemma_received_early, lemma_received_in_order,
    lemma_reorder_start, lemma_taken_up, received_early, received_in_order, reorder_mid, reordered,
};
use crate::engine::eack::MAX_MASK;
use crate::engine::extensions::{exts_of, lemma_end_fixed, lemma_exts_from, payload_of};
use crate::engine::incoming::{arrived, handled, lemma_heard_from, taken_in};
use crate::engine::measure::{fields_of, lemma_measured, Fields};
use crate::engine::model::{scheduled, St};
use crate::engine::progress::{lemma_progressed, progressed};
use crate::engine::slots::lemma_ring_size_pos;
use crate::engine::state::{
    reorder_wf, ConnState, IoView, RecvSide, SockView, REORDER_BUFFER_MAX_SIZE,
};
use crate::engine::stream::joined;
use crate::engine::timers::is_up;
use crate::packet::{be16, HEADER_SIZE, ST_FIN, ST_NUM_STATES, ST_STATE};
use vstd::arithmetic::div_mod::*;
use vstd::prelude::*;

verus! {

/// What the reorder buffer holds under the number `d` past `at`.
pub open spec fn buffered(inbuf: Seq<Option<Seq<u8>>>, at: int, d: int) -> Option<Seq<u8>> {
    ring_at(inbuf, at + d)
}

/// A reorder buffer whose next number is `at` holds nothing but packets of the
/// stream `sent`, of which `pos` have been handed up.
#[verifier::opaque]
pub open spec fn holds(
    inbuf: Seq<Option<Seq<u8>>>,
    at: int,
    pos: int,
    sent: Seq<Seq<u8>>,
) -> bool {
    forall|d: int|
        0 <= d < inbuf.len() && (#[trigger] buffered(inbuf, at, d)) is Some ==> {
            &&& pos + d < sent.len()
            &&& buffered(inbuf, at, d)->0 == sent[pos + d]
        }
}

impl SockView {
    /// The socket has taken in `pos` packets of the stream `sent`, the first of
    /// which has number `first`, and keeps only such packets for later. Once
    /// it knows of a FIN, that is the last packet of the stream; when it has
    /// come to it, it has all.
    pub open spec fn receives(self, first: int, sent: Seq<Seq<u8>>, pos: int) -> bool {
        &&& 0 <= pos <= sent.len()
        &&& (self.recv.ack_nr + 1 - first - pos) % 0x10000 == 0
        &&& holds(self.inbuf, self.recv.ack_nr + 1, pos, sent)
        &&& self.recv.got_fin ==> {
            &&& sent.len() - 0x8000 < pos
            &&& self.recv.eof_pkt == (first + sent.len() - 1) % 0x10000
        }
        &&& self.recv.got_fin_reached ==> self.recv.got_fin && pos == sent.len()
    }
}

/// `at` counts as well with a whole turn of the numbers more or less.
proof fn lemma_holds_turn(
    inbuf: Seq<Option<Seq<u8>>>,
    at: int,
    other: int,
    pos: int,
    sent: Seq<Seq<u8>>,
)
    requires
        holds(inbuf, at, pos, sent),
        at % 0x10000 == other % 0x10000,
        is_ring_size(inbuf.len() as int),
        inbuf.len() <= 0x10000,
    ensures
        holds(inbuf, other, pos, sent),
{
    reveal(holds);
    let n = inbuf.len() as int;
    lemma_ring_size_16(n);
    assert forall|d: int|
        0 <= d < n && (#[trigger] buffered(inbuf, other, d)) is Some implies {
        &&& pos + d < sent.len()
        &&& buffered(inbuf, other, d)->0 == sent[pos + d]
    } by {
        assert((at + d) % 0x10000 == (other + d) % 0x10000);
        assert((at + d) % n == ((at + d) % 0x10000) % n);
        assert((other + d) % n == ((other + d) % 0x10000) % n);
        assert(buffered(inbuf, at, d) == buffered(inbuf, other, d));
    }
}

/// With nothing left under the next number, that number is done with.
proof fn lemma_holds_next(inbuf: Seq<Option<Seq<u8>>>, at: int, pos: int, sent: Seq<Seq<u8>>)
    requires
        holds(inbuf, at, pos, sent),
        inbuf.len() > 0,
        ring_at(inbuf, at) is None,
    ensures
        holds(inbuf, at + 1, pos + 1, sent),
{
    reveal(holds);
    let n = inbuf.len() as int;
    assert forall|d: int|
        0 <= d < n && (#[trigger] buffered(inbuf, at + 1, d)) is Some implies {
        &&& pos + 1 + d < sent.len()
        &&& buffered(inbuf, at + 1, d)->0 == sent[pos + 1 + d]
    } by {
        if d == n - 1 {
            lemma_mod_add_multiples_vanish(at, n);
            assert(at + 1 + d == n + at);
        } else {
            assert(buffered(inbuf, at, d + 1) == buffered(inbuf, at + 1, d));
        }
    }
}

/// Taking the next packet out leaves the others.
proof fn lemma_holds_without(inbuf: Seq<Option<Seq<u8>>>, at: int, pos: int, sent: Seq<Seq<u8>>)
    requires
        holds(inbuf, at, pos, sent),
        inbuf.len() > 0,
    ensures
        holds(ring_put(inbuf, at, None), at, pos, sent),
        ring_at(ring_put(inbuf, at, None), at) is None,
{
    reveal(holds);
    let n = inbuf.len() as int;
    lemma_mod_bound(at, n);
    let after = ring_put(inbuf, at, None);
    assert forall|d: int|
        0 <= d < n && (#[trigger] buffered(after, at, d)) is Some implies {
        &&& pos + d < sent.len()
        &&& buffered(after, at, d)->0 == sent[pos + d]
    } by {
        lemma_mod_bound(at + d, n);
        assert(buffered(inbuf, at, d) == buffered(after, at, d));
    }
}

/// Growing the ring leaves all that is in it where it was.
proof fn lemma_holds_grown(
    inbuf: Seq<Option<Seq<u8>>>,
    at: int,
    pos: int,
    sent: Seq<Seq<u8>>,
    ahead: int,
)
    requires
        holds(inbuf, at, pos, sent),
        is_ring_size(inbuf.len() as int),
        0 <= ahead < REORDER_BUFFER_MAX_SIZE,
    ensures
        holds(ring_ensured(inbuf, at + ahead + 1, ahead + 1), at, pos, sent),
        ring_ensured(inbuf, at + ahead + 1, ahead + 1).len() > ahead + 1,
{
    reveal(holds);
    let n = inbuf.len() as int;
    let after = ring_ensured(inbuf, at + ahead + 1, ahead + 1);
    lemma_grown_size(n, ahead + 1);
    let m = after.len() as int;
    if ahead + 1 >= n {
        lemma_ring_size_pos(n);
        assert(m == grown_size(n, ahead + 1));
        assert forall|d: int|
            0 <= d < m && (#[trigger] buffered(after, at, d)) is Some implies {
            &&& pos + d < sent.len()
            &&& buffered(after, at, d)->0 == sent[pos + d]
        } by {
            lemma_grown_at(inbuf, at, m, at + d);
            assert(buffered(inbuf, at, d) == buffered(after, at, d));
        }
    }
}

/// A packet of the stream may be kept for later.
proof fn lemma_holds_more(
    inbuf: Seq<Option<Seq<u8>>>,
    at: int,
    pos: int,
    sent: Seq<Seq<u8>>,
    ahead: int,
)
    requires
        holds(inbuf, at, pos, sent),
        0 <= ahead < inbuf.len(),
        0 <= pos,
        pos + ahead < sent.len(),
    ensures
        holds(ring_put(inbuf, at + ahead, Some(sent[pos + ahead])), at, pos, sent),
{
    reveal(holds);
    let n = inbuf.len() as int;
    let after = ring_put(inbuf, at + ahead, Some(sent[pos + ahead]));
    lemma_mod_bound(at + ahead, n);
    assert forall|d: int|
        0 <= d < n && (#[trigger] buffered(after, at, d)) is Some implies {
        &&& pos + d < sent.len()
        &&& buffered(after, at, d)->0 == sent[pos + d]
    } by {
        lemma_mod_bound(at + d, n);
        if (at + d) % n == (at + ahead) % n {
            lemma_sub_mod_noop(at + d, at, n);
            lemma_sub_mod_noop(at + ahead, at, n);
            lemma_small_mod(d as nat, n as nat);
            lemma_small_mod(ahead as nat, n as nat);
        } else {
            assert(buffered(inbuf, at, d) == buffered(after, at, d));
        }
    }
}

/// A longer stream holds what a shorter one did.
pub proof fn lemma_receives_longer(
    s: SockView,
    first: int,
    a: Seq<Seq<u8>>,
    b: Seq<Seq<u8>>,
    pos: int,
)
    requires
        s.receives(first, a, pos),
        a.is_prefix_of(b),
        s.recv.got_fin ==> a.len() == b.len(),
    ensures
        s.receives(first, b, pos),
{
    reveal(holds);
    assert forall|i: int| 0 <= i < a.len() implies a[i] == #[trigger] b[i] by {
        assert(b.subrange(0, a.len() as int)[i] == b[i]);
    }
}

pub proof fn lemma_joined_next(sent: Seq<Seq<u8>>, pos: int)
    requires
        0 <= pos < sent.len(),
    ensures
        joined(sent.take(pos + 1)) == joined(sent.take(pos)) + sent[pos],
{
    assert(sent.take(pos + 1).drop_last() =~= sent.take(pos));
}

impl SockView {
    /// The user has taken the bytes `taken`, and with what waits to be read
    /// they are what the first `pos` packets of the stream carry, or the
    /// beginning of that if reading is shut down. Only the end of the stream
    /// shows as the end.
    pub open spec fn has_handed_up(self, sent: Seq<Seq<u8>>, pos: int, taken: Seq<u8>) -> bool {
        &&& (taken + self.user.read_buf).is_prefix_of(joined(sent.take(pos)))
        &&& !self.recv.read_shutdown ==> taken + self.user.read_buf == joined(sent.take(pos))
        &&& self.user.got_eof ==> self.recv.got_fin_reached
    }
}

/// The next packet of the stream is handed up.
proof fn lemma_handed_up(s: SockView, sent: Seq<Seq<u8>>, pos: int, taken: Seq<u8>)
    requires
        0 <= pos < sent.len(),
        s.has_handed_up(sent, pos, taken),
    ensures
        s.handed_up(sent[pos]).has_handed_up(sent, pos + 1, taken),
{
    lemma_joined_next(sent, pos);
    let data = sent[pos];
    let before = joined(sent.take(pos));
    let all = taken + s.user.read_buf;
    if data.len() > 0 && !s.recv.read_shutdown {
        assert(taken + (s.user.read_buf + data) =~= all + data);
    } else {
        assert(all =~= (before + data).subrange(0, all.len() as int)) by {
            assert(all =~= before.subrange(0, all.len() as int));
        }
        if data.len() == 0 {
            assert(before + data =~= before);
        }
    }
    let after = s.handed_up(data);
    assert((taken + after.user.read_buf).is_prefix_of(before + data));
}

impl SockView {
    /// Whether the socket, which has taken in `pos` packets of a stream, has
    /// received packet `j` of it.
    pub open spec fn has_got(self, pos: int, j: int) -> bool {
        j < pos || (0 <= j - pos < self.inbuf.len() && buffered(
            self.inbuf,
            self.recv.ack_nr + 1,
            j - pos,
        ) is Some)
    }
}

/// Whether `b`, at `q`, has received all that `a`, at `pos`, has.
pub open spec fn got_stays(a: SockView, pos: int, b: SockView, q: int) -> bool {
    forall|j: int| a.has_got(pos, j) ==> #[trigger] b.has_got(q, j)
}

proof fn lemma_got_trans(a: SockView, x: int, b: SockView, y: int, c: SockView, z: int)
    requires
        got_stays(a, x, b, y),
        got_stays(b, y, c, z),
    ensures
        got_stays(a, x, c, z),
{
    assert forall|j: int| a.has_got(x, j) implies #[trigger] c.has_got(z, j) by {
        assert(b.has_got(y, j));
    }
}

/// The packet that is next leaves the buffer, if it is in it, and is done
/// with.
proof fn lemma_got_next(s: SockView, inbuf: Seq<Option<Seq<u8>>>, pos: int)
    requires
        s.recv_mid(),
        inbuf == s.inbuf || inbuf == ring_put(s.inbuf, s.recv.ack_nr + 1, None),
    ensures
        got_stays(s, pos, SockView { inbuf, ..s }.advanced(), pos + 1),
{
    reveal(reorder_mid);
    let t = SockView { inbuf, ..s }.advanced();
    let at = s.recv.ack_nr + 1;
    let n = s.inbuf.len() as int;
    lemma_ring_size_16(n);
    assert forall|j: int| s.has_got(pos, j) implies #[trigger] t.has_got(pos + 1, j) by {
        if j > pos {
            let d = j - pos;
            lemma_mod_bound(at, n);
            lemma_mod_bound(at + d, n);
            if (at + d) % n == at % n {
                lemma_sub_mod_noop(at + d, at, n);
                lemma_small_mod(d as nat, n as nat);
                lemma_small_mod(0, n as nat);
            }
            let other = t.recv.ack_nr + 1;
            assert((at + d) % 0x10000 == (other + d - 1) % 0x10000);
            assert((at + d) % n == ((at + d) % 0x10000) % n);
            assert((other + d - 1) % n == ((other + d - 1) % 0x10000) % n);
            assert(buffered(t.inbuf, other, d - 1) == buffered(s.inbuf, at, d));
        }
    }
}

/// The number that was next is done with.
proof fn lemma_receives_next(s: SockView, first: int, sent: Seq<Seq<u8>>, pos: int)
    requires
        s.receives(first, sent, pos),
        s.recv_mid(),
        pos < sent.len(),
        ring_at(s.inbuf, s.recv.ack_nr + 1) is None,
    ensures
        s.advanced().receives(first, sent, pos + 1),
{
    reveal(reorder_mid);
    let at = s.recv.ack_nr + 1;
    let after = s.recv.ack_nr.wrapping_add(1);
    lemma_holds_next(s.inbuf, at, pos, sent);
    assert((at + 1) % 0x10000 == (after + 1) % 0x10000);
    lemma_holds_turn(s.inbuf, at + 1, after + 1, pos + 1, sent);
}

/// What waits in the reorder buffer is handed up in the order of the stream.
proof fn lemma_reordered_receives(
    st: St,
    first: int, sent: Seq<Seq<u8>>,
    pos: int,
    taken: Seq<u8>,
) -> (q: int)
    requires
        st.s.recv_mid(),
        st.s.receives(first, sent, pos),
        st.s.has_handed_up(sent, pos, taken),
    ensures
        pos <= q,
        reordered(st).s.receives(first, sent, q),
        reordered(st).s.has_handed_up(sent, q, taken),
        got_stays(st.s, pos, reordered(st).s, q),
    decreases st.s.recv.reorder_count,
{
    reveal(reordered);
    let f = fin_reached(st);
    lemma_fin_reached(st);
    if st.s.fin_is_next() {
        assert((sent.len() - pos) % 0x10000 == 0);
        assert(pos == sent.len());
    }
    assert(f.s.recv_mid()) by {
        reveal(reorder_mid);
    }
    assert(f.s.receives(first, sent, pos));
    assert(f.s.has_handed_up(sent, pos, taken));
    if f.s.recv.reorder_count == 0 || f.s.next_in_order() is None {
        pos
    } else {
        let at = f.s.recv.ack_nr + 1;
        let p = f.s.next_in_order()->0;
        assert(f.s.inbuf.len() > 0) by {
            reveal(reorder_mid);
        }
        assert(pos < sent.len() && p == sent[pos]) by {
            reveal(holds);
            assert(buffered(f.s.inbuf, at, 0) == Some(p));
        }
        lemma_taken_up(f.s);
        lemma_holds_without(f.s.inbuf, at, pos, sent);
        let w = SockView {
            inbuf: ring_put(f.s.inbuf, at, None),
            recv: RecvSide {
                reorder_count: (f.s.recv.reorder_count - 1) as u16,
                ..f.s.recv
            },
            ..f.s
        };
        lemma_handed_up(w, sent, pos, taken);
        let h = w.handed_up(p);
        assert(h.recv_mid()) by {
            assert(h.inbuf == f.s.taken_up().inbuf);
            assert(h.recv.reorder_count == f.s.taken_up().recv.reorder_count);
            assert(h.recv.got_fin_reached == f.s.taken_up().recv.got_fin_reached);
        }
        lemma_receives_next(h, first, sent, pos);
        let next = St { s: f.s.taken_up(), ..f };
        assert(next.s == h.advanced());
        lemma_got_next(f.s, w.inbuf, pos);
        assert(got_stays(st.s, pos, next.s, pos + 1)) by {
            let x = SockView { inbuf: w.inbuf, ..f.s }.advanced();
            assert forall|j: int| st.s.has_got(pos, j) implies #[trigger] next.s.has_got(
                pos + 1,
                j,
            ) by {
                assert(f.s.has_got(pos, j));
                assert(x.has_got(pos + 1, j));
            }
        }
        let q = lemma_reordered_receives(next, first, sent, pos + 1, taken);
        lemma_got_trans(st.s, pos, next.s, pos + 1, reordered(st).s, q);
        q
    }
}

/// The packet that is next is handed up, and what it makes room for after it.
proof fn lemma_in_order_receives(
    st: St,
    first: int, sent: Seq<Seq<u8>>,
    pos: int,
    taken: Seq<u8>,
) -> (q: int)
    requires
        reorder_wf(
            st.s.inbuf,
            st.s.recv.ack_nr,
            st.s.recv.reorder_count,
            st.s.recv.got_fin_reached,
        ),
        st.s.receives(first, sent, pos),
        st.s.has_handed_up(sent, pos, taken),
        pos < sent.len(),
    ensures
        pos < q,
        received_in_order(st, sent[pos]).s.receives(first, sent, q),
        received_in_order(st, sent[pos]).s.has_handed_up(sent, q, taken),
        got_stays(st.s, pos, received_in_order(st, sent[pos]).s, q),
{
    reveal(received_in_order);
    lemma_reorder_start(st.s);
    assert(ring_at(st.s.inbuf, st.s.recv.ack_nr + 1) is None) by {
        reveal(reorder_wf);
    }
    lemma_handed_up(st.s, sent, pos, taken);
    let h = st.s.handed_up(sent[pos]);
    lemma_receives_next(h, first, sent, pos);
    let next = St { s: h.advanced(), ..st };
    lemma_got_next(h, h.inbuf, pos);
    assert(got_stays(st.s, pos, next.s, pos + 1)) by {
        assert forall|j: int| st.s.has_got(pos, j) implies #[trigger] next.s.has_got(
            pos + 1,
            j,
        ) by {
            assert(h.has_got(pos, j));
        }
    }
    let q = lemma_reordered_receives(next, first, sent, pos + 1, taken);
    let done = reordered(next);
    lemma_got_trans(st.s, pos, next.s, pos + 1, done.s, q);
    assert(got_stays(st.s, pos, scheduled(done).s, q)) by {
        assert forall|j: int| st.s.has_got(pos, j) implies #[trigger] scheduled(done).s.has_got(
            q,
            j,
        ) by {
            assert(done.s.has_got(q, j));
        }
    }
    q
}

/// Room for more leaves what was received.
proof fn lemma_got_grown(s: SockView, seq: u16, ahead: int, pos: int)
    requires
        reorder_wf(
            s.inbuf,
            s.recv.ack_nr,
            s.recv.reorder_count,
            s.recv.got_fin_reached,
        ),
        1 <= ahead < REORDER_BUFFER_MAX_SIZE,
        seq == (s.recv.ack_nr + 1 + ahead) % 0x10000,
    ensures
        got_stays(
            s,
            pos,
            SockView { inbuf: ring_ensured(s.inbuf, seq + 1, ahead + 1), ..s },
            pos,
        ),
        ring_ensured(s.inbuf, seq + 1, ahead + 1).len() > 0,
{
    reveal(reorder_wf);
    let n = s.inbuf.len() as int;
    let grown = ring_ensured(s.inbuf, seq + 1, ahead + 1);
    let m = grown.len() as int;
    let t = SockView { inbuf: grown, ..s };
    lemma_grown_size(n, ahead + 1);
    lemma_ring_size_16(n);
    lemma_ring_size_16(m);
    let at = s.recv.ack_nr + 1;
    let start = seq - ahead;
    assert forall|j: int| s.has_got(pos, j) implies #[trigger] t.has_got(pos, j) by {
        if j >= pos && ahead + 1 >= n {
            let d = j - pos;
            lemma_grown_at(s.inbuf, start, m, start + d);
            assert((at + d) % 0x10000 == (start + d) % 0x10000);
            assert((at + d) % n == ((at + d) % 0x10000) % n);
            assert((start + d) % n == ((start + d) % 0x10000) % n);
            assert((at + d) % m == ((at + d) % 0x10000) % m);
            assert((start + d) % m == ((start + d) % 0x10000) % m);
            assert(buffered(grown, at, d) == buffered(s.inbuf, at, d));
        }
    }
}

/// A packet that came early is kept for later.
proof fn lemma_early_receives(
    st: St,
    seq: u16,
    ahead: int,
    first: int, sent: Seq<Seq<u8>>,
    pos: int,
    taken: Seq<u8>,
)
    requires
        reorder_wf(
            st.s.inbuf,
            st.s.recv.ack_nr,
            st.s.recv.reorder_count,
            st.s.recv.got_fin_reached,
        ),
        st.s.receives(first, sent, pos),
        st.s.has_handed_up(sent, pos, taken),
        1 <= ahead < REORDER_BUFFER_MAX_SIZE,
        seq == (st.s.recv.ack_nr + 1 + ahead) % 0x10000,
        pos + ahead < sent.len(),
    ensures
        received_early(st, seq, ahead, sent[pos + ahead]).1.s.receives(first, sent, pos),
        received_early(st, seq, ahead, sent[pos + ahead]).1.s.has_handed_up(sent, pos, taken),
        got_stays(st.s, pos, received_early(st, seq, ahead, sent[pos + ahead]).1.s, pos),
{
    reveal(received_early);
    lemma_got_grown(st.s, seq, ahead, pos);
    let after = received_early(st, seq, ahead, sent[pos + ahead]).1.s;
    assert(got_stays(st.s, pos, after, pos)) by {
        let g = ring_ensured(st.s.inbuf, seq + 1, ahead + 1);
        let t = SockView { inbuf: g, ..st.s };
        assert forall|j: int| st.s.has_got(pos, j) implies #[trigger] after.has_got(pos, j) by {
            assert(t.has_got(pos, j));
            lemma_mod_bound(seq as int, g.len() as int);
            lemma_mod_bound(st.s.recv.ack_nr + 1 + (j - pos), g.len() as int);
        }
    }
    let s = st.s;
    let at = s.recv.ack_nr + 1;
    let start = seq - ahead;
    assert(is_ring_size(s.inbuf.len() as int) && s.inbuf.len() <= 2048) by {
        reveal(reorder_wf);
    }
    assert(start % 0x10000 == at % 0x10000);
    lemma_holds_turn(s.inbuf, at, start, pos, sent);
    lemma_holds_grown(s.inbuf, start, pos, sent, ahead);
    let grown = ring_ensured(s.inbuf, seq + 1, ahead + 1);
    lemma_grown_size(s.inbuf.len() as int, ahead + 1);
    lemma_holds_turn(grown, start, at, pos, sent);
    lemma_holds_more(grown, start, pos, sent, ahead);
    lemma_holds_turn(ring_put(grown, seq as int, Some(sent[pos + ahead])), start, at, pos, sent);
}

/// `b` has the same of what it received as `a`, or has only stopped reading.
pub open spec fn same_received(a: SockView, b: SockView) -> bool {
    &&& b.inbuf == a.inbuf
    &&& b.recv == (RecvSide { read_shutdown: b.recv.read_shutdown, ..a.recv })
    &&& a.recv.read_shutdown ==> b.recv.read_shutdown
    &&& b.user.read_buf == a.user.read_buf
    &&& b.user.got_eof == a.user.got_eof
}

pub proof fn lemma_same_received(
    a: SockView,
    b: SockView,
    first: int, sent: Seq<Seq<u8>>,
    pos: int,
    taken: Seq<u8>,
)
    requires
        same_received(a, b),
        a.receives(first, sent, pos),
        a.has_handed_up(sent, pos, taken),
    ensures
        b.receives(first, sent, pos),
        b.has_handed_up(sent, pos, taken),
        got_stays(a, pos, b, pos),
{
    assert forall|j: int| a.has_got(pos, j) implies #[trigger] b.has_got(pos, j) by {}
}

/// Whether `buf` is packet `i` of the stream `sent`, for a socket that has
/// taken in `pos` packets of it, and not so old or new that its number could be
/// taken for another. One with broken headers is any packet.
pub open spec fn comes_as(buf: Seq<u8>, first: int, sent: Seq<Seq<u8>>, pos: int, i: int) -> bool {
    &&& 0 <= i < sent.len()
    &&& pos - 0x8000 <= i < pos + 0x8000
    &&& be16(buf, 16) == (first + i) % 0x10000
    &&& payload_of(buf) is None || payload_of(buf) == Some(sent[i])
    &&& buf[0] / 16 == ST_FIN ==> i == sent.len() - 1
}

/// A packet that is within reach is where its number says.
proof fn lemma_ahead(s: SockView, buf: Seq<u8>, first: int, sent: Seq<Seq<u8>>, pos: int, i: int)
    requires
        comes_as(buf, first, sent, pos, i),
        (s.recv.ack_nr + 1 - first - pos) % 0x10000 == 0,
        buf.len() >= HEADER_SIZE,
        s.ahead(fields_of(buf).seq_nr) < REORDER_BUFFER_MAX_SIZE,
    ensures
        i == pos + s.ahead(fields_of(buf).seq_nr),
{
    let seq = fields_of(buf).seq_nr;
    assert(seq == be16(buf, 16));
    assert(s.ahead(seq) == (seq - s.recv.ack_nr - 1) % 0x10000);
    assert(s.ahead(seq) == (i - pos) % 0x10000);
}

/// A packet of the stream is taken in where it belongs.
proof fn lemma_taken_in_receives(
    st: St,
    buf: Seq<u8>,
    first: int, sent: Seq<Seq<u8>>,
    pos: int,
    i: int,
    taken: Seq<u8>,
) -> (q: int)
    requires
        st.s.recv_wf(),
        st.s.receives(first, sent, pos),
        st.s.has_handed_up(sent, pos, taken),
        buf.len() >= HEADER_SIZE,
        comes_as(buf, first, sent, pos, i),
        st.s.ahead(fields_of(buf).seq_nr) < REORDER_BUFFER_MAX_SIZE,
    ensures
        pos <= q,
        taken_in(st, fields_of(buf), sent[i]).1.s.receives(first, sent, q),
        taken_in(st, fields_of(buf), sent[i]).1.s.has_handed_up(sent, q, taken),
        got_stays(st.s, pos, taken_in(st, fields_of(buf), sent[i]).1.s, q),
        i == pos && buf[0] / 16 != ST_STATE && is_up(st.s.state) ==> pos < q,
{
    reveal(taken_in);
    let f = fields_of(buf);
    lemma_ahead(st.s, buf, first, sent, pos, i);
    let ahead = st.s.ahead(f.seq_nr);
    if f.packet_type == ST_STATE || !is_up(st.s.state) {
        pos
    } else {
        let noted = St { s: st.s.fin_noted(f), ..st };
        assert(noted.s.receives(first, sent, pos)) by {
            if f.packet_type == ST_FIN && !st.s.recv.got_fin {
                assert(f.seq_nr == (first + sent.len() - 1) % 0x10000);
            }
        }
        assert(noted.s.has_handed_up(sent, pos, taken));
        assert(got_stays(st.s, pos, noted.s, pos)) by {
            assert forall|j: int| st.s.has_got(pos, j) implies #[trigger] noted.s.has_got(
                pos,
                j,
            ) by {}
        }
        let after = taken_in(st, f, sent[i]).1.s;
        if ahead == 0 {
            let q = lemma_in_order_receives(noted, first, sent, pos, taken);
            lemma_got_trans(st.s, pos, noted.s, pos, after, q);
            q
        } else {
            assert(f.seq_nr == (st.s.recv.ack_nr + 1 + ahead) % 0x10000);
            lemma_early_receives(noted, f.seq_nr, ahead as int, first, sent, pos, taken);
            lemma_got_trans(st.s, pos, noted.s, pos, after, pos);
            pos
        }
    }
}

/// A packet without data leaves alone what was received.
pub proof fn lemma_state_receives(
    st: St,
    f: Fields,
    selack: Option<Seq<u8>>,
    data: Seq<u8>,
    first: int, sent: Seq<Seq<u8>>,
    pos: int,
    taken: Seq<u8>,
)
    requires
        st.s.wf(),
        selack is Some ==> selack->0.len() <= MAX_MASK,
        st.s.receives(first, sent, pos),
        st.s.has_handed_up(sent, pos, taken),
        f.packet_type == ST_STATE,
    ensures
        same_received(st.s, handled(st, f, selack, data).1.s),
        handled(st, f, selack, data).1.s.receives(first, sent, pos),
        handled(st, f, selack, data).1.s.has_handed_up(sent, pos, taken),
        got_stays(st.s, pos, handled(st, f, selack, data).1.s, pos),
{
    reveal(handled);
    reveal(taken_in);
    let after = handled(st, f, selack, data).1.s;
    lemma_measured(st.s, f, selack, st.io.now, st.io.current_ms);
    let m = St { s: st.s.measured(f, selack, st.io.now, st.io.current_ms), ..st };
    lemma_progressed(m, f, selack);
    assert(same_received(st.s, after));
    lemma_same_received(st.s, after, first, sent, pos, taken);
}

impl SockView {
    /// Whether nothing stands in the way of a packet that is next in order:
    /// the connection takes data, and the packet is one whose headers hold.
    pub open spec fn takes(self, buf: Seq<u8>) -> bool {
        &&& is_up(self.state)
        &&& !self.send.fin_sent
        &&& buf[0] / 16 < ST_NUM_STATES
        &&& buf[0] / 16 != ST_STATE
        &&& self.ack_plausible(fields_of(buf))
        &&& payload_of(buf) is Some
    }
}

/// A packet of the stream arrives at a socket that is past its handshake:
/// what is handed to the user stays the stream, in order and without gaps.
pub proof fn lemma_arrival_receives(
    st: St,
    buf: Seq<u8>,
    first: int, sent: Seq<Seq<u8>>,
    pos: int,
    i: int,
    taken: Seq<u8>,
) -> (q: int)
    requires
        st.s.wf(),
        st.s.state != ConnState::SynSent,
        st.s.receives(first, sent, pos),
        st.s.has_handed_up(sent, pos, taken),
        buf.len() >= HEADER_SIZE,
        buf[0] / 16 == ST_STATE || comes_as(buf, first, sent, pos, i),
    ensures
        pos <= q,
        arrived(st, buf, false).1.s.receives(first, sent, q),
        arrived(st, buf, false).1.s.has_handed_up(sent, q, taken),
        arrived(st, buf, false).1.s.state != ConnState::SynSent,
        arrived(st, buf, false).1.s.recv.got_fin ==> st.s.recv.got_fin || buf[0] / 16 == ST_FIN,
        got_stays(st.s, pos, arrived(st, buf, false).1.s, q),
        st.s.takes(buf) && i == pos ==> pos < q,
{
    reveal(arrived);
    let f = fields_of(buf);
    let e = exts_of(buf, st.s.extensions);
    let io = IoView { current_ms: st.io.now.ms, ..st.io };
    let after = arrived(st, buf, false).1.s;
    lemma_exts_from(buf, HEADER_SIZE as int, buf[1], None, st.s.extensions);
    let s = SockView { extensions: e.bits, ..st.s };
    let h = St { s: s.heard_from(f, io.current_ms), io };
    lemma_heard_from(s, f, io.current_ms);
    assert(same_received(st.s, h.s));
    lemma_same_received(st.s, h.s, first, sent, pos, taken);
    lemma_end_fixed(
        buf,
        HEADER_SIZE as int,
        buf[1],
        None,
        None,
        st.s.extensions,
        Seq::empty(),
    );
    if f.packet_type >= ST_NUM_STATES || !st.s.ack_plausible(f) || e.end is None {
        assert(same_received(st.s, after));
        lemma_same_received(st.s, after, first, sent, pos, taken);
        pos
    } else {
        let data = buf.skip(e.end->0);
        lemma_handled_state(h, f, e.selack, data);
        if f.packet_type == ST_STATE {
            lemma_state_receives(h, f, e.selack, data, first, sent, pos, taken);
            lemma_got_trans(st.s, pos, h.s, pos, after, pos);
            pos
        } else {
            assert(data == sent[i]);
            let q = lemma_handled_receives(h, buf, e.selack, first, sent, pos, i, taken);
            lemma_got_trans(st.s, pos, h.s, pos, after, q);
            q
        }
    }
}

proof fn lemma_handled_receives(
    st: St,
    buf: Seq<u8>,
    selack: Option<Seq<u8>>,
    first: int, sent: Seq<Seq<u8>>,
    pos: int,
    i: int,
    taken: Seq<u8>,
) -> (q: int)
    requires
        st.s.wf(),
        selack is Some ==> selack->0.len() <= MAX_MASK,
        st.s.receives(first, sent, pos),
        st.s.has_handed_up(sent, pos, taken),
        buf.len() >= HEADER_SIZE,
        comes_as(buf, first, sent, pos, i),
    ensures
        pos <= q,
        handled(st, fields_of(buf), selack, sent[i]).1.s.receives(first, sent, q),
        handled(st, fields_of(buf), selack, sent[i]).1.s.has_handed_up(sent, q, taken),
        got_stays(st.s, pos, handled(st, fields_of(buf), selack, sent[i]).1.s, q),
        i == pos && buf[0] / 16 != ST_STATE && is_up(st.s.state) && !st.s.send.fin_sent ==> pos < q,
{
    reveal(handled);
    let f = fields_of(buf);
    if st.s.ahead(f.seq_nr) >= REORDER_BUFFER_MAX_SIZE {
        let after = handled(st, f, selack, sent[i]).1.s;
        assert(same_received(st.s, after));
        lemma_same_received(st.s, after, first, sent, pos, taken);
        pos
    } else {
        lemma_measured(st.s, f, selack, st.io.now, st.io.current_ms);
        let m = St { s: st.s.measured(f, selack, st.io.now, st.io.current_ms), ..st };
        lemma_progressed(m, f, selack);
        let p = progressed(m, f, selack);
        assert(same_received(st.s, p.s));
        lemma_same_received(st.s, p.s, first, sent, pos, taken);
        let q = lemma_taken_in_receives(p, buf, first, sent, pos, i, taken);
        lemma_got_trans(st.s, pos, p.s, pos, handled(st, f, selack, sent[i]).1.s, q);
        q
    }
}

/// A connection past its handshake does not go back to it, and only a FIN is
/// taken for one.
pub proof fn lemma_handled_state(st: St, f: Fields, selack: Option<Seq<u8>>, data: Seq<u8>)
    requires
        st.s.wf(),
        selack is Some ==> selack->0.len() <= MAX_MASK,
        st.s.state != ConnState::SynSent,
    ensures
        handled(st, f, selack, data).1.s.state != ConnState::SynSent,
        handled(st, f, selack, data).1.s.recv.got_fin ==> st.s.recv.got_fin || f.packet_type
            == ST_FIN,
{
    reveal(handled);
    reveal(taken_in);
    if st.s.ahead(f.seq_nr) < REORDER_BUFFER_MAX_SIZE {
        lemma_measured(st.s, f, selack, st.io.now, st.io.current_ms);
        let m = St { s: st.s.measured(f, selack, st.io.now, st.io.current_ms), ..st };
        lemma_progressed(m, f, selack);
        let p = progressed(m, f, selack);
        let noted = St { s: p.s.fin_noted(f), ..p };
        lemma_received_in_order(noted, data);
        let ahead = p.s.ahead(f.seq_nr);
        if ahead > 0 {
            lemma_received_early(noted, f.seq_nr, ahead as int, data);
        }
    }
}

} // verus!

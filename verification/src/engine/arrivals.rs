//! Data packets that arrive in any order, some of them more than once: what
//! the user gets is their payloads in the order of their numbers.

use crate::clock::Now;
use crate::engine::deliver::{lemma_none_counted, lemma_received_early, lemma_received_in_order};
use crate::engine::delivery::{buffered, comes_as, holds, lemma_arrival_receives};
use crate::engine::extensions::{exts_of, lemma_exts_from, payload_of};
use crate::engine::incoming::{arrived, handled, lemma_arrived, lemma_heard_from, taken_in};
use crate::engine::measure::{fields_of, lemma_measured};
use crate::engine::model::St;
use crate::engine::progress::{lemma_progressed, progressed};
use crate::engine::state::{reorder_wf, IoView, SockView, REORDER_BUFFER_MAX_SIZE};
use crate::engine::stream::joined;
use crate::engine::timers::is_up;
use crate::packet::{be16, HEADER_SIZE, ST_DATA};
use vstd::arithmetic::div_mod::*;
use vstd::prelude::*;

verus! {

/// The packets arrive one after the other, each at its time.
pub open spec fn all_arrived(st: St, packets: Seq<(Now, Seq<u8>)>) -> St
    decreases packets.len(),
{
    if packets.len() == 0 {
        st
    } else {
        let before = all_arrived(st, packets.drop_last());
        let (now, buf) = packets.last();
        arrived(St { io: IoView { now, ..before.io }, ..before }, buf, false).1
    }
}

/// Whether `buf` is the data packet `i` numbers past `start`, and carries
/// `payload(i)` behind whatever extension headers it has. Nothing can be said
/// of what a packet with broken headers carries.
pub open spec fn is_numbered(
    buf: Seq<u8>,
    start: u16,
    i: int,
    payload: spec_fn(int) -> Seq<u8>,
) -> bool {
    &&& buf.len() >= HEADER_SIZE
    &&& buf[0] / 16 == ST_DATA
    &&& be16(buf, 16) == (start + i) % 0x10000
    &&& payload_of(buf) is None || payload_of(buf) == Some(payload(i))
}

/// Whether `buf` is a data packet with the payload that belongs to its number,
/// which is within half a turn of the numbers past `start`.
pub open spec fn has_number(
    buf: Seq<u8>,
    start: u16,
    payload: spec_fn(int) -> Seq<u8>,
) -> bool {
    exists|i: int| 1 <= i < 0x8000 && #[trigger] is_numbered(buf, start, i, payload)
}

pub open spec fn all_numbered(
    packets: Seq<(Now, Seq<u8>)>,
    start: u16,
    payload: spec_fn(int) -> Seq<u8>,
) -> bool {
    forall|k: int|
        0 <= k < packets.len() ==> has_number((#[trigger] packets[k]).1, start, payload)
}

/// The payloads up to number `n`.
pub open spec fn payloads(payload: spec_fn(int) -> Seq<u8>, n: int) -> Seq<Seq<u8>> {
    Seq::new(n as nat, |k: int| payload(k + 1))
}

impl SockView {
    /// A connection that is up both ways, and on which nothing waits to be
    /// put in order or to be read.
    pub open spec fn awaits_data(self) -> bool {
        &&& self.wf()
        &&& is_up(self.state)
        &&& !self.send.fin_sent
        &&& !self.recv.read_shutdown
        &&& !self.recv.got_fin
        &&& self.recv.reorder_count == 0
        &&& self.user.read_buf.len() == 0
    }

    /// How many numbers in order the socket has come past `start`.
    pub open spec fn past(self, start: u16) -> int {
        (self.recv.ack_nr - start) % 0x10000
    }
}

/// A data packet leaves the connection up, and its ends open.
proof fn lemma_data_stays_up(st: St, buf: Seq<u8>)
    requires
        st.s.wf(),
        is_up(st.s.state),
        !st.s.send.fin_sent,
        buf.len() >= HEADER_SIZE,
    ensures
        ({
            let after = arrived(st, buf, false).1.s;
            &&& after.wf()
            &&& is_up(after.state)
            &&& !after.send.fin_sent
            &&& after.recv.read_shutdown == st.s.recv.read_shutdown
        }),
{
    lemma_arrived(st, buf, false);
    reveal(arrived);
    reveal(handled);
    reveal(taken_in);
    let f = fields_of(buf);
    let e = exts_of(buf, st.s.extensions);
    let io = IoView { current_ms: st.io.now.ms, ..st.io };
    lemma_exts_from(buf, HEADER_SIZE as int, buf[1], None, st.s.extensions);
    let s = SockView { extensions: e.bits, ..st.s };
    let h = St { s: s.heard_from(f, io.current_ms), io };
    lemma_heard_from(s, f, io.current_ms);
    if e.end is Some && h.s.ahead(f.seq_nr) < REORDER_BUFFER_MAX_SIZE {
        let data = buf.skip(e.end->0);
        lemma_measured(h.s, f, e.selack, h.io.now, h.io.current_ms);
        let m = St { s: h.s.measured(f, e.selack, h.io.now, h.io.current_ms), ..h };
        lemma_progressed(m, f, e.selack);
        let p = progressed(m, f, e.selack);
        let noted = St { s: p.s.fin_noted(f), ..p };
        lemma_received_in_order(noted, data);
        let ahead = p.s.ahead(f.seq_nr);
        if ahead > 0 {
            lemma_received_early(noted, f.seq_nr, ahead as int, data);
        }
    }
}

/// What holds while the packets arrive: `n` of them have been handed up.
spec fn in_order(st: St, after: St, payload: spec_fn(int) -> Seq<u8>, n: int) -> bool {
    let sent = payloads(payload, 0x7fff);
    &&& after.s.wf()
    &&& is_up(after.s.state)
    &&& !after.s.send.fin_sent
    &&& !after.s.recv.read_shutdown
    &&& !after.s.recv.got_fin
    &&& after.s.receives(st.s.recv.ack_nr + 1, sent, n)
    &&& after.s.has_handed_up(sent, n, Seq::empty())
    &&& n == after.s.past(st.s.recv.ack_nr)
}

proof fn lemma_in_order_at_first(st: St, payload: spec_fn(int) -> Seq<u8>)
    requires
        st.s.awaits_data(),
    ensures
        in_order(st, st, payload, 0),
{
    let s = st.s;
    let sent = payloads(payload, 0x7fff);
    assert(holds(s.inbuf, s.recv.ack_nr + 1, 0, sent)) by {
        reveal(holds);
        reveal(reorder_wf);
        lemma_none_counted(s.inbuf);
        assert forall|d: int| 0 <= d < s.inbuf.len() implies (#[trigger] buffered(
            s.inbuf,
            s.recv.ack_nr + 1,
            d,
        )) is None by {
            lemma_mod_bound(s.recv.ack_nr + 1 + d, s.inbuf.len() as int);
        }
    }
    assert(sent.take(0) =~= Seq::empty());
    assert(Seq::<u8>::empty() + s.user.read_buf =~= joined(sent.take(0)));
}

/// One more packet arrives.
proof fn lemma_one_arrives(
    st: St,
    before: St,
    buf: Seq<u8>,
    payload: spec_fn(int) -> Seq<u8>,
    m: int,
) -> (n: int)
    requires
        in_order(st, before, payload, m),
        has_number(buf, st.s.recv.ack_nr, payload),
    ensures
        in_order(st, arrived(before, buf, false).1, payload, n),
        m <= n,
        before.s.takes(buf) && is_numbered(buf, st.s.recv.ack_nr, m + 1, payload) ==> m < n,
{
    let start = st.s.recv.ack_nr;
    let sent = payloads(payload, 0x7fff);
    let i = choose|i: int| 1 <= i < 0x8000 && #[trigger] is_numbered(buf, start, i, payload);
    assert(sent[i - 1] == payload(i));
    assert(comes_as(buf, start + 1, sent, m, i - 1));
    let n = lemma_arrival_receives(before, buf, start + 1, sent, m, i - 1, Seq::empty());
    lemma_data_stays_up(before, buf);
    lemma_past(arrived(before, buf, false).1.s.recv.ack_nr as int, start as int, n);
    if is_numbered(buf, start, m + 1, payload) {
        lemma_same_number(start as int, i, m + 1);
    }
    n
}

proof fn lemma_past(ack_nr: int, start: int, n: int)
    requires
        (ack_nr + 1 - (start + 1) - n) % 0x10000 == 0,
        0 <= n < 0x10000,
    ensures
        (ack_nr - start) % 0x10000 == n,
{
}

proof fn lemma_same_number(start: int, i: int, j: int)
    requires
        (start + i) % 0x10000 == (start + j) % 0x10000,
        0 <= i < 0x10000,
        0 <= j < 0x10000,
    ensures
        i == j,
{
}

proof fn lemma_in_order(
    st: St,
    packets: Seq<(Now, Seq<u8>)>,
    payload: spec_fn(int) -> Seq<u8>,
) -> (n: int)
    requires
        st.s.awaits_data(),
        all_numbered(packets, st.s.recv.ack_nr, payload),
    ensures
        in_order(st, all_arrived(st, packets), payload, n),
        packets.len() > 0 ==> ({
            let before = all_arrived(st, packets.drop_last());
            let m = before.s.past(st.s.recv.ack_nr);
            let buf = packets.last().1;
            &&& m <= n
            &&& before.s.takes(buf) && is_numbered(buf, st.s.recv.ack_nr, m + 1, payload)
                ==> m < n
        }),
    decreases packets.len(),
{
    if packets.len() == 0 {
        lemma_in_order_at_first(st, payload);
        0
    } else {
        let front = packets.drop_last();
        assert forall|k: int| 0 <= k < front.len() implies has_number(
            (#[trigger] front[k]).1,
            st.s.recv.ack_nr,
            payload,
        ) by {
            assert(front[k] == packets[k]);
        }
        let m = lemma_in_order(st, front, payload);
        let before = all_arrived(st, front);
        let (now, buf) = packets.last();
        assert(packets.last() == packets[packets.len() - 1]);
        lemma_one_arrives(
            st,
            St { io: IoView { now, ..before.io }, ..before },
            buf,
            payload,
            m,
        )
    }
}

/// After any data packets in any order, repeats among them, the user has the
/// payloads of the first so many numbers, each once and in order: as many as
/// the socket acks. That number never goes back, and it goes on with every
/// packet that is next in order, unless its headers are broken or it acks what
/// was not sent.
pub proof fn lemma_any_order(
    st: St,
    packets: Seq<(Now, Seq<u8>)>,
    payload: spec_fn(int) -> Seq<u8>,
)
    requires
        st.s.awaits_data(),
        all_numbered(packets, st.s.recv.ack_nr, payload),
    ensures
        ({
            let start = st.s.recv.ack_nr;
            let after = all_arrived(st, packets).s;
            let n = after.past(start);
            &&& n < 0x8000
            &&& after.user.read_buf == joined(payloads(payload, n))
            &&& packets.len() > 0 ==> {
                let before = all_arrived(st, packets.drop_last()).s;
                let m = before.past(start);
                let buf = packets.last().1;
                &&& m <= n
                &&& before.takes(buf) && is_numbered(buf, start, m + 1, payload) ==> m < n
            }
        }),
{
    let n = lemma_in_order(st, packets, payload);
    let after = all_arrived(st, packets).s;
    let sent = payloads(payload, 0x7fff);
    assert(sent.take(n) =~= payloads(payload, n));
    assert(Seq::<u8>::empty() + after.user.read_buf =~= after.user.read_buf);
}

} // verus!

//! The send queue keeps its order whatever is done to it.

use crate::circular::{
    grown_size, is_ring_size, lemma_grown_at, lemma_grown_size, lemma_grown_total,
    lemma_ring_size_16, lemma_total_at_least, lemma_total_bound, lemma_total_empty,
    lemma_total_update, ring_at, ring_ensured, ring_put, slot_weight,
};
use crate::engine::state::{
    flight_weight, queue_wf, PacketView, MAX_PAYLOAD, OUTGOING_BUFFER_MAX_SIZE,
};
use vstd::arithmetic::div_mod::*;
use vstd::prelude::*;

verus! {

pub open spec fn flight_of(slot: Option<PacketView>) -> nat {
    slot_weight(slot, flight_weight())
}

/// Congruent numbers within one turn of each other are equal.
pub proof fn lemma_congruent_equal(a: int, b: int, n: int)
    requires
        0 <= a < n,
        0 <= b < n,
        a % n == b % n,
    ensures
        a == b,
{
    lemma_small_mod(a as nat, n as nat);
    lemma_small_mod(b as nat, n as nat);
}

/// The bytes in flight are bounded.
pub proof fn lemma_flight_bound(
    outbuf: Seq<Option<PacketView>>,
    seq_nr: u16,
    packets: u16,
    in_flight: usize,
)
    requires
        queue_wf(outbuf, seq_nr, packets, in_flight),
    ensures
        in_flight <= 2048 * MAX_PAYLOAD,
        packets == 0 ==> in_flight == 0,
        packets == 0 ==> forall|k: int| 0 <= k < outbuf.len() ==> outbuf[k] is None,
{
    reveal(queue_wf);
    assert forall|k: int| 0 <= k < outbuf.len() implies flight_of(#[trigger] outbuf[k])
        <= MAX_PAYLOAD by {}
    lemma_total_bound(outbuf, flight_weight(), MAX_PAYLOAD as nat);
    assert(MAX_PAYLOAD as nat * outbuf.len() <= MAX_PAYLOAD as nat * 2048) by (nonlinear_arith)
        requires
            outbuf.len() <= 2048,
    ;
    if packets == 0 {
        assert forall|k: int| 0 <= k < outbuf.len() implies outbuf[k] is None by {
            if outbuf[k] is Some {
                lemma_mod_bound(seq_nr - 1 - outbuf[k]->0.seq(), 0x10000);
            }
        }
        lemma_total_empty(outbuf, flight_weight());
    }
}

/// What holds of a packet in the queue, and of the ring it is in.
pub proof fn lemma_queue_at(
    outbuf: Seq<Option<PacketView>>,
    seq_nr: u16,
    packets: u16,
    in_flight: usize,
    i: int,
)
    requires
        queue_wf(outbuf, seq_nr, packets, in_flight),
    ensures
        16 <= outbuf.len() <= 2048,
        is_ring_size(outbuf.len() as int),
        packets <= OUTGOING_BUFFER_MAX_SIZE,
        packets <= outbuf.len(),
        0 <= i % (outbuf.len() as int) < outbuf.len(),
        ring_at(outbuf, i) is Some ==> {
            let p = ring_at(outbuf, i)->0;
            &&& p.wf()
            &&& p.seq() % (outbuf.len() as int) == i % (outbuf.len() as int)
            &&& (seq_nr - 1 - p.seq()) % 0x10000 < packets
            &&& in_flight + p.payload <= usize::MAX
            &&& p.in_flight() ==> p.payload <= in_flight
        },
{
    lemma_flight_bound(outbuf, seq_nr, packets, in_flight);
    reveal(queue_wf);
    lemma_mod_bound(i, outbuf.len() as int);
    lemma_flight_covers(outbuf, seq_nr, packets, in_flight, i);
}

/// Putting a packet in the place of one with the same number keeps the order.
pub proof fn lemma_queue_replace(
    outbuf: Seq<Option<PacketView>>,
    seq_nr: u16,
    packets: u16,
    in_flight: usize,
    i: int,
    p: PacketView,
    in_flight_after: usize,
)
    requires
        queue_wf(outbuf, seq_nr, packets, in_flight),
        ring_at(outbuf, i) is Some,
        p.wf(),
        p.seq() == ring_at(outbuf, i)->0.seq(),
        in_flight_after + flight_of(ring_at(outbuf, i)) == in_flight + flight_of(Some(p)),
    ensures
        queue_wf(ring_put(outbuf, i, Some(p)), seq_nr, packets, in_flight_after),
{
    reveal(queue_wf);
    let k = i % outbuf.len() as int;
    lemma_mod_bound(i, outbuf.len() as int);
    lemma_total_update(outbuf, flight_weight(), k, Some(p));
}

/// A packet in flight is covered by the bytes in flight.
pub proof fn lemma_flight_covers(
    outbuf: Seq<Option<PacketView>>,
    seq_nr: u16,
    packets: u16,
    in_flight: usize,
    i: int,
)
    requires
        queue_wf(outbuf, seq_nr, packets, in_flight),
    ensures
        flight_of(ring_at(outbuf, i)) <= in_flight,
{
    reveal(queue_wf);
    lemma_mod_bound(i, outbuf.len() as int);
    lemma_total_at_least(outbuf, flight_weight(), i % outbuf.len() as int);
}

/// Taking a packet out keeps the order.
pub proof fn lemma_queue_remove(
    outbuf: Seq<Option<PacketView>>,
    seq_nr: u16,
    packets: u16,
    in_flight: usize,
    i: int,
    in_flight_after: usize,
)
    requires
        queue_wf(outbuf, seq_nr, packets, in_flight),
        in_flight_after + flight_of(ring_at(outbuf, i)) == in_flight,
    ensures
        queue_wf(ring_put(outbuf, i, None), seq_nr, packets, in_flight_after),
{
    reveal(queue_wf);
    let k = i % outbuf.len() as int;
    lemma_mod_bound(i, outbuf.len() as int);
    lemma_total_update(outbuf, flight_weight(), k, None);
}

/// The window may close over an empty slot at its old end.
pub proof fn lemma_queue_shrink(
    outbuf: Seq<Option<PacketView>>,
    seq_nr: u16,
    packets: u16,
    in_flight: usize,
)
    requires
        queue_wf(outbuf, seq_nr, packets, in_flight),
        packets > 0,
        ring_at(outbuf, seq_nr.wrapping_sub(packets) as int) is None,
    ensures
        queue_wf(outbuf, seq_nr, (packets - 1) as u16, in_flight),
{
    reveal(queue_wf);
    let n = outbuf.len() as int;
    lemma_ring_size_16(n);
    assert forall|k: int| #![trigger outbuf[k]] 0 <= k < n && outbuf[k] is Some implies (seq_nr - 1
        - outbuf[k]->0.seq()) % 0x10000 < packets - 1 by {
        let q = outbuf[k]->0.seq();
        let back = (seq_nr - 1 - q) % 0x10000;
        if back == packets - 1 {
            // then q is the oldest number
            let oldest = seq_nr.wrapping_sub(packets) as int;
            assert(q == oldest);
            assert(false);
        }
    }
}

/// Turns of 0x10000 do not matter to a size that divides it.
proof fn lemma_mod_through(a: int, b: int, m: int)
    requires
        a % 0x10000 == b % 0x10000,
        0 < m,
        forall|i: int| #[trigger] ((i % 0x10000) % m) == i % m,
    ensures
        a % m == b % m,
{
    assert((a % 0x10000) % m == a % m);
    assert((b % 0x10000) % m == b % m);
}

/// A number of the window that shares the slot of the one `d` past the start
/// is that one.
proof fn lemma_window_offset(seq: int, packets: int, q: int, d: int, n: int, m: int)
    requires
        0 < n,
        0 < m,
        forall|i: int| #[trigger] ((i % 0x10000) % n) == i % n,
        forall|i: int| #[trigger] ((i % 0x10000) % m) == i % m,
        (seq - 1 - q) % 0x10000 < packets <= n,
        0 <= d < n,
        (seq - packets + d) % n == q % n,
    ensures
        (seq - packets + d) % m == q % m,
{
    let back = (seq - 1 - q) % 0x10000;
    lemma_mod_bound(seq - 1 - q, 0x10000);
    // q == seq - 1 - back, up to whole turns
    assert((seq - 1 - back) % 0x10000 == q % 0x10000) by {
        lemma_sub_mod_noop_right(seq - 1, seq - 1 - q, 0x10000);
    }
    lemma_mod_through(seq - 1 - back, q, n);
    lemma_mod_through(seq - 1 - back, q, m);
    // so it lies packets - 1 - back past the start, which is d
    let start = seq - packets;
    assert((packets - 1 - back) % n == d % n) by {
        lemma_sub_mod_noop(seq - 1 - back, start, n);
        lemma_sub_mod_noop(start + d, start, n);
    }
    lemma_congruent_equal(packets - 1 - back, d, n);
}

/// No number of a window that is smaller than the ring shares the slot of the
/// number past the window.
proof fn lemma_window_excludes(seq: int, packets: int, q: int, m: int)
    requires
        0 < m,
        forall|i: int| #[trigger] ((i % 0x10000) % m) == i % m,
        (seq - 1 - q) % 0x10000 < packets < m,
    ensures
        q % m != seq % m,
{
    let back = (seq - 1 - q) % 0x10000;
    lemma_mod_bound(seq - 1 - q, 0x10000);
    assert((seq - 1 - back) % 0x10000 == q % 0x10000) by {
        lemma_sub_mod_noop_right(seq - 1, seq - 1 - q, 0x10000);
    }
    lemma_mod_through(seq - 1 - back, q, m);
    lemma_small_mod((back + 1) as nat, m as nat);
    if q % m == seq % m {
        lemma_sub_mod_noop(seq, seq - 1 - back, m);
        lemma_small_mod(0, m as nat);
        assert((back + 1) % m == 0);
    }
}

/// A new packet may be put at the end of the window, in a ring that has grown
/// to hold it.
pub proof fn lemma_queue_append(
    outbuf: Seq<Option<PacketView>>,
    seq_nr: u16,
    packets: u16,
    in_flight: usize,
    p: PacketView,
)
    requires
        queue_wf(outbuf, seq_nr, packets, in_flight),
        packets < OUTGOING_BUFFER_MAX_SIZE,
        p.wf(),
        p.seq() == seq_nr,
        p.transmissions == 0,
    ensures
        queue_wf(
            ring_put(ring_ensured(outbuf, seq_nr as int, packets as int), seq_nr as int, Some(p)),
            seq_nr.wrapping_add(1),
            (packets + 1) as u16,
            in_flight,
        ),
        ring_at(ring_ensured(outbuf, seq_nr as int, packets as int), seq_nr as int) is None,
{
    reveal(queue_wf);
    let n = outbuf.len() as int;
    let start = seq_nr - packets;
    let grown = ring_ensured(outbuf, seq_nr as int, packets as int);
    let m = grown.len() as int;
    lemma_grown_size(n, packets as int);
    assert(m == grown_size(n, packets as int));
    lemma_ring_size_16(n);
    lemma_ring_size_16(m);
    let seq_after = seq_nr.wrapping_add(1);
    // what has a slot in the grown ring had one before, and keeps its number
    assert forall|k: int| #![trigger grown[k]] 0 <= k < m && grown[k] is Some implies {
        &&& grown[k]->0.wf()
        &&& grown[k]->0.seq() % m == k
        &&& (seq_nr - 1 - grown[k]->0.seq()) % 0x10000 < packets
    } by {
        if packets as int >= n {
            let d = (k - start) % m;
            lemma_mod_bound(k - start, m);
            let j = (start + d) % n;
            lemma_mod_bound(start + d, n);
            assert(grown[k] == outbuf[j]);
            lemma_window_offset(seq_nr as int, packets as int, outbuf[j]->0.seq(), d, n, m);
            assert((start + d) % m == k) by {
                lemma_add_mod_noop_right(start, k - start, m);
                lemma_small_mod(k as nat, m as nat);
            }
        }
    }
    lemma_mod_bound(seq_nr as int, m);
    // the slot of the new number is free
    let at = seq_nr as int % m;
    if grown[at] is Some {
        lemma_window_excludes(seq_nr as int, packets as int, grown[at]->0.seq(), m);
    }
    let put = ring_put(grown, seq_nr as int, Some(p));
    assert forall|k: int| #![trigger put[k]] 0 <= k < m && put[k] is Some implies {
        &&& put[k]->0.wf()
        &&& put[k]->0.seq() % m == k
        &&& (seq_after - 1 - put[k]->0.seq()) % 0x10000 < packets + 1
    } by {
        if k == at {
            assert(put[k] == Some(p));
        } else {
            assert(put[k] == grown[k]);
            let q = grown[k]->0.seq();
            assert((seq_nr - 1 - q) % 0x10000 < packets);
        }
    }
    if packets as int >= n {
        lemma_grown_total(outbuf, start, m, flight_weight());
    }
    lemma_total_update(grown, flight_weight(), at, Some(p));
}

/// The packets of the window stay where they were when one is put behind them.
pub proof fn lemma_append_keeps(
    outbuf: Seq<Option<PacketView>>,
    seq_nr: u16,
    packets: u16,
    in_flight: usize,
    p: PacketView,
    q: u16,
)
    requires
        queue_wf(outbuf, seq_nr, packets, in_flight),
        packets < OUTGOING_BUFFER_MAX_SIZE,
        (seq_nr - 1 - q) % 0x10000 < packets,
    ensures
        ring_at(
            ring_put(ring_ensured(outbuf, seq_nr as int, packets as int), seq_nr as int, Some(p)),
            q as int,
        ) == ring_at(outbuf, q as int),
{
    reveal(queue_wf);
    let n = outbuf.len() as int;
    let start = seq_nr - packets;
    let grown = ring_ensured(outbuf, seq_nr as int, packets as int);
    let m = grown.len() as int;
    lemma_grown_size(n, packets as int);
    lemma_ring_size_16(n);
    lemma_ring_size_16(m);
    lemma_window_excludes(seq_nr as int, packets as int, q as int, m);
    lemma_mod_bound(seq_nr as int, m);
    lemma_mod_bound(q as int, m);
    if packets as int >= n {
        let back = (seq_nr - 1 - q) % 0x10000;
        lemma_mod_bound(seq_nr - 1 - q, 0x10000);
        assert((seq_nr - 1 - back) % 0x10000 == q as int % 0x10000) by {
            lemma_sub_mod_noop_right(seq_nr - 1, seq_nr - 1 - q, 0x10000);
        }
        lemma_mod_through(seq_nr - 1 - back, q as int, n);
        lemma_mod_through(seq_nr - 1 - back, q as int, m);
        lemma_grown_at(outbuf, start, m, seq_nr - 1 - back);
    }
}

/// Different numbers of the window have different slots.
pub proof fn lemma_slots_differ(
    outbuf: Seq<Option<PacketView>>,
    seq_nr: u16,
    packets: u16,
    in_flight: usize,
    a: u16,
    b: u16,
)
    requires
        queue_wf(outbuf, seq_nr, packets, in_flight),
        (seq_nr - 1 - a) % 0x10000 < packets,
        (seq_nr - 1 - b) % 0x10000 < packets,
        a != b,
    ensures
        a as int % outbuf.len() as int != b as int % outbuf.len() as int,
{
    reveal(queue_wf);
    let n = outbuf.len() as int;
    lemma_ring_size_16(n);
    let x = (seq_nr - 1 - a) % 0x10000;
    let y = (seq_nr - 1 - b) % 0x10000;
    lemma_mod_bound(seq_nr - 1 - a, 0x10000);
    lemma_mod_bound(seq_nr - 1 - b, 0x10000);
    if a as int % n == b as int % n {
        assert(x % n == (seq_nr - 1 - a) % n);
        assert(y % n == (seq_nr - 1 - b) % n);
        lemma_sub_mod_noop_right(seq_nr - 1, a as int, n);
        lemma_sub_mod_noop_right(seq_nr - 1, b as int, n);
        lemma_congruent_equal(x, y, n);
    }
}

} // verus!

//! Rings of slots, seen through the views of what they hold.

use crate::circular::{grown_size, is_ring_size, ring_at, ring_ensured, ring_grown, ring_put};
use crate::engine::state::slot_views;
use vstd::arithmetic::div_mod::*;
use vstd::prelude::*;

verus! {

pub proof fn lemma_slot_views_at<T: View>(slots: Seq<Option<T>>, i: int)
    requires
        slots.len() > 0,
    ensures
        ring_at(slot_views(slots), i) == (match ring_at(slots, i) {
            Some(v) => Some(v@),
            None => None,
        }),
        slot_views(slots).len() == slots.len(),
{
    reveal(slot_views);
    lemma_mod_bound(i, slots.len() as int);
}

pub proof fn lemma_slot_views_put<T: View>(slots: Seq<Option<T>>, i: int, v: Option<T>)
    requires
        slots.len() > 0,
    ensures
        slot_views(ring_put(slots, i, v)) == ring_put(
            slot_views(slots),
            i,
            match v {
                Some(v) => Some(v@),
                None => None,
            },
        ),
{
    reveal(slot_views);
    lemma_mod_bound(i, slots.len() as int);
    assert(slot_views(ring_put(slots, i, v)) =~= ring_put(
        slot_views(slots),
        i,
        match v {
            Some(v) => Some(v@),
            None => None,
        },
    ));
}

pub proof fn lemma_slot_views_ensured<T: View>(slots: Seq<Option<T>>, item: int, index: int)
    requires
        slots.len() > 0,
        grown_size(slots.len() as int, index) >= 0,
    ensures
        slot_views(ring_ensured(slots, item, index)) == ring_ensured(
            slot_views(slots),
            item,
            index,
        ),
{
    reveal(slot_views);
    let m = grown_size(slots.len() as int, index);
    let start = item - index;
    let a = slot_views(ring_grown(slots, start, m));
    let b = ring_grown(slot_views(slots), start, m);
    assert forall|k: int| 0 <= k < m implies a[k] == b[k] by {
        lemma_slot_views_at(slots, start + (k - start) % m);
    }
    assert(a =~= b);
}

pub proof fn lemma_ring_put_twice<T>(slots: Seq<Option<T>>, i: int, v: Option<T>, w: Option<T>)
    requires
        slots.len() > 0,
    ensures
        ring_put(ring_put(slots, i, v), i, w) == ring_put(slots, i, w),
        ring_put(slots, i, ring_at(slots, i)) == slots,
        ring_at(ring_put(slots, i, v), i) == v,
{
    lemma_mod_bound(i, slots.len() as int);
    assert(ring_put(ring_put(slots, i, v), i, w) =~= ring_put(slots, i, w));
    assert(ring_put(slots, i, ring_at(slots, i)) =~= slots);
}

/// Every ring has a slot.
pub proof fn lemma_ring_size_pos(n: int)
    requires
        is_ring_size(n),
    ensures
        n > 0,
{
    let k = choose|k: nat| k < usize::BITS && n == #[trigger] vstd::arithmetic::power2::pow2(k);
    vstd::arithmetic::power2::lemma_pow2_pos(k);
}

} // verus!

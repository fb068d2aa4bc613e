//! A power-of-two ring indexed by (wrapping) sequence numbers. Slots hold
//! `Option<T>`; growing re-homes the live window so indices keep resolving to
//! the same entries.

use vstd::arithmetic::div_mod::*;
use vstd::arithmetic::power2::*;
use vstd::bits::*;
use vstd::prelude::*;

verus! {

/// What a ring whose slots are `slots` holds at index `i`.
pub open spec fn ring_at<T>(slots: Seq<Option<T>>, i: int) -> Option<T> {
    slots[i % slots.len() as int]
}

/// `slots` with index `i` set to `v`.
pub open spec fn ring_put<T>(slots: Seq<Option<T>>, i: int, v: Option<T>) -> Seq<Option<T>> {
    slots.update(i % slots.len() as int, v)
}

/// The sizes a ring can have.
pub open spec fn is_ring_size(n: int) -> bool {
    exists|k: nat| k < usize::BITS && n == #[trigger] pow2(k)
}

/// The size that a ring of `n` slots has once it reaches past `index`: the
/// first doubling of `n` that does.
pub open spec fn grown_size(n: int, index: int) -> int
    decreases 2 * index - n,
{
    if 0 < n <= index {
        grown_size(2 * n, index)
    } else {
        n
    }
}

/// The ring of `m` slots in which the indices `start`, `start + 1`, ... (as
/// many as `slots` has) hold what they held in `slots`, and no other index
/// holds anything.
pub open spec fn ring_grown<T>(slots: Seq<Option<T>>, start: int, m: int) -> Seq<Option<T>> {
    Seq::new(
        m as nat,
        |k: int|
            if (k - start) % m < slots.len() {
                ring_at(slots, start + (k - start) % m)
            } else {
                None
            },
    )
}

/// `ring_grown` when only the first `moved` indices of the window have moved.
spec fn rehomed<T>(slots: Seq<Option<T>>, start: int, m: int, moved: int) -> Seq<Option<T>> {
    Seq::new(
        m as nat,
        |k: int|
            if (k - start) % m < moved {
                ring_at(slots, start + (k - start) % m)
            } else {
                None
            },
    )
}

/// What is left of `slots` when the first `moved` indices from `start` on have
/// been emptied.
spec fn left_behind<T>(slots: Seq<Option<T>>, start: int, moved: int) -> Seq<Option<T>> {
    Seq::new(
        slots.len(),
        |k: int|
            if (k - start) % (slots.len() as int) < moved {
                None
            } else {
                slots[k]
            },
    )
}

/// The weight of one slot: `weight` of what it holds, nothing if it is empty.
pub open spec fn slot_weight<T>(slot: Option<T>, weight: spec_fn(T) -> nat) -> nat {
    match slot {
        Some(v) => weight(v),
        None => 0,
    }
}

/// The sum of the weights of all slots.
pub open spec fn ring_total<T>(slots: Seq<Option<T>>, weight: spec_fn(T) -> nat) -> nat
    decreases slots.len(),
{
    if slots.len() == 0 {
        0
    } else {
        ring_total(slots.drop_last(), weight) + slot_weight(slots.last(), weight)
    }
}

pub proof fn lemma_total_update<T>(
    slots: Seq<Option<T>>,
    weight: spec_fn(T) -> nat,
    k: int,
    v: Option<T>,
)
    requires
        0 <= k < slots.len(),
    ensures
        ring_total(slots.update(k, v), weight) + slot_weight(slots[k], weight) == ring_total(
            slots,
            weight,
        ) + slot_weight(v, weight),
    decreases slots.len(),
{
    let updated = slots.update(k, v);
    if k == slots.len() - 1 {
        assert(updated.drop_last() =~= slots.drop_last());
    } else {
        assert(updated.drop_last() =~= slots.drop_last().update(k, v));
        lemma_total_update(slots.drop_last(), weight, k, v);
    }
}

pub proof fn lemma_total_empty<T>(slots: Seq<Option<T>>, weight: spec_fn(T) -> nat)
    requires
        forall|k: int| 0 <= k < slots.len() ==> slots[k] is None,
    ensures
        ring_total(slots, weight) == 0,
    decreases slots.len(),
{
    if slots.len() > 0 {
        assert(slots.last() is None);
        lemma_total_empty(slots.drop_last(), weight);
    }
}

/// No slot weighs more than the whole ring.
pub proof fn lemma_total_at_least<T>(slots: Seq<Option<T>>, weight: spec_fn(T) -> nat, k: int)
    requires
        0 <= k < slots.len(),
    ensures
        slot_weight(slots[k], weight) <= ring_total(slots, weight),
{
    lemma_total_update(slots, weight, k, None);
}

/// A ring in which no slot weighs more than `most` weighs at most `most` per
/// slot.
pub proof fn lemma_total_bound<T>(slots: Seq<Option<T>>, weight: spec_fn(T) -> nat, most: nat)
    requires
        forall|k: int| 0 <= k < slots.len() ==> slot_weight(#[trigger] slots[k], weight) <= most,
    ensures
        ring_total(slots, weight) <= most * slots.len(),
    decreases slots.len(),
{
    if slots.len() > 0 {
        let front = slots.drop_last();
        assert forall|k: int| 0 <= k < front.len() implies slot_weight(
            #[trigger] front[k],
            weight,
        ) <= most by {
            assert(front[k] == slots[k]);
        }
        assert(slot_weight(slots[slots.len() - 1], weight) <= most);
        lemma_total_bound(front, weight, most);
        assert(most * slots.len() == most * front.len() + most) by (nonlinear_arith)
            requires
                slots.len() == front.len() + 1,
        ;
    } else {
        assert(most * slots.len() == 0) by (nonlinear_arith)
            requires
                slots.len() == 0,
        ;
    }
}

/// Walking `d` slots up from `start` and measuring the way back gives `d`.
proof fn lemma_ring_distance(start: int, d: int, m: int)
    requires
        0 <= d < m,
    ensures
        ((start + d) % m - start) % m == d,
{
    lemma_sub_mod_noop_right((start + d) % m, start, m);
    lemma_sub_mod_noop(start + d, start, m);
    lemma_small_mod(d as nat, m as nat);
    lemma_mod_bound(start + d, m);
}

/// A slot is where its distance from `start` leads.
proof fn lemma_ring_slot(start: int, k: int, m: int)
    requires
        0 <= k < m,
    ensures
        (start + (k - start) % m) % m == k,
        0 <= (k - start) % m < m,
{
    lemma_add_mod_noop_right(start, k - start, m);
    lemma_small_mod(k as nat, m as nat);
    lemma_mod_bound(k - start, m);
}

proof fn lemma_rehome_step<T>(slots: Seq<Option<T>>, start: int, m: int, moved: int)
    requires
        0 <= moved < slots.len() <= m,
    ensures
        rehomed(slots, start, m, moved + 1) == ring_put(
            rehomed(slots, start, m, moved),
            start + moved,
            ring_at(slots, start + moved),
        ),
        ring_at(rehomed(slots, start, m, moved), start + moved) is None,
        left_behind(slots, start, moved + 1) == ring_put(
            left_behind(slots, start, moved),
            start + moved,
            None,
        ),
        ring_at(left_behind(slots, start, moved), start + moved) == ring_at(slots, start + moved),
{
    let n = slots.len() as int;
    lemma_ring_distance(start, moved, m);
    lemma_ring_distance(start, moved, n);
    assert(0 <= (start + moved) % m < m) by { lemma_mod_bound(start + moved, m); }
    assert(0 <= (start + moved) % n < n) by { lemma_mod_bound(start + moved, n); }
    let moved_in = rehomed(slots, start, m, moved + 1);
    let put_in = ring_put(
        rehomed(slots, start, m, moved),
        start + moved,
        ring_at(slots, start + moved),
    );
    assert forall|k: int| 0 <= k < m implies moved_in[k] == put_in[k] by {
        lemma_ring_slot(start, k, m);
    }
    assert(moved_in =~= put_in);
    let moved_out = left_behind(slots, start, moved + 1);
    let put_out = ring_put(left_behind(slots, start, moved), start + moved, None);
    assert forall|k: int| 0 <= k < n implies moved_out[k] == put_out[k] by {
        lemma_ring_slot(start, k, n);
    }
    assert(moved_out =~= put_out);
}

proof fn lemma_rehome_total<T>(
    slots: Seq<Option<T>>,
    start: int,
    m: int,
    moved: int,
    weight: spec_fn(T) -> nat,
)
    requires
        0 <= moved <= slots.len() <= m,
        0 < slots.len(),
    ensures
        ring_total(rehomed(slots, start, m, moved), weight) + ring_total(
            left_behind(slots, start, moved),
            weight,
        ) == ring_total(slots, weight),
    decreases moved,
{
    let n = slots.len() as int;
    if moved == 0 {
        assert forall|k: int| 0 <= k < m implies rehomed(slots, start, m, 0)[k] is None by {
            lemma_mod_bound(k - start, m);
        }
        lemma_total_empty(rehomed(slots, start, m, 0), weight);
        assert forall|k: int| 0 <= k < n implies left_behind(slots, start, 0)[k] == slots[k] by {
            lemma_mod_bound(k - start, n);
        }
        assert(left_behind(slots, start, 0) =~= slots);
    } else {
        lemma_rehome_total(slots, start, m, moved - 1, weight);
        lemma_rehome_step(slots, start, m, moved - 1);
        lemma_mod_bound(start + moved - 1, m);
        lemma_mod_bound(start + moved - 1, n);
        lemma_total_update(
            rehomed(slots, start, m, moved - 1),
            weight,
            (start + moved - 1) % m,
            ring_at(slots, start + moved - 1),
        );
        lemma_total_update(
            left_behind(slots, start, moved - 1),
            weight,
            (start + moved - 1) % n,
            None,
        );
    }
}

/// Growing keeps the total weight of a ring.
pub proof fn lemma_grown_total<T>(
    slots: Seq<Option<T>>,
    start: int,
    m: int,
    weight: spec_fn(T) -> nat,
)
    requires
        0 < slots.len() <= m,
    ensures
        ring_total(ring_grown(slots, start, m), weight) == ring_total(slots, weight),
{
    let n = slots.len() as int;
    assert(ring_grown(slots, start, m) =~= rehomed(slots, start, m, n));
    lemma_rehome_total(slots, start, m, n, weight);
    assert forall|k: int| 0 <= k < n implies left_behind(slots, start, n)[k] is None by {
        lemma_mod_bound(k - start, n);
    }
    lemma_total_empty(left_behind(slots, start, n), weight);
}

/// Growing re-homes the live window: every index of the window that begins at
/// `start` resolves to the same entry as before, every other index of the
/// grown ring to none.
pub proof fn lemma_grown_at<T>(slots: Seq<Option<T>>, start: int, m: int, i: int)
    requires
        0 < slots.len() <= m,
        start <= i < start + m,
    ensures
        ring_at(ring_grown(slots, start, m), i) == (if i < start + slots.len() {
            ring_at(slots, i)
        } else {
            None
        }),
{
    lemma_ring_distance(start, i - start, m);
    lemma_mod_bound(i, m);
}

pub proof fn lemma_grown_size(n: int, index: int)
    requires
        is_ring_size(n),
        0 <= index <= usize::MAX / 2,
    ensures
        is_ring_size(grown_size(n, index)),
        n <= grown_size(n, index),
        index < grown_size(n, index),
        grown_size(n, index) <= n || grown_size(n, index) <= 2 * index,
    decreases 2 * index - n,
{
    let k = choose|k: nat| k < usize::BITS && n == #[trigger] pow2(k);
    lemma_pow2_pos(k);
    if n <= index {
        lemma_pow2_unfold(k + 1);
        lemma_usize_pow2_no_overflow((usize::BITS - 1) as nat);
        if k + 1 == usize::BITS {
            lemma_pow2_unfold(usize::BITS as nat);
            lemma2_to64();
            assert(pow2(usize::BITS as nat) == usize::MAX + 1) by {
                lemma2_to64();
                lemma2_to64_rest();
            }
            assert(false);
        }
        assert(is_ring_size(2 * n));
        lemma_grown_size(2 * n, index);
    }
}

/// A ring size of at most `0x10000` divides the space of 16-bit sequence
/// numbers, so that indices may be taken modulo either.
pub proof fn lemma_ring_size_16(n: int)
    requires
        is_ring_size(n),
        n <= 0x10000,
    ensures
        0 < n,
        0x10000int % n == 0,
        forall|i: int| #[trigger] ((i % 0x10000) % n) == i % n,
{
    let k = choose|k: nat| k < usize::BITS && n == #[trigger] pow2(k);
    lemma_pow2_pos(k);
    lemma2_to64();
    if k > 16 {
        lemma_pow2_strictly_increases(16, k);
    }
    lemma_pow2_adds(k, (16 - k) as nat);
    let m = pow2((16 - k) as nat) as int;
    lemma_pow2_pos((16 - k) as nat);
    lemma_mod_multiples_basic(m, n);
    assert(n * m == m * n) by (nonlinear_arith);
    assert forall|i: int| #[trigger] ((i % 0x10000) % n) == i % n by {
        lemma_mod_mod(i, n, m);
    }
}

pub struct CircularBuffer<T> {
    /// Always a power of 2 minus one; size is mask + 1.
    mask: usize,
    slots: Vec<Option<T>>,
}

impl<T> View for CircularBuffer<T> {
    type V = Seq<Option<T>>;

    closed spec fn view(&self) -> Seq<Option<T>> {
        self.slots@
    }
}

impl<T> CircularBuffer<T> {
    pub closed spec fn wf(&self) -> bool {
        &&& self.slots@.len() == self.mask + 1
        &&& is_ring_size(self.mask + 1)
    }

    fn index_of(&self, i: usize) -> (r: usize)
        requires
            self.wf(),
        ensures
            r == i as int % self@.len() as int,
            r < self@.len(),
    {
        proof {
            let k = choose|k: nat| k < usize::BITS && self.mask + 1 == #[trigger] pow2(k);
            lemma_usize_low_bits_mask_is_mod(i, k);
            lemma_pow2_pos(k);
            assert(low_bits_mask(k) == self.mask);
            assert(pow2(k) as usize == self.slots.len());
        }
        i & self.mask
    }

    pub proof fn lemma_wf_size(&self)
        requires
            self.wf(),
        ensures
            is_ring_size(self@.len() as int),
    {
    }

    pub fn new() -> (r: Self)
        ensures
            r.wf(),
            r@ == Seq::new(16, |k: int| None::<T>),
    {
        let slots = empty_slots(16);
        proof {
            lemma2_to64();
            assert(pow2(4) == 16);
            assert(is_ring_size(16));
        }
        CircularBuffer { mask: 15, slots }
    }

    pub fn size(&self) -> (r: usize)
        requires
            self.wf(),
        ensures
            r == self@.len(),
    {
        assert(self.slots.len() == self.mask + 1);
        self.mask + 1
    }

    pub fn get(&self, i: usize) -> (r: Option<&T>)
        requires
            self.wf(),
        ensures
            r == (match ring_at(self@, i as int) {
                Some(v) => Some(&v),
                None => None,
            }),
    {
        self.slots[self.index_of(i)].as_ref()
    }

    pub fn get_mut(&mut self, i: usize) -> (r: Option<&mut T>)
        requires
            old(self).wf(),
        ensures
            final(self).wf(),
            match r {
                Some(v) => {
                    &&& ring_at(old(self)@, i as int) == Some(*v)
                    &&& final(self)@ == ring_put(old(self)@, i as int, Some(*final(v)))
                },
                None => {
                    &&& ring_at(old(self)@, i as int) is None
                    &&& final(self)@ == old(self)@
                },
            },
    {
        let k: usize = self.index_of(i);
        self.slots[k].as_mut()
    }

    pub fn put(&mut self, i: usize, v: Option<T>)
        requires
            old(self).wf(),
        ensures
            final(self).wf(),
            final(self)@ == ring_put(old(self)@, i as int, v),
    {
        let k: usize = self.index_of(i);
        self.slots[k] = v;
    }

    pub fn take(&mut self, i: usize) -> (r: Option<T>)
        requires
            old(self).wf(),
        ensures
            final(self).wf(),
            r == ring_at(old(self)@, i as int),
            final(self)@ == ring_put(old(self)@, i as int, None),
    {
        let k: usize = self.index_of(i);
        self.slots[k].take()
    }

    /// `item` contains the element we want to make space for, `index` is its
    /// distance back from the start of the live window.
    pub fn ensure_size(&mut self, item: usize, index: usize)
        requires
            old(self).wf(),
            index <= usize::MAX / 2,
        ensures
            final(self).wf(),
            final(self)@ == ring_ensured(old(self)@, item as int, index as int),
    {
        if index > self.mask {
            self.grow(item, index);
        }
    }

    fn grow(&mut self, item: usize, index: usize)
        requires
            old(self).wf(),
            old(self)@.len() <= index <= usize::MAX / 2,
        ensures
            final(self).wf(),
            final(self)@ == ring_grown(
                old(self)@,
                item - index,
                grown_size(old(self)@.len() as int, index as int),
            ),
    {
        let ghost slots = self.slots@;
        let ghost n = slots.len() as int;
        let ghost start = item - index;
        let mut size: usize = self.mask + 1;
        while index >= size
            invariant
                0 < size,
                n <= size,
                is_ring_size(size as int),
                grown_size(size as int, index as int) == grown_size(n, index as int),
                index <= usize::MAX / 2,
            decreases 2 * index - size,
        {
            proof {
                lemma_grown_size(size as int, index as int);
                let k = choose|k: nat| k < usize::BITS && size == #[trigger] pow2(k);
                lemma_pow2_unfold(k + 1);
                assert(grown_size(size as int, index as int) == grown_size(2 * size, index as int));
                lemma_is_ring_size_double(size as int, index as int);
            }
            size = size * 2;
        }
        let new_mask: usize = size - 1;
        let mut new_slots: Vec<Option<T>> = empty_slots(size);
        proof {
            assert forall|k: int| 0 <= k < size implies rehomed(slots, start, size as int, 0)[k]
                is None by {
                lemma_mod_bound(k - start, size as int);
            }
            assert(new_slots@ =~= rehomed(slots, start, size as int, 0));
            assert forall|k: int| 0 <= k < n implies left_behind(slots, start, 0)[k]
                == slots[k] by {
                lemma_mod_bound(k - start, n);
            }
            assert(self.slots@ =~= left_behind(slots, start, 0));
        }
        let old_size: usize = self.mask + 1;
        let mut i: usize = 0;
        while i < old_size
            invariant
                old_size == self.mask + 1,
                old_size == n,
                n == slots.len(),
                n <= size,
                new_mask == size - 1,
                i <= old_size,
                is_ring_size(n),
                is_ring_size(size as int),
                start == item - index,
                new_slots@ == rehomed(slots, start, size as int, i as int),
                self.slots@ == left_behind(slots, start, i as int),
            decreases old_size - i,
        {
            let src: usize = item.wrapping_sub(index).wrapping_add(i);
            let from: usize = src & self.mask;
            let to: usize = src & new_mask;
            proof {
                lemma_rehome_step(slots, start, size as int, i as int);
                let w: int = if src == start + i {
                    0
                } else if src > start + i {
                    1
                } else {
                    -1
                };
                assert(src == start + i + w * (usize::MAX + 1)) by (nonlinear_arith)
                    requires
                        w == 0 && src == start + i || w == 1 && src == start + i + usize::MAX + 1
                            || w == -1 && src == start + i - (usize::MAX + 1),
                ;
                lemma_wrapped_index(src, start + i, w, self.mask);
                lemma_wrapped_index(src, start + i, w, new_mask);
            }
            new_slots[to] = self.slots[from].take();
            i += 1;
        }
        assert(ring_grown(slots, start, size as int) =~= new_slots@);
        self.mask = new_mask;
        self.slots = new_slots;
    }
}

/// The ring once it has room for index `item`, which lies `index` past the
/// start of the live window.
pub open spec fn ring_ensured<T>(slots: Seq<Option<T>>, item: int, index: int) -> Seq<Option<T>> {
    if index >= slots.len() {
        ring_grown(slots, item - index, grown_size(slots.len() as int, index))
    } else {
        slots
    }
}

fn empty_slots<T>(n: usize) -> (r: Vec<Option<T>>)
    ensures
        r@ == Seq::new(n as nat, |k: int| None::<T>),
{
    let mut slots: Vec<Option<T>> = Vec::new();
    while slots.len() < n
        invariant
            slots@ == Seq::new(slots@.len(), |k: int| None::<T>),
            slots@.len() <= n,
        decreases n - slots.len(),
    {
        slots.push(None);
    }
    slots
}

proof fn lemma_is_ring_size_double(n: int, index: int)
    requires
        is_ring_size(n),
        n <= index <= usize::MAX / 2,
    ensures
        is_ring_size(2 * n),
{
    let k = choose|k: nat| k < usize::BITS && n == #[trigger] pow2(k);
    lemma_pow2_unfold(k + 1);
    if k + 1 == usize::BITS {
        lemma2_to64();
        lemma2_to64_rest();
    }
    assert(pow2(k + 1) == 2 * n);
}

/// A machine index that stands for `i` modulo the machine word selects the
/// slot of `i`.
proof fn lemma_wrapped_index(src: usize, i: int, w: int, mask: usize)
    requires
        is_ring_size(mask + 1),
        src == i + w * (usize::MAX + 1),
    ensures
        src & mask == i % (mask + 1),
{
    let n = mask + 1;
    let k = choose|k: nat| k < usize::BITS && n == #[trigger] pow2(k);
    lemma_pow2_pos(k);
    lemma_usize_low_bits_mask_is_mod(src, k);
    lemma2_to64();
    lemma2_to64_rest();
    lemma_pow2_adds(k, (usize::BITS - k) as nat);
    let m = pow2((usize::BITS - k) as nat) as int;
    assert(low_bits_mask(k) == mask);
    assert(usize::MAX + 1 == n * m);
    assert(src == n * (w * m) + i) by (nonlinear_arith)
        requires
            src == i + w * (n * m),
    ;
    lemma_mod_multiples_vanish(w * m, i, n);
}

} // verus!

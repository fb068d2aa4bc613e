//! Small helpers shared by the engine: wrapping sequence-number comparison
//! and a self-seeding pseudo random number generator.

use crate::clock::unix_nanos;
use vstd::arithmetic::div_mod::*;
use vstd::prelude::*;

verus! {

/// The order that [`wrapping_compare_less`] decides: `lhs` comes before `rhs`
/// when, under `mask`, the walk up from `lhs` to `rhs` is shorter than the
/// walk down.
pub open spec fn wrapping_less(lhs: u32, rhs: u32, mask: u32) -> bool {
    (rhs.wrapping_sub(lhs) & mask) < (lhs.wrapping_sub(rhs) & mask)
}

/// Compare if `lhs` is less than `rhs`, taking wrapping into account. If `lhs`
/// is close to the mask and `rhs` is close to 0, `lhs` is assumed to have
/// wrapped and considered smaller.
pub fn wrapping_compare_less(lhs: u32, rhs: u32, mask: u32) -> (less: bool)
    ensures
        less == wrapping_less(lhs, rhs, mask),
{
    // distance walking from lhs to rhs, downwards
    let dist_down: u32 = lhs.wrapping_sub(rhs) & mask;
    // distance walking from lhs to rhs, upwards
    let dist_up: u32 = rhs.wrapping_sub(lhs) & mask;
    // if the distance walking up is shorter, lhs is less than rhs. If the
    // distance walking down is shorter, then rhs is less than lhs.
    dist_up < dist_down
}

/// On 16-bit sequence numbers one number comes before another exactly when it
/// is reached by walking up less than half way round.
pub proof fn lemma_wrapping_less_16(lhs: u32, rhs: u32)
    requires
        lhs <= 0xffff,
        rhs <= 0xffff,
    ensures
        wrapping_less(lhs, rhs, 0xffff) <==> 0 < (rhs - lhs) % 0x10000 < 0x8000,
{
    let down = lhs.wrapping_sub(rhs);
    let up = rhs.wrapping_sub(lhs);
    assert(down & 0xffff == down % 0x10000) by (bit_vector);
    assert(up & 0xffff == up % 0x10000) by (bit_vector);
}

/// The full 32-bit comparison, which the delay history uses on timestamps,
/// splits the circle in the same way.
pub proof fn lemma_wrapping_less_32(lhs: u32, rhs: u32)
    ensures
        wrapping_less(lhs, rhs, 0xffff_ffff) <==> 0 < (rhs - lhs) % 0x1_0000_0000 < 0x8000_0000,
{
    let down = lhs.wrapping_sub(rhs);
    let up = rhs.wrapping_sub(lhs);
    assert(down & 0xffff_ffff == down) by (bit_vector);
    assert(up & 0xffff_ffff == up) by (bit_vector);
}

/// Whatever the mask, no number comes before itself, and of two numbers at
/// most one comes before the other.
pub proof fn lemma_wrapping_less_asymmetric(lhs: u32, rhs: u32, mask: u32)
    ensures
        !wrapping_less(lhs, lhs, mask),
        wrapping_less(lhs, rhs, mask) ==> !wrapping_less(rhs, lhs, mask),
{
}

/// What a generator's state is one step later.
pub open spec fn rng_step(state: u64) -> u64 {
    state.wrapping_add(0x9e37_79b9_7f4a_7c15)
}

/// The number that a generator in state `z` gives out.
pub open spec fn rng_mix(z: u64) -> u64 {
    let a = (z ^ (z >> 30)).wrapping_mul(0xbf58_476d_1ce4_e5b9);
    let b = (a ^ (a >> 27)).wrapping_mul(0x94d0_49bb_1331_11eb);
    b ^ (b >> 31)
}

/// A generator's state after `n` steps.
pub open spec fn rng_after(state: u64, n: nat) -> u64
    decreases n,
{
    if n == 0 {
        state
    } else {
        rng_step(rng_after(state, (n - 1) as nat))
    }
}

/// The `n`-th number that a generator in state `state` gives out from now on,
/// counted from 1.
pub open spec fn rng_output(state: u64, n: nat) -> u64 {
    rng_mix(rng_after(state, n))
}

/// The seed made of a time of day and of a number that tells apart generators
/// made at the same time.
pub open spec fn rng_seed(nanos: u64, counter: u64) -> u64 {
    nanos ^ counter.wrapping_mul(0xbf58_476d_1ce4_e5b9) ^ 0x2545_f491_4f6c_dd1d
}

/// The counter for the next generator.
pub open spec fn next_counter(counter: u64) -> u64 {
    counter.wrapping_add(0x9e37_79b9_7f4a_7c15)
}

/// SplitMix64-based PRNG. Not cryptographic. Only feeds connection seeds (16
/// bits on the wire) and initial sequence numbers.
pub struct Rng(u64);

impl View for Rng {
    type V = u64;

    closed spec fn view(&self) -> u64 {
        self.0
    }
}

impl Rng {
    /// A generator seeded from the time of day and from `counter`, which is
    /// one for the whole process: it moves on, so that generators made at the
    /// same time differ.
    pub fn new(counter: &mut u64) -> (r: Rng)
        ensures
            exists|nanos: u64| r@ == #[trigger] rng_seed(nanos, *old(counter)),
            *final(counter) == next_counter(*old(counter)),
    {
        let nanos: u64 = match unix_nanos() {
            Some(n) => n,
            None => 0,
        };
        let n: u64 = *counter;
        *counter = n.wrapping_add(0x9e37_79b9_7f4a_7c15);
        Rng::seeded(nanos, n)
    }

    /// A generator seeded from a given time of day and a `counter`.
    pub fn seeded(nanos: u64, counter: u64) -> (r: Rng)
        ensures
            r@ == rng_seed(nanos, counter),
    {
        Rng(nanos ^ counter.wrapping_mul(0xbf58_476d_1ce4_e5b9) ^ 0x2545_f491_4f6c_dd1d)
    }

    pub fn next_u64(&mut self) -> (r: u64)
        ensures
            final(self)@ == rng_step(old(self)@),
            r == rng_mix(final(self)@),
    {
        self.0 = self.0.wrapping_add(0x9e37_79b9_7f4a_7c15);
        let mut z: u64 = self.0;
        z = (z ^ (z >> 30)).wrapping_mul(0xbf58_476d_1ce4_e5b9);
        z = (z ^ (z >> 27)).wrapping_mul(0x94d0_49bb_1331_11eb);
        z ^ (z >> 31)
    }

    pub fn next_u32(&mut self) -> (r: u32)
        ensures
            final(self)@ == rng_step(old(self)@),
            r == rng_mix(final(self)@) as u32,
    {
        self.next_u64() as u32
    }
}

/// Multiplying by `c` undoes multiplying by `inv` when the two are inverse
/// modulo 2^64.
proof fn lemma_wrapping_mul_inverse(x: u64, inv: u64, c: u64, q: int)
    requires
        inv * c == q * 0x1_0000_0000_0000_0000 + 1,
    ensures
        x.wrapping_mul(inv).wrapping_mul(c) == x,
{
    let r = 0x1_0000_0000_0000_0000int;
    let p = x * inv;
    lemma_mul_mod_noop_left(p, c as int, r);
    assert(p * c == r * (x * q) + x) by (nonlinear_arith)
        requires
            p == x * inv,
            inv * c == q * r + 1,
    ;
    lemma_mod_multiples_vanish(x * q, x as int, r);
    lemma_small_mod(x as nat, r as nat);
}

/// The state that gives out `t`.
spec fn rng_unmix(t: u64) -> u64 {
    let b = (t ^ (t >> 31) ^ (t >> 62)).wrapping_mul(0x3196_42b2_d24d_8ec3);
    let a = (b ^ (b >> 27) ^ (b >> 54)).wrapping_mul(0x96de_1b17_3f11_9089);
    a ^ (a >> 30) ^ (a >> 60)
}

proof fn lemma_rng_unmix(t: u64)
    ensures
        rng_mix(rng_unmix(t)) == t,
{
    let b0 = t ^ (t >> 31) ^ (t >> 62);
    assert(b0 ^ (b0 >> 31) == t) by (bit_vector)
        requires
            b0 == t ^ (t >> 31) ^ (t >> 62),
    ;
    let b = b0.wrapping_mul(0x3196_42b2_d24d_8ec3);
    lemma_wrapping_mul_inverse(b0, 0x3196_42b2_d24d_8ec3, 0x94d0_49bb_1331_11eb, 0x1cd336eda85f1453);
    let a0 = b ^ (b >> 27) ^ (b >> 54);
    assert(a0 ^ (a0 >> 27) == b) by (bit_vector)
        requires
            a0 == b ^ (b >> 27) ^ (b >> 54),
    ;
    let a = a0.wrapping_mul(0x96de_1b17_3f11_9089);
    lemma_wrapping_mul_inverse(a0, 0x96de_1b17_3f11_9089, 0xbf58_476d_1ce4_e5b9, 0x70c3bca78f27f46c);
    let z = a ^ (a >> 30) ^ (a >> 60);
    assert(z ^ (z >> 30) == a) by (bit_vector)
        requires
            z == a ^ (a >> 30) ^ (a >> 60),
    ;
}

proof fn lemma_rng_after(state: u64, n: nat)
    ensures
        rng_after(state, n) == (state + n * 0x9e37_79b9_7f4a_7c15) % 0x1_0000_0000_0000_0000,
    decreases n,
{
    let r = 0x1_0000_0000_0000_0000int;
    let g = 0x9e37_79b9_7f4a_7c15int;
    if n == 0 {
        lemma_small_mod(state as nat, r as nat);
    } else {
        lemma_rng_after(state, (n - 1) as nat);
        let before = state + (n - 1) * g;
        assert(state + n * g == before + g) by (nonlinear_arith)
            requires
                before == state + (n - 1) * g,
        ;
        lemma_add_mod_noop(before, g, r);
        lemma_small_mod(g as nat, r as nat);
        lemma_mod_bound(before, r);
        let s = before % r;
        if s + g >= r {
            lemma_fundamental_div_mod_converse(s + g, r, 1, s + g - r);
        } else {
            lemma_small_mod((s + g) as nat, r as nat);
        }
    }
}

/// The generator leaves nothing out: from any state it gives out every number
/// sooner or later.
pub proof fn lemma_rng_reaches(state: u64, target: u64) -> (n: nat)
    ensures
        n >= 1,
        rng_output(state, n) == target,
{
    let r = 0x1_0000_0000_0000_0000int;
    let g = 0x9e37_79b9_7f4a_7c15int;
    let inv = 0xf1de_83e1_9937_733dint;
    let z = rng_unmix(target);
    lemma_rng_unmix(target);
    // the number of steps from `state` to `z`, one whole round more so that
    // at least one is taken
    let n = ((z - state) * inv % r + r) as nat;
    lemma_mod_bound((z - state) * inv, r);
    lemma_rng_after(state, n);
    assert(n % r as nat == (z - state) * inv % r) by {
        lemma_mod_add_multiples_vanish((z - state) * inv % r, r);
        lemma_mod_twice((z - state) * inv, r);
    }
    lemma_mul_mod_noop_left(n as int, g, r);
    lemma_mul_mod_noop_left((z - state) * inv, g, r);
    assert((z - state) * inv * g == r * ((z - state) * 0x957bbf35006ed677int) + (z - state)) by (nonlinear_arith)
        requires
            inv * g == 0x957bbf35006ed677int * r + 1,
    ;
    lemma_mod_multiples_vanish((z - state) * 0x957bbf35006ed677int, z - state, r);
    lemma_add_mod_noop(state as int, n * g, r);
    lemma_add_mod_noop(state as int, z - state, r);
    lemma_small_mod(z as nat, r as nat);
    n
}

/// Seeds made at the same time differ if their counters do.
proof fn lemma_seeds_differ(nanos: u64, a: u64, b: u64)
    requires
        a != b,
    ensures
        rng_seed(nanos, a) != rng_seed(nanos, b),
{
    let c = 0xbf58_476d_1ce4_e5b9u64;
    let x = a.wrapping_mul(c);
    let y = b.wrapping_mul(c);
    lemma_wrapping_mul_inverse(a, c, 0x96de_1b17_3f11_9089, 0x70c3bca78f27f46c);
    lemma_wrapping_mul_inverse(b, c, 0x96de_1b17_3f11_9089, 0x70c3bca78f27f46c);
    assert(nanos ^ x ^ 0x2545_f491_4f6c_dd1d == nanos ^ y ^ 0x2545_f491_4f6c_dd1d ==> x == y)
        by (bit_vector);
}

/// The counter once `n` more generators have been made.
pub open spec fn counter_after(counter: u64, n: nat) -> u64
    decreases n,
{
    if n == 0 {
        counter
    } else {
        next_counter(counter_after(counter, (n - 1) as nat))
    }
}

/// The counter moves as a generator's state does.
proof fn lemma_counter_after(counter: u64, n: nat)
    ensures
        counter_after(counter, n) == rng_after(counter, n),
    decreases n,
{
    if n > 0 {
        lemma_counter_after(counter, (n - 1) as nat);
    }
}

/// No two of the generators that a process makes are alike, not even if they
/// are made at the same time: their seeds differ, unless 2^64 others are made
/// between the two.
pub proof fn lemma_generators_differ(nanos: u64, counter: u64, m: nat, n: nat)
    requires
        m < n < m + 0x1_0000_0000_0000_0000,
    ensures
        rng_seed(nanos, counter_after(counter, m)) != rng_seed(nanos, counter_after(counter, n)),
{
    let r = 0x1_0000_0000_0000_0000int;
    let g = 0x9e37_79b9_7f4a_7c15int;
    let inv = 0xf1de_83e1_9937_733dint;
    let d = n - m;
    lemma_counter_after(counter, m);
    lemma_counter_after(counter, n);
    lemma_rng_after(counter, m);
    lemma_rng_after(counter, n);
    if counter_after(counter, m) == counter_after(counter, n) {
        lemma_sub_mod_noop(counter + n * g, counter + m * g, r);
        assert(counter + n * g - (counter + m * g) == d * g) by (nonlinear_arith)
            requires
                d == n - m,
        ;
        lemma_small_mod(0, r as nat);
        assert((d * g) % r == 0);
        lemma_mul_mod_noop_left(d * g, inv, r);
        assert(d * g * inv == r * (d * 0x957bbf35006ed677int) + d) by (nonlinear_arith)
            requires
                inv * g == 0x957bbf35006ed677int * r + 1,
        ;
        lemma_mod_multiples_vanish(d * 0x957bbf35006ed677int, d, r);
        lemma_small_mod(d as nat, r as nat);
    }
    lemma_seeds_differ(nanos, counter_after(counter, m), counter_after(counter, n));
}

} // verus!

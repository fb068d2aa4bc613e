//! The arithmetic of binary64 floating point numbers, in integers: every result
//! is rounded to 53 significant bits, to the nearest number, and to the even
//! one of two that are as near.
//!
//! A number is given as a multiple of 2^-200. All that is computed here is far
//! from where binary64 would run out of exponents.

use vstd::arithmetic::div_mod::*;
use vstd::arithmetic::mul::*;
use vstd::arithmetic::power2::*;
use vstd::prelude::*;

verus! {

/// The number 1.
pub open spec fn unit() -> int {
    pow2(200) as int
}

/// The integer nearest to `a / b`, the even one of two.
pub open spec fn nearest_even(a: int, b: int) -> int {
    let q = a / b;
    let r = a % b;
    if 2 * r > b || 2 * r == b && q % 2 == 1 {
        q + 1
    } else {
        q
    }
}

/// Whether `a / b` has 53 bits down to the one worth 2^k.
pub open spec fn has_53_bits(a: int, b: int, k: nat) -> bool {
    0x10_0000_0000_0000 * (b * pow2(k)) <= a < 0x20_0000_0000_0000 * (b * pow2(k))
}

/// `a / b` rounded to 53 bits.
pub open spec fn rounded(a: int, b: int) -> int {
    if a <= 0 {
        0
    } else {
        let k = choose|k: nat| has_53_bits(a, b, k);
        nearest_even(a, b * pow2(k)) * pow2(k)
    }
}

/// The number `x`.
pub open spec fn float_of(x: int) -> int {
    rounded(x * unit(), 1)
}

pub open spec fn quotient(x: int, y: int) -> int {
    rounded(x * unit(), y)
}

pub open spec fn product(x: int, y: int) -> int {
    rounded(x * y, unit())
}

pub open spec fn sum(x: int, y: int) -> int {
    rounded(x + y, 1)
}

/// The number cut to an integer, or to the largest one there is.
pub open spec fn truncated(x: int) -> usize {
    if x / unit() > usize::MAX {
        usize::MAX
    } else {
        (x / unit()) as usize
    }
}

/// The power of two that a number's last bit is worth is unique.
proof fn lemma_53_bits_unique(a: int, b: int, j: nat, k: nat)
    requires
        b > 0,
        has_53_bits(a, b, j),
        has_53_bits(a, b, k),
    ensures
        j == k,
{
    if j < k {
        lemma_53_bits_apart(a, b, j, k);
    }
    if k < j {
        lemma_53_bits_apart(a, b, k, j);
    }
}

proof fn lemma_53_bits_apart(a: int, b: int, j: nat, k: nat)
    requires
        b > 0,
        has_53_bits(a, b, j),
        j < k,
    ensures
        !has_53_bits(a, b, k),
{
    lemma_pow2_adds(j, (k - j) as nat);
    lemma_pow2_pos(j);
    lemma_pow2_unfold((k - j) as nat);
    lemma_pow2_pos((k - j - 1) as nat);
    let p = pow2(j) as int;
    let q = pow2((k - j) as nat) as int;
    assert(q >= 2);
    assert(b * (p * q) >= 2 * (b * p)) by (nonlinear_arith)
        requires
            q >= 2,
            b > 0,
            p > 0,
    ;
}

proof fn lemma_rounded(a: int, b: int, k: nat)
    requires
        a > 0,
        b > 0,
        has_53_bits(a, b, k),
    ensures
        rounded(a, b) == nearest_even(a, b * pow2(k)) * pow2(k),
{
    let j = choose|j: nat| has_53_bits(a, b, j);
    lemma_53_bits_unique(a, b, j, k);
}

/// A common factor makes no difference.
proof fn lemma_nearest_scaled(a: int, b: int, k: int)
    requires
        a >= 0,
        b > 0,
        k > 0,
    ensures
        nearest_even(k * a, k * b) == nearest_even(a, b),
{
    lemma_div_multiples_vanish_quotient(k, a, b);
    lemma_truncate_middle(a, k, b);
    let r = a % b;
    assert((2 * (k * r) > k * b) == (2 * r > b)) by (nonlinear_arith)
        requires
            k > 0,
    ;
    assert((2 * (k * r) == k * b) == (2 * r == b)) by (nonlinear_arith)
        requires
            k > 0,
    ;
}

/// `x` and a fraction, divided by 2^s and rounded; of the fraction only
/// `sticky` counts, which says whether it is more than 0.
pub open spec fn half_even(x: int, s: nat, sticky: bool) -> int {
    let p = pow2(s) as int;
    let q = x / p;
    let low = x % p;
    if 2 * low > p || 2 * low == p && (sticky || q % 2 == 1) {
        q + 1
    } else {
        q
    }
}

/// All that counts of a fraction is whether there is one.
proof fn lemma_sticky(x: int, d: int, r: int, s: nat)
    requires
        x >= 0,
        0 <= r < d,
        s >= 1 || r == 0,
    ensures
        nearest_even(x * d + r, d * pow2(s)) == half_even(x, s, r > 0),
{
    let p = pow2(s) as int;
    lemma_pow2_pos(s);
    let q = x / p;
    let low = x % p;
    lemma_fundamental_div_mod(x, p);
    lemma_mod_bound(x, p);
    let n = x * d + r;
    let b = d * p;
    let rem = low * d + r;
    assert(b > 0) by (nonlinear_arith)
        requires
            d > 0,
            p > 0,
            b == d * p,
    ;
    assert(n == b * q + rem) by (nonlinear_arith)
        requires
            n == x * d + r,
            x == p * q + low,
            b == d * p,
            rem == low * d + r,
    ;
    assert(0 <= rem < b) by (nonlinear_arith)
        requires
            0 <= low <= p - 1,
            0 <= r < d,
            b == d * p,
            rem == low * d + r,
    ;
    lemma_fundamental_div_mod_converse(n, b, q, rem);
    if s >= 1 {
        lemma_pow2_unfold(s);
        let half = pow2((s - 1) as nat) as int;
        assert(p == 2 * half);
        if low >= half + 1 {
            assert(2 * rem > b) by (nonlinear_arith)
                requires
                    low >= half + 1,
                    r >= 0,
                    d > 0,
                    b == d * p,
                    p == 2 * half,
                    rem == low * d + r,
            ;
        } else if low == half {
            assert(2 * rem == b + 2 * r) by (nonlinear_arith)
                requires
                    low == half,
                    b == d * p,
                    p == 2 * half,
                    rem == low * d + r,
            ;
        } else {
            assert(2 * rem < b) by (nonlinear_arith)
                requires
                    low <= half - 1,
                    r < d,
                    d > 0,
                    b == d * p,
                    p == 2 * half,
                    rem == low * d + r,
            ;
        }
    } else {
        lemma2_to64();
        assert(p == 1);
        assert(low == 0);
        assert(rem == 0) by (nonlinear_arith)
            requires
                low == 0,
                r == 0,
                rem == low * d + r,
        ;
    }
}

/// A number given by its first digits `x`, the rest `r / d`, and what the last
/// digit is worth.
proof fn lemma_rounded_digits(a: int, b: int, x: int, d: int, r: int, e: nat, s: nat)
    requires
        b > 0,
        x > 0,
        0 <= r < d,
        s >= 1 || r == 0,
        a * d == b * (x * d + r) * pow2(e),
        0x10_0000_0000_0000 * pow2(s) <= x < 0x20_0000_0000_0000 * pow2(s),
    ensures
        rounded(a, b) == half_even(x, s, r > 0) * pow2(e + s),
{
    let pe = pow2(e) as int;
    let ps = pow2(s) as int;
    lemma_pow2_pos(e);
    lemma_pow2_pos(s);
    lemma_pow2_adds(e, s);
    let p = pow2(e + s) as int;
    assert(p == pe * ps);
    let n = x * d + r;
    let k = b * pe;
    assert(k > 0) by (nonlinear_arith)
        requires
            b > 0,
            pe > 0,
            k == b * pe,
    ;
    assert(a * d == k * n) by (nonlinear_arith)
        requires
            a * d == b * n * pe,
            k == b * pe,
    ;
    // d times the denominator, too
    assert((b * p) * d == k * (d * ps)) by (nonlinear_arith)
        requires
            p == pe * ps,
            k == b * pe,
    ;
    assert(n >= x * d && n < (x + 1) * d && x * d > 0) by (nonlinear_arith)
        requires
            n == x * d + r,
            0 <= r < d,
            x > 0,
    ;
    assert(0x10_0000_0000_0000 * (b * p) <= a) by (nonlinear_arith)
        requires
            a * d == k * n,
            n >= x * d,
            x >= 0x10_0000_0000_0000 * ps,
            k > 0,
            d > 0,
            p == pe * ps,
            k == b * pe,
    {
        assert(n >= 0x10_0000_0000_0000 * ps * d) by (nonlinear_arith)
            requires
                n >= x * d,
                x >= 0x10_0000_0000_0000 * ps,
                d > 0,
        ;
        assert(a * d >= k * (0x10_0000_0000_0000 * ps * d)) by (nonlinear_arith)
            requires
                a * d == k * n,
                n >= 0x10_0000_0000_0000 * ps * d,
                k > 0,
        ;
        assert(k * (0x10_0000_0000_0000 * ps * d) == (0x10_0000_0000_0000 * (b * p)) * d) by (nonlinear_arith)
            requires
                p == pe * ps,
                k == b * pe,
        ;
        assert(a >= 0x10_0000_0000_0000 * (b * p)) by (nonlinear_arith)
            requires
                a * d >= (0x10_0000_0000_0000 * (b * p)) * d,
                d > 0,
        ;
    }
    assert(a < 0x20_0000_0000_0000 * (b * p)) by (nonlinear_arith)
        requires
            a * d == k * n,
            n < (x + 1) * d,
            x + 1 <= 0x20_0000_0000_0000 * ps,
            k > 0,
            d > 0,
            p == pe * ps,
            k == b * pe,
    {
        assert(n < 0x20_0000_0000_0000 * ps * d) by (nonlinear_arith)
            requires
                n < (x + 1) * d,
                x + 1 <= 0x20_0000_0000_0000 * ps,
                d > 0,
        ;
        assert(a * d < k * (0x20_0000_0000_0000 * ps * d)) by (nonlinear_arith)
            requires
                a * d == k * n,
                n < 0x20_0000_0000_0000 * ps * d,
                k > 0,
        ;
        assert(k * (0x20_0000_0000_0000 * ps * d) == (0x20_0000_0000_0000 * (b * p)) * d) by (nonlinear_arith)
            requires
                p == pe * ps,
                k == b * pe,
        ;
        assert(a < 0x20_0000_0000_0000 * (b * p)) by (nonlinear_arith)
            requires
                a * d < (0x20_0000_0000_0000 * (b * p)) * d,
                d > 0,
        ;
    }
    assert(b * p > 0) by (nonlinear_arith)
        requires
            b > 0,
            pe > 0,
            ps > 0,
            p == pe * ps,
    ;
    lemma_rounded(a, b, e + s);
    // both sides of the division times d, then without k
    lemma_nearest_scaled(a, b * p, d);
    lemma_mul_is_commutative(a, d);
    lemma_mul_is_commutative(b * p, d);
    assert(d * ps > 0) by (nonlinear_arith)
        requires
            d > 0,
            ps > 0,
    ;
    lemma_nearest_scaled(n, d * ps, k);
    lemma_sticky(x, d, r, s);
}

/// Whether `a / b` is `x + r / d`, times 2^e.
pub open spec fn has_digits(a: int, b: int, x: int, d: int, r: int, e: nat) -> bool {
    &&& b > 0
    &&& 0 <= r < d
    &&& a * d == b * (x * d + r) * pow2(e)
}

/// A number that is not negative: `man * 2^exp`, as a multiple of 2^-200.
#[derive(Clone, Copy, PartialEq, Eq, Structural, Debug)]
pub struct Float {
    pub man: u64,
    pub exp: u32,
}

impl View for Float {
    type V = int;

    open spec fn view(&self) -> int {
        self.man * pow2(self.exp as nat)
    }
}

impl Float {
    /// A number that is not 0 has 53 bits.
    pub open spec fn wf(self) -> bool {
        &&& self.man == 0 || 0x10_0000_0000_0000 <= self.man <= 0x20_0000_0000_0000
        &&& self.exp <= 500
    }
}

/// Halves `x` until 53 bits are left. Returns what is left, how often it was
/// halved, and 2 to that power.
fn halve_to_53_bits(x: u128) -> (r: (u128, u32, u128))
    requires
        0x10_0000_0000_0000 <= x < 0x8000_0000_0000_0000_0000_0000_0000_0000,
    ensures
        r.2 == pow2(r.1 as nat),
        r.0 == x as int / r.2 as int,
        0x10_0000_0000_0000 <= r.0 < 0x20_0000_0000_0000,
        0x10_0000_0000_0000 * pow2(r.1 as nat) <= x < 0x20_0000_0000_0000 * pow2(r.1 as nat),
        x >= 0x20_0000_0000_0000 ==> r.1 >= 1,
        r.1 <= 75,
{
    let mut y: u128 = x;
    let mut s: u32 = 0;
    let mut p: u128 = 1;
    proof {
        lemma2_to64();
    }
    while y >= 0x20_0000_0000_0000
        invariant
            0x10_0000_0000_0000 <= y <= x,
            x < 0x8000_0000_0000_0000_0000_0000_0000_0000,
            p == pow2(s as nat),
            p >= 1,
            y == x as int / p as int,
            y * p <= x < (y + 1) * p,
            s <= 75,
            y < 0x20_0000_0000_0000 || s < 75,
            x >= 0x20_0000_0000_0000 ==> s >= 1 || y == x,
        decreases y,
    {
        proof {
            lemma_pow2_unfold((s + 1) as nat);
            lemma_div_denominator(x as int, p as int, 2);
            assert(y * p >= 0x20_0000_0000_0000 * p) by (nonlinear_arith)
                requires
                    y >= 0x20_0000_0000_0000,
                    p >= 1,
            ;
            let h = y as int / 2;
            assert(h * (2 * p) <= x < (h + 1) * (2 * p)) by (nonlinear_arith)
                requires
                    y * p <= x < (y + 1) * p,
                    2 * h <= y < 2 * h + 2,
                    p >= 1,
            ;
            lemma_few_halvings(x as int, y as int, s as nat);
        }
        y = y / 2;
        p = p * 2;
        s = s + 1;
    }
    proof {
        assert(0x10_0000_0000_0000 * p <= x < 0x20_0000_0000_0000 * p) by (nonlinear_arith)
            requires
                y * p <= x < (y + 1) * p,
                0x10_0000_0000_0000 <= y,
                y + 1 <= 0x20_0000_0000_0000,
                p >= 1,
        ;
    }
    (y, s, p)
}

proof fn lemma_few_halvings(x: int, y: int, s: nat)
    requires
        x < 0x8000_0000_0000_0000_0000_0000_0000_0000,
        y >= 0x20_0000_0000_0000,
        y * pow2(s) <= x,
    ensures
        s < 74,
{
    if s >= 74 {
        lemma_pow2_adds(64, 10);
        lemma2_to64();
        lemma2_to64_rest();
        if s > 74 {
            lemma_pow2_strictly_increases(74, s);
        }
        let p = pow2(s) as int;
        assert(y * p >= 0x20_0000_0000_0000 * 0x400_0000_0000_0000_0000) by (nonlinear_arith)
            requires
                y >= 0x20_0000_0000_0000,
                p >= 0x400_0000_0000_0000_0000,
        ;
    }
}

/// Doubles `x` until it has 53 bits. Returns what it comes to, and how often
/// it was doubled.
fn double_to_53_bits(x: u64) -> (r: (u64, u32))
    requires
        0 < x < 0x20_0000_0000_0000,
    ensures
        r.0 == x * pow2(r.1 as nat),
        0x10_0000_0000_0000 <= r.0 < 0x20_0000_0000_0000,
        r.1 <= 52,
{
    let mut y: u64 = x;
    let mut t: u32 = 0;
    proof {
        lemma2_to64();
    }
    while y < 0x10_0000_0000_0000
        invariant
            x > 0,
            y == x * pow2(t as nat),
            0 < y < 0x20_0000_0000_0000,
            t <= 52,
            t < 52 || y >= 0x10_0000_0000_0000,
        decreases 52 - t,
    {
        proof {
            lemma_pow2_unfold((t + 1) as nat);
            lemma_pow2_pos(t as nat);
            assert(x * (2 * pow2(t as nat)) == 2 * y) by (nonlinear_arith)
                requires
                    y == x * pow2(t as nat),
            ;
            if t + 1 >= 52 {
                lemma2_to64_rest();
                assert(pow2(52) == 0x10_0000_0000_0000);
                assert(x * pow2(52) >= 0x10_0000_0000_0000) by (nonlinear_arith)
                    requires
                        x >= 1,
                        pow2(52) == 0x10_0000_0000_0000,
                ;
            }
        }
        y = y * 2;
        t = t + 1;
    }
    (y, t)
}

/// How far the scale `exp` of a number can be from the scale `e` of its digits
/// `x`.
pub open spec fn in_scale(x: int, e: int, exp: int) -> bool {
    &&& e - 52 <= exp <= e + 75
    &&& x >= 0x10_0000_0000_0000 ==> e <= exp
    &&& x < 0x1_0000_0000 ==> exp <= e - 20
    &&& x >= 2048 ==> e - 41 <= exp
    &&& x < 0x1_0000_0000_0000_0000 ==> exp <= e + 12
    &&& x >= 0x8000_0000_0000_0000 ==> e + 10 <= exp
    &&& x <= 0x2_0000_0000_0000_0000 ==> exp <= e + 14
    &&& x >= 0x100_0000_0000_0000_0000_0000_0000 ==> e + 51 <= exp
    &&& x <= 0x400_0000_0000_0000_0000_0000_0000 ==> exp <= e + 55
}

proof fn lemma_scale_halved(x: int, e: int, s: nat)
    requires
        0x10_0000_0000_0000 * pow2(s) <= x < 0x20_0000_0000_0000 * pow2(s),
        s <= 75,
    ensures
        in_scale(x, e, e + s),
{
    lemma2_to64();
    lemma2_to64_rest();
    lemma_pow2_pos(s);
    if s <= 10 {
        lemma_pow2_at_most(s, 10);
    }
    if s >= 12 {
        lemma_pow2_at_most(12, s);
    }
    if s >= 14 {
        lemma_pow2_at_most(14, s);
    }
    if s <= 51 {
        lemma_pow2_at_most(s, 51);
    }
    if s >= 55 {
        lemma_pow2_at_most(55, s);
    }
}

proof fn lemma_scale_doubled(x: int, e: int, t: nat)
    requires
        0 < x < 0x20_0000_0000_0000,
        0x10_0000_0000_0000 <= x * pow2(t) < 0x20_0000_0000_0000,
        t <= 52,
    ensures
        in_scale(x, e, e - t),
{
    lemma2_to64();
    lemma2_to64_rest();
    let p = pow2(t) as int;
    if x >= 0x10_0000_0000_0000 {
        lemma_no_doubling(x, t);
    }
    if t <= 20 {
        lemma_pow2_at_most(t, 20);
        assert(x >= 0x1_0000_0000) by (nonlinear_arith)
            requires
                x * p >= 0x10_0000_0000_0000,
                0 < p <= 0x10_0000,
                x > 0,
        ;
    }
    if t >= 42 {
        lemma_pow2_at_most(42, t);
        assert(x < 2048) by (nonlinear_arith)
            requires
                x * p < 0x20_0000_0000_0000,
                p >= 0x400_0000_0000,
                x > 0,
        ;
    }
}

proof fn lemma_pow2_at_most(a: nat, b: nat)
    requires
        a <= b,
    ensures
        0 < pow2(a) <= pow2(b),
{
    lemma_pow2_pos(a);
    if a < b {
        lemma_pow2_strictly_increases(a, b);
    }
}

/// Rounds the number `x` and a fraction, times 2^e; `sticky` says whether the
/// fraction is more than 0.
fn round(x: u128, sticky: bool, e: u32) -> (f: Float)
    requires
        0 < x < 0x8000_0000_0000_0000_0000_0000_0000_0000,
        sticky ==> x >= 0x20_0000_0000_0000,
        x < 0x10_0000_0000_0000 ==> 52 <= e,
        e <= 400,
    ensures
        f.wf(),
        f.man > 0,
        in_scale(x as int, e as int, f.exp as int),
        forall|a: int, b: int, d: int, r: int| #[trigger]
            has_digits(a, b, x as int, d, r, e as nat) && (r > 0) == sticky ==> rounded(a, b)
                == f@,
{
    if x < 0x20_0000_0000_0000 {
        let (man, t): (u64, u32) = double_to_53_bits(x as u64);
        proof {
            lemma_scale_doubled(x as int, e as int, t as nat);
        }
        let f = Float { man, exp: e - t };
        proof {
            assert forall|a: int, b: int, d: int, r: int| #[trigger]
                has_digits(a, b, x as int, d, r, e as nat) && (r > 0) == sticky implies rounded(
                a,
                b,
            ) == f@ by {
                lemma_doubled(a, b, x as int, d, e as nat, t as nat);
            }
        }
        return f;
    }
    let (y, s, p): (u128, u32, u128) = halve_to_53_bits(x);
    proof {
        lemma_fundamental_div_mod(x as int, p as int);
        lemma_mul_is_commutative(p as int, y as int);
        lemma_mod_bound(x as int, p as int);
        lemma_pow2_pos(s as nat);
    }
    assert(y * p <= x);
    let low: u128 = x - y * p;
    let up: bool = low > p - low || low == p - low && (sticky || y % 2 == 1);
    let man: u64 = if up {
        y as u64 + 1
    } else {
        y as u64
    };
    let f = Float { man, exp: e + s };
    proof {
        lemma_scale_halved(x as int, e as int, s as nat);
        assert(man == half_even(x as int, s as nat, sticky));
        assert forall|a: int, b: int, d: int, r: int| #[trigger]
            has_digits(a, b, x as int, d, r, e as nat) && (r > 0) == sticky implies rounded(a, b)
            == f@ by {
            lemma_rounded_digits(a, b, x as int, d, r, e as nat, s as nat);
        }
    }
    f
}

proof fn lemma_no_doubling(x: int, t: nat)
    requires
        x >= 0x10_0000_0000_0000,
        x * pow2(t) < 0x20_0000_0000_0000,
    ensures
        t == 0,
{
    if t > 0 {
        lemma_pow2_unfold(t);
        lemma_pow2_pos((t - 1) as nat);
        let p = pow2(t) as int;
        assert(x * p >= 2 * x) by (nonlinear_arith)
            requires
                p >= 2,
                x > 0,
        ;
    }
}

/// A number with few digits is the same with more zeros behind.
proof fn lemma_doubled(a: int, b: int, x: int, d: int, e: nat, t: nat)
    requires
        has_digits(a, b, x, d, 0, e),
        x > 0,
        t <= e,
        0x10_0000_0000_0000 <= x * pow2(t) < 0x20_0000_0000_0000,
    ensures
        rounded(a, b) == x * pow2(t) * pow2((e - t) as nat),
{
    let m = x * pow2(t);
    let rest = (e - t) as nat;
    lemma_pow2_adds(t, rest);
    lemma2_to64();
    let pt = pow2(t) as int;
    let pr = pow2(rest) as int;
    assert(a * d == b * (m * d + 0) * pr) by (nonlinear_arith)
        requires
            a * d == b * (x * d + 0) * (pt * pr),
            m == x * pt,
    ;
    lemma_rounded_digits(a, b, m, d, 0, rest, 0);
    assert(half_even(m, 0, false) == m);
}

impl Float {
    /// The number `x`.
    pub fn from_u64(x: u64) -> (f: Float)
        ensures
            f.wf(),
            f@ == float_of(x as int),
            x > 0 ==> f.man > 0 && 148 <= f.exp <= 212,
            0 < x < 0x1_0000_0000 ==> f.exp <= 180,
            x >= 2048 ==> f.exp >= 159,
    {
        if x == 0 {
            return Float { man: 0, exp: 0 };
        }
        let f: Float = round(x as u128, false, 200);
        assert(has_digits(x * unit(), 1, x as int, 1, 0, 200));
        f
    }

    /// The quotient of two numbers that are not 0.
    pub fn div(self, y: Float) -> (f: Float)
        requires
            self.wf(),
            y.wf(),
            self.man > 0,
            y.man > 0,
            148 <= self.exp <= 212,
            148 <= y.exp <= 212,
        ensures
            f.wf(),
            f.man > 0,
            f@ == quotient(self@, y@),
            self.exp - y.exp + 146 <= f.exp <= self.exp - y.exp + 150,
    {
        // 64 more bits than the quotient of the mantissas has
        let n: u128 = self.man as u128 * 0x1_0000_0000_0000_0000;
        let d: u128 = y.man as u128;
        let x: u128 = n / d;
        let r: u128 = n % d;
        let e: u32 = self.exp + 136 - y.exp;
        proof {
            lemma_fundamental_div_mod(n as int, d as int);
            lemma_mod_bound(n as int, d as int);
            lemma_quotient_digits(self, y, x as int, r as int, e as nat);
            assert(0x8000_0000_0000_0000 <= x <= 0x2_0000_0000_0000_0000) by (nonlinear_arith)
                requires
                    n == d * x + r,
                    0 <= r < d,
                    0x10_0000_0000_0000 * 0x1_0000_0000_0000_0000 <= n,
                    n <= 0x20_0000_0000_0000 * 0x1_0000_0000_0000_0000,
                    0x10_0000_0000_0000 <= d <= 0x20_0000_0000_0000,
            ;
        }
        round(x, r > 0, e)
    }

    /// The product of two numbers that are not 0.
    pub fn mul(self, y: Float) -> (f: Float)
        requires
            self.wf(),
            y.wf(),
            self.man > 0,
            y.man > 0,
            200 <= self.exp + y.exp <= 600,
        ensures
            f.wf(),
            f.man > 0,
            f@ == product(self@, y@),
            self.exp + y.exp - 149 <= f.exp <= self.exp + y.exp - 145,
    {
        assert(0x10_0000_0000_0000 * 0x10_0000_0000_0000 <= self.man * y.man
            <= 0x20_0000_0000_0000 * 0x20_0000_0000_0000) by (nonlinear_arith)
            requires
                0x10_0000_0000_0000 <= self.man <= 0x20_0000_0000_0000,
                0x10_0000_0000_0000 <= y.man <= 0x20_0000_0000_0000,
        ;
        let x: u128 = self.man as u128 * y.man as u128;
        let e: u32 = self.exp + y.exp - 200;
        proof {
            lemma_product_digits(self, y, e as nat);
        }
        round(x, false, e)
    }
}

proof fn lemma_quotient_digits(a: Float, b: Float, x: int, r: int, e: nat)
    requires
        a.man > 0,
        b.man > 0,
        0 <= r < b.man,
        a.man * 0x1_0000_0000_0000_0000 == b.man * x + r,
        e == a.exp + 136 - b.exp,
    ensures
        has_digits(a@ * unit(), b@, x, b.man as int, r, e),
{
    let d = b.man as int;
    let pa = pow2(a.exp as nat) as int;
    let pb = pow2(b.exp as nat) as int;
    let p64 = pow2(64) as int;
    let p136 = pow2(136) as int;
    let pe = pow2(e) as int;
    lemma2_to64();
    lemma_pow2_pos(b.exp as nat);
    lemma_pow2_adds(64, 136);
    lemma_pow2_adds(a.exp as nat, 136);
    lemma_pow2_adds(b.exp as nat, e);
    assert(a.exp as nat + 136 == b.exp as nat + e);
    assert(pa * p136 == pb * pe);
    assert(b@ > 0) by (nonlinear_arith)
        requires
            b@ == d * pb,
            d > 0,
            pb > 0,
    ;
    let m = a.man as int;
    assert((m * pa * (p64 * p136)) * d == (d * pb) * (x * d + r) * pe) by (nonlinear_arith)
        requires
            m * p64 == d * x + r,
            pa * p136 == pb * pe,
    {
        assert(m * pa * (p64 * p136) == (m * p64) * (pa * p136)) by (nonlinear_arith);
        assert((m * p64) * (pa * p136) * d == (d * x + r) * (pb * pe) * d) by (nonlinear_arith)
            requires
                m * p64 == d * x + r,
                pa * p136 == pb * pe,
        ;
        assert((d * x + r) * (pb * pe) * d == (d * pb) * (x * d + r) * pe) by (nonlinear_arith);
    }
}

proof fn lemma_product_digits(a: Float, b: Float, e: nat)
    requires
        e == a.exp + b.exp - 200,
    ensures
        has_digits(a@ * b@, unit(), a.man * b.man, 1, 0, e),
{
    let pa = pow2(a.exp as nat) as int;
    let pb = pow2(b.exp as nat) as int;
    let pe = pow2(e) as int;
    let p200 = pow2(200) as int;
    lemma_pow2_pos(200);
    lemma_pow2_adds(a.exp as nat, b.exp as nat);
    lemma_pow2_adds(200, e);
    assert(pa * pb == p200 * pe);
    let m = a.man as int;
    let n = b.man as int;
    assert((m * pa) * (n * pb) * 1 == p200 * (m * n * 1 + 0) * pe) by (nonlinear_arith)
        requires
            pa * pb == p200 * pe,
    {
        assert((m * pa) * (n * pb) == (m * n) * (pa * pb)) by (nonlinear_arith);
        assert((m * n) * (p200 * pe) == p200 * (m * n) * pe) by (nonlinear_arith);
    }
}

/// 2 to the power of `k`.
fn power_of_two(k: u32) -> (p: u128)
    requires
        k <= 72,
    ensures
        p == pow2(k as nat),
        1 <= p <= 0x100_0000_0000_0000_0000,
{
    let mut p: u128 = 1;
    let mut i: u32 = 0;
    proof {
        lemma2_to64();
    }
    while i < k
        invariant
            i <= k <= 72,
            p == pow2(i as nat),
            p >= 1,
        decreases k - i,
    {
        proof {
            lemma_pow2_unfold((i + 1) as nat);
            lemma_pow2_below(i as nat);
        }
        p = p * 2;
        i = i + 1;
    }
    proof {
        lemma_pow2_below(k as nat);
    }
    p
}

proof fn lemma_pow2_below(k: nat)
    requires
        k <= 72,
    ensures
        pow2(k) <= 0x100_0000_0000_0000_0000,
{
    lemma2_to64();
    lemma2_to64_rest();
    lemma_pow2_adds(64, 8);
    lemma_pow2_at_most(k, 72);
}

/// A number whose last bit is worth at least as much as that of another, and
/// the other cut off 64 bits below it.
proof fn lemma_far_digits(a: Float, b: Float, q: int, r: int, e: nat, dd: int)
    requires
        a.exp == e + 64,
        b.exp <= e,
        dd == pow2((e - b.exp) as nat),
        b.man == q * dd + r,
    ensures
        (a@ + b@) * dd == 1 * ((a.man * 0x1_0000_0000_0000_0000 + q) * dd + r) * pow2(e),
        (a@ - b@) * dd == 1 * ((a.man * 0x1_0000_0000_0000_0000 - q) * dd - r) * pow2(e),
{
    let pa = pow2(a.exp as nat) as int;
    let pb = pow2(b.exp as nat) as int;
    let pe = pow2(e) as int;
    lemma2_to64();
    lemma_pow2_adds(e, 64);
    lemma_pow2_adds(b.exp as nat, (e - b.exp) as nat);
    let p64 = 0x1_0000_0000_0000_0000int;
    assert(pa == pe * p64);
    assert(pe == pb * dd);
    let m = a.man as int;
    let n = b.man as int;
    assert(m * pa * dd == (m * p64 * dd) * pe) by (nonlinear_arith)
        requires
            pa == pe * p64,
    ;
    assert(n * pb * dd == (q * dd + r) * pe) by (nonlinear_arith)
        requires
            pe == pb * dd,
            n == q * dd + r,
    ;
    assert((m * pa + n * pb) * dd == m * pa * dd + n * pb * dd) by (nonlinear_arith);
    assert((m * pa - n * pb) * dd == m * pa * dd - n * pb * dd) by (nonlinear_arith);
    assert(1 * ((m * p64 + q) * dd + r) * pe == (m * p64 * dd) * pe + (q * dd + r) * pe)
        by (nonlinear_arith);
    assert(1 * ((m * p64 - q) * dd - r) * pe == (m * p64 * dd) * pe - (q * dd + r) * pe)
        by (nonlinear_arith);
}

/// Two numbers on the scale of the smaller one.
proof fn lemma_near_digits(a: Float, b: Float, d: nat)
    requires
        a.exp == b.exp + d,
    ensures
        has_digits(a@ + b@, 1, a.man * pow2(d) + b.man, 1, 0, b.exp as nat),
        has_digits(a@ - b@, 1, a.man * pow2(d) - b.man, 1, 0, b.exp as nat),
{
    let pb = pow2(b.exp as nat) as int;
    let pd = pow2(d) as int;
    lemma_pow2_adds(b.exp as nat, d);
    let m = a.man as int;
    let n = b.man as int;
    assert((m * (pb * pd) + n * pb) * 1 == 1 * ((m * pd + n) * 1 + 0) * pb) by (nonlinear_arith);
    assert((m * (pb * pd) - n * pb) * 1 == 1 * ((m * pd - n) * 1 + 0) * pb) by (nonlinear_arith);
}

impl Float {
    /// The quotient and the remainder of the mantissa by 2^k.
    fn split(self, k: u32) -> (r: (u64, u64))
        requires
            self.wf(),
        ensures
            self.man == r.0 * pow2(k as nat) + r.1,
            0 <= r.1 < pow2(k as nat),
            r.0 <= self.man,
    {
        if k >= 54 {
            proof {
                lemma2_to64_rest();
                lemma_pow2_at_most(54, k as nat);
            }
            return (0, self.man);
        }
        let p: u128 = power_of_two(k);
        let q: u128 = self.man as u128 / p;
        let r: u128 = self.man as u128 % p;
        proof {
            lemma_fundamental_div_mod(self.man as int, p as int);
            lemma_mod_bound(self.man as int, p as int);
            lemma_mul_is_commutative(p as int, q as int);
            lemma_div_is_ordered_by_denominator(self.man as int, 1, p as int);
        }
        (q as u64, r as u64)
    }

    /// The sum, where the number's last bit is worth at least as much as that
    /// of `y`.
    fn add_smaller(self, y: Float) -> (f: Float)
        requires
            self.wf(),
            y.wf(),
            self.man > 0,
            y.man > 0,
            y.exp <= self.exp <= 400,
        ensures
            f.wf(),
            f.man > 0,
            f@ == sum(self@, y@),
    {
        let d: u32 = self.exp - y.exp;
        if d <= 64 {
            let p: u128 = power_of_two(d);
            proof {
                lemma_near_digits(self, y, d as nat);
                lemma_pow2_at_most(d as nat, 64);
                lemma2_to64();
                assert(0x10_0000_0000_0000 <= self.man * p <= 0x20_0000_0000_0000
                    * 0x1_0000_0000_0000_0000) by (nonlinear_arith)
                    requires
                        0x10_0000_0000_0000 <= self.man <= 0x20_0000_0000_0000,
                        1 <= p <= 0x1_0000_0000_0000_0000,
                ;
            }
            let x: u128 = self.man as u128 * p + y.man as u128;
            return round(x, false, y.exp);
        }
        let e: u32 = self.exp - 64;
        let (q, r): (u64, u64) = y.split(e - y.exp);
        let ghost dd = pow2((e - y.exp) as nat) as int;
        proof {
            lemma_far_digits(self, y, q as int, r as int, e as nat, dd);
        }
        let x: u128 = self.man as u128 * 0x1_0000_0000_0000_0000 + q as u128;
        proof {
            assert(has_digits(self@ + y@, 1, x as int, dd, r as int, e as nat));
        }
        round(x, r > 0, e)
    }

    /// The sum of two numbers that are not 0.
    pub fn plus(self, y: Float) -> (f: Float)
        requires
            self.wf(),
            y.wf(),
            self.man > 0,
            y.man > 0,
            self.exp <= 400,
            y.exp <= 400,
        ensures
            f.wf(),
            f.man > 0,
            f@ == sum(self@, y@),
    {
        if self.exp >= y.exp {
            self.add_smaller(y)
        } else {
            y.add_smaller(self)
        }
    }

    /// Whether this is the greater of two numbers that are not 0.
    pub fn greater(self, y: Float) -> (r: bool)
        requires
            self.wf(),
            y.wf(),
            self.man > 0,
            y.man > 0,
        ensures
            r == (self@ > y@),
            r ==> self.exp >= y.exp,
    {
        let r: bool = if self.exp == y.exp {
            self.man > y.man
        } else if self.exp < y.exp {
            false
        } else {
            !(self.exp - y.exp == 1 && self.man == 0x10_0000_0000_0000 && y.man
                == 0x20_0000_0000_0000)
        };
        proof {
            lemma_greater(self, y);
        }
        r
    }

    /// The difference of a number and a smaller one that is not 0.
    pub fn minus(self, y: Float) -> (f: Float)
        requires
            self.wf(),
            y.wf(),
            self.man > 0,
            y.man > 0,
            self@ > y@,
            52 <= y.exp <= self.exp <= 400,
        ensures
            f.wf(),
            f.man > 0,
            f@ == rounded(self@ - y@, 1),
    {
        let d: u32 = self.exp - y.exp;
        if d <= 64 {
            let p: u128 = power_of_two(d);
            proof {
                lemma_near_digits(self, y, d as nat);
                lemma_pow2_at_most(d as nat, 64);
                lemma2_to64();
                lemma_pow2_adds(y.exp as nat, d as nat);
                lemma_pow2_pos(y.exp as nat);
                let pb = pow2(y.exp as nat) as int;
                assert(self.man * p <= 0x20_0000_0000_0000 * 0x1_0000_0000_0000_0000)
                    by (nonlinear_arith)
                    requires
                        self.man <= 0x20_0000_0000_0000,
                        1 <= p <= 0x1_0000_0000_0000_0000,
                ;
                assert(self.man * p > y.man) by (nonlinear_arith)
                    requires
                        self.man * (pb * p) > y.man * pb,
                        pb > 0,
                ;
            }
            let x: u128 = self.man as u128 * p - y.man as u128;
            return round(x, false, y.exp);
        }
        let e: u32 = self.exp - 64;
        let (q, r): (u64, u64) = y.split(e - y.exp);
        let ghost dd = pow2((e - y.exp) as nat) as int;
        proof {
            lemma_far_digits(self, y, q as int, r as int, e as nat, dd);
        }
        let top: u128 = self.man as u128 * 0x1_0000_0000_0000_0000;
        if r == 0 {
            let x: u128 = top - q as u128;
            proof {
                assert(has_digits(self@ - y@, 1, x as int, dd, 0, e as nat));
            }
            round(x, false, e)
        } else {
            let x: u128 = top - q as u128 - 1;
            proof {
                let t = top as int - q as int;
                assert((t * dd - r) == (t - 1) * dd + (dd - r)) by (nonlinear_arith);
                assert(has_digits(self@ - y@, 1, x as int, dd, dd - r, e as nat));
            }
            round(x, true, e)
        }
    }

    /// Whether the integer `x` is greater than the number.
    pub fn below(self, x: u32) -> (r: bool)
        requires
            self.wf(),
            140 <= self.exp <= 200,
        ensures
            r == (x * unit() > self@),
    {
        let p: u128 = power_of_two(200 - self.exp);
        proof {
            lemma_pow2_adds(self.exp as nat, (200 - self.exp) as nat);
            lemma_pow2_pos(self.exp as nat);
            let pe = pow2(self.exp as nat) as int;
            assert((x * (pe * p) > self.man * pe) == (x * p > self.man)) by (nonlinear_arith)
                requires
                    pe > 0,
            ;
            lemma_pow2_at_most((200 - self.exp) as nat, 60);
            lemma2_to64_rest();
            assert(x * p <= 0x1_0000_0000 * 0x1000_0000_0000_0000) by (nonlinear_arith)
                requires
                    x <= 0x1_0000_0000,
                    1 <= p <= 0x1000_0000_0000_0000,
            ;
        }
        x as u128 * p > self.man as u128
    }

    /// The number cut to an integer.
    pub fn truncate(self) -> (r: usize)
        requires
            self.wf(),
        ensures
            r == truncated(self@),
    {
        proof {
            lemma_truncated(self);
            lemma2_to64();
            lemma2_to64_rest();
        }
        if self.exp < 200 {
            let (q, _r): (u64, u64) = self.split(200 - self.exp);
            proof {
                lemma_pow2_pos((200 - self.exp) as nat);
                lemma_fundamental_div_mod_converse(
                    self.man as int,
                    pow2((200 - self.exp) as nat) as int,
                    q as int,
                    _r as int,
                );
            }
            if q > usize::MAX as u64 {
                usize::MAX
            } else {
                q as usize
            }
        } else if self.man == 0 {
            proof {
                lemma_mul_basics(pow2((self.exp - 200) as nat) as int);
            }
            0
        } else if self.exp - 200 >= 13 {
            proof {
                let k = (self.exp - 200) as nat;
                lemma_pow2_at_most(13, k);
                let p = pow2(k) as int;
                assert(self.man * p > 0xffff_ffff_ffff_ffff) by (nonlinear_arith)
                    requires
                        self.man >= 0x10_0000_0000_0000,
                        p >= 8192,
                ;
            }
            usize::MAX
        } else {
            let p: u128 = power_of_two(self.exp - 200);
            proof {
                lemma_pow2_at_most((self.exp - 200) as nat, 12);
                assert(self.man * p <= 0x20_0000_0000_0000 * 4096) by (nonlinear_arith)
                    requires
                        self.man <= 0x20_0000_0000_0000,
                        1 <= p <= 4096,
                ;
            }
            let n: u128 = self.man as u128 * p;
            if n > usize::MAX as u128 {
                usize::MAX
            } else {
                n as usize
            }
        }
    }
}

proof fn lemma_greater(a: Float, b: Float)
    requires
        a.wf(),
        b.wf(),
        a.man > 0,
        b.man > 0,
    ensures
        a.exp == b.exp ==> (a@ > b@) == (a.man > b.man),
        a.exp < b.exp ==> a@ <= b@,
        a.exp > b.exp ==> (a@ > b@) == !(a.exp - b.exp == 1 && a.man == 0x10_0000_0000_0000
            && b.man == 0x20_0000_0000_0000),
{
    let pa = pow2(a.exp as nat) as int;
    let pb = pow2(b.exp as nat) as int;
    lemma_pow2_pos(a.exp as nat);
    lemma_pow2_pos(b.exp as nat);
    let m = a.man as int;
    let n = b.man as int;
    if a.exp == b.exp {
        assert((m * pa > n * pa) == (m > n)) by (nonlinear_arith)
            requires
                pa > 0,
        ;
    } else if a.exp < b.exp {
        lemma_pow2_adds(a.exp as nat, (b.exp - a.exp) as nat);
        lemma_pow2_unfold((b.exp - a.exp) as nat);
        lemma_pow2_pos((b.exp - a.exp - 1) as nat);
        let pd = pow2((b.exp - a.exp) as nat) as int;
        assert(m * pa <= n * (pa * pd)) by (nonlinear_arith)
            requires
                m <= 0x20_0000_0000_0000,
                n >= 0x10_0000_0000_0000,
                pd >= 2,
                pa > 0,
        ;
    } else {
        let d = (a.exp - b.exp) as nat;
        lemma_pow2_adds(b.exp as nat, d);
        lemma_pow2_unfold(d);
        lemma_pow2_pos((d - 1) as nat);
        lemma2_to64();
        let pd = pow2(d) as int;
        if d == 1 {
            assert(pd == 2);
            assert((m * (pb * 2) > n * pb) == (2 * m > n)) by (nonlinear_arith)
                requires
                    pb > 0,
            ;
        } else {
            lemma_pow2_at_most(2, d);
            assert(m * (pb * pd) > n * pb) by (nonlinear_arith)
                requires
                    n <= 0x20_0000_0000_0000,
                    m >= 0x10_0000_0000_0000,
                    pd >= 4,
                    pb > 0,
            ;
        }
    }
}

proof fn lemma_truncated(f: Float)
    ensures
        f.exp < 200 ==> f@ / unit() == f.man as int / pow2((200 - f.exp) as nat) as int,
        f.exp >= 200 ==> f@ / unit() == f.man * pow2((f.exp - 200) as nat),
{
    let m = f.man as int;
    let p = pow2(f.exp as nat) as int;
    lemma_pow2_pos(f.exp as nat);
    lemma_pow2_pos(200);
    if f.exp < 200 {
        let k = (200 - f.exp) as nat;
        lemma_pow2_adds(f.exp as nat, k);
        lemma_pow2_pos(k);
        lemma_div_multiples_vanish_quotient(p, m, pow2(k) as int);
        lemma_mul_is_commutative(m, p);
    } else {
        let k = (f.exp - 200) as nat;
        lemma_pow2_adds(200, k);
        let n = m * pow2(k);
        assert(m * (unit() * pow2(k)) == n * unit()) by (nonlinear_arith)
            requires
                n == m * pow2(k),
        ;
        lemma_div_by_multiple(n, unit());
    }
}

/// A number that is not too small has 53 bits down to some bit.
proof fn lemma_53_bits_exist(a: int, b: int) -> (k: nat)
    requires
        b > 0,
        a >= 0x10_0000_0000_0000 * b,
    ensures
        has_53_bits(a, b, k),
    decreases a - 0x10_0000_0000_0000 * b,
{
    lemma2_to64();
    if a < 0x20_0000_0000_0000 * b {
        assert(b * pow2(0) == b);
        0
    } else {
        let k = lemma_53_bits_exist(a, 2 * b);
        lemma_pow2_unfold(k + 1);
        let p = pow2(k) as int;
        assert(b * (2 * p) == 2 * b * p) by (nonlinear_arith);
        k + 1
    }
}

/// Rounding passes over no number of 53 bits: what is at most, or at least,
/// such a number still is when it is rounded.
pub proof fn lemma_rounded_keeps_order(a: int, b: int, m: int, j: nat)
    requires
        b > 0,
        a >= 0x10_0000_0000_0000 * b,
        0 <= m <= 0x20_0000_0000_0000,
    ensures
        a <= b * (m * pow2(j)) ==> rounded(a, b) <= m * pow2(j),
        a >= b * (m * pow2(j)) ==> rounded(a, b) >= m * pow2(j),
{
    let k = lemma_53_bits_exist(a, b);
    lemma_rounded(a, b, k);
    lemma_pow2_pos(k);
    lemma_pow2_pos(j);
    let p = pow2(k) as int;
    let bp = b * p;
    assert(bp > 0) by (nonlinear_arith)
        requires
            b > 0,
            p > 0,
            bp == b * p,
    ;
    let q = a / bp;
    let r = a % bp;
    let n = nearest_even(a, bp);
    lemma_fundamental_div_mod(a, bp);
    lemma_mod_bound(a, bp);
    if j >= k {
        // the number is a multiple of what the last bit is worth
        let t = pow2((j - k) as nat) as int;
        lemma_pow2_adds(k, (j - k) as nat);
        let big = m * t;
        assert(m * (p * t) == big * p) by (nonlinear_arith)
            requires
                big == m * t,
        ;
        assert(b * (big * p) == bp * big) by (nonlinear_arith)
            requires
                bp == b * p,
        ;
        lemma_counted_off(a, bp, q, r, big);
        assert(n <= big ==> n * p <= big * p) by (nonlinear_arith)
            requires
                p > 0,
        ;
        assert(n >= big ==> n * p >= big * p) by (nonlinear_arith)
            requires
                p > 0,
        ;
    } else {
        // the number is no larger than the least with as many digits
        let t = pow2((k - j) as nat) as int;
        lemma_pow2_adds(j, (k - j) as nat);
        lemma_pow2_unfold((k - j) as nat);
        lemma_pow2_pos((k - j - 1) as nat);
        let pj = pow2(j) as int;
        let least = 0x10_0000_0000_0000int;
        assert(m * pj <= least * (pj * t)) by (nonlinear_arith)
            requires
                m <= 2 * least,
                t >= 2,
                pj > 0,
                least > 0,
        ;
        assert(b * (m * pj) <= b * (least * p)) by (nonlinear_arith)
            requires
                m * pj <= least * p,
                b > 0,
        ;
        assert(b * (least * p) == bp * least) by (nonlinear_arith)
            requires
                bp == b * p,
        ;
        lemma_counted_off(a, bp, q, r, least);
        assert(n >= least ==> n * p >= least * p) by (nonlinear_arith)
            requires
                p > 0,
        ;
        assert(n <= least ==> n * p <= least * p) by (nonlinear_arith)
            requires
                p > 0,
        ;
        if a <= b * (m * pj) {
            assert(m * pj >= least * p) by (nonlinear_arith)
                requires
                    b * (m * pj) >= b * (least * p),
                    b > 0,
            ;
        }
    }
}

/// Rounding a quotient to an integer passes over no integer.
proof fn lemma_counted_off(a: int, b: int, q: int, r: int, n: int)
    requires
        b > 0,
        a == b * q + r,
        0 <= r < b,
        q == a / b,
        r == a % b,
    ensures
        a <= b * n ==> nearest_even(a, b) <= n,
        a >= b * n ==> nearest_even(a, b) >= n,
{
    if a <= b * n {
        assert(q < n || q == n && r == 0) by (nonlinear_arith)
            requires
                b * q + r <= b * n,
                0 <= r < b,
                b > 0,
        ;
    }
    if a >= b * n {
        assert(q >= n) by (nonlinear_arith)
            requires
                b * q + r >= b * n,
                0 <= r < b,
                b > 0,
        ;
    }
}

/// Two numbers that differ do so by no less than their last bits are worth.
pub proof fn lemma_difference(x: Float, y: Float)
    requires
        x@ > y@,
        x.exp >= 52,
        y.exp >= 52,
    ensures
        x@ - y@ >= 0x10_0000_0000_0000,
{
    lemma2_to64_rest();
    lemma_pow2_adds(52, (x.exp - 52) as nat);
    lemma_pow2_adds(52, (y.exp - 52) as nat);
    let least = 0x10_0000_0000_0000int;
    let a = x.man * pow2((x.exp - 52) as nat);
    let b = y.man * pow2((y.exp - 52) as nat);
    assert(x@ == least * a) by (nonlinear_arith)
        requires
            x@ == x.man * (least * pow2((x.exp - 52) as nat)),
            a == x.man * pow2((x.exp - 52) as nat),
    ;
    assert(y@ == least * b) by (nonlinear_arith)
        requires
            y@ == y.man * (least * pow2((y.exp - 52) as nat)),
            b == y.man * pow2((y.exp - 52) as nat),
    ;
    assert(a > b);
}

/// A whole number of up to 53 bits is held as it is.
pub proof fn lemma_float_exact(x: int)
    requires
        0 <= x <= 0x20_0000_0000_0000,
    ensures
        float_of(x) == x * unit(),
        x <= usize::MAX ==> truncated(x * unit()) == x,
{
    let u = unit();
    lemma_pow2_adds(52, 148);
    lemma_pow2_pos(148);
    lemma2_to64_rest();
    lemma_pow2_pos(200);
    if x > 0 {
        assert(x * u >= 0x10_0000_0000_0000) by (nonlinear_arith)
            requires
                x >= 1,
                u == 0x10_0000_0000_0000 * pow2(148),
                pow2(148) >= 1,
        ;
        lemma_rounded_keeps_order(x * u, 1, x, 200);
    }
    lemma_div_by_multiple(x, u);
}

} // verus!

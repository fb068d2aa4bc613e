//! The floating point formulas of the congestion controller.

use crate::engine::binary64::{
    float_of, lemma_difference, lemma_float_exact, lemma_rounded_keeps_order, product, quotient,
    rounded, sum, truncated, unit, Float,
};
use crate::engine::window::MIN_WINDOW_SIZE;
use vstd::arithmetic::div_mod::*;
use vstd::arithmetic::mul::*;
use vstd::arithmetic::power2::*;
use vstd::prelude::*;

verus! {

/// How many bytes the window can grow by in a round trip, at most.
pub const MAX_CWND_INCREASE_BYTES_PER_RTT: u64 = 3000;

/// Whole numbers up to this one are held without rounding.
pub const EXACT: u64 = 0x20_0000_0000_0000;

/// The number nearest to 0.9.
pub open spec fn nine_tenths() -> int {
    8106479329266893int * pow2(147)
}

/// Half of `w`, cut to an integer.
pub open spec fn halved(w: usize) -> usize {
    truncated(float_of(w as int) / 2)
}

/// The fraction of the window that `acked` bytes are.
pub open spec fn window_factor(w: usize, acked: usize) -> int {
    if acked <= w {
        quotient(float_of(acked as int), float_of(w as int))
    } else {
        quotient(float_of(w as int), float_of(acked as int))
    }
}

/// How far a delay that is off the target by `distance`, one way or the
/// other, moves the window.
pub open spec fn gain(w: usize, acked: usize, distance: int, target: i32) -> int {
    product(
        product(float_of(MAX_CWND_INCREASE_BYTES_PER_RTT as int), window_factor(w, acked)),
        quotient(float_of(distance), float_of(target as int)),
    )
}

/// The window that a delay of `off_target` less than the target asks for: it
/// grows while the delay is short of the target, unless the sender is
/// `limited` by what it has to send, and shrinks while it is beyond.
pub open spec fn ledbat_window(
    w: usize,
    acked: usize,
    off_target: i32,
    target: i32,
    limited: bool,
) -> usize {
    let base = float_of(w as int);
    let moved = if off_target == 0 || (off_target > 0 && limited) {
        base
    } else if off_target > 0 {
        sum(base, gain(w, acked, off_target as int, target))
    } else {
        rounded(base - gain(w, acked, -off_target, target), 1)
    };
    if moved < MIN_WINDOW_SIZE * unit() {
        MIN_WINDOW_SIZE
    } else {
        truncated(moved)
    }
}

/// The window grown by as much of a packet as of the window was
/// acknowledged.
pub open spec fn slow_start_window(w: usize, acked: usize, packet_size: usize) -> usize {
    truncated(
        sum(
            float_of(w as int),
            product(window_factor(w, acked), float_of(packet_size as int)),
        ),
    )
}

/// Whether the delay is above nine tenths of the target.
pub open spec fn near_target(our_delay: i32, target: i32) -> bool {
    our_delay * unit() > product(float_of(target as int), nine_tenths())
}

proof fn lemma_nothing()
    ensures
        float_of(0) == 0,
        forall|y: int| #[trigger] quotient(0, y) == 0,
        forall|y: int| #[trigger] product(0, y) == 0,
        forall|x: int| #[trigger] product(x, 0) == 0,
        sum(0, 0) == 0,
        unit() > 0,
        truncated(0) == 0,
{
    lemma_pow2_pos(200);
    assert forall|y: int| #[trigger] quotient(0, y) == 0 by {
        lemma_mul_basics(unit());
    }
    assert forall|y: int| #[trigger] product(0, y) == 0 by {
        lemma_mul_basics(y);
    }
    assert forall|x: int| #[trigger] product(x, 0) == 0 by {
        lemma_mul_basics(x);
    }
    lemma_mul_basics(unit());
}

pub fn halve(w: usize) -> (r: usize)
    ensures
        r == halved(w),
{
    if w == 0 {
        proof {
            lemma_nothing();
        }
        return 0;
    }
    let f: Float = Float::from_u64(w as u64);
    let h: Float = Float { man: f.man, exp: f.exp - 1 };
    proof {
        lemma_pow2_unfold(f.exp as nat);
        let p = pow2((f.exp - 1) as nat) as int;
        assert(f.man * (2 * p) == 2 * (f.man * p)) by (nonlinear_arith);
    }
    h.truncate()
}

/// The fraction of a window that is not empty.
fn factor(w: usize, acked: usize) -> (f: Float)
    requires
        acked > 0,
        w > 0,
    ensures
        f.wf(),
        f.man > 0,
        f@ == window_factor(w, acked),
        82 <= f.exp <= 214,
{
    if acked <= w {
        Float::from_u64(acked as u64).div(Float::from_u64(w as u64))
    } else {
        Float::from_u64(w as u64).div(Float::from_u64(acked as u64))
    }
}

fn gain_of(w: usize, acked: usize, distance: u64, target: i32) -> (f: Float)
    requires
        acked > 0,
        w > 0,
        0 < distance <= 0x8000_0000,
        target > 0,
    ensures
        f.wf(),
        f.man > 0,
        f@ == gain(w, acked, distance as int, target),
        52 <= f.exp <= 400,
{
    let most: Float = Float::from_u64(MAX_CWND_INCREASE_BYTES_PER_RTT);
    let window: Float = most.mul(factor(w, acked));
    let delay: Float = Float::from_u64(distance).div(Float::from_u64(target as u64));
    window.mul(delay)
}

/// A number cut to an integer, but at least the least window.
fn at_least_window(f: Float) -> (r: usize)
    requires
        f.wf(),
    ensures
        r == (if f@ < MIN_WINDOW_SIZE * unit() {
            MIN_WINDOW_SIZE
        } else {
            truncated(f@)
        }),
{
    let t: usize = f.truncate();
    proof {
        lemma_nothing();
        let u = unit();
        lemma_fundamental_div_mod(f@, u);
        lemma_mod_bound(f@, u);
        let q = f@ / u;
        let m = f@ % u;
        assert(u * q + m == f@);
        if q < 10 {
            assert(u * q + m < 10 * u) by (nonlinear_arith)
                requires
                    q <= 9,
                    m < u,
                    u > 0,
            ;
        } else {
            assert(u * q + m >= 10 * u) by (nonlinear_arith)
                requires
                    q >= 10,
                    m >= 0,
                    u > 0,
            ;
        }
        lemma_pow2_pos(f.exp as nat);
        assert(f@ >= 0) by (nonlinear_arith)
            requires
                f@ == f.man * pow2(f.exp as nat),
                pow2(f.exp as nat) > 0,
                f.man >= 0,
        ;
        lemma_div_pos_is_pos(f@, u);
    }
    if t < MIN_WINDOW_SIZE {
        MIN_WINDOW_SIZE
    } else {
        t
    }
}

/// What is cut to an integer stays on the same side of any integer.
proof fn lemma_whole(w: int)
    requires
        0 <= w <= usize::MAX,
    ensures
        forall|x: int| 0 <= x <= w * unit() ==> #[trigger] truncated(x) <= w,
        forall|x: int| x >= w * unit() ==> #[trigger] truncated(x) >= w,
        w >= MIN_WINDOW_SIZE ==> w * unit() >= MIN_WINDOW_SIZE * unit(),
{
    let u = unit();
    lemma_pow2_pos(200);
    lemma_div_by_multiple(w, u);
    assert forall|x: int| 0 <= x <= w * u implies #[trigger] truncated(x) <= w by {
        lemma_div_is_ordered(x, w * u, u);
        lemma_div_pos_is_pos(x, u);
    }
    assert forall|x: int| x >= w * u implies #[trigger] truncated(x) >= w by {
        lemma_div_is_ordered(w * u, x, u);
    }
    assert(w >= 10 ==> w * u >= 10 * u) by (nonlinear_arith)
        requires
            u > 0,
    ;
}

/// What is added to a number does not make it smaller, and what is taken away
/// does not make it larger, whatever the rounding.
proof fn lemma_moved(base: Float, by: Float)
    requires
        base.wf(),
        by.wf(),
        base.man > 0,
        by.man > 0,
        base.exp >= 52,
        by.exp >= 52,
    ensures
        sum(base@, by@) >= base@,
        base@ > by@ ==> rounded(base@ - by@, 1) <= base@,
{
    let zero = Float { man: 0, exp: 52 };
    assert(zero@ == 0);
    lemma_pow2_pos(base.exp as nat);
    lemma_pow2_pos(by.exp as nat);
    assert(base@ > 0 && by@ > 0) by (nonlinear_arith)
        requires
            base@ == base.man * pow2(base.exp as nat),
            by@ == by.man * pow2(by.exp as nat),
            base.man > 0,
            by.man > 0,
            pow2(base.exp as nat) > 0,
            pow2(by.exp as nat) > 0,
    ;
    lemma_difference(base, zero);
    lemma_rounded_keeps_order(base@ + by@, 1, base.man as int, base.exp as nat);
    if base@ > by@ {
        lemma_difference(base, by);
        lemma_rounded_keeps_order(base@ - by@, 1, base.man as int, base.exp as nat);
    }
}

/// The window to go by. As far as it is held without rounding, it does not
/// grow while the delay is at the target or beyond, and does not shrink while
/// the delay is short of it.
pub fn ledbat(w: usize, acked: usize, off_target: i32, target: i32, limited: bool) -> (r: usize)
    requires
        acked > 0,
        target > 0,
    ensures
        r == ledbat_window(w, acked, off_target, target, limited),
        w <= EXACT && off_target <= 0 ==> r <= w || r == MIN_WINDOW_SIZE,
        w <= EXACT && off_target >= 0 ==> r >= w,
{
    proof {
        lemma_nothing();
        if w <= EXACT {
            lemma_float_exact(w as int);
            lemma_whole(w as int);
        }
    }
    if w == 0 {
        assert(window_factor(0, acked) == 0);
        return MIN_WINDOW_SIZE;
    }
    let base: Float = Float::from_u64(w as u64);
    if off_target == 0 || (off_target > 0 && limited) {
        at_least_window(base)
    } else if off_target > 0 {
        let by: Float = gain_of(w, acked, off_target as u64, target);
        proof {
            lemma_moved(base, by);
        }
        at_least_window(base.plus(by))
    } else {
        let by: Float = gain_of(w, acked, (-(off_target as i64)) as u64, target);
        if base.greater(by) {
            proof {
                lemma_moved(base, by);
            }
            at_least_window(base.minus(by))
        } else {
            MIN_WINDOW_SIZE
        }
    }
}

pub fn slow_start(w: usize, acked: usize, packet_size: usize) -> (r: usize)
    requires
        acked > 0,
        packet_size > 0,
    ensures
        r == slow_start_window(w, acked, packet_size),
{
    proof {
        lemma_nothing();
    }
    if w == 0 {
        assert(window_factor(0, acked) == 0);
        return 0;
    }
    let by: Float = factor(w, acked).mul(Float::from_u64(packet_size as u64));
    Float::from_u64(w as u64).plus(by).truncate()
}

pub fn is_near_target(our_delay: i32, target: i32) -> (r: bool)
    requires
        target > 0,
    ensures
        r == near_target(our_delay, target),
{
    let most: Float = Float::from_u64(target as u64).mul(
        Float { man: 8106479329266893, exp: 147 },
    );
    proof {
        lemma_nothing();
        lemma_pow2_pos(most.exp as nat);
        assert(most@ > 0) by (nonlinear_arith)
            requires
                most@ == most.man * pow2(most.exp as nat),
                pow2(most.exp as nat) > 0,
                most.man > 0,
        ;
        assert(our_delay <= 0 ==> our_delay * unit() <= 0) by (nonlinear_arith)
            requires
                unit() > 0,
        ;
    }
    if our_delay <= 0 {
        return false;
    }
    most.below(our_delay as u32)
}

/// A delay at the target or beyond is near it.
pub proof fn lemma_beyond_is_near(our_delay: i32, target: i32)
    requires
        0 < target <= our_delay,
    ensures
        near_target(our_delay, target),
{
    let u = unit();
    let t = target as int;
    let nine = 8106479329266893int;
    lemma_float_exact(t);
    lemma_pow2_pos(200);
    lemma_pow2_adds(147, 53);
    lemma_pow2_adds(195, 5);
    lemma2_to64();
    lemma2_to64_rest();
    let p = pow2(147) as int;
    let x = pow2(195) as int;
    lemma_pow2_pos(147);
    lemma_pow2_pos(195);
    // 0.9 is at most 31/32, and the target times that is held exactly but for
    // less than a 32nd
    let a = t * u * (nine * p);
    let m = 32 * t - 1;
    assert(u == 32 * x && u == 0x20_0000_0000_0000 * p);
    assert(t * (nine * p) <= m * x) by (nonlinear_arith)
        requires
            t >= 1,
            m == 32 * t - 1,
            32 * x == 0x20_0000_0000_0000 * p,
            p > 0,
            nine == 8106479329266893,
    ;
    assert(a <= u * (m * x)) by (nonlinear_arith)
        requires
            a == t * u * (nine * p),
            t * (nine * p) <= m * x,
            u > 0,
    ;
    assert(a >= 0x10_0000_0000_0000 * u) by (nonlinear_arith)
        requires
            a == t * u * (nine * p),
            t >= 1,
            p >= 1,
            u > 0,
            nine >= 0x10_0000_0000_0000,
    ;
    lemma_rounded_keeps_order(a, u, m, 195);
    assert(m * x < our_delay * u) by (nonlinear_arith)
        requires
            m == 32 * t - 1,
            u == 32 * x,
            x > 0,
            t <= our_delay,
    ;
}

} // verus!

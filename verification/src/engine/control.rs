//! What the congestion controller is for: the window grows while the delay is
//! short of the target, shrinks while it is beyond, and is left alone while the
//! sender does not fill it.

use crate::engine::binary64::{
    float_of, has_53_bits, lemma_float_exact, lemma_rounded_keeps_order, nearest_even, product,
    quotient, rounded, sum, truncated, unit,
};
use crate::engine::ledbat::{gain, lemma_beyond_is_near, window_factor};
use crate::engine::window::{effective_delay, Cwnd};
use vstd::arithmetic::div_mod::*;
use vstd::arithmetic::mul::*;
use vstd::arithmetic::power2::*;
use vstd::prelude::*;

verus! {

/// Nothing is rounded below zero.
proof fn lemma_rounded_not_negative(a: int, b: int)
    requires
        b > 0,
    ensures
        rounded(a, b) >= 0,
{
    if a > 0 {
        let k = choose|k: nat| has_53_bits(a, b, k);
        lemma_pow2_pos(k);
        let p = pow2(k) as int;
        assert(b * p > 0) by (nonlinear_arith)
            requires
                b > 0,
                p > 0,
        ;
        lemma_div_pos_is_pos(a, b * p);
        let n = nearest_even(a, b * p);
        assert(n * p >= 0) by (nonlinear_arith)
            requires
                n >= 0,
                p > 0,
        ;
    }
}

/// What something is added to does not become less.
proof fn lemma_sum_grows(w: int, by: int)
    requires
        1 <= w <= 0x20_0000_0000_0000,
        w <= usize::MAX,
        by >= 0,
    ensures
        truncated(sum(float_of(w), by)) >= w,
        sum(float_of(w), by) >= w * unit(),
{
    let u = unit();
    lemma_float_exact(w);
    lemma_pow2_pos(200);
    lemma_pow2_adds(52, 148);
    lemma_pow2_pos(148);
    lemma2_to64_rest();
    let a = w * u + by;
    assert(a >= 0x10_0000_0000_0000) by (nonlinear_arith)
        requires
            a == w * u + by,
            by >= 0,
            w >= 1,
            u == 0x10_0000_0000_0000 * pow2(148),
            pow2(148) >= 1,
    ;
    lemma_rounded_keeps_order(a, 1, w, 200);
    let x = sum(float_of(w), by);
    lemma_div_is_ordered(w * u, x, u);
    lemma_div_by_multiple(w, u);
}

proof fn lemma_gain_not_negative(w: usize, acked: usize, distance: int, target: i32)
    requires
        w > 0,
        acked > 0,
    ensures
        gain(w, acked, distance, target) >= 0,
{
    lemma_pow2_pos(200);
    lemma_rounded_not_negative(
        product(float_of(3000), window_factor(w, acked)) * quotient(
            float_of(distance),
            float_of(target as int),
        ),
        unit(),
    );
}

/// The window as the controller leaves it when nothing moves it.
pub open spec fn kept_window(c: Cwnd) -> usize {
    if c.max_window < 10 {
        10
    } else if c.max_window > c.opt_sndbuf {
        c.opt_sndbuf
    } else {
        c.max_window
    }
}

/// The target delay that was set, if it makes sense.
pub open spec fn target_is(c: Cwnd, target: i32) -> bool {
    0 < target == c.target_delay
}

/// Out of slow start: a delay short of the target never makes the window
/// smaller, one at the target leaves it alone, and so does any short of it if
/// the window has not been full in the last second.
pub proof fn lemma_short_delay_never_shrinks(
    c: Cwnd,
    current_ms: u64,
    bytes_acked: usize,
    our_delay: i32,
    packet_size: usize,
    target: i32,
)
    requires
        !c.slow_start,
        target_is(c, target),
        1 <= c.max_window <= 0x20_0000_0000_0000,
        c.opt_sndbuf >= 10,
        bytes_acked > 0,
        0 <= our_delay <= target,
    ensures
        ({
            let after = c.controlled(current_ms, bytes_acked, our_delay, packet_size);
            let limited = current_ms.wrapping_sub(c.last_maxed_out_window) > 1000;
            &&& after.max_window >= kept_window(c)
            &&& our_delay == target || limited ==> after.max_window == kept_window(c)
            &&& !after.slow_start
            &&& after.ssthresh == c.ssthresh
            &&& after.opt_sndbuf == c.opt_sndbuf
        }),
{
    let w = c.max_window;
    lemma_float_exact(w as int);
    lemma_pow2_pos(200);
    let u = unit();
    assert(w < 10 ==> w * u < 10 * u) by (nonlinear_arith)
        requires
            u > 0,
    ;
    assert(w >= 10 ==> w * u >= 10 * u) by (nonlinear_arith)
        requires
            u > 0,
    ;
    let off = target.wrapping_sub(our_delay);
    if off > 0 {
        lemma_gain_not_negative(w, bytes_acked, off as int, target);
        lemma_sum_grows(w as int, gain(w, bytes_acked, off as int, target));
    }
}

/// In slow start the window never becomes smaller than it was, unless the send
/// buffer does not allow it; a delay at the target or beyond ends slow start,
/// with the window as it is for the threshold, unless the threshold was
/// reached before.
pub proof fn lemma_slow_start_never_shrinks(
    c: Cwnd,
    current_ms: u64,
    bytes_acked: usize,
    our_delay: i32,
    packet_size: usize,
    target: i32,
)
    requires
        c.slow_start,
        target_is(c, target),
        1 <= c.max_window <= 0x20_0000_0000_0000,
        c.opt_sndbuf >= 10,
        bytes_acked > 0,
        packet_size > 0,
    ensures
        ({
            let after = c.controlled(current_ms, bytes_acked, our_delay, packet_size);
            &&& after.max_window >= kept_window(c)
            &&& our_delay >= target ==> !after.slow_start && after.max_window == kept_window(c)
            &&& after.slow_start ==> after.ssthresh == c.ssthresh && c.max_window <= c.ssthresh
            &&& !after.slow_start ==> after.max_window == kept_window(c) && (after.ssthresh
                == c.ssthresh || after.ssthresh == c.max_window)
        }),
{
    let w = c.max_window;
    lemma_pow2_pos(200);
    let f = product(window_factor(w, bytes_acked), float_of(packet_size as int));
    lemma_rounded_not_negative(
        window_factor(w, bytes_acked) * float_of(packet_size as int),
        unit(),
    );
    lemma_sum_grows(w as int, f);
    if our_delay >= target {
        lemma_beyond_is_near(our_delay, target);
    }
}

/// A quotient of whole numbers, the smaller by the larger, is at most 1, and not
/// tiny.
proof fn lemma_fraction(x: int, y: int)
    requires
        1 <= x <= y <= 0x20_0000_0000_0000,
    ensures
        pow2(147) <= quotient(float_of(x), float_of(y)) <= unit(),
{
    let u = unit();
    let p = pow2(147) as int;
    let s = pow2(95) as int;
    lemma_float_exact(x);
    lemma_float_exact(y);
    lemma_pow2_adds(147, 53);
    lemma_pow2_adds(52, 95);
    lemma_pow2_pos(147);
    lemma_pow2_pos(95);
    lemma2_to64_rest();
    let a = (x * u) * u;
    let b = y * u;
    assert(u == 0x20_0000_0000_0000 * p);
    assert(p == 0x10_0000_0000_0000 * s);
    assert(b > 0) by (nonlinear_arith)
        requires
            b == y * u,
            y >= 1,
            u > 0,
    ;
    assert(x * u >= y * p) by (nonlinear_arith)
        requires
            x >= 1,
            0 <= y <= 0x20_0000_0000_0000,
            u == 0x20_0000_0000_0000 * p,
            p > 0,
    ;
    assert(a >= b * p) by (nonlinear_arith)
        requires
            a == (x * u) * u,
            b == y * u,
            x * u >= y * p,
            u > 0,
    ;
    assert(a >= 0x10_0000_0000_0000 * b) by (nonlinear_arith)
        requires
            a >= b * p,
            p == 0x10_0000_0000_0000 * s,
            s >= 1,
            b > 0,
    ;
    assert(a <= b * u) by (nonlinear_arith)
        requires
            a == (x * u) * u,
            b == y * u,
            x <= y,
            u > 0,
    ;
    lemma_rounded_keeps_order(a, b, 1, 200);
    lemma_rounded_keeps_order(a, b, 1, 147);
}

/// What is at most `m` times a fraction is at most `m`.
proof fn lemma_product_at_most(x: int, f: int, m: int)
    requires
        1 <= m <= 0x20_0000_0000_0000,
        pow2(147) <= f <= unit(),
        pow2(147) <= x <= m * unit(),
    ensures
        0 <= product(x, f) <= m * unit(),
        product(f, x) == product(x, f),
{
    let u = unit();
    let p = pow2(147) as int;
    let s = pow2(42) as int;
    lemma_pow2_adds(147, 53);
    lemma_pow2_adds(105, 42);
    lemma_pow2_adds(53, 52);
    lemma_pow2_pos(147);
    lemma_pow2_pos(42);
    lemma_pow2_pos(105);
    lemma_pow2_pos(200);
    lemma2_to64_rest();
    let a = x * f;
    assert(x * f == f * x) by (nonlinear_arith);
    assert(u == 0x20_0000_0000_0000 * p);
    assert(p >= 0x20_0000_0000_0000 * 0x10_0000_0000_0000) by (nonlinear_arith)
        requires
            p == (0x20_0000_0000_0000 * 0x10_0000_0000_0000) * s,
            s >= 1,
    ;
    assert(a >= p * p) by (nonlinear_arith)
        requires
            a == x * f,
            x >= p,
            f >= p,
            p > 0,
    ;
    assert(p * p >= 0x10_0000_0000_0000 * u) by (nonlinear_arith)
        requires
            u == 0x20_0000_0000_0000 * p,
            p >= 0x20_0000_0000_0000 * 0x10_0000_0000_0000,
    ;
    assert(a <= u * (m * u)) by (nonlinear_arith)
        requires
            a == x * f,
            0 <= f <= u,
            0 <= x <= m * u,
    ;
    lemma_rounded_keeps_order(a, u, m, 200);
    lemma_rounded_not_negative(a, u);
}

/// A product with a fraction that is not tiny is not tiny itself.
proof fn lemma_product_at_least(m: int, f: int)
    requires
        1 <= m <= 0x20_0000_0000_0000,
        pow2(147) <= f <= unit(),
    ensures
        product(m * unit(), f) >= pow2(147),
{
    let u = unit();
    let p = pow2(147) as int;
    lemma_pow2_adds(52, 95);
    lemma_pow2_pos(147);
    lemma_pow2_pos(95);
    lemma_pow2_pos(200);
    lemma2_to64_rest();
    let a = (m * u) * f;
    assert(p >= 0x10_0000_0000_0000) by (nonlinear_arith)
        requires
            p == 0x10_0000_0000_0000 * pow2(95),
            pow2(95) >= 1,
    ;
    assert(a >= u * p) by (nonlinear_arith)
        requires
            a == (m * u) * f,
            m >= 1,
            f >= p,
            p > 0,
            u > 0,
    ;
    assert(u * p >= 0x10_0000_0000_0000 * u) by (nonlinear_arith)
        requires
            p >= 0x10_0000_0000_0000,
            u > 0,
    ;
    lemma_rounded_keeps_order(a, u, 1, 147);
}

proof fn lemma_factor_is_fraction(w: usize, acked: usize)
    requires
        1 <= w <= 0x20_0000_0000_0000,
        1 <= acked <= 0x20_0000_0000_0000,
    ensures
        pow2(147) <= window_factor(w, acked) <= unit(),
{
    if acked <= w {
        lemma_fraction(acked as int, w as int);
    } else {
        lemma_fraction(w as int, acked as int);
    }
}

proof fn lemma_gain_at_most(w: usize, acked: usize, distance: int, target: i32)
    requires
        1 <= w <= 0x20_0000_0000_0000,
        1 <= acked <= 0x20_0000_0000_0000,
        1 <= distance <= target,
    ensures
        0 <= gain(w, acked, distance, target) <= 3000 * unit(),
{
    let f = window_factor(w, acked);
    lemma_factor_is_fraction(w, acked);
    lemma_fraction(distance, target as int);
    lemma_float_exact(3000);
    lemma_product_at_least(3000, f);
    lemma_pow2_pos(200);
    lemma_pow2_adds(147, 53);
    lemma_pow2_pos(53);
    lemma_pow2_pos(147);
    let u = unit();
    assert(pow2(147) <= 3000 * u) by (nonlinear_arith)
        requires
            u == pow2(147) * pow2(53),
            pow2(53) >= 1,
            pow2(147) >= 1,
    ;
    lemma_product_at_most(3000 * u, f, 3000);
    let x = product(3000 * u, f);
    lemma_product_at_most(x, quotient(float_of(distance), float_of(target as int)), 3000);
}

proof fn lemma_sum_at_most(w: int, by: int, m: int)
    requires
        1 <= w,
        0 <= m,
        w + m <= 0x20_0000_0000_0000,
        w + m <= usize::MAX,
        0 <= by <= m * unit(),
    ensures
        truncated(sum(float_of(w), by)) <= w + m,
{
    let u = unit();
    lemma_float_exact(w);
    lemma_pow2_pos(200);
    lemma_pow2_adds(52, 148);
    lemma_pow2_pos(148);
    lemma2_to64_rest();
    let a = w * u + by;
    assert(a >= 0x10_0000_0000_0000) by (nonlinear_arith)
        requires
            a == w * u + by,
            by >= 0,
            w >= 1,
            u == 0x10_0000_0000_0000 * pow2(148),
            pow2(148) >= 1,
    ;
    assert(a <= (w + m) * u) by (nonlinear_arith)
        requires
            a == w * u + by,
            by <= m * u,
    ;
    lemma_rounded_keeps_order(a, 1, w + m, 200);
    lemma_rounded_not_negative(a, 1);
    let x = sum(float_of(w), by);
    lemma_div_is_ordered(x, (w + m) * u, u);
    lemma_div_by_multiple(w + m, u);
    lemma_div_pos_is_pos(x, u);
}

/// The window grows by no more than 3000 bytes at a time, and in slow start by
/// no more than that or a packet.
pub proof fn lemma_window_grows_slowly(
    c: Cwnd,
    current_ms: u64,
    bytes_acked: usize,
    our_delay: i32,
    packet_size: usize,
    target: i32,
)
    requires
        target_is(c, target),
        10 <= c.max_window <= 0x8_0000_0000_0000,
        c.max_window + packet_size + 3000 <= usize::MAX,
        1 <= bytes_acked <= 0x20_0000_0000_0000,
        1 <= packet_size <= 0x10_0000,
        0 <= our_delay <= target,
    ensures
        ({
            let after = c.controlled(current_ms, bytes_acked, our_delay, packet_size);
            &&& !c.slow_start ==> after.max_window <= c.max_window + 3000
            &&& after.max_window <= c.max_window + 3000 || after.max_window <= c.max_window
                + packet_size
        }),
{
    let w = c.max_window;
    let u = unit();
    lemma_float_exact(w as int);
    lemma_pow2_pos(200);
    let off = target.wrapping_sub(our_delay);
    if off > 0 {
        lemma_gain_at_most(w, bytes_acked, off as int, target);
        lemma_sum_at_most(w as int, gain(w, bytes_acked, off as int, target), 3000);
    }
    let f = window_factor(w, bytes_acked);
    lemma_factor_is_fraction(w, bytes_acked);
    lemma_float_exact(packet_size as int);
    lemma_pow2_adds(147, 53);
    lemma_pow2_pos(53);
    lemma_pow2_pos(147);
    assert(pow2(147) <= packet_size * u) by (nonlinear_arith)
        requires
            u == pow2(147) * pow2(53),
            pow2(53) >= 1,
            pow2(147) >= 1,
            packet_size >= 1,
    ;
    lemma_product_at_most(packet_size * u, f, packet_size as int);
    lemma_sum_at_most(w as int, product(f, packet_size * u), packet_size as int);
}

/// The delay that counts is what was measured, but no more than the round trip
/// took.
pub proof fn lemma_delay_within_round_trip(measured: u32, min_rtt: i64, clock_drift: i32)
    requires
        0 <= min_rtt < 0x8000_0000,
        -200_000 <= clock_drift,
    ensures
        effective_delay(measured, min_rtt, clock_drift) == (if measured <= min_rtt {
            measured as int
        } else {
            min_rtt as int
        }),
{
}

/// A peer whose clock falls behind by more than 200 ms in 5 seconds gains
/// nothing by it: the further it falls behind, the longer the delay that
/// counts.
pub proof fn lemma_drift_is_penalised(measured: u32, min_rtt: i64, a: i32, b: i32)
    requires
        0 <= min_rtt < 0x1000_0000,
        -1_073_741_822 <= b <= a <= -200_000,
    ensures
        effective_delay(measured, min_rtt, b) >= effective_delay(measured, min_rtt, a),
        effective_delay(measured, min_rtt, a) - effective_delay(measured, min_rtt, 0) == (-a
            - 200_000) / 7,
{
}

/// A target delay of nothing stands for 100 ms.
pub proof fn lemma_target_has_a_default(
    c: Cwnd,
    current_ms: u64,
    bytes_acked: usize,
    our_delay: i32,
    packet_size: usize,
)
    requires
        c.target_delay == 0,
    ensures
        ({
            let set = Cwnd { target_delay: 100_000, ..c };
            let a = c.controlled(current_ms, bytes_acked, our_delay, packet_size);
            let b = set.controlled(current_ms, bytes_acked, our_delay, packet_size);
            &&& a.max_window == b.max_window
            &&& a.slow_start == b.slow_start
            &&& a.ssthresh == b.ssthresh
        }),
{
}

} // verus!

//! The controller's formulas against the machine's floating point.

use utp::engine::ledbat::{halve, is_near_target, ledbat, slow_start};
use utp::engine::window::Cwnd;
use utp::util::Rng;

fn ledbat_float(w: usize, acked: usize, off: i32, target: i32, limited: bool) -> usize {
    let window_factor = std::cmp::min(acked, w) as f64 / std::cmp::max(w, acked) as f64;
    let delay_factor = off as f64 / target as f64;
    let mut gain = 3000f64 * window_factor * delay_factor;
    if gain > 0.0 && limited {
        gain = 0.0;
    }
    if (w as f64 + gain) < 10f64 {
        10
    } else {
        (w as f64 + gain) as usize
    }
}

fn slow_start_float(w: usize, acked: usize, packet_size: usize) -> usize {
    let window_factor = std::cmp::min(acked, w) as f64 / std::cmp::max(w, acked) as f64;
    (w as f64 + window_factor * packet_size as f64) as usize
}

/// Numbers of all sizes.
fn sample(rng: &mut Rng) -> usize {
    let shift = rng.next_u32() % 64;
    (rng.next_u64() >> shift) as usize
}

#[test]
fn halving() {
    assert_eq!(halve(0), 0);
    assert_eq!(halve(1), 0);
    assert_eq!(halve(1001), 500);
    assert_eq!(halve(usize::MAX), 1 << (usize::BITS - 1));
    let mut rng = Rng::seeded(1, 1);
    for _ in 0..20_000 {
        let w = sample(&mut rng);
        assert_eq!(halve(w), (w as f64 * 0.5) as usize, "{}", w);
    }
}

#[test]
fn control_steps() {
    assert_eq!(ledbat(10_000, 1_400, 50_000, 100_000, false), 10_210);
    assert_eq!(ledbat(10_000, 1_400, 50_000, 100_000, true), 10_000);
    assert_eq!(ledbat(10_000, 1_400, -50_000, 100_000, true), 9_790);
    assert_eq!(ledbat(0, 1_400, 50_000, 100_000, false), 10);
    assert_eq!(ledbat(20, 1_400, -2_000_000_000, 1, false), 10);
    assert_eq!(ledbat(1_400, 1_400, 0, 100_000, false), 1_400);
    let mut rng = Rng::seeded(2, 2);
    for _ in 0..50_000 {
        let w = sample(&mut rng);
        let acked = sample(&mut rng).max(1);
        let off = (rng.next_u32() as i32) >> (rng.next_u32() % 31);
        let target = ((rng.next_u32() >> 1) >> (rng.next_u32() % 31)).max(1) as i32;
        let limited = rng.next_u32() % 4 == 0;
        assert_eq!(
            ledbat(w, acked, off, target, limited),
            ledbat_float(w, acked, off, target, limited),
            "{} {} {} {} {}",
            w,
            acked,
            off,
            target,
            limited
        );
    }
    // what connections really have
    for _ in 0..50_000 {
        let w = (rng.next_u32() % 2_000_000) as usize;
        let acked = (rng.next_u32() % 100_000) as usize + 1;
        let off = (rng.next_u32() % 400_000) as i32 - 300_000;
        assert_eq!(
            ledbat(w, acked, off, 100_000, false),
            ledbat_float(w, acked, off, 100_000, false)
        );
    }
}

#[test]
fn slow_start_steps() {
    assert_eq!(slow_start(1_382, 1_382, 1_382), 2_764);
    assert_eq!(slow_start(0, 5, 1_382), 0);
    let mut rng = Rng::seeded(3, 3);
    for _ in 0..50_000 {
        let w = sample(&mut rng);
        let acked = sample(&mut rng).max(1);
        let packet_size = (rng.next_u32() % 1_500) as usize + 1;
        assert_eq!(
            slow_start(w, acked, packet_size),
            slow_start_float(w, acked, packet_size),
            "{} {} {}",
            w,
            acked,
            packet_size
        );
    }
}

#[test]
fn nearness() {
    assert!(!is_near_target(90_000, 100_000));
    assert!(is_near_target(90_001, 100_000));
    assert!(!is_near_target(-5, 1));
    let mut rng = Rng::seeded(4, 4);
    for _ in 0..50_000 {
        let target = ((rng.next_u32() >> 1) >> (rng.next_u32() % 31)).max(1) as i32;
        let nine = (target as i64 * 9 / 10) as i32;
        for d in -2..=2 {
            let delay = nine.wrapping_add(d);
            assert_eq!(
                is_near_target(delay, target),
                delay as f64 > target as f64 * 0.9,
                "{} {}",
                delay,
                target
            );
        }
        let delay = rng.next_u32() as i32;
        assert_eq!(is_near_target(delay, target), delay as f64 > target as f64 * 0.9);
    }
}

fn cwnd(max_window: usize, slow_start: bool) -> Cwnd {
    Cwnd {
        max_window,
        opt_sndbuf: 1 << 20,
        target_delay: 100_000,
        slow_start,
        ssthresh: 1 << 20,
        last_rwin_decay: 0,
        last_maxed_out_window: 10_000,
    }
}

#[test]
fn controller_phases() {
    // steady state: the LEDBAT window
    let mut c = cwnd(10_000, false);
    c.apply_ccontrol(10_000, 1_400, 50_000, 1_000_000, 0, 1_382);
    assert_eq!(c.max_window, 10_210);
    // slow start: a packet per window
    let mut c = cwnd(10_000, true);
    c.apply_ccontrol(10_000, 5_000, 50_000, 1_000_000, 0, 1_382);
    assert_eq!(c.max_window, 10_750);
    assert!(c.slow_start);
    // slow start ends close to the target
    let mut c = cwnd(10_000, true);
    c.apply_ccontrol(10_000, 5_000, 95_000, 1_000_000, 0, 1_382);
    assert!(!c.slow_start);
    assert_eq!((c.max_window, c.ssthresh), (10_000, 10_000));
    // and at the threshold
    let mut c = cwnd(10_000, true);
    c.ssthresh = 10_100;
    c.apply_ccontrol(10_000, 5_000, 50_000, 1_000_000, 0, 1_382);
    assert!(!c.slow_start);
    assert_eq!(c.max_window, 10_000);
    // the delay is never more than the round trip
    let mut c = cwnd(10_000, false);
    c.apply_ccontrol(10_000, 1_400, u32::MAX, 50_000, 0, 1_382);
    assert_eq!(c.max_window, 10_210);
    // a clock that runs away costs: (207000 - 200000) / 7 = 1000
    let mut c = cwnd(10_000, false);
    c.apply_ccontrol(10_000, 10_000, 99_000, 1_000_000, -207_000, 1_382);
    assert_eq!(c.max_window, 10_000);
    // never below the minimum, never above the send buffer
    let mut c = cwnd(12, false);
    c.apply_ccontrol(10_000, 12, 1_000_000, 2_000_000, 0, 1_382);
    assert_eq!(c.max_window, 10);
    let mut c = cwnd(10_000, false);
    c.opt_sndbuf = 10_100;
    c.apply_ccontrol(10_000, 1_400, 50_000, 1_000_000, 0, 1_382);
    assert_eq!(c.max_window, 10_100);
}

#[test]
fn backing_off() {
    let mut rng = Rng::seeded(5, 5);
    for _ in 0..20_000 {
        let w = sample(&mut rng) >> 11;
        let acked = sample(&mut rng).max(1);
        let delay = 100_000 + (rng.next_u32() >> (1 + rng.next_u32() % 20)) % 2_000_000_000;
        // at the target or beyond, the window never grows
        let mut c = cwnd(w, rng.next_u32() % 2 == 0);
        c.apply_ccontrol(10_000, acked, delay, i64::MAX, 0, 1_382);
        assert!(c.max_window <= w.max(10), "{} {} {}", w, acked, delay);
        // short of it, the controller never shrinks it
        let off = (rng.next_u32() % 100_000) as i32;
        assert!(ledbat(w, acked, off, 100_000, false) >= w);
        assert!(ledbat(w, acked, -off, 100_000, false) <= w.max(10));
    }
    assert_eq!(ledbat(10_000, 10_000, -100_000, 100_000, false), 7_000);
}

#[test]
fn window_decay() {
    let mut c = cwnd(10_000, true);
    c.last_rwin_decay = 1_000;
    assert!(!c.can_decay_win(1_099));
    c.maybe_decay_win(1_099);
    assert_eq!(c.max_window, 10_000);
    assert!(c.can_decay_win(1_100));
    c.maybe_decay_win(1_100);
    assert_eq!((c.max_window, c.ssthresh, c.slow_start), (5_000, 5_000, false));
    c.max_window = 15;
    c.maybe_decay_win(2_000);
    assert_eq!(c.max_window, 10);
    // a timeout on an idle connection takes a third, any other starts over
    let mut c = cwnd(9_000, false);
    c.on_timeout(true, 1_382);
    assert_eq!((c.max_window, c.slow_start), (6_000, false));
    c.on_timeout(false, 1_382);
    assert_eq!((c.max_window, c.slow_start), (1_382, true));
}

use utp::util::{wrapping_compare_less, Rng};

#[test]
fn wrapping_compare() {
    const M16: u32 = 0xffff;
    assert!(wrapping_compare_less(1, 2, M16));
    assert!(!wrapping_compare_less(2, 1, M16));
    assert!(!wrapping_compare_less(2, 2, M16));
    // 0xffff wrapped, considered smaller than 5
    assert!(wrapping_compare_less(0xffff, 5, M16));
    assert!(!wrapping_compare_less(5, 0xffff, M16));
    const M32: u32 = 0xffff_ffff;
    assert!(wrapping_compare_less(0xffff_ff00, 0x0000_0400, M32));
}

#[test]
fn rng_varies() {
    let mut counter = 0;
    let mut a = Rng::new(&mut counter);
    let x = a.next_u64();
    let y = a.next_u64();
    assert_ne!(x, y);
}

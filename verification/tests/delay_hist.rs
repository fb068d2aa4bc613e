use utp::delay_hist::DelayHist;

#[test]
fn tracks_min_queuing_delay() {
    let mut h = DelayHist::new(0);
    h.add_sample(1000, 0);
    h.add_sample(1500, 0);
    h.add_sample(1200, 0);
    // base is 1000, so queuing delays are 0, 500, 200 -> min 0
    assert_eq!(h.get_value(), 0);
    h.add_sample(1300, 0);
    h.add_sample(1400, 0);
    h.add_sample(1250, 0);
    // window of 3 now holds 300, 400, 250
    assert_eq!(h.get_value(), 250);
}

#[test]
fn wrapped_sample_becomes_base() {
    let mut h = DelayHist::new(0);
    h.add_sample(0x0000_0400, 0);
    // sample that wrapped past zero must be considered smaller
    h.add_sample(0xffff_ff00, 0);
    assert_eq!(h.delay_base, 0xffff_ff00);
}

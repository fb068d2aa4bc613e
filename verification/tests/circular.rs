use utp::circular::CircularBuffer;

#[test]
fn grow_preserves_window() {
    let mut b: CircularBuffer<u32> = CircularBuffer::new();
    // Fill a window starting at a sequence number that wraps the mask.
    let base = 0xfff8usize;
    for i in 0..16 {
        b.put(base + i, Some(i as u32));
    }
    // Now grow to fit an entry 20 past the base.
    b.ensure_size(base + 20, 20);
    assert!(b.size() >= 32);
    for i in 0..16 {
        assert_eq!(b.get(base + i).copied(), Some(i as u32));
    }
    b.put(base + 20, Some(99));
    assert_eq!(b.get(base + 20).copied(), Some(99));
}

#[test]
fn wrapping_index_aliases() {
    let mut b: CircularBuffer<u32> = CircularBuffer::new();
    b.put(3, Some(7));
    assert_eq!(b.get(3 + 16).copied(), Some(7));
    assert_eq!(b.take(3).unwrap(), 7);
    assert!(b.get(3).is_none());
}

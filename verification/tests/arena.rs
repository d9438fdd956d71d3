use fasteetf::arena::Bump;
use fasteetf::{EtfError, Limits};

/// The address of the first 16-aligned byte of `buf`.
fn aligned_start(buf: &[u8]) -> usize {
    let base = buf.as_ptr() as usize;
    (base + 15) / 16 * 16
}

#[test]
fn misaligned_buffer_is_rounded_up() {
    // A region whose start is not max_align_t-aligned forces the alignment
    // fixup in `Bump::new` (offset by one byte here).
    let buf = [0u8; 96];
    let start = aligned_start(&buf) + 1;
    let limits = Limits::default();
    let mut bump = Bump::new(start, 63, &limits);
    let addr = bump.alloc_slice(8, 8, 1).expect("alloc should succeed");
    assert_eq!(addr % 8, 0);
}

#[test]
fn exhausted_when_aligning_past_end() {
    // A misaligned region too small to hold the alignment fixup plus any
    // allocation hits the `addr >= end` exhaustion check.
    let buf = [0u8; 48];
    let start = aligned_start(&buf) + 1;
    let limits = Limits::default();
    let mut bump = Bump::new(start, 15, &limits);
    let err = bump.alloc_slice(8, 8, 1).expect_err("alloc should fail");
    assert!(matches!(err, EtfError::ArenaExhausted));
}

#[test]
fn exhausted_when_size_exceeds_remaining() {
    let buf = [0u8; 16];
    let limits = Limits::default();
    let mut bump = Bump::new(buf.as_ptr() as usize, buf.len(), &limits);
    let err = bump.alloc_slice(1, 1, 17).expect_err("alloc should fail");
    assert!(matches!(err, EtfError::ArenaExhausted));
}

#[test]
fn allocations_are_aligned_and_stay_in_the_region() {
    let buf = [0u8; 256];
    let start = aligned_start(&buf);
    let limits = Limits::default();
    let mut bump = Bump::new(start, 200, &limits);
    let mut last_end = start;
    for (size, align, count) in [(3usize, 1usize, 5usize), (8, 8, 2), (24, 8, 3), (1, 16, 1)] {
        let addr = bump.alloc_slice(size, align, count).expect("alloc should succeed");
        assert_eq!(addr % align, 0);
        assert!(addr >= last_end);
        last_end = addr + size * count;
        assert!(last_end <= start + 200);
    }
    assert!(matches!(bump.alloc_slice(200, 1, 1), Err(EtfError::ArenaExhausted)));
}

use blog_os_heap::fallback::FallbackAllocator;
use blog_os_heap::fixed_size_block::FixedSizeBlockAllocator;
use blog_os_heap::size_class::{block_size, class_for, NUM_CLASSES};

fn heap(start: usize, size: usize) -> FixedSizeBlockAllocator {
    let mut a = FixedSizeBlockAllocator::new();
    a.init(start, size);
    a
}

#[test]
fn trivial_assertion() {
    assert_eq!(1, 1);
}

#[test]
fn block_sizes_double_from_eight() {
    let expected = [8usize, 16, 32, 64, 128, 256, 512, 1024, 2048];
    assert_eq!(NUM_CLASSES, expected.len());
    for (i, &e) in expected.iter().enumerate() {
        assert_eq!(block_size(i), e);
    }
}

#[test]
fn class_for_picks_smallest_fitting_class() {
    assert_eq!(class_for(24, 8), Some(2));
    assert_eq!(class_for(8, 8), Some(0));
    assert_eq!(class_for(0, 1), Some(0));
    assert_eq!(class_for(9, 1), Some(1));
    assert_eq!(class_for(1, 64), Some(3));
    assert_eq!(class_for(100, 128), Some(4));
    assert_eq!(class_for(2048, 1), Some(8));
    assert_eq!(class_for(1, 2048), Some(8));
}

#[test]
fn class_for_none_beyond_largest_class() {
    assert_eq!(class_for(4096, 8), None);
    assert_eq!(class_for(2049, 1), None);
    assert_eq!(class_for(1, 4096), None);
}

#[test]
fn classification_example() {
    let mut a = heap(0x10000, 0x10000);
    // 24 bytes at 8 are served as a block of class 32
    let p = a.allocate(24, 8);
    assert_eq!(p, 0x10000);
    let q = a.allocate(24, 8);
    assert_eq!(q, 0x10000 + 32);
    a.deallocate(p, 24, 8);
    assert_eq!(a.allocate(32, 32), p);
    // 4096 bytes bypass the classes and take exactly what was asked
    let big = a.allocate(4096, 8);
    assert_eq!(big, 0x10000 + 64);
    let next = a.allocate(4096, 8);
    assert_eq!(next, 0x10000 + 64 + 4096);
}

#[test]
fn capacity_example() {
    let mut a = heap(0x1000, 2048);
    let p = a.allocate(2048, 1);
    assert_eq!(p, 0x1000);
    assert_eq!(a.allocate(1, 1), 0);
}

#[test]
fn lifo_reuse() {
    let mut a = heap(0x4000, 0x1000);
    let x = a.allocate(16, 8);
    let y = a.allocate(12, 4);
    assert_ne!(x, 0);
    assert_ne!(y, 0);
    assert_ne!(x, y);
    a.deallocate(x, 16, 8);
    a.deallocate(y, 12, 4);
    assert_eq!(a.allocate(10, 2), y);
    assert_eq!(a.allocate(16, 16), x);
}

#[test]
fn round_trip_class_block() {
    let mut a = heap(0x8000, 0x2000);
    let p = a.allocate(100, 8);
    assert_eq!(p, 0x8000);
    a.deallocate(p, 100, 8);
    assert_eq!(a.allocate(100, 8), p);
}

#[test]
fn round_trip_fallback_block() {
    let mut a = heap(0x8000, 0x4000);
    let p = a.allocate(5000, 8);
    assert_eq!(p, 0x8000);
    a.deallocate(p, 5000, 8);
    assert_eq!(a.allocate(5000, 8), p);
}

#[test]
fn exhaustion_returns_null_and_keeps_blocks() {
    let mut a = heap(0x2000, 4096);
    let p = a.allocate(2048, 2048);
    let q = a.allocate(2048, 2048);
    assert_eq!(p, 0x2000);
    assert_eq!(q, 0x2800);
    assert_eq!(a.allocate(2048, 2048), 0);
    assert_eq!(a.allocate(8, 8), 0);
    a.deallocate(q, 2048, 2048);
    assert_eq!(a.allocate(2048, 2048), q);
}

#[test]
fn class_refill_respects_block_alignment() {
    // the window starts off the 64-byte grid: a block of class 64 is aligned
    let mut a = heap(0x1008, 0x1000);
    let p = a.allocate(64, 64);
    assert_eq!(p, 0x1040);
    assert_eq!(p % 64, 0);
}

#[test]
fn coalescing_of_fallback_runs() {
    let mut a = heap(0x2000, 0x2000);
    let x = a.allocate(4096, 4096);
    let y = a.allocate(4096, 4096);
    assert_eq!(x, 0x2000);
    assert_eq!(y, 0x3000);
    assert_eq!(a.allocate(4096, 4096), 0);
    a.deallocate(x, 4096, 4096);
    a.deallocate(y, 4096, 4096);
    assert_eq!(a.allocate(8192, 4096), 0x2000);
}

#[test]
fn fallback_merges_adjacent_runs() {
    let mut f = FallbackAllocator::new(16, 100);
    assert_eq!(f.allocate(10, 1), 16);
    assert_eq!(f.allocate(10, 1), 26);
    assert_eq!(f.allocate(80, 1), 36);
    assert!(f.runs.is_empty());
    f.deallocate(16, 10);
    f.deallocate(26, 10);
    assert_eq!(f.runs, vec![(16, 20)]);
    f.deallocate(36, 80);
    assert_eq!(f.runs, vec![(16, 100)]);
    assert_eq!(f.allocate(100, 1), 16);
}

#[test]
fn fallback_merges_with_both_neighbours() {
    let mut f = FallbackAllocator::new(100, 30);
    assert_eq!(f.allocate(10, 1), 100);
    assert_eq!(f.allocate(10, 1), 110);
    assert_eq!(f.allocate(10, 1), 120);
    f.deallocate(100, 10);
    f.deallocate(120, 10);
    assert_eq!(f.runs, vec![(100, 10), (120, 10)]);
    assert_eq!(f.allocate(20, 1), 0);
    f.deallocate(110, 10);
    assert_eq!(f.runs, vec![(100, 30)]);
}

#[test]
fn fallback_first_fit_splits_around_aligned_span() {
    let mut f = FallbackAllocator::new(1, 100);
    assert_eq!(f.allocate(10, 8), 8);
    assert_eq!(f.runs, vec![(1, 7), (18, 83)]);
    // the first run that fits wins, even when a later one would fit exactly
    assert_eq!(f.allocate(4, 1), 1);
    assert_eq!(f.runs, vec![(5, 3), (18, 83)]);
}

#[test]
fn fallback_zero_size_takes_one_byte() {
    let mut f = FallbackAllocator::new(0x1000, 0x2000);
    let p = f.allocate(0, 4096);
    assert_eq!(p, 0x1000);
    assert_eq!(f.runs, vec![(0x1001, 0x1fff)]);
    f.deallocate(p, 0);
    assert_eq!(f.runs, vec![(0x1000, 0x2000)]);
}

#[test]
fn empty_window_serves_nothing() {
    let mut a = heap(0x1000, 0);
    assert_eq!(a.allocate(8, 8), 0);
    assert_eq!(a.allocate(5000, 8), 0);
}

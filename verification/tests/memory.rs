use vgos::memory::{align_up, BitmapAllocator, MemoryMapEntry, MEMMAP_USABLE, PAGE_SIZE};

const HHDM: u64 = 0xffff_8000_0000_0000;

fn entry(base: u64, length: u64, type_: u64) -> MemoryMapEntry {
    MemoryMapEntry { base, length, type_ }
}

/// 16 usable pages, 16 reserved pages, 32 usable pages.
fn sample_map() -> Vec<MemoryMapEntry> {
    vec![
        entry(0x0, 0x10000, MEMMAP_USABLE),
        entry(0x10000, 0x10000, 1),
        entry(0x20000, 0x20000, MEMMAP_USABLE),
    ]
}

fn booted() -> BitmapAllocator {
    let mut a = BitmapAllocator::new();
    a.init(&sample_map(), HHDM);
    a
}

#[test]
fn align_up_rounds_to_power_of_two() {
    assert_eq!(align_up(0, 4096), 0);
    assert_eq!(align_up(1, 4096), 4096);
    assert_eq!(align_up(4096, 4096), 4096);
    assert_eq!(align_up(4097, 4096), 8192);
    assert_eq!(align_up(5, 1), 5);
    assert_eq!(align_up(9, 8), 16);
}

#[test]
fn align_up_with_other_align_is_the_mask_expression() {
    // (10 + 5) & !5 == 10
    assert_eq!(align_up(10, 6), 10);
}

#[test]
fn new_allocator_is_empty() {
    let a = BitmapAllocator::new();
    assert_eq!(a.total_frames(), 0);
    assert_eq!(a.free_frames(), 0);
    assert_eq!(a.bitmap_length(), 0);
    assert_eq!(a.bitmap_address(), 0);
    assert_eq!(a.is_frame_used(0), None);
}

#[test]
fn new_allocator_hands_out_nothing() {
    let mut a = BitmapAllocator::new();
    assert_eq!(a.allocate_frame(), None);
    assert_eq!(a.allocate_contiguous(1), None);
    assert_eq!(a.allocate_contiguous(0), None);
}

#[test]
fn init_sizes_and_places_the_bitmap() {
    let a = booted();
    assert_eq!(a.total_frames(), 64);
    assert_eq!(a.bitmap_length(), 4096);
    assert_eq!(a.bitmap_address(), HHDM);
    // 16 + 32 usable frames, minus the bitmap's own frame.
    assert_eq!(a.free_frames(), 47);
}

#[test]
fn init_marks_reserved_and_bitmap_frames_used() {
    let a = booted();
    assert_eq!(a.is_frame_used(0), Some(true)); // holds the bitmap
    for f in 1..16 {
        assert_eq!(a.is_frame_used(f), Some(false));
    }
    for f in 16..32 {
        assert_eq!(a.is_frame_used(f), Some(true));
    }
    for f in 32..64 {
        assert_eq!(a.is_frame_used(f), Some(false));
    }
    assert_eq!(a.is_frame_used(64), Some(true));
    assert_eq!(a.is_frame_used(8 * 4096 - 1), Some(true));
    assert_eq!(a.is_frame_used(8 * 4096), None);
}

#[test]
fn init_places_bitmap_in_first_large_enough_usable_entry() {
    // The first usable entry is too small for the 4096-byte bitmap.
    let map = vec![
        entry(0x0, 0x800, MEMMAP_USABLE),
        entry(0x1000, 0x3000, 2),
        entry(0x4000, 0x3c000, MEMMAP_USABLE),
    ];
    let mut a = BitmapAllocator::new();
    a.init(&map, 0x1000_0000);
    assert_eq!(a.total_frames(), 64);
    assert_eq!(a.bitmap_address(), 0x1000_4000);
    assert_eq!(a.is_frame_used(4), Some(true));
    assert_eq!(a.is_frame_used(5), Some(false));
    // Entry 0 is less than a page: no frame of it is freed.
    assert_eq!(a.is_frame_used(0), Some(true));
    assert_eq!(a.free_frames(), 60 - 1);
}

#[test]
fn allocate_frame_hands_out_lowest_free_frame() {
    let mut a = booted();
    assert_eq!(a.allocate_frame(), Some(PAGE_SIZE));
    assert_eq!(a.is_frame_used(1), Some(true));
    assert_eq!(a.free_frames(), 46);
    assert_eq!(a.allocate_frame(), Some(2 * PAGE_SIZE));
    assert_eq!(a.free_frames(), 45);
}

#[test]
fn allocate_frame_never_repeats_until_exhausted() {
    let mut a = booted();
    let mut seen = Vec::new();
    while let Some(addr) = a.allocate_frame() {
        assert_eq!(addr % PAGE_SIZE, 0);
        assert!(addr < 64 * PAGE_SIZE);
        assert!(!seen.contains(&addr));
        seen.push(addr);
    }
    assert_eq!(seen.len(), 47);
    assert_eq!(a.free_frames(), 0);
    assert_eq!(a.allocate_frame(), None);
}

#[test]
fn allocate_contiguous_finds_first_long_enough_run() {
    let mut a = booted();
    // Frames 1..16 are only 15 long; the first run of 20 starts at frame 32.
    assert_eq!(a.allocate_contiguous(20), Some(32 * PAGE_SIZE));
    assert_eq!(a.free_frames(), 27);
    for f in 32..52 {
        assert_eq!(a.is_frame_used(f), Some(true));
    }
    assert_eq!(a.is_frame_used(52), Some(false));
    assert_eq!(a.allocate_contiguous(15), Some(PAGE_SIZE));
    assert_eq!(a.free_frames(), 12);
}

#[test]
fn allocate_contiguous_fails_without_change() {
    let mut a = booted();
    assert_eq!(a.allocate_contiguous(0), None);
    assert_eq!(a.allocate_contiguous(48), None); // more than counted free
    assert_eq!(a.allocate_contiguous(33), None); // counted, but no run that long
    assert_eq!(a.free_frames(), 47);
    assert_eq!(a.allocate_frame(), Some(PAGE_SIZE));
}

#[test]
fn contiguous_then_single_frame_are_disjoint() {
    let mut a = booted();
    let run = a.allocate_contiguous(3).unwrap();
    assert_eq!(run, PAGE_SIZE);
    assert_eq!(a.allocate_frame(), Some(4 * PAGE_SIZE));
}

#[test]
fn overlapping_usable_entries_count_twice() {
    let map = vec![entry(0x0, 0x4000, MEMMAP_USABLE), entry(0x0, 0x4000, MEMMAP_USABLE)];
    let mut a = BitmapAllocator::new();
    a.init(&map, 0x10_0000);
    // 4 frames get a bit each: 1 byte, rounded up to a page.
    assert_eq!(a.total_frames(), 4);
    assert_eq!(a.bitmap_length(), 4096);
    assert_eq!(a.bitmap_address(), 0x10_0000);
    // Counted 4 + 4, minus the bitmap's frame; only frames 1..4 are free.
    assert_eq!(a.free_frames(), 7);
    assert_eq!(a.allocate_frame(), Some(PAGE_SIZE));
    assert_eq!(a.allocate_frame(), Some(2 * PAGE_SIZE));
    assert_eq!(a.allocate_frame(), Some(3 * PAGE_SIZE));
    assert_eq!(a.allocate_frame(), None);
    assert_eq!(a.free_frames(), 4);
}

#[test]
fn every_frame_gets_a_bit() {
    // A single usable page: one frame, tracked by a one-page bitmap placed in it.
    let mut a = BitmapAllocator::new();
    a.init(&[entry(0x0, 0x1000, MEMMAP_USABLE)], HHDM);
    assert_eq!(a.total_frames(), 1);
    assert_eq!(a.bitmap_length(), 4096);
    assert_eq!(a.is_frame_used(0), Some(true));
    assert_eq!(a.free_frames(), 0);
    // 9 frames need 2 bytes: still one page.
    let mut b = BitmapAllocator::new();
    b.init(&[entry(0x0, 0x9000, MEMMAP_USABLE)], HHDM);
    assert_eq!(b.total_frames(), 9);
    assert_eq!(b.bitmap_length(), 4096);
    assert_eq!(b.is_frame_used(8), Some(false));
    assert_eq!(b.free_frames(), 8);
}

#[test]
fn free_counter_above_free_bits_still_fails_cleanly() {
    // Two copies of the same 16 usable pages: counted 32 times, 16 frames free.
    let map = vec![
        entry(0x0, 0x10000, MEMMAP_USABLE),
        entry(0x0, 0x10000, MEMMAP_USABLE),
        entry(0x10000, 0x30000, 1),
    ];
    let mut a = BitmapAllocator::new();
    a.init(&map, HHDM);
    assert_eq!(a.free_frames(), 31);
    for k in 1..16 {
        assert_eq!(a.allocate_frame(), Some(k * PAGE_SIZE));
    }
    assert_eq!(a.free_frames(), 16);
    assert_eq!(a.allocate_frame(), None);
    assert_eq!(a.free_frames(), 16);
}

#[test]
fn try_init_accepts_a_good_map() {
    let mut a = BitmapAllocator::new();
    assert!(a.try_init(&sample_map(), HHDM));
    assert_eq!(a.free_frames(), 47);
}

#[test]
fn try_init_refuses_map_without_room_for_bitmap() {
    let mut a = BitmapAllocator::new();
    let map = vec![entry(0x0, 0x40000, 1)];
    assert!(!a.try_init(&map, HHDM));
    assert_eq!(a.total_frames(), 0);
    assert_eq!(a.bitmap_address(), 0);
}

#[test]
fn try_init_refuses_null_bitmap_address() {
    let mut a = BitmapAllocator::new();
    assert!(!a.try_init(&sample_map(), 0));
    assert_eq!(a.bitmap_length(), 0);
}

#[test]
fn try_init_refuses_overflowing_entry() {
    let mut a = BitmapAllocator::new();
    let map = vec![entry(0x1000, u64::MAX, MEMMAP_USABLE)];
    assert!(!a.try_init(&map, HHDM));
}

#[test]
fn try_init_refuses_address_overflow() {
    let mut a = BitmapAllocator::new();
    let map = vec![entry(0x4000, 0x3c000, MEMMAP_USABLE)];
    assert!(!a.try_init(&map, u64::MAX));
}

#[test]
fn reinit_without_room_keeps_old_bitmap_address() {
    let mut a = booted();
    // No entry can hold the bitmap now, so the old address is kept; it lies
    // below the new offset, so taking the offset off would underflow: refused.
    let map = vec![entry(0x0, 0x40000, 1)];
    assert!(!a.try_init(&map, HHDM + 1));
    assert_eq!(a.bitmap_address(), HHDM);
    assert_eq!(a.free_frames(), 47);
}

#[test]
fn reinit_without_room_reuses_old_address() {
    let mut a = booted();
    let map = vec![entry(0x0, 0x40000, 1)];
    assert!(a.try_init(&map, 0));
    assert_eq!(a.bitmap_address(), HHDM);
    assert_eq!(a.total_frames(), 64);
    assert_eq!(a.free_frames(), 0);
    assert_eq!(a.is_frame_used(1), Some(true));
}

fn count_free_bits(a: &BitmapAllocator) -> usize {
    let mut n = 0;
    let mut f = 0;
    while let Some(used) = a.is_frame_used(f) {
        if !used {
            n += 1;
        }
        f += 1;
    }
    n
}

#[test]
fn free_counter_matches_bitmap_for_disjoint_map() {
    let mut a = booted();
    assert_eq!(a.free_frames(), count_free_bits(&a));
    a.allocate_frame();
    assert_eq!(a.free_frames(), count_free_bits(&a));
    a.allocate_contiguous(5);
    assert_eq!(a.free_frames(), count_free_bits(&a));
    assert_eq!(a.free_frames(), 41);
}

#[test]
fn bitmap_bytes_hold_the_frame_bits() {
    let mut a = booted();
    let bytes = a.bitmap_bytes();
    assert_eq!(bytes.len(), 4096);
    assert_eq!(&bytes[0..9], &[0x01, 0x00, 0xFF, 0xFF, 0x00, 0x00, 0x00, 0x00, 0xFF]);
    assert!(bytes[9..].iter().all(|b| *b == 0xFF));
    a.allocate_frame();
    assert_eq!(a.bitmap_bytes()[0], 0x03);
}

#[test]
fn allocate_contiguous_of_zero_frames() {
    let mut a = BitmapAllocator::new();
    a.init(&[entry(0x0, 0x5000, MEMMAP_USABLE)], HHDM);
    assert_eq!(a.total_frames(), 5);
    assert_eq!(a.bitmap_length(), 4096);
    assert_eq!(a.free_frames(), 4);
    assert_eq!(a.allocate_contiguous(0), None);
    assert_eq!(a.free_frames(), 4);
    assert_eq!(a.allocate_contiguous(4), Some(PAGE_SIZE));
    assert_eq!(a.free_frames(), 0);
}

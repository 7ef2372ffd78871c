use strail::kmem::{Allocation, KernelHeap, HEADER_SIZE};
use strail::page::{FrameAllocator, PAGE_SIZE};

fn heap(arena_pages: usize) -> (FrameAllocator, KernelHeap) {
    let mut mem = FrameAllocator::init(0x8000_0000, 64 * PAGE_SIZE);
    let h = KernelHeap::init(&mut mem, arena_pages).unwrap();
    (mem, h)
}

#[test]
fn heap_reserves_its_frames() {
    let (mem, h) = heap(4);
    assert_eq!(mem.page_count(), 4);
    assert_eq!(h.get_num_allocations(), 4);
    assert_eq!(h.get_head(), mem.first_page_addr());
}

#[test]
fn heap_needs_free_frames() {
    let mut mem = FrameAllocator::init(0x8000_0000, 2 * PAGE_SIZE);
    assert!(KernelHeap::init(&mut mem, 3).is_none());
    assert_eq!(mem.page_count(), 0);
}

#[test]
fn kmalloc_returns_address_after_header() {
    let (_mem, mut h) = heap(1);
    let head = h.get_head();
    let a = h.kmalloc(10);
    assert_eq!(a, head + HEADER_SIZE);
    // 10 rounds up to 16, plus the header.
    let b = h.kmalloc(1);
    assert_eq!(b, head + 24 + HEADER_SIZE);
}

#[test]
fn sequential_kmallocs_do_not_overlap() {
    for size in [8u64, 64, 4096] {
        let (_mem, mut h) = heap(4);
        let a = h.kmalloc(size);
        let b = h.kmalloc(size);
        assert!(a != 0 && b != 0);
        assert!(a + size <= b || b + size <= a);
    }
}

#[test]
fn kmalloc_fails_when_nothing_fits() {
    let (_mem, mut h) = heap(1);
    assert_eq!(h.kmalloc(PAGE_SIZE), 0);
    assert_eq!(h.kmalloc(u64::MAX), 0);
    let a = h.kmalloc(PAGE_SIZE - HEADER_SIZE);
    assert!(a != 0);
    assert_eq!(h.kmalloc(1), 0);
}

#[test]
fn kmalloc_takes_a_block_whole_when_little_would_remain() {
    let (_mem, mut h) = heap(1);
    // 4096 - (4080 + 8) leaves 8 bytes: no split.
    let a = h.kmalloc(4080);
    assert!(a != 0);
    assert_eq!(h.kmalloc(0), 0);
}

#[test]
fn kzmalloc_zeroes_the_block() {
    let (_mem, mut h) = heap(1);
    let head = h.get_head();
    // Dirty bytes that the next block will cover.
    for i in 0..40u64 {
        assert!(h.write_byte(head + i, 0xaa));
    }
    let a = h.kzmalloc(20);
    assert_eq!(a, head + HEADER_SIZE);
    for i in 0..24u64 {
        assert_eq!(h.read_byte(a + i), Some(0));
    }
    // Bytes past the rounded-up size are left alone.
    assert_eq!(h.read_byte(a + 24), Some(0xaa));
}

#[test]
fn header_keeps_flag_and_size_apart() {
    let mut a = Allocation { flags_size: 0 };
    a.set_size(64);
    assert!(a.is_free());
    a.set_taken();
    assert!(a.is_taken());
    assert_eq!(a.get_size(), 64);
    a.set_size(128);
    assert!(a.is_taken());
    assert_eq!(a.get_size(), 128);
    a.set_free();
    assert!(a.is_free());
    assert_eq!(a.get_size(), 128);
    assert_eq!(a.flags_size, 128);
}

use strail::page::{align_val, FrameAllocator, FrameError, PAGE_SIZE};

const HEAP_START: u64 = 0x8000_0000;

fn frames(pages: u64) -> FrameAllocator {
    FrameAllocator::init(HEAP_START, pages * PAGE_SIZE)
}

#[test]
fn test_alloc() {
    let mut mem = frames(64);
    assert_eq!(mem.page_count(), 0);

    let page_1 = mem.alloc_pages(2);
    assert!(page_1 != 0);
    assert_eq!(mem.page_count(), 2);
    assert!(mem.last_page() != 0);

    let page_2 = mem.alloc_pages(8);
    assert!(page_2 != 0);
    assert_eq!(mem.page_count(), 10);
    assert!(mem.last_page() != 0);

    mem.dealloc(page_1);
    mem.dealloc(page_2);
    assert_eq!(mem.page_count(), 0);
}

#[test]
fn test_dealloc() {
    let mut mem = frames(64);
    assert_eq!(mem.page_count(), 0);

    let page = mem.alloc_pages(2);
    assert!(page != 0);
    assert_eq!(mem.page_count(), 2);

    mem.dealloc(page);
    assert_eq!(mem.page_count(), 0);
}

#[test]
fn test_zalloc() {
    let mut mem = frames(64);
    assert_eq!(mem.page_count(), 0);

    let page = mem.zalloc(2);
    assert!(page != 0);
    assert_eq!(mem.page_count(), 2);
    for i in 0..(PAGE_SIZE * 2) / 8 {
        assert_eq!(mem.read_word(page + 8 * i), Some(0));
    }

    mem.dealloc(page);
    assert_eq!(mem.page_count(), 0);
}

#[test]
fn alloc_then_dealloc_restores_count() {
    let mut mem = frames(32);
    let before_first = mem.alloc_pages(3);
    assert!(before_first != 0);
    for n in [1usize, 2, 5, 7] {
        let before = mem.page_count();
        let r = mem.alloc_pages(n);
        assert!(r != 0);
        assert_eq!(mem.page_count(), before + n);
        mem.dealloc(r);
        assert_eq!(mem.page_count(), before);
    }
}

#[test]
fn alloc_is_first_fit() {
    let mut mem = frames(16);
    let base = mem.first_page_addr();
    let a = mem.alloc_pages(2);
    let b = mem.alloc_pages(3);
    let c = mem.alloc_pages(1);
    assert_eq!(a, base);
    assert_eq!(b, base + 2 * PAGE_SIZE);
    assert_eq!(c, base + 5 * PAGE_SIZE);
    mem.dealloc(b);
    // A run of two fits in the hole that `b` left.
    assert_eq!(mem.alloc_pages(2), base + 2 * PAGE_SIZE);
    // A run of four does not; it goes after `c`.
    assert_eq!(mem.alloc_pages(4), base + 6 * PAGE_SIZE);
}

#[test]
fn alloc_fails_without_room() {
    let mut mem = frames(4);
    assert_eq!(mem.alloc_pages(0), 0);
    assert_eq!(mem.alloc_pages(5), 0);
    assert_eq!(mem.page_count(), 0);
    let all = mem.alloc_pages(4);
    assert!(all != 0);
    assert_eq!(mem.alloc_pages(1), 0);
    assert_eq!(mem.page_count(), 4);
}

#[test]
fn zalloc_zeroes_every_byte() {
    for n in [1usize, 2, 8] {
        let mut mem = frames(32);
        // Dirty the pages first, then release them.
        let dirty = mem.alloc_pages(n);
        for i in 0..(n as u64 * PAGE_SIZE) / 8 {
            assert!(mem.write_word(dirty + 8 * i, 0xdead_beef_dead_beef));
        }
        mem.dealloc(dirty);
        let page = mem.zalloc(n);
        assert_eq!(page, dirty);
        for i in 0..(n as u64 * PAGE_SIZE) / 8 {
            assert_eq!(mem.read_word(page + 8 * i), Some(0));
        }
    }
}

#[test]
fn dealloc_null_is_refused_and_changes_nothing() {
    let mut mem = frames(8);
    let a = mem.alloc_pages(3);
    let count = mem.page_count();
    let last = mem.last_page();
    assert_eq!(mem.check_release(0), Err(FrameError::NullPointer));
    assert_eq!(mem.page_count(), count);
    assert_eq!(mem.last_page(), last);
    mem.dealloc(a);
}

#[test]
fn dealloc_of_free_page_is_refused_and_changes_nothing() {
    let mut mem = frames(8);
    let a = mem.alloc_pages(2);
    let count = mem.page_count();
    assert_eq!(mem.check_release(a + 4 * PAGE_SIZE), Err(FrameError::NotTaken));
    assert_eq!(mem.check_release(HEAP_START), Err(FrameError::NotTaken));
    assert_eq!(mem.page_count(), count);
    mem.dealloc(a);
    // A second release of the same run is refused too.
    assert_eq!(mem.check_release(a), Err(FrameError::NotTaken));
    assert_eq!(mem.page_count(), 0);
}

#[test]
fn dealloc_from_inside_a_run_frees_its_tail() {
    let mut mem = frames(8);
    let a = mem.alloc_pages(4);
    mem.dealloc(a + PAGE_SIZE + 100);
    assert_eq!(mem.page_count(), 1);
}

#[test]
fn last_page_points_at_end_of_first_run() {
    let mut mem = frames(8);
    assert_eq!(mem.last_page(), HEAP_START + 8);
    mem.alloc_pages(3);
    mem.alloc_pages(2);
    assert_eq!(mem.last_page(), HEAP_START + 2);
}

#[test]
fn metadata_precedes_the_pages() {
    let mem = frames(8);
    assert_eq!(mem.num_pages(), 8);
    assert_eq!(mem.first_page_addr(), align_val(HEAP_START + 8, 12));
    assert_eq!(mem.first_page_addr(), HEAP_START + PAGE_SIZE);
}

#[test]
fn align_val_rounds_up() {
    assert_eq!(align_val(0, 3), 0);
    assert_eq!(align_val(1, 3), 8);
    assert_eq!(align_val(8, 3), 8);
    assert_eq!(align_val(4097, 12), 8192);
    assert_eq!(align_val(4096, 12), 4096);
}

#[test]
fn words_outside_the_region_are_refused() {
    let mut mem = frames(2);
    let base = mem.first_page_addr();
    assert_eq!(mem.read_word(base - 8), None);
    assert_eq!(mem.read_word(base + 2 * PAGE_SIZE), None);
    assert_eq!(mem.read_word(base + 3), None);
    assert!(!mem.write_word(base + 2 * PAGE_SIZE, 1));
    assert!(mem.write_word(base + 8, 7));
    assert_eq!(mem.read_word(base + 8), Some(7));
}

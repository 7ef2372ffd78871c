use strail::kernel::{BootError, Kernel, MemoryLayout, HARTS, KMEM_ALLOC, TRAP_FRAME_SIZE};
use strail::page::{FrameAllocator, PageRun, PAGE_SIZE};
use strail::page_table::virt_to_phys;
use strail::process::State;

fn layout(heap_pages: u64) -> MemoryLayout {
    MemoryLayout {
        heap_start: 0x8010_0000,
        heap_size: heap_pages * PAGE_SIZE,
        text_start: 0x8000_0000,
        text_end: 0x8000_3000,
        rodata_start: 0x8000_3000,
        rodata_end: 0x8000_4800,
        data_start: 0x8000_5000,
        data_end: 0x8000_6000,
        bss_start: 0x8000_6000,
        bss_end: 0x8000_7000,
    }
}

#[test]
fn boot_maps_the_kernel_regions_onto_themselves() {
    let l = layout(KMEM_ALLOC as u64 + 64);
    let k = Kernel::init(&l).unwrap();
    assert_eq!(k.harts.len(), HARTS);
    assert_eq!(k.heap.get_num_allocations(), KMEM_ALLOC);
    let head = k.heap.get_head();
    for addr in [0x8000_0010u64, 0x8000_4400, 0x8000_5008, 0x8000_6ff8, head, head + 0x1234, l.heap_start + 3] {
        assert_eq!(virt_to_phys(&k.page_table, &k.frames, addr), Some(addr));
    }
    assert_eq!(virt_to_phys(&k.page_table, &k.frames, 0x8000_8000), None);
}

#[test]
fn boot_needs_room_for_the_heap() {
    let l = layout(KMEM_ALLOC as u64 - 1);
    assert!(matches!(Kernel::init(&l), Err(BootError::HeapFrames)));
}

#[test]
fn spawned_processes_get_frames_from_the_heap() {
    let mut k = Kernel::init(&layout(KMEM_ALLOC as u64 + 64)).unwrap();
    let a = k.spawn(1, false).unwrap();
    let b = k.spawn(2, true).unwrap();
    assert!(a + TRAP_FRAME_SIZE <= b);
    assert_eq!(k.sched.procs.len(), 2);
    assert_eq!(k.sched.procs[1].state, State::Running);
    assert!(k.sched.procs[1].voting);
    assert_eq!(k.sched.schedule(0), b);
    k.kinit_hart(3);
    assert_eq!(k.harts[3].hartid, 3);
}

#[test]
fn allocations_list_each_run() {
    let mut mem = FrameAllocator::init(0x8000_0000, 16 * PAGE_SIZE);
    assert!(mem.allocations().is_empty());
    let base = mem.first_page_addr();
    let a = mem.alloc_pages(2);
    let b = mem.alloc_pages(3);
    let c = mem.alloc_pages(1);
    mem.dealloc(b);
    assert_eq!(
        mem.allocations(),
        vec![
            PageRun { first: a, last: a + 2 * PAGE_SIZE - 1, pages: 2 },
            PageRun { first: c, last: c + PAGE_SIZE - 1, pages: 1 },
        ]
    );
    assert_eq!(a, base);
}

//! The kernel's state as one owned value, and the boot sequence that builds
//! it: frames over the heap region, the kernel heap, the kernel's identity
//! mapped table, the process ring and one trap frame per hart.
use vstd::prelude::*;
use crate::kmem::KernelHeap;
use crate::page::{
    PageState, FrameAllocator, PAGE_SIZE, PHYS_LIMIT, run_free, free_page, align_up, taken_count, free_count,
};
use crate::page_table::{
    ident_map_range, MapError, PageBits, PageEntryBits, Table, tables_ok, translate, leaf_above,
    VA_LIMIT,
};
use crate::process::{Process, State};
use crate::sched::Scheduler;
use crate::trap::TrapFrame;

verus! {

/// The frames the kernel heap reserves at boot.
pub const KMEM_ALLOC: usize = 2048;

/// The number of harts, and of per-hart trap frames.
pub const HARTS: usize = 8;

/// The bytes a trap frame takes: 70 words.
pub const TRAP_FRAME_SIZE: u64 = 560;

/// Where the boot environment placed the kernel's regions.
#[derive(PartialEq, Eq, Structural, Clone, Copy, Debug)]
pub struct MemoryLayout {
    pub heap_start: u64,
    pub heap_size: u64,
    pub text_start: u64,
    pub text_end: u64,
    pub rodata_start: u64,
    pub rodata_end: u64,
    pub data_start: u64,
    pub data_end: u64,
    pub bss_start: u64,
    pub bss_end: u64,
}

/// A region from `start` to `end` that can be mapped page by page, inside
/// the Sv39 space.
pub open spec fn region_ok(start: u64, end: u64) -> bool {
    start <= end && end + PAGE_SIZE <= VA_LIMIT
}

impl MemoryLayout {
    /// The heap, its metadata and the pages after it lie inside the Sv39
    /// space, and each region ends after it starts, inside that space.
    pub open spec fn valid(&self) -> bool {
        &&& self.heap_start + 2 * self.heap_size + 2 * PAGE_SIZE <= VA_LIMIT
        &&& self.heap_size / 8 <= usize::MAX
        &&& region_ok(self.text_start, self.text_end)
        &&& region_ok(self.rodata_start, self.rodata_end)
        &&& region_ok(self.data_start, self.data_end)
        &&& region_ok(self.bss_start, self.bss_end)
    }
}

/// The addresses of the pages from `start` rounded down to `end` rounded up,
/// for a region `(start, end, bits)`.
pub open spec fn in_span(region: (u64, u64, u64), u: u64) -> bool {
    (region.0 & !0xfffu64) <= u < align_up(region.1 as int, 12)
}

/// The number of pages a region spans.
pub open spec fn region_pages(region: (u64, u64, u64)) -> int {
    (align_up(region.1 as int, 12) - (region.0 & !0xfffu64)) / PAGE_SIZE as int
}

/// The pages the first `n` regions span, added up.
pub open spec fn pages_upto(regs: Seq<(u64, u64, u64)>, n: int) -> int
    decreases n,
{
    if n <= 0 {
        0
    } else {
        pages_upto(regs, n - 1) + region_pages(regs[n - 1])
    }
}

/// Every region ends, rounded up to a page, inside the Sv39 space.
pub open spec fn regions_in_space(regs: Seq<(u64, u64, u64)>) -> bool {
    forall|m: int| 0 <= m < regs.len() ==> align_up((#[trigger] regs[m]).1 as int, 12) <= VA_LIMIT
}

/// The kernel's regions, in the order they are mapped, with their leaf bits:
/// the heap arena at `head` of `arena` bytes and the page metadata
/// read-write, text and read-only data read-execute, data and bss read-write.
pub open spec fn kernel_regions(l: &MemoryLayout, head: u64, arena: int) -> Seq<(u64, u64, u64)> {
    seq![
        (head, (head + arena) as u64, 0x16u64),
        (l.heap_start, (l.heap_start + l.heap_size / PAGE_SIZE) as u64, 0x16u64),
        (l.text_start, l.text_end, 0x1au64),
        (l.rodata_start, l.rodata_end, 0x1au64),
        (l.data_start, l.data_end, 0x16u64),
        (l.bss_start, l.bss_end, 0x16u64),
    ]
}

proof fn lemma_region_pages_nonneg(regs: Seq<(u64, u64, u64)>, n: int)
    requires
        0 <= n < regs.len(),
        regs[n].0 <= regs[n].1,
    ensures
        region_pages(regs[n]) >= 0,
{
    vstd::arithmetic::power2::lemma2_to64();
    let s = regs[n].0;
    assert(s & !0xfffu64 <= s) by (bit_vector);
    assert(align_up(regs[n].1 as int, 12) >= regs[n].1) by (nonlinear_arith)
        requires
            align_up(regs[n].1 as int, 12) == (regs[n].1 + 4096 - 1) / 4096 * 4096,
    ;
}

proof fn lemma_pages_upto_mono(regs: Seq<(u64, u64, u64)>, n: int, m: int)
    requires
        0 <= n <= m <= regs.len(),
        forall|j: int| 0 <= j < regs.len() ==> (#[trigger] regs[j]).0 <= regs[j].1,
    ensures
        pages_upto(regs, n) <= pages_upto(regs, m),
    decreases m - n,
{
    if n < m {
        lemma_pages_upto_mono(regs, n, m - 1);
        lemma_region_pages_nonneg(regs, m - 1);
    }
}

/// The pages the boot maps: the heap arena, and the pages the page
/// metadata, text, read-only data, data and bss span.
pub open spec fn boot_pages(l: &MemoryLayout) -> int {
    KMEM_ALLOC + region_pages((l.heap_start, (l.heap_start + l.heap_size / PAGE_SIZE) as u64, 0))
        + region_pages((l.text_start, l.text_end, 0)) + region_pages((l.rodata_start, l.rodata_end, 0))
        + region_pages((l.data_start, l.data_end, 0)) + region_pages((l.bss_start, l.bss_end, 0))
}

/// No page of metadata in which every page is free is taken.
proof fn lemma_all_free_count(s: Seq<PageState>)
    requires
        forall|j: int| 0 <= j < s.len() ==> #[trigger] s[j] == free_page(),
    ensures
        taken_count(s) == 0,
    decreases s.len(),
{
    if s.len() > 0 {
        assert forall|j: int| 0 <= j < s.drop_last().len() implies #[trigger] s.drop_last()[j]
            == free_page() by {
            assert(s.drop_last()[j] == s[j]);
        }
        lemma_all_free_count(s.drop_last());
    }
}

/// The regions of a boot lie inside the Sv39 space, and span the pages
/// `boot_pages` counts.
proof fn lemma_boot_regions(l: &MemoryLayout, fresh: &FrameAllocator, frames: &FrameAllocator, head: u64)
    requires
        l.valid(),
        fresh.meta().len() == l.heap_size / PAGE_SIZE,
        fresh.base() as int == align_up(l.heap_start + l.heap_size / PAGE_SIZE, 12),
        fresh.in_region(head),
        head as int == fresh.page_addr(fresh.page_of(head)),
        fresh.page_of(head) + KMEM_ALLOC <= fresh.meta().len(),
    ensures
        regions_in_space(kernel_regions(l, head, KMEM_ALLOC * PAGE_SIZE)),
        pages_upto(kernel_regions(l, head, KMEM_ALLOC * PAGE_SIZE), 6) == boot_pages(l),
{
    vstd::arithmetic::power2::lemma2_to64();
    let regs = kernel_regions(l, head, KMEM_ALLOC * PAGE_SIZE);
    let np = l.heap_size / PAGE_SIZE;
    let i = fresh.page_of(head);
    assert(head % 4096 == 0) by (nonlinear_arith)
        requires
            head as int == fresh.base() + i * 4096,
            fresh.base() % 4096 == 0,
    ;
    assert(head & !0xfffu64 == head) by (bit_vector)
        requires
            head % 4096 == 0,
    ;
    let top0 = head + KMEM_ALLOC * PAGE_SIZE;
    assert(top0 <= fresh.base() + np * 4096) by (nonlinear_arith)
        requires
            head as int == fresh.base() + i * 4096,
            i + KMEM_ALLOC <= np,
            top0 == head + KMEM_ALLOC * 4096,
    ;
    assert(fresh.base() <= l.heap_start + np + 4095) by (nonlinear_arith)
        requires
            fresh.base() as int == (l.heap_start + np + 4096 - 1) / 4096 * 4096,
    ;
    assert(np * 4096 <= l.heap_size) by (nonlinear_arith)
        requires
            np == l.heap_size / 4096,
    ;
    assert(align_up(top0, 12) == top0) by (nonlinear_arith)
        requires
            align_up(top0, 12) == (top0 + 4096 - 1) / 4096 * 4096,
            head % 4096 == 0,
            top0 == head + KMEM_ALLOC * 4096,
    ;
    assert forall|m: int| 0 <= m < 6 implies align_up((#[trigger] regs[m]).1 as int, 12) <= VA_LIMIT by {
        let e = regs[m].1;
        assert(align_up(e as int, 12) <= e + 4095) by (nonlinear_arith)
            requires
                align_up(e as int, 12) == (e + 4096 - 1) / 4096 * 4096,
        ;
    }
    assert(region_pages(regs[0]) == KMEM_ALLOC);
    reveal_with_fuel(pages_upto, 7);
}

/// Why the kernel could not boot.
#[derive(PartialEq, Eq, Structural, Clone, Copy, Debug)]
pub enum BootError {
    /// The heap region holds fewer frames than the kernel heap reserves.
    HeapFrames,
    /// A region could not be mapped.
    Mapping(MapError),
}

/// The kernel's state.
pub struct Kernel {
    pub frames: FrameAllocator,
    pub heap: KernelHeap,
    pub page_table: Table,
    pub sched: Scheduler,
    pub harts: Vec<TrapFrame>,
}

impl Kernel {
    pub open spec fn wf(&self) -> bool {
        &&& self.frames.wf()
        &&& self.heap.wf()
        &&& self.page_table.wf()
        &&& self.harts@.len() == HARTS
    }

    /// Boots the kernel over `layout`: the frame allocator over the heap
    /// region, the kernel heap on `KMEM_ALLOC` zeroed frames, and the kernel
    /// table with the heap, the page metadata, text, read-only data, data and
    /// bss mapped onto themselves; no process yet, and a zeroed trap frame for
    /// every hart.
    pub fn init(layout: &MemoryLayout) -> (r: Result<Kernel, BootError>)
        requires
            layout.valid(),
        ensures
            r matches Ok(k) ==> k.wf() && k.heap.total() == KMEM_ALLOC * PAGE_SIZE
                && k.sched.procs@.len() == 0 && k.sched.results@.len() == 0,
            r matches Ok(k) ==> tables_ok(k.page_table@, &k.frames) && forall|m: int, u: u64|
                0 <= m < 6 && #[trigger] in_span(
                    kernel_regions(layout, k.heap.head(), k.heap.total())[m],
                    u,
                ) ==> translate(k.page_table@, &k.frames, u) == Some(u),
            r == Err::<Kernel, BootError>(BootError::HeapFrames) <==> layout.heap_size / PAGE_SIZE
                < KMEM_ALLOC,
            layout.heap_size / PAGE_SIZE >= KMEM_ALLOC + 2 * boot_pages(layout) ==> r is Ok,
    {
        let mut frames = FrameAllocator::init(layout.heap_start, layout.heap_size);
        let ghost fresh = frames;
        proof {
            lemma_all_free_count(fresh.meta());
        }
        let heap = match KernelHeap::init(&mut frames, KMEM_ALLOC) {
            Some(h) => {
                assert(run_free(fresh.meta(), fresh.page_of(h.head()), KMEM_ALLOC as int));
                h
            },
            None => {
                proof {
                    let regs = kernel_regions(layout, 0, 0);
                    lemma_region_pages_nonneg(regs, 1);
                    lemma_region_pages_nonneg(regs, 2);
                    lemma_region_pages_nonneg(regs, 3);
                    lemma_region_pages_nonneg(regs, 4);
                    lemma_region_pages_nonneg(regs, 5);
                    assert(boot_pages(layout) >= KMEM_ALLOC);
                    if layout.heap_size / PAGE_SIZE >= KMEM_ALLOC {
                        assert forall|j: int| 0 <= j < KMEM_ALLOC implies !(#[trigger] fresh.meta()[j]).taken by {
                            assert(fresh.meta()[j] == free_page());
                        }
                        assert(run_free(fresh.meta(), 0, KMEM_ALLOC as int));
                    }
                }
                return Err(BootError::HeapFrames);
            },
        };
        let mut harts: Vec<TrapFrame> = Vec::new();
        let mut i: usize = 0;
        while i < HARTS
            invariant
                i <= HARTS,
                harts@.len() == i,
            decreases HARTS - i,
        {
            harts.push(TrapFrame::zero());
            i = i + 1;
        }
        let mut k = Kernel {
            frames,
            heap,
            page_table: Table::new(),
            sched: Scheduler::new(),
            harts,
        };
        proof {
            let t = k.page_table@;
            crate::page_table::lemma_empty_tables_ok(t, &k.frames);
            crate::page_table::lemma_zero_invalid();
            assert forall|u: u64| !#[trigger] leaf_above(t, &k.frames, u, 0) by {
                crate::page_table::lemma_vpn_bounds(u);
            }
            let head = k.heap.head();
            let regs = kernel_regions(layout, head, k.heap.total());
            lemma_boot_regions(layout, &fresh, &k.frames, head);
        }
        match k.init_identity_map(layout) {
            Ok(()) => Ok(k),
            Err(e) => Err(BootError::Mapping(e)),
        }
    }

    /// Maps the kernel's own regions onto themselves in the kernel table:
    /// the heap arena and the page metadata read-write, text and read-only
    /// data read-execute, data and bss read-write.
    ///
    /// Over a tree of tables and with every region inside the Sv39 space: on
    /// success every address of every region translates to itself, and
    /// success is owed when no leaf stands above level 0 on any walk and two
    /// frames are free for every page of the regions.
    pub fn init_identity_map(&mut self, layout: &MemoryLayout) -> (r: Result<(), MapError>)
        requires
            old(self).wf(),
            layout.valid(),
        ensures
            final(self).wf(),
            final(self).heap == old(self).heap,
            final(self).sched == old(self).sched,
            final(self).harts == old(self).harts,
            final(self).frames.base() == old(self).frames.base(),
            final(self).frames.heap_base() == old(self).frames.heap_base(),
            ({
                let regs = kernel_regions(layout, old(self).heap.head(), old(self).heap.total());
                let pt = old(self).page_table@;
                let fr = &old(self).frames;
                tables_ok(pt, fr) && regions_in_space(regs) ==> {
                    &&& tables_ok(final(self).page_table@, &final(self).frames)
                    &&& r is Ok ==> forall|m: int, u: u64|
                        0 <= m < 6 && #[trigger] in_span(regs[m], u) ==> translate(
                            final(self).page_table@,
                            &final(self).frames,
                            u,
                        ) == Some(u)
                    &&& (forall|u: u64| !#[trigger] leaf_above(pt, fr, u, 0)) && 2 * pages_upto(regs, 6)
                        <= free_count(fr.meta()) ==> r is Ok
                }
            }),
    {
        let rw = PageEntryBits::from(PageBits::ReadWrite).val();
        let rx = PageEntryBits::from(PageBits::ReadExecute).val();
        let head = self.heap.get_head();
        let arena = self.heap.get_num_allocations() as u64 * PAGE_SIZE;
        let meta_pages = layout.heap_size / PAGE_SIZE;
        let regions = [
            (head, head + arena, rw),
            (layout.heap_start, layout.heap_start + meta_pages, rw),
            (layout.text_start, layout.text_end, rx),
            (layout.rodata_start, layout.rodata_end, rx),
            (layout.data_start, layout.data_end, rw),
            (layout.bss_start, layout.bss_end, rw),
        ];
        let ghost regs = kernel_regions(layout, head, arena as int);
        assert(regions@ =~= regs);
        let ghost pt0 = self.page_table@;
        let ghost fr0 = self.frames;
        let ghost inv = tables_ok(pt0, &fr0) && regions_in_space(regs);
        let ghost clear = forall|u: u64| !#[trigger] leaf_above(pt0, &fr0, u, 0);
        proof {
            assert(0x16u64 & 0xe != 0 && 0x1au64 & 0xe != 0) by (bit_vector);
        }
        let mut n: usize = 0;
        while n < 6
            invariant
                n <= 6,
                self.wf(),
                self.heap == old(self).heap,
                self.sched == old(self).sched,
                self.harts == old(self).harts,
                self.frames.base() == old(self).frames.base(),
                self.frames.heap_base() == old(self).frames.heap_base(),
                pt0 == old(self).page_table@,
                fr0 == old(self).frames,
                self.frames.meta().len() == fr0.meta().len(),
                regions@ == regs,
                regs == kernel_regions(layout, old(self).heap.head(), old(self).heap.total()),
                forall|m: int|
                    0 <= m < 6 ==> (#[trigger] regions@[m]).0 <= regions@[m].1 && regions@[m].1
                        + PAGE_SIZE <= u64::MAX,
                forall|m: int| 0 <= m < 6 ==> (#[trigger] regions@[m]).2 == 0x16 || regions@[m].2 == 0x1a,
                inv == (tables_ok(pt0, &fr0) && regions_in_space(regs)),
                clear == forall|u: u64| !#[trigger] leaf_above(pt0, &fr0, u, 0),
                inv ==> tables_ok(self.page_table@, &self.frames),
                inv ==> forall|m: int, u: u64|
                    0 <= m < n && #[trigger] in_span(regs[m], u) ==> translate(
                        self.page_table@,
                        &self.frames,
                        u,
                    ) == Some(u),
                inv ==> forall|u: u64|
                    !leaf_above(pt0, &fr0, u, 0) ==> !#[trigger] leaf_above(
                        self.page_table@,
                        &self.frames,
                        u,
                        0,
                    ),
                inv ==> taken_count(self.frames.meta()) <= taken_count(fr0.meta()) + 2 * pages_upto(
                    regs,
                    n as int,
                ),
            decreases 6 - n,
        {
            let (start, end, bits) = regions[n];
            let ghost pt1 = self.page_table@;
            let ghost fr1 = self.frames;
            proof {
                lemma_pages_upto_mono(regs, n as int + 1, 6);
                lemma_region_pages_nonneg(regs, n as int);
                assert(0x16u64 & 0xe != 0 && 0x1au64 & 0xe != 0) by (bit_vector);
                assert(bits & 0xe != 0 && bits < 0x400);
                if inv {
                    assert(align_up(end as int, 12) <= VA_LIMIT);
                }
            }
            match ident_map_range(&mut self.page_table, &mut self.frames, start, end, bits) {
                Ok(()) => {},
                Err(e) => {
                    proof {
                        if inv && clear && 2 * pages_upto(regs, 6) <= free_count(fr0.meta()) {
                            assert forall|u: u64|
                                (start & !0xfffu64) <= u < align_up(end as int, 12) implies !#[trigger] leaf_above(
                                pt1,
                                &fr1,
                                u,
                                0,
                            ) by {
                                assert(!leaf_above(pt0, &fr0, u, 0));
                            }
                            assert(pages_upto(regs, n + 1) == pages_upto(regs, n as int) + region_pages(
                                regs[n as int],
                            ));
                            assert(fr1.meta().len() == fr0.meta().len());
                            assert(2 * region_pages(regs[n as int]) <= free_count(fr1.meta()));
                            assert(false);
                        }
                    }
                    return Err(e);
                },
            }
            proof {
                if inv {
                    assert forall|m: int, u: u64|
                        0 <= m < n + 1 && #[trigger] in_span(regs[m], u) implies translate(
                        self.page_table@,
                        &self.frames,
                        u,
                    ) == Some(u) by {
                        if !in_span(regs[n as int], u) {
                            assert(u < VA_LIMIT);
                            assert(translate(pt1, &fr1, u) == Some(u));
                        }
                    }
                }
            }
            n = n + 1;
        }
        Ok(())
    }

    /// Records hart `hartid` in its trap frame.
    pub fn kinit_hart(&mut self, hartid: usize)
        requires
            old(self).wf(),
            hartid < HARTS,
        ensures
            final(self).wf(),
            final(self).harts@[hartid as int].hartid == hartid,
            forall|i: int| 0 <= i < HARTS && i != hartid ==> #[trigger] final(self).harts@[i] == old(self).harts@[i],
            final(self).frames == old(self).frames,
            final(self).sched == old(self).sched,
    {
        let mut f = self.harts[hartid];
        f.hartid = hartid as u64;
        self.harts.set(hartid, f);
    }

    /// Starts a process `pid`: its trap frame is taken zeroed from the kernel
    /// heap, and it joins the end of the ring, running. `None`, and nothing
    /// changed, when the heap has no room for the frame.
    pub fn spawn(&mut self, pid: u64, voting: bool) -> (r: Option<u64>)
        requires
            old(self).wf(),
        ensures
            final(self).wf(),
            old(self).heap.takes(final(self).heap.blocks(), TRAP_FRAME_SIZE, match r {
                Some(f) => f,
                None => 0,
            }),
            r is None ==> final(self).sched == old(self).sched,
            r matches Some(f) ==> f != 0 && final(self).sched.procs@ == old(self).sched.procs@.push(
                Process { pid, state: State::Running, frame: f, voting, sleep_until: 0 },
            ),
    {
        let frame = self.heap.kzmalloc(TRAP_FRAME_SIZE);
        if frame == 0 {
            return None;
        }
        let mut p = Process::new(pid, frame);
        p.state = State::Running;
        p.voting = voting;
        self.sched.add_process(p);
        Some(frame)
    }
}

} // verus!

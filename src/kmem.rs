//! The kernel heap: an arena of frames reserved once from the frame
//! allocator, carved first fit into blocks that each begin with a one-word
//! header. Blocks are never merged or reused: the arena only moves forward.
use vstd::prelude::*;
use crate::page::{FrameAllocator, PAGE_SIZE, PHYS_LIMIT, align_val};

verus! {

/// The header bit that marks a block as taken.
pub const TAKEN_BIT: u64 = 0x8000_0000_0000_0000;

/// The size of a block header in bytes.
pub const HEADER_SIZE: u64 = 8;

/// The flags of an allocation header.
enum AllocFlags {
    Taken,
}

impl AllocFlags {
    fn val(self) -> (r: u64)
        ensures
            r == TAKEN_BIT,
    {
        match self {
            AllocFlags::Taken => TAKEN_BIT,
        }
    }
}

/// What a header says: whether its block is taken, and the block's size in
/// bytes, header included.
#[derive(PartialEq, Eq, Structural, Clone, Copy, Debug)]
pub struct BlockState {
    pub taken: bool,
    pub size: u64,
}

/// A block header: the taken flag in the top bit, the size in the others.
#[derive(Clone, Copy, Debug)]
pub struct Allocation {
    pub flags_size: u64,
}

impl View for Allocation {
    type V = BlockState;

    open spec fn view(&self) -> BlockState {
        BlockState {
            taken: self.flags_size & TAKEN_BIT != 0,
            size: self.flags_size & !TAKEN_BIT,
        }
    }
}

impl Allocation {
    pub fn is_taken(&self) -> (r: bool)
        ensures
            r == self@.taken,
    {
        self.flags_size & AllocFlags::Taken.val() != 0
    }

    pub fn is_free(&self) -> (r: bool)
        ensures
            r == !self@.taken,
    {
        !self.is_taken()
    }

    pub fn set_taken(&mut self)
        ensures
            final(self)@ == (BlockState { taken: true, size: old(self)@.size }),
    {
        let f = self.flags_size;
        self.flags_size = f | AllocFlags::Taken.val();
        assert((f | 0x8000_0000_0000_0000u64) & 0x8000_0000_0000_0000u64 != 0 && (f
            | 0x8000_0000_0000_0000u64) & !0x8000_0000_0000_0000u64 == f
            & !0x8000_0000_0000_0000u64) by (bit_vector);
    }

    pub fn set_free(&mut self)
        ensures
            final(self)@ == (BlockState { taken: false, size: old(self)@.size }),
    {
        let f = self.flags_size;
        self.flags_size = f & !AllocFlags::Taken.val();
        assert((f & !0x8000_0000_0000_0000u64) & 0x8000_0000_0000_0000u64 == 0 && (f
            & !0x8000_0000_0000_0000u64) & !0x8000_0000_0000_0000u64 == f
            & !0x8000_0000_0000_0000u64) by (bit_vector);
    }

    /// Sets the size, keeping the taken flag; the size loses its top bit.
    pub fn set_size(&mut self, size: u64)
        ensures
            final(self)@ == (BlockState { taken: old(self)@.taken, size: size & !TAKEN_BIT }),
    {
        let k = self.is_taken();
        let f = size & !AllocFlags::Taken.val();
        self.flags_size = f;
        assert(f & 0x8000_0000_0000_0000u64 == 0 && f & !0x8000_0000_0000_0000u64 == f) by (bit_vector)
            requires
                f == size & !0x8000_0000_0000_0000u64,
        ;
        if k {
            self.flags_size = f | AllocFlags::Taken.val();
            assert((f | 0x8000_0000_0000_0000u64) & 0x8000_0000_0000_0000u64 != 0 && (f
                | 0x8000_0000_0000_0000u64) & !0x8000_0000_0000_0000u64 == f) by (bit_vector)
                requires
                    f == size & !0x8000_0000_0000_0000u64,
            ;
        }
    }

    pub fn get_size(&self) -> (r: u64)
        ensures
            r == self@.size,
    {
        self.flags_size & !AllocFlags::Taken.val()
    }
}

/// The byte offset of block `k` from the head: the sizes of the blocks before
/// it, added up.
pub open spec fn offset(bs: Seq<BlockState>, k: int) -> int
    decreases k,
{
    if k <= 0 {
        0
    } else {
        offset(bs, k - 1) + bs[k - 1].size
    }
}

/// The block holds a free block big enough for `req` bytes, header included.
pub open spec fn fits(b: BlockState, req: int) -> bool {
    !b.taken && req <= b.size
}

/// The bytes a request of `size` takes: `size` rounded up to a multiple of
/// 8, plus the header.
pub open spec fn request(size: u64) -> int {
    crate::page::align_up(size as int, 3) + HEADER_SIZE
}

/// The blocks after block `k` is taken for `req` bytes: split in two when
/// more than a header's worth would remain, the rest becoming a free block
/// right after it; taken whole otherwise.
pub open spec fn after_kmalloc(bs: Seq<BlockState>, k: int, req: int) -> Seq<BlockState> {
    let size = bs[k].size;
    if size - req > HEADER_SIZE {
        bs.update(k, BlockState { taken: true, size: req as u64 }).insert(
            k + 1,
            BlockState { taken: false, size: (size - req) as u64 },
        )
    } else {
        bs.update(k, BlockState { taken: true, size })
    }
}

/// The heap arena and its blocks.
pub struct KernelHeap {
    head: u64,
    num_pages: usize,
    blocks: Vec<Allocation>,
    data: Vec<u8>,
}

impl KernelHeap {
    /// The address of the first header.
    pub closed spec fn head(&self) -> u64 {
        self.head
    }

    /// The size of the arena in bytes.
    pub closed spec fn total(&self) -> int {
        self.num_pages * PAGE_SIZE
    }

    /// The headers, in address order.
    pub closed spec fn blocks(&self) -> Seq<BlockState> {
        self.blocks@.map_values(|a: Allocation| a@)
    }

    /// The contents of the arena, byte by byte from the head.
    pub closed spec fn bytes(&self) -> Seq<u8> {
        self.data@
    }

    pub open spec fn wf(&self) -> bool {
        &&& offset(self.blocks(), self.blocks().len() as int) == self.total()
        &&& forall|k: int|
            0 <= k < self.blocks().len() ==> (#[trigger] self.blocks()[k]).size >= HEADER_SIZE
                && self.blocks()[k].size % 8 == 0
        &&& self.head() + self.total() <= PHYS_LIMIT
        &&& self.bytes().len() == self.total()
    }
}

proof fn lemma_offset_agree(a: Seq<BlockState>, b: Seq<BlockState>, k: int)
    requires
        k <= a.len(),
        k <= b.len(),
        forall|j: int| 0 <= j < k ==> a[j] == b[j],
    ensures
        offset(a, k) == offset(b, k),
    decreases k,
{
    if k > 0 {
        lemma_offset_agree(a, b, k - 1);
    }
}

/// A block ends at or before the start of every later block.
proof fn lemma_offset_mono(bs: Seq<BlockState>, j: int, k: int)
    requires
        0 <= j < k <= bs.len(),
    ensures
        0 <= offset(bs, j),
        offset(bs, j) + bs[j].size <= offset(bs, k),
    decreases k - j,
{
    lemma_offset_nonneg(bs, j);
    if k > j + 1 {
        lemma_offset_mono(bs, j, k - 1);
    }
}

proof fn lemma_offset_nonneg(bs: Seq<BlockState>, k: int)
    ensures
        0 <= offset(bs, k),
    decreases k,
{
    if k > 0 {
        lemma_offset_nonneg(bs, k - 1);
    }
}

proof fn lemma_offset_split_tail(bs: Seq<BlockState>, k: int, req: int, m: int)
    requires
        0 <= k < bs.len(),
        k + 1 <= m <= bs.len(),
        HEADER_SIZE <= req <= bs[k].size,
        bs[k].size - req > HEADER_SIZE,
    ensures
        offset(after_kmalloc(bs, k, req), m + 1) == offset(bs, m),
    decreases m - k,
{
    let n = after_kmalloc(bs, k, req);
    if m == k + 1 {
        lemma_offset_agree(n, bs, k);
        assert(offset(n, k + 2) == offset(n, k + 1) + n[k + 1].size);
        assert(offset(n, k + 1) == offset(n, k) + n[k].size);
        assert(offset(bs, k + 1) == offset(bs, k) + bs[k].size);
    } else {
        lemma_offset_split_tail(bs, k, req, m - 1);
        assert(n[m] == bs[m - 1]);
    }
}

proof fn lemma_offset_whole_tail(bs: Seq<BlockState>, k: int, req: int, m: int)
    requires
        0 <= k < bs.len(),
        k + 1 <= m <= bs.len(),
    ensures
        offset(bs.update(k, BlockState { taken: true, size: bs[k].size }), m) == offset(bs, m),
    decreases m - k,
{
    let n = bs.update(k, BlockState { taken: true, size: bs[k].size });
    if m == k + 1 {
        lemma_offset_agree(n, bs, k);
    } else {
        lemma_offset_whole_tail(bs, k, req, m - 1);
    }
}

/// Taking a block keeps the offsets of the blocks before it, and the blocks
/// still cover the arena exactly.
proof fn lemma_after_kmalloc(bs: Seq<BlockState>, k: int, req: int)
    requires
        0 <= k < bs.len(),
        HEADER_SIZE <= req <= bs[k].size,
    ensures
        offset(after_kmalloc(bs, k, req), k) == offset(bs, k),
        offset(after_kmalloc(bs, k, req), after_kmalloc(bs, k, req).len() as int) == offset(
            bs,
            bs.len() as int,
        ),
{
    let n = after_kmalloc(bs, k, req);
    lemma_offset_agree(n, bs, k);
    if bs[k].size - req > HEADER_SIZE {
        lemma_offset_split_tail(bs, k, req, bs.len() as int);
    } else {
        lemma_offset_whole_tail(bs, k, req, bs.len() as int);
    }
}

impl KernelHeap {
    /// What a request for `size` bytes that returned `r` did to the blocks,
    /// leaving them as `post`: null and nothing changed when no free block
    /// holds the request; otherwise the address after the header of the first
    /// free block that does, now taken.
    pub open spec fn takes(&self, post: Seq<BlockState>, size: u64, r: u64) -> bool {
        &&& r == 0 <==> forall|k: int|
            0 <= k < self.blocks().len() ==> !fits(#[trigger] self.blocks()[k], request(size))
        &&& r == 0 ==> post == self.blocks()
        &&& r != 0 ==> exists|k: int|
            0 <= k < self.blocks().len() && #[trigger] fits(self.blocks()[k], request(size))
                && (forall|j: int| 0 <= j < k ==> !fits(self.blocks()[j], request(size))) && r
                == self.head() + offset(self.blocks(), k) + HEADER_SIZE && post == after_kmalloc(
                self.blocks(),
                k,
                request(size),
            )
    }
}

impl KernelHeap {
    /// Reserves `pages` zeroed frames from `frames` as the arena, and makes
    /// them one free block. `None` when the frames cannot be had.
    pub fn init(frames: &mut FrameAllocator, pages: usize) -> (r: Option<KernelHeap>)
        requires
            old(frames).wf(),
            pages >= 1,
        ensures
            final(frames).wf(),
            final(frames).base() == old(frames).base(),
            final(frames).heap_base() == old(frames).heap_base(),
            r is None <==> forall|i: int| !crate::page::run_free(old(frames).meta(), i, pages as int),
            r matches Some(h) ==> {
                &&& h.wf()
                &&& old(frames).allocates(final(frames).meta(), pages, h.head())
                &&& h.total() == pages * PAGE_SIZE
                &&& h.blocks() == seq![BlockState { taken: false, size: (pages * PAGE_SIZE) as u64 }]
                &&& forall|j: int| 0 <= j < h.bytes().len() ==> #[trigger] h.bytes()[j] == 0
            },
    {
        let head = frames.zalloc(pages);
        if head == 0 {
            return None;
        }
        proof {
            let i = old(frames).page_of(head);
            assert(crate::page::run_free(old(frames).meta(), i, pages as int));
            vstd::arithmetic::mul::lemma_mul_inequality(
                i + pages,
                old(frames).meta().len() as int,
                PAGE_SIZE as int,
            );
            let b = old(frames).base() as int;
            let len = old(frames).meta().len() as int;
            assert(head + pages * PAGE_SIZE <= b + len * PAGE_SIZE) by (nonlinear_arith)
                requires
                    head == b + i * PAGE_SIZE,
                    (i + pages) * PAGE_SIZE <= len * PAGE_SIZE,
            ;
            assert(pages * PAGE_SIZE <= old(frames).words().len() * 8);
        }
        let total: u64 = pages as u64 * PAGE_SIZE;
        let mut data: Vec<u8> = Vec::new();
        let mut j: u64 = 0;
        while j < total
            invariant
                j <= total,
                data@.len() == j,
                forall|k: int| 0 <= k < j ==> #[trigger] data@[k] == 0,
            decreases total - j,
        {
            data.push(0);
            j = j + 1;
        }
        let mut first = Allocation { flags_size: 0 };
        first.set_free();
        first.set_size(total);
        let mut blocks: Vec<Allocation> = Vec::new();
        blocks.push(first);
        let h = KernelHeap { head, num_pages: pages, blocks, data };
        proof {
            assert(total & !TAKEN_BIT == total) by (bit_vector)
                requires
                    total < 0x100_0000_0000_0000u64,
            ;
            assert(h.blocks() =~= seq![BlockState { taken: false, size: total }]);
            assert(offset(h.blocks(), 1) == offset(h.blocks(), 0) + total);
            assert(total % 8 == 0);
        }
        Some(h)
    }

    /// The address of the first header.
    pub fn get_head(&self) -> (r: u64)
        ensures
            r == self.head(),
    {
        self.head
    }

    /// The number of frames the arena spans.
    pub fn get_num_allocations(&self) -> (r: usize)
        ensures
            r * PAGE_SIZE == self.total(),
    {
        self.num_pages
    }

    /// Takes the first free block that holds `size` bytes rounded up to a
    /// multiple of 8, plus a header; splits it when more than a header's worth
    /// would remain. Returns the address just after the block's header, or 0
    /// (null) when no block fits, and then changes nothing.
    pub fn kmalloc(&mut self, size: u64) -> (r: u64)
        requires
            old(self).wf(),
        ensures
            final(self).wf(),
            final(self).head() == old(self).head(),
            final(self).total() == old(self).total(),
            final(self).bytes() == old(self).bytes(),
            old(self).takes(final(self).blocks(), size, r),
    {
        let ghost bs = self.blocks();
        let n = self.blocks.len();
        proof {
            vstd::arithmetic::power2::lemma2_to64();
        }
        if size > self.num_pages as u64 * PAGE_SIZE {
            proof {
                assert(request(size) >= size) by (nonlinear_arith)
                    requires
                        request(size) == (size + 8 - 1) / 8 * 8 + 8,
                ;
                assert forall|k: int| 0 <= k < bs.len() implies !fits(#[trigger] bs[k], request(size)) by {
                    lemma_offset_mono(bs, k, bs.len() as int);
                }
            }
            return 0;
        }
        let req: u64 = align_val(size, 3) + HEADER_SIZE;
        assert(req == request(size));
        assert(req % 8 == 0);
        let mut k: usize = 0;
        let mut off: u64 = 0;
        while k < n
            invariant
                n == self.blocks@.len(),
                bs == self.blocks(),
                self.wf(),
                self.head == old(self).head,
                self.num_pages == old(self).num_pages,
                self.data == old(self).data,
                bs == old(self).blocks(),
                k <= n,
                off == offset(bs, k as int),
                req == request(size),
                req % 8 == 0,
                forall|j: int| 0 <= j < k ==> !fits(#[trigger] bs[j], req as int),
            decreases n - k,
        {
            let b = self.blocks[k];
            assert(b@ == bs[k as int]);
            proof {
                lemma_offset_mono(bs, k as int, n as int);
            }
            if b.is_free() && req <= b.get_size() {
                let chunk = b.get_size();
                assert(chunk <= PHYS_LIMIT);
                let rem = chunk - req;
                let mut hb = b;
                hb.set_taken();
                if rem > HEADER_SIZE {
                    let mut next = Allocation { flags_size: 0 };
                    next.set_free();
                    next.set_size(rem);
                    hb.set_size(req);
                    self.blocks.set(k, hb);
                    self.blocks.insert(k + 1, next);
                    proof {
                        assert(rem & !TAKEN_BIT == rem && req & !TAKEN_BIT == req) by (bit_vector)
                            requires
                                rem <= 0x100_0000_0000_0000u64,
                                req <= 0x100_0000_0000_0000u64,
                        ;
                        assert(self.blocks() =~= after_kmalloc(bs, k as int, req as int));
                    }
                } else {
                    hb.set_size(chunk);
                    self.blocks.set(k, hb);
                    proof {
                        assert(chunk & !TAKEN_BIT == chunk) by (bit_vector)
                            requires
                                chunk <= 0x100_0000_0000_0000u64,
                        ;
                        assert(self.blocks() =~= after_kmalloc(bs, k as int, req as int));
                    }
                }
                proof {
                    lemma_after_kmalloc(bs, k as int, req as int);
                    let nb = self.blocks();
                    assert forall|j: int| 0 <= j < nb.len() implies (#[trigger] nb[j]).size
                        >= HEADER_SIZE && nb[j].size % 8 == 0 by {
                        if j < k {
                            assert(nb[j] == bs[j]);
                        } else if j == k {
                        } else if rem > HEADER_SIZE {
                            if j > k + 1 {
                                assert(nb[j] == bs[j - 1]);
                            }
                        } else {
                            assert(nb[j] == bs[j]);
                        }
                    }
                    assert(fits(bs[k as int], req as int));
                }
                return self.head + off + HEADER_SIZE;
            }
            off = off + b.get_size();
            k = k + 1;
        }
        0
    }
}

impl KernelHeap {
    /// Like `kmalloc`, and the `size` bytes rounded up to a multiple of 8
    /// that the caller gets are zero.
    pub fn kzmalloc(&mut self, size: u64) -> (r: u64)
        requires
            old(self).wf(),
        ensures
            final(self).wf(),
            final(self).head() == old(self).head(),
            final(self).total() == old(self).total(),
            old(self).takes(final(self).blocks(), size, r),
            final(self).bytes().len() == old(self).bytes().len(),
            r == 0 ==> final(self).bytes() == old(self).bytes(),
            r != 0 ==> forall|j: int|
                0 <= j < old(self).bytes().len() ==> #[trigger] final(self).bytes()[j] == if r
                    - old(self).head() <= j < r - old(self).head() + crate::page::align_up(
                    size as int,
                    3,
                ) {
                    0
                } else {
                    old(self).bytes()[j]
                },
    {
        let r = self.kmalloc(size);
        if r != 0 {
            let ghost bs = old(self).blocks();
            let ghost k = choose|k: int|
                0 <= k < bs.len() && #[trigger] fits(bs[k], request(size)) && (forall|j: int|
                    0 <= j < k ==> !fits(bs[j], request(size))) && r == old(self).head() + offset(
                    bs,
                    k,
                ) + HEADER_SIZE && self.blocks() == after_kmalloc(bs, k, request(size));
            proof {
                lemma_offset_mono(bs, k, bs.len() as int);
                vstd::arithmetic::power2::lemma2_to64();
                assert(request(size) >= size) by (nonlinear_arith)
                    requires
                        request(size) == (size + 8 - 1) / 8 * 8 + 8,
                ;
            }
            let len: u64 = align_val(size, 3);
            assert(len == crate::page::align_up(size as int, 3));
            assert((r - self.head) + len <= self.data@.len());
            let total = self.data.len();
            let start: usize = (r - self.head) as usize;
            let end: usize = start + len as usize;
            let mut j: usize = start;
            let ghost mid = self.blocks@;
            while j < end
                invariant
                    start <= j <= end,
                    end <= self.data@.len(),
                    self.data@.len() == old(self).data@.len(),
                    self.blocks@ == mid,
                    self.head == old(self).head,
                    self.num_pages == old(self).num_pages,
                    forall|m: int|
                        0 <= m < self.data@.len() ==> #[trigger] self.data@[m] == if start <= m < j {
                            0
                        } else {
                            old(self).data@[m]
                        },
                decreases end - j,
            {
                self.data.set(j, 0);
                j = j + 1;
            }
        }
        r
    }
}

impl KernelHeap {
    /// The byte at `addr`; `None` outside the arena.
    pub fn read_byte(&self, addr: u64) -> (r: Option<u8>)
        requires
            self.wf(),
        ensures
            r is Some <==> self.head() <= addr < self.head() + self.total(),
            r matches Some(b) ==> b == self.bytes()[addr - self.head()],
    {
        if addr < self.head {
            return None;
        }
        let off = addr - self.head;
        if off >= self.data.len() as u64 {
            return None;
        }
        Some(self.data[off as usize])
    }

    /// Stores `value` at `addr`; refused (`false`) outside the arena.
    pub fn write_byte(&mut self, addr: u64, value: u8) -> (r: bool)
        requires
            old(self).wf(),
        ensures
            final(self).wf(),
            final(self).head() == old(self).head(),
            final(self).total() == old(self).total(),
            final(self).blocks() == old(self).blocks(),
            r <==> old(self).head() <= addr < old(self).head() + old(self).total(),
            r ==> final(self).bytes() == old(self).bytes().update(addr - old(self).head(), value),
            !r ==> final(self).bytes() == old(self).bytes(),
    {
        if addr < self.head {
            return false;
        }
        let off = addr - self.head;
        if off >= self.data.len() as u64 {
            return false;
        }
        self.data.set(off as usize, value);
        true
    }
}

/// Two requests made one after the other, with nothing released in between,
/// get regions that do not overlap: each region is the rounded-up size that
/// was asked for, from the address returned.
pub proof fn lemma_kmalloc_disjoint(
    h0: KernelHeap,
    h1: KernelHeap,
    h2: KernelHeap,
    s1: u64,
    s2: u64,
    r1: u64,
    r2: u64,
)
    requires
        h0.wf(),
        h0.takes(h1.blocks(), s1, r1),
        h1.head() == h0.head(),
        h1.takes(h2.blocks(), s2, r2),
        r1 != 0,
        r2 != 0,
    ensures
        r1 + crate::page::align_up(s1 as int, 3) <= r2 || r2 + crate::page::align_up(s2 as int, 3)
            <= r1,
{
    let b0 = h0.blocks();
    let k1 = choose|k: int|
        0 <= k < b0.len() && #[trigger] fits(b0[k], request(s1)) && (forall|j: int|
            0 <= j < k ==> !fits(b0[j], request(s1))) && r1 == h0.head() + offset(b0, k)
            + HEADER_SIZE && h1.blocks() == after_kmalloc(b0, k, request(s1));
    let b1 = h1.blocks();
    let k2 = choose|k: int|
        0 <= k < b1.len() && #[trigger] fits(b1[k], request(s2)) && (forall|j: int|
            0 <= j < k ==> !fits(b1[j], request(s2))) && r2 == h1.head() + offset(b1, k)
            + HEADER_SIZE && h2.blocks() == after_kmalloc(b1, k, request(s2));
    lemma_after_kmalloc(b0, k1, request(s1));
    assert(b1[k1].taken && b1[k1].size >= request(s1));
    assert(k1 != k2);
    if k1 < k2 {
        lemma_offset_mono(b1, k1, k2);
    } else {
        lemma_offset_mono(b1, k2, k1);
    }
}

} // verus!

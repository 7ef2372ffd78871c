//! Physical frames: page metadata, the first-fit frame allocator and the
//! helpers that turn frame numbers into addresses.
use vstd::prelude::*;
use vstd::arithmetic::power2::pow2;

verus! {

/// log2 of the page size.
pub const PAGE_ORDER: u64 = 12;

/// A single page is 4096 bytes.
pub const PAGE_SIZE: u64 = 4096;

/// Physical addresses are 56 bits wide: every page lies below this bound.
pub const PHYS_LIMIT: u64 = 0x100_0000_0000_0000;

/// Rounds `val` up to the next multiple of `2^order`.
pub fn align_val(val: u64, order: u64) -> (r: u64)
    requires
        order < 64,
        val + pow2(order as nat) - 1 <= u64::MAX,
    ensures
        r as nat % pow2(order as nat) == 0,
        val <= r,
        r < val + pow2(order as nat),
        r as int == align_up(val as int, order as nat),
{
    proof {
        vstd::bits::lemma_u64_pow2_no_overflow(order as nat);
        vstd::bits::lemma_u64_shl_is_mul(1, order);
    }
    let o: u64 = (1u64 << order) - 1;
    let s: u64 = val + o;
    let r = s & !o;
    assert(o & ((o + 1) as u64) == 0) by (bit_vector)
        requires
            order < 64,
            o == ((1u64 << order) - 1) as u64;
    assert(r & o == 0 && val <= r && r <= val + o) by (bit_vector)
        requires
            o & ((o + 1) as u64) == 0,
            s == val + o,
            r == s & !o;
    proof {
        vstd::bits::lemma_u64_low_bits_mask_is_mod(r, order as nat);
        let p = pow2(order as nat) as int;
        let v = val as int;
        let ri = r as int;
        assert(ri == (v + p - 1) / p * p) by (nonlinear_arith)
            requires
                p > 0,
                ri % p == 0,
                v <= ri,
                ri < v + p,
        {
            let q = ri / p;
            assert(ri == q * p);
            assert(v + p - 1 == q * p + (v + p - 1 - q * p));
            assert(0 <= v + p - 1 - q * p < p);
            vstd::arithmetic::div_mod::lemma_fundamental_div_mod_converse(v + p - 1, p, q, v + p - 1 - q * p);
        }
    }
    r
}


/// The flags of a page's metadata record.
enum PageBits {
    Empty,
    Taken,
    Last,
}

impl PageBits {
    fn val(self) -> (r: u8)
        ensures
            r == match self {
                PageBits::Empty => 0u8,
                PageBits::Taken => 1u8,
                PageBits::Last => 2u8,
            },
    {
        match self {
            PageBits::Empty => 0,
            PageBits::Taken => 1,
            PageBits::Last => 2,
        }
    }
}

/// What a page's metadata record says: whether the page belongs to an
/// allocation, and whether it is the final page of its run.
#[derive(PartialEq, Eq, Structural, Clone, Copy, Debug)]
pub struct PageState {
    pub taken: bool,
    pub last: bool,
}

/// The metadata record of a free page.
pub open spec fn free_page() -> PageState {
    PageState { taken: false, last: false }
}

/// The metadata record of one physical page.
#[derive(Clone, Copy, Debug)]
pub struct Page {
    flags: u8,
}

impl View for Page {
    type V = PageState;

    closed spec fn view(&self) -> PageState {
        PageState { taken: self.flags & 1 != 0, last: self.flags & 2 != 0 }
    }
}

impl Page {
    fn is_last(&self) -> (r: bool)
        ensures
            r == self@.last,
    {
        self.flags & PageBits::Last.val() != 0
    }

    fn is_taken(&self) -> (r: bool)
        ensures
            r == self@.taken,
    {
        self.flags & PageBits::Taken.val() != 0
    }

    fn is_free(&self) -> (r: bool)
        ensures
            r == !self@.taken,
    {
        !self.is_taken()
    }

    fn clear(&mut self)
        ensures
            final(self)@ == free_page(),
    {
        self.flags = PageBits::Empty.val();
        assert(0u8 & 1 == 0 && 0u8 & 2 == 0) by (bit_vector);
    }

    fn set_flag(&mut self, flag: u8)
        ensures
            final(self)@ == (PageState {
                taken: old(self)@.taken || flag & 1 != 0,
                last: old(self)@.last || flag & 2 != 0,
            }),
    {
        let f = self.flags;
        self.flags = f | flag;
        assert(((f | flag) & 1 != 0) == (f & 1 != 0 || flag & 1 != 0)) by (bit_vector);
        assert(((f | flag) & 2 != 0) == (f & 2 != 0 || flag & 2 != 0)) by (bit_vector);
    }
}

/// Every run is well formed: a free page is never flagged last, and the final
/// page, when taken, ends its run, so that a walk along a run always stops
/// inside the metadata.
pub open spec fn runs_ok(s: Seq<PageState>) -> bool {
    &&& forall|j: int| 0 <= j < s.len() && !(#[trigger] s[j]).taken ==> !s[j].last
    &&& s.len() > 0 && s[s.len() - 1].taken ==> s[s.len() - 1].last
}

/// The `n` pages from index `i` on exist and are all free.
pub open spec fn run_free(s: Seq<PageState>, i: int, n: int) -> bool {
    &&& 0 <= i
    &&& i + n <= s.len()
    &&& forall|j: int| i <= j < i + n ==> !(#[trigger] s[j]).taken
}

/// The metadata after the `n` pages from `i` on are handed out as one run.
pub open spec fn after_alloc(s: Seq<PageState>, i: int, n: int) -> Seq<PageState> {
    Seq::new(
        s.len(),
        |j: int|
            if i <= j < i + n {
                PageState { taken: true, last: j == i + n - 1 }
            } else {
                s[j]
            },
    )
}

/// The index at which a walk that starts at page `k` and follows taken,
/// non-final pages stops.
pub open spec fn run_end(s: Seq<PageState>, k: int) -> int
    decreases s.len() - k,
{
    if k + 1 >= s.len() || !s[k].taken || s[k].last {
        k
    } else {
        run_end(s, k + 1)
    }
}

/// The metadata after the run that starts at page `k` is released: every page
/// from `k` up to and including the end of its run is cleared.
pub open spec fn after_dealloc(s: Seq<PageState>, k: int) -> Seq<PageState> {
    Seq::new(s.len(), |j: int| if k <= j <= run_end(s, k) { free_page() } else { s[j] })
}

/// The number of taken pages.
pub open spec fn taken_count(s: Seq<PageState>) -> nat
    decreases s.len(),
{
    if s.len() == 0 {
        0
    } else {
        taken_count(s.drop_last()) + if s.last().taken { 1nat } else { 0nat }
    }
}

/// Why a release of pages was refused.
#[derive(PartialEq, Eq, Structural, Clone, Copy, Debug)]
pub enum FrameError {
    /// The address was null.
    NullPointer,
    /// The address does not lie in a taken page.
    NotTaken,
}

/// The physical frames of the heap region and the metadata that tracks them.
///
/// The metadata array starts at `heap_start`, one record per page; the pages
/// themselves start at `alloc_start`, the first page boundary after the
/// metadata. The contents of every page are kept as 512 machine words.
pub struct FrameAllocator {
    heap_start: u64,
    alloc_start: u64,
    pages: Vec<Page>,
    mem: Vec<u64>,
}

/// The number of machine words in a page.
pub const PAGE_WORDS: usize = 512;

impl FrameAllocator {
    /// The metadata records, page by page.
    pub closed spec fn meta(&self) -> Seq<PageState> {
        self.pages@.map_values(|p: Page| p@)
    }

    /// The contents of all pages as machine words, page after page.
    pub closed spec fn words(&self) -> Seq<u64> {
        self.mem@
    }

    /// The address of the metadata array.
    pub closed spec fn heap_base(&self) -> u64 {
        self.heap_start
    }

    /// The address of the first page.
    pub closed spec fn base(&self) -> u64 {
        self.alloc_start
    }

    /// The address of page `i`.
    pub open spec fn page_addr(&self, i: int) -> int {
        self.base() + i * PAGE_SIZE
    }

    /// `addr` lies inside the page region.
    pub open spec fn in_region(&self, addr: u64) -> bool {
        self.base() <= addr < self.base() + self.meta().len() * PAGE_SIZE
    }

    /// The page that holds `addr`.
    pub open spec fn page_of(&self, addr: u64) -> int {
        (addr - self.base()) / PAGE_SIZE as int
    }

    /// The index in `words()` of the word that starts at `addr`.
    pub open spec fn word_of(&self, addr: u64) -> int {
        (addr - self.base()) / 8
    }

    pub open spec fn wf(&self) -> bool {
        &&& self.meta().len() * PAGE_WORDS == self.words().len()
        &&& self.base() % PAGE_SIZE == 0
        &&& self.meta().len() > 0 ==> self.base() > 0
        &&& self.base() + self.meta().len() * PAGE_SIZE <= PHYS_LIMIT
        &&& self.heap_base() + self.meta().len() <= u64::MAX
        &&& runs_ok(self.meta())
    }
}

impl FrameAllocator {
    /// Sets up the allocator over a heap region of `heap_size` bytes at
    /// `heap_start`: one cleared metadata record per page at the start of the
    /// region, and the pages from the first page boundary after them.
    pub fn init(heap_start: u64, heap_size: u64) -> (r: FrameAllocator)
        requires
            heap_start + 2 * heap_size + PAGE_SIZE <= PHYS_LIMIT,
            heap_size / 8 <= usize::MAX,
        ensures
            r.wf(),
            r.meta().len() == heap_size / PAGE_SIZE,
            forall|j: int| 0 <= j < r.meta().len() ==> #[trigger] r.meta()[j] == free_page(),
            forall|w: int| 0 <= w < r.words().len() ==> #[trigger] r.words()[w] == 0,
            r.heap_base() == heap_start,
            r.base() as int == align_up(heap_start + heap_size / PAGE_SIZE, PAGE_ORDER as nat),
    {
        let num_pages: usize = (heap_size / PAGE_SIZE) as usize;
        let mut pages: Vec<Page> = Vec::new();
        let mut i: usize = 0;
        while i < num_pages
            invariant
                i <= num_pages,
                pages@.len() == i,
                forall|j: int| 0 <= j < i ==> (#[trigger] pages@[j])@ == free_page(),
            decreases num_pages - i,
        {
            let mut p = Page { flags: 0 };
            p.clear();
            pages.push(p);
            i = i + 1;
        }
        let n_words: usize = num_pages * PAGE_WORDS;
        let mut mem: Vec<u64> = Vec::new();
        let mut w: usize = 0;
        while w < n_words
            invariant
                w <= n_words,
                mem@.len() == w,
                forall|k: int| 0 <= k < w ==> #[trigger] mem@[k] == 0,
            decreases n_words - w,
        {
            mem.push(0);
            w = w + 1;
        }
        proof {
            vstd::arithmetic::power2::lemma2_to64();
        }
        let alloc_start = align_val(heap_start + num_pages as u64, PAGE_ORDER);
        let r = FrameAllocator { heap_start, alloc_start, pages, mem };
        assert(r.meta().len() == num_pages);
        assert forall|j: int| 0 <= j < r.meta().len() implies #[trigger] r.meta()[j] == free_page() by {
            assert(r.meta()[j] == pages@[j]@);
        }
        r
    }
}

impl FrameAllocator {
    /// The address of the first page.
    pub fn first_page_addr(&self) -> (r: u64)
        ensures
            r == self.base(),
    {
        self.alloc_start
    }

    /// The number of pages the allocator manages.
    pub fn num_pages(&self) -> (r: usize)
        ensures
            r == self.meta().len(),
    {
        self.pages.len()
    }

    proof fn lemma_meta_index(&self, j: int)
        requires
            0 <= j < self.pages@.len(),
        ensures
            self.meta()[j] == self.pages@[j]@,
            self.meta().len() == self.pages@.len(),
    {
    }

    /// Hands out `pages` contiguous pages, first fit: the lowest run of that
    /// many free pages is taken, its final page flagged last, and the address
    /// of its first page returned. Returns 0 (null) when `pages` is 0 or no
    /// such run exists, and then changes nothing.
    pub fn alloc_pages(&mut self, pages: usize) -> (r: u64)
        requires
            old(self).wf(),
        ensures
            final(self).wf(),
            final(self).words() == old(self).words(),
            final(self).base() == old(self).base(),
            final(self).heap_base() == old(self).heap_base(),
            old(self).allocates(final(self).meta(), pages, r),
    {
        match self.first_fit(pages) {
            None => 0,
            Some(i) => {
                proof {
                    lemma_mul_le(i as int, self.meta().len() - 1);
                }
                self.mark_run(i, pages);
                self.alloc_start + PAGE_SIZE * (i as u64)
            },
        }
    }

    /// The lowest index at which `pages` free pages follow one another.
    fn first_fit(&self, pages: usize) -> (r: Option<usize>)
        requires
            self.wf(),
        ensures
            r is None <==> (pages == 0 || forall|i: int| !run_free(self.meta(), i, pages as int)),
            r matches Some(i) ==> pages >= 1 && run_free(self.meta(), i as int, pages as int) && (
            forall|k: int| 0 <= k < i ==> !run_free(self.meta(), k, pages as int)),
    {
        let num_pages = self.pages.len();
        if pages == 0 || pages > num_pages {
            return None;
        }
        let ghost s = self.meta();
        let mut i: usize = 0;
        while i <= num_pages - pages
            invariant
                pages >= 1,
                pages <= num_pages,
                num_pages == self.pages@.len(),
                self.meta() == s,
                forall|k: int| 0 <= k < i ==> !run_free(s, k, pages as int),
            decreases num_pages - i,
        {
            let mut found = false;
            proof {
                self.lemma_meta_index(i as int);
            }
            if self.pages[i].is_free() {
                found = true;
                let mut j: usize = i;
                while j < i + pages
                    invariant_except_break
                        found,
                    invariant
                        i <= j <= i + pages,
                        i + pages <= num_pages,
                        num_pages == self.pages@.len(),
                        self.meta() == s,
                        forall|k: int| i <= k < j ==> !(#[trigger] s[k]).taken,
                    ensures
                        found ==> j == i + pages,
                        !found ==> !run_free(s, i as int, pages as int),
                    decreases i + pages - j,
                {
                    proof {
                        self.lemma_meta_index(j as int);
                    }
                    if self.pages[j].is_taken() {
                        found = false;
                        break;
                    }
                    j = j + 1;
                }
            }
            if found {
                assert(run_free(s, i as int, pages as int));
                return Some(i);
            }
            i = i + 1;
        }
        proof {
            assert forall|k: int| !run_free(s, k, pages as int) by {
                if 0 <= k && k + pages <= num_pages {
                    assert(k < i);
                }
            }
        }
        None
    }

    /// Flags the free run of `n` pages at `i` as taken, the final one as last.
    fn mark_run(&mut self, i: usize, n: usize)
        requires
            old(self).wf(),
            n >= 1,
            run_free(old(self).meta(), i as int, n as int),
        ensures
            final(self).wf(),
            final(self).words() == old(self).words(),
            final(self).base() == old(self).base(),
            final(self).heap_base() == old(self).heap_base(),
            final(self).meta() == after_alloc(old(self).meta(), i as int, n as int),
            taken_count(final(self).meta()) == taken_count(old(self).meta()) + n,
    {
        assert(1u8 & 1 != 0 && 1u8 & 2 == 0 && 2u8 & 1 == 0 && 2u8 & 2 != 0) by (bit_vector);
        let ghost s = self.meta();
        let ghost before = self.pages@;
        let num_pages = self.pages.len();
        let mut k: usize = i;
        while k < i + n - 1
            invariant
                i <= k <= i + n - 1,
                i + n <= num_pages,
                self.pages@.len() == num_pages,
                run_free(s, i as int, n as int),
                runs_ok(s),
                s.len() == num_pages,
                s == before.map_values(|p: Page| p@),
                self.mem == old(self).mem,
                self.alloc_start == old(self).alloc_start,
                self.heap_start == old(self).heap_start,
                forall|j: int|
                    0 <= j < num_pages ==> (#[trigger] self.pages@[j])@ == if i <= j < k {
                        PageState { taken: true, last: false }
                    } else {
                        s[j]
                    },
            decreases i + n - 1 - k,
        {
            let mut p = self.pages[k];
            assert(p@ == s[k as int]);
            assert(!s[k as int].taken);
            assert(!s[k as int].last);
            assert(1u8 & 1 != 0 && 1u8 & 2 == 0) by (bit_vector);
            p.set_flag(PageBits::Taken.val());
            assert(p@ == PageState { taken: true, last: false });
            self.pages.set(k, p);
            k = k + 1;
        }
        let mut p = self.pages[i + n - 1];
        p.set_flag(PageBits::Taken.val());
        p.set_flag(PageBits::Last.val());
        assert(p@ == PageState { taken: true, last: true });
        self.pages.set(i + n - 1, p);
        proof {
            assert forall|j: int| 0 <= j < num_pages implies #[trigger] self.meta()[j] == after_alloc(
                s,
                i as int,
                n as int,
            )[j] by {
                self.lemma_meta_index(j);
            }
            assert(self.meta() =~= after_alloc(s, i as int, n as int));
            lemma_after_alloc_ok(s, i as int, n as int);
            lemma_after_alloc_count(s, i as int, n as int);
        }
    }
}

proof fn lemma_mul_le(i: int, m: int)
    requires
        0 <= i <= m,
    ensures
        i * PAGE_SIZE <= m * PAGE_SIZE,
{
    vstd::arithmetic::mul::lemma_mul_inequality(i, m, PAGE_SIZE as int);
}

/// Handing out a free run keeps the runs well formed.
pub proof fn lemma_after_alloc_ok(s: Seq<PageState>, i: int, n: int)
    requires
        runs_ok(s),
        n >= 1,
        run_free(s, i, n),
    ensures
        runs_ok(after_alloc(s, i, n)),
{
    let a = after_alloc(s, i, n);
    assert forall|j: int| 0 <= j < a.len() && !(#[trigger] a[j]).taken implies !a[j].last by {}
}

proof fn lemma_after_alloc_count_prefix(s: Seq<PageState>, i: int, n: int, m: int)
    requires
        n >= 1,
        run_free(s, i, n),
        0 <= m <= s.len(),
    ensures
        taken_count(after_alloc(s, i, n).take(m)) == taken_count(s.take(m)) + if m <= i {
            0
        } else if m <= i + n {
            m - i
        } else {
            n
        },
    decreases m,
{
    let a = after_alloc(s, i, n);
    if m > 0 {
        lemma_after_alloc_count_prefix(s, i, n, m - 1);
        assert(a.take(m).drop_last() =~= a.take(m - 1));
        assert(s.take(m).drop_last() =~= s.take(m - 1));
    }
}

/// Handing out a free run of `n` pages raises the taken count by `n`.
pub proof fn lemma_after_alloc_count(s: Seq<PageState>, i: int, n: int)
    requires
        n >= 1,
        run_free(s, i, n),
    ensures
        taken_count(after_alloc(s, i, n)) == taken_count(s) + n,
{
    lemma_after_alloc_count_prefix(s, i, n, s.len() as int);
    assert(after_alloc(s, i, n).take(s.len() as int) =~= after_alloc(s, i, n));
    assert(s.take(s.len() as int) =~= s);
}

impl FrameAllocator {
    /// What an allocation of `pages` pages that returned `r` did to the
    /// metadata, leaving it as `post`: null and nothing changed when no run
    /// fits; otherwise the address of the lowest free run, now handed out.
    pub open spec fn allocates(&self, post: Seq<PageState>, pages: usize, r: u64) -> bool {
        &&& r == 0 ==> post == self.meta()
        &&& r == 0 <==> (pages == 0 || forall|i: int| !run_free(self.meta(), i, pages as int))
        &&& r != 0 ==> {
            let i = self.page_of(r);
            &&& self.in_region(r)
            &&& r as int == self.page_addr(i)
            &&& run_free(self.meta(), i, pages as int)
            &&& forall|k: int| 0 <= k < i ==> !run_free(self.meta(), k, pages as int)
            &&& post == after_alloc(self.meta(), i, pages as int)
            &&& taken_count(post) == taken_count(self.meta()) + pages
        }
    }

    /// Like `alloc_pages`, and every word of the pages handed out is zero.
    pub fn zalloc(&mut self, pages: usize) -> (r: u64)
        requires
            old(self).wf(),
        ensures
            final(self).wf(),
            final(self).base() == old(self).base(),
            final(self).heap_base() == old(self).heap_base(),
            old(self).allocates(final(self).meta(), pages, r),
            final(self).words().len() == old(self).words().len(),
            r == 0 ==> final(self).words() == old(self).words(),
            r != 0 ==> forall|w: int|
                0 <= w < old(self).words().len() ==> #[trigger] final(self).words()[w] == if old(
                    self,
                ).page_of(r) * PAGE_WORDS <= w < (old(self).page_of(r) + pages) * PAGE_WORDS {
                    0
                } else {
                    old(self).words()[w]
                },
    {
        let r = self.alloc_pages(pages);
        if r != 0 {
            let ghost i = old(self).page_of(r);
            assert(run_free(old(self).meta(), i, pages as int));
            assert(0 <= i && i + pages <= self.meta().len());
            let q: u64 = (r - self.alloc_start) / PAGE_SIZE;
            assert(q == i);
            assert(self.meta().len() == self.pages@.len());
            let first: usize = q as usize;
            proof {
                vstd::arithmetic::mul::lemma_mul_inequality(
                    first + pages,
                    self.meta().len() as int,
                    PAGE_WORDS as int,
                );
            }
            let total = self.mem.len();
            assert(first * PAGE_WORDS <= (first + pages) * PAGE_WORDS) by (nonlinear_arith);
            assert((first + pages) * PAGE_WORDS <= total);
            let start: usize = first * PAGE_WORDS;
            let end: usize = (first + pages) * PAGE_WORDS;
            let ghost mid_meta = self.meta();
            let ghost mid_base = self.alloc_start;
            let ghost mid_heap = self.heap_start;
            let mut w: usize = start;
            while w < end
                invariant
                    start <= w <= end,
                    end <= self.mem@.len(),
                    self.mem@.len() == old(self).mem@.len(),
                    self.meta() == mid_meta,
                    self.pages@.len() * PAGE_WORDS == self.mem@.len(),
                    self.alloc_start == mid_base,
                    self.heap_start == mid_heap,
                    forall|k: int|
                        0 <= k < self.mem@.len() ==> #[trigger] self.mem@[k] == if start <= k < w {
                            0
                        } else {
                            old(self).mem@[k]
                        },
                decreases end - w,
            {
                self.mem.set(w, 0);
                w = w + 1;
            }
        }
        r
    }

    /// Releases the run that holds `addr` as `dealloc` does; a null address,
    /// and one that does not lie in a taken page, are refused and change
    /// nothing.
    pub(crate) fn try_dealloc(&mut self, addr: u64) -> (r: Result<(), FrameError>)
        requires
            old(self).wf(),
        ensures
            final(self).wf(),
            final(self).words() == old(self).words(),
            final(self).base() == old(self).base(),
            final(self).heap_base() == old(self).heap_base(),
            r == Err::<(), FrameError>(FrameError::NullPointer) <==> addr == 0,
            r == Err::<(), FrameError>(FrameError::NotTaken) <==> addr != 0 && !(old(
                self,
            ).in_region(addr) && old(self).meta()[old(self).page_of(addr)].taken),
            r is Err ==> final(self).meta() == old(self).meta(),
            r is Ok ==> final(self).meta() == after_dealloc(
                old(self).meta(),
                old(self).page_of(addr),
            ),
    {
        if addr == 0 {
            return Err(FrameError::NullPointer);
        }
        if addr < self.alloc_start {
            return Err(FrameError::NotTaken);
        }
        let idx: u64 = (addr - self.alloc_start) / PAGE_SIZE;
        let num_pages = self.pages.len();
        if idx >= num_pages as u64 {
            return Err(FrameError::NotTaken);
        }
        let k: usize = idx as usize;
        proof {
            self.lemma_meta_index(k as int);
        }
        if !self.pages[k].is_taken() {
            return Err(FrameError::NotTaken);
        }
        let ghost s = self.meta();
        let mut j: usize = k;
        while self.pages[j].is_taken() && !self.pages[j].is_last()
            invariant
                k <= j < num_pages,
                self.pages@.len() == num_pages,
                s.len() == num_pages,
                runs_ok(s),
                run_end(s, k as int) == run_end(s, j as int),
                self.mem == old(self).mem,
                self.alloc_start == old(self).alloc_start,
                self.heap_start == old(self).heap_start,
                forall|m: int|
                    0 <= m < num_pages ==> (#[trigger] self.pages@[m])@ == if k <= m < j {
                        free_page()
                    } else {
                        s[m]
                    },
            decreases num_pages - j,
        {
            assert(self.pages@[j as int]@ == s[j as int]);
            self.pages[j].clear();
            j = j + 1;
        }
        assert(self.pages@[j as int]@ == s[j as int]);
        assert(run_end(s, j as int) == j);
        self.pages[j].clear();
        proof {
            let a = after_dealloc(s, k as int);
            assert forall|m: int| 0 <= m < num_pages implies #[trigger] self.meta()[m] == a[m] by {
                self.lemma_meta_index(m);
            }
            assert(self.meta() =~= a);
        }
        Ok(())
    }

    /// Releases the run that holds `addr`: every page from the one holding
    /// `addr` to the end of its run is cleared. Releasing a null address or
    /// one outside a taken page is a fatal fault, which callers rule out
    /// first with `check_release`.
    pub fn dealloc(&mut self, addr: u64)
        requires
            old(self).wf(),
            addr != 0,
            old(self).in_region(addr),
            old(self).meta()[old(self).page_of(addr)].taken,
        ensures
            final(self).wf(),
            final(self).words() == old(self).words(),
            final(self).base() == old(self).base(),
            final(self).heap_base() == old(self).heap_base(),
            final(self).meta() == after_dealloc(old(self).meta(), old(self).page_of(addr)),
    {
        let r = self.try_dealloc(addr);
        proof {
            match r {
                Ok(()) => {},
                Err(e) => {
                    assert(e == FrameError::NullPointer || e == FrameError::NotTaken);
                },
            }
        }
    }

    /// Whether `dealloc(addr)` may be called: `Err(NullPointer)` for the null
    /// address, `Err(NotTaken)` for one that does not lie in a taken page.
    pub fn check_release(&self, addr: u64) -> (r: Result<(), FrameError>)
        requires
            self.wf(),
        ensures
            r == Err::<(), FrameError>(FrameError::NullPointer) <==> addr == 0,
            r == Err::<(), FrameError>(FrameError::NotTaken) <==> addr != 0 && !(self.in_region(addr)
                && self.meta()[self.page_of(addr)].taken),
    {
        if addr == 0 {
            return Err(FrameError::NullPointer);
        }
        if addr < self.alloc_start {
            return Err(FrameError::NotTaken);
        }
        let idx: u64 = (addr - self.alloc_start) / PAGE_SIZE;
        if idx >= self.pages.len() as u64 {
            return Err(FrameError::NotTaken);
        }
        proof {
            self.lemma_meta_index(idx as int);
        }
        if !self.pages[idx as usize].is_taken() {
            return Err(FrameError::NotTaken);
        }
        Ok(())
    }

    /// The number of taken pages.
    pub fn page_count(&self) -> (r: usize)
        requires
            self.wf(),
        ensures
            r == taken_count(self.meta()),
    {
        let ghost s = self.meta();
        let n = self.pages.len();
        let mut count: usize = 0;
        let mut i: usize = 0;
        while i < n
            invariant
                i <= n,
                n == s.len(),
                s == self.meta(),
                count == taken_count(s.take(i as int)),
                count <= i,
            decreases n - i,
        {
            proof {
                self.lemma_meta_index(i as int);
                assert(s.take(i + 1).drop_last() =~= s.take(i as int));
            }
            if self.pages[i].is_taken() {
                count = count + 1;
            }
            i = i + 1;
        }
        assert(s.take(n as int) =~= s);
        count
    }

    /// The address of the metadata record of the first page flagged last,
    /// the final page of the lowest run; the end of the metadata array when no
    /// page is taken.
    pub fn last_page(&self) -> (r: u64)
        requires
            self.wf(),
        ensures
            self.heap_base() <= r <= self.heap_base() + self.meta().len(),
            r < self.heap_base() + self.meta().len() ==> self.meta()[r - self.heap_base()].last,
            forall|j: int| 0 <= j < r - self.heap_base() ==> !(#[trigger] self.meta()[j]).last,
    {
        let n = self.pages.len();
        let mut i: usize = 0;
        while i < n
            invariant
                i <= n,
                n == self.meta().len(),
                self.wf(),
                forall|j: int| 0 <= j < i ==> !(#[trigger] self.meta()[j]).last,
            decreases n - i,
        {
            proof {
                self.lemma_meta_index(i as int);
            }
            if self.pages[i].is_last() {
                return self.heap_start + i as u64;
            }
            i = i + 1;
        }
        self.heap_start + n as u64
    }

    /// The word at `addr`; `None` unless `addr` is a word boundary inside the
    /// page region.
    pub fn read_word(&self, addr: u64) -> (r: Option<u64>)
        requires
            self.wf(),
        ensures
            r is Some <==> self.in_region(addr) && addr % 8 == 0,
            r matches Some(v) ==> v == self.words()[self.word_of(addr)],
    {
        if addr < self.alloc_start || addr % 8 != 0 {
            return None;
        }
        let w: u64 = (addr - self.alloc_start) / 8;
        if w >= self.mem.len() as u64 {
            return None;
        }
        Some(self.mem[w as usize])
    }

    /// Stores `value` at `addr`; refused (`false`) unless `addr` is a word
    /// boundary inside the page region.
    pub fn write_word(&mut self, addr: u64, value: u64) -> (r: bool)
        requires
            old(self).wf(),
        ensures
            final(self).wf(),
            final(self).meta() == old(self).meta(),
            final(self).base() == old(self).base(),
            final(self).heap_base() == old(self).heap_base(),
            r <==> old(self).in_region(addr) && addr % 8 == 0,
            r ==> final(self).words() == old(self).words().update(old(self).word_of(addr), value),
            !r ==> final(self).words() == old(self).words(),
    {
        if addr < self.alloc_start || addr % 8 != 0 {
            return false;
        }
        let w: u64 = (addr - self.alloc_start) / 8;
        if w >= self.mem.len() as u64 {
            return false;
        }
        self.mem.set(w as usize, value);
        true
    }
}

proof fn lemma_run_end_after_alloc(s: Seq<PageState>, i: int, n: int, k: int)
    requires
        n >= 1,
        run_free(s, i, n),
        i <= k <= i + n - 1,
    ensures
        run_end(after_alloc(s, i, n), k) == i + n - 1,
    decreases i + n - 1 - k,
{
    if k < i + n - 1 {
        lemma_run_end_after_alloc(s, i, n, k + 1);
    }
}

/// Releasing the run just handed out at `i` gives back the metadata as it
/// was before.
proof fn lemma_dealloc_undoes_alloc(s: Seq<PageState>, i: int, n: int)
    requires
        runs_ok(s),
        n >= 1,
        run_free(s, i, n),
    ensures
        after_dealloc(after_alloc(s, i, n), i) == s,
{
    lemma_run_end_after_alloc(s, i, n, i);
    let d = after_dealloc(after_alloc(s, i, n), i);
    assert forall|j: int| 0 <= j < s.len() implies #[trigger] d[j] == s[j] by {
        if i <= j < i + n {
            assert(!s[j].taken);
        }
    }
    assert(d =~= s);
}

/// Allocating `n >= 1` pages raises the taken count by exactly `n`, and
/// releasing the address that came back brings the metadata, and with it the
/// count, back to what it was before the allocation.
pub proof fn lemma_alloc_then_dealloc(
    before: FrameAllocator,
    allocated: FrameAllocator,
    released: FrameAllocator,
    n: usize,
    r: u64,
)
    requires
        before.wf(),
        n >= 1,
        before.allocates(allocated.meta(), n, r),
        r != 0,
        allocated.base() == before.base(),
        released.meta() == after_dealloc(allocated.meta(), allocated.page_of(r)),
    ensures
        taken_count(allocated.meta()) == taken_count(before.meta()) + n,
        released.meta() == before.meta(),
        taken_count(released.meta()) == taken_count(before.meta()),
{
    lemma_dealloc_undoes_alloc(before.meta(), before.page_of(r), n as int);
}

/// While some page is not taken, a run of one free page exists.
pub proof fn lemma_free_page_exists(s: Seq<PageState>)
    requires
        taken_count(s) < s.len(),
    ensures
        exists|i: int| run_free(s, i, 1),
    decreases s.len(),
{
    if s.last().taken {
        lemma_free_page_exists(s.drop_last());
        let i = choose|i: int| run_free(s.drop_last(), i, 1);
        assert(s.drop_last()[i] == s[i]);
        assert(run_free(s, i, 1));
    } else {
        assert(run_free(s, s.len() - 1, 1));
    }
}

impl FrameAllocator {
    /// What releasing `addr` makes of the metadata `s`, for the page region of
    /// this allocator.
    pub open spec fn release(&self, s: Seq<PageState>, addr: u64) -> Result<Seq<PageState>, FrameError> {
        if addr == 0 {
            Err(FrameError::NullPointer)
        } else if !(self.in_region(addr) && s[self.page_of(addr)].taken) {
            Err(FrameError::NotTaken)
        } else {
            Ok(after_dealloc(s, self.page_of(addr)))
        }
    }

    /// The metadata after releasing `addrs` in order, starting from `s`, and
    /// the first refusal, after which nothing more is released.
    pub open spec fn release_all(&self, s: Seq<PageState>, addrs: Seq<u64>) -> (Seq<PageState>, Option<FrameError>)
        decreases addrs.len(),
    {
        if addrs.len() == 0 {
            (s, None)
        } else {
            let (p, err) = self.release_all(s, addrs.drop_last());
            if err is Some {
                (p, err)
            } else {
                match self.release(p, addrs.last()) {
                    Ok(q) => (q, None),
                    Err(e) => (p, Some(e)),
                }
            }
        }
    }

    /// Releasing `a` and then `b` is releasing `a + b`.
    pub proof fn lemma_release_concat(&self, s: Seq<PageState>, a: Seq<u64>, b: Seq<u64>)
        ensures
            self.release_all(s, a + b) == (match self.release_all(s, a) {
                (p, Some(e)) => (p, Some(e)),
                (p, None) => self.release_all(p, b),
            }),
        decreases b.len(),
    {
        if b.len() == 0 {
            assert(a + b =~= a);
        } else {
            self.lemma_release_concat(s, a, b.drop_last());
            assert((a + b).drop_last() =~= a + b.drop_last());
            assert((a + b).last() == b.last());
        }
    }

    /// Releasing one more address after `addrs`.
    pub proof fn lemma_release_push(&self, s: Seq<PageState>, addrs: Seq<u64>, addr: u64)
        ensures
            self.release_all(s, addrs.push(addr)) == (match self.release_all(s, addrs) {
                (p, Some(e)) => (p, Some(e)),
                (p, None) => match self.release(p, addr) {
                    Ok(q) => (q, None),
                    Err(e) => (p, Some(e)),
                },
            }),
    {
        assert(addrs.push(addr).drop_last() =~= addrs);
    }
}

/// Releases depend on the page region alone, not on the metadata the
/// allocator holds at the time.
pub proof fn lemma_release_all_same(
    a: &FrameAllocator,
    b: &FrameAllocator,
    s: Seq<PageState>,
    addrs: Seq<u64>,
)
    requires
        a.base() == b.base(),
        a.meta().len() == b.meta().len(),
    ensures
        a.release_all(s, addrs) == b.release_all(s, addrs),
    decreases addrs.len(),
{
    if addrs.len() > 0 {
        lemma_release_all_same(a, b, s, addrs.drop_last());
    }
}

/// Where a walk along taken pages from `i` stops: at the first page flagged
/// last, or at the final page.
pub open spec fn run_stop(s: Seq<PageState>, i: int) -> int
    decreases s.len() - i,
{
    if i + 1 >= s.len() || s[i].last {
        i
    } else {
        run_stop(s, i + 1)
    }
}

/// The runs of the metadata from page `i` on, as (first page, final page):
/// each starts at a taken page and ends where a walk from it stops.
pub open spec fn runs_from(s: Seq<PageState>, i: int) -> Seq<(int, int)>
    decreases s.len() - i,
{
    if i < 0 || i >= s.len() {
        seq![]
    } else if !s[i].taken {
        runs_from(s, i + 1)
    } else {
        let j = run_stop(s, i);
        if j < i || j >= s.len() {
            seq![]
        } else {
            seq![(i, j)] + runs_from(s, j + 1)
        }
    }
}

proof fn lemma_run_stop_bounds(s: Seq<PageState>, i: int)
    requires
        0 <= i < s.len(),
    ensures
        i <= run_stop(s, i) < s.len(),
    decreases s.len() - i,
{
    if !(i + 1 >= s.len() || s[i].last) {
        lemma_run_stop_bounds(s, i + 1);
    }
}

/// One run of taken pages: the address of its first byte, the address of its
/// last byte, and its length in pages.
#[derive(PartialEq, Eq, Structural, Clone, Copy, Debug)]
pub struct PageRun {
    pub first: u64,
    pub last: u64,
    pub pages: usize,
}

impl FrameAllocator {
    /// The runs of taken pages, lowest first, for a listing of the page table.
    pub fn allocations(&self) -> (r: Vec<PageRun>)
        requires
            self.wf(),
        ensures
            r@.len() == runs_from(self.meta(), 0).len(),
            forall|k: int|
                0 <= k < r@.len() ==> {
                    let (i, j) = #[trigger] runs_from(self.meta(), 0)[k];
                    &&& r@[k].first == self.page_addr(i)
                    &&& r@[k].last == self.page_addr(j) + PAGE_SIZE - 1
                    &&& r@[k].pages == j - i + 1
                },
    {
        let ghost s = self.meta();
        let n = self.pages.len();
        let mut out: Vec<PageRun> = Vec::new();
        let ghost runs: Seq<(int, int)> = seq![];
        let mut i: usize = 0;
        while i < n
            invariant
                n == s.len(),
                s == self.meta(),
                self.wf(),
                i <= n,
                runs + runs_from(s, i as int) == runs_from(s, 0),
                out@.len() == runs.len(),
                forall|k: int|
                    0 <= k < out@.len() ==> {
                        let (a, b) = #[trigger] runs[k];
                        &&& 0 <= a <= b < n
                        &&& out@[k].first == self.page_addr(a)
                        &&& out@[k].last == self.page_addr(b) + PAGE_SIZE - 1
                        &&& out@[k].pages == b - a + 1
                    },
            decreases n - i,
        {
            proof {
                self.lemma_meta_index(i as int);
            }
            if self.pages[i].is_taken() {
                let mut j: usize = i;
                while j + 1 < n && !self.pages[j].is_last()
                    invariant
                        n == s.len(),
                        s == self.meta(),
                        i <= j < n,
                        run_stop(s, i as int) == run_stop(s, j as int),
                    decreases n - j,
                {
                    proof {
                        self.lemma_meta_index(j as int);
                    }
                    j = j + 1;
                }
                proof {
                    self.lemma_meta_index(j as int);
                    lemma_run_stop_bounds(s, i as int);
                    assert(run_stop(s, j as int) == j);
                    assert(runs_from(s, i as int) == seq![(i as int, j as int)] + runs_from(s, j + 1));
                    assert(runs.push((i as int, j as int)) + runs_from(s, j + 1) =~= runs + runs_from(s, i as int));
                    runs = runs.push((i as int, j as int));
                    lemma_mul_le(j as int, n as int - 1);
                }
                out.push(
                    PageRun {
                        first: self.alloc_start + PAGE_SIZE * (i as u64),
                        last: self.alloc_start + PAGE_SIZE * (j as u64) + (PAGE_SIZE - 1),
                        pages: j - i + 1,
                    },
                );
                i = j + 1;
            } else {
                i = i + 1;
            }
        }
        proof {
            assert(runs_from(s, n as int) == Seq::<(int, int)>::empty());
            assert(runs =~= runs + runs_from(s, n as int));
        }
        out
    }
}

/// The number of pages that are not taken.
pub open spec fn free_count(s: Seq<PageState>) -> int {
    s.len() - taken_count(s)
}

/// No more pages are taken than there are.
pub proof fn lemma_taken_count_bound(s: Seq<PageState>)
    ensures
        taken_count(s) <= s.len(),
    decreases s.len(),
{
    if s.len() > 0 {
        lemma_taken_count_bound(s.drop_last());
    }
}

/// A free page leaves the taken count below the number of pages.
pub proof fn lemma_free_page_count(s: Seq<PageState>, i: int)
    requires
        run_free(s, i, 1),
    ensures
        taken_count(s) < s.len(),
    decreases s.len(),
{
    if i == s.len() - 1 {
        lemma_taken_count_bound(s.drop_last());
    } else {
        assert(s.drop_last()[i] == s[i]);
        lemma_free_page_count(s.drop_last(), i);
    }
}

/// The value `val` rounded up to a multiple of `2^order`.
pub open spec fn align_up(val: int, order: nat) -> int {
    let p = pow2(order) as int;
    (val + p - 1) / p * p
}

} // verus!

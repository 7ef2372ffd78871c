//! Sv39 translation tables: a root table of 512 entries owned by its caller,
//! and lower-level tables kept in frames of the frame allocator.
use vstd::prelude::*;
use crate::page::{
    free_count, lemma_free_page_count, lemma_taken_count_bound, FrameAllocator, PAGE_SIZE, PAGE_WORDS, PHYS_LIMIT, run_free, taken_count,
    lemma_free_page_exists, FrameError, lemma_release_all_same,
};

verus! {

/// The permissions a caller may ask for; each stands for a fixed combination
/// of leaf bits.
#[derive(PartialEq, Eq, Structural, Clone, Copy, Debug)]
pub enum PageBits {
    UserReadExecute,
    UserReadWrite,
    UserReadWriteExecute,
    ReadExecute,
    ReadWrite,
}

/// The bits of a Sv39 table entry, and the combinations used for leaves.
#[derive(PartialEq, Eq, Structural, Clone, Copy, Debug)]
pub enum PageEntryBits {
    Dirty,
    Access,
    Global,
    User,
    Execute,
    Write,
    Read,
    Valid,
    ReadWrite,
    ReadExecute,
    ReadWriteExecute,
    UserReadWrite,
    UserReadExecute,
    UserReadWriteExecute,
}

impl PageEntryBits {
    pub open spec fn spec_val(self) -> u64 {
        match self {
            PageEntryBits::Dirty => 0x80,
            PageEntryBits::Access => 0x40,
            PageEntryBits::Global => 0x20,
            PageEntryBits::User => 0x10,
            PageEntryBits::Execute => 0x8,
            PageEntryBits::Write => 0x4,
            PageEntryBits::Read => 0x2,
            PageEntryBits::Valid => 0x1,
            PageEntryBits::ReadWrite => 0x6,
            PageEntryBits::ReadExecute => 0xa,
            PageEntryBits::ReadWriteExecute => 0xe,
            PageEntryBits::UserReadWrite => 0x16,
            PageEntryBits::UserReadExecute => 0x1a,
            PageEntryBits::UserReadWriteExecute => 0x1e,
        }
    }

    /// The bit pattern of this entry bit or combination.
    pub fn val(self) -> (r: u64)
        ensures
            r == self.spec_val(),
    {
        match self {
            PageEntryBits::Dirty => 0x80,
            PageEntryBits::Access => 0x40,
            PageEntryBits::Global => 0x20,
            PageEntryBits::User => 0x10,
            PageEntryBits::Execute => 0x8,
            PageEntryBits::Write => 0x4,
            PageEntryBits::Read => 0x2,
            PageEntryBits::Valid => 0x1,
            PageEntryBits::ReadWrite => 0x6,
            PageEntryBits::ReadExecute => 0xa,
            PageEntryBits::ReadWriteExecute => 0xe,
            PageEntryBits::UserReadWrite => 0x16,
            PageEntryBits::UserReadExecute => 0x1a,
            PageEntryBits::UserReadWriteExecute => 0x1e,
        }
    }
}

/// The leaf bits that stand for a requested permission. Every request is
/// granted with the user bit set.
pub open spec fn entry_bits_of(bits: PageBits) -> PageEntryBits {
    match bits {
        PageBits::UserReadWrite | PageBits::ReadWrite => PageEntryBits::UserReadWrite,
        PageBits::UserReadExecute | PageBits::ReadExecute => PageEntryBits::UserReadExecute,
        PageBits::UserReadWriteExecute => PageEntryBits::UserReadWriteExecute,
    }
}

impl From<PageBits> for PageEntryBits {
    fn from(bits: PageBits) -> (r: PageEntryBits) {
        match bits {
            PageBits::UserReadWrite | PageBits::ReadWrite => PageEntryBits::UserReadWrite,
            PageBits::UserReadExecute | PageBits::ReadExecute => PageEntryBits::UserReadExecute,
            PageBits::UserReadWriteExecute => PageEntryBits::UserReadWriteExecute,
        }
    }
}

impl vstd::std_specs::convert::FromSpecImpl<PageBits> for PageEntryBits {
    open spec fn obeys_from_spec() -> bool {
        true
    }

    open spec fn from_spec(bits: PageBits) -> PageEntryBits {
        entry_bits_of(bits)
    }
}

/// The valid bit is set.
pub open spec fn entry_valid(e: u64) -> bool {
    e & 1 != 0
}

/// One of the read, write and execute bits is set: the entry ends a walk.
pub open spec fn entry_leaf(e: u64) -> bool {
    e & 0xe != 0
}

/// The physical address held in an entry's frame-number bits.
pub open spec fn entry_addr(e: u64) -> u64 {
    ((e & !0x3ffu64) << 2u64) as u64
}

/// A valid branch entry that points to the table at page address `t`.
pub open spec fn branch_entry(t: u64) -> u64 {
    ((t >> 2u64) | 1u64) as u64
}

/// The leaf entry that maps to `paddr` with the permission bits `bits`.
pub open spec fn leaf_entry(paddr: u64, bits: u64) -> u64 {
    let ppn0 = (paddr >> 12u64) & 0x1ffu64;
    let ppn1 = (paddr >> 21u64) & 0x1ffu64;
    let ppn2 = (paddr >> 30u64) & 0x3ff_ffffu64;
    ((ppn2 << 28u64) | (ppn1 << 19u64) | (ppn0 << 10u64) | bits | 1u64) as u64
}

/// The index into the table of `level` (2 is the root) for `vaddr`.
pub open spec fn vpn(vaddr: u64, level: int) -> int {
    if level == 0 {
        ((vaddr >> 12u64) & 0x1ffu64) as int
    } else if level == 1 {
        ((vaddr >> 21u64) & 0x1ffu64) as int
    } else {
        ((vaddr >> 30u64) & 0x1ffu64) as int
    }
}

/// The offset bits that a leaf at `level` passes through from the virtual
/// address: 12 bits for a page, 21 and 30 for the larger leaves.
pub open spec fn offset_mask(level: int) -> u64 {
    if level == 0 {
        0xfff
    } else if level == 1 {
        0x1f_ffff
    } else {
        0x3fff_ffff
    }
}

/// The physical address that the leaf `e` at `level` gives for `vaddr`.
pub open spec fn leaf_target(e: u64, vaddr: u64, level: int) -> u64 {
    ((((e << 2u64) as u64) & !offset_mask(level)) | (vaddr & offset_mask(level))) as u64
}

/// A table entry.
#[derive(Clone, Copy, Debug)]
pub struct PageEntry {
    pub entry: u64,
}

impl PageEntry {
    /// Whether the entry is valid.
    pub fn is_valid(&self) -> (r: bool)
        ensures
            r == entry_valid(self.entry),
    {
        self.get_entry() & PageEntryBits::Valid.val() != 0
    }

    /// Whether the entry is invalid.
    pub fn is_invalid(&self) -> (r: bool)
        ensures
            r == !entry_valid(self.entry),
    {
        !self.is_valid()
    }

    /// Whether the entry is a leaf: one or more of its RWX bits is set.
    pub fn is_leaf(&self) -> (r: bool)
        ensures
            r == entry_leaf(self.entry),
    {
        self.get_entry() & 0xe != 0
    }

    /// Whether the entry is a branch, not a leaf.
    pub fn is_branch(&self) -> (r: bool)
        ensures
            r == !entry_leaf(self.entry),
    {
        !self.is_leaf()
    }

    /// Sets the entry.
    pub fn set_entry(&mut self, entry: u64)
        ensures
            final(self).entry == entry,
    {
        self.entry = entry;
    }

    /// Gets the entry.
    pub fn get_entry(&self) -> (r: u64)
        ensures
            r == self.entry,
    {
        self.entry
    }
}

/// The number of entries in a table.
pub const TABLE_ENTRIES: usize = 512;

/// A root translation table.
pub struct Table {
    pub entries: Vec<PageEntry>,
}

impl View for Table {
    type V = Seq<u64>;

    open spec fn view(&self) -> Seq<u64> {
        self.entries@.map_values(|e: PageEntry| e.entry)
    }
}

impl Table {
    pub open spec fn wf(&self) -> bool {
        self.entries@.len() == TABLE_ENTRIES
    }

    /// A table whose entries are all zero, and so invalid.
    pub fn new() -> (r: Table)
        ensures
            r.wf(),
            forall|i: int| 0 <= i < TABLE_ENTRIES ==> #[trigger] r@[i] == 0,
    {
        let mut entries: Vec<PageEntry> = Vec::new();
        let mut i: usize = 0;
        while i < TABLE_ENTRIES
            invariant
                i <= TABLE_ENTRIES,
                entries@.len() == i,
                forall|k: int| 0 <= k < i ==> (#[trigger] entries@[k]).entry == 0,
            decreases TABLE_ENTRIES - i,
        {
            entries.push(PageEntry { entry: 0 });
            i = i + 1;
        }
        Table { entries }
    }

    /// The number of entries.
    pub fn len(&self) -> (r: usize)
        ensures
            r == self.entries@.len(),
    {
        self.entries.len()
    }

    /// Whether the table has no entries.
    pub fn is_empty(&self) -> (r: bool)
        ensures
            r == (self.entries@.len() == 0),
    {
        self.entries.len() == 0
    }
}

/// The entry at index `idx` of the table in the frame at `t`.
pub open spec fn table_word(mem: &FrameAllocator, t: u64, idx: int) -> u64 {
    mem.words()[mem.word_of(t) + idx]
}

/// `e` is a valid branch to a table frame inside the page region.
pub open spec fn is_table(mem: &FrameAllocator, e: u64) -> bool {
    entry_valid(e) && !entry_leaf(e) && mem.in_region(entry_addr(e))
}

/// A valid entry that is not a leaf: a branch to a lower table.
pub open spec fn is_branch(e: u64) -> bool {
    entry_valid(e) && !entry_leaf(e)
}

/// The root entry on the walk for `vaddr`.
pub open spec fn top_entry(root: Seq<u64>, vaddr: u64) -> u64 {
    root[vpn(vaddr, 2)]
}

/// The level-1 entry on the walk for `vaddr`, in the table the root entry
/// points to.
pub open spec fn mid_entry(root: Seq<u64>, mem: &FrameAllocator, vaddr: u64) -> u64 {
    table_word(mem, entry_addr(top_entry(root, vaddr)), vpn(vaddr, 1))
}

/// The level-0 entry on the walk for `vaddr`, in the table the level-1 entry
/// points to.
pub open spec fn low_entry(root: Seq<u64>, mem: &FrameAllocator, vaddr: u64) -> u64 {
    table_word(mem, entry_addr(mid_entry(root, mem, vaddr)), vpn(vaddr, 0))
}

/// The entry that a walk for `vaddr` reads at `level`, following branches from
/// the root; `None` where an entry above is not a branch to a table.
pub open spec fn walk(root: Seq<u64>, mem: &FrameAllocator, vaddr: u64, level: int) -> Option<u64> {
    if level >= 2 {
        Some(top_entry(root, vaddr))
    } else if !is_table(mem, top_entry(root, vaddr)) {
        None
    } else if level == 1 {
        Some(mid_entry(root, mem, vaddr))
    } else if !is_table(mem, mid_entry(root, mem, vaddr)) {
        None
    } else {
        Some(low_entry(root, mem, vaddr))
    }
}

/// The physical address that `vaddr` translates to: the first valid leaf on
/// the walk gives it, with the offset bits of its level; an invalid entry, a
/// branch out of the page region, or a branch at the lowest level gives none.
pub open spec fn translate(root: Seq<u64>, mem: &FrameAllocator, vaddr: u64) -> Option<u64> {
    let t = top_entry(root, vaddr);
    let m = mid_entry(root, mem, vaddr);
    let l = low_entry(root, mem, vaddr);
    if !entry_valid(t) {
        None
    } else if entry_leaf(t) {
        Some(leaf_target(t, vaddr, 2))
    } else if !mem.in_region(entry_addr(t)) {
        None
    } else if !entry_valid(m) {
        None
    } else if entry_leaf(m) {
        Some(leaf_target(m, vaddr, 1))
    } else if !mem.in_region(entry_addr(m)) {
        None
    } else if entry_valid(l) && entry_leaf(l) {
        Some(leaf_target(l, vaddr, 0))
    } else {
        None
    }
}

/// A page-aligned address inside the page region starts a whole frame: its
/// 512 words lie inside the region, one after another.
proof fn lemma_slot(mem: &FrameAllocator, t: u64, idx: int)
    requires
        mem.wf(),
        mem.in_region(t),
        t % PAGE_SIZE == 0,
        0 <= idx < TABLE_ENTRIES,
    ensures
        mem.in_region((t + 8 * idx) as u64),
        (t + 8 * idx) % 8 == 0,
        t + 8 * idx <= u64::MAX,
        mem.word_of((t + 8 * idx) as u64) == mem.word_of(t) + idx,
        mem.word_of(t) % (PAGE_WORDS as int) == 0,
        0 <= mem.word_of(t),
        mem.word_of(t) + PAGE_WORDS <= mem.words().len(),
        mem.word_of(t) / (PAGE_WORDS as int) == mem.page_of(t),
{
    let b = mem.base() as int;
    let d = t - b;
    let n = mem.meta().len() as int;
    assert(d % 4096 == 0);
    let a = d / 4096;
    assert(d == 4096 * a);
    assert(0 <= a);
    assert(a < n) by (nonlinear_arith)
        requires
            d == 4096 * a,
            d < n * 4096,
    ;
    assert(d + 4096 <= n * 4096) by (nonlinear_arith)
        requires
            a < n,
            d == 4096 * a,
    ;
    assert(mem.word_of(t) == 512 * a);
    assert(mem.page_of(t) == a);
    assert(mem.words().len() == n * 512);
    assert(512 * a + 512 <= n * 512) by (nonlinear_arith)
        requires
            a < n,
    ;
}

/// The entry address of any entry is page aligned.
proof fn lemma_entry_addr_aligned(e: u64)
    ensures
        entry_addr(e) % PAGE_SIZE == 0,
{
    assert(((e & !0x3ffu64) << 2u64) % 4096 == 0) by (bit_vector);
}

/// A branch entry built from a page-aligned address below the physical limit
/// is a valid branch, and points back to that address.
proof fn lemma_branch_entry(t: u64)
    requires
        t % PAGE_SIZE == 0,
        t < PHYS_LIMIT,
    ensures
        entry_valid(branch_entry(t)),
        !entry_leaf(branch_entry(t)),
        entry_addr(branch_entry(t)) == t,
{
    assert(((t >> 2u64) | 1u64) & 1 != 0) by (bit_vector);
    assert(((t >> 2u64) | 1u64) & 0xe == 0) by (bit_vector)
        requires
            t % 4096 == 0,
    ;
    assert(((((t >> 2u64) | 1u64) & !0x3ffu64) << 2u64) == t) by (bit_vector)
        requires
            t % 4096 == 0,
            t < 0x100_0000_0000_0000u64,
    ;
}

/// The table index of `vaddr` at `level`.
fn vpn_of(vaddr: u64, level: usize) -> (r: usize)
    requires
        level <= 2,
    ensures
        r == vpn(vaddr, level as int),
        r < TABLE_ENTRIES,
{
    proof {
        lemma_vpn_bounds(vaddr);
    }
    if level == 0 {
        ((vaddr >> 12) & 0x1ff) as usize
    } else if level == 1 {
        ((vaddr >> 21) & 0x1ff) as usize
    } else {
        ((vaddr >> 30) & 0x1ff) as usize
    }
}

/// Reads entry `idx` of the table in the frame at `t`.
fn read_slot(mem: &FrameAllocator, t: u64, idx: usize) -> (r: u64)
    requires
        mem.wf(),
        mem.in_region(t),
        t % PAGE_SIZE == 0,
        idx < TABLE_ENTRIES,
    ensures
        r == table_word(mem, t, idx as int),
{
    proof {
        lemma_slot(mem, t, idx as int);
    }
    match mem.read_word(t + 8 * idx as u64) {
        Some(v) => v,
        None => 0,
    }
}

/// The physical address that `vaddr` maps to under `root`, walking down from
/// the root; a leaf at any level ends the walk, passing through the offset
/// bits of its level. `None` when the walk meets an invalid entry, a branch
/// that leaves the page region, or a branch at the lowest level.
pub fn virt_to_phys(root: &Table, mem: &FrameAllocator, vaddr: u64) -> (r: Option<u64>)
    requires
        root.wf(),
        mem.wf(),
    ensures
        r == translate(root@, mem, vaddr),
{
    let t = PageEntry { entry: root.entries[vpn_of(vaddr, 2)].get_entry() };
    if t.is_invalid() {
        return None;
    }
    if t.is_leaf() {
        return Some(((t.entry << 2) & !0x3fff_ffff) | (vaddr & 0x3fff_ffff));
    }
    let t1 = entry_addr_of(t.entry);
    if !mem_contains(mem, t1) {
        return None;
    }
    proof {
        lemma_entry_addr_aligned(t.entry);
    }
    let m = PageEntry { entry: read_slot(mem, t1, vpn_of(vaddr, 1)) };
    if m.is_invalid() {
        return None;
    }
    if m.is_leaf() {
        return Some(((m.entry << 2) & !0x1f_ffff) | (vaddr & 0x1f_ffff));
    }
    let t0 = entry_addr_of(m.entry);
    if !mem_contains(mem, t0) {
        return None;
    }
    proof {
        lemma_entry_addr_aligned(m.entry);
    }
    let l = PageEntry { entry: read_slot(mem, t0, vpn_of(vaddr, 0)) };
    if l.is_valid() && l.is_leaf() {
        Some(((l.entry << 2) & !0xfff) | (vaddr & 0xfff))
    } else {
        None
    }
}

/// The physical address held in the entry `e`.
fn entry_addr_of(e: u64) -> (r: u64)
    ensures
        r == entry_addr(e),
{
    (e & !0x3ff) << 2
}

/// `addr` lies inside the page region of `mem`.
fn mem_contains(mem: &FrameAllocator, addr: u64) -> (r: bool)
    requires
        mem.wf(),
    ensures
        r == mem.in_region(addr),
{
    let first = mem.first_page_addr();
    addr >= first && (addr - first) / PAGE_SIZE < mem.num_pages() as u64
}

/// The frame at `t` is a taken page of the region.
pub open spec fn frame_ok(mem: &FrameAllocator, t: u64) -> bool {
    mem.in_region(t) && mem.meta()[mem.page_of(t)].taken
}

/// Root entry `i` is a branch.
pub open spec fn has1(root: Seq<u64>, i: int) -> bool {
    0 <= i < TABLE_ENTRIES && is_branch(root[i])
}

/// Entry `k` of the table that root entry `i` points to.
pub open spec fn l1_entry(root: Seq<u64>, mem: &FrameAllocator, i: int, k: int) -> u64 {
    table_word(mem, entry_addr(root[i]), k)
}

/// Root entry `i` is a branch, and so is entry `k` of its table.
pub open spec fn has0(root: Seq<u64>, mem: &FrameAllocator, i: int, k: int) -> bool {
    has1(root, i) && 0 <= k < TABLE_ENTRIES && is_branch(l1_entry(root, mem, i, k))
}

/// The tables form a tree of taken frames: every branch of the root and of
/// its tables points to a taken frame of the region, and no two branches
/// point to the same frame.
pub open spec fn tables_ok(root: Seq<u64>, mem: &FrameAllocator) -> bool {
    &&& root.len() == TABLE_ENTRIES
    &&& forall|i: int| #[trigger] has1(root, i) ==> frame_ok(mem, entry_addr(root[i]))
    &&& forall|i: int, k: int|
        #[trigger] has0(root, mem, i, k) ==> frame_ok(mem, entry_addr(l1_entry(root, mem, i, k)))
    &&& forall|i: int, j: int|
        #[trigger] has1(root, i) && #[trigger] has1(root, j) && entry_addr(root[i])
            == entry_addr(root[j]) ==> i == j
    &&& forall|i: int, k: int, j: int, l: int|
        #[trigger] has0(root, mem, i, k) && #[trigger] has0(root, mem, j, l) && entry_addr(
            l1_entry(root, mem, i, k),
        ) == entry_addr(l1_entry(root, mem, j, l)) ==> i == j && k == l
    &&& forall|i: int, j: int, l: int|
        #[trigger] has1(root, i) && #[trigger] has0(root, mem, j, l) ==> entry_addr(root[i])
            != entry_addr(l1_entry(root, mem, j, l))
}

/// The zero entry is invalid.
pub proof fn lemma_zero_invalid()
    ensures
        !entry_valid(0u64),
{
    assert(0u64 & 1 == 0) by (bit_vector);
}

/// A table with no valid entry heads a tree of tables.
pub proof fn lemma_empty_tables_ok(root: Seq<u64>, mem: &FrameAllocator)
    requires
        root.len() == TABLE_ENTRIES,
        forall|i: int| 0 <= i < TABLE_ENTRIES ==> #[trigger] root[i] == 0,
    ensures
        tables_ok(root, mem),
{
    lemma_zero_invalid();
    assert forall|i: int| !#[trigger] has1(root, i) by {}
}

/// Two states of the memory whose page region is the same.
pub open spec fn same_region(m0: &FrameAllocator, m1: &FrameAllocator) -> bool {
    &&& m0.wf()
    &&& m1.wf()
    &&& m1.base() == m0.base()
    &&& m1.meta().len() == m0.meta().len()
    &&& forall|j: int| 0 <= j < m0.meta().len() && (#[trigger] m0.meta()[j]).taken ==> m1.meta()[j].taken
}

/// `m1` is `m0` after the free frame at `f` was taken and zeroed.
pub open spec fn zeroed_frame(m0: &FrameAllocator, m1: &FrameAllocator, f: u64) -> bool {
    &&& same_region(m0, m1)
    &&& m0.in_region(f)
    &&& f % PAGE_SIZE == 0
    &&& !m0.meta()[m0.page_of(f)].taken
    &&& m1.meta()[m0.page_of(f)].taken
    &&& m1.words().len() == m0.words().len()
    &&& forall|w: int|
        0 <= w < m0.words().len() ==> #[trigger] m1.words()[w] == if m0.page_of(f) * PAGE_WORDS
            <= w < (m0.page_of(f) + 1) * PAGE_WORDS {
            0
        } else {
            m0.words()[w]
        }
}

/// Zeroing a free frame keeps the words of every taken frame and makes the
/// new frame all zero.
proof fn lemma_zeroed_words(m0: &FrameAllocator, m1: &FrameAllocator, f: u64, t: u64, k: int)
    requires
        zeroed_frame(m0, m1, f),
        m0.in_region(t),
        t % PAGE_SIZE == 0,
        0 <= k < TABLE_ENTRIES,
    ensures
        t != f && m0.meta()[m0.page_of(t)].taken ==> table_word(m1, t, k) == table_word(m0, t, k),
        table_word(m1, f, k) == 0,
        m0.meta()[m0.page_of(t)].taken ==> t != f,
{
    lemma_slot(m0, t, k);
    lemma_slot(m0, f, k);
    lemma_slot(m1, t, k);
    lemma_slot(m1, f, k);
}

/// Installing, in an invalid root entry, a branch to a freshly zeroed frame
/// keeps the tree of tables and every translation.
proof fn lemma_fresh_top(
    r0: Seq<u64>,
    m0: &FrameAllocator,
    m1: &FrameAllocator,
    f: u64,
    i2: int,
)
    requires
        tables_ok(r0, m0),
        zeroed_frame(m0, m1, f),
        0 <= i2 < TABLE_ENTRIES,
        !entry_valid(r0[i2]),
        f < PHYS_LIMIT,
    ensures
        tables_ok(r0.update(i2, branch_entry(f)), m1),
        forall|u: u64| #[trigger] translate(r0.update(i2, branch_entry(f)), m1, u) == translate(r0, m0, u),
        forall|k: int| 0 <= k < TABLE_ENTRIES ==> #[trigger] l1_entry(r0.update(i2, branch_entry(f)), m1, i2, k) == 0,
        forall|u: u64| !leaf_above(r0, m0, u, 0) ==> !#[trigger] leaf_above(r0.update(i2, branch_entry(f)), m1, u, 0),
{
    let r1 = r0.update(i2, branch_entry(f));
    lemma_branch_entry(f);
    lemma_zero_invalid();
    assert forall|i: int| #[trigger] has1(r1, i) && i != i2 implies has1(r0, i) && r1[i] == r0[i] && frame_ok(m0, entry_addr(r0[i])) by {}
    assert forall|i: int, k: int| 0 <= i < TABLE_ENTRIES && i != i2 && 0 <= k < TABLE_ENTRIES && has1(r0, i)
        implies #[trigger] l1_entry(r1, m1, i, k) == l1_entry(r0, m0, i, k) by {
        lemma_entry_addr_aligned(r0[i]);
        lemma_zeroed_words(m0, m1, f, entry_addr(r0[i]), k);
    }
    assert forall|k: int| 0 <= k < TABLE_ENTRIES implies #[trigger] l1_entry(r1, m1, i2, k) == 0 by {
        lemma_zeroed_words(m0, m1, f, f, k);
    }
    assert forall|i: int, k: int| #[trigger] has0(r1, m1, i, k) implies i != i2 && has0(r0, m0, i, k)
        && l1_entry(r1, m1, i, k) == l1_entry(r0, m0, i, k) by {
        if i == i2 {
            assert(l1_entry(r1, m1, i2, k) == 0);
        }
    }
    assert forall|i: int| #[trigger] has1(r1, i) implies frame_ok(m1, entry_addr(r1[i])) by {
        if i != i2 {
            assert(frame_ok(m0, entry_addr(r0[i])));
        }
    }
    assert forall|i: int, k: int| #[trigger] has0(r1, m1, i, k) implies frame_ok(
        m1,
        entry_addr(l1_entry(r1, m1, i, k)),
    ) by {
        assert(frame_ok(m0, entry_addr(l1_entry(r0, m0, i, k))));
    }
    assert forall|i: int, j: int|
        #[trigger] has1(r1, i) && #[trigger] has1(r1, j) && entry_addr(r1[i]) == entry_addr(
            r1[j],
        ) implies i == j by {
        if i != i2 && j != i2 {
            assert(has1(r0, i) && has1(r0, j));
        } else if i != i2 {
            assert(frame_ok(m0, entry_addr(r0[i])));
        } else if j != i2 {
            assert(frame_ok(m0, entry_addr(r0[j])));
        }
    }
    assert forall|i: int, k: int, j: int, l: int|
        #[trigger] has0(r1, m1, i, k) && #[trigger] has0(r1, m1, j, l) && entry_addr(
            l1_entry(r1, m1, i, k),
        ) == entry_addr(l1_entry(r1, m1, j, l)) implies i == j && k == l by {
        assert(has0(r0, m0, i, k) && has0(r0, m0, j, l));
    }
    assert forall|i: int, j: int, l: int|
        #[trigger] has1(r1, i) && #[trigger] has0(r1, m1, j, l) implies entry_addr(r1[i])
            != entry_addr(l1_entry(r1, m1, j, l)) by {
        assert(has0(r0, m0, j, l));
        assert(frame_ok(m0, entry_addr(l1_entry(r0, m0, j, l))));
        if i != i2 {
            assert(has1(r0, i));
        }
    }
    assert forall|u: u64| !leaf_above(r0, m0, u, 0) implies !#[trigger] leaf_above(r1, m1, u, 0) by {
        lemma_vpn_bounds(u);
        let i = vpn(u, 2);
        if i == i2 {
            assert(mid_entry(r1, m1, u) == l1_entry(r1, m1, i2, vpn(u, 1)));
        } else if has1(r0, i) {
            assert(l1_entry(r1, m1, i, vpn(u, 1)) == l1_entry(r0, m0, i, vpn(u, 1)));
            assert(mid_entry(r1, m1, u) == mid_entry(r0, m0, u));
        }
    }
    assert forall|u: u64| #[trigger] translate(r1, m1, u) == translate(r0, m0, u) by {
        let i = vpn(u, 2);
        lemma_vpn_bounds(u);
        if i == i2 {
            assert(mid_entry(r1, m1, u) == l1_entry(r1, m1, i2, vpn(u, 1)));
        } else if has1(r0, i) {
            assert(l1_entry(r1, m1, i, vpn(u, 1)) == l1_entry(r0, m0, i, vpn(u, 1)));
            assert(mid_entry(r1, m1, u) == mid_entry(r0, m0, u));
            assert(mid_entry(r1, m1, u) == mid_entry(r0, m0, u));
            if has0(r0, m0, i, vpn(u, 1)) {
                let t0 = entry_addr(mid_entry(r0, m0, u));
                assert(frame_ok(m0, t0));
                lemma_entry_addr_aligned(mid_entry(r0, m0, u));
                lemma_zeroed_words(m0, m1, f, t0, vpn(u, 0));
            }
        }
    }
}

/// `m1` is `m0` with entry `idx` of the table at `t` set to `value`.
pub open spec fn wrote_slot(m0: &FrameAllocator, m1: &FrameAllocator, t: u64, idx: int, value: u64) -> bool {
    &&& m0.wf()
    &&& m1.wf()
    &&& m1.base() == m0.base()
    &&& m1.meta() == m0.meta()
    &&& m0.in_region(t)
    &&& t % PAGE_SIZE == 0
    &&& 0 <= idx < TABLE_ENTRIES
    &&& m1.words() == m0.words().update(m0.word_of(t) + idx, value)
}

/// A store into one table entry changes that entry alone.
proof fn lemma_wrote_words(
    m0: &FrameAllocator,
    m1: &FrameAllocator,
    t: u64,
    idx: int,
    value: u64,
    t2: u64,
    k: int,
)
    requires
        wrote_slot(m0, m1, t, idx, value),
        m0.in_region(t2),
        t2 % PAGE_SIZE == 0,
        0 <= k < TABLE_ENTRIES,
    ensures
        table_word(m1, t2, k) == if t2 == t && k == idx {
            value
        } else {
            table_word(m0, t2, k)
        },
{
    lemma_slot(m0, t, idx);
    lemma_slot(m0, t2, k);
}

/// Installing, in an invalid entry of a table the root points to, a branch to
/// a freshly zeroed frame keeps the tree of tables and every translation.
proof fn lemma_fresh_mid(
    r: Seq<u64>,
    ma: &FrameAllocator,
    mz: &FrameAllocator,
    mb: &FrameAllocator,
    f: u64,
    i2: int,
    i1: int,
)
    requires
        tables_ok(r, ma),
        has1(r, i2),
        0 <= i1 < TABLE_ENTRIES,
        !entry_valid(l1_entry(r, ma, i2, i1)),
        zeroed_frame(ma, mz, f),
        f < PHYS_LIMIT,
        wrote_slot(mz, mb, entry_addr(r[i2]), i1, branch_entry(f)),
    ensures
        tables_ok(r, mb),
        forall|u: u64| #[trigger] translate(r, mb, u) == translate(r, ma, u),
        l1_entry(r, mb, i2, i1) == branch_entry(f),
        forall|k: int| 0 <= k < TABLE_ENTRIES ==> #[trigger] table_word(mb, f, k) == 0,
        forall|u: u64| !leaf_above(r, ma, u, 0) ==> !#[trigger] leaf_above(r, mb, u, 0),
{
    let t1 = entry_addr(r[i2]);
    lemma_branch_entry(f);
    lemma_zero_invalid();
    assert(frame_ok(ma, t1));
    lemma_entry_addr_aligned(r[i2]);
    assert forall|t: u64, k: int|
        frame_ok(ma, t) && t % PAGE_SIZE == 0 && 0 <= k < TABLE_ENTRIES && !(t == t1 && k == i1)
        implies #[trigger] table_word(mb, t, k) == table_word(ma, t, k) by {
        lemma_zeroed_words(ma, mz, f, t, k);
        lemma_wrote_words(mz, mb, t1, i1, branch_entry(f), t, k);
    }
    assert forall|k: int| 0 <= k < TABLE_ENTRIES implies #[trigger] table_word(mb, f, k) == 0 by {
        lemma_zeroed_words(ma, mz, f, f, k);
        lemma_zeroed_words(ma, mz, f, t1, k);
        lemma_wrote_words(mz, mb, t1, i1, branch_entry(f), f, k);
    }
    lemma_wrote_words(mz, mb, t1, i1, branch_entry(f), t1, i1);
    assert forall|i: int, k: int| has1(r, i) && 0 <= k < TABLE_ENTRIES && !(i == i2 && k == i1)
        implies #[trigger] l1_entry(r, mb, i, k) == l1_entry(r, ma, i, k) by {
        lemma_entry_addr_aligned(r[i]);
        if entry_addr(r[i]) == t1 {
            assert(i == i2);
        }
    }
    assert forall|i: int, k: int| #[trigger] has0(r, mb, i, k) implies (i == i2 && k == i1) || (has0(
        r,
        ma,
        i,
        k,
    ) && l1_entry(r, mb, i, k) == l1_entry(r, ma, i, k)) by {}
    assert(frame_ok(mb, f));
    assert forall|i: int| #[trigger] has1(r, i) implies frame_ok(mb, entry_addr(r[i])) by {
        assert(frame_ok(ma, entry_addr(r[i])));
    }
    assert forall|i: int, k: int| #[trigger] has0(r, mb, i, k) implies frame_ok(
        mb,
        entry_addr(l1_entry(r, mb, i, k)),
    ) by {
        if !(i == i2 && k == i1) {
            assert(frame_ok(ma, entry_addr(l1_entry(r, ma, i, k))));
        }
    }
    assert forall|i: int, k: int, j: int, l: int|
        #[trigger] has0(r, mb, i, k) && #[trigger] has0(r, mb, j, l) && entry_addr(
            l1_entry(r, mb, i, k),
        ) == entry_addr(l1_entry(r, mb, j, l)) implies i == j && k == l by {
        if !(i == i2 && k == i1) {
            assert(frame_ok(ma, entry_addr(l1_entry(r, ma, i, k))));
        }
        if !(j == i2 && l == i1) {
            assert(frame_ok(ma, entry_addr(l1_entry(r, ma, j, l))));
        }
    }
    assert forall|i: int, j: int, l: int|
        #[trigger] has1(r, i) && #[trigger] has0(r, mb, j, l) implies entry_addr(r[i])
            != entry_addr(l1_entry(r, mb, j, l)) by {
        assert(frame_ok(ma, entry_addr(r[i])));
        if !(j == i2 && l == i1) {
            assert(has0(r, ma, j, l));
        }
    }
    assert forall|u: u64| !leaf_above(r, ma, u, 0) implies !#[trigger] leaf_above(r, mb, u, 0) by {
        lemma_vpn_bounds(u);
        let i = vpn(u, 2);
        let k = vpn(u, 1);
        if has1(r, i) && !(i == i2 && k == i1) {
            assert(l1_entry(r, mb, i, k) == l1_entry(r, ma, i, k));
        }
    }
    assert forall|u: u64| #[trigger] translate(r, mb, u) == translate(r, ma, u) by {
        let i = vpn(u, 2);
        let k = vpn(u, 1);
        lemma_vpn_bounds(u);
        if has1(r, i) {
            if i == i2 && k == i1 {
                assert(low_entry(r, mb, u) == table_word(mb, f, vpn(u, 0)));
            } else {
                assert(l1_entry(r, mb, i, k) == l1_entry(r, ma, i, k));
                assert(mid_entry(r, mb, u) == mid_entry(r, ma, u));
                if has0(r, ma, i, k) {
                    let t0 = entry_addr(mid_entry(r, ma, u));
                    assert(frame_ok(ma, t0));
                    lemma_entry_addr_aligned(mid_entry(r, ma, u));
                    assert(t0 != t1);
                    assert(table_word(mb, t0, vpn(u, 0)) == table_word(ma, t0, vpn(u, 0)));
                }
            }
        }
    }
}

/// `u` lies in the region a leaf for `vaddr` at `level` maps: their table
/// indices agree from the root down to `level`.
pub open spec fn covers(vaddr: u64, level: int, u: u64) -> bool {
    &&& vpn(u, 2) == vpn(vaddr, 2)
    &&& level <= 1 ==> vpn(u, 1) == vpn(vaddr, 1)
    &&& level <= 0 ==> vpn(u, 0) == vpn(vaddr, 0)
}

pub proof fn lemma_vpn_bounds(u: u64)
    ensures
        0 <= vpn(u, 0) < TABLE_ENTRIES,
        0 <= vpn(u, 1) < TABLE_ENTRIES,
        0 <= vpn(u, 2) < TABLE_ENTRIES,
{
    assert((u >> 12u64) & 0x1ffu64 < 512) by (bit_vector);
    assert((u >> 21u64) & 0x1ffu64 < 512) by (bit_vector);
    assert((u >> 30u64) & 0x1ffu64 < 512) by (bit_vector);
}

/// Storing a value in the level-0 table of a walk keeps the tree of tables,
/// and the translation of every address outside that entry's page.
proof fn lemma_store_low(
    r: Seq<u64>,
    m0: &FrameAllocator,
    m1: &FrameAllocator,
    vaddr: u64,
    value: u64,
)
    requires
        tables_ok(r, m0),
        has0(r, m0, vpn(vaddr, 2), vpn(vaddr, 1)),
        wrote_slot(m0, m1, entry_addr(mid_entry(r, m0, vaddr)), vpn(vaddr, 0), value),
    ensures
        tables_ok(r, m1),
        forall|u: u64| !covers(vaddr, 0, u) ==> #[trigger] translate(r, m1, u) == translate(r, m0, u),
        walk(r, m1, vaddr, 0) == Some(value),
        forall|u: u64| !leaf_above(r, m0, u, 0) ==> !#[trigger] leaf_above(r, m1, u, 0),
{
    let i2 = vpn(vaddr, 2);
    let i1 = vpn(vaddr, 1);
    let t0 = entry_addr(mid_entry(r, m0, vaddr));
    lemma_vpn_bounds(vaddr);
    assert(frame_ok(m0, t0));
    assert forall|i: int, k: int| has1(r, i) && 0 <= k < TABLE_ENTRIES
        implies #[trigger] l1_entry(r, m1, i, k) == l1_entry(r, m0, i, k) by {
        lemma_entry_addr_aligned(r[i]);
        assert(frame_ok(m0, entry_addr(r[i])));
        assert(entry_addr(r[i]) != t0);
        lemma_wrote_words(m0, m1, t0, vpn(vaddr, 0), value, entry_addr(r[i]), k);
    }
    assert forall|i: int, k: int| #[trigger] has0(r, m1, i, k) <==> has0(r, m0, i, k) by {
        if has1(r, i) && 0 <= k < TABLE_ENTRIES {
            assert(l1_entry(r, m1, i, k) == l1_entry(r, m0, i, k));
        }
    }
    assert forall|i: int, k: int| #[trigger] has0(r, m1, i, k) implies frame_ok(
        m1,
        entry_addr(l1_entry(r, m1, i, k)),
    ) by {
        assert(frame_ok(m0, entry_addr(l1_entry(r, m0, i, k))));
    }
    assert forall|i: int| #[trigger] has1(r, i) implies frame_ok(m1, entry_addr(r[i])) by {
        assert(frame_ok(m0, entry_addr(r[i])));
    }
    assert forall|i: int, k: int, j: int, l: int|
        #[trigger] has0(r, m1, i, k) && #[trigger] has0(r, m1, j, l) && entry_addr(
            l1_entry(r, m1, i, k),
        ) == entry_addr(l1_entry(r, m1, j, l)) implies i == j && k == l by {
        assert(has0(r, m0, i, k) && has0(r, m0, j, l));
    }
    assert forall|i: int, j: int, l: int|
        #[trigger] has1(r, i) && #[trigger] has0(r, m1, j, l) implies entry_addr(r[i])
            != entry_addr(l1_entry(r, m1, j, l)) by {
        assert(has0(r, m0, j, l));
    }
    assert(l1_entry(r, m1, i2, i1) == l1_entry(r, m0, i2, i1));
    lemma_entry_addr_aligned(mid_entry(r, m0, vaddr));
    lemma_wrote_words(m0, m1, t0, vpn(vaddr, 0), value, t0, vpn(vaddr, 0));
    assert forall|u: u64| !leaf_above(r, m0, u, 0) implies !#[trigger] leaf_above(r, m1, u, 0) by {
        lemma_vpn_bounds(u);
        if has1(r, vpn(u, 2)) {
            assert(l1_entry(r, m1, vpn(u, 2), vpn(u, 1)) == l1_entry(r, m0, vpn(u, 2), vpn(u, 1)));
        }
    }
    assert forall|u: u64| !covers(vaddr, 0, u) implies #[trigger] translate(r, m1, u) == translate(
        r,
        m0,
        u,
    ) by {
        lemma_vpn_bounds(u);
        let i = vpn(u, 2);
        let k = vpn(u, 1);
        if has1(r, i) {
            assert(l1_entry(r, m1, i, k) == l1_entry(r, m0, i, k));
            assert(mid_entry(r, m1, u) == mid_entry(r, m0, u));
            if has0(r, m0, i, k) {
                let tu = entry_addr(mid_entry(r, m0, u));
                assert(frame_ok(m0, tu));
                lemma_entry_addr_aligned(mid_entry(r, m0, u));
                if tu == t0 {
                    assert(i == i2 && k == i1);
                }
                lemma_wrote_words(m0, m1, t0, vpn(vaddr, 0), value, tu, vpn(u, 0));
            }
        }
    }
}

/// Storing a non-branch in an entry of a table the root points to
/// keeps the tree of tables, and the translation of every address outside the
/// region that entry maps.
proof fn lemma_store_mid(
    r: Seq<u64>,
    m0: &FrameAllocator,
    m1: &FrameAllocator,
    vaddr: u64,
    value: u64,
)
    requires
        tables_ok(r, m0),
        has1(r, vpn(vaddr, 2)),
        !is_branch(value),
        wrote_slot(m0, m1, entry_addr(top_entry(r, vaddr)), vpn(vaddr, 1), value),
    ensures
        tables_ok(r, m1),
        forall|u: u64| !covers(vaddr, 1, u) ==> #[trigger] translate(r, m1, u) == translate(r, m0, u),
        walk(r, m1, vaddr, 1) == Some(value),
{
    let i2 = vpn(vaddr, 2);
    let i1 = vpn(vaddr, 1);
    let t1 = entry_addr(r[i2]);
    lemma_vpn_bounds(vaddr);
    assert(frame_ok(m0, t1));
    lemma_entry_addr_aligned(r[i2]);
    assert forall|i: int, k: int| has1(r, i) && 0 <= k < TABLE_ENTRIES && !(i == i2 && k == i1)
        implies #[trigger] l1_entry(r, m1, i, k) == l1_entry(r, m0, i, k) by {
        lemma_entry_addr_aligned(r[i]);
        if entry_addr(r[i]) == t1 {
            assert(i == i2);
        }
        lemma_wrote_words(m0, m1, t1, i1, value, entry_addr(r[i]), k);
    }
    lemma_wrote_words(m0, m1, t1, i1, value, t1, i1);
    assert forall|i: int, k: int| #[trigger] has0(r, m1, i, k) implies has0(r, m0, i, k)
        && l1_entry(r, m1, i, k) == l1_entry(r, m0, i, k) by {}
    assert forall|i: int, k: int| #[trigger] has0(r, m1, i, k) implies frame_ok(
        m1,
        entry_addr(l1_entry(r, m1, i, k)),
    ) by {
        assert(frame_ok(m0, entry_addr(l1_entry(r, m0, i, k))));
    }
    assert forall|i: int| #[trigger] has1(r, i) implies frame_ok(m1, entry_addr(r[i])) by {
        assert(frame_ok(m0, entry_addr(r[i])));
    }
    assert forall|i: int, k: int, j: int, l: int|
        #[trigger] has0(r, m1, i, k) && #[trigger] has0(r, m1, j, l) && entry_addr(
            l1_entry(r, m1, i, k),
        ) == entry_addr(l1_entry(r, m1, j, l)) implies i == j && k == l by {
        assert(has0(r, m0, i, k) && has0(r, m0, j, l));
    }
    assert forall|i: int, j: int, l: int|
        #[trigger] has1(r, i) && #[trigger] has0(r, m1, j, l) implies entry_addr(r[i])
            != entry_addr(l1_entry(r, m1, j, l)) by {
        assert(has0(r, m0, j, l));
    }
    assert forall|u: u64| !covers(vaddr, 1, u) implies #[trigger] translate(r, m1, u) == translate(
        r,
        m0,
        u,
    ) by {
        lemma_vpn_bounds(u);
        let i = vpn(u, 2);
        let k = vpn(u, 1);
        if has1(r, i) {
            assert(l1_entry(r, m1, i, k) == l1_entry(r, m0, i, k));
            assert(mid_entry(r, m1, u) == mid_entry(r, m0, u));
            if has0(r, m0, i, k) {
                let tu = entry_addr(mid_entry(r, m0, u));
                assert(frame_ok(m0, tu));
                lemma_entry_addr_aligned(mid_entry(r, m0, u));
                assert(tu != t1);
                lemma_wrote_words(m0, m1, t1, i1, value, tu, vpn(u, 0));
            }
        }
    }
}

/// Storing a non-branch in a root entry keeps the tree of tables, and the
/// translation of every address outside the region that entry maps.
proof fn lemma_store_top(r: Seq<u64>, m: &FrameAllocator, vaddr: u64, value: u64)
    requires
        tables_ok(r, m),
        !is_branch(value),
    ensures
        tables_ok(r.update(vpn(vaddr, 2), value), m),
        forall|u: u64|
            !covers(vaddr, 2, u) ==> #[trigger] translate(r.update(vpn(vaddr, 2), value), m, u)
                == translate(r, m, u),
{
    let r1 = r.update(vpn(vaddr, 2), value);
    lemma_vpn_bounds(vaddr);
    assert forall|i: int| #[trigger] has1(r1, i) implies has1(r, i) && r1[i] == r[i] by {}
    assert forall|i: int, k: int| #[trigger] has0(r1, m, i, k) implies has0(r, m, i, k)
        && l1_entry(r1, m, i, k) == l1_entry(r, m, i, k) by {}
    assert forall|i: int, j: int|
        #[trigger] has1(r1, i) && #[trigger] has1(r1, j) && entry_addr(r1[i]) == entry_addr(
            r1[j],
        ) implies i == j by {
        assert(has1(r, i) && has1(r, j));
    }
    assert forall|i: int, k: int, j: int, l: int|
        #[trigger] has0(r1, m, i, k) && #[trigger] has0(r1, m, j, l) && entry_addr(
            l1_entry(r1, m, i, k),
        ) == entry_addr(l1_entry(r1, m, j, l)) implies i == j && k == l by {
        assert(has0(r, m, i, k) && has0(r, m, j, l));
    }
    assert forall|i: int, j: int, l: int|
        #[trigger] has1(r1, i) && #[trigger] has0(r1, m, j, l) implies entry_addr(r1[i])
            != entry_addr(l1_entry(r1, m, j, l)) by {
        assert(has1(r, i) && has0(r, m, j, l));
    }
    assert forall|i: int| #[trigger] has1(r1, i) implies frame_ok(m, entry_addr(r1[i])) by {
        assert(has1(r, i));
    }
    assert forall|i: int, k: int| #[trigger] has0(r1, m, i, k) implies frame_ok(
        m,
        entry_addr(l1_entry(r1, m, i, k)),
    ) by {
        assert(has0(r, m, i, k));
    }
    assert forall|u: u64| !covers(vaddr, 2, u) implies #[trigger] translate(r1, m, u) == translate(
        r,
        m,
        u,
    ) by {
        lemma_vpn_bounds(u);
    }
}

/// Tables and translations depend on the metadata, the words and the page
/// region alone.
proof fn lemma_same_views(r: Seq<u64>, m0: &FrameAllocator, m1: &FrameAllocator)
    requires
        m1.meta() == m0.meta(),
        m1.words() == m0.words(),
        m1.base() == m0.base(),
    ensures
        tables_ok(r, m0) ==> tables_ok(r, m1),
        forall|u: u64| #[trigger] translate(r, m1, u) == translate(r, m0, u),
        forall|u: u64| #[trigger] mid_entry(r, m1, u) == mid_entry(r, m0, u),
        forall|u: u64| #[trigger] leaf_above(r, m1, u, 0) == leaf_above(r, m0, u, 0),
{
    assert forall|i: int, k: int| #[trigger] l1_entry(r, m1, i, k) == l1_entry(r, m0, i, k) by {}
    assert forall|i: int, k: int| #[trigger] has0(r, m1, i, k) == has0(r, m0, i, k) by {}
    assert forall|t: u64| #[trigger] frame_ok(m1, t) == frame_ok(m0, t) by {}
}

/// Why a mapping could not be made.
#[derive(PartialEq, Eq, Structural, Clone, Copy, Debug)]
pub enum MapError {
    /// A table was needed and no frame was free.
    OutOfFrames,
    /// A leaf stands above the requested level on the walk.
    LeafInPath,
    /// A branch on the walk points outside the page region, or at the very
    /// table it stands in.
    BadTable,
}

/// Stores `value` as entry `idx` of the table in the frame at `t`.
fn write_slot(mem: &mut FrameAllocator, t: u64, idx: usize, value: u64)
    requires
        old(mem).wf(),
        old(mem).in_region(t),
        t % PAGE_SIZE == 0,
        idx < TABLE_ENTRIES,
    ensures
        final(mem).wf(),
        final(mem).base() == old(mem).base(),
        final(mem).heap_base() == old(mem).heap_base(),
        final(mem).meta() == old(mem).meta(),
        final(mem).words() == old(mem).words().update(old(mem).word_of(t) + idx, value),
{
    proof {
        lemma_slot(mem, t, idx as int);
    }
    let _ = mem.write_word(t + 8 * idx as u64, value);
}

/// The leaf entry for `paddr` with the permission bits `bits`.
fn make_leaf(paddr: u64, bits: u64) -> (r: u64)
    ensures
        r == leaf_entry(paddr, bits),
{
    let ppn0 = (paddr >> 12) & 0x1ff;
    let ppn1 = (paddr >> 21) & 0x1ff;
    let ppn2 = (paddr >> 30) & 0x3ff_ffff;
    (ppn2 << 28) | (ppn1 << 19) | (ppn0 << 10) | bits | 1
}

/// `e` is a branch to a frame that was free in `m0` and is taken in `m1`,
/// where every entry but the one at `slot` is zero.
pub open spec fn fresh_table(m0: &FrameAllocator, m1: &FrameAllocator, e: u64, slot: int) -> bool {
    let t = entry_addr(e);
    &&& is_branch(e)
    &&& m0.in_region(t)
    &&& !m0.meta()[m0.page_of(t)].taken
    &&& m1.meta()[m0.page_of(t)].taken
    &&& forall|k: int| 0 <= k < TABLE_ENTRIES && k != slot ==> #[trigger] table_word(m1, t, k) == 0
}

/// A valid leaf stands above `level` on the walk for `vaddr`.
pub open spec fn leaf_above(root: Seq<u64>, mem: &FrameAllocator, vaddr: u64, level: int) -> bool {
    let t = top_entry(root, vaddr);
    let m = mid_entry(root, mem, vaddr);
    ||| level < 2 && entry_valid(t) && entry_leaf(t)
    ||| level == 0 && is_branch(t) && entry_valid(m) && entry_leaf(m)
}

/// The invalid entries above `level` on the walk for `vaddr`: the tables a
/// mapping there has to add.
pub open spec fn missing(root: Seq<u64>, mem: &FrameAllocator, vaddr: u64, level: int) -> int {
    let t = top_entry(root, vaddr);
    if level >= 2 {
        0
    } else if !entry_valid(t) {
        2 - level
    } else if level == 0 && is_branch(t) && !entry_valid(mid_entry(root, mem, vaddr)) {
        1
    } else {
        0
    }
}

/// Maps `vaddr` to `paddr` with the permission bits `bits`, as a leaf at
/// `level` (0 for a 4 KiB page). The walk starts at the root entry for
/// `vaddr`; at each level above `level` an invalid entry gets a fresh zeroed
/// table frame from `mem` and a branch to it, and the walk goes down into the
/// table the entry points to. The entry reached at `level` becomes the leaf.
///
/// Over a tree of tables and with leaf bits in `bits`: a leaf above `level`
/// on the walk is refused, too few free frames for the missing tables are
/// refused, and otherwise the mapping is made with exactly those frames; the
/// tree is kept, and no address outside the region the new leaf maps changes
/// its translation.
#[verifier::rlimit(80)]
#[verifier::spinoff_prover]
pub fn map(
    root: &mut Table,
    mem: &mut FrameAllocator,
    vaddr: u64,
    paddr: u64,
    bits: u64,
    level: usize,
) -> (r: Result<(), MapError>)
    requires
        old(root).wf(),
        old(mem).wf(),
        level <= 2,
    ensures
        final(root).wf(),
        final(mem).wf(),
        same_region(old(mem), final(mem)),
        final(mem).heap_base() == old(mem).heap_base(),
        forall|j: int|
            0 <= j < TABLE_ENTRIES && j != vpn(vaddr, 2) ==> #[trigger] final(root)@[j] == old(
                root,
            )@[j],
        r is Ok ==> walk(final(root)@, final(mem), vaddr, level as int) == Some(
            leaf_entry(paddr, bits),
        ),
        level == 2 ==> r is Ok && final(root)@ == old(root)@.update(
            vpn(vaddr, 2),
            leaf_entry(paddr, bits),
        ) && final(mem).meta() == old(mem).meta() && final(mem).words() == old(mem).words(),
        r is Ok && level < 2 && !entry_valid(top_entry(old(root)@, vaddr)) ==> fresh_table(
            old(mem),
            final(mem),
            top_entry(final(root)@, vaddr),
            vpn(vaddr, 1),
        ),
        r is Ok && level == 0 && (!entry_valid(top_entry(old(root)@, vaddr)) || !entry_valid(
            mid_entry(old(root)@, old(mem), vaddr),
        )) ==> fresh_table(old(mem), final(mem), mid_entry(final(root)@, final(mem), vaddr), vpn(vaddr, 0)),
        tables_ok(old(root)@, old(mem)) && bits & 0xe != 0 ==> {
            let lv = level as int;
            let need = missing(old(root)@, old(mem), vaddr, lv);
            &&& tables_ok(final(root)@, final(mem))
            &&& forall|u: u64|
                !(r is Ok && covers(vaddr, lv, u)) ==> #[trigger] translate(
                    final(root)@,
                    final(mem),
                    u,
                ) == translate(old(root)@, old(mem), u)
            &&& r == Err::<(), MapError>(MapError::LeafInPath) <==> leaf_above(
                old(root)@,
                old(mem),
                vaddr,
                lv,
            )
            &&& r == Err::<(), MapError>(MapError::OutOfFrames) <==> !leaf_above(
                old(root)@,
                old(mem),
                vaddr,
                lv,
            ) && free_count(old(mem).meta()) < need
            &&& r is Ok <==> !leaf_above(old(root)@, old(mem), vaddr, lv) && need <= free_count(
                old(mem).meta(),
            )
            &&& r is Ok ==> taken_count(final(mem).meta()) == taken_count(old(mem).meta()) + need
            &&& level == 0 ==> forall|u: u64|
                !leaf_above(old(root)@, old(mem), u, 0) ==> !#[trigger] leaf_above(
                    final(root)@,
                    final(mem),
                    u,
                    0,
                )
        },
{
    let v2 = vpn_of(vaddr, 2);
    let v1 = vpn_of(vaddr, 1);
    let v0 = vpn_of(vaddr, 0);
    let leaf = make_leaf(paddr, bits);
    let ghost r0 = root@;
    let ghost m0 = *mem;
    let ghost inv = tables_ok(r0, &m0) && bits & 0xe != 0;
    proof {
        lemma_vpn_bounds(vaddr);
        if bits & 0xe != 0 {
            lemma_leaf_is_leaf(paddr, bits);
        }
        lemma_taken_count_bound(m0.meta());
    }
    let e2 = root.entries[v2].get_entry();
    assert(e2 == r0[vpn(vaddr, 2)]);
    let ghost fresh_top = !entry_valid(e2);
    if level == 2 {
        root.entries.set(v2, PageEntry { entry: leaf });
        assert(root@ =~= r0.update(vpn(vaddr, 2), leaf));
        proof {
            if inv {
                lemma_store_top(r0, &m0, vaddr, leaf);
            }
        }
        return Ok(());
    }
    let top = PageEntry { entry: e2 };
    if top.is_valid() && top.is_leaf() {
        return Err(MapError::LeafInPath);
    }
    let t1: u64;
    if top.is_invalid() {
        let page = mem.zalloc(1);
        if page == 0 {
            proof {
                if free_count(m0.meta()) > 0 {
                    lemma_free_page_exists(m0.meta());
                }
                lemma_same_views(r0, &m0, mem);
            }
            return Err(MapError::OutOfFrames);
        }
        proof {
            let i = m0.page_of(page);
            lemma_free_page_count(m0.meta(), i);
            assert(run_free(m0.meta(), i, 1));
            assert(page % PAGE_SIZE == 0);
            lemma_branch_entry(page);
            assert(zeroed_frame(&m0, mem, page));
        }
        root.entries.set(v2, PageEntry { entry: (page >> 2) | 1 });
        assert(root@ =~= r0.update(vpn(vaddr, 2), branch_entry(page)));
        proof {
            if inv {
                lemma_fresh_top(r0, &m0, mem, page, vpn(vaddr, 2));
            }
        }
        t1 = page;
    } else {
        t1 = entry_addr_of(e2);
        proof {
            lemma_entry_addr_aligned(e2);
            if inv {
                assert(has1(r0, vpn(vaddr, 2)));
            }
        }
        if !mem_contains(mem, t1) {
            return Err(MapError::BadTable);
        }
    }
    let ghost ra = root@;
    let ghost ma = *mem;
    assert(is_table(mem, ra[vpn(vaddr, 2)]) && entry_addr(ra[vpn(vaddr, 2)]) == t1);
    assert(t1 % PAGE_SIZE == 0) by {
        lemma_entry_addr_aligned(ra[vpn(vaddr, 2)]);
    }
    let e1 = read_slot(mem, t1, v1);
    assert(e1 == mid_entry(ra, &ma, vaddr));
    proof {
        if fresh_top {
            lemma_zeroed_words(&m0, &ma, t1, t1, v1 as int);
            assert(e1 == 0);
            lemma_zero_invalid();
        } else {
            assert(ra == r0);
            lemma_same_views(r0, &m0, &ma);
            if inv {
                assert(has1(r0, vpn(vaddr, 2)));
                assert(frame_ok(&m0, t1));
            }
        }
    }
    if level == 1 {
        write_slot(mem, t1, v1, leaf);
        proof {
            lemma_wrote_words(&ma, mem, t1, v1 as int, leaf, t1, v1 as int);
            if fresh_top {
                assert forall|k: int| 0 <= k < TABLE_ENTRIES && k != vpn(vaddr, 1) implies #[trigger] table_word(
                    mem,
                    t1,
                    k,
                ) == 0 by {
                    lemma_zeroed_words(&m0, &ma, t1, t1, k);
                    lemma_wrote_words(&ma, mem, t1, v1 as int, leaf, t1, k);
                }
            }
            if inv {
                lemma_store_mid(ra, &ma, mem, vaddr, leaf);
            }
        }
        return Ok(());
    }
    let mid = PageEntry { entry: e1 };
    if mid.is_valid() && mid.is_leaf() {
        return Err(MapError::LeafInPath);
    }
    let t0: u64;
    let ghost mut mz_ghost = ma;
    let ghost fresh_mid = !entry_valid(e1);
    if mid.is_invalid() {
        let page = mem.zalloc(1);
        if page == 0 {
            proof {
                if free_count(ma.meta()) > 0 {
                    lemma_free_page_exists(ma.meta());
                }
                lemma_taken_count_bound(ma.meta());
                lemma_same_views(ra, &ma, mem);
            }
            return Err(MapError::OutOfFrames);
        }
        proof {
            if inv {
                assert(has1(ra, vpn(vaddr, 2)));
                assert(frame_ok(&ma, t1));
            }
        }
        if page == t1 {
            return Err(MapError::BadTable);
        }
        let ghost mz = *mem;
        proof {
            mz_ghost = mz;
            let i = ma.page_of(page);
            assert(run_free(ma.meta(), i, 1));
            assert(page % PAGE_SIZE == 0);
            lemma_branch_entry(page);
            assert(zeroed_frame(&ma, mem, page));
            lemma_free_page_count(ma.meta(), i);
        }
        write_slot(mem, t1, v1, (page >> 2) | 1);
        proof {
            if inv {
                lemma_fresh_mid(ra, &ma, &mz, mem, page, vpn(vaddr, 2), vpn(vaddr, 1));
            }
            lemma_wrote_words(&mz, mem, t1, v1 as int, branch_entry(page), t1, v1 as int);
        }
        t0 = page;
    } else {
        t0 = entry_addr_of(e1);
        proof {
            lemma_entry_addr_aligned(e1);
            if inv {
                assert(has0(ra, &ma, vpn(vaddr, 2), vpn(vaddr, 1)));
                assert(has1(ra, vpn(vaddr, 2)));
            }
        }
        if !mem_contains(mem, t0) {
            return Err(MapError::BadTable);
        }
        if t0 == t1 {
            return Err(MapError::BadTable);
        }
    }
    let ghost mb = *mem;
    assert(is_table(&mb, mid_entry(ra, &mb, vaddr)) && entry_addr(mid_entry(ra, &mb, vaddr)) == t0);
    assert(t0 % PAGE_SIZE == 0) by {
        lemma_entry_addr_aligned(mid_entry(ra, &mb, vaddr));
    }
    write_slot(mem, t0, v0, leaf);
    proof {
        lemma_wrote_words(&mb, mem, t0, v0 as int, leaf, t1, v1 as int);
        lemma_wrote_words(&mb, mem, t0, v0 as int, leaf, t0, v0 as int);
        if fresh_top {
            assert forall|k: int| 0 <= k < TABLE_ENTRIES && k != vpn(vaddr, 1) implies #[trigger] table_word(
                mem,
                t1,
                k,
            ) == 0 by {
                lemma_zeroed_words(&m0, &ma, t1, t1, k);
                lemma_zeroed_words(&ma, &mz_ghost, t0, t1, k);
                lemma_wrote_words(&mz_ghost, &mb, t1, v1 as int, branch_entry(t0), t1, k);
                lemma_wrote_words(&mb, mem, t0, v0 as int, leaf, t1, k);
            }
        }
        if fresh_mid {
            assert forall|k: int| 0 <= k < TABLE_ENTRIES && k != vpn(vaddr, 0) implies #[trigger] table_word(
                mem,
                t0,
                k,
            ) == 0 by {
                lemma_zeroed_words(&ma, &mz_ghost, t0, t0, k);
                lemma_wrote_words(&mz_ghost, &mb, t1, v1 as int, branch_entry(t0), t0, k);
                lemma_wrote_words(&mb, mem, t0, v0 as int, leaf, t0, k);
            }
        }
        if inv {
            lemma_store_low(ra, &mb, mem, vaddr, leaf);
        }
    }
    Ok(())
}

/// The leaf entry keeps the leaf bits of `bits`.
proof fn lemma_leaf_is_leaf(paddr: u64, bits: u64)
    requires
        bits & 0xe != 0,
    ensures
        entry_valid(leaf_entry(paddr, bits)),
        entry_leaf(leaf_entry(paddr, bits)),
        !is_branch(leaf_entry(paddr, bits)),
{
    let e = leaf_entry(paddr, bits);
    assert(e & 1 != 0 && e & 0xe != 0) by (bit_vector)
        requires
            e == ((((paddr >> 30u64) & 0x3ff_ffffu64) << 28u64) | (((paddr >> 21u64) & 0x1ffu64)
                << 19u64) | (((paddr >> 12u64) & 0x1ffu64) << 10u64) | bits | 1u64),
            bits & 0xe != 0,
    ;
}

/// A 4 KiB leaf for `paddr` with read, write or execute permission is a valid
/// leaf, and translates any address of its page to `paddr`'s page plus that
/// address's offset.
proof fn lemma_leaf_target(paddr: u64, bits: u64, vaddr: u64)
    requires
        paddr < PHYS_LIMIT,
        bits < 0x400,
        bits & 0xe != 0,
    ensures
        entry_valid(leaf_entry(paddr, bits)),
        entry_leaf(leaf_entry(paddr, bits)),
        leaf_target(leaf_entry(paddr, bits), vaddr, 0) == (paddr & !0xfffu64) | (vaddr & 0xfffu64),
{
    let e = leaf_entry(paddr, bits);
    assert(e & 1 != 0 && e & 0xe != 0) by (bit_vector)
        requires
            e == ((((paddr >> 30u64) & 0x3ff_ffffu64) << 28u64) | (((paddr >> 21u64) & 0x1ffu64)
                << 19u64) | (((paddr >> 12u64) & 0x1ffu64) << 10u64) | bits | 1u64),
            bits & 0xe != 0,
    ;
    assert(((e << 2u64) & !0xfffu64) | (vaddr & 0xfffu64) == (paddr & !0xfffu64) | (vaddr
        & 0xfffu64)) by (bit_vector)
        requires
            e == ((((paddr >> 30u64) & 0x3ff_ffffu64) << 28u64) | (((paddr >> 21u64) & 0x1ffu64)
                << 19u64) | (((paddr >> 12u64) & 0x1ffu64) << 10u64) | bits | 1u64),
            bits < 0x400,
            paddr < 0x100_0000_0000_0000u64,
    ;
}

/// Once `vaddr` has been mapped to `paddr` as a 4 KiB leaf with any of the
/// permissions callers may ask for, translating `vaddr` gives `paddr` with
/// only its page offset replaced by that of `vaddr`.
pub proof fn lemma_map_then_translate(
    root: &Table,
    mem: &FrameAllocator,
    vaddr: u64,
    paddr: u64,
    bits: PageBits,
)
    requires
        mem.wf(),
        paddr < PHYS_LIMIT,
        walk(root@, mem, vaddr, 0) == Some(leaf_entry(paddr, entry_bits_of(bits).spec_val())),
    ensures
        translate(root@, mem, vaddr) == Some((paddr & !0xfffu64) | (vaddr & 0xfffu64)),
{
    let b = entry_bits_of(bits).spec_val();
    assert(0x16u64 & 0xe != 0 && 0x1au64 & 0xe != 0 && 0x1eu64 & 0xe != 0) by (bit_vector);
    lemma_leaf_target(paddr, b, vaddr);
}

/// Maps `vaddr` to `paddr` at `level` with the leaf bits that stand for the
/// permission `bits`.
pub fn map_permission(
    root: &mut Table,
    mem: &mut FrameAllocator,
    vaddr: u64,
    paddr: u64,
    bits: PageBits,
    level: usize,
) -> (r: Result<(), MapError>)
    requires
        old(root).wf(),
        old(mem).wf(),
        level <= 2,
    ensures
        final(root).wf(),
        final(mem).wf(),
        final(mem).base() == old(mem).base(),
        final(mem).meta().len() == old(mem).meta().len(),
        r is Ok ==> walk(final(root)@, final(mem), vaddr, level as int) == Some(
            leaf_entry(paddr, entry_bits_of(bits).spec_val()),
        ),
        r is Ok && level == 0 && paddr < PHYS_LIMIT ==> translate(final(root)@, final(mem), vaddr)
            == Some((paddr & !0xfffu64) | (vaddr & 0xfffu64)),
        tables_ok(old(root)@, old(mem)) ==> {
            let lv = level as int;
            let need = missing(old(root)@, old(mem), vaddr, lv);
            &&& tables_ok(final(root)@, final(mem))
            &&& forall|u: u64|
                !(r is Ok && covers(vaddr, lv, u)) ==> #[trigger] translate(
                    final(root)@,
                    final(mem),
                    u,
                ) == translate(old(root)@, old(mem), u)
            &&& r == Err::<(), MapError>(MapError::LeafInPath) <==> leaf_above(
                old(root)@,
                old(mem),
                vaddr,
                lv,
            )
            &&& r is Ok <==> !leaf_above(old(root)@, old(mem), vaddr, lv) && need <= free_count(
                old(mem).meta(),
            )
            &&& r is Ok ==> taken_count(final(mem).meta()) == taken_count(old(mem).meta()) + need
        },
{
    proof {
        assert(0x16u64 & 0xe != 0 && 0x1au64 & 0xe != 0 && 0x1eu64 & 0xe != 0) by (bit_vector);
    }
    let entry_bits = PageEntryBits::from(bits);
    let r = map(root, mem, vaddr, paddr, entry_bits.val(), level);
    proof {
        if r is Ok && level == 0 && paddr < PHYS_LIMIT {
            lemma_map_then_translate(root, mem, vaddr, paddr, bits);
        }
    }
    r
}

/// The frames that the valid branch entries among the first `k` entries of
/// the table at `t` point to, in order.
pub open spec fn level_targets(mem: &FrameAllocator, t: u64, k: int) -> Seq<u64>
    decreases k,
{
    if k <= 0 {
        seq![]
    } else {
        let e = table_word(mem, t, k - 1);
        level_targets(mem, t, k - 1) + if entry_valid(e) && !entry_leaf(e) {
            seq![entry_addr(e)]
        } else {
            seq![]
        }
    }
}

/// The frames that releasing the tables under the root entry `e` gives back:
/// the frames its table points to, then the table's own frame.
pub open spec fn entry_targets(mem: &FrameAllocator, e: u64) -> Seq<u64> {
    if entry_valid(e) && !entry_leaf(e) {
        let t = entry_addr(e);
        if mem.in_region(t) {
            level_targets(mem, t, TABLE_ENTRIES as int) + seq![t]
        } else {
            seq![t]
        }
    } else {
        seq![]
    }
}

/// The frames that releasing the tables under the first `k` root entries
/// gives back, in order.
pub open spec fn root_targets(root: Seq<u64>, mem: &FrameAllocator, k: int) -> Seq<u64>
    decreases k,
{
    if k <= 0 {
        seq![]
    } else {
        root_targets(root, mem, k - 1) + entry_targets(mem, root[k - 1])
    }
}

/// Releases, in order, the frame of every valid branch entry of the table in
/// the frame at `t`; stops at the first release that is refused.
fn dealloc_level(mem: &mut FrameAllocator, t: u64) -> (r: Result<(), FrameError>)
    requires
        old(mem).wf(),
        old(mem).in_region(t),
        t % PAGE_SIZE == 0,
    ensures
        final(mem).wf(),
        final(mem).base() == old(mem).base(),
        final(mem).heap_base() == old(mem).heap_base(),
        final(mem).words() == old(mem).words(),
        ({
            let (p, err) = old(mem).release_all(
                old(mem).meta(),
                level_targets(old(mem), t, TABLE_ENTRIES as int),
            );
            &&& final(mem).meta() == p
            &&& r == match err {
                None => Ok::<(), FrameError>(()),
                Some(e) => Err(e),
            }
        }),
{
    let ghost mem0 = *mem;
    let mut k: usize = 0;
    while k < TABLE_ENTRIES
        invariant
            mem0 == *old(mem),
            k <= TABLE_ENTRIES,
            mem.wf(),
            mem.base() == mem0.base(),
            mem.heap_base() == mem0.heap_base(),
            mem.words() == mem0.words(),
            mem.meta().len() == mem0.meta().len(),
            mem0.in_region(t),
            t % PAGE_SIZE == 0,
            mem0.release_all(mem0.meta(), level_targets(&mem0, t, k as int)) == (mem.meta(), None::<FrameError>),
        decreases TABLE_ENTRIES - k,
    {
        let e = read_slot(mem, t, k);
        assert(e == table_word(&mem0, t, k as int));
        let entry = PageEntry { entry: e };
        let ghost before = level_targets(&mem0, t, k as int);
        if entry.is_valid() && entry.is_branch() {
            let res = mem.try_dealloc(entry_addr_of(e));
            assert(mem.base() == mem0.base() && mem.heap_base() == mem0.heap_base());
            proof {
                assert(level_targets(&mem0, t, k + 1) =~= before.push(entry_addr(e)));
                mem0.lemma_release_push(mem0.meta(), before, entry_addr(e));
            }
            match res {
                Ok(()) => {},
                Err(err) => {
                    proof {
                        mem0.lemma_release_concat(
                            mem0.meta(),
                            level_targets(&mem0, t, k + 1),
                            level_targets_rest(&mem0, t, k + 1),
                        );
                        lemma_level_targets_split(&mem0, t, k + 1);
                    }
                    return Err(err);
                },
            }
        } else {
            assert(level_targets(&mem0, t, k + 1) =~= before);
        }
        k = k + 1;
    }
    Ok(())
}

/// The targets after the first `k` entries of the table at `t`.
pub open spec fn level_targets_rest(mem: &FrameAllocator, t: u64, k: int) -> Seq<u64> {
    level_targets(mem, t, TABLE_ENTRIES as int).subrange(
        level_targets(mem, t, k).len() as int,
        level_targets(mem, t, TABLE_ENTRIES as int).len() as int,
    )
}

proof fn lemma_level_targets_prefix(mem: &FrameAllocator, t: u64, k: int, m: int)
    requires
        0 <= k <= m,
    ensures
        level_targets(mem, t, k).len() <= level_targets(mem, t, m).len(),
        level_targets(mem, t, m).subrange(0, level_targets(mem, t, k).len() as int)
            == level_targets(mem, t, k),
    decreases m - k,
{
    if k < m {
        lemma_level_targets_prefix(mem, t, k, m - 1);
        let a = level_targets(mem, t, m - 1);
        let b = level_targets(mem, t, m);
        assert(b.subrange(0, a.len() as int) =~= a);
        assert(b.subrange(0, level_targets(mem, t, k).len() as int) =~= a.subrange(
            0,
            level_targets(mem, t, k).len() as int,
        ));
    }
}

proof fn lemma_level_targets_split(mem: &FrameAllocator, t: u64, k: int)
    requires
        0 <= k <= TABLE_ENTRIES,
    ensures
        level_targets(mem, t, k) + level_targets_rest(mem, t, k) == level_targets(
            mem,
            t,
            TABLE_ENTRIES as int,
        ),
{
    lemma_level_targets_prefix(mem, t, k, TABLE_ENTRIES as int);
    assert(level_targets(mem, t, k) + level_targets_rest(mem, t, k) =~= level_targets(
        mem,
        t,
        TABLE_ENTRIES as int,
    ));
}

/// The frames a table points to depend on the words and the page region
/// alone.
proof fn lemma_level_targets_same(a: &FrameAllocator, b: &FrameAllocator, t: u64, k: int)
    requires
        a.words() == b.words(),
        a.base() == b.base(),
        a.meta().len() == b.meta().len(),
    ensures
        level_targets(a, t, k) == level_targets(b, t, k),
    decreases k,
{
    if k > 0 {
        lemma_level_targets_same(a, b, t, k - 1);
    }
}

/// Releases the table structure under `root`: for every valid branch entry
/// of the root, each frame that its table's valid branch entries point to,
/// then the table's own frame. The frames that leaf entries map are left
/// alone, and so are the root's entries. Stops at the first release that is
/// refused.
pub fn unmap(root: &Table, mem: &mut FrameAllocator) -> (r: Result<(), FrameError>)
    requires
        root.wf(),
        old(mem).wf(),
    ensures
        final(mem).wf(),
        final(mem).base() == old(mem).base(),
        final(mem).heap_base() == old(mem).heap_base(),
        final(mem).words() == old(mem).words(),
        ({
            let (p, err) = old(mem).release_all(
                old(mem).meta(),
                root_targets(root@, old(mem), TABLE_ENTRIES as int),
            );
            &&& final(mem).meta() == p
            &&& r == match err {
                None => Ok::<(), FrameError>(()),
                Some(e) => Err(e),
            }
        }),
{
    let ghost mem0 = *mem;
    let mut i: usize = 0;
    while i < TABLE_ENTRIES
        invariant
            mem0 == *old(mem),
            root.wf(),
            i <= TABLE_ENTRIES,
            mem.wf(),
            mem.base() == mem0.base(),
            mem.heap_base() == mem0.heap_base(),
            mem.words() == mem0.words(),
            mem.meta().len() == mem0.meta().len(),
            mem0.release_all(mem0.meta(), root_targets(root@, &mem0, i as int)) == (
                mem.meta(),
                None::<FrameError>,
            ),
        decreases TABLE_ENTRIES - i,
    {
        let entry = root.entries[i];
        let e = entry.get_entry();
        assert(e == root@[i as int]);
        let ghost done = root_targets(root@, &mem0, i as int);
        assert(root_targets(root@, &mem0, i + 1) == done + entry_targets(&mem0, e));
        if entry.is_valid() && entry.is_branch() {
            let t = entry_addr_of(e);
            let ghost lv = if mem0.in_region(t) {
                level_targets(&mem0, t, TABLE_ENTRIES as int)
            } else {
                seq![]
            };
            assert(entry_targets(&mem0, e) =~= lv + seq![t]);
            if mem_contains(mem, t) {
                proof {
                    lemma_entry_addr_aligned(e);
                }
                let ghost pre = *mem;
                let res = dealloc_level(mem, t);
                proof {
                    lemma_level_targets_same(&pre, &mem0, t, TABLE_ENTRIES as int);
                    lemma_release_all_same(&pre, &mem0, pre.meta(), lv);
                    mem0.lemma_release_concat(mem0.meta(), done, lv);
                }
                match res {
                    Ok(()) => {},
                    Err(err) => {
                        proof {
                            mem0.lemma_release_concat(mem0.meta(), done + lv, seq![t]);
                            assert(done + lv + seq![t] =~= done + (lv + seq![t]));
                            lemma_root_targets_rest(root@, &mem0, i + 1);
                            mem0.lemma_release_concat(
                                mem0.meta(),
                                root_targets(root@, &mem0, i + 1),
                                root_targets_rest(root@, &mem0, i + 1),
                            );
                        }
                        return Err(err);
                    },
                }
            } else {
                assert(lv + seq![t] =~= seq![t]);
                assert(done + lv =~= done);
            }
            let res = mem.try_dealloc(t);
            proof {
                assert(done + lv + seq![t] =~= done + (lv + seq![t]));
                mem0.lemma_release_push(mem0.meta(), done + lv, t);
                assert((done + lv).push(t) =~= done + (lv + seq![t]));
            }
            match res {
                Ok(()) => {},
                Err(err) => {
                    proof {
                        lemma_root_targets_rest(root@, &mem0, i + 1);
                        mem0.lemma_release_concat(
                            mem0.meta(),
                            root_targets(root@, &mem0, i + 1),
                            root_targets_rest(root@, &mem0, i + 1),
                        );
                    }
                    return Err(err);
                },
            }
        } else {
            assert(done + entry_targets(&mem0, e) =~= done);
        }
        i = i + 1;
    }
    Ok(())
}

/// The targets after the first `k` root entries.
pub open spec fn root_targets_rest(root: Seq<u64>, mem: &FrameAllocator, k: int) -> Seq<u64> {
    root_targets(root, mem, TABLE_ENTRIES as int).subrange(
        root_targets(root, mem, k).len() as int,
        root_targets(root, mem, TABLE_ENTRIES as int).len() as int,
    )
}

proof fn lemma_root_targets_prefix(root: Seq<u64>, mem: &FrameAllocator, k: int, m: int)
    requires
        0 <= k <= m,
    ensures
        root_targets(root, mem, k).len() <= root_targets(root, mem, m).len(),
        root_targets(root, mem, m).subrange(0, root_targets(root, mem, k).len() as int)
            == root_targets(root, mem, k),
    decreases m - k,
{
    if k < m {
        lemma_root_targets_prefix(root, mem, k, m - 1);
        let a = root_targets(root, mem, m - 1);
        let b = root_targets(root, mem, m);
        assert(b.subrange(0, a.len() as int) =~= a);
        assert(b.subrange(0, root_targets(root, mem, k).len() as int) =~= a.subrange(
            0,
            root_targets(root, mem, k).len() as int,
        ));
    }
}

proof fn lemma_root_targets_rest(root: Seq<u64>, mem: &FrameAllocator, k: int)
    requires
        0 <= k <= TABLE_ENTRIES,
    ensures
        root_targets(root, mem, k) + root_targets_rest(root, mem, k) == root_targets(
            root,
            mem,
            TABLE_ENTRIES as int,
        ),
{
    lemma_root_targets_prefix(root, mem, k, TABLE_ENTRIES as int);
    assert(root_targets(root, mem, k) + root_targets_rest(root, mem, k) =~= root_targets(
        root,
        mem,
        TABLE_ENTRIES as int,
    ));
}

/// Virtual addresses of the Sv39 space lie below 512 GiB.
pub const VA_LIMIT: u64 = 0x80_0000_0000;

/// Below the Sv39 limit, a 4 KiB leaf for the page at `a` covers exactly the
/// addresses of that page.
proof fn lemma_page_covers(a: u64, u: u64)
    requires
        a < VA_LIMIT,
        u < VA_LIMIT,
        a & 0xfff == 0,
    ensures
        covers(a, 0, u) <==> a <= u < a + PAGE_SIZE,
        a <= u < a + PAGE_SIZE ==> (a & !0xfffu64) | (u & 0xfffu64) == u,
{
    assert((((u >> 12u64) & 0x1ffu64) == ((a >> 12u64) & 0x1ffu64) && ((u >> 21u64) & 0x1ffu64) == ((
    a >> 21u64) & 0x1ffu64) && ((u >> 30u64) & 0x1ffu64) == ((a >> 30u64) & 0x1ffu64)) == (a <= u
        && u < a + 4096)) by (bit_vector)
        requires
            a < 0x80_0000_0000u64,
            u < 0x80_0000_0000u64,
            a & 0xfff == 0,
    ;
    assert(a <= u && u < a + 4096 ==> (a & !0xfffu64) | (u & 0xfffu64) == u) by (bit_vector)
        requires
            a & 0xfff == 0,
            a < 0x80_0000_0000u64,
    ;
}

/// Maps every page from `start` rounded down to `end` rounded up to a page
/// boundary onto itself, as 4 KiB leaves with the bits `bits`, lowest page
/// first; stops at the first mapping that fails.
///
/// Over a tree of tables, with leaf bits in `bits` and the range inside the
/// Sv39 space: on success every address of the range translates to itself;
/// no other address of the space changes its translation; and success is
/// owed when no leaf stands above level 0 on any walk of the range and two
/// frames per page are free.
pub fn ident_map_range(
    root: &mut Table,
    mem: &mut FrameAllocator,
    start: u64,
    end: u64,
    bits: u64,
) -> (r: Result<(), MapError>)
    requires
        old(root).wf(),
        old(mem).wf(),
        start <= end,
        end + PAGE_SIZE <= u64::MAX,
    ensures
        final(root).wf(),
        final(mem).wf(),
        same_region(old(mem), final(mem)),
        final(mem).heap_base() == old(mem).heap_base(),
        ({
            let first = (start & !0xfffu64) as int;
            let top = crate::page::align_up(end as int, 12);
            tables_ok(old(root)@, old(mem)) && bits & 0xe != 0 && bits < 0x400 && top <= VA_LIMIT
                ==> {
                &&& tables_ok(final(root)@, final(mem))
                &&& r is Ok ==> forall|u: u64|
                    first <= u < top ==> #[trigger] translate(final(root)@, final(mem), u) == Some(u)
                &&& forall|u: u64|
                    u < VA_LIMIT && !(first <= u < top) ==> #[trigger] translate(
                        final(root)@,
                        final(mem),
                        u,
                    ) == translate(old(root)@, old(mem), u)
                &&& forall|u: u64|
                    !leaf_above(old(root)@, old(mem), u, 0) ==> !#[trigger] leaf_above(
                        final(root)@,
                        final(mem),
                        u,
                        0,
                    )
                &&& (forall|u: u64| first <= u < top ==> !#[trigger] leaf_above(old(root)@, old(mem), u, 0))
                    && 2 * ((top - first) / PAGE_SIZE as int) <= free_count(old(mem).meta()) ==> r is Ok
                &&& r is Ok ==> taken_count(final(mem).meta()) <= taken_count(old(mem).meta()) + 2 * ((top
                    - first) / PAGE_SIZE as int)
            }
        }),
{
    let ghost r0 = root@;
    let ghost m0 = *mem;
    let mut memaddr: u64 = start & !(PAGE_SIZE - 1);
    proof {
        vstd::arithmetic::power2::lemma2_to64();
        assert(start & !0xfffu64 <= start) by (bit_vector);
        assert(start & !0xfffu64 == start & !((4096 - 1) as u64));
        assert((start & !0xfffu64) & 0xfff == 0) by (bit_vector);
        lemma_taken_count_bound(m0.meta());
    }
    let top = crate::page::align_val(end, 12);
    let num_kb_pages: u64 = (top - memaddr) / PAGE_SIZE;
    let ghost first = memaddr;
    let ghost inv = tables_ok(r0, &m0) && bits & 0xe != 0 && bits < 0x400 && top <= VA_LIMIT;
    let ghost clear = forall|u: u64| first <= u < top ==> !#[trigger] leaf_above(r0, &m0, u, 0);
    assert(first % 4096 == 0) by {
        assert((start & !0xfffu64) % 4096 == 0) by (bit_vector);
    }
    assert(top % 4096 == 0);
    assert((top - first) % 4096 == 0) by (nonlinear_arith)
        requires
            top % 4096 == 0,
            first % 4096 == 0,
            first <= top,
    ;
    let mut k: u64 = 0;
    while k < num_kb_pages
        invariant
            root.wf(),
            mem.wf(),
            same_region(&m0, mem),
            mem.heap_base() == m0.heap_base(),
            m0 == *old(mem),
            r0 == old(root)@,
            k <= num_kb_pages,
            first == start & !0xfffu64,
            first % 4096 == 0,
            memaddr == first + k * PAGE_SIZE,
            first + num_kb_pages * PAGE_SIZE == top,
            top <= u64::MAX,
            top as int == crate::page::align_up(end as int, 12),
            num_kb_pages == (top - first) / PAGE_SIZE as int,
            inv ==> tables_ok(root@, mem),
            inv ==> forall|u: u64| first <= u < memaddr ==> #[trigger] translate(root@, mem, u) == Some(u),
            inv ==> forall|u: u64|
                u < VA_LIMIT && !(first <= u < memaddr) ==> #[trigger] translate(root@, mem, u)
                    == translate(r0, &m0, u),
            inv ==> forall|u: u64| !leaf_above(r0, &m0, u, 0) ==> !#[trigger] leaf_above(root@, mem, u, 0),
            inv ==> taken_count(mem.meta()) <= taken_count(m0.meta()) + 2 * k,
            inv == (tables_ok(r0, &m0) && bits & 0xe != 0 && bits < 0x400 && top <= VA_LIMIT),
            clear == forall|u: u64| first <= u < top ==> !#[trigger] leaf_above(r0, &m0, u, 0),
        decreases num_kb_pages - k,
    {
        let ghost rb = root@;
        let ghost mb = *mem;
        proof {
            assert(memaddr % 4096 == 0) by {
                assert((first + k * PAGE_SIZE) % 4096 == 0) by (nonlinear_arith)
                    requires
                        first % 4096 == 0,
                ;
            }
            assert(memaddr & 0xfff == 0) by (bit_vector)
                requires
                    memaddr % 4096 == 0,
            ;
            assert(memaddr + PAGE_SIZE <= top) by (nonlinear_arith)
                requires
                    memaddr == first + k * PAGE_SIZE,
                    first + num_kb_pages * PAGE_SIZE == top,
                    k < num_kb_pages,
            ;
        }
        match map(root, mem, memaddr, memaddr, bits, 0) {
            Ok(()) => {},
            Err(err) => {
                proof {
                    if inv && clear && 2 * num_kb_pages <= free_count(m0.meta()) {
                        assert(first <= memaddr < top);
                        assert(!leaf_above(r0, &m0, memaddr, 0));
                        assert(!leaf_above(rb, &mb, memaddr, 0));
                        lemma_taken_count_bound(mb.meta());
                        assert(2 * k + 2 <= 2 * num_kb_pages);
                        assert(false);
                    }
                    if inv {
                        assert forall|u: u64|
                            u < VA_LIMIT && !(first <= u < top) implies #[trigger] translate(
                            root@,
                            mem,
                            u,
                        ) == translate(r0, &m0, u) by {
                            assert(translate(root@, mem, u) == translate(rb, &mb, u));
                        }
                    }
                }
                return Err(err);
            },
        }
        proof {
            if inv {
                let a = memaddr;
                lemma_leaf_is_leaf(a, bits);
                assert forall|u: u64| first <= u < a + PAGE_SIZE implies #[trigger] translate(
                    root@,
                    mem,
                    u,
                ) == Some(u) by {
                    lemma_page_covers(a, u);
                    if a <= u {
                        lemma_leaf_target(a, bits, u);
                        assert(top_entry(root@, u) == top_entry(root@, a));
                        assert(mid_entry(root@, mem, u) == mid_entry(root@, mem, a));
                        assert(low_entry(root@, mem, u) == low_entry(root@, mem, a));
                    } else {
                        assert(translate(root@, mem, u) == translate(rb, &mb, u));
                    }
                }
                assert forall|u: u64|
                    u < VA_LIMIT && !(first <= u < a + PAGE_SIZE) implies #[trigger] translate(
                    root@,
                    mem,
                    u,
                ) == translate(r0, &m0, u) by {
                    lemma_page_covers(a, u);
                    assert(translate(root@, mem, u) == translate(rb, &mb, u));
                }
            }
        }
        k = k + 1;
        assert(memaddr + PAGE_SIZE == first + k * PAGE_SIZE) by (nonlinear_arith)
            requires
                memaddr == first + (k - 1) * PAGE_SIZE,
        ;
        memaddr = memaddr + PAGE_SIZE;
    }
    assert(memaddr == top);
    Ok(())
}

/// Address translation modes of the `satp` register.
#[derive(PartialEq, Eq, Structural, Clone, Copy, Debug)]
pub enum SatpMode {
    Off,
    Sv39,
    Sv48,
}

impl SatpMode {
    pub open spec fn spec_val(self) -> u64 {
        match self {
            SatpMode::Off => 0,
            SatpMode::Sv39 => 8,
            SatpMode::Sv48 => 9,
        }
    }

    /// The mode's field value.
    pub fn val(self) -> (r: u64)
        ensures
            r == self.spec_val(),
    {
        match self {
            SatpMode::Off => 0,
            SatpMode::Sv39 => 8,
            SatpMode::Sv48 => 9,
        }
    }
}

/// The `satp` value for `mode`, address space `asid` and the root table at
/// `addr`: the mode in bits 60 to 63, the low 16 bits of `asid` in bits 44 to
/// 59, and the frame number of `addr` in the low 44 bits, cut to 40.
pub fn build_satp(mode: SatpMode, asid: u64, addr: u64) -> (r: u64)
    ensures
        r >> 60u64 == mode.spec_val(),
        (r >> 44u64) & 0xffffu64 == asid & 0xffffu64,
        r & 0xfff_ffff_ffffu64 == (addr >> 12u64) & 0xff_ffff_ffffu64,
{
    let m = mode.val();
    let r = m << 60 | (asid & 0xffff) << 44 | (addr >> 12) & 0xff_ffff_ffff;
    assert(r >> 60u64 == m && (r >> 44u64) & 0xffffu64 == asid & 0xffffu64 && r
        & 0xfff_ffff_ffffu64 == (addr >> 12u64) & 0xff_ffff_ffffu64) by (bit_vector)
        requires
            m <= 9,
            r == m << 60u64 | (asid & 0xffffu64) << 44u64 | (addr >> 12u64) & 0xff_ffff_ffffu64,
    ;
    r
}

} // verus!

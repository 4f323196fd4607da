//! Physical memory: the free list of page frames and its initialisation from
//! the boot loader's memory map.
use vstd::prelude::*;

use crate::error::KernelError;

verus! {

/// Size of a page frame in bytes.
pub const PAGE_SIZE: u64 = 4096;

/// A frame address is page aligned when it is a multiple of 4096.
pub open spec fn page_aligned(a: int) -> bool {
    a % 4096 == 0
}

/// No value occurs twice in `s`.
pub open spec fn seq_distinct(s: Seq<u64>) -> bool {
    forall|i: int, j: int| 0 <= i < s.len() && 0 <= j < s.len() && i != j ==> s[i] != s[j]
}

/// A frame that the free list can hold: page aligned and not the null page.
pub open spec fn valid_frame(a: u64) -> bool {
    page_aligned(a as int) && a != 0
}

/// Every value of `s` is a valid frame.
pub open spec fn all_valid_frames(s: Seq<u64>) -> bool {
    forall|i: int| 0 <= i < s.len() ==> #[trigger] valid_frame(s[i])
}

/// The list of free page frames.
///
/// The frames are kept as a stack: the last element of the view is the frame
/// that the next `allocate` hands out, and `free` puts a frame on top.
pub struct Freelist {
    pages: Vec<u64>,
}

impl View for Freelist {
    type V = Seq<u64>;

    closed spec fn view(&self) -> Seq<u64> {
        self.pages@
    }
}

impl Freelist {
    /// Every free frame is page aligned and not null, and no frame is free
    /// twice.
    pub open spec fn wf(&self) -> bool {
        all_valid_frames(self@) && seq_distinct(self@)
    }

    /// An empty free list.
    pub fn new() -> (fl: Freelist)
        ensures
            fl.wf(),
            fl@ == Seq::<u64>::empty(),
    {
        Freelist { pages: Vec::new() }
    }

    /// The number of free frames.
    pub fn len(&self) -> (n: usize)
        ensures
            n == self@.len(),
    {
        self.pages.len()
    }

    /// Returns `page` to the free list. A page that is not aligned to 4096 is
    /// ignored. The null page is never freed, and a page must not be freed
    /// while it is already free.
    pub fn free(&mut self, page: u64)
        requires
            old(self).wf(),
            page_aligned(page as int) ==> page != 0 && !old(self)@.contains(page),
        ensures
            final(self).wf(),
            final(self)@ == (if page_aligned(page as int) {
                old(self)@.push(page)
            } else {
                old(self)@
            }),
    {
        if page % PAGE_SIZE == 0 {
            self.pages.push(page);
            assert(seq_distinct(self@)) by {
                assert forall|i: int, j: int|
                    0 <= i < self@.len() && 0 <= j < self@.len() && i != j implies self@[i]
                    != self@[j] by {
                    if i == self@.len() - 1 {
                        assert(old(self)@.contains(self@[j]) || j == i);
                    } else if j == self@.len() - 1 {
                        assert(old(self)@.contains(self@[i]));
                    }
                }
            }
        }
    }

    /// Whether `page` is free.
    pub fn contains(&self, page: u64) -> (r: bool)
        ensures
            r == self@.contains(page),
    {
        let mut i: usize = 0;
        while i < self.pages.len()
            invariant
                i <= self.pages@.len(),
                forall|j: int| 0 <= j < i ==> self.pages@[j] != page,
            decreases self.pages@.len() - i,
        {
            if self.pages[i] == page {
                assert(self@[i as int] == page);
                return true;
            }
            i = i + 1;
        }
        false
    }

    /// Takes the most recently freed frame off the list, or fails with
    /// `AllocatePage` when no frame is free.
    pub fn allocate(&mut self) -> (r: Result<u64, KernelError>)
        requires
            old(self).wf(),
        ensures
            final(self).wf(),
            old(self)@.len() == 0 <==> r == Err::<u64, KernelError>(KernelError::AllocatePage),
            old(self)@.len() == 0 ==> final(self)@ == old(self)@,
            old(self)@.len() > 0 ==> r == Ok::<u64, KernelError>(old(self)@.last()) && final(self)@
                == old(self)@.drop_last(),
    {
        match self.pages.pop() {
            Some(p) => Ok(p),
            None => Err(KernelError::AllocatePage),
        }
    }
}

/// The kinds of memory map entries that the boot loader reports.
#[derive(Debug, Clone, Copy, PartialEq, Eq, Structural)]
pub enum MemoryMapEntryType {
    Usable,
    Reserved,
    AcpiReclaimable,
    AcpiNvs,
    BadMemory,
    BootloaderReclaimable,
    KernelAndModules,
    Framebuffer,
}

/// One entry of the boot loader's memory map: `len` bytes from `base`.
#[derive(Debug, Clone, Copy, PartialEq, Eq, Structural)]
pub struct MemmapEntry {
    pub base: u64,
    pub len: u64,
    pub typ: MemoryMapEntryType,
}

/// The name under which an entry type is listed in the memory map log.
pub fn entry_type_name(typ: MemoryMapEntryType) -> (name: &'static str)
    ensures
        typ == MemoryMapEntryType::Usable ==> name@ == "Usable"@,
        typ == MemoryMapEntryType::Reserved ==> name@ == "Reserved"@,
        typ == MemoryMapEntryType::AcpiReclaimable ==> name@ == "ACPI (Reclaimable)"@,
        typ == MemoryMapEntryType::AcpiNvs ==> name@ == "ACPI (NVS)"@,
        typ == MemoryMapEntryType::BadMemory ==> name@ == "Bad Memory"@,
        typ == MemoryMapEntryType::BootloaderReclaimable ==> name@ == "Bootloader (Reclaimable)"@,
        typ == MemoryMapEntryType::KernelAndModules ==> name@ == "Kernel & Modules"@,
        typ == MemoryMapEntryType::Framebuffer ==> name@ == "Framebuffer"@,
{
    match typ {
        MemoryMapEntryType::Usable => "Usable",
        MemoryMapEntryType::Reserved => "Reserved",
        MemoryMapEntryType::AcpiReclaimable => "ACPI (Reclaimable)",
        MemoryMapEntryType::AcpiNvs => "ACPI (NVS)",
        MemoryMapEntryType::BadMemory => "Bad Memory",
        MemoryMapEntryType::BootloaderReclaimable => "Bootloader (Reclaimable)",
        MemoryMapEntryType::KernelAndModules => "Kernel & Modules",
        MemoryMapEntryType::Framebuffer => "Framebuffer",
    }
}

/// The number of 4096-byte steps from `base` that stay below `base + len`.
pub open spec fn entry_page_count(e: MemmapEntry) -> nat {
    ((e.len + 4095) / 4096) as nat
}

/// The frames that initialisation frees for one entry: the 4096-byte steps
/// through a usable entry, when its base is page aligned.
pub open spec fn entry_pages(e: MemmapEntry) -> Seq<u64> {
    if e.typ == MemoryMapEntryType::Usable && page_aligned(e.base as int) {
        Seq::new(entry_page_count(e), |k: int| (e.base + 4096 * k) as u64)
    } else {
        Seq::empty()
    }
}

/// The frames that initialisation frees for a memory map, in order.
pub open spec fn freed_pages(es: Seq<MemmapEntry>) -> Seq<u64>
    decreases es.len(),
{
    if es.len() == 0 {
        Seq::empty()
    } else {
        freed_pages(es.drop_last()) + entry_pages(es.last())
    }
}

/// The number of whole pages in the usable entries of a memory map.
pub open spec fn usable_page_total(es: Seq<MemmapEntry>) -> int
    decreases es.len(),
{
    if es.len() == 0 {
        0
    } else {
        usable_page_total(es.drop_last()) + if es.last().typ == MemoryMapEntryType::Usable {
            es.last().len / 4096
        } else {
            0
        }
    }
}

/// A memory map whose usable entries end low enough that stepping through them
/// by pages cannot overflow.
pub open spec fn memmap_in_range(es: Seq<MemmapEntry>) -> bool {
    forall|i: int|
        0 <= i < es.len() && #[trigger] es[i].typ == MemoryMapEntryType::Usable ==> es[i].base
            + es[i].len + 4096 <= u64::MAX
}

proof fn lemma_page_count(len: u64, k: int)
    requires
        0 <= k,
    ensures
        4096 * k < len <==> k < (len + 4095) / 4096,
{
    assert(4096 * k < len <==> k < (len + 4095) / 4096) by (nonlinear_arith)
        requires
            0 <= k,
    ;
}

proof fn lemma_step_aligned(base: u64, k: int)
    requires
        0 <= k,
    ensures
        page_aligned(base + 4096 * k) == page_aligned(base as int),
{
    assert((base + 4096 * k) % 4096 == base % 4096) by (nonlinear_arith)
        requires
            0 <= k,
    ;
}

proof fn lemma_freed_pages_take(es: Seq<MemmapEntry>, i: int)
    requires
        0 <= i < es.len(),
    ensures
        freed_pages(es.take(i + 1)) == freed_pages(es.take(i)) + entry_pages(es[i]),
{
    assert(es.take(i + 1).drop_last() =~= es.take(i));
}

proof fn lemma_freed_pages_prefix(es: Seq<MemmapEntry>, i: int)
    requires
        0 <= i <= es.len(),
    ensures
        freed_pages(es.take(i)).len() <= freed_pages(es).len(),
        freed_pages(es) =~= freed_pages(es.take(i)) + freed_pages(es).subrange(
            freed_pages(es.take(i)).len() as int,
            freed_pages(es).len() as int,
        ),
    decreases es.len() - i,
{
    if i == es.len() {
        assert(es.take(i) =~= es);
    } else {
        lemma_freed_pages_prefix(es, i + 1);
        lemma_freed_pages_take(es, i);
    }
}

/// Frees every page of the usable entries of the memory map and returns the
/// number of whole usable pages.
pub fn pmm_init(freelist: &mut Freelist, memmap: &[MemmapEntry]) -> (usable_pages: u64)
    requires
        old(freelist).wf(),
        memmap_in_range(memmap@),
        usable_page_total(memmap@) <= u64::MAX,
        seq_distinct(old(freelist)@ + freed_pages(memmap@)),
        !freed_pages(memmap@).contains(0),
    ensures
        final(freelist).wf(),
        final(freelist)@ == old(freelist)@ + freed_pages(memmap@),
        usable_pages == usable_page_total(memmap@),
{
    let ghost start = freelist@;
    let ghost target = start + freed_pages(memmap@);
    let mut usable_pages: u64 = 0;
    let mut i: usize = 0;
    while i < memmap.len()
        invariant
            0 <= i <= memmap.len(),
            freelist.wf(),
            memmap_in_range(memmap@),
            usable_page_total(memmap@) <= u64::MAX,
            target == start + freed_pages(memmap@),
            seq_distinct(target),
            !freed_pages(memmap@).contains(0),
            freelist@ == start + freed_pages(memmap@.take(i as int)),
            usable_pages == usable_page_total(memmap@.take(i as int)),
        decreases memmap.len() - i,
    {
        let entry = memmap[i];
        proof {
            lemma_freed_pages_take(memmap@, i as int);
            lemma_freed_pages_prefix(memmap@, i as int + 1);
            assert(memmap@.take(i + 1).drop_last() =~= memmap@.take(i as int));
            lemma_usable_total_monotone(memmap@, i as int + 1);
        }
        assert(target.subrange(start.len() as int, target.len() as int) =~= freed_pages(memmap@));
        if entry.typ == MemoryMapEntryType::Usable {
            let end = entry.base + entry.len;
            let mut page = entry.base;
            let ghost before = freelist@;
            let ghost mut k: int = 0;
            let len = entry.len;
            assert(len >> 12 == len / 4096) by (bit_vector);
            usable_pages = usable_pages + (len >> 12);
            while page < end
                invariant
                    end == entry.base + entry.len,
                    entry.base + entry.len + 4096 <= u64::MAX,
                    entry == memmap@[i as int],
                    entry.typ == MemoryMapEntryType::Usable,
                    0 <= k <= entry_page_count(entry),
                    page == entry.base + 4096 * k,
                    freelist.wf(),
                    seq_distinct(target),
                    !target.subrange(start.len() as int, target.len() as int).contains(0),
                    start.len() <= before.len(),
                    before == start + freed_pages(memmap@.take(i as int)),
                    target =~= before + entry_pages(entry) + target.subrange(
                        (before.len() + entry_pages(entry).len()) as int,
                        target.len() as int,
                    ),
                    page_aligned(entry.base as int) ==> freelist@ == before + entry_pages(
                        entry,
                    ).take(k),
                    !page_aligned(entry.base as int) ==> freelist@ == before,
                decreases entry_page_count(entry) - k,
            {
                proof {
                    lemma_page_count(entry.len, k);
                    lemma_step_aligned(entry.base, k);
                }
                if page % PAGE_SIZE == 0 {
                    assert(page_aligned(entry.base as int));
                    let ghost m = freelist@.len();
                    assert(target[m as int] == page);
                    assert(page != 0) by {
                        let sub = target.subrange(start.len() as int, target.len() as int);
                        assert(sub[m - start.len()] == page);
                    }
                    assert(!freelist@.contains(page)) by {
                        if freelist@.contains(page) {
                            let j = choose|j: int| 0 <= j < freelist@.len() && freelist@[j] == page;
                            assert(target[j] == freelist@[j]);
                        }
                    }
                } else {
                    assert(!page_aligned(entry.base as int));
                }
                freelist.free(page);
                page = page + PAGE_SIZE;
                proof {
                    k = k + 1;
                    if page_aligned(entry.base as int) {
                        assert(entry_pages(entry).take(k) =~= entry_pages(entry).take(k - 1).push(
                            (page - 4096) as u64,
                        ));
                    }
                }
            }
            proof {
                lemma_page_count(entry.len, k);
                if page_aligned(entry.base as int) {
                    assert(entry_pages(entry).take(k) =~= entry_pages(entry));
                } else {
                    assert(entry_pages(entry) =~= Seq::<u64>::empty());
                }
            }
        } else {
            assert(entry_pages(entry) =~= Seq::<u64>::empty());
        }
        i = i + 1;
    }
    assert(memmap@.take(memmap@.len() as int) =~= memmap@);
    usable_pages
}

proof fn lemma_usable_total_monotone(es: Seq<MemmapEntry>, i: int)
    requires
        0 <= i <= es.len(),
    ensures
        0 <= usable_page_total(es.take(i)) <= usable_page_total(es),
    decreases es.len() - i,
{
    if i == es.len() {
        assert(es.take(i) =~= es);
        lemma_usable_total_nonneg(es);
    } else {
        lemma_usable_total_monotone(es, i + 1);
        assert(es.take(i + 1).drop_last() =~= es.take(i));
        lemma_usable_total_nonneg(es.take(i));
    }
}

proof fn lemma_usable_total_nonneg(es: Seq<MemmapEntry>)
    ensures
        0 <= usable_page_total(es),
    decreases es.len(),
{
    if es.len() > 0 {
        lemma_usable_total_nonneg(es.drop_last());
    }
}

/// The free list is a stack: after `free` of an aligned page, `allocate`
/// hands that very page back and leaves the free list as it was before.
pub proof fn lemma_free_then_allocate(free: Seq<u64>, page: u64)
    requires
        page_aligned(page as int),
    ensures
        free.push(page).len() > 0,
        free.push(page).last() == page,
        free.push(page).drop_last() == free,
{
    assert(free.push(page).drop_last() =~= free);
}

/// Every frame that `allocate` can hand out from a well-formed free list is a
/// page-aligned, non-null frame that is no longer on the list.
pub proof fn lemma_allocated_frame(free: Seq<u64>)
    requires
        all_valid_frames(free),
        seq_distinct(free),
        free.len() > 0,
    ensures
        valid_frame(free.last()),
        !free.drop_last().contains(free.last()),
{
    assert(valid_frame(free[free.len() - 1]));
    if free.drop_last().contains(free.last()) {
        let i = choose|i: int| 0 <= i < free.len() - 1 && free.drop_last()[i] == free.last();
        assert(free[i] == free[free.len() - 1]);
    }
}

/// The frames that `n` calls of `allocate` hand out, in order, from a free
/// list that nothing is freed to in between.
pub open spec fn allocations(free: Seq<u64>, n: nat) -> Seq<u64> {
    Seq::new(n, |i: int| free[free.len() - 1 - i])
}

/// No page is handed out twice: `n` allocations from a well-formed free list
/// give `n` different valid frames, none of which is still on the list, which
/// is then the first `len - n` frames of the old one.
pub proof fn lemma_allocations_distinct(free: Seq<u64>, n: nat)
    requires
        all_valid_frames(free),
        seq_distinct(free),
        n <= free.len(),
    ensures
        seq_distinct(allocations(free, n)),
        all_valid_frames(allocations(free, n)),
        forall|i: int|
            0 <= i < n ==> !free.take(free.len() - n).contains(#[trigger] allocations(free, n)[i]),
{
    let a = allocations(free, n);
    assert forall|i: int| 0 <= i < n implies #[trigger] valid_frame(a[i]) by {
        assert(valid_frame(free[free.len() - 1 - i]));
    }
    assert forall|i: int| 0 <= i < n implies !free.take(free.len() - n).contains(#[trigger] a[i]) by {
        if free.take(free.len() - n).contains(a[i]) {
            let j = choose|j: int| 0 <= j < free.len() - n && #[trigger] free.take(free.len() - n)[j] == a[i];
            assert(free[j] == free[free.len() - 1 - i]);
        }
    }
}

/// A page of a memory-map entry: `k` pages from its base, below its end.
pub open spec fn in_entry(e: MemmapEntry, k: int, p: int) -> bool {
    0 <= k && 4096 * k < e.len && p == e.base + 4096 * k
}

/// Address `p` is a page of a usable entry of `es`, a whole number of pages
/// from its base.
pub open spec fn usable_page(es: Seq<MemmapEntry>, p: int) -> bool {
    exists|j: int, k: int|
        0 <= j < es.len() && es[j].typ == MemoryMapEntryType::Usable && #[trigger] in_entry(
            es[j],
            k,
            p,
        )
}

/// Where a freed page comes from: the entry and the page within it.
proof fn lemma_freed_page_source(es: Seq<MemmapEntry>, i: int) -> (jk: (int, int))
    requires
        memmap_in_range(es),
        0 <= i < freed_pages(es).len(),
    ensures
        0 <= jk.0 < es.len(),
        es[jk.0].typ == MemoryMapEntryType::Usable,
        in_entry(es[jk.0], jk.1, freed_pages(es)[i] as int),
    decreases es.len(),
{
    let init = es.drop_last();
    let e = es.last();
    let f0 = freed_pages(init);
    assert(freed_pages(es) == f0 + entry_pages(e));
    if i < f0.len() {
        assert(memmap_in_range(init)) by {
            assert forall|q: int|
                0 <= q < init.len() && #[trigger] init[q].typ == MemoryMapEntryType::Usable implies init[q].base
                + init[q].len + 4096 <= u64::MAX by {
                assert(init[q] == es[q]);
            }
        }
        let (j, k) = lemma_freed_page_source(init, i);
        assert(es[j] == init[j]);
        (j, k)
    } else {
        let k = i - f0.len();
        assert(es[es.len() - 1] == e);
        lemma_page_count(e.len, k);
        ((es.len() - 1) as int, k)
    }
}

/// Initialisation frees only usable memory, and all of it: every page that
/// `pmm_init` puts on the free list lies in an entry of type `Usable`, at a
/// whole number of pages from its base; and every such page of a usable entry
/// with an aligned base is put on it. Entries of any other type free nothing.
pub proof fn lemma_pmm_frees_usable_memory(es: Seq<MemmapEntry>)
    requires
        memmap_in_range(es),
    ensures
        forall|i: int|
            0 <= i < freed_pages(es).len() ==> usable_page(es, #[trigger] freed_pages(es)[i] as int),
        forall|j: int, k: int|
            0 <= j < es.len() && es[j].typ == MemoryMapEntryType::Usable && page_aligned(
                es[j].base as int,
            ) && #[trigger] in_entry(es[j], k, es[j].base + 4096 * k) ==> freed_pages(es).contains(
                (es[j].base + 4096 * k) as u64,
            ),
{
    assert forall|i: int| 0 <= i < freed_pages(es).len() implies usable_page(
        es,
        #[trigger] freed_pages(es)[i] as int,
    ) by {
        let (j, k) = lemma_freed_page_source(es, i);
        assert(in_entry(es[j], k, freed_pages(es)[i] as int));
    }
    assert forall|j: int, k: int|
        0 <= j < es.len() && es[j].typ == MemoryMapEntryType::Usable && page_aligned(
            es[j].base as int,
        ) && #[trigger] in_entry(es[j], k, es[j].base + 4096 * k) implies freed_pages(es).contains(
        (es[j].base + 4096 * k) as u64,
    ) by {
        lemma_usable_page_freed(es, j, k);
    }
}

/// Every page of a usable entry with an aligned base is freed.
proof fn lemma_usable_page_freed(es: Seq<MemmapEntry>, j: int, k: int)
    requires
        memmap_in_range(es),
        0 <= j < es.len(),
        es[j].typ == MemoryMapEntryType::Usable,
        page_aligned(es[j].base as int),
        in_entry(es[j], k, es[j].base + 4096 * k),
    ensures
        freed_pages(es).contains((es[j].base + 4096 * k) as u64),
    decreases es.len(),
{
    let init = es.drop_last();
    let e = es.last();
    let f0 = freed_pages(init);
    assert(freed_pages(es) == f0 + entry_pages(e));
    if j < init.len() {
        assert(memmap_in_range(init)) by {
            assert forall|q: int|
                0 <= q < init.len() && #[trigger] init[q].typ == MemoryMapEntryType::Usable implies init[q].base
                + init[q].len + 4096 <= u64::MAX by {
                assert(init[q] == es[q]);
            }
        }
        assert(es[j] == init[j]);
        lemma_usable_page_freed(init, j, k);
        let q = choose|q: int| 0 <= q < f0.len() && f0[q] == (es[j].base + 4096 * k) as u64;
        assert(freed_pages(es)[q] == f0[q]);
    } else {
        assert(es[j] == e);
        lemma_page_count(e.len, k);
        assert(freed_pages(es)[f0.len() + k] == entry_pages(e)[k]);
    }
}

} // verus!

//! Virtual memory: four-level x86-64 page tables held in a model of physical
//! memory, and the walks that map and translate pages through them.
use vstd::prelude::*;

use std::collections::HashMap;
use vstd::std_specs::iter::IteratorSpec;

use crate::error::KernelError;
use crate::pmm::{Freelist, valid_frame, page_aligned, seq_distinct, all_valid_frames, PAGE_SIZE};

verus! {

broadcast use vstd::std_specs::hash::group_hash_axioms;

/// The contents of physical memory that the page tables are read from: each
/// table is identified by its frame address and maps to its level in the walk
/// (4 for the top table down to 1 for the last) and its entries.
pub type TableMap = Map<u64, (u8, Seq<u64>)>;

/// A page-table page of 512 entries and the level at which it is used.
pub struct PageTable {
    pub level: u8,
    pub entries: Vec<u64>,
}

/// Physical memory as the kernel touches it: page-table pages, and the bytes
/// that it has written into data frames (by byte address).
pub struct PhysMem {
    tables: HashMap<u64, PageTable>,
    bytes: HashMap<u64, u8>,
}

/// Every table has 512 entries and a level from 1 to 4.
pub open spec fn tables_wf(tables: TableMap) -> bool {
    forall|t: u64|
        #[trigger] tables.contains_key(t) ==> tables[t].1.len() == 512 && 1 <= tables[t].0 <= 4
}

/// `t` is a table of the given level.
pub open spec fn has_table(tables: TableMap, t: u64, level: u8) -> bool {
    tables.contains_key(t) && tables[t].0 == level
}

/// An entry is present when its lowest bit is set.
pub open spec fn present(e: u64) -> bool {
    e & 1 != 0
}

/// The frame address that an entry points to: the entry without its low
/// twelve flag bits.
pub open spec fn entry_addr(e: u64) -> u64 {
    e & !0xFFFu64
}

/// The index into the top table (bits 39 to 47 of the address).
pub open spec fn index4(page: u64) -> int {
    ((page >> 39u64) & 0x1FFu64) as int
}

/// The index into the level-3 table (bits 30 to 38 of the address).
pub open spec fn index3(page: u64) -> int {
    ((page >> 30u64) & 0x1FFu64) as int
}

/// The index into the level-2 table (bits 21 to 29 of the address).
pub open spec fn index2(page: u64) -> int {
    ((page >> 21u64) & 0x1FFu64) as int
}

/// The index into the level-1 table (bits 12 to 20 of the address).
pub open spec fn index1(page: u64) -> int {
    ((page >> 12u64) & 0x1FFu64) as int
}

/// The table that entry `i` of table `t` leads to, when that entry is present.
pub open spec fn next_table(tables: TableMap, t: u64, i: int) -> Option<u64> {
    let e = tables[t].1[i];
    if present(e) {
        Some(entry_addr(e))
    } else {
        None
    }
}

/// What translating `page` through the tables rooted at `pagemap` gives: the
/// level-1 entry, or `TranslatePage` when an upper entry is not present.
pub open spec fn translate_spec(tables: TableMap, pagemap: u64, page: u64) -> Result<
    u64,
    KernelError,
> {
    match next_table(tables, pagemap, index4(page)) {
        None => Err(KernelError::TranslatePage),
        Some(t3) => match next_table(tables, t3, index3(page)) {
            None => Err(KernelError::TranslatePage),
            Some(t2) => match next_table(tables, t2, index2(page)) {
                None => Err(KernelError::TranslatePage),
                Some(t1) => Ok(tables[t1].1[index1(page)]),
            },
        },
    }
}

/// Every table that translating `page` reads is held in memory at its level.
pub open spec fn translate_ok(tables: TableMap, pagemap: u64, page: u64) -> bool {
    &&& has_table(tables, pagemap, 4)
    &&& match next_table(tables, pagemap, index4(page)) {
        None => true,
        Some(t3) => {
            &&& has_table(tables, t3, 3)
            &&& match next_table(tables, t3, index3(page)) {
                None => true,
                Some(t2) => {
                    &&& has_table(tables, t2, 2)
                    &&& match next_table(tables, t2, index2(page)) {
                        None => true,
                        Some(t1) => has_table(tables, t1, 1),
                    }
                },
            }
        },
    }
}

/// Every table that mapping `page` reads is either null, which the walk
/// refuses, or held in memory at its level; the last table is never null.
pub open spec fn map_walk_ok(tables: TableMap, pagemap: u64, page: u64) -> bool {
    pagemap == 0 || {
        &&& has_table(tables, pagemap, 4)
        &&& match next_table(tables, pagemap, index4(page)) {
            None => true,
            Some(t3) => t3 == 0 || {
                &&& has_table(tables, t3, 3)
                &&& match next_table(tables, t3, index3(page)) {
                    None => true,
                    Some(t2) => t2 == 0 || {
                        &&& has_table(tables, t2, 2)
                        &&& match next_table(tables, t2, index2(page)) {
                            None => true,
                            Some(t1) => has_table(tables, t1, 1),
                        }
                    },
                }
            },
        }
    }
}

/// A table whose 512 entries are all zero.
pub open spec fn zero_entries() -> Seq<u64> {
    Seq::new(512, |j: int| 0u64)
}

/// One step of the mapping walk from entry `i` of table `t`: a null table
/// fails with `MapTo`; a present entry leads to its table; otherwise a frame is
/// taken from the free list, cleared, and entered with flags 7 (present,
/// writable, user).
pub open spec fn map_step_spec(free: Seq<u64>, tables: TableMap, t: u64, i: int) -> (
    Seq<u64>,
    TableMap,
    Result<u64, KernelError>,
) {
    if t == 0 {
        (free, tables, Err(KernelError::MapTo))
    } else if present(tables[t].1[i]) {
        (free, tables, Ok(entry_addr(tables[t].1[i])))
    } else if free.len() == 0 {
        (free, tables, Err(KernelError::AllocatePage))
    } else {
        let a = free.last();
        let m1 = tables.insert(a, ((tables[t].0 - 1) as u8, zero_entries()));
        let m2 = m1.insert(t, (m1[t].0, m1[t].1.update(i, a | 7)));
        (free.drop_last(), m2, Ok(entry_addr(a | 7)))
    }
}

/// Sets entry `i` of table `t` to `v`.
pub open spec fn set_entry(tables: TableMap, t: u64, i: int, v: u64) -> TableMap {
    tables.insert(t, (tables[t].0, tables[t].1.update(i, v)))
}

/// The whole mapping walk of `page` from `pagemap`: three steps, then the
/// level-1 entry is set to `frame | flags`, which is also the result.
pub open spec fn map_to_spec(
    free: Seq<u64>,
    tables: TableMap,
    pagemap: u64,
    page: u64,
    frame: u64,
    flags: u64,
) -> (Seq<u64>, TableMap, Result<u64, KernelError>) {
    let (f1, m1, r1) = map_step_spec(free, tables, pagemap, index4(page));
    match r1 {
        Err(e) => (f1, m1, Err(e)),
        Ok(t3) => {
            let (f2, m2, r2) = map_step_spec(f1, m1, t3, index3(page));
            match r2 {
                Err(e) => (f2, m2, Err(e)),
                Ok(t2) => {
                    let (f3, m3, r3) = map_step_spec(f2, m2, t2, index2(page));
                    match r3 {
                        Err(e) => (f3, m3, Err(e)),
                        Ok(t1) => (
                            f3,
                            set_entry(m3, t1, index1(page), frame | flags),
                            Ok(frame | flags),
                        ),
                    }
                },
            }
        },
    }
}

/// The frame address of the page that holds byte address `b`.
pub open spec fn frame_of(b: u64) -> u64 {
    b & !0xFFFu64
}

impl PhysMem {
    /// The page-table pages, by frame address.
    pub closed spec fn tables(&self) -> TableMap {
        self.tables@.map_values(|t: PageTable| (t.level, t.entries@))
    }

    /// The bytes written into data frames, by byte address.
    pub closed spec fn bytes(&self) -> Map<u64, u8> {
        self.bytes@
    }

    /// Every table has 512 entries and a level from 1 to 4, and no data byte
    /// lies in a table's frame.
    pub open spec fn wf(&self) -> bool {
        &&& tables_wf(self.tables())
        &&& forall|b: u64|
            #[trigger] self.bytes().contains_key(b) ==> !self.tables().contains_key(frame_of(b))
    }

    /// Memory holding no tables and no written bytes.
    pub fn new() -> (m: PhysMem)
        ensures
            m.wf(),
            m.tables() == Map::<u64, (u8, Seq<u64>)>::empty(),
            m.bytes() == Map::<u64, u8>::empty(),
    {
        let m = PhysMem { tables: HashMap::new(), bytes: HashMap::new() };
        assert(m.tables() =~= Map::<u64, (u8, Seq<u64>)>::empty());
        m
    }

    /// Entry `i` of table `t`.
    pub fn read_entry(&self, t: u64, i: usize) -> (e: u64)
        requires
            self.tables().contains_key(t),
            i < self.tables()[t].1.len(),
        ensures
            e == self.tables()[t].1[i as int],
    {
        let tbl = self.tables.get(&t).unwrap();
        tbl.entries[i]
    }

    /// The level of table `t`.
    pub fn table_level(&self, t: u64) -> (l: u8)
        requires
            self.tables().contains_key(t),
        ensures
            l == self.tables()[t].0,
    {
        self.tables.get(&t).unwrap().level
    }

    /// The byte written at address `b`, if any.
    pub fn read_byte(&self, b: u64) -> (r: Option<u8>)
        ensures
            r == (if self.bytes().contains_key(b) {
                Some(self.bytes()[b])
            } else {
                None
            }),
    {
        match self.bytes.get(&b) {
            Some(v) => Some(*v),
            None => None,
        }
    }

    /// The frames that hold page tables, each once, in no particular order.
    pub fn table_frames(&self) -> (v: Vec<u64>)
        ensures
            v@.to_set() == self.tables().dom(),
            v@.no_duplicates(),
    {
        let ghost ks = vstd::std_specs::hash::spec_keys_iter(&self.tables).remaining();
        let mut v: Vec<u64> = Vec::new();
        for k in it: self.tables.keys()
            invariant
                it.seq() == ks,
                v@.len() == it.index(),
                forall|j: int| 0 <= j < it.index() ==> v@[j] == *#[trigger] ks[j],
        {
            v.push(*k);
        }
        proof {
            assert(v@ =~= ks.unref());
            assert(self.tables().dom() =~= self.tables@.dom());
        }
        v
    }

    /// The addresses of the written bytes, each once, in no particular order.
    pub fn byte_addresses(&self) -> (v: Vec<u64>)
        ensures
            v@.to_set() == self.bytes().dom(),
            v@.no_duplicates(),
    {
        let ghost ks = vstd::std_specs::hash::spec_keys_iter(&self.bytes).remaining();
        let mut v: Vec<u64> = Vec::new();
        for k in it: self.bytes.keys()
            invariant
                it.seq() == ks,
                v@.len() == it.index(),
                forall|j: int| 0 <= j < it.index() ==> v@[j] == *#[trigger] ks[j],
        {
            v.push(*k);
        }
        proof {
            assert(v@ =~= ks.unref());
        }
        v
    }

    fn write_entry(&mut self, t: u64, i: usize, v: u64)
        requires
            old(self).tables().contains_key(t),
            i < old(self).tables()[t].1.len(),
        ensures
            final(self).tables() == set_entry(old(self).tables(), t, i as int, v),
            final(self).bytes() == old(self).bytes(),
    {
        let mut tbl = self.tables.remove(&t).unwrap();
        tbl.entries.set(i, v);
        self.tables.insert(t, tbl);
        assert(self.tables() =~= set_entry(old(self).tables(), t, i as int, v));
    }

    fn insert_table(&mut self, t: u64, level: u8, entries: Vec<u64>)
        ensures
            final(self).tables() == old(self).tables().insert(t, (level, entries@)),
            final(self).bytes() == old(self).bytes(),
    {
        self.tables.insert(t, PageTable { level, entries });
        assert(final(self).tables() =~= old(self).tables().insert(t, (level, entries@)));
    }

    fn write_byte(&mut self, b: u64, v: u8)
        ensures
            final(self).tables() == old(self).tables(),
            final(self).bytes() == old(self).bytes().insert(b, v),
    {
        self.bytes.insert(b, v);
    }
}

/// The frame allocator together with the memory that the page tables live in.
pub struct Machine {
    pub frames: Freelist,
    pub mem: PhysMem,
}

/// A state of the free list and the tables that the mapping walk may start
/// from: valid distinct free frames, well-formed tables, and no free frame
/// holding a table.
pub open spec fn state_wf(free: Seq<u64>, tables: TableMap) -> bool {
    &&& all_valid_frames(free)
    &&& seq_distinct(free)
    &&& tables_wf(tables)
    &&& forall|i: int| 0 <= i < free.len() ==> !tables.contains_key(#[trigger] free[i])
}

impl Machine {
    /// The free list and memory are well formed, and no free frame holds a
    /// table or a written byte.
    pub open spec fn wf(&self) -> bool {
        &&& self.frames.wf()
        &&& self.mem.wf()
        &&& state_wf(self.frames@, self.mem.tables())
        &&& forall|b: u64|
            #[trigger] self.mem.bytes().contains_key(b) ==> !self.frames@.contains(frame_of(b))
    }

    /// A machine whose free frames are `frames` and whose memory is empty.
    pub fn new(frames: Freelist) -> (m: Machine)
        requires
            frames.wf(),
        ensures
            m.wf(),
            m.frames@ == frames@,
            m.mem.tables() == Map::<u64, (u8, Seq<u64>)>::empty(),
            m.mem.bytes() == Map::<u64, u8>::empty(),
    {
        Machine { frames, mem: PhysMem::new() }
    }

    /// Places a page-table page of the given level at frame `t`, which must
    /// be neither free, nor a table already, nor hold written bytes.
    pub fn install_table(&mut self, t: u64, level: u8, entries: Vec<u64>)
        requires
            old(self).wf(),
            1 <= level <= 4,
            entries@.len() == 512,
            !old(self).frames@.contains(t),
            !old(self).mem.tables().contains_key(t),
            forall|b: u64| #[trigger] old(self).mem.bytes().contains_key(b) ==> frame_of(b) != t,
        ensures
            final(self).wf(),
            final(self).frames@ == old(self).frames@,
            final(self).mem.tables() == old(self).mem.tables().insert(t, (level, entries@)),
            final(self).mem.bytes() == old(self).mem.bytes(),
    {
        self.mem.insert_table(t, level, entries);
        assert forall|i: int| 0 <= i < self.frames@.len() implies !self.mem.tables().contains_key(
            #[trigger] self.frames@[i],
        ) by {
            assert(old(self).frames@.contains(self.frames@[i]));
        }
    }
}

/// A cleared entry is not present.
proof fn lemma_zero_not_present()
    ensures
        !present(0),
{
    assert(0u64 & 1u64 == 0) by (bit_vector);
}

/// The four indices of a walk are table indices.
pub proof fn lemma_index_bounds(page: u64)
    ensures
        0 <= index4(page) < 512,
        0 <= index3(page) < 512,
        0 <= index2(page) < 512,
        0 <= index1(page) < 512,
{
    assert((page >> 39u64) & 0x1FFu64 < 512) by (bit_vector);
    assert((page >> 30u64) & 0x1FFu64 < 512) by (bit_vector);
    assert((page >> 21u64) & 0x1FFu64 < 512) by (bit_vector);
    assert((page >> 12u64) & 0x1FFu64 < 512) by (bit_vector);
}

/// An entry made of a valid frame and flags 7 is present and leads back to
/// the frame.
proof fn lemma_fresh_entry(a: u64)
    requires
        valid_frame(a),
    ensures
        present(a | 7),
        entry_addr(a | 7) == a,
{
    assert(a % 4096 == 0 ==> (a | 7u64) & 1u64 != 0 && (a | 7u64) & !0xFFFu64 == a) by (bit_vector);
}


/// What one step of the mapping walk does to the state: it keeps the state
/// well formed; a present entry changes nothing; otherwise the top free frame
/// becomes a cleared table one level down, entered in the stepped table.
proof fn lemma_map_step(free: Seq<u64>, tables: TableMap, t: u64, i: int)
    requires
        state_wf(free, tables),
        0 <= i < 512,
        t == 0 || (tables.contains_key(t) && 2 <= tables[t].0),
    ensures
        ({
            let (f2, m2, r) = map_step_spec(free, tables, t, i);
            &&& state_wf(f2, m2)
            &&& r is Err ==> f2 == free && m2 == tables
            &&& r is Ok && present(tables[t].1[i]) ==> f2 == free && m2 == tables && r->Ok_0
                == entry_addr(tables[t].1[i])
            &&& r is Ok && !present(tables[t].1[i]) ==> {
                &&& free.len() > 0
                &&& r->Ok_0 == free.last()
                &&& f2 == free.drop_last()
                &&& !tables.contains_key(free.last())
                &&& m2 == tables.insert(free.last(), ((tables[t].0 - 1) as u8, zero_entries())).insert(
                    t,
                    (tables[t].0, tables[t].1.update(i, free.last() | 7)),
                )
                &&& has_table(m2, free.last(), (tables[t].0 - 1) as u8)
                &&& m2[free.last()].1 == zero_entries()
            }
        }),
{
    let (f2, m2, r) = map_step_spec(free, tables, t, i);
    if t != 0 && !present(tables[t].1[i]) && free.len() > 0 {
        let a = free.last();
        assert(valid_frame(free[free.len() - 1]));
        lemma_fresh_entry(a);
        assert(!tables.contains_key(free[free.len() - 1]));
        assert(a != t);
        let m1 = tables.insert(a, ((tables[t].0 - 1) as u8, zero_entries()));
        assert(m1[t] == tables[t]);
        assert forall|k: int| 0 <= k < f2.len() implies !m2.contains_key(#[trigger] f2[k]) by {
            assert(f2[k] == free[k]);
            assert(free[k] != free[free.len() - 1]);
        }
        assert forall|k: int| 0 <= k < f2.len() implies #[trigger] valid_frame(f2[k]) by {
            assert(f2[k] == free[k]);
        }
        assert(tables_wf(m2)) by {
            assert forall|u: u64| #[trigger] m2.contains_key(u) implies m2[u].1.len() == 512 && 1
                <= m2[u].0 <= 4 by {
                if u != a && u != t {
                    assert(tables.contains_key(u));
                }
            }
        }
    }
}

/// One step of the mapping walk from entry `entry` of the table at `pmlx`.
fn map_to_step(m: &mut Machine, pmlx: u64, entry: usize) -> (r: Result<u64, KernelError>)
    requires
        old(m).wf(),
        entry < 512,
        pmlx == 0 || (old(m).mem.tables().contains_key(pmlx) && 2 <= old(m).mem.tables()[pmlx].0),
    ensures
        final(m).wf(),
        (final(m).frames@, final(m).mem.tables(), r) == map_step_spec(
            old(m).frames@,
            old(m).mem.tables(),
            pmlx,
            entry as int,
        ),
        final(m).mem.bytes() == old(m).mem.bytes(),
{
    if pmlx == 0 {
        return Err(KernelError::MapTo);
    }
    let e = m.mem.read_entry(pmlx, entry);
    if e & 1 == 0 {
        let ghost free0 = m.frames@;
        let allocation = m.frames.allocate()?;
        proof {
            assert(free0.contains(allocation));
            lemma_fresh_entry(allocation);
        }
        let level = m.mem.table_level(pmlx);
        let zeros = vec![0u64; 512];
        assert(zeros@ =~= zero_entries());
        m.mem.insert_table(allocation, level - 1, zeros);
        m.mem.write_entry(pmlx, entry, allocation | 7);
        proof {
            assert(m.mem.tables() =~= map_step_spec(free0, old(m).mem.tables(), pmlx, entry as int).1);
            assert forall|i: int| 0 <= i < m.frames@.len() implies !m.mem.tables().contains_key(
                #[trigger] m.frames@[i],
            ) by {
                assert(free0[i] == m.frames@[i]);
                assert(m.frames@[i] != allocation);
            }
            assert forall|b: u64| #[trigger] m.mem.bytes().contains_key(b) implies !m.frames@.contains(
                frame_of(b),
            ) && !m.mem.tables().contains_key(frame_of(b)) by {
                assert(!free0.contains(frame_of(b)));
                if m.frames@.contains(frame_of(b)) {
                    let j = choose|j: int| 0 <= j < m.frames@.len() && m.frames@[j] == frame_of(b);
                    assert(free0[j] == m.frames@[j]);
                }
            }
        }
    }
    Ok(m.mem.read_entry(pmlx, entry) & !0xFFF)
}


/// Maps `page` in the address space rooted at `pagemap` to `frame` with
/// `flags`, creating missing intermediate tables from free frames, and returns
/// the entry written.
pub fn map_to(m: &mut Machine, pagemap: u64, page: u64, frame: u64, flags: u64) -> (r: Result<
    u64,
    KernelError,
>)
    requires
        old(m).wf(),
        map_walk_ok(old(m).mem.tables(), pagemap, page),
    ensures
        final(m).wf(),
        (final(m).frames@, final(m).mem.tables(), r) == map_to_spec(
            old(m).frames@,
            old(m).mem.tables(),
            pagemap,
            page,
            frame,
            flags,
        ),
        final(m).mem.bytes() == old(m).mem.bytes(),
{
    proof {
        lemma_index_bounds(page);
    }
    let pml4e = ((page >> 39) & 0x1FF) as usize;
    let pml3e = ((page >> 30) & 0x1FF) as usize;
    let pml2e = ((page >> 21) & 0x1FF) as usize;
    let pml1e = ((page >> 12) & 0x1FF) as usize;
    let ghost s0 = (m.frames@, m.mem.tables());
    proof {
        lemma_map_step(s0.0, s0.1, pagemap, pml4e as int);
    }
    let pml3 = map_to_step(m, pagemap, pml4e)?;
    let ghost s1 = (m.frames@, m.mem.tables());
    assert(pml3 == 0 || has_table(s1.1, pml3, 3));
    proof {
        lemma_map_step(s1.0, s1.1, pml3, pml3e as int);
        assert(pml4e as int == index4(page) && pml3e as int == index3(page) && pml2e as int == index2(
            page,
        ) && pml1e as int == index1(page));
        if present(s0.1[pagemap].1[pml4e as int]) {
            assert(next_table(s0.1, pagemap, index4(page)) == Some(pml3));
        } else {
            assert(s1.1[pml3].1 == zero_entries());
            lemma_zero_not_present();
            assert(!present(s1.1[pml3].1[pml3e as int]));
        }
    }
    let pml2 = map_to_step(m, pml3, pml3e)?;
    let ghost s2 = (m.frames@, m.mem.tables());
    assert(pml2 == 0 || has_table(s2.1, pml2, 2));
    proof {
        lemma_map_step(s2.0, s2.1, pml2, pml2e as int);
        if present(s1.1[pml3].1[pml3e as int]) {
            assert(present(s0.1[pagemap].1[pml4e as int]));
            assert(next_table(s0.1, pml3, index3(page)) == Some(pml2));
        } else {
            assert(s2.1[pml2].1 == zero_entries());
            lemma_zero_not_present();
            assert(!present(s2.1[pml2].1[pml2e as int]));
        }
    }
    let pml1 = map_to_step(m, pml2, pml2e)?;
    assert(has_table(m.mem.tables(), pml1, 1));
    m.mem.write_entry(pml1, pml1e, frame | flags);
    Ok(frame | flags)
}

/// One step of the translating walk: the table that entry `entry` of the
/// table at `pmlx` leads to, or `TranslatePage` when the entry is not present.
fn translate_page_step(mem: &PhysMem, pmlx: u64, entry: usize) -> (r: Result<u64, KernelError>)
    requires
        mem.tables().contains_key(pmlx),
        entry < mem.tables()[pmlx].1.len(),
    ensures
        r == (match next_table(mem.tables(), pmlx, entry as int) {
            None => Err(KernelError::TranslatePage),
            Some(t) => Ok::<u64, KernelError>(t),
        }),
{
    let e = mem.read_entry(pmlx, entry);
    if e & 1 == 0 {
        Err(KernelError::TranslatePage)
    } else {
        Ok(e & !0xFFF)
    }
}

/// The level-1 entry that `page` reaches from `pagemap`, or `TranslatePage`
/// when an upper entry on the way is not present.
pub fn translate_page(mem: &PhysMem, pagemap: u64, page: u64) -> (r: Result<u64, KernelError>)
    requires
        mem.wf(),
        translate_ok(mem.tables(), pagemap, page),
    ensures
        r == translate_spec(mem.tables(), pagemap, page),
{
    proof {
        lemma_index_bounds(page);
    }
    let pml4e = ((page >> 39) & 0x1FF) as usize;
    let pml3e = ((page >> 30) & 0x1FF) as usize;
    let pml2e = ((page >> 21) & 0x1FF) as usize;
    let pml1e = ((page >> 12) & 0x1FF) as usize;
    let pml3 = translate_page_step(mem, pagemap, pml4e)?;
    let pml2 = translate_page_step(mem, pml3, pml3e)?;
    let pml1 = translate_page_step(mem, pml2, pml2e)?;
    Ok(mem.read_entry(pml1, pml1e))
}

/// The top table of a new address space: all entries clear but the two that
/// it shares with `current`, the higher-half direct map (256) and the kernel
/// (511).
pub open spec fn new_pagemap_entries(current: Seq<u64>) -> Seq<u64> {
    zero_entries().update(256, current[256]).update(511, current[511])
}

/// What `create_address_space` does, as a function of the free list and
/// tables.
pub open spec fn create_address_space_spec(free: Seq<u64>, tables: TableMap, current: u64) -> (
    Seq<u64>,
    TableMap,
    Result<u64, KernelError>,
) {
    if free.len() == 0 {
        (free, tables, Err(KernelError::AllocatePage))
    } else {
        (
            free.drop_last(),
            tables.insert(free.last(), (4u8, new_pagemap_entries(tables[current].1))),
            Ok(free.last()),
        )
    }
}

/// Creates an address space that shares the higher-half direct map and the
/// kernel with the address space rooted at `current`, and returns its top
/// table.
pub fn create_address_space(m: &mut Machine, current: u64) -> (r: Result<u64, KernelError>)
    requires
        old(m).wf(),
        old(m).mem.tables().contains_key(current),
    ensures
        final(m).wf(),
        final(m).mem.bytes() == old(m).mem.bytes(),
        (final(m).frames@, final(m).mem.tables(), r) == create_address_space_spec(
            old(m).frames@,
            old(m).mem.tables(),
            current,
        ),
        old(m).frames@.len() == 0 ==> r == Err::<u64, KernelError>(KernelError::AllocatePage)
            && final(m).frames@ == old(m).frames@ && final(m).mem.tables() == old(m).mem.tables(),
        old(m).frames@.len() > 0 ==> r == Ok::<u64, KernelError>(old(m).frames@.last())
            && final(m).frames@ == old(m).frames@.drop_last() && final(m).mem.tables()
            == old(m).mem.tables().insert(
            old(m).frames@.last(),
            (4u8, new_pagemap_entries(old(m).mem.tables()[current].1)),
        ),
{
    let ghost free0 = m.frames@;
    let new_pagemap = m.frames.allocate()?;
    assert(free0.contains(new_pagemap));
    let mut entries = vec![0u64; 512];
    let hhdm_entry = m.mem.read_entry(current, 256);
    let kernel_entry = m.mem.read_entry(current, 511);
    entries.set(256, hhdm_entry);
    entries.set(511, kernel_entry);
    assert(entries@ =~= new_pagemap_entries(old(m).mem.tables()[current].1));
    m.mem.insert_table(new_pagemap, 4, entries);
    proof {
        assert forall|i: int| 0 <= i < m.frames@.len() implies !m.mem.tables().contains_key(
            #[trigger] m.frames@[i],
        ) by {
            assert(free0[i] == m.frames@[i]);
            assert(m.frames@[i] != new_pagemap);
        }
        assert forall|b: u64| #[trigger] m.mem.bytes().contains_key(b) implies !m.frames@.contains(
            frame_of(b),
        ) && !m.mem.tables().contains_key(frame_of(b)) by {
            assert(!free0.contains(frame_of(b)));
            if m.frames@.contains(frame_of(b)) {
                let j = choose|j: int| 0 <= j < m.frames@.len() && m.frames@[j] == frame_of(b);
                assert(free0[j] == m.frames@[j]);
            }
        }
    }
    Ok(new_pagemap)
}


/// The index that the walk for `page` uses in a table of the given level.
pub open spec fn level_index(page: u64, level: u8) -> int {
    if level == 4 {
        index4(page)
    } else if level == 3 {
        index3(page)
    } else if level == 2 {
        index2(page)
    } else {
        index1(page)
    }
}

/// Entry `e` is present and leads to a table of the given level that is new:
/// held in `tables2` but not in `tables`.
pub open spec fn fresh_link(tables: TableMap, tables2: TableMap, e: u64, level: u8) -> bool {
    &&& present(e)
    &&& !tables.contains_key(entry_addr(e))
    &&& has_table(tables2, entry_addr(e), level)
}

/// How a mapping of `page` may change the free list and the tables: frames
/// are only taken from the top of the free list; every table stays with its
/// level and size; an entry changes only at the index that the walk for
/// `page` uses at that level, and in a table of level 2 to 4 only from not
/// present to a link to a new table; every new table was a free frame and is
/// clear but for the entry at the walk's index, which in a table of level 2 to
/// 4 links to a new table.
pub open spec fn map_changes(
    free: Seq<u64>,
    tables: TableMap,
    free2: Seq<u64>,
    tables2: TableMap,
    page: u64,
) -> bool {
    &&& free2.len() <= free.len()
    &&& free2 == free.take(free2.len() as int)
    &&& forall|u: u64| #[trigger]
        tables.contains_key(u) ==> tables2.contains_key(u) && tables2[u].0 == tables[u].0
            && tables2[u].1.len() == tables[u].1.len()
    &&& forall|u: u64, j: int|
        tables.contains_key(u) && 0 <= j < tables[u].1.len() && #[trigger] tables2[u].1[j]
            != tables[u].1[j] ==> j == level_index(page, tables[u].0) && (tables[u].0 >= 2 ==> (
        !present(tables[u].1[j]) && fresh_link(
            tables,
            tables2,
            tables2[u].1[j],
            (tables[u].0 - 1) as u8,
        )))
    &&& forall|u: u64| #[trigger]
        tables2.contains_key(u) && !tables.contains_key(u) ==> {
            &&& free.contains(u)
            &&& 1 <= tables2[u].0 <= 4
            &&& tables2[u].1.len() == 512
            &&& forall|j: int|
                0 <= j < 512 && #[trigger] tables2[u].1[j] != 0 ==> j == level_index(
                    page,
                    tables2[u].0,
                ) && (tables2[u].0 >= 2 ==> fresh_link(
                    tables,
                    tables2,
                    tables2[u].1[j],
                    (tables2[u].0 - 1) as u8,
                ))
        }
}

proof fn lemma_map_changes_trans(
    f0: Seq<u64>,
    m0: TableMap,
    f1: Seq<u64>,
    m1: TableMap,
    f2: Seq<u64>,
    m2: TableMap,
    page: u64,
)
    requires
        map_changes(f0, m0, f1, m1, page),
        map_changes(f1, m1, f2, m2, page),
    ensures
        map_changes(f0, m0, f2, m2, page),
{
    assert(f2 =~= f0.take(f2.len() as int));
    assert forall|u: u64, j: int|
        m0.contains_key(u) && 0 <= j < m0[u].1.len() && #[trigger] m2[u].1[j] != m0[u].1[j] implies j
        == level_index(page, m0[u].0) && (m0[u].0 >= 2 ==> (!present(m0[u].1[j]) && fresh_link(
        m0,
        m2,
        m2[u].1[j],
        (m0[u].0 - 1) as u8,
    ))) by {
        if m1[u].1[j] != m0[u].1[j] {
            if m2[u].1[j] != m1[u].1[j] {
                assert(j == level_index(page, m1[u].0));
            } else {
                assert(m1.contains_key(entry_addr(m1[u].1[j])) || m0[u].0 < 2);
            }
        } else {
            assert(m2[u].1[j] != m1[u].1[j]);
        }
    }
    assert forall|u: u64| #[trigger] m2.contains_key(u) && !m0.contains_key(u) implies {
        &&& f0.contains(u)
        &&& 1 <= m2[u].0 <= 4
        &&& m2[u].1.len() == 512
        &&& forall|j: int|
            0 <= j < 512 && #[trigger] m2[u].1[j] != 0 ==> j == level_index(page, m2[u].0) && (
            m2[u].0 >= 2 ==> fresh_link(m0, m2, m2[u].1[j], (m2[u].0 - 1) as u8))
    } by {
        if m1.contains_key(u) {
            assert forall|j: int| 0 <= j < 512 && #[trigger] m2[u].1[j] != 0 implies j
                == level_index(page, m2[u].0) && (m2[u].0 >= 2 ==> fresh_link(
                m0,
                m2,
                m2[u].1[j],
                (m2[u].0 - 1) as u8,
            )) by {
                if m2[u].1[j] != m1[u].1[j] {
                } else {
                    assert(m1[u].1[j] != 0);
                }
            }
        } else {
            assert(f1.contains(u));
            let k = choose|k: int| 0 <= k < f1.len() && f1[k] == u;
            assert(f0[k] == u);
        }
    }
}

proof fn lemma_map_step_changes(free: Seq<u64>, tables: TableMap, t: u64, i: int, page: u64)
    requires
        state_wf(free, tables),
        0 <= i < 512,
        t == 0 || (tables.contains_key(t) && 2 <= tables[t].0 && i == level_index(page, tables[t].0)),
    ensures
        map_changes(
            free,
            tables,
            map_step_spec(free, tables, t, i).0,
            map_step_spec(free, tables, t, i).1,
            page,
        ),
{
    lemma_map_step(free, tables, t, i);
    lemma_zero_not_present();
    let (f2, m2, r) = map_step_spec(free, tables, t, i);
    if r is Ok && !present(tables[t].1[i]) {
        let a = free.last();
        lemma_fresh_entry(a);
        assert(f2 =~= free.take(f2.len() as int));
        assert(free.contains(free[free.len() - 1]));
        assert(m2[t].1[i] == a | 7);
        assert forall|u: u64| #[trigger] m2.contains_key(u) && !tables.contains_key(u) implies {
            &&& free.contains(u)
            &&& 1 <= m2[u].0 <= 4
            &&& m2[u].1.len() == 512
            &&& forall|j: int|
                0 <= j < 512 && #[trigger] m2[u].1[j] != 0 ==> j == level_index(page, m2[u].0) && (
                m2[u].0 >= 2 ==> fresh_link(tables, m2, m2[u].1[j], (m2[u].0 - 1) as u8))
        } by {
            assert(u == a);
        }
    } else {
        assert(f2 =~= free.take(f2.len() as int));
    }
}

/// What a mapping does to the free list and the tables, whatever its result:
/// the state stays well formed and changes only as `map_changes` allows.
pub proof fn lemma_map_to_changes(
    free: Seq<u64>,
    tables: TableMap,
    pagemap: u64,
    page: u64,
    frame: u64,
    flags: u64,
)
    requires
        state_wf(free, tables),
        map_walk_ok(tables, pagemap, page),
    ensures
        state_wf(
            map_to_spec(free, tables, pagemap, page, frame, flags).0,
            map_to_spec(free, tables, pagemap, page, frame, flags).1,
        ),
        map_changes(
            free,
            tables,
            map_to_spec(free, tables, pagemap, page, frame, flags).0,
            map_to_spec(free, tables, pagemap, page, frame, flags).1,
            page,
        ),
{
    lemma_index_bounds(page);
    lemma_zero_not_present();
    let i4 = index4(page);
    let i3 = index3(page);
    let i2 = index2(page);
    let i1 = index1(page);
    lemma_map_step(free, tables, pagemap, i4);
    lemma_map_step_changes(free, tables, pagemap, i4, page);
    let (f1, m1, r1) = map_step_spec(free, tables, pagemap, i4);
    if let Ok(t3) = r1 {
        if !present(tables[pagemap].1[i4]) {
            assert(m1[t3].1 == zero_entries());
        }
        lemma_map_step(f1, m1, t3, i3);
        lemma_map_step_changes(f1, m1, t3, i3, page);
        let (f2, m2, r2) = map_step_spec(f1, m1, t3, i3);
        lemma_map_changes_trans(free, tables, f1, m1, f2, m2, page);
        if let Ok(t2) = r2 {
            if !present(m1[t3].1[i3]) {
                assert(m2[t2].1 == zero_entries());
            } else {
                assert(present(tables[pagemap].1[i4]));
            }
            lemma_map_step(f2, m2, t2, i2);
            lemma_map_step_changes(f2, m2, t2, i2, page);
            let (f3, m3, r3) = map_step_spec(f2, m2, t2, i2);
            lemma_map_changes_trans(free, tables, f2, m2, f3, m3, page);
            if let Ok(t1) = r3 {
                if present(m2[t2].1[i2]) {
                    assert(present(m1[t3].1[i3]));
                    assert(present(tables[pagemap].1[i4]));
                }
                assert(has_table(m3, t1, 1));
                let m4 = set_entry(m3, t1, i1, frame | flags);
                assert(map_changes(f3, m3, f3, m4, page)) by {
                    assert(f3 =~= f3.take(f3.len() as int));
                }
                lemma_map_changes_trans(free, tables, f3, m3, f3, m4, page);
                assert(tables_wf(m4)) by {
                    assert forall|u: u64| #[trigger] m4.contains_key(u) implies m4[u].1.len() == 512
                        && 1 <= m4[u].0 <= 4 by {
                        assert(m3.contains_key(u));
                    }
                }
            }
        }
    }
}

/// Table `u` is one of the tables below `pagemap` that walking `page` reads.
pub open spec fn on_walk(tables: TableMap, pagemap: u64, page: u64, u: u64) -> bool {
    match next_table(tables, pagemap, index4(page)) {
        None => false,
        Some(t3) => t3 == u || match next_table(tables, t3, index3(page)) {
            None => false,
            Some(t2) => t2 == u || match next_table(tables, t2, index2(page)) {
                None => false,
                Some(t1) => t1 == u,
            },
        },
    }
}

/// Mapping a page writes only into the tables of its walk: every other table
/// keeps its entries.
pub proof fn lemma_map_keeps_unwalked(
    free: Seq<u64>,
    tables: TableMap,
    pagemap: u64,
    page: u64,
    frame: u64,
    flags: u64,
    u: u64,
)
    requires
        state_wf(free, tables),
        map_walk_ok(tables, pagemap, page),
        tables.contains_key(u),
        u != pagemap,
        !on_walk(tables, pagemap, page, u),
    ensures
        map_to_spec(free, tables, pagemap, page, frame, flags).1[u] == tables[u],
{
    lemma_index_bounds(page);
    lemma_zero_not_present();
    let i4 = index4(page);
    let i3 = index3(page);
    let i2 = index2(page);
    lemma_map_step(free, tables, pagemap, i4);
    let (f1, m1, r1) = map_step_spec(free, tables, pagemap, i4);
    if let Ok(t3) = r1 {
        assert(m1[u] == tables[u]);
        assert(t3 != u);
        if !present(tables[pagemap].1[i4]) {
            assert(m1[t3].1 == zero_entries());
        }
        lemma_map_step(f1, m1, t3, i3);
        let (f2, m2, r2) = map_step_spec(f1, m1, t3, i3);
        if let Ok(t2) = r2 {
            assert(m2[u] == tables[u]);
            if present(m1[t3].1[i3]) {
                assert(present(tables[pagemap].1[i4]));
                assert(m1[t3] == tables[t3]);
            }
            assert(t2 != u);
            if !present(m1[t3].1[i3]) {
                assert(m2[t2].1 == zero_entries());
            }
            lemma_map_step(f2, m2, t2, i2);
            let (f3, m3, r3) = map_step_spec(f2, m2, t2, i2);
            if let Ok(t1) = r3 {
                assert(m3[u] == tables[u]);
                if present(m2[t2].1[i2]) {
                    assert(present(m1[t3].1[i3]));
                    assert(present(tables[pagemap].1[i4]));
                    assert(m2[t2] == tables[t2]);
                }
                assert(t1 != u);
            }
        }
    }
}

/// Reading back a mapping: when mapping `page` succeeds, translating `page`
/// through the same address space gives the entry that the mapping wrote.
pub proof fn lemma_map_then_translate(
    free: Seq<u64>,
    tables: TableMap,
    pagemap: u64,
    page: u64,
    frame: u64,
    flags: u64,
)
    requires
        state_wf(free, tables),
        map_walk_ok(tables, pagemap, page),
        map_to_spec(free, tables, pagemap, page, frame, flags).2 is Ok,
    ensures
        translate_ok(map_to_spec(free, tables, pagemap, page, frame, flags).1, pagemap, page),
        translate_spec(map_to_spec(free, tables, pagemap, page, frame, flags).1, pagemap, page)
            == Ok::<u64, KernelError>(frame | flags),
{
    lemma_index_bounds(page);
    lemma_zero_not_present();
    let i4 = index4(page);
    let i3 = index3(page);
    let i2 = index2(page);
    let i1 = index1(page);
    lemma_map_step(free, tables, pagemap, i4);
    let (f1, m1, r1) = map_step_spec(free, tables, pagemap, i4);
    let t3 = r1->Ok_0;
    if !present(tables[pagemap].1[i4]) {
        lemma_fresh_entry(free.last());
        assert(m1[t3].1 == zero_entries());
    }
    assert(next_table(m1, pagemap, i4) == Some(t3));
    assert(has_table(m1, t3, 3));
    lemma_map_step(f1, m1, t3, i3);
    let (f2, m2, r2) = map_step_spec(f1, m1, t3, i3);
    let t2 = r2->Ok_0;
    if !present(m1[t3].1[i3]) {
        lemma_fresh_entry(f1.last());
        assert(m2[t2].1 == zero_entries());
    } else {
        assert(present(tables[pagemap].1[i4]));
    }
    assert(next_table(m2, pagemap, i4) == Some(t3));
    assert(next_table(m2, t3, i3) == Some(t2));
    assert(has_table(m2, t2, 2));
    lemma_map_step(f2, m2, t2, i2);
    let (f3, m3, r3) = map_step_spec(f2, m2, t2, i2);
    let t1 = r3->Ok_0;
    if !present(m2[t2].1[i2]) {
        lemma_fresh_entry(f2.last());
    } else {
        assert(present(m1[t3].1[i3]));
        assert(present(tables[pagemap].1[i4]));
    }
    assert(next_table(m3, pagemap, i4) == Some(t3));
    assert(next_table(m3, t3, i3) == Some(t2));
    assert(next_table(m3, t2, i2) == Some(t1));
    assert(has_table(m3, t1, 1));
    let m4 = set_entry(m3, t1, i1, frame | flags);
    assert(next_table(m4, pagemap, i4) == Some(t3));
    assert(next_table(m4, t3, i3) == Some(t2));
    assert(next_table(m4, t2, i2) == Some(t1));
}

/// Mapping a page leaves alone the translation of every other page that
/// already translated and whose level-1 entry sits at another index.
pub proof fn lemma_map_keeps_other_translations(
    free: Seq<u64>,
    tables: TableMap,
    pagemap: u64,
    page: u64,
    frame: u64,
    flags: u64,
    pagemap2: u64,
    page2: u64,
)
    requires
        state_wf(free, tables),
        map_walk_ok(tables, pagemap, page),
        translate_ok(tables, pagemap2, page2),
        translate_spec(tables, pagemap2, page2) is Ok,
        index1(page2) != index1(page),
    ensures
        translate_ok(map_to_spec(free, tables, pagemap, page, frame, flags).1, pagemap2, page2),
        translate_spec(map_to_spec(free, tables, pagemap, page, frame, flags).1, pagemap2, page2)
            == translate_spec(tables, pagemap2, page2),
{
    lemma_index_bounds(page2);
    lemma_map_to_changes(free, tables, pagemap, page, frame, flags);
    let m = map_to_spec(free, tables, pagemap, page, frame, flags).1;
    let t3 = entry_addr(tables[pagemap2].1[index4(page2)]);
    let t2 = entry_addr(tables[t3].1[index3(page2)]);
    let t1 = entry_addr(tables[t2].1[index2(page2)]);
    assert(m[pagemap2].1[index4(page2)] == tables[pagemap2].1[index4(page2)]);
    assert(m[t3].1[index3(page2)] == tables[t3].1[index3(page2)]);
    assert(m[t2].1[index2(page2)] == tables[t2].1[index2(page2)]);
    assert(m[t1].1[index1(page2)] == tables[t1].1[index1(page2)]);
}


/// The address space rooted at `pagemap`, abstractly: each page-aligned
/// virtual address whose walk reaches a present level-1 entry, mapped to that
/// entry (the frame and its flags).
pub open spec fn address_space_view(tables: TableMap, pagemap: u64) -> Map<u64, u64> {
    Map::new(
        |va: u64|
            va % 4096 == 0 && translate_ok(tables, pagemap, va) && translate_spec(
                tables,
                pagemap,
                va,
            ) is Ok && present(translate_spec(tables, pagemap, va)->Ok_0),
        |va: u64| translate_spec(tables, pagemap, va)->Ok_0,
    )
}

/// Mapping a page, seen on the abstract address space: when it succeeds with
/// a present entry, the page maps to that entry, and every page mapped before
/// at another level-1 index, in this or any address space, still maps to
/// what it did.
pub proof fn lemma_map_to_view(
    free: Seq<u64>,
    tables: TableMap,
    pagemap: u64,
    page: u64,
    frame: u64,
    flags: u64,
    root: u64,
    va: u64,
)
    requires
        state_wf(free, tables),
        map_walk_ok(tables, pagemap, page),
        map_to_spec(free, tables, pagemap, page, frame, flags).2 is Ok,
    ensures
        page % 4096 == 0 && present(frame | flags) ==> address_space_view(
            map_to_spec(free, tables, pagemap, page, frame, flags).1,
            pagemap,
        ).contains_key(page) && address_space_view(
            map_to_spec(free, tables, pagemap, page, frame, flags).1,
            pagemap,
        )[page] == frame | flags,
        address_space_view(tables, root).contains_key(va) && index1(va) != index1(page)
            ==> address_space_view(
            map_to_spec(free, tables, pagemap, page, frame, flags).1,
            root,
        ).contains_key(va) && address_space_view(
            map_to_spec(free, tables, pagemap, page, frame, flags).1,
            root,
        )[va] == address_space_view(tables, root)[va],
{
    lemma_map_then_translate(free, tables, pagemap, page, frame, flags);
    if address_space_view(tables, root).contains_key(va) && index1(va) != index1(page) {
        lemma_map_keeps_other_translations(free, tables, pagemap, page, frame, flags, root, va);
    }
}

/// The walk that a successful mapping builds, stated on the address bits: the
/// entry of the top table at bits 39 to 47 of `page` is present and leads to a
/// table whose entry at bits 30 to 38 is present, which leads to one whose
/// entry at bits 21 to 29 is present, which leads to the table whose entry at
/// bits 12 to 20 is `frame | flags`. No other entry of the top table changes.
pub proof fn lemma_map_to_walk(
    free: Seq<u64>,
    tables: TableMap,
    pagemap: u64,
    page: u64,
    frame: u64,
    flags: u64,
)
    requires
        state_wf(free, tables),
        map_walk_ok(tables, pagemap, page),
        map_to_spec(free, tables, pagemap, page, frame, flags).2 is Ok,
    ensures
        ({
            let m = map_to_spec(free, tables, pagemap, page, frame, flags).1;
            let e4 = m[pagemap].1[((page >> 39u64) & 0x1FFu64) as int];
            let e3 = m[e4 & !0xFFFu64].1[((page >> 30u64) & 0x1FFu64) as int];
            let e2 = m[e3 & !0xFFFu64].1[((page >> 21u64) & 0x1FFu64) as int];
            &&& e4 & 1u64 == 1u64
            &&& e3 & 1u64 == 1u64
            &&& e2 & 1u64 == 1u64
            &&& m[e2 & !0xFFFu64].1[((page >> 12u64) & 0x1FFu64) as int] == frame | flags
            &&& forall|j: int|
                0 <= j < 512 && j != ((page >> 39u64) & 0x1FFu64) as int ==> #[trigger] m[pagemap].1[j]
                    == tables[pagemap].1[j]
        }),
{
    lemma_map_then_translate(free, tables, pagemap, page, frame, flags);
    lemma_map_to_changes(free, tables, pagemap, page, frame, flags);
    lemma_index_bounds(page);
    let m = map_to_spec(free, tables, pagemap, page, frame, flags).1;
    assert(pagemap != 0);
    let e4 = m[pagemap].1[index4(page)];
    let e3 = m[entry_addr(e4)].1[index3(page)];
    let e2 = m[entry_addr(e3)].1[index2(page)];
    assert(forall|e: u64| (e & 1u64 != 0) == (e & 1u64 == 1u64)) by (bit_vector);
    assert(present(e4) && present(e3) && present(e2));
    assert forall|j: int|
        0 <= j < 512 && j != ((page >> 39u64) & 0x1FFu64) as int implies #[trigger] m[pagemap].1[j]
        == tables[pagemap].1[j] by {
        if m[pagemap].1[j] != tables[pagemap].1[j] {
            assert(level_index(page, tables[pagemap].0) == index4(page));
        }
    }
}

/// The offset of byte address `a` within its page.
pub open spec fn page_offset(a: u64) -> u64 {
    a & 0xFFFu64
}

/// `bytes` with the bytes of `image` placed from address `base` on.
pub open spec fn place_bytes(bytes: Map<u64, u8>, base: u64, image: Seq<u8>) -> Map<u64, u8> {
    Map::new(
        |a: u64| bytes.contains_key(a) || (base <= a < base + image.len()),
        |a: u64|
            if base <= a < base + image.len() {
                image[a - base]
            } else {
                bytes[a]
            },
    )
}

/// Copying an image that fits in one page to virtual address `dest`: an empty
/// image changes nothing; otherwise the top free frame is mapped at the page of
/// `dest` with flags 7 and the image is written into that frame at the offset
/// of `dest`.
pub open spec fn copy_image_spec(
    free: Seq<u64>,
    tables: TableMap,
    bytes: Map<u64, u8>,
    address_space: u64,
    image: Seq<u8>,
    dest: u64,
) -> (Seq<u64>, TableMap, Map<u64, u8>, Result<(), KernelError>) {
    if image.len() == 0 {
        (free, tables, bytes, Ok(()))
    } else if free.len() == 0 {
        (free, tables, bytes, Err(KernelError::AllocatePage))
    } else {
        let f = free.last();
        let (f2, m2, r) = map_to_spec(free.drop_last(), tables, address_space, frame_of(dest), f, 7);
        match r {
            Err(e) => (f2, m2, bytes, Err(e)),
            Ok(_) => (f2, m2, place_bytes(bytes, (f + page_offset(dest)) as u64, image), Ok(())),
        }
    }
}

/// A byte less than a page past a page-aligned frame lies in that frame.
proof fn lemma_in_frame(f: u64, x: u64)
    requires
        page_aligned(f as int),
        x < 4096,
    ensures
        f + x <= u64::MAX,
        frame_of((f + x) as u64) == f,
{
    assert(f % 4096 == 0 && x < 4096 ==> f + x <= 0xFFFF_FFFF_FFFF_FFFFu64 && ((f + x) as u64)
        & !0xFFFu64 == f) by (bit_vector);
}

/// Within one page, only the first byte is page aligned.
proof fn lemma_same_page(d: u64, num: u64)
    requires
        0 < num,
        (d & 0xFFFu64) + num < 4096,
    ensures
        d + num <= u64::MAX,
        (num + d) as u64 & 0xFFFu64 != 0,
{
    assert(0 < num && (d & 0xFFFu64) + num < 4096 ==> d + num <= 0xFFFF_FFFF_FFFF_FFFFu64 && (
    num + d) as u64 & 0xFFFu64 != 0) by (bit_vector);
}

/// Copies `image` into the address space at virtual address `dest`, taking
/// a fresh frame for the page that `dest` lies in. The image must fit in that
/// page.
pub fn copy_image_into_address_space(
    m: &mut Machine,
    address_space: u64,
    image: &[u8],
    dest: usize,
) -> (r: Result<(), KernelError>)
    requires
        old(m).wf(),
        page_offset(dest as u64) + image@.len() <= 4096,
        image@.len() > 0 ==> map_walk_ok(old(m).mem.tables(), address_space, frame_of(dest as u64)),
    ensures
        final(m).wf(),
        (final(m).frames@, final(m).mem.tables(), final(m).mem.bytes(), r) == copy_image_spec(
            old(m).frames@,
            old(m).mem.tables(),
            old(m).mem.bytes(),
            address_space,
            image@,
            dest as u64,
        ),
{
    let ghost free0 = m.frames@;
    let ghost tables0 = m.mem.tables();
    let ghost bytes0 = m.mem.bytes();
    let d = dest as u64;
    let mut num: u64 = 0;
    let mut frame: u64 = 0;
    let mut i: usize = 0;
    while i < image.len()
        invariant
            i <= image@.len(),
            num == i,
            free0 == old(m).frames@,
            tables0 == old(m).mem.tables(),
            bytes0 == old(m).mem.bytes(),
            d == dest as u64,
            page_offset(d) + image@.len() <= 4096,
            image@.len() > 0 ==> map_walk_ok(tables0, address_space, frame_of(d)),
            state_wf(free0, tables0),
            m.wf(),
            i == 0 ==> m.frames@ == free0 && m.mem.tables() == tables0 && m.mem.bytes() == bytes0,
            i > 0 ==> {
                let s = copy_image_spec(free0, tables0, bytes0, address_space, image@, d);
                &&& free0.len() > 0
                &&& frame == free0.last()
                &&& m.frames@ == s.0
                &&& m.mem.tables() == s.1
                &&& s.3 is Ok
                &&& m.mem.bytes() == place_bytes(
                    bytes0,
                    (frame + page_offset(d)) as u64,
                    image@.take(i as int),
                )
            },
        decreases image@.len() - i,
    {
        if num > 0 {
            proof {
                assert(d & 0xFFFu64 == page_offset(d));
                lemma_same_page(d, num);
            }
        }
        if num == 0 || (num + d) & 0xFFF == 0 {
            assert(num == 0);
            assert(image@.len() > 0);
            frame = m.frames.allocate()?;
            proof {
                assert(free0.contains(frame));
                assert(d & !0xFFFu64 == frame_of(d));
            }
            let ghost m_before = (m.frames@, m.mem.tables());
            map_to(m, address_space, (d & !0xFFF) + num, frame, 7)?;
            proof {
                lemma_map_to_changes(m_before.0, m_before.1, address_space, frame_of(d), frame, 7);
            }
        }
        proof {
            assert(valid_frame(free0[free0.len() - 1]));
            assert(d & 0xFFFu64 == page_offset(d));
            lemma_in_frame(frame, (num + page_offset(d)) as u64);
            let s = copy_image_spec(free0, tables0, bytes0, address_space, image@, d);
            let b = (frame + num + page_offset(d)) as u64;
            // the frame was free, so it holds no table and is free no longer
            assert(!tables0.contains_key(frame));
            assert(!s.1.contains_key(frame)) by {
                lemma_map_to_changes(free0.drop_last(), tables0, address_space, frame_of(d), frame, 7);
                if s.1.contains_key(frame) {
                    assert(free0.drop_last().contains(frame));
                    let k = choose|k: int| 0 <= k < free0.drop_last().len() && free0.drop_last()[k] == frame;
                    assert(free0[k] == free0[free0.len() - 1]);
                }
            }
            assert(!m.frames@.contains(frame)) by {
                if m.frames@.contains(frame) {
                    let k = choose|k: int| 0 <= k < m.frames@.len() && m.frames@[k] == frame;
                    lemma_map_to_changes(free0.drop_last(), tables0, address_space, frame_of(d), frame, 7);
                    assert(free0.drop_last()[k] == frame);
                    assert(free0[k] == free0[free0.len() - 1]);
                }
            }
        }
        m.mem.write_byte(frame + num + (d & 0xFFF), image[i]);
        proof {
            assert(m.mem.bytes() =~= place_bytes(
                bytes0,
                (frame + page_offset(d)) as u64,
                image@.take(i + 1),
            ));
        }
        num = num + 1;
        i = i + 1;
    }
    proof {
        if image@.len() > 0 {
            assert(image@.take(image@.len() as int) =~= image@);
        }
    }
    Ok(())
}


/// `t` is a table of the given level, and every present entry of a table above
/// level 1 leads to a well-formed table one level down.
pub open spec fn tree_ok(tables: TableMap, t: u64, level: u8) -> bool
    decreases level,
{
    &&& t != 0
    &&& has_table(tables, t, level)
    &&& level > 1 ==> forall|j: int|
        0 <= j < 512 && present(#[trigger] tables[t].1[j]) ==> tree_ok(
            tables,
            entry_addr(tables[t].1[j]),
            (level - 1) as u8,
        )
}

/// The lower half of the address space rooted at `pagemap`, the part that
/// holds user pages, is a well-formed tree of tables.
pub open spec fn user_tree_ok(tables: TableMap, pagemap: u64) -> bool {
    &&& pagemap != 0
    &&& has_table(tables, pagemap, 4)
    &&& forall|j: int|
        0 <= j < 256 && present(#[trigger] tables[pagemap].1[j]) ==> tree_ok(
            tables,
            entry_addr(tables[pagemap].1[j]),
            3,
        )
}

proof fn lemma_tree_kept(
    free: Seq<u64>,
    tables: TableMap,
    free2: Seq<u64>,
    tables2: TableMap,
    page: u64,
    t: u64,
    level: u8,
)
    requires
        tables_wf(tables),
        all_valid_frames(free),
        map_changes(free, tables, free2, tables2, page),
        1 <= level <= 4,
        (tables.contains_key(t) && tree_ok(tables, t, level)) || (!tables.contains_key(t)
            && has_table(tables2, t, level)),
    ensures
        tree_ok(tables2, t, level),
    decreases level,
{
    lemma_zero_not_present();
    if !tables.contains_key(t) {
        let k = choose|k: int| 0 <= k < free.len() && free[k] == t;
        assert(valid_frame(free[k]));
    }
    if level > 1 {
        assert forall|j: int| 0 <= j < 512 && present(#[trigger] tables2[t].1[j]) implies tree_ok(
            tables2,
            entry_addr(tables2[t].1[j]),
            (level - 1) as u8,
        ) by {
            let e2 = tables2[t].1[j];
            if tables.contains_key(t) {
                if e2 == tables[t].1[j] {
                    let c = entry_addr(e2);
                    assert(tree_ok(tables, c, (level - 1) as u8));
                    lemma_tree_kept(free, tables, free2, tables2, page, c, (level - 1) as u8);
                } else {
                    lemma_tree_kept(
                        free,
                        tables,
                        free2,
                        tables2,
                        page,
                        entry_addr(e2),
                        (level - 1) as u8,
                    );
                }
            } else {
                assert(e2 != 0);
                lemma_tree_kept(
                    free,
                    tables,
                    free2,
                    tables2,
                    page,
                    entry_addr(e2),
                    (level - 1) as u8,
                );
            }
        }
    }
}

/// Mapping a page keeps well-formed trees of tables well formed: every table
/// that was a well-formed tree before is one afterwards, and so is the lower
/// half of every address space whose lower half was.
pub proof fn lemma_map_keeps_trees(
    free: Seq<u64>,
    tables: TableMap,
    pagemap: u64,
    page: u64,
    frame: u64,
    flags: u64,
    root: u64,
)
    requires
        state_wf(free, tables),
        map_walk_ok(tables, pagemap, page),
        user_tree_ok(tables, root),
    ensures
        user_tree_ok(map_to_spec(free, tables, pagemap, page, frame, flags).1, root),
{
    lemma_map_to_changes(free, tables, pagemap, page, frame, flags);
    let (f2, m2, r) = map_to_spec(free, tables, pagemap, page, frame, flags);
    assert forall|j: int| 0 <= j < 256 && present(#[trigger] m2[root].1[j]) implies tree_ok(
        m2,
        entry_addr(m2[root].1[j]),
        3,
    ) by {
        if m2[root].1[j] == tables[root].1[j] {
            lemma_tree_kept(free, tables, f2, m2, page, entry_addr(m2[root].1[j]), 3);
        } else {
            lemma_tree_kept(free, tables, f2, m2, page, entry_addr(m2[root].1[j]), 3);
        }
    }
}

/// The tables that the walk for `page` leads to along present entries are
/// none of them null.
pub open spec fn walk_nonnull(tables: TableMap, pagemap: u64, page: u64) -> bool {
    &&& pagemap != 0
    &&& match next_table(tables, pagemap, index4(page)) {
        None => true,
        Some(t3) => t3 != 0 && match next_table(tables, t3, index3(page)) {
            None => true,
            Some(t2) => t2 != 0,
        },
    }
}

/// Walking a user page through a well-formed lower half only meets non-null
/// tables of the expected levels.
pub proof fn lemma_user_tree_walks(tables: TableMap, pagemap: u64, page: u64)
    requires
        user_tree_ok(tables, pagemap),
        index4(page) < 256,
    ensures
        map_walk_ok(tables, pagemap, page),
        translate_ok(tables, pagemap, page),
        walk_nonnull(tables, pagemap, page),
{
    lemma_index_bounds(page);
    match next_table(tables, pagemap, index4(page)) {
        None => {},
        Some(t3) => {
            assert(tree_ok(tables, t3, 3));
            match next_table(tables, t3, index3(page)) {
                None => {},
                Some(t2) => {
                    assert(tree_ok(tables, t2, 2));
                    match next_table(tables, t2, index2(page)) {
                        None => {},
                        Some(t1) => {
                            assert(tree_ok(tables, t1, 1));
                        },
                    }
                },
            }
        },
    }
}


/// The address at which the kernel reaches physical address `addr` through
/// the higher-half direct map, which starts at virtual address `offset`.
pub fn hhdm(addr: usize, offset: usize) -> (r: usize)
    requires
        addr + offset <= usize::MAX,
    ensures
        r == addr + offset,
{
    addr + offset
}

/// The same translation as `hhdm`, for an address that is written through.
pub fn hhdm_mut(addr: usize, offset: usize) -> (r: usize)
    requires
        addr + offset <= usize::MAX,
    ensures
        r == addr + offset,
{
    addr + offset
}


/// The number of tables that mapping `page` has to create: one for each level
/// from the first entry on the walk that is not present down to level 1.
pub open spec fn missing_tables(tables: TableMap, pagemap: u64, page: u64) -> nat {
    match next_table(tables, pagemap, index4(page)) {
        None => 3,
        Some(t3) => match next_table(tables, t3, index3(page)) {
            None => 2,
            Some(t2) => match next_table(tables, t2, index2(page)) {
                None => 1,
                Some(_) => 0,
            },
        },
    }
}

/// A mapping through non-null tables succeeds exactly when the free list holds
/// a frame for every missing table, and then takes exactly those frames from
/// the top of the free list; otherwise it fails with `AllocatePage` having
/// used up the free list.
pub proof fn lemma_map_to_frames(
    free: Seq<u64>,
    tables: TableMap,
    pagemap: u64,
    page: u64,
    frame: u64,
    flags: u64,
)
    requires
        state_wf(free, tables),
        map_walk_ok(tables, pagemap, page),
        walk_nonnull(tables, pagemap, page),
    ensures
        ({
            let (f2, m2, r) = map_to_spec(free, tables, pagemap, page, frame, flags);
            let k = missing_tables(tables, pagemap, page);
            &&& free.len() >= k ==> r == Ok::<u64, KernelError>(frame | flags) && f2 == free.take(
                free.len() - k,
            )
            &&& free.len() < k ==> r == Err::<u64, KernelError>(KernelError::AllocatePage)
                && f2.len() == 0
        }),
{
    lemma_index_bounds(page);
    lemma_zero_not_present();
    let i4 = index4(page);
    let i3 = index3(page);
    let i2 = index2(page);
    lemma_map_step(free, tables, pagemap, i4);
    let (f1, m1, r1) = map_step_spec(free, tables, pagemap, i4);
    if r1 is Err {
        return;
    }
    let t3 = r1->Ok_0;
    if !present(tables[pagemap].1[i4]) {
        lemma_fresh_entry(free.last());
        assert(valid_frame(free[free.len() - 1]));
    }
    lemma_map_step(f1, m1, t3, i3);
    let (f2, m2, r2) = map_step_spec(f1, m1, t3, i3);
    if r2 is Err {
        return;
    }
    let t2 = r2->Ok_0;
    if !present(m1[t3].1[i3]) {
        lemma_fresh_entry(f1.last());
        assert(valid_frame(f1[f1.len() - 1]));
    } else {
        assert(present(tables[pagemap].1[i4]));
    }
    lemma_map_step(f2, m2, t2, i2);
    let (f3, m3, r3) = map_step_spec(f2, m2, t2, i2);
    let n = free.len() as int;
    if present(tables[pagemap].1[i4]) {
        assert(f1 =~= free.take(n));
        if present(m1[t3].1[i3]) {
            assert(f2 =~= free.take(n));
            if present(m2[t2].1[i2]) {
                assert(f3 =~= free.take(n));
            } else if r3 is Ok {
                assert(f3 =~= free.take(n - 1));
            }
        } else if present(m2[t2].1[i2]) {
            assert(m2[t2].1 == zero_entries());
        } else if r3 is Ok {
            assert(f3 =~= free.take(n - 2));
        }
    } else {
        assert(m1[t3].1 == zero_entries());
        assert(!present(m1[t3].1[i3]));
        assert(m2[t2].1 == zero_entries());
        if r3 is Ok {
            assert(f3 =~= free.take(n - 3));
        }
    }
}

} // verus!

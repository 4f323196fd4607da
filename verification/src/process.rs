//! Processes: building a process's address space, stack and image, and the
//! round-robin ring of processes that the timer interrupt switches between.
use vstd::prelude::*;

use crate::error::KernelError;
use crate::pmm::{valid_frame, all_valid_frames, seq_distinct};
use crate::vmm::{
    Machine, TableMap, map_to, map_to_spec, create_address_space, copy_image_into_address_space,
    copy_image_spec, new_pagemap_entries, state_wf, user_tree_ok, tree_ok, has_table, present,
    entry_addr, index4, index3, index2, index1, frame_of, translate_ok, translate_spec,
    map_walk_ok, create_address_space_spec, lemma_map_keeps_trees, lemma_user_tree_walks, lemma_map_to_changes,
    lemma_map_then_translate, lemma_map_keeps_other_translations, zero_entries, missing_tables,
    next_table, lemma_map_to_frames, on_walk, lemma_map_keeps_unwalked, fresh_link,
};

verus! {

/// The virtual page at which every process sees its own `Process` record.
pub const PROCESS_INFO_PAGE: u64 = 0x40000;

/// The virtual address at which a process image is loaded and started.
pub const ENTRY_POINT: u64 = 0x80000;

/// The top page of a process's stack, just below the 512 GiB boundary.
pub const STACK_TOP: u64 = 0x7F_FFFF_F000;

/// The number of pages of a process's stack.
pub const STACK_PAGES: u64 = 8;

/// The saved state of a process: its sixteen general registers (in the order
/// rax, rbx, rcx, rdx, rsi, rdi, rbp, rsp, r8 to r15), the instruction pointer
/// to resume at, and the top table of its address space.
#[derive(Clone, Copy)]
pub struct Process {
    pub registers: [u64; 16],
    pub instruction_pointer: u64,
    pub address_space: u64,
}

/// The registers of a new process: all clear but the stack pointer, which
/// points at the top stack page.
pub open spec fn initial_registers() -> Seq<u64> {
    Seq::new(16, |i: int| if i == 7 { STACK_TOP } else { 0u64 })
}

/// The `k`-th stack page, counting down from the top.
pub open spec fn stack_page(k: int) -> u64 {
    (STACK_TOP - k * 0x1000) as u64
}

/// Mapping the first `k` stack pages, each to a frame taken from the free
/// list just before, with flags 7.
pub open spec fn map_stack_spec(free: Seq<u64>, tables: TableMap, address_space: u64, k: nat) -> (
    Seq<u64>,
    TableMap,
    Result<(), KernelError>,
)
    decreases k,
{
    if k == 0 {
        (free, tables, Ok(()))
    } else {
        let (f1, m1, r1) = map_stack_spec(free, tables, address_space, (k - 1) as nat);
        if r1 is Err {
            (f1, m1, r1)
        } else if f1.len() == 0 {
            (f1, m1, Err(KernelError::AllocatePage))
        } else {
            let (f2, m2, r2) = map_to_spec(
                f1.drop_last(),
                m1,
                address_space,
                stack_page(k - 1),
                f1.last(),
                7,
            );
            (
                f2,
                m2,
                match r2 {
                    Ok(_) => Ok(()),
                    Err(e) => Err(e),
                },
            )
        }
    }
}

/// Setting up a process: a new address space that shares the kernel half of
/// `current`, the image copied to the entry point, a frame for the process
/// record mapped at the process info page with flags 3, and the stack pages.
/// The result is the address space and the frame of the process record.
pub open spec fn setup_spec(
    free: Seq<u64>,
    tables: TableMap,
    bytes: Map<u64, u8>,
    current: u64,
    image: Seq<u8>,
) -> (Seq<u64>, TableMap, Map<u64, u8>, Result<(u64, u64), KernelError>) {
    let (f1, m1, r1) = create_address_space_spec(free, tables, current);
    match r1 {
        Err(e) => (f1, m1, bytes, Err(e)),
        Ok(space) => {
            let (f2, m2, b2, r2) = copy_image_spec(f1, m1, bytes, space, image, ENTRY_POINT);
            match r2 {
                Err(e) => (f2, m2, b2, Err(e)),
                Ok(_) => if f2.len() == 0 {
                    (f2, m2, b2, Err(KernelError::AllocatePage))
                } else {
                    let p = f2.last();
                    let (f3, m3, r3) = map_to_spec(
                        f2.drop_last(),
                        m2,
                        space,
                        PROCESS_INFO_PAGE,
                        p,
                        3,
                    );
                    match r3 {
                        Err(e) => (f3, m3, b2, Err(e)),
                        Ok(_) => {
                            let (f4, m4, r4) = map_stack_spec(f3, m3, space, 8);
                            match r4 {
                                Err(e) => (f4, m4, b2, Err(e)),
                                Ok(_) => (f4, m4, b2, Ok((space, p))),
                            }
                        },
                    }
                },
            }
        },
    }
}

/// The entry point is the start of its page.
proof fn lemma_entry_point_page()
    ensures
        frame_of(ENTRY_POINT) == ENTRY_POINT,
        crate::vmm::page_offset(ENTRY_POINT) == 0,
{
    assert(0x80000u64 & !0xFFFu64 == 0x80000u64 && 0x80000u64 & 0xFFFu64 == 0) by (bit_vector);
}

/// Every page below 512 GiB is walked through entry 0 of the top table.
proof fn lemma_low_page_index(page: u64)
    requires
        page < 0x80_0000_0000,
    ensures
        index4(page) == 0,
{
    assert(page < 0x80_0000_0000u64 ==> (page >> 39u64) & 0x1FFu64 == 0) by (bit_vector);
}

/// A new address space has an empty lower half.
proof fn lemma_new_space_tree(tables: TableMap, space: u64, current: Seq<u64>)
    requires
        space != 0,
        has_table(tables, space, 4),
        tables[space].1 == new_pagemap_entries(current),
    ensures
        user_tree_ok(tables, space),
{
    assert(!present(0)) by {
        assert(0u64 & 1u64 == 0) by (bit_vector);
    }
    assert forall|j: int| 0 <= j < 256 implies !present(#[trigger] tables[space].1[j]) by {
        assert(tables[space].1[j] == 0);
    }
}

/// Copies a process image to the entry point of `address_space` and returns
/// the entry point.
pub fn load_process_image(m: &mut Machine, address_space: u64, image: &[u8]) -> (r: Result<
    u64,
    KernelError,
>)
    requires
        old(m).wf(),
        image@.len() <= 4096,
        image@.len() > 0 ==> map_walk_ok(old(m).mem.tables(), address_space, ENTRY_POINT),
    ensures
        final(m).wf(),
        ({
            let s = copy_image_spec(
                old(m).frames@,
                old(m).mem.tables(),
                old(m).mem.bytes(),
                address_space,
                image@,
                ENTRY_POINT,
            );
            &&& (final(m).frames@, final(m).mem.tables(), final(m).mem.bytes()) == (s.0, s.1, s.2)
            &&& r == match s.3 {
                Ok(_) => Ok::<u64, KernelError>(ENTRY_POINT),
                Err(e) => Err(e),
            }
        }),
{
    let entry_point = ENTRY_POINT;
    proof {
        lemma_entry_point_page();
    }
    copy_image_into_address_space(m, address_space, image, entry_point as usize)?;
    Ok(entry_point)
}


/// Once mapping the stack has failed, mapping further pages changes nothing.
proof fn lemma_stack_err_stays(free: Seq<u64>, tables: TableMap, space: u64, k: nat, k2: nat)
    requires
        k <= k2,
        map_stack_spec(free, tables, space, k).2 is Err,
    ensures
        map_stack_spec(free, tables, space, k2) == map_stack_spec(free, tables, space, k),
    decreases k2 - k,
{
    if k < k2 {
        lemma_stack_err_stays(free, tables, space, k, (k2 - 1) as nat);
    }
}

/// Every stack page lies below 512 GiB.
proof fn lemma_stack_page_low(k: int)
    requires
        0 <= k < 8,
    ensures
        stack_page(k) < 0x80_0000_0000,
        index4(stack_page(k)) == 0,
{
    lemma_low_page_index(stack_page(k));
}

/// Sets up a process from `image`: a new address space sharing the kernel
/// half of the address space rooted at `current`, the image at the entry
/// point, the process record's frame mapped at the process info page, and
/// eight stack pages below `STACK_TOP`. Returns the frame of the record and
/// the record itself.
pub fn create_process_setup(m: &mut Machine, current: u64, image: &[u8]) -> (r: Result<
    (u64, Process),
    KernelError,
>)
    requires
        old(m).wf(),
        old(m).mem.tables().contains_key(current),
        image@.len() <= 4096,
    ensures
        final(m).wf(),
        ({
            let s = setup_spec(
                old(m).frames@,
                old(m).mem.tables(),
                old(m).mem.bytes(),
                current,
                image@,
            );
            &&& (final(m).frames@, final(m).mem.tables(), final(m).mem.bytes()) == (s.0, s.1, s.2)
            &&& match r {
                Ok((frame, process)) => {
                    &&& s.3 == Ok::<(u64, u64), KernelError>((process.address_space, frame))
                    &&& process.registers@ == initial_registers()
                    &&& process.instruction_pointer == ENTRY_POINT
                },
                Err(e) => s.3 == Err::<(u64, u64), KernelError>(e),
            }
        }),
{
    let ghost f0 = m.frames@;
    let ghost m0 = m.mem.tables();
    let ghost b0 = m.mem.bytes();
    let address_space = create_address_space(m, current)?;
    proof {
        assert(valid_frame(f0[f0.len() - 1]));
        lemma_new_space_tree(m.mem.tables(), address_space, m0[current].1);
        lemma_low_page_index(ENTRY_POINT);
        lemma_entry_point_page();
        lemma_user_tree_walks(m.mem.tables(), address_space, ENTRY_POINT);
    }
    let ghost f1 = m.frames@;
    let ghost m1 = m.mem.tables();
    let entry_point = load_process_image(m, address_space, image)?;
    let ghost f2 = m.frames@;
    let ghost m2 = m.mem.tables();
    let ghost b2 = m.mem.bytes();
    proof {
        let s = copy_image_spec(f1, m1, b0, address_space, image@, ENTRY_POINT);
        if image@.len() > 0 && f1.len() > 0 {
            lemma_map_keeps_trees(
                f1.drop_last(),
                m1,
                address_space,
                frame_of(ENTRY_POINT),
                f1.last(),
                7,
                address_space,
            );
        }
        lemma_low_page_index(PROCESS_INFO_PAGE);
        lemma_user_tree_walks(m2, address_space, PROCESS_INFO_PAGE);
    }
    let process = m.frames.allocate()?;
    let registers: [u64; 16] = [0, 0, 0, 0, 0, 0, 0, STACK_TOP, 0, 0, 0, 0, 0, 0, 0, 0];
    let record = Process { registers, instruction_pointer: entry_point, address_space };
    assert(record.registers@ =~= initial_registers());
    let ghost f2a = m.frames@;
    map_to(m, address_space, PROCESS_INFO_PAGE, process, 3)?;
    let ghost f3 = m.frames@;
    let ghost m3 = m.mem.tables();
    proof {
        lemma_map_keeps_trees(
            f2a,
            m2,
            address_space,
            PROCESS_INFO_PAGE,
            process,
            3,
            address_space,
        );
    }
    let mut i: u64 = 0;
    while i < STACK_PAGES
        invariant
            i <= STACK_PAGES,
            m.wf(),
            user_tree_ok(m.mem.tables(), address_space),
            m.mem.bytes() == b2,
            (m.frames@, m.mem.tables(), Ok::<(), KernelError>(())) == map_stack_spec(
                f3,
                m3,
                address_space,
                i as nat,
            ),
            setup_spec(f0, m0, b0, current, image@) == ({
                let s4 = map_stack_spec(f3, m3, address_space, 8);
                match s4.2 {
                    Err(e) => (s4.0, s4.1, b2, Err::<(u64, u64), KernelError>(e)),
                    Ok(_) => (s4.0, s4.1, b2, Ok::<(u64, u64), KernelError>((address_space, process))),
                }
            }),
            f0 == old(m).frames@,
            m0 == old(m).mem.tables(),
            b0 == old(m).mem.bytes(),
        decreases STACK_PAGES - i,
    {
        proof {
            lemma_stack_page_low(i as int);
            lemma_user_tree_walks(m.mem.tables(), address_space, stack_page(i as int));
        }
        let ghost fa = m.frames@;
        let ghost ma = m.mem.tables();
        let frame = match m.frames.allocate() {
            Ok(f) => f,
            Err(e) => {
                proof {
                    lemma_stack_err_stays(f3, m3, address_space, (i + 1) as nat, 8);
                }
                return Err(e);
            },
        };
        let ghost fb = m.frames@;
        let page = STACK_TOP - i * 0x1000;
        assert(page == stack_page(i as int));
        match map_to(m, address_space, page, frame, 7) {
            Ok(_) => {},
            Err(e) => {
                proof {
                    lemma_stack_err_stays(f3, m3, address_space, (i + 1) as nat, 8);
                }
                return Err(e);
            },
        }
        proof {
            lemma_map_keeps_trees(fb, ma, address_space, page, frame, 7, address_space);
        }
        i = i + 1;
    }
    Ok((process, record))
}


/// The ring of processes that the timer switches between. The view lists each
/// process with the frame of its record and the frame of its ring node, in
/// ring order from the current process: the first entry is the process that
/// runs, and each entry is followed by the next one to run.
pub struct ProcessList {
    ring: Vec<(Process, u64, u64)>,
}

impl View for ProcessList {
    type V = Seq<(Process, u64, u64)>;

    closed spec fn view(&self) -> Seq<(Process, u64, u64)> {
        self.ring@
    }
}

/// The ring after switching to the next process: the current process moves to
/// the end.
pub open spec fn rotate(s: Seq<(Process, u64, u64)>) -> Seq<(Process, u64, u64)> {
    if s.len() == 0 {
        s
    } else {
        s.drop_first().push(s[0])
    }
}

/// The ring after `k` switches.
pub open spec fn rotate_n(s: Seq<(Process, u64, u64)>, k: nat) -> Seq<(Process, u64, u64)>
    decreases k,
{
    if k == 0 {
        s
    } else {
        rotate(rotate_n(s, (k - 1) as nat))
    }
}

impl ProcessList {
    /// A ring with no process.
    pub fn new() -> (l: ProcessList)
        ensures
            l@ == Seq::<(Process, u64, u64)>::empty(),
    {
        ProcessList { ring: Vec::new() }
    }

    /// The number of processes in the ring.
    pub fn len(&self) -> (n: usize)
        ensures
            n == self@.len(),
    {
        self.ring.len()
    }

    /// The `i`-th process of the ring, counting from the current one, with
    /// the frame of its record and the frame of its ring node.
    pub fn entry(&self, i: usize) -> (e: (Process, u64, u64))
        requires
            i < self@.len(),
        ensures
            e == self@[i as int],
    {
        self.ring[i]
    }

    /// The current process, if there is one.
    pub fn current(&self) -> (p: Option<Process>)
        ensures
            self@.len() == 0 ==> p is None,
            self@.len() > 0 ==> p == Some(self@[0].0),
    {
        if self.ring.len() == 0 {
            None
        } else {
            Some(self.ring[0].0)
        }
    }
}

/// Creates a process from `image` (see `create_process_setup`) and adds it to
/// the ring just before the current process, so that it runs last in the
/// round; the first process created becomes the current one.
pub fn create_process(
    m: &mut Machine,
    list: &mut ProcessList,
    current: u64,
    image: &[u8],
) -> (r: Result<(), KernelError>)
    requires
        old(m).wf(),
        old(m).mem.tables().contains_key(current),
        image@.len() <= 4096,
    ensures
        final(m).wf(),
        ({
            let s = setup_spec(
                old(m).frames@,
                old(m).mem.tables(),
                old(m).mem.bytes(),
                current,
                image@,
            );
            &&& final(m).mem.tables() == s.1
            &&& final(m).mem.bytes() == s.2
            &&& match s.3 {
                Err(e) => {
                    &&& r == Err::<(), KernelError>(e)
                    &&& final(m).frames@ == s.0
                    &&& final(list)@ == old(list)@
                },
                Ok((space, frame)) => if s.0.len() == 0 {
                    &&& r == Err::<(), KernelError>(KernelError::AllocatePage)
                    &&& final(m).frames@ == s.0
                    &&& final(list)@ == old(list)@
                } else {
                    &&& r == Ok::<(), KernelError>(())
                    &&& final(m).frames@ == s.0.drop_last()
                    &&& final(list)@.len() == old(list)@.len() + 1
                    &&& final(list)@.take(old(list)@.len() as int) == old(list)@
                    &&& final(list)@.last().0.registers@ == initial_registers()
                    &&& final(list)@.last().0.instruction_pointer == ENTRY_POINT
                    &&& final(list)@.last().0.address_space == space
                    &&& final(list)@.last().1 == frame
                    &&& final(list)@.last().2 == s.0.last()
                },
            }
        }),
{
    let (frame, process) = create_process_setup(m, current, image)?;
    let node = m.frames.allocate()?;
    list.ring.push((process, frame, node));
    assert(list@.take(old(list)@.len() as int) =~= old(list)@);
    Ok(())
}

/// Register `which` of the current process.
pub fn get_process_register(list: &ProcessList, which: usize) -> (v: u64)
    requires
        list@.len() > 0,
        which < 16,
    ensures
        v == list@[0].0.registers@[which as int],
{
    list.ring[0].0.registers[which]
}

/// Saves `value` as register `which` of the current process.
pub fn save_process_register(list: &mut ProcessList, which: usize, value: u64)
    requires
        old(list)@.len() > 0,
        which < 16,
    ensures
        final(list)@.len() == old(list)@.len(),
        final(list)@[0].0.registers@ == old(list)@[0].0.registers@.update(which as int, value),
        final(list)@[0].0.instruction_pointer == old(list)@[0].0.instruction_pointer,
        final(list)@[0].0.address_space == old(list)@[0].0.address_space,
        final(list)@[0].1 == old(list)@[0].1,
        final(list)@[0].2 == old(list)@[0].2,
        final(list)@.drop_first() == old(list)@.drop_first(),
{
    let mut entry = list.ring[0];
    entry.0.registers[which] = value;
    list.ring.set(0, entry);
    assert(final(list)@.drop_first() =~= old(list)@.drop_first());
}

/// The top table of the current process's address space.
pub fn get_process_address_space(list: &ProcessList) -> (a: u64)
    requires
        list@.len() > 0,
    ensures
        a == list@[0].0.address_space,
{
    list.ring[0].0.address_space
}

/// The instruction pointer at which the current process resumes.
pub fn get_process_instruction_pointer(list: &ProcessList) -> (ip: u64)
    requires
        list@.len() > 0,
    ensures
        ip == list@[0].0.instruction_pointer,
{
    list.ring[0].0.instruction_pointer
}

/// Saves `value` as the instruction pointer of the current process.
pub fn save_process_instruction_pointer(list: &mut ProcessList, value: u64)
    requires
        old(list)@.len() > 0,
    ensures
        final(list)@.len() == old(list)@.len(),
        final(list)@[0].0.registers == old(list)@[0].0.registers,
        final(list)@[0].0.instruction_pointer == value,
        final(list)@[0].0.address_space == old(list)@[0].0.address_space,
        final(list)@[0].1 == old(list)@[0].1,
        final(list)@[0].2 == old(list)@[0].2,
        final(list)@.drop_first() == old(list)@.drop_first(),
{
    let mut entry = list.ring[0];
    entry.0.instruction_pointer = value;
    list.ring.set(0, entry);
    assert(final(list)@.drop_first() =~= old(list)@.drop_first());
}

/// Switches to the next process in the ring.
pub fn go_next_process(list: &mut ProcessList)
    requires
        old(list)@.len() > 0,
    ensures
        final(list)@ == rotate(old(list)@),
{
    let first = list.ring.remove(0);
    list.ring.push(first);
    assert(final(list)@ =~= rotate(old(list)@));
}

/// `k` switches move the first `k` processes to the end, in order.
proof fn lemma_rotate_n(s: Seq<(Process, u64, u64)>, k: nat)
    requires
        k <= s.len(),
    ensures
        rotate_n(s, k) == s.skip(k as int) + s.take(k as int),
    decreases k,
{
    if k == 0 {
        assert(s.skip(0) + s.take(0) =~= s);
    } else {
        lemma_rotate_n(s, (k - 1) as nat);
        let prev = s.skip(k - 1) + s.take(k - 1);
        assert(prev.len() == s.len());
        assert(prev[0] == s[k - 1]);
        assert(rotate(prev) =~= s.skip(k as int) + s.take(k as int));
    }
}

/// Round robin: after as many switches as there are processes, the ring is
/// back where it started, and every process has been current once.
pub proof fn lemma_round_robin(s: Seq<(Process, u64, u64)>)
    ensures
        rotate_n(s, s.len()) == s,
        forall|k: int| 0 <= k < s.len() ==> #[trigger] rotate_n(s, k as nat)[0] == s[k],
{
    lemma_rotate_n(s, s.len());
    assert(s.skip(s.len() as int) + s.take(s.len() as int) =~= s);
    assert forall|k: int| 0 <= k < s.len() implies #[trigger] rotate_n(s, k as nat)[0] == s[k] by {
        lemma_rotate_n(s, k as nat);
    }
}


/// Round robin for any number of switches: after `k` switches the ring is the
/// one it started as, turned by `k` modulo its length; so the current process
/// is the `k mod n`-th, and no process ever leaves the ring or changes place.
pub proof fn lemma_round_robin_forever(s: Seq<(Process, u64, u64)>, k: nat)
    requires
        s.len() > 0,
    ensures
        rotate_n(s, k) == rotate_n(s, k % s.len()),
        rotate_n(s, k) == s.skip((k % s.len()) as int) + s.take((k % s.len()) as int),
        rotate_n(s, k)[0] == s[(k % s.len()) as int],
    decreases k,
{
    let n = s.len();
    lemma_round_robin(s);
    if k < n {
        assert(k % n == k) by (nonlinear_arith)
            requires
                k < n,
        ;
    } else {
        let k1 = (k - 1) as nat;
        lemma_round_robin_forever(s, k1);
        let j = k1 % n;
        assert(0 <= j < n) by (nonlinear_arith)
            requires
                n > 0,
                j == k1 % n,
        ;
        assert(rotate_n(s, k) == rotate(rotate_n(s, j)));
        assert(rotate(rotate_n(s, j)) == rotate_n(s, j + 1));
        if j + 1 < n {
            assert(k % n == j + 1) by (nonlinear_arith)
                requires
                    j == k1 % n,
                    k == k1 + 1,
                    j + 1 < n,
                    n > 0,
            ;
        } else {
            assert(k % n == 0) by (nonlinear_arith)
                requires
                    j == k1 % n,
                    k == k1 + 1,
                    j + 1 == n,
                    n > 0,
            ;
        }
    }
    lemma_rotate_n(s, k % n);
}

/// The level-1 indices of the pages that a process setup maps.
proof fn lemma_setup_indices(k: int)
    requires
        0 <= k < 8,
    ensures
        index1(stack_page(k)) == 511 - k,
        index1(PROCESS_INFO_PAGE) == 64,
        index1(ENTRY_POINT) == 128,
{
    let ku = k as u64;
    assert(ku < 8 ==> ((0x7F_FFFF_F000u64 - ku * 0x1000u64) as u64 >> 12u64) & 0x1FFu64 == 511 - ku)
        by (bit_vector);
    assert((0x40000u64 >> 12u64) & 0x1FFu64 == 64) by (bit_vector);
    assert((0x80000u64 >> 12u64) & 0x1FFu64 == 128) by (bit_vector);
}

/// What mapping the first `k` stack pages gives, when it succeeds: a well
/// formed state whose free list is a prefix of the old one, every one of those
/// stack pages translating to a frame taken from the free list with flags 7,
/// and every page that translated before at a level-1 index below 504 still
/// translating the same.
proof fn lemma_stack_maps(free: Seq<u64>, tables: TableMap, space: u64, k: nat)
    requires
        k <= 8,
        state_wf(free, tables),
        user_tree_ok(tables, space),
        map_stack_spec(free, tables, space, k).2 is Ok,
    ensures
        ({
            let (f, m, r) = map_stack_spec(free, tables, space, k);
            &&& state_wf(f, m)
            &&& user_tree_ok(m, space)
            &&& f.len() <= free.len()
            &&& f == free.take(f.len() as int)
            &&& forall|j: int|
                #![trigger stack_page(j)]
                0 <= j < k ==> exists|frame: u64|
                    #![trigger free.contains(frame), f.contains(frame)]
                    free.contains(frame) && !f.contains(frame) && translate_ok(
                        m,
                        space,
                        stack_page(j),
                    ) && translate_spec(m, space, stack_page(j)) == Ok::<u64, KernelError>(
                        frame | 7,
                    )
            &&& forall|root: u64, q: u64|
                translate_ok(tables, root, q) && translate_spec(tables, root, q) is Ok && index1(q)
                    < 504 ==> #[trigger] translate_ok(m, root, q) && translate_spec(m, root, q)
                    == translate_spec(tables, root, q)
        }),
    decreases k,
{
    if k == 0 {
        assert(free =~= free.take(free.len() as int));
    } else {
        let k1 = (k - 1) as nat;
        lemma_stack_maps(free, tables, space, k1);
        let (f1, m1, r1) = map_stack_spec(free, tables, space, k1);
        let frame = f1.last();
        let fd = f1.drop_last();
        let page = stack_page(k1 as int);
        lemma_stack_page_low(k1 as int);
        lemma_setup_indices(k1 as int);
        lemma_user_tree_walks(m1, space, page);
        assert(state_wf(fd, m1)) by {
            assert forall|i: int| 0 <= i < fd.len() implies !m1.contains_key(#[trigger] fd[i]) by {
                assert(fd[i] == f1[i]);
            }
            assert forall|i: int| 0 <= i < fd.len() implies #[trigger] valid_frame(fd[i]) by {
                assert(fd[i] == f1[i]);
            }
        }
        lemma_map_to_changes(fd, m1, space, page, frame, 7);
        lemma_map_keeps_trees(fd, m1, space, page, frame, 7, space);
        lemma_map_then_translate(fd, m1, space, page, frame, 7);
        let (f2, m2, r2) = map_to_spec(fd, m1, space, page, frame, 7);
        assert(f2 =~= free.take(f2.len() as int));
        assert(free.contains(frame)) by {
            assert(free[f1.len() - 1] == f1[f1.len() - 1]);
        }
        assert(!f2.contains(frame)) by {
            if f2.contains(frame) {
                let i = choose|i: int| 0 <= i < f2.len() && f2[i] == frame;
                assert(f1[i] == f2[i]);
                assert(f1[f1.len() - 1] == frame);
            }
        }
        assert forall|j: int| #![trigger stack_page(j)] 0 <= j < k implies exists|fr: u64|
            #![trigger free.contains(fr), f2.contains(fr)]
            free.contains(fr) && !f2.contains(fr) && translate_ok(m2, space, stack_page(j))
                && translate_spec(m2, space, stack_page(j)) == Ok::<u64, KernelError>(fr | 7) by {
            if j == k1 {
                assert(free.contains(frame) && !f2.contains(frame));
            } else {
                let fr = choose|fr: u64|
                    #![trigger free.contains(fr), f1.contains(fr)]
                    free.contains(fr) && !f1.contains(fr) && translate_ok(m1, space, stack_page(j))
                        && translate_spec(m1, space, stack_page(j)) == Ok::<u64, KernelError>(
                        fr | 7,
                    );
                lemma_setup_indices(j);
                lemma_map_keeps_other_translations(fd, m1, space, page, frame, 7, space, stack_page(j));
                assert(!f2.contains(fr)) by {
                    if f2.contains(fr) {
                        let i = choose|i: int| 0 <= i < f2.len() && f2[i] == fr;
                        assert(f1[i] == f2[i]);
                    }
                }
            }
        }
        assert forall|root: u64, q: u64|
            translate_ok(tables, root, q) && translate_spec(tables, root, q) is Ok && index1(q)
                < 504 implies #[trigger] translate_ok(m2, root, q) && translate_spec(m2, root, q)
                == translate_spec(tables, root, q) by {
            lemma_map_keeps_other_translations(fd, m1, space, page, frame, 7, root, q);
        }
    }
}


/// Dropping the top of a well-formed state's free list keeps it well formed.
pub proof fn lemma_state_pop(free: Seq<u64>, tables: TableMap)
    requires
        state_wf(free, tables),
        free.len() > 0,
    ensures
        state_wf(free.drop_last(), tables),
        valid_frame(free.last()),
        !tables.contains_key(free.last()),
        !free.drop_last().contains(free.last()),
{
    let fd = free.drop_last();
    assert(valid_frame(free[free.len() - 1]));
    assert forall|i: int| 0 <= i < fd.len() implies !tables.contains_key(#[trigger] fd[i]) by {
        assert(fd[i] == free[i]);
    }
    assert forall|i: int| 0 <= i < fd.len() implies #[trigger] valid_frame(fd[i]) by {
        assert(fd[i] == free[i]);
    }
    if fd.contains(free.last()) {
        let i = choose|i: int| 0 <= i < fd.len() && fd[i] == free.last();
        assert(free[i] == free[free.len() - 1]);
    }
}

/// A successful process setup maps what the process needs: the new address
/// space is the top free frame; the process info page leads to the frame of
/// the record with flags 3 (present, writable, kernel only); every stack page
/// leads to a frame taken from the free list with flags 7 (present, writable,
/// user); and a non-empty image sits at the start of a frame taken from the
/// free list that the entry point leads to with flags 7.
#[verifier::spinoff_prover]
#[verifier::rlimit(60)]
pub proof fn lemma_setup_maps(
    free: Seq<u64>,
    tables: TableMap,
    bytes: Map<u64, u8>,
    current: u64,
    image: Seq<u8>,
)
    requires
        state_wf(free, tables),
        tables.contains_key(current),
        image.len() <= 4096,
        setup_spec(free, tables, bytes, current, image).3 is Ok,
    ensures
        ({
            let s = setup_spec(free, tables, bytes, current, image);
            let (space, p) = s.3->Ok_0;
            &&& free.len() > 0 && space == free.last()
            &&& free.contains(p) && !s.0.contains(p)
            &&& translate_ok(s.1, space, PROCESS_INFO_PAGE)
            &&& translate_spec(s.1, space, PROCESS_INFO_PAGE) == Ok::<u64, KernelError>(p | 3)
            &&& forall|j: int|
                #![trigger stack_page(j)]
                0 <= j < 8 ==> exists|frame: u64|
                    #![trigger free.contains(frame), s.0.contains(frame)]
                    free.contains(frame) && !s.0.contains(frame) && translate_ok(
                        s.1,
                        space,
                        stack_page(j),
                    ) && translate_spec(s.1, space, stack_page(j)) == Ok::<u64, KernelError>(
                        frame | 7,
                    )
            &&& image.len() > 0 ==> exists|g: u64|
                #![trigger free.contains(g), s.0.contains(g)]
                {
                    &&& free.contains(g)
                    &&& !s.0.contains(g)
                    &&& translate_ok(s.1, space, ENTRY_POINT)
                    &&& translate_spec(s.1, space, ENTRY_POINT) == Ok::<u64, KernelError>(g | 7)
                    &&& forall|k: int|
                        0 <= k < image.len() ==> s.2.contains_key(#[trigger] ((g + k) as u64)) && s.2[(
                        g + k) as u64] == image[k]
                }
        }),
{
    let s = setup_spec(free, tables, bytes, current, image);
    let (space, p) = s.3->Ok_0;
    lemma_entry_point_page();
    lemma_low_page_index(ENTRY_POINT);
    lemma_low_page_index(PROCESS_INFO_PAGE);
    lemma_setup_indices(0);
    // the new address space
    lemma_state_pop(free, tables);
    let f1 = free.drop_last();
    let m1 = tables.insert(space, (4u8, new_pagemap_entries(tables[current].1)));
    assert(state_wf(f1, m1)) by {
        assert forall|i: int| 0 <= i < f1.len() implies !m1.contains_key(#[trigger] f1[i]) by {
            assert(f1[i] != space);
        }
    }
    lemma_new_space_tree(m1, space, tables[current].1);
    // the image
    let (f2, m2, b2, r2) = copy_image_spec(f1, m1, bytes, space, image, ENTRY_POINT);
    lemma_user_tree_walks(m1, space, ENTRY_POINT);
    if image.len() > 0 {
        lemma_state_pop(f1, m1);
        let g = f1.last();
        lemma_map_to_changes(f1.drop_last(), m1, space, ENTRY_POINT, g, 7);
        lemma_map_keeps_trees(f1.drop_last(), m1, space, ENTRY_POINT, g, 7, space);
        lemma_map_then_translate(f1.drop_last(), m1, space, ENTRY_POINT, g, 7);
    }
    assert(state_wf(f2, m2) && user_tree_ok(m2, space) && f2.len() <= f1.len() && f2 == f1.take(
        f2.len() as int,
    )) by {
        if image.len() == 0 {
            assert(f1 =~= f1.take(f1.len() as int));
        } else {
            assert(f2 =~= f1.take(f2.len() as int));
        }
    }
    // the process record
    lemma_state_pop(f2, m2);
    lemma_user_tree_walks(m2, space, PROCESS_INFO_PAGE);
    lemma_map_to_changes(f2.drop_last(), m2, space, PROCESS_INFO_PAGE, p, 3);
    lemma_map_keeps_trees(f2.drop_last(), m2, space, PROCESS_INFO_PAGE, p, 3, space);
    lemma_map_then_translate(f2.drop_last(), m2, space, PROCESS_INFO_PAGE, p, 3);
    let (f3, m3, r3) = map_to_spec(f2.drop_last(), m2, space, PROCESS_INFO_PAGE, p, 3);
    if image.len() > 0 {
        lemma_map_keeps_other_translations(
            f2.drop_last(),
            m2,
            space,
            PROCESS_INFO_PAGE,
            p,
            3,
            space,
            ENTRY_POINT,
        );
    }
    // the stack
    lemma_stack_maps(f3, m3, space, 8);
    assert(s.0 == map_stack_spec(f3, m3, space, 8).0);
    assert(s.0 =~= free.take(s.0.len() as int));
    assert(f3 =~= free.take(f3.len() as int));
    assert(free.contains(p) && !s.0.contains(p)) by {
        assert(f2[f2.len() - 1] == free[f2.len() - 1]);
        if s.0.contains(p) {
            let i = choose|i: int| 0 <= i < s.0.len() && s.0[i] == p;
            assert(f3[i] == s.0[i]);
            assert(f2[i] == f3[i]);
        }
    }
    assert forall|j: int| #![trigger stack_page(j)] 0 <= j < 8 implies exists|frame: u64|
        #![trigger free.contains(frame), s.0.contains(frame)]
        free.contains(frame) && !s.0.contains(frame) && translate_ok(s.1, space, stack_page(j))
            && translate_spec(s.1, space, stack_page(j)) == Ok::<u64, KernelError>(frame | 7) by {
        let fr = choose|fr: u64|
            #![trigger f3.contains(fr), s.0.contains(fr)]
            f3.contains(fr) && !s.0.contains(fr) && translate_ok(s.1, space, stack_page(j))
                && translate_spec(s.1, space, stack_page(j)) == Ok::<u64, KernelError>(fr | 7);
        assert(free.contains(fr)) by {
            let i = choose|i: int| 0 <= i < f3.len() && f3[i] == fr;
            assert(free[i] == f3[i]);
        }
    }
    if image.len() > 0 {
        let g = f1.last();
        assert(free.contains(g)) by {
            assert(free[f1.len() - 1] == f1[f1.len() - 1]);
        }
        assert(!s.0.contains(g)) by {
            if s.0.contains(g) {
                let i = choose|i: int| 0 <= i < s.0.len() && s.0[i] == g;
                assert(f3[i] == s.0[i]);
                assert(f2[i] == f3[i]);
                assert(f1[i] == f2[i]);
            }
        }
        assert(translate_ok(s.1, space, ENTRY_POINT));
        assert forall|k: int| 0 <= k < image.len() implies s.2.contains_key(
            #[trigger] ((g + k) as u64),
        ) && s.2[(g + k) as u64] == image[k] by {
            assert((g + 0) as u64 == g);
        }
    }
}


/// Mapping stack pages, whatever the result, keeps the state well formed and
/// the lower half of the address space a well-formed tree, takes frames only
/// from the top of the free list, and keeps every table.
proof fn lemma_stack_state(free: Seq<u64>, tables: TableMap, space: u64, k: nat)
    requires
        k <= 8,
        state_wf(free, tables),
        user_tree_ok(tables, space),
    ensures
        ({
            let (f, m, r) = map_stack_spec(free, tables, space, k);
            &&& state_wf(f, m)
            &&& user_tree_ok(m, space)
            &&& f.len() <= free.len()
            &&& f == free.take(f.len() as int)
            &&& forall|u: u64| #[trigger] tables.contains_key(u) ==> m.contains_key(u)
        }),
    decreases k,
{
    if k == 0 {
        assert(free =~= free.take(free.len() as int));
    } else {
        let k1 = (k - 1) as nat;
        lemma_stack_state(free, tables, space, k1);
        let (f1, m1, r1) = map_stack_spec(free, tables, space, k1);
        if r1 is Ok && f1.len() > 0 {
            let page = stack_page(k1 as int);
            lemma_stack_page_low(k1 as int);
            lemma_user_tree_walks(m1, space, page);
            lemma_state_pop(f1, m1);
            lemma_map_to_changes(f1.drop_last(), m1, space, page, f1.last(), 7);
            lemma_map_keeps_trees(f1.drop_last(), m1, space, page, f1.last(), 7, space);
            let f2 = map_to_spec(f1.drop_last(), m1, space, page, f1.last(), 7).0;
            assert(f2 =~= free.take(f2.len() as int));
        }
    }
}

/// Setting up a process, whatever the result, keeps the state well formed,
/// takes frames only from the top of the free list, and keeps every table
/// that was there.
pub proof fn lemma_setup_state(
    free: Seq<u64>,
    tables: TableMap,
    bytes: Map<u64, u8>,
    current: u64,
    image: Seq<u8>,
)
    requires
        state_wf(free, tables),
        tables.contains_key(current),
        image.len() <= 4096,
    ensures
        ({
            let s = setup_spec(free, tables, bytes, current, image);
            &&& state_wf(s.0, s.1)
            &&& s.0.len() <= free.len()
            &&& s.0 == free.take(s.0.len() as int)
            &&& forall|u: u64| #[trigger] tables.contains_key(u) ==> s.1.contains_key(u)
        }),
{
    let s = setup_spec(free, tables, bytes, current, image);
    lemma_entry_point_page();
    lemma_low_page_index(ENTRY_POINT);
    lemma_low_page_index(PROCESS_INFO_PAGE);
    if free.len() == 0 {
        assert(free =~= free.take(free.len() as int));
        return;
    }
    lemma_state_pop(free, tables);
    let space = free.last();
    let f1 = free.drop_last();
    let m1 = tables.insert(space, (4u8, new_pagemap_entries(tables[current].1)));
    assert(state_wf(f1, m1)) by {
        assert forall|i: int| 0 <= i < f1.len() implies !m1.contains_key(#[trigger] f1[i]) by {
            assert(f1[i] != space);
        }
    }
    lemma_new_space_tree(m1, space, tables[current].1);
    lemma_user_tree_walks(m1, space, ENTRY_POINT);
    let (f2, m2, b2, r2) = copy_image_spec(f1, m1, bytes, space, image, ENTRY_POINT);
    if image.len() > 0 && f1.len() > 0 {
        lemma_state_pop(f1, m1);
        lemma_map_to_changes(f1.drop_last(), m1, space, ENTRY_POINT, f1.last(), 7);
        lemma_map_keeps_trees(f1.drop_last(), m1, space, ENTRY_POINT, f1.last(), 7, space);
    }
    assert(state_wf(f2, m2) && user_tree_ok(m2, space) && f2 =~= free.take(f2.len() as int)
        && forall|u: u64| #[trigger] tables.contains_key(u) ==> m2.contains_key(u));
    if r2 is Err || f2.len() == 0 {
        return;
    }
    lemma_state_pop(f2, m2);
    lemma_user_tree_walks(m2, space, PROCESS_INFO_PAGE);
    lemma_map_to_changes(f2.drop_last(), m2, space, PROCESS_INFO_PAGE, f2.last(), 3);
    lemma_map_keeps_trees(f2.drop_last(), m2, space, PROCESS_INFO_PAGE, f2.last(), 3, space);
    let (f3, m3, r3) = map_to_spec(f2.drop_last(), m2, space, PROCESS_INFO_PAGE, f2.last(), 3);
    assert(f3 =~= free.take(f3.len() as int));
    if r3 is Err {
        return;
    }
    lemma_stack_state(f3, m3, space, 8);
    assert(s.0 =~= free.take(s.0.len() as int));
}


/// The stack pages share their upper three tables, and the process info page
/// shares them with the entry point.
proof fn lemma_shared_walks(k: int)
    requires
        0 <= k < 8,
    ensures
        index3(stack_page(k)) == 511,
        index2(stack_page(k)) == 511,
        index3(PROCESS_INFO_PAGE) == 0,
        index2(PROCESS_INFO_PAGE) == 0,
        index3(ENTRY_POINT) == 0,
        index2(ENTRY_POINT) == 0,
{
    let ku = k as u64;
    assert(ku < 8 ==> ((0x7F_FFFF_F000u64 - ku * 0x1000u64) as u64 >> 30u64) & 0x1FFu64 == 511)
        by (bit_vector);
    assert(ku < 8 ==> ((0x7F_FFFF_F000u64 - ku * 0x1000u64) as u64 >> 21u64) & 0x1FFu64 == 511)
        by (bit_vector);
    assert((0x40000u64 >> 30u64) & 0x1FFu64 == 0 && (0x40000u64 >> 21u64) & 0x1FFu64 == 0)
        by (bit_vector);
    assert((0x80000u64 >> 30u64) & 0x1FFu64 == 0 && (0x80000u64 >> 21u64) & 0x1FFu64 == 0)
        by (bit_vector);
    lemma_stack_page_low(k);
}

/// Once a page translates, no table is missing on its walk.
proof fn lemma_translated_walk(tables: TableMap, space: u64, page: u64)
    requires
        translate_spec(tables, space, page) is Ok,
    ensures
        missing_tables(tables, space, page) == 0,
{
}

/// How many frames mapping the first `k` stack pages takes from the free list
/// when the two tables below the top one are still missing on the stack's
/// walk: one per page and two for the tables. With fewer free frames the
/// mapping fails with `AllocatePage` having used them all.
proof fn lemma_stack_frames(free: Seq<u64>, tables: TableMap, space: u64, k: nat)
    requires
        1 <= k <= 8,
        state_wf(free, tables),
        user_tree_ok(tables, space),
        missing_tables(tables, space, stack_page(0)) == 2,
    ensures
        ({
            let (f, m, r) = map_stack_spec(free, tables, space, k);
            &&& free.len() >= k + 2 ==> r is Ok && f == free.take(free.len() - (k + 2))
                && missing_tables(m, space, stack_page(0)) == 0
            &&& free.len() < k + 2 ==> r == Err::<(), KernelError>(KernelError::AllocatePage)
                && f.len() == 0
        }),
    decreases k,
{
    let k1 = (k - 1) as nat;
    let (f1, m1, r1) = map_stack_spec(free, tables, space, k1);
    lemma_stack_state(free, tables, space, k1);
    let page = stack_page(k1 as int);
    lemma_stack_page_low(k1 as int);
    lemma_shared_walks(k1 as int);
    lemma_shared_walks(0);
    lemma_stack_page_low(0);
    if k1 >= 1 {
        lemma_stack_frames(free, tables, space, k1);
    }
    if r1 is Err || f1.len() == 0 {
        return;
    }
    assert(missing_tables(m1, space, page) == missing_tables(m1, space, stack_page(0)));
    lemma_state_pop(f1, m1);
    let frame = f1.last();
    let fd = f1.drop_last();
    lemma_user_tree_walks(m1, space, page);
    lemma_map_to_frames(fd, m1, space, page, frame, 7);
    let (f2, m2, r2) = map_to_spec(fd, m1, space, page, frame, 7);
    if r2 is Ok {
        lemma_map_then_translate(fd, m1, space, page, frame, 7);
        lemma_translated_walk(m2, space, page);
        assert(missing_tables(m2, space, page) == missing_tables(m2, space, stack_page(0)));
    }
    let n = free.len() as int;
    if k1 == 0 {
        assert(f1 == free);
        if free.len() >= k + 2 {
            assert(f2 =~= free.take(n - 3));
        }
    } else {
        assert(f1 == free.take(n - (k + 1)));
        if free.len() >= k + 2 {
            assert(f2 =~= free.take(n - (k + 2)));
        }
    }
}

/// The number of frames that setting up a process with `image` takes: the
/// top table, the record's frame, three tables for the low pages, eight stack
/// pages and two tables for them, and for a non-empty image its frame.
pub open spec fn setup_frames(image: Seq<u8>) -> nat {
    if image.len() == 0 {
        15
    } else {
        16
    }
}

/// Setting up a process succeeds exactly when the free list holds
/// `setup_frames(image)` frames, and then takes exactly that many from its
/// top; otherwise it fails with `AllocatePage` having used up the free list.
#[verifier::spinoff_prover]
#[verifier::rlimit(60)]
pub proof fn lemma_setup_frames(
    free: Seq<u64>,
    tables: TableMap,
    bytes: Map<u64, u8>,
    current: u64,
    image: Seq<u8>,
)
    requires
        state_wf(free, tables),
        tables.contains_key(current),
        image.len() <= 4096,
    ensures
        ({
            let s = setup_spec(free, tables, bytes, current, image);
            let n = setup_frames(image);
            &&& free.len() >= n ==> s.3 is Ok && s.0 == free.take(free.len() - n)
            &&& free.len() < n ==> s.3 is Err && s.3->Err_0 == KernelError::AllocatePage
                && s.0.len() == 0
        }),
{
    let s = setup_spec(free, tables, bytes, current, image);
    let n = free.len() as int;
    lemma_entry_point_page();
    lemma_low_page_index(ENTRY_POINT);
    lemma_low_page_index(PROCESS_INFO_PAGE);
    lemma_shared_walks(0);
    if free.len() == 0 {
        return;
    }
    lemma_state_pop(free, tables);
    let space = free.last();
    let f1 = free.drop_last();
    let m1 = tables.insert(space, (4u8, new_pagemap_entries(tables[current].1)));
    assert(state_wf(f1, m1)) by {
        assert forall|i: int| 0 <= i < f1.len() implies !m1.contains_key(#[trigger] f1[i]) by {
            assert(f1[i] != space);
        }
    }
    lemma_new_space_tree(m1, space, tables[current].1);
    assert(m1[space].1[0] == 0);
    assert(!present(0)) by {
        assert(0u64 & 1u64 == 0) by (bit_vector);
    }
    // the image
    let (f2, m2, b2, r2) = copy_image_spec(f1, m1, bytes, space, image, ENTRY_POINT);
    lemma_user_tree_walks(m1, space, ENTRY_POINT);
    if image.len() > 0 {
        if f1.len() == 0 {
            return;
        }
        lemma_state_pop(f1, m1);
        let g = f1.last();
        lemma_map_to_frames(f1.drop_last(), m1, space, ENTRY_POINT, g, 7);
        lemma_map_to_changes(f1.drop_last(), m1, space, ENTRY_POINT, g, 7);
        lemma_map_keeps_trees(f1.drop_last(), m1, space, ENTRY_POINT, g, 7, space);
        if r2 is Err {
            return;
        }
        lemma_map_then_translate(f1.drop_last(), m1, space, ENTRY_POINT, g, 7);
        assert(f2 =~= free.take(n - 5));
    } else {
        assert(f2 =~= free.take(n - 1));
    }
    if f2.len() == 0 {
        return;
    }
    // the process record
    lemma_state_pop(f2, m2);
    let p = f2.last();
    lemma_user_tree_walks(m2, space, PROCESS_INFO_PAGE);
    if image.len() > 0 {
        lemma_translated_walk(m2, space, ENTRY_POINT);
        assert(missing_tables(m2, space, PROCESS_INFO_PAGE) == 0);
    } else {
        assert(missing_tables(m2, space, PROCESS_INFO_PAGE) == 3);
    }
    lemma_map_to_frames(f2.drop_last(), m2, space, PROCESS_INFO_PAGE, p, 3);
    lemma_map_to_changes(f2.drop_last(), m2, space, PROCESS_INFO_PAGE, p, 3);
    lemma_map_keeps_trees(f2.drop_last(), m2, space, PROCESS_INFO_PAGE, p, 3, space);
    let (f3, m3, r3) = map_to_spec(f2.drop_last(), m2, space, PROCESS_INFO_PAGE, p, 3);
    if r3 is Err {
        return;
    }
    lemma_map_then_translate(f2.drop_last(), m2, space, PROCESS_INFO_PAGE, p, 3);
    assert(f3 =~= free.take(n - (setup_frames(image) - 10)));
    // the stack: its top-level entry is the low pages' one, whose level-3
    // table is new and holds only the entry for the low pages
    let a = entry_addr(m3[space].1[0]);
    assert(missing_tables(m3, space, stack_page(0)) == 2) by {
        lemma_stack_page_low(0);
        assert(present(m3[space].1[0]));
        assert(!present(m3[a].1[511])) by {
            if image.len() > 0 {
                assert(present(m2[space].1[0]));
                assert(m3[space].1[0] == m2[space].1[0]);
                assert(m2[space].1[0] != m1[space].1[0]);
                assert(!m1.contains_key(a));
                assert(m2.contains_key(a) && m2[a].0 == 3);
                if m2[a].1[511] != 0 {
                    assert(crate::vmm::level_index(ENTRY_POINT, 3) == 0);
                }
                assert(m2[a].1[511] == 0);
                if m3[a].1[511] != m2[a].1[511] {
                    assert(crate::vmm::level_index(PROCESS_INFO_PAGE, 3) == 0);
                }
            } else {
                assert(m3[space].1[0] != m2[space].1[0]);
                assert(!m2.contains_key(a));
                assert(m3.contains_key(a) && m3[a].0 == 3);
                if m3[a].1[511] != 0 {
                    assert(crate::vmm::level_index(PROCESS_INFO_PAGE, 3) == 0);
                }
            }
        }
    }
    lemma_stack_frames(f3, m3, space, 8);
}


/// Creating a process succeeds exactly when the free list holds one frame
/// more than its setup takes (the extra one is the ring node); as
/// `create_process` states, it then leaves the free list without its top
/// `setup_frames(image) + 1` frames.
pub proof fn lemma_create_process_frames(
    free: Seq<u64>,
    tables: TableMap,
    bytes: Map<u64, u8>,
    current: u64,
    image: Seq<u8>,
)
    requires
        state_wf(free, tables),
        tables.contains_key(current),
        image.len() <= 4096,
    ensures
        ({
            let s = setup_spec(free, tables, bytes, current, image);
            &&& (s.3 is Ok && s.0.len() > 0) <==> free.len() >= setup_frames(image) + 1
            &&& s.3 is Ok && s.0.len() > 0 ==> s.0.drop_last() == free.take(
                free.len() - setup_frames(image) - 1,
            )
        }),
{
    lemma_setup_frames(free, tables, bytes, current, image);
    let s = setup_spec(free, tables, bytes, current, image);
    if free.len() >= setup_frames(image) + 1 {
        assert(s.0.drop_last() =~= free.take(free.len() - setup_frames(image) - 1));
    }
}

/// The tables of `old` are all in `m` unchanged; `s` is a new top table of
/// `m`; and the lower half of `s`, and every table of level 2 or more that is
/// new in `m`, link only to tables that are not in `old`.
pub open spec fn keeps_old_tables(m: TableMap, old: TableMap, s: u64) -> bool {
    &&& forall|u: u64| #[trigger] old.contains_key(u) ==> m.contains_key(u) && m[u] == old[u]
    &&& !old.contains_key(s)
    &&& has_table(m, s, 4)
    &&& forall|j: int|
        0 <= j < 256 && present(#[trigger] m[s].1[j]) ==> !old.contains_key(entry_addr(m[s].1[j]))
    &&& forall|u: u64, j: int|
        m.contains_key(u) && !old.contains_key(u) && u != s && m[u].0 >= 2 && 0 <= j < 512
            && present(#[trigger] m[u].1[j]) ==> !old.contains_key(entry_addr(m[u].1[j]))
}

/// Mapping a user page in the new address space `s` keeps the old tables as
/// they were, and keeps the new ones linking only to new ones.
proof fn lemma_map_keeps_old(
    free: Seq<u64>,
    m: TableMap,
    s: u64,
    page: u64,
    frame: u64,
    flags: u64,
    old: TableMap,
)
    requires
        state_wf(free, m),
        user_tree_ok(m, s),
        keeps_old_tables(m, old, s),
        index4(page) < 256,
    ensures
        keeps_old_tables(map_to_spec(free, m, s, page, frame, flags).1, old, s),
{
    lemma_user_tree_walks(m, s, page);
    lemma_map_to_changes(free, m, s, page, frame, flags);
    crate::vmm::lemma_index_bounds(page);
    assert(!present(0)) by {
        assert(0u64 & 1u64 == 0) by (bit_vector);
    }
    let m2 = map_to_spec(free, m, s, page, frame, flags).1;
    assert forall|u: u64| #[trigger] old.contains_key(u) implies m2.contains_key(u) && m2[u]
        == old[u] by {
        assert(!on_walk(m, s, page, u)) by {
            if let Some(t3) = next_table(m, s, index4(page)) {
                assert(present(m[s].1[index4(page)]));
                assert(has_table(m, t3, 3));
                if let Some(t2) = next_table(m, t3, index3(page)) {
                    assert(present(m[t3].1[index3(page)]));
                    assert(has_table(m, t2, 2));
                }
            }
        }
        lemma_map_keeps_unwalked(free, m, s, page, frame, flags, u);
    }
    assert forall|j: int| 0 <= j < 256 && present(#[trigger] m2[s].1[j]) implies !old.contains_key(
        entry_addr(m2[s].1[j]),
    ) by {
        if m2[s].1[j] != m[s].1[j] {
            assert(fresh_link(m, m2, m2[s].1[j], 3));
        }
    }
    assert forall|u: u64, j: int|
        m2.contains_key(u) && !old.contains_key(u) && u != s && m2[u].0 >= 2 && 0 <= j < 512
            && present(#[trigger] m2[u].1[j]) implies !old.contains_key(entry_addr(m2[u].1[j])) by {
        if m.contains_key(u) {
            if m2[u].1[j] != m[u].1[j] {
                assert(fresh_link(m, m2, m2[u].1[j], (m[u].0 - 1) as u8));
            }
        } else {
            assert(m2[u].1[j] != 0);
            assert(fresh_link(m, m2, m2[u].1[j], (m2[u].0 - 1) as u8));
        }
    }
}

/// Mapping stack pages in the new address space keeps the old tables as
/// they were.
proof fn lemma_stack_keeps_old(free: Seq<u64>, tables: TableMap, space: u64, k: nat, old: TableMap)
    requires
        k <= 8,
        state_wf(free, tables),
        user_tree_ok(tables, space),
        keeps_old_tables(tables, old, space),
    ensures
        keeps_old_tables(map_stack_spec(free, tables, space, k).1, old, space),
    decreases k,
{
    if k > 0 {
        let k1 = (k - 1) as nat;
        lemma_stack_keeps_old(free, tables, space, k1, old);
        lemma_stack_state(free, tables, space, k1);
        let (f1, m1, r1) = map_stack_spec(free, tables, space, k1);
        if r1 is Ok && f1.len() > 0 {
            lemma_stack_page_low(k1 as int);
            lemma_state_pop(f1, m1);
            lemma_map_keeps_old(f1.drop_last(), m1, space, stack_page(k1 as int), f1.last(), 7, old);
        }
    }
}

/// Setting up a process, whether it succeeds or fails, leaves every page
/// table that was there before as it was: the kernel's address space and
/// those of all other processes do not change.
pub proof fn lemma_setup_keeps_other_tables(
    free: Seq<u64>,
    tables: TableMap,
    bytes: Map<u64, u8>,
    current: u64,
    image: Seq<u8>,
)
    requires
        state_wf(free, tables),
        tables.contains_key(current),
        image.len() <= 4096,
    ensures
        forall|u: u64|
            #[trigger] tables.contains_key(u) ==> setup_spec(free, tables, bytes, current, image).1.contains_key(
                u,
            ) && setup_spec(free, tables, bytes, current, image).1[u] == tables[u],
{
    let s = setup_spec(free, tables, bytes, current, image);
    lemma_entry_point_page();
    lemma_low_page_index(ENTRY_POINT);
    lemma_low_page_index(PROCESS_INFO_PAGE);
    if free.len() == 0 {
        return;
    }
    lemma_state_pop(free, tables);
    let space = free.last();
    let f1 = free.drop_last();
    let m1 = tables.insert(space, (4u8, new_pagemap_entries(tables[current].1)));
    assert(state_wf(f1, m1)) by {
        assert forall|i: int| 0 <= i < f1.len() implies !m1.contains_key(#[trigger] f1[i]) by {
            assert(f1[i] != space);
        }
    }
    lemma_new_space_tree(m1, space, tables[current].1);
    assert(!present(0)) by {
        assert(0u64 & 1u64 == 0) by (bit_vector);
    }
    assert(keeps_old_tables(m1, tables, space)) by {
        assert forall|j: int| 0 <= j < 256 && present(#[trigger] m1[space].1[j]) implies !tables.contains_key(
            entry_addr(m1[space].1[j]),
        ) by {
            assert(m1[space].1[j] == 0);
        }
    }
    lemma_user_tree_walks(m1, space, ENTRY_POINT);
    let (f2, m2, b2, r2) = copy_image_spec(f1, m1, bytes, space, image, ENTRY_POINT);
    if image.len() > 0 && f1.len() > 0 {
        lemma_state_pop(f1, m1);
        lemma_map_to_changes(f1.drop_last(), m1, space, ENTRY_POINT, f1.last(), 7);
        lemma_map_keeps_trees(f1.drop_last(), m1, space, ENTRY_POINT, f1.last(), 7, space);
        lemma_map_keeps_old(f1.drop_last(), m1, space, ENTRY_POINT, f1.last(), 7, tables);
    }
    if r2 is Err || f2.len() == 0 {
        return;
    }
    lemma_state_pop(f2, m2);
    lemma_user_tree_walks(m2, space, PROCESS_INFO_PAGE);
    lemma_map_to_changes(f2.drop_last(), m2, space, PROCESS_INFO_PAGE, f2.last(), 3);
    lemma_map_keeps_trees(f2.drop_last(), m2, space, PROCESS_INFO_PAGE, f2.last(), 3, space);
    lemma_map_keeps_old(f2.drop_last(), m2, space, PROCESS_INFO_PAGE, f2.last(), 3, tables);
    let (f3, m3, r3) = map_to_spec(f2.drop_last(), m2, space, PROCESS_INFO_PAGE, f2.last(), 3);
    if r3 is Err {
        return;
    }
    lemma_stack_keeps_old(f3, m3, space, 8, tables);
}

} // verus!

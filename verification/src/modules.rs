//! Boot modules: every module whose command line starts with `init` becomes
//! a process.
use vstd::prelude::*;
use vstd::utf8::valid_utf8;

use crate::error::KernelError;
use crate::process::{ProcessList, Process, create_process, setup_spec, initial_registers, ENTRY_POINT};
use crate::vmm::{Machine, TableMap, state_wf, lemma_map_to_changes, map_to_spec, map_changes};

verus! {

/// A module that the boot loader loaded: its path and command line (absent
/// when the loader gave a null pointer), and its contents (absent when the
/// loader gave no address).
pub struct Module {
    pub path: Option<Vec<u8>>,
    pub cmdline: Option<Vec<u8>>,
    pub image: Option<Vec<u8>>,
}

/// The bytes of an optional byte buffer.
pub open spec fn opt_bytes(b: Option<Vec<u8>>) -> Option<Seq<u8>> {
    match b {
        Some(v) => Some(v@),
        None => None,
    }
}

/// The path and the command line are present and valid UTF-8.
pub open spec fn module_names_ok(md: Module) -> bool {
    &&& opt_bytes(md.path) is Some
    &&& valid_utf8(opt_bytes(md.path)->Some_0)
    &&& opt_bytes(md.cmdline) is Some
    &&& valid_utf8(opt_bytes(md.cmdline)->Some_0)
}

/// The command line starts with `init`.
pub open spec fn is_init(cmdline: Seq<u8>) -> bool {
    cmdline.len() >= 4 && cmdline[0] == 0x69 && cmdline[1] == 0x6e && cmdline[2] == 0x69
        && cmdline[3] == 0x74
}

/// An init module's contents, if any, fit in one page.
pub open spec fn init_image_fits(md: Module) -> bool {
    opt_bytes(md.cmdline) is Some && is_init(opt_bytes(md.cmdline)->Some_0) && opt_bytes(md.image)
        is Some ==> opt_bytes(md.image)->Some_0.len() <= 4096
}

/// The state that loading modules works on: the free list, the tables, the
/// written bytes, and (address space, record frame, ring node frame) of each
/// process created so far.
pub type LoadState = (Seq<u64>, TableMap, Map<u64, u8>, Seq<(u64, u64, u64)>);

/// Loading one module after the state `prev`: a module without a valid path
/// or command line fails with `LoadModules`; a module whose command line does
/// not start with `init` is skipped; an init module without contents fails
/// with `LoadModules`; every other init module becomes a process, as
/// `create_process` makes one.
#[verifier::opaque]
pub open spec fn load_step(prev: LoadState, current: u64, md: Module) -> (
    LoadState,
    Result<(), KernelError>,
) {
    if !module_names_ok(md) {
        (prev, Err(KernelError::LoadModules))
    } else if !is_init(opt_bytes(md.cmdline)->Some_0) {
        (prev, Ok(()))
    } else if opt_bytes(md.image) is None {
        (prev, Err(KernelError::LoadModules))
    } else {
        let t = setup_spec(prev.0, prev.1, prev.2, current, opt_bytes(md.image)->Some_0);
        match t.3 {
            Err(e) => ((t.0, t.1, t.2, prev.3), Err(e)),
            Ok((space, frame)) => if t.0.len() == 0 {
                ((t.0, t.1, t.2, prev.3), Err(KernelError::AllocatePage))
            } else {
                ((t.0.drop_last(), t.1, t.2, prev.3.push((space, frame, t.0.last()))), Ok(()))
            },
        }
    }
}

/// Loading the first `n` modules, one after the other; the first error ends
/// the loading.
pub open spec fn load_spec(
    s: LoadState,
    current: u64,
    mods: Seq<Module>,
    n: nat,
) -> (LoadState, Result<(), KernelError>)
    decreases n,
{
    if n == 0 {
        (s, Ok(()))
    } else {
        let (prev, r) = load_spec(s, current, mods, (n - 1) as nat);
        if r is Err {
            (prev, r)
        } else {
            load_step(prev, current, mods[n - 1])
        }
    }
}

/// Whether `bytes` are valid UTF-8.
///
/// Calls `core::str::from_utf8`, which succeeds exactly on valid UTF-8; the
/// contract states that with vstd's definition of valid UTF-8.
#[verifier::external_body]
fn utf8_ok(bytes: &[u8]) -> (ok: bool)
    ensures
        ok == valid_utf8(bytes@),
{
    core::str::from_utf8(bytes).is_ok()
}

/// Whether a module's path and command line are present and valid UTF-8.
fn names_ok(md: &Module) -> (ok: bool)
    ensures
        ok == module_names_ok(*md),
{
    match (&md.path, &md.cmdline) {
        (Some(path), Some(cmdline)) => utf8_ok(path.as_slice()) && utf8_ok(cmdline.as_slice()),
        _ => false,
    }
}

/// Whether a command line starts with `init`.
fn starts_with_init(cmdline: &Vec<u8>) -> (r: bool)
    ensures
        r == is_init(cmdline@),
{
    cmdline.len() >= 4 && cmdline[0] == 0x69 && cmdline[1] == 0x6e && cmdline[2] == 0x69
        && cmdline[3] == 0x74
}

/// Every table that setting up a process starts from is still there after it.
proof fn lemma_setup_keeps_tables(
    free: Seq<u64>,
    tables: TableMap,
    bytes: Map<u64, u8>,
    current: u64,
    image: Seq<u8>,
    u: u64,
)
    requires
        state_wf(free, tables),
        tables.contains_key(current),
        image.len() <= 4096,
        tables.contains_key(u),
    ensures
        setup_spec(free, tables, bytes, current, image).1.contains_key(u),
{
    crate::process::lemma_setup_state(free, tables, bytes, current, image);
}

/// Loads one module: see `load_step`.
fn load_one(m: &mut Machine, list: &mut ProcessList, current: u64, md: &Module) -> (r: Result<
    (),
    KernelError,
>)
    requires
        old(m).wf(),
        old(m).mem.tables().contains_key(current),
        init_image_fits(*md),
    ensures
        final(m).wf(),
        final(m).mem.tables().contains_key(current),
        ({
            let (s, res) = load_step(
                (old(m).frames@, old(m).mem.tables(), old(m).mem.bytes(), Seq::empty()),
                current,
                *md,
            );
            &&& r == res
            &&& final(m).frames@ == s.0
            &&& final(m).mem.tables() == s.1
            &&& final(m).mem.bytes() == s.2
            &&& res is Err ==> final(list)@ == old(list)@ && s.3.len() == 0
            &&& res is Ok ==> {
                &&& final(list)@.len() == old(list)@.len() + s.3.len()
                &&& final(list)@.take(old(list)@.len() as int) == old(list)@
                &&& s.3.len() == 1 ==> {
                    let e = final(list)@.last();
                    &&& e.0.address_space == s.3[0].0
                    &&& e.1 == s.3[0].1
                    &&& e.2 == s.3[0].2
                    &&& e.0.registers@ == initial_registers()
                    &&& e.0.instruction_pointer == ENTRY_POINT
                }
            }
        }),
{
    proof {
        reveal(load_step);
    }
    if !names_ok(md) {
        return Err(KernelError::LoadModules);
    }
    let cmdline = match &md.cmdline {
        Some(c) => c,
        None => {
            return Err(KernelError::LoadModules);
        },
    };
    if !starts_with_init(cmdline) {
        assert(list@.take(list@.len() as int) =~= list@);
        return Ok(());
    }
    let image = match &md.image {
        Some(img) => img,
        None => {
            return Err(KernelError::LoadModules);
        },
    };
    proof {
        lemma_setup_keeps_tables(m.frames@, m.mem.tables(), m.mem.bytes(), current, image@, current);
    }
    create_process(m, list, current, image.as_slice())
}

/// Creates a process for every boot module whose command line starts with
/// `init`, in the order of the modules, and fails with `LoadModules` when the
/// boot loader gave no module list, or a module lacks a valid path or command
/// line, or an init module lacks contents.
pub fn load_modules(
    m: &mut Machine,
    list: &mut ProcessList,
    current: u64,
    response: &Option<Vec<Module>>,
) -> (r: Result<(), KernelError>)
    requires
        old(m).wf(),
        old(m).mem.tables().contains_key(current),
        response is Some ==> forall|i: int|
            0 <= i < response->Some_0@.len() ==> #[trigger] init_image_fits(response->Some_0@[i]),
    ensures
        final(m).wf(),
        response is None ==> r == Err::<(), KernelError>(KernelError::LoadModules) && *final(m)
            == *old(m) && final(list)@ == old(list)@,
        response is Some ==> {
            let mods = response->Some_0@;
            let (s, res) = load_spec(
                (old(m).frames@, old(m).mem.tables(), old(m).mem.bytes(), Seq::empty()),
                current,
                mods,
                mods.len(),
            );
            &&& r == res
            &&& final(m).frames@ == s.0
            &&& final(m).mem.tables() == s.1
            &&& final(m).mem.bytes() == s.2
            &&& final(list)@.len() == old(list)@.len() + s.3.len()
            &&& final(list)@.take(old(list)@.len() as int) == old(list)@
            &&& forall|j: int|
                0 <= j < s.3.len() ==> {
                    let e = #[trigger] final(list)@[old(list)@.len() + j];
                    &&& e.0.address_space == s.3[j].0
                    &&& e.1 == s.3[j].1
                    &&& e.2 == s.3[j].2
                    &&& e.0.registers@ == initial_registers()
                    &&& e.0.instruction_pointer == ENTRY_POINT
                }
        },
{
    let modules = match response {
        Some(mods) => mods,
        None => {
            return Err(KernelError::LoadModules);
        },
    };
    let ghost start: LoadState = (m.frames@, m.mem.tables(), m.mem.bytes(), Seq::empty());
    let ghost list0 = list@;
    let ghost mut created: Seq<(u64, u64, u64)> = Seq::empty();
    let mut i: usize = 0;
    while i < modules.len()
        invariant
            i <= modules@.len(),
            m.wf(),
            m.mem.tables().contains_key(current),
            forall|k: int| 0 <= k < modules@.len() ==> #[trigger] init_image_fits(modules@[k]),
            load_spec(start, current, modules@, i as nat) == (
                (m.frames@, m.mem.tables(), m.mem.bytes(), created),
                Ok::<(), KernelError>(()),
            ),
            list@.len() == list0.len() + created.len(),
            list@.take(list0.len() as int) == list0,
            forall|j: int|
                0 <= j < created.len() ==> {
                    let e = #[trigger] list@[list0.len() + j];
                    &&& e.0.address_space == created[j].0
                    &&& e.1 == created[j].1
                    &&& e.2 == created[j].2
                    &&& e.0.registers@ == initial_registers()
                    &&& e.0.instruction_pointer == ENTRY_POINT
                },
            start == (old(m).frames@, old(m).mem.tables(), old(m).mem.bytes(), Seq::<(u64, u64, u64)>::empty()),
            list0 == old(list)@,
            *response == Some(*modules),
        decreases modules@.len() - i,
    {
        let md = &modules[i];
        let ghost before: LoadState = (m.frames@, m.mem.tables(), m.mem.bytes(), created);
        let ghost list_before = list@;
        let r = load_one(m, list, current, md);
        let ghost step = load_step(before, current, *md);
        let ghost step0 = load_step((before.0, before.1, before.2, Seq::empty()), current, *md);
        proof {
            lemma_load_step_created(before, current, *md);
            assert(modules@[i as int] == *md);
            assert(load_spec(start, current, modules@, (i + 1) as nat) == step);
        }
        if let Err(e) = r {
            proof {
                lemma_load_err_stays(start, current, modules@, (i + 1) as nat, modules@.len());
            }
            return Err(e);
        }
        proof {
            assert forall|j: int| 0 <= j < step.0.3.len() implies {
                let e = #[trigger] list@[list0.len() + j];
                &&& e.0.address_space == step.0.3[j].0
                &&& e.1 == step.0.3[j].1
                &&& e.2 == step.0.3[j].2
                &&& e.0.registers@ == initial_registers()
                &&& e.0.instruction_pointer == ENTRY_POINT
            } by {
                if j < created.len() {
                    assert(list@[list0.len() + j] == list_before[list0.len() + j]);
                } else {
                    assert(j == created.len());
                }
            }
            assert(list@.take(list0.len() as int) =~= list0) by {
                assert forall|k: int| 0 <= k < list0.len() implies list@[k] == list0[k] by {
                    assert(list@[k] == list_before[k]);
                    assert(list_before.take(list0.len() as int)[k] == list0[k]);
                }
            }
            lemma_unit_ok(step.1);
            created = step.0.3;
        }
        i = i + 1;
    }
    Ok(())
}

/// One loading step does the same whatever processes were created before;
/// it only adds to them.
proof fn lemma_load_step_created(prev: LoadState, current: u64, md: Module)
    ensures
        ({
            let step = load_step(prev, current, md);
            let step0 = load_step((prev.0, prev.1, prev.2, Seq::empty()), current, md);
            &&& step.1 == step0.1
            &&& step.0.0 == step0.0.0
            &&& step.0.1 == step0.0.1
            &&& step.0.2 == step0.0.2
            &&& step.0.3 == prev.3 + step0.0.3
            &&& step0.0.3.len() <= 1
            &&& step.1 is Err ==> step0.0.3.len() == 0
        }),
{
    reveal(load_step);
    let step = load_step(prev, current, md);
    let step0 = load_step((prev.0, prev.1, prev.2, Seq::empty()), current, md);
    if step0.0.3.len() == 1 {
        assert(step.0.3 =~= prev.3 + step0.0.3);
    } else {
        assert(step.0.3 =~= prev.3 + step0.0.3);
    }
}

/// A successful result carries no value.
proof fn lemma_unit_ok(r: Result<(), KernelError>)
    requires
        r is Ok,
    ensures
        r == Ok::<(), KernelError>(()),
{
    match r {
        Ok(u) => {
            let unit: () = u;
            assert(unit == ());
        },
        Err(_) => {},
    }
}

/// Once loading has failed, further modules change nothing.
proof fn lemma_load_err_stays(s: LoadState, current: u64, mods: Seq<Module>, k: nat, k2: nat)
    requires
        k <= k2,
        load_spec(s, current, mods, k).1 is Err,
    ensures
        load_spec(s, current, mods, k2) == load_spec(s, current, mods, k),
    decreases k2 - k,
{
    if k < k2 {
        lemma_load_err_stays(s, current, mods, k, (k2 - 1) as nat);
    }
}

/// Loading modules leaves every page table that was there before as it was:
/// the kernel's address space does not change, whatever modules come and
/// however the loading ends.
pub proof fn lemma_load_keeps_tables(s: LoadState, current: u64, mods: Seq<Module>, n: nat)
    requires
        state_wf(s.0, s.1),
        s.1.contains_key(current),
        n <= mods.len(),
        forall|i: int| 0 <= i < mods.len() ==> #[trigger] init_image_fits(mods[i]),
    ensures
        ({
            let t = load_spec(s, current, mods, n).0;
            &&& state_wf(t.0, t.1)
            &&& forall|u: u64| #[trigger] s.1.contains_key(u) ==> t.1.contains_key(u) && t.1[u]
                == s.1[u]
        }),
    decreases n,
{
    if n > 0 {
        let n1 = (n - 1) as nat;
        lemma_load_keeps_tables(s, current, mods, n1);
        let (prev, r) = load_spec(s, current, mods, n1);
        if r is Ok {
            reveal(load_step);
            let md = mods[n - 1];
            assert(init_image_fits(md));
            if module_names_ok(md) && is_init(opt_bytes(md.cmdline)->Some_0) && opt_bytes(md.image)
                is Some {
                let image = opt_bytes(md.image)->Some_0;
                crate::process::lemma_setup_state(prev.0, prev.1, prev.2, current, image);
                crate::process::lemma_setup_keeps_other_tables(prev.0, prev.1, prev.2, current, image);
                let t = setup_spec(prev.0, prev.1, prev.2, current, image);
                if t.3 is Ok && t.0.len() > 0 {
                    crate::process::lemma_state_pop(t.0, t.1);
                }
            }
        }
    }
}

/// Which modules become processes: a module with a valid path and command
/// line whose command line does not begin with the four bytes of `init`
/// (0x69 0x6e 0x69 0x74) is
/// skipped, leaving everything as it was; one whose command line begins with
/// them is set up as a process, and fails with `LoadModules` when it has no
/// contents.
pub proof fn lemma_only_init_modules_load(prev: LoadState, current: u64, md: Module)
    requires
        module_names_ok(md),
    ensures
        ({
            let cmd = opt_bytes(md.cmdline)->Some_0;
            let starts = cmd.len() >= 4 && cmd.subrange(0, 4) == seq![0x69u8, 0x6eu8, 0x69u8, 0x74u8];
            &&& !starts ==> load_step(prev, current, md) == (prev, Ok::<(), KernelError>(()))
            &&& starts && opt_bytes(md.image) is None ==> load_step(prev, current, md) == (
                prev,
                Err::<(), KernelError>(KernelError::LoadModules),
            )
            &&& starts && opt_bytes(md.image) is Some ==> load_step(prev, current, md).0.0
                == setup_spec(prev.0, prev.1, prev.2, current, opt_bytes(md.image)->Some_0).0
                || load_step(prev, current, md).0.0 == setup_spec(
                prev.0,
                prev.1,
                prev.2,
                current,
                opt_bytes(md.image)->Some_0,
            ).0.drop_last()
        }),
{
    reveal(load_step);
    let cmd = opt_bytes(md.cmdline)->Some_0;
    if cmd.len() >= 4 {
        if cmd.subrange(0, 4) == seq![0x69u8, 0x6eu8, 0x69u8, 0x74u8] {
            assert(cmd[0] == cmd.subrange(0, 4)[0]);
            assert(cmd[1] == cmd.subrange(0, 4)[1]);
            assert(cmd[2] == cmd.subrange(0, 4)[2]);
            assert(cmd[3] == cmd.subrange(0, 4)[3]);
        } else if is_init(cmd) {
            assert(cmd.subrange(0, 4) =~= seq![0x69u8, 0x6eu8, 0x69u8, 0x74u8]);
        }
    }
}

} // verus!

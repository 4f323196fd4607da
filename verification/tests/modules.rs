use object_kernel::error::KernelError;
use object_kernel::modules::{load_modules, Module};
use object_kernel::pmm::Freelist;
use object_kernel::process::{get_process_address_space, ProcessList, ENTRY_POINT};
use object_kernel::vmm::{translate_page, Machine};

const KERNEL: u64 = 0x100000;

fn machine(n: u64) -> Machine {
    let mut fl = Freelist::new();
    for k in 0..n {
        fl.free(0x10000 + k * 0x1000);
    }
    let mut m = Machine::new(fl);
    m.install_table(KERNEL, 4, vec![0; 512]);
    m
}

fn module(path: &str, cmdline: &str, image: Option<&[u8]>) -> Module {
    Module {
        path: Some(path.as_bytes().to_vec()),
        cmdline: Some(cmdline.as_bytes().to_vec()),
        image: image.map(|i| i.to_vec()),
    }
}

#[test]
fn no_module_list_fails() {
    let mut m = machine(4);
    let mut list = ProcessList::new();
    assert_eq!(load_modules(&mut m, &mut list, KERNEL, &None), Err(KernelError::LoadModules));
    assert_eq!(m.frames.len(), 4);
}

#[test]
fn init_modules_become_processes_in_order() {
    let mut m = machine(40);
    let mut list = ProcessList::new();
    let mods = vec![
        module("/boot/a", "init", Some(&[0xAA])),
        module("/boot/shell", "shell", Some(&[0xBB])),
        module("/boot/b", "init --quiet", Some(&[0xCC])),
    ];
    assert_eq!(load_modules(&mut m, &mut list, KERNEL, &Some(mods)), Ok(()));
    assert_eq!(list.len(), 2);
    assert_eq!(m.frames.len(), 40 - 2 * 17);
    let a = get_process_address_space(&list);
    let frame = translate_page(&m.mem, a, ENTRY_POINT).unwrap() & !0xFFF;
    assert_eq!(m.mem.read_byte(frame), Some(0xAA));
}

#[test]
fn an_empty_module_list_loads_nothing() {
    let mut m = machine(4);
    let mut list = ProcessList::new();
    assert_eq!(load_modules(&mut m, &mut list, KERNEL, &Some(vec![])), Ok(()));
    assert_eq!(list.len(), 0);
}

#[test]
fn a_module_without_a_path_or_command_line_fails() {
    let mut m = machine(40);
    let mut list = ProcessList::new();
    let mut bad = module("/boot/x", "init", Some(&[1]));
    bad.path = None;
    let mods = vec![module("/boot/a", "init", Some(&[1])), bad, module("/boot/b", "init", Some(&[2]))];
    assert_eq!(load_modules(&mut m, &mut list, KERNEL, &Some(mods)), Err(KernelError::LoadModules));
    assert_eq!(list.len(), 1);
    let mut list = ProcessList::new();
    let mut bad = module("/boot/x", "init", Some(&[1]));
    bad.cmdline = None;
    assert_eq!(load_modules(&mut m, &mut list, KERNEL, &Some(vec![bad])), Err(KernelError::LoadModules));
    assert_eq!(list.len(), 0);
}

#[test]
fn a_module_with_names_that_are_not_utf8_fails() {
    let mut m = machine(40);
    let mut list = ProcessList::new();
    let bad_cmdline = Module {
        path: Some(b"/boot/a".to_vec()),
        cmdline: Some(vec![b'i', b'n', b'i', b't', 0xFF]),
        image: Some(vec![1]),
    };
    assert_eq!(
        load_modules(&mut m, &mut list, KERNEL, &Some(vec![bad_cmdline])),
        Err(KernelError::LoadModules)
    );
    let bad_path = Module {
        path: Some(vec![0xC3, 0x28]),
        cmdline: Some(b"other".to_vec()),
        image: None,
    };
    assert_eq!(
        load_modules(&mut m, &mut list, KERNEL, &Some(vec![bad_path])),
        Err(KernelError::LoadModules)
    );
    let good = Module {
        path: Some("/boot/é".as_bytes().to_vec()),
        cmdline: Some("init ü".as_bytes().to_vec()),
        image: Some(vec![1]),
    };
    assert_eq!(load_modules(&mut m, &mut list, KERNEL, &Some(vec![good])), Ok(()));
    assert_eq!(list.len(), 1);
}

#[test]
fn an_init_module_without_contents_fails() {
    let mut m = machine(40);
    let mut list = ProcessList::new();
    let mods = vec![module("/boot/skip", "other", None), module("/boot/a", "init", None)];
    assert_eq!(load_modules(&mut m, &mut list, KERNEL, &Some(mods)), Err(KernelError::LoadModules));
    assert_eq!(list.len(), 0);
    assert_eq!(m.frames.len(), 40);
}

#[test]
fn running_out_of_frames_stops_the_loading() {
    let mut m = machine(20);
    let mut list = ProcessList::new();
    let mods = vec![module("/boot/a", "init", Some(&[1])), module("/boot/b", "init", Some(&[2]))];
    assert_eq!(load_modules(&mut m, &mut list, KERNEL, &Some(mods)), Err(KernelError::AllocatePage));
    assert_eq!(list.len(), 1);
    assert_eq!(m.frames.len(), 0);
}

#[test]
fn a_command_line_shorter_than_init_is_skipped() {
    let mut m = machine(4);
    let mut list = ProcessList::new();
    let mods = vec![module("/boot/a", "ini", None), module("/boot/b", "", None)];
    assert_eq!(load_modules(&mut m, &mut list, KERNEL, &Some(mods)), Ok(()));
    assert_eq!(list.len(), 0);
}

use object_kernel::error::KernelError;
use object_kernel::pmm::Freelist;
use object_kernel::process::{
    create_process, create_process_setup, get_process_address_space, get_process_instruction_pointer,
    get_process_register, go_next_process, load_process_image, save_process_instruction_pointer,
    save_process_register, ProcessList, ENTRY_POINT, PROCESS_INFO_PAGE, STACK_PAGES, STACK_TOP,
};
use object_kernel::vmm::{create_address_space, translate_page, Machine};

const KERNEL: u64 = 0x100000;

/// A machine with `n` free frames from 0x10000 up and a kernel top table
/// whose higher half holds two entries.
fn machine(n: u64) -> Machine {
    let mut fl = Freelist::new();
    for k in 0..n {
        fl.free(0x10000 + k * 0x1000);
    }
    let mut m = Machine::new(fl);
    let mut entries = vec![0u64; 512];
    entries[256] = 0x200003;
    entries[511] = 0x300003;
    m.install_table(KERNEL, 4, entries);
    m
}

#[test]
fn setup_builds_the_address_space_of_a_process() {
    let mut m = machine(16);
    let (record_frame, p) = create_process_setup(&mut m, KERNEL, &[0x90, 0xC3]).unwrap();
    assert_eq!(m.frames.len(), 0);
    let space = p.address_space;
    assert_eq!(space, 0x1F000);
    assert_eq!(p.instruction_pointer, ENTRY_POINT);
    let mut regs = [0u64; 16];
    regs[7] = STACK_TOP;
    assert_eq!(p.registers, regs);
    assert_eq!(m.mem.read_entry(space, 256), 0x200003);
    assert_eq!(m.mem.read_entry(space, 511), 0x300003);
    // the image frame, then three tables, then the record
    assert_eq!(translate_page(&m.mem, space, ENTRY_POINT), Ok(0x1E000 | 7));
    assert_eq!(m.mem.read_byte(0x1E000), Some(0x90));
    assert_eq!(m.mem.read_byte(0x1E001), Some(0xC3));
    assert_eq!(record_frame, 0x1A000);
    assert_eq!(translate_page(&m.mem, space, PROCESS_INFO_PAGE), Ok(0x1A000 | 3));
    // the first stack page, two tables, then the other seven pages
    assert_eq!(translate_page(&m.mem, space, STACK_TOP), Ok(0x19000 | 7));
    for k in 1..STACK_PAGES {
        let frame = 0x16000 - (k - 1) * 0x1000;
        assert_eq!(translate_page(&m.mem, space, STACK_TOP - k * 0x1000), Ok(frame | 7));
    }
    assert_eq!(translate_page(&m.mem, space, STACK_TOP - STACK_PAGES * 0x1000), Ok(0));
}

#[test]
fn setup_with_an_empty_image_takes_one_frame_less() {
    let mut m = machine(15);
    let (record_frame, p) = create_process_setup(&mut m, KERNEL, &[]).unwrap();
    assert_eq!(m.frames.len(), 0);
    assert_eq!(p.address_space, 0x1E000);
    // the record, then three tables for its page
    assert_eq!(record_frame, 0x1D000);
    assert_eq!(translate_page(&m.mem, p.address_space, PROCESS_INFO_PAGE), Ok(0x1D000 | 3));
    assert_eq!(translate_page(&m.mem, p.address_space, ENTRY_POINT), Ok(0));
}

#[test]
fn setup_fails_when_frames_run_out() {
    for n in 0..16 {
        let mut m = machine(n);
        assert_eq!(
            create_process_setup(&mut m, KERNEL, &[1]).err(),
            Some(KernelError::AllocatePage),
            "with {n} frames"
        );
        assert_eq!(m.frames.len(), 0);
    }
}

#[test]
fn create_process_needs_a_frame_for_the_ring_node() {
    let mut m = machine(16);
    let mut list = ProcessList::new();
    assert_eq!(create_process(&mut m, &mut list, KERNEL, &[1]), Err(KernelError::AllocatePage));
    assert_eq!(list.len(), 0);
    let mut m = machine(17);
    assert_eq!(create_process(&mut m, &mut list, KERNEL, &[1]), Ok(()));
    assert_eq!(list.len(), 1);
    assert_eq!(m.frames.len(), 0);
    assert_eq!(get_process_address_space(&list), 0x20000);
    assert_eq!(get_process_instruction_pointer(&list), ENTRY_POINT);
    assert_eq!(get_process_register(&list, 7), STACK_TOP);
    assert_eq!(get_process_register(&list, 0), 0);
}

#[test]
fn load_process_image_returns_the_entry_point() {
    let mut m = machine(8);
    let space = create_address_space(&mut m, KERNEL).unwrap();
    assert_eq!(load_process_image(&mut m, space, &[7, 8, 9]), Ok(ENTRY_POINT));
    assert_eq!(translate_page(&m.mem, space, ENTRY_POINT), Ok(0x16000 | 7));
    assert_eq!(m.mem.read_byte(0x16002), Some(9));
    let mut m = machine(3);
    let space = create_address_space(&mut m, KERNEL).unwrap();
    assert_eq!(load_process_image(&mut m, space, &[7]), Err(KernelError::AllocatePage));
}

#[test]
fn processes_take_turns_in_creation_order() {
    let mut m = machine(17 * 3);
    let mut list = ProcessList::new();
    for _ in 0..3 {
        create_process(&mut m, &mut list, KERNEL, &[0xF4]).unwrap();
    }
    assert_eq!(list.len(), 3);
    let first = get_process_address_space(&list);
    go_next_process(&mut list);
    let second = get_process_address_space(&list);
    go_next_process(&mut list);
    let third = get_process_address_space(&list);
    go_next_process(&mut list);
    assert_eq!(get_process_address_space(&list), first);
    assert!(first > second && second > third);
    assert_eq!(first - second, 17 * 0x1000);
}

#[test]
fn saved_state_survives_a_round() {
    let mut m = machine(17 * 2);
    let mut list = ProcessList::new();
    create_process(&mut m, &mut list, KERNEL, &[0xF4]).unwrap();
    create_process(&mut m, &mut list, KERNEL, &[0xF4]).unwrap();
    save_process_register(&mut list, 3, 42);
    save_process_register(&mut list, 15, 0xFFFF);
    save_process_instruction_pointer(&mut list, 0x80123);
    go_next_process(&mut list);
    assert_eq!(get_process_register(&list, 3), 0);
    assert_eq!(get_process_instruction_pointer(&list), ENTRY_POINT);
    save_process_register(&mut list, 3, 7);
    go_next_process(&mut list);
    assert_eq!(get_process_register(&list, 3), 42);
    assert_eq!(get_process_register(&list, 15), 0xFFFF);
    assert_eq!(get_process_register(&list, 7), STACK_TOP);
    assert_eq!(get_process_instruction_pointer(&list), 0x80123);
    go_next_process(&mut list);
    assert_eq!(get_process_register(&list, 3), 7);
}

#[test]
fn an_empty_ring_has_no_current_process() {
    let list = ProcessList::new();
    assert!(list.current().is_none());
    assert_eq!(list.len(), 0);
}

#[test]
fn ring_entries_hold_the_record_and_node_frames() {
    let mut m = machine(17 * 2);
    let mut list = ProcessList::new();
    create_process(&mut m, &mut list, KERNEL, &[0xF4]).unwrap();
    create_process(&mut m, &mut list, KERNEL, &[0xF4]).unwrap();
    let (p0, record0, node0) = list.entry(0);
    let (p1, record1, node1) = list.entry(1);
    // frames from 0x10000 to 0x31000; the first process takes the top 17
    assert_eq!(p0.address_space, 0x31000);
    assert_eq!(record0, 0x31000 - 5 * 0x1000);
    assert_eq!(node0, 0x31000 - 16 * 0x1000);
    assert_eq!(p1.address_space, 0x31000 - 17 * 0x1000);
    assert_eq!(record1, p1.address_space - 5 * 0x1000);
    assert_eq!(node1, p1.address_space - 16 * 0x1000);
    go_next_process(&mut list);
    assert_eq!(list.entry(0).0.address_space, p1.address_space);
    assert_eq!(list.entry(1).1, record0);
}

#[test]
fn creating_processes_leaves_the_kernel_tables_alone() {
    for n in [5, 17, 40] {
        let mut m = machine(n);
        let before: Vec<u64> = (0..512).map(|i| m.mem.read_entry(KERNEL, i)).collect();
        let mut list = ProcessList::new();
        let _ = create_process(&mut m, &mut list, KERNEL, &[1, 2, 3]);
        let _ = create_process(&mut m, &mut list, KERNEL, &[]);
        let after: Vec<u64> = (0..512).map(|i| m.mem.read_entry(KERNEL, i)).collect();
        assert_eq!(before, after, "with {n} frames");
        assert_eq!(m.mem.table_level(KERNEL), 4);
    }
}

#[test]
fn round_robin_over_many_switches() {
    let mut m = machine(17 * 3);
    let mut list = ProcessList::new();
    for _ in 0..3 {
        create_process(&mut m, &mut list, KERNEL, &[0xF4]).unwrap();
    }
    let spaces: Vec<u64> = (0..3).map(|i| list.entry(i).0.address_space).collect();
    for k in 0..10 {
        assert_eq!(get_process_address_space(&list), spaces[k % 3], "after {k} switches");
        go_next_process(&mut list);
    }
}

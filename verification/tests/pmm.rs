use object_kernel::error::KernelError;
use object_kernel::pmm::{entry_type_name, pmm_init, Freelist, MemmapEntry, MemoryMapEntryType};

#[test]
fn new_freelist_has_nothing_to_allocate() {
    let mut fl = Freelist::new();
    assert_eq!(fl.len(), 0);
    assert_eq!(fl.allocate(), Err(KernelError::AllocatePage));
    assert_eq!(fl.len(), 0);
}

#[test]
fn allocate_returns_most_recently_freed_frame() {
    let mut fl = Freelist::new();
    fl.free(0x1000);
    fl.free(0x2000);
    fl.free(0x5000);
    assert_eq!(fl.len(), 3);
    assert_eq!(fl.allocate(), Ok(0x5000));
    assert_eq!(fl.allocate(), Ok(0x2000));
    fl.free(0x9000);
    assert_eq!(fl.allocate(), Ok(0x9000));
    assert_eq!(fl.allocate(), Ok(0x1000));
    assert_eq!(fl.allocate(), Err(KernelError::AllocatePage));
}

#[test]
fn free_ignores_unaligned_frames() {
    let mut fl = Freelist::new();
    fl.free(0x1001);
    fl.free(0x2FFF);
    assert_eq!(fl.len(), 0);
    fl.free(0x3000);
    assert_eq!(fl.len(), 1);
    assert_eq!(fl.allocate(), Ok(0x3000));
}

#[test]
fn pmm_init_frees_the_pages_of_usable_entries_in_order() {
    let mut fl = Freelist::new();
    let memmap = vec![
        MemmapEntry { base: 0x1000, len: 0x3000, typ: MemoryMapEntryType::Usable },
        MemmapEntry { base: 0x10000, len: 0x2000, typ: MemoryMapEntryType::Reserved },
        MemmapEntry { base: 0x20000, len: 0x1800, typ: MemoryMapEntryType::Usable },
        MemmapEntry { base: 0x30000, len: 0x1000, typ: MemoryMapEntryType::Framebuffer },
    ];
    let usable = pmm_init(&mut fl, &memmap);
    // whole pages: 3 from the first entry, 1 from the third
    assert_eq!(usable, 4);
    // a partial page at the end of an entry is still freed
    assert_eq!(fl.len(), 5);
    assert_eq!(fl.allocate(), Ok(0x21000));
    assert_eq!(fl.allocate(), Ok(0x20000));
    assert_eq!(fl.allocate(), Ok(0x3000));
    assert_eq!(fl.allocate(), Ok(0x2000));
    assert_eq!(fl.allocate(), Ok(0x1000));
    assert_eq!(fl.allocate(), Err(KernelError::AllocatePage));
}

#[test]
fn pmm_init_skips_entries_with_unaligned_base() {
    let mut fl = Freelist::new();
    let memmap = vec![MemmapEntry { base: 0x1800, len: 0x2000, typ: MemoryMapEntryType::Usable }];
    let usable = pmm_init(&mut fl, &memmap);
    assert_eq!(usable, 2);
    assert_eq!(fl.len(), 0);
}

#[test]
fn pmm_init_on_empty_map() {
    let mut fl = Freelist::new();
    fl.free(0x4000);
    let usable = pmm_init(&mut fl, &[]);
    assert_eq!(usable, 0);
    assert_eq!(fl.len(), 1);
}

#[test]
fn entry_type_names() {
    assert_eq!(entry_type_name(MemoryMapEntryType::Usable), "Usable");
    assert_eq!(entry_type_name(MemoryMapEntryType::Reserved), "Reserved");
    assert_eq!(entry_type_name(MemoryMapEntryType::AcpiReclaimable), "ACPI (Reclaimable)");
    assert_eq!(entry_type_name(MemoryMapEntryType::AcpiNvs), "ACPI (NVS)");
    assert_eq!(entry_type_name(MemoryMapEntryType::BadMemory), "Bad Memory");
    assert_eq!(
        entry_type_name(MemoryMapEntryType::BootloaderReclaimable),
        "Bootloader (Reclaimable)"
    );
    assert_eq!(entry_type_name(MemoryMapEntryType::KernelAndModules), "Kernel & Modules");
    assert_eq!(entry_type_name(MemoryMapEntryType::Framebuffer), "Framebuffer");
}

#[test]
fn allocations_hand_out_each_page_once() {
    let mut fl = Freelist::new();
    for k in 1..=6u64 {
        fl.free(k * 0x1000);
    }
    let mut seen = Vec::new();
    while let Ok(p) = fl.allocate() {
        assert_eq!(p % 4096, 0);
        assert!(p != 0);
        assert!(!seen.contains(&p));
        seen.push(p);
    }
    assert_eq!(seen, vec![0x6000, 0x5000, 0x4000, 0x3000, 0x2000, 0x1000]);
}

#[test]
fn contains_tells_free_frames() {
    let mut fl = Freelist::new();
    fl.free(0x3000);
    fl.free(0x8000);
    assert!(fl.contains(0x3000));
    assert!(fl.contains(0x8000));
    assert!(!fl.contains(0x4000));
    fl.allocate().unwrap();
    assert!(!fl.contains(0x8000));
}

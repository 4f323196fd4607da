use object_kernel::error::KernelError;
use object_kernel::pmm::Freelist;
use object_kernel::vmm::{
    copy_image_into_address_space, create_address_space, hhdm, hhdm_mut, map_to, translate_page,
    Machine,
};

const PAGEMAP: u64 = 0x100000;

/// A machine with `n` free frames from 0x10000 up (the highest on top of the
/// free list) and an empty top table at `PAGEMAP`.
fn machine(n: u64) -> Machine {
    let mut fl = Freelist::new();
    for k in 0..n {
        fl.free(0x10000 + k * 0x1000);
    }
    let mut m = Machine::new(fl);
    m.install_table(PAGEMAP, 4, vec![0; 512]);
    m
}

#[test]
fn map_then_translate_gives_the_entry_back() {
    let mut m = machine(8);
    let r = map_to(&mut m, PAGEMAP, 0x400000, 0x555000, 3);
    assert_eq!(r, Ok(0x555003));
    assert_eq!(translate_page(&m.mem, PAGEMAP, 0x400000), Ok(0x555003));
    // three tables were made from the top three free frames
    assert_eq!(m.frames.len(), 5);
    assert_eq!(m.mem.read_entry(PAGEMAP, 0), 0x17000 | 7);
    assert_eq!(m.mem.table_level(0x17000), 3);
    assert_eq!(m.mem.read_entry(0x17000, 0), 0x16000 | 7);
    assert_eq!(m.mem.table_level(0x16000), 2);
    assert_eq!(m.mem.read_entry(0x16000, 2), 0x15000 | 7);
    assert_eq!(m.mem.table_level(0x15000), 1);
    assert_eq!(m.mem.read_entry(0x15000, 0), 0x555003);
    assert_eq!(m.frames.allocate(), Ok(0x14000));
}

#[test]
fn mapping_next_to_a_mapped_page_takes_no_frame() {
    let mut m = machine(8);
    map_to(&mut m, PAGEMAP, 0x400000, 0x555000, 3).unwrap();
    assert_eq!(map_to(&mut m, PAGEMAP, 0x401000, 0x666000, 7), Ok(0x666007));
    assert_eq!(m.frames.len(), 5);
    assert_eq!(translate_page(&m.mem, PAGEMAP, 0x401000), Ok(0x666007));
    assert_eq!(translate_page(&m.mem, PAGEMAP, 0x400000), Ok(0x555003));
    // a page in the same level-1 table that was never mapped reads as zero
    assert_eq!(translate_page(&m.mem, PAGEMAP, 0x402000), Ok(0));
}

#[test]
fn remapping_a_page_replaces_its_entry() {
    let mut m = machine(8);
    map_to(&mut m, PAGEMAP, 0x400000, 0x555000, 3).unwrap();
    assert_eq!(map_to(&mut m, PAGEMAP, 0x400000, 0x777000, 1), Ok(0x777001));
    assert_eq!(translate_page(&m.mem, PAGEMAP, 0x400000), Ok(0x777001));
}

#[test]
fn map_to_without_frames_for_the_tables_fails() {
    let mut m = machine(2);
    assert_eq!(map_to(&mut m, PAGEMAP, 0x400000, 0x555000, 3), Err(KernelError::AllocatePage));
    assert_eq!(m.frames.len(), 0);
}

#[test]
fn map_to_a_null_pagemap_fails() {
    let mut m = machine(4);
    assert_eq!(map_to(&mut m, 0, 0x400000, 0x555000, 3), Err(KernelError::MapTo));
    assert_eq!(m.frames.len(), 4);
}

#[test]
fn translating_an_unmapped_page_fails() {
    let mut m = machine(8);
    assert_eq!(translate_page(&m.mem, PAGEMAP, 0x400000), Err(KernelError::TranslatePage));
    map_to(&mut m, PAGEMAP, 0x400000, 0x555000, 3).unwrap();
    // another top-level entry, another level-3 entry, another level-2 entry
    assert_eq!(translate_page(&m.mem, PAGEMAP, 0x80_0000_0000), Err(KernelError::TranslatePage));
    assert_eq!(translate_page(&m.mem, PAGEMAP, 0x4000_0000), Err(KernelError::TranslatePage));
    assert_eq!(translate_page(&m.mem, PAGEMAP, 0x600000), Err(KernelError::TranslatePage));
}

#[test]
fn create_address_space_shares_the_kernel_half() {
    let mut fl = Freelist::new();
    fl.free(0x20000);
    fl.free(0x21000);
    let mut m = Machine::new(fl);
    let mut entries = vec![0u64; 512];
    entries[0] = 0x30007;
    entries[256] = 0x40003;
    entries[300] = 0x50003;
    entries[511] = 0x60003;
    m.install_table(PAGEMAP, 4, entries);
    let space = create_address_space(&mut m, PAGEMAP);
    assert_eq!(space, Ok(0x21000));
    assert_eq!(m.mem.table_level(0x21000), 4);
    for i in 0..512 {
        let expected = match i {
            256 => 0x40003,
            511 => 0x60003,
            _ => 0,
        };
        assert_eq!(m.mem.read_entry(0x21000, i), expected, "entry {i}");
    }
    assert_eq!(m.frames.len(), 1);
}

#[test]
fn create_address_space_without_a_frame_fails() {
    let mut m = machine(0);
    assert_eq!(create_address_space(&mut m, PAGEMAP), Err(KernelError::AllocatePage));
}

#[test]
fn copy_image_places_the_bytes_in_a_fresh_frame() {
    let mut m = machine(8);
    let image = [0xDE, 0xAD, 0xBE, 0xEF];
    assert_eq!(copy_image_into_address_space(&mut m, PAGEMAP, &image, 0x80010), Ok(()));
    // the frame for the image is taken first, then three tables
    assert_eq!(m.frames.len(), 4);
    assert_eq!(translate_page(&m.mem, PAGEMAP, 0x80000), Ok(0x17000 | 7));
    assert_eq!(m.mem.read_byte(0x17010), Some(0xDE));
    assert_eq!(m.mem.read_byte(0x17013), Some(0xEF));
    assert_eq!(m.mem.read_byte(0x17014), None);
    assert_eq!(m.mem.read_byte(0x1700F), None);
}

#[test]
fn copy_of_an_empty_image_takes_nothing() {
    let mut m = machine(8);
    assert_eq!(copy_image_into_address_space(&mut m, PAGEMAP, &[], 0x80000), Ok(()));
    assert_eq!(m.frames.len(), 8);
    assert_eq!(translate_page(&m.mem, PAGEMAP, 0x80000), Err(KernelError::TranslatePage));
}

#[test]
fn copy_image_without_frames_fails() {
    let mut m = machine(0);
    assert_eq!(
        copy_image_into_address_space(&mut m, PAGEMAP, &[1, 2, 3], 0x80000),
        Err(KernelError::AllocatePage)
    );
    let mut m = machine(2);
    assert_eq!(
        copy_image_into_address_space(&mut m, PAGEMAP, &[1, 2, 3], 0x80000),
        Err(KernelError::AllocatePage)
    );
    assert_eq!(m.frames.len(), 0);
}

#[test]
fn higher_half_direct_map_offsets() {
    assert_eq!(hhdm(0x1000, 0xffff_8000_0000_0000), 0xffff_8000_0000_1000);
    assert_eq!(hhdm_mut(0, 0xffff_8000_0000_0000), 0xffff_8000_0000_0000);
}

#[test]
fn table_frames_and_byte_addresses_list_the_model() {
    let mut m = machine(8);
    assert_eq!(m.mem.table_frames(), vec![PAGEMAP]);
    assert_eq!(m.mem.byte_addresses(), Vec::<u64>::new());
    copy_image_into_address_space(&mut m, PAGEMAP, &[1, 2], 0x80000).unwrap();
    let mut frames = m.mem.table_frames();
    frames.sort();
    assert_eq!(frames, vec![0x14000, 0x15000, 0x16000, PAGEMAP]);
    let mut bytes = m.mem.byte_addresses();
    bytes.sort();
    assert_eq!(bytes, vec![0x17000, 0x17001]);
}

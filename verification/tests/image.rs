use sherlock::boot::{
    identity_map, load_image, load_section, map_stack, next_stack, IDENTITY_MAP_SIZE,
    KERNEL_STACK_PAD, KERNEL_STACK_SIZE,
};
use sherlock::error::MemError;
use sherlock::mm::PhysicalMemory;
use sherlock::page_table::{PageSize, PageTable, VirtAddr, PAGE_NX, PAGE_PRESENT, PAGE_WRITE};
use sherlock::parse_pe::{read_u16, read_u32, read_u64, PeParser, Section};
use sherlock::phys_mem::{PhysAddr, PhysMem};
use sherlock::rangeset::{Range, RangeSet};

const BASE: u64 = 0x10_0000;

fn memory(frames: u64) -> PhysicalMemory {
    let mut free = RangeSet::new();
    free.insert(Range { start: BASE, end: BASE + frames * 4096 - 1 }).unwrap();
    PhysicalMemory::new(free, BASE, (frames * 4096) as usize).unwrap()
}

fn put(bytes: &mut [u8], at: usize, value: &[u8]) {
    bytes[at..at + value.len()].copy_from_slice(value);
}

/// A 64-bit image with two sections and a few raw bytes.
fn image() -> Vec<u8> {
    let mut bytes = vec![0u8; 0x400];
    put(&mut bytes, 0, b"MZ");
    put(&mut bytes, 0x3c, &0x80u32.to_le_bytes());
    let pe = 0x80;
    put(&mut bytes, pe, b"PE\0\0");
    put(&mut bytes, pe + 4, &0x8664u16.to_le_bytes());
    put(&mut bytes, pe + 6, &2u16.to_le_bytes());
    put(&mut bytes, pe + 0x14, &0xf0u16.to_le_bytes());
    put(&mut bytes, pe + 0x28, &0x1010u32.to_le_bytes());
    put(&mut bytes, pe + 0x30, &0x1_4000_0000u64.to_le_bytes());
    let table = pe + 0x18 + 0xf0;
    // .text: 0x20 bytes in memory, 0x10 of them in the file.
    put(&mut bytes, table, b".text\0\0\0");
    put(&mut bytes, table + 0x8, &0x20u32.to_le_bytes());
    put(&mut bytes, table + 0xc, &0x1000u32.to_le_bytes());
    put(&mut bytes, table + 0x10, &0x10u32.to_le_bytes());
    put(&mut bytes, table + 0x14, &0x300u32.to_le_bytes());
    put(&mut bytes, table + 0x24, &0x6000_0020u32.to_le_bytes());
    // .data: 0x8 bytes in memory, 0x200 in the file.
    let second = table + 0x28;
    put(&mut bytes, second, b".data\0\0\0");
    put(&mut bytes, second + 0x8, &0x8u32.to_le_bytes());
    put(&mut bytes, second + 0xc, &0x2000u32.to_le_bytes());
    put(&mut bytes, second + 0x10, &0x200u32.to_le_bytes());
    put(&mut bytes, second + 0x14, &0x310u32.to_le_bytes());
    put(&mut bytes, second + 0x24, &0xc000_0040u32.to_le_bytes());
    for i in 0..0x20 {
        bytes[0x300 + i] = 0x40 + i as u8;
    }
    bytes
}

#[test]
fn little_endian_reads() {
    let bytes = [0x01, 0x02, 0x03, 0x04, 0x05, 0x06, 0x07, 0x08, 0xff];
    assert_eq!(read_u16(&bytes, 0), Some(0x0201));
    assert_eq!(read_u16(&bytes, 7), Some(0xff08));
    assert_eq!(read_u16(&bytes, 8), None);
    assert_eq!(read_u32(&bytes, 1), Some(0x0504_0302));
    assert_eq!(read_u32(&bytes, 5), Some(0xff08_0706));
    assert_eq!(read_u32(&bytes, 6), None);
    assert_eq!(read_u64(&bytes, 0), Some(0x0807_0605_0403_0201));
    assert_eq!(read_u64(&bytes, 1), Some(0xff08_0706_0504_0302));
    assert_eq!(read_u64(&bytes, 2), None);
    assert_eq!(read_u64(&bytes, usize::MAX), None);
    assert_eq!(read_u16(&[], 0), None);
}

#[test]
fn parse_reads_the_headers() {
    let bytes = image();
    let pe = PeParser::parse(&bytes).unwrap();
    assert_eq!(pe.entry_point, 0x1_4000_1010);
    assert_eq!(pe.entry_point(), 0x1_4000_1010);
    assert_eq!(pe.image_base(), 0x1_4000_0000);
    assert_eq!(pe.num_sections(), 2);
}

#[test]
fn parse_reads_a_32_bit_image() {
    let mut bytes = image();
    put(&mut bytes, 0x84, &0x014cu16.to_le_bytes());
    put(&mut bytes, 0x80 + 0x34, &0x7e00u32.to_le_bytes());
    let pe = PeParser::parse(&bytes).unwrap();
    assert_eq!(pe.image_base(), 0x7e00);
    assert_eq!(pe.entry_point, 0x7e00 + 0x1010);
}

#[test]
fn parse_rejects_what_is_no_image() {
    assert!(PeParser::parse(&[]).is_none());
    assert!(PeParser::parse(b"MZ").is_none());
    let good = image();
    let mut bytes = good.clone();
    bytes[0] = b'N';
    assert!(PeParser::parse(&bytes).is_none());
    let mut bytes = good.clone();
    bytes[0x82] = 1;
    assert!(PeParser::parse(&bytes).is_none());
    // Another machine.
    let mut bytes = good.clone();
    put(&mut bytes, 0x84, &0xaa64u16.to_le_bytes());
    assert!(PeParser::parse(&bytes).is_none());
    // The header lies beyond the end of the file.
    let mut bytes = good.clone();
    put(&mut bytes, 0x3c, &0x3f0u32.to_le_bytes());
    assert!(PeParser::parse(&bytes).is_none());
    let mut bytes = good.clone();
    put(&mut bytes, 0x3c, &0xffff_fff0u32.to_le_bytes());
    assert!(PeParser::parse(&bytes).is_none());
    // More sections than the file holds.
    let mut bytes = good.clone();
    put(&mut bytes, 0x86, &100u16.to_le_bytes());
    assert!(PeParser::parse(&bytes).is_none());
    // An entry point beyond the last address.
    let mut bytes = good.clone();
    put(&mut bytes, 0x80 + 0x30, &0xffff_ffff_ffff_f000u64.to_le_bytes());
    assert!(PeParser::parse(&bytes).is_none());
    // Cut off in the middle of the section table.
    assert!(PeParser::parse(&good[..0x80 + 0x18 + 0xf0 + 0x4f]).is_none());
    assert!(PeParser::parse(&good[..0x80 + 0x18 + 0xf0 + 0x50]).is_some());
}

#[test]
fn sections_in_table_order() {
    let bytes = image();
    let pe = PeParser::parse(&bytes).unwrap();
    let sections = pe.sections().unwrap();
    assert_eq!(
        sections,
        vec![
            Section {
                vaddr: 0x1_4000_1000,
                vsize: 0x20,
                raw_off: 0x300,
                raw_len: 0x10,
                read: true,
                write: false,
                execute: true,
            },
            Section {
                vaddr: 0x1_4000_2000,
                vsize: 0x8,
                raw_off: 0x310,
                raw_len: 0x8,
                read: true,
                write: true,
                execute: false,
            },
        ]
    );
    assert_eq!(pe.section(1), Some(sections[1]));
    assert_eq!(pe.raw(&sections[0]), &bytes[0x300..0x310]);
    assert_eq!(pe.raw(&sections[1]), &bytes[0x310..0x318]);
}

#[test]
fn sections_with_raw_bytes_outside_the_file() {
    let mut bytes = image();
    let second = 0x80 + 0x18 + 0xf0 + 0x28;
    put(&mut bytes, second + 0x14, &0x3fcu32.to_le_bytes());
    let pe = PeParser::parse(&bytes).unwrap();
    assert!(pe.section(0).is_some());
    assert_eq!(pe.section(1), None);
    assert_eq!(pe.sections(), None);
    let mut mem = memory(16);
    let mut table = PageTable::new(&mut mem).unwrap();
    // The section in front of the one that is not sound is loaded.
    assert_eq!(load_image(&mut table, &mut mem, &pe), Err(MemError::InvalidArgument));
    assert_eq!(mem.free().sum(), Ok(11 * 4096));
    assert_eq!(mem.read_u8(PhysAddr(BASE + 0x1000)), Some(0x40));
}

#[test]
fn load_image_with_a_first_section_that_is_not_sound() {
    let mut bytes = image();
    let first = 0x80 + 0x18 + 0xf0;
    put(&mut bytes, first + 0x14, &0x3fcu32.to_le_bytes());
    let pe = PeParser::parse(&bytes).unwrap();
    let mut mem = memory(16);
    let mut table = PageTable::new(&mut mem).unwrap();
    assert_eq!(load_image(&mut table, &mut mem, &pe), Err(MemError::InvalidArgument));
    assert_eq!(mem.free().sum(), Ok(15 * 4096));
}

#[test]
fn sections_beyond_the_last_address() {
    let mut bytes = image();
    put(&mut bytes, 0x80 + 0x30, &0xffff_ffff_ffff_e000u64.to_le_bytes());
    let pe = PeParser::parse(&bytes).unwrap();
    assert!(pe.section(0).is_some());
    assert_eq!(pe.section(1), None);
    assert_eq!(pe.sections(), None);
}

#[test]
fn load_section_fills_with_raw_bytes_and_zero() {
    let mut mem = memory(16);
    let mut table = PageTable::new(&mut mem).unwrap();
    for off in 0..4096u64 {
        mem.write_u8(PhysAddr(BASE + 0x1000 + off), 0xaa).unwrap();
    }
    let raw = [1u8, 2, 3, 4, 5, 6, 7, 8, 9, 10];
    assert_eq!(load_section(&mut table, &mut mem, 0x40_0000, 4096, &raw), Ok(()));
    for off in 0..4096u64 {
        let expected = if off < 10 { raw[off as usize] } else { 0 };
        assert_eq!(mem.read_u8(PhysAddr(BASE + 0x1000 + off)), Some(expected));
    }
    let leaf = (BASE + 0x1000) | PAGE_PRESENT | PAGE_WRITE;
    assert_eq!(mem.read_u64(PhysAddr(BASE + 0x4000)), Ok(leaf));
}

#[test]
fn load_image_maps_all_sections() {
    let bytes = image();
    let pe = PeParser::parse(&bytes).unwrap();
    let mut mem = memory(16);
    let mut table = PageTable::new(&mut mem).unwrap();
    assert_eq!(load_image(&mut table, &mut mem, &pe), Ok(0x1_4000_1010));
    // Root, two leaf frames and three tables.
    assert_eq!(mem.free().sum(), Ok(10 * 4096));
    // .text got the first frame behind the root.
    assert_eq!(mem.read_u8(PhysAddr(BASE + 0x1000)), Some(0x40));
    assert_eq!(mem.read_u8(PhysAddr(BASE + 0x100f)), Some(0x4f));
    assert_eq!(mem.read_u8(PhysAddr(BASE + 0x1010)), Some(0));
    // .data got the frame behind the tables.
    assert_eq!(mem.read_u8(PhysAddr(BASE + 0x5000)), Some(0x50));
    assert_eq!(mem.read_u8(PhysAddr(BASE + 0x5007)), Some(0x57));
    assert_eq!(mem.read_u8(PhysAddr(BASE + 0x5008)), Some(0));
    assert_eq!(
        table.map_raw(&mut mem, VirtAddr(0x1_4000_2000), PageSize::Page4K, 3, false, false, false),
        Err(MemError::AlreadyMapped)
    );
}

#[test]
fn load_image_runs_out_of_memory() {
    let bytes = image();
    let pe = PeParser::parse(&bytes).unwrap();
    let mut mem = memory(5);
    let mut table = PageTable::new(&mut mem).unwrap();
    assert_eq!(load_image(&mut table, &mut mem, &pe), Err(MemError::OutOfMemory));
    assert_eq!(mem.free().sum(), Ok(0));
}

#[test]
fn identity_map_maps_each_page_onto_itself() {
    let mut mem = memory(16);
    let mut table = PageTable::new(&mut mem).unwrap();
    assert_eq!(identity_map(&mut table, &mut mem, 0x3001), Ok(()));
    assert_eq!(mem.free().sum(), Ok(12 * 4096));
    for page in 0..4u64 {
        assert_eq!(mem.read_u64(PhysAddr(BASE + 0x3000 + page * 8)), Ok((page * 4096) | 3));
    }
    assert_eq!(mem.read_u64(PhysAddr(BASE + 0x3000 + 4 * 8)), Ok(0));
    // A page that is mapped already is a failure.
    assert_eq!(identity_map(&mut table, &mut mem, 0x1000), Err(MemError::AlreadyMapped));
    assert_eq!(identity_map(&mut table, &mut mem, 0), Ok(()));
    assert_eq!(IDENTITY_MAP_SIZE, 1 << 32);
}

#[test]
fn stacks_are_mapped_with_a_gap() {
    let mut mem = memory(32);
    let mut table = PageTable::new(&mut mem).unwrap();
    let first = 0x0000_7473_0000_0000u64;
    assert_eq!(map_stack(&mut table, &mut mem, first), Ok(first + 0x8000));
    // Eight frames for the stack and three tables.
    assert_eq!(mem.free().sum(), Ok((32 - 1 - 11) * 4096));
    let leaf = (BASE + 0x1000) | PAGE_PRESENT | PAGE_WRITE | PAGE_NX;
    assert_eq!(mem.read_u64(PhysAddr(BASE + 0x4000)), Ok(leaf));
    assert_eq!(next_stack(first), Some(first + 0x10000));
    assert_eq!(next_stack(u64::MAX - 0x10000), Some(u64::MAX));
    assert_eq!(next_stack(u64::MAX - 0xffff), None);
    assert_eq!(KERNEL_STACK_SIZE + KERNEL_STACK_PAD, 0x10000);
}

#[test]
fn stack_at_a_bad_address() {
    let mut mem = memory(32);
    let mut table = PageTable::new(&mut mem).unwrap();
    let before = mem.free().sum();
    assert_eq!(map_stack(&mut table, &mut mem, u64::MAX - 0x7ffe), Err(MemError::AddressOverflow));
    assert_eq!(map_stack(&mut table, &mut mem, 0x8000_0000_0000), Err(MemError::InvalidArgument));
    assert_eq!(map_stack(&mut table, &mut mem, 0x1234), Err(MemError::InvalidArgument));
    assert_eq!(mem.free().sum(), before);
    // The highest stack that there can be.
    assert_eq!(map_stack(&mut table, &mut mem, u64::MAX - 0x7fff), Err(MemError::AddressOverflow));
}

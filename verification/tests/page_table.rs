use sherlock::cpu::canonicalize_address;
use sherlock::error::MemError;
use sherlock::mm::PhysicalMemory;
use sherlock::page_table::{
    check_span, Flush, PageSize, PageTable, VirtAddr, PAGE_NX, PAGE_PRESENT, PAGE_USER, PAGE_WRITE,
};
use sherlock::phys_mem::{PhysAddr, PhysMem};
use sherlock::rangeset::{Range, RangeSet};

const BASE: u64 = 0x10_0000;
const FRAMES: u64 = 16;

fn memory() -> PhysicalMemory {
    let mut free = RangeSet::new();
    free.insert(Range { start: BASE, end: BASE + FRAMES * 4096 - 1 }).unwrap();
    PhysicalMemory::new(free, BASE, (FRAMES * 4096) as usize).unwrap()
}

fn free_bytes(mem: &PhysicalMemory) -> u64 {
    mem.free().sum().unwrap()
}

#[test]
fn canonical_addresses() {
    assert_eq!(canonicalize_address(0), 0);
    assert_eq!(canonicalize_address(0x0000_7fff_ffff_ffff), 0x0000_7fff_ffff_ffff);
    assert_eq!(canonicalize_address(0x0000_8000_0000_0000), 0xffff_8000_0000_0000);
    assert_eq!(canonicalize_address(0xffff_8000_0000_0000), 0xffff_8000_0000_0000);
    assert_eq!(canonicalize_address(0x1234_8000_0000_1000), 0xffff_8000_0000_1000);
    assert_eq!(canonicalize_address(0xffff_0000_0000_1000), 0x0000_0000_0000_1000);
}

#[test]
fn new_table_takes_one_zeroed_frame() {
    let mut mem = memory();
    mem.write_u64(PhysAddr(BASE + 8), 0xdead_beef).unwrap();
    let table = PageTable::new(&mut mem).unwrap();
    assert_eq!(table.table(), PhysAddr(BASE));
    assert_eq!(free_bytes(&mem), (FRAMES - 1) * 4096);
    assert_eq!(mem.read_u64(PhysAddr(BASE + 8)), Ok(0));
}

#[test]
fn from_cr3_masks_low_bits() {
    let mut mem = memory();
    let table = PageTable::from_cr3(&mut mem, 0x1234_5678);
    assert_eq!(table.table(), PhysAddr(0x1234_5000));
    assert_eq!(free_bytes(&mem), FRAMES * 4096);
}

#[test]
fn map_raw_creates_three_tables() {
    let mut mem = memory();
    let mut table = PageTable::new(&mut mem).unwrap();
    let before = free_bytes(&mem);
    let raw = 0x5000 | PAGE_PRESENT | PAGE_WRITE;
    assert_eq!(
        table.map_raw(&mut mem, VirtAddr(0x1000), PageSize::Page4K, raw, true, false, false),
        Ok(Flush::Nothing)
    );
    assert_eq!(before - free_bytes(&mem), 3 * 4096);
    // Root entry 0 links to the first new table, and so on down to the leaf.
    let link = PAGE_USER | PAGE_WRITE | PAGE_PRESENT;
    assert_eq!(mem.read_u64(PhysAddr(BASE)), Ok((BASE + 0x1000) | link));
    assert_eq!(mem.read_u64(PhysAddr(BASE + 0x1000)), Ok((BASE + 0x2000) | link));
    assert_eq!(mem.read_u64(PhysAddr(BASE + 0x2000)), Ok((BASE + 0x3000) | link));
    assert_eq!(mem.read_u64(PhysAddr(BASE + 0x3000 + 8)), Ok(raw));
    // The same address again, with no leave to overwrite.
    assert_eq!(
        table.map_raw(&mut mem, VirtAddr(0x1000), PageSize::Page4K, raw, true, false, false),
        Err(MemError::AlreadyMapped)
    );
    assert_eq!(before - free_bytes(&mem), 3 * 4096);
}

#[test]
fn map_takes_three_tables_and_one_leaf_frame() {
    let mut mem = memory();
    let mut table = PageTable::new(&mut mem).unwrap();
    let before = free_bytes(&mem);
    assert_eq!(
        table.map(&mut mem, VirtAddr(0x1000), PageSize::Page4K, 4096, true, true, false),
        Ok(())
    );
    assert_eq!(before - free_bytes(&mem), 4 * 4096);
    // The leaf frame is allocated first, the tables after it.
    let leaf = (BASE + 0x1000) | PAGE_PRESENT | PAGE_WRITE | PAGE_NX;
    assert_eq!(mem.read_u64(PhysAddr(BASE + 0x4000 + 8)), Ok(leaf));
    assert_eq!(
        table.map_raw(&mut mem, VirtAddr(0x1000), PageSize::Page4K, 0x7003, true, false, false),
        Err(MemError::AlreadyMapped)
    );
}

#[test]
fn map_raw_overwrites_on_request() {
    let mut mem = memory();
    let mut table = PageTable::new(&mut mem).unwrap();
    table.map_raw(&mut mem, VirtAddr(0x1000), PageSize::Page4K, 0x5003, true, false, false).unwrap();
    let r = table.map_raw(&mut mem, VirtAddr(0x1000), PageSize::Page4K, 0x6003, true, true, true);
    if usize::BITS == 64 {
        assert_eq!(r, Ok(Flush::Page(VirtAddr(0x1000))));
    } else {
        assert_eq!(r, Ok(Flush::Nothing));
    }
    assert_eq!(mem.read_u64(PhysAddr(BASE + 0x3000 + 8)), Ok(0x6003));
    let r = table.map_raw(&mut mem, VirtAddr(0x1000), PageSize::Page4K, 0x7003, true, true, false);
    assert_eq!(r, Ok(Flush::Nothing));
}

#[test]
fn map_raw_without_creation_reports_not_mapped() {
    let mut mem = memory();
    let mut table = PageTable::new(&mut mem).unwrap();
    let before = free_bytes(&mem);
    assert_eq!(
        table.map_raw(&mut mem, VirtAddr(0x1000), PageSize::Page4K, 0x5003, false, false, false),
        Err(MemError::NotMapped)
    );
    assert_eq!(free_bytes(&mem), before);
}

#[test]
fn map_raw_large_pages_stop_higher_up() {
    let mut mem = memory();
    let mut table = PageTable::new(&mut mem).unwrap();
    let before = free_bytes(&mem);
    table
        .map_raw(&mut mem, VirtAddr(0x4000_0000), PageSize::Page1G, 0x4000_0083, true, false, false)
        .unwrap();
    assert_eq!(before - free_bytes(&mem), 4096);
    assert_eq!(mem.read_u64(PhysAddr(BASE + 0x1000 + 8)), Ok(0x4000_0083));
    table
        .map_raw(&mut mem, VirtAddr(0x8020_0000), PageSize::Page2M, 0x20_0083, true, false, false)
        .unwrap();
    assert_eq!(before - free_bytes(&mem), 2 * 4096);
    assert_eq!(mem.read_u64(PhysAddr(BASE + 0x2000 + 8)), Ok(0x20_0083));
}

#[test]
fn rejected_addresses_allocate_nothing() {
    let mut mem = memory();
    let mut table = PageTable::new(&mut mem).unwrap();
    let before = free_bytes(&mem);
    let hole = VirtAddr(0x0000_8000_0000_0000);
    assert_eq!(
        table.map_raw(&mut mem, hole, PageSize::Page4K, 0x5003, true, false, false),
        Err(MemError::InvalidArgument)
    );
    assert_eq!(
        table.map(&mut mem, hole, PageSize::Page4K, 4096, true, true, false),
        Err(MemError::InvalidArgument)
    );
    assert_eq!(
        table.map_init(&mut mem, hole, PageSize::Page4K, 4096, true, true, false, Some(|_| 1u8)),
        Err(MemError::InvalidArgument)
    );
    // A span that starts canonical and runs into the hole.
    assert_eq!(
        table.map(&mut mem, VirtAddr(0x7fff_ffff_f000), PageSize::Page4K, 8192, true, true, false),
        Err(MemError::InvalidArgument)
    );
    // Misaligned, empty, and overflowing spans.
    assert_eq!(
        table.map_raw(&mut mem, VirtAddr(0x1008), PageSize::Page4K, 0x5003, true, false, false),
        Err(MemError::InvalidArgument)
    );
    assert_eq!(
        table.map(&mut mem, VirtAddr(0x1000), PageSize::Page2M, 4096, true, true, false),
        Err(MemError::InvalidArgument)
    );
    assert_eq!(
        table.map(&mut mem, VirtAddr(0x1000), PageSize::Page4K, 0, true, true, false),
        Err(MemError::InvalidArgument)
    );
    assert_eq!(
        table.map(&mut mem, VirtAddr(0xffff_ffff_ffff_f000), PageSize::Page4K, 0x2000, true, true, false),
        Err(MemError::AddressOverflow)
    );
    assert_eq!(free_bytes(&mem), before);
}

#[test]
fn map_init_fills_from_source_and_zero() {
    let mut mem = memory();
    let mut table = PageTable::new(&mut mem).unwrap();
    // Dirty the frame that the page will get.
    for off in 0..4096u64 {
        mem.write_u8(PhysAddr(BASE + 0x1000 + off), 0xaa).unwrap();
    }
    let data: Vec<u8> = (1..=10).collect();
    let source = |off: u64| data.get(off as usize).copied().unwrap_or(0);
    assert_eq!(
        table.map_init(&mut mem, VirtAddr(0x40_0000), PageSize::Page4K, 4096, true, false, true, Some(source)),
        Ok(())
    );
    for off in 0..4096u64 {
        let expected = if off < 10 { off as u8 + 1 } else { 0 };
        assert_eq!(mem.read_u8(PhysAddr(BASE + 0x1000 + off)), Some(expected));
    }
    // Readable and executable, not writable.
    assert_eq!(mem.read_u64(PhysAddr(BASE + 0x4000)), Ok((BASE + 0x1000) | PAGE_PRESENT));
}

#[test]
fn map_init_offsets_run_through_all_pages() {
    let mut mem = memory();
    let mut table = PageTable::new(&mut mem).unwrap();
    assert_eq!(
        table.map_init(
            &mut mem,
            VirtAddr(0x40_0000),
            PageSize::Page4K,
            4097,
            true,
            true,
            true,
            Some(|off: u64| (off / 4096) as u8 + 1)
        ),
        Ok(())
    );
    assert_eq!(mem.read_u8(PhysAddr(BASE + 0x1000)), Some(1));
    assert_eq!(mem.read_u8(PhysAddr(BASE + 0x1fff)), Some(1));
    // The second page got the next frame that was free after the tables.
    assert_eq!(mem.read_u8(PhysAddr(BASE + 0x5000)), Some(2));
    assert_eq!(mem.read_u8(PhysAddr(BASE + 0x5fff)), Some(2));
}

#[test]
fn map_runs_out_of_memory_and_keeps_what_it_mapped() {
    let mut free = RangeSet::new();
    free.insert(Range { start: BASE, end: BASE + 5 * 4096 - 1 }).unwrap();
    let mut mem = PhysicalMemory::new(free, BASE, 5 * 4096).unwrap();
    let mut table = PageTable::new(&mut mem).unwrap();
    // Root, leaf frame and three tables use up the five frames.
    assert_eq!(
        table.map(&mut mem, VirtAddr(0x1000), PageSize::Page4K, 8192, true, true, true),
        Err(MemError::OutOfMemory)
    );
    assert_eq!(free_bytes(&mem), 0);
    assert_eq!(
        table.map_raw(&mut mem, VirtAddr(0x1000), PageSize::Page4K, 0x7003, false, false, false),
        Err(MemError::AlreadyMapped)
    );
}

#[test]
fn span_checks() {
    assert_eq!(check_span(VirtAddr(0x1000), PageSize::Page4K, 1), Ok(1));
    assert_eq!(check_span(VirtAddr(0x1000), PageSize::Page4K, 4096), Ok(1));
    assert_eq!(check_span(VirtAddr(0x1000), PageSize::Page4K, 4097), Ok(2));
    assert_eq!(check_span(VirtAddr(0), PageSize::Page1G, 0x8000_0000), Ok(2));
    assert_eq!(check_span(VirtAddr(0x1000), PageSize::Page4K, 0), Err(MemError::InvalidArgument));
    assert_eq!(PageSize::Page2M.bytes(), 2 * 1024 * 1024);
}

#[test]
fn window_limits() {
    let mut mem = memory();
    assert_eq!(mem.translate(PhysAddr(BASE), 0), Err(MemError::InvalidArgument));
    assert_eq!(mem.translate(PhysAddr(BASE), 1), Ok(0));
    assert_eq!(mem.translate(PhysAddr(BASE + 5), 4096), Ok(5));
    assert_eq!(mem.translate(PhysAddr(BASE - 1), 1), Err(MemError::AddressOverflow));
    assert_eq!(mem.translate(PhysAddr(BASE + FRAMES * 4096 - 1), 2), Err(MemError::AddressOverflow));
    assert_eq!(mem.translate(PhysAddr(u64::MAX), 2), Err(MemError::AddressOverflow));
    assert_eq!(mem.read_u64(PhysAddr(BASE + FRAMES * 4096 - 7)), Err(MemError::AddressOverflow));
    assert_eq!(mem.read_u8(PhysAddr(BASE + FRAMES * 4096)), None);
    mem.write_u64(PhysAddr(BASE + 3), 0x0807_0605_0403_0201).unwrap();
    assert_eq!(mem.read_u8(PhysAddr(BASE + 3)), Some(1));
    assert_eq!(mem.read_u8(PhysAddr(BASE + 10)), Some(8));
    assert_eq!(mem.read_u64(PhysAddr(BASE + 3)), Ok(0x0807_0605_0403_0201));
    assert!(matches!(
        PhysicalMemory::new(RangeSet::new(), u64::MAX, 2),
        Err(MemError::AddressOverflow)
    ));
}

#[test]
fn zeroed_allocation_outside_the_window_is_lost() {
    let mut free = RangeSet::new();
    free.insert(Range { start: 0x1000, end: 0x1fff }).unwrap();
    let mut mem = PhysicalMemory::new(free, BASE, 4096).unwrap();
    assert_eq!(mem.alloc_phys_zeroed(4096, 4096), Err(MemError::AddressOverflow));
    assert_eq!(free_bytes(&mem), 0);
    assert!(matches!(PageTable::new(&mut mem), Err(MemError::OutOfMemory)));
}

#[test]
fn free_ranges_come_back() {
    let mut mem = memory();
    mem.alloc_phys(4096, 4096).unwrap();
    assert_eq!(mem.free().entries(), &[Range { start: BASE + 0x1000, end: BASE + FRAMES * 4096 - 1 }]);
    let free = mem.into_free();
    assert_eq!(free.sum(), Ok((FRAMES - 1) * 4096));
}

#[test]
fn allocation_through_the_backend() {
    let mut mem = memory();
    assert_eq!(mem.alloc_phys(0x10, 0x10), Ok(PhysAddr(BASE)));
    assert_eq!(mem.alloc_phys(0x1000, 0x1000), Ok(PhysAddr(BASE + 0x1000)));
    assert_eq!(mem.alloc_phys(0, 0x1000), Err(MemError::InvalidArgument));
    assert_eq!(mem.alloc_phys(8, 6), Err(MemError::InvalidArgument));
    assert_eq!(mem.alloc_phys(FRAMES as usize * 4096, 1), Err(MemError::OutOfMemory));
    mem.write_u8(PhysAddr(BASE + 0x2004), 7).unwrap();
    assert_eq!(mem.alloc_phys_zeroed(0x1000, 0x1000), Ok(PhysAddr(BASE + 0x2000)));
    assert_eq!(mem.read_u8(PhysAddr(BASE + 0x2004)), Some(0));
}

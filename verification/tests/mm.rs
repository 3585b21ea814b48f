use sherlock::error::MemError;
use sherlock::mm::{heap_allocate, heap_release, init, E820Entry, E820_USABLE, LOW_MEMORY};
use sherlock::rangeset::{Range, RangeSet, CAPACITY};

fn sorted(set: &RangeSet) -> Vec<(u64, u64)> {
    let mut v: Vec<(u64, u64)> = set.entries().iter().map(|r| (r.start, r.end)).collect();
    v.sort();
    v
}

fn entry(base: u64, size: u64, typ: u32) -> E820Entry {
    E820Entry { base, size, typ }
}

#[test]
fn firmware_map_is_reconciled() {
    let map = [
        entry(0, 0x9fc00, E820_USABLE),
        entry(0x9fc00, 0x400, 2),
        entry(0x10_0000, 0x7fe0_0000, E820_USABLE),
        // Reported twice, and once more as reserved in part.
        entry(0x10_0000, 0x100_0000, E820_USABLE),
        entry(0x4000_0000, 0x1000, 2),
        entry(0x7ff0_0000, 0x10_0000, 3),
        entry(0xfffc_0000, 0x4_0000, 2),
        entry(0x1_0000_0000, 0, E820_USABLE),
    ];
    let free = init(&map).unwrap();
    assert_eq!(
        sorted(&free),
        vec![(0x10_0000, 0x3fff_ffff), (0x4000_1000, 0x7fef_ffff)]
    );
    assert_eq!(LOW_MEMORY, 1024 * 1024);
}

#[test]
fn firmware_map_with_nothing_usable() {
    assert_eq!(init(&[]).unwrap().len(), 0);
    assert_eq!(init(&[entry(0, 0x1000, 2)]).unwrap().len(), 0);
    assert_eq!(init(&[entry(0, 0x8_0000, E820_USABLE)]).unwrap().len(), 0);
}

#[test]
fn firmware_map_marked_both_ways_is_not_used() {
    let map = [entry(0x20_0000, 0x1000, 2), entry(0x20_0000, 0x1000, E820_USABLE)];
    assert_eq!(init(&map).unwrap().len(), 0);
}

#[test]
fn firmware_map_that_overflows() {
    let map = [entry(u64::MAX, 2, E820_USABLE)];
    assert!(matches!(init(&map), Err(MemError::AddressOverflow)));
    let map = [entry(0x20_0000, 0x1000, E820_USABLE), entry(u64::MAX - 1, 3, 2)];
    assert!(matches!(init(&map), Err(MemError::AddressOverflow)));
    let map = [entry(u64::MAX, 1, E820_USABLE)];
    assert_eq!(sorted(&init(&map).unwrap()), vec![(u64::MAX, u64::MAX)]);
}

#[test]
fn firmware_map_with_too_many_pieces() {
    let mut map = Vec::new();
    for i in 0..=CAPACITY as u64 {
        map.push(entry(0x20_0000 + i * 0x2000, 0x1000, E820_USABLE));
    }
    assert!(matches!(init(&map), Err(MemError::CapacityExceeded)));
    // One range with as many holes.
    let mut map = vec![entry(0x20_0000, 0x100_0000, E820_USABLE)];
    for i in 0..CAPACITY as u64 {
        map.push(entry(0x20_1000 + i * 0x2000, 0x1000, 2));
    }
    assert!(matches!(init(&map), Err(MemError::CapacityExceeded)));
    map.pop();
    assert_eq!(init(&map).unwrap().len(), CAPACITY);
}

#[test]
fn heap_takes_and_gives_back() {
    let mut free = RangeSet::new();
    free.insert(Range { start: 0x1000, end: 0x1fff }).unwrap();
    assert_eq!(heap_allocate(&mut free, 0x100, 0x100), Ok(0x1000));
    assert_eq!(heap_allocate(&mut free, 0x10, 0x100), Ok(0x1100));
    assert_eq!(sorted(&free), vec![(0x1110, 0x1fff)]);
    assert_eq!(heap_release(&mut free, 0x1000, 0x100), Ok(()));
    assert_eq!(sorted(&free), vec![(0x1000, 0x10ff), (0x1110, 0x1fff)]);
    assert_eq!(heap_release(&mut free, 0x1100, 0x10), Ok(()));
    assert_eq!(sorted(&free), vec![(0x1000, 0x1fff)]);
    assert_eq!(heap_allocate(&mut free, 0x1001, 1), Err(MemError::OutOfMemory));
    assert_eq!(heap_allocate(&mut free, 0, 1), Err(MemError::InvalidArgument));
    assert_eq!(heap_allocate(&mut free, 8, 12), Err(MemError::InvalidArgument));
}

#[test]
fn heap_release_of_nothing_does_nothing() {
    let mut free = RangeSet::new();
    assert_eq!(heap_release(&mut free, 0x1000, 0), Ok(()));
    assert_eq!(free.len(), 0);
}

#[test]
fn heap_release_beyond_the_last_address() {
    let mut free = RangeSet::new();
    if usize::BITS == 64 {
        assert_eq!(heap_release(&mut free, usize::MAX, 2), Err(MemError::AddressOverflow));
        assert_eq!(free.len(), 0);
        assert_eq!(heap_release(&mut free, usize::MAX, 1), Ok(()));
        assert_eq!(sorted(&free), vec![(u64::MAX, u64::MAX)]);
    }
}

#[test]
fn heap_release_into_full_storage() {
    let mut free = RangeSet::new();
    for i in 0..CAPACITY as u64 {
        free.insert(Range { start: i * 0x100, end: i * 0x100 + 0xf }).unwrap();
    }
    assert_eq!(heap_release(&mut free, 0x80, 8), Err(MemError::CapacityExceeded));
    assert_eq!(heap_release(&mut free, 0x10, 8), Ok(()));
}

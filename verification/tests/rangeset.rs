use sherlock::error::MemError;
use sherlock::rangeset::{contains, is_power_of_two, overlaps, Range, RangeSet, CAPACITY};

fn sorted(set: &RangeSet) -> Vec<(u64, u64)> {
    let mut v: Vec<(u64, u64)> = set.entries().iter().map(|r| (r.start, r.end)).collect();
    v.sort();
    v
}

fn set_of(ranges: &[(u64, u64)]) -> RangeSet {
    let mut set = RangeSet::new();
    for &(start, end) in ranges {
        set.insert(Range { start, end }).unwrap();
    }
    set
}

fn full_set() -> RangeSet {
    let mut set = RangeSet::new();
    for i in 0..CAPACITY as u64 {
        set.insert(Range { start: i * 100, end: i * 100 + 49 }).unwrap();
    }
    set
}

#[test]
fn new_set_is_empty() {
    let set = RangeSet::new();
    assert_eq!(set.entries().len(), 0);
    assert_eq!(set.len(), 0);
    assert_eq!(set.sum(), Ok(0));
}

#[test]
fn adjacent_ranges_merge() {
    let mut set = RangeSet::new();
    assert_eq!(set.insert(Range { start: 0, end: 999 }), Ok(()));
    assert_eq!(set.insert(Range { start: 1000, end: 1999 }), Ok(()));
    assert_eq!(sorted(&set), vec![(0, 1999)]);
}

#[test]
fn allocate_whole_page_then_out_of_memory() {
    let mut set = RangeSet::new();
    set.insert(Range { start: 0, end: 4095 }).unwrap();
    assert_eq!(set.allocate(4096, 4096), Ok(0));
    assert_eq!(set.entries().len(), 0);
    assert_eq!(set.allocate(1, 1), Err(MemError::OutOfMemory));
}

#[test]
fn overlaps_and_contains() {
    assert!(overlaps(0, 10, 10, 20));
    assert!(overlaps(10, 0, 20, 10));
    assert!(!overlaps(0, 9, 10, 20));
    assert!(overlaps(5, 5, 0, 10));
    assert!(contains(3, 5, 0, 10));
    assert!(contains(5, 3, 10, 0));
    assert!(contains(0, 10, 0, 10));
    assert!(!contains(0, 10, 3, 5));
    assert!(!contains(0, 11, 0, 10));
    assert_eq!(CAPACITY, 32);
}

#[test]
fn insert_merges_everything_it_touches() {
    let mut set = set_of(&[(0, 9), (20, 29), (40, 49), (100, 109)]);
    assert_eq!(set.insert(Range { start: 10, end: 39 }), Ok(()));
    assert_eq!(sorted(&set), vec![(0, 49), (100, 109)]);
    assert_eq!(set.insert(Range { start: 45, end: 120 }), Ok(()));
    assert_eq!(sorted(&set), vec![(0, 120)]);
    assert_eq!(set.insert(Range { start: 5, end: 6 }), Ok(()));
    assert_eq!(sorted(&set), vec![(0, 120)]);
    assert_eq!(set.get(0), Range { start: 0, end: 120 });
}

#[test]
fn insert_keeps_a_gap_of_one() {
    let mut set = set_of(&[(0, 9)]);
    set.insert(Range { start: 11, end: 20 }).unwrap();
    assert_eq!(sorted(&set), vec![(0, 9), (11, 20)]);
    set.insert(Range { start: 10, end: 10 }).unwrap();
    assert_eq!(sorted(&set), vec![(0, 20)]);
}

#[test]
fn insert_order_does_not_matter() {
    let ranges = [(50u64, 59u64), (0, 9), (10, 19), (100, 200), (58, 99), (300, 300)];
    let forward = set_of(&ranges);
    let mut reversed = ranges;
    reversed.reverse();
    let backward = set_of(&reversed);
    assert_eq!(sorted(&forward), vec![(0, 19), (50, 200), (300, 300)]);
    assert_eq!(sorted(&forward), sorted(&backward));
}

#[test]
fn insert_into_full_storage() {
    let mut set = full_set();
    assert_eq!(set.len(), CAPACITY);
    let before = sorted(&set);
    assert_eq!(set.insert(Range { start: 60, end: 70 }), Err(MemError::CapacityExceeded));
    assert_eq!(sorted(&set), before);
    // A range that merges still goes in.
    assert_eq!(set.insert(Range { start: 50, end: 99 }), Ok(()));
    assert_eq!(set.len(), CAPACITY - 1);
    assert_eq!(set.insert(Range { start: 10_000, end: 10_001 }), Ok(()));
}

#[test]
fn insert_at_the_last_address() {
    let mut set = set_of(&[(u64::MAX - 10, u64::MAX)]);
    set.insert(Range { start: u64::MAX - 20, end: u64::MAX - 11 }).unwrap();
    assert_eq!(sorted(&set), vec![(u64::MAX - 20, u64::MAX)]);
    set.insert(Range { start: 0, end: u64::MAX }).unwrap();
    assert_eq!(sorted(&set), vec![(0, u64::MAX)]);
    assert_eq!(set.sum(), Err(MemError::AddressOverflow));
}

#[test]
fn remove_drops_trims_and_splits() {
    let mut set = set_of(&[(0, 9), (20, 29), (40, 49), (60, 69)]);
    // Covers one entry, reaches into its neighbours.
    assert_eq!(set.remove(Range { start: 5, end: 44 }), Ok(()));
    assert_eq!(sorted(&set), vec![(0, 4), (45, 49), (60, 69)]);
    // Strictly inside an entry.
    assert_eq!(set.remove(Range { start: 62, end: 63 }), Ok(()));
    assert_eq!(sorted(&set), vec![(0, 4), (45, 49), (60, 61), (64, 69)]);
    // The leading piece stays in place, the trailing piece is appended.
    assert_eq!(set.get(2), Range { start: 60, end: 61 });
    assert_eq!(set.get(3), Range { start: 64, end: 69 });
    // Nothing there.
    assert_eq!(set.remove(Range { start: 10, end: 44 }), Ok(()));
    assert_eq!(sorted(&set), vec![(0, 4), (45, 49), (60, 61), (64, 69)]);
    // Exactly one entry.
    assert_eq!(set.remove(Range { start: 45, end: 49 }), Ok(()));
    assert_eq!(sorted(&set), vec![(0, 4), (60, 61), (64, 69)]);
}

#[test]
fn remove_at_the_ends_of_the_address_space() {
    let mut set = set_of(&[(0, 10), (u64::MAX - 10, u64::MAX)]);
    set.remove(Range { start: u64::MAX - 5, end: u64::MAX }).unwrap();
    assert_eq!(sorted(&set), vec![(0, 10), (u64::MAX - 10, u64::MAX - 6)]);
    set.remove(Range { start: 0, end: 5 }).unwrap();
    assert_eq!(sorted(&set), vec![(6, 10), (u64::MAX - 10, u64::MAX - 6)]);
    set.remove(Range { start: u64::MAX - 8, end: u64::MAX - 8 }).unwrap();
    assert_eq!(
        sorted(&set),
        vec![(6, 10), (u64::MAX - 10, u64::MAX - 9), (u64::MAX - 7, u64::MAX - 6)]
    );
    set.remove(Range { start: 0, end: u64::MAX }).unwrap();
    assert_eq!(set.len(), 0);
}

#[test]
fn remove_split_in_full_storage() {
    let mut set = full_set();
    let before = sorted(&set);
    assert_eq!(set.remove(Range { start: 110, end: 120 }), Err(MemError::CapacityExceeded));
    assert_eq!(sorted(&set), before);
    // Trimming and dropping need no room.
    assert_eq!(set.remove(Range { start: 100, end: 120 }), Ok(()));
    assert_eq!(set.remove(Range { start: 200, end: 249 }), Ok(()));
    assert_eq!(set.len(), CAPACITY - 1);
    assert_eq!(set.remove(Range { start: 310, end: 320 }), Ok(()));
    assert_eq!(set.len(), CAPACITY);
}

#[test]
fn insert_then_remove_restores() {
    let mut set = set_of(&[(0, 9), (20, 29), (100, 199)]);
    let before = sorted(&set);
    // Next to two entries: the three become one and part again.
    set.insert(Range { start: 10, end: 19 }).unwrap();
    assert_eq!(sorted(&set), vec![(0, 29), (100, 199)]);
    set.remove(Range { start: 10, end: 19 }).unwrap();
    assert_eq!(sorted(&set), before);
    // Apart from all entries.
    set.insert(Range { start: 50, end: 60 }).unwrap();
    set.remove(Range { start: 50, end: 60 }).unwrap();
    assert_eq!(sorted(&set), before);
}

#[test]
fn insert_then_remove_of_an_overlapping_range_does_not_restore() {
    let mut set = set_of(&[(0, 7)]);
    set.insert(Range { start: 5, end: 10 }).unwrap();
    set.remove(Range { start: 5, end: 10 }).unwrap();
    assert_eq!(sorted(&set), vec![(0, 4)]);
}

#[test]
fn subtract_takes_out_every_entry() {
    let mut set = set_of(&[(0, 99), (200, 299)]);
    let other = set_of(&[(50, 249), (10, 19)]);
    assert_eq!(set.subtract(&other), Ok(()));
    assert_eq!(sorted(&set), vec![(0, 9), (20, 49), (250, 299)]);
    assert_eq!(set.subtract(&RangeSet::new()), Ok(()));
    assert_eq!(sorted(&set), vec![(0, 9), (20, 49), (250, 299)]);
}

#[test]
fn subtract_stops_when_storage_is_full() {
    let mut set = full_set();
    let other = set_of(&[(0, 49), (110, 120), (210, 220), (400, 449)]);
    assert_eq!(other.get(0), Range { start: 0, end: 49 });
    assert_eq!(other.get(2), Range { start: 210, end: 220 });
    // The first removal makes room for one split, the second split fails.
    assert_eq!(set.subtract(&other), Err(MemError::CapacityExceeded));
    let left = sorted(&set);
    assert_eq!(left.len(), CAPACITY);
    assert_eq!(&left[..4], &[(100, 109), (121, 149), (200, 249), (300, 349)]);
    assert!(left.contains(&(400, 449)));
}

#[test]
fn sum_counts_offsets() {
    assert_eq!(set_of(&[(0, 0)]).sum(), Ok(1));
    assert_eq!(set_of(&[(0, 9), (20, 29), (100, 199)]).sum(), Ok(120));
    assert_eq!(set_of(&[(1, u64::MAX)]).sum(), Ok(u64::MAX));
    assert_eq!(set_of(&[(0, u64::MAX)]).sum(), Err(MemError::AddressOverflow));
}

#[test]
fn allocate_rejects_bad_requests() {
    let mut set = set_of(&[(0, 0xffff)]);
    assert_eq!(set.allocate(0, 16), Err(MemError::InvalidArgument));
    assert_eq!(set.allocate(16, 0), Err(MemError::InvalidArgument));
    assert_eq!(set.allocate(16, 3), Err(MemError::InvalidArgument));
    assert_eq!(set.allocate(16, 24), Err(MemError::InvalidArgument));
    assert_eq!(set.allocate(0, 3), Err(MemError::InvalidArgument));
    assert_eq!(sorted(&set), vec![(0, 0xffff)]);
}

#[test]
fn allocate_more_than_is_free() {
    let mut set = set_of(&[(0, 99), (200, 299)]);
    assert_eq!(set.sum(), Ok(200));
    assert_eq!(set.allocate(201, 1), Err(MemError::OutOfMemory));
    // Less than the total, but more than any entry.
    assert_eq!(set.allocate(101, 1), Err(MemError::OutOfMemory));
    assert_eq!(sorted(&set), vec![(0, 99), (200, 299)]);
    assert_eq!(set.allocate(100, 1), Ok(0));
}

#[test]
fn allocate_takes_the_smallest_entry_that_fits() {
    let mut set = set_of(&[(0x1000, 0x4fff), (0x10000, 0x10fff), (0x20000, 0x211ff)]);
    // The entry of one page fits exactly.
    assert_eq!(set.allocate(0x1000, 0x1000), Ok(0x10000));
    assert_eq!(sorted(&set), vec![(0x1000, 0x4fff), (0x20000, 0x211ff)]);
    // Now the smallest entry that fits is the one at 0x20000.
    assert_eq!(set.allocate(0x1000, 0x1000), Ok(0x20000));
    assert_eq!(sorted(&set), vec![(0x1000, 0x4fff), (0x21000, 0x211ff)]);
    // The small rest does not fit a page.
    assert_eq!(set.allocate(0x1000, 0x1000), Ok(0x1000));
    assert_eq!(sorted(&set), vec![(0x2000, 0x4fff), (0x21000, 0x211ff)]);
    assert_eq!(set.allocate(0x100, 1), Ok(0x21000));
}

#[test]
fn allocate_takes_the_first_of_equal_entries() {
    let mut set = set_of(&[(0x3000, 0x3fff), (0x1000, 0x1fff)]);
    assert_eq!(set.allocate(0x10, 0x10), Ok(0x3000));
    let mut set = set_of(&[(0x1000, 0x1fff), (0x3000, 0x3fff)]);
    assert_eq!(set.allocate(0x10, 0x10), Ok(0x1000));
}

#[test]
fn allocate_skips_to_the_alignment() {
    let mut set = set_of(&[(0x1001, 0x2fff)]);
    assert_eq!(set.allocate(0x1000, 0x1000), Ok(0x2000));
    // The padding in front of the allocation is gone with it.
    assert_eq!(set.len(), 0);
    let mut set = set_of(&[(0x1001, 0x3fff)]);
    assert_eq!(set.allocate(0x1000, 0x1000), Ok(0x2000));
    assert_eq!(sorted(&set), vec![(0x3000, 0x3fff)]);
    // Room for the bytes, but not behind the padding.
    let mut set = set_of(&[(0x1001, 0x2ffe)]);
    assert_eq!(set.allocate(0x1000, 0x1000), Err(MemError::OutOfMemory));
    assert_eq!(sorted(&set), vec![(0x1001, 0x2ffe)]);
}

#[test]
fn allocate_at_the_end_of_the_address_space() {
    if usize::BITS == 64 {
        let mut set = set_of(&[(u64::MAX - 0xfff, u64::MAX)]);
        assert_eq!(set.allocate(0x1001, 1), Err(MemError::OutOfMemory));
        assert_eq!(set.allocate(0x1000, 0x1000), Ok((u64::MAX - 0xfff) as usize));
        assert_eq!(set.len(), 0);
        let mut set = set_of(&[(u64::MAX - 0xffe, u64::MAX)]);
        assert_eq!(set.allocate(1, 0x1000), Err(MemError::OutOfMemory));
    }
}

#[test]
fn powers_of_two() {
    assert!(!is_power_of_two(0));
    assert!(is_power_of_two(1));
    assert!(is_power_of_two(2));
    assert!(!is_power_of_two(3));
    assert!(is_power_of_two(4096));
    assert!(!is_power_of_two(4097));
    assert!(is_power_of_two(1 << 63));
    assert!(!is_power_of_two(u64::MAX));
}

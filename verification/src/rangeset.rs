//! A set of free ranges in fixed storage.

use vstd::prelude::*;
use vstd::arithmetic::power2::is_pow2;
use crate::error::MemError;
use crate::rangeset_model::{
    allocated, best_fit, canonical, covers, fits, hull, insert_fails, inserted, kept, padding,
    points, remove_fails, removed, subtracted, total, touches, trimmed,
};
use crate::rangeset_laws::{
    lemma_allocate_beyond_total, lemma_allocated_sound, lemma_inserted, lemma_total_nonnegative,
    lemma_total_prefix,
};
use crate::rangeset_proofs::{
    lemma_best_fit_unique, lemma_hull, lemma_kept_all, lemma_kept_apart, lemma_kept_member,
    lemma_kept_stretch, lemma_points_step, lemma_remove_entry, lemma_scan_drop, lemma_scan_end,
    lemma_scan_entry, lemma_scan_skip, lemma_scan_split, lemma_scan_start, lemma_scan_trim,
    lemma_subtracted_failed, lemma_touches_hull, scanning,
};

verus! {

/// Number of ranges a `RangeSet` can hold.
pub const CAPACITY: usize = 32;

/// An inclusive range of 64-bit offsets: every `x` with `start <= x <= end`.
#[derive(Clone, Copy, Debug, PartialEq, Eq, Structural)]
pub struct Range {
    pub start: u64,
    pub end: u64,
}

impl Range {
    /// A range is well shaped when it holds at least one offset.
    pub open spec fn shaped(self) -> bool {
        self.start <= self.end
    }

    /// Whether the offset `x` lies in the range.
    pub open spec fn has(self, x: int) -> bool {
        self.start <= x <= self.end
    }

    /// Number of offsets in the range.
    pub open spec fn count(self) -> int {
        self.end - self.start + 1
    }

    /// The offsets of the range as a set.
    pub open spec fn points(self) -> Set<int> {
        Set::new(|x: int| self.has(x))
    }
}

/// Whether two inclusive ranges, each given by two bounds in either order,
/// share at least one offset.
pub open spec fn spec_overlaps(x1: u64, x2: u64, y1: u64, y2: u64) -> bool {
    let (xl, xh) = if x1 <= x2 { (x1, x2) } else { (x2, x1) };
    let (yl, yh) = if y1 <= y2 { (y1, y2) } else { (y2, y1) };
    xl <= yh && yl <= xh
}

/// Whether the first range lies entirely inside the second, each given by two
/// bounds in either order.
pub open spec fn spec_contains(x1: u64, x2: u64, y1: u64, y2: u64) -> bool {
    let (xl, xh) = if x1 <= x2 { (x1, x2) } else { (x2, x1) };
    let (yl, yh) = if y1 <= y2 { (y1, y2) } else { (y2, y1) };
    xl >= yl && xh <= yh
}

/// Does the inclusive range `[x1, x2]` share an offset with `[y1, y2]`?
pub fn overlaps(x1: u64, x2: u64, y1: u64, y2: u64) -> (r: bool)
    ensures
        r == spec_overlaps(x1, x2, y1, y2),
{
    let (xl, xh) = if x1 > x2 { (x2, x1) } else { (x1, x2) };
    let (yl, yh) = if y1 > y2 { (y2, y1) } else { (y1, y2) };
    xl <= yh && yl <= xh
}

/// Is the inclusive range `[x1, x2]` entirely inside `[y1, y2]`?
pub fn contains(x1: u64, x2: u64, y1: u64, y2: u64) -> (r: bool)
    ensures
        r == spec_contains(x1, x2, y1, y2),
{
    let (xl, xh) = if x1 > x2 { (x2, x1) } else { (x1, x2) };
    let (yl, yh) = if y1 > y2 { (y2, y1) } else { (y1, y2) };
    xl >= yl && xh <= yh
}

/// Whether `align` is a power of two.
pub fn is_power_of_two(align: u64) -> (r: bool)
    ensures
        r == is_pow2(align as int),
{
    reveal(is_pow2);
    if align == 0 {
        return false;
    }
    let mut n = align;
    while n % 2 == 0
        invariant
            n > 0,
            is_pow2(n as int) == is_pow2(align as int),
        decreases n,
    {
        proof {
            reveal(is_pow2);
        }
        n = n / 2;
    }
    n == 1
}

/// A set of free ranges in fixed storage: at most `CAPACITY` inclusive ranges,
/// no two of which overlap or are adjacent.
#[derive(Clone, Copy)]
pub struct RangeSet {
    ranges: [Range; CAPACITY],
    in_use: u32,
}

impl RangeSet {
    /// The live entries, in storage order.
    pub closed spec fn view(&self) -> Seq<Range> {
        self.ranges@.subrange(0, self.in_use as int)
    }

    /// The count of live entries fits the storage.
    pub closed spec fn bounded(&self) -> bool {
        self.in_use <= CAPACITY
    }

    /// Validity of a range set.
    pub open spec fn wf(&self) -> bool {
        &&& self.bounded()
        &&& self@.len() <= CAPACITY
        &&& canonical(self@)
    }

    /// An empty set.
    pub fn new() -> (r: RangeSet)
        ensures
            r.wf(),
            r@.len() == 0,
    {
        RangeSet { ranges: [Range { start: 0, end: 0 }; CAPACITY], in_use: 0 }
    }

    /// Number of live entries.
    pub fn len(&self) -> (n: usize)
        requires
            self.wf(),
        ensures
            n == self@.len(),
    {
        self.in_use as usize
    }

    /// The entry at `idx` in storage order.
    pub fn get(&self, idx: usize) -> (r: Range)
        requires
            self.wf(),
            idx < self@.len(),
        ensures
            r == self@[idx as int],
    {
        self.ranges[idx]
    }

    /// The live entries, in storage order.
    pub fn entries(&self) -> (r: &[Range])
        requires
            self.wf(),
        ensures
            r@ == self@,
    {
        vstd::slice::slice_subrange(self.ranges.as_slice(), 0, self.in_use as usize)
    }

    /// Drops the entry at `idx`; the entries behind it move up by one.
    fn delete(&mut self, idx: usize)
        requires
            old(self).bounded(),
            idx < old(self)@.len(),
        ensures
            final(self).bounded(),
            final(self)@ == old(self)@.remove(idx as int),
    {
        let n = self.in_use as usize;
        let mut ii = idx;
        while ii + 1 < n
            invariant
                n == self.in_use,
                n == old(self).in_use,
                n <= CAPACITY,
                idx <= ii < n,
                forall|k: int| 0 <= k < idx ==> self.ranges@[k] == old(self).ranges@[k],
                forall|k: int| idx <= k < ii ==> self.ranges@[k] == old(self).ranges@[k + 1],
                forall|k: int| ii < k < n ==> self.ranges@[k] == old(self).ranges@[k],
            decreases n - ii,
        {
            let next = self.ranges[ii + 1];
            self.ranges[ii] = next;
            ii += 1;
        }
        self.in_use = self.in_use - 1;
        assert(self@ =~= old(self)@.remove(idx as int));
    }

    /// Index of the first entry that overlaps `range` or is adjacent to it.
    fn find_touching(&self, range: Range) -> (r: Option<usize>)
        requires
            self.wf(),
            range.shaped(),
        ensures
            match r {
                Some(i) => i < self@.len() && touches(self@[i as int], range) && forall|j: int|
                    0 <= j < i ==> !touches(#[trigger] self@[j], range),
                None => forall|j: int| 0 <= j < self@.len() ==> !touches(#[trigger] self@[j], range),
            },
    {
        let n = self.in_use as usize;
        let mut i: usize = 0;
        while i < n
            invariant
                self.wf(),
                range.shaped(),
                n == self@.len(),
                i <= n,
                forall|j: int| 0 <= j < i ==> !touches(#[trigger] self@[j], range),
            decreases n - i,
        {
            let ent = self.ranges[i];
            assert(ent == self@[i as int]);
            // Ranges that touch without overlapping merge too, so both ends
            // are widened by one.
            if overlaps(
                range.start,
                range.end.saturating_add(1),
                ent.start,
                ent.end.saturating_add(1),
            ) {
                return Some(i);
            }
            i += 1;
        }
        None
    }

    /// Adds every offset of `range` to the set. The range is merged with every
    /// entry that it overlaps or touches, so the set stays canonical. Fails,
    /// leaving the set as it was, when the storage is full and nothing merges.
    pub fn insert(&mut self, range: Range) -> (r: Result<(), MemError>)
        requires
            old(self).wf(),
            range.shaped(),
        ensures
            final(self).wf(),
            r is Err <==> insert_fails(old(self)@, range),
            r is Err ==> r == Err::<(), MemError>(MemError::CapacityExceeded) && final(self)@ == old(
                self,
            )@,
            r is Ok ==> final(self)@ == inserted(old(self)@, range),
            r is Ok ==> points(final(self)@) == points(old(self)@).union(range.points()),
            r is Ok ==> final(self)@.len() <= old(self)@.len() + 1,
    {
        proof {
            assert(self@ =~= kept(self@.take(0), range) + self@.skip(0));
        }
        let mut merged = range;
        // How many of the entries are dealt with: kept, or merged.
        let ghost mut k: int = 0;
        loop
            invariant
                self.wf(),
                old(self).wf(),
                range.shaped(),
                0 <= k <= old(self)@.len(),
                self@ == kept(old(self)@.take(k), range) + old(self)@.skip(k),
                merged == hull(old(self)@.take(k), range),
            ensures
                self@ == kept(old(self)@, range),
                merged == hull(old(self)@, range),
            decreases self@.len(),
        {
            let ghost all = old(self)@;
            let ghost head = kept(all.take(k), range);
            proof {
                lemma_kept_apart(all.take(k), range);
                assert forall|j: int| 0 <= j < all.take(k).len() implies (#[trigger] all.take(
                    k,
                )[j]).shaped() by {
                    assert(all.take(k)[j] == all[j]);
                }
                lemma_hull(all.take(k), range);
            }
            match self.find_touching(merged) {
                None => {
                    proof {
                        // What is left behind the entries seen does not
                        // touch the range, as it does not touch what holds it.
                        assert forall|j: int| k <= j < all.len() implies !touches(
                            #[trigger] all[j],
                            range,
                        ) by {
                            assert(self@[head.len() + j - k] == all[j]);
                        }
                        lemma_kept_stretch(all, range, k, all.len() as int);
                        assert(all.take(all.len() as int) =~= all);
                        assert(head + all.subrange(k, all.len() as int) =~= self@);
                    }
                    break ;
                },
                Some(i) => {
                    let ent = self.ranges[i];
                    let ghost s0 = self@;
                    // Where the entry found stands among all entries.
                    let ghost m = k + i - head.len();
                    proof {
                        assert(ent == s0[i as int]);
                        // The entry found is none of those kept, as they do
                        // not touch the range.
                        if i < head.len() {
                            assert(head[i as int] == s0[i as int]);
                            lemma_kept_member(all.take(k), range, i as int);
                            assert(all.contains(head[i as int])) by {
                                let j = choose|j: int|
                                    0 <= j < all.take(k).len() && all.take(k)[j] == head[i as int];
                                assert(all[j] == head[i as int]);
                            }
                            lemma_touches_hull(all, k, head[i as int], range);
                        }
                        assert(all[m] == ent);
                        assert(all.contains(ent));
                        lemma_touches_hull(all, k, ent, range);
                        assert forall|j: int| k <= j < m implies !touches(#[trigger] all[j], range) by {
                            assert(self@[head.len() + j - k] == all[j]);
                        }
                        lemma_kept_stretch(all, range, k, m);
                        assert(all.take(m + 1).drop_last() =~= all.take(m));
                        assert(all.take(m + 1).last() == ent);
                    }
                    // There was overlap: widen the range to hold the entry.
                    let start = if ent.start < merged.start { ent.start } else { merged.start };
                    let end = if ent.end > merged.end { ent.end } else { merged.end };
                    merged = Range { start, end };
                    // Delete the old entry, as the new one holds it.
                    self.delete(i);
                    proof {
                        assert(self@ =~= kept(all.take(m + 1), range) + all.skip(m + 1));
                        k = m + 1;
                        lemma_remove_entry(s0, i as int);
                    }
                },
            }
        }
        proof {
            lemma_inserted(old(self)@, range);
            lemma_kept_all(old(self)@, range);
        }
        if self.in_use as usize >= CAPACITY {
            return Err(MemError::CapacityExceeded);
        }
        // Add the new range to the end.
        let ghost before = self@;
        let n = self.in_use as usize;
        self.ranges[n] = merged;
        self.in_use = self.in_use + 1;
        assert(self@ =~= before.push(merged));
        Ok(())
    }

    /// Takes every offset of `range` out of the set. An entry that `range`
    /// covers is dropped, one that it reaches into is trimmed, and one that
    /// holds it strictly inside is split in two: the leading piece stays in
    /// place and the trailing piece is appended. Fails, leaving the set as it
    /// was, when a split is due and the storage is full.
    pub fn remove(&mut self, range: Range) -> (r: Result<(), MemError>)
        requires
            old(self).wf(),
            range.shaped(),
        ensures
            final(self).wf(),
            r is Err <==> remove_fails(old(self)@, range),
            r is Err ==> r == Err::<(), MemError>(MemError::CapacityExceeded) && final(self)@ == old(
                self,
            )@,
            r is Ok ==> final(self)@ == removed(old(self)@, range),
            r is Ok ==> points(final(self)@) == points(old(self)@).difference(range.points()),
            r is Ok ==> final(self)@.len() <= old(self)@.len() + 1,
    {
        proof {
            lemma_scan_start(self@, range);
        }
        let mut i: usize = 0;
        let ghost mut k: int = 0;
        while i < self.in_use as usize
            invariant
                self.bounded(),
                old(self).wf(),
                range.shaped(),
                self@.len() <= old(self)@.len(),
                scanning(old(self)@, self@, range, i as int, k),
            decreases self@.len() - i,
        {
            let ent = self.ranges[i];
            let ghost s0 = self@;
            proof {
                lemma_scan_entry(old(self)@, s0, range, i as int, k);
                assert(ent == s0[i as int]);
            }
            if !overlaps(range.start, range.end, ent.start, ent.end) {
                proof {
                    lemma_scan_skip(old(self)@, s0, range, i as int, k);
                    k = k + 1;
                }
                i += 1;
            } else if contains(ent.start, ent.end, range.start, range.end) {
                self.delete(i);
                proof {
                    lemma_scan_drop(old(self)@, s0, range, i as int, k);
                    k = k + 1;
                }
            } else if range.start <= ent.start {
                self.ranges[i] = Range { start: range.end + 1, end: ent.end };
                proof {
                    assert(self@ =~= s0.update(i as int, trimmed(ent, range)));
                    lemma_scan_trim(old(self)@, s0, range, i as int, k);
                    k = k + 1;
                }
                i += 1;
            } else if range.end >= ent.end {
                self.ranges[i] = Range { start: ent.start, end: range.start - 1 };
                proof {
                    assert(self@ =~= s0.update(i as int, trimmed(ent, range)));
                    lemma_scan_trim(old(self)@, s0, range, i as int, k);
                    k = k + 1;
                }
                i += 1;
            } else {
                proof {
                    lemma_scan_split(old(self)@, s0, range, i as int, k);
                }
                if self.in_use as usize >= CAPACITY {
                    return Err(MemError::CapacityExceeded);
                }
                let n = self.in_use as usize;
                let lead = Range { start: ent.start, end: range.start - 1 };
                let trail = Range { start: range.end + 1, end: ent.end };
                self.ranges[i] = lead;
                self.ranges[n] = trail;
                self.in_use = self.in_use + 1;
                proof {
                    assert(self@ =~= s0.update(i as int, lead).push(trail));
                }
                return Ok(());
            }
        }
        proof {
            lemma_scan_end(old(self)@, self@, range, i as int, k);
        }
        Ok(())
    }

    /// Number of offsets in the set. Fails when the number does not fit 64
    /// bits.
    pub fn sum(&self) -> (r: Result<u64, MemError>)
        requires
            self.wf(),
        ensures
            r == if total(self@) <= u64::MAX {
                Ok::<u64, MemError>(total(self@) as u64)
            } else {
                Err::<u64, MemError>(MemError::AddressOverflow)
            },
    {
        let n = self.in_use as usize;
        let mut acc: u64 = 0;
        let mut i: usize = 0;
        while i < n
            invariant
                self.wf(),
                n == self@.len(),
                i <= n,
                acc == total(self@.take(i as int)),
            decreases n - i,
        {
            let ent = self.ranges[i];
            proof {
                assert(ent == self@[i as int]);
                assert(self@.take(i + 1).drop_last() =~= self@.take(i as int));
                lemma_total_prefix(self@, i + 1);
            }
            let count = match (ent.end - ent.start).checked_add(1) {
                Some(c) => c,
                None => {
                    return Err(MemError::AddressOverflow);
                },
            };
            acc = match acc.checked_add(count) {
                Some(a) => a,
                None => {
                    return Err(MemError::AddressOverflow);
                },
            };
            i += 1;
        }
        assert(self@.take(n as int) =~= self@);
        Ok(acc)
    }

    /// Takes `size` offsets, the first of them a multiple of `align`, out of
    /// the smallest entry that has room for them, and returns the first. The
    /// offsets skipped at the front of the entry to reach the alignment leave
    /// the set too. Of several smallest entries the first in storage order is
    /// taken.
    pub fn allocate(&mut self, size: u64, align: u64) -> (r: Result<usize, MemError>)
        requires
            old(self).wf(),
        ensures
            final(self).wf(),
            (final(self)@, r) == allocated(old(self)@, size, align),
            r is Ok <==> size > 0 && is_pow2(align as int) && exists|i: int|
                0 <= i < old(self)@.len() && fits(#[trigger] old(self)@[i], size, align),
            size == 0 || !is_pow2(align as int) ==> r == Err::<usize, MemError>(
                MemError::InvalidArgument,
            ),
            is_pow2(align as int) && size > total(old(self)@) ==> r == Err::<usize, MemError>(
                MemError::OutOfMemory,
            ),
            r matches Ok(a) ==> {
                &&& a as int % align as int == 0
                &&& exists|i: int|
                    0 <= i < old(self)@.len() && (#[trigger] old(self)@[i]).start <= a && a + size
                        - 1 <= old(self)@[i].end && points(final(self)@) == points(
                        old(self)@,
                    ).difference(
                        Range { start: old(self)@[i].start, end: (a + size - 1) as u64 }.points(),
                    )
            },
    {
        proof {
            lemma_total_nonnegative(self@);
        }
        if size == 0 || !is_power_of_two(align) {
            return Err(MemError::InvalidArgument);
        }
        proof {
            assert(align > 0) by {
                reveal(is_pow2);
            }
            if size > total(self@) {
                lemma_allocate_beyond_total(self@, size, align);
            }
        }
        let n = self.in_use as usize;
        // Index of the best entry so far, and the last offset taken from it.
        let mut best: Option<(usize, u64)> = None;
        let mut i: usize = 0;
        while i < n
            invariant
                self.wf(),
                n == self@.len(),
                i <= n,
                size > 0,
                align > 0,
                match best {
                    None => forall|j: int| 0 <= j < i ==> !fits(#[trigger] self@[j], size, align),
                    Some((b, last)) => {
                        &&& best_fit(self@.take(i as int), size, align, b as int)
                        &&& last == self@[b as int].start + padding(self@[b as int].start, align)
                            + size - 1
                    },
                },
            decreases n - i,
        {
            let ent = self.ranges[i];
            proof {
                assert(ent == self@[i as int]);
                assert forall|j: int| 0 <= j < i + 1 implies #[trigger] self@.take(i + 1)[j]
                    == self@[j] by {}
                assert forall|j: int| 0 <= j < i implies #[trigger] self@.take(i as int)[j]
                    == self@[j] by {}
            }
            let rem = ent.start % align;
            let pad = if rem == 0 {
                0
            } else {
                align - rem
            };
            let fit = match ent.start.checked_add(pad) {
                None => None,
                Some(first) => match first.checked_add(size - 1) {
                    None => None,
                    Some(last) => if last <= ent.end && last <= usize::MAX as u64 {
                        Some(last)
                    } else {
                        None
                    },
                },
            };
            assert(fit is Some <==> fits(ent, size, align));
            if let Some(last) = fit {
                let better = match best {
                    None => true,
                    Some((b, _)) => {
                        let held = self.ranges[b];
                        assert(held == self@[b as int]);
                        held.end - held.start > ent.end - ent.start
                    },
                };
                if better {
                    best = Some((i, last));
                }
            }
            i += 1;
        }
        assert(self@.take(n as int) =~= self@);
        proof {
            lemma_allocated_sound(self@, size, align);
        }
        match best {
            None => Err(MemError::OutOfMemory),
            Some((b, last)) => {
                let ent = self.ranges[b];
                proof {
                    assert(ent == self@[b as int]);
                    lemma_best_fit_unique(self@, size, align, b as int);
                }
                // Take the allocation, and the padding in front of it, out
                // of the entry.
                if last == ent.end {
                    self.delete(b);
                } else {
                    let ghost before = self@;
                    self.ranges[b] = Range { start: last + 1, end: ent.end };
                    assert(self@ =~= before.update(
                        b as int,
                        Range { start: (last + 1) as u64, end: ent.end },
                    ));
                }
                Ok((last - (size - 1)) as usize)
            },
        }
    }

    /// Takes every offset of `rs` out of the set, entry by entry in the
    /// storage order of `rs`. Stops at the first entry whose removal needs a
    /// split that the storage has no room for; what was taken out before
    /// stays out.
    pub fn subtract(&mut self, rs: &RangeSet) -> (r: Result<(), MemError>)
        requires
            old(self).wf(),
            rs.wf(),
        ensures
            final(self).wf(),
            (final(self)@, r) == subtracted(old(self)@, rs@, rs@.len() as int),
            r is Ok ==> points(final(self)@) == points(old(self)@).difference(points(rs@)),
    {
        let n = rs.in_use as usize;
        let mut k: usize = 0;
        proof {
            assert(points(self@) =~= points(self@).difference(points(rs@.take(0))));
        }
        while k < n
            invariant
                self.wf(),
                rs.wf(),
                n == rs@.len(),
                k <= n,
                subtracted(old(self)@, rs@, k as int) == (self@, Ok::<(), MemError>(())),
                points(self@) == points(old(self)@).difference(points(rs@.take(k as int))),
            decreases n - k,
        {
            let ent = rs.ranges[k];
            proof {
                assert(ent == rs@[k as int]);
                lemma_points_step(rs@, k as int);
                assert(points(old(self)@).difference(points(rs@.take(k + 1))) =~= points(
                    old(self)@,
                ).difference(points(rs@.take(k as int))).difference(ent.points()));
            }
            match self.remove(ent) {
                Ok(()) => {},
                Err(e) => {
                    proof {
                        lemma_subtracted_failed(old(self)@, rs@, k + 1, n as int);
                    }
                    return Err(e);
                },
            }
            k += 1;
        }
        proof {
            assert(rs@.take(n as int) =~= rs@);
        }
        Ok(())
    }
}

} // verus!

//! What the operations on range sets do, stated on sequences of ranges.

use vstd::prelude::*;
use vstd::arithmetic::power2::is_pow2;
use crate::error::MemError;
use crate::rangeset::{CAPACITY, Range};

verus! {

/// Two ranges share an offset.
pub open spec fn meets(a: Range, b: Range) -> bool {
    a.start <= b.end && b.start <= a.end
}

/// Two ranges share an offset or lie directly next to each other.
pub open spec fn touches(a: Range, b: Range) -> bool {
    a.start <= b.end + 1 && b.start <= a.end + 1
}

/// `inner` lies in `outer` and reaches neither of its ends.
pub open spec fn strictly_inside(inner: Range, outer: Range) -> bool {
    outer.start < inner.start && inner.end < outer.end
}

/// `r` holds every offset of `e`.
pub open spec fn covered(e: Range, r: Range) -> bool {
    r.start <= e.start && e.end <= r.end
}

/// The entries are well shaped, and no two of them overlap or are adjacent.
pub open spec fn canonical(s: Seq<Range>) -> bool {
    &&& forall|i: int| 0 <= i < s.len() ==> (#[trigger] s[i]).shaped()
    &&& forall|i: int, j: int|
        0 <= i < s.len() && 0 <= j < s.len() && i != j ==> !touches(#[trigger] s[i], #[trigger] s[j])
}

/// Some entry of `s` holds the offset `x`.
pub open spec fn covers(s: Seq<Range>, x: int) -> bool {
    exists|i: int| 0 <= i < s.len() && (#[trigger] s[i]).has(x)
}

/// All offsets held by the entries of `s`.
pub open spec fn points(s: Seq<Range>) -> Set<int> {
    Set::new(|x: int| covers(s, x))
}

/// Number of offsets in all entries of `s` together.
pub open spec fn total(s: Seq<Range>) -> int
    decreases s.len(),
{
    if s.len() == 0 {
        0
    } else {
        total(s.drop_last()) + s.last().count()
    }
}

/// The entries of `s` that neither overlap `r` nor lie next to it, in their
/// order.
pub open spec fn kept(s: Seq<Range>, r: Range) -> Seq<Range>
    decreases s.len(),
{
    if s.len() == 0 {
        s
    } else if touches(s.last(), r) {
        kept(s.drop_last(), r)
    } else {
        kept(s.drop_last(), r).push(s.last())
    }
}

/// The range `r` widened to hold every entry of `s` that overlaps it or lies
/// next to it.
pub open spec fn hull(s: Seq<Range>, r: Range) -> Range
    decreases s.len(),
{
    if s.len() == 0 {
        r
    } else {
        let h = hull(s.drop_last(), r);
        let e = s.last();
        if touches(e, r) {
            Range {
                start: if e.start < h.start {
                    e.start
                } else {
                    h.start
                },
                end: if e.end > h.end {
                    e.end
                } else {
                    h.end
                },
            }
        } else {
            h
        }
    }
}

/// The entries after `r` was inserted: those that `r` does not touch stay in
/// their order, and one entry that holds `r` and all that it touched is
/// appended.
pub open spec fn inserted(s: Seq<Range>, r: Range) -> Seq<Range> {
    kept(s, r).push(hull(s, r))
}

/// An insertion of `r` is refused: the storage is full, and `r` touches no
/// entry, so that it would need a place of its own.
pub open spec fn insert_fails(s: Seq<Range>, r: Range) -> bool {
    s.len() == CAPACITY && forall|i: int| 0 <= i < s.len() ==> !touches(#[trigger] s[i], r)
}

/// What stays in place of an entry `e` that `r` does not cover: `e` itself
/// where `r` shares no offset with it, else the part behind `r` where `r`
/// reaches over the start of `e`, else the part in front of `r`.
pub open spec fn trimmed(e: Range, r: Range) -> Range {
    if !meets(e, r) {
        e
    } else if r.start <= e.start {
        Range { start: (r.end + 1) as u64, end: e.end }
    } else {
        Range { start: e.start, end: (r.start - 1) as u64 }
    }
}

/// What stays in place of the entries `s` when `r` is removed: the entries
/// that `r` covers are gone, the others are trimmed.
pub open spec fn survivors(s: Seq<Range>, r: Range) -> Seq<Range>
    decreases s.len(),
{
    if s.len() == 0 {
        s
    } else if covered(s.last(), r) {
        survivors(s.drop_last(), r)
    } else {
        survivors(s.drop_last(), r).push(trimmed(s.last(), r))
    }
}

/// The part behind `r` of each entry of `s` that holds `r` strictly inside.
pub open spec fn trails(s: Seq<Range>, r: Range) -> Seq<Range>
    decreases s.len(),
{
    if s.len() == 0 {
        s
    } else if strictly_inside(r, s.last()) {
        trails(s.drop_last(), r).push(Range { start: (r.end + 1) as u64, end: s.last().end })
    } else {
        trails(s.drop_last(), r)
    }
}

/// The entries after `r` was removed: what stays in place, and behind it the
/// trailing piece of an entry that was split.
pub open spec fn removed(s: Seq<Range>, r: Range) -> Seq<Range> {
    survivors(s, r) + trails(s, r)
}

/// A removal of `r` is refused: the storage is full, and an entry holds `r`
/// strictly inside, so that it would have to be split.
pub open spec fn remove_fails(s: Seq<Range>, r: Range) -> bool {
    s.len() == CAPACITY && exists|i: int| 0 <= i < s.len() && strictly_inside(r, #[trigger] s[i])
}

/// What removing the first `k` entries of `rs`, one after the other, makes of
/// the entries `s`, and what comes of it: the first removal that is refused
/// ends it.
pub open spec fn subtracted(s: Seq<Range>, rs: Seq<Range>, k: int) -> (
    Seq<Range>,
    Result<(), MemError>,
)
    decreases k,
{
    if k <= 0 {
        (s, Ok(()))
    } else {
        let (t, r) = subtracted(s, rs, k - 1);
        if r is Err || remove_fails(t, rs[k - 1]) {
            (t, Err(MemError::CapacityExceeded))
        } else {
            (removed(t, rs[k - 1]), Ok(()))
        }
    }
}

/// Offsets to skip from `start` to reach the next multiple of `align`.
pub open spec fn padding(start: u64, align: u64) -> int {
    let rem = (start as int) % (align as int);
    if rem == 0 {
        0
    } else {
        align - rem
    }
}

/// The entry has room for `size` offsets behind the padding that `align` asks
/// for, and the last of them can be addressed on this machine.
pub open spec fn fits(ent: Range, size: u64, align: u64) -> bool {
    let last = ent.start + padding(ent.start, align) + size - 1;
    last <= ent.end && last <= usize::MAX
}

/// Entry `i` is the one an allocation takes from: it fits, no fitting entry is
/// smaller, and no fitting entry of the same size stands before it.
pub open spec fn best_fit(s: Seq<Range>, size: u64, align: u64, i: int) -> bool {
    &&& 0 <= i < s.len()
    &&& fits(s[i], size, align)
    &&& forall|j: int|
        0 <= j < s.len() && fits(#[trigger] s[j], size, align) ==> s[i].count() < s[j].count() || (
        s[i].count() == s[j].count() && i <= j)
}

/// The entries after an allocation took the front of entry `i`, up to and
/// including `last`.
pub open spec fn carved(s: Seq<Range>, i: int, last: int) -> Seq<Range> {
    if last == s[i].end {
        s.remove(i)
    } else {
        s.update(i, Range { start: (last + 1) as u64, end: s[i].end })
    }
}

/// What an allocation of `size` offsets aligned to `align` does to the
/// entries `s`, and what it returns.
pub open spec fn allocated(s: Seq<Range>, size: u64, align: u64) -> (Seq<Range>, Result<
    usize,
    MemError,
>) {
    if size == 0 || !is_pow2(align as int) {
        (s, Err(MemError::InvalidArgument))
    } else if exists|i: int| best_fit(s, size, align, i) {
        let i = choose|i: int| best_fit(s, size, align, i);
        let first = s[i].start + padding(s[i].start, align);
        (carved(s, i, first + size - 1), Ok(first as usize))
    } else {
        (s, Err(MemError::OutOfMemory))
    }
}

} // verus!

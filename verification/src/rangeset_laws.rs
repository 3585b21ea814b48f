//! What holds of the operations on range sets.

use vstd::prelude::*;
use vstd::arithmetic::power2::is_pow2;
use crate::error::MemError;
use crate::rangeset::{CAPACITY, Range};
use crate::rangeset_model::{
    allocated, best_fit, canonical, carved, covered, covers, fits, hull, inserted, kept, meets,
    padding, points, remove_fails, removed, strictly_inside, total, touches, trimmed,
};
use crate::rangeset_proofs::{
    lemma_aligned, lemma_hull, lemma_kept_apart, lemma_kept_member, lemma_remove_entry,
    lemma_scan_drop, lemma_scan_end, lemma_scan_entry, lemma_scan_skip, lemma_scan_split,
    lemma_scan_start, lemma_scan_trim, lemma_shrink_entry, lemma_split_entry, lemma_touches_hull,
    scanning,
};

verus! {

/// Two canonical lists of entries that hold the same offsets hold the same
/// entries: what a series of insertions and removals leaves depends only on
/// the offsets, not on the order of the calls.
pub proof fn lemma_canonical_unique(a: Seq<Range>, b: Seq<Range>)
    requires
        canonical(a),
        canonical(b),
        points(a) == points(b),
    ensures
        a.to_set() == b.to_set(),
        a.len() == b.len(),
{
    lemma_canonical_subset(a, b);
    lemma_canonical_subset(b, a);
    assert(a.to_set() =~= b.to_set());
    lemma_canonical_distinct(a);
    lemma_canonical_distinct(b);
    a.unique_seq_to_set();
    b.unique_seq_to_set();
}

/// No entry occurs twice in a canonical list.
proof fn lemma_canonical_distinct(a: Seq<Range>)
    requires
        canonical(a),
    ensures
        a.no_duplicates(),
{
    assert forall|i: int, j: int| 0 <= i < a.len() && 0 <= j < a.len() && i != j implies a[i]
        != a[j] by {
        assert(!touches(a[i], a[j]));
    }
}

/// Each entry of a canonical list is an entry of any canonical list with the
/// same offsets.
proof fn lemma_canonical_subset(a: Seq<Range>, b: Seq<Range>)
    requires
        canonical(a),
        canonical(b),
        points(a) == points(b),
    ensures
        forall|r: Range| a.to_set().contains(r) ==> b.to_set().contains(r),
{
    assert forall|r: Range| a.to_set().contains(r) implies b.to_set().contains(r) by {
        let i = choose|i: int| 0 <= i < a.len() && a[i] == r;
        assert(a[i].has(a[i].start as int));
        lemma_same_offsets(a, b, a[i].start as int);
        let j = choose|j: int| 0 <= j < b.len() && (#[trigger] b[j]).has(a[i].start as int);
        if b[j].start < a[i].start {
            let p = a[i].start - 1;
            assert(b[j].has(p));
            lemma_same_offsets(b, a, p);
            let k = choose|k: int| 0 <= k < a.len() && (#[trigger] a[k]).has(p);
            assert(touches(a[k], a[i]));
        }
        if b[j].end < a[i].end {
            let p = b[j].end + 1;
            assert(a[i].has(p));
            lemma_same_offsets(a, b, p);
            let k = choose|k: int| 0 <= k < b.len() && (#[trigger] b[k]).has(p);
            assert(touches(b[k], b[j]));
        }
        if b[j].end > a[i].end {
            let p = a[i].end + 1;
            assert(b[j].has(p));
            lemma_same_offsets(b, a, p);
            let k = choose|k: int| 0 <= k < a.len() && (#[trigger] a[k]).has(p);
            assert(touches(a[k], a[i]));
        }
        assert(b[j] == r);
    }
}

/// Lists with the same offsets cover the same offsets.
proof fn lemma_same_offsets(a: Seq<Range>, b: Seq<Range>, x: int)
    requires
        points(a) == points(b),
        covers(a, x),
    ensures
        covers(b, x),
{
    assert(points(a).contains(x));
    assert(points(b).contains(x));
}

/// An entry that touches `r` lies in the hull, and one that does not is
/// kept.
proof fn lemma_hull_or_kept(s: Seq<Range>, r: Range, j: int)
    requires
        0 <= j < s.len(),
    ensures
        touches(s[j], r) ==> hull(s, r).start <= s[j].start && s[j].end <= hull(s, r).end,
        !touches(s[j], r) ==> kept(s, r).contains(s[j]),
    decreases s.len(),
{
    let t = s.drop_last();
    if j < s.len() - 1 {
        lemma_hull_or_kept(t, r, j);
        if !touches(s[j], r) {
            let i = choose|i: int| 0 <= i < kept(t, r).len() && kept(t, r)[i] == t[j];
            assert(kept(s, r)[i] == s[j]);
        }
    } else if !touches(s[j], r) {
        assert(kept(s, r)[kept(t, r).len() as int] == s[j]);
    }
}

/// The entries kept of canonical entries are canonical.
proof fn lemma_kept_canonical(s: Seq<Range>, r: Range)
    requires
        canonical(s),
    ensures
        canonical(kept(s, r)),
    decreases s.len(),
{
    if s.len() > 0 {
        let t = s.drop_last();
        assert forall|j: int| 0 <= j < t.len() implies #[trigger] t[j] == s[j] by {}
        lemma_kept_canonical(t, r);
        let c = kept(s, r);
        if !touches(s.last(), r) {
            assert forall|a: int, b: int|
                0 <= a < c.len() && 0 <= b < c.len() && a != b implies !touches(
                #[trigger] c[a],
                #[trigger] c[b],
            ) by {
                let n = kept(t, r).len() as int;
                if a < n && b < n {
                    assert(!touches(kept(t, r)[a], kept(t, r)[b]));
                } else {
                    let i = if a < n { a } else { b };
                    lemma_kept_member(t, r, i);
                    let j = choose|j: int| 0 <= j < t.len() && t[j] == kept(t, r)[i];
                    assert(!touches(s[j], s[s.len() - 1]));
                }
            }
            assert forall|a: int| 0 <= a < c.len() implies (#[trigger] c[a]).shaped() by {
                let n = kept(t, r).len() as int;
                if a < n {
                    assert(kept(t, r)[a].shaped());
                }
            }
        }
    }
}

/// Inserting a range keeps the entries canonical and adds exactly the offsets
/// of the range.
pub proof fn lemma_inserted(s: Seq<Range>, r: Range)
    requires
        canonical(s),
        r.shaped(),
    ensures
        canonical(inserted(s, r)),
        points(inserted(s, r)) == points(s).union(r.points()),
{
    let c = inserted(s, r);
    let n = kept(s, r).len() as int;
    let h = hull(s, r);
    lemma_kept_canonical(s, r);
    lemma_kept_apart(s, r);
    lemma_hull(s, r);
    assert(s.take(s.len() as int) =~= s);
    assert forall|a: int, b: int| 0 <= a < c.len() && 0 <= b < c.len() && a != b implies !touches(
        #[trigger] c[a],
        #[trigger] c[b],
    ) by {
        if a < n && b < n {
            assert(!touches(kept(s, r)[a], kept(s, r)[b]));
        } else {
            let i = if a < n { a } else { b };
            lemma_kept_member(s, r, i);
            if touches(kept(s, r)[i], h) {
                lemma_touches_hull(s, s.len() as int, kept(s, r)[i], r);
            }
        }
    }
    assert forall|a: int| 0 <= a < c.len() implies (#[trigger] c[a]).shaped() by {
        if a < n {
            assert(kept(s, r)[a].shaped());
        }
    }
    assert forall|x: int| points(c).contains(x) <==> points(s).union(r.points()).contains(x) by {
        if covers(c, x) {
            let a = choose|a: int| 0 <= a < c.len() && (#[trigger] c[a]).has(x);
            if a < n {
                lemma_kept_member(s, r, a);
                let j = choose|j: int| 0 <= j < s.len() && s[j] == kept(s, r)[a];
                assert(s[j].has(x));
            }
        }
        if covers(s, x) {
            let j = choose|j: int| 0 <= j < s.len() && (#[trigger] s[j]).has(x);
            lemma_hull_or_kept(s, r, j);
            if touches(s[j], r) {
                assert(c[n].has(x));
            } else {
                let a = choose|a: int| 0 <= a < n && kept(s, r)[a] == s[j];
                assert(c[a].has(x));
            }
        }
        if r.has(x) {
            assert(c[n].has(x));
        }
    }
    assert(points(c) =~= points(s).union(r.points()));
}

/// Removing a range keeps the entries canonical and takes exactly the offsets
/// of the range out.
pub proof fn lemma_removed(s: Seq<Range>, r: Range)
    requires
        canonical(s),
        r.shaped(),
    ensures
        canonical(removed(s, r)),
        points(removed(s, r)) == points(s).difference(r.points()),
{
    lemma_scan_start(s, r);
    lemma_scan_run(s, s, r, 0, 0);
}

/// A removal that has come some way goes on to its end.
proof fn lemma_scan_run(all: Seq<Range>, cur: Seq<Range>, r: Range, i: int, k: int)
    requires
        scanning(all, cur, r, i, k),
        0 <= i <= cur.len(),
        0 <= k <= all.len(),
    ensures
        canonical(removed(all, r)),
        points(removed(all, r)) == points(all).difference(r.points()),
    decreases all.len() - k,
{
    if i >= cur.len() {
        lemma_scan_end(all, cur, r, i, k);
    } else {
        lemma_scan_entry(all, cur, r, i, k);
        let e = cur[i];
        if !meets(e, r) {
            lemma_scan_skip(all, cur, r, i, k);
            lemma_scan_run(all, cur, r, i + 1, k + 1);
        } else if covered(e, r) {
            lemma_scan_drop(all, cur, r, i, k);
            lemma_scan_run(all, cur.remove(i), r, i, k + 1);
        } else if strictly_inside(r, e) {
            lemma_scan_split(all, cur, r, i, k);
        } else {
            lemma_scan_trim(all, cur, r, i, k);
            lemma_scan_run(all, cur.update(i, trimmed(e, r)), r, i + 1, k + 1);
        }
    }
}

/// What inserting the first `k` of the ranges `rs` into an empty set, one
/// after the other, leaves.
pub open spec fn inserted_all(rs: Seq<Range>, k: int) -> Seq<Range>
    decreases k,
{
    if k <= 0 {
        Seq::empty()
    } else {
        inserted(inserted_all(rs, k - 1), rs[k - 1])
    }
}

/// A series of insertions leaves canonical entries that hold the offsets of
/// the ranges inserted.
pub proof fn lemma_inserted_all(rs: Seq<Range>, k: int)
    requires
        0 <= k <= rs.len(),
        forall|i: int| 0 <= i < rs.len() ==> (#[trigger] rs[i]).shaped(),
    ensures
        canonical(inserted_all(rs, k)),
        points(inserted_all(rs, k)) == points(rs.take(k)),
    decreases k,
{
    if k > 0 {
        lemma_inserted_all(rs, k - 1);
        lemma_inserted(inserted_all(rs, k - 1), rs[k - 1]);
        crate::rangeset_proofs::lemma_points_step(rs, k - 1);
    } else {
        assert(points(inserted_all(rs, k)) =~= points(rs.take(k)));
    }
}

/// The entries that a series of insertions leaves do not depend on the order
/// of the insertions: a rearrangement `ys` of the ranges `xs` leaves the same
/// entries, though they may lie in another order.
pub proof fn lemma_insertion_order_all(xs: Seq<Range>, ys: Seq<Range>)
    requires
        xs.to_multiset() == ys.to_multiset(),
        forall|i: int| 0 <= i < xs.len() ==> (#[trigger] xs[i]).shaped(),
    ensures
        inserted_all(xs, xs.len() as int).to_set() == inserted_all(ys, ys.len() as int).to_set(),
        inserted_all(xs, xs.len() as int).len() == inserted_all(ys, ys.len() as int).len(),
{
    broadcast use vstd::seq_lib::group_to_multiset_ensures;

    assert forall|i: int| 0 <= i < ys.len() implies (#[trigger] ys[i]).shaped() by {
        assert(ys.contains(ys[i]));
        assert(xs.to_multiset().count(ys[i]) > 0);
        assert(xs.contains(ys[i]));
    }
    lemma_inserted_all(xs, xs.len() as int);
    lemma_inserted_all(ys, ys.len() as int);
    assert(xs.take(xs.len() as int) =~= xs);
    assert(ys.take(ys.len() as int) =~= ys);
    lemma_insertion_order(
        xs,
        ys,
        inserted_all(xs, xs.len() as int),
        inserted_all(ys, ys.len() as int),
    );
}

/// Inserting a range that shares no offset with the entries and removing it
/// again restores them, though they may lie in another order; and the removal
/// is never refused.
pub proof fn lemma_insert_remove(s: Seq<Range>, r: Range)
    requires
        canonical(s),
        s.len() <= CAPACITY,
        r.shaped(),
        forall|x: int| r.has(x) ==> !covers(s, x),
    ensures
        !remove_fails(inserted(s, r), r),
        removed(inserted(s, r), r).to_set() == s.to_set(),
        removed(inserted(s, r), r).len() == s.len(),
{
    lemma_inserted(s, r);
    lemma_removed(inserted(s, r), r);
    lemma_insert_then_remove(s, inserted(s, r), removed(inserted(s, r), r), r);
}

/// Inserting the same ranges in another order leaves the same entries: where
/// `a` and `b` are canonical and hold the offsets of the ranges `xs` and of
/// their rearrangement `ys`, they hold the same entries.
pub proof fn lemma_insertion_order(xs: Seq<Range>, ys: Seq<Range>, a: Seq<Range>, b: Seq<Range>)
    requires
        xs.to_multiset() == ys.to_multiset(),
        canonical(a),
        canonical(b),
        points(a) == points(xs),
        points(b) == points(ys),
    ensures
        a.to_set() == b.to_set(),
        a.len() == b.len(),
{
    broadcast use vstd::seq_lib::group_to_multiset_ensures;

    assert forall|x: int| covers(xs, x) <==> covers(ys, x) by {
        if covers(xs, x) {
            let i = choose|i: int| 0 <= i < xs.len() && (#[trigger] xs[i]).has(x);
            assert(xs.contains(xs[i]));
            assert(ys.to_multiset().count(xs[i]) > 0);
            assert(ys.contains(xs[i]));
            let j = choose|j: int| 0 <= j < ys.len() && ys[j] == xs[i];
            assert(ys[j].has(x));
        }
        if covers(ys, x) {
            let i = choose|i: int| 0 <= i < ys.len() && (#[trigger] ys[i]).has(x);
            assert(ys.contains(ys[i]));
            assert(xs.to_multiset().count(ys[i]) > 0);
            assert(xs.contains(ys[i]));
            let j = choose|j: int| 0 <= j < xs.len() && xs[j] == ys[i];
            assert(xs[j].has(x));
        }
    }
    assert(points(xs) =~= points(ys));
    lemma_canonical_unique(a, b);
}

/// Inserting a range that shares no offset with the set and then removing the
/// same range restores the entries: where `mid` is what the insertion into
/// `s` leaves and `end` what the removal from `mid` leaves, `end` holds the
/// entries of `s`. The removal never finds the storage full.
pub proof fn lemma_insert_then_remove(s: Seq<Range>, mid: Seq<Range>, end: Seq<Range>, r: Range)
    requires
        canonical(s),
        canonical(mid),
        canonical(end),
        s.len() <= CAPACITY,
        r.shaped(),
        forall|x: int| r.has(x) ==> !covers(s, x),
        points(mid) == points(s).union(r.points()),
        points(end) == points(mid).difference(r.points()),
    ensures
        end.to_set() == s.to_set(),
        end.len() == s.len(),
        mid.len() == CAPACITY ==> forall|i: int|
            0 <= i < mid.len() ==> !strictly_inside(r, #[trigger] mid[i]),
{
    assert(points(mid).difference(r.points()) =~= points(s));
    lemma_canonical_unique(end, s);
    assert forall|i: int| 0 <= i < mid.len() && mid.len() == CAPACITY implies !strictly_inside(
        r,
        #[trigger] mid[i],
    ) by {
        if strictly_inside(r, mid[i]) {
            lemma_split_entry(mid, i, r);
            let lead = Range { start: mid[i].start, end: (r.start - 1) as u64 };
            let trail = Range { start: (r.end + 1) as u64, end: mid[i].end };
            lemma_canonical_unique(mid.update(i, lead).push(trail), s);
        }
    }
}

/// Well-shaped entries hold at least as many offsets as there are entries.
pub proof fn lemma_total_nonnegative(s: Seq<Range>)
    requires
        forall|i: int| 0 <= i < s.len() ==> (#[trigger] s[i]).shaped(),
    ensures
        total(s) >= s.len(),
    decreases s.len(),
{
    if s.len() > 0 {
        lemma_total_nonnegative(s.drop_last());
    }
}

/// The first `k` well-shaped entries hold no more offsets than all of them.
pub proof fn lemma_total_prefix(s: Seq<Range>, k: int)
    requires
        0 <= k <= s.len(),
        forall|i: int| 0 <= i < s.len() ==> (#[trigger] s[i]).shaped(),
    ensures
        0 <= total(s.take(k)) <= total(s),
    decreases s.len() - k,
{
    if k == s.len() {
        assert(s.take(k) =~= s);
        lemma_total_nonnegative(s);
    } else {
        lemma_total_prefix(s, k + 1);
        assert(s.take(k + 1).drop_last() =~= s.take(k));
        lemma_total_nonnegative(s.take(k));
    }
}

/// No entry holds more offsets than all entries together.
pub proof fn lemma_total_bounds_entry(s: Seq<Range>, i: int)
    requires
        0 <= i < s.len(),
        forall|j: int| 0 <= j < s.len() ==> (#[trigger] s[j]).shaped(),
    ensures
        s[i].count() <= total(s),
    decreases s.len(),
{
    lemma_total_nonnegative(s.drop_last());
    if i < s.len() - 1 {
        lemma_total_bounds_entry(s.drop_last(), i);
    }
}

/// A request for more offsets than the set holds is refused for want of
/// memory, and the set stays as it was.
pub proof fn lemma_allocate_beyond_total(s: Seq<Range>, size: u64, align: u64)
    requires
        canonical(s),
        size > total(s),
        is_pow2(align as int),
    ensures
        allocated(s, size, align) == (s, Err::<usize, MemError>(MemError::OutOfMemory)),
{
    lemma_total_nonnegative(s);
    assert(align > 0) by {
        reveal(is_pow2);
    }
    assert forall|i: int| 0 <= i < s.len() implies !fits(#[trigger] s[i], size, align) by {
        lemma_total_bounds_entry(s, i);
        lemma_aligned(s[i].start, align);
    }
}

/// Where some entry fits, one of them is the best fit.
pub proof fn lemma_best_fit_exists(s: Seq<Range>, size: u64, align: u64, k: int)
    requires
        0 <= k < s.len(),
        fits(s[k], size, align),
    ensures
        exists|i: int| best_fit(s, size, align, i),
    decreases s.len(),
{
    let t = s.drop_last();
    let n = s.len() - 1;
    assert forall|j: int| 0 <= j < n implies #[trigger] t[j] == s[j] by {}
    if exists|j: int| 0 <= j < n && fits(#[trigger] s[j], size, align) {
        let j = choose|j: int| 0 <= j < n && fits(#[trigger] s[j], size, align);
        lemma_best_fit_exists(t, size, align, j);
        let b = choose|b: int| best_fit(t, size, align, b);
        if fits(s[n], size, align) && s[n].count() < s[b].count() {
            assert(best_fit(s, size, align, n)) by {
                assert forall|j: int|
                    0 <= j < s.len() && fits(#[trigger] s[j], size, align) implies s[n].count()
                    < s[j].count() || (s[n].count() == s[j].count() && n <= j) by {
                    if j < n {
                        assert(fits(t[j], size, align));
                    }
                }
            }
        } else {
            assert(best_fit(s, size, align, b)) by {
                assert forall|j: int|
                    0 <= j < s.len() && fits(#[trigger] s[j], size, align) implies s[b].count()
                    < s[j].count() || (s[b].count() == s[j].count() && b <= j) by {
                    if j < n {
                        assert(fits(t[j], size, align));
                    }
                }
            }
        }
    } else {
        assert(best_fit(s, size, align, n));
    }
}

/// What an allocation hands out is aligned, lay whole in one entry, and is
/// gone from the entries afterwards, together with what was skipped in front
/// of it; all else stays, and the entries stay canonical. An allocation that
/// is refused changes nothing.
pub proof fn lemma_allocated_sound(s: Seq<Range>, size: u64, align: u64)
    requires
        canonical(s),
    ensures
        canonical(allocated(s, size, align).0),
        allocated(s, size, align).0.len() <= s.len(),
        allocated(s, size, align).1 is Err ==> allocated(s, size, align).0 == s,
        allocated(s, size, align).1 matches Ok(a) ==> {
            &&& a as int % align as int == 0
            &&& exists|i: int|
                0 <= i < s.len() && (#[trigger] s[i]).start <= a && a + size - 1 <= s[i].end
                    && points(allocated(s, size, align).0) == points(s).difference(
                    Range { start: s[i].start, end: (a + size - 1) as u64 }.points(),
                )
        },
{
    if allocated(s, size, align).1 is Ok {
        assert(align > 0) by {
            reveal(is_pow2);
        }
        let i = choose|i: int| best_fit(s, size, align, i);
        let first = s[i].start + padding(s[i].start, align);
        let last = first + size - 1;
        let taken = Range { start: s[i].start, end: last as u64 };
        let t = carved(s, i, last);
        lemma_aligned(s[i].start, align);
        lemma_remove_entry(s, i);
        if last == s[i].end {
            assert forall|x: int| points(t).contains(x) <==> points(s).difference(
                taken.points(),
            ).contains(x) by {
                if covers(t, x) && s[i].has(x) {
                    let k = choose|k: int| 0 <= k < t.len() && (#[trigger] t[k]).has(x);
                    let k0 = if k < i { k } else { k + 1 };
                    assert(t[k] == s[k0]);
                    assert(touches(s[k0], s[i]));
                }
            }
        } else {
            lemma_shrink_entry(s, i, Range { start: (last + 1) as u64, end: s[i].end });
        }
        assert(points(t) =~= points(s).difference(taken.points()));
    }
}

/// A request that is in order and that some entry has room for is met.
pub proof fn lemma_allocated_succeeds(s: Seq<Range>, size: u64, align: u64, i: int)
    requires
        size > 0,
        is_pow2(align as int),
        0 <= i < s.len(),
        fits(s[i], size, align),
    ensures
        allocated(s, size, align).1 is Ok,
{
    lemma_best_fit_exists(s, size, align, i);
}

/// What an allocation returns is a multiple of the alignment asked for, and
/// no address that this machine lacks.
pub proof fn lemma_allocated_aligned(s: Seq<Range>, size: u64, align: u64)
    ensures
        allocated(s, size, align).1 matches Ok(a) ==> a as int % align as int == 0 && a + size - 1
            <= usize::MAX,
{
    if allocated(s, size, align).1 is Ok {
        assert(align > 0) by {
            reveal(is_pow2);
        }
        let i = choose|i: int| best_fit(s, size, align, i);
        lemma_aligned(s[i].start, align);
    }
}

} // verus!

//! Lemmas behind the operations on range sets.

use vstd::prelude::*;
use crate::rangeset::Range;
use crate::rangeset_model::{
    best_fit, canonical, covered, covers, hull, kept, meets, padding, points, removed,
    strictly_inside, subtracted, survivors, touches, trails, trimmed,
};

verus! {

/// Dropping an entry keeps the rest canonical, and the offsets held are those
/// of the rest together with those of the dropped entry.
pub proof fn lemma_remove_entry(s: Seq<Range>, i: int)
    requires
        0 <= i < s.len(),
    ensures
        canonical(s) ==> canonical(s.remove(i)),
        forall|x: int| covers(s, x) <==> covers(s.remove(i), x) || s[i].has(x),
{
    let t = s.remove(i);
    assert forall|k: int| 0 <= k < t.len() implies #[trigger] t[k] == s[if k < i { k } else { k + 1 }] by {}
    assert forall|x: int| covers(s, x) <==> covers(t, x) || s[i].has(x) by {
        if covers(s, x) {
            let k = choose|k: int| 0 <= k < s.len() && (#[trigger] s[k]).has(x);
            if k < i {
                assert(t[k].has(x));
            } else if k > i {
                assert(t[k - 1].has(x));
            }
        }
        if covers(t, x) {
            let k = choose|k: int| 0 <= k < t.len() && (#[trigger] t[k]).has(x);
            assert(s[if k < i { k } else { k + 1 }].has(x));
        }
    }
}

/// Replacing an entry by a well-shaped part of itself keeps the entries
/// canonical, and the offsets held are the old ones without those that the
/// entry lost.
pub(crate) proof fn lemma_shrink_entry(s: Seq<Range>, i: int, t: Range)
    requires
        canonical(s),
        0 <= i < s.len(),
        t.shaped(),
        s[i].start <= t.start,
        t.end <= s[i].end,
    ensures
        canonical(s.update(i, t)),
        forall|x: int| covers(s.update(i, t), x) <==> covers(s, x) && !(s[i].has(x) && !t.has(x)),
{
    let u = s.update(i, t);
    assert forall|a: int, b: int| 0 <= a < u.len() && 0 <= b < u.len() && a != b implies !touches(
        #[trigger] u[a],
        #[trigger] u[b],
    ) by {
        assert(!touches(s[a], s[b]));
    }
    assert forall|x: int| covers(u, x) <==> covers(s, x) && !(s[i].has(x) && !t.has(x)) by {
        if covers(u, x) {
            let k = choose|k: int| 0 <= k < u.len() && (#[trigger] u[k]).has(x);
            assert(s[k].has(x));
            if k != i && s[i].has(x) {
                assert(touches(s[k], s[i]));
            }
        }
        if covers(s, x) && !(s[i].has(x) && !t.has(x)) {
            let k = choose|k: int| 0 <= k < s.len() && (#[trigger] s[k]).has(x);
            assert(u[k].has(x));
        }
    }
}

/// Splitting the entry that holds `range` strictly inside keeps the entries
/// canonical and takes exactly the offsets of `range` out.
pub(crate) proof fn lemma_split_entry(s: Seq<Range>, i: int, range: Range)
    requires
        canonical(s),
        0 <= i < s.len(),
        range.shaped(),
        strictly_inside(range, s[i]),
    ensures
        ({
            let lead = Range { start: s[i].start, end: (range.start - 1) as u64 };
            let trail = Range { start: (range.end + 1) as u64, end: s[i].end };
            let u = s.update(i, lead).push(trail);
            &&& canonical(u)
            &&& points(u) == points(s).difference(range.points())
        }),
{
    let lead = Range { start: s[i].start, end: (range.start - 1) as u64 };
    let trail = Range { start: (range.end + 1) as u64, end: s[i].end };
    let u = s.update(i, lead).push(trail);
    let n = s.len() as int;
    assert forall|a: int, b: int| 0 <= a < u.len() && 0 <= b < u.len() && a != b implies !touches(
        #[trigger] u[a],
        #[trigger] u[b],
    ) by {
        if a < n && b < n {
            assert(!touches(s[a], s[b]));
        } else if a == n && b != i {
            assert(!touches(s[i], s[b]));
        } else if b == n && a != i {
            assert(!touches(s[a], s[i]));
        }
    }
    assert forall|x: int| points(u).contains(x) <==> points(s).difference(
        range.points(),
    ).contains(x) by {
        if covers(u, x) {
            let k = choose|k: int| 0 <= k < u.len() && (#[trigger] u[k]).has(x);
            if k == n || k == i {
                assert(s[i].has(x));
            } else {
                assert(s[k].has(x));
                assert(!touches(s[k], s[i]));
            }
        }
        if covers(s, x) && !range.has(x) {
            let k = choose|k: int| 0 <= k < s.len() && (#[trigger] s[k]).has(x);
            if k == i {
                if x < range.start {
                    assert(u[i].has(x));
                } else {
                    assert(u[n].has(x));
                }
            } else {
                assert(u[k].has(x));
            }
        }
    }
    assert(points(u) =~= points(s).difference(range.points()));
}

/// No entry that is kept touches `r`.
pub(crate) proof fn lemma_kept_apart(s: Seq<Range>, r: Range)
    ensures
        kept(s, r).len() <= s.len(),
        forall|i: int| 0 <= i < kept(s, r).len() ==> !touches(#[trigger] kept(s, r)[i], r),
    decreases s.len(),
{
    if s.len() > 0 {
        lemma_kept_apart(s.drop_last(), r);
    }
}

/// All entries are kept exactly when none of them touches `r`.
pub(crate) proof fn lemma_kept_all(s: Seq<Range>, r: Range)
    ensures
        kept(s, r).len() <= s.len(),
        kept(s, r).len() == s.len() <==> forall|i: int|
            0 <= i < s.len() ==> !touches(#[trigger] s[i], r),
        kept(s, r).len() == s.len() ==> kept(s, r) == s,
    decreases s.len(),
{
    if s.len() > 0 {
        let t = s.drop_last();
        lemma_kept_all(t, r);
        assert forall|i: int| 0 <= i < t.len() implies #[trigger] t[i] == s[i] by {}
        if kept(s, r).len() == s.len() {
            assert(!touches(s.last(), r));
            assert(kept(s, r) =~= s);
            assert forall|i: int| 0 <= i < s.len() implies !touches(#[trigger] s[i], r) by {
                if i < t.len() {
                    assert(!touches(t[i], r));
                }
            }
        }
        if forall|i: int| 0 <= i < s.len() ==> !touches(#[trigger] s[i], r) {
            assert(!touches(s[s.len() - 1], r));
            assert forall|i: int| 0 <= i < t.len() implies !touches(#[trigger] t[i], r) by {
                assert(!touches(s[i], r));
            }
        }
    }
}

/// Each entry that is kept is one of the entries.
pub(crate) proof fn lemma_kept_member(s: Seq<Range>, r: Range, i: int)
    requires
        0 <= i < kept(s, r).len(),
    ensures
        s.contains(kept(s, r)[i]),
    decreases s.len(),
{
    if s.len() > 0 {
        let t = s.drop_last();
        if i < kept(t, r).len() {
            lemma_kept_member(t, r, i);
            let j = choose|j: int| 0 <= j < t.len() && t[j] == kept(t, r)[i];
            assert(s[j] == kept(s, r)[i]);
        } else {
            assert(s[s.len() - 1] == kept(s, r)[i]);
        }
    }
}

/// A stretch of entries that do not touch `r` is kept as it is, and leaves the
/// hull as it is.
pub(crate) proof fn lemma_kept_stretch(s: Seq<Range>, r: Range, k: int, m: int)
    requires
        0 <= k <= m <= s.len(),
        forall|j: int| k <= j < m ==> !touches(#[trigger] s[j], r),
    ensures
        kept(s.take(m), r) == kept(s.take(k), r) + s.subrange(k, m),
        hull(s.take(m), r) == hull(s.take(k), r),
    decreases m - k,
{
    if k == m {
        assert(kept(s.take(k), r) + s.subrange(k, m) =~= kept(s.take(k), r));
    } else {
        lemma_kept_stretch(s, r, k, m - 1);
        assert(s.take(m).drop_last() =~= s.take(m - 1));
        assert(s.take(m).last() == s[m - 1]);
        assert(kept(s.take(k), r) + s.subrange(k, m) =~= (kept(s.take(k), r) + s.subrange(
            k,
            m - 1,
        )).push(s[m - 1]));
    }
}

/// The hull holds `r`, is well shaped, and holds nothing but `r` and the
/// entries that touch `r`.
pub(crate) proof fn lemma_hull(s: Seq<Range>, r: Range)
    requires
        r.shaped(),
        forall|i: int| 0 <= i < s.len() ==> (#[trigger] s[i]).shaped(),
    ensures
        hull(s, r).start <= r.start,
        r.end <= hull(s, r).end,
        forall|x: int|
            hull(s, r).has(x) ==> r.has(x) || exists|j: int|
                0 <= j < s.len() && touches(#[trigger] s[j], r) && s[j].has(x),
    decreases s.len(),
{
    if s.len() > 0 {
        let t = s.drop_last();
        lemma_hull(t, r);
        let h = hull(t, r);
        let e = s.last();
        assert forall|x: int| hull(s, r).has(x) implies r.has(x) || exists|j: int|
            0 <= j < s.len() && touches(#[trigger] s[j], r) && s[j].has(x) by {
            if h.has(x) {
                if !r.has(x) {
                    let j = choose|j: int| 0 <= j < t.len() && touches(#[trigger] t[j], r) && t[j].has(x);
                    assert(s[j] == t[j]);
                }
            } else {
                // Between `e` and the hull so far there is no gap, as both
                // reach `r`.
                assert(touches(e, r));
                if !e.has(x) && !r.has(x) {
                    if x < h.start {
                        assert(e.end < x);
                        assert(false);
                    } else {
                        assert(e.start > x);
                        assert(false);
                    }
                }
                if e.has(x) {
                    assert(s[s.len() - 1].has(x));
                }
            }
        }
    }
}

/// An entry of canonical entries that touches the hull of `r` and the first
/// `k` of them touches `r`.
pub(crate) proof fn lemma_touches_hull(s: Seq<Range>, k: int, e: Range, r: Range)
    requires
        canonical(s),
        r.shaped(),
        0 <= k <= s.len(),
        s.contains(e),
        touches(e, hull(s.take(k), r)),
    ensures
        touches(e, r),
{
    let t = s.take(k);
    let h = hull(t, r);
    let m = choose|m: int| 0 <= m < s.len() && s[m] == e;
    assert forall|i: int| 0 <= i < t.len() implies (#[trigger] t[i]).shaped() by {
        assert(t[i] == s[i]);
    }
    lemma_hull(t, r);
    // An offset of the hull that lies in `e` or next to it.
    let p: int = if e.start > h.end {
        h.end as int
    } else if e.end < h.start {
        h.start as int
    } else if e.start >= h.start {
        e.start as int
    } else {
        h.start as int
    };
    assert(h.has(p));
    if !r.has(p) {
        let j = choose|j: int| 0 <= j < t.len() && touches(#[trigger] t[j], r) && t[j].has(p);
        assert(t[j] == s[j]);
        if j != m {
            assert(touches(s[j], s[m]));
        }
    }
}

/// While offsets are taken out of `old` entry by entry, an entry of the
/// current state `cur` that `range` reaches into without lying strictly inside
/// it shows that `old` has such an entry too.
pub(crate) proof fn lemma_changed_entry_is_old(old: Seq<Range>, cur: Seq<Range>, i: int, range: Range)
    requires
        canonical(old),
        canonical(cur),
        range.shaped(),
        0 <= i < cur.len(),
        meets(cur[i], range),
        !strictly_inside(range, cur[i]),
        forall|x: int| covers(cur, x) ==> covers(old, x),
        forall|x: int| covers(old, x) && !range.has(x) ==> covers(cur, x),
        cur == old || exists|j: int|
            0 <= j < old.len() && meets(#[trigger] old[j], range) && !strictly_inside(range, old[j]),
        forall|j: int|
            0 <= j < old.len() && strictly_inside(range, #[trigger] old[j]) ==> cur == old,
    ensures
        exists|j: int|
            0 <= j < old.len() && meets(#[trigger] old[j], range) && !strictly_inside(range, old[j]),
        forall|j: int| 0 <= j < old.len() ==> !strictly_inside(range, #[trigger] old[j]),
{
    if cur == old {
        assert(meets(old[i], range) && !strictly_inside(range, old[i]));
    }
    assert forall|j: int| 0 <= j < old.len() implies !strictly_inside(range, #[trigger] old[j]) by {
        if strictly_inside(range, old[j]) {
            assert(cur == old);
            if i != j {
                assert(!touches(old[i], old[j]));
            }
        }
    }
}

/// While offsets are taken out of `old` entry by entry, an entry of the
/// current state `cur` that holds `range` strictly inside shows that nothing
/// was taken out yet.
pub(crate) proof fn lemma_holder_is_old(old: Seq<Range>, cur: Seq<Range>, i: int, range: Range)
    requires
        canonical(old),
        canonical(cur),
        range.shaped(),
        0 <= i < cur.len(),
        strictly_inside(range, cur[i]),
        forall|x: int| covers(cur, x) ==> covers(old, x),
        cur == old || exists|j: int|
            0 <= j < old.len() && meets(#[trigger] old[j], range) && !strictly_inside(range, old[j]),
    ensures
        cur == old,
{
    if cur != old {
        let j = choose|j: int|
            0 <= j < old.len() && meets(#[trigger] old[j], range) && !strictly_inside(range, old[j]);
        // The offset just outside `old[j]`, on the side where `range` goes
        // on, lies in `cur[i]`, so another entry of `old` holds it.
        let p: int = if old[j].start >= range.start {
            old[j].start - 1
        } else {
            old[j].end + 1
        };
        assert(cur[i].has(p));
        assert(covers(cur, p));
        let k = choose|k: int| 0 <= k < old.len() && (#[trigger] old[k]).has(p);
        assert(touches(old[k], old[j]));
    }
}

/// Where no entry shares an offset with `r`, removing `r` leaves all as it
/// is.
pub(crate) proof fn lemma_removed_nothing(s: Seq<Range>, r: Range)
    requires
        forall|i: int| 0 <= i < s.len() ==> !meets(#[trigger] s[i], r) && s[i].shaped(),
        r.shaped(),
    ensures
        survivors(s, r) == s,
        trails(s, r) == Seq::<Range>::empty(),
    decreases s.len(),
{
    if s.len() > 0 {
        let t = s.drop_last();
        assert forall|i: int| 0 <= i < t.len() implies !meets(#[trigger] t[i], r) && t[i].shaped() by {
            assert(t[i] == s[i]);
        }
        lemma_removed_nothing(t, r);
        assert(!meets(s[s.len() - 1], r));
        assert(t.push(s.last()) =~= s);
    } else {
        assert(trails(s, r) =~= Seq::<Range>::empty());
    }
}

/// Where entry `i` of canonical entries holds `r` strictly inside, removing
/// `r` leaves the part in front of `r` in its place and appends the part
/// behind `r`; the other entries stay as they are.
pub(crate) proof fn lemma_removed_split(s: Seq<Range>, i: int, r: Range)
    requires
        canonical(s),
        r.shaped(),
        0 <= i < s.len(),
        strictly_inside(r, s[i]),
    ensures
        survivors(s, r) == s.update(i, Range { start: s[i].start, end: (r.start - 1) as u64 }),
        trails(s, r) == seq![Range { start: (r.end + 1) as u64, end: s[i].end }],
        removed(s, r) == s.update(i, Range { start: s[i].start, end: (r.start - 1) as u64 }).push(
            Range { start: (r.end + 1) as u64, end: s[i].end },
        ),
    decreases s.len(),
{
    let lead = Range { start: s[i].start, end: (r.start - 1) as u64 };
    let trail = Range { start: (r.end + 1) as u64, end: s[i].end };
    let t = s.drop_last();
    let n = s.len() - 1;
    assert forall|j: int| 0 <= j < t.len() implies #[trigger] t[j] == s[j] by {}
    if i == n {
        assert forall|j: int| 0 <= j < t.len() implies !meets(#[trigger] t[j], r) && t[j].shaped() by {
            assert(!touches(s[j], s[i]));
        }
        lemma_removed_nothing(t, r);
        assert(survivors(s, r) =~= s.update(i, lead));
        assert(trails(s, r) =~= seq![trail]);
    } else {
        lemma_removed_split(t, i, r);
        assert(!touches(s[n], s[i]));
        assert(survivors(s, r) =~= s.update(i, lead));
    }
    assert(removed(s, r) =~= s.update(i, lead).push(trail));
}

/// The next entry of `s` is dealt with: it is dropped where `r` covers it, and
/// trimmed else.
pub(crate) proof fn lemma_survivors_step(s: Seq<Range>, r: Range, k: int)
    requires
        0 <= k < s.len(),
    ensures
        survivors(s.take(k + 1), r) == if covered(s[k], r) {
            survivors(s.take(k), r)
        } else {
            survivors(s.take(k), r).push(trimmed(s[k], r))
        },
        trails(s.take(k + 1), r) == if strictly_inside(r, s[k]) {
            trails(s.take(k), r).push(Range { start: (r.end + 1) as u64, end: s[k].end })
        } else {
            trails(s.take(k), r)
        },
{
    assert(s.take(k + 1).drop_last() =~= s.take(k));
    assert(s.take(k + 1).last() == s[k]);
}

/// How far a removal has come: the first `k` of the entries `all` are dealt
/// with, and `cur` holds what is left of them in its first `i` places, and
/// behind them the entries that are not dealt with yet.
pub(crate) closed spec fn scanning(all: Seq<Range>, cur: Seq<Range>, r: Range, i: int, k: int) -> bool {
    &&& canonical(all)
    &&& canonical(cur)
    &&& r.shaped()
    &&& 0 <= k <= all.len()
    &&& i == survivors(all.take(k), r).len()
    &&& cur == survivors(all.take(k), r) + all.skip(k)
    &&& trails(all.take(k), r) == Seq::<Range>::empty()
    &&& forall|j: int| 0 <= j < i ==> !meets(#[trigger] cur[j], r)
    &&& forall|x: int| covers(cur, x) ==> covers(all, x)
    &&& forall|x: int| covers(all, x) && !r.has(x) ==> covers(cur, x)
    &&& cur == all || exists|j: int|
        0 <= j < all.len() && meets(#[trigger] all[j], r) && !strictly_inside(r, all[j])
    &&& forall|j: int|
        0 <= j < all.len() && strictly_inside(r, #[trigger] all[j]) ==> cur == all && i <= j
}

/// At the start nothing is dealt with.
pub(crate) proof fn lemma_scan_start(all: Seq<Range>, r: Range)
    requires
        canonical(all),
        r.shaped(),
    ensures
        scanning(all, all, r, 0, 0),
{
    assert(all =~= survivors(all.take(0), r) + all.skip(0));
    assert(trails(all.take(0), r) =~= Seq::<Range>::empty());
}

/// The entry in place `i` is the next one to deal with.
pub(crate) proof fn lemma_scan_entry(all: Seq<Range>, cur: Seq<Range>, r: Range, i: int, k: int)
    requires
        scanning(all, cur, r, i, k),
        i < cur.len(),
    ensures
        canonical(cur),
        k < all.len(),
        cur[i] == all[k],
{
}

/// An entry that shares no offset with the range stays.
pub(crate) proof fn lemma_scan_skip(all: Seq<Range>, cur: Seq<Range>, r: Range, i: int, k: int)
    requires
        scanning(all, cur, r, i, k),
        i < cur.len(),
        !meets(cur[i], r),
    ensures
        scanning(all, cur, r, i + 1, k + 1),
{
    lemma_survivors_step(all, r, k);
    assert(cur =~= survivors(all.take(k), r).push(cur[i]) + all.skip(k + 1));
}

/// An entry that the range covers is dropped.
pub(crate) proof fn lemma_scan_drop(all: Seq<Range>, cur: Seq<Range>, r: Range, i: int, k: int)
    requires
        scanning(all, cur, r, i, k),
        i < cur.len(),
        covered(cur[i], r),
    ensures
        scanning(all, cur.remove(i), r, i, k + 1),
        canonical(cur.remove(i)),
{
    lemma_survivors_step(all, r, k);
    lemma_remove_entry(cur, i);
    lemma_changed_entry_is_old(all, cur, i, r);
    let next = cur.remove(i);
    assert(next =~= survivors(all.take(k), r) + all.skip(k + 1));
    assert forall|j: int| 0 <= j < i implies !meets(#[trigger] next[j], r) by {
        assert(next[j] == cur[j]);
    }
}

/// An entry that the range reaches into from one side is trimmed.
pub(crate) proof fn lemma_scan_trim(all: Seq<Range>, cur: Seq<Range>, r: Range, i: int, k: int)
    requires
        scanning(all, cur, r, i, k),
        i < cur.len(),
        meets(cur[i], r),
        !covered(cur[i], r),
        !strictly_inside(r, cur[i]),
    ensures
        scanning(all, cur.update(i, trimmed(cur[i], r)), r, i + 1, k + 1),
        canonical(cur.update(i, trimmed(cur[i], r))),
{
    let t = trimmed(cur[i], r);
    lemma_survivors_step(all, r, k);
    lemma_shrink_entry(cur, i, t);
    lemma_changed_entry_is_old(all, cur, i, r);
    let next = cur.update(i, t);
    assert(next =~= survivors(all.take(k), r).push(t) + all.skip(k + 1));
    assert forall|j: int| 0 <= j < i + 1 implies !meets(#[trigger] next[j], r) by {
        if j < i {
            assert(next[j] == cur[j]);
        }
    }
}

/// An entry that holds the range strictly inside is met before anything was
/// changed, and splitting it is all that the removal does.
pub(crate) proof fn lemma_scan_split(all: Seq<Range>, cur: Seq<Range>, r: Range, i: int, k: int)
    requires
        scanning(all, cur, r, i, k),
        i < cur.len(),
        strictly_inside(r, cur[i]),
    ensures
        cur == all,
        ({
            let lead = Range { start: cur[i].start, end: (r.start - 1) as u64 };
            let trail = Range { start: (r.end + 1) as u64, end: cur[i].end };
            let next = cur.update(i, lead).push(trail);
            &&& next == removed(all, r)
            &&& canonical(next)
            &&& points(next) == points(all).difference(r.points())
        }),
{
    lemma_holder_is_old(all, cur, i, r);
    lemma_removed_split(all, i, r);
    lemma_split_entry(all, i, r);
}

/// When all entries are dealt with, the removal is done.
pub(crate) proof fn lemma_scan_end(all: Seq<Range>, cur: Seq<Range>, r: Range, i: int, k: int)
    requires
        scanning(all, cur, r, i, k),
        i >= cur.len(),
    ensures
        canonical(cur),
        cur == removed(all, r),
        points(cur) == points(all).difference(r.points()),
        forall|j: int| 0 <= j < all.len() ==> !strictly_inside(r, #[trigger] all[j]),
{
    assert(k == all.len());
    assert(all.take(k) =~= all);
    assert(cur =~= removed(all, r));
    assert forall|x: int| points(cur).contains(x) <==> points(all).difference(
        r.points(),
    ).contains(x) by {
        if covers(cur, x) {
            let j = choose|j: int| 0 <= j < cur.len() && (#[trigger] cur[j]).has(x);
            assert(!meets(cur[j], r));
        }
    }
    assert(points(cur) =~= points(all).difference(r.points()));
}

/// The offsets of all entries of `rs` together are those of its first
/// entries and those of the next.
pub(crate) proof fn lemma_points_step(rs: Seq<Range>, k: int)
    requires
        0 <= k < rs.len(),
    ensures
        points(rs.take(k + 1)) == points(rs.take(k)).union(rs[k].points()),
{
    let a = rs.take(k);
    let b = rs.take(k + 1);
    assert forall|x: int| covers(b, x) <==> covers(a, x) || rs[k].has(x) by {
        if covers(b, x) {
            let j = choose|j: int| 0 <= j < b.len() && (#[trigger] b[j]).has(x);
            if j < k {
                assert(a[j].has(x));
            }
        }
        if covers(a, x) {
            let j = choose|j: int| 0 <= j < a.len() && (#[trigger] a[j]).has(x);
            assert(b[j].has(x));
        }
        if rs[k].has(x) {
            assert(b[k].has(x));
        }
    }
    assert(points(b) =~= points(a).union(rs[k].points()));
}

/// A subtraction that was refused stays refused, with the entries as they
/// were then.
pub(crate) proof fn lemma_subtracted_failed(s: Seq<Range>, rs: Seq<Range>, j: int, n: int)
    requires
        j <= n,
        subtracted(s, rs, j).1 is Err,
    ensures
        subtracted(s, rs, n) == subtracted(s, rs, j),
    decreases n - j,
{
    if j < n {
        lemma_subtracted_failed(s, rs, j, n - 1);
    }
}

/// At most one entry is the best fit.
pub proof fn lemma_best_fit_unique(s: Seq<Range>, size: u64, align: u64, i: int)
    requires
        best_fit(s, size, align, i),
    ensures
        forall|j: int| best_fit(s, size, align, j) ==> j == i,
        (choose|j: int| best_fit(s, size, align, j)) == i,
{
}

/// Adding the padding to `start` gives a multiple of `align`.
pub proof fn lemma_aligned(start: u64, align: u64)
    requires
        align > 0,
    ensures
        (start + padding(start, align)) % (align as int) == 0,
        0 <= padding(start, align) < align,
{
    let s = start as int;
    let a = align as int;
    assert(0 <= s % a < a && (s % a != 0 ==> (s + a - s % a) % a == 0)) by (nonlinear_arith)
        requires
            a > 0,
            s >= 0,
    ;
}

} // verus!

//! What holds of the page tables: what a mapping changes, what it leaves as
//! it was, and that an address that was mapped leads to its entry.

use vstd::prelude::*;
use crate::error::MemError;
use crate::page_table::{
    index_at, leaf_entry, link_entry, lookup, map_raw_model, mappable, page_step, shifted, walk,
    Flush, PageSize,
};
use crate::phys_mem::{lemma_store_then_word, Memory, FRAME_SIZE};
use crate::rangeset_laws::lemma_allocated_sound;
use crate::rangeset::Range;
use crate::rangeset_model::{allocated, canonical, covers, points};

verus! {

/// A walk that may not create tables allocates nothing and writes at most the
/// leaf entry; where it fails, it leaves the memory as it was. So it can be
/// used to ask whether an address is mapped.
pub proof fn lemma_walk_without_creation(
    m: Memory,
    table: u64,
    level: int,
    levels: int,
    vaddr: u64,
    raw: u64,
    update: bool,
    invlpg_on_update: bool,
)
    requires
        0 <= level < levels,
    ensures
        ({
            let (after, r) = walk(m, table, level, levels, vaddr, raw, false, update, invlpg_on_update);
            &&& after.free == m.free
            &&& r is Err ==> after == m
            &&& r is Err ==> r->Err_0 == MemError::AddressOverflow || r->Err_0
                == MemError::AlreadyMapped || r->Err_0 == MemError::NotMapped
            &&& r is Ok ==> exists|slot: u64| m.reachable(slot, 8) && after == m.store_word(slot, raw)
        }),
    decreases levels - level,
{
    let slot = (table + index_at(vaddr, level) * 8) as u64;
    if m.reachable(slot, 8) {
        let ent = m.word(slot);
        if level >= levels - 1 {
        } else if ent & 1 != 0 {
            lemma_walk_without_creation(
                m,
                ent & 0xf_ffff_ffff_f000,
                level + 1,
                levels,
                vaddr,
                raw,
                update,
                invlpg_on_update,
            );
        }
    }
}

/// Mapping without leave to create tables allocates nothing, and where it
/// fails it leaves the memory as it was.
pub proof fn lemma_map_raw_without_creation(
    m: Memory,
    root: u64,
    vaddr: u64,
    page: PageSize,
    raw: u64,
    update: bool,
    invlpg_on_update: bool,
)
    ensures
        ({
            let (after, r) = map_raw_model(m, root, vaddr, page, raw, false, update, invlpg_on_update);
            &&& after.free == m.free
            &&& r is Err ==> after == m
        }),
{
    lemma_walk_without_creation(m, root, 0, page.spec_levels(), vaddr, raw, update, invlpg_on_update);
}

/// A walk takes from the free memory and gives nothing back to it, keeps it
/// canonical, and leaves the reach of the memory as it was.
pub proof fn lemma_walk_takes_only(
    m: Memory,
    table: u64,
    level: int,
    levels: int,
    vaddr: u64,
    raw: u64,
    add: bool,
    update: bool,
    invlpg_on_update: bool,
)
    requires
        0 <= level < levels,
        canonical(m.free),
    ensures
        ({
            let after = walk(m, table, level, levels, vaddr, raw, add, update, invlpg_on_update).0;
            &&& canonical(after.free)
            &&& after.free.len() <= m.free.len()
            &&& points(after.free).subset_of(points(m.free))
            &&& after.bytes.dom() == m.bytes.dom()
        }),
    decreases levels - level,
{
    let slot = (table + index_at(vaddr, level) * 8) as u64;
    if m.reachable(slot, 8) {
        let ent = m.word(slot);
        if level >= levels - 1 {
            assert(m.store_word(slot, raw).bytes.dom() =~= m.bytes.dom());
        } else if ent & 1 != 0 {
            lemma_walk_takes_only(
                m,
                ent & 0xf_ffff_ffff_f000,
                level + 1,
                levels,
                vaddr,
                raw,
                add,
                update,
                invlpg_on_update,
            );
        } else if add {
            lemma_allocated_sound(m.free, FRAME_SIZE as u64, FRAME_SIZE as u64);
            let (m1, r) = m.allocate_zeroed(FRAME_SIZE, FRAME_SIZE);
            assert(m1.bytes.dom() =~= m.bytes.dom());
            assert(points(m1.free).subset_of(points(m.free)));
            if let Ok(below) = r {
                let link = below.0 | 4 | 2 | 1;
                let m2 = m1.store_word(slot, link);
                assert(m2.bytes.dom() =~= m.bytes.dom());
                lemma_walk_takes_only(
                    m2,
                    link & 0xf_ffff_ffff_f000,
                    level + 1,
                    levels,
                    vaddr,
                    raw,
                    add,
                    update,
                    invlpg_on_update,
                );
            }
        }
    }
}

/// The offset `x` is one of the eight bytes of the entry at `slot`.
pub open spec fn in_slot(slot: u64, x: int) -> bool {
    slot <= x < slot + 8
}

/// The offset `x` lies in one of the entries on the way from `table`, which
/// stands at `level`, to the leaf entry of `vaddr`, as far as the tables on
/// the way exist.
pub open spec fn on_path(m: Memory, table: u64, level: int, levels: int, vaddr: u64, x: int) -> bool
    decreases levels - level,
{
    let slot = (table + index_at(vaddr, level) * 8) as u64;
    in_slot(slot, x) || (m.reachable(slot, 8) && level < levels - 1 && m.word(slot) & 1 != 0
        && on_path(m, m.word(slot) & 0xf_ffff_ffff_f000, level + 1, levels, vaddr, x))
}

/// The tables on the way from `table`, which stands at `level`, to the leaf
/// entry of `vaddr` are in order, as far as they exist: each stands at a
/// multiple of eight below the 52nd power of two, none of the entries on the
/// way lies in free memory, and the way does not lead back into an entry that
/// it has passed.
pub open spec fn settled(m: Memory, table: u64, level: int, levels: int, vaddr: u64) -> bool
    decreases levels - level,
{
    let slot = (table + index_at(vaddr, level) * 8) as u64;
    &&& table % 8 == 0
    &&& table < 0x10_0000_0000_0000
    &&& forall|x: int| in_slot(slot, x) ==> !covers(m.free, x)
    &&& m.reachable(slot, 8) && level < levels - 1 && m.word(slot) & 1 != 0 ==> {
        let next = m.word(slot) & 0xf_ffff_ffff_f000;
        &&& forall|x: int| in_slot(slot, x) ==> !on_path(m, next, level + 1, levels, vaddr, x)
        &&& settled(m, next, level + 1, levels, vaddr)
    }
}

/// All free memory lies below the 52nd power of two, as far as a page-table
/// entry can point.
pub open spec fn low_free(m: Memory) -> bool {
    forall|x: int| covers(m.free, x) ==> x < 0x10_0000_0000_0000
}

/// Eight zero bytes spell the word zero.
proof fn lemma_zero_word()
    ensures
        vstd::bytes::spec_u64_from_le_bytes(Seq::new(8, |k: int| 0u8)) == 0,
{
    vstd::bytes::spec_u64_to_le_bytes_to_open(0);
    vstd::bytes::lemma_auto_spec_u64_to_from_le_bytes();
    assert(0u64 & 0xff == 0 && (0u64 >> 8) & 0xff == 0 && (0u64 >> 16) & 0xff == 0 && (0u64 >> 24)
        & 0xff == 0 && (0u64 >> 32) & 0xff == 0 && (0u64 >> 40) & 0xff == 0 && (0u64 >> 48) & 0xff
        == 0 && (0u64 >> 56) & 0xff == 0) by (bit_vector);
    assert(vstd::bytes::spec_u64_to_le_bytes(0) =~= Seq::new(8, |k: int| 0u8));
}

/// Memories that agree on the eight bytes of an entry hold the same entry.
proof fn lemma_same_word(a: Memory, b: Memory, slot: u64)
    requires
        forall|x: int| in_slot(slot, x) ==> a.bytes[x] == b.bytes[x],
    ensures
        a.word(slot) == b.word(slot),
{
    let x = Seq::new(8, |k: int| a.bytes[slot + k]);
    let y = Seq::new(8, |k: int| b.bytes[slot + k]);
    assert forall|k: int| 0 <= k < 8 implies #[trigger] x[k] == y[k] by {
        assert(in_slot(slot, slot + k));
    }
    assert(x =~= y);
}

/// What creating a table does, where the walk from `table`, which stands at
/// `level`, finds its entry absent: the new table comes from the free memory,
/// is zero, and is linked by the entry; nothing else changes.
proof fn lemma_table_created(m: Memory, table: u64, level: int, levels: int, vaddr: u64)
    requires
        0 <= level < levels - 1,
        canonical(m.free),
        low_free(m),
        settled(m, table, level, levels, vaddr),
        m.reachable((table + index_at(vaddr, level) * 8) as u64, 8),
        m.allocate_zeroed(FRAME_SIZE, FRAME_SIZE).1 is Ok,
    ensures
        ({
            let slot = (table + index_at(vaddr, level) * 8) as u64;
            let (m1, r) = m.allocate_zeroed(FRAME_SIZE, FRAME_SIZE);
            let t = r->Ok_0.0;
            let link = link_entry(t);
            let m2 = m1.store_word(slot, link);
            let below = (t + index_at(vaddr, level + 1) * 8) as u64;
            &&& link & 0xf_ffff_ffff_f000 == t
            &&& link & 1 != 0
            &&& canonical(m2.free)
            &&& low_free(m2)
            &&& m2.free == allocated(m.free, 4096, 4096).0
            &&& settled(m2, t, level + 1, levels, vaddr)
            &&& m2.bytes.dom() == m.bytes.dom()
            &&& m2.word(slot) == link
            &&& m2.word(below) == 0
            &&& forall|x: int| in_slot(below, x) ==> covers(m.free, x)
            &&& forall|x: int| covers(m2.free, x) ==> covers(m.free, x)
            &&& forall|x: int|
                m.bytes.dom().contains(x) && !covers(m.free, x) && !in_slot(slot, x) ==> m2.bytes[x]
                    == m.bytes[x]
        }),
{
    let slot = (table + index_at(vaddr, level) * 8) as u64;
    let size = FRAME_SIZE as u64;
    lemma_allocated_sound(m.free, size, size);
    let (m1, r) = m.allocate_zeroed(FRAME_SIZE, FRAME_SIZE);
    let t = r->Ok_0.0;
    let i = choose|i: int|
        0 <= i < m.free.len() && (#[trigger] m.free[i]).start <= t && t + size - 1 <= m.free[i].end
            && points(m1.free) == points(m.free).difference(
            Range { start: m.free[i].start, end: (t + size - 1) as u64 }.points(),
        );
    // The new table lay in free memory, and does so no more.
    assert forall|x: int| t <= x < t + 4096 implies covers(m.free, x) && !covers(m1.free, x) by {
        assert(m.free[i].has(x));
        assert(Range {
            start: m.free[i].start,
            end: (t + size - 1) as u64,
        }.points().contains(x));
        assert(!points(m1.free).contains(x));
    }
    assert(covers(m.free, t as int));
    assert forall|x: int| covers(m1.free, x) implies covers(m.free, x) by {
        assert(points(m1.free).contains(x));
        assert(points(m.free).contains(x));
    }
    let link = link_entry(t);
    assert(link & 0xf_ffff_ffff_f000 == t && link & 1 != 0 && link == t | 4 | 2 | 1) by (bit_vector)
        requires
            t % 4096 == 0,
            t < 0x10_0000_0000_0000,
            link == t | 4 | 2 | 1,
    ;
    let m2 = m1.store_word(slot, link);
    let below = (t + index_at(vaddr, level + 1) * 8) as u64;
    let v = vaddr;
    assert((v >> 39) & 0x1ff <= 0x1ff && (v >> 30) & 0x1ff <= 0x1ff && (v >> 21) & 0x1ff <= 0x1ff
        && (v >> 12) & 0x1ff <= 0x1ff) by (bit_vector);
    assert(t <= below && below + 8 <= t + 4096);
    // The entry of the new table is zero: the table was zeroed, and the link
    // was written elsewhere.
    assert forall|x: int| in_slot(below, x) implies m2.bytes[x] == 0 && covers(m.free, x) by {
        assert(covers(m.free, x));
        assert(!in_slot(slot, x));
    }
    assert(m2.word(below) == 0) by {
        let x = Seq::new(8, |k: int| m2.bytes[below + k]);
        assert forall|k: int| 0 <= k < 8 implies #[trigger] x[k] == 0 by {
            assert(in_slot(below, below + k));
        }
        assert(x =~= Seq::new(8, |k: int| 0u8));
        lemma_zero_word();
    }
    assert(0u64 & 1 == 0) by (bit_vector);
    assert(m2.bytes.dom() =~= m.bytes.dom());
    assert(settled(m2, t, level + 1, levels, vaddr));
    lemma_store_then_word(m1, slot, link, slot);
}

/// A walk that succeeds leaves tables in which `vaddr` leads to the entry
/// written, where the tables on the way were in order. It changes no byte
/// but those that were free and those of the entries on the way.
pub proof fn lemma_walk_maps(
    m: Memory,
    table: u64,
    level: int,
    levels: int,
    vaddr: u64,
    raw: u64,
    add: bool,
    update: bool,
    invlpg_on_update: bool,
)
    requires
        0 <= level < levels,
        canonical(m.free),
        low_free(m),
        settled(m, table, level, levels, vaddr),
        walk(m, table, level, levels, vaddr, raw, add, update, invlpg_on_update).1 is Ok,
    ensures
        ({
            let after = walk(m, table, level, levels, vaddr, raw, add, update, invlpg_on_update).0;
            &&& lookup(after, table, level, levels, vaddr) == Some(raw)
            &&& after.bytes.dom() == m.bytes.dom()
            &&& forall|x: int|
                m.bytes.dom().contains(x) && !covers(m.free, x) && !on_path(
                    m,
                    table,
                    level,
                    levels,
                    vaddr,
                    x,
                ) ==> after.bytes[x] == m.bytes[x]
        }),
    decreases levels - level,
{
    let slot = (table + index_at(vaddr, level) * 8) as u64;
    let after = walk(m, table, level, levels, vaddr, raw, add, update, invlpg_on_update).0;
    let ent = m.word(slot);
    lemma_walk_takes_only(m, table, level, levels, vaddr, raw, add, update, invlpg_on_update);
    assert(m.reachable(slot, 8));
    assert(after.reachable(slot, 8));
    if level >= levels - 1 {
        lemma_store_then_word(m, slot, raw, slot);
    } else if ent & 1 != 0 {
        let next = ent & 0xf_ffff_ffff_f000;
        lemma_walk_maps(m, next, level + 1, levels, vaddr, raw, add, update, invlpg_on_update);
        assert forall|x: int| in_slot(slot, x) implies after.bytes[x] == m.bytes[x] by {}
        lemma_same_word(after, m, slot);
    } else {
        lemma_table_created(m, table, level, levels, vaddr);
        let (m1, r) = m.allocate_zeroed(FRAME_SIZE, FRAME_SIZE);
        let t = r->Ok_0.0;
        let m2 = m1.store_word(slot, link_entry(t));
        let below = (t + index_at(vaddr, level + 1) * 8) as u64;
        lemma_walk_maps(m2, t, level + 1, levels, vaddr, raw, add, update, invlpg_on_update);
        assert(0u64 & 1 == 0) by (bit_vector);
        assert forall|x: int| on_path(m2, t, level + 1, levels, vaddr, x) implies in_slot(below, x) by {}
        assert forall|x: int| in_slot(slot, x) implies after.bytes[x] == m2.bytes[x] by {
            assert(!covers(m.free, x));
            assert(!in_slot(below, x));
        }
        lemma_same_word(after, m2, slot);
        assert forall|x: int|
            m.bytes.dom().contains(x) && !covers(m.free, x) && !on_path(
                m,
                table,
                level,
                levels,
                vaddr,
                x,
            ) implies after.bytes[x] == m.bytes[x] by {
            assert(!in_slot(slot, x));
            assert(!in_slot(below, x));
        }
    }
}

/// The free ranges after `n` frames for tables were taken from `s`.
pub open spec fn frames_taken(s: Seq<Range>, n: int) -> Seq<Range>
    decreases n,
{
    if n <= 0 {
        s
    } else {
        frames_taken(allocated(s, 4096, 4096).0, n - 1)
    }
}

/// Where the way to the leaf entry of `vaddr` ends at the table `table`,
/// which stands at `level`, a walk that succeeds creates every table below
/// it: it takes one frame for each level down to the leaf, and no more.
pub proof fn lemma_walk_creates(
    m: Memory,
    table: u64,
    level: int,
    levels: int,
    vaddr: u64,
    raw: u64,
    update: bool,
    invlpg_on_update: bool,
)
    requires
        0 <= level < levels,
        canonical(m.free),
        low_free(m),
        settled(m, table, level, levels, vaddr),
        level < levels - 1 ==> m.word((table + index_at(vaddr, level) * 8) as u64) & 1 == 0,
        walk(m, table, level, levels, vaddr, raw, true, update, invlpg_on_update).1 is Ok,
    ensures
        walk(m, table, level, levels, vaddr, raw, true, update, invlpg_on_update).0.free
            == frames_taken(m.free, levels - 1 - level),
    decreases levels - level,
{
    let slot = (table + index_at(vaddr, level) * 8) as u64;
    if level < levels - 1 {
        lemma_table_created(m, table, level, levels, vaddr);
        let (m1, r) = m.allocate_zeroed(FRAME_SIZE, FRAME_SIZE);
        let t = r->Ok_0.0;
        let m2 = m1.store_word(slot, link_entry(t));
        assert(0u64 & 1 == 0) by (bit_vector);
        lemma_walk_creates(m2, t, level + 1, levels, vaddr, raw, update, invlpg_on_update);
    }
}

/// Mapping into an empty table: where the root holds no entry for `vaddr`,
/// a `map_raw` that succeeds takes exactly one frame for each level of tables
/// below the root.
pub proof fn lemma_map_raw_creates(
    m: Memory,
    root: u64,
    vaddr: u64,
    page: PageSize,
    raw: u64,
    update: bool,
    invlpg_on_update: bool,
)
    requires
        canonical(m.free),
        low_free(m),
        settled(m, root, 0, page.spec_levels(), vaddr),
        m.word((root + index_at(vaddr, 0) * 8) as u64) & 1 == 0,
        map_raw_model(m, root, vaddr, page, raw, true, update, invlpg_on_update).1 is Ok,
    ensures
        map_raw_model(m, root, vaddr, page, raw, true, update, invlpg_on_update).0.free
            == frames_taken(m.free, page.spec_levels() - 1),
{
    lemma_walk_creates(m, root, 0, page.spec_levels(), vaddr, raw, update, invlpg_on_update);
}

/// Where `map_raw` succeeds on tables that were in order on the way to
/// `vaddr`, the tables lead from `vaddr` to the entry written.
pub proof fn lemma_map_raw_maps(
    m: Memory,
    root: u64,
    vaddr: u64,
    page: PageSize,
    raw: u64,
    add: bool,
    update: bool,
    invlpg_on_update: bool,
)
    requires
        canonical(m.free),
        low_free(m),
        settled(m, root, 0, page.spec_levels(), vaddr),
        map_raw_model(m, root, vaddr, page, raw, add, update, invlpg_on_update).1 is Ok,
    ensures
        lookup(
            map_raw_model(m, root, vaddr, page, raw, add, update, invlpg_on_update).0,
            root,
            0,
            page.spec_levels(),
            vaddr,
        ) == Some(raw),
{
    lemma_walk_maps(m, root, 0, page.spec_levels(), vaddr, raw, add, update, invlpg_on_update);
}

/// Where the tables lead from `vaddr` to an entry that is present, a walk
/// without leave to overwrite is refused, and leaves the memory as it was.
pub proof fn lemma_walk_present_refused(
    m: Memory,
    table: u64,
    level: int,
    levels: int,
    vaddr: u64,
    raw: u64,
    add: bool,
    invlpg_on_update: bool,
)
    requires
        0 <= level < levels,
        lookup(m, table, level, levels, vaddr) matches Some(ent) && ent & 1 != 0,
    ensures
        walk(m, table, level, levels, vaddr, raw, add, false, invlpg_on_update) == (
            m,
            Err::<Flush, MemError>(MemError::AlreadyMapped),
        ),
    decreases levels - level,
{
    let slot = (table + index_at(vaddr, level) * 8) as u64;
    if level < levels - 1 {
        lemma_walk_present_refused(
            m,
            m.word(slot) & 0xf_ffff_ffff_f000,
            level + 1,
            levels,
            vaddr,
            raw,
            add,
            invlpg_on_update,
        );
    }
}

/// Mapping an address twice: where `map_raw` has written an entry that is
/// present, on tables that were in order on the way, another `map_raw` for the
/// same address without leave to overwrite is refused, and leaves the memory
/// as it is.
pub proof fn lemma_map_raw_twice(
    m: Memory,
    root: u64,
    vaddr: u64,
    page: PageSize,
    raw: u64,
    add: bool,
    update: bool,
    invlpg_on_update: bool,
    raw2: u64,
    add2: bool,
    invlpg2: bool,
)
    requires
        canonical(m.free),
        low_free(m),
        settled(m, root, 0, page.spec_levels(), vaddr),
        map_raw_model(m, root, vaddr, page, raw, add, update, invlpg_on_update).1 is Ok,
        raw & 1 != 0,
    ensures
        ({
            let after = map_raw_model(m, root, vaddr, page, raw, add, update, invlpg_on_update).0;
            map_raw_model(after, root, vaddr, page, raw2, add2, false, invlpg2) == (
                after,
                Err::<Flush, MemError>(MemError::AlreadyMapped),
            )
        }),
{
    let after = map_raw_model(m, root, vaddr, page, raw, add, update, invlpg_on_update).0;
    lemma_map_raw_maps(m, root, vaddr, page, raw, add, update, invlpg_on_update);
    assert(mappable(vaddr, page));
    lemma_walk_present_refused(after, root, 0, page.spec_levels(), vaddr, raw2, add2, invlpg2);
}

/// No entry on a way that is in order lies in free memory.
proof fn lemma_path_not_free(m: Memory, table: u64, level: int, levels: int, vaddr: u64, x: int)
    requires
        0 <= level < levels,
        settled(m, table, level, levels, vaddr),
        on_path(m, table, level, levels, vaddr, x),
    ensures
        !covers(m.free, x),
    decreases levels - level,
{
    let slot = (table + index_at(vaddr, level) * 8) as u64;
    if !in_slot(slot, x) {
        lemma_path_not_free(m, m.word(slot) & 0xf_ffff_ffff_f000, level + 1, levels, vaddr, x);
    }
}

/// A way that is in order stays so, and stays the same way to the same leaf
/// entry, when memory changes only where it was free, and no memory becomes
/// free.
proof fn lemma_settled_stable(m: Memory, n: Memory, table: u64, level: int, levels: int, vaddr: u64)
    requires
        0 <= level < levels,
        settled(m, table, level, levels, vaddr),
        n.bytes.dom() == m.bytes.dom(),
        forall|x: int| covers(n.free, x) ==> covers(m.free, x),
        forall|x: int| m.bytes.dom().contains(x) && !covers(m.free, x) ==> n.bytes[x] == m.bytes[x],
    ensures
        settled(n, table, level, levels, vaddr),
        forall|x: int|
            on_path(n, table, level, levels, vaddr, x) == on_path(m, table, level, levels, vaddr, x),
        lookup(n, table, level, levels, vaddr) == lookup(m, table, level, levels, vaddr),
    decreases levels - level,
{
    let slot = (table + index_at(vaddr, level) * 8) as u64;
    assert(n.reachable(slot, 8) == m.reachable(slot, 8));
    if m.reachable(slot, 8) {
        assert forall|x: int| in_slot(slot, x) implies n.bytes[x] == m.bytes[x] by {}
        lemma_same_word(n, m, slot);
        if level < levels - 1 && m.word(slot) & 1 != 0 {
            lemma_settled_stable(
                m,
                n,
                m.word(slot) & 0xf_ffff_ffff_f000,
                level + 1,
                levels,
                vaddr,
            );
        }
    }
    assert forall|x: int|
        on_path(n, table, level, levels, vaddr, x) == on_path(m, table, level, levels, vaddr, x) by {
        let next = m.word(slot) & 0xf_ffff_ffff_f000;
        if m.reachable(slot, 8) && level < levels - 1 && m.word(slot) & 1 != 0 {
            assert(on_path(n, next, level + 1, levels, vaddr, x) == on_path(
                m,
                next,
                level + 1,
                levels,
                vaddr,
                x,
            ));
        }
    }
}

/// One page of `map` and `map_init`: where the step succeeds on tables that
/// were in order on the way to the page, the page is mapped onto the frame
/// allocated for it, with the rights asked for, and where there is a byte
/// source, the frame holds the bytes that the source gives for the page.
pub proof fn lemma_page_mapped(
    m: Memory,
    root: u64,
    vaddr: u64,
    page: PageSize,
    write: bool,
    exec: bool,
    src: Option<spec_fn(u64) -> u8>,
    k: int,
)
    requires
        canonical(m.free),
        low_free(m),
        0 <= k,
        vaddr + k * page.spec_bytes() <= u64::MAX,
        settled(m, root, 0, page.spec_levels(), (vaddr + k * page.spec_bytes()) as u64),
        page_step(m, root, vaddr, page, write, exec, src, k).1 is Ok,
    ensures
        ({
            let size = page.spec_bytes();
            let after = page_step(m, root, vaddr, page, write, exec, src, k).0;
            let frame = m.allocate(size as usize, size as usize).1->Ok_0.0;
            &&& m.allocate(size as usize, size as usize).1 is Ok
            &&& lookup(after, root, 0, page.spec_levels(), (vaddr + k * size) as u64) == Some(
                leaf_entry(frame, write, exec),
            )
            &&& src matches Some(f) ==> forall|o: int|
                0 <= o < size ==> #[trigger] after.bytes[frame + o] == f((k * size + o) as u64)
        }),
{
    let size = page.spec_bytes();
    let levels = page.spec_levels();
    let at = (vaddr + k * size) as u64;
    let (m1, r1) = m.allocate(size as usize, size as usize);
    let frame = r1->Ok_0.0;
    lemma_allocated_sound(m.free, size, size);
    let i = choose|i: int|
        0 <= i < m.free.len() && (#[trigger] m.free[i]).start <= frame && frame + size - 1
            <= m.free[i].end && points(m1.free) == points(m.free).difference(
            Range { start: m.free[i].start, end: (frame + size - 1) as u64 }.points(),
        );
    assert forall|x: int| frame <= x < frame + size implies covers(m.free, x) && !covers(m1.free, x) by {
        assert(m.free[i].has(x));
        assert(Range { start: m.free[i].start, end: (frame + size - 1) as u64 }.points().contains(x));
        assert(!points(m1.free).contains(x));
    }
    assert forall|x: int| covers(m1.free, x) implies covers(m.free, x) by {
        assert(points(m1.free).contains(x));
        assert(points(m.free).contains(x));
    }
    let m2 = match src {
        None => m1,
        Some(f) => m1.fill(frame, size as int, shifted(f, k * size)),
    };
    assert(m2.bytes.dom() =~= m.bytes.dom());
    lemma_settled_stable(m, m2, root, 0, levels, at);
    let leaf = leaf_entry(frame, write, exec);
    let after = map_raw_model(m2, root, at, page, leaf, true, false, false).0;
    lemma_walk_maps(m2, root, 0, levels, at, leaf, true, false, false);
    if let Some(f) = src {
        assert forall|o: int| 0 <= o < size implies #[trigger] after.bytes[frame + o] == f(
            (k * size + o) as u64,
        ) by {
            let x = frame + o;
            if on_path(m2, root, 0, levels, at, x) {
                lemma_path_not_free(m, root, 0, levels, at, x);
            }
            assert(m2.bytes[x] == f((k * size + o) as u64));
        }
    }
}

} // verus!

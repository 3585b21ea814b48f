//! The free memory of the machine: what the firmware's map leaves of it, the
//! heap on top of it, and a backend that serves the page tables from it.

use vstd::prelude::*;
use vstd::bytes::{u64_from_le_bytes, u64_to_le_bytes};
use vstd::slice::slice_subrange;
use crate::error::MemError;
use crate::phys_mem::{Memory, PhysAddr, PhysMem};
use crate::rangeset::{Range, RangeSet};
use crate::rangeset_model::{allocated, covers, insert_fails, inserted, points, remove_fails, removed};

verus! {

/// Physical memory behind a set of free ranges: allocation takes from the
/// set, and a window of bytes that starts at the physical address `base` can
/// be read and written.
pub struct PhysicalMemory {
    free: RangeSet,
    base: u64,
    store: Vec<u8>,
}

impl PhysicalMemory {
    /// The free ranges, in storage order.
    pub closed spec fn free_view(&self) -> Seq<Range> {
        self.free@
    }

    /// The physical address of the first byte of the window.
    pub closed spec fn window_base(&self) -> u64 {
        self.base
    }

    /// The bytes of the window.
    pub closed spec fn window(&self) -> Seq<u8> {
        self.store@
    }

    /// Physical memory with the free ranges `free` and a window of `len`
    /// zero bytes at `base`. Fails where the window would reach beyond the
    /// last address.
    pub fn new(free: RangeSet, base: u64, len: usize) -> (r: Result<PhysicalMemory, MemError>)
        requires
            free.wf(),
        ensures
            match r {
                Ok(m) => {
                    &&& base + len <= u64::MAX + 1
                    &&& m.inv()
                    &&& m.free_view() == free@
                    &&& m.window_base() == base
                    &&& m.window() == Seq::new(len as nat, |i: int| 0u8)
                },
                Err(e) => base + len > u64::MAX + 1 && e == MemError::AddressOverflow,
            },
    {
        if len > 0 && (len - 1) as u64 > u64::MAX - base {
            return Err(MemError::AddressOverflow);
        }
        let store = vec![0u8; len];
        assert(store@ =~= Seq::new(len as nat, |i: int| 0u8));
        Ok(PhysicalMemory { free, base, store })
    }

    /// The free ranges.
    pub fn free(&self) -> (r: &RangeSet)
        requires
            self.inv(),
        ensures
            r.wf(),
            r@ == self.free_view(),
    {
        &self.free
    }

    /// Gives the free ranges back and drops the window.
    pub fn into_free(self) -> (r: RangeSet)
        requires
            self.inv(),
        ensures
            r.wf(),
            r@ == self.free_view(),
    {
        self.free
    }

    /// Where in the window the `size` bytes from `paddr` on lie.
    fn offset(&self, paddr: PhysAddr, size: usize) -> (r: Result<usize, MemError>)
        requires
            self.inv(),
        ensures
            r == if self.model().reachable(paddr.0, size) {
                Ok::<usize, MemError>(self.place(paddr.0))
            } else if size == 0 {
                Err::<usize, MemError>(MemError::InvalidArgument)
            } else {
                Err::<usize, MemError>(MemError::AddressOverflow)
            },
            r matches Ok(off) ==> off == paddr.0 - self.base && off + size <= self.store@.len()
                <= usize::MAX,
    {
        // No access of no bytes can be translated.
        if size == 0 {
            return Err(MemError::InvalidArgument);
        }
        let ghost dom = self.model().bytes.dom();
        if paddr.0 < self.base {
            assert(!dom.contains(paddr.0 as int));
            return Err(MemError::AddressOverflow);
        }
        let off = paddr.0 - self.base;
        if off >= self.store.len() as u64 {
            assert(!dom.contains(paddr.0 as int));
            return Err(MemError::AddressOverflow);
        }
        let off = off as usize;
        proof {
            let last = paddr.0 + size - 1;
            if off + (size - 1) >= self.store@.len() && last <= u64::MAX {
                assert(!dom.contains(last));
            }
        }
        match off.checked_add(size - 1) {
            None => Err(MemError::AddressOverflow),
            Some(last) => if last >= self.store.len() {
                Err(MemError::AddressOverflow)
            } else {
                assert forall|x: int| paddr.0 <= x < paddr.0 + size implies dom.contains(x) by {}
                Ok(off)
            },
        }
    }

    /// The byte at `paddr`, where the window holds it.
    pub fn read_u8(&self, paddr: PhysAddr) -> (r: Option<u8>)
        requires
            self.inv(),
        ensures
            r == if self.model().bytes.dom().contains(paddr.0 as int) {
                Some(self.model().bytes[paddr.0 as int])
            } else {
                None
            },
    {
        if paddr.0 < self.base {
            return None;
        }
        let off = paddr.0 - self.base;
        if off >= self.store.len() as u64 {
            return None;
        }
        Some(self.store[off as usize])
    }
}

impl PhysMem for PhysicalMemory {
    open spec fn model(&self) -> Memory {
        Memory {
            free: self.free_view(),
            bytes: Map::new(
                |x: int| self.window_base() <= x < self.window_base() + self.window().len(),
                |x: int| self.window()[x - self.window_base()],
            ),
        }
    }

    closed spec fn inv(&self) -> bool {
        self.free.wf() && self.base + self.store@.len() <= u64::MAX + 1
    }

    open spec fn place(&self, paddr: u64) -> usize {
        (paddr - self.window_base()) as usize
    }

    fn translate(&mut self, paddr: PhysAddr, size: usize) -> (r: Result<usize, MemError>) {
        self.offset(paddr, size)
    }

    fn alloc_phys(&mut self, size: usize, align: usize) -> (r: Result<PhysAddr, MemError>) {
        match self.free.allocate(size as u64, align as u64) {
            Ok(a) => Ok(PhysAddr(a as u64)),
            Err(e) => Err(e),
        }
    }

    fn read_u64(&mut self, paddr: PhysAddr) -> (r: Result<u64, MemError>) {
        let off = match self.offset(paddr, 8) {
            Ok(off) => off,
            Err(_) => {
                return Err(MemError::AddressOverflow);
            },
        };
        let word = slice_subrange(self.store.as_slice(), off, off + 8);
        proof {
            assert(word@ =~= Seq::new(8, |k: int| self.model().bytes[paddr.0 + k]));
        }
        Ok(u64_from_le_bytes(word))
    }

    fn write_u64(&mut self, paddr: PhysAddr, value: u64) -> (r: Result<(), MemError>) {
        let off = match self.offset(paddr, 8) {
            Ok(off) => off,
            Err(_) => {
                return Err(MemError::AddressOverflow);
            },
        };
        let word = u64_to_le_bytes(value);
        let ghost before = self.store@;
        let mut k: usize = 0;
        while k < 8
            invariant
                k <= 8,
                word@.len() == 8,
                off + 8 <= self.store@.len() <= usize::MAX,
                self.store@.len() == before.len(),
                self.free == old(self).free,
                self.base == old(self).base,
                forall|i: int|
                    0 <= i < before.len() ==> self.store@[i] == if off <= i < off + k {
                        word@[i - off]
                    } else {
                        before[i]
                    },
            decreases 8 - k,
        {
            self.store[off + k] = word[k];
            k += 1;
        }
        proof {
            assert(self.model().bytes =~= old(self).model().store_word(paddr.0, value).bytes);
        }
        Ok(())
    }

    fn write_u8(&mut self, paddr: PhysAddr, value: u8) -> (r: Result<(), MemError>) {
        let off = match self.offset(paddr, 1) {
            Ok(off) => off,
            Err(_) => {
                return Err(MemError::AddressOverflow);
            },
        };
        self.store[off] = value;
        proof {
            assert(self.model().bytes =~= old(self).model().store_byte(paddr.0, value).bytes);
        }
        Ok(())
    }
}

/// Memory below this address holds structures of the firmware and is never
/// handed out.
pub const LOW_MEMORY: u64 = 0x10_0000;

/// The type of a map entry whose memory can be used.
pub const E820_USABLE: u32 = 1;

/// One entry of the memory map that the firmware reports: `size` bytes from
/// `base` on, of type `typ`.
#[derive(Clone, Copy, Debug, PartialEq, Eq, Structural)]
pub struct E820Entry {
    pub base: u64,
    pub size: u64,
    pub typ: u32,
}

impl E820Entry {
    /// The bytes of the entry as a range.
    pub open spec fn range(self) -> Range {
        Range { start: self.base, end: (self.base + self.size - 1) as u64 }
    }

    /// The entry holds bytes, and they are usable or not as `usable` says.
    pub open spec fn counts(self, usable: bool) -> bool {
        self.size > 0 && (self.typ == E820_USABLE) == usable
    }
}

/// One of the first `k` entries of the firmware's map that count for `usable`
/// holds the offset `x`.
pub open spec fn marked(entries: Seq<E820Entry>, usable: bool, k: int, x: int) -> bool {
    exists|j: int|
        0 <= j < k && (#[trigger] entries[j]).counts(usable) && entries[j].base <= x
            < entries[j].base + entries[j].size
}

/// What one pass over the first `k` entries of the firmware's map makes of
/// the free ranges `s`, and what comes of it. The pass over the usable entries
/// inserts them, the other pass removes the entries that are not usable; an
/// entry of no bytes is passed over. The pass ends at an entry that reaches
/// beyond the last address, and at one that the storage has no room for.
pub open spec fn pass_model(s: Seq<Range>, entries: Seq<E820Entry>, usable: bool, k: int) -> (
    Seq<Range>,
    Result<(), MemError>,
)
    decreases k,
{
    if k <= 0 {
        (s, Ok(()))
    } else {
        let (t, r) = pass_model(s, entries, usable, k - 1);
        let e = entries[k - 1];
        if r is Err {
            (t, r)
        } else if !e.counts(usable) {
            (t, Ok(()))
        } else if e.base + e.size - 1 > u64::MAX {
            (t, Err(MemError::AddressOverflow))
        } else if usable {
            if insert_fails(t, e.range()) {
                (t, Err(MemError::CapacityExceeded))
            } else {
                (inserted(t, e.range()), Ok(()))
            }
        } else {
            if remove_fails(t, e.range()) {
                (t, Err(MemError::CapacityExceeded))
            } else {
                (removed(t, e.range()), Ok(()))
            }
        }
    }
}

/// The low memory as a range.
pub open spec fn low_memory() -> Range {
    Range { start: 0, end: (LOW_MEMORY - 1) as u64 }
}

/// The free ranges that the firmware's map leaves: the pass over the usable
/// entries, then the pass over the others, then the removal of the low
/// memory.
pub open spec fn free_memory_model(entries: Seq<E820Entry>) -> Result<Seq<Range>, MemError> {
    let n = entries.len() as int;
    let (found, first) = pass_model(Seq::empty(), entries, true, n);
    let (left, second) = pass_model(found, entries, false, n);
    if first is Err {
        Err(first->Err_0)
    } else if second is Err {
        Err(second->Err_0)
    } else if remove_fails(left, low_memory()) {
        Err(MemError::CapacityExceeded)
    } else {
        Ok(removed(left, low_memory()))
    }
}

/// A pass that has failed after `j` entries has failed after any more, with
/// the free ranges as they were then.
proof fn lemma_pass_failed(s: Seq<Range>, entries: Seq<E820Entry>, usable: bool, j: int, n: int)
    requires
        j <= n,
        pass_model(s, entries, usable, j).1 is Err,
    ensures
        pass_model(s, entries, usable, n) == pass_model(s, entries, usable, j),
    decreases n - j,
{
    if j < n {
        lemma_pass_failed(s, entries, usable, j, n - 1);
    }
}

/// One pass over the firmware's map.
fn pass(free: &mut RangeSet, entries: &[E820Entry], usable: bool) -> (r: Result<(), MemError>)
    requires
        old(free).wf(),
    ensures
        final(free).wf(),
        (final(free)@, r) == pass_model(old(free)@, entries@, usable, entries@.len() as int),
        r is Ok ==> forall|x: int|
            covers(final(free)@, x) <==> if usable {
                covers(old(free)@, x) || marked(entries@, true, entries@.len() as int, x)
            } else {
                covers(old(free)@, x) && !marked(entries@, false, entries@.len() as int, x)
            },
{
    let mut k: usize = 0;
    while k < entries.len()
        invariant
            free.wf(),
            k <= entries@.len(),
            pass_model(old(free)@, entries@, usable, k as int) == (free@, Ok::<(), MemError>(())),
            forall|x: int|
                covers(free@, x) <==> if usable {
                    covers(old(free)@, x) || marked(entries@, true, k as int, x)
                } else {
                    covers(old(free)@, x) && !marked(entries@, false, k as int, x)
                },
        decreases entries@.len() - k,
    {
        let entry = entries[k];
        let ghost before = free@;
        proof {
            if pass_model(old(free)@, entries@, usable, k + 1).1 is Err {
                lemma_pass_failed(old(free)@, entries@, usable, k + 1, entries@.len() as int);
            }
        }
        if entry.size > 0 && (entry.typ == E820_USABLE) == usable {
            let end = match entry.base.checked_add(entry.size - 1) {
                Some(end) => end,
                None => {
                    return Err(MemError::AddressOverflow);
                },
            };
            let range = Range { start: entry.base, end };
            if usable {
                free.insert(range)?;
            } else {
                free.remove(range)?;
            }
            proof {
                assert forall|x: int|
                    covers(free@, x) <==> if usable {
                        covers(old(free)@, x) || marked(entries@, true, k + 1, x)
                    } else {
                        covers(old(free)@, x) && !marked(entries@, false, k + 1, x)
                    } by {
                    assert(points(free@).contains(x) <==> covers(free@, x));
                    assert(points(before).contains(x) <==> covers(before, x));
                    assert(range.points().contains(x) <==> range.has(x));
                    lemma_marked_step(entries@, usable, k as int, x);
                }
            }
        } else {
            proof {
                assert forall|x: int|
                    marked(entries@, usable, k + 1, x) <==> marked(entries@, usable, k as int, x) by {
                    lemma_marked_step(entries@, usable, k as int, x);
                }
            }
        }
        k += 1;
    }
    Ok(())
}

/// An offset is marked by one of the first `k + 1` entries when one of the
/// first `k` marks it or entry `k` does.
proof fn lemma_marked_step(entries: Seq<E820Entry>, usable: bool, k: int, x: int)
    requires
        0 <= k < entries.len(),
    ensures
        marked(entries, usable, k + 1, x) <==> marked(entries, usable, k, x) || (entries[k].counts(
            usable,
        ) && entries[k].base <= x < entries[k].base + entries[k].size),
{
    if marked(entries, usable, k + 1, x) {
        let j = choose|j: int|
            0 <= j < k + 1 && (#[trigger] entries[j]).counts(usable) && entries[j].base <= x
                < entries[j].base + entries[j].size;
        if j < k {
            assert(marked(entries, usable, k, x));
        }
    }
    if marked(entries, usable, k, x) {
        let j = choose|j: int|
            0 <= j < k && (#[trigger] entries[j]).counts(usable) && entries[j].base <= x
                < entries[j].base + entries[j].size;
        assert(entries[j].counts(usable));
    }
    if entries[k].counts(usable) && entries[k].base <= x < entries[k].base + entries[k].size {
        assert(entries[k].counts(usable));
    }
}

/// The free memory that the firmware's map leaves. The map is gone through
/// twice: first all memory marked usable is collected, then all memory marked
/// otherwise is taken out again, so that memory marked both ways is not used.
/// The low memory is taken out last.
pub fn init(entries: &[E820Entry]) -> (r: Result<RangeSet, MemError>)
    ensures
        match free_memory_model(entries@) {
            Ok(free) => r matches Ok(set) && set.wf() && set@ == free,
            Err(e) => r matches Err(f) && f == e,
        },
        r matches Ok(set) ==> forall|x: int|
            covers(set@, x) <==> marked(entries@, true, entries@.len() as int, x) && !marked(
                entries@,
                false,
                entries@.len() as int,
                x,
            ) && x >= LOW_MEMORY,
{
    let mut free_memory = RangeSet::new();
    assert(free_memory@ =~= Seq::<Range>::empty());
    pass(&mut free_memory, entries, true)?;
    pass(&mut free_memory, entries, false)?;
    let ghost left = free_memory@;
    // Remove the memory that the firmware keeps its structures in.
    free_memory.remove(Range { start: 0, end: LOW_MEMORY - 1 })?;
    proof {
        assert forall|x: int|
            covers(free_memory@, x) <==> marked(entries@, true, entries@.len() as int, x)
                && !marked(entries@, false, entries@.len() as int, x) && x >= LOW_MEMORY by {
            assert(points(free_memory@).contains(x) <==> covers(free_memory@, x));
            assert(points(left).contains(x) <==> covers(left, x));
            assert(low_memory().points().contains(x) <==> low_memory().has(x));
            assert(!covers(Seq::<Range>::empty(), x));
            if covers(left, x) {
                assert(x >= 0);
            }
        }
    }
    Ok(free_memory)
}

/// Takes `size` bytes aligned to `align` from the free memory for the heap
/// and returns their address.
pub fn heap_allocate(free: &mut RangeSet, size: usize, align: usize) -> (r: Result<usize, MemError>)
    requires
        old(free).wf(),
    ensures
        final(free).wf(),
        (final(free)@, r) == allocated(old(free)@, size as u64, align as u64),
{
    free.allocate(size as u64, align as u64)
}

/// Gives the `size` bytes at `ptr` back to the free memory. Nothing is done
/// for no bytes.
pub fn heap_release(free: &mut RangeSet, ptr: usize, size: usize) -> (r: Result<(), MemError>)
    requires
        old(free).wf(),
    ensures
        final(free).wf(),
        size == 0 ==> r is Ok && final(free)@ == old(free)@,
        size > 0 && ptr + size - 1 > u64::MAX ==> r == Err::<(), MemError>(
            MemError::AddressOverflow,
        ) && final(free)@ == old(free)@,
        size > 0 && ptr + size - 1 <= u64::MAX ==> {
            let range = Range { start: ptr as u64, end: (ptr + size - 1) as u64 };
            if insert_fails(old(free)@, range) {
                r == Err::<(), MemError>(MemError::CapacityExceeded) && final(free)@ == old(free)@
            } else {
                r is Ok && final(free)@ == inserted(old(free)@, range) && points(final(free)@)
                    == points(old(free)@).union(range.points())
            }
        },
{
    // There is nothing to free for no bytes.
    if size == 0 {
        return Ok(());
    }
    let end = match (ptr as u64).checked_add((size - 1) as u64) {
        Some(end) => end,
        None => {
            return Err(MemError::AddressOverflow);
        },
    };
    free.insert(Range { start: ptr as u64, end })
}

} // verus!

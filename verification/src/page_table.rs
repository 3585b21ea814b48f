//! 4-level x86-64 page tables in physical memory.

use vstd::prelude::*;
use crate::cpu::{canonicalize_address, is_canonical};
use crate::error::MemError;
use crate::phys_mem::{Memory, PhysAddr, PhysMem, FRAME_SIZE};
use crate::rangeset_laws::lemma_allocated_aligned;

verus! {

/// The entry is in use.
pub const PAGE_PRESENT: u64 = 0x1;

/// The page may be written.
pub const PAGE_WRITE: u64 = 0x2;

/// The page may be used from user mode.
pub const PAGE_USER: u64 = 0x4;

/// Nothing may be executed from the page.
pub const PAGE_NX: u64 = 0x8000_0000_0000_0000;

/// The bits of an entry that hold the address of the frame or table.
pub const PAGE_FRAME: u64 = 0xf_ffff_ffff_f000;

/// A virtual address. It is a plain number, kept apart from physical
/// addresses by its type.
#[derive(Clone, Copy, Debug, PartialEq, Eq, Structural)]
pub struct VirtAddr(pub u64);

/// The page sizes of 4-level x86-64 paging.
#[derive(Clone, Copy, Debug, PartialEq, Eq, Structural)]
pub enum PageSize {
    Page4K,
    Page2M,
    Page1G,
}

impl PageSize {
    /// Size of the page in bytes.
    pub open spec fn spec_bytes(self) -> u64 {
        match self {
            PageSize::Page4K => 4096,
            PageSize::Page2M => 0x20_0000,
            PageSize::Page1G => 0x4000_0000,
        }
    }

    /// Number of table levels from the root down to the leaf entry of such a
    /// page.
    pub open spec fn spec_levels(self) -> int {
        match self {
            PageSize::Page4K => 4,
            PageSize::Page2M => 3,
            PageSize::Page1G => 2,
        }
    }

    /// Size of the page in bytes.
    #[verifier::when_used_as_spec(spec_bytes)]
    pub fn bytes(self) -> (r: u64)
        ensures
            r == self.spec_bytes(),
    {
        match self {
            PageSize::Page4K => 4096,
            PageSize::Page2M => 2 * 1024 * 1024,
            PageSize::Page1G => 1 * 1024 * 1024 * 1024,
        }
    }
}

/// What is left to do to the translation cache after an entry was written.
#[derive(Clone, Copy, Debug, PartialEq, Eq, Structural)]
pub enum Flush {
    /// Nothing: no translation can be cached.
    Nothing,
    /// The translation of this address must be invalidated.
    Page(VirtAddr),
}

/// Index into the table at `level`, counted from the root, on the way to
/// `vaddr`: nine bits of the address for each level, the highest first.
pub open spec fn index_at(vaddr: u64, level: int) -> u64 {
    if level == 0 {
        (vaddr >> 39) & 0x1ff
    } else if level == 1 {
        (vaddr >> 30) & 0x1ff
    } else if level == 2 {
        (vaddr >> 21) & 0x1ff
    } else {
        (vaddr >> 12) & 0x1ff
    }
}

/// A virtual address can be mapped with pages of size `page` when it is a
/// multiple of the page size and canonical.
pub open spec fn mappable(vaddr: u64, page: PageSize) -> bool {
    vaddr % page.spec_bytes() == 0 && is_canonical(vaddr)
}

/// The entry that links a table to the table below it at `table`.
pub open spec fn link_entry(table: u64) -> u64 {
    table | PAGE_USER | PAGE_WRITE | PAGE_PRESENT
}

/// The leaf entry for the frame at `frame`. Every mapped page can be read.
pub open spec fn leaf_entry(frame: u64, write: bool, exec: bool) -> u64 {
    frame | PAGE_PRESENT | (if write {
        PAGE_WRITE
    } else {
        0
    }) | (if exec {
        0
    } else {
        PAGE_NX
    })
}

/// The translation of `vaddr` must be invalidated after its present leaf entry
/// was overwritten, where that was asked for and addresses of this machine
/// are as wide as virtual addresses.
pub open spec fn flush_after(vaddr: u64, present: bool, invlpg_on_update: bool) -> Flush {
    if present && invlpg_on_update && usize::BITS == 64 {
        Flush::Page(VirtAddr(vaddr))
    } else {
        Flush::Nothing
    }
}

/// What `map_raw` does from the table at `table`, which stands at `level`, on
/// the way to the leaf entry of `vaddr`, and what it returns.
pub open spec fn walk(
    m: Memory,
    table: u64,
    level: int,
    levels: int,
    vaddr: u64,
    raw: u64,
    add: bool,
    update: bool,
    invlpg_on_update: bool,
) -> (Memory, Result<Flush, MemError>)
    decreases levels - level,
{
    let slot = (table + index_at(vaddr, level) * 8) as u64;
    if !m.reachable(slot, 8) {
        (m, Err(MemError::AddressOverflow))
    } else {
        let ent = m.word(slot);
        let present = ent & PAGE_PRESENT != 0;
        if level >= levels - 1 {
            if present && !update {
                (m, Err(MemError::AlreadyMapped))
            } else {
                (m.store_word(slot, raw), Ok(flush_after(vaddr, present, invlpg_on_update)))
            }
        } else if present {
            walk(m, ent & PAGE_FRAME, level + 1, levels, vaddr, raw, add, update, invlpg_on_update)
        } else if !add {
            (m, Err(MemError::NotMapped))
        } else {
            let (m1, r) = m.allocate_zeroed(FRAME_SIZE, FRAME_SIZE);
            match r {
                Err(e) => (m1, Err(e)),
                Ok(below) => {
                    let link = link_entry(below.0);
                    walk(
                        m1.store_word(slot, link),
                        link & PAGE_FRAME,
                        level + 1,
                        levels,
                        vaddr,
                        raw,
                        add,
                        update,
                        invlpg_on_update,
                    )
                },
            }
        }
    }
}

/// The leaf entry that the tables from `table` on, which stands at `level`,
/// hold for `vaddr`, where every entry on the way can be reached and every
/// table on the way is present. This is what the processor finds when it
/// translates `vaddr`.
pub open spec fn lookup(m: Memory, table: u64, level: int, levels: int, vaddr: u64) -> Option<u64>
    decreases levels - level,
{
    let slot = (table + index_at(vaddr, level) * 8) as u64;
    if !m.reachable(slot, 8) {
        None
    } else {
        let ent = m.word(slot);
        if level >= levels - 1 {
            Some(ent)
        } else if ent & PAGE_PRESENT != 0 {
            lookup(m, ent & PAGE_FRAME, level + 1, levels, vaddr)
        } else {
            None
        }
    }
}

/// What `map_raw` on the page table with root `root` does to the memory `m`,
/// and what it returns.
pub open spec fn map_raw_model(
    m: Memory,
    root: u64,
    vaddr: u64,
    page: PageSize,
    raw: u64,
    add: bool,
    update: bool,
    invlpg_on_update: bool,
) -> (Memory, Result<Flush, MemError>) {
    if !mappable(vaddr, page) {
        (m, Err(MemError::InvalidArgument))
    } else {
        walk(m, root, 0, page.spec_levels(), vaddr, raw, add, update, invlpg_on_update)
    }
}

/// Every address from `first` to `last` is canonical.
pub open spec fn span_canonical(first: u64, last: u64) -> bool {
    forall|x: u64| first <= x <= last ==> is_canonical(x)
}

/// The byte source handed to the model: none where `map_init` got none.
pub open spec fn source_of<F>(init: Option<F>, src: spec_fn(u64) -> u8) -> Option<
    spec_fn(u64) -> u8,
> {
    match init {
        None => None,
        Some(_) => Some(src),
    }
}

/// The byte source `src` as seen from the offset `first`.
pub open spec fn shifted(src: spec_fn(u64) -> u8, first: int) -> spec_fn(int) -> u8 {
    |o: int| src((first + o) as u64)
}

/// The function `f` returns for every offset what `src` gives.
pub open spec fn returns_as<F: Fn(u64) -> u8>(f: F, src: spec_fn(u64) -> u8) -> bool {
    forall|o: u64, b: u8| #[trigger] call_ensures(f, (o,), b) ==> b == src(o)
}

/// The byte source `init`, where there is one, returns for every offset what
/// `src` gives.
pub open spec fn follows<F: Fn(u64) -> u8>(init: Option<F>, src: spec_fn(u64) -> u8) -> bool {
    match init {
        None => true,
        Some(f) => returns_as(f, src),
    }
}

/// What `map_init` does for its page `k`, and what it returns: a frame is
/// allocated, filled from the byte source where there is one, and mapped at
/// the page's address.
pub open spec fn page_step(
    m: Memory,
    root: u64,
    vaddr: u64,
    page: PageSize,
    write: bool,
    exec: bool,
    src: Option<spec_fn(u64) -> u8>,
    k: int,
) -> (Memory, Result<(), MemError>) {
    let size = page.spec_bytes();
    let (m1, r1) = m.allocate(size as usize, size as usize);
    match r1 {
        Err(e) => (m1, Err(e)),
        Ok(frame) => {
            if src is Some && !m1.reachable(frame.0, size as usize) {
                (m1, Err(MemError::AddressOverflow))
            } else {
                let m2 = match src {
                    None => m1,
                    Some(f) => m1.fill(frame.0, size as int, shifted(f, k * size)),
                };
                let (m3, r3) = map_raw_model(
                    m2,
                    root,
                    (vaddr + k * size) as u64,
                    page,
                    leaf_entry(frame.0, write, exec),
                    true,
                    false,
                    false,
                );
                match r3 {
                    Err(e) => (m3, Err(e)),
                    Ok(_) => (m3, Ok(())),
                }
            }
        },
    }
}

/// What `map_init` does from its page `k` on, of `n` pages in all, and what it
/// returns: it goes from page to page and stops at the first failure.
pub open spec fn map_pages(
    m: Memory,
    root: u64,
    vaddr: u64,
    page: PageSize,
    write: bool,
    exec: bool,
    src: Option<spec_fn(u64) -> u8>,
    k: int,
    n: int,
) -> (Memory, Result<(), MemError>)
    decreases n - k,
{
    if k >= n {
        (m, Ok(()))
    } else {
        let (m1, r) = page_step(m, root, vaddr, page, write, exec, src, k);
        match r {
            Err(e) => (m1, Err(e)),
            Ok(_) => map_pages(m1, root, vaddr, page, write, exec, src, k + 1, n),
        }
    }
}

/// Number of pages of size `page` that the `size` bytes from `vaddr` on take,
/// or why they cannot be mapped: there are none, `vaddr` is no multiple of the
/// page size, the last address does not fit 64 bits, or an address in between
/// is not canonical.
pub open spec fn span_pages(vaddr: u64, page: PageSize, size: u64) -> Result<u64, MemError> {
    if size == 0 || vaddr % page.spec_bytes() != 0 {
        Err(MemError::InvalidArgument)
    } else if vaddr + (size - 1) > u64::MAX {
        Err(MemError::AddressOverflow)
    } else if !span_canonical(vaddr, (vaddr + (size - 1)) as u64) {
        Err(MemError::InvalidArgument)
    } else {
        Ok(((size - 1) / page.spec_bytes() as int + 1) as u64)
    }
}

/// What `map_init` on the page table with root `root` does to the memory `m`,
/// and what it returns. Nothing is allocated unless the whole span can be
/// mapped.
pub open spec fn map_init_model(
    m: Memory,
    root: u64,
    vaddr: u64,
    page: PageSize,
    size: u64,
    write: bool,
    exec: bool,
    src: Option<spec_fn(u64) -> u8>,
) -> (Memory, Result<(), MemError>) {
    match span_pages(vaddr, page, size) {
        Err(e) => (m, Err(e)),
        Ok(n) => map_pages(m, root, vaddr, page, write, exec, src, 0, n as int),
    }
}

/// A virtual address that is not canonical is refused by every way of
/// mapping, and the memory stays as it was. The same holds of a span that
/// starts at a canonical address and runs into one that is not.
pub proof fn lemma_not_canonical_refused(
    m: Memory,
    root: u64,
    vaddr: u64,
    bad: u64,
    page: PageSize,
    size: u64,
    raw: u64,
    add: bool,
    update: bool,
    invlpg_on_update: bool,
    write: bool,
    exec: bool,
    src: Option<spec_fn(u64) -> u8>,
)
    requires
        !is_canonical(bad),
        vaddr <= bad,
        bad - vaddr < size,
    ensures
        bad == vaddr ==> map_raw_model(m, root, vaddr, page, raw, add, update, invlpg_on_update) == (
            m,
            Err::<Flush, MemError>(MemError::InvalidArgument),
        ),
        span_pages(vaddr, page, size) is Err,
        map_init_model(m, root, vaddr, page, size, write, exec, src).0 == m,
        map_init_model(m, root, vaddr, page, size, write, exec, src).1 is Err,
{
}

/// Number of pages that the `size` bytes from `vaddr` on take, or why they
/// cannot be mapped.
pub fn check_span(vaddr: VirtAddr, page_type: PageSize, size: u64) -> (r: Result<u64, MemError>)
    ensures
        r == span_pages(vaddr.0, page_type, size),
{
    let page_size = page_type.bytes();
    let page_mask = page_size - 1;
    proof {
        let v = vaddr.0;
        assert(v & 0xfff == 0 <==> v % 4096 == 0) by (bit_vector);
        assert(v & 0x1f_ffff == 0 <==> v % 0x20_0000 == 0) by (bit_vector);
        assert(v & 0x3fff_ffff == 0 <==> v % 0x4000_0000 == 0) by (bit_vector);
    }
    // The address must be aligned to the page size.
    if size == 0 || (vaddr.0 & page_mask) != 0 {
        return Err(MemError::InvalidArgument);
    }
    // The last address of the mapping.
    let end_vaddr = match vaddr.0.checked_add(size - 1) {
        Some(end) => end,
        None => {
            return Err(MemError::AddressOverflow);
        },
    };
    // No address in between may fall into the hole of the address space.
    if canonicalize_address(vaddr.0) != vaddr.0 || canonicalize_address(end_vaddr) != end_vaddr || (
    vaddr.0 < 0x8000_0000_0000 && end_vaddr >= 0x8000_0000_0000) {
        proof {
            if is_canonical(vaddr.0) && is_canonical(end_vaddr) {
                assert(!is_canonical(0x8000_0000_0000u64));
            }
        }
        return Err(MemError::InvalidArgument);
    }
    Ok((size - 1) / page_size + 1)
}

/// Each page of a span that can be mapped starts inside the span, at a
/// multiple of the page size that is canonical.
proof fn lemma_page_in_span(vaddr: u64, page: PageSize, size: u64, k: u64)
    requires
        span_pages(vaddr, page, size) matches Ok(n) && k < n,
    ensures
        k * page.spec_bytes() <= size - 1,
        k * page.spec_bytes() + page.spec_bytes() - 1 <= u64::MAX,
        mappable((vaddr + k * page.spec_bytes()) as u64, page),
{
    assert(size <= 0x8000_0000_0000) by {
        assert(span_canonical(vaddr, (vaddr + (size - 1)) as u64));
        assert(is_canonical(vaddr));
        if vaddr < 0x8000_0000_0000 && vaddr + (size - 1) >= 0x8000_0000_0000 {
            assert(!is_canonical(0x8000_0000_0000u64));
        }
    }
    let p = page.spec_bytes() as int;
    let s = size - 1;
    vstd::arithmetic::div_mod::lemma_fundamental_div_mod(s, p);
    vstd::arithmetic::div_mod::lemma_mod_multiples_vanish(k as int, vaddr as int, p);
    assert(k * p <= (s / p) * p) by (nonlinear_arith)
        requires
            0 <= k <= s / p,
            p > 0,
    ;
    assert(p * (s / p) == (s / p) * p && p * k == k * p) by (nonlinear_arith);
    assert(0 <= s % p) by (nonlinear_arith)
        requires
            p > 0,
    ;
    assert(is_canonical((vaddr + k * p) as u64));
}

/// Fills the `len` bytes of the frame at `frame` from the byte source `f`: the
/// byte at distance `off` from the start of the frame becomes
/// `f(first + off)`.
fn fill_frame<F: Fn(u64) -> u8, P: PhysMem>(
    phys_mem: &mut P,
    frame: PhysAddr,
    len: u64,
    first: u64,
    f: &F,
) -> (r: Result<(), MemError>)
    requires
        old(phys_mem).inv(),
        forall|o: u64| call_requires(*f, (o,)),
        0 < len <= 0x4000_0000,
        first + len - 1 <= u64::MAX,
    ensures
        final(phys_mem).inv(),
        !old(phys_mem).model().reachable(frame.0, len as usize) ==> r == Err::<(), MemError>(
            MemError::AddressOverflow,
        ) && final(phys_mem).model() == old(phys_mem).model(),
        old(phys_mem).model().reachable(frame.0, len as usize) ==> r is Ok && forall|
            src: spec_fn(u64) -> u8,
        | #[trigger]
            returns_as(*f, src) ==> final(phys_mem).model() == old(phys_mem).model().fill(
                frame.0,
                len as int,
                shifted(src, first as int),
            ),
{
    let ghost m1 = phys_mem.model();
    if phys_mem.translate(frame, len as usize).is_err() {
        return Err(MemError::AddressOverflow);
    }
    let mut off: u64 = 0;
    proof {
        assert forall|src: spec_fn(u64) -> u8| #[trigger] returns_as(*f, src) implies m1 == m1.fill(
            frame.0,
            0,
            shifted(src, first as int),
        ) by {
            assert(m1.bytes =~= m1.fill(frame.0, 0, shifted(src, first as int)).bytes);
        }
    }
    while off < len
        invariant
            phys_mem.inv(),
            forall|o: u64| call_requires(*f, (o,)),
            off <= len,
            len <= 0x4000_0000,
            first + len - 1 <= u64::MAX,
            m1.reachable(frame.0, len as usize),
            forall|src: spec_fn(u64) -> u8| #[trigger]
                returns_as(*f, src) ==> phys_mem.model() == m1.fill(
                    frame.0,
                    off as int,
                    shifted(src, first as int),
                ),
        decreases len - off,
    {
        let ghost before = phys_mem.model();
        let at = first + off;
        let byte = f(at);
        let _ = phys_mem.write_u8(PhysAddr(frame.0 + off), byte);
        proof {
            assert forall|src: spec_fn(u64) -> u8| #[trigger]
                returns_as(*f, src) implies phys_mem.model() == m1.fill(
                frame.0,
                off + 1,
                shifted(src, first as int),
            ) by {
                assert(call_ensures(*f, (at,), byte));
                assert(byte == src(at));
                assert(before == m1.fill(frame.0, off as int, shifted(src, first as int)));
                assert(phys_mem.model().bytes =~= m1.fill(
                    frame.0,
                    off + 1,
                    shifted(src, first as int),
                ).bytes);
            }
        }
        off += 1;
    }
    Ok(())
}

/// A 64-bit x86 page table with four levels, known by the physical address of
/// its root table. The memory it lives in is lent to each call.
pub struct PageTable {
    table: PhysAddr,
}

impl PageTable {
    /// The physical address of the root table.
    pub closed spec fn root(&self) -> PhysAddr {
        self.table
    }

    /// Validity of a page table: its root is aligned to a frame.
    pub open spec fn wf(&self) -> bool {
        self.root().0 % 4096 == 0
    }

    /// A new, empty page table: one zeroed frame is allocated as its root.
    pub fn new<P: PhysMem>(phys_mem: &mut P) -> (r: Result<PageTable, MemError>)
        requires
            old(phys_mem).inv(),
        ensures
            final(phys_mem).inv(),
            final(phys_mem).model() == old(phys_mem).model().allocate_zeroed(FRAME_SIZE, FRAME_SIZE).0,
            match r {
                Ok(t) => t.wf() && old(phys_mem).model().allocate_zeroed(FRAME_SIZE, FRAME_SIZE).1
                    == Ok::<PhysAddr, MemError>(t.root()),
                Err(e) => old(phys_mem).model().allocate_zeroed(FRAME_SIZE, FRAME_SIZE).1 == Err::<
                    PhysAddr,
                    MemError,
                >(e),
            },
    {
        proof {
            lemma_allocated_aligned(old(phys_mem).model().free, FRAME_SIZE as u64, FRAME_SIZE as u64);
        }
        let table = phys_mem.alloc_phys_zeroed(FRAME_SIZE, FRAME_SIZE)?;
        Ok(PageTable { table })
    }

    /// A page table over the root that the control register value `cr3`
    /// names. Nothing is allocated.
    pub fn from_cr3<P: PhysMem>(phys_mem: &mut P, cr3: u64) -> (r: PageTable)
        ensures
            r.wf(),
            r.root().0 == cr3 - cr3 % 4096,
            *final(phys_mem) == *old(phys_mem),
    {
        assert(cr3 & !0xfffu64 == cr3 - cr3 % 4096 && (cr3 & !0xfffu64) % 4096 == 0)
            by (bit_vector);
        PageTable { table: PhysAddr(cr3 & !0xfff) }
    }

    /// The physical address of the root table.
    pub fn table(&self) -> (r: PhysAddr)
        ensures
            r == self.root(),
    {
        self.table
    }

    /// Writes the raw entry `raw` as the leaf entry of `vaddr` for pages of
    /// size `page_type`.
    ///
    /// * `add`: create the tables that are missing on the way
    /// * `update`: overwrite a leaf entry that is present
    /// * `invlpg_on_update`: ask for the translation to be invalidated where a
    ///   present entry was overwritten
    ///
    /// A failure does not undo the tables created before it.
    pub fn map_raw<P: PhysMem>(
        &mut self,
        phys_mem: &mut P,
        vaddr: VirtAddr,
        page_type: PageSize,
        raw: u64,
        add: bool,
        update: bool,
        invlpg_on_update: bool,
    ) -> (r: Result<Flush, MemError>)
        requires
            old(self).wf(),
            old(phys_mem).inv(),
        ensures
            final(self).root() == old(self).root(),
            final(phys_mem).inv(),
            (final(phys_mem).model(), r) == map_raw_model(
                old(phys_mem).model(),
                old(self).root().0,
                vaddr.0,
                page_type,
                raw,
                add,
                update,
                invlpg_on_update,
            ),
            !mappable(vaddr.0, page_type) ==> *final(phys_mem) == *old(phys_mem),
    {
        let page_size = page_type.bytes();
        let page_mask = page_size - 1;
        proof {
            let v = vaddr.0;
            assert(v & 0xfff == 0 <==> v % 4096 == 0) by (bit_vector);
            assert(v & 0x1f_ffff == 0 <==> v % 0x20_0000 == 0) by (bit_vector);
            assert(v & 0x3fff_ffff == 0 <==> v % 0x4000_0000 == 0) by (bit_vector);
        }
        if (vaddr.0 & page_mask) != 0 || canonicalize_address(vaddr.0) != vaddr.0 {
            return Err(MemError::InvalidArgument);
        }
        // The index into the table of each level on the way to the entry.
        let mut indices: [u64; 4] = [0; 4];
        let levels: usize = match page_type {
            PageSize::Page4K => {
                indices[0] = (vaddr.0 >> 39) & 0x1ff;
                indices[1] = (vaddr.0 >> 30) & 0x1ff;
                indices[2] = (vaddr.0 >> 21) & 0x1ff;
                indices[3] = (vaddr.0 >> 12) & 0x1ff;
                4
            },
            PageSize::Page2M => {
                indices[0] = (vaddr.0 >> 39) & 0x1ff;
                indices[1] = (vaddr.0 >> 30) & 0x1ff;
                indices[2] = (vaddr.0 >> 21) & 0x1ff;
                3
            },
            PageSize::Page1G => {
                indices[0] = (vaddr.0 >> 39) & 0x1ff;
                indices[1] = (vaddr.0 >> 30) & 0x1ff;
                2
            },
        };
        let ghost goal = map_raw_model(
            old(phys_mem).model(),
            self.table.0,
            vaddr.0,
            page_type,
            raw,
            add,
            update,
            invlpg_on_update,
        );
        let mut table = self.table;
        let mut depth: usize = 0;
        loop
            invariant
                phys_mem.inv(),
                self.root() == old(self).root(),
                mappable(vaddr.0, page_type),
                goal == map_raw_model(
                    old(phys_mem).model(),
                    old(self).root().0,
                    vaddr.0,
                    page_type,
                    raw,
                    add,
                    update,
                    invlpg_on_update,
                ),
                levels == page_type.spec_levels(),
                depth < levels,
                table.0 <= 0xffff_ffff_ffff_f000,
                forall|l: int| 0 <= l < levels ==> indices@[l] == index_at(vaddr.0, l),
                walk(
                    phys_mem.model(),
                    table.0,
                    depth as int,
                    levels as int,
                    vaddr.0,
                    raw,
                    add,
                    update,
                    invlpg_on_update,
                ) == goal,
            decreases levels - depth,
        {
            let index = indices[depth];
            proof {
                let v = vaddr.0;
                assert((v >> 39) & 0x1ff <= 0x1ff && (v >> 30) & 0x1ff <= 0x1ff && (v >> 21) & 0x1ff
                    <= 0x1ff && (v >> 12) & 0x1ff <= 0x1ff) by (bit_vector);
            }
            // The physical address of the entry.
            let ptp = PhysAddr(table.0 + index * 8);
            let mut ent = match phys_mem.read_u64(ptp) {
                Ok(ent) => ent,
                Err(e) => {
                    return Err(e);
                },
            };
            let present = (ent & PAGE_PRESENT) != 0;
            if depth == levels - 1 {
                // The last level: this is the entry to write.
                if present && !update {
                    return Err(MemError::AlreadyMapped);
                }
                let _ = phys_mem.write_u64(ptp, raw);
                if present && invlpg_on_update && usize::BITS == 64 {
                    return Ok(Flush::Page(vaddr));
                }
                return Ok(Flush::Nothing);
            }
            if !present {
                // A table is missing on the way.
                if !add {
                    return Err(MemError::NotMapped);
                }
                let new_table = match phys_mem.alloc_phys_zeroed(FRAME_SIZE, FRAME_SIZE) {
                    Ok(t) => t,
                    Err(e) => {
                        return Err(e);
                    },
                };
                ent = new_table.0 | PAGE_USER | PAGE_WRITE | PAGE_PRESENT;
                let _ = phys_mem.write_u64(ptp, ent);
            }
            proof {
                assert(ent & 0xf_ffff_ffff_f000 <= 0xffff_ffff_ffff_f000) by (bit_vector);
            }
            table = PhysAddr(ent & PAGE_FRAME);
            depth += 1;
        }
    }

    /// Maps the `size` bytes from `vaddr` on with pages of size `page_type`,
    /// each onto a frame allocated for it. Every page can be read; `write` and
    /// `exec` say what else it allows.
    ///
    /// Where there is a byte source `init`, each frame is filled from it
    /// before it is mapped: the byte at distance `off` from `vaddr` becomes
    /// `init(off)`.
    ///
    /// Nothing is allocated unless the whole span can be mapped. A later
    /// failure does not undo the pages mapped before it.
    pub fn map_init<F: Fn(u64) -> u8, P: PhysMem>(
        &mut self,
        phys_mem: &mut P,
        vaddr: VirtAddr,
        page_type: PageSize,
        size: u64,
        _read: bool,
        write: bool,
        exec: bool,
        init: Option<F>,
    ) -> (r: Result<(), MemError>)
        requires
            old(self).wf(),
            old(phys_mem).inv(),
            init matches Some(f) ==> forall|o: u64| call_requires(f, (o,)),
        ensures
            final(self).root() == old(self).root(),
            final(phys_mem).inv(),
            forall|src: spec_fn(u64) -> u8| #[trigger]
                follows(init, src) ==> (final(phys_mem).model(), r) == map_init_model(
                    old(phys_mem).model(),
                    old(self).root().0,
                    vaddr.0,
                    page_type,
                    size,
                    write,
                    exec,
                    source_of(init, src),
                ),
            span_pages(vaddr.0, page_type, size) matches Err(e) ==> r == Err::<(), MemError>(e)
                && *final(phys_mem) == *old(phys_mem),
    {
        let pages = check_span(vaddr, page_type, size)?;
        let mut k: u64 = 0;
        while k < pages
            invariant
                phys_mem.inv(),
                self.wf(),
                self.root() == old(self).root(),
                init matches Some(f) ==> forall|o: u64| call_requires(f, (o,)),
                span_pages(vaddr.0, page_type, size) == Ok::<u64, MemError>(pages),
                k <= pages,
                forall|src: spec_fn(u64) -> u8| #[trigger]
                    follows(init, src) ==> map_pages(
                        phys_mem.model(),
                        self.root().0,
                        vaddr.0,
                        page_type,
                        write,
                        exec,
                        source_of(init, src),
                        k as int,
                        pages as int,
                    ) == map_init_model(
                        old(phys_mem).model(),
                        old(self).root().0,
                        vaddr.0,
                        page_type,
                        size,
                        write,
                        exec,
                        source_of(init, src),
                    ),
            decreases pages - k,
        {
            self.map_page(phys_mem, vaddr, page_type, size, k, write, exec, &init)?;
            k += 1;
        }
        Ok(())
    }

    /// Maps the `size` bytes from `vaddr` on with pages of size `page_type`,
    /// each onto a frame allocated for it. Every page can be read; `write` and
    /// `exec` say what else it allows. What the frames hold stays as it is.
    ///
    /// Nothing is allocated unless the whole span can be mapped. A later
    /// failure does not undo the pages mapped before it.
    pub fn map<P: PhysMem>(
        &mut self,
        phys_mem: &mut P,
        vaddr: VirtAddr,
        page_type: PageSize,
        size: u64,
        _read: bool,
        write: bool,
        exec: bool,
    ) -> (r: Result<(), MemError>)
        requires
            old(self).wf(),
            old(phys_mem).inv(),
        ensures
            final(self).root() == old(self).root(),
            final(phys_mem).inv(),
            (final(phys_mem).model(), r) == map_init_model(
                old(phys_mem).model(),
                old(self).root().0,
                vaddr.0,
                page_type,
                size,
                write,
                exec,
                None,
            ),
            span_pages(vaddr.0, page_type, size) matches Err(e) ==> r == Err::<(), MemError>(e)
                && *final(phys_mem) == *old(phys_mem),
    {
        let pages = check_span(vaddr, page_type, size)?;
        let page_size = page_type.bytes();
        let mut k: u64 = 0;
        while k < pages
            invariant
                phys_mem.inv(),
                self.wf(),
                self.root() == old(self).root(),
                page_size == page_type.spec_bytes(),
                span_pages(vaddr.0, page_type, size) == Ok::<u64, MemError>(pages),
                k <= pages,
                map_pages(
                    phys_mem.model(),
                    self.root().0,
                    vaddr.0,
                    page_type,
                    write,
                    exec,
                    None,
                    k as int,
                    pages as int,
                ) == map_init_model(
                    old(phys_mem).model(),
                    old(self).root().0,
                    vaddr.0,
                    page_type,
                    size,
                    write,
                    exec,
                    None,
                ),
            decreases pages - k,
        {
            proof {
                lemma_page_in_span(vaddr.0, page_type, size, k);
            }
            let page = phys_mem.alloc_phys(page_size as usize, page_size as usize)?;
            self.map_frame(phys_mem, VirtAddr(vaddr.0 + k * page_size), page_type, page, write, exec)?;
            k += 1;
        }
        Ok(())
    }

    /// Allocates the frame for page `k` of a span, fills it from the byte
    /// source where there is one, and maps it.
    fn map_page<F: Fn(u64) -> u8, P: PhysMem>(
        &mut self,
        phys_mem: &mut P,
        vaddr: VirtAddr,
        page_type: PageSize,
        size: u64,
        k: u64,
        write: bool,
        exec: bool,
        init: &Option<F>,
    ) -> (r: Result<(), MemError>)
        requires
            old(self).wf(),
            old(phys_mem).inv(),
            *init matches Some(f) ==> forall|o: u64| call_requires(f, (o,)),
            span_pages(vaddr.0, page_type, size) matches Ok(n) && k < n,
        ensures
            final(self).wf(),
            final(self).root() == old(self).root(),
            final(phys_mem).inv(),
            forall|src: spec_fn(u64) -> u8| #[trigger]
                follows(*init, src) ==> (final(phys_mem).model(), r) == page_step(
                    old(phys_mem).model(),
                    old(self).root().0,
                    vaddr.0,
                    page_type,
                    write,
                    exec,
                    source_of(*init, src),
                    k as int,
                ),
    {
        proof {
            lemma_page_in_span(vaddr.0, page_type, size, k);
        }
        let page_size = page_type.bytes();
        // Allocate the page.
        let page = phys_mem.alloc_phys(page_size as usize, page_size as usize)?;
        let ghost m1 = phys_mem.model();
        if let Some(f) = init {
            fill_frame(phys_mem, page, page_size, k * page_size, f)?;
        }
        let ghost m2 = phys_mem.model();
        // Add this mapping to the page table.
        let r = self.map_frame(
            phys_mem,
            VirtAddr(vaddr.0 + k * page_size),
            page_type,
            page,
            write,
            exec,
        );
        proof {
            assert forall|src: spec_fn(u64) -> u8| #[trigger] follows(*init, src) implies (
                phys_mem.model(),
                r,
            ) == page_step(
                old(phys_mem).model(),
                old(self).root().0,
                vaddr.0,
                page_type,
                write,
                exec,
                source_of(*init, src),
                k as int,
            ) by {
                let filled = match source_of(*init, src) {
                    None => m1,
                    Some(g) => m1.fill(page.0, page_size as int, shifted(g, k * page_size)),
                };
                assert(m2 == filled);
            }
        }
        r
    }

    /// Installs the leaf entry that maps the page at `vaddr` onto `frame`,
    /// creating the tables that are missing on the way. An entry that is
    /// present is left alone.
    fn map_frame<P: PhysMem>(
        &mut self,
        phys_mem: &mut P,
        vaddr: VirtAddr,
        page_type: PageSize,
        frame: PhysAddr,
        write: bool,
        exec: bool,
    ) -> (r: Result<(), MemError>)
        requires
            old(self).wf(),
            old(phys_mem).inv(),
        ensures
            final(self).wf(),
            final(self).root() == old(self).root(),
            final(phys_mem).inv(),
            final(phys_mem).model() == map_raw_model(
                old(phys_mem).model(),
                old(self).root().0,
                vaddr.0,
                page_type,
                leaf_entry(frame.0, write, exec),
                true,
                false,
                false,
            ).0,
            r == match map_raw_model(
                old(phys_mem).model(),
                old(self).root().0,
                vaddr.0,
                page_type,
                leaf_entry(frame.0, write, exec),
                true,
                false,
                false,
            ).1 {
                Ok(_) => Ok::<(), MemError>(()),
                Err(e) => Err::<(), MemError>(e),
            },
    {
        let ent = frame.0 | PAGE_PRESENT | (if write {
            PAGE_WRITE
        } else {
            0
        }) | (if exec {
            0
        } else {
            PAGE_NX
        });
        match self.map_raw(phys_mem, vaddr, page_type, ent, true, false, false) {
            Ok(_) => Ok(()),
            Err(e) => Err(e),
        }
    }
}

} // verus!

//! What the loader builds before it enters the kernel: the identity map, the
//! mappings of the kernel's sections, and the stacks of the cores.

use vstd::prelude::*;
use crate::error::MemError;
use crate::page_table::{
    follows, map_init_model, map_raw_model, returns_as, PageSize, PageTable, VirtAddr,
};
use crate::parse_pe::{section_model, PeHeader, PeParser};
use crate::phys_mem::{Memory, PhysMem};

verus! {

/// Size of the stack that each core gets.
pub const KERNEL_STACK_SIZE: u64 = 32 * 1024;

/// Size of the unmapped gap between the stacks of two cores.
pub const KERNEL_STACK_PAD: u64 = 32 * 1024;

/// Size of the identity map that the loader builds before it turns paging on.
pub const IDENTITY_MAP_SIZE: u64 = 4 * 1024 * 1024 * 1024;

/// The entry that maps a page onto the frame at the same address: present and
/// writable.
pub open spec fn identity_entry(paddr: u64) -> u64 {
    paddr | 3
}

/// What `identity_map` does from its page `k` on, of `n` pages in all, and
/// what it returns: it goes from page to page and stops at the first failure.
pub open spec fn identity_model(m: Memory, root: u64, k: int, n: int) -> (
    Memory,
    Result<(), MemError>,
)
    decreases n - k,
{
    if k >= n {
        (m, Ok(()))
    } else {
        let paddr = (k * 4096) as u64;
        let (m1, r) = map_raw_model(
            m,
            root,
            paddr,
            PageSize::Page4K,
            identity_entry(paddr),
            true,
            false,
            false,
        );
        match r {
            Err(e) => (m1, Err(e)),
            Ok(_) => identity_model(m1, root, k + 1, n),
        }
    }
}

/// Number of 4 KiB pages that `size` bytes take.
pub open spec fn pages_of(size: u64) -> int {
    (size + 4095) / 4096
}

/// Maps the first `size` bytes of the address space onto themselves, page by
/// page, so that the code that turns paging on keeps running. A page that is
/// mapped already is a failure.
pub fn identity_map<P: PhysMem>(table: &mut PageTable, phys_mem: &mut P, size: u64) -> (r: Result<
    (),
    MemError,
>)
    requires
        old(table).wf(),
        old(phys_mem).inv(),
    ensures
        final(table).wf(),
        final(table).root() == old(table).root(),
        final(phys_mem).inv(),
        (final(phys_mem).model(), r) == identity_model(
            old(phys_mem).model(),
            old(table).root().0,
            0,
            pages_of(size),
        ),
{
    let mut paddr: u64 = 0;
    let ghost mut k: int = 0;
    while paddr < size
        invariant
            table.wf(),
            table.root() == old(table).root(),
            phys_mem.inv(),
            0 <= k <= pages_of(size),
            paddr == k * 4096 || (paddr == u64::MAX && k == pages_of(size)),
            paddr < size ==> k < pages_of(size),
            identity_model(phys_mem.model(), table.root().0, k, pages_of(size)) == identity_model(
                old(phys_mem).model(),
                old(table).root().0,
                0,
                pages_of(size),
            ),
        decreases pages_of(size) - k,
    {
        match table.map_raw(phys_mem, VirtAddr(paddr), PageSize::Page4K, paddr | 3, true, false, false) {
            Ok(_) => {},
            Err(e) => {
                return Err(e);
            },
        }
        proof {
            k = k + 1;
        }
        paddr = match paddr.checked_add(4096) {
            Some(next) => next,
            None => u64::MAX,
        };
    }
    Ok(())
}

/// The bytes of a section as a byte source: the raw bytes first, zero behind
/// them.
pub open spec fn section_source(raw: Seq<u8>) -> spec_fn(u64) -> u8 {
    |off: u64|
        if off < raw.len() {
            raw[off as int]
        } else {
            0u8
        }
}

/// Maps the `vsize` bytes of a section at `vaddr` with 4 KiB pages that allow
/// everything, and fills them with the raw bytes `raw` of the section and with
/// zero where the raw bytes end.
pub fn load_section<P: PhysMem>(
    table: &mut PageTable,
    phys_mem: &mut P,
    vaddr: u64,
    vsize: u32,
    raw: &[u8],
) -> (r: Result<(), MemError>)
    requires
        old(table).wf(),
        old(phys_mem).inv(),
    ensures
        final(table).wf(),
        final(table).root() == old(table).root(),
        final(phys_mem).inv(),
        (final(phys_mem).model(), r) == map_init_model(
            old(phys_mem).model(),
            old(table).root().0,
            vaddr,
            PageSize::Page4K,
            vsize as u64,
            true,
            true,
            Some(section_source(raw@)),
        ),
{
    let source = |off: u64| -> (b: u8)
        ensures
            b == section_source(raw@)(off),
        {
            if off < raw.len() as u64 {
                raw[off as usize]
            } else {
                0
            }
        };
    let init = Some(source);
    let r = table.map_init(
        phys_mem,
        VirtAddr(vaddr),
        PageSize::Page4K,
        vsize as u64,
        true,
        true,
        true,
        init,
    );
    proof {
        assert(returns_as(source, section_source(raw@)));
        assert(follows(init, section_source(raw@)));
    }
    r
}

/// What `load_image` does from entry `k` of the section table on, and what
/// it returns: it goes from section to section and stops at the first that is
/// not sound or cannot be mapped.
pub open spec fn load_model(m: Memory, root: u64, file: Seq<u8>, h: PeHeader, k: int) -> (
    Memory,
    Result<(), MemError>,
)
    decreases h.num_sections - k,
{
    if k >= h.num_sections {
        (m, Ok(()))
    } else {
        match section_model(file, h, k) {
            None => (m, Err(MemError::InvalidArgument)),
            Some(section) => {
                let raw = file.subrange(section.raw_off as int, section.raw_off + section.raw_len);
                let (m1, r) = map_init_model(
                    m,
                    root,
                    section.vaddr,
                    PageSize::Page4K,
                    section.vsize as u64,
                    true,
                    true,
                    Some(section_source(raw)),
                );
                match r {
                    Err(e) => (m1, Err(e)),
                    Ok(_) => load_model(m1, root, file, h, k + 1),
                }
            },
        }
    }
}

/// Loads the sections of the image `pe`, in the order of its section table,
/// and returns its entry point. A section that is not sound ends the loading;
/// the sections before it stay mapped.
pub fn load_image<P: PhysMem>(table: &mut PageTable, phys_mem: &mut P, pe: &PeParser) -> (r: Result<
    u64,
    MemError,
>)
    requires
        old(table).wf(),
        old(phys_mem).inv(),
        pe.wf(),
    ensures
        final(table).wf(),
        final(table).root() == old(table).root(),
        final(phys_mem).inv(),
        final(phys_mem).model() == load_model(
            old(phys_mem).model(),
            old(table).root().0,
            pe.file(),
            pe.header(),
            0,
        ).0,
        r == match load_model(
            old(phys_mem).model(),
            old(table).root().0,
            pe.file(),
            pe.header(),
            0,
        ).1 {
            Ok(_) => Ok::<u64, MemError>(pe.header().entry_point),
            Err(e) => Err::<u64, MemError>(e),
        },
{
    let mut k: usize = 0;
    while k < pe.num_sections()
        invariant
            table.wf(),
            table.root() == old(table).root(),
            phys_mem.inv(),
            pe.wf(),
            k <= pe.header().num_sections,
            load_model(phys_mem.model(), table.root().0, pe.file(), pe.header(), k as int)
                == load_model(old(phys_mem).model(), old(table).root().0, pe.file(), pe.header(), 0),
        decreases pe.header().num_sections - k,
    {
        let section = match pe.section(k) {
            Some(section) => section,
            None => {
                return Err(MemError::InvalidArgument);
            },
        };
        // Map the section and fill it with its raw bytes, and with zero
        // where the file holds no bytes for it.
        match load_section(table, phys_mem, section.vaddr, section.vsize, pe.raw(&section)) {
            Ok(_) => {},
            Err(e) => {
                return Err(e);
            },
        }
        k += 1;
    }
    Ok(pe.entry_point())
}

/// Maps the stack of one core at `stack_addr`: readable and writable, not
/// executable. Returns where the stack starts to grow down from, the address
/// behind its last byte.
pub fn map_stack<P: PhysMem>(table: &mut PageTable, phys_mem: &mut P, stack_addr: u64) -> (r: Result<
    u64,
    MemError,
>)
    requires
        old(table).wf(),
        old(phys_mem).inv(),
    ensures
        final(table).wf(),
        final(table).root() == old(table).root(),
        final(phys_mem).inv(),
        (final(phys_mem).model(), r) == if stack_addr + KERNEL_STACK_SIZE > u64::MAX {
            (old(phys_mem).model(), Err::<u64, MemError>(MemError::AddressOverflow))
        } else {
            let (m, mapped) = map_init_model(
                old(phys_mem).model(),
                old(table).root().0,
                stack_addr,
                PageSize::Page4K,
                KERNEL_STACK_SIZE,
                true,
                false,
                None,
            );
            (
                m,
                match mapped {
                    Ok(_) => Ok::<u64, MemError>((stack_addr + KERNEL_STACK_SIZE) as u64),
                    Err(e) => Err::<u64, MemError>(e),
                },
            )
        },
{
    let top = match stack_addr.checked_add(KERNEL_STACK_SIZE) {
        Some(top) => top,
        None => {
            return Err(MemError::AddressOverflow);
        },
    };
    match table.map(phys_mem, VirtAddr(stack_addr), PageSize::Page4K, KERNEL_STACK_SIZE, true, true, false) {
        Ok(_) => Ok(top),
        Err(e) => Err(e),
    }
}

/// The stack address for the core after the one whose stack is at
/// `stack_addr`: one stack and one gap further up.
pub fn next_stack(stack_addr: u64) -> (r: Option<u64>)
    ensures
        r == if stack_addr + KERNEL_STACK_SIZE + KERNEL_STACK_PAD > u64::MAX {
            None
        } else {
            Some((stack_addr + KERNEL_STACK_SIZE + KERNEL_STACK_PAD) as u64)
        },
{
    stack_addr.checked_add(KERNEL_STACK_SIZE + KERNEL_STACK_PAD)
}

} // verus!

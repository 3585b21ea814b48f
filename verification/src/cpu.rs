//! Canonical addresses.

use vstd::prelude::*;

verus! {

/// The canonical address with the low 48 bits of `addr`: bit 47 is copied
/// into the 16 bits above it.
pub open spec fn spec_canonicalize(addr: u64) -> u64 {
    let low = addr % 0x1_0000_0000_0000;
    if low >= 0x8000_0000_0000 {
        (low + 0xffff_0000_0000_0000) as u64
    } else {
        low
    }
}

/// An address is canonical when its 16 high bits equal bit 47: it lies in the
/// low half or in the high half of the address space, not in the hole
/// between them.
pub open spec fn is_canonical(addr: u64) -> bool {
    addr < 0x8000_0000_0000 || addr >= 0xffff_8000_0000_0000
}

/// Canonicalizes an address: only 48 bits of an x86-64 virtual address are
/// implemented, and the processor wants the rest to repeat the highest of
/// them.
pub fn canonicalize_address(addr: u64) -> (r: u64)
    ensures
        r == spec_canonicalize(addr),
        is_canonical(r),
        r == addr <==> is_canonical(addr),
{
    assert(addr & 0x8000_0000_0000 != 0 ==> addr | 0xffff_0000_0000_0000 == (addr
        % 0x1_0000_0000_0000) + 0xffff_0000_0000_0000 && addr % 0x1_0000_0000_0000
        >= 0x8000_0000_0000) by (bit_vector);
    assert(addr & 0x8000_0000_0000 == 0 ==> addr & 0xffff_ffff_ffff == addr % 0x1_0000_0000_0000
        && addr % 0x1_0000_0000_0000 < 0x8000_0000_0000) by (bit_vector);
    if addr & 0x8000_0000_0000 != 0 {
        addr | 0xffff_0000_0000_0000
    } else {
        addr & 0xffff_ffff_ffff
    }
}

} // verus!

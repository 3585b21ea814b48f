//! Physical memory: how specifications see it, and the interface through
//! which the page tables reach it.

use vstd::prelude::*;
use vstd::bytes::{spec_u64_from_le_bytes, spec_u64_to_le_bytes};
use crate::error::MemError;
use crate::rangeset::Range;
use crate::rangeset_model::allocated;

verus! {

/// A physical address. It is a plain number, kept apart from virtual
/// addresses by its type.
#[derive(Clone, Copy, Debug, PartialEq, Eq, Structural)]
pub struct PhysAddr(pub u64);

/// Size and alignment of a page-table frame.
pub const FRAME_SIZE: usize = 4096;

/// What physical memory looks like to a specification: the free ranges, in
/// the storage order of the allocator, and the bytes that can be reached.
pub struct Memory {
    pub free: Seq<Range>,
    pub bytes: Map<int, u8>,
}

impl Memory {
    /// There are `size` bytes from `paddr` on, none beyond the last address,
    /// and all of them can be reached.
    pub open spec fn reachable(self, paddr: u64, size: usize) -> bool {
        &&& size > 0
        &&& paddr + size - 1 <= u64::MAX
        &&& forall|x: int| paddr <= x < paddr + size ==> self.bytes.dom().contains(x)
    }

    /// The 64-bit little-endian word at `paddr`.
    pub open spec fn word(self, paddr: u64) -> u64 {
        spec_u64_from_le_bytes(Seq::new(8, |k: int| self.bytes[paddr + k]))
    }

    /// The memory with the byte at `paddr` set to `value`.
    pub open spec fn store_byte(self, paddr: u64, value: u8) -> Memory {
        Memory { free: self.free, bytes: self.bytes.insert(paddr as int, value) }
    }

    /// The memory with the `len` bytes from `paddr` on taken from `src`, which
    /// is asked for each byte by its distance from `paddr`.
    pub open spec fn fill(self, paddr: u64, len: int, src: spec_fn(int) -> u8) -> Memory {
        Memory {
            free: self.free,
            bytes: Map::new(
                |x: int| self.bytes.dom().contains(x),
                |x: int|
                    if paddr <= x < paddr + len {
                        src(x - paddr)
                    } else {
                        self.bytes[x]
                    },
            ),
        }
    }

    /// The memory with the 64-bit little-endian word at `paddr` set to
    /// `value`.
    pub open spec fn store_word(self, paddr: u64, value: u64) -> Memory {
        self.fill(paddr, 8, |k: int| spec_u64_to_le_bytes(value)[k])
    }

    /// The memory with the `len` bytes from `paddr` on set to zero.
    pub open spec fn zero(self, paddr: u64, len: int) -> Memory {
        self.fill(paddr, len, |k: int| 0u8)
    }

    /// What an allocation of `size` bytes aligned to `align` leaves, and what
    /// it returns. The bytes stay as they are.
    pub open spec fn allocate(self, size: usize, align: usize) -> (Memory, Result<PhysAddr, MemError>) {
        let (free, r) = allocated(self.free, size as u64, align as u64);
        (
            Memory { free, bytes: self.bytes },
            match r {
                Ok(a) => Ok(PhysAddr(a as u64)),
                Err(e) => Err(e),
            },
        )
    }

    /// What an allocation of zeroed memory leaves, and what it returns. Where
    /// the allocated range cannot be reached, the range is lost to the
    /// allocator and the bytes stay as they are.
    pub open spec fn allocate_zeroed(self, size: usize, align: usize) -> (
        Memory,
        Result<PhysAddr, MemError>,
    ) {
        let (m, r) = self.allocate(size, align);
        match r {
            Ok(a) => if m.reachable(a.0, size) {
                (m.zero(a.0, size as int), Ok(a))
            } else {
                (m, Err(MemError::AddressOverflow))
            },
            Err(e) => (m, Err(e)),
        }
    }
}

/// A word that was stored is the word that is read, and storing it leaves
/// every word that shares no byte with it as it was.
pub proof fn lemma_store_then_word(m: Memory, paddr: u64, value: u64, other: u64)
    requires
        m.reachable(paddr, 8),
    ensures
        m.store_word(paddr, value).word(paddr) == value,
        m.reachable(other, 8) && (other + 8 <= paddr || paddr + 8 <= other) ==> m.store_word(
            paddr,
            value,
        ).word(other) == m.word(other),
        forall|p: u64, size: usize|
            m.store_word(paddr, value).reachable(p, size) == m.reachable(p, size),
{
    let after = m.store_word(paddr, value);
    vstd::bytes::lemma_auto_spec_u64_to_from_le_bytes();
    assert(Seq::new(8, |k: int| after.bytes[paddr + k]) =~= spec_u64_to_le_bytes(value));
    if m.reachable(other, 8) && (other + 8 <= paddr || paddr + 8 <= other) {
        assert(Seq::new(8, |k: int| after.bytes[other + k]) =~= Seq::new(
            8,
            |k: int| m.bytes[other + k],
        ));
    }
    assert(after.bytes.dom() =~= m.bytes.dom());
}

/// Access to physical memory: reading and writing it, and allocating from
/// it. The page tables are built through this interface, so that they can
/// live in real memory or in a stand-in.
///
/// A backend states what it holds as a `Memory`, and its methods are held to
/// what they do to it. A backend that touches real memory lives outside the
/// verified code and can state nothing: it keeps the defaults below, by which
/// it is never valid, so that nothing is claimed of it. That it does to the
/// real memory what the contracts say is then a matter of its own care.
pub trait PhysMem: Sized {
    /// The memory as specifications see it.
    open spec fn model(&self) -> Memory {
        arbitrary()
    }

    /// Validity of the backend.
    open spec fn inv(&self) -> bool {
        false
    }

    /// Where the byte at `paddr` can be accessed: at its own address, unless
    /// the backend says otherwise.
    open spec fn place(&self, paddr: u64) -> usize {
        paddr as usize
    }

    /// The address at which the `size` bytes from `paddr` on can be
    /// accessed. Fails for no bytes at all and for a range that cannot be
    /// reached.
    fn translate(&mut self, paddr: PhysAddr, size: usize) -> (r: Result<usize, MemError>)
        requires
            old(self).inv(),
        ensures
            final(self).inv(),
            final(self).model() == old(self).model(),
            r == if old(self).model().reachable(paddr.0, size) {
                Ok::<usize, MemError>(old(self).place(paddr.0))
            } else if size == 0 {
                Err::<usize, MemError>(MemError::InvalidArgument)
            } else {
                Err::<usize, MemError>(MemError::AddressOverflow)
            },
    ;

    /// Allocates `size` bytes of physical memory at a multiple of `align`.
    fn alloc_phys(&mut self, size: usize, align: usize) -> (r: Result<PhysAddr, MemError>)
        requires
            old(self).inv(),
        ensures
            final(self).inv(),
            (final(self).model(), r) == old(self).model().allocate(size, align),
    ;

    /// Reads the 64-bit little-endian word at `paddr`.
    fn read_u64(&mut self, paddr: PhysAddr) -> (r: Result<u64, MemError>)
        requires
            old(self).inv(),
        ensures
            final(self).inv(),
            final(self).model() == old(self).model(),
            r == if old(self).model().reachable(paddr.0, 8) {
                Ok::<u64, MemError>(old(self).model().word(paddr.0))
            } else {
                Err::<u64, MemError>(MemError::AddressOverflow)
            },
    ;

    /// Writes the 64-bit little-endian word `value` at `paddr`.
    fn write_u64(&mut self, paddr: PhysAddr, value: u64) -> (r: Result<(), MemError>)
        requires
            old(self).inv(),
        ensures
            final(self).inv(),
            (final(self).model(), r) == if old(self).model().reachable(paddr.0, 8) {
                (old(self).model().store_word(paddr.0, value), Ok::<(), MemError>(()))
            } else {
                (old(self).model(), Err::<(), MemError>(MemError::AddressOverflow))
            },
    ;

    /// Writes the byte `value` at `paddr`.
    fn write_u8(&mut self, paddr: PhysAddr, value: u8) -> (r: Result<(), MemError>)
        requires
            old(self).inv(),
        ensures
            final(self).inv(),
            (final(self).model(), r) == if old(self).model().reachable(paddr.0, 1) {
                (old(self).model().store_byte(paddr.0, value), Ok::<(), MemError>(()))
            } else {
                (old(self).model(), Err::<(), MemError>(MemError::AddressOverflow))
            },
    ;

    /// Allocates as `alloc_phys` does and sets the allocated bytes to zero.
    fn alloc_phys_zeroed(&mut self, size: usize, align: usize) -> (r: Result<PhysAddr, MemError>)
        requires
            old(self).inv(),
        ensures
            final(self).inv(),
            (final(self).model(), r) == old(self).model().allocate_zeroed(size, align),
    {
        let alc = self.alloc_phys(size, align)?;
        let ghost m = self.model();
        if self.translate(alc, size).is_err() {
            return Err(MemError::AddressOverflow);
        }
        let mut off: usize = 0;
        proof {
            assert(m.zero(alc.0, 0).bytes =~= m.bytes);
        }
        while off < size
            invariant
                self.inv(),
                off <= size,
                m.reachable(alc.0, size),
                self.model() == m.zero(alc.0, off as int),
            decreases size - off,
        {
            proof {
                assert(m.bytes.dom().contains(alc.0 + off));
            }
            let at = PhysAddr(alc.0 + off as u64);
            let _ = self.write_u8(at, 0);
            proof {
                assert(self.model().bytes =~= m.zero(alc.0, off + 1).bytes);
            }
            off += 1;
        }
        Ok(alc)
    }
}

} // verus!

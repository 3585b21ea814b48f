//! The errors of the memory subsystem.

use vstd::prelude::*;

verus! {

/// Why a memory operation was refused.
#[derive(Clone, Copy, Debug, PartialEq, Eq, Structural)]
pub enum MemError {
    /// The fixed storage of a range set is full.
    CapacityExceeded,
    /// A zero size, an alignment that is no power of two, or a virtual
    /// address that is misaligned or not canonical.
    InvalidArgument,
    /// Address arithmetic left the integer width, or the range cannot be
    /// addressed.
    AddressOverflow,
    /// No free region is large enough.
    OutOfMemory,
    /// The leaf entry is present and overwriting was not allowed.
    AlreadyMapped,
    /// An intermediate table is absent and creating it was not allowed.
    NotMapped,
}

} // verus!

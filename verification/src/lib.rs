//! Physical memory and page tables for a two-stage x86 boot: a set of free
//! ranges in fixed storage, access to physical memory, 4-level page tables,
//! and what the loader builds from them. All of it is verified; what touches
//! the machine is left to the caller.

pub mod boot;
pub mod cpu;
pub mod error;
pub mod flatten;
pub mod mm;
pub mod page_table;
pub mod page_table_laws;
pub mod parse_pe;
pub mod phys_mem;
pub mod pxe;
pub mod rangeset;
pub mod rangeset_laws;
pub mod rangeset_model;
mod rangeset_proofs;
pub mod serial;

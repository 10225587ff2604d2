//! Address-translation core of a bare-metal RISC-V kernel, modelled and
//! verified: a three-level page table built over owned frames, a page-table
//! entry codec, an identity mapper for the kernel image, a loader that maps
//! an ELF image into a fresh user address space, and the encoding of the
//! paging-control register value that activates a table.

pub mod addr;
pub mod cell;
pub mod config;
pub mod elf;
pub mod frame;
pub mod kernel_space;
pub mod pte;
pub mod sbi;
pub mod table;

use vstd::prelude::*;

verus! {

/// A virtual byte address, interpreted through its low 39 bits.
pub struct VirtualAddress {
    pub address: u64,
}

} // verus!

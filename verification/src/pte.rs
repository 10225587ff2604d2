//! The page-table-entry codec: a frame number and eight permission/status
//! flags packed into one 64-bit entry word, with its decode functions and
//! the proof that decoding inverts encoding.

use vstd::prelude::*;
use crate::addr::PhysicalAddress;
use crate::config::PA_LIMIT;

verus! {

/// Entry is present; an entry without this bit denotes "not mapped" and its
/// other bits carry no meaning.
pub const PTE_V: u8 = 1;

/// Page may be read.
pub const PTE_R: u8 = 2;

/// Page may be written.
pub const PTE_W: u8 = 4;

/// Page may be executed.
pub const PTE_X: u8 = 8;

/// Page is accessible to unprivileged code.
pub const PTE_U: u8 = 16;

/// Mapping is global.
pub const PTE_G: u8 = 32;

/// Page has been accessed.
pub const PTE_A: u8 = 64;

/// Page has been written.
pub const PTE_D: u8 = 128;

/// A set of the eight entry flags, kept as one byte.
#[derive(Clone, Copy, PartialEq, Eq, Structural, Debug)]
pub struct PTEFlags {
    pub bits: u8,
}

impl PTEFlags {
    /// The empty flag set.
    pub fn empty() -> (r: Self)
        ensures
            r.bits == 0,
    {
        PTEFlags { bits: 0 }
    }

    /// The flag set with exactly the given bits.
    pub fn from_bits(bits: u8) -> (r: Self)
        ensures
            r.bits == bits,
    {
        PTEFlags { bits }
    }

    /// The union of two flag sets.
    pub fn union(self, other: Self) -> (r: Self)
        ensures
            r.bits == (self.bits | other.bits),
    {
        PTEFlags { bits: self.bits | other.bits }
    }

    /// Whether every flag of `other` is set in `self`.
    pub fn contains(self, other: Self) -> (r: bool)
        ensures
            r == ((self.bits & other.bits) == other.bits),
    {
        (self.bits & other.bits) == other.bits
    }
}

/// The entry word that encodes the frame holding `pa` together with `flags`:
/// the frame number in the high bits, the flags in the low eight.
pub open spec fn pte_encode(pa: u64, flags: u8) -> u64 {
    ((pa as int / 4096) * 1024 + flags) as u64
}

/// The flag byte held in an entry word.
pub open spec fn pte_flags_of(bits: u64) -> u8 {
    (bits % 256) as u8
}

/// The physical frame address an entry word denotes.
pub open spec fn pte_pa_of(bits: u64) -> u64 {
    ((bits as int / 1024) * 4096) as u64
}

/// Whether an entry word has its present bit set.
pub open spec fn pte_valid(bits: u64) -> bool {
    bits % 2 == 1
}

/// One hardware page-table entry.
#[derive(Clone, Copy, PartialEq, Eq, Structural, Debug)]
pub struct PageTableEntry {
    pub bits: u64,
}

impl PageTableEntry {
    /// Packs a page-aligned frame address and a flag set into an entry word.
    /// Alignment is the caller's duty: callers of the mappers guarantee it
    /// by construction.
    pub fn new(physical_address: PhysicalAddress, flags: PTEFlags) -> (r: Self)
        requires
            physical_address.address % 4096 == 0,
            physical_address.address < PA_LIMIT,
        ensures
            r.bits == pte_encode(physical_address.address, flags.bits),
    {
        let quotient: u64 = physical_address.address / 4096;
        assert(quotient < 0x10000000000) by (nonlinear_arith)
            requires
                quotient == physical_address.address as int / 4096,
                physical_address.address < 0x40000000000,
        ;
        PageTableEntry { bits: quotient * 1024 + flags.bits as u64 }
    }

    /// The flag byte held in the low eight bits of this entry.
    pub fn flags(&self) -> (r: PTEFlags)
        ensures
            r.bits == pte_flags_of(self.bits),
    {
        PTEFlags { bits: (self.bits % 256) as u8 }
    }

    /// Whether this entry is present.
    pub fn is_valid(&self) -> (r: bool)
        ensures
            r == pte_valid(self.bits),
    {
        self.bits % 2 == 1
    }
}

/// Decoding inverts encoding: for every aligned physical address and every
/// flag set, the encoded entry gives back exactly that address, that flag
/// byte, and a present bit that matches the flags.
pub proof fn lemma_pte_roundtrip(pa: u64, flags: u8)
    requires
        pa % 4096 == 0,
        pa < PA_LIMIT,
    ensures
        pte_flags_of(pte_encode(pa, flags)) == flags,
        pte_pa_of(pte_encode(pa, flags)) == pa,
        pte_valid(pte_encode(pa, flags)) == (flags % 2 == 1),
{
    assert((pa / 4096 * 1024 + flags as u64) % 256 == flags as u64 && (pa / 4096 * 1024
        + flags as u64) / 1024 * 4096 == pa && (pa / 4096 * 1024 + flags as u64) % 2 == flags as u64
        % 2) by (bit_vector)
        requires
            pa % 4096 == 0,
            pa < 0x40000000000,
    ;
}

} // verus!

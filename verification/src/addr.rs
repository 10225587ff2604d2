//! Typed virtual and physical addresses, and the decomposition of a virtual
//! address into the three 9-bit page-table indices that drive the walk.

use vstd::prelude::*;

verus! {

/// A physical byte address; always page-aligned when it names a frame.
pub struct PhysicalAddress {
    pub address: u64,
}

/// Index consumed at the root level: bits 30..39 of the address.
pub open spec fn idx0_spec(a: u64) -> int {
    (a as int / 0x40000000) % 512
}

/// Index consumed at the middle level: bits 21..30 of the address.
pub open spec fn idx1_spec(a: u64) -> int {
    (a as int / 0x200000) % 512
}

/// Index consumed at the leaf level: bits 12..21 of the address.
pub open spec fn idx2_spec(a: u64) -> int {
    (a as int / 0x1000) % 512
}

/// The virtual page number an address belongs to: its 27 index bits.
pub open spec fn vpn_spec(a: u64) -> int {
    (a as int / 0x1000) % 0x8000000
}

impl crate::VirtualAddress {
    /// The three page-table indices of this address, root level first.
    /// Each lies in [0, 512).
    pub fn indexes(&self) -> (r: [usize; 3])
        ensures
            r[0] == idx0_spec(self.address),
            r[1] == idx1_spec(self.address),
            r[2] == idx2_spec(self.address),
    {
        let i0: u64 = (self.address / 0x40000000) % 512;
        let i1: u64 = (self.address / 0x200000) % 512;
        let i2: u64 = (self.address / 0x1000) % 512;
        [i0 as usize, i1 as usize, i2 as usize]
    }
}

/// Recombining the three indices of an address, root index first, yields the
/// address's virtual page number.
pub proof fn lemma_indexes_reconstruct(a: u64)
    ensures
        (idx0_spec(a) * 512 + idx1_spec(a)) * 512 + idx2_spec(a) == vpn_spec(a),
{
    assert(((a / 0x40000000 % 512) * 512 + (a / 0x200000 % 512)) * 512 + (a / 0x1000 % 512) == (a
        / 0x1000) % 0x8000000) by (bit_vector);
}

/// Two addresses share all three indices exactly when they lie in the same
/// virtual page, so distinct pages never collide on a leaf slot.
pub proof fn lemma_indexes_injective(a: u64, b: u64)
    ensures
        (idx0_spec(a) == idx0_spec(b) && idx1_spec(a) == idx1_spec(b) && idx2_spec(a) == idx2_spec(
            b,
        )) <==> vpn_spec(a) == vpn_spec(b),
{
    lemma_indexes_reconstruct(a);
    lemma_indexes_reconstruct(b);
}

} // verus!

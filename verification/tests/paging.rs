use sv39_mm::VirtualAddress;
use sv39_mm::addr::PhysicalAddress;
use sv39_mm::pte::{PTEFlags, PageTableEntry, PTE_R, PTE_V, PTE_W, PTE_X};
use sv39_mm::table::PageTable;

fn test_base() -> u64 {
    0x1000
}

#[test]
fn indexes_decompose() {
    let i0: u64 = 5;
    let i1: u64 = 17;
    let i2: u64 = 300;
    let a = (i0 << 30) | (i1 << 21) | (i2 << 12) | 0x123;
    let idx = VirtualAddress { address: a }.indexes();
    assert_eq!(idx, [5usize, 17usize, 300usize]);
}

#[test]
fn indexes_reconstruct_page_number() {
    let a: u64 = 0x80204abc;
    let idx = VirtualAddress { address: a }.indexes();
    let recombined = ((idx[0] as u64) << 9 | idx[1] as u64) << 9 | idx[2] as u64;
    assert_eq!(recombined, (a >> 12) & 0x7FFFFFF);
}

#[test]
fn pte_roundtrip() {
    let pa: u64 = 0x80200000;
    let flags = PTEFlags::from_bits(PTE_V | PTE_R | PTE_X);
    let pte = PageTableEntry::new(PhysicalAddress { address: pa }, flags);
    assert_eq!(pte.flags().bits, PTE_V | PTE_R | PTE_X);
    assert!(pte.is_valid());
    assert_eq!(pte.bits / 1024 * 4096, pa);
}

#[test]
fn pte_invalid_entry() {
    let pte = PageTableEntry { bits: 0 };
    assert!(!pte.is_valid());
    assert_eq!(pte.flags().bits, 0);
}

#[test]
fn flags_operations() {
    let rw = PTEFlags::from_bits(PTE_R).union(PTEFlags::from_bits(PTE_W));
    assert_eq!(rw.bits, PTE_R | PTE_W);
    assert!(rw.contains(PTEFlags::from_bits(PTE_R)));
    assert!(!rw.contains(PTEFlags::from_bits(PTE_X)));
    assert_eq!(PTEFlags::empty().bits, 0);
}

#[test]
fn find_pte_on_empty_table_misses() {
    let t = PageTable::init(test_base());
    assert!(t.find_pte(VirtualAddress { address: 0x80200000 }).is_none());
}

#[test]
fn map_page_then_find() {
    let mut t = PageTable::init(test_base());
    let va: u64 = 0x80200000;
    let pte = PageTableEntry::new(
        PhysicalAddress { address: va },
        PTEFlags::from_bits(PTE_V | PTE_R | PTE_W),
    );
    t.map_page(VirtualAddress { address: va }, pte).unwrap();
    let found = t.find_pte(VirtualAddress { address: va }).unwrap();
    assert!(found.is_valid());
    assert_eq!(found.bits, pte.bits);
    assert_eq!(found.bits / 1024 * 4096, va);
}

#[test]
fn find_pte_create_is_idempotent() {
    let mut t = PageTable::init(test_base());
    let va = VirtualAddress { address: 0x10000 };
    let first = t.find_pte_create(va).unwrap();
    let frames_after_first = t.frames.len();
    let second = t.find_pte_create(VirtualAddress { address: 0x10000 }).unwrap();
    assert_eq!(first, second);
    assert_eq!(t.frames.len(), frames_after_first);
}

#[test]
fn sibling_page_shares_leaf_frame() {
    let mut t = PageTable::init(test_base());
    let a = t.find_pte_create(VirtualAddress { address: 0x10000 }).unwrap();
    let b = t.find_pte_create(VirtualAddress { address: 0x11000 }).unwrap();
    assert_eq!(a.0, b.0);
    assert_ne!(a.1, b.1);
}

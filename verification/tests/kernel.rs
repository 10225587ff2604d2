use sv39_mm::VirtualAddress;
use sv39_mm::config::{KERNEL_STACK_SIZE, MEMORY_END, MEMORY_START};
use sv39_mm::kernel_space::{memory_init, KernelLayout};
use sv39_mm::pte::{PTE_R, PTE_U, PTE_V, PTE_W, PTE_X};
use sv39_mm::table::PageTable;

fn layout() -> KernelLayout {
    KernelLayout {
        stext: 0x80200000,
        etext: 0x80202000,
        srodata: 0x80202000,
        erodata: 0x80203000,
        sdata: 0x80203000,
        edata: 0x80204000,
        sbss: 0x80204000,
        ebss: 0x80205000,
        ekernel: 0x80205000,
        kernel_stack_bottom: 0x80203000,
    }
}

fn test_base() -> u64 {
    0x1000
}

fn entry_of(t: &PageTable, va: u64) -> (u64, u8) {
    let pte = t.find_pte(VirtualAddress { address: va }).unwrap();
    assert!(pte.is_valid());
    (pte.bits / 1024 * 4096, pte.flags().bits)
}

#[test]
fn kernel_text_is_read_execute_identity() {
    let t = PageTable::init_kernel_space(&layout(), test_base());
    for va in [0x80200000u64, 0x80201000] {
        let (pa, flags) = entry_of(&t, va);
        assert_eq!(pa, va);
        assert_eq!(flags, PTE_V | PTE_R | PTE_X);
        assert_eq!(flags & PTE_W, 0);
        assert_eq!(flags & PTE_U, 0);
    }
}

#[test]
fn kernel_rodata_is_read_only() {
    let t = PageTable::init_kernel_space(&layout(), test_base());
    let (pa, flags) = entry_of(&t, 0x80202000);
    assert_eq!(pa, 0x80202000);
    assert_eq!(flags, PTE_V | PTE_R);
}

#[test]
fn kernel_data_and_bss_are_read_write() {
    let t = PageTable::init_kernel_space(&layout(), test_base());
    for va in [0x80203000u64, 0x80204000] {
        let (pa, flags) = entry_of(&t, va);
        assert_eq!(pa, va);
        assert_eq!(flags, PTE_V | PTE_R | PTE_W);
    }
}

#[test]
fn free_region_is_mapped_to_memory_end() {
    let t = PageTable::init_kernel_space(&layout(), test_base());
    for va in [0x80205000u64, MEMORY_END - 0x1000] {
        let (pa, flags) = entry_of(&t, va);
        assert_eq!(pa, va);
        assert_eq!(flags, PTE_V | PTE_R | PTE_W);
    }
}

#[test]
fn kernel_stack_window_maps_at_offset() {
    let l = layout();
    let t = PageTable::init_kernel_space(&l, test_base());
    let window_start = MEMORY_START - KERNEL_STACK_SIZE;
    for va in [window_start, MEMORY_START - 0x1000] {
        let (pa, flags) = entry_of(&t, va);
        assert_eq!(pa, va + KERNEL_STACK_SIZE + l.kernel_stack_bottom - MEMORY_START);
        assert_ne!(pa, va);
        assert_eq!(flags, PTE_V | PTE_R | PTE_W);
    }
}

#[test]
fn pages_outside_the_kernel_regions_stay_unmapped() {
    let t = PageTable::init_kernel_space(&layout(), test_base());
    for va in [0u64, 0x100000, 0x80100000] {
        match t.find_pte(VirtualAddress { address: va }) {
            None => {}
            Some(pte) => {
                // at most a reachable slot whose entry carries no bits at all
                assert!(!pte.is_valid());
                assert_eq!(pte.bits, 0);
            }
        }
    }
}

#[test]
fn token_encodes_mode_and_root_frame() {
    let base = 0x7000u64;
    let t = PageTable::init(base);
    let token = t.token();
    assert_eq!(token >> 60, 8);
    assert_eq!(token & 0xFFF_FFFF_FFFF, base / 4096);
}

#[test]
fn degenerate_layout_still_maps_free_region_and_stack() {
    let edge = KernelLayout {
        stext: MEMORY_START,
        etext: MEMORY_START,
        srodata: MEMORY_START,
        erodata: MEMORY_START,
        sdata: MEMORY_START,
        edata: MEMORY_START,
        sbss: MEMORY_START,
        ebss: MEMORY_START,
        ekernel: MEMORY_START,
        kernel_stack_bottom: MEMORY_START,
    };
    let t = PageTable::init_kernel_space(&edge, test_base());
    let (pa, flags) = entry_of(&t, MEMORY_START);
    assert_eq!(pa, MEMORY_START);
    assert_eq!(flags, PTE_V | PTE_R | PTE_W);
    let (stack_pa, _) = entry_of(&t, MEMORY_START - 0x1000);
    assert_eq!(stack_pa, MEMORY_START - 0x1000 + KERNEL_STACK_SIZE);
}

#[test]
fn memory_init_returns_table_and_token() {
    let (t, token) = memory_init(&layout(), test_base());
    assert_eq!(token, t.token());
    assert_eq!(token >> 60, 8);
    assert!(t.find_pte(VirtualAddress { address: 0x80200000 }).is_some());
}

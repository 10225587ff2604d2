use sv39_mm::VirtualAddress;
use sv39_mm::config::{USER_APP_START, USER_STACK_SIZE};
use sv39_mm::pte::{PTE_R, PTE_U, PTE_V, PTE_W, PTE_X};
use sv39_mm::table::{MemError, PageTable, USER_FRAME_BASE};

fn put_u16(buf: &mut Vec<u8>, off: usize, v: u16) {
    buf[off] = (v & 0xff) as u8;
    buf[off + 1] = (v >> 8) as u8;
}

fn put_u32(buf: &mut Vec<u8>, off: usize, v: u32) {
    for k in 0..4 {
        buf[off + k] = ((v >> (8 * k)) & 0xff) as u8;
    }
}

fn put_u64(buf: &mut Vec<u8>, off: usize, v: u64) {
    for k in 0..8 {
        buf[off + k] = ((v >> (8 * k)) & 0xff) as u8;
    }
}

fn put_program_header(
    buf: &mut Vec<u8>,
    at: usize,
    p_type: u32,
    p_flags: u32,
    offset: u64,
    vaddr: u64,
    filesz: u64,
    memsz: u64,
) {
    put_u32(buf, at, p_type);
    put_u32(buf, at + 4, p_flags);
    put_u64(buf, at + 8, offset);
    put_u64(buf, at + 16, vaddr);
    put_u64(buf, at + 24, vaddr);
    put_u64(buf, at + 32, filesz);
    put_u64(buf, at + 40, memsz);
    put_u64(buf, at + 48, 0x1000);
}

/// A minimal two-segment 64-bit image: one read+execute code segment of
/// two pages backed by eight file bytes, one read+write data segment of
/// one page backed by four file bytes.
fn two_segment_image() -> Vec<u8> {
    let mut buf = vec![0u8; 188];
    buf[0] = 0x7f;
    buf[1] = 0x45;
    buf[2] = 0x4c;
    buf[3] = 0x46;
    buf[4] = 2; // 64-bit
    buf[5] = 1; // little-endian
    buf[6] = 1; // version
    put_u16(&mut buf, 0x10, 2); // executable
    put_u16(&mut buf, 0x12, 0xf3); // RISC-V
    put_u32(&mut buf, 0x14, 1);
    put_u64(&mut buf, 0x18, USER_APP_START);
    put_u64(&mut buf, 0x20, 64); // program-header table offset
    put_u16(&mut buf, 0x34, 64); // header size
    put_u16(&mut buf, 0x36, 56); // program-header entry size
    put_u16(&mut buf, 0x38, 2); // program-header count
    put_program_header(&mut buf, 64, 1, 5, 176, USER_APP_START, 8, 0x2000);
    put_program_header(&mut buf, 120, 1, 6, 184, USER_APP_START + 0x2000, 4, 0x1000);
    for k in 0..8 {
        buf[176 + k] = (k + 1) as u8;
    }
    for k in 0..4 {
        buf[184 + k] = (k + 9) as u8;
    }
    buf
}

fn test_base() -> u64 {
    0x1000
}

fn entry_of(t: &PageTable, va: u64) -> (u64, u8) {
    let pte = t.find_pte(VirtualAddress { address: va }).unwrap();
    assert!(pte.is_valid());
    (pte.bits / 1024 * 4096, pte.flags().bits)
}

#[test]
fn two_segment_image_loads() {
    let image = two_segment_image();
    let mut t = PageTable::init_elf_space(test_base());
    t.map_elf(&image).unwrap();

    // code pages: executable, not writable, user-accessible
    for va in [USER_APP_START, USER_APP_START + 0x1000] {
        let (pa, flags) = entry_of(&t, va);
        assert_eq!(pa, USER_FRAME_BASE + va);
        assert_eq!(flags, PTE_V | PTE_R | PTE_X | PTE_U);
        assert_eq!(flags & PTE_W, 0);
    }
    // data page: writable, user-accessible
    let (pa, flags) = entry_of(&t, USER_APP_START + 0x2000);
    assert_eq!(pa, USER_FRAME_BASE + USER_APP_START + 0x2000);
    assert_eq!(flags, PTE_V | PTE_R | PTE_W | PTE_U);
}

#[test]
fn file_bytes_are_copied_and_rest_reads_zero() {
    let image = two_segment_image();
    let mut t = PageTable::init_elf_space(test_base());
    t.map_elf(&image).unwrap();

    for k in 0..8u64 {
        assert_eq!(t.data_page_byte(USER_APP_START, k as usize), Some((k + 1) as u8));
    }
    // beyond the file-backed bytes, still inside the segment: zero
    assert_eq!(t.data_page_byte(USER_APP_START, 8), Some(0));
    assert_eq!(t.data_page_byte(USER_APP_START, 4095), Some(0));
    assert_eq!(t.data_page_byte(USER_APP_START + 0x1000, 0), Some(0));
    assert_eq!(t.data_page_byte(USER_APP_START + 0x1000, 123), Some(0));
    // data segment
    assert_eq!(t.data_page_byte(USER_APP_START + 0x2000, 0), Some(9));
    assert_eq!(t.data_page_byte(USER_APP_START + 0x2000, 3), Some(12));
    assert_eq!(t.data_page_byte(USER_APP_START + 0x2000, 4), Some(0));
}

#[test]
fn user_stack_sits_below_entry_address() {
    let image = two_segment_image();
    let mut t = PageTable::init_elf_space(test_base());
    t.map_elf(&image).unwrap();

    let stack_page = USER_APP_START - USER_STACK_SIZE;
    let (pa, flags) = entry_of(&t, stack_page);
    assert_eq!(pa, USER_FRAME_BASE + stack_page);
    assert_eq!(flags, PTE_V | PTE_R | PTE_W | PTE_U);
    assert_eq!(t.data_page_byte(stack_page, 0), Some(0));
    assert_eq!(t.data_page_byte(stack_page, 4095), Some(0));
}

#[test]
fn bad_magic_is_rejected() {
    let mut image = two_segment_image();
    image[1] = 0x00;
    let mut t = PageTable::init_elf_space(test_base());
    assert_eq!(t.map_elf(&image), Err(MemError::BadMagic));
}

#[test]
fn short_image_is_rejected() {
    let image = vec![0x7fu8, 0x45, 0x4c, 0x46];
    let mut t = PageTable::init_elf_space(test_base());
    assert_eq!(t.map_elf(&image), Err(MemError::ElfTooShort));
}

#[test]
fn broken_header_table_is_rejected() {
    let mut image = two_segment_image();
    put_u16(&mut image, 0x36, 40); // unusable entry size
    let mut t = PageTable::init_elf_space(test_base());
    assert_eq!(t.map_elf(&image), Err(MemError::BadProgramHeader));
}

#[test]
fn image_without_segments_still_gets_a_stack() {
    let mut image = vec![0u8; 64];
    image[0] = 0x7f;
    image[1] = 0x45;
    image[2] = 0x4c;
    image[3] = 0x46;
    put_u64(&mut image, 0x20, 64);
    put_u16(&mut image, 0x36, 56);
    put_u16(&mut image, 0x38, 0);
    let mut t = PageTable::init_elf_space(test_base());
    t.map_elf(&image).unwrap();
    let stack_page = USER_APP_START - USER_STACK_SIZE;
    assert!(t.find_pte(VirtualAddress { address: stack_page }).unwrap().is_valid());
    // the entry address shares the stack page's walk path, so its slot is
    // reachable, but it carries no mapping and no permission bits
    let neighbour = t.find_pte(VirtualAddress { address: USER_APP_START }).unwrap();
    assert!(!neighbour.is_valid());
    assert_eq!(neighbour.bits, 0);
}

#[test]
fn loader_agrees_with_reference_parser() {
    let image = two_segment_image();
    let elf = xmas_elf::ElfFile::new(&image).unwrap();
    assert_eq!(elf.header.pt1.magic, [0x7f, 0x45, 0x4c, 0x46]);
    assert_eq!(elf.header.pt2.ph_count(), 2);

    let mut t = PageTable::init_elf_space(test_base());
    t.map_elf(&image).unwrap();
    for i in 0..elf.header.pt2.ph_count() {
        let ph = elf.program_header(i).unwrap();
        assert_eq!(ph.get_type().unwrap(), xmas_elf::program::Type::Load);
        let pte = t.find_pte(VirtualAddress { address: ph.virtual_addr() }).unwrap();
        assert!(pte.is_valid());
        assert_eq!((pte.flags().bits & PTE_X != 0), ph.flags().is_execute());
        assert_eq!((pte.flags().bits & PTE_W != 0), ph.flags().is_write());
    }
}

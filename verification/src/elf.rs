//! The ELF-space mapper: reads the program headers of a 64-bit ELF image
//! straight from its bytes, maps every loadable segment into a fresh user
//! address space with segment-derived permissions plus the user bit, copies
//! the file-backed bytes into the freshly allocated frames (the rest of
//! each segment stays zero), and maps a fixed-size zero-filled user stack
//! immediately below the fixed user entry address.

use vstd::prelude::*;
use crate::VirtualAddress;
use crate::addr::PhysicalAddress;
use crate::addr::vpn_spec;
use crate::config::USER_APP_START;
use crate::config::USER_STACK_SIZE;
use crate::config::VA_SPACE;
use crate::frame::Page;
use crate::kernel_space::lemma_vpn_identity;
use crate::pte::PTEFlags;
use crate::pte::PageTableEntry;
use crate::pte::pte_encode;
use crate::table::FRAME_CAPACITY;
use crate::table::MemError;
use crate::table::PageTable;
use crate::table::USER_FRAME_BASE;
use crate::table::map_page_result;

verus! {

broadcast use vstd::std_specs::btree::group_btree_axioms, vstd::laws_cmp::group_laws_cmp;

/// Entry flags for the user stack: present, readable, writable, user.
pub const USER_STACK_FLAGS: u8 = 1 + 2 + 4 + 16;

/// A little-endian 16-bit field at `off`.
pub open spec fn le16(d: Seq<u8>, off: int) -> int {
    d[off] + d[off + 1] * 0x100
}

/// A little-endian 32-bit field at `off`.
pub open spec fn le32(d: Seq<u8>, off: int) -> int {
    le16(d, off) + le16(d, off + 2) * 0x10000
}

/// A little-endian 64-bit field at `off`.
pub open spec fn le64(d: Seq<u8>, off: int) -> int {
    le32(d, off) + le32(d, off + 4) * 0x100000000
}

/// The image begins with the four required magic bytes.
pub open spec fn elf_magic_ok(d: Seq<u8>) -> bool {
    &&& d.len() >= 64
    &&& d[0] == 0x7f
    &&& d[1] == 0x45
    &&& d[2] == 0x4c
    &&& d[3] == 0x46
}

/// Offset of the program-header table.
pub open spec fn ph_off_s(d: Seq<u8>) -> int {
    le64(d, 0x20)
}

/// Size of one program-header entry.
pub open spec fn ph_entsize_s(d: Seq<u8>) -> int {
    le16(d, 0x36)
}

/// Number of program-header entries.
pub open spec fn ph_count_s(d: Seq<u8>) -> int {
    le16(d, 0x38)
}

/// Byte offset of program header `i` inside the image.
pub open spec fn ph_base(d: Seq<u8>, i: int) -> int {
    ph_off_s(d) + i * 56
}

/// Segment type field of program header `i`.
pub open spec fn ph_type_s(d: Seq<u8>, i: int) -> int {
    le32(d, ph_base(d, i))
}

/// Whether program header `i` describes a loadable segment.
pub open spec fn is_load(d: Seq<u8>, i: int) -> bool {
    ph_type_s(d, i) == 1
}

/// Permission field of program header `i`.
pub open spec fn ph_flags_s(d: Seq<u8>, i: int) -> int {
    le32(d, ph_base(d, i) + 4)
}

/// File offset of segment `i`'s bytes.
pub open spec fn ph_offset_s(d: Seq<u8>, i: int) -> int {
    le64(d, ph_base(d, i) + 8)
}

/// Virtual address segment `i` is to be loaded at.
pub open spec fn ph_vaddr_s(d: Seq<u8>, i: int) -> int {
    le64(d, ph_base(d, i) + 16)
}

/// Number of file-backed bytes of segment `i`.
pub open spec fn ph_filesz_s(d: Seq<u8>, i: int) -> int {
    le64(d, ph_base(d, i) + 32)
}

/// Number of bytes segment `i` occupies in memory.
pub open spec fn ph_memsz_s(d: Seq<u8>, i: int) -> int {
    le64(d, ph_base(d, i) + 40)
}

/// The header table is usable: standard entry size, whole table inside
/// the image, and every loadable segment's file bytes inside the image.
pub open spec fn elf_headers_ok(d: Seq<u8>) -> bool {
    &&& elf_magic_ok(d)
    &&& ph_entsize_s(d) == 56
    &&& ph_off_s(d) + ph_count_s(d) * 56 <= d.len()
    &&& forall|i: int|
        0 <= i < ph_count_s(d) && #[trigger] is_load(d, i) ==> ph_offset_s(d, i) + ph_filesz_s(
            d,
            i,
        ) <= d.len()
}

/// The entry flags a loadable segment is mapped with: present and user,
/// plus read/write/execute as the segment's permission bits ask.
pub open spec fn segment_flags(pflags: int) -> u8 {
    (17 + (if (pflags / 4) % 2 == 1 {
        2int
    } else {
        0int
    }) + (if (pflags / 2) % 2 == 1 {
        4int
    } else {
        0int
    }) + (if pflags % 2 == 1 {
        8int
    } else {
        0int
    })) as u8
}

/// First page address of segment `i`'s virtual range.
pub open spec fn seg_pstart(d: Seq<u8>, i: int) -> int {
    ph_vaddr_s(d, i) / 4096 * 4096
}

/// One past the last page address of segment `i`'s virtual range: one page
/// for every page-size step the loader takes through the segment.
pub open spec fn seg_pend(d: Seq<u8>, i: int) -> int {
    seg_pstart(d, i) + ((ph_memsz_s(d, i) + 4095) / 4096) * 4096
}

/// The file bytes of segment `i`.
pub open spec fn seg_file_bytes(d: Seq<u8>, i: int) -> Seq<u8> {
    d.subrange(ph_offset_s(d, i), ph_offset_s(d, i) + ph_filesz_s(d, i))
}

/// The 4096 bytes page `k` of a segment receives: the slice of the file
/// bytes that covers it, zero beyond the file-backed length.
pub open spec fn page_bytes(src: Seq<u8>, k: int) -> Seq<u8> {
    Seq::new(
        4096,
        |j: int|
            if k * 4096 + j < src.len() {
                src[k * 4096 + j]
            } else {
                0u8
            },
    )
}

/// Whether loadable segment `i` covers address `b`'s page.
pub open spec fn seg_covers(d: Seq<u8>, i: int, b: u64) -> bool {
    is_load(d, i) && seg_pstart(d, i) <= vpn_spec(b) * 4096 < seg_pend(d, i)
}

/// Whether some loadable segment of the image covers address `b`'s page.
pub open spec fn elf_covers(d: Seq<u8>, b: u64) -> bool {
    exists|i: int| 0 <= i < ph_count_s(d) && #[trigger] seg_covers(d, i, b)
}

/// Segment `i`'s pages do not collide with any later loadable segment nor
/// with the user stack window, so nothing overwrites them afterwards.
pub open spec fn seg_undisturbed(d: Seq<u8>, i: int) -> bool {
    &&& forall|j: int|
        i < j < ph_count_s(d) && #[trigger] is_load(d, j) ==> (seg_pend(d, i) <= seg_pstart(d, j)
            || seg_pend(d, j) <= seg_pstart(d, i))
    &&& (seg_pend(d, i) <= USER_APP_START - USER_STACK_SIZE || USER_APP_START <= seg_pstart(d, i))
}

/// Table `t` holds segment `i` of image `d` fully loaded: every page of
/// its range mapped to that page's own data frame with the segment's
/// flags, and every data frame holding the file bytes that cover it, zero
/// beyond them.
pub open spec fn seg_mapped(t: PageTable, d: Seq<u8>, i: int) -> bool {
    &&& forall|b: u64|
        seg_pstart(d, i) <= vpn_spec(b) * 4096 < seg_pend(d, i) ==> #[trigger] t.mapped_pte(b)
            == Some(
            pte_encode(
                (USER_FRAME_BASE + vpn_spec(b) * 4096) as u64,
                segment_flags(ph_flags_s(d, i)),
            ),
        )
    &&& forall|p: u64|
        seg_pstart(d, i) <= p < seg_pend(d, i) && p % 4096 == 0 ==> #[trigger] t.data_view(
        ).contains_key(p) && t.data_view()[p] == page_bytes(
            seg_file_bytes(d, i),
            (p - seg_pstart(d, i)) / 4096,
        )
}

/// Table `t` holds the user stack: every page of the fixed window below
/// the user entry address mapped read+write+user onto a zero-filled data
/// frame of its own.
pub open spec fn user_stack_mapped(t: PageTable) -> bool {
    &&& forall|b: u64|
        USER_APP_START - USER_STACK_SIZE <= vpn_spec(b) * 4096 < USER_APP_START
            ==> #[trigger] t.mapped_pte(b) == Some(
            pte_encode((USER_FRAME_BASE + vpn_spec(b) * 4096) as u64, USER_STACK_FLAGS),
        )
    &&& forall|p: u64|
        USER_APP_START - USER_STACK_SIZE <= p < USER_APP_START && p % 4096 == 0 ==> #[trigger] t
            .data_view().contains_key(p) && t.data_view()[p] == page_bytes(Seq::<u8>::empty(), 0)
}

/// Pages of loadable segments, counted over the first `i` headers.
pub open spec fn total_pages(d: Seq<u8>, i: int) -> int
    decreases i,
{
    if i <= 0 {
        0
    } else {
        total_pages(d, i - 1) + (if is_load(d, i - 1) {
            (ph_memsz_s(d, i - 1) + 4095) / 4096
        } else {
            0
        })
    }
}

/// One step of the segment-mapping loop, seen through the tables'
/// abstract views: `pre` is the table before the step, `mid` after the
/// page is mapped, `s` after the data frame is recorded; the step extends
/// the mapped prefix of the segment by one page and touches nothing else.
#[verifier::rlimit(100)]
proof fn lemma_map_segment_step(
    o: PageTable,
    pre: PageTable,
    mid: PageTable,
    s: PageTable,
    sp: int,
    k: int,
    page: u64,
    bits: u64,
    fb: u8,
    src: Seq<u8>,
    pgb: Seq<u8>,
)
    requires
        0 <= k,
        page == sp + k * 4096,
        page % 4096 == 0,
        page + 4096 <= VA_SPACE,
        bits == pte_encode((USER_FRAME_BASE + page) as u64, fb),
        forall|b: u64|
            sp <= vpn_spec(b) * 4096 < sp + k * 4096 ==> #[trigger] pre.mapped_pte(b) == Some(
                pte_encode((USER_FRAME_BASE + vpn_spec(b) * 4096) as u64, fb),
            ),
        forall|b: u64|
            !(sp <= vpn_spec(b) * 4096 < sp + k * 4096) ==> (#[trigger] pre.mapped_pte(b)
                == o.mapped_pte(b) || (o.mapped_pte(b) is None && pre.mapped_pte(b) == Some(
                0u64,
            ))),
        forall|p: u64|
            sp <= p < sp + k * 4096 && p % 4096 == 0 ==> #[trigger] pre.data_view().contains_key(p)
                && pre.data_view()[p] == page_bytes(src, (p - sp) / 4096),
        forall|p: u64|
            !(sp <= p < sp + k * 4096) ==> (#[trigger] pre.data_view().contains_key(p)
                == o.data_view().contains_key(p)) && (o.data_view().contains_key(p)
                ==> pre.data_view()[p] == o.data_view()[p]),
        forall|b: u64| #[trigger] mid.mapped_pte(b) == map_page_result(pre, page, bits, b),
        mid.data_view() == pre.data_view(),
        forall|b: u64| #[trigger] s.mapped_pte(b) == mid.mapped_pte(b),
        s.data_view() == mid.data_view().insert(page, pgb),
        pgb == page_bytes(src, k),
    ensures
        forall|b: u64|
            sp <= vpn_spec(b) * 4096 < sp + (k + 1) * 4096 ==> #[trigger] s.mapped_pte(b) == Some(
                pte_encode((USER_FRAME_BASE + vpn_spec(b) * 4096) as u64, fb),
            ),
        forall|b: u64|
            !(sp <= vpn_spec(b) * 4096 < sp + (k + 1) * 4096) ==> (#[trigger] s.mapped_pte(b)
                == o.mapped_pte(b) || (o.mapped_pte(b) is None && s.mapped_pte(b) == Some(0u64))),
        forall|p: u64|
            sp <= p < sp + (k + 1) * 4096 && p % 4096 == 0 ==> #[trigger] s.data_view(
            ).contains_key(p) && s.data_view()[p] == page_bytes(src, (p - sp) / 4096),
        forall|p: u64|
            !(sp <= p < sp + (k + 1) * 4096) ==> (#[trigger] s.data_view().contains_key(p)
                == o.data_view().contains_key(p)) && (o.data_view().contains_key(p)
                ==> s.data_view()[p] == o.data_view()[p]),
{
    lemma_vpn_identity(page);
    assert forall|b: u64|
        sp <= vpn_spec(b) * 4096 < sp + (k + 1) * 4096 implies #[trigger] s.mapped_pte(b) == Some(
        pte_encode((USER_FRAME_BASE + vpn_spec(b) * 4096) as u64, fb),
    ) by {
        assert(mid.mapped_pte(b) == map_page_result(pre, page, bits, b));
        if vpn_spec(b) == vpn_spec(page) {
            assert(vpn_spec(b) * 4096 == page);
        } else {
            assert(vpn_spec(b) * 4096 != page);
            assert(sp <= vpn_spec(b) * 4096 < sp + k * 4096);
            assert(pre.path_exists(b));
        }
    }
    assert forall|b: u64| !(sp <= vpn_spec(b) * 4096 < sp + (k + 1) * 4096) implies (#[trigger] s
        .mapped_pte(b) == o.mapped_pte(b) || (o.mapped_pte(b) is None && s.mapped_pte(b) == Some(
        0u64,
    ))) by {
        assert(mid.mapped_pte(b) == map_page_result(pre, page, bits, b));
        assert(vpn_spec(b) * 4096 != page);
        assert(vpn_spec(b) != vpn_spec(page));
        if pre.path_exists(b) {
            assert(s.mapped_pte(b) == pre.mapped_pte(b));
        } else {
            assert(pre.mapped_pte(b) is None);
        }
    }
    assert forall|p: u64| sp <= p < sp + (k + 1) * 4096 && p % 4096 == 0 implies #[trigger] s
        .data_view().contains_key(p) && s.data_view()[p] == page_bytes(src, (p - sp) / 4096) by {
        if p == page {
            assert((p - sp) / 4096 == k) by (nonlinear_arith)
                requires
                    p == sp + k * 4096,
            ;
        } else if p < page {
            assert(sp <= p < sp + k * 4096) by (nonlinear_arith)
                requires
                    sp <= p < sp + (k + 1) * 4096,
                    page == sp + k * 4096,
                    p < page,
            ;
            assert(pre.data_view().contains_key(p));
        } else {
            assert(false) by (nonlinear_arith)
                requires
                    p % 4096 == 0,
                    page % 4096 == 0,
                    page < p,
                    p < page + 4096,
                    p < sp + (k + 1) * 4096,
                    page == sp + k * 4096,
            ;
        }
    }
    assert forall|p: u64| !(sp <= p < sp + (k + 1) * 4096) implies (#[trigger] s.data_view(
    ).contains_key(p) == o.data_view().contains_key(p)) && (o.data_view().contains_key(p) ==> s
        .data_view()[p] == o.data_view()[p]) by {
        assert(sp <= page < sp + (k + 1) * 4096) by (nonlinear_arith)
            requires
                page == sp + k * 4096,
                0 <= k,
        ;
        assert(p != page);
        assert(!(sp <= p < sp + k * 4096)) by (nonlinear_arith)
            requires
                !(sp <= p < sp + (k + 1) * 4096),
                0 <= k,
        ;
        assert(s.data_view().contains_key(p) == mid.data_view().contains_key(p));
        assert(mid.data_view().contains_key(p) ==> s.data_view()[p] == mid.data_view()[p]);
        assert(mid.data_view().contains_key(p) == o.data_view().contains_key(p));
    }
}

/// Every loadable segment's pages stay inside the 39-bit address space.
pub open spec fn elf_ranges_ok(d: Seq<u8>) -> bool {
    forall|i: int|
        0 <= i < ph_count_s(d) && #[trigger] is_load(d, i) ==> seg_pend(d, i) <= VA_SPACE
}

/// The frame arena of a table with `len0` frames can take every
/// intermediate frame loading the image might ask for.
pub open spec fn elf_fits(d: Seq<u8>, len0: int) -> bool {
    len0 + 2 * total_pages(d, ph_count_s(d)) + 4 <= FRAME_CAPACITY
}

/// The page count over a prefix of the headers is never negative.
proof fn lemma_total_pages_nonneg(d: Seq<u8>, i: int)
    ensures
        0 <= total_pages(d, i),
    decreases i,
{
    if 0 < i {
        lemma_total_pages_nonneg(d, i - 1);
    }
}

/// The page count over a prefix of the headers never decreases.
proof fn lemma_total_pages_mono(d: Seq<u8>, i: int, j: int)
    requires
        0 <= i <= j,
    ensures
        total_pages(d, i) <= total_pages(d, j),
    decreases j,
{
    if i < j {
        lemma_total_pages_mono(d, i, j - 1);
    }
}

/// Pages no loadable segment up to `i` covers, and which mapping segment
/// `i` leaves alone, keep the translation they had at the start (or at
/// most become reachable with a not-present entry).
proof fn lemma_untouched_advance(
    o: PageTable,
    pre: PageTable,
    s: PageTable,
    d: Seq<u8>,
    i: int,
    sp: int,
    np: int,
)
    requires
        0 <= i,
        is_load(d, i),
        sp == seg_pstart(d, i),
        sp + np * 4096 == seg_pend(d, i),
        forall|b: u64|
            (forall|ii: int| 0 <= ii < i ==> !(#[trigger] seg_covers(d, ii, b))) ==> (
            #[trigger] pre.mapped_pte(b) == o.mapped_pte(b) || (o.mapped_pte(b) is None
                && pre.mapped_pte(b) == Some(0u64))),
        forall|b: u64|
            !(sp <= vpn_spec(b) * 4096 < sp + np * 4096) ==> (#[trigger] s.mapped_pte(b)
                == pre.mapped_pte(b) || (pre.mapped_pte(b) is None && s.mapped_pte(b) == Some(
                0u64,
            ))),
    ensures
        forall|b: u64|
            (forall|ii: int| 0 <= ii < i + 1 ==> !(#[trigger] seg_covers(d, ii, b))) ==> (
            #[trigger] s.mapped_pte(b) == o.mapped_pte(b) || (o.mapped_pte(b) is None
                && s.mapped_pte(b) == Some(0u64))),
{
    assert forall|b: u64|
        (forall|ii: int| 0 <= ii < i + 1 ==> !(#[trigger] seg_covers(d, ii, b))) implies (
    #[trigger] s.mapped_pte(b) == o.mapped_pte(b) || (o.mapped_pte(b) is None && s.mapped_pte(b)
        == Some(0u64))) by {
        assert(!seg_covers(d, i, b));
        assert(!(sp <= vpn_spec(b) * 4096 < sp + np * 4096));
        assert(s.mapped_pte(b) == pre.mapped_pte(b) || (pre.mapped_pte(b) is None && s.mapped_pte(
            b,
        ) == Some(0u64)));
        assert(pre.mapped_pte(b) == o.mapped_pte(b) || (o.mapped_pte(b) is None && pre.mapped_pte(
            b,
        ) == Some(0u64)));
    }
}

/// A zero page whose first `j` bytes were copied from the covering file
/// bytes holds exactly what the page-fill specification says.
proof fn lemma_page_bytes_filled(pgb: Seq<u8>, src: Seq<u8>, k: int, j: int)
    requires
        pgb.len() == 4096,
        0 <= j <= 4096,
        0 <= k,
        j == 0 || k * 4096 + j <= src.len(),
        forall|jj: int| 0 <= jj < j ==> pgb[jj] == src[k * 4096 + jj],
        forall|jj: int| j <= jj < 4096 ==> pgb[jj] == 0,
        j == 4096 || k * 4096 + j >= src.len(),
    ensures
        pgb =~= page_bytes(src, k),
{
    assert forall|jj: int| 0 <= jj < 4096 implies pgb[jj] == page_bytes(src, k)[jj] by {
        if jj < j {
            assert(k * 4096 + jj < src.len());
        } else {
            assert(k * 4096 + jj >= src.len());
        }
    }
}

/// A loadable segment already fully loaded in `pre` stays fully loaded in
/// `s` when everything `s` changed lies in `[lo, hi)`, a window disjoint
/// from the segment's pages.
#[verifier::spinoff_prover]
proof fn lemma_one_segment_preserved(
    pre: PageTable,
    s: PageTable,
    d: Seq<u8>,
    ii: int,
    lo: int,
    hi: int,
)
    requires
        seg_mapped(pre, d, ii),
        seg_pend(d, ii) <= lo || hi <= seg_pstart(d, ii),
        forall|b: u64|
            !(lo <= vpn_spec(b) * 4096 < hi) ==> (#[trigger] s.mapped_pte(b) == pre.mapped_pte(b)
                || (pre.mapped_pte(b) is None && s.mapped_pte(b) == Some(0u64))),
        forall|p: u64|
            !(lo <= p < hi) ==> (#[trigger] s.data_view().contains_key(p)
                == pre.data_view().contains_key(p)) && (pre.data_view().contains_key(p) ==> s
                .data_view()[p] == pre.data_view()[p]),
    ensures
        seg_mapped(s, d, ii),
{
    assert forall|b: u64|
        seg_pstart(d, ii) <= vpn_spec(b) * 4096 < seg_pend(d, ii) implies #[trigger] s.mapped_pte(
        b,
    ) == Some(
        pte_encode((USER_FRAME_BASE + vpn_spec(b) * 4096) as u64, segment_flags(ph_flags_s(d, ii))),
    ) by {
        assert(pre.mapped_pte(b) == Some(
            pte_encode(
                (USER_FRAME_BASE + vpn_spec(b) * 4096) as u64,
                segment_flags(ph_flags_s(d, ii)),
            ),
        ));
    }
    assert forall|p: u64|
        seg_pstart(d, ii) <= p < seg_pend(d, ii) && p % 4096 == 0 implies #[trigger] s.data_view(
    ).contains_key(p) && s.data_view()[p] == page_bytes(
        seg_file_bytes(d, ii),
        (p - seg_pstart(d, ii)) / 4096,
    ) by {
        assert(pre.data_view().contains_key(p));
        assert(s.data_view().contains_key(p));
    }
}

/// After the user stack window `[0xF000, 0x10000)` is mapped on top of
/// `pre`, giving `s`, every loadable segment that nothing disturbs is
/// still fully loaded.
proof fn lemma_segments_after_stack(pre: PageTable, s: PageTable, d: Seq<u8>)
    requires
        forall|ii: int|
            0 <= ii < ph_count_s(d) && #[trigger] is_load(d, ii) && seg_undisturbed(d, ii)
                ==> seg_mapped(pre, d, ii),
        forall|b: u64|
            !(0xF000 <= vpn_spec(b) * 4096 < 0x10000) ==> (#[trigger] s.mapped_pte(b)
                == pre.mapped_pte(b) || (pre.mapped_pte(b) is None && s.mapped_pte(b) == Some(
                0u64,
            ))),
        forall|p: u64|
            !(0xF000 <= p < 0x10000) ==> (#[trigger] s.data_view().contains_key(p)
                == pre.data_view().contains_key(p)) && (pre.data_view().contains_key(p) ==> s
                .data_view()[p] == pre.data_view()[p]),
    ensures
        forall|ii: int|
            0 <= ii < ph_count_s(d) && #[trigger] is_load(d, ii) && seg_undisturbed(d, ii)
                ==> seg_mapped(s, d, ii),
{
    assert forall|ii: int|
        0 <= ii < ph_count_s(d) && #[trigger] is_load(d, ii) && seg_undisturbed(
            d,
            ii,
        ) implies seg_mapped(s, d, ii) by {
        assert(seg_mapped(pre, d, ii));
        assert(seg_pend(d, ii) <= 0xF000 || 0x10000 <= seg_pstart(d, ii));
        lemma_one_segment_preserved(pre, s, d, ii, 0xF000, 0x10000);
    }
}

/// After segment `i` is mapped on top of `pre`, giving `s`, every earlier
/// loadable segment that nothing later disturbs is still fully loaded, and
/// so is segment `i` itself. `sp`, `np`, `fb` and `srcb` are the page
/// start, page count, entry flags and file bytes of segment `i`.
proof fn lemma_segments_advance(
    pre: PageTable,
    s: PageTable,
    d: Seq<u8>,
    i: int,
    sp: int,
    np: int,
    fb: u8,
    srcb: Seq<u8>,
)
    requires
        0 <= i < ph_count_s(d),
        is_load(d, i),
        sp == seg_pstart(d, i),
        sp + np * 4096 == seg_pend(d, i),
        fb == segment_flags(ph_flags_s(d, i)),
        srcb == seg_file_bytes(d, i),
        forall|ii: int|
            0 <= ii < i && #[trigger] is_load(d, ii) && seg_undisturbed(d, ii) ==> seg_mapped(
                pre,
                d,
                ii,
            ),
        forall|b: u64|
            sp <= vpn_spec(b) * 4096 < sp + np * 4096 ==> #[trigger] s.mapped_pte(b) == Some(
                pte_encode((USER_FRAME_BASE + vpn_spec(b) * 4096) as u64, fb),
            ),
        forall|b: u64|
            !(sp <= vpn_spec(b) * 4096 < sp + np * 4096) ==> (#[trigger] s.mapped_pte(b)
                == pre.mapped_pte(b) || (pre.mapped_pte(b) is None && s.mapped_pte(b) == Some(
                0u64,
            ))),
        forall|p: u64|
            sp <= p < sp + np * 4096 && p % 4096 == 0 ==> #[trigger] s.data_view().contains_key(p)
                && s.data_view()[p] == page_bytes(srcb, (p - sp) / 4096),
        forall|p: u64|
            !(sp <= p < sp + np * 4096) ==> (#[trigger] s.data_view().contains_key(p)
                == pre.data_view().contains_key(p)) && (pre.data_view().contains_key(p) ==> s
                .data_view()[p] == pre.data_view()[p]),
    ensures
        forall|ii: int|
            0 <= ii < i + 1 && #[trigger] is_load(d, ii) && seg_undisturbed(d, ii) ==> seg_mapped(
                s,
                d,
                ii,
            ),
{
    assert forall|ii: int|
        0 <= ii < i + 1 && #[trigger] is_load(d, ii) && seg_undisturbed(d, ii) implies seg_mapped(
        s,
        d,
        ii,
    ) by {
        if ii < i {
            assert(seg_mapped(pre, d, ii));
            assert(seg_pend(d, ii) <= seg_pstart(d, i) || seg_pend(d, i) <= seg_pstart(d, ii));
            lemma_one_segment_preserved(pre, s, d, ii, sp, sp + np * 4096);
        } else {
            assert forall|p: u64|
                seg_pstart(d, ii) <= p < seg_pend(d, ii) && p % 4096 == 0 implies #[trigger] s
                .data_view().contains_key(p) && s.data_view()[p] == page_bytes(
                seg_file_bytes(d, ii),
                (p - seg_pstart(d, ii)) / 4096,
            ) by {
                assert(s.data_view().contains_key(p));
            }
        }
    }
}

/// Reads a little-endian 16-bit field.
fn read_u16(d: &[u8], off: usize) -> (r: u64)
    requires
        off + 2 <= d@.len(),
    ensures
        r == le16(d@, off as int),
        r < 0x10000,
{
    d[off] as u64 + d[off + 1] as u64 * 0x100
}

/// Reads a little-endian 32-bit field.
fn read_u32(d: &[u8], off: usize) -> (r: u64)
    requires
        off + 4 <= d@.len(),
    ensures
        r == le32(d@, off as int),
        r < 0x100000000,
{
    let n = d.len();
    assert(off + 4 <= n);
    read_u16(d, off) + read_u16(d, off + 2) * 0x10000
}

/// Reads a little-endian 64-bit field.
fn read_u64(d: &[u8], off: usize) -> (r: u64)
    requires
        off + 8 <= d@.len(),
    ensures
        r == le64(d@, off as int),
{
    let n = d.len();
    assert(off + 8 <= n);
    read_u32(d, off) + read_u32(d, off + 4) * 0x100000000
}

impl PageTable {
    /// Maps one segment: for every page-size step through
    /// `[vaddr, vaddr + memsz)` it allocates a zero frame, maps the page
    /// containing the stepped address with the given flags onto it, and
    /// copies into the frame the slice of `src` that covers it (bytes past
    /// `src` stay zero, the standard in-segment zero-fill). Rejects a
    /// range that leaves the 39-bit address space, and reports frame
    /// exhaustion instead of halting.
    #[verifier::rlimit(100)]
    pub fn map_segment(&mut self, vaddr: u64, memsz: u64, flags: PTEFlags, src: &[u8]) -> (r:
        Result<(), MemError>)
        requires
            old(self).wf(),
        ensures
            final(self).wf(),
            final(self).base == old(self).base,
            ({
                let sp = vaddr as int / 4096 * 4096;
                let np = (memsz + 4095) as int / 4096;
                &&& (r == Err::<(), MemError>(MemError::AddressOverflow) <==> sp + np * 4096
                    > VA_SPACE)
                &&& (r == Err::<(), MemError>(MemError::AddressOverflow) ==> *final(self) == *old(self))
                &&& (r is Err ==> r == Err::<(), MemError>(MemError::AddressOverflow) || r
                    == Err::<(), MemError>(MemError::OutOfFrames))
                &&& (r == Err::<(), MemError>(MemError::OutOfFrames) ==> old(self).frames@.len() + 2
                    * np + 2 > FRAME_CAPACITY)
                &&& (sp + np * 4096 <= VA_SPACE && old(self).frames@.len() + 2 * np + 2
                    <= FRAME_CAPACITY ==> r is Ok)
                &&& final(self).frames@.len() <= old(self).frames@.len() + 2 * np
                &&& (r is Ok ==> {
                    &&& forall|b: u64|
                        sp <= vpn_spec(b) * 4096 < sp + np * 4096 ==> #[trigger] final(self).mapped_pte(b) == Some(
                            pte_encode((USER_FRAME_BASE + vpn_spec(b) * 4096) as u64, flags.bits),
                        )
                    &&& forall|b: u64|
                        !(sp <= vpn_spec(b) * 4096 < sp + np * 4096) ==> (#[trigger] final(self).mapped_pte(b) == old(self).mapped_pte(b) || (old(self).mapped_pte(b)
                            is None && final(self).mapped_pte(b) == Some(0u64)))
                    &&& forall|p: u64|
                        sp <= p < sp + np * 4096 && p % 4096 == 0 ==> #[trigger] final(self).data_view().contains_key(p) && final(self).data_view()[p] == page_bytes(
                            src@,
                            (p - sp) / 4096,
                        )
                    &&& forall|p: u64|
                        !(sp <= p < sp + np * 4096) ==> (#[trigger] final(self).data_view(
                        ).contains_key(p) == old(self).data_view().contains_key(p)) && (old(self).data_view().contains_key(p) ==> final(self).data_view()[p] == old(self).data_view()[p])
                })
            }),
    {
        let ghost o = *self;
        let page0: u64 = vaddr / 4096 * 4096;
        proof {
            assert(page0 % 4096 == 0 && page0 <= vaddr) by (nonlinear_arith)
                requires
                    page0 == vaddr as int / 4096 * 4096,
            ;
        }
        let npages_wide: u128 = (memsz as u128 + 4095) / 4096;
        if (page0 as u128) + npages_wide * 4096 > VA_SPACE as u128 {
            return Err(MemError::AddressOverflow);
        }
        let npages: u64 = npages_wide as u64;
        proof {
            assert(npages == (memsz + 4095) as int / 4096);
            assert(page0 + npages * 4096 <= VA_SPACE);
        }
        let ghost sp = page0 as int;
        let ghost np = npages as int;
        let mut k: u64 = 0;
        while k < npages
            invariant
                o == *old(self),
                self.wf(),
                self.base == o.base,
                o.wf(),
                k <= npages,
                page0 % 4096 == 0,
                sp == page0 as int,
                np == npages as int,
                sp == vaddr as int / 4096 * 4096,
                np == (memsz + 4095) as int / 4096,
                page0 + npages * 4096 <= VA_SPACE,
                self.frames@.len() <= o.frames@.len() + 2 * k,
                forall|b: u64|
                    sp <= vpn_spec(b) * 4096 < sp + k * 4096 ==> #[trigger] self.mapped_pte(b)
                        == Some(
                        pte_encode((USER_FRAME_BASE + vpn_spec(b) * 4096) as u64, flags.bits),
                    ),
                forall|b: u64|
                    !(sp <= vpn_spec(b) * 4096 < sp + k * 4096) ==> (#[trigger] self.mapped_pte(b)
                        == o.mapped_pte(b) || (o.mapped_pte(b) is None && self.mapped_pte(b)
                        == Some(0u64))),
                forall|p: u64|
                    sp <= p < sp + k * 4096 && p % 4096 == 0 ==> #[trigger] self.data_view(
                    ).contains_key(p) && self.data_view()[p] == page_bytes(src@, (p - sp) / 4096),
                forall|p: u64|
                    !(sp <= p < sp + k * 4096) ==> (#[trigger] self.data_view().contains_key(p)
                        == o.data_view().contains_key(p)) && (o.data_view().contains_key(p)
                        ==> self.data_view()[p] == o.data_view()[p]),
            decreases npages - k,
        {
            if self.frames.len() + 2 > FRAME_CAPACITY as usize {
                proof {
                    assert(sp + np * 4096 <= VA_SPACE);
                    assert(*old(self) == o);
                    assert(o.frames@.len() + 2 * np + 2 > FRAME_CAPACITY) by {
                        assert(self.frames@.len() + 2 > FRAME_CAPACITY);
                        assert(self.frames@.len() <= o.frames@.len() + 2 * k);
                        assert(k + 1 <= np);
                    }
                }
                return Err(MemError::OutOfFrames);
            }
            let page: u64 = page0 + k * 4096;
            proof {
                assert(page % 4096 == 0) by (nonlinear_arith)
                    requires
                        page0 % 4096 == 0,
                        page == page0 + k * 4096,
                ;
                assert(page + 4096 <= VA_SPACE) by (nonlinear_arith)
                    requires
                        page == page0 + k * 4096,
                        k < npages,
                        page0 + npages * 4096 <= VA_SPACE,
                ;
                lemma_vpn_identity(page);
            }
            // fill this page's backing frame from the covering file bytes
            let mut pg = Page::zeroed();
            let start: u64 = k * 4096;
            let mut j: usize = 0;
            while j < 4096 && start + (j as u64) < src.len() as u64
                invariant
                    j <= 4096,
                    pg.bytes@.len() == 4096,
                    start == k * 4096,
                    start + 4096 <= u64::MAX,
                    j <= 4096 && (j == 0 || start + j <= src@.len()),
                    forall|jj: int| 0 <= jj < j ==> pg.bytes@[jj] == src@[start + jj],
                    forall|jj: int| j <= jj < 4096 ==> pg.bytes@[jj] == 0,
                decreases 4096 - j,
            {
                let idx: u64 = start + (j as u64);
                pg.bytes[j] = src[idx as usize];
                j = j + 1;
            }
            proof {
                lemma_page_bytes_filled(pg.bytes@, src@, k as int, j as int);
            }
            let ghost pre = *self;
            let pa: u64 = USER_FRAME_BASE + page;
            let pte = PageTableEntry::new(PhysicalAddress { address: pa }, flags);
            match self.map_page(VirtualAddress { address: page }, pte) {
                Ok(()) => {},
                Err(_) => {
                    proof {
                        assert(false);
                    }
                },
            }
            let ghost mid = *self;
            self.data_pages.insert(page, pg);
            proof {
                assert(self.data_pages@ == mid.data_pages@.insert(page, pg));
                assert(self.frames@ == mid.frames@ && self.base == mid.base);
                crate::table::lemma_insert_data_page(mid, *self, page, pg);
                assert(mid.data_pages@ == pre.data_pages@);
                assert(mid.data_view() == pre.data_view());
                lemma_map_segment_step(
                    o,
                    pre,
                    mid,
                    *self,
                    sp,
                    k as int,
                    page,
                    pte.bits,
                    flags.bits,
                    src@,
                    pg.bytes@,
                );
            }
            k = k + 1;
        }
        Ok(())
    }

    /// Loads a 64-bit ELF image into this address space: checks the magic
    /// bytes and the program-header table, maps every loadable segment
    /// with permissions derived from its flags plus the user bit, copies
    /// its file bytes in (the rest of each segment stays zero), and maps
    /// the fixed zero-filled user stack immediately below the user entry
    /// address. A malformed image or frame exhaustion is reported as an
    /// error instead of halting.
    #[verifier::rlimit(100)]
    pub fn map_elf(&mut self, elf_data: &[u8]) -> (r: Result<(), MemError>)
        requires
            old(self).wf(),
        ensures
            final(self).wf(),
            final(self).base == old(self).base,
            (r == Err::<(), MemError>(MemError::ElfTooShort)) <==> elf_data@.len() < 64,
            r == Err::<(), MemError>(MemError::ElfTooShort) ==> *final(self) == *old(self),
            (r == Err::<(), MemError>(MemError::BadMagic)) <==> (elf_data@.len() >= 64
                && !elf_magic_ok(elf_data@)),
            r == Err::<(), MemError>(MemError::BadMagic) ==> *final(self) == *old(self),
            r == Err::<(), MemError>(MemError::BadProgramHeader) ==> !elf_headers_ok(elf_data@),
            r == Err::<(), MemError>(MemError::AddressOverflow) ==> !elf_ranges_ok(elf_data@),
            r == Err::<(), MemError>(MemError::OutOfFrames) ==> !elf_fits(
                elf_data@,
                old(self).frames@.len() as int,
            ),
            (elf_headers_ok(elf_data@) && elf_ranges_ok(elf_data@) && elf_fits(
                elf_data@,
                old(self).frames@.len() as int,
            )) ==> r is Ok,
            r is Ok ==> elf_headers_ok(elf_data@),
            r is Ok ==> user_stack_mapped(*final(self)),
            r is Ok ==> forall|i: int|
                0 <= i < ph_count_s(elf_data@) && #[trigger] is_load(elf_data@, i)
                    && seg_undisturbed(elf_data@, i) ==> seg_mapped(*final(self), elf_data@, i),
            r is Ok ==> forall|b: u64|
                !elf_covers(elf_data@, b) && !(USER_APP_START - USER_STACK_SIZE <= vpn_spec(b)
                    * 4096 < USER_APP_START) ==> (#[trigger] final(self).mapped_pte(b) == old(
                    self,
                ).mapped_pte(b) || (old(self).mapped_pte(b) is None && final(self).mapped_pte(b)
                    == Some(0u64))),
    {
        let ghost d = elf_data@;
        let ghost o = *self;
        if elf_data.len() < 64 {
            return Err(MemError::ElfTooShort);
        }
        if !(elf_data[0] == 0x7f && elf_data[1] == 0x45 && elf_data[2] == 0x4c && elf_data[3]
            == 0x46) {
            return Err(MemError::BadMagic);
        }
        let ph_off = read_u64(elf_data, 0x20);
        let ph_entsize = read_u16(elf_data, 0x36);
        let ph_count = read_u16(elf_data, 0x38);
        if ph_entsize != 56 {
            proof {
                assert(!elf_headers_ok(d));
            }
            return Err(MemError::BadProgramHeader);
        }
        let n = elf_data.len();
        if (ph_off as u128) + (ph_count as u128) * 56 > n as u128 {
            proof {
                assert(!elf_headers_ok(d));
            }
            return Err(MemError::BadProgramHeader);
        }
        let count = ph_count;
        let mut i: u64 = 0;
        while i < count
            invariant
                o == *old(self),
                self.wf(),
                self.base == o.base,
                o.wf(),
                i <= count,
                d == elf_data@,
                n == d.len(),
                d.len() >= 64,
                elf_magic_ok(d),
                ph_off == ph_off_s(d),
                count == ph_count_s(d),
                ph_entsize_s(d) == 56,
                ph_off + count * 56 <= d.len(),
                self.frames@.len() <= o.frames@.len() + 2 * total_pages(d, i as int),
                forall|ii: int|
                    0 <= ii < i && #[trigger] is_load(d, ii) ==> ph_offset_s(d, ii) + ph_filesz_s(
                        d,
                        ii,
                    ) <= d.len(),
                forall|ii: int|
                    0 <= ii < i && #[trigger] is_load(d, ii) ==> seg_pend(d, ii) <= VA_SPACE,
                forall|ii: int|
                    0 <= ii < i && #[trigger] is_load(d, ii) && seg_undisturbed(d, ii)
                        ==> seg_mapped(*self, d, ii),
                forall|b: u64|
                    (forall|ii: int| 0 <= ii < i ==> !(#[trigger] seg_covers(d, ii, b))) ==> (
                    #[trigger] self.mapped_pte(b) == o.mapped_pte(b) || (o.mapped_pte(b) is None
                        && self.mapped_pte(b) == Some(0u64))),
            decreases count - i,
        {
            proof {
                assert((i + 1) * 56 <= count * 56);
                assert(ph_off + (i + 1) * 56 <= n as u64);
                lemma_total_pages_mono(d, 0, i as int);
                lemma_total_pages_nonneg(d, i as int);
            }
            let pb_w: u64 = ph_off + i * 56;
            let pb: usize = pb_w as usize;
            proof {
                assert(pb == ph_base(d, i as int));
                assert(pb + 56 <= d.len());
            }
            let ptype = read_u32(elf_data, pb);
            if ptype == 1 {
                let pflags = read_u32(elf_data, pb + 4);
                let poff = read_u64(elf_data, pb + 8);
                let pvaddr = read_u64(elf_data, pb + 16);
                let pfilesz = read_u64(elf_data, pb + 32);
                let pmemsz = read_u64(elf_data, pb + 40);
                proof {
                    assert(is_load(d, i as int));
                    assert(pflags == ph_flags_s(d, i as int));
                    assert(poff == ph_offset_s(d, i as int));
                    assert(pvaddr == ph_vaddr_s(d, i as int));
                    assert(pfilesz == ph_filesz_s(d, i as int));
                    assert(pmemsz == ph_memsz_s(d, i as int));
                }
                if (poff as u128) + (pfilesz as u128) > elf_data.len() as u128 {
                    proof {
                        assert(!elf_headers_ok(d));
                    }
                    return Err(MemError::BadProgramHeader);
                }
                let src = &elf_data[poff as usize..(poff + pfilesz) as usize];
                proof {
                    assert(src@ == seg_file_bytes(d, i as int));
                }
                let mut fl: u8 = 17;
                if (pflags / 4) % 2 == 1 {
                    fl = fl + 2;
                }
                if (pflags / 2) % 2 == 1 {
                    fl = fl + 4;
                }
                if pflags % 2 == 1 {
                    fl = fl + 8;
                }
                proof {
                    assert(fl == segment_flags(ph_flags_s(d, i as int)));
                }
                let ghost pre = *self;
                let res = self.map_segment(pvaddr, pmemsz, PTEFlags::from_bits(fl), src);
                proof {
                    assert(seg_pstart(d, i as int) == pvaddr as int / 4096 * 4096);
                    assert(seg_pend(d, i as int) == seg_pstart(d, i as int) + ((pmemsz
                        + 4095) as int / 4096) * 4096);
                }
                match res {
                    Ok(()) => {},
                    Err(e) => {
                        proof {
                            let np = (pmemsz + 4095) as int / 4096;
                            if e == MemError::AddressOverflow {
                                assert(seg_pend(d, i as int) > VA_SPACE);
                                assert(!elf_ranges_ok(d));
                            } else {
                                assert(e == MemError::OutOfFrames);
                                assert(pre.frames@.len() + 2 * np + 2 > FRAME_CAPACITY);
                                lemma_total_pages_mono(d, i as int + 1, count as int);
                                assert(total_pages(d, i as int + 1) == total_pages(d, i as int)
                                    + np);
                                assert(!elf_fits(d, o.frames@.len() as int));
                            }
                        }
                        return Err(e);
                    },
                }
                proof {
                    let np = (pmemsz + 4095) as int / 4096;
                    lemma_total_pages_mono(d, i as int + 1, count as int);
                    assert(total_pages(d, i as int + 1) == total_pages(d, i as int) + np);
                    lemma_segments_advance(
                        pre,
                        *self,
                        d,
                        i as int,
                        pvaddr as int / 4096 * 4096,
                        np,
                        fl,
                        src@,
                    );
                    lemma_untouched_advance(
                        o,
                        pre,
                        *self,
                        d,
                        i as int,
                        pvaddr as int / 4096 * 4096,
                        np,
                    );
                }
            }
            i = i + 1;
        }
        // the user stack, mapped last: read+write+user, zero-filled
        let ghost pre_stack = *self;
        let empty_src = &elf_data[0..0];
        let res = self.map_segment(
            USER_APP_START - USER_STACK_SIZE,
            USER_STACK_SIZE,
            PTEFlags::from_bits(USER_STACK_FLAGS),
            empty_src,
        );
        match res {
            Ok(()) => {},
            Err(e) => {
                proof {
                    assert((USER_APP_START - USER_STACK_SIZE) as int / 4096 * 4096 == 0xF000);
                    assert((USER_STACK_SIZE + 4095) as int / 4096 == 1);
                    assert(e == MemError::OutOfFrames);
                    assert(pre_stack.frames@.len() + 4 > FRAME_CAPACITY);
                    lemma_total_pages_mono(d, count as int, count as int);
                    assert(!elf_fits(d, o.frames@.len() as int));
                }
                return Err(e);
            },
        }
        proof {
            assert(user_stack_mapped(*self)) by {
                assert((USER_APP_START - USER_STACK_SIZE) as int / 4096 * 4096 == 0xF000);
                assert((USER_STACK_SIZE + 4095) as int / 4096 == 1);
                assert(empty_src@ =~= Seq::<u8>::empty());
                assert forall|b: u64|
                    USER_APP_START - USER_STACK_SIZE <= vpn_spec(b) * 4096
                        < USER_APP_START implies #[trigger] self.mapped_pte(b) == Some(
                    pte_encode((USER_FRAME_BASE + vpn_spec(b) * 4096) as u64, USER_STACK_FLAGS),
                ) by {}
                assert forall|p: u64|
                    USER_APP_START - USER_STACK_SIZE <= p < USER_APP_START && p % 4096
                        == 0 implies #[trigger] self.data_view().contains_key(p) && self.data_view(
                )[p] == page_bytes(Seq::<u8>::empty(), 0) by {
                    assert(self.data_view().contains_key(p));
                    assert(self.data_view()[p] == page_bytes(empty_src@, (p - 0xF000) / 4096));
                    assert(page_bytes(empty_src@, (p - 0xF000) / 4096) =~= page_bytes(
                        Seq::<u8>::empty(),
                        0,
                    ));
                }
            }
            assert((USER_APP_START - USER_STACK_SIZE) as int / 4096 * 4096 == 0xF000);
            assert((USER_STACK_SIZE + 4095) as int / 4096 == 1);
            lemma_segments_after_stack(pre_stack, *self, d);
            assert forall|b: u64|
                !elf_covers(d, b) && !(USER_APP_START - USER_STACK_SIZE <= vpn_spec(b) * 4096
                    < USER_APP_START) implies (#[trigger] self.mapped_pte(b) == o.mapped_pte(b) || (
            o.mapped_pte(b) is None && self.mapped_pte(b) == Some(0u64))) by {
                assert forall|ii: int| 0 <= ii < count implies !(#[trigger] seg_covers(
                    d,
                    ii,
                    b,
                )) by {
                    if seg_covers(d, ii, b) {
                        assert(elf_covers(d, b));
                    }
                }
                assert(pre_stack.mapped_pte(b) == o.mapped_pte(b) || (o.mapped_pte(b) is None
                    && pre_stack.mapped_pte(b) == Some(0u64)));
                assert(!(0xF000 <= vpn_spec(b) * 4096 < 0x10000));
                assert(self.mapped_pte(b) == pre_stack.mapped_pte(b) || (pre_stack.mapped_pte(b)
                    is None && self.mapped_pte(b) == Some(0u64)));
            }
        }
        Ok(())
    }

    /// An independent user address space, built once per loaded program:
    /// a fresh empty table whose arena starts at `base`.
    pub fn init_elf_space(base: u64) -> (r: Self)
        requires
            base % 4096 == 0,
            0 < base,
            base + FRAME_CAPACITY * 4096 <= USER_FRAME_BASE,
        ensures
            r.wf(),
            r.base == base,
            r.frames@.len() == 1,
            r.data_view() == Map::<u64, Seq<u8>>::empty(),
            forall|a: u64| #[trigger] r.mapped_pte(a) is None,
    {
        PageTable::init(base)
    }

    /// Reads one byte out of the data frame this table owns for virtual
    /// page `page`, if it owns one and the offset is inside the frame.
    pub fn data_page_byte(&self, page: u64, offset: usize) -> (r: Option<u8>)
        requires
            self.wf(),
        ensures
            (r is Some) == (self.data_view().contains_key(page) && offset < 4096),
            r is Some ==> r->Some_0 == self.data_view()[page][offset as int],
    {
        if offset >= 4096 {
            return None;
        }
        match self.data_pages.get(&page) {
            Some(pg) => {
                proof {
                    assert(self.data_pages@.contains_key(page));
                    assert(self.data_view()[page] == pg.bytes@);
                }
                Some(pg.bytes[offset])
            },
            None => {
                proof {
                    assert(!self.data_pages@.contains_key(page));
                }
                None
            },
        }
    }
}

} // verus!

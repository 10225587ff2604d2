//! The three-level page table: an arena of owned table frames rooted at
//! frame 0, a map of owned data pages keyed by virtual page, the walk and
//! walk/create primitives every mapping operation builds on, and the
//! encoding of the paging-control register value.

use vstd::prelude::*;
use std::collections::BTreeMap;
use crate::VirtualAddress;
use crate::addr::PhysicalAddress;
use crate::addr::idx0_spec;
use crate::addr::idx1_spec;
use crate::addr::idx2_spec;
use crate::addr::vpn_spec;
use crate::addr::lemma_indexes_injective;
use crate::config::PA_LIMIT;
use crate::frame::Frame;
use crate::frame::Page;
use crate::pte::PTEFlags;
use crate::pte::PTE_V;
use crate::pte::PageTableEntry;
use crate::pte::pte_encode;
use crate::pte::pte_valid;
use crate::pte::lemma_pte_roundtrip;

verus! {

broadcast use vstd::std_specs::btree::group_btree_axioms, vstd::laws_cmp::group_laws_cmp;

/// Most table frames a single table may own; chosen so the whole frame
/// arena stays below the window reserved for data frames.
pub const FRAME_CAPACITY: u64 = 0x100000;

/// Base of the model physical window holding data frames, above every
/// frame arena: the frame backing virtual page `p` sits at
/// `USER_FRAME_BASE + p`.
pub const USER_FRAME_BASE: u64 = 0x10000000000;

/// Mode field of the paging-control register value selecting three-level
/// translation, already shifted into the top bits.
pub const SATP_MODE: u64 = 0x8000000000000000;

/// The error a mapping operation reports instead of halting.
#[derive(Clone, Copy, PartialEq, Eq, Structural, Debug)]
pub enum MemError {
    /// The frame arena cannot take the intermediate frames another mapping
    /// might need.
    OutOfFrames,
    /// The image is too short to hold the header it claims.
    ElfTooShort,
    /// The image does not begin with the four required magic bytes.
    BadMagic,
    /// A program header lies outside the image or has an unusable size.
    BadProgramHeader,
    /// A segment's virtual range leaves the 39-bit address space.
    AddressOverflow,
}

/// The aggregate root: owns the root frame (index 0 of `frames`), every
/// intermediate frame the walk has created, and every data frame it has
/// mapped.
pub struct PageTable {
    /// Physical address of the root frame; frame `i` of the arena sits at
    /// `base + i * 4096`.
    pub base: u64,
    /// The frame arena: root first, then intermediate and leaf-level table
    /// frames in allocation order.
    pub frames: Vec<Frame>,
    /// Owned data frames, keyed by the virtual page they back.
    pub data_pages: BTreeMap<u64, Page>,
}

/// The paging-control register value that installs a table whose root frame
/// sits at `root_pa`: the mode field in the top bits, the root frame number
/// in the low bits.
pub open spec fn satp_of(root_pa: u64) -> u64 {
    (SATP_MODE + root_pa as int / 4096) as u64
}

/// What table `t` translates page `b` to after `pte_bits` is written into
/// the leaf slot for address `a`'s page: `a`'s page gets the new entry,
/// pages whose walk already reached a slot keep theirs, pages sharing the
/// freshly walked path become reachable with a not-present (all-zero)
/// entry, and all others stay unreachable.
pub open spec fn map_page_result(t: PageTable, a: u64, pte_bits: u64, b: u64) -> Option<u64> {
    if vpn_spec(b) == vpn_spec(a) {
        Some(pte_bits)
    } else if t.path_exists(b) {
        t.mapped_pte(b)
    } else if idx0_spec(b) == idx0_spec(a) && idx1_spec(b) == idx1_spec(a) {
        Some(0u64)
    } else {
        None
    }
}

impl PageTable {
    /// The entry word at slot `i` of frame `j`.
    pub open spec fn entry_at(self, j: int, i: int) -> u64 {
        self.frames@[j].entries@[i]
    }

    /// Whether the entry at slot `i` of frame `j` is present.
    pub open spec fn valid_at(self, j: int, i: int) -> bool {
        pte_valid(self.entry_at(j, i))
    }

    /// The arena index of the frame a present inner entry points at.
    pub open spec fn child_of(self, j: int, i: int) -> int {
        self.entry_at(j, i) as int / 1024 - self.base as int / 4096
    }

    /// A present inner entry points at a frame this table owns, other than
    /// the root, and carries exactly the present flag.
    pub open spec fn inter_entry_ok(self, j: int, i: int) -> bool {
        &&& 1 <= self.child_of(j, i) < self.frames@.len()
        &&& self.entry_at(j, i) == pte_encode((self.base + self.child_of(j, i) * 4096) as u64, PTE_V)
    }

    /// The root frame's address and the arena bound are in place.
    pub open spec fn base_wf(self) -> bool {
        &&& self.base % 4096 == 0
        &&& 0 < self.base
        &&& self.base + FRAME_CAPACITY * 4096 <= USER_FRAME_BASE
    }

    /// Every owned frame has its 512 entry slots and the arena is bounded.
    pub open spec fn frames_wf(self) -> bool {
        &&& 1 <= self.frames@.len() <= FRAME_CAPACITY
        &&& forall|j: int| 0 <= j < self.frames@.len() ==> (#[trigger] self.frames@[j]).wf()
    }

    /// Every present root entry is a well-formed pointer to an owned frame.
    pub open spec fn root_ok(self) -> bool {
        forall|i: int| 0 <= i < 512 && #[trigger] self.valid_at(0, i) ==> self.inter_entry_ok(0, i)
    }

    /// Every present entry of a middle-level frame is a well-formed pointer
    /// to an owned frame.
    pub open spec fn l1_ok(self) -> bool {
        forall|i0: int, i1: int|
            0 <= i0 < 512 && 0 <= i1 < 512 && self.valid_at(0, i0) && #[trigger] self.valid_at(
                self.child_of(0, i0),
                i1,
            ) ==> self.inter_entry_ok(self.child_of(0, i0), i1)
    }

    /// Distinct present root entries point at distinct frames.
    pub open spec fn distinct0(self) -> bool {
        forall|i: int, j: int|
            0 <= i < 512 && 0 <= j < 512 && i != j && #[trigger] self.valid_at(0, i)
                && #[trigger] self.valid_at(0, j) ==> self.child_of(0, i) != self.child_of(0, j)
    }

    /// Present entries of middle-level frames point at globally distinct
    /// frames: no leaf-level frame has two parents.
    pub open spec fn distinct1(self) -> bool {
        forall|i0: int, i1: int, j0: int, j1: int|
            0 <= i0 < 512 && 0 <= i1 < 512 && 0 <= j0 < 512 && 0 <= j1 < 512 && self.valid_at(0, i0)
                && self.valid_at(0, j0) && #[trigger] self.valid_at(self.child_of(0, i0), i1)
                && #[trigger] self.valid_at(self.child_of(0, j0), j1) && (i0 != j0 || i1 != j1)
                ==> self.child_of(self.child_of(0, i0), i1) != self.child_of(
                self.child_of(0, j0),
                j1,
            )
    }

    /// No frame serves both as a middle-level frame and as a leaf-level
    /// frame.
    pub open spec fn cross_distinct(self) -> bool {
        forall|i: int, j0: int, j1: int|
            0 <= i < 512 && 0 <= j0 < 512 && 0 <= j1 < 512 && #[trigger] self.valid_at(0, i)
                && self.valid_at(0, j0) && #[trigger] self.valid_at(self.child_of(0, j0), j1)
                ==> self.child_of(0, i) != self.child_of(self.child_of(0, j0), j1)
    }

    /// Every owned data page holds a full frame of bytes.
    pub open spec fn data_wf(self) -> bool {
        forall|k: u64| #[trigger] self.data_pages@.contains_key(k) ==> self.data_pages@[k].wf()
    }

    /// The table invariant: every entry reachable from the root with the
    /// present bit set points at a frame this table owns, the tree is a
    /// tree (no sharing between levels or siblings), and every owned frame
    /// is full-sized.
    pub open spec fn wf(self) -> bool {
        &&& self.base_wf()
        &&& self.frames_wf()
        &&& self.root_ok()
        &&& self.l1_ok()
        &&& self.distinct0()
        &&& self.distinct1()
        &&& self.cross_distinct()
        &&& self.data_wf()
    }

    /// Whether the walk for index pair `(i0, i1)` reaches a leaf-level
    /// frame without hitting a missing entry.
    pub open spec fn tpath_exists(self, i0: int, i1: int) -> bool {
        self.valid_at(0, i0) && self.valid_at(self.child_of(0, i0), i1)
    }

    /// The leaf entry word the walk for index triple `(i0, i1, i2)` ends
    /// at; meaningful only when the path exists.
    pub open spec fn tleaf(self, i0: int, i1: int, i2: int) -> u64 {
        self.entry_at(self.child_of(self.child_of(0, i0), i1), i2)
    }

    /// Whether the walk for address `a` reaches a leaf slot.
    pub open spec fn path_exists(self, a: u64) -> bool {
        self.tpath_exists(idx0_spec(a), idx1_spec(a))
    }

    /// The translation this table holds for address `a`: the leaf entry
    /// word when the walk reaches a slot, nothing otherwise.
    pub open spec fn mapped_pte(self, a: u64) -> Option<u64> {
        if self.path_exists(a) {
            Some(self.tleaf(idx0_spec(a), idx1_spec(a), idx2_spec(a)))
        } else {
            None
        }
    }

    /// Whether `a`'s page is mapped by exactly the entry word `bits`.
    pub open spec fn maps_to(self, a: u64, bits: u64) -> bool {
        self.mapped_pte(a) == Some(bits)
    }

    /// The contents of the owned data pages, keyed by virtual page.
    pub open spec fn data_view(self) -> Map<u64, Seq<u8>> {
        self.data_pages@.map_values(|p: Page| p.bytes@)
    }

    /// A fresh table: one zeroed root frame, no data pages, no mappings.
    pub fn init(base: u64) -> (r: Self)
        requires
            base % 4096 == 0,
            0 < base,
            base + FRAME_CAPACITY * 4096 <= USER_FRAME_BASE,
        ensures
            r.wf(),
            r.base == base,
            r.frames@.len() == 1,
            r.data_view() == Map::<u64, Seq<u8>>::empty(),
            forall|a: u64| #[trigger] r.mapped_pte(a) is None,
    {
        let mut frames: Vec<Frame> = Vec::new();
        frames.push(Frame::zeroed());
        let r = PageTable { base, frames, data_pages: BTreeMap::new() };
        proof {
            assert forall|i: int| 0 <= i < 512 implies !r.valid_at(0, i) by {
                assert(r.entry_at(0, i) == 0);
            }
            assert(r.data_view() =~= Map::<u64, Seq<u8>>::empty());
        }
        r
    }

    /// Decodes the inner entry at slot `i` of frame `j` into the arena
    /// index of the frame it points at.
    fn child_index(&self, j: usize, i: usize) -> (c: usize)
        requires
            self.wf(),
            j < self.frames@.len(),
            i < 512,
            self.inter_entry_ok(j as int, i as int),
        ensures
            c == self.child_of(j as int, i as int),
            1 <= c < self.frames@.len(),
    {
        let bits = self.frames[j].entries[i];
        proof {
            lemma_inter_decode(self.base, self.child_of(j as int, i as int));
        }
        (bits / 1024 - self.base / 4096) as usize
    }

    /// Walk-only lookup: follows the three indices of `virtual_address` and
    /// returns a copy of the leaf entry, or nothing as soon as a missing
    /// inner entry is hit. Never allocates; used for diagnosis.
    pub fn find_pte(&self, virtual_address: VirtualAddress) -> (r: Option<PageTableEntry>)
        requires
            self.wf(),
        ensures
            (r is Some) == self.path_exists(virtual_address.address),
            r is Some ==> self.mapped_pte(virtual_address.address) == Some(r->Some_0.bits),
    {
        let ghost a = virtual_address.address;
        let idxs = virtual_address.indexes();
        let e0 = self.frames[0].entries[idxs[0]];
        if e0 % 2 != 1 {
            return None;
        }
        proof {
            assert(self.valid_at(0, idx0_spec(a)));
        }
        let c0 = self.child_index(0, idxs[0]);
        let e1 = self.frames[c0].entries[idxs[1]];
        if e1 % 2 != 1 {
            return None;
        }
        proof {
            assert(self.valid_at(self.child_of(0, idx0_spec(a)), idx1_spec(a)));
        }
        let c1 = self.child_index(c0, idxs[1]);
        let bits = self.frames[c1].entries[idxs[2]];
        Some(PageTableEntry { bits })
    }

    /// Fetches the arena index of the frame the root entry at `i0` points
    /// at, allocating a fresh zeroed frame (recorded as owned before the
    /// entry is written) when the entry is not present.
    fn get_or_create_root_child(&mut self, i0: usize) -> (c: usize)
        requires
            old(self).wf(),
            i0 < 512,
            old(self).frames@.len() + 1 <= FRAME_CAPACITY,
        ensures
            final(self).wf(),
            final(self).base == old(self).base,
            final(self).data_pages@ == old(self).data_pages@,
            final(self).valid_at(0, i0 as int),
            c == final(self).child_of(0, i0 as int),
            c < final(self).frames@.len(),
            old(self).frames@.len() <= final(self).frames@.len() <= old(self).frames@.len() + 1,
            forall|i: int|
                0 <= i < 512 && i != i0 ==> final(self).entry_at(0, i) == old(self).entry_at(0, i),
            forall|j: int, i: int|
                1 <= j < old(self).frames@.len() && 0 <= i < 512 ==> #[trigger] final(self).entry_at(j, i) == old(self).entry_at(j, i),
            forall|j: int, i: int|
                old(self).frames@.len() <= j < final(self).frames@.len() && 0 <= i < 512
                    ==> #[trigger] final(self).entry_at(j, i) == 0,
            old(self).valid_at(0, i0 as int) ==> *final(self) == *old(self),
            !old(self).valid_at(0, i0 as int) ==> final(self).frames@.len() == old(self).frames@.len() + 1 && c == old(self).frames@.len(),
    {
        let e0 = self.frames[0].entries[i0];
        if e0 % 2 == 1 {
            proof {
                assert(self.valid_at(0, i0 as int));
            }
            let c = self.child_index(0, i0);
            return c;
        }
        let ghost prev = *self;
        let j = self.frames.len();
        self.frames.push(Frame::zeroed());
        proof {
            assert((self.base + (j as u64) * 4096) % 4096 == 0 && self.base + (j as u64) * 4096
                < PA_LIMIT) by (nonlinear_arith)
                requires
                    self.base % 4096 == 0,
                    self.base + FRAME_CAPACITY * 4096 <= USER_FRAME_BASE,
                    (j as u64) < FRAME_CAPACITY,
                    FRAME_CAPACITY == 0x100000,
                    USER_FRAME_BASE == 0x10000000000,
                    PA_LIMIT == 0x40000000000,
            ;
        }
        let pa = PhysicalAddress { address: self.base + (j as u64) * 4096 };
        let entry = PageTableEntry::new(pa, PTEFlags::from_bits(PTE_V));
        self.frames[0].entries[i0] = entry.bits;
        proof {
            lemma_inter_decode(prev.base, j as int);
            let s = *self;
            assert forall|i: int| 0 <= i < 512 && #[trigger] s.valid_at(0, i) implies s
                .inter_entry_ok(0, i) by {
                if i != i0 {
                    assert(prev.valid_at(0, i));
                }
            }
            assert forall|i0x: int, i1: int|
                0 <= i0x < 512 && 0 <= i1 < 512 && s.valid_at(0, i0x) && #[trigger] s.valid_at(
                    s.child_of(0, i0x),
                    i1,
                ) implies s.inter_entry_ok(s.child_of(0, i0x), i1) by {
                if i0x == i0 {
                    assert(s.entry_at(j as int, i1) == 0);
                } else {
                    assert(prev.valid_at(0, i0x));
                    assert(prev.valid_at(prev.child_of(0, i0x), i1));
                    assert(prev.inter_entry_ok(prev.child_of(0, i0x), i1));
                }
            }
            assert forall|i: int, jx: int|
                0 <= i < 512 && 0 <= jx < 512 && i != jx && #[trigger] s.valid_at(0, i)
                    && #[trigger] s.valid_at(0, jx) implies s.child_of(0, i) != s.child_of(
                0,
                jx,
            ) by {
                if i != i0 && jx != i0 {
                    assert(prev.valid_at(0, i) && prev.valid_at(0, jx));
                } else if i == i0 {
                    assert(prev.valid_at(0, jx));
                    assert(prev.inter_entry_ok(0, jx));
                } else {
                    assert(prev.valid_at(0, i));
                    assert(prev.inter_entry_ok(0, i));
                }
            }
            assert forall|a0: int, a1: int, b0: int, b1: int|
                0 <= a0 < 512 && 0 <= a1 < 512 && 0 <= b0 < 512 && 0 <= b1 < 512 && s.valid_at(
                    0,
                    a0,
                ) && s.valid_at(0, b0) && #[trigger] s.valid_at(s.child_of(0, a0), a1)
                    && #[trigger] s.valid_at(s.child_of(0, b0), b1) && (a0 != b0 || a1 != b1)
                 implies s.child_of(s.child_of(0, a0), a1) != s.child_of(s.child_of(0, b0), b1) by {
                assert(a0 != i0) by {
                    if a0 == i0 {
                        assert(s.entry_at(j as int, a1) == 0);
                    }
                }
                assert(b0 != i0) by {
                    if b0 == i0 {
                        assert(s.entry_at(j as int, b1) == 0);
                    }
                }
                assert(prev.valid_at(0, a0) && prev.valid_at(0, b0));
                assert(prev.valid_at(prev.child_of(0, a0), a1));
                assert(prev.valid_at(prev.child_of(0, b0), b1));
            }
            assert forall|i: int, b0: int, b1: int|
                0 <= i < 512 && 0 <= b0 < 512 && 0 <= b1 < 512 && #[trigger] s.valid_at(0, i) && s
                    .valid_at(0, b0) && #[trigger] s.valid_at(s.child_of(0, b0), b1) implies s
                .child_of(0, i) != s.child_of(s.child_of(0, b0), b1) by {
                assert(b0 != i0) by {
                    if b0 == i0 {
                        assert(s.entry_at(j as int, b1) == 0);
                    }
                }
                assert(prev.valid_at(0, b0));
                assert(prev.valid_at(prev.child_of(0, b0), b1));
                assert(prev.inter_entry_ok(prev.child_of(0, b0), b1));
                if i != i0 {
                    assert(prev.valid_at(0, i));
                    assert(prev.inter_entry_ok(0, i));
                }
            }
        }
        j
    }

    /// Fetches the arena index of the frame the entry at slot `i1` of
    /// middle-level frame `c0` points at, allocating a fresh zeroed frame
    /// when the entry is not present. `i0` records which root entry owns
    /// `c0`.
    fn get_or_create_l1_child(&mut self, c0: usize, i1: usize, Ghost(i0): Ghost<int>) -> (c: usize)
        requires
            old(self).wf(),
            0 <= i0 < 512,
            i1 < 512,
            old(self).valid_at(0, i0),
            c0 == old(self).child_of(0, i0),
            old(self).frames@.len() + 1 <= FRAME_CAPACITY,
        ensures
            final(self).wf(),
            final(self).base == old(self).base,
            final(self).data_pages@ == old(self).data_pages@,
            final(self).tpath_exists(i0, i1 as int),
            c == final(self).child_of(c0 as int, i1 as int),
            c < final(self).frames@.len(),
            old(self).frames@.len() <= final(self).frames@.len() <= old(self).frames@.len() + 1,
            forall|i: int| 0 <= i < 512 ==> final(self).entry_at(0, i) == old(self).entry_at(0, i),
            forall|j: int, i: int|
                1 <= j < old(self).frames@.len() && 0 <= i < 512 && !(j == c0 && i == i1)
                    ==> #[trigger] final(self).entry_at(j, i) == old(self).entry_at(j, i),
            forall|j: int, i: int|
                old(self).frames@.len() <= j < final(self).frames@.len() && 0 <= i < 512
                    ==> #[trigger] final(self).entry_at(j, i) == 0,
            old(self).valid_at(c0 as int, i1 as int) ==> *final(self) == *old(self),
            !old(self).valid_at(c0 as int, i1 as int) ==> final(self).frames@.len() == old(self).frames@.len() + 1 && c == old(self).frames@.len(),
    {
        proof {
            assert(old(self).inter_entry_ok(0, i0));
        }
        let e1 = self.frames[c0].entries[i1];
        if e1 % 2 == 1 {
            proof {
                assert(self.valid_at(self.child_of(0, i0), i1 as int));
                assert(self.inter_entry_ok(c0 as int, i1 as int));
            }
            let c = self.child_index(c0, i1);
            return c;
        }
        let ghost prev = *self;
        let j = self.frames.len();
        self.frames.push(Frame::zeroed());
        proof {
            assert((self.base + (j as u64) * 4096) % 4096 == 0 && self.base + (j as u64) * 4096
                < PA_LIMIT) by (nonlinear_arith)
                requires
                    self.base % 4096 == 0,
                    self.base + FRAME_CAPACITY * 4096 <= USER_FRAME_BASE,
                    (j as u64) < FRAME_CAPACITY,
                    FRAME_CAPACITY == 0x100000,
                    USER_FRAME_BASE == 0x10000000000,
                    PA_LIMIT == 0x40000000000,
            ;
        }
        let pa = PhysicalAddress { address: self.base + (j as u64) * 4096 };
        let entry = PageTableEntry::new(pa, PTEFlags::from_bits(PTE_V));
        self.frames[c0].entries[i1] = entry.bits;
        proof {
            lemma_inter_decode(prev.base, j as int);
            let s = *self;
            assert forall|i: int| 0 <= i < 512 && #[trigger] s.valid_at(0, i) implies s
                .inter_entry_ok(0, i) by {
                assert(prev.valid_at(0, i));
            }
            assert forall|a0: int, a1: int|
                0 <= a0 < 512 && 0 <= a1 < 512 && s.valid_at(0, a0) && #[trigger] s.valid_at(
                    s.child_of(0, a0),
                    a1,
                ) implies s.inter_entry_ok(s.child_of(0, a0), a1) by {
                assert(prev.valid_at(0, a0));
                assert(prev.inter_entry_ok(0, a0));
                if s.child_of(0, a0) == c0 {
                    assert(a0 == i0) by {
                        if a0 != i0 {
                            assert(prev.child_of(0, a0) != prev.child_of(0, i0));
                        }
                    }
                    if a1 != i1 {
                        assert(prev.valid_at(prev.child_of(0, a0), a1));
                        assert(prev.inter_entry_ok(prev.child_of(0, a0), a1));
                    }
                } else {
                    assert(s.entry_at(s.child_of(0, a0), a1) == prev.entry_at(
                        prev.child_of(0, a0),
                        a1,
                    ));
                    assert(prev.valid_at(prev.child_of(0, a0), a1));
                    assert(prev.inter_entry_ok(prev.child_of(0, a0), a1));
                }
            }
            assert forall|i: int, jx: int|
                0 <= i < 512 && 0 <= jx < 512 && i != jx && #[trigger] s.valid_at(0, i)
                    && #[trigger] s.valid_at(0, jx) implies s.child_of(0, i) != s.child_of(
                0,
                jx,
            ) by {
                assert(prev.valid_at(0, i) && prev.valid_at(0, jx));
            }
            assert forall|a0: int, a1: int, b0: int, b1: int|
                0 <= a0 < 512 && 0 <= a1 < 512 && 0 <= b0 < 512 && 0 <= b1 < 512 && s.valid_at(
                    0,
                    a0,
                ) && s.valid_at(0, b0) && #[trigger] s.valid_at(s.child_of(0, a0), a1)
                    && #[trigger] s.valid_at(s.child_of(0, b0), b1) && (a0 != b0 || a1 != b1)
                 implies s.child_of(s.child_of(0, a0), a1) != s.child_of(s.child_of(0, b0), b1) by {
                assert(prev.valid_at(0, a0) && prev.valid_at(0, b0));
                assert(prev.inter_entry_ok(0, a0) && prev.inter_entry_ok(0, b0));
                let ca = s.child_of(0, a0);
                let cb = s.child_of(0, b0);
                if ca == c0 && a1 == i1 {
                    assert(a0 == i0) by {
                        if a0 != i0 {
                            assert(prev.child_of(0, a0) != prev.child_of(0, i0));
                        }
                    }
                    assert(s.child_of(ca, a1) == j);
                    if cb == c0 && b1 == i1 {
                        assert(b0 == i0) by {
                            if b0 != i0 {
                                assert(prev.child_of(0, b0) != prev.child_of(0, i0));
                            }
                        }
                    } else {
                        assert(prev.valid_at(prev.child_of(0, b0), b1));
                        assert(prev.inter_entry_ok(prev.child_of(0, b0), b1));
                        assert(s.child_of(cb, b1) < prev.frames@.len());
                    }
                } else if cb == c0 && b1 == i1 {
                    assert(s.child_of(cb, b1) == j);
                    assert(prev.valid_at(prev.child_of(0, a0), a1));
                    assert(prev.inter_entry_ok(prev.child_of(0, a0), a1));
                    assert(s.child_of(ca, a1) < prev.frames@.len());
                } else {
                    assert(prev.valid_at(prev.child_of(0, a0), a1));
                    assert(prev.valid_at(prev.child_of(0, b0), b1));
                }
            }
            assert forall|i: int, b0: int, b1: int|
                0 <= i < 512 && 0 <= b0 < 512 && 0 <= b1 < 512 && #[trigger] s.valid_at(0, i) && s
                    .valid_at(0, b0) && #[trigger] s.valid_at(s.child_of(0, b0), b1) implies s
                .child_of(0, i) != s.child_of(s.child_of(0, b0), b1) by {
                assert(prev.valid_at(0, i) && prev.valid_at(0, b0));
                assert(prev.inter_entry_ok(0, i) && prev.inter_entry_ok(0, b0));
                let cb = s.child_of(0, b0);
                if cb == c0 && b1 == i1 {
                    assert(s.child_of(cb, b1) == j);
                    assert(s.child_of(0, i) < prev.frames@.len());
                } else {
                    assert(prev.valid_at(prev.child_of(0, b0), b1));
                    assert(prev.inter_entry_ok(prev.child_of(0, b0), b1));
                }
            }
        }
        j
    }

    /// Walk/create primitive: follows the three indices of
    /// `virtual_address`, allocating a zeroed intermediate frame wherever
    /// the walk hits a missing entry, and returns the location (arena
    /// frame index, slot index) of the leaf entry for that address's page.
    /// The leaf entry itself is left untouched. Calling it again for the
    /// same page returns the same location and allocates nothing. Every
    /// translation the table already held is preserved, and the only path
    /// that can appear is the one walked, with an all-zero leaf frame.
    pub fn find_pte_create(&mut self, virtual_address: VirtualAddress) -> (r: Result<
        (usize, usize),
        MemError,
    >)
        requires
            old(self).wf(),
        ensures
            final(self).wf(),
            final(self).base == old(self).base,
            final(self).data_pages@ == old(self).data_pages@,
            (r is Ok) == (old(self).frames@.len() + 2 <= FRAME_CAPACITY),
            r is Err ==> *final(self) == *old(self) && r == Err::<(usize, usize), MemError>(
                MemError::OutOfFrames,
            ),
            old(self).frames@.len() <= final(self).frames@.len() <= old(self).frames@.len() + 2,
            r is Ok ==> ({
                let a = virtual_address.address;
                &&& final(self).tpath_exists(idx0_spec(a), idx1_spec(a))
                &&& r->Ok_0.0 == final(self).child_of(
                    final(self).child_of(0, idx0_spec(a)),
                    idx1_spec(a),
                )
                &&& r->Ok_0.0 < final(self).frames@.len()
                &&& r->Ok_0.1 == idx2_spec(a)
                &&& (old(self).path_exists(a) ==> *final(self) == *old(self))
                &&& forall|i0: int, i1: int|
                    0 <= i0 < 512 && 0 <= i1 < 512 && #[trigger] old(self).tpath_exists(i0, i1)
                        ==> final(self).tpath_exists(i0, i1) && final(self).child_of(
                        final(self).child_of(0, i0),
                        i1,
                    ) == old(self).child_of(old(self).child_of(0, i0), i1)
                &&& forall|i0: int, i1: int, i2: int|
                    0 <= i0 < 512 && 0 <= i1 < 512 && 0 <= i2 < 512 && old(self).tpath_exists(
                        i0,
                        i1,
                    ) ==> #[trigger] final(self).tleaf(i0, i1, i2) == old(self).tleaf(i0, i1, i2)
                &&& forall|i0: int, i1: int|
                    0 <= i0 < 512 && 0 <= i1 < 512 && #[trigger] final(self).tpath_exists(i0, i1)
                        && !old(self).tpath_exists(i0, i1) ==> i0 == idx0_spec(a) && i1 == idx1_spec(
                        a,
                    )
                &&& (!old(self).path_exists(a) ==> forall|i2: int|
                    0 <= i2 < 512 ==> #[trigger] final(self).tleaf(
                        idx0_spec(a),
                        idx1_spec(a),
                        i2,
                    ) == 0)
            }),
    {
        if self.frames.len() + 2 > FRAME_CAPACITY as usize {
            return Err(MemError::OutOfFrames);
        }
        let ghost o = *self;
        let ghost a = virtual_address.address;
        let idxs = virtual_address.indexes();
        let c0 = self.get_or_create_root_child(idxs[0]);
        let ghost m = *self;
        let c1 = self.get_or_create_l1_child(c0, idxs[1], Ghost(idx0_spec(a)));
        proof {
            let s = *self;
            let a0 = idx0_spec(a);
            let a1 = idx1_spec(a);
            // Translations that existed before are untouched.
            assert forall|i0: int, i1: int|
                0 <= i0 < 512 && 0 <= i1 < 512 && #[trigger] o.tpath_exists(i0, i1) implies s
                .tpath_exists(i0, i1) && s.child_of(s.child_of(0, i0), i1) == o.child_of(
                o.child_of(0, i0),
                i1,
            ) && (forall|i2: int|
                0 <= i2 < 512 ==> #[trigger] s.tleaf(i0, i1, i2) == o.tleaf(i0, i1, i2)) by {
                assert(o.inter_entry_ok(0, i0));
                assert(o.inter_entry_ok(o.child_of(0, i0), i1));
                if i0 == a0 {
                    // the walked root entry was already present
                    assert(m == o);
                    assert(m.child_of(0, a0) == c0);
                    if o.child_of(0, i0) == c0 && i1 == a1 {
                        assert(s == m);
                        assert forall|i2: int| 0 <= i2 < 512 implies #[trigger] s.tleaf(i0, i1, i2)
                            == o.tleaf(i0, i1, i2) by {}
                    } else {
                        assert(m.valid_at(c0 as int, a1 as int) ==> s == m);
                        let lf = o.child_of(o.child_of(0, i0), i1);
                        assert(o.cross_distinct());
                        assert(lf != c0);
                        assert forall|i2: int| 0 <= i2 < 512 implies #[trigger] s.tleaf(i0, i1, i2)
                            == o.tleaf(i0, i1, i2) by {
                            assert(s.entry_at(lf, i2) == m.entry_at(lf, i2));
                        }
                    }
                } else {
                    // a distinct root slot: its whole subtree is untouched
                    assert(m.entry_at(0, i0) == o.entry_at(0, i0));
                    assert(s.entry_at(0, i0) == m.entry_at(0, i0));
                    let cb = o.child_of(0, i0);
                    assert(m.valid_at(0, a0));
                    assert(!o.valid_at(0, a0) ==> m.child_of(0, a0) == o.frames@.len());
                    assert(o.valid_at(0, a0) ==> m == o && m.child_of(0, a0) == c0);
                    assert(cb != c0) by {
                        if o.valid_at(0, a0) {
                            assert(o.child_of(0, i0) != o.child_of(0, a0));
                        }
                    }
                    assert(s.entry_at(cb, i1) == m.entry_at(cb, i1));
                    assert(m.entry_at(cb, i1) == o.entry_at(cb, i1));
                    let lf = o.child_of(o.child_of(0, i0), i1);
                    assert(lf != c0) by {
                        assert(m.cross_distinct());
                        assert(m.valid_at(0, i0) && m.valid_at(0, a0));
                        assert(m.valid_at(m.child_of(0, i0), i1));
                        assert(m.child_of(0, a0) == c0);
                        assert(m.child_of(m.child_of(0, i0), i1) == lf);
                    }
                    assert forall|i2: int| 0 <= i2 < 512 implies #[trigger] s.tleaf(i0, i1, i2)
                        == o.tleaf(i0, i1, i2) by {
                        assert(s.entry_at(lf, i2) == m.entry_at(lf, i2));
                        assert(m.entry_at(lf, i2) == o.entry_at(lf, i2));
                    }
                }
            }
            // Only the walked path can have appeared.
            assert forall|i0: int, i1: int|
                0 <= i0 < 512 && 0 <= i1 < 512 && #[trigger] s.tpath_exists(i0, i1) && !o
                    .tpath_exists(i0, i1) implies i0 == a0 && i1 == a1 by {
                if i0 != a0 {
                    assert(s.entry_at(0, i0) == o.entry_at(0, i0));
                    assert(o.valid_at(0, i0));
                    assert(o.inter_entry_ok(0, i0));
                    let cb = o.child_of(0, i0);
                    assert(cb != c0) by {
                        if o.valid_at(0, a0) {
                            assert(m == o);
                            assert(o.child_of(0, i0) != o.child_of(0, a0));
                        } else {
                            assert(m.child_of(0, a0) == o.frames@.len());
                        }
                    }
                    assert(s.entry_at(cb, i1) == m.entry_at(cb, i1));
                    assert(m.entry_at(cb, i1) == o.entry_at(cb, i1));
                    assert(o.tpath_exists(i0, i1));
                } else {
                    if !o.valid_at(0, a0) {
                        // the middle frame is freshly zeroed: only slot a1 written
                        assert(m.child_of(0, a0) == o.frames@.len());
                        if i1 != a1 {
                            assert(m.entry_at(m.child_of(0, a0), i1) == 0);
                            assert(s.entry_at(s.child_of(0, i0), i1) == m.entry_at(
                                m.child_of(0, a0),
                                i1,
                            ));
                            assert(!s.tpath_exists(i0, i1));
                        }
                    } else {
                        assert(m == o);
                        assert(m.child_of(0, a0) == c0);
                        if i1 != a1 {
                            assert(s.entry_at(c0 as int, i1) == m.entry_at(c0 as int, i1));
                            assert(o.tpath_exists(i0, i1));
                        }
                    }
                }
            }
            // A freshly created path has an all-zero leaf frame.
            if !o.path_exists(a) {
                assert(!m.valid_at(c0 as int, a1 as int)) by {
                    if !o.valid_at(0, a0) {
                        assert(m.child_of(0, a0) == o.frames@.len());
                        assert(m.entry_at(m.child_of(0, a0), a1) == 0);
                    } else {
                        assert(m == o);
                    }
                }
                assert(s.frames@.len() == m.frames@.len() + 1 && c1 == m.frames@.len());
                assert forall|i2: int| 0 <= i2 < 512 implies #[trigger] s.tleaf(a0, a1, i2)
                    == 0 by {
                    assert(s.entry_at(c1 as int, i2) == 0);
                }
            }
        }
        Ok((c1, idxs[2]))
    }

    /// Writes `pte` into the leaf slot for `virtual_address`'s page,
    /// creating the path to it if needed. Afterwards the table translates
    /// exactly as `map_page_result` describes: the page itself by `pte`,
    /// every other page as before, except that pages sharing the freshly
    /// created path become reachable with a not-present (all-zero) entry.
    pub fn map_page(&mut self, virtual_address: VirtualAddress, pte: PageTableEntry) -> (r: Result<
        (),
        MemError,
    >)
        requires
            old(self).wf(),
        ensures
            final(self).wf(),
            final(self).base == old(self).base,
            final(self).data_pages@ == old(self).data_pages@,
            (r is Ok) == (old(self).frames@.len() + 2 <= FRAME_CAPACITY),
            r is Err ==> *final(self) == *old(self) && r == Err::<(), MemError>(
                MemError::OutOfFrames,
            ),
            old(self).frames@.len() <= final(self).frames@.len() <= old(self).frames@.len() + 2,
            r is Ok ==> forall|b: u64| #[trigger]
                final(self).mapped_pte(b) == map_page_result(
                    *old(self),
                    virtual_address.address,
                    pte.bits,
                    b,
                ),
    {
        let ghost o = *self;
        let ghost a = virtual_address.address;
        let loc = match self.find_pte_create(virtual_address) {
            Ok(loc) => loc,
            Err(e) => {
                return Err(e);
            },
        };
        let ghost m = *self;
        self.frames[loc.0].entries[loc.1] = pte.bits;
        proof {
            let s = *self;
            let a0 = idx0_spec(a);
            let a1 = idx1_spec(a);
            let a2 = idx2_spec(a);
            let lf = m.child_of(m.child_of(0, a0), a1);
            assert(loc.0 == lf && loc.1 == a2);
            assert(m.inter_entry_ok(0, a0));
            assert(m.inter_entry_ok(m.child_of(0, a0), a1));
            // the leaf-level frame is neither the root nor a middle frame,
            // so the tree shape is untouched by the write
            assert(m.cross_distinct());
            assert forall|i: int| 0 <= i < 512 implies #[trigger] s.entry_at(0, i) == m.entry_at(
                0,
                i,
            ) by {}
            // well-formedness survives the leaf write
            assert forall|i: int| 0 <= i < 512 && #[trigger] s.valid_at(0, i) implies s
                .inter_entry_ok(0, i) by {
                assert(m.valid_at(0, i));
            }
            assert forall|b0: int, b1: int|
                0 <= b0 < 512 && 0 <= b1 < 512 && s.valid_at(0, b0) && #[trigger] s.valid_at(
                    s.child_of(0, b0),
                    b1,
                ) implies s.inter_entry_ok(s.child_of(0, b0), b1) by {
                assert(m.valid_at(0, b0));
                assert(m.child_of(0, b0) != lf);
                assert(s.entry_at(s.child_of(0, b0), b1) == m.entry_at(m.child_of(0, b0), b1));
                assert(m.valid_at(m.child_of(0, b0), b1));
                assert(m.inter_entry_ok(m.child_of(0, b0), b1));
            }
            assert(s.distinct0()) by {
                assert forall|i: int, j: int|
                    0 <= i < 512 && 0 <= j < 512 && i != j && #[trigger] s.valid_at(0, i)
                        && #[trigger] s.valid_at(0, j) implies s.child_of(0, i) != s.child_of(
                    0,
                    j,
                ) by {
                    assert(m.valid_at(0, i) && m.valid_at(0, j));
                }
            }
            assert(s.distinct1()) by {
                assert forall|i0: int, i1: int, j0: int, j1: int|
                    0 <= i0 < 512 && 0 <= i1 < 512 && 0 <= j0 < 512 && 0 <= j1 < 512 && s.valid_at(
                        0,
                        i0,
                    ) && s.valid_at(0, j0) && #[trigger] s.valid_at(s.child_of(0, i0), i1)
                        && #[trigger] s.valid_at(s.child_of(0, j0), j1) && (i0 != j0 || i1 != j1)
                     implies s.child_of(s.child_of(0, i0), i1) != s.child_of(
                    s.child_of(0, j0),
                    j1,
                ) by {
                    assert(m.valid_at(0, i0) && m.valid_at(0, j0));
                    assert(m.child_of(0, i0) != lf && m.child_of(0, j0) != lf);
                    assert(s.entry_at(s.child_of(0, i0), i1) == m.entry_at(m.child_of(0, i0), i1));
                    assert(s.entry_at(s.child_of(0, j0), j1) == m.entry_at(m.child_of(0, j0), j1));
                    assert(m.valid_at(m.child_of(0, i0), i1) && m.valid_at(m.child_of(0, j0), j1));
                }
            }
            assert(s.cross_distinct()) by {
                assert forall|i: int, j0: int, j1: int|
                    0 <= i < 512 && 0 <= j0 < 512 && 0 <= j1 < 512 && #[trigger] s.valid_at(0, i)
                        && s.valid_at(0, j0) && #[trigger] s.valid_at(s.child_of(0, j0), j1)
                     implies s.child_of(0, i) != s.child_of(s.child_of(0, j0), j1) by {
                    assert(m.valid_at(0, i) && m.valid_at(0, j0));
                    assert(m.child_of(0, j0) != lf);
                    assert(s.entry_at(s.child_of(0, j0), j1) == m.entry_at(m.child_of(0, j0), j1));
                    assert(m.valid_at(m.child_of(0, j0), j1));
                }
            }
            // the translation after the write, page by page
            assert forall|b: u64| #[trigger] s.mapped_pte(b) == map_page_result(o, a, pte.bits, b)
             by {
                lemma_indexes_injective(b, a);
                let b0 = idx0_spec(b);
                let b1 = idx1_spec(b);
                let b2 = idx2_spec(b);
                // paths are unchanged by the leaf write
                assert(s.tpath_exists(b0, b1) == m.tpath_exists(b0, b1)) by {
                    if m.valid_at(0, b0) {
                        assert(m.child_of(0, b0) != lf);
                        assert(s.entry_at(s.child_of(0, b0), b1) == m.entry_at(
                            m.child_of(0, b0),
                            b1,
                        ));
                    }
                }
                if vpn_spec(b) == vpn_spec(a) {
                    assert(s.tleaf(b0, b1, b2) == pte.bits);
                } else if o.tpath_exists(b0, b1) {
                    assert(m.tpath_exists(b0, b1));
                    let lb = m.child_of(m.child_of(0, b0), b1);
                    assert(m.valid_at(0, b0) && m.valid_at(m.child_of(0, b0), b1));
                    if b0 == a0 && b1 == a1 {
                        assert(lb == lf);
                        assert(b2 != a2);
                        assert(s.tleaf(b0, b1, b2) == m.tleaf(b0, b1, b2));
                    } else {
                        assert(m.distinct1());
                        assert(lb != lf);
                        assert(s.tleaf(b0, b1, b2) == m.tleaf(b0, b1, b2));
                    }
                    assert(m.tleaf(b0, b1, b2) == o.tleaf(b0, b1, b2));
                    assert(o.path_exists(b) && o.mapped_pte(b) == Some(o.tleaf(b0, b1, b2)));
                } else if b0 == a0 && b1 == a1 {
                    // shares the freshly created path: reachable, all-zero
                    assert(!o.path_exists(a));
                    assert(m.tleaf(a0, a1, b2) == 0);
                    let lb = m.child_of(m.child_of(0, b0), b1);
                    assert(lb == lf);
                    assert(b2 != a2);
                    assert(s.tleaf(b0, b1, b2) == m.tleaf(b0, b1, b2));
                } else {
                    assert(!m.tpath_exists(b0, b1)) by {
                        if m.tpath_exists(b0, b1) {
                            assert(b0 == a0 && b1 == a1);
                        }
                    }
                    assert(!s.tpath_exists(b0, b1));
                }
            }
        }
        Ok(())
    }

    /// The paging-control register value that installs this table: the
    /// mode field for three-level translation in the top bits, the root
    /// frame's number in the low bits.
    pub fn token(&self) -> (r: u64)
        requires
            self.base_wf(),
        ensures
            r == satp_of(self.base),
    {
        SATP_MODE + self.base / 4096
    }
}

/// Activating a table with root frame at physical address `root_pa` yields
/// a register value whose mode field (top four bits) selects three-level
/// translation and whose frame-number field (low 44 bits) is exactly
/// `root_pa / 4096`.
pub proof fn lemma_token_fields(root_pa: u64)
    requires
        root_pa % 4096 == 0,
        root_pa < PA_LIMIT,
    ensures
        satp_of(root_pa) / 0x1000000000000000 == 8,
        satp_of(root_pa) % 0x100000000000 == root_pa / 4096,
{
    assert((0x8000000000000000 + root_pa / 4096) / 0x1000000000000000 == 8 && (0x8000000000000000
        + root_pa / 4096) % 0x100000000000 == root_pa / 4096) by (bit_vector)
        requires
            root_pa < 0x40000000000,
    ;
}

/// Well-formedness does not depend on the data pages beyond their sizes:
/// a table with the same frames and base and well-sized data pages is
/// well-formed too.
pub proof fn lemma_wf_data_irrelevant(a: PageTable, b: PageTable)
    requires
        a.wf(),
        b.frames@ == a.frames@,
        b.base == a.base,
        b.data_wf(),
    ensures
        b.wf(),
{
    assert forall|i: int| 0 <= i < 512 && #[trigger] b.valid_at(0, i) implies b.inter_entry_ok(
        0,
        i,
    ) by {
        assert(a.valid_at(0, i));
    }
    assert forall|i0: int, i1: int|
        0 <= i0 < 512 && 0 <= i1 < 512 && b.valid_at(0, i0) && #[trigger] b.valid_at(
            b.child_of(0, i0),
            i1,
        ) implies b.inter_entry_ok(b.child_of(0, i0), i1) by {
        assert(a.valid_at(0, i0));
        assert(a.valid_at(a.child_of(0, i0), i1));
    }
    assert forall|i: int, j: int|
        0 <= i < 512 && 0 <= j < 512 && i != j && #[trigger] b.valid_at(0, i) && #[trigger] b
            .valid_at(0, j) implies b.child_of(0, i) != b.child_of(0, j) by {
        assert(a.valid_at(0, i) && a.valid_at(0, j));
    }
    assert forall|i0: int, i1: int, j0: int, j1: int|
        0 <= i0 < 512 && 0 <= i1 < 512 && 0 <= j0 < 512 && 0 <= j1 < 512 && b.valid_at(0, i0) && b
            .valid_at(0, j0) && #[trigger] b.valid_at(b.child_of(0, i0), i1) && #[trigger] b
            .valid_at(b.child_of(0, j0), j1) && (i0 != j0 || i1 != j1) implies b.child_of(
        b.child_of(0, i0),
        i1,
    ) != b.child_of(b.child_of(0, j0), j1) by {
        assert(a.valid_at(0, i0) && a.valid_at(0, j0));
        assert(a.valid_at(a.child_of(0, i0), i1) && a.valid_at(a.child_of(0, j0), j1));
    }
    assert forall|i: int, j0: int, j1: int|
        0 <= i < 512 && 0 <= j0 < 512 && 0 <= j1 < 512 && #[trigger] b.valid_at(0, i) && b.valid_at(
            0,
            j0,
        ) && #[trigger] b.valid_at(b.child_of(0, j0), j1) implies b.child_of(0, i) != b.child_of(
        b.child_of(0, j0),
        j1,
    ) by {
        assert(a.valid_at(0, i) && a.valid_at(0, j0));
        assert(a.valid_at(a.child_of(0, j0), j1));
    }
}

/// Recording a well-sized data page keeps the table well-formed, extends
/// the data view by exactly that page's bytes, and leaves every
/// translation as it was.
pub proof fn lemma_insert_data_page(a: PageTable, b: PageTable, k: u64, pg: Page)
    requires
        a.wf(),
        pg.wf(),
        b.data_pages@ == a.data_pages@.insert(k, pg),
        b.frames@ == a.frames@,
        b.base == a.base,
    ensures
        b.wf(),
        b.data_view() == a.data_view().insert(k, pg.bytes@),
        forall|x: u64| #[trigger] b.mapped_pte(x) == a.mapped_pte(x),
{
    assert(b.data_view() =~= a.data_view().insert(k, pg.bytes@));
    assert forall|kk: u64| #[trigger] b.data_pages@.contains_key(kk) implies b
        .data_pages@[kk].wf() by {
        if kk != k {
            assert(a.data_pages@.contains_key(kk));
            assert(b.data_pages@[kk] == a.data_pages@[kk]);
        }
    }
    lemma_wf_data_irrelevant(a, b);
    assert forall|x: u64| #[trigger] b.mapped_pte(x) == a.mapped_pte(x) by {}
}

/// The entry word an inner slot holds for child frame `c` of a table based
/// at `base`: present, and decodable back to `c`.
pub proof fn lemma_inter_decode(base: u64, c: int)
    requires
        base % 4096 == 0,
        0 < base,
        base + FRAME_CAPACITY * 4096 <= USER_FRAME_BASE,
        0 <= c < FRAME_CAPACITY,
    ensures
        pte_valid(pte_encode((base + c * 4096) as u64, PTE_V)),
        pte_encode((base + c * 4096) as u64, PTE_V) as int / 1024 == base as int / 4096 + c,
        pte_encode((base + c * 4096) as u64, PTE_V) as int / 1024 - base as int / 4096 == c,
{
    let pa = (base + c * 4096) as u64;
    assert(pa % 4096 == 0 && pa as int / 4096 == base as int / 4096 + c) by (nonlinear_arith)
        requires
            base % 4096 == 0,
            0 <= c,
            pa == base + c * 4096,
    ;
    lemma_pte_roundtrip(pa, PTE_V);
    let q = pa as int / 4096;
    assert(pte_encode(pa, PTE_V) == q * 1024 + 1);
    assert((q * 1024 + 1) / 1024 == q) by (nonlinear_arith)
        requires
            0 <= q,
    ;
}

} // verus!

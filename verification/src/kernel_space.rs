//! The kernel-space mapper: identity-maps the kernel image's sections with
//! section-appropriate permissions, maps the post-image free region, and
//! maps the fixed kernel-stack window onto the image's stack region at a
//! constant offset. Built exactly once and never revoked.

use vstd::prelude::*;
use crate::VirtualAddress;
use crate::addr::PhysicalAddress;
use crate::addr::vpn_spec;
use crate::config::KERNEL_STACK_SIZE;
use crate::config::MEMORY_END;
use crate::config::MEMORY_START;
use crate::config::PA_LIMIT;
use crate::config::VA_SPACE;
use crate::pte::PTEFlags;
use crate::pte::PageTableEntry;
use crate::pte::pte_encode;
use crate::table::FRAME_CAPACITY;
use crate::table::USER_FRAME_BASE;
use crate::table::PageTable;
use crate::table::map_page_result;
use crate::table::satp_of;

verus! {

/// Entry flags for kernel text: present, readable, executable.
pub const KERNEL_TEXT_FLAGS: u8 = 1 + 2 + 8;

/// Entry flags for kernel read-only data: present, readable.
pub const KERNEL_RO_FLAGS: u8 = 1 + 2;

/// Entry flags for kernel writable regions: present, readable, writable.
pub const KERNEL_RW_FLAGS: u8 = 1 + 2 + 4;

/// The section boundaries the linker exports for the kernel image, plus
/// the physical location of the kernel stack. All page-aligned.
pub struct KernelLayout {
    pub stext: u64,
    pub etext: u64,
    pub srodata: u64,
    pub erodata: u64,
    pub sdata: u64,
    pub edata: u64,
    pub sbss: u64,
    pub ebss: u64,
    pub ekernel: u64,
    pub kernel_stack_bottom: u64,
}

impl KernelLayout {
    /// The sections sit ordered and page-aligned inside the kernel's
    /// physical window, and the stack region lies inside it too.
    pub open spec fn wf(self) -> bool {
        &&& self.stext % 4096 == 0
        &&& self.etext % 4096 == 0
        &&& self.srodata % 4096 == 0
        &&& self.erodata % 4096 == 0
        &&& self.sdata % 4096 == 0
        &&& self.edata % 4096 == 0
        &&& self.sbss % 4096 == 0
        &&& self.ebss % 4096 == 0
        &&& self.ekernel % 4096 == 0
        &&& self.kernel_stack_bottom % 4096 == 0
        &&& MEMORY_START <= self.stext
        &&& self.stext <= self.etext <= self.srodata
        &&& self.srodata <= self.erodata <= self.sdata
        &&& self.sdata <= self.edata <= self.sbss
        &&& self.sbss <= self.ebss <= self.ekernel
        &&& self.ekernel <= MEMORY_END
        &&& MEMORY_START <= self.kernel_stack_bottom <= MEMORY_END
    }
}

/// Every page of `[s, e)` is mapped onto itself by exactly the entry that
/// carries flags `f`.
pub open spec fn region_identity_mapped(t: PageTable, s: u64, e: u64, f: u8) -> bool {
    forall|b: u64|
        s <= vpn_spec(b) * 4096 < e ==> #[trigger] t.mapped_pte(b) == Some(
            pte_encode((vpn_spec(b) * 4096) as u64, f),
        )
}

/// Whether page `b` falls in one of the regions the kernel mapper fills.
pub open spec fn kernel_range_covers(l: KernelLayout, b: u64) -> bool {
    ||| l.stext <= vpn_spec(b) * 4096 < l.etext
    ||| l.srodata <= vpn_spec(b) * 4096 < l.erodata
    ||| l.sdata <= vpn_spec(b) * 4096 < l.edata
    ||| l.sbss <= vpn_spec(b) * 4096 < l.ebss
    ||| l.ekernel <= vpn_spec(b) * 4096 < MEMORY_END
    ||| MEMORY_START - KERNEL_STACK_SIZE <= vpn_spec(b) * 4096 < MEMORY_START
}

/// The whole kernel address space is in place: text read+execute, rodata
/// read-only, data and bss read+write, the free region read+write, and the
/// stack window mapped at the fixed offset onto the image's stack region.
pub open spec fn kernel_mapped(t: PageTable, l: KernelLayout) -> bool {
    &&& region_identity_mapped(t, l.stext, l.etext, KERNEL_TEXT_FLAGS)
    &&& region_identity_mapped(t, l.srodata, l.erodata, KERNEL_RO_FLAGS)
    &&& region_identity_mapped(t, l.sdata, l.edata, KERNEL_RW_FLAGS)
    &&& region_identity_mapped(t, l.sbss, l.ebss, KERNEL_RW_FLAGS)
    &&& region_identity_mapped(t, l.ekernel, MEMORY_END, KERNEL_RW_FLAGS)
    &&& forall|b: u64|
        MEMORY_START - KERNEL_STACK_SIZE <= vpn_spec(b) * 4096 < MEMORY_START ==> #[trigger] t
            .mapped_pte(b) == Some(
            pte_encode(
                (vpn_spec(b) * 4096 + KERNEL_STACK_SIZE + l.kernel_stack_bottom
                    - MEMORY_START) as u64,
                KERNEL_RW_FLAGS,
            ),
        )
}

/// The canonical page address of an aligned address below the 39-bit
/// horizon is the address itself.
pub proof fn lemma_vpn_identity(v: u64)
    requires
        v % 4096 == 0,
        v < VA_SPACE,
    ensures
        vpn_spec(v) * 4096 == v,
{
    assert((v / 0x1000 % 0x8000000) * 0x1000 == v) by (bit_vector)
        requires
            v % 4096 == 0,
            v < 0x8000000000,
    ;
}

impl PageTable {
    /// Maps every page of `[va_start, va_end)` onto the physical page at
    /// the fixed `pa_offset` from it, with the given flags; the identity
    /// mapping is the offset-zero case. Pages outside the range keep the
    /// translation they had, except that pages sharing a freshly created
    /// path may become reachable with a not-present entry.
    pub fn map_linear_range(&mut self, va_start: u64, va_end: u64, pa_offset: u64, flags: PTEFlags)
        requires
            old(self).wf(),
            va_start % 4096 == 0,
            va_end % 4096 == 0,
            va_start <= va_end <= VA_SPACE,
            pa_offset % 4096 == 0,
            va_end + pa_offset <= PA_LIMIT,
            old(self).frames@.len() + 2 * ((va_end - va_start) / 4096) + 2 <= FRAME_CAPACITY,
        ensures
            final(self).wf(),
            final(self).base == old(self).base,
            final(self).data_pages@ == old(self).data_pages@,
            final(self).frames@.len() <= old(self).frames@.len() + 2 * ((va_end - va_start)
                / 4096),
            region_offset_mapped(*final(self), va_start, va_end, pa_offset, flags.bits),
            forall|b: u64|
                !(va_start <= vpn_spec(b) * 4096 < va_end) ==> (#[trigger] final(self).mapped_pte(b)
                    == old(self).mapped_pte(b) || (old(self).mapped_pte(b) is None
                    && final(self).mapped_pte(b) == Some(0u64))),
    {
        let ghost o = *self;
        let mut cursor: u64 = va_start;
        while cursor < va_end
            invariant
                self.wf(),
                self.base == o.base,
                self.data_pages@ == o.data_pages@,
                cursor % 4096 == 0,
                va_start <= cursor <= va_end,
                va_start % 4096 == 0,
                va_end % 4096 == 0,
                va_end <= VA_SPACE,
                pa_offset % 4096 == 0,
                va_end + pa_offset <= PA_LIMIT,
                o.frames@.len() + 2 * ((va_end - va_start) / 4096) + 2 <= FRAME_CAPACITY,
                self.frames@.len() <= o.frames@.len() + 2 * ((cursor - va_start) / 4096),
                region_offset_mapped(*self, va_start, cursor, pa_offset, flags.bits),
                forall|b: u64|
                    !(va_start <= vpn_spec(b) * 4096 < cursor) ==> (#[trigger] self.mapped_pte(b)
                        == o.mapped_pte(b) || (o.mapped_pte(b) is None && self.mapped_pte(b)
                        == Some(0u64))),
            decreases va_end - cursor,
        {
            proof {
                assert((cursor - va_start) / 4096 + 1 == (cursor + 4096 - va_start) / 4096
                    && (cursor + 4096 - va_start) / 4096 <= (va_end - va_start)
                    / 4096) by (nonlinear_arith)
                    requires
                        cursor % 4096 == 0,
                        va_start % 4096 == 0,
                        va_end % 4096 == 0,
                        va_start <= cursor < va_end,
                        va_end <= 0x8000000000,
                ;
            }
            let ghost pre = *self;
            let pte = PageTableEntry::new(PhysicalAddress { address: cursor + pa_offset }, flags);
            let res = self.map_page(VirtualAddress { address: cursor }, pte);
            match res {
                Ok(()) => {},
                Err(_) => {
                    proof {
                        assert(false);
                    }
                },
            }
            proof {
                lemma_vpn_identity(cursor);
                assert forall|b: u64| va_start <= vpn_spec(b) * 4096 < cursor + 4096 implies #[trigger] self
                    .mapped_pte(b) == Some(
                    pte_encode((vpn_spec(b) * 4096 + pa_offset) as u64, flags.bits),
                ) by {
                    assert(self.mapped_pte(b) == map_page_result(pre, cursor, pte.bits, b));
                    if vpn_spec(b) == vpn_spec(cursor) {
                        assert(vpn_spec(b) * 4096 == cursor);
                    } else {
                        assert(vpn_spec(b) * 4096 != cursor);
                        assert(va_start <= vpn_spec(b) * 4096 < cursor);
                        assert(pre.mapped_pte(b) == Some(
                            pte_encode((vpn_spec(b) * 4096 + pa_offset) as u64, flags.bits),
                        ));
                        assert(pre.path_exists(b));
                    }
                }
                assert forall|b: u64| !(va_start <= vpn_spec(b) * 4096 < cursor + 4096) implies (
                #[trigger] self.mapped_pte(b) == o.mapped_pte(b) || (o.mapped_pte(b) is None
                    && self.mapped_pte(b) == Some(0u64))) by {
                    assert(self.mapped_pte(b) == map_page_result(pre, cursor, pte.bits, b));
                    assert(vpn_spec(b) * 4096 != cursor);
                    assert(vpn_spec(b) != vpn_spec(cursor));
                    if pre.path_exists(b) {
                        assert(self.mapped_pte(b) == pre.mapped_pte(b));
                    } else {
                        assert(pre.mapped_pte(b) is None);
                        assert(o.mapped_pte(b) is None || o.mapped_pte(b) == pre.mapped_pte(b));
                        assert(self.mapped_pte(b) is None || self.mapped_pte(b) == Some(0u64));
                    }
                }
            }
            cursor = cursor + 4096;
        }
    }
}

/// Every page of `[s, e)` is mapped onto the physical page `off` bytes
/// above it by exactly the entry carrying flags `f`.
pub open spec fn region_offset_mapped(t: PageTable, s: u64, e: u64, off: u64, f: u8) -> bool {
    forall|b: u64|
        s <= vpn_spec(b) * 4096 < e ==> #[trigger] t.mapped_pte(b) == Some(
            pte_encode((vpn_spec(b) * 4096 + off) as u64, f),
        )
}

/// An aligned range holds a whole number of pages.
pub proof fn lemma_region_pages(s: u64, e: u64)
    requires
        s % 4096 == 0,
        e % 4096 == 0,
        s <= e,
    ensures
        ((e - s) as int / 4096) * 4096 == e - s,
{
    assert(((e - s) as int / 4096) * 4096 == e - s) by (nonlinear_arith)
        requires
            s % 4096 == 0,
            e % 4096 == 0,
            s <= e,
    ;
}

impl PageTable {
    /// Builds the kernel's whole address space in this table: identity
    /// mappings for text (read+execute), rodata (read-only), data and bss
    /// (read+write), the free region up to the memory ceiling
    /// (read+write), and the kernel-stack window mapped at a fixed offset
    /// onto the image's stack region (read+write). Pages it does not map
    /// keep the translation they had.
    #[verifier::rlimit(100)]
    #[verifier::spinoff_prover]
    pub fn map_kernel(&mut self, layout: &KernelLayout)
        requires
            old(self).wf(),
            layout.wf(),
            old(self).frames@.len() + 3102 <= FRAME_CAPACITY,
        ensures
            final(self).wf(),
            final(self).base == old(self).base,
            final(self).data_pages@ == old(self).data_pages@,
            kernel_mapped(*final(self), *layout),
            forall|b: u64|
                !kernel_range_covers(*layout, b) ==> (#[trigger] final(self).mapped_pte(b) == old(
                    self,
                ).mapped_pte(b) || (old(self).mapped_pte(b) is None && final(self).mapped_pte(b)
                    == Some(0u64))),
    {
        let ghost o = *self;
        let ghost p1 = (layout.etext - layout.stext) as int / 4096;
        let ghost p2 = (layout.erodata - layout.srodata) as int / 4096;
        let ghost p3 = (layout.edata - layout.sdata) as int / 4096;
        let ghost p4 = (layout.ebss - layout.sbss) as int / 4096;
        let ghost p5 = (MEMORY_END - layout.ekernel) as int / 4096;
        proof {
            lemma_region_pages(layout.stext, layout.etext);
            lemma_region_pages(layout.srodata, layout.erodata);
            lemma_region_pages(layout.sdata, layout.edata);
            lemma_region_pages(layout.sbss, layout.ebss);
            lemma_region_pages(layout.ekernel, MEMORY_END);
            assert(p1 + p2 + p3 + p4 + p5 <= 1536);
        }
        self.map_linear_range(
            layout.stext,
            layout.etext,
            0,
            PTEFlags::from_bits(KERNEL_TEXT_FLAGS),
        );
        let ghost t1 = *self;
        self.map_linear_range(
            layout.srodata,
            layout.erodata,
            0,
            PTEFlags::from_bits(KERNEL_RO_FLAGS),
        );
        let ghost t2 = *self;
        self.map_linear_range(layout.sdata, layout.edata, 0, PTEFlags::from_bits(KERNEL_RW_FLAGS));
        let ghost t3 = *self;
        self.map_linear_range(layout.sbss, layout.ebss, 0, PTEFlags::from_bits(KERNEL_RW_FLAGS));
        let ghost t4 = *self;
        self.map_linear_range(layout.ekernel, MEMORY_END, 0, PTEFlags::from_bits(KERNEL_RW_FLAGS));
        let ghost t5 = *self;
        self.map_linear_range(
            MEMORY_START - KERNEL_STACK_SIZE,
            MEMORY_START,
            KERNEL_STACK_SIZE + layout.kernel_stack_bottom - MEMORY_START,
            PTEFlags::from_bits(KERNEL_RW_FLAGS),
        );
        proof {
            let s = *self;
            let l = *layout;
            assert forall|b: u64| l.stext <= vpn_spec(b) * 4096 < l.etext implies #[trigger] s
                .mapped_pte(b) == Some(pte_encode((vpn_spec(b) * 4096) as u64, KERNEL_TEXT_FLAGS))
             by {
                assert(t1.mapped_pte(b) == Some(
                    pte_encode((vpn_spec(b) * 4096 + 0) as u64, KERNEL_TEXT_FLAGS),
                ));
                assert(t2.mapped_pte(b) == t1.mapped_pte(b));
                assert(t3.mapped_pte(b) == t2.mapped_pte(b));
                assert(t4.mapped_pte(b) == t3.mapped_pte(b));
                assert(t5.mapped_pte(b) == t4.mapped_pte(b));
                assert(s.mapped_pte(b) == t5.mapped_pte(b));
            }
            assert forall|b: u64| l.srodata <= vpn_spec(b) * 4096 < l.erodata implies #[trigger] s
                .mapped_pte(b) == Some(pte_encode((vpn_spec(b) * 4096) as u64, KERNEL_RO_FLAGS)) by {
                assert(t2.mapped_pte(b) == Some(
                    pte_encode((vpn_spec(b) * 4096 + 0) as u64, KERNEL_RO_FLAGS),
                ));
                assert(t3.mapped_pte(b) == t2.mapped_pte(b));
                assert(t4.mapped_pte(b) == t3.mapped_pte(b));
                assert(t5.mapped_pte(b) == t4.mapped_pte(b));
                assert(s.mapped_pte(b) == t5.mapped_pte(b));
            }
            assert forall|b: u64| l.sdata <= vpn_spec(b) * 4096 < l.edata implies #[trigger] s
                .mapped_pte(b) == Some(pte_encode((vpn_spec(b) * 4096) as u64, KERNEL_RW_FLAGS)) by {
                assert(t3.mapped_pte(b) == Some(
                    pte_encode((vpn_spec(b) * 4096 + 0) as u64, KERNEL_RW_FLAGS),
                ));
                assert(t4.mapped_pte(b) == t3.mapped_pte(b));
                assert(t5.mapped_pte(b) == t4.mapped_pte(b));
                assert(s.mapped_pte(b) == t5.mapped_pte(b));
            }
            assert forall|b: u64| l.sbss <= vpn_spec(b) * 4096 < l.ebss implies #[trigger] s
                .mapped_pte(b) == Some(pte_encode((vpn_spec(b) * 4096) as u64, KERNEL_RW_FLAGS)) by {
                assert(t4.mapped_pte(b) == Some(
                    pte_encode((vpn_spec(b) * 4096 + 0) as u64, KERNEL_RW_FLAGS),
                ));
                assert(t5.mapped_pte(b) == t4.mapped_pte(b));
                assert(s.mapped_pte(b) == t5.mapped_pte(b));
            }
            assert forall|b: u64| l.ekernel <= vpn_spec(b) * 4096 < MEMORY_END implies #[trigger] s
                .mapped_pte(b) == Some(pte_encode((vpn_spec(b) * 4096) as u64, KERNEL_RW_FLAGS)) by {
                assert(t5.mapped_pte(b) == Some(
                    pte_encode((vpn_spec(b) * 4096 + 0) as u64, KERNEL_RW_FLAGS),
                ));
                assert(s.mapped_pte(b) == t5.mapped_pte(b));
            }
            assert forall|b: u64|
                MEMORY_START - KERNEL_STACK_SIZE <= vpn_spec(b) * 4096
                    < MEMORY_START implies #[trigger] s.mapped_pte(b) == Some(
                pte_encode(
                    (vpn_spec(b) * 4096 + KERNEL_STACK_SIZE + l.kernel_stack_bottom
                        - MEMORY_START) as u64,
                    KERNEL_RW_FLAGS,
                ),
            ) by {
                assert(s.mapped_pte(b) == Some(
                    pte_encode(
                        (vpn_spec(b) * 4096 + (KERNEL_STACK_SIZE + l.kernel_stack_bottom
                            - MEMORY_START)) as u64,
                        KERNEL_RW_FLAGS,
                    ),
                ));
            }
            assert forall|b: u64| !kernel_range_covers(l, b) implies (#[trigger] s.mapped_pte(b)
                == o.mapped_pte(b) || (o.mapped_pte(b) is None && s.mapped_pte(b) == Some(
                0u64,
            ))) by {
                assert(t1.mapped_pte(b) == o.mapped_pte(b) || (o.mapped_pte(b) is None
                    && t1.mapped_pte(b) == Some(0u64)));
                assert(t2.mapped_pte(b) == t1.mapped_pte(b) || (t1.mapped_pte(b) is None
                    && t2.mapped_pte(b) == Some(0u64)));
                assert(t3.mapped_pte(b) == t2.mapped_pte(b) || (t2.mapped_pte(b) is None
                    && t3.mapped_pte(b) == Some(0u64)));
                assert(t4.mapped_pte(b) == t3.mapped_pte(b) || (t3.mapped_pte(b) is None
                    && t4.mapped_pte(b) == Some(0u64)));
                assert(t5.mapped_pte(b) == t4.mapped_pte(b) || (t4.mapped_pte(b) is None
                    && t5.mapped_pte(b) == Some(0u64)));
                assert(s.mapped_pte(b) == t5.mapped_pte(b) || (t5.mapped_pte(b) is None
                    && s.mapped_pte(b) == Some(0u64)));
            }
        }
    }

    /// Constructs the kernel address space: a fresh table whose arena
    /// starts at `base`, with the whole kernel image, free region and
    /// stack window mapped as `kernel_mapped` states. Built once, at
    /// memory-subsystem initialization.
    pub fn init_kernel_space(layout: &KernelLayout, base: u64) -> (r: Self)
        requires
            layout.wf(),
            base % 4096 == 0,
            0 < base,
            base + FRAME_CAPACITY * 4096 <= USER_FRAME_BASE,
        ensures
            r.wf(),
            r.base == base,
            kernel_mapped(r, *layout),
            r.data_view() == Map::<u64, Seq<u8>>::empty(),
            forall|b: u64|
                !kernel_range_covers(*layout, b) ==> (#[trigger] r.mapped_pte(b) is None
                    || r.mapped_pte(b) == Some(0u64)),
    {
        let mut kernel_space = PageTable::init(base);
        kernel_space.map_kernel(layout);
        kernel_space
    }
}

/// Builds the kernel address space and hands back the table together with
/// the paging-register value that activates it. Writing that value to the
/// hardware register and issuing the translation fence is the unverified
/// hardware side's step, taken immediately after this returns.
pub fn memory_init(layout: &KernelLayout, base: u64) -> (r: (PageTable, u64))
    requires
        layout.wf(),
        base % 4096 == 0,
        0 < base,
        base + FRAME_CAPACITY * 4096 <= USER_FRAME_BASE,
    ensures
        r.0.wf(),
        r.0.base == base,
        kernel_mapped(r.0, *layout),
        r.1 == satp_of(base),
        forall|b: u64|
            !kernel_range_covers(*layout, b) ==> (#[trigger] r.0.mapped_pte(b) is None
                || r.0.mapped_pte(b) == Some(0u64)),
{
    let kernel_space = PageTable::init_kernel_space(layout, base);
    let token = kernel_space.token();
    (kernel_space, token)
}

} // verus!

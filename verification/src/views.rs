//! The address spaces of the kernel: the view that the boot stage starts
//! with, the kernel's own view, and the roots of processes that borrow its
//! upper half.

use vstd::prelude::*;
use crate::bits;
use crate::frames;
use crate::frames::FrameAllocator;
use crate::handoff;
use crate::handoff::{Handoff, ImageLayout, Region};
use crate::intc::IOAPIC_PHYS;
use crate::needs;
use crate::needs::Step;
use crate::paging;
use crate::paging::{
    PhysMem, Seat, ADDR_MASK, DIRECT_MAP_BYTES, KERNEL_OFFSET, PAGE, PAGES, PAGE_2M, PTE_HUGE, PTE_NX,
    PTE_PRESENT, PTE_WRITE, USER_PAGES,
};
use crate::pe;
use crate::pe::{Perm, Section};

verus! {

/// Physical memory with the roots that the kernel knows.
pub struct Paging {
    pub mem: PhysMem,
    /// The root that was last made live; zero before that.
    pub live_root: u64,
    /// The root of the kernel's own view; zero until it is built.
    pub kernel_root: u64,
    /// Where the local APIC's registers lie; zero if unknown.
    pub apic_base: u64,
    /// How many regions above 4 GiB the first view left out.
    pub skipped_high: usize,
}

impl Paging {
    pub open spec fn wf(&self, fa: &FrameAllocator) -> bool {
        &&& self.mem.wf(fa)
        &&& self.kernel_root != 0 ==> self.kernel_built()
    }

    /// The kernel's own view stands, and lends its upper half.
    pub open spec fn kernel_built(&self) -> bool {
        &&& paging::is_root(self.mem.seats@, self.kernel_root as int)
        &&& self.mem.seats@[self.kernel_root as int].upper == self.kernel_root
    }

    /// Memory before any view was built.
    pub fn new(words: Vec<u64>) -> (p: Paging)
        ensures
            p.mem.words@ == words@,
            p.mem.seats@ == Map::<int, Seat>::empty(),
            paging::tables_wf(p.mem.words@, p.mem.seats@),
            p.live_root == 0,
            p.kernel_root == 0,
            p.apic_base == 0,
            p.skipped_high == 0,
    {
        Paging { mem: PhysMem::new(words), live_root: 0, kernel_root: 0, apic_base: 0, skipped_high: 0 }
    }
}

/// The root in CR3.
pub fn cr3_phys(p: &Paging) -> (r: u64)
    ensures
        r == p.live_root,
{
    p.live_root
}

/// The root of the kernel's own view.
pub fn kernel_cr3_phys(p: &Paging) -> (r: u64)
    ensures
        r == p.kernel_root,
{
    p.kernel_root
}

/// Where the local APIC's registers lie.
pub fn apic_base_phys(p: &Paging) -> (r: u64)
    ensures
        r == p.apic_base,
{
    p.apic_base
}

/// The kernel-half address of a device register below 4 GiB.
pub open spec fn mmio_alias(phys: u64) -> u64 {
    phys | 0xFFFF_FFFF_0000_0000
}

/// The kernel-half address of a device register below 4 GiB.
pub fn mmio_alias_va(phys: u64) -> (r: u64)
    ensures
        r == mmio_alias(phys),
{
    phys | 0xFFFF_FFFF_0000_0000
}

proof fn lemma_mmio_alias(phys: u64)
    by (bit_vector)
    requires
        phys < 0x1_0000_0000u64,
    ensures
        phys | 0xFFFF_FFFF_0000_0000u64 == phys + 0xFFFF_FFFF_0000_0000u64,
{
}

/// A device alias lies in the kernel half and is different for different
/// registers.
pub proof fn law_mmio_alias_in_kernel_half(a: u64, b: u64)
    requires
        a < 0x1_0000_0000,
        b < 0x1_0000_0000,
    ensures
        mmio_alias(a) >= 0xFFFF_8000_0000_0000,
        mmio_alias(a) == a + 0xFFFF_FFFF_0000_0000,
        mmio_alias(a) == mmio_alias(b) ==> a == b,
{
    lemma_mmio_alias(a);
    lemma_mmio_alias(b);
}

/// The physical address behind a direct-map address.
pub open spec fn behind(va: u64) -> Option<u64> {
    if va >= KERNEL_OFFSET {
        Some((va - KERNEL_OFFSET) as u64)
    } else {
        None
    }
}

/// The direct map shows every physical address that it covers once, and no
/// address below it shows one.
pub proof fn law_direct_map_round_trip(phys: u64, va: u64)
    requires
        phys < DIRECT_MAP_BYTES,
    ensures
        phys + KERNEL_OFFSET <= u64::MAX,
        behind((phys + KERNEL_OFFSET) as u64) == Some(phys),
        behind(va) == Some(phys) ==> va == phys + KERNEL_OFFSET,
        va < KERNEL_OFFSET <==> behind(va) is None,
{
}

/// The physical address behind a kernel-view address: direct-map addresses
/// lose their offset, all others stay as they are.
pub fn kernel_view_phys(va: u64) -> (r: u64)
    ensures
        r == (match behind(va) {
            Some(p) => p,
            None => va,
        }),
{
    let stripped: u64 = va.wrapping_sub(KERNEL_OFFSET);
    if stripped < DIRECT_MAP_BYTES {
        stripped
    } else {
        va
    }
}

/// The physical address behind a direct-map address.
pub fn direct_map_to_phys(va: u64) -> (r: Option<u64>)
    ensures
        r == behind(va),
{
    if va >= KERNEL_OFFSET && va - KERNEL_OFFSET < DIRECT_MAP_BYTES {
        Some(va - KERNEL_OFFSET)
    } else {
        None
    }
}

/// The flags of a permission.
pub open spec fn perm_flags(perm: Perm) -> u64 {
    match perm {
        Perm::Rx => PTE_PRESENT | 0,
        Perm::Ro => PTE_PRESENT | PTE_NX,
        Perm::Rw => PTE_PRESENT | (PTE_WRITE | PTE_NX),
        Perm::FwCompat => PTE_PRESENT | PTE_WRITE,
    }
}

/// The flags of a permission.
pub fn flags_for(perm: Perm) -> (r: u64)
    ensures
        r == perm_flags(perm),
{
    match perm {
        Perm::Rx => PTE_PRESENT | 0,
        Perm::Ro => PTE_PRESENT | PTE_NX,
        Perm::Rw => PTE_PRESENT | (PTE_WRITE | PTE_NX),
        Perm::FwCompat => PTE_PRESENT | PTE_WRITE,
    }
}

proof fn lemma_perm_bits(x: u64)
    by (bit_vector)
    ensures
        ((x & 0x000F_FFFF_FFFF_F000u64) | (1u64 | 0)) & 1 != 0,
        ((x & 0x000F_FFFF_FFFF_F000u64) | (1u64 | 0)) & 2 == 0,
        ((x & 0x000F_FFFF_FFFF_F000u64) | (1u64 | 0)) & 0x80 == 0,
        ((x & 0x000F_FFFF_FFFF_F000u64) | (1u64 | 0x8000_0000_0000_0000u64)) & 1 != 0,
        ((x & 0x000F_FFFF_FFFF_F000u64) | (1u64 | 0x8000_0000_0000_0000u64)) & 2 == 0,
        ((x & 0x000F_FFFF_FFFF_F000u64) | (1u64 | 0x8000_0000_0000_0000u64)) & 0x80 == 0,
        ((x & 0x000F_FFFF_FFFF_F000u64) | (1u64 | (2u64 | 0x8000_0000_0000_0000u64))) & 1 != 0,
        ((x & 0x000F_FFFF_FFFF_F000u64) | (1u64 | (2u64 | 0x8000_0000_0000_0000u64)))
            & 0x8000_0000_0000_0000u64 != 0,
        ((x & 0x000F_FFFF_FFFF_F000u64) | (1u64 | (2u64 | 0x8000_0000_0000_0000u64))) & 0x80 == 0,
        ((x & 0x000F_FFFF_FFFF_F000u64) | (1u64 | 2u64)) & 1 != 0,
        ((x & 0x000F_FFFF_FFFF_F000u64) | (1u64 | 2u64)) & 0x80 == 0,
{
}

proof fn lemma_huge_bits(w: u64)
    by (bit_vector)
    ensures
        (w | 0x80u64) & 0x80 != 0,
        (w | 0x80u64) & 1 == w & 1,
{
}

/// A page cut out of a 2 MiB entry keeps the entry's permissions.
proof fn lemma_split_bits(w: u64, y: u64)
    by (bit_vector)
    requires
        y % 4096 == 0,
        y < 0x20_0000_0000_0000u64,
    ensures
        (y | ((w | 0x80u64) & !0x000F_FFFF_FFFF_F000u64 & !0x80u64)) & 2 == w & 2,
        (y | ((w | 0x80u64) & !0x000F_FFFF_FFFF_F000u64 & !0x80u64)) & 0x8000_0000_0000_0000u64 == w
            & 0x8000_0000_0000_0000u64,
{
}

/// The pages that `root` translates, with their entries.
pub open spec fn view(words: Seq<u64>, root: int) -> Map<int, u64> {
    Map::new(
        |v: int| 0 <= v < PAGES && paging::leaf(words, root, v) is Some,
        |v: int| paging::leaf(words, root, v)->0,
    )
}

/// The entry of a page at `pa` with `flags`.
pub open spec fn page_entry(pa: u64, flags: u64) -> u64 {
    (pa & ADDR_MASK) | flags
}

/// `m` with the page of `va` mapped to `pa`.
pub open spec fn with_page(m: Map<int, u64>, va: u64, pa: u64, flags: u64) -> Map<int, u64> {
    m.insert(paging::page_no(va as int), page_entry(pa, flags))
}

/// `m` with the 512 pages around `va` mapped to the 2 MiB at `pa`.
pub open spec fn with_block(m: Map<int, u64>, va: u64, pa: u64, flags: u64) -> Map<int, u64> {
    let b = paging::page_no(va as int) / 512;
    let w = page_entry(pa, flags) | PTE_HUGE;
    Map::new(
        |v: int| m.dom().contains(v) || v / 512 == b,
        |v: int| if v / 512 == b {
            paging::split_entry(w, v % 512)
        } else {
            m[v]
        },
    )
}

/// Only pages of the address space `root` may have changed.
pub open spec fn others_kept(pre: &PhysMem, post: &PhysMem, root: int) -> bool {
    forall|r: int, v: int| #![trigger paging::leaf(post.words@, r, v)]
        paging::is_root(pre.seats@, r) && 0 <= v < PAGES && paging::owner_of(pre.seats@[r], v)
            != root ==> paging::leaf(post.words@, r, v) == paging::leaf(pre.words@, r, v)
}

/// From `pre` to `post` the address space `root` was edited: tables were
/// added, the words of data frames stayed, and so did every other space.
pub open spec fn edited(
    pre: &PhysMem,
    pre_fa: &FrameAllocator,
    post: &PhysMem,
    post_fa: &FrameAllocator,
    root: int,
) -> bool {
    &&& post.wf(post_fa)
    &&& paging::tables_grown(pre, pre_fa, post)
    &&& paging::data_kept(pre, pre_fa, post)
    &&& paging::frames_spent(pre_fa, post_fa, pre_fa.available() - post_fa.available())
    &&& paging::new_tables_of(pre, post, root)
    &&& others_kept(pre, post, root)
}

pub proof fn lemma_edited_edited(
    m0: &PhysMem,
    f0: &FrameAllocator,
    m1: &PhysMem,
    f1: &FrameAllocator,
    m2: &PhysMem,
    f2: &FrameAllocator,
    root: int,
)
    requires
        m0.wf(f0),
        edited(m0, f0, m1, f1, root),
        edited(m1, f1, m2, f2, root),
    ensures
        edited(m0, f0, m2, f2, root),
{
    paging::lemma_kept_kept(m0, f0, m1, f1, m2, f2);
    assert forall|r: int, v: int| #![trigger paging::leaf(m2.words@, r, v)]
        paging::is_root(m0.seats@, r) && 0 <= v < PAGES && paging::owner_of(m0.seats@[r], v)
            != root implies paging::leaf(m2.words@, r, v) == paging::leaf(m0.words@, r, v) by {
        assert(m1.seats@.dom().contains(r));
        assert(paging::leaf(m1.words@, r, v) == paging::leaf(m0.words@, r, v));
    }
}

pub proof fn lemma_edited_same(m: &PhysMem, fa: &FrameAllocator, root: int)
    requires
        m.wf(fa),
    ensures
        edited(m, fa, m, fa, root),
{
}

/// A root that lends its own upper half to itself.
pub open spec fn own_root(m: &PhysMem, root: int) -> bool {
    paging::is_root(m.seats@, root) && m.seats@[root].upper == root
}

/// Every page of a root that borrows nothing can be mapped.
proof fn lemma_all_editable(m: &PhysMem, root: int)
    requires
        paging::tables_wf(m.words@, m.seats@),
        own_root(m, root),
    ensures
        forall|w: int| 0 <= w < PAGES ==> #[trigger] paging::editable(m.seats@, root, w),
{
    assert(paging::is_table(m.words@, m.seats@, root));
}

/// The step that maps the page of `va`.
pub open spec fn page_step(va: u64) -> Step {
    Step { page: paging::page_no(va as int), block: false }
}

/// The step that maps the 2 MiB around `va`.
pub open spec fn block_step(va: u64) -> Step {
    Step { page: paging::page_no(va as int), block: true }
}

/// Map one page of the address space `root`, with flags that make it present.
/// False if the frames run out.
#[verifier::spinoff_prover]
#[verifier::rlimit(40)]
fn put_page(
    mem: &mut PhysMem,
    fa: &mut FrameAllocator,
    root: u64,
    va: u64,
    pa: u64,
    perm: Perm,
    Ghost(have): Ghost<int>,
    Ghost(steps): Ghost<Seq<Step>>,
) -> (r: bool)
    requires
        old(mem).wf(old(fa)),
        own_root(old(mem), root as int),
        old(fa).ready,
        needs::laid(old(mem), old(fa), root as int, have, steps),
    ensures
        edited(old(mem), old(fa), final(mem), final(fa), root as int),
        own_root(final(mem), root as int),
        r ==> view(final(mem).words@, root as int) == with_page(
            view(old(mem).words@, root as int),
            va,
            pa,
            perm_flags(perm),
        ),
        needs::went(
            r,
            final(mem),
            final(fa),
            root as int,
            have,
            steps.push(page_step(va)),
            false,
        ),
{
    let ghost v = paging::page_no(va as int);
    let flags: u64 = flags_for(perm);
    proof {
        assert(paging::is_table(mem.words@, mem.seats@, root as int));
        lemma_perm_bits(pa);
        frames::lemma_free_bounds(fa.map@, frames::FRAME_COUNT as int);
    }
    let ok: bool = paging::map_page_4k(mem, fa, root, va, pa, flags);
    proof {
        lemma_all_editable(old(mem), root as int);
        needs::lemma_laid_page(old(mem), old(fa), mem, fa, root as int, have, steps, v, ok);
        paging::lemma_grown_tables(old(mem), old(fa), mem, fa, root as int);
        let w0 = old(mem).words@;
        let w1 = mem.words@;
        let rt = root as int;
        if ok {
            assert forall|x: int| 0 <= x < PAGES && x != v implies #[trigger] paging::leaf(
                w1,
                rt,
                x,
            ) == paging::leaf(w0, rt, x) by {}
            assert(view(w1, rt) =~= with_page(view(w0, rt), va, pa, perm_flags(perm)));
        }
    }
    ok
}

/// Map the 2 MiB around `va` of the address space `root`. False if the frames
/// run out.
#[verifier::spinoff_prover]
#[verifier::rlimit(40)]
fn put_block(
    mem: &mut PhysMem,
    fa: &mut FrameAllocator,
    root: u64,
    va: u64,
    pa: u64,
    perm: Perm,
    Ghost(have): Ghost<int>,
    Ghost(steps): Ghost<Seq<Step>>,
) -> (r: bool)
    requires
        old(mem).wf(old(fa)),
        own_root(old(mem), root as int),
        old(fa).ready,
        needs::laid(old(mem), old(fa), root as int, have, steps),
    ensures
        edited(old(mem), old(fa), final(mem), final(fa), root as int),
        own_root(final(mem), root as int),
        r ==> view(final(mem).words@, root as int) == with_block(
            view(old(mem).words@, root as int),
            va,
            pa,
            perm_flags(perm),
        ),
        needs::went(
            r,
            final(mem),
            final(fa),
            root as int,
            have,
            steps.push(block_step(va)),
            true,
        ),
{
    let ghost v = paging::page_no(va as int);
    let flags: u64 = flags_for(perm);
    proof {
        assert(paging::is_table(mem.words@, mem.seats@, root as int));
        lemma_perm_bits(pa);
        frames::lemma_free_bounds(fa.map@, frames::FRAME_COUNT as int);
    }
    let ok: bool = paging::map_2m(mem, fa, root, va, pa, flags);
    proof {
        lemma_all_editable(old(mem), root as int);
        needs::lemma_laid_block(old(mem), old(fa), mem, fa, root as int, have, steps, v, ok);
        paging::lemma_grown_tables(old(mem), old(fa), mem, fa, root as int);
        let w0 = old(mem).words@;
        let w1 = mem.words@;
        let rt = root as int;
        if ok {
            lemma_huge_bits(page_entry(pa, flags));
            assert forall|x: int| 0 <= x < PAGES && x / 512 != v / 512 implies #[trigger] paging::leaf(
                w1,
                rt,
                x,
            ) == paging::leaf(w0, rt, x) by {}
            assert(0 <= v < PAGES);
            let b = v / 512;
            let goal = with_block(view(w0, rt), va, pa, perm_flags(perm));
            assert forall|x: int| view(w1, rt).dom().contains(x) <==> goal.dom().contains(x) by {
                if x / 512 == b {
                    assert(0 <= x < PAGES);
                    assert(paging::leaf(w1, rt, x) is Some);
                }
            }
            assert(view(w1, rt) =~= goal);
        }
    }
    ok
}

/// How a physical address is seen.
#[derive(Clone, Copy, Debug, PartialEq, Eq, Structural)]
pub enum Alias {
    /// At its own address.
    Identity,
    /// In the direct map.
    Direct,
    /// At its device alias.
    Mmio,
    /// In the direct map as far as that goes, at its device alias beyond.
    Device,
}

pub open spec fn alias_of(a: Alias, phys: u64) -> u64 {
    match a {
        Alias::Identity => phys,
        Alias::Direct => vstd::wrapping::u64_specs::wrapping_add(phys, KERNEL_OFFSET),
        Alias::Mmio => mmio_alias(phys),
        Alias::Device => if phys < DIRECT_MAP_BYTES {
            vstd::wrapping::u64_specs::wrapping_add(phys, KERNEL_OFFSET)
        } else {
            mmio_alias(phys)
        },
    }
}

fn alias_va(a: Alias, phys: u64) -> (r: u64)
    ensures
        r == alias_of(a, phys),
{
    match a {
        Alias::Identity => phys,
        Alias::Direct => phys.wrapping_add(KERNEL_OFFSET),
        Alias::Mmio => mmio_alias_va(phys),
        Alias::Device => if phys < DIRECT_MAP_BYTES {
            phys.wrapping_add(KERNEL_OFFSET)
        } else {
            mmio_alias_va(phys)
        },
    }
}

/// `m` with `n` pages from `pa` on mapped at their alias.
pub open spec fn with_run(m: Map<int, u64>, a: Alias, pa: int, n: int, perm: Perm) -> Map<int, u64>
    decreases n,
{
    if n <= 0 {
        m
    } else {
        let p = (pa + (n - 1) * 4096) as u64;
        with_page(with_run(m, a, pa, n - 1, perm), alias_of(a, p), p, perm_flags(perm))
    }
}

/// `m` with `n` pages from `pa` on mapped at their alias, each as its section
/// says.
pub open spec fn with_window(
    m: Map<int, u64>,
    a: Alias,
    sections: Seq<Section>,
    pa: int,
    n: int,
) -> Map<int, u64>
    decreases n,
{
    if n <= 0 {
        m
    } else {
        let p = (pa + (n - 1) * 4096) as u64;
        with_page(
            with_window(m, a, sections, pa, n - 1),
            alias_of(a, p),
            p,
            perm_flags(pe::perm_at(sections, p as int)),
        )
    }
}

/// `m` with `n` blocks of 2 MiB, from the `b`-th on, mapped at their alias.
pub open spec fn with_blocks(m: Map<int, u64>, a: Alias, b: int, n: int, perm: Perm) -> Map<int, u64>
    decreases n,
{
    if n <= 0 {
        m
    } else {
        let p = ((b + n - 1) * PAGE_2M) as u64;
        with_block(with_blocks(m, a, b, n - 1, perm), alias_of(a, p), p, perm_flags(perm))
    }
}

/// The steps that map `n` pages from `pa` on at their alias, in order.
pub open spec fn run_steps(a: Alias, pa: int, n: int) -> Seq<Step> {
    Seq::new(n as nat, |i: int| page_step(alias_of(a, (pa + i * 4096) as u64)))
}

/// The steps that map `n` blocks of 2 MiB, from the `b`-th on, at their alias.
pub open spec fn blocks_steps(a: Alias, b: int, n: int) -> Seq<Step> {
    Seq::new(n as nat, |i: int| block_step(alias_of(a, ((b + i) * PAGE_2M) as u64)))
}

/// How many pages there are from `lo` up to `hi`, the last one begun counted.
pub open spec fn pages_in(lo: int, hi: int) -> int {
    if lo < hi {
        bits::ceil_div(hi - lo, 4096)
    } else {
        0
    }
}

/// Map the pages from `lo` up to `hi` at their alias.
fn map_run(
    mem: &mut PhysMem,
    fa: &mut FrameAllocator,
    root: u64,
    a: Alias,
    lo: u64,
    hi: u64,
    perm: Perm,
    Ghost(have): Ghost<int>,
    Ghost(steps): Ghost<Seq<Step>>,
) -> (r: bool)
    requires
        old(mem).wf(old(fa)),
        own_root(old(mem), root as int),
        old(fa).ready,
        needs::laid(old(mem), old(fa), root as int, have, steps),
        hi <= u64::MAX - 4096,
    ensures
        edited(old(mem), old(fa), final(mem), final(fa), root as int),
        own_root(final(mem), root as int),
        r ==> view(final(mem).words@, root as int) == with_run(
            view(old(mem).words@, root as int),
            a,
            lo as int,
            pages_in(lo as int, hi as int),
            perm,
        ),
        needs::went(
            r,
            final(mem),
            final(fa),
            root as int,
            have,
            steps + run_steps(a, lo as int, pages_in(lo as int, hi as int)),
            false,
        ),
{
    let ghost n = pages_in(lo as int, hi as int);
    proof {
        lemma_edited_same(mem, fa, root as int);
        if lo < hi {
            bits::lemma_ceil_div(hi - lo, 4096);
        }
        assert(steps + run_steps(a, lo as int, 0) =~= steps);
    }
    let mut p: u64 = lo;
    let ghost mut i: int = 0;
    while p < hi
        invariant
            mem.wf(fa),
            own_root(mem, root as int),
            old(mem).wf(old(fa)),
            old(fa).ready,
            hi <= u64::MAX - 4096,
            edited(old(mem), old(fa), mem, fa, root as int),
            needs::laid(mem, fa, root as int, have, steps + run_steps(a, lo as int, i)),
            p == lo + i * 4096,
            0 <= i,
            n == pages_in(lo as int, hi as int),
            lo < hi ==> n == (hi - lo) as int / 4096 + (if (hi - lo) as int % 4096 == 0 {
                0int
            } else {
                1int
            }),
            i <= n,
            view(mem.words@, root as int) == with_run(
                view(old(mem).words@, root as int),
                a,
                lo as int,
                i,
                perm,
            ),
        decreases hi + 4096 - p,
    {
        let ghost m1 = *mem;
        let ghost f1 = *fa;
        let va: u64 = alias_va(a, p);
        let ghost made = steps + run_steps(a, lo as int, i);
        let ok: bool = put_page(mem, fa, root, va, p, perm, Ghost(have), Ghost(made));
        proof {
            lemma_edited_edited(old(mem), old(fa), &m1, &f1, mem, fa, root as int);
            assert(made.push(page_step(va)) =~= steps + run_steps(a, lo as int, i + 1));
        }
        if !ok {
            proof {
                needs::lemma_too_few_more(
                    have,
                    steps + run_steps(a, lo as int, i + 1),
                    steps + run_steps(a, lo as int, n),
                    false,
                );
            }
            return false;
        }
        p = p + PAGE;
        proof {
            i = i + 1;
        }
    }
    assert(i == n);
    true
}

/// Map the pages from `lo` up to `hi` at their alias, each as its section says.
fn map_window(
    mem: &mut PhysMem,
    fa: &mut FrameAllocator,
    root: u64,
    a: Alias,
    lo: u64,
    hi: u64,
    sections: &Vec<Section>,
    Ghost(have): Ghost<int>,
    Ghost(steps): Ghost<Seq<Step>>,
) -> (r: bool)
    requires
        old(mem).wf(old(fa)),
        own_root(old(mem), root as int),
        old(fa).ready,
        needs::laid(old(mem), old(fa), root as int, have, steps),
        hi <= u64::MAX - 4096,
    ensures
        edited(old(mem), old(fa), final(mem), final(fa), root as int),
        own_root(final(mem), root as int),
        r ==> view(final(mem).words@, root as int) == with_window(
            view(old(mem).words@, root as int),
            a,
            sections@,
            lo as int,
            pages_in(lo as int, hi as int),
        ),
        needs::went(
            r,
            final(mem),
            final(fa),
            root as int,
            have,
            steps + run_steps(a, lo as int, pages_in(lo as int, hi as int)),
            false,
        ),
{
    let ghost n = pages_in(lo as int, hi as int);
    proof {
        lemma_edited_same(mem, fa, root as int);
        if lo < hi {
            bits::lemma_ceil_div(hi - lo, 4096);
        }
        assert(steps + run_steps(a, lo as int, 0) =~= steps);
    }
    let mut p: u64 = lo;
    let ghost mut i: int = 0;
    while p < hi
        invariant
            mem.wf(fa),
            own_root(mem, root as int),
            old(mem).wf(old(fa)),
            old(fa).ready,
            hi <= u64::MAX - 4096,
            edited(old(mem), old(fa), mem, fa, root as int),
            needs::laid(mem, fa, root as int, have, steps + run_steps(a, lo as int, i)),
            p == lo + i * 4096,
            0 <= i,
            n == pages_in(lo as int, hi as int),
            lo < hi ==> n == (hi - lo) as int / 4096 + (if (hi - lo) as int % 4096 == 0 {
                0int
            } else {
                1int
            }),
            i <= n,
            view(mem.words@, root as int) == with_window(
                view(old(mem).words@, root as int),
                a,
                sections@,
                lo as int,
                i,
            ),
        decreases hi + 4096 - p,
    {
        let ghost m1 = *mem;
        let ghost f1 = *fa;
        let va: u64 = alias_va(a, p);
        let perm: Perm = pe::section_perm(p, sections);
        let ghost made = steps + run_steps(a, lo as int, i);
        let ok: bool = put_page(mem, fa, root, va, p, perm, Ghost(have), Ghost(made));
        proof {
            lemma_edited_edited(old(mem), old(fa), &m1, &f1, mem, fa, root as int);
            assert(made.push(page_step(va)) =~= steps + run_steps(a, lo as int, i + 1));
        }
        if !ok {
            proof {
                needs::lemma_too_few_more(
                    have,
                    steps + run_steps(a, lo as int, i + 1),
                    steps + run_steps(a, lo as int, n),
                    false,
                );
            }
            return false;
        }
        p = p + PAGE;
        proof {
            i = i + 1;
        }
    }
    assert(i == n);
    true
}

/// How many blocks of 2 MiB `pa` to `pa + size` touches.
pub open spec fn blocks_in(pa: int, size: int) -> int {
    bits::ceil_div(pa + size, PAGE_2M as int) - pa / PAGE_2M as int
}

/// The blocks of 2 MiB that `pa` to `pa + size` touches, mapped at their
/// alias.
pub open spec fn with_range(m: Map<int, u64>, a: Alias, pa: int, size: int, perm: Perm) -> Map<
    int,
    u64,
> {
    with_blocks(m, a, pa / PAGE_2M as int, blocks_in(pa, size), perm)
}

/// The steps that map the blocks of 2 MiB that `pa` to `pa + size` touches.
pub open spec fn range_steps(a: Alias, pa: int, size: int) -> Seq<Step> {
    blocks_steps(a, pa / PAGE_2M as int, blocks_in(pa, size))
}

/// Map whole blocks of 2 MiB around `pa` to `pa + size` at their alias.
fn map_range_2m(
    mem: &mut PhysMem,
    fa: &mut FrameAllocator,
    root: u64,
    a: Alias,
    pa: u64,
    size: u64,
    perm: Perm,
    Ghost(have): Ghost<int>,
    Ghost(steps): Ghost<Seq<Step>>,
) -> (r: bool)
    requires
        old(mem).wf(old(fa)),
        own_root(old(mem), root as int),
        old(fa).ready,
        needs::laid(old(mem), old(fa), root as int, have, steps),
        pa + size <= 0x1_0000_0000,
    ensures
        edited(old(mem), old(fa), final(mem), final(fa), root as int),
        own_root(final(mem), root as int),
        r ==> view(final(mem).words@, root as int) == with_range(
            view(old(mem).words@, root as int),
            a,
            pa as int,
            size as int,
            perm,
        ),
        needs::went(
            r,
            final(mem),
            final(fa),
            root as int,
            have,
            steps + range_steps(a, pa as int, size as int),
            true,
        ),
{
    proof {
        lemma_edited_same(mem, fa, root as int);
        bits::lemma_ceil_div(pa + size, PAGE_2M as int);
        lemma_blocks_in(pa as int, size as int);
        assert(steps + blocks_steps(a, pa as int / PAGE_2M as int, 0) =~= steps);
    }
    let first: u64 = pa / PAGE_2M;
    let last: u64 = bits::div_ceil(pa + size, PAGE_2M);
    let mut b: u64 = first;
    while b < last
        invariant
            mem.wf(fa),
            own_root(mem, root as int),
            old(mem).wf(old(fa)),
            old(fa).ready,
            edited(old(mem), old(fa), mem, fa, root as int),
            needs::laid(
                mem,
                fa,
                root as int,
                have,
                steps + blocks_steps(a, first as int, b - first),
            ),
            first == pa / PAGE_2M,
            last - first == blocks_in(pa as int, size as int),
            first <= b,
            b <= last || b == first,
            last <= 0x801,
            view(mem.words@, root as int) == with_blocks(
                view(old(mem).words@, root as int),
                a,
                first as int,
                b - first,
                perm,
            ),
        decreases last - b,
    {
        let ghost m1 = *mem;
        let ghost f1 = *fa;
        let p: u64 = b * PAGE_2M;
        let va: u64 = alias_va(a, p);
        let ghost made = steps + blocks_steps(a, first as int, b - first);
        let ok: bool = put_block(mem, fa, root, va, p, perm, Ghost(have), Ghost(made));
        proof {
            lemma_edited_edited(old(mem), old(fa), &m1, &f1, mem, fa, root as int);
            assert(made.push(block_step(va)) =~= steps + blocks_steps(
                a,
                first as int,
                b + 1 - first,
            ));
        }
        if !ok {
            proof {
                needs::lemma_too_few_more(
                    have,
                    steps + blocks_steps(a, first as int, b + 1 - first),
                    steps + range_steps(a, pa as int, size as int),
                    true,
                );
            }
            return false;
        }
        b = b + 1;
    }
    assert(b == last || last <= first);
    true
}

pub open spec fn larger(a: int, b: int) -> int {
    if a >= b {
        a
    } else {
        b
    }
}

pub open spec fn smaller(a: int, b: int) -> int {
    if a <= b {
        a
    } else {
        b
    }
}

/// The direct map of a region: whole blocks, as far as the direct map goes.
pub open spec fn with_direct(m: Map<int, u64>, base: int, end: int) -> Map<int, u64> {
    if base < DIRECT_MAP_BYTES {
        with_range(
            m,
            Alias::Direct,
            base,
            smaller(end, DIRECT_MAP_BYTES as int) - base,
            Perm::Rw,
        )
    } else {
        m
    }
}

/// The steps of the direct map of a region.
pub open spec fn direct_steps(base: int, end: int) -> Seq<Step> {
    if base < DIRECT_MAP_BYTES {
        range_steps(Alias::Direct, base, smaller(end, DIRECT_MAP_BYTES as int) - base)
    } else {
        Seq::empty()
    }
}

/// What the kernel's view takes over of one region: runtime services at
/// their own addresses and, past the direct map, at their aliases; device
/// windows; and the direct map.
pub open spec fn with_region(m: Map<int, u64>, r: Region) -> Map<int, u64> {
    if r.pages == 0 || r.base > 0xFFFF_FFFF {
        m
    } else if r.kind == handoff::KIND_RUNTIME_SERVICES_CODE || r.kind
        == handoff::KIND_RUNTIME_SERVICES_DATA {
        let perm = if r.kind == handoff::KIND_RUNTIME_SERVICES_CODE {
            Perm::Rx
        } else {
            Perm::Rw
        };
        let high = larger(r.base as int, DIRECT_MAP_BYTES as int);
        let m1 = with_run(m, Alias::Identity, r.base as int, pages_in(r.base as int, r.end()), perm);
        let m2 = with_run(m1, Alias::Mmio, high, pages_in(high, r.end()), perm);
        with_direct(m2, r.base as int, r.end())
    } else if r.kind == handoff::KIND_MMIO || r.kind == handoff::KIND_MMIO_PORT_SPACE {
        let m1 = with_run(
            m,
            Alias::Device,
            r.base as int,
            pages_in(r.base as int, r.end()),
            Perm::Rw,
        );
        with_direct(m1, r.base as int, r.end())
    } else {
        with_direct(m, r.base as int, r.end())
    }
}

/// The steps that take one region over into the kernel's view.
pub open spec fn region_steps(r: Region) -> Seq<Step> {
    let pages = pages_in(r.base as int, r.end());
    if r.pages == 0 || r.base > 0xFFFF_FFFF {
        Seq::empty()
    } else if r.kind == handoff::KIND_RUNTIME_SERVICES_CODE || r.kind
        == handoff::KIND_RUNTIME_SERVICES_DATA {
        let high = larger(r.base as int, DIRECT_MAP_BYTES as int);
        run_steps(Alias::Identity, r.base as int, pages) + run_steps(
            Alias::Mmio,
            high,
            pages_in(high, r.end()),
        ) + direct_steps(r.base as int, r.end())
    } else if r.kind == handoff::KIND_MMIO || r.kind == handoff::KIND_MMIO_PORT_SPACE {
        run_steps(Alias::Device, r.base as int, pages) + direct_steps(r.base as int, r.end())
    } else {
        direct_steps(r.base as int, r.end())
    }
}

/// The steps that take the first `n` regions over into the kernel's view.
pub open spec fn regions_steps(regions: Seq<Region>, n: int) -> Seq<Step>
    decreases n,
{
    if n <= 0 {
        Seq::empty()
    } else {
        regions_steps(regions, n - 1) + region_steps(regions[n - 1])
    }
}

/// The steps for the pages of the image, in order.
pub open spec fn image_steps(a: Alias, image: ImageLayout) -> Seq<Step> {
    let lo = image.base as int / 4096 * 4096;
    let hi = bits::ceil_div(image.base + image.size, 4096) * 4096;
    run_steps(a, lo, pages_in(lo, hi))
}

/// The step that maps a device's 2 MiB at its alias.
pub open spec fn device_step(phys: int) -> Step {
    block_step(mmio_alias((phys / PAGE_2M as int * PAGE_2M) as u64))
}

proof fn lemma_blocks_in(pa: int, size: int)
    requires
        0 <= pa,
        0 <= size,
    ensures
        0 <= blocks_in(pa, size),
{
    bits::lemma_ceil_div(pa + size, PAGE_2M as int);
}

/// Fewer regions come first.
proof fn lemma_regions_first(regions: Seq<Region>, n: int, m: int)
    requires
        0 <= n <= m,
    ensures
        regions_steps(regions, n).len() <= regions_steps(regions, m).len(),
        forall|i: int|
            0 <= i < regions_steps(regions, n).len() ==> #[trigger] regions_steps(regions, n)[i]
                == regions_steps(regions, m)[i],
    decreases m,
{
    if n < m {
        lemma_regions_first(regions, n, m - 1);
        let before = regions_steps(regions, m - 1);
        assert forall|i: int|
            0 <= i < regions_steps(regions, n).len() implies #[trigger] regions_steps(
            regions,
            n,
        )[i] == regions_steps(regions, m)[i] by {
            assert(regions_steps(regions, m)[i] == before[i]);
        }
    }
}

/// The first `n` regions, taken over in order.
pub open spec fn with_regions(m: Map<int, u64>, regions: Seq<Region>, n: int) -> Map<int, u64>
    decreases n,
{
    if n <= 0 {
        m
    } else {
        with_region(with_regions(m, regions, n - 1), regions[n - 1])
    }
}

/// A device's 2 MiB at its alias, unless something is mapped there.
pub open spec fn with_device(m: Map<int, u64>, phys: int, clash: &'static str) -> Result<
    Map<int, u64>,
    &'static str,
> {
    let p = (phys / PAGE_2M as int * PAGE_2M) as u64;
    if m.dom().contains(paging::page_no(mmio_alias(p) as int)) {
        Err(clash)
    } else {
        Ok(with_block(m, mmio_alias(p), p, perm_flags(Perm::Rw)))
    }
}

/// The translations of the kernel's own view.
pub open spec fn kernel_plan(
    regions: Seq<Region>,
    image: ImageLayout,
    sections: Seq<Section>,
    island: u64,
    apic: u64,
) -> Result<Map<int, u64>, &'static str> {
    let page = (island / 4096 * 4096) as u64;
    let m1 = with_regions(Map::empty(), regions, regions.len() as int);
    let m2 = with_page(m1, page, page, perm_flags(Perm::Rx));
    let m3 = if apic != 0 {
        with_device(m2, apic as int, "LAPIC kernel-half alias collides with the direct map")
    } else {
        Ok(m2)
    };
    match m3 {
        Err(e) => Err(e),
        Ok(m4) => match with_device(
            m4,
            IOAPIC_PHYS as int,
            "IOAPIC kernel-half alias collides with the direct map",
        ) {
            Err(e) => Err(e),
            Ok(m5) => {
                let lo = image.base as int / 4096 * 4096;
                let hi = bits::ceil_div(image.base + image.size, 4096) * 4096;
                Ok(with_window(m5, Alias::Direct, sections, lo, pages_in(lo, hi)))
            },
        },
    }
}

/// The steps that are made for the kernel's own view, in order: all of them,
/// or those before a device whose alias is in use.
pub open spec fn kernel_steps(
    regions: Seq<Region>,
    image: ImageLayout,
    island: u64,
    apic: u64,
) -> Seq<Step> {
    let page = (island / 4096 * 4096) as u64;
    let m1 = with_regions(Map::empty(), regions, regions.len() as int);
    let m2 = with_page(m1, page, page, perm_flags(Perm::Rx));
    let s2 = regions_steps(regions, regions.len() as int).push(page_step(page));
    let m3 = if apic != 0 {
        with_device(m2, apic as int, "LAPIC kernel-half alias collides with the direct map")
    } else {
        Ok(m2)
    };
    match m3 {
        Err(_) => s2,
        Ok(m4) => {
            let s4 = if apic != 0 {
                s2.push(device_step(apic as int))
            } else {
                s2
            };
            match with_device(
                m4,
                IOAPIC_PHYS as int,
                "IOAPIC kernel-half alias collides with the direct map",
            ) {
                Err(_) => s4,
                Ok(_) => s4.push(device_step(IOAPIC_PHYS as int)) + image_steps(
                    Alias::Direct,
                    image,
                ),
            }
        },
    }
}

/// Whether anything is mapped at `va` under `root`.
fn kernel_alias_busy(mem: &PhysMem, fa: &FrameAllocator, root: u64, va: u64) -> (r: bool)
    requires
        mem.wf(fa),
        paging::is_root(mem.seats@, root as int),
    ensures
        r == view(mem.words@, root as int).dom().contains(paging::page_no(va as int)),
{
    paging::translate(mem, root, va).is_some()
}

/// Take over the direct map of a region.
fn map_direct(
    mem: &mut PhysMem,
    fa: &mut FrameAllocator,
    root: u64,
    base: u64,
    end: u64,
    Ghost(have): Ghost<int>,
    Ghost(steps): Ghost<Seq<Step>>,
) -> (r: bool)
    requires
        old(mem).wf(old(fa)),
        own_root(old(mem), root as int),
        old(fa).ready,
        needs::laid(old(mem), old(fa), root as int, have, steps),
        base < end,
    ensures
        edited(old(mem), old(fa), final(mem), final(fa), root as int),
        own_root(final(mem), root as int),
        r ==> view(final(mem).words@, root as int) == with_direct(
            view(old(mem).words@, root as int),
            base as int,
            end as int,
        ),
        needs::went(
            r,
            final(mem),
            final(fa),
            root as int,
            have,
            steps + direct_steps(base as int, end as int),
            true,
        ),
{
    if base < DIRECT_MAP_BYTES {
        let stop: u64 = if end < DIRECT_MAP_BYTES {
            end
        } else {
            DIRECT_MAP_BYTES
        };
        map_range_2m(
            mem,
            fa,
            root,
            Alias::Direct,
            base,
            stop - base,
            Perm::Rw,
            Ghost(have),
            Ghost(steps),
        )
    } else {
        proof {
            lemma_edited_same(mem, fa, root as int);
            assert(steps + direct_steps(base as int, end as int) =~= steps);
        }
        true
    }
}

/// Take over one region into the kernel's view.
fn map_region(
    mem: &mut PhysMem,
    fa: &mut FrameAllocator,
    root: u64,
    reg: Region,
    Ghost(have): Ghost<int>,
    Ghost(steps): Ghost<Seq<Step>>,
) -> (r: Result<(), &'static str>)
    requires
        old(mem).wf(old(fa)),
        own_root(old(mem), root as int),
        old(fa).ready,
        needs::laid(old(mem), old(fa), root as int, have, steps),
        reg.sane(),
    ensures
        edited(old(mem), old(fa), final(mem), final(fa), root as int),
        own_root(final(mem), root as int),
        r is Ok ==> view(final(mem).words@, root as int) == with_region(
            view(old(mem).words@, root as int),
            reg,
        ),
        r is Ok ==> needs::laid(
            final(mem),
            final(fa),
            root as int,
            have,
            steps + region_steps(reg),
        ),
        r is Err ==> exhausted(r, final(fa), have, steps + region_steps(reg)),
{
    let ghost all = steps + region_steps(reg);
    let ghost mut made = steps;
    proof {
        lemma_edited_same(mem, fa, root as int);
        assert(reg.pages == 0 || reg.base > 0xFFFF_FFFF ==> all =~= steps);
    }
    if reg.pages == 0 || reg.base > 0xFFFF_FFFF {
        return Ok(());
    }
    let end: u64 = reg.base + reg.pages * PAGE;
    if reg.kind == handoff::KIND_RUNTIME_SERVICES_CODE || reg.kind
        == handoff::KIND_RUNTIME_SERVICES_DATA {
        let perm: Perm = if reg.kind == handoff::KIND_RUNTIME_SERVICES_CODE {
            Perm::Rx
        } else {
            Perm::Rw
        };
        let ghost runs = steps + run_steps(
            Alias::Identity,
            reg.base as int,
            pages_in(reg.base as int, end as int),
        );
        if !map_run(
            mem,
            fa,
            root,
            Alias::Identity,
            reg.base,
            end,
            perm,
            Ghost(have),
            Ghost(steps),
        ) {
            proof {
                needs::lemma_too_few_more(have, runs, all, false);
            }
            return Err("frames exhausted (window map)");
        }
        let ghost m1 = *mem;
        let ghost f1 = *fa;
        let high: u64 = if reg.base >= DIRECT_MAP_BYTES {
            reg.base
        } else {
            DIRECT_MAP_BYTES
        };
        let ok: bool = map_run(
            mem,
            fa,
            root,
            Alias::Mmio,
            high,
            end,
            perm,
            Ghost(have),
            Ghost(runs),
        );
        proof {
            lemma_edited_edited(old(mem), old(fa), &m1, &f1, mem, fa, root as int);
            made = runs + run_steps(Alias::Mmio, high as int, pages_in(high as int, end as int));
            assert(made + direct_steps(reg.base as int, end as int) =~= all);
        }
        if !ok {
            proof {
                needs::lemma_too_few_more(have, made, all, false);
            }
            return Err("frames exhausted (window map)");
        }
    } else if reg.kind == handoff::KIND_MMIO || reg.kind == handoff::KIND_MMIO_PORT_SPACE {
        let ok: bool = map_run(
            mem,
            fa,
            root,
            Alias::Device,
            reg.base,
            end,
            Perm::Rw,
            Ghost(have),
            Ghost(steps),
        );
        proof {
            made = steps + run_steps(
                Alias::Device,
                reg.base as int,
                pages_in(reg.base as int, end as int),
            );
            assert(made + direct_steps(reg.base as int, end as int) =~= all);
        }
        if !ok {
            proof {
                needs::lemma_too_few_more(have, made, all, false);
            }
            return Err("frames exhausted (window map)");
        }
    }
    let ghost m2 = *mem;
    let ghost f2 = *fa;
    let ok: bool = map_direct(mem, fa, root, reg.base, end, Ghost(have), Ghost(made));
    proof {
        lemma_edited_edited(old(mem), old(fa), &m2, &f2, mem, fa, root as int);
        assert(made + direct_steps(reg.base as int, end as int) =~= all);
    }
    if !ok {
        return Err("frames exhausted (bulk map)");
    }
    Ok(())
}

/// The frames, of which there were `have`, ran out on the way through `steps`:
/// at a page, or at a 2 MiB leaf. The kernel stops on it.
pub open spec fn exhausted<T>(
    r: Result<T, &'static str>,
    post: &FrameAllocator,
    have: int,
    steps: Seq<Step>,
) -> bool {
    &&& post.available() == 0
    &&& ({
        ||| r == Err::<T, &'static str>("frames exhausted (window map)") && needs::too_few(
            have,
            steps,
            false,
        )
        ||| r == Err::<T, &'static str>("frames exhausted (bulk map)") && needs::too_few(
            have,
            steps,
            true,
        )
    })
}

/// More steps do not help.
proof fn lemma_exhausted_more<T>(
    r: Result<T, &'static str>,
    post: &FrameAllocator,
    have: int,
    steps: Seq<Step>,
    more: Seq<Step>,
)
    requires
        exhausted(r, post, have, steps),
        steps.len() <= more.len(),
        forall|i: int| 0 <= i < steps.len() ==> #[trigger] steps[i] == more[i],
    ensures
        exhausted(r, post, have, more),
        have < needs::cost(more, more.len() as int),
{
    if needs::too_few(have, steps, false) {
        needs::lemma_too_few_more(have, steps, more, false);
        needs::lemma_too_few_cost(have, more, false);
    }
    if needs::too_few(have, steps, true) {
        needs::lemma_too_few_more(have, steps, more, true);
        needs::lemma_too_few_cost(have, more, true);
    }
}

/// Map a device's 2 MiB at its alias, unless something is mapped there.
fn map_device(
    mem: &mut PhysMem,
    fa: &mut FrameAllocator,
    root: u64,
    phys: u64,
    clash: &'static str,
    Ghost(have): Ghost<int>,
    Ghost(steps): Ghost<Seq<Step>>,
) -> (r: Result<(), &'static str>)
    requires
        old(mem).wf(old(fa)),
        own_root(old(mem), root as int),
        old(fa).ready,
        needs::laid(old(mem), old(fa), root as int, have, steps),
    ensures
        edited(old(mem), old(fa), final(mem), final(fa), root as int),
        own_root(final(mem), root as int),
        match with_device(view(old(mem).words@, root as int), phys as int, clash) {
            Err(e) => {
                &&& r == Err::<(), &'static str>(e)
                &&& *final(mem) == *old(mem)
                &&& *final(fa) == *old(fa)
            },
            Ok(m) => {
                let more = steps.push(device_step(phys as int));
                if r is Ok {
                    &&& view(final(mem).words@, root as int) == m
                    &&& needs::laid(final(mem), final(fa), root as int, have, more)
                } else {
                    exhausted(r, final(fa), have, more)
                }
            },
        },
{
    proof {
        lemma_edited_same(mem, fa, root as int);
    }
    let p: u64 = phys / PAGE_2M * PAGE_2M;
    let alias: u64 = mmio_alias_va(p);
    if kernel_alias_busy(mem, fa, root, alias) {
        return Err(clash);
    }
    if put_block(mem, fa, root, alias, p, Perm::Rw, Ghost(have), Ghost(steps)) {
        Ok(())
    } else {
        Err("frames exhausted (bulk map)")
    }
}

/// The regions and the page for the reset come first.
proof fn lemma_kernel_first(regions: Seq<Region>, image: ImageLayout, island: u64, apic: u64, n: int)
    requires
        0 <= n <= regions.len(),
    ensures
        ({
            let all = kernel_steps(regions, image, island, apic);
            let some = regions_steps(regions, n);
            let s2 = regions_steps(regions, regions.len() as int).push(
                page_step((island / 4096 * 4096) as u64),
            );
            &&& some.len() <= all.len()
            &&& forall|i: int| 0 <= i < some.len() ==> #[trigger] some[i] == all[i]
            &&& s2.len() <= all.len()
            &&& forall|i: int| 0 <= i < s2.len() ==> #[trigger] s2[i] == all[i]
        }),
{
    let all = kernel_steps(regions, image, island, apic);
    let some = regions_steps(regions, n);
    let whole = regions_steps(regions, regions.len() as int);
    let s2 = whole.push(page_step((island / 4096 * 4096) as u64));
    lemma_regions_first(regions, n, regions.len() as int);
    assert forall|i: int| 0 <= i < some.len() implies #[trigger] some[i] == all[i] by {
        assert(some[i] == whole[i]);
        assert(s2[i] == whole[i]);
    }
}

/// Fill the kernel's view, whose root is new and empty.
#[verifier::spinoff_prover]
#[verifier::rlimit(80)]
fn fill_kernel_view(
    mem: &mut PhysMem,
    fa: &mut FrameAllocator,
    root: u64,
    h: &Handoff,
    image: ImageLayout,
    sections: &Vec<Section>,
    island: u64,
    apic: u64,
    Ghost(have): Ghost<int>,
) -> (r: Result<(), &'static str>)
    requires
        old(mem).wf(old(fa)),
        own_root(old(mem), root as int),
        old(fa).ready,
        h.sane(),
        image.base + image.size <= DIRECT_MAP_BYTES,
        view(old(mem).words@, root as int) == Map::<int, u64>::empty(),
        needs::laid(old(mem), old(fa), root as int, have, Seq::empty()),
    ensures
        edited(old(mem), old(fa), final(mem), final(fa), root as int),
        own_root(final(mem), root as int),
        ({
            let steps = kernel_steps(h.regions@, image, island, apic);
            let cost = needs::cost(steps, steps.len() as int);
            if have < cost {
                exhausted(r, final(fa), have, steps)
            } else {
                &&& final(fa).available() == have - cost
                &&& match kernel_plan(h.regions@, image, sections@, island, apic) {
                    Err(e) => r == Err::<(), &'static str>(e),
                    Ok(m) => r == Ok::<(), &'static str>(()) && view(
                        final(mem).words@,
                        root as int,
                    ) == m,
                }
            }
        }),
{
    let ghost all = kernel_steps(h.regions@, image, island, apic);
    proof {
        lemma_edited_same(mem, fa, root as int);
    }
    let n: usize = handoff::region_count(h);
    let mut i: usize = 0;
    while i < n
        invariant
            i <= n,
            n == h.regions@.len(),
            h.sane(),
            mem.wf(fa),
            own_root(mem, root as int),
            old(mem).wf(old(fa)),
            old(fa).ready,
            all == kernel_steps(h.regions@, image, island, apic),
            edited(old(mem), old(fa), mem, fa, root as int),
            needs::laid(mem, fa, root as int, have, regions_steps(h.regions@, i as int)),
            view(mem.words@, root as int) == with_regions(Map::empty(), h.regions@, i as int),
        decreases n - i,
    {
        let ghost m1 = *mem;
        let ghost f1 = *fa;
        let ghost made = regions_steps(h.regions@, i as int);
        let reg = h.regions[i];
        assert(h.regions@[i as int].sane());
        let res = map_region(mem, fa, root, reg, Ghost(have), Ghost(made));
        proof {
            lemma_edited_edited(old(mem), old(fa), &m1, &f1, mem, fa, root as int);
        }
        if let Err(e) = res {
            proof {
                lemma_kernel_first(h.regions@, image, island, apic, i + 1);
                lemma_exhausted_more(
                    res,
                    fa,
                    have,
                    regions_steps(h.regions@, i + 1),
                    all,
                );
            }
            return Err(e);
        }
        i = i + 1;
    }
    let ghost m2 = *mem;
    let ghost f2 = *fa;
    let ghost whole = regions_steps(h.regions@, n as int);
    let page: u64 = island / PAGE * PAGE;
    let ok: bool = put_page(mem, fa, root, page, page, Perm::Rx, Ghost(have), Ghost(whole));
    let ghost s2 = whole.push(page_step(page));
    proof {
        lemma_edited_edited(old(mem), old(fa), &m2, &f2, mem, fa, root as int);
        lemma_kernel_first(h.regions@, image, island, apic, n as int);
    }
    if !ok {
        proof {
            let err = Err::<(), &'static str>("frames exhausted (window map)");
            lemma_exhausted_more(err, fa, have, s2, all);
        }
        return Err("frames exhausted (window map)");
    }
    let ghost mut s4 = s2;
    if apic != 0 {
        let ghost m3 = *mem;
        let ghost f3 = *fa;
        let res = map_device(
            mem,
            fa,
            root,
            apic,
            "LAPIC kernel-half alias collides with the direct map",
            Ghost(have),
            Ghost(s2),
        );
        proof {
            lemma_edited_edited(old(mem), old(fa), &m3, &f3, mem, fa, root as int);
            s4 = s2.push(device_step(apic as int));
        }
        if let Err(e) = res {
            proof {
                if exhausted(res, fa, have, s4) && s4.len() <= all.len() {
                    lemma_exhausted_more(res, fa, have, s4, all);
                } else {
                    lemma_laid_affords(mem, fa, root as int, have, s2);
                }
            }
            return Err(e);
        }
    }
    let ghost m4 = *mem;
    let ghost f4 = *fa;
    let res = map_device(
        mem,
        fa,
        root,
        IOAPIC_PHYS,
        "IOAPIC kernel-half alias collides with the direct map",
        Ghost(have),
        Ghost(s4),
    );
    let ghost s5 = s4.push(device_step(IOAPIC_PHYS as int));
    proof {
        lemma_edited_edited(old(mem), old(fa), &m4, &f4, mem, fa, root as int);
    }
    if let Err(e) = res {
        proof {
            if exhausted(res, fa, have, s5) && s5.len() <= all.len() {
                lemma_exhausted_more(res, fa, have, s5, all);
            } else {
                lemma_laid_affords(mem, fa, root as int, have, s4);
            }
        }
        return Err(e);
    }
    let ghost m5 = *mem;
    let ghost f5 = *fa;
    let lo: u64 = image.base / PAGE * PAGE;
    let hi: u64 = bits::div_ceil(image.base + image.size, PAGE) * PAGE;
    let ok: bool = map_window(
        mem,
        fa,
        root,
        Alias::Direct,
        lo,
        hi,
        sections,
        Ghost(have),
        Ghost(s5),
    );
    proof {
        lemma_edited_edited(old(mem), old(fa), &m5, &f5, mem, fa, root as int);
        assert(all == s5 + image_steps(Alias::Direct, image));
    }
    if !ok {
        proof {
            let err = Err::<(), &'static str>("frames exhausted (window map)");
            lemma_exhausted_more(err, fa, have, all, all);
        }
        return Err("frames exhausted (window map)");
    }
    proof {
        lemma_laid_affords(mem, fa, root as int, have, all);
    }
    Ok(())
}

/// Steps that were made could be paid for.
proof fn lemma_laid_affords(
    mem: &PhysMem,
    fa: &FrameAllocator,
    root: int,
    have: int,
    steps: Seq<Step>,
)
    requires
        needs::laid(mem, fa, root, have, steps),
    ensures
        fa.available() == have - needs::cost(steps, steps.len() as int),
        needs::cost(steps, steps.len() as int) <= have,
{
    needs::lemma_laid_seen(mem, fa, root, have, steps);
    frames::lemma_free_bounds(fa.map@, frames::FRAME_COUNT as int);
}

/// What [`build_kernel_view`] answers and does.
pub open spec fn kernel_view_built(
    p0: &Paging,
    p1: &Paging,
    fa0: &FrameAllocator,
    fa1: &FrameAllocator,
    h: &Handoff,
    image: &[u8],
    island: u64,
    r: Result<u64, &'static str>,
) -> bool {
    &&& p1.wf(fa1)
    &&& p1.live_root == p0.live_root
    &&& p1.apic_base == p0.apic_base
    &&& p1.skipped_high == p0.skipped_high
    &&& r is Err ==> p1.kernel_root == p0.kernel_root
    &&& paging::same_leaves(&p0.mem, &p1.mem)
    &&& paging::data_kept(&p0.mem, fa0, &p1.mem)
    &&& paging::tables_grown(&p0.mem, fa0, &p1.mem)
    &&& paging::frames_spent(
        fa0,
        fa1,
        fa0.available() - fa1.available(),
    )
    &&& if h.image.base == 0 || h.image.size == 0 {
        &&& r == Err::<u64, &'static str>("handoff image layout missing")
        &&& *p1 == *p0
        &&& *fa1 == *fa0
    } else {
        match pe::sections_of(image@, h.image.base as int) {
            Err(e) => r == Err::<u64, &'static str>(e) && *p1 == *p0 && *fa1
                == *fa0,
            Ok(sections) => if !paging::can_take(fa0, 1) {
                &&& r == Err::<u64, &'static str>("out of frames for the kernel-view PML4")
        &&& *p1 == *p0
        &&& *fa1 == *fa0
            } else {
                let steps = kernel_steps(h.regions@, h.image, island, p0.apic_base);
                let cost = needs::cost(steps, steps.len() as int);
                let have = fa0.available() - 1;
                if have < cost {
                    exhausted(r, fa1, have, steps)
                } else {
                    &&& fa1.available() == have - cost
                    &&& match kernel_plan(
                        h.regions@,
                        h.image,
                        sections,
                        island,
                        p0.apic_base,
                    ) {
                        Err(e) => r == Err::<u64, &'static str>(e),
                        Ok(m) => r matches Ok(root) && {
                            &&& p1.kernel_root == root
                            &&& p1.kernel_built()
                            &&& view(p1.mem.words@, root as int) == m
                        },
                    }
                }
            },
        }
    }
}

/// Build the kernel's own view: the direct map, the runtime services, the
/// devices and the image, each with its permissions, and nothing else.
/// `island` is the page from which the machine is reset.
#[verifier::spinoff_prover]
#[verifier::rlimit(80)]
pub fn build_kernel_view(
    p: &mut Paging,
    fa: &mut FrameAllocator,
    h: &Handoff,
    image: &[u8],
    island: u64,
) -> (r: Result<u64, &'static str>)
    requires
        old(p).wf(old(fa)),
        h.sane(),
        h.image.base + h.image.size <= DIRECT_MAP_BYTES,
    ensures
        kernel_view_built(old(p), final(p), old(fa), final(fa), h, image, island, r),
{
    let layout: ImageLayout = match handoff::image_layout(h) {
        None => {
            return Err("handoff image layout missing");
        },
        Some(l) => l,
    };
    let sections: Vec<Section> = match pe::parse_pe_sections(image, layout.base) {
        Err(e) => {
            return Err(e);
        },
        Ok(s) => s,
    };
    let root: u64 = match paging::new_root(&mut p.mem, fa, None) {
        None => {
            return Err("out of frames for the kernel-view PML4");
        },
        Some(f) => f,
    };
    let ghost m1 = p.mem;
    let ghost f1 = *fa;
    proof {
        assert(view(m1.words@, root as int) =~= Map::<int, u64>::empty());
        if p.kernel_root != 0 {
            assert(p.mem.seats@.dom().contains(p.kernel_root as int));
        }
    }
    let apic: u64 = p.apic_base;
    proof {
        needs::lemma_laid_none(&p.mem, fa, root as int);
    }
    let res = fill_kernel_view(
        &mut p.mem,
        fa,
        root,
        h,
        layout,
        &sections,
        island,
        apic,
        Ghost(f1.available()),
    );
    proof {
        lemma_grown_edited(&old(p).mem, old(fa), &m1, &f1, &p.mem, fa, root as int);
    }
    match res {
        Err(e) => Err(e),
        Ok(_) => {
            p.kernel_root = root;
            Ok(root)
        },
    }
}

/// What editing a new address space does to those that stood before.
proof fn lemma_grown_edited(
    m0: &PhysMem,
    f0: &FrameAllocator,
    m1: &PhysMem,
    f1: &FrameAllocator,
    m2: &PhysMem,
    f2: &FrameAllocator,
    root: int,
)
    requires
        m0.wf(f0),
        m1.wf(f1),
        !m0.seats@.dom().contains(root),
        paging::tables_grown(m0, f0, m1),
        paging::data_kept(m0, f0, m1),
        paging::same_leaves(m0, m1),
        paging::frames_spent(f0, f1, 1),
        edited(m1, f1, m2, f2, root),
    ensures
        paging::tables_grown(m0, f0, m2),
        paging::data_kept(m0, f0, m2),
        paging::same_leaves(m0, m2),
        paging::frames_spent(f0, f2, f0.available() - f2.available()),
{
    paging::lemma_kept_kept(m0, f0, m1, f1, m2, f2);
    assert forall|r: int, v: int| #![trigger paging::leaf(m2.words@, r, v)]
        paging::is_root(m0.seats@, r) && 0 <= v < PAGES implies paging::leaf(m2.words@, r, v)
        == paging::leaf(m0.words@, r, v) by {
        assert(paging::is_table(m0.words@, m0.seats@, r));
        assert(m1.seats@.dom().contains(r));
        assert(paging::leaf(m1.words@, r, v) == paging::leaf(m0.words@, r, v));
    }
}

/// No page is both writable and executable.
pub open spec fn w_xor_x(m: Map<int, u64>) -> bool {
    forall|v: int| #[trigger] m.dom().contains(v) ==> !(paging::writable(m[v])
        && paging::executable(m[v]))
}

proof fn lemma_page_wx(m: Map<int, u64>, va: u64, pa: u64, perm: Perm)
    requires
        w_xor_x(m),
        perm != Perm::FwCompat,
    ensures
        w_xor_x(with_page(m, va, pa, perm_flags(perm))),
{
    lemma_perm_bits(pa);
}

proof fn lemma_block_wx(m: Map<int, u64>, va: u64, pa: u64, perm: Perm)
    requires
        w_xor_x(m),
        perm != Perm::FwCompat,
    ensures
        w_xor_x(with_block(m, va, pa, perm_flags(perm))),
{
    lemma_perm_bits(pa);
    let w = page_entry(pa, perm_flags(perm));
    let n = with_block(m, va, pa, perm_flags(perm));
    assert forall|v: int| #[trigger] n.dom().contains(v) implies !(paging::writable(n[v])
        && paging::executable(n[v])) by {
        if v / 512 == paging::page_no(va as int) / 512 {
            paging::lemma_mask(w | PTE_HUGE);
            let y = (paging::addr(w | PTE_HUGE) + (v % 512) * 4096) as u64;
            lemma_split_bits(w, y);
        }
    }
}

proof fn lemma_run_wx(m: Map<int, u64>, a: Alias, pa: int, n: int, perm: Perm)
    requires
        w_xor_x(m),
        perm != Perm::FwCompat,
    ensures
        w_xor_x(with_run(m, a, pa, n, perm)),
    decreases n,
{
    if n > 0 {
        lemma_run_wx(m, a, pa, n - 1, perm);
        let p = (pa + (n - 1) * 4096) as u64;
        lemma_page_wx(with_run(m, a, pa, n - 1, perm), alias_of(a, p), p, perm);
    }
}

proof fn lemma_perm_at_wx(sections: Seq<Section>, phys: int)
    requires
        forall|i: int| 0 <= i < sections.len() ==> (#[trigger] sections[i]).perm != Perm::FwCompat,
    ensures
        pe::perm_at(sections, phys) != Perm::FwCompat,
    decreases sections.len(),
{
    if sections.len() > 0 {
        lemma_perm_at_wx(sections.drop_first(), phys);
    }
}

proof fn lemma_window_wx(m: Map<int, u64>, a: Alias, sections: Seq<Section>, pa: int, n: int)
    requires
        w_xor_x(m),
        forall|i: int| 0 <= i < sections.len() ==> (#[trigger] sections[i]).perm != Perm::FwCompat,
    ensures
        w_xor_x(with_window(m, a, sections, pa, n)),
    decreases n,
{
    if n > 0 {
        lemma_window_wx(m, a, sections, pa, n - 1);
        let p = (pa + (n - 1) * 4096) as u64;
        lemma_perm_at_wx(sections, p as int);
        lemma_page_wx(
            with_window(m, a, sections, pa, n - 1),
            alias_of(a, p),
            p,
            pe::perm_at(sections, p as int),
        );
    }
}

proof fn lemma_blocks_wx(m: Map<int, u64>, a: Alias, b: int, n: int, perm: Perm)
    requires
        w_xor_x(m),
        perm != Perm::FwCompat,
    ensures
        w_xor_x(with_blocks(m, a, b, n, perm)),
    decreases n,
{
    if n > 0 {
        lemma_blocks_wx(m, a, b, n - 1, perm);
        let p = ((b + n - 1) * PAGE_2M) as u64;
        lemma_block_wx(with_blocks(m, a, b, n - 1, perm), alias_of(a, p), p, perm);
    }
}

proof fn lemma_direct_wx(m: Map<int, u64>, base: int, end: int)
    requires
        w_xor_x(m),
    ensures
        w_xor_x(with_direct(m, base, end)),
{
    let size = smaller(end, DIRECT_MAP_BYTES as int) - base;
    lemma_blocks_wx(
        m,
        Alias::Direct,
        base / PAGE_2M as int,
        bits::ceil_div(base + size, PAGE_2M as int) - base / PAGE_2M as int,
        Perm::Rw,
    );
}

proof fn lemma_region_wx(m: Map<int, u64>, r: Region)
    requires
        w_xor_x(m),
    ensures
        w_xor_x(with_region(m, r)),
{
    let perm = if r.kind == handoff::KIND_RUNTIME_SERVICES_CODE {
        Perm::Rx
    } else {
        Perm::Rw
    };
    let n = pages_in(r.base as int, r.end());
    let high = larger(r.base as int, DIRECT_MAP_BYTES as int);
    lemma_run_wx(m, Alias::Identity, r.base as int, n, perm);
    let m1 = with_run(m, Alias::Identity, r.base as int, n, perm);
    lemma_run_wx(m1, Alias::Mmio, high, pages_in(high, r.end()), perm);
    lemma_run_wx(m, Alias::Device, r.base as int, n, Perm::Rw);
    lemma_direct_wx(m, r.base as int, r.end());
    lemma_direct_wx(
        with_run(m1, Alias::Mmio, high, pages_in(high, r.end()), perm),
        r.base as int,
        r.end(),
    );
    lemma_direct_wx(
        with_run(m, Alias::Device, r.base as int, n, Perm::Rw),
        r.base as int,
        r.end(),
    );
}

proof fn lemma_regions_wx(m: Map<int, u64>, regions: Seq<Region>, n: int)
    requires
        w_xor_x(m),
        n <= regions.len(),
    ensures
        w_xor_x(with_regions(m, regions, n)),
    decreases n,
{
    if n > 0 {
        lemma_regions_wx(m, regions, n - 1);
        lemma_region_wx(with_regions(m, regions, n - 1), regions[n - 1]);
    }
}

proof fn lemma_sections_perm(b: Seq<u8>, base: int, table: int, i: int, n: int)
    ensures
        forall|k: int|
            0 <= k < pe::sections_from(b, base, table, i, n).len() ==> (#[trigger] pe::sections_from(
                b,
                base,
                table,
                i,
                n,
            )[k]).perm != Perm::FwCompat,
    decreases n - i,
{
    if i < n && table + i * 40 + 40 <= b.len() {
        lemma_sections_perm(b, base, table, i + 1, n);
        let rest = pe::sections_from(b, base, table, i + 1, n);
        let s = pe::sections_from(b, base, table, i, n);
        assert forall|k: int| 0 <= k < s.len() implies (#[trigger] s[k]).perm != Perm::FwCompat by {
            if crate::bytes::le32_at(b, table + i * 40 + 8) != 0 && k > 0 {
                assert(s[k] == rest[k - 1]);
            }
        }
    }
}

/// The kernel's own view never has a page that is both writable and
/// executable, whatever the memory map and the image.
pub proof fn law_kernel_view_w_xor_x(
    regions: Seq<Region>,
    image: ImageLayout,
    bytes: Seq<u8>,
    sections: Seq<Section>,
    island: u64,
    apic: u64,
)
    requires
        pe::sections_of(bytes, image.base as int) == Ok::<Seq<Section>, &'static str>(sections),
    ensures
        kernel_plan(regions, image, sections, island, apic) matches Ok(m) ==> w_xor_x(m),
{
    let coff = pe::coff_of(bytes)->Ok_0;
    let count = crate::bytes::le16_at(bytes, coff + 2);
    let table = coff + 20 + crate::bytes::le16_at(bytes, coff + 16);
    lemma_sections_perm(
        bytes,
        image.base as int,
        table,
        0,
        if count <= pe::MAX_SECTIONS {
            count
        } else {
            pe::MAX_SECTIONS as int
        },
    );
    let page = (island / 4096 * 4096) as u64;
    lemma_regions_wx(Map::empty(), regions, regions.len() as int);
    let m1 = with_regions(Map::empty(), regions, regions.len() as int);
    lemma_page_wx(m1, page, page, Perm::Rx);
    let m2 = with_page(m1, page, page, perm_flags(Perm::Rx));
    let p = (apic as int / PAGE_2M as int * PAGE_2M) as u64;
    lemma_block_wx(m2, mmio_alias(p), p, Perm::Rw);
    let m4 = if apic != 0 {
        with_block(m2, mmio_alias(p), p, perm_flags(Perm::Rw))
    } else {
        m2
    };
    let q = (IOAPIC_PHYS as int / PAGE_2M as int * PAGE_2M) as u64;
    lemma_block_wx(m4, mmio_alias(q), q, Perm::Rw);
    let m5 = with_block(m4, mmio_alias(q), q, perm_flags(Perm::Rw));
    let lo = image.base as int / 4096 * 4096;
    let hi = bits::ceil_div(image.base + image.size, 4096) * 4096;
    lemma_window_wx(m5, Alias::Direct, sections, lo, pages_in(lo, hi));
}

/// What the first view takes over of one region below 4 GiB: everything at
/// its own address, as the firmware expects it, and the direct map.
pub open spec fn with_boot_region(m: Map<int, u64>, r: Region) -> Map<int, u64> {
    if r.pages == 0 || r.base > 0xFFFF_FFFF {
        m
    } else {
        let end = smaller(r.end(), 0x1_0000_0000);
        with_direct(
            with_range(m, Alias::Identity, r.base as int, end - r.base, Perm::FwCompat),
            r.base as int,
            end,
        )
    }
}

/// The steps that take one region over into the first view.
pub open spec fn boot_region_steps(r: Region) -> Seq<Step> {
    if r.pages == 0 || r.base > 0xFFFF_FFFF {
        Seq::empty()
    } else {
        let end = smaller(r.end(), 0x1_0000_0000);
        range_steps(Alias::Identity, r.base as int, end - r.base) + direct_steps(
            r.base as int,
            end,
        )
    }
}

/// The steps that take the first `n` regions over into the first view.
pub open spec fn boot_regions_steps(regions: Seq<Region>, n: int) -> Seq<Step>
    decreases n,
{
    if n <= 0 {
        Seq::empty()
    } else {
        boot_regions_steps(regions, n - 1) + boot_region_steps(regions[n - 1])
    }
}

/// Fewer regions come first.
proof fn lemma_boot_regions_first(regions: Seq<Region>, n: int, m: int)
    requires
        0 <= n <= m,
    ensures
        boot_regions_steps(regions, n).len() <= boot_regions_steps(regions, m).len(),
        forall|i: int|
            0 <= i < boot_regions_steps(regions, n).len() ==> #[trigger] boot_regions_steps(
                regions,
                n,
            )[i] == boot_regions_steps(regions, m)[i],
    decreases m,
{
    if n < m {
        lemma_boot_regions_first(regions, n, m - 1);
        let before = boot_regions_steps(regions, m - 1);
        assert forall|i: int|
            0 <= i < boot_regions_steps(regions, n).len() implies #[trigger] boot_regions_steps(
            regions,
            n,
        )[i] == boot_regions_steps(regions, m)[i] by {
            assert(boot_regions_steps(regions, m)[i] == before[i]);
        }
    }
}

/// The steps that are made for the first view, in order.
pub open spec fn boot_steps(regions: Seq<Region>, image: ImageLayout, apic: u64) -> Seq<Step> {
    let a2m = (apic as int / PAGE_2M as int * PAGE_2M) as u64;
    let s1 = boot_regions_steps(regions, regions.len() as int);
    let s2 = if apic != 0 {
        s1.push(block_step(a2m))
    } else {
        s1
    };
    s2 + image_steps(Alias::Identity, image) + image_steps(Alias::Direct, image)
}

pub open spec fn with_boot_regions(m: Map<int, u64>, regions: Seq<Region>, n: int) -> Map<int, u64>
    decreases n,
{
    if n <= 0 {
        m
    } else {
        with_boot_region(with_boot_regions(m, regions, n - 1), regions[n - 1])
    }
}

/// How many of the first `n` regions lie above 4 GiB.
pub open spec fn high_regions(regions: Seq<Region>, n: int) -> int
    decreases n,
{
    if n <= 0 {
        0
    } else {
        high_regions(regions, n - 1) + (if regions[n - 1].pages != 0 && regions[n - 1].base
            > 0xFFFF_FFFF {
            1int
        } else {
            0int
        })
    }
}

/// Where the local APIC lies, from its base register.
pub open spec fn apic_from_msr(msr: u64) -> u64 {
    msr & 0xF_FFFF_F000
}

/// The translations of the first view.
pub open spec fn boot_plan(
    regions: Seq<Region>,
    image: ImageLayout,
    sections: Seq<Section>,
    apic: u64,
) -> Map<int, u64> {
    let a2m = (apic as int / PAGE_2M as int * PAGE_2M) as u64;
    let lo = image.base as int / 4096 * 4096;
    let hi = bits::ceil_div(image.base + image.size, 4096) * 4096;
    let m1 = with_boot_regions(Map::empty(), regions, regions.len() as int);
    let m2 = if apic != 0 {
        with_block(m1, a2m, a2m, perm_flags(Perm::Rw))
    } else {
        m1
    };
    let m3 = with_window(m2, Alias::Identity, sections, lo, pages_in(lo, hi));
    with_window(m3, Alias::Direct, sections, lo, pages_in(lo, hi))
}

/// Take over one region into the first view.
fn map_boot_region(
    mem: &mut PhysMem,
    fa: &mut FrameAllocator,
    root: u64,
    reg: Region,
    Ghost(have): Ghost<int>,
    Ghost(steps): Ghost<Seq<Step>>,
) -> (r: bool)
    requires
        old(mem).wf(old(fa)),
        own_root(old(mem), root as int),
        old(fa).ready,
        needs::laid(old(mem), old(fa), root as int, have, steps),
        reg.sane(),
    ensures
        edited(old(mem), old(fa), final(mem), final(fa), root as int),
        own_root(final(mem), root as int),
        r ==> view(final(mem).words@, root as int) == with_boot_region(
            view(old(mem).words@, root as int),
            reg,
        ),
        needs::went(
            r,
            final(mem),
            final(fa),
            root as int,
            have,
            steps + boot_region_steps(reg),
            true,
        ),
{
    let ghost all = steps + boot_region_steps(reg);
    proof {
        lemma_edited_same(mem, fa, root as int);
        assert(reg.pages == 0 || reg.base > 0xFFFF_FFFF ==> all =~= steps);
    }
    if reg.pages == 0 || reg.base > 0xFFFF_FFFF {
        return true;
    }
    let stop: u64 = reg.base + reg.pages * PAGE;
    let end: u64 = if stop < 0x1_0000_0000 {
        stop
    } else {
        0x1_0000_0000
    };
    let ghost made = steps + range_steps(Alias::Identity, reg.base as int, end - reg.base);
    if !map_range_2m(
        mem,
        fa,
        root,
        Alias::Identity,
        reg.base,
        end - reg.base,
        Perm::FwCompat,
        Ghost(have),
        Ghost(steps),
    ) {
        proof {
            needs::lemma_too_few_more(have, made, all, true);
        }
        return false;
    }
    let ghost m1 = *mem;
    let ghost f1 = *fa;
    let ok: bool = map_direct(mem, fa, root, reg.base, end, Ghost(have), Ghost(made));
    proof {
        lemma_edited_edited(old(mem), old(fa), &m1, &f1, mem, fa, root as int);
        assert(made + direct_steps(reg.base as int, end as int) =~= all);
    }
    ok
}

/// Fill the first view, whose root is new and empty.
#[verifier::spinoff_prover]
#[verifier::rlimit(80)]
fn fill_boot_view(
    mem: &mut PhysMem,
    fa: &mut FrameAllocator,
    root: u64,
    h: &Handoff,
    image: ImageLayout,
    sections: &Vec<Section>,
    apic: u64,
    Ghost(have): Ghost<int>,
) -> (r: Result<(), &'static str>)
    requires
        old(mem).wf(old(fa)),
        own_root(old(mem), root as int),
        old(fa).ready,
        h.sane(),
        image.base + image.size <= DIRECT_MAP_BYTES,
        view(old(mem).words@, root as int) == Map::<int, u64>::empty(),
        needs::laid(old(mem), old(fa), root as int, have, Seq::empty()),
    ensures
        edited(old(mem), old(fa), final(mem), final(fa), root as int),
        own_root(final(mem), root as int),
        ({
            let steps = boot_steps(h.regions@, image, apic);
            let cost = needs::cost(steps, steps.len() as int);
            if have < cost {
                exhausted(r, final(fa), have, steps)
            } else {
                &&& final(fa).available() == have - cost
                &&& r == Ok::<(), &'static str>(())
                &&& view(final(mem).words@, root as int) == boot_plan(
                    h.regions@,
                    image,
                    sections@,
                    apic,
                )
            }
        }),
{
    let ghost all = boot_steps(h.regions@, image, apic);
    let ghost whole = boot_regions_steps(h.regions@, h.regions@.len() as int);
    proof {
        lemma_edited_same(mem, fa, root as int);
        assert forall|i: int| 0 <= i < whole.len() implies #[trigger] whole[i] == all[i] by {}
    }
    let n: usize = handoff::region_count(h);
    let mut i: usize = 0;
    while i < n
        invariant
            i <= n,
            n == h.regions@.len(),
            h.sane(),
            mem.wf(fa),
            own_root(mem, root as int),
            old(mem).wf(old(fa)),
            old(fa).ready,
            all == boot_steps(h.regions@, image, apic),
            whole == boot_regions_steps(h.regions@, n as int),
            whole.len() <= all.len(),
            forall|i: int| 0 <= i < whole.len() ==> #[trigger] whole[i] == all[i],
            edited(old(mem), old(fa), mem, fa, root as int),
            needs::laid(mem, fa, root as int, have, boot_regions_steps(h.regions@, i as int)),
            view(mem.words@, root as int) == with_boot_regions(Map::empty(), h.regions@, i as int),
        decreases n - i,
    {
        let ghost m1 = *mem;
        let ghost f1 = *fa;
        let ghost made = boot_regions_steps(h.regions@, i as int);
        let reg = h.regions[i];
        assert(h.regions@[i as int].sane());
        let ok: bool = map_boot_region(mem, fa, root, reg, Ghost(have), Ghost(made));
        proof {
            lemma_edited_edited(old(mem), old(fa), &m1, &f1, mem, fa, root as int);
        }
        if !ok {
            proof {
                let err = Err::<(), &'static str>("frames exhausted (bulk map)");
                lemma_boot_regions_first(h.regions@, i + 1, n as int);
                let some = boot_regions_steps(h.regions@, i + 1);
                assert forall|k: int| 0 <= k < some.len() implies #[trigger] some[k] == all[k] by {
                    assert(some[k] == whole[k]);
                }
                lemma_exhausted_more(err, fa, have, some, all);
            }
            return Err("frames exhausted (bulk map)");
        }
        i = i + 1;
    }
    let ghost mut s2 = whole;
    if apic != 0 {
        let ghost m2 = *mem;
        let ghost f2 = *fa;
        let a2m: u64 = apic / PAGE_2M * PAGE_2M;
        let ok: bool = put_block(mem, fa, root, a2m, a2m, Perm::Rw, Ghost(have), Ghost(whole));
        proof {
            lemma_edited_edited(old(mem), old(fa), &m2, &f2, mem, fa, root as int);
            s2 = whole.push(block_step(a2m));
        }
        if !ok {
            proof {
                let err = Err::<(), &'static str>("frames exhausted (bulk map)");
                lemma_exhausted_more(err, fa, have, s2, all);
            }
            return Err("frames exhausted (bulk map)");
        }
    }
    let lo: u64 = image.base / PAGE * PAGE;
    let hi: u64 = bits::div_ceil(image.base + image.size, PAGE) * PAGE;
    let ghost m3 = *mem;
    let ghost f3 = *fa;
    let ghost s3 = s2 + image_steps(Alias::Identity, image);
    let ok: bool = map_window(
        mem,
        fa,
        root,
        Alias::Identity,
        lo,
        hi,
        sections,
        Ghost(have),
        Ghost(s2),
    );
    proof {
        lemma_edited_edited(old(mem), old(fa), &m3, &f3, mem, fa, root as int);
        assert(all == s3 + image_steps(Alias::Direct, image));
    }
    if !ok {
        proof {
            let err = Err::<(), &'static str>("frames exhausted (window map)");
            lemma_exhausted_more(err, fa, have, s3, all);
        }
        return Err("frames exhausted (window map)");
    }
    let ghost m4 = *mem;
    let ghost f4 = *fa;
    let ok: bool = map_window(
        mem,
        fa,
        root,
        Alias::Direct,
        lo,
        hi,
        sections,
        Ghost(have),
        Ghost(s3),
    );
    proof {
        lemma_edited_edited(old(mem), old(fa), &m4, &f4, mem, fa, root as int);
    }
    if !ok {
        proof {
            let err = Err::<(), &'static str>("frames exhausted (window map)");
            lemma_exhausted_more(err, fa, have, all, all);
        }
        return Err("frames exhausted (window map)");
    }
    proof {
        lemma_laid_affords(mem, fa, root as int, have, all);
    }
    Ok(())
}

/// Count the regions that the first view leaves out.
fn count_high(h: &Handoff) -> (r: usize)
    requires
        h.wf(),
    ensures
        r == high_regions(h.regions@, h.regions@.len() as int),
{
    let n: usize = handoff::region_count(h);
    let mut i: usize = 0;
    let mut k: usize = 0;
    while i < n
        invariant
            i <= n,
            n == h.regions@.len(),
            k == high_regions(h.regions@, i as int),
            k <= i,
        decreases n - i,
    {
        let reg = h.regions[i];
        if reg.pages != 0 && reg.base > 0xFFFF_FFFF {
            k = k + 1;
        }
        i = i + 1;
    }
    k
}

/// What [`init`] answers and does.
pub open spec fn boot_view_built(
    p0: &Paging,
    p1: &Paging,
    fa0: &FrameAllocator,
    fa1: &FrameAllocator,
    h: &Handoff,
    layout: ImageLayout,
    image: &[u8],
    apic_msr: u64,
    r: Result<u64, &'static str>,
) -> bool {
    &&& p1.wf(fa1)
    &&& p1.live_root == p0.live_root
    &&& p1.kernel_root == p0.kernel_root
    &&& paging::same_leaves(&p0.mem, &p1.mem)
    &&& paging::data_kept(&p0.mem, fa0, &p1.mem)
    &&& paging::tables_grown(&p0.mem, fa0, &p1.mem)
    &&& paging::frames_spent(
        fa0,
        fa1,
        fa0.available() - fa1.available(),
    )
    &&& if layout.base == 0 || layout.size == 0 {
        &&& r == Err::<u64, &'static str>("handoff image layout is empty")
        &&& *p1 == *p0
        &&& *fa1 == *fa0
    } else {
        match pe::sections_of(image@, layout.base as int) {
            Err(e) => r == Err::<u64, &'static str>(e) && *p1 == *p0 && *fa1
                == *fa0,
            Ok(sections) => if !paging::can_take(fa0, 1) {
                &&& r == Err::<u64, &'static str>("out of frames for page tables")
        &&& *p1 == *p0
        &&& *fa1 == *fa0
            } else {
                &&& p1.skipped_high == high_regions(
                    h.regions@,
                    h.regions@.len() as int,
                )
                &&& p1.apic_base == apic_from_msr(apic_msr)
                &&& ({
                    let steps = boot_steps(h.regions@, layout, apic_from_msr(apic_msr));
                    let cost = needs::cost(steps, steps.len() as int);
                    let have = fa0.available() - 1;
                    if have < cost {
                        exhausted(r, fa1, have, steps)
                    } else {
                        &&& fa1.available() == have - cost
                        &&& r matches Ok(root) && own_root(&p1.mem, root as int) && view(
                            p1.mem.words@,
                            root as int,
                        ) == boot_plan(
                            h.regions@,
                            layout,
                            sections,
                            apic_from_msr(apic_msr),
                        )
                    }
                })
            },
        }
    }
}

/// Build the first view: all memory below 4 GiB at its own address, the
/// direct map, the local APIC, and the image in both with the permissions of
/// its sections. Returns the root to load into CR3.
#[verifier::spinoff_prover]
#[verifier::rlimit(80)]
pub fn init(
    p: &mut Paging,
    fa: &mut FrameAllocator,
    h: &Handoff,
    layout: ImageLayout,
    image: &[u8],
    apic_msr: u64,
) -> (r: Result<u64, &'static str>)
    requires
        old(p).wf(old(fa)),
        h.sane(),
        layout.base + layout.size <= DIRECT_MAP_BYTES,
    ensures
        boot_view_built(old(p), final(p), old(fa), final(fa), h, layout, image, apic_msr, r),
{
    if layout.base == 0 || layout.size == 0 {
        return Err("handoff image layout is empty");
    }
    let sections: Vec<Section> = match pe::parse_pe_sections(image, layout.base) {
        Err(e) => {
            return Err(e);
        },
        Ok(s) => s,
    };
    let root: u64 = match paging::new_root(&mut p.mem, fa, None) {
        None => {
            return Err("out of frames for page tables");
        },
        Some(f) => f,
    };
    let ghost m1 = p.mem;
    let ghost f1 = *fa;
    proof {
        assert(view(m1.words@, root as int) =~= Map::<int, u64>::empty());
        if p.kernel_root != 0 {
            assert(p.mem.seats@.dom().contains(p.kernel_root as int));
        }
    }
    p.skipped_high = count_high(h);
    let apic: u64 = apic_msr & 0xF_FFFF_F000;
    p.apic_base = apic;
    proof {
        needs::lemma_laid_none(&p.mem, fa, root as int);
    }
    let res = fill_boot_view(
        &mut p.mem,
        fa,
        root,
        h,
        layout,
        &sections,
        apic,
        Ghost(f1.available()),
    );
    proof {
        lemma_grown_edited(&old(p).mem, old(fa), &m1, &f1, &p.mem, fa, root as int);
    }
    match res {
        Err(e) => Err(e),
        Ok(_) => Ok(root),
    }
}

/// Note that `root` was loaded into CR3, which now reads `cr3`.
pub fn note_live(p: &mut Paging, root: u64, cr3: u64) -> (r: Result<(), &'static str>)
    ensures
        r == (if cr3 & ADDR_MASK != root {
            Err("CR3 read-back does not match our PML4")
        } else {
            Ok::<(), &'static str>(())
        }),
        final(p).mem == old(p).mem,
        final(p).kernel_root == old(p).kernel_root,
        final(p).apic_base == old(p).apic_base,
        final(p).skipped_high == old(p).skipped_high,
        final(p).live_root == (if r is Ok {
            root
        } else {
            old(p).live_root
        }),
{
    if cr3 & ADDR_MASK != root {
        return Err("CR3 read-back does not match our PML4");
    }
    p.live_root = root;
    Ok(())
}

/// What [`build_process_pml4`] answers and does.
pub open spec fn process_root_made(
    p0: &Paging,
    p1: &Paging,
    fa0: &FrameAllocator,
    fa1: &FrameAllocator,
    r: Option<u64>,
) -> bool {
    &&& p1.wf(fa1)
    &&& p1.kernel_built()
    &&& p1.live_root == p0.live_root
    &&& p1.kernel_root == p0.kernel_root
    &&& p1.apic_base == p0.apic_base
    &&& p1.skipped_high == p0.skipped_high
    &&& r is None <==> !paging::can_take(fa0, 1)
    &&& r is None ==> *p1 == *p0 && *fa1 == *fa0
    &&& r matches Some(f) ==> {
        &&& frames::took(fa0, fa1, f as int)
        &&& paging::frames_spent(fa0, fa1, 1)
        &&& paging::tables_grown(&p0.mem, fa0, &p1.mem)
        &&& paging::data_kept(&p0.mem, fa0, &p1.mem)
        &&& paging::same_leaves(&p0.mem, &p1.mem)
        &&& paging::user_empty(p1.mem.words@, f as int)
        &&& paging::upper_lent(
            p1.mem.words@,
            f as int,
            p1.kernel_root as int,
        )
        &&& !p0.mem.seats@.dom().contains(f as int)
        &&& process_root(&p1.mem, p1.kernel_root as int, f as int)
        &&& p1.mem.seats@ == p0.mem.seats@.insert(
            f as int,
            p1.mem.seats@[f as int],
        )
        &&& forall|v: int|
            0 <= v < PAGES ==> #[trigger] paging::leaf(p1.mem.words@, f as int, v) == (
            if v >= USER_PAGES {
                paging::leaf(p0.mem.words@, p0.kernel_root as int, v)
            } else {
                None
            })
    }
}

/// A root for a process: an empty user half, and the kernel's upper half.
/// None if no frame is left.
pub fn build_process_pml4(p: &mut Paging, fa: &mut FrameAllocator) -> (r: Option<u64>)
    requires
        old(p).wf(old(fa)),
        old(p).kernel_built(),
    ensures
        process_root_made(old(p), final(p), old(fa), final(fa), r),
{
    let kernel: u64 = p.kernel_root;
    let r = paging::new_root(&mut p.mem, fa, Some(kernel));
    proof {
        assert(p.mem.seats@.dom().contains(kernel as int));
    }
    r
}

/// `root` is the root of a process: it borrows the kernel's upper half.
pub open spec fn process_root(m: &PhysMem, kernel: int, root: int) -> bool {
    &&& paging::is_root(m.seats@, root)
    &&& m.seats@[root].upper == kernel
    &&& root != kernel
}

/// What [`map_user_page_kernel_view`] answers and does.
pub open spec fn kernel_view_mapped(
    p0: &Paging,
    p1: &Paging,
    fa0: &FrameAllocator,
    fa1: &FrameAllocator,
    va: u64,
    phys: u64,
    writable: bool,
    exec: bool,
    r: Result<(), &'static str>,
) -> bool {
    &&& p1.wf(fa1)
    &&& p1.kernel_built()
    &&& p1.live_root == p0.live_root
    &&& p1.kernel_root == p0.kernel_root
    &&& p1.apic_base == p0.apic_base
    &&& p1.skipped_high == p0.skipped_high
    &&& ({
        let v = paging::page_no(va as int);
        let root = p0.kernel_root as int;
        match paging::user_refusal(va, phys, writable, exec) {
            Some(e) => r == Err::<(), &'static str>(e) && *p1 == *p0 && *fa1
                == *fa0,
            None => if paging::can_take(
                fa0,
                paging::missing(p0.mem.words@, root, v),
            ) {
                &&& r == Ok::<(), &'static str>(())
                &&& paging::mapped(
                    &p0.mem,
                    fa0,
                    &p1.mem,
                    fa1,
                    root,
                    v,
                    paging::user_entry(phys, writable, exec),
                )
            } else {
                &&& r == Err::<(), &'static str>("frames exhausted (window map)")
                &&& paging::ran_out(&p0.mem, fa0, &p1.mem, fa1)
            },
        }
    })
}

/// Map one page of the kernel view's user half.
pub fn map_user_page_kernel_view(
    p: &mut Paging,
    fa: &mut FrameAllocator,
    va: u64,
    phys: u64,
    writable: bool,
    exec: bool,
) -> (r: Result<(), &'static str>)
    requires
        old(p).wf(old(fa)),
        old(p).kernel_built(),
    ensures
        kernel_view_mapped(old(p), final(p), old(fa), final(fa), va, phys, writable, exec, r),
{
    let root: u64 = p.kernel_root;
    let r = paging::map_user_page_4k(&mut p.mem, fa, root, va, phys, writable, exec);
    proof {
        assert(old(p).mem.seats@.dom().contains(root as int));
    }
    r
}

/// What [`unmap_user_page_kernel_view`] answers and does.
pub open spec fn kernel_view_unmapped(
    p0: &Paging,
    p1: &Paging,
    fa: &FrameAllocator,
    va: u64,
    r: Option<u64>,
) -> bool {
    &&& p1.wf(fa)
    &&& p1.kernel_built()
    &&& p1.mem.seats@ == p0.mem.seats@
    &&& p1.kernel_root == p0.kernel_root
    &&& p1.live_root == p0.live_root
    &&& p1.apic_base == p0.apic_base
    &&& p1.skipped_high == p0.skipped_high
    &&& r == (match paging::pte_at(
        p0.mem.words@,
        p0.kernel_root as int,
        paging::page_no(va as int),
    ) {
        Some(e) => Some(e & ADDR_MASK),
        None => None,
    })
    &&& r is None ==> p1.mem == p0.mem
    &&& r is Some ==> {
        &&& paging::leaf(
            p1.mem.words@,
            p0.kernel_root as int,
            paging::page_no(va as int),
        ) is None
        &&& paging::same_leaves_but(
            &p0.mem,
            &p1.mem,
            p0.kernel_root as int,
            paging::page_no(va as int),
        )
        &&& paging::data_kept(&p0.mem, fa, &p1.mem)
    }
}

/// Unmap one page of the kernel view's user half and give the frame that was
/// there.
pub fn unmap_user_page_kernel_view(p: &mut Paging, fa: &FrameAllocator, va: u64) -> (r: Option<u64>)
    requires
        old(p).wf(fa),
        old(p).kernel_built(),
    ensures
        kernel_view_unmapped(old(p), final(p), fa, va, r),
{
    let root: u64 = p.kernel_root;
    proof {
        assert(paging::is_table(p.mem.words@, p.mem.seats@, root as int));
    }
    paging::unmap_page(&mut p.mem, fa, root, va)
}

/// A page of the kernel view's user half that was mapped is found again under
/// the same address, with its frame and permissions, and comes out when it is
/// unmapped.
pub proof fn law_map_then_unmap(
    pre: PhysMem,
    fa: FrameAllocator,
    post: PhysMem,
    fb: FrameAllocator,
    root: int,
    va: u64,
    phys: u64,
    write: bool,
    exec: bool,
)
    requires
        paging::user_refusal(va, phys, write, exec) is None,
        phys < 0x10_0000_0000_0000,
        paging::mapped(
            &pre,
            &fa,
            &post,
            &fb,
            root,
            paging::page_no(va as int),
            paging::user_entry(phys, write, exec),
        ),
    ensures
        paging::pte_at(post.words@, root, paging::page_no(va as int)) matches Some(e) && (e
            & ADDR_MASK) == phys && paging::writable(e) == write && paging::executable(e) == exec,
{
    paging::law_user_pages_w_xor_x(phys, write, exec);
}

} // verus!

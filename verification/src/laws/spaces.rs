//! What the kernel sees of physical memory: which page shows which frame, and
//! what may be done there.

use crate::bits;
use crate::frames::FrameAllocator;
use crate::handoff;
use crate::handoff::{Handoff, ImageLayout, Region};
use crate::pe;
use crate::pe::{Perm, Section};
use crate::views;
use crate::views::{Alias, Paging};
use vstd::prelude::*;

verus! {

/// The entry shows the frame at `pa` to the kernel alone, to be written and to
/// be run as said.
pub open spec fn shows(e: u64, pa: int, write: bool, run: bool) -> bool {
    &&& e & 1 != 0
    &&& e & 4 == 0
    &&& e & 0x000F_FFFF_FFFF_F000 == pa
    &&& (e & 2 != 0) == write
    &&& (e & 0x8000_0000_0000_0000 == 0) == run
}

/// The number of the page at 0xFFFF_FFFF_8000_0000, where physical memory
/// begins for the kernel, and of that at 0xFFFF_FFFF_0000_0000, where devices
/// are seen.
pub open spec fn direct() -> int {
    0xF_FFF8_0000
}

pub open spec fn devices() -> int {
    0xF_FFF0_0000
}

/// Every page shows the frame of its own address, or that which lies as far
/// from address zero as the page from where physical memory or the devices
/// begin; and none is for user mode.
pub open spec fn in_place(m: Map<int, u64>) -> bool {
    forall|v: int| #[trigger]
        m.dom().contains(v) ==> {
            let pa = (m[v] & 0x000F_FFFF_FFFF_F000) as int;
            &&& m[v] & 1 != 0
            &&& m[v] & 4 == 0
            &&& pa == 4096 * v || pa == 4096 * (v - direct()) || pa == 4096 * (v - devices())
        }
}

/// In the upper half, each page shows physical memory, to be written, not run.
pub open spec fn plain(m: Map<int, u64>) -> bool {
    forall|v: int| #[trigger]
        m.dom().contains(v) && v >= 0x8_0000_0000 ==> shows(
            m[v],
            4096 * (v - direct()),
            true,
            false,
        )
}

pub open spec fn grows(m: Map<int, u64>, n: Map<int, u64>) -> bool {
    forall|v: int| #[trigger] m.dom().contains(v) ==> n.dom().contains(v)
}

pub open spec fn writes(p: Perm) -> bool {
    p == Perm::Rw || p == Perm::FwCompat
}

pub open spec fn runs(p: Perm) -> bool {
    p == Perm::Rx || p == Perm::FwCompat
}

proof fn lemma_bits(p: u64, off: u64, f: u64)
    by (bit_vector)
    requires
        p % 4096 == 0,
        p < 0x100_0000_0000u64,
        off % 4096 == 0,
        off < 0x20_0000u64,
        f == 1 || f == 0x8000_0000_0000_0001u64 || f == 0x8000_0000_0000_0003u64 || f == 3,
    ensures
        (p & 0x000F_FFFF_FFFF_F000u64) | f == p | f,
        (p | f) & 0x000F_FFFF_FFFF_F000u64 == p,
        (p | f) & 1 != 0,
        (p | f) & 4 == 0,
        (p | f) & 2 == f & 2,
        (p | f) & 0x8000_0000_0000_0000u64 == f & 0x8000_0000_0000_0000u64,
        (p | f | 0x80) & 0x000F_FFFF_FFFF_F000u64 == p,
        p % 0x20_0000 == 0 ==> ((p + off) as u64 | ((p | f | 0x80) & !0x000F_FFFF_FFFF_F000u64
            & !0x80u64)) == (p + off) as u64 | f,
        1u64 | 0x8000_0000_0000_0000u64 == 0x8000_0000_0000_0001u64,
        1u64 | (2u64 | 0x8000_0000_0000_0000u64) == 0x8000_0000_0000_0003u64,
        1u64 | 2u64 == 3,
        1u64 | 0 == 1,
        1u64 & 2 == 0,
        0x8000_0000_0000_0001u64 & 2 == 0,
        0x8000_0000_0000_0003u64 & 2 != 0,
        3u64 & 2 != 0,
        1u64 & 0x8000_0000_0000_0000u64 == 0,
        3u64 & 0x8000_0000_0000_0000u64 == 0,
        0x8000_0000_0000_0001u64 & 0x8000_0000_0000_0000u64 != 0,
        0x8000_0000_0000_0003u64 & 0x8000_0000_0000_0000u64 != 0,
{
}

#[verifier::rlimit(40)]
proof fn lemma_entry(p: u64, perm: Perm)
    requires
        p % 4096 == 0,
        p < 0x1_0000_0000,
    ensures
        shows(views::page_entry(p, views::perm_flags(perm)), p as int, writes(perm), runs(perm)),
{
    lemma_bits(p, 0, 1);
    lemma_bits(p, 0, 3);
    lemma_bits(p, 0, 0x8000_0000_0000_0001);
    lemma_bits(p, 0, 0x8000_0000_0000_0003);
}

#[verifier::rlimit(40)]
proof fn lemma_cut(p: u64, i: int, perm: Perm)
    requires
        p % 0x20_0000 == 0,
        p < 0x1_0000_0000,
        0 <= i < 512,
    ensures
        shows(
            crate::paging::split_entry(
                views::page_entry(p, views::perm_flags(perm)) | crate::paging::PTE_HUGE,
                i,
            ),
            p + i * 4096,
            writes(perm),
            runs(perm),
        ),
{
    let off = (i * 4096) as u64;
    let q = (p + i * 4096) as u64;
    assert(p % 4096 == 0);
    assert(q % 4096 == 0);
    let f = if perm == Perm::Rx {
        1u64
    } else if perm == Perm::Ro {
        0x8000_0000_0000_0001u64
    } else if perm == Perm::Rw {
        0x8000_0000_0000_0003u64
    } else {
        3u64
    };
    lemma_bits(p, off, f);
    lemma_bits(q, 0, f);
    assert(views::perm_flags(perm) == f);
}

/// How many pages from its own address a frame is seen.
pub open spec fn offset(a: Alias) -> int {
    if a is Identity {
        0
    } else if a is Direct {
        direct()
    } else {
        devices()
    }
}

/// Which page a frame is seen at.
#[verifier::rlimit(40)]
proof fn lemma_alias(a: Alias, p: u64)
    requires
        p % 4096 == 0,
        p < 0x1_0000_0000,
        a is Direct ==> p < 0x8000_0000,
    ensures
        ({
            let v = crate::paging::page_no(views::alias_of(a, p) as int);
            let q = p as int / 4096;
            &&& 4096 * q == p
            &&& a is Identity ==> v == q
            &&& a is Direct ==> v == direct() + q
            &&& a is Device && p < 0x8000_0000 ==> v == direct() + q
            &&& a is Device && p >= 0x8000_0000 ==> v == devices() + q
            &&& a is Mmio ==> v == devices() + q
        }),
{
    views::law_mmio_alias_in_kernel_half(p, p);
}

#[verifier::rlimit(40)]
proof fn lemma_page(m: Map<int, u64>, a: Alias, p: u64, perm: Perm)
    requires
        p % 4096 == 0,
        p < 0x1_0000_0000,
        a is Direct ==> p < 0x8000_0000,
    ensures
        ({
            let n = views::with_page(m, views::alias_of(a, p), p, views::perm_flags(perm));
            &&& in_place(m) ==> in_place(n)
            &&& grows(m, n)
            &&& plain(m) && (a is Identity || a is Device && p < 0x8000_0000 && perm == Perm::Rw)
                ==> plain(n)
        }),
{
    lemma_alias(a, p);
    lemma_entry(p, perm);
}

#[verifier::rlimit(40)]
proof fn lemma_block(m: Map<int, u64>, a: Alias, p: u64, perm: Perm)
    requires
        p % 0x20_0000 == 0,
        p < 0x1_0000_0000,
        a is Direct ==> p < 0x8000_0000,
        a is Identity || a is Direct || a is Mmio,
    ensures
        ({
            let n = views::with_block(m, views::alias_of(a, p), p, views::perm_flags(perm));
            let off = offset(a);
            let q = p as int / 4096;
            &&& in_place(m) ==> in_place(n)
            &&& grows(m, n)
            &&& plain(m) && (a is Identity || a is Direct && perm == Perm::Rw) ==> plain(n)
            &&& forall|v: int|
                off + q <= v < off + q + 512 ==> #[trigger] n.dom().contains(v) && shows(
                    n[v],
                    4096 * (v - off),
                    writes(perm),
                    runs(perm),
                )
            &&& forall|v: int| #[trigger]
                n.dom().contains(v) && !(off + q <= v < off + q + 512) ==> m.dom().contains(v)
                    && n[v] == m[v]
        }),
{
    assert(p % 4096 == 0);
    lemma_alias(a, p);
    let n = views::with_block(m, views::alias_of(a, p), p, views::perm_flags(perm));
    let off = offset(a);
    let q = p as int / 4096;
    assert(q % 512 == 0);
    let b = (off + q) / 512;
    assert(off % 512 == 0);
    assert((off + q) % 512 == 0);
    assert forall|v: int| v / 512 == b implies off + q <= v < off + q + 512 && #[trigger] shows(
        n[v],
        4096 * (v - off),
        writes(perm),
        runs(perm),
    ) by {
        lemma_cut(p, v % 512, perm);
    }
    assert forall|v: int| off + q <= v < off + q + 512 implies #[trigger] n.dom().contains(v)
        && shows(n[v], 4096 * (v - off), writes(perm), runs(perm)) by {
        assert(v / 512 == b);
    }
    assert forall|v: int| #[trigger]
        n.dom().contains(v) && !(off + q <= v < off + q + 512) implies m.dom().contains(v) && n[v]
        == m[v] by {
        assert(v / 512 != b);
    }
    assert forall|v: int| in_place(m) && #[trigger] n.dom().contains(v) implies ({
        let pa = (n[v] & 0x000F_FFFF_FFFF_F000) as int;
        &&& n[v] & 1 != 0
        &&& n[v] & 4 == 0
        &&& pa == 4096 * v || pa == 4096 * (v - direct()) || pa == 4096 * (v - devices())
    }) by {
        if off + q <= v < off + q + 512 {
            assert(shows(n[v], 4096 * (v - off), writes(perm), runs(perm)));
        } else {
            assert(m.dom().contains(v));
        }
    }
}

#[verifier::rlimit(40)]
proof fn lemma_run(m: Map<int, u64>, a: Alias, pa: int, n: int, perm: Perm)
    requires
        0 <= pa,
        pa % 4096 == 0,
        n <= 0 || pa + n * 4096 <= 0x1_0000_0000,
        !(a is Direct),
    ensures
        ({
            let r = views::with_run(m, a, pa, n, perm);
            &&& in_place(m) ==> in_place(r)
            &&& grows(m, r)
            &&& plain(m) && (n <= 0 || a is Identity || a is Device && pa + n * 4096 <= 0x8000_0000
                && perm == Perm::Rw) ==> plain(r)
        }),
    decreases n,
{
    if n > 0 {
        lemma_run(m, a, pa, n - 1, perm);
        let p = (pa + (n - 1) * 4096) as u64;
        assert(p % 4096 == 0);
        lemma_page(views::with_run(m, a, pa, n - 1, perm), a, p, perm);
    }
}

#[verifier::rlimit(40)]
proof fn lemma_blocks(m: Map<int, u64>, a: Alias, b: int, n: int, perm: Perm)
    requires
        0 <= b,
        n <= 0 || (b + n) * 0x20_0000 <= 0x1_0000_0000,
        a is Direct && n > 0 ==> (b + n) * 0x20_0000 <= 0x8000_0000,
        a is Identity || a is Direct,
    ensures
        ({
            let r = views::with_blocks(m, a, b, n, perm);
            let off = offset(a);
            &&& in_place(m) ==> in_place(r)
            &&& grows(m, r)
            &&& plain(m) && (a is Identity || perm == Perm::Rw) ==> plain(r)
            &&& forall|v: int|
                off + b * 512 <= v < off + (b + n) * 512 ==> #[trigger] r.dom().contains(v)
                    && shows(r[v], 4096 * (v - off), writes(perm), runs(perm))
            &&& forall|v: int| #[trigger]
                r.dom().contains(v) && !(off + b * 512 <= v < off + (b + n) * 512)
                    ==> m.dom().contains(v) && r[v] == m[v]
        }),
    decreases n,
{
    if n > 0 {
        lemma_blocks(m, a, b, n - 1, perm);
        let p = ((b + n - 1) * 0x20_0000) as u64;
        assert(p % 0x20_0000 == 0);
        lemma_block(views::with_blocks(m, a, b, n - 1, perm), a, p, perm);
        assert(p as int / 4096 == (b + n - 1) * 512);
        let before = views::with_blocks(m, a, b, n - 1, perm);
        let r = views::with_blocks(m, a, b, n, perm);
        let off = offset(a);
        assert forall|v: int|
            off + b * 512 <= v < off + (b + n) * 512 implies #[trigger] r.dom().contains(v)
            && shows(r[v], 4096 * (v - off), writes(perm), runs(perm)) by {
            if v < off + (b + n - 1) * 512 {
                assert(before.dom().contains(v));
                assert(r.dom().contains(v));
            }
        }
        assert forall|v: int| #[trigger]
            r.dom().contains(v) && !(off + b * 512 <= v < off + (b + n) * 512) implies m.dom(
        ).contains(v) && r[v] == m[v] by {
            assert(before.dom().contains(v));
        }
        assert(in_place(m) ==> in_place(r));
        assert(grows(m, r));
        assert(plain(m) && (a is Identity || perm == Perm::Rw) ==> plain(r));
    }
}

/// The first block that a range touches, and one past the last.
#[verifier::rlimit(40)]
proof fn lemma_range(pa: int, size: int, lim: int)
    requires
        0 <= pa,
        0 < size,
        pa + size <= lim,
        lim % 0x20_0000 == 0,
    ensures
        ({
            let b = pa / 0x20_0000;
            let n = views::blocks_in(pa, size);
            &&& 0 <= b
            &&& 0 < n
            &&& b * 0x20_0000 <= pa
            &&& pa + size <= (b + n) * 0x20_0000 <= lim
        }),
{
    let e = pa + size;
    bits::lemma_ceil_div(e, 0x20_0000);
    let c = bits::ceil_div(e, 0x20_0000);
    assert(c == e / 0x20_0000 + (if e % 0x20_0000 == 0 {
        0int
    } else {
        1int
    }));
}

/// A region that the kernel takes over, in whole pages below 4 GiB.
pub open spec fn usual(r: Region) -> bool {
    r.pages == 0 || r.base > 0xFFFF_FFFF || r.base % 4096 == 0 && r.end() <= 0x1_0000_0000
}

/// The direct map of a region shows each of its pages below 2 GiB.
#[verifier::rlimit(40)]
proof fn lemma_direct(m: Map<int, u64>, r: Region)
    requires
        usual(r),
        r.pages != 0,
        r.base <= 0xFFFF_FFFF,
    ensures
        ({
            let n = views::with_direct(m, r.base as int, r.end());
            &&& in_place(m) ==> in_place(n)
            &&& grows(m, n)
            &&& plain(m) ==> plain(n)
            &&& forall|v: int|
                direct() <= v && r.base <= 4096 * (v - direct()) < r.end() && 4096 * (v - direct())
                    < 0x8000_0000 ==> #[trigger] n.dom().contains(v)
        }),
{
    if r.base < 0x8000_0000 {
        let size = views::smaller(r.end(), 0x8000_0000) - r.base;
        lemma_range(r.base as int, size, 0x8000_0000);
        lemma_blocks(
            m,
            Alias::Direct,
            r.base as int / 0x20_0000,
            views::blocks_in(r.base as int, size),
            Perm::Rw,
        );
    }
}

#[verifier::rlimit(40)]
proof fn lemma_pages_in(lo: int, hi: int)
    requires
        lo % 4096 == 0,
        hi % 4096 == 0,
    ensures
        lo < hi ==> lo + views::pages_in(lo, hi) * 4096 == hi,
        views::pages_in(lo, hi) >= 0,
{
    if lo < hi {
        bits::lemma_ceil_div(hi - lo, 4096);
    }
}

#[verifier::rlimit(40)]
proof fn lemma_region(m: Map<int, u64>, r: Region)
    requires
        usual(r),
    ensures
        ({
            let n = views::with_region(m, r);
            &&& in_place(m) ==> in_place(n)
            &&& grows(m, n)
            &&& plain(m) && (r.base > 0xFFFF_FFFF || r.end() <= 0x8000_0000) ==> plain(n)
            &&& forall|v: int|
                direct() <= v && r.base <= 4096 * (v - direct()) < r.end() && 4096 * (v - direct())
                    < 0x8000_0000 ==> #[trigger] n.dom().contains(v)
        }),
{
    if r.pages != 0 && r.base <= 0xFFFF_FFFF {
        let base = r.base as int;
        let pages = views::pages_in(base, r.end());
        let high = views::larger(base, 0x8000_0000);
        lemma_pages_in(base, r.end());
        lemma_pages_in(high, r.end());
        if r.kind == handoff::KIND_RUNTIME_SERVICES_CODE || r.kind
            == handoff::KIND_RUNTIME_SERVICES_DATA {
            let perm = if r.kind == handoff::KIND_RUNTIME_SERVICES_CODE {
                Perm::Rx
            } else {
                Perm::Rw
            };
            lemma_run(m, Alias::Identity, base, pages, perm);
            let m1 = views::with_run(m, Alias::Identity, base, pages, perm);
            lemma_run(m1, Alias::Mmio, high, views::pages_in(high, r.end()), perm);
            let m2 = views::with_run(m1, Alias::Mmio, high, views::pages_in(high, r.end()), perm);
            lemma_direct(m2, r);
        } else if r.kind == handoff::KIND_MMIO || r.kind == handoff::KIND_MMIO_PORT_SPACE {
            lemma_run(m, Alias::Device, base, pages, Perm::Rw);
            lemma_direct(views::with_run(m, Alias::Device, base, pages, Perm::Rw), r);
        } else {
            lemma_direct(m, r);
        }
    }
}

#[verifier::rlimit(40)]
proof fn lemma_regions(m: Map<int, u64>, s: Seq<Region>, n: int)
    requires
        0 <= n <= s.len(),
        forall|i: int| 0 <= i < n ==> usual(#[trigger] s[i]),
    ensures
        ({
            let r = views::with_regions(m, s, n);
            &&& in_place(m) ==> in_place(r)
            &&& grows(m, r)
            &&& plain(m) && (forall|i: int|
                0 <= i < n ==> (#[trigger] s[i]).base > 0xFFFF_FFFF || s[i].end() <= 0x8000_0000)
                ==> plain(r)
            &&& forall|i: int, v: int|
                #![trigger s[i], r.dom().contains(v)]
                0 <= i < n && direct() <= v && s[i].base <= 4096 * (v - direct()) < s[i].end()
                    && 4096 * (v - direct()) < 0x8000_0000 ==> r.dom().contains(v)
        }),
    decreases n,
{
    if n > 0 {
        lemma_regions(m, s, n - 1);
        let before = views::with_regions(m, s, n - 1);
        let r = views::with_regions(m, s, n);
        lemma_region(before, s[n - 1]);
        if plain(m) && (forall|i: int|
            0 <= i < n ==> (#[trigger] s[i]).base > 0xFFFF_FFFF || s[i].end() <= 0x8000_0000) {
            assert(s[n - 1].base > 0xFFFF_FFFF || s[n - 1].end() <= 0x8000_0000);
            assert(plain(before));
        }
        assert forall|i: int, v: int|
            #![trigger s[i], r.dom().contains(v)]
            0 <= i < n && direct() <= v && s[i].base <= 4096 * (v - direct()) < s[i].end() && 4096
                * (v - direct()) < 0x8000_0000 implies r.dom().contains(v) by {
            if i < n - 1 {
                assert(before.dom().contains(v));
            }
        }
    }
}

/// The pages of an image.
pub open spec fn of_image(image: ImageLayout, pa: int) -> bool {
    image.base as int / 4096 * 4096 <= pa < image.base + image.size
}

#[verifier::rlimit(40)]
proof fn lemma_of_image(image: ImageLayout, q: int)
    requires
        image.size > 0,
    ensures
        ({
            let lo = image.base as int / 4096 * 4096;
            let hi = bits::ceil_div(image.base + image.size, 4096) * 4096;
            of_image(image, 4096 * q) <==> lo / 4096 <= q < lo / 4096 + views::pages_in(lo, hi)
        }),
{
    let lo = image.base as int / 4096 * 4096;
    let end = image.base + image.size;
    bits::lemma_ceil_div(end, 4096);
    let hi = bits::ceil_div(end, 4096) * 4096;
    lemma_pages_in(lo, hi);
}

/// The page is one of the 2 MiB around a device at `phys`.
pub open spec fn in_block(v: int, phys: int) -> bool {
    devices() + phys / 0x20_0000 * 512 <= v < devices() + phys / 0x20_0000 * 512 + 512
}

/// The entry shows the frame at `pa` as its section says.
pub open spec fn as_section(e: u64, s: Seq<Section>, pa: int) -> bool {
    shows(e, pa, writes(pe::perm_at(s, pa)), runs(pe::perm_at(s, pa)))
}

/// Beside the `n` pages from `at` on, what there is was there before.
pub open spec fn beside(m: Map<int, u64>, r: Map<int, u64>, at: int, n: int) -> bool {
    forall|v: int| #[trigger]
        r.dom().contains(v) && !(at <= v < at + n) ==> m.dom().contains(v) && r[v] == m[v]
}

#[verifier::rlimit(40)]
proof fn lemma_window(m: Map<int, u64>, a: Alias, s: Seq<Section>, lo: int, n: int)
    requires
        0 <= lo,
        lo % 4096 == 0,
        n <= 0 || lo + n * 4096 <= 0x8000_0000,
        a is Identity || a is Direct,
    ensures
        ({
            let r = views::with_window(m, a, s, lo, n);
            let off = offset(a);
            &&& in_place(m) ==> in_place(r)
            &&& grows(m, r)
            &&& forall|v: int|
                off + lo / 4096 <= v < off + lo / 4096 + n ==> #[trigger] r.dom().contains(v)
                    && as_section(r[v], s, 4096 * (v - off))
            &&& beside(m, r, off + lo / 4096, n)
        }),
    decreases n,
{
    if n > 0 {
        lemma_window(m, a, s, lo, n - 1);
        let before = views::with_window(m, a, s, lo, n - 1);
        let p = (lo + (n - 1) * 4096) as u64;
        assert(p % 4096 == 0);
        let perm = pe::perm_at(s, p as int);
        lemma_page(before, a, p, perm);
        lemma_alias(a, p);
        lemma_entry(p, perm);
        assert(p as int / 4096 == lo / 4096 + (n - 1));
        let off = offset(a);
        let r = views::with_window(m, a, s, lo, n);
        assert(r == before.insert(
            off + lo / 4096 + (n - 1),
            views::page_entry(p, views::perm_flags(perm)),
        ));
        assert forall|v: int|
            off + lo / 4096 <= v < off + lo / 4096 + n implies #[trigger] r.dom().contains(v)
            && as_section(r[v], s, 4096 * (v - off)) by {
            if v < off + lo / 4096 + (n - 1) {
                assert(before.dom().contains(v));
            } else {
                assert(4096 * (v - off) == p);
            }
        }
        assert(beside(m, r, off + lo / 4096, n)) by {
            assert forall|v: int| #[trigger]
                r.dom().contains(v) && !(off + lo / 4096 <= v < off + lo / 4096 + n) implies m.dom(
            ).contains(v) && r[v] == m[v] by {
                assert(before.dom().contains(v));
            }
        }
        assert(in_place(m) ==> in_place(r));
        assert(grows(m, r));
    }
}

/// The image can be written and run as its sections say.
pub open spec fn image_seen(m: Map<int, u64>, image: ImageLayout, s: Seq<Section>) -> bool {
    forall|v: int|
        of_image(image, 4096 * (v - direct())) ==> #[trigger] m.dom().contains(v) && as_section(
            m[v],
            s,
            4096 * (v - direct()),
        )
}

/// The page is for the interrupt controllers.
pub open spec fn for_device(v: int, apic: u64) -> bool {
    in_block(v, 0xFEC0_0000) || apic != 0 && in_block(v, apic as int)
}

/// Memory beside the image is there, to be written and not run.
pub open spec fn memory_seen(
    m: Map<int, u64>,
    regions: Seq<Region>,
    image: ImageLayout,
    apic: u64,
) -> bool {
    forall|i: int, v: int|
        #![trigger regions[i], m.dom().contains(v)]
        0 <= i < regions.len() && direct() <= v && regions[i].base <= 4096 * (v - direct())
            < regions[i].end() && 4096 * (v - direct()) < 0x8000_0000 && !of_image(
            image,
            4096 * (v - direct()),
        ) && !for_device(v, apic) ==> m.dom().contains(v) && shows(
            m[v],
            4096 * (v - direct()),
            true,
            false,
        )
}

/// The interrupt controllers are there, to be written and not run.
pub open spec fn devices_seen(m: Map<int, u64>, image: ImageLayout, apic: u64) -> bool {
    forall|v: int|
        for_device(v, apic) && !of_image(image, 4096 * (v - direct())) ==> #[trigger] m.dom(
        ).contains(v) && shows(m[v], 4096 * (v - devices()), true, false)
}

/// All memory lies below 2 GiB.
pub open spec fn all_low(regions: Seq<Region>) -> bool {
    forall|i: int|
        0 <= i < regions.len() ==> (#[trigger] regions[i]).base > 0xFFFF_FFFF || regions[i].end()
            <= 0x8000_0000
}

/// The kernel's own view. Every page shows the frame that belongs there, to
/// the kernel alone. The image can be written and run as its sections say. And
/// where all memory lies below 2 GiB, the rest of it is there too, to be
/// written and not run.
#[verifier::spinoff_prover]
#[verifier::rlimit(60)]
pub proof fn law_kernel_sees_memory(
    regions: Seq<Region>,
    image: ImageLayout,
    s: Seq<Section>,
    island: u64,
    apic: u64,
)
    requires
        forall|i: int| 0 <= i < regions.len() ==> usual(#[trigger] regions[i]),
        image.base + image.size <= 0x8000_0000,
        image.size > 0,
        island < 0x1_0000_0000,
        apic < 0x1_0000_0000,
    ensures
        views::kernel_plan(regions, image, s, island, apic) matches Ok(m) ==> {
            &&& in_place(m)
            &&& image_seen(m, image, s)
            &&& all_low(regions) ==> memory_seen(m, regions, image, apic)
            &&& devices_seen(m, image, apic)
        },
{
    let n = regions.len() as int;
    lemma_regions(Map::empty(), regions, n);
    let m1 = views::with_regions(Map::empty(), regions, n);
    let page = (island / 4096 * 4096) as u64;
    lemma_page(m1, Alias::Identity, page, Perm::Rx);
    let m2 = views::with_page(m1, page, page, views::perm_flags(Perm::Rx));
    let a = (apic as int / 0x20_0000 * 0x20_0000) as u64;
    let o = 0xFEC0_0000u64;
    lemma_block(m2, Alias::Mmio, a, Perm::Rw);
    let m4 = if apic != 0 {
        views::with_block(m2, views::mmio_alias(a), a, views::perm_flags(Perm::Rw))
    } else {
        m2
    };
    lemma_block(m4, Alias::Mmio, o, Perm::Rw);
    let m5 = views::with_block(m4, views::mmio_alias(o), o, views::perm_flags(Perm::Rw));
    let lo = image.base as int / 4096 * 4096;
    let end = image.base + image.size;
    bits::lemma_ceil_div(end, 4096);
    let hi = bits::ceil_div(end, 4096) * 4096;
    lemma_pages_in(lo, hi);
    lemma_window(m5, Alias::Direct, s, lo, views::pages_in(lo, hi));
    let plan = views::kernel_plan(regions, image, s, island, apic);
    if plan is Ok {
        let m = views::with_window(m5, Alias::Direct, s, lo, views::pages_in(lo, hi));
        assert(o as int / 0x20_0000 * 0x20_0000 == o);
        assert(plan == Ok::<Map<int, u64>, &'static str>(m));
        assert(a as int / 4096 == apic as int / 0x20_0000 * 512);
        assert(in_place(m));
        assert(image_seen(m, image, s)) by {
            assert forall|v: int|
                of_image(image, 4096 * (v - direct())) implies #[trigger] m.dom().contains(v)
                && as_section(m[v], s, 4096 * (v - direct())) by {
                lemma_of_image(image, v - direct());
                assert(direct() + lo / 4096 <= v < direct() + lo / 4096 + views::pages_in(lo, hi));
                assert(m.dom().contains(v));
            }
        }
        if all_low(regions) {
            assert(plain(m1));
            assert forall|i: int, v: int|
                #![trigger regions[i], m.dom().contains(v)]
                0 <= i < regions.len() && direct() <= v && regions[i].base <= 4096 * (v - direct())
                    < regions[i].end() && 4096 * (v - direct()) < 0x8000_0000 && !of_image(
                    image,
                    4096 * (v - direct()),
                ) && !for_device(v, apic) implies m.dom().contains(v) && shows(
                m[v],
                4096 * (v - direct()),
                true,
                false,
            ) by {
                lemma_of_image(image, v - direct());
                assert(m1.dom().contains(v));
                assert(m2.dom().contains(v));
                assert(m4.dom().contains(v));
                assert(m5.dom().contains(v));
                assert(m.dom().contains(v));
            }
            assert(memory_seen(m, regions, image, apic));
        }
        assert(devices_seen(m, image, apic)) by {
            assert forall|v: int|
                for_device(v, apic) && !of_image(image, 4096 * (v - direct())) implies #[trigger] m.dom(
            ).contains(v) && shows(m[v], 4096 * (v - devices()), true, false) by {
                lemma_of_image(image, v - direct());
                assert(m5.dom().contains(v));
                assert(m.dom().contains(v));
            }
        }
    }
}

/// What [`views::build_kernel_view`] builds is that view, of the regions and
/// the image that it was given.
#[verifier::rlimit(40)]
pub proof fn law_built_view_sees_memory(
    p0: &Paging,
    p1: &Paging,
    fa0: &FrameAllocator,
    fa1: &FrameAllocator,
    h: &Handoff,
    image: &[u8],
    island: u64,
    root: u64,
)
    requires
        views::kernel_view_built(p0, p1, fa0, fa1, h, image, island, Ok(root)),
        forall|i: int| 0 <= i < h.regions@.len() ==> usual(#[trigger] h.regions@[i]),
        h.image.base + h.image.size <= 0x8000_0000,
        island < 0x1_0000_0000,
        p0.apic_base < 0x1_0000_0000,
    ensures
        ({
            let m = views::view(p1.mem.words@, root as int);
            &&& p1.kernel_root == root
            &&& in_place(m)
            &&& exists|s: Seq<Section>| #[trigger]
                image_seen(m, h.image, s) && pe::sections_of(image@, h.image.base as int) == Ok::<
                    Seq<Section>,
                    &'static str,
                >(s)
            &&& all_low(h.regions@) ==> memory_seen(m, h.regions@, h.image, p0.apic_base)
            &&& devices_seen(m, h.image, p0.apic_base)
        }),
{
    let s = pe::sections_of(image@, h.image.base as int)->Ok_0;
    law_kernel_sees_memory(h.regions@, h.image, s, island, p0.apic_base);
    assert(image_seen(views::view(p1.mem.words@, root as int), h.image, s));
}

#[verifier::rlimit(40)]
proof fn lemma_boot_region(m: Map<int, u64>, r: Region)
    requires
        usual(r),
    ensures
        ({
            let n = views::with_boot_region(m, r);
            &&& in_place(m) ==> in_place(n)
            &&& grows(m, n)
            &&& forall|v: int|
                r.pages != 0 && r.base <= 4096 * v < r.end() && r.base <= 0xFFFF_FFFF
                    ==> #[trigger] n.dom().contains(v)
            &&& forall|v: int|
                r.pages != 0 && direct() <= v && r.base <= 4096 * (v - direct()) < r.end() && 4096
                    * (v - direct()) < 0x8000_0000 ==> #[trigger] n.dom().contains(v)
        }),
{
    if r.pages != 0 && r.base <= 0xFFFF_FFFF {
        let base = r.base as int;
        lemma_range(base, r.end() - base, 0x1_0000_0000);
        lemma_blocks(
            m,
            Alias::Identity,
            base / 0x20_0000,
            views::blocks_in(base, r.end() - base),
            Perm::FwCompat,
        );
        let n = views::with_range(m, Alias::Identity, base, r.end() - base, Perm::FwCompat);
        assert forall|v: int| base <= 4096 * v < r.end() implies #[trigger] n.dom().contains(v) by {
            assert(base / 0x20_0000 * 512 <= v);
        }
        lemma_direct(n, r);
        let k = views::with_boot_region(m, r);
        assert(k == views::with_direct(n, base, r.end()));
        assert(grows(m, n) && grows(n, k));
        assert forall|v: int| base <= 4096 * v < r.end() implies #[trigger] k.dom().contains(v) by {
            assert(n.dom().contains(v));
        }
        assert(grows(m, k));
    }
}

#[verifier::rlimit(40)]
proof fn lemma_boot_regions(m: Map<int, u64>, s: Seq<Region>, n: int)
    requires
        0 <= n <= s.len(),
        forall|i: int| 0 <= i < n ==> usual(#[trigger] s[i]),
    ensures
        ({
            let r = views::with_boot_regions(m, s, n);
            &&& in_place(m) ==> in_place(r)
            &&& grows(m, r)
            &&& boot_seen(r, s, n)
        }),
    decreases n,
{
    if n > 0 {
        lemma_boot_regions(m, s, n - 1);
        let before = views::with_boot_regions(m, s, n - 1);
        let r = views::with_boot_regions(m, s, n);
        lemma_boot_region(before, s[n - 1]);
        assert forall|i: int, v: int|
            #![trigger s[i], r.dom().contains(v)]
            0 <= i < n && s[i].pages != 0 && s[i].base <= 0xFFFF_FFFF && (s[i].base <= 4096 * v
                < s[i].end() || direct() <= v && s[i].base <= 4096 * (v - direct()) < s[i].end()
                && 4096 * (v - direct()) < 0x8000_0000) implies r.dom().contains(v) by {
            if i < n - 1 {
                assert(before.dom().contains(v));
            }
        }
    }
}

/// Memory below 4 GiB is seen at its own address, and below 2 GiB where the
/// kernel will see it.
pub open spec fn boot_seen(m: Map<int, u64>, s: Seq<Region>, n: int) -> bool {
    forall|i: int, v: int|
        #![trigger s[i], m.dom().contains(v)]
        0 <= i < n && s[i].pages != 0 && s[i].base <= 0xFFFF_FFFF && (s[i].base <= 4096 * v
            < s[i].end() || direct() <= v && s[i].base <= 4096 * (v - direct()) < s[i].end() && 4096
            * (v - direct()) < 0x8000_0000) ==> m.dom().contains(v)
}

/// The view that the boot stage runs in: every page shows the frame that
/// belongs there, all memory is seen, and the image can be written and run as
/// its sections say, at its own address and where the kernel will see it.
#[verifier::rlimit(40)]
pub proof fn law_boot_sees_memory(
    p0: &Paging,
    p1: &Paging,
    fa0: &FrameAllocator,
    fa1: &FrameAllocator,
    h: &Handoff,
    layout: ImageLayout,
    image: &[u8],
    msr: u64,
    root: u64,
)
    requires
        views::boot_view_built(p0, p1, fa0, fa1, h, layout, image, msr, Ok(root)),
        forall|i: int| 0 <= i < h.regions@.len() ==> usual(#[trigger] h.regions@[i]),
        layout.base + layout.size <= 0x8000_0000,
        p1.apic_base < 0x1_0000_0000,
    ensures
        ({
            let m = views::view(p1.mem.words@, root as int);
            &&& in_place(m)
            &&& boot_seen(m, h.regions@, h.regions@.len() as int)
            &&& exists|s: Seq<Section>|
                {
                    &&& pe::sections_of(image@, layout.base as int) == Ok::<
                        Seq<Section>,
                        &'static str,
                    >(s)
                    &&& #[trigger] image_seen(m, layout, s)
                    &&& forall|v: int|
                        of_image(layout, 4096 * v) ==> #[trigger] m.dom().contains(v) && as_section(
                            m[v],
                            s,
                            4096 * v,
                        )
                }
        }),
{
    let regions = h.regions@;
    let s = pe::sections_of(image@, layout.base as int)->Ok_0;
    let n = regions.len() as int;
    lemma_boot_regions(Map::empty(), regions, n);
    let m1 = views::with_boot_regions(Map::empty(), regions, n);
    let apic = p1.apic_base;
    let a = (apic as int / 0x20_0000 * 0x20_0000) as u64;
    lemma_block(m1, Alias::Identity, a, Perm::Rw);
    let m2 = if apic != 0 {
        views::with_block(m1, a, a, views::perm_flags(Perm::Rw))
    } else {
        m1
    };
    let lo = layout.base as int / 4096 * 4096;
    let end = layout.base + layout.size;
    bits::lemma_ceil_div(end, 4096);
    let hi = bits::ceil_div(end, 4096) * 4096;
    lemma_pages_in(lo, hi);
    let k = views::pages_in(lo, hi);
    lemma_window(m2, Alias::Identity, s, lo, k);
    let m3 = views::with_window(m2, Alias::Identity, s, lo, k);
    lemma_window(m3, Alias::Direct, s, lo, k);
    let m = views::with_window(m3, Alias::Direct, s, lo, k);
    assert(m == views::view(p1.mem.words@, root as int));
    assert forall|v: int| of_image(layout, 4096 * (v - direct())) implies #[trigger] m.dom(
    ).contains(v) && as_section(m[v], s, 4096 * (v - direct())) by {
        lemma_of_image(layout, v - direct());
        assert(m.dom().contains(v));
    }
    assert(image_seen(m, layout, s));
    assert forall|v: int| of_image(layout, 4096 * v) implies #[trigger] m.dom().contains(v)
        && as_section(m[v], s, 4096 * v) by {
        lemma_of_image(layout, v);
        assert(m3.dom().contains(v));
        assert(m.dom().contains(v));
    }
    assert(boot_seen(m, regions, n)) by {
        assert(grows(m1, m2) && grows(m2, m3) && grows(m3, m));
        assert forall|i: int, v: int|
            #![trigger regions[i], m.dom().contains(v)]
            0 <= i < n && regions[i].pages != 0 && regions[i].base <= 0xFFFF_FFFF && (
            regions[i].base <= 4096 * v < regions[i].end() || direct() <= v && regions[i].base
                <= 4096 * (v - direct()) < regions[i].end() && 4096 * (v - direct())
                < 0x8000_0000) implies m.dom().contains(v) by {
            assert(m1.dom().contains(v));
            assert(m2.dom().contains(v));
            assert(m3.dom().contains(v));
        }
    }
}

} // verus!

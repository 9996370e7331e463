//! What the page tables mean to the processor that walks them.

use crate::frames::FrameAllocator;
use crate::paging;
use crate::paging::PhysMem;
use crate::views;
use crate::views::Paging;
use vstd::prelude::*;

verus! {

/// What the processor finds for an address: the physical address, and whether
/// user mode may go there, may write there, and may run what is there.
pub struct Found {
    pub phys: int,
    pub user: bool,
    pub write: bool,
    pub runs: bool,
}

/// The physical address in an entry.
pub open spec fn base(e: u64) -> int {
    (e & 0x000F_FFFF_FFFF_F000) as int
}

/// All of the entries allow what bit `b` stands for.
pub open spec fn all(a: u64, b: u64, c: u64, d: u64, bit: u64) -> bool {
    a & bit != 0 && b & bit != 0 && c & bit != 0 && d & bit != 0
}

/// None of the entries forbids to run.
pub open spec fn run(a: u64, b: u64, c: u64, d: u64) -> bool {
    let nx = 0x8000_0000_0000_0000u64;
    a & nx == 0 && b & nx == 0 && c & nx == 0 && d & nx == 0
}

/// The processor's walk from the root at `cr3`: nine bits of the address choose
/// the entry on each of four levels. It ends where an entry is not present (bit
/// 0). On the third level an entry may stand for 2 MiB (bit 7). What is allowed
/// is what all entries on the way allow: writing (bit 1), user mode (bit 2),
/// and running (not bit 63).
pub open spec fn walk(words: Seq<u64>, cr3: int, va: u64) -> Option<Found> {
    let a = words[cr3 / 8 + ((va >> 39) & 0x1FF)];
    let b = words[base(a) / 8 + ((va >> 30) & 0x1FF)];
    let c = words[base(b) / 8 + ((va >> 21) & 0x1FF)];
    let d = words[base(c) / 8 + ((va >> 12) & 0x1FF)];
    if a & 1 == 0 || b & 1 == 0 || c & 1 == 0 {
        None
    } else if c & 0x80 != 0 {
        Some(
            Found {
                phys: base((base(c) + ((va >> 12) & 0x1FF) * 4096) as u64) + va % 4096,
                user: all(a, b, c, c, 4),
                write: all(a, b, c, c, 2),
                runs: run(a, b, c, c),
            },
        )
    } else if d & 1 == 0 {
        None
    } else {
        Some(
            Found {
                phys: base(d) + va % 4096,
                user: all(a, b, c, d, 4),
                write: all(a, b, c, d, 2),
                runs: run(a, b, c, d),
            },
        )
    }
}

proof fn lemma_piece(e: u64, x: u64)
    by (bit_vector)
    requires
        x % 4096 == 0,
        x < 0x20_0000_0000_0000u64,
    ensures
        ((x | (e & !0x000F_FFFF_FFFF_F000u64 & !0x80u64)) & 2 != 0) == (e & 2 != 0),
        ((x | (e & !0x000F_FFFF_FFFF_F000u64 & !0x80u64)) & 4 != 0) == (e & 4 != 0),
        ((x | (e & !0x000F_FFFF_FFFF_F000u64 & !0x80u64)) & 0x8000_0000_0000_0000u64 == 0) == (e
            & 0x8000_0000_0000_0000u64 == 0),
        (x | (e & !0x000F_FFFF_FFFF_F000u64 & !0x80u64)) & 0x000F_FFFF_FFFF_F000u64 == x
            & 0x000F_FFFF_FFFF_F000u64,
{
}

/// The entry that is read for a page is what the processor's walk comes to: the
/// walk ends where there is none, and otherwise it goes to the entry's frame
/// with the entry's own permissions.
#[verifier::rlimit(40)]
pub proof fn law_entry_is_what_is_found(m: &PhysMem, root: u64, va: u64)
    requires
        paging::tables_wf(m.words@, m.seats@),
        paging::is_root(m.seats@, root as int),
    ensures
        match paging::leaf(m.words@, root as int, paging::page_no(va as int)) {
            None => walk(m.words@, root as int, va) is None,
            Some(e) => walk(m.words@, root as int, va) == Some(
                Found {
                    phys: base(e) + va % 4096,
                    user: e & 4 != 0,
                    write: e & 2 != 0,
                    runs: e & 0x8000_0000_0000_0000 == 0,
                },
            ),
        },
{
    let w = m.words@;
    let s = m.seats@;
    let v = paging::page_no(va as int);
    paging::lemma_indices(va);
    let i4 = ((va >> 39) & 0x1FF) as int;
    let i3 = ((va >> 30) & 0x1FF) as int;
    let i2 = ((va >> 21) & 0x1FF) as int;
    let i1 = ((va >> 12) & 0x1FF) as int;
    assert(i4 == paging::idx4(v) && i3 == paging::idx3(v) && i2 == paging::idx2(v) && i1
        == paging::idx1(v));
    let a = w[root as int / 8 + i4];
    let b = w[base(a) / 8 + i3];
    let c = w[base(b) / 8 + i2];
    assert(paging::entry_ok(w, s, root as int, i4));
    if a & 1 != 0 {
        assert(paging::entry_ok(w, s, base(a), i3));
        if b & 1 != 0 {
            assert(paging::entry_ok(w, s, base(b), i2));
            if c & 1 != 0 && c & 0x80 != 0 {
                paging::lemma_mask(c);
                lemma_piece(c, (base(c) + i1 * 4096) as u64);
            }
        }
    }
}

/// The addresses that the processor accepts.
pub open spec fn canonical(x: u64) -> bool {
    x < 0x8000_0000_0000 || x >= 0xFFFF_8000_0000_0000
}

/// The user page at `va` under `root` is at `phys` now, for each of its
/// addresses, with just these permissions; and what is found at any other
/// page, under any root that there was, is what was found there before.
pub open spec fn page_appears(
    pre: &PhysMem,
    post: &PhysMem,
    root: u64,
    va: u64,
    phys: u64,
    write: bool,
    run: bool,
) -> bool {
    forall|r: u64, x: u64|
        paging::is_root(pre.seats@, r as int) && canonical(x) ==> #[trigger] walk(
            post.words@,
            r as int,
            x,
        ) == (if va <= x < va + 4096 && r == root {
            Some(Found { phys: phys + (x - va), user: true, write, runs: run })
        } else {
            walk(pre.words@, r as int, x)
        })
}

#[verifier::rlimit(40)]
proof fn lemma_appears(
    pre: &PhysMem,
    pre_fa: &FrameAllocator,
    post: &PhysMem,
    post_fa: &FrameAllocator,
    root: u64,
    va: u64,
    phys: u64,
    write: bool,
    run: bool,
)
    requires
        pre.wf(pre_fa),
        paging::is_root(pre.seats@, root as int),
        va % 4096 == 0,
        phys % 4096 == 0,
        va < 0x8000_0000_0000,
        !(write && run),
        phys < 0x10_0000_0000_0000,
        paging::mapped(
            pre,
            pre_fa,
            post,
            post_fa,
            root as int,
            paging::page_no(va as int),
            paging::user_entry(phys, write, run),
        ),
    ensures
        page_appears(pre, post, root, va, phys, write, run),
{
    let v = paging::page_no(va as int);
    paging::lemma_user_entry(phys);
    assert(paging::idx4(v) < 256);
    assert(paging::owner_of(pre.seats@[root as int], v) == root as int);
    assert forall|r: u64, x: u64|
        paging::is_root(pre.seats@, r as int) && canonical(x) implies #[trigger] walk(
        post.words@,
        r as int,
        x,
    ) == (if va <= x < va + 4096 && r == root {
        Some(Found { phys: phys + (x - va), user: true, write, runs: run })
    } else {
        walk(pre.words@, r as int, x)
    }) by {
        let n = paging::page_no(x as int);
        law_entry_is_what_is_found(pre, r, x);
        assert(pre.seats@.dom().contains(r as int));
        law_entry_is_what_is_found(post, r, x);
        if va <= x < va + 4096 && r == root {
            assert(x as int / 4096 == va as int / 4096);
        } else {
            if n == v {
                assert(x < 0x8000_0000_0000);
                assert(x as int / 4096 == va as int / 4096);
                assert(va <= x < va + 4096);
                assert(paging::owner_of(pre.seats@[r as int], v) == r as int);
            }
            assert(paging::leaf(post.words@, r as int, n) == paging::leaf(
                pre.words@,
                r as int,
                n,
            ));
        }
    }
}

/// A request for a user page is granted just where the page and its frame are
/// whole pages, the page lies in the user half, it is not to be written and run
/// both, and there are frames for the tables. Then it appears as asked for.
/// Otherwise every page is found where it was.
#[verifier::rlimit(40)]
pub proof fn law_user_page_appears(
    pre: &PhysMem,
    post: &PhysMem,
    fa0: &FrameAllocator,
    fa1: &FrameAllocator,
    root: u64,
    va: u64,
    phys: u64,
    write: bool,
    run: bool,
    out: Result<(), &'static str>,
)
    requires
        pre.wf(fa0),
        paging::is_root(pre.seats@, root as int),
        phys < 0x10_0000_0000_0000,
        paging::user_page_mapped(pre, post, fa0, fa1, root, va, phys, write, run, out),
    ensures
        out is Ok ==> {
            &&& va % 4096 == 0 && phys % 4096 == 0 && va < 0x8000_0000_0000 && !(write && run)
            &&& page_appears(pre, post, root, va, phys, write, run)
        },
        va % 4096 == 0 && phys % 4096 == 0 && va < 0x8000_0000_0000 && !(write && run)
            && fa0.ready && fa0.available() >= 3 ==> out is Ok,
        out is Err ==> forall|r: u64, x: u64|
            paging::is_root(pre.seats@, r as int) ==> #[trigger] walk(post.words@, r as int, x)
                == walk(pre.words@, r as int, x),
{
    if out is Ok {
        lemma_appears(pre, fa0, post, fa1, root, va, phys, write, run);
    } else {
        lemma_same(pre, post);
    }
}

#[verifier::rlimit(40)]
proof fn lemma_same(pre: &PhysMem, post: &PhysMem)
    requires
        paging::tables_wf(pre.words@, pre.seats@),
        paging::tables_wf(post.words@, post.seats@),
        forall|t: int| #[trigger]
            pre.seats@.dom().contains(t) ==> post.seats@.dom().contains(t) && post.seats@[t]
                == pre.seats@[t],
        paging::same_leaves(pre, post),
    ensures
        forall|r: u64, x: u64|
            paging::is_root(pre.seats@, r as int) ==> #[trigger] walk(post.words@, r as int, x)
                == walk(pre.words@, r as int, x),
{
    assert forall|r: u64, x: u64| paging::is_root(pre.seats@, r as int) implies #[trigger] walk(
        post.words@,
        r as int,
        x,
    ) == walk(pre.words@, r as int, x) by {
        law_entry_is_what_is_found(pre, r, x);
        assert(pre.seats@.dom().contains(r as int));
        law_entry_is_what_is_found(post, r, x);
        let n = paging::page_no(x as int);
        assert(paging::leaf(post.words@, r as int, n) == paging::leaf(pre.words@, r as int, n));
    }
}

/// The same for a user page under the kernel's own root.
#[verifier::rlimit(40)]
pub proof fn law_user_page_appears_to_the_kernel(
    pre: &Paging,
    post: &Paging,
    fa0: &FrameAllocator,
    fa1: &FrameAllocator,
    va: u64,
    phys: u64,
    write: bool,
    run: bool,
    out: Result<(), &'static str>,
)
    requires
        pre.wf(fa0),
        pre.kernel_built(),
        phys < 0x10_0000_0000_0000,
        views::kernel_view_mapped(pre, post, fa0, fa1, va, phys, write, run, out),
    ensures
        out is Ok ==> {
            &&& va % 4096 == 0 && phys % 4096 == 0 && va < 0x8000_0000_0000 && !(write && run)
            &&& page_appears(&pre.mem, &post.mem, pre.kernel_root, va, phys, write, run)
        },
        va % 4096 == 0 && phys % 4096 == 0 && va < 0x8000_0000_0000 && !(write && run)
            && fa0.ready && fa0.available() >= 3 ==> out is Ok,
        out is Err ==> forall|r: u64, x: u64|
            paging::is_root(pre.mem.seats@, r as int) ==> #[trigger] walk(
                post.mem.words@,
                r as int,
                x,
            ) == walk(pre.mem.words@, r as int, x),
        post.kernel_root == pre.kernel_root,
{
    if out is Ok {
        lemma_appears(
            &pre.mem,
            fa0,
            &post.mem,
            fa1,
            pre.kernel_root,
            va,
            phys,
            write,
            run,
        );
    } else {
        lemma_same(&pre.mem, &post.mem);
    }
}

/// A page that was unmapped is found no more, the frame that it was at is
/// handed out, and no other page of any root is found elsewhere than before.
#[verifier::rlimit(40)]
pub proof fn law_unmapped_page_is_gone(
    pre: &PhysMem,
    post: &PhysMem,
    fa: &FrameAllocator,
    root: u64,
    va: u64,
    out: Option<u64>,
    r: u64,
    x: u64,
)
    requires
        pre.wf(fa),
        paging::editable(pre.seats@, root as int, paging::page_no(va as int)),
        paging::unmapped(pre, post, fa, root, va, out),
        paging::is_root(pre.seats@, r as int),
    ensures
        out matches Some(f) ==> walk(post.words@, root as int, va) is None && (walk(
            pre.words@,
            root as int,
            va,
        ) matches Some(p) && p.phys == f + va % 4096),
        out is None ==> post.words@ == pre.words@,
        paging::page_no(x as int) != paging::page_no(va as int) ==> walk(post.words@, r as int, x)
            == walk(pre.words@, r as int, x),
{
    law_entry_is_what_is_found(pre, root, va);
    law_entry_is_what_is_found(post, root, va);
    law_entry_is_what_is_found(pre, r, x);
    law_entry_is_what_is_found(post, r, x);
}

/// A new address space has an empty user half, and its kernel half is the
/// lender's, so the kernel is found at the same places under both.
#[verifier::rlimit(40)]
pub proof fn law_new_space_sees_the_kernel(
    pre: &PhysMem,
    post: &PhysMem,
    fa0: &FrameAllocator,
    fa1: &FrameAllocator,
    lender: u64,
    f: u64,
    x: u64,
)
    requires
        pre.wf(fa0),
        paging::is_root(pre.seats@, lender as int),
        paging::root_made(pre, post, fa0, fa1, Some(lender), Some(f)),
    ensures
        f % 4096 == 0,
        x < 0x8000_0000_0000 ==> walk(post.words@, f as int, x) is None,
        x >= 0xFFFF_8000_0000_0000 ==> walk(post.words@, f as int, x) == walk(
            pre.words@,
            lender as int,
            x,
        ),
{
    law_entry_is_what_is_found(pre, lender, x);
    law_entry_is_what_is_found(post, f, x);
    assert(post.seats@.dom().contains(f as int));
    let n = paging::page_no(x as int);
    assert(0 <= n < paging::PAGES);
    assert(paging::leaf(post.words@, f as int, n) == paging::leaf(post.words@, f as int, n));
}

/// The address space of a new process: an empty user half, and the kernel as
/// the kernel itself sees it.
#[verifier::rlimit(40)]
pub proof fn law_process_sees_the_kernel(
    pre: &Paging,
    post: &Paging,
    fa0: &FrameAllocator,
    fa1: &FrameAllocator,
    f: u64,
    x: u64,
)
    requires
        pre.wf(fa0),
        pre.kernel_built(),
        views::process_root_made(pre, post, fa0, fa1, Some(f)),
    ensures
        x < 0x8000_0000_0000 ==> walk(post.mem.words@, f as int, x) is None,
        x >= 0xFFFF_8000_0000_0000 ==> walk(post.mem.words@, f as int, x) == walk(
            pre.mem.words@,
            pre.kernel_root as int,
            x,
        ),
        forall|r: u64, y: u64|
            paging::is_root(pre.mem.seats@, r as int) ==> #[trigger] walk(
                post.mem.words@,
                r as int,
                y,
            ) == walk(pre.mem.words@, r as int, y),
{
    law_entry_is_what_is_found(&pre.mem, pre.kernel_root, x);
    law_entry_is_what_is_found(&post.mem, f, x);
    let n = paging::page_no(x as int);
    assert(0 <= n < paging::PAGES);
    assert(paging::leaf(post.mem.words@, f as int, n) == paging::leaf(
        post.mem.words@,
        f as int,
        n,
    ));
    lemma_same(&pre.mem, &post.mem);
}

/// What [`views::unmap_user_page_kernel_view`] takes down is found no more
/// under the kernel's root, and it hands out the frame that was there.
#[verifier::rlimit(40)]
pub proof fn law_kernel_page_is_gone(
    pre: &Paging,
    post: &Paging,
    fa: &FrameAllocator,
    va: u64,
    out: Option<u64>,
    x: u64,
)
    requires
        pre.wf(fa),
        pre.kernel_built(),
        views::kernel_view_unmapped(pre, post, fa, va, out),
    ensures
        out matches Some(f) ==> walk(post.mem.words@, pre.kernel_root as int, va) is None && (walk(
            pre.mem.words@,
            pre.kernel_root as int,
            va,
        ) matches Some(p) && p.phys == f + va % 4096),
        paging::page_no(x as int) != paging::page_no(va as int) ==> walk(
            post.mem.words@,
            pre.kernel_root as int,
            x,
        ) == walk(pre.mem.words@, pre.kernel_root as int, x),
{
    law_entry_is_what_is_found(&pre.mem, pre.kernel_root, va);
    law_entry_is_what_is_found(&post.mem, pre.kernel_root, va);
    law_entry_is_what_is_found(&pre.mem, pre.kernel_root, x);
    law_entry_is_what_is_found(&post.mem, pre.kernel_root, x);
}

/// The flags that are read for a 4 KiB page are those by which the processor
/// goes there.
#[verifier::rlimit(40)]
pub proof fn law_flags_are_the_pages_own(m: &PhysMem, root: u64, va: u64, e: u64)
    requires
        paging::tables_wf(m.words@, m.seats@),
        paging::is_root(m.seats@, root as int),
        paging::pte_at(m.words@, root as int, paging::page_no(va as int)) == Some(e),
    ensures
        walk(m.words@, root as int, va) == Some(
            Found {
                phys: base(e) + va % 4096,
                user: e & 4 != 0,
                write: e & 2 != 0,
                runs: e & 0x8000_0000_0000_0000 == 0,
            },
        ),
        e & 1 != 0,
{
    law_entry_is_what_is_found(m, root, va);
}

} // verus!

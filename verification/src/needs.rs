//! How many page tables a row of mappings adds. Pages that lie near each other
//! share their tables, so what a page needs depends on what was mapped before.
use crate::frames::FrameAllocator;
use crate::paging;
use crate::paging::{PhysMem, PAGES};
use vstd::prelude::*;

verus! {

/// How many of the tables on the way to page `w` are not on the way to page
/// `v`.
pub open spec fn apart(v: int, w: int) -> int {
    if v / 512 == w / 512 {
        0
    } else if v / 0x4_0000 == w / 0x4_0000 {
        1
    } else if v / 0x800_0000 == w / 0x800_0000 {
        2
    } else {
        3
    }
}

pub open spec fn lesser(a: int, b: int) -> int {
    if a <= b {
        a
    } else {
        b
    }
}

pub open spec fn greater(a: int, b: int) -> int {
    if a <= b {
        b
    } else {
        a
    }
}

/// The tables on the way to page `v` of `root` stand, but for the last
/// `floor` of them: a page lacks no more tables than those, or than it does not
/// share with `v`. No other table was added.
#[verifier::opaque]
pub open spec fn nearer(pre: &PhysMem, post: &PhysMem, root: int, v: int, floor: int) -> bool {
    forall|w: int|
        paging::editable(pre.seats@, root, w) && 0 <= w < PAGES ==> #[trigger] paging::missing(
            post.words@,
            root,
            w,
        ) == lesser(paging::missing(pre.words@, root, w), greater(apart(v, w), floor))
}

/// A page lacks no more tables than those that it does not share with `v`, or
/// than `v` lacks.
pub proof fn lemma_near(m: &PhysMem, root: int, v: int, floor: int)
    requires
        paging::missing(m.words@, root, v) <= floor <= 1,
        0 <= v < PAGES,
    ensures
        nearer(m, m, root, v, floor),
{
    reveal(nearer);
    assert forall|w: int| paging::editable(m.seats@, root, w) && 0 <= w < PAGES implies #[trigger] paging::missing(
        m.words@,
        root,
        w,
    ) == lesser(paging::missing(m.words@, root, w), greater(apart(v, w), floor)) by {
        paging::lemma_page_split(v);
        paging::lemma_page_split(w);
        if apart(v, w) == 0 {
            assert(v / 512 / 512 == v / 0x4_0000 && w / 512 / 512 == w / 0x4_0000);
            assert(v / 512 / 0x4_0000 == v / 0x800_0000 && w / 512 / 0x4_0000 == w / 0x800_0000);
        } else if apart(v, w) == 1 {
            assert(v / 0x4_0000 / 512 == v / 0x800_0000 && w / 0x4_0000 / 512 == w / 0x800_0000);
        }
    }
}

/// A 2 MiB leaf stands around page `v` of `root`: the pages in it lack their
/// last table, whatever was there before, and another page lacks no more
/// tables than it does not share with them. No other table was added.
#[verifier::opaque]
pub open spec fn blocked(pre: &PhysMem, post: &PhysMem, root: int, v: int) -> bool {
    forall|w: int|
        paging::editable(pre.seats@, root, w) && 0 <= w < PAGES ==> #[trigger] paging::missing(
            post.words@,
            root,
            w,
        ) == (if v / 512 == w / 512 {
            1
        } else {
            lesser(paging::missing(pre.words@, root, w), greater(apart(v, w), 1))
        })
}

/// Writing a 2 MiB leaf into the table `pd` that page `v` hangs in.
#[verifier::spinoff_prover]
pub proof fn lemma_blocked(m0: &PhysMem, m1: &PhysMem, m2: &PhysMem, root: int, v: int, pd: int)
    requires
        paging::seats_kept(m0, m1),
        paging::tables_wf(m1.words@, m1.seats@),
        paging::is_root(m0.seats@, root),
        0 <= v < PAGES,
        nearer(m0, m1, root, v, 1),
        ({
            let a = paging::entry(m1.words@, root, paging::idx4(v));
            let b = paging::entry(m1.words@, paging::addr(a), paging::idx3(v));
            paging::present(a) && paging::present(b) && paging::addr(b) == pd
        }),
        paging::huge(paging::entry(m2.words@, pd, paging::idx2(v))),
        forall|u: int, j: int|
            m1.seats@.dom().contains(u) && 0 <= j < 512 && !(u == pd && j == paging::idx2(v))
                ==> #[trigger] paging::entry(m2.words@, u, j) == paging::entry(m1.words@, u, j),
    ensures
        blocked(m0, m2, root, v),
{
    reveal(nearer);
    reveal(blocked);
    let w1 = m1.words@;
    let w2 = m2.words@;
    assert(m1.seats@.dom().contains(root));
    paging::lemma_page_split(v);
    paging::lemma_path(w1, m1.seats@, root, v);
    assert forall|w: int| paging::editable(m0.seats@, root, w) && 0 <= w < PAGES implies #[trigger] paging::missing(
        w2,
        root,
        w,
    ) == (if v / 512 == w / 512 {
        1
    } else {
        lesser(paging::missing(m0.words@, root, w), greater(apart(v, w), 1))
    }) by {
        paging::lemma_page_split(w);
        paging::lemma_path(w1, m1.seats@, root, w);
        assert(v / 512 / 512 == v / 0x4_0000 && w / 512 / 512 == w / 0x4_0000);
        assert(v / 0x4_0000 / 512 == v / 0x800_0000 && w / 0x4_0000 / 512 == w / 0x800_0000);
        let a = paging::entry(w1, root, paging::idx4(w));
        assert(paging::entry(w2, root, paging::idx4(w)) == a);
        if paging::present(a) {
            let b = paging::entry(w1, paging::addr(a), paging::idx3(w));
            assert(paging::entry(w2, paging::addr(a), paging::idx3(w)) == b);
            if paging::present(b) && v / 512 != w / 512 {
                if paging::addr(b) == pd {
                    assert(v / 0x4_0000 == w / 0x4_0000);
                    assert(paging::idx2(v) != paging::idx2(w));
                }
                assert(paging::entry(w2, paging::addr(b), paging::idx2(w)) == paging::entry(
                    w1,
                    paging::addr(b),
                    paging::idx2(w),
                ));
            }
        }
        if v / 512 == w / 512 {
            assert(paging::idx4(w) == paging::idx4(v) && paging::idx3(w) == paging::idx3(v)
                && paging::idx2(w) == paging::idx2(v));
        } else {
            assert(paging::missing(w2, root, w) == paging::missing(w1, root, w));
        }
    }
}

/// Getting nearer twice.
pub proof fn lemma_nearer_nearer(
    m0: &PhysMem,
    m1: &PhysMem,
    m2: &PhysMem,
    root: int,
    v: int,
    a: int,
    b: int,
)
    requires
        paging::seats_kept(m0, m1),
        nearer(m0, m1, root, v, a),
        nearer(m1, m2, root, v, b),
        b <= a,
    ensures
        nearer(m0, m2, root, v, b),
{
    reveal(nearer);
    assert forall|w: int| paging::editable(m0.seats@, root, w) && 0 <= w < PAGES implies #[trigger] paging::missing(
        m2.words@,
        root,
        w,
    ) == lesser(paging::missing(m0.words@, root, w), greater(apart(v, w), b)) by {
        assert(m1.seats@.dom().contains(root));
        assert(paging::editable(m1.seats@, root, w));
    }
}

/// Writing entries of last-level tables, or of frames that are no tables,
/// changes no need.
pub proof fn lemma_needs_same(m0: &PhysMem, m1: &PhysMem, root: int, w: int)
    requires
        paging::tables_wf(m0.words@, m0.seats@),
        paging::is_root(m0.seats@, root),
        0 <= w < PAGES,
        forall|u: int, j: int|
            m0.seats@.dom().contains(u) && m0.seats@[u].level >= 2 && 0 <= j < 512
                ==> #[trigger] paging::entry(m1.words@, u, j) == paging::entry(m0.words@, u, j),
    ensures
        paging::missing(m1.words@, root, w) == paging::missing(m0.words@, root, w),
{
    let w0 = m0.words@;
    paging::lemma_page_split(w);
    paging::lemma_path(w0, m0.seats@, root, w);
    let a = paging::entry(w0, root, paging::idx4(w));
    assert(paging::entry(m1.words@, root, paging::idx4(w)) == a);
    if paging::present(a) {
        let b = paging::entry(w0, paging::addr(a), paging::idx3(w));
        assert(paging::entry(m1.words@, paging::addr(a), paging::idx3(w)) == b);
        if paging::present(b) {
            assert(paging::entry(m1.words@, paging::addr(b), paging::idx2(w)) == paging::entry(
                w0,
                paging::addr(b),
                paging::idx2(w),
            ));
        }
    }
}

/// Writing the last entry changes no need.
pub proof fn lemma_nearer_written(m0: &PhysMem, m1: &PhysMem, m2: &PhysMem, root: int, v: int)
    requires
        paging::seats_kept(m0, m1),
        paging::tables_wf(m1.words@, m1.seats@),
        nearer(m0, m1, root, v, 0),
        forall|u: int, j: int|
            m1.seats@.dom().contains(u) && m1.seats@[u].level >= 2 && 0 <= j < 512
                ==> #[trigger] paging::entry(m2.words@, u, j) == paging::entry(m1.words@, u, j),
    ensures
        nearer(m0, m2, root, v, 0),
{
    reveal(nearer);
    assert forall|w: int| paging::editable(m0.seats@, root, w) && 0 <= w < PAGES implies #[trigger] paging::missing(
        m2.words@,
        root,
        w,
    ) == lesser(paging::missing(m0.words@, root, w), greater(apart(v, w), 0)) by {
        assert(m1.seats@.dom().contains(root));
        lemma_needs_same(m1, m2, root, w);
    }
}

/// Filling a frame that is no table first changes no need.
pub proof fn lemma_nearer_filled(m0: &PhysMem, m1: &PhysMem, m2: &PhysMem, root: int, v: int)
    requires
        paging::tables_wf(m0.words@, m0.seats@),
        m1.seats@ == m0.seats@,
        nearer(m1, m2, root, v, 0),
        forall|u: int, j: int|
            m0.seats@.dom().contains(u) && m0.seats@[u].level >= 2 && 0 <= j < 512
                ==> #[trigger] paging::entry(m1.words@, u, j) == paging::entry(m0.words@, u, j),
    ensures
        nearer(m0, m2, root, v, 0),
{
    reveal(nearer);
    assert forall|w: int| paging::editable(m0.seats@, root, w) && 0 <= w < PAGES implies #[trigger] paging::missing(
        m2.words@,
        root,
        w,
    ) == lesser(paging::missing(m0.words@, root, w), greater(apart(v, w), 0)) by {
        assert(paging::editable(m1.seats@, root, w));
        lemma_needs_same(m0, m1, root, w);
    }
}

/// Adding the first table that page `v` lacks: table `t`, at `i`, is where it
/// hangs.
#[verifier::spinoff_prover]
pub proof fn lemma_nearer_grew(
    m0: &PhysMem,
    f0: &FrameAllocator,
    m1: &PhysMem,
    f1: &FrameAllocator,
    root: int,
    v: int,
    t: int,
    i: int,
    f: int,
)
    requires
        m0.wf(f0),
        paging::grew(m0, f0, m1, f1, t, i, f),
        paging::editable(m0.seats@, root, v),
        0 <= v < PAGES,
        ({
            let l = paging::missing(m0.words@, root, v);
            let a = paging::entry(m0.words@, root, paging::idx4(v));
            let b = paging::entry(m0.words@, paging::addr(a), paging::idx3(v));
            &&& l == 3 ==> t == root && i == paging::idx4(v)
            &&& l == 2 ==> t == paging::addr(a) && i == paging::idx3(v)
            &&& l == 1 ==> t == paging::addr(b) && i == paging::idx2(v)
            &&& l > 0
            &&& l > 1 ==> forall|j: int|
                0 <= j < 512 ==> #[trigger] paging::entry(m1.words@, f, j) == 0
        }),
    ensures
        nearer(m0, m1, root, v, paging::missing(m0.words@, root, v) - 1),
{
    reveal(nearer);
    let l = paging::missing(m0.words@, root, v);
    paging::lemma_page_split(v);
    paging::lemma_path(m0.words@, m0.seats@, root, v);
    paging::lemma_mask(0);
    assert forall|w: int| paging::editable(m0.seats@, root, w) && 0 <= w < PAGES implies #[trigger] paging::missing(
        m1.words@,
        root,
        w,
    ) == lesser(paging::missing(m0.words@, root, w), greater(apart(v, w), l - 1)) by {
        lemma_nearer_one(m0, f0, m1, f1, root, v, t, i, f, w);
    }
}

#[verifier::spinoff_prover]
#[verifier::rlimit(40)]
proof fn lemma_nearer_one(
    m0: &PhysMem,
    f0: &FrameAllocator,
    m1: &PhysMem,
    f1: &FrameAllocator,
    root: int,
    v: int,
    t: int,
    i: int,
    f: int,
    w: int,
)
    requires
        m0.wf(f0),
        paging::grew(m0, f0, m1, f1, t, i, f),
        paging::editable(m0.seats@, root, v),
        paging::editable(m0.seats@, root, w),
        0 <= v < PAGES,
        0 <= w < PAGES,
        ({
            let l = paging::missing(m0.words@, root, v);
            let a = paging::entry(m0.words@, root, paging::idx4(v));
            let b = paging::entry(m0.words@, paging::addr(a), paging::idx3(v));
            &&& l == 3 ==> t == root && i == paging::idx4(v)
            &&& l == 2 ==> t == paging::addr(a) && i == paging::idx3(v)
            &&& l == 1 ==> t == paging::addr(b) && i == paging::idx2(v)
            &&& l > 0
            &&& l > 1 ==> forall|j: int|
                0 <= j < 512 ==> #[trigger] paging::entry(m1.words@, f, j) == 0
        }),
    ensures
        paging::missing(m1.words@, root, w) == lesser(
            paging::missing(m0.words@, root, w),
            greater(apart(v, w), paging::missing(m0.words@, root, v) - 1),
        ),
{
    let w0 = m0.words@;
    let w1 = m1.words@;
    let l = paging::missing(w0, root, v);
    paging::lemma_page_split(v);
    paging::lemma_page_split(w);
    paging::lemma_path(w0, m0.seats@, root, v);
    paging::lemma_path(w0, m0.seats@, root, w);
    paging::lemma_mask(0);
    assert(v / 512 / 512 == v / 0x4_0000 && w / 512 / 512 == w / 0x4_0000);
    assert(v / 0x4_0000 / 512 == v / 0x800_0000 && w / 0x4_0000 / 512 == w / 0x800_0000);
    let a = paging::entry(w0, root, paging::idx4(w));
    let a1 = paging::entry(w1, root, paging::idx4(w));
    if l == 3 && apart(v, w) < 3 {
        assert(paging::addr(a1) == f);
        assert(paging::entry(w1, f, paging::idx3(w)) == 0);
    } else {
        assert(a1 == a);
        if paging::present(a) {
            let p = paging::addr(a);
            let b = paging::entry(w0, p, paging::idx3(w));
            let b1 = paging::entry(w1, p, paging::idx3(w));
            if l == 2 && apart(v, w) < 2 {
                assert(paging::addr(b1) == f);
                assert(paging::entry(w1, f, paging::idx2(w)) == 0);
            } else {
                assert(b1 == b);
                if paging::present(b) {
                    let q = paging::addr(b);
                    if l == 1 && apart(v, w) == 0 {
                        assert(paging::addr(paging::entry(w1, q, paging::idx2(w))) == f);
                    } else {
                        assert(paging::entry(w1, q, paging::idx2(w)) == paging::entry(
                            w0,
                            q,
                            paging::idx2(w),
                        ));
                    }
                }
            }
        }
    }
}

/// How many tables page `v` does not share with any of the first `n` of
/// `pages`.
pub open spec fn apart_all(pages: Seq<int>, n: int, v: int) -> int
    decreases n,
{
    if n <= 0 {
        3
    } else {
        lesser(apart_all(pages, n - 1, v), apart(pages[n - 1], v))
    }
}

/// How many tables are added where the first `n` of `pages` are mapped under
/// `root`, in order: each page adds those that were not there and that no page
/// before it shares.
pub open spec fn tables_for(words: Seq<u64>, root: int, pages: Seq<int>, n: int) -> int
    decreases n,
{
    if n <= 0 {
        0
    } else {
        tables_for(words, root, pages, n - 1) + lesser(
            paging::missing(words, root, pages[n - 1]),
            apart_all(pages, n - 1, pages[n - 1]),
        )
    }
}

/// How many tables are added where the first `n` of `pages` are mapped under a
/// root that has none of their tables.
pub open spec fn tables_alone(pages: Seq<int>, n: int) -> int
    decreases n,
{
    if n <= 0 {
        0
    } else {
        tables_alone(pages, n - 1) + apart_all(pages, n - 1, pages[n - 1])
    }
}

pub proof fn lemma_tables_alone(words: Seq<u64>, root: int, pages: Seq<int>, n: int)
    requires
        forall|i: int|
            0 <= i < n ==> paging::missing(words, root, #[trigger] pages[i]) == 3,
    ensures
        tables_for(words, root, pages, n) == tables_alone(pages, n),
    decreases n,
{
    if n > 0 {
        lemma_tables_alone(words, root, pages, n - 1);
        lemma_apart_bounds(pages, n - 1, pages[n - 1]);
    }
}

/// Every page adds at most three tables, and takes none away.
pub proof fn lemma_tables_grow(words: Seq<u64>, root: int, pages: Seq<int>, i: int, n: int)
    requires
        0 <= i <= n,
    ensures
        tables_for(words, root, pages, i) <= tables_for(words, root, pages, n)
            <= tables_for(words, root, pages, i) + 3 * (n - i),
    decreases n,
{
    if i < n {
        lemma_tables_grow(words, root, pages, i, n - 1);
        lemma_apart_bounds(pages, n - 1, pages[n - 1]);
    }
}

proof fn lemma_apart_bounds(pages: Seq<int>, n: int, v: int)
    ensures
        0 <= apart_all(pages, n, v) <= 3,
    decreases n,
{
    if n > 0 {
        lemma_apart_bounds(pages, n - 1, v);
    }
}

/// The pages of a run.
pub open spec fn run_of(first: int, n: int) -> Seq<int> {
    Seq::new(n as nat, |i: int| first + i)
}

/// A run that hangs in one last-level table adds the tables that its first page
/// lacks, and no others.
pub proof fn law_run_in_one_table(words: Seq<u64>, root: int, first: int, n: int)
    requires
        0 <= first,
        0 < n,
        first / 512 == (first + n - 1) / 512,
    ensures
        tables_for(words, root, run_of(first, n), n) == paging::missing(words, root, first),
{
    lemma_run_in_one_table(words, root, first, n, n);
}

proof fn lemma_run_in_one_table(words: Seq<u64>, root: int, first: int, n: int, i: int)
    requires
        0 <= first,
        0 < i <= n,
        first / 512 == (first + n - 1) / 512,
    ensures
        tables_for(words, root, run_of(first, n), i) == paging::missing(words, root, first),
    decreases i,
{
    let pages = run_of(first, n);
    if i == 1 {
        assert(apart_all(pages, 0, pages[0]) == 3);
        assert(tables_for(words, root, pages, 0) == 0);
    } else {
        lemma_run_in_one_table(words, root, first, n, i - 1);
        lemma_apart_bounds(pages, i - 2, pages[i - 1]);
        assert(apart(pages[i - 2], pages[i - 1]) == 0);
        assert(apart_all(pages, i - 1, pages[i - 1]) == 0);
    }
}

/// What the first `n` pages add does not depend on those after them.
pub proof fn lemma_tables_prefix(words: Seq<u64>, root: int, a: Seq<int>, b: Seq<int>, n: int)
    requires
        0 <= n <= a.len(),
        n <= b.len(),
        forall|i: int| 0 <= i < n ==> #[trigger] a[i] == b[i],
    ensures
        tables_for(words, root, a, n) == tables_for(words, root, b, n),
    decreases n,
{
    if n > 0 {
        lemma_tables_prefix(words, root, a, b, n - 1);
        lemma_apart_prefix(a, b, n - 1, a[n - 1]);
    }
}

proof fn lemma_apart_prefix(a: Seq<int>, b: Seq<int>, n: int, v: int)
    requires
        0 <= n <= a.len(),
        n <= b.len(),
        forall|i: int| 0 <= i < n ==> #[trigger] a[i] == b[i],
    ensures
        apart_all(a, n, v) == apart_all(b, n, v),
    decreases n,
{
    if n > 0 {
        lemma_apart_prefix(a, b, n - 1, v);
    }
}

/// The first `n` of `pages` were mapped under `root`: what every page lacks is
/// what it lacked before, but for what it shares with them.
#[verifier::opaque]
pub open spec fn brought(
    pre: &PhysMem,
    post: &PhysMem,
    root: int,
    pages: Seq<int>,
    n: int,
) -> bool {
    forall|w: int|
        paging::editable(pre.seats@, root, w) && 0 <= w < PAGES ==> #[trigger] paging::missing(
            post.words@,
            root,
            w,
        ) == lesser(paging::missing(pre.words@, root, w), apart_all(pages, n, w))
}

pub proof fn lemma_brought_none(m: &PhysMem, root: int, pages: Seq<int>)
    ensures
        brought(m, m, root, pages, 0),
        tables_for(m.words@, root, pages, 0) == 0,
{
    reveal(brought);
}

/// Pages that are not mapped yet bring nothing.
pub proof fn lemma_brought_prefix(
    m0: &PhysMem,
    m1: &PhysMem,
    root: int,
    a: Seq<int>,
    b: Seq<int>,
    n: int,
)
    requires
        brought(m0, m1, root, a, n),
        0 <= n <= a.len(),
        n <= b.len(),
        forall|i: int| 0 <= i < n ==> #[trigger] a[i] == b[i],
    ensures
        brought(m0, m1, root, b, n),
{
    reveal(brought);
    assert forall|w: int| paging::editable(m0.seats@, root, w) && 0 <= w < PAGES implies #[trigger] paging::missing(
        m1.words@,
        root,
        w,
    ) == lesser(paging::missing(m0.words@, root, w), apart_all(b, n, w)) by {
        lemma_apart_prefix(a, b, n, w);
    }
}

/// The need of the next page.
pub proof fn lemma_brought_next(m0: &PhysMem, m1: &PhysMem, root: int, pages: Seq<int>, n: int)
    requires
        brought(m0, m1, root, pages, n),
        0 <= n < pages.len(),
        paging::editable(m0.seats@, root, pages[n]),
        0 <= pages[n] < PAGES,
    ensures
        tables_for(m0.words@, root, pages, n + 1) == tables_for(m0.words@, root, pages, n)
            + paging::missing(m1.words@, root, pages[n]),
{
    reveal(brought);
}

/// One page more.
pub proof fn lemma_brought_one(
    m0: &PhysMem,
    m1: &PhysMem,
    m2: &PhysMem,
    root: int,
    pages: Seq<int>,
    n: int,
)
    requires
        paging::seats_kept(m0, m1),
        brought(m0, m1, root, pages, n),
        0 <= n < pages.len(),
        nearer(m1, m2, root, pages[n], 0),
    ensures
        brought(m0, m2, root, pages, n + 1),
{
    reveal(brought);
    reveal(nearer);
    assert forall|w: int| paging::editable(m0.seats@, root, w) && 0 <= w < PAGES implies #[trigger] paging::missing(
        m2.words@,
        root,
        w,
    ) == lesser(paging::missing(m0.words@, root, w), apart_all(pages, n + 1, w)) by {
        assert(m1.seats@.dom().contains(root));
        assert(paging::editable(m1.seats@, root, w));
    }
}

/// A mapping that is to be made: a page, and whether it is the 2 MiB around it.
pub struct Step {
    pub page: int,
    pub block: bool,
}

/// How many tables page `w` still lacks under a new root, once the first `n` of
/// `steps` were made.
pub open spec fn lack(steps: Seq<Step>, n: int, w: int) -> int
    decreases n,
{
    if n <= 0 {
        3
    } else {
        let before = lack(steps, n - 1, w);
        let s = steps[n - 1];
        if !s.block {
            lesser(before, apart(s.page, w))
        } else if s.page / 512 == w / 512 {
            1
        } else {
            lesser(before, greater(apart(s.page, w), 1))
        }
    }
}

/// How many tables the first `n` of `steps` add under a new root: a 2 MiB leaf
/// does without the last one.
pub open spec fn cost(steps: Seq<Step>, n: int) -> int
    decreases n,
{
    if n <= 0 {
        0
    } else {
        let s = steps[n - 1];
        let short = lack(steps, n - 1, s.page);
        cost(steps, n - 1) + (if s.block {
            greater(short - 1, 0)
        } else {
            short
        })
    }
}

/// Under the new root `root`, all of `steps` were made, and of `have` frames
/// the tables that they add were taken.
#[verifier::opaque]
pub open spec fn laid(
    mem: &PhysMem,
    fa: &FrameAllocator,
    root: int,
    have: int,
    steps: Seq<Step>,
) -> bool {
    &&& forall|w: int|
        0 <= w < PAGES ==> #[trigger] paging::missing(mem.words@, root, w) == lack(
            steps,
            steps.len() as int,
            w,
        )
    &&& fa.available() == have - cost(steps, steps.len() as int)
}

/// `have` frames last for the first `i` of `steps`, and not for the next one.
pub open spec fn stuck(have: int, steps: Seq<Step>, i: int) -> bool {
    0 <= i < steps.len() && cost(steps, i) <= have < cost(steps, i + 1)
}

/// `have` frames do not last for `steps`: they run out at a page, or at a 2 MiB
/// leaf.
#[verifier::opaque]
pub open spec fn too_few(have: int, steps: Seq<Step>, block: bool) -> bool {
    exists|i: int| #[trigger] stuck(have, steps, i) && steps[i].block == block
}

/// `steps` were made, or the frames ran out on the way, at a page or at a
/// 2 MiB leaf.
pub open spec fn went(
    done: bool,
    mem: &PhysMem,
    fa: &FrameAllocator,
    root: int,
    have: int,
    steps: Seq<Step>,
    block: bool,
) -> bool {
    if done {
        laid(mem, fa, root, have, steps)
    } else {
        fa.available() == 0 && too_few(have, steps, block)
    }
}

proof fn lemma_lack_bounds(steps: Seq<Step>, n: int, w: int)
    ensures
        0 <= lack(steps, n, w) <= 3,
    decreases n,
{
    if n > 0 {
        lemma_lack_bounds(steps, n - 1, w);
    }
}

proof fn lemma_lack_prefix(a: Seq<Step>, b: Seq<Step>, n: int, w: int)
    requires
        0 <= n <= a.len(),
        n <= b.len(),
        forall|i: int| 0 <= i < n ==> #[trigger] a[i] == b[i],
    ensures
        lack(a, n, w) == lack(b, n, w),
    decreases n,
{
    if n > 0 {
        lemma_lack_prefix(a, b, n - 1, w);
    }
}

proof fn lemma_cost_prefix(a: Seq<Step>, b: Seq<Step>, n: int)
    requires
        0 <= n <= a.len(),
        n <= b.len(),
        forall|i: int| 0 <= i < n ==> #[trigger] a[i] == b[i],
    ensures
        cost(a, n) == cost(b, n),
    decreases n,
{
    if n > 0 {
        lemma_cost_prefix(a, b, n - 1);
        lemma_lack_prefix(a, b, n - 1, a[n - 1].page);
    }
}

/// Steps add tables and take none away.
pub proof fn lemma_cost_grows(steps: Seq<Step>, i: int, n: int)
    requires
        0 <= i <= n,
    ensures
        0 <= cost(steps, i) <= cost(steps, n),
    decreases n,
{
    if n > 0 {
        lemma_lack_bounds(steps, n - 1, steps[n - 1].page);
        if i < n {
            lemma_cost_grows(steps, i, n - 1);
        } else {
            lemma_cost_grows(steps, i - 1, n - 1);
        }
    }
}

/// Under a new root nothing was made.
pub proof fn lemma_laid_none(mem: &PhysMem, fa: &FrameAllocator, root: int)
    requires
        forall|w: int| 0 <= w < PAGES ==> #[trigger] paging::missing(mem.words@, root, w) == 3,
    ensures
        laid(mem, fa, root, fa.available(), Seq::empty()),
{
    reveal(laid);
}

/// What steps that were made have cost.
pub proof fn lemma_laid_seen(
    mem: &PhysMem,
    fa: &FrameAllocator,
    root: int,
    have: int,
    steps: Seq<Step>,
)
    requires
        laid(mem, fa, root, have, steps),
    ensures
        fa.available() == have - cost(steps, steps.len() as int),
{
    reveal(laid);
}

/// Frames that do not last for some steps do not last for more.
pub proof fn lemma_too_few_more(have: int, steps: Seq<Step>, more: Seq<Step>, block: bool)
    requires
        too_few(have, steps, block),
        steps.len() <= more.len(),
        forall|i: int| 0 <= i < steps.len() ==> #[trigger] steps[i] == more[i],
    ensures
        too_few(have, more, block),
{
    reveal(too_few);
    let i = choose|i: int| #[trigger] stuck(have, steps, i) && steps[i].block == block;
    lemma_cost_prefix(steps, more, i);
    lemma_cost_prefix(steps, more, i + 1);
    assert(stuck(have, more, i));
}

/// Frames that run out fall short of the cost.
pub proof fn lemma_too_few_cost(have: int, steps: Seq<Step>, block: bool)
    requires
        too_few(have, steps, block),
    ensures
        have < cost(steps, steps.len() as int),
{
    reveal(too_few);
    let i = choose|i: int| #[trigger] stuck(have, steps, i) && steps[i].block == block;
    lemma_cost_grows(steps, i + 1, steps.len() as int);
}

/// One page more, or the lack of frames for its tables.
pub proof fn lemma_laid_page(
    m0: &PhysMem,
    f0: &FrameAllocator,
    m1: &PhysMem,
    f1: &FrameAllocator,
    root: int,
    have: int,
    steps: Seq<Step>,
    v: int,
    done: bool,
)
    requires
        laid(m0, f0, root, have, steps),
        0 <= v < PAGES,
        forall|w: int| 0 <= w < PAGES ==> #[trigger] paging::editable(m0.seats@, root, w),
        f0.available() >= 0,
        done == (paging::missing(m0.words@, root, v) <= f0.available()),
        done ==> nearer(m0, m1, root, v, 0) && f1.available() == f0.available()
            - paging::missing(m0.words@, root, v),
        !done ==> f1.available() == 0,
    ensures
        went(done, m1, f1, root, have, steps.push(Step { page: v, block: false }), false),
{
    reveal(laid);
    reveal(nearer);
    reveal(too_few);
    let n = steps.len() as int;
    let more = steps.push(Step { page: v, block: false });
    lemma_cost_prefix(steps, more, n);
    lemma_lack_prefix(steps, more, n, v);
    if done {
        assert forall|w: int| 0 <= w < PAGES implies #[trigger] paging::missing(
            m1.words@,
            root,
            w,
        ) == lack(more, n + 1, w) by {
            assert(paging::editable(m0.seats@, root, w));
            lemma_lack_prefix(steps, more, n, w);
        }
    } else {
        assert(stuck(have, more, n));
    }
}

/// One 2 MiB leaf more, or the lack of frames for its tables.
pub proof fn lemma_laid_block(
    m0: &PhysMem,
    f0: &FrameAllocator,
    m1: &PhysMem,
    f1: &FrameAllocator,
    root: int,
    have: int,
    steps: Seq<Step>,
    v: int,
    done: bool,
)
    requires
        laid(m0, f0, root, have, steps),
        0 <= v < PAGES,
        forall|w: int| 0 <= w < PAGES ==> #[trigger] paging::editable(m0.seats@, root, w),
        f0.available() >= 0,
        done == (paging::missing_2m(m0.words@, root, v) <= f0.available()),
        done ==> blocked(m0, m1, root, v) && f1.available() == f0.available()
            - paging::missing_2m(m0.words@, root, v),
        !done ==> f1.available() == 0,
    ensures
        went(done, m1, f1, root, have, steps.push(Step { page: v, block: true }), true),
{
    reveal(laid);
    reveal(blocked);
    reveal(too_few);
    let n = steps.len() as int;
    let more = steps.push(Step { page: v, block: true });
    lemma_cost_prefix(steps, more, n);
    lemma_lack_prefix(steps, more, n, v);
    assert(paging::missing_2m(m0.words@, root, v) == greater(
        paging::missing(m0.words@, root, v) - 1,
        0,
    ));
    if done {
        assert forall|w: int| 0 <= w < PAGES implies #[trigger] paging::missing(
            m1.words@,
            root,
            w,
        ) == lack(more, n + 1, w) by {
            assert(paging::editable(m0.seats@, root, w));
            lemma_lack_prefix(steps, more, n, w);
        }
    } else {
        assert(stuck(have, more, n));
    }
}

} // verus!

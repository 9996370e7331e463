//! Where the frames of a process come from and go.
//!
//! The pool is charged for a process's root when it is created and for each
//! table and page that is mapped into it; destroying the process gives back
//! exactly that.

use vstd::prelude::*;
use crate::frames;
use crate::frames::FrameAllocator;
use crate::kernel::Kernel;
use crate::paging;
use crate::paging::{PAGES, PhysMem, USER_PAGES};
use crate::proc;
use crate::rest;
use crate::views;

verus! {

/// The table at `t` belongs to `root`.
pub open spec fn owns_table(m: &PhysMem, root: int, t: int) -> bool {
    m.seats@.dom().contains(t) && m.seats@[t].owner == root
}

/// Frame `j` backs a user page of `root`.
pub open spec fn backs(m: &PhysMem, fa: &FrameAllocator, root: int, j: int) -> bool {
    exists|v: int| 0 <= v < USER_PAGES && #[trigger] paging::held_frame(m, fa, root, v) == Some(j)
}

/// A root that borrows its upper half.
pub open spec fn borrower(m: &PhysMem, root: int) -> bool {
    paging::is_root(m.seats@, root) && m.seats@[root].upper != root
}

/// A table of `root` is met on the way to the first page it covers.
proof fn lemma_owned_walk(m: &PhysMem, root: int, t: int)
    requires
        paging::tables_wf(m.words@, m.seats@),
        borrower(m, root),
        owns_table(m, root, t),
        m.seats@[t].level < 4,
    ensures
        ({
            let s = m.seats@[t];
            let v = paging::span_start(s.level + 1, s.prefix);
            &&& 1 <= s.level
            &&& 0 <= v < USER_PAGES
            &&& paging::on_walk(m.words@, root, v, s.level, t)
        }),
    decreases 4 - m.seats@[t].level,
{
    reveal(paging::hangs);
    let w = m.words@;
    let seats = m.seats@;
    let s = seats[t];
    assert(paging::is_table(w, seats, t));
    assert(paging::hangs(w, seats, t));
    let p = s.parent;
    let i = s.prefix % 512;
    assert(paging::is_table(w, seats, p));
    if seats[p].level == 4 {
        let up = seats[p].upper;
        assert(paging::is_table(w, seats, up));
        assert(p == root);
        assert(i < 256);
        assert(s.prefix == i);
        let v = paging::span_start(4, i);
        assert(paging::idx4(v) == i);
    } else {
        lemma_owned_walk(m, root, p);
        let vp = paging::span_start(seats[p].level + 1, seats[p].prefix);
        let v = paging::span_start(s.level + 1, s.prefix);
        assert(s.prefix == seats[p].prefix * 512 + i);
        paging::lemma_page_split(vp);
        if s.level == 2 {
            assert(paging::idx4(v) == paging::idx4(vp));
            assert(paging::idx3(v) == i);
        } else {
            assert(paging::idx4(v) == paging::idx4(vp));
            assert(paging::idx3(v) == paging::idx3(vp));
            assert(paging::idx2(v) == i);
        }
    }
}

/// What a page of `root` claims is one of its tables or the page's frame.
proof fn lemma_claim(m: &PhysMem, fa: &FrameAllocator, root: int, v: int, j: int)
    requires
        paging::tables_wf(m.words@, m.seats@),
        borrower(m, root),
        0 <= v < USER_PAGES,
        paging::claims(m, fa, root, v, j),
        paging::held_frame(m, fa, root, v) != Some(j),
    ensures
        owns_table(m, root, j * 4096),
{
    let w = m.words@;
    let seats = m.seats@;
    paging::lemma_page_split(v);
    assert(paging::idx4(v) < 256);
    assert(paging::is_table(w, seats, root));
    paging::lemma_path(w, seats, root, v);
    paging::lemma_mask(0);
}

/// What goes back with a root is its tables and the frames of its pages.
pub proof fn lemma_goes_back(k: &Kernel, root: int, j: int)
    requires
        paging::tables_wf(k.pg.mem.words@, k.pg.mem.seats@),
        borrower(&k.pg.mem, root),
    ensures
        proc::goes_back(k, root, j) <==> owns_table(&k.pg.mem, root, j * 4096) || backs(
            &k.pg.mem,
            &k.fa,
            root,
            j,
        ),
{
    let m = &k.pg.mem;
    let seats = m.seats@;
    assert(paging::is_table(m.words@, seats, root));
    if proc::goes_back(k, root, j) && j * 4096 != root {
        let v = choose|v: int|
            0 <= v < USER_PAGES && #[trigger] paging::claims(m, &k.fa, root, v, j);
        if paging::held_frame(m, &k.fa, root, v) == Some(j) {
            assert(backs(m, &k.fa, root, j));
        } else {
            lemma_claim(m, &k.fa, root, v, j);
        }
    }
    if owns_table(m, root, j * 4096) {
        lemma_owner_claims(k, root, j);
    }
    if backs(m, &k.fa, root, j) {
        let v = choose|v: int|
            0 <= v < USER_PAGES && #[trigger] paging::held_frame(m, &k.fa, root, v) == Some(j);
        assert(paging::claims(m, &k.fa, root, v, j));
    }
}

proof fn lemma_owner_claims(k: &Kernel, root: int, j: int)
    requires
        paging::tables_wf(k.pg.mem.words@, k.pg.mem.seats@),
        borrower(&k.pg.mem, root),
        owns_table(&k.pg.mem, root, j * 4096),
    ensures
        proc::goes_back(k, root, j),
{
    let m = &k.pg.mem;
    let t = j * 4096;
    let s = m.seats@[t];
    assert(paging::is_table(m.words@, m.seats@, t));
    if s.level < 4 {
        lemma_owned_walk(m, root, t);
        let v = paging::span_start(s.level + 1, s.prefix);
        assert(paging::claims(m, &k.fa, root, v, j));
    }
}

/// The root of process `pid`.
pub open spec fn root_of(k: &Kernel, pid: u64) -> int {
    k.procs.slots@[proc::find(k.procs.slots@, pid)->0]->0.pml4_phys as int
}

/// The frames in use are those of `base` and, besides, those that go back with
/// `root`.
pub open spec fn in_account(base: &FrameAllocator, k: &Kernel, root: int) -> bool {
    forall|j: int|
        0 <= j < frames::FRAME_COUNT ==> {
            &&& #[trigger] frames::used(k.fa.map@, j) == (frames::used(base.map@, j)
                || proc::goes_back(k, root, j))
            &&& !(frames::used(base.map@, j) && proc::goes_back(k, root, j))
        }
}

/// A new process is found under its number, with the entry that was free.
pub proof fn lemma_created(pre: &Kernel, post: &Kernel, name: &'static str)
    requires
        pre.wf(),
        post.wf(),
        proc::created(pre, post, name),
    ensures
        ({
            let pid = pre.procs.next_pid;
            let root = root_of(post, pid);
            &&& proc::find(post.procs.slots@, pid) matches Some(i) && proc::first_free(
                pre.procs.slots@,
                i,
            ) && post.procs.slots@ == pre.procs.slots@.update(i, post.procs.slots@[i])
            &&& frames::took(&pre.fa, &post.fa, root)
            &&& !pre.pg.mem.seats@.dom().contains(root)
            &&& post.pg.mem.seats@ == pre.pg.mem.seats@.insert(root, post.pg.mem.seats@[root])
            &&& borrower(&post.pg.mem, root)
            &&& forall|s: int|
                0 <= s < crate::cap::CAP_SLOTS ==> #[trigger] crate::cap::slots_of(
                    &post.procs,
                    pid,
                )->0[s] == crate::cap::Cap::empty()
            &&& forall|v: int|
                0 <= v < USER_PAGES ==> #[trigger] paging::leaf(post.pg.mem.words@, root, v) is None
            &&& forall|q: u64|
                q != pid ==> #[trigger] proc::find(post.procs.slots@, q) == proc::find(
                    pre.procs.slots@,
                    q,
                )
        }),
{
    let s0 = pre.procs.slots@;
    let s1 = post.procs.slots@;
    let pid = pre.procs.next_pid;
    let i = choose|i: int| #[trigger]
        proc::first_free(s0, i) && s1 == s0.update(i, s1[i]) && (s1[i] matches Some(p) && p.id
            == pid);
    proc::lemma_find(s1, pid, i);
    assert forall|q: u64| q != pid implies #[trigger] proc::find(s1, q) == proc::find(s0, q) by {
        proc::lemma_find_bounds(s0, q);
        proc::lemma_find_bounds(s1, q);
        if let Some(a) = proc::find(s0, q) {
            assert(s1[a] == s0[a]);
            proc::lemma_find(s1, q, a);
        } else if let Some(a) = proc::find(s1, q) {
            assert(s0[a] == s1[a]);
        }
    }
}

/// Creating a process opens its account: the pool is charged for its root
/// alone.
pub proof fn law_create_opens_account(pre: Kernel, post: Kernel, name: &'static str)
    requires
        pre.wf(),
        post.wf(),
        proc::created(&pre, &post, name),
    ensures
        in_account(&pre.fa, &post, root_of(&post, pre.procs.next_pid)),
        forall|j: int|
            0 <= j < frames::FRAME_COUNT ==> (#[trigger] proc::goes_back(
                &post,
                root_of(&post, pre.procs.next_pid),
                j,
            ) <==> j * 4096 == root_of(&post, pre.procs.next_pid)),
{
    let root = root_of(&post, pre.procs.next_pid);
    lemma_created(&pre, &post, name);
    assert forall|j: int| 0 <= j < frames::FRAME_COUNT implies (#[trigger] proc::goes_back(
        &post,
        root,
        j,
    ) <==> j * 4096 == root) by {
        lemma_fresh(&pre.pg.mem, &post, root, j);
    }
    assert forall|j: int| 0 <= j < frames::FRAME_COUNT implies {
        &&& #[trigger] frames::used(post.fa.map@, j) == (frames::used(pre.fa.map@, j)
            || proc::goes_back(&post, root, j))
        &&& !(frames::used(pre.fa.map@, j) && proc::goes_back(&post, root, j))
    } by {
        assert(proc::goes_back(&post, root, j) <==> j * 4096 == root);
        if j != root / 4096 {
            assert(frames::used(post.fa.map@, j) == frames::used(pre.fa.map@, j));
        }
    }
}

/// A root that was seated where none was and has no user page holds its own
/// frame and no other.
proof fn lemma_fresh(m0: &PhysMem, k: &Kernel, root: int, j: int)
    requires
        paging::tables_wf(m0.words@, m0.seats@),
        !m0.seats@.dom().contains(root),
        paging::tables_wf(k.pg.mem.words@, k.pg.mem.seats@),
        k.pg.mem.seats@ == m0.seats@.insert(root, k.pg.mem.seats@[root]),
        borrower(&k.pg.mem, root),
        forall|v: int|
            0 <= v < USER_PAGES ==> #[trigger] paging::leaf(k.pg.mem.words@, root, v) is None,
    ensures
        proc::goes_back(k, root, j) <==> j * 4096 == root,
{
    lemma_goes_back(k, root, j);
    let t = j * 4096;
    assert(paging::is_table(k.pg.mem.words@, k.pg.mem.seats@, root));
    if owns_table(&k.pg.mem, root, t) && t != root {
        assert(m0.seats@.dom().contains(t));
        assert(paging::is_table(m0.words@, m0.seats@, t));
        assert(paging::hangs(m0.words@, m0.seats@, t)) by {
            assert(m0.seats@.dom().contains(t));
        }
        reveal(paging::hangs);
    }
}

/// A frame was taken from the pool and written to (`k0` to `k1`), and a page of
/// `root` that stood on no frame was mapped onto it (`k1` to `k2`).
pub open spec fn page_added(
    k0: &Kernel,
    k1: &Kernel,
    k2: &Kernel,
    root: u64,
    va: u64,
    phys: u64,
    writable: bool,
    exec: bool,
) -> bool {
    &&& k0.wf()
    &&& borrower(&k0.pg.mem, root as int)
    &&& paging::user_refusal(va, phys, writable, exec) is None
    &&& k1.pg.mem.seats@ == k0.pg.mem.seats@
    &&& paging::same_leaves(&k0.pg.mem, &k1.pg.mem)
    &&& k1.fa.same_pool(&k0.fa)
    &&& k1.pg.mem.wf(&k1.fa)
    &&& frames::took(&k0.fa, &k1.fa, phys as int)
    &&& k0.fa.managed(phys as int)
    &&& paging::held_frame(&k0.pg.mem, &k0.fa, root as int, va as int / 4096) is None
    &&& paging::grown_for(&k1.pg.mem, &k1.fa, &k2.pg.mem, &k2.fa, root as int)
    &&& paging::mapped(
        &k1.pg.mem,
        &k1.fa,
        &k2.pg.mem,
        &k2.fa,
        root as int,
        va as int / 4096,
        paging::user_entry(phys, writable, exec),
    )
}

/// Mapping a page onto a frame fresh from the pool charges the account for the
/// frame and for the tables that had to be added.
#[verifier::spinoff_prover]
pub proof fn law_map_keeps_account(
    base: FrameAllocator,
    k0: Kernel,
    k1: Kernel,
    k2: Kernel,
    root: u64,
    va: u64,
    phys: u64,
    writable: bool,
    exec: bool,
)
    requires
        in_account(&base, &k0, root as int),
        page_added(&k0, &k1, &k2, root, va, phys, writable, exec),
    ensures
        in_account(&base, &k2, root as int),
        k2.fa.available() == k0.fa.available() - 1 - paging::missing(
            k1.pg.mem.words@,
            root as int,
            va as int / 4096,
        ),
{
    lemma_charged_page(&k0, &k1, &k2, root, va, phys, writable, exec);
    law_charges_keep_account(base, k0, k2, root as int);
}

/// Nothing was given back, and all that was taken since `k0` is held by `root`.
#[verifier::opaque]
pub open spec fn charged(k0: &Kernel, k2: &Kernel, root: int) -> bool {
    forall|j: int|
        0 <= j < frames::FRAME_COUNT ==> {
            &&& #[trigger] frames::used(k0.fa.map@, j) ==> frames::used(k2.fa.map@, j)
            &&& proc::goes_back(k2, root, j) == (proc::goes_back(k0, root, j) || frames::used(
                k2.fa.map@,
                j,
            ) && !frames::used(k0.fa.map@, j))
        }
}

pub proof fn lemma_charged_same(k: &Kernel, root: int)
    ensures
        charged(k, k, root),
{
    reveal(charged);
}

pub proof fn lemma_charged_charged(k0: &Kernel, k1: &Kernel, k2: &Kernel, root: int)
    requires
        charged(k0, k1, root),
        charged(k1, k2, root),
    ensures
        charged(k0, k2, root),
{
    reveal(charged);
    assert forall|j: int| 0 <= j < frames::FRAME_COUNT implies {
        &&& #[trigger] frames::used(k0.fa.map@, j) ==> frames::used(k2.fa.map@, j)
        &&& proc::goes_back(k2, root, j) == (proc::goes_back(k0, root, j) || frames::used(
            k2.fa.map@,
            j,
        ) && !frames::used(k0.fa.map@, j))
    } by {
        let u0 = frames::used(k0.fa.map@, j);
        let u1 = frames::used(k1.fa.map@, j);
        let u2 = frames::used(k2.fa.map@, j);
        assert(u0 ==> u1);
        assert(u1 ==> u2);
        assert(proc::goes_back(k1, root, j) == (proc::goes_back(k0, root, j) || u1 && !u0));
        assert(proc::goes_back(k2, root, j) == (proc::goes_back(k1, root, j) || u2 && !u1));
    }
}

pub proof fn lemma_charged_page(
    k0: &Kernel,
    k1: &Kernel,
    k2: &Kernel,
    root: u64,
    va: u64,
    phys: u64,
    writable: bool,
    exec: bool,
)
    requires
        page_added(k0, k1, k2, root, va, phys, writable, exec),
    ensures
        charged(k0, k2, root as int),
{
    reveal(charged);
    assert forall|j: int| 0 <= j < frames::FRAME_COUNT implies {
        &&& #[trigger] frames::used(k0.fa.map@, j) ==> frames::used(k2.fa.map@, j)
        &&& proc::goes_back(k2, root as int, j) == (proc::goes_back(k0, root as int, j)
            || frames::used(k2.fa.map@, j) && !frames::used(k0.fa.map@, j))
    } by {
        lemma_map_fate(k0, k1, k2, root, va, phys, writable, exec, j);
    }
}

/// An account stays in order while all that is taken is held by its root.
pub proof fn law_charges_keep_account(base: FrameAllocator, k0: Kernel, k2: Kernel, root: int)
    requires
        in_account(&base, &k0, root),
        charged(&k0, &k2, root),
    ensures
        in_account(&base, &k2, root),
{
    reveal(charged);
    assert forall|j: int| 0 <= j < frames::FRAME_COUNT implies {
        &&& #[trigger] frames::used(k2.fa.map@, j) == (frames::used(base.map@, j)
            || proc::goes_back(&k2, root, j))
        &&& !(frames::used(base.map@, j) && proc::goes_back(&k2, root, j))
    } by {
        assert(frames::used(k0.fa.map@, j) == (frames::used(base.map@, j) || proc::goes_back(
            &k0,
            root,
            j,
        )));
    }
}

/// What mapping a page does to the holdings of its root.
pub proof fn lemma_map_fate(
    k0: &Kernel,
    k1: &Kernel,
    k2: &Kernel,
    root: u64,
    va: u64,
    phys: u64,
    writable: bool,
    exec: bool,
    j: int,
)
    requires
        page_added(k0, k1, k2, root, va, phys, writable, exec),
        0 <= j < frames::FRAME_COUNT,
    ensures
        proc::goes_back(k2, root as int, j) == (proc::goes_back(k0, root as int, j)
            || frames::used(k2.fa.map@, j) && !frames::used(k0.fa.map@, j)),
        frames::used(k0.fa.map@, j) ==> frames::used(k2.fa.map@, j),
{
    let rt = root as int;
    let v = va as int / 4096;
    let f = phys as int / 4096;
    let m0 = &k0.pg.mem;
    let m2 = &k2.pg.mem;
    assert(m2.seats@.dom().contains(rt));
    assert(paging::is_table(m0.words@, m0.seats@, rt));
    lemma_goes_back(k0, rt, j);
    lemma_goes_back(k2, rt, j);
    paging::lemma_user_entry(phys);
    paging::lemma_user_present(phys, writable, exec);
    assert forall|r: int, w: int| #![trigger paging::leaf(m2.words@, r, w)]
        paging::is_root(m0.seats@, r) && 0 <= w < PAGES && !(w == v && paging::owner_of(
            m0.seats@[r],
            w,
        ) == rt) implies paging::leaf(m2.words@, r, w) == paging::leaf(m0.words@, r, w) by {
        assert(paging::leaf(k1.pg.mem.words@, r, w) == paging::leaf(m0.words@, r, w));
    }
    lemma_backs_more(k0, k2, rt, v, phys, writable, exec, j);
    lemma_tables_more(k1, k2, rt, j);
    assert(j != f ==> frames::used(k1.fa.map@, j) == frames::used(k0.fa.map@, j));
    assert(j == f ==> frames::used(k1.fa.map@, j) && !frames::used(k0.fa.map@, j));
}

pub proof fn lemma_tables_more(k1: &Kernel, k2: &Kernel, root: int, j: int)
    requires
        0 <= j < frames::FRAME_COUNT,
        k1.pg.mem.wf(&k1.fa),
        k2.pg.mem.wf(&k2.fa),
        paging::tables_grown(&k1.pg.mem, &k1.fa, &k2.pg.mem),
        paging::grown_for(&k1.pg.mem, &k1.fa, &k2.pg.mem, &k2.fa, root),
        frames::used(k1.fa.map@, j) ==> frames::used(k2.fa.map@, j),
    ensures
        owns_table(&k2.pg.mem, root, j * 4096) == (owns_table(&k1.pg.mem, root, j * 4096)
            || frames::used(k2.fa.map@, j) && !frames::used(k1.fa.map@, j)),
{
    reveal(paging::grown_for);
    let t = j * 4096;
    let m1 = &k1.pg.mem;
    let m2 = &k2.pg.mem;
    assert(t / 4096 == j);
    if m1.seats@.dom().contains(t) {
        assert(m2.seats@.dom().contains(t));
        assert(k1.fa.in_use(t));
    } else if m2.seats@.dom().contains(t) {
        assert(!k1.fa.in_use(t));
        assert(k2.fa.in_use(t));
    }
}

/// After mapping page `v` onto `phys` the pages stand on the same frames and,
/// besides, on that one.
pub proof fn lemma_backs_more(
    k0: &Kernel,
    k2: &Kernel,
    root: int,
    v: int,
    phys: u64,
    writable: bool,
    exec: bool,
    j: int,
)
    requires
        0 <= v < USER_PAGES,
        phys % 4096 == 0,
        borrower(&k0.pg.mem, root),
        paging::is_table(k0.pg.mem.words@, k0.pg.mem.seats@, root),
        k0.fa.managed(phys as int),
        k2.fa.origin@ == k0.fa.origin@,
        paging::held_frame(&k0.pg.mem, &k0.fa, root, v) is None,
        paging::same_leaves_but(&k0.pg.mem, &k2.pg.mem, root, v),
        paging::leaf(k2.pg.mem.words@, root, v) == Some(
            paging::user_entry(phys, writable, exec),
        ),
        paging::addr(paging::user_entry(phys, writable, exec)) == phys,
    ensures
        backs(&k2.pg.mem, &k2.fa, root, j) == (backs(&k0.pg.mem, &k0.fa, root, j) || j == phys as int
            / 4096),
{
    let m0 = &k0.pg.mem;
    let m2 = &k2.pg.mem;
    assert forall|x: int| 0 <= x < USER_PAGES && x != v implies #[trigger] paging::held_frame(
        m2,
        &k2.fa,
        root,
        x,
    ) == paging::held_frame(m0, &k0.fa, root, x) by {
        assert(paging::leaf(m2.words@, root, x) == paging::leaf(m0.words@, root, x));
    }
    assert(paging::held_frame(m2, &k2.fa, root, v) == Some(phys as int / 4096));
    if backs(m0, &k0.fa, root, j) {
        let x = choose|x: int|
            0 <= x < USER_PAGES && #[trigger] paging::held_frame(m0, &k0.fa, root, x) == Some(j);
        assert(paging::held_frame(m2, &k2.fa, root, x) == Some(j));
    }
    if backs(m2, &k2.fa, root, j) && j != phys as int / 4096 {
        let x = choose|x: int|
            0 <= x < USER_PAGES && #[trigger] paging::held_frame(m2, &k2.fa, root, x) == Some(j);
        assert(paging::held_frame(m0, &k0.fa, root, x) == Some(j));
    }
}

/// Destroying a process closes its account: the pool is as it was when the
/// account was opened, and the count that `destroy` reports is what it was
/// charged for.
pub proof fn law_destroy_closes_account(
    base: FrameAllocator,
    k: Kernel,
    post: Kernel,
    root: u64,
    n: u64,
)
    requires
        in_account(&base, &k, root as int),
        post.fa.available() == k.fa.available() + n,
        forall|j: int|
            0 <= j < frames::FRAME_COUNT ==> #[trigger] frames::used(post.fa.map@, j) == (
            frames::used(k.fa.map@, j) && !proc::goes_back(&k, root as int, j)),
    ensures
        forall|j: int|
            0 <= j < frames::FRAME_COUNT ==> #[trigger] frames::used(post.fa.map@, j)
                == frames::used(base.map@, j),
        post.fa.available() == base.available(),
        n == base.available() - k.fa.available(),
{
    assert forall|j: int| 0 <= j < frames::FRAME_COUNT implies #[trigger] frames::used(
        post.fa.map@,
        j,
    ) == frames::used(base.map@, j) by {
        assert(frames::used(k.fa.map@, j) == (frames::used(base.map@, j) || proc::goes_back(
            &k,
            root as int,
            j,
        )));
    }
    lemma_same_count(post.fa.map@, base.map@, frames::FRAME_COUNT as int);
}

/// Bitmaps that agree on the first `n` frames have as many of them free.
pub proof fn lemma_same_count(a: Seq<u64>, b: Seq<u64>, n: int)
    requires
        forall|j: int| 0 <= j < n ==> #[trigger] frames::used(a, j) == frames::used(b, j),
    ensures
        frames::free_below(a, n) == frames::free_below(b, n),
    decreases n,
{
    if n > 0 {
        lemma_same_count(a, b, n - 1);
        assert(frames::used(a, n - 1) == frames::used(b, n - 1));
    }
}

/// Nothing was ever mapped into `root`: it has no table but itself and no user
/// page.
pub open spec fn bare(k: &Kernel, root: int) -> bool {
    &&& borrower(&k.pg.mem, root)
    &&& forall|t: int| #[trigger] k.pg.mem.seats@.dom().contains(t) && k.pg.mem.seats@[t].owner
        == root ==> t == root
    &&& forall|v: int|
        0 <= v < USER_PAGES ==> #[trigger] paging::leaf(k.pg.mem.words@, root, v) is None
}

/// A new process is bare, and those that were bare still are.
pub proof fn lemma_bare_created(pre: &Kernel, post: &Kernel, name: &'static str)
    requires
        pre.wf(),
        post.wf(),
        proc::created(pre, post, name),
    ensures
        bare(post, root_of(post, pre.procs.next_pid)),
        forall|r: int| #[trigger] bare(pre, r) ==> bare(post, r),
{
    let root = root_of(post, pre.procs.next_pid);
    lemma_created(pre, post, name);
    assert(paging::is_table(post.pg.mem.words@, post.pg.mem.seats@, root));
    assert forall|t: int| #[trigger] post.pg.mem.seats@.dom().contains(t)
        && post.pg.mem.seats@[t].owner == root implies t == root by {
        if t != root {
            assert(pre.pg.mem.seats@.dom().contains(t));
            assert(paging::is_table(pre.pg.mem.words@, pre.pg.mem.seats@, t));
            assert(paging::hangs(pre.pg.mem.words@, pre.pg.mem.seats@, t));
            reveal(paging::hangs);
        }
    }
    assert forall|r: int| #[trigger] bare(pre, r) implies bare(post, r) by {
        assert(pre.pg.mem.seats@.dom().contains(r));
        assert forall|v: int| 0 <= v < USER_PAGES implies #[trigger] paging::leaf(
            post.pg.mem.words@,
            r,
            v,
        ) is None by {
            assert(paging::leaf(pre.pg.mem.words@, r, v) is None);
        }
    }
}

/// Destroying another process leaves a bare one bare.
pub proof fn lemma_bare_removed(pre: &Kernel, post: &Kernel, i: int, r: int)
    requires
        pre.wf(),
        proc::removed(pre, post, i),
        bare(pre, r),
        pre.procs.slots@[i]->0.pml4_phys != r,
        borrower(&post.pg.mem, r),
    ensures
        bare(post, r),
{
    assert forall|v: int| 0 <= v < USER_PAGES implies #[trigger] paging::leaf(
        post.pg.mem.words@,
        r,
        v,
    ) is None by {
        assert(paging::leaf(pre.pg.mem.words@, r, v) is None);
    }
}

/// Destroy a process into which nothing was mapped: its root goes back, and no
/// other frame.
pub(crate) fn destroy_bare(k: &mut Kernel, pid: u64) -> (r: Result<u64, &'static str>)
    requires
        old(k).wf(),
        proc::find(old(k).procs.slots@, pid) is Some,
        bare(old(k), root_of(old(k), pid)),
        old(k).pg.live_root != root_of(old(k), pid),
    ensures
        r == Ok::<u64, &'static str>(1),
        final(k).wf(),
        proc::removed(old(k), final(k), proc::find(old(k).procs.slots@, pid)->0),
        final(k).fa.same_pool(&old(k).fa),
        final(k).fa.free == old(k).fa.free + 1,
        final(k).fa.available() == old(k).fa.available() + 1,
        forall|j: int|
            0 <= j < frames::FRAME_COUNT ==> #[trigger] frames::used(final(k).fa.map@, j) == (
            frames::used(old(k).fa.map@, j) && j * 4096 != root_of(old(k), pid)),
        rest::kept_but(
            old(k),
            final(k),
            Set::empty().insert(root_of(old(k), pid)),
            rest::free_in(final(k)),
        ),
{
    let ghost k0 = *k;
    let ghost root = root_of(k, pid);
    let ghost i = proc::find(k.procs.slots@, pid)->0;
    proof {
        proc::lemma_find_bounds(k0.procs.slots@, pid);
        assert forall|v: int| 0 <= v < USER_PAGES implies #[trigger] paging::held_frame(
            &k0.pg.mem,
            &k0.fa,
            root,
            v,
        ) is None by {
            assert(paging::leaf(k0.pg.mem.words@, root, v) is None);
        }
        assert forall|j: int| 0 <= j < frames::FRAME_COUNT implies (#[trigger] proc::goes_back(
            &k0,
            root,
            j,
        ) <==> j * 4096 == root) by {
            lemma_goes_back(&k0, root, j);
            assert(paging::is_table(k0.pg.mem.words@, k0.pg.mem.seats@, root));
        }
    }
    let live: u64 = crate::views::cr3_phys(&k.pg);
    let r = proc::destroy(k, pid, live);
    proof {
        let c = root / 4096;
        assert(paging::is_table(k0.pg.mem.words@, k0.pg.mem.seats@, root));
        assert(k0.fa.in_use(root));
        assert forall|j: int| 0 <= j < frames::FRAME_COUNT implies #[trigger] frames::used(
            k.fa.map@,
            j,
        ) == (frames::used(k0.fa.map@, j) && j * 4096 != root) by {
            assert(proc::goes_back(&k0, root, j) <==> j * 4096 == root);
        }
        lemma_count_less(k0.fa.map@, k.fa.map@, c, frames::FRAME_COUNT as int);
    }
    r
}

/// A bitmap in which one frame fewer is in use.
proof fn lemma_count_less(a: Seq<u64>, b: Seq<u64>, c: int, n: int)
    requires
        0 <= c,
        c < n ==> frames::used(a, c),
        forall|j: int| 0 <= j < n ==> #[trigger] frames::used(b, j) == (frames::used(a, j) && j
            != c),
    ensures
        frames::free_below(b, n) == frames::free_below(a, n) + (if c < n {
            1int
        } else {
            0int
        }),
    decreases n,
{
    if n > 0 {
        lemma_count_less(a, b, c, n - 1);
        assert(frames::used(b, n - 1) == (frames::used(a, n - 1) && n - 1 != c));
    }
}

/// A bare root needs all three tables for its first page.
pub proof fn lemma_bare_missing(k: &Kernel, root: int, v: int)
    requires
        k.wf(),
        bare(k, root),
        0 <= v < USER_PAGES,
    ensures
        paging::missing(k.pg.mem.words@, root, v) == 3,
{
    let w = k.pg.mem.words@;
    let seats = k.pg.mem.seats@;
    paging::lemma_page_split(v);
    assert(paging::is_table(w, seats, root));
    assert(paging::idx4(v) < 256);
    assert(paging::entry_ok(w, seats, root, paging::idx4(v)));
    if paging::present(paging::entry(w, root, paging::idx4(v))) {
        let t = paging::addr(paging::entry(w, root, paging::idx4(v)));
        assert(seats.dom().contains(t));
        assert(seats[t].owner == root);
    }
}

/// Pages of one last-level table need the same tables.
pub proof fn lemma_same_table(words: Seq<u64>, root: int, v: int, x: int)
    requires
        v / 512 == x / 512,
        0 <= v,
        0 <= x,
    ensures
        paging::missing(words, root, v) == paging::missing(words, root, x),
{
    assert(paging::idx4(v) == paging::idx4(x));
    assert(paging::idx3(v) == paging::idx3(x));
    assert(paging::idx2(v) == paging::idx2(x));
}

/// What came of adding a page.
#[derive(Clone, Copy, Debug, PartialEq, Eq, Structural)]
pub enum Added {
    /// The page stands on this frame.
    Page(u64),
    /// There was no frame for the page.
    NoFrame,
    /// There was no frame for a table.
    NoTable,
}

/// Page `va` of `root` was added on frame `f`: nothing else of any address
/// space changed, and what was taken is held by `root`.
pub open spec fn page_stands(
    pre: &Kernel,
    post: &Kernel,
    root: int,
    va: u64,
    f: int,
    writable: bool,
    exec: bool,
) -> bool {
    let v = va as int / 4096;
    &&& paging::leaf(post.pg.mem.words@, root, v) == Some(
        paging::user_entry(f as u64, writable, exec),
    )
    &&& paging::missing(post.pg.mem.words@, root, v) == 0
    &&& paging::same_leaves_but(&pre.pg.mem, &post.pg.mem, root, v)
    &&& paging::frames_spent(
        &pre.fa,
        &post.fa,
        1 + paging::missing(pre.pg.mem.words@, root, v),
    )
    &&& !pre.fa.in_use(f)
    &&& post.fa.in_use(f)
    &&& !post.pg.mem.seats@.dom().contains(f)
    &&& f % 4096 == 0
    &&& 0 <= f < frames::PHYS_LIMIT
    &&& f / 8 + 512 <= post.pg.mem.words@.len()
    &&& views::edited(&pre.pg.mem, &pre.fa, &post.pg.mem, &post.fa, root)
    &&& paging::leaf(pre.pg.mem.words@, root, v) is None ==> charged(
        pre,
        post,
        root,
    )
}

/// Take a frame from the pool and map page `va` of `root` onto it.
#[verifier::spinoff_prover]
#[verifier::rlimit(60)]
pub(crate) fn add_page(k: &mut Kernel, root: u64, va: u64, writable: bool, exec: bool) -> (r: Added)
    requires
        old(k).wf(),
        views::process_root(&old(k).pg.mem, old(k).pg.kernel_root as int, root as int),
        va % 4096 == 0,
        va < paging::USER_HALF_LIMIT,
        !(writable && exec),
    ensures
        final(k).wf(),
        final(k).procs == old(k).procs,
        final(k).pg.kernel_root == old(k).pg.kernel_root,
        final(k).pg.live_root == old(k).pg.live_root,
        views::process_root(&final(k).pg.mem, final(k).pg.kernel_root as int, root as int),
        rest::kept_but(old(k), final(k), Set::empty().insert(root as int), Set::empty()),
        match r {
            Added::NoFrame => old(k).fa.available() == 0,
            Added::NoTable => 1 <= old(k).fa.available() < 1 + paging::missing(
                old(k).pg.mem.words@,
                root as int,
                va as int / 4096,
            ),
            Added::Page(f) => 1 + paging::missing(
                old(k).pg.mem.words@,
                root as int,
                va as int / 4096,
            ) <= old(k).fa.available() && page_stands(
                old(k),
                final(k),
                root as int,
                va,
                f as int,
                writable,
                exec,
            ),
        },
{
    let ghost k0 = *k;
    proof {
        frames::lemma_free_bounds(k0.fa.map@, frames::FRAME_COUNT as int);
    }
    let f: u64 = match frames::alloc_frame(&mut k.fa) {
        None => {
            proof {
                rest::lemma_same(&k0, k);
                rest::lemma_weaker(&k0, k, root as int);
            }
            return Added::NoFrame;
        },
        Some(f) => f,
    };
    let ghost k1 = *k;
    proof {
        lemma_took(&k0, &k1, f as int);
        frames::lemma_free_bounds(k1.fa.map@, frames::FRAME_COUNT as int);
        assert forall|j: int|
            0 <= j < frames::FRAME_COUNT && #[trigger] frames::used(
                k0.fa.map@,
                j,
            ) implies frames::used(k1.fa.map@, j) by {
            if j != f as int / 4096 {
                assert(frames::used(k1.fa.map@, j) == frames::used(k0.fa.map@, j));
            }
        }
        rest::lemma_took(&k0, &k1);
    }
    let done: bool = proc::map_one(k, root, va, f, writable, exec);
    proof {
        rest::lemma_edited(&k1, k, root as int);
        rest::lemma_first(&k0, &k1, k, root as int);
    }
    if !done {
        return Added::NoTable;
    }
    proof {
        lemma_added(&k0, &k1, k, root, va, f, writable, exec);
    }
    Added::Page(f)
}

/// A kernel that took one frame from the pool is in order.
pub proof fn lemma_took(pre: &Kernel, post: &Kernel, f: int)
    requires
        pre.wf(),
        post.fa.wf(),
        post.fa.same_pool(&pre.fa),
        post.pg == pre.pg,
        post.procs == pre.procs,
        frames::took(&pre.fa, &post.fa, f),
    ensures
        post.wf(),
        !pre.pg.mem.seats@.dom().contains(f),
        (f / 4096 + 1) * 512 <= post.pg.mem.words@.len(),
        forall|j: int|
            0 <= j < frames::FRAME_COUNT && #[trigger] frames::used(
                pre.fa.map@,
                j,
            ) ==> frames::used(post.fa.map@, j),
{
    assert forall|j: int|
        0 <= j < frames::FRAME_COUNT && #[trigger] frames::used(
            pre.fa.map@,
            j,
        ) implies frames::used(post.fa.map@, j) by {
        if j != f / 4096 {
            assert(frames::used(post.fa.map@, j) == frames::used(pre.fa.map@, j));
        }
    }
    assert forall|t: int| #[trigger] post.pg.mem.seats@.dom().contains(t) implies post.fa.in_use(
        t,
    ) by {
        assert(pre.fa.in_use(t));
        assert(paging::is_table(pre.pg.mem.words@, pre.pg.mem.seats@, t));
        assert(frames::used(pre.fa.map@, t / 4096));
    }
    assert forall|j: int|
        0 <= j < frames::FRAME_COUNT && !#[trigger] frames::used(post.fa.map@, j) implies (j + 1)
        * 512 <= post.pg.mem.words@.len() by {
        assert(!frames::used(pre.fa.map@, j));
    }
    if pre.pg.mem.seats@.dom().contains(f) {
        assert(pre.fa.in_use(f));
    }
    assert(!frames::used(pre.fa.map@, f / 4096));
}

pub proof fn lemma_added(
    k0: &Kernel,
    k1: &Kernel,
    k2: &Kernel,
    root: u64,
    va: u64,
    f: u64,
    writable: bool,
    exec: bool,
)
    requires
        k0.wf(),
        k1.wf(),
        k2.wf(),
        views::process_root(&k0.pg.mem, k0.pg.kernel_root as int, root as int),
        paging::user_refusal(va, f, writable, exec) is None,
        k1.pg == k0.pg,
        k1.fa.same_pool(&k0.fa),
        frames::took(&k0.fa, &k1.fa, f as int),
        !k0.pg.mem.seats@.dom().contains(f as int),
        (f as int / 4096 + 1) * 512 <= k0.pg.mem.words@.len(),
        forall|j: int|
            0 <= j < frames::FRAME_COUNT && #[trigger] frames::used(
                k0.fa.map@,
                j,
            ) ==> frames::used(k1.fa.map@, j),
        views::edited(&k1.pg.mem, &k1.fa, &k2.pg.mem, &k2.fa, root as int),
        paging::grown_for(&k1.pg.mem, &k1.fa, &k2.pg.mem, &k2.fa, root as int),
        paging::mapped(
            &k1.pg.mem,
            &k1.fa,
            &k2.pg.mem,
            &k2.fa,
            root as int,
            va as int / 4096,
            paging::user_entry(f, writable, exec),
        ),
    ensures
        page_stands(k0, k2, root as int, va, f as int, writable, exec),
{
    let rt = root as int;
    paging::lemma_user_present(f, writable, exec);
    assert(frames::used(k1.fa.map@, f as int / 4096));
    if k2.pg.mem.seats@.dom().contains(f as int) {
        assert(k1.pg.mem.seats@.dom().contains(f as int) || !k1.fa.in_use(f as int));
    }
    assert forall|j: int|
        0 <= j < frames::FRAME_COUNT && #[trigger] frames::used(
            k0.fa.map@,
            j,
        ) implies frames::used(k2.fa.map@, j) by {
        assert(frames::used(k1.fa.map@, j));
    }
    assert(views::edited(&k0.pg.mem, &k0.fa, &k2.pg.mem, &k2.fa, rt)) by {
        lemma_edited_since(k0, k1, k2, rt);
    }
    if paging::leaf(k0.pg.mem.words@, rt, va as int / 4096) is None {
        assert(!frames::used(k0.fa.map@, f as int / 4096));
        assert(page_added(k0, k1, k2, root, va, f, writable, exec));
        lemma_charged_page(k0, k1, k2, root, va, f, writable, exec);
    }
}

/// What was edited after more frames were taken was edited before too.
proof fn lemma_edited_since(k0: &Kernel, k1: &Kernel, k2: &Kernel, root: int)
    requires
        k0.wf(),
        k1.pg == k0.pg,
        k1.fa.same_pool(&k0.fa),
        k0.fa.available() - k1.fa.available() == k0.fa.free - k1.fa.free,
        forall|j: int|
            0 <= j < frames::FRAME_COUNT && #[trigger] frames::used(
                k0.fa.map@,
                j,
            ) ==> frames::used(k1.fa.map@, j),
        views::edited(&k1.pg.mem, &k1.fa, &k2.pg.mem, &k2.fa, root),
    ensures
        views::edited(&k0.pg.mem, &k0.fa, &k2.pg.mem, &k2.fa, root),
{
    let m0 = &k0.pg.mem;
    let m2 = &k2.pg.mem;
    assert forall|t: int| #[trigger] m2.seats@.dom().contains(t) implies m0.seats@.dom().contains(t)
        || !k0.fa.in_use(t) && t % 4096 == 0 && 0 <= t < frames::PHYS_LIMIT by {
        if !m0.seats@.dom().contains(t) {
            assert(!frames::used(k1.fa.map@, t / 4096));
            if frames::used(k0.fa.map@, t / 4096) {
                assert(frames::used(k1.fa.map@, t / 4096));
            }
        }
    }
    assert forall|q: int| #![trigger m2.words@[q]]
        0 <= q < m0.words@.len() && frames::used(k0.fa.map@, q / 512) && !m0.seats@.dom().contains(
            q / 512 * 4096,
        ) && q / 512 < frames::FRAME_COUNT implies m2.words@[q] == m0.words@[q] by {
        assert(frames::used(k1.fa.map@, q / 512));
    }
    assert forall|j: int|
        0 <= j < frames::FRAME_COUNT && #[trigger] frames::used(
            k0.fa.map@,
            j,
        ) implies frames::used(k2.fa.map@, j) by {
        assert(frames::used(k1.fa.map@, j));
    }
}

/// Every user page of `root` that stands on a pooled frame has a frame of its
/// own, in use and no table.
#[verifier::opaque]
pub open spec fn tidy(k: &Kernel, root: int) -> bool {
    &&& paging::no_table_mapped(&k.pg.mem, &k.fa, root)
    &&& paging::sole_below(&k.pg.mem, &k.fa, root, USER_PAGES as int)
}

pub proof fn lemma_tidy_bare(k: &Kernel, root: int)
    requires
        bare(k, root),
    ensures
        tidy(k, root),
{
    reveal(tidy);
    assert forall|v: int| 0 <= v < USER_PAGES implies #[trigger] paging::held_frame(
        &k.pg.mem,
        &k.fa,
        root,
        v,
    ) is None by {
        assert(paging::leaf(k.pg.mem.words@, root, v) is None);
    }
}

/// Pages other than the one that was added stand where they stood.
proof fn lemma_held_others(m0: &PhysMem, f0: &FrameAllocator, m2: &PhysMem, f2: &FrameAllocator, root: int, v0: int)
    requires
        paging::is_root(m0.seats@, root),
        f2.origin@ == f0.origin@,
        m0.seats@[root].owner == root,
        paging::same_leaves_but(m0, m2, root, v0),
    ensures
        forall|v: int|
            0 <= v < USER_PAGES && v != v0 ==> #[trigger] paging::held_frame(m2, f2, root, v)
                == paging::held_frame(m0, f0, root, v),
{
    assert forall|v: int| 0 <= v < USER_PAGES && v != v0 implies #[trigger] paging::held_frame(
        m2,
        f2,
        root,
        v,
    ) == paging::held_frame(m0, f0, root, v) by {
        let a = paging::leaf(m2.words@, root, v);
        assert(a == paging::leaf(m0.words@, root, v));
    }
}

/// The page that was added stands on its frame, if on any.
pub proof fn lemma_held_added(m2: &PhysMem, f2: &FrameAllocator, root: int, v0: int, f: int, w: bool, x: bool)
    requires
        paging::leaf(m2.words@, root, v0) == Some(paging::user_entry(f as u64, w, x)),
        f % 4096 == 0,
        0 <= f < frames::PHYS_LIMIT,
        !(w && x),
    ensures
        paging::held_frame(m2, f2, root, v0) is Some ==> paging::held_frame(m2, f2, root, v0)
            == Some(f / 4096),
{
    paging::lemma_user_entry(f as u64);
}

/// A root stays tidy when a page is added on a fresh frame.
pub proof fn lemma_tidy_page(
    k0: &Kernel,
    k2: &Kernel,
    root: int,
    va: u64,
    f: int,
    writable: bool,
    exec: bool,
)
    requires
        paging::is_root(k0.pg.mem.seats@, root),
        k0.pg.mem.seats@[root].owner == root,
        tidy(k0, root),
        !(writable && exec),
        page_stands(k0, k2, root, va, f, writable, exec),
    ensures
        tidy(k2, root),
{
    let v0 = va as int / 4096;
    lemma_held_others(&k0.pg.mem, &k0.fa, &k2.pg.mem, &k2.fa, root, v0);
    lemma_held_added(&k2.pg.mem, &k2.fa, root, v0, f, writable, exec);
    lemma_tidy_step(k0, k2, root, v0, f);
}

#[verifier::spinoff_prover]
proof fn lemma_tidy_step(k0: &Kernel, k2: &Kernel, root: int, v0: int, f: int)
    requires
        tidy(k0, root),
        f % 4096 == 0,
        !k0.fa.in_use(f),
        k2.fa.in_use(f),
        !k2.pg.mem.seats@.dom().contains(f),
        paging::tables_grown(&k0.pg.mem, &k0.fa, &k2.pg.mem),
        forall|j: int|
            0 <= j < frames::FRAME_COUNT && #[trigger] frames::used(
                k0.fa.map@,
                j,
            ) ==> frames::used(k2.fa.map@, j),
        forall|v: int|
            0 <= v < USER_PAGES && v != v0 ==> #[trigger] paging::held_frame(
                &k2.pg.mem,
                &k2.fa,
                root,
                v,
            ) == paging::held_frame(&k0.pg.mem, &k0.fa, root, v),
        paging::held_frame(&k2.pg.mem, &k2.fa, root, v0) is Some ==> paging::held_frame(
            &k2.pg.mem,
            &k2.fa,
            root,
            v0,
        ) == Some(f / 4096),
    ensures
        tidy(k2, root),
{
    reveal(tidy);
    let m0 = &k0.pg.mem;
    let m2 = &k2.pg.mem;
    assert forall|v: int| 0 <= v < USER_PAGES implies (#[trigger] paging::held_frame(
        m2,
        &k2.fa,
        root,
        v,
    ) matches Some(j) ==> frames::used(k2.fa.map@, j) && !m2.seats@.dom().contains(j * 4096) && (v
        != v0 ==> j != f / 4096)) by {
        if v != v0 {
            if let Some(j) = paging::held_frame(m0, &k0.fa, root, v) {
                lemma_held_range(k0, root, v);
                assert(frames::used(k0.fa.map@, j));
                assert((j * 4096) / 4096 == j);
                if m2.seats@.dom().contains(j * 4096) {
                    assert(m0.seats@.dom().contains(j * 4096) || !k0.fa.in_use(j * 4096));
                }
            }
        }
    }
    assert forall|v: int, w: int|
        0 <= v < w < USER_PAGES && #[trigger] paging::held_frame(m2, &k2.fa, root, v) is Some
            && #[trigger] paging::held_frame(
            m2,
            &k2.fa,
            root,
            w,
        ) is Some implies paging::held_frame(m2, &k2.fa, root, v) != paging::held_frame(
        m2,
        &k2.fa,
        root,
        w,
    ) by {
        if v != v0 && w != v0 {
            assert(paging::held_frame(m0, &k0.fa, root, v) is Some);
            assert(paging::held_frame(m0, &k0.fa, root, w) is Some);
        }
    }
}

pub proof fn lemma_held_range(k: &Kernel, root: int, v: int)
    ensures
        paging::held_frame(&k.pg.mem, &k.fa, root, v) matches Some(j) ==> 0 <= j
            < frames::FRAME_COUNT,
{
    if let Some(e) = paging::leaf(k.pg.mem.words@, root, v) {
        paging::lemma_mask(e);
    }
}

/// The pool is as it was.
pub open spec fn same_frames(pre: &FrameAllocator, post: &FrameAllocator) -> bool {
    &&& post.same_pool(pre)
    &&& post.free == pre.free
    &&& post.available() == pre.available()
    &&& forall|j: int|
        0 <= j < frames::FRAME_COUNT ==> #[trigger] frames::used(post.map@, j) == frames::used(
            pre.map@,
            j,
        )
}

/// Destroy a tidy process whose account was opened at `base`: the pool is as it
/// was then.
pub(crate) fn close_account(k: &mut Kernel, pid: u64, Ghost(base): Ghost<FrameAllocator>) -> (r: Result<
    u64,
    &'static str,
>)
    requires
        old(k).wf(),
        proc::find(old(k).procs.slots@, pid) is Some,
        tidy(old(k), root_of(old(k), pid)),
        in_account(&base, old(k), root_of(old(k), pid)),
        old(k).fa.same_pool(&base),
        base.free - base.available() == old(k).fa.free - old(k).fa.available(),
        old(k).pg.live_root != root_of(old(k), pid),
    ensures
        r matches Ok(n) && n == base.available() - old(k).fa.available(),
        final(k).wf(),
        proc::removed(old(k), final(k), proc::find(old(k).procs.slots@, pid)->0),
        same_frames(&base, &final(k).fa),
        rest::kept_but(
            old(k),
            final(k),
            Set::empty().insert(root_of(old(k), pid)),
            rest::free_in(final(k)),
        ),
{
    let ghost k0 = *k;
    proof {
        reveal(tidy);
        proc::lemma_find_bounds(k0.procs.slots@, pid);
    }
    let live: u64 = crate::views::cr3_phys(&k.pg);
    let r = proc::destroy(k, pid, live);
    proof {
        law_destroy_closes_account(base, k0, *k, root_of(&k0, pid) as u64, r->Ok_0);
    }
    r
}

/// The upper half of `root` is the kernel's.
pub open spec fn sees_kernel(k: &Kernel, root: int) -> bool {
    forall|v: int|
        USER_PAGES <= v < PAGES ==> #[trigger] paging::leaf(k.pg.mem.words@, root, v)
            == paging::leaf(k.pg.mem.words@, k.pg.kernel_root as int, v)
}

/// A process that was just created sees the kernel's half, page for page, as
/// the kernel does, and every process that saw it still does.
pub proof fn law_created_sees_kernel(pre: Kernel, post: Kernel, name: &'static str, other: int)
    requires
        pre.wf(),
        post.wf(),
        proc::created(&pre, &post, name),
        post.pg.kernel_root == pre.pg.kernel_root,
        paging::is_root(pre.pg.mem.seats@, other),
        sees_kernel(&pre, other),
    ensures
        sees_kernel(&post, root_of(&post, pre.procs.next_pid)),
        sees_kernel(&post, other),
{
    lemma_created(&pre, &post, name);
    let root = root_of(&post, pre.procs.next_pid);
    let kr = pre.pg.kernel_root as int;
    assert forall|v: int| USER_PAGES <= v < PAGES implies #[trigger] paging::leaf(
        post.pg.mem.words@,
        root,
        v,
    ) == paging::leaf(post.pg.mem.words@, kr, v) by {
        assert(paging::leaf(post.pg.mem.words@, kr, v) == paging::leaf(pre.pg.mem.words@, kr, v));
    }
    assert forall|v: int| USER_PAGES <= v < PAGES implies #[trigger] paging::leaf(
        post.pg.mem.words@,
        other,
        v,
    ) == paging::leaf(post.pg.mem.words@, kr, v) by {
        assert(paging::leaf(post.pg.mem.words@, kr, v) == paging::leaf(pre.pg.mem.words@, kr, v));
        assert(paging::leaf(post.pg.mem.words@, other, v) == paging::leaf(
            pre.pg.mem.words@,
            other,
            v,
        ));
    }
}

/// Editing one process's own pages leaves the kernel's half of every process
/// as it was.
pub proof fn lemma_sees_edit(k0: &Kernel, k1: &Kernel, root: int, other: int)
    requires
        k0.wf(),
        k1.pg.kernel_root == k0.pg.kernel_root,
        views::process_root(&k0.pg.mem, k0.pg.kernel_root as int, root),
        views::process_root(&k0.pg.mem, k0.pg.kernel_root as int, other),
        views::others_kept(&k0.pg.mem, &k1.pg.mem, root),
        sees_kernel(k0, other),
    ensures
        sees_kernel(k1, other),
{
    let kr = k0.pg.kernel_root as int;
    assert forall|v: int| USER_PAGES <= v < PAGES implies #[trigger] paging::leaf(
        k1.pg.mem.words@,
        other,
        v,
    ) == paging::leaf(k1.pg.mem.words@, kr, v) by {
        assert(paging::owner_of(k0.pg.mem.seats@[other], v) != root);
        assert(paging::owner_of(k0.pg.mem.seats@[kr], v) != root);
        assert(paging::leaf(k1.pg.mem.words@, kr, v) == paging::leaf(k0.pg.mem.words@, kr, v));
        assert(paging::leaf(k0.pg.mem.words@, other, v) == paging::leaf(k0.pg.mem.words@, kr, v));
    }
}

/// The walk to a page of the kernel's half goes through the same entries from a
/// process that was just created as from the kernel.
pub proof fn law_created_shares_walks(pre: Kernel, post: Kernel, name: &'static str, v: int)
    requires
        pre.wf(),
        post.wf(),
        proc::created(&pre, &post, name),
        USER_PAGES <= v < PAGES,
    ensures
        paging::chain(post.pg.mem.words@, root_of(&post, pre.procs.next_pid), v) == paging::chain(
            post.pg.mem.words@,
            post.pg.kernel_root as int,
            v,
        ),
{
    lemma_created(&pre, &post, name);
    let root = root_of(&post, pre.procs.next_pid);
    let i = paging::idx4(v);
    proc::lemma_find_bounds(post.procs.slots@, pre.procs.next_pid);
    assert(paging::upper_lent(post.pg.mem.words@, root, post.pg.kernel_root as int));
    assert(256 <= i < 512);
    assert(paging::entry(post.pg.mem.words@, root, i) == paging::entry(
        post.pg.mem.words@,
        post.pg.kernel_root as int,
        i,
    ));
}

} // verus!

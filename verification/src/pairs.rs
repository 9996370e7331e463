//! Two processes side by side: what each of them holds, and that tearing both
//! down gives all of it back.

use vstd::prelude::*;
use crate::accounts;
use crate::cap;
use crate::frames;
use crate::frames::FrameAllocator;
use crate::kernel::Kernel;
use crate::m3;
use crate::paging;
use crate::paging::{PAGES, USER_PAGES};
use crate::proc;
use crate::rest;
use crate::views;

verus! {

/// Frame `j`, if it is in use, was in use at `base`, is one of `extra`, or goes
/// back with the root `ra` or with the root `rb`; and only one of these.
pub open spec fn split(
    base: &FrameAllocator,
    extra: Set<int>,
    k: &Kernel,
    ra: int,
    rb: int,
    j: int,
) -> bool {
    let was = frames::used(base.map@, j);
    let other = extra.contains(j);
    let a = proc::goes_back(k, ra, j);
    let b = proc::goes_back(k, rb, j);
    &&& frames::used(k.fa.map@, j) == (was || other || a || b)
    &&& !(was && other)
    &&& !((was || other) && (a || b))
    &&& !(a && b)
}

/// Every frame in use was in use at `base`, is one of `extra`, or goes back
/// with the root `ra` or with the root `rb`; and only one of these.
#[verifier::opaque]
pub open spec fn two_accounts(
    base: &FrameAllocator,
    extra: Set<int>,
    k: &Kernel,
    ra: int,
    rb: int,
) -> bool {
    forall|j: int| 0 <= j < frames::FRAME_COUNT ==> #[trigger] split(base, extra, k, ra, rb, j)
}

pub proof fn lemma_swap(base: &FrameAllocator, extra: Set<int>, k: &Kernel, ra: int, rb: int)
    requires
        two_accounts(base, extra, k, ra, rb),
    ensures
        two_accounts(base, extra, k, rb, ra),
{
    reveal(two_accounts);
    assert forall|j: int| 0 <= j < frames::FRAME_COUNT implies #[trigger] split(
        base,
        extra,
        k,
        rb,
        ra,
        j,
    ) by {
        assert(split(base, extra, k, ra, rb, j));
    }
}

/// What `root` holds did not change.
pub open spec fn untouched(k0: &Kernel, k1: &Kernel, root: int) -> bool {
    &&& accounts::borrower(&k0.pg.mem, root)
    &&& accounts::borrower(&k1.pg.mem, root)
    &&& paging::tables_wf(k0.pg.mem.words@, k0.pg.mem.seats@)
    &&& paging::tables_wf(k1.pg.mem.words@, k1.pg.mem.seats@)
    &&& k1.fa.origin@ == k0.fa.origin@
    &&& forall|t: int|
        #![trigger accounts::owns_table(&k1.pg.mem, root, t)]
        #![trigger accounts::owns_table(&k0.pg.mem, root, t)]
        accounts::owns_table(&k1.pg.mem, root, t) == accounts::owns_table(&k0.pg.mem, root, t)
    &&& forall|v: int|
        0 <= v < USER_PAGES ==> #[trigger] paging::leaf(k1.pg.mem.words@, root, v) == paging::leaf(
            k0.pg.mem.words@,
            root,
            v,
        )
}

pub proof fn lemma_untouched_back(k0: &Kernel, k1: &Kernel, root: int, j: int)
    requires
        untouched(k0, k1, root),
    ensures
        proc::goes_back(k1, root, j) == proc::goes_back(k0, root, j),
{
    accounts::lemma_goes_back(k0, root, j);
    accounts::lemma_goes_back(k1, root, j);
    let m0 = &k0.pg.mem;
    let m1 = &k1.pg.mem;
    assert(accounts::owns_table(m1, root, j * 4096) == accounts::owns_table(m0, root, j * 4096));
    assert forall|v: int| 0 <= v < USER_PAGES implies #[trigger] paging::held_frame(
        m1,
        &k1.fa,
        root,
        v,
    ) == paging::held_frame(m0, &k0.fa, root, v) by {
        assert(paging::leaf(m1.words@, root, v) == paging::leaf(m0.words@, root, v));
    }
    if accounts::backs(m0, &k0.fa, root, j) {
        let v = choose|v: int|
            0 <= v < USER_PAGES && #[trigger] paging::held_frame(m0, &k0.fa, root, v) == Some(j);
        assert(paging::held_frame(m1, &k1.fa, root, v) == Some(j));
    }
    if accounts::backs(m1, &k1.fa, root, j) {
        let v = choose|v: int|
            0 <= v < USER_PAGES && #[trigger] paging::held_frame(m1, &k1.fa, root, v) == Some(j);
        assert(paging::held_frame(m0, &k0.fa, root, v) == Some(j));
    }
}

/// A charge to `ra` keeps both accounts.
pub proof fn lemma_charge_first(
    base: &FrameAllocator,
    extra: Set<int>,
    k0: &Kernel,
    k1: &Kernel,
    ra: int,
    rb: int,
)
    requires
        two_accounts(base, extra, k0, ra, rb),
        accounts::charged(k0, k1, ra),
        untouched(k0, k1, rb),
    ensures
        two_accounts(base, extra, k1, ra, rb),
{
    reveal(two_accounts);
    reveal(accounts::charged);
    assert forall|j: int| 0 <= j < frames::FRAME_COUNT implies #[trigger] split(
        base,
        extra,
        k1,
        ra,
        rb,
        j,
    ) by {
        lemma_untouched_back(k0, k1, rb, j);
        assert(split(base, extra, k0, ra, rb, j));
    }
}

/// A frame that is taken for something else joins the extra ones.
pub proof fn lemma_extra_took(
    base: &FrameAllocator,
    extra: Set<int>,
    k0: &Kernel,
    k1: &Kernel,
    ra: int,
    rb: int,
    f: int,
)
    requires
        two_accounts(base, extra, k0, ra, rb),
        frames::took(&k0.fa, &k1.fa, f),
        untouched(k0, k1, ra),
        untouched(k0, k1, rb),
    ensures
        two_accounts(base, extra.insert(f / 4096), k1, ra, rb),
{
    reveal(two_accounts);
    assert forall|j: int| 0 <= j < frames::FRAME_COUNT implies #[trigger] split(
        base,
        extra.insert(f / 4096),
        k1,
        ra,
        rb,
        j,
    ) by {
        lemma_untouched_back(k0, k1, ra, j);
        lemma_untouched_back(k0, k1, rb, j);
        assert(split(base, extra, k0, ra, rb, j));
        if j != f / 4096 {
            assert(frames::used(k1.fa.map@, j) == frames::used(k0.fa.map@, j));
        } else {
            assert(!k0.fa.in_use(f));
            assert(k1.fa.in_use(f));
        }
    }
}

/// Nothing that counts changed.
pub proof fn lemma_both_untouched(
    base: &FrameAllocator,
    extra: Set<int>,
    k0: &Kernel,
    k1: &Kernel,
    ra: int,
    rb: int,
)
    requires
        two_accounts(base, extra, k0, ra, rb),
        k1.fa == k0.fa,
        untouched(k0, k1, ra),
        untouched(k0, k1, rb),
    ensures
        two_accounts(base, extra, k1, ra, rb),
{
    reveal(two_accounts);
    assert forall|j: int| 0 <= j < frames::FRAME_COUNT implies #[trigger] split(
        base,
        extra,
        k1,
        ra,
        rb,
        j,
    ) by {
        lemma_untouched_back(k0, k1, ra, j);
        lemma_untouched_back(k0, k1, rb, j);
        assert(split(base, extra, k0, ra, rb, j));
    }
}

/// Both processes stand, each with nothing but its root.
pub open spec fn fresh_pair(k0: &Kernel, k2: &Kernel, pa: u64, pb: u64) -> bool {
    let ra = accounts::root_of(k2, pa);
    let rb = accounts::root_of(k2, pb);
    &&& k2.wf()
    &&& pa == k0.procs.next_pid
    &&& pb == pa + 1
    &&& k2.procs.next_pid == k0.procs.next_pid + 2
    &&& proc::find(k2.procs.slots@, pa) is Some
    &&& proc::find(k2.procs.slots@, pb) is Some
    &&& accounts::bare(k2, ra)
    &&& accounts::bare(k2, rb)
    &&& accounts::sees_kernel(k2, ra)
    &&& accounts::sees_kernel(k2, rb)
    &&& k2.pg.kernel_root == k0.pg.kernel_root
    &&& ra != rb
    &&& k2.pg.live_root == k0.pg.live_root
    &&& k2.pg.live_root != ra
    &&& k2.pg.live_root != rb
    &&& k2.fa.same_pool(&k0.fa)
    &&& k2.fa.free == k0.fa.free - 2
    &&& k2.fa.available() == k0.fa.available() - 2
    &&& two_accounts(&k0.fa, Set::empty(), k2, ra, rb)
    &&& settles(k0, k2, pa, pb)
    &&& cap::slots_of(&k2.procs, pa) == Some(m3::blank_space())
    &&& cap::slots_of(&k2.procs, pb) == Some(m3::blank_space())
}

/// Once `pa` and `pb` are gone, the processes are those of `k0`.
#[verifier::opaque]
pub open spec fn settles(k0: &Kernel, k: &Kernel, pa: u64, pb: u64) -> bool {
    let s0 = k0.procs.slots@;
    let s = k.procs.slots@;
    let a = proc::find(s, pa);
    let b = proc::find(s, pb);
    &&& s.len() == s0.len()
    &&& k0.procs.wf()
    &&& k0.procs.next_pid <= pa
    &&& k0.procs.next_pid <= pb
    &&& proc::kept(&k0.procs, &k.procs)
    &&& forall|q: u64|
        q != pa && q != pb ==> #[trigger] cap::slots_of(&k.procs, q) == cap::slots_of(&k0.procs, q)
    &&& proc::find(s0, pa) is None
    &&& proc::find(s0, pb) is None
    &&& forall|j: int|
        0 <= j < s0.len() ==> #[trigger] settled_slot(s0, s, a, b, j)
}

/// Slot `j` is the one of `a` or `b` and was free, or it is as it was, but
/// for its capabilities.
pub open spec fn settled_slot(
    s0: Seq<Option<proc::Process>>,
    s: Seq<Option<proc::Process>>,
    a: Option<int>,
    b: Option<int>,
    j: int,
) -> bool {
    if a == Some(j) || b == Some(j) {
        s0[j] is None
    } else {
        (s[j] is Some <==> s0[j] is Some) && (s0[j] matches Some(p) ==> s[j]->0.same_but_caps(&p))
    }
}

pub proof fn lemma_bare_back(k: &Kernel, root: int, j: int)
    requires
        k.wf(),
        accounts::bare(k, root),
    ensures
        proc::goes_back(k, root, j) <==> j * 4096 == root,
{
    accounts::lemma_goes_back(k, root, j);
    let m = &k.pg.mem;
    assert(accounts::owns_table(m, root, root)) by {
        assert(paging::is_table(m.words@, m.seats@, root));
    }
    if accounts::backs(m, &k.fa, root, j) {
        let v = choose|v: int|
            0 <= v < USER_PAGES && #[trigger] paging::held_frame(m, &k.fa, root, v) == Some(j);
        assert(paging::leaf(m.words@, root, v) is None);
    }
}

proof fn lemma_fresh_pair(k0: &Kernel, k2: &Kernel, pa: u64, pb: u64)
    requires
        k0.wf(),
        m3::pair_made(k0, k2, pa, pb),
        proc::kept(&k0.procs, &k2.procs),
    ensures
        fresh_pair(k0, k2, pa, pb),
{
    let ra = accounts::root_of(k2, pa);
    let rb = accounts::root_of(k2, pb);
    assert(two_accounts(&k0.fa, Set::empty(), k2, ra, rb)) by {
        reveal(two_accounts);
        assert forall|j: int| 0 <= j < frames::FRAME_COUNT implies #[trigger] split(
        &k0.fa,
        Set::empty(),
        k2,
        ra,
        rb,
        j,
    ) by {
            lemma_bare_back(k2, ra, j);
            lemma_bare_back(k2, rb, j);
            if j * 4096 == ra {
                assert(!k0.fa.in_use(ra));
            }
            if j * 4096 == rb {
                assert(!k0.fa.in_use(rb));
            }
        }
    }
    let s0 = k0.procs.slots@;
    let s = k2.procs.slots@;
    assert(settles(k0, k2, pa, pb)) by {
        reveal(settles);
        proc::lemma_find_bounds(s0, pa);
        proc::lemma_find_bounds(s0, pb);
        if let Some(x) = proc::find(s0, pa) {
            assert(s0[x] is Some && s0[x]->0.id < k0.procs.next_pid);
        }
        if let Some(x) = proc::find(s0, pb) {
            assert(s0[x] is Some && s0[x]->0.id < k0.procs.next_pid);
        }
        assert forall|j: int| 0 <= j < s0.len() implies #[trigger] settled_slot(
            s0,
            s,
            proc::find(s, pa),
            proc::find(s, pb),
            j,
        ) by {
            if proc::find(s, pa) != Some(j) && proc::find(s, pb) != Some(j) {
                assert(s[j] == s0[j]);
            }
        }
    }
    assert(k0.pg.mem.seats@.dom().contains(k0.pg.live_root as int));
}

/// Make two processes.
pub(crate) fn open_pair(k: &mut Kernel, a: &'static str, b: &'static str) -> (r: Result<
    (u64, u64),
    &'static str,
>)
    requires
        old(k).wf(),
        old(k).procs.next_pid < u64::MAX - 1,
        m3::live_root_stands(old(k)),
    ensures
        final(k).wf(),
        proc::kept(&old(k).procs, &final(k).procs),
        rest::kept(old(k), final(k)),
        match m3::two_and(old(k), 0, "") {
            Err(e) => r == Err::<(u64, u64), &'static str>(e),
            Ok(_) => r matches Ok((pa, pb)) && fresh_pair(old(k), final(k), pa, pb)
                && proc::entered(&final(k).procs, pa, a) && proc::entered(&final(k).procs, pb, b),
        },
{
    let ghost k0 = *k;
    let r = m3::make_pair(k, a, b);
    proof {
        if let Ok((pa, pb)) = r {
            lemma_fresh_pair(&k0, k, pa, pb);
        }
    }
    r
}

/// Removing `ra` leaves what `rb` holds.
#[verifier::spinoff_prover]
#[verifier::rlimit(40)]
proof fn lemma_removed_other(k: &Kernel, k1: &Kernel, ra: int, rb: int, i: int)
    requires
        k.wf(),
        k1.wf(),
        proc::removed(k, k1, i),
        k.procs.slots@[i]->0.pml4_phys == ra,
        ra != rb,
        views::process_root(&k.pg.mem, k.pg.kernel_root as int, rb),
        views::process_root(&k1.pg.mem, k1.pg.kernel_root as int, rb),
        k1.fa.origin@ == k.fa.origin@,
    ensures
        forall|j: int| #[trigger] proc::goes_back(k1, rb, j) == proc::goes_back(k, rb, j),
        forall|v: int|
            0 <= v < USER_PAGES ==> #[trigger] paging::held_frame(
                &k1.pg.mem,
                &k1.fa,
                rb,
                v,
            ) == paging::held_frame(&k.pg.mem, &k.fa, rb, v),
{
    let m0 = &k.pg.mem;
    let m1 = &k1.pg.mem;
    assert forall|v: int| 0 <= v < USER_PAGES implies #[trigger] paging::held_frame(
        m1,
        &k1.fa,
        rb,
        v,
    ) == paging::held_frame(m0, &k.fa, rb, v) by {
        assert(paging::leaf(m1.words@, rb, v) == paging::leaf(m0.words@, rb, v));
    }
    assert forall|v: int, j: int|
        0 <= v < USER_PAGES implies #[trigger] paging::claims(
        m1,
        &k1.fa,
        rb,
        v,
        j,
    ) == paging::claims(m0, &k.fa, rb, v, j) by {
        assert(paging::slots(m1.words@, rb, v) == paging::slots(m0.words@, rb, v));
        assert(paging::held_frame(m1, &k1.fa, rb, v) == paging::held_frame(m0, &k.fa, rb, v));
    }
    assert forall|j: int| #[trigger] proc::goes_back(k1, rb, j) == proc::goes_back(k, rb, j) by {
        if proc::goes_back(k, rb, j) && j * 4096 != rb {
            let v = choose|v: int|
                0 <= v < USER_PAGES && #[trigger] paging::claims(m0, &k.fa, rb, v, j);
            assert(paging::claims(m1, &k1.fa, rb, v, j));
        }
        if proc::goes_back(k1, rb, j) && j * 4096 != rb {
            let v = choose|v: int|
                0 <= v < USER_PAGES && #[trigger] paging::claims(m1, &k1.fa, rb, v, j);
            assert(paging::claims(m0, &k.fa, rb, v, j));
        }
    }
}

pub proof fn lemma_split_at(
    base: &FrameAllocator,
    extra: Set<int>,
    k: &Kernel,
    ra: int,
    rb: int,
    j: int,
)
    requires
        two_accounts(base, extra, k, ra, rb),
        0 <= j < frames::FRAME_COUNT,
    ensures
        split(base, extra, k, ra, rb, j),
{
    reveal(two_accounts);
}

/// The first process is gone from `k1`, with what it held.
pub open spec fn first_gone(
    base: &FrameAllocator,
    extra: Set<int>,
    k: &Kernel,
    k1: &Kernel,
    ra: int,
    rb: int,
    i: int,
) -> bool {
    &&& k.wf()
    &&& k1.wf()
    &&& proc::removed(k, k1, i)
    &&& k.procs.slots@[i]->0.pml4_phys == ra
    &&& ra != rb
    &&& views::process_root(&k.pg.mem, k.pg.kernel_root as int, rb)
    &&& views::process_root(&k1.pg.mem, k1.pg.kernel_root as int, rb)
    &&& k1.fa.same_pool(&k.fa)
    &&& two_accounts(base, extra, k, ra, rb)
    &&& forall|j: int|
        0 <= j < frames::FRAME_COUNT ==> #[trigger] frames::used(k1.fa.map@, j) == (frames::used(
            k.fa.map@,
            j,
        ) && !proc::goes_back(k, ra, j))
}

/// After the first teardown all that is left goes back with the second
/// process.
#[verifier::spinoff_prover]
#[verifier::rlimit(40)]
pub proof fn lemma_first_gone(
    base: &FrameAllocator,
    extra: Set<int>,
    k: &Kernel,
    k1: &Kernel,
    ra: int,
    rb: int,
    i: int,
)
    requires
        first_gone(base, extra, k, k1, ra, rb, i),
    ensures
        forall|j: int|
            0 <= j < frames::FRAME_COUNT ==> #[trigger] frames::used(k1.fa.map@, j) == (
            frames::used(base.map@, j) || extra.contains(j) || proc::goes_back(k1, rb, j)),
        forall|j: int|
            0 <= j < frames::FRAME_COUNT && #[trigger] proc::goes_back(k1, rb, j) ==> !(
            frames::used(base.map@, j) || extra.contains(j)),
{
    lemma_removed_other(k, k1, ra, rb, i);
    assert forall|j: int| 0 <= j < frames::FRAME_COUNT implies #[trigger] frames::used(
        k1.fa.map@,
        j,
    ) == (frames::used(base.map@, j) || extra.contains(j) || proc::goes_back(k1, rb, j)) by {
        lemma_split_at(base, extra, k, ra, rb, j);
        assert(proc::goes_back(k1, rb, j) == proc::goes_back(k, rb, j));
    }
    assert forall|j: int|
        0 <= j < frames::FRAME_COUNT && #[trigger] proc::goes_back(k1, rb, j) implies !(
    frames::used(base.map@, j) || extra.contains(j)) by {
        lemma_split_at(base, extra, k, ra, rb, j);
        assert(proc::goes_back(k, rb, j));
    }
}

/// After the first teardown the second process is still tidy.
#[verifier::spinoff_prover]
#[verifier::rlimit(40)]
proof fn lemma_second_tidy(
    base: &FrameAllocator,
    extra: Set<int>,
    k: &Kernel,
    k1: &Kernel,
    ra: int,
    rb: int,
    i: int,
)
    requires
        first_gone(base, extra, k, k1, ra, rb, i),
        accounts::tidy(k, rb),
    ensures
        accounts::tidy(k1, rb),
{
    reveal(accounts::tidy);
    lemma_removed_other(k, k1, ra, rb, i);
    let m0 = &k.pg.mem;
    let m1 = &k1.pg.mem;
    assert forall|v: int| 0 <= v < USER_PAGES implies (#[trigger] paging::held_frame(
        m1,
        &k1.fa,
        rb,
        v,
    ) matches Some(j) ==> frames::used(k1.fa.map@, j) && !m1.seats@.dom().contains(j * 4096)) by {
        if let Some(j) = paging::held_frame(m0, &k.fa, rb, v) {
            accounts::lemma_held_range(k, rb, v);
            assert(frames::used(k.fa.map@, j));
            assert(paging::claims(m0, &k.fa, rb, v, j));
            assert(proc::goes_back(k, rb, j));
            lemma_split_at(base, extra, k, ra, rb, j);
            if m1.seats@.dom().contains(j * 4096) {
                assert(m0.seats@.dom().contains(j * 4096));
            }
        }
    }
    assert forall|v: int, w: int|
        0 <= v < w < USER_PAGES && #[trigger] paging::held_frame(m1, &k1.fa, rb, v) is Some
            && #[trigger] paging::held_frame(
            m1,
            &k1.fa,
            rb,
            w,
        ) is Some implies paging::held_frame(m1, &k1.fa, rb, v) != paging::held_frame(
        m1,
        &k1.fa,
        rb,
        w,
    ) by {
        assert(paging::held_frame(m0, &k.fa, rb, v) is Some);
        assert(paging::held_frame(m0, &k.fa, rb, w) is Some);
    }
}

/// Tear both processes down, `pa` first. Returns how many frames each gave
/// back.
#[verifier::spinoff_prover]
#[verifier::rlimit(40)]
pub(crate) fn close_pair(
    k: &mut Kernel,
    pa: u64,
    pb: u64,
    Ghost(k0): Ghost<Kernel>,
    Ghost(extra): Ghost<Set<int>>,
) -> (r: Result<(u64, u64), &'static str>)
    requires
        old(k).wf(),
        k0.wf(),
        pa != pb,
        proc::find(old(k).procs.slots@, pa) is Some,
        proc::find(old(k).procs.slots@, pb) is Some,
        accounts::root_of(old(k), pa) != accounts::root_of(old(k), pb),
        accounts::tidy(old(k), accounts::root_of(old(k), pa)),
        accounts::tidy(old(k), accounts::root_of(old(k), pb)),
        two_accounts(
            &k0.fa,
            extra,
            old(k),
            accounts::root_of(old(k), pa),
            accounts::root_of(old(k), pb),
        ),
        old(k).pg.live_root != accounts::root_of(old(k), pa),
        old(k).pg.live_root != accounts::root_of(old(k), pb),
        settles(&k0, old(k), pa, pb),
    ensures
        r matches Ok((na, nb)) && final(k).fa.available() == old(k).fa.available() + na + nb
            && final(k).fa.free == old(k).fa.free + na + nb,
        final(k).wf(),
        final(k).fa.same_pool(&old(k).fa),
        final(k).procs.next_pid == old(k).procs.next_pid,
        final(k).procs.created == old(k).procs.created,
        forall|j: int|
            0 <= j < frames::FRAME_COUNT ==> #[trigger] frames::used(final(k).fa.map@, j) == (
            frames::used(k0.fa.map@, j) || extra.contains(j)),
        m3::same_processes(&k0.procs, &final(k).procs),
        forall|b: Kernel| #[trigger]
            settles(&b, old(k), pa, pb) ==> m3::same_processes(&b.procs, &final(k).procs)
                && proc::kept(&b.procs, &final(k).procs),
        proc::kept(&k0.procs, &final(k).procs),
        proc::find(final(k).procs.slots@, pa) is None,
        proc::find(final(k).procs.slots@, pb) is None,
        forall|t: int| #[trigger] final(k).pg.mem.seats@.dom().contains(t) ==> old(
            k,
        ).pg.mem.seats@.dom().contains(t),
        final(k).pg.mem.words@.len() == old(k).pg.mem.words@.len(),
        rest::kept_but(
            old(k),
            final(k),
            both_roots(old(k), pa, pb),
            rest::free_in(final(k)),
        ),
{
    let ghost k1 = *k;
    let ghost ra = accounts::root_of(&k1, pa);
    let ghost rb = accounts::root_of(&k1, pb);
    proof {
        assert(paging::no_table_mapped(&k1.pg.mem, &k1.fa, ra)) by {
            reveal(accounts::tidy);
        }
        assert(paging::sole_below(&k1.pg.mem, &k1.fa, ra, USER_PAGES as int)) by {
            reveal(accounts::tidy);
        }
        proc::lemma_find_bounds(k1.procs.slots@, pa);
        proc::lemma_find_bounds(k1.procs.slots@, pb);
    }
    let live: u64 = crate::views::cr3_phys(&k.pg);
    let na: u64 = match proc::destroy(k, pa, live) {
        Err(e) => {
            return Err(e);
        },
        Ok(n) => n,
    };
    let ghost k2 = *k;
    proof {
        let i = proc::find(k1.procs.slots@, pa)->0;
        let x = proc::find(k1.procs.slots@, pb)->0;
        m3::lemma_without(&k1, &k2, pa, pb);
        assert(k1.procs.slots@[x] is Some);
        assert(k2.procs.slots@[x] is Some);
        lemma_first_gone(&k0.fa, extra, &k1, &k2, ra, rb, i);
        lemma_second_tidy(&k0.fa, extra, &k1, &k2, ra, rb, i);
        assert(paging::no_table_mapped(&k2.pg.mem, &k2.fa, rb)) by {
            reveal(accounts::tidy);
        }
        assert(paging::sole_below(&k2.pg.mem, &k2.fa, rb, USER_PAGES as int)) by {
            reveal(accounts::tidy);
        }
    }
    let nb: u64 = match proc::destroy(k, pb, live) {
        Err(e) => {
            return Err(e);
        },
        Ok(n) => n,
    };
    proof {
        lemma_settled(&k0, &k1, &k2, k, pa, pb);
        assert forall|b: Kernel| #[trigger] settles(&b, &k1, pa, pb) implies m3::same_processes(
            &b.procs,
            &k.procs,
        ) && proc::kept(&b.procs, &k.procs) by {
            lemma_settled(&b, &k1, &k2, k, pa, pb);
        }
        assert forall|j: int| 0 <= j < frames::FRAME_COUNT implies #[trigger] frames::used(
            k.fa.map@,
            j,
        ) == (frames::used(k0.fa.map@, j) || extra.contains(j)) by {
            let was = frames::used(k2.fa.map@, j);
            let back = proc::goes_back(&k2, rb, j);
        }
        assert forall|t: int| #[trigger]
            k.pg.mem.seats@.dom().contains(t) implies k1.pg.mem.seats@.dom().contains(t) by {
            assert(k2.pg.mem.seats@.dom().contains(t));
        }
        rest::lemma_join(
            &k1,
            &k2,
            k,
            Set::empty().insert(ra),
            rest::free_in(&k2),
            Set::empty().insert(rb),
            rest::free_in(k),
            both_roots(&k1, pa, pb),
            rest::free_in(k),
        );
    }
    Ok((na, nb))
}

#[verifier::spinoff_prover]
pub proof fn lemma_settled(k0: &Kernel, k1: &Kernel, k2: &Kernel, k3: &Kernel, pa: u64, pb: u64)
    requires
        k1.wf(),
        k2.wf(),
        k3.wf(),
        pa != pb,
        settles(k0, k1, pa, pb),
        proc::find(k1.procs.slots@, pa) is Some,
        proc::find(k1.procs.slots@, pb) is Some,
        proc::removed(k1, k2, proc::find(k1.procs.slots@, pa)->0),
        proc::removed(k2, k3, proc::find(k2.procs.slots@, pb)->0),
    ensures
        m3::same_processes(&k0.procs, &k3.procs),
        proc::kept(&k0.procs, &k3.procs),
        proc::find(k3.procs.slots@, pa) is None,
        proc::find(k3.procs.slots@, pb) is None,
{
    reveal(settles);
    let s0 = k0.procs.slots@;
    let s1 = k1.procs.slots@;
    let s2 = k2.procs.slots@;
    let s3 = k3.procs.slots@;
    let a = proc::find(s1, pa)->0;
    let b = proc::find(s1, pb)->0;
    proc::lemma_find_bounds(s1, pa);
    proc::lemma_find_bounds(s1, pb);
    proc::lemma_kept_removed(&k0.procs, k1, k2, a);
    m3::lemma_without(k1, k2, pa, pb);
    proc::lemma_kept_removed(&k0.procs, k2, k3, b);
    m3::lemma_without(k2, k3, pb, pa);
    assert forall|j: int| 0 <= j < s0.len() implies {
        &&& #[trigger] s3[j] is Some <==> s0[j] is Some
        &&& s0[j] matches Some(p) ==> s3[j]->0.same_but_caps(&p)
    } by {
        assert(settled_slot(s0, s1, Some(a), Some(b), j));
        if j != a && j != b {
            assert(s2[j] == s1[j]);
            assert(s3[j] == s2[j]);
        }
    }
    assert forall|q: u64| #[trigger] cap::slots_of(&k3.procs, q) == cap::slots_of(
        &k0.procs,
        q,
    ) by {
        if q != pa && q != pb {
            m3::lemma_without(k1, k2, pa, q);
            m3::lemma_without(k2, k3, pb, q);
            assert(cap::slots_of(&k1.procs, q) == cap::slots_of(&k0.procs, q));
        }
    }
}

/// Changing capabilities of the two leaves the rest to settle as before.
pub proof fn lemma_settles_caps(k0: &Kernel, k1: &Kernel, k2: &Kernel, pa: u64, pb: u64)
    requires
        settles(k0, k1, pa, pb),
        k1.procs.wf(),
        m3::only_caps(&k1.procs, &k2.procs),
        m3::other_caps(&k1.procs, &k2.procs, pa, pb),
    ensures
        settles(k0, k2, pa, pb),
{
    reveal(settles);
    m3::lemma_kept_caps(&k0.procs, &k1.procs, &k2.procs, pa, pb);
    let s0 = k0.procs.slots@;
    let s1 = k1.procs.slots@;
    let s2 = k2.procs.slots@;
    m3::lemma_only_caps_find(&k1.procs, &k2.procs, pa);
    m3::lemma_only_caps_find(&k1.procs, &k2.procs, pb);
    assert forall|j: int| 0 <= j < s0.len() implies #[trigger] settled_slot(
        s0,
        s2,
        proc::find(s2, pa),
        proc::find(s2, pb),
        j,
    ) by {
        assert(settled_slot(s0, s1, proc::find(s1, pa), proc::find(s1, pb), j));
        assert(s2[j] is Some <==> s1[j] is Some);
    }
    assert forall|q: u64| q != pa && q != pb implies #[trigger] cap::slots_of(&k2.procs, q)
        == cap::slots_of(&k0.procs, q) by {
        assert(cap::slots_of(&k1.procs, q) == cap::slots_of(&k0.procs, q));
    }
}

pub proof fn lemma_settles_same(k0: &Kernel, k1: &Kernel, k2: &Kernel, pa: u64, pb: u64)
    requires
        settles(k0, k1, pa, pb),
        k2.procs == k1.procs,
    ensures
        settles(k0, k2, pa, pb),
{
    reveal(settles);
}

/// The address spaces of two processes.
pub open spec fn both_roots(k: &Kernel, pa: u64, pb: u64) -> Set<int> {
    Set::empty().insert(accounts::root_of(k, pa)).insert(accounts::root_of(k, pb))
}

/// The two processes are up since `k0`, and can be torn down so that the pool
/// is that of `k0` again, but for the frames in `extra`.
#[verifier::opaque]
pub open spec fn pair_up(k0: &Kernel, k: &Kernel, pa: u64, pb: u64, extra: Set<int>) -> bool {
    let ra = accounts::root_of(k, pa);
    let rb = accounts::root_of(k, pb);
    &&& k.wf()
    &&& pa != pb
    &&& proc::find(k.procs.slots@, pa) is Some
    &&& proc::find(k.procs.slots@, pb) is Some
    &&& ra != rb
    &&& views::process_root(&k.pg.mem, k.pg.kernel_root as int, ra)
    &&& views::process_root(&k.pg.mem, k.pg.kernel_root as int, rb)
    &&& accounts::tidy(k, ra)
    &&& accounts::tidy(k, rb)
    &&& two_accounts(&k0.fa, extra, k, ra, rb)
    &&& settles(k0, k, pa, pb)
    &&& k.pg.live_root != ra
    &&& k.pg.live_root != rb
    &&& k.fa.same_pool(&k0.fa)
    &&& k0.fa.free - k0.fa.available() == k.fa.free - k.fa.available()
}

pub proof fn lemma_pair_facts(k0: &Kernel, k: &Kernel, pa: u64, pb: u64, extra: Set<int>)
    requires
        pair_up(k0, k, pa, pb, extra),
    ensures
        k.wf(),
        pa != pb,
        proc::find(k.procs.slots@, pa) is Some,
        proc::find(k.procs.slots@, pb) is Some,
        accounts::root_of(k, pa) != accounts::root_of(k, pb),
        views::process_root(
            &k.pg.mem,
            k.pg.kernel_root as int,
            accounts::root_of(k, pa),
        ),
        views::process_root(
            &k.pg.mem,
            k.pg.kernel_root as int,
            accounts::root_of(k, pb),
        ),
        k.fa.same_pool(&k0.fa),
        accounts::tidy(k, accounts::root_of(k, pa)),
        accounts::tidy(k, accounts::root_of(k, pb)),
{
    reveal(pair_up);
}

/// The address spaces of the two, and the frames beside them, are new.
pub proof fn lemma_pair_new(k0: &Kernel, k: &Kernel, pa: u64, pb: u64, extra: Set<int>)
    requires
        pair_up(k0, k, pa, pb, extra),
    ensures
        !frames::used(k0.fa.map@, accounts::root_of(k, pa) / 4096),
        !frames::used(k0.fa.map@, accounts::root_of(k, pb) / 4096),
        forall|j: int|
            0 <= j < frames::FRAME_COUNT && #[trigger] extra.contains(j) ==> !frames::used(
                k0.fa.map@,
                j,
            ),
{
    reveal(pair_up);
    let ra = accounts::root_of(k, pa);
    let rb = accounts::root_of(k, pb);
    assert(paging::is_table(k.pg.mem.words@, k.pg.mem.seats@, ra));
    assert(paging::is_table(k.pg.mem.words@, k.pg.mem.seats@, rb));
    lemma_split_at(&k0.fa, extra, k, ra, rb, ra / 4096);
    lemma_split_at(&k0.fa, extra, k, ra, rb, rb / 4096);
    assert(proc::goes_back(k, ra, ra / 4096));
    assert(proc::goes_back(k, rb, rb / 4096));
    assert forall|j: int|
        0 <= j < frames::FRAME_COUNT && #[trigger] extra.contains(j) implies !frames::used(
        k0.fa.map@,
        j,
    ) by {
        lemma_split_at(&k0.fa, extra, k, ra, rb, j);
    }
}

/// With the two gone, all that there was is as it was.
pub proof fn lemma_pair_rest(k0: &Kernel, k: &Kernel, k1: &Kernel, pa: u64, pb: u64, extra: Set<int>)
    requires
        k0.wf(),
        pair_up(k0, k, pa, pb, extra),
        rest::kept(k0, k),
        rest::kept_but(k, k1, both_roots(k, pa, pb), rest::free_in(k1)),
        forall|j: int|
            0 <= j < frames::FRAME_COUNT && #[trigger] frames::used(k0.fa.map@, j) ==> frames::used(
                k1.fa.map@,
                j,
            ),
    ensures
        rest::kept(k0, k1),
{
    lemma_pair_new(k0, k, pa, pb, extra);
    rest::lemma_no_root(k0, accounts::root_of(k, pa));
    rest::lemma_no_root(k0, accounts::root_of(k, pb));
    rest::lemma_then(k0, k, k1, both_roots(k, pa, pb), rest::free_in(k1));
}

pub proof fn lemma_pair_up(k0: &Kernel, k: &Kernel, pa: u64, pb: u64)
    requires
        k0.wf(),
        fresh_pair(k0, k, pa, pb),
    ensures
        pair_up(k0, k, pa, pb, Set::empty()),
        pair_up(k0, k, pb, pa, Set::empty()),
{
    reveal(pair_up);
    let ra = accounts::root_of(k, pa);
    let rb = accounts::root_of(k, pb);
    proc::lemma_find_bounds(k.procs.slots@, pa);
    proc::lemma_find_bounds(k.procs.slots@, pb);
    assert(k.procs.slots@[proc::find(k.procs.slots@, pa)->0] is Some);
    assert(k.procs.slots@[proc::find(k.procs.slots@, pb)->0] is Some);
    accounts::lemma_tidy_bare(k, ra);
    accounts::lemma_tidy_bare(k, rb);
    lemma_pair_swap(k0, k, pa, pb, Set::empty());
}

pub proof fn lemma_pair_swap(k0: &Kernel, k: &Kernel, pa: u64, pb: u64, extra: Set<int>)
    requires
        pair_up(k0, k, pa, pb, extra),
    ensures
        pair_up(k0, k, pb, pa, extra),
{
    reveal(pair_up);
    lemma_swap(&k0.fa, extra, k, accounts::root_of(k, pa), accounts::root_of(k, pb));
    assert(settles(k0, k, pb, pa)) by {
        reveal(settles);
        let s0 = k0.procs.slots@;
        let s = k.procs.slots@;
        assert forall|j: int| 0 <= j < s0.len() implies #[trigger] settled_slot(
            s0,
            s,
            proc::find(s, pb),
            proc::find(s, pa),
            j,
        ) by {
            assert(settled_slot(s0, s, proc::find(s, pa), proc::find(s, pb), j));
        }
    }
}

/// What changed since touches no process but that of `root`.
pub open spec fn root_step(k: &Kernel, k1: &Kernel, root: int) -> bool {
    &&& k1.wf()
    &&& k1.procs == k.procs
    &&& k1.pg.live_root == k.pg.live_root
    &&& k1.pg.kernel_root == k.pg.kernel_root
    &&& paging::tables_grown(&k.pg.mem, &k.fa, &k1.pg.mem)
    &&& paging::new_tables_of(&k.pg.mem, &k1.pg.mem, root)
    &&& views::others_kept(&k.pg.mem, &k1.pg.mem, root)
    &&& paging::frames_spent(&k.fa, &k1.fa, k.fa.available() - k1.fa.available())
}

/// What changed since is charged to `root` and touches no other process.
pub open spec fn charged_step(k: &Kernel, k1: &Kernel, root: int) -> bool {
    &&& root_step(k, k1, root)
    &&& accounts::charged(k, k1, root)
    &&& accounts::tidy(k1, root)
}

pub proof fn lemma_other_untouched(k: &Kernel, k1: &Kernel, root: int, other: int)
    requires
        k.wf(),
        root_step(k, k1, root),
        root != other,
        views::process_root(&k.pg.mem, k.pg.kernel_root as int, other),
    ensures
        untouched(k, k1, other),
        views::process_root(&k1.pg.mem, k1.pg.kernel_root as int, other),
{
    let m0 = &k.pg.mem;
    let m1 = &k1.pg.mem;
    assert(m0.seats@.dom().contains(other));
    assert(m1.seats@.dom().contains(other) && m1.seats@[other] == m0.seats@[other]);
    assert(paging::is_table(m0.words@, m0.seats@, other));
    assert forall|t: int|
        accounts::owns_table(m1, other, t) == accounts::owns_table(m0, other, t) by {
        if m0.seats@.dom().contains(t) {
            assert(m1.seats@.dom().contains(t));
        }
    }
    assert forall|v: int| 0 <= v < USER_PAGES implies #[trigger] paging::leaf(
        m1.words@,
        other,
        v,
    ) == paging::leaf(m0.words@, other, v) by {
        assert(paging::owner_of(m0.seats@[other], v) == other);
    }
}

pub proof fn lemma_other_tidy(k: &Kernel, k1: &Kernel, root: int, other: int)
    requires
        root_step(k, k1, root),
        untouched(k, k1, other),
        accounts::tidy(k, other),
    ensures
        accounts::tidy(k1, other),
{
    reveal(accounts::tidy);
    let m0 = &k.pg.mem;
    let m1 = &k1.pg.mem;
    assert forall|v: int| 0 <= v < USER_PAGES implies #[trigger] paging::held_frame(
        m1,
        &k1.fa,
        other,
        v,
    ) == paging::held_frame(m0, &k.fa, other, v) by {
        assert(paging::leaf(m1.words@, other, v) == paging::leaf(m0.words@, other, v));
    }
    assert forall|v: int| 0 <= v < USER_PAGES implies (#[trigger] paging::held_frame(
        m1,
        &k1.fa,
        other,
        v,
    ) matches Some(j) ==> frames::used(k1.fa.map@, j) && !m1.seats@.dom().contains(j * 4096)) by {
        if let Some(j) = paging::held_frame(m0, &k.fa, other, v) {
            accounts::lemma_held_range(k, other, v);
            assert(frames::used(k.fa.map@, j));
            assert((j * 4096) / 4096 == j);
            if m1.seats@.dom().contains(j * 4096) {
                assert(m0.seats@.dom().contains(j * 4096) || !k.fa.in_use(j * 4096));
            }
        }
    }
    assert forall|v: int, w: int|
        0 <= v < w < USER_PAGES && #[trigger] paging::held_frame(m1, &k1.fa, other, v) is Some
            && #[trigger] paging::held_frame(
            m1,
            &k1.fa,
            other,
            w,
        ) is Some implies paging::held_frame(m1, &k1.fa, other, v) != paging::held_frame(
        m1,
        &k1.fa,
        other,
        w,
    ) by {
        assert(paging::held_frame(m0, &k.fa, other, v) is Some);
        assert(paging::held_frame(m0, &k.fa, other, w) is Some);
    }
}

/// A charge to the first process keeps the pair up.
#[verifier::spinoff_prover]
#[verifier::rlimit(40)]
pub proof fn lemma_pair_charge(
    k0: &Kernel,
    k: &Kernel,
    k1: &Kernel,
    pa: u64,
    pb: u64,
    extra: Set<int>,
)
    requires
        pair_up(k0, k, pa, pb, extra),
        charged_step(k, k1, accounts::root_of(k, pa)),
    ensures
        pair_up(k0, k1, pa, pb, extra),
{
    reveal(pair_up);
    let ra = accounts::root_of(k, pa);
    let rb = accounts::root_of(k, pb);
    lemma_other_untouched(k, k1, ra, rb);
    lemma_other_tidy(k, k1, ra, rb);
    lemma_charge_first(&k0.fa, extra, k, k1, ra, rb);
    lemma_settles_same(k0, k, k1, pa, pb);
    assert(k.pg.mem.seats@.dom().contains(ra));
}

/// New capabilities of the two keep the pair up.
pub proof fn lemma_pair_caps(
    k0: &Kernel,
    k: &Kernel,
    k1: &Kernel,
    pa: u64,
    pb: u64,
    extra: Set<int>,
)
    requires
        pair_up(k0, k, pa, pb, extra),
        k1.procs.wf(),
        k1.pg == k.pg,
        k1.fa == k.fa,
        m3::only_caps(&k.procs, &k1.procs),
        m3::other_caps(&k.procs, &k1.procs, pa, pb),
    ensures
        pair_up(k0, k1, pa, pb, extra),
        accounts::root_of(k1, pa) == accounts::root_of(k, pa),
        accounts::root_of(k1, pb) == accounts::root_of(k, pb),
{
    reveal(pair_up);
    m3::lemma_only_caps_kernel(k, k1);
    m3::lemma_only_caps_find(&k.procs, &k1.procs, pa);
    m3::lemma_only_caps_find(&k.procs, &k1.procs, pb);
    proc::lemma_find_bounds(k.procs.slots@, pa);
    proc::lemma_find_bounds(k.procs.slots@, pb);
    let a = proc::find(k.procs.slots@, pa)->0;
    let b = proc::find(k.procs.slots@, pb)->0;
    assert(k1.procs.slots@[a] is Some);
    assert(k1.procs.slots@[b] is Some);
    lemma_settles_caps(k0, k, k1, pa, pb);
    let ra = accounts::root_of(k, pa);
    let rb = accounts::root_of(k, pb);
    lemma_same_memory(&k0.fa, extra, k, k1, ra, rb);
    lemma_same_tidy(k, k1, ra);
    lemma_same_tidy(k, k1, rb);
}

proof fn lemma_same_memory(
    base: &FrameAllocator,
    extra: Set<int>,
    k: &Kernel,
    k1: &Kernel,
    ra: int,
    rb: int,
)
    requires
        two_accounts(base, extra, k, ra, rb),
        k1.pg == k.pg,
        k1.fa == k.fa,
    ensures
        two_accounts(base, extra, k1, ra, rb),
{
    reveal(two_accounts);
    assert forall|j: int| 0 <= j < frames::FRAME_COUNT implies #[trigger] split(
        base,
        extra,
        k1,
        ra,
        rb,
        j,
    ) by {
        assert(split(base, extra, k, ra, rb, j));
        assert(proc::goes_back(k1, ra, j) == proc::goes_back(k, ra, j));
        assert(proc::goes_back(k1, rb, j) == proc::goes_back(k, rb, j));
    }
}

pub proof fn lemma_same_tidy(k: &Kernel, k1: &Kernel, root: int)
    requires
        accounts::tidy(k, root),
        k1.pg == k.pg,
        k1.fa == k.fa,
    ensures
        accounts::tidy(k1, root),
{
    reveal(accounts::tidy);
}

/// A frame taken beside the two keeps the pair up.
pub proof fn lemma_pair_extra(
    k0: &Kernel,
    k: &Kernel,
    k1: &Kernel,
    pa: u64,
    pb: u64,
    extra: Set<int>,
    f: int,
)
    requires
        pair_up(k0, k, pa, pb, extra),
        k1.wf(),
        k1.procs == k.procs,
        k1.pg == k.pg,
        k1.fa.same_pool(&k.fa),
        frames::took(&k.fa, &k1.fa, f),
    ensures
        pair_up(k0, k1, pa, pb, extra.insert(f / 4096)),
{
    reveal(pair_up);
    let ra = accounts::root_of(k, pa);
    let rb = accounts::root_of(k, pb);
    assert(paging::is_table(k.pg.mem.words@, k.pg.mem.seats@, ra));
    assert(paging::is_table(k.pg.mem.words@, k.pg.mem.seats@, rb));
    assert(untouched(k, k1, ra));
    assert(untouched(k, k1, rb));
    lemma_extra_took(&k0.fa, extra, k, k1, ra, rb, f);
    lemma_settles_same(k0, k, k1, pa, pb);
    lemma_tidy_took(k, k1, ra, f);
    lemma_tidy_took(k, k1, rb, f);
}

pub proof fn lemma_tidy_took(k: &Kernel, k1: &Kernel, root: int, f: int)
    requires
        accounts::tidy(k, root),
        k1.pg == k.pg,
        k1.fa.same_pool(&k.fa),
        frames::took(&k.fa, &k1.fa, f),
    ensures
        accounts::tidy(k1, root),
{
    reveal(accounts::tidy);
    let m = &k.pg.mem;
    assert forall|v: int| 0 <= v < USER_PAGES implies #[trigger] paging::held_frame(
        m,
        &k1.fa,
        root,
        v,
    ) == paging::held_frame(m, &k.fa, root, v) && (paging::held_frame(m, &k.fa, root, v) matches Some(
        j,
    ) ==> frames::used(k1.fa.map@, j)) by {
        if let Some(j) = paging::held_frame(m, &k.fa, root, v) {
            accounts::lemma_held_range(k, root, v);
            assert(frames::used(k.fa.map@, j));
            if j != f / 4096 {
                assert(frames::used(k1.fa.map@, j) == frames::used(k.fa.map@, j));
            }
        }
    }
    assert forall|v: int, w: int|
        0 <= v < w < USER_PAGES && #[trigger] paging::held_frame(m, &k1.fa, root, v) is Some
            && #[trigger] paging::held_frame(
            m,
            &k1.fa,
            root,
            w,
        ) is Some implies paging::held_frame(m, &k1.fa, root, v) != paging::held_frame(
        m,
        &k1.fa,
        root,
        w,
    ) by {
        assert(paging::held_frame(m, &k.fa, root, v) is Some);
        assert(paging::held_frame(m, &k.fa, root, w) is Some);
    }
}

/// Bytes written to a frame that is no table keep the pair up.
pub proof fn lemma_pair_write(
    k0: &Kernel,
    k: &Kernel,
    k1: &Kernel,
    pa: u64,
    pb: u64,
    extra: Set<int>,
    f: int,
)
    requires
        pair_up(k0, k, pa, pb, extra),
        k1.procs == k.procs,
        k1.fa == k.fa,
        k1.pg.live_root == k.pg.live_root,
        k1.pg.kernel_root == k.pg.kernel_root,
        k1.pg.mem.seats@ == k.pg.mem.seats@,
        crate::window::only_frame(k.pg.mem.words@, k1.pg.mem.words@, f),
        f % 4096 == 0,
        f >= 0,
        !k.pg.mem.seats@.dom().contains(f),
    ensures
        pair_up(k0, k1, pa, pb, extra),
        forall|r: int, v: int|
            paging::is_root(k.pg.mem.seats@, r) && 0 <= v < PAGES ==> #[trigger] paging::leaf(
                k1.pg.mem.words@,
                r,
                v,
            ) == paging::leaf(k.pg.mem.words@, r, v),
{
    reveal(pair_up);
    let ra = accounts::root_of(k, pa);
    let rb = accounts::root_of(k, pb);
    paging::lemma_apart(k.pg.mem.words@, k1.pg.mem.words@, k.pg.mem.seats@, f);
    proc::lemma_grown_kernel(k, k1);
    assert(paging::is_table(k.pg.mem.words@, k.pg.mem.seats@, ra));
    assert(paging::is_table(k.pg.mem.words@, k.pg.mem.seats@, rb));
    assert(untouched(k, k1, ra));
    assert(untouched(k, k1, rb));
    lemma_both_untouched(&k0.fa, extra, k, k1, ra, rb);
    lemma_settles_same(k0, k, k1, pa, pb);
    lemma_tidy_written(k, k1, ra);
    lemma_tidy_written(k, k1, rb);
}

pub proof fn lemma_tidy_written(k: &Kernel, k1: &Kernel, root: int)
    requires
        accounts::tidy(k, root),
        k1.fa == k.fa,
        k1.pg.mem.seats@ == k.pg.mem.seats@,
        untouched(k, k1, root),
    ensures
        accounts::tidy(k1, root),
{
    reveal(accounts::tidy);
    let m0 = &k.pg.mem;
    let m1 = &k1.pg.mem;
    assert forall|v: int| 0 <= v < USER_PAGES implies #[trigger] paging::held_frame(
        m1,
        &k1.fa,
        root,
        v,
    ) == paging::held_frame(m0, &k.fa, root, v) by {
        assert(paging::leaf(m1.words@, root, v) == paging::leaf(m0.words@, root, v));
    }
    assert forall|v: int, w: int|
        0 <= v < w < USER_PAGES && #[trigger] paging::held_frame(m1, &k1.fa, root, v) is Some
            && #[trigger] paging::held_frame(
            m1,
            &k1.fa,
            root,
            w,
        ) is Some implies paging::held_frame(m1, &k1.fa, root, v) != paging::held_frame(
        m1,
        &k1.fa,
        root,
        w,
    ) by {
        assert(paging::held_frame(m0, &k.fa, root, v) is Some);
        assert(paging::held_frame(m0, &k.fa, root, w) is Some);
    }
}

/// What is left of the two processes is `extra`; all else is as in `b`.
pub open spec fn left_over(b: &Kernel, k: &Kernel, extra: Set<int>) -> bool {
    &&& k.fa.same_pool(&b.fa)
    &&& b.fa.free - b.fa.available() == k.fa.free - k.fa.available()
    &&& forall|j: int|
        0 <= j < frames::FRAME_COUNT ==> #[trigger] frames::used(k.fa.map@, j) == (frames::used(
            b.fa.map@,
            j,
        ) || extra.contains(j))
    &&& m3::same_processes(&b.procs, &k.procs)
    &&& proc::kept(&b.procs, &k.procs)
}

/// The processes from before stand as they were.
pub proof fn lemma_pair_kept(k0: &Kernel, k: &Kernel, pa: u64, pb: u64, extra: Set<int>)
    requires
        pair_up(k0, k, pa, pb, extra),
    ensures
        proc::kept(&k0.procs, &k.procs),
{
    reveal(pair_up);
    reveal(settles);
}

/// Two states that a pair can be traced back to agree on the pool.
proof fn lemma_one_base(b: &Kernel, c: &Kernel, k: &Kernel, pa: u64, pb: u64, extra: Set<int>, j: int)
    requires
        pair_up(b, k, pa, pb, extra),
        pair_up(c, k, pa, pb, extra),
        0 <= j < frames::FRAME_COUNT,
    ensures
        frames::used(b.fa.map@, j) == frames::used(c.fa.map@, j),
{
    reveal(pair_up);
    let ra = accounts::root_of(k, pa);
    let rb = accounts::root_of(k, pb);
    lemma_split_at(&b.fa, extra, k, ra, rb, j);
    lemma_split_at(&c.fa, extra, k, ra, rb, j);
}

/// Tear the pair down: nothing is left of it but the extra frames.
pub(crate) fn drop_pair(
    k: &mut Kernel,
    pa: u64,
    pb: u64,
    Ghost(k0): Ghost<Kernel>,
    Ghost(extra): Ghost<Set<int>>,
) -> (r: Result<(u64, u64), &'static str>)
    requires
        k0.wf(),
        pair_up(&k0, old(k), pa, pb, extra),
    ensures
        r is Ok,
        final(k).wf(),
        final(k).fa.same_pool(&k0.fa),
        final(k).procs.next_pid == old(k).procs.next_pid,
        final(k).procs.created == old(k).procs.created,
        proc::kept(&k0.procs, &final(k).procs),
        k0.fa.free - k0.fa.available() == final(k).fa.free - final(k).fa.available(),
        forall|j: int|
            0 <= j < frames::FRAME_COUNT ==> #[trigger] frames::used(final(k).fa.map@, j) == (
            frames::used(k0.fa.map@, j) || extra.contains(j)),
        m3::same_processes(&k0.procs, &final(k).procs),
        proc::find(final(k).procs.slots@, pa) is None,
        proc::find(final(k).procs.slots@, pb) is None,
        forall|t: int| #[trigger] final(k).pg.mem.seats@.dom().contains(t) ==> old(
            k,
        ).pg.mem.seats@.dom().contains(t),
        final(k).pg.mem.words@.len() == old(k).pg.mem.words@.len(),
        rest::kept_but(
            old(k),
            final(k),
            both_roots(old(k), pa, pb),
            rest::free_in(final(k)),
        ),
        extra =~= Set::<int>::empty() ==> accounts::same_frames(&k0.fa, &final(k).fa),
        forall|b: Kernel| #[trigger]
            pair_up(&b, old(k), pa, pb, extra) ==> left_over(&b, final(k), extra),
{
    let ghost k1 = *k;
    proof {
        reveal(pair_up);
    }
    let r = close_pair(k, pa, pb, Ghost(k0), Ghost(extra));
    proof {
        if extra =~= Set::<int>::empty() {
            accounts::lemma_same_count(k.fa.map@, k0.fa.map@, frames::FRAME_COUNT as int);
        }
        assert forall|b: Kernel| #[trigger] pair_up(&b, &k1, pa, pb, extra) implies left_over(
            &b,
            k,
            extra,
        ) by {
            assert(settles(&b, &k1, pa, pb));
            assert forall|j: int| 0 <= j < frames::FRAME_COUNT implies #[trigger] frames::used(
                k.fa.map@,
                j,
            ) == (frames::used(b.fa.map@, j) || extra.contains(j)) by {
                lemma_one_base(&b, &k0, &k1, pa, pb, extra, j);
            }
        }
    }
    r
}

/// A page was mapped in `root` on a frame that was in use already.
pub open spec fn adopted(
    k: &Kernel,
    k1: &Kernel,
    root: int,
    va: u64,
    f: u64,
    writable: bool,
    exec: bool,
) -> bool {
    &&& k1.wf()
    &&& k1.procs == k.procs
    &&& k1.pg.live_root == k.pg.live_root
    &&& k1.pg.kernel_root == k.pg.kernel_root
    &&& !(writable && exec)
    &&& va < paging::USER_HALF_LIMIT
    &&& f % 4096 == 0
    &&& f < frames::PHYS_LIMIT
    &&& k.fa.in_use(f as int)
    &&& !k.pg.mem.seats@.dom().contains(f as int)
    &&& k.fa.managed(f as int)
    &&& paging::leaf(k.pg.mem.words@, root, va as int / 4096) is None
    &&& views::edited(&k.pg.mem, &k.fa, &k1.pg.mem, &k1.fa, root)
    &&& paging::grown_for(&k.pg.mem, &k.fa, &k1.pg.mem, &k1.fa, root)
    &&& paging::mapped(
        &k.pg.mem,
        &k.fa,
        &k1.pg.mem,
        &k1.fa,
        root,
        va as int / 4096,
        paging::user_entry(f, writable, exec),
    )
}

#[verifier::spinoff_prover]
#[verifier::rlimit(40)]
pub proof fn lemma_adopted_back(
    k: &Kernel,
    k1: &Kernel,
    root: int,
    va: u64,
    f: u64,
    writable: bool,
    exec: bool,
    j: int,
)
    requires
        k.wf(),
        accounts::borrower(&k.pg.mem, root),
        adopted(k, k1, root, va, f, writable, exec),
        0 <= j < frames::FRAME_COUNT,
    ensures
        proc::goes_back(k1, root, j) == (proc::goes_back(k, root, j) || j == f as int / 4096
            || frames::used(k1.fa.map@, j) && !frames::used(k.fa.map@, j)),
        frames::used(k.fa.map@, j) ==> frames::used(k1.fa.map@, j),
{
    let v = va as int / 4096;
    let m0 = &k.pg.mem;
    let m1 = &k1.pg.mem;
    assert(m0.seats@.dom().contains(root));
    assert(m1.seats@.dom().contains(root));
    assert(paging::is_table(m0.words@, m0.seats@, root));
    accounts::lemma_goes_back(k, root, j);
    accounts::lemma_goes_back(k1, root, j);
    paging::lemma_user_entry(f);
    paging::lemma_user_present(f, writable, exec);
    accounts::lemma_backs_more(k, k1, root, v, f, writable, exec, j);
    accounts::lemma_tables_more(k, k1, root, j);
}

#[verifier::spinoff_prover]
#[verifier::rlimit(40)]
pub proof fn lemma_adopted_tidy(
    k: &Kernel,
    k1: &Kernel,
    root: int,
    va: u64,
    f: u64,
    writable: bool,
    exec: bool,
)
    requires
        k.wf(),
        accounts::borrower(&k.pg.mem, root),
        adopted(k, k1, root, va, f, writable, exec),
        accounts::tidy(k, root),
        !proc::goes_back(k, root, f as int / 4096),
    ensures
        accounts::tidy(k1, root),
{
    reveal(accounts::tidy);
    let v0 = va as int / 4096;
    let m0 = &k.pg.mem;
    let m1 = &k1.pg.mem;
    assert(paging::is_table(m0.words@, m0.seats@, root));
    paging::lemma_user_entry(f);
    paging::lemma_user_present(f, writable, exec);
    assert(paging::leaf(m1.words@, root, v0) == Some(paging::user_entry(f, writable, exec)));
    assert(paging::addr(paging::user_entry(f, writable, exec)) == f);
    assert(paging::held_frame(m1, &k1.fa, root, v0) == Some(f as int / 4096));
    assert(paging::held_frame(m0, &k.fa, root, v0) is None);
    assert forall|v: int| 0 <= v < USER_PAGES && v != v0 implies #[trigger] paging::held_frame(
        m1,
        &k1.fa,
        root,
        v,
    ) == paging::held_frame(m0, &k.fa, root, v) by {
        assert(paging::leaf(m1.words@, root, v) == paging::leaf(m0.words@, root, v));
    }
    assert forall|v: int| 0 <= v < USER_PAGES implies (#[trigger] paging::held_frame(
        m1,
        &k1.fa,
        root,
        v,
    ) matches Some(j) ==> frames::used(k1.fa.map@, j) && !m1.seats@.dom().contains(j * 4096) && (v
        != v0 ==> j != f as int / 4096)) by {
        if v == v0 {
            assert(frames::used(k.fa.map@, f as int / 4096));
            if m1.seats@.dom().contains(f as int) {
                assert(m0.seats@.dom().contains(f as int) || !k.fa.in_use(f as int));
            }
        } else if let Some(j) = paging::held_frame(m0, &k.fa, root, v) {
            accounts::lemma_held_range(k, root, v);
            assert(frames::used(k.fa.map@, j));
            assert((j * 4096) / 4096 == j);
            assert(paging::claims(m0, &k.fa, root, v, j));
            assert(proc::goes_back(k, root, j));
            if m1.seats@.dom().contains(j * 4096) {
                assert(m0.seats@.dom().contains(j * 4096) || !k.fa.in_use(j * 4096));
            }
        }
    }
    assert forall|v: int, w: int|
        0 <= v < w < USER_PAGES && #[trigger] paging::held_frame(m1, &k1.fa, root, v) is Some
            && #[trigger] paging::held_frame(
            m1,
            &k1.fa,
            root,
            w,
        ) is Some implies paging::held_frame(m1, &k1.fa, root, v) != paging::held_frame(
        m1,
        &k1.fa,
        root,
        w,
    ) by {
        if v != v0 && w != v0 {
            assert(paging::held_frame(m0, &k.fa, root, v) is Some);
            assert(paging::held_frame(m0, &k.fa, root, w) is Some);
        }
    }
}

/// A frame beside the pair that is mapped in the first process is the
/// process's from then on.
#[verifier::spinoff_prover]
#[verifier::rlimit(40)]
pub proof fn lemma_pair_adopt(
    k0: &Kernel,
    k: &Kernel,
    k1: &Kernel,
    pa: u64,
    pb: u64,
    extra: Set<int>,
    va: u64,
    f: u64,
    writable: bool,
    exec: bool,
)
    requires
        pair_up(k0, k, pa, pb, extra),
        extra.contains(f as int / 4096),
        adopted(k, k1, accounts::root_of(k, pa), va, f, writable, exec),
    ensures
        pair_up(k0, k1, pa, pb, extra.remove(f as int / 4096)),
{
    reveal(pair_up);
    let ra = accounts::root_of(k, pa);
    let rb = accounts::root_of(k, pb);
    let fj = f as int / 4096;
    let less = extra.remove(fj);
    assert(paging::is_table(k.pg.mem.words@, k.pg.mem.seats@, ra));
    assert(paging::is_table(k.pg.mem.words@, k.pg.mem.seats@, rb));
    assert(frames::used(k.fa.map@, fj));
    lemma_split_at(&k0.fa, extra, k, ra, rb, fj);
    lemma_adopted_tidy(k, k1, ra, va, f, writable, exec);
    lemma_other_untouched(k, k1, ra, rb);
    lemma_other_tidy(k, k1, ra, rb);
    assert(two_accounts(&k0.fa, less, k1, ra, rb)) by {
        reveal(two_accounts);
        assert forall|j: int| 0 <= j < frames::FRAME_COUNT implies #[trigger] split(
            &k0.fa,
            less,
            k1,
            ra,
            rb,
            j,
        ) by {
            assert(split(&k0.fa, extra, k, ra, rb, j));
            lemma_adopted_back(k, k1, ra, va, f, writable, exec, j);
            lemma_untouched_back(k, k1, rb, j);
        }
    }
    lemma_settles_same(k0, k, k1, pa, pb);
}

} // verus!

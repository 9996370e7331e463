//! One process by itself: what it holds, and that tearing it down gives all of
//! it back.

use vstd::prelude::*;
use crate::accounts;
use crate::cap;
use crate::frames;
use crate::frames::FrameAllocator;
use crate::kernel::Kernel;
use crate::m3;
use crate::paging;
use crate::paging::{PAGES, USER_PAGES};
use crate::pairs;
use crate::proc;
use crate::rest;
use crate::views;
use crate::window;

verus! {

/// Frame `j`, if it is in use, was in use at `base`, is one of `extra`, or goes
/// back with `root`; and only one of these.
pub open spec fn share(base: &FrameAllocator, extra: Set<int>, k: &Kernel, root: int, j: int) -> bool {
    let was = frames::used(base.map@, j);
    let other = extra.contains(j);
    let own = proc::goes_back(k, root, j);
    &&& frames::used(k.fa.map@, j) == (was || other || own)
    &&& !(was && other)
    &&& !((was || other) && own)
}

#[verifier::opaque]
pub open spec fn one_account(base: &FrameAllocator, extra: Set<int>, k: &Kernel, root: int) -> bool {
    forall|j: int| 0 <= j < frames::FRAME_COUNT ==> #[trigger] share(base, extra, k, root, j)
}

/// Slot `j` of the process table is the new process's, or as it was.
pub open spec fn settled_slot(
    s0: Seq<Option<proc::Process>>,
    s: Seq<Option<proc::Process>>,
    a: Option<int>,
    j: int,
) -> bool {
    if a == Some(j) {
        s0[j] is None
    } else {
        (s[j] is Some <==> s0[j] is Some) && (s0[j] matches Some(p) ==> s[j]->0.same_but_caps(&p))
    }
}

/// Without the process the table is as it was.
#[verifier::opaque]
pub open spec fn settles(k0: &Kernel, k: &Kernel, pid: u64) -> bool {
    let s0 = k0.procs.slots@;
    let s = k.procs.slots@;
    &&& s.len() == s0.len()
    &&& k0.procs.wf()
    &&& k0.procs.next_pid <= pid
    &&& proc::kept(&k0.procs, &k.procs)
    &&& forall|q: u64|
        q != pid ==> #[trigger] cap::slots_of(&k.procs, q) == cap::slots_of(&k0.procs, q)
    &&& proc::find(s0, pid) is None
    &&& forall|j: int|
        0 <= j < s0.len() ==> #[trigger] settled_slot(s0, s, proc::find(s, pid), j)
}

/// The process `pid` was added to `k0`, and the frames of `extra` were taken
/// beside it.
#[verifier::opaque]
pub open spec fn solo_up(k0: &Kernel, k: &Kernel, pid: u64, extra: Set<int>) -> bool {
    let root = accounts::root_of(k, pid);
    &&& k.wf()
    &&& proc::find(k.procs.slots@, pid) is Some
    &&& views::process_root(&k.pg.mem, k.pg.kernel_root as int, root)
    &&& accounts::tidy(k, root)
    &&& one_account(&k0.fa, extra, k, root)
    &&& settles(k0, k, pid)
    &&& k.pg.live_root != root
    &&& k.fa.same_pool(&k0.fa)
    &&& k0.fa.free - k0.fa.available() == k.fa.free - k.fa.available()
}

pub proof fn lemma_solo_facts(k0: &Kernel, k: &Kernel, pid: u64, extra: Set<int>)
    requires
        solo_up(k0, k, pid, extra),
    ensures
        k.wf(),
        proc::find(k.procs.slots@, pid) is Some,
        views::process_root(&k.pg.mem, k.pg.kernel_root as int, accounts::root_of(k, pid)),
        k.fa.same_pool(&k0.fa),
        k.pg.live_root != accounts::root_of(k, pid),
        k0.fa.free - k0.fa.available() == k.fa.free - k.fa.available(),
{
    reveal(solo_up);
}

/// The address space of the process, and the frames beside it, are new.
pub proof fn lemma_solo_new(k0: &Kernel, k: &Kernel, pid: u64, extra: Set<int>)
    requires
        solo_up(k0, k, pid, extra),
    ensures
        !frames::used(k0.fa.map@, accounts::root_of(k, pid) / 4096),
        forall|j: int|
            0 <= j < frames::FRAME_COUNT && #[trigger] extra.contains(j) ==> !frames::used(
                k0.fa.map@,
                j,
            ),
{
    reveal(solo_up);
    let root = accounts::root_of(k, pid);
    assert(paging::is_table(k.pg.mem.words@, k.pg.mem.seats@, root));
    lemma_share_at(&k0.fa, extra, k, root, root / 4096);
    assert(proc::goes_back(k, root, root / 4096));
    assert forall|j: int|
        0 <= j < frames::FRAME_COUNT && #[trigger] extra.contains(j) implies !frames::used(
        k0.fa.map@,
        j,
    ) by {
        lemma_share_at(&k0.fa, extra, k, root, j);
    }
}

/// The processes from before stand as they were.
pub proof fn lemma_solo_kept(k0: &Kernel, k: &Kernel, pid: u64, extra: Set<int>)
    requires
        solo_up(k0, k, pid, extra),
    ensures
        proc::kept(&k0.procs, &k.procs),
{
    reveal(solo_up);
    reveal(settles);
}

pub proof fn lemma_share_at(base: &FrameAllocator, extra: Set<int>, k: &Kernel, root: int, j: int)
    requires
        one_account(base, extra, k, root),
        0 <= j < frames::FRAME_COUNT,
    ensures
        share(base, extra, k, root, j),
{
    reveal(one_account);
}

/// What making one process comes to.
pub open spec fn one_answer(k: &Kernel) -> Result<(), &'static str> {
    if k.fa.available() < 1 {
        Err("frame exhaustion: no PML4 root for a process")
    } else if proc::full(k.procs.slots@) {
        Err("process table full (MAX_PROCESSES)")
    } else {
        Ok(())
    }
}

/// The process `pid` was just added: its root is bare and its capability space
/// empty.
pub open spec fn fresh_solo(k0: &Kernel, k: &Kernel, pid: u64) -> bool {
    &&& solo_up(k0, k, pid, Set::empty())
    &&& pid == k0.procs.next_pid
    &&& k.procs.next_pid == k0.procs.next_pid + 1
    &&& accounts::bare(k, accounts::root_of(k, pid))
    &&& accounts::sees_kernel(k, accounts::root_of(k, pid))
    &&& forall|v: int|
        USER_PAGES <= v < PAGES ==> #[trigger] paging::chain(
            k.pg.mem.words@,
            accounts::root_of(k, pid),
            v,
        ) == paging::chain(k.pg.mem.words@, k.pg.kernel_root as int, v)
    &&& k.pg.kernel_root == k0.pg.kernel_root
    &&& k.pg.apic_base == k0.pg.apic_base
    &&& cap::slots_of(&k.procs, pid) == Some(m3::blank_space())
    &&& k.fa.available() == k0.fa.available() - 1
}

#[verifier::spinoff_prover]
proof fn lemma_fresh(k0: &Kernel, k: &Kernel, pid: u64, name: &'static str)
    requires
        k0.wf(),
        k.wf(),
        m3::live_root_stands(k0),
        pid == k0.procs.next_pid,
        proc::created(k0, k, name),
        k.pg.live_root == k0.pg.live_root,
        k.pg.kernel_root == k0.pg.kernel_root,
        k.pg.apic_base == k0.pg.apic_base,
    ensures
        fresh_solo(k0, k, pid),
{
    accounts::lemma_created(k0, k, name);
    accounts::lemma_bare_created(k0, k, name);
    accounts::law_created_sees_kernel(*k0, *k, name, k0.pg.kernel_root as int);
    assert forall|v: int| USER_PAGES <= v < PAGES implies #[trigger] paging::chain(
        k.pg.mem.words@,
        accounts::root_of(k, pid),
        v,
    ) == paging::chain(k.pg.mem.words@, k.pg.kernel_root as int, v) by {
        accounts::law_created_shares_walks(*k0, *k, name, v);
    }
    let root = accounts::root_of(k, pid);
    let i = proc::find(k.procs.slots@, pid)->0;
    let s0 = k0.procs.slots@;
    let s = k.procs.slots@;
    proc::lemma_find_bounds(s, pid);
    proc::lemma_find_bounds(s0, pid);
    assert(s[i] is Some);
    accounts::lemma_tidy_bare(k, root);
    assert(one_account(&k0.fa, Set::empty(), k, root)) by {
        reveal(one_account);
        assert forall|j: int| 0 <= j < frames::FRAME_COUNT implies #[trigger] share(
            &k0.fa,
            Set::empty(),
            k,
            root,
            j,
        ) by {
            pairs::lemma_bare_back(k, root, j);
            if j * 4096 == root {
                assert(!k0.fa.in_use(root));
            } else {
                assert(j != root / 4096);
                assert(frames::used(k.fa.map@, j) == frames::used(k0.fa.map@, j));
            }
        }
    }
    assert(settles(k0, k, pid)) by {
        reveal(settles);
        proc::lemma_kept_created(k0, k, name);
        if let Some(x) = proc::find(s0, pid) {
            assert(s0[x] is Some && s0[x]->0.id < k0.procs.next_pid);
        }
        assert forall|j: int| 0 <= j < s0.len() implies #[trigger] settled_slot(
            s0,
            s,
            proc::find(s, pid),
            j,
        ) by {
            if proc::find(s, pid) != Some(j) {
                assert(s[j] == s0[j]);
            }
        }
        assert forall|q: u64| q != pid implies #[trigger] cap::slots_of(&k.procs, q)
            == cap::slots_of(&k0.procs, q) by {
            assert(proc::find(s, q) == proc::find(s0, q));
            proc::lemma_find_bounds(s0, q);
            if let Some(x) = proc::find(s0, q) {
                assert(s[x] == s0[x]);
            }
        }
    }
    assert(cap::slots_of(&k.procs, pid)->0 =~= m3::blank_space());
    assert(k0.pg.mem.seats@.dom().contains(k0.pg.live_root as int));
    reveal(solo_up);
}

/// Make one process.
pub(crate) fn open_solo(k: &mut Kernel, name: &'static str) -> (r: Result<u64, &'static str>)
    requires
        old(k).wf(),
        old(k).procs.next_pid < u64::MAX,
        m3::live_root_stands(old(k)),
    ensures
        final(k).wf(),
        proc::kept(&old(k).procs, &final(k).procs),
        rest::kept(old(k), final(k)),
        match one_answer(old(k)) {
            Err(e) => r == Err::<u64, &'static str>(e),
            Ok(_) => r matches Ok(pid) && fresh_solo(old(k), final(k), pid) && proc::entered(
                &final(k).procs,
                pid,
                name,
            ),
        },
{
    let ghost k0 = *k;
    let r = proc::create(k, name);
    proof {
        if let Ok(pid) = r {
            lemma_fresh(&k0, k, pid, name);
            m3::lemma_entered(&k0, k, name);
            proc::lemma_kept_created(&k0, k, name);
        }
    }
    r
}

/// A charge to the process keeps it up.
#[verifier::spinoff_prover]
pub proof fn lemma_solo_charge(k0: &Kernel, k: &Kernel, k1: &Kernel, pid: u64, extra: Set<int>)
    requires
        solo_up(k0, k, pid, extra),
        pairs::charged_step(k, k1, accounts::root_of(k, pid)),
    ensures
        solo_up(k0, k1, pid, extra),
{
    reveal(solo_up);
    let root = accounts::root_of(k, pid);
    assert(one_account(&k0.fa, extra, k1, root)) by {
        reveal(one_account);
        reveal(accounts::charged);
        assert forall|j: int| 0 <= j < frames::FRAME_COUNT implies #[trigger] share(
            &k0.fa,
            extra,
            k1,
            root,
            j,
        ) by {
            assert(share(&k0.fa, extra, k, root, j));
        }
    }
    assert(settles(k0, k1, pid)) by {
        reveal(settles);
    }
    assert(k.pg.mem.seats@.dom().contains(root));
}

/// New capabilities keep the process up.
pub proof fn lemma_solo_caps(k0: &Kernel, k: &Kernel, k1: &Kernel, pid: u64, extra: Set<int>)
    requires
        solo_up(k0, k, pid, extra),
        k1.procs.wf(),
        k1.pg == k.pg,
        k1.fa == k.fa,
        m3::only_caps(&k.procs, &k1.procs),
        forall|q: u64|
            q != pid ==> #[trigger] cap::slots_of(&k1.procs, q) == cap::slots_of(&k.procs, q),
    ensures
        solo_up(k0, k1, pid, extra),
        accounts::root_of(k1, pid) == accounts::root_of(k, pid),
{
    reveal(solo_up);
    let s0 = k0.procs.slots@;
    let s = k.procs.slots@;
    let s1 = k1.procs.slots@;
    m3::lemma_only_caps_kernel(k, k1);
    m3::lemma_only_caps_find(&k.procs, &k1.procs, pid);
    proc::lemma_find_bounds(s, pid);
    let i = proc::find(s, pid)->0;
    assert(s1[i] is Some);
    let root = accounts::root_of(k, pid);
    pairs::lemma_same_tidy(k, k1, root);
    assert(one_account(&k0.fa, extra, k1, root)) by {
        reveal(one_account);
        assert forall|j: int| 0 <= j < frames::FRAME_COUNT implies #[trigger] share(
            &k0.fa,
            extra,
            k1,
            root,
            j,
        ) by {
            assert(share(&k0.fa, extra, k, root, j));
            assert(proc::goes_back(k1, root, j) == proc::goes_back(k, root, j));
        }
    }
    assert(settles(k0, k1, pid)) by {
        reveal(settles);
        m3::lemma_kept_caps(&k0.procs, &k.procs, &k1.procs, pid, pid);
        assert forall|j: int| 0 <= j < s0.len() implies #[trigger] settled_slot(
            s0,
            s1,
            proc::find(s1, pid),
            j,
        ) by {
            assert(settled_slot(s0, s, proc::find(s, pid), j));
            assert(s1[j] is Some <==> s[j] is Some);
        }
        assert forall|q: u64| q != pid implies #[trigger] cap::slots_of(&k1.procs, q)
            == cap::slots_of(&k0.procs, q) by {
            assert(cap::slots_of(&k.procs, q) == cap::slots_of(&k0.procs, q));
        }
    }
}

/// A frame taken beside the process keeps it up.
pub proof fn lemma_solo_extra(
    k0: &Kernel,
    k: &Kernel,
    k1: &Kernel,
    pid: u64,
    extra: Set<int>,
    f: int,
)
    requires
        solo_up(k0, k, pid, extra),
        k1.wf(),
        k1.procs == k.procs,
        k1.pg == k.pg,
        k1.fa.same_pool(&k.fa),
        frames::took(&k.fa, &k1.fa, f),
    ensures
        solo_up(k0, k1, pid, extra.insert(f / 4096)),
{
    reveal(solo_up);
    let root = accounts::root_of(k, pid);
    assert(paging::is_table(k.pg.mem.words@, k.pg.mem.seats@, root));
    assert(pairs::untouched(k, k1, root));
    assert(one_account(&k0.fa, extra.insert(f / 4096), k1, root)) by {
        reveal(one_account);
        assert forall|j: int| 0 <= j < frames::FRAME_COUNT implies #[trigger] share(
            &k0.fa,
            extra.insert(f / 4096),
            k1,
            root,
            j,
        ) by {
            pairs::lemma_untouched_back(k, k1, root, j);
            assert(share(&k0.fa, extra, k, root, j));
            if j != f / 4096 {
                assert(frames::used(k1.fa.map@, j) == frames::used(k.fa.map@, j));
            } else {
                assert(!k.fa.in_use(f));
                assert(k1.fa.in_use(f));
            }
        }
    }
    assert(settles(k0, k1, pid)) by {
        reveal(settles);
    }
    pairs::lemma_tidy_took(k, k1, root, f);
}

/// A frame beside the process that is mapped in it is its own from then on.
#[verifier::spinoff_prover]
pub proof fn lemma_solo_adopt(
    k0: &Kernel,
    k: &Kernel,
    k1: &Kernel,
    pid: u64,
    extra: Set<int>,
    va: u64,
    f: u64,
    writable: bool,
    exec: bool,
)
    requires
        solo_up(k0, k, pid, extra),
        extra.contains(f as int / 4096),
        pairs::adopted(k, k1, accounts::root_of(k, pid), va, f, writable, exec),
    ensures
        solo_up(k0, k1, pid, extra.remove(f as int / 4096)),
{
    reveal(solo_up);
    let root = accounts::root_of(k, pid);
    let fj = f as int / 4096;
    let less = extra.remove(fj);
    assert(paging::is_table(k.pg.mem.words@, k.pg.mem.seats@, root));
    assert(frames::used(k.fa.map@, fj));
    lemma_share_at(&k0.fa, extra, k, root, fj);
    pairs::lemma_adopted_tidy(k, k1, root, va, f, writable, exec);
    assert(one_account(&k0.fa, less, k1, root)) by {
        reveal(one_account);
        assert forall|j: int| 0 <= j < frames::FRAME_COUNT implies #[trigger] share(
            &k0.fa,
            less,
            k1,
            root,
            j,
        ) by {
            assert(share(&k0.fa, extra, k, root, j));
            pairs::lemma_adopted_back(k, k1, root, va, f, writable, exec, j);
        }
    }
    assert(settles(k0, k1, pid)) by {
        reveal(settles);
    }
}

/// Bytes written to a frame that is no table keep the process up.
pub proof fn lemma_solo_write(
    k0: &Kernel,
    k: &Kernel,
    k1: &Kernel,
    pid: u64,
    extra: Set<int>,
    f: int,
)
    requires
        solo_up(k0, k, pid, extra),
        k1.procs == k.procs,
        k1.fa == k.fa,
        k1.pg.live_root == k.pg.live_root,
        k1.pg.kernel_root == k.pg.kernel_root,
        k1.pg.mem.seats@ == k.pg.mem.seats@,
        window::only_frame(k.pg.mem.words@, k1.pg.mem.words@, f),
        f % 4096 == 0,
        f >= 0,
        !k.pg.mem.seats@.dom().contains(f),
    ensures
        solo_up(k0, k1, pid, extra),
        forall|r: int, v: int|
            paging::is_root(k.pg.mem.seats@, r) && 0 <= v < paging::PAGES
                ==> #[trigger] paging::leaf(k1.pg.mem.words@, r, v) == paging::leaf(
                k.pg.mem.words@,
                r,
                v,
            ),
{
    reveal(solo_up);
    let root = accounts::root_of(k, pid);
    paging::lemma_apart(k.pg.mem.words@, k1.pg.mem.words@, k.pg.mem.seats@, f);
    proc::lemma_grown_kernel(k, k1);
    assert(paging::is_table(k.pg.mem.words@, k.pg.mem.seats@, root));
    assert(pairs::untouched(k, k1, root));
    assert(one_account(&k0.fa, extra, k1, root)) by {
        reveal(one_account);
        assert forall|j: int| 0 <= j < frames::FRAME_COUNT implies #[trigger] share(
            &k0.fa,
            extra,
            k1,
            root,
            j,
        ) by {
            pairs::lemma_untouched_back(k, k1, root, j);
            assert(share(&k0.fa, extra, k, root, j));
        }
    }
    assert(settles(k0, k1, pid)) by {
        reveal(settles);
    }
    pairs::lemma_tidy_written(k, k1, root);
}

proof fn lemma_settled(k0: &Kernel, k1: &Kernel, k2: &Kernel, pid: u64)
    requires
        k1.wf(),
        k2.wf(),
        settles(k0, k1, pid),
        proc::find(k1.procs.slots@, pid) is Some,
        proc::removed(k1, k2, proc::find(k1.procs.slots@, pid)->0),
    ensures
        m3::same_processes(&k0.procs, &k2.procs),
        proc::kept(&k0.procs, &k2.procs),
{
    reveal(settles);
    let s0 = k0.procs.slots@;
    let s1 = k1.procs.slots@;
    let s2 = k2.procs.slots@;
    let a = proc::find(s1, pid)->0;
    proc::lemma_find_bounds(s1, pid);
    proc::lemma_kept_removed(&k0.procs, k1, k2, a);
    assert forall|j: int| 0 <= j < s0.len() implies {
        &&& #[trigger] s2[j] is Some <==> s0[j] is Some
        &&& s0[j] matches Some(p) ==> s2[j]->0.same_but_caps(&p)
    } by {
        assert(settled_slot(s0, s1, Some(a), j));
        if j != a {
            assert(s2[j] == s1[j]);
        }
    }
    assert forall|q: u64| #[trigger] cap::slots_of(&k2.procs, q) == cap::slots_of(
        &k0.procs,
        q,
    ) by {
        if q != pid {
            m3::lemma_without(k1, k2, pid, q);
            assert(cap::slots_of(&k1.procs, q) == cap::slots_of(&k0.procs, q));
        } else {
            m3::lemma_without(k1, k2, pid, if pid == 0 { 1u64 } else { 0u64 });
        }
    }
}

/// Tear the process down. What was taken beside it stays.
#[verifier::spinoff_prover]
#[verifier::rlimit(40)]
pub(crate) fn drop_solo(
    k: &mut Kernel,
    pid: u64,
    Ghost(extra): Ghost<Set<int>>,
) -> (r: Result<u64, &'static str>)
    requires
        exists|b: Kernel| #[trigger] solo_up(&b, old(k), pid, extra),
    ensures
        r is Ok,
        final(k).wf(),
        final(k).procs.next_pid == old(k).procs.next_pid,
        final(k).procs.created == old(k).procs.created,
        proc::find(final(k).procs.slots@, pid) is None,
        forall|t: int| #[trigger] final(k).pg.mem.seats@.dom().contains(t) ==> old(
            k,
        ).pg.mem.seats@.dom().contains(t),
        final(k).pg.mem.words@.len() == old(k).pg.mem.words@.len(),
        rest::kept_but(
            old(k),
            final(k),
            Set::empty().insert(accounts::root_of(old(k), pid)),
            rest::free_in(final(k)),
        ),
        forall|b: Kernel| #[trigger]
            solo_up(&b, old(k), pid, extra) ==> pairs::left_over(&b, final(k), extra),
{
    let ghost k1 = *k;
    let ghost root = accounts::root_of(&k1, pid);
    let ghost c = choose|b: Kernel| #[trigger] solo_up(&b, &k1, pid, extra);
    proof {
        reveal(solo_up);
        assert(solo_up(&c, &k1, pid, extra));
        assert(paging::no_table_mapped(&k1.pg.mem, &k1.fa, root)) by {
            reveal(accounts::tidy);
        }
        assert(paging::sole_below(&k1.pg.mem, &k1.fa, root, USER_PAGES as int)) by {
            reveal(accounts::tidy);
        }
        proc::lemma_find_bounds(k1.procs.slots@, pid);
    }
    let live: u64 = crate::views::cr3_phys(&k.pg);
    let r = proc::destroy(k, pid, live);
    proof {
        m3::lemma_without(&k1, k, pid, if pid == 0 { 1u64 } else { 0u64 });
        assert forall|b: Kernel| #[trigger] solo_up(&b, &k1, pid, extra) implies pairs::left_over(
            &b,
            k,
            extra,
        ) by {
            lemma_settled(&b, &k1, k, pid);
            assert forall|j: int| 0 <= j < frames::FRAME_COUNT implies #[trigger] frames::used(
                k.fa.map@,
                j,
            ) == (frames::used(b.fa.map@, j) || extra.contains(j)) by {
                lemma_share_at(&b.fa, extra, &k1, root, j);
            }
        }
    }
    r
}

/// With nothing beside it, tearing the process down leaves the pool as it was.
pub proof fn lemma_nothing_left(b: &Kernel, k: &Kernel)
    requires
        pairs::left_over(b, k, Set::empty()),
    ensures
        accounts::same_frames(&b.fa, &k.fa),
{
    assert forall|j: int| 0 <= j < frames::FRAME_COUNT implies #[trigger] frames::used(k.fa.map@, j)
        == frames::used(b.fa.map@, j) by {
        assert(frames::used(k.fa.map@, j) == (frames::used(b.fa.map@, j)
            || Set::<int>::empty().contains(j)));
    }
    accounts::lemma_same_count(k.fa.map@, b.fa.map@, frames::FRAME_COUNT as int);
}

/// Giving back the one frame beside it leaves the pool as it was.
pub proof fn lemma_frame_back(b: &Kernel, k2: &Kernel, k3: &Kernel, c: int)
    requires
        0 <= c < frames::FRAME_COUNT,
        !frames::used(b.fa.map@, c),
        pairs::left_over(b, k2, Set::empty().insert(c)),
        k3.procs == k2.procs,
        k3.fa.same_pool(&k2.fa),
        frames::gave_back(&k2.fa, &k3.fa, c * 4096),
    ensures
        accounts::same_frames(&b.fa, &k3.fa),
        m3::same_processes(&b.procs, &k3.procs),
        proc::kept(&b.procs, &k3.procs),
{
    assert forall|j: int| 0 <= j < frames::FRAME_COUNT implies #[trigger] frames::used(
        k3.fa.map@,
        j,
    ) == frames::used(b.fa.map@, j) by {
        assert(frames::used(k2.fa.map@, j) == (frames::used(b.fa.map@, j)
            || Set::empty().insert(c).contains(j)));
    }
    accounts::lemma_same_count(k3.fa.map@, b.fa.map@, frames::FRAME_COUNT as int);
}

} // verus!

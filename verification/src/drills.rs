//! Drills on two processes: that their user halves are apart and their kernel
//! half is shared, and that a capability maps memory where it says.

use vstd::prelude::*;
use crate::accounts;
use crate::cap;
use crate::cap::{Cap, CapObj, CAP_SLOTS, RIGHTS_ALL, RIGHTS_COPY, RIGHTS_WRITE};
use crate::elf;
use crate::frames;
use crate::kernel::Kernel;
use crate::m3;
use crate::paging;
use crate::paging::{PAGES, USER_PAGES};
use crate::pairs;
use crate::proc;
use crate::proc::ProcTable;
use crate::rest;
use crate::verdicts::P10_HOLE_VA;
use crate::views;
use crate::window;

verus! {

/// The page that each of two processes maps for itself.
pub const P10_VA: u64 = 0x41_0000;

/// A frame in use that is no table, lies in memory and is one of the pool.
pub open spec fn spare(k: &Kernel, f: int) -> bool {
    &&& f % 4096 == 0
    &&& 0 <= f < frames::PHYS_LIMIT
    &&& k.fa.in_use(f)
    &&& k.fa.managed(f)
    &&& !k.pg.mem.seats@.dom().contains(f)
    &&& f / 8 + 512 <= k.pg.mem.words@.len()
}

pub proof fn lemma_kernel_took(pre: &Kernel, post: &Kernel, f: int)
    requires
        pre.wf(),
        post.fa.wf(),
        post.fa.same_pool(&pre.fa),
        post.pg == pre.pg,
        post.procs == pre.procs,
        frames::took(&pre.fa, &post.fa, f),
    ensures
        post.wf(),
        spare(post, f),
{
    let c = f / 4096;
    assert(c * 4096 == f);
    assert(!frames::used(pre.fa.map@, c));
    assert(!frames::used(pre.fa.origin@, c));
    assert forall|j: int| 0 <= j < frames::FRAME_COUNT && !#[trigger] frames::used(
        post.fa.map@,
        j,
    ) implies (j + 1) * 512 <= post.pg.mem.words@.len() by {
        assert(!frames::used(pre.fa.map@, j));
    }
    assert forall|t: int| #[trigger] post.pg.mem.seats@.dom().contains(t) implies post.fa.in_use(
        t,
    ) && t != f by {
        assert(pre.fa.in_use(t));
        assert(paging::is_table(pre.pg.mem.words@, pre.pg.mem.seats@, t));
    }
}

/// Take a frame while two processes stand. None if none is left.
pub(crate) fn take_beside(
    k: &mut Kernel,
    pa: u64,
    pb: u64,
    Ghost(k0): Ghost<Kernel>,
    Ghost(extra): Ghost<Set<int>>,
) -> (r: Option<u64>)
    requires
        pairs::pair_up(&k0, old(k), pa, pb, extra),
        rest::kept(&k0, old(k)),
    ensures
        final(k).wf(),
        final(k).pg == old(k).pg,
        final(k).procs == old(k).procs,
        rest::kept(&k0, final(k)),
        r is None <==> old(k).fa.available() == 0,
        r is None ==> *final(k) == *old(k),
        r matches Some(f) ==> {
            &&& pairs::pair_up(&k0, final(k), pa, pb, extra.insert(f as int / 4096))
            &&& spare(final(k), f as int)
            &&& !old(k).fa.in_use(f as int)
            &&& !frames::used(k0.fa.map@, f as int / 4096)
            &&& final(k).fa.same_pool(&old(k).fa)
            &&& forall|j: int|
                0 <= j < frames::FRAME_COUNT && #[trigger] frames::used(old(k).fa.map@, j)
                    ==> frames::used(final(k).fa.map@, j)
            &&& final(k).fa.available() == old(k).fa.available() - 1
        },
{
    proof {
        pairs::lemma_pair_facts(&k0, k, pa, pb, extra);
    }
    let ghost k1 = *k;
    let r = frames::alloc_frame(&mut k.fa);
    proof {
        if let Some(f) = r {
            assert(!frames::used(k1.fa.map@, f as int / 4096));
            lemma_kernel_took(&k1, k, f as int);
            pairs::lemma_pair_extra(&k0, &k1, k, pa, pb, extra, f as int);
            rest::lemma_was_free(&k0, &k1, f as int / 4096);
            rest::lemma_took(&k1, k);
            rest::lemma_kept_kept(&k0, &k1, k);
        }
    }
    r
}

/// A spare frame stays one while another is taken.
pub proof fn lemma_spare_taken(k: &Kernel, k1: &Kernel, f: int)
    requires
        spare(k, f),
        k1.pg == k.pg,
        k1.fa.same_pool(&k.fa),
        forall|j: int|
            0 <= j < frames::FRAME_COUNT && #[trigger] frames::used(k.fa.map@, j) ==> frames::used(
                k1.fa.map@,
                j,
            ),
    ensures
        spare(k1, f),
{
    assert(frames::used(k.fa.map@, f / 4096));
}

/// Map the frame `f` for the first of two processes, to be read and written.
/// False if the frames run out.
#[verifier::spinoff_prover]
fn adopt(
    k: &mut Kernel,
    pa: u64,
    pb: u64,
    va: u64,
    f: u64,
    Ghost(k0): Ghost<Kernel>,
    Ghost(extra): Ghost<Set<int>>,
) -> (r: bool)
    requires
        k0.wf(),
        pairs::pair_up(&k0, old(k), pa, pb, extra),
        rest::kept(&k0, old(k)),
        spare(old(k), f as int),
        extra.contains(f as int / 4096),
        va % 4096 == 0,
        va < paging::USER_HALF_LIMIT,
        paging::leaf(
            old(k).pg.mem.words@,
            accounts::root_of(old(k), pa),
            va as int / 4096,
        ) is None,
    ensures
        final(k).wf(),
        final(k).procs == old(k).procs,
        rest::kept(&k0, final(k)),
        r == (old(k).fa.available() >= paging::missing(
            old(k).pg.mem.words@,
            accounts::root_of(old(k), pa),
            va as int / 4096,
        )),
        r ==> pairs::pair_up(&k0, final(k), pa, pb, extra.remove(f as int / 4096)),
        r ==> pairs::adopted(
            old(k),
            final(k),
            accounts::root_of(old(k), pa),
            va,
            f,
            true,
            false,
        ),
{
    let ghost k1 = *k;
    proof {
        pairs::lemma_pair_facts(&k0, k, pa, pb, extra);
        proc::lemma_find_bounds(k1.procs.slots@, pa);
        frames::lemma_free_bounds(k1.fa.map@, frames::FRAME_COUNT as int);
    }
    let root: u64 = match proc::pml4_of(&k.procs, pa) {
        None => {
            return false;
        },
        Some(x) => x,
    };
    let ok: bool = proc::map_one(k, root, va, f, true, false);
    proof {
        pairs::lemma_pair_new(&k0, &k1, pa, pb, extra);
        rest::lemma_edited(&k1, k, root as int);
        rest::lemma_mine(&k0, &k1, k, root as int);
        if ok {
            pairs::lemma_pair_adopt(&k0, &k1, k, pa, pb, extra, va, f, true, false);
        }
    }
    ok
}

/// What a process holds stays bare while another is edited.
pub proof fn lemma_bare_beside(k: &Kernel, k1: &Kernel, ra: int, rb: int)
    requires
        k.wf(),
        pairs::root_step(k, k1, ra),
        ra != rb,
        views::process_root(&k.pg.mem, k.pg.kernel_root as int, rb),
        accounts::bare(k, rb),
    ensures
        accounts::bare(k1, rb),
{
    pairs::lemma_other_untouched(k, k1, ra, rb);
    assert forall|t: int| #[trigger]
        k1.pg.mem.seats@.dom().contains(t) && k1.pg.mem.seats@[t].owner == rb implies t == rb by {
        assert(accounts::owns_table(&k1.pg.mem, rb, t));
    }
}

/// A spare frame stays one while pages are mapped, unless it becomes a table.
pub proof fn lemma_spare_kept(k: &Kernel, k1: &Kernel, root: int, f: int)
    requires
        spare(k, f),
        pairs::root_step(k, k1, root),
        k1.pg.mem.words@.len() == k.pg.mem.words@.len(),
    ensures
        spare(k1, f),
{
    assert(frames::used(k.fa.map@, f / 4096));
    assert(f / 4096 < frames::FRAME_COUNT);
    assert(frames::used(k1.fa.map@, f / 4096));
}

/// Two processes stand, each with a page of its own at the same address, and
/// nothing at the hole.
pub open spec fn two_pages(
    k0: &Kernel,
    k: &Kernel,
    pa: u64,
    pb: u64,
    fa: u64,
    fb: u64,
) -> bool {
    let ra = accounts::root_of(k, pa);
    let rb = accounts::root_of(k, pb);
    &&& pairs::pair_up(k0, k, pa, pb, Set::empty())
    &&& spare(k, fa as int)
    &&& spare(k, fb as int)
    &&& fa != fb
    &&& paging::leaf(k.pg.mem.words@, ra, 0x410) == Some(paging::user_entry(fa, true, false))
    &&& paging::leaf(k.pg.mem.words@, rb, 0x410) == Some(paging::user_entry(fb, true, false))
    &&& paging::leaf(k.pg.mem.words@, ra, 0x500) is None
    &&& accounts::sees_kernel(k, ra)
    &&& accounts::sees_kernel(k, rb)
}

/// Each of two processes keeps its own page while the other's is mapped.
proof fn lemma_two_leaves(k4: &Kernel, k5: &Kernel, k6: &Kernel, ra: int, rb: int, fa: u64, fb: u64)
    requires
        k4.wf(),
        k5.wf(),
        ra != rb,
        views::process_root(&k4.pg.mem, k4.pg.kernel_root as int, ra),
        views::process_root(&k4.pg.mem, k4.pg.kernel_root as int, rb),
        views::process_root(&k5.pg.mem, k5.pg.kernel_root as int, ra),
        views::process_root(&k5.pg.mem, k5.pg.kernel_root as int, rb),
        fa % 4096 == 0,
        fb % 4096 == 0,
        pairs::adopted(k4, k5, ra, P10_VA, fa, true, false),
        pairs::adopted(k5, k6, rb, P10_VA, fb, true, false),
        paging::leaf(k4.pg.mem.words@, ra, 0x500) is None,
    ensures
        paging::leaf(k6.pg.mem.words@, ra, 0x410) == Some(paging::user_entry(fa, true, false)),
        paging::leaf(k6.pg.mem.words@, rb, 0x410) == Some(paging::user_entry(fb, true, false)),
        paging::leaf(k6.pg.mem.words@, ra, 0x500) is None,
{
    paging::lemma_user_entry(fa);
    paging::lemma_user_entry(fb);
    assert(paging::owner_of(k5.pg.mem.seats@[ra], 0x410) != rb);
    assert(paging::owner_of(k5.pg.mem.seats@[ra], 0x500) != rb);
    assert(paging::leaf(k6.pg.mem.words@, ra, 0x410) == paging::leaf(k5.pg.mem.words@, ra, 0x410));
    assert(paging::leaf(k5.pg.mem.words@, ra, 0x500) == paging::leaf(k4.pg.mem.words@, ra, 0x500));
    assert(paging::leaf(k6.pg.mem.words@, ra, 0x500) == paging::leaf(k5.pg.mem.words@, ra, 0x500));
}

/// What opening the two processes comes to.
pub open spec fn spaces_answer(k: &Kernel) -> Result<(), &'static str> {
    let n = k.fa.available();
    match m3::two_and(k, 0, "") {
        Err(e) => Err(e),
        Ok(_) => if n < 3 {
            Err("frame exhaustion (procA page)")
        } else if n < 4 {
            Err("frame exhaustion (procB page)")
        } else if n < 7 {
            Err("procA map failed")
        } else if n < 10 {
            Err("procB map failed")
        } else {
            Ok(())
        },
    }
}

#[verifier::spinoff_prover]
#[verifier::rlimit(60)]
fn open_spaces(k: &mut Kernel) -> (r: Result<(u64, u64, u64, u64), &'static str>)
    requires
        old(k).wf(),
        old(k).procs.next_pid < u64::MAX - 1,
        m3::live_root_stands(old(k)),
    ensures
        final(k).wf(),
        proc::kept(&old(k).procs, &final(k).procs),
        rest::kept(old(k), final(k)),
        match spaces_answer(old(k)) {
            Err(e) => r == Err::<(u64, u64, u64, u64), &'static str>(e),
            Ok(_) => r matches Ok((pa, pb, fa, fb)) && two_pages(old(k), final(k), pa, pb, fa, fb)
                && !frames::used(old(k).fa.map@, fa as int / 4096) && !frames::used(
                old(k).fa.map@,
                fb as int / 4096,
            ) && final(k).procs.next_pid == old(k).procs.next_pid + 2,
        },
{
    let ghost k0 = *k;
    let (pa, pb) = match pairs::open_pair(k, "procA", "procB") {
        Err(e) => {
            return Err(e);
        },
        Ok(p) => p,
    };
    let ghost k2 = *k;
    let ghost ra = accounts::root_of(&k2, pa);
    let ghost rb = accounts::root_of(&k2, pb);
    let ghost none = Set::<int>::empty();
    proof {
        pairs::lemma_pair_up(&k0, &k2, pa, pb);
        pairs::lemma_pair_facts(&k0, &k2, pa, pb, none);
        proc::lemma_find_bounds(k2.procs.slots@, pa);
        proc::lemma_find_bounds(k2.procs.slots@, pb);
    }
    let at_a: u64 = match proc::pml4_of(&k.procs, pa) {
        None => {
            return Err("procA's PML4 vanished");
        },
        Some(x) => x,
    };
    let at_b: u64 = match proc::pml4_of(&k.procs, pb) {
        None => {
            return Err("procB's PML4 vanished");
        },
        Some(x) => x,
    };
    let kview: u64 = views::kernel_cr3_phys(&k.pg);
    if at_a == at_b || at_a == kview || at_b == kview {
        return Err("process roots are not distinct owned PML4s");
    }
    let fa: u64 = match take_beside(k, pa, pb, Ghost(k0), Ghost(none)) {
        None => {
            return Err("frame exhaustion (procA page)");
        },
        Some(f) => f,
    };
    let ghost k3 = *k;
    let ghost one = none.insert(fa as int / 4096);
    let fb: u64 = match take_beside(k, pa, pb, Ghost(k0), Ghost(one)) {
        None => {
            return Err("frame exhaustion (procB page)");
        },
        Some(f) => f,
    };
    let ghost k4 = *k;
    let ghost two = one.insert(fb as int / 4096);
    proof {
        assert(fa / 4096 * 4096 == fa && fb / 4096 * 4096 == fb);
        assert(frames::used(k3.fa.map@, fa as int / 4096));
        assert(fa != fb);
        pairs::lemma_pair_facts(&k0, &k4, pa, pb, two);
        accounts::lemma_bare_missing(&k2, ra, 0x410);
        accounts::lemma_bare_missing(&k2, rb, 0x410);
        assert(frames::used(k3.fa.map@, fa as int / 4096));
        assert(spare(&k4, fa as int)) by {
            lemma_spare_taken(&k3, &k4, fa as int);
        }
    }
    if !adopt(k, pa, pb, P10_VA, fa, Ghost(k0), Ghost(two)) {
        return Err("procA map failed");
    }
    let ghost k5 = *k;
    let ghost left = two.remove(fa as int / 4096);
    proof {
        pairs::lemma_pair_facts(&k0, &k5, pa, pb, left);
        pairs::lemma_pair_swap(&k0, &k5, pa, pb, left);
        lemma_bare_beside(&k4, &k5, ra, rb);
        accounts::lemma_bare_missing(&k5, rb, 0x410);
        lemma_spare_kept(&k4, &k5, ra, fa as int);
        lemma_spare_kept(&k4, &k5, ra, fb as int);
        accounts::lemma_sees_edit(&k4, &k5, ra, ra);
        accounts::lemma_sees_edit(&k4, &k5, ra, rb);
        assert(left.contains(fb as int / 4096));
    }
    if !adopt(k, pb, pa, P10_VA, fb, Ghost(k0), Ghost(left)) {
        return Err("procB map failed");
    }
    proof {
        let end = left.remove(fb as int / 4096);
        assert(end =~= Set::<int>::empty());
        pairs::lemma_pair_swap(&k0, k, pb, pa, end);
        lemma_spare_kept(&k5, k, rb, fa as int);
        lemma_spare_kept(&k5, k, rb, fb as int);
        accounts::lemma_sees_edit(&k5, k, rb, ra);
        accounts::lemma_sees_edit(&k5, k, rb, rb);
        paging::lemma_user_entry(fa);
        paging::lemma_user_entry(fb);
        lemma_two_leaves(&k4, &k5, k, ra, rb, fa, fb);
    }
    Ok((pa, pb, fa, fb))
}

/// Fill a spare frame while two processes stand.
#[verifier::spinoff_prover]
fn fill_beside(
    k: &mut Kernel,
    pa: u64,
    pb: u64,
    f: u64,
    b: u8,
    Ghost(k0): Ghost<Kernel>,
    Ghost(extra): Ghost<Set<int>>,
)
    requires
        pairs::pair_up(&k0, old(k), pa, pb, extra),
        rest::kept(&k0, old(k)),
        spare(old(k), f as int),
        !frames::used(k0.fa.map@, f as int / 4096),
    ensures
        pairs::pair_up(&k0, final(k), pa, pb, extra),
        rest::kept(&k0, final(k)),
        rewritten(old(k), final(k), f as int),
        forall|i: int|
            0 <= i < 4096 ==> #[trigger] elf::mem_byte(final(k).pg.mem.words@, f + i) == b,
{
    let ghost k1 = *k;
    window::fill_frame(&mut k.pg.mem, f, b);
    proof {
        pairs::lemma_pair_facts(&k0, &k1, pa, pb, extra);
        pairs::lemma_pair_write(&k0, &k1, k, pa, pb, extra, f as int);
        rest::lemma_written(&k1, k, f as int);
        rest::lemma_frame(&k0, &k1, k, f as int);
    }
}

/// Only the frame `f` was written: every translation stands.
pub open spec fn rewritten(k: &Kernel, k1: &Kernel, f: int) -> bool {
    &&& k1.procs == k.procs
    &&& k1.fa == k.fa
    &&& k1.pg.live_root == k.pg.live_root
    &&& k1.pg.kernel_root == k.pg.kernel_root
    &&& k1.pg.apic_base == k.pg.apic_base
    &&& k1.pg.skipped_high == k.pg.skipped_high
    &&& k1.pg.mem.seats@ == k.pg.mem.seats@
    &&& window::only_frame(k.pg.mem.words@, k1.pg.mem.words@, f)
    &&& forall|r: int, v: int|
        paging::is_root(k.pg.mem.seats@, r) && 0 <= v < PAGES ==> #[trigger] paging::leaf(
            k1.pg.mem.words@,
            r,
            v,
        ) == paging::leaf(k.pg.mem.words@, r, v)
}

/// Writing a frame leaves the two processes' pages where they are.
proof fn lemma_pages_rewritten(
    k0: &Kernel,
    k: &Kernel,
    k1: &Kernel,
    pa: u64,
    pb: u64,
    fa: u64,
    fb: u64,
    f: int,
)
    requires
        two_pages(k0, k, pa, pb, fa, fb),
        rewritten(k, k1, f),
        pairs::pair_up(k0, k1, pa, pb, Set::empty()),
    ensures
        two_pages(k0, k1, pa, pb, fa, fb),
{
    pairs::lemma_pair_facts(k0, k, pa, pb, Set::empty());
    let ra = accounts::root_of(k, pa);
    let rb = accounts::root_of(k, pb);
    let kr = k.pg.kernel_root as int;
    assert forall|v: int| USER_PAGES <= v < PAGES implies #[trigger] paging::leaf(
        k1.pg.mem.words@,
        ra,
        v,
    ) == paging::leaf(k1.pg.mem.words@, kr, v) by {
        assert(paging::leaf(k.pg.mem.words@, ra, v) == paging::leaf(k.pg.mem.words@, kr, v));
    }
    assert forall|v: int| USER_PAGES <= v < PAGES implies #[trigger] paging::leaf(
        k1.pg.mem.words@,
        rb,
        v,
    ) == paging::leaf(k1.pg.mem.words@, kr, v) by {
        assert(paging::leaf(k.pg.mem.words@, rb, v) == paging::leaf(k.pg.mem.words@, kr, v));
    }
    assert(paging::leaf(k1.pg.mem.words@, ra, 0x410) == paging::leaf(k.pg.mem.words@, ra, 0x410));
    assert(paging::leaf(k1.pg.mem.words@, rb, 0x410) == paging::leaf(k.pg.mem.words@, rb, 0x410));
    assert(paging::leaf(k1.pg.mem.words@, ra, 0x500) == paging::leaf(k.pg.mem.words@, ra, 0x500));
}

/// A frame that was not written reads as before.
#[verifier::spinoff_prover]
#[verifier::rlimit(60)]
proof fn lemma_byte_kept(k: &Kernel, k1: &Kernel, f: int, g: int)
    requires
        rewritten(k, k1, f),
        f % 4096 == 0,
        spare(k, g),
        g != f,
    ensures
        elf::mem_byte(k1.pg.mem.words@, g) == elf::mem_byte(k.pg.mem.words@, g),
{
    let q = g / 8;
    assert(f / 4096 * 4096 == f && g / 4096 * 4096 == g);
    assert(!(f / 8 <= q < f / 8 + 512));
    assert(k1.pg.mem.words@[q] == k.pg.mem.words@[q]);
}

/// Write the byte at `va` of a process, as the process would.
#[verifier::spinoff_prover]
fn poke(
    k: &mut Kernel,
    pa: u64,
    pb: u64,
    va: u64,
    b: u8,
    Ghost(f): Ghost<u64>,
    Ghost(k0): Ghost<Kernel>,
    Ghost(extra): Ghost<Set<int>>,
) -> (r: bool)
    requires
        pairs::pair_up(&k0, old(k), pa, pb, extra),
        rest::kept(&k0, old(k)),
        spare(old(k), f as int),
        !frames::used(k0.fa.map@, f as int / 4096),
        va % 4096 == 0,
        va < paging::USER_HALF_LIMIT,
        paging::leaf(
            old(k).pg.mem.words@,
            accounts::root_of(old(k), pa),
            va as int / 4096,
        ) == Some(paging::user_entry(f, true, false)),
    ensures
        r,
        pairs::pair_up(&k0, final(k), pa, pb, extra),
        rest::kept(&k0, final(k)),
        rewritten(old(k), final(k), f as int),
        elf::mem_byte(final(k).pg.mem.words@, f as int) == b,
{
    let ghost k1 = *k;
    proof {
        pairs::lemma_pair_facts(&k0, k, pa, pb, extra);
        proc::lemma_find_bounds(k1.procs.slots@, pa);
        paging::lemma_user_entry(f);
    }
    let root: u64 = match proc::pml4_of(&k.procs, pa) {
        None => {
            return false;
        },
        Some(x) => x,
    };
    let at: u64 = match paging::translate(&k.pg.mem, root, va) {
        None => {
            return false;
        },
        Some(e) => e & paging::ADDR_MASK,
    };
    let data: [u8; 1] = [b];
    window::write_frame(&mut k.pg.mem, at, 0, &data);
    proof {
        assert(elf::mem_byte(k.pg.mem.words@, f + 0) == data@[0]);
        pairs::lemma_pair_write(&k0, &k1, k, pa, pb, extra, f as int);
        rest::lemma_written(&k1, k, f as int);
        rest::lemma_frame(&k0, &k1, k, f as int);
    }
    true
}

/// What `va` holds under the root of `pid`, or None.
fn look(k: &Kernel, pid: u64, va: u64) -> (r: Option<u8>)
    requires
        k.wf(),
        proc::find(k.procs.slots@, pid) is Some,
        va < paging::USER_HALF_LIMIT,
    ensures
        r == window::seen(k.pg.mem.words@, accounts::root_of(k, pid), va as int),
{
    proof {
        proc::lemma_find_bounds(k.procs.slots@, pid);
    }
    match proc::pml4_of(&k.procs, pid) {
        None => None,
        Some(root) => window::peek(&k.pg.mem, root, va),
    }
}

/// Whether `va` translates alike under the root of `pid` and the kernel's.
fn kernel_half_shared(k: &Kernel, pid: u64, va: u64) -> (r: bool)
    requires
        k.wf(),
        proc::find(k.procs.slots@, pid) is Some,
    ensures
        r == (paging::leaf(
            k.pg.mem.words@,
            accounts::root_of(k, pid),
            paging::page_no(va as int),
        ) == paging::leaf(
            k.pg.mem.words@,
            k.pg.kernel_root as int,
            paging::page_no(va as int),
        )),
{
    proof {
        proc::lemma_find_bounds(k.procs.slots@, pid);
    }
    match proc::pml4_of(&k.procs, pid) {
        None => false,
        Some(root) => {
            let a: Option<u64> = paging::translate(&k.pg.mem, root, va);
            let b: Option<u64> = paging::translate(&k.pg.mem, views::kernel_cr3_phys(&k.pg), va);
            match (a, b) {
                (None, None) => true,
                (Some(x), Some(y)) => x == y,
                _ => false,
            }
        },
    }
}

/// Try the two address spaces: each process sees its own page, a write through
/// one reaches only its own, both see the kernel, and the hole stays a hole.
#[verifier::spinoff_prover]
#[verifier::rlimit(60)]
fn try_spaces(
    k: &mut Kernel,
    pa: u64,
    pb: u64,
    fa: u64,
    fb: u64,
    khalf_va: u64,
    Ghost(k0): Ghost<Kernel>,
) -> (r: Result<(), &'static str>)
    requires
        two_pages(&k0, old(k), pa, pb, fa, fb),
        rest::kept(&k0, old(k)),
        !frames::used(k0.fa.map@, fa as int / 4096),
        !frames::used(k0.fa.map@, fb as int / 4096),
        paging::page_no(khalf_va as int) >= USER_PAGES,
    ensures
        final(k).wf(),
        final(k).procs == old(k).procs,
        r is Ok,
        two_pages(&k0, final(k), pa, pb, fa, fb),
        rest::kept(&k0, final(k)),
{
    let ghost none = Set::<int>::empty();
    let ghost k1 = *k;
    fill_beside(k, pa, pb, fa, 0xAA, Ghost(k0), Ghost(none));
    let ghost k2 = *k;
    proof {
        pairs::lemma_pair_facts(&k0, &k1, pa, pb, none);
        lemma_pages_rewritten(&k0, &k1, &k2, pa, pb, fa, fb, fa as int);
        assert(elf::mem_byte(k2.pg.mem.words@, fa + 0) == 0xAA);
    }
    fill_beside(k, pa, pb, fb, 0xBB, Ghost(k0), Ghost(none));
    let ghost k3 = *k;
    proof {
        pairs::lemma_pair_facts(&k0, &k2, pa, pb, none);
        lemma_pages_rewritten(&k0, &k2, &k3, pa, pb, fa, fb, fb as int);
        lemma_byte_kept(&k2, &k3, fb as int, fa as int);
        assert(elf::mem_byte(k3.pg.mem.words@, fb + 0) == 0xBB);
        pairs::lemma_pair_facts(&k0, &k3, pa, pb, none);
        window::lemma_stands_seen(
            k3.pg.mem,
            accounts::root_of(&k3, pa),
            P10_VA as int,
            fa,
            true,
            false,
            0,
        );
    }
    let a1: Option<u8> = look(k, pa, P10_VA);
    if !poke(k, pa, pb, P10_VA, 0x11, Ghost(fa), Ghost(k0), Ghost(none)) {
        return Err("procA's page does not carry procA's pattern");
    }
    proof {
        lemma_pages_rewritten(&k0, &k3, k, pa, pb, fa, fb, fa as int);
        lemma_byte_kept(&k3, k, fa as int, fb as int);
        pairs::lemma_pair_facts(&k0, k, pa, pb, none);
        window::lemma_stands_seen(
            k.pg.mem,
            accounts::root_of(k, pa),
            P10_VA as int,
            fa,
            true,
            false,
            0,
        );
        window::lemma_stands_seen(
            k.pg.mem,
            accounts::root_of(k, pb),
            P10_VA as int,
            fb,
            true,
            false,
            0,
        );
    }
    let b1: Option<u8> = look(k, pb, P10_VA);
    let a2: Option<u8> = look(k, pa, P10_VA);
    if a1 != Some(0xAAu8) {
        return Err("procA's page does not carry procA's pattern");
    }
    if b1 != Some(0xBBu8) {
        return Err("procB sees procA's page — user halves are NOT isolated");
    }
    if a2 != Some(0x11u8) {
        return Err("procA's write did not persist in its own page");
    }
    if !kernel_half_shared(k, pa, khalf_va) || !kernel_half_shared(k, pb, khalf_va) {
        return Err("cloned kernel half lost kernel .data under a process CR3");
    }
    if look(k, pa, P10_HOLE_VA).is_some() {
        return Err("unmapped user VA did not #PF under a process CR3");
    }
    Ok(())
}

/// Two processes map a page each at one address and see only their own; both
/// see the kernel's half at `khalf_va` as the kernel does, and neither sees an
/// address that it did not map. Afterwards every frame is back in the pool.
#[verifier::spinoff_prover]
pub fn test_process_address_spaces(k: &mut Kernel, khalf_va: u64) -> (r: Result<(), &'static str>)
    requires
        old(k).wf(),
        old(k).procs.next_pid < u64::MAX - 1,
        m3::live_root_stands(old(k)),
        paging::page_no(khalf_va as int) >= USER_PAGES,
    ensures
        final(k).wf(),
        proc::kept(&old(k).procs, &final(k).procs),
        rest::kept(old(k), final(k)),
        r == spaces_answer(old(k)),
        r is Ok ==> {
            &&& accounts::same_frames(&old(k).fa, &final(k).fa)
            &&& m3::same_processes(&old(k).procs, &final(k).procs)
            &&& final(k).procs.next_pid == old(k).procs.next_pid + 2
            &&& final(k).procs.created == old(k).procs.created + 2
        },
{
    let ghost k0 = *k;
    let f0: u64 = frames::free_frames(&k.fa);
    let (pa, pb, fa, fb) = match open_spaces(k) {
        Err(e) => {
            return Err(e);
        },
        Ok(p) => p,
    };
    match try_spaces(k, pa, pb, fa, fb, khalf_va, Ghost(k0)) {
        Err(e) => {
            return Err(e);
        },
        Ok(_) => {},
    }
    let ghost k2 = *k;
    match pairs::drop_pair(k, pa, pb, Ghost(k0), Ghost(Set::empty())) {
        Err(e) => {
            return Err(e);
        },
        Ok(_) => {},
    }
    proof {
        pairs::lemma_pair_rest(&k0, &k2, k, pa, pb, Set::empty());
    }
    if proc::pml4_of(&k.procs, pa).is_some() || proc::pml4_of(&k.procs, pb).is_some() {
        return Err("destroyed processes still occupy table slots");
    }
    if frames::free_frames(&k.fa) != f0 {
        return Err("process create/destroy frame accounting is not exact");
    }
    Ok(())
}

/// Grant a capability that goes to the slot `want`.
pub(crate) fn grant_next(t: &mut ProcTable, pid: u64, c: Cap, Ghost(want): Ghost<int>) -> (r: Result<
    usize,
    &'static str,
>)
    requires
        old(t).wf(),
        cap::slots_of(old(t), pid) is Some,
        cap::first_empty(cap::slots_of(old(t), pid)->0, want),
        cap::slots_of(old(t), pid)->0.len() == CAP_SLOTS,
        !(c.obj is Empty),
    ensures
        r matches Ok(s) && s == want,
        final(t).wf(),
        m3::only_caps(old(t), final(t)),
        cap::slots_of(final(t), pid) == Some(cap::slots_of(old(t), pid)->0.update(want, c)),
        forall|q: u64|
            q != pid ==> #[trigger] cap::slots_of(final(t), q) == cap::slots_of(old(t), q),
{
    let ghost t0 = *t;
    let ghost s = cap::slots_of(t, pid)->0;
    let r = cap::grant(t, pid, c);
    proof {
        assert(s[want].obj is Empty);
        if let Ok(k) = r {
            if k < want {
                assert(!(s[k as int].obj is Empty));
            }
            if want < k {
                assert(!(s[want].obj is Empty));
            }
            m3::lemma_slot_step(&t0, t, pid, k as int, c);
        }
    }
    r
}

/// One change of capabilities after another.
pub proof fn lemma_caps_then(a: &ProcTable, b: &ProcTable, c: &ProcTable)
    requires
        m3::only_caps(a, b),
        m3::only_caps(b, c),
    ensures
        m3::only_caps(a, c),
{
    assert forall|j: int| 0 <= j < a.slots@.len() implies {
        &&& #[trigger] c.slots@[j] is Some <==> a.slots@[j] is Some
        &&& a.slots@[j] matches Some(p) ==> c.slots@[j]->0.same_but_caps(&p)
    } by {
        assert(b.slots@[j] is Some <==> a.slots@[j] is Some);
    }
}

/// Where the target of the second drill gets its page.
pub const P13_VA: u64 = 0x43_0000;

/// The owner's capabilities: its target and a frame, and a copy of each that
/// can only be copied.
pub open spec fn invoke_space(target: u64, frame: u64) -> Seq<Cap> {
    m3::blank_space().update(0, Cap { obj: CapObj::Process { pid: target }, rights: 15 }).update(
        1,
        Cap { obj: CapObj::Memory { phys: frame, pages: 1 }, rights: 6 },
    ).update(3, Cap { obj: CapObj::Process { pid: target }, rights: 4 }).update(
        4,
        Cap { obj: CapObj::Memory { phys: frame, pages: 1 }, rights: 4 },
    )
}

/// Give the owner its capabilities, and take copies without rights.
#[verifier::spinoff_prover]
#[verifier::rlimit(40)]
fn invoke_grants(t: &mut ProcTable, owner: u64, target: u64, frame: u64) -> (r: Result<
    (),
    &'static str,
>)
    requires
        old(t).wf(),
        cap::slots_of(old(t), owner) == Some(m3::blank_space()),
        proc::find(old(t).slots@, target) is Some,
    ensures
        r is Ok,
        final(t).wf(),
        m3::only_caps(old(t), final(t)),
        cap::slots_of(final(t), owner) == Some(invoke_space(target, frame)),
        forall|q: u64|
            q != owner ==> #[trigger] cap::slots_of(final(t), q) == cap::slots_of(old(t), q),
{
    let ghost s0 = m3::blank_space();
    let ghost t0 = *t;
    let p: Cap = Cap { obj: CapObj::Process { pid: target }, rights: RIGHTS_ALL };
    let m: Cap = Cap {
        obj: CapObj::Memory { phys: frame, pages: 1 },
        rights: RIGHTS_WRITE | RIGHTS_COPY,
    };
    proof {
        m3::lemma_rights();
        assert(s0[0].obj is Empty && s0[1].obj is Empty);
    }
    let s_p: usize = match grant_next(t, owner, p, Ghost(0)) {
        Err(e) => {
            return Err(e);
        },
        Ok(s) => s,
    };
    let ghost t1 = *t;
    let ghost s1 = s0.update(0, p);
    assert(cap::first_empty(s1, 1));
    let s_m: usize = match grant_next(t, owner, m, Ghost(1)) {
        Err(e) => {
            return Err(e);
        },
        Ok(s) => s,
    };
    let ghost t2 = *t;
    let ghost s2 = s1.update(1, m);
    assert(s2[0] == p && s2[1] == m && s2[3].obj is Empty && s2[4].obj is Empty);
    match cap::copy(t, owner, s_p, owner, 3, RIGHTS_COPY) {
        Err(e) => {
            return Err(e);
        },
        Ok(_) => {},
    }
    let ghost t3 = *t;
    let ghost p3 = Cap { obj: p.obj, rights: RIGHTS_COPY };
    let ghost s3 = s2.update(3, p3);
    proof {
        m3::lemma_slot_step(&t2, &t3, owner, 3, p3);
        assert(s3[1] == m && s3[4].obj is Empty);
    }
    match cap::copy(t, owner, s_m, owner, 4, RIGHTS_COPY) {
        Err(e) => {
            return Err(e);
        },
        Ok(_) => {},
    }
    proof {
        let m4 = Cap { obj: m.obj, rights: RIGHTS_COPY };
        m3::lemma_slot_step(&t3, t, owner, 4, m4);
        assert(s3.update(4, m4) =~= invoke_space(target, frame));
        lemma_caps_then(&t0, &t1, &t2);
        lemma_caps_then(&t0, &t2, &t3);
        lemma_caps_then(&t0, &t3, t);
    }
    Ok(())
}

/// What the capabilities of the owner must not do is refused, and changes
/// nothing.
#[verifier::spinoff_prover]
#[verifier::rlimit(40)]
fn refused_invokes(k: &mut Kernel, owner: u64, target: u64, Ghost(frame): Ghost<u64>) -> (r: Result<
    (),
    &'static str,
>)
    requires
        old(k).wf(),
        cap::slots_of(&old(k).procs, owner) == Some(invoke_space(target, frame)),
        proc::find(old(k).procs.slots@, target) is Some,
        frame < frames::PHYS_LIMIT,
    ensures
        final(k).wf(),
        r is Ok,
        *final(k) == *old(k),
{
    let ghost s = invoke_space(target, frame);
    proof {
        m3::lemma_rights();
        proc::lemma_find_bounds(k.procs.slots@, target);
        assert(s[0].obj == (CapObj::Process { pid: target }));
        assert(s[3].rights == 4 && s[3].obj == (CapObj::Process { pid: target }));
        assert(s[1].obj == (CapObj::Memory { phys: frame, pages: 1 }) && s[1].rights == 6);
        assert(s[4].obj == (CapObj::Memory { phys: frame, pages: 1 }) && s[4].rights == 4);
    }
    let root: u64 = match proc::pml4_of(&k.procs, target) {
        None => {
            return Err("capTarget's PML4 vanished");
        },
        Some(x) => x,
    };
    match cap::process_root(&k.procs, owner, 0) {
        Err(e) => {
            return Err(e);
        },
        Ok(x) => {
            if x != root {
                return Err("process_root did not return the live root");
            }
        },
    }
    if cap::process_root(&k.procs, owner, 3).is_ok() {
        return Err("process_root without READ was not refused");
    }
    if cap::process_root(&k.procs, owner, 1).is_ok() {
        return Err("process_root accepted a memory cap");
    }
    if cap::map_memory(k, owner, 4, 0, P13_VA, true, false).is_ok() {
        return Err("map_memory without WRITE on the memory cap was not refused");
    }
    if cap::map_memory(k, owner, 1, 3, P13_VA, true, false).is_ok() {
        return Err("map_memory without WRITE on the process cap was not refused");
    }
    if cap::map_memory(k, owner, 0, 1, P13_VA, true, false).is_ok() {
        return Err("map_memory with swapped cap kinds was not refused");
    }
    Ok(())
}

/// The owner and the target stand, both bare, with a frame of the pattern
/// beside them and `n` frames left.
pub open spec fn invoke_ready(
    k0: &Kernel,
    k: &Kernel,
    owner: u64,
    target: u64,
    f: u64,
    n: int,
) -> bool {
    &&& pairs::pair_up(k0, k, target, owner, Set::empty().insert(f as int / 4096))
    &&& spare(k, f as int)
    &&& accounts::bare(k, accounts::root_of(k, owner))
    &&& accounts::bare(k, accounts::root_of(k, target))
    &&& elf::mem_byte(k.pg.mem.words@, f as int) == 0xC3
    &&& k.fa.available() == n
}

/// What the second drill comes to.
pub open spec fn invoke_answer(k: &Kernel) -> Result<(), &'static str> {
    let n = k.fa.available();
    match m3::two_and(k, 0, "") {
        Err(e) => Err(e),
        Ok(_) => if n < 3 {
            Err("frame exhaustion (invoke memory)")
        } else if n < 6 {
            Err("frames exhausted (window map)")
        } else {
            Ok(())
        },
    }
}

proof fn lemma_bare_rewritten(k: &Kernel, k1: &Kernel, f: int, root: int)
    requires
        rewritten(k, k1, f),
        accounts::bare(k, root),
    ensures
        accounts::bare(k1, root),
{
    assert forall|v: int| 0 <= v < USER_PAGES implies #[trigger] paging::leaf(
        k1.pg.mem.words@,
        root,
        v,
    ) is None by {
        assert(paging::leaf(k.pg.mem.words@, root, v) is None);
    }
}

#[verifier::spinoff_prover]
#[verifier::rlimit(60)]
fn open_invoke(k: &mut Kernel) -> (r: Result<(u64, u64, u64), &'static str>)
    requires
        old(k).wf(),
        old(k).procs.next_pid < u64::MAX - 1,
        m3::live_root_stands(old(k)),
    ensures
        final(k).wf(),
        proc::kept(&old(k).procs, &final(k).procs),
        rest::kept(old(k), final(k)),
        match m3::two_and(old(k), 0, "") {
            Err(e) => r == Err::<(u64, u64, u64), &'static str>(e),
            Ok(_) => if old(k).fa.available() < 3 {
                r == Err::<(u64, u64, u64), &'static str>("frame exhaustion (invoke memory)")
            } else {
                r matches Ok((po, pt, f)) && invoke_ready(
                    old(k),
                    final(k),
                    po,
                    pt,
                    f,
                    old(k).fa.available() - 3,
                ) && cap::slots_of(&final(k).procs, po) == Some(invoke_space(pt, f))
                    && final(k).procs.next_pid == old(k).procs.next_pid + 2
            },
        },
{
    let ghost k0 = *k;
    let (po, pt) = match pairs::open_pair(k, "capOwner", "capTarget") {
        Err(e) => {
            return Err(e);
        },
        Ok(p) => p,
    };
    let ghost k2 = *k;
    let ghost none = Set::<int>::empty();
    proof {
        pairs::lemma_pair_up(&k0, &k2, po, pt);
        pairs::lemma_pair_facts(&k0, &k2, pt, po, none);
    }
    let f: u64 = match take_beside(k, pt, po, Ghost(k0), Ghost(none)) {
        None => {
            return Err("frame exhaustion (invoke memory)");
        },
        Some(f) => f,
    };
    let ghost k3 = *k;
    let ghost one = none.insert(f as int / 4096);
    fill_beside(k, pt, po, f, 0xC3, Ghost(k0), Ghost(one));
    let ghost k4 = *k;
    proof {
        pairs::lemma_pair_facts(&k0, &k4, pt, po, one);
        assert(elf::mem_byte(k4.pg.mem.words@, f + 0) == 0xC3);
        lemma_bare_rewritten(&k3, &k4, f as int, accounts::root_of(&k3, po));
        lemma_bare_rewritten(&k3, &k4, f as int, accounts::root_of(&k3, pt));
    }
    match invoke_grants(&mut k.procs, po, pt, f) {
        Err(e) => {
            return Err(e);
        },
        Ok(_) => {},
    }
    proof {
        pairs::lemma_pair_caps(&k0, &k4, k, pt, po, one);
        pairs::lemma_pair_kept(&k0, k, pt, po, one);
        rest::lemma_same(&k4, k);
        rest::lemma_kept_kept(&k0, &k4, k);
    }
    Ok((po, pt, f))
}

/// The target has the page, and the owner is bare.
pub open spec fn invoke_mapped(
    k0: &Kernel,
    k: &Kernel,
    owner: u64,
    target: u64,
    f: u64,
    n: int,
) -> bool {
    &&& pairs::pair_up(k0, k, target, owner, Set::empty())
    &&& accounts::bare(k, accounts::root_of(k, owner))
    &&& k.fa.available() == n
    &&& cap::slots_of(&k.procs, owner) == Some(invoke_space(target, f))
    &&& f % 4096 == 0
    &&& f < frames::PHYS_LIMIT
}

/// A spare frame reads as before while pages are mapped.
pub proof fn lemma_byte_beside(k: &Kernel, k1: &Kernel, f: int, i: int)
    requires
        spare(k, f),
        0 <= i < 4096,
        paging::data_kept(&k.pg.mem, &k.fa, &k1.pg.mem),
    ensures
        elf::mem_byte(k1.pg.mem.words@, f + i) == elf::mem_byte(k.pg.mem.words@, f + i),
{
    let q = (f + i) / 8;
    assert(f / 4096 * 4096 == f);
    assert(q / 512 == f / 4096);
    assert(frames::used(k.fa.map@, f / 4096));
    assert(k1.pg.mem.words@[q] == k.pg.mem.words@[q]);
}

/// Map the owner's frame into its target through the two capabilities.
#[verifier::spinoff_prover]
#[verifier::rlimit(60)]
fn map_invoke(
    k: &mut Kernel,
    po: u64,
    pt: u64,
    Ghost(f): Ghost<u64>,
    Ghost(k0): Ghost<Kernel>,
) -> (r: Result<(), &'static str>)
    requires
        k0.wf(),
        invoke_ready(&k0, old(k), po, pt, f, old(k).fa.available()),
        cap::slots_of(&old(k).procs, po) == Some(invoke_space(pt, f)),
        rest::kept(&k0, old(k)),
    ensures
        final(k).wf(),
        final(k).procs == old(k).procs,
        rest::kept(&k0, final(k)),
        if old(k).fa.available() < 3 {
            r == Err::<(), &'static str>("frames exhausted (window map)")
        } else {
            &&& r is Ok
            &&& invoke_mapped(&k0, final(k), po, pt, f, old(k).fa.available() - 3)
        },
{
    let ghost k1 = *k;
    let ghost one = Set::<int>::empty().insert(f as int / 4096);
    let ghost rt = accounts::root_of(&k1, pt);
    let ghost s = invoke_space(pt, f);
    proof {
        pairs::lemma_pair_facts(&k0, k, pt, po, one);
        proc::lemma_find_bounds(k1.procs.slots@, pt);
        m3::lemma_rights();
        assert(s[0].obj == (CapObj::Process { pid: pt }) && s[0].rights == 15);
        assert(s[1].obj == (CapObj::Memory { phys: f, pages: 1 }) && s[1].rights == 6);
        accounts::lemma_bare_missing(&k1, rt, 0x430);
        frames::lemma_free_bounds(k1.fa.map@, frames::FRAME_COUNT as int);
    }
    let done: Result<(), &'static str> = cap::map_memory(k, po, 1, 0, P13_VA, true, false);
    proof {
        pairs::lemma_pair_new(&k0, &k1, pt, po, one);
        rest::lemma_edited(&k1, k, rt);
        rest::lemma_mine(&k0, &k1, k, rt);
    }
    if let Err(e) = done {
        return Err(e);
    }
    proof {
        assert(pairs::adopted(&k1, k, rt, P13_VA, f, true, false));
        pairs::lemma_pair_adopt(&k0, &k1, k, pt, po, one, P13_VA, f, true, false);
        assert(one.remove(f as int / 4096) =~= Set::<int>::empty());
        lemma_bare_beside(&k1, k, rt, accounts::root_of(&k1, po));
        pairs::lemma_pair_facts(&k0, k, pt, po, Set::empty());
        lemma_spare_kept(&k1, k, rt, f as int);
        lemma_byte_beside(&k1, k, f as int, 0);
        paging::lemma_user_entry(f);
        window::lemma_stands_seen(k.pg.mem, rt, P13_VA as int, f, true, false, 0);
    }
    if look(k, pt, P13_VA) != Some(0xC3u8) {
        return Err("invoke-mapped page not visible under the target's CR3");
    }
    Ok(())
}

/// The target is gone and only the owner's root is left of the two.
#[verifier::spinoff_prover]
#[verifier::rlimit(60)]
fn drop_target(
    k: &mut Kernel,
    po: u64,
    pt: u64,
    Ghost(f): Ghost<u64>,
    Ghost(k0): Ghost<Kernel>,
) -> (r: Result<u64, &'static str>)
    requires
        k0.wf(),
        invoke_mapped(&k0, old(k), po, pt, f, k0.fa.available() - 6),
    ensures
        r == Ok::<u64, &'static str>(5),
        proc::removed(old(k), final(k), proc::find(old(k).procs.slots@, pt)->0),
        final(k).wf(),
        accounts::bare(final(k), accounts::root_of(old(k), po)),
        accounts::root_of(final(k), po) == accounts::root_of(old(k), po),
        proc::find(final(k).procs.slots@, po) is Some,
        proc::find(final(k).procs.slots@, pt) is None,
        cap::slots_of(&final(k).procs, po) == Some(invoke_space(pt, f)),
        final(k).pg.live_root != accounts::root_of(final(k), po),
        final(k).fa.same_pool(&k0.fa),
        k0.fa.free - k0.fa.available() == final(k).fa.free - final(k).fa.available(),
        forall|j: int|
            0 <= j < frames::FRAME_COUNT ==> #[trigger] frames::used(final(k).fa.map@, j) == (
            frames::used(k0.fa.map@, j) || j * 4096 == accounts::root_of(old(k), po)),
        rest::kept_but(
            old(k),
            final(k),
            Set::empty().insert(accounts::root_of(old(k), pt)),
            rest::free_in(final(k)),
        ),
{
    let ghost k1 = *k;
    let ghost ro = accounts::root_of(&k1, po);
    let ghost rt = accounts::root_of(&k1, pt);
    let ghost none = Set::<int>::empty();
    proof {
        reveal(pairs::pair_up);
        assert(paging::no_table_mapped(&k1.pg.mem, &k1.fa, rt)) by {
            reveal(accounts::tidy);
        }
        assert(paging::sole_below(&k1.pg.mem, &k1.fa, rt, USER_PAGES as int)) by {
            reveal(accounts::tidy);
        }
        proc::lemma_find_bounds(k1.procs.slots@, pt);
        proc::lemma_find_bounds(k1.procs.slots@, po);
    }
    let live: u64 = crate::views::cr3_phys(&k.pg);
    let n: u64 = match proc::destroy(k, pt, live) {
        Err(e) => {
            return Err(e);
        },
        Ok(n) => n,
    };
    proof {
        let i = proc::find(k1.procs.slots@, pt)->0;
        let x = proc::find(k1.procs.slots@, po)->0;
        m3::lemma_without(&k1, k, pt, po);
        assert(k.procs.slots@[x] is Some);
        accounts::lemma_bare_removed(&k1, k, i, ro);
        pairs::lemma_first_gone(&k0.fa, none, &k1, k, rt, ro, i);
        assert forall|j: int| 0 <= j < frames::FRAME_COUNT implies #[trigger] frames::used(
            k.fa.map@,
            j,
        ) == (frames::used(k0.fa.map@, j) || j * 4096 == ro) by {
            pairs::lemma_bare_back(k, ro, j);
        }
        let c = ro / 4096;
        assert(paging::is_table(k.pg.mem.words@, k.pg.mem.seats@, ro));
        assert(c * 4096 == ro && 0 <= c < frames::FRAME_COUNT);
        pairs::lemma_bare_back(k, ro, c);
        assert(proc::goes_back(k, ro, c));
        assert(!frames::used(k0.fa.map@, c));
        assert(frames::used(k.fa.map@, c));
        assert(frames::same_but(k0.fa.map@, k.fa.map@, c)) by {
            assert forall|j: int| 0 <= j < frames::FRAME_COUNT && j != c implies frames::used(
                k0.fa.map@,
                j,
            ) == frames::used(k.fa.map@, j) by {
                assert(j * 4096 != ro);
                assert(frames::used(k.fa.map@, j) == (frames::used(k0.fa.map@, j) || j * 4096 == ro));
            }
        }
        frames::lemma_change_one(k0.fa.map@, k.fa.map@, c, frames::FRAME_COUNT as int);
    }
    Ok(n)
}

/// An owner maps memory into its target through capabilities, and only as far
/// as their rights go; a capability to a dead process is good for nothing.
/// Afterwards every frame is back in the pool.
#[verifier::spinoff_prover]
#[verifier::rlimit(60)]
pub fn test_capability_invoke(k: &mut Kernel) -> (r: Result<(), &'static str>)
    requires
        old(k).wf(),
        old(k).procs.next_pid < u64::MAX - 1,
        m3::live_root_stands(old(k)),
    ensures
        final(k).wf(),
        proc::kept(&old(k).procs, &final(k).procs),
        rest::kept(old(k), final(k)),
        r == invoke_answer(old(k)),
        r is Ok ==> {
            &&& accounts::same_frames(&old(k).fa, &final(k).fa)
            &&& m3::same_processes(&old(k).procs, &final(k).procs)
            &&& final(k).procs.next_pid == old(k).procs.next_pid + 2
            &&& final(k).procs.created == old(k).procs.created + 2
        },
{
    let ghost k0 = *k;
    let f0: u64 = frames::free_frames(&k.fa);
    let (po, pt, f) = match open_invoke(k) {
        Err(e) => {
            return Err(e);
        },
        Ok(p) => p,
    };
    let ghost k1 = *k;
    proof {
        pairs::lemma_pair_facts(&k0, &k1, pt, po, Set::empty().insert(f as int / 4096));
    }
    match refused_invokes(k, po, pt, Ghost(f)) {
        Err(e) => {
            return Err(e);
        },
        Ok(_) => {},
    }
    match map_invoke(k, po, pt, Ghost(f), Ghost(k0)) {
        Err(e) => {
            return Err(e);
        },
        Ok(_) => {},
    }
    let ghost k3 = *k;
    match drop_target(k, po, pt, Ghost(f), Ghost(k0)) {
        Err(e) => {
            return Err(e);
        },
        Ok(n) => {
            if n != 5 {
                return Err("target teardown did not free leaf + intermediates + root (5)");
            }
        },
    }
    let ghost k4 = *k;
    proof {
        pairs::lemma_pair_new(&k0, &k3, pt, po, Set::empty());
        rest::lemma_gone(&k0, &k3, &k4, accounts::root_of(&k3, pt));
        let s = invoke_space(pt, f);
        m3::lemma_rights();
        assert(s[0].obj == (CapObj::Process { pid: pt }) && s[0].rights == 15);
        assert(s[1].obj == (CapObj::Memory { phys: f, pages: 1 }) && s[1].rights == 6);
    }
    if cap::map_memory(k, po, 1, 0, P13_VA, true, false).is_ok() {
        return Err("map_memory into a dead process was not refused");
    }
    if cap::process_root(&k.procs, po, 0).is_ok() {
        return Err("process_root of a dead process was not refused");
    }
    match accounts::destroy_bare(k, po) {
        Err(e) => {
            return Err(e);
        },
        Ok(n) => {
            if n != 1 {
                return Err("owner teardown did not free exactly its root");
            }
        },
    }
    proof {
        reveal(pairs::pair_up);
        pairs::lemma_settled(&k0, &k3, &k4, k, pt, po);
        let ro = accounts::root_of(&k4, po);
        pairs::lemma_split_at(
            &k0.fa,
            Set::empty(),
            &k3,
            accounts::root_of(&k3, pt),
            ro,
            ro / 4096,
        );
        pairs::lemma_bare_back(&k3, ro, ro / 4096);
        assert(paging::is_table(k3.pg.mem.words@, k3.pg.mem.seats@, ro));
        assert forall|j: int| 0 <= j < frames::FRAME_COUNT implies #[trigger] frames::used(
            k.fa.map@,
            j,
        ) == frames::used(k0.fa.map@, j) by {
            assert(frames::used(k4.fa.map@, j) == (frames::used(k0.fa.map@, j) || j * 4096 == ro));
        }
        accounts::lemma_same_count(k.fa.map@, k0.fa.map@, frames::FRAME_COUNT as int);
        rest::lemma_gone(&k0, &k4, k, ro);
    }
    if frames::free_frames(&k.fa) != f0 {
        return Err("invoke round is not frame-exact");
    }
    Ok(())
}

} // verus!

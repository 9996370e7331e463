//! The self-tests of threads, processes and capabilities.
//!
//! A test that only works on kernel objects runs here and is proved to pass
//! whenever the pool and the table have room for it. A test that runs threads
//! hands in what was observed, and here the verdict is given.

use vstd::prelude::*;
use crate::accounts;
use crate::cap;
use crate::cap::{
    CAP_SLOTS, Cap, CapObj, RIGHTS_ALL, RIGHTS_COPY, RIGHTS_DESTROY, RIGHTS_READ, RIGHTS_WRITE,
};
use crate::frames;
use crate::frames::FrameAllocator;
use crate::kernel::Kernel;
use crate::paging;
use crate::paging::USER_PAGES;
use crate::proc;
use crate::proc::ProcTable;
use crate::rest;
use crate::suite;
use crate::suite::{Outcome, Report};

verus! {

/// The name of test `i`.
#[verifier::allow_in_spec]
pub fn test_name(i: u64) -> &'static str
    returns
        (match i {
            0 => "thread_spawn_run",
            1 => "thread_rr_interleave",
            2 => "thread_callee_saved",
            3 => "thread_stack_isolation",
            4 => "thread_churn_accounting",
            5 => "preempt_rotation",
            6 => "preempt_coexist",
            7 => "user_ring3_syscall",
            8 => "user_ring3_interrupted",
            9 => "process_address_spaces",
            10 => "process_accounting",
            11 => "capability_spaces",
            _ => "capability_invoke",
        }),
{
    match i {
        0 => "thread_spawn_run",
        1 => "thread_rr_interleave",
        2 => "thread_callee_saved",
        3 => "thread_stack_isolation",
        4 => "thread_churn_accounting",
        5 => "preempt_rotation",
        6 => "preempt_coexist",
        7 => "user_ring3_syscall",
        8 => "user_ring3_interrupted",
        9 => "process_address_spaces",
        10 => "process_accounting",
        11 => "capability_spaces",
        _ => "capability_invoke",
    }
}

/// The tests with what came of them.
pub open spec fn outcomes(results: Seq<Result<(), &'static str>>) -> Seq<Outcome> {
    Seq::new(
        results.len(),
        |i: int| Outcome { name: test_name(i as u64), result: results[i] },
    )
}

/// Report on the suite, whose tests ended with `results`.
pub fn run_suite(results: &[Result<(), &'static str>; 13]) -> (r: Report)
    ensures
        r.lines@.len() == 13 + 1,
        forall|i: int|
            0 <= i < 13 ==> (#[trigger] r.lines@[i])@ == suite::marker_of(
                "m3"@,
                outcomes(results@)[i],
            ),
        r.lines@[13]@ == suite::result_line(
            "m3"@,
            suite::passed_below(outcomes(results@), 13),
            13,
        ),
        r.passed == (suite::passed_below(outcomes(results@), 13) == 13),
{
    let all: [Outcome; 13] = [
        Outcome { name: test_name(0), result: results[0] },
        Outcome { name: test_name(1), result: results[1] },
        Outcome { name: test_name(2), result: results[2] },
        Outcome { name: test_name(3), result: results[3] },
        Outcome { name: test_name(4), result: results[4] },
        Outcome { name: test_name(5), result: results[5] },
        Outcome { name: test_name(6), result: results[6] },
        Outcome { name: test_name(7), result: results[7] },
        Outcome { name: test_name(8), result: results[8] },
        Outcome { name: test_name(9), result: results[9] },
        Outcome { name: test_name(10), result: results[10] },
        Outcome { name: test_name(11), result: results[11] },
        Outcome { name: test_name(12), result: results[12] },
    ];
    assert(all@ =~= outcomes(results@));
    suite::run_suite("m3", &all)
}

/// Only capabilities differ.
pub open spec fn only_caps(pre: &ProcTable, post: &ProcTable) -> bool {
    &&& post.next_pid == pre.next_pid
    &&& post.created == pre.created
    &&& post.slots@.len() == pre.slots@.len()
    &&& forall|j: int|
        0 <= j < pre.slots@.len() ==> {
            &&& #[trigger] post.slots@[j] is Some <==> pre.slots@[j] is Some
            &&& pre.slots@[j] matches Some(p) ==> post.slots@[j]->0.same_but_caps(&p)
        }
}

/// The slots of all processes but `a` and `b` are the same.
pub open spec fn other_caps(pre: &ProcTable, post: &ProcTable, a: u64, b: u64) -> bool {
    forall|q: u64|
        q != a && q != b ==> #[trigger] cap::slots_of(post, q) == cap::slots_of(pre, q)
}

pub proof fn lemma_only_caps_find(pre: &ProcTable, post: &ProcTable, pid: u64)
    requires
        only_caps(pre, post),
    ensures
        proc::find(post.slots@, pid) == proc::find(pre.slots@, pid),
{
    proc::lemma_find_same(pre.slots@, post.slots@, pid);
}

/// What writing one slot does to the spaces.
pub proof fn lemma_slot_step(pre: &ProcTable, post: &ProcTable, pid: u64, slot: int, c: Cap)
    requires
        pre.wf(),
        0 <= slot < CAP_SLOTS,
        cap::slot_set(pre, post, pid, slot, c),
    ensures
        only_caps(pre, post),
        cap::slots_of(pre, pid) is Some,
        cap::slots_of(post, pid) == Some(cap::slots_of(pre, pid)->0.update(slot, c)),
        forall|q: u64| q != pid ==> #[trigger] cap::slots_of(post, q) == cap::slots_of(pre, q),
{
    let i = proc::find(pre.slots@, pid)->0;
    proc::lemma_find_bounds(pre.slots@, pid);
    assert forall|j: int| 0 <= j < pre.slots@.len() implies {
        &&& #[trigger] post.slots@[j] is Some <==> pre.slots@[j] is Some
        &&& pre.slots@[j] matches Some(p) ==> post.slots@[j]->0.same_but_caps(&p)
    } by {
        if j != i {
            assert(post.slots@[j] == pre.slots@[j]);
        }
    }
    lemma_only_caps_find(pre, post, pid);
    assert forall|q: u64| q != pid implies #[trigger] cap::slots_of(post, q) == cap::slots_of(
        pre,
        q,
    ) by {
        lemma_only_caps_find(pre, post, q);
        proc::lemma_find_bounds(pre.slots@, q);
        if let Some(j) = proc::find(pre.slots@, q) {
            assert(j != i);
            assert(post.slots@[j] == pre.slots@[j]);
        }
    }
}

/// A kernel whose capabilities alone changed is still in order.
pub proof fn lemma_only_caps_kernel(pre: &Kernel, post: &Kernel)
    requires
        pre.wf(),
        post.procs.wf(),
        post.fa == pre.fa,
        post.pg == pre.pg,
        only_caps(&pre.procs, &post.procs),
    ensures
        post.wf(),
{
    let s0 = pre.procs.slots@;
    let s1 = post.procs.slots@;
    assert forall|j: int| 0 <= j < s1.len() && #[trigger] s1[j] is Some implies s0[j] is Some
        && s1[j]->0.pml4_phys == s0[j]->0.pml4_phys by {}
    assert forall|i: int, j: int|
        0 <= i < j < s1.len() && #[trigger] s1[i] is Some && #[trigger] s1[j] is Some implies s1[i]->0.pml4_phys
        != s1[j]->0.pml4_phys by {
        assert(s0[i] is Some && s0[j] is Some);
    }
}

pub proof fn lemma_rights()
    by (bit_vector)
    ensures
        1u32 | 2u32 == 3u32,
        1u32 | 4u32 == 5u32,
        3u32 | 4u32 == 7u32,
        2u32 | 4u32 == 6u32,
        7u32 | 8u32 == 15u32,
        15u32 & 4u32 != 0,
        7u32 & 4u32 != 0,
        6u32 & 4u32 != 0,
        5u32 & 4u32 != 0,
        1u32 & 4u32 == 0,
        5u32 & !7u32 == 0,
        5u32 & !15u32 == 0,
        3u32 & !5u32 != 0,
        1u32 & !7u32 == 0,
        4u32 & !15u32 == 0,
        4u32 & !6u32 == 0,
        5u32 & 8u32 == 0,
        8u32 & 8u32 != 0,
        15u32 & 1u32 != 0,
        4u32 & 1u32 == 0,
        4u32 & 2u32 == 0,
        6u32 & 2u32 != 0,
        15u32 & 2u32 != 0,
{
}

/// A space with every slot empty.
pub open spec fn blank_space() -> Seq<Cap> {
    Seq::new(CAP_SLOTS as nat, |i: int| Cap::empty())
}

/// The memory capability that the spaces test grants.
pub open spec fn drill_memory(frame: u64) -> Cap {
    Cap { obj: CapObj::Memory { phys: frame, pages: 1 }, rights: 7 }
}

/// The first space after the grants.
pub open spec fn granted_space(pa: u64, pb: u64, frame: u64) -> Seq<Cap> {
    blank_space().update(0, Cap { obj: CapObj::Process { pid: pb }, rights: 15 }).update(
        1,
        drill_memory(frame),
    ).update(2, Cap { obj: CapObj::Process { pid: pa }, rights: 1 })
}

/// Grant three capabilities and read them back.
fn drill_grants(t: &mut ProcTable, pa: u64, pb: u64, frame: u64) -> (r: Result<(), &'static str>)
    requires
        old(t).wf(),
        cap::slots_of(old(t), pa) == Some(blank_space()),
    ensures
        r == Ok::<(), &'static str>(()),
        final(t).wf(),
        only_caps(old(t), final(t)),
        cap::slots_of(final(t), pa) == Some(granted_space(pa, pb, frame)),
        forall|q: u64| q != pa ==> #[trigger] cap::slots_of(final(t), q) == cap::slots_of(old(t), q),
{
    proof {
        lemma_rights();
        assert(cap::used_below(blank_space(), 16) == 0) by {
            reveal_with_fuel(cap::used_below, 17);
        }
    }
    match cap::occupancy(t, pa) {
        Some((0, 16)) => {},
        _ => {
            return Err("fresh capability space is not empty");
        },
    }
    let ghost t0 = *t;
    let s_proc: usize = match cap::grant(
        t,
        pa,
        Cap { obj: CapObj::Process { pid: pb }, rights: RIGHTS_ALL },
    ) {
        Ok(s) => s,
        Err(e) => {
            assert(blank_space()[0].obj is Empty);
            return Err(e);
        },
    };
    let ghost t1 = *t;
    proof {
        assert(blank_space()[0].obj is Empty);
        lemma_slot_step(
            &t0,
            &t1,
            pa,
            s_proc as int,
            Cap { obj: CapObj::Process { pid: pb }, rights: RIGHTS_ALL },
        );
    }
    let mem_cap: Cap = Cap {
        obj: CapObj::Memory { phys: frame, pages: 1 },
        rights: RIGHTS_READ | RIGHTS_WRITE | RIGHTS_COPY,
    };
    let ghost a1 = cap::slots_of(&t1, pa)->0;
    assert(a1[1].obj is Empty);
    let s_mem: usize = match cap::grant(t, pa, mem_cap) {
        Ok(s) => s,
        Err(e) => {
            return Err(e);
        },
    };
    let ghost t2 = *t;
    proof {
        lemma_slot_step(&t1, &t2, pa, s_mem as int, mem_cap);
    }
    let ghost a2 = cap::slots_of(&t2, pa)->0;
    assert(s_mem == 1) by {
        assert(!(a1[0].obj is Empty));
    }
    assert(a2[2].obj is Empty);
    let s_ro: usize = match cap::grant(
        t,
        pa,
        Cap { obj: CapObj::Process { pid: pa }, rights: RIGHTS_READ },
    ) {
        Ok(s) => s,
        Err(e) => {
            return Err(e);
        },
    };
    proof {
        lemma_slot_step(
            &t2,
            t,
            pa,
            s_ro as int,
            Cap { obj: CapObj::Process { pid: pa }, rights: RIGHTS_READ },
        );
        assert(!(a2[0].obj is Empty) && !(a2[1].obj is Empty));
    }
    if s_proc != 0 || s_mem != 1 || s_ro != 2 {
        return Err("grant did not fill the first empty slots in order");
    }
    let ghost a3 = cap::slots_of(t, pa)->0;
    assert(a3 =~= granted_space(pa, pb, frame));
    match cap::read(t, pa, s_mem) {
        Ok(c) => {
            if c != mem_cap {
                return Err("cap read-back does not equal the grant");
            }
        },
        Err(e) => {
            return Err(e);
        },
    }
    if cap::read(t, pa, CAP_SLOTS).is_ok() {
        return Err("out-of-bounds slot accepted");
    }
    if cap::read(t, pa, 15).is_ok() {
        return Err("empty slot read as a cap");
    }
    Ok(())
}

/// Copy with fewer rights, and meet each refusal of a copy.
fn drill_copies(t: &mut ProcTable, pa: u64, pb: u64, frame: u64) -> (r: Result<(), &'static str>)
    requires
        old(t).wf(),
        pa != pb,
        cap::slots_of(old(t), pa) == Some(granted_space(pa, pb, frame)),
        cap::slots_of(old(t), pb) == Some(blank_space()),
    ensures
        r == Ok::<(), &'static str>(()),
        final(t).wf(),
        only_caps(old(t), final(t)),
        cap::slots_of(final(t), pb) == Some(
            blank_space().update(0, (Cap { obj: drill_memory(frame).obj, rights: 5 })),
        ),
        forall|q: u64| q != pb ==> #[trigger] cap::slots_of(final(t), q) == cap::slots_of(old(t), q),
{
    proof {
        lemma_rights();
    }
    let ghost t0 = *t;
    match cap::copy(t, pa, 1, pb, 0, RIGHTS_READ | RIGHTS_COPY) {
        Err(e) => {
            return Err(e);
        },
        Ok(_) => {},
    }
    proof {
        lemma_slot_step(&t0, t, pb, 0, Cap { obj: drill_memory(frame).obj, rights: 5 });
    }
    let cb: Cap = match cap::read(t, pb, 0) {
        Err(e) => {
            return Err(e);
        },
        Ok(c) => c,
    };
    if cb.obj != (CapObj::Memory { phys: frame, pages: 1 }) || cb.rights != RIGHTS_READ
        | RIGHTS_COPY {
        return Err("attenuated copy wrong (object or rights)");
    }
    if cap::copy(t, pb, 0, pa, 5, RIGHTS_READ | RIGHTS_WRITE).is_ok() {
        return Err("rights amplification was not refused");
    }
    if cap::copy(t, pa, 2, pb, 1, RIGHTS_READ).is_ok() {
        return Err("copy from a COPY-less cap was not refused");
    }
    if cap::copy(t, pa, 1, pb, 0, RIGHTS_READ).is_ok() {
        return Err("copy into an occupied slot was not refused");
    }
    Ok(())
}

/// The second space after the move.
pub open spec fn moved_space(pb: u64, frame: u64) -> Seq<Cap> {
    blank_space().update(0, Cap { obj: drill_memory(frame).obj, rights: 5 }).update(
        3,
        Cap { obj: CapObj::Process { pid: pb }, rights: 5 },
    )
}

/// Move a capability, and meet the gates of destroying one.
fn drill_moves(
    t: &mut ProcTable,
    fa: &mut FrameAllocator,
    pa: u64,
    pb: u64,
    frame: u64,
) -> (r: Result<(), &'static str>)
    requires
        old(t).wf(),
        old(fa).wf(),
        pa != pb,
        cap::slots_of(old(t), pa) == Some(granted_space(pa, pb, frame)),
        cap::slots_of(old(t), pb) == Some(
            blank_space().update(0, (Cap { obj: drill_memory(frame).obj, rights: 5 })),
        ),
    ensures
        r == Ok::<(), &'static str>(()),
        final(t).wf(),
        *final(fa) == *old(fa),
        only_caps(old(t), final(t)),
        cap::slots_of(final(t), pa) == Some(granted_space(pa, pb, frame).update(0, Cap::empty())),
        cap::slots_of(final(t), pb) == Some(moved_space(pb, frame)),
        other_caps(old(t), final(t), pa, pb),
{
    proof {
        lemma_rights();
    }
    let ghost t0 = *t;
    let ghost sent = Cap { obj: CapObj::Process { pid: pb }, rights: 5u32 };
    match cap::move_cap(t, pa, 0, pb, 3, RIGHTS_READ | RIGHTS_COPY) {
        Err(e) => {
            return Err(e);
        },
        Ok(_) => {},
    }
    let ghost t1 = *t;
    proof {
        let mid = choose|mid: ProcTable|
            {
                &&& #[trigger] mid.wf()
                &&& cap::slot_set(&t0, &mid, pb, 3, sent)
                &&& cap::slot_set(&mid, &t1, pa, 0, Cap::empty())
            };
        lemma_slot_step(&t0, &mid, pb, 3, sent);
        lemma_slot_step(&mid, &t1, pa, 0, Cap::empty());
        assert(only_caps(&t0, &t1));
        assert(cap::slots_of(&t1, pb) == Some(moved_space(pb, frame)));
    }
    if cap::read(t, pa, 0).is_ok() {
        return Err("move left the source slot occupied");
    }
    match cap::read(t, pb, 3) {
        Err(e) => {
            return Err(e);
        },
        Ok(c) => {
            if c.rights != RIGHTS_READ | RIGHTS_COPY {
                return Err("moved cap rights wrong");
            }
        },
    }
    if cap::destroy(t, fa, pb, 3).is_ok() {
        return Err("destroy without the DESTROY right was not refused");
    }
    let ghost killable = Cap { obj: CapObj::Process { pid: pa }, rights: 8u32 };
    assert(moved_space(pb, frame)[1].obj is Empty);
    let s_d: usize = match cap::grant(
        t,
        pb,
        Cap { obj: CapObj::Process { pid: pa }, rights: RIGHTS_DESTROY },
    ) {
        Err(e) => {
            return Err(e);
        },
        Ok(s) => s,
    };
    let ghost t2 = *t;
    proof {
        assert(!(moved_space(pb, frame)[0].obj is Empty));
        assert(s_d == 1);
        lemma_slot_step(&t1, &t2, pb, 1, killable);
    }
    match cap::destroy(t, fa, pb, s_d) {
        Err(e) => {
            return Err(e);
        },
        Ok(_) => {},
    }
    proof {
        lemma_slot_step(&t2, t, pb, 1, Cap::empty());
        assert(cap::slots_of(t, pb)->0 =~= moved_space(pb, frame));
        assert(only_caps(&t0, t));
    }
    if cap::read(t, pb, s_d).is_ok() {
        return Err("destroyed slot still reads as a cap");
    }
    if cap::destroy(t, fa, pb, s_d).is_ok() {
        return Err("double destroy was not refused");
    }
    Ok(())
}

/// The first space with `n` fillers: they go to slot 0 and then to slot 3 and
/// on.
pub open spec fn filled_space(pa: u64, pb: u64, frame: u64, n: int) -> Seq<Cap> {
    Seq::new(
        CAP_SLOTS as nat,
        |i: int|
            if i == 1 || i == 2 {
                granted_space(pa, pb, frame)[i]
            } else if i == 0 && n >= 1 || 3 <= i < n + 2 {
                Cap { obj: CapObj::Process { pid: pa }, rights: 8 }
            } else {
                Cap::empty()
            },
    )
}

proof fn lemma_filled_count(pa: u64, pb: u64, frame: u64, n: int, i: int)
    requires
        0 <= n <= 14,
        0 <= i <= 16,
    ensures
        cap::used_below(filled_space(pa, pb, frame, n), i) == (if i == 0 {
            0int
        } else {
            (if n >= 1 {
                1int
            } else {
                0int
            }) + (if i >= 3 {
                2int
            } else {
                i - 1
            }) + (if n < 2 || i < 3 {
                0int
            } else if i < n + 2 {
                i - 3
            } else {
                n - 1
            })
        }),
    decreases i,
{
    if i > 0 {
        lemma_filled_count(pa, pb, frame, n, i - 1);
    }
}

/// Check that the spaces stand apart, fill the first and meet its limit.
fn drill_capacity(t: &mut ProcTable, pa: u64, pb: u64, frame: u64) -> (r: Result<(), &'static str>)
    requires
        old(t).wf(),
        pa != pb,
        cap::slots_of(old(t), pa) == Some(granted_space(pa, pb, frame).update(0, Cap::empty())),
        cap::slots_of(old(t), pb) == Some(moved_space(pb, frame)),
    ensures
        r == Ok::<(), &'static str>(()),
        final(t).wf(),
        only_caps(old(t), final(t)),
        cap::slots_of(final(t), pa) == Some(filled_space(pa, pb, frame, 14)),
        forall|q: u64| q != pa ==> #[trigger] cap::slots_of(final(t), q) == cap::slots_of(old(t), q),
{
    proof {
        lemma_rights();
        assert(granted_space(pa, pb, frame).update(0, Cap::empty()) =~= filled_space(
            pa,
            pb,
            frame,
            0,
        ));
        lemma_filled_count(pa, pb, frame, 0, 16);
        assert(cap::used_below(moved_space(pb, frame), 16) == 2) by {
            reveal_with_fuel(cap::used_below, 17);
        }
    }
    match cap::read(t, pa, 1) {
        Err(e) => {
            return Err(e);
        },
        Ok(c) => {
            if c != (Cap {
                obj: CapObj::Memory { phys: frame, pages: 1 },
                rights: RIGHTS_READ | RIGHTS_WRITE | RIGHTS_COPY,
            }) {
                return Err("space A changed while operating on space B");
            }
        },
    }
    match cap::occupancy(t, pa) {
        Some((2, 16)) => {},
        _ => {
            return Err("A occupancy wrong (expected s_mem + s_ro)");
        },
    }
    match cap::occupancy(t, pb) {
        Some((2, 16)) => {},
        _ => {
            return Err("B occupancy wrong (expected slot 0 + slot 3)");
        },
    }
    let mut n: usize = 0;
    let filler: Cap = Cap { obj: CapObj::Process { pid: pa }, rights: RIGHTS_DESTROY };
    loop
        invariant
            t.wf(),
            filler == (Cap { obj: CapObj::Process { pid: pa }, rights: 8 }),
            only_caps(old(t), t),
            forall|q: u64| q != pa ==> #[trigger] cap::slots_of(t, q) == cap::slots_of(old(t), q),
            n <= 14,
            cap::slots_of(t, pa) == Some(filled_space(pa, pb, frame, n as int)),
        ensures
            n == 14,
        decreases 14 - n,
    {
        let used: u32 = match cap::occupancy(t, pa) {
            Some((u, _)) => u,
            None => 0,
        };
        proof {
            lemma_filled_count(pa, pb, frame, n as int, 16);
        }
        if used >= CAP_SLOTS as u32 {
            break;
        }
        let ghost t1 = *t;
        let ghost now = filled_space(pa, pb, frame, n as int);
        let ghost at: int = if n == 0 {
            0
        } else {
            n as int + 2
        };
        proof {
            assert(now[at].obj is Empty);
            assert(forall|j: int| 0 <= j < at ==> !((#[trigger] now[j]).obj is Empty));
        }
        match cap::grant(t, pa, filler) {
            Err(e) => {
                return Err(e);
            },
            Ok(s) => {
                proof {
                    assert(s == at);
                    lemma_slot_step(&t1, t, pa, at, filler);
                    assert(now.update(at, filler) =~= filled_space(pa, pb, frame, n + 1));
                }
            },
        }
        n = n + 1;
    }
    if cap::grant(t, pa, Cap { obj: CapObj::Process { pid: pa }, rights: 0 }).is_ok() {
        assert(forall|j: int|
            0 <= j < 16 ==> !((#[trigger] filled_space(pa, pb, frame, 14)[j]).obj is Empty));
        return Err("grant into a full space was not refused");
    }
    Ok(())
}

/// The processes are the same, with the same capabilities.
pub open spec fn same_processes(pre: &ProcTable, post: &ProcTable) -> bool {
    &&& post.slots@.len() == pre.slots@.len()
    &&& forall|j: int|
        0 <= j < pre.slots@.len() ==> {
            &&& #[trigger] post.slots@[j] is Some <==> pre.slots@[j] is Some
            &&& pre.slots@[j] matches Some(p) ==> post.slots@[j]->0.same_but_caps(&p)
        }
    &&& forall|q: u64| #[trigger] cap::slots_of(post, q) == cap::slots_of(pre, q)
}

/// The machine runs under a root that stands.
pub open spec fn live_root_stands(k: &Kernel) -> bool {
    paging::is_root(k.pg.mem.seats@, k.pg.live_root as int)
}

/// Changing capabilities of processes that were made since keeps the others.
pub proof fn lemma_kept_caps(a: &ProcTable, b: &ProcTable, c: &ProcTable, pa: u64, pb: u64)
    requires
        a.wf(),
        b.wf(),
        proc::kept(a, b),
        only_caps(b, c),
        other_caps(b, c, pa, pb),
        pa >= a.next_pid,
        pb >= a.next_pid,
    ensures
        proc::kept(a, c),
{
    assert forall|j: int| 0 <= j < a.slots@.len() implies proc::entry_kept(
        a.slots@[j],
        #[trigger] c.slots@[j],
        a.next_pid,
    ) by {
        assert(proc::entry_kept(a.slots@[j], b.slots@[j], a.next_pid));
        assert(c.slots@[j] is Some <==> b.slots@[j] is Some);
        if let Some(p) = a.slots@[j] {
            let q = p.id;
            assert(q < a.next_pid);
            proc::lemma_find(b.slots@, q, j);
            lemma_only_caps_find(b, c, q);
            assert(cap::slots_of(c, q) == cap::slots_of(b, q));
        }
    }
}

/// The same processes, each new number counted.
pub proof fn lemma_kept_same(a: &ProcTable, b: &ProcTable)
    requires
        a.wf(),
        b.wf(),
        same_processes(a, b),
        a.next_pid <= b.next_pid,
        b.created - a.created == b.next_pid - a.next_pid,
    ensures
        proc::kept(a, b),
{
    assert forall|j: int| 0 <= j < a.slots@.len() implies proc::entry_kept(
        a.slots@[j],
        #[trigger] b.slots@[j],
        a.next_pid,
    ) by {
        assert(b.slots@[j] is Some <==> a.slots@[j] is Some);
        if let Some(p) = a.slots@[j] {
            proc::lemma_find(a.slots@, p.id, j);
            proc::lemma_find(b.slots@, p.id, j);
            assert(cap::slots_of(b, p.id) == cap::slots_of(a, p.id));
        }
    }
}

/// What creating two processes and taking `extra` frames besides comes to, and
/// the error if the frames run out at the end.
pub open spec fn two_and(k: &Kernel, extra: int, dry: &'static str) -> Result<(), &'static str> {
    let n = k.fa.available();
    let l = proc::live(k.procs.slots@);
    if n < 1 {
        Err("frame exhaustion: no PML4 root for a process")
    } else if l > 31 {
        Err("process table full (MAX_PROCESSES)")
    } else if n < 2 {
        Err("frame exhaustion: no PML4 root for a process")
    } else if l > 30 {
        Err("process table full (MAX_PROCESSES)")
    } else if n < 2 + extra {
        Err(dry)
    } else {
        Ok(())
    }
}

/// Two processes with empty spaces and bare roots were added to `pre`.
pub open spec fn pair_made(pre: &Kernel, post: &Kernel, pa: u64, pb: u64) -> bool {
    let ra = accounts::root_of(post, pa);
    let rb = accounts::root_of(post, pb);
    &&& post.wf()
    &&& pa == pre.procs.next_pid
    &&& pb == pa + 1
    &&& post.procs.next_pid == pb + 1
    &&& post.procs.created == pre.procs.created + 2
    &&& proc::find(post.procs.slots@, pa) matches Some(i) && pre.procs.slots@[i] is None
    &&& proc::find(post.procs.slots@, pb) matches Some(i) && pre.procs.slots@[i] is None
    &&& forall|i: int|
        0 <= i < pre.procs.slots@.len() && Some(i) != proc::find(post.procs.slots@, pa) && Some(i)
            != proc::find(post.procs.slots@, pb) ==> #[trigger] post.procs.slots@[i]
            == pre.procs.slots@[i]
    &&& forall|q: u64|
        q != pa && q != pb ==> #[trigger] cap::slots_of(&post.procs, q) == cap::slots_of(
            &pre.procs,
            q,
        )
    &&& cap::slots_of(&post.procs, pa) == Some(blank_space())
    &&& cap::slots_of(&post.procs, pb) == Some(blank_space())
    &&& accounts::bare(post, ra)
    &&& accounts::bare(post, rb)
    &&& accounts::sees_kernel(post, ra)
    &&& accounts::sees_kernel(post, rb)
    &&& ra != rb
    &&& !pre.pg.mem.seats@.dom().contains(ra)
    &&& !pre.pg.mem.seats@.dom().contains(rb)
    &&& post.pg.live_root == pre.pg.live_root
    &&& post.pg.kernel_root == pre.pg.kernel_root
    &&& paging::is_root(pre.pg.mem.seats@, pre.pg.live_root as int)
    &&& post.fa.same_pool(&pre.fa)
    &&& post.fa.free == pre.fa.free - 2
    &&& post.fa.available() == pre.fa.available() - 2
    &&& forall|j: int|
        0 <= j < frames::FRAME_COUNT ==> #[trigger] frames::used(post.fa.map@, j) == (frames::used(
            pre.fa.map@,
            j,
        ) || j * 4096 == ra || j * 4096 == rb)
    &&& !pre.fa.in_use(ra)
    &&& !pre.fa.in_use(rb)
    &&& ra % 4096 == 0
    &&& rb % 4096 == 0
}

/// A process that was made is entered under its name, and others stay so.
pub proof fn lemma_entered(pre: &Kernel, post: &Kernel, name: &'static str)
    requires
        pre.wf(),
        post.wf(),
        proc::created(pre, post, name),
    ensures
        proc::entered(&post.procs, pre.procs.next_pid, name),
        forall|q: u64, n: &'static str| #[trigger]
            proc::entered(&pre.procs, q, n) ==> proc::entered(&post.procs, q, n),
{
    accounts::lemma_created(pre, post, name);
    let i = proc::find(post.procs.slots@, pre.procs.next_pid)->0;
    proc::lemma_find_bounds(post.procs.slots@, pre.procs.next_pid);
    assert forall|q: u64, n: &'static str| #[trigger]
        proc::entered(&pre.procs, q, n) implies proc::entered(&post.procs, q, n) by {
        let x = proc::find(pre.procs.slots@, q)->0;
        proc::lemma_find_bounds(pre.procs.slots@, q);
        assert(x != i);
        assert(pre.procs.slots@[x]->0.id != pre.procs.next_pid);
        assert(proc::find(post.procs.slots@, q) == proc::find(pre.procs.slots@, q));
        assert(post.procs.slots@[x] == pre.procs.slots@[x]);
    }
}

/// New capabilities leave the entries of the processes.
pub proof fn lemma_entered_caps(pre: &ProcTable, post: &ProcTable, pid: u64, name: &'static str)
    requires
        pre.wf(),
        only_caps(pre, post),
        proc::entered(pre, pid, name),
    ensures
        proc::entered(post, pid, name),
{
    lemma_only_caps_find(pre, post, pid);
    proc::lemma_find_bounds(pre.slots@, pid);
    let i = proc::find(pre.slots@, pid)->0;
    assert(post.slots@[i] is Some <==> pre.slots@[i] is Some);
}

/// Create two processes.
pub(crate) fn make_pair(k: &mut Kernel, a: &'static str, b: &'static str) -> (r: Result<
    (u64, u64),
    &'static str,
>)
    requires
        old(k).wf(),
        old(k).procs.next_pid < u64::MAX - 1,
        live_root_stands(old(k)),
    ensures
        final(k).wf(),
        proc::kept(&old(k).procs, &final(k).procs),
        rest::kept(old(k), final(k)),
        match two_and(old(k), 0, "") {
            Err(e) => r == Err::<(u64, u64), &'static str>(e),
            Ok(_) => r matches Ok((pa, pb)) && pair_made(old(k), final(k), pa, pb)
                && proc::entered(&final(k).procs, pa, a) && proc::entered(&final(k).procs, pb, b),
        },
{
    let ghost k0 = *k;
    proof {
        proc::lemma_live(k0.procs.slots@);
        frames::lemma_free_bounds(k0.fa.map@, frames::FRAME_COUNT as int);
    }
    let pa: u64 = match proc::create(k, a) {
        Err(e) => {
            return Err(e);
        },
        Ok(p) => p,
    };
    let ghost k1 = *k;
    proof {
        accounts::lemma_created(&k0, &k1, a);
        lemma_entered(&k0, &k1, a);
        proc::lemma_kept_created(&k0, &k1, a);
        accounts::lemma_bare_created(&k0, &k1, a);
        let i = proc::find(k1.procs.slots@, pa)->0;
        proc::lemma_find_bounds(k1.procs.slots@, pa);
        proc::lemma_live_taken(k0.procs.slots@, i, k1.procs.slots@[i]->0);
        proc::lemma_live(k1.procs.slots@);
        frames::lemma_free_bounds(k1.fa.map@, frames::FRAME_COUNT as int);
    }
    let pb: u64 = match proc::create(k, b) {
        Err(e) => {
            proof {
                rest::lemma_kept_kept(&k0, &k1, k);
            }
            return Err(e);
        },
        Ok(p) => p,
    };
    proof {
        rest::lemma_kept_kept(&k0, &k1, k);
        accounts::lemma_created(&k1, k, b);
        lemma_entered(&k1, k, b);
        accounts::lemma_bare_created(&k1, k, b);
        lemma_pair(&k0, &k1, k, pa, pb);
        proc::lemma_kept_created(&k1, k, b);
        proc::lemma_kept_kept(&k0.procs, &k1.procs, &k.procs);
    }
    Ok((pa, pb))
}

proof fn lemma_pair(k0: &Kernel, k1: &Kernel, k2: &Kernel, pa: u64, pb: u64)
    requires
        k0.wf(),
        k1.wf(),
        k2.wf(),
        live_root_stands(k0),
        pa == k0.procs.next_pid,
        pb == k1.procs.next_pid,
        exists|n: &'static str| #[trigger] proc::created(k0, k1, n),
        exists|n: &'static str| #[trigger] proc::created(k1, k2, n),
        k1.pg.live_root == k0.pg.live_root,
        k2.pg.live_root == k0.pg.live_root,
        k1.pg.kernel_root == k0.pg.kernel_root,
        k2.pg.kernel_root == k0.pg.kernel_root,
    ensures
        pair_made(k0, k2, pa, pb),
{
    let na = choose|n: &'static str| #[trigger] proc::created(k0, k1, n);
    let nb = choose|n: &'static str| #[trigger] proc::created(k1, k2, n);
    accounts::lemma_created(k0, k1, na);
    accounts::lemma_bare_created(k0, k1, na);
    accounts::lemma_created(k1, k2, nb);
    accounts::lemma_bare_created(k1, k2, nb);
    let i = proc::find(k1.procs.slots@, pa)->0;
    let j = proc::find(k2.procs.slots@, pb)->0;
    proc::lemma_find_bounds(k1.procs.slots@, pa);
    proc::lemma_find_bounds(k2.procs.slots@, pb);
    proc::lemma_find_bounds(k2.procs.slots@, pa);
    assert(i != j);
    assert(k2.procs.slots@[i] == k1.procs.slots@[i]);
    assert(k0.procs.slots@[j] == k1.procs.slots@[j]);
    let ra = accounts::root_of(k2, pa);
    let rb = accounts::root_of(k2, pb);
    assert(accounts::bare(k1, accounts::root_of(k1, pa)));
    assert(k1.pg.mem.seats@.dom().contains(ra));
    accounts::law_created_sees_kernel(*k0, *k1, na, k0.pg.kernel_root as int);
    accounts::law_created_sees_kernel(*k1, *k2, nb, ra);
    assert forall|q: u64| q != pa && q != pb implies #[trigger] cap::slots_of(&k2.procs, q)
        == cap::slots_of(&k0.procs, q) by {
        assert(proc::find(k2.procs.slots@, q) == proc::find(k1.procs.slots@, q));
        assert(proc::find(k1.procs.slots@, q) == proc::find(k0.procs.slots@, q));
        proc::lemma_find_bounds(k0.procs.slots@, q);
        if let Some(x) = proc::find(k0.procs.slots@, q) {
            assert(k1.procs.slots@[x] == k0.procs.slots@[x]);
            assert(k2.procs.slots@[x] == k1.procs.slots@[x]);
        }
    }
    assert(cap::slots_of(&k1.procs, pa)->0 =~= blank_space());
    assert(cap::slots_of(&k2.procs, pb)->0 =~= blank_space());
    assert(proc::find(k2.procs.slots@, pa) == proc::find(k1.procs.slots@, pa));
    assert forall|x: int| 0 <= x < frames::FRAME_COUNT implies #[trigger] frames::used(
        k2.fa.map@,
        x,
    ) == (frames::used(k0.fa.map@, x) || x * 4096 == ra || x * 4096 == rb) by {
        if x != rb / 4096 {
            assert(frames::used(k2.fa.map@, x) == frames::used(k1.fa.map@, x));
        }
        if x != ra / 4096 {
            assert(frames::used(k1.fa.map@, x) == frames::used(k0.fa.map@, x));
        }
    }
    assert forall|x: int|
        0 <= x < k0.procs.slots@.len() && Some(x) != proc::find(k2.procs.slots@, pa) && Some(x)
            != proc::find(k2.procs.slots@, pb) implies #[trigger] k2.procs.slots@[x]
        == k0.procs.slots@[x] by {
        assert(k2.procs.slots@[x] == k1.procs.slots@[x]);
        assert(k1.procs.slots@[x] == k0.procs.slots@[x]);
    }
}

/// Two processes' worth of pool and table are back as they were.
pub open spec fn pair_gone(pre: &Kernel, post: &Kernel) -> bool {
    &&& accounts::same_frames(&pre.fa, &post.fa)
    &&& same_processes(&pre.procs, &post.procs)
    &&& post.procs.next_pid == pre.procs.next_pid + 2
    &&& post.procs.created == pre.procs.created + 2
}

/// Drill the slots of the two processes until a capability of the first names
/// the second: it stands in slot 5.
fn drill_spaces(
    t: &mut ProcTable,
    fa: &mut FrameAllocator,
    pa: u64,
    pb: u64,
    frame: u64,
) -> (r: Result<(), &'static str>)
    requires
        old(t).wf(),
        old(fa).wf(),
        pa != pb,
        cap::slots_of(old(t), pa) == Some(blank_space()),
        cap::slots_of(old(t), pb) == Some(blank_space()),
    ensures
        r == Ok::<(), &'static str>(()),
        final(t).wf(),
        *final(fa) == *old(fa),
        only_caps(old(t), final(t)),
        other_caps(old(t), final(t), pa, pb),
        cap::read_answer(final(t), pa, 5) == Ok::<Cap, &'static str>(
            Cap { obj: CapObj::Process { pid: pb }, rights: 15 },
        ),
{
    let ghost t0 = *t;
    match drill_grants(t, pa, pb, frame) {
        Err(e) => {
            return Err(e);
        },
        Ok(_) => {},
    }
    match drill_copies(t, pa, pb, frame) {
        Err(e) => {
            return Err(e);
        },
        Ok(_) => {},
    }
    match drill_moves(t, fa, pa, pb, frame) {
        Err(e) => {
            return Err(e);
        },
        Ok(_) => {},
    }
    match drill_capacity(t, pa, pb, frame) {
        Err(e) => {
            return Err(e);
        },
        Ok(_) => {},
    }
    let ghost t4 = *t;
    proof {
        lemma_rights();
    }
    match cap::destroy(t, fa, pa, 5) {
        Err(e) => {
            return Err(e);
        },
        Ok(_) => {},
    }
    let ghost t5 = *t;
    let ghost full = filled_space(pa, pb, frame, 14);
    proof {
        lemma_slot_step(&t4, &t5, pa, 5, Cap::empty());
        assert(forall|j: int| 0 <= j < 16 ==> !((#[trigger] full[j]).obj is Empty));
        assert(full.update(5, Cap::empty())[5].obj is Empty);
    }
    match cap::grant(t, pa, Cap { obj: CapObj::Process { pid: pb }, rights: RIGHTS_ALL }) {
        Err(e) => {
            return Err(e);
        },
        Ok(s) => {
            proof {
                assert(s == 5) by {
                    let now = full.update(5, Cap::empty());
                    if s != 5 {
                        assert(!(now[s as int].obj is Empty));
                    }
                }
                lemma_slot_step(
                    &t5,
                    t,
                    pa,
                    5,
                    Cap { obj: CapObj::Process { pid: pb }, rights: RIGHTS_ALL },
                );
                assert(only_caps(&t0, t));
            }
        },
    }
    Ok(())
}

/// Two bare processes and one frame besides were added to `pre`.
pub open spec fn pair_and_frame(pre: &Kernel, post: &Kernel, pa: u64, pb: u64, f: int) -> bool {
    let ra = accounts::root_of(post, pa);
    let rb = accounts::root_of(post, pb);
    let s0 = pre.procs.slots@;
    let s1 = post.procs.slots@;
    &&& post.wf()
    &&& pa == pre.procs.next_pid
    &&& pb == pa + 1
    &&& post.procs.next_pid == pb + 1
    &&& post.procs.created == pre.procs.created + 2
    &&& proc::find(s1, pa) matches Some(i) && s0[i] is None
    &&& proc::find(s1, pb) matches Some(i) && s0[i] is None
    &&& s1.len() == s0.len()
    &&& forall|j: int|
        0 <= j < s0.len() && Some(j) != proc::find(s1, pa) && Some(j) != proc::find(s1, pb) ==> {
            &&& #[trigger] s1[j] is Some <==> s0[j] is Some
            &&& s0[j] matches Some(p) ==> s1[j]->0.same_but_caps(&p)
        }
    &&& other_caps(&pre.procs, &post.procs, pa, pb)
    &&& accounts::bare(post, ra)
    &&& accounts::bare(post, rb)
    &&& ra != rb
    &&& post.pg.live_root != ra
    &&& post.pg.live_root != rb
    &&& post.fa.same_pool(&pre.fa)
    &&& post.fa.free == pre.fa.free - 3
    &&& post.fa.available() == pre.fa.available() - 3
    &&& forall|j: int|
        0 <= j < frames::FRAME_COUNT ==> #[trigger] frames::used(post.fa.map@, j) == (frames::used(
            pre.fa.map@,
            j,
        ) || j * 4096 == ra || j * 4096 == rb || j * 4096 == f)
    &&& !pre.fa.in_use(ra)
    &&& !pre.fa.in_use(rb)
    &&& !pre.fa.in_use(f)
    &&& ra % 4096 == 0
    &&& rb % 4096 == 0
    &&& f % 4096 == 0
    &&& post.fa.managed(f)
    &&& f != ra
    &&& f != rb
    &&& !post.pg.mem.seats@.dom().contains(f)
    &&& (f / 4096 + 1) * 512 <= post.pg.mem.words@.len()
}

/// Open the capability-space test: make the processes and run the drill.
#[verifier::spinoff_prover]
#[verifier::rlimit(60)]
fn open_spaces(k: &mut Kernel) -> (r: Result<(u64, u64, u64), &'static str>)
    requires
        old(k).wf(),
        old(k).procs.next_pid < u64::MAX - 1,
        live_root_stands(old(k)),
    ensures
        final(k).wf(),
        proc::kept(&old(k).procs, &final(k).procs),
        rest::kept(old(k), final(k)),
        match two_and(old(k), 1, "frame exhaustion (cap memory)") {
            Err(e) => r == Err::<(u64, u64, u64), &'static str>(e),
            Ok(_) => r matches Ok((pa, pb, f)) && pair_and_frame(
                old(k),
                final(k),
                pa,
                pb,
                f as int,
            ) && cap::read_answer(&final(k).procs, pa, 5) == Ok::<Cap, &'static str>(
                Cap { obj: CapObj::Process { pid: pb }, rights: 15 },
            ),
        },
{
    let ghost k0 = *k;
    let (pa, pb): (u64, u64) = match make_pair(k, "capA", "capB") {
        Err(e) => {
            return Err(e);
        },
        Ok(p) => p,
    };
    let ghost k2 = *k;
    proof {
        frames::lemma_free_bounds(k2.fa.map@, frames::FRAME_COUNT as int);
    }
    let mem_frame: u64 = match frames::alloc_frame(&mut k.fa) {
        None => {
            return Err("frame exhaustion (cap memory)");
        },
        Some(f) => f,
    };
    let ghost k3 = *k;
    proof {
        accounts::lemma_took(&k2, &k3, mem_frame as int);
        assert forall|j: int|
            0 <= j < frames::FRAME_COUNT && #[trigger] frames::used(
                k2.fa.map@,
                j,
            ) implies frames::used(k3.fa.map@, j) by {
            if j != mem_frame as int / 4096 {
                assert(frames::used(k3.fa.map@, j) == frames::used(k2.fa.map@, j));
            }
        }
        rest::lemma_took(&k2, &k3);
        rest::lemma_kept_kept(&k0, &k2, &k3);
    }
    match drill_spaces(&mut k.procs, &mut k.fa, pa, pb, mem_frame) {
        Err(e) => {
            return Err(e);
        },
        Ok(_) => {},
    }
    proof {
        rest::lemma_same(&k3, k);
        rest::lemma_kept_kept(&k0, &k3, k);
        lemma_only_caps_kernel(&k3, k);
        lemma_kept_caps(&k0.procs, &k3.procs, &k.procs, pa, pb);
        lemma_pair_and_frame(&k0, &k2, &k3, k, pa, pb, mem_frame as int);
    }
    Ok((pa, pb, mem_frame))
}

#[verifier::spinoff_prover]
#[verifier::rlimit(60)]
proof fn lemma_pair_and_frame(
    k0: &Kernel,
    k2: &Kernel,
    k3: &Kernel,
    k4: &Kernel,
    pa: u64,
    pb: u64,
    f: int,
)
    requires
        k0.wf(),
        pair_made(k0, k2, pa, pb),
        k3.wf(),
        k3.procs == k2.procs,
        k3.pg == k2.pg,
        k3.fa.same_pool(&k2.fa),
        frames::took(&k2.fa, &k3.fa, f),
        !k2.pg.mem.seats@.dom().contains(f),
        (f / 4096 + 1) * 512 <= k2.pg.mem.words@.len(),
        k4.wf(),
        k4.fa == k3.fa,
        k4.pg == k3.pg,
        only_caps(&k3.procs, &k4.procs),
        other_caps(&k3.procs, &k4.procs, pa, pb),
    ensures
        pair_and_frame(k0, k4, pa, pb, f),
{
    lemma_only_caps_find(&k3.procs, &k4.procs, pa);
    lemma_only_caps_find(&k3.procs, &k4.procs, pb);
    proc::lemma_find_bounds(k4.procs.slots@, pa);
    proc::lemma_find_bounds(k4.procs.slots@, pb);
    let ra = accounts::root_of(k2, pa);
    let rb = accounts::root_of(k2, pb);
    assert(accounts::root_of(k4, pa) == ra && accounts::root_of(k4, pb) == rb);
    assert(accounts::bare(k4, rb));
    assert(accounts::bare(k4, ra));
    assert(k2.pg.mem.seats@.dom().contains(ra));
    assert(k2.pg.mem.seats@.dom().contains(rb));
    assert forall|j: int| 0 <= j < frames::FRAME_COUNT implies #[trigger] frames::used(
        k4.fa.map@,
        j,
    ) == (frames::used(k0.fa.map@, j) || j * 4096 == ra || j * 4096 == rb || j * 4096 == f) by {
        assert(frames::used(k2.fa.map@, j) == (frames::used(k0.fa.map@, j) || j * 4096 == ra || j
            * 4096 == rb));
        if j != f / 4096 {
            assert(frames::used(k3.fa.map@, j) == frames::used(k2.fa.map@, j));
        }
    }
    assert(!frames::used(k0.fa.map@, f / 4096)) by {
        assert(!frames::used(k2.fa.map@, f / 4096));
    }
    let s0 = k0.procs.slots@;
    let s1 = k4.procs.slots@;
    assert forall|j: int|
        0 <= j < s0.len() && Some(j) != proc::find(s1, pa) && Some(j) != proc::find(s1, pb) implies {
        &&& #[trigger] s1[j] is Some <==> s0[j] is Some
        &&& s0[j] matches Some(p) ==> s1[j]->0.same_but_caps(&p)
    } by {
        assert(k2.procs.slots@[j] == s0[j]);
    }
    assert forall|q: u64| q != pa && q != pb implies #[trigger] cap::slots_of(&k4.procs, q)
        == cap::slots_of(&k0.procs, q) by {
        assert(cap::slots_of(&k3.procs, q) == cap::slots_of(&k0.procs, q));
    }
}

/// Destroy the process that a capability of the other names, and meet the
/// refusal of the dangling capability.
#[verifier::spinoff_prover]
#[verifier::rlimit(60)]
fn close_named(k: &mut Kernel, pa: u64, pb: u64) -> (r: Result<(), &'static str>)
    requires
        old(k).wf(),
        pa != pb,
        proc::find(old(k).procs.slots@, pa) is Some,
        proc::find(old(k).procs.slots@, pb) is Some,
        accounts::bare(old(k), accounts::root_of(old(k), pa)),
        accounts::bare(old(k), accounts::root_of(old(k), pb)),
        old(k).pg.live_root != accounts::root_of(old(k), pb),
        cap::read_answer(&old(k).procs, pa, 5) == Ok::<Cap, &'static str>(
            Cap { obj: CapObj::Process { pid: pb }, rights: 15 },
        ),
    ensures
        r == Ok::<(), &'static str>(()),
        final(k).wf(),
        accounts::bare(final(k), accounts::root_of(old(k), pa)),
        proc::removed(old(k), final(k), proc::find(old(k).procs.slots@, pb)->0),
        final(k).fa.same_pool(&old(k).fa),
        final(k).fa.free == old(k).fa.free + 1,
        final(k).fa.available() == old(k).fa.available() + 1,
        forall|j: int|
            0 <= j < frames::FRAME_COUNT ==> #[trigger] frames::used(final(k).fa.map@, j) == (
            frames::used(old(k).fa.map@, j) && j * 4096 != accounts::root_of(old(k), pb)),
        rest::kept_but(
            old(k),
            final(k),
            Set::empty().insert(accounts::root_of(old(k), pb)),
            rest::free_in(final(k)),
        ),
{
    let ghost k4 = *k;
    let ghost ra = accounts::root_of(&k4, pa);
    match accounts::destroy_bare(k, pb) {
        Err(e) => {
            return Err(e);
        },
        Ok(n) => {
            if n != 1 {
                return Err("capB teardown did not free exactly its root");
            }
        },
    }
    proof {
        lemma_without(&k4, k, pb, pa);
        accounts::lemma_bare_removed(&k4, k, proc::find(k4.procs.slots@, pb)->0, ra);
    }
    if cap::process_root(&k.procs, pa, 5).is_ok() {
        return Err("invoke through a dangling process cap was not refused");
    }
    if cap::read(&k.procs, pa, 5).is_err() {
        return Err("dangling cap's reference vanished (destroy is reference-removal only)");
    }
    Ok(())
}

/// The capability-space test: slots, rights, delegation, capacity and dangling
/// references, with every refusal met, and the pool exact at the end.
#[verifier::spinoff_prover]
#[verifier::rlimit(60)]
pub fn test_capability_spaces(k: &mut Kernel) -> (r: Result<(), &'static str>)
    requires
        old(k).wf(),
        old(k).procs.next_pid < u64::MAX - 1,
        live_root_stands(old(k)),
    ensures
        final(k).wf(),
        proc::kept(&old(k).procs, &final(k).procs),
        rest::kept(old(k), final(k)),
        r == two_and(old(k), 1, "frame exhaustion (cap memory)"),
        r is Ok ==> pair_gone(old(k), final(k)),
{
    let ghost k0 = *k;
    let f0: u64 = frames::free_frames(&k.fa);
    let (pa, pb, mem_frame): (u64, u64, u64) = match open_spaces(k) {
        Err(e) => {
            return Err(e);
        },
        Ok(p) => p,
    };
    let ghost k4 = *k;
    match close_named(k, pa, pb) {
        Err(e) => {
            return Err(e);
        },
        Ok(_) => {},
    }
    let ghost k5 = *k;
    let ghost ra = accounts::root_of(&k4, pa);
    proof {
        lemma_without(&k4, &k5, pb, pa);
        assert(frames::used(k5.fa.map@, mem_frame as int / 4096));
        rest::lemma_gone(&k0, &k4, &k5, accounts::root_of(&k4, pb));
    }
    match frames::free(&mut k.fa, mem_frame) {
        Err(_) => {
            return Err("frame free rejected");
        },
        Ok(_) => {},
    }
    let ghost k6 = *k;
    proof {
        assert(!k5.pg.mem.seats@.dom().contains(mem_frame as int));
        lemma_kernel_gave(&k5, &k6, mem_frame as int);
        rest::lemma_gave(&k5, &k6, mem_frame as int);
        rest::lemma_frame(&k0, &k5, &k6, mem_frame as int);
        assert(accounts::root_of(&k6, pa) == ra);
        assert(accounts::bare(&k6, ra));
    }
    match accounts::destroy_bare(k, pa) {
        Err(e) => {
            return Err(e);
        },
        Ok(n) => {
            if n != 1 {
                return Err("capA teardown did not free exactly its root");
            }
        },
    }
    proof {
        lemma_pair_gone(&k0, &k4, &k5, &k6, k, pa, pb, mem_frame as int);
        lemma_kept_same(&k0.procs, &k.procs);
        rest::lemma_gone(&k0, &k6, k, ra);
    }
    let f1: u64 = frames::free_frames(&k.fa);
    if f1 != f0 {
        return Err("capability-space teardown is not frame-exact");
    }
    Ok(())
}

/// A kernel that gave one frame back to the pool is in order.
pub proof fn lemma_kernel_gave(pre: &Kernel, post: &Kernel, f: int)
    requires
        pre.wf(),
        post.fa.wf(),
        post.fa.same_pool(&pre.fa),
        post.pg == pre.pg,
        post.procs == pre.procs,
        frames::gave_back(&pre.fa, &post.fa, f),
        f % 4096 == 0,
        0 <= f < frames::PHYS_LIMIT,
        (f / 4096 + 1) * 512 <= pre.pg.mem.words@.len(),
        !pre.pg.mem.seats@.dom().contains(f),
    ensures
        post.wf(),
{
    paging::lemma_wf_free(&pre.pg.mem, &pre.fa, &post.fa, f);
}

/// Destroying `gone` leaves `kept` where it was, with its capabilities.
pub proof fn lemma_without(pre: &Kernel, post: &Kernel, gone: u64, kept: u64)
    requires
        pre.wf(),
        post.wf(),
        proc::find(pre.procs.slots@, gone) is Some,
        gone != kept,
        proc::removed(pre, post, proc::find(pre.procs.slots@, gone)->0),
    ensures
        proc::find(post.procs.slots@, kept) == proc::find(pre.procs.slots@, kept),
        proc::find(post.procs.slots@, gone) is None,
        cap::slots_of(&post.procs, kept) == cap::slots_of(&pre.procs, kept),
        proc::find(pre.procs.slots@, kept) matches Some(i) ==> post.procs.slots@[i]
            == pre.procs.slots@[i] && accounts::borrower(
            &post.pg.mem,
            pre.procs.slots@[i]->0.pml4_phys as int,
        ) && pre.procs.slots@[i]->0.pml4_phys != accounts::root_of(pre, gone),
{
    let s0 = pre.procs.slots@;
    let s1 = post.procs.slots@;
    let g = proc::find(s0, gone)->0;
    proc::lemma_find_bounds(s0, gone);
    proc::lemma_find_bounds(s0, kept);
    proc::lemma_find_bounds(s1, gone);
    proc::lemma_find_bounds(s1, kept);
    if let Some(i) = proc::find(s0, kept) {
        assert(i != g);
        assert(s1[i] == s0[i]);
        proc::lemma_find(s1, kept, i);
        assert(s0[i] is Some && s0[g] is Some);
        let rt = s1[i]->0.pml4_phys as int;
        assert(crate::views::process_root(&post.pg.mem, post.pg.kernel_root as int, rt));
    } else if let Some(i) = proc::find(s1, kept) {
        assert(s0[i] == s1[i]);
    }
    if let Some(i) = proc::find(s1, gone) {
        assert(s0[i] == s1[i]);
        assert(s0[i] is Some && s0[g] is Some);
    }
}

proof fn lemma_pair_gone(
    k0: &Kernel,
    k4: &Kernel,
    k5: &Kernel,
    k6: &Kernel,
    k7: &Kernel,
    pa: u64,
    pb: u64,
    f: int,
)
    requires
        k0.wf(),
        pair_and_frame(k0, k4, pa, pb, f),
        k5.wf(),
        proc::removed(k4, k5, proc::find(k4.procs.slots@, pb)->0),
        k5.fa.same_pool(&k4.fa),
        k5.fa.free == k4.fa.free + 1,
        k5.fa.available() == k4.fa.available() + 1,
        forall|j: int|
            0 <= j < frames::FRAME_COUNT ==> #[trigger] frames::used(k5.fa.map@, j) == (
            frames::used(k4.fa.map@, j) && j * 4096 != accounts::root_of(k4, pb)),
        k6.procs == k5.procs,
        k6.wf(),
        k6.fa.same_pool(&k5.fa),
        frames::gave_back(&k5.fa, &k6.fa, f),
        k7.wf(),
        proc::removed(k6, k7, proc::find(k4.procs.slots@, pa)->0),
        k7.fa.same_pool(&k6.fa),
        k7.fa.free == k6.fa.free + 1,
        k7.fa.available() == k6.fa.available() + 1,
        forall|j: int|
            0 <= j < frames::FRAME_COUNT ==> #[trigger] frames::used(k7.fa.map@, j) == (
            frames::used(k6.fa.map@, j) && j * 4096 != accounts::root_of(k4, pa)),
    ensures
        pair_gone(k0, k7),
{
    let ra = accounts::root_of(k4, pa);
    let rb = accounts::root_of(k4, pb);
    let s0 = k0.procs.slots@;
    let s7 = k7.procs.slots@;
    let a = proc::find(k4.procs.slots@, pa)->0;
    let b = proc::find(k4.procs.slots@, pb)->0;
    proc::lemma_find_bounds(k4.procs.slots@, pa);
    proc::lemma_find_bounds(k4.procs.slots@, pb);
    lemma_without(k4, k5, pb, pa);
    lemma_without(k6, k7, pa, pb);
    assert forall|j: int| 0 <= j < frames::FRAME_COUNT implies #[trigger] frames::used(
        k7.fa.map@,
        j,
    ) == frames::used(k0.fa.map@, j) by {
        assert(frames::used(k4.fa.map@, j) == (frames::used(k0.fa.map@, j) || j * 4096 == ra || j
            * 4096 == rb || j * 4096 == f));
        if j != f / 4096 {
            assert(frames::used(k6.fa.map@, j) == frames::used(k5.fa.map@, j));
        }
        assert(frames::used(k5.fa.map@, j) == (frames::used(k4.fa.map@, j) && j * 4096 != rb));
        if j * 4096 == ra {
            assert(!k0.fa.in_use(ra));
        }
        if j * 4096 == rb {
            assert(!k0.fa.in_use(rb));
        }
    }
    assert forall|j: int| 0 <= j < s0.len() implies {
        &&& #[trigger] s7[j] is Some <==> s0[j] is Some
        &&& s0[j] matches Some(p) ==> s7[j]->0.same_but_caps(&p)
    } by {
        if j != a && j != b {
            assert(k4.procs.slots@[j] is Some <==> s0[j] is Some);
        }
    }
    assert forall|q: u64| #[trigger] cap::slots_of(&k7.procs, q) == cap::slots_of(
        &k0.procs,
        q,
    ) by {
        proc::lemma_find_bounds(s0, q);
        if q == pa || q == pb {
            if let Some(x) = proc::find(s0, q) {
                assert(s0[x] is Some);
                assert(s0[x]->0.id < k0.procs.next_pid);
            }
        } else {
            lemma_without(k4, k5, pb, q);
            lemma_without(k6, k7, pa, q);
            assert(cap::slots_of(&k4.procs, q) == cap::slots_of(&k0.procs, q));
        }
    }
}

/// Where the churn maps its pages.
pub const P11_VA: u64 = 0x42_0000;

/// What one churn round comes to with `n` frames free and `l` processes alive.
pub open spec fn churn_answer(n: int, l: int) -> Result<u64, &'static str> {
    if n < 1 || l > 31 {
        Err("create failed during churn")
    } else if n < 2 {
        Err("frame exhaustion during churn")
    } else if n < 5 {
        Err("churn map failed")
    } else if n < 8 {
        Err("frame exhaustion during churn")
    } else {
        Ok(8)
    }
}

/// Pool and table are as before, but for one more number handed out.
pub open spec fn one_gone(pre: &Kernel, post: &Kernel) -> bool {
    &&& accounts::same_frames(&pre.fa, &post.fa)
    &&& same_processes(&pre.procs, &post.procs)
    &&& post.procs.next_pid == pre.procs.next_pid + 1
    &&& post.procs.created == pre.procs.created + 1
    &&& post.pg.live_root == pre.pg.live_root
    &&& live_root_stands(post)
}

/// What destroying the process that was just created leaves.
pub proof fn lemma_one_gone(k0: &Kernel, k1: &Kernel, k2: &Kernel, k3: &Kernel, name: &'static str)
    requires
        k0.wf(),
        k1.wf(),
        k2.wf(),
        k3.wf(),
        live_root_stands(k0),
        proc::created(k0, k1, name),
        k2.procs == k1.procs,
        k1.pg.live_root == k0.pg.live_root,
        k2.pg.live_root == k0.pg.live_root,
        paging::seats_kept(&k1.pg.mem, &k2.pg.mem),
        proc::removed(
            k2,
            k3,
            proc::find(k2.procs.slots@, k0.procs.next_pid)->0,
        ),
        accounts::same_frames(&k0.fa, &k3.fa),
    ensures
        one_gone(k0, k3),
{
    let pid = k0.procs.next_pid;
    accounts::lemma_created(k0, k1, name);
    proc::lemma_find_bounds(k1.procs.slots@, pid);
    let i = proc::find(k1.procs.slots@, pid)->0;
    let s0 = k0.procs.slots@;
    let s3 = k3.procs.slots@;
    assert forall|j: int| 0 <= j < s0.len() implies {
        &&& #[trigger] s3[j] is Some <==> s0[j] is Some
        &&& s0[j] matches Some(p) ==> s3[j]->0.same_but_caps(&p)
    } by {
        if j != i {
            assert(k1.procs.slots@[j] == s0[j]);
        }
    }
    assert forall|q: u64| #[trigger] cap::slots_of(&k3.procs, q) == cap::slots_of(
        &k0.procs,
        q,
    ) by {
        proc::lemma_find_bounds(s0, q);
        if q == pid {
            lemma_without(k2, k3, pid, (pid + 1) as u64);
            if let Some(x) = proc::find(s0, q) {
                assert(s0[x] is Some);
                assert(s0[x]->0.id < k0.procs.next_pid);
            }
        } else {
            lemma_without(k2, k3, pid, q);
            assert(proc::find(k1.procs.slots@, q) == proc::find(s0, q));
            if let Some(x) = proc::find(s0, q) {
                assert(k1.procs.slots@[x] == s0[x]);
            }
        }
    }
    let lr = k0.pg.live_root as int;
    assert(k0.pg.mem.seats@.dom().contains(lr));
    assert(k1.pg.mem.seats@.dom().contains(lr));
    assert(k2.pg.mem.seats@.dom().contains(lr));
    let root = accounts::root_of(k2, pid);
    assert(lr != root);
    assert(paging::is_root(k3.pg.mem.seats@, lr));
}

/// One round of the churn: create a process, map four pages into it, destroy
/// it.
#[verifier::spinoff_prover]
#[verifier::rlimit(60)]
fn churn_round(k: &mut Kernel) -> (r: Result<u64, &'static str>)
    requires
        old(k).wf(),
        old(k).procs.next_pid < u64::MAX,
        live_root_stands(old(k)),
    ensures
        final(k).wf(),
        proc::kept(&old(k).procs, &final(k).procs),
        rest::kept(old(k), final(k)),
        r == churn_answer(old(k).fa.available(), proc::live(old(k).procs.slots@)),
        r is Ok ==> final(k).wf() && one_gone(old(k), final(k)),
{
    let ghost k0 = *k;
    proof {
        proc::lemma_live(k0.procs.slots@);
        frames::lemma_free_bounds(k0.fa.map@, frames::FRAME_COUNT as int);
    }
    let pid: u64 = match proc::create(k, "acct") {
        Err(_) => {
            return Err("create failed during churn");
        },
        Ok(p) => p,
    };
    let ghost k1 = *k;
    let ghost rt = accounts::root_of(&k1, pid);
    proof {
        accounts::lemma_created(&k0, &k1, "acct");
        proc::lemma_kept_created(&k0, &k1, "acct");
        accounts::lemma_bare_created(&k0, &k1, "acct");
        accounts::law_create_opens_account(k0, k1, "acct");
        accounts::lemma_tidy_bare(&k1, rt);
        accounts::lemma_bare_missing(&k1, rt, 0x420);
        accounts::lemma_charged_same(&k1, rt);
        proc::lemma_find_bounds(k1.procs.slots@, pid);
    }
    let root: u64 = match proc::pml4_of(&k.procs, pid) {
        None => {
            return Err("churn process PML4 vanished");
        },
        Some(x) => x,
    };
    let mut j: u64 = 0;
    while j < 4
        invariant
            j <= 4,
            k0 == *old(k),
            k0.wf(),
            k1.wf(),
            root == rt,
            k.wf(),
            k.procs == k1.procs,
            proc::kept(&k0.procs, &k1.procs),
            rest::kept(&k0, k),
            !frames::used(k0.fa.map@, rt / 4096),
            k.pg.live_root == k1.pg.live_root,
            k.pg.kernel_root == k1.pg.kernel_root,
            crate::views::process_root(&k.pg.mem, k.pg.kernel_root as int, rt),
            paging::seats_kept(&k1.pg.mem, &k.pg.mem),
            accounts::tidy(k, rt),
            accounts::charged(&k1, k, rt),
            k.fa.same_pool(&k0.fa),
            k0.fa.free - k0.fa.available() == k.fa.free - k.fa.available(),
            k0.fa.available() >= 1,
            proc::live(k0.procs.slots@) <= 31,
            k.fa.available() == k0.fa.available() - 1 - j - (if j > 0 {
                3int
            } else {
                0int
            }),
            j > 0 ==> k0.fa.available() >= 4 + j,
            paging::missing(k.pg.mem.words@, rt, 0x420) == (if j > 0 {
                0int
            } else {
                3int
            }),
            forall|v: int|
                0x420 + j <= v < 0x424 ==> #[trigger] paging::leaf(k.pg.mem.words@, rt, v) is None,
        decreases 4 - j,
    {
        let ghost kj = *k;
        let va: u64 = P11_VA + j * 0x1000;
        let ghost v = va as int / 4096;
        proof {
            assert(v == 0x420 + j);
            accounts::lemma_same_table(kj.pg.mem.words@, rt, v, 0x420);
            assert(paging::leaf(kj.pg.mem.words@, rt, v) is None);
            assert(paging::is_table(kj.pg.mem.words@, kj.pg.mem.seats@, rt));
        }
        let added: accounts::Added = accounts::add_page(k, root, va, true, false);
        proof {
            rest::lemma_mine(&k0, &kj, k, rt);
        }
        match added {
            accounts::Added::NoFrame => {
                return Err("frame exhaustion during churn");
            },
            accounts::Added::NoTable => {
                return Err("churn map failed");
            },
            accounts::Added::Page(f) => {
                proof {
                    accounts::lemma_tidy_page(&kj, k, rt, va, f as int, true, false);
                    accounts::lemma_charged_charged(&k1, &kj, k, rt);
                    accounts::lemma_same_table(k.pg.mem.words@, rt, v, 0x420);
                    assert forall|x: int| 0x420 + j + 1 <= x < 0x424 implies #[trigger] paging::leaf(
                        k.pg.mem.words@,
                        rt,
                        x,
                    ) is None by {
                        assert(paging::leaf(kj.pg.mem.words@, rt, x) is None);
                    }
                }
            },
        }
        j = j + 1;
    }
    let ghost k2 = *k;
    proof {
        accounts::law_charges_keep_account(k0.fa, k1, k2, rt);
        assert(k0.pg.mem.seats@.dom().contains(k0.pg.live_root as int));
    }
    let freed: u64 = match accounts::close_account(k, pid, Ghost(k0.fa)) {
        Err(e) => {
            return Err(e);
        },
        Ok(n) => n,
    };
    proof {
        lemma_one_gone(&k0, &k1, &k2, k, "acct");
        lemma_kept_same(&k0.procs, &k.procs);
        rest::lemma_gone(&k0, &k2, k, rt);
    }
    Ok(freed)
}

/// What filling the table comes to with `n` frames free and `l` processes
/// alive.
pub open spec fn fill_answer(n: int, l: int) -> Result<(), &'static str> {
    if n < proc::MAX_PROCESSES && n <= proc::MAX_PROCESSES - l {
        Err("frame exhaustion: no PML4 root for a process")
    } else if l > 0 {
        Err("process table full (MAX_PROCESSES)")
    } else {
        Ok(())
    }
}

/// Process `pid` lives in `k`, bare, with a root that was free in `k0`.
pub open spec fn filler_at(k0: &Kernel, k: &Kernel, pid: u64, root: int) -> bool {
    &&& proc::find(k.procs.slots@, pid) is Some
    &&& accounts::root_of(k, pid) == root
    &&& accounts::bare(k, root)
    &&& !k0.pg.mem.seats@.dom().contains(root)
    &&& !k0.fa.in_use(root)
}

/// Processes `first + m` up to `first + n` live in `k`, bare, with the roots
/// `roots[m]` up to `roots[n]`, and nothing else was taken since `k0`.
#[verifier::opaque]
pub open spec fn fillers(
    k0: &Kernel,
    k: &Kernel,
    first: int,
    roots: Seq<int>,
    m: int,
    n: int,
) -> bool {
    &&& k.wf()
    &&& k.fa.same_pool(&k0.fa)
    &&& k.fa.free == k0.fa.free - (n - m)
    &&& k.fa.available() == k0.fa.available() - (n - m)
    &&& k.pg.live_root == k0.pg.live_root
    &&& live_root_stands(k)
    &&& roots.len() >= n
    &&& forall|x: int| m <= x < n ==> #[trigger] filler_at(k0, k, (first + x) as u64, roots[x])
    &&& forall|j: int|
        0 <= j < frames::FRAME_COUNT ==> #[trigger] frames::used(k.fa.map@, j) == (frames::used(
            k0.fa.map@,
            j,
        ) || root_among(roots, m, n, j * 4096))
    &&& proc::live(k0.procs.slots@) == 0 ==> forall|s: int|
        0 <= s < k.procs.slots@.len() ==> (#[trigger] k.procs.slots@[s] matches Some(p) ==> first
            + m <= p.id < first + n)
}

/// `r` is one of the roots.
pub open spec fn root_among(roots: Seq<int>, m: int, n: int, r: int) -> bool {
    exists|x: int| m <= x < n && #[trigger] roots[x] == r
}

proof fn lemma_no_fillers(k: &Kernel, first: int)
    requires
        k.wf(),
        live_root_stands(k),
    ensures
        fillers(k, k, first, Seq::empty(), 0, 0),
{
    reveal(fillers);
    if proc::live(k.procs.slots@) == 0 {
        assert forall|s: int| 0 <= s < k.procs.slots@.len() implies #[trigger] k.procs.slots@[s] is None by {
            lemma_none_live(k.procs.slots@, s);
        }
    }
}

proof fn lemma_none_live(slots: Seq<Option<proc::Process>>, s: int)
    requires
        proc::live(slots) == 0,
        0 <= s < slots.len(),
    ensures
        slots[s] is None,
    decreases slots.len(),
{
    proc::lemma_live(slots.drop_last());
    if s < slots.len() - 1 {
        lemma_none_live(slots.drop_last(), s);
        assert(slots.drop_last()[s] == slots[s]);
    } else {
        assert(slots.last() == slots[s]);
    }
}

/// One more process was created.
#[verifier::spinoff_prover]
#[verifier::rlimit(60)]
proof fn lemma_filler_made(
    k0: &Kernel,
    k1: &Kernel,
    k2: &Kernel,
    first: int,
    roots: Seq<int>,
    n: int,
    name: &'static str,
)
    requires
        k0.wf(),
        k2.wf(),
        0 <= n,
        first >= 1,
        roots.len() == n,
        fillers(k0, k1, first, roots, 0, n),
        k1.procs.next_pid == first + n,
        proc::created(k1, k2, name),
        k2.pg.live_root == k1.pg.live_root,
    ensures
        fillers(
            k0,
            k2,
            first,
            roots.push(accounts::root_of(k2, k1.procs.next_pid)),
            0,
            n + 1,
        ),
        proc::live(k2.procs.slots@) == proc::live(k1.procs.slots@) + 1,
{
    reveal(fillers);
    let pid = k1.procs.next_pid;
    let r = accounts::root_of(k2, pid);
    let all = roots.push(r);
    accounts::lemma_created(k1, k2, name);
    accounts::lemma_bare_created(k1, k2, name);
    proc::lemma_find_bounds(k2.procs.slots@, pid);
    let i = proc::find(k2.procs.slots@, pid)->0;
    proc::lemma_live_taken(k1.procs.slots@, i, k2.procs.slots@[i]->0);
    assert(k1.pg.mem.seats@.dom().contains(k1.pg.live_root as int));
    assert forall|x: int| 0 <= x < n + 1 implies #[trigger] filler_at(
        k0,
        k2,
        (first + x) as u64,
        all[x],
    ) by {
        if x < n {
            assert(all[x] == roots[x]);
            let q = (first + x) as u64;
            assert(filler_at(k0, k1, q, roots[x]));
            assert(proc::find(k2.procs.slots@, q) == proc::find(k1.procs.slots@, q));
            proc::lemma_find_bounds(k1.procs.slots@, q);
            let a = proc::find(k1.procs.slots@, q)->0;
            assert(k2.procs.slots@[a] == k1.procs.slots@[a]);
            assert(accounts::bare(k1, roots[x]));
        } else {
            assert(!frames::used(k1.fa.map@, r / 4096));
            if k0.pg.mem.seats@.dom().contains(r) {
                assert(k0.fa.in_use(r));
            }
        }
    }
    assert forall|j: int| 0 <= j < frames::FRAME_COUNT implies #[trigger] frames::used(
        k2.fa.map@,
        j,
    ) == (frames::used(k0.fa.map@, j) || root_among(all, 0, n + 1, j * 4096)) by {
        if root_among(roots, 0, n, j * 4096) {
            let x = choose|x: int| 0 <= x < n && #[trigger] roots[x] == j * 4096;
            assert(all[x] == j * 4096);
        }
        if root_among(all, 0, n + 1, j * 4096) {
            let x = choose|x: int| 0 <= x < n + 1 && #[trigger] all[x] == j * 4096;
            if x < n {
                assert(roots[x] == j * 4096);
            }
        }
        if j == r / 4096 {
            assert(all[n] == j * 4096);
        } else {
            assert(frames::used(k2.fa.map@, j) == frames::used(k1.fa.map@, j));
        }
    }
    if proc::live(k0.procs.slots@) == 0 {
        assert forall|s: int| 0 <= s < k2.procs.slots@.len() implies (#[trigger] k2.procs.slots@[s] matches Some(
            p,
        ) ==> first + 0 <= p.id < first + n + 1) by {
            if s != i {
                assert(k2.procs.slots@[s] == k1.procs.slots@[s]);
            }
        }
    }
}

/// The first of them was destroyed.
#[verifier::spinoff_prover]
#[verifier::rlimit(60)]
proof fn lemma_filler_gone(
    k0: &Kernel,
    k1: &Kernel,
    k2: &Kernel,
    first: int,
    roots: Seq<int>,
    m: int,
    n: int,
)
    requires
        k0.wf(),
        k2.wf(),
        0 <= m < n,
        first >= 1,
        first + n <= u64::MAX,
        fillers(k0, k1, first, roots, m, n),
        proc::removed(k1, k2, proc::find(k1.procs.slots@, (first + m) as u64)->0),
        k2.fa.same_pool(&k1.fa),
        k2.fa.free == k1.fa.free + 1,
        k2.fa.available() == k1.fa.available() + 1,
        forall|j: int|
            0 <= j < frames::FRAME_COUNT ==> #[trigger] frames::used(k2.fa.map@, j) == (
            frames::used(k1.fa.map@, j) && j * 4096 != accounts::root_of(
                k1,
                (first + m) as u64,
            )),
        live_root_stands(k0),
    ensures
        fillers(k0, k2, first, roots, m + 1, n),
{
    reveal(fillers);
    let gone = (first + m) as u64;
    let g = proc::find(k1.procs.slots@, gone)->0;
    assert(filler_at(k0, k1, gone, roots[m]));
    proc::lemma_find_bounds(k1.procs.slots@, gone);
    assert(k0.pg.mem.seats@.dom().contains(k0.pg.live_root as int));
    assert(paging::is_root(k2.pg.mem.seats@, k2.pg.live_root as int));
    assert forall|x: int| m + 1 <= x < n implies #[trigger] filler_at(
        k0,
        k2,
        (first + x) as u64,
        roots[x],
    ) by {
        let q = (first + x) as u64;
        assert(filler_at(k0, k1, q, roots[x]));
        lemma_without(k1, k2, gone, q);
        proc::lemma_find_bounds(k1.procs.slots@, q);
        accounts::lemma_bare_removed(k1, k2, g, roots[x]);
    }
    assert forall|j: int| 0 <= j < frames::FRAME_COUNT implies #[trigger] frames::used(
        k2.fa.map@,
        j,
    ) == (frames::used(k0.fa.map@, j) || root_among(roots, m + 1, n, j * 4096)) by {
        assert(frames::used(k1.fa.map@, j) == (frames::used(k0.fa.map@, j) || root_among(
            roots,
            m,
            n,
            j * 4096,
        )));
        if root_among(roots, m, n, j * 4096) && j * 4096 != roots[m] {
            let x = choose|x: int| m <= x < n && #[trigger] roots[x] == j * 4096;
            assert(x != m);
        }
        if root_among(roots, m + 1, n, j * 4096) {
            let x = choose|x: int| m + 1 <= x < n && #[trigger] roots[x] == j * 4096;
            let q = (first + x) as u64;
            assert(filler_at(k0, k1, q, roots[x]));
            lemma_without(k1, k2, gone, q);
            proc::lemma_find_bounds(k1.procs.slots@, q);
            assert(roots[x] != roots[m]);
        }
        if j * 4096 == roots[m] {
            assert(!k0.fa.in_use(roots[m]));
        }
    }
    if proc::live(k0.procs.slots@) == 0 {
        assert forall|s: int| 0 <= s < k2.procs.slots@.len() implies (#[trigger] k2.procs.slots@[s] matches Some(
            p,
        ) ==> first + m + 1 <= p.id < first + n) by {
            if s != g && k1.procs.slots@[s] is Some {
                assert(k2.procs.slots@[s] == k1.procs.slots@[s]);
                assert(k1.procs.slots@[s]->0.id != gone) by {
                    assert(k1.procs.slots@[s] is Some && k1.procs.slots@[g] is Some);
                }
            }
        }
    }
}

/// A refused creation changes nothing about the processes that live.
proof fn lemma_fillers_borrowed(
    k0: &Kernel,
    k1: &Kernel,
    k2: &Kernel,
    first: int,
    roots: Seq<int>,
    n: int,
)
    requires
        k2.wf(),
        fillers(k0, k1, first, roots, 0, n),
        k2.procs == k1.procs,
        k2.pg.live_root == k1.pg.live_root,
        proc::frame_borrowed(k1, k2),
    ensures
        fillers(k0, k2, first, roots, 0, n),
{
    reveal(fillers);
    assert forall|x: int| 0 <= x < n implies #[trigger] filler_at(
        k0,
        k2,
        (first + x) as u64,
        roots[x],
    ) by {
        assert(filler_at(k0, k1, (first + x) as u64, roots[x]));
        assert forall|v: int| 0 <= v < USER_PAGES implies #[trigger] paging::leaf(
            k2.pg.mem.words@,
            roots[x],
            v,
        ) is None by {
            assert(paging::leaf(k1.pg.mem.words@, roots[x], v) is None);
        }
    }
    assert forall|j: int| 0 <= j < frames::FRAME_COUNT implies #[trigger] frames::used(
        k2.fa.map@,
        j,
    ) == (frames::used(k0.fa.map@, j) || root_among(roots, 0, n, j * 4096)) by {
        assert(frames::used(k2.fa.map@, j) == frames::used(k1.fa.map@, j));
    }
}

/// Create processes until the table is full.
#[verifier::spinoff_prover]
#[verifier::rlimit(60)]
fn fill_table(k: &mut Kernel) -> (r: Result<Ghost<Seq<int>>, &'static str>)
    requires
        old(k).wf(),
        old(k).procs.next_pid < u64::MAX - 40,
        live_root_stands(old(k)),
    ensures
        final(k).wf(),
        proc::kept(&old(k).procs, &final(k).procs),
        rest::kept(old(k), final(k)),
        match fill_answer(old(k).fa.available(), proc::live(old(k).procs.slots@)) {
            Err(e) => r is Err && r->Err_0 == e,
            Ok(_) => r matches Ok(g) && fillers(
                old(k),
                final(k),
                old(k).procs.next_pid as int,
                g@,
                0,
                32,
            ) && proc::live(final(k).procs.slots@) == 32 && final(k).procs.next_pid == old(
                k,
            ).procs.next_pid + 32 && final(k).procs.created == old(k).procs.created + 32,
        },
{
    let ghost k0 = *k;
    let ghost first = k0.procs.next_pid as int;
    let ghost mut roots: Seq<int> = Seq::empty();
    proof {
        rest::lemma_same(&k0, k);
        lemma_no_fillers(k, first);
        proc::lemma_live(k0.procs.slots@);
        frames::lemma_free_bounds(k0.fa.map@, frames::FRAME_COUNT as int);
    }
    let mut n: usize = 0;
    while n < proc::MAX_PROCESSES
        invariant
            n <= 32,
            k0 == *old(k),
            k0.wf(),
            k.wf(),
            first == k0.procs.next_pid,
            first < u64::MAX - 40,
            first >= 1,
            roots.len() == n,
            fillers(&k0, k, first, roots, 0, n as int),
            proc::kept(&k0.procs, &k.procs),
            rest::kept(&k0, k),
            k.procs.next_pid == first + n,
            k.procs.created == k0.procs.created + n,
            proc::live(k.procs.slots@) == proc::live(k0.procs.slots@) + n,
            n <= k0.fa.available(),
            k.fa.available() == k0.fa.available() - n,
            proc::live(k0.procs.slots@) + n <= 32,
        decreases 32 - n,
    {
        let ghost kn = *k;
        proof {
            proc::lemma_live(kn.procs.slots@);
            frames::lemma_free_bounds(kn.fa.map@, frames::FRAME_COUNT as int);
            proc::lemma_live(k0.procs.slots@);
        }
        let made: Result<u64, &'static str> = proc::create(k, "full");
        proof {
            rest::lemma_kept_kept(&k0, &kn, k);
        }
        match made {
            Err(e) => {
                return Err(e);
            },
            Ok(_) => {
                proof {
                    lemma_filler_made(&k0, &kn, k, first, roots, n as int, "full");
                    proc::lemma_kept_created(&kn, k, "full");
                    proc::lemma_kept_kept(&k0.procs, &kn.procs, &k.procs);
                    roots = roots.push(accounts::root_of(k, kn.procs.next_pid));
                    proc::lemma_live(k.procs.slots@);
                    reveal(fillers);
                }
            },
        }
        n = n + 1;
    }
    proof {
        proc::lemma_live(k0.procs.slots@);
    }
    Ok(Ghost(roots))
}

/// Fill the table, meet its limit, and empty it again.
#[verifier::spinoff_prover]
#[verifier::rlimit(60)]
fn table_round(k: &mut Kernel) -> (r: Result<(), &'static str>)
    requires
        old(k).wf(),
        old(k).procs.next_pid < u64::MAX - 40,
        live_root_stands(old(k)),
    ensures
        final(k).wf(),
        proc::kept(&old(k).procs, &final(k).procs),
        rest::kept(old(k), final(k)),
        r == fill_answer(old(k).fa.available(), proc::live(old(k).procs.slots@)),
        r is Ok ==> {
            &&& accounts::same_frames(&old(k).fa, &final(k).fa)
            &&& same_processes(&old(k).procs, &final(k).procs)
            &&& final(k).procs.next_pid == old(k).procs.next_pid + 32
            &&& final(k).procs.created == old(k).procs.created + 32
            &&& live_root_stands(final(k))
            &&& final(k).pg.live_root == old(k).pg.live_root
        },
{
    let ghost k0 = *k;
    let first: u64 = k.procs.next_pid;
    let ghost roots: Seq<int>;
    match fill_table(k) {
        Err(e) => {
            return Err(e);
        },
        Ok(g) => {
            proof {
                roots = g@;
            }
        },
    }
    let ghost k1 = *k;
    proof {
        reveal(fillers);
        proc::lemma_live(k1.procs.slots@);
        proc::lemma_live(k0.procs.slots@);
        frames::lemma_free_bounds(k1.fa.map@, frames::FRAME_COUNT as int);
    }
    if proc::create(k, "overflow").is_ok() {
        return Err("process table accepted a create beyond MAX_PROCESSES");
    }
    proof {
        rest::lemma_kept_kept(&k0, &k1, k);
        if paging::can_take(&k1.fa, 1) {
            lemma_fillers_borrowed(&k0, &k1, k, first as int, roots, 32);
        }
    }
    if proc::live_count(&k.procs) != proc::MAX_PROCESSES {
        return Err("live_count disagrees with the full table");
    }
    let mut m: usize = 0;
    while m < proc::MAX_PROCESSES
        invariant
            m <= 32,
            k0 == *old(k),
            k0.wf(),
            k.wf(),
            live_root_stands(&k0),
            first == k0.procs.next_pid,
            1 <= first < u64::MAX - 40,
            fillers(&k0, k, first as int, roots, m as int, 32),
            rest::kept(&k0, k),
            k.procs.next_pid == first + 32,
            k.procs.created == k0.procs.created + 32,
            k.pg.live_root == k0.pg.live_root,
            fill_answer(k0.fa.available(), proc::live(k0.procs.slots@)) is Ok,
        decreases 32 - m,
    {
        let ghost km = *k;
        let pid: u64 = first + m as u64;
        proof {
            reveal(fillers);
            assert(filler_at(&k0, &km, (first + m) as u64, roots[m as int]));
            assert(k0.pg.mem.seats@.dom().contains(k0.pg.live_root as int));
        }
        match accounts::destroy_bare(k, pid) {
            Err(e) => {
                return Err(e);
            },
            Ok(freed) => {
                if freed != 1 {
                    return Err("empty-process destroy did not free exactly its root");
                }
            },
        }
        proof {
            lemma_filler_gone(&k0, &km, k, first as int, roots, m as int, 32);
            reveal(fillers);
            rest::lemma_gone(&k0, &km, k, roots[m as int]);
        }
        m = m + 1;
    }
    proof {
        lemma_all_gone(&k0, k, first as int, roots);
        lemma_kept_same(&k0.procs, &k.procs);
    }
    Ok(())
}

proof fn lemma_all_gone(k0: &Kernel, k: &Kernel, first: int, roots: Seq<int>)
    requires
        k0.wf(),
        fillers(k0, k, first, roots, 32, 32),
        proc::live(k0.procs.slots@) == 0,
    ensures
        accounts::same_frames(&k0.fa, &k.fa),
        same_processes(&k0.procs, &k.procs),
        live_root_stands(k),
{
    reveal(fillers);
    assert forall|j: int| 0 <= j < frames::FRAME_COUNT implies #[trigger] frames::used(
        k.fa.map@,
        j,
    ) == frames::used(k0.fa.map@, j) by {
        assert(!root_among(roots, 32, 32, j * 4096));
    }
    assert forall|s: int| 0 <= s < k.procs.slots@.len() implies #[trigger] k.procs.slots@[s] is None
        && k0.procs.slots@[s] is None by {
        lemma_none_live(k0.procs.slots@, s);
    }
    assert forall|q: u64| #[trigger] cap::slots_of(&k.procs, q) == cap::slots_of(
        &k0.procs,
        q,
    ) by {
        proc::lemma_find_bounds(k.procs.slots@, q);
        proc::lemma_find_bounds(k0.procs.slots@, q);
        if let Some(x) = proc::find(k.procs.slots@, q) {
            assert(k.procs.slots@[x] is None);
        }
        if let Some(x) = proc::find(k0.procs.slots@, q) {
            assert(k.procs.slots@[x] is None && k0.procs.slots@[x] is None);
        }
    }
}

/// What the first two parts of the accounting test come to.
pub open spec fn accounting_answer(k: &Kernel) -> Result<u64, &'static str> {
    let n = k.fa.available();
    let l = proc::live(k.procs.slots@);
    match churn_answer(n, l) {
        Err(e) => Err(e),
        Ok(freed) => match fill_answer(n, l) {
            Err(e) => Err(e),
            Ok(_) => Ok(freed),
        },
    }
}

proof fn lemma_same_live(a: Seq<Option<proc::Process>>, b: Seq<Option<proc::Process>>)
    requires
        a.len() == b.len(),
        forall|j: int| 0 <= j < a.len() ==> (#[trigger] a[j] is Some <==> b[j] is Some),
    ensures
        proc::live(a) == proc::live(b),
    decreases a.len(),
{
    if a.len() > 0 {
        let x = a.drop_last();
        let y = b.drop_last();
        assert forall|j: int| 0 <= j < x.len() implies (#[trigger] x[j] is Some <==> y[j] is Some) by {
            assert(a[j] == x[j] && b[j] == y[j]);
        }
        lemma_same_live(x, y);
        assert(a[a.len() - 1] == a.last() && b[b.len() - 1] == b.last());
        assert(a[a.len() - 1] is Some <==> b[b.len() - 1] is Some);
    }
}

/// The accounting of processes: eight rounds of creating, mapping and
/// destroying, then a full table that refuses one more and is emptied again;
/// the pool is exact after each. Answers how many frames a round gave back.
#[verifier::spinoff_prover]
#[verifier::rlimit(60)]
pub fn accounting_rounds(k: &mut Kernel) -> (r: Result<u64, &'static str>)
    requires
        old(k).wf(),
        old(k).procs.next_pid < u64::MAX - 48,
        live_root_stands(old(k)),
    ensures
        final(k).wf(),
        proc::kept(&old(k).procs, &final(k).procs),
        rest::kept(old(k), final(k)),
        r == accounting_answer(old(k)),
        r is Ok ==> {
            &&& accounts::same_frames(&old(k).fa, &final(k).fa)
            &&& same_processes(&old(k).procs, &final(k).procs)
            &&& final(k).procs.created == old(k).procs.created + 40
            &&& final(k).procs.next_pid == old(k).procs.next_pid + 40
        },
{
    let ghost k0 = *k;
    let f0: u64 = frames::free_frames(&k.fa);
    let ct0: u64 = proc::created_total(&k.procs);
    let mut last_freed: u64 = 0;
    let mut round: u64 = 0;
    proof {
        rest::lemma_same(&k0, k);
    }
    while round < 8
        invariant
            round <= 8,
            k0 == *old(k),
            k.wf(),
            k0.wf(),
            live_root_stands(k),
            rest::kept(&k0, k),
            k.procs.next_pid == k0.procs.next_pid + round,
            k.procs.created == k0.procs.created + round,
            k0.procs.next_pid < u64::MAX - 48,
            accounts::same_frames(&k0.fa, &k.fa),
            same_processes(&k0.procs, &k.procs),
            round > 0 ==> churn_answer(k0.fa.available(), proc::live(k0.procs.slots@)) == Ok::<
                u64,
                &'static str,
            >(last_freed),
        decreases 8 - round,
    {
        proof {
            lemma_same_live(k.procs.slots@, k0.procs.slots@);
        }
        let ghost kr = *k;
        proof {
            lemma_kept_same(&k0.procs, &kr.procs);
        }
        let res = churn_round(k);
        proof {
            proc::lemma_kept_kept(&k0.procs, &kr.procs, &k.procs);
            rest::lemma_kept_kept(&k0, &kr, k);
        }
        match res {
            Err(e) => {
                return Err(e);
            },
            Ok(n) => {
                last_freed = n;
            },
        }
        round = round + 1;
    }
    if frames::free_frames(&k.fa) != f0 {
        return Err("process churn frame accounting is not exact");
    }
    proof {
        lemma_same_live(k.procs.slots@, k0.procs.slots@);
    }
    let ghost kt = *k;
    proof {
        lemma_kept_same(&k0.procs, &kt.procs);
    }
    let res = table_round(k);
    proof {
        proc::lemma_kept_kept(&k0.procs, &kt.procs, &k.procs);
        rest::lemma_kept_kept(&k0, &kt, k);
    }
    match res {
        Err(e) => {
            return Err(e);
        },
        Ok(_) => {},
    }
    if frames::free_frames(&k.fa) != f0 {
        return Err("table-full round leaked frames");
    }
    if proc::created_total(&k.procs) - ct0 != 8 + proc::MAX_PROCESSES as u64 {
        return Err("created_total disagrees with the churn (the refused create must not count)");
    }
    Ok(last_freed)
}

} // verus!

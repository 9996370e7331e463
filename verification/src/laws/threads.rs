//! Threads: who runs next, on which stack and in which address space, and what
//! a thread starts with.

use vstd::prelude::*;
use crate::frames::FrameAllocator;
use crate::paging::PhysMem;
use crate::preempt;
use crate::preempt::Preempt;
use crate::sched;
use crate::sched::{KThread, Plan, Sched, State};

verus! {

/// The root of the address space that is live once a plan was carried out.
pub open spec fn root_after(p: Plan, live: u64) -> u64 {
    match p.cr3 {
        Some(x) => x,
        None => live,
    }
}

/// The thread that the processor runs.
pub open spec fn running(s: &Sched) -> KThread {
    s.threads@[s.cpus@[0].current as int]->0
}

/// The same thread, whatever its state.
pub open spec fn same_thread(t: KThread, u: KThread) -> bool {
    &&& t.id == u.id
    &&& t.name == u.name
    &&& t.entry == u.entry
    &&& t.arg == u.arg
    &&& t.stack_base == u.stack_base
    &&& t.stack_frames == u.stack_frames
    &&& t.cr3 == u.cr3
    &&& t.regions == u.regions
}

/// No thread turned into another, and none is gone but those that had ended.
pub open spec fn threads_stay(s0: &Sched, s1: &Sched) -> bool {
    &&& s1.threads@.len() == s0.threads@.len()
    &&& forall|i: int|
        0 <= i < s0.threads@.len() && (#[trigger] s1.threads@[i]) is Some ==> s0.threads@[i] is Some
            && same_thread(s0.threads@[i]->0, s1.threads@[i]->0)
    &&& forall|i: int|
        0 <= i < s0.threads@.len() && (#[trigger] s0.threads@[i]) is Some && (s0.threads@[i]->0.state
            != State::Zombie || i == s0.cpus@[0].current) ==> s1.threads@[i] is Some
}

/// The processor was handed from the thread that ran to the one that had waited
/// longest: that one runs and no other, on the stack it had stopped on, with
/// the kernel's entry stack and the address space its own.
pub open spec fn handed_over(s0: &Sched, s1: &Sched, live: u64, p: Plan) -> bool {
    let from = s0.cpus@[0].current;
    let to = s1.cpus@[0].current;
    let t = running(s1);
    &&& s0.cpus@[0].ready@.len() > 0
    &&& to == s0.cpus@[0].ready@[0]
    &&& s1.threads@[to as int] is Some
    &&& t.state == State::Running
    &&& forall|i: int|
        0 <= i < s1.threads@.len() && i != to && (#[trigger] s1.threads@[i]) is Some
            ==> s1.threads@[i]->0.state != State::Running
    &&& p.save == from
    &&& p.restore == s0.ctx@[to as int]
    &&& s1.ctx@ == s0.ctx@
    &&& t.cr3 != 0 ==> root_after(p, live) == t.cr3
    &&& t.cr3 == 0 ==> root_after(p, live) == live
    &&& t.stack_frames == 0 ==> p.rsp0 is None
    &&& t.stack_frames > 0 ==> p.rsp0 is Some && p.rsp0->0 == (t.stack_base + 0x8000
        + 0xFFFF_FFFF_8000_0000) % 0x1_0000_0000_0000_0000
}

proof fn lemma_switched(
    s0: &Sched,
    a: &Sched,
    threads: Seq<Option<KThread>>,
    s1: &Sched,
    f0: &FrameAllocator,
    f1: &FrameAllocator,
    mem: &PhysMem,
    enqueue: bool,
    live: u64,
    p: Plan,
)
    requires
        s0.wf(f0, mem),
        s1.wf(f1, mem),
        *a == (Sched { switches: a.switches, ..*s0 }),
        sched::switched(a, threads, s1, enqueue, live, p),
        threads == s0.threads@ || threads == sched::ended(s0.threads@, s0.current()),
    ensures
        handed_over(s0, s1, live, p),
        threads_stay(s0, s1),
{
    let cur = s0.current();
    let next = s0.queue()[0] as int;
    assert(sched::in_state(s0.threads@[next], State::Ready));
    assert(next != cur);
    let t = s1.threads@[next]->0;
    assert(sched::has_stack(s1.threads@[next]) ==> sched::stack_ok(t, f1, mem));
    assert forall|i: int|
        0 <= i < s1.threads@.len() && i != next && (#[trigger] s1.threads@[i]) is Some implies s1.threads@[i]->0.state
        != State::Running by {
        assert(!sched::in_state(s1.threads@[i], State::Running));
    }
}

/// A yield hands the processor to the thread that has waited longest, in that
/// thread's own address space; the one that yielded is ready and waits behind
/// all others. With nobody waiting, nothing is switched.
#[verifier::rlimit(40)]
pub proof fn law_yield_switches(
    s0: Sched,
    f0: FrameAllocator,
    s1: Sched,
    f1: FrameAllocator,
    mem: PhysMem,
    live: u64,
    r: Result<Option<Plan>, &'static str>,
)
    requires
        s0.wf(&f0, &mem),
        sched::yielded(&s0, &f0, &s1, &f1, &mem, live, r),
        r is Ok,
    ensures
        r->Ok_0 is Some <==> s0.cpus@[0].ready@.len() > 0,
        threads_stay(&s0, &s1),
        r matches Ok(None) ==> s1.cpus@[0].current == s0.cpus@[0].current && running(&s1)
            == running(&s0) && s1.cpus@[0].ready@ == s0.cpus@[0].ready@,
        r matches Ok(Some(p)) ==> {
            let from = s0.cpus@[0].current;
            let q = s0.cpus@[0].ready@;
            &&& handed_over(&s0, &s1, live, p)
            &&& s1.threads@[from as int]->0.state == State::Ready
            &&& s1.cpus@[0].ready@.len() == q.len()
            &&& s1.cpus@[0].ready@[q.len() - 1] == from
            &&& forall|i: int| 0 <= i < q.len() - 1 ==> s1.cpus@[0].ready@[i] == #[trigger] q[i + 1]
        },
{
    if let Ok(Some(p)) = r {
        let a = Sched {
            switches: vstd::wrapping::u64_specs::wrapping_add(s0.switches, 1),
            ..s0
        };
        lemma_switched(&s0, &a, s0.threads@, &s1, &f0, &f1, &mem, true, live, p);
        assert(sched::in_state(s0.threads@[s0.queue()[0] as int], State::Ready));
    }
}

/// A thread that ends hands the processor on in the same way, and is not
/// waiting for it any more.
#[verifier::rlimit(40)]
pub proof fn law_exit_switches(
    s0: Sched,
    f0: FrameAllocator,
    s1: Sched,
    f1: FrameAllocator,
    mem: PhysMem,
    live: u64,
    p: Plan,
)
    requires
        s0.wf(&f0, &mem),
        sched::exited(&s0, &f0, &s1, &f1, &mem, live, Ok(p)),
    ensures
        handed_over(&s0, &s1, live, p),
        threads_stay(&s0, &s1),
        s1.threads@[s0.cpus@[0].current as int]->0.state == State::Zombie,
        !s1.cpus@[0].ready@.contains(s0.cpus@[0].current),
        s1.cpus@[0].ready@.len() + 1 == s0.cpus@[0].ready@.len(),
{
    let a = Sched { switches: vstd::wrapping::u64_specs::wrapping_add(s0.switches, 1), ..s0 };
    let th = sched::ended(s0.threads@, s0.current());
    lemma_switched(&s0, &a, th, &s1, &f0, &f1, &mem, false, live, p);
    assert(sched::in_state(s0.threads@[s0.queue()[0] as int], State::Ready));
    if s1.cpus@[0].ready@.contains(s0.cpus@[0].current) {
        let k = choose|k: int|
            0 <= k < s1.queue().len() && s1.queue()[k] == s0.cpus@[0].current;
        assert(sched::in_state(s1.threads@[s1.queue()[k] as int], State::Ready));
    }
}

/// A timer tick that takes the processor away hands it on as a yield does; it
/// does so only while preemption is on, at the last tick of a slice, and gives
/// the next thread a whole slice. Any other tick only counts.
#[verifier::rlimit(40)]
pub proof fn law_tick_switches(
    p0: Preempt,
    p1: Preempt,
    s0: Sched,
    f0: FrameAllocator,
    s1: Sched,
    f1: FrameAllocator,
    mem: PhysMem,
    live: u64,
    r: Result<Option<Plan>, &'static str>,
)
    requires
        s0.wf(&f0, &mem),
        preempt::tick_answer(&p0, &p1, &s0, &s1, &f0, &f1, &mem, live, r),
        r is Ok,
    ensures
        r->Ok_0 is Some <==> p0.on && s0.cpus@[0].slice > 0 && s0.cpus@[0].remaining <= 1
            && s0.cpus@[0].ready@.len() > 0,
        threads_stay(&s0, &s1),
        s1.cpus@[0].slice == s0.cpus@[0].slice,
        r matches Ok(None) ==> s1.cpus@[0].current == s0.cpus@[0].current && s1.cpus@[0].ready@
            == s0.cpus@[0].ready@ && p1.count == p0.count,
        r matches Ok(Some(p)) ==> {
            &&& handed_over(&s0, &s1, live, p)
            &&& s1.cpus@[0].remaining == s0.cpus@[0].slice
            &&& s1.threads@[s0.cpus@[0].current as int]->0.state == State::Ready
            &&& s1.cpus@[0].ready@.len() == s0.cpus@[0].ready@.len()
            &&& s1.cpus@[0].ready@.last() == s0.cpus@[0].current
            &&& p1.count == (p0.count + 1) % 0x1_0000_0000_0000_0000
        },
        p0.on && s0.cpus@[0].slice > 0 && s0.cpus@[0].remaining > 1 ==> s1.cpus@[0].remaining
            == s0.cpus@[0].remaining - 1,
{
    if let Ok(Some(p)) = r {
        let a = Sched {
            switches: vstd::wrapping::u64_specs::wrapping_add(s0.switches, 1),
            ..s0
        };
        lemma_switched(&s0, &a, s0.threads@, &s1, &f0, &f1, &mem, true, live, p);
        assert(sched::in_state(s0.threads@[s0.queue()[0] as int], State::Ready));
    }
}

/// What starting a thread leaves: a thread of its own number, with the name,
/// function, argument and address space it was given, ready and last in the
/// queue; its stack has a guard word at the bottom and, where the first switch
/// to it picks up, the flags, eight registers that are zero, and the address to
/// return to. Nobody else is touched.
#[verifier::rlimit(40)]
pub proof fn law_spawn_makes_the_thread(
    s0: Sched,
    f0: FrameAllocator,
    m0: PhysMem,
    s1: Sched,
    f1: FrameAllocator,
    m1: PhysMem,
    name: &'static str,
    entry: usize,
    arg: usize,
    cr3: u64,
    trampoline: u64,
    id: u64,
)
    requires
        s0.wf(&f0, &m0),
        s0.next_id < u64::MAX,
        sched::spawn_answer(&s0, &f0, &m0, &s1, &f1, &m1, name, entry, arg, cr3, trampoline, Ok(id)),
    ensures
        id == s0.next_id,
        s1.next_id == s0.next_id + 1,
        s1.cpus@[0].ready@.len() == s0.cpus@[0].ready@.len() + 1,
        s1.cpus@[0].current == s0.cpus@[0].current,
        ({
            let i = s1.cpus@[0].ready@.last() as int;
            let t = s1.threads@[i]->0;
            let sp = s1.ctx@[i] - 0xFFFF_FFFF_8000_0000;
            &&& 0 <= i < 64
            &&& s1.threads@[i] is Some
            &&& t.id == id
            &&& t.name == name
            &&& t.entry == entry
            &&& t.arg == arg
            &&& t.cr3 == cr3
            &&& t.state == State::Ready
            &&& t.stack_frames == 8
            &&& s0.threads@[i] is None || s0.threads@[i]->0.state == State::Zombie
            &&& m1.words@[t.stack_base as int / 8] == sched::STACK_CANARY
            &&& sp == t.stack_base + 0x8000 - 80
            &&& m1.words@[sp / 8 + 9] == trampoline
            &&& m1.words@[sp / 8] == 0x002
            &&& forall|k: int| 1 <= k < 9 ==> #[trigger] m1.words@[sp / 8 + k] == 0
            &&& forall|j: int|
                0 <= j < 64 && j != i ==> (#[trigger] s1.threads@[j] == s0.threads@[j]
                    || s0.threads@[j]->0.state == State::Zombie)
        }),
{
    let mid = choose|mid: FrameAllocator|
        #[trigger] sched::buried_freed(s0.threads@, s0.current(), &f0, &mid) && sched::started(
            &s0,
            &mid,
            &m0,
            &s1,
            &f1,
            &m1,
            name,
            entry,
            arg,
            cr3,
            trampoline,
            Ok(id),
        );
    let th = sched::alive(s0.threads@, s0.current(), 64);
    let (idx, base) = choose|idx: int, base: u64|
        {
            &&& #[trigger] sched::first_free(th, idx)
            &&& #[trigger] sched::stack_taken(&mid, &f1, base)
            &&& base + 0x8000 <= 0x8000_0000
            &&& sched::stack_laid(&m0, &m1, base, trampoline)
            &&& sched::newborn(s1.threads@[idx], id, name, entry, arg, base, cr3)
            &&& s1.threads@ == th.update(idx, s1.threads@[idx])
            &&& s1.ctx@ == s0.ctx@.update(
                idx,
                vstd::wrapping::u64_specs::wrapping_add(
                    (base + 0x7FB0) as u64,
                    0xFFFF_FFFF_8000_0000,
                ),
            )
            &&& s1.queue() == s0.queue().push(idx as usize)
        };
    let i = s1.cpus@[0].ready@.last() as int;
    assert(i == idx);
    let w = base as int / 8;
    let sp = s1.ctx@[i] - 0xFFFF_FFFF_8000_0000;
    assert(sp / 8 == w + 4086);
    assert forall|k: int| 0 <= k < 10 implies #[trigger] m1.words@[sp / 8 + k]
        == crate::context::first_frame(trampoline)[k] by {
        assert(m1.words@[w + 4086 + k] == crate::context::first_frame(trampoline)[k]);
    }
    assert(m1.words@[sp / 8 + 9] == trampoline);
    assert(m1.words@[sp / 8 + 0] == 2);
}

/// A thread that was started in an address space runs in it: whenever a switch
/// makes it the running one, the live root is then the one it was started with.
#[verifier::rlimit(40)]
pub proof fn law_thread_runs_in_its_space(
    s0: Sched,
    f0: FrameAllocator,
    m0: PhysMem,
    s1: Sched,
    f1: FrameAllocator,
    m1: PhysMem,
    name: &'static str,
    entry: usize,
    arg: usize,
    cr3: u64,
    trampoline: u64,
    id: u64,
    s2: Sched,
    f2: FrameAllocator,
    live: u64,
    p: Plan,
)
    requires
        s0.wf(&f0, &m0),
        s0.next_id < u64::MAX,
        cr3 != 0,
        sched::spawn_answer(&s0, &f0, &m0, &s1, &f1, &m1, name, entry, arg, cr3, trampoline, Ok(id)),
        sched::yielded(&s1, &f1, &s2, &f2, &m1, live, Ok(Some(p))),
        running(&s2).id == id,
    ensures
        root_after(p, live) == cr3,
{
    law_spawn_makes_the_thread(
        s0,
        f0,
        m0,
        s1,
        f1,
        m1,
        name,
        entry,
        arg,
        cr3,
        trampoline,
        id,
    );
    law_yield_switches(s1, f1, s2, f2, m1, live, Ok(Some(p)));
    let i = s1.cpus@[0].ready@.last() as int;
    let to = s2.cpus@[0].current as int;
    assert(s2.threads@[to] is Some);
    assert(same_thread(s1.threads@[to]->0, s2.threads@[to]->0));
    assert(s1.threads@[i] is Some && s1.threads@[to] is Some);
    assert(i == to);
}

} // verus!

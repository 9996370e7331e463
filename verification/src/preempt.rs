//! Time slices: the timer takes the processor away from a thread whose slice
//! is used up.

use vstd::prelude::*;
use crate::frames::FrameAllocator;
use crate::paging::PhysMem;
use crate::ring::MAX_THREADS;
use crate::sched;
use crate::sched::{plan_switch, this_cpu, CpuSched, Plan, Sched};

verus! {

/// How many transitions are kept.
pub const LOG_CAP: usize = 64;

/// Whether the timer preempts, how often it has, and the first transitions.
pub struct Preempt {
    pub on: bool,
    pub count: u64,
    pub log: Vec<u64>,
}

impl Preempt {
    pub open spec fn wf(&self) -> bool {
        self.log@.len() <= LOG_CAP
    }

    pub fn new() -> (p: Preempt)
        ensures
            p.wf(),
            !p.on,
            p.count == 0,
            p.log@ == Seq::<u64>::empty(),
    {
        Preempt { on: false, count: 0, log: Vec::new() }
    }
}

/// Only the slice of the first processor differs: it and what is left of it
/// are both `slice`.
pub open spec fn sliced(a: &Sched, b: &Sched, slice: u32, remaining: u32) -> bool {
    &&& *b == (Sched { cpus: b.cpus, ..*a })
    &&& b.cpus@ == a.cpus@.update(0, CpuSched { slice, remaining, ..a.cpus@[0] })
}

fn set_slice(s: &mut Sched, slice: u32, remaining: u32)
    requires
        old(s).shape(),
    ensures
        sliced(old(s), final(s), slice, remaining),
        final(s).shape(),
{
    let me: usize = this_cpu();
    let mut cpu: CpuSched = s.cpus[me];
    cpu.slice = slice;
    cpu.remaining = remaining;
    s.cpus.set(me, cpu);
}

/// Preempt threads after `slice_ticks` ticks, and after one at the least.
pub fn enable(p: &mut Preempt, s: &mut Sched, slice_ticks: u32)
    requires
        old(s).shape(),
    ensures
        *final(p) == (Preempt { on: true, ..*old(p) }),
        ({
            let slice = if slice_ticks == 0 {
                1
            } else {
                slice_ticks
            };
            sliced(old(s), final(s), slice, slice)
        }),
{
    let slice: u32 = if slice_ticks == 0 {
        1
    } else {
        slice_ticks
    };
    set_slice(s, slice, slice);
    p.on = true;
}

/// Preempt no more.
pub fn disable(p: &mut Preempt, s: &mut Sched)
    requires
        old(s).shape(),
    ensures
        *final(p) == (Preempt { on: false, ..*old(p) }),
        sliced(old(s), final(s), 0, 0),
{
    p.on = false;
    set_slice(s, 0, 0);
}

/// Whether the timer preempts.
pub fn enabled(p: &Preempt) -> (r: bool)
    ensures
        r == p.on,
{
    p.on
}

/// How often the timer has preempted.
pub fn total(p: &Preempt) -> (r: u64)
    ensures
        r == p.count,
{
    p.count
}

/// How many transitions are kept.
pub fn log_len(p: &Preempt) -> (r: usize)
    ensures
        r == p.log@.len(),
{
    p.log.len()
}

/// The transition that was kept as number `i`.
pub fn log_entry(p: &Preempt, i: usize) -> (r: Option<u64>)
    requires
        p.wf(),
    ensures
        r == (if i < p.log@.len() {
            Some(p.log@[i as int])
        } else {
            None
        }),
{
    if i < p.log.len() && p.log.len() <= LOG_CAP {
        Some(p.log[i])
    } else {
        None
    }
}

/// A transition as one word: the slot that ran, and the slot that runs now.
pub open spec fn transition(from: int, to: int) -> int {
    from * 0x1_0000_0000 + to
}

/// Count a transition, and keep it while there is room.
pub fn record_transition(p: &mut Preempt, from: usize, to: usize)
    requires
        old(p).wf(),
        from < 0x1_0000_0000,
        to < 0x1_0000_0000,
    ensures
        final(p).wf(),
        recorded(old(p), final(p), from as int, to as int),
{
    p.count = p.count.wrapping_add(1);
    let a: u64 = from as u64;
    let b: u64 = to as u64;
    assert(a << 32u64 | b == a * 0x1_0000_0000 + b) by (bit_vector)
        requires
            a < 0x1_0000_0000,
            b < 0x1_0000_0000,
    ;
    if p.log.len() < LOG_CAP {
        p.log.push(a << 32 | b);
    }
}

/// What recording a transition does.
pub open spec fn recorded(a: &Preempt, b: &Preempt, from: int, to: int) -> bool {
    &&& b.on == a.on
    &&& b.count == vstd::wrapping::u64_specs::wrapping_add(a.count, 1)
    &&& b.log@ == (if a.log@.len() < LOG_CAP {
        a.log@.push(transition(from, to) as u64)
    } else {
        a.log@
    })
}

/// The scheduler after a tick: one tick less is left of the slice.
pub open spec fn ticked(a: &Sched, b: &Sched) -> bool {
    let left = a.cpus@[0].remaining;
    sliced(
        a,
        b,
        a.cpus@[0].slice,
        if left == 0 {
            0
        } else {
            (left - 1) as u32
        },
    )
}

/// The tick uses the slice up.
pub open spec fn expires(s: &Sched) -> bool {
    s.cpus@[0].remaining <= 1
}

/// What [`on_timer_tick`] answers and does.
pub open spec fn tick_answer(
    p0: &Preempt,
    p1: &Preempt,
    s0: &Sched,
    s1: &Sched,
    f0: &FrameAllocator,
    f1: &FrameAllocator,
    mem: &PhysMem,
    live_cr3: u64,
    r: Result<Option<Plan>, &'static str>,
) -> bool {
    if !p0.on || s0.cpus@[0].slice == 0 {
        &&& r == Ok::<Option<Plan>, &'static str>(None)
        &&& *p1 == *p0
        &&& *s1 == *s0
        &&& *f1 == *f0
    } else if !expires(s0) {
        &&& r == Ok::<Option<Plan>, &'static str>(None)
        &&& *p1 == *p0
        &&& ticked(s0, s1)
        &&& *f1 == *f0
    } else {
        match sched::switch_fault(s0, mem, true) {
            Some(e) => {
                &&& r == Err::<Option<Plan>, &'static str>(e)
                &&& *p1 == *p0
                &&& exists|mid: Sched|
                    ticked(s0, &mid) && #[trigger] sched::stopped(
                        &mid,
                        s0.threads@,
                        f0,
                        s1,
                        f1,
                        mem,
                    )
            },
            None => {
                &&& sched::buried_freed(
                    s0.threads@,
                    s0.current(),
                    f0,
                    f1,
                )
                &&& s1.wf(f1, mem)
                &&& if s0.queue().len() == 0 {
                    &&& r == Ok::<Option<Plan>, &'static str>(None)
                    &&& *p1 == *p0
                    &&& sched::stayed(s0, s0.threads@, s1)
                } else {
                    &&& r matches Ok(Some(plan)) && sched::switched(
                        &(Sched {
                            switches: vstd::wrapping::u64_specs::wrapping_add(
                                s0.switches,
                                1,
                            ),
                            ..*s0
                        }),
                        s0.threads@,
                        s1,
                        true,
                        live_cr3,
                        plan,
                    )
                    &&& recorded(
                        p0,
                        p1,
                        s0.current(),
                        s1.current(),
                    )
                }
            },
        }
    }
}

/// A timer tick: count the slice down, and plan a switch when it is used up.
///
/// The answer is `Ok(None)` where nothing is to be switched. The kernel stops
/// on an error.
pub fn on_timer_tick(
    p: &mut Preempt,
    s: &mut Sched,
    fa: &mut FrameAllocator,
    mem: &PhysMem,
    live_cr3: u64,
) -> (r: Result<Option<Plan>, &'static str>)
    requires
        old(p).wf(),
        old(s).wf(old(fa), mem),
    ensures
        final(p).wf(),
        mem.wf(final(fa)),
        tick_answer(
            old(p),
            final(p),
            old(s),
            final(s),
            old(fa),
            final(fa),
            mem,
            live_cr3,
            r,
        ),
{
    if !p.on {
        return Ok(None);
    }
    let me: usize = this_cpu();
    let cpu: CpuSched = s.cpus[me];
    if cpu.slice == 0 {
        return Ok(None);
    }
    let left: u32 = if cpu.remaining == 0 {
        0
    } else {
        cpu.remaining - 1
    };
    let ghost s0 = *s;
    set_slice(s, cpu.slice, left);
    proof {
        assert(s.wf(fa, mem));
    }
    if left != 0 {
        return Ok(None);
    }
    let from: usize = cpu.current;
    let ghost s1 = *s;
    let ghost f0 = *fa;
    match plan_switch(s, fa, mem, true, live_cr3) {
        Err(e) => {
            proof {
                assert(sched::stopped(&s1, s0.threads@, &f0, s, fa, mem));
            }
            Err(e)
        },
        Ok(None) => {
            assert(s.cpus@ =~= s0.cpus@.update(
                0,
                CpuSched { remaining: s0.cpus@[0].slice, ..s0.cpus@[0] },
            ));
            Ok(None)
        },
        Ok(Some(plan)) => {
            let to: usize = s.cpus[me].current;
            record_transition(p, from, to);
            s.switches = s.switches.wrapping_add(1);
            Ok(Some(plan))
        },
    }
}

/// A slice lasts as many ticks as it was set to: with `s[0]` at the start of a
/// slice and one tick from each state to the next, the tick that uses it up is
/// the last of them, neither sooner nor later.
pub proof fn law_slice_lasts(s: Seq<Sched>, slice: u32, i: int)
    requires
        0 < slice,
        0 <= i < s.len(),
        forall|k: int| 0 <= k < s.len() ==> (#[trigger] s[k]).shape(),
        s[0].cpus@[0].slice == slice,
        s[0].cpus@[0].remaining == slice,
        forall|k: int|
            0 <= k < s.len() - 1 ==> !expires(&#[trigger] s[k]) && ticked(&s[k], &s[k + 1]),
    ensures
        i < slice,
        s[i].cpus@[0].slice == slice,
        s[i].cpus@[0].remaining == slice - i,
        expires(&s[i]) <==> i == slice - 1,
    decreases i,
{
    if i > 0 {
        law_slice_lasts(s, slice, i - 1);
        assert(!expires(&s[i - 1]) && ticked(&s[i - 1], &s[i - 1 + 1]));
    }
}

/// A slice that runs out with nobody to switch to starts anew, and counts in
/// full for a thread that becomes ready afterwards. `before` is the scheduler
/// at the tick that used the slice up on an empty queue, `after` what that tick
/// left, and `s[0]` is `after` with one thread started. Then one tick leads
/// from each of `s` to the next without a switch; the tick that switches is the
/// one after `slice - 1` of them, neither sooner nor later, and the thread is
/// still queued for it.
pub proof fn law_empty_queue_starts_a_slice(
    before: Sched,
    after: Sched,
    f0: FrameAllocator,
    m0: PhysMem,
    f1: FrameAllocator,
    m1: PhysMem,
    name: &'static str,
    entry: usize,
    arg: usize,
    cr3: u64,
    trampoline: u64,
    id: u64,
    s: Seq<Sched>,
    i: int,
)
    requires
        before.cpus@.len() > 0,
        0 < before.cpus@[0].slice,
        before.queue().len() == 0,
        sched::stayed(&before, before.threads@, &after),
        0 <= i < s.len(),
        forall|k: int| 0 <= k < s.len() ==> (#[trigger] s[k]).shape(),
        sched::spawn_answer(
            &after,
            &f0,
            &m0,
            &s[0],
            &f1,
            &m1,
            name,
            entry,
            arg,
            cr3,
            trampoline,
            Ok(id),
        ),
        forall|k: int|
            0 <= k < s.len() - 1 ==> !expires(&#[trigger] s[k]) && ticked(&s[k], &s[k + 1]),
    ensures
        i < before.cpus@[0].slice,
        expires(&s[i]) <==> i == before.cpus@[0].slice - 1,
        s[i].queue().len() > 0,
    decreases i,
{
    let slice = before.cpus@[0].slice;
    assert(s[0].cpus@[0].slice == slice && s[0].cpus@[0].remaining == slice);
    law_slice_lasts(s, slice, i);
    if i > 0 {
        law_empty_queue_starts_a_slice(
            before,
            after,
            f0,
            m0,
            f1,
            m1,
            name,
            entry,
            arg,
            cr3,
            trampoline,
            id,
            s,
            i - 1,
        );
        assert(ticked(&s[i - 1], &s[i - 1 + 1]));
    }
}

} // verus!

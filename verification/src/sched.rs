//! Kernel threads and the order in which they run.
//!
//! A switch is planned here and carried out by the processor: a plan names
//! the slot whose stack pointer is to be saved, the stack pointer to go on
//! with, and what else has to be set before.

use vstd::prelude::*;
use crate::context;
use crate::context::new_thread_stack;
use crate::frames;
use crate::frames::FrameAllocator;
use crate::paging;
use crate::paging::{PhysMem, KERNEL_OFFSET, PAGE};
use crate::ring::{Ring, MAX_THREADS};

verus! {

pub const MAX_CPUS: usize = 4;
pub const THREAD_STACK_FRAMES: usize = 8;
pub const THREAD_STACK_BYTES: u64 = 0x8000;

/// The word at the bottom of every thread's stack.
pub const STACK_CANARY: u64 = 0x4152_454E_4153_544B;
pub const USER_REGIONS_MAX: usize = 4;

/// How much physical memory a stack may lie in.
pub const DIRECT_MAP_LIMIT: u64 = 0x8000_0000;

#[derive(Clone, Copy, Debug, PartialEq, Eq, Structural)]
pub enum State {
    Ready,
    Running,
    Zombie,
}

/// A thread. `entry` is the address of the function it starts with.
#[derive(Clone, Copy)]
pub struct KThread {
    pub id: u64,
    pub name: &'static str,
    pub state: State,
    pub entry: usize,
    pub arg: usize,
    pub stack_base: u64,
    pub stack_frames: usize,
    pub cr3: u64,
    pub regions: [(u64, u64); USER_REGIONS_MAX],
}

/// What one processor runs, and what waits for it.
#[derive(Clone, Copy)]
pub struct CpuSched {
    pub current: usize,
    pub ready: Ring,
    pub slice: u32,
    pub remaining: u32,
}

impl CpuSched {
    pub fn new() -> (c: CpuSched)
        ensures
            c.current == 0,
            c.ready.wf(),
            c.ready@ == Seq::<usize>::empty(),
            c.slice == 0,
            c.remaining == 0,
    {
        CpuSched { current: 0, ready: Ring::new(), slice: 0, remaining: 0 }
    }
}

/// A switch that is to be made: save the stack pointer for slot `save`, go on
/// with `restore`. Before that, take kernel entries on `rsp0` and use the
/// address space `cr3`, where they are given.
#[derive(Clone, Copy, Debug, PartialEq, Eq, Structural)]
pub struct Plan {
    pub save: usize,
    pub restore: u64,
    pub rsp0: Option<u64>,
    pub cr3: Option<u64>,
}

/// All threads, the stack pointers of those that do not run, and the queues.
pub struct Sched {
    pub threads: Vec<Option<KThread>>,
    pub ctx: Vec<u64>,
    pub cpus: Vec<CpuSched>,
    pub next_id: u64,
    pub switches: u64,
    pub spawned: u64,
}

pub open spec fn in_state(o: Option<KThread>, st: State) -> bool {
    o matches Some(t) && t.state == st
}

pub open spec fn has_stack(o: Option<KThread>) -> bool {
    o matches Some(t) && t.stack_frames > 0
}

/// Frame `j` is part of the thread's stack.
pub open spec fn stack_frame(o: Option<KThread>, j: int) -> bool {
    has_stack(o) && o->0.stack_base as int / 4096 <= j < o->0.stack_base as int / 4096 + 8
}

/// A stack lies in frames of the pool that are in use and hold no table.
pub open spec fn stack_ok(t: KThread, fa: &FrameAllocator, mem: &PhysMem) -> bool {
    &&& t.stack_frames == THREAD_STACK_FRAMES
    &&& t.stack_base % 4096 == 0
    &&& t.stack_base + THREAD_STACK_BYTES <= DIRECT_MAP_LIMIT
    &&& (t.stack_base + THREAD_STACK_BYTES) / 8 <= mem.words@.len()
    &&& forall|j: int|
        t.stack_base as int / 4096 <= j < t.stack_base as int / 4096 + 8 ==> #[trigger] frames::used(
            fa.map@,
            j,
        ) && !frames::used(fa.origin@, j) && !mem.seats@.dom().contains(j * 4096)
}

/// Whether a stack is in order depends on where it lies alone.
proof fn lemma_stack_alike(t: KThread, u: KThread, fa: &FrameAllocator, mem: &PhysMem)
    requires
        stack_ok(t, fa, mem),
        u.stack_base == t.stack_base,
        u.stack_frames == t.stack_frames,
    ensures
        stack_ok(u, fa, mem),
{
}

/// A stack stays in order while its frames stay in use and hold no table.
proof fn lemma_stack_stays(
    t: KThread,
    f0: &FrameAllocator,
    m0: &PhysMem,
    f1: &FrameAllocator,
    m1: &PhysMem,
)
    requires
        stack_ok(t, f0, m0),
        m1.words@.len() == m0.words@.len(),
        m1.seats@ == m0.seats@,
        f1.origin@ == f0.origin@,
        forall|j: int|
            t.stack_base as int / 4096 <= j < t.stack_base as int / 4096 + 8
                ==> #[trigger] frames::used(f1.map@, j),
    ensures
        stack_ok(t, f1, m1),
{
    assert forall|j: int|
        t.stack_base as int / 4096 <= j < t.stack_base as int / 4096
            + 8 implies #[trigger] frames::used(f1.map@, j) && !frames::used(f1.origin@, j)
        && !m1.seats@.dom().contains(j * 4096) by {
        assert(frames::used(f0.map@, j));
    }
}

/// Every stack is in order and no two share a frame.
pub open spec fn stacks_ok(
    threads: Seq<Option<KThread>>,
    fa: &FrameAllocator,
    mem: &PhysMem,
) -> bool {
    &&& forall|i: int|
        0 <= i < threads.len() && has_stack(#[trigger] threads[i]) ==> stack_ok(
            threads[i]->0,
            fa,
            mem,
        )
    &&& forall|i: int, k: int, j: int|
        #![trigger stack_frame(threads[i], j), stack_frame(threads[k], j)]
        0 <= i < k < threads.len() ==> !(stack_frame(threads[i], j) && stack_frame(threads[k], j))
}

/// The word at the bottom of the stack is still the canary.
pub open spec fn canary_ok(o: Option<KThread>, mem: &PhysMem) -> bool {
    has_stack(o) ==> mem.words@[o->0.stack_base as int / 8] == STACK_CANARY
}

impl Sched {
    pub open spec fn queue(&self) -> Seq<usize> {
        self.cpus@[0].ready@
    }

    pub open spec fn current(&self) -> int {
        self.cpus@[0].current as int
    }

    pub open spec fn shape(&self) -> bool {
        &&& self.threads@.len() == MAX_THREADS
        &&& self.ctx@.len() == MAX_THREADS
        &&& self.cpus@.len() == MAX_CPUS
        &&& self.cpus@[0].ready.wf()
        &&& self.current() < MAX_THREADS
    }

    /// The queue holds every ready thread once, and nothing else; no thread
    /// but the current one runs.
    pub open spec fn queue_ok(&self) -> bool {
        &&& self.queue().no_duplicates()
        &&& forall|k: int|
            0 <= k < self.queue().len() ==> (#[trigger] self.queue()[k]) < MAX_THREADS && in_state(
                self.threads@[self.queue()[k] as int],
                State::Ready,
            )
        &&& forall|i: int|
            0 <= i < MAX_THREADS && in_state(#[trigger] self.threads@[i], State::Ready)
                ==> self.queue().contains(i as usize)
        &&& forall|i: int|
            0 <= i < MAX_THREADS && i != self.current() ==> !in_state(
                #[trigger] self.threads@[i],
                State::Running,
            )
    }

    /// No two threads share a number, and none has one that is still to come.
    pub open spec fn ids_ok(&self) -> bool {
        &&& forall|i: int|
            0 <= i < MAX_THREADS && (#[trigger] self.threads@[i]) is Some ==> self.threads@[i]->0.id
                < self.next_id
        &&& forall|i: int, k: int|
            0 <= i < k < MAX_THREADS && (#[trigger] self.threads@[i]) is Some
                && (#[trigger] self.threads@[k]) is Some ==> self.threads@[i]->0.id
                != self.threads@[k]->0.id
    }

    pub open spec fn wf(&self, fa: &FrameAllocator, mem: &PhysMem) -> bool {
        &&& self.shape()
        &&& self.queue_ok()
        &&& self.ids_ok()
        &&& in_state(self.threads@[self.current()], State::Running)
        &&& stacks_ok(self.threads@, fa, mem)
        &&& mem.wf(fa)
        &&& fa.ready
    }

    /// No threads, nothing counted.
    pub fn new() -> (s: Sched)
        ensures
            s.shape(),
            forall|i: int| 0 <= i < MAX_THREADS ==> #[trigger] s.threads@[i] is None,
            forall|i: int| 0 <= i < MAX_THREADS ==> #[trigger] s.ctx@[i] == 0,
            s.queue() == Seq::<usize>::empty(),
            forall|i: int|
                0 <= i < MAX_CPUS ==> (#[trigger] s.cpus@[i]).current == 0 && s.cpus@[i].ready@
                    == Seq::<usize>::empty() && s.cpus@[i].slice == 0 && s.cpus@[i].remaining == 0,
            s.current() == 0,
            s.next_id == 1,
            s.switches == 0,
            s.spawned == 0,
    {
        let mut threads: Vec<Option<KThread>> = Vec::new();
        let mut ctx: Vec<u64> = Vec::new();
        let mut i: usize = 0;
        while i < MAX_THREADS
            invariant
                i <= MAX_THREADS,
                threads@.len() == i,
                ctx@.len() == i,
                forall|j: int| 0 <= j < i ==> #[trigger] threads@[j] is None,
                forall|j: int| 0 <= j < i ==> #[trigger] ctx@[j] == 0,
            decreases MAX_THREADS - i,
        {
            threads.push(None);
            ctx.push(0);
            i = i + 1;
        }
        Sched { threads, ctx, cpus: fresh_cpus(), next_id: 1, switches: 0, spawned: 0 }
    }
}

/// The queues of all processors, empty.
fn fresh_cpus() -> (r: Vec<CpuSched>)
    ensures
        r@.len() == MAX_CPUS,
        forall|i: int|
            0 <= i < MAX_CPUS ==> (#[trigger] r@[i]).current == 0 && r@[i].ready.wf() && r@[i].ready@
                == Seq::<usize>::empty() && r@[i].slice == 0 && r@[i].remaining == 0,
{
    let mut cpus: Vec<CpuSched> = Vec::new();
    let mut i: usize = 0;
    while i < MAX_CPUS
        invariant
            i <= MAX_CPUS,
            cpus@.len() == i,
            forall|j: int|
                0 <= j < i ==> (#[trigger] cpus@[j]).current == 0 && cpus@[j].ready.wf()
                    && cpus@[j].ready@ == Seq::<usize>::empty() && cpus@[j].slice == 0
                    && cpus@[j].remaining == 0,
        decreases MAX_CPUS - i,
    {
        cpus.push(CpuSched::new());
        i = i + 1;
    }
    cpus
}

/// The processor this runs on.
pub fn this_cpu() -> (r: usize)
    ensures
        r == 0,
{
    0
}

/// No user region is open to the thread.
pub open spec fn no_regions(r: [(u64, u64); USER_REGIONS_MAX]) -> bool {
    forall|i: int| 0 <= i < USER_REGIONS_MAX ==> #[trigger] r@[i] == (0u64, 0u64)
}

/// Take the code that runs as thread zero, in the address space
/// `kernel_cr3`, and empty every queue.
pub fn init(s: &mut Sched, kernel_cr3: u64) -> (r: Result<(), &'static str>)
    requires
        old(s).shape(),
    ensures
        if old(s).threads@[0] is Some {
            &&& r == Err::<(), &'static str>("scheduler already initialized")
            &&& *final(s) == *old(s)
        } else {
            &&& r == Ok::<(), &'static str>(())
            &&& final(s).shape()
            &&& final(s).threads@ == old(s).threads@.update(0, final(s).threads@[0])
            &&& final(s).threads@[0] matches Some(t) && t.id == 0 && t.name == "kmain" && t.state
                == State::Running && t.stack_frames == 0 && t.stack_base == 0 && t.arg == 0
                && t.entry == 0 && t.cr3 == kernel_cr3 && no_regions(t.regions)
            &&& final(s).ctx == old(s).ctx
            &&& final(s).queue() == Seq::<usize>::empty()
            &&& final(s).current() == 0
            &&& forall|i: int|
                0 <= i < MAX_CPUS ==> (#[trigger] final(s).cpus@[i]).current == 0
                    && final(s).cpus@[i].ready@ == Seq::<usize>::empty()
                    && final(s).cpus@[i].slice == 0 && final(s).cpus@[i].remaining == 0
            &&& final(s).next_id == 1
            &&& final(s).switches == old(s).switches
            &&& final(s).spawned == old(s).spawned
        },
{
    if s.threads[0].is_some() {
        return Err("scheduler already initialized");
    }
    s.threads.set(
        0,
        Some(
            KThread {
                id: 0,
                name: "kmain",
                state: State::Running,
                entry: 0,
                arg: 0,
                stack_base: 0,
                stack_frames: 0,
                cr3: kernel_cr3,
                regions: [(0, 0), (0, 0), (0, 0), (0, 0)],
            },
        ),
    );
    s.cpus = fresh_cpus();
    s.next_id = 1;
    Ok(())
}

/// Starting on an empty table gives a scheduler in order.
pub proof fn law_started(pre: Sched, post: Sched, fa: FrameAllocator, mem: PhysMem)
    requires
        pre.shape(),
        post.shape(),
        forall|i: int| 0 <= i < MAX_THREADS ==> #[trigger] pre.threads@[i] is None,
        post.threads@ == pre.threads@.update(0, post.threads@[0]),
        post.threads@[0] matches Some(t) && t.id == 0 && t.state == State::Running
            && t.stack_frames == 0,
        post.queue() == Seq::<usize>::empty(),
        post.current() == 0,
        post.next_id == 1,
        mem.wf(&fa),
        fa.ready,
    ensures
        post.wf(&fa, &mem),
{
}

/// Where the kernel sees the bottom of a stack.
pub open spec fn stack_va(base: u64) -> u64 {
    vstd::wrapping::u64_specs::wrapping_add(base, KERNEL_OFFSET)
}

/// Where the kernel sees the top of a stack.
pub open spec fn stack_top(base: u64) -> u64 {
    vstd::wrapping::u64_specs::wrapping_add(stack_va(base), THREAD_STACK_BYTES)
}

fn top_of(base: u64) -> (r: u64)
    ensures
        r == stack_top(base),
{
    base.wrapping_add(KERNEL_OFFSET).wrapping_add(THREAD_STACK_BYTES)
}

pub open spec fn zombie(o: Option<KThread>) -> bool {
    in_state(o, State::Zombie)
}

/// Slot `i` holds a zombie that does not run any more: no code stands on the
/// stack of a thread other than `cur`.
pub open spec fn dead(threads: Seq<Option<KThread>>, cur: int, i: int) -> bool {
    i != cur && zombie(threads[i])
}

/// Frame `j` is part of the stack of a dead thread among the first `n` slots.
pub open spec fn buried(threads: Seq<Option<KThread>>, cur: int, n: int, j: int) -> bool {
    exists|i: int|
        0 <= i < n && #[trigger] dead(threads, cur, i) && stack_frame(threads[i], j)
}

/// How many of the first `n` slots hold a dead thread with a stack.
pub open spec fn stacks_below(threads: Seq<Option<KThread>>, cur: int, n: int) -> int
    decreases n,
{
    if n <= 0 {
        0
    } else {
        stacks_below(threads, cur, n - 1) + (if dead(threads, cur, n - 1) && has_stack(
            threads[n - 1],
        ) {
            1int
        } else {
            0
        })
    }
}

/// The allocator's hint once the stacks of the dead threads among the first `n`
/// slots went back, in order.
pub open spec fn hint_below(hint: int, threads: Seq<Option<KThread>>, cur: int, n: int) -> int
    decreases n,
{
    if n <= 0 {
        hint
    } else {
        let h = hint_below(hint, threads, cur, n - 1);
        if dead(threads, cur, n - 1) && has_stack(threads[n - 1]) {
            frames::hint_after(h, threads[n - 1]->0.stack_base as int / 4096, 8)
        } else {
            h
        }
    }
}

/// The slots without the dead threads among the first `n`.
pub open spec fn alive(threads: Seq<Option<KThread>>, cur: int, n: int) -> Seq<Option<KThread>> {
    Seq::new(
        threads.len(),
        |i: int|
            if i < n && dead(threads, cur, i) {
                None
            } else {
                threads[i]
            },
    )
}

/// The stacks of the dead threads among the first `n` slots are free, and
/// nothing else changed in the pool.
pub open spec fn stacks_freed(
    threads: Seq<Option<KThread>>,
    cur: int,
    f0: &FrameAllocator,
    f1: &FrameAllocator,
    n: int,
) -> bool {
    &&& forall|j: int|
        0 <= j < frames::FRAME_COUNT ==> #[trigger] frames::used(f1.map@, j) == (frames::used(
            f0.map@,
            j,
        ) && !buried(threads, cur, n, j))
    &&& f1.available() == f0.available() + 8 * stacks_below(threads, cur, n)
    &&& f1.free == f0.free + 8 * stacks_below(threads, cur, n)
    &&& f1.hint == hint_below(f0.hint as int, threads, cur, n)
    &&& f1.same_pool(f0)
}

/// The dead threads among the first `n` slots are gone and their stacks free.
pub open spec fn reaped(
    s0: &Sched,
    f0: &FrameAllocator,
    s1: &Sched,
    f1: &FrameAllocator,
    n: int,
) -> bool {
    &&& *s1 == (Sched { threads: s1.threads, ..*s0 })
    &&& s1.threads@ == alive(s0.threads@, s0.current(), n)
    &&& stacks_freed(s0.threads@, s0.current(), f0, f1, n)
    &&& f1.wf()
}

/// Slot `i` holds a dead thread whose canary is gone.
pub open spec fn bad_zombie(
    threads: Seq<Option<KThread>>,
    cur: int,
    mem: &PhysMem,
    i: int,
) -> bool {
    dead(threads, cur, i) && !canary_ok(threads[i], mem)
}

/// Slot `n` is the first that holds a dead thread whose canary is gone.
pub open spec fn first_bad(
    threads: Seq<Option<KThread>>,
    cur: int,
    mem: &PhysMem,
    n: int,
) -> bool {
    &&& 0 <= n < MAX_THREADS
    &&& bad_zombie(threads, cur, mem, n)
    &&& forall|i: int| 0 <= i < n ==> !#[trigger] bad_zombie(threads, cur, mem, i)
}

/// What is left where the zombies of `threads`, the slots of `s0`, were cleared
/// away and the kernel stops: those before the first whose canary is gone are
/// no more, or all of them if every canary stands.
pub open spec fn stopped(
    s0: &Sched,
    threads: Seq<Option<KThread>>,
    f0: &FrameAllocator,
    s1: &Sched,
    f1: &FrameAllocator,
    mem: &PhysMem,
) -> bool {
    let cur = s0.current();
    &&& *s1 == (Sched { threads: s1.threads, ..*s0 })
    &&& if exists|i: int| 0 <= i < MAX_THREADS && #[trigger] bad_zombie(threads, cur, mem, i) {
        exists|n: int|
            #[trigger] first_bad(threads, cur, mem, n) && s1.threads@ == alive(threads, cur, n)
                && stacks_freed(threads, cur, f0, f1, n)
    } else {
        &&& s1.threads@ == alive(threads, cur, MAX_THREADS as int)
        &&& stacks_freed(threads, cur, f0, f1, MAX_THREADS as int)
    }
}

/// Giving back frames that are no tables keeps memory in order.
proof fn lemma_release(mem: &PhysMem, f0: &FrameAllocator, f1: &FrameAllocator, a: int)
    requires
        mem.wf(f0),
        f1.wf(),
        f1.same_pool(f0),
        0 <= a,
        (a + 8) * 512 <= mem.words@.len(),
        forall|j: int| a <= j < a + 8 ==> !mem.seats@.dom().contains(#[trigger] (j * 4096)),
        forall|j: int|
            0 <= j < frames::FRAME_COUNT ==> #[trigger] frames::used(f1.map@, j) == (frames::used(
                f0.map@,
                j,
            ) && !(a <= j < a + 8)),
    ensures
        mem.wf(f1),
{
    assert forall|t: int| #[trigger] mem.seats@.dom().contains(t) implies f1.in_use(t) by {
        assert(paging::is_table(mem.words@, mem.seats@, t));
        assert(f0.in_use(t));
        let j = t / 4096;
        assert(t == j * 4096);
    }
    assert forall|j: int|
        0 <= j < frames::FRAME_COUNT && !#[trigger] frames::used(f1.map@, j) implies (j + 1) * 512
        <= mem.words@.len() by {
        if a <= j < a + 8 {
        } else {
            assert(!frames::used(f0.map@, j));
        }
    }
}

/// Free the stack of the thread in slot `i` and empty the slot.
fn bury(s: &mut Sched, fa: &mut FrameAllocator, mem: &PhysMem, i: usize) -> (r: Result<
    (),
    &'static str,
>)
    requires
        old(s).threads@.len() == MAX_THREADS,
        i < MAX_THREADS,
        zombie(old(s).threads@[i as int]),
        stacks_ok(old(s).threads@, old(fa), mem),
        mem.wf(old(fa)),
        old(fa).ready,
    ensures
        final(fa).wf(),
        final(fa).same_pool(old(fa)),
        mem.wf(final(fa)),
        match r {
            Ok(_) => {
                let o = old(s).threads@[i as int];
                &&& canary_ok(o, mem)
                &&& *final(s) == (Sched { threads: final(s).threads, ..*old(s) })
                &&& final(s).threads@ == old(s).threads@.update(i as int, None)
                &&& stacks_ok(final(s).threads@, final(fa), mem)
                &&& forall|j: int|
                    0 <= j < frames::FRAME_COUNT ==> #[trigger] frames::used(final(fa).map@, j) == (
                    frames::used(old(fa).map@, j) && !stack_frame(o, j))
                &&& final(fa).available() == old(fa).available() + (if has_stack(o) {
                    8int
                } else {
                    0
                })
                &&& final(fa).free == old(fa).free + (if has_stack(o) {
                    8int
                } else {
                    0
                })
                &&& final(fa).hint == (if has_stack(o) {
                    frames::hint_after(old(fa).hint as int, o->0.stack_base as int / 4096, 8)
                } else {
                    old(fa).hint as int
                })
            },
            Err(e) => {
                &&& e == "kernel stack overflow (canary at reap)"
                &&& !canary_ok(old(s).threads@[i as int], mem)
                &&& *final(s) == *old(s)
                &&& *final(fa) == *old(fa)
            },
        },
{
    let ghost f0 = *fa;
    let ghost th0 = s.threads@;
    let t: KThread = match s.threads[i] {
        Some(t) => t,
        None => {
            return Ok(());
        },
    };
    if t.stack_frames > 0 {
        proof {
            assert(has_stack(th0[i as int]));
            assert(stack_ok(t, fa, mem));
        }
        let n: usize = mem.words.len();
        if mem.words[(t.stack_base / 8) as usize] != STACK_CANARY {
            return Err("kernel stack overflow (canary at reap)");
        }
        proof {
            assert forall|k: int| 0 <= k < 8 implies #[trigger] frames::free_answer(
                fa,
                t.stack_base + k * 4096,
            ) is Ok by {
                let j = t.stack_base as int / 4096 + k;
                assert(frames::used(fa.map@, j));
                assert((t.stack_base + k * 4096) / 4096 == j);
            }
        }
        match frames::free_contiguous(fa, t.stack_base, t.stack_frames) {
            Err(_) => {
                return Err("thread stack free failed");
            },
            Ok(_) => {},
        }
        proof {
            let a = t.stack_base as int / 4096;
            assert forall|j: int| a <= j < a + 8 implies !mem.seats@.dom().contains(
                #[trigger] (j * 4096),
            ) by {
                assert(frames::used(f0.map@, j));
            }
            lemma_release(mem, &f0, fa, a);
        }
    }
    s.threads.set(i, None);
    proof {
        assert forall|q: int| 0 <= q < MAX_THREADS && has_stack(#[trigger] s.threads@[q]) implies
            stack_ok(s.threads@[q]->0, fa, mem) by {
            assert(q != i);
            assert(s.threads@[q] == th0[q]);
            assert(stack_ok(th0[q]->0, &f0, mem));
            let b = s.threads@[q]->0.stack_base as int / 4096;
            assert forall|j: int| b <= j < b + 8 implies #[trigger] frames::used(fa.map@, j) by {
                assert(frames::used(f0.map@, j));
                assert(stack_frame(th0[q], j));
                if q < i {
                    assert(!stack_frame(th0[i as int], j));
                } else {
                    assert(!stack_frame(th0[i as int], j));
                }
            }
            lemma_stack_stays(th0[q]->0, &f0, mem, fa, mem);
        }
        assert forall|p: int, q: int, j: int|
            #![trigger stack_frame(s.threads@[p], j), stack_frame(s.threads@[q], j)]
            0 <= p < q < MAX_THREADS implies !(stack_frame(s.threads@[p], j) && stack_frame(
            s.threads@[q],
            j,
        )) by {
            if p != i && q != i {
                assert(!(stack_frame(th0[p], j) && stack_frame(th0[q], j)));
            }
        }
    }
    Ok(())
}

/// Empty the slots of all dead threads and free their stacks, in order. The
/// current thread keeps its slot and its stack, which this code runs on.
///
/// The kernel stops on an error.
pub fn reap(s: &mut Sched, fa: &mut FrameAllocator, mem: &PhysMem) -> (r: Result<(), &'static str>)
    requires
        old(s).shape(),
        stacks_ok(old(s).threads@, old(fa), mem),
        mem.wf(old(fa)),
        old(fa).ready,
    ensures
        stacks_ok(final(s).threads@, final(fa), mem),
        mem.wf(final(fa)),
        match r {
            Ok(_) => {
                &&& forall|i: int|
                    0 <= i < MAX_THREADS ==> !#[trigger] bad_zombie(old(s).threads@, old(s).current(), mem, i)
                &&& reaped(old(s), old(fa), final(s), final(fa), MAX_THREADS as int)
            },
            Err(e) => {
                &&& e == "kernel stack overflow (canary at reap)"
                &&& exists|n: int|
                    #[trigger] first_bad(old(s).threads@, old(s).current(), mem, n) && reaped(
                        old(s),
                        old(fa),
                        final(s),
                        final(fa),
                        n,
                    )
            },
        },
{
    let ghost th0 = s.threads@;
    let cur: usize = s.cpus[this_cpu()].current;
    assert(alive(th0, cur as int, 0) =~= th0);
    let mut i: usize = 0;
    while i < MAX_THREADS
        invariant
            i <= MAX_THREADS,
            th0 == old(s).threads@,
            cur == old(s).current(),
            cur < MAX_THREADS,
            th0.len() == MAX_THREADS,
            s.threads@.len() == MAX_THREADS,
            stacks_ok(s.threads@, fa, mem),
            mem.wf(fa),
            fa.ready,
            reaped(old(s), old(fa), s, fa, i as int),
            forall|k: int| 0 <= k < i ==> !#[trigger] bad_zombie(th0, cur as int, mem, k),
        decreases MAX_THREADS - i,
    {
        let gone: bool = match s.threads[i] {
            Some(t) => i != cur && t.state == State::Zombie,
            None => false,
        };
        let ghost f1 = *fa;
        if gone {
            match bury(s, fa, mem, i) {
                Err(e) => {
                    assert(first_bad(th0, cur as int, mem, i as int));
                    return Err(e);
                },
                Ok(_) => {},
            }
        }
        proof {
            assert(!bad_zombie(th0, cur as int, mem, i as int));
            assert(s.threads@ =~= alive(th0, cur as int, i + 1));
            assert forall|j: int| 0 <= j < frames::FRAME_COUNT implies #[trigger] frames::used(
                fa.map@,
                j,
            ) == (frames::used(old(fa).map@, j) && !buried(th0, cur as int, i + 1, j)) by {
                assert(frames::used(f1.map@, j) == (frames::used(old(fa).map@, j) && !buried(
                    th0,
                    cur as int,
                    i as int,
                    j,
                )));
                if buried(th0, cur as int, i as int, j) {
                    let k = choose|k: int|
                        0 <= k < i && #[trigger] dead(th0, cur as int, k) && stack_frame(th0[k], j);
                    assert(dead(th0, cur as int, k));
                }
                if gone && stack_frame(th0[i as int], j) {
                    assert(dead(th0, cur as int, i as int));
                }
                if buried(th0, cur as int, i + 1, j) {
                    let k = choose|k: int|
                        0 <= k < i + 1 && #[trigger] dead(th0, cur as int, k) && stack_frame(
                            th0[k],
                            j,
                        );
                    if k < i {
                        assert(buried(th0, cur as int, i as int, j));
                    }
                }
            }
        }
        i = i + 1;
    }
    Ok(())
}

/// Check the word at the bottom of the current thread's stack.
///
/// The kernel stops on an error.
pub fn check_canary_current(s: &Sched, fa: &FrameAllocator, mem: &PhysMem) -> (r: Result<
    (),
    &'static str,
>)
    requires
        s.shape(),
        s.threads@[s.current()] is Some,
        stacks_ok(s.threads@, fa, mem),
    ensures
        r == (if canary_ok(s.threads@[s.current()], mem) {
            Ok::<(), &'static str>(())
        } else {
            Err("kernel stack overflow (canary at switch)")
        }),
{
    let cur: usize = s.cpus[this_cpu()].current;
    if let Some(t) = s.threads[cur] {
        if t.stack_frames > 0 {
            assert(has_stack(s.threads@[cur as int]));
            assert(stack_ok(t, fa, mem));
            let n: usize = mem.words.len();
            if mem.words[(t.stack_base / 8) as usize] != STACK_CANARY {
                return Err("kernel stack overflow (canary at switch)");
            }
        }
    }
    Ok(())
}

/// What keeps a switch from being planned: a canary that is gone, of a zombie
/// or of the current thread if it is to be queued.
pub open spec fn switch_fault(s: &Sched, mem: &PhysMem, enqueue: bool) -> Option<&'static str> {
    if exists|i: int| 0 <= i < MAX_THREADS && #[trigger] bad_zombie(s.threads@, s.current(), mem, i) {
        Some("kernel stack overflow (canary at reap)")
    } else if enqueue && !canary_ok(s.threads@[s.current()], mem) {
        Some("kernel stack overflow (canary at switch)")
    } else {
        None
    }
}

/// What the processor is told for a switch to the thread `t`.
pub open spec fn plan_for(save: int, restore: u64, t: KThread, live_cr3: u64) -> Plan {
    Plan {
        save: save as usize,
        restore,
        rsp0: if t.stack_frames > 0 {
            Some(stack_top(t.stack_base))
        } else {
            None
        },
        cr3: if t.cr3 != 0 && t.cr3 != live_cr3 {
            Some(t.cr3)
        } else {
            None
        },
    }
}

/// The slots after thread `cur` was put back, if it is, and `next` chosen.
pub open spec fn turned(
    threads: Seq<Option<KThread>>,
    cur: int,
    next: int,
    enqueue: bool,
) -> Seq<Option<KThread>> {
    let th = if enqueue {
        threads.update(cur, Some(KThread { state: State::Ready, ..threads[cur]->0 }))
    } else {
        threads
    };
    th.update(next, Some(KThread { state: State::Running, ..th[next]->0 }))
}

/// The front of the queue runs, with a full slice; the current thread is at
/// the end of the queue if it was to be queued.
///
/// `threads` are the slots before, `a` holds the rest.
pub open spec fn switched(
    a: &Sched,
    threads: Seq<Option<KThread>>,
    b: &Sched,
    enqueue: bool,
    live_cr3: u64,
    p: Plan,
) -> bool {
    let cur = a.current();
    let next = a.queue()[0] as int;
    &&& a.queue().len() > 0
    &&& b.threads@ == turned(alive(threads, cur, MAX_THREADS as int), cur, next, enqueue)
    &&& b.queue() == (if enqueue {
        a.queue().drop_first().push(cur as usize)
    } else {
        a.queue().drop_first()
    })
    &&& b.current() == next
    &&& b.cpus@.len() == a.cpus@.len()
    &&& forall|i: int| 0 < i < a.cpus@.len() ==> #[trigger] b.cpus@[i] == a.cpus@[i]
    &&& b.cpus@[0].slice == a.cpus@[0].slice
    &&& b.cpus@[0].remaining == a.cpus@[0].slice
    &&& b.ctx == a.ctx
    &&& b.next_id == a.next_id
    &&& b.switches == a.switches
    &&& b.spawned == a.spawned
    &&& p == plan_for(cur, a.ctx@[next], threads[next]->0, live_cr3)
}

/// Nobody waits: the current thread goes on with a full slice. `threads` are
/// the slots before, `a` holds the rest.
pub open spec fn stayed(a: &Sched, threads: Seq<Option<KThread>>, b: &Sched) -> bool {
    &&& *b == (Sched { threads: b.threads, cpus: b.cpus, ..*a })
    &&& b.threads@ == alive(threads, a.current(), MAX_THREADS as int)
    &&& b.cpus@ == a.cpus@.update(0, CpuSched { remaining: a.cpus@[0].slice, ..a.cpus@[0] })
}

/// A queue without duplicates that misses a slot number has room.
proof fn lemma_room(q: Seq<usize>, x: int)
    requires
        q.no_duplicates(),
        0 <= x < MAX_THREADS,
        forall|k: int| 0 <= k < q.len() ==> #[trigger] q[k] < MAX_THREADS && q[k] != x,
    ensures
        q.len() < MAX_THREADS,
{
    let s = Seq::new(q.len(), |k: int| q[k] as int);
    assert(s.no_duplicates()) by {
        assert forall|i: int, j: int| 0 <= i < s.len() && 0 <= j < s.len() && i != j implies s[i]
            != s[j] by {
            assert(q[i] != q[j]);
        }
    }
    s.unique_seq_to_set();
    let all = vstd::set_lib::set_int_range(0, MAX_THREADS as int);
    vstd::set_lib::lemma_int_range(0, MAX_THREADS as int);
    assert(s.to_set().subset_of(all.remove(x))) by {
        assert forall|v: int| s.to_set().contains(v) implies all.remove(x).contains(v) by {
            let k = choose|k: int| 0 <= k < s.len() && s[k] == v;
            assert(q[k] < MAX_THREADS);
        }
    }
    vstd::set_lib::lemma_len_subset(s.to_set(), all.remove(x));
}

/// What a switch keeps.
proof fn lemma_switched_ok(
    a: &Sched,
    b: &Sched,
    fa: &FrameAllocator,
    mem: &PhysMem,
    enqueue: bool,
    live: u64,
    p: Plan,
)
    requires
        a.shape(),
        b.shape(),
        a.queue_ok(),
        a.ids_ok(),
        enqueue ==> in_state(a.threads@[a.current()], State::Running),
        !enqueue ==> zombie(a.threads@[a.current()]),
        stacks_ok(alive(a.threads@, a.current(), MAX_THREADS as int), fa, mem),
        mem.wf(fa),
        fa.ready,
        switched(a, a.threads@, b, enqueue, live, p),
    ensures
        b.wf(fa, mem),
{
    let cur = a.current();
    let q = a.queue();
    let next = q[0] as int;
    let th = alive(a.threads@, a.current(), MAX_THREADS as int);
    assert(in_state(a.threads@[next], State::Ready));
    assert(next != cur);
    assert forall|k: int| 0 <= k < q.len() implies q[k] != cur by {
        assert(in_state(a.threads@[q[k] as int], State::Ready));
    }
    let nq = b.queue();
    assert forall|i: int, j: int| 0 <= i < nq.len() && 0 <= j < nq.len() && i != j implies nq[i]
        != nq[j] by {
        if i < q.len() - 1 {
            assert(nq[i] == q[i + 1]);
        }
        if j < q.len() - 1 {
            assert(nq[j] == q[j + 1]);
        }
    }
    assert forall|k: int| 0 <= k < nq.len() implies (#[trigger] nq[k]) < MAX_THREADS && in_state(
        b.threads@[nq[k] as int],
        State::Ready,
    ) by {
        if k < q.len() - 1 {
            assert(nq[k] == q[k + 1]);
            assert(in_state(a.threads@[q[k + 1] as int], State::Ready));
        }
    }
    assert forall|i: int|
        0 <= i < MAX_THREADS && in_state(#[trigger] b.threads@[i], State::Ready) implies nq.contains(
        i as usize,
    ) by {
        if i == cur && enqueue {
            assert(nq[q.len() - 1] == cur);
        } else {
            assert(in_state(a.threads@[i], State::Ready));
            assert(q.contains(i as usize));
            let k = choose|k: int| 0 <= k < q.len() && q[k] == i as usize;
            assert(k > 0);
            assert(nq[k - 1] == i as usize);
        }
    }
    assert forall|i: int| 0 <= i < MAX_THREADS && i != next implies !in_state(
        #[trigger] b.threads@[i],
        State::Running,
    ) by {
        if i != cur {
            assert(!in_state(a.threads@[i], State::Running));
        }
    }
    assert forall|i: int| 0 <= i < MAX_THREADS && (#[trigger] b.threads@[i]) is Some implies
        b.threads@[i]->0.id < b.next_id by {
        assert(a.threads@[i] is Some);
    }
    assert forall|i: int, k: int|
        0 <= i < k < MAX_THREADS && (#[trigger] b.threads@[i]) is Some && (
        #[trigger] b.threads@[k]) is Some implies b.threads@[i]->0.id != b.threads@[k]->0.id by {
        assert(a.threads@[i] is Some && a.threads@[k] is Some);
    }
    assert forall|i: int| 0 <= i < MAX_THREADS implies has_stack(#[trigger] b.threads@[i])
        == has_stack(th[i]) && (has_stack(th[i]) ==> b.threads@[i]->0.stack_base
        == th[i]->0.stack_base && b.threads@[i]->0.stack_frames == th[i]->0.stack_frames) by {}
    assert forall|i: int| 0 <= i < MAX_THREADS && has_stack(#[trigger] b.threads@[i]) implies
        stack_ok(b.threads@[i]->0, fa, mem) by {
        assert(has_stack(th[i]));
        assert(stack_ok(th[i]->0, fa, mem));
        lemma_stack_alike(th[i]->0, b.threads@[i]->0, fa, mem);
    }
    assert forall|i: int, k: int, j: int|
        #![trigger stack_frame(b.threads@[i], j), stack_frame(b.threads@[k], j)]
        0 <= i < k < MAX_THREADS implies !(stack_frame(b.threads@[i], j) && stack_frame(
        b.threads@[k],
        j,
    )) by {
        assert(stack_frame(b.threads@[i], j) == stack_frame(th[i], j));
        assert(stack_frame(b.threads@[k], j) == stack_frame(th[k], j));
        assert(!(stack_frame(th[i], j) && stack_frame(th[k], j)));
    }
}

/// The scheduler between two operations, but for what the current thread is.
pub open spec fn between(s: &Sched, fa: &FrameAllocator, mem: &PhysMem) -> bool {
    &&& s.shape()
    &&& s.queue_ok()
    &&& s.ids_ok()
    &&& stacks_ok(s.threads@, fa, mem)
    &&& mem.wf(fa)
    &&& fa.ready
}

/// Clear the zombies away and plan the switch to the front of the queue, in
/// the address space `live_cr3`. The current thread goes to the end of the
/// queue, or has ended.
///
/// The answer is `Ok(None)` if nobody waits; a thread that goes on then does
/// so with a full slice. The kernel stops on an error.
pub fn plan_switch(
    s: &mut Sched,
    fa: &mut FrameAllocator,
    mem: &PhysMem,
    enqueue_current: bool,
    live_cr3: u64,
) -> (r: Result<Option<Plan>, &'static str>)
    requires
        between(old(s), old(fa), mem),
        enqueue_current ==> in_state(old(s).threads@[old(s).current()], State::Running),
        !enqueue_current ==> zombie(old(s).threads@[old(s).current()]),
    ensures
        mem.wf(final(fa)),
        match switch_fault(old(s), mem, enqueue_current) {
            Some(e) => {
                &&& r == Err::<Option<Plan>, &'static str>(e)
                &&& stopped(old(s), old(s).threads@, old(fa), final(s), final(fa), mem)
            },
            None => {
                &&& buried_freed(old(s).threads@, old(s).current(), old(fa), final(fa))
                &&& if old(s).queue().len() == 0 {
                    &&& r == Ok::<Option<Plan>, &'static str>(None)
                    &&& stayed(old(s), old(s).threads@, final(s))
                    &&& enqueue_current ==> final(s).wf(final(fa), mem)
                } else {
                    &&& r matches Ok(Some(p)) && switched(
                        old(s),
                        old(s).threads@,
                        final(s),
                        enqueue_current,
                        live_cr3,
                        p,
                    )
                    &&& final(s).wf(final(fa), mem)
                }
            },
        },
{
    let ghost s0 = *s;
    let ghost f0 = *fa;
    match reap(s, fa, mem) {
        Err(e) => {
            return Err(e);
        },
        Ok(_) => {},
    }
    let ghost s1 = *s;
    assert(reaped(&s0, &f0, s, fa, MAX_THREADS as int));
    if enqueue_current {
        match check_canary_current(s, fa, mem) {
            Err(e) => {
                return Err(e);
            },
            Ok(_) => {},
        }
    }
    let me: usize = this_cpu();
    let mut cpu: CpuSched = s.cpus[me];
    let next: usize = match cpu.ready.pop() {
        None => {
            cpu.remaining = cpu.slice;
            proof {
                if enqueue_current {
                    lemma_reaped_ok(&s0, &f0, s, fa, mem);
                }
            }
            s.cpus.set(me, cpu);
            return Ok(None);
        },
        Some(n) => n,
    };
    let cur: usize = cpu.current;
    proof {
        assert(s0.queue()[0] == next);
        assert(in_state(s0.threads@[next as int], State::Ready));
        assert(next != cur);
        assert(s1.threads@[next as int] == s0.threads@[next as int]);
    }
    if enqueue_current {
        if let Some(t) = s.threads[cur] {
            s.threads.set(cur, Some(KThread { state: State::Ready, ..t }));
        }
        let _ = cpu.ready.push(cur);
    }
    let nt: KThread = match s.threads[next] {
        Some(t) => KThread { state: State::Running, ..t },
        None => {
            return Ok(None);
        },
    };
    s.threads.set(next, Some(nt));
    cpu.current = next;
    cpu.remaining = cpu.slice;
    s.cpus.set(me, cpu);
    let plan: Plan = Plan {
        save: cur,
        restore: s.ctx[next],
        rsp0: if nt.stack_frames > 0 {
            Some(top_of(nt.stack_base))
        } else {
            None
        },
        cr3: if nt.cr3 != 0 && nt.cr3 != live_cr3 {
            Some(nt.cr3)
        } else {
            None
        },
    };
    proof {
        assert(s.threads@ =~= turned(
            alive(s0.threads@, s0.current(), MAX_THREADS as int),
            cur as int,
            next as int,
            enqueue_current,
        ));
        assert(switched(&s0, s0.threads@, s, enqueue_current, live_cr3, plan));
        lemma_switched_ok(&s0, s, fa, mem, enqueue_current, live_cr3, plan);
    }
    Ok(Some(plan))
}

/// The stacks of all dead threads are free, and nothing else changed in the
/// pool.
pub open spec fn buried_freed(
    threads: Seq<Option<KThread>>,
    cur: int,
    f0: &FrameAllocator,
    f1: &FrameAllocator,
) -> bool {
    stacks_freed(threads, cur, f0, f1, MAX_THREADS as int)
}

/// Clearing the zombies away keeps the scheduler in order.
proof fn lemma_reaped_ok(
    s0: &Sched,
    f0: &FrameAllocator,
    s1: &Sched,
    f1: &FrameAllocator,
    mem: &PhysMem,
)
    requires
        s0.shape(),
        s0.queue_ok(),
        s0.ids_ok(),
        in_state(s0.threads@[s0.current()], State::Running),
        reaped(s0, f0, s1, f1, MAX_THREADS as int),
        stacks_ok(s1.threads@, f1, mem),
        mem.wf(f1),
        f1.ready,
    ensures
        s1.wf(f1, mem),
{
    assert forall|k: int| 0 <= k < s1.queue().len() implies (#[trigger] s1.queue()[k]) < MAX_THREADS
        && in_state(s1.threads@[s1.queue()[k] as int], State::Ready) by {
        assert(in_state(s0.threads@[s0.queue()[k] as int], State::Ready));
    }
    assert forall|i: int|
        0 <= i < MAX_THREADS && in_state(#[trigger] s1.threads@[i], State::Ready) implies s1.queue().contains(
        i as usize,
    ) by {
        assert(in_state(s0.threads@[i], State::Ready));
    }
    assert forall|i: int| 0 <= i < MAX_THREADS && i != s1.current() implies !in_state(
        #[trigger] s1.threads@[i],
        State::Running,
    ) by {
        assert(!in_state(s0.threads@[i], State::Running));
    }
    assert forall|i: int| 0 <= i < MAX_THREADS && (#[trigger] s1.threads@[i]) is Some implies
        s1.threads@[i]->0.id < s1.next_id by {
        assert(s0.threads@[i] is Some);
    }
    assert forall|i: int, k: int|
        0 <= i < k < MAX_THREADS && (#[trigger] s1.threads@[i]) is Some && (
        #[trigger] s1.threads@[k]) is Some implies s1.threads@[i]->0.id != s1.threads@[k]->0.id by {
        assert(s0.threads@[i] is Some && s0.threads@[k] is Some);
    }
}

/// Give the processor to the next thread, and queue the current one.
///
/// The answer is `Ok(None)` if nobody waits. The kernel stops on an error.
pub fn yield_now(s: &mut Sched, fa: &mut FrameAllocator, mem: &PhysMem, live_cr3: u64) -> (r: Result<
    Option<Plan>,
    &'static str,
>)
    requires
        old(s).wf(old(fa), mem),
    ensures
        mem.wf(final(fa)),
        yielded(old(s), old(fa), final(s), final(fa), mem, live_cr3, r),
{
    match plan_switch(s, fa, mem, true, live_cr3) {
        Err(e) => Err(e),
        Ok(None) => Ok(None),
        Ok(Some(p)) => {
            s.switches = s.switches.wrapping_add(1);
            Ok(Some(p))
        },
    }
}

/// What [`yield_now`] answers and does.
pub open spec fn yielded(
    s0: &Sched,
    f0: &FrameAllocator,
    s1: &Sched,
    f1: &FrameAllocator,
    mem: &PhysMem,
    live_cr3: u64,
    r: Result<Option<Plan>, &'static str>,
) -> bool {
    match switch_fault(s0, mem, true) {
        Some(e) => {
            &&& r == Err::<Option<Plan>, &'static str>(e)
            &&& stopped(s0, s0.threads@, f0, s1, f1, mem)
        },
        None => {
            &&& buried_freed(s0.threads@, s0.current(), f0, f1)
            &&& s1.wf(f1, mem)
            &&& if s0.queue().len() == 0 {
                &&& r == Ok::<Option<Plan>, &'static str>(None)
                &&& stayed(s0, s0.threads@, s1)
            } else {
                &&& r matches Ok(Some(p)) && switched(
                    &(Sched {
                        switches: vstd::wrapping::u64_specs::wrapping_add(s0.switches, 1),
                        ..*s0
                    }),
                    s0.threads@,
                    s1,
                    true,
                    live_cr3,
                    p,
                )
            }
        },
    }
}

/// What the current thread starts with: its function and its argument.
pub fn thread_main(s: &Sched) -> (r: (usize, usize))
    requires
        s.shape(),
        s.threads@[s.current()] is Some,
    ensures
        r == (s.threads@[s.current()]->0.entry, s.threads@[s.current()]->0.arg),
{
    let cur: usize = s.cpus[this_cpu()].current;
    match s.threads[cur] {
        Some(t) => (t.entry, t.arg),
        None => (0, 0),
    }
}

/// The slots after the thread in slot `cur` has ended.
pub open spec fn ended(threads: Seq<Option<KThread>>, cur: int) -> Seq<Option<KThread>> {
    threads.update(cur, Some(KThread { state: State::Zombie, ..threads[cur]->0 }))
}

/// What [`exit_now`] answers and does.
pub open spec fn exited(
    s0: &Sched,
    f0: &FrameAllocator,
    s1: &Sched,
    f1: &FrameAllocator,
    mem: &PhysMem,
    live_cr3: u64,
    r: Result<Plan, &'static str>,
) -> bool {
    let th = ended(s0.threads@, s0.current());
    if !canary_ok(s0.threads@[s0.current()], mem) {
        &&& r == Err::<Plan, &'static str>("kernel stack overflow (canary at switch)")
        &&& *s1 == *s0
        &&& *f1 == *f0
    } else if exists|i: int| 0 <= i < MAX_THREADS && #[trigger] bad_zombie(s0.threads@, s0.current(), mem, i) {
        &&& r == Err::<Plan, &'static str>("kernel stack overflow (canary at reap)")
        &&& stopped(s0, th, f0, s1, f1, mem)
    } else {
        &&& buried_freed(th, s0.current(), f0, f1)
        &&& if s0.queue().len() == 0 {
            &&& r == Err::<Plan, &'static str>("scheduler: exited with empty ready queue")
            &&& stayed(s0, th, s1)
        } else {
            &&& s1.wf(f1, mem)
            &&& r matches Ok(p) && switched(
                &(Sched {
                    switches: vstd::wrapping::u64_specs::wrapping_add(s0.switches, 1),
                    ..*s0
                }),
                th,
                s1,
                false,
                live_cr3,
                p,
            )
        }
    }
}

/// End the current thread, and run the next one. The thread that ended stays
/// in its slot with its stack, which it still runs on; the next entry to the
/// scheduler frees both.
///
/// The kernel stops on an error.
pub fn exit_now(s: &mut Sched, fa: &mut FrameAllocator, mem: &PhysMem, live_cr3: u64) -> (r: Result<
    Plan,
    &'static str,
>)
    requires
        old(s).wf(old(fa), mem),
    ensures
        mem.wf(final(fa)),
        exited(old(s), old(fa), final(s), final(fa), mem, live_cr3, r),
{
    match check_canary_current(s, fa, mem) {
        Err(e) => {
            return Err(e);
        },
        Ok(_) => {},
    }
    let ghost s0 = *s;
    let cur: usize = s.cpus[this_cpu()].current;
    if let Some(t) = s.threads[cur] {
        s.threads.set(cur, Some(KThread { state: State::Zombie, ..t }));
    }
    proof {
        lemma_ended_ok(&s0, s, fa, mem);
        assert forall|i: int| 0 <= i < MAX_THREADS implies #[trigger] bad_zombie(
            s.threads@,
            s.current(),
            mem,
            i,
        ) == bad_zombie(s0.threads@, s0.current(), mem, i) by {}
    }
    proof {
        if exists|i: int| 0 <= i < MAX_THREADS && #[trigger] bad_zombie(s.threads@, s.current(), mem, i) {
            let i = choose|i: int| 0 <= i < MAX_THREADS && #[trigger] bad_zombie(s.threads@, s.current(), mem, i);
            assert(bad_zombie(s0.threads@, s0.current(), mem, i));
        }
        if exists|i: int| 0 <= i < MAX_THREADS && #[trigger] bad_zombie(s0.threads@, s0.current(), mem, i) {
            let i = choose|i: int| 0 <= i < MAX_THREADS && #[trigger] bad_zombie(s0.threads@, s0.current(), mem, i);
            assert(bad_zombie(s.threads@, s.current(), mem, i));
        }
    }
    match plan_switch(s, fa, mem, false, live_cr3) {
        Err(e) => Err(e),
        Ok(None) => Err("scheduler: exited with empty ready queue"),
        Ok(Some(p)) => {
            s.switches = s.switches.wrapping_add(1);
            Ok(p)
        },
    }
}

/// Marking the current thread as ended keeps the rest in order.
proof fn lemma_ended_ok(s0: &Sched, s1: &Sched, fa: &FrameAllocator, mem: &PhysMem)
    requires
        s0.wf(fa, mem),
        *s1 == (Sched { threads: s1.threads, ..*s0 }),
        s1.threads@ == ended(s0.threads@, s0.current()),
    ensures
        between(s1, fa, mem),
        zombie(s1.threads@[s1.current()]),
{
    let cur = s0.current();
    assert forall|k: int| 0 <= k < s1.queue().len() implies (#[trigger] s1.queue()[k]) < MAX_THREADS
        && in_state(s1.threads@[s1.queue()[k] as int], State::Ready) by {
        assert(in_state(s0.threads@[s0.queue()[k] as int], State::Ready));
    }
    assert forall|i: int|
        0 <= i < MAX_THREADS && in_state(#[trigger] s1.threads@[i], State::Ready) implies s1.queue().contains(
        i as usize,
    ) by {
        assert(in_state(s0.threads@[i], State::Ready));
    }
    assert forall|i: int| 0 <= i < MAX_THREADS && i != cur implies !in_state(
        #[trigger] s1.threads@[i],
        State::Running,
    ) by {
        assert(!in_state(s0.threads@[i], State::Running));
    }
    assert forall|i: int| 0 <= i < MAX_THREADS && (#[trigger] s1.threads@[i]) is Some implies
        s1.threads@[i]->0.id < s1.next_id by {
        assert(s0.threads@[i] is Some);
    }
    assert forall|i: int, k: int|
        0 <= i < k < MAX_THREADS && (#[trigger] s1.threads@[i]) is Some && (
        #[trigger] s1.threads@[k]) is Some implies s1.threads@[i]->0.id != s1.threads@[k]->0.id by {
        assert(s0.threads@[i] is Some && s0.threads@[k] is Some);
    }
    assert forall|i: int| 0 <= i < MAX_THREADS && has_stack(#[trigger] s1.threads@[i]) implies
        stack_ok(s1.threads@[i]->0, fa, mem) by {
        assert(has_stack(s0.threads@[i]));
        assert(stack_ok(s0.threads@[i]->0, fa, mem));
    }
    assert forall|i: int, k: int, j: int|
        #![trigger stack_frame(s1.threads@[i], j), stack_frame(s1.threads@[k], j)]
        0 <= i < k < MAX_THREADS implies !(stack_frame(s1.threads@[i], j) && stack_frame(
        s1.threads@[k],
        j,
    )) by {
        assert(stack_frame(s1.threads@[i], j) == stack_frame(s0.threads@[i], j));
        assert(stack_frame(s1.threads@[k], j) == stack_frame(s0.threads@[k], j));
    }
}

/// End the current thread from within.
///
/// The kernel stops on an error.
pub fn terminate(s: &mut Sched, fa: &mut FrameAllocator, mem: &PhysMem, live_cr3: u64) -> (r: Result<
    Plan,
    &'static str,
>)
    requires
        old(s).wf(old(fa), mem),
    ensures
        mem.wf(final(fa)),
        exited(old(s), old(fa), final(s), final(fa), mem, live_cr3, r),
{
    exit_now(s, fa, mem, live_cr3)
}

/// Slot `i` is the first one that is empty.
pub open spec fn first_free(threads: Seq<Option<KThread>>, i: int) -> bool {
    &&& 0 <= i < threads.len()
    &&& threads[i] is None
    &&& forall|j: int| 0 <= j < i ==> #[trigger] threads[j] is Some
}

/// A thread as it starts: ready, with a stack and no user regions.
pub open spec fn newborn(
    o: Option<KThread>,
    id: u64,
    name: &'static str,
    entry: usize,
    arg: usize,
    base: u64,
    cr3: u64,
) -> bool {
    o matches Some(t) && {
        &&& t.id == id
        &&& t.name == name
        &&& t.state == State::Ready
        &&& t.entry == entry
        &&& t.arg == arg
        &&& t.stack_base == base
        &&& t.stack_frames == THREAD_STACK_FRAMES
        &&& t.cr3 == cr3
        &&& no_regions(t.regions)
    }
}

/// The frames of a new stack were taken, as a run, from the pool.
pub open spec fn stack_taken(f1: &FrameAllocator, f2: &FrameAllocator, base: u64) -> bool {
    let i = base as int / 4096;
    &&& base % 4096 == 0
    &&& frames::run_taken(f1.map@, frames::run_start(f1.hint as int, 8), 8, i)
    &&& forall|j: int|
        0 <= j < frames::FRAME_COUNT ==> #[trigger] frames::used(f2.map@, j) == (frames::used(
            f1.map@,
            j,
        ) || i <= j < i + 8)
    &&& forall|j: int| i <= j < i + 8 ==> !#[trigger] frames::used(f1.origin@, j)
    &&& f2.free == f1.free - 8
    &&& f2.available() == f1.available() - 8
    &&& f2.hint == i / 64
    &&& f2.same_pool(f1)
}

/// A new stack holds the canary at its bottom and the first frame at its top;
/// no other word changed.
pub open spec fn stack_laid(m0: &PhysMem, m1: &PhysMem, base: u64, trampoline: u64) -> bool {
    let w = base as int / 8;
    &&& m1.seats == m0.seats
    &&& m1.words@.len() == m0.words@.len()
    &&& m1.words@[w] == STACK_CANARY
    &&& forall|k: int|
        0 <= k < 10 ==> #[trigger] m1.words@[w + 4086 + k] == context::first_frame(trampoline)[k]
    &&& forall|k: int|
        0 <= k < m0.words@.len() && k != w && !(w + 4086 <= k < w + 4096)
            ==> #[trigger] m1.words@[k] == m0.words@[k]
}

/// What starting a thread does, from the pool `f1` that clearing the zombies
/// away has left.
pub open spec fn started(
    s0: &Sched,
    f1: &FrameAllocator,
    m0: &PhysMem,
    s1: &Sched,
    f2: &FrameAllocator,
    m1: &PhysMem,
    name: &'static str,
    entry: usize,
    arg: usize,
    cr3: u64,
    trampoline: u64,
    r: Result<u64, &'static str>,
) -> bool {
    let th = alive(s0.threads@, s0.current(), MAX_THREADS as int);
    match r {
        Ok(id) => exists|idx: int, base: u64|
            {
                &&& #[trigger] first_free(th, idx)
                &&& #[trigger] stack_taken(f1, f2, base)
                &&& base + THREAD_STACK_BYTES <= DIRECT_MAP_LIMIT
                &&& stack_laid(m0, m1, base, trampoline)
                &&& id == s0.next_id
                &&& s1.next_id == s0.next_id + 1
                &&& newborn(s1.threads@[idx], id, name, entry, arg, base, cr3)
                &&& s1.threads@ == th.update(idx, s1.threads@[idx])
                &&& s1.ctx@ == s0.ctx@.update(
                    idx,
                    vstd::wrapping::u64_specs::wrapping_add((base + 0x7FB0) as u64, KERNEL_OFFSET),
                )
                &&& s1.queue() == s0.queue().push(idx as usize)
                &&& s1.current() == s0.current()
                &&& s1.cpus@.len() == s0.cpus@.len()
                &&& forall|i: int|
                    0 < i < s0.cpus@.len() ==> #[trigger] s1.cpus@[i] == s0.cpus@[i]
                &&& s1.cpus@[0].slice == s0.cpus@[0].slice
                &&& s1.cpus@[0].remaining == s0.cpus@[0].remaining
                &&& s1.switches == s0.switches
                &&& s1.spawned == vstd::wrapping::u64_specs::wrapping_add(s0.spawned, 1)
            },
        Err(e) => {
            &&& *m1 == *m0
            &&& s1.threads@ == th
            &&& s1.cpus == s0.cpus
            &&& s1.ctx == s0.ctx
            &&& s1.switches == s0.switches
            &&& s1.spawned == s0.spawned
            &&& forall|j: int|
                0 <= j < frames::FRAME_COUNT ==> #[trigger] frames::used(f2.map@, j)
                    == frames::used(f1.map@, j)
            &&& f2.available() == f1.available()
            &&& f2.free == f1.free
            &&& f2.same_pool(f1)
            &&& if forall|i: int| 0 <= i < MAX_THREADS ==> #[trigger] th[i] is Some {
                &&& e == "thread table full (MAX_THREADS)"
                &&& s1.next_id == s0.next_id
                &&& f2.hint == f1.hint
            } else if no_run(f1) {
                &&& e == "frame exhaustion: no contiguous run for a thread stack"
                &&& s1.next_id == s0.next_id + 1
                &&& f2.hint == f1.hint
            } else {
                &&& e == "stack frame beyond the 2 GiB direct map (M3.1 bound)"
                &&& s1.next_id == s0.next_id + 1
                &&& exists|i: int|
                    #[trigger] frames::run_taken(
                        f1.map@,
                        frames::run_start(f1.hint as int, 8),
                        8,
                        i,
                    ) && i * 4096 + THREAD_STACK_BYTES > DIRECT_MAP_LIMIT && f2.hint == i / 64
            }
        },
    }
}

/// The pool has no run of frames for a stack.
pub open spec fn no_run(fa: &FrameAllocator) -> bool {
    forall|k: int|
        0 <= k <= frames::FRAME_COUNT - 8 ==> !#[trigger] frames::run_free(fa.map@, k, 8)
}

/// Write a new stack into frames that hold no table.
fn lay_stack(mem: &mut PhysMem, base: u64, trampoline: u64) -> (r: u64)
    requires
        base % 4096 == 0,
        base + THREAD_STACK_BYTES <= DIRECT_MAP_LIMIT,
        (base + THREAD_STACK_BYTES) / 8 <= old(mem).words@.len(),
        paging::tables_wf(old(mem).words@, old(mem).seats@),
        !old(mem).seats@.dom().contains(base as int),
        !old(mem).seats@.dom().contains(base + 0x7000),
    ensures
        stack_laid(old(mem), final(mem), base, trampoline),
        paging::tables_wf(final(mem).words@, final(mem).seats@),
        r == vstd::wrapping::u64_specs::wrapping_add((base + 0x7FB0) as u64, KERNEL_OFFSET),
{
    let n: usize = mem.words.len();
    let ghost w0 = mem.words@;
    mem.words.set((base / 8) as usize, STACK_CANARY);
    let ghost w1 = mem.words@;
    proof {
        paging::lemma_apart(w0, w1, mem.seats@, base as int);
    }
    let rsp: u64 = new_thread_stack(mem, base + THREAD_STACK_BYTES, trampoline);
    proof {
        paging::lemma_apart(w1, mem.words@, mem.seats@, base + 0x7000);
        let w = base as int / 8;
        assert((base + THREAD_STACK_BYTES) / 8 - 10 == w + 4086);
        assert forall|k: int| 0 <= k < 10 implies #[trigger] mem.words@[w + 4086 + k]
            == context::first_frame(trampoline)[k] by {
            assert(mem.words@[(base + THREAD_STACK_BYTES) / 8 - 10 + k] == context::first_frame(
                trampoline,
            )[k]);
        }
    }
    rsp
}

/// A new ready thread with a stack of its own keeps the scheduler in order.
proof fn lemma_started_ok(
    a: &Sched,
    f1: &FrameAllocator,
    m0: &PhysMem,
    b: &Sched,
    f2: &FrameAllocator,
    m1: &PhysMem,
    idx: int,
    base: u64,
)
    requires
        a.wf(f1, m0),
        b.shape(),
        first_free(a.threads@, idx),
        stack_taken(f1, f2, base),
        f2.wf(),
        base + THREAD_STACK_BYTES <= DIRECT_MAP_LIMIT,
        m1.seats == m0.seats,
        m1.words@.len() == m0.words@.len(),
        paging::tables_wf(m1.words@, m1.seats@),
        b.threads@ == a.threads@.update(idx, b.threads@[idx]),
        b.threads@[idx] matches Some(t) && t.id == a.next_id && t.state == State::Ready
            && t.stack_base == base && t.stack_frames == THREAD_STACK_FRAMES,
        b.next_id == a.next_id + 1,
        b.queue() == a.queue().push(idx as usize),
        b.current() == a.current(),
    ensures
        b.wf(f2, m1),
{
    let q = a.queue();
    let i0 = base as int / 4096;
    assert forall|k: int| 0 <= k < q.len() implies q[k] != idx by {
        assert(in_state(a.threads@[q[k] as int], State::Ready));
    }
    assert forall|i: int, j: int|
        0 <= i < b.queue().len() && 0 <= j < b.queue().len() && i != j implies b.queue()[i]
        != b.queue()[j] by {
        if i < q.len() {
            assert(b.queue()[i] == q[i]);
        }
        if j < q.len() {
            assert(b.queue()[j] == q[j]);
        }
    }
    assert forall|k: int| 0 <= k < b.queue().len() implies (#[trigger] b.queue()[k]) < MAX_THREADS
        && in_state(b.threads@[b.queue()[k] as int], State::Ready) by {
        if k < q.len() {
            assert(in_state(a.threads@[q[k] as int], State::Ready));
        }
    }
    assert forall|i: int|
        0 <= i < MAX_THREADS && in_state(#[trigger] b.threads@[i], State::Ready) implies b.queue().contains(
        i as usize,
    ) by {
        if i == idx {
            assert(b.queue()[q.len() as int] == idx);
        } else {
            assert(in_state(a.threads@[i], State::Ready));
            let k = choose|k: int| 0 <= k < q.len() && q[k] == i as usize;
            assert(b.queue()[k] == i as usize);
        }
    }
    assert forall|i: int| 0 <= i < MAX_THREADS && i != b.current() implies !in_state(
        #[trigger] b.threads@[i],
        State::Running,
    ) by {
        if i != idx {
            assert(!in_state(a.threads@[i], State::Running));
        }
    }
    assert forall|i: int| 0 <= i < MAX_THREADS && (#[trigger] b.threads@[i]) is Some implies
        b.threads@[i]->0.id < b.next_id by {
        if i != idx {
            assert(a.threads@[i] is Some);
        }
    }
    assert forall|i: int, k: int|
        0 <= i < k < MAX_THREADS && (#[trigger] b.threads@[i]) is Some && (
        #[trigger] b.threads@[k]) is Some implies b.threads@[i]->0.id != b.threads@[k]->0.id by {
        if i != idx {
            assert(a.threads@[i] is Some);
        }
        if k != idx {
            assert(a.threads@[k] is Some);
        }
    }
    assert forall|j: int| i0 <= j < i0 + 8 implies !#[trigger] frames::used(f1.map@, j) by {}
    assert forall|j: int| i0 <= j < i0 + 8 implies !m0.seats@.dom().contains(
        #[trigger] (j * 4096),
    ) by {
        if m0.seats@.dom().contains(j * 4096) {
            assert(f1.in_use(j * 4096));
            assert(j * 4096 / 4096 == j);
        }
    }
    assert((i0 + 8) * 512 <= m0.words@.len()) by {
        assert(!frames::used(f1.map@, i0 + 7));
    }
    assert forall|i: int| 0 <= i < MAX_THREADS && has_stack(#[trigger] b.threads@[i]) implies
        stack_ok(b.threads@[i]->0, f2, m1) by {
        let t = b.threads@[i]->0;
        if i == idx {
            assert forall|j: int|
                t.stack_base as int / 4096 <= j < t.stack_base as int / 4096
                    + 8 implies #[trigger] frames::used(f2.map@, j) && !frames::used(
                f2.origin@,
                j,
            ) && !m1.seats@.dom().contains(j * 4096) by {
                assert(!frames::used(f1.origin@, j));
            }
        } else {
            assert(has_stack(a.threads@[i]));
            assert(stack_ok(t, f1, m0));
            assert forall|j: int|
                t.stack_base as int / 4096 <= j < t.stack_base as int / 4096
                    + 8 implies #[trigger] frames::used(f2.map@, j) by {
                assert(frames::used(f1.map@, j));
            }
            lemma_stack_stays(t, f1, m0, f2, m1);
        }
    }
    assert forall|i: int, k: int, j: int|
        #![trigger stack_frame(b.threads@[i], j), stack_frame(b.threads@[k], j)]
        0 <= i < k < MAX_THREADS implies !(stack_frame(b.threads@[i], j) && stack_frame(
        b.threads@[k],
        j,
    )) by {
        if i == idx || k == idx {
            let o = if i == idx {
                k
            } else {
                i
            };
            if stack_frame(b.threads@[o], j) {
                assert(has_stack(a.threads@[o]));
                assert(stack_ok(a.threads@[o]->0, f1, m0));
                assert(frames::used(f1.map@, j));
            }
        } else {
            assert(!(stack_frame(a.threads@[i], j) && stack_frame(a.threads@[k], j)));
        }
    }
    assert forall|t: int| #[trigger] m1.seats@.dom().contains(t) implies f2.in_use(t) by {
        assert(f1.in_use(t));
        assert(paging::is_table(m0.words@, m0.seats@, t));
    }
    assert forall|j: int|
        0 <= j < frames::FRAME_COUNT && !#[trigger] frames::used(f2.map@, j) implies (j + 1) * 512
        <= m1.words@.len() by {
        assert(!frames::used(f1.map@, j));
    }
}

/// The first empty slot.
fn free_slot(threads: &Vec<Option<KThread>>) -> (r: Option<usize>)
    requires
        threads@.len() == MAX_THREADS,
    ensures
        match r {
            Some(i) => first_free(threads@, i as int),
            None => forall|i: int| 0 <= i < MAX_THREADS ==> #[trigger] threads@[i] is Some,
        },
{
    let mut i: usize = 0;
    while i < MAX_THREADS
        invariant
            i <= MAX_THREADS,
            threads@.len() == MAX_THREADS,
            forall|j: int| 0 <= j < i ==> #[trigger] threads@[j] is Some,
        decreases MAX_THREADS - i,
    {
        if threads[i].is_none() {
            return Some(i);
        }
        i = i + 1;
    }
    None
}

/// What a spawn answers and does.
pub open spec fn spawn_answer(
    s0: &Sched,
    f0: &FrameAllocator,
    m0: &PhysMem,
    s1: &Sched,
    f2: &FrameAllocator,
    m1: &PhysMem,
    name: &'static str,
    entry: usize,
    arg: usize,
    cr3: u64,
    trampoline: u64,
    r: Result<u64, &'static str>,
) -> bool {
    if exists|i: int| 0 <= i < MAX_THREADS && #[trigger] bad_zombie(s0.threads@, s0.current(), m0, i) {
        &&& r == Err::<u64, &'static str>("kernel stack overflow (canary at reap)")
        &&& *m1 == *m0
        &&& stopped(s0, s0.threads@, f0, s1, f2, m0)
    } else {
        &&& s1.wf(f2, m1)
        &&& exists|f1: FrameAllocator|
            #[trigger] buried_freed(s0.threads@, s0.current(), f0, &f1) && started(
                s0,
                &f1,
                m0,
                s1,
                f2,
                m1,
                name,
                entry,
                arg,
                cr3,
                trampoline,
                r,
            )
    }
}

/// Start a thread in the address space `cr3`: a slot, a number, a stack whose
/// first frame returns to `trampoline`, and the end of the queue.
///
/// The kernel stops if a zombie's canary is gone.
pub fn spawn_inner(
    s: &mut Sched,
    fa: &mut FrameAllocator,
    mem: &mut PhysMem,
    name: &'static str,
    entry: usize,
    arg: usize,
    cr3: u64,
    trampoline: u64,
) -> (r: Result<u64, &'static str>)
    requires
        old(s).wf(old(fa), old(mem)),
        old(s).next_id < u64::MAX,
    ensures
        final(mem).wf(final(fa)),
        spawn_answer(
            old(s),
            old(fa),
            old(mem),
            final(s),
            final(fa),
            final(mem),
            name,
            entry,
            arg,
            cr3,
            trampoline,
            r,
        ),
{
    let ghost s0 = *s;
    let ghost f0 = *fa;
    let ghost m0 = *mem;
    match reap(s, fa, mem) {
        Err(e) => {
            return Err(e);
        },
        Ok(_) => {},
    }
    let ghost s1 = *s;
    let ghost f1 = *fa;
    proof {
        lemma_reaped_ok(&s0, &f0, s, fa, mem);
        assert(buried_freed(s0.threads@, s0.current(), &f0, &f1));
    }
    let idx: usize = match free_slot(&s.threads) {
        None => {
            return Err("thread table full (MAX_THREADS)");
        },
        Some(i) => i,
    };
    let id: u64 = s.next_id;
    s.next_id = id + 1;
    let phys: u64 = match frames::alloc_contiguous(fa, THREAD_STACK_FRAMES) {
        None => {
            assert(no_run(&f1));
            return Err("frame exhaustion: no contiguous run for a thread stack");
        },
        Some(p) => p,
    };
    proof {
        assert forall|j: int|
            phys as int / 4096 <= j < phys as int / 4096 + 8 implies !#[trigger] frames::used(
            f1.origin@,
            j,
        ) by {
            assert(f1.managed(frames::frame_at(j)));
        }
        assert(stack_taken(&f1, fa, phys));
    }
    let ghost f2 = *fa;
    if phys + THREAD_STACK_BYTES > DIRECT_MAP_LIMIT {
        proof {
            lemma_run_back(&f1, &f2, phys);
            lemma_taken_wf(mem, &f1, &f2, phys);
        }
        let _ = frames::free_contiguous(fa, phys, THREAD_STACK_FRAMES);
        proof {
            lemma_back_ok(&s1, s, mem, &f1, &f2, fa, phys);
            assert(!no_run(&f1)) by {
                assert(frames::run_free(f1.map@, phys as int / 4096, 8));
            }
        }
        return Err("stack frame beyond the 2 GiB direct map (M3.1 bound)");
    }
    proof {
        let i0 = phys as int / 4096;
        assert forall|j: int| i0 <= j < i0 + 8 implies !m0.seats@.dom().contains(
            #[trigger] (j * 4096),
        ) by {
            assert(!frames::used(f1.map@, j));
            if m0.seats@.dom().contains(j * 4096) {
                assert(f1.in_use(j * 4096));
                assert(j * 4096 / 4096 == j);
            }
        }
        assert(phys as int == i0 * 4096);
        assert(phys + 0x7000 == (i0 + 7) * 4096);
        assert(!frames::used(f1.map@, i0 + 7));
    }
    let rsp: u64 = lay_stack(mem, phys, trampoline);
    let t: KThread = KThread {
        id,
        name,
        state: State::Ready,
        entry,
        arg,
        stack_base: phys,
        stack_frames: THREAD_STACK_FRAMES,
        cr3,
        regions: [(0, 0), (0, 0), (0, 0), (0, 0)],
    };
    s.threads.set(idx, Some(t));
    s.ctx.set(idx, rsp);
    let me: usize = this_cpu();
    let mut cpu: CpuSched = s.cpus[me];
    proof {
        assert forall|k: int| 0 <= k < s0.queue().len() implies #[trigger] s0.queue()[k]
            < MAX_THREADS && s0.queue()[k] != idx by {
            assert(in_state(s0.threads@[s0.queue()[k] as int], State::Ready));
            assert(s1.threads@[s0.queue()[k] as int] is Some);
        }
        lemma_room(s0.queue(), idx as int);
    }
    if !cpu.ready.push(idx) {
        s.threads.set(idx, None);
        let _ = frames::free_contiguous(fa, phys, THREAD_STACK_FRAMES);
        return Err("ready queue overflow");
    }
    s.cpus.set(me, cpu);
    s.spawned = s.spawned.wrapping_add(1);
    proof {
        lemma_started_ok(&s1, &f1, &m0, s, fa, mem, idx as int, phys);
        assert(first_free(alive(s0.threads@, s0.current(), MAX_THREADS as int), idx as int));
        assert(newborn(s.threads@[idx as int], id, name, entry, arg, phys, cr3));
        assert(started(&s0, &f1, &m0, s, fa, mem, name, entry, arg, cr3, trampoline, Ok(id)));
    }
    Ok(id)
}

/// A run that was just taken can be given back.
proof fn lemma_run_back(f1: &FrameAllocator, f2: &FrameAllocator, base: u64)
    requires
        f1.ready,
        stack_taken(f1, f2, base),
        base + 8 * 4096 <= frames::PHYS_LIMIT,
    ensures
        forall|k: int|
            0 <= k < 8 ==> #[trigger] frames::free_answer(f2, base + k * 4096) is Ok,
{
    assert forall|k: int| 0 <= k < 8 implies #[trigger] frames::free_answer(
        f2,
        base + k * 4096,
    ) is Ok by {
        let j = base as int / 4096 + k;
        assert((base + k * 4096) / 4096 == j);
        assert(frames::used(f2.map@, j));
        assert(!frames::used(f1.origin@, j));
    }
}

/// Taking frames keeps memory in order.
proof fn lemma_taken_wf(mem: &PhysMem, f1: &FrameAllocator, f2: &FrameAllocator, base: u64)
    requires
        mem.wf(f1),
        f2.wf(),
        stack_taken(f1, f2, base),
    ensures
        mem.wf(f2),
{
    assert forall|t: int| #[trigger] mem.seats@.dom().contains(t) implies f2.in_use(t) by {
        assert(f1.in_use(t));
        assert(paging::is_table(mem.words@, mem.seats@, t));
    }
    assert forall|j: int|
        0 <= j < frames::FRAME_COUNT && !#[trigger] frames::used(f2.map@, j) implies (j + 1) * 512
        <= mem.words@.len() by {
        assert(!frames::used(f1.map@, j));
    }
}

/// Taking a run and giving it back leaves the scheduler in order.
proof fn lemma_back_ok(
    a: &Sched,
    b: &Sched,
    mem: &PhysMem,
    f1: &FrameAllocator,
    f2: &FrameAllocator,
    f3: &FrameAllocator,
    base: u64,
)
    requires
        a.wf(f1, mem),
        *b == (Sched { next_id: b.next_id, ..*a }),
        b.next_id >= a.next_id,
        stack_taken(f1, f2, base),
        f3.wf(),
        f3.same_pool(f2),
        forall|j: int|
            0 <= j < frames::FRAME_COUNT ==> #[trigger] frames::used(f3.map@, j) == (frames::used(
                f2.map@,
                j,
            ) && !(base as int / 4096 <= j < base as int / 4096 + 8)),
    ensures
        b.wf(f3, mem),
        forall|j: int|
            0 <= j < frames::FRAME_COUNT ==> #[trigger] frames::used(f3.map@, j) == frames::used(
                f1.map@,
                j,
            ),
{
    assert forall|j: int| 0 <= j < frames::FRAME_COUNT implies #[trigger] frames::used(f3.map@, j)
        == frames::used(f1.map@, j) by {
        if base as int / 4096 <= j < base as int / 4096 + 8 {
            assert(!frames::used(f1.map@, j));
        } else {
            assert(frames::used(f2.map@, j) == frames::used(f1.map@, j));
        }
    }
    assert forall|t: int| #[trigger] mem.seats@.dom().contains(t) implies f3.in_use(t) by {
        assert(f1.in_use(t));
        assert(paging::is_table(mem.words@, mem.seats@, t));
    }
    assert forall|j: int|
        0 <= j < frames::FRAME_COUNT && !#[trigger] frames::used(f3.map@, j) implies (j + 1) * 512
        <= mem.words@.len() by {
        assert(!frames::used(f1.map@, j));
    }
    assert forall|i: int| 0 <= i < MAX_THREADS && has_stack(#[trigger] b.threads@[i]) implies
        stack_ok(b.threads@[i]->0, f3, mem) by {
        let t = b.threads@[i]->0;
        assert(has_stack(a.threads@[i]));
        assert(stack_ok(t, f1, mem));
        assert forall|j: int|
            t.stack_base as int / 4096 <= j < t.stack_base as int / 4096
                + 8 implies #[trigger] frames::used(f3.map@, j) && !mem.seats@.dom().contains(
            j * 4096,
        ) by {
            assert(frames::used(f1.map@, j));
        }
    }
}

/// Start a thread in the kernel's own address space.
pub fn spawn(
    s: &mut Sched,
    fa: &mut FrameAllocator,
    mem: &mut PhysMem,
    name: &'static str,
    entry: usize,
    arg: usize,
    kernel_cr3: u64,
    trampoline: u64,
) -> (r: Result<u64, &'static str>)
    requires
        old(s).wf(old(fa), old(mem)),
        old(s).next_id < u64::MAX,
    ensures
        final(mem).wf(final(fa)),
        spawn_answer(
            old(s),
            old(fa),
            old(mem),
            final(s),
            final(fa),
            final(mem),
            name,
            entry,
            arg,
            kernel_cr3,
            trampoline,
            r,
        ),
{
    spawn_inner(s, fa, mem, name, entry, arg, kernel_cr3, trampoline)
}

/// Start a thread in the address space with root `cr3_phys`.
pub fn spawn_with_cr3(
    s: &mut Sched,
    fa: &mut FrameAllocator,
    mem: &mut PhysMem,
    name: &'static str,
    entry: usize,
    arg: usize,
    cr3_phys: u64,
    trampoline: u64,
) -> (r: Result<u64, &'static str>)
    requires
        old(s).wf(old(fa), old(mem)),
        old(s).next_id < u64::MAX,
    ensures
        final(mem).wf(final(fa)),
        if cr3_phys == 0 || cr3_phys % PAGE != 0 {
            &&& r == Err::<u64, &'static str>("spawn_with_cr3: not a valid PML4 root")
            &&& *final(s) == *old(s)
            &&& *final(fa) == *old(fa)
            &&& *final(mem) == *old(mem)
        } else {
            spawn_answer(
                old(s),
                old(fa),
                old(mem),
                final(s),
                final(fa),
                final(mem),
                name,
                entry,
                arg,
                cr3_phys,
                trampoline,
                r,
            )
        },
{
    if cr3_phys == 0 || cr3_phys % PAGE != 0 {
        return Err("spawn_with_cr3: not a valid PML4 root");
    }
    spawn_inner(s, fa, mem, name, entry, arg, cr3_phys, trampoline)
}

/// How many of the first `n` slots hold a thread that has not ended.
pub open spec fn live_below(threads: Seq<Option<KThread>>, n: int) -> int
    decreases n,
{
    if n <= 0 {
        0
    } else {
        live_below(threads, n - 1) + (if threads[n - 1] is Some && !zombie(threads[n - 1]) {
            1int
        } else {
            0
        })
    }
}

/// How many threads have not ended.
pub fn live_threads(s: &Sched) -> (r: usize)
    requires
        s.shape(),
    ensures
        r == live_below(s.threads@, MAX_THREADS as int),
{
    let mut n: usize = 0;
    let mut i: usize = 0;
    while i < MAX_THREADS
        invariant
            i <= MAX_THREADS,
            n <= i,
            s.shape(),
            n == live_below(s.threads@, i as int),
        decreases MAX_THREADS - i,
    {
        if let Some(t) = s.threads[i] {
            if t.state != State::Zombie {
                n = n + 1;
            }
        }
        i = i + 1;
    }
    n
}

/// How often the processor has gone from one thread to another.
pub fn switch_count(s: &Sched) -> (r: u64)
    ensures
        r == s.switches,
{
    s.switches
}

/// How many threads were started.
pub fn spawned_total(s: &Sched) -> (r: u64)
    ensures
        r == s.spawned,
{
    s.spawned
}

/// Where the current thread's stack begins and ends, or zeros without one.
pub fn current_stack_range(s: &Sched) -> (r: (u64, u64))
    requires
        s.shape(),
        s.threads@[s.current()] is Some,
    ensures
        r == (if has_stack(s.threads@[s.current()]) {
            let base = s.threads@[s.current()]->0.stack_base;
            (stack_va(base), stack_top(base))
        } else {
            (0u64, 0u64)
        }),
{
    let cur: usize = s.cpus[this_cpu()].current;
    match s.threads[cur] {
        Some(t) => if t.stack_frames == 0 {
            (0, 0)
        } else {
            (t.stack_base.wrapping_add(KERNEL_OFFSET), top_of(t.stack_base))
        },
        None => (0, 0),
    }
}

/// Where the current thread's stack ends.
pub fn current_kernel_stack_top(s: &Sched) -> (r: Option<u64>)
    requires
        s.shape(),
        s.threads@[s.current()] is Some,
    ensures
        r == (if has_stack(s.threads@[s.current()]) {
            Some(stack_top(s.threads@[s.current()]->0.stack_base))
        } else {
            None
        }),
{
    let cur: usize = s.cpus[this_cpu()].current;
    match s.threads[cur] {
        Some(t) => if t.stack_frames == 0 {
            None
        } else {
            Some(top_of(t.stack_base))
        },
        None => None,
    }
}

/// The first slot from `i` on whose thread has the number `id`, with a stack
/// if `stacked` says so.
pub open spec fn slot_of(threads: Seq<Option<KThread>>, id: u64, stacked: bool, i: int) -> Option<int>
    decreases threads.len() - i,
{
    if i >= threads.len() {
        None
    } else if threads[i] is Some && threads[i]->0.id == id && (stacked ==> has_stack(threads[i])) {
        Some(i)
    } else {
        slot_of(threads, id, stacked, i + 1)
    }
}

fn find_thread(s: &Sched, id: u64, stacked: bool) -> (r: Option<KThread>)
    requires
        s.shape(),
    ensures
        r == (match slot_of(s.threads@, id, stacked, 0) {
            Some(i) => s.threads@[i],
            None => None,
        }),
{
    let mut i: usize = 0;
    while i < MAX_THREADS
        invariant
            i <= MAX_THREADS,
            s.shape(),
            slot_of(s.threads@, id, stacked, 0) == slot_of(s.threads@, id, stacked, i as int),
        decreases MAX_THREADS - i,
    {
        if let Some(t) = s.threads[i] {
            if t.id == id && (!stacked || t.stack_frames > 0) {
                return Some(t);
            }
        }
        i = i + 1;
    }
    None
}

/// Where the stack of thread `id` ends.
pub fn thread_stack_top(s: &Sched, id: u64) -> (r: Option<u64>)
    requires
        s.shape(),
    ensures
        r == (match slot_of(s.threads@, id, true, 0) {
            Some(i) => Some(stack_top(s.threads@[i]->0.stack_base)),
            None => None,
        }),
{
    proof {
        lemma_slot_of(s.threads@, id, true, 0);
    }
    match find_thread(s, id, true) {
        Some(t) => Some(top_of(t.stack_base)),
        None => None,
    }
}

/// The function that thread `id` starts with.
pub fn thread_entry_of(s: &Sched, id: u64) -> (r: Option<usize>)
    requires
        s.shape(),
    ensures
        r == (match slot_of(s.threads@, id, false, 0) {
            Some(i) => Some(s.threads@[i]->0.entry),
            None => None,
        }),
{
    proof {
        lemma_slot_of(s.threads@, id, false, 0);
    }
    match find_thread(s, id, false) {
        Some(t) => Some(t.entry),
        None => None,
    }
}

proof fn lemma_slot_of(threads: Seq<Option<KThread>>, id: u64, stacked: bool, i: int)
    requires
        0 <= i,
    ensures
        slot_of(threads, id, stacked, i) matches Some(k) ==> i <= k < threads.len()
            && threads[k] is Some,
    decreases threads.len() - i,
{
    if i < threads.len() {
        lemma_slot_of(threads, id, stacked, i + 1);
    }
}

/// The number of the current thread.
pub fn current_thread_id(s: &Sched) -> (r: u64)
    requires
        s.shape(),
        s.threads@[s.current()] is Some,
    ensures
        r == s.threads@[s.current()]->0.id,
{
    let cur: usize = s.cpus[this_cpu()].current;
    match s.threads[cur] {
        Some(t) => t.id,
        None => 0,
    }
}

/// The user memory that the current thread may name in system calls.
pub fn current_user_regions(s: &Sched) -> (r: [(u64, u64); USER_REGIONS_MAX])
    requires
        s.shape(),
        s.threads@[s.current()] is Some,
    ensures
        r == s.threads@[s.current()]->0.regions,
{
    let cur: usize = s.cpus[this_cpu()].current;
    match s.threads[cur] {
        Some(t) => t.regions,
        None => [(0, 0), (0, 0), (0, 0), (0, 0)],
    }
}

/// Set the user memory that the current thread may name.
pub fn set_current_user_regions(s: &mut Sched, regions: &[(u64, u64)]) -> (r: Result<
    (),
    &'static str,
>)
    requires
        old(s).shape(),
        old(s).threads@[old(s).current()] is Some,
    ensures
        if regions@.len() > USER_REGIONS_MAX {
            r == Err::<(), &'static str>("too many user regions") && *final(s) == *old(s)
        } else {
            let cur = old(s).current();
            let set = final(s).threads@[cur]->0.regions;
            &&& r == Ok::<(), &'static str>(())
            &&& *final(s) == (Sched { threads: final(s).threads, ..*old(s) })
            &&& final(s).threads@ == old(s).threads@.update(
                cur,
                Some(KThread { regions: set, ..old(s).threads@[cur]->0 }),
            )
            &&& forall|i: int|
                0 <= i < USER_REGIONS_MAX ==> #[trigger] set@[i] == (if i < regions@.len() {
                    regions@[i]
                } else {
                    (0u64, 0u64)
                })
        },
{
    if regions.len() > USER_REGIONS_MAX {
        return Err("too many user regions");
    }
    let cur: usize = s.cpus[this_cpu()].current;
    let mut set: [(u64, u64); USER_REGIONS_MAX] = [(0, 0), (0, 0), (0, 0), (0, 0)];
    let mut i: usize = 0;
    while i < regions.len()
        invariant
            i <= regions@.len(),
            regions@.len() <= USER_REGIONS_MAX,
            forall|k: int|
                0 <= k < USER_REGIONS_MAX ==> #[trigger] set@[k] == (if k < i {
                    regions@[k]
                } else {
                    (0u64, 0u64)
                }),
        decreases regions@.len() - i,
    {
        set[i] = regions[i];
        i = i + 1;
    }
    if let Some(t) = s.threads[cur] {
        s.threads.set(cur, Some(KThread { regions: set, ..t }));
    }
    Ok(())
}

/// One turn: the front of the queue runs, and who ran goes to its end.
pub open spec fn turn(q: Seq<usize>, cur: usize) -> (Seq<usize>, usize) {
    if q.len() == 0 {
        (q, cur)
    } else {
        (q.drop_first().push(cur), q[0])
    }
}

/// `n` turns.
pub open spec fn turns(q: Seq<usize>, cur: usize, n: nat) -> (Seq<usize>, usize)
    decreases n,
{
    if n == 0 {
        (q, cur)
    } else {
        let p = turns(q, cur, (n - 1) as nat);
        turn(p.0, p.1)
    }
}

/// A yield is one turn of the queue.
pub proof fn law_yield_is_a_turn(
    s0: Sched,
    f0: FrameAllocator,
    s1: Sched,
    f1: FrameAllocator,
    mem: PhysMem,
    live: u64,
    r: Result<Option<Plan>, &'static str>,
)
    requires
        s0.wf(&f0, &mem),
        yielded(&s0, &f0, &s1, &f1, &mem, live, r),
        r is Ok,
    ensures
        (s1.queue(), s1.current() as usize) == turn(s0.queue(), s0.current() as usize),
{
}

/// Threads run in the order in which they queue. After `n` turns, up to the
/// length of the queue, thread `n` of the round runs, where the current
/// thread is number zero.
pub proof fn law_round_robin(q: Seq<usize>, cur: usize, n: nat)
    requires
        n <= q.len(),
    ensures
        ({
            let c = seq![cur] + q;
            turns(q, cur, n) == (c.skip(n as int + 1) + c.take(n as int), c[n as int])
        }),
    decreases n,
{
    let c = seq![cur] + q;
    if n == 0 {
        assert(c.skip(1) + c.take(0) =~= q);
    } else {
        law_round_robin(q, cur, (n - 1) as nat);
        let m = (n - 1) as int;
        let p = c.skip(m + 1) + c.take(m);
        assert(p[0] == c[m + 1]);
        assert(p.drop_first().push(c[m]) =~= c.skip(n as int + 1) + c.take(n as int));
    }
}

/// Every thread gets its turn: once all have yielded, everything is as it was.
pub proof fn law_full_round(q: Seq<usize>, cur: usize)
    ensures
        turns(q, cur, q.len() + 1) == (q, cur),
{
    let c = seq![cur] + q;
    law_round_robin(q, cur, q.len());
    let p = c.skip(q.len() as int + 1) + c.take(q.len() as int);
    if q.len() == 0 {
        assert(p =~= q);
    } else {
        assert(p[0] == cur);
        assert(p.drop_first().push(c[q.len() as int]) =~= q);
    }
}

proof fn lemma_no_stacks(threads: Seq<Option<KThread>>, cur: int, n: int)
    requires
        0 <= n <= threads.len(),
        forall|i: int| 0 <= i < n ==> !#[trigger] dead(threads, cur, i),
    ensures
        stacks_below(threads, cur, n) == 0,
    decreases n,
{
    if n > 0 {
        lemma_no_stacks(threads, cur, n - 1);
    }
}

proof fn lemma_one_stack(threads: Seq<Option<KThread>>, cur: int, k: int, n: int)
    requires
        0 <= k < n <= threads.len(),
        dead(threads, cur, k),
        forall|i: int| 0 <= i < n && i != k ==> !#[trigger] dead(threads, cur, i),
    ensures
        stacks_below(threads, cur, n) == (if has_stack(threads[k]) {
            1int
        } else {
            0
        }),
    decreases n,
{
    if k == n - 1 {
        lemma_no_stacks(threads, cur, n - 1);
    } else {
        lemma_one_stack(threads, cur, k, n - 1);
    }
}

/// No slot holds a thread that has ended.
pub open spec fn none_dead(s: &Sched) -> bool {
    forall|i: int| 0 <= i < MAX_THREADS ==> !zombie(#[trigger] s.threads@[i])
}

/// Starting a thread takes the frames of its stack from the pool, and no
/// others.
pub proof fn law_spawn_takes_stack(
    s0: Sched,
    f0: FrameAllocator,
    m0: PhysMem,
    s1: Sched,
    f1: FrameAllocator,
    m1: PhysMem,
    name: &'static str,
    entry: usize,
    arg: usize,
    cr3: u64,
    trampoline: u64,
    id: u64,
)
    requires
        s0.wf(&f0, &m0),
        none_dead(&s0),
        spawn_answer(&s0, &f0, &m0, &s1, &f1, &m1, name, entry, arg, cr3, trampoline, Ok(id)),
    ensures
        f1.available() == f0.available() - THREAD_STACK_FRAMES,
{
    lemma_no_stacks(s0.threads@, s0.current(), MAX_THREADS as int);
}

/// A thread does not free the stack it runs on. Its end leaves the pool as it
/// was, and keeps its slot; the next entry into the scheduler gives back the
/// frames of its stack, and empties the slot.
pub proof fn law_next_entry_frees_stack(
    s0: Sched,
    f0: FrameAllocator,
    s1: Sched,
    f1: FrameAllocator,
    mem: PhysMem,
    live: u64,
    p: Plan,
    s2: Sched,
    f2: FrameAllocator,
    later: PhysMem,
    later_live: u64,
    r: Result<Option<Plan>, &'static str>,
)
    requires
        s0.wf(&f0, &mem),
        none_dead(&s0),
        has_stack(s0.threads@[s0.current()]),
        exited(&s0, &f0, &s1, &f1, &mem, live, Ok(p)),
        yielded(&s1, &f1, &s2, &f2, &later, later_live, r),
        r is Ok,
    ensures
        f1.available() == f0.available(),
        zombie(s1.threads@[s0.current()]),
        f2.available() == f0.available() + THREAD_STACK_FRAMES,
        s2.threads@[s0.current()] is None,
{
    let cur = s0.current();
    let th = ended(s0.threads@, cur);
    assert forall|i: int| 0 <= i < MAX_THREADS implies !#[trigger] dead(th, cur, i) by {
        assert(!zombie(s0.threads@[i]));
    }
    lemma_no_stacks(th, cur, MAX_THREADS as int);
    assert(in_state(s0.threads@[s0.queue()[0] as int], State::Ready));
    assert(s1.current() != cur);
    assert forall|i: int| 0 <= i < MAX_THREADS && i != cur implies !#[trigger] dead(
        s1.threads@,
        s1.current(),
        i,
    ) by {
        assert(!zombie(s0.threads@[i]));
    }
    assert(dead(s1.threads@, s1.current(), cur));
    lemma_one_stack(s1.threads@, s1.current(), cur, MAX_THREADS as int);
    if s1.queue().len() > 0 {
        assert(in_state(s1.threads@[s1.queue()[0] as int], State::Ready));
    }
}

} // verus!

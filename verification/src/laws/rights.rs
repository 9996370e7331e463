//! Who has which capability, and what comes of using it.

use crate::cap;
use crate::cap::{Cap, CapObj};
use crate::frames::FrameAllocator;
use crate::kernel::Kernel;
use crate::laws::calls::has;
use crate::laws::memory;
use crate::laws::memory::Found;
use crate::laws::pool;
use crate::paging;
use crate::proc;
use crate::proc::ProcTable;
use crate::views;
use vstd::prelude::*;

verus! {

/// Slot `n` of process `pid` holds `c` now, and every other slot of every
/// process what it held before.
pub open spec fn only_slot(t0: ProcTable, t1: ProcTable, pid: u64, n: u64, c: Cap) -> bool {
    &&& has(t1, pid, n, c)
    &&& forall|p: u64, m: u64, e: Cap|
        #![trigger has(t1, p, m, e)]
        #![trigger has(t0, p, m, e)]
        !(p == pid && m == n) ==> (has(t1, p, m, e) <==> has(t0, p, m, e))
}

/// Slot `n` of process `pid` is there and empty.
pub open spec fn vacant(t: ProcTable, pid: u64, n: u64) -> bool {
    exists|e: Cap| #[trigger] has(t, pid, n, e) && e.obj is Empty
}

proof fn lemma_has(t: ProcTable, pid: u64, n: u64)
    requires
        t.wf(),
    ensures
        match cap::slot_answer(&t, pid, n as int) {
            Ok(c) => has(t, pid, n, c) && forall|e: Cap| #[trigger] has(t, pid, n, e) ==> e == c,
            Err(_) => forall|e: Cap| !#[trigger] has(t, pid, n, e),
        },
{
    proc::lemma_find_bounds(t.slots@, pid);
    match cap::slot_answer(&t, pid, n as int) {
        Ok(c) => {
            let i = proc::find(t.slots@, pid)->0;
            assert(t.slots@[i] is Some);
            assert forall|e: Cap| #[trigger] has(t, pid, n, e) implies e == c by {
                let j = choose|j: int|
                    0 <= j < t.slots@.len() && (#[trigger] t.slots@[j]) is Some
                        && t.slots@[j]->0.id == pid && t.slots@[j]->0.caps.slots@[n as int] == e;
                assert(t.slots@[i] is Some && t.slots@[j] is Some);
            }
        },
        Err(_) => {
            assert forall|e: Cap| !#[trigger] has(t, pid, n, e) by {
                if has(t, pid, n, e) {
                    let j = choose|j: int|
                        0 <= j < t.slots@.len() && (#[trigger] t.slots@[j]) is Some
                            && t.slots@[j]->0.id == pid && t.slots@[j]->0.caps.slots@[n as int]
                            == e;
                    assert(t.slots@[j] is Some);
                }
            }
        },
    }
}

proof fn lemma_set(t0: ProcTable, t1: ProcTable, pid: u64, n: u64, c: Cap)
    requires
        t0.wf(),
        t1.wf(),
        n < 16,
        cap::slot_set(&t0, &t1, pid, n as int, c),
    ensures
        only_slot(t0, t1, pid, n, c),
{
    proc::lemma_find_bounds(t0.slots@, pid);
    let i = proc::find(t0.slots@, pid)->0;
    assert(t0.slots@[i] is Some && t1.slots@[i] is Some);
    assert(t1.slots@[i]->0.caps.slots@[n as int] == c);
    assert(has(t1, pid, n, c));
    assert forall|p: u64, m: u64, e: Cap| !(p == pid && m == n) implies (#[trigger] has(
        t1,
        p,
        m,
        e,
    ) <==> has(t0, p, m, e)) by {
        if has(t1, p, m, e) {
            let j = choose|j: int|
                0 <= j < t1.slots@.len() && (#[trigger] t1.slots@[j]) is Some && t1.slots@[j]->0.id
                    == p && t1.slots@[j]->0.caps.slots@[m as int] == e;
            assert(t0.slots@[j] is Some && t0.slots@[j]->0.id == p);
            assert(t0.slots@[j]->0.caps.slots@[m as int] == e);
        }
        if has(t0, p, m, e) {
            let j = choose|j: int|
                0 <= j < t0.slots@.len() && (#[trigger] t0.slots@[j]) is Some && t0.slots@[j]->0.id
                    == p && t0.slots@[j]->0.caps.slots@[m as int] == e;
            assert(t1.slots@[j] is Some && t1.slots@[j]->0.id == p);
            assert(t1.slots@[j]->0.caps.slots@[m as int] == e);
        }
    }
    assert forall|p: u64, m: u64, e: Cap| !(p == pid && m == n) implies (has(t1, p, m, e)
        <==> #[trigger] has(t0, p, m, e)) by {
        assert(has(t1, p, m, e) <==> has(t0, p, m, e));
    }
}

/// The capability may be handed on with these rights: it may be copied (bit 2),
/// and it has each of them.
pub open spec fn passes(c: Cap, rights: u32) -> bool {
    !(c.obj is Empty) && c.rights & 4 != 0 && rights & !c.rights == 0
}

/// A copy is made just where the source may be handed on with these rights,
/// is not an owned frame, and the other slot is empty. The copy is of the same
/// object, with the rights asked for, and nothing else changes.
#[verifier::rlimit(40)]
pub proof fn law_copy_makes_a_copy(
    t0: ProcTable,
    t1: ProcTable,
    p: u64,
    n: usize,
    q: u64,
    m: usize,
    rights: u32,
    out: Result<(), &'static str>,
)
    requires
        t0.wf(),
        cap::copied(&t0, &t1, p, n, q, m, rights, out),
    ensures
        out is Ok <==> (exists|c: Cap| #[trigger]
            has(t0, p, n as u64, c) && passes(c, rights) && !(c.obj is Untyped)) && vacant(
            t0,
            q,
            m as u64,
        ),
        out is Ok ==> forall|c: Cap| #[trigger]
            has(t0, p, n as u64, c) ==> only_slot(
                t0,
                t1,
                q,
                m as u64,
                Cap { obj: c.obj, rights },
            ),
        out is Err ==> t1 == t0,
{
    lemma_has(t0, p, n as u64);
    lemma_has(t0, q, m as u64);
    if out is Ok {
        let c = cap::slot_answer(&t0, p, n as int)->Ok_0;
        lemma_set(t0, t1, q, m as u64, Cap { obj: c.obj, rights });
    }
}

/// A move makes the copy and empties the source, also of an owned frame.
#[verifier::rlimit(40)]
pub proof fn law_move_hands_over(
    t0: ProcTable,
    t1: ProcTable,
    p: u64,
    n: usize,
    q: u64,
    m: usize,
    rights: u32,
    out: Result<(), &'static str>,
)
    requires
        t0.wf(),
        cap::moved(&t0, &t1, p, n, q, m, rights, out),
    ensures
        out is Ok <==> (exists|c: Cap| #[trigger] has(t0, p, n as u64, c) && passes(c, rights))
            && vacant(t0, q, m as u64),
        out is Ok ==> forall|c: Cap| #[trigger]
            has(t0, p, n as u64, c) ==> {
                &&& has(t1, q, m as u64, Cap { obj: c.obj, rights })
                &&& vacant(t1, p, n as u64)
                &&& forall|x: u64, y: u64, e: Cap|
                    !(x == q && y == m) && !(x == p && y == n) ==> (#[trigger] has(t1, x, y, e)
                        <==> has(t0, x, y, e))
            },
        out is Err ==> t1 == t0,
{
    lemma_has(t0, p, n as u64);
    lemma_has(t0, q, m as u64);
    if out is Ok {
        let c = cap::slot_answer(&t0, p, n as int)->Ok_0;
        let d = Cap { obj: c.obj, rights };
        let mid = choose|mid: ProcTable|
            {
                &&& #[trigger] mid.wf()
                &&& cap::slot_set(&t0, &mid, q, m as int, d)
                &&& cap::slot_set(&mid, &t1, p, n as int, Cap::empty())
            };
        lemma_set(t0, mid, q, m as u64, d);
        lemma_set(mid, t1, p, n as u64, Cap::empty());
        assert(has(mid, q, m as u64, d));
        assert(has(t1, q, m as u64, d));
        assert forall|x: u64, y: u64, e: Cap|
            !(x == q && y == m) && !(x == p && y == n) implies (#[trigger] has(t1, x, y, e)
            <==> has(t0, x, y, e)) by {
            assert(has(mid, x, y, e) <==> has(t0, x, y, e));
        }
    }
}

/// What is granted goes to the first empty slot; it is refused just where the
/// process is not there, has no empty slot, or nothing is granted.
#[verifier::rlimit(40)]
pub proof fn law_grant_fills_the_first_slot(
    t0: ProcTable,
    t1: ProcTable,
    pid: u64,
    c: Cap,
    out: Result<usize, &'static str>,
)
    requires
        t0.wf(),
        cap::granted(&t0, &t1, pid, c, out),
    ensures
        out matches Ok(n) ==> {
            &&& vacant(t0, pid, n as u64)
            &&& forall|m: u64| m < n ==> !#[trigger] vacant(t0, pid, m)
            &&& only_slot(t0, t1, pid, n as u64, c)
        },
        out is Ok <==> !(c.obj is Empty) && exists|n: u64| #[trigger] vacant(t0, pid, n),
        out is Err ==> t1 == t0,
{
    assert forall|m: u64| #[trigger] vacant(t0, pid, m) == (cap::slot_answer(&t0, pid, m as int) matches Ok(e)
        && e.obj is Empty) by {
        lemma_has(t0, pid, m);
    }
    if out is Ok {
        lemma_has(t0, pid, out->Ok_0 as u64);
        lemma_set(t0, t1, pid, out->Ok_0 as u64, c);
    }
}

/// What is issued goes to the slot that is named, if that is empty.
#[verifier::rlimit(40)]
pub proof fn law_issue_fills_the_slot(
    t0: ProcTable,
    t1: ProcTable,
    pid: u64,
    n: usize,
    c: Cap,
    out: Result<(), &'static str>,
)
    requires
        t0.wf(),
        cap::issued(&t0, &t1, pid, n, c, out),
    ensures
        out is Ok <==> vacant(t0, pid, n as u64),
        out is Ok ==> only_slot(t0, t1, pid, n as u64, c),
        out is Err ==> t1 == t0,
{
    lemma_has(t0, pid, n as u64);
    if out is Ok {
        lemma_set(t0, t1, pid, n as u64, c);
    }
}

/// A capability can be destroyed by whom it lets (bit 3). Its slot is empty
/// then, and an owned frame is free again; no other slot and no other frame
/// changes.
#[verifier::rlimit(40)]
pub proof fn law_destroy_empties_the_slot(
    t0: ProcTable,
    t1: ProcTable,
    a: &FrameAllocator,
    b: &FrameAllocator,
    pid: u64,
    n: usize,
    c: Cap,
    out: Result<(), &'static str>,
)
    requires
        t0.wf(),
        a.wf(),
        a.ready,
        has(t0, pid, n as u64, c),
        cap::cap_destroyed(&t0, &t1, a, b, pid, n, out),
    ensures
        !(c.obj is Untyped) ==> (out is Ok <==> !(c.obj is Empty) && c.rights & 8 != 0),
        out is Ok ==> {
            &&& c.rights & 8 != 0
            &&& exists|e: Cap| #[trigger] only_slot(t0, t1, pid, n as u64, e) && e.obj is Empty
            &&& !(c.obj is Untyped) ==> *b == *a
            &&& c.obj matches CapObj::Untyped { phys } ==> pool::free(b, phys as int / 4096)
                && !pool::free(a, phys as int / 4096) && pool::same_beside(
                a,
                b,
                phys as int / 4096,
                1,
            )
        },
        out is Err ==> t1 == t0 && *b == *a,
{
    lemma_has(t0, pid, n as u64);
    if out is Ok {
        lemma_set(t0, t1, pid, n as u64, Cap::empty());
        if c.obj is Untyped {
            pool::law_frame_comes_back(a, b, c.obj->Untyped_phys, Ok(()));
        }
    }
}

/// The frames that a capability is for: from which address on how many.
pub open spec fn frames_of(o: CapObj) -> Option<(u64, int)> {
    match o {
        CapObj::Memory { phys, pages } => Some((phys, pages as int)),
        CapObj::Mmio { phys, pages } => Some((phys, pages as int)),
        CapObj::Untyped { phys } => Some((phys, 1)),
        _ => None,
    }
}

/// Memory that was mapped by a capability for it and one for a process is seen
/// by that process where it was asked for, all of it, as it was asked for; the
/// two capabilities allowed that. An owned frame is mapped once: its
/// capability is gone.
#[verifier::rlimit(40)]
pub proof fn law_mapped_memory_is_seen(
    k0: &Kernel,
    k1: &Kernel,
    pid: u64,
    n: usize,
    m: usize,
    va: u64,
    write: bool,
    run: bool,
    c: Cap,
    d: Cap,
    i: int,
    x: u64,
)
    requires
        k0.wf(),
        cap::memory_mapped(k0, k1, pid, n, m, va, write, run, Ok(())),
        has(k0.procs, pid, n as u64, c),
        has(k0.procs, pid, m as u64, d),
        0 <= i < k0.procs.slots@.len(),
        k0.procs.slots@[i] matches Some(p) && d.obj == (CapObj::Process { pid: p.id }),
        frames_of(c.obj) matches Some(f) && va <= x < va + f.1 * 4096 && f.0 + f.1 * 4096
            <= 0x10_0000_0000_0000,
    ensures
        frames_of(c.obj) matches Some(f) && memory::walk(
            k1.pg.mem.words@,
            k0.procs.slots@[i]->0.pml4_phys as int,
            x,
        ) == Some(Found { phys: f.0 + (x - va), user: true, write, runs: run }),
        va % 4096 == 0 && x < 0x8000_0000_0000,
        write ==> c.rights & 2 != 0,
        !write ==> c.rights & 1 != 0,
        d.rights & 2 != 0,
        !(write && run),
        run ==> c.obj is Memory,
        c.obj is Untyped ==> c.rights & 8 != 0 && exists|e: Cap| #[trigger]
            only_slot(k0.procs, k1.procs, pid, n as u64, e) && e.obj is Empty,
        !(c.obj is Untyped) ==> k1.procs == k0.procs,
{
    lemma_has(k0.procs, pid, n as u64);
    lemma_has(k0.procs, pid, m as u64);
    let who = k0.procs.slots@[i]->0.id;
    proc::lemma_find_bounds(k0.procs.slots@, who);
    let h = proc::find(k0.procs.slots@, who)->0;
    assert(k0.procs.slots@[h] is Some && k0.procs.slots@[i] is Some);
    assert(h == i);
    let g = cap::map_gates(&k0.procs, pid, n as int, m as int, va, write, run)->Ok_0;
    let f = frames_of(c.obj)->0;
    let root = g.root;
    let v = paging::page_no(x as int);
    assert(va as int / 4096 <= v < va as int / 4096 + f.1);
    let p = (f.0 + (v - va as int / 4096) * 4096) as u64;
    let view = views::view(k1.pg.mem.words@, root as int);
    assert(view.dom().contains(v));
    assert(view[v] == paging::user_entry(p, write, run));
    assert(p % 4096 == 0);
    assert(paging::is_root(k1.pg.mem.seats@, root as int));
    memory::law_entry_is_what_is_found(&k1.pg.mem, root, x);
    paging::lemma_user_entry(p);
    if c.obj is Untyped {
        lemma_set(k0.procs, k1.procs, pid, n as u64, Cap::empty());
    }
}

} // verus!

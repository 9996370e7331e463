//! System calls: what a caller's registers ask for, what the kernel's objects
//! are like afterwards, and what other callers see of it.

use vstd::prelude::*;
use crate::cap::{Cap, CapObj};
use crate::console::Console;
use crate::faults::Faults;
use crate::ipc;
use crate::ipc::{Ipc, Posted, SlotState};
use crate::proc;
use crate::proc::ProcTable;
use crate::status::Status;
use crate::syscall;
use crate::syscall::{Caller, Outcome, Syscalls};

verus! {

/// The objects that system calls work on.
pub struct World {
    pub s: Syscalls,
    pub ipc: Ipc,
    pub t: ProcTable,
    pub con: Console,
    pub f: Faults,
}

/// A system call, from the registers to what is left to do.
pub struct Call {
    pub c: Caller,
    pub owners: Seq<u64>,
    pub max_inherit: u64,
    pub rip: u64,
    pub nr: u64,
    pub a: Seq<u64>,
    pub o: Outcome,
}

/// The call leads from the one world to the other.
pub open spec fn leads(w: World, x: World, k: Call) -> bool {
    &&& k.a.len() == 6
    &&& w.t.wf()
    &&& w.ipc.wf()
    &&& syscall::dispatched(
        &w.s,
        &x.s,
        &w.ipc,
        &x.ipc,
        &w.t,
        &x.t,
        &w.con,
        &x.con,
        &w.f,
        &x.f,
        &k.c,
        k.owners,
        k.max_inherit,
        k.rip,
        k.nr,
        k.a,
        k.o,
    )
}

/// The process with number `pid` has the capability `c` in slot `n`.
pub open spec fn has(t: ProcTable, pid: u64, n: u64, c: Cap) -> bool {
    n < 16 && exists|i: int|
        0 <= i < t.slots@.len() && (#[trigger] t.slots@[i]) is Some && t.slots@[i]->0.id == pid
            && t.slots@[i]->0.caps.slots@[n as int] == c
}

/// The caller has a capability for `obj` in slot `n`, with all of `rights`.
pub open spec fn may(w: World, k: Call, n: u64, obj: CapObj, right: u32) -> bool {
    k.c.pid is Some && exists|c: Cap| #[trigger]
        has(w.t, k.c.pid->0, n, c) && c.obj == obj && c.rights & right != 0
}

/// Every byte of the range lies in a region of user memory that is open to the
/// caller.
pub open spec fn open_to(c: Caller, buf: int, len: int) -> bool {
    forall|a: int| #![trigger byte_open(c, a)] buf <= a < buf + len ==> byte_open(c, a)
}

pub open spec fn byte_open(c: Caller, a: int) -> bool {
    exists|i: int|
        0 <= i < c.regions@.len() && (#[trigger] c.regions@[i]).0 != 0 && c.regions@[i].0 <= a
            < c.regions@[i].1
}

/// What a slot holds, where it is read with a right.
pub proof fn lemma_has(t: ProcTable, pid: u64, n: u64, right: u32)
    requires
        t.wf(),
    ensures
        syscall::cap_with(&t, pid, n, right) matches Some(c) ==> has(t, pid, n, c) && c.rights
            & right != 0 && !(c.obj is Empty),
        forall|c: Cap| #[trigger]
            has(t, pid, n, c) && c.rights & right != 0 && !(c.obj is Empty)
                ==> syscall::cap_with(&t, pid, n, right) == Some(c),
{
    proc::lemma_find_bounds(t.slots@, pid);
    if let Some(i) = proc::find(t.slots@, pid) {
        assert(t.slots@[i] is Some);
        assert forall|c: Cap| #[trigger]
            has(t, pid, n, c) && c.rights & right != 0 && !(c.obj is Empty) implies syscall::cap_with(
            &t,
            pid,
            n,
            right,
        ) == Some(c) by {
            let j = choose|j: int|
                0 <= j < t.slots@.len() && (#[trigger] t.slots@[j]) is Some && t.slots@[j]->0.id
                    == pid && t.slots@[j]->0.caps.slots@[n as int] == c;
            assert(t.slots@[j] is Some);
            assert(i == j);
        }
    }
}

proof fn lemma_open(c: Caller, buf: int, len: int)
    requires
        0 <= buf <= u64::MAX,
        0 <= len <= u64::MAX,
        syscall::range_open(c.regions@, buf, len),
    ensures
        open_to(c, buf, len),
{
    assert forall|a: int| #![trigger byte_open(c, a)] buf <= a < buf + len implies byte_open(
        c,
        a,
    ) by {
        syscall::law_user_range(c.regions@, buf as u64, len as u64, a);
    }
}

/// Nothing happens without the capability for it. A call, a receive, a reply,
/// a signal, a wait, a spawn or a shutdown that is accepted came under its own
/// number from a process that has, in the slot it named, a capability for the
/// very object, with the right to write (bit 1) for a call, a signal and a
/// shutdown, and to read (bit 0) for the others.
#[verifier::rlimit(40)]
pub proof fn law_capabilities_decide(w: World, x: World, k: Call)
    requires
        leads(w, x, k),
    ensures
        k.o matches Outcome::Call { eid, .. } ==> k.nr == 7 && may(
            w,
            k,
            k.a[0],
            CapObj::Endpoint { eid },
            2,
        ),
        k.o matches Outcome::Receive { eid, .. } ==> k.nr == 8 && may(
            w,
            k,
            k.a[0],
            CapObj::Endpoint { eid },
            1,
        ),
        k.o is Replied ==> k.nr == 9 && exists|eid: u32|
            #[trigger] may(w, k, k.a[0], CapObj::Endpoint { eid }, 1),
        k.o is Notified ==> k.nr == 10 && exists|nid: u32|
            #[trigger] may(w, k, k.a[0], CapObj::Notification { nid }, 2),
        k.o matches Outcome::Wait { nid, .. } ==> k.nr == 11 && may(
            w,
            k,
            k.a[0],
            CapObj::Notification { nid },
            1,
        ),
        k.o matches Outcome::Spawn { request } ==> k.nr == 12 && may(
            w,
            k,
            k.a[0],
            CapObj::Image { img_id: request.img_id },
            1,
        ),
        k.o is Shutdown <==> k.nr == 15 && may(w, k, k.a[0], CapObj::Power, 2),
{
    if let Some(pid) = k.c.pid {
        lemma_has(w.t, pid, k.a[0], 1);
        lemma_has(w.t, pid, k.a[0], 2);
    }
    if k.o is Replied {
        let eid = syscall::endpoint_answer(&w.t, k.c.pid->0, k.a[0], 1)->Ok_0;
        assert(may(w, k, k.a[0], CapObj::Endpoint { eid }, 1));
    }
    if k.o is Notified {
        let nid = syscall::notification_answer(&w.t, k.c.pid->0, k.a[0], 2)->Ok_0;
        assert(may(w, k, k.a[0], CapObj::Notification { nid }, 2));
    }
}

/// User memory that a call is to read or write lies in what is open to the
/// caller: the bytes of a debug write, the 24 bytes of a message, the line, 16
/// bytes for each process that is listed and for each capability that a child
/// inherits. It is where the caller said.
#[verifier::rlimit(40)]
pub proof fn law_user_memory_is_the_callers(w: World, x: World, k: Call)
    requires
        leads(w, x, k),
        k.max_inherit <= 16,
    ensures
        k.o matches Outcome::Write { buf, len } ==> k.nr == 1 && buf == k.a[0] && len == k.a[1]
            && 1 <= len <= 256 && buf != 0 && open_to(k.c, buf as int, len as int),
        k.o matches Outcome::Call { buf, .. } ==> buf == k.a[4] && open_to(k.c, buf as int, 24),
        k.o matches Outcome::Receive { buf, .. } ==> buf == k.a[1] && open_to(k.c, buf as int, 24),
        k.o matches Outcome::Line { buf, max, line } ==> k.nr == 13 && buf == k.a[0] && max
            == k.a[1] && open_to(k.c, buf as int, max as int) && (line matches Some(l)
            ==> l@.len() <= max),
        k.o matches Outcome::List { buf, pairs } ==> k.nr == 14 && buf == k.a[0] && pairs@.len()
            <= k.a[1] && open_to(k.c, buf as int, 16 * k.a[1]),
        k.o matches Outcome::Spawn { request } ==> request.list == k.a[1] && request.count
            == k.a[2] && request.count <= k.max_inherit && (request.count > 0 ==> open_to(
            k.c,
            request.list as int,
            16 * request.count,
        )),
{
    if k.o is Write {
        lemma_open(k.c, k.a[0] as int, k.a[1] as int);
    }
    if k.o is Call {
        lemma_open(k.c, k.a[4] as int, 24);
    }
    if k.o is Receive {
        lemma_open(k.c, k.a[1] as int, 24);
    }
    if k.o is Line {
        lemma_open(k.c, k.a[0] as int, k.a[1] as int);
    }
    if k.o is List {
        lemma_open(k.c, k.a[0] as int, 16 * k.a[1]);
    }
    if k.o is Spawn && k.a[2] > 0 {
        lemma_open(k.c, k.a[1] as int, 16 * k.a[2]);
    }
}

/// The capability that a caller puts into a message: none for all ones, else
/// one from its own slot that may be copied (bit 2) and is not an owned frame.
pub open spec fn enclosed(w: World, k: Call, n: u64, c: Option<Cap>) -> bool {
    if n == 0xFFFF_FFFF_FFFF_FFFF {
        c is None
    } else {
        c is Some && has(w.t, k.c.pid->0, n, c->0) && c->0.rights & 4 != 0 && !(c->0.obj is Untyped)
            && !(c->0.obj is Empty)
    }
}

/// The capability arrived with process `pid`: it has it, as it was sent, in the
/// slot that it is told of. It is told of none just where none was sent or it
/// has no slot free, and then nothing changed.
pub open spec fn arrived(t0: ProcTable, t1: ProcTable, pid: u64, c: Option<Cap>, slot: u64) -> bool {
    if slot != 0xFFFF_FFFF_FFFF_FFFF {
        c is Some && has(t1, pid, slot, c->0)
    } else {
        t1 == t0 && (c is Some ==> forall|n: u64, e: Cap| #[trigger]
            has(t0, pid, n, e) ==> !(e.obj is Empty))
    }
}

pub proof fn lemma_enclosed(w: World, k: Call, n: u64)
    requires
        w.t.wf(),
        k.c.pid is Some,
    ensures
        syscall::send_cap_answer(&w.t, k.c.pid->0, n) matches Ok(c) ==> enclosed(w, k, n, c),
{
    lemma_has(w.t, k.c.pid->0, n, 4);
}

pub proof fn lemma_arrived(
    s0: ipc::IpcStats,
    s1: ipc::IpcStats,
    t0: ProcTable,
    t1: ProcTable,
    pid: u64,
    c: Option<Cap>,
    slot: u64,
)
    requires
        t0.wf(),
        c is Some ==> !(c->0.obj is Empty),
        ipc::handed(s0, s1, &t0, &t1, pid, ipc::or_empty(c), slot),
    ensures
        arrived(t0, t1, pid, c, slot),
{
    proc::lemma_find_bounds(t0.slots@, pid);
    if slot != 0xFFFF_FFFF_FFFF_FFFF {
        let i = proc::find(t0.slots@, pid)->0;
        assert(crate::cap::slot_set(&t0, &t1, pid, slot as int, c->0));
        assert(t1.slots@[i] is Some && t1.slots@[i]->0.id == pid);
        assert(has(t1, pid, slot, c->0));
    } else if c is Some {
        assert forall|n: u64, e: Cap| #[trigger] has(t0, pid, n, e) implies !(e.obj is Empty) by {
            if e.obj is Empty {
                let j = choose|j: int|
                    0 <= j < t0.slots@.len() && (#[trigger] t0.slots@[j]) is Some
                        && t0.slots@[j]->0.id == pid && t0.slots@[j]->0.caps.slots@[n as int] == e;
                let i = proc::find(t0.slots@, pid)->0;
                assert(t0.slots@[j] is Some && t0.slots@[i] is Some);
                assert(i == j);
                let held = t0.slots@[i]->0.caps.slots@;
                assert(held.len() == 16);
                let k = lemma_some_first(held, n as int);
                assert(crate::cap::first_empty(held, k));
                assert(crate::cap::slots_of(&t0, pid) == Some(held));
                assert(exists|k: int| crate::cap::first_empty(held, k));
                assert(ipc::landing(&t0, pid, c->0, slot));
                assert(crate::cap::slots_of(&t0, pid) matches Some(s) && exists|k: int|
                    crate::cap::first_empty(s, k));
                assert(crate::cap::first_empty(held, slot as int));
            }
        }
    }
}

/// Where a slot is empty, there is a first that is.
proof fn lemma_some_first(s: Seq<Cap>, n: int) -> (k: int)
    requires
        0 <= n < s.len(),
        s[n].obj is Empty,
    ensures
        crate::cap::first_empty(s, k),
    decreases n,
{
    if forall|j: int| 0 <= j < n ==> !((#[trigger] s[j]).obj is Empty) {
        n
    } else {
        let j = choose|j: int| 0 <= j < n && (#[trigger] s[j]).obj is Empty;
        lemma_some_first(s, j)
    }
}

/// What a client calls with, a server receives: first the word in register 1,
/// then the one in register 2, and the capability in the slot that register 3
/// names. The server that takes the request is the one that owes the reply.
#[verifier::rlimit(40)]
pub proof fn law_call_is_received(w: World, x: World, k: Call, y: World, z: World, l: Call)
    requires
        leads(w, x, k),
        k.o is Call,
        leads(y, z, l),
        l.o matches Outcome::Receive { eid, got, .. } && eid == k.o->Call_eid && got is Some,
        y.ipc.eps@[k.o->Call_eid as int].q@[k.o->Call_posted.slot as int]
            == x.ipc.eps@[k.o->Call_eid as int].q@[k.o->Call_posted.slot as int],
        z.ipc.eps@[k.o->Call_eid as int].q@[k.o->Call_posted.slot as int].state
            == SlotState::Delivered,
    ensures
        l.o matches Outcome::Receive { got: Some(g), .. } && {
            let slot = z.ipc.eps@[k.o->Call_eid as int].q@[k.o->Call_posted.slot as int];
            &&& g.0@[0] == k.a[1]
            &&& g.0@[1] == k.a[2]
            &&& slot.caller == k.c.tid
            &&& slot.server == l.c.tid
            &&& exists|c: Option<Cap>| #[trigger]
                enclosed(w, k, k.a[3], c) && arrived(y.t, z.t, l.c.pid->0, c, g.1)
        },
{
    let eid = k.o->Call_eid;
    let i = k.o->Call_posted.slot as int;
    let r = choose|r: Result<(u32, Posted), Status>|
        #[trigger] syscall::call_made(
            &w.ipc,
            &x.ipc,
            &w.t,
            &k.c,
            k.a[0],
            k.a[1],
            k.a[2],
            k.a[3],
            k.a[4],
            r,
        ) && k.o == syscall::after_call(r, k.a[4]);
    let send = syscall::send_cap_answer(&w.t, k.c.pid->0, k.a[3])->Ok_0;
    lemma_enclosed(w, k, k.a[3]);
    assert(enclosed(w, k, k.a[3], send));
    let m = choose|m: Result<(u32, Option<([u64; 2], u64)>), Status>|
        #[trigger] syscall::recv_made(&y.ipc, &z.ipc, &y.t, &z.t, &l.c, l.a[0], l.a[1], m) && l.o
            == syscall::after_recv(m, l.a[1]);
    let q = y.ipc.eps@[eid as int].q@;
    assert(q[i].state == SlotState::Waiting);
    let j = ipc::oldest(q)->0;
    assert(j == i);
    assert(q[i].send_cap == ipc::or_empty(send));
    let g = m->Ok_0.1->0;
    let counted = ipc::IpcStats { recvs: (y.ipc.stats.recvs + 1) as u64, ..y.ipc.stats };
    assert(ipc::handed(counted, z.ipc.stats, &y.t, &z.t, l.c.pid->0, ipc::or_empty(send), g.1));
    lemma_arrived(counted, z.ipc.stats, y.t, z.t, l.c.pid->0, send, g.1);
}

/// What a server replies with, the client gets back: the words in registers 1
/// and 2, in that order, and the capability in the slot that register 3 names.
/// The reply goes to the client whose request the server holds.
#[verifier::rlimit(40)]
pub proof fn law_reply_is_returned(
    w: World,
    x: World,
    k: Call,
    eid: u32,
    i: usize,
    y: Ipc,
    z: Ipc,
    t0: ProcTable,
    t1: ProcTable,
    pid: u64,
    r: Result<([u64; 2], u64), &'static str>,
)
    requires
        leads(w, x, k),
        k.o is Replied,
        may(w, k, k.a[0], CapObj::Endpoint { eid }, 1),
        i < 4,
        w.ipc.eps@[eid as int].q@[i as int].state == SlotState::Delivered,
        w.ipc.eps@[eid as int].q@[i as int].server == k.c.tid,
        forall|j: int|
            0 <= j < 4 && j != i && (#[trigger] w.ipc.eps@[eid as int].q@[j]).state
                == SlotState::Delivered ==> w.ipc.eps@[eid as int].q@[j].server != k.c.tid,
        y.eps@[eid as int].q@[i as int] == x.ipc.eps@[eid as int].q@[i as int],
        t0.wf(),
        ipc::call_finished(&y, &z, &t0, &t1, pid, eid, i, r),
    ensures
        k.o == (Outcome::Replied { caller: w.ipc.eps@[eid as int].q@[i as int].caller }),
        r matches Ok(g) && {
            &&& g.0@[0] == k.a[1]
            &&& g.0@[1] == k.a[2]
            &&& exists|c: Option<Cap>| #[trigger]
                enclosed(w, k, k.a[3], c) && arrived(t0, t1, pid, c, g.1)
        },
        z.eps@[eid as int].q@[i as int].state == SlotState::Empty,
{
    lemma_has(w.t, k.c.pid->0, k.a[0], 1);
    lemma_enclosed(w, k, k.a[3]);
    let send = syscall::send_cap_answer(&w.t, k.c.pid->0, k.a[3])->Ok_0;
    assert(enclosed(w, k, k.a[3], send));
    let q = w.ipc.eps@[eid as int].q@;
    lemma_first_for(q, k.c.tid, 0, i as int);
    let g = r->Ok_0;
    lemma_arrived(y.stats, z.stats, t0, t1, pid, send, g.1);
}

/// The only request that is with a server is the first.
pub proof fn lemma_first_for(q: Seq<ipc::CallSlot>, tid: u64, n: int, i: int)
    requires
        q.len() == 4,
        0 <= n <= i < 4,
        q[i].state == SlotState::Delivered && q[i].server == tid,
        forall|j: int|
            n <= j < i ==> !((#[trigger] q[j]).state == SlotState::Delivered && q[j].server == tid),
    ensures
        ipc::first_for(q, tid, n) == Some(i),
    decreases i - n,
{
    if n < i {
        lemma_first_for(q, tid, n + 1, i);
    }
}

/// What a spawn that is accepted asks for: where the caller named a slot for
/// the child's end, the notification that the capability there is for, which
/// the caller may signal, with the badge in register 4, which is not zero;
/// where it named none, nothing.
#[verifier::rlimit(40)]
pub proof fn law_spawn_asks_for_the_end(w: World, x: World, k: Call)
    requires
        leads(w, x, k),
        k.o is Spawn,
    ensures
        k.o matches Outcome::Spawn { request } && if k.a[3] == 0xFFFF_FFFF_FFFF_FFFF {
            request.notif is None && k.a[4] == 0
        } else {
            &&& request.notif matches Some(n) && may(
                w,
                k,
                k.a[3],
                CapObj::Notification { nid: n.0 },
                2,
            ) && n.1 == k.a[4]
            &&& k.a[4] != 0
        },
        x.t == w.t,
        x.ipc == w.ipc,
{
    lemma_has(w.t, k.c.pid->0, k.a[3], 2);
}

/// The thread at `j` is the only one of process `pid`.
pub open spec fn last_of(owners: Seq<u64>, pid: u64, j: int) -> bool {
    &&& 0 <= j < owners.len()
    &&& owners[j] == pid
    &&& forall|i: int| 0 <= i < owners.len() && i != j ==> #[trigger] owners[i] != pid
}

pub proof fn lemma_count(owners: Seq<u64>, pid: u64)
    ensures
        forall|j: int| #[trigger] last_of(owners, pid, j) ==> proc::count_of(owners, pid) == 1,
        forall|i: int, j: int|
            0 <= i < j < owners.len() && #[trigger] owners[i] == pid && #[trigger] owners[j] == pid
                ==> proc::count_of(owners, pid) > 1,
        (forall|i: int| 0 <= i < owners.len() ==> #[trigger] owners[i] != pid) ==> proc::count_of(
            owners,
            pid,
        ) == 0,
        (exists|i: int| 0 <= i < owners.len() && #[trigger] owners[i] == pid) ==> proc::count_of(
            owners,
            pid,
        ) >= 1,
        proc::count_of(owners, pid) <= owners.len(),
    decreases owners.len(),
{
    if owners.len() > 0 {
        let front = owners.drop_last();
        let n = owners.len() - 1;
        lemma_count(front, pid);
        assert(forall|i: int| 0 <= i < n ==> #[trigger] owners[i] == front[i]);
        assert forall|j: int| #[trigger] last_of(owners, pid, j) implies proc::count_of(owners, pid)
            == 1 by {
            if j == n {
                assert forall|i: int| 0 <= i < front.len() implies #[trigger] front[i] != pid by {
                    assert(owners[i] == front[i]);
                }
            } else {
                assert(front[j] == owners[j]);
                assert forall|i: int| 0 <= i < front.len() && i != j implies #[trigger] front[i]
                    != pid by {
                    assert(owners[i] == front[i]);
                }
                assert(last_of(front, pid, j));
            }
        }
        assert forall|i: int, j: int|
            0 <= i < j < owners.len() && #[trigger] owners[i] == pid && #[trigger] owners[j]
                == pid implies proc::count_of(owners, pid) > 1 by {
            assert(front[i] == pid);
            if j < n {
                assert(front[j] == pid);
            }
        }
        if forall|i: int| 0 <= i < owners.len() ==> #[trigger] owners[i] != pid {
            assert forall|i: int| 0 <= i < front.len() implies #[trigger] front[i] != pid by {
                assert(owners[i] == front[i]);
            }
        }
        if exists|i: int| 0 <= i < owners.len() && #[trigger] owners[i] == pid {
            let i = choose|i: int| 0 <= i < owners.len() && #[trigger] owners[i] == pid;
            if i < n {
                assert(front[i] == pid);
            }
        }
    }
}

/// When the last thread of a process ends, the notification that was set for
/// its end has the badge pending, and whoever sleeps for it is woken. While the
/// process has other threads, nobody is told.
#[verifier::rlimit(40)]
pub proof fn law_end_is_announced(
    t0: ProcTable,
    t1: ProcTable,
    pid: u64,
    nid: u32,
    badge: u64,
    w: World,
    x: World,
    k: Call,
    j: int,
)
    requires
        t0.wf(),
        proc::exit_notif_set(&t0, &t1, pid, nid, badge, Ok(())),
        leads(w, x, k),
        k.nr == 2,
        k.c.pid == Some(pid),
        forall|i: int|
            0 <= i < t1.slots@.len() && (#[trigger] t1.slots@[i]) is Some && t1.slots@[i]->0.id
                == pid ==> w.t.slots@[i] is Some && w.t.slots@[i]->0.id == pid
                && w.t.slots@[i]->0.exit_notif == t1.slots@[i]->0.exit_notif,
        badge != 0,
        nid < w.ipc.notifs@.len(),
        w.ipc.notifs@[nid as int].live,
        0 <= j < k.owners.len(),
        k.owners[j] == pid,
        k.owners.len() <= 64,
    ensures
        k.o is Exit,
        last_of(k.owners, pid, j) ==> {
            &&& x.ipc.notifs@[nid as int].pending == w.ipc.notifs@[nid as int].pending | badge
            &&& w.ipc.notifs@[nid as int].waiter != 0xFFFF_FFFF_FFFF_FFFF ==> k.o == (
            Outcome::Exit { wake: Some(w.ipc.notifs@[nid as int].waiter) })
        },
        !last_of(k.owners, pid, j) ==> x.ipc == w.ipc && k.o == (Outcome::Exit { wake: None }),
        w.s.exits@.len() < 16 ==> x.s.exits@ == w.s.exits@.push((k.c.tid, k.a[0])),
        w.s.exits@.len() >= 16 ==> x.s.exits@ == w.s.exits@,
{
    lemma_count(k.owners, pid);
    proc::lemma_find_bounds(t0.slots@, pid);
    proc::lemma_find_bounds(w.t.slots@, pid);
    let i = proc::find(t0.slots@, pid)->0;
    assert(t1.slots@[i] is Some && t1.slots@[i]->0.id == pid);
    let h = proc::find(w.t.slots@, pid)->0;
    assert(w.t.slots@[h] is Some && w.t.slots@[i] is Some);
    assert(h == i);
    if !last_of(k.owners, pid, j) {
        let b = choose|b: int| 0 <= b < k.owners.len() && b != j && #[trigger] k.owners[b] == pid;
        if b < j {
            assert(k.owners[b] == pid && k.owners[j] == pid);
        }
    }
}

/// A signal adds its badge to those that are pending and wakes whoever sleeps
/// for them; nothing else changes. It is accepted from every process that may
/// give it, to every notification in use, with every badge but zero.
#[verifier::rlimit(40)]
pub proof fn law_signal_adds_its_badge(w: World, x: World, k: Call, nid: u32)
    requires
        leads(w, x, k),
        k.nr == 10,
        may(w, k, k.a[0], CapObj::Notification { nid }, 2),
        nid < w.ipc.notifs@.len(),
        w.ipc.notifs@[nid as int].live,
        k.a[1] != 0,
    ensures
        ({
            let n = w.ipc.notifs@[nid as int];
            &&& k.o == (Outcome::Notified {
                wake: if n.waiter == 0xFFFF_FFFF_FFFF_FFFF {
                    None
                } else {
                    Some(n.waiter)
                },
            })
            &&& x.ipc.notifs@[nid as int].pending == n.pending | k.a[1]
            &&& x.ipc.notifs@[nid as int].waiter == 0xFFFF_FFFF_FFFF_FFFF
            &&& x.ipc.notifs@[nid as int].live
            &&& x.ipc.notifs@.len() == w.ipc.notifs@.len()
            &&& forall|i: int|
                0 <= i < w.ipc.notifs@.len() && i != nid ==> #[trigger] x.ipc.notifs@[i]
                    == w.ipc.notifs@[i]
            &&& x.ipc.eps == w.ipc.eps
            &&& x.t == w.t
        }),
{
    lemma_has(w.t, k.c.pid->0, k.a[0], 2);
}

/// A wait takes all badges that are pending, at once; with none, the caller is
/// the one to wake. It is accepted from every process that may wait, unless
/// somebody sleeps there already.
#[verifier::rlimit(40)]
pub proof fn law_wait_takes_the_badges(w: World, x: World, k: Call, nid: u32)
    requires
        leads(w, x, k),
        k.nr == 11,
        may(w, k, k.a[0], CapObj::Notification { nid }, 1),
        nid < w.ipc.notifs@.len(),
        w.ipc.notifs@[nid as int].live,
    ensures
        ({
            let n = w.ipc.notifs@[nid as int];
            let m = x.ipc.notifs@[nid as int];
            if n.pending != 0 {
                &&& k.o matches Outcome::Wait { nid: d, status: Some(s) } && d == nid && s > 0 && (
                n.pending < 0x8000_0000_0000_0000 ==> s == n.pending)
                &&& m.pending == 0
                &&& m.waiter == n.waiter
            } else if n.waiter == 0xFFFF_FFFF_FFFF_FFFF {
                &&& k.o == (Outcome::Wait { nid, status: None })
                &&& m.pending == 0
                &&& m.waiter == k.c.tid
            } else {
                &&& k.o is Return
                &&& m == n
            }
        }),
        forall|i: int|
            0 <= i < w.ipc.notifs@.len() && i != nid ==> #[trigger] x.ipc.notifs@[i]
                == w.ipc.notifs@[i],
        x.ipc.eps == w.ipc.eps,
        x.t == w.t,
{
    lemma_has(w.t, k.c.pid->0, k.a[0], 1);
}

} // verus!

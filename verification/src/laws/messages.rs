//! What endpoints and notifications do with what they are given.

use crate::ipc;
use crate::ipc::{CallSlot, Ipc, Posted, SlotState};
use crate::cap::CapObj;
use crate::laws::calls;
use crate::laws::calls::{leads, may, Call, World};
use crate::proc::ProcTable;
use crate::status::Status;
use crate::syscall;
use crate::syscall::{Caller, Outcome};
use vstd::prelude::*;

verus! {

/// One region that is open to the caller has all of the range, and the rest of
/// its last page.
pub open spec fn roomy(c: Caller, buf: int, len: int) -> bool {
    &&& buf + len <= u64::MAX
    &&& exists|i: int|
        0 <= i < c.regions@.len() && (#[trigger] c.regions@[i]).0 != 0 && c.regions@[i].0 <= buf
            - buf % 4096 && buf + len + 4096 <= c.regions@[i].1
}

pub proof fn lemma_roomy(c: Caller, buf: u64, len: u64)
    requires
        roomy(c, buf as int, len as int),
    ensures
        syscall::range_open(c.regions@, buf as int, len as int),
{
    let i = choose|i: int|
        0 <= i < c.regions@.len() && (#[trigger] c.regions@[i]).0 != 0 && c.regions@[i].0 <= buf
            - buf % 4096 && buf + len + 4096 <= c.regions@[i].1;
    assert forall|p: int|
        buf as int / 4096 <= p && p * 4096 < buf + len implies #[trigger] syscall::page_open(
        c.regions@,
        p * 4096,
    ) by {
        assert(c.regions@[i].0 <= p * 4096 && p * 4096 + 4096 <= c.regions@[i].1);
    }
}

/// The endpoint is in use.
pub open spec fn in_use(w: World, eid: u32) -> bool {
    eid < 8 && w.ipc.eps@[eid as int].live
}

/// One of the endpoint's places for requests is empty.
pub open spec fn has_room(w: World, eid: u32) -> bool {
    exists|j: int| 0 <= j < 4 && (#[trigger] w.ipc.eps@[eid as int].q@[j]).state == SlotState::Empty
}

proof fn lemma_first_in(q: Seq<CallSlot>, st: SlotState, i: int)
    requires
        0 <= i,
    ensures
        match ipc::first_in(q, st, i) {
            Some(k) => i <= k < q.len() && q[k].state == st,
            None => forall|j: int| i <= j < q.len() ==> (#[trigger] q[j]).state != st,
        },
    decreases q.len() - i,
{
    if i < q.len() {
        lemma_first_in(q, st, i + 1);
    }
}

/// A call is accepted from every process that may write to the endpoint, while
/// that has room and the caller has memory for the reply. The request takes an
/// empty place, with the words and the caller; no other request changes, and a
/// server that sleeps there is the one to wake.
#[verifier::rlimit(40)]
pub proof fn law_call_is_posted(w: World, x: World, k: Call, eid: u32)
    requires
        leads(w, x, k),
        k.nr == 7,
        may(w, k, k.a[0], CapObj::Endpoint { eid }, 2),
        in_use(w, eid),
        k.a[3] == 0xFFFF_FFFF_FFFF_FFFF,
        roomy(k.c, k.a[4] as int, 24),
    ensures
        has_room(w, eid) <==> k.o is Call,
        k.o matches Outcome::Call { eid: e, posted, buf } ==> {
            let q0 = w.ipc.eps@[eid as int].q@;
            let q1 = x.ipc.eps@[eid as int].q@;
            let server = w.ipc.eps@[eid as int].server;
            &&& e == eid && buf == k.a[4] && posted.slot < 4
            &&& q0[posted.slot as int].state == SlotState::Empty
            &&& q1[posted.slot as int].state == SlotState::Waiting
            &&& q1[posted.slot as int].words@[0] == k.a[1]
            &&& q1[posted.slot as int].words@[1] == k.a[2]
            &&& q1[posted.slot as int].caller == k.c.tid
            &&& forall|j: int| 0 <= j < 4 && j != posted.slot ==> #[trigger] q1[j] == q0[j]
            &&& posted.parked == (if server == 0xFFFF_FFFF_FFFF_FFFF {
                None
            } else {
                Some(server)
            })
        },
        k.o is Return ==> x.ipc.eps == w.ipc.eps && x.t == w.t,
{
    calls::lemma_has(w.t, k.c.pid->0, k.a[0], 2);
    lemma_roomy(k.c, k.a[4], 24);
    lemma_first_in(w.ipc.eps@[eid as int].q@, SlotState::Empty, 0);
}

/// A server that sleeps at the endpoint is handed the call that wakes it: the
/// same two words, in order.
#[verifier::rlimit(40)]
pub proof fn law_sleeping_server_is_handed_the_call(
    w: World,
    x: World,
    k: Call,
    i1: Ipc,
    t1: ProcTable,
    server: u64,
    pid: u64,
    r: Result<([u64; 2], u64), &'static str>,
)
    requires
        leads(w, x, k),
        k.o is Call,
        k.o->Call_posted.parked == Some(server),
        pid != 0,
        ipc::call_delivered(
            &x.ipc,
            &i1,
            &x.t,
            &t1,
            k.o->Call_eid,
            k.o->Call_posted,
            Some(pid),
            Ok(()),
        ),
        ipc::recv_finished(&i1, server, k.o->Call_eid, r),
        forall|j: int|
            0 <= j < 4 && (#[trigger] x.ipc.eps@[k.o->Call_eid as int].q@[j]).state
                == SlotState::Delivered ==> x.ipc.eps@[k.o->Call_eid as int].q@[j].server != server,
    ensures
        r matches Ok(g) && {
            &&& g.0@[0] == k.a[1]
            &&& g.0@[1] == k.a[2]
            &&& exists|c: Option<crate::cap::Cap>| #[trigger]
                calls::enclosed(w, k, k.a[3], c) && calls::arrived(x.t, t1, pid, c, g.1)
        },
{
    let eid = k.o->Call_eid;
    let i = k.o->Call_posted.slot as int;
    let m = choose|m: Result<(u32, Posted), Status>|
        #[trigger] syscall::call_made(
            &w.ipc,
            &x.ipc,
            &w.t,
            &k.c,
            k.a[0],
            k.a[1],
            k.a[2],
            k.a[3],
            k.a[4],
            m,
        ) && k.o == syscall::after_call(m, k.a[4]);
    let send = syscall::send_cap_answer(&w.t, k.c.pid->0, k.a[3])->Ok_0;
    calls::lemma_enclosed(w, k, k.a[3]);
    assert(calls::enclosed(w, k, k.a[3], send));
    let q = i1.eps@[eid as int].q@;
    calls::lemma_first_for(q, server, 0, i);
    let landed = q[i].landed_cap;
    let counted = ipc::IpcStats { blocks: (x.ipc.stats.blocks + 1) as u64, ..x.ipc.stats };
    calls::lemma_arrived(counted, i1.stats, x.t, t1, pid, send, landed);
}

/// A receive takes a request where one waits, and otherwise the caller is the
/// one to wake, unless a server sleeps there already.
#[verifier::rlimit(40)]
pub proof fn law_receive_takes_or_sleeps(w: World, x: World, k: Call, eid: u32)
    requires
        leads(w, x, k),
        k.nr == 8,
        may(w, k, k.a[0], CapObj::Endpoint { eid }, 1),
        in_use(w, eid),
        roomy(k.c, k.a[1] as int, 24),
    ensures
        ({
            let e = w.ipc.eps@[eid as int];
            let f = x.ipc.eps@[eid as int];
            if exists|j: int| 0 <= j < 4 && (#[trigger] e.q@[j]).state == SlotState::Waiting {
                k.o matches Outcome::Receive { eid: d, buf, got: Some(_) } && d == eid && buf
                    == k.a[1]
            } else if e.server == 0xFFFF_FFFF_FFFF_FFFF {
                &&& k.o == (Outcome::Receive { eid, buf: k.a[1], got: None })
                &&& f.server == k.c.tid
                &&& f.q@ == e.q@
            } else {
                k.o is Return && f == e
            }
        }),
{
    calls::lemma_has(w.t, k.c.pid->0, k.a[0], 1);
    lemma_roomy(k.c, k.a[1], 24);
    ipc::lemma_oldest_in(w.ipc.eps@[eid as int].q@, 4);
}

/// An endpoint that is made was not in use, is now, and has neither requests
/// nor a server.
#[verifier::rlimit(40)]
pub proof fn law_endpoint_begins_idle(i0: Ipc, i1: Ipc, r: Result<u32, &'static str>)
    requires
        i0.wf(),
        ipc::endpoint_created(&i0, &i1, r),
    ensures
        r matches Ok(e) ==> {
            &&& e < 8
            &&& !i0.eps@[e as int].live
            &&& i1.eps@[e as int].live
            &&& i1.eps@[e as int].server == 0xFFFF_FFFF_FFFF_FFFF
            &&& forall|j: int|
                0 <= j < 4 ==> (#[trigger] i1.eps@[e as int].q@[j]).state == SlotState::Empty
            &&& forall|j: int| 0 <= j < 8 && j != e ==> #[trigger] i1.eps@[j] == i0.eps@[j]
        },
        r is Err ==> i1 == i0,
        r is Err <==> forall|j: int| 0 <= j < 8 ==> (#[trigger] i0.eps@[j]).live,
        i1.notifs == i0.notifs,
{
}

/// An endpoint is given up just where it is in use, no server sleeps there and
/// it has no request.
#[verifier::rlimit(40)]
pub proof fn law_endpoint_ends_idle(i0: Ipc, i1: Ipc, eid: u32, r: Result<(), &'static str>)
    requires
        i0.wf(),
        ipc::endpoint_destroyed(&i0, &i1, eid, r),
    ensures
        r is Ok <==> eid < 8 && i0.eps@[eid as int].live && i0.eps@[eid as int].server
            == 0xFFFF_FFFF_FFFF_FFFF && forall|j: int|
            0 <= j < 4 ==> (#[trigger] i0.eps@[eid as int].q@[j]).state == SlotState::Empty,
        r is Ok ==> !i1.eps@[eid as int].live && forall|j: int|
            0 <= j < 8 && j != eid ==> #[trigger] i1.eps@[j] == i0.eps@[j],
        r is Err ==> i1 == i0,
        i1.notifs == i0.notifs,
{
}

/// A notification that is made was not in use, is now, has nothing pending, and
/// nobody sleeps for it.
#[verifier::rlimit(40)]
pub proof fn law_notification_begins_idle(i0: Ipc, i1: Ipc, r: Result<u32, &'static str>)
    requires
        i0.wf(),
        ipc::notification_created(&i0, &i1, r),
    ensures
        r matches Ok(n) ==> {
            &&& n < 8
            &&& !i0.notifs@[n as int].live
            &&& i1.notifs@[n as int].live
            &&& i1.notifs@[n as int].pending == 0
            &&& i1.notifs@[n as int].waiter == 0xFFFF_FFFF_FFFF_FFFF
            &&& forall|j: int| 0 <= j < 8 && j != n ==> #[trigger] i1.notifs@[j] == i0.notifs@[j]
        },
        r is Err ==> i1 == i0,
        r is Err <==> forall|j: int| 0 <= j < 8 ==> (#[trigger] i0.notifs@[j]).live,
        i1.eps == i0.eps,
{
}

/// A notification is given up just where it is in use and nobody sleeps for it.
#[verifier::rlimit(40)]
pub proof fn law_notification_ends_idle(i0: Ipc, i1: Ipc, nid: u32, r: Result<(), &'static str>)
    requires
        i0.wf(),
        ipc::notification_destroyed(&i0, &i1, nid, r),
    ensures
        r is Ok <==> nid < 8 && i0.notifs@[nid as int].live && i0.notifs@[nid as int].waiter
            == 0xFFFF_FFFF_FFFF_FFFF,
        r is Ok ==> !i1.notifs@[nid as int].live && forall|j: int|
            0 <= j < 8 && j != nid ==> #[trigger] i1.notifs@[j] == i0.notifs@[j],
        r is Err ==> i1 == i0,
        i1.eps == i0.eps,
{
}

/// Whoever was woken takes all badges that are pending, and leaves none.
#[verifier::rlimit(40)]
pub proof fn law_woken_takes_the_badges(i0: Ipc, i1: Ipc, nid: u32, r: Result<u64, &'static str>)
    requires
        i0.wf(),
        nid < 8,
        ipc::wait_finished(&i0, &i1, nid, r),
    ensures
        i0.notifs@[nid as int].pending != 0 ==> r == Ok::<u64, &'static str>(
            i0.notifs@[nid as int].pending,
        ) && i1.notifs@[nid as int].pending == 0,
        i0.notifs@[nid as int].pending == 0 ==> r is Err && i1 == i0,
        forall|j: int| 0 <= j < 8 && j != nid ==> #[trigger] i1.notifs@[j] == i0.notifs@[j],
        i1.eps == i0.eps,
{
}

/// What is written into the caller's buffer: the first word, the second, and
/// the slot that a capability came to.
#[verifier::rlimit(40)]
pub proof fn law_buffer_has_the_message(words: [u64; 2], slot: u64, r: [u64; 3])
    requires
        syscall::message_is(words, slot, r),
    ensures
        r@[0] == words@[0],
        r@[1] == words@[1],
        r@[2] == slot,
{
}

} // verus!

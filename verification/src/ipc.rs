//! Calls between processes, and notifications.
//!
//! An endpoint has a few request slots. A request waits in its slot, is
//! delivered to a server, replied to, and taken back by its caller. Where a
//! thread has to sleep or be woken, a function here says so in its answer;
//! the sleeping itself is the scheduler's, and a second function goes on
//! after it.

use vstd::prelude::*;
use crate::cap;
use crate::cap::{Cap, CapObj};
use crate::proc;
use crate::proc::ProcTable;
use crate::status::{Status, STATUS_BAD_ARG, STATUS_BUSY};

verus! {

pub const MAX_ENDPOINTS: usize = 8;
pub const MAX_NOTIFS: usize = 8;
pub const QUEUE_DEPTH: usize = 4;

/// The slot number that stands for no capability.
pub const CAP_NONE: u64 = 0xFFFF_FFFF_FFFF_FFFF;

/// The thread number that stands for no thread.
pub const NO_TID: u64 = 0xFFFF_FFFF_FFFF_FFFF;

#[derive(Clone, Copy, Debug, PartialEq, Eq, Structural)]
pub enum SlotState {
    Empty,
    Waiting,
    Delivered,
    Replied,
}

/// A request and its reply. `ticket` tells which of two requests came first.
#[derive(Clone, Copy)]
pub struct CallSlot {
    pub state: SlotState,
    pub ticket: u64,
    pub caller: u64,
    pub words: [u64; 2],
    pub send_cap: Cap,
    pub server: u64,
    pub landed_cap: u64,
    pub reply_words: [u64; 2],
    pub reply_cap: Cap,
}

/// An endpoint: its request slots and the server that sleeps at it, if any.
#[derive(Clone, Copy)]
pub struct Endpoint {
    pub live: bool,
    pub q: [CallSlot; QUEUE_DEPTH],
    pub server: u64,
}

/// A notification: the badges that are pending, and who sleeps for them.
#[derive(Clone, Copy, Debug, PartialEq, Eq, Structural)]
pub struct Notif {
    pub live: bool,
    pub pending: u64,
    pub waiter: u64,
}

/// How often each thing has happened.
#[derive(Clone, Copy, Debug, PartialEq, Eq, Structural)]
pub struct IpcStats {
    pub calls: u64,
    pub recvs: u64,
    pub replies: u64,
    pub notifies: u64,
    pub waits: u64,
    pub cap_transfers: u64,
    pub cap_drops: u64,
    pub blocks: u64,
}

impl IpcStats {
    /// Every counter can still count.
    pub open spec fn room(self) -> bool {
        &&& self.calls < u64::MAX
        &&& self.recvs < u64::MAX
        &&& self.replies < u64::MAX
        &&& self.notifies < u64::MAX
        &&& self.waits < u64::MAX
        &&& self.blocks < u64::MAX
        &&& self.cap_room()
    }

    /// The counters of capabilities can still count.
    pub open spec fn cap_room(self) -> bool {
        self.cap_transfers < u64::MAX && self.cap_drops < u64::MAX
    }
}

/// All endpoints, notifications and counters.
pub struct Ipc {
    pub eps: Vec<Endpoint>,
    pub notifs: Vec<Notif>,
    pub stats: IpcStats,
}

/// A slot that nothing has been done with.
pub open spec fn blank(s: CallSlot) -> bool {
    &&& s.state == SlotState::Empty
    &&& s.ticket == 0
    &&& s.caller == 0
    &&& s.words@ == seq![0u64, 0u64]
    &&& s.send_cap == Cap::empty()
    &&& s.server == NO_TID
    &&& s.landed_cap == CAP_NONE
    &&& s.reply_words@ == seq![0u64, 0u64]
    &&& s.reply_cap == Cap::empty()
}

/// A slot that nothing has been done with.
pub fn blank_slot() -> (s: CallSlot)
    ensures
        blank(s),
{
    let s = CallSlot {
        state: SlotState::Empty,
        ticket: 0,
        caller: 0,
        words: [0, 0],
        send_cap: Cap::empty(),
        server: NO_TID,
        landed_cap: CAP_NONE,
        reply_words: [0, 0],
        reply_cap: Cap::empty(),
    };
    assert(s.words@ =~= seq![0u64, 0u64]);
    assert(s.reply_words@ =~= seq![0u64, 0u64]);
    s
}

/// The first of the slots from `i` on that is in state `st`.
pub open spec fn first_in(q: Seq<CallSlot>, st: SlotState, i: int) -> Option<int>
    decreases q.len() - i,
{
    if i >= q.len() {
        None
    } else if q[i].state == st {
        Some(i)
    } else {
        first_in(q, st, i + 1)
    }
}

/// The first of the slots from `i` on that is delivered to thread `tid`.
pub open spec fn first_for(q: Seq<CallSlot>, tid: u64, i: int) -> Option<int>
    decreases q.len() - i,
{
    if i >= q.len() {
        None
    } else if q[i].state == SlotState::Delivered && q[i].server == tid {
        Some(i)
    } else {
        first_for(q, tid, i + 1)
    }
}

/// Endpoint `eid` is in use.
pub open spec fn ep_live(ipc: &Ipc, eid: u32) -> bool {
    eid < ipc.eps@.len() && ipc.eps@[eid as int].live
}

/// Notification `nid` is in use.
pub open spec fn notif_live(ipc: &Ipc, nid: u32) -> bool {
    nid < ipc.notifs@.len() && ipc.notifs@[nid as int].live
}

/// The slot holds a request.
pub open spec fn in_use(s: CallSlot) -> bool {
    s.state != SlotState::Empty
}

/// No two requests of an endpoint share a ticket, and none has one that is
/// still to come.
pub open spec fn tickets_ok(q: Seq<CallSlot>, calls: u64) -> bool {
    &&& forall|i: int| 0 <= i < q.len() && in_use(#[trigger] q[i]) ==> q[i].ticket <= calls
    &&& forall|i: int, j: int|
        0 <= i < j < q.len() && in_use(#[trigger] q[i]) && in_use(#[trigger] q[j]) ==> q[i].ticket
            != q[j].ticket
}

impl Ipc {
    pub open spec fn shape(&self) -> bool {
        &&& self.eps@.len() == MAX_ENDPOINTS
        &&& self.notifs@.len() == MAX_NOTIFS
    }

    pub open spec fn wf(&self) -> bool {
        &&& self.shape()
        &&& forall|e: int|
            0 <= e < MAX_ENDPOINTS ==> tickets_ok((#[trigger] self.eps@[e]).q@, self.stats.calls)
    }

    /// No endpoints, no notifications, nothing counted.
    pub fn new() -> (r: Ipc)
        ensures
            r.wf(),
            forall|i: int| 0 <= i < MAX_ENDPOINTS ==> !(#[trigger] r.eps@[i]).live,
            forall|i: int| 0 <= i < MAX_NOTIFS ==> !(#[trigger] r.notifs@[i]).live,
            r.stats == (IpcStats {
                calls: 0,
                recvs: 0,
                replies: 0,
                notifies: 0,
                waits: 0,
                cap_transfers: 0,
                cap_drops: 0,
                blocks: 0,
            }),
    {
        let s = blank_slot();
        let mut eps: Vec<Endpoint> = Vec::new();
        let mut notifs: Vec<Notif> = Vec::new();
        let mut i: usize = 0;
        while i < MAX_ENDPOINTS
            invariant
                i <= MAX_ENDPOINTS,
                eps@.len() == i,
                notifs@.len() == i,
                blank(s),
                forall|j: int|
                    0 <= j < i ==> !(#[trigger] eps@[j]).live && tickets_ok(eps@[j].q@, 0),
                forall|j: int| 0 <= j < i ==> !(#[trigger] notifs@[j]).live,
            decreases MAX_ENDPOINTS - i,
        {
            eps.push(Endpoint { live: false, q: [s, s, s, s], server: NO_TID });
            notifs.push(Notif { live: false, pending: 0, waiter: NO_TID });
            i = i + 1;
        }
        Ipc {
            eps,
            notifs,
            stats: IpcStats {
                calls: 0,
                recvs: 0,
                replies: 0,
                notifies: 0,
                waits: 0,
                cap_transfers: 0,
                cap_drops: 0,
                blocks: 0,
            },
        }
    }
}

/// The counters.
pub fn stats(ipc: &Ipc) -> (r: IpcStats)
    ensures
        r == ipc.stats,
{
    ipc.stats
}

/// Only endpoint `e` differs: there, slot `i` is now `slot` and the sleeping
/// server is `server`.
pub open spec fn ep_set(
    pre: Seq<Endpoint>,
    post: Seq<Endpoint>,
    e: int,
    i: int,
    slot: CallSlot,
    server: u64,
) -> bool {
    &&& post.len() == pre.len()
    &&& forall|j: int| 0 <= j < pre.len() && j != e ==> #[trigger] post[j] == pre[j]
    &&& post[e].live == pre[e].live
    &&& post[e].server == server
    &&& post[e].q@ == pre[e].q@.update(i, slot)
}

/// Write slot `i` and the sleeping server of endpoint `e`.
fn put_slot(ipc: &mut Ipc, e: usize, i: usize, slot: CallSlot, server: u64)
    requires
        old(ipc).shape(),
        e < MAX_ENDPOINTS,
        i < QUEUE_DEPTH,
    ensures
        final(ipc).shape(),
        final(ipc).notifs == old(ipc).notifs,
        final(ipc).stats == old(ipc).stats,
        ep_set(old(ipc).eps@, final(ipc).eps@, e as int, i as int, slot, server),
{
    let mut ep: Endpoint = ipc.eps[e];
    ep.q[i] = slot;
    ep.server = server;
    ipc.eps.set(e, ep);
}

/// Writing a slot keeps the tickets in order, if it is emptied, keeps its
/// request, or takes a new ticket.
proof fn lemma_set_wf(pre: &Ipc, post: &Ipc, e: int, i: int, slot: CallSlot, server: u64)
    requires
        pre.wf(),
        post.shape(),
        0 <= e < MAX_ENDPOINTS,
        0 <= i < QUEUE_DEPTH,
        ep_set(pre.eps@, post.eps@, e, i, slot, server),
        post.stats.calls >= pre.stats.calls,
        ({
            let old_slot = pre.eps@[e].q@[i];
            ||| !in_use(slot)
            ||| in_use(old_slot) && slot.ticket == old_slot.ticket
            ||| slot.ticket == post.stats.calls && post.stats.calls > pre.stats.calls
        }),
    ensures
        post.wf(),
{
    assert forall|f: int| 0 <= f < MAX_ENDPOINTS implies tickets_ok(
        (#[trigger] post.eps@[f]).q@,
        post.stats.calls,
    ) by {
        assert(tickets_ok(pre.eps@[f].q@, pre.stats.calls));
        let q0 = pre.eps@[f].q@;
        let q1 = post.eps@[f].q@;
        if f == e {
            assert forall|a: int| 0 <= a < q1.len() && in_use(#[trigger] q1[a]) implies q1[a].ticket
                <= post.stats.calls by {
                if a != i {
                    assert(in_use(q0[a]));
                }
            }
            assert forall|a: int, b: int|
                0 <= a < b < q1.len() && in_use(#[trigger] q1[a]) && in_use(
                    #[trigger] q1[b],
                ) implies q1[a].ticket != q1[b].ticket by {
                if a != i {
                    assert(in_use(q0[a]));
                }
                if b != i {
                    assert(in_use(q0[b]));
                }
                if a == i && in_use(q0[i]) {
                    assert(in_use(q0[a]) && in_use(q0[b]));
                }
                if b == i && in_use(q0[i]) {
                    assert(in_use(q0[a]) && in_use(q0[b]));
                }
            }
        }
    }
}

/// Which of the first `n` slots holds the request that has waited longest.
pub open spec fn oldest_in(q: Seq<CallSlot>, n: int) -> Option<int>
    decreases n,
{
    if n <= 0 {
        None
    } else {
        let best = oldest_in(q, n - 1);
        if q[n - 1].state == SlotState::Waiting && (best is None || q[n - 1].ticket
            < q[best->0].ticket) {
            Some(n - 1)
        } else {
            best
        }
    }
}

/// The slot whose request waits and has waited longest.
pub open spec fn oldest(q: Seq<CallSlot>) -> Option<int> {
    oldest_in(q, QUEUE_DEPTH as int)
}

pub proof fn lemma_oldest_in(q: Seq<CallSlot>, n: int)
    requires
        0 <= n <= q.len(),
    ensures
        match oldest_in(q, n) {
            Some(k) => 0 <= k < n && q[k].state == SlotState::Waiting && forall|j: int|
                0 <= j < n && (#[trigger] q[j]).state == SlotState::Waiting ==> q[k].ticket
                    <= q[j].ticket,
            None => forall|j: int| 0 <= j < n ==> (#[trigger] q[j]).state != SlotState::Waiting,
        },
    decreases n,
{
    if n > 0 {
        lemma_oldest_in(q, n - 1);
    }
}

fn find_oldest(q: &[CallSlot; QUEUE_DEPTH]) -> (r: Option<usize>)
    ensures
        (match r {
            Some(i) => Some(i as int),
            None => None,
        }) == oldest(q@),
        r matches Some(i) ==> i < QUEUE_DEPTH && q@[i as int].state == SlotState::Waiting,
{
    let mut best: Option<usize> = None;
    let mut i: usize = 0;
    while i < QUEUE_DEPTH
        invariant
            i <= QUEUE_DEPTH,
            (match best {
                Some(k) => Some(k as int),
                None => None,
            }) == oldest_in(q@, i as int),
            best matches Some(k) ==> k < i && q@[k as int].state == SlotState::Waiting,
        decreases QUEUE_DEPTH - i,
    {
        if q[i].state == SlotState::Waiting {
            let newer: bool = match best {
                Some(k) => q[k].ticket <= q[i].ticket,
                None => false,
            };
            if !newer {
                best = Some(i);
            }
        }
        i = i + 1;
    }
    best
}

/// The first slot in state `st`.
fn find_in(q: &[CallSlot; QUEUE_DEPTH], st: SlotState) -> (r: Option<usize>)
    ensures
        (match r {
            Some(i) => Some(i as int),
            None => None,
        }) == first_in(q@, st, 0),
        r matches Some(i) ==> i < QUEUE_DEPTH && q@[i as int].state == st,
{
    let mut i: usize = 0;
    while i < QUEUE_DEPTH
        invariant
            i <= QUEUE_DEPTH,
            first_in(q@, st, 0) == first_in(q@, st, i as int),
        decreases QUEUE_DEPTH - i,
    {
        if q[i].state == st {
            return Some(i);
        }
        i = i + 1;
    }
    None
}

/// The first slot delivered to thread `tid`.
fn find_for(q: &[CallSlot; QUEUE_DEPTH], tid: u64) -> (r: Option<usize>)
    ensures
        (match r {
            Some(i) => Some(i as int),
            None => None,
        }) == first_for(q@, tid, 0),
        r matches Some(i) ==> i < QUEUE_DEPTH && q@[i as int].state == SlotState::Delivered
            && q@[i as int].server == tid,
{
    let mut i: usize = 0;
    while i < QUEUE_DEPTH
        invariant
            i <= QUEUE_DEPTH,
            first_for(q@, tid, 0) == first_for(q@, tid, i as int),
        decreases QUEUE_DEPTH - i,
    {
        if q[i].state == SlotState::Delivered && q[i].server == tid {
            return Some(i);
        }
        i = i + 1;
    }
    None
}

/// The first unused endpoint is `i`.
pub open spec fn first_free_ep(s: Seq<Endpoint>, i: int) -> bool {
    &&& 0 <= i < s.len()
    &&& !s[i].live
    &&& forall|j: int| 0 <= j < i ==> (#[trigger] s[j]).live
}

/// The first unused notification is `i`.
pub open spec fn first_free_notif(s: Seq<Notif>, i: int) -> bool {
    &&& 0 <= i < s.len()
    &&& !s[i].live
    &&& forall|j: int| 0 <= j < i ==> (#[trigger] s[j]).live
}

/// What [`create_endpoint`] answers and does.
pub open spec fn endpoint_created(
    ipc0: &Ipc,
    ipc1: &Ipc,
    r: Result<u32, &'static str>,
) -> bool {
    &&& ipc1.wf()
    &&& ipc1.notifs == ipc0.notifs
    &&& ipc1.stats == ipc0.stats
    &&& match r {
        Ok(i) => {
            &&& first_free_ep(ipc0.eps@, i as int)
            &&& ipc1.eps@ == ipc0.eps@.update(i as int, ipc1.eps@[i as int])
            &&& ipc1.eps@[i as int].live
            &&& ipc1.eps@[i as int].server == NO_TID
            &&& forall|j: int|
                0 <= j < QUEUE_DEPTH ==> blank(#[trigger] ipc1.eps@[i as int].q@[j])
        },
        Err(e) => {
            &&& e == "endpoint table full (MAX_ENDPOINTS)"
            &&& *ipc1 == *ipc0
            &&& forall|j: int| 0 <= j < MAX_ENDPOINTS ==> (#[trigger] ipc0.eps@[j]).live
        },
    }
}

/// Take the first unused endpoint into use, with blank slots and no server.
pub fn create_endpoint(ipc: &mut Ipc) -> (r: Result<u32, &'static str>)
    requires
        old(ipc).wf(),
    ensures
        endpoint_created(old(ipc), final(ipc), r),
{
    let mut i: usize = 0;
    while i < MAX_ENDPOINTS
        invariant
            i <= MAX_ENDPOINTS,
            *ipc == *old(ipc),
            ipc.wf(),
            forall|j: int| 0 <= j < i ==> (#[trigger] ipc.eps@[j]).live,
        decreases MAX_ENDPOINTS - i,
    {
        if !ipc.eps[i].live {
            let s = blank_slot();
            ipc.eps.set(i, Endpoint { live: true, q: [s, s, s, s], server: NO_TID });
            return Ok(i as u32);
        }
        i = i + 1;
    }
    Err("endpoint table full (MAX_ENDPOINTS)")
}

/// No slot of the endpoint is in use and no server sleeps at it.
pub open spec fn ep_idle(e: Endpoint) -> bool {
    e.server == NO_TID && forall|j: int|
        0 <= j < QUEUE_DEPTH ==> (#[trigger] e.q@[j]).state == SlotState::Empty
}

/// What [`destroy_endpoint`] answers and does.
pub open spec fn endpoint_destroyed(
    ipc0: &Ipc,
    ipc1: &Ipc,
    eid: u32,
    r: Result<(), &'static str>,
) -> bool {
    &&& ipc1.wf()
    &&& ipc1.notifs == ipc0.notifs
    &&& ipc1.stats == ipc0.stats
    &&& if !ep_live(ipc0, eid) {
        &&& r == Err::<(), &'static str>("destroy_endpoint: no such live endpoint")
        &&& *ipc1 == *ipc0
    } else if !ep_idle(ipc0.eps@[eid as int]) {
        &&& r == Err::<(), &'static str>(
            "destroy_endpoint: busy (server parked or requests outstanding)",
        )
        &&& *ipc1 == *ipc0
    } else {
        &&& r == Ok::<(), &'static str>(())
        &&& ipc1.eps@ == ipc0.eps@.update(
            eid as int,
            Endpoint { live: false, ..ipc0.eps@[eid as int] },
        )
    }
}

/// Retire an endpoint that is idle.
pub fn destroy_endpoint(ipc: &mut Ipc, eid: u32) -> (r: Result<(), &'static str>)
    requires
        old(ipc).wf(),
    ensures
        endpoint_destroyed(old(ipc), final(ipc), eid, r),
{
    let e: usize = eid as usize;
    if e >= MAX_ENDPOINTS || !ipc.eps[e].live {
        return Err("destroy_endpoint: no such live endpoint");
    }
    let mut ep: Endpoint = ipc.eps[e];
    if ep.server != NO_TID {
        return Err("destroy_endpoint: busy (server parked or requests outstanding)");
    }
    let mut j: usize = 0;
    while j < QUEUE_DEPTH
        invariant
            j <= QUEUE_DEPTH,
            *ipc == *old(ipc),
            ipc.wf(),
            e == eid,
            ep_live(old(ipc), eid),
            ep == ipc.eps@[e as int],
            forall|k: int| 0 <= k < j ==> (#[trigger] ep.q@[k]).state == SlotState::Empty,
        decreases QUEUE_DEPTH - j,
    {
        if ep.q[j].state != SlotState::Empty {
            return Err("destroy_endpoint: busy (server parked or requests outstanding)");
        }
        j = j + 1;
    }
    ep.live = false;
    ipc.eps.set(e, ep);
    Ok(())
}

/// What [`create_notification`] answers and does.
pub open spec fn notification_created(
    ipc0: &Ipc,
    ipc1: &Ipc,
    r: Result<u32, &'static str>,
) -> bool {
    &&& ipc1.wf()
    &&& ipc1.eps == ipc0.eps
    &&& ipc1.stats == ipc0.stats
    &&& match r {
        Ok(i) => {
            &&& first_free_notif(ipc0.notifs@, i as int)
            &&& ipc1.notifs@ == ipc0.notifs@.update(
                i as int,
                Notif { live: true, pending: 0, waiter: NO_TID },
            )
        },
        Err(e) => {
            &&& e == "notification table full (MAX_NOTIFS)"
            &&& *ipc1 == *ipc0
            &&& forall|j: int| 0 <= j < MAX_NOTIFS ==> (#[trigger] ipc0.notifs@[j]).live
        },
    }
}

/// Take the first unused notification into use, with nothing pending.
pub fn create_notification(ipc: &mut Ipc) -> (r: Result<u32, &'static str>)
    requires
        old(ipc).wf(),
    ensures
        notification_created(old(ipc), final(ipc), r),
{
    let mut i: usize = 0;
    while i < MAX_NOTIFS
        invariant
            i <= MAX_NOTIFS,
            *ipc == *old(ipc),
            ipc.wf(),
            forall|j: int| 0 <= j < i ==> (#[trigger] ipc.notifs@[j]).live,
        decreases MAX_NOTIFS - i,
    {
        if !ipc.notifs[i].live {
            ipc.notifs.set(i, Notif { live: true, pending: 0, waiter: NO_TID });
            return Ok(i as u32);
        }
        i = i + 1;
    }
    Err("notification table full (MAX_NOTIFS)")
}

/// What [`destroy_notification`] answers and does.
pub open spec fn notification_destroyed(
    ipc0: &Ipc,
    ipc1: &Ipc,
    nid: u32,
    r: Result<(), &'static str>,
) -> bool {
    &&& ipc1.wf()
    &&& ipc1.eps == ipc0.eps
    &&& ipc1.stats == ipc0.stats
    &&& if !notif_live(ipc0, nid) {
        &&& r == Err::<(), &'static str>("destroy_notification: no such live notification")
        &&& *ipc1 == *ipc0
    } else if ipc0.notifs@[nid as int].waiter != NO_TID {
        &&& r == Err::<(), &'static str>("destroy_notification: busy (waiter parked)")
        &&& *ipc1 == *ipc0
    } else {
        &&& r == Ok::<(), &'static str>(())
        &&& ipc1.notifs@ == ipc0.notifs@.update(
            nid as int,
            Notif { live: false, pending: 0, waiter: NO_TID },
        )
    }
}

/// Retire a notification that nobody sleeps for.
pub fn destroy_notification(ipc: &mut Ipc, nid: u32) -> (r: Result<(), &'static str>)
    requires
        old(ipc).wf(),
    ensures
        notification_destroyed(old(ipc), final(ipc), nid, r),
{
    let n: usize = nid as usize;
    if n >= MAX_NOTIFS || !ipc.notifs[n].live {
        return Err("destroy_notification: no such live notification");
    }
    if ipc.notifs[n].waiter != NO_TID {
        return Err("destroy_notification: busy (waiter parked)");
    }
    ipc.notifs.set(n, Notif { live: false, pending: 0, waiter: NO_TID });
    Ok(())
}

/// Where a capability lands that is handed to process `pid`: its first empty
/// slot, or nowhere if there is no such process or slot.
pub open spec fn landing(t: &ProcTable, pid: u64, c: Cap, slot: u64) -> bool {
    match cap::slots_of(t, pid) {
        Some(s) => if exists|k: int| cap::first_empty(s, k) {
            cap::first_empty(s, slot as int)
        } else {
            slot == CAP_NONE
        },
        None => slot == CAP_NONE,
    }
}

/// Hand a capability to process `pid`: put it into its first empty slot and
/// count it as transferred, or drop it and count that.
fn install_cap(ipc: &mut Ipc, t: &mut ProcTable, pid: u64, c: Cap) -> (r: u64)
    requires
        old(ipc).wf(),
        old(ipc).stats.cap_room(),
        old(t).wf(),
        !(c.obj is Empty),
    ensures
        final(ipc).wf(),
        final(ipc).eps == old(ipc).eps,
        final(ipc).notifs == old(ipc).notifs,
        final(t).wf(),
        landing(old(t), pid, c, r),
        r == CAP_NONE ==> *final(t) == *old(t) && final(ipc).stats == (IpcStats {
            cap_drops: (old(ipc).stats.cap_drops + 1) as u64,
            ..old(ipc).stats
        }),
        r != CAP_NONE ==> cap::slot_set(old(t), final(t), pid, r as int, c) && final(ipc).stats == (
        IpcStats {
            cap_transfers: (old(ipc).stats.cap_transfers + 1) as u64,
            ..old(ipc).stats
        }),
{
    proof {
        proc::lemma_find_bounds(t.slots@, pid);
    }
    match cap::grant(t, pid, c) {
        Ok(slot) => {
            ipc.stats.cap_transfers = ipc.stats.cap_transfers + 1;
            slot as u64
        },
        Err(_) => {
            ipc.stats.cap_drops = ipc.stats.cap_drops + 1;
            CAP_NONE
        },
    }
}

/// What handing capability `c` to process `pid` does: an empty capability is
/// no capability, any other lands in the first empty slot or is dropped.
pub open spec fn handed(
    pre: IpcStats,
    post: IpcStats,
    t0: &ProcTable,
    t1: &ProcTable,
    pid: u64,
    c: Cap,
    slot: u64,
) -> bool {
    if c.obj is Empty {
        &&& slot == CAP_NONE
        &&& post == pre
        &&& *t1 == *t0
    } else {
        &&& landing(t0, pid, c, slot)
        &&& if slot == CAP_NONE {
            *t1 == *t0 && post == (IpcStats { cap_drops: (pre.cap_drops + 1) as u64, ..pre })
        } else {
            cap::slot_set(t0, t1, pid, slot as int, c) && post == (IpcStats {
                cap_transfers: (pre.cap_transfers + 1) as u64,
                ..pre
            })
        }
    }
}

/// Hand a capability over, if it is one.
fn hand_over(ipc: &mut Ipc, t: &mut ProcTable, pid: u64, c: Cap) -> (r: u64)
    requires
        old(ipc).wf(),
        old(ipc).stats.cap_room(),
        old(t).wf(),
    ensures
        final(ipc).wf(),
        final(ipc).eps == old(ipc).eps,
        final(ipc).notifs == old(ipc).notifs,
        final(t).wf(),
        handed(old(ipc).stats, final(ipc).stats, old(t), final(t), pid, c, r),
{
    match c.obj {
        CapObj::Empty => CAP_NONE,
        _ => install_cap(ipc, t, pid, c),
    }
}

/// The slot after its request has been given to `server`, whose copy of the
/// capability landed in `landed`.
pub open spec fn delivered(s: CallSlot, server: u64, landed: u64) -> CallSlot {
    CallSlot {
        state: SlotState::Delivered,
        server: server,
        send_cap: Cap::empty(),
        landed_cap: landed,
        ..s
    }
}

/// Give the request in slot `qi` to a server thread of process `server_pid`.
pub fn take_request(
    ipc: &mut Ipc,
    t: &mut ProcTable,
    eidx: usize,
    qi: usize,
    server_tid: u64,
    server_pid: u64,
) -> (r: [u64; 2])
    requires
        old(ipc).wf(),
        old(ipc).stats.cap_room(),
        old(t).wf(),
        eidx < MAX_ENDPOINTS,
        qi < QUEUE_DEPTH,
        old(ipc).eps@[eidx as int].q@[qi as int].state == SlotState::Waiting,
    ensures
        final(ipc).wf(),
        final(ipc).notifs == old(ipc).notifs,
        final(t).wf(),
        r == old(ipc).eps@[eidx as int].q@[qi as int].words,
        ({
            let s = old(ipc).eps@[eidx as int].q@[qi as int];
            let landed = final(ipc).eps@[eidx as int].q@[qi as int].landed_cap;
            &&& handed(
                old(ipc).stats,
                final(ipc).stats,
                old(t),
                final(t),
                server_pid,
                s.send_cap,
                landed,
            )
            &&& ep_set(
                old(ipc).eps@,
                final(ipc).eps@,
                eidx as int,
                qi as int,
                delivered(s, server_tid, landed),
                old(ipc).eps@[eidx as int].server,
            )
        }),
{
    let mut s: CallSlot = ipc.eps[eidx].q[qi];
    let server: u64 = ipc.eps[eidx].server;
    s.state = SlotState::Delivered;
    s.server = server_tid;
    let c: Cap = s.send_cap;
    s.send_cap = Cap::empty();
    let landed: u64 = hand_over(ipc, t, server_pid, c);
    s.landed_cap = landed;
    let ghost mid = *ipc;
    put_slot(ipc, eidx, qi, s, server);
    proof {
        lemma_set_wf(&mid, ipc, eidx as int, qi as int, s, server);
    }
    s.words
}

/// A request as its caller leaves it.
pub open spec fn waiting(
    s: CallSlot,
    ticket: int,
    caller: u64,
    words: [u64; 2],
    c: Cap,
) -> bool {
    &&& s.state == SlotState::Waiting
    &&& s.ticket == ticket
    &&& s.caller == caller
    &&& s.words == words
    &&& s.send_cap == c
    &&& s.server == NO_TID
    &&& s.landed_cap == CAP_NONE
    &&& s.reply_words@ == seq![0u64, 0u64]
    &&& s.reply_cap == Cap::empty()
}

/// The capability that an optional one stands for.
pub open spec fn or_empty(c: Option<Cap>) -> Cap {
    match c {
        Some(c) => c,
        None => Cap::empty(),
    }
}

/// Where a posted request waits, and the server that slept at the endpoint.
#[derive(Clone, Copy, Debug, PartialEq, Eq, Structural)]
pub struct Posted {
    pub slot: usize,
    pub parked: Option<u64>,
}

/// What [`call`] answers and does to the endpoints.
pub open spec fn called(
    pre: &Ipc,
    post: &Ipc,
    tid: u64,
    eid: u32,
    words: [u64; 2],
    send_cap: Option<Cap>,
    r: Result<Posted, Status>,
) -> bool {
    &&& post.notifs == pre.notifs
    &&& post.stats == (IpcStats { calls: (pre.stats.calls + 1) as u64, ..pre.stats })
    &&& if !ep_live(pre, eid) {
        r == Err::<Posted, Status>(STATUS_BAD_ARG) && post.eps == pre.eps
    } else {
        let ep = pre.eps@[eid as int];
        match first_in(ep.q@, SlotState::Empty, 0) {
            None => r == Err::<Posted, Status>(STATUS_BUSY) && post.eps == pre.eps,
            Some(i) => {
                let s = post.eps@[eid as int].q@[i];
                &&& r matches Ok(p) && p.slot == i && p.parked == (if ep.server == NO_TID {
                    None::<u64>
                } else {
                    Some(ep.server)
                })
                &&& 0 <= i < QUEUE_DEPTH
                &&& waiting(s, pre.stats.calls + 1, tid, words, or_empty(send_cap))
                &&& ep_set(pre.eps@, post.eps@, eid as int, i, s, NO_TID)
            },
        }
    }
}

/// Thread `tid` calls endpoint `eid`: post the request in the first empty
/// slot and take the sleeping server, if there is one, off the endpoint.
///
/// The caller goes on with [`call_deliver`], wakes the server that was taken,
/// sleeps, and ends with [`call_finish`].
pub fn call(ipc: &mut Ipc, tid: u64, eid: u32, words: [u64; 2], send_cap: Option<Cap>) -> (r: Result<
    Posted,
    Status,
>)
    requires
        old(ipc).wf(),
        old(ipc).stats.room(),
    ensures
        final(ipc).wf(),
        called(old(ipc), final(ipc), tid, eid, words, send_cap, r),
{
    ipc.stats.calls = ipc.stats.calls + 1;
    let e: usize = eid as usize;
    if e >= MAX_ENDPOINTS || !ipc.eps[e].live {
        return Err(STATUS_BAD_ARG);
    }
    let ep: Endpoint = ipc.eps[e];
    match find_in(&ep.q, SlotState::Empty) {
        None => Err(STATUS_BUSY),
        Some(i) => {
            let mut s: CallSlot = blank_slot();
            s.state = SlotState::Waiting;
            s.ticket = ipc.stats.calls;
            s.caller = tid;
            s.words = words;
            s.send_cap = match send_cap {
                Some(c) => c,
                None => Cap::empty(),
            };
            put_slot(ipc, e, i, s, NO_TID);
            Ok(Posted {
                slot: i,
                parked: if ep.server == NO_TID {
                    None
                } else {
                    Some(ep.server)
                },
            })
        },
    }
}

/// What [`call_deliver`] answers and does.
pub open spec fn call_delivered(
    pre: &Ipc,
    post: &Ipc,
    t0: &ProcTable,
    t1: &ProcTable,
    eid: u32,
    posted: Posted,
    server_pid: Option<u64>,
    r: Result<(), &'static str>,
) -> bool {
    &&& post.notifs == pre.notifs
    &&& match posted.parked {
        None => {
            &&& r == Ok::<(), &'static str>(())
            &&& post.eps == pre.eps
            &&& *t1 == *t0
            &&& post.stats == (IpcStats {
                blocks: (pre.stats.blocks + 1) as u64,
                ..pre.stats
            })
        },
        Some(server) => if server_pid == None::<u64> || server_pid == Some(0u64) {
            &&& r == Err::<(), &'static str>("ipc: server without a process")
            &&& *post == *pre
            &&& *t1 == *t0
        } else {
            let s = pre.eps@[eid as int].q@[posted.slot as int];
            let landed = post.eps@[eid as int].q@[posted.slot as int].landed_cap;
            &&& r == Ok::<(), &'static str>(())
            &&& handed(
                IpcStats { blocks: (pre.stats.blocks + 1) as u64, ..pre.stats },
                post.stats,
                t0,
                t1,
                server_pid->0,
                s.send_cap,
                landed,
            )
            &&& ep_set(
                pre.eps@,
                post.eps@,
                eid as int,
                posted.slot as int,
                delivered(s, server, landed),
                pre.eps@[eid as int].server,
            )
        },
    }
}

/// Before the caller sleeps: give the request to the server that was taken
/// off the endpoint, and count the sleep.
///
/// `server_pid` is the process of that server. The kernel stops on an error.
pub fn call_deliver(
    ipc: &mut Ipc,
    t: &mut ProcTable,
    eid: u32,
    posted: Posted,
    server_pid: Option<u64>,
) -> (r: Result<(), &'static str>)
    requires
        old(ipc).wf(),
        old(ipc).stats.room(),
        old(t).wf(),
        eid < MAX_ENDPOINTS,
        posted.slot < QUEUE_DEPTH,
        posted.parked is Some ==> old(ipc).eps@[eid as int].q@[posted.slot as int].state
            == SlotState::Waiting,
    ensures
        final(ipc).wf(),
        final(t).wf(),
        call_delivered(old(ipc), final(ipc), old(t), final(t), eid, posted, server_pid, r),
{
    if let Some(server) = posted.parked {
        match server_pid {
            None => {
                return Err("ipc: server without a process");
            },
            Some(pid) => {
                if pid == 0 {
                    return Err("ipc: server without a process");
                }
                take_request(ipc, t, eid as usize, posted.slot, server, pid);
            },
        }
    }
    ipc.stats.blocks = ipc.stats.blocks + 1;
    Ok(())
}

/// What [`call_finish`] answers and does.
pub open spec fn call_finished(
    pre: &Ipc,
    post: &Ipc,
    t0: &ProcTable,
    t1: &ProcTable,
    pid: u64,
    eid: u32,
    qi: usize,
    r: Result<([u64; 2], u64), &'static str>,
) -> bool {
    let s = pre.eps@[eid as int].q@[qi as int];
    &&& post.notifs == pre.notifs
    &&& if s.state != SlotState::Replied {
        &&& r == Err::<([u64; 2], u64), &'static str>("ipc: caller woken without a reply")
        &&& *post == *pre
        &&& *t1 == *t0
    } else {
        let e = post.eps@[eid as int].q@[qi as int];
        &&& r matches Ok(a) && a.0 == s.reply_words && handed(
            pre.stats,
            post.stats,
            t0,
            t1,
            pid,
            s.reply_cap,
            a.1,
        )
        &&& blank(e)
        &&& ep_set(
            pre.eps@,
            post.eps@,
            eid as int,
            qi as int,
            e,
            pre.eps@[eid as int].server,
        )
    }
}

/// After the caller's sleep: take the reply out of the slot, empty the slot,
/// and hand the reply's capability to the caller's process `pid`.
///
/// The kernel stops on an error.
pub fn call_finish(ipc: &mut Ipc, t: &mut ProcTable, pid: u64, eid: u32, qi: usize) -> (r: Result<
    ([u64; 2], u64),
    &'static str,
>)
    requires
        old(ipc).wf(),
        old(ipc).stats.room(),
        old(t).wf(),
        eid < MAX_ENDPOINTS,
        qi < QUEUE_DEPTH,
    ensures
        final(ipc).wf(),
        final(t).wf(),
        call_finished(old(ipc), final(ipc), old(t), final(t), pid, eid, qi, r),
{
    let e: usize = eid as usize;
    let s: CallSlot = ipc.eps[e].q[qi];
    if s.state != SlotState::Replied {
        return Err("ipc: caller woken without a reply");
    }
    let server: u64 = ipc.eps[e].server;
    put_slot(ipc, e, qi, blank_slot(), server);
    let landed: u64 = hand_over(ipc, t, pid, s.reply_cap);
    Ok((s.reply_words, landed))
}

/// Only the sleeping server of endpoint `e` differs.
pub open spec fn ep_parked(pre: Seq<Endpoint>, post: Seq<Endpoint>, e: int, server: u64) -> bool {
    post == pre.update(e, Endpoint { server: server, ..pre[e] })
}

/// What [`recv`] answers and does.
pub open spec fn received(
    pre: &Ipc,
    post: &Ipc,
    t0: &ProcTable,
    t1: &ProcTable,
    pid: u64,
    tid: u64,
    eid: u32,
    r: Result<Option<([u64; 2], u64)>, Status>,
) -> bool {
    let counted = IpcStats {
        recvs: (pre.stats.recvs + 1) as u64,
        ..pre.stats
    };
    let ep = pre.eps@[eid as int];
    &&& post.notifs == pre.notifs
    &&& if !ep_live(pre, eid) {
        &&& r == Err::<Option<([u64; 2], u64)>, Status>(STATUS_BAD_ARG)
        &&& post.eps == pre.eps
        &&& post.stats == counted
        &&& *t1 == *t0
    } else {
        match oldest(ep.q@) {
            Some(i) => {
                let s = ep.q@[i];
                &&& 0 <= i < QUEUE_DEPTH
                &&& r matches Ok(Some(a)) && a.0 == s.words && handed(
                    counted,
                    post.stats,
                    t0,
                    t1,
                    pid,
                    s.send_cap,
                    a.1,
                ) && ep_set(
                    pre.eps@,
                    post.eps@,
                    eid as int,
                    i,
                    delivered(s, tid, a.1),
                    ep.server,
                )
            },
            None => if ep.server != NO_TID {
                &&& r == Err::<Option<([u64; 2], u64)>, Status>(STATUS_BUSY)
                &&& post.eps == pre.eps
                &&& post.stats == counted
                &&& *t1 == *t0
            } else {
                &&& r == Ok::<Option<([u64; 2], u64)>, Status>(None)
                &&& ep_parked(pre.eps@, post.eps@, eid as int, tid)
                &&& post.stats == (IpcStats {
                    blocks: (counted.blocks + 1) as u64,
                    ..counted
                })
                &&& *t1 == *t0
            },
        }
    }
}

/// Thread `tid` of process `pid` receives at endpoint `eid`: take the oldest
/// request that waits, or sleep at the endpoint.
///
/// Without a request the answer is `Ok(None)`: the thread sleeps and goes on
/// with [`recv_finish`].
pub fn recv(ipc: &mut Ipc, t: &mut ProcTable, pid: u64, tid: u64, eid: u32) -> (r: Result<
    Option<([u64; 2], u64)>,
    Status,
>)
    requires
        old(ipc).wf(),
        old(ipc).stats.room(),
        old(t).wf(),
    ensures
        final(ipc).wf(),
        final(t).wf(),
        received(old(ipc), final(ipc), old(t), final(t), pid, tid, eid, r),
{
    ipc.stats.recvs = ipc.stats.recvs + 1;
    let e: usize = eid as usize;
    if e >= MAX_ENDPOINTS || !ipc.eps[e].live {
        return Err(STATUS_BAD_ARG);
    }
    let mut ep: Endpoint = ipc.eps[e];
    match find_oldest(&ep.q) {
        Some(qi) => {
            let words: [u64; 2] = take_request(ipc, t, e, qi, tid, pid);
            let landed: u64 = ipc.eps[e].q[qi].landed_cap;
            Ok(Some((words, landed)))
        },
        None => {
            if ep.server != NO_TID {
                return Err(STATUS_BUSY);
            }
            ep.server = tid;
            ipc.eps.set(e, ep);
            ipc.stats.blocks = ipc.stats.blocks + 1;
            Ok(None)
        },
    }
}

/// What [`recv_finish`] answers and does.
pub open spec fn recv_finished(
    ipc: &Ipc,
    tid: u64,
    eid: u32,
    r: Result<([u64; 2], u64), &'static str>,
) -> bool {
    &&& match first_for(ipc.eps@[eid as int].q@, tid, 0) {
        Some(i) => {
            let s = ipc.eps@[eid as int].q@[i];
            0 <= i < QUEUE_DEPTH && r == Ok::<([u64; 2], u64), &'static str>(
                (s.words, s.landed_cap),
            )
        },
        None => r == Err::<([u64; 2], u64), &'static str>("ipc: recv woken without a delivery"),
    }
}

/// After a receiver's sleep: the request that was delivered to thread `tid`.
///
/// The kernel stops on an error.
pub fn recv_finish(ipc: &Ipc, tid: u64, eid: u32) -> (r: Result<([u64; 2], u64), &'static str>)
    requires
        ipc.wf(),
        eid < MAX_ENDPOINTS,
    ensures
        recv_finished(ipc, tid, eid, r),
{
    let ep: Endpoint = ipc.eps[eid as usize];
    match find_for(&ep.q, tid) {
        Some(qi) => Ok((ep.q[qi].words, ep.q[qi].landed_cap)),
        None => Err("ipc: recv woken without a delivery"),
    }
}

/// What [`reply`] answers and does to the endpoints.
pub open spec fn replied(
    pre: &Ipc,
    post: &Ipc,
    tid: u64,
    eid: u32,
    words: [u64; 2],
    send_cap: Option<Cap>,
    r: Result<u64, Status>,
) -> bool {
    &&& post.notifs == pre.notifs
    &&& post.stats == (IpcStats { replies: (pre.stats.replies + 1) as u64, ..pre.stats })
    &&& if !ep_live(pre, eid) {
        r == Err::<u64, Status>(STATUS_BAD_ARG) && post.eps == pre.eps
    } else {
        let ep = pre.eps@[eid as int];
        match first_for(ep.q@, tid, 0) {
            None => r == Err::<u64, Status>(STATUS_BAD_ARG) && post.eps == pre.eps,
            Some(i) => {
                &&& 0 <= i < QUEUE_DEPTH
                &&& r == Ok::<u64, Status>(ep.q@[i].caller)
                &&& ep_set(
                    pre.eps@,
                    post.eps@,
                    eid as int,
                    i,
                    CallSlot {
                        state: SlotState::Replied,
                        reply_words: words,
                        reply_cap: or_empty(send_cap),
                        ..ep.q@[i]
                    },
                    ep.server,
                )
            },
        }
    }
}

/// Thread `tid` replies to the first request of endpoint `eid` that was
/// delivered to it. The answer is the caller, which has to be woken.
pub fn reply(ipc: &mut Ipc, tid: u64, eid: u32, words: [u64; 2], send_cap: Option<Cap>) -> (r: Result<
    u64,
    Status,
>)
    requires
        old(ipc).wf(),
        old(ipc).stats.room(),
    ensures
        final(ipc).wf(),
        replied(old(ipc), final(ipc), tid, eid, words, send_cap, r),
{
    ipc.stats.replies = ipc.stats.replies + 1;
    let e: usize = eid as usize;
    if e >= MAX_ENDPOINTS || !ipc.eps[e].live {
        return Err(STATUS_BAD_ARG);
    }
    let ep: Endpoint = ipc.eps[e];
    match find_for(&ep.q, tid) {
        None => Err(STATUS_BAD_ARG),
        Some(qi) => {
            let mut s: CallSlot = ep.q[qi];
            s.reply_words = words;
            s.reply_cap = match send_cap {
                Some(c) => c,
                None => Cap::empty(),
            };
            s.state = SlotState::Replied;
            put_slot(ipc, e, qi, s, ep.server);
            Ok(s.caller)
        },
    }
}

/// What [`notify`] answers and does.
pub open spec fn notified(
    pre: &Ipc,
    post: &Ipc,
    nid: u32,
    badge: u64,
    r: Result<Option<u64>, Status>,
) -> bool {
    &&& post.eps == pre.eps
    &&& if badge == 0 {
        r == Err::<Option<u64>, Status>(STATUS_BAD_ARG) && *post == *pre
    } else {
        let n = pre.notifs@[nid as int];
        &&& post.stats == (IpcStats {
            notifies: (pre.stats.notifies + 1) as u64,
            ..pre.stats
        })
        &&& if !notif_live(pre, nid) {
            &&& r == Err::<Option<u64>, Status>(STATUS_BAD_ARG)
            &&& post.notifs == pre.notifs
        } else {
            &&& r == Ok::<Option<u64>, Status>(
                if n.waiter == NO_TID {
                    None
                } else {
                    Some(n.waiter)
                },
            )
            &&& post.notifs@ == pre.notifs@.update(
                nid as int,
                Notif { live: true, pending: n.pending | badge, waiter: NO_TID },
            )
        }
    }
}

/// Signal notification `nid`: add the badge's bits to the pending ones, and
/// take the thread off that sleeps for them. The answer is that thread, which
/// has to be woken.
pub fn notify(ipc: &mut Ipc, nid: u32, badge: u64) -> (r: Result<Option<u64>, Status>)
    requires
        old(ipc).wf(),
        old(ipc).stats.room(),
    ensures
        final(ipc).wf(),
        notified(old(ipc), final(ipc), nid, badge, r),
{
    if badge == 0 {
        return Err(STATUS_BAD_ARG);
    }
    ipc.stats.notifies = ipc.stats.notifies + 1;
    let i: usize = nid as usize;
    if i >= MAX_NOTIFS || !ipc.notifs[i].live {
        return Err(STATUS_BAD_ARG);
    }
    let n: Notif = ipc.notifs[i];
    ipc.notifs.set(i, Notif { live: true, pending: n.pending | badge, waiter: NO_TID });
    if n.waiter == NO_TID {
        Ok(None)
    } else {
        Ok(Some(n.waiter))
    }
}

/// What [`wait`] answers and does.
pub open spec fn waited(
    pre: &Ipc,
    post: &Ipc,
    tid: u64,
    nid: u32,
    r: Result<Option<u64>, Status>,
) -> bool {
    let counted = IpcStats {
        waits: (pre.stats.waits + 1) as u64,
        ..pre.stats
    };
    let n = pre.notifs@[nid as int];
    &&& post.eps == pre.eps
    &&& if !notif_live(pre, nid) {
        &&& r == Err::<Option<u64>, Status>(STATUS_BAD_ARG)
        &&& post.notifs == pre.notifs
        &&& post.stats == counted
    } else if n.pending != 0 {
        &&& r == Ok::<Option<u64>, Status>(Some(n.pending))
        &&& post.notifs@ == pre.notifs@.update(
            nid as int,
            Notif { pending: 0, ..n },
        )
        &&& post.stats == counted
    } else if n.waiter != NO_TID {
        &&& r == Err::<Option<u64>, Status>(STATUS_BUSY)
        &&& post.notifs == pre.notifs
        &&& post.stats == counted
    } else {
        &&& r == Ok::<Option<u64>, Status>(None)
        &&& post.notifs@ == pre.notifs@.update(
            nid as int,
            Notif { waiter: tid, ..n },
        )
        &&& post.stats == (IpcStats {
            blocks: (counted.blocks + 1) as u64,
            ..counted
        })
    }
}

/// Thread `tid` waits for notification `nid`: take what is pending, or sleep.
///
/// With nothing pending the answer is `Ok(None)`: the thread sleeps and goes
/// on with [`wait_finish`].
pub fn wait(ipc: &mut Ipc, tid: u64, nid: u32) -> (r: Result<Option<u64>, Status>)
    requires
        old(ipc).wf(),
        old(ipc).stats.room(),
    ensures
        final(ipc).wf(),
        waited(old(ipc), final(ipc), tid, nid, r),
{
    ipc.stats.waits = ipc.stats.waits + 1;
    let i: usize = nid as usize;
    if i >= MAX_NOTIFS || !ipc.notifs[i].live {
        return Err(STATUS_BAD_ARG);
    }
    let mut n: Notif = ipc.notifs[i];
    if n.pending != 0 {
        let p: u64 = n.pending;
        n.pending = 0;
        ipc.notifs.set(i, n);
        return Ok(Some(p));
    }
    if n.waiter != NO_TID {
        return Err(STATUS_BUSY);
    }
    n.waiter = tid;
    ipc.notifs.set(i, n);
    ipc.stats.blocks = ipc.stats.blocks + 1;
    Ok(None)
}

/// What [`wait_finish`] answers and does.
pub open spec fn wait_finished(
    pre: &Ipc,
    post: &Ipc,
    nid: u32,
    r: Result<u64, &'static str>,
) -> bool {
    let n = pre.notifs@[nid as int];
    &&& post.eps == pre.eps
    &&& post.stats == pre.stats
    &&& if n.pending == 0 {
        &&& r == Err::<u64, &'static str>("ipc: wait woken without a badge")
        &&& *post == *pre
    } else {
        &&& r == Ok::<u64, &'static str>(n.pending)
        &&& post.notifs@ == pre.notifs@.update(
            nid as int,
            Notif { pending: 0, ..n },
        )
    }
}

/// After a waiter's sleep: take what is pending.
///
/// The kernel stops on an error.
pub fn wait_finish(ipc: &mut Ipc, nid: u32) -> (r: Result<u64, &'static str>)
    requires
        old(ipc).wf(),
        nid < MAX_NOTIFS,
    ensures
        final(ipc).wf(),
        wait_finished(old(ipc), final(ipc), nid, r),
{
    let mut n: Notif = ipc.notifs[nid as usize];
    if n.pending == 0 {
        return Err("ipc: wait woken without a badge");
    }
    let p: u64 = n.pending;
    n.pending = 0;
    ipc.notifs.set(nid as usize, n);
    Ok(p)
}

/// How a slot may change in one step: not at all, or to the next state of
/// its round, and the request it holds stays the same until it is emptied.
pub open spec fn slot_moves(a: CallSlot, b: CallSlot) -> bool {
    ||| b == a
    ||| a.state == SlotState::Empty && b.state == SlotState::Waiting
    ||| a.state == SlotState::Waiting && b.state == SlotState::Delivered && b.caller == a.caller
        && b.words == a.words
    ||| a.state == SlotState::Delivered && b.state == SlotState::Replied && b.caller == a.caller
        && b.words == a.words && b.server == a.server
    ||| a.state == SlotState::Replied && b.state == SlotState::Empty
}

/// At most one slot of all differs, and that one made one move.
pub open spec fn one_move(pre: &Ipc, post: &Ipc) -> bool {
    exists|e: int, i: int|
        #![trigger pre.eps@[e].q@[i]]
        {
            &&& 0 <= e < MAX_ENDPOINTS && 0 <= i < QUEUE_DEPTH
            &&& slot_moves(pre.eps@[e].q@[i], post.eps@[e].q@[i])
            &&& forall|f: int, j: int|
                #![trigger post.eps@[f].q@[j]]
                0 <= f < MAX_ENDPOINTS && 0 <= j < QUEUE_DEPTH && !(f == e && j == i)
                    ==> post.eps@[f].q@[j] == pre.eps@[f].q@[j]
        }
}

proof fn lemma_first_in(q: Seq<CallSlot>, st: SlotState, i: int)
    requires
        0 <= i,
    ensures
        first_in(q, st, i) matches Some(k) ==> i <= k < q.len() && q[k].state == st && forall|j: int|
            i <= j < k ==> (#[trigger] q[j]).state != st,
        first_in(q, st, i) is None ==> forall|j: int|
            i <= j < q.len() ==> (#[trigger] q[j]).state != st,
    decreases q.len() - i,
{
    if i < q.len() && q[i].state != st {
        lemma_first_in(q, st, i + 1);
    }
}

proof fn lemma_first_for(q: Seq<CallSlot>, tid: u64, i: int)
    requires
        0 <= i,
    ensures
        first_for(q, tid, i) matches Some(k) ==> i <= k < q.len() && q[k].state
            == SlotState::Delivered && q[k].server == tid && forall|j: int|
            i <= j < k ==> (#[trigger] q[j]).state != SlotState::Delivered || q[j].server != tid,
        first_for(q, tid, i) is None ==> forall|j: int|
            i <= j < q.len() ==> (#[trigger] q[j]).state != SlotState::Delivered || q[j].server
                != tid,
    decreases q.len() - i,
{
    if i < q.len() && !(q[i].state == SlotState::Delivered && q[i].server == tid) {
        lemma_first_for(q, tid, i + 1);
    }
}

/// A call moves at most one slot, from empty to waiting.
pub proof fn law_call_moves_one(
    pre: Ipc,
    post: Ipc,
    tid: u64,
    eid: u32,
    words: [u64; 2],
    c: Option<Cap>,
    r: Result<Posted, Status>,
)
    requires
        pre.wf(),
        called(&pre, &post, tid, eid, words, c, r),
    ensures
        one_move(&pre, &post),
        r is Err ==> post.eps == pre.eps,
{
    if ep_live(&pre, eid) {
        let q = pre.eps@[eid as int].q@;
        lemma_first_in(q, SlotState::Empty, 0);
        if let Some(i) = first_in(q, SlotState::Empty, 0) {
            assert(slot_moves(pre.eps@[eid as int].q@[i], post.eps@[eid as int].q@[i]));
        } else {
            assert(slot_moves(pre.eps@[0].q@[0], post.eps@[0].q@[0]));
        }
    } else {
        assert(slot_moves(pre.eps@[0].q@[0], post.eps@[0].q@[0]));
    }
}

/// Delivering a posted request to the server that slept moves that request
/// alone, from waiting to delivered.
pub proof fn law_delivery_moves_one(
    pre: Ipc,
    post: Ipc,
    t0: ProcTable,
    t1: ProcTable,
    eid: u32,
    posted: Posted,
    pid: Option<u64>,
    r: Result<(), &'static str>,
)
    requires
        pre.wf(),
        eid < MAX_ENDPOINTS,
        posted.slot < QUEUE_DEPTH,
        pre.eps@[eid as int].q@[posted.slot as int].state == SlotState::Waiting,
        call_delivered(&pre, &post, &t0, &t1, eid, posted, pid, r),
    ensures
        one_move(&pre, &post),
{
    assert(slot_moves(
        pre.eps@[eid as int].q@[posted.slot as int],
        post.eps@[eid as int].q@[posted.slot as int],
    ));
}

/// A receive moves at most one slot, from waiting to delivered.
pub proof fn law_recv_moves_one(
    pre: Ipc,
    post: Ipc,
    t0: ProcTable,
    t1: ProcTable,
    pid: u64,
    tid: u64,
    eid: u32,
    r: Result<Option<([u64; 2], u64)>, Status>,
)
    requires
        pre.wf(),
        received(&pre, &post, &t0, &t1, pid, tid, eid, r),
    ensures
        one_move(&pre, &post),
{
    if ep_live(&pre, eid) {
        let q = pre.eps@[eid as int].q@;
        lemma_oldest_in(q, QUEUE_DEPTH as int);
        if let Some(i) = oldest(q) {
            assert(slot_moves(pre.eps@[eid as int].q@[i], post.eps@[eid as int].q@[i]));
        } else {
            assert(slot_moves(pre.eps@[0].q@[0], post.eps@[0].q@[0]));
        }
    } else {
        assert(slot_moves(pre.eps@[0].q@[0], post.eps@[0].q@[0]));
    }
}

/// A reply moves at most one slot, from delivered to replied.
pub proof fn law_reply_moves_one(
    pre: Ipc,
    post: Ipc,
    tid: u64,
    eid: u32,
    words: [u64; 2],
    c: Option<Cap>,
    r: Result<u64, Status>,
)
    requires
        pre.wf(),
        replied(&pre, &post, tid, eid, words, c, r),
    ensures
        one_move(&pre, &post),
        r is Err ==> post.eps == pre.eps,
{
    if ep_live(&pre, eid) {
        let q = pre.eps@[eid as int].q@;
        lemma_first_for(q, tid, 0);
        if let Some(i) = first_for(q, tid, 0) {
            assert(slot_moves(pre.eps@[eid as int].q@[i], post.eps@[eid as int].q@[i]));
        } else {
            assert(slot_moves(pre.eps@[0].q@[0], post.eps@[0].q@[0]));
        }
    } else {
        assert(slot_moves(pre.eps@[0].q@[0], post.eps@[0].q@[0]));
    }
}

/// A caller that takes its reply moves its own slot alone, from replied to
/// empty.
pub proof fn law_finish_moves_one(
    pre: Ipc,
    post: Ipc,
    t0: ProcTable,
    t1: ProcTable,
    pid: u64,
    eid: u32,
    qi: usize,
    r: Result<([u64; 2], u64), &'static str>,
)
    requires
        pre.wf(),
        eid < MAX_ENDPOINTS,
        qi < QUEUE_DEPTH,
        call_finished(&pre, &post, &t0, &t1, pid, eid, qi, r),
    ensures
        one_move(&pre, &post),
{
    assert(slot_moves(
        pre.eps@[eid as int].q@[qi as int],
        post.eps@[eid as int].q@[qi as int],
    ));
}

/// A request reaches its server and the reply its caller. A call at an
/// endpoint where nothing waits, a receive, the reply and the end of the
/// call: the server gets the caller's words, the caller is the one to wake,
/// it gets the server's words, and the slot is blank again.
pub proof fn law_call_round_trip(
    s0: Ipc,
    s1: Ipc,
    s2: Ipc,
    s3: Ipc,
    s4: Ipc,
    t0: ProcTable,
    t1: ProcTable,
    t2: ProcTable,
    caller: u64,
    caller_pid: u64,
    server: u64,
    server_pid: u64,
    eid: u32,
    words: [u64; 2],
    c: Option<Cap>,
    back: [u64; 2],
    back_cap: Option<Cap>,
    posted: Posted,
    got: Result<Option<([u64; 2], u64)>, Status>,
    woken: Result<u64, Status>,
    end: Result<([u64; 2], u64), &'static str>,
)
    requires
        s0.wf(),
        called(&s0, &s1, caller, eid, words, c, Ok(posted)),
        received(&s1, &s2, &t0, &t1, server_pid, server, eid, got),
        replied(&s2, &s3, server, eid, back, back_cap, woken),
        call_finished(&s3, &s4, &t1, &t2, caller_pid, eid, posted.slot, end),
        forall|j: int|
            0 <= j < QUEUE_DEPTH ==> (#[trigger] s0.eps@[eid as int].q@[j]).state
                != SlotState::Waiting && !(s0.eps@[eid as int].q@[j].state == SlotState::Delivered
                && s0.eps@[eid as int].q@[j].server == server),
    ensures
        got matches Ok(Some(g)) && g.0 == words,
        woken == Ok::<u64, Status>(caller),
        end matches Ok(a) && a.0 == back,
        blank(s4.eps@[eid as int].q@[posted.slot as int]),
{
    let e = eid as int;
    let i = posted.slot as int;
    lemma_first_in(s0.eps@[e].q@, SlotState::Empty, 0);
    lemma_oldest_in(s1.eps@[e].q@, QUEUE_DEPTH as int);
    assert(s1.eps@[e].q@[i].state == SlotState::Waiting);
    let w = oldest(s1.eps@[e].q@);
    assert(w == Some(i)) by {
        if let Some(k) = w {
            if k != i {
                assert(s1.eps@[e].q@[k] == s0.eps@[e].q@[k]);
            }
        }
    }
    lemma_first_for(s2.eps@[e].q@, server, 0);
    let f = first_for(s2.eps@[e].q@, server, 0);
    assert(s2.eps@[e].q@[i].state == SlotState::Delivered);
    assert(f == Some(i)) by {
        if let Some(k) = f {
            if k != i {
                assert(s2.eps@[e].q@[k] == s0.eps@[e].q@[k]);
            }
        }
    }
    assert(s3.eps@[e].q@[i].state == SlotState::Replied);
}

/// Requests are taken in the order in which they were made: a receive takes
/// the request that has waited longest, and a call queues behind every
/// request that is there.
pub proof fn law_oldest_first(
    s0: Ipc,
    s1: Ipc,
    caller: u64,
    eid: u32,
    words: [u64; 2],
    c: Option<Cap>,
    posted: Posted,
    s2: Ipc,
    s3: Ipc,
    t0: ProcTable,
    t1: ProcTable,
    pid: u64,
    tid: u64,
    f: u32,
    g: ([u64; 2], u64),
)
    requires
        s0.wf(),
        called(&s0, &s1, caller, eid, words, c, Ok(posted)),
        s2.wf(),
        received(&s2, &s3, &t0, &t1, pid, tid, f, Ok(Some(g))),
    ensures
        forall|j: int|
            0 <= j < QUEUE_DEPTH && in_use(#[trigger] s0.eps@[eid as int].q@[j])
                ==> s0.eps@[eid as int].q@[j].ticket
                < s1.eps@[eid as int].q@[posted.slot as int].ticket,
        exists|i: int|
            {
                let q = s2.eps@[f as int].q@;
                &&& 0 <= i < QUEUE_DEPTH
                &&& #[trigger] s3.eps@[f as int].q@[i].state == SlotState::Delivered
                &&& q[i].state == SlotState::Waiting
                &&& g.0 == q[i].words
                &&& forall|j: int|
                    0 <= j < QUEUE_DEPTH && j != i && (#[trigger] q[j]).state == SlotState::Waiting
                        ==> q[i].ticket < q[j].ticket
            },
{
    assert(tickets_ok(s0.eps@[eid as int].q@, s0.stats.calls));
    let q = s2.eps@[f as int].q@;
    lemma_oldest_in(q, QUEUE_DEPTH as int);
    assert(tickets_ok(q, s2.stats.calls));
    let i = oldest(q)->0;
    assert(s3.eps@[f as int].q@[i].state == SlotState::Delivered);
    assert forall|j: int|
        0 <= j < QUEUE_DEPTH && j != i && (#[trigger] q[j]).state
            == SlotState::Waiting implies q[i].ticket < q[j].ticket by {
        assert(in_use(q[i]) && in_use(q[j]));
    }
}

/// Badges that are signalled one after the other merge: a wait then takes
/// them all, with what was pending before, and leaves nothing pending.
pub proof fn law_badges_merge(
    s0: Ipc,
    s1: Ipc,
    s2: Ipc,
    s3: Ipc,
    nid: u32,
    a: u64,
    b: u64,
    tid: u64,
    ra: Result<Option<u64>, Status>,
    rb: Result<Option<u64>, Status>,
    r: Result<Option<u64>, Status>,
)
    requires
        s0.wf(),
        notif_live(&s0, nid),
        a != 0,
        b != 0,
        notified(&s0, &s1, nid, a, ra),
        notified(&s1, &s2, nid, b, rb),
        waited(&s2, &s3, tid, nid, r),
    ensures
        r == Ok::<Option<u64>, Status>(Some(s0.notifs@[nid as int].pending | a | b)),
        s3.notifs@[nid as int].pending == 0,
{
    let p = s0.notifs@[nid as int].pending;
    assert(p | a | b != 0) by (bit_vector)
        requires
            b != 0,
    ;
}

/// A thread that slept is woken by the next badge and takes it.
pub proof fn law_badge_wakes(
    s0: Ipc,
    s1: Ipc,
    s2: Ipc,
    s3: Ipc,
    nid: u32,
    badge: u64,
    tid: u64,
    r: Result<Option<u64>, Status>,
    end: Result<u64, &'static str>,
)
    requires
        s0.wf(),
        tid != NO_TID,
        badge != 0,
        waited(&s0, &s1, tid, nid, Ok(None)),
        notified(&s1, &s2, nid, badge, r),
        wait_finished(&s2, &s3, nid, end),
    ensures
        r == Ok::<Option<u64>, Status>(Some(tid)),
        end == Ok::<u64, &'static str>(badge),
        s3.notifs@[nid as int].pending == 0,
        s3.notifs@[nid as int].waiter == NO_TID,
{
    assert(0u64 | badge == badge) by (bit_vector);
}

/// What was signalled is taken once. Two badges that are signalled while none
/// is pending come back merged from one wait, which does not sleep; after that
/// only what is signalled later comes back.
pub proof fn law_badges_are_taken_once(
    s: Seq<Ipc>,
    nid: u32,
    a: u64,
    b: u64,
    c: u64,
    tid: u64,
    ra: Result<Option<u64>, Status>,
    rb: Result<Option<u64>, Status>,
    first: Result<Option<u64>, Status>,
    rc: Result<Option<u64>, Status>,
    second: Result<Option<u64>, Status>,
)
    requires
        s.len() == 6,
        s[0].wf(),
        notif_live(&s[0], nid),
        s[0].notifs@[nid as int].pending == 0,
        a != 0,
        b != 0,
        c != 0,
        notified(&s[0], &s[1], nid, a, ra),
        notified(&s[1], &s[2], nid, b, rb),
        waited(&s[2], &s[3], tid, nid, first),
        notified(&s[3], &s[4], nid, c, rc),
        waited(&s[4], &s[5], tid, nid, second),
    ensures
        ra is Ok,
        rb is Ok,
        first == Ok::<Option<u64>, Status>(Some(a | b)),
        rc is Ok,
        second == Ok::<Option<u64>, Status>(Some(c)),
        s[5].notifs@[nid as int].pending == 0,
{
    law_badges_merge(s[0], s[1], s[2], s[3], nid, a, b, tid, ra, rb, first);
    assert(0u64 | a | b == a | b && 0u64 | c == c) by (bit_vector);
}

/// A signal without a badge, or to a notification that is gone, is refused and
/// adds nothing.
pub proof fn law_refused_signal_adds_nothing(
    pre: Ipc,
    post: Ipc,
    nid: u32,
    badge: u64,
    r: Result<Option<u64>, Status>,
)
    requires
        notified(&pre, &post, nid, badge, r),
        badge == 0 || !notif_live(&pre, nid),
    ensures
        r == Err::<Option<u64>, Status>(STATUS_BAD_ARG),
        post.notifs == pre.notifs,
        post.eps == pre.eps,
{
}

/// Requests are served in the order of their calls, also past one another's
/// end. `A` and then `B` call an endpoint; the server receives, replies, and
/// `A` takes its reply; `C` calls, perhaps in the place that `A` left. The next
/// receive still gives the server the request of `B`, and that of `C` waits on.
#[verifier::spinoff_prover]
#[verifier::rlimit(40)]
pub proof fn law_served_in_order(
    s: Seq<Ipc>,
    t: Seq<ProcTable>,
    eid: u32,
    server: u64,
    server_pid: u64,
    a: u64,
    a_pid: u64,
    b: u64,
    c: u64,
    wa: [u64; 2],
    wb: [u64; 2],
    wc: [u64; 2],
    back: [u64; 2],
    caps: Seq<Option<Cap>>,
    pa: Posted,
    pb: Posted,
    pc: Posted,
    first: Result<Option<([u64; 2], u64)>, Status>,
    woken: Result<u64, Status>,
    end: Result<([u64; 2], u64), &'static str>,
    second: Result<Option<([u64; 2], u64)>, Status>,
)
    requires
        s.len() == 8,
        t.len() == 4,
        caps.len() == 4,
        s[0].wf(),
        s[0].stats.calls + 3 <= u64::MAX,
        called(&s[0], &s[1], a, eid, wa, caps[0], Ok(pa)),
        called(&s[1], &s[2], b, eid, wb, caps[1], Ok(pb)),
        received(&s[2], &s[3], &t[0], &t[1], server_pid, server, eid, first),
        replied(&s[3], &s[4], server, eid, back, caps[2], woken),
        call_finished(&s[4], &s[5], &t[1], &t[2], a_pid, eid, pa.slot, end),
        called(&s[5], &s[6], c, eid, wc, caps[3], Ok(pc)),
        received(&s[6], &s[7], &t[2], &t[3], server_pid, server, eid, second),
        forall|j: int|
            0 <= j < QUEUE_DEPTH ==> (#[trigger] s[0].eps@[eid as int].q@[j]).state
                != SlotState::Waiting && !(s[0].eps@[eid as int].q@[j].state == SlotState::Delivered
                && s[0].eps@[eid as int].q@[j].server == server),
    ensures
        first matches Ok(Some(g)) && g.0 == wa,
        woken == Ok::<u64, Status>(a),
        end matches Ok(g) && g.0 == back,
        second matches Ok(Some(g)) && g.0 == wb,
        s[7].eps@[eid as int].q@[pc.slot as int].state == SlotState::Waiting,
        s[7].eps@[eid as int].q@[pc.slot as int].words == wc,
{
    let e = eid as int;
    let i = pa.slot as int;
    let j = pb.slot as int;
    let k = pc.slot as int;
    let q0 = s[0].eps@[e].q@;
    let q1 = s[1].eps@[e].q@;
    let q2 = s[2].eps@[e].q@;
    let q3 = s[3].eps@[e].q@;
    let q4 = s[4].eps@[e].q@;
    let q5 = s[5].eps@[e].q@;
    let q6 = s[6].eps@[e].q@;
    lemma_first_in(q0, SlotState::Empty, 0);
    lemma_first_in(q1, SlotState::Empty, 0);
    assert(i != j);
    assert(q2[i].state == SlotState::Waiting && q2[j].state == SlotState::Waiting);
    assert(q2[i].ticket < q2[j].ticket);
    lemma_oldest_in(q2, QUEUE_DEPTH as int);
    assert(oldest(q2) == Some(i)) by {
        let w = oldest(q2)->0;
        if w != i && w != j {
            assert(q2[w] == q0[w]);
        }
    }
    lemma_first_for(q3, server, 0);
    assert(q3[i].state == SlotState::Delivered && q3[i].server == server);
    assert(first_for(q3, server, 0) == Some(i)) by {
        let w = first_for(q3, server, 0)->0;
        if w != i && w != j {
            assert(q3[w] == q0[w]);
        }
    }
    assert(q4[i].state == SlotState::Replied);
    assert(q5[j] == q2[j]);
    lemma_first_in(q5, SlotState::Empty, 0);
    assert(k != j);
    assert(s[5].stats.calls == s[0].stats.calls + 2);
    lemma_oldest_in(q6, QUEUE_DEPTH as int);
    assert(q6[j] == q2[j]);
    assert(q6[k].ticket == s[0].stats.calls + 3);
    assert(oldest(q6) == Some(j)) by {
        let w = oldest(q6)->0;
        if w != j && w != k {
            if w == i {
                assert(q6[w] == q5[w]);
            } else {
                assert(q6[w] == q0[w]);
            }
        }
    }
}

} // verus!

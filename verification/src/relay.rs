//! Interrupts that are passed on as notifications.

use vstd::prelude::*;
use crate::ipc;
use crate::ipc::Ipc;
use crate::status::Status;

verus! {

/// The first interrupt vector that is passed on, and how many there are.
pub const RELAY_VECTOR_BASE: usize = 48;
pub const RELAY_VECTOR_COUNT: usize = 16;

/// Who is told about a vector, and how often it has come.
#[derive(Clone, Copy, Debug, PartialEq, Eq, Structural)]
pub struct RelaySlot {
    pub live: bool,
    pub nid: u32,
    pub badge: u64,
    pub deliveries: u64,
}

/// One slot for each vector.
pub struct Relays {
    pub slots: Vec<RelaySlot>,
}

impl Relays {
    pub open spec fn wf(&self) -> bool {
        self.slots@.len() == RELAY_VECTOR_COUNT
    }

    /// The slot of a vector.
    pub open spec fn at(&self, vector: u64) -> RelaySlot {
        self.slots@[vector - 48]
    }

    /// Nobody is told anything.
    pub fn new() -> (r: Relays)
        ensures
            r.wf(),
            forall|i: int|
                0 <= i < RELAY_VECTOR_COUNT ==> #[trigger] r.slots@[i] == (RelaySlot {
                    live: false,
                    nid: 0,
                    badge: 0,
                    deliveries: 0,
                }),
    {
        let mut slots: Vec<RelaySlot> = Vec::new();
        let mut i: usize = 0;
        while i < RELAY_VECTOR_COUNT
            invariant
                i <= RELAY_VECTOR_COUNT,
                slots@.len() == i,
                forall|j: int|
                    0 <= j < i ==> #[trigger] slots@[j] == (RelaySlot {
                        live: false,
                        nid: 0,
                        badge: 0,
                        deliveries: 0,
                    }),
            decreases RELAY_VECTOR_COUNT - i,
        {
            slots.push(RelaySlot { live: false, nid: 0, badge: 0, deliveries: 0 });
            i = i + 1;
        }
        Relays { slots }
    }
}

/// The vector is one that is passed on.
pub open spec fn relayed(vector: u64) -> bool {
    48 <= vector < 64
}

/// Whether the vector is one that is passed on.
pub fn is_relay_vector(vector: usize) -> (r: bool)
    ensures
        r == (48 <= vector < 64),
{
    vector >= RELAY_VECTOR_BASE && vector < RELAY_VECTOR_BASE + RELAY_VECTOR_COUNT
}

fn idx(vector: u64) -> (r: Result<usize, &'static str>)
    ensures
        r == (if relayed(vector) {
            Ok::<usize, &'static str>((vector - 48) as usize)
        } else {
            Err("relay: vector outside the relay range 48..63")
        }),
{
    if vector < 48 || vector >= 64 || !is_relay_vector(vector as usize) {
        return Err("relay: vector outside the relay range 48..63");
    }
    Ok((vector - 48) as usize)
}

/// Only the slot of `vector` differs: it is now `s`.
pub open spec fn slot_set(a: &Relays, b: &Relays, vector: u64, s: RelaySlot) -> bool {
    b.slots@ == a.slots@.update(vector - 48, s)
}

/// What [`register`] answers and does.
pub open spec fn relay_registered(
    r0: &Relays,
    r1: &Relays,
    vector: u64,
    nid: u32,
    badge: u64,
    o: Result<(), &'static str>,
) -> bool {
    &&& r1.wf()
    &&& o is Err ==> *r1 == *r0
    &&& if !relayed(vector) {
        o == Err::<(), &'static str>("relay: vector outside the relay range 48..63")
    } else if badge == 0 {
        o == Err::<(), &'static str>("relay: badge must be nonzero")
    } else if r0.at(vector).live {
        o == Err::<(), &'static str>("relay: vector already registered")
    } else {
        &&& o == Ok::<(), &'static str>(())
        &&& slot_set(
            r0,
            r1,
            vector,
            RelaySlot { live: true, nid, badge, deliveries: 0 },
        )
    }
}

/// Tell notification `nid` about `vector`, with `badge`.
pub fn register(r: &mut Relays, vector: u64, nid: u32, badge: u64) -> (o: Result<(), &'static str>)
    requires
        old(r).wf(),
    ensures
        relay_registered(old(r), final(r), vector, nid, badge, o),
{
    let i: usize = match idx(vector) {
        Err(e) => {
            return Err(e);
        },
        Ok(i) => i,
    };
    if badge == 0 {
        return Err("relay: badge must be nonzero");
    }
    if r.slots[i].live {
        return Err("relay: vector already registered");
    }
    r.slots.set(i, RelaySlot { live: true, nid, badge, deliveries: 0 });
    Ok(())
}

/// What [`release`] answers and does.
pub open spec fn relay_released(
    r0: &Relays,
    r1: &Relays,
    vector: u64,
    o: Result<(), &'static str>,
) -> bool {
    &&& r1.wf()
    &&& o is Err ==> *r1 == *r0
    &&& if !relayed(vector) {
        o == Err::<(), &'static str>("relay: vector outside the relay range 48..63")
    } else if !r0.at(vector).live {
        o == Err::<(), &'static str>("relay: vector not registered")
    } else {
        &&& o == Ok::<(), &'static str>(())
        &&& slot_set(
            r0,
            r1,
            vector,
            RelaySlot {
                live: false,
                nid: 0,
                badge: 0,
                deliveries: r0.at(vector).deliveries,
            },
        )
    }
}

/// Tell nobody about `vector` any more. What was counted stays.
pub fn release(r: &mut Relays, vector: u64) -> (o: Result<(), &'static str>)
    requires
        old(r).wf(),
    ensures
        relay_released(old(r), final(r), vector, o),
{
    let i: usize = match idx(vector) {
        Err(e) => {
            return Err(e);
        },
        Ok(i) => i,
    };
    let s: RelaySlot = r.slots[i];
    if !s.live {
        return Err("relay: vector not registered");
    }
    r.slots.set(i, RelaySlot { live: false, nid: 0, badge: 0, deliveries: s.deliveries });
    Ok(())
}

/// What [`handle`] answers and does.
pub open spec fn relay_handled(
    r0: &Relays,
    r1: &Relays,
    ipc0: &Ipc,
    ipc1: &Ipc,
    vector: u64,
    o: Result<Option<u64>, Status>,
) -> bool {
    &&& r1.wf()
    &&& ipc1.wf()
    &&& if !relayed(vector) {
        &&& o == Ok::<Option<u64>, Status>(None)
        &&& *r1 == *r0
        &&& *ipc1 == *ipc0
    } else {
        let s = r0.at(vector);
        &&& slot_set(
            r0,
            r1,
            vector,
            RelaySlot { deliveries: (s.deliveries + 1) as u64, ..s },
        )
        &&& if s.live {
            ipc::notified(ipc0, ipc1, s.nid, s.badge, o)
        } else {
            o == Ok::<Option<u64>, Status>(None) && *ipc1 == *ipc0
        }
    }
}

/// The interrupt `vector` came: count it, and signal the notification that
/// is told about it. The answer is the thread that has to be woken, or
/// `Ok(None)` without one; `Err` is what the notification answered.
pub fn handle(r: &mut Relays, ipc: &mut Ipc, vector: u64) -> (o: Result<Option<u64>, Status>)
    requires
        old(r).wf(),
        old(ipc).wf(),
        old(ipc).stats.room(),
        relayed(vector) ==> old(r).at(vector).deliveries < u64::MAX,
    ensures
        relay_handled(old(r), final(r), old(ipc), final(ipc), vector, o),
{
    let i: usize = match idx(vector) {
        Err(_) => {
            return Ok(None);
        },
        Ok(i) => i,
    };
    let mut s: RelaySlot = r.slots[i];
    s.deliveries = s.deliveries + 1;
    r.slots.set(i, s);
    if !s.live {
        return Ok(None);
    }
    ipc::notify(ipc, s.nid, s.badge)
}

/// How often `vector` came since it was last registered.
pub fn delivery_count(r: &Relays, vector: u64) -> (n: u64)
    requires
        r.wf(),
    ensures
        n == (if relayed(vector) {
            r.at(vector).deliveries
        } else {
            0
        }),
{
    match idx(vector) {
        Err(_) => 0,
        Ok(i) => r.slots[i].deliveries,
    }
}

/// Whether somebody is told about `vector`.
pub fn registered(r: &Relays, vector: u64) -> (b: bool)
    requires
        r.wf(),
    ensures
        b == (relayed(vector) && r.at(vector).live),
{
    match idx(vector) {
        Err(_) => false,
        Ok(i) => r.slots[i].live,
    }
}

/// An interrupt becomes the badge it was registered with: the notification
/// has that badge pending, beside what it had.
pub proof fn law_interrupt_is_badge(
    r0: Relays,
    pre: Ipc,
    post: Ipc,
    vector: u64,
    nid: u32,
    badge: u64,
    o: Result<Option<u64>, Status>,
)
    requires
        r0.wf(),
        pre.wf(),
        relayed(vector),
        badge != 0,
        r0.at(vector).live && r0.at(vector).nid == nid && r0.at(vector).badge == badge,
        ipc::notif_live(&pre, nid),
        ipc::notified(&pre, &post, r0.at(vector).nid, r0.at(vector).badge, o),
    ensures
        o is Ok,
        post.notifs@[nid as int].pending == pre.notifs@[nid as int].pending | badge,
        forall|j: int|
            0 <= j < ipc::MAX_NOTIFS && j != nid ==> #[trigger] post.notifs@[j] == pre.notifs@[j],
{
}

} // verus!

//! Capabilities: what a process may reach, and what it may do there.
//!
//! Each process has a fixed number of slots. A capability is handed on only
//! by copying or moving it with the same rights or fewer.

use vstd::prelude::*;
use crate::frames;
use crate::frames::FrameAllocator;
use crate::kernel::Kernel;
use crate::paging;
use crate::paging::{PAGE, USER_HALF_LIMIT};
use crate::proc;
use crate::proc::{ProcTable, Process};
use crate::views;

verus! {

pub const CAP_SLOTS: usize = 16;
pub const RIGHTS_READ: u32 = 1;
pub const RIGHTS_WRITE: u32 = 2;
pub const RIGHTS_COPY: u32 = 4;
pub const RIGHTS_DESTROY: u32 = 8;
pub const RIGHTS_ALL: u32 = 15;

/// What a capability names.
#[derive(Clone, Copy, Debug, PartialEq, Eq, Structural)]
pub enum CapObj {
    /// Nothing: what an empty slot names.
    Empty,
    Process { pid: u64 },
    /// Frames that someone else owns.
    Memory { phys: u64, pages: u32 },
    Endpoint { eid: u32 },
    /// One frame that the holder owns.
    Untyped { phys: u64 },
    /// Device registers.
    Mmio { phys: u64, pages: u32 },
    Notification { nid: u32 },
    Image { img_id: u32 },
    Power,
}

/// An object and the rights to it.
#[derive(Clone, Copy, Debug, PartialEq, Eq, Structural)]
pub struct Cap {
    pub obj: CapObj,
    pub rights: u32,
}

impl Cap {
    /// What an empty slot holds.
    #[verifier::allow_in_spec]
    pub fn empty() -> (c: Cap)
        returns
            (Cap { obj: CapObj::Empty, rights: 0 }),
    {
        Cap { obj: CapObj::Empty, rights: 0 }
    }
}

/// The slots of one process.
#[derive(Clone, Copy)]
pub struct CapSpace {
    pub slots: [Cap; CAP_SLOTS],
}

/// How many of the first `n` slots hold a capability.
pub open spec fn used_below(s: Seq<Cap>, n: int) -> int
    decreases n,
{
    if n <= 0 {
        0
    } else {
        used_below(s, n - 1) + (if s[n - 1].obj is Empty {
            0int
        } else {
            1int
        })
    }
}

impl CapSpace {
    /// A space with every slot empty.
    pub fn new() -> (c: CapSpace)
        ensures
            forall|i: int| 0 <= i < CAP_SLOTS ==> #[trigger] c.slots@[i] == Cap::empty(),
    {
        let e = Cap::empty();
        CapSpace { slots: [e, e, e, e, e, e, e, e, e, e, e, e, e, e, e, e] }
    }

    /// What slot `slot` holds, if there is such a slot.
    pub fn get(&self, slot: usize) -> (r: Option<Cap>)
        ensures
            r == (if slot < CAP_SLOTS {
                Some(self.slots@[slot as int])
            } else {
                None
            }),
    {
        if slot < CAP_SLOTS {
            Some(self.slots[slot])
        } else {
            None
        }
    }

    /// How many slots hold a capability.
    pub fn used(&self) -> (r: u32)
        ensures
            r == used_below(self.slots@, CAP_SLOTS as int),
            r <= CAP_SLOTS,
    {
        let mut n: u32 = 0;
        let mut i: usize = 0;
        while i < CAP_SLOTS
            invariant
                i <= CAP_SLOTS,
                n == used_below(self.slots@, i as int),
                n <= i,
            decreases CAP_SLOTS - i,
        {
            match self.slots[i].obj {
                CapObj::Empty => {},
                _ => {
                    n = n + 1;
                },
            }
            i = i + 1;
        }
        n
    }
}

/// The slots of process `pid`, if it lives.
pub open spec fn slots_of(t: &ProcTable, pid: u64) -> Option<Seq<Cap>> {
    match proc::find(t.slots@, pid) {
        Some(i) => Some(t.slots@[i]->0.caps.slots@),
        None => None,
    }
}

/// What a slot holds, empty or not.
pub open spec fn slot_answer(t: &ProcTable, pid: u64, slot: int) -> Result<Cap, &'static str> {
    match slots_of(t, pid) {
        None => Err("cap: no such process"),
        Some(s) => if slot < CAP_SLOTS {
            Ok(s[slot])
        } else {
            Err("cap slot out of bounds")
        },
    }
}

/// The capability in a slot.
pub open spec fn read_answer(t: &ProcTable, pid: u64, slot: int) -> Result<Cap, &'static str> {
    match slot_answer(t, pid, slot) {
        Err(e) => Err(e),
        Ok(c) => if c.obj is Empty {
            Err("cap slot empty")
        } else {
            Ok(c)
        },
    }
}

/// `post` is `pre` but for slot `slot` of process `pid`, which holds `c`.
pub open spec fn slot_set(pre: &ProcTable, post: &ProcTable, pid: u64, slot: int, c: Cap) -> bool {
    match proc::find(pre.slots@, pid) {
        None => false,
        Some(i) => {
            &&& post.next_pid == pre.next_pid
            &&& post.created == pre.created
            &&& post.slots@.len() == pre.slots@.len()
            &&& forall|j: int|
                0 <= j < pre.slots@.len() && j != i ==> #[trigger] post.slots@[j] == pre.slots@[j]
            &&& post.slots@[i] matches Some(p) && {
                &&& p.same_but_caps(&pre.slots@[i]->0)
                &&& p.caps.slots@ == pre.slots@[i]->0.caps.slots@.update(slot, c)
            }
        },
    }
}

/// The capability in slot `slot` of process `pid`.
pub fn read(t: &ProcTable, pid: u64, slot: usize) -> (r: Result<Cap, &'static str>)
    requires
        t.wf(),
    ensures
        r == read_answer(t, pid, slot as int),
{
    let c: Cap = match read_or_empty(t, pid, slot) {
        Err(e) => {
            return Err(e);
        },
        Ok(c) => c,
    };
    match c.obj {
        CapObj::Empty => Err("cap slot empty"),
        _ => Ok(c),
    }
}

/// How many slots of `pid` hold a capability, and how many there are.
pub fn occupancy(t: &ProcTable, pid: u64) -> (r: Option<(u32, u32)>)
    requires
        t.wf(),
    ensures
        r == (match slots_of(t, pid) {
            Some(s) => Some((used_below(s, CAP_SLOTS as int) as u32, CAP_SLOTS as u32)),
            None => None,
        }),
{
    match proc::lookup(t, pid) {
        None => None,
        Some(i) => match t.slots[i] {
            None => None,
            Some(p) => Some((p.caps.used(), CAP_SLOTS as u32)),
        },
    }
}

/// The first empty slot is `k`.
pub open spec fn first_empty(s: Seq<Cap>, k: int) -> bool {
    &&& 0 <= k < s.len()
    &&& s[k].obj is Empty
    &&& forall|j: int| 0 <= j < k ==> !((#[trigger] s[j]).obj is Empty)
}

/// What [`grant`] answers and does.
pub open spec fn granted(
    t0: &ProcTable,
    t1: &ProcTable,
    pid: u64,
    cap: Cap,
    r: Result<usize, &'static str>,
) -> bool {
    &&& t1.wf()
    &&& r is Err ==> *t1 == *t0
    &&& match slots_of(t0, pid) {
        _ if cap.obj is Empty => r == Err::<usize, &'static str>(
            "grant: cannot grant an empty cap",
        ),
        None => r == Err::<usize, &'static str>("grant: no such process"),
        Some(s) => match r {
            Ok(k) => first_empty(s, k as int) && slot_set(t0, t1, pid, k as int, cap),
            Err(e) => e == "capability space full (CAP_SLOTS)" && forall|j: int|
                0 <= j < CAP_SLOTS ==> !((#[trigger] s[j]).obj is Empty),
        },
    }
}

/// Put a capability into the first empty slot of `pid`. This is the kernel's
/// own way; it asks for no rights.
pub fn grant(t: &mut ProcTable, pid: u64, cap: Cap) -> (r: Result<usize, &'static str>)
    requires
        old(t).wf(),
    ensures
        granted(old(t), final(t), pid, cap, r),
{
    match cap.obj {
        CapObj::Empty => {
            return Err("grant: cannot grant an empty cap");
        },
        _ => {},
    }
    let i: usize = match proc::lookup(t, pid) {
        None => {
            return Err("grant: no such process");
        },
        Some(i) => i,
    };
    let space: CapSpace = match t.slots[i] {
        None => {
            return Err("grant: no such process");
        },
        Some(p) => p.caps,
    };
    let mut k: usize = 0;
    while k < CAP_SLOTS
        invariant
            k <= CAP_SLOTS,
            t.wf(),
            *t == *old(t),
            !(cap.obj is Empty),
            proc::find(t.slots@, pid) == Some(i as int),
            i < t.slots@.len(),
            t.slots@[i as int] is Some,
            t.slots@[i as int]->0.id == pid,
            space == t.slots@[i as int]->0.caps,
            forall|j: int| 0 <= j < k ==> !((#[trigger] space.slots@[j]).obj is Empty),
        decreases CAP_SLOTS - k,
    {
        let empty: bool = match space.slots[k].obj {
            CapObj::Empty => true,
            _ => false,
        };
        if empty {
            set_slot(t, i, k, cap);
            return Ok(k);
        }
        k = k + 1;
    }
    Err("capability space full (CAP_SLOTS)")
}

/// Write slot `slot` of the process in entry `i`.
fn set_slot(t: &mut ProcTable, i: usize, slot: usize, cap: Cap)
    requires
        old(t).wf(),
        i < old(t).slots@.len(),
        old(t).slots@[i as int] is Some,
        slot < CAP_SLOTS,
    ensures
        final(t).wf(),
        slot_set(old(t), final(t), old(t).slots@[i as int]->0.id, slot as int, cap),
{
    let ghost pid = t.slots@[i as int]->0.id;
    proof {
        proc::lemma_find(t.slots@, pid, i as int);
    }
    if let Some(p) = t.slots[i] {
        let mut p1: Process = p;
        p1.caps.slots[slot] = cap;
        t.slots.set(i, Some(p1));
    }
}

/// What moving a capability answers.
pub open spec fn move_answer(
    t: &ProcTable,
    src_pid: u64,
    src_slot: int,
    dst_pid: u64,
    dst_slot: int,
    rights: u32,
) -> Result<Cap, &'static str> {
    match read_answer(t, src_pid, src_slot) {
        Err(e) => Err(e),
        Ok(src) => if src.rights & RIGHTS_COPY == 0 {
            Err("cap copy: source lacks the COPY right")
        } else if rights & !src.rights != 0 {
            Err("cap copy: rights amplification refused")
        } else {
            match slot_answer(t, dst_pid, dst_slot) {
                Err(e) => Err(e),
                Ok(dst) => if !(dst.obj is Empty) {
                    Err("cap copy: destination slot occupied")
                } else {
                    Ok(Cap { obj: src.obj, rights })
                },
            }
        },
    }
}

/// What copying a capability answers: what moving it would, except that an
/// owned frame is never copied, for it has one owner.
pub open spec fn copy_answer(
    t: &ProcTable,
    src_pid: u64,
    src_slot: int,
    dst_pid: u64,
    dst_slot: int,
    rights: u32,
) -> Result<Cap, &'static str> {
    match read_answer(t, src_pid, src_slot) {
        Ok(src) if src.obj is Untyped => Err("cap copy: an untyped frame has one owner"),
        _ => move_answer(t, src_pid, src_slot, dst_pid, dst_slot, rights),
    }
}

/// Put a capability, with `rights` out of its own, into an empty slot.
fn hand_on(
    t: &mut ProcTable,
    src_pid: u64,
    src_slot: usize,
    dst_pid: u64,
    dst_slot: usize,
    rights: u32,
) -> (r: Result<(), &'static str>)
    requires
        old(t).wf(),
    ensures
        final(t).wf(),
        match move_answer(
            old(t),
            src_pid,
            src_slot as int,
            dst_pid,
            dst_slot as int,
            rights,
        ) {
            Err(e) => r == Err::<(), &'static str>(e) && *final(t) == *old(t),
            Ok(c) => r == Ok::<(), &'static str>(()) && slot_set(
                old(t),
                final(t),
                dst_pid,
                dst_slot as int,
                c,
            ),
        },
{
    let src: Cap = match read(t, src_pid, src_slot) {
        Err(e) => {
            return Err(e);
        },
        Ok(c) => c,
    };
    if src.rights & RIGHTS_COPY == 0 {
        return Err("cap copy: source lacks the COPY right");
    }
    if rights & !src.rights != 0 {
        return Err("cap copy: rights amplification refused");
    }
    let dst: Cap = match read_or_empty(t, dst_pid, dst_slot) {
        Err(e) => {
            return Err(e);
        },
        Ok(c) => c,
    };
    match dst.obj {
        CapObj::Empty => {},
        _ => {
            return Err("cap copy: destination slot occupied");
        },
    }
    install(t, dst_pid, dst_slot, Cap { obj: src.obj, rights })
}

/// What [`copy`] answers and does.
pub open spec fn copied(
    t0: &ProcTable,
    t1: &ProcTable,
    src_pid: u64,
    src_slot: usize,
    dst_pid: u64,
    dst_slot: usize,
    rights: u32,
    r: Result<(), &'static str>,
) -> bool {
    &&& t1.wf()
    &&& match copy_answer(
        t0,
        src_pid,
        src_slot as int,
        dst_pid,
        dst_slot as int,
        rights,
    ) {
        Err(e) => r == Err::<(), &'static str>(e) && *t1 == *t0,
        Ok(c) => r == Ok::<(), &'static str>(()) && slot_set(
            t0,
            t1,
            dst_pid,
            dst_slot as int,
            c,
        ),
    }
}

/// Copy a capability into an empty slot, with `rights` out of its own. An owned
/// frame is refused: it can only be moved.
pub fn copy(
    t: &mut ProcTable,
    src_pid: u64,
    src_slot: usize,
    dst_pid: u64,
    dst_slot: usize,
    rights: u32,
) -> (r: Result<(), &'static str>)
    requires
        old(t).wf(),
    ensures
        copied(old(t), final(t), src_pid, src_slot, dst_pid, dst_slot, rights, r),
{
    if let Ok(src) = read(t, src_pid, src_slot) {
        match src.obj {
            CapObj::Untyped { .. } => {
                return Err("cap copy: an untyped frame has one owner");
            },
            _ => {},
        }
    }
    hand_on(t, src_pid, src_slot, dst_pid, dst_slot, rights)
}

/// What [`move_cap`] answers and does.
pub open spec fn moved(
    t0: &ProcTable,
    t1: &ProcTable,
    src_pid: u64,
    src_slot: usize,
    dst_pid: u64,
    dst_slot: usize,
    rights: u32,
    r: Result<(), &'static str>,
) -> bool {
    &&& t1.wf()
    &&& match move_answer(
        t0,
        src_pid,
        src_slot as int,
        dst_pid,
        dst_slot as int,
        rights,
    ) {
        Err(e) => r == Err::<(), &'static str>(e) && *t1 == *t0,
        Ok(c) => r == Ok::<(), &'static str>(()) && exists|mid: ProcTable|
            {
                &&& #[trigger] mid.wf()
                &&& slot_set(t0, &mid, dst_pid, dst_slot as int, c)
                &&& slot_set(&mid, t1, src_pid, src_slot as int, Cap::empty())
            },
    }
}

/// Move a capability: put it into the empty slot, then empty the source.
pub fn move_cap(
    t: &mut ProcTable,
    src_pid: u64,
    src_slot: usize,
    dst_pid: u64,
    dst_slot: usize,
    rights: u32,
) -> (r: Result<(), &'static str>)
    requires
        old(t).wf(),
    ensures
        moved(old(t), final(t), src_pid, src_slot, dst_pid, dst_slot, rights, r),
{
    match hand_on(t, src_pid, src_slot, dst_pid, dst_slot, rights) {
        Err(e) => Err(e),
        Ok(_) => {
            let ghost mid = *t;
            proof {
                lemma_set_keeps(
                    old(t),
                    &mid,
                    dst_pid,
                    dst_slot as int,
                    mid.slots@[proc::find(mid.slots@, dst_pid)->0]->0.caps.slots@[dst_slot as int],
                    src_pid,
                );
            }
            let r = install(t, src_pid, src_slot, Cap::empty());
            assert(mid.wf());
            r
        },
    }
}

/// Writing a slot leaves every process findable where it was.
pub proof fn lemma_set_keeps(
    pre: &ProcTable,
    post: &ProcTable,
    pid: u64,
    slot: int,
    c: Cap,
    other: u64,
)
    requires
        pre.wf(),
        exists|d: Cap| slot_set(pre, post, pid, slot, d),
    ensures
        proc::find(post.slots@, other) == proc::find(pre.slots@, other),
{
    let d = choose|d: Cap| slot_set(pre, post, pid, slot, d);
    proc::lemma_find_bounds(pre.slots@, pid);
    proc::lemma_find_same(pre.slots@, post.slots@, other);
}

/// What [`issue`] answers and does.
pub open spec fn issued(
    t0: &ProcTable,
    t1: &ProcTable,
    pid: u64,
    slot: usize,
    cap: Cap,
    r: Result<(), &'static str>,
) -> bool {
    &&& t1.wf()
    &&& if read_answer(t0, pid, slot as int) is Ok {
        r == Err::<(), &'static str>("cap issue: slot occupied") && *t1 == *t0
    } else {
        match slot_answer(t0, pid, slot as int) {
            Err(e) => r == Err::<(), &'static str>(e) && *t1 == *t0,
            Ok(_) => r == Ok::<(), &'static str>(()) && slot_set(
                t0,
                t1,
                pid,
                slot as int,
                cap,
            ),
        }
    }
}

/// Put a capability into a slot that is not occupied.
pub fn issue(t: &mut ProcTable, pid: u64, slot: usize, cap: Cap) -> (r: Result<(), &'static str>)
    requires
        old(t).wf(),
    ensures
        issued(old(t), final(t), pid, slot, cap, r),
{
    if read(t, pid, slot).is_ok() {
        return Err("cap issue: slot occupied");
    }
    install(t, pid, slot, cap)
}

/// What [`consume`] answers and does.
pub open spec fn consumed(
    t0: &ProcTable,
    t1: &ProcTable,
    pid: u64,
    slot: usize,
    r: Result<(), &'static str>,
) -> bool {
    &&& t1.wf()
    &&& match slot_answer(t0, pid, slot as int) {
        Err(e) => r == Err::<(), &'static str>(e) && *t1 == *t0,
        Ok(_) => r == Ok::<(), &'static str>(()) && slot_set(
            t0,
            t1,
            pid,
            slot as int,
            Cap::empty(),
        ),
    }
}

/// Empty a slot.
pub fn consume(t: &mut ProcTable, pid: u64, slot: usize) -> (r: Result<(), &'static str>)
    requires
        old(t).wf(),
    ensures
        consumed(old(t), final(t), pid, slot, r),
{
    install(t, pid, slot, Cap::empty())
}

/// What [`destroy`] answers and does.
pub open spec fn cap_destroyed(
    t0: &ProcTable,
    t1: &ProcTable,
    fa0: &FrameAllocator,
    fa1: &FrameAllocator,
    pid: u64,
    slot: usize,
    r: Result<(), &'static str>,
) -> bool {
    &&& t1.wf()
    &&& fa1.wf()
    &&& fa1.same_pool(fa0)
    &&& match read_answer(t0, pid, slot as int) {
        Err(e) => r == Err::<(), &'static str>(e) && *t1 == *t0 && *fa1 == *fa0,
        Ok(c) => if c.rights & RIGHTS_DESTROY == 0 {
            &&& r == Err::<(), &'static str>("cap destroy: cap lacks the DESTROY right")
            &&& *t1 == *t0
            &&& *fa1 == *fa0
        } else {
            match c.obj {
                CapObj::Untyped { phys } => if frames::free_answer(
                    fa0,
                    phys as int,
                ) is Err {
                    &&& r == Err::<(), &'static str>("cap destroy: untyped frame free refused")
                    &&& *t1 == *t0
                    &&& *fa1 == *fa0
                } else {
                    &&& r == Ok::<(), &'static str>(())
                    &&& slot_set(t0, t1, pid, slot as int, Cap::empty())
                    &&& frames::gave_back(fa0, fa1, phys as int)
                },
                _ => {
                    &&& r == Ok::<(), &'static str>(())
                    &&& slot_set(t0, t1, pid, slot as int, Cap::empty())
                    &&& *fa1 == *fa0
                },
            }
        },
    }
}

/// Destroy a capability. An untyped frame goes back to the pool; if the pool
/// refuses it, the capability stays.
pub fn destroy(t: &mut ProcTable, fa: &mut FrameAllocator, pid: u64, slot: usize) -> (r: Result<
    (),
    &'static str,
>)
    requires
        old(t).wf(),
        old(fa).wf(),
    ensures
        cap_destroyed(old(t), final(t), old(fa), final(fa), pid, slot, r),
{
    let c: Cap = match read(t, pid, slot) {
        Err(e) => {
            return Err(e);
        },
        Ok(c) => c,
    };
    if c.rights & RIGHTS_DESTROY == 0 {
        return Err("cap destroy: cap lacks the DESTROY right");
    }
    if let CapObj::Untyped { phys } = c.obj {
        match frames::free(fa, phys) {
            Err(_) => {
                return Err("cap destroy: untyped frame free refused");
            },
            Ok(_) => {},
        }
    }
    install(t, pid, slot, Cap::empty())
}

/// The answer to asking for the root behind a process capability.
pub open spec fn root_answer(t: &ProcTable, pid: u64, slot: int) -> Result<u64, &'static str> {
    match read_answer(t, pid, slot) {
        Err(e) => Err(e),
        Ok(c) => match c.obj {
            CapObj::Process { pid: target } => if c.rights & RIGHTS_READ == 0 {
                Err("process_root: cap lacks the READ right")
            } else {
                match proc::find(t.slots@, target) {
                    Some(i) => Ok(t.slots@[i]->0.pml4_phys),
                    None => Err("process_root: target process is dead (cap dangles)"),
                }
            },
            _ => Err("process_root: cap does not name a process"),
        },
    }
}

/// The root of the process that a capability names.
pub fn process_root(t: &ProcTable, pid: u64, slot: usize) -> (r: Result<u64, &'static str>)
    requires
        t.wf(),
    ensures
        r == root_answer(t, pid, slot as int),
{
    let c: Cap = match read(t, pid, slot) {
        Err(e) => {
            return Err(e);
        },
        Ok(c) => c,
    };
    if let CapObj::Process { pid: target } = c.obj {
        if c.rights & RIGHTS_READ == 0 {
            return Err("process_root: cap lacks the READ right");
        }
        match proc::pml4_of(t, target) {
            Some(root) => Ok(root),
            None => Err("process_root: target process is dead (cap dangles)"),
        }
    } else {
        Err("process_root: cap does not name a process")
    }
}

/// What a slot holds, empty or not.
fn read_or_empty(t: &ProcTable, pid: u64, slot: usize) -> (r: Result<Cap, &'static str>)
    requires
        t.wf(),
    ensures
        r == slot_answer(t, pid, slot as int),
{
    let i: usize = match proc::lookup(t, pid) {
        None => {
            return Err("cap: no such process");
        },
        Some(i) => i,
    };
    match t.slots[i] {
        None => Err("cap: no such process"),
        Some(p) => match p.caps.get(slot) {
            Some(c) => Ok(c),
            None => Err("cap slot out of bounds"),
        },
    }
}

/// Write a slot.
fn install(t: &mut ProcTable, pid: u64, slot: usize, cap: Cap) -> (r: Result<(), &'static str>)
    requires
        old(t).wf(),
    ensures
        final(t).wf(),
        match slot_answer(old(t), pid, slot as int) {
            Err(e) => r == Err::<(), &'static str>(e) && *final(t) == *old(t),
            Ok(_) => r == Ok::<(), &'static str>(()) && slot_set(
                old(t),
                final(t),
                pid,
                slot as int,
                cap,
            ),
        },
{
    let i: usize = match proc::lookup(t, pid) {
        None => {
            return Err("cap: no such process");
        },
        Some(i) => i,
    };
    if slot >= CAP_SLOTS {
        return Err("cap slot out of bounds");
    }
    set_slot(t, i, slot, cap);
    Ok(())
}

/// A request to map memory, once every gate has let it pass.
pub struct MapGrant {
    pub root: u64,
    pub phys: u64,
    pub pages: u32,
    pub owned: bool,
}

/// The gates that a request to map memory has to pass, in order.
pub open spec fn map_gates(
    t: &ProcTable,
    pid: u64,
    mem_slot: int,
    proc_slot: int,
    va: u64,
    write: bool,
    exec: bool,
) -> Result<MapGrant, &'static str> {
    match read_answer(t, pid, mem_slot) {
        Err(e) => Err(e),
        Ok(mem) => match mem_range(mem.obj) {
            None => Err("map_memory: memory slot does not name a memory cap"),
            Some((phys, pages, owned)) => if write && mem.rights & RIGHTS_WRITE == 0 {
                Err("map_memory: memory cap lacks the WRITE right")
            } else if !write && mem.rights & RIGHTS_READ == 0 {
                Err("map_memory: memory cap lacks the READ right")
            } else if owned && mem.rights & RIGHTS_DESTROY == 0 {
                Err("map_memory: untyped map consumes the cap — DESTROY required")
            } else if exec && (owned || mem.obj is Mmio) {
                Err("map_memory: untyped/mmio windows are never executable")
            } else {
                match read_answer(t, pid, proc_slot) {
                    Err(e) => Err(e),
                    Ok(target) => match target.obj {
                        CapObj::Process { pid: who } => if target.rights & RIGHTS_WRITE == 0 {
                            Err("map_memory: process cap lacks the WRITE right")
                        } else {
                            match proc::find(t.slots@, who) {
                                None => Err("map_memory: target process is dead (cap dangles)"),
                                Some(i) => if pages == 0 {
                                    Err("map_memory: memory cap covers no pages")
                                } else if va % 4096 != 0 || phys % 4096 != 0 {
                                    Err("map_memory: unaligned va or phys")
                                } else if va + pages * 4096 > u64::MAX {
                                    Err("map_memory: va span overflows")
                                } else if va + pages * 4096 > USER_HALF_LIMIT {
                                    Err("map_memory: va span reaches the kernel half")
                                } else {
                                    Ok(
                                        MapGrant {
                                            root: t.slots@[i]->0.pml4_phys,
                                            phys,
                                            pages,
                                            owned,
                                        },
                                    )
                                },
                            }
                        },
                        _ => Err("map_memory: process slot does not name a process cap"),
                    },
                }
            },
        },
    }
}

/// The frames that a capability names, and whether its holder owns them.
pub open spec fn mem_range(obj: CapObj) -> Option<(u64, u32, bool)> {
    match obj {
        CapObj::Memory { phys, pages } => Some((phys, pages, false)),
        CapObj::Mmio { phys, pages } => Some((phys, pages, false)),
        CapObj::Untyped { phys } => Some((phys, 1, true)),
        _ => None,
    }
}

/// `m` with `n` user pages from `va` on mapped to the frames from `phys` on.
pub open spec fn with_user_run(
    m: Map<int, u64>,
    va: int,
    phys: int,
    n: int,
    write: bool,
    exec: bool,
) -> Map<int, u64> {
    let v0 = va / 4096;
    Map::new(
        |v: int| m.dom().contains(v) || v0 <= v < v0 + n,
        |v: int| if v0 <= v < v0 + n {
            paging::user_entry((phys + (v - v0) * 4096) as u64, write, exec)
        } else {
            m[v]
        },
    )
}

/// The `n` user pages from `va` on have 4 KiB entries that name the frames from
/// `phys` on.
pub open spec fn run_entries(
    words: Seq<u64>,
    root: int,
    va: int,
    phys: int,
    n: int,
    write: bool,
    exec: bool,
) -> bool {
    forall|v: int|
        va / 4096 <= v < va / 4096 + n ==> #[trigger] paging::pte_at(words, root, v) == Some(
            paging::user_entry((phys + (v - va / 4096) * 4096) as u64, write, exec),
        )
}

/// Check the gates of a request to map memory.
fn check_map(
    t: &ProcTable,
    pid: u64,
    mem_slot: usize,
    proc_slot: usize,
    va: u64,
    writable: bool,
    exec: bool,
) -> (r: Result<MapGrant, &'static str>)
    requires
        t.wf(),
    ensures
        r == map_gates(t, pid, mem_slot as int, proc_slot as int, va, writable, exec),
{
    let mem: Cap = match read(t, pid, mem_slot) {
        Err(e) => {
            return Err(e);
        },
        Ok(c) => c,
    };
    let (phys, pages, owned): (u64, u32, bool) = match mem.obj {
        CapObj::Memory { phys, pages } => (phys, pages, false),
        CapObj::Mmio { phys, pages } => (phys, pages, false),
        CapObj::Untyped { phys } => (phys, 1, true),
        _ => {
            return Err("map_memory: memory slot does not name a memory cap");
        },
    };
    if writable {
        if mem.rights & RIGHTS_WRITE == 0 {
            return Err("map_memory: memory cap lacks the WRITE right");
        }
    } else if mem.rights & RIGHTS_READ == 0 {
        return Err("map_memory: memory cap lacks the READ right");
    }
    if owned {
        if mem.rights & RIGHTS_DESTROY == 0 {
            return Err("map_memory: untyped map consumes the cap — DESTROY required");
        }
        if exec {
            return Err("map_memory: untyped/mmio windows are never executable");
        }
    }
    if exec {
        if let CapObj::Mmio { phys: _, pages: _ } = mem.obj {
            return Err("map_memory: untyped/mmio windows are never executable");
        }
    }
    let target: Cap = match read(t, pid, proc_slot) {
        Err(e) => {
            return Err(e);
        },
        Ok(c) => c,
    };
    let who: u64 = match target.obj {
        CapObj::Process { pid: who } => who,
        _ => {
            return Err("map_memory: process slot does not name a process cap");
        },
    };
    if target.rights & RIGHTS_WRITE == 0 {
        return Err("map_memory: process cap lacks the WRITE right");
    }
    let root: u64 = match proc::pml4_of(t, who) {
        None => {
            return Err("map_memory: target process is dead (cap dangles)");
        },
        Some(root) => root,
    };
    if pages == 0 {
        return Err("map_memory: memory cap covers no pages");
    }
    let span: u64 = pages as u64 * PAGE;
    if va % PAGE != 0 || phys % PAGE != 0 {
        return Err("map_memory: unaligned va or phys");
    }
    let va_end: u64 = match va.checked_add(span) {
        None => {
            return Err("map_memory: va span overflows");
        },
        Some(e) => e,
    };
    if va_end > USER_HALF_LIMIT {
        return Err("map_memory: va span reaches the kernel half");
    }
    Ok(MapGrant { root, phys, pages, owned })
}

/// What [`map_memory`] answers and does.
pub open spec fn memory_mapped(
    k0: &Kernel,
    k1: &Kernel,
    pid: u64,
    mem_slot: usize,
    proc_slot: usize,
    va: u64,
    writable: bool,
    exec: bool,
    r: Result<(), &'static str>,
) -> bool {
    &&& k1.wf()
    &&& match map_gates(
        &k0.procs,
        pid,
        mem_slot as int,
        proc_slot as int,
        va,
        writable,
        exec,
    ) {
        Err(e) => r == Err::<(), &'static str>(e) && *k1 == *k0,
        Ok(g) => if writable && exec {
            &&& r == Err::<(), &'static str>("map_memory: page mapping refused")
            &&& *k1 == *k0
        } else {
            &&& views::edited(
                &k0.pg.mem,
                &k0.fa,
                &k1.pg.mem,
                &k1.fa,
                g.root as int,
            )
            &&& paging::grown_for(
                &k0.pg.mem,
                &k0.fa,
                &k1.pg.mem,
                &k1.fa,
                g.root as int,
            )
            &&& k1.pg.kernel_root == k0.pg.kernel_root
            &&& k1.pg.live_root == k0.pg.live_root
            &&& k1.pg.apic_base == k0.pg.apic_base
            &&& k1.pg.skipped_high == k0.pg.skipped_high
            &&& r is Ok == (proc::run_need(
                k0,
                g.root as int,
                va as int / 4096,
                g.pages as int,
            ) <= k0.fa.available())
            &&& r is Ok ==> paging::frames_spent(
                &k0.fa,
                &k1.fa,
                proc::run_need(k0, g.root as int, va as int / 4096, g.pages as int),
            )
            &&& g.pages == 1 ==> {
                &&& r is Ok == paging::can_take(
                    &k0.fa,
                    paging::missing(k0.pg.mem.words@, g.root as int, va as int / 4096),
                )
                &&& r is Ok ==> paging::mapped(
                    &k0.pg.mem,
                    &k0.fa,
                    &k1.pg.mem,
                    &k1.fa,
                    g.root as int,
                    va as int / 4096,
                    paging::user_entry(g.phys, writable, exec),
                )
            }
            &&& match r {
                Ok(_) => {
                    &&& views::view(k1.pg.mem.words@, g.root as int) == with_user_run(
                        views::view(k0.pg.mem.words@, g.root as int),
                        va as int,
                        g.phys as int,
                        g.pages as int,
                        writable,
                        exec,
                    )
                    &&& run_entries(
                        k1.pg.mem.words@,
                        g.root as int,
                        va as int,
                        g.phys as int,
                        g.pages as int,
                        writable,
                        exec,
                    )
                    &&& g.owned ==> slot_set(
                        &k0.procs,
                        &k1.procs,
                        pid,
                        mem_slot as int,
                        Cap::empty(),
                    )
                    &&& !g.owned ==> k1.procs == k0.procs
                },
                Err(e) => {
                    &&& e == "frames exhausted (window map)"
                    &&& k1.fa.available() == 0
                    &&& k1.procs == k0.procs
                    &&& exists|n: int|
                        0 <= n < g.pages && views::view(
                            k1.pg.mem.words@,
                            g.root as int,
                        ) == #[trigger] with_user_run(
                            views::view(k0.pg.mem.words@, g.root as int),
                            va as int,
                            g.phys as int,
                            n,
                            writable,
                            exec,
                        ) && run_entries(
                            k1.pg.mem.words@,
                            g.root as int,
                            va as int,
                            g.phys as int,
                            n,
                            writable,
                            exec,
                        ) && proc::run_broke(k0, g.root as int, va as int / 4096, n)
                },
            }
        },
    }
}

/// Map the frames of a memory capability into the process of a process
/// capability. An untyped capability is used up by it. The last error means
/// that the frames ran out under the tables; the kernel stops on it.
pub fn map_memory(
    k: &mut Kernel,
    pid: u64,
    mem_slot: usize,
    proc_slot: usize,
    va: u64,
    writable: bool,
    exec: bool,
) -> (r: Result<(), &'static str>)
    requires
        old(k).wf(),
        !(writable && exec) ==> (map_gates(
            &old(k).procs,
            pid,
            mem_slot as int,
            proc_slot as int,
            va,
            writable,
            exec,
        ) matches Ok(g) ==> g.phys + g.pages * 4096 <= u64::MAX),
    ensures
        memory_mapped(old(k), final(k), pid, mem_slot, proc_slot, va, writable, exec, r),
{
    let g: MapGrant = match check_map(&k.procs, pid, mem_slot, proc_slot, va, writable, exec) {
        Err(e) => {
            return Err(e);
        },
        Ok(g) => g,
    };
    if writable && exec {
        return Err("map_memory: page mapping refused");
    }
    proof {
        let who = read_answer(&k.procs, pid, proc_slot as int)->Ok_0.obj->pid;
        proc::lemma_find_bounds(k.procs.slots@, who);
        let i = proc::find(k.procs.slots@, who)->0;
        assert(k.procs.slots@[i] is Some);
    }
    let done: bool = proc::map_user_run(k, g.root, va, g.phys, g.pages as u64, writable, exec);
    if !done {
        return Err("frames exhausted (window map)");
    }
    if g.owned {
        let r = install(&mut k.procs, pid, mem_slot, Cap::empty());
        proof {
            lemma_slot_set_kernel(old(k), k, pid, mem_slot as int, Cap::empty());
        }
        return r;
    }
    Ok(())
}

/// Writing a slot keeps the kernel in order.
proof fn lemma_slot_set_kernel(pre: &Kernel, post: &Kernel, pid: u64, slot: int, c: Cap)
    requires
        post.procs.wf(),
        post.fa.ready,
        post.pg.wf(&post.fa),
        post.pg.kernel_built(),
        slot_set(&pre.procs, &post.procs, pid, slot, c),
        pre.wf(),
        post.pg.kernel_root == pre.pg.kernel_root,
        paging::seats_kept(&pre.pg.mem, &post.pg.mem),
    ensures
        post.wf(),
{
    let i = proc::find(pre.procs.slots@, pid)->0;
    proc::lemma_find_bounds(pre.procs.slots@, pid);
    assert forall|j: int|
        0 <= j < post.procs.slots@.len() && #[trigger] post.procs.slots@[j] is Some implies {
        &&& pre.procs.slots@[j] is Some
        &&& pre.procs.slots@[j]->0.pml4_phys == post.procs.slots@[j]->0.pml4_phys
    } by {
        if j != i {
            assert(post.procs.slots@[j] == pre.procs.slots@[j]);
        }
    }
    assert forall|j: int|
        0 <= j < post.procs.slots@.len() && #[trigger] post.procs.slots@[j] is Some implies views::process_root(
        &post.pg.mem,
        post.pg.kernel_root as int,
        post.procs.slots@[j]->0.pml4_phys as int,
    ) by {
        assert(pre.procs.slots@[j] is Some);
        let root = pre.procs.slots@[j]->0.pml4_phys as int;
        assert(views::process_root(&pre.pg.mem, pre.pg.kernel_root as int, root));
        assert(pre.pg.mem.seats@.dom().contains(root));
    }
}

/// A copy never carries a right that its source does not have, names the same
/// object, and leaves the source where it was.
pub proof fn law_copy_attenuates(
    pre: ProcTable,
    post: ProcTable,
    src_pid: u64,
    src_slot: int,
    dst_pid: u64,
    dst_slot: int,
    rights: u32,
)
    requires
        pre.wf(),
        post.wf(),
        0 <= src_slot,
        0 <= dst_slot,
        copy_answer(&pre, src_pid, src_slot, dst_pid, dst_slot, rights) matches Ok(c) && slot_set(
            &pre,
            &post,
            dst_pid,
            dst_slot,
            c,
        ),
    ensures
        ({
            let src = read_answer(&pre, src_pid, src_slot)->Ok_0;
            let dst = slot_answer(&post, dst_pid, dst_slot)->Ok_0;
            &&& dst.obj == src.obj
            &&& dst.rights == rights
            &&& dst.rights & src.rights == dst.rights
            &&& read_answer(&post, src_pid, src_slot) == read_answer(&pre, src_pid, src_slot)
        }),
{
    let src = read_answer(&pre, src_pid, src_slot)->Ok_0;
    let c = copy_answer(&pre, src_pid, src_slot, dst_pid, dst_slot, rights)->Ok_0;
    let sr = src.rights;
    assert(rights & !sr == 0 ==> rights & sr == rights) by (bit_vector);
    assert(slot_set(&pre, &post, dst_pid, dst_slot, c));
    lemma_set_keeps(&pre, &post, dst_pid, dst_slot, c, src_pid);
    lemma_set_keeps(&pre, &post, dst_pid, dst_slot, c, dst_pid);
    proc::lemma_find_bounds(pre.slots@, dst_pid);
    proc::lemma_find_bounds(pre.slots@, src_pid);
}

/// Writing a slot of one process changes no slot of another, and no other
/// slot of the same.
pub proof fn law_spaces_are_apart(
    pre: ProcTable,
    post: ProcTable,
    pid: u64,
    slot: int,
    c: Cap,
    other_pid: u64,
    other_slot: int,
)
    requires
        pre.wf(),
        post.wf(),
        0 <= slot < CAP_SLOTS,
        0 <= other_slot,
        slot_set(&pre, &post, pid, slot, c),
        other_pid != pid || other_slot != slot,
    ensures
        slot_answer(&post, other_pid, other_slot) == slot_answer(&pre, other_pid, other_slot),
        slot_answer(&post, pid, slot) == Ok::<Cap, &'static str>(c),
{
    lemma_set_keeps(&pre, &post, pid, slot, c, other_pid);
    lemma_set_keeps(&pre, &post, pid, slot, c, pid);
    proc::lemma_find_bounds(pre.slots@, pid);
    proc::lemma_find_bounds(pre.slots@, other_pid);
}

/// A capability that was destroyed is gone: its slot reads as empty, and
/// destroying it again is refused.
pub proof fn law_destroyed_is_gone(pre: ProcTable, post: ProcTable, pid: u64, slot: int)
    requires
        pre.wf(),
        post.wf(),
        0 <= slot < CAP_SLOTS,
        slot_set(&pre, &post, pid, slot, Cap::empty()),
    ensures
        read_answer(&post, pid, slot) == Err::<Cap, &'static str>("cap slot empty"),
{
    lemma_set_keeps(&pre, &post, pid, slot, Cap::empty(), pid);
    proc::lemma_find_bounds(pre.slots@, pid);
}

/// After a move the destination has the capability and the source slot is
/// empty, unless both are the same slot.
pub proof fn law_move_leaves_one(
    pre: ProcTable,
    mid: ProcTable,
    post: ProcTable,
    src_pid: u64,
    src_slot: int,
    dst_pid: u64,
    dst_slot: int,
    c: Cap,
)
    requires
        pre.wf(),
        mid.wf(),
        post.wf(),
        0 <= src_slot < CAP_SLOTS,
        0 <= dst_slot < CAP_SLOTS,
        src_pid != dst_pid || src_slot != dst_slot,
        slot_set(&pre, &mid, dst_pid, dst_slot, c),
        slot_set(&mid, &post, src_pid, src_slot, Cap::empty()),
    ensures
        slot_answer(&post, dst_pid, dst_slot) == Ok::<Cap, &'static str>(c),
        read_answer(&post, src_pid, src_slot) == Err::<Cap, &'static str>("cap slot empty"),
{
    law_spaces_are_apart(pre, mid, dst_pid, dst_slot, c, src_pid, src_slot);
    law_spaces_are_apart(mid, post, src_pid, src_slot, Cap::empty(), dst_pid, dst_slot);
}

/// Rights that the source does not hold are refused, by a copy and by a move.
pub proof fn law_no_amplification(
    t: ProcTable,
    src_pid: u64,
    src_slot: int,
    dst_pid: u64,
    dst_slot: int,
    rights: u32,
)
    requires
        t.wf(),
        read_answer(&t, src_pid, src_slot) matches Ok(src) && rights & !src.rights != 0,
    ensures
        copy_answer(&t, src_pid, src_slot, dst_pid, dst_slot, rights) is Err,
        move_answer(&t, src_pid, src_slot, dst_pid, dst_slot, rights) is Err,
{
}

/// Slot `slot` of `pid` owns the frame at `phys`.
pub open spec fn owns(t: &ProcTable, pid: u64, slot: int, phys: u64) -> bool {
    &&& 0 <= slot < CAP_SLOTS
    &&& slot_answer(t, pid, slot) matches Ok(c) && c.obj == (CapObj::Untyped { phys })
}

/// Over all spaces, at most one slot owns the frame at `phys`.
pub open spec fn one_owner(t: &ProcTable, phys: u64) -> bool {
    forall|p: u64, a: int, q: u64, b: int|
        #![trigger owns(t, p, a, phys), owns(t, q, b, phys)]
        owns(t, p, a, phys) && owns(t, q, b, phys) ==> p == q && a == b
}

/// Whatever owns the frame afterwards owned it before.
proof fn lemma_owners_kept(pre: &ProcTable, post: &ProcTable, phys: u64)
    requires
        one_owner(pre, phys),
        forall|p: u64, a: int| #[trigger] owns(post, p, a, phys) ==> owns(pre, p, a, phys),
    ensures
        one_owner(post, phys),
{
    assert forall|p: u64, a: int, q: u64, b: int|
        #![trigger owns(post, p, a, phys), owns(post, q, b, phys)]
        owns(post, p, a, phys) && owns(post, q, b, phys) implies p == q && a == b by {
        assert(owns(pre, p, a, phys) && owns(pre, q, b, phys));
    }
}

/// A frame has at most one owner, and keeps that while slots are written with
/// anything but the frame itself: by a destroyed, consumed or mapped capability,
/// which leaves its slot empty, and by any grant of another object.
pub proof fn law_one_owner(
    pre: ProcTable,
    post: ProcTable,
    pid: u64,
    slot: int,
    c: Cap,
    phys: u64,
)
    requires
        pre.wf(),
        post.wf(),
        0 <= slot < CAP_SLOTS,
        slot_set(&pre, &post, pid, slot, c),
        c.obj != (CapObj::Untyped { phys }),
        one_owner(&pre, phys),
    ensures
        one_owner(&post, phys),
        !owns(&post, pid, slot, phys),
{
    assert forall|p: u64, a: int| #[trigger] owns(&post, p, a, phys) implies owns(
        &pre,
        p,
        a,
        phys,
    ) by {
        if p != pid || a != slot {
            law_spaces_are_apart(pre, post, pid, slot, c, p, a);
        } else {
            lemma_set_keeps(&pre, &post, pid, slot, c, pid);
            proc::lemma_find_bounds(pre.slots@, pid);
        }
    }
    lemma_set_keeps(&pre, &post, pid, slot, c, pid);
    proc::lemma_find_bounds(pre.slots@, pid);
    lemma_owners_kept(&pre, &post, phys);
}

/// A frame that nothing owns has one owner once it is issued.
pub proof fn law_issued_has_one_owner(
    pre: ProcTable,
    post: ProcTable,
    pid: u64,
    slot: int,
    rights: u32,
    phys: u64,
)
    requires
        pre.wf(),
        post.wf(),
        0 <= slot < CAP_SLOTS,
        slot_set(&pre, &post, pid, slot, Cap { obj: CapObj::Untyped { phys }, rights }),
        forall|p: u64, a: int| !#[trigger] owns(&pre, p, a, phys),
    ensures
        one_owner(&post, phys),
        owns(&post, pid, slot, phys),
{
    let c = Cap { obj: CapObj::Untyped { phys }, rights };
    assert forall|p: u64, a: int| #[trigger] owns(&post, p, a, phys) implies p == pid && a
        == slot by {
        if p != pid || a != slot {
            law_spaces_are_apart(pre, post, pid, slot, c, p, a);
            assert(!owns(&pre, p, a, phys));
        }
    }
    lemma_set_keeps(&pre, &post, pid, slot, c, pid);
    proc::lemma_find_bounds(pre.slots@, pid);
}

/// One request to hand a capability on.
pub struct Handover {
    pub src_pid: u64,
    pub src_slot: usize,
    pub dst_pid: u64,
    pub dst_slot: usize,
    pub rights: u32,
    /// The source is emptied.
    pub moved: bool,
}

/// What the request answers.
pub open spec fn handover_answer(t: &ProcTable, h: Handover) -> Result<Cap, &'static str> {
    if h.moved {
        move_answer(t, h.src_pid, h.src_slot as int, h.dst_pid, h.dst_slot as int, h.rights)
    } else {
        copy_answer(t, h.src_pid, h.src_slot as int, h.dst_pid, h.dst_slot as int, h.rights)
    }
}

/// What [`copy`] and [`move_cap`] do on the request.
pub open spec fn handed_over(pre: &ProcTable, post: &ProcTable, h: Handover) -> bool {
    match handover_answer(pre, h) {
        Err(_) => *post == *pre,
        Ok(c) => if h.moved {
            exists|mid: ProcTable|
                {
                    &&& #[trigger] mid.wf()
                    &&& slot_set(pre, &mid, h.dst_pid, h.dst_slot as int, c)
                    &&& slot_set(&mid, post, h.src_pid, h.src_slot as int, Cap::empty())
                }
        } else {
            slot_set(pre, post, h.dst_pid, h.dst_slot as int, c)
        },
    }
}

/// What every slot holds after one request.
proof fn lemma_handed_over(pre: ProcTable, post: ProcTable, h: Handover, p: u64, a: int)
    requires
        pre.wf(),
        post.wf(),
        handed_over(&pre, &post, h),
        0 <= a < CAP_SLOTS,
    ensures
        slot_answer(&post, p, a) == (match handover_answer(&pre, h) {
            Err(_) => slot_answer(&pre, p, a),
            Ok(c) => if p == h.dst_pid && a == h.dst_slot {
                Ok::<Cap, &'static str>(c)
            } else if h.moved && p == h.src_pid && a == h.src_slot {
                Ok::<Cap, &'static str>(Cap::empty())
            } else {
                slot_answer(&pre, p, a)
            },
        }),
        handover_answer(&pre, h) is Ok ==> h.src_slot < CAP_SLOTS && h.dst_slot < CAP_SLOTS && !(
        h.src_pid == h.dst_pid && h.src_slot == h.dst_slot),
{
    if let Ok(c) = handover_answer(&pre, h) {
        let d = h.dst_slot as int;
        let s = h.src_slot as int;
        if h.moved {
            let mid = choose|mid: ProcTable|
                {
                    &&& #[trigger] mid.wf()
                    &&& slot_set(&pre, &mid, h.dst_pid, d, c)
                    &&& slot_set(&mid, &post, h.src_pid, s, Cap::empty())
                };
            law_move_leaves_one(pre, mid, post, h.src_pid, s, h.dst_pid, d, c);
            if !(p == h.dst_pid && a == d) {
                law_spaces_are_apart(pre, mid, h.dst_pid, d, c, p, a);
            }
            law_spaces_are_apart(mid, post, h.src_pid, s, Cap::empty(), h.dst_pid, d);
            if !(p == h.src_pid && a == s) {
                law_spaces_are_apart(mid, post, h.src_pid, s, Cap::empty(), p, a);
            }
        } else {
            law_spaces_are_apart(pre, post, h.dst_pid, d, c, h.src_pid, s);
            if !(p == h.dst_pid && a == d) {
                law_spaces_are_apart(pre, post, h.dst_pid, d, c, p, a);
            }
        }
    }
}

/// Handing a capability on, by copy or by move, leaves a frame with at most one
/// owner. A copy of the owner is refused, and a move takes it from its slot.
pub proof fn law_handover_keeps_one_owner(
    pre: ProcTable,
    post: ProcTable,
    h: Handover,
    phys: u64,
)
    requires
        pre.wf(),
        post.wf(),
        handed_over(&pre, &post, h),
        one_owner(&pre, phys),
    ensures
        one_owner(&post, phys),
        !h.moved && owns(&pre, h.src_pid, h.src_slot as int, phys) ==> handover_answer(&pre, h)
            is Err && post == pre,
{
    assert forall|p: u64, a: int, q: u64, b: int|
        #![trigger owns(&post, p, a, phys), owns(&post, q, b, phys)]
        owns(&post, p, a, phys) && owns(&post, q, b, phys) implies p == q && a == b by {
        lemma_handed_over(pre, post, h, p, a);
        lemma_handed_over(pre, post, h, q, b);
        if let Ok(c) = handover_answer(&pre, h) {
            if p == h.dst_pid && a == h.dst_slot || q == h.dst_pid && b == h.dst_slot {
                assert(owns(&pre, h.src_pid, h.src_slot as int, phys));
            }
        }
        if !(p == h.dst_pid && a == h.dst_slot) {
            assert(owns(&pre, p, a, phys));
        }
        if !(q == h.dst_pid && b == h.dst_slot) {
            assert(owns(&pre, q, b, phys));
        }
    }
}

/// The tables `ts` are what the requests `hs`, made one after the other, leave.
pub open spec fn trail(ts: Seq<ProcTable>, hs: Seq<Handover>) -> bool {
    &&& ts.len() == hs.len() + 1
    &&& forall|i: int| 0 <= i < ts.len() ==> (#[trigger] ts[i]).wf()
    &&& forall|i: int|
        0 <= i < hs.len() ==> handed_over(&ts[i], &ts[i + 1], #[trigger] hs[i])
}

/// Slot `r` of `q` is slot `s` of `p`, or one of the first `n` requests filled
/// it.
pub open spec fn reached(
    ts: Seq<ProcTable>,
    hs: Seq<Handover>,
    p: u64,
    s: int,
    n: int,
    q: u64,
    r: int,
) -> bool {
    ||| q == p && r == s
    ||| exists|i: int|
        0 <= i < n && (#[trigger] hs[i]).dst_pid == q && hs[i].dst_slot == r && handover_answer(
            &ts[i],
            hs[i],
        ) is Ok
}

/// Every request takes its capability from slot `s` of `p`, or from a slot that
/// an earlier request filled.
pub open spec fn stems_from(ts: Seq<ProcTable>, hs: Seq<Handover>, p: u64, s: int) -> bool {
    forall|i: int|
        0 <= i < hs.len() ==> reached(
            ts,
            hs,
            p,
            s,
            i,
            (#[trigger] hs[i]).src_pid,
            hs[i].src_slot as int,
        )
}

proof fn lemma_delegation(
    ts: Seq<ProcTable>,
    hs: Seq<Handover>,
    p: u64,
    s: int,
    c: Cap,
    n: int,
)
    requires
        trail(ts, hs),
        0 <= s < CAP_SLOTS,
        read_answer(&ts[0], p, s) == Ok::<Cap, &'static str>(c),
        stems_from(ts, hs, p, s),
        0 <= n <= hs.len(),
    ensures
        forall|q: u64, r: int|
            0 <= r < CAP_SLOTS && #[trigger] reached(ts, hs, p, s, n, q, r) ==> (read_answer(
                &ts[n],
                q,
                r,
            ) matches Ok(d) ==> d.obj == c.obj && d.rights & !c.rights == 0),
        c.rights & RIGHTS_COPY == 0 ==> ts[n] == ts[0] && forall|i: int|
            0 <= i < n ==> handover_answer(&ts[i], #[trigger] hs[i]) is Err,
    decreases n,
{
    let cr = c.rights;
    assert(cr & !cr == 0) by (bit_vector);
    if n > 0 {
        let m = n - 1;
        lemma_delegation(ts, hs, p, s, c, m);
        let h = hs[m];
        assert(handed_over(&ts[m], &ts[m + 1], h));
        let from = reached(ts, hs, p, s, m, h.src_pid, h.src_slot as int);
        assert(from);
        if cr & RIGHTS_COPY == 0 {
            assert(h.src_pid == p && h.src_slot == s) by {
                if !(h.src_pid == p && h.src_slot == s) {
                    let i = choose|i: int|
                        0 <= i < m && (#[trigger] hs[i]).dst_pid == h.src_pid && hs[i].dst_slot
                            == h.src_slot && handover_answer(&ts[i], hs[i]) is Ok;
                    assert(handover_answer(&ts[i], hs[i]) is Err);
                }
            }
            assert(handover_answer(&ts[m], h) is Err);
        }
        assert forall|q: u64, r: int|
            0 <= r < CAP_SLOTS && #[trigger] reached(ts, hs, p, s, n, q, r) implies (read_answer(
            &ts[n],
            q,
            r,
        ) matches Ok(d) ==> d.obj == c.obj && d.rights & !c.rights == 0) by {
            lemma_handed_over(ts[m], ts[m + 1], h, q, r);
            if let Ok(d) = handover_answer(&ts[m], h) {
                let src = read_answer(&ts[m], h.src_pid, h.src_slot as int)->Ok_0;
                assert(reached(ts, hs, p, s, m, h.src_pid, h.src_slot as int));
                let sr = src.rights;
                let dr = d.rights;
                assert(sr & !cr == 0 && dr & !sr == 0 ==> dr & !cr == 0) by (bit_vector);
            }
            if !(handover_answer(&ts[m], h) is Ok && q == h.dst_pid && r == h.dst_slot) {
                assert(reached(ts, hs, p, s, m, q, r)) by {
                    if !(q == p && r == s) {
                        let i = choose|i: int|
                            0 <= i < n && (#[trigger] hs[i]).dst_pid == q && hs[i].dst_slot == r
                                && handover_answer(&ts[i], hs[i]) is Ok;
                        assert(i != m);
                        assert(hs[i].dst_pid == q);
                    }
                }
            }
        }
    }
}

/// Delegation only attenuates, however long: whatever copies and moves make of
/// the capability `c`, and of what they made of it before, names the same object
/// and holds no right that `c` does not hold. Without the right to be copied,
/// nothing is made of it at all.
pub proof fn law_delegation_attenuates(
    ts: Seq<ProcTable>,
    hs: Seq<Handover>,
    p: u64,
    s: int,
    c: Cap,
    q: u64,
    r: int,
)
    requires
        trail(ts, hs),
        0 <= s < CAP_SLOTS,
        read_answer(&ts[0], p, s) == Ok::<Cap, &'static str>(c),
        stems_from(ts, hs, p, s),
        0 <= r < CAP_SLOTS,
        reached(ts, hs, p, s, hs.len() as int, q, r),
    ensures
        read_answer(&ts.last(), q, r) matches Ok(d) ==> d.obj == c.obj && d.rights & !c.rights == 0,
        c.rights & RIGHTS_COPY == 0 ==> ts.last() == ts[0] && forall|i: int|
            0 <= i < hs.len() ==> handover_answer(&ts[i], #[trigger] hs[i]) is Err,
{
    lemma_delegation(ts, hs, p, s, c, hs.len() as int);
}

/// A process that is made or destroyed gives no frame a second owner.
pub proof fn law_processes_keep_one_owner(pre: Kernel, post: Kernel, phys: u64)
    requires
        pre.procs.wf(),
        post.procs.wf(),
        one_owner(&pre.procs, phys),
        exists|name: &'static str| #[trigger] proc::created(&pre, &post, name) || exists|i: int|
            0 <= i < pre.procs.slots@.len() && pre.procs.slots@[i] is Some && #[trigger]
            proc::removed(&pre, &post, i),
    ensures
        one_owner(&post.procs, phys),
{
    let a = pre.procs.slots@;
    let b = post.procs.slots@;
    let at = if exists|name: &'static str| #[trigger] proc::created(&pre, &post, name) {
        let name = choose|name: &'static str| #[trigger] proc::created(&pre, &post, name);
        choose|i: int|
            {
                &&& #[trigger] proc::first_free(a, i)
                &&& b == a.update(i, b[i])
                &&& b[i] matches Some(p) && forall|s: int|
                    0 <= s < CAP_SLOTS ==> #[trigger] p.caps.slots@[s] == Cap::empty()
            }
    } else {
        choose|i: int|
            0 <= i < a.len() && a[i] is Some && #[trigger] proc::removed(&pre, &post, i)
    };
    assert forall|p: u64, s: int| #[trigger] owns(&post.procs, p, s, phys) implies owns(
        &pre.procs,
        p,
        s,
        phys,
    ) by {
        proc::lemma_find_bounds(b, p);
        let j = proc::find(b, p)->0;
        assert(j != at);
        assert(a[j] == b[j]);
        proc::lemma_find(a, p, j);
    }
    lemma_owners_kept(&pre.procs, &post.procs, phys);
}

/// Destroying a process leaves the capabilities that name it where they are,
/// but they are good for nothing: they read back as before, and neither the
/// root nor a mapping can be had through them any more.
pub proof fn law_capability_to_the_dead(pre: Kernel, post: Kernel, gone: u64, pid: u64, slot: int, c: Cap)
    requires
        pre.wf(),
        post.wf(),
        proc::find(pre.procs.slots@, gone) is Some,
        proc::removed(&pre, &post, proc::find(pre.procs.slots@, gone)->0),
        pid != gone,
        read_answer(&pre.procs, pid, slot) == Ok::<Cap, &'static str>(c),
        c.obj == (CapObj::Process { pid: gone }),
    ensures
        read_answer(&post.procs, pid, slot) == Ok::<Cap, &'static str>(c),
        root_answer(&post.procs, pid, slot) is Err,
        c.rights & RIGHTS_READ != 0 ==> root_answer(&post.procs, pid, slot) == Err::<
            u64,
            &'static str,
        >("process_root: target process is dead (cap dangles)"),
        forall|m: int, va: u64, write: bool, exec: bool| #[trigger]
            map_gates(&post.procs, pid, m, slot, va, write, exec) is Err,
{
    crate::m3::lemma_without(&pre, &post, gone, pid);
}

/// An untyped frame is mapped once. The request that mapped it used its
/// capability up and left the frame in use, so that the same request, or any
/// other on that slot, is refused.
pub proof fn law_untyped_maps_once(
    pre: Kernel,
    post: Kernel,
    pid: u64,
    mem_slot: int,
    proc_slot: int,
    va: u64,
    write: bool,
    exec: bool,
    g: MapGrant,
)
    requires
        pre.wf(),
        0 <= mem_slot,
        map_gates(&pre.procs, pid, mem_slot, proc_slot, va, write, exec) == Ok::<
            MapGrant,
            &'static str,
        >(g),
        g.owned,
        slot_set(&pre.procs, &post.procs, pid, mem_slot, Cap::empty()),
        views::edited(&pre.pg.mem, &pre.fa, &post.pg.mem, &post.fa, g.root as int),
    ensures
        read_answer(&post.procs, pid, mem_slot) == Err::<Cap, &'static str>("cap slot empty"),
        forall|p: int, at: u64, w: bool, x: bool| #[trigger]
            map_gates(&post.procs, pid, mem_slot, p, at, w, x) == Err::<MapGrant, &'static str>(
                "cap slot empty",
            ),
        g.phys < crate::frames::PHYS_LIMIT && pre.fa.in_use(g.phys as int) ==> post.fa.in_use(
            g.phys as int,
        ),
{
    let i = proc::find(pre.procs.slots@, pid)->0;
    proc::lemma_find_bounds(pre.procs.slots@, pid);
    assert forall|j: int| 0 <= j < pre.procs.slots@.len() implies (#[trigger] post.procs.slots@[j] is Some
        <==> pre.procs.slots@[j] is Some) && (pre.procs.slots@[j] is Some
        ==> post.procs.slots@[j]->0.id == pre.procs.slots@[j]->0.id) by {
        if j != i {
            assert(post.procs.slots@[j] == pre.procs.slots@[j]);
        }
    }
    proc::lemma_find_same(pre.procs.slots@, post.procs.slots@, pid);
}

} // verus!

//! System calls: which call a number means, what its arguments must be, and
//! what it does to the kernel's objects.
//!
//! User memory is touched by the processor's own code. Where a call reads or
//! writes it, a function here has checked the range and says what to copy.

use vstd::prelude::*;
use crate::cap;
use crate::cap::{Cap, CapObj, CAP_SLOTS, RIGHTS_COPY, RIGHTS_READ, RIGHTS_WRITE};
use crate::console;
use crate::console::{Console, LINE_MAX};
use crate::faults;
use crate::faults::{Faults, ObservedFault};
use crate::gdt;
use crate::ipc;
use crate::ipc::{Ipc, Posted, CAP_NONE};
use crate::proc;
use crate::proc::{ProcTable, MAX_PROCESSES};
use crate::sched::USER_REGIONS_MAX;
use crate::status::{Status, STATUS_BAD_ADDRESS, STATUS_BAD_ARG, STATUS_BAD_CALL};

verus! {

pub const MSR_EFER: u32 = 0xC000_0080;
pub const MSR_STAR: u32 = 0xC000_0081;
pub const MSR_LSTAR: u32 = 0xC000_0082;
pub const MSR_SFMASK: u32 = 0xC000_0084;
pub const MSR_KERNEL_GS_BASE: u32 = 0xC000_0102;

pub const SYS_DEBUG_WRITE: u64 = 1;
pub const SYS_THREAD_EXIT: u64 = 2;
pub const SYS_PROVE_RING3: u64 = 4;
pub const SYS_PROVE_DONE: u64 = 5;
pub const SYS_ABI_ECHO6: u64 = 6;
pub const SYS_IPC_CALL: u64 = 7;
pub const SYS_IPC_RECV: u64 = 8;
pub const SYS_IPC_REPLY: u64 = 9;
pub const SYS_NOTIFY: u64 = 10;
pub const SYS_WAIT: u64 = 11;
pub const SYS_SPAWN: u64 = 12;
pub const SYS_CONSOLE_READ: u64 = 13;
pub const SYS_PROC_LIST: u64 = 14;
pub const SYS_SHUTDOWN: u64 = 15;

/// The longest debug write, in bytes.
pub const WRITE_MAX: u64 = 256;

/// The bytes of a message buffer: two words and a capability slot.
pub const IPC_BUF_BYTES: u64 = 24;

/// How many exits are kept.
pub const EXIT_LOG_CAP: usize = 16;

/// The vector of a general protection fault.
pub const GP_VECTOR: u64 = 13;

/// Bits of `x` moved left by `n`, those that fall out coming back on the
/// right.
pub open spec fn rotated(x: u64, n: u64) -> u64 {
    (x << n) | (x >> ((64 - n) as u64))
}

fn rotate(x: u64, n: u64) -> (r: u64)
    requires
        0 < n < 64,
    ensures
        r == rotated(x, n),
{
    (x << n) | (x >> (64 - n))
}

/// A mix of six words, never negative as a status.
pub open spec fn fingerprint(a: Seq<u64>) -> u64 {
    (a[0] ^ rotated(a[1], 11) ^ rotated(a[2], 22) ^ rotated(a[3], 33) ^ rotated(a[4], 44) ^ rotated(
        a[5],
        55,
    )) & 0x7FFF_FFFF_FFFF_FFFF
}

/// A mix of six words, each turned by another amount, without the top bit.
pub fn echo6_fingerprint(a: [u64; 6]) -> (r: u64)
    ensures
        r == fingerprint(a@),
        r <= i64::MAX,
{
    let x: u64 = a[0] ^ rotate(a[1], 11) ^ rotate(a[2], 22) ^ rotate(a[3], 33) ^ rotate(a[4], 44)
        ^ rotate(a[5], 55);
    assert(x & 0x7FFF_FFFF_FFFF_FFFF <= 0x7FFF_FFFF_FFFF_FFFF) by (bit_vector);
    x & 0x7FFF_FFFF_FFFF_FFFF
}

/// What the system call entry finds at the processor's private base: where it
/// leaves the user's stack pointer, and the kernel stack to go on with.
#[derive(Clone, Copy, Debug, PartialEq, Eq, Structural)]
pub struct CpuScratch {
    pub user_rsp: u64,
    pub kernel_rsp: u64,
}

/// The user's state at a system call.
#[derive(Clone, Copy, Debug, PartialEq, Eq, Structural)]
pub struct SyscallFrame {
    pub usr_rsp: u64,
    pub usr_rip: u64,
    pub usr_rflags: u64,
}

/// How often each thing has happened, and whether ring 3 was proved.
#[derive(Clone, Copy, Debug, PartialEq, Eq, Structural)]
pub struct SyscallStats {
    pub calls: u64,
    pub write_calls: u64,
    pub write_bytes: u64,
    pub write_rejected: u64,
    pub exit_calls: u64,
    pub invalid_nr: u64,
    pub echo_calls: u64,
    pub prove_ring3_calls: u64,
    pub ring3_proved: bool,
    pub ring3_gp_ec: u64,
}

impl SyscallStats {
    /// Every counter of a kind of call can still count.
    pub open spec fn room(self) -> bool {
        &&& self.write_calls < u64::MAX
        &&& self.write_bytes <= u64::MAX - WRITE_MAX
        &&& self.write_rejected < u64::MAX
        &&& self.exit_calls < u64::MAX
        &&& self.invalid_nr < u64::MAX
        &&& self.echo_calls < u64::MAX
        &&& self.prove_ring3_calls < u64::MAX
    }
}

/// The counters, the last debug write, and the first exits.
pub struct Syscalls {
    pub stats: SyscallStats,
    pub last: Vec<u8>,
    pub exits: Vec<(u64, u64)>,
}

impl Syscalls {
    pub open spec fn wf(&self) -> bool {
        self.last@.len() <= WRITE_MAX && self.exits@.len() <= EXIT_LOG_CAP
    }

    pub fn new() -> (s: Syscalls)
        ensures
            s.wf(),
            s.last@ == Seq::<u8>::empty(),
            s.exits@ == Seq::<(u64, u64)>::empty(),
            s.stats == (SyscallStats {
                calls: 0,
                write_calls: 0,
                write_bytes: 0,
                write_rejected: 0,
                exit_calls: 0,
                invalid_nr: 0,
                echo_calls: 0,
                prove_ring3_calls: 0,
                ring3_proved: false,
                ring3_gp_ec: 0,
            }),
    {
        Syscalls {
            stats: SyscallStats {
                calls: 0,
                write_calls: 0,
                write_bytes: 0,
                write_rejected: 0,
                exit_calls: 0,
                invalid_nr: 0,
                echo_calls: 0,
                prove_ring3_calls: 0,
                ring3_proved: false,
                ring3_gp_ec: 0,
            },
            last: Vec::new(),
            exits: Vec::new(),
        }
    }
}

/// The counters.
pub fn stats(s: &Syscalls) -> (r: SyscallStats)
    ensures
        r == s.stats,
{
    s.stats
}

/// The bytes of the last debug write.
pub fn last_write(s: &Syscalls) -> (r: &Vec<u8>)
    ensures
        r@ == s.last@,
{
    &s.last
}

/// The first exit from `i` on that is kept for thread `id`.
pub open spec fn exit_at(exits: Seq<(u64, u64)>, id: u64, i: int) -> Option<u64>
    decreases exits.len() - i,
{
    if i >= exits.len() {
        None
    } else if exits[i].0 == id {
        Some(exits[i].1)
    } else {
        exit_at(exits, id, i + 1)
    }
}

/// What thread `id` left with, if that is kept.
pub fn exit_status_of(s: &Syscalls, id: u64) -> (r: Option<u64>)
    ensures
        r == exit_at(s.exits@, id, 0),
{
    let mut i: usize = 0;
    while i < s.exits.len()
        invariant
            i <= s.exits@.len(),
            exit_at(s.exits@, id, 0) == exit_at(s.exits@, id, i as int),
        decreases s.exits@.len() - i,
    {
        if s.exits[i].0 == id {
            return Some(s.exits[i].1);
        }
        i = i + 1;
    }
    None
}

/// The kept exits after one more.
pub open spec fn exits_with(exits: Seq<(u64, u64)>, id: u64, status: u64) -> Seq<(u64, u64)> {
    if exits.len() < EXIT_LOG_CAP {
        exits.push((id, status))
    } else {
        exits
    }
}

fn record_exit(s: &mut Syscalls, id: u64, status: u64)
    requires
        old(s).wf(),
    ensures
        final(s).wf(),
        final(s).stats == old(s).stats,
        final(s).last == old(s).last,
        final(s).exits@ == exits_with(old(s).exits@, id, status),
{
    if s.exits.len() < EXIT_LOG_CAP {
        s.exits.push((id, status));
    }
}

/// Some region holds all of the page at `page`.
pub open spec fn page_open(regions: Seq<(u64, u64)>, page: int) -> bool {
    exists|i: int|
        0 <= i < regions.len() && (#[trigger] regions[i]).0 != 0 && regions[i].0 <= page && page
            + 4096 <= regions[i].1
}

/// Every page that the range touches lies in a region.
pub open spec fn range_open(regions: Seq<(u64, u64)>, buf: int, len: int) -> bool {
    &&& buf + len <= u64::MAX
    &&& forall|p: int|
        buf / 4096 <= p && p * 4096 < buf + len ==> #[trigger] page_open(regions, p * 4096)
}

fn page_is_open(regions: &[(u64, u64); USER_REGIONS_MAX], page: u64) -> (r: bool)
    ensures
        r == page_open(regions@, page as int),
{
    let end: u64 = match page.checked_add(4096) {
        Some(e) => e,
        None => {
            return false;
        },
    };
    let mut i: usize = 0;
    while i < USER_REGIONS_MAX
        invariant
            i <= USER_REGIONS_MAX,
            end == page + 4096,
            forall|k: int|
                0 <= k < i ==> !((#[trigger] regions@[k]).0 != 0 && regions@[k].0 <= page && page
                    + 4096 <= regions@[k].1),
        decreases USER_REGIONS_MAX - i,
    {
        let (lo, hi): (u64, u64) = regions[i];
        if lo != 0 && page >= lo && end <= hi {
            assert(regions@[i as int].0 != 0);
            return true;
        }
        i = i + 1;
    }
    false
}

/// Whether every page that the range touches lies in a region.
pub fn user_range_ok(regions: &[(u64, u64); USER_REGIONS_MAX], buf: u64, len: u64) -> (r: bool)
    ensures
        r == range_open(regions@, buf as int, len as int),
{
    let end: u64 = match buf.checked_add(len) {
        Some(e) => e,
        None => {
            return false;
        },
    };
    let mut page: u64 = buf - buf % 4096;
    while page < end
        invariant
            page % 4096 == 0,
            buf / 4096 <= page / 4096,
            end == buf + len,
            forall|p: int|
                buf as int / 4096 <= p < page as int / 4096 ==> #[trigger] page_open(
                    regions@,
                    p * 4096,
                ),
        decreases end + 4096 - page,
    {
        assert(page as int == (page as int / 4096) * 4096);
        if !page_is_open(regions, page) {
            assert(!page_open(regions@, (page as int / 4096) * 4096));
            return false;
        }
        page = match page.checked_add(4096) {
            Some(p) => p,
            None => {
                assert(false);
                return false;
            },
        };
    }
    true
}

/// A range that passes has every byte in a region that is open to the thread.
pub proof fn law_user_range(regions: Seq<(u64, u64)>, buf: u64, len: u64, a: int)
    requires
        range_open(regions, buf as int, len as int),
        buf <= a < buf + len,
    ensures
        exists|i: int|
            0 <= i < regions.len() && (#[trigger] regions[i]).0 != 0 && regions[i].0 <= a
                < regions[i].1,
{
    let p = a / 4096;
    assert(page_open(regions, p * 4096));
    let i = choose|i: int|
        0 <= i < regions.len() && (#[trigger] regions[i]).0 != 0 && regions[i].0 <= p * 4096 && p
            * 4096 + 4096 <= regions[i].1;
    assert(regions[i].0 <= a < regions[i].1);
}

/// Who makes a call: its process, if it has one, its thread, and the user
/// memory that the thread may name.
#[derive(Clone, Copy)]
pub struct Caller {
    pub pid: Option<u64>,
    pub tid: u64,
    pub regions: [(u64, u64); USER_REGIONS_MAX],
}

/// The capability in a slot that a caller names, if it carries `right`.
pub open spec fn cap_with(t: &ProcTable, pid: u64, slot: u64, right: u32) -> Option<Cap> {
    if slot >= CAP_SLOTS {
        None
    } else {
        match cap::read_answer(t, pid, slot as int) {
            Ok(c) => if c.rights & right != 0 {
                Some(c)
            } else {
                None
            },
            Err(_) => None,
        }
    }
}

fn cap_in(t: &ProcTable, pid: u64, slot: u64, right: u32) -> (r: Option<Cap>)
    requires
        t.wf(),
    ensures
        r == cap_with(t, pid, slot, right),
{
    if slot >= CAP_SLOTS as u64 {
        return None;
    }
    match cap::read(t, pid, slot as usize) {
        Err(_) => None,
        Ok(c) => if c.rights & right == 0 {
            None
        } else {
            Some(c)
        },
    }
}

/// The endpoint behind a slot, for a holder of `right`.
pub open spec fn endpoint_answer(t: &ProcTable, pid: u64, slot: u64, right: u32) -> Result<
    u32,
    Status,
> {
    match cap_with(t, pid, slot, right) {
        Some(c) => match c.obj {
            CapObj::Endpoint { eid } => Ok(eid),
            _ => Err(STATUS_BAD_ARG),
        },
        None => Err(STATUS_BAD_ARG),
    }
}

/// The endpoint behind a slot, for a holder of `right`.
pub fn endpoint_of(t: &ProcTable, pid: u64, slot: u64, right: u32) -> (r: Result<u32, Status>)
    requires
        t.wf(),
    ensures
        r == endpoint_answer(t, pid, slot, right),
{
    match cap_in(t, pid, slot, right) {
        None => Err(STATUS_BAD_ARG),
        Some(c) => match c.obj {
            CapObj::Endpoint { eid } => Ok(eid),
            _ => Err(STATUS_BAD_ARG),
        },
    }
}

/// The notification behind a slot, for a holder of `right`.
pub open spec fn notification_answer(t: &ProcTable, pid: u64, slot: u64, right: u32) -> Result<
    u32,
    Status,
> {
    match cap_with(t, pid, slot, right) {
        Some(c) => match c.obj {
            CapObj::Notification { nid } => Ok(nid),
            _ => Err(STATUS_BAD_ARG),
        },
        None => Err(STATUS_BAD_ARG),
    }
}

/// The notification behind a slot, for a holder of `right`.
pub fn notification_of(t: &ProcTable, pid: u64, slot: u64, right: u32) -> (r: Result<u32, Status>)
    requires
        t.wf(),
    ensures
        r == notification_answer(t, pid, slot, right),
{
    match cap_in(t, pid, slot, right) {
        None => Err(STATUS_BAD_ARG),
        Some(c) => match c.obj {
            CapObj::Notification { nid } => Ok(nid),
            _ => Err(STATUS_BAD_ARG),
        },
    }
}

/// The capability that goes with a message: none, or one that may be copied. An
/// owned frame has one owner and goes with none.
pub open spec fn send_cap_answer(t: &ProcTable, pid: u64, slot: u64) -> Result<Option<Cap>, Status> {
    if slot == CAP_NONE {
        Ok(None)
    } else {
        match cap_with(t, pid, slot, RIGHTS_COPY) {
            Some(c) => if c.obj is Untyped {
                Err(STATUS_BAD_ARG)
            } else {
                Ok(Some(c))
            },
            None => Err(STATUS_BAD_ARG),
        }
    }
}

/// The capability that goes with a message: none, or one that may be copied. An
/// owned frame has one owner and goes with none.
pub fn send_cap_of(t: &ProcTable, pid: u64, slot: u64) -> (r: Result<Option<Cap>, Status>)
    requires
        t.wf(),
    ensures
        r == send_cap_answer(t, pid, slot),
{
    if slot == CAP_NONE {
        return Ok(None);
    }
    match cap_in(t, pid, slot, RIGHTS_COPY) {
        None => Err(STATUS_BAD_ARG),
        Some(c) => match c.obj {
            CapObj::Untyped { .. } => Err(STATUS_BAD_ARG),
            _ => Ok(Some(c)),
        },
    }
}

/// What a debug write is refused with.
pub open spec fn write_refusal(regions: Seq<(u64, u64)>, buf: u64, len: u64) -> Option<Status> {
    if len == 0 || len > WRITE_MAX || buf == 0 {
        Some(STATUS_BAD_ARG)
    } else if !range_open(regions, buf as int, len as int) {
        Some(STATUS_BAD_ADDRESS)
    } else {
        None
    }
}

/// What [`sys_debug_write`] answers and does.
pub open spec fn write_checked(
    s0: &Syscalls,
    s1: &Syscalls,
    c: &Caller,
    buf: u64,
    len: u64,
    r: Result<(), Status>,
) -> bool {
    &&& s1.last == s0.last
    &&& s1.exits == s0.exits
    &&& {
        let counted = SyscallStats {
            write_calls: (s0.stats.write_calls + 1) as u64,
            ..s0.stats
        };
        match write_refusal(c.regions@, buf, len) {
            Some(e) => {
                &&& r == Err::<(), Status>(e)
                &&& s1.stats == (SyscallStats {
                    write_rejected: (counted.write_rejected + 1) as u64,
                    ..counted
                })
            },
            None => r == Ok::<(), Status>(()) && s1.stats == counted,
        }
    }
}

/// Check a debug write. On `Ok`, the bytes are to be copied in and handed to
/// [`debug_written`].
pub fn sys_debug_write(s: &mut Syscalls, c: &Caller, buf: u64, len: u64) -> (r: Result<(), Status>)
    requires
        old(s).wf(),
        old(s).stats.room(),
    ensures
        final(s).wf(),
        write_checked(old(s), final(s), c, buf, len, r),
{
    s.stats.write_calls = s.stats.write_calls + 1;
    if len == 0 || len > WRITE_MAX || buf == 0 {
        s.stats.write_rejected = s.stats.write_rejected + 1;
        return Err(STATUS_BAD_ARG);
    }
    if !user_range_ok(&c.regions, buf, len) {
        s.stats.write_rejected = s.stats.write_rejected + 1;
        return Err(STATUS_BAD_ADDRESS);
    }
    Ok(())
}

/// What [`debug_written`] answers and does.
pub open spec fn debug_recorded(
    s0: &Syscalls,
    s1: &Syscalls,
    bytes: Vec<u8>,
    r: Status,
) -> bool {
    &&& s1.wf()
    &&& r == bytes@.len()
    &&& s1.last@ == bytes@
    &&& s1.exits == s0.exits
    &&& s1.stats == (SyscallStats {
        write_bytes: (s0.stats.write_bytes + bytes@.len()) as u64,
        ..s0.stats
    })
}

/// The bytes of a debug write were copied in: keep them and count them. They
/// are to be sent out as they are.
pub fn debug_written(s: &mut Syscalls, bytes: Vec<u8>) -> (r: Status)
    requires
        old(s).wf(),
        bytes@.len() <= WRITE_MAX,
        old(s).stats.write_bytes <= u64::MAX - WRITE_MAX,
    ensures
        debug_recorded(old(s), final(s), bytes, r),
{
    let n: usize = bytes.len();
    s.last = bytes;
    s.stats.write_bytes = s.stats.write_bytes + n as u64;
    n as Status
}

/// The notification that a process's end signals, if its last thread ends.
pub open spec fn exit_signal(t: &ProcTable, pid: Option<u64>, live_threads: usize) -> Option<
    (u32, u64),
> {
    match pid {
        Some(p) => if live_threads == 1 {
            match proc::find(t.slots@, p) {
                Some(i) => if t.slots@[i]->0.exit_notif.0 != u32::MAX {
                    Some(t.slots@[i]->0.exit_notif)
                } else {
                    None
                },
                None => None,
            }
        } else {
            None
        },
        None => None,
    }
}

/// What [`sys_thread_exit`] answers and does.
pub open spec fn thread_exited(
    s0: &Syscalls,
    s1: &Syscalls,
    i0: &Ipc,
    i1: &Ipc,
    t: &ProcTable,
    c: &Caller,
    live_threads: usize,
    status: u64,
    r: Option<u64>,
) -> bool {
    &&& s1.last == s0.last
    &&& s1.exits@ == exits_with(s0.exits@, c.tid, status)
    &&& s1.stats == (SyscallStats {
        exit_calls: (s0.stats.exit_calls + 1) as u64,
        ..s0.stats
    })
    &&& match exit_signal(t, c.pid, live_threads) {
        None => r == None::<u64> && *i1 == *i0,
        Some((nid, badge)) => exists|o: Result<Option<u64>, Status>|
            #[trigger] ipc::notified(i0, i1, nid, badge, o) && r == (match o {
                Ok(w) => w,
                Err(_) => None,
            }),
    }
}

/// A thread ends itself with `status`: keep that, and signal the exit
/// notification of its process if it is the last of its `live_threads`
/// threads. The answer is a thread to wake. The thread then terminates.
pub fn sys_thread_exit(
    s: &mut Syscalls,
    ipc: &mut Ipc,
    t: &ProcTable,
    c: &Caller,
    live_threads: usize,
    status: u64,
) -> (r: Option<u64>)
    requires
        old(s).wf(),
        old(s).stats.room(),
        old(ipc).wf(),
        old(ipc).stats.room(),
        t.wf(),
    ensures
        final(s).wf(),
        final(ipc).wf(),
        thread_exited(old(s), final(s), old(ipc), final(ipc), t, c, live_threads, status, r),
{
    s.stats.exit_calls = s.stats.exit_calls + 1;
    record_exit(s, c.tid, status);
    let pid: u64 = match c.pid {
        Some(p) => p,
        None => {
            return None;
        },
    };
    if live_threads != 1 {
        return None;
    }
    match proc::exit_notif_of(t, pid) {
        None => None,
        Some((nid, badge)) => {
            let ghost pre = *ipc;
            let o: Result<Option<u64>, Status> = ipc::notify(ipc, nid, badge);
            assert(ipc::notified(&pre, ipc, nid, badge, o));
            match o {
                Ok(w) => w,
                Err(_) => None,
            }
        },
    }
}

/// What a call is refused with before anything is done.
pub open spec fn call_refusal(t: &ProcTable, c: &Caller, a0: u64, a3: u64, a4: u64) -> Option<
    Status,
> {
    match c.pid {
        None => Some(STATUS_BAD_ARG),
        Some(pid) => if endpoint_answer(t, pid, a0, RIGHTS_WRITE) is Err || send_cap_answer(
            t,
            pid,
            a3,
        ) is Err {
            Some(STATUS_BAD_ARG)
        } else if !range_open(c.regions@, a4 as int, IPC_BUF_BYTES as int) {
            Some(STATUS_BAD_ADDRESS)
        } else {
            None
        },
    }
}

/// What [`sys_ipc_call`] answers and does.
pub open spec fn call_made(
    i0: &Ipc,
    i1: &Ipc,
    t: &ProcTable,
    c: &Caller,
    a0: u64,
    a1: u64,
    a2: u64,
    a3: u64,
    a4: u64,
    r: Result<(u32, Posted), Status>,
) -> bool {
    &&& match call_refusal(t, c, a0, a3, a4) {
        Some(e) => r == Err::<(u32, Posted), Status>(e) && *i1 == *i0,
        None => {
            let eid = endpoint_answer(t, c.pid->0, a0, RIGHTS_WRITE)->Ok_0;
            let send = send_cap_answer(t, c.pid->0, a3)->Ok_0;
            exists|words: [u64; 2], o: Result<Posted, Status>|
                {
                    &&& words@ == seq![a1, a2]
                    &&& #[trigger] ipc::called(
                        i0,
                        i1,
                        c.tid,
                        eid,
                        words,
                        send,
                        o,
                    )
                    &&& r == (match o {
                        Ok(p) => Ok::<(u32, Posted), Status>((eid, p)),
                        Err(e) => Err(e),
                    })
                }
        },
    }
}

/// Call the endpoint in slot `a0` with two words and the capability in slot
/// `a3`; the reply goes to the buffer at `a4`.
///
/// On `Ok`, the endpoint's number and where the request waits: the caller
/// goes on as [`ipc::call`] says.
pub fn sys_ipc_call(
    ipc: &mut Ipc,
    t: &ProcTable,
    c: &Caller,
    a0: u64,
    a1: u64,
    a2: u64,
    a3: u64,
    a4: u64,
) -> (r: Result<(u32, Posted), Status>)
    requires
        old(ipc).wf(),
        old(ipc).stats.room(),
        t.wf(),
    ensures
        final(ipc).wf(),
        call_made(old(ipc), final(ipc), t, c, a0, a1, a2, a3, a4, r),
{
    let pid: u64 = match c.pid {
        Some(p) => p,
        None => {
            return Err(STATUS_BAD_ARG);
        },
    };
    let eid: u32 = match endpoint_of(t, pid, a0, RIGHTS_WRITE) {
        Ok(e) => e,
        Err(_) => {
            return Err(STATUS_BAD_ARG);
        },
    };
    let send: Option<Cap> = match send_cap_of(t, pid, a3) {
        Ok(s) => s,
        Err(_) => {
            return Err(STATUS_BAD_ARG);
        },
    };
    if !user_range_ok(&c.regions, a4, IPC_BUF_BYTES) {
        return Err(STATUS_BAD_ADDRESS);
    }
    let words: [u64; 2] = [a1, a2];
    let ghost pre = *ipc;
    let o: Result<Posted, Status> = ipc::call(ipc, c.tid, eid, words, send);
    proof {
        assert(words@ =~= seq![a1, a2]);
        assert(ipc::called(&pre, ipc, c.tid, eid, words, send, o));
    }
    match o {
        Ok(p) => Ok((eid, p)),
        Err(e) => Err(e),
    }
}

/// What [`message_words`] answers and does.
pub open spec fn message_is(
    words: [u64; 2],
    landed: u64,
    r: [u64; 3],
) -> bool {
    &&& r@ == seq![words@[0], words@[1], landed]
}

/// The three words that a message leaves in a buffer.
pub fn message_words(words: [u64; 2], landed: u64) -> (r: [u64; 3])
    ensures
        message_is(words, landed, r),
{
    let r: [u64; 3] = [words[0], words[1], landed];
    assert(r@ =~= seq![words@[0], words@[1], landed]);
    r
}

/// What a receive is refused with before anything is done.
pub open spec fn recv_refusal(t: &ProcTable, c: &Caller, a0: u64, a1: u64) -> Option<Status> {
    match c.pid {
        None => Some(STATUS_BAD_ARG),
        Some(pid) => if endpoint_answer(t, pid, a0, RIGHTS_READ) is Err {
            Some(STATUS_BAD_ARG)
        } else if !range_open(c.regions@, a1 as int, IPC_BUF_BYTES as int) {
            Some(STATUS_BAD_ADDRESS)
        } else {
            None
        },
    }
}

/// What [`sys_ipc_recv`] answers and does.
pub open spec fn recv_made(
    i0: &Ipc,
    i1: &Ipc,
    t0: &ProcTable,
    t1: &ProcTable,
    c: &Caller,
    a0: u64,
    a1: u64,
    r: Result<(u32, Option<([u64; 2], u64)>), Status>,
) -> bool {
    &&& match recv_refusal(t0, c, a0, a1) {
        Some(e) => {
            &&& r == Err::<(u32, Option<([u64; 2], u64)>), Status>(e)
            &&& *i1 == *i0
            &&& *t1 == *t0
        },
        None => {
            let eid = endpoint_answer(t0, c.pid->0, a0, RIGHTS_READ)->Ok_0;
            exists|o: Result<Option<([u64; 2], u64)>, Status>|
                {
                    &&& #[trigger] ipc::received(
                        i0,
                        i1,
                        t0,
                        t1,
                        c.pid->0,
                        c.tid,
                        eid,
                        o,
                    )
                    &&& r == (match o {
                        Ok(m) => Ok::<(u32, Option<([u64; 2], u64)>), Status>((eid, m)),
                        Err(e) => Err(e),
                    })
                }
        },
    }
}

/// Receive at the endpoint in slot `a0`; the request goes to the buffer at
/// `a1`.
///
/// On `Ok`, the endpoint's number and the request; without one, the thread
/// sleeps and goes on as [`ipc::recv`] says.
pub fn sys_ipc_recv(ipc: &mut Ipc, t: &mut ProcTable, c: &Caller, a0: u64, a1: u64) -> (r: Result<
    (u32, Option<([u64; 2], u64)>),
    Status,
>)
    requires
        old(ipc).wf(),
        old(ipc).stats.room(),
        old(t).wf(),
    ensures
        final(ipc).wf(),
        final(t).wf(),
        recv_made(old(ipc), final(ipc), old(t), final(t), c, a0, a1, r),
{
    let pid: u64 = match c.pid {
        Some(p) => p,
        None => {
            return Err(STATUS_BAD_ARG);
        },
    };
    let eid: u32 = match endpoint_of(t, pid, a0, RIGHTS_READ) {
        Ok(e) => e,
        Err(_) => {
            return Err(STATUS_BAD_ARG);
        },
    };
    if !user_range_ok(&c.regions, a1, IPC_BUF_BYTES) {
        return Err(STATUS_BAD_ADDRESS);
    }
    let ghost pre = *ipc;
    let ghost t0 = *t;
    let o: Result<Option<([u64; 2], u64)>, Status> = ipc::recv(ipc, t, pid, c.tid, eid);
    assert(ipc::received(&pre, ipc, &t0, t, pid, c.tid, eid, o));
    match o {
        Ok(m) => Ok((eid, m)),
        Err(e) => Err(e),
    }
}

/// What [`sys_ipc_reply`] answers and does.
pub open spec fn reply_made(
    i0: &Ipc,
    i1: &Ipc,
    t: &ProcTable,
    c: &Caller,
    a0: u64,
    a1: u64,
    a2: u64,
    a3: u64,
    r: Result<u64, Status>,
) -> bool {
    &&& if c.pid is None || endpoint_answer(t, c.pid->0, a0, RIGHTS_READ) is Err || send_cap_answer(
        t,
        c.pid->0,
        a3,
    ) is Err {
        r == Err::<u64, Status>(STATUS_BAD_ARG) && *i1 == *i0
    } else {
        exists|words: [u64; 2]|
            words@ == seq![a1, a2] && #[trigger] ipc::replied(
                i0,
                i1,
                c.tid,
                endpoint_answer(t, c.pid->0, a0, RIGHTS_READ)->Ok_0,
                words,
                send_cap_answer(t, c.pid->0, a3)->Ok_0,
                r,
            )
    }
}

/// Reply, at the endpoint in slot `a0`, with two words and the capability in
/// slot `a3`. On `Ok`, the caller that has to be woken.
pub fn sys_ipc_reply(
    ipc: &mut Ipc,
    t: &ProcTable,
    c: &Caller,
    a0: u64,
    a1: u64,
    a2: u64,
    a3: u64,
) -> (r: Result<u64, Status>)
    requires
        old(ipc).wf(),
        old(ipc).stats.room(),
        t.wf(),
    ensures
        final(ipc).wf(),
        reply_made(old(ipc), final(ipc), t, c, a0, a1, a2, a3, r),
{
    let pid: u64 = match c.pid {
        Some(p) => p,
        None => {
            return Err(STATUS_BAD_ARG);
        },
    };
    let eid: u32 = match endpoint_of(t, pid, a0, RIGHTS_READ) {
        Ok(e) => e,
        Err(_) => {
            return Err(STATUS_BAD_ARG);
        },
    };
    let send: Option<Cap> = match send_cap_of(t, pid, a3) {
        Ok(s) => s,
        Err(_) => {
            return Err(STATUS_BAD_ARG);
        },
    };
    let words: [u64; 2] = [a1, a2];
    let ghost pre = *ipc;
    let r: Result<u64, Status> = ipc::reply(ipc, c.tid, eid, words, send);
    proof {
        assert(words@ =~= seq![a1, a2]);
        assert(ipc::replied(&pre, ipc, c.tid, eid, words, send, r));
    }
    r
}

/// What [`sys_notify`] answers and does.
pub open spec fn notify_made(
    i0: &Ipc,
    i1: &Ipc,
    t: &ProcTable,
    c: &Caller,
    a0: u64,
    a1: u64,
    r: Result<Option<u64>, Status>,
) -> bool {
    &&& if c.pid is None || notification_answer(t, c.pid->0, a0, RIGHTS_WRITE) is Err {
        r == Err::<Option<u64>, Status>(STATUS_BAD_ARG) && *i1 == *i0
    } else {
        ipc::notified(
            i0,
            i1,
            notification_answer(t, c.pid->0, a0, RIGHTS_WRITE)->Ok_0,
            a1,
            r,
        )
    }
}

/// Signal the notification in slot `a0`. On `Ok`, a thread to wake.
pub fn sys_notify(ipc: &mut Ipc, t: &ProcTable, c: &Caller, a0: u64, a1: u64) -> (r: Result<
    Option<u64>,
    Status,
>)
    requires
        old(ipc).wf(),
        old(ipc).stats.room(),
        t.wf(),
    ensures
        final(ipc).wf(),
        notify_made(old(ipc), final(ipc), t, c, a0, a1, r),
{
    let pid: u64 = match c.pid {
        Some(p) => p,
        None => {
            return Err(STATUS_BAD_ARG);
        },
    };
    match notification_of(t, pid, a0, RIGHTS_WRITE) {
        Ok(nid) => ipc::notify(ipc, nid, a1),
        Err(_) => Err(STATUS_BAD_ARG),
    }
}

/// What [`sys_wait`] answers and does.
pub open spec fn wait_made(
    i0: &Ipc,
    i1: &Ipc,
    t: &ProcTable,
    c: &Caller,
    a0: u64,
    r: Result<(u32, Option<u64>), Status>,
) -> bool {
    &&& if c.pid is None || notification_answer(t, c.pid->0, a0, RIGHTS_READ) is Err {
        r == Err::<(u32, Option<u64>), Status>(STATUS_BAD_ARG) && *i1 == *i0
    } else {
        let nid = notification_answer(t, c.pid->0, a0, RIGHTS_READ)->Ok_0;
        exists|o: Result<Option<u64>, Status>|
            {
                &&& #[trigger] ipc::waited(i0, i1, c.tid, nid, o)
                &&& r == (match o {
                    Ok(b) => Ok::<(u32, Option<u64>), Status>((nid, b)),
                    Err(e) => Err(e),
                })
            }
    }
}

/// Wait for the notification in slot `a0`. On `Ok`, the notification's number
/// and the badge; without one, the thread sleeps and goes on as [`ipc::wait`]
/// says.
pub fn sys_wait(ipc: &mut Ipc, t: &ProcTable, c: &Caller, a0: u64) -> (r: Result<
    (u32, Option<u64>),
    Status,
>)
    requires
        old(ipc).wf(),
        old(ipc).stats.room(),
        t.wf(),
    ensures
        final(ipc).wf(),
        wait_made(old(ipc), final(ipc), t, c, a0, r),
{
    let pid: u64 = match c.pid {
        Some(p) => p,
        None => {
            return Err(STATUS_BAD_ARG);
        },
    };
    let nid: u32 = match notification_of(t, pid, a0, RIGHTS_READ) {
        Ok(n) => n,
        Err(_) => {
            return Err(STATUS_BAD_ARG);
        },
    };
    let ghost pre = *ipc;
    let o: Result<Option<u64>, Status> = ipc::wait(ipc, c.tid, nid);
    assert(ipc::waited(&pre, ipc, c.tid, nid, o));
    match o {
        Ok(b) => Ok((nid, b)),
        Err(e) => Err(e),
    }
}

/// A child that a process asks for: its image, the list of capabilities it
/// inherits in the caller's memory, and the badge for its end.
#[derive(Clone, Copy, Debug, PartialEq, Eq)]
pub struct SpawnRequest {
    pub img_id: u32,
    pub list: u64,
    pub count: u64,
    pub notif: Option<(u32, u64)>,
}

/// The notification for a child's end: none, or one that the caller may
/// signal, with a badge.
pub open spec fn spawn_notif(t: &ProcTable, pid: u64, a3: u64, a4: u64) -> Result<
    Option<(u32, u64)>,
    Status,
> {
    if a3 == CAP_NONE {
        if a4 != 0 {
            Err(STATUS_BAD_ARG)
        } else {
            Ok(None)
        }
    } else {
        match notification_answer(t, pid, a3, RIGHTS_WRITE) {
            Err(_) => Err(STATUS_BAD_ARG),
            Ok(nid) => if a4 == 0 {
                Err(STATUS_BAD_ARG)
            } else {
                Ok(Some((nid, a4)))
            },
        }
    }
}

/// What a spawn is asked for, or what it is refused with. At most
/// `max_inherit` capabilities may be inherited.
pub open spec fn spawn_request(
    t: &ProcTable,
    c: &Caller,
    max_inherit: u64,
    a0: u64,
    a1: u64,
    a2: u64,
    a3: u64,
    a4: u64,
) -> Result<SpawnRequest, Status> {
    match c.pid {
        None => Err(STATUS_BAD_ARG),
        Some(pid) => match cap_with(t, pid, a0, RIGHTS_READ) {
            None => Err(STATUS_BAD_ARG),
            Some(img) => match img.obj {
                CapObj::Image { img_id } => if a2 > max_inherit {
                    Err(STATUS_BAD_ARG)
                } else if a2 > 0 && !range_open(c.regions@, a1 as int, a2 * 16) {
                    Err(STATUS_BAD_ADDRESS)
                } else {
                    match spawn_notif(t, pid, a3, a4) {
                        Err(e) => Err(e),
                        Ok(notif) => Ok(SpawnRequest { img_id, list: a1, count: a2, notif }),
                    }
                },
                _ => Err(STATUS_BAD_ARG),
            },
        },
    }
}

/// Check a spawn. On `Ok`, the list is to be copied in and the child made.
pub fn sys_spawn(
    t: &ProcTable,
    c: &Caller,
    max_inherit: u64,
    a0: u64,
    a1: u64,
    a2: u64,
    a3: u64,
    a4: u64,
) -> (r: Result<SpawnRequest, Status>)
    requires
        t.wf(),
        max_inherit <= CAP_SLOTS,
    ensures
        r == spawn_request(t, c, max_inherit, a0, a1, a2, a3, a4),
{
    let pid: u64 = match c.pid {
        Some(p) => p,
        None => {
            return Err(STATUS_BAD_ARG);
        },
    };
    let img: Cap = match cap_in(t, pid, a0, RIGHTS_READ) {
        Some(i) => i,
        None => {
            return Err(STATUS_BAD_ARG);
        },
    };
    let img_id: u32 = match img.obj {
        CapObj::Image { img_id } => img_id,
        _ => {
            return Err(STATUS_BAD_ARG);
        },
    };
    if a2 > max_inherit {
        return Err(STATUS_BAD_ARG);
    }
    if a2 > 0 {
        if !user_range_ok(&c.regions, a1, a2 * 16) {
            return Err(STATUS_BAD_ADDRESS);
        }
    }
    let notif: Option<(u32, u64)> = if a3 == CAP_NONE {
        if a4 != 0 {
            return Err(STATUS_BAD_ARG);
        }
        None
    } else {
        match notification_of(t, pid, a3, RIGHTS_WRITE) {
            Err(_) => {
                return Err(STATUS_BAD_ARG);
            },
            Ok(nid) => {
                if a4 == 0 {
                    return Err(STATUS_BAD_ARG);
                }
                Some((nid, a4))
            },
        }
    };
    Ok(SpawnRequest { img_id, list: a1, count: a2, notif })
}

/// What a console read is refused with before anything is done.
pub open spec fn read_refusal(c: &Caller, a0: u64, a1: u64) -> Option<Status> {
    if a1 == 0 || a1 > LINE_MAX {
        Some(STATUS_BAD_ARG)
    } else if !range_open(c.regions@, a0 as int, a1 as int) {
        Some(STATUS_BAD_ADDRESS)
    } else {
        None
    }
}

/// What [`sys_console_read`] answers and does.
pub open spec fn line_read(
    c0: &Console,
    c1: &Console,
    c: &Caller,
    a0: u64,
    a1: u64,
    r: Result<Option<Seq<u8>>, Status>,
) -> bool {
    match read_refusal(c, a0, a1) {
        Some(e) => r == Err::<Option<Seq<u8>>, Status>(e) && *c1 == *c0,
        None => console::read_answer(c0, c1, c.tid, a1 as nat, r),
    }
}

/// Read a line of at most `a1` bytes into the buffer at `a0`.
///
/// On `Ok`, the line; without one, the thread sleeps and goes on as
/// [`console::read_line`] says.
pub fn sys_console_read(con: &mut Console, c: &Caller, a0: u64, a1: u64) -> (r: Result<
    Option<Vec<u8>>,
    Status,
>)
    requires
        old(con).wf(),
        old(con).stats.room(),
    ensures
        final(con).wf(),
        line_read(old(con), final(con), c, a0, a1, console::bytes_of(r)),
{
    if a1 == 0 || a1 > LINE_MAX as u64 {
        return Err(STATUS_BAD_ARG);
    }
    if !user_range_ok(&c.regions, a0, a1) {
        return Err(STATUS_BAD_ADDRESS);
    }
    console::read_line(con, c.tid, a1 as usize)
}

/// The processes that a listing of at most `a1` shows, or what it is refused
/// with.
pub open spec fn list_answer(
    t: &ProcTable,
    owners: Seq<u64>,
    c: &Caller,
    a0: u64,
    a1: u64,
) -> Result<Seq<(u64, usize)>, Status> {
    let pairs = proc::live_pairs(t.slots@, owners);
    if a1 == 0 || a1 > MAX_PROCESSES {
        Err(STATUS_BAD_ARG)
    } else if !range_open(c.regions@, a0 as int, a1 * 16) {
        Err(STATUS_BAD_ADDRESS)
    } else {
        Ok(
            pairs.take(
                if a1 <= pairs.len() {
                    a1 as int
                } else {
                    pairs.len() as int
                },
            ),
        )
    }
}

/// List at most `a1` processes into the buffer at `a0`. On `Ok`, their
/// numbers: each is to be written with how many threads it has.
pub fn sys_proc_list(t: &ProcTable, owners: &[u64], c: &Caller, a0: u64, a1: u64) -> (r: Result<
    Vec<(u64, usize)>,
    Status,
>)
    requires
        t.wf(),
    ensures
        match list_answer(t, owners@, c, a0, a1) {
            Ok(pairs) => r matches Ok(v) && v@ == pairs,
            Err(e) => r == Err::<Vec<(u64, usize)>, Status>(e),
        },
{
    if a1 == 0 || a1 > MAX_PROCESSES as u64 {
        return Err(STATUS_BAD_ARG);
    }
    if !user_range_ok(&c.regions, a0, a1 * 16) {
        return Err(STATUS_BAD_ADDRESS);
    }
    Ok(proc::list_live(t, owners, a1 as usize))
}

/// The caller may stop the machine: slot `a0` holds the power capability with
/// the right to write.
pub open spec fn may_stop(t: &ProcTable, c: &Caller, a0: u64) -> bool {
    c.pid matches Some(pid) && cap_with(t, pid, a0, RIGHTS_WRITE) matches Some(p) && p.obj is Power
}

/// Check a shutdown. On `Ok`, the machine is to be stopped.
pub fn sys_shutdown(t: &ProcTable, c: &Caller, a0: u64) -> (r: Result<(), Status>)
    requires
        t.wf(),
    ensures
        r == (if may_stop(t, c, a0) {
            Ok::<(), Status>(())
        } else {
            Err(STATUS_BAD_ARG)
        }),
{
    let pid: u64 = match c.pid {
        Some(p) => p,
        None => {
            return Err(STATUS_BAD_ARG);
        },
    };
    match cap_in(t, pid, a0, RIGHTS_WRITE) {
        None => Err(STATUS_BAD_ARG),
        Some(p) => match p.obj {
            CapObj::Power => Ok(()),
            _ => Err(STATUS_BAD_ARG),
        },
    }
}

/// Expect a general protection fault at the user's next instruction, and go
/// on behind it: that instruction is one byte long.
pub fn sys_prove_ring3(s: &mut Syscalls, f: &mut Faults, frame: &SyscallFrame) -> (r: u64)
    requires
        old(s).wf(),
        old(s).stats.room(),
        frame.usr_rip < u64::MAX,
    ensures
        final(s).wf(),
        *final(s) == (Syscalls {
            stats: SyscallStats {
                prove_ring3_calls: (old(s).stats.prove_ring3_calls + 1) as u64,
                ..old(s).stats
            },
            ..*old(s)
        }),
        *final(f) == (Faults {
            armed: 14,
            resume: (frame.usr_rip + 1) as u64,
            seen: faults::unseen(),
        }),
        r == 0,
{
    faults::arm_with_resume(f, 13, frame.usr_rip + 1);
    s.stats.prove_ring3_calls = s.stats.prove_ring3_calls + 1;
    0
}

/// The expected general protection fault was seen.
pub open spec fn ring3_shown(obs: ObservedFault) -> bool {
    obs.valid && obs.vector == GP_VECTOR
}

/// Whether the fault that was expected came; if so, keep that.
pub fn sys_prove_done(s: &mut Syscalls, f: &Faults) -> (r: u64)
    requires
        old(s).wf(),
    ensures
        final(s).wf(),
        r == (if ring3_shown(f.seen) {
            1u64
        } else {
            0
        }),
        *final(s) == (if ring3_shown(f.seen) {
            Syscalls {
                stats: SyscallStats {
                    ring3_proved: true,
                    ring3_gp_ec: f.seen.error_code,
                    ..old(s).stats
                },
                ..*old(s)
            }
        } else {
            *old(s)
        }),
{
    let obs: ObservedFault = faults::observed(f);
    if obs.valid && obs.vector == GP_VECTOR {
        s.stats.ring3_proved = true;
        s.stats.ring3_gp_ec = obs.error_code;
        1
    } else {
        0
    }
}

/// A status as the user's result register holds it.
pub open spec fn rax_of(s: Status) -> u64 {
    s as u64
}

fn to_rax(s: Status) -> (r: u64)
    ensures
        r == rax_of(s),
{
    s as u64
}

/// A badge as a status: a positive payload, since a status below zero is a
/// refusal and zero is no badge. The top bit is left out; alone, it goes back
/// as the highest bit that a payload has.
pub open spec fn badge_status(badge: u64) -> Status {
    if badge == TOP_BIT {
        TOP_PAYLOAD
    } else {
        (badge as int % 0x8000_0000_0000_0000) as i64
    }
}

/// The badge that is the top bit alone, and the status that stands for it.
pub const TOP_BIT: u64 = 0x8000_0000_0000_0000;

pub const TOP_PAYLOAD: i64 = 0x4000_0000_0000_0000;

/// The status that a wait goes back with for a badge. It is positive for every
/// badge, and it is the badge itself where the top bit is clear.
pub fn wait_status(badge: u64) -> (r: Status)
    ensures
        r == badge_status(badge),
        r >= 0,
        badge != 0 ==> r > 0,
        badge < TOP_BIT ==> r == badge,
{
    if badge == TOP_BIT {
        TOP_PAYLOAD
    } else {
        (badge % TOP_BIT) as i64
    }
}

/// Every badge goes back as a positive payload, never as a refusal and never
/// as none.
pub proof fn law_badges_are_positive(badge: u64)
    requires
        badge != 0,
    ensures
        badge_status(badge) > 0,
        badge < TOP_BIT ==> badge_status(badge) == badge,
{
}

/// What is left to do for a call, once the kernel's objects are up to date.
pub enum Outcome {
    /// Go back to the user with this result.
    Return { rax: u64 },
    /// Copy these bytes in, and go on with [`debug_written`].
    Write { buf: u64, len: u64 },
    /// Wake the thread, if there is one, and end the calling thread.
    Exit { wake: Option<u64> },
    /// Go on as [`ipc::call`] says; the reply goes to the buffer.
    Call { eid: u32, posted: Posted, buf: u64 },
    /// Write the request to the buffer, or sleep for it first.
    Receive { eid: u32, got: Option<([u64; 2], u64)>, buf: u64 },
    /// Wake the caller, and go back with success.
    Replied { caller: u64 },
    /// Wake the thread, if there is one, and go back with success.
    Notified { wake: Option<u64> },
    /// Go back with the badge's status, or sleep for the badge first and make
    /// its status with [`wait_status`].
    Wait { nid: u32, status: Option<Status> },
    /// Copy the list in, and make the child.
    Spawn { request: SpawnRequest },
    /// Write the line to the buffer, or sleep for it first.
    Line { line: Option<Vec<u8>>, buf: u64, max: u64 },
    /// Write the processes to the buffer.
    List { pairs: Vec<(u64, usize)>, buf: u64 },
    /// Stop the machine.
    Shutdown,
}

/// One more call was counted.
pub open spec fn counted(s: &Syscalls) -> Syscalls {
    Syscalls { stats: SyscallStats { calls: (s.stats.calls + 1) as u64, ..s.stats }, ..*s }
}

/// What a debug write leads to.
pub open spec fn after_write(r: Result<(), Status>, buf: u64, len: u64) -> Outcome {
    match r {
        Ok(_) => Outcome::Write { buf, len },
        Err(e) => Outcome::Return { rax: rax_of(e) },
    }
}

/// What a call leads to.
pub open spec fn after_call(r: Result<(u32, Posted), Status>, buf: u64) -> Outcome {
    match r {
        Ok(p) => Outcome::Call { eid: p.0, posted: p.1, buf },
        Err(e) => Outcome::Return { rax: rax_of(e) },
    }
}

/// What a receive leads to.
pub open spec fn after_recv(r: Result<(u32, Option<([u64; 2], u64)>), Status>, buf: u64) -> Outcome {
    match r {
        Ok(p) => Outcome::Receive { eid: p.0, got: p.1, buf },
        Err(e) => Outcome::Return { rax: rax_of(e) },
    }
}

/// What a reply leads to.
pub open spec fn after_reply(r: Result<u64, Status>) -> Outcome {
    match r {
        Ok(caller) => Outcome::Replied { caller },
        Err(e) => Outcome::Return { rax: rax_of(e) },
    }
}

/// What a signal leads to.
pub open spec fn after_notify(r: Result<Option<u64>, Status>) -> Outcome {
    match r {
        Ok(wake) => Outcome::Notified { wake },
        Err(e) => Outcome::Return { rax: rax_of(e) },
    }
}

/// What a wait leads to.
pub open spec fn after_wait(r: Result<(u32, Option<u64>), Status>) -> Outcome {
    match r {
        Ok(p) => Outcome::Wait {
            nid: p.0,
            status: match p.1 {
                Some(badge) => Some(badge_status(badge)),
                None => None,
            },
        },
        Err(e) => Outcome::Return { rax: rax_of(e) },
    }
}

/// A wait for a notification with badges pending goes back at once, with a
/// positive status, and takes the badges.
pub proof fn law_pending_badges_come_back(
    i0: Ipc,
    i1: Ipc,
    t: ProcTable,
    c: Caller,
    a0: u64,
    nid: u32,
    r: Result<(u32, Option<u64>), Status>,
)
    requires
        i0.wf(),
        c.pid is Some,
        notification_answer(&t, c.pid->0, a0, RIGHTS_READ) == Ok::<u32, Status>(nid),
        ipc::notif_live(&i0, nid),
        i0.notifs@[nid as int].pending != 0,
        wait_made(&i0, &i1, &t, &c, a0, r),
    ensures
        after_wait(r) == (Outcome::Wait {
            nid,
            status: Some(badge_status(i0.notifs@[nid as int].pending)),
        }),
        badge_status(i0.notifs@[nid as int].pending) > 0,
        i1.notifs@[nid as int].pending == 0,
{
    law_badges_are_positive(i0.notifs@[nid as int].pending);
}

/// What a spawn leads to.
pub open spec fn after_spawn(r: Result<SpawnRequest, Status>) -> Outcome {
    match r {
        Ok(request) => Outcome::Spawn { request },
        Err(e) => Outcome::Return { rax: rax_of(e) },
    }
}

/// What a console read leads to.
pub open spec fn after_line(r: Result<Option<Vec<u8>>, Status>, buf: u64, max: u64) -> Outcome {
    match r {
        Ok(line) => Outcome::Line { line, buf, max },
        Err(e) => Outcome::Return { rax: rax_of(e) },
    }
}

/// How many threads the caller's process has.
pub open spec fn siblings(c: &Caller, owners: Seq<u64>) -> usize {
    match c.pid {
        Some(p) => proc::count_of(owners, p) as usize,
        None => 0,
    }
}

/// What the call `nr` with arguments `a` does.
///
/// Each number changes only what its call is about. The numbers are those of
/// the `SYS_` constants; every other one is refused and counted.
pub open spec fn dispatched(
    s0: &Syscalls,
    s1: &Syscalls,
    i0: &Ipc,
    i1: &Ipc,
    t0: &ProcTable,
    t1: &ProcTable,
    con0: &Console,
    con1: &Console,
    f0: &Faults,
    f1: &Faults,
    c: &Caller,
    owners: Seq<u64>,
    max_inherit: u64,
    usr_rip: u64,
    nr: u64,
    a: Seq<u64>,
    o: Outcome,
) -> bool {
    let s = counted(s0);
    &&& nr != SYS_IPC_RECV ==> *t1 == *t0
    &&& nr != SYS_CONSOLE_READ ==> *con1 == *con0
    &&& nr != SYS_PROVE_RING3 ==> *f1 == *f0
    &&& !(nr == SYS_THREAD_EXIT || SYS_IPC_CALL <= nr <= SYS_WAIT) ==> *i1 == *i0
    &&& nr >= SYS_IPC_CALL && nr <= SYS_SHUTDOWN ==> *s1 == s
    &&& nr == SYS_DEBUG_WRITE ==> exists|r: Result<(), Status>|
        #[trigger] write_checked(&s, s1, c, a[0], a[1], r) && o == after_write(r, a[0], a[1])
    &&& nr == SYS_THREAD_EXIT ==> exists|w: Option<u64>|
        #[trigger] thread_exited(&s, s1, i0, i1, t0, c, siblings(c, owners), a[0], w) && o
            == (Outcome::Exit { wake: w })
    &&& nr == SYS_PROVE_RING3 ==> {
        &&& *f1 == (Faults { armed: 14, resume: (usr_rip + 1) as u64, seen: faults::unseen() })
        &&& *s1 == (Syscalls {
            stats: SyscallStats {
                prove_ring3_calls: (s.stats.prove_ring3_calls + 1) as u64,
                ..s.stats
            },
            ..s
        })
        &&& o == (Outcome::Return { rax: 0 })
    }
    &&& nr == SYS_PROVE_DONE ==> {
        &&& o == (Outcome::Return {
            rax: if ring3_shown(f0.seen) {
                1
            } else {
                0
            },
        })
        &&& *s1 == (if ring3_shown(f0.seen) {
            Syscalls {
                stats: SyscallStats {
                    ring3_proved: true,
                    ring3_gp_ec: f0.seen.error_code,
                    ..s.stats
                },
                ..s
            }
        } else {
            s
        })
    }
    &&& nr == SYS_ABI_ECHO6 ==> {
        &&& o == (Outcome::Return { rax: fingerprint(a) })
        &&& *s1 == (Syscalls {
            stats: SyscallStats { echo_calls: (s.stats.echo_calls + 1) as u64, ..s.stats },
            ..s
        })
    }
    &&& nr == SYS_IPC_CALL ==> exists|r: Result<(u32, Posted), Status>|
        #[trigger] call_made(i0, i1, t0, c, a[0], a[1], a[2], a[3], a[4], r) && o == after_call(
            r,
            a[4],
        )
    &&& nr == SYS_IPC_RECV ==> exists|r: Result<(u32, Option<([u64; 2], u64)>), Status>|
        #[trigger] recv_made(i0, i1, t0, t1, c, a[0], a[1], r) && o == after_recv(r, a[1])
    &&& nr == SYS_IPC_REPLY ==> exists|r: Result<u64, Status>|
        #[trigger] reply_made(i0, i1, t0, c, a[0], a[1], a[2], a[3], r) && o == after_reply(r)
    &&& nr == SYS_NOTIFY ==> exists|r: Result<Option<u64>, Status>|
        #[trigger] notify_made(i0, i1, t0, c, a[0], a[1], r) && o == after_notify(r)
    &&& nr == SYS_WAIT ==> exists|r: Result<(u32, Option<u64>), Status>|
        #[trigger] wait_made(i0, i1, t0, c, a[0], r) && o == after_wait(r)
    &&& nr == SYS_SPAWN ==> o == after_spawn(
        spawn_request(t0, c, max_inherit, a[0], a[1], a[2], a[3], a[4]),
    )
    &&& nr == SYS_CONSOLE_READ ==> exists|r: Result<Option<Vec<u8>>, Status>|
        #[trigger] line_read(con0, con1, c, a[0], a[1], console::bytes_of(r)) && o == after_line(
            r,
            a[0],
            a[1],
        )
    &&& nr == SYS_PROC_LIST ==> match list_answer(t0, owners, c, a[0], a[1]) {
        Ok(l) => o matches Outcome::List { pairs, buf } && pairs@ == l && buf == a[0],
        Err(e) => o == (Outcome::Return { rax: rax_of(e) }),
    }
    &&& nr == SYS_SHUTDOWN ==> o == (if may_stop(t0, c, a[0]) {
        Outcome::Shutdown
    } else {
        Outcome::Return { rax: rax_of(STATUS_BAD_ARG) }
    })
    &&& (nr == 0 || nr == 3 || nr > SYS_SHUTDOWN) ==> {
        &&& o == (Outcome::Return { rax: rax_of(STATUS_BAD_CALL) })
        &&& *s1 == (Syscalls {
            stats: SyscallStats { invalid_nr: (s.stats.invalid_nr + 1) as u64, ..s.stats },
            ..s
        })
    }
}

/// Carry a system call out, as far as the kernel's objects go. `owners` names,
/// for every thread that lives and belongs to a process, that process;
/// `max_inherit` is how many capabilities a child may inherit.
pub fn syscall_dispatch(
    s: &mut Syscalls,
    ipc: &mut Ipc,
    t: &mut ProcTable,
    con: &mut Console,
    f: &mut Faults,
    c: &Caller,
    owners: &[u64],
    max_inherit: u64,
    frame: &SyscallFrame,
    nr: u64,
    a: [u64; 6],
) -> (o: Outcome)
    requires
        old(s).wf(),
        old(s).stats.room(),
        old(s).stats.calls < u64::MAX,
        old(ipc).wf(),
        old(ipc).stats.room(),
        old(t).wf(),
        old(con).wf(),
        old(con).stats.room(),
        max_inherit <= CAP_SLOTS,
        frame.usr_rip < u64::MAX,
    ensures
        final(s).wf(),
        final(ipc).wf(),
        final(t).wf(),
        final(con).wf(),
        dispatched(
            old(s),
            final(s),
            old(ipc),
            final(ipc),
            old(t),
            final(t),
            old(con),
            final(con),
            old(f),
            final(f),
            c,
            owners@,
            max_inherit,
            frame.usr_rip,
            nr,
            a@,
            o,
        ),
{
    let ghost s0 = counted(s);
    let ghost i0 = *ipc;
    let ghost t0 = *t;
    let ghost con0 = *con;
    s.stats.calls = s.stats.calls + 1;
    if nr == SYS_DEBUG_WRITE {
        let r: Result<(), Status> = sys_debug_write(s, c, a[0], a[1]);
        assert(write_checked(&s0, s, c, a@[0], a@[1], r));
        match r {
            Ok(_) => Outcome::Write { buf: a[0], len: a[1] },
            Err(e) => Outcome::Return { rax: to_rax(e) },
        }
    } else if nr == SYS_THREAD_EXIT {
        let live_threads: usize = match c.pid {
            Some(p) => proc::proc_live_threads(owners, p),
            None => 0,
        };
        let wake: Option<u64> = sys_thread_exit(s, ipc, t, c, live_threads, a[0]);
        assert(live_threads == siblings(c, owners@));
        assert(thread_exited(&s0, s, &i0, ipc, &t0, c, siblings(c, owners@), a@[0], wake));
        Outcome::Exit { wake }
    } else if nr == SYS_PROVE_RING3 {
        Outcome::Return { rax: sys_prove_ring3(s, f, frame) }
    } else if nr == SYS_PROVE_DONE {
        Outcome::Return { rax: sys_prove_done(s, f) }
    } else if nr == SYS_ABI_ECHO6 {
        s.stats.echo_calls = s.stats.echo_calls + 1;
        Outcome::Return { rax: echo6_fingerprint(a) }
    } else if nr == SYS_IPC_CALL {
        let r: Result<(u32, Posted), Status> = sys_ipc_call(ipc, t, c, a[0], a[1], a[2], a[3], a[4]);
        assert(call_made(&i0, ipc, &t0, c, a@[0], a@[1], a@[2], a@[3], a@[4], r));
        match r {
            Ok((eid, posted)) => Outcome::Call { eid, posted, buf: a[4] },
            Err(e) => Outcome::Return { rax: to_rax(e) },
        }
    } else if nr == SYS_IPC_RECV {
        let r: Result<(u32, Option<([u64; 2], u64)>), Status> = sys_ipc_recv(ipc, t, c, a[0], a[1]);
        assert(recv_made(&i0, ipc, &t0, t, c, a@[0], a@[1], r));
        match r {
            Ok((eid, got)) => Outcome::Receive { eid, got, buf: a[1] },
            Err(e) => Outcome::Return { rax: to_rax(e) },
        }
    } else if nr == SYS_IPC_REPLY {
        let r: Result<u64, Status> = sys_ipc_reply(ipc, t, c, a[0], a[1], a[2], a[3]);
        assert(reply_made(&i0, ipc, &t0, c, a@[0], a@[1], a@[2], a@[3], r));
        match r {
            Ok(caller) => Outcome::Replied { caller },
            Err(e) => Outcome::Return { rax: to_rax(e) },
        }
    } else if nr == SYS_NOTIFY {
        let r: Result<Option<u64>, Status> = sys_notify(ipc, t, c, a[0], a[1]);
        assert(notify_made(&i0, ipc, &t0, c, a@[0], a@[1], r));
        match r {
            Ok(wake) => Outcome::Notified { wake },
            Err(e) => Outcome::Return { rax: to_rax(e) },
        }
    } else if nr == SYS_WAIT {
        let r: Result<(u32, Option<u64>), Status> = sys_wait(ipc, t, c, a[0]);
        assert(wait_made(&i0, ipc, &t0, c, a@[0], r));
        match r {
            Ok((nid, None)) => Outcome::Wait { nid, status: None },
            Ok((nid, Some(badge))) => Outcome::Wait { nid, status: Some(wait_status(badge)) },
            Err(e) => Outcome::Return { rax: to_rax(e) },
        }
    } else if nr == SYS_SPAWN {
        match sys_spawn(t, c, max_inherit, a[0], a[1], a[2], a[3], a[4]) {
            Ok(request) => Outcome::Spawn { request },
            Err(e) => Outcome::Return { rax: to_rax(e) },
        }
    } else if nr == SYS_CONSOLE_READ {
        let r: Result<Option<Vec<u8>>, Status> = sys_console_read(con, c, a[0], a[1]);
        assert(line_read(&con0, con, c, a@[0], a@[1], console::bytes_of(r)));
        match r {
            Ok(line) => Outcome::Line { line, buf: a[0], max: a[1] },
            Err(e) => Outcome::Return { rax: to_rax(e) },
        }
    } else if nr == SYS_PROC_LIST {
        match sys_proc_list(t, owners, c, a[0], a[1]) {
            Ok(pairs) => Outcome::List { pairs, buf: a[0] },
            Err(e) => Outcome::Return { rax: to_rax(e) },
        }
    } else if nr == SYS_SHUTDOWN {
        match sys_shutdown(t, c, a[0]) {
            Ok(_) => Outcome::Shutdown,
            Err(e) => Outcome::Return { rax: to_rax(e) },
        }
    } else {
        s.stats.invalid_nr = s.stats.invalid_nr + 1;
        Outcome::Return { rax: to_rax(STATUS_BAD_CALL) }
    }
}

/// Nobody stops the machine without the power capability: a call that leads
/// to a shutdown came from a process that holds it, with the right to write,
/// in the slot it named.
pub proof fn law_shutdown_needs_power(
    s0: Syscalls,
    s1: Syscalls,
    i0: Ipc,
    i1: Ipc,
    t0: ProcTable,
    t1: ProcTable,
    con0: Console,
    con1: Console,
    f0: Faults,
    f1: Faults,
    c: Caller,
    owners: Seq<u64>,
    max_inherit: u64,
    usr_rip: u64,
    nr: u64,
    a: Seq<u64>,
)
    requires
        a.len() == 6,
        dispatched(
            &s0,
            &s1,
            &i0,
            &i1,
            &t0,
            &t1,
            &con0,
            &con1,
            &f0,
            &f1,
            &c,
            owners,
            max_inherit,
            usr_rip,
            nr,
            a,
            Outcome::Shutdown,
        ),
    ensures
        nr == SYS_SHUTDOWN,
        c.pid is Some,
        cap::read_answer(&t0, c.pid->0, a[0] as int) matches Ok(p) && p.obj is Power && p.rights
            & RIGHTS_WRITE != 0,
{
}

/// Where the user's selectors count from: the user's data segment is the next
/// entry, its code segment the one after.
pub const STAR_USER_BASE: u64 = 0x20;

/// The flags that are cleared at a system call: direction, interrupt, trap,
/// nested task and alignment check.
pub const SFMASK_VALUE: u64 = 0x4_4700;

/// The flags that user code starts with: interrupts on.
pub const USER_RFLAGS: u64 = 0x202;

pub const EFER_SCE: u64 = 1;
pub const CR4_SMEP: u64 = 0x10_0000;
pub const CR4_SMAP: u64 = 0x20_0000;

/// The registers that a system call goes by.
#[derive(Clone, Copy, Debug, PartialEq, Eq, Structural)]
pub struct Msrs {
    pub efer: u64,
    pub star: u64,
    pub lstar: u64,
    pub sfmask: u64,
    pub kernel_gs_base: u64,
}

/// What the registers are to be set to, for an entry at `entry` and scratch
/// space at `scratch`.
pub open spec fn msrs_for(efer: u64, entry: u64, scratch: u64) -> Msrs {
    Msrs {
        efer: efer | EFER_SCE,
        star: STAR_USER_BASE << 48 | (gdt::KERNEL_CODE_SELECTOR as u64) << 32,
        lstar: entry,
        sfmask: SFMASK_VALUE,
        kernel_gs_base: scratch,
    }
}

/// What the registers are to be set to.
pub fn wanted_msrs(efer: u64, entry: u64, scratch: u64) -> (r: Msrs)
    ensures
        r == msrs_for(efer, entry, scratch),
{
    Msrs {
        efer: efer | EFER_SCE,
        star: (STAR_USER_BASE << 48) | ((gdt::KERNEL_CODE_SELECTOR as u64) << 32),
        lstar: entry,
        sfmask: SFMASK_VALUE,
        kernel_gs_base: scratch,
    }
}

/// What is wrong with the registers as they read back.
pub open spec fn msr_fault(now: Msrs, want: Msrs) -> Option<&'static str> {
    if now.efer & EFER_SCE == 0 {
        Some("EFER.SCE did not stick")
    } else if now.star != want.star {
        Some("STAR read-back mismatch")
    } else if now.lstar != want.lstar {
        Some("LSTAR read-back mismatch")
    } else if now.sfmask != SFMASK_VALUE {
        Some("SFMASK read-back mismatch")
    } else if now.kernel_gs_base != want.kernel_gs_base {
        Some("KERNEL_GS_BASE read-back mismatch")
    } else {
        None
    }
}

/// Hold the registers as they read back against what they were set to.
pub fn check_msrs(now: &Msrs, want: &Msrs) -> (r: Result<(), &'static str>)
    ensures
        r == (match msr_fault(*now, *want) {
            Some(e) => Err::<(), &'static str>(e),
            None => Ok(()),
        }),
{
    if now.efer & EFER_SCE == 0 {
        return Err("EFER.SCE did not stick");
    }
    if now.star != want.star {
        return Err("STAR read-back mismatch");
    }
    if now.lstar != want.lstar {
        return Err("LSTAR read-back mismatch");
    }
    if now.sfmask != SFMASK_VALUE {
        return Err("SFMASK read-back mismatch");
    }
    if now.kernel_gs_base != want.kernel_gs_base {
        return Err("KERNEL_GS_BASE read-back mismatch");
    }
    Ok(())
}

/// The control register with the guards that the processor has.
pub open spec fn cr4_with(cr4: u64, has_smep: bool, has_smap: bool) -> u64 {
    let a = if has_smep {
        cr4 | CR4_SMEP
    } else {
        cr4
    };
    if has_smap {
        a | CR4_SMAP
    } else {
        a
    }
}

/// The control register with the guards that the processor has.
pub fn wanted_cr4(cr4: u64, has_smep: bool, has_smap: bool) -> (r: u64)
    ensures
        r == cr4_with(cr4, has_smep, has_smap),
{
    let mut want: u64 = cr4;
    if has_smep {
        want = want | CR4_SMEP;
    }
    if has_smap {
        want = want | CR4_SMAP;
    }
    want
}

/// Hold the control register as it reads back against the guards that the
/// processor has. The answer is whether user memory is guarded.
pub fn check_cr4(now: u64, has_smep: bool, has_smap: bool) -> (r: Result<bool, &'static str>)
    ensures
        r == (if has_smep && now & CR4_SMEP == 0 {
            Err::<bool, &'static str>("CR4.SMEP did not stick")
        } else if has_smap && now & CR4_SMAP == 0 {
            Err("CR4.SMAP did not stick")
        } else {
            Ok(has_smap)
        }),
{
    if has_smep && now & CR4_SMEP == 0 {
        return Err("CR4.SMEP did not stick");
    }
    if has_smap && now & CR4_SMAP == 0 {
        return Err("CR4.SMAP did not stick");
    }
    Ok(has_smap && now & CR4_SMAP != 0)
}

/// What a return to user code pops: where to go on, in which segments, with
/// which flags and stack; and the kernel stack to come back on.
#[derive(Clone, Copy, Debug, PartialEq, Eq, Structural)]
pub struct UserEntry {
    pub kernel_top: u64,
    pub rip: u64,
    pub cs: u64,
    pub rflags: u64,
    pub rsp: u64,
    pub ss: u64,
}

/// What [`enter_user`] answers and does.
pub open spec fn user_entered(
    kernel_top: Option<u64>,
    rip: u64,
    user_rsp: u64,
    r: Result<UserEntry, &'static str>,
) -> bool {
    &&& r == (match kernel_top {
        Some(top) => Ok::<UserEntry, &'static str>(
            UserEntry {
                kernel_top: top,
                rip,
                cs: gdt::USER_CODE_SELECTOR_RPL3 as u64,
                rflags: USER_RFLAGS,
                rsp: user_rsp,
                ss: gdt::USER_DATA_SELECTOR_RPL3 as u64,
            },
        ),
        None => Err("enter_user: bootstrap tried to become user code"),
    })
}

/// Plan the current thread's first step into user code. `kernel_top` is the
/// top of its kernel stack.
///
/// The kernel stops on an error.
pub fn enter_user(kernel_top: Option<u64>, rip: u64, user_rsp: u64) -> (r: Result<
    UserEntry,
    &'static str,
>)
    ensures
        user_entered(kernel_top, rip, user_rsp, r),
{
    match kernel_top {
        Some(top) => Ok(
            UserEntry {
                kernel_top: top,
                rip,
                cs: gdt::USER_CODE_SELECTOR_RPL3 as u64,
                rflags: USER_RFLAGS,
                rsp: user_rsp,
                ss: gdt::USER_DATA_SELECTOR_RPL3 as u64,
            },
        ),
        None => Err("enter_user: bootstrap tried to become user code"),
    }
}

/// Point the entry's kernel stack at `top`.
pub fn set_cpu_kernel_stack(s: &mut CpuScratch, top: u64)
    ensures
        *final(s) == (CpuScratch { kernel_rsp: top, ..*old(s) }),
{
    s.kernel_rsp = top;
}

/// Whether the processor's private base is the kernel's.
pub fn gs_is_kernel_side(gs_base: u64, scratch: u64) -> (r: bool)
    ensures
        r == (gs_base == scratch),
{
    gs_base == scratch
}

/// Whether the bases have to be swapped to be on the kernel's side.
pub fn gs_to_kernel_side(gs_base: u64, scratch: u64) -> (swap: bool)
    ensures
        swap == (gs_base != scratch),
{
    !gs_is_kernel_side(gs_base, scratch)
}

/// Whether the bases have to be swapped to be off the kernel's side.
pub fn gs_to_canonical_side(gs_base: u64, scratch: u64) -> (swap: bool)
    ensures
        swap == (gs_base == scratch),
{
    gs_is_kernel_side(gs_base, scratch)
}

/// The selectors that a return from a system call computes from the register
/// it goes by are the user's segments, and those of the entry the kernel's.
pub proof fn law_star_selectors(efer: u64, entry: u64, scratch: u64)
    ensures
        ({
            let star = msrs_for(efer, entry, scratch).star;
            &&& ((star >> 48) + 8) as u64 | 3 == gdt::USER_DATA_SELECTOR_RPL3
            &&& ((star >> 48) + 16) as u64 | 3 == gdt::USER_CODE_SELECTOR_RPL3
            &&& star >> 32 & 0xFFFF == gdt::KERNEL_CODE_SELECTOR
        }),
{
    assert({
        let star = 0x20u64 << 48 | 8u64 << 32;
        &&& star >> 48 == 0x20
        &&& star >> 32 & 0xFFFF == 8
        &&& 0x28u64 | 3 == 0x2B
        &&& 0x30u64 | 3 == 0x33
    }) by (bit_vector);
}

/// A message gives no frame a second owner: what a thread may send is never an
/// owned frame, and what lands with the receiver is what was sent.
pub proof fn law_messages_keep_one_owner(
    t0: ProcTable,
    t1: ProcTable,
    s0: ipc::IpcStats,
    s1: ipc::IpcStats,
    sender: u64,
    from: u64,
    pid: u64,
    c: Cap,
    slot: u64,
    phys: u64,
)
    requires
        t0.wf(),
        t1.wf(),
        send_cap_answer(&t0, sender, from) == Ok::<Option<Cap>, Status>(Some(c)),
        ipc::handed(s0, s1, &t0, &t1, pid, c, slot),
        cap::one_owner(&t0, phys),
    ensures
        !(c.obj is Untyped),
        cap::one_owner(&t1, phys),
{
    if t1 != t0 {
        assert(cap::slot_set(&t0, &t1, pid, slot as int, c));
        cap::law_one_owner(t0, t1, pid, slot as int, c, phys);
    }
}

} // verus!

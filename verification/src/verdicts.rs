//! The verdicts of the self-tests that run threads or touch the machine: from
//! what was observed to pass or to the first thing that was wrong.

use vstd::prelude::*;
use crate::console::ConsoleStats;
use crate::faults::ObservedFault;
use crate::ipc::IpcStats;
use crate::paging::KERNEL_OFFSET;
use crate::payloads::{EXIT_CODE_WIDE, M5_MAGIC};
use crate::syscall::SyscallStats;

verus! {

/// What the first test thread leaves behind for the argument 0x5A5A.
pub const T1_WANT: u64 = 0xC0FF_EE00_DEAD_E4B5;

/// What the register test puts into rsi, rdi and r12 to r15.
pub const T3_RSI: u64 = 0x3333_4444_5555_6666;

pub const T3_RDI: u64 = 0x4444_5555_6666_7777;

pub const T3_R12: u64 = 0x5555_6666_7777_8888;

pub const T3_R13: u64 = 0x6666_7777_8888_9999;

pub const T3_R14: u64 = 0x7777_8888_9999_AAAA;

pub const T3_R15: u64 = 0x8888_9999_AAAA_BBBB;

/// The selectors that the call boundary loads.
pub const STAR_WANT: u64 = 0x0020_0008_0000_0000;

/// What the probe of the kernel half holds.
pub const KHALF_PATTERN: u64 = 0xA5A5_5A5A_A5A5_5A5A;

/// A user page that no test maps.
pub const P10_HOLE_VA: u64 = 0x50_0000;

/// The identity address that the kernel's view must not have.
pub const PROBE_VA: u64 = 0x1000;

/// The badge of the relay test.
pub const RELAY_BADGE: u64 = 0x51AB;

/// The verdict on a list of checks: the message of the first that fails.
pub open spec fn judged(checks: Seq<(bool, &'static str)>) -> Result<(), &'static str>
    decreases checks.len(),
{
    if checks.len() == 0 {
        Ok(())
    } else if !checks[0].0 {
        Err(checks[0].1)
    } else {
        judged(checks.skip(1))
    }
}

/// Judge a list of checks.
pub fn judge(checks: &[(bool, &'static str)]) -> (r: Result<(), &'static str>)
    ensures
        r == judged(checks@),
{
    let n: usize = checks.len();
    let mut i: usize = 0;
    assert(checks@.skip(0) =~= checks@);
    while i < n
        invariant
            i <= n,
            n == checks@.len(),
            judged(checks@) == judged(checks@.skip(i as int)),
        decreases n - i,
    {
        let (ok, why): (bool, &'static str) = checks[i];
        assert(checks@.skip(i as int)[0] == checks@[i as int]);
        assert(checks@.skip(i as int).skip(1) =~= checks@.skip(i as int + 1));
        if !ok {
            return Err(why);
        }
        i = i + 1;
    }
    Ok(())
}

/// A list is passed if and only if every check is.
pub proof fn law_pass_is_all(checks: Seq<(bool, &'static str)>)
    ensures
        judged(checks) is Ok <==> forall|i: int| 0 <= i < checks.len() ==> (#[trigger] checks[i]).0,
    decreases checks.len(),
{
    if checks.len() > 0 {
        let rest = checks.skip(1);
        law_pass_is_all(rest);
        if checks[0].0 {
            if judged(rest) is Ok {
                assert forall|i: int| 0 <= i < checks.len() implies (#[trigger] checks[i]).0 by {
                    if i > 0 {
                        assert(rest[i - 1] == checks[i]);
                    }
                }
            } else {
                let i = choose|i: int| 0 <= i < rest.len() && !(#[trigger] rest[i]).0;
                assert(!checks[i + 1].0);
            }
        }
    }
}

/// A counter went from `before` to `after` in `n` steps.
pub open spec fn rose_by(before: u64, after: u64, n: u64) -> bool {
    after == before + n
}

fn rose(before: u64, after: u64, n: u64) -> (r: bool)
    ensures
        r == rose_by(before, after, n),
{
    after >= before && after - before == n
}

fn rose2(before: u64, after: u64, n: u64) -> (r: bool)
    ensures
        r == (after == before + 2 * n),
{
    after >= before && (after - before) % 2 == 0 && (after - before) / 2 == n
}

/// What an exit code of the loaded image means.
#[verifier::allow_in_spec]
pub fn payload_reason(status: u64) -> (r: &'static str)
    returns
        (match status {
            43 => "payload: META magic read back wrong in ring 3 (43)",
            44 => "payload: NOLOAD bss not zero in ring 3 (44)",
            45 => "payload: debug_write returned the wrong count (45)",
            99 => "payload: its panic handler ran (99)",
            _ => "payload exited with a code from nowhere in the contract",
        }),
{
    match status {
        43 => "payload: META magic read back wrong in ring 3 (43)",
        44 => "payload: NOLOAD bss not zero in ring 3 (44)",
        45 => "payload: debug_write returned the wrong count (45)",
        99 => "payload: its panic handler ran (99)",
        _ => "payload exited with a code from nowhere in the contract",
    }
}

/// What an exit code of the IPC server means.
#[verifier::allow_in_spec]
pub fn server_reason(status: u64) -> (r: &'static str)
    returns
        (match status {
            53 => "server: ipc_recv returned a nonzero status (53)",
            54 => "server: the transferred cap did not land (54)",
            55 => "server: ipc_reply returned a nonzero status (55)",
            56 => "server: notify returned a nonzero status (56)",
            _ => "server exited with a code from nowhere in the contract",
        }),
{
    match status {
        53 => "server: ipc_recv returned a nonzero status (53)",
        54 => "server: the transferred cap did not land (54)",
        55 => "server: ipc_reply returned a nonzero status (55)",
        56 => "server: notify returned a nonzero status (56)",
        _ => "server exited with a code from nowhere in the contract",
    }
}

/// What an exit code of the IPC client means.
#[verifier::allow_in_spec]
pub fn client_reason(status: u64) -> (r: &'static str)
    returns
        (match status {
            43 => "client: ipc_call returned a nonzero status (43)",
            44 => "client: echoed word 0 mismatch (44)",
            45 => "client: echoed word 1 mismatch (45)",
            46 => "client: a reply cap arrived though none was sent (46)",
            47 => "client: the waited badge was wrong (47)",
            _ => "client exited with a code from nowhere in the contract",
        }),
{
    match status {
        43 => "client: ipc_call returned a nonzero status (43)",
        44 => "client: echoed word 0 mismatch (44)",
        45 => "client: echoed word 1 mismatch (45)",
        46 => "client: a reply cap arrived though none was sent (46)",
        47 => "client: the waited badge was wrong (47)",
        _ => "client exited with a code from nowhere in the contract",
    }
}

/// What an exit code of the supervisor means.
#[verifier::allow_in_spec]
pub fn supervisor_reason(status: u64) -> (r: &'static str)
    returns
        (match status {
            73 => "supervisor: first spawn refused or returned a non-positive pid (73)",
            74 => "supervisor: the first exit badge never arrived intact (74)",
            75 => "supervisor: the restart spawn was refused (75)",
            76 => "supervisor: the second exit badge never arrived intact (76)",
            _ => "supervisor exited with a code from nowhere in the contract",
        }),
{
    match status {
        73 => "supervisor: first spawn refused or returned a non-positive pid (73)",
        74 => "supervisor: the first exit badge never arrived intact (74)",
        75 => "supervisor: the restart spawn was refused (75)",
        76 => "supervisor: the second exit badge never arrived intact (76)",
        _ => "supervisor exited with a code from nowhere in the contract",
    }
}

/// What an exit code of the console reader means.
#[verifier::allow_in_spec]
pub fn reader_reason(status: u64) -> (r: &'static str)
    returns
        (match status {
            81 => "ring-3 console read returned the wrong length (81)",
            82 => "ring-3 console read returned wrong bytes (82)",
            _ => "console reader exited with a code from nowhere in the contract",
        }),
{
    match status {
        81 => "ring-3 console read returned the wrong length (81)",
        82 => "ring-3 console read returned wrong bytes (82)",
        _ => "console reader exited with a code from nowhere in the contract",
    }
}

/// What an exit code of the frame program means.
#[verifier::allow_in_spec]
pub fn untyped_reason(status: u64) -> (r: &'static str)
    returns
        (match status {
            43 => "an alloc_frame refused (43)",
            44 => "the self-map refused (44)",
            45 => "the window read-back mismatched (45)",
            46 => "re-mapping the consumed slot did not refuse -2 (46)",
            _ => "the payload exited with a code from nowhere in the contract",
        }),
{
    match status {
        43 => "an alloc_frame refused (43)",
        44 => "the self-map refused (44)",
        45 => "the window read-back mismatched (45)",
        46 => "re-mapping the consumed slot did not refuse -2 (46)",
        _ => "the payload exited with a code from nowhere in the contract",
    }
}

/// What an exit code of the device program means.
#[verifier::allow_in_spec]
pub fn mmio_reason(status: u64) -> (r: &'static str)
    returns
        (match status {
            53 => "the read-only mmio self-map refused (53)",
            54 => "the counter did not advance between the ring-3 reads (54)",
            _ => "the payload exited with a code from nowhere in the contract",
        }),
{
    match status {
        53 => "the read-only mmio self-map refused (53)",
        54 => "the counter did not advance between the ring-3 reads (54)",
        _ => "the payload exited with a code from nowhere in the contract",
    }
}

/// What `test_thread_spawn_run` looks at.
#[derive(Clone, Copy)]
pub struct ThreadSpawnRunSeen {
    pub runs: u64,
    pub magic: u64,
    pub switches: u64,
}

/// The checks of `test_thread_spawn_run`, in order.
pub open spec fn thread_spawn_run_checks(o: ThreadSpawnRunSeen) -> Seq<(bool, &'static str)> {
    seq![
        (o.runs == 1, "thread entry did not run exactly once"),
        (o.magic == T1_WANT, "thread's side effect wrong (arg not delivered?)"),
        (o.switches >= 2, "fewer than one there-and-back switch observed"),
    ]
}

/// A thread ran once, with its argument, and there was a switch there and back.
pub fn test_thread_spawn_run(o: &ThreadSpawnRunSeen) -> (r: Result<(), &'static str>)
    ensures
        r == judged(thread_spawn_run_checks(*o)),
{
    let checks: [(bool, &'static str); 3] = [
        (o.runs == 1, "thread entry did not run exactly once"),
        (o.magic == T1_WANT, "thread's side effect wrong (arg not delivered?)"),
        (o.switches >= 2, "fewer than one there-and-back switch observed"),
    ];
    assert(checks@ =~= thread_spawn_run_checks(*o));
    judge(&checks)
}

/// What `test_thread_callee_saved` looks at.
#[derive(Clone, Copy)]
pub struct ThreadCalleeSavedSeen {
    pub regs: [u64; 6],
    pub switches: u64,
}

/// The checks of `test_thread_callee_saved`, in order.
pub open spec fn thread_callee_saved_checks(o: ThreadCalleeSavedSeen) -> Seq<(bool, &'static str)> {
    seq![
        (o.regs[0] == T3_RSI && o.regs[1] == T3_RDI && o.regs[2] == T3_R12 && o.regs[3] == T3_R13 && o.regs[4] == T3_R14 && o.regs[5] == T3_R15, "callee-saved registers did not survive the switch"),
        (o.switches >= 2, "probe thread did not actually switch away and back"),
    ]
}

/// Six registers survived a switch that took place.
pub fn test_thread_callee_saved(o: &ThreadCalleeSavedSeen) -> (r: Result<(), &'static str>)
    ensures
        r == judged(thread_callee_saved_checks(*o)),
{
    let checks: [(bool, &'static str); 2] = [
        (o.regs[0] == T3_RSI && o.regs[1] == T3_RDI && o.regs[2] == T3_R12 && o.regs[3] == T3_R13 && o.regs[4] == T3_R14 && o.regs[5] == T3_R15, "callee-saved registers did not survive the switch"),
        (o.switches >= 2, "probe thread did not actually switch away and back"),
    ];
    assert(checks@ =~= thread_callee_saved_checks(*o));
    judge(&checks)
}

/// What `test_thread_stack_isolation` looks at.
#[derive(Clone, Copy)]
pub struct ThreadStackIsolationSeen {
    pub intact_a: bool,
    pub intact_b: bool,
    pub a: (u64, u64),
    pub b: (u64, u64),
}

/// The checks of `test_thread_stack_isolation`, in order.
pub open spec fn thread_stack_isolation_checks(o: ThreadStackIsolationSeen) -> Seq<(bool, &'static str)> {
    seq![
        (o.intact_a && o.intact_b, "a thread's stack pattern or deep-recursion result was corrupted"),
        (o.a.0 != 0 && o.b.0 != 0, "thread reported no stack range"),
        (o.a.0 < o.a.1 && o.b.0 < o.b.1, "degenerate stack ranges reported"),
        (o.a.1 <= o.b.0 || o.b.1 <= o.a.0, "thread stack ranges overlap"),
    ]
}

/// Two threads kept their own stacks, which do not meet.
pub fn test_thread_stack_isolation(o: &ThreadStackIsolationSeen) -> (r: Result<(), &'static str>)
    ensures
        r == judged(thread_stack_isolation_checks(*o)),
{
    let checks: [(bool, &'static str); 4] = [
        (o.intact_a && o.intact_b, "a thread's stack pattern or deep-recursion result was corrupted"),
        (o.a.0 != 0 && o.b.0 != 0, "thread reported no stack range"),
        (o.a.0 < o.a.1 && o.b.0 < o.b.1, "degenerate stack ranges reported"),
        (o.a.1 <= o.b.0 || o.b.1 <= o.a.0, "thread stack ranges overlap"),
    ];
    assert(checks@ =~= thread_stack_isolation_checks(*o));
    judge(&checks)
}

/// What `test_thread_churn_accounting` looks at.
#[derive(Clone, Copy)]
pub struct ThreadChurnAccountingSeen {
    pub churned: u64,
    pub free0: u64,
    pub free1: u64,
    pub heap0: u64,
    pub heap1: u64,
    pub overflow_refused: bool,
    pub boundary: u64,
    pub free2: u64,
    pub spawned0: u64,
    pub spawned1: u64,
}

/// The checks of `test_thread_churn_accounting`, in order.
pub open spec fn thread_churn_accounting_checks(o: ThreadChurnAccountingSeen) -> Seq<(bool, &'static str)> {
    seq![
        (o.churned == 64, "churn threads did not all run"),
        (o.free1 == o.free0, "frame accounting drifted after churn (stack leak?)"),
        (o.heap1 == o.heap0, "heap reservation drifted after churn"),
        (o.overflow_refused, "spawn past MAX_THREADS was accepted"),
        (o.boundary == 63, "boundary threads did not all run"),
        (o.free2 == o.free0, "frame accounting drifted after boundary phase"),
        (rose_by(o.spawned0, o.spawned1, 127), "spawn counter mismatch"),
    ]
}

/// Many threads came and went: all ran, pool and heap are exact, one too many was refused.
pub fn test_thread_churn_accounting(o: &ThreadChurnAccountingSeen) -> (r: Result<(), &'static str>)
    ensures
        r == judged(thread_churn_accounting_checks(*o)),
{
    let checks: [(bool, &'static str); 7] = [
        (o.churned == 64, "churn threads did not all run"),
        (o.free1 == o.free0, "frame accounting drifted after churn (stack leak?)"),
        (o.heap1 == o.heap0, "heap reservation drifted after churn"),
        (o.overflow_refused, "spawn past MAX_THREADS was accepted"),
        (o.boundary == 63, "boundary threads did not all run"),
        (o.free2 == o.free0, "frame accounting drifted after boundary phase"),
        (rose(o.spawned0, o.spawned1, 127), "spawn counter mismatch"),
    ];
    assert(checks@ =~= thread_churn_accounting_checks(*o));
    judge(&checks)
}

/// What `test_preempt_coexist` looks at.
#[derive(Clone, Copy)]
pub struct PreemptCoexistSeen {
    pub rounds_a: u64,
    pub rounds_b: u64,
    pub wait_failures: u64,
    pub rotations: u64,
}

/// The checks of `test_preempt_coexist`, in order.
pub open spec fn preempt_coexist_checks(o: PreemptCoexistSeen) -> Seq<(bool, &'static str)> {
    seq![
        (o.rounds_a == 3 && o.rounds_b == 3, "coexist threads did not finish all rounds"),
        (o.wait_failures == 0, "busy-wait anti-hang guard fired under preemption"),
        (o.rotations >= 2, "busy-waiting threads were not rotated by the timer"),
    ]
}

/// Threads that wait and yield finished while the timer rotated them.
pub fn test_preempt_coexist(o: &PreemptCoexistSeen) -> (r: Result<(), &'static str>)
    ensures
        r == judged(preempt_coexist_checks(*o)),
{
    let checks: [(bool, &'static str); 3] = [
        (o.rounds_a == 3 && o.rounds_b == 3, "coexist threads did not finish all rounds"),
        (o.wait_failures == 0, "busy-wait anti-hang guard fired under preemption"),
        (o.rotations >= 2, "busy-waiting threads were not rotated by the timer"),
    ];
    assert(checks@ =~= preempt_coexist_checks(*o));
    judge(&checks)
}

/// What `test_boundary_armed` looks at.
#[derive(Clone, Copy)]
pub struct BoundaryArmedSeen {
    pub gdt_ok: bool,
    pub sce: bool,
    pub star: u64,
    pub lstar: u64,
    pub has_smep: bool,
    pub smep_on: bool,
    pub has_smap: bool,
    pub smap_on: bool,
}

/// The checks of `test_boundary_armed`, in order.
pub open spec fn boundary_armed_checks(o: BoundaryArmedSeen) -> Seq<(bool, &'static str)> {
    seq![
        (o.gdt_ok, "GDT ring-3 entries are not the expected encodings"),
        (o.sce, "EFER.SCE not set \u{2014} SYSCALL would #UD"),
        (o.star == STAR_WANT, "STAR does not carry our kernel/user selector layout"),
        (o.lstar >= KERNEL_OFFSET, "LSTAR is not a kernel-view address"),
        (!o.has_smep || o.smep_on, "CPU offers SMEP but CR4.SMEP is off"),
        (!o.has_smap || o.smap_on, "CPU offers SMAP but CR4.SMAP is off"),
    ]
}

/// The registers of the ring-3 boundary hold what they must.
pub fn test_boundary_armed(o: &BoundaryArmedSeen) -> (r: Result<(), &'static str>)
    ensures
        r == judged(boundary_armed_checks(*o)),
{
    let checks: [(bool, &'static str); 6] = [
        (o.gdt_ok, "GDT ring-3 entries are not the expected encodings"),
        (o.sce, "EFER.SCE not set \u{2014} SYSCALL would #UD"),
        (o.star == STAR_WANT, "STAR does not carry our kernel/user selector layout"),
        (o.lstar >= KERNEL_OFFSET, "LSTAR is not a kernel-view address"),
        (!o.has_smep || o.smep_on, "CPU offers SMEP but CR4.SMEP is off"),
        (!o.has_smap || o.smap_on, "CPU offers SMAP but CR4.SMAP is off"),
    ];
    assert(checks@ =~= boundary_armed_checks(*o));
    judge(&checks)
}

/// What `test_smap_probe` looks at.
#[derive(Clone, Copy)]
pub struct SmapProbeSeen {
    pub seen: ObservedFault,
    pub page: u64,
}

/// The checks of `test_smap_probe`, in order.
pub open spec fn smap_probe_checks(o: SmapProbeSeen) -> Seq<(bool, &'static str)> {
    seq![
        (o.seen.valid && o.seen.vector == 14, "SMAP: bare kernel read of a user page did NOT fault"),
        (o.seen.cr2 == o.page, "SMAP: #PF CR2 does not name the user page"),
    ]
}

/// A bare kernel read of a user page faulted on that page.
pub fn test_smap_probe(o: &SmapProbeSeen) -> (r: Result<(), &'static str>)
    ensures
        r == judged(smap_probe_checks(*o)),
{
    let checks: [(bool, &'static str); 2] = [
        (o.seen.valid && o.seen.vector == 14, "SMAP: bare kernel read of a user page did NOT fault"),
        (o.seen.cr2 == o.page, "SMAP: #PF CR2 does not name the user page"),
    ];
    assert(checks@ =~= smap_probe_checks(*o));
    judge(&checks)
}

/// What `test_user_ring3_syscall` looks at.
#[derive(Clone, Copy)]
pub struct UserRing3SyscallSeen {
    pub exited: bool,
    pub status: u64,
    pub st0: SyscallStats,
    pub st: SyscallStats,
    pub copy_ok: bool,
    pub rsp0: u64,
    pub top: u64,
}

/// The checks of `test_user_ring3_syscall`, in order.
pub open spec fn user_ring3_syscall_checks(o: UserRing3SyscallSeen) -> Seq<(bool, &'static str)> {
    seq![
        (o.exited, "no SYS_THREAD_EXIT recorded for the user thread"),
        (o.status == 42, "payload took a failure exit (ring-3 contract violated)"),
        (rose_by(o.st0.write_calls, o.st.write_calls, 1) && rose_by(o.st0.write_bytes, o.st.write_bytes, 18), "SYS_DEBUG_WRITE accounting wrong"),
        (rose_by(o.st0.invalid_nr, o.st.invalid_nr, 1), "invalid syscall number not rejected exactly once"),
        (rose_by(o.st0.exit_calls, o.st.exit_calls, 1), "SYS_THREAD_EXIT accounting wrong"),
        (o.st.ring3_proved, "ring-3 #GP proof not recorded (cli did not fault -> not CPL 3?)"),
        (o.st.ring3_gp_ec == 0, "proved #GP carried a nonzero error code"),
        (o.copy_ok, "SYS_DEBUG_WRITE kernel-side copy mismatch"),
        (o.top != 0 && o.rsp0 == o.top, "TSS RSP0 did not name the user thread's kernel stack top at entry"),
    ]
}

/// The first user program kept its contract, and the kernel saw just that.
pub fn test_user_ring3_syscall(o: &UserRing3SyscallSeen) -> (r: Result<(), &'static str>)
    ensures
        r == judged(user_ring3_syscall_checks(*o)),
{
    let checks: [(bool, &'static str); 9] = [
        (o.exited, "no SYS_THREAD_EXIT recorded for the user thread"),
        (o.status == 42, "payload took a failure exit (ring-3 contract violated)"),
        (rose(o.st0.write_calls, o.st.write_calls, 1) && rose(o.st0.write_bytes, o.st.write_bytes, 18), "SYS_DEBUG_WRITE accounting wrong"),
        (rose(o.st0.invalid_nr, o.st.invalid_nr, 1), "invalid syscall number not rejected exactly once"),
        (rose(o.st0.exit_calls, o.st.exit_calls, 1), "SYS_THREAD_EXIT accounting wrong"),
        (o.st.ring3_proved, "ring-3 #GP proof not recorded (cli did not fault -> not CPL 3?)"),
        (o.st.ring3_gp_ec == 0, "proved #GP carried a nonzero error code"),
        (o.copy_ok, "SYS_DEBUG_WRITE kernel-side copy mismatch"),
        (o.top != 0 && o.rsp0 == o.top, "TSS RSP0 did not name the user thread's kernel stack top at entry"),
    ];
    assert(checks@ =~= user_ring3_syscall_checks(*o));
    judge(&checks)
}

/// What `test_user_ring3_interrupted` looks at.
#[derive(Clone, Copy)]
pub struct UserRing3InterruptedSeen {
    pub exited: bool,
    pub status: u64,
    pub ticks: u64,
    pub switches: u64,
    pub rsp0: u64,
    pub top: u64,
    pub st0: SyscallStats,
    pub st: SyscallStats,
    pub copy_ok: bool,
}

/// The checks of `test_user_ring3_interrupted`, in order.
pub open spec fn user_ring3_interrupted_checks(o: UserRing3InterruptedSeen) -> Seq<(bool, &'static str)> {
    seq![
        (o.exited, "ring-3 spin payload never exited"),
        (o.status != 99, "payload hit its anti-hang bound \u{2014} the flag release never arrived"),
        (o.status == 7, "ring-3 payload exited with the wrong status"),
        (o.ticks >= 4, "timer ticks did not land while ring-3 code ran"),
        (o.switches >= 2, "the ring-3 thread was not rotated by the timer"),
        (o.top != 0 && o.rsp0 == o.top, "TSS RSP0 lost track of the user thread's kernel stack"),
        (rose_by(o.st0.write_bytes, o.st.write_bytes, 14) && o.copy_ok, "post-spin SYS_DEBUG_WRITE payload mismatch"),
    ]
}

/// The spinning program was interrupted, rotated and released.
pub fn test_user_ring3_interrupted(o: &UserRing3InterruptedSeen) -> (r: Result<(), &'static str>)
    ensures
        r == judged(user_ring3_interrupted_checks(*o)),
{
    let checks: [(bool, &'static str); 7] = [
        (o.exited, "ring-3 spin payload never exited"),
        (o.status != 99, "payload hit its anti-hang bound \u{2014} the flag release never arrived"),
        (o.status == 7, "ring-3 payload exited with the wrong status"),
        (o.ticks >= 4, "timer ticks did not land while ring-3 code ran"),
        (o.switches >= 2, "the ring-3 thread was not rotated by the timer"),
        (o.top != 0 && o.rsp0 == o.top, "TSS RSP0 lost track of the user thread's kernel stack"),
        (rose(o.st0.write_bytes, o.st.write_bytes, 14) && o.copy_ok, "post-spin SYS_DEBUG_WRITE payload mismatch"),
    ];
    assert(checks@ =~= user_ring3_interrupted_checks(*o));
    judge(&checks)
}

/// What `test_process_visits` looks at.
#[derive(Clone, Copy)]
pub struct ProcessVisitsSeen {
    pub a1: u8,
    pub b1: u8,
    pub a2: u8,
    pub kernel_a: u64,
    pub kernel_b: u64,
    pub hole: ObservedFault,
}

/// The checks of `test_process_visits`, in order.
pub open spec fn process_visits_checks(o: ProcessVisitsSeen) -> Seq<(bool, &'static str)> {
    seq![
        (o.a1 == 0xAA, "procA's page does not carry procA's pattern"),
        (o.b1 == 0xBB, "procB sees procA's page \u{2014} user halves are NOT isolated"),
        (o.a2 == 0x11, "procA's write did not persist in its own page"),
        (o.kernel_a == KHALF_PATTERN && o.kernel_b == KHALF_PATTERN, "cloned kernel half lost kernel .data under a process CR3"),
        (o.hole.valid && o.hole.vector == 14, "unmapped user VA did not #PF under a process CR3"),
        (o.hole.cr2 == P10_HOLE_VA, "#PF CR2 does not name the unmapped VA"),
    ]
}

/// What two address spaces showed when they were visited.
pub fn test_process_visits(o: &ProcessVisitsSeen) -> (r: Result<(), &'static str>)
    ensures
        r == judged(process_visits_checks(*o)),
{
    let checks: [(bool, &'static str); 6] = [
        (o.a1 == 0xAA, "procA's page does not carry procA's pattern"),
        (o.b1 == 0xBB, "procB sees procA's page \u{2014} user halves are NOT isolated"),
        (o.a2 == 0x11, "procA's write did not persist in its own page"),
        (o.kernel_a == KHALF_PATTERN && o.kernel_b == KHALF_PATTERN, "cloned kernel half lost kernel .data under a process CR3"),
        (o.hole.valid && o.hole.vector == 14, "unmapped user VA did not #PF under a process CR3"),
        (o.hole.cr2 == P10_HOLE_VA, "#PF CR2 does not name the unmapped VA"),
    ];
    assert(checks@ =~= process_visits_checks(*o));
    judge(&checks)
}

/// What `test_process_run` looks at.
#[derive(Clone, Copy)]
pub struct ProcessRunSeen {
    pub same_half: bool,
    pub entry_kept: bool,
    pub exited: bool,
    pub status: u64,
    pub st0: SyscallStats,
    pub st: SyscallStats,
    pub copy_ok: bool,
    pub rsp0: u64,
    pub top: u64,
    pub cr3_restored: bool,
    pub free0: u64,
    pub free1: u64,
}

/// The checks of `test_process_run`, in order.
pub open spec fn process_run_checks(o: ProcessRunSeen) -> Seq<(bool, &'static str)> {
    seq![
        (o.same_half, "kernel half diverged between the kernel view and the process clone"),
        (o.entry_kept, "u3p slot entry corrupted between spawn and first run"),
        (o.exited, "no SYS_THREAD_EXIT recorded for the in-process user thread"),
        (o.status == 42, "in-process payload took a failure exit (ring-3 contract violated)"),
        (rose_by(o.st0.write_calls, o.st.write_calls, 1) && rose_by(o.st0.write_bytes, o.st.write_bytes, 18), "in-process SYS_DEBUG_WRITE accounting wrong"),
        (o.copy_ok, "in-process SYS_DEBUG_WRITE kernel-side copy mismatch"),
        (o.top != 0 && o.rsp0 == o.top, "RSP0 evidence missing for the in-process thread"),
        (o.cr3_restored, "CR3 was not restored to the kernel view after the process thread exited"),
        (o.free1 == o.free0, "in-process round frame accounting is not exact"),
    ]
}

/// The first user program kept its contract inside a process.
pub fn test_process_run(o: &ProcessRunSeen) -> (r: Result<(), &'static str>)
    ensures
        r == judged(process_run_checks(*o)),
{
    let checks: [(bool, &'static str); 9] = [
        (o.same_half, "kernel half diverged between the kernel view and the process clone"),
        (o.entry_kept, "u3p slot entry corrupted between spawn and first run"),
        (o.exited, "no SYS_THREAD_EXIT recorded for the in-process user thread"),
        (o.status == 42, "in-process payload took a failure exit (ring-3 contract violated)"),
        (rose(o.st0.write_calls, o.st.write_calls, 1) && rose(o.st0.write_bytes, o.st.write_bytes, 18), "in-process SYS_DEBUG_WRITE accounting wrong"),
        (o.copy_ok, "in-process SYS_DEBUG_WRITE kernel-side copy mismatch"),
        (o.top != 0 && o.rsp0 == o.top, "RSP0 evidence missing for the in-process thread"),
        (o.cr3_restored, "CR3 was not restored to the kernel view after the process thread exited"),
        (o.free1 == o.free0, "in-process round frame accounting is not exact"),
    ];
    assert(checks@ =~= process_run_checks(*o));
    judge(&checks)
}

/// What `test_syscall_abi` looks at.
#[derive(Clone, Copy)]
pub struct SyscallAbiSeen {
    pub exited: bool,
    pub status: u64,
    pub st0: SyscallStats,
    pub st: SyscallStats,
    pub copy_ok: bool,
    pub fingerprint: u64,
    pub want: u64,
}

/// The checks of `test_syscall_abi`, in order.
pub open spec fn syscall_abi_checks(o: SyscallAbiSeen) -> Seq<(bool, &'static str)> {
    seq![
        (o.exited, "no thread_exit recorded for the ABI payload thread"),
        (o.status == 42, "ABI payload took the failure exit (a v1 contract check failed in ring 3)"),
        (rose_by(o.st0.echo_calls, o.st.echo_calls, 1), "abi_echo6 not dispatched exactly once"),
        (rose_by(o.st0.write_calls, o.st.write_calls, 4), "debug_write call accounting wrong (want 4)"),
        (rose_by(o.st0.write_rejected, o.st.write_rejected, 3), "debug_write typed-refusal accounting wrong (want 3)"),
        (rose_by(o.st0.write_bytes, o.st.write_bytes, 18), "debug_write byte accounting wrong"),
        (rose_by(o.st0.invalid_nr, o.st.invalid_nr, 1), "unknown call number not rejected exactly once"),
        (rose_by(o.st0.exit_calls, o.st.exit_calls, 1), "thread_exit accounting wrong"),
        (o.copy_ok, "debug_write kernel-side copy mismatch"),
        (o.fingerprint == o.want, "abi_echo6 fingerprint mismatch \u{2014} six-register marshalling broken"),
    ]
}

/// The call-convention program kept its contract, and the kernel saw just that.
pub fn test_syscall_abi(o: &SyscallAbiSeen) -> (r: Result<(), &'static str>)
    ensures
        r == judged(syscall_abi_checks(*o)),
{
    let checks: [(bool, &'static str); 10] = [
        (o.exited, "no thread_exit recorded for the ABI payload thread"),
        (o.status == 42, "ABI payload took the failure exit (a v1 contract check failed in ring 3)"),
        (rose(o.st0.echo_calls, o.st.echo_calls, 1), "abi_echo6 not dispatched exactly once"),
        (rose(o.st0.write_calls, o.st.write_calls, 4), "debug_write call accounting wrong (want 4)"),
        (rose(o.st0.write_rejected, o.st.write_rejected, 3), "debug_write typed-refusal accounting wrong (want 3)"),
        (rose(o.st0.write_bytes, o.st.write_bytes, 18), "debug_write byte accounting wrong"),
        (rose(o.st0.invalid_nr, o.st.invalid_nr, 1), "unknown call number not rejected exactly once"),
        (rose(o.st0.exit_calls, o.st.exit_calls, 1), "thread_exit accounting wrong"),
        (o.copy_ok, "debug_write kernel-side copy mismatch"),
        (o.fingerprint == o.want, "abi_echo6 fingerprint mismatch \u{2014} six-register marshalling broken"),
    ];
    assert(checks@ =~= syscall_abi_checks(*o));
    judge(&checks)
}

/// What `test_thread_exit_abi` looks at.
#[derive(Clone, Copy)]
pub struct ThreadExitAbiSeen {
    pub exited: bool,
    pub status: u64,
    pub st0: SyscallStats,
    pub st: SyscallStats,
    pub threads0: usize,
    pub threads1: usize,
}

/// The checks of `test_thread_exit_abi`, in order.
pub open spec fn thread_exit_abi_checks(o: ThreadExitAbiSeen) -> Seq<(bool, &'static str)> {
    seq![
        (o.exited && o.status == EXIT_CODE_WIDE, "thread_exit did not record the full 64-bit code faithfully"),
        (rose_by(o.st0.exit_calls, o.st.exit_calls, 1), "thread_exit dispatch accounting wrong"),
        (o.threads1 == o.threads0, "exited thread was not reaped \u{2014} live count off"),
    ]
}

/// A full-width exit code was recorded, once, and the thread is gone.
pub fn test_thread_exit_abi(o: &ThreadExitAbiSeen) -> (r: Result<(), &'static str>)
    ensures
        r == judged(thread_exit_abi_checks(*o)),
{
    let checks: [(bool, &'static str); 3] = [
        (o.exited && o.status == EXIT_CODE_WIDE, "thread_exit did not record the full 64-bit code faithfully"),
        (rose(o.st0.exit_calls, o.st.exit_calls, 1), "thread_exit dispatch accounting wrong"),
        (o.threads1 == o.threads0, "exited thread was not reaped \u{2014} live count off"),
    ];
    assert(checks@ =~= thread_exit_abi_checks(*o));
    judge(&checks)
}

/// What `test_first_process` looks at.
#[derive(Clone, Copy)]
pub struct FirstProcessSeen {
    pub exited: bool,
    pub status: u64,
    pub exit_ok: u64,
    pub st0: SyscallStats,
    pub st: SyscallStats,
    pub msg_len: u64,
    pub threads0: usize,
    pub threads1: usize,
    pub copy_ok: bool,
    pub stamp: u64,
    pub want_stamp: u64,
    pub rest_zero: bool,
    pub free0: u64,
    pub free1: u64,
}

/// The checks of `test_first_process`, in order.
pub open spec fn first_process_checks(o: FirstProcessSeen) -> Seq<(bool, &'static str)> {
    seq![
        (o.exited, "no thread_exit recorded \u{2014} the process never reached its exit"),
        (o.status == o.exit_ok, payload_reason(o.status)),
        (rose_by(o.st0.write_calls, o.st.write_calls, 1), "debug_write not dispatched exactly once"),
        (o.st.write_rejected == o.st0.write_rejected, "the process's debug_write was rejected \u{2014} but it succeeded"),
        (rose_by(o.st0.write_bytes, o.st.write_bytes, o.msg_len), "debug_write byte accounting wrong"),
        (rose_by(o.st0.exit_calls, o.st.exit_calls, 1), "thread_exit accounting wrong"),
        (o.threads1 == o.threads0, "the process thread was not reaped \u{2014} live count off"),
        (o.copy_ok, "captured message != the message pinned in the image file"),
        (o.stamp == o.want_stamp, "the payload's ring-3 bss stamp did not land (want the magic's LE u64)"),
        (o.rest_zero, "the payload wrote outside its stamp slot"),
        (o.free1 == o.free0, "destroy did not reclaim image+stack+tables exactly"),
    ]
}

/// The loaded image ran to its end, and left what it must.
pub fn test_first_process(o: &FirstProcessSeen) -> (r: Result<(), &'static str>)
    ensures
        r == judged(first_process_checks(*o)),
{
    let checks: [(bool, &'static str); 11] = [
        (o.exited, "no thread_exit recorded \u{2014} the process never reached its exit"),
        (o.status == o.exit_ok, payload_reason(o.status)),
        (rose(o.st0.write_calls, o.st.write_calls, 1), "debug_write not dispatched exactly once"),
        (o.st.write_rejected == o.st0.write_rejected, "the process's debug_write was rejected \u{2014} but it succeeded"),
        (rose(o.st0.write_bytes, o.st.write_bytes, o.msg_len), "debug_write byte accounting wrong"),
        (rose(o.st0.exit_calls, o.st.exit_calls, 1), "thread_exit accounting wrong"),
        (o.threads1 == o.threads0, "the process thread was not reaped \u{2014} live count off"),
        (o.copy_ok, "captured message != the message pinned in the image file"),
        (o.stamp == o.want_stamp, "the payload's ring-3 bss stamp did not land (want the magic's LE u64)"),
        (o.rest_zero, "the payload wrote outside its stamp slot"),
        (o.free1 == o.free0, "destroy did not reclaim image+stack+tables exactly"),
    ];
    assert(checks@ =~= first_process_checks(*o));
    judge(&checks)
}

/// What `test_ipc_echo_run` looks at.
#[derive(Clone, Copy)]
pub struct IpcEchoRunSeen {
    pub server_exited: bool,
    pub server_status: u64,
    pub client_exited: bool,
    pub client_status: u64,
    pub st0: SyscallStats,
    pub st: SyscallStats,
    pub i0: IpcStats,
    pub i: IpcStats,
    pub threads0: usize,
    pub threads1: usize,
}

/// The checks of `test_ipc_echo_run`, in order.
pub open spec fn ipc_echo_run_checks(o: IpcEchoRunSeen) -> Seq<(bool, &'static str)> {
    seq![
        (o.server_exited, "the server never exited"),
        (o.server_status == 42, server_reason(o.server_status)),
        (o.client_exited, "the client never exited"),
        (o.client_status == 42, client_reason(o.client_status)),
        (rose_by(o.st0.calls, o.st.calls, 7), "ipc demo dispatch count wrong (want 7)"),
        (o.st.invalid_nr == o.st0.invalid_nr, "a demo syscall number was invalid"),
        (rose_by(o.i0.calls, o.i.calls, 1) && rose_by(o.i0.recvs, o.i.recvs, 1) && rose_by(o.i0.replies, o.i.replies, 1), "endpoint operation counters wrong"),
        (rose_by(o.i0.notifies, o.i.notifies, 1) && rose_by(o.i0.waits, o.i.waits, 1), "notification counters wrong"),
        (rose_by(o.i0.cap_transfers, o.i.cap_transfers, 1) && o.i.cap_drops == o.i0.cap_drops, "cap-transfer accounting wrong (want 1 transfer, 0 drops)"),
        (rose_by(o.i0.blocks, o.i.blocks, 2), "blocking events wrong (want server recv + client call)"),
        (o.threads1 == o.threads0, "demo threads were not reaped \u{2014} live count off"),
    ]
}

/// Client and server talked, and the counters say just that.
pub fn test_ipc_echo_run(o: &IpcEchoRunSeen) -> (r: Result<(), &'static str>)
    ensures
        r == judged(ipc_echo_run_checks(*o)),
{
    let checks: [(bool, &'static str); 11] = [
        (o.server_exited, "the server never exited"),
        (o.server_status == 42, server_reason(o.server_status)),
        (o.client_exited, "the client never exited"),
        (o.client_status == 42, client_reason(o.client_status)),
        (rose(o.st0.calls, o.st.calls, 7), "ipc demo dispatch count wrong (want 7)"),
        (o.st.invalid_nr == o.st0.invalid_nr, "a demo syscall number was invalid"),
        (rose(o.i0.calls, o.i.calls, 1) && rose(o.i0.recvs, o.i.recvs, 1) && rose(o.i0.replies, o.i.replies, 1), "endpoint operation counters wrong"),
        (rose(o.i0.notifies, o.i.notifies, 1) && rose(o.i0.waits, o.i.waits, 1), "notification counters wrong"),
        (rose(o.i0.cap_transfers, o.i.cap_transfers, 1) && o.i.cap_drops == o.i0.cap_drops, "cap-transfer accounting wrong (want 1 transfer, 0 drops)"),
        (rose(o.i0.blocks, o.i.blocks, 2), "blocking events wrong (want server recv + client call)"),
        (o.threads1 == o.threads0, "demo threads were not reaped \u{2014} live count off"),
    ];
    assert(checks@ =~= ipc_echo_run_checks(*o));
    judge(&checks)
}

/// The checks of `test_spawn_supervisor`, in order.
pub open spec fn spawn_supervisor_checks(exited: bool, status: u64) -> Seq<(bool, &'static str)> {
    seq![
        (exited, "the supervisor never exited"),
        (status == 42, supervisor_reason(status)),
    ]
}

/// The supervisor restarted its child.
pub fn test_spawn_supervisor(exited: bool, status: u64) -> (r: Result<(), &'static str>)
    ensures
        r == judged(spawn_supervisor_checks(exited, status)),
{
    let checks: [(bool, &'static str); 2] = [
        (exited, "the supervisor never exited"),
        (status == 42, supervisor_reason(status)),
    ];
    assert(checks@ =~= spawn_supervisor_checks(exited, status));
    judge(&checks)
}

/// What `test_spawn_counters` looks at.
#[derive(Clone, Copy)]
pub struct SpawnCountersSeen {
    pub st0: SyscallStats,
    pub st: SyscallStats,
    pub i0: IpcStats,
    pub i: IpcStats,
    pub msg_len: u64,
    pub threads0: usize,
    pub threads1: usize,
}

/// The checks of `test_spawn_counters`, in order.
pub open spec fn spawn_counters_checks(o: SpawnCountersSeen) -> Seq<(bool, &'static str)> {
    seq![
        (rose_by(o.st0.calls, o.st.calls, 9), "spawn demo dispatch count wrong (want 9)"),
        (rose_by(o.st0.exit_calls, o.st.exit_calls, 3), "exit count wrong (want supervisor + two children)"),
        (rose_by(o.st0.write_calls, o.st.write_calls, 2), "child debug_write count wrong (want 2 \u{2014} one per life)"),
        (o.st.write_bytes == o.st0.write_bytes + 2 * o.msg_len, "child message byte accounting wrong (want two lives' worth)"),
        (rose_by(o.i0.notifies, o.i.notifies, 2), "exit notifications not fired exactly twice"),
        (rose_by(o.i0.waits, o.i.waits, 2), "supervisor wait count wrong"),
        (rose_by(o.i0.blocks, o.i.blocks, 2), "both supervisor waits should have parked (no preemption)"),
        (o.threads1 == o.threads0, "demo threads were not reaped \u{2014} live count off"),
    ]
}

/// The counters of the restart demonstration.
pub fn test_spawn_counters(o: &SpawnCountersSeen) -> (r: Result<(), &'static str>)
    ensures
        r == judged(spawn_counters_checks(*o)),
{
    let checks: [(bool, &'static str); 8] = [
        (rose(o.st0.calls, o.st.calls, 9), "spawn demo dispatch count wrong (want 9)"),
        (rose(o.st0.exit_calls, o.st.exit_calls, 3), "exit count wrong (want supervisor + two children)"),
        (rose(o.st0.write_calls, o.st.write_calls, 2), "child debug_write count wrong (want 2 \u{2014} one per life)"),
        (rose2(o.st0.write_bytes, o.st.write_bytes, o.msg_len), "child message byte accounting wrong (want two lives' worth)"),
        (rose(o.i0.notifies, o.i.notifies, 2), "exit notifications not fired exactly twice"),
        (rose(o.i0.waits, o.i.waits, 2), "supervisor wait count wrong"),
        (rose(o.i0.blocks, o.i.blocks, 2), "both supervisor waits should have parked (no preemption)"),
        (o.threads1 == o.threads0, "demo threads were not reaped \u{2014} live count off"),
    ];
    assert(checks@ =~= spawn_counters_checks(*o));
    judge(&checks)
}

/// What `test_console_reader` looks at.
#[derive(Clone, Copy)]
pub struct ConsoleReaderSeen {
    pub exited: bool,
    pub status: u64,
}

/// The checks of `test_console_reader`, in order.
pub open spec fn console_reader_checks(o: ConsoleReaderSeen) -> Seq<(bool, &'static str)> {
    seq![
        (o.exited, "the console reader never exited"),
        (o.status == 42, reader_reason(o.status)),
    ]
}

/// The user program read its line.
pub fn test_console_reader(o: &ConsoleReaderSeen) -> (r: Result<(), &'static str>)
    ensures
        r == judged(console_reader_checks(*o)),
{
    let checks: [(bool, &'static str); 2] = [
        (o.exited, "the console reader never exited"),
        (o.status == 42, reader_reason(o.status)),
    ];
    assert(checks@ =~= console_reader_checks(*o));
    judge(&checks)
}

/// What `test_console_counters` looks at.
#[derive(Clone, Copy)]
pub struct ConsoleCountersSeen {
    pub c0: ConsoleStats,
    pub c1: ConsoleStats,
    pub pending: usize,
    pub threads0: usize,
    pub threads1: usize,
    pub free0: u64,
    pub free1: u64,
}

/// The checks of `test_console_counters`, in order.
pub open spec fn console_counters_checks(o: ConsoleCountersSeen) -> Seq<(bool, &'static str)> {
    seq![
        (rose_by(o.c0.lines_in, o.c1.lines_in, 8), "committed-line count wrong (want 8)"),
        (rose_by(o.c0.dropped_lines, o.c1.dropped_lines, 1), "overflow drop count wrong (want exactly l1)"),
        (rose_by(o.c0.reads, o.c1.reads, 7), "read count wrong (want 7)"),
        (rose_by(o.c0.blocks, o.c1.blocks, 1), "exactly the ring-3 read should have parked"),
        (rose_by(o.c0.truncations, o.c1.truncations, 1), "truncation count wrong (want 1)"),
        (o.pending == 0, "console queue not drained \u{2014} the shell would inherit stale lines"),
        (o.threads1 == o.threads0, "console reader was not reaped"),
        (o.free1 == o.free0, "console test teardown is not frame-exact"),
    ]
}

/// The counters of the console test.
pub fn test_console_counters(o: &ConsoleCountersSeen) -> (r: Result<(), &'static str>)
    ensures
        r == judged(console_counters_checks(*o)),
{
    let checks: [(bool, &'static str); 8] = [
        (rose(o.c0.lines_in, o.c1.lines_in, 8), "committed-line count wrong (want 8)"),
        (rose(o.c0.dropped_lines, o.c1.dropped_lines, 1), "overflow drop count wrong (want exactly l1)"),
        (rose(o.c0.reads, o.c1.reads, 7), "read count wrong (want 7)"),
        (rose(o.c0.blocks, o.c1.blocks, 1), "exactly the ring-3 read should have parked"),
        (rose(o.c0.truncations, o.c1.truncations, 1), "truncation count wrong (want 1)"),
        (o.pending == 0, "console queue not drained \u{2014} the shell would inherit stale lines"),
        (o.threads1 == o.threads0, "console reader was not reaped"),
        (o.free1 == o.free0, "console test teardown is not frame-exact"),
    ];
    assert(checks@ =~= console_counters_checks(*o));
    judge(&checks)
}

/// What `test_untyped_alloc` looks at.
#[derive(Clone, Copy)]
pub struct UntypedAllocSeen {
    pub exited: bool,
    pub status: u64,
    pub phys1: u64,
    pub phys2: u64,
    pub va: u64,
    pub readback: u64,
}

/// The checks of `test_untyped_alloc`, in order.
pub open spec fn untyped_alloc_checks(o: UntypedAllocSeen) -> Seq<(bool, &'static str)> {
    seq![
        (o.exited, "no thread_exit recorded for the untyped payload"),
        (o.status == 42, untyped_reason(o.status)),
        (o.phys1 != 0 && o.phys1 % 4096 == 0 && o.phys2 != 0 && o.phys2 % 4096 == 0, "alloc_frame paid a non-page-aligned or zero phys"),
        (o.phys1 != o.phys2, "two allocations paid the SAME frame (allocator double-sold)"),
        (o.va != 0 && o.va < 0x0000_8000_0000_0000, "the kernel-chosen window VA is not lower-half"),
        (o.readback == M5_MAGIC, "the ring-3 stamp did not survive the window round-trip"),
    ]
}

/// The frame program ran, and its words say that it worked.
pub fn test_untyped_alloc(o: &UntypedAllocSeen) -> (r: Result<(), &'static str>)
    ensures
        r == judged(untyped_alloc_checks(*o)),
{
    let checks: [(bool, &'static str); 6] = [
        (o.exited, "no thread_exit recorded for the untyped payload"),
        (o.status == 42, untyped_reason(o.status)),
        (o.phys1 != 0 && o.phys1 % 4096 == 0 && o.phys2 != 0 && o.phys2 % 4096 == 0, "alloc_frame paid a non-page-aligned or zero phys"),
        (o.phys1 != o.phys2, "two allocations paid the SAME frame (allocator double-sold)"),
        (o.va != 0 && o.va < 0x0000_8000_0000_0000, "the kernel-chosen window VA is not lower-half"),
        (o.readback == M5_MAGIC, "the ring-3 stamp did not survive the window round-trip"),
    ];
    assert(checks@ =~= untyped_alloc_checks(*o));
    judge(&checks)
}

/// What `test_hpet_runs` looks at.
#[derive(Clone, Copy)]
pub struct HpetRunsSeen {
    pub enabled: bool,
    pub t0: u64,
    pub t1: u64,
}

/// The checks of `test_hpet_runs`, in order.
pub open spec fn hpet_runs_checks(o: HpetRunsSeen) -> Seq<(bool, &'static str)> {
    seq![
        (o.enabled, "the HPET main counter refuses to run (ENABLE_CNF did not stick)"),
        (o.t1 != o.t0, "the HPET main counter stands still in the kernel's own observation"),
    ]
}

/// The timer's counter runs, as the kernel sees it.
pub fn test_hpet_runs(o: &HpetRunsSeen) -> (r: Result<(), &'static str>)
    ensures
        r == judged(hpet_runs_checks(*o)),
{
    let checks: [(bool, &'static str); 2] = [
        (o.enabled, "the HPET main counter refuses to run (ENABLE_CNF did not stick)"),
        (o.t1 != o.t0, "the HPET main counter stands still in the kernel's own observation"),
    ];
    assert(checks@ =~= hpet_runs_checks(*o));
    judge(&checks)
}

/// What `test_mmio_user` looks at.
#[derive(Clone, Copy)]
pub struct MmioUserSeen {
    pub exited: bool,
    pub status: u64,
    pub rt1: u64,
    pub rt2: u64,
}

/// The checks of `test_mmio_user`, in order.
pub open spec fn mmio_user_checks(o: MmioUserSeen) -> Seq<(bool, &'static str)> {
    seq![
        (o.exited, "no thread_exit recorded for the mmio payload"),
        (o.status == 42, mmio_reason(o.status)),
        (o.rt2 > o.rt1, "ring-3 counter reads are not increasing (kernel-side check)"),
    ]
}

/// The device program saw the counter advance.
pub fn test_mmio_user(o: &MmioUserSeen) -> (r: Result<(), &'static str>)
    ensures
        r == judged(mmio_user_checks(*o)),
{
    let checks: [(bool, &'static str); 3] = [
        (o.exited, "no thread_exit recorded for the mmio payload"),
        (o.status == 42, mmio_reason(o.status)),
        (o.rt2 > o.rt1, "ring-3 counter reads are not increasing (kernel-side check)"),
    ];
    assert(checks@ =~= mmio_user_checks(*o));
    judge(&checks)
}

/// What `test_relay_run` looks at.
#[derive(Clone, Copy)]
pub struct RelayRunSeen {
    pub drained: bool,
    pub seen: u64,
    pub deliveries: u64,
    pub notifies0: u64,
    pub notifies1: u64,
    pub threads0: usize,
    pub threads1: usize,
}

/// The checks of `test_relay_run`, in order.
pub open spec fn relay_run_checks(o: RelayRunSeen) -> Seq<(bool, &'static str)> {
    seq![
        (o.drained, "the relay waiter never woke (see the accounting line above)"),
        (o.seen == RELAY_BADGE, "the waiter did not wake with the relay's badge"),
        (o.deliveries == 1, "the relay stub delivered the vector not exactly once"),
        (rose_by(o.notifies0, o.notifies1, 1), "relay delivery did not produce exactly one notify"),
        (o.threads1 == o.threads0, "the waiter thread was not reaped"),
    ]
}

/// The relayed interrupt woke its waiter once.
pub fn test_relay_run(o: &RelayRunSeen) -> (r: Result<(), &'static str>)
    ensures
        r == judged(relay_run_checks(*o)),
{
    let checks: [(bool, &'static str); 5] = [
        (o.drained, "the relay waiter never woke (see the accounting line above)"),
        (o.seen == RELAY_BADGE, "the waiter did not wake with the relay's badge"),
        (o.deliveries == 1, "the relay stub delivered the vector not exactly once"),
        (rose(o.notifies0, o.notifies1, 1), "relay delivery did not produce exactly one notify"),
        (o.threads1 == o.threads0, "the waiter thread was not reaped"),
    ];
    assert(checks@ =~= relay_run_checks(*o));
    judge(&checks)
}

/// What `test_kernel_entry` looks at.
#[derive(Clone, Copy)]
pub struct KernelEntrySeen {
    pub rip: u64,
    pub rsp: u64,
    pub cr3: u64,
    pub kernel_cr3: u64,
    pub dual_view_cr3: u64,
    pub wp: bool,
    pub pg: bool,
    pub nxe: bool,
    pub lma: bool,
}

/// The checks of `test_kernel_entry`, in order.
pub open spec fn kernel_entry_checks(o: KernelEntrySeen) -> Seq<(bool, &'static str)> {
    seq![
        (o.rip >= KERNEL_OFFSET, "RIP is not in the kernel view"),
        (o.rsp >= KERNEL_OFFSET, "RSP is not in the kernel view"),
        (o.cr3 == o.kernel_cr3, "CR3 is not the kernel-view PML4 from the boot-info record"),
        (o.cr3 != o.dual_view_cr3, "still on the boot-stage dual-view tables"),
        (o.wp && o.pg, "CR0 WP/PG not enforced in the kernel view"),
        (o.nxe && o.lma, "EFER NXE/LMA not set in the kernel view"),
    ]
}

/// The processor runs in the kernel's view.
pub fn test_kernel_entry(o: &KernelEntrySeen) -> (r: Result<(), &'static str>)
    ensures
        r == judged(kernel_entry_checks(*o)),
{
    let checks: [(bool, &'static str); 6] = [
        (o.rip >= KERNEL_OFFSET, "RIP is not in the kernel view"),
        (o.rsp >= KERNEL_OFFSET, "RSP is not in the kernel view"),
        (o.cr3 == o.kernel_cr3, "CR3 is not the kernel-view PML4 from the boot-info record"),
        (o.cr3 != o.dual_view_cr3, "still on the boot-stage dual-view tables"),
        (o.wp && o.pg, "CR0 WP/PG not enforced in the kernel view"),
        (o.nxe && o.lma, "EFER NXE/LMA not set in the kernel view"),
    ];
    assert(checks@ =~= kernel_entry_checks(*o));
    judge(&checks)
}

/// What `test_identity_torn_down` looks at.
#[derive(Clone, Copy)]
pub struct IdentityTornDownSeen {
    pub seen: ObservedFault,
}

/// The checks of `test_identity_torn_down`, in order.
pub open spec fn identity_torn_down_checks(o: IdentityTornDownSeen) -> Seq<(bool, &'static str)> {
    seq![
        (o.seen.valid && o.seen.vector == 14, "write to an identity address did NOT fault \u{2014} teardown did not happen"),
        (o.seen.cr2 == PROBE_VA, "CR2 does not name the probed identity address"),
        (o.seen.error_code % 4 == 2, "error code is not not-present+write (mapping still there?)"),
    ]
}

/// A write to an identity address faulted, on a page that is not there.
pub fn test_identity_torn_down(o: &IdentityTornDownSeen) -> (r: Result<(), &'static str>)
    ensures
        r == judged(identity_torn_down_checks(*o)),
{
    let checks: [(bool, &'static str); 3] = [
        (o.seen.valid && o.seen.vector == 14, "write to an identity address did NOT fault \u{2014} teardown did not happen"),
        (o.seen.cr2 == PROBE_VA, "CR2 does not name the probed identity address"),
        (o.seen.error_code % 4 == 2, "error code is not not-present+write (mapping still there?)"),
    ];
    assert(checks@ =~= identity_torn_down_checks(*o));
    judge(&checks)
}

/// What `test_kernel_heap_live` looks at.
#[derive(Clone, Copy)]
pub struct KernelHeapLiveSeen {
    pub allocated: bool,
    pub va: u64,
    pub round_trip: bool,
    pub freed: bool,
    pub frame: bool,
    pub frame_back: bool,
}

/// The checks of `test_kernel_heap_live`, in order.
pub open spec fn kernel_heap_live_checks(o: KernelHeapLiveSeen) -> Seq<(bool, &'static str)> {
    seq![
        (o.allocated, "kernel heap alloc failed post-EBS"),
        (o.va >= KERNEL_OFFSET, "heap pointer is not a kernel-view address"),
        (o.round_trip, "kernel heap payload round-trip failed"),
        (o.freed, "kernel heap free was rejected"),
        (o.frame, "frame alloc failed post-EBS"),
        (o.frame_back, "frame free failed post-EBS"),
    ]
}

/// Heap and pool work in the kernel's view.
pub fn test_kernel_heap_live(o: &KernelHeapLiveSeen) -> (r: Result<(), &'static str>)
    ensures
        r == judged(kernel_heap_live_checks(*o)),
{
    let checks: [(bool, &'static str); 6] = [
        (o.allocated, "kernel heap alloc failed post-EBS"),
        (o.va >= KERNEL_OFFSET, "heap pointer is not a kernel-view address"),
        (o.round_trip, "kernel heap payload round-trip failed"),
        (o.freed, "kernel heap free was rejected"),
        (o.frame, "frame alloc failed post-EBS"),
        (o.frame_back, "frame free failed post-EBS"),
    ];
    assert(checks@ =~= kernel_heap_live_checks(*o));
    judge(&checks)
}

/// What `test_kernel_irq_live` looks at.
#[derive(Clone, Copy)]
pub struct KernelIrqLiveSeen {
    pub ticks: u64,
}

/// The checks of `test_kernel_irq_live`, in order.
pub open spec fn kernel_irq_live_checks(o: KernelIrqLiveSeen) -> Seq<(bool, &'static str)> {
    seq![
        (o.ticks >= 2, "timer interrupts stopped flowing after the kernel-view switch"),
    ]
}

/// Two timer ticks arrived.
pub fn test_kernel_irq_live(o: &KernelIrqLiveSeen) -> (r: Result<(), &'static str>)
    ensures
        r == judged(kernel_irq_live_checks(*o)),
{
    let checks: [(bool, &'static str); 1] = [
        (o.ticks >= 2, "timer interrupts stopped flowing after the kernel-view switch"),
    ];
    assert(checks@ =~= kernel_irq_live_checks(*o));
    judge(&checks)
}

/// The log entry that thread `slot + 1` makes in round `round`.
pub open spec fn turn_entry(round: int, slot: int) -> int {
    (slot + 1) * 0x1_0000_0000 + round
}

/// Three threads took four turns each in exact rotation.
pub fn test_thread_rr_interleave(log: &[u64]) -> (r: Result<(), &'static str>)
    ensures
        if log@.len() != 12 {
            r == Err::<(), &'static str>("interleave log length != 12")
        } else if forall|i: int|
            0 <= i < 12 ==> #[trigger] log@[i] == turn_entry(i / 3, i % 3) {
            r == Ok::<(), &'static str>(())
        } else {
            r == Err::<(), &'static str>("interleave order deviates from exact round-robin")
        },
{
    if log.len() != 12 {
        return Err("interleave log length != 12");
    }
    let mut i: usize = 0;
    while i < 12
        invariant
            i <= 12,
            log@.len() == 12,
            forall|j: int| 0 <= j < i ==> #[trigger] log@[j] == turn_entry(j / 3, j % 3),
        decreases 12 - i,
    {
        let want: u64 = (i as u64 % 3 + 1) * 0x1_0000_0000 + i as u64 / 3;
        assert(want == turn_entry(i as int / 3, i as int % 3));
        if log[i] != want {
            return Err("interleave order deviates from exact round-robin");
        }
        i = i + 1;
    }
    Ok(())
}

/// How many rotations the preemption test looks at.
pub const ROTATIONS: usize = 12;

/// The log entry of a rotation from one slot to another.
pub open spec fn rotation_entry(from: int, to: int) -> int {
    from * 0x1_0000_0000 + to
}

/// The timer rotated four threads in order, and each of the three that never
/// yield made progress. `entries` is what the log holds from the test's start,
/// `None` where an entry is gone.
pub fn test_preempt_rotation(total: u64, entries: &[Option<u64>], counters: [u64; 3]) -> (r: Result<
    (),
    &'static str,
>)
    requires
        entries@.len() >= ROTATIONS,
    ensures
        if total < ROTATIONS {
            r == Err::<(), &'static str>("fewer than 12 timer-driven rotations observed")
        } else {
            match first_bad_rotation(entries@, 0) {
                Some(i) => r == Err::<(), &'static str>(
                    if entries@[i] is None {
                        "preemption log entry vanished"
                    } else {
                        "rotation order is not exact round-robin"
                    },
                ),
                None => if counters@[0] == 0 || counters@[1] == 0 || counters@[2] == 0 {
                    r == Err::<(), &'static str>(
                        "a thread that never yielded made no progress (preemption not real)",
                    )
                } else {
                    r == Ok::<(), &'static str>(())
                },
            }
        },
{
    if total < ROTATIONS as u64 {
        return Err("fewer than 12 timer-driven rotations observed");
    }
    let mut i: usize = 0;
    while i < ROTATIONS
        invariant
            i <= ROTATIONS,
            total >= ROTATIONS,
            entries@.len() >= ROTATIONS,
            first_bad_rotation(entries@, 0) == first_bad_rotation(entries@, i as int),
        decreases ROTATIONS - i,
    {
        let want: u64 = (i as u64 % 4) * 0x1_0000_0000 + (i as u64 + 1) % 4;
        match entries[i] {
            None => {
                return Err("preemption log entry vanished");
            },
            Some(e) => {
                if e != want {
                    return Err("rotation order is not exact round-robin");
                }
            },
        }
        i = i + 1;
    }
    if counters[0] == 0 || counters[1] == 0 || counters[2] == 0 {
        return Err("a thread that never yielded made no progress (preemption not real)");
    }
    Ok(())
}

/// The first entry from `i` on that is missing or out of order.
pub open spec fn first_bad_rotation(entries: Seq<Option<u64>>, i: int) -> Option<int>
    decreases ROTATIONS - i,
{
    if i >= ROTATIONS {
        None
    } else if entries[i] matches Some(e) && e == rotation_entry(i % 4, (i + 1) % 4) {
        first_bad_rotation(entries, i + 1)
    } else {
        Some(i)
    }
}

/// What a recursion of depth `n` over local arrays computes.
pub open spec fn deep_sum(n: u32) -> u64
    decreases n,
{
    if n == 0 {
        0
    } else {
        (4 * n) as u64 ^ deep_sum((n - 1) as u32)
    }
}

/// The recursion that the stack test runs deep into its stack.
pub fn t4_deep(n: u32) -> (r: u64)
    ensures
        r == deep_sum(n),
    decreases n,
{
    let local: [u64; 4] = [n as u64, n as u64, n as u64, n as u64];
    if n == 0 {
        0
    } else {
        (local[0] + local[1] + local[2] + local[3]) ^ t4_deep(n - 1)
    }
}

/// The same value without recursion.
pub fn t4_model(depth: u32) -> (r: u64)
    ensures
        r == deep_sum(depth),
{
    let mut model: u64 = 0;
    let mut k: u32 = 0;
    while k < depth
        invariant
            k <= depth,
            model == deep_sum(k),
        decreases depth - k,
    {
        k = k + 1;
        model = 4 * k as u64 ^ model;
    }
    model
}

/// What to do while threads wind down.
#[derive(Clone, Copy, Debug, PartialEq, Eq)]
pub enum Drain {
    /// Yield and look again.
    Yield,
    /// Yield once more, so that the last stack is given back, and be done.
    Last,
    Stuck(&'static str),
}

/// Wait until only the bootstrap thread lives, at most `max` yields.
pub fn drain(live: usize, used: usize, max: usize) -> (r: Drain)
    ensures
        r == (if live <= 1 {
            Drain::Last
        } else if used >= max {
            Drain::Stuck("threads still live after the yield bound (scheduler stuck?)")
        } else {
            Drain::Yield
        }),
{
    if live <= 1 {
        Drain::Last
    } else if used >= max {
        Drain::Stuck("threads still live after the yield bound (scheduler stuck?)")
    } else {
        Drain::Yield
    }
}

} // verus!

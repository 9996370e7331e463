//! What has to have been seen for a test to pass.

use crate::verdicts;
use crate::verdicts::{BoundaryArmedSeen, ConsoleCountersSeen, ConsoleReaderSeen, FirstProcessSeen, HpetRunsSeen, IdentityTornDownSeen, IpcEchoRunSeen, KernelEntrySeen, KernelHeapLiveSeen, KernelIrqLiveSeen, MmioUserSeen, PreemptCoexistSeen, ProcessRunSeen, ProcessVisitsSeen, RelayRunSeen, SmapProbeSeen, SpawnCountersSeen, SyscallAbiSeen, ThreadCalleeSavedSeen, ThreadChurnAccountingSeen, ThreadExitAbiSeen, ThreadSpawnRunSeen, ThreadStackIsolationSeen, UntypedAllocSeen, UserRing3InterruptedSeen, UserRing3SyscallSeen};
use vstd::prelude::*;

verus! {

/// A thread ran once, with its argument, and there was a switch there and back.
pub proof fn law_thread_spawn_run(o: ThreadSpawnRunSeen)
    ensures
        verdicts::judged(verdicts::thread_spawn_run_checks(o)) is Ok <==> {
            &&& o.runs == 1
            &&& o.magic == 0xC0FF_EE00_DEAD_E4B5
            &&& o.switches >= 2
        },
{
    let c = verdicts::thread_spawn_run_checks(o);
    verdicts::law_pass_is_all(c);
    assert(c[0].0 == (o.runs == 1));
    assert(c[1].0 == (o.magic == 0xC0FF_EE00_DEAD_E4B5));
    assert(c[2].0 == (o.switches >= 2));
}

/// Six registers survived a switch that took place.
pub proof fn law_thread_callee_saved(o: ThreadCalleeSavedSeen)
    ensures
        verdicts::judged(verdicts::thread_callee_saved_checks(o)) is Ok <==> {
            &&& o.regs[0] == 0x3333_4444_5555_6666 && o.regs[1] == 0x4444_5555_6666_7777 && o.regs[2] == 0x5555_6666_7777_8888 && o.regs[3] == 0x6666_7777_8888_9999 && o.regs[4] == 0x7777_8888_9999_AAAA && o.regs[5] == 0x8888_9999_AAAA_BBBB
            &&& o.switches >= 2
        },
{
    let c = verdicts::thread_callee_saved_checks(o);
    verdicts::law_pass_is_all(c);
    assert(c[0].0 == (o.regs[0] == 0x3333_4444_5555_6666 && o.regs[1] == 0x4444_5555_6666_7777 && o.regs[2] == 0x5555_6666_7777_8888 && o.regs[3] == 0x6666_7777_8888_9999 && o.regs[4] == 0x7777_8888_9999_AAAA && o.regs[5] == 0x8888_9999_AAAA_BBBB));
    assert(c[1].0 == (o.switches >= 2));
}

/// Two threads kept their own stacks, which do not meet.
pub proof fn law_thread_stack_isolation(o: ThreadStackIsolationSeen)
    ensures
        verdicts::judged(verdicts::thread_stack_isolation_checks(o)) is Ok <==> {
            &&& o.intact_a && o.intact_b
            &&& o.a.0 != 0 && o.b.0 != 0
            &&& o.a.0 < o.a.1 && o.b.0 < o.b.1
            &&& o.a.1 <= o.b.0 || o.b.1 <= o.a.0
        },
{
    let c = verdicts::thread_stack_isolation_checks(o);
    verdicts::law_pass_is_all(c);
    assert(c[0].0 == (o.intact_a && o.intact_b));
    assert(c[1].0 == (o.a.0 != 0 && o.b.0 != 0));
    assert(c[2].0 == (o.a.0 < o.a.1 && o.b.0 < o.b.1));
    assert(c[3].0 == (o.a.1 <= o.b.0 || o.b.1 <= o.a.0));
}

/// Many threads came and went: all ran, pool and heap are exact, one too many was refused.
pub proof fn law_thread_churn_accounting(o: ThreadChurnAccountingSeen)
    ensures
        verdicts::judged(verdicts::thread_churn_accounting_checks(o)) is Ok <==> {
            &&& o.churned == 64
            &&& o.free1 == o.free0
            &&& o.heap1 == o.heap0
            &&& o.overflow_refused
            &&& o.boundary == 63
            &&& o.free2 == o.free0
            &&& o.spawned1 == o.spawned0 + 127
        },
{
    let c = verdicts::thread_churn_accounting_checks(o);
    verdicts::law_pass_is_all(c);
    assert(c[0].0 == (o.churned == 64));
    assert(c[1].0 == (o.free1 == o.free0));
    assert(c[2].0 == (o.heap1 == o.heap0));
    assert(c[3].0 == (o.overflow_refused));
    assert(c[4].0 == (o.boundary == 63));
    assert(c[5].0 == (o.free2 == o.free0));
    assert(c[6].0 == (o.spawned1 == o.spawned0 + 127));
}

/// Threads that wait and yield finished while the timer rotated them.
pub proof fn law_preempt_coexist(o: PreemptCoexistSeen)
    ensures
        verdicts::judged(verdicts::preempt_coexist_checks(o)) is Ok <==> {
            &&& o.rounds_a == 3 && o.rounds_b == 3
            &&& o.wait_failures == 0
            &&& o.rotations >= 2
        },
{
    let c = verdicts::preempt_coexist_checks(o);
    verdicts::law_pass_is_all(c);
    assert(c[0].0 == (o.rounds_a == 3 && o.rounds_b == 3));
    assert(c[1].0 == (o.wait_failures == 0));
    assert(c[2].0 == (o.rotations >= 2));
}

/// The registers of the ring-3 boundary hold what they must.
pub proof fn law_boundary_armed(o: BoundaryArmedSeen)
    ensures
        verdicts::judged(verdicts::boundary_armed_checks(o)) is Ok <==> {
            &&& o.gdt_ok
            &&& o.sce
            &&& o.star == 0x0020_0008_0000_0000
            &&& o.lstar >= 0xFFFF_FFFF_8000_0000
            &&& !o.has_smep || o.smep_on
            &&& !o.has_smap || o.smap_on
        },
{
    let c = verdicts::boundary_armed_checks(o);
    verdicts::law_pass_is_all(c);
    assert(c[0].0 == (o.gdt_ok));
    assert(c[1].0 == (o.sce));
    assert(c[2].0 == (o.star == 0x0020_0008_0000_0000));
    assert(c[3].0 == (o.lstar >= 0xFFFF_FFFF_8000_0000));
    assert(c[4].0 == (!o.has_smep || o.smep_on));
    assert(c[5].0 == (!o.has_smap || o.smap_on));
}

/// A bare kernel read of a user page faulted on that page.
pub proof fn law_smap_probe(o: SmapProbeSeen)
    ensures
        verdicts::judged(verdicts::smap_probe_checks(o)) is Ok <==> {
            &&& o.seen.valid && o.seen.vector == 14
            &&& o.seen.cr2 == o.page
        },
{
    let c = verdicts::smap_probe_checks(o);
    verdicts::law_pass_is_all(c);
    assert(c[0].0 == (o.seen.valid && o.seen.vector == 14));
    assert(c[1].0 == (o.seen.cr2 == o.page));
}

/// The first user program kept its contract, and the kernel saw just that.
pub proof fn law_user_ring3_syscall(o: UserRing3SyscallSeen)
    ensures
        verdicts::judged(verdicts::user_ring3_syscall_checks(o)) is Ok <==> {
            &&& o.exited
            &&& o.status == 42
            &&& o.st.write_calls == o.st0.write_calls + 1 && o.st.write_bytes == o.st0.write_bytes + 18
            &&& o.st.invalid_nr == o.st0.invalid_nr + 1
            &&& o.st.exit_calls == o.st0.exit_calls + 1
            &&& o.st.ring3_proved
            &&& o.st.ring3_gp_ec == 0
            &&& o.copy_ok
            &&& o.top != 0 && o.rsp0 == o.top
        },
{
    let c = verdicts::user_ring3_syscall_checks(o);
    verdicts::law_pass_is_all(c);
    assert(c[0].0 == (o.exited));
    assert(c[1].0 == (o.status == 42));
    assert(c[2].0 == (o.st.write_calls == o.st0.write_calls + 1 && o.st.write_bytes == o.st0.write_bytes + 18));
    assert(c[3].0 == (o.st.invalid_nr == o.st0.invalid_nr + 1));
    assert(c[4].0 == (o.st.exit_calls == o.st0.exit_calls + 1));
    assert(c[5].0 == (o.st.ring3_proved));
    assert(c[6].0 == (o.st.ring3_gp_ec == 0));
    assert(c[7].0 == (o.copy_ok));
    assert(c[8].0 == (o.top != 0 && o.rsp0 == o.top));
}

/// The spinning program was interrupted, rotated and released.
pub proof fn law_user_ring3_interrupted(o: UserRing3InterruptedSeen)
    ensures
        verdicts::judged(verdicts::user_ring3_interrupted_checks(o)) is Ok <==> {
            &&& o.exited
            &&& o.status != 99
            &&& o.status == 7
            &&& o.ticks >= 4
            &&& o.switches >= 2
            &&& o.top != 0 && o.rsp0 == o.top
            &&& o.st.write_bytes == o.st0.write_bytes + 14 && o.copy_ok
        },
{
    let c = verdicts::user_ring3_interrupted_checks(o);
    verdicts::law_pass_is_all(c);
    assert(c[0].0 == (o.exited));
    assert(c[1].0 == (o.status != 99));
    assert(c[2].0 == (o.status == 7));
    assert(c[3].0 == (o.ticks >= 4));
    assert(c[4].0 == (o.switches >= 2));
    assert(c[5].0 == (o.top != 0 && o.rsp0 == o.top));
    assert(c[6].0 == (o.st.write_bytes == o.st0.write_bytes + 14 && o.copy_ok));
}

/// What two address spaces showed when they were visited.
pub proof fn law_process_visits(o: ProcessVisitsSeen)
    ensures
        verdicts::judged(verdicts::process_visits_checks(o)) is Ok <==> {
            &&& o.a1 == 0xAA
            &&& o.b1 == 0xBB
            &&& o.a2 == 0x11
            &&& o.kernel_a == 0xA5A5_5A5A_A5A5_5A5A && o.kernel_b == 0xA5A5_5A5A_A5A5_5A5A
            &&& o.hole.valid && o.hole.vector == 14
            &&& o.hole.cr2 == 0x50_0000
        },
{
    let c = verdicts::process_visits_checks(o);
    verdicts::law_pass_is_all(c);
    assert(c[0].0 == (o.a1 == 0xAA));
    assert(c[1].0 == (o.b1 == 0xBB));
    assert(c[2].0 == (o.a2 == 0x11));
    assert(c[3].0 == (o.kernel_a == 0xA5A5_5A5A_A5A5_5A5A && o.kernel_b == 0xA5A5_5A5A_A5A5_5A5A));
    assert(c[4].0 == (o.hole.valid && o.hole.vector == 14));
    assert(c[5].0 == (o.hole.cr2 == 0x50_0000));
}

/// The first user program kept its contract inside a process.
pub proof fn law_process_run(o: ProcessRunSeen)
    ensures
        verdicts::judged(verdicts::process_run_checks(o)) is Ok <==> {
            &&& o.same_half
            &&& o.entry_kept
            &&& o.exited
            &&& o.status == 42
            &&& o.st.write_calls == o.st0.write_calls + 1 && o.st.write_bytes == o.st0.write_bytes + 18
            &&& o.copy_ok
            &&& o.top != 0 && o.rsp0 == o.top
            &&& o.cr3_restored
            &&& o.free1 == o.free0
        },
{
    let c = verdicts::process_run_checks(o);
    verdicts::law_pass_is_all(c);
    assert(c[0].0 == (o.same_half));
    assert(c[1].0 == (o.entry_kept));
    assert(c[2].0 == (o.exited));
    assert(c[3].0 == (o.status == 42));
    assert(c[4].0 == (o.st.write_calls == o.st0.write_calls + 1 && o.st.write_bytes == o.st0.write_bytes + 18));
    assert(c[5].0 == (o.copy_ok));
    assert(c[6].0 == (o.top != 0 && o.rsp0 == o.top));
    assert(c[7].0 == (o.cr3_restored));
    assert(c[8].0 == (o.free1 == o.free0));
}

/// The call-convention program kept its contract, and the kernel saw just that.
pub proof fn law_syscall_abi(o: SyscallAbiSeen)
    ensures
        verdicts::judged(verdicts::syscall_abi_checks(o)) is Ok <==> {
            &&& o.exited
            &&& o.status == 42
            &&& o.st.echo_calls == o.st0.echo_calls + 1
            &&& o.st.write_calls == o.st0.write_calls + 4
            &&& o.st.write_rejected == o.st0.write_rejected + 3
            &&& o.st.write_bytes == o.st0.write_bytes + 18
            &&& o.st.invalid_nr == o.st0.invalid_nr + 1
            &&& o.st.exit_calls == o.st0.exit_calls + 1
            &&& o.copy_ok
            &&& o.fingerprint == o.want
        },
{
    let c = verdicts::syscall_abi_checks(o);
    verdicts::law_pass_is_all(c);
    assert(c[0].0 == (o.exited));
    assert(c[1].0 == (o.status == 42));
    assert(c[2].0 == (o.st.echo_calls == o.st0.echo_calls + 1));
    assert(c[3].0 == (o.st.write_calls == o.st0.write_calls + 4));
    assert(c[4].0 == (o.st.write_rejected == o.st0.write_rejected + 3));
    assert(c[5].0 == (o.st.write_bytes == o.st0.write_bytes + 18));
    assert(c[6].0 == (o.st.invalid_nr == o.st0.invalid_nr + 1));
    assert(c[7].0 == (o.st.exit_calls == o.st0.exit_calls + 1));
    assert(c[8].0 == (o.copy_ok));
    assert(c[9].0 == (o.fingerprint == o.want));
}

/// A full-width exit code was recorded, once, and the thread is gone.
pub proof fn law_thread_exit_abi(o: ThreadExitAbiSeen)
    ensures
        verdicts::judged(verdicts::thread_exit_abi_checks(o)) is Ok <==> {
            &&& o.exited && o.status == 0x0000_BEEF_C0DE_0042
            &&& o.st.exit_calls == o.st0.exit_calls + 1
            &&& o.threads1 == o.threads0
        },
{
    let c = verdicts::thread_exit_abi_checks(o);
    verdicts::law_pass_is_all(c);
    assert(c[0].0 == (o.exited && o.status == 0x0000_BEEF_C0DE_0042));
    assert(c[1].0 == (o.st.exit_calls == o.st0.exit_calls + 1));
    assert(c[2].0 == (o.threads1 == o.threads0));
}

/// The loaded image ran to its end, and left what it must.
pub proof fn law_first_process(o: FirstProcessSeen)
    ensures
        verdicts::judged(verdicts::first_process_checks(o)) is Ok <==> {
            &&& o.exited
            &&& o.status == o.exit_ok
            &&& o.st.write_calls == o.st0.write_calls + 1
            &&& o.st.write_rejected == o.st0.write_rejected
            &&& o.st.write_bytes == o.st0.write_bytes + o.msg_len
            &&& o.st.exit_calls == o.st0.exit_calls + 1
            &&& o.threads1 == o.threads0
            &&& o.copy_ok
            &&& o.stamp == o.want_stamp
            &&& o.rest_zero
            &&& o.free1 == o.free0
        },
{
    let c = verdicts::first_process_checks(o);
    verdicts::law_pass_is_all(c);
    assert(c[0].0 == (o.exited));
    assert(c[1].0 == (o.status == o.exit_ok));
    assert(c[2].0 == (o.st.write_calls == o.st0.write_calls + 1));
    assert(c[3].0 == (o.st.write_rejected == o.st0.write_rejected));
    assert(c[4].0 == (o.st.write_bytes == o.st0.write_bytes + o.msg_len));
    assert(c[5].0 == (o.st.exit_calls == o.st0.exit_calls + 1));
    assert(c[6].0 == (o.threads1 == o.threads0));
    assert(c[7].0 == (o.copy_ok));
    assert(c[8].0 == (o.stamp == o.want_stamp));
    assert(c[9].0 == (o.rest_zero));
    assert(c[10].0 == (o.free1 == o.free0));
}

/// Client and server talked, and the counters say just that.
pub proof fn law_ipc_echo_run(o: IpcEchoRunSeen)
    ensures
        verdicts::judged(verdicts::ipc_echo_run_checks(o)) is Ok <==> {
            &&& o.server_exited
            &&& o.server_status == 42
            &&& o.client_exited
            &&& o.client_status == 42
            &&& o.st.calls == o.st0.calls + 7
            &&& o.st.invalid_nr == o.st0.invalid_nr
            &&& o.i.calls == o.i0.calls + 1 && o.i.recvs == o.i0.recvs + 1 && o.i.replies == o.i0.replies + 1
            &&& o.i.notifies == o.i0.notifies + 1 && o.i.waits == o.i0.waits + 1
            &&& o.i.cap_transfers == o.i0.cap_transfers + 1 && o.i.cap_drops == o.i0.cap_drops
            &&& o.i.blocks == o.i0.blocks + 2
            &&& o.threads1 == o.threads0
        },
{
    let c = verdicts::ipc_echo_run_checks(o);
    verdicts::law_pass_is_all(c);
    assert(c[0].0 == (o.server_exited));
    assert(c[1].0 == (o.server_status == 42));
    assert(c[2].0 == (o.client_exited));
    assert(c[3].0 == (o.client_status == 42));
    assert(c[4].0 == (o.st.calls == o.st0.calls + 7));
    assert(c[5].0 == (o.st.invalid_nr == o.st0.invalid_nr));
    assert(c[6].0 == (o.i.calls == o.i0.calls + 1 && o.i.recvs == o.i0.recvs + 1 && o.i.replies == o.i0.replies + 1));
    assert(c[7].0 == (o.i.notifies == o.i0.notifies + 1 && o.i.waits == o.i0.waits + 1));
    assert(c[8].0 == (o.i.cap_transfers == o.i0.cap_transfers + 1 && o.i.cap_drops == o.i0.cap_drops));
    assert(c[9].0 == (o.i.blocks == o.i0.blocks + 2));
    assert(c[10].0 == (o.threads1 == o.threads0));
}

/// The supervisor restarted its child.
pub proof fn law_spawn_supervisor(exited: bool, status: u64)
    ensures
        verdicts::judged(verdicts::spawn_supervisor_checks(exited, status)) is Ok <==> {
            &&& exited
            &&& status == 42
        },
{
    let c = verdicts::spawn_supervisor_checks(exited, status);
    verdicts::law_pass_is_all(c);
    assert(c[0].0 == (exited));
    assert(c[1].0 == (status == 42));
}

/// The counters of the restart demonstration.
pub proof fn law_spawn_counters(o: SpawnCountersSeen)
    ensures
        verdicts::judged(verdicts::spawn_counters_checks(o)) is Ok <==> {
            &&& o.st.calls == o.st0.calls + 9
            &&& o.st.exit_calls == o.st0.exit_calls + 3
            &&& o.st.write_calls == o.st0.write_calls + 2
            &&& o.st.write_bytes == o.st0.write_bytes + 2 * o.msg_len
            &&& o.i.notifies == o.i0.notifies + 2
            &&& o.i.waits == o.i0.waits + 2
            &&& o.i.blocks == o.i0.blocks + 2
            &&& o.threads1 == o.threads0
        },
{
    let c = verdicts::spawn_counters_checks(o);
    verdicts::law_pass_is_all(c);
    assert(c[0].0 == (o.st.calls == o.st0.calls + 9));
    assert(c[1].0 == (o.st.exit_calls == o.st0.exit_calls + 3));
    assert(c[2].0 == (o.st.write_calls == o.st0.write_calls + 2));
    assert(c[3].0 == (o.st.write_bytes == o.st0.write_bytes + 2 * o.msg_len));
    assert(c[4].0 == (o.i.notifies == o.i0.notifies + 2));
    assert(c[5].0 == (o.i.waits == o.i0.waits + 2));
    assert(c[6].0 == (o.i.blocks == o.i0.blocks + 2));
    assert(c[7].0 == (o.threads1 == o.threads0));
}

/// The user program read its line.
pub proof fn law_console_reader(o: ConsoleReaderSeen)
    ensures
        verdicts::judged(verdicts::console_reader_checks(o)) is Ok <==> {
            &&& o.exited
            &&& o.status == 42
        },
{
    let c = verdicts::console_reader_checks(o);
    verdicts::law_pass_is_all(c);
    assert(c[0].0 == (o.exited));
    assert(c[1].0 == (o.status == 42));
}

/// The counters of the console test.
pub proof fn law_console_counters(o: ConsoleCountersSeen)
    ensures
        verdicts::judged(verdicts::console_counters_checks(o)) is Ok <==> {
            &&& o.c1.lines_in == o.c0.lines_in + 8
            &&& o.c1.dropped_lines == o.c0.dropped_lines + 1
            &&& o.c1.reads == o.c0.reads + 7
            &&& o.c1.blocks == o.c0.blocks + 1
            &&& o.c1.truncations == o.c0.truncations + 1
            &&& o.pending == 0
            &&& o.threads1 == o.threads0
            &&& o.free1 == o.free0
        },
{
    let c = verdicts::console_counters_checks(o);
    verdicts::law_pass_is_all(c);
    assert(c[0].0 == (o.c1.lines_in == o.c0.lines_in + 8));
    assert(c[1].0 == (o.c1.dropped_lines == o.c0.dropped_lines + 1));
    assert(c[2].0 == (o.c1.reads == o.c0.reads + 7));
    assert(c[3].0 == (o.c1.blocks == o.c0.blocks + 1));
    assert(c[4].0 == (o.c1.truncations == o.c0.truncations + 1));
    assert(c[5].0 == (o.pending == 0));
    assert(c[6].0 == (o.threads1 == o.threads0));
    assert(c[7].0 == (o.free1 == o.free0));
}

/// The frame program ran, and its words say that it worked.
pub proof fn law_untyped_alloc(o: UntypedAllocSeen)
    ensures
        verdicts::judged(verdicts::untyped_alloc_checks(o)) is Ok <==> {
            &&& o.exited
            &&& o.status == 42
            &&& o.phys1 != 0 && o.phys1 % 4096 == 0 && o.phys2 != 0 && o.phys2 % 4096 == 0
            &&& o.phys1 != o.phys2
            &&& o.va != 0 && o.va < 0x0000_8000_0000_0000
            &&& o.readback == 0xDEAD_BEEF_CAFE_0051
        },
{
    let c = verdicts::untyped_alloc_checks(o);
    verdicts::law_pass_is_all(c);
    assert(c[0].0 == (o.exited));
    assert(c[1].0 == (o.status == 42));
    assert(c[2].0 == (o.phys1 != 0 && o.phys1 % 4096 == 0 && o.phys2 != 0 && o.phys2 % 4096 == 0));
    assert(c[3].0 == (o.phys1 != o.phys2));
    assert(c[4].0 == (o.va != 0 && o.va < 0x0000_8000_0000_0000));
    assert(c[5].0 == (o.readback == 0xDEAD_BEEF_CAFE_0051));
}

/// The timer's counter runs, as the kernel sees it.
pub proof fn law_hpet_runs(o: HpetRunsSeen)
    ensures
        verdicts::judged(verdicts::hpet_runs_checks(o)) is Ok <==> {
            &&& o.enabled
            &&& o.t1 != o.t0
        },
{
    let c = verdicts::hpet_runs_checks(o);
    verdicts::law_pass_is_all(c);
    assert(c[0].0 == (o.enabled));
    assert(c[1].0 == (o.t1 != o.t0));
}

/// The device program saw the counter advance.
pub proof fn law_mmio_user(o: MmioUserSeen)
    ensures
        verdicts::judged(verdicts::mmio_user_checks(o)) is Ok <==> {
            &&& o.exited
            &&& o.status == 42
            &&& o.rt2 > o.rt1
        },
{
    let c = verdicts::mmio_user_checks(o);
    verdicts::law_pass_is_all(c);
    assert(c[0].0 == (o.exited));
    assert(c[1].0 == (o.status == 42));
    assert(c[2].0 == (o.rt2 > o.rt1));
}

/// The relayed interrupt woke its waiter once.
pub proof fn law_relay_run(o: RelayRunSeen)
    ensures
        verdicts::judged(verdicts::relay_run_checks(o)) is Ok <==> {
            &&& o.drained
            &&& o.seen == 0x51AB
            &&& o.deliveries == 1
            &&& o.notifies1 == o.notifies0 + 1
            &&& o.threads1 == o.threads0
        },
{
    let c = verdicts::relay_run_checks(o);
    verdicts::law_pass_is_all(c);
    assert(c[0].0 == (o.drained));
    assert(c[1].0 == (o.seen == 0x51AB));
    assert(c[2].0 == (o.deliveries == 1));
    assert(c[3].0 == (o.notifies1 == o.notifies0 + 1));
    assert(c[4].0 == (o.threads1 == o.threads0));
}

/// The processor runs in the kernel's view.
pub proof fn law_kernel_entry(o: KernelEntrySeen)
    ensures
        verdicts::judged(verdicts::kernel_entry_checks(o)) is Ok <==> {
            &&& o.rip >= 0xFFFF_FFFF_8000_0000
            &&& o.rsp >= 0xFFFF_FFFF_8000_0000
            &&& o.cr3 == o.kernel_cr3
            &&& o.cr3 != o.dual_view_cr3
            &&& o.wp && o.pg
            &&& o.nxe && o.lma
        },
{
    let c = verdicts::kernel_entry_checks(o);
    verdicts::law_pass_is_all(c);
    assert(c[0].0 == (o.rip >= 0xFFFF_FFFF_8000_0000));
    assert(c[1].0 == (o.rsp >= 0xFFFF_FFFF_8000_0000));
    assert(c[2].0 == (o.cr3 == o.kernel_cr3));
    assert(c[3].0 == (o.cr3 != o.dual_view_cr3));
    assert(c[4].0 == (o.wp && o.pg));
    assert(c[5].0 == (o.nxe && o.lma));
}

/// A write to an identity address faulted, on a page that is not there.
pub proof fn law_identity_torn_down(o: IdentityTornDownSeen)
    ensures
        verdicts::judged(verdicts::identity_torn_down_checks(o)) is Ok <==> {
            &&& o.seen.valid && o.seen.vector == 14
            &&& o.seen.cr2 == 0x1000
            &&& o.seen.error_code % 4 == 2
        },
{
    let c = verdicts::identity_torn_down_checks(o);
    verdicts::law_pass_is_all(c);
    assert(c[0].0 == (o.seen.valid && o.seen.vector == 14));
    assert(c[1].0 == (o.seen.cr2 == 0x1000));
    assert(c[2].0 == (o.seen.error_code % 4 == 2));
}

/// Heap and pool work in the kernel's view.
pub proof fn law_kernel_heap_live(o: KernelHeapLiveSeen)
    ensures
        verdicts::judged(verdicts::kernel_heap_live_checks(o)) is Ok <==> {
            &&& o.allocated
            &&& o.va >= 0xFFFF_FFFF_8000_0000
            &&& o.round_trip
            &&& o.freed
            &&& o.frame
            &&& o.frame_back
        },
{
    let c = verdicts::kernel_heap_live_checks(o);
    verdicts::law_pass_is_all(c);
    assert(c[0].0 == (o.allocated));
    assert(c[1].0 == (o.va >= 0xFFFF_FFFF_8000_0000));
    assert(c[2].0 == (o.round_trip));
    assert(c[3].0 == (o.freed));
    assert(c[4].0 == (o.frame));
    assert(c[5].0 == (o.frame_back));
}

/// Two timer ticks arrived.
pub proof fn law_kernel_irq_live(o: KernelIrqLiveSeen)
    ensures
        verdicts::judged(verdicts::kernel_irq_live_checks(o)) is Ok <==> {
            &&& o.ticks >= 2
        },
{
    let c = verdicts::kernel_irq_live_checks(o);
    verdicts::law_pass_is_all(c);
    assert(c[0].0 == (o.ticks >= 2));
}

} // verus!

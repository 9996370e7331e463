//! The way up: what is done, in which order, and what stops it.

use crate::boot;
use crate::entry;
use vstd::prelude::*;

verus! {

/// Where the kernel is after the first `n` steps, while all goes well.
pub open spec fn up(n: int, nid: u32, id: u64) -> (entry::Phase, entry::Action)
    decreases n,
{
    if n <= 0 {
        (entry::Phase::Record, entry::Action::Ignore)
    } else {
        entry::kmain_next(up(n - 1, nid, id).0, good(n, nid, id))
    }
}

/// The event that ends step `n` well.
pub open spec fn good(n: int, nid: u32, id: u64) -> entry::Event {
    if n == 1 {
        entry::Event::Entered(true)
    } else if n == 2 {
        entry::Event::Done
    } else if n == 3 || n == 6 || n == 7 {
        entry::Event::SuiteEnded(true)
    } else if n == 4 || n == 5 {
        entry::Event::Initialised(true)
    } else if n == 8 {
        entry::Event::NotificationMade(Some(nid))
    } else {
        entry::Event::ShellSpawned(Ok(id))
    }
}

/// The kernel takes the devices back, tests itself, starts the scheduler and
/// the boundary to user code, runs the third and the fourth suite, makes the
/// shell's notification, spawns the shell with it, and idles.
pub proof fn law_kernel_comes_up(nid: u32, id: u64)
    ensures
        up(1, nid, id).1 is ReclaimDevices,
        up(2, nid, id).1 is RunEntryTests,
        up(3, nid, id).1 is InitScheduler,
        up(4, nid, id).1 is InitBoundary,
        up(5, nid, id).1 is RunThirdSuite,
        up(6, nid, id).1 is RunFourthSuite,
        up(7, nid, id).1 is MakeNotification,
        up(8, nid, id).1 == entry::Action::SpawnShell(nid),
        up(9, nid, id).1 is Idle,
{
    reveal_with_fuel(up, 10);
}

/// A step that goes wrong halts the kernel, whichever it is, and nothing gets
/// it going again.
pub proof fn law_failure_halts_the_kernel(
    nid: u32,
    id: u64,
    why: &'static str,
    e: entry::Event,
)
    ensures
        ({
            let r = entry::kmain_next(up(0, nid, id).0, entry::Event::Entered(false));
            r.1 is Halt && entry::kmain_next(r.0, e).1 is Ignore
        }),
        forall|n: int|
            n == 2 || n == 5 || n == 6 ==> (#[trigger] entry::kmain_next(
                up(n, nid, id).0,
                entry::Event::SuiteEnded(false),
            )).1 is Halt,
        forall|n: int|
            n == 3 || n == 4 ==> (#[trigger] entry::kmain_next(
                up(n, nid, id).0,
                entry::Event::Initialised(false),
            )).1 is Halt,
        entry::kmain_next(up(7, nid, id).0, entry::Event::NotificationMade(None)).1 is Halt,
        entry::kmain_next(up(8, nid, id).0, entry::Event::ShellSpawned(Err(why))).1
            == entry::Action::Halt(why),
{
    reveal_with_fuel(up, 10);
    assert forall|n: int| n == 2 || n == 5 || n == 6 implies (#[trigger] entry::kmain_next(
        up(n, nid, id).0,
        entry::Event::SuiteEnded(false),
    )).1 is Halt by {
        assert(up(2, nid, id).0 is EntryTests && up(5, nid, id).0 is ThirdSuite && up(
            6,
            nid,
            id,
        ).0 is FourthSuite);
    }
    assert forall|n: int| n == 3 || n == 4 implies (#[trigger] entry::kmain_next(
        up(n, nid, id).0,
        entry::Event::Initialised(false),
    )).1 is Halt by {
        assert(up(3, nid, id).0 is Scheduler && up(4, nid, id).0 is Boundary);
    }
}

/// Where the boot stage is after the first `n` steps, while no step fails,
/// whatever the suites come to.
pub open spec fn boots(n: int, passed: usize, of: usize) -> (boot::Phase, boot::Action)
    decreases n,
{
    if n <= 0 {
        (boot::Phase::Entry, boot::Action::Ignore)
    } else {
        boot::efi_next(
            boots(n - 1, passed, of).0,
            if n == 1 {
                boot::Event::Entered
            } else if n <= 7 {
                boot::Event::Done
            } else if n == 9 || n == 12 {
                boot::Event::SuiteEnded(passed, of)
            } else {
                boot::Event::Tried(Ok(()))
            },
        )
    }
}

/// The boot stage captures the firmware's table, starts the console, says who
/// it is, loads segments, task state and gates, captures the memory map, runs
/// the first suite, starts the clock and the frame pool, runs the second suite,
/// and shuts the machine down.
pub proof fn law_boot_stage_runs(passed: usize, of: usize)
    ensures
        boots(1, passed, of).1 is CaptureFirmware,
        boots(2, passed, of).1 is InitConsole,
        boots(3, passed, of).1 is ShowIdentity,
        boots(4, passed, of).1 is LoadSegments,
        boots(5, passed, of).1 is LoadTaskState,
        boots(6, passed, of).1 is LoadGates,
        boots(7, passed, of).1 is CaptureMemoryMap,
        boots(8, passed, of).1 is RunFirstSuite,
        boots(9, passed, of).1 is InitTimekeeping,
        boots(10, passed, of).1 is InitFrames,
        boots(11, passed, of).1 is RunSecondSuite,
        boots(12, passed, of).1 is Shutdown,
{
    reveal_with_fuel(boots, 13);
}

/// A step of the boot stage that fails halts the machine.
pub proof fn law_failure_halts_the_boot_stage(passed: usize, of: usize, why: &'static str)
    ensures
        boot::efi_next(boots(7, passed, of).0, boot::Event::Tried(Err(why))).1 is Halt,
        boot::efi_next(boots(9, passed, of).0, boot::Event::Tried(Err(why))).1 is Halt,
        boot::efi_next(boots(10, passed, of).0, boot::Event::Tried(Err(why))).1 is Halt,
{
    reveal_with_fuel(boots, 13);
}

} // verus!

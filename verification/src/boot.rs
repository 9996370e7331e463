//! The order of the boot stage: what comes after what, and what stops it.

use vstd::prelude::*;
use vstd::string::*;
use crate::log;

verus! {

/// Where the boot stage is.
#[derive(Clone, Copy, Debug, PartialEq, Eq, Structural)]
pub enum Phase {
    /// Nothing is done.
    Entry,
    /// The firmware's table is being captured.
    Firmware,
    /// The serial port is being set up.
    Console,
    /// Firmware and processor are being named.
    Identity,
    /// The segment table, the task state and the interrupt table are being loaded,
    /// in this order.
    Segments,
    TaskState,
    Gates,
    /// The memory map is being captured.
    MemoryMap,
    FirstSuite,
    Timekeeping,
    Frames,
    SecondSuite,
    /// The machine is being shut down.
    Shutdown,
    Halted,
}

/// What happened.
#[derive(Clone, Copy)]
pub enum Event {
    /// The image was entered.
    Entered,
    /// A step that cannot fail is done.
    Done,
    /// A step went well, or why it did not.
    Tried(Result<(), &'static str>),
    /// A suite ended, with so many passes out of so many.
    SuiteEnded(usize, usize),
}

/// What to do next.
#[derive(Clone, Copy)]
pub enum Action {
    /// Interrupts off, then capture the firmware's table.
    CaptureFirmware,
    InitConsole,
    ShowIdentity,
    LoadSegments,
    LoadTaskState,
    LoadGates,
    CaptureMemoryMap,
    RunFirstSuite,
    InitTimekeeping,
    InitFrames,
    RunSecondSuite,
    /// Shut the machine down, and park the processor if it comes back.
    Shutdown,
    /// Halt the machine for this reason.
    Halt(&'static str),
    /// The event does not belong here.
    Ignore,
}

/// The order of the boot stage. A suite that fails does not stop it; a step
/// that fails does.
pub open spec fn efi_next(p: Phase, e: Event) -> (Phase, Action) {
    match (p, e) {
        (Phase::Entry, Event::Entered) => (Phase::Firmware, Action::CaptureFirmware),
        (Phase::Firmware, Event::Done) => (Phase::Console, Action::InitConsole),
        (Phase::Console, Event::Done) => (Phase::Identity, Action::ShowIdentity),
        (Phase::Identity, Event::Done) => (Phase::Segments, Action::LoadSegments),
        (Phase::Segments, Event::Done) => (Phase::TaskState, Action::LoadTaskState),
        (Phase::TaskState, Event::Done) => (Phase::Gates, Action::LoadGates),
        (Phase::Gates, Event::Done) => (Phase::MemoryMap, Action::CaptureMemoryMap),
        (Phase::MemoryMap, Event::Tried(Ok(_))) => (Phase::FirstSuite, Action::RunFirstSuite),
        (Phase::MemoryMap, Event::Tried(Err(_))) => (
            Phase::Halted,
            Action::Halt("memory map capture failed"),
        ),
        (Phase::FirstSuite, Event::SuiteEnded(_, _)) => (
            Phase::Timekeeping,
            Action::InitTimekeeping,
        ),
        (Phase::Timekeeping, Event::Tried(Ok(_))) => (Phase::Frames, Action::InitFrames),
        (Phase::Timekeeping, Event::Tried(Err(_))) => (
            Phase::Halted,
            Action::Halt("timekeeping init failed"),
        ),
        (Phase::Frames, Event::Tried(Ok(_))) => (Phase::SecondSuite, Action::RunSecondSuite),
        (Phase::Frames, Event::Tried(Err(_))) => (
            Phase::Halted,
            Action::Halt("frame allocator init failed"),
        ),
        (Phase::SecondSuite, Event::SuiteEnded(_, _)) => (Phase::Shutdown, Action::Shutdown),
        _ => (p, Action::Ignore),
    }
}

/// One step of the boot stage.
pub fn efi_main(p: Phase, e: Event) -> (r: (Phase, Action))
    ensures
        r == efi_next(p, e),
{
    match (p, e) {
        (Phase::Entry, Event::Entered) => (Phase::Firmware, Action::CaptureFirmware),
        (Phase::Firmware, Event::Done) => (Phase::Console, Action::InitConsole),
        (Phase::Console, Event::Done) => (Phase::Identity, Action::ShowIdentity),
        (Phase::Identity, Event::Done) => (Phase::Segments, Action::LoadSegments),
        (Phase::Segments, Event::Done) => (Phase::TaskState, Action::LoadTaskState),
        (Phase::TaskState, Event::Done) => (Phase::Gates, Action::LoadGates),
        (Phase::Gates, Event::Done) => (Phase::MemoryMap, Action::CaptureMemoryMap),
        (Phase::MemoryMap, Event::Tried(r)) => match r {
            Ok(_) => (Phase::FirstSuite, Action::RunFirstSuite),
            Err(_) => (Phase::Halted, Action::Halt("memory map capture failed")),
        },
        (Phase::FirstSuite, Event::SuiteEnded(_, _)) => (
            Phase::Timekeeping,
            Action::InitTimekeeping,
        ),
        (Phase::Timekeeping, Event::Tried(r)) => match r {
            Ok(_) => (Phase::Frames, Action::InitFrames),
            Err(_) => (Phase::Halted, Action::Halt("timekeeping init failed")),
        },
        (Phase::Frames, Event::Tried(r)) => match r {
            Ok(_) => (Phase::SecondSuite, Action::RunSecondSuite),
            Err(_) => (Phase::Halted, Action::Halt("frame allocator init failed")),
        },
        (Phase::SecondSuite, Event::SuiteEnded(_, _)) => (Phase::Shutdown, Action::Shutdown),
        _ => (p, Action::Ignore),
    }
}

/// How far a phase is.
pub open spec fn rank(p: Phase) -> int {
    match p {
        Phase::Entry => 0,
        Phase::Firmware => 1,
        Phase::Console => 2,
        Phase::Identity => 3,
        Phase::Segments => 4,
        Phase::TaskState => 5,
        Phase::Gates => 6,
        Phase::MemoryMap => 7,
        Phase::FirstSuite => 8,
        Phase::Timekeeping => 9,
        Phase::Frames => 10,
        Phase::SecondSuite => 11,
        Phase::Shutdown => 12,
        Phase::Halted => 13,
    }
}

/// The boot stage takes its steps in order: each event leads to the next
/// phase, to the halt, or nowhere. The gates are loaded behind the segments
/// and the task state, and before the firmware is called.
pub proof fn law_boot_order(p: Phase, e: Event)
    ensures
        ({
            let (q, a) = efi_next(p, e);
            ||| q == p && a is Ignore
            ||| q is Halted && a is Halt
            ||| rank(q) == rank(p) + 1 && !(q is Halted)
        }),
{
}

/// A suite that fails does not stop the boot stage.
pub proof fn law_suites_do_not_stop(p: Phase, a: usize, b: usize, c: usize, d: usize)
    ensures
        efi_next(p, Event::SuiteEnded(a, b)) == efi_next(p, Event::SuiteEnded(c, d)),
{
}

/// The last line of the boot stage.
pub open spec fn farewell_text(m1: (usize, usize), m2: (usize, usize)) -> Seq<char> {
    "milestones finished (m1 "@ + log::decimal(m1.0 as nat) + "/"@ + log::decimal(m1.1 as nat)
        + ", m2 "@ + log::decimal(m2.0 as nat) + "/"@ + log::decimal(m2.1 as nat)
        + "); halting via UEFI ResetSystem(shutdown)"@
}

/// The last line of the boot stage: what the two suites came to.
pub fn farewell(m1: (usize, usize), m2: (usize, usize)) -> (r: String)
    ensures
        r@ == log::line_of(log::Level::Info, "boot"@, farewell_text(m1, m2)),
{
    let mut s: String = String::from_str("milestones finished (m1 ");
    log::append_decimal(&mut s, m1.0 as u64);
    s.append("/");
    log::append_decimal(&mut s, m1.1 as u64);
    s.append(", m2 ");
    log::append_decimal(&mut s, m2.0 as u64);
    s.append("/");
    log::append_decimal(&mut s, m2.1 as u64);
    s.append("); halting via UEFI ResetSystem(shutdown)");
    log::write(log::Level::Info, "boot", s.as_str())
}

} // verus!

//! Entering the kernel proper: the boot-info record, and the order in which the
//! kernel comes up.

use vstd::prelude::*;
use crate::cap::{Cap, CapObj, RIGHTS_READ, RIGHTS_WRITE};
use crate::intc::HPET_LEGACY_ENABLE;

verus! {

/// What a valid record starts with.
pub const BOOTINFO_MAGIC: u64 = 0x4152_454E_4B31_B007;

/// The version of the record that the kernel takes.
pub const BOOTINFO_VERSION: u32 = 1;

/// The image that the shell is.
pub const SHELL_IMAGE_ID: u32 = 1;

/// What the boot stage hands over.
#[derive(Clone, Copy, Debug, PartialEq, Eq, Structural)]
pub struct BootInfo {
    pub magic: u64,
    pub version: u32,
    /// The key of the memory map that the firmware was left with.
    pub map_key: u64,
    pub region_count: u64,
    pub conventional_pages: u64,
    /// The root of the boot stage's tables.
    pub dual_view_cr3: u64,
    /// The firmware's own root; shutting down needs it.
    pub fw_cr3: u64,
    /// The root of the kernel's view.
    pub kernel_cr3: u64,
    pub image_base: u64,
    pub image_size: u64,
    pub tsc_hz: u64,
    pub tick_hz: u32,
    pub stack_phys: u64,
    pub m1_passed: u32,
    pub m1_total: u32,
    /// The tests of the second suite that ran before the kernel was entered.
    pub pre_entry_passed: u32,
    pub pre_entry_total: u32,
    pub reconciled_leaks: u64,
    pub heap_chunks_released: u64,
}

impl BootInfo {
    /// The kernel takes the record.
    pub open spec fn valid(self) -> bool {
        &&& self.magic == BOOTINFO_MAGIC
        &&& self.version == BOOTINFO_VERSION
        &&& self.fw_cr3 != 0
    }

    /// Whether the kernel takes the record.
    pub fn accepted(&self) -> (r: bool)
        ensures
            r == self.valid(),
    {
        self.magic == BOOTINFO_MAGIC && self.version == BOOTINFO_VERSION && self.fw_cr3 != 0
    }

    /// The usable memory in MiB.
    pub fn conventional_mib(&self) -> (r: u64)
        requires
            self.conventional_pages * 4096 <= u64::MAX,
        ensures
            r == self.conventional_pages as int * 4096 / 0x10_0000,
    {
        self.conventional_pages * 4096 / (1024 * 1024)
    }
}

/// The kernel's copy of the record.
pub struct BootRecord {
    pub info: Option<BootInfo>,
}

/// Store the record.
pub fn prepare(b: &mut BootRecord, record: BootInfo)
    ensures
        final(b).info == Some(record),
{
    b.info = Some(record);
}

/// The timer's configuration with legacy replacement off, so that interrupt 0
/// is the interval timer's again.
pub fn hpet_without_legacy(conf: u32) -> (r: u32)
    ensures
        r == conf & !HPET_LEGACY_ENABLE,
        r & HPET_LEGACY_ENABLE == 0,
        forall|bit: u32| bit & HPET_LEGACY_ENABLE == 0 ==> #[trigger] (r & bit) == conf & bit,
{
    let r: u32 = conf & !HPET_LEGACY_ENABLE;
    proof {
        lemma_legacy_off(conf);
    }
    r
}

proof fn lemma_legacy_off(conf: u32)
    by (bit_vector)
    ensures
        (conf & !2u32) & 2u32 == 0,
        forall|bit: u32| bit & 2u32 == 0 ==> #[trigger] ((conf & !2u32) & bit) == conf & bit,
{
}

/// The capabilities that the shell starts with: it may shut the machine down,
/// spawn the test image, and be told when a child ends.
pub open spec fn shell_caps(nid: u32) -> Seq<Cap> {
    seq![
        Cap { obj: CapObj::Power, rights: RIGHTS_WRITE },
        Cap { obj: CapObj::Image { img_id: 0 }, rights: RIGHTS_READ },
        Cap { obj: CapObj::Notification { nid }, rights: RIGHTS_READ | RIGHTS_WRITE },
    ]
}

/// The capabilities that the shell starts with, in slot order.
pub fn shell_grants(nid: u32) -> (r: [Cap; 3])
    ensures
        r@ == shell_caps(nid),
{
    let r: [Cap; 3] = [
        Cap { obj: CapObj::Power, rights: RIGHTS_WRITE },
        Cap { obj: CapObj::Image { img_id: 0 }, rights: RIGHTS_READ },
        Cap { obj: CapObj::Notification { nid }, rights: RIGHTS_READ | RIGHTS_WRITE },
    ];
    assert(r@ =~= shell_caps(nid));
    r
}

/// Where the kernel is on its way up.
#[derive(Clone, Copy, Debug, PartialEq, Eq, Structural)]
pub enum Phase {
    /// The record has not been looked at.
    Record,
    /// Timer and interrupt routes are being taken back.
    Devices,
    /// The tests of the second suite that run in the kernel.
    EntryTests,
    Scheduler,
    Boundary,
    /// The suite on threads, processes and capabilities.
    ThirdSuite,
    /// The suite on user programs.
    FourthSuite,
    /// The shell's notification is being made.
    Notification,
    /// The shell is being spawned.
    Shell,
    /// The bootstrap thread idles.
    Idle,
    Halted,
}

/// What happened.
#[derive(Clone, Copy)]
pub enum Event {
    /// The kernel was entered; says whether the record is valid.
    Entered(bool),
    /// A step that cannot fail is done.
    Done,
    /// A suite ended; says whether it passed.
    SuiteEnded(bool),
    /// A part was initialised, or not.
    Initialised(bool),
    /// The notification was made, or not.
    NotificationMade(Option<u32>),
    /// The shell was spawned, or not.
    ShellSpawned(Result<u64, &'static str>),
}

/// What to do next.
#[derive(Clone, Copy)]
pub enum Action {
    ReclaimDevices,
    RunEntryTests,
    InitScheduler,
    InitBoundary,
    RunThirdSuite,
    RunFourthSuite,
    MakeNotification,
    /// Spawn the shell with the grants for this notification.
    SpawnShell(u32),
    /// Yield, then wait for an interrupt, for ever.
    Idle,
    Halt(&'static str),
    /// The event does not belong here.
    Ignore,
}

/// The order of the way up.
pub open spec fn kmain_next(p: Phase, e: Event) -> (Phase, Action) {
    match (p, e) {
        (Phase::Record, Event::Entered(true)) => (Phase::Devices, Action::ReclaimDevices),
        (Phase::Record, Event::Entered(false)) => (
            Phase::Halted,
            Action::Halt("boot-info record invalid"),
        ),
        (Phase::Devices, Event::Done) => (Phase::EntryTests, Action::RunEntryTests),
        (Phase::EntryTests, Event::SuiteEnded(true)) => (Phase::Scheduler, Action::InitScheduler),
        (Phase::EntryTests, Event::SuiteEnded(false)) => (
            Phase::Halted,
            Action::Halt("kernel-entry test suite failed"),
        ),
        (Phase::Scheduler, Event::Initialised(true)) => (Phase::Boundary, Action::InitBoundary),
        (Phase::Scheduler, Event::Initialised(false)) => (
            Phase::Halted,
            Action::Halt("scheduler init failed"),
        ),
        (Phase::Boundary, Event::Initialised(true)) => (Phase::ThirdSuite, Action::RunThirdSuite),
        (Phase::Boundary, Event::Initialised(false)) => (
            Phase::Halted,
            Action::Halt("syscall boundary init failed"),
        ),
        (Phase::ThirdSuite, Event::SuiteEnded(true)) => (
            Phase::FourthSuite,
            Action::RunFourthSuite,
        ),
        (Phase::ThirdSuite, Event::SuiteEnded(false)) => (
            Phase::Halted,
            Action::Halt("milestone 3 suite failed"),
        ),
        (Phase::FourthSuite, Event::SuiteEnded(true)) => (
            Phase::Notification,
            Action::MakeNotification,
        ),
        (Phase::FourthSuite, Event::SuiteEnded(false)) => (
            Phase::Halted,
            Action::Halt("milestone 4 suite failed"),
        ),
        (Phase::Notification, Event::NotificationMade(Some(nid))) => (
            Phase::Shell,
            Action::SpawnShell(nid),
        ),
        (Phase::Notification, Event::NotificationMade(None)) => (
            Phase::Halted,
            Action::Halt("shell: notification table full"),
        ),
        (Phase::Shell, Event::ShellSpawned(Ok(_))) => (Phase::Idle, Action::Idle),
        (Phase::Shell, Event::ShellSpawned(Err(why))) => (Phase::Halted, Action::Halt(why)),
        _ => (p, Action::Ignore),
    }
}

/// One step of the way up.
pub fn kmain(p: Phase, e: Event) -> (r: (Phase, Action))
    ensures
        r == kmain_next(p, e),
{
    match (p, e) {
        (Phase::Record, Event::Entered(ok)) => if ok {
            (Phase::Devices, Action::ReclaimDevices)
        } else {
            (Phase::Halted, Action::Halt("boot-info record invalid"))
        },
        (Phase::Devices, Event::Done) => (Phase::EntryTests, Action::RunEntryTests),
        (Phase::EntryTests, Event::SuiteEnded(ok)) => if ok {
            (Phase::Scheduler, Action::InitScheduler)
        } else {
            (Phase::Halted, Action::Halt("kernel-entry test suite failed"))
        },
        (Phase::Scheduler, Event::Initialised(ok)) => if ok {
            (Phase::Boundary, Action::InitBoundary)
        } else {
            (Phase::Halted, Action::Halt("scheduler init failed"))
        },
        (Phase::Boundary, Event::Initialised(ok)) => if ok {
            (Phase::ThirdSuite, Action::RunThirdSuite)
        } else {
            (Phase::Halted, Action::Halt("syscall boundary init failed"))
        },
        (Phase::ThirdSuite, Event::SuiteEnded(ok)) => if ok {
            (Phase::FourthSuite, Action::RunFourthSuite)
        } else {
            (Phase::Halted, Action::Halt("milestone 3 suite failed"))
        },
        (Phase::FourthSuite, Event::SuiteEnded(ok)) => if ok {
            (Phase::Notification, Action::MakeNotification)
        } else {
            (Phase::Halted, Action::Halt("milestone 4 suite failed"))
        },
        (Phase::Notification, Event::NotificationMade(made)) => match made {
            Some(nid) => (Phase::Shell, Action::SpawnShell(nid)),
            None => (Phase::Halted, Action::Halt("shell: notification table full")),
        },
        (Phase::Shell, Event::ShellSpawned(spawned)) => match spawned {
            Ok(_) => (Phase::Idle, Action::Idle),
            Err(why) => (Phase::Halted, Action::Halt(why)),
        },
        _ => (p, Action::Ignore),
    }
}

/// How far a phase is on the way up.
pub open spec fn rank(p: Phase) -> int {
    match p {
        Phase::Record => 0,
        Phase::Devices => 1,
        Phase::EntryTests => 2,
        Phase::Scheduler => 3,
        Phase::Boundary => 4,
        Phase::ThirdSuite => 5,
        Phase::FourthSuite => 6,
        Phase::Notification => 7,
        Phase::Shell => 8,
        Phase::Idle => 9,
        Phase::Halted => 10,
    }
}

/// The way up has no short cut and no way back: each event leads to the next
/// phase, to the halt, or nowhere.
pub proof fn law_one_step_up(p: Phase, e: Event)
    ensures
        ({
            let (q, a) = kmain_next(p, e);
            ||| q == p && a is Ignore
            ||| q is Halted && a is Halt
            ||| rank(q) == rank(p) + 1 && !(q is Halted) && !(a is Halt)
        }),
{
}

/// The kernel stays halted, and an idle kernel stays up.
pub proof fn law_ends_stay(e: Event)
    ensures
        kmain_next(Phase::Halted, e).0 is Halted,
        kmain_next(Phase::Idle, e).0 is Idle,
{
}

} // verus!

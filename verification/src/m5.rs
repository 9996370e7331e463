//! The checks of the fifth stage: devices on the bus, interrupts that are
//! passed on, and capabilities for memory and device registers.

use vstd::prelude::*;
use crate::cap;
use crate::cap::{Cap, CapObj};
use crate::frames::FrameAllocator;
use crate::intc::HPET_PHYS;
use crate::ipc;
use crate::ipc::Ipc;
use crate::pci;
use crate::pci::{PciFunction, PciTable, VirtioCapLoc, VirtioDevice};
use crate::proc::ProcTable;
use crate::relay;
use crate::relay::Relays;
use crate::status::Status;
use crate::suite;
use crate::suite::{Outcome, Report};
use crate::verdicts::RELAY_BADGE;

verus! {

/// The name of test `i`.
#[verifier::allow_in_spec]
pub fn test_name(i: u64) -> &'static str
    returns
        (match i {
            0 => "pci_scan",
            1 => "untyped_alloc",
            2 => "mmio_user",
            _ => "irq_relay",
        }),
{
    match i {
        0 => "pci_scan",
        1 => "untyped_alloc",
        2 => "mmio_user",
        _ => "irq_relay",
    }
}

/// The tests with what came of them.
pub open spec fn outcomes(results: Seq<Result<(), &'static str>>) -> Seq<Outcome> {
    Seq::new(
        results.len(),
        |i: int| Outcome { name: test_name(i as u64), result: results[i] },
    )
}

/// Report on the suite, whose tests ended with `results`.
pub fn run_suite(results: &[Result<(), &'static str>; 4]) -> (r: Report)
    ensures
        r.lines@.len() == 4 + 1,
        forall|i: int|
            0 <= i < 4 ==> (#[trigger] r.lines@[i])@ == suite::marker_of(
                "m5"@,
                outcomes(results@)[i],
            ),
        r.lines@[4]@ == suite::result_line(
            "m5"@,
            suite::passed_below(outcomes(results@), 4),
            4,
        ),
        r.passed == (suite::passed_below(outcomes(results@), 4) == 4),
{
    let all: [Outcome; 4] = [
        Outcome { name: test_name(0), result: results[0] },
        Outcome { name: test_name(1), result: results[1] },
        Outcome { name: test_name(2), result: results[2] },
        Outcome { name: test_name(3), result: results[3] },
    ];
    assert(all@ =~= outcomes(results@));
    suite::run_suite("m5", &all)
}

pub const VIRTIO_BLK_TRANSITIONAL: u16 = 0x1001;
pub const VIRTIO_BLK_MODERN: u16 = 0x1042;
/// The vector that is passed on in the test, and one that nobody is told
/// about.
pub const RELAY_VEC: u64 = 48;
pub const SPURIOUS_VEC: u64 = 49;

/// What is wrong with the place of a structure, before its function is looked
/// at.
pub open spec fn loc_fault(c: VirtioCapLoc) -> Option<&'static str> {
    if !c.present {
        Some("virtio capability walk found no common/notify/isr/device structure")
    } else if c.length == 0 {
        Some("a virtio structure has zero length")
    } else {
        None
    }
}

/// What is wrong with the place of a structure in its function.
pub open spec fn place_fault(f: PciFunction, c: VirtioCapLoc) -> Option<&'static str> {
    if c.bar > 5 || f.bar_is_io@[c.bar as int] || f.bar_base@[c.bar as int] == 0 {
        Some("a virtio structure points at an absent or IO BAR")
    } else if f.bar_size@[c.bar as int] < c.offset + c.length {
        Some("a virtio structure extends past its BAR")
    } else {
        None
    }
}

/// The first of four complaints.
pub open spec fn first_fault(
    a: Option<&'static str>,
    b: Option<&'static str>,
    c: Option<&'static str>,
    d: Option<&'static str>,
) -> Option<&'static str> {
    if a is Some {
        a
    } else if b is Some {
        b
    } else if c is Some {
        c
    } else {
        d
    }
}

/// What is wrong with a block device, before its function is looked at.
pub open spec fn device_fault(v: VirtioDevice) -> Option<&'static str> {
    if v.device_id != VIRTIO_BLK_TRANSITIONAL && v.device_id != VIRTIO_BLK_MODERN {
        Some("virtio-block device ID is neither transitional 0x1001 nor modern 0x1042")
    } else {
        match first_fault(
            loc_fault(v.common),
            loc_fault(v.notify),
            loc_fault(v.isr),
            loc_fault(v.device_cfg),
        ) {
            Some(e) => Some(e),
            None => if v.common.length < 56 {
                Some("common config shorter than the virtio 1.0 layout")
            } else if !v.msix.present || v.msix.table_size == 0 {
                Some("virtio-blk has no usable MSI-X capability \u{2014} the relay plan needs it")
            } else {
                None
            },
        }
    }
}

/// What is wrong with a block device in its function.
pub open spec fn function_fault(v: VirtioDevice, f: PciFunction) -> Option<&'static str> {
    match first_fault(
        place_fault(f, v.common),
        place_fault(f, v.notify),
        place_fault(f, v.isr),
        place_fault(f, v.device_cfg),
    ) {
        Some(e) => Some(e),
        None => if v.msix.table_bar > 5 || f.bar_is_io@[v.msix.table_bar as int]
            || f.bar_base@[v.msix.table_bar as int] == 0 {
            Some("MSI-X table points at an absent or IO BAR")
        } else {
            None
        },
    }
}

/// What the scan of the bus comes to. `cmd` is the command register of the
/// block device, if it can be read.
pub open spec fn scan_answer(t: &PciTable, cmd: Option<u16>) -> Result<(), &'static str> {
    if t.funcs@.len() == 0 {
        Err("nothing recorded on bus 0 \u{2014} did the boot scan run at all?")
    } else {
        match pci::first_of(t.devs@, pci::VIRTIO_TYPE_BLOCK, 0) {
            None => Err(
                "no virtio-block function on bus 0 \u{2014} is the scratch disk attached?",
            ),
            Some(v) => match device_fault(v) {
                Some(e) => Err(e),
                None => if v.pci_index >= t.funcs@.len() {
                    Err("recorded function vanished from the table")
                } else {
                    match function_fault(v, t.funcs@[v.pci_index as int]) {
                        Some(e) => Err(e),
                        None => match cmd {
                            None => Err("recorded function's config space unreadable"),
                            Some(c) => if c & 6 != 6 {
                                Err("MEM|BUS MASTER did not stick in the command register")
                            } else {
                                Ok(())
                            },
                        },
                    }
                },
            },
        }
    }
}

fn check_loc(c: VirtioCapLoc) -> (r: Option<&'static str>)
    ensures
        r == loc_fault(c),
{
    if !c.present {
        Some("virtio capability walk found no common/notify/isr/device structure")
    } else if c.length == 0 {
        Some("a virtio structure has zero length")
    } else {
        None
    }
}

fn check_place(f: &PciFunction, c: VirtioCapLoc) -> (r: Option<&'static str>)
    ensures
        r == place_fault(*f, c),
{
    let bi: usize = c.bar as usize;
    if bi > 5 || f.bar_is_io[bi] || f.bar_base[bi] == 0 {
        return Some("a virtio structure points at an absent or IO BAR");
    }
    if f.bar_size[bi] < c.offset as u64 + c.length as u64 {
        return Some("a virtio structure extends past its BAR");
    }
    None
}

fn check_device(v: &VirtioDevice) -> (r: Option<&'static str>)
    ensures
        r == device_fault(*v),
{
    if v.device_id != VIRTIO_BLK_TRANSITIONAL && v.device_id != VIRTIO_BLK_MODERN {
        return Some("virtio-block device ID is neither transitional 0x1001 nor modern 0x1042");
    }
    if let Some(e) = check_loc(v.common) {
        return Some(e);
    }
    if let Some(e) = check_loc(v.notify) {
        return Some(e);
    }
    if let Some(e) = check_loc(v.isr) {
        return Some(e);
    }
    if let Some(e) = check_loc(v.device_cfg) {
        return Some(e);
    }
    if v.common.length < 56 {
        return Some("common config shorter than the virtio 1.0 layout");
    }
    if !v.msix.present || v.msix.table_size == 0 {
        return Some("virtio-blk has no usable MSI-X capability \u{2014} the relay plan needs it");
    }
    None
}

fn check_function(v: &VirtioDevice, f: &PciFunction) -> (r: Option<&'static str>)
    ensures
        r == function_fault(*v, *f),
{
    if let Some(e) = check_place(f, v.common) {
        return Some(e);
    }
    if let Some(e) = check_place(f, v.notify) {
        return Some(e);
    }
    if let Some(e) = check_place(f, v.isr) {
        return Some(e);
    }
    if let Some(e) = check_place(f, v.device_cfg) {
        return Some(e);
    }
    let bi: usize = v.msix.table_bar as usize;
    if bi > 5 || f.bar_is_io[bi] || f.bar_base[bi] == 0 {
        return Some("MSI-X table points at an absent or IO BAR");
    }
    None
}

/// The scan found a block device that can be driven.
pub fn test_pci_scan(t: &PciTable, cmd: Option<u16>) -> (r: Result<(), &'static str>)
    ensures
        r == scan_answer(t, cmd),
{
    if pci::pci_count(t) == 0 {
        return Err("nothing recorded on bus 0 \u{2014} did the boot scan run at all?");
    }
    let v: VirtioDevice = match pci::find_virtio(t, pci::VIRTIO_TYPE_BLOCK) {
        None => {
            return Err("no virtio-block function on bus 0 \u{2014} is the scratch disk attached?");
        },
        Some(v) => v,
    };
    if let Some(e) = check_device(&v) {
        return Err(e);
    }
    let f: PciFunction = match pci::pci_function(t, v.pci_index) {
        None => {
            return Err("recorded function vanished from the table");
        },
        Some(f) => f,
    };
    if let Some(e) = check_function(&v, &f) {
        return Err(e);
    }
    match cmd {
        None => Err("recorded function's config space unreadable"),
        Some(c) => if c & 6 != 6 {
            Err("MEM|BUS MASTER did not stick in the command register")
        } else {
            Ok(())
        },
    }
}

/// A notification was made at the first free place `n`.
pub open spec fn notif_made(pre: &Ipc, post: &Ipc, n: int) -> bool {
    &&& ipc::first_free_notif(pre.notifs@, n)
    &&& post.notifs@ == pre.notifs@.update(
        n,
        ipc::Notif { live: true, pending: 0, waiter: ipc::NO_TID },
    )
    &&& post.eps == pre.eps
    &&& post.stats == pre.stats
}

/// Register the vector, after trying what must be refused: vectors outside
/// the range, and an empty badge. Returns the notification.
pub fn test_relay_open(r: &mut Relays, ipc: &mut Ipc) -> (o: Result<u32, &'static str>)
    requires
        old(r).wf(),
        old(ipc).wf(),
    ensures
        final(r).wf(),
        final(ipc).wf(),
        match o {
            Err(e) => {
                &&& *final(r) == *old(r)
                &&& if forall|j: int|
                    0 <= j < ipc::MAX_NOTIFS ==> (#[trigger] old(ipc).notifs@[j]).live {
                    e == "notification table full" && *final(ipc) == *old(ipc)
                } else {
                    &&& e == "first registration refused"
                    &&& old(r).at(RELAY_VEC).live
                    &&& exists|n: int| #[trigger] notif_made(old(ipc), final(ipc), n)
                }
            },
            Ok(nid) => {
                &&& !old(r).at(RELAY_VEC).live
                &&& notif_made(old(ipc), final(ipc), nid as int)
                &&& relay::slot_set(
                    old(r),
                    final(r),
                    RELAY_VEC,
                    relay::RelaySlot { live: true, nid, badge: RELAY_BADGE, deliveries: 0 },
                )
            },
        },
{
    if relay::register(r, 47, 0, RELAY_BADGE).is_ok() {
        return Err("register accepted a vector outside the relay range");
    }
    if relay::register(r, 64, 0, RELAY_BADGE).is_ok() {
        return Err("register accepted a vector outside the relay range");
    }
    let nid: u32 = match ipc::create_notification(ipc) {
        Err(_) => {
            return Err("notification table full");
        },
        Ok(n) => n,
    };
    assert(notif_made(old(ipc), ipc, nid as int));
    if relay::register(r, RELAY_VEC, nid, 0).is_ok() {
        return Err("register accepted the empty badge");
    }
    if relay::register(r, RELAY_VEC, nid, RELAY_BADGE).is_err() {
        return Err("first registration refused");
    }
    if !relay::registered(r, RELAY_VEC) {
        return Err("registered() disagrees with a successful register");
    }
    if relay::register(r, RELAY_VEC, nid, RELAY_BADGE).is_ok() {
        return Err("double registration accepted (would strand the old waiter)");
    }
    Ok(nid)
}

/// The delivery of [`SPURIOUS_VEC`] was passed on, if somebody is told about it;
/// `w` is what telling it answered.
pub open spec fn spurious_told(
    r: &Relays,
    i0: &Ipc,
    i1: &Ipc,
    w: Result<Option<u64>, Status>,
) -> bool {
    let s = r.at(SPURIOUS_VEC);
    if s.live {
        ipc::notified(i0, i1, s.nid, s.badge, w)
    } else {
        *i1 == *i0 && w == Ok::<Option<u64>, Status>(None)
    }
}

/// What taking the relay of [`RELAY_VEC`] away comes to, once the other
/// delivery was passed on.
pub open spec fn relay_close_answer(r: &Relays, i: &Ipc, nid: u32) -> Result<(), &'static str> {
    if r.at(SPURIOUS_VEC).deliveries != 0 {
        Err("spurious delivery not counted")
    } else if !r.at(RELAY_VEC).live {
        Err("release of a live relay refused")
    } else if !ipc::notif_live(i, nid) || i.notifs@[nid as int].waiter != ipc::NO_TID {
        Err("notification teardown refused")
    } else {
        Ok(())
    }
}

/// The notification `nid` went, if all was well.
pub open spec fn relay_closed(
    i0: &Ipc,
    i1: &Ipc,
    nid: u32,
    o: Result<(), &'static str>,
) -> bool {
    &&& i1.eps == i0.eps
    &&& i1.stats == i0.stats
    &&& match o {
        Err(_) => i1.notifs == i0.notifs,
        Ok(_) => i1.notifs@ == i0.notifs@.update(
            nid as int,
            ipc::Notif { live: false, pending: 0, waiter: ipc::NO_TID },
        ),
    }
}

/// A delivery of another vector is counted, and passed on if somebody is told
/// about it; the registered vector is released once and not twice; its
/// notification goes. Also gives the thread that the delivery wakes.
pub fn test_relay_close(r: &mut Relays, ipc: &mut Ipc, nid: u32) -> (o: (
    Option<u64>,
    Result<(), &'static str>,
))
    requires
        old(r).wf(),
        old(ipc).wf(),
        old(ipc).stats.room(),
        old(r).at(SPURIOUS_VEC).deliveries < u64::MAX,
    ensures
        final(r).wf(),
        final(ipc).wf(),
        exists|mid: Ipc, w: Result<Option<u64>, Status>|
            {
                &&& #[trigger] spurious_told(old(r), old(ipc), &mid, w)
                &&& o.0 == (match w {
                    Ok(t) => t,
                    Err(_) => None,
                })
                &&& o.1 == relay_close_answer(old(r), &mid, nid)
                &&& relay_closed(&mid, final(ipc), nid, o.1)
            },
        forall|v: u64| #[trigger]
            relay::relayed(v) ==> final(r).at(v) == (if v == SPURIOUS_VEC {
                relay::RelaySlot {
                    deliveries: (old(r).at(v).deliveries + 1) as u64,
                    ..old(r).at(v)
                }
            } else if v == RELAY_VEC && old(r).at(SPURIOUS_VEC).deliveries == 0 && old(r).at(v).live {
                relay::RelaySlot {
                    live: false,
                    nid: 0,
                    badge: 0,
                    deliveries: old(r).at(v).deliveries,
                }
            } else {
                old(r).at(v)
            }),
{
    let w: Result<Option<u64>, Status> = relay::handle(r, ipc, SPURIOUS_VEC);
    assert(spurious_told(old(r), old(ipc), ipc, w));
    let woken: Option<u64> = match w {
        Ok(t) => t,
        Err(_) => None,
    };
    if relay::delivery_count(r, SPURIOUS_VEC) != 1 {
        return (woken, Err("spurious delivery not counted"));
    }
    if relay::release(r, RELAY_VEC).is_err() {
        return (woken, Err("release of a live relay refused"));
    }
    if relay::registered(r, RELAY_VEC) {
        return (woken, Err("registered() disagrees with a successful release"));
    }
    if relay::release(r, RELAY_VEC).is_ok() {
        return (woken, Err("second release accepted"));
    }
    if ipc::destroy_notification(ipc, nid).is_err() {
        return (woken, Err("notification teardown refused"));
    }
    (woken, Ok(()))
}

/// What the capabilities of the untyped program come to: the one that was
/// mapped is gone, the other one names the second frame and gives it back.
pub open spec fn untyped_answer(t: &ProcTable, fa: &FrameAllocator, pid: u64, phys2: u64) -> Result<
    (),
    &'static str,
> {
    if cap::read_answer(t, pid, 0) is Ok {
        Err("the consumed untyped cap survived its map")
    } else {
        match cap::read_answer(t, pid, 1) {
            Err(_) => Err("slot 1's untyped cap vanished"),
            Ok(c) => if c.obj != (CapObj::Untyped { phys: phys2 }) {
                Err("slot 1 does not hold the second frame")
            } else if c.rights & cap::RIGHTS_DESTROY == 0 || crate::frames::free_answer(
                fa,
                phys2 as int,
            ) is Err {
                Err("owned-frame destroy refused")
            } else {
                Ok(())
            },
        }
    }
}

/// Check and destroy the capabilities that the untyped program left.
pub fn test_untyped_caps(t: &mut ProcTable, fa: &mut FrameAllocator, pid: u64, phys2: u64) -> (r:
    Result<(), &'static str>)
    requires
        old(t).wf(),
        old(fa).wf(),
    ensures
        final(t).wf(),
        final(fa).wf(),
        r == untyped_answer(old(t), old(fa), pid, phys2),
        r is Err ==> *final(t) == *old(t) && *final(fa) == *old(fa),
        r is Ok ==> {
            &&& cap::slot_set(old(t), final(t), pid, 1, Cap::empty())
            &&& crate::frames::gave_back(old(fa), final(fa), phys2 as int)
        },
{
    if cap::read(t, pid, 0).is_ok() {
        return Err("the consumed untyped cap survived its map");
    }
    let c1: Cap = match cap::read(t, pid, 1) {
        Err(_) => {
            return Err("slot 1's untyped cap vanished");
        },
        Ok(c) => c,
    };
    match c1.obj {
        CapObj::Untyped { phys } => {
            if phys != phys2 {
                return Err("slot 1 does not hold the second frame");
            }
        },
        _ => {
            return Err("slot 1 does not hold the second frame");
        },
    }
    let before: u64 = crate::frames::free_frames(fa);
    if cap::destroy(t, fa, pid, 1).is_err() {
        return Err("owned-frame destroy refused");
    }
    if crate::frames::free_frames(fa) - before != 1 {
        return Err("destroying the untyped cap did not return exactly one frame");
    }
    Ok(())
}

/// The capability for the timer's registers, to read.
#[verifier::allow_in_spec]
pub fn hpet_cap() -> Cap
    returns
        (Cap { obj: CapObj::Mmio { phys: HPET_PHYS, pages: 1 }, rights: cap::RIGHTS_READ }),
{
    Cap { obj: CapObj::Mmio { phys: HPET_PHYS, pages: 1 }, rights: cap::RIGHTS_READ }
}

/// Give the program the capability for the timer's registers, in its first
/// slot.
pub fn test_mmio_grant(t: &mut ProcTable, pid: u64) -> (r: Result<(), &'static str>)
    requires
        old(t).wf(),
    ensures
        final(t).wf(),
        match cap::slots_of(old(t), pid) {
            None => r == Err::<(), &'static str>("mmio cap grant failed") && *final(t) == *old(t),
            Some(s) => if s[0].obj is Empty {
                r == Ok::<(), &'static str>(()) && cap::slot_set(
                    old(t),
                    final(t),
                    pid,
                    0,
                    hpet_cap(),
                )
            } else if forall|j: int|
                0 <= j < cap::CAP_SLOTS ==> !((#[trigger] s[j]).obj is Empty) {
                r == Err::<(), &'static str>("mmio cap grant failed") && *final(t) == *old(t)
            } else {
                &&& r == Err::<(), &'static str>(
                    "the mmio cap did not land in slot 0 (payload contract)",
                )
                &&& exists|k: int| #[trigger]
                    cap::first_empty(s, k) && cap::slot_set(old(t), final(t), pid, k, hpet_cap())
            },
        },
{
    match cap::grant(t, pid, hpet_cap()) {
        Err(_) => Err("mmio cap grant failed"),
        Ok(slot) => if slot != 0 {
            Err("the mmio cap did not land in slot 0 (payload contract)")
        } else {
            Ok(())
        },
    }
}

/// The program still has the capability after mapping it.
pub fn test_mmio_kept(t: &ProcTable, pid: u64) -> (r: Result<(), &'static str>)
    requires
        t.wf(),
    ensures
        r == (match cap::read_answer(t, pid, 0) {
            Err(_) => Err::<(), &'static str>("the mmio cap vanished on mapping"),
            Ok(c) => if c.obj == (CapObj::Mmio { phys: HPET_PHYS, pages: 1 }) {
                Ok(())
            } else {
                Err("slot 0 no longer holds the HPET Mmio cap")
            },
        }),
{
    match cap::read(t, pid, 0) {
        Err(_) => Err("the mmio cap vanished on mapping"),
        Ok(c) => match c.obj {
            CapObj::Mmio { phys, pages } => if phys == HPET_PHYS && pages == 1 {
                Ok(())
            } else {
                Err("slot 0 no longer holds the HPET Mmio cap")
            },
            _ => Err("slot 0 no longer holds the HPET Mmio cap"),
        },
    }
}

} // verus!

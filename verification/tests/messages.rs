//! Endpoints, notifications, relays, the console and the system calls.

use arenaos::cap;
use arenaos::cap::{Cap, CapObj, CapSpace};
use arenaos::console;
use arenaos::console::Console;
use arenaos::faults;
use arenaos::faults::Faults;
use arenaos::ipc;
use arenaos::ipc::Ipc;
use arenaos::m4;
use arenaos::m5;
use arenaos::proc::{ProcTable, Process};
use arenaos::relay;
use arenaos::relay::Relays;
use arenaos::status::{STATUS_BAD_ADDRESS, STATUS_BAD_ARG, STATUS_BAD_CALL, STATUS_BUSY};
use arenaos::syscall;
use arenaos::syscall::{Caller, Outcome, SyscallFrame, Syscalls};

/// A table with the processes 1 and 2, each with an empty capability space.
fn two() -> ProcTable {
    let mut t = ProcTable::new();
    for i in 0..2usize {
        t.slots[i] = Some(Process {
            id: i as u64 + 1,
            name: "p",
            pml4_phys: 0x1000 * (i as u64 + 1),
            caps: CapSpace::new(),
            exit_notif: (0, 0),
        });
    }
    t.next_pid = 3;
    t.created = 2;
    t
}

fn mem_cap() -> Cap {
    Cap { obj: CapObj::Memory { phys: 0x5000, pages: 1 }, rights: cap::RIGHTS_READ }
}

#[test]
fn a_call_waits_for_the_server_and_comes_back_with_its_reply() {
    let mut i = Ipc::new();
    let mut t = two();
    let e = ipc::create_endpoint(&mut i).unwrap();
    assert_eq!(e, 0);
    let p = ipc::call(&mut i, 11, e, [1, 2], Some(mem_cap())).unwrap();
    assert_eq!((p.slot, p.parked), (0, None));
    assert_eq!(
        ipc::destroy_endpoint(&mut i, e),
        Err("destroy_endpoint: busy (server parked or requests outstanding)")
    );
    // The server of process 2 takes it: the words, and the capability in slot 0.
    assert_eq!(ipc::recv(&mut i, &mut t, 2, 22, e), Ok(Some(([1, 2], 0))));
    assert_eq!(cap::read(&t, 2, 0), Ok(mem_cap()));
    assert_eq!(ipc::reply(&mut i, 22, e, [3, 4], None), Ok(11));
    assert_eq!(ipc::reply(&mut i, 22, e, [3, 4], None), Err(STATUS_BAD_ARG));
    assert_eq!(ipc::call_finish(&mut i, &mut t, 1, e, 0), Ok(([3, 4], ipc::CAP_NONE)));
    assert_eq!(ipc::destroy_endpoint(&mut i, e), Ok(()));
    assert_eq!(
        ipc::destroy_endpoint(&mut i, e),
        Err("destroy_endpoint: no such live endpoint")
    );
    let s = ipc::stats(&i);
    assert_eq!((s.calls, s.recvs, s.replies, s.cap_transfers, s.cap_drops), (1, 1, 2, 1, 0));
}

#[test]
fn a_parked_server_gets_the_next_call() {
    let mut i = Ipc::new();
    let mut t = two();
    let e = ipc::create_endpoint(&mut i).unwrap();
    assert_eq!(ipc::recv(&mut i, &mut t, 2, 22, e), Ok(None));
    assert_eq!(ipc::recv(&mut i, &mut t, 2, 23, e), Err(STATUS_BUSY));
    let p = ipc::call(&mut i, 11, e, [5, 6], None).unwrap();
    assert_eq!(p.parked, Some(22));
    assert_eq!(ipc::call_deliver(&mut i, &mut t, e, p, Some(2)), Ok(()));
    assert_eq!(ipc::recv_finish(&i, 22, e), Ok(([5, 6], ipc::CAP_NONE)));
    assert_eq!(ipc::recv_finish(&i, 23, e), Err("ipc: recv woken without a delivery"));
    assert_eq!(ipc::call_finish(&mut i, &mut t, 1, e, 0), Err("ipc: caller woken without a reply"));
}

#[test]
fn requests_are_taken_in_the_order_they_came() {
    let mut i = Ipc::new();
    let mut t = two();
    let e = ipc::create_endpoint(&mut i).unwrap();
    for n in 0..4u64 {
        assert_eq!(ipc::call(&mut i, 10 + n, e, [n, 0], None).unwrap().slot, n as usize);
    }
    assert!(matches!(ipc::call(&mut i, 99, e, [0, 0], None), Err(STATUS_BUSY)));
    assert_eq!(ipc::recv(&mut i, &mut t, 2, 22, e), Ok(Some(([0, 0], ipc::CAP_NONE))));
    assert_eq!(ipc::reply(&mut i, 22, e, [0, 0], None), Ok(10));
    assert!(ipc::call_finish(&mut i, &mut t, 1, e, 0).is_ok());
    // Slot 0 is free again; its next request is nevertheless the youngest.
    assert_eq!(ipc::call(&mut i, 50, e, [50, 0], None).unwrap().slot, 0);
    for n in [1u64, 2, 3, 50] {
        assert_eq!(ipc::recv(&mut i, &mut t, 2, 22, e), Ok(Some(([n, 0], ipc::CAP_NONE))));
        assert!(ipc::reply(&mut i, 22, e, [0, 0], None).is_ok());
    }
}

#[test]
fn dead_endpoints_refuse() {
    let mut i = Ipc::new();
    let mut t = two();
    assert!(matches!(ipc::call(&mut i, 1, 0, [0, 0], None), Err(STATUS_BAD_ARG)));
    assert_eq!(ipc::recv(&mut i, &mut t, 1, 1, 99), Err(STATUS_BAD_ARG));
    for n in 0..ipc::MAX_ENDPOINTS as u32 {
        assert_eq!(ipc::create_endpoint(&mut i), Ok(n));
    }
    assert_eq!(ipc::create_endpoint(&mut i), Err("endpoint table full (MAX_ENDPOINTS)"));
}

#[test]
fn badges_gather_until_they_are_read() {
    let mut i = Ipc::new();
    let n = ipc::create_notification(&mut i).unwrap();
    assert_eq!(ipc::notify(&mut i, n, 0x10), Ok(None));
    assert_eq!(ipc::notify(&mut i, n, 0x01), Ok(None));
    assert_eq!(ipc::wait(&mut i, 7, n), Ok(Some(0x11)));
    assert_eq!(ipc::wait(&mut i, 7, n), Ok(None));
    assert_eq!(ipc::wait(&mut i, 8, n), Err(STATUS_BUSY));
    assert_eq!(
        ipc::destroy_notification(&mut i, n),
        Err("destroy_notification: busy (waiter parked)")
    );
    assert_eq!(ipc::wait_finish(&mut i, n), Err("ipc: wait woken without a badge"));
    assert_eq!(ipc::notify(&mut i, n, 0x80), Ok(Some(7)));
    assert_eq!(ipc::wait_finish(&mut i, n), Ok(0x80));
    assert_eq!(ipc::destroy_notification(&mut i, n), Ok(()));
    assert_eq!(ipc::notify(&mut i, n, 1), Err(STATUS_BAD_ARG));
}

#[test]
fn a_relayed_interrupt_becomes_a_badge() {
    let mut r = Relays::new();
    let mut i = Ipc::new();
    let n = ipc::create_notification(&mut i).unwrap();
    assert_eq!(relay::register(&mut r, 47, n, 1), Err("relay: vector outside the relay range 48..63"));
    assert_eq!(relay::register(&mut r, 48, n, 0), Err("relay: badge must be nonzero"));
    assert_eq!(relay::register(&mut r, 48, n, 0x51), Ok(()));
    assert_eq!(relay::register(&mut r, 48, n, 0x51), Err("relay: vector already registered"));
    assert!(relay::registered(&r, 48));
    assert_eq!(relay::handle(&mut r, &mut i, 48), Ok(None));
    assert_eq!(relay::handle(&mut r, &mut i, 49), Ok(None));
    assert_eq!(relay::delivery_count(&r, 48), 1);
    assert_eq!(relay::delivery_count(&r, 49), 1);
    assert_eq!(ipc::wait(&mut i, 7, n), Ok(Some(0x51)));
    assert_eq!(relay::release(&mut r, 48), Ok(()));
    assert_eq!(relay::release(&mut r, 48), Err("relay: vector not registered"));
    assert!(relay::is_relay_vector(63) && !relay::is_relay_vector(64));
}

#[test]
fn the_relay_trial_opens_and_closes() {
    let mut r = Relays::new();
    let mut i = Ipc::new();
    let n = m5::test_relay_open(&mut r, &mut i).unwrap();
    assert!(relay::registered(&r, m5::RELAY_VEC));
    assert_eq!(m5::test_relay_close(&mut r, &mut i, n), (None, Ok(())));
    assert!(!relay::registered(&r, m5::RELAY_VEC));
    assert_eq!(
        ipc::destroy_notification(&mut i, n),
        Err("destroy_notification: no such live notification")
    );
}

fn typed(c: &mut Console, s: &[u8]) -> Vec<u8> {
    let mut echo: Vec<u8> = Vec::new();
    for b in s {
        echo.extend(console::feed(c, *b).echo);
    }
    echo
}

#[test]
fn what_is_typed_is_what_is_read() {
    let mut c = Console::new();
    assert_eq!(typed(&mut c, b"hi\r"), b"hi\r\n".to_vec());
    assert_eq!(console::pending_lines(&c), 1);
    assert_eq!(console::read_line(&mut c, 5, 80), Ok(Some(b"hi".to_vec())));
    assert_eq!(console::read_line(&mut c, 5, 80), Ok(None));
    assert_eq!(console::read_line(&mut c, 6, 80), Err(STATUS_BUSY));
    for b in b"x" {
        assert_eq!(console::feed(&mut c, *b).wake, None);
    }
    assert_eq!(console::feed(&mut c, b'\n').wake, Some(5));
    assert_eq!(console::read_finish(&mut c, 80), Ok(b"x".to_vec()));
    assert_eq!(console::read_finish(&mut c, 80), Err("console: read woken without a line"));
}

#[test]
fn erasing_and_overflowing_the_edit_line() {
    let mut c = Console::new();
    typed(&mut c, b"ab\x7fc\r");
    assert_eq!(console::read_line(&mut c, 5, 80), Ok(Some(b"ac".to_vec())));
    typed(&mut c, &vec![b'q'; 130]);
    typed(&mut c, b"\r");
    assert_eq!(console::stats(&c).dropped_bytes, 10);
    assert_eq!(console::read_line(&mut c, 5, 200), Ok(Some(vec![b'q'; 120])));
    typed(&mut c, b"abcdef\r");
    assert_eq!(console::read_line(&mut c, 5, 3), Ok(Some(b"abc".to_vec())));
    assert_eq!(console::stats(&c).truncations, 1);
}

#[test]
fn the_console_trial_passes_on_a_fresh_console() {
    let mut c = Console::new();
    assert_eq!(m4::test_console_edits(&mut c), Ok(()));
}

fn caller(pid: u64) -> Caller {
    Caller { pid: Some(pid), tid: 40, regions: [(0x1000, 0x2000), (0, 0), (0, 0), (0, 0)] }
}

fn dispatch(s: &mut Syscalls, i: &mut Ipc, t: &mut ProcTable, nr: u64, a: [u64; 6]) -> Outcome {
    let mut con = Console::new();
    let mut f = Faults::new();
    let frame = SyscallFrame { usr_rsp: 0, usr_rip: 0x40_0000, usr_rflags: 0x202 };
    let owners = [2u64, 1, 2];
    syscall::syscall_dispatch(s, i, t, &mut con, &mut f, &caller(1), &owners, 8, &frame, nr, a)
}

fn answer(o: Outcome) -> i64 {
    match o {
        Outcome::Return { rax } => rax as i64,
        _ => panic!("no answer"),
    }
}

#[test]
fn unknown_calls_are_refused_and_counted() {
    let mut s = Syscalls::new();
    let mut i = Ipc::new();
    let mut t = two();
    assert_eq!(answer(dispatch(&mut s, &mut i, &mut t, 999, [0; 6])), STATUS_BAD_CALL);
    let st = syscall::stats(&s);
    assert_eq!((st.calls, st.invalid_nr), (1, 1));
}

#[test]
fn a_write_is_checked_against_the_callers_regions() {
    let mut s = Syscalls::new();
    let mut i = Ipc::new();
    let mut t = two();
    let nr = syscall::SYS_DEBUG_WRITE;
    assert!(matches!(
        dispatch(&mut s, &mut i, &mut t, nr, [0x1FF0, 16, 0, 0, 0, 0]),
        Outcome::Write { buf: 0x1FF0, len: 16 }
    ));
    assert_eq!(
        answer(dispatch(&mut s, &mut i, &mut t, nr, [0x1FF0, 17, 0, 0, 0, 0])),
        STATUS_BAD_ADDRESS
    );
    assert_eq!(
        answer(dispatch(&mut s, &mut i, &mut t, nr, [0x1000, 257, 0, 0, 0, 0])),
        STATUS_BAD_ARG
    );
    assert_eq!(syscall::debug_written(&mut s, b"ok".to_vec()), 2);
    assert_eq!(syscall::last_write(&s), &b"ok".to_vec());
}

#[test]
fn every_page_of_a_range_must_lie_in_a_region() {
    let r: [(u64, u64); 4] = [(0x1000, 0x2000), (0x2000, 0x3000), (0, 0), (0, 0)];
    assert!(syscall::user_range_ok(&r, 0x1000, 0x1000));
    assert!(syscall::user_range_ok(&r, 0x1800, 0x1000));
    assert!(syscall::user_range_ok(&r, 0x9000, 0));
    assert!(!syscall::user_range_ok(&r, 0x2800, 0x1000));
    assert!(!syscall::user_range_ok(&r, 0x0FFF, 2));
    assert!(!syscall::user_range_ok(&r, 0xFFFF_FFFF_FFFF_FFF0, 0x20));
}

#[test]
fn the_fingerprint_mixes_all_six_words() {
    assert_eq!(syscall::echo6_fingerprint([1, 0, 0, 0, 0, 0]), 1);
    assert_eq!(syscall::echo6_fingerprint([0, 1, 0, 0, 0, 0]), 1 << 11);
    assert_eq!(syscall::echo6_fingerprint([0, 0, 0, 0, 0, 1]), 1 << 55);
    assert_eq!(syscall::echo6_fingerprint([1 << 63, 0, 0, 0, 0, 0]), 0);
    let mut s = Syscalls::new();
    let mut i = Ipc::new();
    let mut t = two();
    let a: [u64; 6] = [1, 2, 3, 4, 5, 6];
    let want = syscall::echo6_fingerprint(a) as i64;
    assert_eq!(answer(dispatch(&mut s, &mut i, &mut t, syscall::SYS_ABI_ECHO6, a)), want);
}

#[test]
fn exits_are_logged_and_wake_the_parent() {
    let mut s = Syscalls::new();
    let mut i = Ipc::new();
    let mut t = two();
    let n = ipc::create_notification(&mut i).unwrap();
    if let Some(p) = t.slots[0].as_mut() {
        p.exit_notif = (n, 0xE7);
    }
    assert_eq!(ipc::wait(&mut i, 90, n), Ok(None));
    assert_eq!(syscall::sys_thread_exit(&mut s, &mut i, &t, &caller(1), 1, 42), Some(90));
    assert_eq!(syscall::exit_status_of(&s, 40), Some(42));
    assert_eq!(syscall::exit_status_of(&s, 41), None);
    assert_eq!(ipc::wait_finish(&mut i, n), Ok(0xE7));
}

#[test]
fn slots_must_hold_the_right_capability() {
    let mut t = two();
    let ep = Cap { obj: CapObj::Endpoint { eid: 3 }, rights: cap::RIGHTS_READ };
    assert_eq!(cap::grant(&mut t, 1, ep), Ok(0));
    assert_eq!(syscall::endpoint_of(&t, 1, 0, cap::RIGHTS_READ), Ok(3));
    assert_eq!(syscall::endpoint_of(&t, 1, 0, cap::RIGHTS_WRITE), Err(STATUS_BAD_ARG));
    assert_eq!(syscall::notification_of(&t, 1, 0, cap::RIGHTS_READ), Err(STATUS_BAD_ARG));
    assert_eq!(syscall::endpoint_of(&t, 1, 7, cap::RIGHTS_READ), Err(STATUS_BAD_ARG));
    assert_eq!(syscall::send_cap_of(&t, 1, ipc::CAP_NONE), Ok(None));
}

#[test]
fn ring_three_is_proved_by_a_protection_fault() {
    let mut s = Syscalls::new();
    let mut f = Faults::new();
    let frame = SyscallFrame { usr_rsp: 0, usr_rip: 0x40_0000, usr_rflags: 0x202 };
    assert_eq!(syscall::sys_prove_ring3(&mut s, &mut f, &frame), 0);
    assert_eq!(syscall::sys_prove_done(&mut s, &f), 0);
    assert_eq!(faults::take_expected(&mut f, 13), Some(0x40_0001));
    faults::record(&mut f, 13, 0, 0);
    assert_eq!(syscall::sys_prove_done(&mut s, &f), 1);
    assert!(syscall::stats(&s).ring3_proved);
}

#[test]
fn an_armed_fault_is_taken_once() {
    let mut f = Faults::new();
    assert_eq!(faults::take_expected(&mut f, 14), None);
    faults::arm(&mut f, 14);
    assert_eq!(faults::take_expected(&mut f, 14), None);
    faults::arm_with_resume(&mut f, 14, 0x55);
    assert_eq!(faults::take_expected(&mut f, 13), None);
    assert_eq!(faults::take_expected(&mut f, 14), Some(0x55));
    assert_eq!(faults::take_expected(&mut f, 14), None);
    faults::arm_with_resume(&mut f, 0, 0x77);
    faults::disarm(&mut f);
    assert_eq!(faults::take_expected(&mut f, 0), None);
    faults::record(&mut f, 14, 2, 0xABC);
    let o = faults::observed(&f);
    assert!(o.valid);
    assert_eq!((o.vector, o.error_code, o.cr2), (14, 2, 0xABC));
}

#[test]
fn the_boundary_registers_are_checked() {
    let w = syscall::wanted_msrs(0x500, 0xFFFF_0000, 0x1234);
    assert_eq!(w.efer, 0x501);
    assert_eq!(w.star, 0x0020_0008_0000_0000);
    assert_eq!(w.sfmask, 0x4_4700);
    assert_eq!(syscall::check_msrs(&w, &w), Ok(()));
    let mut off = w;
    off.lstar = 0;
    assert_eq!(syscall::check_msrs(&off, &w), Err("LSTAR read-back mismatch"));
    assert_eq!(syscall::wanted_cr4(0x20, true, true), 0x30_0020);
    assert_eq!(syscall::check_cr4(0x20, true, false), Err("CR4.SMEP did not stick"));
    assert_eq!(syscall::check_cr4(0x10_0000, true, true), Err("CR4.SMAP did not stick"));
    assert_eq!(syscall::check_cr4(0x30_0000, true, true), Ok(true));
    assert!(syscall::enter_user(None, 1, 2).is_err());
    assert_eq!(syscall::enter_user(Some(9), 1, 2).unwrap().cs, 0x33);
    assert!(syscall::gs_to_kernel_side(0, 0x1234));
    assert!(syscall::gs_to_canonical_side(0x1234, 0x1234));
    assert!(syscall::gs_is_kernel_side(0x1234, 0x1234));
}

#[test]
fn the_console_trial_counts_what_it_did() {
    let mut c = Console::new();
    let before = console::stats(&c);
    assert_eq!(m4::test_console_edits(&mut c), Ok(()));
    let after = console::stats(&c);
    assert_eq!(after.rx_bytes - before.rx_bytes, 28);
    assert_eq!(after.lines_in - before.lines_in, 7);
    assert_eq!(after.dropped_lines - before.dropped_lines, 1);
    assert_eq!(after.reads - before.reads, 6);
    assert_eq!(after.truncations - before.truncations, 1);
    assert_eq!(after.blocks, before.blocks);
    assert_eq!(after.dropped_bytes, before.dropped_bytes);
    assert_eq!(console::pending_lines(&c), 0);
}

#[test]
fn a_listing_pairs_processes_with_their_threads() {
    let mut s = Syscalls::new();
    let mut i = Ipc::new();
    let mut t = two();
    let o = dispatch(&mut s, &mut i, &mut t, syscall::SYS_PROC_LIST, [0x1000, 4, 0, 0, 0, 0]);
    match o {
        Outcome::List { pairs, buf } => {
            assert_eq!(buf, 0x1000);
            assert_eq!(pairs, vec![(1, 1), (2, 2)]);
        }
        _ => panic!("no listing"),
    }
    let o = dispatch(&mut s, &mut i, &mut t, syscall::SYS_PROC_LIST, [0x1000, 0, 0, 0, 0, 0]);
    assert_eq!(answer(o), STATUS_BAD_ARG);
    let o = dispatch(&mut s, &mut i, &mut t, syscall::SYS_PROC_LIST, [0x9000, 1, 0, 0, 0, 0]);
    assert_eq!(answer(o), STATUS_BAD_ADDRESS);
}

#[test]
fn the_newest_four_lines_wait() {
    let mut c = Console::new();
    typed(&mut c, b"l1\rl2\r\r\nl3\nl4\rl5\rl6\rrest");
    assert_eq!(console::pending_lines(&c), 4);
    let s = console::stats(&c);
    assert_eq!((s.rx_bytes, s.lines_in, s.dropped_lines, s.dropped_bytes), (24, 6, 2, 0));
    for l in [b"l3", b"l4", b"l5", b"l6"] {
        assert_eq!(console::read_line(&mut c, 5, 80), Ok(Some(l.to_vec())));
    }
    assert_eq!(c.edit, b"rest".to_vec());
}

#[test]
fn every_badge_is_answered_with_a_positive_status() {
    assert_eq!(syscall::wait_status(5), 5);
    assert_eq!(syscall::wait_status(1 << 63), syscall::TOP_PAYLOAD);
    assert_eq!(syscall::TOP_PAYLOAD, 1 << 62);
    assert_eq!(syscall::wait_status((1 << 63) | 7), 7);
    assert_eq!(syscall::wait_status(i64::MAX as u64), i64::MAX);
}

#[test]
fn an_untyped_frame_is_not_sent() {
    let mut t = two();
    let c = Cap { obj: CapObj::Untyped { phys: 0x5000 }, rights: cap::RIGHTS_ALL };
    assert_eq!(cap::grant(&mut t, 1, c), Ok(0));
    assert_eq!(syscall::send_cap_of(&t, 1, 0), Err(STATUS_BAD_ARG));
}

#[test]
fn a_request_that_came_later_waits_for_those_before_it() {
    let mut i = Ipc::new();
    let mut t = two();
    let e = ipc::create_endpoint(&mut i).unwrap();
    assert!(ipc::call(&mut i, 11, e, [1, 0], None).is_ok());
    assert!(ipc::call(&mut i, 12, e, [2, 0], None).is_ok());
    assert_eq!(ipc::recv(&mut i, &mut t, 2, 22, e), Ok(Some(([1, 0], ipc::CAP_NONE))));
    assert_eq!(ipc::reply(&mut i, 22, e, [0, 0], None), Ok(11));
    assert!(ipc::call_finish(&mut i, &mut t, 1, e, 0).is_ok());
    assert!(ipc::call(&mut i, 13, e, [3, 0], None).is_ok());
    assert_eq!(ipc::recv(&mut i, &mut t, 2, 22, e), Ok(Some(([2, 0], ipc::CAP_NONE))));
    assert_eq!(ipc::reply(&mut i, 22, e, [0, 0], None), Ok(12));
    assert_eq!(ipc::recv(&mut i, &mut t, 2, 22, e), Ok(Some(([3, 0], ipc::CAP_NONE))));
}

#[test]
fn a_refused_signal_adds_nothing() {
    let mut i = Ipc::new();
    let n = ipc::create_notification(&mut i).unwrap();
    assert_eq!(ipc::notify(&mut i, n, 0), Err(STATUS_BAD_ARG));
    assert_eq!(ipc::notify(&mut i, n, 0x40), Ok(None));
    assert_eq!(ipc::notify(&mut i, n, 0), Err(STATUS_BAD_ARG));
    assert_eq!(ipc::notify(&mut i, n + 1, 1), Err(STATUS_BAD_ARG));
    assert_eq!(ipc::wait(&mut i, 7, n), Ok(Some(0x40)));
    assert_eq!(ipc::wait(&mut i, 7, n), Ok(None));
}

#[test]
fn a_wait_goes_back_with_the_pending_badges() {
    let (mut s, mut i, mut t) = (Syscalls::new(), Ipc::new(), two());
    let n = ipc::create_notification(&mut i).unwrap();
    let c = Cap { obj: CapObj::Notification { nid: n }, rights: cap::RIGHTS_READ };
    assert_eq!(cap::grant(&mut t, 1, c), Ok(0));
    for (badge, status) in [(0x11, 0x11), (1 << 63, syscall::TOP_PAYLOAD), ((1 << 63) | 2, 2)] {
        assert_eq!(ipc::notify(&mut i, n, badge), Ok(None));
        let o = dispatch(&mut s, &mut i, &mut t, syscall::SYS_WAIT, [0; 6]);
        assert!(matches!(o, Outcome::Wait { nid, status: Some(x) } if nid == n && x == status));
        assert_eq!(i.notifs[n as usize].pending, 0);
    }
}

#[test]
fn a_spurious_delivery_that_somebody_waits_for_wakes_them() {
    let mut r = Relays::new();
    let mut i = Ipc::new();
    let n = m5::test_relay_open(&mut r, &mut i).unwrap();
    let other = ipc::create_notification(&mut i).unwrap();
    assert_eq!(relay::register(&mut r, m5::SPURIOUS_VEC, other, 4), Ok(()));
    assert_eq!(ipc::wait(&mut i, 9, other), Ok(None));
    assert_eq!(m5::test_relay_close(&mut r, &mut i, n), (Some(9), Ok(())));
    assert_eq!(ipc::wait_finish(&mut i, other), Ok(4));
    assert_eq!(relay::delivery_count(&r, m5::SPURIOUS_VEC), 1);
    // The next one finds a delivery that was counted before.
    let n = m5::test_relay_open(&mut r, &mut i).unwrap();
    assert_eq!(
        m5::test_relay_close(&mut r, &mut i, n),
        (None, Err("spurious delivery not counted"))
    );
    assert!(relay::registered(&r, m5::RELAY_VEC));
}

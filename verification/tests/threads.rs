//! The scheduler, its ring and the time slices.

use arenaos::frames;
use arenaos::frames::FrameAllocator;
use arenaos::handoff;
use arenaos::handoff::{Handoff, Region};
use arenaos::paging::PhysMem;
use arenaos::preempt;
use arenaos::preempt::Preempt;
use arenaos::ring::{Ring, MAX_THREADS};
use arenaos::sched;
use arenaos::sched::Sched;
use arenaos::verdicts;
use arenaos::verdicts::Drain;

const KROOT: u64 = 0x9000;

fn machine(pages: u64) -> (Sched, FrameAllocator, PhysMem) {
    let mut h = Handoff::new();
    handoff::push_region(
        &mut h,
        Region { kind: handoff::KIND_CONVENTIONAL, base: 0x10_0000, pages, attribute: 0 },
    );
    let mut fa = FrameAllocator::new();
    assert_eq!(frames::init(&mut fa, &h), Ok(()));
    let mut s = Sched::new();
    assert_eq!(sched::init(&mut s, KROOT), Ok(()));
    (s, fa, PhysMem::new(vec![0u64; (0x100 + pages as usize) * 512]))
}

#[test]
fn the_ring_is_first_in_first_out() {
    let mut r = Ring::new();
    assert_eq!(r.pop(), None);
    for i in 0..MAX_THREADS {
        assert!(r.push(i));
    }
    assert!(!r.push(0));
    for i in 0..MAX_THREADS {
        assert_eq!(r.pop(), Some(i));
    }
    assert_eq!(r.pop(), None);
}

#[test]
fn threads_take_turns_in_spawn_order() {
    let (mut s, mut fa, mut mem) = machine(64);
    let a = sched::spawn(&mut s, &mut fa, &mut mem, "a", 0x111, 1, KROOT, 0x777).unwrap();
    let b = sched::spawn(&mut s, &mut fa, &mut mem, "b", 0x222, 2, KROOT, 0x777).unwrap();
    assert!(b > a);
    assert_eq!(frames::free_frames(&fa), 64 - 16);
    assert_eq!(sched::live_threads(&s), 3);
    let mut order: Vec<u64> = Vec::new();
    for _ in 0..6 {
        assert!(sched::yield_now(&mut s, &mut fa, &mem, KROOT).unwrap().is_some());
        order.push(sched::current_thread_id(&s));
    }
    assert_eq!(order, vec![a, b, 0, a, b, 0]);
    assert_eq!(sched::switch_count(&s), 6);
    assert_eq!(sched::thread_entry_of(&s, b), Some(0x222));
    assert_eq!(sched::spawned_total(&s), 2);
}

#[test]
fn an_exited_thread_is_reaped_and_its_stack_given_back() {
    let (mut s, mut fa, mut mem) = machine(64);
    let a = sched::spawn(&mut s, &mut fa, &mut mem, "a", 0x111, 1, KROOT, 0x777).unwrap();
    assert!(sched::yield_now(&mut s, &mut fa, &mem, KROOT).unwrap().is_some());
    assert_eq!(sched::current_thread_id(&s), a);
    let (lo, hi) = sched::current_stack_range(&s);
    assert_eq!(hi - lo, 0x8000);
    assert_eq!(sched::current_kernel_stack_top(&s), Some(hi));
    assert_eq!(sched::thread_main(&s), (0x111, 1));
    assert!(sched::exit_now(&mut s, &mut fa, &mem, KROOT).is_ok());
    assert_eq!(sched::current_thread_id(&s), 0);
    assert_eq!(sched::reap(&mut s, &mut fa, &mem), Ok(()));
    assert_eq!(frames::free_frames(&fa), 64);
    assert_eq!(sched::live_threads(&s), 1);
    assert_eq!(sched::thread_stack_top(&s, a), None);
}

#[test]
fn an_overwritten_canary_is_noticed() {
    let (mut s, mut fa, mut mem) = machine(64);
    sched::spawn(&mut s, &mut fa, &mut mem, "a", 0x111, 1, KROOT, 0x777).unwrap();
    assert!(sched::yield_now(&mut s, &mut fa, &mem, KROOT).is_ok());
    assert_eq!(sched::check_canary_current(&s, &fa, &mem), Ok(()));
    let base = s.threads[1].as_ref().unwrap().stack_base as usize;
    assert_eq!(mem.words[base / 8], sched::STACK_CANARY);
    mem.words[base / 8] = 0;
    assert_eq!(
        sched::check_canary_current(&s, &fa, &mem),
        Err("kernel stack overflow (canary at switch)")
    );
}

#[test]
fn spawning_is_bounded_by_frames_and_roots() {
    let (mut s, mut fa, mut mem) = machine(8);
    assert!(matches!(
        sched::spawn_with_cr3(&mut s, &mut fa, &mut mem, "u", 1, 0, 0x9001, 0x777),
        Err("spawn_with_cr3: not a valid PML4 root")
    ));
    assert!(sched::spawn(&mut s, &mut fa, &mut mem, "a", 1, 0, KROOT, 0x777).is_ok());
    assert_eq!(
        sched::spawn(&mut s, &mut fa, &mut mem, "b", 1, 0, KROOT, 0x777),
        Err("frame exhaustion: no contiguous run for a thread stack")
    );
    assert_eq!(sched::init(&mut s, KROOT), Err("scheduler already initialized"));
}

#[test]
fn user_regions_belong_to_the_current_thread() {
    let (mut s, _, _) = machine(8);
    assert_eq!(sched::set_current_user_regions(&mut s, &[(1, 2), (3, 4)]), Ok(()));
    assert_eq!(sched::current_user_regions(&s), [(1, 2), (3, 4), (0, 0), (0, 0)]);
    assert_eq!(
        sched::set_current_user_regions(&mut s, &[(0, 0); 5]),
        Err("too many user regions")
    );
}

#[test]
fn a_slice_lasts_its_ticks() {
    let (mut s, mut fa, mut mem) = machine(64);
    sched::spawn(&mut s, &mut fa, &mut mem, "a", 0x111, 1, KROOT, 0x777).unwrap();
    let mut p = Preempt::new();
    assert!(matches!(preempt::on_timer_tick(&mut p, &mut s, &mut fa, &mem, KROOT), Ok(None)));
    preempt::enable(&mut p, &mut s, 3);
    assert!(preempt::enabled(&p));
    for _ in 0..2 {
        assert!(matches!(preempt::on_timer_tick(&mut p, &mut s, &mut fa, &mem, KROOT), Ok(None)));
    }
    assert!(matches!(preempt::on_timer_tick(&mut p, &mut s, &mut fa, &mem, KROOT), Ok(Some(_))));
    assert_eq!(preempt::total(&p), 1);
    assert_eq!(preempt::log_len(&p), 1);
    assert!(preempt::log_entry(&p, 0).is_some());
    assert!(preempt::log_entry(&p, 1).is_none());
    preempt::disable(&mut p, &mut s);
    assert!(!preempt::enabled(&p));
}

#[test]
fn a_thread_that_joins_an_empty_queue_waits_a_whole_slice() {
    let (mut s, mut fa, mut mem) = machine(64);
    let mut p = Preempt::new();
    preempt::enable(&mut p, &mut s, 3);
    for _ in 0..3 {
        assert!(matches!(preempt::on_timer_tick(&mut p, &mut s, &mut fa, &mem, KROOT), Ok(None)));
    }
    assert_eq!(preempt::total(&p), 0);
    sched::spawn(&mut s, &mut fa, &mut mem, "a", 0x111, 1, KROOT, 0x777).unwrap();
    for _ in 0..2 {
        assert!(matches!(preempt::on_timer_tick(&mut p, &mut s, &mut fa, &mem, KROOT), Ok(None)));
    }
    assert!(matches!(preempt::on_timer_tick(&mut p, &mut s, &mut fa, &mem, KROOT), Ok(Some(_))));
}

#[test]
fn the_supervisors_exit_is_judged() {
    assert_eq!(verdicts::test_spawn_supervisor(true, 42), Ok(()));
    assert_eq!(verdicts::test_spawn_supervisor(false, 42), Err("the supervisor never exited"));
    assert_eq!(
        verdicts::test_spawn_supervisor(true, 75),
        Err("supervisor: the restart spawn was refused (75)")
    );
    assert_eq!(
        verdicts::test_spawn_supervisor(true, 1),
        Err("supervisor exited with a code from nowhere in the contract")
    );
}

#[test]
fn interleaving_is_round_robin() {
    let mut log: Vec<u64> = (0..12u64).map(|i| ((i % 3 + 1) << 32) + i / 3).collect();
    assert_eq!(verdicts::test_thread_rr_interleave(&log), Ok(()));
    log.swap(4, 5);
    assert_eq!(
        verdicts::test_thread_rr_interleave(&log),
        Err("interleave order deviates from exact round-robin")
    );
    assert_eq!(verdicts::test_thread_rr_interleave(&[0]), Err("interleave log length != 12"));
    assert_eq!(verdicts::t4_deep(10), verdicts::t4_model(10));
    assert!(verdicts::t4_deep(10) != verdicts::t4_deep(11));
    assert!(matches!(verdicts::drain(1, 0, 10), Drain::Last));
    assert!(matches!(verdicts::drain(2, 9, 10), Drain::Yield));
    assert!(matches!(verdicts::drain(2, 10, 10), Drain::Stuck(_)));
}

#[test]
fn the_first_failed_check_is_reported() {
    assert_eq!(verdicts::judge(&[(true, "a"), (false, "b"), (false, "c")]), Err("b"));
    assert_eq!(verdicts::judge(&[(true, "a")]), Ok(()));
    assert_eq!(verdicts::judge(&[]), Ok(()));
}

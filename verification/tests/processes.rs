//! Processes, capabilities, images and the user windows.

use arenaos::cap;
use arenaos::cap::{Cap, CapObj};
use arenaos::demos;
use arenaos::drills;
use arenaos::elf;
use arenaos::frames;
use arenaos::frames::FrameAllocator;
use arenaos::handoff;
use arenaos::handoff::{Handoff, ImageLayout, Region};
use arenaos::ipc;
use arenaos::ipc::Ipc;
use arenaos::kernel::Kernel;
use arenaos::m3;
use arenaos::m4;
use arenaos::m5;
use arenaos::paging;
use arenaos::payloads;
use arenaos::proc;
use arenaos::proc::ProcTable;
use arenaos::syscall::Syscalls;
use arenaos::views;
use arenaos::views::Paging;
use arenaos::window;

fn put(b: &mut Vec<u8>, at: usize, s: &[u8]) {
    for (i, x) in s.iter().enumerate() {
        b[at + i] = *x;
    }
}

fn kernel_image() -> Vec<u8> {
    let mut b: Vec<u8> = vec![0u8; 0x1000];
    put(&mut b, 0, b"MZ");
    put(&mut b, 0x3C, &0x40u32.to_le_bytes());
    put(&mut b, 0x40, b"PE\0\0");
    put(&mut b, 0x44, &0x8664u16.to_le_bytes());
    put(&mut b, 0x46, &1u16.to_le_bytes());
    put(&mut b, 0x54, &240u16.to_le_bytes());
    let table: usize = 0x44 + 20 + 240;
    put(&mut b, table, b".text\0\0\0");
    put(&mut b, table + 8, &0x1000u32.to_le_bytes());
    b
}

/// A kernel with `spare` free frames besides those of its own view.
fn kernel(spare: u64) -> Kernel {
    let mut h = Handoff::new();
    handoff::push_region(
        &mut h,
        Region { kind: handoff::KIND_CONVENTIONAL, base: 0x10_0000, pages: 0x200, attribute: 0 },
    );
    handoff::set_image_layout(&mut h, ImageLayout { base: 0x8_0000, size: 0x1000 });
    let mut fa = FrameAllocator::new();
    assert_eq!(frames::init(&mut fa, &h), Ok(()));
    let mut pg = Paging::new(vec![0u64; 0x300 * 512]);
    let root = views::build_kernel_view(&mut pg, &mut fa, &h, &kernel_image(), 0x8_0000).unwrap();
    assert_eq!(views::note_live(&mut pg, root, root), Ok(()));
    while frames::free_frames(&fa) > spare {
        frames::alloc_frame(&mut fa);
    }
    Kernel { fa, pg, procs: ProcTable::new() }
}

fn memory(phys: u64, pages: u32, rights: u32) -> Cap {
    Cap { obj: CapObj::Memory { phys, pages }, rights }
}

fn destroy(k: &mut Kernel, pid: u64) -> Result<u64, &'static str> {
    let live = views::cr3_phys(&k.pg);
    proc::destroy(k, pid, live)
}

#[test]
fn process_ids_are_never_reused() {
    let mut k = kernel(64);
    let a = proc::create(&mut k, "a").unwrap();
    let b = proc::create(&mut k, "b").unwrap();
    assert!(a != 0 && b > a);
    assert_eq!(proc::live_count(&k.procs), 2);
    assert_eq!(proc::list_live(&k.procs, &[b, a, b], 8), vec![(a, 1), (b, 2)]);
    assert_eq!(proc::list_live(&k.procs, &[], 1), vec![(a, 0)]);
    assert_eq!(proc::proc_live_threads(&[b, a, b], b), 2);
    assert_eq!(destroy(&mut k, a), Ok(1));
    let c = proc::create(&mut k, "c").unwrap();
    assert!(c > b);
    assert_eq!(proc::pml4_of(&k.procs, a), None);
    assert_eq!(proc::created_total(&k.procs), 3);
    assert_eq!(destroy(&mut k, a), Err("destroy: no such process"));
}

#[test]
fn a_process_root_is_distinct_and_the_live_one_cannot_be_destroyed() {
    let mut k = kernel(64);
    let a = proc::create(&mut k, "a").unwrap();
    let b = proc::create(&mut k, "b").unwrap();
    let ra = proc::pml4_of(&k.procs, a).unwrap();
    assert!(ra != proc::pml4_of(&k.procs, b).unwrap());
    assert_eq!(views::note_live(&mut k.pg, ra, ra), Ok(()));
    assert_eq!(
        destroy(&mut k, a),
        Err("destroy: process address space is the live CR3")
    );
}

#[test]
fn the_process_table_is_bounded() {
    let mut k = kernel(64);
    for _ in 0..proc::MAX_PROCESSES {
        assert!(proc::create(&mut k, "p").is_ok());
    }
    assert_eq!(proc::create(&mut k, "p"), Err("process table full (MAX_PROCESSES)"));
    let mut dry = kernel(0);
    assert_eq!(
        proc::create(&mut dry, "p"),
        Err("frame exhaustion: no PML4 root for a process")
    );
}

#[test]
fn the_exit_notification_is_remembered() {
    let mut k = kernel(64);
    let a = proc::create(&mut k, "a").unwrap();
    assert_eq!(proc::exit_notif_of(&k.procs, a), None);
    assert_eq!(proc::set_exit_notif(&mut k.procs, a, 3, 0x55), Ok(()));
    assert_eq!(proc::exit_notif_of(&k.procs, a), Some((3, 0x55)));
    assert_eq!(
        proc::set_exit_notif(&mut k.procs, 99, 3, 0x55),
        Err("set_exit_notif: no such process")
    );
}

#[test]
fn copies_never_gain_rights() {
    let mut k = kernel(64);
    let a = proc::create(&mut k, "a").unwrap();
    let b = proc::create(&mut k, "b").unwrap();
    let c = memory(0x5000, 1, cap::RIGHTS_READ | cap::RIGHTS_COPY);
    assert_eq!(cap::grant(&mut k.procs, a, c), Ok(0));
    assert_eq!(
        cap::copy(&mut k.procs, a, 0, b, 4, cap::RIGHTS_READ | cap::RIGHTS_WRITE),
        Err("cap copy: rights amplification refused")
    );
    assert_eq!(cap::copy(&mut k.procs, a, 0, b, 4, cap::RIGHTS_READ), Ok(()));
    assert_eq!(cap::read(&k.procs, b, 4), Ok(memory(0x5000, 1, cap::RIGHTS_READ)));
    assert_eq!(
        cap::copy(&mut k.procs, b, 4, a, 5, cap::RIGHTS_READ),
        Err("cap copy: source lacks the COPY right")
    );
    assert_eq!(
        cap::copy(&mut k.procs, a, 0, b, 4, cap::RIGHTS_READ),
        Err("cap copy: destination slot occupied")
    );
    assert_eq!(cap::copy(&mut k.procs, a, 9, b, 5, 0), Err("cap slot empty"));
    assert_eq!(cap::copy(&mut k.procs, a, 16, b, 5, 0), Err("cap slot out of bounds"));
    assert_eq!(cap::copy(&mut k.procs, 99, 0, b, 5, 0), Err("cap: no such process"));
}

#[test]
fn a_moved_capability_leaves_its_slot() {
    let mut k = kernel(64);
    let a = proc::create(&mut k, "a").unwrap();
    let b = proc::create(&mut k, "b").unwrap();
    let c = memory(0x5000, 1, cap::RIGHTS_READ | cap::RIGHTS_COPY);
    assert_eq!(cap::grant(&mut k.procs, a, c), Ok(0));
    assert_eq!(cap::move_cap(&mut k.procs, a, 0, b, 0, cap::RIGHTS_READ), Ok(()));
    assert_eq!(cap::read(&k.procs, a, 0), Err("cap slot empty"));
    assert_eq!(cap::occupancy(&k.procs, a), Some((0, 16)));
    assert_eq!(cap::occupancy(&k.procs, b), Some((1, 16)));
    assert_eq!(cap::occupancy(&k.procs, 99), None);
}

#[test]
fn a_space_holds_sixteen_capabilities() {
    let mut k = kernel(64);
    let a = proc::create(&mut k, "a").unwrap();
    for i in 0..cap::CAP_SLOTS {
        assert_eq!(cap::grant(&mut k.procs, a, memory(0x5000, 1, 1)), Ok(i));
    }
    assert_eq!(
        cap::grant(&mut k.procs, a, memory(0x5000, 1, 1)),
        Err("capability space full (CAP_SLOTS)")
    );
    assert_eq!(
        cap::grant(&mut k.procs, a, Cap::empty()),
        Err("grant: cannot grant an empty cap")
    );
    assert_eq!(cap::consume(&mut k.procs, a, 3), Ok(()));
    assert_eq!(cap::grant(&mut k.procs, a, memory(0x6000, 1, 1)), Ok(3));
    assert_eq!(cap::issue(&mut k.procs, a, 3, memory(0x7000, 1, 1)), Err("cap issue: slot occupied"));
}

#[test]
fn destroying_an_untyped_capability_gives_its_frame_back() {
    let mut k = kernel(64);
    let a = proc::create(&mut k, "a").unwrap();
    let f = frames::alloc_frame(&mut k.fa).unwrap();
    let before = frames::free_frames(&k.fa);
    let c = Cap { obj: CapObj::Untyped { phys: f }, rights: cap::RIGHTS_READ };
    assert_eq!(cap::grant(&mut k.procs, a, c), Ok(0));
    assert_eq!(
        cap::destroy(&mut k.procs, &mut k.fa, a, 0),
        Err("cap destroy: cap lacks the DESTROY right")
    );
    assert_eq!(cap::consume(&mut k.procs, a, 0), Ok(()));
    let c = Cap { obj: CapObj::Untyped { phys: f }, rights: cap::RIGHTS_ALL };
    assert_eq!(cap::grant(&mut k.procs, a, c), Ok(0));
    assert_eq!(cap::destroy(&mut k.procs, &mut k.fa, a, 0), Ok(()));
    assert_eq!(frames::free_frames(&k.fa), before + 1);
    assert_eq!(cap::destroy(&mut k.procs, &mut k.fa, a, 0), Err("cap slot empty"));
}

#[test]
fn memory_is_mapped_through_two_capabilities() {
    let mut k = kernel(64);
    let a = proc::create(&mut k, "a").unwrap();
    let b = proc::create(&mut k, "b").unwrap();
    let f = frames::alloc_frame(&mut k.fa).unwrap();
    let target = Cap { obj: CapObj::Process { pid: b }, rights: cap::RIGHTS_ALL };
    assert_eq!(cap::grant(&mut k.procs, a, target), Ok(0));
    assert_eq!(cap::grant(&mut k.procs, a, memory(f, 1, cap::RIGHTS_WRITE | cap::RIGHTS_READ)), Ok(1));
    let rb = proc::pml4_of(&k.procs, b).unwrap();
    assert_eq!(cap::process_root(&k.procs, a, 0), Ok(rb));
    assert_eq!(
        cap::process_root(&k.procs, a, 1),
        Err("process_root: cap does not name a process")
    );
    assert_eq!(cap::map_memory(&mut k, a, 1, 0, 0x43_0000, true, false), Ok(()));
    assert_eq!(
        paging::translate(&k.pg.mem, rb, 0x43_0000),
        Some(f | paging::PTE_PRESENT | paging::PTE_WRITE | paging::PTE_USER | paging::PTE_NX)
    );
    assert_eq!(
        cap::map_memory(&mut k, a, 0, 0, 0x43_1000, true, false),
        Err("map_memory: memory slot does not name a memory cap")
    );
    assert_eq!(
        cap::map_memory(&mut k, a, 1, 1, 0x43_1000, true, false),
        Err("map_memory: process slot does not name a process cap")
    );
    assert_eq!(
        cap::map_memory(&mut k, a, 1, 0, 0x43_1001, true, false),
        Err("map_memory: unaligned va or phys")
    );
    assert_eq!(
        cap::map_memory(&mut k, a, 1, 0, 0x8000_0000_0000, true, false),
        Err("map_memory: va span reaches the kernel half")
    );
    // The root, the mapped frame and three tables.
    assert_eq!(destroy(&mut k, b), Ok(5));
    assert_eq!(
        cap::process_root(&k.procs, a, 0),
        Err("process_root: target process is dead (cap dangles)")
    );
    assert_eq!(
        cap::map_memory(&mut k, a, 1, 0, 0x43_0000, true, false),
        Err("map_memory: target process is dead (cap dangles)")
    );
}

#[test]
fn capability_spaces_pass_and_leave_no_trace() {
    let mut k = kernel(64);
    let before = frames::free_frames(&k.fa);
    assert_eq!(m3::test_capability_spaces(&mut k), Ok(()));
    assert_eq!(frames::free_frames(&k.fa), before);
    assert_eq!(proc::live_count(&k.procs), 0);
}

#[test]
fn accounting_rounds_leave_the_pool_as_it_was() {
    let mut k = kernel(64);
    let before = frames::free_frames(&k.fa);
    assert!(m3::accounting_rounds(&mut k).is_ok());
    assert_eq!(frames::free_frames(&k.fa), before);
    let mut dry = kernel(0);
    assert!(m3::accounting_rounds(&mut dry).is_err());
}

#[test]
fn a_user_window_shows_its_code_and_is_torn_down_whole() {
    let mut k = kernel(64);
    let (code, msg_off) = payloads::build_payload_a();
    let msg = payloads::u3_msg_a();
    let before = frames::free_frames(&k.fa);
    let (pages, after) = window::u3_setup(&mut k, &code, msg_off, &msg).unwrap();
    assert_eq!(after, frames::free_frames(&k.fa));
    assert!(pages[0] != pages[1] && pages[1] != pages[2]);
    let root = k.pg.kernel_root;
    for i in 0..code.len() {
        let want = if i >= msg_off && i < msg_off + msg.len() { msg[i - msg_off] } else { code[i] };
        assert_eq!(window::peek(&k.pg.mem, root, payloads::U3_CODE_VA + i as u64), Some(want));
    }
    assert_eq!(window::peek(&k.pg.mem, root, payloads::U3_DATA_VA), Some(0));
    assert_eq!(window::peek(&k.pg.mem, root, payloads::U3_STACK_TOP), None);
    assert_eq!(window::u3_teardown(&mut k, after), Ok(after + 3));
    assert_eq!(frames::free_frames(&k.fa), after + 3);
    assert!(after + 3 <= before);
}

#[test]
fn a_window_without_frames_is_refused() {
    let mut k = kernel(2);
    let (code, msg_off) = payloads::build_abi_payload();
    let r = window::m4_setup(&mut k, &code, msg_off, &payloads::m4_msg());
    assert!(matches!(r, Err(e) if e == window::m4_refusals().frames));
}

/// The static image that the loader is tried on: a page of text, and a page of
/// data with a page of zeroes behind it.
fn payload() -> Vec<u8> {
    let mut b: Vec<u8> = vec![0u8; 0x2000 + 0x40];
    put(&mut b, 0, &[0x7F, b'E', b'L', b'F', 2, 1, 1]);
    put(&mut b, 16, &2u16.to_le_bytes());
    put(&mut b, 18, &62u16.to_le_bytes());
    put(&mut b, 20, &1u32.to_le_bytes());
    put(&mut b, 24, &0x20_0000u64.to_le_bytes());
    put(&mut b, 32, &64u64.to_le_bytes());
    put(&mut b, 52, &64u16.to_le_bytes());
    put(&mut b, 54, &56u16.to_le_bytes());
    put(&mut b, 56, &2u16.to_le_bytes());
    let segs: [(u32, u64, u64, u64, u64); 2] = [
        (5, 0x1000, 0x20_0000, 0x900, 0x900),
        (6, 0x2000, 0x20_1000, 0x40, 0x2000),
    ];
    for (i, s) in segs.iter().enumerate() {
        let at: usize = 64 + i * 56;
        put(&mut b, at, &1u32.to_le_bytes());
        put(&mut b, at + 4, &s.0.to_le_bytes());
        put(&mut b, at + 8, &s.1.to_le_bytes());
        put(&mut b, at + 16, &s.2.to_le_bytes());
        put(&mut b, at + 32, &s.3.to_le_bytes());
        put(&mut b, at + 40, &s.4.to_le_bytes());
        put(&mut b, at + 48, &0x1000u64.to_le_bytes());
    }
    b[0x1000] = 0xF4;
    put(&mut b, 0x2000, &m4::meta_magic());
    let facts: [u64; 6] =
        [m4::PAYLOAD_ENTRY, m4::PAYLOAD_BSS_VA, m4::PAYLOAD_BSS_LEN, m4::PAYLOAD_MSG_VA, 20, 42];
    for (i, x) in facts.iter().enumerate() {
        put(&mut b, 0x2010 + i * 8, &x.to_le_bytes());
    }
    b
}

#[test]
fn a_well_formed_image_is_accepted() {
    let i = elf::validate(&payload()).unwrap();
    assert_eq!(i.entry, 0x20_0000);
    assert_eq!(i.nsegs, 2);
    assert_eq!((i.segs[0].vaddr, i.segs[0].memsz, i.segs[0].flags), (0x20_0000, 0x900, 5));
    assert_eq!((i.segs[1].filesz, i.segs[1].memsz), (0x40, 0x2000));
}

#[test]
fn each_damage_to_an_image_is_named() {
    let cases: [(usize, &[u8], &str); 20] = [
        (0, &[0], "elf: bad magic"),
        (4, &[1], "elf: not ELFCLASS64"),
        (5, &[2], "elf: not little-endian"),
        (6, &[0], "elf: bad EI_VERSION"),
        (16, &[3], "elf: only ET_EXEC static images are accepted"),
        (18, &[3], "elf: not EM_X86_64"),
        (20, &[2], "elf: bad e_version"),
        (52, &[63], "elf: e_ehsize must be 64"),
        (54, &[55], "elf: e_phentsize must be 56"),
        (56, &[0], "elf: e_phnum outside 1..=MAX_SEGMENTS"),
        (56, &[9], "elf: e_phnum outside 1..=MAX_SEGMENTS"),
        (32, &[0xFF, 0xFF], "elf: phdr table past end of image"),
        (24, &[0, 0, 0x21], "elf: entry not inside an executable segment"),
        (64, &[3], "elf: PT_INTERP rejected — no dynamic images"),
        (68, &[7], "elf: W+X segment violates W^X (ADR-0008)"),
        (68, &[8], "elf: unknown segment flags"),
        (80, &[1], "elf: p_vaddr not page-aligned"),
        (104, &[1, 0], "elf: filesz exceeds memsz"),
        (72, &[0xFF, 0xFF], "elf: segment data past end of image"),
        (136, &[0, 0, 0x20], "elf: segments overlap"),
    ];
    for (at, with, why) in cases {
        let mut b = payload();
        put(&mut b, at, with);
        assert!(matches!(elf::validate(&b), Err(e) if e == why), "{}", why);
    }
    assert!(matches!(
        elf::validate(&payload()[..100]),
        Err("elf: image shorter than ELF header + one phdr")
    ));
}

#[test]
fn a_loaded_image_is_seen_by_its_process() {
    let mut k = kernel(64);
    let a = proc::create(&mut k, "a").unwrap();
    let before = frames::free_frames(&k.fa);
    let l = elf::load(&mut k, &payload(), a).unwrap();
    assert_eq!((l.entry, l.pages), (0x20_0000, 3));
    assert_eq!(frames::free_frames(&k.fa), before - 6);
    let root = proc::pml4_of(&k.procs, a).unwrap();
    assert_eq!(window::peek(&k.pg.mem, root, 0x20_0000), Some(0xF4));
    assert_eq!(window::peek(&k.pg.mem, root, 0x20_0900), Some(0));
    assert_eq!(window::peek(&k.pg.mem, root, 0x20_2FFF), Some(0));
    assert!(matches!(
        elf::load(&mut k, &payload(), a),
        Err("elf: va already mapped in target (overlapping load?)")
    ));
    assert!(matches!(elf::load(&mut k, &payload(), 99), Err("elf: target process is dead")));
    assert_eq!(destroy(&mut k, a), Ok(7));
    assert_eq!(frames::free_frames(&k.fa), before + 1);
}

#[test]
fn every_mutation_of_the_payload_is_rejected() {
    assert_eq!(m4::test_elf_reject(&payload()), Ok(()));
}

#[test]
fn the_payload_image_parses_loads_and_unloads() {
    let mut k = kernel(64);
    let img = payload();
    let before = frames::free_frames(&k.fa);
    assert_eq!(m4::test_elf_parse(&img), Ok(()));
    assert_eq!(m4::test_elf_load(&mut k, &img), Ok(()));
    assert_eq!(frames::free_frames(&k.fa), before);
    assert_eq!(proc::live_count(&k.procs), 0);
}

#[test]
fn a_payload_that_is_not_the_expected_one_is_named() {
    let mut img = payload();
    img[0x2000] = 0;
    assert_eq!(m4::test_elf_parse(&img), Err("payload META magic mismatch"));
    let mut img = payload();
    img[0x2038] = 0;
    assert_eq!(m4::test_elf_parse(&img), Err("META.exit_ok must be a nonzero success code"));
    let mut img = payload();
    img[68] = 4;
    img[24] = 1;
    assert!(m4::test_elf_parse(&img).is_err());
}

#[test]
fn device_capabilities_stay_where_they_were_granted() {
    let mut k = kernel(64);
    let a = proc::create(&mut k, "a").unwrap();
    assert_eq!(m5::test_mmio_grant(&mut k.procs, a), Ok(()));
    assert_eq!(m5::test_mmio_kept(&k.procs, a), Ok(()));
    assert_eq!(cap::consume(&mut k.procs, a, 0), Ok(()));
    assert!(m5::test_mmio_kept(&k.procs, a).is_err());
}

#[test]
fn address_spaces_are_apart_and_leave_no_trace() {
    let mut k = kernel(20);
    let va = paging::KERNEL_OFFSET + 0x12_3000;
    assert_eq!(drills::test_process_address_spaces(&mut k, va), Ok(()));
    assert_eq!(frames::free_frames(&k.fa), 20);
    assert_eq!(proc::live_count(&k.procs), 0);
    let cases: [(u64, &str); 5] = [
        (0, "frame exhaustion: no PML4 root for a process"),
        (2, "frame exhaustion (procA page)"),
        (3, "frame exhaustion (procB page)"),
        (6, "procA map failed"),
        (9, "procB map failed"),
    ];
    for (n, why) in cases {
        let mut k = kernel(n);
        assert!(matches!(drills::test_process_address_spaces(&mut k, va), Err(e) if e == why));
    }
}

#[test]
fn capabilities_are_invoked_within_their_rights() {
    let mut k = kernel(20);
    assert_eq!(drills::test_capability_invoke(&mut k), Ok(()));
    assert_eq!(frames::free_frames(&k.fa), 20);
    let mut k = kernel(2);
    assert_eq!(
        drills::test_capability_invoke(&mut k),
        Err("frame exhaustion (invoke memory)")
    );
    let mut k = kernel(5);
    assert_eq!(drills::test_capability_invoke(&mut k), Err("frames exhausted (window map)"));
}

#[test]
fn the_exchange_is_put_in_place_and_taken_away() {
    let mut k = kernel(40);
    let mut i = Ipc::new();
    let d = demos::ipc_echo_open(&mut k, &mut i).unwrap();
    assert_eq!(frames::free_frames(&k.fa), 25);
    let root = proc::pml4_of(&k.procs, d.srv).unwrap();
    let code = payloads::build_ipc_server();
    for (n, b) in code.iter().enumerate() {
        assert_eq!(window::peek(&k.pg.mem, root, payloads::I_CODE + n as u64), Some(*b));
    }
    assert_eq!(
        demos::ipc_echo_close(&mut k, &mut i, &d),
        Err("no cap landed in the server's space")
    );
    // What the server would have received.
    let sent = cap::RIGHTS_READ | cap::RIGHTS_COPY;
    assert_eq!(cap::copy(&mut k.procs, d.cli, 2, d.srv, 2, sent), Ok(()));
    assert_eq!(demos::ipc_echo_close(&mut k, &mut i, &d), Ok(()));
    assert_eq!(frames::free_frames(&k.fa), 40);
    assert_eq!(proc::live_count(&k.procs), 0);
    assert!(ipc::destroy_endpoint(&mut i, d.eid).is_err());
}

#[test]
fn a_changed_right_in_flight_is_noticed() {
    let mut k = kernel(40);
    let mut i = Ipc::new();
    let d = demos::ipc_echo_open(&mut k, &mut i).unwrap();
    assert_eq!(cap::copy(&mut k.procs, d.cli, 2, d.srv, 2, cap::RIGHTS_READ), Ok(()));
    assert_eq!(
        demos::ipc_echo_close(&mut k, &mut i, &d),
        Err("the transferred cap's rights changed in flight")
    );
    assert_eq!(cap::consume(&mut k.procs, d.srv, 2), Ok(()));
    let sent = cap::RIGHTS_READ | cap::RIGHTS_COPY;
    assert_eq!(cap::move_cap(&mut k.procs, d.cli, 2, d.srv, 2, sent), Ok(()));
    assert_eq!(
        demos::ipc_echo_close(&mut k, &mut i, &d),
        Err("the sender LOST its original cap (move, not copy)")
    );
}

#[test]
fn the_exchange_needs_frames_and_tables() {
    let mut i = Ipc::new();
    let mut k = kernel(4);
    assert!(matches!(demos::ipc_echo_open(&mut k, &mut i), Err("frame exhaustion for the ipc window")));
    let mut k = kernel(7);
    assert!(matches!(demos::ipc_echo_open(&mut k, &mut i), Err("ipc code page map failed")));
    let mut k = kernel(14);
    assert!(matches!(demos::ipc_echo_open(&mut k, &mut i), Err("no frame for the transfer cap")));
    while ipc::create_endpoint(&mut i).is_ok() {}
    let mut k = kernel(20);
    assert!(matches!(demos::ipc_echo_open(&mut k, &mut i), Err("endpoint table full")));
}

#[test]
fn the_supervisor_and_its_children_are_checked() {
    let mut k = kernel(40);
    let mut i = Ipc::new();
    let mut s = Syscalls::new();
    let d = demos::spawn_restart_open(&mut k, &mut i).unwrap();
    assert_eq!(frames::free_frames(&k.fa), 32);
    let mut kids: Vec<(u64, u64)> = Vec::new();
    for n in 0..2u64 {
        let c = proc::create(&mut k, "child").unwrap();
        let sent = cap::RIGHTS_READ | cap::RIGHTS_COPY;
        assert_eq!(cap::copy(&mut k.procs, d.sup, 2, c, 0, sent), Ok(()));
        let handle = Cap { obj: CapObj::Process { pid: c }, rights: cap::RIGHTS_ALL };
        assert_eq!(cap::grant(&mut k.procs, d.sup, handle), Ok(3 + n as usize));
        s.exits.push((70 + n, 42));
        kids.push((c, 70 + n));
    }
    assert_eq!(demos::spawn_children(&k.procs, &s, &d, &kids), Ok(()));
    assert_eq!(
        demos::spawn_children(&k.procs, &s, &d, &kids[..1]),
        Err("the spawn registry does not hold exactly the two children")
    );
    s.exits[1].1 = 43;
    assert_eq!(
        demos::spawn_children(&k.procs, &s, &d, &kids),
        Err("a spawned child did not exit with the image's success code")
    );
    for (c, _) in kids {
        assert_eq!(destroy(&mut k, c), Ok(1));
    }
    assert_eq!(demos::spawn_restart_close(&mut k, &mut i, &d), Ok(()));
    assert_eq!(frames::free_frames(&k.fa), 40);
}

#[test]
fn the_first_process_is_put_in_place_and_taken_away() {
    let mut k = kernel(20);
    let img = payload();
    let d = demos::first_process_open(&mut k, &img).unwrap();
    assert_eq!(frames::free_frames(&k.fa), 12);
    assert_eq!((d.msg_off, d.msg_len, d.exit_ok), (0x1800, 20, 42));
    let root = proc::pml4_of(&k.procs, d.pid).unwrap();
    assert_eq!(window::peek(&k.pg.mem, root, 0x20_0000), Some(0xF4));
    assert_eq!(window::peek(&k.pg.mem, root, m4::PROC_STACK_TOP - 1), Some(0));
    assert_eq!(window::peek(&k.pg.mem, root, m4::PROC_STACK_TOP), None);
    assert_eq!(demos::first_process_close(&mut k, &d), Ok(()));
    assert_eq!(frames::free_frames(&k.fa), 20);
    let mut k = kernel(7);
    assert!(matches!(
        demos::first_process_open(&mut k, &img),
        Err("no frame for the process stack")
    ));
}

#[test]
fn the_other_demonstrations_leave_no_trace() {
    let mut k = kernel(20);
    let d = demos::console_line_open(&mut k).unwrap();
    assert_eq!(frames::free_frames(&k.fa), 13);
    assert_eq!(demos::console_line_close(&mut k, &d), Ok(()));
    assert_eq!(frames::free_frames(&k.fa), 20);
    let d = demos::mmio_user_open(&mut k, 15).unwrap();
    assert_eq!(demos::data_word(&k.pg.mem, d.data, 8), 0);
    assert_eq!(demos::mmio_user_close(&mut k, &d), Ok(()));
    let d = demos::untyped_alloc_open(&mut k, 14, 15).unwrap();
    assert_eq!(demos::untyped_alloc_close(&mut k, &d), Ok(()));
    assert_eq!(frames::free_frames(&k.fa), 20);
    let mut off = d;
    off.baseline = 3;
    let again = demos::untyped_alloc_open(&mut k, 14, 15).unwrap();
    off.pid = again.pid;
    assert_eq!(
        demos::untyped_alloc_close(&mut k, &off),
        Err("untyped demo teardown is not frame-exact")
    );
}

#[test]
fn a_user_process_shares_the_kernels_word() {
    let mut k = kernel(20);
    k.pg.apic_base = 0xFEE0_0000;
    let va = paging::KERNEL_OFFSET + 0x12_3000;
    assert!(matches!(
        demos::process_accounting_open(&mut k, va),
        Err("kernel half diverged between the kernel view and the process clone")
    ));
    let mut k = kernel(20);
    k.pg.apic_base = 0xFEE0_0000;
    k.pg.mem.words[0x12_3000 / 8] = 0xFFFF_FFFF_FEE0_00B0;
    let d = demos::process_accounting_open(&mut k, va).unwrap();
    assert_eq!(frames::free_frames(&k.fa), 11);
    assert_eq!(demos::process_accounting_close(&mut k, &d), Ok(()));
    assert_eq!(frames::free_frames(&k.fa), 20);
}

#[test]
fn the_shell_must_be_the_registered_image() {
    let img = payload();
    assert_eq!(m4::test_shell_image(&img, Some(&img)), Ok(()));
    assert_eq!(
        m4::test_shell_image(&img, None),
        Err("registry image 1 is not the embedded shell")
    );
    let mut other = img.clone();
    let last = other.len() - 1;
    other[last] ^= 1;
    assert_eq!(
        m4::test_shell_image(&img, Some(&other)),
        Err("registry image 1 is not the embedded shell")
    );
    assert!(m4::test_shell_image(&img[..10], Some(&img)).is_err());
}

#[test]
fn a_load_that_the_frames_do_not_last_for_says_so() {
    let img = payload();
    for spare in 1..7u64 {
        let e = m4::test_elf_load(&mut kernel(spare), &img).unwrap_err();
        assert!(e == "elf: out of frames" || e == "frames exhausted (window map)", "{spare}: {e}");
    }
    assert_eq!(m4::test_elf_load(&mut kernel(7), &img), Ok(()));
    assert_eq!(
        demos::first_process_open(&mut kernel(7), &img).err(),
        Some("no frame for the process stack")
    );
    assert!(demos::first_process_open(&mut kernel(8), &img).is_ok());
}

#[test]
fn a_device_capability_that_lands_elsewhere_is_noticed() {
    let mut k = kernel(32);
    let pid = proc::create(&mut k, "p").unwrap();
    assert_eq!(cap::grant(&mut k.procs, pid, memory(0x1000, 1, cap::RIGHTS_READ)), Ok(0));
    assert_eq!(
        m5::test_mmio_grant(&mut k.procs, pid),
        Err("the mmio cap did not land in slot 0 (payload contract)")
    );
    assert_eq!(cap::read(&k.procs, pid, 1), Ok(m5::hpet_cap()));
    assert_eq!(m5::test_mmio_grant(&mut k.procs, pid + 1), Err("mmio cap grant failed"));
}

#[test]
fn an_untyped_frame_has_one_owner() {
    let mut k = kernel(64);
    let a = proc::create(&mut k, "a").unwrap();
    let b = proc::create(&mut k, "b").unwrap();
    let f = frames::alloc_frame(&mut k.fa).unwrap();
    let c = Cap { obj: CapObj::Untyped { phys: f }, rights: cap::RIGHTS_ALL };
    assert_eq!(cap::grant(&mut k.procs, a, c), Ok(0));
    assert_eq!(
        cap::copy(&mut k.procs, a, 0, b, 0, cap::RIGHTS_READ),
        Err("cap copy: an untyped frame has one owner")
    );
    assert_eq!(cap::read(&k.procs, b, 0), Err("cap slot empty"));
    assert_eq!(cap::move_cap(&mut k.procs, a, 0, b, 0, cap::RIGHTS_ALL), Ok(()));
    assert_eq!(cap::read(&k.procs, a, 0), Err("cap slot empty"));
    assert_eq!(cap::read(&k.procs, b, 0), Ok(c));
}

#[test]
fn a_chain_of_copies_only_loses_rights() {
    let mut k = kernel(64);
    let a = proc::create(&mut k, "a").unwrap();
    let b = proc::create(&mut k, "b").unwrap();
    let c = proc::create(&mut k, "c").unwrap();
    let all = cap::RIGHTS_READ | cap::RIGHTS_WRITE | cap::RIGHTS_COPY;
    assert_eq!(cap::grant(&mut k.procs, a, memory(0x5000, 1, all)), Ok(0));
    let less = cap::RIGHTS_READ | cap::RIGHTS_COPY;
    assert_eq!(cap::copy(&mut k.procs, a, 0, b, 0, less), Ok(()));
    assert_eq!(
        cap::copy(&mut k.procs, b, 0, c, 0, all),
        Err("cap copy: rights amplification refused")
    );
    assert_eq!(cap::move_cap(&mut k.procs, b, 0, c, 0, cap::RIGHTS_READ), Ok(()));
    assert_eq!(cap::read(&k.procs, c, 0), Ok(memory(0x5000, 1, cap::RIGHTS_READ)));
}

#[test]
fn a_run_of_pages_is_mapped_page_by_page() {
    let mut k = kernel(64);
    let a = proc::create(&mut k, "a").unwrap();
    let f = frames::alloc_contiguous(&mut k.fa, 3).unwrap();
    let target = Cap { obj: CapObj::Process { pid: a }, rights: cap::RIGHTS_ALL };
    assert_eq!(cap::grant(&mut k.procs, a, target), Ok(0));
    assert_eq!(cap::grant(&mut k.procs, a, memory(f, 3, cap::RIGHTS_READ)), Ok(1));
    assert_eq!(cap::map_memory(&mut k, a, 1, 0, 0x43_F000, false, false), Ok(()));
    let root = proc::pml4_of(&k.procs, a).unwrap();
    for i in 0..3u64 {
        assert_eq!(
            paging::user_pte_flags(&k.pg.mem, root, 0x43_F000 + i * 4096),
            Some((f + i * 4096) | paging::PTE_PRESENT | paging::PTE_USER | paging::PTE_NX)
        );
    }
    assert_eq!(paging::user_pte_flags(&k.pg.mem, root, 0x44_2000), None);
}

/// A process with two adjacent frames to map, and the first of them.
fn run_of_two(k: &mut Kernel) -> (u64, u64) {
    let a = proc::create(k, "a").unwrap();
    let f = frames::alloc_contiguous(&mut k.fa, 2).unwrap();
    let target = Cap { obj: CapObj::Process { pid: a }, rights: cap::RIGHTS_ALL };
    assert_eq!(cap::grant(&mut k.procs, a, target), Ok(0));
    assert_eq!(cap::grant(&mut k.procs, a, memory(f, 2, cap::RIGHTS_READ)), Ok(1));
    (a, f)
}

#[test]
fn a_run_over_a_table_boundary_takes_one_table_more() {
    let mut k = kernel(64);
    let (a, f) = run_of_two(&mut k);
    let before = frames::free_frames(&k.fa);
    assert_eq!(cap::map_memory(&mut k, a, 1, 0, 0x3F_F000, false, false), Ok(()));
    assert_eq!(before - frames::free_frames(&k.fa), 4);
    let root = proc::pml4_of(&k.procs, a).unwrap();
    assert_eq!(
        paging::translate(&k.pg.mem, root, 0x40_0000).map(|e| e & paging::ADDR_MASK),
        Some(f + 4096)
    );
    let mut k = kernel(64);
    let (a, _) = run_of_two(&mut k);
    assert_eq!(cap::map_memory(&mut k, a, 1, 0, 0x3F_E000, false, false), Ok(()));
    assert_eq!(before - frames::free_frames(&k.fa), 3);
}

#[test]
fn a_run_breaks_off_at_the_page_that_the_frames_do_not_last_for() {
    let mut k = kernel(64);
    let (a, _) = run_of_two(&mut k);
    while frames::free_frames(&k.fa) > 3 {
        frames::alloc_frame(&mut k.fa);
    }
    assert_eq!(
        cap::map_memory(&mut k, a, 1, 0, 0x3F_F000, false, false),
        Err("frames exhausted (window map)")
    );
    assert_eq!(frames::free_frames(&k.fa), 0);
    let root = proc::pml4_of(&k.procs, a).unwrap();
    assert!(paging::translate(&k.pg.mem, root, 0x3F_F000).is_some());
    assert!(paging::translate(&k.pg.mem, root, 0x40_0000).is_none());
}

#[test]
fn a_load_takes_a_frame_for_each_page_and_each_table() {
    let mut k = kernel(64);
    let a = proc::create(&mut k, "a").unwrap();
    let before = frames::free_frames(&k.fa);
    assert!(elf::load(&mut k, &payload(), a).is_ok());
    assert_eq!(before - frames::free_frames(&k.fa), 6);
    let mut k = kernel(64);
    let a = proc::create(&mut k, "a").unwrap();
    while frames::free_frames(&k.fa) > 5 {
        frames::alloc_frame(&mut k.fa);
    }
    assert!(matches!(elf::load(&mut k, &payload(), a), Err("elf: out of frames")));
    assert_eq!(frames::free_frames(&k.fa), 0);
}

#[test]
fn a_second_load_changes_nothing() {
    let mut k = kernel(64);
    let a = proc::create(&mut k, "a").unwrap();
    assert!(elf::load(&mut k, &payload(), a).is_ok());
    let before = frames::free_frames(&k.fa);
    assert!(matches!(
        elf::load(&mut k, &payload(), a),
        Err("elf: va already mapped in target (overlapping load?)")
    ));
    assert_eq!(frames::free_frames(&k.fa), before);
}

#[test]
fn segments_that_an_image_does_not_have_are_blank() {
    let i = elf::validate(&payload()).unwrap();
    for s in &i.segs[2..] {
        assert_eq!((s.vaddr, s.memsz, s.filesz, s.flags), (0, 0, 0, 0));
    }
}

#[test]
fn the_total_counts_creations_alone() {
    let mut k = kernel(64);
    for i in 0..5u64 {
        let p = proc::create(&mut k, "p").unwrap();
        assert_eq!(proc::created_total(&k.procs), i + 1);
        assert_eq!(destroy(&mut k, p), Ok(1));
        assert_eq!(proc::created_total(&k.procs), i + 1);
    }
    assert_eq!(proc::live_count(&k.procs), 0);
}

#[test]
fn a_capability_to_the_dead_reads_back_and_is_refused() {
    let mut k = kernel(64);
    let a = proc::create(&mut k, "a").unwrap();
    let b = proc::create(&mut k, "b").unwrap();
    let c = Cap { obj: CapObj::Process { pid: b }, rights: cap::RIGHTS_ALL };
    assert_eq!(cap::grant(&mut k.procs, a, c), Ok(0));
    assert!(cap::process_root(&k.procs, a, 0).is_ok());
    assert_eq!(destroy(&mut k, b), Ok(1));
    assert_eq!(cap::read(&k.procs, a, 0), Ok(c));
    assert_eq!(
        cap::process_root(&k.procs, a, 0),
        Err("process_root: target process is dead (cap dangles)")
    );
    // Nor does a process that comes after answer to it.
    assert!(proc::create(&mut k, "b").unwrap() != b);
    assert!(cap::process_root(&k.procs, a, 0).is_err());
}

#[test]
fn an_untyped_frame_is_mapped_once() {
    let mut k = kernel(64);
    let a = proc::create(&mut k, "a").unwrap();
    let f = frames::alloc_frame(&mut k.fa).unwrap();
    let me = Cap { obj: CapObj::Process { pid: a }, rights: cap::RIGHTS_ALL };
    let c = Cap { obj: CapObj::Untyped { phys: f }, rights: cap::RIGHTS_ALL };
    assert_eq!(cap::grant(&mut k.procs, a, me), Ok(0));
    assert_eq!(cap::grant(&mut k.procs, a, c), Ok(1));
    assert_eq!(cap::map_memory(&mut k, a, 1, 0, 0x43_0000, true, false), Ok(()));
    assert_eq!(cap::read(&k.procs, a, 1), Err("cap slot empty"));
    assert_eq!(
        cap::map_memory(&mut k, a, 1, 0, 0x43_1000, true, false),
        Err("cap slot empty")
    );
    let root = proc::pml4_of(&k.procs, a).unwrap();
    assert_eq!(paging::user_pte_flags(&k.pg.mem, root, 0x43_1000), None);
}

#[test]
fn a_range_that_wraps_is_refused_where_a_gate_refuses_it() {
    let mut k = kernel(64);
    let a = proc::create(&mut k, "a").unwrap();
    let me = Cap { obj: CapObj::Process { pid: a }, rights: cap::RIGHTS_ALL };
    assert_eq!(cap::grant(&mut k.procs, a, me), Ok(0));
    let wide = memory(0xFFFF_FFFF_FFFF_F000, 16, cap::RIGHTS_READ);
    assert_eq!(cap::grant(&mut k.procs, a, wide), Ok(1));
    assert_eq!(
        cap::map_memory(&mut k, a, 1, 0, 0x43_0001, false, false),
        Err("map_memory: unaligned va or phys")
    );
    assert!(cap::map_memory(&mut k, a, 1, 0, 0x43_0000, true, false).is_err());
}

#[test]
fn a_trial_leaves_the_processes_of_before_alone() {
    let mut k = kernel(40);
    let own = proc::create(&mut k, "own").unwrap();
    let c = memory(0x5000, 1, cap::RIGHTS_READ);
    assert_eq!(cap::grant(&mut k.procs, own, c), Ok(0));
    let made = proc::created_total(&k.procs);
    let next = k.procs.next_pid;
    assert_eq!(m3::test_capability_spaces(&mut k), Ok(()));
    assert_eq!(proc::created_total(&k.procs), made + 2);
    assert_eq!(drills::test_capability_invoke(&mut k), Ok(()));
    assert_eq!(proc::created_total(&k.procs), made + 4);
    assert_eq!(m4::test_elf_load(&mut k, &payload()), Ok(()));
    assert_eq!(proc::created_total(&k.procs), made + 6);
    // The rounds want the whole table; they stop where it is full.
    assert!(m3::accounting_rounds(&mut k).is_err());
    assert_eq!(k.procs.next_pid - next, proc::created_total(&k.procs) - made);
    assert_eq!(cap::read(&k.procs, own, 0), Ok(c));
    // An error keeps them too, and what is new has a new number.
    while frames::free_frames(&k.fa) > 4 {
        frames::alloc_frame(&mut k.fa);
    }
    let mut i = Ipc::new();
    assert!(demos::ipc_echo_open(&mut k, &mut i).is_err());
    assert_eq!(cap::read(&k.procs, own, 0), Ok(c));
    for p in k.procs.slots.iter().flatten() {
        assert!(p.id == own || p.id >= next);
    }
}

#[test]
fn an_image_that_is_none_is_answered_with_its_fault() {
    let img = payload();
    let mut bad = payload();
    bad[0] = 0;
    let mut k = kernel(40);
    let why = elf::validate(&bad).err().unwrap();
    assert_eq!(m4::test_elf_load(&mut kernel(40), &bad), Err(why));
    assert_eq!(demos::first_process_open(&mut k, &bad).err(), Some(why));
    // A message outside the text.
    let mut far = payload();
    put(&mut far, 0x2028, &0x30_0000u64.to_le_bytes());
    assert_eq!(
        demos::first_process_open(&mut k, &far).err(),
        Some("META message span outside the file-backed text segment")
    );
    assert_eq!(proc::live_count(&k.procs), 0);
    // An image cut off before its data ends.
    assert!(demos::first_process_open(&mut k, &img[..0x2000 + 0x20]).is_err());
    assert_eq!(proc::live_count(&k.procs), 0);
    // One page less to clear: the frames spent are not the payload's.
    let mut short = payload();
    put(&mut short, 64 + 56 + 40, &0x1000u64.to_le_bytes());
    assert!(demos::first_process_open(&mut k, &short).is_err());
    assert!(m4::test_elf_load(&mut k, &short).is_err());
}

/// A page of `pid` at `va`, filled with `b`.
fn page_of(k: &mut Kernel, pid: u64, va: u64, b: u8) -> u64 {
    let f = frames::alloc_frame(&mut k.fa).unwrap();
    let root = proc::pml4_of(&k.procs, pid).unwrap();
    assert_eq!(
        paging::map_user_page_4k(&mut k.pg.mem, &mut k.fa, root, va, f, true, false),
        Ok(())
    );
    window::fill_frame(&mut k.pg.mem, f, b);
    f
}

/// The window of a message passing program: code to run, zeroed data and stack
/// to write, and nothing beside.
fn window_is_whole(k: &Kernel, pid: u64, first: u8) {
    let root = proc::pml4_of(&k.procs, pid).unwrap();
    assert_eq!(window::peek(&k.pg.mem, root, payloads::I_CODE), Some(first));
    for va in [payloads::I_DATA, payloads::I_STACK] {
        for i in [0, 1, 4095] {
            assert_eq!(window::peek(&k.pg.mem, root, va + i), Some(0));
        }
        let e = paging::user_pte_flags(&k.pg.mem, root, va).unwrap();
        assert!(e & paging::PTE_WRITE != 0 && e & paging::PTE_NX != 0 && e & paging::PTE_USER != 0);
    }
    let code = paging::user_pte_flags(&k.pg.mem, root, payloads::I_CODE).unwrap();
    assert!(code & paging::PTE_WRITE == 0 && code & paging::PTE_NX == 0);
    assert_eq!(paging::user_pte_flags(&k.pg.mem, root, payloads::I_CODE - 4096), None);
    assert_eq!(paging::user_pte_flags(&k.pg.mem, root, payloads::I_STACK_TOP), None);
}

#[test]
fn message_passing_programs_have_code_data_and_stack() {
    let mut k = kernel(40);
    let mut i = Ipc::new();
    let d = demos::ipc_echo_open(&mut k, &mut i).unwrap();
    window_is_whole(&k, d.srv, payloads::build_ipc_server()[0]);
    window_is_whole(&k, d.cli, payloads::build_ipc_client()[0]);
    let d = demos::spawn_restart_open(&mut k, &mut i).unwrap();
    window_is_whole(&k, d.sup, payloads::build_spawn_supervisor()[0]);
    let d = demos::console_line_open(&mut k).unwrap();
    window_is_whole(&k, d.pid, payloads::build_console_reader()[0]);
}

#[test]
fn what_stands_beside_a_trial_is_left_alone() {
    let mut k = kernel(64);
    let mut i = Ipc::new();
    k.pg.apic_base = 0xFEE0_0000;
    let own = proc::create(&mut k, "own").unwrap();
    page_of(&mut k, own, 0x41_0000, 0x5A);
    let root = proc::pml4_of(&k.procs, own).unwrap();
    let entry = paging::user_pte_flags(&k.pg.mem, root, 0x41_0000);
    let still = |k: &Kernel| {
        assert_eq!(paging::user_pte_flags(&k.pg.mem, root, 0x41_0000), entry);
        assert_eq!(paging::user_pte_flags(&k.pg.mem, root, 0x51_0000), None);
        for at in [0, 7, 4095] {
            assert_eq!(window::peek(&k.pg.mem, root, 0x41_0000 + at), Some(0x5A));
        }
        assert_eq!(k.pg.apic_base, 0xFEE0_0000);
        assert_eq!(views::cr3_phys(&k.pg), views::kernel_cr3_phys(&k.pg));
    };
    assert_eq!(m3::test_capability_spaces(&mut k), Ok(()));
    still(&k);
    assert_eq!(drills::test_process_address_spaces(&mut k, 0xFFFF_FFFF_8008_0000), Ok(()));
    still(&k);
    assert_eq!(drills::test_capability_invoke(&mut k), Ok(()));
    still(&k);
    assert_eq!(m4::test_elf_load(&mut k, &payload()), Ok(()));
    still(&k);
    assert!(m3::accounting_rounds(&mut k).is_err());
    still(&k);
    while let Some(p) = k.procs.slots.iter().flatten().map(|p| p.id).find(|p| *p != own) {
        assert_eq!(destroy(&mut k, p), Ok(1));
    }
    let d = demos::first_process_open(&mut k, &payload()).unwrap();
    still(&k);
    assert_eq!(demos::first_process_close(&mut k, &d), Ok(()));
    still(&k);
    let waits = ipc::stats(&i).waits;
    let d = demos::spawn_restart_open(&mut k, &mut i).unwrap();
    assert_eq!(demos::spawn_restart_close(&mut k, &mut i, &d), Ok(()));
    assert_eq!(ipc::stats(&i).waits, waits);
    still(&k);
    // Nor does a trial that runs out of frames touch it.
    while frames::free_frames(&k.fa) > 4 {
        frames::alloc_frame(&mut k.fa);
    }
    assert!(demos::console_line_open(&mut k).is_err());
    still(&k);
}

#[test]
fn a_window_comes_down_beside_memory_of_the_firmware() {
    let mut h = Handoff::new();
    handoff::push_region(
        &mut h,
        Region { kind: handoff::KIND_CONVENTIONAL, base: 0x10_0000, pages: 0x200, attribute: 0 },
    );
    handoff::push_region(
        &mut h,
        Region { kind: handoff::KIND_RUNTIME_SERVICES_DATA, base: 0x60_0000, pages: 2, attribute: 0 },
    );
    handoff::set_image_layout(&mut h, ImageLayout { base: 0x8_0000, size: 0x1000 });
    let mut fa = FrameAllocator::new();
    assert_eq!(frames::init(&mut fa, &h), Ok(()));
    let mut pg = Paging::new(vec![0u64; 0x300 * 512]);
    let root = views::build_kernel_view(&mut pg, &mut fa, &h, &kernel_image(), 0x8_0000).unwrap();
    assert_eq!(views::note_live(&mut pg, root, root), Ok(()));
    assert!(paging::translate(&pg.mem, root, 0x60_0000).is_some());
    let mut k = Kernel { fa, pg, procs: ProcTable::new() };
    let (_, after) = window::u3_setup(&mut k, &[0xF4], 16, b"hi").unwrap();
    assert_eq!(window::u3_teardown(&mut k, after), Ok(after + 3));
    assert!(paging::translate(&k.pg.mem, root, 0x60_0000).is_some());
    assert_eq!(
        window::u3_teardown(&mut k, after),
        Err("user page vanished from the kernel view")
    );
}

#[test]
fn the_image_tells_how_long_its_message_is() {
    let img = payload();
    assert_eq!(demos::message_length(&img), Ok(20));
    let mut bad = payload();
    bad[0] = 0;
    assert_eq!(demos::message_length(&bad), Err(elf::validate(&bad).err().unwrap()));
    // A data segment that ends within the description.
    let mut short = payload();
    short.truncate(0x2000 + 0x30);
    put(&mut short, 64 + 56 + 32, &0x30u64.to_le_bytes());
    assert_eq!(demos::message_length(&short), Err("image too short for META"));
}

#[test]
fn spawned_children_are_forgotten_and_destroyed() {
    let mut k = kernel(64);
    let a = proc::create(&mut k, "a").unwrap();
    page_of(&mut k, a, 0x41_0000, 1);
    let b = proc::create(&mut k, "b").unwrap();
    let live = views::cr3_phys(&k.pg);
    let mut kids = vec![(a, 70), (b, 71)];
    assert_eq!(demos::drop_children(&mut k, &mut kids, live), Ok(()));
    assert!(kids.is_empty());
    assert_eq!(frames::free_frames(&k.fa), 64);
    let c = proc::create(&mut k, "c").unwrap();
    let mut kids = vec![(b, 71), (c, 72)];
    assert_eq!(
        demos::drop_children(&mut k, &mut kids, live),
        Err("destroy: no such process")
    );
    assert_eq!(kids, vec![(c, 72)]);
    assert!(proc::pml4_of(&k.procs, c).is_some());
}

#[test]
fn the_processes_of_a_demonstration_go_by_their_names() {
    let mut k = kernel(64);
    let mut i = Ipc::new();
    let d = demos::ipc_echo_open(&mut k, &mut i).unwrap();
    let s = demos::spawn_restart_open(&mut k, &mut i).unwrap();
    let f = demos::first_process_open(&mut k, &payload()).unwrap();
    let want = [
        (d.srv, "ipcServer"),
        (d.cli, "ipcClient"),
        (s.sup, "supervisor"),
        (f.pid, "m4First"),
    ];
    let seen: Vec<(u64, &str)> = k.procs.slots.iter().flatten().map(|p| (p.id, p.name)).collect();
    assert_eq!(seen, want);
    assert!(k.procs.slots.iter().flatten().all(|p| p.exit_notif == (u32::MAX, 0)));
    // Nothing but the image and the stack is mapped for the first process.
    let root = proc::pml4_of(&k.procs, f.pid).unwrap();
    for page in 0x1F0u64..0x210 {
        let mapped = paging::user_pte_flags(&k.pg.mem, root, page * 4096).is_some();
        assert_eq!(mapped, (0x200..0x204).contains(&page), "{page:#x}");
    }
}

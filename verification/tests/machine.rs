//! The boot stage, the devices and the texts that the machine leaves.

use arenaos::boot;
use arenaos::bootinfo;
use arenaos::bootinfo::Asked;
use arenaos::cpu;
use arenaos::cpu::{CpuLeaves, CpuidResult};
use arenaos::entry;
use arenaos::faults;
use arenaos::faults::{Faults, ObservedFault};
use arenaos::gdt;
use arenaos::gdt::Gdt;
use arenaos::halt;
use arenaos::halt::{Halt, Stop};
use arenaos::idt;
use arenaos::idt::{InterruptStackFrame, Outcome, Stubs};
use arenaos::intc;
use arenaos::listing;
use arenaos::listing::Insn;
use arenaos::log;
use arenaos::log::Level;
use arenaos::m1;
use arenaos::m2;
use arenaos::m3;
use arenaos::m4;
use arenaos::m5;
use arenaos::memory_type;
use arenaos::memory_type::Fate;
use arenaos::payloads;
use arenaos::pci;
use arenaos::pci::{Bus, PciTable, RawFunction};
use arenaos::pit;
use arenaos::serial;
use arenaos::serial::{Putc, SerialConsole, Step, Trial};
use arenaos::suite;
use arenaos::timekeeping;
use arenaos::timekeeping::{Clock, Wait};
use arenaos::tss;
use arenaos::tss::Tss;
use arenaos::uefi;
use arenaos::uefi::{LoadedImageProtocol, Ucs2Str};

fn leaf(eax: u32, ebx: u32, ecx: u32, edx: u32) -> CpuidResult {
    CpuidResult { eax, ebx, ecx, edx }
}

#[test]
fn the_processor_is_described() {
    let word = |s: &[u8; 4]| u32::from_le_bytes(*s);
    let l = CpuLeaves {
        vendor: leaf(1, word(b"Genu"), word(b"ntel"), word(b"ineI")),
        features: leaf(0x0009_06EA, 0, 0, 1 << 26),
        ext_range: leaf(0x8000_0008, 0, 0, 0),
        ext_features: leaf(0, 0, 0, (1 << 20) | (1 << 29)),
        ext_sizes: leaf(0x3027, 0, 0, 0),
    };
    let c = cpu::cpu_info(&l);
    assert_eq!(&c.vendor, b"GenuineIntel");
    assert_eq!((c.family, c.model, c.stepping), (6, 158, 10));
    assert_eq!(c.phys_addr_bits, 39);
    assert_eq!(
        cpu::describe("GenuineIntel", &c),
        "vendor=GenuineIntel family=6 model=158 stepping=10 physaddr=39bit sse2=true nx=true longmode=true"
    );
    assert_eq!(m1::test_cpuid_sane(&c), Ok(()));
    let mut short = l;
    short.ext_range = leaf(0x8000_0000, 0, 0, 0);
    let c = cpu::cpu_info(&short);
    assert!(!c.has_nx && !c.has_long_mode && c.phys_addr_bits == 0);
    assert!(m1::test_cpuid_sane(&c).is_err());
}

#[test]
fn the_segment_table_and_the_task_state() {
    let mut g = Gdt::new();
    assert_eq!(g.entries[1], 0x00AF_9A00_0000_FFFF);
    assert_eq!(gdt::user_entries_readback(&g), gdt::expected_user_entries());
    assert_eq!(gdt::expected_gdt(0x1000), (0x1000, 63));
    let mut t = Tss::new();
    tss::init(&mut t, &mut g, 0x1234_5678_9ABC_DEF0, 0x8000);
    assert_eq!(tss::read_back_ist1(&t), 0xC000);
    assert_eq!(t.iomap_base, 104);
    assert_eq!(g.entries[3], 0x9A00_89BC_DEF0_0067);
    assert_eq!(g.entries[4], 0x1234_5678);
    tss::set_rsp0(&mut t, 0x7000);
    assert_eq!(tss::read_back_rsp0(&t), 0x7000);
    assert_eq!(tss::relocate_for_kernel(&mut t, &mut g, 0, 0x10, 0x1_0000), 0x1_0010);
    assert_eq!(tss::read_back_ist1(&t), 0x1_C000);
    assert_eq!(m2::test_tss_installed(0x18, 0x1_C000, 0x1_C000), Ok(()));
    assert!(m2::test_tss_installed(0x20, 1, 1).is_err());
    assert!(m2::test_tss_installed(0x18, 0, 0).is_err());
}

#[test]
fn the_built_interrupt_table_passes_its_audit() {
    let s = Stubs { exceptions: 0xFFFF_FFFF_8000_1000, ignore: 0xFFFF_FFFF_8000_2000 };
    let t = idt::init(&s);
    let mut words = idt::table_words(&t);
    assert_eq!(idt::audit_gates(&words, &s), (0, 0, 0));
    assert_eq!(idt::exc_stub_addr(&s, 3), 0xFFFF_FFFF_8000_1030);
    assert_eq!(words[6] & 0xFFFF, 0x1030);
    assert_eq!(idt::irq_stub_addr(&s), s.ignore);
    assert_eq!(idt::ist_for(8), 1);
    assert_eq!(idt::ist_for(3), 0);
    words[64] ^= 1;
    assert!(idt::audit_gates(&words, &s) != (0, 0, 0));
    assert_eq!(idt::expected_idt(0x500), (0x500, 4095));
    assert_eq!(m1::test_idt_installed((0x500, 4095), (0x500, 4095), (0, 0, 0)), Ok(()));
    assert!(m1::test_idt_installed((0x500, 4095), (0x500, 4095), (0, 1, 0)).is_err());
}

#[test]
fn an_expected_exception_resumes_and_another_stops() {
    let mut f = Faults::new();
    let frame = InterruptStackFrame { rip: 1, cs: 8, rflags: 2, rsp: 3, ss: 16 };
    faults::arm_with_resume(&mut f, 14, 0x99);
    match idt::exception_handler(&mut f, 14, 2, frame, m2::UNMAPPED_CANONICAL_ADDR) {
        Outcome::Resume(n) => assert_eq!((n.rip, n.cs, n.ss), (0x99, 8, 16)),
        Outcome::Stop(_) => panic!("stopped"),
    }
    assert_eq!(m2::test_exc_pf_recovered(faults::observed(&f)), Ok(()));
    match idt::exception_handler(&mut f, 13, 0x28, frame, 0) {
        Outcome::Resume(_) => panic!("resumed"),
        Outcome::Stop(line) => assert!(line.contains("#GP General Protection")),
    }
    assert_eq!(idt::vector_name(21), "unknown/reserved");
}

#[test]
fn observed_faults_are_judged() {
    let o = |valid, vector, error_code, cr2| ObservedFault { valid, vector, error_code, cr2 };
    assert_eq!(m2::test_exc_de_recovered(o(true, 0, 0, 0)), Ok(()));
    assert!(m2::test_exc_de_recovered(o(false, 0, 0, 0)).is_err());
    assert_eq!(
        m2::test_exc_pf_recovered(o(true, 14, 2, 0)),
        Err("CR2 did not report the faulting linear address")
    );
    assert_eq!(
        m2::test_exc_pf_recovered(o(true, 14, 3, m2::UNMAPPED_CANONICAL_ADDR)),
        Err("error code is not not-present+write for an unmapped write")
    );
}

#[test]
fn absorbed_interrupts_are_counted() {
    let s = Stubs { exceptions: 0x1000, ignore: 0x2000 };
    let mut t = idt::init(&s);
    idt::absorb(&mut t);
    idt::absorb(&mut t);
    assert_eq!(idt::absorbed_irq_count(&t), 2);
    assert_eq!(m1::test_timer_irq_absorbed(2), Ok(()));
    assert!(m1::test_timer_irq_absorbed(1).is_err());
    assert!(m1::ticks_awaited(1, 0));
    assert!(!m1::ticks_awaited(2, 0));
}

#[test]
fn the_memory_map_is_classified() {
    let mut b: Vec<u8> = Vec::new();
    for (kind, base, pages) in [(7u32, 0u64, 0x100u64), (4, 0x10_0000, 0x20), (7, 0x20_0000, 0x8000), (5, 0, 3), (0, 0, 9)] {
        b.extend(kind.to_le_bytes());
        b.extend([0u8; 4]);
        b.extend(base.to_le_bytes());
        b.extend(0u64.to_le_bytes());
        b.extend(pages.to_le_bytes());
        b.extend(0xFu64.to_le_bytes());
        b.extend([0u8; 8]);
    }
    assert!(bootinfo::is_countable(&b, b.len(), 48));
    let s = bootinfo::classify(&b, b.len(), 77, 48, 1);
    assert_eq!((s.region_count, s.map_key, s.descriptor_size), (5, 77, 48));
    assert_eq!(s.conventional_pages, 0x8100);
    assert_eq!(s.reclaimable_pages, 0x20);
    assert_eq!((s.runtime_pages, s.reserved_pages), (3, 9));
    assert_eq!((s.largest_conventional_base, s.largest_conventional_pages), (0x20_0000, 0x8000));
    assert_eq!(s.conventional_mib(), 129);
    assert_eq!(s.largest_conventional_mib(), 128);
    let v = bootinfo::for_each_region(&b, &s);
    assert_eq!(v.len(), 5);
    assert_eq!((v[2].memory_type, v[2].physical_start, v[2].number_of_pages), (7, 0x20_0000, 0x8000));
    assert_eq!(uefi::read_descriptor(&b, 48).number_of_pages, 0x20);
    assert_eq!(m1::test_memory_map(Some(&s)), Ok(()));
    assert!(m1::test_memory_map(None).is_err());
    let mut few = s;
    few.conventional_pages = 100;
    assert!(m1::test_memory_map(Some(&few)).is_err());
    // The two free regions no longer add up; one of them alone does.
    b[24..32].copy_from_slice(&u64::MAX.to_le_bytes());
    assert!(!bootinfo::is_countable(&b, b.len(), 48));
    assert!(bootinfo::is_countable(&b, 96, 48));
    assert!(bootinfo::is_countable(&b, b.len(), 8));
}

#[test]
fn memory_types_have_names_and_fates() {
    assert_eq!(memory_type::name(7), "ConventionalMemory");
    assert!(matches!(memory_type::fate(7), Fate::Free));
    assert!(matches!(memory_type::fate(3), Fate::Reclaimable));
    assert!(matches!(memory_type::fate(6), Fate::Runtime));
    assert!(matches!(memory_type::fate(11), Fate::Kept));
    assert!(matches!(memory_type::fate(99), Fate::Kept));
}

#[test]
fn a_short_buffer_is_asked_for_once_more() {
    assert!(matches!(bootinfo::capture(uefi::EFI_BUFFER_TOO_SMALL, 100, false), Asked::Again));
    assert!(matches!(bootinfo::capture(uefi::EFI_BUFFER_TOO_SMALL, 100, true), Asked::Failed(_)));
    assert!(matches!(bootinfo::capture(uefi::EFI_BUFFER_TOO_SMALL, 40_000, false), Asked::Failed(_)));
    assert!(matches!(bootinfo::capture(0, 100, false), Asked::Done));
    assert!(matches!(bootinfo::capture(7, 100, false), Asked::Failed(7)));
}

#[test]
fn firmware_strings_are_shown_as_ascii() {
    let s = Ucs2Str::new(Some(vec![b'E' as u16, 0x263A, b'k' as u16, 0, b'x' as u16]));
    assert_eq!(s.text(), b"E?k".to_vec());
    assert_eq!(Ucs2Str::new(None).text(), b"<null>".to_vec());
    let p = |image_base, image_size| LoadedImageProtocol { revision: 0, image_base, image_size };
    assert_eq!(uefi::loaded_image_info(0, 1, p(0x1000, 5)), Some((0x1000, 5)));
    assert_eq!(uefi::loaded_image_info(0, 1, p(0x1001, 5)), None);
    assert_eq!(uefi::loaded_image_info(0, 0, p(0x1000, 5)), None);
    assert_eq!(uefi::loaded_image_info(2, 1, p(0x1000, 5)), None);
    assert_eq!(uefi::loaded_image_protocol_guid().0, 0x5B1B_31A1);
}

#[test]
fn the_timer_is_programmed() {
    assert_eq!(pit::pit_divisor_for_hz(100), 11931);
    assert_eq!(pit::pit_divisor_for_hz(1), 65535);
    assert_eq!(pit::pit_divisor_for_hz(0), 65535);
    assert_eq!(pit::pit_divisor_for_hz(2_000_000), 2);
    let w = pit::set_periodic_hz(100);
    assert_eq!((w[0].port, w[0].value), (0x43, 0x36));
    assert_eq!((w[1].value, w[2].value), (0x9B, 0x2E));
    assert_eq!(pit::set_oneshot(0x1234)[2].value, 0x12);
    assert_eq!(pit::set_calibration_mode()[0].value, 0x34);
    assert_eq!(pit::latched_count(0x34, 0x12), 0x1234);
}

#[test]
fn a_window_counts_down_through_the_wrap() {
    let mut w = pit::window_start(100);
    pit::window_sample(&mut w, 40);
    assert!(pit::window_open(&w, 1000, 0));
    pit::window_sample(&mut w, 65500);
    assert_eq!(pit::window_end(&w, 5, 30), (60 + 76, 25));
    assert!(!pit::window_open(&w, 136, 0));
}

#[test]
fn the_clock_is_calibrated_twice() {
    let mut c = Clock::new();
    assert_eq!(timekeeping::ticks_to_us(&c, 1000), 0);
    assert_eq!(timekeeping::init(&mut c, 23_863, 40_000_000, 23_863, 40_000_000), Ok(()));
    let hz = timekeeping::tsc_hz(&c);
    assert_eq!(hz, 40_000_000u64 * 1_193_182 / 23_863);
    assert_eq!(timekeeping::ticks_to_us(&c, hz), 1_000_000);
    assert_eq!(timekeeping::now_ticks(7, 1), 0x1_0000_0007);
    assert!(timekeeping::now_us(&c, 0, 2) > timekeeping::now_us(&c, 0, 1));
    assert_eq!(
        timekeeping::init(&mut c, 0, 1, 1, 1),
        Err("calibration window measured zero (PIT or TSC not advancing?)")
    );
    assert_eq!(
        timekeeping::init(&mut c, 23_863, 40_000_000, 23_863, 50_000_000),
        Err("calibration windows disagree beyond tolerance")
    );
    assert_eq!(
        timekeeping::init(&mut c, 23_863, 1000, 23_863, 1000),
        Err("calibrated TSC frequency outside plausible bounds")
    );
    assert_eq!(timekeeping::tsc_hz(&c), hz);
}

#[test]
fn a_busy_wait_ends() {
    let c = Clock { tsc_hz: 1_000_000_000 };
    assert!(matches!(timekeeping::busy_wait_us(&c, 100, 150, 50, 0), Wait::Done));
    assert!(matches!(timekeeping::busy_wait_us(&c, 100, 149, 50, 0), Wait::Spin));
    assert!(matches!(timekeeping::busy_wait_us(&c, 100, 149, 50, 199_998), Wait::Spin));
    assert!(matches!(timekeeping::busy_wait_us(&c, 100, 149, 50, 199_999), Wait::Stuck));
    assert!(matches!(timekeeping::busy_wait_us(&c, 100, 149, 100, 199_999), Wait::Spin));
    let unmeasured = Clock::new();
    assert!(matches!(timekeeping::busy_wait_us(&unmeasured, 0, 0, 1, 0), Wait::Stuck));
}

#[test]
fn the_serial_line_is_set_up_and_tried() {
    let w = serial::init();
    assert_eq!((w[0].port, w[0].value), (0x3F9, 0));
    assert_eq!((w[2].port, w[2].value), (0x3F8, 3));
    assert_eq!((w[6].port, w[6].value), (0x3FC, 0x0B));
    assert!(matches!(serial::putc(0x20, 0), Putc::Send));
    assert!(matches!(serial::putc(0, 0), Putc::Wait));
    assert!(matches!(serial::putc(0, 9_999_999), Putc::Drop));
    assert_eq!(SerialConsole.write_str(b"a\nb"), b"a\r\nb".to_vec());
}

/// Run the loopback trial against a device that answers with `echo`.
fn trial(scratch_ok: bool, echo: fn(u8) -> u8) -> Result<(), &'static str> {
    let mut t = Trial::Begin;
    let mut scratch: u8 = 0;
    let mut sent: u8 = 0;
    let mut read: u8 = 0;
    for _ in 0..1000 {
        let (n, s) = serial::loopback_selftest(t, read);
        t = n;
        match s {
            Step::FirstScratch(x) | Step::Scratch(x) => {
                scratch = x;
                read = if scratch_ok { scratch } else { 0 };
            }
            Step::FirstProbe(x) | Step::Probe(x) => {
                sent = x;
                read = 0;
            }
            Step::Poll => read = 1,
            Step::Receive => read = echo(sent),
            Step::Pass => return Ok(()),
            Step::Fail(e) => return Err(e),
        }
    }
    panic!("no end");
}

#[test]
fn the_loopback_trial_notices_a_bad_line() {
    assert_eq!(trial(true, |x| x), Ok(()));
    assert_eq!(trial(true, |x| x ^ 1), Err("loopback: byte came back corrupted"));
    assert_eq!(
        trial(false, |x| x),
        Err("scratch register round-trip mismatch (no 16550 at COM1?)")
    );
}

#[test]
fn log_lines_and_suites() {
    assert_eq!(log::write(Level::Info, "boot", "up"), "[arena INFO  boot] up\n");
    assert_eq!(log::write(Level::Error, "halt", "x"), "[arena ERROR halt] x\n");
    assert_eq!(log::write_marker("m1: ok"), "m1: ok\n");
    let o = |name, result| suite::Outcome { name, result };
    assert_eq!(suite::marker("m9", o("b", Err("why"))), "m9:test:b: FAIL (why)");
    let r = suite::run_suite("m9", &[o("a", Ok(())), o("b", Err("why"))]);
    assert!(!r.passed);
    assert_eq!(r.lines.len(), 3);
    assert!(r.lines[0].starts_with("m9:test:a"));
    assert!(r.lines[1].contains("why"));
    assert_eq!(r.lines[2], "m9: RESULT FAIL (1/2)");
    assert_eq!(suite::run_rest("m9", 3, 3, &[o("a", Ok(()))]).lines[1], "m9: RESULT PASS (4/4)");
    assert_eq!(suite::count_passed(&[o("a", Ok(())), o("b", Err("why"))]), 1);
    let (rep, passed, total) = m1::run_all(&[Ok(()); 8]);
    assert!(rep.passed);
    assert_eq!((passed, total), (8, 8));
    assert_eq!(m2::run_all(&[Ok(()), Err("x"), Ok(())]).1, 2);
    assert_eq!(m1::test_wide_math(m1::wide(0xDEAD_BEEF_CAFE_BABE, 0x1234_5678_9ABC_DEF1)), Ok(()));
}

#[test]
fn numbers_are_written_out() {
    let mut s = String::new();
    log::append_decimal(&mut s, 0);
    s.push(' ');
    log::append_decimal(&mut s, 18_446_744_073_709_551_615);
    s.push(' ');
    log::append_hex(&mut s, 0xBEEF);
    assert!(s.starts_with("0 18446744073709551615 "));
    assert!(s.to_lowercase().ends_with("beef"));
}

#[test]
fn the_machine_stops_through_the_firmware_if_it_can() {
    let mut h = Halt { reset: 0 };
    assert!(matches!(halt::reset_shutdown(&h), Stop::Park));
    halt::set_reset_system(&mut h, 0x77);
    let (line, stop) = halt::halt_machine(&h, "done");
    assert_eq!(line, "[arena ERROR halt] halting machine: done\n");
    assert!(matches!(stop, Stop::Firmware { entry: 0x77, kind: 2, status: 0 }));
    let (line, _) = halt::panic(&h, Some(("a.rs", 12)), "no");
    assert_eq!(line, "\n[arena PANIC a.rs:12] no\n");
    assert_eq!(halt::panic(&h, None, "no").0, "\n[arena PANIC unknown-location] no\n");
}

#[test]
fn boot_goes_on_after_a_failed_suite_and_stops_without_memory() {
    let (p, a) = boot::efi_main(boot::Phase::Entry, boot::Event::Entered);
    assert!(matches!(a, boot::Action::CaptureFirmware));
    assert!(matches!(boot::efi_main(p, boot::Event::Done).1, boot::Action::InitConsole));
    let (_, a) = boot::efi_main(boot::Phase::MemoryMap, boot::Event::Tried(Err("no")));
    assert!(matches!(a, boot::Action::Halt("memory map capture failed")));
    let (_, a) = boot::efi_main(boot::Phase::FirstSuite, boot::Event::SuiteEnded(3, 8));
    assert!(matches!(a, boot::Action::InitTimekeeping));
    assert!(boot::farewell((8, 8), (3, 3)).contains("(m1 8/8, m2 3/3)"));
}

#[test]
fn the_kernel_stops_on_a_bad_record_or_a_failed_suite() {
    let (_, a) = entry::kmain(entry::Phase::Record, entry::Event::Entered(false));
    assert!(matches!(a, entry::Action::Halt("boot-info record invalid")));
    let (p, a) = entry::kmain(entry::Phase::Record, entry::Event::Entered(true));
    assert!(matches!(a, entry::Action::ReclaimDevices));
    assert!(matches!(entry::kmain(p, entry::Event::Done).1, entry::Action::RunEntryTests));
    let (_, a) = entry::kmain(entry::Phase::ThirdSuite, entry::Event::SuiteEnded(false));
    assert!(matches!(a, entry::Action::Halt("milestone 3 suite failed")));
    assert_eq!(entry::hpet_without_legacy(0xFF), 0xFD);
    assert_eq!(entry::shell_grants(4).len(), 3);
}

#[test]
fn interrupt_pins_are_routed() {
    let (hi, lo) = intc::route_pin_to_vector(2, 32);
    assert_eq!((hi.index, hi.value), (0x15, 0));
    assert_eq!((lo.index, lo.value), (0x14, 32));
    assert_eq!(intc::lapic_enable(0xFF), Some(0x1FF));
    assert_eq!(intc::lapic_enable(0x1FF), None);
}

fn empty_slot() -> RawFunction {
    RawFunction { words: [0xFFFF_FFFF; 64], sized: [0; 7] }
}

/// A modern virtio block device with its structures in the fourth window.
fn disk() -> RawFunction {
    let mut w: [u32; 64] = [0; 64];
    w[0] = 0x1042_1AF4;
    w[1] = 0x0010_0000;
    w[2] = 0x0100_0001;
    w[8] = 0xFEBD_0004;
    w[9] = 0;
    w[13] = 0x40;
    let mut at: usize = 0x10;
    for (i, kind) in [1u32, 2, 3, 4].iter().enumerate() {
        let next = if i == 3 { 0x90u32 } else { (at as u32 + 5) * 4 };
        w[at] = 0x09 | (next << 8) | (20 << 16) | (kind << 24);
        w[at + 1] = 4;
        w[at + 2] = 0x1000 * i as u32;
        w[at + 3] = 0x1000;
        w[at + 4] = 4;
        at += 5;
    }
    w[0x24] = 0x11 | (3 << 16);
    w[0x25] = 0x2000 | 4;
    RawFunction { words: w, sized: [0, 0, 0, 0, 0xFFFF_C004, 0xFFFF_FFFF, 0] }
}

fn bus() -> Bus {
    let mut slots: Vec<RawFunction> = Vec::new();
    for i in 0..256usize {
        slots.push(if i == 3 * 8 { disk() } else { empty_slot() });
    }
    Bus { slots }
}

#[test]
fn a_scan_finds_the_disk_and_its_structures() {
    let mut t = PciTable::new();
    let b = bus();
    let writes = pci::enumerate(&mut t, &b);
    assert_eq!(pci::pci_count(&t), 1);
    let f = pci::pci_function(&t, 0).unwrap();
    assert_eq!((f.dev, f.func, f.vendor_id, f.device_id), (3, 0, 0x1AF4, 0x1042));
    assert_eq!((f.bar_base[4], f.bar_size[4], f.bar_is_io[4]), (0xFEBD_0000, 0x4000, false));
    assert_eq!(pci::virtio_count(&t), 1);
    let d = pci::find_virtio(&t, pci::VIRTIO_TYPE_BLOCK).unwrap();
    assert!(!d.transitional && d.common.present && d.device_cfg.present && d.msix.present);
    assert_eq!((d.notify.bar, d.notify.offset, d.notify.length), (4, 0x1000, 0x1000));
    assert_eq!(d.notify_off_multiplier, 4);
    assert_eq!((d.msix.table_size, d.msix.table_bar, d.msix.table_offset), (4, 4, 0x2000));
    assert_eq!(writes.len(), 1);
    assert_eq!(writes[0].value & 6, 6);
    assert_eq!(writes[0].value >> 16, 0);
    assert_eq!(m5::test_pci_scan(&t, Some(6)), Ok(()));
    assert!(m5::test_pci_scan(&t, Some(2)).is_err());
    assert!(m5::test_pci_scan(&PciTable::new(), None).is_err());
    assert_eq!(pci::enumerate(&mut t, &b).len(), 0);
    assert_eq!(pci::config_read16_of(&t, &b, 0, 0), Some(0x1AF4));
    assert_eq!(pci::slots_to_size(&b), vec![24]);
}

#[test]
fn configuration_addresses_and_windows() {
    assert_eq!(pci::config_address(0, 3, 1, 0x10), 0x8000_1910);
    assert_eq!(pci::size_bar(0, 0, 0, 0), (0, 0, false, false));
    assert_eq!(pci::size_bar(0xC001, 0xFFFF_FFE1, 0, 0), (0xC000, 0x20, true, false));
    assert_eq!(pci::size_bar(0xFE00_0000, 0xFFFF_F000, 0, 0), (0xFE00_0000, 0x1000, false, false));
    assert_eq!(
        pci::size_bar(0x0000_000C, 0xFFFF_C00C, 0x80, 0xFFFF_FFFF),
        (0x80_0000_0000, 0x4000, false, true)
    );
}

#[test]
fn instructions_are_encoded() {
    assert_eq!(listing::assemble(&[Insn::MovEax(1), Insn::Syscall]), vec![0xB8, 1, 0, 0, 0, 0x0F, 0x05]);
    assert_eq!(listing::assemble(&[Insn::Cli, Insn::Pause]), vec![0xFA, 0xF3, 0x90]);
    assert_eq!(listing::assemble(&[Insn::Stay]), vec![0xEB, 0xFE]);
    assert_eq!(listing::assemble_with(&[Insn::Cli], b"hi"), vec![0xFA, b'h', b'i']);
}

#[test]
fn payloads_end_in_their_message_and_fit_a_page() {
    let (a, off) = payloads::build_payload_a();
    assert_eq!(&a[off..off + 18], &payloads::u3_msg_a()[..]);
    let (b, off) = payloads::build_payload_b(1000);
    assert_eq!(&b[off..off + 14], &payloads::u3_msg_b()[..]);
    let (c, off) = payloads::build_abi_payload();
    assert_eq!(&c[off..off + 18], &payloads::m4_msg()[..]);
    for p in [
        a,
        b,
        c,
        payloads::build_exit_payload(),
        payloads::build_ipc_client(),
        payloads::build_ipc_server(),
        payloads::build_spawn_supervisor(),
        payloads::build_console_reader(),
        payloads::build_untyped_payload(14, 15),
        payloads::build_mmio_payload(15),
    ] {
        assert!(p.len() > 10 && p.len() <= 4096);
    }
}

#[test]
fn suites_name_their_tests_in_order() {
    assert_eq!(m3::test_name(0), "thread_spawn_run");
    assert_eq!(m3::test_name(12), "capability_invoke");
    assert_eq!(m4::test_name(6), "ipc_echo");
    assert_eq!(m5::test_name(3), "irq_relay");
    let mut results: [Result<(), &'static str>; 9] = [Ok(()); 9];
    assert!(m4::run_suite(&results).passed);
    results[8] = Err("why");
    let r = m4::run_suite(&results);
    assert!(!r.passed);
    assert_eq!(r.lines[8], "m4:test:console_line: FAIL (why)");
    assert_eq!(r.lines[9], "m4: RESULT FAIL (8/9)");
    assert_eq!(m3::run_suite(&[Ok(()); 13]).lines[13], "m3: RESULT PASS (13/13)");
    assert_eq!(m5::run_suite(&[Ok(()); 4]).lines[0], "m5:test:pci_scan: PASS");
}

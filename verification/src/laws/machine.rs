//! What the machine is told, and what it tells: clock, timer, gates and faults.

use crate::bytes;
use crate::cap::{Cap, CapObj};
use crate::cpu;
use crate::cpu::{CpuInfo, CpuLeaves};
use crate::entry;
use crate::faults::Faults;
use crate::gdt;
use crate::gdt::Gdt;
use crate::idt;
use crate::idt::{Idt, InterruptStackFrame, Stubs};
use crate::intc;
use crate::intc::RegWrite;
use crate::laws::{le, lemma_nth_byte, nth_byte};
use crate::pit;
use crate::ports::PortWrite;
use crate::syscall;
use crate::syscall::UserEntry;
use crate::timekeeping;
use crate::timekeeping::{Clock, Wait};
use crate::tss;
use crate::tss::Tss;
use vstd::prelude::*;

verus! {

/// A counter that makes `hz` ticks a second makes so many while the oscillator
/// of 1193182 hertz makes `counts`.
pub open spec fn keeps_time(hz: int, counts: int, ticks: int) -> bool {
    ticks * 1_193_182 == hz * counts
}

/// A counter's rate is found: where both windows measured a counter that keeps
/// time, its rate is what the clock has then.
pub proof fn law_rate_is_found(
    c0: Clock,
    c1: Clock,
    n1: u64,
    t1: u64,
    n2: u64,
    t2: u64,
    hz: int,
    r: Result<(), &'static str>,
)
    requires
        timekeeping::rate_found(&c0, &c1, n1, t1, n2, t2, r),
        n1 > 0 && n2 > 0 && t1 > 0 && t2 > 0,
        keeps_time(hz, n1 as int, t1 as int),
        keeps_time(hz, n2 as int, t2 as int),
    ensures
        r is Ok <==> 100_000_000 <= hz <= 8_000_000_000,
        r is Ok ==> c1.tsc_hz == hz,
        r is Err ==> c1 == c0,
{
    assert(hz > 0) by (nonlinear_arith)
        requires
            t1 * 1_193_182 == hz * n1,
            n1 > 0,
            t1 > 0,
    ;
    vstd::arithmetic::div_mod::lemma_div_multiples_vanish(hz, n1 as int);
    vstd::arithmetic::div_mod::lemma_div_multiples_vanish(hz, n2 as int);
    assert(hz * n1 == n1 * hz) by (nonlinear_arith);
    assert(hz * n2 == n2 * hz) by (nonlinear_arith);
    assert(timekeeping::rate(n1 as int, t1 as int) == hz);
    assert(timekeeping::rate(n2 as int, t2 as int) == hz);
}

/// Two windows that disagree by more than a twentieth give no rate.
pub proof fn law_disagreement_is_refused(
    c0: Clock,
    c1: Clock,
    n1: u64,
    t1: u64,
    n2: u64,
    t2: u64,
    a: int,
    b: int,
    r: Result<(), &'static str>,
)
    requires
        timekeeping::rate_found(&c0, &c1, n1, t1, n2, t2, r),
        n1 > 0 && n2 > 0 && t1 > 0 && t2 > 0,
        keeps_time(a, n1 as int, t1 as int),
        keeps_time(b, n2 as int, t2 as int),
        20 * b > 21 * a + 20 || 20 * a > 21 * b + 20,
        a > 0 && b > 0,
    ensures
        r is Err,
        c1 == c0,
{
    vstd::arithmetic::div_mod::lemma_div_multiples_vanish(a, n1 as int);
    vstd::arithmetic::div_mod::lemma_div_multiples_vanish(b, n2 as int);
    assert(a * n1 == n1 * a) by (nonlinear_arith);
    assert(b * n2 == n2 * b) by (nonlinear_arith);
    assert(timekeeping::rate(n1 as int, t1 as int) == a);
    assert(timekeeping::rate(n2 as int, t2 as int) == b);
}

/// Two windows that agree within a twentieth give a rate between theirs.
pub proof fn law_agreement_is_accepted(
    c0: Clock,
    c1: Clock,
    n1: u64,
    t1: u64,
    n2: u64,
    t2: u64,
    a: int,
    b: int,
    r: Result<(), &'static str>,
)
    requires
        timekeeping::rate_found(&c0, &c1, n1, t1, n2, t2, r),
        n1 > 0 && n2 > 0 && t1 > 0 && t2 > 0,
        keeps_time(a, n1 as int, t1 as int),
        keeps_time(b, n2 as int, t2 as int),
        100_000_000 <= a <= b <= 8_000_000_000,
        20 * (b - a) <= a - 20,
    ensures
        r is Ok,
        a <= c1.tsc_hz <= b,
        a + b - 2 <= 2 * c1.tsc_hz <= a + b,
{
    vstd::arithmetic::div_mod::lemma_div_multiples_vanish(a, n1 as int);
    vstd::arithmetic::div_mod::lemma_div_multiples_vanish(b, n2 as int);
    assert(a * n1 == n1 * a) by (nonlinear_arith);
    assert(b * n2 == n2 * b) by (nonlinear_arith);
    assert(timekeeping::rate(n1 as int, t1 as int) == a);
    assert(timekeeping::rate(n2 as int, t2 as int) == b);
}

/// Ticks are told in whole microseconds: a microsecond is a millionth of the
/// counter's rate.
pub proof fn law_microseconds(c: Clock, ticks: u64, r: u64)
    requires
        c.wf(),
        c.tsc_hz > 0,
        timekeeping::ticks_are(&c, ticks, r),
    ensures
        r * c.tsc_hz <= ticks * 1_000_000 < (r + 1) * c.tsc_hz,
{
    let hz = c.tsc_hz as int;
    let x = ticks * 1_000_000;
    vstd::arithmetic::div_mod::lemma_fundamental_div_mod(x, hz);
    vstd::arithmetic::div_mod::lemma_mod_bound(x, hz);
    assert((r + 1) * hz == r * hz + hz) by (nonlinear_arith);
    assert(hz * (x / hz) == (x / hz) * hz) by (nonlinear_arith);
}

/// A wait is over when the time is up, not before.
pub proof fn law_wait_ends_in_time(
    c: Clock,
    start: u64,
    now: u64,
    us: u64,
    spins: u64,
    r: Wait,
)
    requires
        start <= now,
        timekeeping::wait_answer(&c, start, now, us, spins, r),
    ensures
        r is Done <==> start + us <= now,
{
}

/// The timer is programmed to tick at a rate: it is told to make a square wave,
/// and then, low byte first, the divisor that comes nearest from below.
pub proof fn law_timer_ticks_at_the_rate(hz: u32, r: [PortWrite; 3])
    requires
        pit::periodic_writes(hz, r),
        19 <= hz <= 596_591,
    ensures
        r@[0] == (PortWrite { port: 0x43, value: 0x36 }),
        r@[1].port == 0x40,
        r@[2].port == 0x40,
        ({
            let d = r@[1].value + 256 * r@[2].value;
            d * hz <= 1_193_182 < (d + 1) * hz
        }),
{
    let h = hz as int;
    let d = 1_193_182int / h;
    vstd::arithmetic::div_mod::lemma_fundamental_div_mod(1_193_182int, h);
    vstd::arithmetic::div_mod::lemma_mod_bound(1_193_182int, h);
    assert((d + 1) * h == d * h + h) by (nonlinear_arith);
    assert(h * d == d * h) by (nonlinear_arith);
    assert(2 <= d <= 65535) by (nonlinear_arith)
        requires
            d * h <= 1_193_182 < (d + 1) * h,
            19 <= h <= 596_591,
    ;
    assert(pit::divisor(hz) == d);
    let w = d as u16;
    assert(w % 256 + 256 * (w / 256) == w);
}

/// Each vector's gate leads to its own entry: sixteen bytes apart for the first
/// 32, one for all others. It is an interrupt gate for the kernel's code, and
/// it changes to the fault stack for vectors 2, 8 and 18.
pub proof fn law_gates_lead_to_their_entries(t: Idt, s: Stubs, v: int)
    requires
        idt::built(&t, s),
        s.exceptions + 512 <= u64::MAX,
        0 <= v < 256,
    ensures
        t.gates@.len() == 256,
        ({
            let g = t.gates@[v];
            let at = g.offset_low + 0x1_0000 * g.offset_mid + 0x1_0000_0000 * g.offset_high;
            &&& v < 32 ==> at == s.exceptions + 16 * v
            &&& v >= 32 ==> at == s.ignore
            &&& g.selector == 8
            &&& g.type_attr == 0x8E
            &&& g.ist == (if v == 2 || v == 8 || v == 18 {
                1int
            } else {
                0
            })
            &&& g.reserved == 0
        }),
{
    let h = idt::entry_of(s, v);
    assert(t.gates@[v] == idt::gate(h as u64, idt::spec_ist_for(v)));
    assert(h / 0x1_0000 == h / 0x1_0000 % 0x1_0000 + 0x1_0000 * (h / 0x1_0000 / 0x1_0000));
    assert(h / 0x1_0000 / 0x1_0000 == h / 0x1_0000_0000);
}

/// A fault that was announced is gone on from where it was said, once, and is
/// remembered; the interrupted code loses nothing but its place. Any other
/// fault, and the same one again, stops the machine.
pub proof fn law_announced_fault_is_survived(
    f0: Faults,
    f1: Faults,
    f2: Faults,
    f3: Faults,
    told: u8,
    resume: u64,
    v: u64,
    code: u64,
    frame: InterruptStackFrame,
    cr2: u64,
    r: idt::Outcome,
    w: u64,
    code2: u64,
    frame2: InterruptStackFrame,
    cr22: u64,
    q: idt::Outcome,
)
    requires
        crate::faults::fault_armed(&f0, &f1, told, resume),
        told < 32,
        resume != 0,
        idt::exception_answer(&f1, &f2, v, code, frame, cr2, r),
        idt::exception_answer(&f2, &f3, w, code2, frame2, cr22, q),
    ensures
        v == told ==> {
            &&& r == idt::Outcome::Resume(InterruptStackFrame { rip: resume, ..frame })
            &&& f2.seen.valid && f2.seen.vector == v && f2.seen.error_code == code
            &&& v == 14 ==> f2.seen.cr2 == cr2
            &&& q is Stop
        },
        v != told ==> r is Stop,
{
}

/// The segments lie where the selectors say: kernel code and data at 0x08 and
/// 0x10, user data and code at 0x28 and 0x30, each for its own ring.
pub proof fn law_selectors_find_their_segments()
    ensures
        ({
            let e = gdt::fresh_entries();
            &&& e.len() == 7
            &&& e[0] == 0
            &&& gdt::is_code(e[1]) && gdt::is_long(e[1]) && gdt::level(e[1])
                == 0
            &&& gdt::is_data(e[2]) && gdt::level(e[2]) == 0
            &&& gdt::is_data(e[5]) && gdt::level(e[5]) == 3
            &&& gdt::is_code(e[6]) && gdt::is_long(e[6]) && gdt::level(e[6])
                == 3
        }),
{
    gdt::law_segment_levels();
}

/// The task state is set up with the end of the fault stack, and the table's
/// entries 3 and 4 lead to it; no other entry changes.
pub proof fn law_task_state_is_found(t0: Tss, t1: Tss, g0: Gdt, g1: Gdt, base: u64, stack: u64)
    requires
        stack + 0x4000 <= u64::MAX,
        tss::tss_built(&t0, &t1, &g0, &g1, base, stack),
    ensures
        t1.ist@[0] == stack + 0x4000,
        t1.iomap_base == 104,
        tss::base_in(g1.entries@[3], g1.entries@[4]) == base,
        g1.entries@[3] & 0xFFFF == 103,
        gdt::present(g1.entries@[3]),
        forall|i: int| 0 <= i < 7 && i != 3 && i != 4 ==> #[trigger] g1.entries@[i]
            == g0.entries@[i],
{
    tss::law_descriptor(base);
}

/// A pin's two registers, from 0x10 on, are set so that its interrupt comes as
/// the vector; the half with the mask comes last.
pub proof fn law_pin_comes_as_the_vector(pin: u8, vector: u8, r: (RegWrite, RegWrite))
    requires
        intc::pin_routed(pin, vector, r),
    ensures
        r.0.index == 0x11 + 2 * pin && r.0.value == 0,
        r.1.index == 0x10 + 2 * pin && r.1.value == vector,
{
}

proof fn lemma_flags(efer: u64, cr4: u64)
    by (bit_vector)
    ensures
        (efer | 1) & 1 == 1,
        (efer | 1) & !1u64 == efer & !1u64,
        0x20u64 << 48 | 8u64 << 32 == 0x0020_0008_0000_0000u64,
        0x4_4700u64 & 0x100 != 0 && 0x4_4700u64 & 0x200 != 0 && 0x4_4700u64 & 0x400 != 0 && 0x4_4700u64
            & 0x4_0000 != 0,
        0x202u64 & 0x200 != 0 && 0x202u64 & 0x3000 == 0,
        (cr4 | 0x10_0000) & 0x10_0000 != 0,
        (cr4 | 0x20_0000) & 0x20_0000 != 0,
        (cr4 | 0x10_0000 | 0x20_0000) & 0x10_0000 != 0,
        (cr4 | 0x10_0000 | 0x20_0000) & 0x20_0000 != 0,
        (cr4 | 0x10_0000) & !0x30_0000u64 == cr4 & !0x30_0000u64,
        (cr4 | 0x20_0000) & !0x30_0000u64 == cr4 & !0x30_0000u64,
        (cr4 | 0x10_0000 | 0x20_0000) & !0x30_0000u64 == cr4 & !0x30_0000u64,
        1u32 | 2u32 == 3,
{
}

/// System calls are switched on (bit 0) and lead to the entry, with the
/// kernel's scratch space at hand; the call clears the flags for traps,
/// interrupts, direction and alignment.
pub proof fn law_system_calls_lead_to_the_entry(efer: u64, entry: u64, scratch: u64)
    ensures
        ({
            let m = syscall::msrs_for(efer, entry, scratch);
            &&& m.efer & 1 == 1
            &&& m.efer & !1u64 == efer & !1u64
            &&& m.star == 0x0020_0008_0000_0000
            &&& m.lstar == entry
            &&& m.kernel_gs_base == scratch
            &&& m.sfmask & 0x100 != 0
            &&& m.sfmask & 0x200 != 0
            &&& m.sfmask & 0x400 != 0
            &&& m.sfmask & 0x4_0000 != 0
        }),
{
    lemma_flags(efer, 0);
}

/// The kernel keeps itself from running user memory (bit 20) and from reading
/// it unawares (bit 21), where the processor can; no other bit changes.
pub proof fn law_kernel_is_kept_from_user_memory(cr4: u64, smep: bool, smap: bool)
    ensures
        ({
            let r = syscall::cr4_with(cr4, smep, smap);
            &&& smep ==> r & 0x10_0000 != 0
            &&& smap ==> r & 0x20_0000 != 0
            &&& r & !0x30_0000u64 == cr4 & !0x30_0000u64
            &&& !smep && !smap ==> r == cr4
        }),
{
    lemma_flags(0, cr4);
}

/// User code starts where it was said, on its own stack, in ring 3, with
/// interrupts on and without the right to ports.
pub proof fn law_user_code_starts_in_ring_3(
    top: Option<u64>,
    rip: u64,
    rsp: u64,
    r: Result<UserEntry, &'static str>,
)
    requires
        syscall::user_entered(top, rip, rsp, r),
    ensures
        r is Ok <==> top is Some,
        r matches Ok(e) ==> {
            &&& Some(e.kernel_top) == top
            &&& e.rip == rip
            &&& e.rsp == rsp
            &&& e.cs == 0x33
            &&& e.ss == 0x2B
            &&& e.rflags & 0x200 != 0
            &&& e.rflags & 0x3000 == 0
        },
{
    lemma_flags(0, 0);
}

/// What a thread ended with is what was written down first for it.
pub proof fn law_end_is_on_record(exits: Seq<(u64, u64)>, id: u64, i: int)
    requires
        0 <= i <= exits.len(),
    ensures
        match syscall::exit_at(exits, id, i) {
            Some(st) => exists|k: int|
                i <= k < exits.len() && #[trigger] exits[k] == (id, st) && forall|j: int|
                    i <= j < k ==> (#[trigger] exits[j]).0 != id,
            None => forall|k: int| i <= k < exits.len() ==> (#[trigger] exits[k]).0 != id,
        },
    decreases exits.len() - i,
{
    if i < exits.len() {
        law_end_is_on_record(exits, id, i + 1);
        if exits[i].0 == id {
            assert(exits[i] == (id, exits[i].1));
        }
    }
}

/// The shell may stop the machine, read its image, and signal and wait for its
/// children's ends, and nothing more.
pub proof fn law_shell_gets_three_capabilities(nid: u32)
    ensures
        ({
            let c = entry::shell_caps(nid);
            &&& c.len() == 3
            &&& c[0] == (Cap { obj: CapObj::Power, rights: 2 })
            &&& c[1] == (Cap { obj: CapObj::Image { img_id: 0 }, rights: 1 })
            &&& c[2] == (Cap { obj: CapObj::Notification { nid }, rights: 3 })
        }),
{
    lemma_flags(0, 0);
}

proof fn lemma_four(v: Seq<u8>, at: int, x: u32)
    requires
        0 <= at,
        forall|k: int| 0 <= k < 4 ==> #[trigger] v[at + k] == bytes::le_byte(x as int, k),
    ensures
        le(v, at, 4) == x,
{
    reveal_with_fuel(le, 5);
    lemma_nth_byte(x as int, 0);
    lemma_nth_byte(x as int, 1);
    lemma_nth_byte(x as int, 2);
    lemma_nth_byte(x as int, 3);
    reveal_with_fuel(nth_byte, 4);
    assert(v[at + 0] == x as int % 256);
    assert(v[at + 1] == x as int / 256 % 256);
    assert(v[at + 2] == x as int / 256 / 256 % 256);
    assert(v[at + 3] == x as int / 256 / 256 / 256 % 256);
}

/// What is known of the processor is what it says: twelve letters of its maker,
/// from three registers in the order b, d, c; its family, model and stepping;
/// and what it can do. What it says beyond its range does not count.
pub proof fn law_processor_is_identified(l: &CpuLeaves, r: CpuInfo)
    requires
        cpu::identified(l, r),
    ensures
        le(r.vendor@, 0, 4) == l.vendor.ebx,
        le(r.vendor@, 4, 4) == l.vendor.edx,
        le(r.vendor@, 8, 4) == l.vendor.ecx,
        ({
            let a = l.features.eax as int;
            let family = a / 0x100 % 16;
            &&& r.stepping == a % 16
            &&& r.family == (if family == 15 {
                15 + a / 0x10_0000 % 256
            } else {
                family
            })
            &&& r.model == (if family >= 6 {
                a / 16 % 16 + 16 * (a / 0x1_0000 % 16)
            } else {
                a / 16 % 16
            })
        }),
        r.has_sse2 <==> l.features.edx & (1u32 << 26) != 0,
        r.has_nx <==> l.ext_range.eax >= 0x8000_0001 && l.ext_features.edx & (1u32 << 20) != 0,
        r.has_long_mode <==> l.ext_range.eax >= 0x8000_0001 && l.ext_features.edx & (1u32 << 29)
            != 0,
        l.ext_range.eax >= 0x8000_0008 ==> r.phys_addr_bits == l.ext_sizes.eax % 256,
        l.ext_range.eax < 0x8000_0008 ==> r.phys_addr_bits == 0,
{
    let v = r.vendor@;
    let b = bytes::le_bytes(l.vendor.ebx as int, 4);
    let d = bytes::le_bytes(l.vendor.edx as int, 4);
    let c = bytes::le_bytes(l.vendor.ecx as int, 4);
    assert(v == b + d + c);
    assert forall|k: int| 0 <= k < 4 implies #[trigger] v[0 + k] == bytes::le_byte(
        l.vendor.ebx as int,
        k,
    ) by {
        assert(v[k] == b[k]);
    }
    assert forall|k: int| 0 <= k < 4 implies #[trigger] v[4 + k] == bytes::le_byte(
        l.vendor.edx as int,
        k,
    ) by {
        assert(v[4 + k] == d[k]);
    }
    assert forall|k: int| 0 <= k < 4 implies #[trigger] v[8 + k] == bytes::le_byte(
        l.vendor.ecx as int,
        k,
    ) by {
        assert(v[8 + k] == c[k]);
    }
    lemma_four(v, 0, l.vendor.ebx);
    lemma_four(v, 4, l.vendor.edx);
    lemma_four(v, 8, l.vendor.ecx);
}

} // verus!

//! The table of interrupt gates, and what an exception comes to.

use vstd::prelude::*;
use vstd::string::*;
use crate::faults;
use crate::faults::Faults;
use crate::gdt::KERNEL_CODE_SELECTOR;
use crate::log;

verus! {

/// A present 64-bit interrupt gate of the kernel.
pub const GATE_INT64_PRESENT: u8 = 0x8E;
pub const NUM_VECTORS: usize = 256;
/// How far the entry points of two neighbouring exceptions are apart.
pub const EXC_STUB_STRIDE: u64 = 16;
/// The table's limit.
pub const IDT_LIMIT: u16 = 4095;

/// What the processor pushes when it takes an interrupt.
#[derive(Clone, Copy, Debug, PartialEq, Eq, Structural)]
pub struct InterruptStackFrame {
    pub rip: u64,
    pub cs: u64,
    pub rflags: u64,
    pub rsp: u64,
    pub ss: u64,
}

/// One gate, field by field.
#[derive(Clone, Copy, Debug, PartialEq, Eq, Structural)]
pub struct IdtGate {
    pub offset_low: u16,
    pub selector: u16,
    pub ist: u8,
    pub type_attr: u8,
    pub offset_mid: u16,
    pub offset_high: u32,
    pub reserved: u32,
}

/// Where the entry points lie: the first of the exceptions', and the one that
/// all other interrupts share.
#[derive(Clone, Copy, Debug, PartialEq, Eq, Structural)]
pub struct Stubs {
    pub exceptions: u64,
    pub ignore: u64,
}

/// The table and the number of interrupts that were taken and let go.
pub struct Idt {
    pub gates: Vec<IdtGate>,
    pub absorbed: u64,
}

pub open spec fn spec_ist_for(vector: int) -> u8 {
    if vector == 2 || vector == 8 || vector == 18 {
        1
    } else {
        0
    }
}

/// The stack that a vector switches to: the fault stack for those that must
/// survive a broken one, else none.
pub fn ist_for(vector: usize) -> (r: u8)
    ensures
        r == spec_ist_for(vector as int),
{
    match vector {
        2 | 8 | 18 => 1,
        _ => 0,
    }
}

/// An interrupt gate for an entry point.
pub open spec fn gate(handler: u64, ist: u8) -> IdtGate {
    IdtGate {
        offset_low: (handler % 0x1_0000) as u16,
        selector: KERNEL_CODE_SELECTOR,
        ist,
        type_attr: GATE_INT64_PRESENT,
        offset_mid: (handler / 0x1_0000 % 0x1_0000) as u16,
        offset_high: (handler / 0x1_0000_0000) as u32,
        reserved: 0,
    }
}

/// Where the entry point for `vector` lies.
pub open spec fn entry_of(s: Stubs, vector: int) -> int {
    if vector < 32 {
        s.exceptions + vector * EXC_STUB_STRIDE
    } else {
        s.ignore as int
    }
}

fn make_gate(handler: u64, ist: u8) -> (r: IdtGate)
    ensures
        r == gate(handler, ist),
{
    IdtGate {
        offset_low: (handler % 0x1_0000) as u16,
        selector: KERNEL_CODE_SELECTOR,
        ist,
        type_attr: GATE_INT64_PRESENT,
        offset_mid: (handler / 0x1_0000 % 0x1_0000) as u16,
        offset_high: (handler / 0x1_0000_0000) as u32,
        reserved: 0,
    }
}

/// Where the entry point of exception `vector` lies.
pub fn exc_stub_addr(s: &Stubs, vector: usize) -> (r: u64)
    requires
        vector < 32,
        s.exceptions + 32 * EXC_STUB_STRIDE <= u64::MAX,
    ensures
        r == entry_of(*s, vector as int),
{
    s.exceptions + vector as u64 * EXC_STUB_STRIDE
}

/// Where the entry point of the other interrupts lies.
pub fn irq_stub_addr(s: &Stubs) -> (r: u64)
    ensures
        r == s.ignore,
{
    s.ignore
}

fn entry_point(s: &Stubs, vector: usize) -> (r: u64)
    requires
        s.exceptions + 32 * EXC_STUB_STRIDE <= u64::MAX,
    ensures
        r == entry_of(*s, vector as int),
{
    if vector < 32 {
        exc_stub_addr(s, vector)
    } else {
        irq_stub_addr(s)
    }
}

/// The table in order.
pub open spec fn built(t: &Idt, s: Stubs) -> bool {
    &&& t.gates@.len() == NUM_VECTORS
    &&& forall|v: int|
        0 <= v < NUM_VECTORS ==> #[trigger] t.gates@[v] == gate(
            entry_of(s, v) as u64,
            spec_ist_for(v),
        )
}

/// Build the table: every exception at its own entry point, all other vectors
/// at the shared one.
pub fn init(s: &Stubs) -> (t: Idt)
    requires
        s.exceptions + 32 * EXC_STUB_STRIDE <= u64::MAX,
    ensures
        built(&t, *s),
        t.absorbed == 0,
{
    let mut gates: Vec<IdtGate> = Vec::new();
    let mut vector: usize = 0;
    while vector < NUM_VECTORS
        invariant
            vector <= NUM_VECTORS,
            s.exceptions + 32 * EXC_STUB_STRIDE <= u64::MAX,
            gates@.len() == vector,
            forall|v: int|
                0 <= v < vector ==> #[trigger] gates@[v] == gate(
                    entry_of(*s, v) as u64,
                    spec_ist_for(v),
                ),
        decreases NUM_VECTORS - vector,
    {
        gates.push(make_gate(entry_point(s, vector), ist_for(vector)));
        vector = vector + 1;
    }
    Idt { gates, absorbed: 0 }
}

/// The two words that a gate is in memory.
pub open spec fn gate_words(g: IdtGate) -> (int, int) {
    (
        g.offset_low + 0x1_0000 * g.selector + 0x1_0000_0000 * g.ist + 0x100_0000_0000 * g.type_attr
            + 0x1_0000_0000_0000 * g.offset_mid,
        g.offset_high + 0x1_0000_0000 * g.reserved,
    )
}

/// The words of the table, as the processor walks it.
pub fn table_words(t: &Idt) -> (r: Vec<u64>)
    requires
        t.gates@.len() == NUM_VECTORS,
    ensures
        r@.len() == 512,
        forall|v: int|
            0 <= v < NUM_VECTORS ==> #[trigger] word_pair(r@, v) == gate_words(t.gates@[v]),
{
    let mut out: Vec<u64> = Vec::new();
    let mut v: usize = 0;
    while v < NUM_VECTORS
        invariant
            v <= NUM_VECTORS,
            t.gates@.len() == NUM_VECTORS,
            out@.len() == 2 * v,
            forall|i: int|
                0 <= i < v ==> #[trigger] word_pair(out@, i) == gate_words(t.gates@[i]),
        decreases NUM_VECTORS - v,
    {
        let g: IdtGate = t.gates[v];
        let ghost before = out@;
        let lo: u64 = g.offset_low as u64 + 0x1_0000 * (g.selector as u64) + 0x1_0000_0000 * (
        g.ist as u64) + 0x100_0000_0000 * (g.type_attr as u64) + 0x1_0000_0000_0000 * (
        g.offset_mid as u64);
        let hi: u64 = g.offset_high as u64 + 0x1_0000_0000 * (g.reserved as u64);
        out.push(lo);
        out.push(hi);
        assert forall|i: int| 0 <= i < v + 1 implies #[trigger] word_pair(out@, i) == gate_words(
            t.gates@[i],
        ) by {
            if i < v {
                assert(word_pair(before, i) == gate_words(t.gates@[i]));
            }
        }
        v = v + 1;
    }
    out
}

/// Words `2v` and `2v + 1`.
pub open spec fn word_pair(words: Seq<u64>, v: int) -> (int, int) {
    (words[2 * v] as int, words[2 * v + 1] as int)
}

/// A vector's selector is not the kernel's.
pub open spec fn bad_selector(lo: int) -> bool {
    lo / 0x1_0000 % 0x1_0000 != KERNEL_CODE_SELECTOR
}

/// A vector's kind or its stack is not what vector `v` asks for.
pub open spec fn bad_attrs(lo: int, v: int) -> bool {
    lo / 0x100_0000_0000 % 256 != GATE_INT64_PRESENT || lo / 0x1_0000_0000 % 256 != spec_ist_for(v)
}

/// A vector leads somewhere else.
pub open spec fn bad_offset(lo: int, hi: int, want: int) -> bool {
    lo % 0x1_0000 + lo / 0x1_0000_0000_0000 * 0x1_0000 + hi % 0x1_0000_0000 * 0x1_0000_0000 != want
}

/// How many of the first `n` gates are bad in their selector, their kind or
/// stack, and their entry point.
pub open spec fn faults_below(words: Seq<u64>, s: Stubs, n: int) -> (int, int, int)
    decreases n,
{
    if n <= 0 {
        (0, 0, 0)
    } else {
        let (a, b, c) = faults_below(words, s, n - 1);
        let (lo, hi) = word_pair(words, n - 1);
        (
            a + (if bad_selector(lo) {
                1int
            } else {
                0
            }),
            b + (if bad_attrs(lo, n - 1) {
                1int
            } else {
                0
            }),
            c + (if bad_offset(lo, hi, entry_of(s, n - 1)) {
                1int
            } else {
                0
            }),
        )
    }
}

/// Count the gates of a table in memory that are not as they should be.
pub fn audit_gates(words: &[u64], s: &Stubs) -> (r: (usize, usize, usize))
    requires
        words@.len() == 512,
        s.exceptions + 32 * EXC_STUB_STRIDE <= u64::MAX,
    ensures
        (r.0 as int, r.1 as int, r.2 as int) == faults_below(words@, *s, NUM_VECTORS as int),
{
    let mut bad_sel: usize = 0;
    let mut bad_attr: usize = 0;
    let mut bad_off: usize = 0;
    let mut v: usize = 0;
    while v < NUM_VECTORS
        invariant
            v <= NUM_VECTORS,
            words@.len() == 512,
            s.exceptions + 32 * EXC_STUB_STRIDE <= u64::MAX,
            bad_sel <= v,
            bad_attr <= v,
            bad_off <= v,
            (bad_sel as int, bad_attr as int, bad_off as int) == faults_below(words@, *s, v as int),
        decreases NUM_VECTORS - v,
    {
        let lo: u64 = words[2 * v];
        let hi: u64 = words[2 * v + 1];
        let sel: u64 = lo / 0x1_0000 % 0x1_0000;
        let ist_byte: u64 = lo / 0x1_0000_0000 % 256;
        let attrs: u64 = lo / 0x100_0000_0000 % 256;
        let offset: u64 = lo % 0x1_0000 + lo / 0x1_0000_0000_0000 * 0x1_0000 + hi % 0x1_0000_0000
            * 0x1_0000_0000;
        let want: u64 = entry_point(s, v);
        if sel != KERNEL_CODE_SELECTOR as u64 {
            bad_sel = bad_sel + 1;
        }
        if attrs != GATE_INT64_PRESENT as u64 || ist_byte != ist_for(v) as u64 {
            bad_attr = bad_attr + 1;
        }
        if offset != want {
            bad_off = bad_off + 1;
        }
        v = v + 1;
    }
    (bad_sel, bad_attr, bad_off)
}

/// A table as it is built passes its audit.
pub proof fn law_built_table_is_sound(t: Idt, words: Seq<u64>, s: Stubs, n: int)
    requires
        built(&t, s),
        words.len() == 512,
        s.exceptions + 32 * EXC_STUB_STRIDE <= u64::MAX,
        forall|v: int|
            0 <= v < NUM_VECTORS ==> #[trigger] word_pair(words, v) == gate_words(t.gates@[v]),
        0 <= n <= NUM_VECTORS,
    ensures
        faults_below(words, s, n) == (0int, 0int, 0int),
    decreases n,
{
    if n > 0 {
        law_built_table_is_sound(t, words, s, n - 1);
        let v = n - 1;
        let h = entry_of(s, v) as u64;
        let g = t.gates@[v];
        assert(word_pair(words, v) == gate_words(g));
        lemma_gate_words(h, spec_ist_for(v));
    }
}

proof fn lemma_gate_words(h: u64, ist: u8)
    ensures
        ({
            let (lo, hi) = gate_words(gate(h, ist));
            &&& lo / 0x1_0000 % 0x1_0000 == KERNEL_CODE_SELECTOR
            &&& lo / 0x100_0000_0000 % 256 == GATE_INT64_PRESENT
            &&& lo / 0x1_0000_0000 % 256 == ist
            &&& lo % 0x1_0000 + lo / 0x1_0000_0000_0000 * 0x1_0000 + hi % 0x1_0000_0000
                * 0x1_0000_0000 == h
        }),
{
    let (lo, hi) = gate_words(gate(h, ist));
    let a = h as int % 0x1_0000;
    let m = h as int / 0x1_0000 % 0x1_0000;
    let z = h as int / 0x1_0000_0000;
    assert(lo == a + 0x1_0000 * 8 + 0x1_0000_0000 * ist + 0x100_0000_0000 * 0x8E
        + 0x1_0000_0000_0000 * m);
    assert(lo % 0x1_0000 == a);
    assert(lo / 0x1_0000 == 8 + 0x1_0000 * (ist + 256 * (0x8E + 256 * m)));
    assert(lo / 0x1_0000_0000 == ist + 256 * (0x8E + 256 * m));
    assert(lo / 0x100_0000_0000 == 0x8E + 256 * m);
    assert(lo / 0x1_0000_0000_0000 == m);
    assert(hi == z);
    assert(z < 0x1_0000_0000);
    assert(h as int / 0x1_0000 / 0x1_0000 == z);
}

/// What the processor must report of the table that lies at `base`.
pub fn expected_idt(base: u64) -> (r: (u64, u16))
    ensures
        r == (base, IDT_LIMIT),
{
    (base, IDT_LIMIT)
}

/// How many interrupts were taken and let go.
pub fn absorbed_irq_count(t: &Idt) -> (r: u64)
    ensures
        r == t.absorbed,
{
    t.absorbed
}

/// An interrupt was taken and let go.
pub fn absorb(t: &mut Idt)
    ensures
        final(t).gates == old(t).gates,
        final(t).absorbed == (if old(t).absorbed == u64::MAX {
            0
        } else {
            (old(t).absorbed + 1) as u64
        }),
{
    t.absorbed = if t.absorbed == u64::MAX {
        0
    } else {
        t.absorbed + 1
    };
}

/// The name of an exception.
#[verifier::allow_in_spec]
pub fn vector_name(v: u64) -> &'static str
    returns
        (match v {
            0 => "#DE Divide Error",
            1 => "#DB Debug",
            2 => "NMI",
            3 => "#BP Breakpoint",
            4 => "#OF Overflow",
            5 => "#BR Bound Range",
            6 => "#UD Invalid Opcode",
            7 => "#NM Device Not Available",
            8 => "#DF Double Fault",
            10 => "#TS Invalid TSS",
            11 => "#NP Segment Not Present",
            12 => "#SS Stack-Segment Fault",
            13 => "#GP General Protection",
            14 => "#PF Page Fault",
            16 => "#MF x87 FPU Error",
            17 => "#AC Alignment Check",
            18 => "#MC Machine Check",
            19 => "#XF SIMD Floating Point",
            20 => "#CP Control Protection",
            28 => "#HV Hypervisor Injection",
            29 => "#VC VMM Communication",
            30 => "#SX Security Exception",
            _ => "unknown/reserved",
        }),
{
    match v {
        0 => "#DE Divide Error",
        1 => "#DB Debug",
        2 => "NMI",
        3 => "#BP Breakpoint",
        4 => "#OF Overflow",
        5 => "#BR Bound Range",
        6 => "#UD Invalid Opcode",
        7 => "#NM Device Not Available",
        8 => "#DF Double Fault",
        10 => "#TS Invalid TSS",
        11 => "#NP Segment Not Present",
        12 => "#SS Stack-Segment Fault",
        13 => "#GP General Protection",
        14 => "#PF Page Fault",
        16 => "#MF x87 FPU Error",
        17 => "#AC Alignment Check",
        18 => "#MC Machine Check",
        19 => "#XF SIMD Floating Point",
        20 => "#CP Control Protection",
        28 => "#HV Hypervisor Injection",
        29 => "#VC VMM Communication",
        30 => "#SX Security Exception",
        _ => "unknown/reserved",
    }
}

/// What an exception comes to.
pub enum Outcome {
    /// Go on with this frame.
    Resume(InterruptStackFrame),
    /// Write this line and stop the machine.
    Stop(String),
}

/// The line that is written of an exception that nobody expected.
pub open spec fn fault_line(vector: u64, error_code: u64, f: InterruptStackFrame, cr2: u64) -> Seq<
    char,
> {
    "[arena PANIC fault] vector="@ + log::hex_byte(vector as nat) + " ("@ + vector_name(vector)@
        + ") error_code="@ + log::hex(error_code as nat) + " rip="@ + log::hex(f.rip as nat)
        + " cs="@ + log::hex(f.cs as nat) + " rflags="@ + log::hex(f.rflags as nat) + " rsp="@
        + log::hex(f.rsp as nat) + " ss="@ + log::hex(f.ss as nat) + " cr2="@ + log::hex(
        cr2 as nat,
    )
}

fn write_fault(vector: u64, error_code: u64, f: InterruptStackFrame, cr2: u64) -> (r: String)
    ensures
        r@ == fault_line(vector, error_code, f, cr2),
{
    let mut s: String = String::from_str("[arena PANIC fault] vector=");
    log::append_hex_byte(&mut s, vector);
    s.append(" (");
    s.append(vector_name(vector));
    s.append(") error_code=");
    log::append_hex(&mut s, error_code);
    s.append(" rip=");
    log::append_hex(&mut s, f.rip);
    s.append(" cs=");
    log::append_hex(&mut s, f.cs);
    s.append(" rflags=");
    log::append_hex(&mut s, f.rflags);
    s.append(" rsp=");
    log::append_hex(&mut s, f.rsp);
    s.append(" ss=");
    log::append_hex(&mut s, f.ss);
    s.append(" cr2=");
    log::append_hex(&mut s, cr2);
    s
}

/// What [`exception_handler`] answers and does.
pub open spec fn exception_answer(
    fl0: &Faults,
    fl1: &Faults,
    vector: u64,
    error_code: u64,
    frame: InterruptStackFrame,
    cr2: u64,
    r: Outcome,
) -> bool {
    &&& ({
        let at = if vector == 14 {
            cr2
        } else {
            0
        };
        if faults::expected(fl0, vector) && fl0.resume != 0 {
            &&& r matches Outcome::Resume(f) && f == (InterruptStackFrame {
                rip: fl0.resume,
                ..frame
            })
            &&& fl1.armed == 0
            &&& fl1.resume == fl0.resume
            &&& fl1.seen == (faults::ObservedFault {
                valid: true,
                vector,
                error_code,
                cr2: at,
            })
        } else {
            &&& r matches Outcome::Stop(line) && line@ == fault_line(
                vector,
                error_code,
                frame,
                at,
            )
            &&& *fl1 == (if faults::expected(fl0, vector) {
                Faults { armed: 0, ..*fl0 }
            } else {
                *fl0
            })
        }
    })
}

/// An exception came.  `cr2` is the address of a page fault, and counts for
/// no other exception.  One that a test expects is noted, and the test goes on
/// where it said; any other stops the machine.
pub fn exception_handler(
    fl: &mut Faults,
    vector: u64,
    error_code: u64,
    frame: InterruptStackFrame,
    cr2: u64,
) -> (r: Outcome)
    ensures
        exception_answer(old(fl), final(fl), vector, error_code, frame, cr2, r),
{
    let at: u64 = if vector == 14 {
        cr2
    } else {
        0
    };
    if let Some(resume) = faults::take_expected(fl, vector) {
        faults::record(fl, vector, error_code, at);
        let mut f: InterruptStackFrame = frame;
        f.rip = resume;
        return Outcome::Resume(f);
    }
    Outcome::Stop(write_fault(vector, error_code, frame, at))
}

} // verus!

//! What is told to people and passed on to programs: numbers, lines, sums of
//! memory, interrupts.

use crate::bootinfo;
use crate::bootinfo::MemoryMapSummary;
use crate::ipc::Ipc;
use crate::laws::{le, lemma_le};
use crate::log;
use crate::log::Level;
use crate::memory_type;
use crate::memory_type::Fate;
use crate::ports::PortWrite;
use crate::preempt;
use crate::preempt::Preempt;
use crate::relay;
use crate::relay::Relays;
use crate::serial;
use crate::status::Status;
use crate::syscall;
use crate::syscall::Syscalls;
use crate::uefi;
use vstd::prelude::*;

verus! {

/// What a digit is worth.
pub open spec fn worth(c: char) -> int {
    if '0' <= c <= '9' {
        c as int - '0' as int
    } else if 'a' <= c <= 'f' {
        c as int - 'a' as int + 10
    } else {
        -1
    }
}

/// What the digits say, read to this base.
pub open spec fn reads(s: Seq<char>, base: int) -> int
    decreases s.len(),
{
    if s.len() == 0 {
        0
    } else {
        reads(s.drop_last(), base) * base + worth(s.last())
    }
}

/// All are digits to this base, and the first is no zero unless it is alone.
pub open spec fn digits(s: Seq<char>, base: int) -> bool {
    &&& s.len() > 0
    &&& forall|i: int| 0 <= i < s.len() ==> 0 <= worth(#[trigger] s[i]) < base
    &&& s.len() > 1 ==> s[0] != '0'
}

/// A number in decimal reads as itself.
pub proof fn law_decimal_reads_back(n: nat)
    ensures
        reads(log::decimal(n), 10) == n,
        digits(log::decimal(n), 10),
    decreases n,
{
    let s = log::decimal(n);
    reveal_with_fuel(reads, 2);
    if n < 10 {
        assert(s.drop_last() =~= Seq::<char>::empty());
        assert(s.last() == log::digit(n as int));
    } else {
        law_decimal_reads_back(n / 10);
        assert(s.drop_last() =~= log::decimal(n / 10));
        assert(s[0] == log::decimal(n / 10)[0]);
        if n / 10 < 10 {
            assert(log::decimal(n / 10) =~= seq![log::digit(n as int / 10)]);
        }
    }
}

/// A number in hexadecimal reads as itself.
pub proof fn law_hexadecimal_reads_back(n: nat)
    ensures
        reads(log::hex_digits(n), 16) == n,
        digits(log::hex_digits(n), 16),
    decreases n,
{
    let s = log::hex_digits(n);
    reveal_with_fuel(reads, 2);
    if n < 16 {
        assert(s.drop_last() =~= Seq::<char>::empty());
        assert(s.last() == log::hex_digit(n as int));
    } else {
        law_hexadecimal_reads_back(n / 16);
        assert(s.drop_last() =~= log::hex_digits(n / 16));
        assert(s[0] == log::hex_digits(n / 16)[0]);
        if n / 16 < 16 {
            assert(log::hex_digits(n / 16) =~= seq![log::hex_digit(n as int / 16)]);
        }
    }
}

/// With its prefix, it is the digits behind "0x"; a byte has at least two.
pub proof fn law_hexadecimal_has_its_prefix(n: nat)
    ensures
        log::hex(n)[0] == '0' && log::hex(n)[1] == 'x',
        log::hex(n).skip(2) == log::hex_digits(n),
        log::hex_byte(n)[0] == '0' && log::hex_byte(n)[1] == 'x',
        n < 16 ==> log::hex_byte(n).len() == 4 && log::hex_byte(n)[2] == '0' && reads(
            log::hex_byte(n).skip(3),
            16,
        ) == n,
        n >= 16 ==> log::hex_byte(n) == log::hex(n),
{
    reveal_strlit("0x");
    reveal_strlit("0x0");
    law_hexadecimal_reads_back(n);
    assert(log::hex(n).skip(2) =~= log::hex_digits(n));
    if n < 16 {
        assert(log::hex_byte(n).skip(3) =~= log::hex_digits(n));
    }
}

/// A line has its level in five columns, then where it comes from, then its
/// text.
pub proof fn law_line_has_its_parts(module: Seq<char>, text: Seq<char>)
    ensures
        log::line_of(Level::Info, module, text) == "[arena INFO  "@ + module + "] "@ + text
            + "\n"@,
        log::line_of(Level::Warn, module, text) == "[arena WARN  "@ + module + "] "@ + text
            + "\n"@,
        log::line_of(Level::Error, module, text) == "[arena ERROR "@ + module + "] "@ + text
            + "\n"@,
{
    reveal_strlit("[arena ");
    reveal_strlit("INFO");
    reveal_strlit("WARN");
    reveal_strlit("ERROR");
    reveal_strlit(" ");
    reveal_strlit("[arena INFO  ");
    reveal_strlit("[arena WARN  ");
    reveal_strlit("[arena ERROR ");
    reveal_with_fuel(log::padded, 3);
    assert(log::line_of(Level::Info, module, text) =~= "[arena INFO  "@ + module + "] "@ + text
        + "\n"@);
    assert(log::line_of(Level::Warn, module, text) =~= "[arena WARN  "@ + module + "] "@ + text
        + "\n"@);
    assert(log::line_of(Level::Error, module, text) =~= "[arena ERROR "@ + module + "] "@ + text
        + "\n"@);
}

/// What is sent for a text is what is sent for its parts; a line feed goes out
/// behind a carriage return, any other byte as it is.
pub proof fn law_text_goes_out_byte_by_byte(a: Seq<u8>, b: Seq<u8>, x: u8)
    ensures
        serial::sent(a + b) == serial::sent(a) + serial::sent(b),
        x == 0x0A ==> serial::sent(seq![x]) == seq![0x0Du8, 0x0Au8],
        x != 0x0A ==> serial::sent(seq![x]) == seq![x],
        serial::sent(Seq::<u8>::empty()) == Seq::<u8>::empty(),
    decreases b.len(),
{
    let one = seq![x];
    assert(one.drop_last() =~= Seq::<u8>::empty());
    reveal_with_fuel(serial::sent, 2);
    assert(serial::sent(one) =~= (if x == 0x0A {
        seq![0x0Du8, 0x0Au8]
    } else {
        seq![x]
    }));
    if b.len() == 0 {
        assert(a + b =~= a);
        assert(serial::sent(a) + serial::sent(b) =~= serial::sent(a));
    } else {
        law_text_goes_out_byte_by_byte(a, b.drop_last(), x);
        assert((a + b).drop_last() =~= a + b.drop_last());
        assert((a + b).last() == b.last());
        assert(serial::sent(a + b) =~= serial::sent(a) + serial::sent(b));
    }
}

/// The serial port is set up for 38400 baud, eight bits without parity, with
/// its interrupts off: the divisor 3 goes to the data port while the line
/// register's top bit is on.
pub proof fn law_serial_port_is_set_up()
    ensures
        ({
            let w = serial::init_writes();
            &&& w.len() == 7
            &&& w[0] == (PortWrite { port: 0x3F9, value: 0 })
            &&& w[1] == (PortWrite { port: 0x3FB, value: 0x80 })
            &&& w[2] == (PortWrite { port: 0x3F8, value: 3 })
            &&& w[3] == (PortWrite { port: 0x3F9, value: 0 })
            &&& w[4] == (PortWrite { port: 0x3FB, value: 3 })
            &&& w[5].port == 0x3FA
            &&& w[6].port == 0x3FC
        }),
{
}

/// A byte is sent just where the device says, by bit 5 of its status, that it
/// can take one.
pub proof fn law_byte_waits_for_the_device(lsr: u8, spins: u32, r: serial::Putc)
    requires
        serial::putc_answer(lsr, spins, r),
    ensures
        r is Send <==> lsr & 0x20 != 0,
{
}

/// How many pages the first `n` descriptors have that are of one of these
/// kinds. A descriptor has its kind in its first four bytes and its pages in
/// the eight from byte 24 on.
pub open spec fn pages(b: Seq<u8>, stride: int, n: int, kinds: Set<int>) -> int
    decreases n,
{
    if n <= 0 {
        0
    } else {
        let at = (n - 1) * stride;
        pages(b, stride, n - 1, kinds) + (if kinds.contains(le(b, at, 4)) {
            le(b, at + 24, 8)
        } else {
            0
        })
    }
}

/// The kinds of memory that share a fate; all others are kept.
pub open spec fn kinds(f: Fate) -> Set<int> {
    match f {
        Fate::Free => set![7int],
        Fate::Reclaimable => set![3int, 4, 9],
        Fate::Runtime => set![5int, 6, 10],
        Fate::Kept => Set::new(|t: int| !(3 <= t <= 7 || t == 9 || t == 10)),
    }
}

proof fn lemma_pages(b: Seq<u8>, stride: int, n: int, f: Fate)
    ensures
        bootinfo::pages_of(b, stride, n, f) == pages(b, stride, n, kinds(f)),
    decreases n,
{
    if n > 0 {
        lemma_pages(b, stride, n - 1, f);
        let at = (n - 1) * stride;
        lemma_le(b, at);
        lemma_le(b, at + 24);
        let t = le(b, at, 4);
        assert(bootinfo::region(b, stride, n - 1).memory_type == t);
        assert((memory_type::fate_of(t as u32) == f) == kinds(f).contains(t));
    }
}

/// The memory map is summed up by what becomes of memory: type 7 is free, types
/// 3, 4 and 9 will be, types 5, 6 and 10 are the firmware's, and the rest is
/// kept.
pub proof fn law_memory_is_summed_up(
    b: &[u8],
    size: usize,
    key: usize,
    stride: usize,
    version: u32,
    r: MemoryMapSummary,
)
    requires
        bootinfo::classified(b, size, key, stride, version, r),
        stride >= 40,
    ensures
        ({
            let n = size as int / stride as int;
            &&& r.region_count == n
            &&& r.conventional_pages == pages(b@, stride as int, n, set![7int])
            &&& r.reclaimable_pages == pages(b@, stride as int, n, set![3int, 4, 9])
            &&& r.runtime_pages == pages(b@, stride as int, n, set![5int, 6, 10])
            &&& r.reserved_pages == pages(b@, stride as int, n, kinds(Fate::Kept))
        }),
        r.map_key == key,
{
    let n = size as int / stride as int;
    lemma_pages(b@, stride as int, n, Fate::Free);
    lemma_pages(b@, stride as int, n, Fate::Reclaimable);
    lemma_pages(b@, stride as int, n, Fate::Runtime);
    lemma_pages(b@, stride as int, n, Fate::Kept);
}

/// An interrupt of a vector that was registered is a signal: its badge is
/// pending at the notification, and who sleeps for that is woken. That goes for
/// vectors 48 to 63; any other, and one that was released, tells nobody.
pub proof fn law_interrupt_is_passed_on(
    r0: Relays,
    r1: Relays,
    vector: u64,
    nid: u32,
    badge: u64,
    o: Result<(), &'static str>,
    r2: Relays,
    i0: Ipc,
    i1: Ipc,
    p: Result<Option<u64>, Status>,
)
    requires
        r0.wf(),
        i0.wf(),
        relay::relay_registered(&r0, &r1, vector, nid, badge, o),
        relay::relay_handled(&r1, &r2, &i0, &i1, vector, p),
        nid < 8,
        i0.notifs@[nid as int].live,
    ensures
        o is Ok <==> 48 <= vector < 64 && badge != 0 && !r0.slots@[vector - 48].live,
        o is Ok ==> {
            let n = i0.notifs@[nid as int];
            &&& i1.notifs@[nid as int].pending == n.pending | badge
            &&& p == Ok::<Option<u64>, Status>(
                if n.waiter == 0xFFFF_FFFF_FFFF_FFFF {
                    None
                } else {
                    Some(n.waiter)
                },
            )
            &&& forall|j: int| 0 <= j < 8 && j != nid ==> #[trigger] i1.notifs@[j] == i0.notifs@[j]
        },
        !(48 <= vector < 64) ==> i1 == i0 && p == Ok::<Option<u64>, Status>(None),
{
}

/// After a release the vector is free again, and its interrupt tells nobody.
pub proof fn law_released_vector_is_silent(
    r0: Relays,
    r1: Relays,
    vector: u64,
    o: Result<(), &'static str>,
    r2: Relays,
    i0: Ipc,
    i1: Ipc,
    p: Result<Option<u64>, Status>,
)
    requires
        r0.wf(),
        relay::relay_released(&r0, &r1, vector, o),
        relay::relay_handled(&r1, &r2, &i0, &i1, vector, p),
    ensures
        o is Ok <==> 48 <= vector < 64 && r0.slots@[vector - 48].live,
        48 <= vector < 64 ==> !r1.slots@[vector - 48].live && i1 == i0 && p == Ok::<
            Option<u64>,
            Status,
        >(None),
{
}

/// A descriptor's parts lie at their own bytes: its type at 0, where it starts
/// at 8, its pages at 24 and its attributes at 32.
pub proof fn law_descriptor_has_its_parts(b: Seq<u8>, at: int)
    ensures
        ({
            let d = uefi::descriptor_at(b, at);
            &&& d.memory_type == le(b, at, 4)
            &&& d.physical_start == le(b, at + 8, 8)
            &&& d.virtual_start == le(b, at + 16, 8)
            &&& d.number_of_pages == le(b, at + 24, 8)
            &&& d.attribute == le(b, at + 32, 8)
        }),
{
    lemma_le(b, at);
    lemma_le(b, at + 8);
    lemma_le(b, at + 16);
    lemma_le(b, at + 24);
    lemma_le(b, at + 32);
}

/// The largest free part of memory is one of those that are free, and none of
/// them has more pages. Without free memory it is nothing.
pub proof fn law_largest_is_free(b: Seq<u8>, stride: int, n: int)
    requires
        0 <= n,
    ensures
        ({
            let r = bootinfo::largest(b, stride, n);
            &&& r.1 > 0 ==> exists|i: int|
                0 <= i < n && le(b, #[trigger] (i * stride), 4) == 7 && r.0 == le(
                    b,
                    i * stride + 8,
                    8,
                ) && r.1 == le(b, i * stride + 24, 8)
            &&& r.1 == 0 ==> r.0 == 0
            &&& forall|i: int|
                0 <= i < n && le(b, #[trigger] (i * stride), 4) == 7 ==> le(b, i * stride + 24, 8)
                    <= r.1
        }),
    decreases n,
{
    if n > 0 {
        law_largest_is_free(b, stride, n - 1);
        let at = (n - 1) * stride;
        law_descriptor_has_its_parts(b, at);
        lemma_le(b, at);
        lemma_le(b, at + 24);
        assert(bootinfo::region(b, stride, n - 1) == uefi::descriptor_at(b, at));
    }
}

/// A debug write is kept as it was, and told how long it was.
pub proof fn law_debug_write_is_kept(s0: Syscalls, s1: Syscalls, bytes: Vec<u8>, r: Status)
    requires
        bytes@.len() <= 256,
        s0.stats.write_bytes + 256 <= u64::MAX,
        syscall::debug_recorded(&s0, &s1, bytes, r),
    ensures
        s1.last@ == bytes@,
        r == bytes@.len(),
        s1.stats.write_bytes == s0.stats.write_bytes + bytes@.len(),
        s1.exits == s0.exits,
{
}

/// A turn from one thread to another is counted, and kept as both numbers,
/// where it came from in the upper half, while there is room.
pub proof fn law_turn_is_on_record(a: Preempt, b: Preempt, from: int, to: int)
    requires
        preempt::recorded(&a, &b, from, to),
        0 <= from < 0x1_0000_0000,
        0 <= to < 0x1_0000_0000,
    ensures
        b.log@.len() > a.log@.len() ==> {
            let e = b.log@.last() as int;
            &&& b.log@.len() == a.log@.len() + 1
            &&& e / 0x1_0000_0000 == from
            &&& e % 0x1_0000_0000 == to
        },
        forall|i: int| 0 <= i < a.log@.len() ==> #[trigger] b.log@[i] == a.log@[i],
        a.count < u64::MAX ==> b.count == a.count + 1,
        b.on == a.on,
{
}

} // verus!

//! The checks of the fourth stage that need nothing but kernel objects: the
//! program image, its loading, and the setting up of its processes.

use vstd::prelude::*;
use crate::accounts;
use crate::bytes;
use crate::console;
use crate::console::{Console, ConsoleStats};
use crate::elf;
use crate::elf::{ImageInfo, LoadInfo, SegInfo};
use crate::frames;
use crate::kernel::Kernel;
use crate::m3;
use crate::paging;
use crate::paging::{PTE_NX, PTE_PRESENT, PTE_USER, PTE_WRITE, PhysMem};
use crate::proc;
use crate::rest;
use crate::suite;
use crate::suite::{Outcome, Report};
use crate::views;
use crate::window;

verus! {

/// The name of test `i`.
#[verifier::allow_in_spec]
pub fn test_name(i: u64) -> &'static str
    returns
        (match i {
            0 => "elf_parse",
            1 => "elf_reject",
            2 => "elf_load",
            3 => "syscall_abi",
            4 => "thread_exit_abi",
            5 => "first_process",
            6 => "ipc_echo",
            7 => "spawn_restart",
            _ => "console_line",
        }),
{
    match i {
        0 => "elf_parse",
        1 => "elf_reject",
        2 => "elf_load",
        3 => "syscall_abi",
        4 => "thread_exit_abi",
        5 => "first_process",
        6 => "ipc_echo",
        7 => "spawn_restart",
        _ => "console_line",
    }
}

/// The tests with what came of them.
pub open spec fn outcomes(results: Seq<Result<(), &'static str>>) -> Seq<Outcome> {
    Seq::new(
        results.len(),
        |i: int| Outcome { name: test_name(i as u64), result: results[i] },
    )
}

/// Report on the suite, whose tests ended with `results`.
pub fn run_suite(results: &[Result<(), &'static str>; 9]) -> (r: Report)
    ensures
        r.lines@.len() == 9 + 1,
        forall|i: int|
            0 <= i < 9 ==> (#[trigger] r.lines@[i])@ == suite::marker_of(
                "m4"@,
                outcomes(results@)[i],
            ),
        r.lines@[9]@ == suite::result_line(
            "m4"@,
            suite::passed_below(outcomes(results@), 9),
            9,
        ),
        r.passed == (suite::passed_below(outcomes(results@), 9) == 9),
{
    let all: [Outcome; 9] = [
        Outcome { name: test_name(0), result: results[0] },
        Outcome { name: test_name(1), result: results[1] },
        Outcome { name: test_name(2), result: results[2] },
        Outcome { name: test_name(3), result: results[3] },
        Outcome { name: test_name(4), result: results[4] },
        Outcome { name: test_name(5), result: results[5] },
        Outcome { name: test_name(6), result: results[6] },
        Outcome { name: test_name(7), result: results[7] },
        Outcome { name: test_name(8), result: results[8] },
    ];
    assert(all@ =~= outcomes(results@));
    suite::run_suite("m4", &all)
}

/// Where the payload starts.
pub const PAYLOAD_ENTRY: u64 = 0x200000;
/// Where its message stands.
pub const PAYLOAD_MSG_VA: u64 = 0x200800;
/// Where its description stands.
pub const PAYLOAD_META_VA: u64 = 0x201000;
/// Where its zeroed memory starts.
pub const PAYLOAD_BSS_VA: u64 = 0x202000;
/// How much zeroed memory it has.
pub const PAYLOAD_BSS_LEN: u64 = 0x1000;
/// The size of its description.
pub const META_SIZE: u64 = 64;
/// The stack page of its process.
pub const PROC_STACK_VA: u64 = 0x203000;
/// The top of that stack.
pub const PROC_STACK_TOP: u64 = 0x204000;
/// The largest image that is damaged on trial.
pub const SCRATCH_SIZE: usize = 16384;
/// In how many ways.
pub const MUTATIONS: u64 = 25;

/// What is said if damage number `i` goes unnoticed.
#[verifier::allow_in_spec]
pub fn mutation(i: u64) -> &'static str
    returns
        (match i {
            0 => "mutation ACCEPTED: bad magic",
            1 => "mutation ACCEPTED: ELFCLASS32",
            2 => "mutation ACCEPTED: big-endian encoding",
            3 => "mutation ACCEPTED: EI_VERSION != 1",
            4 => "mutation ACCEPTED: e_version != 1",
            5 => "mutation ACCEPTED: ET_DYN (PIE)",
            6 => "mutation ACCEPTED: EM_386",
            7 => "mutation ACCEPTED: e_ehsize != 64",
            8 => "mutation ACCEPTED: e_phentsize != 56",
            9 => "mutation ACCEPTED: e_phnum = 0",
            10 => "mutation ACCEPTED: e_phnum = 9 (> MAX_SEGMENTS)",
            11 => "mutation ACCEPTED: phoff past end of image",
            12 => "mutation ACCEPTED: truncated to header only",
            13 => "mutation ACCEPTED: text segment W+X",
            14 => "mutation ACCEPTED: unknown flag bit",
            15 => "mutation ACCEPTED: data memsz < filesz",
            16 => "mutation ACCEPTED: data memsz = 0",
            17 => "mutation ACCEPTED: data vaddr unaligned",
            18 => "mutation ACCEPTED: data vaddr reaching kernel half",
            19 => "mutation ACCEPTED: segments overlap",
            20 => "mutation ACCEPTED: data file span past EOF",
            21 => "mutation ACCEPTED: entry inside a non-exec segment",
            22 => "mutation ACCEPTED: entry inside no segment at all",
            23 => "mutation ACCEPTED: PT_INTERP present",
            _ => "mutation ACCEPTED: no PT_LOAD at all",
        }),
{
    match i {
        0 => "mutation ACCEPTED: bad magic",
        1 => "mutation ACCEPTED: ELFCLASS32",
        2 => "mutation ACCEPTED: big-endian encoding",
        3 => "mutation ACCEPTED: EI_VERSION != 1",
        4 => "mutation ACCEPTED: e_version != 1",
        5 => "mutation ACCEPTED: ET_DYN (PIE)",
        6 => "mutation ACCEPTED: EM_386",
        7 => "mutation ACCEPTED: e_ehsize != 64",
        8 => "mutation ACCEPTED: e_phentsize != 56",
        9 => "mutation ACCEPTED: e_phnum = 0",
        10 => "mutation ACCEPTED: e_phnum = 9 (> MAX_SEGMENTS)",
        11 => "mutation ACCEPTED: phoff past end of image",
        12 => "mutation ACCEPTED: truncated to header only",
        13 => "mutation ACCEPTED: text segment W+X",
        14 => "mutation ACCEPTED: unknown flag bit",
        15 => "mutation ACCEPTED: data memsz < filesz",
        16 => "mutation ACCEPTED: data memsz = 0",
        17 => "mutation ACCEPTED: data vaddr unaligned",
        18 => "mutation ACCEPTED: data vaddr reaching kernel half",
        19 => "mutation ACCEPTED: segments overlap",
        20 => "mutation ACCEPTED: data file span past EOF",
        21 => "mutation ACCEPTED: entry inside a non-exec segment",
        22 => "mutation ACCEPTED: entry inside no segment at all",
        23 => "mutation ACCEPTED: PT_INTERP present",
        _ => "mutation ACCEPTED: no PT_LOAD at all",
    }
}

/// The image `b` with damage number `i` done to it; its program headers start
/// at `ph0`.
#[verifier::opaque]
pub open spec fn mutant(b: Seq<u8>, ph0: int, i: int) -> Seq<u8> {
    if i == 0 {
        bytes::put_le(b, 0, 1, 0)
    } else if i == 1 {
        bytes::put_le(b, 4, 1, 1)
    } else if i == 2 {
        bytes::put_le(b, 5, 1, 2)
    } else if i == 3 {
        bytes::put_le(b, 6, 1, 9)
    } else if i == 4 {
        bytes::put_le(b, 20, 4, 2)
    } else if i == 5 {
        bytes::put_le(b, 16, 2, 3)
    } else if i == 6 {
        bytes::put_le(b, 18, 2, 3)
    } else if i == 7 {
        bytes::put_le(b, 52, 2, 65)
    } else if i == 8 {
        bytes::put_le(b, 54, 2, 57)
    } else if i == 9 {
        bytes::put_le(b, 56, 2, 0)
    } else if i == 10 {
        bytes::put_le(b, 56, 2, 9)
    } else if i == 11 {
        bytes::put_le(b, 32, 8, 0x100000)
    } else if i == 12 {
        b.take(64)
    } else if i == 13 {
        bytes::put_le(b, ph0 + 4, 4, 7)
    } else if i == 14 {
        bytes::put_le(b, ph0 + 4, 4, 0x105)
    } else if i == 15 {
        bytes::put_le(b, ph0 + 96, 8, 1)
    } else if i == 16 {
        bytes::put_le(b, ph0 + 96, 8, 0)
    } else if i == 17 {
        bytes::put_le(b, ph0 + 72, 8, 0x201001)
    } else if i == 18 {
        bytes::put_le(b, ph0 + 72, 8, 0x0000_7fff_ffff_f000)
    } else if i == 19 {
        bytes::put_le(b, ph0 + 72, 8, 0x200000)
    } else if i == 20 {
        bytes::put_le(b, ph0 + 64, 8, 0x100000)
    } else if i == 21 {
        bytes::put_le(b, 24, 8, 0x201000)
    } else if i == 22 {
        bytes::put_le(b, 24, 8, 0x900000)
    } else if i == 23 {
        bytes::put_le(b, ph0 + 56, 4, 3)
    } else {
        bytes::put_le(bytes::put_le(b, ph0, 4, 4), ph0 + 56, 4, 4)
    }
}

/// Do damage number `i` to `b`.
#[verifier::spinoff_prover]
fn damage(b: &mut Vec<u8>, ph0: usize, i: u64)
    requires
        i < MUTATIONS,
        64 <= old(b)@.len(),
        ph0 + 104 <= old(b)@.len(),
    ensures
        final(b)@ == mutant(old(b)@, ph0 as int, i as int),
{
    proof {
        reveal(mutant);
    }
    let n: usize = b.len();
    match i {
        0 => bytes::write_le(b, 0, 1, 0),
        1 => bytes::write_le(b, 4, 1, 1),
        2 => bytes::write_le(b, 5, 1, 2),
        3 => bytes::write_le(b, 6, 1, 9),
        4 => bytes::write_le(b, 20, 4, 2),
        5 => bytes::write_le(b, 16, 2, 3),
        6 => bytes::write_le(b, 18, 2, 3),
        7 => bytes::write_le(b, 52, 2, 65),
        8 => bytes::write_le(b, 54, 2, 57),
        9 => bytes::write_le(b, 56, 2, 0),
        10 => bytes::write_le(b, 56, 2, 9),
        11 => bytes::write_le(b, 32, 8, 0x100000),
        12 => {
            b.truncate(64);
            assert(b@ =~= old(b)@.take(64));
        },
        13 => bytes::write_le(b, ph0 + 4, 4, 7),
        14 => bytes::write_le(b, ph0 + 4, 4, 0x105),
        15 => bytes::write_le(b, ph0 + 96, 8, 1),
        16 => bytes::write_le(b, ph0 + 96, 8, 0),
        17 => bytes::write_le(b, ph0 + 72, 8, 0x201001),
        18 => bytes::write_le(b, ph0 + 72, 8, 0x0000_7fff_ffff_f000),
        19 => bytes::write_le(b, ph0 + 72, 8, 0x200000),
        20 => bytes::write_le(b, ph0 + 64, 8, 0x100000),
        21 => bytes::write_le(b, 24, 8, 0x201000),
        22 => bytes::write_le(b, 24, 8, 0x900000),
        23 => bytes::write_le(b, ph0 + 56, 4, 3),
        _ => {
            bytes::write_le(b, ph0, 4, 4);
            bytes::write_le(b, ph0 + 56, 4, 4);
        },
    }
}

/// What the trial of damage number `i` says.
#[verifier::opaque]
pub open spec fn trial(b: Seq<u8>, ph0: int, i: u64) -> Result<(), &'static str> {
    if elf::parsed(mutant(b, ph0, i as int)) is Ok {
        Err(mutation(i))
    } else {
        Ok(())
    }
}

/// What the trials from number `i` on say: the first that is not passed.
pub open spec fn rejects(b: Seq<u8>, ph0: int, i: u64) -> Result<(), &'static str>
    decreases MUTATIONS - i,
{
    if i >= MUTATIONS {
        Ok(())
    } else if trial(b, ph0, i) is Err {
        trial(b, ph0, i)
    } else {
        rejects(b, ph0, (i + 1) as u64)
    }
}

/// A copy of `img` with damage number `i` is refused.
fn mutate_reject(img: &[u8], ph0: usize, i: u64) -> (r: Result<(), &'static str>)
    requires
        i < MUTATIONS,
        64 <= img@.len(),
        ph0 + 104 <= img@.len(),
    ensures
        r == trial(img@, ph0 as int, i),
{
    proof {
        reveal(trial);
    }
    let mut scratch: Vec<u8> = vstd::slice::slice_to_vec(img);
    assert(scratch@ =~= img@);
    damage(&mut scratch, ph0, i);
    if elf::validate(&scratch).is_ok() {
        return Err(mutation(i));
    }
    Ok(())
}

fn run_trials(img: &[u8], ph0: usize) -> (r: Result<(), &'static str>)
    requires
        64 <= img@.len(),
        ph0 + 104 <= img@.len(),
    ensures
        r == rejects(img@, ph0 as int, 0),
{
    let mut i: u64 = 0;
    while i < MUTATIONS
        invariant
            i <= MUTATIONS,
            64 <= img@.len(),
            ph0 + 104 <= img@.len(),
            rejects(img@, ph0 as int, 0) == rejects(img@, ph0 as int, i),
        decreases MUTATIONS - i,
    {
        let r = mutate_reject(img, ph0, i);
        if r.is_err() {
            return r;
        }
        i = i + 1;
    }
    Ok(())
}

/// Every damaged copy of the image must be refused.
pub fn test_elf_reject(img: &[u8]) -> (r: Result<(), &'static str>)
    requires
        img@.len() <= SCRATCH_SIZE ==> 64 <= img@.len() && bytes::le64_at(img@, 32) + 104
            <= img@.len(),
    ensures
        r == (if img@.len() > SCRATCH_SIZE {
            Err::<(), &'static str>("scratch buffer too small for the payload image")
        } else {
            rejects(img@, bytes::le64_at(img@, 32), 0)
        }),
{
    if img.len() > SCRATCH_SIZE {
        return Err("scratch buffer too small for the payload image");
    }
    let ph0: usize = bytes::le64(img, 32) as usize;
    run_trials(img, ph0)
}

/// Damage to the identity, the sizes or the place of the header table is
/// noticed in every image, whatever else it holds.
pub proof fn law_header_damage_is_noticed(b: Seq<u8>, ph0: int, i: int)
    requires
        64 <= b.len() <= SCRATCH_SIZE,
        0 <= i <= 12,
    ensures
        elf::parsed(mutant(b, ph0, i)) is Err,
{
    reveal(mutant);
    let c = mutant(b, ph0, i);
    assert(bytes::le_byte(2, 0) == 2 && bytes::le_byte(3, 0) == 3 && bytes::le_byte(65, 0) == 65
        && bytes::le_byte(57, 0) == 57 && bytes::le_byte(9, 0) == 9 && bytes::le_byte(1, 0) == 1
        && bytes::le_byte(0, 0) == 0 && bytes::le_byte(0, 1) == 0 && bytes::le_byte(9, 1) == 0);
    if i == 11 {
        assert(bytes::le_byte(0x100000, 2) == 16);
        assert(c[34] == 16);
        assert(bytes::le64_at(c, 32) >= 0x100000);
    } else if i == 4 {
        assert(c[20] == 2);
    } else if i == 5 {
        assert(c[16] == 3);
    } else if i == 6 {
        assert(c[18] == 3);
    } else if i == 7 {
        assert(c[52] == 65);
    } else if i == 8 {
        assert(c[54] == 57);
    } else if i == 9 {
        assert(c[56] == 0 && c[57] == 0);
    } else if i == 10 {
        assert(c[56] == 9);
    }
    assert(elf::header_fault(c) is Some);
}

/// The mark at the start of the payload's description.
#[verifier::allow_in_spec]
pub fn meta_magic() -> [u8; 16]
    returns
        ([
            0x41u8,
            0x52,
            0x45,
            0x4e,
            0x41,
            0x4f,
            0x53,
            0x2d,
            0x50,
            0x41,
            0x59,
            0x4c,
            0x4f,
            0x41,
            0x44,
            0x21,
        ]),
{
    [
        0x41u8,
        0x52,
        0x45,
        0x4e,
        0x41,
        0x4f,
        0x53,
        0x2d,
        0x50,
        0x41,
        0x59,
        0x4c,
        0x4f,
        0x41,
        0x44,
        0x21,
    ]
}

/// What is wrong with the payload's segments, if anything.
pub open spec fn shape_fault(entry: u64, segs: Seq<SegInfo>) -> Option<&'static str> {
    if entry != PAYLOAD_ENTRY {
        Some("e_entry does not match the linker script")
    } else if segs.len() != 2 {
        Some("expected exactly two PT_LOAD segments")
    } else if segs[0].vaddr != PAYLOAD_ENTRY || segs[0].flags != 5 {
        Some("text segment identity wrong (want 0x200000 R+X)")
    } else if segs[0].filesz > segs[0].memsz || segs[0].memsz > 4096 {
        Some("text segment sizes wrong (want file-backed within one page)")
    } else if segs[1].vaddr != PAYLOAD_META_VA || segs[1].flags != 6 {
        Some("data segment identity wrong (want 0x201000 R+W)")
    } else if segs[1].filesz < META_SIZE || segs[1].filesz >= segs[1].memsz {
        Some("data segment must be partly file-backed with NOLOAD bss beyond")
    } else if segs[1].memsz < PAYLOAD_BSS_VA + PAYLOAD_BSS_LEN - segs[1].vaddr {
        Some("data segment does not cover the bss canary")
    } else {
        None
    }
}

/// The bytes at `at` are the mark.
pub open spec fn magic_at(b: Seq<u8>, at: int) -> bool {
    forall|i: int| 0 <= i < 16 ==> #[trigger] b[at + i] == meta_magic()@[i]
}

/// What is wrong with the payload's description, if anything.
pub open spec fn meta_fault(b: Seq<u8>, entry: u64, text: SegInfo, data: SegInfo) -> Option<
    &'static str,
> {
    let mo = data.offset as int;
    let bss_va = bytes::le64_at(b, mo + 24);
    let bss_len = bytes::le64_at(b, mo + 32);
    let msg_va = bytes::le64_at(b, mo + 40);
    let msg_len = bytes::le64_at(b, mo + 48);
    if b.len() < mo + META_SIZE {
        Some("data segment offset does not leave room for META")
    } else if !magic_at(b, mo) {
        Some("payload META magic mismatch")
    } else if bytes::le64_at(b, mo + 16) != entry {
        Some("META.entry disagrees with the parsed e_entry")
    } else if bss_va != PAYLOAD_BSS_VA || bss_len != PAYLOAD_BSS_LEN {
        Some("META bss facts disagree with the linker script")
    } else if bss_va < data.vaddr || bss_va + bss_len > data.end() {
        Some("META bss span lies outside its own segment")
    } else if msg_va != PAYLOAD_MSG_VA {
        Some("META.msg_va disagrees with the linker-pinned message VA")
    } else if msg_len == 0 || msg_len > 256 {
        Some("META.msg_len outside the debug_write window (1..=256)")
    } else if msg_va + msg_len > text.vaddr + text.filesz {
        Some("the pinned message is not inside the file-backed text span")
    } else if bytes::le64_at(b, mo + 56) == 0 {
        Some("META.exit_ok must be a nonzero success code")
    } else {
        None
    }
}

/// Whether `b` is the payload that the later checks expect, and if not, why.
pub open spec fn payload_answer(b: Seq<u8>) -> Result<(), &'static str> {
    match elf::parsed(b) {
        Err(e) => Err(e),
        Ok((entry, segs)) => match shape_fault(entry, segs) {
            Some(e) => Err(e),
            None => match meta_fault(b, entry, segs[0], segs[1]) {
                Some(e) => Err(e),
                None => Ok(()),
            },
        },
    }
}

fn check_shape(info: &ImageInfo) -> (r: Option<&'static str>)
    requires
        0 < info.nsegs <= elf::MAX_SEGMENTS,
    ensures
        r == shape_fault(info.entry, info.segments()),
{
    if info.entry != PAYLOAD_ENTRY {
        return Some("e_entry does not match the linker script");
    }
    if info.nsegs != 2 {
        return Some("expected exactly two PT_LOAD segments");
    }
    let text: SegInfo = info.segs[0];
    let data: SegInfo = info.segs[1];
    if text.vaddr != PAYLOAD_ENTRY || text.flags != 5 {
        return Some("text segment identity wrong (want 0x200000 R+X)");
    }
    if text.filesz > text.memsz || text.memsz > 4096 {
        return Some("text segment sizes wrong (want file-backed within one page)");
    }
    if data.vaddr != PAYLOAD_META_VA || data.flags != 6 {
        return Some("data segment identity wrong (want 0x201000 R+W)");
    }
    if data.filesz < META_SIZE || data.filesz >= data.memsz {
        return Some("data segment must be partly file-backed with NOLOAD bss beyond");
    }
    if data.memsz < PAYLOAD_BSS_VA + PAYLOAD_BSS_LEN - data.vaddr {
        return Some("data segment does not cover the bss canary");
    }
    None
}

fn magic_matches(b: &[u8], at: usize) -> (r: bool)
    requires
        at + 16 <= b@.len(),
    ensures
        r == magic_at(b@, at as int),
{
    let n: usize = b.len();
    let want: [u8; 16] = meta_magic();
    let mut i: usize = 0;
    while i < 16
        invariant
            i <= 16,
            n == b@.len(),
            at + 16 <= n,
            want == meta_magic(),
            forall|j: int| 0 <= j < i ==> #[trigger] b@[at + j] == meta_magic()@[j],
        decreases 16 - i,
    {
        if b[at + i] != want[i] {
            assert(b@[at + i] != meta_magic()@[i as int]);
            return false;
        }
        i = i + 1;
    }
    true
}

fn check_meta(b: &[u8], entry: u64, text: SegInfo, data: SegInfo) -> (r: Option<&'static str>)
    requires
        data.offset + data.filesz <= b@.len(),
        data.vaddr + data.memsz <= u64::MAX,
        text.vaddr + text.filesz <= u64::MAX,
    ensures
        r == meta_fault(b@, entry, text, data),
{
    let n: usize = b.len();
    let mo: usize = data.offset as usize;
    if n - mo < 64 {
        return Some("data segment offset does not leave room for META");
    }
    if !magic_matches(b, mo) {
        return Some("payload META magic mismatch");
    }
    let m_entry: u64 = bytes::le64(b, mo + 16);
    let m_bss_va: u64 = bytes::le64(b, mo + 24);
    let m_bss_len: u64 = bytes::le64(b, mo + 32);
    if m_entry != entry {
        return Some("META.entry disagrees with the parsed e_entry");
    }
    if m_bss_va != PAYLOAD_BSS_VA || m_bss_len != PAYLOAD_BSS_LEN {
        return Some("META bss facts disagree with the linker script");
    }
    if m_bss_va < data.vaddr || m_bss_va + m_bss_len > data.vaddr + data.memsz {
        return Some("META bss span lies outside its own segment");
    }
    let m_msg_va: u64 = bytes::le64(b, mo + 40);
    let m_msg_len: u64 = bytes::le64(b, mo + 48);
    let m_exit_ok: u64 = bytes::le64(b, mo + 56);
    if m_msg_va != PAYLOAD_MSG_VA {
        return Some("META.msg_va disagrees with the linker-pinned message VA");
    }
    if m_msg_len == 0 || m_msg_len > 256 {
        return Some("META.msg_len outside the debug_write window (1..=256)");
    }
    if m_msg_va + m_msg_len > text.vaddr + text.filesz {
        return Some("the pinned message is not inside the file-backed text span");
    }
    if m_exit_ok == 0 {
        return Some("META.exit_ok must be a nonzero success code");
    }
    None
}

/// The image parses, and it is the payload that the later checks expect.
#[verifier::spinoff_prover]
pub fn test_elf_parse(img: &[u8]) -> (r: Result<(), &'static str>)
    ensures
        r == payload_answer(img@),
{
    let parsed: ImageInfo = match elf::validate(img) {
        Err(e) => {
            return Err(e);
        },
        Ok(i) => i,
    };
    if let Some(e) = check_shape(&parsed) {
        return Err(e);
    }
    let ghost segs = parsed.segments();
    proof {
        elf::law_accepted_images(img@);
        assert(segs[0] == parsed.segs@[0] && segs[1] == parsed.segs@[1]);
    }
    match check_meta(img, parsed.entry, parsed.segs[0], parsed.segs[1]) {
        Some(e) => Err(e),
        None => Ok(()),
    }
}

/// What is wrong with the mapping of a data page, if anything.
pub open spec fn data_pte_fault(words: Seq<u64>, root: int, v: int) -> Option<&'static str> {
    match paging::pte_at(words, root, v) {
        None => Some("data/bss pte absent after load"),
        Some(d) => if d & (PTE_PRESENT | PTE_USER | PTE_WRITE | PTE_NX) != (PTE_PRESENT | PTE_USER
            | PTE_WRITE | PTE_NX) {
            Some("data/bss pte flags wrong (want present+user+write+NX)")
        } else {
            None
        },
    }
}

/// What is wrong with the mapping of a text page, if anything.
pub open spec fn text_pte_fault(words: Seq<u64>, root: int, v: int) -> Option<&'static str> {
    match paging::pte_at(words, root, v) {
        None => Some("text pte absent after load"),
        Some(t) => if t & (PTE_PRESENT | PTE_USER) != (PTE_PRESENT | PTE_USER) {
            Some("text pte not present+user")
        } else if t & PTE_WRITE != 0 {
            Some("text pte is WRITABLE \u{2014} W^X violation")
        } else if t & PTE_NX != 0 {
            Some("text pte is NX \u{2014} the entry would not be executable")
        } else {
            None
        },
    }
}

/// What is wrong with the mappings of the loaded payload, if anything.
pub open spec fn flags_fault(words: Seq<u64>, root: int) -> Option<&'static str> {
    match text_pte_fault(words, root, 0x200) {
        Some(e) => Some(e),
        None => match data_pte_fault(words, root, 0x201) {
            Some(e) => Some(e),
            None => data_pte_fault(words, root, 0x202),
        },
    }
}

fn check_data_pte(mem: &PhysMem, root: u64, va: u64) -> (r: Option<&'static str>)
    requires
        paging::tables_wf(mem.words@, mem.seats@),
        paging::is_root(mem.seats@, root as int),
        va < paging::USER_HALF_LIMIT,
    ensures
        r == data_pte_fault(mem.words@, root as int, va as int / 4096),
{
    assert(paging::page_no(va as int) == va as int / 4096);
    match paging::user_pte_flags(mem, root, va) {
        None => Some("data/bss pte absent after load"),
        Some(d) => {
            let want: u64 = PTE_PRESENT | PTE_USER | PTE_WRITE | PTE_NX;
            if d & want != want {
                Some("data/bss pte flags wrong (want present+user+write+NX)")
            } else {
                None
            }
        },
    }
}

fn check_flags(mem: &PhysMem, root: u64) -> (r: Option<&'static str>)
    requires
        paging::tables_wf(mem.words@, mem.seats@),
        paging::is_root(mem.seats@, root as int),
    ensures
        r == flags_fault(mem.words@, root as int),
{
    assert(paging::page_no(PAYLOAD_ENTRY as int) == 0x200);
    match paging::user_pte_flags(mem, root, PAYLOAD_ENTRY) {
        None => {
            return Some("text pte absent after load");
        },
        Some(t) => {
            if t & (PTE_PRESENT | PTE_USER) != (PTE_PRESENT | PTE_USER) {
                return Some("text pte not present+user");
            }
            if t & PTE_WRITE != 0 {
                return Some("text pte is WRITABLE \u{2014} W^X violation");
            }
            if t & PTE_NX != 0 {
                return Some("text pte is NX \u{2014} the entry would not be executable");
            }
        },
    }
    if let Some(e) = check_data_pte(mem, root, PAYLOAD_META_VA) {
        return Some(e);
    }
    check_data_pte(mem, root, PAYLOAD_BSS_VA)
}

/// The bytes `want` stand at `va` of the address space `root`.
pub open spec fn shows(words: Seq<u64>, root: int, va: int, want: Seq<u8>) -> bool {
    forall|i: int| 0 <= i < want.len() ==> #[trigger] window::seen(words, root, va + i) == Some(want[i])
}

/// Whether the bytes `from..from + n` of `b` stand at `va`.
fn shows_bytes(mem: &PhysMem, root: u64, va: u64, b: &[u8], from: usize, n: usize) -> (r: bool)
    requires
        paging::tables_wf(mem.words@, mem.seats@),
        paging::is_root(mem.seats@, root as int),
        va + n <= paging::USER_HALF_LIMIT,
        from + n <= b@.len(),
    ensures
        r == shows(mem.words@, root as int, va as int, b@.subrange(from as int, from + n)),
{
    let ghost want = b@.subrange(from as int, from + n);
    let total: usize = b.len();
    let mut i: usize = 0;
    while i < n
        invariant
            i <= n,
            total == b@.len(),
            from + n <= total,
            va + n <= paging::USER_HALF_LIMIT,
            want == b@.subrange(from as int, from + n),
            paging::tables_wf(mem.words@, mem.seats@),
            paging::is_root(mem.seats@, root as int),
            forall|j: int|
                0 <= j < i ==> #[trigger] window::seen(mem.words@, root as int, va + j) == Some(
                    want[j],
                ),
        decreases n - i,
    {
        let ghost at = window::seen(mem.words@, root as int, va + i);
        match window::peek(mem, root, va + i as u64) {
            Some(x) => {
                if x != b[from + i] {
                    assert(at != Some(want[i as int]));
                    return false;
                }
            },
            None => {
                assert(at != Some(want[i as int]));
                return false;
            },
        }
        i = i + 1;
    }
    true
}

/// Whether the `n` bytes at `va` are all zero.
fn shows_zero(mem: &PhysMem, root: u64, va: u64, n: u64) -> (r: bool)
    requires
        paging::tables_wf(mem.words@, mem.seats@),
        paging::is_root(mem.seats@, root as int),
        va + n <= paging::USER_HALF_LIMIT,
    ensures
        r == shows(mem.words@, root as int, va as int, Seq::new(n as nat, |i: int| 0u8)),
{
    let ghost want = Seq::new(n as nat, |i: int| 0u8);
    let mut i: u64 = 0;
    while i < n
        invariant
            i <= n,
            va + n <= paging::USER_HALF_LIMIT,
            want == Seq::new(n as nat, |i: int| 0u8),
            paging::tables_wf(mem.words@, mem.seats@),
            paging::is_root(mem.seats@, root as int),
            forall|j: int|
                0 <= j < i ==> #[trigger] window::seen(mem.words@, root as int, va + j) == Some(
                    want[j],
                ),
        decreases n - i,
    {
        let ghost at = window::seen(mem.words@, root as int, va + i);
        match window::peek(mem, root, va + i) {
            Some(x) => {
                if x != 0 {
                    assert(at != Some(want[i as int]));
                    return false;
                }
            },
            None => {
                assert(at != Some(want[i as int]));
                return false;
            },
        }
        i = i + 1;
    }
    true
}

/// What is wrong with the bytes of the loaded payload, if anything.
pub open spec fn bytes_fault(words: Seq<u64>, root: int, b: Seq<u8>, text: SegInfo) -> Option<
    &'static str,
> {
    if !shows(
        words,
        root,
        text.vaddr as int,
        b.subrange(text.offset as int, text.offset + text.filesz),
    ) {
        Some("text segment bytes wrong under the target's CR3 (file fidelity broken)")
    } else if !shows(words, root, PAYLOAD_META_VA as int, meta_magic()@) {
        Some("META magic wrong under the target's CR3")
    } else if !shows(
        words,
        root,
        PAYLOAD_META_VA + 16,
        bytes::le_bytes(PAYLOAD_ENTRY as int, 8),
    ) {
        Some("META.entry wrong under the target's CR3")
    } else if !shows(
        words,
        root,
        PAYLOAD_BSS_VA as int,
        Seq::new(PAYLOAD_BSS_LEN as nat, |i: int| 0u8),
    ) {
        Some("bss canary not fully zero under the target's CR3")
    } else {
        None
    }
}

/// Read the loaded payload back through its own address space.
fn check_bytes(mem: &PhysMem, root: u64, b: &[u8], text: SegInfo) -> (r: Option<&'static str>)
    requires
        paging::tables_wf(mem.words@, mem.seats@),
        paging::is_root(mem.seats@, root as int),
        text.end() <= paging::USER_HALF_LIMIT,
        text.filesz <= text.memsz,
        text.offset + text.filesz <= b@.len(),
    ensures
        r == bytes_fault(mem.words@, root as int, b@, text),
{
    let n: usize = b.len();
    if !shows_bytes(mem, root, text.vaddr, b, text.offset as usize, text.filesz as usize) {
        return Some("text segment bytes wrong under the target's CR3 (file fidelity broken)");
    }
    let magic: [u8; 16] = meta_magic();
    assert(magic@.subrange(0, 16) =~= magic@);
    if !shows_bytes(mem, root, PAYLOAD_META_VA, &magic, 0, 16) {
        return Some("META magic wrong under the target's CR3");
    }
    let entry: [u8; 8] = [0, 0, 0x20, 0, 0, 0, 0, 0];
    assert(entry@.subrange(0, 8) =~= bytes::le_bytes(PAYLOAD_ENTRY as int, 8));
    if !shows_bytes(mem, root, PAYLOAD_META_VA + 16, &entry, 0, 8) {
        return Some("META.entry wrong under the target's CR3");
    }
    if !shows_zero(mem, root, PAYLOAD_BSS_VA, PAYLOAD_BSS_LEN) {
        return Some("bss canary not fully zero under the target's CR3");
    }
    None
}

/// `b` is the payload, and `segs` are its segments: one page of text, and
/// `memsz` bytes of data from the next page on.
pub open spec fn is_payload(b: Seq<u8>, segs: Seq<SegInfo>) -> bool {
    &&& elf::parsed(b) == Ok::<(u64, Seq<SegInfo>), &'static str>((PAYLOAD_ENTRY, segs))
    &&& shape_fault(PAYLOAD_ENTRY, segs) is None
    &&& meta_fault(b, PAYLOAD_ENTRY, segs[0], segs[1]) is None
}

/// What of the payload's zeroed page comes from the file is zero there.
pub open spec fn bss_clear(b: Seq<u8>, data: SegInfo) -> bool {
    forall|i: int| 0x1000 <= i < data.filesz && i < 0x2000 ==> #[trigger] b[data.offset + i] == 0
}

/// All that can be wrong with the bytes of a payload that was loaded.
pub open spec fn bss_fault(b: Seq<u8>, data: SegInfo) -> Option<&'static str> {
    if bss_clear(b, data) {
        None
    } else {
        Some("bss canary not fully zero under the target's CR3")
    }
}

proof fn lemma_leaf_pte(m: &PhysMem, root: int, v: int)
    requires
        paging::tables_wf(m.words@, m.seats@),
        paging::is_root(m.seats@, root),
        0 <= v < paging::PAGES,
        paging::missing(m.words@, root, v) == 0,
    ensures
        paging::pte_at(m.words@, root, v) == paging::leaf(m.words@, root, v),
{
    paging::lemma_path(m.words@, m.seats@, root, v);
}

proof fn lemma_flag_pairs(t: u64)
    by (bit_vector)
    requires
        t & 1 != 0,
        t & 4 != 0,
    ensures
        t & (1u64 | 4u64) == (1u64 | 4u64),
        t & 2 != 0 && t & 0x8000_0000_0000_0000u64 != 0 ==> t & (1u64 | 4u64 | 2u64
            | 0x8000_0000_0000_0000u64) == (1u64 | 4u64 | 2u64 | 0x8000_0000_0000_0000u64),
{
}

proof fn lemma_kinds()
    ensures
        5u32 & elf::PF_W == 0,
        5u32 & elf::PF_X != 0,
        6u32 & elf::PF_W != 0,
        6u32 & elf::PF_X == 0,
{
    assert(5u32 & 2u32 == 0 && 5u32 & 1u32 != 0 && 6u32 & 2u32 != 0 && 6u32 & 1u32 == 0)
        by (bit_vector);
}

/// Page `q` of segment `i` is mapped with the segment's access.
proof fn lemma_page_mapped(
    pre: &Kernel,
    k: &Kernel,
    root: int,
    b: Seq<u8>,
    segs: Seq<SegInfo>,
    i: int,
    q: int,
)
    requires
        elf::loaded(pre, k, root, b, segs, segs.len() as int, 0),
        0 <= i < segs.len(),
        0 <= q < segs[i].pages(),
    ensures
        elf::placed(pre, k, root, b, segs[i], q),
{
    reveal(elf::loaded);
}

#[verifier::spinoff_prover]
proof fn lemma_flags_right(pre: &Kernel, k: &Kernel, root: int, b: Seq<u8>, segs: Seq<SegInfo>)
    requires
        k.wf(),
        paging::is_root(k.pg.mem.seats@, root),
        is_payload(b, segs),
        elf::loaded(pre, k, root, b, segs, segs.len() as int, 0),
        paging::missing(k.pg.mem.words@, root, 0x200) == 0,
    ensures
        flags_fault(k.pg.mem.words@, root) is None,
        elf::taken(&k.pg.mem, root, 0x200),
{
    let m = &k.pg.mem;
    elf::law_accepted_images(b);
    crate::bits::lemma_ceil_div(segs[0].memsz as int, 4096);
    crate::bits::lemma_ceil_div(segs[1].memsz as int, 4096);
    lemma_page_mapped(pre, k, root, b, segs, 0, 0);
    lemma_page_mapped(pre, k, root, b, segs, 1, 0);
    lemma_page_mapped(pre, k, root, b, segs, 1, 1);
    accounts::lemma_same_table(m.words@, root, 0x200, 0x201);
    accounts::lemma_same_table(m.words@, root, 0x200, 0x202);
    lemma_leaf_pte(m, root, 0x200);
    lemma_leaf_pte(m, root, 0x201);
    lemma_leaf_pte(m, root, 0x202);
    lemma_kinds();
    let t = paging::leaf(m.words@, root, 0x200)->0;
    let d = paging::leaf(m.words@, root, 0x201)->0;
    let z = paging::leaf(m.words@, root, 0x202)->0;
    paging::lemma_user_entry(paging::addr(t) as u64);
    paging::lemma_user_entry(paging::addr(d) as u64);
    paging::lemma_user_entry(paging::addr(z) as u64);
    lemma_flag_pairs(t);
    lemma_flag_pairs(d);
    lemma_flag_pairs(z);
}

/// The byte at offset `off` of segment `i` shows at its address.
proof fn lemma_byte_shows(
    pre: &Kernel,
    k: &Kernel,
    root: int,
    b: Seq<u8>,
    segs: Seq<SegInfo>,
    i: int,
    off: int,
)
    requires
        elf::sound(b, segs),
        0 <= i < segs.len(),
        0 <= off < segs[i].memsz,
        elf::loaded(pre, k, root, b, segs, segs.len() as int, 0),
    ensures
        window::seen(k.pg.mem.words@, root, segs[i].vaddr + off) == Some(
            if off < segs[i].filesz {
                b[segs[i].offset + off]
            } else {
                0
            },
        ),
{
    crate::bits::lemma_ceil_div(segs[i].memsz as int, 4096);
    elf::law_loaded_bytes(*pre, *k, root, b, segs, i, off);
    lemma_page_mapped(pre, k, root, b, segs, i, off / 4096);
    assert((segs[i].vaddr + off) / 4096 == segs[i].vaddr as int / 4096 + off / 4096);
    assert((segs[i].vaddr + off) % 4096 == off % 4096);
}

proof fn lemma_le64_bytes(b: Seq<u8>, at: int)
    ensures
        forall|k: int|
            0 <= k < 8 ==> #[trigger] b[at + k] == bytes::le_byte(bytes::le64_at(b, at), k),
{
    let w = bytes::le64_at(b, at);
    elf::lemma_word_bytes(
        w,
        b[at] as int,
        b[at + 1] as int,
        b[at + 2] as int,
        b[at + 3] as int,
        b[at + 4] as int,
        b[at + 5] as int,
        b[at + 6] as int,
        b[at + 7] as int,
    );
    assert forall|k: int| 0 <= k < 8 implies #[trigger] b[at + k] == bytes::le_byte(w, k) by {
        assert(k == 0 || k == 1 || k == 2 || k == 3 || k == 4 || k == 5 || k == 6 || k == 7);
    }
}

#[verifier::spinoff_prover]
#[verifier::rlimit(40)]
proof fn lemma_bytes_right(pre: &Kernel, k: &Kernel, root: int, b: Seq<u8>, segs: Seq<SegInfo>)
    requires
        is_payload(b, segs),
        elf::loaded(pre, k, root, b, segs, segs.len() as int, 0),
    ensures
        bytes_fault(k.pg.mem.words@, root, b, segs[0]) == bss_fault(b, segs[1]),
{
    let words = k.pg.mem.words@;
    let text = segs[0];
    let data = segs[1];
    elf::law_accepted_images(b);
    let want = b.subrange(text.offset as int, text.offset + text.filesz);
    assert(shows(words, root, text.vaddr as int, want)) by {
        assert forall|i: int| 0 <= i < want.len() implies #[trigger] window::seen(
            words,
            root,
            text.vaddr + i,
        ) == Some(want[i]) by {
            lemma_byte_shows(pre, k, root, b, segs, 0, i);
        }
    }
    let magic = meta_magic()@;
    assert(shows(words, root, PAYLOAD_META_VA as int, magic)) by {
        assert forall|i: int| 0 <= i < magic.len() implies #[trigger] window::seen(
            words,
            root,
            PAYLOAD_META_VA + i,
        ) == Some(magic[i]) by {
            lemma_byte_shows(pre, k, root, b, segs, 1, i);
            assert(b[data.offset + i] == magic[i]);
        }
    }
    let entry = bytes::le_bytes(PAYLOAD_ENTRY as int, 8);
    assert(shows(words, root, PAYLOAD_META_VA + 16, entry)) by {
        lemma_le64_bytes(b, data.offset + 16);
        assert forall|i: int| 0 <= i < entry.len() implies #[trigger] window::seen(
            words,
            root,
            PAYLOAD_META_VA + 16 + i,
        ) == Some(entry[i]) by {
            lemma_byte_shows(pre, k, root, b, segs, 1, 16 + i);
            assert(b[data.offset + 16 + i] == entry[i]);
        }
    }
    let zeroes = Seq::new(PAYLOAD_BSS_LEN as nat, |i: int| 0u8);
    if bss_clear(b, data) {
        assert forall|i: int| 0 <= i < zeroes.len() implies #[trigger] window::seen(
            words,
            root,
            PAYLOAD_BSS_VA + i,
        ) == Some(zeroes[i]) by {
            lemma_byte_shows(pre, k, root, b, segs, 1, 0x1000 + i);
            if 0x1000 + i < data.filesz {
                assert(b[data.offset + (0x1000 + i)] == 0);
            }
        }
    } else {
        let x = choose|x: int|
            0x1000 <= x < data.filesz && x < 0x2000 && #[trigger] b[data.offset + x] != 0;
        lemma_byte_shows(pre, k, root, b, segs, 1, x);
        let i = x - 0x1000;
        assert(PAYLOAD_BSS_VA + i == data.vaddr + x);
        assert(window::seen(words, root, PAYLOAD_BSS_VA + i) == Some(b[data.offset + x]));
        assert(zeroes[i] == 0);
        assert(!shows(words, root, PAYLOAD_BSS_VA as int, zeroes));
    }
}

/// A process that held nothing is tidy once an image is loaded.
#[verifier::spinoff_prover]
#[verifier::rlimit(40)]
pub proof fn lemma_loaded_tidy(pre: &Kernel, k: &Kernel, root: int, b: Seq<u8>, segs: Seq<SegInfo>)
    requires
        elf::sound(b, segs),
        forall|v: int|
            0 <= v < paging::USER_PAGES ==> #[trigger] paging::leaf(pre.pg.mem.words@, root, v) is None,
        elf::loaded(pre, k, root, b, segs, segs.len() as int, 0),
    ensures
        accounts::tidy(k, root),
{
    reveal(accounts::tidy);
    let m = &k.pg.mem;
    let n = segs.len() as int;
    assert forall|v: int|
        0 <= v < paging::USER_PAGES && #[trigger] paging::leaf(m.words@, root, v) is Some implies {
        let f = paging::addr(paging::leaf(m.words@, root, v)->0);
        elf::covered(segs, n, 0, v) && f % 4096 == 0 && 0 <= f && k.fa.in_use(f)
            && !m.seats@.dom().contains(f)
    } by {
        reveal(elf::loaded);
        assert(paging::leaf(pre.pg.mem.words@, root, v) is None);
        assert(elf::covered(segs, n, 0, v));
        let i = choose|i: int| 0 <= i < n && elf::in_pages(#[trigger] segs[i], segs[i].pages(), v);
        let q = v - segs[i].vaddr as int / 4096;
        assert(elf::placed(pre, k, root, b, segs[i], q));
    }
    assert forall|v: int| 0 <= v < paging::USER_PAGES implies (#[trigger] paging::held_frame(
        m,
        &k.fa,
        root,
        v,
    ) matches Some(j) ==> frames::used(k.fa.map@, j) && !m.seats@.dom().contains(j * 4096)) by {
        if let Some(e) = paging::leaf(m.words@, root, v) {
            let f = paging::addr(e);
            assert(f / 4096 * 4096 == f);
        }
    }
    assert forall|v: int, w: int|
        0 <= v < w < paging::USER_PAGES && #[trigger] paging::held_frame(m, &k.fa, root, v) is Some
            && #[trigger] paging::held_frame(
            m,
            &k.fa,
            root,
            w,
        ) is Some implies paging::held_frame(m, &k.fa, root, v) != paging::held_frame(
        m,
        &k.fa,
        root,
        w,
    ) by {
        reveal(elf::loaded);
        let f = paging::addr(paging::leaf(m.words@, root, v)->0);
        let g = paging::addr(paging::leaf(m.words@, root, w)->0);
        assert(f != g);
        assert(f / 4096 * 4096 == f && g / 4096 * 4096 == g);
    }
}

/// A process is made and torn down at once, and an image is refused by it
/// afterwards.
fn ghost_round(k: &mut Kernel, img: &[u8]) -> (r: Result<(), &'static str>)
    requires
        old(k).wf(),
        old(k).procs.next_pid < u64::MAX,
        m3::live_root_stands(old(k)),
    ensures
        final(k).wf(),
        r == (if old(k).fa.available() < 1 {
            Err::<(), &'static str>("frame exhaustion: no PML4 root for a process")
        } else if proc::full(old(k).procs.slots@) {
            Err("process table full (MAX_PROCESSES)")
        } else {
            Ok(())
        }),
        r is Err ==> final(k).procs == old(k).procs,
        r is Ok ==> m3::one_gone(old(k), final(k)),
        rest::kept(old(k), final(k)),
{
    let ghost k0 = *k;
    proof {
        frames::lemma_free_bounds(k0.fa.map@, frames::FRAME_COUNT as int);
    }
    let baseline: u64 = frames::free_frames(&k.fa);
    let ghost_pid: u64 = match proc::create(k, "elfGhost") {
        Err(e) => {
            return Err(e);
        },
        Ok(p) => p,
    };
    let ghost k1 = *k;
    let ghost rt = accounts::root_of(&k1, ghost_pid);
    proof {
        accounts::lemma_created(&k0, &k1, "elfGhost");
        accounts::lemma_bare_created(&k0, &k1, "elfGhost");
        accounts::law_create_opens_account(k0, k1, "elfGhost");
        accounts::lemma_tidy_bare(&k1, rt);
        proc::lemma_find_bounds(k1.procs.slots@, ghost_pid);
        assert(k0.pg.mem.seats@.dom().contains(k0.pg.live_root as int));
    }
    match accounts::close_account(k, ghost_pid, Ghost(k0.fa)) {
        Err(e) => {
            return Err(e);
        },
        Ok(_) => {},
    }
    let ghost k2 = *k;
    proof {
        m3::lemma_one_gone(&k0, &k1, &k1, &k2, "elfGhost");
        rest::lemma_gone(&k0, &k1, &k2, rt);
        let i = proc::find(k1.procs.slots@, ghost_pid)->0;
        proc::lemma_find_bounds(k2.procs.slots@, ghost_pid);
        if let Some(x) = proc::find(k2.procs.slots@, ghost_pid) {
            assert(k2.procs.slots@[x] is Some);
            assert(x != i);
            assert(k1.procs.slots@[x] == k2.procs.slots@[x]);
            assert(k1.procs.slots@[i] is Some);
        }
    }
    if elf::load(k, img, ghost_pid).is_ok() {
        return Err("load into a dead process was not refused");
    }
    if frames::free_frames(&k.fa) != baseline {
        return Err("ghost create/destroy did not round-trip frames");
    }
    Ok(())
}

/// What is wrong with an image that was loaded, from its entry, its pages and
/// what making the process and loading it has cost.
pub open spec fn size_fault(entry: u64, segs: Seq<SegInfo>, spent: int) -> Option<&'static str> {
    if entry != PAYLOAD_ENTRY {
        Some("LoadInfo.entry is not the image entry")
    } else if elf::pages_below(segs, segs.len() as int) != 3 {
        Some("expected exactly 3 mapped pages (text + meta + bss)")
    } else if spent != 7 {
        Some("create+load did not spend exactly 7 frames (root + 3 tables + 3 leaves)")
    } else {
        None
    }
}

/// What is wrong with an image that was loaded, from its mappings and what is
/// read through them.
pub open spec fn seen_fault(words: Seq<u64>, root: int, b: Seq<u8>, segs: Seq<SegInfo>) -> Option<
    &'static str,
> {
    match flags_fault(words, root) {
        Some(e) => Some(e),
        None => bytes_fault(words, root, b, segs[0]),
    }
}

/// From `k1` to `k2` the process was made that the image is loaded into.
#[verifier::opaque]
pub open spec fn target_made(k1: &Kernel, k2: &Kernel) -> bool {
    proc::created(k1, k2, "elfLoad") && k2.pg.live_root == k1.pg.live_root
}

/// From `k2` to `k` an image was loaded into the address space `root`, in which
/// none of its pages was mapped: whole, for what it costs, or as far as the
/// frames went, which are fewer.
#[verifier::opaque]
pub open spec fn image_tried(
    k2: &Kernel,
    k: &Kernel,
    root: int,
    b: Seq<u8>,
    segs: Seq<SegInfo>,
    broke: Option<&'static str>,
) -> bool {
    let pages = elf::pages_below(segs, segs.len() as int);
    let cost = elf::load_cost(k2, root, elf::image_pages(segs, segs.len() as int));
    &&& elf::load_frame(k2, k, root)
    &&& views::edited(&k2.pg.mem, &k2.fa, &k.pg.mem, &k.fa, root)
    &&& match broke {
        None => {
            &&& elf::loaded(k2, k, root, b, segs, segs.len() as int, 0)
            &&& k.fa.available() == k2.fa.available() - cost
            &&& elf::compact(k2, root, segs) ==> elf::compact_cost(k2, k, root, segs, pages)
        },
        Some(e) => {
            &&& elf::out_of_frames(e)
            &&& elf::broken_off(k2, k, root, b, segs, e)
            &&& k2.fa.available() < cost
            &&& elf::compact(k2, root, segs) ==> k2.fa.available() < pages + 3
        },
    }
}

/// From `k1` to `k2` a process was made, and from `k2` to `k` an image was
/// loaded into it, as far as the frames went.
pub open spec fn load_tried(
    k1: &Kernel,
    k2: &Kernel,
    k: &Kernel,
    b: Seq<u8>,
    segs: Seq<SegInfo>,
    broke: Option<&'static str>,
) -> bool {
    &&& target_made(k1, k2)
    &&& k2.wf()
    &&& image_tried(k2, k, accounts::root_of(k2, k1.procs.next_pid), b, segs, broke)
}

/// The test's run over an accepted image: the process that is refused, then
/// the one that the image is loaded into.
pub open spec fn load_run(
    k0: &Kernel,
    k1: &Kernel,
    k2: &Kernel,
    k3: &Kernel,
    b: Seq<u8>,
    segs: Seq<SegInfo>,
    broke: Option<&'static str>,
) -> bool {
    m3::one_gone(k0, k1) && k1.wf() && load_tried(k1, k2, k3, b, segs, broke)
}

/// What the test says of the run.
pub open spec fn load_verdict(
    k0: &Kernel,
    k1: &Kernel,
    k3: &Kernel,
    b: Seq<u8>,
    entry: u64,
    segs: Seq<SegInfo>,
    broke: Option<&'static str>,
) -> Result<(), &'static str> {
    let root = accounts::root_of(k3, k1.procs.next_pid);
    match broke {
        Some(e) => Err(e),
        None => match size_fault(entry, segs, k0.fa.free - k3.fa.free) {
            Some(e) => Err(e),
            None => match seen_fault(k3.pg.mem.words@, root, b, segs) {
                Some(e) => Err(e),
                None => Ok(()),
            },
        },
    }
}

/// What the test says of an image that a process could be made for.
pub open spec fn load_answer(k: &Kernel, b: Seq<u8>, r: Result<(), &'static str>) -> bool {
    match elf::parsed(b) {
        Err(e) => r == Err::<(), &'static str>(e),
        Ok((entry, segs)) => exists|k1: Kernel, k2: Kernel, k3: Kernel, broke: Option<&'static str>|
            #[trigger] load_run(k, &k1, &k2, &k3, b, segs, broke) && r == load_verdict(
                k,
                &k1,
                &k3,
                b,
                entry,
                segs,
                broke,
            ),
    }
}

/// The payload loads into a process that has the frames for it, in exactly
/// the pages and tables it needs, and reads back.
pub open spec fn load_passes(k: &Kernel, b: Seq<u8>) -> bool {
    let segs = elf::parsed(b)->Ok_0.1;
    &&& k.fa.available() >= 7
    &&& !proc::full(k.procs.slots@)
    &&& segs[1].memsz == 0x2000
    &&& bss_clear(b, segs[1])
}

/// What the test says of the payload, where a process could be made for it.
pub open spec fn payload_verdict(k: &Kernel, b: Seq<u8>, r: Result<(), &'static str>) -> bool {
    let segs = elf::parsed(b)->Ok_0.1;
    if segs[1].memsz == 0x2000 {
        if k.fa.available() < 7 {
            r matches Err(e) && elf::out_of_frames(e)
        } else if bss_clear(b, segs[1]) {
            r == Ok::<(), &'static str>(())
        } else {
            r == Err::<(), &'static str>("bss canary not fully zero under the target's CR3")
        }
    } else {
        if k.fa.available() < 1 + elf::fresh_cost(segs) {
            r matches Err(e) && elf::out_of_frames(e)
        } else {
            r == Err::<(), &'static str>("expected exactly 3 mapped pages (text + meta + bss)")
        }
    }
}

/// What the payload's segments cost: one page of text, two of data, all
/// within one last-level table.
pub proof fn lemma_payload_pages(b: Seq<u8>, segs: Seq<SegInfo>)
    requires
        is_payload(b, segs),
    ensures
        elf::sound(b, segs),
        segs.len() == 2,
        elf::pages_below(segs, 2) == 3 <==> segs[1].memsz == 0x2000,
        elf::block_of(segs) == 0x200,
        segs[1].memsz == 0x2000 ==> forall|v: int| #[trigger]
            elf::in_image(segs, v) ==> 0x200 <= v < 0x203,
{
    elf::law_accepted_images(b);
    crate::bits::lemma_ceil_div(segs[0].memsz as int, 4096);
    crate::bits::lemma_ceil_div(segs[1].memsz as int, 4096);
    reveal_with_fuel(elf::pages_below, 3);
    assert(segs[0].pages() == 1);
    if segs[1].memsz == 0x2000 {
        assert forall|v: int| #[trigger] elf::in_image(segs, v) implies 0x200 <= v < 0x203 by {
            let i = choose|i: int|
                0 <= i < segs.len() && elf::in_pages(#[trigger] segs[i], segs[i].pages(), v);
            assert(i == 0 || i == 1);
        }
    }
}

/// The image sits in process `pid` of `k`, and the pool that `k1` had will be
/// whole again once the process is torn down.
#[verifier::opaque]
pub open spec fn image_in(k1: &Kernel, k: &Kernel, segs: Seq<SegInfo>, pid: u64) -> bool {
    let rt = accounts::root_of(k, pid);
    &&& k.wf()
    &&& pid == k1.procs.next_pid
    &&& paging::is_root(k.pg.mem.seats@, rt)
    &&& proc::find(k.procs.slots@, pid) is Some
    &&& accounts::in_account(&k1.fa, k, rt)
    &&& accounts::tidy(k, rt)
    &&& k.fa.same_pool(&k1.fa)
    &&& k1.fa.free - k1.fa.available() == k.fa.free - k.fa.available()
    &&& k.pg.live_root != rt
    &&& segs.len() > 0
    &&& elf::taken(&k.pg.mem, rt, elf::block_of(segs))
    &&& exists|k2: Kernel|
        {
            &&& #[trigger] proc::created(k1, &k2, "elfLoad")
            &&& k2.wf()
            &&& k.procs == k2.procs
            &&& k2.pg.live_root == k1.pg.live_root
            &&& k.pg.live_root == k1.pg.live_root
            &&& paging::seats_kept(&k2.pg.mem, &k.pg.mem)
        }
}

/// The run `p` of a load answers `res`.
pub open spec fn load_tried_by(
    k1: &Kernel,
    k3: &Kernel,
    b: Seq<u8>,
    entry: u64,
    segs: Seq<SegInfo>,
    baseline: int,
    res: Result<u64, &'static str>,
    p: (Kernel, Option<&'static str>),
) -> bool {
    load_tried(k1, &p.0, k3, b, segs, p.1) && res == (match p.1 {
        Some(e) => Err::<u64, &'static str>(e),
        None => match size_fault(entry, segs, baseline - k3.fa.free) {
            Some(e) => Err(e),
            None => Ok(k1.procs.next_pid),
        },
    })
}

/// What a process with the image loaded is good for.
#[verifier::spinoff_prover]
#[verifier::rlimit(40)]
proof fn lemma_image_in(k1: &Kernel, k2: &Kernel, k: &Kernel, b: Seq<u8>, segs: Seq<SegInfo>)
    requires
        k1.wf(),
        m3::live_root_stands(k1),
        elf::parsed(b) matches Ok((_, all)) && all == segs,
        load_tried(k1, k2, k, b, segs, None),
        accounts::charged(k2, k, accounts::root_of(k2, k1.procs.next_pid)),
    ensures
        image_in(k1, k, segs, k1.procs.next_pid),
{
    reveal(image_tried);
    let pid = k1.procs.next_pid;
    let rt = accounts::root_of(k2, pid);
    elf::law_accepted_images(b);
    lemma_load_target(k1, k2, b, segs);
    elf::law_second_load_is_refused(*k2, *k, rt, b);
    lemma_loaded_tidy(k2, k, rt, b, segs);
    accounts::law_charges_keep_account(k1.fa, *k2, *k, rt);
    reveal(image_in);
    reveal(target_made);
}

/// Load an image into a process that none of its pages is mapped in.
#[verifier::spinoff_prover]
#[verifier::rlimit(60)]
pub(crate) fn load_bare(k: &mut Kernel, img: &[u8], pid: u64) -> (r: Result<LoadInfo, &'static str>)
    requires
        old(k).wf(),
        proc::find(old(k).procs.slots@, pid) is Some,
        elf::parsed(img@) matches Ok((_, segs)) ==> elf::chargeable(
            old(k),
            accounts::root_of(old(k), pid),
            segs,
        ),
    ensures
        final(k).wf(),
        final(k).procs == old(k).procs,
        rest::kept_but(
            old(k),
            final(k),
            Set::empty().insert(accounts::root_of(old(k), pid)),
            Set::empty(),
        ),
        elf::parsed(img@) matches Err(e) ==> r is Err && r->Err_0 == e && *final(k) == *old(k),
        elf::parsed(img@) is Ok && r is Ok ==> {
            let (entry, segs) = elf::parsed(img@)->Ok_0;
            let root = accounts::root_of(old(k), pid);
            &&& r->Ok_0.entry == entry
            &&& r->Ok_0.pages == elf::pages_below(segs, segs.len() as int)
            &&& image_tried(old(k), final(k), root, img@, segs, None)
            &&& accounts::charged(old(k), final(k), root)
        },
        elf::parsed(img@) is Ok && r is Err ==> image_tried(
            old(k),
            final(k),
            accounts::root_of(old(k), pid),
            img@,
            elf::parsed(img@)->Ok_0.1,
            Some(r->Err_0),
        ),
{
    let ghost k2 = *k;
    let ghost b = img@;
    let ghost segs = elf::parsed(b)->Ok_0.1;
    let ghost rt = accounts::root_of(&k2, pid);
    let r = elf::load(k, img, pid);
    proof {
        proc::lemma_find_bounds(k2.procs.slots@, pid);
        if elf::parsed(b) is Err {
            rest::lemma_same(&k2, k);
            rest::lemma_weaker(&k2, k, rt);
        }
        if elf::parsed(b) is Ok {
            match r {
                Err(e) => {
                    lemma_bare_breaks(&k2, k, rt, b, segs, e);
                    rest::lemma_edited(&k2, k, rt);
                    lemma_tried_broke(&k2, k, rt, b, segs, e);
                },
                Ok(_) => {
                    rest::lemma_edited(&k2, k, rt);
                    lemma_tried_whole(&k2, k, rt, b, segs);
                },
            }
        }
    }
    r
}

proof fn lemma_tried_broke(
    k2: &Kernel,
    k: &Kernel,
    root: int,
    b: Seq<u8>,
    segs: Seq<SegInfo>,
    e: &'static str,
)
    requires
        elf::load_frame(k2, k, root),
        views::edited(&k2.pg.mem, &k2.fa, &k.pg.mem, &k.fa, root),
        elf::out_of_frames(e),
        elf::broken_off(k2, k, root, b, segs, e),
        k2.fa.available() < elf::load_cost(
            k2,
            root,
            elf::image_pages(segs, segs.len() as int),
        ),
        elf::compact(k2, root, segs) ==> k2.fa.available() < elf::pages_below(
            segs,
            segs.len() as int,
        ) + 3,
    ensures
        image_tried(k2, k, root, b, segs, Some(e)),
{
    reveal(image_tried);
}

proof fn lemma_tried_whole(k2: &Kernel, k: &Kernel, root: int, b: Seq<u8>, segs: Seq<SegInfo>)
    requires
        elf::load_frame(k2, k, root),
        views::edited(&k2.pg.mem, &k2.fa, &k.pg.mem, &k.fa, root),
        elf::loaded(k2, k, root, b, segs, segs.len() as int, 0),
        k.fa.available() == k2.fa.available() - elf::load_cost(
            k2,
            root,
            elf::image_pages(segs, segs.len() as int),
        ),
        elf::compact(k2, root, segs) ==> elf::compact_cost(
            k2,
            k,
            root,
            segs,
            elf::pages_below(segs, segs.len() as int),
        ),
    ensures
        image_tried(k2, k, root, b, segs, None),
{
    reveal(image_tried);
}

/// Loading takes frames and gives none back.
pub proof fn lemma_tried_frames(
    k2: &Kernel,
    k: &Kernel,
    root: int,
    b: Seq<u8>,
    segs: Seq<SegInfo>,
    broke: Option<&'static str>,
)
    requires
        k2.wf(),
        image_tried(k2, k, root, b, segs, broke),
    ensures
        k.wf(),
        k.fa.free <= k2.fa.free,
        k.fa.same_pool(&k2.fa),
        k2.fa.free - k2.fa.available() == k.fa.free - k.fa.available(),
{
    reveal(image_tried);
    assert forall|j: int| 0 <= j < frames::FRAME_COUNT && !#[trigger] frames::used(
        k.fa.map@,
        j,
    ) implies !frames::used(k2.fa.map@, j) by {}
    frames::lemma_free_le(k.fa.map@, k2.fa.map@, frames::FRAME_COUNT as int);
}

/// The process that was made is there.
proof fn lemma_target_found(k1: &Kernel, k2: &Kernel)
    requires
        k1.wf(),
        k2.wf(),
        target_made(k1, k2),
    ensures
        proc::find(k2.procs.slots@, k1.procs.next_pid) is Some,
        proc::kept(&k1.procs, &k2.procs),
{
    reveal(target_made);
    accounts::lemma_created(k1, k2, "elfLoad");
    proc::lemma_kept_created(k1, k2, "elfLoad");
}

/// A process was made, and the load into it broke off.
spec fn broke_in(k1: &Kernel, k: &Kernel, b: Seq<u8>, segs: Seq<SegInfo>, e: &'static str) -> bool {
    exists|k2: Kernel| #[trigger] load_tried(k1, &k2, k, b, segs, Some(e))
}

/// The address space of the process that was made is new.
proof fn lemma_target_new(k1: &Kernel, k2: &Kernel)
    requires
        k1.wf(),
        k2.wf(),
        target_made(k1, k2),
    ensures
        !frames::used(k1.fa.map@, accounts::root_of(k2, k1.procs.next_pid) / 4096),
{
    reveal(target_made);
    accounts::lemma_created(k1, k2, "elfLoad");
}

/// Make a process and load the image into it.
#[verifier::spinoff_prover]
#[verifier::rlimit(60)]
fn make_and_load(k: &mut Kernel, img: &[u8]) -> (r: Result<(u64, LoadInfo), &'static str>)
    requires
        old(k).wf(),
        old(k).procs.next_pid < u64::MAX,
        m3::live_root_stands(old(k)),
        old(k).fa.available() >= 1,
        !proc::full(old(k).procs.slots@),
    ensures
        final(k).wf(),
        proc::kept(&old(k).procs, &final(k).procs),
        rest::kept(old(k), final(k)),
        elf::parsed(img@) matches Err(e) ==> r is Err && r->Err_0 == e,
        elf::parsed(img@) is Ok && r is Ok ==> {
            let (entry, segs) = elf::parsed(img@)->Ok_0;
            let (pid, info) = r->Ok_0;
            &&& pid == old(k).procs.next_pid
            &&& info.entry == entry
            &&& info.pages == elf::pages_below(segs, segs.len() as int)
            &&& image_in(old(k), final(k), segs, pid)
            &&& final(k).fa.free <= old(k).fa.free
        },
        elf::parsed(img@) is Ok && r is Ok ==> exists|k2: Kernel| #[trigger]
            load_tried(old(k), &k2, final(k), img@, elf::parsed(img@)->Ok_0.1, None),
        elf::parsed(img@) is Ok && r is Err ==> broke_in(
            old(k),
            final(k),
            img@,
            elf::parsed(img@)->Ok_0.1,
            r->Err_0,
        ),
{
    let ghost k1 = *k;
    proof {
        frames::lemma_free_bounds(k1.fa.map@, frames::FRAME_COUNT as int);
    }
    let pid: u64 = match proc::create(k, "elfLoad") {
        Err(e) => {
            return Err(e);
        },
        Ok(p) => p,
    };
    let ghost k2 = *k;
    proof {
        assert(target_made(&k1, &k2)) by {
            reveal(target_made);
        }
        lemma_target_found(&k1, &k2);
    }
    let ghost segs = elf::parsed(img@)->Ok_0.1;
    proof {
        elf::law_accepted_images(img@);
        if elf::parsed(img@) is Ok {
            lemma_load_target(&k1, &k2, img@, segs);
        }
    }
    let done: Result<LoadInfo, &'static str> = load_bare(k, img, pid);
    proof {
        lemma_target_new(&k1, &k2);
        rest::lemma_mine(&k1, &k2, k, accounts::root_of(&k2, pid));
    }
    match done {
        Err(e) => {
            proof {
                if elf::parsed(img@) is Ok {
                    assert(load_tried(&k1, &k2, k, img@, segs, Some(e)));
                    assert(broke_in(&k1, k, img@, segs, e));
                }
            }
            Err(e)
        },
        Ok(i) => {
            proof {
                lemma_image_in(&k1, &k2, k, img@, segs);
                lemma_tried_frames(&k2, k, accounts::root_of(&k2, pid), img@, segs, None);
                assert(load_tried(&k1, &k2, k, img@, segs, None));
            }
            Ok((pid, i))
        },
    }
}

/// Make a process, load the image into it and check the size of it.
#[verifier::spinoff_prover]
fn load_image(k: &mut Kernel, img: &[u8], baseline: u64) -> (r: Result<u64, &'static str>)
    requires
        old(k).wf(),
        old(k).procs.next_pid < u64::MAX,
        m3::live_root_stands(old(k)),
        old(k).fa.available() >= 1,
        !proc::full(old(k).procs.slots@),
        baseline == old(k).fa.free,
    ensures
        final(k).wf(),
        proc::kept(&old(k).procs, &final(k).procs),
        rest::kept(old(k), final(k)),
        match elf::parsed(img@) {
            Err(e) => r == Err::<u64, &'static str>(e),
            Ok((entry, segs)) => {
                &&& exists|p: (Kernel, Option<&'static str>)| #[trigger]
                    load_tried_by(old(k), final(k), img@, entry, segs, baseline as int, r, p)
                &&& r matches Ok(pid) ==> image_in(old(k), final(k), segs, pid)
            },
        },
{
    let ghost k1 = *k;
    let ghost b = img@;
    let ghost entry = elf::parsed(b)->Ok_0.0;
    let ghost segs = elf::parsed(b)->Ok_0.1;
    let (pid, loaded): (u64, LoadInfo) = match make_and_load(k, img) {
        Err(e) => {
            proof {
                if elf::parsed(b) is Ok {
                    let k2 = choose|k2: Kernel| #[trigger]
                        load_tried(&k1, &k2, k, b, segs, Some(e));
                    assert(load_tried_by(
                        &k1,
                        k,
                        b,
                        entry,
                        segs,
                        baseline as int,
                        Err(e),
                        (k2, Some(e)),
                    ));
                }
            }
            return Err(e);
        },
        Ok(x) => x,
    };
    proof {
        let k2 = choose|k2: Kernel| #[trigger] load_tried(&k1, &k2, k, b, segs, None);
        let res: Result<u64, &'static str> = match size_fault(entry, segs, baseline - k.fa.free) {
            Some(e) => Err(e),
            None => Ok(pid),
        };
        assert(load_tried_by(&k1, k, b, entry, segs, baseline as int, res, (k2, None)));
    }
    if loaded.entry != PAYLOAD_ENTRY {
        return Err("LoadInfo.entry is not the image entry");
    }
    if loaded.pages != 3 {
        return Err("expected exactly 3 mapped pages (text + meta + bss)");
    }
    let spent: u64 = baseline - frames::free_frames(&k.fa);
    if spent != 7 {
        return Err("create+load did not spend exactly 7 frames (root + 3 tables + 3 leaves)");
    }
    Ok(pid)
}

/// A load into a bare process breaks off for want of frames alone.
proof fn lemma_bare_breaks(
    k2: &Kernel,
    k: &Kernel,
    root: int,
    b: Seq<u8>,
    segs: Seq<SegInfo>,
    e: &'static str,
)
    requires
        elf::chargeable(k2, root, segs),
        elf::broken_off(k2, k, root, b, segs, e),
    ensures
        elf::out_of_frames(e),
        views::edited(&k2.pg.mem, &k2.fa, &k.pg.mem, &k.fa, root),
{
    let (n, q) = choose|n: int, q: int| #[trigger] elf::broke_off(k2, k, root, b, segs, n, q, e);
    let v = segs[n].vaddr as int / 4096 + q;
    assert(elf::in_image(segs, v));
    assert(paging::leaf(k2.pg.mem.words@, root, v) is None);
}

/// Check the mappings of the loaded image, that it cannot be loaded twice, and
/// its bytes.
#[verifier::spinoff_prover]
#[verifier::rlimit(60)]
fn inspect(k: &mut Kernel, img: &[u8], pid: u64, Ghost(k1): Ghost<Kernel>) -> (r: Result<
    (),
    &'static str,
>)
    requires
        elf::parsed(img@) is Ok,
        image_in(&k1, old(k), elf::parsed(img@)->Ok_0.1, pid),
    ensures
        final(k).wf(),
        *final(k) == *old(k),
        r == (match seen_fault(
            old(k).pg.mem.words@,
            accounts::root_of(old(k), pid),
            img@,
            elf::parsed(img@)->Ok_0.1,
        ) {
            Some(e) => Err::<(), &'static str>(e),
            None => Ok(()),
        }),
{
    proof {
        reveal(image_in);
        elf::law_accepted_images(img@);
        proc::lemma_find_bounds(k.procs.slots@, pid);
    }
    let root: u64 = match proc::pml4_of(&k.procs, pid) {
        None => {
            return Err("target lost its pml4");
        },
        Some(x) => x,
    };
    if let Some(e) = check_flags(&k.pg.mem, root) {
        return Err(e);
    }
    let before: u64 = frames::free_frames(&k.fa);
    if elf::load(k, img, pid).is_ok() {
        return Err("double load into the same space was not refused");
    }
    if frames::free_frames(&k.fa) != before {
        return Err("refused double-load leaked frames");
    }
    let text: SegInfo = match elf::validate(img) {
        Err(e) => {
            return Err(e);
        },
        Ok(info) => {
            assert(info.segments()[0] == info.segs@[0]);
            info.segs[0]
        },
    };
    match check_bytes(&k.pg.mem, root, img, text) {
        Some(e) => Err(e),
        None => Ok(()),
    }
}

/// Tear the process down that the image was loaded into.
fn unload(k: &mut Kernel, pid: u64, Ghost(k1): Ghost<Kernel>, Ghost(segs): Ghost<Seq<SegInfo>>) -> (r:
    Result<u64, &'static str>)
    requires
        k1.wf(),
        m3::live_root_stands(&k1),
        image_in(&k1, old(k), segs, pid),
        rest::kept(&k1, old(k)),
    ensures
        r is Ok,
        final(k).wf(),
        m3::one_gone(&k1, final(k)),
        rest::kept(&k1, final(k)),
{
    let ghost k3 = *k;
    proof {
        reveal(image_in);
    }
    let r = accounts::close_account(k, pid, Ghost(k1.fa));
    proof {
        let k2 = choose|k2: Kernel|
            {
                &&& #[trigger] proc::created(&k1, &k2, "elfLoad")
                &&& k2.wf()
                &&& k3.procs == k2.procs
                &&& k2.pg.live_root == k1.pg.live_root
                &&& k3.pg.live_root == k1.pg.live_root
                &&& paging::seats_kept(&k2.pg.mem, &k3.pg.mem)
            };
        m3::lemma_one_gone(&k1, &k2, &k3, k, "elfLoad");
        let root = accounts::root_of(&k3, pid);
        assert(paging::is_table(k3.pg.mem.words@, k3.pg.mem.seats@, root));
        assert(proc::goes_back(&k3, root, root / 4096));
        assert(frames::used(k3.fa.map@, root / 4096));
        rest::lemma_gone(&k1, &k3, k, root);
    }
    r
}

/// Load an image into a fresh process and check what came of it: the cost, the
/// mappings, that a second load is refused, the bytes, and that tearing the
/// process down gives everything back.
#[verifier::spinoff_prover]
#[verifier::rlimit(60)]
pub fn test_elf_load(k: &mut Kernel, img: &[u8]) -> (r: Result<(), &'static str>)
    requires
        old(k).wf(),
        old(k).procs.next_pid < u64::MAX - 1,
        m3::live_root_stands(old(k)),
    ensures
        final(k).wf(),
        proc::kept(&old(k).procs, &final(k).procs),
        rest::kept(old(k), final(k)),
        old(k).fa.available() < 1 ==> r == Err::<(), &'static str>(
            "frame exhaustion: no PML4 root for a process",
        ),
        old(k).fa.available() >= 1 && proc::full(old(k).procs.slots@) ==> r == Err::<
            (),
            &'static str,
        >("process table full (MAX_PROCESSES)"),
        old(k).fa.available() >= 1 && !proc::full(old(k).procs.slots@) ==> {
            &&& load_answer(old(k), img@, r)
            &&& payload_answer(img@) is Ok ==> payload_verdict(old(k), img@, r)
        },
        payload_answer(img@) is Ok ==> (r is Ok <==> load_passes(old(k), img@)),
        r is Ok ==> {
            &&& accounts::same_frames(&old(k).fa, &final(k).fa)
            &&& m3::same_processes(&old(k).procs, &final(k).procs)
            &&& final(k).procs.next_pid == old(k).procs.next_pid + 2
            &&& final(k).procs.created == old(k).procs.created + 2
        },
{
    let ghost k0 = *k;
    let ghost b = img@;
    let ghost entry = elf::parsed(b)->Ok_0.0;
    let ghost segs = elf::parsed(b)->Ok_0.1;
    proof {
        frames::lemma_free_bounds(k0.fa.map@, frames::FRAME_COUNT as int);
    }
    let baseline: u64 = frames::free_frames(&k.fa);
    match ghost_round(k, img) {
        Err(e) => {
            return Err(e);
        },
        Ok(_) => {},
    }
    let ghost k1 = *k;
    proof {
        m3::lemma_kept_same(&k0.procs, &k1.procs);
        frames::lemma_free_bounds(k1.fa.map@, frames::FRAME_COUNT as int);
        assert(!proc::full(k1.procs.slots@)) by {
            let j = choose|j: int|
                0 <= j < k0.procs.slots@.len() && !(#[trigger] k0.procs.slots@[j] is Some);
            assert(k1.procs.slots@[j] is None);
        }
    }
    let res = load_image(k, img, baseline);
    let ghost k3 = *k;
    let ghost run = choose|p: (Kernel, Option<&'static str>)| #[trigger]
        load_tried_by(&k1, &k3, b, entry, segs, baseline as int, res, p);
    proof {
        proc::lemma_kept_kept(&k0.procs, &k1.procs, &k3.procs);
        rest::lemma_kept_kept(&k0, &k1, &k3);
        if elf::parsed(b) is Ok {
            assert(load_run(&k0, &k1, &run.0, &k3, b, segs, run.1));
            if payload_answer(b) is Ok {
                lemma_payload_verdict(&k0, &k1, &run.0, &k3, b, segs, run.1);
            }
        }
    }
    let pid: u64 = match res {
        Err(e) => {
            return Err(e);
        },
        Ok(p) => p,
    };
    if let Err(e) = inspect(k, img, pid, Ghost(k1)) {
        return Err(e);
    }
    if let Err(e) = unload(k, pid, Ghost(k1), Ghost(segs)) {
        return Err(e);
    }
    proof {
        lemma_one_and_one(&k0, &k1, k);
        m3::lemma_kept_same(&k0.procs, &k.procs);
        rest::lemma_kept_kept(&k0, &k1, k);
    }
    if frames::free_frames(&k.fa) != baseline {
        return Err("destroy did not reclaim the loaded image exactly");
    }
    Ok(())
}

/// What a run over the payload comes to.
#[verifier::spinoff_prover]
#[verifier::rlimit(40)]
proof fn lemma_payload_verdict(
    k0: &Kernel,
    k1: &Kernel,
    k2: &Kernel,
    k3: &Kernel,
    b: Seq<u8>,
    segs: Seq<SegInfo>,
    broke: Option<&'static str>,
)
    requires
        k0.wf(),
        m3::live_root_stands(k1),
        is_payload(b, segs),
        load_run(k0, k1, k2, k3, b, segs, broke),
    ensures
        payload_verdict(
            k0,
            b,
            load_verdict(k0, k1, k3, b, PAYLOAD_ENTRY, segs, broke),
        ),
{
    reveal(image_tried);
    let pid = k1.procs.next_pid;
    let rt = accounts::root_of(k2, pid);
    lemma_payload_pages(b, segs);
    lemma_load_target(k1, k2, b, segs);
    lemma_payload_compact(k1, k2, b, segs);
    lemma_fresh_target(k1, k2, b, segs);
    frames::lemma_free_bounds(k3.fa.map@, frames::FRAME_COUNT as int);
    assert(accounts::root_of(k3, pid) == rt);
    if broke is None && segs[1].memsz == 0x2000 {
        lemma_flags_right(k2, k3, rt, b, segs);
        lemma_bytes_right(k2, k3, rt, b, segs);
    }
}

/// The payload hangs in one table of a fresh process.
proof fn lemma_payload_compact(k1: &Kernel, k2: &Kernel, b: Seq<u8>, segs: Seq<SegInfo>)
    requires
        k1.wf(),
        k2.wf(),
        is_payload(b, segs),
        target_made(k1, k2),
    ensures
        segs[1].memsz == 0x2000 ==> elf::compact(
            k2,
            accounts::root_of(k2, k1.procs.next_pid),
            segs,
        ),
{
    reveal(target_made);
    let rt = accounts::root_of(k2, k1.procs.next_pid);
    accounts::lemma_created(k1, k2, "elfLoad");
    accounts::lemma_bare_created(k1, k2, "elfLoad");
    accounts::lemma_bare_missing(k2, rt, 0x200);
    lemma_payload_pages(b, segs);
}

/// A fresh process has none of the tables of an image.
proof fn lemma_fresh_target(k1: &Kernel, k2: &Kernel, b: Seq<u8>, segs: Seq<SegInfo>)
    requires
        k1.wf(),
        k2.wf(),
        elf::sound(b, segs),
        target_made(k1, k2),
    ensures
        elf::load_cost(
            k2,
            accounts::root_of(k2, k1.procs.next_pid),
            elf::image_pages(segs, segs.len() as int),
        ) == elf::fresh_cost(segs),
{
    reveal(target_made);
    let rt = accounts::root_of(k2, k1.procs.next_pid);
    accounts::lemma_created(k1, k2, "elfLoad");
    accounts::lemma_bare_created(k1, k2, "elfLoad");
    lemma_bare_cost(k2, rt, b, segs);
}

/// A bare process has none of the tables of an image.
pub proof fn lemma_bare_cost(k: &Kernel, root: int, b: Seq<u8>, segs: Seq<SegInfo>)
    requires
        k.wf(),
        accounts::bare(k, root),
        elf::sound(b, segs),
    ensures
        elf::load_cost(k, root, elf::image_pages(segs, segs.len() as int)) == elf::fresh_cost(
            segs,
        ),
{
    assert forall|v: int| #[trigger] elf::in_image(segs, v) implies paging::missing(
        k.pg.mem.words@,
        root,
        v,
    ) == 3 by {
        elf::lemma_image_pages(b, segs, v);
        accounts::lemma_bare_missing(k, root, v);
    }
    elf::lemma_fresh_cost(k, root, segs);
}

/// A fresh process is a place where an image can be loaded and paid for.
proof fn lemma_load_target(k1: &Kernel, k2: &Kernel, b: Seq<u8>, segs: Seq<SegInfo>)
    requires
        k1.wf(),
        k2.wf(),
        m3::live_root_stands(k1),
        elf::sound(b, segs),
        target_made(k1, k2),
    ensures
        ({
            let pid = k1.procs.next_pid;
            let rt = accounts::root_of(k2, pid);
            &&& proc::find(k2.procs.slots@, pid) is Some
            &&& proc::find(k2.procs.slots@, pid) matches Some(i) && 0 <= i < k2.procs.slots@.len()
                && k2.procs.slots@[i] is Some
            &&& accounts::in_account(&k1.fa, k2, rt)
            &&& elf::chargeable(k2, rt, segs)
            &&& k2.pg.live_root != rt
            &&& k2.fa.available() == k1.fa.available() - 1
            &&& k2.fa.free == k1.fa.free - 1
            &&& k2.fa.same_pool(&k1.fa)
            &&& forall|v: int|
                0 <= v < paging::USER_PAGES ==> #[trigger] paging::leaf(
                    k2.pg.mem.words@,
                    rt,
                    v,
                ) is None
        }),
{
    reveal(target_made);
    let pid = k1.procs.next_pid;
    let rt = accounts::root_of(k2, pid);
    accounts::lemma_created(k1, k2, "elfLoad");
    accounts::lemma_bare_created(k1, k2, "elfLoad");
    accounts::law_create_opens_account(*k1, *k2, "elfLoad");
    proc::lemma_find_bounds(k2.procs.slots@, pid);
    assert forall|v: int| elf::in_image(segs, v) implies #[trigger] paging::leaf(
        k2.pg.mem.words@,
        rt,
        v,
    ) is None by {
        elf::lemma_image_pages(b, segs, v);
    }
    assert(k1.pg.mem.seats@.dom().contains(k1.pg.live_root as int));
}

proof fn lemma_one_and_one(k0: &Kernel, k1: &Kernel, k2: &Kernel)
    requires
        m3::one_gone(k0, k1),
        m3::one_gone(k1, k2),
    ensures
        accounts::same_frames(&k0.fa, &k2.fa),
        m3::same_processes(&k0.procs, &k2.procs),
        k2.procs.next_pid == k0.procs.next_pid + 2,
        k2.procs.created == k0.procs.created + 2,
{
    assert forall|j: int| 0 <= j < frames::FRAME_COUNT implies #[trigger] frames::used(
        k2.fa.map@,
        j,
    ) == frames::used(k0.fa.map@, j) by {
        assert(frames::used(k1.fa.map@, j) == frames::used(k0.fa.map@, j));
    }
    let s0 = k0.procs.slots@;
    let s2 = k2.procs.slots@;
    assert forall|j: int| 0 <= j < s0.len() implies {
        &&& #[trigger] s2[j] is Some <==> s0[j] is Some
        &&& s0[j] matches Some(p) ==> s2[j]->0.same_but_caps(&p)
    } by {
        assert(k1.procs.slots@[j] is Some <==> s0[j] is Some);
    }
    assert forall|q: u64| #[trigger] crate::cap::slots_of(&k2.procs, q) == crate::cap::slots_of(
        &k0.procs,
        q,
    ) by {
        assert(crate::cap::slots_of(&k1.procs, q) == crate::cap::slots_of(&k0.procs, q));
    }
}

/// Every counter of the console can still count to `n`.
pub open spec fn counts_left(c: &Console, n: int) -> bool {
    &&& c.stats.rx_bytes + n <= u64::MAX
    &&& c.stats.lines_in + n <= u64::MAX
    &&& c.stats.dropped_lines + n <= u64::MAX
    &&& c.stats.dropped_bytes + n <= u64::MAX
    &&& c.stats.truncations + n <= u64::MAX
    &&& c.stats.reads + n <= u64::MAX
    &&& c.stats.blocks + n <= u64::MAX
}

/// Nothing is typed, queued or waited for.
pub open spec fn console_idle(c: &Console) -> bool {
    &&& c.wf()
    &&& c.edit@ == Seq::<u8>::empty()
    &&& c.lines() == Seq::<Seq<u8>>::empty()
    &&& c.waiter == console::NO_TID
}

/// The counters after `b` was fed to an edit line `edit` over `depth` queued
/// lines.
pub open spec fn key_counted(edit: Seq<u8>, depth: nat, s: ConsoleStats, b: u8) -> ConsoleStats {
    let t = ConsoleStats { rx_bytes: (s.rx_bytes + 1) as u64, ..s };
    if console::commits(b) && edit.len() > 0 {
        ConsoleStats {
            lines_in: (t.lines_in + 1) as u64,
            dropped_lines: if depth == console::QUEUE_DEPTH {
                (t.dropped_lines + 1) as u64
            } else {
                t.dropped_lines
            },
            ..t
        }
    } else if console::printable(b) && edit.len() >= console::LINE_MAX {
        ConsoleStats { dropped_bytes: (t.dropped_bytes + 1) as u64, ..t }
    } else {
        t
    }
}

/// The counters after all of `keys`.
pub open spec fn keys_counted(
    edit: Seq<u8>,
    lines: Seq<Seq<u8>>,
    s: ConsoleStats,
    keys: Seq<u8>,
) -> ConsoleStats
    decreases keys.len(),
{
    if keys.len() == 0 {
        s
    } else {
        keys_counted(
            console::edit_after(edit, keys[0]),
            console::lines_after(edit, lines, keys[0]),
            key_counted(edit, lines.len(), s, keys[0]),
            keys.drop_first(),
        )
    }
}

/// The counters `s` after that many more bytes, lines, dropped lines, reads and
/// cut reads.
pub open spec fn counted(
    s: ConsoleStats,
    rx: int,
    lines: int,
    drops: int,
    reads: int,
    cuts: int,
) -> ConsoleStats {
    ConsoleStats {
        rx_bytes: (s.rx_bytes + rx) as u64,
        lines_in: (s.lines_in + lines) as u64,
        dropped_lines: (s.dropped_lines + drops) as u64,
        reads: (s.reads + reads) as u64,
        truncations: (s.truncations + cuts) as u64,
        ..s
    }
}

/// Type `keys`.
fn type_keys(c: &mut Console, keys: &[u8], Ghost(n): Ghost<int>)
    requires
        old(c).wf(),
        counts_left(old(c), n),
        keys@.len() < n,
    ensures
        final(c).wf(),
        counts_left(final(c), n - keys@.len()),
        (final(c).edit@, final(c).lines()) == console::fed(old(c).edit@, old(c).lines(), keys@),
        final(c).stats == keys_counted(old(c).edit@, old(c).lines(), old(c).stats, keys@),
        final(c).waiter == old(c).waiter,
{
    let total: usize = keys.len();
    let mut i: usize = 0;
    assert(keys@.skip(0) =~= keys@);
    while i < total
        invariant
            i <= total,
            total == keys@.len(),
            c.wf(),
            total < n,
            counts_left(c, n - i),
            c.waiter == old(c).waiter,
            console::fed(old(c).edit@, old(c).lines(), keys@) == console::fed(
                c.edit@,
                c.lines(),
                keys@.skip(i as int),
            ),
            keys_counted(old(c).edit@, old(c).lines(), old(c).stats, keys@) == keys_counted(
                c.edit@,
                c.lines(),
                c.stats,
                keys@.skip(i as int),
            ),
        decreases total - i,
    {
        assert(keys@.skip(i as int)[0] == keys@[i as int]);
        assert(keys@.skip(i as int).drop_first() =~= keys@.skip(i + 1));
        let _ = console::feed(c, keys[i]);
        i = i + 1;
    }
    assert(keys@.skip(i as int) =~= Seq::<u8>::empty());
}

/// Whether two byte strings are equal.
fn same_bytes(a: &[u8], b: &[u8]) -> (r: bool)
    ensures
        r == (a@ == b@),
{
    if a.len() != b.len() {
        return false;
    }
    let n: usize = a.len();
    let mut i: usize = 0;
    while i < n
        invariant
            i <= n,
            n == a@.len(),
            n == b@.len(),
            forall|j: int| 0 <= j < i ==> #[trigger] a@[j] == b@[j],
        decreases n - i,
    {
        if a[i] != b[i] {
            assert(a@[i as int] != b@[i as int]);
            return false;
        }
        i = i + 1;
    }
    assert(a@ =~= b@);
    true
}

/// Read a line that must be there, and compare it.
fn expect_line(
    c: &mut Console,
    max: usize,
    want: &[u8],
    refused: &'static str,
    wrong: &'static str,
    Ghost(n): Ghost<int>,
) -> (r: Result<(), &'static str>)
    requires
        old(c).wf(),
        counts_left(old(c), n),
        1 < n,
        old(c).waiter == console::NO_TID,
    ensures
        final(c).wf(),
        counts_left(final(c), n - 1),
        final(c).edit@ == old(c).edit@,
        if old(c).lines().len() == 0 {
            r == Err::<(), &'static str>(refused)
        } else {
            &&& final(c).waiter == console::NO_TID
            &&& final(c).lines() == old(c).lines().drop_first()
            &&& final(c).stats == counted(
                old(c).stats,
                0,
                0,
                0,
                1,
                if old(c).lines()[0].len() > max {
                    1
                } else {
                    0
                },
            )
            &&& r == (if console::clipped(old(c).lines()[0], max as nat) == want@ {
                Ok::<(), &'static str>(())
            } else {
                Err(wrong)
            })
        },
{
    match console::read_line(c, 0, max) {
        Ok(Some(line)) => if same_bytes(&line, want) {
            Ok(())
        } else {
            Err(wrong)
        },
        _ => Err(refused),
    }
}

/// An erased key, an empty line, and a line cut to the reader's room.
#[verifier::spinoff_prover]
#[verifier::rlimit(40)]
fn console_edits(c: &mut Console, Ghost(n): Ghost<int>) -> (r: Result<(), &'static str>)
    requires
        console_idle(old(c)),
        counts_left(old(c), n),
        n > 20,
    ensures
        r is Ok,
        console_idle(final(c)),
        counts_left(final(c), n - 15),
        final(c).stats == counted(old(c).stats, 13, 2, 0, 2, 1),
{
    let k1: [u8; 5] = [0x61, 0x62, 0x7F, 0x63, 0x0D];
    type_keys(c, &k1, Ghost(n));
    proof {
        lemma_edited_line(Seq::empty(), old(c).stats);
        assert(k1@ =~= seq![0x61u8, 0x62, 0x7F, 0x63, 0x0D]);
    }
    let w1: [u8; 2] = [0x61, 0x63];
    assert(w1@ =~= seq![0x61u8, 0x63]);
    if let Err(e) = expect_line(
        c,
        console::LINE_MAX,
        &w1,
        "read refused a queued line",
        "backspace edit did not produce 'ac'",
        Ghost(n - 5),
    ) {
        return Err(e);
    }
    assert(c.lines() =~= Seq::<Seq<u8>>::empty());
    let k2: [u8; 1] = [0x0D];
    type_keys(c, &k2, Ghost(n - 6));
    proof {
        assert(k2@ =~= seq![0x0Du8]);
        console::law_empty_line(Seq::empty(), 0x0D);
        assert(k2@.drop_first() =~= Seq::<u8>::empty());
        reveal_with_fuel(keys_counted, 2);
    }
    if console::pending_lines(c) != 0 {
        return Err("an empty line reached the queue");
    }
    let ghost c2 = c.stats;
    let k3: [u8; 7] = [0x75, 0x76, 0x77, 0x78, 0x79, 0x7A, 0x0D];
    type_keys(c, &k3, Ghost(n - 7));
    proof {
        let s = seq![0x75u8, 0x76, 0x77, 0x78, 0x79, 0x7A];
        assert(k3@ =~= s.push(0x0D));
        console::law_typed_line(Seq::empty(), s, 0x0D);
        lemma_line_counted(Seq::empty(), Seq::empty(), c2, s);
        assert(s.take(3) =~= seq![0x75u8, 0x76, 0x77]);
    }
    let w3: [u8; 3] = [0x75, 0x76, 0x77];
    assert(w3@ =~= seq![0x75u8, 0x76, 0x77]);
    if let Err(e) = expect_line(
        c,
        3,
        &w3,
        "truncating read refused",
        "truncated read wrong",
        Ghost(n - 14),
    ) {
        return Err(e);
    }
    assert(c.lines() =~= Seq::<Seq<u8>>::empty());
    Ok(())
}

proof fn lemma_edited_line(lines: Seq<Seq<u8>>, s: ConsoleStats)
    requires
        s.rx_bytes + 5 <= u64::MAX,
        s.lines_in < u64::MAX,
        lines.len() < console::QUEUE_DEPTH,
    ensures
        console::fed(Seq::empty(), lines, seq![0x61u8, 0x62, 0x7F, 0x63, 0x0D]) == (
            Seq::<u8>::empty(),
            console::committed(lines, seq![0x61u8, 0x63]),
        ),
        keys_counted(Seq::empty(), lines, s, seq![0x61u8, 0x62, 0x7F, 0x63, 0x0D]) == counted(
            s,
            5,
            1,
            0,
            0,
            0,
        ),
{
    let e = Seq::<u8>::empty();
    let k5 = seq![0x61u8, 0x62, 0x7F, 0x63, 0x0D];
    let k4 = seq![0x62u8, 0x7F, 0x63, 0x0D];
    let k3 = seq![0x7Fu8, 0x63, 0x0D];
    let k2 = seq![0x63u8, 0x0D];
    let k1 = seq![0x0Du8];
    assert(k5.drop_first() =~= k4);
    assert(k4.drop_first() =~= k3);
    assert(k3.drop_first() =~= k2);
    assert(k2.drop_first() =~= k1);
    assert(k1.drop_first() =~= e);
    assert(e.push(0x61u8).push(0x62u8).drop_last() =~= e.push(0x61u8));
    assert(e.push(0x61u8).push(0x63u8) =~= seq![0x61u8, 0x63]);
    reveal_with_fuel(console::fed, 6);
    reveal_with_fuel(keys_counted, 6);
}

/// Typing `s` and its end into an empty edit line counts its bytes and one line.
proof fn lemma_line_counted(edit: Seq<u8>, lines: Seq<Seq<u8>>, c: ConsoleStats, s: Seq<u8>)
    requires
        edit.len() + s.len() < console::LINE_MAX,
        edit.len() + s.len() > 0,
        forall|i: int| 0 <= i < s.len() ==> console::printable(#[trigger] s[i]),
        c.rx_bytes + s.len() + 1 <= u64::MAX,
        c.lines_in < u64::MAX,
        c.dropped_lines < u64::MAX,
    ensures
        keys_counted(edit, lines, c, s.push(0x0D)) == counted(
            c,
            s.len() as int + 1,
            1,
            if lines.len() == console::QUEUE_DEPTH {
                1
            } else {
                0
            },
            0,
            0,
        ),
    decreases s.len(),
{
    let k = s.push(0x0D);
    reveal_with_fuel(keys_counted, 2);
    if s.len() == 0 {
        assert(k.drop_first() =~= Seq::<u8>::empty());
    } else {
        assert(k.drop_first() =~= s.drop_first().push(0x0D));
        assert(k[0] == s[0]);
        assert(console::printable(s[0]));
        let c1 = key_counted(edit, lines.len(), c, s[0]);
        let e1 = console::edit_after(edit, s[0]);
        assert forall|i: int| 0 <= i < s.drop_first().len() implies console::printable(
            #[trigger] s.drop_first()[i],
        ) by {
            assert(s.drop_first()[i] == s[i + 1]);
        }
        assert(e1 == edit.push(s[0]));
        assert(console::lines_after(edit, lines, s[0]) == lines);
        lemma_line_counted(e1, lines, c1, s.drop_first());
    }
}

/// Line `l<i>` and its end.
fn type_numbered(c: &mut Console, digit: u8, Ghost(n): Ghost<int>)
    requires
        old(c).wf(),
        old(c).edit@ == Seq::<u8>::empty(),
        counts_left(old(c), n),
        n > 3,
        0x31 <= digit <= 0x39,
    ensures
        final(c).wf(),
        final(c).edit@ == Seq::<u8>::empty(),
        counts_left(final(c), n - 3),
        final(c).stats == counted(
            old(c).stats,
            3,
            1,
            if old(c).lines().len() == console::QUEUE_DEPTH {
                1
            } else {
                0
            },
            0,
            0,
        ),
        final(c).waiter == old(c).waiter,
        final(c).lines() == console::committed(old(c).lines(), seq![0x6Cu8, digit]),
{
    let k: [u8; 3] = [0x6C, digit, 0x0D];
    proof {
        assert(k@ =~= seq![0x6Cu8, digit].push(0x0D));
        console::law_typed_line(c.lines(), seq![0x6Cu8, digit], 0x0D);
        lemma_line_counted(Seq::empty(), c.lines(), c.stats, seq![0x6Cu8, digit]);
    }
    type_keys(c, &k, Ghost(n));
}

/// Five lines into a queue of four: the oldest goes, the order stays.
#[verifier::spinoff_prover]
#[verifier::rlimit(40)]
fn console_overflow(c: &mut Console, Ghost(n): Ghost<int>) -> (r: Result<(), &'static str>)
    requires
        console_idle(old(c)),
        counts_left(old(c), n),
        n > 20,
    ensures
        r is Ok,
        console_idle(final(c)),
        counts_left(final(c), n - 19),
        final(c).stats == counted(old(c).stats, 15, 5, 1, 4, 0),
{
    type_numbered(c, 0x31, Ghost(n));
    type_numbered(c, 0x32, Ghost(n - 3));
    type_numbered(c, 0x33, Ghost(n - 6));
    type_numbered(c, 0x34, Ghost(n - 9));
    type_numbered(c, 0x35, Ghost(n - 12));
    assert(c.lines() =~= seq![
        seq![0x6Cu8, 0x32u8],
        seq![0x6Cu8, 0x33u8],
        seq![0x6Cu8, 0x34u8],
        seq![0x6Cu8, 0x35u8],
    ]);
    let mut d: u8 = 0x32;
    while d < 0x36
        invariant
            0x32 <= d <= 0x36,
            c.wf(),
            n > 20,
            c.edit@ == Seq::<u8>::empty(),
            c.waiter == console::NO_TID,
            counts_left(c, n - 15 - (d - 0x32)),
            counts_left(old(c), n),
            c.stats == counted(old(c).stats, 15, 5, 1, d - 0x32, 0),
            c.lines().len() == 0x36 - d,
            forall|i: int|
                0 <= i < c.lines().len() ==> #[trigger] c.lines()[i] == seq![
                    0x6Cu8,
                    (d + i) as u8,
                ],
        decreases 0x36 - d,
    {
        let want: [u8; 2] = [0x6C, d];
        assert(want@ =~= seq![0x6Cu8, d]);
        assert(c.lines()[0] == seq![0x6Cu8, (d + 0) as u8]);
        let ghost before = c.lines();
        if let Err(e) = expect_line(
            c,
            console::LINE_MAX,
            &want,
            "queued read refused",
            "queue order wrong after oldest-drop",
            Ghost(n - 15 - (d - 0x32)),
        ) {
            return Err(e);
        }
        d = d + 1;
        assert forall|i: int| 0 <= i < c.lines().len() implies #[trigger] c.lines()[i] == seq![
            0x6Cu8,
            (d + i) as u8,
        ] by {
            assert(c.lines()[i] == before[i + 1]);
        }
    }
    assert(c.lines() =~= Seq::<Seq<u8>>::empty());
    Ok(())
}

/// The line discipline does what it should on an idle console, and leaves it
/// idle.
pub fn test_console_edits(c: &mut Console) -> (r: Result<(), &'static str>)
    requires
        console_idle(old(c)),
        counts_left(old(c), 64),
    ensures
        r is Ok,
        console_idle(final(c)),
        final(c).stats == counted(old(c).stats, 28, 7, 1, 6, 1),
{
    if let Err(e) = console_edits(c, Ghost(64)) {
        return Err(e);
    }
    console_overflow(c, Ghost(49))
}

/// What a look at the shell's image says: it must be valid, it must be the image
/// that the registry hands out, and it must have a text and a data segment.
pub open spec fn shell_answer(b: Seq<u8>, registered: Option<Seq<u8>>) -> Result<(), &'static str> {
    match elf::parsed(b) {
        Err(e) => Err(e),
        Ok((_, segs)) => if registered != Some(b) {
            Err("registry image 1 is not the embedded shell")
        } else if segs.len() != 2 {
            Err("shell image is not exactly two PT_LOAD segments (W^X text + data/bss)")
        } else {
            Ok(())
        },
    }
}

/// Check the shell's image against what the registry hands out.
pub fn test_shell_image(img: &[u8], registered: Option<&[u8]>) -> (r: Result<(), &'static str>)
    ensures
        r == shell_answer(
            img@,
            match registered {
                Some(s) => Some(s@),
                None => None,
            },
        ),
{
    match elf::validate(img) {
        Err(e) => Err(e),
        Ok(info) => {
            let same = match registered {
                Some(s) => same_bytes(s, img),
                None => false,
            };
            if !same {
                Err("registry image 1 is not the embedded shell")
            } else if info.nsegs != 2 {
                Err("shell image is not exactly two PT_LOAD segments (W^X text + data/bss)")
            } else {
                Ok(())
            }
        },
    }
}

} // verus!

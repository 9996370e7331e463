//! A small x86-64 assembler for the programs that the self-tests run in
//! ring 3.
//!
//! A program is a listing of instructions. A jump names its target by the
//! target's place in the listing; any place after the last instruction is the
//! end of the code, where a message may follow.

use vstd::prelude::*;
use crate::bytes;

verus! {

/// One instruction. A register is named by its number (0 is rax, 1 rcx, 2 rdx,
/// 3 rbx, 5 rbp, 6 rsi, 7 rdi, 8 to 15 r8 to r15), a target by its place in the
/// listing.
#[derive(Clone, Copy, Debug, PartialEq, Eq, Structural)]
pub enum Insn {
    /// `mov eax, imm32`
    MovEax(u32),
    /// `mov ecx, imm32`
    MovEcx(u32),
    /// `mov edi, imm32`
    MovEdi(u32),
    /// `mov esi, imm32`
    MovEsi(u32),
    /// `movabs reg, imm64`
    Movabs(u8, u64),
    /// `mov rax, [imm64]`
    LoadRaxAbs(u64),
    /// `mov reg, [rbx + disp8]`
    LoadRbx(u8, u8),
    /// `mov rax, [rbx + disp32]`
    LoadRaxRbxFar(u32),
    /// `mov rax, [rcx]`
    LoadRaxRcx,
    /// `mov rdx, [r8]`
    LoadRdxR8,
    /// `mov [rbx + disp8], rax`
    StoreRaxRbx(u8),
    /// `mov [rdi], rax`
    StoreRaxRdi,
    /// `mov [r8 + disp8], rax`
    StoreRaxR8(u8),
    /// `mov [rcx], rdx`
    StoreRdxRcx,
    /// `mov rbx, rax`
    MovRbxRax,
    /// `mov rcx, rax`
    MovRcxRax,
    /// `xor esi, esi`
    ZeroEsi,
    /// `dec ecx`
    DecEcx,
    /// `dec rcx`
    DecRcx,
    /// `test al, al`
    TestAl,
    /// `test rax, rax`
    TestRax,
    /// Compare rax with a sign-extended 8-bit value.
    CompareRaxByte(u8),
    /// Compare rax with a sign-extended 32-bit value.
    CompareRaxWord(u32),
    /// Compare rax with a register below 8.
    CompareRaxReg(u8),
    /// Compare a register with rax.
    CompareRegRax(u8),
    /// Compare the byte at `rbx + disp8` with an 8-bit value.
    CompareByteRbx(u8, u8),
    /// `pause`
    Pause,
    /// `cli`
    Cli,
    /// `syscall`
    Syscall,
    /// `jmp $`
    Stay,
    /// `lea rdi, [target]`
    LeaRdi(usize),
    /// `jne target`, with a 32-bit displacement.
    Jne(usize),
    /// `je target`, with a 32-bit displacement.
    Je(usize),
    /// `js target`, with a 32-bit displacement.
    Js(usize),
    /// `jne target`, with an 8-bit displacement.
    JneShort(usize),
    /// `jle target`, with an 8-bit displacement.
    JleShort(usize),
    /// `jbe target`, with an 8-bit displacement.
    JbeShort(usize),
}

/// The bytes of an instruction before its displacement, if it has one.
#[verifier::opaque]
pub open spec fn head(i: Insn) -> Seq<u8> {
    match i {
        Insn::MovEax(v) => seq![0xB8u8] + bytes::le_bytes(v as int, 4),
        Insn::MovEcx(v) => seq![0xB9u8] + bytes::le_bytes(v as int, 4),
        Insn::MovEdi(v) => seq![0xBFu8] + bytes::le_bytes(v as int, 4),
        Insn::MovEsi(v) => seq![0xBEu8] + bytes::le_bytes(v as int, 4),
        Insn::Movabs(r, v) => seq![wide(r), 0xB8u8 | r & 7] + bytes::le_bytes(v as int, 8),
        Insn::LoadRaxAbs(v) => seq![0x48u8, 0xA1u8] + bytes::le_bytes(v as int, 8),
        Insn::LoadRbx(r, d) => if d == 0 {
            seq![0x48u8, 0x8Bu8, (r & 7) << 3u8 | 3]
        } else {
            seq![0x48u8, 0x8Bu8, (r & 7) << 3u8 | 0x43, d]
        },
        Insn::LoadRaxRbxFar(v) => seq![0x48u8, 0x8Bu8, 0x83u8] + bytes::le_bytes(v as int, 4),
        Insn::LoadRaxRcx => seq![0x48u8, 0x8Bu8, 0x01u8],
        Insn::LoadRdxR8 => seq![0x49u8, 0x8Bu8, 0x10u8],
        Insn::StoreRaxRbx(d) => if d == 0 {
            seq![0x48u8, 0x89u8, 0x03u8]
        } else {
            seq![0x48u8, 0x89u8, 0x43u8, d]
        },
        Insn::StoreRaxRdi => seq![0x48u8, 0x89u8, 0x07u8],
        Insn::StoreRaxR8(d) => if d == 0 {
            seq![0x49u8, 0x89u8, 0x00u8]
        } else {
            seq![0x49u8, 0x89u8, 0x40u8, d]
        },
        Insn::StoreRdxRcx => seq![0x48u8, 0x89u8, 0x11u8],
        Insn::MovRbxRax => seq![0x48u8, 0x89u8, 0xC3u8],
        Insn::MovRcxRax => seq![0x48u8, 0x89u8, 0xC1u8],
        Insn::ZeroEsi => seq![0x31u8, 0xF6u8],
        Insn::DecEcx => seq![0xFFu8, 0xC9u8],
        Insn::DecRcx => seq![0x48u8, 0xFFu8, 0xC9u8],
        Insn::TestAl => seq![0x84u8, 0xC0u8],
        Insn::TestRax => seq![0x48u8, 0x85u8, 0xC0u8],
        Insn::CompareRaxByte(v) => seq![0x48u8, 0x83u8, 0xF8u8, v],
        Insn::CompareRaxWord(v) => seq![0x48u8, 0x3Du8] + bytes::le_bytes(v as int, 4),
        Insn::CompareRaxReg(r) => seq![0x48u8, 0x39u8, 0xC0u8 | (r & 7) << 3u8],
        Insn::CompareRegRax(r) => seq![wide(r), 0x39u8, 0xC0u8 | r & 7],
        Insn::CompareByteRbx(d, v) => if d == 0 {
            seq![0x80u8, 0x3Bu8, v]
        } else {
            seq![0x80u8, 0x7Bu8, d, v]
        },
        Insn::Pause => seq![0xF3u8, 0x90u8],
        Insn::Cli => seq![0xFAu8],
        Insn::Syscall => seq![0x0Fu8, 0x05u8],
        Insn::Stay => seq![0xEBu8, 0xFEu8],
        Insn::LeaRdi(_) => seq![0x48u8, 0x8Du8, 0x3Du8],
        Insn::Jne(_) => seq![0x0Fu8, 0x85u8],
        Insn::Je(_) => seq![0x0Fu8, 0x84u8],
        Insn::Js(_) => seq![0x0Fu8, 0x88u8],
        Insn::JneShort(_) => seq![0x75u8],
        Insn::JleShort(_) => seq![0x7Eu8],
        Insn::JbeShort(_) => seq![0x76u8],
    }
}

/// The prefix of a 64-bit instruction on register `r`.
pub open spec fn wide(r: u8) -> u8 {
    if r >= 8 {
        0x49
    } else {
        0x48
    }
}

/// The target of an instruction with a 32-bit displacement.
pub open spec fn far_target(i: Insn) -> Option<usize> {
    match i {
        Insn::LeaRdi(t) => Some(t),
        Insn::Jne(t) => Some(t),
        Insn::Je(t) => Some(t),
        Insn::Js(t) => Some(t),
        _ => None,
    }
}

/// The target of an instruction with an 8-bit displacement.
pub open spec fn short_target(i: Insn) -> Option<usize> {
    match i {
        Insn::JneShort(t) => Some(t),
        Insn::JleShort(t) => Some(t),
        Insn::JbeShort(t) => Some(t),
        _ => None,
    }
}

/// How many bytes an instruction takes.
pub open spec fn size(i: Insn) -> int {
    head(i).len() + (if far_target(i) is Some {
        4int
    } else if short_target(i) is Some {
        1int
    } else {
        0int
    })
}

/// Where instruction `k` starts.
pub open spec fn start(l: Seq<Insn>, k: int) -> int
    decreases k,
{
    if k <= 0 {
        0
    } else {
        start(l, k - 1) + size(l[k - 1])
    }
}

/// The address that target `t` names: the start of instruction `t`, or the end
/// of the code.
pub open spec fn place(l: Seq<Insn>, t: usize) -> int {
    if t < l.len() {
        start(l, t as int)
    } else {
        start(l, l.len() as int)
    }
}

/// The bytes of instruction `k`: a displacement counts from the end of the
/// instruction.
pub open spec fn piece(l: Seq<Insn>, k: int) -> Seq<u8> {
    let after = start(l, k + 1);
    if far_target(l[k]) is Some {
        head(l[k]) + bytes::le_bytes(
            (place(l, far_target(l[k])->0) - after) % 0x1_0000_0000,
            4,
        )
    } else if short_target(l[k]) is Some {
        head(l[k]).push(((place(l, short_target(l[k])->0) - after) % 256) as u8)
    } else {
        head(l[k])
    }
}

/// The bytes of the first `k` instructions.
pub open spec fn code(l: Seq<Insn>, k: int) -> Seq<u8>
    decreases k,
{
    if k <= 0 {
        Seq::empty()
    } else {
        code(l, k - 1) + piece(l, k - 1)
    }
}

/// The longest listing that `assemble` takes.
pub const MAX_LISTING: usize = 400;

proof fn lemma_size(i: Insn)
    ensures
        1 <= size(i) <= 10,
{
    reveal(head);
}

proof fn lemma_start_bounds(l: Seq<Insn>, k: int)
    requires
        0 <= k,
    ensures
        0 <= start(l, k) <= 10 * k,
    decreases k,
{
    if k > 0 {
        lemma_start_bounds(l, k - 1);
        lemma_size(l[k - 1]);
    }
}

fn put(out: &mut Vec<u8>, b: &[u8])
    ensures
        final(out)@ == old(out)@ + b@,
{
    let n: usize = b.len();
    let mut k: usize = 0;
    while k < n
        invariant
            k <= n,
            n == b@.len(),
            out@ == old(out)@ + b@.take(k as int),
        decreases n - k,
    {
        out.push(b[k]);
        assert(b@.take(k as int + 1) =~= b@.take(k as int).push(b@[k as int]));
        k = k + 1;
    }
    assert(b@.take(n as int) =~= b@);
}

/// Append the low `n` bytes of `v`.
fn put_le(out: &mut Vec<u8>, v: u64, n: usize)
    requires
        n <= 8,
    ensures
        final(out)@ == old(out)@ + bytes::le_bytes(v as int, n as nat),
{
    let mut k: usize = 0;
    while k < n
        invariant
            k <= n <= 8,
            out@ =~= old(out)@ + bytes::le_bytes(v as int, k as nat),
        decreases n - k,
    {
        out.push(bytes::byte_of(v, k));
        k = k + 1;
    }
}

fn wide_prefix(r: u8) -> (p: u8)
    ensures
        p == wide(r),
{
    if r >= 8 {
        0x49
    } else {
        0x48
    }
}

fn put_head(out: &mut Vec<u8>, i: Insn)
    ensures
        final(out)@ == old(out)@ + head(i),
{
    reveal(head);
    match i {
        Insn::MovEax(v) => {
            put(out, &[0xB8u8]);
            put_le(out, v as u64, 4);
        },
        Insn::MovEcx(v) => {
            put(out, &[0xB9u8]);
            put_le(out, v as u64, 4);
        },
        Insn::MovEdi(v) => {
            put(out, &[0xBFu8]);
            put_le(out, v as u64, 4);
        },
        Insn::MovEsi(v) => {
            put(out, &[0xBEu8]);
            put_le(out, v as u64, 4);
        },
        Insn::Movabs(r, v) => {
            put(out, &[wide_prefix(r), 0xB8u8 | r & 7]);
            put_le(out, v, 8);
        },
        Insn::LoadRaxAbs(v) => {
            put(out, &[0x48u8, 0xA1u8]);
            put_le(out, v, 8);
        },
        Insn::LoadRbx(r, d) => if d == 0 {
            put(out, &[0x48u8, 0x8Bu8, (r & 7) << 3u8 | 3]);
        } else {
            put(out, &[0x48u8, 0x8Bu8, (r & 7) << 3u8 | 0x43, d]);
        },
        Insn::LoadRaxRbxFar(v) => {
            put(out, &[0x48u8, 0x8Bu8, 0x83u8]);
            put_le(out, v as u64, 4);
        },
        Insn::LoadRaxRcx => put(out, &[0x48u8, 0x8Bu8, 0x01u8]),
        Insn::LoadRdxR8 => put(out, &[0x49u8, 0x8Bu8, 0x10u8]),
        Insn::StoreRaxRbx(d) => if d == 0 {
            put(out, &[0x48u8, 0x89u8, 0x03u8]);
        } else {
            put(out, &[0x48u8, 0x89u8, 0x43u8, d]);
        },
        Insn::StoreRaxRdi => put(out, &[0x48u8, 0x89u8, 0x07u8]),
        Insn::StoreRaxR8(d) => if d == 0 {
            put(out, &[0x49u8, 0x89u8, 0x00u8]);
        } else {
            put(out, &[0x49u8, 0x89u8, 0x40u8, d]);
        },
        Insn::StoreRdxRcx => put(out, &[0x48u8, 0x89u8, 0x11u8]),
        Insn::MovRbxRax => put(out, &[0x48u8, 0x89u8, 0xC3u8]),
        Insn::MovRcxRax => put(out, &[0x48u8, 0x89u8, 0xC1u8]),
        Insn::ZeroEsi => put(out, &[0x31u8, 0xF6u8]),
        Insn::DecEcx => put(out, &[0xFFu8, 0xC9u8]),
        Insn::DecRcx => put(out, &[0x48u8, 0xFFu8, 0xC9u8]),
        Insn::TestAl => put(out, &[0x84u8, 0xC0u8]),
        Insn::TestRax => put(out, &[0x48u8, 0x85u8, 0xC0u8]),
        Insn::CompareRaxByte(v) => put(out, &[0x48u8, 0x83u8, 0xF8u8, v]),
        Insn::CompareRaxWord(v) => {
            put(out, &[0x48u8, 0x3Du8]);
            put_le(out, v as u64, 4);
        },
        Insn::CompareRaxReg(r) => put(out, &[0x48u8, 0x39u8, 0xC0u8 | (r & 7) << 3u8]),
        Insn::CompareRegRax(r) => put(out, &[wide_prefix(r), 0x39u8, 0xC0u8 | r & 7]),
        Insn::CompareByteRbx(d, v) => if d == 0 {
            put(out, &[0x80u8, 0x3Bu8, v]);
        } else {
            put(out, &[0x80u8, 0x7Bu8, d, v]);
        },
        Insn::Pause => put(out, &[0xF3u8, 0x90u8]),
        Insn::Cli => put(out, &[0xFAu8]),
        Insn::Syscall => put(out, &[0x0Fu8, 0x05u8]),
        Insn::Stay => put(out, &[0xEBu8, 0xFEu8]),
        Insn::LeaRdi(_) => put(out, &[0x48u8, 0x8Du8, 0x3Du8]),
        Insn::Jne(_) => put(out, &[0x0Fu8, 0x85u8]),
        Insn::Je(_) => put(out, &[0x0Fu8, 0x84u8]),
        Insn::Js(_) => put(out, &[0x0Fu8, 0x88u8]),
        Insn::JneShort(_) => put(out, &[0x75u8]),
        Insn::JleShort(_) => put(out, &[0x7Eu8]),
        Insn::JbeShort(_) => put(out, &[0x76u8]),
    }
    assert(out@ =~= old(out)@ + head(i));
}

/// The target of an instruction, and whether its displacement is short.
fn target_of(i: Insn) -> (r: Option<(usize, bool)>)
    ensures
        match r {
            None => far_target(i) is None && short_target(i) is None,
            Some((t, false)) => far_target(i) == Some(t),
            Some((t, true)) => far_target(i) is None && short_target(i) == Some(t),
        },
{
    match i {
        Insn::LeaRdi(t) => Some((t, false)),
        Insn::Jne(t) => Some((t, false)),
        Insn::Je(t) => Some((t, false)),
        Insn::Js(t) => Some((t, false)),
        Insn::JneShort(t) => Some((t, true)),
        Insn::JleShort(t) => Some((t, true)),
        Insn::JbeShort(t) => Some((t, true)),
        _ => None,
    }
}

/// Where each instruction of `l` starts, and where the code ends.
fn layout(l: &[Insn]) -> (r: Vec<usize>)
    requires
        l@.len() <= MAX_LISTING,
    ensures
        r@.len() == l@.len() + 1,
        forall|k: int| 0 <= k <= l@.len() ==> #[trigger] r@[k] == start(l@, k),
{
    let mut r: Vec<usize> = Vec::new();
    let mut scratch: Vec<u8> = Vec::new();
    r.push(0);
    let n: usize = l.len();
    let mut k: usize = 0;
    let mut at: usize = 0;
    while k < n
        invariant
            k <= n,
            n == l@.len(),
            n <= MAX_LISTING,
            at == start(l@, k as int),
            at <= 10 * k,
            r@.len() == k + 1,
            forall|j: int| 0 <= j <= k ==> #[trigger] r@[j] == start(l@, j),
        decreases n - k,
    {
        scratch.clear();
        put_head(&mut scratch, l[k]);
        proof {
            lemma_size(l@[k as int]);
        }
        let tail: usize = match target_of(l[k]) {
            None => 0,
            Some((_, short)) => if short {
                1
            } else {
                4
            },
        };
        at = at + scratch.len() + tail;
        r.push(at);
        k = k + 1;
    }
    r
}

/// The 32 bits that lead from `from` to `to`.
fn displacement(to: u64, from: u64) -> (r: u64)
    requires
        to <= 4000,
        from <= 4000,
    ensures
        r == (to - from) % 0x1_0000_0000,
        r as int % 256 == (to - from) % 256,
{
    if to >= from {
        to - from
    } else {
        0x1_0000_0000 - (from - to)
    }
}

/// The machine code of a listing.
pub fn assemble(l: &[Insn]) -> (r: Vec<u8>)
    requires
        l@.len() <= MAX_LISTING,
    ensures
        r@ == code(l@, l@.len() as int),
        r@.len() <= 10 * l@.len(),
{
    proof {
        lemma_code_len(l@, l@.len() as int);
        lemma_start_bounds(l@, l@.len() as int);
    }
    let starts: Vec<usize> = layout(l);
    let mut out: Vec<u8> = Vec::new();
    let n: usize = l.len();
    let mut k: usize = 0;
    while k < n
        invariant
            k <= n,
            n == l@.len(),
            n <= MAX_LISTING,
                starts@.len() == n + 1,
            forall|j: int| 0 <= j <= n ==> #[trigger] starts@[j] == start(l@, j),
            out@ == code(l@, k as int),
        decreases n - k,
    {
        let ghost before = out@;
        put_head(&mut out, l[k]);
        match target_of(l[k]) {
            None => {},
            Some((t, short)) => {
                proof {
                    lemma_start_bounds(l@, t as int);
                    lemma_start_bounds(l@, n as int);
                    lemma_start_bounds(l@, k as int + 1);
                }
                let to: u64 = starts[if t < n {
                    t
                } else {
                    n
                }] as u64;
                let from: u64 = starts[k + 1] as u64;
                let d: u64 = displacement(to, from);
                if short {
                    out.push((d % 256) as u8);
                } else {
                    put_le(&mut out, d, 4);
                }
            },
        }
        assert(out@ =~= before + piece(l@, k as int));
        k = k + 1;
    }
    out
}

/// The machine code of a listing, with `tail` behind it.
pub fn assemble_with(l: &[Insn], tail: &[u8]) -> (r: Vec<u8>)
    requires
        l@.len() <= MAX_LISTING,
    ensures
        r@ == code(l@, l@.len() as int) + tail@,
{
    let mut out: Vec<u8> = assemble(l);
    put(&mut out, tail);
    out
}

/// Each instruction stands where the layout says.
pub proof fn law_layout(l: Seq<Insn>, k: int, n: int)
    requires
        0 <= k < n <= l.len(),
    ensures
        code(l, n).len() == start(l, n),
        0 <= start(l, k) < start(l, k + 1) <= start(l, n),
        code(l, n).subrange(start(l, k), start(l, k + 1)) == piece(l, k),
    decreases n,
{
    lemma_start_bounds(l, k);
    lemma_size(l[k]);
    lemma_size(l[n - 1]);
    lemma_code_len(l, n);
    lemma_code_len(l, n - 1);
    if k < n - 1 {
        law_layout(l, k, n - 1);
    } else {
        assert(piece(l, k).len() == size(l[k]));
    }
    assert(code(l, n).subrange(start(l, k), start(l, k + 1)) =~= piece(l, k));
}

/// Code is as long as its layout says, and no instruction takes more than ten
/// bytes.
pub proof fn law_code_fits(l: Seq<Insn>)
    ensures
        code(l, l.len() as int).len() == start(l, l.len() as int),
        code(l, l.len() as int).len() <= 10 * l.len(),
{
    lemma_code_len(l, l.len() as int);
    lemma_start_bounds(l, l.len() as int);
}

proof fn lemma_code_len(l: Seq<Insn>, n: int)
    ensures
        code(l, n).len() == start(l, n),
    decreases n,
{
    if n > 0 {
        lemma_code_len(l, n - 1);
        assert(piece(l, n - 1).len() == size(l[n - 1]));
    }
}

/// The number that the `2 * half` bit patterns below `x` stand for when the top
/// bit is a sign.
pub open spec fn signed(x: int, half: int) -> int {
    if x >= half {
        x - 2 * half
    } else {
        x
    }
}

/// A jump with a 32-bit displacement goes where its target starts: the address
/// after the instruction plus the signed displacement is the target's.
pub proof fn law_far_jump_lands(l: Seq<Insn>, k: int)
    requires
        0 <= k < l.len() <= MAX_LISTING,
        far_target(l[k]) is Some,
    ensures
        start(l, k + 1) + signed(
            bytes::le32_at(code(l, l.len() as int), start(l, k) + head(l[k]).len()),
            0x8000_0000,
        ) == place(l, far_target(l[k])->0),
{
    let n = l.len() as int;
    let t = far_target(l[k])->0;
    law_layout(l, k, n);
    lemma_start_bounds(l, t as int);
    lemma_start_bounds(l, n);
    lemma_start_bounds(l, k + 1);
    lemma_size(l[k]);
    let d = (place(l, t) - start(l, k + 1)) % 0x1_0000_0000;
    let h = head(l[k]).len() as int;
    let c = code(l, n);
    let s = start(l, k);
    let p = piece(l, k);
    assert(c.subrange(s, start(l, k + 1)) == p);
    assert forall|j: int| 0 <= j < 4 implies #[trigger] c[s + h + j] == bytes::le_byte(d, j) by {
        assert(p[h + j] == bytes::le_byte(d, j));
        assert(c[s + h + j] == c.subrange(s, start(l, k + 1))[h + j]);
    }
    assert(c[s + h + 0] == bytes::le_byte(d, 0));
    assert(c[s + h + 1] == bytes::le_byte(d, 1));
    assert(c[s + h + 2] == bytes::le_byte(d, 2));
    assert(c[s + h + 3] == bytes::le_byte(d, 3));
    lemma_le32(c, s + h, d);
}

proof fn lemma_le32(b: Seq<u8>, at: int, d: int)
    requires
        0 <= d < 0x1_0000_0000,
        b[at] == bytes::le_byte(d, 0),
        b[at + 1] == bytes::le_byte(d, 1),
        b[at + 2] == bytes::le_byte(d, 2),
        b[at + 3] == bytes::le_byte(d, 3),
    ensures
        bytes::le32_at(b, at) == d,
{
}

/// A jump with an 8-bit displacement goes where its target starts, if the
/// target is near enough.
pub proof fn law_short_jump_lands(l: Seq<Insn>, k: int)
    requires
        0 <= k < l.len() <= MAX_LISTING,
        short_target(l[k]) is Some,
        -128 <= place(l, short_target(l[k])->0) - start(l, k + 1) <= 127,
    ensures
        start(l, k + 1) + signed(
            code(l, l.len() as int)[start(l, k) + head(l[k]).len()] as int,
            0x80,
        ) == place(l, short_target(l[k])->0),
{
    let n = l.len() as int;
    law_layout(l, k, n);
    let h = head(l[k]).len() as int;
    let c = code(l, n);
    let s = start(l, k);
    assert(c[s + h] == c.subrange(s, start(l, k + 1))[h]);
}

} // verus!

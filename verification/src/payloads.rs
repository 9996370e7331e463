//! The programs that the self-tests run in ring 3, and the windows they run in.

use vstd::prelude::*;
use crate::listing;
use crate::listing::Insn;
use crate::syscall::{
    SYS_ABI_ECHO6, SYS_CONSOLE_READ, SYS_DEBUG_WRITE, SYS_IPC_CALL, SYS_IPC_RECV, SYS_IPC_REPLY,
    SYS_NOTIFY, SYS_PROVE_DONE, SYS_PROVE_RING3, SYS_SPAWN, SYS_THREAD_EXIT, SYS_WAIT,
};

verus! {

pub const U3_CODE_VA: u64 = 0x40_0000;

pub const U3_DATA_VA: u64 = 0x40_1000;

pub const U3_STACK_VA: u64 = 0x7FF0_0000;

pub const U3_STACK_TOP: u64 = U3_STACK_VA + 4096;

pub const M4_CODE_VA: u64 = 0x50_0000;

pub const M4_DATA_VA: u64 = 0x50_1000;

pub const M4_STACK_VA: u64 = 0x7FE0_0000;

pub const M4_STACK_TOP: u64 = M4_STACK_VA + 4096;

/// The window of the IPC, spawn and console programs.
pub const I_CODE: u64 = 0x51_0000;

pub const I_DATA: u64 = 0x51_1000;

pub const I_STACK: u64 = 0x51_2000;

pub const I_STACK_TOP: u64 = 0x51_3000;

pub const M5_CODE_VA: u64 = 0x51_0000;

pub const M5_DATA_VA: u64 = 0x51_1000;

pub const M5_STACK_VA: u64 = 0x7FD0_0000;

pub const M5_STACK_TOP: u64 = M5_STACK_VA + 4096;

/// The word that the frame program writes through its mapping.
pub const M5_MAGIC: u64 = 0xDEAD_BEEF_CAFE_0051;

/// The rounds that the spin program waits.
pub const U9_SPIN_BOUND: u32 = 20_000_000;

pub const EXIT_OK: u32 = 42;

pub const EXIT_CODE_WIDE: u64 = 0x0000_BEEF_C0DE_0042;

pub const ECHO_ARG_0: u64 = 0x0123_4567_89AB_CDEF;

pub const ECHO_ARG_1: u64 = 0xFEDC_BA98_7654_3210;

pub const ECHO_ARG_2: u64 = 0x0F1E_2D3C_4B5A_6978;

pub const ECHO_ARG_3: u64 = 0x8765_4321_FEDC_BA98;

pub const ECHO_ARG_4: u64 = 0xDEAD_BEEF_CAFE_F00D;

pub const ECHO_ARG_5: u64 = 0x5A5A_A5A5_1234_4321;

pub const CANARY_0: u64 = 0x1111_2222_3333_4444;

pub const CANARY_1: u64 = 0x5555_6666_7777_8888;

pub const CANARY_2: u64 = 0x9999_AAAA_BBBB_CCCC;

pub const CANARY_3: u64 = 0xDDDD_EEEE_FFFF_0001;

pub const CANARY_4: u64 = 0x0102_0304_0506_0708;

pub const CANARY_5: u64 = 0x0A0B_0C0D_0E0F_0102;

/// The slots and values that the IPC programs use.
pub const IPC_EP_SLOT: u64 = 0;

pub const IPC_NOTIF_SLOT: u64 = 1;

pub const IPC_MEM_SLOT: u64 = 2;

pub const IPC_PAT0: u64 = 0x434C_4945_4E54_3031;

pub const IPC_PAT1: u64 = 0x574F_5244_4F4E_4531;

pub const IPC_BADGE: u64 = 0xBEEF;

pub const SPAWN_BADGE: u64 = 0xE7E7;

/// The read and copy rights as a register value.
pub const RIGHTS_READ_COPY: u64 = 5;

pub const READER_BUF: u64 = I_DATA + 0x100;

/// The low bytes of the statuses -1, -2 and -3.
pub const BYTE_BAD_CALL: u8 = 0xFF;

pub const BYTE_BAD_ARG: u8 = 0xFE;

pub const BYTE_BAD_ADDRESS: u8 = 0xFD;

pub const U3_MSG_A_LEN: u32 = 18;

pub const U3_MSG_B_LEN: u32 = 14;

pub const M4_MSG_LEN: u32 = 18;

/// `USER32-SYSWRITE-OK`
pub open spec fn u3_msg_a_bytes() -> Seq<u8> {
    seq![0x55u8, 0x53u8, 0x45u8, 0x52u8, 0x33u8, 0x32u8, 0x2Du8, 0x53u8, 0x59u8, 0x53u8, 0x57u8, 0x52u8, 0x49u8, 0x54u8, 0x45u8, 0x2Du8, 0x4Fu8, 0x4Bu8]
}

/// `USER32-SYSWRITE-OK`
pub fn u3_msg_a() -> (r: [u8; 18])
    ensures
        r@ == u3_msg_a_bytes(),
{
    let r: [u8; 18] = [0x55u8, 0x53u8, 0x45u8, 0x52u8, 0x33u8, 0x32u8, 0x2Du8, 0x53u8, 0x59u8, 0x53u8, 0x57u8, 0x52u8, 0x49u8, 0x54u8, 0x45u8, 0x2Du8, 0x4Fu8, 0x4Bu8];
    assert(r@ =~= u3_msg_a_bytes());
    r
}

/// `USER32-SPUN-OK`
pub open spec fn u3_msg_b_bytes() -> Seq<u8> {
    seq![0x55u8, 0x53u8, 0x45u8, 0x52u8, 0x33u8, 0x32u8, 0x2Du8, 0x53u8, 0x50u8, 0x55u8, 0x4Eu8, 0x2Du8, 0x4Fu8, 0x4Bu8]
}

/// `USER32-SPUN-OK`
pub fn u3_msg_b() -> (r: [u8; 14])
    ensures
        r@ == u3_msg_b_bytes(),
{
    let r: [u8; 14] = [0x55u8, 0x53u8, 0x45u8, 0x52u8, 0x33u8, 0x32u8, 0x2Du8, 0x53u8, 0x50u8, 0x55u8, 0x4Eu8, 0x2Du8, 0x4Fu8, 0x4Bu8];
    assert(r@ =~= u3_msg_b_bytes());
    r
}

/// `ABI-V1-DEBUG-WRITE`
pub open spec fn m4_msg_bytes() -> Seq<u8> {
    seq![0x41u8, 0x42u8, 0x49u8, 0x2Du8, 0x56u8, 0x31u8, 0x2Du8, 0x44u8, 0x45u8, 0x42u8, 0x55u8, 0x47u8, 0x2Du8, 0x57u8, 0x52u8, 0x49u8, 0x54u8, 0x45u8]
}

/// `ABI-V1-DEBUG-WRITE`
pub fn m4_msg() -> (r: [u8; 18])
    ensures
        r@ == m4_msg_bytes(),
{
    let r: [u8; 18] = [0x41u8, 0x42u8, 0x49u8, 0x2Du8, 0x56u8, 0x31u8, 0x2Du8, 0x44u8, 0x45u8, 0x42u8, 0x55u8, 0x47u8, 0x2Du8, 0x57u8, 0x52u8, 0x49u8, 0x54u8, 0x45u8];
    assert(r@ =~= m4_msg_bytes());
    r
}

/// The contract of the call surface: an unknown number is refused, `cli` faults
/// in ring 3 and is skipped, a message is written and counted. Exits with 42, or
/// with 43 if anything is otherwise.
pub open spec fn payload_a() -> Seq<Insn> {
    seq![
        Insn::MovEax(0x7FFF),
        Insn::Syscall,
        Insn::CompareRaxWord(u32::MAX),
        Insn::JneShort(19),
        Insn::MovEax(SYS_PROVE_RING3 as u32),
        Insn::Syscall,
        Insn::Cli,
        Insn::MovEax(SYS_PROVE_DONE as u32),
        Insn::Syscall,
        Insn::LeaRdi(23),
        Insn::MovEsi(U3_MSG_A_LEN),
        Insn::MovEax(SYS_DEBUG_WRITE as u32),
        Insn::Syscall,
        Insn::CompareRaxByte(U3_MSG_A_LEN as u8),
        Insn::JneShort(19),
        Insn::MovEax(SYS_THREAD_EXIT as u32),
        Insn::MovEdi(42),
        Insn::Syscall,
        Insn::Stay,
        Insn::MovEax(SYS_THREAD_EXIT as u32),
        Insn::MovEdi(43),
        Insn::Syscall,
        Insn::Stay,
    ]
}

/// The first payload without its message.
pub open spec fn payload_a_code() -> Seq<u8> {
    listing::code(payload_a(), payload_a().len() as int)
}

/// The message stands right behind the code, and both fit a page.
pub proof fn lemma_payload_a_split()
    ensures
        payload_a_code().len() == listing::start(payload_a(), payload_a().len() as int),
        payload_a_code().len() + u3_msg_a_bytes().len() <= 4096,
{
    listing::law_code_fits(payload_a());
}

/// The bytes of `payload_a` with its message behind them, and where the message
/// starts.
pub fn build_payload_a() -> (r: (Vec<u8>, usize))
    ensures
        r.0@ == listing::code(payload_a(), payload_a().len() as int) + u3_msg_a_bytes(),
        r.1 == listing::start(payload_a(), payload_a().len() as int),
{
    let l: [Insn; 23] = [
        Insn::MovEax(0x7FFF),
        Insn::Syscall,
        Insn::CompareRaxWord(u32::MAX),
        Insn::JneShort(19),
        Insn::MovEax(SYS_PROVE_RING3 as u32),
        Insn::Syscall,
        Insn::Cli,
        Insn::MovEax(SYS_PROVE_DONE as u32),
        Insn::Syscall,
        Insn::LeaRdi(23),
        Insn::MovEsi(U3_MSG_A_LEN),
        Insn::MovEax(SYS_DEBUG_WRITE as u32),
        Insn::Syscall,
        Insn::CompareRaxByte(U3_MSG_A_LEN as u8),
        Insn::JneShort(19),
        Insn::MovEax(SYS_THREAD_EXIT as u32),
        Insn::MovEdi(42),
        Insn::Syscall,
        Insn::Stay,
        Insn::MovEax(SYS_THREAD_EXIT as u32),
        Insn::MovEdi(43),
        Insn::Syscall,
        Insn::Stay,
    ];
    assert(l@ =~= payload_a());
    let c: Vec<u8> = listing::assemble(&l);
    proof {
        listing::law_layout(payload_a(), 0, 23);
    }
    let at: usize = c.len();
    let msg: [u8; 18] = u3_msg_a();
    (listing::assemble_with(&l, &msg), at)
}

/// Spin until the first word of the data page is set, write a message and exit
/// with 7; exit with 99 after `spin_bound` rounds.
pub open spec fn payload_b(spin_bound: u32) -> Seq<Insn> {
    seq![
        Insn::MovEcx(spin_bound),
        Insn::LoadRaxAbs(U3_DATA_VA),
        Insn::TestAl,
        Insn::JneShort(11),
        Insn::Pause,
        Insn::DecEcx,
        Insn::JneShort(1),
        Insn::MovEax(SYS_THREAD_EXIT as u32),
        Insn::MovEdi(99),
        Insn::Syscall,
        Insn::Stay,
        Insn::LeaRdi(19),
        Insn::MovEsi(U3_MSG_B_LEN),
        Insn::MovEax(SYS_DEBUG_WRITE as u32),
        Insn::Syscall,
        Insn::MovEax(SYS_THREAD_EXIT as u32),
        Insn::MovEdi(7),
        Insn::Syscall,
        Insn::Stay,
    ]
}

/// The bytes of `payload_b` with its message behind them, and where the message
/// starts.
pub fn build_payload_b(spin_bound: u32) -> (r: (Vec<u8>, usize))
    ensures
        r.0@ == listing::code(payload_b(spin_bound), payload_b(spin_bound).len() as int) + u3_msg_b_bytes(),
        r.1 == listing::start(payload_b(spin_bound), payload_b(spin_bound).len() as int),
{
    let l: [Insn; 19] = [
        Insn::MovEcx(spin_bound),
        Insn::LoadRaxAbs(U3_DATA_VA),
        Insn::TestAl,
        Insn::JneShort(11),
        Insn::Pause,
        Insn::DecEcx,
        Insn::JneShort(1),
        Insn::MovEax(SYS_THREAD_EXIT as u32),
        Insn::MovEdi(99),
        Insn::Syscall,
        Insn::Stay,
        Insn::LeaRdi(19),
        Insn::MovEsi(U3_MSG_B_LEN),
        Insn::MovEax(SYS_DEBUG_WRITE as u32),
        Insn::Syscall,
        Insn::MovEax(SYS_THREAD_EXIT as u32),
        Insn::MovEdi(7),
        Insn::Syscall,
        Insn::Stay,
    ];
    assert(l@ =~= payload_b(spin_bound));
    let c: Vec<u8> = listing::assemble(&l);
    proof {
        listing::law_layout(payload_b(spin_bound), 0, 19);
    }
    let at: usize = c.len();
    let msg: [u8; 14] = u3_msg_b();
    (listing::assemble_with(&l, &msg), at)
}

/// The call convention: six arguments arrive, six registers survive, a write
/// reports its length, and each bad request gets its own status. Exits with 42, or
/// with 43 if anything is otherwise.
pub open spec fn abi_payload() -> Seq<Insn> {
    seq![
        Insn::Movabs(3, CANARY_0),
        Insn::Movabs(5, CANARY_1),
        Insn::Movabs(12, CANARY_2),
        Insn::Movabs(13, CANARY_3),
        Insn::Movabs(14, CANARY_4),
        Insn::Movabs(15, CANARY_5),
        Insn::Movabs(7, ECHO_ARG_0),
        Insn::Movabs(6, ECHO_ARG_1),
        Insn::Movabs(2, ECHO_ARG_2),
        Insn::Movabs(10, ECHO_ARG_3),
        Insn::Movabs(8, ECHO_ARG_4),
        Insn::Movabs(9, ECHO_ARG_5),
        Insn::MovEax(SYS_ABI_ECHO6 as u32),
        Insn::Syscall,
        Insn::Js(67),
        Insn::Movabs(7, M4_DATA_VA),
        Insn::StoreRaxRdi,
        Insn::Movabs(0, CANARY_0),
        Insn::CompareRegRax(3),
        Insn::Jne(67),
        Insn::Movabs(0, CANARY_1),
        Insn::CompareRegRax(5),
        Insn::Jne(67),
        Insn::Movabs(0, CANARY_2),
        Insn::CompareRegRax(12),
        Insn::Jne(67),
        Insn::Movabs(0, CANARY_3),
        Insn::CompareRegRax(13),
        Insn::Jne(67),
        Insn::Movabs(0, CANARY_4),
        Insn::CompareRegRax(14),
        Insn::Jne(67),
        Insn::Movabs(0, CANARY_5),
        Insn::CompareRegRax(15),
        Insn::Jne(67),
        Insn::LeaRdi(71),
        Insn::MovEsi(M4_MSG_LEN),
        Insn::MovEax(SYS_DEBUG_WRITE as u32),
        Insn::Syscall,
        Insn::CompareRaxWord(M4_MSG_LEN),
        Insn::Jne(67),
        Insn::Movabs(7, 0x0060_0000),
        Insn::MovEsi(16),
        Insn::MovEax(SYS_DEBUG_WRITE as u32),
        Insn::Syscall,
        Insn::CompareRaxByte(BYTE_BAD_ADDRESS),
        Insn::Jne(67),
        Insn::LeaRdi(71),
        Insn::ZeroEsi,
        Insn::MovEax(SYS_DEBUG_WRITE as u32),
        Insn::Syscall,
        Insn::CompareRaxByte(BYTE_BAD_ARG),
        Insn::Jne(67),
        Insn::LeaRdi(71),
        Insn::MovEsi(4096),
        Insn::MovEax(SYS_DEBUG_WRITE as u32),
        Insn::Syscall,
        Insn::CompareRaxByte(BYTE_BAD_ARG),
        Insn::Jne(67),
        Insn::MovEax(0x7FFF),
        Insn::Syscall,
        Insn::CompareRaxByte(BYTE_BAD_CALL),
        Insn::Jne(67),
        Insn::MovEax(SYS_THREAD_EXIT as u32),
        Insn::MovEdi(42),
        Insn::Syscall,
        Insn::Stay,
        Insn::MovEax(SYS_THREAD_EXIT as u32),
        Insn::MovEdi(43),
        Insn::Syscall,
        Insn::Stay,
    ]
}

/// The bytes of `abi_payload` with its message behind them, and where the message
/// starts.
pub fn build_abi_payload() -> (r: (Vec<u8>, usize))
    ensures
        r.0@ == listing::code(abi_payload(), abi_payload().len() as int) + m4_msg_bytes(),
        r.1 == listing::start(abi_payload(), abi_payload().len() as int),
{
    let l: [Insn; 71] = [
        Insn::Movabs(3, CANARY_0),
        Insn::Movabs(5, CANARY_1),
        Insn::Movabs(12, CANARY_2),
        Insn::Movabs(13, CANARY_3),
        Insn::Movabs(14, CANARY_4),
        Insn::Movabs(15, CANARY_5),
        Insn::Movabs(7, ECHO_ARG_0),
        Insn::Movabs(6, ECHO_ARG_1),
        Insn::Movabs(2, ECHO_ARG_2),
        Insn::Movabs(10, ECHO_ARG_3),
        Insn::Movabs(8, ECHO_ARG_4),
        Insn::Movabs(9, ECHO_ARG_5),
        Insn::MovEax(SYS_ABI_ECHO6 as u32),
        Insn::Syscall,
        Insn::Js(67),
        Insn::Movabs(7, M4_DATA_VA),
        Insn::StoreRaxRdi,
        Insn::Movabs(0, CANARY_0),
        Insn::CompareRegRax(3),
        Insn::Jne(67),
        Insn::Movabs(0, CANARY_1),
        Insn::CompareRegRax(5),
        Insn::Jne(67),
        Insn::Movabs(0, CANARY_2),
        Insn::CompareRegRax(12),
        Insn::Jne(67),
        Insn::Movabs(0, CANARY_3),
        Insn::CompareRegRax(13),
        Insn::Jne(67),
        Insn::Movabs(0, CANARY_4),
        Insn::CompareRegRax(14),
        Insn::Jne(67),
        Insn::Movabs(0, CANARY_5),
        Insn::CompareRegRax(15),
        Insn::Jne(67),
        Insn::LeaRdi(71),
        Insn::MovEsi(M4_MSG_LEN),
        Insn::MovEax(SYS_DEBUG_WRITE as u32),
        Insn::Syscall,
        Insn::CompareRaxWord(M4_MSG_LEN),
        Insn::Jne(67),
        Insn::Movabs(7, 0x0060_0000),
        Insn::MovEsi(16),
        Insn::MovEax(SYS_DEBUG_WRITE as u32),
        Insn::Syscall,
        Insn::CompareRaxByte(BYTE_BAD_ADDRESS),
        Insn::Jne(67),
        Insn::LeaRdi(71),
        Insn::ZeroEsi,
        Insn::MovEax(SYS_DEBUG_WRITE as u32),
        Insn::Syscall,
        Insn::CompareRaxByte(BYTE_BAD_ARG),
        Insn::Jne(67),
        Insn::LeaRdi(71),
        Insn::MovEsi(4096),
        Insn::MovEax(SYS_DEBUG_WRITE as u32),
        Insn::Syscall,
        Insn::CompareRaxByte(BYTE_BAD_ARG),
        Insn::Jne(67),
        Insn::MovEax(0x7FFF),
        Insn::Syscall,
        Insn::CompareRaxByte(BYTE_BAD_CALL),
        Insn::Jne(67),
        Insn::MovEax(SYS_THREAD_EXIT as u32),
        Insn::MovEdi(42),
        Insn::Syscall,
        Insn::Stay,
        Insn::MovEax(SYS_THREAD_EXIT as u32),
        Insn::MovEdi(43),
        Insn::Syscall,
        Insn::Stay,
    ];
    assert(l@ =~= abi_payload());
    let c: Vec<u8> = listing::assemble(&l);
    proof {
        listing::law_layout(abi_payload(), 0, 71);
    }
    let at: usize = c.len();
    let msg: [u8; 18] = m4_msg();
    (listing::assemble_with(&l, &msg), at)
}

/// Exit at once with a code that fills the register.
pub open spec fn exit_payload() -> Seq<Insn> {
    seq![
        Insn::MovEax(SYS_THREAD_EXIT as u32),
        Insn::Movabs(7, EXIT_CODE_WIDE),
        Insn::Syscall,
        Insn::Stay,
    ]
}

/// The bytes of `exit_payload`.
pub fn build_exit_payload() -> (r: Vec<u8>)
    ensures
        r@ == listing::code(exit_payload(), exit_payload().len() as int),
{
    let l: [Insn; 4] = [
        Insn::MovEax(SYS_THREAD_EXIT as u32),
        Insn::Movabs(7, EXIT_CODE_WIDE),
        Insn::Syscall,
        Insn::Stay,
    ];
    assert(l@ =~= exit_payload());
    listing::assemble(&l)
}

/// Call the server with two words and a capability, check the echoed words and
/// that no capability came back, wait for the badge. Exits with 42; 43 to 47 name
/// the step that failed.
pub open spec fn ipc_client() -> Seq<Insn> {
    seq![
        Insn::Movabs(3, I_DATA),
        Insn::MovEax(SYS_IPC_CALL as u32),
        Insn::Movabs(7, IPC_EP_SLOT),
        Insn::Movabs(6, IPC_PAT0),
        Insn::Movabs(2, IPC_PAT1),
        Insn::Movabs(10, IPC_MEM_SLOT),
        Insn::Movabs(8, I_DATA),
        Insn::Syscall,
        Insn::CompareRaxByte(0),
        Insn::Jne(32),
        Insn::LoadRbx(0, 0),
        Insn::Movabs(1, IPC_PAT0),
        Insn::CompareRaxReg(1),
        Insn::Jne(36),
        Insn::LoadRbx(0, 8),
        Insn::Movabs(1, IPC_PAT1),
        Insn::CompareRaxReg(1),
        Insn::Jne(40),
        Insn::LoadRbx(0, 16),
        Insn::Movabs(1, u64::MAX),
        Insn::CompareRaxReg(1),
        Insn::Jne(44),
        Insn::MovEax(SYS_WAIT as u32),
        Insn::Movabs(7, IPC_NOTIF_SLOT),
        Insn::Syscall,
        Insn::Movabs(1, IPC_BADGE),
        Insn::CompareRaxReg(1),
        Insn::Jne(48),
        Insn::MovEax(SYS_THREAD_EXIT as u32),
        Insn::Movabs(7, 42),
        Insn::Syscall,
        Insn::Stay,
        Insn::MovEax(SYS_THREAD_EXIT as u32),
        Insn::Movabs(7, 43),
        Insn::Syscall,
        Insn::Stay,
        Insn::MovEax(SYS_THREAD_EXIT as u32),
        Insn::Movabs(7, 44),
        Insn::Syscall,
        Insn::Stay,
        Insn::MovEax(SYS_THREAD_EXIT as u32),
        Insn::Movabs(7, 45),
        Insn::Syscall,
        Insn::Stay,
        Insn::MovEax(SYS_THREAD_EXIT as u32),
        Insn::Movabs(7, 46),
        Insn::Syscall,
        Insn::Stay,
        Insn::MovEax(SYS_THREAD_EXIT as u32),
        Insn::Movabs(7, 47),
        Insn::Syscall,
        Insn::Stay,
    ]
}

#[verifier::opaque]
pub open spec fn client_code() -> Seq<u8> {
    listing::code(ipc_client(), ipc_client().len() as int)
}

/// The bytes of `ipc_client`.
pub fn build_ipc_client() -> (r: Vec<u8>)
    ensures
        r@ == client_code(),
        r@.len() <= 4096,
{
    proof {
        reveal(client_code);
    }
    let l: [Insn; 52] = [
        Insn::Movabs(3, I_DATA),
        Insn::MovEax(SYS_IPC_CALL as u32),
        Insn::Movabs(7, IPC_EP_SLOT),
        Insn::Movabs(6, IPC_PAT0),
        Insn::Movabs(2, IPC_PAT1),
        Insn::Movabs(10, IPC_MEM_SLOT),
        Insn::Movabs(8, I_DATA),
        Insn::Syscall,
        Insn::CompareRaxByte(0),
        Insn::Jne(32),
        Insn::LoadRbx(0, 0),
        Insn::Movabs(1, IPC_PAT0),
        Insn::CompareRaxReg(1),
        Insn::Jne(36),
        Insn::LoadRbx(0, 8),
        Insn::Movabs(1, IPC_PAT1),
        Insn::CompareRaxReg(1),
        Insn::Jne(40),
        Insn::LoadRbx(0, 16),
        Insn::Movabs(1, u64::MAX),
        Insn::CompareRaxReg(1),
        Insn::Jne(44),
        Insn::MovEax(SYS_WAIT as u32),
        Insn::Movabs(7, IPC_NOTIF_SLOT),
        Insn::Syscall,
        Insn::Movabs(1, IPC_BADGE),
        Insn::CompareRaxReg(1),
        Insn::Jne(48),
        Insn::MovEax(SYS_THREAD_EXIT as u32),
        Insn::Movabs(7, 42),
        Insn::Syscall,
        Insn::Stay,
        Insn::MovEax(SYS_THREAD_EXIT as u32),
        Insn::Movabs(7, 43),
        Insn::Syscall,
        Insn::Stay,
        Insn::MovEax(SYS_THREAD_EXIT as u32),
        Insn::Movabs(7, 44),
        Insn::Syscall,
        Insn::Stay,
        Insn::MovEax(SYS_THREAD_EXIT as u32),
        Insn::Movabs(7, 45),
        Insn::Syscall,
        Insn::Stay,
        Insn::MovEax(SYS_THREAD_EXIT as u32),
        Insn::Movabs(7, 46),
        Insn::Syscall,
        Insn::Stay,
        Insn::MovEax(SYS_THREAD_EXIT as u32),
        Insn::Movabs(7, 47),
        Insn::Syscall,
        Insn::Stay,
    ];
    assert(l@ =~= ipc_client());
    listing::assemble(&l)
}

/// Receive one request, check that its capability landed, echo the words and
/// notify the badge. Exits with 42; 53 to 56 name the step that failed.
pub open spec fn ipc_server() -> Seq<Insn> {
    seq![
        Insn::Movabs(3, I_DATA),
        Insn::MovEax(SYS_IPC_RECV as u32),
        Insn::Movabs(7, IPC_EP_SLOT),
        Insn::Movabs(6, I_DATA),
        Insn::Syscall,
        Insn::CompareRaxByte(0),
        Insn::Jne(29),
        Insn::LoadRbx(0, 16),
        Insn::Movabs(1, u64::MAX),
        Insn::CompareRaxReg(1),
        Insn::Je(33),
        Insn::MovEax(SYS_IPC_REPLY as u32),
        Insn::Movabs(7, IPC_EP_SLOT),
        Insn::LoadRbx(6, 0),
        Insn::LoadRbx(2, 8),
        Insn::Movabs(10, u64::MAX),
        Insn::Syscall,
        Insn::CompareRaxByte(0),
        Insn::Jne(37),
        Insn::MovEax(SYS_NOTIFY as u32),
        Insn::Movabs(7, IPC_NOTIF_SLOT),
        Insn::Movabs(6, IPC_BADGE),
        Insn::Syscall,
        Insn::CompareRaxByte(0),
        Insn::Jne(41),
        Insn::MovEax(SYS_THREAD_EXIT as u32),
        Insn::Movabs(7, 42),
        Insn::Syscall,
        Insn::Stay,
        Insn::MovEax(SYS_THREAD_EXIT as u32),
        Insn::Movabs(7, 53),
        Insn::Syscall,
        Insn::Stay,
        Insn::MovEax(SYS_THREAD_EXIT as u32),
        Insn::Movabs(7, 54),
        Insn::Syscall,
        Insn::Stay,
        Insn::MovEax(SYS_THREAD_EXIT as u32),
        Insn::Movabs(7, 55),
        Insn::Syscall,
        Insn::Stay,
        Insn::MovEax(SYS_THREAD_EXIT as u32),
        Insn::Movabs(7, 56),
        Insn::Syscall,
        Insn::Stay,
    ]
}

#[verifier::opaque]
pub open spec fn server_code() -> Seq<u8> {
    listing::code(ipc_server(), ipc_server().len() as int)
}

/// The bytes of `ipc_server`.
pub fn build_ipc_server() -> (r: Vec<u8>)
    ensures
        r@ == server_code(),
        r@.len() <= 4096,
{
    proof {
        reveal(server_code);
    }
    let l: [Insn; 45] = [
        Insn::Movabs(3, I_DATA),
        Insn::MovEax(SYS_IPC_RECV as u32),
        Insn::Movabs(7, IPC_EP_SLOT),
        Insn::Movabs(6, I_DATA),
        Insn::Syscall,
        Insn::CompareRaxByte(0),
        Insn::Jne(29),
        Insn::LoadRbx(0, 16),
        Insn::Movabs(1, u64::MAX),
        Insn::CompareRaxReg(1),
        Insn::Je(33),
        Insn::MovEax(SYS_IPC_REPLY as u32),
        Insn::Movabs(7, IPC_EP_SLOT),
        Insn::LoadRbx(6, 0),
        Insn::LoadRbx(2, 8),
        Insn::Movabs(10, u64::MAX),
        Insn::Syscall,
        Insn::CompareRaxByte(0),
        Insn::Jne(37),
        Insn::MovEax(SYS_NOTIFY as u32),
        Insn::Movabs(7, IPC_NOTIF_SLOT),
        Insn::Movabs(6, IPC_BADGE),
        Insn::Syscall,
        Insn::CompareRaxByte(0),
        Insn::Jne(41),
        Insn::MovEax(SYS_THREAD_EXIT as u32),
        Insn::Movabs(7, 42),
        Insn::Syscall,
        Insn::Stay,
        Insn::MovEax(SYS_THREAD_EXIT as u32),
        Insn::Movabs(7, 53),
        Insn::Syscall,
        Insn::Stay,
        Insn::MovEax(SYS_THREAD_EXIT as u32),
        Insn::Movabs(7, 54),
        Insn::Syscall,
        Insn::Stay,
        Insn::MovEax(SYS_THREAD_EXIT as u32),
        Insn::Movabs(7, 55),
        Insn::Syscall,
        Insn::Stay,
        Insn::MovEax(SYS_THREAD_EXIT as u32),
        Insn::Movabs(7, 56),
        Insn::Syscall,
        Insn::Stay,
    ];
    assert(l@ =~= ipc_server());
    listing::assemble(&l)
}

/// Spawn a child with one inherited capability, wait for its badge, and do both
/// once more. Exits with 42; 73 to 76 name the step that failed.
pub open spec fn spawn_supervisor() -> Seq<Insn> {
    seq![
        Insn::Movabs(3, I_DATA),
        Insn::Movabs(0, IPC_MEM_SLOT),
        Insn::StoreRaxRbx(0),
        Insn::Movabs(0, RIGHTS_READ_COPY),
        Insn::StoreRaxRbx(8),
        Insn::MovEax(SYS_SPAWN as u32),
        Insn::Movabs(7, 0),
        Insn::Movabs(6, I_DATA),
        Insn::Movabs(2, 1),
        Insn::Movabs(10, IPC_NOTIF_SLOT),
        Insn::Movabs(8, SPAWN_BADGE),
        Insn::Syscall,
        Insn::Js(41),
        Insn::CompareRaxByte(0),
        Insn::Je(45),
        Insn::MovEax(SYS_WAIT as u32),
        Insn::Movabs(7, IPC_NOTIF_SLOT),
        Insn::Syscall,
        Insn::Movabs(1, SPAWN_BADGE),
        Insn::CompareRaxReg(1),
        Insn::Jne(49),
        Insn::MovEax(SYS_SPAWN as u32),
        Insn::Movabs(7, 0),
        Insn::Movabs(6, I_DATA),
        Insn::Movabs(2, 1),
        Insn::Movabs(10, IPC_NOTIF_SLOT),
        Insn::Movabs(8, SPAWN_BADGE),
        Insn::Syscall,
        Insn::Js(53),
        Insn::CompareRaxByte(0),
        Insn::Je(57),
        Insn::MovEax(SYS_WAIT as u32),
        Insn::Movabs(7, IPC_NOTIF_SLOT),
        Insn::Syscall,
        Insn::Movabs(1, SPAWN_BADGE),
        Insn::CompareRaxReg(1),
        Insn::Jne(61),
        Insn::MovEax(SYS_THREAD_EXIT as u32),
        Insn::Movabs(7, 42),
        Insn::Syscall,
        Insn::Stay,
        Insn::MovEax(SYS_THREAD_EXIT as u32),
        Insn::Movabs(7, 73),
        Insn::Syscall,
        Insn::Stay,
        Insn::MovEax(SYS_THREAD_EXIT as u32),
        Insn::Movabs(7, 73),
        Insn::Syscall,
        Insn::Stay,
        Insn::MovEax(SYS_THREAD_EXIT as u32),
        Insn::Movabs(7, 74),
        Insn::Syscall,
        Insn::Stay,
        Insn::MovEax(SYS_THREAD_EXIT as u32),
        Insn::Movabs(7, 75),
        Insn::Syscall,
        Insn::Stay,
        Insn::MovEax(SYS_THREAD_EXIT as u32),
        Insn::Movabs(7, 75),
        Insn::Syscall,
        Insn::Stay,
        Insn::MovEax(SYS_THREAD_EXIT as u32),
        Insn::Movabs(7, 76),
        Insn::Syscall,
        Insn::Stay,
    ]
}

#[verifier::opaque]
pub open spec fn supervisor_code() -> Seq<u8> {
    listing::code(spawn_supervisor(), spawn_supervisor().len() as int)
}

/// The bytes of `spawn_supervisor`.
pub fn build_spawn_supervisor() -> (r: Vec<u8>)
    ensures
        r@ == supervisor_code(),
        r@.len() <= 4096,
{
    proof {
        reveal(supervisor_code);
    }
    let l: [Insn; 65] = [
        Insn::Movabs(3, I_DATA),
        Insn::Movabs(0, IPC_MEM_SLOT),
        Insn::StoreRaxRbx(0),
        Insn::Movabs(0, RIGHTS_READ_COPY),
        Insn::StoreRaxRbx(8),
        Insn::MovEax(SYS_SPAWN as u32),
        Insn::Movabs(7, 0),
        Insn::Movabs(6, I_DATA),
        Insn::Movabs(2, 1),
        Insn::Movabs(10, IPC_NOTIF_SLOT),
        Insn::Movabs(8, SPAWN_BADGE),
        Insn::Syscall,
        Insn::Js(41),
        Insn::CompareRaxByte(0),
        Insn::Je(45),
        Insn::MovEax(SYS_WAIT as u32),
        Insn::Movabs(7, IPC_NOTIF_SLOT),
        Insn::Syscall,
        Insn::Movabs(1, SPAWN_BADGE),
        Insn::CompareRaxReg(1),
        Insn::Jne(49),
        Insn::MovEax(SYS_SPAWN as u32),
        Insn::Movabs(7, 0),
        Insn::Movabs(6, I_DATA),
        Insn::Movabs(2, 1),
        Insn::Movabs(10, IPC_NOTIF_SLOT),
        Insn::Movabs(8, SPAWN_BADGE),
        Insn::Syscall,
        Insn::Js(53),
        Insn::CompareRaxByte(0),
        Insn::Je(57),
        Insn::MovEax(SYS_WAIT as u32),
        Insn::Movabs(7, IPC_NOTIF_SLOT),
        Insn::Syscall,
        Insn::Movabs(1, SPAWN_BADGE),
        Insn::CompareRaxReg(1),
        Insn::Jne(61),
        Insn::MovEax(SYS_THREAD_EXIT as u32),
        Insn::Movabs(7, 42),
        Insn::Syscall,
        Insn::Stay,
        Insn::MovEax(SYS_THREAD_EXIT as u32),
        Insn::Movabs(7, 73),
        Insn::Syscall,
        Insn::Stay,
        Insn::MovEax(SYS_THREAD_EXIT as u32),
        Insn::Movabs(7, 73),
        Insn::Syscall,
        Insn::Stay,
        Insn::MovEax(SYS_THREAD_EXIT as u32),
        Insn::Movabs(7, 74),
        Insn::Syscall,
        Insn::Stay,
        Insn::MovEax(SYS_THREAD_EXIT as u32),
        Insn::Movabs(7, 75),
        Insn::Syscall,
        Insn::Stay,
        Insn::MovEax(SYS_THREAD_EXIT as u32),
        Insn::Movabs(7, 75),
        Insn::Syscall,
        Insn::Stay,
        Insn::MovEax(SYS_THREAD_EXIT as u32),
        Insn::Movabs(7, 76),
        Insn::Syscall,
        Insn::Stay,
    ];
    assert(l@ =~= spawn_supervisor());
    listing::assemble(&l)
}

/// Read one line from the console and check that it is `hi m4`. Exits with 42;
/// 81 is a wrong length, 82 are wrong bytes.
pub open spec fn console_reader() -> Seq<Insn> {
    seq![
        Insn::Movabs(3, READER_BUF),
        Insn::MovEax(SYS_CONSOLE_READ as u32),
        Insn::Movabs(7, READER_BUF),
        Insn::Movabs(6, 64),
        Insn::Syscall,
        Insn::CompareRaxByte(5),
        Insn::Jne(15),
        Insn::CompareByteRbx(0, 0x68),
        Insn::Jne(19),
        Insn::CompareByteRbx(4, 0x34),
        Insn::Jne(19),
        Insn::MovEax(SYS_THREAD_EXIT as u32),
        Insn::Movabs(7, 42),
        Insn::Syscall,
        Insn::Stay,
        Insn::MovEax(SYS_THREAD_EXIT as u32),
        Insn::Movabs(7, 81),
        Insn::Syscall,
        Insn::Stay,
        Insn::MovEax(SYS_THREAD_EXIT as u32),
        Insn::Movabs(7, 82),
        Insn::Syscall,
        Insn::Stay,
    ]
}

#[verifier::opaque]
pub open spec fn reader_code() -> Seq<u8> {
    listing::code(console_reader(), console_reader().len() as int)
}

/// The bytes of `console_reader`.
pub fn build_console_reader() -> (r: Vec<u8>)
    ensures
        r@ == reader_code(),
        r@.len() <= 4096,
{
    proof {
        reveal(reader_code);
    }
    let l: [Insn; 23] = [
        Insn::Movabs(3, READER_BUF),
        Insn::MovEax(SYS_CONSOLE_READ as u32),
        Insn::Movabs(7, READER_BUF),
        Insn::Movabs(6, 64),
        Insn::Syscall,
        Insn::CompareRaxByte(5),
        Insn::Jne(15),
        Insn::CompareByteRbx(0, 0x68),
        Insn::Jne(19),
        Insn::CompareByteRbx(4, 0x34),
        Insn::Jne(19),
        Insn::MovEax(SYS_THREAD_EXIT as u32),
        Insn::Movabs(7, 42),
        Insn::Syscall,
        Insn::Stay,
        Insn::MovEax(SYS_THREAD_EXIT as u32),
        Insn::Movabs(7, 81),
        Insn::Syscall,
        Insn::Stay,
        Insn::MovEax(SYS_THREAD_EXIT as u32),
        Insn::Movabs(7, 82),
        Insn::Syscall,
        Insn::Stay,
    ];
    assert(l@ =~= console_reader());
    listing::assemble(&l)
}

/// Take two frames, map the first, write and read through the mapping, and check
/// that the slot is then empty. Exits with 42; 43 to 46 name the step that failed.
/// `alloc_nr` and `map_nr` are the numbers of the two calls.
pub open spec fn untyped_payload(alloc_nr: u32, map_nr: u32) -> Seq<Insn> {
    seq![
        Insn::Movabs(3, M5_DATA_VA),
        Insn::MovEax(alloc_nr),
        Insn::MovEdi(0),
        Insn::Syscall,
        Insn::TestRax,
        Insn::JleShort(36),
        Insn::StoreRaxRbx(0),
        Insn::MovEax(alloc_nr),
        Insn::MovEdi(1),
        Insn::Syscall,
        Insn::TestRax,
        Insn::JleShort(39),
        Insn::StoreRaxRbx(8),
        Insn::MovEax(map_nr),
        Insn::MovEdi(0),
        Insn::MovEsi(1),
        Insn::Syscall,
        Insn::TestRax,
        Insn::JleShort(42),
        Insn::StoreRaxRbx(16),
        Insn::MovRcxRax,
        Insn::Movabs(2, M5_MAGIC),
        Insn::StoreRdxRcx,
        Insn::LoadRaxRcx,
        Insn::StoreRaxRbx(24),
        Insn::CompareRaxReg(2),
        Insn::JneShort(45),
        Insn::MovEax(map_nr),
        Insn::MovEdi(0),
        Insn::MovEsi(1),
        Insn::Syscall,
        Insn::CompareRaxByte(BYTE_BAD_ARG),
        Insn::JneShort(48),
        Insn::MovEax(SYS_THREAD_EXIT as u32),
        Insn::MovEdi(EXIT_OK),
        Insn::Syscall,
        Insn::MovEax(SYS_THREAD_EXIT as u32),
        Insn::MovEdi(43),
        Insn::Syscall,
        Insn::MovEax(SYS_THREAD_EXIT as u32),
        Insn::MovEdi(43),
        Insn::Syscall,
        Insn::MovEax(SYS_THREAD_EXIT as u32),
        Insn::MovEdi(44),
        Insn::Syscall,
        Insn::MovEax(SYS_THREAD_EXIT as u32),
        Insn::MovEdi(45),
        Insn::Syscall,
        Insn::MovEax(SYS_THREAD_EXIT as u32),
        Insn::MovEdi(46),
        Insn::Syscall,
    ]
}

#[verifier::opaque]
pub open spec fn untyped_code(alloc_nr: u32, map_nr: u32) -> Seq<u8> {
    listing::code(untyped_payload(alloc_nr, map_nr), untyped_payload(alloc_nr, map_nr).len() as int)
}

/// The bytes of `untyped_payload`.
pub fn build_untyped_payload(alloc_nr: u32, map_nr: u32) -> (r: Vec<u8>)
    ensures
        r@ == untyped_code(alloc_nr, map_nr),
        r@.len() <= 4096,
{
    proof {
        reveal(untyped_code);
    }
    let l: [Insn; 51] = [
        Insn::Movabs(3, M5_DATA_VA),
        Insn::MovEax(alloc_nr),
        Insn::MovEdi(0),
        Insn::Syscall,
        Insn::TestRax,
        Insn::JleShort(36),
        Insn::StoreRaxRbx(0),
        Insn::MovEax(alloc_nr),
        Insn::MovEdi(1),
        Insn::Syscall,
        Insn::TestRax,
        Insn::JleShort(39),
        Insn::StoreRaxRbx(8),
        Insn::MovEax(map_nr),
        Insn::MovEdi(0),
        Insn::MovEsi(1),
        Insn::Syscall,
        Insn::TestRax,
        Insn::JleShort(42),
        Insn::StoreRaxRbx(16),
        Insn::MovRcxRax,
        Insn::Movabs(2, M5_MAGIC),
        Insn::StoreRdxRcx,
        Insn::LoadRaxRcx,
        Insn::StoreRaxRbx(24),
        Insn::CompareRaxReg(2),
        Insn::JneShort(45),
        Insn::MovEax(map_nr),
        Insn::MovEdi(0),
        Insn::MovEsi(1),
        Insn::Syscall,
        Insn::CompareRaxByte(BYTE_BAD_ARG),
        Insn::JneShort(48),
        Insn::MovEax(SYS_THREAD_EXIT as u32),
        Insn::MovEdi(EXIT_OK),
        Insn::Syscall,
        Insn::MovEax(SYS_THREAD_EXIT as u32),
        Insn::MovEdi(43),
        Insn::Syscall,
        Insn::MovEax(SYS_THREAD_EXIT as u32),
        Insn::MovEdi(43),
        Insn::Syscall,
        Insn::MovEax(SYS_THREAD_EXIT as u32),
        Insn::MovEdi(44),
        Insn::Syscall,
        Insn::MovEax(SYS_THREAD_EXIT as u32),
        Insn::MovEdi(45),
        Insn::Syscall,
        Insn::MovEax(SYS_THREAD_EXIT as u32),
        Insn::MovEdi(46),
        Insn::Syscall,
    ];
    assert(l@ =~= untyped_payload(alloc_nr, map_nr));
    listing::assemble(&l)
}

/// Map the timer's registers read-only and check that its counter advances. Exits
/// with 42; 53 and 54 name the step that failed. `map_nr` is the number of the
/// mapping call.
pub open spec fn mmio_payload(map_nr: u32) -> Seq<Insn> {
    seq![
        Insn::MovEax(map_nr),
        Insn::MovEdi(0),
        Insn::MovEsi(0),
        Insn::Syscall,
        Insn::TestRax,
        Insn::JleShort(21),
        Insn::MovRbxRax,
        Insn::Movabs(8, M5_DATA_VA),
        Insn::LoadRaxRbxFar(0xF0),
        Insn::StoreRaxR8(0),
        Insn::Movabs(1, 100_000),
        Insn::DecRcx,
        Insn::JneShort(11),
        Insn::LoadRaxRbxFar(0xF0),
        Insn::StoreRaxR8(8),
        Insn::LoadRdxR8,
        Insn::CompareRaxReg(2),
        Insn::JbeShort(24),
        Insn::MovEax(SYS_THREAD_EXIT as u32),
        Insn::MovEdi(EXIT_OK),
        Insn::Syscall,
        Insn::MovEax(SYS_THREAD_EXIT as u32),
        Insn::MovEdi(53),
        Insn::Syscall,
        Insn::MovEax(SYS_THREAD_EXIT as u32),
        Insn::MovEdi(54),
        Insn::Syscall,
    ]
}

#[verifier::opaque]
pub open spec fn mmio_code(map_nr: u32) -> Seq<u8> {
    listing::code(mmio_payload(map_nr), mmio_payload(map_nr).len() as int)
}

/// The bytes of `mmio_payload`.
pub fn build_mmio_payload(map_nr: u32) -> (r: Vec<u8>)
    ensures
        r@ == mmio_code(map_nr),
        r@.len() <= 4096,
{
    proof {
        reveal(mmio_code);
    }
    let l: [Insn; 27] = [
        Insn::MovEax(map_nr),
        Insn::MovEdi(0),
        Insn::MovEsi(0),
        Insn::Syscall,
        Insn::TestRax,
        Insn::JleShort(21),
        Insn::MovRbxRax,
        Insn::Movabs(8, M5_DATA_VA),
        Insn::LoadRaxRbxFar(0xF0),
        Insn::StoreRaxR8(0),
        Insn::Movabs(1, 100_000),
        Insn::DecRcx,
        Insn::JneShort(11),
        Insn::LoadRaxRbxFar(0xF0),
        Insn::StoreRaxR8(8),
        Insn::LoadRdxR8,
        Insn::CompareRaxReg(2),
        Insn::JbeShort(24),
        Insn::MovEax(SYS_THREAD_EXIT as u32),
        Insn::MovEdi(EXIT_OK),
        Insn::Syscall,
        Insn::MovEax(SYS_THREAD_EXIT as u32),
        Insn::MovEdi(53),
        Insn::Syscall,
        Insn::MovEax(SYS_THREAD_EXIT as u32),
        Insn::MovEdi(54),
        Insn::Syscall,
    ];
    assert(l@ =~= mmio_payload(map_nr));
    listing::assemble(&l)
}

} // verus!

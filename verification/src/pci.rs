//! The functions on PCI bus 0, and the VirtIO devices among them.
//!
//! The scan works on an image of the bus's configuration space. Reading the
//! image, sizing the address registers that the scan names, and making the
//! command register writes that it asks for are port accesses.

use vstd::prelude::*;

verus! {

/// The command register's bits for memory decoding and for being bus master.
pub const COMMAND_MEM: u16 = 2;
pub const COMMAND_BUS_MASTER: u16 = 4;

/// The status register's bit for a capability list.
pub const STATUS_CAP_LIST: u16 = 0x10;

pub const VIRTIO_VENDOR_ID: u16 = 0x1AF4;
pub const VIRTIO_TRANSITIONAL_LO: u16 = 0x1000;
pub const VIRTIO_TRANSITIONAL_HI: u16 = 0x103F;
pub const VIRTIO_MODERN_BASE: u16 = 0x1040;
pub const VIRTIO_TYPE_BLOCK: u16 = 2;

pub const CAP_ID_VENDOR: u8 = 0x09;
pub const CAP_ID_MSIX: u8 = 0x11;

pub const VIRTIO_CFG_COMMON: u8 = 1;
pub const VIRTIO_CFG_NOTIFY: u8 = 2;
pub const VIRTIO_CFG_ISR: u8 = 3;
pub const VIRTIO_CFG_DEVICE: u8 = 4;

/// How many functions and how many VirtIO devices are kept.
pub const MAX_PCI_FUNCTIONS: usize = 8;
pub const MAX_VIRTIO_DEVICES: usize = 4;

/// How many capabilities of a list are followed.
pub const CAP_WALK_BOUND: usize = 48;

/// How many functions bus 0 can have: eight for each of 32 devices.
pub const SLOTS: usize = 256;

/// How many words a function's configuration space has.
pub const CONFIG_WORDS: usize = 64;

/// Where a VirtIO structure lies: in which address window, and where in it.
#[derive(Clone, Copy, Debug, PartialEq, Eq, Structural)]
pub struct VirtioCapLoc {
    pub present: bool,
    pub bar: u8,
    pub offset: u32,
    pub length: u32,
}

/// The table of interrupt messages.
#[derive(Clone, Copy, Debug, PartialEq, Eq, Structural)]
pub struct MsixInfo {
    pub present: bool,
    pub table_size: u16,
    pub table_bar: u8,
    pub table_offset: u32,
}

/// A function and its address windows.
#[derive(Clone, Copy, Debug)]
pub struct PciFunction {
    pub dev: u8,
    pub func: u8,
    pub vendor_id: u16,
    pub device_id: u16,
    pub class_rev: u32,
    pub subsystem: u32,
    pub bar_base: [u64; 6],
    pub bar_size: [u64; 6],
    pub bar_is_io: [bool; 6],
}

/// A VirtIO function and where its structures lie.
#[derive(Clone, Copy, Debug, PartialEq, Eq, Structural)]
pub struct VirtioDevice {
    pub pci_index: usize,
    pub dev: u8,
    pub func: u8,
    pub device_id: u16,
    pub virtio_type: u16,
    pub transitional: bool,
    pub common: VirtioCapLoc,
    pub notify: VirtioCapLoc,
    pub isr: VirtioCapLoc,
    pub device_cfg: VirtioCapLoc,
    pub notify_off_multiplier: u32,
    pub msix: MsixInfo,
}

/// A function's configuration space, and what each of its address registers,
/// and the register behind the last, reads after all ones were written to it.
#[derive(Clone, Copy)]
pub struct RawFunction {
    pub words: [u32; CONFIG_WORDS],
    pub sized: [u32; 7],
}

/// An image of bus 0: function `f` of device `d` is number `8 * d + f`.
pub struct Bus {
    pub slots: Vec<RawFunction>,
}

impl Bus {
    pub open spec fn wf(&self) -> bool {
        self.slots@.len() == SLOTS
    }
}

/// What the scan has found.
pub struct PciTable {
    pub funcs: Vec<PciFunction>,
    pub devs: Vec<VirtioDevice>,
    pub enumerated: bool,
}

impl PciTable {
    pub fn new() -> (t: PciTable)
        ensures
            t.funcs@ == Seq::<PciFunction>::empty(),
            t.devs@ == Seq::<VirtioDevice>::empty(),
            !t.enumerated,
    {
        PciTable { funcs: Vec::new(), devs: Vec::new(), enumerated: false }
    }
}

/// The address that selects a configuration register on the address port.
pub open spec fn address_of(bus: u8, dev: u8, func: u8, reg: u8) -> u32 {
    0x8000_0000u32 | (bus as u32) << 16 | (dev as u32) << 11 | (func as u32) << 8 | (reg & 0xFC) as u32
}

/// The address that selects a configuration register on the address port.
pub fn config_address(bus: u8, dev: u8, func: u8, reg: u8) -> (r: u32)
    ensures
        r == address_of(bus, dev, func, reg),
{
    0x8000_0000u32 | ((bus as u32) << 16) | ((dev as u32) << 11) | ((func as u32) << 8) | ((reg
        & 0xFC) as u32)
}

/// The word that holds byte `reg`.
pub open spec fn word_at(w: Seq<u32>, reg: int) -> u32 {
    w[reg / 4]
}

/// Byte `reg`.
pub open spec fn byte_at(w: Seq<u32>, reg: int) -> u8 {
    let x = word_at(w, reg) as int;
    (if reg % 4 == 0 {
        x % 256
    } else if reg % 4 == 1 {
        x / 256 % 256
    } else if reg % 4 == 2 {
        x / 0x1_0000 % 256
    } else {
        x / 0x100_0000
    }) as u8
}

/// The half word that byte `reg` lies in.
pub open spec fn half_at(w: Seq<u32>, reg: int) -> u16 {
    let x = word_at(w, reg) as int;
    (if reg % 4 < 2 {
        x % 0x1_0000
    } else {
        x / 0x1_0000
    }) as u16
}

fn read32(w: &[u32; CONFIG_WORDS], reg: u8) -> (r: u32)
    ensures
        r == word_at(w@, reg as int),
{
    w[(reg / 4) as usize]
}

fn read8(w: &[u32; CONFIG_WORDS], reg: u8) -> (r: u8)
    ensures
        r == byte_at(w@, reg as int),
{
    let x: u32 = w[(reg / 4) as usize];
    let k: u8 = reg % 4;
    let b: u32 = if k == 0 {
        x % 256
    } else if k == 1 {
        x / 256 % 256
    } else if k == 2 {
        x / 0x1_0000 % 256
    } else {
        x / 0x100_0000
    };
    b as u8
}

fn read16(w: &[u32; CONFIG_WORDS], reg: u8) -> (r: u16)
    ensures
        r == half_at(w@, reg as int),
{
    let x: u32 = w[(reg / 4) as usize];
    let h: u32 = if reg % 4 < 2 {
        x % 0x1_0000
    } else {
        x / 0x1_0000
    };
    h as u16
}

/// An address register as firmware left it stands for a window of 64-bit
/// addresses.
pub open spec fn is_wide(original: u32) -> bool {
    original % 2 == 0 && original as int / 2 % 4 == 2
}

/// An address register as firmware left it stands for ports.
pub open spec fn is_ports(original: u32) -> bool {
    original % 2 == 1
}

/// Where a window begins. `hi` is the register behind a wide one.
pub open spec fn window_base(original: u32, hi: u32) -> int {
    if is_ports(original) {
        original as int % 0x1_0000 - original as int % 4
    } else {
        original - original as int % 16 + (if is_wide(original) {
            hi * 0x1_0000_0000
        } else {
            0
        })
    }
}

/// How large a window is, from what its registers read after all ones were
/// written: the address bits that stayed zero are the window's own.
pub open spec fn window_size(original: u32, sized: u32, sized_hi: u32) -> int {
    let low = sized - sized as int % 16;
    if is_ports(original) {
        (0x1_0000_0000 - (sized - sized as int % 4)) % 0x1_0000_0000
    } else if is_wide(original) {
        (0x1_0000_0000_0000_0000 - (low + sized_hi * 0x1_0000_0000)) % 0x1_0000_0000_0000_0000
    } else {
        0x1_0000_0000 - low
    }
}

/// Where a window begins, how large it is, whether it stands for ports, and
/// whether it takes the next register too.
pub fn size_bar(original: u32, sized: u32, hi: u32, sized_hi: u32) -> (r: (u64, u64, bool, bool))
    ensures
        if original == 0 {
            r == (0u64, 0u64, false, false)
        } else {
            &&& r.0 == window_base(original, hi)
            &&& r.1 == window_size(original, sized, sized_hi)
            &&& r.2 == is_ports(original)
            &&& r.3 == is_wide(original)
        },
{
    if original == 0 {
        return (0, 0, false, false);
    }
    if original % 2 == 1 {
        let base: u32 = original % 0x1_0000 - original % 4;
        let m: u64 = (sized - sized % 4) as u64;
        let size: u64 = (0x1_0000_0000 - m) % 0x1_0000_0000;
        return (base as u64, size, true, false);
    }
    let low: u64 = (sized - sized % 16) as u64;
    let base: u64 = (original - original % 16) as u64;
    if original / 2 % 4 == 2 {
        let whole: u64 = low + sized_hi as u64 * 0x1_0000_0000;
        let size: u64 = if whole == 0 {
            0
        } else {
            0xFFFF_FFFF_FFFF_FFFF - whole + 1
        };
        return (base + hi as u64 * 0x1_0000_0000, size, false, true);
    }
    (base, 0x1_0000_0000 - low, false, false)
}

/// Address register `b` is looked at by itself: it is not the second half of
/// a wide one.
pub open spec fn bar_starts(w: Seq<u32>, b: int) -> bool
    decreases b,
{
    if b <= 0 {
        b == 0
    } else {
        !(bar_starts(w, b - 1) && is_wide(w[4 + b - 1]))
    }
}

/// What address register `b` stands for: nothing, if it is empty or a second
/// half.
pub open spec fn bar_of(raw: RawFunction, b: int) -> (int, int, bool) {
    let w = raw.words@;
    if !bar_starts(w, b) || w[4 + b] == 0 {
        (0, 0, false)
    } else {
        (
            window_base(w[4 + b], w[4 + b + 1]),
            window_size(w[4 + b], raw.sized@[b], raw.sized@[b + 1]),
            is_ports(w[4 + b]),
        )
    }
}

/// The function that an image shows in slot `n`.
pub open spec fn function_is(f: PciFunction, raw: RawFunction, n: int) -> bool {
    let w = raw.words@;
    &&& f.dev == n / 8
    &&& f.func == n % 8
    &&& f.vendor_id == half_at(w, 0)
    &&& f.device_id == half_at(w, 2)
    &&& f.class_rev == w[2]
    &&& f.subsystem == w[11]
    &&& forall|b: int|
        0 <= b < 6 ==> (#[trigger] f.bar_base@[b], f.bar_size@[b], f.bar_is_io@[b]) == (
            bar_of(raw, b).0 as u64,
            bar_of(raw, b).1 as u64,
            bar_of(raw, b).2,
        )
}

proof fn lemma_window(original: u32, sized: u32, hi: u32, sized_hi: u32)
    ensures
        0 <= window_base(original, hi) <= u64::MAX,
        0 <= window_size(original, sized, sized_hi) <= u64::MAX,
{
}

/// Read a function and its address windows from its image.
pub fn record_function(raw: &RawFunction, n: usize) -> (f: PciFunction)
    requires
        n < SLOTS,
    ensures
        function_is(f, *raw, n as int),
{
    let mut base: [u64; 6] = [0, 0, 0, 0, 0, 0];
    let mut size: [u64; 6] = [0, 0, 0, 0, 0, 0];
    let mut io: [bool; 6] = [false, false, false, false, false, false];
    let mut b: usize = 0;
    let ghost w = raw.words@;
    while b < 6
        invariant
            b <= 7,
            w == raw.words@,
            b <= 6 ==> bar_starts(w, b as int),
            forall|k: int| 0 <= k < 6 && k < b ==> #[trigger] base@[k] == bar_of(*raw, k).0 as u64,
            forall|k: int| 0 <= k < 6 && k < b ==> #[trigger] size@[k] == bar_of(*raw, k).1 as u64,
            forall|k: int| 0 <= k < 6 && k < b ==> #[trigger] io@[k] == bar_of(*raw, k).2,
            forall|k: int| b <= k < 6 ==> #[trigger] base@[k] == 0,
            forall|k: int| b <= k < 6 ==> #[trigger] size@[k] == 0,
            forall|k: int| b <= k < 6 ==> #[trigger] io@[k] == false,
        decreases 7 - b,
    {
        let original: u32 = raw.words[4 + b];
        let hi: u32 = raw.words[5 + b];
        let r: (u64, u64, bool, bool) = size_bar(original, raw.sized[b], hi, raw.sized[b + 1]);
        proof {
            lemma_window(original, raw.sized@[b as int], hi, raw.sized@[b + 1]);
            assert(bar_starts(w, b + 1) == !is_wide(w[4 + b as int]));
            if is_wide(w[4 + b as int]) {
                assert(original != 0);
                assert(bar_starts(w, b + 2));
                assert(bar_of(*raw, b + 1) == (0int, 0int, false));
            }
        }
        base[b] = r.0;
        size[b] = r.1;
        io[b] = r.2;
        b = if r.3 {
            b + 2
        } else {
            b + 1
        };
    }
    PciFunction {
        dev: (n / 8) as u8,
        func: (n % 8) as u8,
        vendor_id: read16(&raw.words, 0),
        device_id: read16(&raw.words, 2),
        class_rev: raw.words[2],
        subsystem: raw.words[11],
        bar_base: base,
        bar_size: size,
        bar_is_io: io,
    }
}

pub open spec fn no_cap() -> VirtioCapLoc {
    VirtioCapLoc { present: false, bar: 0, offset: 0, length: 0 }
}

pub open spec fn no_msix() -> MsixInfo {
    MsixInfo { present: false, table_size: 0, table_bar: 0, table_offset: 0 }
}

/// The device number is one of the transitional ones.
pub open spec fn is_transitional(device_id: u16) -> bool {
    VIRTIO_TRANSITIONAL_LO <= device_id <= VIRTIO_TRANSITIONAL_HI
}

/// The type of a VirtIO device: a transitional one has it in its subsystem, a
/// modern one in its number; any other has none.
pub open spec fn type_of(device_id: u16, subsystem: u32) -> u16 {
    if is_transitional(device_id) {
        (subsystem as int / 0x1_0000) as u16
    } else if device_id >= VIRTIO_MODERN_BASE {
        (device_id - VIRTIO_MODERN_BASE) as u16
    } else {
        u16::MAX
    }
}

/// A VirtIO device of which no structure is known.
pub open spec fn bare_device(pci_index: int, f: PciFunction) -> VirtioDevice {
    VirtioDevice {
        pci_index: pci_index as usize,
        dev: f.dev,
        func: f.func,
        device_id: f.device_id,
        virtio_type: type_of(f.device_id, f.subsystem),
        transitional: is_transitional(f.device_id),
        common: no_cap(),
        notify: no_cap(),
        isr: no_cap(),
        device_cfg: no_cap(),
        notify_off_multiplier: 0,
        msix: no_msix(),
    }
}

/// A register number some bytes further on. Configuration space wraps around.
pub open spec fn reg_plus(reg: int, n: int) -> int {
    (reg + n) % 256
}

/// The structure that the capability at `at` describes.
pub open spec fn loc_at(w: Seq<u32>, at: int) -> VirtioCapLoc {
    VirtioCapLoc {
        present: true,
        bar: byte_at(w, reg_plus(at, 4)),
        offset: word_at(w, reg_plus(at, 8)),
        length: word_at(w, reg_plus(at, 12)),
    }
}

/// The table of interrupt messages that the capability at `at` describes.
pub open spec fn msix_at(w: Seq<u32>, at: int) -> MsixInfo {
    let table = word_at(w, reg_plus(at, 4));
    MsixInfo {
        present: true,
        table_size: (half_at(w, reg_plus(at, 2)) as int % 0x800 + 1) as u16,
        table_bar: (table as int % 8) as u8,
        table_offset: (table - table as int % 8) as u32,
    }
}

/// The device after the capability at `at` was read.
pub open spec fn with_cap(v: VirtioDevice, w: Seq<u32>, at: int) -> VirtioDevice {
    let id = byte_at(w, at);
    let kind = byte_at(w, reg_plus(at, 3));
    if id == CAP_ID_VENDOR {
        if kind == VIRTIO_CFG_COMMON {
            VirtioDevice { common: loc_at(w, at), ..v }
        } else if kind == VIRTIO_CFG_NOTIFY {
            VirtioDevice {
                notify: loc_at(w, at),
                notify_off_multiplier: word_at(w, reg_plus(at, 16)),
                ..v
            }
        } else if kind == VIRTIO_CFG_ISR {
            VirtioDevice { isr: loc_at(w, at), ..v }
        } else if kind == VIRTIO_CFG_DEVICE {
            VirtioDevice { device_cfg: loc_at(w, at), ..v }
        } else {
            v
        }
    } else if id == CAP_ID_MSIX {
        VirtioDevice { msix: msix_at(w, at), ..v }
    } else {
        v
    }
}

/// Where a list pointer points: its two low bits do not count.
pub open spec fn aligned(p: u8) -> int {
    p - p as int % 4
}

/// The device after at most `n` capabilities of the list at `at` were read.
pub open spec fn walked(v: VirtioDevice, w: Seq<u32>, at: int, n: nat) -> VirtioDevice
    decreases n,
{
    if n == 0 || at == 0 {
        v
    } else {
        walked(
            with_cap(v, w, at),
            w,
            aligned(byte_at(w, reg_plus(at, 1))),
            (n - 1) as nat,
        )
    }
}

/// The device that a VirtIO function is.
pub open spec fn device_of(pci_index: int, f: PciFunction, w: Seq<u32>) -> VirtioDevice {
    let v = bare_device(pci_index, f);
    if half_at(w, 6) & STATUS_CAP_LIST == 0 {
        v
    } else {
        walked(v, w, aligned(byte_at(w, 0x34)), CAP_WALK_BOUND as nat)
    }
}

/// The command register with memory decoding and bus mastery on.
pub open spec fn command_wanted(command: u16) -> u16 {
    command | COMMAND_MEM | COMMAND_BUS_MASTER
}

/// A write to a function's command register.
#[derive(Clone, Copy, Debug, PartialEq, Eq, Structural)]
pub struct CommandWrite {
    pub dev: u8,
    pub func: u8,
    pub value: u32,
}

/// The write that turns memory decoding and bus mastery on, if they are not. The
/// upper half, which goes to the status register, is zero: a one there would
/// clear a status bit.
pub open spec fn command_write(f: PciFunction, w: Seq<u32>) -> Option<CommandWrite> {
    if command_wanted(half_at(w, 4)) == half_at(w, 4) {
        None
    } else {
        Some(
            CommandWrite {
                dev: f.dev,
                func: f.func,
                value: command_wanted(half_at(w, 4)) as u32,
            },
        )
    }
}

fn plus(reg: u8, n: u8) -> (r: u8)
    ensures
        r == reg_plus(reg as int, n as int),
{
    reg.wrapping_add(n)
}

fn read_loc(w: &[u32; CONFIG_WORDS], at: u8) -> (r: VirtioCapLoc)
    ensures
        r == loc_at(w@, at as int),
{
    VirtioCapLoc {
        present: true,
        bar: read8(w, plus(at, 4)),
        offset: read32(w, plus(at, 8)),
        length: read32(w, plus(at, 12)),
    }
}

fn read_msix(w: &[u32; CONFIG_WORDS], at: u8) -> (r: MsixInfo)
    ensures
        r == msix_at(w@, at as int),
{
    let ctl: u16 = read16(w, plus(at, 2));
    let table: u32 = read32(w, plus(at, 4));
    MsixInfo {
        present: true,
        table_size: ctl % 0x800 + 1,
        table_bar: (table % 8) as u8,
        table_offset: table - table % 8,
    }
}

fn read_cap(v: VirtioDevice, w: &[u32; CONFIG_WORDS], at: u8) -> (r: VirtioDevice)
    ensures
        r == with_cap(v, w@, at as int),
{
    let id: u8 = read8(w, at);
    if id == CAP_ID_VENDOR {
        let kind: u8 = read8(w, plus(at, 3));
        let loc: VirtioCapLoc = read_loc(w, at);
        if kind == VIRTIO_CFG_COMMON {
            VirtioDevice { common: loc, ..v }
        } else if kind == VIRTIO_CFG_NOTIFY {
            let multiplier: u32 = read32(w, plus(at, 16));
            VirtioDevice { notify: loc, notify_off_multiplier: multiplier, ..v }
        } else if kind == VIRTIO_CFG_ISR {
            VirtioDevice { isr: loc, ..v }
        } else if kind == VIRTIO_CFG_DEVICE {
            VirtioDevice { device_cfg: loc, ..v }
        } else {
            v
        }
    } else if id == CAP_ID_MSIX {
        let msix: MsixInfo = read_msix(w, at);
        VirtioDevice { msix, ..v }
    } else {
        v
    }
}

/// Resolve a VirtIO function: its type, its structures, and the write that
/// lets it reach memory.
pub fn record_virtio(pci_index: usize, f: &PciFunction, w: &[u32; CONFIG_WORDS]) -> (r: (
    VirtioDevice,
    Option<CommandWrite>,
))
    ensures
        r.0 == device_of(pci_index as int, *f, w@),
        r.1 == command_write(*f, w@),
{
    let transitional: bool = f.device_id >= VIRTIO_TRANSITIONAL_LO && f.device_id
        <= VIRTIO_TRANSITIONAL_HI;
    let none: VirtioCapLoc = VirtioCapLoc { present: false, bar: 0, offset: 0, length: 0 };
    let mut v: VirtioDevice = VirtioDevice {
        pci_index,
        dev: f.dev,
        func: f.func,
        device_id: f.device_id,
        virtio_type: if transitional {
            (f.subsystem / 0x1_0000) as u16
        } else if f.device_id >= VIRTIO_MODERN_BASE {
            f.device_id - VIRTIO_MODERN_BASE
        } else {
            u16::MAX
        },
        transitional,
        common: none,
        notify: none,
        isr: none,
        device_cfg: none,
        notify_off_multiplier: 0,
        msix: MsixInfo { present: false, table_size: 0, table_bar: 0, table_offset: 0 },
    };
    let command: u16 = read16(w, 4);
    let status: u16 = read16(w, 6);
    let want: u16 = command | COMMAND_MEM | COMMAND_BUS_MASTER;
    let write: Option<CommandWrite> = if want != command {
        Some(CommandWrite { dev: f.dev, func: f.func, value: want as u32 })
    } else {
        None
    };
    if status & STATUS_CAP_LIST == 0 {
        return (v, write);
    }
    let p: u8 = read8(w, 0x34);
    let mut next: u8 = p - p % 4;
    let mut n: usize = 0;
    while n < CAP_WALK_BOUND && next != 0
        invariant
            n <= CAP_WALK_BOUND,
            walked(v, w@, next as int, (CAP_WALK_BOUND - n) as nat) == device_of(
                pci_index as int,
                *f,
                w@,
            ),
        decreases CAP_WALK_BOUND - n,
    {
        v = read_cap(v, w, next);
        let q: u8 = read8(w, plus(next, 1));
        next = q - q % 4;
        n = n + 1;
    }
    (v, write)
}

/// Slot `n` answers: its vendor number is not all ones.
pub open spec fn answers(bus: &Bus, n: int) -> bool {
    half_at(bus.slots@[n].words@, 0) != 0xFFFF
}

/// The device that slot `n` belongs to has more than one function.
pub open spec fn multifunction(bus: &Bus, n: int) -> bool {
    byte_at(bus.slots@[n - n % 8].words@, 0x0C) >= 0x80
}

/// Slot `n` holds a function: its device answers, and it is the device's
/// first function, or one of several that answers too.
pub open spec fn holds(bus: &Bus, n: int) -> bool {
    &&& answers(bus, n - n % 8)
    &&& answers(bus, n)
    &&& n % 8 == 0 || multifunction(bus, n)
}

/// The slots below `n` that hold a function, in order.
pub open spec fn held(bus: &Bus, n: int) -> Seq<int>
    decreases n,
{
    if n <= 0 {
        Seq::empty()
    } else if holds(bus, n - 1) {
        held(bus, n - 1).push(n - 1)
    } else {
        held(bus, n - 1)
    }
}

/// How many of the functions below slot `n` are kept.
pub open spec fn kept(bus: &Bus, n: int) -> int {
    if held(bus, n).len() < MAX_PCI_FUNCTIONS {
        held(bus, n).len() as int
    } else {
        MAX_PCI_FUNCTIONS as int
    }
}

/// The devices among the first `n` functions that are VirtIO devices.
pub open spec fn virtio_among(bus: &Bus, funcs: Seq<PciFunction>, n: int) -> Seq<VirtioDevice>
    decreases n,
{
    if n <= 0 {
        Seq::empty()
    } else {
        let before = virtio_among(bus, funcs, n - 1);
        if funcs[n - 1].vendor_id == VIRTIO_VENDOR_ID {
            before.push(
                device_of(
                    n - 1,
                    funcs[n - 1],
                    bus.slots@[held(bus, SLOTS as int)[n - 1]].words@,
                ),
            )
        } else {
            before
        }
    }
}

/// The command register writes for the VirtIO devices among the first `n`
/// functions.
pub open spec fn writes_among(bus: &Bus, funcs: Seq<PciFunction>, n: int) -> Seq<CommandWrite>
    decreases n,
{
    if n <= 0 {
        Seq::empty()
    } else {
        let before = writes_among(bus, funcs, n - 1);
        if funcs[n - 1].vendor_id == VIRTIO_VENDOR_ID {
            match command_write(funcs[n - 1], bus.slots@[held(bus, SLOTS as int)[n - 1]].words@) {
                Some(w) => before.push(w),
                None => before,
            }
        } else {
            before
        }
    }
}

/// The first `n` elements, or all if there are fewer.
pub open spec fn at_most<A>(s: Seq<A>, n: nat) -> Seq<A> {
    if s.len() <= n {
        s
    } else {
        s.take(n as int)
    }
}

fn slot_answers(bus: &Bus, n: usize) -> (r: bool)
    requires
        bus.wf(),
        n < SLOTS,
    ensures
        r == answers(bus, n as int),
{
    read16(&bus.slots[n].words, 0) != 0xFFFF
}

fn slot_holds(bus: &Bus, n: usize) -> (r: bool)
    requires
        bus.wf(),
        n < SLOTS,
    ensures
        r == holds(bus, n as int),
{
    let first: usize = n - n % 8;
    slot_answers(bus, first) && slot_answers(bus, n) && (n % 8 == 0 || read8(
        &bus.slots[first].words,
        0x0C,
    ) >= 0x80)
}

proof fn lemma_held(bus: &Bus, n: int, m: int)
    requires
        0 <= n <= m,
    ensures
        held(bus, n).len() <= held(bus, m).len(),
        forall|k: int|
            0 <= k < held(bus, n).len() ==> #[trigger] held(bus, n)[k] == held(bus, m)[k],
    decreases m,
{
    if n < m {
        lemma_held(bus, n, m - 1);
    }
}

/// What the scan finds on a bus.
pub open spec fn scanned(bus: &Bus, t: &PciTable) -> bool {
    &&& t.enumerated
    &&& t.funcs@.len() == kept(bus, SLOTS as int)
    &&& forall|k: int|
        0 <= k < t.funcs@.len() ==> #[trigger] function_is(
            t.funcs@[k],
            bus.slots@[held(bus, SLOTS as int)[k]],
            held(bus, SLOTS as int)[k],
        )
    &&& t.devs@ == at_most(
        virtio_among(bus, t.funcs@, t.funcs@.len() as int),
        MAX_VIRTIO_DEVICES as nat,
    )
}

proof fn lemma_virtio_prefix(bus: &Bus, a: Seq<PciFunction>, b: Seq<PciFunction>, n: int)
    requires
        0 <= n <= a.len(),
        n <= b.len(),
        forall|k: int| 0 <= k < n ==> #[trigger] a[k] == b[k],
    ensures
        virtio_among(bus, a, n) == virtio_among(bus, b, n),
        writes_among(bus, a, n) == writes_among(bus, b, n),
    decreases n,
{
    if n > 0 {
        lemma_virtio_prefix(bus, a, b, n - 1);
    }
}

/// Walk the image of bus 0: keep the first functions, and the first VirtIO
/// devices among them. The answer is the command register writes to make. A
/// table that was filled once stays as it is.
pub fn enumerate(t: &mut PciTable, bus: &Bus) -> (r: Vec<CommandWrite>)
    requires
        bus.wf(),
        !old(t).enumerated ==> old(t).funcs@.len() == 0 && old(t).devs@.len() == 0,
    ensures
        if old(t).enumerated {
            *final(t) == *old(t) && r@ == Seq::<CommandWrite>::empty()
        } else {
            &&& scanned(bus, final(t))
            &&& r@ == writes_among(bus, final(t).funcs@, final(t).funcs@.len() as int)
        },
{
    let mut writes: Vec<CommandWrite> = Vec::new();
    if t.enumerated {
        return writes;
    }
    let mut n: usize = 0;
    while n < SLOTS
        invariant
            n <= SLOTS,
            bus.wf(),
            !t.enumerated,
            t.funcs@.len() == kept(bus, n as int),
            forall|k: int|
                0 <= k < t.funcs@.len() ==> #[trigger] function_is(
                    t.funcs@[k],
                    bus.slots@[held(bus, SLOTS as int)[k]],
                    held(bus, SLOTS as int)[k],
                ),
            t.devs@ == at_most(
                virtio_among(bus, t.funcs@, t.funcs@.len() as int),
                MAX_VIRTIO_DEVICES as nat,
            ),
            writes@ == writes_among(bus, t.funcs@, t.funcs@.len() as int),
        decreases SLOTS - n,
    {
        if slot_holds(bus, n) && t.funcs.len() < MAX_PCI_FUNCTIONS {
            proof {
                lemma_held(bus, n + 1, SLOTS as int);
                assert(held(bus, n + 1)[t.funcs@.len() as int] == n as int);
            }
            let ghost before = t.funcs@;
            let f: PciFunction = record_function(&bus.slots[n], n);
            let at: usize = t.funcs.len();
            t.funcs.push(f);
            proof {
                lemma_virtio_prefix(bus, before, t.funcs@, at as int);
                assert(held(bus, SLOTS as int)[at as int] == n as int);
                assert(t.funcs@[at as int] == f);
            }
            if f.vendor_id == VIRTIO_VENDOR_ID {
                let (v, w): (VirtioDevice, Option<CommandWrite>) = record_virtio(
                    at,
                    &f,
                    &bus.slots[n].words,
                );
                if let Some(w) = w {
                    writes.push(w);
                }
                if t.devs.len() < MAX_VIRTIO_DEVICES {
                    t.devs.push(v);
                }
                proof {
                    let all = virtio_among(bus, before, at as int);
                    assert(virtio_among(bus, t.funcs@, at + 1) == all.push(v));
                    assert(t.devs@ =~= at_most(all.push(v), MAX_VIRTIO_DEVICES as nat));
                }
            }
        }
        n = n + 1;
    }
    t.enumerated = true;
    writes
}

/// Which address registers of a function are to be sized: each that is used,
/// and the register behind each wide one.
pub open spec fn sized_bar(w: Seq<u32>, b: int) -> bool {
    ||| 0 <= b < 6 && bar_starts(w, b) && w[4 + b] != 0
    ||| 0 < b <= 6 && bar_starts(w, b - 1) && is_wide(w[4 + b - 1])
}

/// Which address registers of a function are to be sized.
pub fn bars_to_size(w: &[u32; CONFIG_WORDS]) -> (r: [bool; 7])
    ensures
        forall|b: int| 0 <= b < 7 ==> #[trigger] r@[b] == sized_bar(w@, b),
{
    let mut r: [bool; 7] = [false, false, false, false, false, false, false];
    let mut b: usize = 0;
    while b < 6
        invariant
            b <= 7,
            b <= 6 ==> bar_starts(w@, b as int),
            b == 7 ==> bar_starts(w@, 5) && is_wide(w@[9]),
            forall|k: int| 0 <= k < 7 && k < b ==> #[trigger] r@[k] == sized_bar(w@, k),
            forall|k: int| b <= k < 7 ==> #[trigger] r@[k] == false,
            0 < b <= 6 ==> !(bar_starts(w@, b - 1) && is_wide(w@[4 + b - 1])),
        decreases 7 - b,
    {
        let x: u32 = w[4 + b];
        let wide: bool = x % 2 == 0 && x / 2 % 4 == 2;
        proof {
            assert(bar_starts(w@, b + 1) == !is_wide(w@[4 + b]));
            if wide {
                assert(bar_starts(w@, b + 2));
            }
        }
        r[b] = x != 0;
        if wide {
            r[b + 1] = true;
            b = b + 2;
        } else {
            b = b + 1;
        }
    }
    r
}

/// Which slots of the bus are to be sized before the scan: those of the
/// functions that it keeps.
pub fn slots_to_size(bus: &Bus) -> (r: Vec<usize>)
    requires
        bus.wf(),
    ensures
        r@.len() == kept(bus, SLOTS as int),
        forall|k: int| 0 <= k < r@.len() ==> #[trigger] r@[k] == held(bus, SLOTS as int)[k],
{
    let mut r: Vec<usize> = Vec::new();
    let mut n: usize = 0;
    while n < SLOTS
        invariant
            n <= SLOTS,
            bus.wf(),
            r@.len() == kept(bus, n as int),
            forall|k: int| 0 <= k < r@.len() ==> #[trigger] r@[k] == held(bus, SLOTS as int)[k],
        decreases SLOTS - n,
    {
        if slot_holds(bus, n) && r.len() < MAX_PCI_FUNCTIONS {
            proof {
                lemma_held(bus, n + 1, SLOTS as int);
                assert(held(bus, n + 1)[r@.len() as int] == n as int);
            }
            r.push(n);
        }
        n = n + 1;
    }
    r
}

/// How many functions are kept.
pub fn pci_count(t: &PciTable) -> (r: usize)
    ensures
        r == t.funcs@.len(),
{
    t.funcs.len()
}

/// The function that is kept as number `i`.
pub fn pci_function(t: &PciTable, i: usize) -> (r: Option<PciFunction>)
    ensures
        r == (if i < t.funcs@.len() {
            Some(t.funcs@[i as int])
        } else {
            None
        }),
{
    if i < t.funcs.len() {
        Some(t.funcs[i])
    } else {
        None
    }
}

/// How many VirtIO devices are kept.
pub fn virtio_count(t: &PciTable) -> (r: usize)
    ensures
        r == t.devs@.len(),
{
    t.devs.len()
}

/// The VirtIO device that is kept as number `i`.
pub fn virtio_device(t: &PciTable, i: usize) -> (r: Option<VirtioDevice>)
    ensures
        r == (if i < t.devs@.len() {
            Some(t.devs@[i as int])
        } else {
            None
        }),
{
    if i < t.devs.len() {
        Some(t.devs[i])
    } else {
        None
    }
}

/// The first device from `i` on of a type.
pub open spec fn first_of(devs: Seq<VirtioDevice>, kind: u16, i: int) -> Option<VirtioDevice>
    decreases devs.len() - i,
{
    if i >= devs.len() {
        None
    } else if devs[i].virtio_type == kind {
        Some(devs[i])
    } else {
        first_of(devs, kind, i + 1)
    }
}

/// The first VirtIO device of a type.
pub fn find_virtio(t: &PciTable, virtio_type: u16) -> (r: Option<VirtioDevice>)
    ensures
        r == first_of(t.devs@, virtio_type, 0),
{
    let mut i: usize = 0;
    while i < t.devs.len()
        invariant
            i <= t.devs@.len(),
            first_of(t.devs@, virtio_type, 0) == first_of(t.devs@, virtio_type, i as int),
        decreases t.devs@.len() - i,
    {
        if t.devs[i].virtio_type == virtio_type {
            return Some(t.devs[i]);
        }
        i = i + 1;
    }
    None
}

/// The half word of a kept function's configuration space at `reg`.
pub fn config_read16_of(t: &PciTable, bus: &Bus, pci_index: usize, reg: u8) -> (r: Option<u16>)
    requires
        bus.wf(),
        forall|k: int|
            0 <= k < t.funcs@.len() ==> (#[trigger] t.funcs@[k]).dev < 32 && t.funcs@[k].func < 8,
    ensures
        r == (if pci_index < t.funcs@.len() {
            let f = t.funcs@[pci_index as int];
            Some(half_at(bus.slots@[f.dev * 8 + f.func].words@, reg as int))
        } else {
            None
        }),
{
    match pci_function(t, pci_index) {
        None => None,
        Some(f) => {
            assert(t.funcs@[pci_index as int].dev < 32);
            let n: usize = f.dev as usize * 8 + f.func as usize;
            Some(read16(&bus.slots[n].words, reg))
        },
    }
}

/// The write that is made for a device lets it reach memory, leaves the rest of
/// its command as it was, and has no bit for its status.
pub proof fn law_command_write(f: PciFunction, w: Seq<u32>, x: CommandWrite)
    requires
        w.len() == CONFIG_WORDS,
        command_write(f, w) == Some(x),
    ensures
        x.value as u16 & COMMAND_MEM == COMMAND_MEM,
        x.value as u16 & COMMAND_BUS_MASTER == COMMAND_BUS_MASTER,
        x.value as int / 0x1_0000 == 0,
        x.value as u16 == half_at(w, 4) | COMMAND_MEM | COMMAND_BUS_MASTER,
{
    let c = half_at(w, 4);
    let want = command_wanted(c);
    let v = x.value;
    assert((c | 2 | 4) & 2 == 2 && (c | 2 | 4) & 4 == 4) by (bit_vector);
    assert(v as int % 0x1_0000 == want);
    assert(v as u16 == v % 0x1_0000) by (bit_vector);
}

/// Sizing finds a window's size. A device whose window takes `size` bytes
/// leaves the address bits below that zero, so its register reads `size`
/// short of the whole address space, with the register's own low bits.
pub proof fn law_sizing_narrow(original: u32, sized: u32, hi: u32, size: int, low: int)
    requires
        original != 0 && !is_ports(original) && !is_wide(original),
        0 < size <= 0x1_0000_0000,
        size % 16 == 0,
        0 <= low < 16,
        sized == 0x1_0000_0000 - size + low,
    ensures
        window_size(original, sized, hi) == size,
{
    let q = size / 16;
    assert(size == 16 * q);
    assert(sized == 16 * (0x1000_0000 - q) + low);
    assert(sized as int % 16 == low && sized as int / 16 == 0x1000_0000 - q);
}

/// The same for a wide window, whose two registers together read `size` short
/// of the whole address space.
pub proof fn law_sizing_wide(original: u32, sized: u32, sized_hi: u32, size: int, low: int)
    requires
        is_wide(original),
        0 < size < 0x1_0000_0000_0000_0000,
        size % 16 == 0,
        0 <= low < 16,
        sized + sized_hi * 0x1_0000_0000 == 0x1_0000_0000_0000_0000 - size + low,
    ensures
        window_size(original, sized, sized_hi) == size,
{
    let q = size / 16;
    let both = sized + sized_hi * 0x1_0000_0000;
    assert(size == 16 * q);
    assert(both == 16 * (0x1000_0000_0000_0000 - q) + low);
    assert(both % 16 == low);
    assert(sized as int % 16 == low);
}

} // verus!

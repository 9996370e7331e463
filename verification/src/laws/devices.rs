//! What a scan of the bus finds, told over the words of the configuration
//! space.

use crate::pci;
use crate::pci::{Bus, CommandWrite, MsixInfo, PciFunction, PciTable, RawFunction, VirtioCapLoc,
    VirtioDevice};
use vstd::prelude::*;

verus! {

/// The configuration space of function `func` of device `dev`.
pub open spec fn space(bus: &Bus, dev: int, func: int) -> Seq<u32> {
    bus.slots@[8 * dev + func].words@
}

/// There is a function to find: function 0 of the device answers, and so does
/// this one, which is function 0 or one of a device that says it has several.
pub open spec fn found(bus: &Bus, dev: int, func: int) -> bool {
    &&& 0 <= dev < 32
    &&& 0 <= func < 8
    &&& space(bus, dev, 0)[0] as int % 0x1_0000 != 0xFFFF
    &&& space(bus, dev, func)[0] as int % 0x1_0000 != 0xFFFF
    &&& func == 0 || space(bus, dev, 0)[3] as int % 256 >= 128
}

/// The table has an entry for function `func` of device `dev`.
pub open spec fn listed(t: &PciTable, dev: int, func: int) -> bool {
    exists|k: int|
        0 <= k < t.funcs@.len() && (#[trigger] t.funcs@[k]).dev == dev && t.funcs@[k].func == func
}

/// Which slot an entry is of.
pub open spec fn place(f: PciFunction) -> int {
    8 * f.dev + f.func
}

proof fn lemma_held(bus: &Bus, n: int)
    requires
        0 <= n <= 256,
    ensures
        forall|k: int|
            0 <= k < pci::held(bus, n).len() ==> 0 <= #[trigger] pci::held(bus, n)[k] < n && found(
                bus,
                pci::held(bus, n)[k] / 8,
                pci::held(bus, n)[k] % 8,
            ),
        forall|k: int, j: int|
            0 <= k < j < pci::held(bus, n).len() ==> #[trigger] pci::held(bus, n)[k]
                < #[trigger] pci::held(bus, n)[j],
        forall|dev: int, func: int| #[trigger]
            found(bus, dev, func) && 8 * dev + func < n ==> pci::held(bus, n).contains(
                8 * dev + func,
            ),
    decreases n,
{
    if n > 0 {
        lemma_held(bus, n - 1);
        let m = n - 1;
        let s = pci::held(bus, m);
        assert(8 * (m / 8) + m % 8 == m && m - m % 8 == 8 * (m / 8) + 0);
        assert(pci::holds(bus, m) == found(bus, m / 8, m % 8));
        assert forall|dev: int, func: int| #[trigger]
            found(bus, dev, func) && 8 * dev + func < n implies pci::held(bus, n).contains(
            8 * dev + func,
        ) by {
            if 8 * dev + func < m {
                assert(s.contains(8 * dev + func));
                let k = choose|k: int| 0 <= k < s.len() && s[k] == 8 * dev + func;
                assert(pci::held(bus, n)[k] == 8 * dev + func);
            } else {
                assert(dev == m / 8 && func == m % 8);
                assert(pci::held(bus, n).last() == m);
            }
        }
    }
}

/// The table lists functions that are there, in order, and each once. With
/// room left it lists every one; when it is full, every one up to the last
/// that it lists.
#[verifier::rlimit(40)]
pub proof fn law_scan_lists_what_is_there(bus: &Bus, t: &PciTable)
    requires
        bus.wf(),
        pci::scanned(bus, t),
    ensures
        t.funcs@.len() <= 8,
        forall|k: int|
            0 <= k < t.funcs@.len() ==> found(
                bus,
                (#[trigger] t.funcs@[k]).dev as int,
                t.funcs@[k].func as int,
            ),
        forall|k: int, j: int|
            0 <= k < j < t.funcs@.len() ==> place(#[trigger] t.funcs@[k]) < place(
                #[trigger] t.funcs@[j],
            ),
        forall|dev: int, func: int| #[trigger]
            found(bus, dev, func) && (t.funcs@.len() < 8 || 8 * dev + func <= place(t.funcs@[7]))
                ==> listed(t, dev, func),
{
    let h = pci::held(bus, 256);
    lemma_held(bus, 256);
    assert forall|k: int| 0 <= k < t.funcs@.len() implies place(#[trigger] t.funcs@[k]) == h[k]
        && t.funcs@[k].dev == h[k] / 8 && t.funcs@[k].func == h[k] % 8 by {
        assert(pci::function_is(t.funcs@[k], bus.slots@[h[k]], h[k]));
    }
    assert forall|dev: int, func: int| #[trigger]
        found(bus, dev, func) && (t.funcs@.len() < 8 || 8 * dev + func <= place(
            t.funcs@[7],
        )) implies listed(t, dev, func) by {
        assert(h.contains(8 * dev + func));
        let k = choose|k: int| 0 <= k < h.len() && h[k] == 8 * dev + func;
        if t.funcs@.len() == 8 && k >= 8 {
            assert(h[7] < h[k]);
            assert(place(t.funcs@[7]) == h[7]);
        }
        assert(t.funcs@[k].dev == dev && t.funcs@[k].func == func);
    }
}

/// An address register stands for memory with 64-bit addresses.
pub open spec fn wide(x: u32) -> bool {
    x % 8 == 4
}

/// The walk over the address registers comes to register `b`: from the one
/// before, or over a wide one.
pub open spec fn reached(w: Seq<u32>, b: int) -> bool
    decreases b,
{
    ||| b == 0
    ||| b >= 1 && reached(w, b - 1) && !wide(w[3 + b])
    ||| b >= 2 && reached(w, b - 2) && wide(w[2 + b])
}

proof fn lemma_reached(w: Seq<u32>, b: int)
    requires
        0 <= b,
    ensures
        reached(w, b) == pci::bar_starts(w, b),
    decreases b,
{
    if b >= 1 {
        lemma_reached(w, b - 1);
        let x = w[3 + b];
        assert(x % 8 == x % 2 + 2 * (x as int / 2 % 4));
        assert(wide(x) == pci::is_wide(x));
    }
    if b >= 2 {
        lemma_reached(w, b - 2);
        let y = w[2 + b];
        assert(y % 8 == y % 2 + 2 * (y as int / 2 % 4));
        assert(wide(y) == pci::is_wide(y));
    }
}

/// The window of register `b`: the register holds its first address over its
/// own low bits, and after all ones were written it reads the address space
/// less the window's size.
pub open spec fn window(raw: RawFunction, b: int, base: int, size: int, io: bool) -> bool {
    let x = raw.words@[4 + b] as int;
    let s = raw.sized@[b] as int;
    let hi = raw.words@[5 + b] as int;
    let sized_hi = raw.sized@[b + 1] as int;
    if x % 2 == 1 {
        &&& io
        &&& base % 4 == 0
        &&& 0 <= x % 0x1_0000 - base < 4
        &&& 0 <= size < 0x1_0000_0000
        &&& size + (s - s % 4) == 0x1_0000_0000 || size == 0 && s < 4
    } else if x % 8 == 4 {
        &&& !io
        &&& base % 16 == 0
        &&& 0 <= x + hi * 0x1_0000_0000 - base < 16
        &&& size + (s - s % 16) + sized_hi * 0x1_0000_0000 == 0x1_0000_0000_0000_0000 || size == 0
            && s < 16 && sized_hi == 0
    } else {
        &&& !io
        &&& base % 16 == 0
        &&& 0 <= x - base < 16
        &&& size + (s - s % 16) == 0x1_0000_0000
    }
}

proof fn lemma_window(raw: RawFunction, b: int)
    requires
        0 <= b < 6,
    ensures
        ({
            let x = raw.words@[4 + b];
            let base = pci::window_base(x, raw.words@[5 + b]);
            let size = pci::window_size(x, raw.sized@[b], raw.sized@[b + 1]);
            &&& window(raw, b, base, size, x % 2 == 1)
            &&& 0 <= base <= u64::MAX
            &&& 0 <= size <= u64::MAX
        }),
{
    let x = raw.words@[4 + b];
    let s = raw.sized@[b];
    let t = raw.sized@[b + 1];
    assert(x % 8 == x % 2 + 2 * (x as int / 2 % 4));
    let base = pci::window_base(x, raw.words@[5 + b]);
    let size = pci::window_size(x, s, t);
    if x % 2 == 1 {
        assert(x as int % 0x1_0000 % 4 == x as int % 4);
        let low = s - s as int % 4;
        assert(0 <= low < 0x1_0000_0000);
        if low > 0 {
            assert(size == 0x1_0000_0000 - low);
        }
    } else if x % 8 == 4 {
        assert(base % 16 == 0);
        let whole = s - s as int % 16 + t * 0x1_0000_0000;
        assert(0 <= whole < 0x1_0000_0000_0000_0000);
        if whole > 0 {
            assert(size == 0x1_0000_0000_0000_0000 - whole);
        }
    }
}

/// What is kept of a function is what its words say: who made it, what it is,
/// and the window of each address register that the walk comes to and that is
/// not empty.
#[verifier::rlimit(40)]
pub proof fn law_function_says(f: PciFunction, raw: RawFunction, n: int, b: int)
    requires
        pci::function_is(f, raw, n),
        0 <= n < 256,
        0 <= b < 6,
    ensures
        8 * f.dev + f.func == n,
        f.func < 8,
        f.vendor_id + f.device_id * 0x1_0000 == raw.words@[0],
        f.class_rev == raw.words@[2],
        f.subsystem == raw.words@[11],
        if reached(raw.words@, b) && raw.words@[4 + b] != 0 {
            window(raw, b, f.bar_base@[b] as int, f.bar_size@[b] as int, f.bar_is_io@[b])
        } else {
            f.bar_base@[b] == 0 && f.bar_size@[b] == 0 && !f.bar_is_io@[b]
        },
{
    let w = raw.words@;
    let x = w[4 + b];
    let s = raw.sized@[b];
    lemma_reached(w, b);
    assert((f.bar_base@[b], f.bar_size@[b], f.bar_is_io@[b]) == (
        pci::bar_of(raw, b).0 as u64,
        pci::bar_of(raw, b).1 as u64,
        pci::bar_of(raw, b).2,
    ));
    assert(x % 8 == x % 2 + 2 * (x as int / 2 % 4));
    if reached(w, b) && x != 0 {
        lemma_window(raw, b);
    }
}

/// Byte `reg` of the configuration space, which wraps around.
#[verifier::opaque]
pub open spec fn reg8(w: Seq<u32>, reg: int) -> int {
    let r = reg % 256;
    let x = w[r / 4] as int;
    (if r % 4 == 0 {
        x
    } else if r % 4 == 1 {
        x / 0x100
    } else if r % 4 == 2 {
        x / 0x1_0000
    } else {
        x / 0x100_0000
    }) % 0x100
}

/// Where the capabilities of the list at `at` lie; at most `n` of them.
pub open spec fn list_from(w: Seq<u32>, at: int, n: nat) -> Seq<int>
    decreases n,
{
    if n == 0 || at == 0 {
        Seq::empty()
    } else {
        let p = reg8(w, at + 1);
        seq![at] + list_from(w, p - p % 4, (n - 1) as nat)
    }
}

/// Where a function's capabilities lie. Bit 20 of word 1 says whether it has a
/// list, and the low byte of word 13 where that begins.
pub open spec fn capabilities(w: Seq<u32>) -> Seq<int> {
    if w[1] as int / 0x10_0000 % 2 == 0 {
        Seq::empty()
    } else {
        list_from(w, w[13] as int % 256 - w[13] as int % 4, 48)
    }
}

/// The capability at `at` describes a VirtIO structure: common configuration
/// (1), notifications (2), interrupt status (3) or device configuration (4);
/// or, for 0, the table of interrupt messages.
pub open spec fn describes(w: Seq<u32>, at: int, kind: int) -> bool {
    if kind == 0 {
        reg8(w, at) == 0x11
    } else {
        reg8(w, at) == 0x09 && reg8(w, at + 3) == kind
    }
}

/// Number `j` of the list is the last that describes such a structure.
pub open spec fn last(w: Seq<u32>, l: Seq<int>, kind: int, j: int) -> bool {
    &&& 0 <= j < l.len()
    &&& describes(w, l[j], kind)
    &&& forall|i: int| j < i < l.len() ==> !describes(w, #[trigger] l[i], kind)
}

/// None of the list describes such a structure.
pub open spec fn lacks(w: Seq<u32>, l: Seq<int>, kind: int) -> bool {
    forall|i: int| 0 <= i < l.len() ==> !describes(w, #[trigger] l[i], kind)
}

/// What the capability at `at` says of a structure: in which window it lies,
/// and from which byte on how many.
pub open spec fn located(c: VirtioCapLoc, w: Seq<u32>, at: int) -> bool {
    &&& c.present
    &&& c.bar == reg8(w, at + 4)
    &&& c.offset == w[(at + 8) % 256 / 4]
    &&& c.length == w[(at + 12) % 256 / 4]
}

/// What the capability at `at` says of the interrupt messages: how many, and
/// where their table lies.
pub open spec fn messages(m: MsixInfo, w: Seq<u32>, at: int) -> bool {
    &&& m.present
    &&& m.table_size == (reg8(w, at + 2) + 0x100 * reg8(w, at + 3)) % 0x800 + 1
    &&& m.table_bar < 8
    &&& m.table_offset % 8 == 0
    &&& m.table_offset + m.table_bar == w[(at + 4) % 256 / 4]
}

/// The place of a structure, by its number.
pub open spec fn structure(v: VirtioDevice, kind: int) -> VirtioCapLoc {
    if kind == 1 {
        v.common
    } else if kind == 2 {
        v.notify
    } else if kind == 3 {
        v.isr
    } else {
        v.device_cfg
    }
}

proof fn lemma_reg8(w: Seq<u32>, r: int)
    ensures
        pci::byte_at(w, r % 256) == reg8(w, r),
        0 <= reg8(w, r) < 256,
{
    reveal(reg8);
    let x = w[r % 256 / 4] as int;
    assert(0 <= x / 0x100_0000 < 256);
}

proof fn lemma_step(v: VirtioDevice, w: Seq<u32>, at: int, kind: int)
    requires
        0 < at < 256,
        at % 4 == 0,
        0 <= kind <= 4,
    ensures
        ({
            let r = pci::with_cap(v, w, at);
            let p = reg8(w, at + 1);
            &&& 0 <= p < 256
            &&& pci::aligned(pci::byte_at(w, pci::reg_plus(at, 1))) == p - p % 4
            &&& kind > 0 && describes(w, at, kind) ==> located(structure(r, kind), w, at)
            &&& kind > 0 && !describes(w, at, kind) ==> structure(r, kind) == structure(v, kind)
            &&& kind == 2 && describes(w, at, kind) ==> r.notify_off_multiplier == w[(at + 16) % 256
                / 4]
            &&& kind == 2 && !describes(w, at, kind) ==> r.notify_off_multiplier
                == v.notify_off_multiplier
            &&& kind == 0 && describes(w, at, kind) ==> messages(r.msix, w, at)
            &&& kind == 0 && !describes(w, at, kind) ==> r.msix == v.msix
            &&& r.pci_index == v.pci_index && r.dev == v.dev && r.func == v.func && r.device_id
                == v.device_id && r.virtio_type == v.virtio_type && r.transitional == v.transitional
        }),
{
    lemma_reg8(w, at);
    lemma_reg8(w, at + 1);
    lemma_reg8(w, at + 3);
    lemma_reg8(w, at + 4);
    if kind == 0 {
        lemma_msix(w, at);
    }
}

#[verifier::rlimit(60)]
proof fn lemma_walk(v: VirtioDevice, w: Seq<u32>, at: int, n: nat, kind: int, j: int)
    requires
        0 <= at < 256,
        at % 4 == 0,
        0 <= kind <= 4,
    ensures
        ({
            let r = pci::walked(v, w, at, n);
            let l = list_from(w, at, n);
            &&& kind > 0 && last(w, l, kind, j) ==> located(structure(r, kind), w, l[j])
            &&& kind == 2 && last(w, l, kind, j) ==> r.notify_off_multiplier == w[(l[j] + 16) % 256
                / 4]
            &&& kind > 0 && lacks(w, l, kind) ==> structure(r, kind) == structure(v, kind)
            &&& kind == 2 && lacks(w, l, kind) ==> r.notify_off_multiplier
                == v.notify_off_multiplier
            &&& kind == 0 && last(w, l, kind, j) ==> messages(r.msix, w, l[j])
            &&& kind == 0 && lacks(w, l, kind) ==> r.msix == v.msix
            &&& r.pci_index == v.pci_index && r.dev == v.dev && r.func == v.func && r.device_id
                == v.device_id && r.virtio_type == v.virtio_type && r.transitional == v.transitional
        }),
    decreases n,
{
    let l = list_from(w, at, n);
    if n > 0 && at != 0 {
        let u = pci::with_cap(v, w, at);
        lemma_step(v, w, at, kind);
        let p = reg8(w, at + 1);
        let rest = list_from(w, p - p % 4, (n - 1) as nat);
        assert(l == seq![at] + rest);
        assert(forall|i: int| 0 <= i < rest.len() ==> rest[i] == #[trigger] l[i + 1]);
        lemma_walk(u, w, p - p % 4, (n - 1) as nat, kind, j - 1);
        if last(w, l, kind, j) {
            if j > 0 {
                assert(last(w, rest, kind, j - 1)) by {
                    assert forall|i: int| j - 1 < i < rest.len() implies !describes(
                        w,
                        #[trigger] rest[i],
                        kind,
                    ) by {
                        assert(rest[i] == l[i + 1]);
                    }
                }
            } else {
                assert(lacks(w, rest, kind)) by {
                    assert forall|i: int| 0 <= i < rest.len() implies !describes(
                        w,
                        #[trigger] rest[i],
                        kind,
                    ) by {
                        assert(rest[i] == l[i + 1]);
                    }
                }
            }
        }
        if lacks(w, l, kind) {
            assert(lacks(w, rest, kind)) by {
                assert forall|i: int| 0 <= i < rest.len() implies !describes(
                    w,
                    #[trigger] rest[i],
                    kind,
                ) by {
                    assert(rest[i] == l[i + 1]);
                }
            }
            assert(!describes(w, l[0], kind));
        }
    }
}

proof fn lemma_msix(w: Seq<u32>, at: int)
    requires
        0 < at < 256,
        at % 4 == 0,
    ensures
        messages(pci::msix_at(w, at), w, at),
{
    let x = w[at / 4] as int;
    let h = x / 0x1_0000;
    reveal(reg8);
    assert((at + 2) % 256 / 4 == at / 4 && (at + 3) % 256 / 4 == at / 4);
    assert(h == h % 0x100 + 0x100 * (h / 0x100));
    assert(h / 0x100 == x / 0x100_0000);
    assert(0 <= h / 0x100 < 0x100);
}

/// What is known of a VirtIO device is what its capabilities say. Of each
/// structure the last capability counts that describes it; without one the
/// structure is absent.
#[verifier::rlimit(40)]
pub proof fn law_device_says(i: int, f: PciFunction, w: Seq<u32>, kind: int, j: int)
    requires
        w.len() == 64,
        0 <= i < 8,
        0 <= kind <= 4,
    ensures
        ({
            let v = pci::device_of(i, f, w);
            let l = capabilities(w);
            &&& v.pci_index == i
            &&& v.dev == f.dev && v.func == f.func && v.device_id == f.device_id
            &&& v.transitional == (0x1000 <= f.device_id < 0x1040)
            &&& 0x1000 <= f.device_id < 0x1040 ==> v.virtio_type == f.subsystem as int / 0x1_0000
            &&& 0x1040 <= f.device_id ==> v.virtio_type + 0x1040 == f.device_id
            &&& f.device_id < 0x1000 ==> v.virtio_type == 0xFFFF
            &&& kind > 0 && last(w, l, kind, j) ==> located(structure(v, kind), w, l[j])
            &&& kind > 0 && lacks(w, l, kind) ==> !structure(v, kind).present
            &&& kind == 2 && last(w, l, kind, j) ==> v.notify_off_multiplier == w[(l[j] + 16) % 256
                / 4]
            &&& kind == 0 && last(w, l, kind, j) ==> messages(v.msix, w, l[j])
            &&& kind == 0 && lacks(w, l, kind) ==> !v.msix.present
        }),
{
    let s = pci::half_at(w, 6);
    let x = w[1] as int;
    assert(s == x / 0x1_0000);
    assert((s & 0x10 == 0) == (s / 0x10 % 2 == 0)) by (bit_vector);
    assert(x / 0x1_0000 / 0x10 == x / 0x10_0000);
    let bare = pci::bare_device(i, f);
    let p = w[13] as int % 256;
    assert(p % 4 == w[13] as int % 4);
    lemma_walk(bare, w, p - p % 4, 48, kind, j);
}

/// The VirtIO devices among the functions are listed, in order, and each once;
/// all of them, while there are no more than four.
#[verifier::rlimit(40)]
pub proof fn law_devices_are_listed(bus: &Bus, t: &PciTable)
    requires
        bus.wf(),
        pci::scanned(bus, t),
    ensures
        t.devs@.len() <= 4,
        forall|k: int|
            0 <= k < t.devs@.len() ==> {
                let v = #[trigger] t.devs@[k];
                let f = t.funcs@[v.pci_index as int];
                &&& v.pci_index < t.funcs@.len()
                &&& f.vendor_id == 0x1AF4
                &&& v == pci::device_of(
                    v.pci_index as int,
                    f,
                    space(bus, f.dev as int, f.func as int),
                )
            },
        forall|k: int, j: int|
            0 <= k < j < t.devs@.len() ==> (#[trigger] t.devs@[k]).pci_index
                < (#[trigger] t.devs@[j]).pci_index,
        forall|i: int|
            0 <= i < t.funcs@.len() && (#[trigger] t.funcs@[i]).vendor_id == 0x1AF4 && t.devs@.len()
                < 4 ==> exists|k: int|
                0 <= k < t.devs@.len() && (#[trigger] t.devs@[k]).pci_index == i,
{
    lemma_among(bus, t, t.funcs@.len() as int);
}

proof fn lemma_among(bus: &Bus, t: &PciTable, n: int)
    requires
        bus.wf(),
        pci::scanned(bus, t),
        0 <= n <= t.funcs@.len(),
    ensures
        ({
            let s = pci::virtio_among(bus, t.funcs@, n);
            &&& forall|k: int|
                0 <= k < s.len() ==> {
                    let v = #[trigger] s[k];
                    let f = t.funcs@[v.pci_index as int];
                    &&& v.pci_index < n
                    &&& f.vendor_id == 0x1AF4
                    &&& v == pci::device_of(
                        v.pci_index as int,
                        f,
                        space(bus, f.dev as int, f.func as int),
                    )
                }
            &&& forall|k: int, j: int|
                0 <= k < j < s.len() ==> (#[trigger] s[k]).pci_index < (#[trigger] s[j]).pci_index
            &&& forall|i: int|
                0 <= i < n && (#[trigger] t.funcs@[i]).vendor_id == 0x1AF4 ==> exists|k: int|
                    0 <= k < s.len() && (#[trigger] s[k]).pci_index == i
        }),
    decreases n,
{
    if n > 0 {
        lemma_among(bus, t, n - 1);
        let a = pci::virtio_among(bus, t.funcs@, n - 1);
        let s = pci::virtio_among(bus, t.funcs@, n);
        let h = pci::held(bus, 256);
        let f = t.funcs@[n - 1];
        lemma_held(bus, 256);
        assert(pci::function_is(f, bus.slots@[h[n - 1]], h[n - 1]));
        assert(8 * f.dev + f.func == h[n - 1]);
        let v = pci::device_of(n - 1, f, space(bus, f.dev as int, f.func as int));
        law_device_says(n - 1, f, space(bus, f.dev as int, f.func as int), 0, 0);
        if f.vendor_id == 0x1AF4 {
            assert(s == a.push(v));
            assert(s.last().pci_index == n - 1);
        }
        assert forall|i: int|
            0 <= i < n && (#[trigger] t.funcs@[i]).vendor_id == 0x1AF4 implies exists|k: int|
            0 <= k < s.len() && (#[trigger] s[k]).pci_index == i by {
            if i < n - 1 {
                let k = choose|k: int| 0 <= k < a.len() && (#[trigger] a[k]).pci_index == i;
                assert(s[k] == a[k]);
            } else {
                assert(s[s.len() - 1].pci_index == i);
            }
        }
    }
}

/// A configuration address has the enabling bit, the bus, the device, the
/// function and the word, each in its own bits.
#[verifier::rlimit(40)]
pub proof fn law_address_has_its_parts(bus: u8, dev: u8, func: u8, reg: u8)
    requires
        dev < 32,
        func < 8,
    ensures
        pci::address_of(bus, dev, func, reg) == 0x8000_0000 + bus * 0x1_0000 + dev * 0x800 + func
            * 0x100 + (reg - reg % 4),
{
    assert((0x8000_0000u32 | (bus as u32) << 16 | (dev as u32) << 11 | (func as u32) << 8 | (reg
        & 0xFC) as u32) == 0x8000_0000 + bus * 0x1_0000 + dev * 0x800 + func * 0x100 + (reg - reg
        % 4)) by (bit_vector)
        requires
            dev < 32,
            func < 8,
    ;
}

/// The device that is found for a type has it, and none before it has.
#[verifier::rlimit(40)]
pub proof fn law_first_device_of_a_type(devs: Seq<VirtioDevice>, kind: u16, i: int)
    requires
        0 <= i <= devs.len(),
    ensures
        match pci::first_of(devs, kind, i) {
            Some(v) => exists|k: int|
                i <= k < devs.len() && #[trigger] devs[k] == v && v.virtio_type == kind && forall|
                    j: int,
                |
                    i <= j < k ==> (#[trigger] devs[j]).virtio_type != kind,
            None => forall|k: int|
                i <= k < devs.len() ==> (#[trigger] devs[k]).virtio_type != kind,
        },
    decreases devs.len() - i,
{
    if i < devs.len() {
        law_first_device_of_a_type(devs, kind, i + 1);
        if devs[i].virtio_type == kind {
            assert(devs[i] == pci::first_of(devs, kind, i)->0);
        }
    }
}

/// The low half of word 1, which is the command register.
pub open spec fn command(w: Seq<u32>) -> int {
    w[1] as int % 0x1_0000
}

/// A command that lets a device decode its windows (bit 1) and reach memory
/// (bit 2).
pub open spec fn enabled(c: int) -> bool {
    c / 2 % 2 == 1 && c / 4 % 2 == 1
}

/// The write sets the two bits in the command of function `f` and changes no
/// other.
pub open spec fn enables(x: CommandWrite, f: PciFunction, w: Seq<u32>) -> bool {
    let c = command(w);
    &&& x.dev == f.dev
    &&& x.func == f.func
    &&& x.value == c + (if c / 2 % 2 == 0 {
        2int
    } else {
        0
    }) + (if c / 4 % 2 == 0 {
        4int
    } else {
        0
    })
}

proof fn lemma_command(f: PciFunction, w: Seq<u32>)
    ensures
        match pci::command_write(f, w) {
            Some(x) => !enabled(command(w)) && enables(x, f, w),
            None => enabled(command(w)),
        },
{
    let c = pci::half_at(w, 4);
    assert(c == command(w));
    assert((c | 2 | 4) == c + (if c / 2 % 2 == 0 {
        2int
    } else {
        0
    }) + (if c / 4 % 2 == 0 {
        4int
    } else {
        0
    })) by (bit_vector);
}

/// Each VirtIO function that is kept and not yet enabled gets the write that
/// enables it, and nothing else is written.
#[verifier::rlimit(40)]
pub proof fn law_writes_enable_devices(bus: &Bus, t: &PciTable, n: int)
    requires
        bus.wf(),
        pci::scanned(bus, t),
        0 <= n <= t.funcs@.len(),
    ensures
        ({
            let r = pci::writes_among(bus, t.funcs@, n);
            &&& forall|k: int|
                0 <= k < r.len() ==> exists|i: int|
                    0 <= i < n && (#[trigger] t.funcs@[i]).vendor_id == 0x1AF4 && !enabled(
                        command(space(bus, t.funcs@[i].dev as int, t.funcs@[i].func as int)),
                    ) && enables(
                        #[trigger] r[k],
                        t.funcs@[i],
                        space(bus, t.funcs@[i].dev as int, t.funcs@[i].func as int),
                    )
            &&& forall|i: int|
                0 <= i < n && (#[trigger] t.funcs@[i]).vendor_id == 0x1AF4 && !enabled(
                    command(space(bus, t.funcs@[i].dev as int, t.funcs@[i].func as int)),
                ) ==> exists|k: int|
                    0 <= k < r.len() && enables(
                        #[trigger] r[k],
                        t.funcs@[i],
                        space(bus, t.funcs@[i].dev as int, t.funcs@[i].func as int),
                    )
            &&& r.len() <= n
        }),
    decreases n,
{
    if n > 0 {
        law_writes_enable_devices(bus, t, n - 1);
        let a = pci::writes_among(bus, t.funcs@, n - 1);
        let r = pci::writes_among(bus, t.funcs@, n);
        let h = pci::held(bus, 256);
        let f = t.funcs@[n - 1];
        lemma_held(bus, 256);
        assert(pci::function_is(f, bus.slots@[h[n - 1]], h[n - 1]));
        assert(8 * f.dev + f.func == h[n - 1]);
        let w = space(bus, f.dev as int, f.func as int);
        lemma_command(f, w);
        assert forall|k: int| 0 <= k < r.len() implies exists|i: int|
            0 <= i < n && (#[trigger] t.funcs@[i]).vendor_id == 0x1AF4 && !enabled(
                command(space(bus, t.funcs@[i].dev as int, t.funcs@[i].func as int)),
            ) && enables(
                #[trigger] r[k],
                t.funcs@[i],
                space(bus, t.funcs@[i].dev as int, t.funcs@[i].func as int),
            ) by {
            if k < a.len() {
                assert(r[k] == a[k]);
            } else {
                assert(enables(r[k], t.funcs@[n - 1], w));
            }
        }
        assert forall|i: int|
            0 <= i < n && (#[trigger] t.funcs@[i]).vendor_id == 0x1AF4 && !enabled(
                command(space(bus, t.funcs@[i].dev as int, t.funcs@[i].func as int)),
            ) implies exists|k: int|
            0 <= k < r.len() && enables(
                #[trigger] r[k],
                t.funcs@[i],
                space(bus, t.funcs@[i].dev as int, t.funcs@[i].func as int),
            ) by {
            if i < n - 1 {
                let k = choose|k: int|
                    0 <= k < a.len() && enables(
                        #[trigger] a[k],
                        t.funcs@[i],
                        space(bus, t.funcs@[i].dev as int, t.funcs@[i].func as int),
                    );
                assert(r[k] == a[k]);
            } else {
                assert(enables(r[r.len() - 1], t.funcs@[i], w));
            }
        }
    }
}

/// Each address register is sized that the walk comes to and that is not
/// empty, and so is the one behind each wide one.
pub proof fn law_registers_to_size(w: Seq<u32>, b: int)
    requires
        0 <= b <= 6,
    ensures
        pci::sized_bar(w, b) <==> b < 6 && reached(w, b) && w[4 + b] != 0 || b > 0 && reached(
            w,
            b - 1,
        ) && wide(w[3 + b]),
{
    lemma_reached(w, b);
    if b > 0 {
        lemma_reached(w, b - 1);
        let x = w[3 + b];
        assert(x % 8 == x % 2 + 2 * (x as int / 2 % 4));
    }
}

} // verus!

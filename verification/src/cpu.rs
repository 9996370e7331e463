//! What the processor says of itself.

use vstd::prelude::*;
use vstd::string::*;
use crate::bytes;
use crate::log;

verus! {

/// The four registers that an identification query fills.
#[derive(Clone, Copy, Debug, PartialEq, Eq, Structural)]
pub struct CpuidResult {
    pub eax: u32,
    pub ebx: u32,
    pub ecx: u32,
    pub edx: u32,
}

/// The answers to the queries that identify the processor: leaves 0 and 1,
/// and from the extended range leaves 0, 1 and 8.
#[derive(Clone, Copy, Debug, PartialEq, Eq, Structural)]
pub struct CpuLeaves {
    pub vendor: CpuidResult,
    pub features: CpuidResult,
    pub ext_range: CpuidResult,
    pub ext_features: CpuidResult,
    pub ext_sizes: CpuidResult,
}

/// The processor's identity.
pub struct CpuInfo {
    pub vendor: [u8; 12],
    pub family: u32,
    pub model: u32,
    pub stepping: u32,
    pub has_sse2: bool,
    pub has_nx: bool,
    pub has_long_mode: bool,
    pub phys_addr_bits: u32,
}

/// The family and model as they are shown: an extended family counts only
/// behind base family 15, an extended model only from base family 6 on.
pub open spec fn shown_family(eax: u32) -> int {
    let base = eax as int / 0x100 % 16;
    if base == 15 {
        base + eax as int / 0x10_0000 % 256
    } else {
        base
    }
}

pub open spec fn shown_model(eax: u32) -> int {
    let base = eax as int / 16 % 16;
    if eax as int / 0x100 % 16 >= 6 {
        eax as int / 0x1_0000 % 16 * 16 + base
    } else {
        base
    }
}

/// Bit `n` of `x`.
pub open spec fn bit(x: u32, n: u32) -> bool {
    x & (1u32 << n) != 0
}

/// What [`cpu_info`] answers and does.
pub open spec fn identified(
    l: &CpuLeaves,
    r: CpuInfo,
) -> bool {
    &&& r.vendor@ == bytes::le_bytes(l.vendor.ebx as int, 4) + bytes::le_bytes(
        l.vendor.edx as int,
        4,
    ) + bytes::le_bytes(l.vendor.ecx as int, 4)
    &&& r.stepping == l.features.eax % 16
    &&& r.family == shown_family(l.features.eax)
    &&& r.model == shown_model(l.features.eax)
    &&& r.has_sse2 == bit(l.features.edx, 26)
    &&& r.has_nx == (l.ext_range.eax >= 0x8000_0001 && bit(l.ext_features.edx, 20))
    &&& r.has_long_mode == (l.ext_range.eax >= 0x8000_0001 && bit(l.ext_features.edx, 29))
    &&& r.phys_addr_bits == (if l.ext_range.eax >= 0x8000_0008 {
        (l.ext_sizes.eax % 256) as int
    } else {
        0
    })
}

/// Put the identity together.  Extended answers count only as far as the
/// extended range goes.
pub fn cpu_info(l: &CpuLeaves) -> (r: CpuInfo)
    ensures
        identified(l, r),
{
    let v: CpuidResult = l.vendor;
    let vendor: [u8; 12] = [
        bytes::byte_of(v.ebx as u64, 0),
        bytes::byte_of(v.ebx as u64, 1),
        bytes::byte_of(v.ebx as u64, 2),
        bytes::byte_of(v.ebx as u64, 3),
        bytes::byte_of(v.edx as u64, 0),
        bytes::byte_of(v.edx as u64, 1),
        bytes::byte_of(v.edx as u64, 2),
        bytes::byte_of(v.edx as u64, 3),
        bytes::byte_of(v.ecx as u64, 0),
        bytes::byte_of(v.ecx as u64, 1),
        bytes::byte_of(v.ecx as u64, 2),
        bytes::byte_of(v.ecx as u64, 3),
    ];
    assert(vendor@ =~= bytes::le_bytes(v.ebx as int, 4) + bytes::le_bytes(v.edx as int, 4)
        + bytes::le_bytes(v.ecx as int, 4));
    let eax: u32 = l.features.eax;
    let stepping: u32 = eax % 16;
    let base_model: u32 = eax / 16 % 16;
    let base_family: u32 = eax / 0x100 % 16;
    let ext_model: u32 = eax / 0x1_0000 % 16;
    let ext_family: u32 = eax / 0x10_0000 % 256;
    let family: u32 = if base_family == 15 {
        base_family + ext_family
    } else {
        base_family
    };
    let model: u32 = if base_family >= 6 {
        ext_model * 16 + base_model
    } else {
        base_model
    };
    let has_sse2: bool = l.features.edx & (1u32 << 26) != 0;
    let ext_max: u32 = l.ext_range.eax;
    let has_nx: bool = ext_max >= 0x8000_0001 && l.ext_features.edx & (1u32 << 20) != 0;
    let has_long_mode: bool = ext_max >= 0x8000_0001 && l.ext_features.edx & (1u32 << 29) != 0;
    let phys_addr_bits: u32 = if ext_max >= 0x8000_0008 {
        l.ext_sizes.eax % 256
    } else {
        0
    };
    CpuInfo { vendor, family, model, stepping, has_sse2, has_nx, has_long_mode, phys_addr_bits }
}

pub open spec fn yes_no(b: bool) -> Seq<char> {
    if b {
        "true"@
    } else {
        "false"@
    }
}

fn append_bool(s: &mut String, b: bool)
    ensures
        final(s)@ == old(s)@ + yes_no(b),
{
    if b {
        s.append("true");
    } else {
        s.append("false");
    }
}

/// The line that describes a processor, with its vendor as text.
pub open spec fn description(vendor: Seq<char>, c: &CpuInfo) -> Seq<char> {
    "vendor="@ + vendor + " family="@ + log::decimal(c.family as nat) + " model="@ + log::decimal(
        c.model as nat,
    ) + " stepping="@ + log::decimal(c.stepping as nat) + " physaddr="@ + log::decimal(
        c.phys_addr_bits as nat,
    ) + "bit sse2="@ + yes_no(c.has_sse2) + " nx="@ + yes_no(c.has_nx) + " longmode="@ + yes_no(
        c.has_long_mode,
    )
}

/// Describe a processor.  `vendor` is the text of its vendor bytes, `???` if
/// they are no text.
pub fn describe(vendor: &str, c: &CpuInfo) -> (r: String)
    ensures
        r@ == description(vendor@, c),
{
    let mut s: String = String::from_str("vendor=");
    s.append(vendor);
    s.append(" family=");
    log::append_decimal(&mut s, c.family as u64);
    s.append(" model=");
    log::append_decimal(&mut s, c.model as u64);
    s.append(" stepping=");
    log::append_decimal(&mut s, c.stepping as u64);
    s.append(" physaddr=");
    log::append_decimal(&mut s, c.phys_addr_bits as u64);
    s.append("bit sse2=");
    append_bool(&mut s, c.has_sse2);
    s.append(" nx=");
    append_bool(&mut s, c.has_nx);
    s.append(" longmode=");
    append_bool(&mut s, c.has_long_mode);
    s
}

} // verus!

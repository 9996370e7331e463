//! The PE image of the kernel: its sections and its base relocations.

use vstd::prelude::*;
use crate::bits;
use crate::bytes;

verus! {

/// How many section headers are looked at.
pub const MAX_SECTIONS: usize = 12;

/// What a page of the image may be used for.
#[derive(Clone, Copy, Debug, PartialEq, Eq, Structural)]
pub enum Perm {
    /// Read and execute.
    Rx,
    /// Read only.
    Ro,
    /// Read and write.
    Rw,
    /// Everything, as the firmware expects of its own memory.
    FwCompat,
}

/// The pages of a section, and what they may be used for.
#[derive(Clone, Copy, Debug, PartialEq, Eq, Structural)]
pub struct Section {
    pub start: u64,
    pub end: u64,
    pub perm: Perm,
}

pub open spec fn u16_at(b: Seq<u8>, off: int) -> Option<int> {
    if off + 2 <= b.len() {
        Some(bytes::le16_at(b, off))
    } else {
        None
    }
}

pub open spec fn u32_at(b: Seq<u8>, off: int) -> Option<int> {
    if off + 4 <= b.len() {
        Some(bytes::le32_at(b, off))
    } else {
        None
    }
}

/// Where the COFF header of the image begins, if the image is a PE file for
/// this machine.
pub open spec fn coff_of(b: Seq<u8>) -> Result<int, &'static str> {
    if u16_at(b, 0) is None {
        Err("truncated image: no DOS header")
    } else if u16_at(b, 0) != Some(0x5A4Dint) {
        Err("image base does not start with MZ")
    } else if u32_at(b, 0x3C) is None {
        Err("truncated DOS header")
    } else {
        let pe = bytes::le32_at(b, 0x3C);
        if u32_at(b, pe) is None {
            Err("truncated PE header")
        } else if u32_at(b, pe) != Some(0x4550int) {
            Err("missing PE signature")
        } else if u16_at(b, pe + 4) is None {
            Err("truncated COFF header")
        } else if u16_at(b, pe + 4) != Some(0x8664int) {
            Err("not an x86-64 PE image")
        } else {
            Ok(pe + 4)
        }
    }
}

/// The eight bytes of a section name, padded with zeros.
pub open spec fn name_is(b: Seq<u8>, off: int, name: Seq<u8>) -> bool {
    b.subrange(off, off + 8) =~= name
}

pub open spec fn text_name() -> Seq<u8> {
    seq![0x2Eu8, 0x74, 0x65, 0x78, 0x74, 0, 0, 0]
}

pub open spec fn rdata_name() -> Seq<u8> {
    seq![0x2Eu8, 0x72, 0x64, 0x61, 0x74, 0x61, 0, 0]
}

/// The section whose header stands at `sh`, loaded at `base`.
pub open spec fn section_at(b: Seq<u8>, base: int, sh: int) -> Section {
    let start = base + bytes::le32_at(b, sh + 12);
    let end = start + bytes::le32_at(b, sh + 8);
    Section {
        start: (start / 4096 * 4096) as u64,
        end: (bits::ceil_div(end, 4096) * 4096) as u64,
        perm: if name_is(b, sh, text_name()) {
            Perm::Rx
        } else if name_is(b, sh, rdata_name()) {
            Perm::Ro
        } else {
            Perm::Rw
        },
    }
}

/// The sections with a size among headers `i` to `n`, up to the first header
/// that does not lie in the image.
pub open spec fn sections_from(b: Seq<u8>, base: int, table: int, i: int, n: int) -> Seq<Section>
    decreases n - i,
{
    if i >= n || table + i * 40 + 40 > b.len() {
        Seq::empty()
    } else if bytes::le32_at(b, table + i * 40 + 8) == 0 {
        sections_from(b, base, table, i + 1, n)
    } else {
        seq![section_at(b, base, table + i * 40)] + sections_from(b, base, table, i + 1, n)
    }
}

/// The sections of the image, loaded at `base`.
pub open spec fn sections_of(b: Seq<u8>, base: int) -> Result<Seq<Section>, &'static str> {
    match coff_of(b) {
        Err(e) => Err(e),
        Ok(coff) => if u16_at(b, coff + 2) is None || u16_at(b, coff + 16) is None {
            Err("truncated COFF header")
        } else {
            let count = bytes::le16_at(b, coff + 2);
            let table = coff + 20 + bytes::le16_at(b, coff + 16);
            let s = sections_from(
                b,
                base,
                table,
                0,
                if count <= MAX_SECTIONS {
                    count
                } else {
                    MAX_SECTIONS as int
                },
            );
            if s.len() == 0 {
                Err("PE image reported no usable sections")
            } else {
                Ok(s)
            }
        },
    }
}

fn read_u16(b: &[u8], off: u64) -> (r: Option<u16>)
    ensures
        (match r {
            Some(x) => Some(x as int),
            None => None,
        }) == u16_at(b@, off as int),
{
    if off <= b.len() as u64 && b.len() as u64 - off >= 2 {
        Some(bytes::le16(b, off as usize))
    } else {
        None
    }
}

fn read_u32(b: &[u8], off: u64) -> (r: Option<u32>)
    ensures
        (match r {
            Some(x) => Some(x as int),
            None => None,
        }) == u32_at(b@, off as int),
{
    if off <= b.len() as u64 && b.len() as u64 - off >= 4 {
        Some(bytes::le32(b, off as usize))
    } else {
        None
    }
}

/// Check the headers of the image and find its COFF header.
fn find_coff(b: &[u8]) -> (r: Result<u64, &'static str>)
    ensures
        (match r {
            Ok(x) => Ok(x as int),
            Err(e) => Err(e),
        }) == coff_of(b@),
        r matches Ok(x) ==> x <= 0x1_0000_0004,
{
    match read_u16(b, 0) {
        None => {
            return Err("truncated image: no DOS header");
        },
        Some(mz) => {
            if mz != 0x5A4D {
                return Err("image base does not start with MZ");
            }
        },
    }
    let pe: u64 = match read_u32(b, 0x3C) {
        None => {
            return Err("truncated DOS header");
        },
        Some(x) => x as u64,
    };
    match read_u32(b, pe) {
        None => {
            return Err("truncated PE header");
        },
        Some(sig) => {
            if sig != 0x4550 {
                return Err("missing PE signature");
            }
        },
    }
    match read_u16(b, pe + 4) {
        None => Err("truncated COFF header"),
        Some(machine) => if machine != 0x8664 {
            Err("not an x86-64 PE image")
        } else {
            Ok(pe + 4)
        },
    }
}

/// Whether the eight bytes at `off` are `name`.
fn name_matches(b: &[u8], off: usize, name: &[u8; 8]) -> (r: bool)
    requires
        off + 8 <= b@.len(),
    ensures
        r == name_is(b@, off as int, name@),
{
    let n: usize = b.len();
    let mut k: usize = 0;
    while k < 8
        invariant
            k <= 8,
            n == b@.len(),
            off + 8 <= n,
            forall|j: int| 0 <= j < k ==> b@[off + j] == name@[j],
        decreases 8 - k,
    {
        if b[off + k] != name[k] {
            assert(b@.subrange(off as int, off + 8)[k as int] != name@[k as int]);
            return false;
        }
        k = k + 1;
    }
    assert(b@.subrange(off as int, off + 8) =~= name@);
    true
}

/// What [`parse_pe_sections`] answers and does.
pub open spec fn sections_parsed(
    image: &[u8],
    img_base: u64,
    r: Result<Vec<Section>, &'static str>,
) -> bool {
    &&& (match r {
        Ok(v) => Ok(v@),
        Err(e) => Err(e),
    }) == sections_of(image@, img_base as int)
    &&& r matches Ok(v) ==> 0 < v@.len() <= MAX_SECTIONS
}

/// The sections of an image that is loaded at `img_base`.
pub fn parse_pe_sections(image: &[u8], img_base: u64) -> (r: Result<Vec<Section>, &'static str>)
    requires
        img_base <= 0x7FFF_FFFF_FFFF_FFFF,
    ensures
        sections_parsed(image, img_base, r),
{
    let coff: u64 = match find_coff(image) {
        Ok(x) => x,
        Err(e) => {
            return Err(e);
        },
    };
    let count: u16 = match read_u16(image, coff + 2) {
        None => {
            return Err("truncated COFF header");
        },
        Some(x) => x,
    };
    let opt: u16 = match read_u16(image, coff + 16) {
        None => {
            return Err("truncated COFF header");
        },
        Some(x) => x,
    };
    let table: u64 = coff + 20 + opt as u64;
    let n: usize = if count as usize <= MAX_SECTIONS {
        count as usize
    } else {
        MAX_SECTIONS
    };
    let mut out: Vec<Section> = Vec::new();
    let mut i: usize = 0;
    let ghost whole = sections_from(image@, img_base as int, table as int, 0, n as int);
    while i < n
        invariant_except_break
            i <= n,
            out@ + sections_from(image@, img_base as int, table as int, i as int, n as int)
                =~= whole,
        invariant
            n <= MAX_SECTIONS,
            out@.len() <= i,
            i <= n,
            table <= 0x2_0000_0000,
            img_base <= 0x7FFF_FFFF_FFFF_FFFF,
        ensures
            out@ =~= whole,
        decreases n - i,
    {
        let sh: u64 = table + i as u64 * 40;
        if sh + 40 > image.len() as u64 {
            break;
        }
        let at: usize = sh as usize;
        let vsize: u64 = bytes::le32(image, at + 8) as u64;
        let rva: u64 = bytes::le32(image, at + 12) as u64;
        if vsize != 0 {
            let start: u64 = img_base + rva;
            let end: u64 = start + vsize;
            let text: [u8; 8] = [0x2E, 0x74, 0x65, 0x78, 0x74, 0, 0, 0];
            let rdata: [u8; 8] = [0x2E, 0x72, 0x64, 0x61, 0x74, 0x61, 0, 0];
            proof {
                assert(text@ =~= text_name());
                assert(rdata@ =~= rdata_name());
                bits::lemma_ceil_div(end as int, 4096);
            }
            let perm = if name_matches(image, at, &text) {
                Perm::Rx
            } else if name_matches(image, at, &rdata) {
                Perm::Ro
            } else {
                Perm::Rw
            };
            let ghost before = out@;
            out.push(
                Section { start: start / 4096 * 4096, end: bits::div_ceil(end, 4096) * 4096, perm },
            );
            proof {
                let rest = sections_from(
                    image@,
                    img_base as int,
                    table as int,
                    i + 1,
                    n as int,
                );
                let s = section_at(image@, img_base as int, sh as int);
                assert(out@ == before.push(s));
                assert(before + (seq![s] + rest) =~= before.push(s) + rest);
            }
        }
        i = i + 1;
    }
    if out.len() == 0 {
        return Err("PE image reported no usable sections");
    }
    Ok(out)
}

/// What the page at `phys` may be used for: the permission of the first
/// section that covers it, else read and write.
pub open spec fn perm_at(sections: Seq<Section>, phys: int) -> Perm
    decreases sections.len(),
{
    if sections.len() == 0 {
        Perm::Rw
    } else if sections[0].start <= phys < sections[0].end {
        sections[0].perm
    } else {
        perm_at(sections.drop_first(), phys)
    }
}

/// What the page at `phys` may be used for.
pub fn section_perm(phys: u64, sections: &Vec<Section>) -> (r: Perm)
    ensures
        r == perm_at(sections@, phys as int),
{
    let mut i: usize = 0;
    assert(sections@.subrange(0, sections@.len() as int) =~= sections@);
    while i < sections.len()
        invariant
            i <= sections@.len(),
            perm_at(sections@, phys as int) == perm_at(
                sections@.subrange(i as int, sections@.len() as int),
                phys as int,
            ),
        decreases sections@.len() - i,
    {
        let s = sections[i];
        proof {
            let rest = sections@.subrange(i as int, sections@.len() as int);
            assert(rest[0] == s);
            assert(rest.drop_first() =~= sections@.subrange(i + 1, sections@.len() as int));
        }
        if phys >= s.start && phys < s.end {
            return s.perm;
        }
        i = i + 1;
    }
    Perm::Rw
}

/// The outcome of a relocation run: the image after it, and either the number
/// of slots patched and of entries of other kinds, or the error it stopped at.
pub struct Relocated {
    pub image: Seq<u8>,
    pub res: Result<(int, int), &'static str>,
}

/// Apply the entries `i` to `m` of a relocation block.
pub open spec fn reloc_entries(
    image: Seq<u8>,
    first: int,
    page: int,
    i: int,
    m: int,
    delta: int,
    patched: int,
    other: int,
) -> Relocated
    decreases m - i,
{
    if i >= m {
        Relocated { image, res: Ok((patched, other)) }
    } else if u16_at(image, first + i * 2) is None {
        Relocated { image, res: Err("truncated reloc entry") }
    } else {
        let ent = bytes::le16_at(image, first + i * 2);
        let slot = page + ent % 4096;
        if ent / 4096 == 0 {
            reloc_entries(image, first, page, i + 1, m, delta, patched, other)
        } else if ent / 4096 == 10 {
            if slot + 8 > image.len() {
                Relocated { image, res: Err("relocation slot outside the image") }
            } else {
                reloc_entries(
                    bytes::put_le64(
                        image,
                        slot,
                        (bytes::le64_at(image, slot) + delta) % 0x1_0000_0000_0000_0000,
                    ),
                    first,
                    page,
                    i + 1,
                    m,
                    delta,
                    patched + 1,
                    other,
                )
            }
        } else {
            reloc_entries(image, first, page, i + 1, m, delta, patched, other + 1)
        }
    }
}

/// Apply the relocation blocks from offset `off` of the table at `rva`.
pub open spec fn reloc_blocks(
    image: Seq<u8>,
    rva: int,
    size: int,
    off: int,
    delta: int,
    patched: int,
    other: int,
) -> Relocated
    decreases size - off,
{
    if off + 8 > size {
        Relocated { image, res: Ok((patched, other)) }
    } else if u32_at(image, rva + off) is None || u32_at(image, rva + off + 4) is None {
        Relocated { image, res: Err("truncated reloc block") }
    } else {
        let page = bytes::le32_at(image, rva + off);
        let block = bytes::le32_at(image, rva + off + 4);
        if block < 8 || block % 2 != 0 || off + block > size {
            Relocated { image, res: Err("malformed relocation block") }
        } else {
            let step = reloc_entries(
                image,
                rva + off + 8,
                page,
                0,
                (block - 8) / 2,
                delta,
                patched,
                other,
            );
            match step.res {
                Err(e) => step,
                Ok((p, o)) => reloc_blocks(step.image, rva, size, off + block, delta, p, o),
            }
        }
    }
}

/// Where the relocation table lies and how long it is.
pub open spec fn reloc_table(b: Seq<u8>) -> Result<(int, int), &'static str> {
    match coff_of(b) {
        Err(e) => Err(e),
        Ok(coff) => if u16_at(b, coff + 20) is None {
            Err("truncated optional header")
        } else if u16_at(b, coff + 20) != Some(0x20Bint) {
            Err("not a PE32+ optional header")
        } else if u32_at(b, coff + 172) is None || u32_at(b, coff + 176) is None {
            Err("truncated data directory")
        } else {
            let rva = bytes::le32_at(b, coff + 172);
            let size = bytes::le32_at(b, coff + 176);
            if rva == 0 || size == 0 {
                Err("PE carries no base relocation table")
            } else if rva + size > b.len() {
                Err("base relocation table lies outside the image")
            } else {
                Ok((rva, size))
            }
        },
    }
}

/// Relocating the image `b` by `delta`.
pub open spec fn relocated(b: Seq<u8>, delta: int) -> Relocated {
    match reloc_table(b) {
        Err(e) => Relocated { image: b, res: Err(e) },
        Ok((rva, size)) => reloc_blocks(b, rva, size, 0, delta, 0, 0),
    }
}

pub open spec fn word() -> int {
    0x1_0000_0000_0000_0000
}

/// The image with `delta` added to the 64-bit integer at `slot`.
pub open spec fn shift_at(b: Seq<u8>, slot: int, delta: int) -> Seq<u8> {
    bytes::put_le64(b, slot, (bytes::le64_at(b, slot) + delta) % word())
}

/// The image with `delta` added at each of `slots`.
pub open spec fn shifted(b: Seq<u8>, slots: Seq<int>, delta: int) -> Seq<u8>
    decreases slots.len(),
{
    if slots.len() == 0 {
        b
    } else {
        shifted(shift_at(b, slots[0], delta), slots.drop_first(), delta)
    }
}

/// The slots that the 64-bit entries among the entries `i` to `m` of a block
/// name.
pub open spec fn block_slots(b: Seq<u8>, first: int, page: int, i: int, m: int) -> Seq<int>
    decreases m - i,
{
    if i >= m {
        Seq::empty()
    } else {
        let ent = bytes::le16_at(b, first + i * 2);
        let rest = block_slots(b, first, page, i + 1, m);
        if ent / 4096 == 10 {
            seq![page + ent % 4096] + rest
        } else {
            rest
        }
    }
}

/// How many of the entries `i` to `m` of a block are neither padding nor
/// 64-bit.
pub open spec fn block_others(b: Seq<u8>, first: int, i: int, m: int) -> int
    decreases m - i,
{
    if i >= m {
        0
    } else {
        let kind = bytes::le16_at(b, first + i * 2) / 4096;
        block_others(b, first, i + 1, m) + (if kind != 0 && kind != 10 {
            1int
        } else {
            0int
        })
    }
}

/// Every block of the table from offset `off` on is well-formed.
pub open spec fn blocks_ok(b: Seq<u8>, rva: int, size: int, off: int) -> bool
    decreases size - off,
{
    off + 8 > size || ({
        let block = bytes::le32_at(b, rva + off + 4);
        block >= 8 && block % 2 == 0 && off + block <= size && blocks_ok(b, rva, size, off + block)
    })
}

/// The slots that the table's 64-bit entries from offset `off` on name.
pub open spec fn table_slots(b: Seq<u8>, rva: int, size: int, off: int) -> Seq<int>
    decreases size - off,
{
    let block = bytes::le32_at(b, rva + off + 4);
    if off + 8 > size || block < 8 || off + block > size {
        Seq::empty()
    } else {
        block_slots(b, rva + off + 8, bytes::le32_at(b, rva + off), 0, (block - 8) / 2)
            + table_slots(b, rva, size, off + block)
    }
}

/// How many of the table's entries from offset `off` on are neither padding
/// nor 64-bit.
pub open spec fn table_others(b: Seq<u8>, rva: int, size: int, off: int) -> int
    decreases size - off,
{
    let block = bytes::le32_at(b, rva + off + 4);
    if off + 8 > size || block < 8 || off + block > size {
        0
    } else {
        block_others(b, rva + off + 8, 0, (block - 8) / 2) + table_others(
            b,
            rva,
            size,
            off + block,
        )
    }
}

/// The slots that the image's relocation table names.
pub open spec fn slots_of(b: Seq<u8>) -> Seq<int> {
    table_slots(b, reloc_table(b)->Ok_0.0, reloc_table(b)->Ok_0.1, 0)
}

/// The entries of the image's relocation table that are passed over.
pub open spec fn others_of(b: Seq<u8>) -> int {
    table_others(b, reloc_table(b)->Ok_0.0, reloc_table(b)->Ok_0.1, 0)
}

/// Byte `k` is one that finding or walking the relocation table reads.
pub open spec fn is_read(b: Seq<u8>, k: int) -> bool {
    let pe = bytes::le32_at(b, 0x3C);
    let (rva, size) = reloc_table(b)->Ok_0;
    0 <= k < 2 || 0x3C <= k < 0x40 || pe <= k < pe + 6 || pe + 24 <= k < pe + 26 || pe + 176 <= k
        < pe + 184 || rva <= k < rva + size
}

/// The slot lies in the image, and on nothing that relocating reads.
pub open spec fn slot_ok(b: Seq<u8>, slot: int) -> bool {
    &&& 0 <= slot
    &&& slot + 8 <= b.len()
    &&& forall|k: int| slot <= k < slot + 8 ==> !#[trigger] is_read(b, k)
}

/// The image can be relocated: its table is well-formed, and names only slots
/// in the image that the table and the headers do not share.
pub open spec fn relocatable(b: Seq<u8>) -> bool {
    &&& reloc_table(b) is Ok
    &&& blocks_ok(b, reloc_table(b)->Ok_0.0, reloc_table(b)->Ok_0.1, 0)
    &&& all_ok(b, slots_of(b))
}

pub open spec fn all_ok(b: Seq<u8>, slots: Seq<int>) -> bool {
    forall|i: int| 0 <= i < slots.len() ==> slot_ok(b, #[trigger] slots[i])
}

/// No slot overlaps another in part.
pub open spec fn separate(slots: Seq<int>) -> bool {
    forall|i: int, j: int|
        0 <= i < slots.len() && 0 <= j < slots.len() ==> #[trigger] slots[i]
            == #[trigger] slots[j] || slots[i] + 8 <= slots[j] || slots[j] + 8 <= slots[i]
}

/// `x` has the length of `b`, and its bytes wherever relocating reads.
pub open spec fn reads_alike(b: Seq<u8>, x: Seq<u8>) -> bool {
    &&& x.len() == b.len()
    &&& forall|k: int| 0 <= k < b.len() && is_read(b, k) ==> #[trigger] x[k] == b[k]
}

proof fn lemma_shift_alike(b: Seq<u8>, x: Seq<u8>, slot: int, delta: int)
    requires
        reads_alike(b, x),
        slot_ok(b, slot),
    ensures
        reads_alike(b, shift_at(x, slot, delta)),
{
    let y = shift_at(x, slot, delta);
    assert forall|k: int| 0 <= k < b.len() && is_read(b, k) implies #[trigger] y[k] == b[k] by {
        assert(x[k] == b[k]);
    }
}

proof fn lemma_shifted_alike(b: Seq<u8>, x: Seq<u8>, slots: Seq<int>, delta: int)
    requires
        reads_alike(b, x),
        all_ok(b, slots),
    ensures
        reads_alike(b, shifted(x, slots, delta)),
    decreases slots.len(),
{
    if slots.len() > 0 {
        assert(slot_ok(b, slots[0]));
        lemma_shift_alike(b, x, slots[0], delta);
        let rest = slots.drop_first();
        assert forall|i: int| 0 <= i < rest.len() implies slot_ok(b, #[trigger] rest[i]) by {
            assert(rest[i] == slots[i + 1]);
        }
        lemma_shifted_alike(b, shift_at(x, slots[0], delta), rest, delta);
    }
}

proof fn lemma_shifted_concat(x: Seq<u8>, a: Seq<int>, c: Seq<int>, delta: int)
    ensures
        shifted(x, a + c, delta) == shifted(shifted(x, a, delta), c, delta),
    decreases a.len(),
{
    if a.len() == 0 {
        assert(a + c =~= c);
    } else {
        assert((a + c).drop_first() =~= a.drop_first() + c);
        assert((a + c)[0] == a[0]);
        lemma_shifted_concat(shift_at(x, a[0], delta), a.drop_first(), c, delta);
    }
}

proof fn lemma_all_ok_parts(b: Seq<u8>, a: Seq<int>, c: Seq<int>)
    requires
        all_ok(b, a + c),
    ensures
        all_ok(b, a),
        all_ok(b, c),
{
    assert forall|i: int| 0 <= i < a.len() implies slot_ok(b, #[trigger] a[i]) by {
        assert((a + c)[i] == a[i]);
    }
    assert forall|i: int| 0 <= i < c.len() implies slot_ok(b, #[trigger] c[i]) by {
        assert((a + c)[a.len() + i] == c[i]);
    }
}

/// What walking a block does to an image that reads like `b`.
proof fn lemma_entries(
    b: Seq<u8>,
    x: Seq<u8>,
    first: int,
    page: int,
    i: int,
    m: int,
    delta: int,
    patched: int,
    other: int,
)
    requires
        reads_alike(b, x),
        reloc_table(b) is Ok,
        0 <= i,
        reloc_table(b)->Ok_0.0 <= first,
        first + 2 * m <= reloc_table(b)->Ok_0.0 + reloc_table(b)->Ok_0.1,
        0 <= reloc_table(b)->Ok_0.0,
        all_ok(b, block_slots(b, first, page, i, m)),
    ensures
        reloc_entries(x, first, page, i, m, delta, patched, other) == (Relocated {
            image: shifted(x, block_slots(b, first, page, i, m), delta),
            res: Ok(
                (
                    patched + block_slots(b, first, page, i, m).len(),
                    other + block_others(b, first, i, m),
                ),
            ),
        }),
    decreases m - i,
{
    if i < m {
        let at = first + i * 2;
        assert(is_read(b, at) && is_read(b, at + 1));
        assert(x[at] == b[at] && x[at + 1] == b[at + 1]);
        let ent = bytes::le16_at(b, at);
        let rest = block_slots(b, first, page, i + 1, m);
        if ent / 4096 == 10 {
            let slot = page + ent % 4096;
            let all = seq![slot] + rest;
            assert(all[0] == slot);
            assert(all.drop_first() =~= rest);
            assert(slot_ok(b, slot));
            lemma_all_ok_parts(b, seq![slot], rest);
            lemma_shift_alike(b, x, slot, delta);
            lemma_entries(
                b,
                shift_at(x, slot, delta),
                first,
                page,
                i + 1,
                m,
                delta,
                patched + 1,
                other,
            );
        } else if ent / 4096 == 0 {
            lemma_entries(b, x, first, page, i + 1, m, delta, patched, other);
        } else {
            lemma_entries(b, x, first, page, i + 1, m, delta, patched, other + 1);
        }
    }
}

/// What walking the table does to an image that reads like `b`.
proof fn lemma_blocks(
    b: Seq<u8>,
    x: Seq<u8>,
    off: int,
    delta: int,
    patched: int,
    other: int,
)
    requires
        reads_alike(b, x),
        reloc_table(b) is Ok,
        0 <= off,
        blocks_ok(b, reloc_table(b)->Ok_0.0, reloc_table(b)->Ok_0.1, off),
        all_ok(b, table_slots(b, reloc_table(b)->Ok_0.0, reloc_table(b)->Ok_0.1, off)),
    ensures
        ({
            let (rva, size) = reloc_table(b)->Ok_0;
            reloc_blocks(x, rva, size, off, delta, patched, other) == (Relocated {
                image: shifted(x, table_slots(b, rva, size, off), delta),
                res: Ok(
                    (
                        patched + table_slots(b, rva, size, off).len(),
                        other + table_others(b, rva, size, off),
                    ),
                ),
            })
        }),
    decreases reloc_table(b)->Ok_0.1 - off,
{
    let (rva, size) = reloc_table(b)->Ok_0;
    if off + 8 <= size {
        let at = rva + off;
        assert(is_read(b, at) && is_read(b, at + 1) && is_read(b, at + 2) && is_read(b, at + 3));
        assert(is_read(b, at + 4) && is_read(b, at + 5) && is_read(b, at + 6) && is_read(
            b,
            at + 7,
        ));
        assert(x[at] == b[at] && x[at + 1] == b[at + 1] && x[at + 2] == b[at + 2] && x[at + 3]
            == b[at + 3]);
        assert(x[at + 4] == b[at + 4] && x[at + 5] == b[at + 5] && x[at + 6] == b[at + 6] && x[at
            + 7] == b[at + 7]);
        let page = bytes::le32_at(b, at);
        let block = bytes::le32_at(b, at + 4);
        let m = (block - 8) / 2;
        let here = block_slots(b, at + 8, page, 0, m);
        let rest = table_slots(b, rva, size, off + block);
        lemma_all_ok_parts(b, here, rest);
        lemma_entries(b, x, at + 8, page, 0, m, delta, patched, other);
        let y = shifted(x, here, delta);
        lemma_shifted_alike(b, x, here, delta);
        lemma_blocks(
            b,
            y,
            off + block,
            delta,
            patched + here.len(),
            other + block_others(b, at + 8, 0, m),
        );
        lemma_shifted_concat(x, here, rest, delta);
    }
}

proof fn lemma_table_alike(b: Seq<u8>, x: Seq<u8>)
    requires
        reads_alike(b, x),
        reloc_table(b) is Ok,
    ensures
        reloc_table(x) == reloc_table(b),
{
    let pe = bytes::le32_at(b, 0x3C);
    assert(pe >= 0);
    assert(is_read(b, 0) && is_read(b, 1));
    assert(x[0] == b[0] && x[1] == b[1]);
    assert(is_read(b, 0x3C) && is_read(b, 0x3D) && is_read(b, 0x3E) && is_read(b, 0x3F));
    assert(x[0x3C] == b[0x3C] && x[0x3D] == b[0x3D] && x[0x3E] == b[0x3E] && x[0x3F] == b[0x3F]);
    assert forall|k: int| (pe <= k < pe + 6 || pe + 24 <= k < pe + 26 || pe + 176 <= k < pe + 184)
        && k < b.len() implies #[trigger] x[k] == b[k] by {
        assert(is_read(b, k));
    }
}

/// Relocating, where it works at all: `delta` is added at each slot that the
/// table names and nowhere else, and the slots and the other entries are
/// counted.
pub proof fn law_relocation(b: Seq<u8>, delta: int)
    requires
        relocatable(b),
    ensures
        relocated(b, delta) == (Relocated {
            image: shifted(b, slots_of(b), delta),
            res: Ok((slots_of(b).len() as int, others_of(b))),
        }),
{
    lemma_blocks(b, b, 0, delta, 0, 0);
}

/// Only the slots change.
pub proof fn law_only_slots_change(b: Seq<u8>, slots: Seq<int>, delta: int, k: int)
    requires
        0 <= k < b.len(),
        forall|i: int| 0 <= i < slots.len() ==> !((#[trigger] slots[i]) <= k < slots[i] + 8),
    ensures
        shifted(b, slots, delta).len() == b.len(),
        shifted(b, slots, delta)[k] == b[k],
    decreases slots.len(),
{
    if slots.len() > 0 {
        let rest = slots.drop_first();
        assert(!(slots[0] <= k < slots[0] + 8));
        assert forall|i: int| 0 <= i < rest.len() implies !((#[trigger] rest[i]) <= k < rest[i]
            + 8) by {
            assert(rest[i] == slots[i + 1]);
        }
        law_only_slots_change(shift_at(b, slots[0], delta), rest, delta, k);
    }
}

proof fn lemma_le64_alike(b: Seq<u8>, x: Seq<u8>, at: int)
    requires
        0 <= at,
        forall|k: int| at <= k < at + 8 ==> #[trigger] x[k] == b[k],
    ensures
        bytes::le64_at(x, at) == bytes::le64_at(b, at),
{
    assert(x[at] == b[at] && x[at + 1] == b[at + 1] && x[at + 2] == b[at + 2] && x[at + 3] == b[at
        + 3] && x[at + 4] == b[at + 4] && x[at + 5] == b[at + 5] && x[at + 6] == b[at + 6] && x[at
        + 7] == b[at + 7]);
}

/// A slot that is named once, and that no other overlaps, moves by the delta.
pub proof fn law_slot_moves(b: Seq<u8>, slots: Seq<int>, delta: int, i: int)
    requires
        0 <= i < slots.len(),
        forall|j: int|
            0 <= j < slots.len() ==> 0 <= (#[trigger] slots[j]) && slots[j] + 8 <= b.len(),
        forall|j: int|
            0 <= j < slots.len() && j != i ==> (#[trigger] slots[j]) + 8 <= slots[i] || slots[i] + 8
                <= slots[j],
    ensures
        bytes::le64_at(shifted(b, slots, delta), slots[i]) == (bytes::le64_at(b, slots[i]) + delta)
            % word(),
    decreases slots.len(),
{
    let t = slots[i];
    let x = shift_at(b, slots[0], delta);
    let rest = slots.drop_first();
    assert forall|j: int| 0 <= j < rest.len() implies 0 <= (#[trigger] rest[j]) && rest[j] + 8
        <= b.len() && (j + 1 == i || rest[j] + 8 <= t || t + 8 <= rest[j]) by {
        assert(rest[j] == slots[j + 1]);
    }
    if i == 0 {
        let y = shifted(x, rest, delta);
        assert forall|k: int| t <= k < t + 8 implies #[trigger] y[k] == x[k] by {
            assert forall|j: int| 0 <= j < rest.len() implies !((#[trigger] rest[j]) <= k < rest[j]
                + 8) by {}
            law_only_slots_change(x, rest, delta, k);
        }
        lemma_le64_alike(x, y, t);
        bytes::law_le64_round_trip(b, t, ((bytes::le64_at(b, t) + delta) % word()) as u64);
    } else {
        assert(rest[i - 1] == t);
        assert(slots[0] + 8 <= t || t + 8 <= slots[0]);
        law_slot_moves(x, rest, delta, i - 1);
        lemma_le64_alike(b, x, t);
    }
}

/// Two slots that are the same or apart can be shifted in either order.
proof fn lemma_shift_swap(b: Seq<u8>, s: int, t: int, d: int, e: int)
    requires
        0 <= s,
        s + 8 <= b.len(),
        0 <= t,
        t + 8 <= b.len(),
        s == t || s + 8 <= t || t + 8 <= s,
    ensures
        shift_at(shift_at(b, s, d), t, e) == shift_at(shift_at(b, t, e), s, d),
{
    let n = bytes::le64_at(b, s);
    if s == t {
        let x = ((n + d) % word()) as u64;
        let y = ((n + e) % word()) as u64;
        bytes::law_le64_round_trip(b, s, x);
        bytes::law_le64_round_trip(b, s, y);
        assert(((n + d) % word() + e) % word() == (n + d + e) % word()) by {
            vstd::arithmetic::div_mod::lemma_add_mod_noop_right(e, n + d, word());
        }
        assert(((n + e) % word() + d) % word() == (n + d + e) % word()) by {
            vstd::arithmetic::div_mod::lemma_add_mod_noop_right(d, n + e, word());
        }
        assert(shift_at(shift_at(b, s, d), s, e) =~= shift_at(shift_at(b, s, e), s, d));
    } else {
        lemma_le64_alike(b, shift_at(b, s, d), t);
        lemma_le64_alike(b, shift_at(b, t, e), s);
        assert(shift_at(shift_at(b, s, d), t, e) =~= shift_at(shift_at(b, t, e), s, d));
    }
}

/// A shift can be taken before all others.
proof fn lemma_shift_first(b: Seq<u8>, slots: Seq<int>, t: int, d: int, e: int)
    requires
        0 <= t,
        t + 8 <= b.len(),
        forall|i: int|
            0 <= i < slots.len() ==> 0 <= (#[trigger] slots[i]) && slots[i] + 8 <= b.len() && (
            slots[i] == t || slots[i] + 8 <= t || t + 8 <= slots[i]),
    ensures
        shift_at(shifted(b, slots, d), t, e) == shifted(shift_at(b, t, e), slots, d),
    decreases slots.len(),
{
    if slots.len() > 0 {
        let s = slots[0];
        let rest = slots.drop_first();
        assert forall|i: int| 0 <= i < rest.len() implies 0 <= (#[trigger] rest[i]) && rest[i] + 8
            <= b.len() && (rest[i] == t || rest[i] + 8 <= t || t + 8 <= rest[i]) by {
            assert(rest[i] == slots[i + 1]);
        }
        lemma_shift_first(shift_at(b, s, d), rest, t, d, e);
        lemma_shift_swap(b, s, t, d, e);
    }
}

proof fn lemma_shift_undone(b: Seq<u8>, s: int, d: int, e: int)
    requires
        0 <= s,
        s + 8 <= b.len(),
        (d + e) % word() == 0,
    ensures
        shift_at(shift_at(b, s, d), s, e) == b,
{
    let n = bytes::le64_at(b, s);
    let c = shift_at(b, s, d);
    bytes::law_le64_round_trip(b, s, ((n + d) % word()) as u64);
    bytes::lemma_put_back(b, c, s);
    vstd::arithmetic::div_mod::lemma_add_mod_noop_right(e, n + d, word());
    vstd::arithmetic::div_mod::lemma_add_mod_noop_right(n, d + e, word());
    assert((n + (d + e)) % word() == n % word());
    assert(n % word() == n);
}

/// Shifting by `e` undoes shifting by `d`, where the two make up a whole word
/// and no slot overlaps another in part.
pub proof fn law_shift_undone(b: Seq<u8>, slots: Seq<int>, d: int, e: int)
    requires
        separate(slots),
        forall|i: int|
            0 <= i < slots.len() ==> 0 <= (#[trigger] slots[i]) && slots[i] + 8 <= b.len(),
        (d + e) % word() == 0,
    ensures
        shifted(shifted(b, slots, d), slots, e) == b,
    decreases slots.len(),
{
    if slots.len() > 0 {
        let s = slots[0];
        let rest = slots.drop_first();
        assert forall|i: int| 0 <= i < rest.len() implies 0 <= (#[trigger] rest[i]) && rest[i] + 8
            <= b.len() && (rest[i] == s || rest[i] + 8 <= s || s + 8 <= rest[i]) by {
            assert(rest[i] == slots[i + 1]);
            assert(slots[0] == slots[i + 1] || slots[0] + 8 <= slots[i + 1] || slots[i + 1] + 8
                <= slots[0]);
        }
        assert(separate(rest)) by {
            assert forall|i: int, j: int| 0 <= i < rest.len() && 0 <= j < rest.len() implies
                #[trigger] rest[i] == #[trigger] rest[j] || rest[i] + 8 <= rest[j] || rest[j] + 8
                <= rest[i] by {
                assert(rest[i] == slots[i + 1] && rest[j] == slots[j + 1]);
            }
        }
        lemma_shift_first(shift_at(b, s, d), rest, s, d, e);
        lemma_shift_undone(b, s, d, e);
        law_shift_undone(b, rest, d, e);
    }
}

/// Relocating is undone by relocating with the negated delta, which finds the
/// same table, the same slots and the same counts.
pub proof fn law_relocation_undone(b: Seq<u8>, d: int, e: int)
    requires
        relocatable(b),
        separate(slots_of(b)),
        (d + e) % word() == 0,
    ensures
        relocated(relocated(b, d).image, e) == (Relocated { image: b, res: relocated(b, d).res }),
{
    let slots = slots_of(b);
    law_relocation(b, d);
    let x = shifted(b, slots, d);
    lemma_shifted_alike(b, b, slots, d);
    lemma_table_alike(b, x);
    lemma_blocks(b, x, 0, e, 0, 0);
    assert forall|i: int| 0 <= i < slots.len() implies 0 <= (#[trigger] slots[i]) && slots[i] + 8
        <= b.len() by {
        assert(slot_ok(b, slots[i]));
    }
    law_shift_undone(b, slots, d, e);
}

/// Find the relocation table.
fn find_reloc_table(b: &[u8]) -> (r: Result<(u64, u64), &'static str>)
    ensures
        (match r {
            Ok((x, y)) => Ok((x as int, y as int)),
            Err(e) => Err(e),
        }) == reloc_table(b@),
        r matches Ok((x, y)) ==> x <= 0xFFFF_FFFF && y <= 0xFFFF_FFFF && x + y <= b@.len(),
{
    let coff: u64 = match find_coff(b) {
        Ok(x) => x,
        Err(e) => {
            return Err(e);
        },
    };
    match read_u16(b, coff + 20) {
        None => {
            return Err("truncated optional header");
        },
        Some(m) => {
            if m != 0x20B {
                return Err("not a PE32+ optional header");
            }
        },
    }
    let rva: u64 = match read_u32(b, coff + 172) {
        None => {
            return Err("truncated data directory");
        },
        Some(x) => x as u64,
    };
    let size: u64 = match read_u32(b, coff + 176) {
        None => {
            return Err("truncated data directory");
        },
        Some(x) => x as u64,
    };
    if rva == 0 || size == 0 {
        return Err("PE carries no base relocation table");
    }
    if rva + size > b.len() as u64 {
        return Err("base relocation table lies outside the image");
    }
    Ok((rva, size))
}

/// Apply one relocation block of `m` entries.
fn apply_block(
    image: &mut Vec<u8>,
    first: u64,
    page: u64,
    m: u64,
    delta: u64,
    patched0: usize,
    other0: usize,
) -> (r: Result<(usize, usize), &'static str>)
    requires
        first <= 0x4_0000_0000,
        page <= 0xFFFF_FFFF,
        m <= 0x8000_0000,
        patched0 + other0 + m <= usize::MAX,
    ensures
        ({
            let out = reloc_entries(
                old(image)@,
                first as int,
                page as int,
                0,
                m as int,
                delta as int,
                patched0 as int,
                other0 as int,
            );
            &&& final(image)@ == out.image
            &&& (match r {
                Ok((p, o)) => Ok((p as int, o as int)),
                Err(e) => Err(e),
            }) == out.res
        }),
        r matches Ok((p, o)) ==> p + o <= patched0 + other0 + m,
{
    let ghost goal = reloc_entries(
        old(image)@,
        first as int,
        page as int,
        0,
        m as int,
        delta as int,
        patched0 as int,
        other0 as int,
    );
    let mut patched: usize = patched0;
    let mut other: usize = other0;
    let mut i: u64 = 0;
    while i < m
        invariant
            i <= m,
            first <= 0x4_0000_0000,
            page <= 0xFFFF_FFFF,
            m <= 0x8000_0000,
            patched + other <= patched0 + other0 + i,
            patched0 + other0 + m <= usize::MAX,
            goal == reloc_entries(
                old(image)@,
                first as int,
                page as int,
                0,
                m as int,
                delta as int,
                patched0 as int,
                other0 as int,
            ),
            goal == reloc_entries(
                image@,
                first as int,
                page as int,
                i as int,
                m as int,
                delta as int,
                patched as int,
                other as int,
            ),
        decreases m - i,
    {
        let ent: u16 = match read_u16(image.as_slice(), first + i * 2) {
            None => {
                return Err("truncated reloc entry");
            },
            Some(x) => x,
        };
        let slot: u64 = page + (ent % 4096) as u64;
        if ent / 4096 == 10 {
            if slot + 8 > image.len() as u64 {
                return Err("relocation slot outside the image");
            }
            let value: u64 = bytes::le64(image.as_slice(), slot as usize);
            let sum: u64 = value.wrapping_add(delta);
            assert(sum as int == (value + delta) % 0x1_0000_0000_0000_0000);
            bytes::write_le64(image, slot as usize, sum);
            patched = patched + 1;
        } else if ent / 4096 != 0 {
            other = other + 1;
        }
        i = i + 1;
    }
    Ok((patched, other))
}

/// Walk the relocation table and patch its slots.
fn patch_slots(image: &mut Vec<u8>, delta: u64) -> (r: Result<
    (usize, usize),
    &'static str,
>)
    requires
        old(image)@.len() <= 0xFFFF_FFFF,
    ensures
        final(image)@ == relocated(old(image)@, delta as int).image,
        (match r {
            Ok((p, o)) => Ok((p as int, o as int)),
            Err(e) => Err(e),
        }) == relocated(old(image)@, delta as int).res,
{
    let (rva, size) = match find_reloc_table(image.as_slice()) {
        Ok(x) => x,
        Err(e) => {
            return Err(e);
        },
    };
    let ghost goal = relocated(old(image)@, delta as int);
    let mut patched: usize = 0;
    let mut other: usize = 0;
    let mut off: u64 = 0;
    while off + 8 <= size
        invariant
            rva <= 0xFFFF_FFFF,
            size <= 0xFFFF_FFFF,
            off <= size,
            patched + other <= off,
            goal == relocated(old(image)@, delta as int),
            goal == reloc_blocks(
                image@,
                rva as int,
                size as int,
                off as int,
                delta as int,
                patched as int,
                other as int,
            ),
        decreases size - off,
    {
        let page: u64 = match read_u32(image.as_slice(), rva + off) {
            None => {
                return Err("truncated reloc block");
            },
            Some(x) => x as u64,
        };
        let block: u64 = match read_u32(image.as_slice(), rva + off + 4) {
            None => {
                return Err("truncated reloc block");
            },
            Some(x) => x as u64,
        };
        if block < 8 || block % 2 != 0 || off + block > size {
            return Err("malformed relocation block");
        }
        match apply_block(
            image,
            rva + off + 8,
            page,
            (block - 8) / 2,
            delta,
            patched,
            other,
        ) {
            Ok((p, o)) => {
                patched = p;
                other = o;
            },
            Err(e) => {
                return Err(e);
            },
        }
        off = off + block;
    }
    Ok((patched, other))
}

/// What [`apply_base_relocations`] answers and does.
pub open spec fn relocations_applied(
    image0: &Vec<u8>,
    image1: &Vec<u8>,
    delta: u64,
    r: Result<(usize, usize), &'static str>,
) -> bool {
    &&& image1@ == relocated(image0@, delta as int).image
    &&& (match r {
        Ok((p, o)) => Ok((p as int, o as int)),
        Err(e) => Err(e),
    }) == relocated(image0@, delta as int).res
    &&& relocatable(image0@) ==> image1@ == shifted(
        image0@,
        slots_of(image0@),
        delta as int,
    ) && r is Ok && r->Ok_0.0 == slots_of(image0@).len() && r->Ok_0.1 == others_of(
        image0@,
    )
}

/// Add `delta` to every 64-bit slot that the image's relocation table names.
/// Returns how many slots were patched and how many entries of other kinds
/// were passed over; an error leaves the slots before it patched.
pub fn apply_base_relocations(image: &mut Vec<u8>, delta: u64) -> (r: Result<
    (usize, usize),
    &'static str,
>)
    requires
        old(image)@.len() <= 0xFFFF_FFFF,
    ensures
        relocations_applied(old(image), final(image), delta, r),
{
    let r = patch_slots(image, delta);
    proof {
        if relocatable(old(image)@) {
            law_relocation(old(image)@, delta as int);
        }
    }
    r
}

} // verus!

//! Images: which files are accepted, and what of a file a process gets to see.

use vstd::prelude::*;
use crate::bits;
use crate::bytes;
use crate::elf;
use crate::elf::SegInfo;
use crate::kernel::Kernel;
use crate::laws::{le, lemma_le, lemma_nth_byte, nth_byte};
use crate::paging;

verus! {

/// Where program header `h` of the file begins.
pub open spec fn ph(b: Seq<u8>, h: int) -> int {
    le(b, 32, 8) + 56 * h
}

/// Program header `h` asks for something to be loaded.
pub open spec fn loads(b: Seq<u8>, h: int) -> bool {
    0 <= h < le(b, 56, 2) && le(b, ph(b, h), 4) == 1
}

/// Where header `h` wants its bytes, how many it wants, how many of them the
/// file has, and where.
pub open spec fn vaddr(b: Seq<u8>, h: int) -> int {
    le(b, ph(b, h) + 16, 8)
}

pub open spec fn memsz(b: Seq<u8>, h: int) -> int {
    le(b, ph(b, h) + 40, 8)
}

pub open spec fn filesz(b: Seq<u8>, h: int) -> int {
    le(b, ph(b, h) + 32, 8)
}

pub open spec fn offset(b: Seq<u8>, h: int) -> int {
    le(b, ph(b, h) + 8, 8)
}

/// The low byte of the permissions of header `h`: bit 0 to execute, bit 1 to
/// write, bit 2 to read.
pub open spec fn perms(b: Seq<u8>, h: int) -> u8 {
    b[ph(b, h) + 4]
}

/// Header `h` can be loaded by itself.
pub open spec fn fine(b: Seq<u8>, h: int) -> bool {
    &&& le(b, ph(b, h) + 4, 4) < 8
    &&& perms(b, h) % 4 != 3
    &&& 0 < memsz(b, h)
    &&& filesz(b, h) <= memsz(b, h)
    &&& vaddr(b, h) % 4096 == 0
    &&& vaddr(b, h) + memsz(b, h) <= 0x8000_0000_0000
    &&& offset(b, h) + filesz(b, h) <= b.len()
}

/// Headers `g` and `h` share no address.
pub open spec fn disjoint(b: Seq<u8>, g: int, h: int) -> bool {
    vaddr(b, g) + memsz(b, g) <= vaddr(b, h) || vaddr(b, h) + memsz(b, h) <= vaddr(b, g)
}

/// The file is a 64-bit little-endian static program for this processor, with a
/// table of one to eight program headers that lies in the file.
pub open spec fn well_headed(b: Seq<u8>) -> bool {
    &&& b.len() >= 120
    &&& b[0] == 0x7f && b[1] == 0x45 && b[2] == 0x4c && b[3] == 0x46
    &&& b[4] == 2 && b[5] == 1 && b[6] == 1
    &&& le(b, 16, 2) == 2 && le(b, 18, 2) == 0x3e && le(b, 20, 4) == 1
    &&& le(b, 52, 2) == 64 && le(b, 54, 2) == 56
    &&& 1 <= le(b, 56, 2) <= 8
    &&& le(b, 32, 8) + 56 * le(b, 56, 2) <= b.len()
    &&& b.len() <= u64::MAX
}

/// No header names an interpreter, every one that loads is fine, no two of them
/// overlap, and one that may be executed holds the entry point.
pub open spec fn well_laid(b: Seq<u8>) -> bool {
    &&& forall|h: int| 0 <= h < le(b, 56, 2) ==> le(b, #[trigger] ph(b, h), 4) != 3
    &&& forall|h: int| #[trigger] loads(b, h) ==> fine(b, h)
    &&& forall|g: int, h: int|
        g < h && #[trigger] loads(b, g) && #[trigger] loads(b, h) ==> disjoint(b, g, h)
    &&& exists|h: int| #[trigger]
        loads(b, h) && perms(b, h) % 2 == 1 && vaddr(b, h) <= le(b, 24, 8) < vaddr(b, h) + memsz(
            b,
            h,
        )
}

proof fn lemma_flag_bits(flags: u32, low: u8)
    by (bit_vector)
    ensures
        flags & !7u32 == 0 <==> flags < 8,
        flags == low ==> (flags & 1 != 0) == (low & 1 != 0) && (flags & 2 != 0) == (low & 2 != 0),
        flags == low && low < 8 ==> (flags & (2u32 | 1u32) == 2u32 | 1u32) == (low % 4 == 3),
        (low & 1 != 0) == (low % 2 == 1),
{
}

/// What the loader reads of header `h` is what the file says.
proof fn lemma_seg(b: Seq<u8>, h: int)
    ensures
        ({
            let s = elf::seg_at(b, ph(b, h));
            &&& s.vaddr == vaddr(b, h)
            &&& s.memsz == memsz(b, h)
            &&& s.filesz == filesz(b, h)
            &&& s.offset == offset(b, h)
            &&& s.flags == le(b, ph(b, h) + 4, 4)
            &&& s.flags < 8 ==> s.flags == perms(b, h)
            &&& s.flags < 8 ==> s.writable() == (perms(b, h) & 2 != 0) && s.executable() == (perms(
                b,
                h,
            ) & 1 != 0)
        }),
{
    let p = ph(b, h);
    lemma_le(b, p + 16);
    lemma_le(b, p + 40);
    lemma_le(b, p + 32);
    lemma_le(b, p + 8);
    lemma_le(b, p + 4);
    lemma_flag_bits(elf::seg_at(b, p).flags, perms(b, h));
}

/// A header is refused by itself just where it is not fine.
proof fn lemma_fault(b: Seq<u8>, h: int, before: Seq<SegInfo>)
    requires
        b.len() <= u64::MAX,
    ensures
        elf::seg_fault(b, elf::seg_at(b, ph(b, h)), before) is None <==> fine(b, h) && (
        forall|i: int|
            0 <= i < before.len() ==> !elf::seg_at(b, ph(b, h)).overlaps(#[trigger] before[i])),
{
    lemma_seg(b, h);
    lemma_flag_bits(elf::seg_at(b, ph(b, h)).flags, perms(b, h));
    lemma_le(b, ph(b, h) + 4);
}

/// The table is accepted from header `i` on, after the segments in `before`.
#[verifier::opaque]
spec fn accepted_from(b: Seq<u8>, i: int, before: Seq<SegInfo>) -> bool {
    &&& forall|h: int| i <= h < le(b, 56, 2) ==> le(b, #[trigger] ph(b, h), 4) != 3
    &&& forall|h: int| i <= h && #[trigger] loads(b, h) ==> fine(b, h)
    &&& forall|h: int, j: int|
        i <= h && #[trigger] loads(b, h) && 0 <= j < before.len() ==> !elf::seg_at(
            b,
            ph(b, h),
        ).overlaps(#[trigger] before[j])
    &&& forall|g: int, h: int|
        i <= g < h && #[trigger] loads(b, g) && #[trigger] loads(b, h) ==> !elf::seg_at(
            b,
            ph(b, h),
        ).overlaps(elf::seg_at(b, ph(b, g)))
}

/// Header `i`, and then the rest.
#[verifier::spinoff_prover]
proof fn lemma_accepted_step(b: Seq<u8>, i: int, before: Seq<SegInfo>)
    requires
        0 <= i < le(b, 56, 2),
        b.len() <= u64::MAX,
    ensures
        accepted_from(b, i, before) <==> {
            &&& le(b, ph(b, i), 4) != 3
            &&& loads(b, i) ==> elf::seg_fault(b, elf::seg_at(b, ph(b, i)), before) is None
            &&& accepted_from(
                b,
                i + 1,
                if loads(b, i) {
                    before.push(elf::seg_at(b, ph(b, i)))
                } else {
                    before
                },
            )
        },
{
    reveal(accepted_from);
    let s = elf::seg_at(b, ph(b, i));
    lemma_fault(b, i, before);
    let more = if loads(b, i) {
        before.push(s)
    } else {
        before
    };
    if accepted_from(b, i, before) {
        assert(le(b, ph(b, i), 4) != 3);
        assert forall|h: int, j: int|
            i + 1 <= h && #[trigger] loads(b, h) && 0 <= j < more.len() implies !elf::seg_at(
            b,
            ph(b, h),
        ).overlaps(#[trigger] more[j]) by {
            if j < before.len() {
                assert(more[j] == before[j]);
            }
        }
    }
    if le(b, ph(b, i), 4) != 3 && (loads(b, i) ==> elf::seg_fault(b, s, before) is None)
        && accepted_from(b, i + 1, more) {
        assert forall|h: int, j: int|
            i <= h && #[trigger] loads(b, h) && 0 <= j < before.len() implies !elf::seg_at(
            b,
            ph(b, h),
        ).overlaps(#[trigger] before[j]) by {
            if h > i {
                assert(more[j] == before[j]);
            }
        }
        assert forall|g: int, h: int|
            i <= g < h && #[trigger] loads(b, g) && #[trigger] loads(b, h) implies !elf::seg_at(
            b,
            ph(b, h),
        ).overlaps(elf::seg_at(b, ph(b, g))) by {
            if g == i {
                assert(more[before.len() as int] == s);
            }
        }
        assert forall|h: int| i <= h < le(b, 56, 2) implies le(b, #[trigger] ph(b, h), 4) != 3 by {
            if h > i {
                assert(i + 1 <= h);
            }
        }
        assert forall|h: int| i <= h && #[trigger] loads(b, h) implies fine(b, h) by {
            if h > i {
                assert(i + 1 <= h);
            }
        }
    }
}

/// The segments that a scan finds from header `i` on.
spec fn found(b: Seq<u8>, i: int, before: Seq<SegInfo>) -> Result<Seq<SegInfo>, &'static str> {
    elf::scan(b, bytes::le64_at(b, 32), i, bytes::le16_at(b, 56), before)
}

/// One header of a scan.
proof fn lemma_found_step(b: Seq<u8>, i: int, before: Seq<SegInfo>)
    requires
        0 <= i < le(b, 56, 2),
    ensures
        le(b, ph(b, i), 4) == 3 ==> found(b, i, before) is Err,
        loads(b, i) && elf::seg_fault(b, elf::seg_at(b, ph(b, i)), before) is Some ==> found(
            b,
            i,
            before,
        ) is Err,
        le(b, ph(b, i), 4) != 3 && !loads(b, i) ==> found(b, i, before) == found(b, i + 1, before),
        loads(b, i) && elf::seg_fault(b, elf::seg_at(b, ph(b, i)), before) is None ==> found(
            b,
            i,
            before,
        ) == found(b, i + 1, before.push(elf::seg_at(b, ph(b, i)))),
{
    lemma_le(b, 32);
    lemma_le(b, 56);
    lemma_le(b, ph(b, i));
}

proof fn lemma_scan(b: Seq<u8>, i: int, before: Seq<SegInfo>)
    requires
        0 <= i <= le(b, 56, 2),
        b.len() <= u64::MAX,
    ensures
        found(b, i, before) is Ok <==> accepted_from(b, i, before),
    decreases le(b, 56, 2) - i,
{
    lemma_le(b, 56);
    if i < le(b, 56, 2) {
        lemma_accepted_step(b, i, before);
        lemma_found_step(b, i, before);
        if loads(b, i) {
            lemma_scan(b, i + 1, before.push(elf::seg_at(b, ph(b, i))));
        } else {
            lemma_scan(b, i + 1, before);
        }
    } else {
        reveal(accepted_from);
    }
}

/// Segment `j` is what header `h` asks for.
spec fn comes_from(b: Seq<u8>, segs: Seq<SegInfo>, j: int, h: int) -> bool {
    loads(b, h) && 0 <= j < segs.len() && segs[j] == elf::seg_at(b, ph(b, h))
}

/// Every header that loads becomes a segment.
proof fn lemma_found_all(b: Seq<u8>, i: int, before: Seq<SegInfo>, h: int)
    requires
        0 <= i <= h,
        loads(b, h),
        found(b, i, before) is Ok,
    ensures
        exists|j: int| #[trigger] comes_from(b, found(b, i, before)->Ok_0, j, h),
    decreases le(b, 56, 2) - i,
{
    lemma_found_step(b, i, before);
    let more = if loads(b, i) {
        before.push(elf::seg_at(b, ph(b, i)))
    } else {
        before
    };
    if h == i {
        lemma_found_keeps(b, i + 1, more, before.len() as int);
        assert(comes_from(b, found(b, i, before)->Ok_0, before.len() as int, h));
    } else {
        lemma_found_all(b, i + 1, more, h);
    }
}

/// What was found stays.
proof fn lemma_found_keeps(b: Seq<u8>, i: int, before: Seq<SegInfo>, j: int)
    requires
        0 <= i <= le(b, 56, 2),
        0 <= j < before.len(),
        found(b, i, before) is Ok,
    ensures
        j < found(b, i, before)->Ok_0.len(),
        found(b, i, before)->Ok_0[j] == before[j],
    decreases le(b, 56, 2) - i,
{
    lemma_le(b, 56);
    if i < le(b, 56, 2) {
        lemma_found_step(b, i, before);
        let more = if loads(b, i) {
            before.push(elf::seg_at(b, ph(b, i)))
        } else {
            before
        };
        lemma_found_keeps(b, i + 1, more, j);
    }
}

/// Every segment comes from a header that loads.
proof fn lemma_found_only(b: Seq<u8>, i: int, before: Seq<SegInfo>, j: int)
    requires
        0 <= i <= le(b, 56, 2),
        found(b, i, before) is Ok,
        before.len() <= j < found(b, i, before)->Ok_0.len(),
    ensures
        exists|h: int| #[trigger] comes_from(b, found(b, i, before)->Ok_0, j, h),
    decreases le(b, 56, 2) - i,
{
    lemma_le(b, 56);
    if i < le(b, 56, 2) {
        lemma_found_step(b, i, before);
        let more = if loads(b, i) {
            before.push(elf::seg_at(b, ph(b, i)))
        } else {
            before
        };
        if loads(b, i) && j == before.len() {
            lemma_found_keeps(b, i + 1, more, j);
            assert(comes_from(b, found(b, i, before)->Ok_0, j, i));
        } else {
            lemma_found_only(b, i + 1, more, j);
        }
    }
}

proof fn lemma_headed(b: Seq<u8>)
    requires
        b.len() <= u64::MAX,
    ensures
        elf::header_fault(b) is None <==> well_headed(b),
{
    lemma_le(b, 16);
    lemma_le(b, 18);
    lemma_le(b, 20);
    lemma_le(b, 32);
    lemma_le(b, 52);
    lemma_le(b, 54);
    lemma_le(b, 56);
}

/// A file is accepted just where it is a static program for this machine, its
/// segments are fine and lie apart, and it begins in one that may be executed;
/// its entry point is then the one it names.
#[verifier::rlimit(40)]
pub proof fn law_accepted_files(b: Seq<u8>)
    requires
        b.len() <= u64::MAX,
    ensures
        elf::parsed(b) is Ok <==> well_headed(b) && well_laid(b),
        elf::parsed(b) matches Ok((entry, _)) ==> entry == le(b, 24, 8),
{
    let none = Seq::<SegInfo>::empty();
    lemma_le(b, 24);
    lemma_le(b, 56);
    lemma_headed(b);
    lemma_scan(b, 0, none);
    assert(well_headed(b) && accepted_from(b, 0, none) ==> forall|g: int, h: int|
        g < h && #[trigger] loads(b, g) && #[trigger] loads(b, h) ==> disjoint(b, g, h)) by {
        reveal(accepted_from);
        assert forall|g: int, h: int|
            accepted_from(b, 0, none) && g < h && #[trigger] loads(b, g) && #[trigger] loads(
                b,
                h,
            ) implies disjoint(b, g, h) by {
            lemma_seg(b, g);
            lemma_seg(b, h);
        }
    }
    if well_laid(b) {
        assert(accepted_from(b, 0, none)) by {
            reveal(accepted_from);
            assert forall|g: int, h: int|
                0 <= g < h && #[trigger] loads(b, g) && #[trigger] loads(b, h) implies !elf::seg_at(
                b,
                ph(b, h),
            ).overlaps(elf::seg_at(b, ph(b, g))) by {
                lemma_seg(b, g);
                lemma_seg(b, h);
                assert(disjoint(b, g, h));
            }
        }
    }
    if accepted_from(b, 0, none) {
        let segs = found(b, 0, none)->Ok_0;
        let entry = le(b, 24, 8);
        assert(forall|h: int| #[trigger] loads(b, h) ==> fine(b, h)) by {
            reveal(accepted_from);
        }
        assert(forall|h: int| 0 <= h < le(b, 56, 2) ==> le(b, #[trigger] ph(b, h), 4) != 3) by {
            reveal(accepted_from);
        }
        if well_laid(b) {
            let h = choose|h: int| #[trigger]
                loads(b, h) && perms(b, h) % 2 == 1 && vaddr(b, h) <= entry < vaddr(b, h) + memsz(
                    b,
                    h,
                );
            lemma_found_all(b, 0, none, h);
            let j = choose|j: int| #[trigger] comes_from(b, segs, j, h);
            lemma_seg(b, h);
            lemma_flag_bits(segs[j].flags, perms(b, h));
            assert(segs[j].executable() && segs[j].holds(entry));
        }
        if elf::entry_ok(segs, entry) {
            let j = choose|j: int|
                0 <= j < segs.len() && (#[trigger] segs[j]).executable() && segs[j].holds(entry);
            lemma_found_only(b, 0, none, j);
            let h = choose|h: int| #[trigger] comes_from(b, segs, j, h);
            lemma_seg(b, h);
            assert(fine(b, h));
            lemma_flag_bits(segs[j].flags, perms(b, h));
            assert(loads(b, h) && perms(b, h) % 2 == 1);
        }
    }
}

/// The bits of the entry of a page of a segment, and a byte of the page.
proof fn lemma_placed(pre: &Kernel, k: &Kernel, root: int, b: Seq<u8>, s: SegInfo, off: int)
    requires
        elf::placed(pre, k, root, b, s, off / 4096),
        0 <= off,
        !(s.writable() && s.executable()),
    ensures
        paging::pte_at(k.pg.mem.words@, root, s.vaddr as int / 4096 + off / 4096) matches Some(e)
            && {
            let at = (e & 0x000F_FFFF_FFFF_F000) + off % 4096;
            &&& e & 1 != 0
            &&& e & 4 != 0
            &&& (e & 2 != 0) == s.writable()
            &&& (e & 0x8000_0000_0000_0000 == 0) == s.executable()
            &&& nth_byte(k.pg.mem.words@[at / 8] as int, at % 8) == (if off < s.filesz {
                b[s.offset + off] as int
            } else {
                0
            })
        },
{
    let q = off / 4096;
    let e = paging::leaf(k.pg.mem.words@, root, s.vaddr as int / 4096 + q)->0;
    let f = paging::addr(e);
    paging::lemma_user_entry(f as u64);
    let at = f + off % 4096;
    assert(elf::mem_byte(k.pg.mem.words@, f + off % 4096) == elf::seg_byte(b, s, q, off % 4096));
    lemma_nth_byte(k.pg.mem.words@[at / 8] as int, at % 8);
}

/// What a process sees of a loaded file, byte by byte: at each address that a
/// header asks for there is a page of its own, open to user mode; it can be
/// written just where the header's permissions in the file have bit 1, and
/// executed just where they have bit 0; and the byte is the file's, or zero
/// where the file has none.
#[verifier::rlimit(40)]
pub proof fn law_file_is_seen(
    pre: Kernel,
    k: Kernel,
    root: int,
    b: Seq<u8>,
    segs: Seq<SegInfo>,
    h: int,
    off: int,
)
    requires
        elf::parsed(b) matches Ok((_, all)) && all == segs,
        elf::loaded(&pre, &k, root, b, segs, segs.len() as int, 0),
        b.len() <= u64::MAX,
        loads(b, h),
        0 <= off < memsz(b, h),
    ensures
        paging::pte_at(k.pg.mem.words@, root, (vaddr(b, h) + off) / 4096) matches Some(e) && {
            let at = (e & 0x000F_FFFF_FFFF_F000) + off % 4096;
            &&& e & 1 != 0
            &&& e & 4 != 0
            &&& (e & 2 != 0) == (perms(b, h) & 2 != 0)
            &&& (e & 0x8000_0000_0000_0000 == 0) == (perms(b, h) & 1 != 0)
            &&& nth_byte(k.pg.mem.words@[at / 8] as int, at % 8) == (if off < filesz(b, h) {
                b[offset(b, h) + off] as int
            } else {
                0
            })
        },
{
    let none = Seq::<SegInfo>::empty();
    law_accepted_files(b);
    assert(found(b, 0, none) == Ok::<Seq<SegInfo>, &'static str>(segs));
    lemma_found_all(b, 0, none, h);
    let i = choose|i: int| #[trigger] comes_from(b, segs, i, h);
    let s = segs[i];
    assert(fine(b, h));
    lemma_seg(b, h);
    lemma_flag_bits(s.flags, perms(b, h));
    bits::lemma_ceil_div(s.memsz as int, 4096);
    let q = off / 4096;
    assert(!(s.writable() && s.executable())) by {
        elf::law_accepted_images(b);
    }
    assert(elf::placed(&pre, &k, root, b, s, q)) by {
        reveal(elf::loaded);
    }
    assert((s.vaddr + off) / 4096 == s.vaddr as int / 4096 + q);
    lemma_placed(&pre, &k, root, b, s, off);
}

/// Loading a file changes no page that no header asks for.
#[verifier::rlimit(40)]
pub proof fn law_file_is_all_there_is(
    pre: Kernel,
    k: Kernel,
    root: int,
    b: Seq<u8>,
    segs: Seq<SegInfo>,
    v: int,
)
    requires
        elf::parsed(b) matches Ok((_, all)) && all == segs,
        elf::loaded(&pre, &k, root, b, segs, segs.len() as int, 0),
        b.len() <= u64::MAX,
        0 <= v < 0x10_0000_0000,
        forall|h: int| #[trigger]
            loads(b, h) ==> v * 4096 + 4096 <= vaddr(b, h) || vaddr(b, h) + memsz(b, h) <= v
                * 4096,
    ensures
        paging::leaf(k.pg.mem.words@, root, v) == paging::leaf(pre.pg.mem.words@, root, v),
{
    let none = Seq::<SegInfo>::empty();
    law_accepted_files(b);
    reveal(elf::loaded);
    if elf::covered(segs, segs.len() as int, 0, v) {
        let i = choose|i: int|
            0 <= i < segs.len() && elf::in_pages(#[trigger] segs[i], segs[i].pages(), v);
        assert(found(b, 0, none) == Ok::<Seq<SegInfo>, &'static str>(segs));
        lemma_found_only(b, 0, none, i);
        let h = choose|h: int| #[trigger] comes_from(b, segs, i, h);
        assert(loads(b, h) && fine(b, h));
        lemma_seg(b, h);
        bits::lemma_ceil_div(segs[i].memsz as int, 4096);
    }
}

} // verus!

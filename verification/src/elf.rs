//! ELF images: which ones are accepted, and how one is put into a process.

use vstd::prelude::*;
use crate::accounts;
use crate::bits;
use crate::bytes;
use crate::frames;
use crate::kernel::Kernel;
use crate::needs;
use crate::paging;
use crate::paging::{PhysMem, PAGE, PAGES, USER_HALF_LIMIT};
use crate::proc;
use crate::views;

verus! {

pub const MAX_SEGMENTS: usize = 8;
pub const PT_LOAD: u32 = 1;
pub const PT_INTERP: u32 = 3;
pub const PF_X: u32 = 1;
pub const PF_W: u32 = 2;
pub const PF_R: u32 = 4;
pub const PF_KNOWN: u32 = 7;

/// The ELF header and one program header.
pub const MIN_IMAGE: usize = 120;

/// A loadable segment.
#[derive(Clone, Copy, Debug, PartialEq, Eq, Structural)]
pub struct SegInfo {
    pub vaddr: u64,
    pub memsz: u64,
    pub filesz: u64,
    pub offset: u64,
    pub flags: u32,
}

/// An accepted image.
pub struct ImageInfo {
    pub entry: u64,
    pub nsegs: usize,
    pub segs: [SegInfo; MAX_SEGMENTS],
}

impl ImageInfo {
    /// The segments of the image.
    pub open spec fn segments(&self) -> Seq<SegInfo> {
        self.segs@.take(self.nsegs as int)
    }
}

/// What loading an image came to.
pub struct LoadInfo {
    pub entry: u64,
    pub pages: u64,
}

impl SegInfo {
    pub open spec fn end(self) -> int {
        self.vaddr + self.memsz
    }

    /// How many pages the segment takes.
    pub open spec fn pages(self) -> int {
        bits::ceil_div(self.memsz as int, 4096)
    }

    pub open spec fn holds(self, va: int) -> bool {
        self.vaddr <= va < self.end()
    }

    pub open spec fn executable(self) -> bool {
        self.flags & PF_X != 0
    }

    pub open spec fn writable(self) -> bool {
        self.flags & PF_W != 0
    }

    pub open spec fn overlaps(self, other: SegInfo) -> bool {
        self.vaddr < other.end() && other.vaddr < self.end()
    }
}

/// The segment that the program header at `ph` describes.
pub open spec fn seg_at(b: Seq<u8>, ph: int) -> SegInfo {
    SegInfo {
        vaddr: bytes::le64_at(b, ph + 16) as u64,
        memsz: bytes::le64_at(b, ph + 40) as u64,
        filesz: bytes::le64_at(b, ph + 32) as u64,
        offset: bytes::le64_at(b, ph + 8) as u64,
        flags: bytes::le32_at(b, ph + 4) as u32,
    }
}

/// Why segment `s` is not accepted after the segments in `before`, if it is
/// not.
pub open spec fn seg_fault(b: Seq<u8>, s: SegInfo, before: Seq<SegInfo>) -> Option<&'static str> {
    if s.flags & !PF_KNOWN != 0 {
        Some("elf: unknown segment flags")
    } else if s.flags & (PF_W | PF_X) == PF_W | PF_X {
        Some("elf: W+X segment violates W^X (ADR-0008)")
    } else if s.memsz == 0 {
        Some("elf: PT_LOAD with zero memsz")
    } else if s.filesz > s.memsz {
        Some("elf: filesz exceeds memsz")
    } else if s.vaddr % 4096 != 0 {
        Some("elf: p_vaddr not page-aligned")
    } else if s.vaddr >= USER_HALF_LIMIT {
        Some("elf: segment starts in the kernel half")
    } else if s.end() > u64::MAX {
        Some("elf: segment VA span overflows")
    } else if s.end() > USER_HALF_LIMIT {
        Some("elf: segment reaches the kernel half")
    } else if s.offset + s.filesz > u64::MAX {
        Some("elf: segment file span overflows")
    } else if s.offset + s.filesz > b.len() {
        Some("elf: segment data past end of image")
    } else if exists|i: int| 0 <= i < before.len() && s.overlaps(#[trigger] before[i]) {
        Some("elf: segments overlap")
    } else {
        None
    }
}

/// The segments found in program headers `i` to `n`, after those in `before`.
pub open spec fn scan(b: Seq<u8>, phoff: int, i: int, n: int, before: Seq<SegInfo>) -> Result<
    Seq<SegInfo>,
    &'static str,
>
    decreases n - i,
{
    if i >= n {
        Ok(before)
    } else {
        let ph = phoff + i * 56;
        let kind = bytes::le32_at(b, ph);
        if kind == PT_INTERP {
            Err("elf: PT_INTERP rejected — no dynamic images")
        } else if kind != PT_LOAD {
            scan(b, phoff, i + 1, n, before)
        } else {
            match seg_fault(b, seg_at(b, ph), before) {
                Some(e) => Err(e),
                None => scan(b, phoff, i + 1, n, before.push(seg_at(b, ph))),
            }
        }
    }
}

/// Why the ELF header is not accepted, if it is not.
pub open spec fn header_fault(b: Seq<u8>) -> Option<&'static str> {
    if b.len() < MIN_IMAGE {
        Some("elf: image shorter than ELF header + one phdr")
    } else if b[0] != 0x7f || b[1] != 0x45 || b[2] != 0x4c || b[3] != 0x46 {
        Some("elf: bad magic")
    } else if b[4] != 2 {
        Some("elf: not ELFCLASS64")
    } else if b[5] != 1 {
        Some("elf: not little-endian")
    } else if b[6] != 1 {
        Some("elf: bad EI_VERSION")
    } else if bytes::le32_at(b, 20) != 1 {
        Some("elf: bad e_version")
    } else if bytes::le16_at(b, 16) != 2 {
        Some("elf: only ET_EXEC static images are accepted")
    } else if bytes::le16_at(b, 18) != 0x3e {
        Some("elf: not EM_X86_64")
    } else if bytes::le16_at(b, 52) != 64 {
        Some("elf: e_ehsize must be 64")
    } else if bytes::le16_at(b, 54) != 56 {
        Some("elf: e_phentsize must be 56")
    } else if bytes::le16_at(b, 56) == 0 || bytes::le16_at(b, 56) > MAX_SEGMENTS {
        Some("elf: e_phnum outside 1..=MAX_SEGMENTS")
    } else if bytes::le64_at(b, 32) + bytes::le16_at(b, 56) * 56 > u64::MAX {
        Some("elf: phdr table bounds overflow")
    } else if bytes::le64_at(b, 32) + bytes::le16_at(b, 56) * 56 > b.len() {
        Some("elf: phdr table past end of image")
    } else {
        None
    }
}

/// The entry point lies in an executable segment.
pub open spec fn entry_ok(segs: Seq<SegInfo>, entry: int) -> bool {
    exists|i: int| 0 <= i < segs.len() && (#[trigger] segs[i]).executable() && segs[i].holds(entry)
}

/// The entry point and segments of an image, or why it is not accepted.
pub open spec fn parsed(b: Seq<u8>) -> Result<(u64, Seq<SegInfo>), &'static str> {
    match header_fault(b) {
        Some(e) => Err(e),
        None => {
            let entry = bytes::le64_at(b, 24) as u64;
            match scan(b, bytes::le64_at(b, 32), 0, bytes::le16_at(b, 56), Seq::empty()) {
                Err(e) => Err(e),
                Ok(segs) => if segs.len() == 0 {
                    Err("elf: no PT_LOAD segments")
                } else if !entry_ok(segs, entry as int) {
                    Err("elf: entry not inside an executable segment")
                } else {
                    Ok((entry, segs))
                },
            }
        },
    }
}

/// Check the ELF header.
fn check_header(b: &[u8]) -> (r: Option<&'static str>)
    ensures
        r == header_fault(b@),
{
    if b.len() < MIN_IMAGE {
        return Some("elf: image shorter than ELF header + one phdr");
    }
    if b[0] != 0x7f || b[1] != 0x45 || b[2] != 0x4c || b[3] != 0x46 {
        return Some("elf: bad magic");
    }
    if b[4] != 2 {
        return Some("elf: not ELFCLASS64");
    }
    if b[5] != 1 {
        return Some("elf: not little-endian");
    }
    if b[6] != 1 {
        return Some("elf: bad EI_VERSION");
    }
    if bytes::le32(b, 20) != 1 {
        return Some("elf: bad e_version");
    }
    if bytes::le16(b, 16) != 2 {
        return Some("elf: only ET_EXEC static images are accepted");
    }
    if bytes::le16(b, 18) != 0x3e {
        return Some("elf: not EM_X86_64");
    }
    if bytes::le16(b, 52) != 64 {
        return Some("elf: e_ehsize must be 64");
    }
    if bytes::le16(b, 54) != 56 {
        return Some("elf: e_phentsize must be 56");
    }
    let phnum: usize = bytes::le16(b, 56) as usize;
    if phnum == 0 || phnum > MAX_SEGMENTS {
        return Some("elf: e_phnum outside 1..=MAX_SEGMENTS");
    }
    let phoff: u64 = bytes::le64(b, 32);
    match phoff.checked_add(phnum as u64 * 56) {
        None => Some("elf: phdr table bounds overflow"),
        Some(end) => if end > b.len() as u64 {
            Some("elf: phdr table past end of image")
        } else {
            None
        },
    }
}

/// Check a segment against the image and the first `n` segments in `segs`.
fn check_segment(b: &[u8], s: SegInfo, segs: &[SegInfo; MAX_SEGMENTS], n: usize) -> (r: Option<
    &'static str,
>)
    requires
        n <= MAX_SEGMENTS,
        forall|i: int| 0 <= i < n ==> (#[trigger] segs@[i]).end() <= USER_HALF_LIMIT,
    ensures
        r == seg_fault(b@, s, segs@.take(n as int)),
{
    if s.flags & !PF_KNOWN != 0 {
        return Some("elf: unknown segment flags");
    }
    if s.flags & (PF_W | PF_X) == PF_W | PF_X {
        return Some("elf: W+X segment violates W^X (ADR-0008)");
    }
    if s.memsz == 0 {
        return Some("elf: PT_LOAD with zero memsz");
    }
    if s.filesz > s.memsz {
        return Some("elf: filesz exceeds memsz");
    }
    if s.vaddr % PAGE != 0 {
        return Some("elf: p_vaddr not page-aligned");
    }
    if s.vaddr >= USER_HALF_LIMIT {
        return Some("elf: segment starts in the kernel half");
    }
    let vend: u64 = match s.vaddr.checked_add(s.memsz) {
        None => {
            return Some("elf: segment VA span overflows");
        },
        Some(e) => e,
    };
    if vend > USER_HALF_LIMIT {
        return Some("elf: segment reaches the kernel half");
    }
    let fend: u64 = match s.offset.checked_add(s.filesz) {
        None => {
            return Some("elf: segment file span overflows");
        },
        Some(e) => e,
    };
    if fend > b.len() as u64 {
        return Some("elf: segment data past end of image");
    }
    let ghost before = segs@.take(n as int);
    let mut i: usize = 0;
    while i < n
        invariant
            i <= n,
            n <= MAX_SEGMENTS,
            before == segs@.take(n as int),
            vend == s.end(),
            forall|j: int| 0 <= j < n ==> (#[trigger] segs@[j]).end() <= USER_HALF_LIMIT,
            forall|j: int| 0 <= j < i ==> !s.overlaps(#[trigger] before[j]),
            s.flags & !PF_KNOWN == 0,
            s.flags & (PF_W | PF_X) != PF_W | PF_X,
            s.memsz != 0,
            s.filesz <= s.memsz,
            s.vaddr % 4096 == 0,
            s.end() <= USER_HALF_LIMIT,
            s.offset + s.filesz <= u64::MAX,
            s.offset + s.filesz <= b@.len(),
        decreases n - i,
    {
        let p = segs[i];
        assert(before[i as int] == p);
        let prev_end: u64 = p.vaddr + p.memsz;
        if s.vaddr < prev_end && p.vaddr < vend {
            assert(s.overlaps(before[i as int]));
            return Some("elf: segments overlap");
        }
        i = i + 1;
    }
    None
}

/// What stands in the places of an image's table that no segment takes.
pub open spec fn blank_segment() -> SegInfo {
    SegInfo { vaddr: 0, memsz: 0, filesz: 0, offset: 0, flags: 0 }
}

/// Check an image: header, program headers in order, and the entry point.
pub fn validate(bytes: &[u8]) -> (r: Result<ImageInfo, &'static str>)
    ensures
        match (r, parsed(bytes@)) {
            (Ok(info), Ok((entry, segs))) => {
                &&& info.entry == entry
                &&& 0 < info.nsegs <= MAX_SEGMENTS
                &&& info.segments() == segs
                &&& forall|j: int|
                    info.nsegs <= j < MAX_SEGMENTS ==> #[trigger] info.segs@[j] == blank_segment()
            },
            (Err(e), Err(f)) => e == f,
            _ => false,
        },
{
    if let Some(e) = check_header(bytes) {
        return Err(e);
    }
    let b = bytes;
    let len: usize = b.len();
    assert(len == b@.len());
    let phnum: usize = crate::bytes::le16(b, 56) as usize;
    let phoff: usize = crate::bytes::le64(b, 32) as usize;
    let entry: u64 = crate::bytes::le64(b, 24);
    let none = SegInfo { vaddr: 0, memsz: 0, filesz: 0, offset: 0, flags: 0 };
    let mut info = ImageInfo {
        entry,
        nsegs: 0,
        segs: [none, none, none, none, none, none, none, none],
    };
    let ghost goal = scan(b@, phoff as int, 0, phnum as int, Seq::empty());
    assert(info.segs@.take(0) =~= Seq::<SegInfo>::empty());
    let mut i: usize = 0;
    while i < phnum
        invariant
            i <= phnum,
            phnum <= MAX_SEGMENTS,
            phoff + phnum * 56 <= b@.len(),
            b@ == bytes@,
            b@.len() <= usize::MAX,
            header_fault(bytes@) is None,
            phoff == crate::bytes::le64_at(bytes@, 32),
            phnum == crate::bytes::le16_at(bytes@, 56),
            info.entry == crate::bytes::le64_at(bytes@, 24),
            info.nsegs <= i,
            goal == scan(b@, phoff as int, 0, phnum as int, Seq::empty()),
            goal == scan(b@, phoff as int, i as int, phnum as int, info.segments()),
            forall|j: int|
                0 <= j < info.nsegs ==> (#[trigger] info.segs@[j]).end() <= USER_HALF_LIMIT,
            forall|j: int|
                info.nsegs <= j < MAX_SEGMENTS ==> #[trigger] info.segs@[j] == blank_segment(),
        decreases phnum - i,
    {
        let ph: usize = phoff + i * 56;
        let kind: u32 = crate::bytes::le32(b, ph);
        if kind == PT_INTERP {
            return Err("elf: PT_INTERP rejected — no dynamic images");
        }
        if kind == PT_LOAD {
            let s = SegInfo {
                vaddr: crate::bytes::le64(b, ph + 16),
                memsz: crate::bytes::le64(b, ph + 40),
                filesz: crate::bytes::le64(b, ph + 32),
                offset: crate::bytes::le64(b, ph + 8),
                flags: crate::bytes::le32(b, ph + 4),
            };
            if let Some(e) = check_segment(b, s, &info.segs, info.nsegs) {
                return Err(e);
            }
            let ghost before = info.segments();
            info.segs[info.nsegs] = s;
            info.nsegs = info.nsegs + 1;
            assert(info.segments() =~= before.push(s));
        }
        i = i + 1;
    }
    if info.nsegs == 0 {
        return Err("elf: no PT_LOAD segments");
    }
    let mut found: bool = false;
    let mut k: usize = 0;
    let n: usize = info.nsegs;
    while k < n
        invariant
            k <= n,
            n == info.nsegs,
            n <= MAX_SEGMENTS,
            info.entry == entry,
            forall|j: int| 0 <= j < n ==> (#[trigger] info.segs@[j]).end() <= USER_HALF_LIMIT,
            found == exists|j: int|
                0 <= j < k && (#[trigger] info.segments()[j]).executable() && info.segments()[j].holds(
                    entry as int,
                ),
        decreases n - k,
    {
        let s = info.segs[k];
        assert(info.segments()[k as int] == s);
        if s.flags & PF_X != 0 && entry >= s.vaddr && entry < s.vaddr + s.memsz {
            found = true;
            assert(info.segments()[k as int].executable());
        }
        k = k + 1;
    }
    if !found {
        return Err("elf: entry not inside an executable segment");
    }
    Ok(info)
}

/// What holds of the segments of an accepted image.
pub open spec fn sound(b: Seq<u8>, segs: Seq<SegInfo>) -> bool {
    &&& forall|i: int|
        0 <= i < segs.len() ==> {
            let s = #[trigger] segs[i];
            &&& !(s.writable() && s.executable())
            &&& 0 < s.memsz
            &&& s.filesz <= s.memsz
            &&& s.vaddr % 4096 == 0
            &&& s.end() <= USER_HALF_LIMIT
            &&& s.offset + s.filesz <= b.len()
        }
    &&& forall|i: int, j: int|
        0 <= i < j < segs.len() ==> !(#[trigger] segs[j]).overlaps(#[trigger] segs[i])
}

proof fn lemma_scan_sound(b: Seq<u8>, phoff: int, i: int, n: int, before: Seq<SegInfo>)
    requires
        sound(b, before),
        before.len() <= i,
    ensures
        scan(b, phoff, i, n, before) matches Ok(segs) ==> sound(b, segs) && (segs.len() <= n || n
            < i),
    decreases n - i,
{
    if i < n {
        let s = seg_at(b, phoff + i * 56);
        let f = s.flags;
        assert(f & (2u32 | 1u32) != 2u32 | 1u32 ==> !(f & 2u32 != 0 && f & 1u32 != 0))
            by (bit_vector);
        if seg_fault(b, s, before) is None {
            let next = before.push(s);
            assert forall|a: int, c: int| 0 <= a < c < next.len() implies !(#[trigger] next[c]).overlaps(
                #[trigger] next[a],
            ) by {
                if c == before.len() {
                    assert(before[a] == next[a]);
                }
            }
            lemma_scan_sound(b, phoff, i + 1, n, next);
        }
        lemma_scan_sound(b, phoff, i + 1, n, before);
    }
}

/// Every accepted image keeps to the rules: no segment is both writable and
/// executable, all of them lie page-aligned in the user half with their data
/// in the image, no two overlap, and the entry point lies in an executable
/// one.
pub proof fn law_accepted_images(b: Seq<u8>)
    ensures
        parsed(b) matches Ok((entry, segs)) ==> {
            &&& sound(b, segs)
            &&& 0 < segs.len() <= MAX_SEGMENTS
            &&& entry_ok(segs, entry as int)
        },
{
    if header_fault(b) is None {
        lemma_scan_sound(
            b,
            bytes::le64_at(b, 32),
            0,
            bytes::le16_at(b, 56),
            Seq::<SegInfo>::empty(),
        );
    }
}

/// Byte `i` of the page `page` of segment `s`: the file's as far as the file
/// goes, zero beyond.
pub open spec fn seg_byte(b: Seq<u8>, s: SegInfo, page: int, i: int) -> u8 {
    if page * 4096 + i < s.filesz {
        b[s.offset + page * 4096 + i]
    } else {
        0
    }
}

/// The byte at physical address `a`.
pub open spec fn mem_byte(words: Seq<u64>, a: int) -> u8 {
    bytes::le_byte(words[a / 8] as int, a % 8)
}

/// The frame at `f` holds page `page` of segment `s`.
pub open spec fn filled(words: Seq<u64>, f: int, b: Seq<u8>, s: SegInfo, page: int) -> bool {
    forall|i: int| 0 <= i < 4096 ==> #[trigger] mem_byte(words, f + i) == seg_byte(b, s, page, i)
}

/// Page `page` of segment `s` stands in the address space `root`, as a 4 KiB
/// page in a frame that was free in `pre`, with the segment's permissions and contents.
pub open spec fn placed(
    pre: &Kernel,
    k: &Kernel,
    root: int,
    b: Seq<u8>,
    s: SegInfo,
    page: int,
) -> bool {
    paging::leaf(k.pg.mem.words@, root, s.vaddr as int / 4096 + page) matches Some(e) && {
        let f = paging::addr(e);
        &&& f % 4096 == 0
        &&& 0 <= f < frames::PHYS_LIMIT
        &&& paging::pte_at(k.pg.mem.words@, root, s.vaddr as int / 4096 + page) == Some(e)
        &&& e == paging::user_entry(f as u64, s.writable(), s.executable())
        &&& !pre.fa.in_use(f)
        &&& k.fa.in_use(f)
        &&& !k.pg.mem.seats@.dom().contains(f)
        &&& f / 8 + 512 <= k.pg.mem.words@.len()
        &&& filled(k.pg.mem.words@, f, b, s, page)
    }
}

/// Page `v` is one of the first `page` pages of segment `s`.
pub open spec fn in_pages(s: SegInfo, page: int, v: int) -> bool {
    s.vaddr as int / 4096 <= v < s.vaddr as int / 4096 + page
}

/// Page `v` belongs to the segments before the `n`-th, or to the first `page`
/// pages of the `n`-th.
pub open spec fn covered(segs: Seq<SegInfo>, n: int, page: int, v: int) -> bool {
    ||| exists|i: int| 0 <= i < n && in_pages(#[trigger] segs[i], segs[i].pages(), v)
    ||| n < segs.len() && in_pages(segs[n], page, v)
}

/// Loading has got to page `page` of segment `n`.
#[verifier::opaque]
pub open spec fn loaded(
    pre: &Kernel,
    k: &Kernel,
    root: int,
    b: Seq<u8>,
    segs: Seq<SegInfo>,
    n: int,
    page: int,
) -> bool {
    &&& forall|i: int, q: int|
        0 <= i < n && 0 <= q < segs[i].pages() ==> #[trigger] placed(pre, k, root, b, segs[i], q)
    &&& forall|q: int|
        n < segs.len() && 0 <= q < page ==> #[trigger] placed(pre, k, root, b, segs[n], q)
    &&& forall|v: int|
        0 <= v < PAGES && !covered(segs, n, page, v) ==> #[trigger] paging::leaf(
            k.pg.mem.words@,
            root,
            v,
        ) == paging::leaf(pre.pg.mem.words@, root, v)
    &&& forall|v: int, w: int|
        0 <= v < w < PAGES && covered(segs, n, page, v) && covered(segs, n, page, w)
            ==> paging::addr(#[trigger] paging::leaf(k.pg.mem.words@, root, v)->0) != paging::addr(
            #[trigger] paging::leaf(k.pg.mem.words@, root, w)->0,
        )
}

/// How many pages the first `n` segments take.
pub open spec fn pages_below(segs: Seq<SegInfo>, n: int) -> int
    decreases n,
{
    if n <= 0 {
        0
    } else {
        pages_below(segs, n - 1) + segs[n - 1].pages()
    }
}

/// Eight bytes make the word that they are the bytes of.
#[verifier::spinoff_prover]
#[verifier::rlimit(40)]
pub proof fn lemma_word_bytes(
    w: int,
    b0: int,
    b1: int,
    b2: int,
    b3: int,
    b4: int,
    b5: int,
    b6: int,
    b7: int,
)
    requires
        0 <= b0 < 256,
        0 <= b1 < 256,
        0 <= b2 < 256,
        0 <= b3 < 256,
        0 <= b4 < 256,
        0 <= b5 < 256,
        0 <= b6 < 256,
        0 <= b7 < 256,
        w == b0 + 0x100 * b1 + 0x1_0000 * b2 + 0x100_0000 * b3 + 0x1_0000_0000 * b4
            + 0x100_0000_0000 * b5 + 0x1_0000_0000_0000 * b6 + 0x100_0000_0000_0000 * b7,
    ensures
        bytes::le_byte(w, 0) == b0,
        bytes::le_byte(w, 1) == b1,
        bytes::le_byte(w, 2) == b2,
        bytes::le_byte(w, 3) == b3,
        bytes::le_byte(w, 4) == b4,
        bytes::le_byte(w, 5) == b5,
        bytes::le_byte(w, 6) == b6,
        bytes::le_byte(w, 7) == b7,
{
    let r1 = b1 + 0x100 * b2 + 0x1_0000 * b3 + 0x100_0000 * b4 + 0x1_0000_0000 * b5
        + 0x100_0000_0000 * b6 + 0x1_0000_0000_0000 * b7;
    let r2 = b2 + 0x100 * b3 + 0x1_0000 * b4 + 0x100_0000 * b5 + 0x1_0000_0000 * b6
        + 0x100_0000_0000 * b7;
    let r3 = b3 + 0x100 * b4 + 0x1_0000 * b5 + 0x100_0000 * b6 + 0x1_0000_0000 * b7;
    let r4 = b4 + 0x100 * b5 + 0x1_0000 * b6 + 0x100_0000 * b7;
    let r5 = b5 + 0x100 * b6 + 0x1_0000 * b7;
    let r6 = b6 + 0x100 * b7;
    assert(w / 0x100 == r1);
    assert(w / 0x1_0000 == r2);
    assert(w / 0x100_0000 == r3);
    assert(w / 0x1_0000_0000 == r4);
    assert(w / 0x100_0000_0000 == r5);
    assert(w / 0x1_0000_0000_0000 == r6);
    assert(w / 0x100_0000_0000_0000 == b7);
}

/// Byte `i` of page `page` of segment `s`.
fn page_byte(b: &[u8], s: SegInfo, page: u64, i: u64) -> (r: u8)
    requires
        s.offset + s.filesz <= b@.len(),
        page <= 0x8_0000_0000,
        i < 4096,
    ensures
        r == seg_byte(b@, s, page as int, i as int),
{
    let n: usize = b.len();
    assert(n == b@.len());
    let at: u64 = page * PAGE + i;
    if at < s.filesz {
        b[(s.offset + at) as usize]
    } else {
        0
    }
}

/// Word `j` of page `page` of segment `s`.
fn page_word(b: &[u8], s: SegInfo, page: u64, j: u64) -> (w: u64)
    requires
        s.offset + s.filesz <= b@.len(),
        page <= 0x8_0000_0000,
        j < 512,
    ensures
        forall|i: int|
            0 <= i < 8 ==> #[trigger] bytes::le_byte(w as int, i) == seg_byte(
                b@,
                s,
                page as int,
                j * 8 + i,
            ),
{
    let b0: u64 = page_byte(b, s, page, j * 8) as u64;
    let b1: u64 = page_byte(b, s, page, j * 8 + 1) as u64;
    let b2: u64 = page_byte(b, s, page, j * 8 + 2) as u64;
    let b3: u64 = page_byte(b, s, page, j * 8 + 3) as u64;
    let b4: u64 = page_byte(b, s, page, j * 8 + 4) as u64;
    let b5: u64 = page_byte(b, s, page, j * 8 + 5) as u64;
    let b6: u64 = page_byte(b, s, page, j * 8 + 6) as u64;
    let b7: u64 = page_byte(b, s, page, j * 8 + 7) as u64;
    let w: u64 = b0 + 0x100 * b1 + 0x1_0000 * b2 + 0x100_0000 * b3 + 0x1_0000_0000 * b4
        + 0x100_0000_0000 * b5 + 0x1_0000_0000_0000 * b6 + 0x100_0000_0000_0000 * b7;
    proof {
        lemma_word_bytes(
            w as int,
            b0 as int,
            b1 as int,
            b2 as int,
            b3 as int,
            b4 as int,
            b5 as int,
            b6 as int,
            b7 as int,
        );
        assert forall|i: int| 0 <= i < 8 implies #[trigger] bytes::le_byte(w as int, i) == seg_byte(
            b@,
            s,
            page as int,
            j * 8 + i,
        ) by {
            assert(i == 0 || i == 1 || i == 2 || i == 3 || i == 4 || i == 5 || i == 6 || i == 7);
        }
    }
    w
}

/// Fill the frame at `f` with page `page` of segment `s`.
fn fill_page(mem: &mut PhysMem, f: u64, b: &[u8], s: SegInfo, page: u64)
    requires
        f % 4096 == 0,
        f / 8 + 512 <= old(mem).words@.len(),
        s.offset + s.filesz <= b@.len(),
        page <= 0x8_0000_0000,
    ensures
        final(mem).seats@ == old(mem).seats@,
        final(mem).words@.len() == old(mem).words@.len(),
        filled(final(mem).words@, f as int, b@, s, page as int),
        forall|k: int|
            0 <= k < old(mem).words@.len() && !(f / 8 <= k < f / 8 + 512)
                ==> #[trigger] final(mem).words@[k] == old(mem).words@[k],
{
    let len: usize = mem.words.len();
    assert(len == mem.words@.len());
    let base: usize = (f / 8) as usize;
    let ghost w0 = mem.words@;
    let mut j: usize = 0;
    while j < 512
        invariant
            j <= 512,
            base == f / 8,
            base + 512 <= len,
            len == mem.words@.len(),
            mem.seats@ == old(mem).seats@,
            mem.words@.len() == w0.len(),
            s.offset + s.filesz <= b@.len(),
            page <= 0x8_0000_0000,
            forall|q: int, i: int|
                0 <= q < j && 0 <= i < 8 ==> #[trigger] bytes::le_byte(
                    mem.words@[base + q] as int,
                    i,
                ) == seg_byte(b@, s, page as int, q * 8 + i),
            forall|k: int|
                0 <= k < w0.len() && !(base <= k < base + 512) ==> #[trigger] mem.words@[k]
                    == w0[k],
        decreases 512 - j,
    {
        let w: u64 = page_word(b, s, page, j as u64);
        mem.words[base + j] = w;
        j = j + 1;
    }
    assert forall|i: int| 0 <= i < 4096 implies #[trigger] mem_byte(mem.words@, f + i) == seg_byte(
        b@,
        s,
        page as int,
        i,
    ) by {
        let q = i / 8;
        assert((f + i) / 8 == base + q);
        assert((f + i) % 8 == i % 8);
        assert(bytes::le_byte(mem.words@[base + q] as int, i % 8) == seg_byte(
            b@,
            s,
            page as int,
            q * 8 + i % 8,
        ));
    }
}

/// A frame's contents are its 512 words.
proof fn lemma_filled_same(w0: Seq<u64>, w1: Seq<u64>, f: int, b: Seq<u8>, s: SegInfo, page: int)
    requires
        filled(w0, f, b, s, page),
        f % 4096 == 0,
        0 <= f,
        forall|k: int| f / 8 <= k < f / 8 + 512 ==> #[trigger] w1[k] == w0[k],
    ensures
        filled(w1, f, b, s, page),
{
    assert forall|i: int| 0 <= i < 4096 implies #[trigger] mem_byte(w1, f + i) == seg_byte(
        b,
        s,
        page,
        i,
    ) by {
        assert(mem_byte(w0, f + i) == seg_byte(b, s, page, i));
        assert(f / 8 <= (f + i) / 8 < f / 8 + 512);
    }
}

/// A placed page stays placed while the address space is only added to.
proof fn lemma_placed_stays(
    pre: &Kernel,
    k0: &Kernel,
    k1: &Kernel,
    root: int,
    b: Seq<u8>,
    s: SegInfo,
    page: int,
)
    requires
        placed(pre, k0, root, b, s, page),
        views::edited(&k0.pg.mem, &k0.fa, &k1.pg.mem, &k1.fa, root),
        paging::is_root(k0.pg.mem.seats@, root),
        0 <= s.vaddr as int / 4096 + page < PAGES,
        paging::places_kept(k0.pg.mem.seats@, k0.pg.mem.words@, k1.pg.mem.words@),
        paging::leaf(k1.pg.mem.words@, root, s.vaddr as int / 4096 + page) == paging::leaf(
            k0.pg.mem.words@,
            root,
            s.vaddr as int / 4096 + page,
        ),
    ensures
        placed(pre, k1, root, b, s, page),
{
    let e = paging::leaf(k0.pg.mem.words@, root, s.vaddr as int / 4096 + page)->0;
    let f = paging::addr(e);
    let w0 = k0.pg.mem.words@;
    let w1 = k1.pg.mem.words@;
    assert(frames::used(k0.fa.map@, f / 4096));
    assert(k1.fa.in_use(f));
    if k1.pg.mem.seats@.dom().contains(f) {
        assert(k0.pg.mem.seats@.dom().contains(f) || !k0.fa.in_use(f));
    }
    assert forall|q: int| f / 8 <= q < f / 8 + 512 implies #[trigger] w1[q] == w0[q] by {
        assert(q / 512 == f / 4096);
        assert(q / 512 * 4096 == f);
    }
    lemma_filled_same(w0, w1, f, b, s, page);
    paging::lemma_pte_stays(k0.pg.mem.seats@, w0, w1, root, s.vaddr as int / 4096 + page);
}

/// Page `v` of `root` was paid for: its frame, and the tables it needed.
pub open spec fn page_paid(pre: &Kernel, post: &Kernel, root: int, v: int) -> bool {
    &&& post.fa.available() == pre.fa.available() - 1 - paging::missing(
        pre.pg.mem.words@,
        root,
        v,
    )
    &&& paging::missing(post.pg.mem.words@, root, v) == 0
    &&& needs::nearer(&pre.pg.mem, &post.pg.mem, root, v, 0)
}

/// The pages of the first `n` segments, in order.
pub open spec fn image_pages(segs: Seq<SegInfo>, n: int) -> Seq<int>
    decreases n,
{
    if n <= 0 {
        Seq::empty()
    } else {
        image_pages(segs, n - 1) + needs::run_of(
            segs[n - 1].vaddr as int / 4096,
            segs[n - 1].pages(),
        )
    }
}

/// The pages of the first `n` segments, and `q` pages of the next one.
#[verifier::opaque]
pub open spec fn pages_to(segs: Seq<SegInfo>, n: int, q: int) -> Seq<int> {
    image_pages(segs, n) + needs::run_of(segs[n].vaddr as int / 4096, q)
}

/// What loading `pages` into `root`, in order, takes: a frame for each, and one
/// for every table that is added.
#[verifier::opaque]
pub open spec fn load_cost(pre: &Kernel, root: int, pages: Seq<int>) -> int {
    pages.len() + needs::tables_for(pre.pg.mem.words@, root, pages, pages.len() as int)
}

/// What loading an image takes in an address space that has none of its tables.
pub open spec fn fresh_cost(segs: Seq<SegInfo>) -> int {
    let pages = image_pages(segs, segs.len() as int);
    pages.len() + needs::tables_alone(pages, pages.len() as int)
}

/// `pages` were loaded into `root`, and nothing else was spent.
#[verifier::opaque]
pub open spec fn paid_for(pre: &Kernel, k: &Kernel, root: int, pages: Seq<int>) -> bool {
    &&& needs::brought(&pre.pg.mem, &k.pg.mem, root, pages, pages.len() as int)
    &&& k.fa.available() == pre.fa.available() - load_cost(pre, root, pages)
}

proof fn lemma_paid_none(k: &Kernel, root: int)
    ensures
        paid_for(k, k, root, Seq::empty()),
{
    reveal(paid_for);
    reveal(load_cost);
    needs::lemma_brought_none(&k.pg.mem, root, Seq::empty());
}

proof fn lemma_paid_seen(pre: &Kernel, k: &Kernel, root: int, pages: Seq<int>)
    requires
        paid_for(pre, k, root, pages),
    ensures
        k.fa.available() == pre.fa.available() - load_cost(pre, root, pages),
{
    reveal(paid_for);
}

/// One page more, and what it takes.
proof fn lemma_paid_next(
    pre: &Kernel,
    k1: &Kernel,
    k2: &Kernel,
    root: int,
    pages: Seq<int>,
    v: int,
)
    requires
        paid_for(pre, k1, root, pages),
        paging::seats_kept(&pre.pg.mem, &k1.pg.mem),
        paging::editable(pre.pg.mem.seats@, root, v),
        0 <= v < PAGES,
    ensures
        load_cost(pre, root, pages.push(v)) == load_cost(pre, root, pages) + 1 + paging::missing(
            k1.pg.mem.words@,
            root,
            v,
        ),
        page_paid(k1, k2, root, v) ==> paid_for(pre, k2, root, pages.push(v)),
{
    reveal(paid_for);
    reveal(load_cost);
    let n = pages.len() as int;
    let more = pages.push(v);
    needs::lemma_tables_prefix(pre.pg.mem.words@, root, pages, more, n);
    needs::lemma_brought_prefix(&pre.pg.mem, &k1.pg.mem, root, pages, more, n);
    needs::lemma_brought_next(&pre.pg.mem, &k1.pg.mem, root, more, n);
    if page_paid(k1, k2, root, v) {
        needs::lemma_brought_one(&pre.pg.mem, &k1.pg.mem, &k2.pg.mem, root, more, n);
    }
}

/// The pages up to some page are the first of those of the image.
proof fn lemma_pages_first(segs: Seq<SegInfo>, n: int, q: int, m: int)
    requires
        0 <= n < m <= segs.len(),
        0 <= q <= segs[n].pages(),
    ensures
        pages_to(segs, n, q).len() <= image_pages(segs, m).len(),
        forall|i: int|
            0 <= i < pages_to(segs, n, q).len() ==> #[trigger] pages_to(segs, n, q)[i]
                == image_pages(segs, m)[i],
    decreases m,
{
    reveal(pages_to);
    let here = pages_to(segs, m - 1, segs[m - 1].pages());
    assert(image_pages(segs, m) == here);
    if n < m - 1 {
        lemma_pages_first(segs, n, q, m - 1);
        assert forall|i: int| 0 <= i < pages_to(segs, n, q).len() implies #[trigger] pages_to(
            segs,
            n,
            q,
        )[i] == here[i] by {
            assert(here[i] == image_pages(segs, m - 1)[i]);
        }
    } else {
        assert forall|i: int| 0 <= i < pages_to(segs, n, q).len() implies #[trigger] pages_to(
            segs,
            n,
            q,
        )[i] == here[i] by {
            if i < image_pages(segs, n).len() {
                assert(here[i] == image_pages(segs, n)[i]);
            }
        }
    }
}

/// No part of the image takes more than the whole.
proof fn lemma_cost_grows(pre: &Kernel, root: int, segs: Seq<SegInfo>, n: int, q: int)
    requires
        0 <= n < segs.len(),
        0 <= q <= segs[n].pages(),
    ensures
        load_cost(pre, root, pages_to(segs, n, q)) <= load_cost(
            pre,
            root,
            image_pages(segs, segs.len() as int),
        ),
{
    reveal(load_cost);
    let a = pages_to(segs, n, q);
    let b = image_pages(segs, segs.len() as int);
    lemma_pages_first(segs, n, q, segs.len() as int);
    needs::lemma_tables_prefix(pre.pg.mem.words@, root, a, b, a.len() as int);
    needs::lemma_tables_grow(
        pre.pg.mem.words@,
        root,
        b,
        a.len() as int,
        b.len() as int,
    );
}

/// The page after those up to page `q` of segment `n`.
proof fn lemma_pages_push(segs: Seq<SegInfo>, n: int, q: int)
    requires
        q >= 0,
    ensures
        pages_to(segs, n, q).push(segs[n].vaddr as int / 4096 + q) == pages_to(segs, n, q + 1),
        pages_to(segs, n, 0) == image_pages(segs, n),
        n >= 0 ==> pages_to(segs, n, segs[n].pages()) == image_pages(segs, n + 1),
{
    reveal(pages_to);
    assert(pages_to(segs, n, q).push(segs[n].vaddr as int / 4096 + q) =~= pages_to(
        segs,
        n,
        q + 1,
    ));
    assert(pages_to(segs, n, 0) =~= image_pages(segs, n));
}

/// Put page `page` of segment `s` into the address space `root`: a fresh
/// frame with the page's contents, mapped with the segment's permissions.
/// Answers with the error that the kernel stops on if the frames run out
/// under the tables.
#[verifier::rlimit(60)]
fn place_page(k: &mut Kernel, root: u64, b: &[u8], s: SegInfo, page: u64) -> (r: Result<
    (),
    &'static str,
>)
    requires
        old(k).wf(),
        views::process_root(&old(k).pg.mem, old(k).pg.kernel_root as int, root as int),
        s.offset + s.filesz <= b@.len(),
        s.vaddr % 4096 == 0,
        s.vaddr + page * 4096 < USER_HALF_LIMIT,
        !(s.writable() && s.executable()),
    ensures
        final(k).wf(),
        final(k).procs == old(k).procs,
        final(k).pg.kernel_root == old(k).pg.kernel_root,
        final(k).pg.live_root == old(k).pg.live_root,
        final(k).pg.apic_base == old(k).pg.apic_base,
        final(k).pg.skipped_high == old(k).pg.skipped_high,
        views::process_root(&final(k).pg.mem, final(k).pg.kernel_root as int, root as int),
        views::edited(
            &old(k).pg.mem,
            &old(k).fa,
            &final(k).pg.mem,
            &final(k).fa,
            root as int,
        ),
        paging::places_kept(
            old(k).pg.mem.seats@,
            old(k).pg.mem.words@,
            final(k).pg.mem.words@,
        ),
        r is Ok ==> {
            &&& placed(old(k), final(k), root as int, b@, s, page as int)
            &&& paging::leaf(
                old(k).pg.mem.words@,
                root as int,
                s.vaddr as int / 4096 + page,
            ) is None ==> accounts::charged(old(k), final(k), root as int)
            &&& page_paid(old(k), final(k), root as int, s.vaddr as int / 4096 + page)
            &&& forall|v: int|
                0 <= v < PAGES && v != s.vaddr as int / 4096 + page ==> #[trigger] paging::leaf(
                    final(k).pg.mem.words@,
                    root as int,
                    v,
                ) == paging::leaf(old(k).pg.mem.words@, root as int, v)
        },
        r matches Err(e) ==> {
            &&& e == "elf: out of frames" || e == "frames exhausted (window map)"
            &&& e == "elf: out of frames" <==> old(k).fa.available() == 0
            &&& e == "elf: out of frames" ==> *final(k) == *old(k)
            &&& e != "elf: out of frames" ==> final(k).fa.available() == 1
            &&& forall|v: int|
                0 <= v < PAGES ==> #[trigger] paging::leaf(
                    final(k).pg.mem.words@,
                    root as int,
                    v,
                ) == paging::leaf(old(k).pg.mem.words@, root as int, v)
            &&& old(k).fa.available() < 1 + paging::missing(
                old(k).pg.mem.words@,
                root as int,
                s.vaddr as int / 4096 + page,
            )
        },
{
    let ghost k0 = *k;
    let frame: u64 = match frames::alloc_frame(&mut k.fa) {
        None => {
            proof {
                views::lemma_edited_same(&k.pg.mem, &k.fa, root as int);
            }
            return Err("elf: out of frames");
        },
        Some(f) => f,
    };
    proof {
        assert(!frames::used(k0.fa.map@, frame as int / 4096));
        if k0.pg.mem.seats@.dom().contains(frame as int) {
            assert(k0.fa.in_use(frame as int));
        }
    }
    fill_page(&mut k.pg.mem, frame, b, s, page);
    let ghost k1 = *k;
    proof {
        paging::lemma_apart(
            k0.pg.mem.words@,
            k1.pg.mem.words@,
            k0.pg.mem.seats@,
            frame as int,
        );
        lemma_fresh_frame(&k0, &k1, root as int, frame as int);
        proc::lemma_grown_kernel(&k0, k);
    }
    let va: u64 = s.vaddr + page * PAGE;
    let writable: bool = s.flags & PF_W != 0;
    let exec: bool = s.flags & PF_X != 0;
    let ok: bool = proc::map_one(k, root, va, frame, writable, exec);
    let ghost k2 = *k;
    proof {
        assert(va as int / 4096 == s.vaddr as int / 4096 + page);
        needs::lemma_needs_same(&k0.pg.mem, &k1.pg.mem, root as int, va as int / 4096);
        views::lemma_edited_edited(
            &k0.pg.mem,
            &k0.fa,
            &k1.pg.mem,
            &k1.fa,
            &k2.pg.mem,
            &k2.fa,
            root as int,
        );
    }
    if !ok {
        proof {
            if k2.pg.mem.seats@.dom().contains(frame as int) {
                assert(k1.pg.mem.seats@.dom().contains(frame as int) || !k1.fa.in_use(
                    frame as int,
                ));
            }
            assert(frames::used(k1.fa.map@, frame as int / 4096));
            assert(k2.fa.in_use(frame as int));
        }
        let _ = frames::free(&mut k.fa, frame);
        proof {
            paging::lemma_wf_free(&k2.pg.mem, &k2.fa, &k.fa, frame as int);
            proc::lemma_grown_kernel(&k2, k);
            lemma_frame_back(&k0, &k2, k, root as int, frame as int);
            paging::lemma_places_places(&k0.pg.mem, &k1.pg.mem, &k2.pg.mem);
            assert forall|v: int| 0 <= v < PAGES implies #[trigger] paging::leaf(
                k.pg.mem.words@,
                root as int,
                v,
            ) == paging::leaf(k0.pg.mem.words@, root as int, v) by {
                let v1 = views::view(k1.pg.mem.words@, root as int);
                let v2 = views::view(k2.pg.mem.words@, root as int);
                assert(v1.dom().contains(v) == v2.dom().contains(v));
                if v1.dom().contains(v) {
                    assert(v1[v] == v2[v]);
                }
                assert(paging::leaf(k1.pg.mem.words@, root as int, v) == paging::leaf(
                    k0.pg.mem.words@,
                    root as int,
                    v,
                ));
            }
            reveal_strlit("elf: out of frames");
            reveal_strlit("frames exhausted (window map)");
            assert("elf: out of frames"@.len() != "frames exhausted (window map)"@.len());
        }
        return Err("frames exhausted (window map)");
    }
    proof {
        if paging::leaf(
            k0.pg.mem.words@,
            root as int,
            s.vaddr as int / 4096 + page,
        ) is None {
            assert(va as int / 4096 == s.vaddr as int / 4096 + page);
            accounts::lemma_charged_page(&k0, &k1, &k2, root, va, frame, writable, exec);
        }
        needs::lemma_nearer_filled(
            &k0.pg.mem,
            &k1.pg.mem,
            &k2.pg.mem,
            root as int,
            va as int / 4096,
        );
        lemma_placed_now(&k0, &k1, &k2, root as int, b@, s, page as int, frame);
        paging::lemma_places_places(&k0.pg.mem, &k1.pg.mem, &k2.pg.mem);
    }
    Ok(())
}

/// Giving back a frame that was taken on the way leaves an edit an edit.
proof fn lemma_frame_back(k0: &Kernel, k2: &Kernel, k3: &Kernel, root: int, f: int)
    requires
        views::edited(&k0.pg.mem, &k0.fa, &k2.pg.mem, &k2.fa, root),
        !frames::used(k0.fa.map@, f / 4096),
        frames::gave_back(&k2.fa, &k3.fa, f),
        k3.fa.same_pool(&k2.fa),
        k3.pg.mem == k2.pg.mem,
        k3.pg.mem.wf(&k3.fa),
    ensures
        views::edited(&k0.pg.mem, &k0.fa, &k3.pg.mem, &k3.fa, root),
{
    assert forall|j: int|
        0 <= j < frames::FRAME_COUNT && #[trigger] frames::used(
            k0.fa.map@,
            j,
        ) implies frames::used(k3.fa.map@, j) by {
        assert(frames::used(k2.fa.map@, j));
        assert(j != f / 4096);
    }
}

/// Taking a frame and filling it adds to the address space.
proof fn lemma_fresh_frame(k0: &Kernel, k1: &Kernel, root: int, f: int)
    requires
        k0.wf(),
        frames::took(&k0.fa, &k1.fa, f),
        k1.fa.wf(),
        k1.fa.same_pool(&k0.fa),
        !k0.pg.mem.seats@.dom().contains(f),
        k1.pg.mem.seats@ == k0.pg.mem.seats@,
        k1.pg.mem.words@.len() == k0.pg.mem.words@.len(),
        paging::tables_wf(k1.pg.mem.words@, k1.pg.mem.seats@),
        forall|q: int|
            0 <= q < k0.pg.mem.words@.len() && !(f / 8 <= q < f / 8 + 512)
                ==> #[trigger] k1.pg.mem.words@[q] == k0.pg.mem.words@[q],
        forall|r: int, v: int|
            paging::is_root(k0.pg.mem.seats@, r) && 0 <= v < PAGES ==> #[trigger] paging::leaf(
                k1.pg.mem.words@,
                r,
                v,
            ) == paging::leaf(k0.pg.mem.words@, r, v),
    ensures
        views::edited(&k0.pg.mem, &k0.fa, &k1.pg.mem, &k1.fa, root),
{
    let m0 = &k0.pg.mem;
    let m1 = &k1.pg.mem;
    assert forall|j: int|
        0 <= j < frames::FRAME_COUNT && #[trigger] frames::used(
            k0.fa.map@,
            j,
        ) implies frames::used(k1.fa.map@, j) by {
        if j != f / 4096 {
            assert(frames::used(k0.fa.map@, j) == frames::used(k1.fa.map@, j));
        }
    }
    assert forall|t: int| #[trigger] m1.seats@.dom().contains(t) implies k1.fa.in_use(t) by {
        assert(m0.seats@.dom().contains(t));
        assert(paging::is_table(m0.words@, m0.seats@, t));
        assert(frames::used(k0.fa.map@, t / 4096));
    }
    assert forall|j: int|
        0 <= j < frames::FRAME_COUNT && !#[trigger] frames::used(k1.fa.map@, j) implies (j + 1)
        * 512 <= m1.words@.len() by {
        assert(!frames::used(k0.fa.map@, j));
    }
    assert forall|q: int| #![trigger m1.words@[q]]
        0 <= q < m0.words@.len() && frames::used(k0.fa.map@, q / 512) && !m0.seats@.dom().contains(
            q / 512 * 4096,
        ) && q / 512 < frames::FRAME_COUNT implies m1.words@[q] == m0.words@[q] by {
        if f / 8 <= q < f / 8 + 512 {
            assert(q / 512 == f / 4096);
        }
    }
}

/// The page that was just mapped is placed.
proof fn lemma_placed_now(
    k0: &Kernel,
    k1: &Kernel,
    k2: &Kernel,
    root: int,
    b: Seq<u8>,
    s: SegInfo,
    page: int,
    frame: u64,
)
    requires
        k1.wf(),
        frames::took(&k0.fa, &k1.fa, frame as int),
        !k1.pg.mem.seats@.dom().contains(frame as int),
        frame / 8 + 512 <= k1.pg.mem.words@.len(),
        filled(k1.pg.mem.words@, frame as int, b, s, page),
        !(s.writable() && s.executable()),
        paging::mapped(
            &k1.pg.mem,
            &k1.fa,
            &k2.pg.mem,
            &k2.fa,
            root,
            s.vaddr as int / 4096 + page,
            paging::user_entry(frame, s.writable(), s.executable()),
        ),
    ensures
        placed(k0, k2, root, b, s, page),
{
    let f = frame as int;
    paging::law_user_pages_w_xor_x(frame, s.writable(), s.executable());
    let w1 = k1.pg.mem.words@;
    let w2 = k2.pg.mem.words@;
    assert(frames::used(k1.fa.map@, f / 4096));
    if k2.pg.mem.seats@.dom().contains(f) {
        assert(k1.pg.mem.seats@.dom().contains(f) || !k1.fa.in_use(f));
    }
    assert forall|q: int| f / 8 <= q < f / 8 + 512 implies #[trigger] w2[q] == w1[q] by {
        assert(q / 512 == f / 4096);
        assert(q / 512 * 4096 == f);
    }
    lemma_filled_same(w1, w2, f, b, s, page);
}

/// Page `v` of `root` holds a page already.
pub open spec fn taken(m: &PhysMem, root: int, v: int) -> bool {
    paging::pte_at(m.words@, root, v) is Some
}

/// A page with a 4 KiB entry is translated.
proof fn lemma_taken_leaf(words: Seq<u64>, root: int, v: int)
    ensures
        paging::pte_at(words, root, v) is Some ==> paging::pte_at(words, root, v) == paging::leaf(
            words,
            root,
            v,
        ),
{
}

/// A page that was taken is taken still, if its translation is the same.
proof fn lemma_still_taken(pre: &Kernel, k: &Kernel, root: int, v: int)
    requires
        paging::is_root(pre.pg.mem.seats@, root),
        0 <= v < PAGES,
        paging::places_kept(pre.pg.mem.seats@, pre.pg.mem.words@, k.pg.mem.words@),
        paging::leaf(k.pg.mem.words@, root, v) == paging::leaf(pre.pg.mem.words@, root, v),
    ensures
        taken(&pre.pg.mem, root, v) ==> taken(&k.pg.mem, root, v),
{
    assert(paging::pte_slot(pre.pg.mem.words@, root, v) is Some ==> paging::pte_slot(
        k.pg.mem.words@,
        root,
        v,
    ) == paging::pte_slot(pre.pg.mem.words@, root, v));
}

/// A page of the image is taken in `m`.
pub open spec fn meets_taken(m: &PhysMem, root: int, segs: Seq<SegInfo>) -> bool {
    exists|i: int, q: int|
        0 <= i < segs.len() && 0 <= q < segs[i].pages() && #[trigger] taken(
            m,
            root,
            segs[i].vaddr as int / 4096 + q,
        )
}

/// Segments that do not overlap have no page in common.
proof fn lemma_pages_apart(b: Seq<u8>, segs: Seq<SegInfo>, n: int, page: int)
    requires
        sound(b, segs),
        0 <= n < segs.len(),
        0 <= page < segs[n].pages(),
    ensures
        !covered(segs, n, page, segs[n].vaddr as int / 4096 + page),
        0 <= segs[n].vaddr as int / 4096 + page < paging::USER_PAGES,
        segs[n].vaddr + page * 4096 < segs[n].end(),
{
    let s = segs[n];
    let v = s.vaddr as int / 4096 + page;
    bits::lemma_ceil_div(s.memsz as int, 4096);
    assert(v * 4096 == s.vaddr + page * 4096);
    assert(v * 4096 < s.end());
    assert forall|i: int| 0 <= i < n implies !in_pages(#[trigger] segs[i], segs[i].pages(), v) by {
        let o = segs[i];
        bits::lemma_ceil_div(o.memsz as int, 4096);
        assert(!segs[n].overlaps(segs[i]));
        if in_pages(o, o.pages(), v) {
            assert(o.vaddr <= v * 4096 < o.end() + 4096);
            assert(v * 4096 < o.end());
        }
    }
}

/// Going on by one page.
#[verifier::rlimit(60)]
proof fn lemma_load_step(
    pre: &Kernel,
    k0: &Kernel,
    k1: &Kernel,
    root: int,
    b: Seq<u8>,
    segs: Seq<SegInfo>,
    n: int,
    page: int,
)
    requires
        sound(b, segs),
        0 <= n < segs.len(),
        0 <= page < segs[n].pages(),
        pre.wf(),
        views::edited(&pre.pg.mem, &pre.fa, &k0.pg.mem, &k0.fa, root),
        views::edited(&k0.pg.mem, &k0.fa, &k1.pg.mem, &k1.fa, root),
        paging::is_root(k0.pg.mem.seats@, root),
        paging::places_kept(k0.pg.mem.seats@, k0.pg.mem.words@, k1.pg.mem.words@),
        loaded(pre, k0, root, b, segs, n, page),
        placed(k0, k1, root, b, segs[n], page),
        forall|v: int|
            0 <= v < PAGES && v != segs[n].vaddr as int / 4096 + page ==> #[trigger] paging::leaf(
                k1.pg.mem.words@,
                root,
                v,
            ) == paging::leaf(k0.pg.mem.words@, root, v),
    ensures
        loaded(pre, k1, root, b, segs, n, page + 1),
{
    reveal(loaded);
    let s = segs[n];
    let v0 = s.vaddr as int / 4096 + page;
    lemma_pages_apart(b, segs, n, page);
    let e = paging::leaf(k1.pg.mem.words@, root, v0)->0;
    let f = paging::addr(e);
    assert(!pre.fa.in_use(f)) by {
        if frames::used(pre.fa.map@, f / 4096) {
            assert(frames::used(k0.fa.map@, f / 4096));
        }
    }
    assert(placed(pre, k1, root, b, s, page));
    assert forall|i: int, q: int| 0 <= i < n && 0 <= q < segs[i].pages() implies #[trigger] placed(
        pre,
        k1,
        root,
        b,
        segs[i],
        q,
    ) by {
        assert(placed(pre, k0, root, b, segs[i], q));
        let v = segs[i].vaddr as int / 4096 + q;
        assert(in_pages(segs[i], segs[i].pages(), v));
        lemma_seg_pages(b, segs, i, q);
        assert(v != v0);
        lemma_placed_stays(pre, k0, k1, root, b, segs[i], q);
    }
    assert forall|q: int| 0 <= q < page + 1 implies #[trigger] placed(pre, k1, root, b, s, q) by {
        if q < page {
            assert(placed(pre, k0, root, b, s, q));
            lemma_seg_pages(b, segs, n, q);
            lemma_placed_stays(pre, k0, k1, root, b, s, q);
        }
    }
    assert forall|v: int| 0 <= v < PAGES && !covered(segs, n, page + 1, v) implies #[trigger] paging::leaf(
        k1.pg.mem.words@,
        root,
        v,
    ) == paging::leaf(pre.pg.mem.words@, root, v) by {
        assert(!covered(segs, n, page, v));
        assert(v != v0);
        assert(paging::leaf(k0.pg.mem.words@, root, v) == paging::leaf(
            pre.pg.mem.words@,
            root,
            v,
        ));
    }
    assert forall|v: int, w: int|
        0 <= v < w < PAGES && covered(segs, n, page + 1, v) && covered(
            segs,
            n,
            page + 1,
            w,
        ) implies paging::addr(#[trigger] paging::leaf(k1.pg.mem.words@, root, v)->0)
        != paging::addr(#[trigger] paging::leaf(k1.pg.mem.words@, root, w)->0) by {
        if v != v0 {
            assert(covered(segs, n, page, v));
            lemma_covered_used(pre, k0, root, b, segs, n, page, v);
        }
        if w != v0 {
            assert(covered(segs, n, page, w));
            lemma_covered_used(pre, k0, root, b, segs, n, page, w);
        }
        if v != v0 && w != v0 {
            assert(paging::addr(paging::leaf(k0.pg.mem.words@, root, v)->0) != paging::addr(
                paging::leaf(k0.pg.mem.words@, root, w)->0,
            ));
        }
    }
}

/// What was loaded stays loaded while no translation changes.
proof fn lemma_load_stays(
    pre: &Kernel,
    k0: &Kernel,
    k1: &Kernel,
    root: int,
    b: Seq<u8>,
    segs: Seq<SegInfo>,
    n: int,
    page: int,
)
    requires
        sound(b, segs),
        0 <= n < segs.len(),
        0 <= page < segs[n].pages(),
        views::edited(&k0.pg.mem, &k0.fa, &k1.pg.mem, &k1.fa, root),
        paging::is_root(k0.pg.mem.seats@, root),
        paging::places_kept(k0.pg.mem.seats@, k0.pg.mem.words@, k1.pg.mem.words@),
        loaded(pre, k0, root, b, segs, n, page),
        forall|v: int|
            0 <= v < PAGES ==> #[trigger] paging::leaf(k1.pg.mem.words@, root, v) == paging::leaf(
                k0.pg.mem.words@,
                root,
                v,
            ),
    ensures
        loaded(pre, k1, root, b, segs, n, page),
{
    reveal(loaded);
    assert forall|i: int, q: int| 0 <= i < n && 0 <= q < segs[i].pages() implies #[trigger] placed(
        pre,
        k1,
        root,
        b,
        segs[i],
        q,
    ) by {
        assert(placed(pre, k0, root, b, segs[i], q));
        lemma_seg_pages(b, segs, i, q);
        lemma_placed_stays(pre, k0, k1, root, b, segs[i], q);
    }
    assert forall|q: int| 0 <= q < page implies #[trigger] placed(pre, k1, root, b, segs[n], q) by {
        assert(placed(pre, k0, root, b, segs[n], q));
        lemma_seg_pages(b, segs, n, q);
        lemma_placed_stays(pre, k0, k1, root, b, segs[n], q);
    }
}

proof fn lemma_seg_pages(b: Seq<u8>, segs: Seq<SegInfo>, i: int, q: int)
    requires
        sound(b, segs),
        0 <= i < segs.len(),
        0 <= q < segs[i].pages(),
    ensures
        0 <= segs[i].vaddr as int / 4096 + q < PAGES,
{
    let s = segs[i];
    bits::lemma_ceil_div(s.memsz as int, 4096);
}

/// A loaded page sits on a frame in use.
proof fn lemma_covered_used(
    pre: &Kernel,
    k: &Kernel,
    root: int,
    b: Seq<u8>,
    segs: Seq<SegInfo>,
    n: int,
    page: int,
    v: int,
)
    requires
        loaded(pre, k, root, b, segs, n, page),
        covered(segs, n, page, v),
        n <= segs.len(),
    ensures
        paging::leaf(k.pg.mem.words@, root, v) matches Some(e) && k.fa.in_use(paging::addr(e)),
{
    reveal(loaded);
    if exists|i: int| 0 <= i < n && in_pages(#[trigger] segs[i], segs[i].pages(), v) {
        let i = choose|i: int| 0 <= i < n && in_pages(#[trigger] segs[i], segs[i].pages(), v);
        let q = v - segs[i].vaddr as int / 4096;
        assert(placed(pre, k, root, b, segs[i], q));
    } else {
        let q = v - segs[n].vaddr as int / 4096;
        assert(placed(pre, k, root, b, segs[n], q));
    }
}

/// Going on to the next segment.
proof fn lemma_load_next(
    pre: &Kernel,
    k: &Kernel,
    root: int,
    b: Seq<u8>,
    segs: Seq<SegInfo>,
    n: int,
)
    requires
        sound(b, segs),
        0 <= n < segs.len(),
        loaded(pre, k, root, b, segs, n, segs[n].pages()),
    ensures
        loaded(pre, k, root, b, segs, n + 1, 0),
{
    reveal(loaded);
    assert forall|v: int| covered(segs, n + 1, 0, v) <==> covered(
        segs,
        n,
        segs[n].pages(),
        v,
    ) by {
        if covered(segs, n, segs[n].pages(), v) {
            if in_pages(segs[n], segs[n].pages(), v) {
                assert(in_pages(segs[n], segs[n].pages(), v));
            } else {
                let i = choose|i: int|
                    0 <= i < n && in_pages(#[trigger] segs[i], segs[i].pages(), v);
                assert(in_pages(segs[i], segs[i].pages(), v));
            }
        }
        if covered(segs, n + 1, 0, v) {
            let i = choose|i: int|
                0 <= i < n + 1 && in_pages(#[trigger] segs[i], segs[i].pages(), v);
            assert(in_pages(segs[i], segs[i].pages(), v));
        }
    }
    assert forall|i: int, q: int|
        0 <= i < n + 1 && 0 <= q < segs[i].pages() implies #[trigger] placed(
        pre,
        k,
        root,
        b,
        segs[i],
        q,
    ) by {}
}

/// The page that comes next is as it was before loading began.
proof fn lemma_load_ahead(
    pre: &Kernel,
    k: &Kernel,
    root: int,
    b: Seq<u8>,
    segs: Seq<SegInfo>,
    n: int,
    page: int,
)
    requires
        sound(b, segs),
        0 <= n < segs.len(),
        0 <= page < segs[n].pages(),
        loaded(pre, k, root, b, segs, n, page),
    ensures
        ({
            let v = segs[n].vaddr as int / 4096 + page;
            let w0 = pre.pg.mem.words@;
            let w1 = k.pg.mem.words@;
            &&& 0 <= v < paging::USER_PAGES
            &&& paging::leaf(w1, root, v) == paging::leaf(w0, root, v)
            &&& paging::pte_at(w1, root, v) is Some ==> paging::leaf(w0, root, v) is Some
            &&& paging::pte_at(w0, root, v) is Some ==> paging::leaf(w1, root, v) is Some
            &&& segs[n].vaddr + page * 4096 < segs[n].end()
            &&& in_image(segs, v)
        }),
{
    reveal(loaded);
    let v = segs[n].vaddr as int / 4096 + page;
    lemma_pages_apart(b, segs, n, page);
    assert(paging::leaf(k.pg.mem.words@, root, v) == paging::leaf(pre.pg.mem.words@, root, v));
    lemma_taken_leaf(k.pg.mem.words@, root, v);
    lemma_taken_leaf(pre.pg.mem.words@, root, v);
    assert(in_pages(segs[n], segs[n].pages(), v));
}

/// No page of the image is mapped yet.
pub open spec fn chargeable(pre: &Kernel, root: int, segs: Seq<SegInfo>) -> bool {
    &&& forall|v: int|
        in_image(segs, v) ==> #[trigger] paging::leaf(pre.pg.mem.words@, root, v) is None
}

/// The image's pages all hang in one last-level table, which `root` does not
/// have yet, nor any table above it.
pub open spec fn compact(pre: &Kernel, root: int, segs: Seq<SegInfo>) -> bool {
    &&& segs.len() > 0
    &&& paging::missing(pre.pg.mem.words@, root, block_of(segs)) == 3
    &&& forall|v: int| #[trigger] in_image(segs, v) ==> v / 512 == block_of(segs) / 512
}

/// The first page of the first segment.
pub open spec fn block_of(segs: Seq<SegInfo>) -> int {
    segs[0].vaddr as int / 4096
}

/// After `done` pages of a compact image: a frame each, and three tables.
pub open spec fn compact_cost(pre: &Kernel, k: &Kernel, root: int, segs: Seq<SegInfo>, done: int) -> bool {
    &&& k.fa.available() == pre.fa.available() - done - (if done > 0 {
        3int
    } else {
        0int
    })
    &&& paging::missing(k.pg.mem.words@, root, block_of(segs)) == (if done > 0 {
        0int
    } else {
        3int
    })
}

/// What loading has done so far to the kernel.
pub open spec fn load_frame(pre: &Kernel, k: &Kernel, root: int) -> bool {
    &&& k.wf()
    &&& k.procs == pre.procs
    &&& k.pg.kernel_root == pre.pg.kernel_root
    &&& k.pg.live_root == pre.pg.live_root
    &&& k.pg.apic_base == pre.pg.apic_base
    &&& k.pg.skipped_high == pre.pg.skipped_high
    &&& views::process_root(&k.pg.mem, k.pg.kernel_root as int, root)
    &&& views::others_kept(&pre.pg.mem, &k.pg.mem, root)
}

/// What page `q` of segment `n` takes.
proof fn lemma_paid_page(
    pre: &Kernel,
    k1: &Kernel,
    k2: &Kernel,
    root: int,
    segs: Seq<SegInfo>,
    n: int,
    q: int,
)
    requires
        paid_for(pre, k1, root, pages_to(segs, n, q)),
        paging::seats_kept(&pre.pg.mem, &k1.pg.mem),
        paging::is_root(pre.pg.mem.seats@, root),
        paging::tables_wf(pre.pg.mem.words@, pre.pg.mem.seats@),
        0 <= segs[n].vaddr as int / 4096 + q < paging::USER_PAGES,
        q >= 0,
    ensures
        ({
            let v = segs[n].vaddr as int / 4096 + q;
            let need = 1 + paging::missing(k1.pg.mem.words@, root, v);
            let cost = load_cost(pre, root, pages_to(segs, n, q));
            &&& load_cost(pre, root, pages_to(segs, n, q + 1)) == cost + need
            &&& k1.fa.available() == pre.fa.available() - cost
            &&& k1.fa.available() >= 0
            &&& page_paid(k1, k2, root, v) ==> paid_for(
                pre,
                k2,
                root,
                pages_to(segs, n, q + 1),
            )
        }),
{
    let v = segs[n].vaddr as int / 4096 + q;
    assert(paging::is_table(pre.pg.mem.words@, pre.pg.mem.seats@, root));
    lemma_paid_seen(pre, k1, root, pages_to(segs, n, q));
    lemma_paid_next(pre, k1, k2, root, pages_to(segs, n, q), v);
    lemma_pages_push(segs, n, q);
    frames::lemma_free_bounds(k1.fa.map@, frames::FRAME_COUNT as int);
}

/// Load page `q` of segment `n`.
#[verifier::rlimit(40)]
fn load_page(
    k: &mut Kernel,
    root: u64,
    b: &[u8],
    s: SegInfo,
    q: u64,
    Ghost(pre): Ghost<Kernel>,
    Ghost(segs): Ghost<Seq<SegInfo>>,
    Ghost(n): Ghost<int>,
) -> (r: Result<(), &'static str>)
    requires
        pre.wf(),
        paging::is_root(pre.pg.mem.seats@, root as int),
        paging::places_kept(pre.pg.mem.seats@, pre.pg.mem.words@, old(k).pg.mem.words@),
        sound(b@, segs),
        0 <= n < segs.len(),
        segs[n] == s,
        q < s.pages(),
        load_frame(&pre, old(k), root as int),
        views::edited(&pre.pg.mem, &pre.fa, &old(k).pg.mem, &old(k).fa, root as int),
        loaded(&pre, old(k), root as int, b@, segs, n, q as int),
        chargeable(&pre, root as int, segs) ==> accounts::charged(&pre, old(k), root as int),
        paid_for(&pre, old(k), root as int, pages_to(segs, n, q as int)),
    ensures
        load_frame(&pre, final(k), root as int),
        r is Ok && chargeable(&pre, root as int, segs) ==> accounts::charged(
            &pre,
            final(k),
            root as int,
        ),
        r is Ok ==> paid_for(&pre, final(k), root as int, pages_to(segs, n, q + 1)),
        r is Err && chargeable(&pre, root as int, segs) ==> pre.fa.available() < load_cost(
            &pre,
            root as int,
            pages_to(segs, n, q + 1),
        ),
        r is Ok ==> page_paid(old(k), final(k), root as int, s.vaddr as int / 4096 + q),
        taken(&old(k).pg.mem, root as int, s.vaddr as int / 4096 + q) ==> r == Err::<
            (),
            &'static str,
        >("elf: va already mapped in target (overlapping load?)") && *final(k) == *old(k),
        r is Ok ==> {
            &&& views::edited(
                &pre.pg.mem,
                &pre.fa,
                &final(k).pg.mem,
                &final(k).fa,
                root as int,
            )
            &&& loaded(&pre, final(k), root as int, b@, segs, n, q + 1)
            &&& paging::places_kept(
                pre.pg.mem.seats@,
                pre.pg.mem.words@,
                final(k).pg.mem.words@,
            )
            &&& !taken(&pre.pg.mem, root as int, s.vaddr as int / 4096 + q)
        },
        r matches Err(e) ==> broken_off(&pre, final(k), root as int, b@, segs, e),
        r is Err && chargeable(&pre, root as int, segs) ==> old(k).fa.available() < 1
            + paging::missing(old(k).pg.mem.words@, root as int, s.vaddr as int / 4096 + q),
{
    let ghost k0 = *k;
    let ghost v = s.vaddr as int / 4096 + q;
    proof {
        lemma_load_ahead(&pre, k, root as int, b@, segs, n, q as int);
    }
    let va: u64 = s.vaddr + q * PAGE;
    assert(paging::page_no(va as int) == v);
    if paging::user_pte_flags(&k.pg.mem, root, va).is_some() {
        assert(broke_off(
            &pre,
            k,
            root as int,
            b@,
            segs,
            n,
            q as int,
            "elf: va already mapped in target (overlapping load?)",
        ));
        return Err("elf: va already mapped in target (overlapping load?)");
    }
    match place_page(k, root, b, s, q) {
        Err(e) => {
            proof {
                lemma_paid_page(&pre, &k0, k, root as int, segs, n, q as int);
                views::lemma_edited_edited(
                    &pre.pg.mem,
                    &pre.fa,
                    &k0.pg.mem,
                    &k0.fa,
                    &k.pg.mem,
                    &k.fa,
                    root as int,
                );
                lemma_load_stays(&pre, &k0, k, root as int, b@, segs, n, q as int);
                lemma_still_taken(&pre, &k0, root as int, v);
                assert(broke_off(&pre, k, root as int, b@, segs, n, q as int, e));
            }
            Err(e)
        },
        Ok(_) => {
            proof {
                views::lemma_edited_edited(
                    &pre.pg.mem,
                    &pre.fa,
                    &k0.pg.mem,
                    &k0.fa,
                    &k.pg.mem,
                    &k.fa,
                    root as int,
                );
                lemma_paid_page(&pre, &k0, k, root as int, segs, n, q as int);
                if chargeable(&pre, root as int, segs) {
                    accounts::lemma_charged_charged(&pre, &k0, k, root as int);
                }
                lemma_load_step(&pre, &k0, k, root as int, b@, segs, n, q as int);
                paging::lemma_places_places(&pre.pg.mem, &k0.pg.mem, &k.pg.mem);
                lemma_still_taken(&pre, &k0, root as int, v);
            }
            Ok(())
        },
    }
}

proof fn lemma_pages_below(segs: Seq<SegInfo>, n: int)
    ensures
        pages_below(segs, n) >= 0,
    decreases n,
{
    if n > 0 {
        lemma_pages_below(segs, n - 1);
        bits::lemma_ceil_div(segs[n - 1].memsz as int, 4096);
    }
}

proof fn lemma_pages_le(segs: Seq<SegInfo>, n: int, m: int)
    requires
        0 <= n <= m,
    ensures
        pages_below(segs, n) <= pages_below(segs, m),
    decreases m,
{
    if n < m {
        lemma_pages_le(segs, n, m - 1);
        bits::lemma_ceil_div(segs[m - 1].memsz as int, 4096);
    }
}

/// Load the pages of segment `n`.
fn load_segment(
    k: &mut Kernel,
    root: u64,
    b: &[u8],
    s: SegInfo,
    Ghost(pre): Ghost<Kernel>,
    Ghost(segs): Ghost<Seq<SegInfo>>,
    Ghost(n): Ghost<int>,
) -> (r: Result<u64, &'static str>)
    requires
        pre.wf(),
        paging::is_root(pre.pg.mem.seats@, root as int),
        paging::places_kept(pre.pg.mem.seats@, pre.pg.mem.words@, old(k).pg.mem.words@),
        sound(b@, segs),
        0 <= n < segs.len(),
        segs[n] == s,
        load_frame(&pre, old(k), root as int),
        views::edited(&pre.pg.mem, &pre.fa, &old(k).pg.mem, &old(k).fa, root as int),
        loaded(&pre, old(k), root as int, b@, segs, n, 0),
        chargeable(&pre, root as int, segs) ==> accounts::charged(&pre, old(k), root as int),
        compact(&pre, root as int, segs) ==> compact_cost(
            &pre,
            old(k),
            root as int,
            segs,
            pages_below(segs, n),
        ),
        paid_for(&pre, old(k), root as int, image_pages(segs, n)),
        forall|i: int, q: int|
            0 <= i < n && 0 <= q < segs[i].pages() ==> !#[trigger] taken(
                &pre.pg.mem,
                root as int,
                segs[i].vaddr as int / 4096 + q,
            ),
    ensures
        load_frame(&pre, final(k), root as int),
        r is Ok && chargeable(&pre, root as int, segs) ==> accounts::charged(
            &pre,
            final(k),
            root as int,
        ),
        r is Ok && compact(&pre, root as int, segs) ==> compact_cost(
            &pre,
            final(k),
            root as int,
            segs,
            pages_below(segs, n + 1),
        ),
        r is Ok ==> paid_for(&pre, final(k), root as int, image_pages(segs, n + 1)),
        taken(&old(k).pg.mem, root as int, s.vaddr as int / 4096) && s.memsz > 0 ==> r is Err
            && *final(k) == *old(k),
        r matches Ok(p) ==> {
            &&& p == s.pages()
            &&& views::edited(
                &pre.pg.mem,
                &pre.fa,
                &final(k).pg.mem,
                &final(k).fa,
                root as int,
            )
            &&& paging::places_kept(
                pre.pg.mem.seats@,
                pre.pg.mem.words@,
                final(k).pg.mem.words@,
            )
            &&& loaded(&pre, final(k), root as int, b@, segs, n + 1, 0)
            &&& forall|i: int, q: int|
                0 <= i < n + 1 && 0 <= q < segs[i].pages() ==> !#[trigger] taken(
                    &pre.pg.mem,
                    root as int,
                    segs[i].vaddr as int / 4096 + q,
                )
        },
        r matches Err(e) ==> broken_off(&pre, final(k), root as int, b@, segs, e),
        r is Err && chargeable(&pre, root as int, segs) && compact(&pre, root as int, segs)
            ==> pre.fa.available() < pages_below(segs, segs.len() as int) + 3,
        r is Err && chargeable(&pre, root as int, segs) ==> pre.fa.available() < load_cost(
            &pre,
            root as int,
            image_pages(segs, segs.len() as int),
        ),
{
    let npages: u64 = bits::div_ceil(s.memsz, PAGE);
    proof {
        bits::lemma_ceil_div(s.memsz as int, 4096);
        lemma_pages_below(segs, n);
        lemma_pages_push(segs, n, 0);
    }
    let mut q: u64 = 0;
    while q < npages
        invariant
            q <= npages,
            npages == s.pages(),
            npages <= 0x8_0000_0000,
            pre.wf(),
            paging::is_root(pre.pg.mem.seats@, root as int),
            sound(b@, segs),
            0 <= n < segs.len(),
            segs[n] == s,
            load_frame(&pre, k, root as int),
            paging::places_kept(pre.pg.mem.seats@, pre.pg.mem.words@, k.pg.mem.words@),
            views::edited(&pre.pg.mem, &pre.fa, &k.pg.mem, &k.fa, root as int),
            loaded(&pre, k, root as int, b@, segs, n, q as int),
            chargeable(&pre, root as int, segs) ==> accounts::charged(&pre, k, root as int),
            compact(&pre, root as int, segs) ==> compact_cost(
                &pre,
                k,
                root as int,
                segs,
                pages_below(segs, n) + q,
            ),
            paid_for(&pre, k, root as int, pages_to(segs, n, q as int)),
            pages_below(segs, n) >= 0,
            q == 0 ==> *k == *old(k),
            q > 0 ==> !taken(&old(k).pg.mem, root as int, s.vaddr as int / 4096),
            s.memsz > 0 ==> npages > 0,
            forall|i: int, x: int|
                0 <= i < n && 0 <= x < segs[i].pages() ==> !#[trigger] taken(
                    &pre.pg.mem,
                    root as int,
                    segs[i].vaddr as int / 4096 + x,
                ),
            forall|x: int|
                0 <= x < q ==> !#[trigger] taken(
                    &pre.pg.mem,
                    root as int,
                    s.vaddr as int / 4096 + x,
                ),
        decreases npages - q,
    {
        let ghost kq = *k;
        match load_page(k, root, b, s, q, Ghost(pre), Ghost(segs), Ghost(n)) {
            Err(e) => {
                proof {
                    lemma_pages_le(segs, n + 1, segs.len() as int);
                    lemma_cost_grows(&pre, root as int, segs, n, q + 1);
                    if compact(&pre, root as int, segs) {
                        let v = s.vaddr as int / 4096 + q;
                        assert(in_pages(segs[n], segs[n].pages(), v));
                        assert(in_image(segs, v));
                        accounts::lemma_same_table(
                            kq.pg.mem.words@,
                            root as int,
                            v,
                            block_of(segs),
                        );
                    }
                }
                return Err(e);
            },
            Ok(_) => {},
        }
        proof {
            if compact(&pre, root as int, segs) {
                let v = s.vaddr as int / 4096 + q;
                assert(in_pages(segs[n], segs[n].pages(), v));
                assert(in_image(segs, v));
                accounts::lemma_same_table(kq.pg.mem.words@, root as int, v, block_of(segs));
                accounts::lemma_same_table(k.pg.mem.words@, root as int, v, block_of(segs));
            }
        }
        q = q + 1;
    }
    proof {
        lemma_load_next(&pre, k, root as int, b@, segs, n);
        lemma_pages_push(segs, n, 0);
    }
    Ok(npages)
}

/// Page `v` is one of the image's.
pub open spec fn in_image(segs: Seq<SegInfo>, v: int) -> bool {
    exists|i: int| 0 <= i < segs.len() && in_pages(#[trigger] segs[i], segs[i].pages(), v)
}

proof fn lemma_page_of_image(segs: Seq<SegInfo>, n: int, i: int)
    requires
        0 <= n <= segs.len(),
        0 <= i < image_pages(segs, n).len(),
    ensures
        in_image(segs, image_pages(segs, n)[i]),
    decreases n,
{
    if n > 0 {
        let before = image_pages(segs, n - 1);
        if i < before.len() {
            lemma_page_of_image(segs, n - 1, i);
            assert(image_pages(segs, n)[i] == before[i]);
        } else {
            assert(in_pages(segs[n - 1], segs[n - 1].pages(), image_pages(segs, n)[i]));
        }
    }
}

/// What an image takes where none of its tables is there.
pub proof fn lemma_fresh_cost(pre: &Kernel, root: int, segs: Seq<SegInfo>)
    requires
        forall|v: int| #[trigger]
            in_image(segs, v) ==> paging::missing(pre.pg.mem.words@, root, v) == 3,
    ensures
        load_cost(pre, root, image_pages(segs, segs.len() as int)) == fresh_cost(segs),
{
    reveal(load_cost);
    let pages = image_pages(segs, segs.len() as int);
    assert forall|i: int| 0 <= i < pages.len() implies paging::missing(
        pre.pg.mem.words@,
        root,
        #[trigger] pages[i],
    ) == 3 by {
        lemma_page_of_image(segs, segs.len() as int, i);
    }
    needs::lemma_tables_alone(pre.pg.mem.words@, root, pages, pages.len() as int);
}

/// The pages of an image that is accepted lie in the user half.
pub proof fn lemma_image_pages(b: Seq<u8>, segs: Seq<SegInfo>, v: int)
    requires
        sound(b, segs),
        in_image(segs, v),
    ensures
        0 <= v < paging::USER_PAGES,
{
    let i = choose|i: int| 0 <= i < segs.len() && in_pages(#[trigger] segs[i], segs[i].pages(), v);
    lemma_pages_apart(b, segs, i, v - segs[i].vaddr as int / 4096);
}

/// The two answers of a load that the frames do not last for.
pub open spec fn out_of_frames(e: &'static str) -> bool {
    e == "elf: out of frames" || e == "frames exhausted (window map)"
}

/// A load broke off at page `q` of segment `n`, with the pages before it in
/// place: that page is mapped already, no frame is left for it, or none for a
/// table under it.
pub open spec fn broke_off(
    pre: &Kernel,
    k: &Kernel,
    root: int,
    b: Seq<u8>,
    segs: Seq<SegInfo>,
    n: int,
    q: int,
    e: &'static str,
) -> bool {
    let v = segs[n].vaddr as int / 4096 + q;
    &&& 0 <= n < segs.len()
    &&& 0 <= q < segs[n].pages()
    &&& in_image(segs, v)
    &&& loaded(pre, k, root, b, segs, n, q)
    &&& views::edited(&pre.pg.mem, &pre.fa, &k.pg.mem, &k.fa, root)
    &&& if e == "elf: va already mapped in target (overlapping load?)" {
        &&& taken(&k.pg.mem, root, v)
        &&& paging::leaf(pre.pg.mem.words@, root, v) is Some
    } else {
        &&& !taken(&pre.pg.mem, root, v)
        &&& out_of_frames(e)
        &&& k.fa.available() == (if e == "elf: out of frames" {
            0int
        } else {
            1int
        })
        &&& pre.fa.available() < load_cost(pre, root, pages_to(segs, n, q + 1))
        &&& if e == "elf: out of frames" {
            pre.fa.available() == load_cost(pre, root, pages_to(segs, n, q))
        } else {
            pre.fa.available() > load_cost(pre, root, pages_to(segs, n, q))
        }
    }
}

/// A load broke off at some page of the image.
pub open spec fn broken_off(
    pre: &Kernel,
    k: &Kernel,
    root: int,
    b: Seq<u8>,
    segs: Seq<SegInfo>,
    e: &'static str,
) -> bool {
    exists|n: int, q: int| #[trigger] broke_off(pre, k, root, b, segs, n, q, e)
}

/// Load an image into process `pid`: every page of every segment gets a fresh
/// frame with the segment's bytes and permissions. A page that is mapped
/// already, or a lack of frames, breaks the load off; pages before it stay.
/// Where no page is mapped yet, the frames that [`load_cost`] counts are enough.
/// The last error is one that the kernel stops on.
pub fn load(k: &mut Kernel, bytes: &[u8], pid: u64) -> (r: Result<LoadInfo, &'static str>)
    requires
        old(k).wf(),
    ensures
        final(k).wf(),
        match parsed(bytes@) {
            Err(e) => r is Err && r->Err_0 == e && *final(k) == *old(k),
            Ok((entry, segs)) => match proc::find(old(k).procs.slots@, pid) {
                None => r is Err && r->Err_0 == "elf: target process is dead" && *final(k) == *old(
                    k,
                ),
                Some(i) => {
                    let root = old(k).procs.slots@[i]->0.pml4_phys as int;
                    &&& load_frame(old(k), final(k), root)
                    &&& segs.len() > 0 && taken(
                        &old(k).pg.mem,
                        root,
                        block_of(segs),
                    ) ==> r is Err && *final(k) == *old(k)
                    &&& match r {
                        Ok(info) => {
                            &&& final(k).fa.available() == old(k).fa.available() - load_cost(
                                old(k),
                                root,
                                image_pages(segs, segs.len() as int),
                            )
                            &&& compact(old(k), root, segs) ==> compact_cost(
                                old(k),
                                final(k),
                                root,
                                segs,
                                info.pages as int,
                            )
                            &&& info.entry == entry
                            &&& info.pages == pages_below(segs, segs.len() as int)
                            &&& views::edited(
                                &old(k).pg.mem,
                                &old(k).fa,
                                &final(k).pg.mem,
                                &final(k).fa,
                                root,
                            )
                            &&& loaded(
                                old(k),
                                final(k),
                                root,
                                bytes@,
                                segs,
                                segs.len() as int,
                                0,
                            )
                            &&& !meets_taken(&old(k).pg.mem, root, segs)
                            &&& chargeable(old(k), root, segs) ==> accounts::charged(
                                old(k),
                                final(k),
                                root,
                            )
                        },
                        Err(e) => {
                            &&& broken_off(old(k), final(k), root, bytes@, segs, e)
                            &&& chargeable(old(k), root, segs) && compact(old(k), root, segs)
                                ==> old(k).fa.available() < pages_below(segs, segs.len() as int)
                                + 3
                            &&& chargeable(old(k), root, segs) ==> old(k).fa.available()
                                < load_cost(old(k), root, image_pages(segs, segs.len() as int))
                        },
                    }
                },
            },
        },
{
    let info: ImageInfo = match validate(bytes) {
        Err(e) => {
            return Err(e);
        },
        Ok(i) => i,
    };
    let root: u64 = match proc::pml4_of(&k.procs, pid) {
        None => {
            return Err("elf: target process is dead");
        },
        Some(x) => x,
    };
    let ghost pre = *k;
    let ghost segs = info.segments();
    let ghost rt = root as int;
    proof {
        law_accepted_images(bytes@);
        proc::lemma_find_bounds(k.procs.slots@, pid);
        let i = proc::find(k.procs.slots@, pid)->0;
        assert(k.procs.slots@[i] is Some);
        views::lemma_edited_same(&k.pg.mem, &k.fa, rt);
        accounts::lemma_charged_same(k, rt);
        lemma_paid_none(k, rt);
        assert(loaded(&pre, k, rt, bytes@, segs, 0, 0)) by {
            reveal(loaded);
        }
    }
    let mut pages: u64 = 0;
    let mut n: usize = 0;
    while n < info.nsegs
        invariant
            n <= info.nsegs,
            info.nsegs <= MAX_SEGMENTS,
            segs == info.segments(),
            segs.len() == info.nsegs,
            parsed(bytes@) matches Ok((entry, s)) && s == segs && entry == info.entry,
            rt == root,
            pre == *old(k),
            pre.wf(),
            paging::is_root(pre.pg.mem.seats@, rt),
            proc::find(pre.procs.slots@, pid) matches Some(i) && pre.procs.slots@[i]->0.pml4_phys
                == root,
            sound(bytes@, segs),
            load_frame(&pre, k, rt),
            paging::places_kept(pre.pg.mem.seats@, pre.pg.mem.words@, k.pg.mem.words@),
            views::edited(&pre.pg.mem, &pre.fa, &k.pg.mem, &k.fa, rt),
            loaded(&pre, k, rt, bytes@, segs, n as int, 0),
            chargeable(&pre, rt, segs) ==> accounts::charged(&pre, k, rt),
            compact(&pre, rt, segs) ==> compact_cost(&pre, k, rt, segs, pages_below(segs, n as int)),
            paid_for(&pre, k, rt, image_pages(segs, n as int)),
            n == 0 ==> *k == pre,
            n > 0 ==> !taken(&pre.pg.mem, rt, block_of(segs)),
            pages == pages_below(segs, n as int),
            pages <= n * 0x8_0000_0000,
            forall|i: int, q: int|
                0 <= i < n && 0 <= q < segs[i].pages() ==> !#[trigger] taken(
                    &pre.pg.mem,
                    rt,
                    segs[i].vaddr as int / 4096 + q,
                ),
        decreases info.nsegs - n,
    {
        let s = info.segs[n];
        assert(segs[n as int] == s);
        proof {
            bits::lemma_ceil_div(s.memsz as int, 4096);
        }
        match load_segment(k, root, bytes, s, Ghost(pre), Ghost(segs), Ghost(n as int)) {
            Err(e) => {
                return Err(e);
            },
            Ok(p) => {
                pages = pages + p;
            },
        }
        n = n + 1;
    }
    proof {
        lemma_paid_seen(&pre, k, rt, image_pages(segs, n as int));
    }
    Ok(LoadInfo { entry: info.entry, pages })
}

/// A loaded image can be read back through the process's own address space:
/// every byte of a segment is the file's, or zero past the file's part.
pub proof fn law_loaded_bytes(
    pre: Kernel,
    k: Kernel,
    root: int,
    b: Seq<u8>,
    segs: Seq<SegInfo>,
    i: int,
    off: int,
)
    requires
        sound(b, segs),
        0 <= i < segs.len(),
        0 <= off < segs[i].memsz,
        loaded(&pre, &k, root, b, segs, segs.len() as int, 0),
    ensures
        paging::leaf(k.pg.mem.words@, root, (segs[i].vaddr + off) / 4096) matches Some(e)
            && mem_byte(k.pg.mem.words@, paging::addr(e) + off % 4096) == (if off
            < segs[i].filesz {
            b[segs[i].offset + off]
        } else {
            0
        }) && paging::writable(e) == segs[i].writable() && paging::executable(e)
            == segs[i].executable(),
{
    reveal(loaded);
    let s = segs[i];
    let q = off / 4096;
    bits::lemma_ceil_div(s.memsz as int, 4096);
    assert(placed(&pre, &k, root, b, s, q));
    assert((s.vaddr + off) / 4096 == s.vaddr as int / 4096 + q);
    let e = paging::leaf(k.pg.mem.words@, root, s.vaddr as int / 4096 + q)->0;
    let f = paging::addr(e);
    assert(mem_byte(k.pg.mem.words@, f + off % 4096) == seg_byte(b, s, q, off % 4096));
    paging::law_user_pages_w_xor_x(f as u64, s.writable(), s.executable());
}

/// An image that was loaded is not loaded again: its first page is taken, so
/// the second load is refused, and nothing is spent on it.
pub proof fn law_second_load_is_refused(pre: Kernel, k: Kernel, root: int, b: Seq<u8>)
    requires
        parsed(b) matches Ok((_, segs)) && loaded(&pre, &k, root, b, segs, segs.len() as int, 0),
    ensures
        ({
            let segs = parsed(b)->Ok_0.1;
            &&& segs.len() > 0
            &&& taken(&k.pg.mem, root, block_of(segs))
        }),
{
    reveal(loaded);
    law_accepted_images(b);
    let segs = parsed(b)->Ok_0.1;
    bits::lemma_ceil_div(segs[0].memsz as int, 4096);
    assert(placed(&pre, &k, root, b, segs[0], 0));
}

} // verus!

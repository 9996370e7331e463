//! The firmware's memory map: asking for it, and what it says.

use vstd::prelude::*;
use crate::memory_type;
use crate::memory_type::Fate;
use crate::uefi;
use crate::uefi::{DESCRIPTOR_BYTES, EFI_BUFFER_TOO_SMALL, EFI_SUCCESS, MemoryDescriptor};

verus! {

/// The status of a capture without a firmware.
pub const ERR_NO_FIRMWARE: u64 = 0xFFFF_FFFF_FFFF_FFFF;
/// The room for the memory map.
pub const MAP_BUF_BYTES: usize = 32768;

/// What the memory map comes to.
#[derive(Clone, Copy, Debug, PartialEq, Eq, Structural)]
pub struct MemoryMapSummary {
    pub region_count: usize,
    pub descriptor_size: usize,
    pub descriptor_version: u32,
    pub map_key: usize,
    pub conventional_pages: u64,
    pub reclaimable_pages: u64,
    pub runtime_pages: u64,
    pub reserved_pages: u64,
    pub largest_conventional_base: u64,
    pub largest_conventional_pages: u64,
}

/// Pages in mebibytes, rounded down.
pub open spec fn mib(pages: int) -> int {
    pages * 4096 / 1048576
}

impl MemoryMapSummary {
    pub fn conventional_mib(&self) -> (r: u64)
        requires
            self.conventional_pages * 4096 <= u64::MAX,
        ensures
            r == mib(self.conventional_pages as int),
    {
        self.conventional_pages * 4096 / 1048576
    }

    pub fn reclaimable_mib(&self) -> (r: u64)
        requires
            self.reclaimable_pages * 4096 <= u64::MAX,
        ensures
            r == mib(self.reclaimable_pages as int),
    {
        self.reclaimable_pages * 4096 / 1048576
    }

    pub fn largest_conventional_mib(&self) -> (r: u64)
        requires
            self.largest_conventional_pages * 4096 <= u64::MAX,
        ensures
            r == mib(self.largest_conventional_pages as int),
    {
        self.largest_conventional_pages * 4096 / 1048576
    }

    /// All that the map describes, memory or not.
    pub fn total_mib(&self) -> (r: u64)
        requires
            (self.conventional_pages + self.reclaimable_pages + self.runtime_pages
                + self.reserved_pages) * 4096 <= u64::MAX,
        ensures
            r == mib(
                self.conventional_pages + self.reclaimable_pages + self.runtime_pages
                    + self.reserved_pages,
            ),
    {
        (self.conventional_pages + self.reclaimable_pages + self.runtime_pages
            + self.reserved_pages) * 4096 / 1048576
    }
}

/// The descriptor of region `i`.
pub open spec fn region(b: Seq<u8>, stride: int, i: int) -> MemoryDescriptor {
    uefi::descriptor_at(b, i * stride)
}

/// How many pages of the first `n` regions share a fate.
pub open spec fn pages_of(b: Seq<u8>, stride: int, n: int, f: Fate) -> int
    decreases n,
{
    if n <= 0 {
        0
    } else {
        pages_of(b, stride, n - 1, f) + (if memory_type::fate_of(
            region(b, stride, n - 1).memory_type,
        ) == f {
            region(b, stride, n - 1).number_of_pages as int
        } else {
            0
        })
    }
}

/// The largest of the first `n` free regions, the first of them if several
/// are: where it starts and how many pages it has.
pub open spec fn largest(b: Seq<u8>, stride: int, n: int) -> (u64, u64)
    decreases n,
{
    if n <= 0 {
        (0, 0)
    } else {
        let d = region(b, stride, n - 1);
        let best = largest(b, stride, n - 1);
        if memory_type::fate_of(d.memory_type) == Fate::Free && d.number_of_pages > best.1 {
            (d.physical_start, d.number_of_pages)
        } else {
            best
        }
    }
}

/// How many regions a map of `map_size` bytes holds.
pub open spec fn regions_in(map_size: int, stride: int) -> int {
    if stride < DESCRIPTOR_BYTES {
        0
    } else {
        map_size / stride
    }
}

/// The pages of every fate can be counted.
pub open spec fn countable(b: Seq<u8>, stride: int, n: int) -> bool {
    &&& pages_of(b, stride, n, Fate::Free) <= u64::MAX
    &&& pages_of(b, stride, n, Fate::Reclaimable) <= u64::MAX
    &&& pages_of(b, stride, n, Fate::Runtime) <= u64::MAX
    &&& pages_of(b, stride, n, Fate::Kept) <= u64::MAX
}

proof fn lemma_pages_grow(b: Seq<u8>, stride: int, i: int, n: int, f: Fate)
    requires
        i <= n,
    ensures
        0 <= pages_of(b, stride, i, f) <= pages_of(b, stride, n, f),
    decreases n,
{
    if n > 0 {
        if i < n {
            lemma_pages_grow(b, stride, i, n - 1, f);
        } else {
            lemma_pages_grow(b, stride, i - 1, n - 1, f);
        }
    }
}

/// Whether the pages of the map in `b` can be counted.
pub fn is_countable(b: &[u8], map_size: usize, desc_size: usize) -> (r: bool)
    requires
        map_size <= b@.len(),
    ensures
        r == countable(b@, desc_size as int, regions_in(map_size as int, desc_size as int)),
{
    if desc_size < DESCRIPTOR_BYTES {
        return true;
    }
    let count: usize = map_size / desc_size;
    let ghost d = desc_size as int;
    let total: usize = b.len();
    let (mut free, mut given, mut runtime, mut kept): (u64, u64, u64, u64) = (0, 0, 0, 0);
    let mut i: usize = 0;
    while i < count
        invariant
            i <= count,
            total == b@.len(),
            count == map_size / desc_size,
            desc_size >= DESCRIPTOR_BYTES,
            map_size <= total,
            d == desc_size,
            free == pages_of(b@, d, i as int, Fate::Free),
            given == pages_of(b@, d, i as int, Fate::Reclaimable),
            runtime == pages_of(b@, d, i as int, Fate::Runtime),
            kept == pages_of(b@, d, i as int, Fate::Kept),
        decreases count - i,
    {
        proof {
            lemma_pages_grow(b@, d, i + 1, count as int, Fate::Free);
            lemma_pages_grow(b@, d, i + 1, count as int, Fate::Reclaimable);
            lemma_pages_grow(b@, d, i + 1, count as int, Fate::Runtime);
            lemma_pages_grow(b@, d, i + 1, count as int, Fate::Kept);
            assert(i * desc_size + desc_size <= count * desc_size) by (nonlinear_arith)
                requires
                    i + 1 <= count,
                    desc_size >= 40,
            ;
            assert(count * desc_size <= map_size) by (nonlinear_arith)
                requires
                    count == map_size / desc_size,
                    desc_size >= 40,
            ;
        }
        let desc: MemoryDescriptor = uefi::read_descriptor(b, i * desc_size);
        let more: u64 = desc.number_of_pages;
        let sum: Option<u64> = match memory_type::fate(desc.memory_type) {
            Fate::Free => free.checked_add(more),
            Fate::Reclaimable => given.checked_add(more),
            Fate::Runtime => runtime.checked_add(more),
            Fate::Kept => kept.checked_add(more),
        };
        match (sum, memory_type::fate(desc.memory_type)) {
            (None, _) => {
                return false;
            },
            (Some(s), Fate::Free) => free = s,
            (Some(s), Fate::Reclaimable) => given = s,
            (Some(s), Fate::Runtime) => runtime = s,
            (Some(s), Fate::Kept) => kept = s,
        }
        i = i + 1;
    }
    true
}

/// What [`classify`] answers and does.
pub open spec fn classified(
    b: &[u8],
    map_size: usize,
    map_key: usize,
    desc_size: usize,
    desc_version: u32,
    r: MemoryMapSummary,
) -> bool {
    &&& ({
        let n = regions_in(map_size as int, desc_size as int);
        let d = desc_size as int;
        &&& r.region_count == n
        &&& r.descriptor_size == desc_size
        &&& r.descriptor_version == desc_version
        &&& r.map_key == map_key
        &&& r.conventional_pages == pages_of(b@, d, n, Fate::Free)
        &&& r.reclaimable_pages == pages_of(b@, d, n, Fate::Reclaimable)
        &&& r.runtime_pages == pages_of(b@, d, n, Fate::Runtime)
        &&& r.reserved_pages == pages_of(b@, d, n, Fate::Kept)
        &&& (r.largest_conventional_base, r.largest_conventional_pages) == largest(b@, d, n)
    })
}

/// Walk the map in `b` and add it up. The regions are `desc_size` apart; a
/// spacing that has no room for a descriptor gives an empty summary.
pub fn classify(b: &[u8], map_size: usize, map_key: usize, desc_size: usize, desc_version: u32) -> (r:
    MemoryMapSummary)
    requires
        map_size <= b@.len(),
        countable(b@, desc_size as int, regions_in(map_size as int, desc_size as int)),
    ensures
        classified(b, map_size, map_key, desc_size, desc_version, r),
{
    let mut s: MemoryMapSummary = MemoryMapSummary {
        region_count: 0,
        descriptor_size: desc_size,
        descriptor_version: desc_version,
        map_key,
        conventional_pages: 0,
        reclaimable_pages: 0,
        runtime_pages: 0,
        reserved_pages: 0,
        largest_conventional_base: 0,
        largest_conventional_pages: 0,
    };
    if desc_size < DESCRIPTOR_BYTES {
        return s;
    }
    let count: usize = map_size / desc_size;
    let ghost d = desc_size as int;
    let total: usize = b.len();
    let mut i: usize = 0;
    while i < count
        invariant
            i <= count,
            total == b@.len(),
            count == map_size / desc_size,
            desc_size >= DESCRIPTOR_BYTES,
            map_size <= total,
            d == desc_size,
            countable(b@, d, count as int),
            s.region_count == i,
            s.descriptor_size == desc_size,
            s.descriptor_version == desc_version,
            s.map_key == map_key,
            s.conventional_pages == pages_of(b@, d, i as int, Fate::Free),
            s.reclaimable_pages == pages_of(b@, d, i as int, Fate::Reclaimable),
            s.runtime_pages == pages_of(b@, d, i as int, Fate::Runtime),
            s.reserved_pages == pages_of(b@, d, i as int, Fate::Kept),
            (s.largest_conventional_base, s.largest_conventional_pages) == largest(
                b@,
                d,
                i as int,
            ),
        decreases count - i,
    {
        proof {
            lemma_pages_grow(b@, d, i + 1, count as int, Fate::Free);
            lemma_pages_grow(b@, d, i + 1, count as int, Fate::Reclaimable);
            lemma_pages_grow(b@, d, i + 1, count as int, Fate::Runtime);
            lemma_pages_grow(b@, d, i + 1, count as int, Fate::Kept);
            assert(i * desc_size + desc_size <= count * desc_size) by (nonlinear_arith)
                requires
                    i + 1 <= count,
                    desc_size >= 40,
            ;
            assert(count * desc_size <= map_size) by (nonlinear_arith)
                requires
                    count == map_size / desc_size,
                    desc_size >= 40,
            ;
        }
        let desc: MemoryDescriptor = uefi::read_descriptor(b, i * desc_size);
        s.region_count = s.region_count + 1;
        match memory_type::fate(desc.memory_type) {
            Fate::Free => {
                s.conventional_pages = s.conventional_pages + desc.number_of_pages;
                if desc.number_of_pages > s.largest_conventional_pages {
                    s.largest_conventional_pages = desc.number_of_pages;
                    s.largest_conventional_base = desc.physical_start;
                }
            },
            Fate::Reclaimable => {
                s.reclaimable_pages = s.reclaimable_pages + desc.number_of_pages;
            },
            Fate::Runtime => {
                s.runtime_pages = s.runtime_pages + desc.number_of_pages;
            },
            Fate::Kept => {
                s.reserved_pages = s.reserved_pages + desc.number_of_pages;
            },
        }
        i = i + 1;
    }
    s
}

/// The regions of a map that `summary` was made of.
pub fn for_each_region(b: &[u8], summary: &MemoryMapSummary) -> (r: Vec<MemoryDescriptor>)
    requires
        summary.region_count * summary.descriptor_size <= b@.len(),
    ensures
        summary.descriptor_size < DESCRIPTOR_BYTES ==> r@.len() == 0,
        summary.descriptor_size >= DESCRIPTOR_BYTES ==> {
            &&& r@.len() == summary.region_count
            &&& forall|i: int|
                0 <= i < r@.len() ==> #[trigger] r@[i] == region(
                    b@,
                    summary.descriptor_size as int,
                    i,
                )
        },
{
    let mut out: Vec<MemoryDescriptor> = Vec::new();
    let stride: usize = summary.descriptor_size;
    if stride < DESCRIPTOR_BYTES {
        return out;
    }
    let n: usize = summary.region_count;
    let total: usize = b.len();
    let mut i: usize = 0;
    while i < n
        invariant
            i <= n,
            total == b@.len(),
            stride >= 40,
            n * stride <= total,
            out@.len() == i,
            forall|j: int| 0 <= j < i ==> #[trigger] out@[j] == region(b@, stride as int, j),
        decreases n - i,
    {
        assert(i * stride + stride <= n * stride) by (nonlinear_arith)
            requires
                i + 1 <= n,
                stride >= 40,
        ;
        out.push(uefi::read_descriptor(b, i * stride));
        i = i + 1;
    }
    out
}

/// Every page of the map is counted once: the fates add up to the whole.
pub proof fn law_fates_partition(b: Seq<u8>, stride: int, n: int)
    ensures
        pages_of(b, stride, n, Fate::Free) + pages_of(b, stride, n, Fate::Reclaimable) + pages_of(
            b,
            stride,
            n,
            Fate::Runtime,
        ) + pages_of(b, stride, n, Fate::Kept) == all_pages(b, stride, n),
    decreases n,
{
    if n > 0 {
        law_fates_partition(b, stride, n - 1);
    }
}

/// The pages of the first `n` regions.
pub open spec fn all_pages(b: Seq<u8>, stride: int, n: int) -> int
    decreases n,
{
    if n <= 0 {
        0
    } else {
        all_pages(b, stride, n - 1) + region(b, stride, n - 1).number_of_pages
    }
}

/// No free region is larger than the largest.
pub proof fn law_largest(b: Seq<u8>, stride: int, n: int, i: int)
    requires
        0 <= i < n,
        memory_type::fate_of(region(b, stride, i).memory_type) == Fate::Free,
    ensures
        region(b, stride, i).number_of_pages <= largest(b, stride, n).1,
    decreases n,
{
    if i < n - 1 {
        law_largest(b, stride, n - 1, i);
    }
}

/// What to do after the firmware was asked for the map.
#[derive(Clone, Copy, Debug, PartialEq, Eq, Structural)]
pub enum Asked {
    /// Ask once more.
    Again,
    /// The map is there.
    Done,
    /// Give up with this status.
    Failed(u64),
}

/// The firmware answered with `status` and `map_size`. One retry is worth it
/// if it asked for a size that there is room for.
pub fn capture(status: u64, map_size: usize, retried: bool) -> (r: Asked)
    ensures
        r == (if status == EFI_BUFFER_TOO_SMALL && map_size <= MAP_BUF_BYTES && !retried {
            Asked::Again
        } else if status == EFI_SUCCESS {
            Asked::Done
        } else {
            Asked::Failed(status)
        }),
{
    if status == EFI_BUFFER_TOO_SMALL && map_size <= MAP_BUF_BYTES && !retried {
        Asked::Again
    } else if status != EFI_SUCCESS {
        Asked::Failed(status)
    } else {
        Asked::Done
    }
}

} // verus!

//! The boot hand-off record: the firmware memory map and the place of the
//! kernel image, as the boot stage leaves them.

use vstd::prelude::*;

verus! {

pub const KIND_RESERVED: u32 = 0;
pub const KIND_LOADER_CODE: u32 = 1;
pub const KIND_LOADER_DATA: u32 = 2;
pub const KIND_BOOT_SERVICES_CODE: u32 = 3;
pub const KIND_BOOT_SERVICES_DATA: u32 = 4;
pub const KIND_RUNTIME_SERVICES_CODE: u32 = 5;
pub const KIND_RUNTIME_SERVICES_DATA: u32 = 6;
pub const KIND_CONVENTIONAL: u32 = 7;
pub const KIND_UNUSABLE: u32 = 8;
pub const KIND_ACPI_RECLAIM: u32 = 9;
pub const KIND_ACPI_NVS: u32 = 10;
pub const KIND_MMIO: u32 = 11;
pub const KIND_MMIO_PORT_SPACE: u32 = 12;

/// How many regions the record keeps; what comes after is only counted.
pub const REGION_CAP: usize = 256;

/// One region of the firmware memory map.
#[derive(Clone, Copy, Debug, PartialEq, Eq, Structural)]
pub struct Region {
    pub kind: u32,
    pub base: u64,
    pub pages: u64,
    pub attribute: u64,
}

impl Region {
    /// The first address past the region.
    pub open spec fn end(self) -> int {
        self.base + self.pages * 4096
    }

    /// The region's span, rounded to whole pages, fits the address space.
    pub open spec fn sane(self) -> bool {
        self.end() <= u64::MAX - 4096
    }
}

/// Where the kernel image was loaded, and how long it is in memory.
#[derive(Clone, Copy, Debug, PartialEq, Eq, Structural)]
pub struct ImageLayout {
    pub base: u64,
    pub size: u64,
}

/// The hand-off record.
pub struct Handoff {
    pub regions: Vec<Region>,
    pub overflow: usize,
    pub key: u64,
    pub image: ImageLayout,
}

impl Handoff {
    /// The record never holds more than `REGION_CAP` regions.
    pub open spec fn wf(&self) -> bool {
        self.regions@.len() <= REGION_CAP
    }

    /// No region of the record wraps around the address space.
    pub open spec fn sane(&self) -> bool {
        &&& self.wf()
        &&& forall|i: int| 0 <= i < self.regions@.len() ==> (#[trigger] self.regions@[i]).sane()
    }

    /// The record before the boot stage has written anything.
    pub fn new() -> (h: Handoff)
        ensures
            h.wf(),
            h.sane(),
            h.regions@ == Seq::<Region>::empty(),
            h.overflow == 0,
            h.key == 0,
            h.image == (ImageLayout { base: 0, size: 0 }),
    {
        Handoff { regions: Vec::new(), overflow: 0, key: 0, image: ImageLayout { base: 0, size: 0 } }
    }
}

/// Whether the record is one that no region of which wraps.
pub fn is_sane(h: &Handoff) -> (r: bool)
    ensures
        r == h.sane(),
{
    let n: usize = h.regions.len();
    if n > REGION_CAP {
        return false;
    }
    let mut i: usize = 0;
    while i < n
        invariant
            i <= n,
            n == h.regions@.len(),
            forall|j: int| 0 <= j < i ==> (#[trigger] h.regions@[j]).sane(),
        decreases n - i,
    {
        let reg: Region = h.regions[i];
        if reg.base > u64::MAX - 4096 || reg.pages > (u64::MAX - 4096 - reg.base) / 4096 {
            assert(!h.regions@[i as int].sane());
            return false;
        }
        i = i + 1;
    }
    true
}

/// Start a new memory map under `map_key`: no regions, nothing overflowed.
pub fn begin_map(h: &mut Handoff, map_key: u64)
    ensures
        final(h).wf(),
        final(h).regions@ == Seq::<Region>::empty(),
        final(h).overflow == 0,
        final(h).key == map_key,
        final(h).image == old(h).image,
{
    h.regions.clear();
    h.overflow = 0;
    h.key = map_key;
}

/// A region was offered to the record: kept while there is room, else counted
/// as one too many.
pub open spec fn pushed(pre: &Handoff, post: &Handoff, region: Region) -> bool {
    &&& post.key == pre.key
    &&& post.image == pre.image
    &&& if pre.regions@.len() < REGION_CAP {
        post.regions@ == pre.regions@.push(region) && post.overflow == pre.overflow
    } else {
        post.regions@ == pre.regions@ && post.overflow == pre.overflow + 1
    }
}

/// Append a region, or count it as overflow once the record is full.
pub fn push_region(h: &mut Handoff, region: Region)
    requires
        old(h).wf(),
        old(h).overflow < usize::MAX,
    ensures
        final(h).wf(),
        pushed(old(h), final(h), region),
{
    if h.regions.len() < REGION_CAP {
        h.regions.push(region);
    } else {
        h.overflow = h.overflow + 1;
    }
}

/// Record where the image lies.
pub fn set_image_layout(h: &mut Handoff, layout: ImageLayout)
    ensures
        final(h).image == layout,
        final(h).regions@ == old(h).regions@,
        final(h).overflow == old(h).overflow,
        final(h).key == old(h).key,
{
    h.image = layout;
}

/// The firmware's key of the recorded map.
pub fn map_key(h: &Handoff) -> (r: u64)
    ensures
        r == h.key,
{
    h.key
}

/// How many regions are recorded.
pub fn region_count(h: &Handoff) -> (r: usize)
    ensures
        r == h.regions@.len(),
{
    h.regions.len()
}

/// How many regions came after the record was full.
pub fn region_overflow(h: &Handoff) -> (r: usize)
    ensures
        r == h.overflow,
{
    h.overflow
}

/// Region `i`, if there is one.
pub fn region(h: &Handoff, i: usize) -> (r: Option<Region>)
    ensures
        r == (if i < h.regions@.len() { Some(h.regions@[i as int]) } else { None }),
{
    if i < h.regions.len() {
        Some(h.regions[i])
    } else {
        None
    }
}

/// The image layout, once one was recorded: neither base nor size is zero.
pub fn image_layout(h: &Handoff) -> (r: Option<ImageLayout>)
    ensures
        r == (if h.image.base != 0 && h.image.size != 0 { Some(h.image) } else { None }),
{
    let l = h.image;
    if l.base != 0 && l.size != 0 {
        Some(l)
    } else {
        None
    }
}

/// No region is lost unnoticed: every one that is offered is kept or counted,
/// and a kept one is read back where it was put, with those before it as they
/// were.
pub proof fn law_every_region_counted(pre: Handoff, post: Handoff, region: Region)
    requires
        pre.wf(),
        pushed(&pre, &post, region),
    ensures
        post.regions@.len() + post.overflow == pre.regions@.len() + pre.overflow + 1,
        post.regions@.len() > pre.regions@.len() ==> post.regions@.last() == region,
        forall|i: int| 0 <= i < pre.regions@.len() ==> #[trigger] post.regions@[i] == pre.regions@[i],
        post.overflow > pre.overflow ==> pre.regions@.len() == REGION_CAP,
{
}

} // verus!

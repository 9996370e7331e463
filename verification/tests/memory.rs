//! Frames, the hand-off record, page tables and images.

use arenaos::bytes;
use arenaos::frames;
use arenaos::frames::FrameAllocator;
use arenaos::handoff;
use arenaos::handoff::{Handoff, ImageLayout, Region};
use arenaos::heap::FrameChunkProvider;
use arenaos::paging;
use arenaos::paging::PhysMem;
use arenaos::pe;
use arenaos::pe::Perm;
use arenaos::views;
use arenaos::views::Paging;

const FLOOR: u64 = 0x10_0000;

fn region(kind: u32, base: u64, pages: u64) -> Region {
    Region { kind, base, pages, attribute: 0 }
}

fn record(pages: u64) -> Handoff {
    let mut h = Handoff::new();
    handoff::begin_map(&mut h, 77);
    handoff::push_region(&mut h, region(handoff::KIND_RESERVED, 0, 0x100));
    handoff::push_region(&mut h, region(handoff::KIND_CONVENTIONAL, FLOOR, pages));
    handoff::set_image_layout(&mut h, ImageLayout { base: 0x8_0000, size: 0x3000 });
    h
}

fn pool(pages: u64) -> FrameAllocator {
    let mut fa = FrameAllocator::new();
    assert_eq!(frames::init(&mut fa, &record(pages)), Ok(()));
    fa
}

fn put(b: &mut Vec<u8>, at: usize, s: &[u8]) {
    for (i, x) in s.iter().enumerate() {
        b[at + i] = *x;
    }
}

/// A small PE image with a text, a read-only and a data section, a page each.
fn image() -> Vec<u8> {
    let mut b: Vec<u8> = vec![0u8; 0x3000];
    put(&mut b, 0, b"MZ");
    put(&mut b, 0x3C, &0x40u32.to_le_bytes());
    put(&mut b, 0x40, b"PE\0\0");
    put(&mut b, 0x44, &0x8664u16.to_le_bytes());
    put(&mut b, 0x46, &3u16.to_le_bytes());
    put(&mut b, 0x54, &240u16.to_le_bytes());
    put(&mut b, 0x58, &0x20Bu16.to_le_bytes());
    let table: usize = 0x44 + 20 + 240;
    let names: [&[u8]; 3] = [b".text\0\0\0", b".rdata\0\0", b".data\0\0\0"];
    for i in 0..3 {
        put(&mut b, table + i * 40, names[i]);
        put(&mut b, table + i * 40 + 8, &0x1000u32.to_le_bytes());
        put(&mut b, table + i * 40 + 12, &((i as u32) * 0x1000).to_le_bytes());
    }
    b
}

/// The physical address behind `va`, if it is mapped.
fn phys(mem: &PhysMem, root: u64, va: u64) -> Option<u64> {
    paging::translate(mem, root, va).map(|e| (e & paging::ADDR_MASK) + va % 4096)
}

/// The bits of the entry of `va` that are not its address.
fn flags(mem: &PhysMem, root: u64, va: u64) -> Option<u64> {
    paging::user_pte_flags(mem, root, va).map(|e| e & !paging::ADDR_MASK)
}

fn booted() -> (FrameAllocator, Paging) {
    let h = record(0x300);
    let mut fa = FrameAllocator::new();
    assert_eq!(frames::init(&mut fa, &h), Ok(()));
    let mut p = Paging::new(vec![0u64; 0x400 * 512]);
    let root = views::build_kernel_view(&mut p, &mut fa, &h, &image(), 0x8_1000).unwrap();
    assert_eq!(views::note_live(&mut p, root, root), Ok(()));
    (fa, p)
}

#[test]
fn handoff_keeps_regions_in_order_and_counts_the_overflow() {
    let mut h = Handoff::new();
    assert_eq!(handoff::region_count(&h), 0);
    assert!(handoff::image_layout(&h).is_none());
    handoff::begin_map(&mut h, 9);
    for i in 0..handoff::REGION_CAP as u64 + 3 {
        handoff::push_region(&mut h, region(7, i * 4096, 1));
    }
    assert_eq!(handoff::map_key(&h), 9);
    assert_eq!(handoff::region_count(&h), 256);
    assert_eq!(handoff::region_overflow(&h), 3);
    assert_eq!(handoff::region(&h, 255).unwrap().base, 255 * 4096);
    assert!(handoff::region(&h, 256).is_none());
    handoff::begin_map(&mut h, 10);
    assert_eq!(handoff::region_count(&h), 0);
    assert_eq!(handoff::region_overflow(&h), 0);
}

#[test]
fn pool_counts_only_conventional_frames_above_the_floor() {
    let mut h = Handoff::new();
    handoff::begin_map(&mut h, 1);
    handoff::push_region(&mut h, region(handoff::KIND_CONVENTIONAL, 0, 0x102));
    handoff::push_region(&mut h, region(handoff::KIND_LOADER_DATA, 0x20_0000, 5));
    let mut fa = FrameAllocator::new();
    assert!(!frames::ready(&fa));
    assert_eq!(frames::alloc_frame(&mut fa), None);
    assert_eq!(frames::init(&mut fa, &h), Ok(()));
    assert_eq!(frames::total_frames(&fa), 2);
    assert_eq!(frames::free_frames(&fa), 2);
    assert!(frames::is_managed(&fa, FLOOR));
    assert!(!frames::is_managed(&fa, 0x20_0000));
    assert_eq!(frames::init(&mut fa, &h), Err("frame allocator initialized twice"));
}

#[test]
fn init_refuses_an_empty_or_useless_record() {
    let mut fa = FrameAllocator::new();
    assert_eq!(
        frames::init(&mut fa, &Handoff::new()),
        Err("handoff record has no memory regions (boot stage did not fill it?)")
    );
    let mut h = Handoff::new();
    handoff::push_region(&mut h, region(handoff::KIND_MMIO, FLOOR, 4));
    assert_eq!(
        frames::init(&mut fa, &h),
        Err("conventional regions produced zero manageable frames")
    );
}

#[test]
fn a_region_that_wraps_is_noticed() {
    let mut h = record(4);
    assert!(handoff::is_sane(&h));
    handoff::push_region(&mut h, region(handoff::KIND_MMIO, u64::MAX - 0x2000, 1));
    assert!(handoff::is_sane(&h));
    handoff::push_region(&mut h, region(handoff::KIND_MMIO, u64::MAX - 0x2000, 2));
    assert!(!handoff::is_sane(&h));
    let mut h = record(4);
    handoff::push_region(&mut h, region(handoff::KIND_MMIO, u64::MAX, 0));
    assert!(!handoff::is_sane(&h));
}

#[test]
fn a_freed_frame_is_free_once() {
    let mut fa = pool(8);
    assert_eq!(frames::alloc_frame(&mut fa), Some(FLOOR));
    assert_eq!(frames::alloc_frame(&mut fa), Some(FLOOR + 4096));
    assert_eq!(frames::free_frames(&fa), 6);
    assert_eq!(frames::free(&mut fa, FLOOR), Ok(()));
    assert_eq!(frames::free_frames(&fa), 7);
    assert_eq!(frames::free(&mut fa, FLOOR), Err("free: frame was not allocated (double free?)"));
    assert_eq!(frames::free(&mut fa, FLOOR + 1), Err("free: address not a managed frame base"));
    assert_eq!(
        frames::free(&mut fa, frames::PHYS_LIMIT),
        Err("free: address not a managed frame base")
    );
    let mut raw = FrameAllocator::new();
    assert_eq!(frames::free(&mut raw, FLOOR), Err("free: allocator not initialized"));
}

#[test]
fn every_frame_is_handed_out_once_and_then_none() {
    let mut fa = pool(40);
    let mut seen: Vec<u64> = Vec::new();
    for _ in 0..40 {
        let f = frames::alloc_frame(&mut fa).unwrap();
        assert!(!seen.contains(&f));
        assert!(f >= FLOOR && f < FLOOR + 40 * 4096);
        seen.push(f);
    }
    assert_eq!(frames::alloc_frame(&mut fa), None);
    for f in seen {
        assert_eq!(frames::free(&mut fa, f), Ok(()));
    }
    assert_eq!(frames::free_frames(&fa), 40);
}

#[test]
fn contiguous_runs_come_and_go_whole() {
    let mut fa = pool(16);
    let a = frames::alloc_frame(&mut fa).unwrap();
    let run = frames::alloc_contiguous(&mut fa, 8).unwrap();
    assert_eq!(frames::free_frames(&fa), 7);
    assert!(run > a && run % 4096 == 0);
    assert_eq!(frames::alloc_contiguous(&mut fa, 8), None);
    assert_eq!(frames::free_contiguous(&mut fa, run, 8), Ok(()));
    assert_eq!(frames::free_frames(&fa), 15);
    assert_eq!(
        frames::free_contiguous(&mut fa, a, 2),
        Err("free: frame was not allocated (double free?)")
    );
    assert_eq!(frames::free_frames(&fa), 16);
    assert_eq!(frames::alloc_contiguous(&mut fa, 0), None);
}

#[test]
fn reconcile_leaks_what_the_last_map_no_longer_offers() {
    let mut fa = pool(16);
    let mut late = Handoff::new();
    handoff::push_region(&mut late, region(handoff::KIND_CONVENTIONAL, FLOOR, 10));
    assert_eq!(frames::reconcile_final_map(&mut fa, &late), Ok(6));
    assert_eq!(frames::free_frames(&fa), 10);
    assert_eq!(frames::reconcile_final_map(&mut fa, &late), Ok(0));
    assert_eq!(
        frames::reconcile_final_map(&mut fa, &Handoff::new()),
        Err("handoff record empty at reconcile")
    );
    assert_eq!(
        frames::reconcile_final_map(&mut FrameAllocator::new(), &late),
        Err("reconcile before init")
    );
}

#[test]
fn heap_chunks_are_whole_frames() {
    let mut fa = pool(16);
    let p = FrameChunkProvider;
    let c = p.provide_chunk(&mut fa, 4097).unwrap();
    assert_eq!(c % 4096, 0);
    assert_eq!(frames::free_frames(&fa), 14);
    assert!(p.provide_chunk(&mut fa, 15 * 4096).is_none());
}

#[test]
fn indices_cut_an_address_in_nines() {
    let va: u64 = 0xFFFF_8123_4567_89AB;
    assert_eq!(paging::pml4_idx(va), 0x102);
    assert_eq!(paging::pdpt_idx(va), 0x8D);
    assert_eq!(paging::pd_idx(va), 0x2B);
    assert_eq!(paging::pt_idx(va), 0x78);
    assert_eq!(paging::pml4_idx(0xFFFF_FFFF_FFFF_FFFF), 511);
}

#[test]
fn a_mapped_page_translates_and_an_unmapped_one_does_not() {
    let mut fa = pool(64);
    let mut mem = PhysMem::new(vec![0u64; 0x200 * 512]);
    let root = paging::new_root(&mut mem, &mut fa, None).unwrap();
    assert_eq!(phys(&mem, root, 0x40_0000), None);
    assert_eq!(paging::tables_missing(&mem, root, 0x40_0000), 3);
    assert!(paging::map_page_4k(&mut mem, &mut fa, root, 0x40_0000, 0x12_3000, 3));
    assert_eq!(paging::tables_missing(&mem, root, 0x40_0000), 0);
    assert_eq!(phys(&mem, root, 0x40_0ABC), Some(0x12_3ABC));
    assert_eq!(phys(&mem, root, 0x40_1000), None);
    assert_eq!(frames::free_frames(&fa), 60);
    assert_eq!(paging::unmap_page(&mut mem, &fa, root, 0x40_0000), Some(0x12_3000));
    assert_eq!(phys(&mem, root, 0x40_0000), None);
    assert_eq!(paging::unmap_page(&mut mem, &fa, root, 0x40_0000), None);
}

#[test]
fn a_small_page_splits_a_large_one_and_keeps_the_rest() {
    let mut fa = pool(64);
    let mut mem = PhysMem::new(vec![0u64; 0x200 * 512]);
    let root = paging::new_root(&mut mem, &mut fa, None).unwrap();
    assert!(paging::map_2m(&mut mem, &mut fa, root, 0x4000_0000, 0x20_0000, 3));
    assert_eq!(phys(&mem, root, 0x4012_3456), Some(0x32_3456));
    assert!(paging::map_page_4k(&mut mem, &mut fa, root, 0x4000_1000, 0x9_9000, 3));
    assert_eq!(phys(&mem, root, 0x4000_1008), Some(0x9_9008));
    assert_eq!(phys(&mem, root, 0x4000_0008), Some(0x20_0008));
    assert_eq!(phys(&mem, root, 0x4012_3456), Some(0x32_3456));
}

#[test]
fn user_pages_are_never_writable_and_executable() {
    let mut fa = pool(64);
    let mut mem = PhysMem::new(vec![0u64; 0x200 * 512]);
    let root = paging::new_root(&mut mem, &mut fa, None).unwrap();
    let f = frames::alloc_frame(&mut fa).unwrap();
    assert_eq!(
        paging::map_user_page_4k(&mut mem, &mut fa, root, 0x40_0000, f, true, true),
        Err("user map: W^X violation (writable+exec)")
    );
    assert_eq!(
        paging::map_user_page_4k(&mut mem, &mut fa, root, 0x40_0001, f, true, false),
        Err("user map: unaligned va/phys")
    );
    assert_eq!(
        paging::map_user_page_4k(&mut mem, &mut fa, root, 0x8000_0000_0000, f, true, false),
        Err("user map: va not in canonical lower half")
    );
    assert_eq!(
        paging::map_user_page_4k(&mut mem, &mut fa, root, 0x40_0000, f, true, false),
        Ok(())
    );
    assert_eq!(
        flags(&mem, root, 0x40_0000),
        Some(paging::PTE_PRESENT | paging::PTE_WRITE | paging::PTE_USER | paging::PTE_NX)
    );
    assert_eq!(
        paging::map_user_page_4k(&mut mem, &mut fa, root, 0x40_1000, f, false, true),
        Ok(())
    );
    assert_eq!(
        flags(&mem, root, 0x40_1000),
        Some(paging::PTE_PRESENT | paging::PTE_USER)
    );
}

#[test]
fn tearing_down_the_user_half_gives_every_frame_back() {
    let (mut fa, mut p) = booted();
    let before = frames::free_frames(&fa);
    let root = views::build_process_pml4(&mut p, &mut fa).unwrap();
    for i in 0..5u64 {
        let f = frames::alloc_frame(&mut fa).unwrap();
        assert_eq!(
            paging::map_user_page_4k(&mut p.mem, &mut fa, root, 0x40_0000 + i * 0x4000_0000, f, true, false),
            Ok(())
        );
    }
    assert_eq!(paging::destroy_user_half(&mut p.mem, &mut fa, root), Ok(5 + 1 + 5 + 5));
    assert_eq!(paging::drop_root(&mut p.mem, &mut fa, root), Ok(()));
    assert_eq!(frames::free_frames(&fa), before);
}

#[test]
fn kernel_view_maps_the_direct_map_and_the_image_with_permissions() {
    let (_, p) = booted();
    let root = views::kernel_cr3_phys(&p);
    let k = paging::KERNEL_OFFSET;
    assert_eq!(phys(&p.mem, root, k + 0x12_3456), Some(0x12_3456));
    assert_eq!(phys(&p.mem, root, k + 0x8_1010), Some(0x8_1010));
    assert_eq!(flags(&p.mem, root, k + 0x8_0000), Some(paging::PTE_PRESENT));
    assert_eq!(
        flags(&p.mem, root, k + 0x8_1000),
        Some(paging::PTE_PRESENT | paging::PTE_NX)
    );
    assert_eq!(
        flags(&p.mem, root, k + 0x8_2000),
        Some(paging::PTE_PRESENT | paging::PTE_WRITE | paging::PTE_NX)
    );
    assert_eq!(phys(&p.mem, root, 0x40_0000), None);
}

#[test]
fn a_process_root_shares_the_kernel_half() {
    let (mut fa, mut p) = booted();
    let root = views::build_process_pml4(&mut p, &mut fa).unwrap();
    let va = paging::KERNEL_OFFSET + 0x12_3000;
    assert_eq!(phys(&p.mem, root, va), Some(0x12_3000));
    assert_eq!(paging::walk_chain(&p.mem, root, va)[1], paging::walk_chain(&p.mem, p.kernel_root, va)[1]);
    assert_eq!(phys(&p.mem, root, 0x8_1000), None);
}

#[test]
fn direct_map_addresses_turn_back() {
    let k = paging::KERNEL_OFFSET;
    assert_eq!(views::kernel_view_phys(k + 0x1234), 0x1234);
    assert_eq!(views::kernel_view_phys(0x1234), 0x1234);
    assert_eq!(views::direct_map_to_phys(k), Some(0));
    assert_eq!(views::direct_map_to_phys(k + 0x7FFF_FFFF), Some(0x7FFF_FFFF));
    assert_eq!(views::direct_map_to_phys(k - 1), None);
    assert_eq!(views::mmio_alias_va(0xFEC0_0000), 0xFFFF_FFFF_FEC0_0000);
}

#[test]
fn a_wrong_root_is_not_noted_as_live() {
    let (_, mut p) = booted();
    let was = views::cr3_phys(&p);
    assert_eq!(
        views::note_live(&mut p, 0x5000, 0x6000),
        Err("CR3 read-back does not match our PML4")
    );
    assert_eq!(views::cr3_phys(&p), was);
}

#[test]
fn first_view_identity_maps_the_regions() {
    let h = record(0x300);
    let mut fa = pool(0x300);
    let mut p = Paging::new(vec![0u64; 0x400 * 512]);
    let layout = ImageLayout { base: 0x8_0000, size: 0x3000 };
    let root = views::init(&mut p, &mut fa, &h, layout, &image(), 0xFEE0_0900).unwrap();
    assert_eq!(views::apic_base_phys(&p), 0xFEE0_0000);
    assert_eq!(phys(&p.mem, root, 0x12_3456), Some(0x12_3456));
    let none = ImageLayout { base: 0, size: 0 };
    assert_eq!(
        views::init(&mut p, &mut fa, &h, none, &image(), 0),
        Err("handoff image layout is empty")
    );
}

#[test]
fn sections_take_their_permissions_from_their_names() {
    let s = pe::parse_pe_sections(&image(), 0x8_0000).unwrap();
    assert_eq!(s.len(), 3);
    assert_eq!((s[0].start, s[0].end), (0x8_0000, 0x8_1000));
    assert!(matches!(s[0].perm, Perm::Rx));
    assert!(matches!(s[1].perm, Perm::Ro));
    assert!(matches!(s[2].perm, Perm::Rw));
    assert!(matches!(pe::section_perm(0x8_1FFF, &s), Perm::Ro));
    assert_eq!(views::flags_for(Perm::Rx), paging::PTE_PRESENT);
    assert_eq!(views::flags_for(Perm::Rw), paging::PTE_PRESENT | paging::PTE_WRITE | paging::PTE_NX);
}

#[test]
fn damaged_images_are_refused() {
    assert!(matches!(pe::parse_pe_sections(&[], 0), Err("truncated image: no DOS header")));
    let mut b = image();
    b[0] = 0;
    assert!(matches!(pe::parse_pe_sections(&b, 0), Err("image base does not start with MZ")));
    let mut b = image();
    b[0x40] = 0;
    assert!(matches!(pe::parse_pe_sections(&b, 0), Err("missing PE signature")));
    let mut b = image();
    b[0x44] = 0;
    assert!(matches!(pe::parse_pe_sections(&b, 0), Err("not an x86-64 PE image")));
    assert!(matches!(pe::parse_pe_sections(&image()[..0x20], 0), Err("truncated DOS header")));
    let mut b = image();
    b[0x46] = 0;
    assert!(matches!(pe::parse_pe_sections(&b, 0), Err("PE image reported no usable sections")));
}

#[test]
fn relocations_move_each_slot_by_the_distance() {
    let mut b = image();
    // Directory 5 of the optional header: the relocation table at 0x2000.
    put(&mut b, 0x58 + 112 + 40, &0x2000u32.to_le_bytes());
    put(&mut b, 0x58 + 112 + 44, &12u32.to_le_bytes());
    put(&mut b, 0x58 + 108, &16u32.to_le_bytes());
    put(&mut b, 0x2000, &0x1000u32.to_le_bytes());
    put(&mut b, 0x2004, &12u32.to_le_bytes());
    put(&mut b, 0x2008, &(0xA000u16 | 0x10).to_le_bytes());
    put(&mut b, 0x200A, &0u16.to_le_bytes());
    put(&mut b, 0x1010, &0x4_0000u64.to_le_bytes());
    let delta = paging::KERNEL_OFFSET;
    let r = pe::apply_base_relocations(&mut b, delta);
    assert_eq!(r, Ok((1, 0)));
    assert_eq!(bytes::le64(&b, 0x1010), 0x4_0000 + paging::KERNEL_OFFSET);
    let mut none = image();
    assert_eq!(
        pe::apply_base_relocations(&mut none, delta),
        Err("PE carries no base relocation table")
    );
}

#[test]
fn little_endian_round_trip() {
    let mut b: Vec<u8> = vec![0u8; 16];
    bytes::write_le64(&mut b, 3, 0x1122_3344_5566_7788);
    assert_eq!(b[3], 0x88);
    assert_eq!(b[10], 0x11);
    assert_eq!(bytes::le64(&b, 3), 0x1122_3344_5566_7788);
    assert_eq!(bytes::le32(&b, 3), 0x5566_7788);
    assert_eq!(bytes::le16(&b, 9), 0x1122);
    assert_eq!(bytes::byte_of(0x1122_3344_5566_7788, 7), 0x11);
    bytes::write_le(&mut b, 0, 2, 0xABCD);
    assert_eq!(bytes::le16(&b, 0), 0xABCD);
}

#[test]
fn an_address_outside_the_pool_is_not_freed() {
    let mut fa = pool(16);
    let before = frames::free_frames(&fa);
    for a in [0u64, 0x8_0000, FLOOR + 16 * 4096, frames::PHYS_LIMIT] {
        assert_eq!(frames::free(&mut fa, a), Err("free: address not a managed frame base"));
    }
    assert!(frames::free_contiguous(&mut fa, u64::MAX - 4095, 2).is_err());
    assert_eq!(frames::free_frames(&fa), before);
    assert!(frames::ready(&fa));
}

#[test]
fn a_view_that_the_frames_do_not_last_for_says_so() {
    let h = record(3);
    let mut fa = pool(3);
    let mut p = Paging::new(vec![0u64; 0x400 * 512]);
    assert_eq!(
        views::build_kernel_view(&mut p, &mut fa, &h, &image(), 0x8_1000),
        Err("frames exhausted (window map)")
    );
    assert_eq!(frames::free_frames(&fa), 0);
    assert!(frames::ready(&fa));
    assert_eq!(
        views::build_kernel_view(&mut p, &mut fa, &h, &image(), 0x8_1000),
        Err("out of frames for the kernel-view PML4")
    );
    let mut one = pool(1);
    let mut p = Paging::new(vec![0u64; 0x400 * 512]);
    let layout = ImageLayout { base: 0x8_0000, size: 0x3000 };
    assert_eq!(
        views::init(&mut p, &mut one, &record(1), layout, &image(), 0),
        Err("frames exhausted (bulk map)")
    );
    assert_eq!(frames::free_frames(&one), 0);
}

#[test]
fn a_view_takes_just_the_tables_it_needs() {
    let h = record(0x300);
    let mut fa = pool(0x300);
    let mut p = Paging::new(vec![0u64; 0x400 * 512]);
    let before = frames::free_frames(&fa);
    assert!(views::build_kernel_view(&mut p, &mut fa, &h, &image(), 0x8_1000).is_ok());
    // The root, two tables of the direct map, three for the reset page, one for
    // the device and one for the block that the image cuts up.
    assert_eq!(before - frames::free_frames(&fa), 8);
    let mut few = pool(7);
    let mut p = Paging::new(vec![0u64; 0x400 * 512]);
    assert_eq!(
        views::build_kernel_view(&mut p, &mut few, &record(7), &image(), 0x8_1000),
        Err("frames exhausted (window map)")
    );
    let mut enough = pool(8);
    let mut p = Paging::new(vec![0u64; 0x400 * 512]);
    assert!(
        views::build_kernel_view(&mut p, &mut enough, &record(8), &image(), 0x8_1000).is_ok()
    );
    assert_eq!(frames::free_frames(&enough), 0);
}

#[test]
fn the_first_view_takes_just_the_tables_it_needs() {
    let layout = ImageLayout { base: 0x8_0000, size: 0x3000 };
    // The root, two tables at the regions' own addresses and two in the direct
    // map, and one for each block that the image cuts up.
    let mut fa = pool(7);
    let mut p = Paging::new(vec![0u64; 0x400 * 512]);
    assert!(views::init(&mut p, &mut fa, &record(7), layout, &image(), 0).is_ok());
    assert_eq!(frames::free_frames(&fa), 0);
    let mut fa = pool(6);
    let mut p = Paging::new(vec![0u64; 0x400 * 512]);
    assert_eq!(
        views::init(&mut p, &mut fa, &record(6), layout, &image(), 0),
        Err("frames exhausted (window map)")
    );
}

#[test]
fn relocating_back_restores_the_image() {
    let mut b = image();
    put(&mut b, 0x58 + 112 + 40, &0x2000u32.to_le_bytes());
    put(&mut b, 0x58 + 112 + 44, &28u32.to_le_bytes());
    // Two 64-bit slots and an entry of another kind, then the first slot again.
    put(&mut b, 0x2000, &0x1000u32.to_le_bytes());
    put(&mut b, 0x2004, &16u32.to_le_bytes());
    put(&mut b, 0x2008, &(0xA000u16 | 0x10).to_le_bytes());
    put(&mut b, 0x200A, &(0xA000u16 | 0x18).to_le_bytes());
    put(&mut b, 0x200C, &(0x3000u16 | 0x20).to_le_bytes());
    put(&mut b, 0x2010, &0x1000u32.to_le_bytes());
    put(&mut b, 0x2014, &12u32.to_le_bytes());
    put(&mut b, 0x2018, &(0xA000u16 | 0x10).to_le_bytes());
    put(&mut b, 0x1010, &u64::MAX.to_le_bytes());
    put(&mut b, 0x1018, &7u64.to_le_bytes());
    let before = b.clone();
    let delta: u64 = 0x1_0000;
    assert_eq!(pe::apply_base_relocations(&mut b, delta), Ok((3, 1)));
    assert_eq!(bytes::le64(&b, 0x1010), 0x1_FFFF);
    assert_eq!(bytes::le64(&b, 0x1018), 0x1_0007);
    for (i, x) in before.iter().enumerate() {
        if !(0x1010..0x1020).contains(&i) {
            assert_eq!(b[i], *x);
        }
    }
    assert_eq!(pe::apply_base_relocations(&mut b, delta.wrapping_neg()), Ok((3, 1)));
    assert!(b == before);
}

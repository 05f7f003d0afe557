use chaos_kernel::consts::{MEM_OFF, PAGE_SZ, VM_EXEC, VM_GROWSDOWN, VM_READ, VM_SHARED, VM_WRITE};
use chaos_kernel::memory::addr::{
    heap_init, k_off, log2_floor, p2v, v2p, verify_page_alignment,
};
use chaos_kernel::memory::buddy::BuddyAllocator;
use chaos_kernel::memory::frames::{
    defragment_frame_pool, frame_alloc, frame_alloc_contig, frame_dealloc, heap_grow, FramePool,
    PgFrame, SharedPage, ZoneInfo,
};
use chaos_kernel::memory::regions::{compute_rss_watermark, VmMap, VmRegion};
use chaos_kernel::memory::slab::{KStk, SlabEntry};

#[test]
fn physical_addresses_map_linearly() {
    assert_eq!(p2v(0x1000), 0xFFFF_FFFF_0000_1000);
    assert_eq!(v2p(0xFFFF_FFFF_0000_1000), 0x1000);
    for a in [0, 1, 0x8000_0000, 0xFFFF_FFFF_0000_0000, u64::MAX] {
        assert_eq!(v2p(p2v(a)), a);
        assert_eq!(p2v(v2p(a)), a);
    }
    assert_eq!(k_off(0xFFFF_FFFF_8000_0010), 0x10);
}

#[test]
fn the_heap_ends_at_a_page() {
    assert_eq!(heap_init(1, 3 * PAGE_SZ - 1), 3 * PAGE_SZ);
    assert_eq!(heap_init(PAGE_SZ, PAGE_SZ), 2 * PAGE_SZ);
}

#[test]
fn block_alignment_goes_by_order() {
    assert!(verify_page_alignment(0x2000, 1) && !verify_page_alignment(0x1000, 1));
    assert!(verify_page_alignment(0x80_0000, 11) && !verify_page_alignment(0, 12));
    assert!(!verify_page_alignment(0xFFFF_FFFF_8000_0000, 0));
    assert!(verify_page_alignment(0xFFFF_FFFF_7FFF_F000, 0));
    assert_eq!((log2_floor(0), log2_floor(1), log2_floor(7), log2_floor(8)), (0, 0, 2, 3));
    assert_eq!(log2_floor(usize::MAX), usize::BITS as usize - 1);
}

#[test]
fn a_frame_count_goes_up_and_down() {
    let mut f = PgFrame::new();
    assert!(!f.inc_if_nonzero());
    assert_eq!((f.up(), f.up(), f.down(), f.count()), (0, 1, 2, 1));
    assert!(f.inc_if_nonzero());
    assert!(f.cas(2, 9) && !f.cas(2, 3));
    f.set(4);
    assert_eq!((f.count(), PgFrame::with_rc(6).count()), (4, 6));
    let mut g = PgFrame::new();
    assert_eq!((g.down(), g.count()), (0, usize::MAX));
}

#[test]
fn regions_meet_where_they_share_an_address() {
    let a = VmRegion::new(0x1000, 0x1000, VM_READ);
    let b = VmRegion::new(0x2000, 0x1000, VM_READ);
    let c = VmRegion::with_offset(0x1FFF, 2, VM_READ, 5);
    assert!(!a.overlaps(&b) && !b.overlaps(&a));
    assert!(a.overlaps(&c) && c.overlaps(&a) && c.overlaps(&b));
    assert_eq!((a.end(), c.offset, a.ref_get()), (0x2000, 5, 1));
    assert!(a.contains(0x1FFF) && !a.contains(0x2000) && !a.contains(0xFFF));
}

#[test]
fn a_split_region_can_be_merged_again() {
    let mut r = VmRegion::with_offset(0x1000, 0x3000, VM_READ | VM_WRITE, 0x100);
    assert_eq!((r.ref_up(), r.ref_up(), r.ref_down()), (1, 2, 3));
    assert!(r.split_at(0x1000).is_none() && r.split_at(0x4000).is_none());
    let (lo, hi) = r.split_at(0x2000).unwrap();
    assert_eq!((lo.base, lo.len, lo.offset), (0x1000, 0x1000, 0x100));
    assert_eq!((hi.base, hi.len, hi.offset, hi.ref_get()), (0x2000, 0x2000, 0x1100, 2));
    let m = lo.merge_with(&hi).unwrap();
    assert_eq!((m.base, m.len, m.offset, m.flags), (0x1000, 0x3000, 0x100, 3));
    assert!(hi.merge_with(&lo).is_none());
}

#[test]
fn the_lower_part_of_a_stack_no_longer_grows() {
    let r = VmRegion::new(0x1000, 0x2000, VM_READ | VM_GROWSDOWN);
    let (lo, hi) = r.split_at(0x2000).unwrap();
    assert_eq!((lo.flags, hi.flags), (VM_READ, VM_READ | VM_GROWSDOWN));
    assert!(lo.merge_with(&hi).is_none());
}

#[test]
fn a_map_keeps_its_regions_apart_and_in_order() {
    let mut m = VmMap::new();
    assert_eq!((m.brk, m.mmap_base), (0x0040_0000, 0x7000_0000));
    assert!(m.find(5).is_none());
    assert_eq!(m.insert(VmRegion::new(0x3000, 0x1000, VM_READ)), Ok(()));
    assert_eq!(m.insert(VmRegion::new(0x1000, 0x1000, VM_READ)), Ok(()));
    assert_eq!(m.insert(VmRegion::new(0x1800, 0x1000, VM_READ)), Err("overlap"));
    assert_eq!(m.insert(VmRegion::new(0x2000, 0x1000, VM_READ)), Ok(()));
    let bases: Vec<usize> = m.clone_regions().iter().map(|r| r.base).collect();
    assert_eq!(bases, vec![0x1000, 0x2000, 0x3000]);
    assert_eq!(m.find(0x2FFF).map(|r| r.base), Some(0x2000));
    assert!(m.find(0x4000).is_none());
    assert_eq!(m.total_mapped(), 0x3000);
    assert_eq!(m.remove_range(0x1800, 0x1000), 2);
    assert!(m.find(0x1000).is_none() && m.find(0x3000).is_some());
    assert_eq!(m.gap_after(0), 0xFFFF_FFFF_8000_0000 - 0x4000);
    assert_eq!(m.gap_after(1), 0);
}

#[test]
fn a_free_range_avoids_what_is_mapped() {
    let mut m = VmMap::new();
    assert_eq!((m.find_free(0, 0), m.find_free(1, 0)), (Some(0x7000_0000), Some(0x7000_0000)));
    assert_eq!(m.insert(VmRegion::new(0x7000_1000, 0x1000, VM_READ)), Ok(()));
    assert_eq!(m.find_free(0x1000, 1), Some(0x7000_0000));
    assert_eq!(m.find_free(0x2000, 1), Some(0x7000_2000));
    assert_eq!(m.find_free(0x2000, 0x4000), Some(0x7000_4000));
    assert_eq!(m.find_free(usize::MAX, 1), None);
    assert_eq!(m.insert(VmRegion::new(0x7000_2000, 0x2000, VM_READ)), Ok(()));
    assert_eq!(m.gap_after(0), 0);
}

#[test]
fn resident_pages_weigh_by_what_may_be_done_with_them() {
    let rs = vec![
        VmRegion::new(0, 1, VM_READ),
        VmRegion::new(0, PAGE_SZ + 1, VM_WRITE | VM_SHARED),
        VmRegion::new(0, PAGE_SZ, VM_EXEC | VM_WRITE),
    ];
    assert_eq!(compute_rss_watermark(&rs, 1000), 1);
    assert_eq!(compute_rss_watermark(&rs, 100), 12);
    assert_eq!(compute_rss_watermark(&rs, 10), 5);
    assert_eq!((compute_rss_watermark(&rs, 0), compute_rss_watermark(&[], 9)), (0, 0));
}

#[test]
fn the_first_free_frame_is_given_out_until_none_is_left() {
    let mut p = FramePool::new(3);
    assert_eq!((p.get(5), p.get_inner(), p.free_count()), (Some(0), Some(1), 1));
    assert!(!p.avail(0) && p.avail(2) && !p.avail(3));
    p.put(0);
    p.put(99);
    assert_eq!(p.batch_alloc(5), vec![0, 2]);
    assert_eq!((p.get(0), p.batch_alloc(1)), (None, vec![]));
}

#[test]
fn runs_of_frames_start_at_their_alignment() {
    let mut p = FramePool::new(8);
    assert_eq!(p.get_inner(), Some(0));
    assert_eq!(p.get_contig(2, 1), Some(2));
    assert_eq!(p.get_contig(2, 0), Some(4));
    assert_eq!(p.get_contig(3, 0), None);
    let mut q = FramePool::new(8);
    assert_eq!(q.get_inner(), Some(0));
    assert_eq!(frame_alloc_contig(&mut q, 3, 2), Some(4 * PAGE_SZ + MEM_OFF));
    assert_eq!(frame_alloc_contig(&mut q, 3, 0), Some(PAGE_SZ + MEM_OFF));
    assert_eq!((frame_alloc_contig(&mut q, 0, 0), frame_alloc_contig(&mut q, 9, 0)), (None, None));
}

#[test]
fn frames_are_taken_from_the_hand_of_the_clock_on() {
    let mut p = FramePool::new(4);
    assert_eq!(frame_alloc(&mut p, 6), Some(2 * PAGE_SZ + MEM_OFF));
    assert_eq!(frame_alloc(&mut p, 6), Some(3 * PAGE_SZ + MEM_OFF));
    assert_eq!(frame_alloc(&mut p, 6), Some(MEM_OFF));
    frame_dealloc(&mut p, MEM_OFF + 2 * PAGE_SZ + 1);
    frame_dealloc(&mut p, 5);
    frame_dealloc(&mut p, MEM_OFF + 77 * PAGE_SZ);
    assert_eq!(p.free_count(), 1);
    frame_dealloc(&mut p, MEM_OFF + 2 * PAGE_SZ);
    assert_eq!((p.free_count(), frame_alloc(&mut FramePool::new(0), 3)), (2, None));
}

#[test]
fn a_zone_stops_at_its_low_mark() {
    let mut p = FramePool::new(8);
    let mut z = ZoneInfo::new(1, 4, 3, 1, 3);
    assert_eq!((z.zone_pressure(), z.reclaim_target()), (0, 0));
    assert_eq!(p.get_zone_aware(&mut z), Some(4));
    assert_eq!((z.zone_pressure(), z.reclaim_target()), (50, 1));
    assert_eq!(p.get_zone_aware(&mut z), Some(5));
    assert!(!z.zone_can_alloc());
    assert_eq!((p.get_zone_aware(&mut z), z.zone_pressure()), (None, 100));
    p.put_zone_aware(5, &mut z);
    p.put_zone_aware(50, &mut z);
    assert_eq!(z.free_count, 2);
    assert!(z.contains_pfn(6) && !z.contains_pfn(7) && !z.contains_pfn(3) && z.managed);
}

#[test]
fn the_first_write_to_a_shared_page_copies_it() {
    let mut p = FramePool::new(4);
    let mut src = PgFrame::with_rc(2);
    let mut s = SharedPage::new(3);
    p.slots[3] = false;
    assert!(!s.is_cow_resolved());
    assert_eq!(s.fault(&mut p, &mut src), Ok(0));
    assert_eq!((src.count(), s.frame_id(), s.is_cow_resolved()), (1, 0, true));
    assert_eq!(s.fault(&mut p, &mut src), Ok(0));
    assert_eq!((src.count(), p.free_count()), (1, 2));
    let mut t = SharedPage::new(1);
    assert_eq!(t.fault(&mut FramePool::new(0), &mut src), Err("oom"));
    assert!(t.pending && src.count() == 1);
}

#[test]
fn neighbouring_frames_make_one_piece_of_heap() {
    let off = 0xFFFF_FFFF_0000_0000;
    let mut p = FramePool::new(6);
    p.slots[2] = false;
    assert_eq!(heap_grow(&mut p, 4), vec![(off, 0x2000), (off + 0x3000, 0x2000)]);
    assert_eq!(p.free_count(), 1);
    assert_eq!(heap_grow(&mut p, 9), vec![(off + 0x5000, 0x1000)]);
    assert_eq!(heap_grow(&mut p, 1), vec![]);
}

#[test]
fn pieces_of_heap_are_the_frames_that_were_taken() {
    let mut p = FramePool::new(16);
    for i in [0, 3, 4, 9, 15] {
        p.slots[i] = false;
    }
    let before = p.slots.clone();
    let pieces = heap_grow(&mut p, 8);
    let off = 0xFFFF_FFFF_0000_0000u64;
    for f in 0..16 {
        let va = off + f as u64 * 0x1000;
        let held = pieces.iter().filter(|q| q.0 <= va && va - q.0 < q.1).count();
        assert_eq!(held, usize::from(before[f] && !p.slots[f]));
    }
    assert_eq!((pieces.iter().map(|q| q.1).sum::<u64>(), p.free_count()), (8 * 0x1000, 3));
}

#[test]
fn taking_stock_of_the_pool_changes_nothing() {
    let mut s = vec![true, false, true, true];
    assert_eq!(defragment_frame_pool(&mut s), 3);
    assert_eq!(s, vec![true, false, true, true]);
}

#[test]
fn a_slab_gives_out_cleared_objects_in_turn() {
    let mut s = SlabEntry::new(5, 3);
    assert_eq!((s.obj_size, s.slab_avail()), (8, 3));
    assert_eq!((s.slab_alloc(true), s.slab_alloc(false)), (Some(0), Some(8)));
    s.obj_at_mut(8).unwrap()[3] = 7;
    s.slab_free(8);
    s.slab_free(3);
    s.slab_free(800);
    assert_eq!((s.slab_used(), s.slab_avail()), (1, 2));
    assert_eq!((s.slab_alloc(true), s.slab_alloc(true), s.slab_alloc(true)), (Some(16), Some(8), None));
    assert_eq!(s.obj_at(8), Some(&[0u8; 8][..]));
    assert!(s.obj_at(17).is_none() && s.obj_at_mut(17).is_none());
    assert_eq!(s.shrink(), 0);
    for o in [0, 8, 16] {
        s.slab_free(o);
    }
    assert_eq!((s.shrink(), s.slab_avail(), s.slab_alloc(false)), (24, 0, None));
    assert_eq!(KStk::new(0x1000).top(), 0x5000);
}

#[test]
fn blocks_split_and_join_again() {
    let mut b = BuddyAllocator::new(0, 11, 3);
    assert_eq!(b.free_lists, vec![vec![10 * PAGE_SZ], vec![8 * PAGE_SZ], vec![], vec![0]]);
    assert_eq!((b.free_pages_count(), b.largest_free_order(), b.fragmentation_score()), (11, 3, 27));
    let x = b.alloc_order(2).unwrap();
    assert_eq!((x, b.allocated, b.free_pages_count()), (0, 4, 7));
    let y = b.alloc_order(0).unwrap();
    assert_eq!(y, 10 * PAGE_SZ);
    assert_eq!(b.alloc_order(4), None);
    b.free_order(x, 2);
    assert_eq!(b.free_lists[3], vec![0]);
    b.free_order(y, 0);
    b.free_order(0, 9);
    assert_eq!((b.free_pages_count(), b.allocated), (11, 0));
    let s = b.snapshot();
    assert_eq!((s.free_lists, s.max_order, s.total_pages, s.base_addr), (b.free_lists, 3, 11, 0));
}

#[test]
fn freeing_joins_what_an_allocation_split() {
    let mut b = BuddyAllocator::new(16 * PAGE_SZ, 27, 4);
    let mut live: Vec<(usize, usize)> = Vec::new();
    for (n, o) in [0, 1, 0, 2, 1, 0, 3, 0].into_iter().enumerate() {
        let before = b.snapshot();
        let x = b.alloc_order(o).unwrap();
        b.free_order(x, o);
        assert_eq!(b.free_lists, before.free_lists);
        assert_eq!((b.allocated, b.free_pages_count()), (before.allocated, before.free_pages_count()));
        live.push((b.alloc_order(o).unwrap(), o));
        if n % 3 == 2 {
            let (y, q) = live.remove(0);
            b.free_order(y, q);
        }
    }
    for (x, o) in live {
        b.free_order(x, o);
    }
    let fresh = BuddyAllocator::new(16 * PAGE_SZ, 27, 4);
    assert_eq!((b.allocated, b.free_pages_count()), (0, 27));
    for o in 0..5 {
        b.free_lists[o].sort();
        assert_eq!(b.free_lists[o], fresh.free_lists[o]);
    }
}

#[test]
fn an_empty_allocator_has_nothing_to_give() {
    let mut b = BuddyAllocator::new(0, 0, 2);
    assert_eq!((b.alloc_order(0), b.fragmentation_score(), b.largest_free_order()), (None, 0, 0));
    let mut c = BuddyAllocator::new(0, 1, 2);
    assert_eq!((c.alloc_order(0), c.alloc_order(0)), (Some(0), None));
}

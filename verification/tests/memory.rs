use twilight_kernel::memory::bitmap::{BitmapFrameAllocator, MemoryRegion, UsableRegion};
use twilight_kernel::memory::heap::{heap_free, heap_pages, heap_size, heap_used, HeapUsage};
use twilight_kernel::memory::pages::{
    alloc_pages, buffer_next, dealloc_page, grant_flags_set, grant_mapped, grant_next,
    map_kernel_buffer, map_mmio, next_page, page_run, phys_to_virt, user_page_flags,
    user_page_flags_with_access, Mapped, PageAction, PageRun,
};
use twilight_kernel::memory::phys::PhysBuf;
use twilight_kernel::memory::{mem_stats_bytes, memory_size};

fn region(base: u64, length: u64, usable: bool) -> MemoryRegion {
    MemoryRegion { base, length, usable }
}

/// Four usable frames behind the bitmap at 0x10000, and four more at 0x20000.
fn frames() -> BitmapFrameAllocator {
    let map = [
        region(0, 0x1000, false),
        region(0x10000, 0x5000, true),
        region(0x15000, 0x1000, false),
        region(0x20000, 0x4000, true),
    ];
    BitmapFrameAllocator::init(&map).unwrap()
}

#[test]
fn the_bitmap_takes_the_start_of_the_first_region() {
    let a = frames();
    assert_eq!(a.bitmap_addr, 0x10000);
    assert_eq!(a.total_frames(), 8);
    assert_eq!(a.allocated_frames(), 0);
    assert_eq!(a.free_frames(), 8);
    assert_eq!(a.index_to_frame(0), Some(0x11000));
    assert_eq!(a.index_to_frame(4), Some(0x20000));
    assert_eq!(a.index_to_frame(8), None);
    assert_eq!(a.frame_to_index(0x10000), None);
    assert_eq!(a.frame_to_index(0x21000), Some(5));
}

#[test]
fn a_map_without_room_for_the_bitmap_is_refused() {
    assert!(BitmapFrameAllocator::init(&[]).is_none());
    assert!(BitmapFrameAllocator::init(&[region(0x1000, 0x1000, false)]).is_none());
}

#[test]
fn frames_are_given_out_in_order_and_found_again() {
    let mut a = frames();
    let mut got = Vec::new();
    while let Some(f) = a.allocate_frame() {
        got.push(f);
    }
    assert_eq!(
        got,
        vec![0x11000, 0x12000, 0x13000, 0x14000, 0x20000, 0x21000, 0x22000, 0x23000]
    );
    assert_eq!(a.free_frames(), 0);
    a.deallocate_frame(0x13000);
    assert_eq!(a.allocated_frames(), 7);
    assert!(!a.is_frame_allocated(2));
    a.deallocate_frame(0x13000);
    a.deallocate_frame(0x99000);
    assert_eq!(a.allocated_frames(), 7);
    assert_eq!(a.allocate_frame(), Some(0x13000));
    assert_eq!(a.allocate_frame(), None);
}

#[test]
fn runs_do_not_cross_regions() {
    let mut a = frames();
    assert_eq!(a.allocate_frame(), Some(0x11000));
    assert_eq!(a.allocate_contiguous(4), Some(0x20000));
    assert_eq!(a.allocate_contiguous(3), Some(0x12000));
    assert_eq!(a.allocate_contiguous(1), None);
    assert_eq!(a.allocate_contiguous(0), None);
}

#[test]
fn runs_end_below_the_address_that_was_asked_for() {
    let mut a = frames();
    assert_eq!(a.allocate_contiguous_below(2, 0x12FFF), Some(0x11000));
    assert_eq!(a.allocate_contiguous_below(1, 0x12FFF), None);
    assert_eq!(a.allocate_contiguous_below(2, 0x10FFF), None);
    assert_eq!(a.allocate_contiguous_below(2, 0x21FFF), Some(0x13000));
}

#[test]
fn a_buffer_gives_its_frames_back() {
    let mut a = frames();
    let b = PhysBuf::new(0x1001, &mut a).unwrap();
    assert_eq!(b.addr(), 0x11000);
    assert_eq!(b.pages, 2);
    assert_eq!(b.virt_addr(0x1_0000_0000), 0x1_0001_1000);
    assert_eq!(a.allocated_frames(), 2);
    b.release(&mut a);
    assert_eq!(a.allocated_frames(), 0);
    assert!(PhysBuf::new(0, &mut a).is_none());
    assert!(PhysBuf::new(0x9000, &mut a).is_none());
    let d = PhysBuf::new_dma32(0x3000, &mut a).unwrap();
    assert_eq!(d.addr(), 0x11000);
    assert_eq!(d.len, 0x3000);
}

#[test]
fn regions_count_the_frames_that_they_touch() {
    let r = UsableRegion::new(0x1800, 0x3001);
    assert_eq!(r, UsableRegion { first_frame: 0x1000, frame_count: 3 });
    assert_eq!(r.last_frame(), 0x3000);
    assert!(r.contains(0x2000));
    assert!(!r.contains(0x4000));
    assert_eq!(r.offset(0x3000), 2);
}

#[test]
fn memory_is_counted_in_bytes() {
    let mut a = frames();
    assert_eq!(mem_stats_bytes(&a), (8 * 4096, 8 * 4096));
    a.allocate_frame();
    assert_eq!(mem_stats_bytes(&a), (8 * 4096, 7 * 4096));
    let map = [region(0x1000, 0x9000, true), region(0xF0000, 0x10000, false), region(0x200000, 0x1000, true)];
    // The gaps below one mebibyte belong to the firmware; the one above does not count.
    assert_eq!(memory_size(&map), 0x1000 + 0x9000 + 0xE6000 + 0x10000 + 0x1000);
    assert_eq!(memory_size(&[]), 0);
}

#[test]
fn page_flags_by_bit() {
    assert_eq!(user_page_flags(true, true), 7);
    assert_eq!(user_page_flags(false, true), 5);
    assert_eq!(user_page_flags(true, false), 7 | 1 << 63);
    assert_eq!(user_page_flags_with_access(false, true, true), 3);
}

#[test]
fn pages_are_handed_out_one_by_one() {
    assert_eq!(page_run(0x1234, 0), PageRun { next: 0x1000, left: 1 });
    let mut run = page_run(0x1FFF, 2);
    assert_eq!(run, PageRun { next: 0x1000, left: 2 });
    assert_eq!(next_page(&mut run), Some(0x1000));
    assert_eq!(next_page(&mut run), Some(0x2000));
    assert_eq!(next_page(&mut run), None);
}

#[test]
fn memory_for_a_program() {
    let mut a = frames();
    let mut g = alloc_pages(0x40_0000, 0x2000, true, false);
    let flags = user_page_flags(true, false);
    assert_eq!(
        grant_next(&mut g, &mut a),
        PageAction::MapFrame { page: 0x40_0000, frame: 0x11000, flags }
    );
    assert_eq!(grant_mapped(&g, 0x40_0000, 0x11000, Mapped::Done, &mut a), None);
    assert_eq!(
        grant_next(&mut g, &mut a),
        PageAction::MapFrame { page: 0x40_1000, frame: 0x12000, flags }
    );
    assert_eq!(
        grant_mapped(&g, 0x40_1000, 0x12000, Mapped::Present, &mut a),
        Some(PageAction::SetFlags { page: 0x40_1000, flags })
    );
    assert_eq!(a.allocated_frames(), 1);
    assert_eq!(grant_flags_set(true), None);
    assert_eq!(grant_flags_set(false), Some(PageAction::Refused));
    assert_eq!(grant_next(&mut g, &mut a), PageAction::Finished);
    assert_eq!(
        grant_mapped(&g, 0x40_0000, 0x11000, Mapped::Failed, &mut a),
        Some(PageAction::Refused)
    );
    assert_eq!(a.allocated_frames(), 0);
}

#[test]
fn memory_runs_out() {
    let mut a = frames();
    while a.allocate_frame().is_some() {}
    let mut g = alloc_pages(0x40_0000, 1, true, true);
    assert_eq!(grant_next(&mut g, &mut a), PageAction::Refused);
    dealloc_page(None, &mut a);
    assert_eq!(a.free_frames(), 0);
    dealloc_page(Some(0x20000), &mut a);
    assert_eq!(a.free_frames(), 1);
}

#[test]
fn memory_of_the_kernel_for_a_program() {
    assert!(map_kernel_buffer(0x5000, 0, 0x1000, true, true).is_none());
    let mut b = map_kernel_buffer(0x5800, 0x1000, 0x9000, false, false).unwrap();
    assert_eq!((b.src, b.end), (0x5000, 0x7000));
    assert_eq!(buffer_next(&mut b), Some((0x5000, 0x9000)));
    assert_eq!(buffer_next(&mut b), Some((0x6000, 0xA000)));
    assert_eq!(buffer_next(&mut b), None);
}

#[test]
fn devices_are_mapped_without_a_cache() {
    let g = map_mmio(0xFEB0_0010, 0x1000);
    assert_eq!(g.run, PageRun { next: 0xFEB0_0000, left: 2 });
    assert_eq!(g.flags, 1 | 2 | 16 | 1 << 63);
    assert_eq!(phys_to_virt(0xFEB0_0000, 0x1000), 0xFEB0_1000);
}

#[test]
fn the_heap() {
    let h = HeapUsage { size: 100, used: 30 };
    assert_eq!((heap_size(&h), heap_used(&h), heap_free(&h)), (100, 30, 70));
    assert_eq!(heap_pages(), PageRun { next: 0x4444_4444_0000, left: 25600 });
}

use demand_paging::config::MAX_PAGES;
use demand_paging::mm::address::{PhysPageNum, VirtPageNum};
use demand_paging::mm::frame_manager::PRA;
use demand_paging::mm::memory_set::{memory_alloc, memory_free, MapType, MemorySet};
use demand_paging::mm::vmm::{do_pgfault, evict_next, FatalFault, Kernel};

const BASE: usize = 0x1000_0000;
const PAGE: usize = 4096;

/// A kernel with `frames` frames in its pool, of which the root table of
/// the first process takes one.
fn kernel(frames: u64, pra: PRA) -> Kernel {
    Kernel::new(PhysPageNum(0x80400), PhysPageNum(0x80400 + frames), pra)
}

fn free_frames(k: &Kernel) -> usize {
    let mut n = 0;
    while k.frame_allocator.has_free(n + 1) {
        n += 1;
    }
    n
}

fn resident_pages(ms: &MemorySet) -> usize {
    ms.areas.iter().map(|a| a.data_frames.len()).sum()
}

fn swapped_pages(k: &Kernel, first_vpn: u64, count: u64) -> usize {
    let token = k.current.token();
    (0..count).filter(|i| k.ide_manager.check(token, VirtPageNum(first_vpn + i))).count()
}

#[test]
fn mmap_rejection() {
    let mut k = kernel(64, PRA::ClockImproved);
    // Alignment.
    assert_eq!(k.mmap(BASE + 1, PAGE, 3), -1);
    // A region of length 0 is mapped with no effect.
    assert_eq!(k.mmap(BASE, 0, 3), 0);
    assert_eq!(k.current.areas.len(), 0);
    // Empty protection.
    assert_eq!(k.mmap(BASE, PAGE, 0), -1);
    // A protection bit beyond XWR.
    assert_eq!(k.mmap(BASE, PAGE, 8), -1);
    // More than 1 GiB.
    assert_eq!(k.mmap(BASE, (1 << 30) + 1, 3), -1);
    assert_eq!(k.current.areas.len(), 0);
    // Two overlapping regions: the second is refused.
    assert_eq!(k.mmap(BASE, 2 * PAGE, 3), 0);
    assert_eq!(k.mmap(BASE + PAGE, PAGE, 3), -1);
    assert_eq!(k.mmap(BASE - PAGE, 2 * PAGE, 3), -1);
    assert_eq!(k.mmap(BASE + 2 * PAGE, PAGE, 3), 0);
    assert_eq!(k.current.areas.len(), 3);
}

#[test]
fn mmap_makes_one_lazy_area_for_each_page() {
    let mut k = kernel(64, PRA::FIFO);
    let before = free_frames(&k);
    assert_eq!(memory_alloc(&mut k.current, BASE, 3 * PAGE + 1, 5), 0);
    assert_eq!(k.current.areas.len(), 4);
    for (i, area) in k.current.areas.iter().enumerate() {
        assert_eq!(area.vpn_range.get_start().0, 0x10000 + i as u64);
        assert_eq!(area.vpn_range.get_end().0, 0x10000 + i as u64 + 1);
        assert_eq!(area.map_type, MapType::Framed);
        // R and X, moved up by one, and U.
        assert_eq!(area.map_perm.bits, (5 << 1) | 0x10);
        assert!(area.data_frames.is_empty());
    }
    // No frame was taken.
    assert_eq!(free_frames(&k), before);
    assert_eq!(k.current.translate(VirtPageNum(0x10000)), None);
}

#[test]
fn munmap_removes_the_areas_and_frees_the_frames() {
    let mut k = kernel(64, PRA::Clock);
    assert_eq!(k.mmap(BASE, 4 * PAGE, 3), 0);
    for i in 0..4 {
        assert_eq!(k.user_write(BASE + i * PAGE, 1, 0), Ok(true));
    }
    let used = free_frames(&k);
    // Not aligned.
    assert_eq!(k.munmap(BASE + 1, PAGE), -1);
    // Nothing mapped there.
    assert_eq!(k.munmap(BASE + 8 * PAGE, PAGE), -1);
    // The areas do not cover all of the region.
    assert_eq!(k.munmap(BASE + 2 * PAGE, 3 * PAGE), -1);
    assert_eq!(k.current.areas.len(), 4);
    assert_eq!(free_frames(&k), used);
    // Length 0 succeeds with no effect.
    assert_eq!(k.munmap(BASE, 0), 0);
    assert_eq!(k.current.areas.len(), 4);
    assert_eq!(k.munmap(BASE + PAGE, 2 * PAGE), 0);
    assert_eq!(k.current.areas.len(), 2);
    assert_eq!(k.current.areas[0].vpn_range.get_start().0, 0x10000);
    assert_eq!(k.current.areas[1].vpn_range.get_start().0, 0x10003);
    assert_eq!(free_frames(&k), used + 2);
    assert!(k.p2v_map.get(k.current.areas[0].data_frames[&0x10000].ppn).is_some());
    assert_eq!(resident_pages(&k.current), 2);
    // The pages are gone: an access there is a segmentation fault.
    assert_eq!(k.user_write(BASE + PAGE, 1, 0), Ok(false));
    assert_eq!(k.user_read(BASE, 0), Ok(Some(1)));
    let mut ms = MemorySet::new_bare(PRA::Clock, &mut k.frame_allocator);
    assert_eq!(memory_free(&mut ms, BASE, PAGE, &mut k.p2v_map, &mut k.frame_allocator), -1);
}

#[test]
fn fault_outside_every_area_is_a_segmentation_fault() {
    let mut k = kernel(16, PRA::Clock);
    assert_eq!(k.mmap(BASE, PAGE, 3), 0);
    let before = free_frames(&k);
    assert_eq!(do_pgfault(&mut k, BASE + PAGE, 0, 0), Ok(false));
    assert_eq!(do_pgfault(&mut k, 0, 1, 0), Ok(false));
    assert_eq!(free_frames(&k), before);
    assert_eq!(k.user_read(BASE + 5 * PAGE, 0), Ok(None));
}

#[test]
fn fault_on_a_forbidden_access_is_a_protection_fault() {
    let mut k = kernel(16, PRA::Clock);
    // Read only.
    assert_eq!(k.mmap(BASE, PAGE, 1), 0);
    assert_eq!(k.user_read(BASE, 0), Ok(Some(0)));
    let before = free_frames(&k);
    assert_eq!(do_pgfault(&mut k, BASE, 1, 0), Ok(false));
    assert_eq!(do_pgfault(&mut k, BASE + 7, 2, 0), Ok(false));
    assert_eq!(k.user_write(BASE, 9, 0), Ok(false));
    assert_eq!(free_frames(&k), before);
    assert_eq!(k.user_read(BASE, 0), Ok(Some(0)));
}

#[test]
fn first_touch_gives_a_cleared_page_with_the_permissions_of_the_area() {
    let mut k = kernel(16, PRA::FIFO);
    assert_eq!(k.mmap(BASE, PAGE, 3), 0);
    assert_eq!(do_pgfault(&mut k, BASE + 123, 0, 0), Ok(true));
    let pte = k.current.translate(VirtPageNum(0x10000)).unwrap();
    assert!(pte.is_valid() && pte.readable() && pte.writable() && !pte.executable());
    assert!(!pte.accessed() && !pte.dirty());
    assert_eq!(pte.flags().bits, 0x01 | (3 << 1) | 0x10);
    let frame = &k.current.areas[0].data_frames[&0x10000];
    assert_eq!(frame.ppn, pte.ppn());
    assert!(frame.data.iter().all(|b| *b == 0));
    assert_eq!(k.p2v_map.get(frame.ppn), Some(VirtPageNum(0x10000)));
    // The root table took frame 0, the page frame 1, two new tables 2 and 3.
    assert_eq!(frame.ppn, PhysPageNum(0x80401));
    assert_eq!(free_frames(&k), 12);
    assert_eq!(k.load(BASE + 123), Some(0));
    assert!(k.current.translate(VirtPageNum(0x10000)).unwrap().accessed());
}

#[test]
fn fifo_evicts_the_oldest_page_and_restores_its_bytes() {
    // Frames: root, two tables, and three for pages.
    let mut k = kernel(6, PRA::FIFO);
    assert_eq!(k.mmap(BASE, 4 * PAGE, 3), 0);
    for i in 0..4usize {
        assert_eq!(k.user_write(BASE + i * PAGE + i, 0x10 + i as u8, 0), Ok(true));
    }
    // Taking the third frame left none free, so the oldest page left
    // early; the fourth page then took the freed frame and sent the next
    // oldest out.
    assert_eq!(resident_pages(&k.current), 2);
    assert_eq!(swapped_pages(&k, 0x10000, 4), 2);
    let token = k.current.token();
    assert!(k.ide_manager.check(token, VirtPageNum(0x10000)));
    assert!(k.ide_manager.check(token, VirtPageNum(0x10001)));
    assert_eq!(free_frames(&k), 1);
    for i in 0..4usize {
        assert_eq!(k.user_read(BASE + i * PAGE + i, 0), Ok(Some(0x10 + i as u8)));
        assert_eq!(k.user_read(BASE + i * PAGE + i + 1, 0), Ok(Some(0)));
    }
}

#[test]
fn a_resident_page_is_not_in_the_swap_store() {
    let mut k = kernel(8, PRA::Clock);
    assert_eq!(k.mmap(BASE, 16 * PAGE, 3), 0);
    for round in 0..3usize {
        for i in 0..16usize {
            assert_eq!(k.user_write(BASE + i * PAGE, (round * 16 + i) as u8, 0), Ok(true));
            let token = k.current.token();
            for area in k.current.areas.iter() {
                for (vpn, frame) in area.data_frames.iter() {
                    assert!(!k.ide_manager.check(token, VirtPageNum(*vpn)));
                    assert_eq!(k.p2v_map.get(frame.ppn), Some(VirtPageNum(*vpn)));
                    let pte = k.current.translate(VirtPageNum(*vpn)).unwrap();
                    assert!(pte.is_valid());
                    assert_eq!(pte.ppn(), frame.ppn);
                }
            }
        }
    }
    for i in 0..16usize {
        assert_eq!(k.user_read(BASE + i * PAGE, 0), Ok(Some((32 + i) as u8)));
    }
}

#[test]
fn evict_next_fails_without_a_registered_frame() {
    let mut k = kernel(8, PRA::Clock);
    assert_eq!(
        evict_next(&mut k.current, &mut k.ide_manager, &mut k.p2v_map, &mut k.frame_allocator),
        Err(FatalFault::OutOfFrames)
    );
    assert_eq!(k.mmap(BASE, PAGE, 3), 0);
    assert_eq!(k.user_write(BASE, 5, 0), Ok(true));
    let ppn = k.current.areas[0].data_frames[&0x10000].ppn;
    assert_eq!(
        evict_next(&mut k.current, &mut k.ide_manager, &mut k.p2v_map, &mut k.frame_allocator),
        Ok(ppn)
    );
    assert_eq!(k.current.translate(VirtPageNum(0x10000)).unwrap().is_valid(), false);
    assert_eq!(k.p2v_map.get(ppn), None);
    assert!(k.ide_manager.check(k.current.token(), VirtPageNum(0x10000)));
    assert_eq!(k.user_read(BASE, 0), Ok(Some(5)));
}

#[test]
fn out_of_frames_with_nothing_to_evict() {
    // The root table takes the only frame.
    let mut k = kernel(1, PRA::Clock);
    assert_eq!(k.mmap(BASE, PAGE, 3), 0);
    assert_eq!(do_pgfault(&mut k, BASE, 1, 0), Err(FatalFault::OutOfFrames));
    // One frame for the page, but none for the tables.
    let mut k = kernel(2, PRA::Clock);
    assert_eq!(k.mmap(BASE, PAGE, 3), 0);
    assert_eq!(do_pgfault(&mut k, BASE, 1, 0), Err(FatalFault::OutOfFrames));
}

#[test]
fn sequential_touch_under_local_clock_improved() {
    let mut k = kernel(64, PRA::ClockImproved);
    assert_eq!(k.mmap(BASE, PAGE * 100, 3), 0);
    for i in 0..PAGE * 100 {
        assert_eq!(k.user_write(BASE + i, (i % 256) as u8, 0), Ok(true));
    }
    for i in 0..PAGE * 100 {
        assert_eq!(k.user_read(BASE + i, 0), Ok(Some((i % 256) as u8)));
    }
    assert!(free_frames(&k) < 64);
    assert!(swapped_pages(&k, 0x10000, 100) >= 36);
    assert_eq!(resident_pages(&k.current) + swapped_pages(&k, 0x10000, 100), 100);
}

#[test]
fn swap_exhaustion_is_a_fatal_fault() {
    // Seven frames go to the page table of the region, two to pages.
    let mut k = kernel(9, PRA::Clock);
    let pages = MAX_PAGES + 2;
    assert_eq!(k.mmap(BASE, PAGE * pages, 3), 0);
    let mut outcome = Ok(true);
    let mut touched = 0;
    for i in 0..pages {
        outcome = k.user_write(BASE + i * PAGE, 1, 0);
        if outcome != Ok(true) {
            break;
        }
        touched += 1;
    }
    assert_eq!(outcome, Err(FatalFault::SwapFull));
    // The store has 2535 slots, and one page is resident: the fault on
    // the last page finds no slot for the page that must leave.
    assert_eq!(touched, MAX_PAGES + 1);
    assert!(!k.ide_manager.has_room());
}

#[test]
fn fifo_queue_turns_over_at_a_fault() {
    // Root, two tables and four pages.
    let mut k = kernel(7, PRA::FIFO);
    assert_eq!(k.mmap(BASE, 8 * PAGE, 3), 0);
    for i in 0..3usize {
        assert_eq!(k.user_write(BASE + i * PAGE, i as u8, 0), Ok(true));
    }
    // One frame is free: the next fault takes it and sends the oldest page
    // out to have a frame in reserve.
    assert_eq!(free_frames(&k), 1);
    let queue: Vec<PhysPageNum> = (0..3).map(|i| k.current.frame_manager.frame_at(i)).collect();
    assert_eq!(k.user_write(BASE + 3 * PAGE, 3, 0), Ok(true));
    assert_eq!(k.current.frame_manager.len(), 3);
    assert_eq!(k.current.frame_manager.frame_at(0), queue[1]);
    assert_eq!(k.current.frame_manager.frame_at(1), queue[2]);
    let newest = k.current.areas[3].data_frames[&0x10003].ppn;
    assert_eq!(k.current.frame_manager.frame_at(2), newest);
    assert!(k.current.areas[0].data_frames.is_empty());
    assert!(k.ide_manager.check(k.current.token(), VirtPageNum(0x10000)));
    assert_eq!(free_frames(&k), 1);
    // The victim's frame is the one in reserve.
    assert!(k.frame_allocator.has_free(1));
    assert_eq!(k.frame_allocator.allocate(), Some(queue[0]));
    k.frame_allocator.dealloc(queue[0]);
}

#[test]
fn clock_gives_a_used_page_a_second_chance() {
    // Root, two tables and four pages.
    let mut k = kernel(7, PRA::Clock);
    assert_eq!(k.mmap(BASE, 8 * PAGE, 3), 0);
    for i in 0..3usize {
        assert_eq!(k.user_write(BASE + i * PAGE, i as u8 + 1, 0), Ok(true));
    }
    assert_eq!(free_frames(&k), 1);
    let token = k.current.token();
    // All three pages were used: the scan clears their bits on its way
    // round and takes the first of them.
    assert_eq!(k.user_write(BASE + 3 * PAGE, 4, 0), Ok(true));
    assert!(k.ide_manager.check(token, VirtPageNum(0x10000)));
    assert!(k.current.areas[0].data_frames.is_empty());
    assert_eq!(resident_pages(&k.current), 3);
    assert!(!k.current.translate(VirtPageNum(0x10001)).unwrap().accessed());
    assert!(!k.current.translate(VirtPageNum(0x10002)).unwrap().accessed());
    // Page 1 is used again, page 2 is not: the next fault passes page 1
    // and takes page 2.
    assert_eq!(k.user_read(BASE + PAGE, 0), Ok(Some(2)));
    assert!(k.current.translate(VirtPageNum(0x10001)).unwrap().accessed());
    assert_eq!(k.user_write(BASE + 4 * PAGE, 5, 0), Ok(true));
    assert!(k.ide_manager.check(token, VirtPageNum(0x10002)));
    assert!(!k.ide_manager.check(token, VirtPageNum(0x10001)));
    assert!(k.current.areas[2].data_frames.is_empty());
    assert_eq!(k.current.areas[1].data_frames.len(), 1);
    assert!(!k.current.translate(VirtPageNum(0x10001)).unwrap().accessed());
    // What left comes back as it was.
    assert_eq!(k.user_read(BASE, 0), Ok(Some(1)));
    assert_eq!(k.user_read(BASE + 2 * PAGE, 0), Ok(Some(3)));
}

#[test]
fn a_write_to_a_read_only_page_is_refused_after_the_page_came_in() {
    let mut k = kernel(16, PRA::FIFO);
    assert_eq!(k.mmap(BASE, PAGE, 1), 0);
    // The fault brings the page in; the write is still not allowed.
    assert_eq!(k.user_write(BASE + 8, 0x5a, 0), Ok(false));
    assert_eq!(resident_pages(&k.current), 1);
    assert_eq!(k.user_read(BASE + 8, 0), Ok(Some(0)));
    // A second try takes no fault and is refused as well.
    assert_eq!(k.user_write(BASE + 8, 0x5a, 0), Ok(false));
    assert_eq!(k.user_read(BASE + 8, 0), Ok(Some(0)));
    // Outside every area nothing is brought in.
    assert_eq!(k.user_read(BASE + PAGE, 0), Ok(None));
    assert_eq!(k.user_write(BASE + PAGE, 1, 0), Ok(false));
    assert_eq!(resident_pages(&k.current), 1);
    // A page that may be written but not read.
    assert_eq!(k.mmap(BASE + 2 * PAGE, PAGE, 2), 0);
    assert_eq!(k.user_read(BASE + 2 * PAGE, 0), Ok(None));
    assert_eq!(k.user_write(BASE + 2 * PAGE, 7, 0), Ok(true));
    assert_eq!(k.user_read(BASE + 2 * PAGE, 0), Ok(None));
    assert_eq!(k.current.areas[1].data_frames[&0x10002].data[0], 7);
}

#[test]
fn a_region_beyond_the_address_space_is_refused() {
    let mut k = kernel(16, PRA::FIFO);
    let top: usize = 0x7f_ffff_f000;
    // The last page below the trampoline can be mapped.
    assert_eq!(k.mmap(top - PAGE, PAGE, 3), 0);
    assert_eq!(k.current.areas.len(), 1);
    // One page further the region passes the end.
    assert_eq!(k.mmap(top, PAGE, 3), -1);
    assert_eq!(k.mmap(top - PAGE, 2 * PAGE, 3), -1);
    assert_eq!(k.mmap(usize::MAX - 4095, PAGE, 3), -1);
    assert_eq!(k.munmap(top, PAGE), -1);
    assert_eq!(k.munmap(usize::MAX - 4095, PAGE), -1);
    assert_eq!(k.current.areas.len(), 1);
    // Nothing is to do for a region of length 0, wherever it lies.
    assert_eq!(k.mmap(top, 0, 3), 0);
    assert_eq!(k.munmap(top, 0), 0);
    assert_eq!(k.munmap(top - PAGE, PAGE), 0);
    assert_eq!(k.current.areas.len(), 0);
}

#[test]
fn a_fault_in_an_identical_area_changes_nothing() {
    let mut k = kernel(16, PRA::Clock);
    let free = free_frames(&k);
    assert_eq!(k.mmap(0x3000, PAGE, 3), 0);
    k.current.areas[0].map_type = MapType::Identical;
    assert_eq!(do_pgfault(&mut k, 0x3008, 0, 0), Err(FatalFault::IdenticalArea));
    assert_eq!(free_frames(&k), free);
    assert_eq!(resident_pages(&k.current), 0);
    let entry = k.current.translate(VirtPageNum(3));
    assert!(entry.is_none() || !entry.unwrap().is_valid());
    assert_eq!(k.current.frame_manager.len(), 0);
}

#[test]
fn an_evicted_page_is_no_longer_translated() {
    let mut k = kernel(7, PRA::FIFO);
    assert_eq!(k.mmap(BASE, 8 * PAGE, 3), 0);
    for i in 0..4usize {
        assert_eq!(k.user_write(BASE + i * PAGE, i as u8 + 1, 0), Ok(true));
    }
    // The first page left, and its entry with it.
    let token = k.current.token();
    assert!(k.ide_manager.check(token, VirtPageNum(0x10000)));
    let gone = k.current.translate(VirtPageNum(0x10000));
    assert!(gone.is_none() || !gone.unwrap().is_valid());
    for v in 1..4u64 {
        assert!(k.current.translate(VirtPageNum(0x10000 + v)).unwrap().is_valid());
    }
    // The next access to it faults and finds its bytes.
    assert_eq!(k.user_read(BASE, 0), Ok(Some(1)));
}

use demand_paging::config::{PFF_T, WORKINGSET_DELTA_NUM};
use demand_paging::mm::address::{PhysAddr, PhysPageNum, VirtPageNum};
use demand_paging::mm::frame_manager::{check_workingset, GlobalFrameManager, PRA};
use demand_paging::mm::memory_set::MemorySet;
use demand_paging::mm::vmm::{do_pgfault, FatalFault, Kernel};

const BASE: usize = 0x1000_0000;
const PAGE: usize = 4096;

fn kernel(frames: u64, pra: PRA) -> Kernel {
    Kernel::new(PhysPageNum(0x80400), PhysPageNum(0x80400 + frames), pra)
}

fn free_frames(k: &Kernel) -> usize {
    let mut n = 0;
    while k.frame_allocator.has_free(n + 1) {
        n += 1;
    }
    n
}

fn resident(ms: &MemorySet, vpn: u64) -> bool {
    ms.areas.iter().any(|a| a.data_frames.contains_key(&vpn))
}

fn resident_pages(ms: &MemorySet) -> usize {
    ms.areas.iter().map(|a| a.data_frames.len()).sum()
}

fn accessed(ms: &MemorySet, vpn: u64) -> bool {
    ms.translate(VirtPageNum(vpn)).unwrap().accessed()
}

fn random(m: usize, last: usize) -> usize {
    (last * 942137 + 99995423) % m
}

#[test]
fn random_scatter_under_global_working_set() {
    let mut k = kernel(64, PRA::WorkingSet);
    let len = PAGE * 400;
    assert_eq!(k.mmap(BASE, len, 3), 0);
    assert_eq!(k.pte_recorder.len(), WORKINGSET_DELTA_NUM);
    let seed = 12345;
    let mut v = seed;
    let mut least_free = 64;
    let mut evicted_with_frames_free = false;
    for i in 0..4096 {
        let at = random(len, v);
        let before = resident_pages(&k.current);
        let free_before = free_frames(&k);
        assert_eq!(k.user_write(BASE + at, at as u8, i as u64), Ok(true));
        if resident_pages(&k.current) < before && free_before > 0 {
            // Pages left although a frame was free: the scan of the
            // working set sent them out.
            evicted_with_frames_free = true;
        }
        least_free = least_free.min(free_frames(&k));
        v = at;
        if i % 8 == 7 {
            let at_index = i / 8 % WORKINGSET_DELTA_NUM;
            k.check_workingset();
            // The sample holds the registered pages of the space.
            assert_eq!(k.pte_recorder[at_index].len(), resident_pages(&k.current));
        }
    }
    assert!(evicted_with_frames_free);
    assert!(least_free > 0);
    let mut v = seed;
    for i in 0..4096 {
        let at = random(len, v);
        assert_eq!(k.user_read(BASE + at, 4096 + i as u64), Ok(Some(at as u8)));
        v = at;
        if i % 8 == 7 {
            k.check_workingset();
        }
    }
}

#[test]
fn working_set_keeps_a_page_that_a_sample_saw_accessed() {
    let mut k = kernel(32, PRA::WorkingSet);
    assert_eq!(k.mmap(BASE, 3 * PAGE, 3), 0);
    assert_eq!(k.user_write(BASE, 1, 0), Ok(true));
    // The tick records that page 0 was accessed and clears the bit.
    check_workingset(&mut k);
    assert!(!accessed(&k.current, 0x10000));
    let token = k.current.token();
    assert_eq!(k.pte_recorder[0].get(&(token, 0x10000)), Some(&true));
    // The fault on page 1 finds page 0 in the history and leaves it.
    assert_eq!(k.user_write(BASE + PAGE, 2, 0), Ok(true));
    assert!(resident(&k.current, 0x10000));
    // Four more ticks push that sample out of the history. Page 1 was
    // accessed at the first of them; page 0 was not accessed again.
    k.check_workingset();
    assert_eq!(k.pte_recorder[1].get(&(token, 0x10000)), Some(&false));
    assert_eq!(k.pte_recorder[1].get(&(token, 0x10001)), Some(&true));
    k.check_workingset();
    k.check_workingset();
    k.check_workingset();
    assert_eq!(k.pte_recorder[0].get(&(token, 0x10000)), Some(&false));
    let free_before = free_frames(&k);
    assert_eq!(k.user_write(BASE + 2 * PAGE, 3, 0), Ok(true));
    assert!(!resident(&k.current, 0x10000));
    assert!(k.ide_manager.check(token, VirtPageNum(0x10000)));
    // Page 1 is still in the history.
    assert!(resident(&k.current, 0x10001));
    // One frame came back and one was taken.
    assert_eq!(free_frames(&k), free_before);
    assert_eq!(k.user_read(BASE, 0), Ok(Some(1)));
}

#[test]
fn tick_does_nothing_under_another_policy() {
    let mut k = kernel(32, PRA::PageFaultFrequency);
    assert_eq!(k.mmap(BASE, PAGE, 3), 0);
    assert_eq!(k.user_write(BASE, 1, 5), Ok(true));
    k.check_workingset();
    assert!(accessed(&k.current, 0x10000));
    assert!(k.pte_recorder.iter().all(|m| m.is_empty()));
}

#[test]
fn page_fault_frequency_transition() {
    let mut k = kernel(64, PRA::PageFaultFrequency);
    assert_eq!(k.mmap(BASE, 10 * PAGE, 3), 0);
    let mut now = 1000;
    // The first fault only sets the clock.
    assert_eq!(k.user_write(BASE, 0xa0, now), Ok(true));
    assert_eq!(k.gfm.t_last(), 1000);
    assert!(accessed(&k.current, 0x10000));
    // Faults in quick succession: accessed bits are cleared, nothing leaves.
    for i in 1..6usize {
        now += 1000;
        assert_eq!(k.user_write(BASE + i * PAGE, 0xa0 + i as u8, now), Ok(true));
        assert_eq!(k.gfm.t_last(), now);
        for j in 0..i {
            assert!(resident(&k.current, 0x10000 + j as u64));
            assert!(!accessed(&k.current, 0x10000 + j as u64));
        }
        assert!(accessed(&k.current, 0x10000 + i as u64));
    }
    assert_eq!(resident_pages(&k.current), 6);
    let token = k.current.token();
    for j in 0..10 {
        assert!(!k.ide_manager.check(token, VirtPageNum(0x10000 + j)));
    }
    // Pages 1 and 3 are used again, without a fault.
    assert_eq!(k.load(BASE + PAGE), Some(0xa1));
    assert_eq!(k.load(BASE + 3 * PAGE), Some(0xa3));
    // A fault after a long pause: exactly the pages whose accessed bit was
    // clear leave.
    now += PFF_T + 1;
    assert_eq!(k.user_write(BASE + 6 * PAGE, 0xa6, now), Ok(true));
    for j in [0u64, 2, 4] {
        assert!(!resident(&k.current, 0x10000 + j));
        assert!(k.ide_manager.check(token, VirtPageNum(0x10000 + j)));
    }
    for j in [1u64, 3, 5, 6] {
        assert!(resident(&k.current, 0x10000 + j));
        assert!(!k.ide_manager.check(token, VirtPageNum(0x10000 + j)));
    }
    // The pages that stayed keep their accessed bits.
    assert!(accessed(&k.current, 0x10001));
    // A fault exactly at the threshold counts as quick.
    now += PFF_T;
    assert_eq!(k.user_read(BASE + 7 * PAGE, now), Ok(Some(0)));
    assert_eq!(resident_pages(&k.current), 5);
    assert!(!accessed(&k.current, 0x10001));
    for i in 0..7usize {
        now += 1;
        assert_eq!(k.user_read(BASE + i * PAGE, now), Ok(Some(0xa0 + i as u8)));
    }
}

#[test]
fn global_policy_evicts_from_other_processes() {
    let mut k = kernel(64, PRA::PageFaultFrequency);
    assert_eq!(k.mmap(BASE, 4 * PAGE, 3), 0);
    assert_eq!(k.user_write(BASE, 7, 10), Ok(true));
    assert_eq!(k.user_write(BASE + PAGE, 8, 20), Ok(true));
    // A second process takes over; the first waits in the ready list.
    let second =
        MemorySet::from_existed_user(&k.current, PhysAddr(0x8020_1000), &mut k.p2v_map, &mut k.frame_allocator)
            .unwrap();
    let first = std::mem::replace(&mut k.current, second);
    k.ready.push(first);
    // The copy has the bytes of its parent in frames of its own, which
    // the policy does not know.
    assert_eq!(k.load(BASE), Some(7));
    assert_eq!(resident_pages(&k.current), 2);
    // A fault of the second process after a long pause sends out the
    // pages of the first whose accessed bit is clear: page 0, which lost
    // the bit at the second fault.
    assert_eq!(k.user_write(BASE + 2 * PAGE, 9, 20 + PFF_T + 1), Ok(true));
    let first_token = k.ready[0].token();
    assert!(k.ide_manager.check(first_token, VirtPageNum(0x10000)));
    assert!(!resident(&k.ready[0], 0x10000));
    assert!(resident(&k.ready[0], 0x10001));
    assert!(!k.ide_manager.check(k.current.token(), VirtPageNum(0x10000)));
    // Back in the first process the page comes back with its byte.
    let first = k.ready.pop().unwrap();
    let second = std::mem::replace(&mut k.current, first);
    k.ready.push(second);
    assert_eq!(k.user_read(BASE, 30 + PFF_T), Ok(Some(7)));
    assert_eq!(k.user_read(BASE + PAGE, 31 + PFF_T), Ok(Some(8)));
}

#[test]
fn global_fault_without_a_free_frame_is_fatal() {
    // Root, two tables and one page.
    let mut k = kernel(4, PRA::WorkingSet);
    assert_eq!(k.mmap(BASE, 2 * PAGE, 3), 0);
    assert_eq!(k.user_write(BASE, 1, 0), Ok(true));
    assert_eq!(free_frames(&k), 0);
    // Page 0 was just accessed, so the scan leaves it, and no frame is free.
    assert_eq!(do_pgfault(&mut k, BASE + PAGE, 1, 0), Err(FatalFault::OutOfFrames));
}

#[test]
fn global_manager_starts_without_history() {
    let g = GlobalFrameManager::new(PRA::PageFaultFrequency);
    assert_eq!(g.used_pra(), PRA::PageFaultFrequency);
    assert_eq!(g.t_last(), 0);
}

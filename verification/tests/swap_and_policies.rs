use demand_paging::drivers::ide::{ide_read, ide_test, ide_valid, ide_write, Ide};
use demand_paging::mm::address::{PhysPageNum, VirtPageNum};
use demand_paging::mm::frame_allocator::StackFrameAllocator;
use demand_paging::mm::frame_manager::{ClockQue, LocalFrameManager, Queue, PRA};
use demand_paging::mm::page_table::{PTEFlags, PageTable, PTE_R, PTE_W};
use demand_paging::mm::vmm::{IdeManager, ReverseMap};

fn page_of(byte: u8) -> Vec<u8> {
    vec![byte; 4096]
}

#[test]
fn ide_slots_are_valid_below_the_limit() {
    assert!(ide_valid(0));
    assert!(ide_valid(2534));
    assert!(!ide_valid(2535));
    assert!(!ide_valid(usize::MAX));
}

#[test]
fn ide_write_then_read_gives_the_page_back() {
    let mut ide = Ide::new();
    let mut p = page_of(0);
    for (i, b) in p.iter_mut().enumerate() {
        *b = (i % 251) as u8;
    }
    assert_eq!(ide_write(&mut ide, 17, &p), 0);
    assert_eq!(ide_write(&mut ide, 18, &page_of(0xee)), 0);
    let mut back = page_of(0xff);
    assert_eq!(ide_read(&ide, 17, &mut back), 0);
    assert_eq!(back, p);
    let mut other = page_of(0);
    assert_eq!(ide_read(&ide, 16, &mut other), 0);
    assert_eq!(other, page_of(0));
}

#[test]
fn ide_refuses_a_slot_out_of_range() {
    let mut ide = Ide::new();
    assert_eq!(ide_write(&mut ide, 2535, &page_of(1)), 1);
    // The buffer is not looked at where the slot does not exist.
    assert_eq!(ide_write(&mut ide, 2535, &[1, 2, 3]), 1);
    let mut short = vec![5u8; 3];
    assert_eq!(ide_read(&ide, usize::MAX, &mut short), 1);
    assert_eq!(short, vec![5u8; 3]);
    let mut back = page_of(7);
    assert_eq!(ide_read(&ide, 2535, &mut back), 1);
    assert_eq!(back, page_of(7));
}

#[test]
fn swap_store_round_trip() {
    let mut swap = IdeManager::new();
    assert!(swap.has_room());
    assert!(!swap.check(1, VirtPageNum(5)));
    swap.swap_in(1, VirtPageNum(5), &page_of(0xab));
    swap.swap_in(2, VirtPageNum(5), &page_of(0xcd));
    assert!(swap.check(1, VirtPageNum(5)));
    assert!(swap.check(2, VirtPageNum(5)));
    assert!(!swap.check(1, VirtPageNum(6)));
    let mut dst = page_of(0);
    swap.swap_out(1, VirtPageNum(5), &mut dst);
    assert_eq!(dst, page_of(0xab));
    assert!(!swap.check(1, VirtPageNum(5)));
    swap.swap_out(2, VirtPageNum(5), &mut dst);
    assert_eq!(dst, page_of(0xcd));
}

#[test]
fn swap_store_reuses_a_freed_slot_first() {
    let mut swap = IdeManager::new();
    swap.swap_in(1, VirtPageNum(1), &page_of(1));
    swap.swap_in(1, VirtPageNum(2), &page_of(2));
    let mut dst = page_of(0);
    swap.swap_out(1, VirtPageNum(1), &mut dst);
    // The freed slot takes the next page; the page in the other slot stays.
    swap.swap_in(1, VirtPageNum(3), &page_of(3));
    swap.swap_out(1, VirtPageNum(2), &mut dst);
    assert_eq!(dst, page_of(2));
    swap.swap_out(1, VirtPageNum(3), &mut dst);
    assert_eq!(dst, page_of(3));
}

#[test]
fn swap_store_uses_every_slot_of_the_device() {
    let mut swap = IdeManager::new();
    let p = page_of(9);
    for v in 0..2534u64 {
        assert!(swap.has_room());
        swap.swap_in(7, VirtPageNum(v), &p);
    }
    // The last slot takes one page more.
    assert!(swap.has_room());
    swap.swap_in(7, VirtPageNum(2534), &page_of(0x42));
    assert!(swap.check(7, VirtPageNum(2534)));
    assert!(!swap.has_room());
    let mut last = page_of(0);
    swap.swap_out(7, VirtPageNum(2534), &mut last);
    assert_eq!(last, page_of(0x42));
    swap.swap_in(7, VirtPageNum(2534), &page_of(0x42));
    assert!(!swap.has_room());
    let mut dst = page_of(0);
    swap.swap_out(7, VirtPageNum(100), &mut dst);
    assert!(swap.has_room());
}

#[test]
fn reverse_map_is_a_plain_table() {
    let mut m = ReverseMap::new();
    assert_eq!(m.get(PhysPageNum(3)), None);
    m.insert(PhysPageNum(3), VirtPageNum(30));
    m.insert(PhysPageNum(4), VirtPageNum(40));
    assert_eq!(m.get(PhysPageNum(3)), Some(VirtPageNum(30)));
    m.insert(PhysPageNum(3), VirtPageNum(31));
    assert_eq!(m.get(PhysPageNum(3)), Some(VirtPageNum(31)));
    m.remove(PhysPageNum(3));
    assert_eq!(m.get(PhysPageNum(3)), None);
    assert_eq!(m.get(PhysPageNum(4)), Some(VirtPageNum(40)));
}

#[test]
fn queue_is_first_in_first_out() {
    let mut q: Queue<u32> = Queue::new();
    assert_eq!(q.pop(), None);
    q.push(1);
    q.push(2);
    q.push(3);
    assert_eq!(q.len(), 3);
    assert_eq!(*q.get(1), 2);
    assert_eq!(q.pop(), Some(1));
    assert_eq!(q.remove_at(1), 3);
    assert_eq!(q.pop(), Some(2));
    assert_eq!(q.pop(), None);
}

struct Bed {
    allocator: StackFrameAllocator,
    table: PageTable,
    p2v: ReverseMap,
}

/// A page table in which page `100 + k` is mapped to frame `200 + k`, for
/// each `k` below `n`.
fn bed(n: u64) -> Bed {
    let mut allocator = StackFrameAllocator::new();
    allocator.init(PhysPageNum(10), PhysPageNum(20));
    let mut table = PageTable::new(&mut allocator);
    let mut p2v = ReverseMap::new();
    for k in 0..n {
        table.map(
            VirtPageNum(100 + k),
            PhysPageNum(200 + k),
            PTEFlags { bits: PTE_R | PTE_W },
            &mut allocator,
        );
        p2v.insert(PhysPageNum(200 + k), VirtPageNum(100 + k));
    }
    Bed { allocator, table, p2v }
}

fn accessed(bed: &Bed, k: u64) -> bool {
    bed.table.translate(VirtPageNum(100 + k)).unwrap().accessed()
}

fn dirty(bed: &Bed, k: u64) -> bool {
    bed.table.translate(VirtPageNum(100 + k)).unwrap().dirty()
}

#[test]
fn clock_takes_the_first_page_that_was_not_accessed() {
    let mut b = bed(4);
    let mut q = ClockQue::new();
    for k in 0..4 {
        q.push(PhysPageNum(200 + k));
    }
    b.table.touch(VirtPageNum(100), false);
    b.table.touch(VirtPageNum(101), false);
    b.table.touch(VirtPageNum(103), false);
    assert_eq!(q.pop(&mut b.table, &b.p2v), Some(PhysPageNum(202)));
    // The hand passed pages 100 and 101 and cleared their accessed bits.
    assert!(!accessed(&b, 0));
    assert!(!accessed(&b, 1));
    assert!(accessed(&b, 3));
    assert_eq!(q.len(), 3);
    // The hand stands on the entry that followed the victim: page 103 is
    // passed, then the hand wraps and takes page 100.
    assert_eq!(q.pop(&mut b.table, &b.p2v), Some(PhysPageNum(200)));
    assert!(!accessed(&b, 3));
    let _ = &b.allocator;
}

#[test]
fn clock_after_a_full_revolution_all_accessed_bits_are_clear() {
    let mut b = bed(5);
    let mut q = ClockQue::new();
    for k in 0..5 {
        q.push(PhysPageNum(200 + k));
        b.table.touch(VirtPageNum(100 + k), true);
    }
    // Every page was accessed: the hand comes round and takes the first.
    assert_eq!(q.pop(&mut b.table, &b.p2v), Some(PhysPageNum(200)));
    for k in 0..5 {
        assert!(!accessed(&b, k));
        // Plain clock leaves the dirty bits.
        assert!(dirty(&b, k));
    }
}

#[test]
fn clock_on_an_empty_buffer_takes_nothing() {
    let mut b = bed(1);
    let mut q = ClockQue::new();
    assert_eq!(q.pop(&mut b.table, &b.p2v), None);
    assert_eq!(q.pop_improved(&mut b.table, &b.p2v), None);
}

#[test]
fn improved_clock_ranks_by_accessed_and_dirty() {
    let mut b = bed(4);
    let mut q = ClockQue::new();
    for k in 0..4 {
        q.push(PhysPageNum(200 + k));
    }
    // Page 100: accessed and dirty. 101: dirty only. 102: accessed only.
    // 103: accessed and dirty.
    b.table.touch(VirtPageNum(100), true);
    b.table.touch(VirtPageNum(101), true);
    b.table.clear_accessed(VirtPageNum(101));
    b.table.touch(VirtPageNum(102), false);
    b.table.touch(VirtPageNum(103), true);
    // No page is clean. One pass lowers each by one; the first page that is
    // clean when the hand comes back is 101, which lost its dirty bit.
    assert_eq!(q.pop_improved(&mut b.table, &b.p2v), Some(PhysPageNum(201)));
    // The hand passed 100 twice, and 102 and 103 once.
    assert!(!accessed(&b, 0) && !dirty(&b, 0));
    assert!(!accessed(&b, 2) && !dirty(&b, 2));
    assert!(!accessed(&b, 3) && dirty(&b, 3));
    // Now 102 is clean and the hand stands on it.
    assert_eq!(q.pop_improved(&mut b.table, &b.p2v), Some(PhysPageNum(202)));
}

#[test]
fn improved_clock_takes_a_clean_page_at_once() {
    let mut b = bed(3);
    let mut q = ClockQue::new();
    for k in 0..3 {
        q.push(PhysPageNum(200 + k));
    }
    b.table.touch(VirtPageNum(100), true);
    assert_eq!(q.pop_improved(&mut b.table, &b.p2v), Some(PhysPageNum(201)));
    assert!(!accessed(&b, 0));
    assert!(dirty(&b, 0));
}

#[test]
fn improved_clock_needs_at_most_two_revolutions() {
    let mut b = bed(3);
    let mut q = ClockQue::new();
    for k in 0..3 {
        q.push(PhysPageNum(200 + k));
        b.table.touch(VirtPageNum(100 + k), true);
    }
    assert_eq!(q.pop_improved(&mut b.table, &b.p2v), Some(PhysPageNum(200)));
    for k in 0..3 {
        assert!(!accessed(&b, k) && !dirty(&b, k));
    }
}

#[test]
fn clock_buffer_removal_keeps_the_hand_on_its_entry() {
    let mut b = bed(4);
    let mut q = ClockQue::new();
    for k in 0..4 {
        q.push(PhysPageNum(200 + k));
    }
    b.table.touch(VirtPageNum(100), false);
    // The hand moves to entry 1 and takes it; it then stands on page 102.
    assert_eq!(q.pop(&mut b.table, &b.p2v), Some(PhysPageNum(201)));
    q.remove_at(0);
    assert_eq!(q.get(0), PhysPageNum(202));
    assert_eq!(q.pop(&mut b.table, &b.p2v), Some(PhysPageNum(202)));
}

#[test]
fn local_manager_follows_its_policy() {
    let mut b = bed(3);
    let mut fifo = LocalFrameManager::new(PRA::FIFO);
    let mut clock = LocalFrameManager::new(PRA::Clock);
    let mut global = LocalFrameManager::new(PRA::WorkingSet);
    for k in 0..3 {
        fifo.insert_frame(PhysPageNum(200 + k));
        clock.insert_frame(PhysPageNum(200 + k));
        global.insert_frame(PhysPageNum(200 + k));
    }
    b.table.touch(VirtPageNum(100), false);
    assert_eq!(fifo.used_pra(), PRA::FIFO);
    assert_eq!(fifo.get_next_frame(&mut b.table, &b.p2v), Some(PhysPageNum(200)));
    assert_eq!(fifo.len(), 2);
    assert_eq!(clock.get_next_frame(&mut b.table, &b.p2v), Some(PhysPageNum(201)));
    assert_eq!(global.get_next_frame(&mut b.table, &b.p2v), None);
    assert_eq!(global.len(), 3);
    assert_eq!(global.position(PhysPageNum(202)), Some(2));
    assert_eq!(global.position(PhysPageNum(999)), None);
    global.remove_at(1);
    assert_eq!(global.frame_at(1), PhysPageNum(202));
    let mut empty = LocalFrameManager::new(PRA::ClockImproved);
    assert_eq!(empty.get_next_frame(&mut b.table, &b.p2v), None);
}

#[test]
fn ide_probe_sets_the_first_byte() {
    let mut ide = Ide::new();
    assert_eq!(ide_write(&mut ide, 0, &page_of(7)), 0);
    assert_eq!(ide_write(&mut ide, 1, &page_of(9)), 0);
    assert_eq!(ide_test(&mut ide), 1);
    let mut back = page_of(0);
    assert_eq!(ide_read(&ide, 0, &mut back), 0);
    assert_eq!(back[0], 1);
    assert!(back[1..].iter().all(|b| *b == 7));
    assert_eq!(ide_read(&ide, 1, &mut back), 0);
    assert_eq!(back, page_of(9));
}

#[test]
fn purge_frees_the_slots_of_one_space() {
    let mut swap = IdeManager::new();
    for v in 0..5u64 {
        swap.swap_in(7, VirtPageNum(v), &page_of(v as u8));
        swap.swap_in(9, VirtPageNum(v), &page_of(0x90 + v as u8));
    }
    let mut dst = page_of(0);
    swap.swap_out(7, VirtPageNum(2), &mut dst);
    swap.purge(7);
    for v in 0..5u64 {
        assert!(!swap.check(7, VirtPageNum(v)));
        assert!(swap.check(9, VirtPageNum(v)));
    }
    // The pages of the other space are as they were.
    for v in 0..5u64 {
        swap.swap_out(9, VirtPageNum(v), &mut dst);
        assert_eq!(dst, page_of(0x90 + v as u8));
    }
    // Every slot is free again: the store takes as many pages as at first.
    for v in 0..2535u64 {
        assert!(swap.has_room());
        swap.swap_in(1, VirtPageNum(v), &page_of(1));
    }
    assert!(!swap.has_room());
    // Nothing to purge changes nothing.
    swap.purge(5);
    assert!(!swap.has_room());
    swap.purge(1);
    assert!(swap.has_room());
}

#[test]
fn a_page_swapped_twice_keeps_one_slot() {
    let mut swap = IdeManager::new();
    swap.swap_in(3, VirtPageNum(8), &page_of(1));
    swap.swap_in(3, VirtPageNum(8), &page_of(2));
    let mut dst = page_of(0);
    swap.swap_out(3, VirtPageNum(8), &mut dst);
    assert_eq!(dst, page_of(2));
    assert!(!swap.check(3, VirtPageNum(8)));
    swap.purge(3);
    assert!(!swap.check(3, VirtPageNum(8)));
}

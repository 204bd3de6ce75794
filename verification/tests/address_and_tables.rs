use demand_paging::mm::address::{PhysAddr, PhysPageNum, VPNRange, VirtAddr, VirtPageNum};
use demand_paging::mm::frame_allocator::{
    frame_alloc, frame_check, frame_dealloc, FrameTracker, StackFrameAllocator,
};
use demand_paging::mm::page_table::{PTEFlags, PageTable, PageTableEntry, PTE_A, PTE_D, PTE_R, PTE_V, PTE_W};

#[test]
fn virt_addr_is_truncated_to_39_bits() {
    assert_eq!(VirtAddr::new(0x1000_0000).0, 0x1000_0000);
    assert_eq!(VirtAddr::new(0xffff_ffff_ffff_f000).0, 0x7f_ffff_f000);
    assert_eq!(VirtAddr::new(0xffff_ffff_ffff_f000).floor().0, 0x7ff_ffff);
    assert_eq!(PhysAddr::new(u64::MAX).0, 0xff_ffff_ffff_ffff);
    assert_eq!(VirtPageNum::new(u64::MAX).0, 0x7ff_ffff);
    assert_eq!(PhysPageNum::new(u64::MAX).0, 0xfff_ffff_ffff);
}

#[test]
fn floor_and_ceil_of_addresses() {
    assert_eq!(VirtAddr(0).floor().0, 0);
    assert_eq!(VirtAddr(0).ceil().0, 0);
    assert_eq!(VirtAddr(1).floor().0, 0);
    assert_eq!(VirtAddr(1).ceil().0, 1);
    assert_eq!(VirtAddr(4095).ceil().0, 1);
    assert_eq!(VirtAddr(4096).floor().0, 1);
    assert_eq!(VirtAddr(4096).ceil().0, 1);
    assert_eq!(VirtAddr(4097).ceil().0, 2);
    assert_eq!(PhysAddr(0x8020_0fff).floor().0, 0x80200);
    assert_eq!(PhysAddr(0x8020_0fff).ceil().0, 0x80201);
    assert_eq!(VirtAddr(0x1234).page_offset(), 0x234);
    assert!(VirtAddr(0x2000).aligned());
    assert!(!VirtAddr(0x2001).aligned());
}

#[test]
fn page_number_indexes_are_nine_bits_each() {
    let vpn = VirtPageNum((5 << 18) | (7 << 9) | 11);
    assert_eq!(vpn.indexes(), (5, 7, 11));
    assert_eq!(VirtPageNum(0x7ff_ffff).indexes(), (511, 511, 511));
    assert_eq!(VirtPageNum(3).start_addr().0, 3 * 4096);
}

#[test]
fn page_range_is_half_open() {
    let r = VPNRange::new(VirtPageNum(3), VirtPageNum(6));
    assert_eq!(r.get_start().0, 3);
    assert_eq!(r.get_end().0, 6);
    assert_eq!(r.len(), 3);
    assert!(!r.includes(VirtPageNum(2)));
    assert!(r.includes(VirtPageNum(3)));
    assert!(r.includes(VirtPageNum(5)));
    assert!(!r.includes(VirtPageNum(6)));
    let empty = VPNRange::new(VirtPageNum(4), VirtPageNum(4));
    assert_eq!(empty.len(), 0);
    assert!(!empty.includes(VirtPageNum(4)));
}

#[test]
fn page_table_entry_layout() {
    let pte = PageTableEntry::new(PhysPageNum(0x80321), PTEFlags { bits: PTE_V | PTE_R | PTE_W });
    assert_eq!(pte.bits, (0x80321u64 << 10) | 0x07);
    assert_eq!(pte.ppn().0, 0x80321);
    assert_eq!(pte.flags().bits, 0x07);
    assert!(pte.is_valid());
    assert!(pte.readable());
    assert!(pte.writable());
    assert!(!pte.executable());
    assert!(!pte.accessed());
    assert!(!pte.dirty());
    assert!(!PageTableEntry::empty().is_valid());
}

#[test]
fn accessed_and_dirty_bits_are_set_and_cleared() {
    let mut pte = PageTableEntry::new(PhysPageNum(9), PTEFlags { bits: PTE_V | PTE_R });
    pte.touch(false);
    assert!(pte.accessed());
    assert!(!pte.dirty());
    pte.touch(true);
    assert!(pte.accessed() && pte.dirty());
    assert_eq!(pte.flags().bits, PTE_V | PTE_R | PTE_A | PTE_D);
    pte.change_access();
    assert!(!pte.accessed());
    assert!(pte.dirty());
    pte.change_dirty();
    assert!(!pte.dirty());
    assert_eq!(pte.ppn().0, 9);
    assert_eq!(pte.flags().bits, PTE_V | PTE_R);
}

fn pool(start: u64, end: u64) -> StackFrameAllocator {
    let mut a = StackFrameAllocator::new();
    a.init(PhysPageNum(start), PhysPageNum(end));
    a
}

#[test]
fn allocator_hands_out_in_order_and_prefers_recycled() {
    let mut a = pool(100, 103);
    assert!(frame_check(&a));
    assert!(a.has_free(3));
    assert!(!a.has_free(4));
    assert_eq!(a.allocate(), Some(PhysPageNum(100)));
    assert_eq!(a.allocate(), Some(PhysPageNum(101)));
    a.dealloc(PhysPageNum(100));
    assert_eq!(a.allocate(), Some(PhysPageNum(100)));
    assert_eq!(a.allocate(), Some(PhysPageNum(102)));
    assert_eq!(a.allocate(), None);
    assert!(!frame_check(&a));
    a.dealloc(PhysPageNum(101));
    a.dealloc(PhysPageNum(102));
    assert_eq!(a.allocate(), Some(PhysPageNum(102)));
    assert_eq!(a.allocate(), Some(PhysPageNum(101)));
}

#[test]
fn empty_allocator_gives_nothing() {
    let mut a = StackFrameAllocator::new();
    assert_eq!(a.allocate(), None);
    assert!(frame_alloc(&mut a).is_none());
}

#[test]
fn a_fresh_frame_is_cleared() {
    let mut a = pool(7, 9);
    let frame = frame_alloc(&mut a).unwrap();
    assert_eq!(frame.ppn, PhysPageNum(7));
    assert_eq!(frame.data.len(), 4096);
    assert!(frame.data.iter().all(|b| *b == 0));
    frame_dealloc(&mut a, frame.ppn);
    let again = FrameTracker::new(PhysPageNum(7));
    assert!(again.data.iter().all(|b| *b == 0));
}

#[test]
fn page_table_maps_translates_and_unmaps() {
    let mut a = pool(10, 20);
    let mut pt = PageTable::new(&mut a);
    assert_eq!(pt.root_ppn(), PhysPageNum(10));
    assert_eq!(pt.token(), (8u64 << 60) | 10);
    let vpn = VirtPageNum(0x10000);
    assert_eq!(pt.translate(vpn), None);
    assert_eq!(pt.tables_needed(vpn), 2);
    pt.map(vpn, PhysPageNum(0x77), PTEFlags { bits: PTE_R | PTE_W }, &mut a);
    // Two tables were created, in the next two free frames.
    assert_eq!(a.allocate(), Some(PhysPageNum(13)));
    let pte = pt.translate(vpn).unwrap();
    assert!(pte.is_valid());
    assert_eq!(pte.ppn().0, 0x77);
    assert_eq!(pte.flags().bits, PTE_V | PTE_R | PTE_W);
    // A neighbour in the same last-level table has an entry, which is invalid.
    assert_eq!(pt.tables_needed(VirtPageNum(0x10001)), 0);
    assert_eq!(pt.translate(VirtPageNum(0x10001)), Some(PageTableEntry::empty()));
    // A page in another last-level table of the same second-level table.
    assert_eq!(pt.tables_needed(VirtPageNum(0x10200)), 1);
    assert_eq!(pt.translate(VirtPageNum(0x10200)), None);
    pt.unmap(vpn);
    assert_eq!(pt.translate(vpn), Some(PageTableEntry::empty()));
}

#[test]
fn page_table_handle_changes_the_entry() {
    let mut a = pool(10, 20);
    let mut pt = PageTable::new(&mut a);
    let vpn = VirtPageNum(5);
    pt.map(vpn, PhysPageNum(0x42), PTEFlags { bits: PTE_R }, &mut a);
    pt.touch(vpn, true);
    assert!(pt.translate(vpn).unwrap().accessed());
    assert!(pt.translate(vpn).unwrap().dirty());
    match pt.find_pte(vpn) {
        Some(pte) => pte.change_access(),
        None => panic!("the entry is there"),
    }
    assert!(!pt.translate(vpn).unwrap().accessed());
    pt.clear_dirty(vpn);
    assert!(!pt.translate(vpn).unwrap().dirty());
    assert!(pt.find_pte(VirtPageNum(0x7ff_ffff)).is_none());
    assert!(pt.find_pte(VirtPageNum(0x800_0000)).is_none());
    assert_eq!(pt.translate(VirtPageNum(0x800_0000 + 5)), None);
}

#[test]
fn releasing_a_page_table_returns_its_frames() {
    let mut a = pool(10, 20);
    let mut pt = PageTable::new(&mut a);
    pt.map(VirtPageNum(1), PhysPageNum(1), PTEFlags { bits: PTE_R }, &mut a);
    pt.map(VirtPageNum(0x40000), PhysPageNum(2), PTEFlags { bits: PTE_R }, &mut a);
    assert!(a.has_free(5));
    assert!(!a.has_free(6));
    pt.release(&mut a);
    assert!(a.has_free(10));
    assert_eq!(a.allocate(), Some(PhysPageNum(10)));
}

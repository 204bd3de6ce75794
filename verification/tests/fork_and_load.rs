use demand_paging::mm::address::{PhysAddr, PhysPageNum, VirtAddr, VirtPageNum};
use demand_paging::mm::frame_allocator::StackFrameAllocator;
use demand_paging::mm::frame_manager::PRA;
use demand_paging::mm::memory_set::{
    kernel_token, remap_test, ElfError, ElfImage, KernelLayout, MapArea, MapPermission, MapType,
    MemorySet, ProgramHeader, PushOutcome, MAP_PERM_R, MAP_PERM_U, MAP_PERM_W, MAP_PERM_X,
};
use demand_paging::mm::vmm::{Kernel, ReverseMap};

const BASE: usize = 0x1000_0000;
const PAGE: usize = 4096;
const TRAMPOLINE: PhysAddr = PhysAddr(0x8020_1000);

fn free_frames(a: &StackFrameAllocator) -> usize {
    let mut n = 0;
    while a.has_free(n + 1) {
        n += 1;
    }
    n
}

fn owned_frames(ms: &MemorySet) -> usize {
    ms.areas.iter().map(|a| a.data_frames.len()).sum()
}

fn random(m: usize, last: usize) -> usize {
    (last * 942137 + 99995423) % m
}

fn pool(start: u64, end: u64) -> StackFrameAllocator {
    let mut a = StackFrameAllocator::new();
    a.init(PhysPageNum(start), PhysPageNum(end));
    a
}

#[test]
fn permissions_are_a_set_of_four_bits() {
    assert_eq!(MapPermission::from_bits(0x1e), Some(MapPermission { bits: 0x1e }));
    assert_eq!(MapPermission::from_bits(0x01), None);
    assert_eq!(MapPermission::from_bits(0x20), None);
    let mut p = MapPermission::empty();
    p.set(MAP_PERM_R | MAP_PERM_U, true);
    assert_eq!(p.bits(), 0x12);
    assert!(p.contains(MAP_PERM_U));
    assert!(!p.contains(MAP_PERM_W));
    p.set(MAP_PERM_R, false);
    assert_eq!(p.bits(), 0x10);
    let _ = MAP_PERM_X;
}

#[test]
fn area_covers_the_pages_that_its_addresses_touch() {
    let area = MapArea::new(
        VirtAddr(0x1234),
        VirtAddr(0x3001),
        MapType::Framed,
        MapPermission { bits: 0x16 },
    );
    assert_eq!(area.vpn_range.get_start().0, 1);
    assert_eq!(area.vpn_range.get_end().0, 4);
    assert_eq!(area.get_flag_bits().bits, 0x16);
    assert!(!area.is_resident(VirtPageNum(1)));
    let copy = MapArea::from_another(&area);
    assert_eq!(copy.vpn_range.get_start().0, 1);
    assert_eq!(copy.vpn_range.get_end().0, 4);
    assert_eq!(copy.map_type, MapType::Framed);
    assert_eq!(copy.map_perm, area.map_perm);
}

#[test]
fn fork_copies_resident_pages_into_frames_of_its_own() {
    let mut k = Kernel::new(PhysPageNum(0x80400), PhysPageNum(0x80440), PRA::Clock);
    assert_eq!(k.mmap(BASE, 3 * PAGE, 3), 0);
    assert_eq!(k.user_write(BASE + 5, 0x11, 0), Ok(true));
    assert_eq!(k.user_write(BASE + 2 * PAGE, 0x33, 0), Ok(true));
    let mut child =
        MemorySet::from_existed_user(&k.current, TRAMPOLINE, &mut k.p2v_map, &mut k.frame_allocator)
            .unwrap();
    assert_ne!(child.token(), k.current.token());
    assert_eq!(child.areas.len(), 3);
    // Page 1 was never touched and is resident in neither.
    assert_eq!(owned_frames(&child), 2);
    for vpn in [0x10000u64, 0x10002] {
        let i = (vpn - 0x10000) as usize;
        let mine = &k.current.areas[i].data_frames[&vpn];
        let theirs = &child.areas[i].data_frames[&vpn];
        assert_ne!(mine.ppn, theirs.ppn);
        assert_eq!(mine.data, theirs.data);
        assert_eq!(k.p2v_map.get(theirs.ppn), Some(VirtPageNum(vpn)));
        let pte = child.translate(VirtPageNum(vpn)).unwrap();
        assert_eq!(pte.ppn(), theirs.ppn);
        assert_eq!(pte.flags().bits, 0x01 | (3 << 1) | 0x10);
    }
    // The trampoline is mapped, readable and executable.
    let t = child.translate(VirtPageNum(0x7ff_ffff)).unwrap();
    assert_eq!(t.ppn(), PhysPageNum(0x80201));
    assert_eq!(t.flags().bits, 0x0b);
    // Writes in the child leave the parent as it is.
    child.write_page(VirtPageNum(0x10000), 5, &[0x99, 0x98]);
    assert_eq!(child.areas[0].data_frames[&0x10000].data[5], 0x99);
    assert_eq!(child.areas[0].data_frames[&0x10000].data[6], 0x98);
    assert_eq!(k.load(BASE + 5), Some(0x11));
    assert_eq!(k.load(BASE + 6), Some(0));
    assert_eq!(k.load(BASE + 2 * PAGE), Some(0x33));
}

#[test]
fn fork_fails_without_frames() {
    let mut a = pool(100, 104);
    let mut p2v = ReverseMap::new();
    let mut parent = MemorySet::new_with_trampoline(PRA::FIFO, TRAMPOLINE, &p2v, &mut a).unwrap();
    assert_eq!(free_frames(&a), 1);
    assert!(MemorySet::from_existed_user(&parent, TRAMPOLINE, &mut p2v, &mut a).is_none());
    parent.recycle_data_pages(&mut p2v, &mut a);
    assert!(MemorySet::new_with_trampoline(PRA::FIFO, TRAMPOLINE, &p2v, &mut a).is_none());
}

/// Makes the space at place `i` of the ready list the current one.
fn switch_to(k: &mut Kernel, i: usize) {
    let incoming = k.ready[i].token();
    assert_eq!(k.switch_to(i), incoming);
    assert_eq!(k.current.token(), incoming);
}

#[test]
fn concurrent_fork() {
    let frames = 256;
    let mut k = Kernel::new(PhysPageNum(0x80400), PhysPageNum(0x80400 + frames), PRA::WorkingSet);
    assert_eq!(k.mmap(BASE - 16 * PAGE, 8 * PAGE, 3), 0);
    for i in 0..8usize {
        assert_eq!(k.user_write(BASE - 16 * PAGE + i * PAGE + i, 0xc0 + i as u8, 0), Ok(true));
    }
    let parent_tables = 3;
    assert_eq!(free_frames(&k.frame_allocator) + owned_frames(&k.current) + parent_tables, 256);
    for c in 0..3 {
        assert_eq!(k.fork(TRAMPOLINE), Some(c));
        assert_ne!(k.ready[c].token(), k.current.token());
    }
    let len = PAGE * 400;
    let mut now: u64 = 1;
    let mut seeds = [3usize, 5, 7];
    // The children map their regions and write, in turns.
    for c in 0..3 {
        switch_to(&mut k, c);
        assert_eq!(k.mmap(BASE, len, 3), 0);
        switch_to(&mut k, c);
    }
    for step in 0..1024 {
        for c in 0..3 {
            switch_to(&mut k, c);
            let at = random(len, seeds[c]);
            assert_eq!(k.user_write(BASE + at, (at + c) as u8, now), Ok(true));
            seeds[c] = at;
            now += 1;
            switch_to(&mut k, c);
        }
        if step % 4 == 3 {
            k.check_workingset();
        }
    }
    // Each child reads back what it wrote, and sees the bytes that it
    // inherited.
    let mut seeds = [3usize, 5, 7];
    for step in 0..1024 {
        for c in 0..3 {
            switch_to(&mut k, c);
            let at = random(len, seeds[c]);
            // A later write of the same child may have hit the same byte.
            let got = k.user_read(BASE + at, now).unwrap().unwrap();
            assert_eq!(got, (at + c) as u8);
            seeds[c] = at;
            now += 1;
            switch_to(&mut k, c);
        }
        if step % 4 == 3 {
            k.check_workingset();
        }
    }
    for c in 0..3 {
        switch_to(&mut k, c);
        for i in 0..8usize {
            let addr = BASE - 16 * PAGE + i * PAGE + i;
            assert_eq!(k.user_read(addr, now), Ok(Some(0xc0 + i as u8)));
            now += 1;
        }
        switch_to(&mut k, c);
    }
    // The children exit, one after the other: their pages and tables go
    // back to the allocator, their pages leave the swap store, and the
    // parent runs again.
    let parent = k.current.token();
    for _ in 0..3 {
        let last = k.ready.len() - 1;
        k.switch_to(last);
        let child = k.current.token();
        assert_ne!(child, parent);
        assert_eq!(k.exit_current(last), parent);
        assert_eq!(k.current.token(), parent);
        assert_eq!(k.ready.len(), last);
        for v in 0..400u64 {
            assert!(!k.ide_manager.check(child, VirtPageNum(0x10000 + v)));
        }
    }
    // The parent still has its bytes, and every frame is free again or
    // the parent's.
    for i in 0..8usize {
        let addr = BASE - 16 * PAGE + i * PAGE + i;
        assert_eq!(k.user_read(addr, now), Ok(Some(0xc0 + i as u8)));
        now += 1;
    }
    assert_eq!(free_frames(&k.frame_allocator) + owned_frames(&k.current) + parent_tables, 256);
}

fn layout() -> KernelLayout {
    KernelLayout {
        stext: 0x8020_0000,
        etext: 0x8020_3000,
        srodata: 0x8020_3000,
        erodata: 0x8020_4800,
        sdata: 0x8020_5000,
        edata: 0x8020_6000,
        sbss_with_stack: 0x8020_6000,
        ebss: 0x8021_0000,
        ekernel: 0x8021_0000,
        strampoline: 0x8020_1000,
    }
}

#[test]
fn kernel_space_maps_the_image_by_identity() {
    let mut a = pool(0x80210, 0x80800);
    let mut p2v = ReverseMap::new();
    let mmio = [(0x1000_1000u64, 0x1000u64), (0x200_0000, 0x10000)];
    let ks =
        MemorySet::new_kernel(&layout(), 0x8080_0000, &mmio, PRA::Clock, &mut p2v, &mut a).unwrap();
    assert_eq!(ks.areas.len(), 7);
    assert_eq!(kernel_token(&ks), (8u64 << 60) | 0x80210);
    assert_eq!(ks.activate(), ks.token());
    let expect = [
        (0x80200u64, 0x80203u64, 0x0au8),
        (0x80203, 0x80205, 0x02),
        (0x80205, 0x80206, 0x06),
        (0x80206, 0x80210, 0x06),
        (0x80210, 0x80800, 0x06),
        (0x10001, 0x10002, 0x06),
        (0x2000, 0x2010, 0x06),
    ];
    for (area, (start, end, perm)) in ks.areas.iter().zip(expect.iter()) {
        assert_eq!(area.map_type, MapType::Identical);
        assert_eq!(area.vpn_range.get_start().0, *start);
        assert_eq!(area.vpn_range.get_end().0, *end);
        assert_eq!(area.map_perm.bits, *perm);
        assert!(area.data_frames.is_empty());
        for vpn in [*start, *end - 1] {
            let pte = ks.translate(VirtPageNum(vpn)).unwrap();
            assert!(pte.is_valid());
            assert_eq!(pte.ppn().0, vpn);
            assert_eq!(pte.flags().bits, *perm | 0x01);
        }
    }
    // The text is not writable, the data not executable.
    assert!(!ks.translate(VirtPageNum(0x80201)).unwrap().writable());
    assert!(!ks.translate(VirtPageNum(0x80204)).unwrap().writable());
    assert!(!ks.translate(VirtPageNum(0x80205)).unwrap().executable());
    let t = ks.translate(VirtPageNum(0x7ff_ffff)).unwrap();
    assert_eq!(t.ppn().0, 0x80201);
    assert_eq!(t.flags().bits, 0x0b);
    // Identical areas put nothing in the reverse map.
    assert_eq!(p2v.get(PhysPageNum(0x80200)), None);
    assert!(remap_test(&ks, &layout()));
    // A layout whose text lies in the writable part fails the test.
    let mut skewed = layout();
    skewed.stext = 0x8020_6000;
    skewed.etext = 0x8020_8000;
    assert!(!remap_test(&ks, &skewed));
}

#[test]
fn kernel_space_refuses_overlapping_sections() {
    let mut a = pool(0x80210, 0x80800);
    let mut p2v = ReverseMap::new();
    let mut bad = layout();
    bad.srodata = 0x8020_2fff;
    assert!(MemorySet::new_kernel(&bad, 0x8080_0000, &[], PRA::Clock, &mut p2v, &mut a).is_none());
    let mut a = pool(0x80210, 0x80800);
    let mut backwards = layout();
    backwards.etext = 0x8010_0000;
    assert!(
        MemorySet::new_kernel(&backwards, 0x8080_0000, &[], PRA::Clock, &mut p2v, &mut a).is_none()
    );
    // Too few frames for the tables.
    let mut a = pool(0x80210, 0x80214);
    assert!(
        MemorySet::new_kernel(&layout(), 0x8080_0000, &[], PRA::Clock, &mut p2v, &mut a).is_none()
    );
    assert!(free_frames(&a) < 3);
}

#[test]
fn init_brings_memory_management_up() {
    let km = demand_paging::mm::init(&layout(), 0x8080_0000, &[], PRA::ClockImproved);
    let ks = km.kernel_space.unwrap();
    assert_eq!(ks.page_table.root_ppn(), PhysPageNum(0x80210));
    assert_eq!(demand_paging::memory::enable_kernel_page_table(&ks), (8u64 << 60) | 0x80210);
    // 0x5f0 frames in the pool; the root, a second-level table and the
    // last-level tables of the image, of the devices and of the trampoline
    // are taken.
    assert!(free_frames(&km.frame_allocator) < 0x5f0);
    assert!(free_frames(&km.frame_allocator) > 0x5e0);
    let a = demand_paging::memory::init(PhysAddr(0x8021_0001), PhysAddr(0x8021_3fff));
    assert_eq!(free_frames(&a), 2);
    let mut a = a;
    assert_eq!(a.allocate(), Some(PhysPageNum(0x80211)));
}

#[test]
fn kernel_framed_area_is_mapped_at_once() {
    let mut a = pool(100, 120);
    let mut p2v = ReverseMap::new();
    let mut ms = MemorySet::new_bare(PRA::Clock, &mut a);
    assert!(ms.insert_framed_area_kernel(
        VirtAddr(0x5000),
        VirtAddr(0x7000),
        MapPermission { bits: 0x06 },
        &mut p2v,
        &mut a
    ));
    assert_eq!(ms.areas[0].data_frames.len(), 2);
    let frame = &ms.areas[0].data_frames[&5];
    assert_eq!(ms.translate(VirtPageNum(5)).unwrap().ppn(), frame.ppn);
    assert_eq!(p2v.get(frame.ppn), Some(VirtPageNum(5)));
    // Lazily inserted areas take nothing.
    let before = free_frames(&a);
    ms.insert_framed_area(VirtAddr(0x9000), VirtAddr(0xa000), MapPermission { bits: 0x16 });
    assert_eq!(free_frames(&a), before);
    assert_eq!(ms.find_area(VirtPageNum(9)), Some(1));
    assert_eq!(ms.find_area(VirtPageNum(8)), None);
    assert!(ms.overlaps_any(6, 8));
    assert!(!ms.overlaps_any(7, 9));
    assert_eq!(
        ms.try_kpush(0x6000, 0x8000, MapType::Framed, MapPermission { bits: 2 }, &mut p2v, &mut a),
        PushOutcome::Refused
    );
    assert_eq!(
        ms.try_kpush(0x8000, 0x7000, MapType::Framed, MapPermission { bits: 2 }, &mut p2v, &mut a),
        PushOutcome::Refused
    );
    // Removing the first area gives its frames back.
    assert_eq!(ms.remove_area_with_start_vpn(VirtPageNum(5), &mut p2v, &mut a), Some(0));
    assert_eq!(ms.remove_area_with_start_vpn(VirtPageNum(5), &mut p2v, &mut a), None);
    assert_eq!(free_frames(&a), before + 2);
    assert_eq!(ms.areas.len(), 1);
    assert!(!ms.translate(VirtPageNum(5)).unwrap().is_valid());
}

fn segment(vaddr: u64, mem: u64, offset: u64, file: u64, flags: u32) -> ProgramHeader {
    ProgramHeader {
        is_load: true,
        virtual_addr: vaddr,
        mem_size: mem,
        offset,
        file_size: file,
        flags,
    }
}

#[test]
fn elf_segments_become_resident_areas() {
    let mut a = pool(0x80400, 0x80440);
    let mut p2v = ReverseMap::new();
    let data: Vec<u8> = (0..0x3000usize).map(|i| (i % 253) as u8).collect();
    let elf = ElfImage {
        magic: [0x7f, 0x45, 0x4c, 0x46],
        entry_point: 0x10123,
        program_headers: vec![
            // Text: read and execute, 0x1800 bytes from the file.
            segment(0x10000, 0x1800, 0x100, 0x1800, 5),
            ProgramHeader {
                is_load: false,
                virtual_addr: 0,
                mem_size: 0,
                offset: 0,
                file_size: 0,
                flags: 0,
            },
            // Data: read and write, 0x10 bytes from the file, the rest zero.
            segment(0x12000, 0x2010, 0x2000, 0x10, 6),
        ],
    };
    let (ms, user_sp, entry) =
        MemorySet::from_elf(&elf, &data, PRA::ClockImproved, TRAMPOLINE, &mut p2v, &mut a).unwrap();
    assert_eq!(entry, 0x10123);
    // One page above the end of the last segment.
    assert_eq!(user_sp, 0x15000 + 4096);
    assert_eq!(ms.areas.len(), 2);
    assert_eq!(ms.areas[0].vpn_range.get_start().0, 0x10);
    assert_eq!(ms.areas[0].vpn_range.get_end().0, 0x12);
    assert_eq!(ms.areas[0].map_perm.bits, MAP_PERM_U | MAP_PERM_R | MAP_PERM_X);
    assert_eq!(ms.areas[1].vpn_range.get_start().0, 0x12);
    assert_eq!(ms.areas[1].vpn_range.get_end().0, 0x15);
    assert_eq!(ms.areas[1].map_perm.bits, MAP_PERM_U | MAP_PERM_R | MAP_PERM_W);
    let text0 = &ms.areas[0].data_frames[&0x10];
    assert_eq!(&text0.data[..], &data[0x100..0x1100]);
    let text1 = &ms.areas[0].data_frames[&0x11];
    assert_eq!(&text1.data[..0x800], &data[0x1100..0x1900]);
    assert!(text1.data[0x800..].iter().all(|b| *b == 0));
    let d0 = &ms.areas[1].data_frames[&0x12];
    assert_eq!(&d0.data[..0x10], &data[0x2000..0x2010]);
    assert!(d0.data[0x10..].iter().all(|b| *b == 0));
    assert!(ms.areas[1].data_frames[&0x14].data.iter().all(|b| *b == 0));
    let pte = ms.translate(VirtPageNum(0x11)).unwrap();
    assert!(pte.readable() && pte.executable() && !pte.writable());
    assert_eq!(pte.ppn(), text1.ppn);
    assert_eq!(p2v.get(text1.ppn), Some(VirtPageNum(0x11)));
    assert!(ms.translate(VirtPageNum(0x7ff_ffff)).unwrap().is_valid());
    // The loaded pages are not registered with the policy.
    assert_eq!(ms.frame_manager.len(), 0);
}

#[test]
fn elf_errors() {
    let mut p2v = ReverseMap::new();
    let data = vec![0u8; 0x1000];
    let elf = |magic: [u8; 4], headers: Vec<ProgramHeader>| ElfImage {
        magic,
        entry_point: 0,
        program_headers: headers,
    };
    let good = [0x7f, 0x45, 0x4c, 0x46];
    let load = |e: &ElfImage, p2v: &mut ReverseMap, frames: u64| {
        let mut a = pool(0x80400, 0x80400 + frames);
        MemorySet::from_elf(e, &data, PRA::Clock, TRAMPOLINE, p2v, &mut a).err()
    };
    assert_eq!(load(&elf([0x7f, 0x45, 0x4c, 0x47], vec![]), &mut p2v, 16), Some(ElfError::BadMagic));
    assert_eq!(load(&elf(good, vec![]), &mut p2v, 16), None);
    // The bytes of the segment reach past the end of the file.
    let past = elf(good, vec![segment(0x10000, 0x2000, 0x800, 0x801, 4)]);
    assert_eq!(load(&past, &mut p2v, 16), Some(ElfError::BadSegment));
    // More bytes in the file than room in memory.
    let cramped = elf(good, vec![segment(0x10000, 0x10, 0, 0x1001, 4)]);
    assert_eq!(load(&cramped, &mut p2v, 16), Some(ElfError::BadSegment));
    // Two segments on one page.
    let shared = elf(
        good,
        vec![segment(0x10000, 0x100, 0, 0, 4), segment(0x10800, 0x100, 0, 0, 4)],
    );
    assert_eq!(load(&shared, &mut p2v, 16), Some(ElfError::BadSegment));
    // A segment beyond the address space.
    let far = elf(good, vec![segment(0x7f_ffff_f000, 1, 0, 0, 4)]);
    assert_eq!(load(&far, &mut p2v, 16), Some(ElfError::BadSegment));
    let one = elf(good, vec![segment(0x10000, 0x3000, 0, 0x1000, 4)]);
    assert_eq!(load(&one, &mut p2v, 2), Some(ElfError::OutOfFrames));
    assert_eq!(load(&one, &mut p2v, 5), Some(ElfError::OutOfFrames));
    assert_eq!(load(&one, &mut p2v, 8), None);
}

#[test]
fn kernel_fork_fails_without_frames() {
    let mut k = Kernel::new(PhysPageNum(0x80400), PhysPageNum(0x80403), PRA::Clock);
    assert_eq!(k.fork(TRAMPOLINE), None);
}

#[test]
fn area_maps_and_unmaps_all_of_its_pages() {
    let mut a = pool(300, 320);
    let mut p2v = ReverseMap::new();
    let mut table = demand_paging::mm::page_table::PageTable::new(&mut a);
    let mut framed = MapArea::new(
        VirtAddr(0x4000),
        VirtAddr(0x7000),
        MapType::Framed,
        MapPermission { bits: 0x06 },
    );
    assert!(framed.map(&mut table, &mut a, &mut p2v));
    assert_eq!(framed.data_frames.len(), 3);
    for vpn in 4..7u64 {
        let frame = &framed.data_frames[&vpn];
        let pte = table.translate(VirtPageNum(vpn)).unwrap();
        assert_eq!(pte.ppn(), frame.ppn);
        assert_eq!(pte.flags().bits, 0x07);
        assert_eq!(p2v.get(frame.ppn), Some(VirtPageNum(vpn)));
        assert!(frame.data.iter().all(|b| *b == 0));
    }
    let mut identical = MapArea::new(
        VirtAddr(0x9000),
        VirtAddr(0xa000),
        MapType::Identical,
        MapPermission { bits: 0x02 },
    );
    assert!(identical.map(&mut table, &mut a, &mut p2v));
    assert_eq!(table.translate(VirtPageNum(9)).unwrap().ppn(), PhysPageNum(9));
    assert!(identical.data_frames.is_empty());
    let free = free_frames(&a);
    let first = framed.data_frames[&4].ppn;
    framed.unmap(&mut table, &mut a, &mut p2v);
    assert!(framed.data_frames.is_empty());
    assert_eq!(free_frames(&a), free + 3);
    assert_eq!(p2v.get(first), None);
    assert!(!table.translate(VirtPageNum(5)).unwrap().is_valid());
    assert!(table.translate(VirtPageNum(9)).unwrap().is_valid());
    identical.unmap(&mut table, &mut a, &mut p2v);
    assert!(!table.translate(VirtPageNum(9)).unwrap().is_valid());
    // One page of an area that does not fit the frames that are left.
    let mut a = pool(300, 303);
    let mut table = demand_paging::mm::page_table::PageTable::new(&mut a);
    let mut big = MapArea::new(
        VirtAddr(0x4000),
        VirtAddr(0x7000),
        MapType::Framed,
        MapPermission { bits: 0x06 },
    );
    assert!(!big.map(&mut table, &mut a, &mut p2v));
    assert!(free_frames(&a) < 3);
}

#[test]
fn one_page_is_mapped_and_unmapped() {
    let mut a = pool(300, 320);
    let mut p2v = ReverseMap::new();
    let mut table = demand_paging::mm::page_table::PageTable::new(&mut a);
    let mut area = MapArea::new(
        VirtAddr(0x4000),
        VirtAddr(0x7000),
        MapType::Framed,
        MapPermission { bits: 0x16 },
    );
    area.map_one(&mut table, VirtPageNum(5), &mut a, &mut p2v);
    // The page took the first free frame, the two new tables the next.
    assert_eq!(area.data_frames[&5].ppn, PhysPageNum(301));
    assert_eq!(a.allocate(), Some(PhysPageNum(304)));
    assert_eq!(table.translate(VirtPageNum(5)).unwrap().ppn(), PhysPageNum(301));
    assert_eq!(p2v.get(PhysPageNum(301)), Some(VirtPageNum(5)));
    assert!(area.is_resident(VirtPageNum(5)));
    area.unmap_one(&mut table, VirtPageNum(5), &mut a, &mut p2v);
    assert!(!area.is_resident(VirtPageNum(5)));
    assert_eq!(p2v.get(PhysPageNum(301)), None);
    assert_eq!(a.allocate(), Some(PhysPageNum(301)));
}

#[test]
fn an_area_takes_data_page_by_page() {
    let mut a = pool(300, 320);
    let mut p2v = ReverseMap::new();
    let mut table = demand_paging::mm::page_table::PageTable::new(&mut a);
    let mut area = MapArea::new(
        VirtAddr(0x4000),
        VirtAddr(0x7000),
        MapType::Framed,
        MapPermission { bits: 0x06 },
    );
    assert!(area.map(&mut table, &mut a, &mut p2v));
    let frames: Vec<PhysPageNum> = (4..7u64).map(|v| area.data_frames[&v].ppn).collect();
    // One page and a half: the third page stays as it was.
    let data: Vec<u8> = (0..PAGE + PAGE / 2).map(|i| (i % 251) as u8 + 1).collect();
    area.copy_data(&data);
    assert_eq!(area.data_frames.len(), 3);
    for (k, v) in (4..7u64).enumerate() {
        assert_eq!(area.data_frames[&v].ppn, frames[k]);
        assert_eq!(area.data_frames[&v].data.len(), PAGE);
    }
    assert_eq!(&area.data_frames[&4].data[..], &data[..PAGE]);
    assert_eq!(&area.data_frames[&5].data[..PAGE / 2], &data[PAGE..]);
    assert!(area.data_frames[&5].data[PAGE / 2..].iter().all(|b| *b == 0));
    assert!(area.data_frames[&6].data.iter().all(|b| *b == 0));
    // Shorter data leaves the rest of what was there.
    area.copy_data(&[0xee, 0xef]);
    assert_eq!(&area.data_frames[&4].data[..3], &[0xee, 0xef, data[2]]);
    assert_eq!(&area.data_frames[&5].data[..PAGE / 2], &data[PAGE..]);
    // No data changes nothing.
    area.copy_data(&[]);
    assert_eq!(&area.data_frames[&4].data[..3], &[0xee, 0xef, data[2]]);
}

#[test]
fn a_kernel_starts_around_the_first_program() {
    let mut a = pool(0x80400, 0x80440);
    let mut p2v = ReverseMap::new();
    let data: Vec<u8> = (0..0x3000usize).map(|i| (i % 253) as u8).collect();
    let image = ElfImage {
        magic: [0x7f, 0x45, 0x4c, 0x46],
        entry_point: 0x10000,
        program_headers: vec![ProgramHeader {
            is_load: true,
            virtual_addr: 0x10000,
            mem_size: 0x2000,
            offset: 0,
            file_size: 0x1800,
            flags: 5,
        }],
    };
    let (first, _sp, entry) =
        MemorySet::from_elf(&image, &data, PRA::Clock, TRAMPOLINE, &mut p2v, &mut a).unwrap();
    assert_eq!(entry, 0x10000);
    let token = first.token();
    let free = free_frames(&a);
    let mut k = Kernel::with_first_process(a, p2v, first, PRA::Clock);
    assert_eq!(k.current.token(), token);
    assert_eq!(k.ready.len(), 0);
    assert_eq!(free_frames(&k.frame_allocator), free);
    // The program reads its text, and a new region faults in.
    assert_eq!(k.user_read(0x10000 + 5, 0), Ok(Some(5)));
    assert_eq!(k.mmap(BASE, 4 * PAGE, 3), 0);
    assert_eq!(k.user_write(BASE + 9, 0x33, 0), Ok(true));
    assert_eq!(k.user_read(BASE + 9, 0), Ok(Some(0x33)));
    // A child is forked and ends: its frames come back.
    let before = free_frames(&k.frame_allocator);
    let child = k.fork(TRAMPOLINE).unwrap();
    assert!(free_frames(&k.frame_allocator) < before);
    k.switch_to(child);
    assert_eq!(k.user_read(BASE + 9, 0), Ok(Some(0x33)));
    assert_eq!(k.exit_current(child), token);
    assert_eq!(free_frames(&k.frame_allocator), before);
    assert_eq!(k.user_read(BASE + 9, 0), Ok(Some(0x33)));
}

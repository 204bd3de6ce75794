//! Address spaces: areas of virtual pages, and the memory set that holds
//! the areas, the page table and the replacement state of one space.

use vstd::prelude::*;
use std::collections::BTreeMap;
use crate::mm::address::{VirtAddr, VirtPageNum, PhysPageNum, VPNRange, page_floor, page_ceil};
use crate::mm::frame_allocator::{FrameTracker, StackFrameAllocator, frame_alloc, zero_page};
use crate::mm::frame_manager::{LocalFrameManager, PRA, clock_demoted, select, lemma_select_one, lemma_select_none, lemma_select_twice};
use crate::mm::page_table::{PageTable, PageTableEntry, PTEFlags};
use crate::mm::vmm::{ReverseMap, IdeManager};

verus! {

broadcast use {vstd::std_specs::btree::group_btree_axioms, vstd::laws_cmp::group_laws_cmp};

/// How the pages of an area find their frames.
#[derive(Copy, Clone, PartialEq, Eq, Structural, Debug)]
pub enum MapType {
    /// Page `n` is frame `n`.
    Identical,
    /// Each resident page has a frame of its own from the allocator.
    Framed,
}

/// Permission to read.
pub const MAP_PERM_R: u8 = 0x02;

/// Permission to write.
pub const MAP_PERM_W: u8 = 0x04;

/// Permission to execute.
pub const MAP_PERM_X: u8 = 0x08;

/// Access from user mode.
pub const MAP_PERM_U: u8 = 0x10;

/// The permissions of an area: a set of `R`, `W`, `X` and `U`, at the bit
/// positions that the same flags have in a page-table entry.
#[derive(Copy, Clone, PartialEq, Eq, Structural, Debug)]
pub struct MapPermission {
    pub bits: u8,
}

impl MapPermission {
    /// Only the four permission bits may be set.
    pub open spec fn wf(self) -> bool {
        self.bits & 0xe1 == 0
    }

    /// No permission.
    pub fn empty() -> (r: MapPermission)
        ensures
            r.bits == 0,
            r.wf(),
    {
        assert(0u8 & 0xe1 == 0) by (bit_vector);
        MapPermission { bits: 0 }
    }

    /// The permissions with the given bits, if each is a permission.
    pub fn from_bits(bits: u8) -> (r: Option<MapPermission>)
        ensures
            r == (if bits & 0xe1 == 0 {
                Some(MapPermission { bits })
            } else {
                None
            }),
    {
        if bits & 0xe1 == 0 {
            Some(MapPermission { bits })
        } else {
            None
        }
    }

    pub fn bits(&self) -> (r: u8)
        ensures
            r == self.bits,
    {
        self.bits
    }

    /// Whether every permission of `mask` is given.
    pub fn contains(&self, mask: u8) -> (r: bool)
        ensures
            r == (self.bits & mask == mask),
    {
        self.bits & mask == mask
    }

    /// Gives the permissions of `mask` if `value`, else takes them away.
    pub fn set(&mut self, mask: u8, value: bool)
        requires
            old(self).wf(),
            mask & 0xe1 == 0,
        ensures
            final(self).wf(),
            final(self).bits == (if value {
                old(self).bits | mask
            } else {
                old(self).bits & !mask
            }),
    {
        let b: u8 = self.bits;
        assert(b & 0xe1 == 0 && mask & 0xe1 == 0 ==> (b | mask) & 0xe1 == 0 && (b & !mask) & 0xe1
            == 0) by (bit_vector);
        if value {
            self.bits = self.bits | mask;
        } else {
            self.bits = self.bits & !mask;
        }
    }
}

/// A run of virtual pages with one mapping type and one set of
/// permissions. A framed area owns the frames of its resident pages.
pub struct MapArea {
    pub vpn_range: VPNRange,
    pub data_frames: BTreeMap<u64, FrameTracker>,
    pub map_type: MapType,
    pub map_perm: MapPermission,
}

/// Number of the last virtual page, which holds the trampoline in every
/// address space and belongs to no area.
pub const TRAMPOLINE_VPN: u64 = 0x7ff_ffff;

impl MapArea {
    /// The resident pages of the area, each with its frame.
    pub open spec fn frames(self) -> Map<u64, FrameTracker> {
        self.data_frames@
    }

    /// The range lies below the trampoline, only framed areas own frames,
    /// and each owned frame backs a page of the range.
    pub open spec fn wf(self) -> bool {
        &&& self.vpn_range.wf()
        &&& self.vpn_range.end() <= TRAMPOLINE_VPN
        &&& self.map_perm.wf()
        &&& self.map_type == MapType::Identical ==> self.frames().dom() == Set::<u64>::empty()
        &&& forall|vpn: u64| #[trigger]
            self.frames().contains_key(vpn) ==> self.vpn_range.contains(vpn as int)
                && self.frames()[vpn].wf()
    }

    /// An area over the pages that `[start_va, end_va)` touches, with
    /// nothing resident.
    pub fn new(
        start_va: VirtAddr,
        end_va: VirtAddr,
        map_type: MapType,
        map_perm: MapPermission,
    ) -> (r: MapArea)
        requires
            start_va.0 <= end_va.0,
            end_va.0 <= 0x7f_ffff_f000,
            map_perm.wf(),
        ensures
            r.wf(),
            r.vpn_range.start() == page_floor(start_va.0 as int),
            r.vpn_range.end() == page_ceil(end_va.0 as int),
            r.frames() == Map::<u64, FrameTracker>::empty(),
            r.map_type == map_type,
            r.map_perm == map_perm,
    {
        let start_vpn: VirtPageNum = start_va.floor();
        let end_vpn: VirtPageNum = end_va.ceil();
        let r = MapArea {
            vpn_range: VPNRange::new(start_vpn, end_vpn),
            data_frames: BTreeMap::new(),
            map_type,
            map_perm,
        };
        assert(r.frames().dom() =~= Set::<u64>::empty());
        r
    }

    /// An area with the range, type and permissions of `another`, and
    /// nothing resident.
    pub fn from_another(another: &MapArea) -> (r: MapArea)
        requires
            another.wf(),
        ensures
            r.wf(),
            r.vpn_range == another.vpn_range,
            r.frames() == Map::<u64, FrameTracker>::empty(),
            r.map_type == another.map_type,
            r.map_perm == another.map_perm,
    {
        let r = MapArea {
            vpn_range: VPNRange::new(another.vpn_range.get_start(), another.vpn_range.get_end()),
            data_frames: BTreeMap::new(),
            map_type: another.map_type,
            map_perm: another.map_perm,
        };
        assert(r.frames().dom() =~= Set::<u64>::empty());
        proof {
            r.vpn_range.lemma_same(another.vpn_range);
        }
        r
    }

    /// The flags of the page-table entries of this area, without the
    /// valid bit.
    pub fn get_flag_bits(&self) -> (r: PTEFlags)
        ensures
            r.bits == self.map_perm.bits,
    {
        PTEFlags::from_bits(self.map_perm.bits).unwrap()
    }

    /// Whether page `vpn` of the area is resident.
    pub fn is_resident(&self, vpn: VirtPageNum) -> (r: bool)
        ensures
            r == self.frames().contains_key(vpn.0),
    {
        self.data_frames.get(&vpn.0).is_some()
    }

    /// Number of frames that `map_one` takes to map `vpn`: one for the
    /// page if the area is framed, and one for each missing table.
    pub open spec fn frames_for(self, page_table: PageTable, vpn: int) -> nat {
        (if self.map_type == MapType::Framed {
            1nat
        } else {
            0nat
        }) + page_table.missing_tables(vpn)
    }

    /// Makes page `vpn` resident: in a framed area it gets the next free
    /// frame, cleared, and the reverse map learns of it; in an identical
    /// area it is mapped to the frame of its own number.
    pub fn map_one(
        &mut self,
        page_table: &mut PageTable,
        vpn: VirtPageNum,
        allocator: &mut StackFrameAllocator,
        p2v: &mut ReverseMap,
    )
        requires
            old(self).wf(),
            old(page_table).wf(),
            old(allocator).wf(),
            old(self).vpn_range.contains(vpn.0 as int),
            !old(page_table)@.contains_key(vpn.0),
            !old(self).frames().contains_key(vpn.0),
            old(allocator).free().len() >= old(self).frames_for(*old(page_table), vpn.0 as int),
            forall|i: int|
                0 <= i < old(page_table).table_frames().len() ==> old(allocator).allocated(
                    #[trigger] old(page_table).table_frames()[i],
                ),
        ensures
            final(self).wf(),
            final(self).vpn_range == old(self).vpn_range,
            final(self).map_type == old(self).map_type,
            final(self).map_perm == old(self).map_perm,
            final(page_table).wf(),
            final(page_table).root() == old(page_table).root(),
            forall|v: int|
                #[trigger] final(page_table).has_table(v) == (old(page_table).has_table(v)
                    || crate::mm::page_table::same_table(v, vpn.0 as int)),
            forall|v: int|
                #[trigger] final(page_table).has_mid(v) == (old(page_table).has_mid(v)
                    || crate::mm::page_table::same_mid(v, vpn.0 as int)),
            final(allocator).after_taking(
                *old(allocator),
                old(self).frames_for(*old(page_table), vpn.0 as int) as int,
            ),
            old(self).map_type == MapType::Identical ==> {
                &&& final(self).frames() == old(self).frames()
                &&& final(page_table)@ == old(page_table)@.insert(
                    vpn.0,
                    PageTableEntry::spec_new(vpn.0, old(self).map_perm.bits | 0x01),
                )
                &&& final(p2v)@ == old(p2v)@
                &&& final(page_table).table_frames() == old(page_table).table_frames() + old(
                    allocator,
                ).free().take(old(page_table).missing_tables(vpn.0 as int) as int)
            },
            old(self).map_type == MapType::Framed ==> {
                &&& final(self).frames().dom() == old(self).frames().dom().insert(vpn.0)
                &&& final(self).frames()[vpn.0].ppn.0 == old(allocator).free()[0]
                &&& final(self).frames()[vpn.0].data@ == zero_page()
                &&& forall|w: u64|
                    w != vpn.0 && old(self).frames().contains_key(w)
                        ==> #[trigger] final(self).frames()[w] == old(self).frames()[w]
                &&& final(page_table)@ == old(page_table)@.insert(
                    vpn.0,
                    PageTableEntry::spec_new(
                        old(allocator).free()[0],
                        old(self).map_perm.bits | 0x01,
                    ),
                )
                &&& final(p2v)@ == old(p2v)@.insert(old(allocator).free()[0], vpn.0)
                &&& final(page_table).table_frames() == old(page_table).table_frames() + old(
                    allocator,
                ).free().subrange(1, 1 + old(page_table).missing_tables(vpn.0 as int) as int)
            },
    {
        let ghost a0 = *allocator;
        let ghost need = page_table.missing_tables(vpn.0 as int) as int;
        let ppn: PhysPageNum;
        match self.map_type {
            MapType::Identical => {
                ppn = PhysPageNum(vpn.0);
            },
            MapType::Framed => {
                let frame = frame_alloc(allocator).unwrap();
                ppn = frame.ppn;
                self.data_frames.insert(vpn.0, frame);
                assert(self.frames().dom() =~= old(self).frames().dom().insert(vpn.0));
            },
        }
        let ghost a1 = *allocator;
        let pte_flags = self.get_flag_bits();
        page_table.map(vpn, ppn, pte_flags, allocator);
        if self.map_type == MapType::Framed {
            p2v.insert(ppn, vpn);
            proof {
                assert(a1.free().take(need) =~= a0.free().subrange(1, 1 + need));
                assert(allocator.free() =~= a0.free().skip(1 + need));
                assert forall|p: u64|
                    allocator.allocated(p) == (a0.allocated(p) || a0.free().take(1 + need).contains(
                        p,
                    )) by {
                    let t1 = a1.free().take(need);
                    let t0 = a0.free().take(1 + need);
                    if t1.contains(p) {
                        let k = choose|k: int| 0 <= k < t1.len() && t1[k] == p;
                        assert(t0[k + 1] == p);
                    }
                    if t0.contains(p) {
                        let k = choose|k: int| 0 <= k < t0.len() && t0[k] == p;
                        if k > 0 {
                            assert(t1[k - 1] == p);
                        }
                    }
                    assert(t0[0] == a0.free()[0]);
                }
            }
        }
    }

    /// Makes page `vpn` non-resident: removes its translation, and in a
    /// framed area gives its frame back and takes it off the reverse map.
    pub fn unmap_one(
        &mut self,
        page_table: &mut PageTable,
        vpn: VirtPageNum,
        allocator: &mut StackFrameAllocator,
        p2v: &mut ReverseMap,
    )
        requires
            old(self).wf(),
            old(page_table).wf(),
            old(allocator).wf(),
            old(page_table)@.contains_key(vpn.0),
            old(self).map_type == MapType::Framed ==> old(self).frames().contains_key(vpn.0)
                && old(allocator).allocated(old(self).frames()[vpn.0].ppn.0),
        ensures
            final(self).wf(),
            final(self).vpn_range == old(self).vpn_range,
            final(self).map_type == old(self).map_type,
            final(self).map_perm == old(self).map_perm,
            final(page_table).wf(),
            final(page_table).same_tables(*old(page_table)),
            final(page_table)@ == old(page_table)@.remove(vpn.0),
            old(self).map_type == MapType::Identical ==> {
                &&& final(self).frames() == old(self).frames()
                &&& final(p2v)@ == old(p2v)@
                &&& final(allocator).wf()
                &&& final(allocator).limit() == old(allocator).limit()
                &&& final(allocator).free() == old(allocator).free()
                &&& forall|p: u64| final(allocator).allocated(p) == old(allocator).allocated(p)
            },
            old(self).map_type == MapType::Framed ==> {
                &&& final(self).frames() == old(self).frames().remove(vpn.0)
                &&& final(p2v)@ == old(p2v)@.remove(old(self).frames()[vpn.0].ppn.0)
                &&& final(allocator).after_giving(
                    *old(allocator),
                    old(self).frames()[vpn.0].ppn.0,
                )
            },
    {
        if self.map_type == MapType::Framed {
            match self.data_frames.remove(&vpn.0) {
                Some(frame) => {
                    allocator.dealloc(frame.ppn);
                    p2v.remove(frame.ppn);
                },
                None => {},
            }
        }
        page_table.unmap(vpn);
    }
}

/// Number of last-level tables that the pages `[start, end)` lie in.
pub open spec fn table_span(start: int, end: int) -> int {
    if end <= start {
        0
    } else {
        (end - 1) / 512 - start / 512 + 1
    }
}

/// Number of frames that suffice to map the pages `[start, end)` at once:
/// one for each page where the area is framed, and two for each last-level
/// table that the pages lie in, which is one for the table and one for a
/// second-level table above it.
pub open spec fn area_budget(framed: bool, start: int, end: int) -> int {
    (if framed && start < end {
        end - start
    } else {
        0
    }) + 2 * table_span(start, end)
}

/// Page `v` lies in the last-level table of the page before it, or is the
/// first page of a table; and the budget for `[start, v + 1)` is that for
/// `[start, v)`, one more for a framed page, and two more for the first
/// page of a table or of the range.
pub proof fn lemma_budget_step(framed: bool, start: int, v: int, end: int)
    requires
        0 <= start <= v < end,
    ensures
        v > start && v % 512 != 0 ==> crate::mm::page_table::same_table(v, v - 1),
        area_budget(framed, start, v + 1) == area_budget(framed, start, v) + (if framed {
            1int
        } else {
            0int
        }) + (if v == start || v % 512 == 0 {
            2int
        } else {
            0int
        }),
        area_budget(framed, start, v + 1) <= area_budget(framed, start, end),
        0 <= area_budget(framed, start, v),
{
}

impl MapArea {
    /// Maps every page of the area, lowest first (see `map_one`). Returns
    /// `false`, with the area mapped in part, where the free frames do not
    /// suffice.
    #[verifier::rlimit(60)]
    pub fn map(
        &mut self,
        page_table: &mut PageTable,
        allocator: &mut StackFrameAllocator,
        p2v: &mut ReverseMap,
    ) -> (r: bool)
        requires
            old(self).wf(),
            old(self).frames() == Map::<u64, FrameTracker>::empty(),
            old(page_table).wf(),
            old(allocator).wf(),
            forall|w: u64|
                old(self).vpn_range.contains(w as int) ==> !old(page_table)@.contains_key(w),
            forall|i: int|
                0 <= i < old(page_table).table_frames().len() ==> old(allocator).allocated(
                    #[trigger] old(page_table).table_frames()[i],
                ),
        ensures
            final(self).wf(),
            final(self).vpn_range == old(self).vpn_range,
            final(self).map_type == old(self).map_type,
            final(self).map_perm == old(self).map_perm,
            final(page_table).wf(),
            final(page_table).root() == old(page_table).root(),
            final(allocator).wf(),
            final(allocator).limit() == old(allocator).limit(),
            forall|w: u64|
                !old(self).vpn_range.contains(w as int) ==> (#[trigger] final(page_table)@.contains_key(w)) == old(page_table)@.contains_key(w),
            forall|w: u64|
                !old(self).vpn_range.contains(w as int) && old(page_table)@.contains_key(w)
                    ==> #[trigger] final(page_table)@[w] == old(page_table)@[w],
            r ==> forall|w: u64| #[trigger]
                old(self).vpn_range.contains(w as int) ==> {
                    &&& final(page_table)@.contains_key(w)
                    &&& old(self).map_type == MapType::Identical ==> final(page_table)@[w]
                        == PageTableEntry::spec_new(w, old(self).map_perm.bits | 0x01)
                    &&& old(self).map_type == MapType::Framed ==> {
                        &&& final(self).frames().contains_key(w)
                        &&& final(self).frames()[w].data@ == zero_page()
                        &&& final(page_table)@[w] == PageTableEntry::spec_new(
                            final(self).frames()[w].ppn.0,
                            old(self).map_perm.bits | 0x01,
                        )
                        &&& final(p2v)@.contains_key(final(self).frames()[w].ppn.0)
                        &&& final(p2v)@[final(self).frames()[w].ppn.0] == w
                    }
                },
            !r ==> final(allocator).free().len() < 3,
            old(allocator).free().len() >= area_budget(
                old(self).map_type == MapType::Framed,
                old(self).vpn_range.start(),
                old(self).vpn_range.end(),
            ) ==> r,
            final(allocator).free().len() + area_budget(
                old(self).map_type == MapType::Framed,
                old(self).vpn_range.start(),
                old(self).vpn_range.end(),
            ) >= old(allocator).free().len(),
    {
        let ghost a0 = *self;
        let ghost pt0 = *page_table;
        let start: u64 = self.vpn_range.get_start().0;
        let end: u64 = self.vpn_range.get_end().0;
        let ghost range = self.vpn_range;
        let ghost framed = self.map_type == MapType::Framed;
        let ghost perm = self.map_perm;
        proof {
            range.lemma_ordered();
        }
        let mut v: u64 = start;
        while v < end
            invariant
                start <= v <= end,
                end <= TRAMPOLINE_VPN,
                a0 == *old(self),
                pt0 == *old(page_table),
                range == a0.vpn_range,
                start == range.start(),
                end == range.end(),
                framed == (a0.map_type == MapType::Framed),
                perm == a0.map_perm,
                self.wf(),
                self.vpn_range == range,
                self.map_type == a0.map_type,
                self.map_perm == perm,
                page_table.wf(),
                page_table.root() == pt0.root(),
                allocator.wf(),
                allocator.limit() == old(allocator).limit(),
                allocator.free().len() + area_budget(framed, start as int, v as int) >= old(
                    allocator,
                ).free().len(),
                forall|i: int|
                    0 <= i < page_table.table_frames().len() ==> allocator.allocated(
                        #[trigger] page_table.table_frames()[i],
                    ),
                forall|w: u64|
                    #[trigger] page_table@.contains_key(w) == (pt0@.contains_key(w) || start <= w
                        < v),
                forall|w: u64|
                    pt0@.contains_key(w) ==> #[trigger] page_table@[w] == pt0@[w],
                forall|w: u64| range.contains(w as int) ==> !(#[trigger] pt0@.contains_key(w)),
                forall|w: u64| #[trigger] self.frames().contains_key(w) == (framed && start <= w < v),
                forall|w: u64|
                    start <= w < v && !framed ==> #[trigger] page_table@[w]
                        == PageTableEntry::spec_new(w, perm.bits | 0x01),
                forall|w: u64|
                    start <= w < v && framed ==> {
                        &&& (#[trigger] self.frames()[w]).data@ == zero_page()
                        &&& page_table@[w] == PageTableEntry::spec_new(
                            self.frames()[w].ppn.0,
                            perm.bits | 0x01,
                        )
                        &&& p2v@.contains_key(self.frames()[w].ppn.0)
                        &&& p2v@[self.frames()[w].ppn.0] == w
                        &&& allocator.allocated(self.frames()[w].ppn.0)
                    },
                forall|w: u64, x: u64|
                    start <= w < v && start <= x < v && w != x && framed ==> (
                    #[trigger] self.frames()[w]).ppn != (#[trigger] self.frames()[x]).ppn,
            decreases end - v,
        {
            let ghost a1 = *self;
            let ghost pt1 = *page_table;
            let ghost al1 = *allocator;
            let vpn = VirtPageNum(v);
            let need: usize = page_table.tables_needed(vpn) + (match self.map_type {
                MapType::Framed => 1usize,
                MapType::Identical => 0usize,
            });
            proof {
                lemma_budget_step(framed, start as int, v as int, end as int);
                page_table.lemma_tables();
                if v > start && v % 512 != 0 {
                    assert(page_table@.contains_key((v - 1) as u64));
                    assert(page_table.has_table(v - 1));
                    assert(page_table.has_table(v as int));
                }
            }
            if !allocator.has_free(need) {
                return false;
            }
            proof {
                al1.lemma_free_not_allocated();
            }
            self.map_one(page_table, vpn, allocator, p2v);
            proof {
                assert forall|w: u64|
                    #[trigger] page_table@.contains_key(w) == (pt0@.contains_key(w) || start <= w
                        < v + 1) by {}
                assert forall|w: u64| #[trigger] self.frames().contains_key(w) == (framed && start
                    <= w < v + 1) by {
                    if framed {
                        assert(self.frames().dom().contains(w) == a1.frames().dom().insert(
                            v,
                        ).contains(w));
                    }
                }
                let ppn = al1.free()[0];
                assert forall|w: u64| start <= w < v + 1 && framed implies {
                    &&& (#[trigger] self.frames()[w]).data@ == zero_page()
                    &&& page_table@[w] == PageTableEntry::spec_new(
                        self.frames()[w].ppn.0,
                        perm.bits | 0x01,
                    )
                    &&& p2v@.contains_key(self.frames()[w].ppn.0)
                    &&& p2v@[self.frames()[w].ppn.0] == w
                    &&& allocator.allocated(self.frames()[w].ppn.0)
                } by {
                    if w != v {
                        assert(a1.frames().contains_key(w));
                        assert(self.frames()[w] == a1.frames()[w]);
                        assert(al1.allocated(a1.frames()[w].ppn.0));
                        assert(a1.frames()[w].ppn.0 != ppn);
                    } else {
                        assert(al1.free().take(need as int)[0] == ppn);
                    }
                }
                assert forall|w: u64, x: u64|
                    start <= w < v + 1 && start <= x < v + 1 && w != x && framed implies (
                #[trigger] self.frames()[w]).ppn != (#[trigger] self.frames()[x]).ppn by {
                    if w != v {
                        assert(a1.frames().contains_key(w));
                        assert(self.frames()[w] == a1.frames()[w]);
                        assert(al1.allocated(a1.frames()[w].ppn.0));
                    }
                    if x != v {
                        assert(a1.frames().contains_key(x));
                        assert(self.frames()[x] == a1.frames()[x]);
                        assert(al1.allocated(a1.frames()[x].ppn.0));
                    }
                }
                assert forall|i: int|
                    0 <= i < page_table.table_frames().len() implies allocator.allocated(
                    #[trigger] page_table.table_frames()[i],
                ) by {
                    let tf0 = pt1.table_frames();
                    let taken = al1.free().take(need as int);
                    if i < tf0.len() {
                        assert(page_table.table_frames()[i] == tf0[i]);
                    } else if framed {
                        assert(taken[1 + (i - tf0.len())] == page_table.table_frames()[i]);
                    } else {
                        assert(taken[i - tf0.len()] == page_table.table_frames()[i]);
                    }
                }
            }
            v = v + 1;
        }
        true
    }

    /// Unmaps every mapped page of the area, lowest first, and gives the
    /// frames of a framed area back (see `unmap_one`).
    #[verifier::rlimit(60)]
    pub fn unmap(
        &mut self,
        page_table: &mut PageTable,
        allocator: &mut StackFrameAllocator,
        p2v: &mut ReverseMap,
    )
        requires
            old(self).wf(),
            old(page_table).wf(),
            old(allocator).wf(),
            forall|w: u64| #[trigger]
                old(self).frames().contains_key(w) ==> old(page_table)@.contains_key(w) && old(
                    allocator,
                ).allocated(old(self).frames()[w].ppn.0),
            forall|w: u64, x: u64|
                old(self).frames().contains_key(w) && old(self).frames().contains_key(x) && w != x
                    ==> (#[trigger] old(self).frames()[w]).ppn != (#[trigger] old(
                    self,
                ).frames()[x]).ppn,
        ensures
            final(self).wf(),
            final(self).vpn_range == old(self).vpn_range,
            final(self).map_type == old(self).map_type,
            final(self).map_perm == old(self).map_perm,
            final(self).frames() == Map::<u64, FrameTracker>::empty(),
            final(page_table).wf(),
            final(page_table).same_tables(*old(page_table)),
            forall|w: u64|
                #[trigger] final(page_table)@.contains_key(w) == (old(page_table)@.contains_key(w)
                    && !old(self).vpn_range.contains(w as int)),
            forall|w: u64|
                final(page_table)@.contains_key(w) ==> #[trigger] final(page_table)@[w] == old(
                    page_table,
                )@[w],
            final(allocator).wf(),
            final(allocator).limit() == old(allocator).limit(),
            forall|p: u64|
                #[trigger] final(allocator).allocated(p) == (old(allocator).allocated(p) && !(
                exists|w: u64|
                    old(self).frames().contains_key(w) && (#[trigger] old(self).frames()[w]).ppn.0
                        == p)),
            forall|p: u64|
                #[trigger] final(p2v)@.contains_key(p) == (old(p2v)@.contains_key(p) && !(
                exists|w: u64|
                    old(self).frames().contains_key(w) && (#[trigger] old(self).frames()[w]).ppn.0
                        == p)),
            forall|p: u64| final(p2v)@.contains_key(p) ==> #[trigger] final(p2v)@[p] == old(p2v)@[p],
    {
        let ghost a0 = *self;
        let ghost pt0 = *page_table;
        let ghost al0 = *allocator;
        let ghost m0 = p2v@;
        let start: u64 = self.vpn_range.get_start().0;
        let end: u64 = self.vpn_range.get_end().0;
        let ghost range = self.vpn_range;
        proof {
            range.lemma_ordered();
        }
        let mut v: u64 = start;
        while v < end
            invariant
                start <= v <= end,
                end <= TRAMPOLINE_VPN,
                a0 == *old(self),
                pt0 == *old(page_table),
                al0 == *old(allocator),
                m0 == old(p2v)@,
                a0.wf(),
                range == a0.vpn_range,
                start == range.start(),
                end == range.end(),
                self.wf(),
                self.vpn_range == range,
                self.map_type == a0.map_type,
                self.map_perm == a0.map_perm,
                page_table.wf(),
                page_table.same_tables(pt0),
                allocator.wf(),
                allocator.limit() == al0.limit(),
                forall|w: u64|
                    #[trigger] self.frames().contains_key(w) == (a0.frames().contains_key(w) && w
                        >= v),
                forall|w: u64|
                    self.frames().contains_key(w) ==> #[trigger] self.frames()[w] == a0.frames()[w],
                forall|w: u64| #[trigger]
                    a0.frames().contains_key(w) ==> pt0@.contains_key(w) && al0.allocated(
                        a0.frames()[w].ppn.0,
                    ),
                forall|w: u64, x: u64|
                    a0.frames().contains_key(w) && a0.frames().contains_key(x) && w != x ==> (
                    #[trigger] a0.frames()[w]).ppn != (#[trigger] a0.frames()[x]).ppn,
                forall|w: u64|
                    #[trigger] page_table@.contains_key(w) == (pt0@.contains_key(w) && !(start <= w
                        < v)),
                forall|w: u64| page_table@.contains_key(w) ==> #[trigger] page_table@[w] == pt0@[w],
                forall|p: u64|
                    #[trigger] allocator.allocated(p) == (al0.allocated(p) && !(exists|w: u64|
                        a0.frames().contains_key(w) && w < v && (#[trigger] a0.frames()[w]).ppn.0
                            == p)),
                forall|p: u64|
                    #[trigger] p2v@.contains_key(p) == (m0.contains_key(p) && !(exists|w: u64|
                        a0.frames().contains_key(w) && w < v && (#[trigger] a0.frames()[w]).ppn.0
                            == p)),
                forall|p: u64| p2v@.contains_key(p) ==> #[trigger] p2v@[p] == m0[p],
            decreases end - v,
        {
            let ghost a1 = *self;
            let ghost al1 = *allocator;
            let ghost m1 = p2v@;
            let vpn = VirtPageNum(v);
            let resident: bool = self.is_resident(vpn);
            let mapped: bool = match page_table.translate(vpn) {
                Some(pte) => pte.is_valid(),
                None => false,
            };
            if resident {
                proof {
                    assert(a0.frames().contains_key(v));
                    assert(a1.frames()[v] == a0.frames()[v]);
                    assert(a1.map_type == MapType::Framed) by {
                        if a1.map_type == MapType::Identical {
                            assert(a1.frames().dom().contains(v));
                        }
                    }
                    let ppn = a0.frames()[v].ppn.0;
                    assert(al1.allocated(ppn)) by {
                        if exists|w: u64|
                            a0.frames().contains_key(w) && w < v && (#[trigger] a0.frames()[w]).ppn.0
                                == ppn {
                            let w = choose|w: u64|
                                a0.frames().contains_key(w) && w < v && (
                                #[trigger] a0.frames()[w]).ppn.0 == ppn;
                            assert(a0.frames()[w].ppn != a0.frames()[v].ppn);
                        }
                    }
                }
                self.unmap_one(page_table, vpn, allocator, p2v);
                proof {
                    let ppn = a0.frames()[v].ppn.0;
                    assert forall|p: u64|
                        #[trigger] allocator.allocated(p) == (al0.allocated(p) && !(exists|w: u64|
                            a0.frames().contains_key(w) && w < v + 1 && (
                            #[trigger] a0.frames()[w]).ppn.0 == p)) by {
                        if p == ppn {
                            assert(a0.frames().contains_key(v) && a0.frames()[v].ppn.0 == p);
                        }
                        if exists|w: u64|
                            a0.frames().contains_key(w) && w < v + 1 && (
                            #[trigger] a0.frames()[w]).ppn.0 == p {
                            let w = choose|w: u64|
                                a0.frames().contains_key(w) && w < v + 1 && (
                                #[trigger] a0.frames()[w]).ppn.0 == p;
                            if w < v {
                                assert(a0.frames().contains_key(w) && w < v
                                    && a0.frames()[w].ppn.0 == p);
                            }
                        }
                    }
                    assert forall|p: u64|
                        #[trigger] p2v@.contains_key(p) == (m0.contains_key(p) && !(exists|w: u64|
                            a0.frames().contains_key(w) && w < v + 1 && (
                            #[trigger] a0.frames()[w]).ppn.0 == p)) by {
                        if p == ppn {
                            assert(a0.frames().contains_key(v) && a0.frames()[v].ppn.0 == p);
                        }
                        if exists|w: u64|
                            a0.frames().contains_key(w) && w < v + 1 && (
                            #[trigger] a0.frames()[w]).ppn.0 == p {
                            let w = choose|w: u64|
                                a0.frames().contains_key(w) && w < v + 1 && (
                                #[trigger] a0.frames()[w]).ppn.0 == p;
                            if w < v {
                                assert(a0.frames().contains_key(w) && w < v
                                    && a0.frames()[w].ppn.0 == p);
                            }
                        }
                    }
                }
            } else {
                if mapped {
                    page_table.unmap(vpn);
                }
                proof {
                    assert(!a0.frames().contains_key(v));
                    assert forall|p: u64|
                        #[trigger] allocator.allocated(p) == (al0.allocated(p) && !(exists|w: u64|
                            a0.frames().contains_key(w) && w < v + 1 && (
                            #[trigger] a0.frames()[w]).ppn.0 == p)) by {
                        if exists|w: u64|
                            a0.frames().contains_key(w) && w < v + 1 && (
                            #[trigger] a0.frames()[w]).ppn.0 == p {
                            let w = choose|w: u64|
                                a0.frames().contains_key(w) && w < v + 1 && (
                                #[trigger] a0.frames()[w]).ppn.0 == p;
                            assert(a0.frames().contains_key(w) && w < v && a0.frames()[w].ppn.0
                                == p);
                        }
                        if exists|w: u64|
                            a0.frames().contains_key(w) && w < v && (#[trigger] a0.frames()[w]).ppn.0
                                == p {
                            let w = choose|w: u64|
                                a0.frames().contains_key(w) && w < v && (
                                #[trigger] a0.frames()[w]).ppn.0 == p;
                            assert(a0.frames().contains_key(w) && w < v + 1
                                && a0.frames()[w].ppn.0 == p);
                        }
                    }
                    assert forall|p: u64|
                        #[trigger] p2v@.contains_key(p) == (m0.contains_key(p) && !(exists|w: u64|
                            a0.frames().contains_key(w) && w < v + 1 && (
                            #[trigger] a0.frames()[w]).ppn.0 == p)) by {
                        if exists|w: u64|
                            a0.frames().contains_key(w) && w < v + 1 && (
                            #[trigger] a0.frames()[w]).ppn.0 == p {
                            let w = choose|w: u64|
                                a0.frames().contains_key(w) && w < v + 1 && (
                                #[trigger] a0.frames()[w]).ppn.0 == p;
                            assert(a0.frames().contains_key(w) && w < v && a0.frames()[w].ppn.0
                                == p);
                        }
                        if exists|w: u64|
                            a0.frames().contains_key(w) && w < v && (#[trigger] a0.frames()[w]).ppn.0
                                == p {
                            let w = choose|w: u64|
                                a0.frames().contains_key(w) && w < v && (
                                #[trigger] a0.frames()[w]).ppn.0 == p;
                            assert(a0.frames().contains_key(w) && w < v + 1
                                && a0.frames()[w].ppn.0 == p);
                        }
                    }
                }
            }
            v = v + 1;
        }
        proof {
            assert(self.frames() =~= Map::<u64, FrameTracker>::empty()) by {
                assert forall|w: u64| !self.frames().contains_key(w) by {
                    if a0.frames().contains_key(w) {
                        assert(range.contains(w as int));
                    }
                }
            }
            assert forall|p: u64|
                #[trigger] allocator.allocated(p) == (al0.allocated(p) && !(exists|w: u64|
                    a0.frames().contains_key(w) && (#[trigger] a0.frames()[w]).ppn.0 == p)) by {
                if exists|w: u64|
                    a0.frames().contains_key(w) && (#[trigger] a0.frames()[w]).ppn.0 == p {
                    let w = choose|w: u64|
                        a0.frames().contains_key(w) && (#[trigger] a0.frames()[w]).ppn.0 == p;
                    assert(range.contains(w as int));
                    assert(a0.frames().contains_key(w) && w < end && a0.frames()[w].ppn.0 == p);
                }
            }
            assert forall|p: u64|
                #[trigger] p2v@.contains_key(p) == (m0.contains_key(p) && !(exists|w: u64|
                    a0.frames().contains_key(w) && (#[trigger] a0.frames()[w]).ppn.0 == p)) by {
                if exists|w: u64|
                    a0.frames().contains_key(w) && (#[trigger] a0.frames()[w]).ppn.0 == p {
                    let w = choose|w: u64|
                        a0.frames().contains_key(w) && (#[trigger] a0.frames()[w]).ppn.0 == p;
                    assert(range.contains(w as int));
                    assert(a0.frames().contains_key(w) && w < end && a0.frames()[w].ppn.0 == p);
                }
            }
        }
    }
}

/// Whether the swap store `sw2` holds for every token but `token` the
/// pages that `sw` holds, with the same bytes.
pub open spec fn others_kept(token: u64, sw: IdeManager, sw2: IdeManager) -> bool {
    forall|k: (u64, u64)|
        k.0 != token ==> {
            &&& (#[trigger] sw2.contents().contains_key(k)) == sw.contents().contains_key(k)
            &&& sw.contents().contains_key(k) ==> sw2.contents()[k] == sw.contents()[k]
        }
}

/// Whether two page ranges share no page.
pub open spec fn ranges_disjoint(a: VPNRange, b: VPNRange) -> bool {
    a.end() <= b.start() || b.end() <= a.start()
}

/// One address space: its page table, its areas in the order in which
/// they were added, and the replacement state of its resident frames.
pub struct MemorySet {
    pub page_table: PageTable,
    pub areas: Vec<MapArea>,
    pub frame_manager: LocalFrameManager,
}

impl MemorySet {
    /// Whether area `i` holds a frame for page `vpn`.
    pub open spec fn holds(self, i: int, vpn: u64) -> bool {
        0 <= i < self.areas@.len() && self.areas@[i].frames().contains_key(vpn)
    }

    /// Whether page `vpn` has a frame of its own.
    pub open spec fn resident(self, vpn: u64) -> bool {
        exists|i: int| self.holds(i, vpn)
    }

    /// The area that holds the frame of the resident page `vpn`.
    pub open spec fn owner(self, vpn: u64) -> int {
        choose|i: int| self.holds(i, vpn)
    }

    /// The frame of the resident page `vpn`.
    pub open spec fn frame(self, vpn: u64) -> FrameTracker {
        self.areas@[self.owner(vpn)].frames()[vpn]
    }

    /// Whether some area covers page `vpn`.
    pub open spec fn covered(self, vpn: u64) -> bool {
        exists|i: int| 0 <= i < self.areas@.len() && self.areas@[i].vpn_range.contains(vpn as int)
    }

    /// Whether frame `ppn` belongs to this space, as a node of its page
    /// table or as the frame of a resident page.
    pub open spec fn owns(self, ppn: u64) -> bool {
        ||| self.page_table.table_frames().contains(ppn)
        ||| exists|vpn: u64| self.resident(vpn) && #[trigger] self.frame(vpn).ppn.0 == ppn
    }

    /// The token that names this space in the MMU and in the swap store.
    pub open spec fn spec_token(self) -> u64 {
        self.page_table.spec_token()
    }

    /// Each area is well formed and no two overlap.
    pub open spec fn areas_wf(self) -> bool {
        &&& forall|i: int| 0 <= i < self.areas@.len() ==> (#[trigger] self.areas@[i]).wf()
        &&& forall|i: int, j: int|
            0 <= i < self.areas@.len() && 0 <= j < self.areas@.len() && i != j ==> ranges_disjoint(
                (#[trigger] self.areas@[i]).vpn_range,
                (#[trigger] self.areas@[j]).vpn_range,
            )
    }

    /// Each frame of a resident page is translated to by its page, with
    /// the permissions of the area, stands in the reverse map under that
    /// page, and holds no page-table node.
    pub open spec fn frames_mapped(self, p2v: Map<u64, u64>) -> bool {
        forall|i: int, vpn: u64| #[trigger]
            self.holds(i, vpn) ==> {
                let frame = self.areas@[i].frames()[vpn];
                let pt = self.page_table@;
                &&& pt.contains_key(vpn)
                &&& pt[vpn].spec_ppn() == frame.ppn.0
                &&& pt[vpn].spec_flags() & 0x3f == self.areas@[i].map_perm.bits | 0x01
                &&& p2v.contains_key(frame.ppn.0)
                &&& p2v[frame.ppn.0] == vpn
                &&& !self.page_table.table_frames().contains(frame.ppn.0)
            }
    }

    /// The frames of the resident pages are handed out by the allocator.
    pub open spec fn frames_allocated(self, alloc: StackFrameAllocator) -> bool {
        forall|i: int, vpn: u64| #[trigger]
            self.holds(i, vpn) ==> alloc.allocated(self.areas@[i].frames()[vpn].ppn.0)
    }

    /// The frames of the page-table nodes are handed out by the allocator.
    pub open spec fn tables_allocated(self, alloc: StackFrameAllocator) -> bool {
        forall|k: int|
            0 <= k < self.page_table.table_frames().len() ==> alloc.allocated(
                #[trigger] self.page_table.table_frames()[k],
            )
    }

    /// The replacement state names no frame twice, and each frame it
    /// names backs a resident page of this space.
    pub open spec fn manager_tracks(self, p2v: Map<u64, u64>) -> bool {
        &&& self.frame_manager.wf()
        &&& self.frame_manager.frames().no_duplicates()
        &&& forall|k: int|
            0 <= k < self.frame_manager.frames().len() ==> {
                let p = #[trigger] self.frame_manager.frames()[k];
                &&& p2v.contains_key(p)
                &&& self.resident(p2v[p])
                &&& self.frame(p2v[p]).ppn.0 == p
            }
    }

    /// Every translated page lies in an area, but for the trampoline.
    pub open spec fn mapped_in_areas(self) -> bool {
        forall|vpn: u64| #[trigger]
            self.page_table@.contains_key(vpn) ==> vpn == TRAMPOLINE_VPN || self.covered(vpn)
    }

    /// The invariant of an address space by itself and relative to the
    /// reverse map.
    pub open spec fn consistent(self, p2v: Map<u64, u64>) -> bool {
        &&& self.page_table.wf()
        &&& self.areas_wf()
        &&& self.frames_mapped(p2v)
        &&& self.manager_tracks(p2v)
        &&& self.mapped_in_areas()
        &&& self.framed_resident()
    }

    /// Every translated page of a framed area has a frame of its own.
    pub open spec fn framed_resident(self) -> bool {
        forall|i: int, vpn: u64|
            0 <= i < self.areas@.len() && self.areas@[i].map_type == MapType::Framed
                && #[trigger] self.areas@[i].vpn_range.contains(vpn as int)
                && self.page_table@.contains_key(vpn) ==> self.holds(i, vpn)
    }

    /// The invariant of an address space relative to the allocator: every
    /// frame of the space is handed out, and fits a page-table entry.
    pub open spec fn allocated_by(self, alloc: StackFrameAllocator) -> bool {
        &&& alloc.wf()
        &&& alloc.limit() <= 0x1000_0000_0000
        &&& self.frames_allocated(alloc)
        &&& self.tables_allocated(alloc)
    }

    /// The invariant of an address space, relative to the reverse map and
    /// the allocator.
    pub open spec fn inv(self, p2v: Map<u64, u64>, alloc: StackFrameAllocator) -> bool {
        self.consistent(p2v) && self.allocated_by(alloc)
    }

    /// No resident page of this space is in the swap store.
    pub open spec fn swap_free(self, dir: Map<(u64, u64), usize>) -> bool {
        forall|vpn: u64| #[trigger]
            self.resident(vpn) ==> !dir.contains_key((self.spec_token(), vpn))
    }

    /// The bytes of page `vpn` of this space, wherever they are: in the
    /// page's frame, or in the swap store `swap`. `None` for a page that
    /// is in neither.
    pub open spec fn content(self, swap: IdeManager, vpn: u64) -> Option<Seq<u8>> {
        if self.resident(vpn) {
            Some(self.frame(vpn).data@)
        } else if swap.contents().contains_key((self.spec_token(), vpn)) {
            Some(swap.contents()[(self.spec_token(), vpn)])
        } else {
            None
        }
    }

    /// Two spaces with the same areas have the same resident pages in the
    /// same frames.
    pub proof fn lemma_same_areas(self, other: MemorySet)
        requires
            self.areas@ == other.areas@,
            self.areas_wf(),
        ensures
            other.areas_wf(),
            forall|w: u64| #[trigger] self.resident(w) == other.resident(w),
            forall|w: u64| self.resident(w) ==> #[trigger] self.frame(w) == other.frame(w),
            forall|w: u64| #[trigger] self.covered(w) == other.covered(w),
            forall|p: u64, m: Map<u64, u64>| #[trigger] self.backs(p, m) == other.backs(p, m),
            self.page_table.table_frames() == other.page_table.table_frames() ==> forall|p: u64|
                #[trigger] self.owns(p) == other.owns(p),
    {
        assert forall|w: u64| #[trigger] self.resident(w) == other.resident(w) by {
            if self.resident(w) {
                let i = choose|i: int| self.holds(i, w);
                assert(other.holds(i, w));
            }
            if other.resident(w) {
                let i = choose|i: int| other.holds(i, w);
                assert(self.holds(i, w));
            }
        }
        assert forall|w: u64| self.resident(w) implies #[trigger] self.frame(w) == other.frame(
            w,
        ) by {
            let i = self.owner(w);
            assert(self.holds(i, w));
            assert(other.holds(i, w));
            self.lemma_owner(i, w);
            other.lemma_owner(i, w);
        }
        assert forall|w: u64| #[trigger] self.covered(w) == other.covered(w) by {
            if self.covered(w) {
                let i = choose|i: int|
                    0 <= i < self.areas@.len() && self.areas@[i].vpn_range.contains(w as int);
                assert(other.areas@[i].vpn_range.contains(w as int));
            }
            if other.covered(w) {
                let i = choose|i: int|
                    0 <= i < other.areas@.len() && other.areas@[i].vpn_range.contains(w as int);
                assert(self.areas@[i].vpn_range.contains(w as int));
            }
        }
        if self.page_table.table_frames() == other.page_table.table_frames() {
            assert forall|p: u64| #[trigger] self.owns(p) == other.owns(p) by {
                if self.owns(p) && !self.page_table.table_frames().contains(p) {
                    let w = choose|w: u64| self.resident(w) && #[trigger] self.frame(w).ppn.0 == p;
                    assert(other.resident(w) && other.frame(w).ppn.0 == p);
                }
                if other.owns(p) && !other.page_table.table_frames().contains(p) {
                    let w = choose|w: u64|
                        other.resident(w) && #[trigger] other.frame(w).ppn.0 == p;
                    assert(self.resident(w) && self.frame(w).ppn.0 == p);
                }
            }
        }
    }

    /// A page has its frame in one area only.
    pub proof fn lemma_owner(self, i: int, vpn: u64)
        requires
            self.areas_wf(),
            self.holds(i, vpn),
        ensures
            self.resident(vpn),
            self.owner(vpn) == i,
            self.frame(vpn) == self.areas@[i].frames()[vpn],
            self.areas@[i].vpn_range.contains(vpn as int),
            self.owns(self.areas@[i].frames()[vpn].ppn.0),
    {
        let j = self.owner(vpn);
        assert(self.holds(j, vpn));
        assert(self.areas@[i].wf());
        assert(self.areas@[j].wf());
        if i != j {
            assert(ranges_disjoint(self.areas@[i].vpn_range, self.areas@[j].vpn_range));
        }
    }

    /// What the invariant says of a resident page.
    pub proof fn lemma_resident(self, vpn: u64, p2v: Map<u64, u64>)
        requires
            self.consistent(p2v),
            self.resident(vpn),
        ensures
            self.holds(self.owner(vpn), vpn),
            self.frame(vpn).wf(),
            self.page_table@.contains_key(vpn),
            self.page_table@[vpn].spec_ppn() == self.frame(vpn).ppn.0,
            p2v.contains_key(self.frame(vpn).ppn.0),
            p2v[self.frame(vpn).ppn.0] == vpn,
            self.areas@[self.owner(vpn)].map_type == MapType::Framed,
            vpn < TRAMPOLINE_VPN,
    {
        let i = self.owner(vpn);
        assert(self.holds(i, vpn));
        assert(self.areas@[i].wf());
        self.areas@[i].vpn_range.lemma_ordered();
    }

    /// Under a clock policy the hand can scan the buffer.
    pub proof fn lemma_scannable(self, p2v: Map<u64, u64>)
        requires
            self.consistent(p2v),
        ensures
            self.frame_manager.pra() == PRA::Clock || self.frame_manager.pra()
                == PRA::ClockImproved ==> self.frame_manager.clock().scannable(
                self.page_table@,
                p2v,
            ),
    {
        self.frame_manager.lemma_frames();
        if self.frame_manager.pra() == PRA::Clock || self.frame_manager.pra()
            == PRA::ClockImproved {
            let q = self.frame_manager.clock().frames();
            assert(q == self.frame_manager.frames());
            assert forall|i: int| 0 <= i < q.len() implies p2v.contains_key(#[trigger] q[i])
                && self.page_table@.contains_key(p2v[q[i]]) by {
                self.lemma_resident(p2v[q[i]], p2v);
            }
            assert forall|i: int, j: int| 0 <= i < q.len() && 0 <= j < q.len() && i != j implies p2v[#[trigger] q[i]]
                != p2v[#[trigger] q[j]] by {
                assert(self.frame(p2v[q[i]]).ppn.0 == q[i]);
                assert(self.frame(p2v[q[j]]).ppn.0 == q[j]);
            }
        }
    }

    /// A space with a root table and nothing else, under policy `pra`.
    /// Takes one frame.
    pub fn new_bare(pra: PRA, allocator: &mut StackFrameAllocator) -> (r: MemorySet)
        requires
            old(allocator).wf(),
            old(allocator).free().len() > 0,
        ensures
            r.page_table.wf(),
            r.page_table@ == Map::<u64, PageTableEntry>::empty(),
            r.page_table.root() == old(allocator).free()[0],
            r.page_table.table_frames() == seq![old(allocator).free()[0]],
            forall|v: int| !r.page_table.has_mid(v) && !r.page_table.has_table(v),
            r.areas@.len() == 0,
            r.frame_manager.wf(),
            r.frame_manager.pra() == pra,
            r.frame_manager.frames().len() == 0,
            final(allocator).after_taking(*old(allocator), 1),
            forall|p2v: Map<u64, u64>|
                old(allocator).limit() <= 0x1000_0000_0000 ==> #[trigger] r.inv(
                    p2v,
                    *final(allocator),
                ),
    {
        let r = MemorySet {
            page_table: PageTable::new(allocator),
            areas: Vec::new(),
            frame_manager: LocalFrameManager::new(pra),
        };
        proof {
            assert(old(allocator).free().take(1) =~= seq![old(allocator).free()[0]]);
            assert(allocator.free() =~= old(allocator).free().skip(1));
            assert forall|p: u64|
                allocator.allocated(p) == (old(allocator).allocated(p) || old(
                    allocator,
                ).free().take(1).contains(p)) by {
                assert(old(allocator).free().take(1)[0] == old(allocator).free()[0]);
            }
        }
        r
    }

    /// The token of this space.
    pub fn token(&self) -> (r: u64)
        ensures
            r == self.spec_token(),
    {
        self.page_table.token()
    }

    /// The leaf entry of `vpn` in the page table of this space.
    pub fn translate(&self, vpn: VirtPageNum) -> (r: Option<PageTableEntry>)
        requires
            self.page_table.wf(),
        ensures
            r == (if vpn.in_space() && self.page_table.has_table(vpn.0 as int) {
                Some(self.page_table.entry(vpn.0 as int))
            } else {
                None
            }),
            (r is Some && r->0.spec_is_valid()) == self.page_table@.contains_key(vpn.0),
            self.page_table@.contains_key(vpn.0) ==> r == Some(self.page_table@[vpn.0]),
    {
        self.page_table.translate(vpn)
    }

    /// The index of the first area that covers `vpn`, if one does.
    pub fn find_area(&self, vpn: VirtPageNum) -> (r: Option<usize>)
        ensures
            r is Some ==> r->0 < self.areas@.len() && self.areas@[r->0 as int].vpn_range.contains(
                vpn.0 as int,
            ) && forall|j: int|
                0 <= j < r->0 ==> !(#[trigger] self.areas@[j]).vpn_range.contains(vpn.0 as int),
            r is None ==> forall|j: int|
                0 <= j < self.areas@.len() ==> !(#[trigger] self.areas@[j]).vpn_range.contains(
                    vpn.0 as int,
                ),
            r is Some == self.covered(vpn.0),
    {
        let mut i: usize = 0;
        while i < self.areas.len()
            invariant
                i <= self.areas@.len(),
                forall|j: int|
                    0 <= j < i ==> !(#[trigger] self.areas@[j]).vpn_range.contains(vpn.0 as int),
            decreases self.areas@.len() - i,
        {
            if self.areas[i].vpn_range.includes(vpn) {
                return Some(i);
            }
            i = i + 1;
        }
        None
    }

    /// Drops the resident page `vpn`: removes its translation, gives its
    /// frame back and takes it off the reverse map. The bytes of the page
    /// are lost. The replacement state must have let go of the frame
    /// before.
    #[verifier::rlimit(60)]
    pub fn discard(&mut self, vpn: VirtPageNum, p2v: &mut ReverseMap, allocator: &mut StackFrameAllocator)
        requires
            old(self).inv(old(p2v)@, *old(allocator)),
            old(self).resident(vpn.0),
            !old(self).frame_manager.frames().contains(old(self).frame(vpn.0).ppn.0),
        ensures
            final(self).inv(final(p2v)@, *final(allocator)),
            final(self).frame_manager == old(self).frame_manager,
            final(self).page_table.same_tables(old(self).page_table),
            final(self).page_table@ == old(self).page_table@.remove(vpn.0),
            final(self).spec_token() == old(self).spec_token(),
            old(self).same_layout(*final(self)),
            forall|i: int|
                0 <= i < old(self).areas@.len() ==> (#[trigger] final(self).areas@[i]).frames() == (if i
                    == old(self).owner(vpn.0) {
                    old(self).areas@[i].frames().remove(vpn.0)
                } else {
                    old(self).areas@[i].frames()
                }),
            forall|w: u64| #[trigger] final(self).resident(w) == (old(self).resident(w) && w != vpn.0),
            forall|w: u64|
                final(self).resident(w) ==> #[trigger] final(self).frame(w) == old(self).frame(w),
            forall|p: u64|
                #[trigger] final(self).owns(p) == (old(self).owns(p) && p != old(self).frame(
                    vpn.0,
                ).ppn.0),
            final(p2v)@ == old(p2v)@.remove(old(self).frame(vpn.0).ppn.0),
            final(allocator).after_giving(*old(allocator), old(self).frame(vpn.0).ppn.0),
            forall|dir: Map<(u64, u64), usize>| #[trigger]
                old(self).swap_free(dir) ==> final(self).swap_free(dir),
    {
        let ghost before = *self;
        let ghost p2v0 = p2v@;
        let ghost a0 = *allocator;
        let ghost ppn = before.frame(vpn.0).ppn;
        proof {
            before.lemma_resident(vpn.0, p2v0);
        }
        let ghost j0 = before.owner(vpn.0);
        let found = self.find_area(vpn);
        proof {
            before.lemma_owner(j0, vpn.0);
            assert(found is Some);
            if found->0 != j0 {
                assert(ranges_disjoint(
                    before.areas@[found->0 as int].vpn_range,
                    before.areas@[j0].vpn_range,
                ));
            }
        }
        let j: usize = found.unwrap();
        self.areas[j].unmap_one(&mut self.page_table, vpn, allocator, p2v);
        proof {
            let after = *self;
            let v = vpn.0;
            assert(after.areas@.len() == before.areas@.len());
            assert forall|i: int| 0 <= i < before.areas@.len() && i != j implies after.areas@[i]
                == before.areas@[i] by {}
            assert forall|i: int, w: u64| after.holds(i, w) == (before.holds(i, w) && w != v) by {
                if before.holds(i, w) && w == v {
                    before.lemma_owner(i, w);
                }
            }
            assert forall|w: u64| #[trigger] after.resident(w) == (before.resident(w) && w != v) by {
                if after.resident(w) {
                    let i = choose|i: int| after.holds(i, w);
                    assert(before.holds(i, w));
                }
                if before.resident(w) && w != v {
                    let i = choose|i: int| before.holds(i, w);
                    assert(after.holds(i, w));
                }
            }
            assert(after.areas_wf()) by {
                assert forall|i: int| 0 <= i < after.areas@.len() implies (#[trigger] after.areas@[i]).wf() by {
                    assert(before.areas@[i].wf());
                }
                assert forall|i: int, k: int|
                    0 <= i < after.areas@.len() && 0 <= k < after.areas@.len() && i
                        != k implies ranges_disjoint(
                    (#[trigger] after.areas@[i]).vpn_range,
                    (#[trigger] after.areas@[k]).vpn_range,
                ) by {
                    assert(ranges_disjoint(before.areas@[i].vpn_range, before.areas@[k].vpn_range));
                }
            }
            assert forall|w: u64| after.resident(w) implies #[trigger] after.frame(w)
                == before.frame(w) by {
                let i = after.owner(w);
                assert(after.holds(i, w));
                assert(before.holds(i, w));
                before.lemma_owner(i, w);
                after.lemma_owner(i, w);
            }
            assert(after.frames_mapped(p2v@)) by {
                assert forall|i: int, w: u64| #[trigger] after.holds(i, w) implies {
                    let frame = after.areas@[i].frames()[w];
                    let pt = after.page_table@;
                    &&& pt.contains_key(w)
                    &&& pt[w].spec_ppn() == frame.ppn.0
                    &&& pt[w].spec_flags() & 0x3f == after.areas@[i].map_perm.bits | 0x01
                    &&& p2v@.contains_key(frame.ppn.0)
                    &&& p2v@[frame.ppn.0] == w
                    &&& !after.page_table.table_frames().contains(frame.ppn.0)
                } by {
                    assert(before.holds(i, w));
                    assert(before.holds(j0, v));
                }
            }
            assert(after.frames_allocated(*allocator)) by {
                assert forall|i: int, w: u64| #[trigger] after.holds(i, w) implies allocator.allocated(
                    after.areas@[i].frames()[w].ppn.0,
                ) by {
                    assert(before.holds(i, w));
                    assert(before.holds(j0, v));
                }
            }
            assert(after.tables_allocated(*allocator)) by {
                assert(before.holds(j0, v));
            }
            assert(after.manager_tracks(p2v@)) by {
                assert forall|k: int| 0 <= k < after.frame_manager.frames().len() implies {
                    let p = #[trigger] after.frame_manager.frames()[k];
                    &&& p2v@.contains_key(p)
                    &&& after.resident(p2v@[p])
                    &&& after.frame(p2v@[p]).ppn.0 == p
                } by {
                    let p = before.frame_manager.frames()[k];
                    assert(p != ppn.0);
                    assert(before.resident(p2v0[p]));
                    if p2v0[p] == v {
                        assert(before.frame(v).ppn.0 == p);
                    }
                }
            }
            assert(after.mapped_in_areas()) by {
                assert forall|w: u64| #[trigger]
                    after.page_table@.contains_key(w) implies w == TRAMPOLINE_VPN || after.covered(
                    w,
                ) by {
                    assert(before.page_table@.contains_key(w));
                    if w != TRAMPOLINE_VPN {
                        let i = choose|i: int|
                            0 <= i < before.areas@.len() && before.areas@[i].vpn_range.contains(
                                w as int,
                            );
                        assert(after.areas@[i].vpn_range.contains(w as int));
                    }
                }
            }
            assert(after.spec_token() == before.spec_token());
            assert forall|p: u64| #[trigger] after.owns(p) == (before.owns(p) && p != ppn.0) by {
                if after.owns(p) && !after.page_table.table_frames().contains(p) {
                    let w = choose|w: u64| after.resident(w) && #[trigger] after.frame(w).ppn.0 == p;
                    assert(before.resident(w) && before.frame(w).ppn.0 == p);
                    before.lemma_resident(w, p2v0);
                }
                if before.owns(p) && p != ppn.0 && !before.page_table.table_frames().contains(p) {
                    let w = choose|w: u64|
                        before.resident(w) && #[trigger] before.frame(w).ppn.0 == p;
                    assert(after.resident(w) && after.frame(w).ppn.0 == p);
                }
                assert(before.holds(j0, v));
            }
            assert forall|dir: Map<(u64, u64), usize>| #[trigger]
                before.swap_free(dir) implies after.swap_free(dir) by {
                assert forall|w: u64| #[trigger] after.resident(w) implies !dir.contains_key(
                    (after.spec_token(), w),
                ) by {
                    assert(before.resident(w));
                }
            }
        }
    }

    /// Moves the resident page in frame `ppn` to the swap store: writes
    /// its bytes to a slot under `(token, page)`, removes its translation,
    /// gives the frame back and takes it off the reverse map. The
    /// replacement state must have let go of the frame before.
    #[verifier::rlimit(60)]
    pub fn evict(
        &mut self,
        ppn: PhysPageNum,
        swap: &mut IdeManager,
        p2v: &mut ReverseMap,
        allocator: &mut StackFrameAllocator,
    )
        requires
            old(self).inv(old(p2v)@, *old(allocator)),
            old(swap).wf(),
            old(swap).room() > 0,
            old(p2v)@.contains_key(ppn.0),
            old(self).resident(old(p2v)@[ppn.0]),
            old(self).frame(old(p2v)@[ppn.0]).ppn == ppn,
            !old(self).frame_manager.frames().contains(ppn.0),
        ensures
            final(self).inv(final(p2v)@, *final(allocator)),
            final(self).frame_manager == old(self).frame_manager,
            final(self).page_table.same_tables(old(self).page_table),
            final(self).page_table@ == old(self).page_table@.remove(old(p2v)@[ppn.0]),
            final(self).areas@.len() == old(self).areas@.len(),
            forall|i: int|
                0 <= i < old(self).areas@.len() ==> {
                    &&& (#[trigger] final(self).areas@[i]).vpn_range == old(self).areas@[i].vpn_range
                    &&& final(self).areas@[i].map_type == old(self).areas@[i].map_type
                    &&& final(self).areas@[i].map_perm == old(self).areas@[i].map_perm
                    &&& final(self).areas@[i].frames() == (if i == old(self).owner(old(p2v)@[ppn.0]) {
                        old(self).areas@[i].frames().remove(old(p2v)@[ppn.0])
                    } else {
                        old(self).areas@[i].frames()
                    })
                },
            forall|w: u64|
                #[trigger] final(self).resident(w) == (old(self).resident(w) && w != old(
                    p2v,
                )@[ppn.0]),
            forall|w: u64|
                final(self).resident(w) ==> #[trigger] final(self).frame(w) == old(self).frame(w),
            forall|p: u64| #[trigger] final(self).owns(p) == (old(self).owns(p) && p != ppn.0),
            final(p2v)@ == old(p2v)@.remove(ppn.0),
            final(allocator).after_giving(*old(allocator), ppn.0),
            final(swap).wf(),
            final(swap).room() == old(swap).room() - 1,
            final(swap).dir() == old(swap).dir().insert(
                (old(self).spec_token(), old(p2v)@[ppn.0]),
                old(swap).next_slot(),
            ),
            final(swap).contents() == old(swap).contents().insert(
                (old(self).spec_token(), old(p2v)@[ppn.0]),
                old(self).frame(old(p2v)@[ppn.0]).data@,
            ),
            old(self).swap_free(old(swap).dir()) ==> final(self).swap_free(final(swap).dir()),
            forall|w: u64| #[trigger]
                final(self).content(*final(swap), w) == old(self).content(*old(swap), w),
    {
        let ghost before = *self;
        let ghost s0 = *swap;
        let token: u64 = self.token();
        let vpn_old = p2v.get(ppn).unwrap();
        let ghost v = vpn_old.0;
        proof {
            before.lemma_resident(v, p2v@);
        }
        let ghost j0 = before.owner(v);
        let found = self.find_area(vpn_old);
        proof {
            before.lemma_owner(j0, v);
            assert(found is Some);
            if found->0 != j0 {
                assert(ranges_disjoint(
                    before.areas@[found->0 as int].vpn_range,
                    before.areas@[j0].vpn_range,
                ));
            }
        }
        let j: usize = found.unwrap();
        match self.areas[j].data_frames.get(&vpn_old.0) {
            Some(frame) => {
                swap.swap_in(token, vpn_old, frame.data.as_slice());
            },
            None => {},
        }
        self.discard(vpn_old, p2v, allocator);
        proof {
            let after = *self;
            assert forall|w: u64| #[trigger]
                after.content(*swap, w) == before.content(s0, w) by {
                if w == v {
                    assert(!after.resident(v));
                    assert(swap.contents().contains_key((token, v)));
                } else {
                    if after.resident(w) {
                    } else {
                        assert(!before.resident(w));
                        assert(swap.contents().contains_key((token, w)) == s0.contents().contains_key(
                            (token, w),
                        ));
                    }
                }
            }
            if before.swap_free(s0.dir()) {
                assert forall|w: u64| #[trigger] after.resident(w) implies !swap.dir().contains_key(
                    (after.spec_token(), w),
                ) by {
                    assert(before.resident(w));
                }
            }
        }
    }

    /// Makes page `vpn` of the framed area `i` resident in `frame`:
    /// the area takes the frame, the page table translates the page to it
    /// with the permissions of the area, the reverse map records it, and
    /// with `register` the replacement policy learns of it. Missing tables
    /// take free frames.
    #[verifier::rlimit(60)]
    pub fn install(
        &mut self,
        i: usize,
        vpn: VirtPageNum,
        frame: FrameTracker,
        register: bool,
        p2v: &mut ReverseMap,
        allocator: &mut StackFrameAllocator,
    )
        requires
            old(self).inv(old(p2v)@, *old(allocator)),
            i < old(self).areas@.len(),
            old(self).areas@[i as int].vpn_range.contains(vpn.0 as int),
            old(self).areas@[i as int].map_type == MapType::Framed,
            !old(self).page_table@.contains_key(vpn.0),
            frame.wf(),
            old(allocator).allocated(frame.ppn.0),
            !old(self).owns(frame.ppn.0),
            old(allocator).free().len() >= old(self).page_table.missing_tables(vpn.0 as int),
        ensures
            final(self).inv(final(p2v)@, *final(allocator)),
            final(self).page_table.root() == old(self).page_table.root(),
            final(self).page_table@ == old(self).page_table@.insert(
                vpn.0,
                PageTableEntry::spec_new(
                    frame.ppn.0,
                    old(self).areas@[i as int].map_perm.bits | 0x01,
                ),
            ),
            final(self).page_table.table_frames() == old(self).page_table.table_frames() + old(
                allocator,
            ).free().take(old(self).page_table.missing_tables(vpn.0 as int) as int),
            final(self).areas@.len() == old(self).areas@.len(),
            forall|k: int|
                0 <= k < old(self).areas@.len() ==> {
                    &&& (#[trigger] final(self).areas@[k]).vpn_range == old(self).areas@[k].vpn_range
                    &&& final(self).areas@[k].map_type == old(self).areas@[k].map_type
                    &&& final(self).areas@[k].map_perm == old(self).areas@[k].map_perm
                    &&& final(self).areas@[k].frames() == (if k == i {
                        old(self).areas@[k].frames().insert(vpn.0, frame)
                    } else {
                        old(self).areas@[k].frames()
                    })
                },
            forall|w: u64| #[trigger] final(self).resident(w) == (old(self).resident(w) || w == vpn.0),
            final(self).frame(vpn.0) == frame,
            forall|w: u64|
                old(self).resident(w) ==> #[trigger] final(self).frame(w) == old(self).frame(w),
            final(self).frame_manager.pra() == old(self).frame_manager.pra(),
            final(self).frame_manager.frames() == (if register {
                old(self).frame_manager.frames().push(frame.ppn.0)
            } else {
                old(self).frame_manager.frames()
            }),
            !register ==> final(self).frame_manager == old(self).frame_manager,
            final(self).frame_manager.clock().hand() == old(self).frame_manager.clock().hand(),
            forall|p: u64|
                #[trigger] final(self).owns(p) == (old(self).owns(p) || p == frame.ppn.0 || old(
                    allocator,
                ).free().take(old(self).page_table.missing_tables(vpn.0 as int) as int).contains(
                    p,
                )),
            final(p2v)@ == old(p2v)@.insert(frame.ppn.0, vpn.0),
            final(allocator).after_taking(
                *old(allocator),
                old(self).page_table.missing_tables(vpn.0 as int) as int,
            ),
    {
        let ghost before = *self;
        let ghost p2v0 = p2v@;
        let ghost a0 = *allocator;
        let ghost need = before.page_table.missing_tables(vpn.0 as int) as int;
        let ppn = frame.ppn;
        proof {
            assert(before.areas@[i as int].wf());
            if before.areas@[i as int].frames().contains_key(vpn.0) {
                assert(before.holds(i as int, vpn.0));
            }
            a0.lemma_allocated_below_limit(ppn.0);
            a0.lemma_free_not_allocated();
        }
        let flags = self.areas[i].get_flag_bits();
        self.areas[i].data_frames.insert(vpn.0, frame);
        self.page_table.map(vpn, ppn, flags, allocator);
        p2v.insert(ppn, vpn);
        if register {
            self.frame_manager.insert_frame(ppn);
        }
        proof {
            let after = *self;
            let v = vpn.0;
            let taken = a0.free().take(need);
            PageTableEntry::lemma_new(ppn.0, before.areas@[i as int].map_perm.bits | 0x01);
            let pb = before.areas@[i as int].map_perm.bits;
            assert((pb | 0x01) & 0x3f == pb | 0x01) by (bit_vector)
                requires
                    pb & 0xe1 == 0,
            ;
            assert forall|k: int| 0 <= k < before.areas@.len() && k != i implies after.areas@[k]
                == before.areas@[k] by {}
            assert(after.areas@[i as int].frames() =~= before.areas@[i as int].frames().insert(
                v,
                frame,
            ));
            assert forall|k: int, w: u64|
                after.holds(k, w) == (before.holds(k, w) || (k == i && w == v)) by {}
            assert(after.holds(i as int, v));
            assert forall|w: u64| #[trigger] after.resident(w) == (before.resident(w) || w == v) by {
                if after.resident(w) {
                    let k = choose|k: int| after.holds(k, w);
                    assert(before.holds(k, w) || w == v);
                }
                if before.resident(w) {
                    let k = choose|k: int| before.holds(k, w);
                    assert(after.holds(k, w));
                }
            }
            assert(after.areas_wf()) by {
                assert forall|k: int| 0 <= k < after.areas@.len() implies (#[trigger] after.areas@[k]).wf() by {
                    assert(before.areas@[k].wf());
                    if k == i {
                        assert(after.areas@[k].frames().dom().contains(v));
                    }
                }
                assert forall|k: int, l: int|
                    0 <= k < after.areas@.len() && 0 <= l < after.areas@.len() && k
                        != l implies ranges_disjoint(
                    (#[trigger] after.areas@[k]).vpn_range,
                    (#[trigger] after.areas@[l]).vpn_range,
                ) by {
                    assert(ranges_disjoint(before.areas@[k].vpn_range, before.areas@[l].vpn_range));
                }
            }
            after.lemma_owner(i as int, v);
            assert forall|w: u64| before.resident(w) implies #[trigger] after.frame(w)
                == before.frame(w) by {
                let k = before.owner(w);
                assert(before.holds(k, w));
                before.lemma_owner(k, w);
                assert(after.holds(k, w));
                after.lemma_owner(k, w);
                assert(w != v) by {
                    before.lemma_resident(w, p2v0);
                }
            }
            assert forall|t: int| 0 <= t < taken.len() implies !a0.allocated(#[trigger] taken[t]) by {
                assert(a0.free()[t] == taken[t]);
            }
            assert(after.frames_allocated(*allocator)) by {
                assert forall|k: int, w: u64| #[trigger] after.holds(k, w) implies allocator.allocated(
                    after.areas@[k].frames()[w].ppn.0,
                ) by {
                    if !(k == i && w == v) {
                        assert(before.holds(k, w));
                    }
                }
            }
            assert(after.frames_mapped(p2v@)) by {
                assert forall|k: int, w: u64| #[trigger] after.holds(k, w) implies {
                    let f = after.areas@[k].frames()[w];
                    let pt = after.page_table@;
                    &&& pt.contains_key(w)
                    &&& pt[w].spec_ppn() == f.ppn.0
                    &&& pt[w].spec_flags() & 0x3f == after.areas@[k].map_perm.bits | 0x01
                    &&& p2v@.contains_key(f.ppn.0)
                    &&& p2v@[f.ppn.0] == w
                    &&& !after.page_table.table_frames().contains(f.ppn.0)
                } by {
                    if k == i && w == v {
                        let f = after.areas@[k].frames()[w];
                        assert(f == frame);
                        if after.page_table.table_frames().contains(ppn.0) {
                            let t = choose|t: int|
                                0 <= t < after.page_table.table_frames().len()
                                    && after.page_table.table_frames()[t] == ppn.0;
                            if t >= before.page_table.table_frames().len() {
                                assert(taken[t - before.page_table.table_frames().len()] == ppn.0);
                            } else {
                                assert(before.page_table.table_frames()[t] == ppn.0);
                            }
                        }
                    } else {
                        assert(before.holds(k, w));
                        before.lemma_owner(k, w);
                        let f = before.areas@[k].frames()[w];
                        assert(f.ppn.0 != ppn.0);
                        assert(a0.allocated(f.ppn.0));
                        if after.page_table.table_frames().contains(f.ppn.0) {
                            let t = choose|t: int|
                                0 <= t < after.page_table.table_frames().len()
                                    && after.page_table.table_frames()[t] == f.ppn.0;
                            if t >= before.page_table.table_frames().len() {
                                assert(taken[t - before.page_table.table_frames().len()]
                                    == f.ppn.0);
                            } else {
                                assert(before.page_table.table_frames()[t] == f.ppn.0);
                            }
                        }
                    }
                }
            }
            assert(after.tables_allocated(*allocator)) by {
                assert forall|t: int|
                    0 <= t < after.page_table.table_frames().len() implies allocator.allocated(
                    #[trigger] after.page_table.table_frames()[t],
                ) by {
                    if t >= before.page_table.table_frames().len() {
                        assert(taken[t - before.page_table.table_frames().len()]
                            == after.page_table.table_frames()[t]);
                    } else {
                        assert(before.page_table.table_frames()[t]
                            == after.page_table.table_frames()[t]);
                    }
                }
            }
            assert(after.manager_tracks(p2v@)) by {
                let q0 = before.frame_manager.frames();
                let q1 = after.frame_manager.frames();
                assert forall|k: int| 0 <= k < q0.len() implies q0[k] != ppn.0 by {
                    assert(before.resident(p2v0[q0[k]]));
                    assert(before.frame(p2v0[q0[k]]).ppn.0 == q0[k]);
                }
                assert forall|k: int| 0 <= k < q1.len() implies {
                    let p = #[trigger] q1[k];
                    &&& p2v@.contains_key(p)
                    &&& after.resident(p2v@[p])
                    &&& after.frame(p2v@[p]).ppn.0 == p
                } by {
                    if k < q0.len() {
                        assert(q1[k] == q0[k]);
                        assert(before.resident(p2v0[q0[k]]));
                    }
                }
            }
            assert forall|p: u64|
                #[trigger] after.owns(p) == (before.owns(p) || p == ppn.0 || taken.contains(p)) by {
                let tf0 = before.page_table.table_frames();
                let tf1 = after.page_table.table_frames();
                if tf1.contains(p) {
                    let t = choose|t: int| 0 <= t < tf1.len() && tf1[t] == p;
                    if t >= tf0.len() {
                        assert(taken[t - tf0.len()] == p);
                    } else {
                        assert(tf0[t] == p);
                    }
                }
                if tf0.contains(p) {
                    let t = choose|t: int| 0 <= t < tf0.len() && tf0[t] == p;
                    assert(tf1[t] == p);
                }
                if taken.contains(p) {
                    let t = choose|t: int| 0 <= t < taken.len() && taken[t] == p;
                    assert(tf1[tf0.len() + t] == p);
                }
                if after.owns(p) && !tf1.contains(p) {
                    let w = choose|w: u64| after.resident(w) && #[trigger] after.frame(w).ppn.0 == p;
                    if w != v {
                        assert(before.resident(w) && before.frame(w).ppn.0 == p);
                    }
                }
                if before.owns(p) && !tf0.contains(p) {
                    let w = choose|w: u64|
                        before.resident(w) && #[trigger] before.frame(w).ppn.0 == p;
                    assert(after.resident(w) && after.frame(w).ppn.0 == p);
                }
                if p == ppn.0 {
                    assert(after.resident(v) && after.frame(v).ppn.0 == p);
                }
            }
            assert(after.mapped_in_areas()) by {
                assert forall|w: u64| #[trigger]
                    after.page_table@.contains_key(w) implies w == TRAMPOLINE_VPN || after.covered(
                    w,
                ) by {
                    if w == v {
                        assert(after.areas@[i as int].vpn_range.contains(w as int));
                    } else {
                        assert(before.page_table@.contains_key(w));
                        if w != TRAMPOLINE_VPN {
                            let k = choose|k: int|
                                0 <= k < before.areas@.len() && before.areas@[k].vpn_range.contains(
                                    w as int,
                                );
                            assert(after.areas@[k].vpn_range.contains(w as int));
                        }
                    }
                }
            }
        }
    }

    /// Whether this space backs frame `ppn` with the page that the reverse
    /// map `p2v` records for it.
    pub open spec fn backs(self, ppn: u64, p2v: Map<u64, u64>) -> bool {
        &&& p2v.contains_key(ppn)
        &&& self.resident(p2v[ppn])
        &&& self.frame(p2v[ppn]).ppn.0 == ppn
    }

    /// Whether the areas of `after` have the ranges, types and permissions
    /// of those of this space, in the same order.
    pub open spec fn same_layout(self, after: MemorySet) -> bool {
        &&& after.areas@.len() == self.areas@.len()
        &&& forall|k: int|
            0 <= k < self.areas@.len() ==> {
                &&& (#[trigger] after.areas@[k]).vpn_range == self.areas@[k].vpn_range
                &&& after.areas@[k].map_type == self.areas@[k].map_type
                &&& after.areas@[k].map_perm == self.areas@[k].map_perm
            }
    }

    /// Whether a change of this space into `after`, with the reverse map,
    /// the allocator and the swap store changing alongside, kept to what
    /// belongs to this space: frames of other owners stay handed out and
    /// keep their place in the reverse map, this space gains only frames
    /// that were its own or free, every entry of the reverse map is backed
    /// by this space or is an old entry of another, and the pages of other
    /// spaces in the swap store stay.
    pub open spec fn stepped(
        self,
        after: MemorySet,
        p2v: Map<u64, u64>,
        p2v2: Map<u64, u64>,
        al: StackFrameAllocator,
        al2: StackFrameAllocator,
        sw: IdeManager,
        sw2: IdeManager,
    ) -> bool {
        &&& after.spec_token() == self.spec_token()
        &&& al2.wf()
        &&& al2.limit() == al.limit()
        &&& sw2.wf()
        &&& forall|p: u64|
            #[trigger] al.allocated(p) && !self.owns(p) ==> {
                &&& al2.allocated(p)
                &&& p2v2.contains_key(p) == p2v.contains_key(p)
                &&& p2v.contains_key(p) ==> p2v2[p] == p2v[p]
            }
        &&& forall|p: u64| #[trigger] after.owns(p) ==> self.owns(p) || !al.allocated(p)
        &&& forall|p: u64|
            #[trigger] p2v2.contains_key(p) ==> after.backs(p, p2v2) || (p2v.contains_key(p)
                && p2v2[p] == p2v[p] && !self.backs(p, p2v))
        &&& others_kept(self.spec_token(), sw, sw2)
    }

    /// Whether the policy of this space has registered the frame of the
    /// resident page `vpn`.
    pub open spec fn registered(self, vpn: u64) -> bool {
        self.resident(vpn) && self.frame_manager.frames().contains(self.frame(vpn).ppn.0)
    }

    /// A change of accessed and dirty bits alone keeps a space consistent.
    #[verifier::rlimit(60)]
    pub proof fn lemma_usage_update(self, after: MemorySet, p2v: Map<u64, u64>)
        requires
            self.consistent(p2v),
            after.areas@ == self.areas@,
            after.frame_manager == self.frame_manager,
            after.page_table.wf(),
            after.page_table.same_tables(self.page_table),
            after.page_table@.dom() == self.page_table@.dom(),
            forall|w: u64|
                self.page_table@.contains_key(w) ==> (#[trigger] after.page_table@[w]).same_but_usage(
                    self.page_table@[w],
                ),
        ensures
            after.consistent(p2v),
            after.spec_token() == self.spec_token(),
            self.same_layout(after),
            forall|w: u64| #[trigger] after.resident(w) == self.resident(w),
            forall|w: u64| self.resident(w) ==> #[trigger] after.frame(w) == self.frame(w),
            forall|w: u64| #[trigger] after.registered(w) == self.registered(w),
            forall|p: u64| #[trigger] after.owns(p) == self.owns(p),
            forall|p: u64, m: Map<u64, u64>| #[trigger] after.backs(p, m) == self.backs(p, m),
            forall|al: StackFrameAllocator| #[trigger]
                self.allocated_by(al) ==> after.allocated_by(al),
            forall|dir: Map<(u64, u64), usize>| #[trigger]
                self.swap_free(dir) ==> after.swap_free(dir),
            forall|sw: IdeManager, w: u64| #[trigger] after.content(sw, w) == self.content(sw, w),
            forall|m: Map<u64, u64>, al: StackFrameAllocator, sw: IdeManager|
                sw.wf() && al.wf() ==> #[trigger] self.stepped(after, m, m, al, al, sw, sw),
    {
        self.lemma_same_areas(after);
        after.lemma_same_areas(self);
        assert(after.frames_mapped(p2v)) by {
            assert forall|i: int, w: u64| #[trigger] after.holds(i, w) implies {
                let frame = after.areas@[i].frames()[w];
                let pt = after.page_table@;
                &&& pt.contains_key(w)
                &&& pt[w].spec_ppn() == frame.ppn.0
                &&& pt[w].spec_flags() & 0x3f == after.areas@[i].map_perm.bits | 0x01
                &&& p2v.contains_key(frame.ppn.0)
                &&& p2v[frame.ppn.0] == w
                &&& !after.page_table.table_frames().contains(frame.ppn.0)
            } by {
                assert(self.holds(i, w));
                after.page_table@[w].lemma_same_but_usage(self.page_table@[w]);
            }
        }
        assert(after.mapped_in_areas()) by {
            assert forall|w: u64| #[trigger]
                after.page_table@.contains_key(w) implies w == TRAMPOLINE_VPN || after.covered(
                w,
            ) by {
                assert(self.page_table@.contains_key(w));
            }
        }
        assert forall|al: StackFrameAllocator| #[trigger]
            self.allocated_by(al) implies after.allocated_by(al) by {
            assert forall|i: int, w: u64| #[trigger] after.holds(i, w) implies al.allocated(
                after.areas@[i].frames()[w].ppn.0,
            ) by {
                assert(self.holds(i, w));
            }
        }
        assert forall|dir: Map<(u64, u64), usize>| #[trigger]
            self.swap_free(dir) implies after.swap_free(dir) by {
            assert forall|w: u64| #[trigger] after.resident(w) implies !dir.contains_key(
                (after.spec_token(), w),
            ) by {
                assert(self.resident(w));
            }
        }
        assert forall|w: u64| #[trigger] after.registered(w) == self.registered(w) by {}
    }

    /// A resident page's frame belongs to the space and is handed out.
    pub proof fn lemma_owns_allocated(self, ppn: u64, p2v: Map<u64, u64>, alloc: StackFrameAllocator)
        requires
            self.inv(p2v, alloc),
            self.owns(ppn),
        ensures
            alloc.allocated(ppn),
            ppn < 0x1000_0000_0000,
    {
        if self.page_table.table_frames().contains(ppn) {
            let k = choose|k: int|
                0 <= k < self.page_table.table_frames().len() && self.page_table.table_frames()[k]
                    == ppn;
            assert(alloc.allocated(self.page_table.table_frames()[k]));
        } else {
            let w = choose|w: u64| self.resident(w) && #[trigger] self.frame(w).ppn.0 == ppn;
            let i = self.owner(w);
            assert(self.holds(i, w));
        }
        alloc.lemma_allocated_below_limit(ppn);
    }

    /// The frame that the local policy gives up, if it has one to give:
    /// the oldest registered frame under FIFO, the choice of the scan under
    /// the clocks (see `ClockQue::scanned`). The frame stays resident; the
    /// policy forgets it. A scan clears accessed and dirty bits and nothing
    /// else.
    #[verifier::rlimit(60)]
    pub fn get_next_frame(&mut self, p2v: &ReverseMap) -> (r: Option<PhysPageNum>)
        requires
            old(self).consistent(p2v@),
        ensures
            final(self).consistent(p2v@),
            final(self).areas == old(self).areas,
            final(self).page_table.same_tables(old(self).page_table),
            final(self).page_table@.dom() == old(self).page_table@.dom(),
            forall|vpn: u64|
                old(self).page_table@.contains_key(vpn) ==> (#[trigger] final(self).page_table@[vpn]).same_but_usage(old(self).page_table@[vpn]),
            final(self).frame_manager.pra() == old(self).frame_manager.pra(),
            (old(self).frame_manager.frames().len() == 0 || !LocalFrameManager::is_local(
                old(self).frame_manager.pra(),
            )) ==> {
                &&& r is None
                &&& final(self).frame_manager.frames() == old(self).frame_manager.frames()
                &&& final(self).page_table@ == old(self).page_table@
            },
            old(self).frame_manager.frames().len() > 0 && old(self).frame_manager.pra()
                == PRA::FIFO ==> {
                &&& r == Some(PhysPageNum(old(self).frame_manager.frames()[0]))
                &&& final(self).frame_manager.frames() == old(
                    self,
                ).frame_manager.frames().drop_first()
                &&& final(self).page_table@ == old(self).page_table@
            },
            old(self).frame_manager.frames().len() > 0 && (old(self).frame_manager.pra()
                == PRA::Clock || old(self).frame_manager.pra() == PRA::ClockImproved) ==> {
                &&& r == Some(
                    PhysPageNum(
                        old(self).frame_manager.frames()[old(self).frame_manager.clock().victim(
                            old(self).page_table@,
                            p2v@,
                            old(self).frame_manager.pra() == PRA::ClockImproved,
                        )],
                    ),
                )
                &&& old(self).frame_manager.clock().scanned(
                    final(self).frame_manager.clock(),
                    old(self).page_table@,
                    final(self).page_table@,
                    p2v@,
                    old(self).frame_manager.pra() == PRA::ClockImproved,
                )
            },
            r is Some ==> {
                &&& old(self).frame_manager.frames().contains((r->0).0)
                &&& !final(self).frame_manager.frames().contains((r->0).0)
                &&& final(self).frame_manager.frames().len() == old(
                    self,
                ).frame_manager.frames().len() - 1
                &&& forall|p: u64|
                    p != (r->0).0 ==> final(self).frame_manager.frames().contains(p) == old(
                        self,
                    ).frame_manager.frames().contains(p)
                &&& final(self).backs((r->0).0, p2v@)
            },
    {
        let ghost before = *self;
        proof {
            self.lemma_scannable(p2v@);
            self.frame_manager.lemma_frames();
        }
        let r = self.frame_manager.get_next_frame(&mut self.page_table, p2v);
        proof {
            let after = *self;
            let m = p2v@;
            let q0 = before.frame_manager.frames();
            let q1 = after.frame_manager.frames();
            let pt0 = before.page_table@;
            let pt1 = after.page_table@;
            after.frame_manager.lemma_frames();
            after.lemma_same_areas(before);
            let clock = before.frame_manager.pra() == PRA::Clock || before.frame_manager.pra()
                == PRA::ClockImproved;
            let improved = before.frame_manager.pra() == PRA::ClockImproved;
            // Which index left the list.
            let vi: int = if r is None {
                0
            } else if clock {
                before.frame_manager.clock().victim(pt0, m, improved)
            } else {
                0
            };
            if r is Some {
                assert(q1 =~= q0.remove(vi));
                assert(q0[vi] == (r->0).0);
                assert forall|k: int| 0 <= k < q1.len() implies q1[k] != (r->0).0 by {
                    if k < vi {
                        assert(q1[k] == q0[k]);
                    } else {
                        assert(q1[k] == q0[k + 1]);
                    }
                }
                assert forall|p: u64| p != (r->0).0 implies q1.contains(p) == q0.contains(p) by {
                    if q1.contains(p) {
                        let k = choose|k: int| 0 <= k < q1.len() && q1[k] == p;
                        if k < vi {
                            assert(q0[k] == p);
                        } else {
                            assert(q0[k + 1] == p);
                        }
                    }
                    if q0.contains(p) {
                        let k = choose|k: int| 0 <= k < q0.len() && q0[k] == p;
                        if k < vi {
                            assert(q1[k] == p);
                        } else {
                            assert(q1[k - 1] == p);
                        }
                    }
                }
                assert(q1.no_duplicates()) by {
                    assert forall|a: int, b: int|
                        0 <= a < q1.len() && 0 <= b < q1.len() && a != b implies q1[a] != q1[b] by {
                        let a0 = if a < vi {
                            a
                        } else {
                            a + 1
                        };
                        let b0 = if b < vi {
                            b
                        } else {
                            b + 1
                        };
                        assert(q1[a] == q0[a0] && q1[b] == q0[b0]);
                    }
                }
            } else {
                assert(q1 == q0);
            }
            // The table changed in accessed and dirty bits only.
            assert(pt1.dom() =~= pt0.dom());
            assert forall|vpn: u64| pt0.contains_key(vpn) implies (#[trigger] pt1[vpn]).same_but_usage(
                pt0[vpn],
            ) by {
                pt0[vpn].lemma_usage_changes();
                if r is Some && clock {
                    let cq = before.frame_manager.clock();
                    if exists|i: int| 0 <= i < q0.len() && m[#[trigger] cq.frames()[i]] == vpn {
                        let i = choose|i: int| 0 <= i < q0.len() && m[#[trigger] cq.frames()[i]] == vpn;
                        assert(pt1[m[cq.frames()[i]]] == clock_demoted(
                            cq.pte_at(i, pt0, m),
                            cq.passes(i, vi, pt0, m, improved),
                            improved,
                        ));
                    } else {
                        assert(pt1[vpn] == pt0[vpn]);
                    }
                }
            }
            assert(after.frames_mapped(m)) by {
                assert forall|i: int, w: u64| #[trigger] after.holds(i, w) implies {
                    let frame = after.areas@[i].frames()[w];
                    &&& pt1.contains_key(w)
                    &&& pt1[w].spec_ppn() == frame.ppn.0
                    &&& pt1[w].spec_flags() & 0x3f == after.areas@[i].map_perm.bits | 0x01
                    &&& m.contains_key(frame.ppn.0)
                    &&& m[frame.ppn.0] == w
                    &&& !after.page_table.table_frames().contains(frame.ppn.0)
                } by {
                    assert(before.holds(i, w));
                    pt1[w].lemma_same_but_usage(pt0[w]);
                }
            }
            assert(after.manager_tracks(m)) by {
                assert forall|k: int| 0 <= k < q1.len() implies {
                    let p = #[trigger] q1[k];
                    &&& m.contains_key(p)
                    &&& after.resident(m[p])
                    &&& after.frame(m[p]).ppn.0 == p
                } by {
                    let k0 = if r is Some && k >= vi {
                        k + 1
                    } else {
                        k
                    };
                    assert(q1[k] == q0[k0]);
                }
            }
            assert(after.mapped_in_areas()) by {
                assert forall|w: u64| #[trigger] pt1.contains_key(w) implies w == TRAMPOLINE_VPN
                    || after.covered(w) by {
                    assert(pt0.contains_key(w));
                }
            }
        }
        r
    }

    /// Registers frame `ppn` with the replacement policy of this space.
    pub fn insert_frame(&mut self, ppn: PhysPageNum)
        requires
            old(self).frame_manager.wf(),
        ensures
            final(self).page_table == old(self).page_table,
            final(self).areas == old(self).areas,
            final(self).frame_manager.wf(),
            final(self).frame_manager.pra() == old(self).frame_manager.pra(),
            final(self).frame_manager.frames() == old(self).frame_manager.frames().push(ppn.0),
    {
        self.frame_manager.insert_frame(ppn)
    }

    /// Takes the frame at index `j` off the structure of the replacement
    /// policy. The frame stays resident.
    #[verifier::rlimit(60)]
    pub fn forget_frame(&mut self, j: usize, p2v: &ReverseMap)
        requires
            old(self).consistent(p2v@),
            j < old(self).frame_manager.frames().len(),
        ensures
            final(self).consistent(p2v@),
            final(self).areas == old(self).areas,
            final(self).page_table == old(self).page_table,
            final(self).frame_manager.pra() == old(self).frame_manager.pra(),
            final(self).frame_manager.frames() == old(self).frame_manager.frames().remove(
                j as int,
            ),
            !final(self).frame_manager.frames().contains(old(self).frame_manager.frames()[j as int]),
    {
        let ghost before = *self;
        let ghost p2v = p2v@;
        self.frame_manager.remove_at(j);
        proof {
            let after = *self;
            let q0 = before.frame_manager.frames();
            let q1 = after.frame_manager.frames();
            let vi = j as int;
            after.lemma_same_areas(before);
            assert forall|k: int| 0 <= k < q1.len() implies q1[k] != q0[vi] by {
                if k < vi {
                    assert(q1[k] == q0[k]);
                } else {
                    assert(q1[k] == q0[k + 1]);
                }
            }
            assert(q1.no_duplicates()) by {
                assert forall|a: int, b: int|
                    0 <= a < q1.len() && 0 <= b < q1.len() && a != b implies q1[a] != q1[b] by {
                    let a0 = if a < vi {
                        a
                    } else {
                        a + 1
                    };
                    let b0 = if b < vi {
                        b
                    } else {
                        b + 1
                    };
                    assert(q1[a] == q0[a0] && q1[b] == q0[b0]);
                }
            }
            assert(after.manager_tracks(p2v)) by {
                assert forall|k: int| 0 <= k < q1.len() implies {
                    let p = #[trigger] q1[k];
                    &&& p2v.contains_key(p)
                    &&& after.resident(p2v[p])
                    &&& after.frame(p2v[p]).ppn.0 == p
                } by {
                    let k0 = if k >= vi {
                        k + 1
                    } else {
                        k
                    };
                    assert(q1[k] == q0[k0]);
                }
            }
            assert(after.frames_mapped(p2v)) by {
                assert forall|i: int, w: u64| #[trigger] after.holds(i, w) implies {
                    let frame = after.areas@[i].frames()[w];
                    let pt = after.page_table@;
                    &&& pt.contains_key(w)
                    &&& pt[w].spec_ppn() == frame.ppn.0
                    &&& pt[w].spec_flags() & 0x3f == after.areas@[i].map_perm.bits | 0x01
                    &&& p2v.contains_key(frame.ppn.0)
                    &&& p2v[frame.ppn.0] == w
                    &&& !after.page_table.table_frames().contains(frame.ppn.0)
                } by {
                    assert(before.holds(i, w));
                }
            }
        }
    }

    /// Makes the resident page `vpn` non-resident and loses its bytes:
    /// the replacement policy forgets its frame, its translation goes,
    /// its frame returns to the allocator and leaves the reverse map.
    #[verifier::rlimit(60)]
    pub fn unmap_page(&mut self, vpn: VirtPageNum, p2v: &mut ReverseMap, allocator: &mut StackFrameAllocator)
        requires
            old(self).inv(old(p2v)@, *old(allocator)),
            old(self).resident(vpn.0),
        ensures
            final(self).inv(final(p2v)@, *final(allocator)),
            final(self).frame_manager.pra() == old(self).frame_manager.pra(),
            final(self).frame_manager.frames() == select(
                old(self).frame_manager.frames(),
                set![old(self).frame(vpn.0).ppn.0],
                false,
            ),
            final(self).page_table.same_tables(old(self).page_table),
            final(self).page_table@ == old(self).page_table@.remove(vpn.0),
            final(self).spec_token() == old(self).spec_token(),
            old(self).same_layout(*final(self)),
            forall|i: int|
                0 <= i < old(self).areas@.len() ==> (#[trigger] final(self).areas@[i]).frames() == (if i
                    == old(self).owner(vpn.0) {
                    old(self).areas@[i].frames().remove(vpn.0)
                } else {
                    old(self).areas@[i].frames()
                }),
            forall|w: u64| #[trigger] final(self).resident(w) == (old(self).resident(w) && w != vpn.0),
            forall|w: u64|
                final(self).resident(w) ==> #[trigger] final(self).frame(w) == old(self).frame(w),
            forall|p: u64|
                #[trigger] final(self).owns(p) == (old(self).owns(p) && p != old(self).frame(
                    vpn.0,
                ).ppn.0),
            final(p2v)@ == old(p2v)@.remove(old(self).frame(vpn.0).ppn.0),
            final(allocator).after_giving(*old(allocator), old(self).frame(vpn.0).ppn.0),
            forall|dir: Map<(u64, u64), usize>| #[trigger]
                old(self).swap_free(dir) ==> final(self).swap_free(dir),
    {
        let ghost before = *self;
        let ghost list = before.frame_manager.frames();
        let ghost ppn0 = before.frame(vpn.0).ppn.0;
        proof {
            before.lemma_resident(vpn.0, p2v@);
        }
        let pte = self.page_table.translate(vpn).unwrap();
        let ppn = pte.ppn();
        assert(ppn.0 == ppn0);
        match self.frame_manager.position(ppn) {
            Some(j) => {
                self.forget_frame(j, p2v);
                proof {
                    lemma_select_one(list, j as int);
                }
            },
            None => {
                proof {
                    lemma_select_none(list, set![ppn0]);
                }
            },
        }
        proof {
            let mid = *self;
            mid.lemma_same_areas(before);
            before.lemma_same_areas(mid);
            assert(mid.allocated_by(*allocator)) by {
                assert forall|i: int, w: u64| #[trigger] mid.holds(i, w) implies allocator.allocated(
                    mid.areas@[i].frames()[w].ppn.0,
                ) by {
                    assert(before.holds(i, w));
                }
            }
            assert(mid.owner(vpn.0) == before.owner(vpn.0)) by {
                let i = before.owner(vpn.0);
                assert(before.holds(i, vpn.0));
                assert(mid.holds(i, vpn.0));
                mid.lemma_owner(i, vpn.0);
            }
            assert forall|dir: Map<(u64, u64), usize>| #[trigger]
                before.swap_free(dir) implies mid.swap_free(dir) by {
                assert forall|w: u64| #[trigger] mid.resident(w) implies !dir.contains_key(
                    (mid.spec_token(), w),
                ) by {
                    assert(before.resident(w));
                }
            }
        }
        self.discard(vpn, p2v, allocator);
    }

    /// The frames of this space that back the pages of `pages`.
    pub open spec fn frames_in(self, p2v: Map<u64, u64>, pages: Set<u64>) -> Set<u64> {
        Set::new(|p: u64| self.backs(p, p2v) && pages.contains(p2v[p]))
    }

    /// Whether area `b` is area `a` but for the frames it holds.
    pub open spec fn same_area(a: MapArea, b: MapArea) -> bool {
        &&& a.vpn_range == b.vpn_range
        &&& a.map_type == b.map_type
        &&& a.map_perm == b.map_perm
    }

    /// Whether `after` is this space after the pages of `pages` were
    /// unmapped and their frames given back.
    pub open spec fn cleared(
        self,
        after: MemorySet,
        pages: Set<u64>,
        p2v: Map<u64, u64>,
        p2v2: Map<u64, u64>,
        al: StackFrameAllocator,
        al2: StackFrameAllocator,
    ) -> bool {
        let gone = self.frames_in(p2v, pages);
        &&& after.spec_token() == self.spec_token()
        &&& after.page_table.same_tables(self.page_table)
        &&& after.frame_manager.pra() == self.frame_manager.pra()
        &&& after.frame_manager.frames() == select(self.frame_manager.frames(), gone, false)
        &&& forall|w: u64|
            #[trigger] after.page_table@.contains_key(w) == (self.page_table@.contains_key(w)
                && !pages.contains(w))
        &&& forall|w: u64|
            after.page_table@.contains_key(w) ==> #[trigger] after.page_table@[w]
                == self.page_table@[w]
        &&& forall|w: u64| #[trigger] after.resident(w) == (self.resident(w) && !pages.contains(w))
        &&& forall|w: u64| after.resident(w) ==> #[trigger] after.frame(w) == self.frame(w)
        &&& forall|p: u64| #[trigger] after.owns(p) == (self.owns(p) && !gone.contains(p))
        &&& forall|p: u64| #[trigger] p2v2.contains_key(p) == (p2v.contains_key(p) && !gone.contains(p))
        &&& forall|p: u64| p2v2.contains_key(p) ==> #[trigger] p2v2[p] == p2v[p]
        &&& al2.wf()
        &&& al2.limit() == al.limit()
        &&& forall|p: u64| #[trigger] al2.allocated(p) == (al.allocated(p) && !gone.contains(p))
    }

    /// Clearing one set of pages and then another clears both.
    pub proof fn lemma_cleared_twice(
        self,
        mid: MemorySet,
        after: MemorySet,
        a: Set<u64>,
        b: Set<u64>,
        p2v: Map<u64, u64>,
        p2v1: Map<u64, u64>,
        p2v2: Map<u64, u64>,
        al: StackFrameAllocator,
        al1: StackFrameAllocator,
        al2: StackFrameAllocator,
    )
        requires
            self.cleared(mid, a, p2v, p2v1, al, al1),
            mid.cleared(after, b, p2v1, p2v2, al1, al2),
        ensures
            self.cleared(after, a.union(b), p2v, p2v2, al, al2),
    {
        let g1 = self.frames_in(p2v, a);
        let g2 = mid.frames_in(p2v1, b);
        let g = self.frames_in(p2v, a.union(b));
        assert forall|p: u64| g.contains(p) == (g1.contains(p) || g2.contains(p)) by {
            if self.backs(p, p2v) {
                let w = p2v[p];
                if !a.contains(w) {
                    assert(!g1.contains(p));
                    assert(p2v1.contains_key(p));
                    assert(mid.resident(w));
                    assert(mid.frame(w) == self.frame(w));
                }
            }
            if mid.backs(p, p2v1) {
                let w = p2v1[p];
                assert(self.resident(w));
                assert(mid.frame(w) == self.frame(w));
            }
        }
        assert(g =~= g1.union(g2));
        lemma_select_twice(self.frame_manager.frames(), g1, g2);
    }

    /// Clearing pages keeps to what belongs to the space.
    pub proof fn lemma_cleared_stepped(
        self,
        after: MemorySet,
        pages: Set<u64>,
        p2v: Map<u64, u64>,
        p2v2: Map<u64, u64>,
        al: StackFrameAllocator,
        al2: StackFrameAllocator,
        sw: IdeManager,
    )
        requires
            self.cleared(after, pages, p2v, p2v2, al, al2),
            sw.wf(),
        ensures
            self.stepped(after, p2v, p2v2, al, al2, sw, sw),
            forall|w: u64|
                !pages.contains(w) ==> #[trigger] after.content(sw, w) == self.content(sw, w),
    {
        let gone = self.frames_in(p2v, pages);
        assert forall|p: u64| #[trigger] al.allocated(p) && !self.owns(p) implies {
            &&& al2.allocated(p)
            &&& p2v2.contains_key(p) == p2v.contains_key(p)
            &&& p2v.contains_key(p) ==> p2v2[p] == p2v[p]
        } by {
            if gone.contains(p) {
                assert(self.resident(p2v[p]) && self.frame(p2v[p]).ppn.0 == p);
            }
        }
        assert forall|p: u64| #[trigger] p2v2.contains_key(p) implies after.backs(p, p2v2) || (
        p2v.contains_key(p) && p2v2[p] == p2v[p] && !self.backs(p, p2v)) by {
            if self.backs(p, p2v) {
                let w = p2v[p];
                assert(!gone.contains(p));
                assert(after.resident(w));
                assert(after.frame(w) == self.frame(w));
            }
        }
    }

    /// The pages `lo` to `hi - 1`.
    pub open spec fn page_range(lo: int, hi: int) -> Set<u64> {
        Set::new(|w: u64| lo <= w < hi)
    }

    /// Unmaps every page of area `idx` that is mapped, giving the frames of
    /// the resident ones back, lowest page first. The area stays.
    #[verifier::rlimit(60)]
    pub fn clear_area(&mut self, idx: usize, p2v: &mut ReverseMap, allocator: &mut StackFrameAllocator)
        requires
            old(self).inv(old(p2v)@, *old(allocator)),
            idx < old(self).areas@.len(),
        ensures
            final(self).inv(final(p2v)@, *final(allocator)),
            old(self).same_layout(*final(self)),
            old(self).cleared(
                *final(self),
                Self::page_range(
                    old(self).areas@[idx as int].vpn_range.start(),
                    old(self).areas@[idx as int].vpn_range.end(),
                ),
                old(p2v)@,
                final(p2v)@,
                *old(allocator),
                *final(allocator),
            ),
            forall|dir: Map<(u64, u64), usize>| #[trigger]
                old(self).swap_free(dir) ==> final(self).swap_free(dir),
    {
        let ghost m0 = *self;
        let ghost p0 = p2v@;
        let ghost a0 = *allocator;
        let ghost list = m0.frame_manager.frames();
        let start: u64 = self.areas[idx].vpn_range.get_start().0;
        let end: u64 = self.areas[idx].vpn_range.get_end().0;
        let ghost lo = start as int;
        proof {
            assert(m0.areas@[idx as int].wf());
            assert(m0.frames_in(p0, Self::page_range(lo, lo)) =~= Set::<u64>::empty());
            lemma_select_none(list, Set::<u64>::empty());
            assert forall|p: u64| #[trigger] m0.owns(p) == (m0.owns(p) && !m0.frames_in(
                p0,
                Self::page_range(lo, lo),
            ).contains(p)) by {}
        }
        let mut v: u64 = start;
        while v < end
            invariant
                start <= v <= end,
                end <= TRAMPOLINE_VPN,
                lo == start,
                m0 == *old(self),
                p0 == old(p2v)@,
                a0 == *old(allocator),
                list == m0.frame_manager.frames(),
                idx < m0.areas@.len(),
                start == m0.areas@[idx as int].vpn_range.start(),
                end == m0.areas@[idx as int].vpn_range.end(),
                m0.inv(p0, a0),
                self.inv(p2v@, *allocator),
                m0.same_layout(*self),
                m0.cleared(*self, Self::page_range(lo, v as int), p0, p2v@, a0, *allocator),
                forall|dir: Map<(u64, u64), usize>| #[trigger]
                    m0.swap_free(dir) ==> self.swap_free(dir),
            decreases end - v,
        {
            let ghost m1 = *self;
            let ghost p1 = p2v@;
            let ghost a1 = *allocator;
            let ghost gone1 = m0.frames_in(p0, Self::page_range(lo, v as int));
            let ghost gone2 = m0.frames_in(p0, Self::page_range(lo, v as int + 1));
            let vpn = VirtPageNum(v);
            if self.areas[idx].is_resident(vpn) {
                proof {
                    assert(m1.holds(idx as int, v));
                    m1.lemma_owner(idx as int, v);
                    m1.lemma_resident(v, p1);
                    assert(m0.resident(v));
                    m0.lemma_resident(v, p0);
                }
                let ghost ppn = m1.frame(v).ppn.0;
                self.unmap_page(vpn, p2v, allocator);
                proof {
                    let m2 = *self;
                    assert(m0.frame(v).ppn.0 == ppn);
                    assert(m0.backs(ppn, p0));
                    assert forall|p: u64| gone2.contains(p) == (gone1.contains(p) || p == ppn) by {
                        if m0.backs(p, p0) && p0[p] == v {
                            assert(m0.frame(v).ppn.0 == p);
                        }
                    }
                    assert(gone2 =~= gone1.union(set![ppn]));
                    lemma_select_twice(list, gone1, set![ppn]);
                    assert forall|w: u64|
                        #[trigger] m2.page_table@.contains_key(w) == (m0.page_table@.contains_key(w)
                            && !Self::page_range(lo, v as int + 1).contains(w)) by {}
                    assert forall|w: u64| m2.resident(w) implies #[trigger] m2.frame(w)
                        == m0.frame(w) by {
                        assert(m1.resident(w));
                        assert(m2.frame(w) == m1.frame(w));
                    }
                }
            } else {
                let mapped: bool = match self.page_table.translate(vpn) {
                    Some(pte) => pte.is_valid(),
                    None => false,
                };
                if mapped {
                    self.page_table.unmap(vpn);
                }
                proof {
                    let m2 = *self;
                    assert(!m1.holds(idx as int, v));
                    assert(!m1.resident(v)) by {
                        if m1.resident(v) {
                            let i = choose|i: int| m1.holds(i, v);
                            assert(m1.holds(i, v));
                            m1.lemma_owner(i, v);
                            assert(m1.areas@[idx as int].vpn_range.contains(v as int));
                            if i != idx {
                                assert(ranges_disjoint(
                                    m1.areas@[i].vpn_range,
                                    m1.areas@[idx as int].vpn_range,
                                ));
                            }
                        }
                    }
                    assert(!m0.resident(v));
                    assert(gone2 =~= gone1) by {
                        assert forall|p: u64| gone2.contains(p) == gone1.contains(p) by {
                            if m0.backs(p, p0) && p0[p] == v {
                                assert(m0.resident(v));
                            }
                        }
                    }
                    m2.lemma_same_areas(m1);
                    m1.lemma_same_areas(m2);
                    assert(m2.frames_mapped(p2v@)) by {
                        assert forall|i: int, w: u64| #[trigger] m2.holds(i, w) implies {
                            let frame = m2.areas@[i].frames()[w];
                            let pt = m2.page_table@;
                            &&& pt.contains_key(w)
                            &&& pt[w].spec_ppn() == frame.ppn.0
                            &&& pt[w].spec_flags() & 0x3f == m2.areas@[i].map_perm.bits | 0x01
                            &&& p2v@.contains_key(frame.ppn.0)
                            &&& p2v@[frame.ppn.0] == w
                            &&& !m2.page_table.table_frames().contains(frame.ppn.0)
                        } by {
                            assert(m1.holds(i, w));
                            m1.lemma_owner(i, w);
                        }
                    }
                    assert(m2.manager_tracks(p2v@));
                    assert(m2.mapped_in_areas()) by {
                        assert forall|w: u64| #[trigger]
                            m2.page_table@.contains_key(w) implies w == TRAMPOLINE_VPN
                            || m2.covered(w) by {
                            assert(m1.page_table@.contains_key(w));
                        }
                    }
                    assert(m2.allocated_by(*allocator)) by {
                        assert forall|i: int, w: u64| #[trigger] m2.holds(i, w) implies allocator.allocated(
                            m2.areas@[i].frames()[w].ppn.0,
                        ) by {
                            assert(m1.holds(i, w));
                        }
                    }
                    assert forall|w: u64|
                        #[trigger] m2.page_table@.contains_key(w) == (m0.page_table@.contains_key(w)
                            && !Self::page_range(lo, v as int + 1).contains(w)) by {}
                    assert forall|dir: Map<(u64, u64), usize>| #[trigger]
                        m0.swap_free(dir) implies m2.swap_free(dir) by {
                        assert(m1.swap_free(dir));
                        assert forall|w: u64| #[trigger] m2.resident(w) implies !dir.contains_key(
                            (m2.spec_token(), w),
                        ) by {
                            assert(m1.resident(w));
                        }
                    }
                    assert(m0.same_layout(m2));
                }
            }
            v = v + 1;
        }
    }

    /// Whether `after` is this space with another list of areas that
    /// holds the same frames for the same pages.
    pub open spec fn same_residents(self, after: MemorySet) -> bool {
        &&& after.page_table == self.page_table
        &&& after.frame_manager == self.frame_manager
        &&& forall|w: u64| #[trigger] after.resident(w) == self.resident(w)
        &&& forall|w: u64| self.resident(w) ==> #[trigger] after.frame(w) == self.frame(w)
    }

    /// A space with the same residents has the same frames and contents.
    pub proof fn lemma_same_residents(self, after: MemorySet)
        requires
            self.same_residents(after),
        ensures
            after.spec_token() == self.spec_token(),
            forall|p: u64| #[trigger] after.owns(p) == self.owns(p),
            forall|p: u64, m: Map<u64, u64>| #[trigger] after.backs(p, m) == self.backs(p, m),
            forall|dir: Map<(u64, u64), usize>| #[trigger]
                self.swap_free(dir) ==> after.swap_free(dir),
            forall|sw: IdeManager, w: u64| #[trigger] after.content(sw, w) == self.content(sw, w),
            forall|p2v: Map<u64, u64>, al: StackFrameAllocator, sw: IdeManager|
                sw.wf() && al.wf() ==> #[trigger] self.stepped(after, p2v, p2v, al, al, sw, sw),
    {
        assert forall|p: u64| #[trigger] after.owns(p) == self.owns(p) by {
            if after.owns(p) && !after.page_table.table_frames().contains(p) {
                let w = choose|w: u64| after.resident(w) && #[trigger] after.frame(w).ppn.0 == p;
                assert(self.resident(w) && self.frame(w).ppn.0 == p);
            }
            if self.owns(p) && !self.page_table.table_frames().contains(p) {
                let w = choose|w: u64| self.resident(w) && #[trigger] self.frame(w).ppn.0 == p;
                assert(after.resident(w) && after.frame(w).ppn.0 == p);
            }
        }
        assert forall|dir: Map<(u64, u64), usize>| #[trigger]
            self.swap_free(dir) implies after.swap_free(dir) by {
            assert forall|w: u64| #[trigger] after.resident(w) implies !dir.contains_key(
                (after.spec_token(), w),
            ) by {
                assert(self.resident(w));
            }
        }
    }

    /// Taking out an area that holds no frame, and in whose range no page
    /// is mapped, keeps the space consistent and its residents the same.
    #[verifier::rlimit(60)]
    pub proof fn lemma_area_removed(self, after: MemorySet, idx: int)
        requires
            self.areas_wf(),
            0 <= idx < self.areas@.len(),
            after.areas@ == self.areas@.remove(idx),
            after.page_table == self.page_table,
            after.frame_manager == self.frame_manager,
            forall|w: u64| !self.areas@[idx].frames().contains_key(w),
            forall|w: u64|
                self.areas@[idx].vpn_range.contains(w as int) ==> !self.page_table@.contains_key(w),
        ensures
            after.areas_wf(),
            self.same_residents(after),
            forall|p2v: Map<u64, u64>| #[trigger] self.consistent(p2v) ==> after.consistent(p2v),
            forall|al: StackFrameAllocator| #[trigger]
                self.allocated_by(al) ==> after.allocated_by(al),
    {
        let shift = |i: int|
            if i < idx {
                i
            } else {
                i + 1
            };
        assert forall|i: int| 0 <= i < after.areas@.len() implies #[trigger] after.areas@[i]
            == self.areas@[shift(i)] by {}
        assert forall|i: int, w: u64| #[trigger] after.holds(i, w) implies self.holds(shift(i), w) by {
            assert(after.areas@[i] == self.areas@[shift(i)]);
        }
        assert(after.areas_wf()) by {
            assert forall|i: int| 0 <= i < after.areas@.len() implies (#[trigger] after.areas@[i]).wf() by {
                assert(after.areas@[i] == self.areas@[shift(i)]);
            }
            assert forall|i: int, k: int|
                0 <= i < after.areas@.len() && 0 <= k < after.areas@.len() && i
                    != k implies ranges_disjoint(
                (#[trigger] after.areas@[i]).vpn_range,
                (#[trigger] after.areas@[k]).vpn_range,
            ) by {
                assert(after.areas@[i] == self.areas@[shift(i)]);
                assert(after.areas@[k] == self.areas@[shift(k)]);
                assert(ranges_disjoint(
                    self.areas@[shift(i)].vpn_range,
                    self.areas@[shift(k)].vpn_range,
                ));
            }
        }
        assert forall|w: u64| #[trigger] after.resident(w) == self.resident(w) by {
            if after.resident(w) {
                let i = choose|i: int| after.holds(i, w);
                assert(self.holds(shift(i), w));
            }
            if self.resident(w) {
                let i = choose|i: int| self.holds(i, w);
                assert(i != idx);
                let k = if i < idx {
                    i
                } else {
                    i - 1
                };
                assert(after.areas@[k] == self.areas@[shift(k)]);
                assert(after.holds(k, w));
            }
        }
        assert forall|w: u64| self.resident(w) implies #[trigger] after.frame(w) == self.frame(
            w,
        ) by {
            assert(after.resident(w));
            let i = after.owner(w);
            assert(after.holds(i, w));
            assert(self.holds(shift(i), w));
            self.lemma_owner(shift(i), w);
            after.lemma_owner(i, w);
        }
        assert forall|p2v: Map<u64, u64>| #[trigger] self.consistent(p2v) implies after.consistent(
            p2v,
        ) by {
            assert(after.frames_mapped(p2v)) by {
                assert forall|i: int, w: u64| #[trigger] after.holds(i, w) implies {
                    let frame = after.areas@[i].frames()[w];
                    let pt = after.page_table@;
                    &&& pt.contains_key(w)
                    &&& pt[w].spec_ppn() == frame.ppn.0
                    &&& pt[w].spec_flags() & 0x3f == after.areas@[i].map_perm.bits | 0x01
                    &&& p2v.contains_key(frame.ppn.0)
                    &&& p2v[frame.ppn.0] == w
                    &&& !after.page_table.table_frames().contains(frame.ppn.0)
                } by {
                    assert(self.holds(shift(i), w));
                }
            }
            assert(after.mapped_in_areas()) by {
                assert forall|w: u64| #[trigger]
                    after.page_table@.contains_key(w) implies w == TRAMPOLINE_VPN || after.covered(
                    w,
                ) by {
                    if w != TRAMPOLINE_VPN {
                        let i = choose|i: int|
                            0 <= i < self.areas@.len() && self.areas@[i].vpn_range.contains(
                                w as int,
                            );
                        assert(i != idx);
                        let k = if i < idx {
                            i
                        } else {
                            i - 1
                        };
                        assert(after.areas@[k] == self.areas@[shift(k)]);
                        assert(after.areas@[k].vpn_range.contains(w as int));
                    }
                }
            }
        }
        assert forall|al: StackFrameAllocator| #[trigger]
            self.allocated_by(al) implies after.allocated_by(al) by {
            assert forall|i: int, w: u64| #[trigger] after.holds(i, w) implies al.allocated(
                after.areas@[i].frames()[w].ppn.0,
            ) by {
                assert(self.holds(shift(i), w));
            }
        }
    }

    /// An area more that holds no frame and overlaps no other keeps the
    /// space consistent and its residents the same.
    #[verifier::rlimit(60)]
    pub proof fn lemma_area_pushed(self, after: MemorySet)
        requires
            self.areas_wf(),
            after.areas@.len() == self.areas@.len() + 1,
            after.areas@.drop_last() == self.areas@,
            after.page_table == self.page_table,
            after.frame_manager == self.frame_manager,
            after.areas@.last().wf(),
            forall|w: u64| !after.areas@.last().frames().contains_key(w),
            forall|i: int|
                0 <= i < self.areas@.len() ==> ranges_disjoint(
                    (#[trigger] self.areas@[i]).vpn_range,
                    after.areas@.last().vpn_range,
                ),
        ensures
            after.areas_wf(),
            self.same_residents(after),
            forall|p2v: Map<u64, u64>| #[trigger] self.consistent(p2v) ==> after.consistent(p2v),
            forall|al: StackFrameAllocator| #[trigger]
                self.allocated_by(al) ==> after.allocated_by(al),
    {
        let n = self.areas@.len() as int;
        assert forall|i: int| 0 <= i < n implies #[trigger] after.areas@[i] == self.areas@[i] by {
            assert(after.areas@.drop_last()[i] == after.areas@[i]);
        }
        assert forall|i: int, w: u64| #[trigger] after.holds(i, w) implies self.holds(i, w) by {
            if i == n {
                assert(after.areas@[n] == after.areas@.last());
            } else {
                assert(after.areas@[i] == self.areas@[i]);
            }
        }
        assert(after.areas_wf()) by {
            assert forall|i: int| 0 <= i < after.areas@.len() implies (#[trigger] after.areas@[i]).wf() by {
                if i < n {
                    assert(after.areas@[i] == self.areas@[i]);
                }
            }
            assert forall|i: int, k: int|
                0 <= i < after.areas@.len() && 0 <= k < after.areas@.len() && i
                    != k implies ranges_disjoint(
                (#[trigger] after.areas@[i]).vpn_range,
                (#[trigger] after.areas@[k]).vpn_range,
            ) by {
                if i < n {
                    assert(after.areas@[i] == self.areas@[i]);
                }
                if k < n {
                    assert(after.areas@[k] == self.areas@[k]);
                }
                if i < n && k < n {
                    assert(ranges_disjoint(self.areas@[i].vpn_range, self.areas@[k].vpn_range));
                }
            }
        }
        assert forall|w: u64| #[trigger] after.resident(w) == self.resident(w) by {
            if after.resident(w) {
                let i = choose|i: int| after.holds(i, w);
                assert(self.holds(i, w));
            }
            if self.resident(w) {
                let i = choose|i: int| self.holds(i, w);
                assert(after.areas@[i] == self.areas@[i]);
                assert(after.holds(i, w));
            }
        }
        assert forall|w: u64| self.resident(w) implies #[trigger] after.frame(w) == self.frame(
            w,
        ) by {
            assert(after.resident(w));
            let i = after.owner(w);
            assert(after.holds(i, w));
            assert(self.holds(i, w));
            self.lemma_owner(i, w);
            after.lemma_owner(i, w);
        }
        assert forall|p2v: Map<u64, u64>| #[trigger] self.consistent(p2v) implies after.consistent(
            p2v,
        ) by {
            assert(after.frames_mapped(p2v)) by {
                assert forall|i: int, w: u64| #[trigger] after.holds(i, w) implies {
                    let frame = after.areas@[i].frames()[w];
                    let pt = after.page_table@;
                    &&& pt.contains_key(w)
                    &&& pt[w].spec_ppn() == frame.ppn.0
                    &&& pt[w].spec_flags() & 0x3f == after.areas@[i].map_perm.bits | 0x01
                    &&& p2v.contains_key(frame.ppn.0)
                    &&& p2v[frame.ppn.0] == w
                    &&& !after.page_table.table_frames().contains(frame.ppn.0)
                } by {
                    assert(self.holds(i, w));
                    assert(after.areas@[i] == self.areas@[i]);
                }
            }
            assert(after.mapped_in_areas()) by {
                assert forall|w: u64| #[trigger]
                    after.page_table@.contains_key(w) implies w == TRAMPOLINE_VPN || after.covered(
                    w,
                ) by {
                    if w != TRAMPOLINE_VPN {
                        let i = choose|i: int|
                            0 <= i < self.areas@.len() && self.areas@[i].vpn_range.contains(
                                w as int,
                            );
                        assert(after.areas@[i] == self.areas@[i]);
                        assert(after.areas@[i].vpn_range.contains(w as int));
                    }
                }
            }
        }
        assert forall|al: StackFrameAllocator| #[trigger]
            self.allocated_by(al) implies after.allocated_by(al) by {
            assert forall|i: int, w: u64| #[trigger] after.holds(i, w) implies al.allocated(
                after.areas@[i].frames()[w].ppn.0,
            ) by {
                assert(self.holds(i, w));
                assert(after.areas@[i] == self.areas@[i]);
            }
        }
    }

    /// Whether the pages `lo` to `hi - 1` touch an area of this space.
    pub open spec fn overlaps(self, lo: int, hi: int) -> bool {
        exists|i: int|
            0 <= i < self.areas@.len() && (#[trigger] self.areas@[i]).vpn_range.start() < hi && lo
                < self.areas@[i].vpn_range.end()
    }

    /// Appends a framed area over the pages that `[start_va, end_va)`
    /// touches. No frame is taken: the pages become resident one by one,
    /// when they are touched.
    pub fn insert_framed_area(
        &mut self,
        start_va: VirtAddr,
        end_va: VirtAddr,
        permission: MapPermission,
    )
        requires
            old(self).areas_wf(),
            start_va.0 <= end_va.0,
            end_va.0 <= 0x7f_ffff_f000,
            permission.wf(),
            !old(self).overlaps(page_floor(start_va.0 as int), page_ceil(end_va.0 as int)),
        ensures
            final(self).areas_wf(),
            old(self).same_residents(*final(self)),
            final(self).areas@.len() == old(self).areas@.len() + 1,
            final(self).areas@.last().vpn_range.start() == page_floor(start_va.0 as int),
            final(self).areas@.last().vpn_range.end() == page_ceil(end_va.0 as int),
            final(self).areas@.last().map_type == MapType::Framed,
            final(self).areas@.last().map_perm == permission,
            final(self).areas@.last().frames() == Map::<u64, FrameTracker>::empty(),
            forall|i: int|
                0 <= i < old(self).areas@.len() ==> #[trigger] final(self).areas@[i] == old(
                    self,
                ).areas@[i],
            forall|p2v: Map<u64, u64>| #[trigger]
                old(self).consistent(p2v) ==> final(self).consistent(p2v),
            forall|al: StackFrameAllocator| #[trigger]
                old(self).allocated_by(al) ==> final(self).allocated_by(al),
    {
        let ghost before = *self;
        let map_area = MapArea::new(start_va, end_va, MapType::Framed, permission);
        self.areas.push(map_area);
        proof {
            assert(self.areas@.drop_last() =~= before.areas@);
            assert(self.areas@.last() == map_area);
            assert forall|i: int| 0 <= i < before.areas@.len() implies ranges_disjoint(
                (#[trigger] before.areas@[i]).vpn_range,
                map_area.vpn_range,
            ) by {
                assert(before.areas@[i].wf());
                before.areas@[i].vpn_range.lemma_ordered();
                map_area.vpn_range.lemma_ordered();
                if !ranges_disjoint(before.areas@[i].vpn_range, map_area.vpn_range) {
                    assert(before.areas@[i].vpn_range.start() < map_area.vpn_range.end());
                    assert(map_area.vpn_range.start() < before.areas@[i].vpn_range.end());
                }
            }
            before.lemma_area_pushed(*self);
        }
    }

    /// Removes area `idx`: unmaps its pages, gives the frames of the
    /// resident ones back, and takes the area off the list.
    #[verifier::rlimit(60)]
    pub fn remove_area_at(&mut self, idx: usize, p2v: &mut ReverseMap, allocator: &mut StackFrameAllocator)
        requires
            old(self).inv(old(p2v)@, *old(allocator)),
            idx < old(self).areas@.len(),
        ensures
            final(self).inv(final(p2v)@, *final(allocator)),
            final(self).areas@.len() == old(self).areas@.len() - 1,
            forall|k: int|
                0 <= k < final(self).areas@.len() ==> Self::same_area(
                    #[trigger] final(self).areas@[k],
                    old(self).areas@[if k < idx {
                        k
                    } else {
                        k + 1
                    }],
                ),
            old(self).cleared(
                *final(self),
                Self::page_range(
                    old(self).areas@[idx as int].vpn_range.start(),
                    old(self).areas@[idx as int].vpn_range.end(),
                ),
                old(p2v)@,
                final(p2v)@,
                *old(allocator),
                *final(allocator),
            ),
            forall|dir: Map<(u64, u64), usize>| #[trigger]
                old(self).swap_free(dir) ==> final(self).swap_free(dir),
    {
        let ghost m0 = *self;
        self.clear_area(idx, p2v, allocator);
        let ghost m1 = *self;
        self.areas.remove(idx);
        proof {
            let m2 = *self;
            assert(m1.areas@[idx as int].wf());
            assert forall|w: u64| !m1.areas@[idx as int].frames().contains_key(w) by {
                if m1.areas@[idx as int].frames().contains_key(w) {
                    assert(m1.holds(idx as int, w));
                    m1.lemma_owner(idx as int, w);
                    assert(m1.resident(w));
                }
            }
            m1.lemma_area_removed(m2, idx as int);
            m1.lemma_same_residents(m2);
            assert forall|k: int| 0 <= k < m2.areas@.len() implies Self::same_area(
                #[trigger] m2.areas@[k],
                m0.areas@[if k < idx {
                    k
                } else {
                    k + 1
                }],
            ) by {
                let k0 = if k < idx {
                    k
                } else {
                    k + 1
                };
                assert(m2.areas@[k] == m1.areas@[k0]);
            }
        }
    }

    /// Removes the first area that starts at page `start_vpn`, if there is
    /// one: unmaps its resident pages, gives their frames back and takes
    /// them off the reverse map.
    pub fn remove_area_with_start_vpn(
        &mut self,
        start_vpn: VirtPageNum,
        p2v: &mut ReverseMap,
        allocator: &mut StackFrameAllocator,
    ) -> (r: Option<usize>)
        requires
            old(self).inv(old(p2v)@, *old(allocator)),
        ensures
            final(self).inv(final(p2v)@, *final(allocator)),
            r is None ==> {
                &&& forall|i: int|
                    0 <= i < old(self).areas@.len() ==> (#[trigger] old(
                        self,
                    ).areas@[i]).vpn_range.start() != start_vpn.0
                &&& *final(self) == *old(self)
                &&& *final(p2v) == *old(p2v)
                &&& *final(allocator) == *old(allocator)
            },
            r is Some ==> {
                let idx = r->0 as int;
                &&& 0 <= idx < old(self).areas@.len()
                &&& old(self).areas@[idx].vpn_range.start() == start_vpn.0
                &&& forall|i: int|
                    0 <= i < idx ==> (#[trigger] old(self).areas@[i]).vpn_range.start()
                        != start_vpn.0
                &&& final(self).areas@.len() == old(self).areas@.len() - 1
                &&& forall|k: int|
                    0 <= k < final(self).areas@.len() ==> Self::same_area(
                        #[trigger] final(self).areas@[k],
                        old(self).areas@[if k < idx {
                            k
                        } else {
                            k + 1
                        }],
                    )
                &&& old(self).cleared(
                    *final(self),
                    Self::page_range(
                        old(self).areas@[idx].vpn_range.start(),
                        old(self).areas@[idx].vpn_range.end(),
                    ),
                    old(p2v)@,
                    final(p2v)@,
                    *old(allocator),
                    *final(allocator),
                )
            },
            forall|dir: Map<(u64, u64), usize>| #[trigger]
                old(self).swap_free(dir) ==> final(self).swap_free(dir),
    {
        let mut i: usize = 0;
        while i < self.areas.len()
            invariant
                *self == *old(self),
                *p2v == *old(p2v),
                *allocator == *old(allocator),
                self.inv(p2v@, *allocator),
                i <= self.areas@.len(),
                forall|k: int|
                    0 <= k < i ==> (#[trigger] self.areas@[k]).vpn_range.start() != start_vpn.0,
            decreases self.areas@.len() - i,
        {
            if self.areas[i].vpn_range.get_start().0 == start_vpn.0 {
                self.remove_area_at(i, p2v, allocator);
                return Some(i);
            }
            i = i + 1;
        }
        None
    }
}

impl MemorySet {
    /// Whether `after` is this space after it grew: it owns what it
    /// owned and backs what it backed, took new frames only from the free
    /// ones, and left the place of every handed-out frame in the reverse
    /// map as it was.
    pub open spec fn grown(
        self,
        after: MemorySet,
        p2v: Map<u64, u64>,
        p2v2: Map<u64, u64>,
        al: StackFrameAllocator,
        al2: StackFrameAllocator,
    ) -> bool {
        &&& after.spec_token() == self.spec_token()
        &&& after.page_table.root() == self.page_table.root()
        &&& after.frame_manager == self.frame_manager
        &&& al2.wf()
        &&& al2.limit() == al.limit()
        &&& forall|p: u64| #[trigger] al.allocated(p) ==> al2.allocated(p)
        &&& forall|p: u64|
            #[trigger] al.allocated(p) ==> p2v2.contains_key(p) == p2v.contains_key(p) && (
            p2v.contains_key(p) ==> p2v2[p] == p2v[p])
        &&& forall|p: u64| #[trigger] after.owns(p) ==> self.owns(p) || !al.allocated(p)
        &&& forall|p: u64| self.owns(p) ==> #[trigger] after.owns(p)
        &&& forall|p: u64|
            #[trigger] p2v2.contains_key(p) ==> after.backs(p, p2v2) || (p2v.contains_key(p)
                && p2v2[p] == p2v[p])
        &&& forall|w: u64| self.resident(w) ==> #[trigger] after.resident(w)
        &&& forall|w: u64| self.resident(w) ==> #[trigger] after.frame(w) == self.frame(w)
        &&& forall|w: u64|
            self.page_table@.contains_key(w) ==> #[trigger] after.page_table@.contains_key(w)
                && after.page_table@[w] == self.page_table@[w]
    }

    /// Growing twice is growing.
    pub proof fn lemma_grown_twice(
        self,
        mid: MemorySet,
        after: MemorySet,
        p2v: Map<u64, u64>,
        p2v1: Map<u64, u64>,
        p2v2: Map<u64, u64>,
        al: StackFrameAllocator,
        al1: StackFrameAllocator,
        al2: StackFrameAllocator,
    )
        requires
            self.inv(p2v, al),
            mid.inv(p2v1, al1),
            self.grown(mid, p2v, p2v1, al, al1),
            mid.grown(after, p2v1, p2v2, al1, al2),
        ensures
            self.grown(after, p2v, p2v2, al, al2),
    {
        assert forall|p: u64| #[trigger] after.owns(p) implies self.owns(p) || !al.allocated(p) by {
            if mid.owns(p) {
            } else {
                assert(!al1.allocated(p));
            }
        }
        assert forall|p: u64| #[trigger] p2v2.contains_key(p) implies after.backs(p, p2v2) || (
        p2v.contains_key(p) && p2v2[p] == p2v[p]) by {
            if !after.backs(p, p2v2) {
                assert(p2v1.contains_key(p) && p2v2[p] == p2v1[p]);
                if mid.backs(p, p2v1) {
                    let w = p2v1[p];
                    assert(after.resident(w));
                    assert(after.frame(w) == mid.frame(w));
                }
            }
        }
        assert forall|w: u64| self.resident(w) implies #[trigger] after.frame(w) == self.frame(
            w,
        ) by {
            assert(mid.resident(w));
            assert(mid.frame(w) == self.frame(w));
        }
    }

    /// Maps page `vpn` to the frame `ppn`, which the space does not come to
    /// own, with `flags` and the valid bit: for the pages of identical
    /// areas and for the trampoline, and for no page of a framed area.
    /// Missing tables take free frames.
    #[verifier::rlimit(60)]
    pub fn map_fixed(
        &mut self,
        vpn: VirtPageNum,
        ppn: PhysPageNum,
        flags: PTEFlags,
        p2v: &ReverseMap,
        allocator: &mut StackFrameAllocator,
    )
        requires
            old(self).inv(p2v@, *old(allocator)),
            vpn.in_space(),
            !old(self).page_table@.contains_key(vpn.0),
            vpn.0 == TRAMPOLINE_VPN || old(self).covered(vpn.0),
            forall|i: int|
                0 <= i < old(self).areas@.len() && (#[trigger] old(self).areas@[i]).vpn_range.contains(
                    vpn.0 as int,
                ) ==> old(self).areas@[i].map_type == MapType::Identical,
            old(allocator).free().len() >= old(self).page_table.missing_tables(vpn.0 as int),
        ensures
            final(self).inv(p2v@, *final(allocator)),
            final(self).areas == old(self).areas,
            final(self).frame_manager == old(self).frame_manager,
            final(self).page_table@ == old(self).page_table@.insert(
                vpn.0,
                PageTableEntry::spec_new(ppn.0, flags.bits | 0x01),
            ),
            final(allocator).after_taking(
                *old(allocator),
                old(self).page_table.missing_tables(vpn.0 as int) as int,
            ),
            old(self).grown(*final(self), p2v@, p2v@, *old(allocator), *final(allocator)),
            forall|w: u64| #[trigger] final(self).resident(w) == old(self).resident(w),
    {
        let ghost before = *self;
        let ghost a0 = *allocator;
        let ghost need = before.page_table.missing_tables(vpn.0 as int) as int;
        proof {
            a0.lemma_free_not_allocated();
        }
        self.page_table.map(vpn, ppn, flags, allocator);
        proof {
            let after = *self;
            let taken = a0.free().take(need);
            let tf0 = before.page_table.table_frames();
            let tf1 = after.page_table.table_frames();
            after.lemma_same_areas(before);
            before.lemma_same_areas(after);
            assert forall|t: int| 0 <= t < taken.len() implies !a0.allocated(#[trigger] taken[t]) by {
                assert(a0.free()[t] == taken[t]);
            }
            assert forall|p: u64| #[trigger] tf1.contains(p) == (tf0.contains(p) || taken.contains(
                p,
            )) by {
                if tf1.contains(p) {
                    let t = choose|t: int| 0 <= t < tf1.len() && tf1[t] == p;
                    if t >= tf0.len() {
                        assert(taken[t - tf0.len()] == p);
                    } else {
                        assert(tf0[t] == p);
                    }
                }
                if tf0.contains(p) {
                    let t = choose|t: int| 0 <= t < tf0.len() && tf0[t] == p;
                    assert(tf1[t] == p);
                }
                if taken.contains(p) {
                    let t = choose|t: int| 0 <= t < taken.len() && taken[t] == p;
                    assert(tf1[tf0.len() + t] == p);
                }
            }
            assert(after.frames_mapped(p2v@)) by {
                assert forall|i: int, w: u64| #[trigger] after.holds(i, w) implies {
                    let frame = after.areas@[i].frames()[w];
                    let pt = after.page_table@;
                    &&& pt.contains_key(w)
                    &&& pt[w].spec_ppn() == frame.ppn.0
                    &&& pt[w].spec_flags() & 0x3f == after.areas@[i].map_perm.bits | 0x01
                    &&& p2v@.contains_key(frame.ppn.0)
                    &&& p2v@[frame.ppn.0] == w
                    &&& !after.page_table.table_frames().contains(frame.ppn.0)
                } by {
                    assert(before.holds(i, w));
                    let f = before.areas@[i].frames()[w];
                    assert(a0.allocated(f.ppn.0));
                }
            }
            assert(after.frames_allocated(*allocator)) by {
                assert forall|i: int, w: u64| #[trigger] after.holds(i, w) implies allocator.allocated(
                    after.areas@[i].frames()[w].ppn.0,
                ) by {
                    assert(before.holds(i, w));
                }
            }
            assert(after.tables_allocated(*allocator)) by {
                assert forall|t: int| 0 <= t < tf1.len() implies allocator.allocated(
                    #[trigger] tf1[t],
                ) by {
                    if t >= tf0.len() {
                        assert(taken[t - tf0.len()] == tf1[t]);
                    } else {
                        assert(tf0[t] == tf1[t]);
                    }
                }
            }
            assert(after.mapped_in_areas()) by {
                assert forall|w: u64| #[trigger]
                    after.page_table@.contains_key(w) implies w == TRAMPOLINE_VPN || after.covered(
                    w,
                ) by {
                    if w != vpn.0 {
                        assert(before.page_table@.contains_key(w));
                    }
                }
            }
            assert forall|p: u64| #[trigger] after.owns(p) implies before.owns(p) || !a0.allocated(
                p,
            ) by {
                if !tf1.contains(p) {
                    let w = choose|w: u64| after.resident(w) && #[trigger] after.frame(w).ppn.0 == p;
                    assert(before.resident(w) && before.frame(w).ppn.0 == p);
                }
            }
            assert forall|p: u64| before.owns(p) implies #[trigger] after.owns(p) by {
                if !tf0.contains(p) {
                    let w = choose|w: u64|
                        before.resident(w) && #[trigger] before.frame(w).ppn.0 == p;
                    assert(after.resident(w) && after.frame(w).ppn.0 == p);
                }
            }
        }
    }
}

/// The bytes `old` with `src` written over them from place `offset` on.
pub open spec fn overwritten(old: Seq<u8>, offset: int, src: Seq<u8>) -> Seq<u8> {
    old.subrange(0, offset) + src + old.subrange(offset + src.len(), old.len() as int)
}

impl MemorySet {
    /// Whether `after` is this space with other bytes in the frame of the
    /// resident page `vpn`, and nothing else changed.
    pub open spec fn page_written(self, after: MemorySet, vpn: u64) -> bool {
        &&& after.page_table == self.page_table
        &&& after.frame_manager == self.frame_manager
        &&& self.same_layout(after)
        &&& forall|w: u64| #[trigger] after.resident(w) == self.resident(w)
        &&& forall|w: u64|
            self.resident(w) && w != vpn ==> #[trigger] after.frame(w) == self.frame(w)
        &&& after.frame(vpn).ppn == self.frame(vpn).ppn
        &&& after.frame(vpn).wf()
    }

    /// Writes `src` into the frame of the resident page `vpn`, from byte
    /// `offset` of the page on.
    #[verifier::rlimit(60)]
    pub fn write_page(&mut self, vpn: VirtPageNum, offset: usize, src: &[u8])
        requires
            old(self).areas_wf(),
            old(self).resident(vpn.0),
            offset + src@.len() <= 4096,
        ensures
            final(self).areas_wf(),
            old(self).page_written(*final(self), vpn.0),
            final(self).frame(vpn.0).data@ == overwritten(
                old(self).frame(vpn.0).data@,
                offset as int,
                src@,
            ),
            forall|p2v: Map<u64, u64>| #[trigger]
                old(self).consistent(p2v) ==> final(self).consistent(p2v),
            forall|al: StackFrameAllocator| #[trigger]
                old(self).allocated_by(al) ==> final(self).allocated_by(al),
    {
        let ghost before = *self;
        let ghost j0 = before.owner(vpn.0);
        proof {
            assert(before.holds(j0, vpn.0));
            before.lemma_owner(j0, vpn.0);
            assert(before.areas@[j0].wf());
        }
        let found = self.find_area(vpn);
        proof {
            assert(found is Some);
            if found->0 != j0 {
                assert(ranges_disjoint(
                    before.areas@[found->0 as int].vpn_range,
                    before.areas@[j0].vpn_range,
                ));
            }
        }
        let j: usize = found.unwrap();
        let mut frame = self.areas[j].data_frames.remove(&vpn.0).unwrap();
        let ghost old_data = frame.data@;
        let ghost old_ppn = frame.ppn;
        let n: usize = src.len();
        let mut k: usize = 0;
        while k < n
            invariant
                k <= n,
                frame.ppn == old_ppn,
                n == src@.len(),
                offset + n <= 4096,
                frame.data@.len() == 4096,
                old_data.len() == 4096,
                forall|t: int| 0 <= t < offset ==> frame.data@[t] == old_data[t],
                forall|t: int| offset <= t < offset + k ==> frame.data@[t] == src@[t - offset],
                forall|t: int| offset + k <= t < 4096 ==> frame.data@[t] == old_data[t],
            decreases n - k,
        {
            frame.data[offset + k] = src[k];
            k = k + 1;
        }
        assert(frame.data@ =~= overwritten(old_data, offset as int, src@));
        let ghost new_frame = frame;
        self.areas[j].data_frames.insert(vpn.0, frame);
        proof {
            let after = *self;
            let v = vpn.0;
            assert(after.areas@[j as int].frames() =~= before.areas@[j as int].frames().insert(
                v,
                new_frame,
            ));
            assert(after.areas@[j as int].frames().dom() =~= before.areas@[j as int].frames().dom());
            before.lemma_area_refilled(after, j as int);
            assert(before.holds(j as int, v));
            before.lemma_owner(j as int, v);
            assert forall|w: u64| before.resident(w) && w != v implies #[trigger] after.frame(w)
                == before.frame(w) by {
                if before.holds(j as int, w) {
                    before.lemma_owner(j as int, w);
                }
            }
        }
    }

    /// Makes page `vpn` of area `idx` resident without telling the
    /// replacement policy: a framed area gets the next free frame, cleared;
    /// an identical area the frame of the page's own number. Missing
    /// tables take free frames.
    #[verifier::rlimit(60)]
    pub fn map_page(
        &mut self,
        idx: usize,
        vpn: VirtPageNum,
        p2v: &mut ReverseMap,
        allocator: &mut StackFrameAllocator,
    )
        requires
            old(self).inv(old(p2v)@, *old(allocator)),
            idx < old(self).areas@.len(),
            old(self).areas@[idx as int].vpn_range.contains(vpn.0 as int),
            !old(self).page_table@.contains_key(vpn.0),
            old(allocator).free().len() >= old(self).areas@[idx as int].frames_for(
                old(self).page_table,
                vpn.0 as int,
            ),
        ensures
            final(self).inv(final(p2v)@, *final(allocator)),
            old(self).same_layout(*final(self)),
            old(self).grown(*final(self), old(p2v)@, final(p2v)@, *old(allocator), *final(allocator)),
            final(allocator).after_taking(
                *old(allocator),
                old(self).areas@[idx as int].frames_for(old(self).page_table, vpn.0 as int) as int,
            ),
            final(self).page_table@.dom() == old(self).page_table@.dom().insert(vpn.0),
            forall|w: u64|
                #[trigger] final(self).resident(w) == (old(self).resident(w) || (w == vpn.0 && old(
                    self,
                ).areas@[idx as int].map_type == MapType::Framed)),
            old(self).areas@[idx as int].map_type == MapType::Framed ==> {
                &&& final(self).frame(vpn.0).ppn.0 == old(allocator).free()[0]
                &&& final(self).frame(vpn.0).data@ == zero_page()
                &&& final(self).page_table@[vpn.0] == PageTableEntry::spec_new(
                    old(allocator).free()[0],
                    old(self).areas@[idx as int].map_perm.bits | 0x01,
                )
            },
            old(self).areas@[idx as int].map_type == MapType::Identical ==> final(self).page_table@[vpn.0] == PageTableEntry::spec_new(
                vpn.0,
                old(self).areas@[idx as int].map_perm.bits | 0x01,
            ),
    {
        let ghost m0 = *self;
        let ghost p0 = p2v@;
        let ghost a0 = *allocator;
        proof {
            assert(m0.areas@[idx as int].wf());
            a0.lemma_free_not_allocated();
        }
        match self.areas[idx].map_type {
            MapType::Identical => {
                let flags = self.areas[idx].get_flag_bits();
                self.map_fixed(vpn, PhysPageNum(vpn.0), flags, p2v, allocator);
                proof {
                    assert(self.page_table@.dom() =~= m0.page_table@.dom().insert(vpn.0));
                    m0.lemma_same_areas(*self);
                }
            },
            MapType::Framed => {
                let frame = frame_alloc(allocator).unwrap();
                let ghost ppn = frame.ppn.0;
                let ghost a1 = *allocator;
                proof {
                    assert(!a0.allocated(ppn));
                    if m0.owns(ppn) {
                        m0.lemma_owns_allocated(ppn, p0, a0);
                    }
                    assert(m0.allocated_by(a1)) by {
                        assert forall|k: int, w: u64| #[trigger] m0.holds(k, w) implies a1.allocated(
                            m0.areas@[k].frames()[w].ppn.0,
                        ) by {}
                    }
                    assert(a1.free() =~= a0.free().skip(1));
                }
                self.install(idx, vpn, frame, false, p2v, allocator);
                proof {
                    let m1 = *self;
                    let need = m0.page_table.missing_tables(vpn.0 as int) as int;
                    let taken = a1.free().take(need);
                    a1.lemma_free_not_allocated();
                    assert forall|t: int| 0 <= t < taken.len() implies !a1.allocated(
                        #[trigger] taken[t],
                    ) by {
                        assert(a1.free()[t] == taken[t]);
                    }
                    assert(self.page_table@.dom() =~= m0.page_table@.dom().insert(vpn.0));
                    assert(allocator.free() =~= a0.free().skip(1 + need));
                    assert forall|p: u64|
                        allocator.allocated(p) == (a0.allocated(p) || a0.free().take(
                            1 + need,
                        ).contains(p)) by {
                        let t0 = a0.free().take(1 + need);
                        if taken.contains(p) {
                            let k = choose|k: int| 0 <= k < taken.len() && taken[k] == p;
                            assert(t0[k + 1] == p);
                        }
                        if t0.contains(p) {
                            let k = choose|k: int| 0 <= k < t0.len() && t0[k] == p;
                            if k > 0 {
                                assert(taken[k - 1] == p);
                            }
                        }
                        assert(t0[0] == a0.free()[0]);
                    }
                    assert forall|p: u64| #[trigger] p2v@.contains_key(p) implies m1.backs(
                        p,
                        p2v@,
                    ) || (p0.contains_key(p) && p2v@[p] == p0[p]) by {
                        if p == ppn {
                            assert(m1.resident(vpn.0));
                        }
                    }
                    assert forall|p: u64| #[trigger] m1.owns(p) implies m0.owns(p) || !a0.allocated(
                        p,
                    ) by {
                        if taken.contains(p) {
                            assert(!a1.allocated(p));
                        }
                    }
                }
            },
        }
    }
}

impl MemorySet {
    /// Whether every page of area `idx` of this space is mapped: a page of
    /// a framed area to a frame of its own, a page of an identical area to
    /// the frame of its own number, with the permissions of the area.
    pub open spec fn fully_mapped(self, idx: int) -> bool {
        let area = self.areas@[idx];
        forall|w: u64| #[trigger]
            area.vpn_range.contains(w as int) ==> {
                &&& self.page_table@.contains_key(w)
                &&& area.map_type == MapType::Framed ==> self.holds(idx, w)
                &&& area.map_type == MapType::Identical ==> self.page_table@[w]
                    == PageTableEntry::spec_new(w, area.map_perm.bits | 0x01)
            }
    }

    /// Appends `map_area` and maps all of its pages at once, lowest first,
    /// without telling the replacement policy. The frames of a framed area
    /// are cleared. Returns `false`, with the area mapped in part, where
    /// the free frames do not suffice.
    #[verifier::rlimit(60)]
    pub fn kpush(&mut self, map_area: MapArea, p2v: &mut ReverseMap, allocator: &mut StackFrameAllocator) -> (r:
        bool)
        requires
            old(self).inv(old(p2v)@, *old(allocator)),
            map_area.wf(),
            forall|w: u64| !map_area.frames().contains_key(w),
            forall|i: int|
                0 <= i < old(self).areas@.len() ==> ranges_disjoint(
                    (#[trigger] old(self).areas@[i]).vpn_range,
                    map_area.vpn_range,
                ),
        ensures
            final(self).inv(final(p2v)@, *final(allocator)),
            final(self).areas@.len() == old(self).areas@.len() + 1,
            Self::same_area(final(self).areas@.last(), map_area),
            forall|i: int|
                0 <= i < old(self).areas@.len() ==> Self::same_area(
                    #[trigger] final(self).areas@[i],
                    old(self).areas@[i],
                ),
            old(self).grown(*final(self), old(p2v)@, final(p2v)@, *old(allocator), *final(allocator)),
            forall|w: u64|
                !map_area.vpn_range.contains(w as int) ==> (#[trigger] final(self).page_table@.contains_key(w)) == old(self).page_table@.contains_key(w),
            forall|w: u64|
                !map_area.vpn_range.contains(w as int) ==> #[trigger] final(self).resident(w) == old(
                    self,
                ).resident(w),
            r ==> final(self).fully_mapped(old(self).areas@.len() as int),
            r ==> forall|w: u64|
                map_area.vpn_range.contains(w as int) && map_area.map_type == MapType::Framed
                    ==> (#[trigger] final(self).frame(w)).data@ == zero_page(),
            !r ==> final(allocator).free().len() < 3,
            old(allocator).free().len() >= area_budget(
                map_area.map_type == MapType::Framed,
                map_area.vpn_range.start(),
                map_area.vpn_range.end(),
            ) ==> r,
            final(allocator).free().len() + area_budget(
                map_area.map_type == MapType::Framed,
                map_area.vpn_range.start(),
                map_area.vpn_range.end(),
            ) >= old(allocator).free().len(),
    {
        let ghost m0 = *self;
        let ghost p0 = p2v@;
        let ghost a0 = *allocator;
        let idx: usize = self.areas.len();
        let start: u64 = map_area.vpn_range.get_start().0;
        let end: u64 = map_area.vpn_range.get_end().0;
        let ghost framed = map_area.map_type == MapType::Framed;
        let ghost range = map_area.vpn_range;
        let ghost perm = map_area.map_perm;
        self.areas.push(map_area);
        let ghost m1 = *self;
        proof {
            assert(m1.areas@.drop_last() =~= m0.areas@);
            assert(m1.areas@.last() == map_area);
            m0.lemma_area_pushed(m1);
            m0.lemma_same_residents(m1);
            assert(m0.consistent(p0));
            assert(m0.allocated_by(a0));
            assert(m1.inv(p0, a0));
            assert(m0.grown(m1, p0, p0, a0, a0));
            assert forall|w: u64| range.contains(w as int) implies !m1.page_table@.contains_key(
                w,
            ) by {
                if m0.page_table@.contains_key(w) {
                    assert(w == TRAMPOLINE_VPN || m0.covered(w));
                    if w != TRAMPOLINE_VPN {
                        let i = choose|i: int|
                            0 <= i < m0.areas@.len() && m0.areas@[i].vpn_range.contains(w as int);
                        assert(ranges_disjoint(m0.areas@[i].vpn_range, range));
                    }
                }
            }
            assert forall|i: int| 0 <= i < m0.areas@.len() implies Self::same_area(
                #[trigger] m1.areas@[i],
                m0.areas@[i],
            ) by {
                assert(m1.areas@.drop_last()[i] == m1.areas@[i]);
            }
        }
        let mut v: u64 = start;
        while v < end
            invariant
                start <= v <= end,
                end <= TRAMPOLINE_VPN,
                start == range.start(),
                end == range.end(),
                idx == m0.areas@.len(),
                m0 == *old(self),
                p0 == old(p2v)@,
                a0 == *old(allocator),
                range == map_area.vpn_range,
                perm == map_area.map_perm,
                framed == (map_area.map_type == MapType::Framed),
                m1.areas@.last() == map_area,
                m1.page_table == m0.page_table,
                forall|w: u64| #[trigger] m1.resident(w) == m0.resident(w),
                forall|i: int|
                    0 <= i < m0.areas@.len() ==> Self::same_area(
                        #[trigger] m1.areas@[i],
                        m0.areas@[i],
                    ),
                m1.areas@.len() == idx + 1,
                m1.areas@[idx as int].vpn_range == range,
                m1.areas@[idx as int].map_perm == perm,
                (m1.areas@[idx as int].map_type == MapType::Framed) == framed,
                m0.inv(p0, a0),
                m1.inv(p0, a0),
                self.inv(p2v@, *allocator),
                m1.same_layout(*self),
                m0.grown(*self, p0, p2v@, a0, *allocator),
                allocator.free().len() + area_budget(framed, start as int, v as int)
                    >= a0.free().len(),
                forall|w: u64|
                    #[trigger] self.page_table@.contains_key(w) == (m1.page_table@.contains_key(w)
                        || start <= w < v),
                forall|w: u64|
                    range.contains(w as int) ==> !(#[trigger] m1.page_table@.contains_key(w)),
                forall|w: u64|
                    #[trigger] self.resident(w) == (m1.resident(w) || (framed && start <= w < v)),
                forall|w: u64|
                    start <= w < v && framed ==> (#[trigger] self.frame(w)).data@ == zero_page(),
                forall|w: u64|
                    start <= w < v && !framed ==> #[trigger] self.page_table@[w]
                        == PageTableEntry::spec_new(w, perm.bits | 0x01),
            decreases end - v,
        {
            let ghost m2 = *self;
            let ghost p2 = p2v@;
            let ghost a2 = *allocator;
            let vpn = VirtPageNum(v);
            let need: usize = self.page_table.tables_needed(vpn) + (match self.areas[idx].map_type {
                MapType::Framed => 1usize,
                MapType::Identical => 0usize,
            });
            proof {
                lemma_budget_step(framed, start as int, v as int, end as int);
                self.page_table.lemma_tables();
                if v > start && v % 512 != 0 {
                    assert(self.page_table@.contains_key((v - 1) as u64));
                    assert(self.page_table.has_table(v - 1));
                    assert(self.page_table.has_table(v as int));
                }
            }
            if !allocator.has_free(need) {
                proof {
                    assert forall|i: int| 0 <= i < m0.areas@.len() implies Self::same_area(
                        #[trigger] m2.areas@[i],
                        m0.areas@[i],
                    ) by {
                        assert(Self::same_area(m2.areas@[i], m1.areas@[i]));
                    }
                    assert(Self::same_area(m2.areas@[idx as int], m1.areas@[idx as int]));
                }
                return false;
            }
            self.map_page(idx, vpn, p2v, allocator);
            proof {
                let m3 = *self;
                m0.lemma_grown_twice(m2, m3, p0, p2, p2v@, a0, a2, *allocator);
                assert forall|w: u64|
                    #[trigger] m3.page_table@.contains_key(w) == (m1.page_table@.contains_key(w)
                        || start <= w < v + 1) by {
                    assert(m3.page_table@.dom().contains(w) == m2.page_table@.dom().insert(
                        v,
                    ).contains(w));
                }
                assert forall|w: u64| start <= w < v + 1 && framed implies (#[trigger] m3.frame(
                    w,
                )).data@ == zero_page() by {
                    if w != v {
                        assert(m2.resident(w));
                        assert(m3.frame(w) == m2.frame(w));
                    }
                }
                assert forall|w: u64| start <= w < v + 1 && !framed implies #[trigger] m3.page_table@[w]
                    == PageTableEntry::spec_new(w, perm.bits | 0x01) by {
                    if w != v {
                        assert(m2.page_table@.contains_key(w));
                    }
                }
            }
            v = v + 1;
        }
        proof {
            let m9 = *self;
            assert forall|i: int| 0 <= i < m0.areas@.len() implies Self::same_area(
                #[trigger] m9.areas@[i],
                m0.areas@[i],
            ) by {
                assert(Self::same_area(m9.areas@[i], m1.areas@[i]));
                assert(Self::same_area(m1.areas@[i], m0.areas@[i]));
            }
            assert(m9.fully_mapped(idx as int)) by {
                assert forall|w: u64| #[trigger]
                    m9.areas@[idx as int].vpn_range.contains(w as int) implies {
                    &&& m9.page_table@.contains_key(w)
                    &&& m9.areas@[idx as int].map_type == MapType::Framed ==> m9.holds(
                        idx as int,
                        w,
                    )
                    &&& m9.areas@[idx as int].map_type == MapType::Identical ==> m9.page_table@[w]
                        == PageTableEntry::spec_new(w, m9.areas@[idx as int].map_perm.bits | 0x01)
                } by {
                    if framed {
                        assert(m9.resident(w));
                        let i = m9.owner(w);
                        assert(m9.holds(i, w));
                        m9.lemma_owner(i, w);
                        if i != idx {
                            assert(ranges_disjoint(
                                m9.areas@[i].vpn_range,
                                m9.areas@[idx as int].vpn_range,
                            ));
                        }
                    }
                }
            }
        }
        true
    }
}

/// The part of `data` that belongs to page `k` of an area that `data`
/// fills from its first page on.
pub open spec fn page_chunk(data: Seq<u8>, k: int) -> Seq<u8> {
    if k * 4096 >= data.len() {
        Seq::empty()
    } else if data.len() < (k + 1) * 4096 {
        data.subrange(k * 4096, data.len() as int)
    } else {
        data.subrange(k * 4096, (k + 1) * 4096)
    }
}

impl MemorySet {
    /// Whether `after` is this space with other bytes in some frames, and
    /// nothing else changed.
    pub open spec fn redone(self, after: MemorySet) -> bool {
        &&& after.page_table == self.page_table
        &&& after.frame_manager == self.frame_manager
        &&& self.same_layout(after)
        &&& forall|w: u64| #[trigger] after.resident(w) == self.resident(w)
        &&& forall|w: u64|
            self.resident(w) ==> (#[trigger] after.frame(w)).ppn == self.frame(w).ppn
                && after.frame(w).wf()
    }

    /// Other bytes in frames change no frame, no owner and no table.
    pub proof fn lemma_redone(self, after: MemorySet)
        requires
            self.redone(after),
        ensures
            after.spec_token() == self.spec_token(),
            forall|p: u64| #[trigger] after.owns(p) == self.owns(p),
            forall|p: u64, m: Map<u64, u64>| #[trigger] after.backs(p, m) == self.backs(p, m),
            forall|dir: Map<(u64, u64), usize>| #[trigger]
                self.swap_free(dir) ==> after.swap_free(dir),
            forall|p2v: Map<u64, u64>, al: StackFrameAllocator, sw: IdeManager|
                sw.wf() && al.wf() ==> #[trigger] self.stepped(after, p2v, p2v, al, al, sw, sw),
    {
        assert forall|p: u64| #[trigger] after.owns(p) == self.owns(p) by {
            if after.owns(p) && !after.page_table.table_frames().contains(p) {
                let w = choose|w: u64| after.resident(w) && #[trigger] after.frame(w).ppn.0 == p;
                assert(self.resident(w) && self.frame(w).ppn.0 == p);
            }
            if self.owns(p) && !self.page_table.table_frames().contains(p) {
                let w = choose|w: u64| self.resident(w) && #[trigger] self.frame(w).ppn.0 == p;
                assert(after.resident(w) && after.frame(w).ppn.0 == p);
            }
        }
        assert forall|p: u64, m: Map<u64, u64>| #[trigger] after.backs(p, m) == self.backs(p, m) by {
            if m.contains_key(p) {
                let w = m[p];
                if self.resident(w) {
                    assert(after.frame(w).ppn == self.frame(w).ppn);
                }
            }
        }
        assert forall|dir: Map<(u64, u64), usize>| #[trigger]
            self.swap_free(dir) implies after.swap_free(dir) by {
            assert forall|w: u64| #[trigger] after.resident(w) implies !dir.contains_key(
                (after.spec_token(), w),
            ) by {
                assert(self.resident(w));
            }
        }
    }

    /// Other bytes in the frames of one area: the space stays well formed
    /// and keeps its frames, and what held of it and a reverse map or an
    /// allocator still holds.
    pub proof fn lemma_area_refilled(self, after: MemorySet, j: int)
        requires
            self.areas_wf(),
            0 <= j < self.areas@.len(),
            after.page_table == self.page_table,
            after.frame_manager == self.frame_manager,
            after.areas@.len() == self.areas@.len(),
            forall|i: int| 0 <= i < self.areas@.len() && i != j ==> after.areas@[i] == self.areas@[i],
            Self::same_area(after.areas@[j], self.areas@[j]),
            after.areas@[j].frames().dom() == self.areas@[j].frames().dom(),
            forall|w: u64| #[trigger]
                self.areas@[j].frames().contains_key(w) ==> after.areas@[j].frames()[w].ppn
                    == self.areas@[j].frames()[w].ppn && after.areas@[j].frames()[w].wf(),
        ensures
            after.areas_wf(),
            self.redone(after),
            forall|w: u64|
                self.resident(w) ==> #[trigger] after.frame(w) == (if self.holds(j, w) {
                    after.areas@[j].frames()[w]
                } else {
                    self.frame(w)
                }),
            forall|p2v: Map<u64, u64>| #[trigger] self.consistent(p2v) ==> after.consistent(p2v),
            forall|al: StackFrameAllocator| #[trigger]
                self.allocated_by(al) ==> after.allocated_by(al),
    {
        let before = self;
        assert forall|i: int, w: u64| after.holds(i, w) == before.holds(i, w) by {}
        assert forall|w: u64| #[trigger] after.resident(w) == before.resident(w) by {
            if after.resident(w) {
                let i = choose|i: int| after.holds(i, w);
                assert(before.holds(i, w));
            }
            if before.resident(w) {
                let i = choose|i: int| before.holds(i, w);
                assert(after.holds(i, w));
            }
        }
        assert(after.areas_wf()) by {
            assert forall|i: int| 0 <= i < after.areas@.len() implies (#[trigger] after.areas@[i]).wf() by {
                assert(before.areas@[i].wf());
                if i == j {
                    assert forall|w: u64| #[trigger]
                        after.areas@[i].frames().contains_key(w) implies after.areas@[i].vpn_range.contains(
                        w as int,
                    ) && after.areas@[i].frames()[w].wf() by {
                        assert(before.areas@[j].frames().contains_key(w));
                    }
                }
            }
            assert forall|i: int, k: int|
                0 <= i < after.areas@.len() && 0 <= k < after.areas@.len() && i
                    != k implies ranges_disjoint(
                (#[trigger] after.areas@[i]).vpn_range,
                (#[trigger] after.areas@[k]).vpn_range,
            ) by {
                assert(ranges_disjoint(before.areas@[i].vpn_range, before.areas@[k].vpn_range));
            }
        }
        assert forall|w: u64| before.resident(w) implies #[trigger] after.frame(w) == (if before.holds(
            j,
            w,
        ) {
            after.areas@[j].frames()[w]
        } else {
            before.frame(w)
        }) by {
            let i = before.owner(w);
            assert(before.holds(i, w));
            before.lemma_owner(i, w);
            assert(after.holds(i, w));
            after.lemma_owner(i, w);
            if before.holds(j, w) {
                before.lemma_owner(j, w);
            }
        }
        assert forall|w: u64| before.resident(w) implies (#[trigger] after.frame(w)).ppn
            == before.frame(w).ppn && after.frame(w).wf() by {
            let i = before.owner(w);
            assert(before.holds(i, w));
            before.lemma_owner(i, w);
            assert(before.areas@[i].wf());
            if before.holds(j, w) {
                before.lemma_owner(j, w);
            }
        }
        assert(before.same_layout(after));
        assert forall|p2v: Map<u64, u64>| #[trigger] before.consistent(p2v) implies after.consistent(
            p2v,
        ) by {
            assert(after.frames_mapped(p2v)) by {
                assert forall|i: int, w: u64| #[trigger] after.holds(i, w) implies {
                    let f = after.areas@[i].frames()[w];
                    let pt = after.page_table@;
                    &&& pt.contains_key(w)
                    &&& pt[w].spec_ppn() == f.ppn.0
                    &&& pt[w].spec_flags() & 0x3f == after.areas@[i].map_perm.bits | 0x01
                    &&& p2v.contains_key(f.ppn.0)
                    &&& p2v[f.ppn.0] == w
                    &&& !after.page_table.table_frames().contains(f.ppn.0)
                } by {
                    assert(before.holds(i, w));
                    before.lemma_owner(i, w);
                }
            }
            assert(after.manager_tracks(p2v)) by {
                assert forall|k: int| 0 <= k < after.frame_manager.frames().len() implies {
                    let p = #[trigger] after.frame_manager.frames()[k];
                    &&& p2v.contains_key(p)
                    &&& after.resident(p2v[p])
                    &&& after.frame(p2v[p]).ppn.0 == p
                } by {
                    let p = before.frame_manager.frames()[k];
                    assert(before.resident(p2v[p]));
                }
            }
            assert(after.mapped_in_areas()) by {
                assert forall|w: u64| #[trigger]
                    after.page_table@.contains_key(w) implies w == TRAMPOLINE_VPN || after.covered(
                    w,
                ) by {
                    if w != TRAMPOLINE_VPN {
                        let i = choose|i: int|
                            0 <= i < before.areas@.len() && before.areas@[i].vpn_range.contains(
                                w as int,
                            );
                        assert(after.areas@[i].vpn_range.contains(w as int));
                    }
                }
            }
        }
        assert forall|al: StackFrameAllocator| #[trigger]
            before.allocated_by(al) implies after.allocated_by(al) by {
            assert forall|i: int, w: u64| #[trigger] after.holds(i, w) implies al.allocated(
                after.areas@[i].frames()[w].ppn.0,
            ) by {
                assert(before.holds(i, w));
                before.lemma_owner(i, w);
            }
        }
    }

    /// Copies `data` into the frames of area `idx`, from the first page of
    /// the area on, page by page.
    #[verifier::rlimit(60)]
    pub fn copy_data(&mut self, idx: usize, data: &[u8])
        requires
            old(self).areas_wf(),
            idx < old(self).areas@.len(),
            old(self).areas@[idx as int].map_type == MapType::Framed,
            old(self).fully_mapped(idx as int),
            data@.len() <= (old(self).areas@[idx as int].vpn_range.end() - old(
                self,
            ).areas@[idx as int].vpn_range.start()) * 4096,
        ensures
            final(self).areas_wf(),
            old(self).redone(*final(self)),
            forall|w: u64|
                old(self).resident(w) ==> (#[trigger] final(self).frame(w)).data@ == (if old(
                    self,
                ).areas@[idx as int].vpn_range.contains(w as int) {
                    overwritten(
                        old(self).frame(w).data@,
                        0,
                        page_chunk(data@, w - old(self).areas@[idx as int].vpn_range.start()),
                    )
                } else {
                    old(self).frame(w).data@
                }),
            forall|p2v: Map<u64, u64>| #[trigger]
                old(self).consistent(p2v) ==> final(self).consistent(p2v),
            forall|al: StackFrameAllocator| #[trigger]
                old(self).allocated_by(al) ==> final(self).allocated_by(al),
    {
        let ghost m0 = *self;
        let ghost range = m0.areas@[idx as int].vpn_range;
        proof {
            assert(m0.areas@[idx as int].wf());
            assert forall|w: u64| range.contains(w as int) implies m0.areas@[idx as int].frames().contains_key(
                w,
            ) by {
                assert(m0.holds(idx as int, w));
            }
        }
        self.areas[idx].copy_data(data);
        proof {
            let m9 = *self;
            m0.lemma_area_refilled(m9, idx as int);
            assert forall|w: u64| m0.resident(w) implies (#[trigger] m9.frame(w)).data@ == (if range.contains(
                w as int,
            ) {
                overwritten(m0.frame(w).data@, 0, page_chunk(data@, w - range.start()))
            } else {
                m0.frame(w).data@
            }) by {
                if range.contains(w as int) {
                    assert(m0.holds(idx as int, w));
                    m0.lemma_owner(idx as int, w);
                } else if m0.holds(idx as int, w) {
                    assert(m0.areas@[idx as int].frames().contains_key(w));
                }
            }
        }
    }
}

impl MapArea {
    /// Copies `data` into the frames of the area, from its first page on,
    /// page by page. Every page of the area must be resident.
    pub fn copy_data(&mut self, data: &[u8])
        requires
            old(self).wf(),
            old(self).map_type == MapType::Framed,
            forall|w: u64| #[trigger]
                old(self).vpn_range.contains(w as int) ==> old(self).frames().contains_key(w),
            data@.len() <= (old(self).vpn_range.end() - old(self).vpn_range.start()) * 4096,
        ensures
            final(self).wf(),
            final(self).vpn_range == old(self).vpn_range,
            final(self).map_type == old(self).map_type,
            final(self).map_perm == old(self).map_perm,
            final(self).frames().dom() == old(self).frames().dom(),
            forall|w: u64| #[trigger]
                old(self).frames().contains_key(w) ==> {
                    &&& final(self).frames()[w].ppn == old(self).frames()[w].ppn
                    &&& final(self).frames()[w].wf()
                    &&& final(self).frames()[w].data@ == overwritten(
                        old(self).frames()[w].data@,
                        0,
                        page_chunk(data@, w - old(self).vpn_range.start()),
                    )
                },
    {
        let ghost a0 = *self;
        let start: u64 = self.vpn_range.get_start().0;
        let end: u64 = self.vpn_range.get_end().0;
        let len: usize = data.len();
        let mut k: u64 = 0;
        while k < end - start && (k as usize) < len / 4096 + 1 && (k as usize) * 4096 < len
            invariant
                a0 == *old(self),
                a0.wf(),
                self.vpn_range == a0.vpn_range,
                self.map_type == a0.map_type,
                self.map_perm == a0.map_perm,
                start == a0.vpn_range.start(),
                end == a0.vpn_range.end(),
                start <= end <= TRAMPOLINE_VPN,
                len == data@.len(),
                len <= (end - start) * 4096,
                k <= end - start,
                k * 4096 <= len + 4096,
                forall|w: u64| #[trigger]
                    a0.vpn_range.contains(w as int) ==> a0.frames().contains_key(w),
                self.frames().dom() == a0.frames().dom(),
                forall|w: u64| #[trigger]
                    a0.frames().contains_key(w) ==> {
                        &&& self.frames()[w].ppn == a0.frames()[w].ppn
                        &&& self.frames()[w].wf()
                        &&& self.frames()[w].data@ == (if start <= w < start + k {
                            overwritten(a0.frames()[w].data@, 0, page_chunk(data@, w - start))
                        } else {
                            a0.frames()[w].data@
                        })
                    },
            decreases end - start - k,
        {
            let ghost a1 = *self;
            let from: usize = (k as usize) * 4096;
            let to: usize = if len - from < 4096 {
                len
            } else {
                from + 4096
            };
            let chunk = vstd::slice::slice_subrange(data, from, to);
            let vpn: u64 = start + k;
            proof {
                assert(chunk@ == page_chunk(data@, k as int));
                assert(a0.vpn_range.contains(vpn as int));
                assert(a0.frames().contains_key(vpn));
                assert(self.frames().dom().contains(vpn));
            }
            let mut frame = self.data_frames.remove(&vpn).unwrap();
            let ghost old_data = frame.data@;
            let ghost old_ppn = frame.ppn;
            let n: usize = chunk.len();
            let mut t: usize = 0;
            while t < n
                invariant
                    t <= n,
                    n == chunk@.len(),
                    n <= 4096,
                    frame.ppn == old_ppn,
                    frame.data@.len() == 4096,
                    old_data.len() == 4096,
                    forall|x: int| 0 <= x < t ==> frame.data@[x] == chunk@[x],
                    forall|x: int| t <= x < 4096 ==> frame.data@[x] == old_data[x],
                decreases n - t,
            {
                frame.data[t] = chunk[t];
                t = t + 1;
            }
            assert(frame.data@ =~= overwritten(old_data, 0, chunk@));
            let ghost new_frame = frame;
            self.data_frames.insert(vpn, frame);
            proof {
                assert(self.frames() =~= a1.frames().insert(vpn, new_frame));
                assert(self.frames().dom() =~= a0.frames().dom());
            }
            k = k + 1;
        }
        proof {
            assert forall|w: u64| #[trigger] a0.frames().contains_key(w) implies self.frames()[w].data@
                == overwritten(a0.frames()[w].data@, 0, page_chunk(data@, w - start)) by {
                if !(start <= w < start + k) {
                    // Past the end of the data nothing is written.
                    assert(a0.vpn_range.contains(w as int));
                    assert(page_chunk(data@, w - start) =~= Seq::<u8>::empty());
                    assert(a0.frames()[w].wf());
                    assert(overwritten(a0.frames()[w].data@, 0, Seq::<u8>::empty())
                        =~= a0.frames()[w].data@);
                }
            }
        }
    }
}

/// How an attempt to add an area and map it at once ends.
#[derive(Copy, Clone, PartialEq, Eq, Structural, Debug)]
pub enum PushOutcome {
    /// The area is there and all of its pages are mapped.
    Mapped,
    /// The range is malformed or overlaps an area. Nothing changed.
    Refused,
    /// The free frames did not suffice. The area is mapped in part.
    Exhausted,
}

/// Whether `[start, end)` is a range of addresses that an area can cover,
/// below the trampoline.
pub open spec fn range_ok(start: u64, end: u64) -> bool {
    start <= end <= 0x7f_ffff_f000
}

impl MemorySet {
    /// Whether the pages `lo` to `hi - 1` touch an area of this space.
    pub fn overlaps_any(&self, lo: u64, hi: u64) -> (r: bool)
        ensures
            r == self.overlaps(lo as int, hi as int),
    {
        let mut i: usize = 0;
        while i < self.areas.len()
            invariant
                i <= self.areas@.len(),
                forall|k: int|
                    0 <= k < i ==> !((#[trigger] self.areas@[k]).vpn_range.start() < hi && lo
                        < self.areas@[k].vpn_range.end()),
            decreases self.areas@.len() - i,
        {
            let area = &self.areas[i];
            if area.vpn_range.get_start().0 < hi && lo < area.vpn_range.get_end().0 {
                assert(self.areas@[i as int].vpn_range.start() < hi && lo
                    < self.areas@[i as int].vpn_range.end());
                return true;
            }
            i = i + 1;
        }
        false
    }

    /// Adds an area of type `map_type` with permissions `permission` over
    /// the pages that `[start, end)` touches, and maps all of them at once.
    /// Refuses a range that is malformed or touches an area.
    #[verifier::rlimit(60)]
    pub fn try_kpush(
        &mut self,
        start: u64,
        end: u64,
        map_type: MapType,
        permission: MapPermission,
        p2v: &mut ReverseMap,
        allocator: &mut StackFrameAllocator,
    ) -> (r: PushOutcome)
        requires
            old(self).inv(old(p2v)@, *old(allocator)),
            permission.wf(),
        ensures
            final(self).inv(final(p2v)@, *final(allocator)),
            old(self).grown(*final(self), old(p2v)@, final(p2v)@, *old(allocator), *final(allocator)),
            (r == PushOutcome::Refused) == (!range_ok(start, end) || old(self).overlaps(
                page_floor(start as int),
                page_ceil(end as int),
            )),
            r == PushOutcome::Refused ==> {
                &&& *final(self) == *old(self)
                &&& *final(p2v) == *old(p2v)
                &&& *final(allocator) == *old(allocator)
            },
            r == PushOutcome::Exhausted ==> final(allocator).free().len() < 3,
            old(allocator).free().len() >= area_budget(
                map_type == MapType::Framed,
                page_floor(start as int),
                page_ceil(end as int),
            ) ==> r != PushOutcome::Exhausted,
            r != PushOutcome::Refused ==> {
                let last = final(self).areas@.last();
                &&& final(allocator).free().len() + area_budget(
                    map_type == MapType::Framed,
                    page_floor(start as int),
                    page_ceil(end as int),
                ) >= old(allocator).free().len()
                &&& final(self).areas@.len() == old(self).areas@.len() + 1
                &&& last.vpn_range.start() == page_floor(start as int)
                &&& last.vpn_range.end() == page_ceil(end as int)
                &&& last.map_type == map_type
                &&& last.map_perm == permission
                &&& forall|i: int|
                    0 <= i < old(self).areas@.len() ==> Self::same_area(
                        #[trigger] final(self).areas@[i],
                        old(self).areas@[i],
                    )
                &&& forall|w: u64|
                    !last.vpn_range.contains(w as int) ==> (#[trigger] final(self).page_table@.contains_key(w)) == old(self).page_table@.contains_key(w)
                &&& forall|w: u64|
                    !last.vpn_range.contains(w as int) ==> #[trigger] final(self).resident(w)
                        == old(self).resident(w)
            },
            r == PushOutcome::Mapped ==> {
                &&& final(self).fully_mapped(old(self).areas@.len() as int)
                &&& forall|w: u64|
                    final(self).areas@.last().vpn_range.contains(w as int) && map_type
                        == MapType::Framed ==> (#[trigger] final(self).frame(w)).data@
                        == zero_page()
            },
    {
        if start > end || end > 0x7f_ffff_f000 {
            proof {
                self.lemma_same_residents(*self);
            }
            return PushOutcome::Refused;
        }
        let map_area = MapArea::new(VirtAddr(start), VirtAddr(end), map_type, permission);
        if self.overlaps_any(map_area.vpn_range.get_start().0, map_area.vpn_range.get_end().0) {
            proof {
                self.lemma_same_residents(*self);
            }
            return PushOutcome::Refused;
        }
        proof {
            let m0 = *self;
            assert forall|i: int| 0 <= i < m0.areas@.len() implies ranges_disjoint(
                (#[trigger] m0.areas@[i]).vpn_range,
                map_area.vpn_range,
            ) by {
                assert(m0.areas@[i].wf());
                m0.areas@[i].vpn_range.lemma_ordered();
                map_area.vpn_range.lemma_ordered();
                if !ranges_disjoint(m0.areas@[i].vpn_range, map_area.vpn_range) {
                    assert(m0.areas@[i].vpn_range.start() < map_area.vpn_range.end());
                    assert(map_area.vpn_range.start() < m0.areas@[i].vpn_range.end());
                }
            }
        }
        if self.kpush(map_area, p2v, allocator) {
            PushOutcome::Mapped
        } else {
            PushOutcome::Exhausted
        }
    }

    /// Maps the trampoline page, the last of the address space, to the
    /// frame that holds `strampoline`, readable and executable. It belongs
    /// to no area. Returns `false`, changing nothing, where the free frames
    /// do not suffice for the tables.
    pub fn map_trampoline(
        &mut self,
        strampoline: crate::mm::address::PhysAddr,
        p2v: &ReverseMap,
        allocator: &mut StackFrameAllocator,
    ) -> (r: bool)
        requires
            old(self).inv(p2v@, *old(allocator)),
            !old(self).page_table@.contains_key(TRAMPOLINE_VPN),
        ensures
            final(self).inv(p2v@, *final(allocator)),
            final(self).areas == old(self).areas,
            final(self).frame_manager == old(self).frame_manager,
            r == (old(allocator).free().len() >= old(self).page_table.missing_tables(
                TRAMPOLINE_VPN as int,
            )),
            r ==> {
                &&& final(self).page_table@ == old(self).page_table@.insert(
                    TRAMPOLINE_VPN,
                    PageTableEntry::spec_new(page_floor(strampoline.0 as int) as u64, 0x0b),
                )
                &&& final(allocator).after_taking(
                    *old(allocator),
                    old(self).page_table.missing_tables(TRAMPOLINE_VPN as int) as int,
                )
                &&& old(self).grown(*final(self), p2v@, p2v@, *old(allocator), *final(allocator))
                &&& forall|w: u64| #[trigger] final(self).resident(w) == old(self).resident(w)
            },
            !r ==> *final(self) == *old(self) && *final(allocator) == *old(allocator),
    {
        let vpn = VirtPageNum(TRAMPOLINE_VPN);
        let need: usize = self.page_table.tables_needed(vpn);
        if !allocator.has_free(need) {
            return false;
        }
        self.map_fixed(vpn, strampoline.floor(), PTEFlags { bits: 0x0a }, p2v, allocator);
        assert(0x0au8 | 0x01 == 0x0b) by (bit_vector);
        true
    }
}

/// The addresses that the linker gives the parts of the kernel image.
#[derive(Copy, Clone, Debug)]
pub struct KernelLayout {
    pub stext: u64,
    pub etext: u64,
    pub srodata: u64,
    pub erodata: u64,
    pub sdata: u64,
    pub edata: u64,
    pub sbss_with_stack: u64,
    pub ebss: u64,
    pub ekernel: u64,
    pub strampoline: u64,
}

/// A range of addresses with the permissions of the area that covers it.
#[derive(Copy, Clone, Debug)]
pub struct Section {
    pub start: u64,
    pub end: u64,
    pub perm: u8,
}

/// The identical areas of the kernel space, in the order in which it gets
/// them: text, read-only data, data, bss, the rest of physical memory up to
/// `memory_end`, and one for each device window `(base, size)` of `mmio`.
pub open spec fn kernel_sections(
    layout: KernelLayout,
    memory_end: u64,
    mmio: Seq<(u64, u64)>,
) -> Seq<Section> {
    seq![
        Section { start: layout.stext, end: layout.etext, perm: 0x0a },
        Section { start: layout.srodata, end: layout.erodata, perm: 0x02 },
        Section { start: layout.sdata, end: layout.edata, perm: 0x06 },
        Section { start: layout.sbss_with_stack, end: layout.ebss, perm: 0x06 },
        Section { start: layout.ekernel, end: memory_end, perm: 0x06 },
    ] + Seq::new(
        mmio.len(),
        |k: int| Section { start: mmio[k].0, end: (mmio[k].0 + mmio[k].1) as u64, perm: 0x06 },
    )
}

/// Whether the sections can become areas one after the other: each is a
/// range below the trampoline and touches no page of an earlier one.
pub open spec fn sections_ok(sections: Seq<Section>) -> bool {
    forall|k: int|
        0 <= k < sections.len() ==> {
            &&& range_ok((#[trigger] sections[k]).start, sections[k].end)
            &&& forall|j: int|
                0 <= j < k ==> !(page_floor(sections[j].start as int) < page_ceil(
                    sections[k].end as int,
                ) && page_floor(sections[k].start as int) < page_ceil(sections[j].end as int))
        }
}

/// Number of frames that suffice for the page-table nodes of the
/// sections, mapped one after the other: see `area_budget`. An identity
/// mapping takes no frame for the page itself.
pub open spec fn section_frames(sections: Seq<Section>) -> int
    decreases sections.len(),
{
    if sections.len() == 0 {
        0
    } else {
        section_frames(sections.drop_last()) + area_budget(
            false,
            page_floor(sections.last().start as int),
            page_ceil(sections.last().end as int),
        )
    }
}

/// The frames for the first `k + 1` sections are those for the first `k`
/// and those for section `k`.
pub proof fn lemma_section_frames_step(sections: Seq<Section>, k: int)
    requires
        0 <= k < sections.len(),
    ensures
        section_frames(sections.take(k + 1)) == section_frames(sections.take(k)) + area_budget(
            false,
            page_floor(sections[k].start as int),
            page_ceil(sections[k].end as int),
        ),
{
    assert(sections.take(k + 1).drop_last() =~= sections.take(k));
    assert(sections.take(k + 1).last() == sections[k]);
}

/// The sections take no fewer frames than the first `k` of them do.
pub proof fn lemma_section_frames_prefix(sections: Seq<Section>, k: int)
    requires
        0 <= k <= sections.len(),
        forall|j: int|
            0 <= j < sections.len() ==> range_ok((#[trigger] sections[j]).start, sections[j].end),
    ensures
        section_frames(sections.take(k)) <= section_frames(sections),
    decreases sections.len() - k,
{
    if k == sections.len() {
        assert(sections.take(k) =~= sections);
    } else {
        lemma_section_frames_step(sections, k);
        lemma_section_frames_prefix(sections, k + 1);
        assert(range_ok(sections[k].start, sections[k].end));
    }
}

impl MemorySet {
    /// Whether `after` is a space that came into being beside the reverse
    /// map `p2v` and the allocator `al`: it owns only frames that were
    /// free, and the frames that were handed out kept their place in the
    /// reverse map.
    pub open spec fn born(
        after: MemorySet,
        p2v: Map<u64, u64>,
        p2v2: Map<u64, u64>,
        al: StackFrameAllocator,
        al2: StackFrameAllocator,
    ) -> bool {
        &&& al2.wf()
        &&& al2.limit() == al.limit()
        &&& forall|p: u64| #[trigger] al.allocated(p) ==> al2.allocated(p)
        &&& forall|p: u64|
            #[trigger] al.allocated(p) ==> p2v2.contains_key(p) == p2v.contains_key(p) && (
            p2v.contains_key(p) ==> p2v2[p] == p2v[p])
        &&& forall|p: u64| #[trigger] after.owns(p) ==> !al.allocated(p)
        &&& forall|p: u64|
            #[trigger] p2v2.contains_key(p) ==> after.backs(p, p2v2) || (p2v.contains_key(p)
                && p2v2[p] == p2v[p])
    }

    /// A space that grows after its birth was born as it is.
    pub proof fn lemma_born_grown(
        mid: MemorySet,
        after: MemorySet,
        p2v: Map<u64, u64>,
        p2v1: Map<u64, u64>,
        p2v2: Map<u64, u64>,
        al: StackFrameAllocator,
        al1: StackFrameAllocator,
        al2: StackFrameAllocator,
    )
        requires
            Self::born(mid, p2v, p2v1, al, al1),
            mid.grown(after, p2v1, p2v2, al1, al2),
        ensures
            Self::born(after, p2v, p2v2, al, al2),
    {
        assert forall|p: u64| #[trigger] after.owns(p) implies !al.allocated(p) by {
            if !mid.owns(p) {
                assert(!al1.allocated(p));
            }
        }
        assert forall|p: u64| #[trigger] p2v2.contains_key(p) implies after.backs(p, p2v2) || (
        p2v.contains_key(p) && p2v2[p] == p2v[p]) by {
            if !after.backs(p, p2v2) {
                assert(p2v1.contains_key(p) && p2v2[p] == p2v1[p]);
                if mid.backs(p, p2v1) {
                    let w = p2v1[p];
                    assert(after.resident(w));
                    assert(after.frame(w) == mid.frame(w));
                }
            }
        }
    }

    /// A space under policy `pra` with a root table and the trampoline
    /// mapped to the frame that holds `strampoline`, and nothing else.
    /// `None`, with nothing changed, where fewer than three frames are
    /// free.
    #[verifier::rlimit(60)]
    pub fn new_with_trampoline(
        pra: PRA,
        strampoline: crate::mm::address::PhysAddr,
        p2v: &ReverseMap,
        allocator: &mut StackFrameAllocator,
    ) -> (r: Option<MemorySet>)
        requires
            old(allocator).wf(),
            old(allocator).limit() <= 0x1000_0000_0000,
        ensures
            r is Some == (old(allocator).free().len() >= 3),
            r is None ==> *final(allocator) == *old(allocator),
            r is Some ==> {
                let ms = r->0;
                &&& ms.inv(p2v@, *final(allocator))
                &&& Self::born(ms, p2v@, p2v@, *old(allocator), *final(allocator))
                &&& final(allocator).after_taking(*old(allocator), 3)
                &&& ms.areas@.len() == 0
                &&& ms.frame_manager.pra() == pra
                &&& ms.frame_manager.frames().len() == 0
                &&& ms.page_table.root() == old(allocator).free()[0]
                &&& ms.page_table@ == Map::<u64, PageTableEntry>::empty().insert(
                    TRAMPOLINE_VPN,
                    PageTableEntry::spec_new(page_floor(strampoline.0 as int) as u64, 0x0b),
                )
                &&& forall|w: u64| !ms.resident(w)
            },
    {
        if !allocator.has_free(3) {
            return None;
        }
        let ghost a0 = *allocator;
        let mut ms = MemorySet::new_bare(pra, allocator);
        let ghost bare = ms;
        let ghost a1 = *allocator;
        proof {
            a0.lemma_free_not_allocated();
            assert(bare.inv(p2v@, a1));
            assert forall|w: u64| !bare.resident(w) by {
                if bare.resident(w) {
                    let i = choose|i: int| bare.holds(i, w);
                    assert(bare.holds(i, w));
                }
            }
            assert forall|p: u64| #[trigger] bare.owns(p) implies p == a0.free()[0] by {
                if bare.page_table.table_frames().contains(p) {
                    let k = choose|k: int|
                        0 <= k < bare.page_table.table_frames().len()
                            && bare.page_table.table_frames()[k] == p;
                    assert(k == 0);
                }
            }
            assert(a0.free().take(1)[0] == a0.free()[0]);
            assert(Self::born(bare, p2v@, p2v@, a0, a1)) by {
                assert forall|p: u64| #[trigger] p2v@.contains_key(p) implies bare.backs(p, p2v@)
                    || (p2v@.contains_key(p) && p2v@[p] == p2v@[p]) by {}
            }
            assert(a1.free() =~= a0.free().skip(1));
            assert(bare.page_table.missing_tables(TRAMPOLINE_VPN as int) == 2);
        }
        let ok = ms.map_trampoline(strampoline, p2v, allocator);
        proof {
            assert(ok);
            Self::lemma_born_grown(bare, ms, p2v@, p2v@, p2v@, a0, a1, *allocator);
            assert(allocator.free() =~= a0.free().skip(3));
            assert forall|p: u64|
                allocator.allocated(p) == (a0.allocated(p) || a0.free().take(3).contains(p)) by {
                let t1 = a1.free().take(2);
                let t0 = a0.free().take(3);
                if t1.contains(p) {
                    let k = choose|k: int| 0 <= k < t1.len() && t1[k] == p;
                    assert(t0[k + 1] == p);
                }
                if t0.contains(p) {
                    let k = choose|k: int| 0 <= k < t0.len() && t0[k] == p;
                    if k > 0 {
                        assert(t1[k - 1] == p);
                    }
                }
                assert(t0[0] == a0.free()[0]);
            }
        }
        Some(ms)
    }

    /// The address space of the kernel: the trampoline, and one identical
    /// area for each part of the kernel image, for the rest of physical
    /// memory and for each device window, all mapped at once.
    ///
    /// `None` where a section is malformed or touches an earlier one, or
    /// the free frames do not suffice.
    #[verifier::rlimit(60)]
    pub fn new_kernel(
        layout: &KernelLayout,
        memory_end: u64,
        mmio: &[(u64, u64)],
        pra: PRA,
        p2v: &mut ReverseMap,
        allocator: &mut StackFrameAllocator,
    ) -> (r: Option<MemorySet>)
        requires
            old(allocator).wf(),
            old(allocator).limit() <= 0x1000_0000_0000,
            forall|k: int| 0 <= k < mmio@.len() ==> (#[trigger] mmio@[k]).0 + mmio@[k].1 <= u64::MAX,
        ensures
            final(allocator).wf(),
            final(allocator).limit() == old(allocator).limit(),
            r is None ==> !sections_ok(kernel_sections(*layout, memory_end, mmio@)) || final(allocator).free().len() < 3,
            sections_ok(kernel_sections(*layout, memory_end, mmio@)) && old(
                allocator,
            ).free().len() >= 3 + section_frames(kernel_sections(*layout, memory_end, mmio@))
                ==> r is Some,
            r is Some ==> {
                let ms = r->0;
                let sections = kernel_sections(*layout, memory_end, mmio@);
                &&& sections_ok(sections)
                &&& ms.inv(final(p2v)@, *final(allocator))
                &&& Self::born(ms, old(p2v)@, final(p2v)@, *old(allocator), *final(allocator))
                &&& ms.frame_manager.pra() == pra
                &&& ms.frame_manager.frames().len() == 0
                &&& old(allocator).free().len() >= 3
                &&& ms.page_table.root() == old(allocator).free()[0]
                &&& ms.page_table@.contains_key(TRAMPOLINE_VPN)
                &&& ms.page_table@[TRAMPOLINE_VPN] == PageTableEntry::spec_new(
                    page_floor(layout.strampoline as int) as u64,
                    0x0b,
                )
                &&& ms.areas@.len() == sections.len()
                &&& forall|k: int|
                    0 <= k < sections.len() ==> {
                        &&& (#[trigger] ms.areas@[k]).map_type == MapType::Identical
                        &&& ms.areas@[k].vpn_range.start() == page_floor(sections[k].start as int)
                        &&& ms.areas@[k].vpn_range.end() == page_ceil(sections[k].end as int)
                        &&& ms.areas@[k].map_perm.bits == sections[k].perm
                        &&& ms.fully_mapped(k)
                    }
                &&& forall|w: u64| !ms.resident(w)
            },
    {
        let ghost a0 = *allocator;
        let ghost p0 = p2v@;
        let ghost spec_sections = kernel_sections(*layout, memory_end, mmio@);
        let mut sections: Vec<Section> = Vec::new();
        sections.push(Section { start: layout.stext, end: layout.etext, perm: 0x0a });
        sections.push(Section { start: layout.srodata, end: layout.erodata, perm: 0x02 });
        sections.push(Section { start: layout.sdata, end: layout.edata, perm: 0x06 });
        sections.push(Section { start: layout.sbss_with_stack, end: layout.ebss, perm: 0x06 });
        sections.push(Section { start: layout.ekernel, end: memory_end, perm: 0x06 });
        let mut m: usize = 0;
        while m < mmio.len()
            invariant
                m <= mmio@.len(),
                sections@.len() == 5 + m,
                spec_sections == kernel_sections(*layout, memory_end, mmio@),
                forall|k: int| 0 <= k < mmio@.len() ==> (#[trigger] mmio@[k]).0 + mmio@[k].1 <= u64::MAX,
                forall|k: int| 0 <= k < 5 + m ==> #[trigger] sections@[k] == spec_sections[k],
            decreases mmio@.len() - m,
        {
            let pair = mmio[m];
            sections.push(Section { start: pair.0, end: pair.0 + pair.1, perm: 0x06 });
            m = m + 1;
        }
        assert(sections@ =~= spec_sections);
        let made = MemorySet::new_with_trampoline(
            pra,
            crate::mm::address::PhysAddr(layout.strampoline),
            p2v,
            allocator,
        );
        if made.is_none() {
            proof {
                if sections_ok(spec_sections) {
                    assert(spec_sections.take(0) =~= Seq::<Section>::empty());
                    lemma_section_frames_prefix(spec_sections, 0);
                }
            }
            return None;
        }
        let mut ms = made.unwrap();
        let ghost tramp = ms.page_table@[TRAMPOLINE_VPN];
        proof {
            assert forall|j: int| 0 <= j < spec_sections.len() implies (#[trigger] spec_sections[j]).perm
                == 0x0a || spec_sections[j].perm == 0x02 || spec_sections[j].perm == 0x06 by {
                if j >= 5 {
                    assert(spec_sections[j].perm == 0x06);
                }
            }
            assert(spec_sections.take(0) =~= Seq::<Section>::empty());
        }
        let mut k: usize = 0;
        while k < sections.len()
            invariant
                k <= sections@.len(),
                sections@ == spec_sections,
                spec_sections == kernel_sections(*layout, memory_end, mmio@),
                forall|j: int|
                    0 <= j < spec_sections.len() ==> (#[trigger] spec_sections[j]).perm == 0x0a
                        || spec_sections[j].perm == 0x02 || spec_sections[j].perm == 0x06,
                sections_ok(spec_sections.take(k as int)),
                allocator.free().len() + 3 + section_frames(spec_sections.take(k as int))
                    >= a0.free().len(),
                a0 == *old(allocator),
                p0 == old(p2v)@,
                ms.inv(p2v@, *allocator),
                Self::born(ms, p0, p2v@, a0, *allocator),
                allocator.wf(),
                allocator.limit() == a0.limit(),
                ms.frame_manager.pra() == pra,
                ms.frame_manager.frames().len() == 0,
                a0.free().len() >= 3,
                ms.page_table.root() == a0.free()[0],
                ms.page_table@.contains_key(TRAMPOLINE_VPN),
                ms.page_table@[TRAMPOLINE_VPN] == tramp,
                ms.areas@.len() == k,
                forall|j: int|
                    0 <= j < k ==> {
                        &&& (#[trigger] ms.areas@[j]).map_type == MapType::Identical
                        &&& ms.areas@[j].vpn_range.start() == page_floor(
                            spec_sections[j].start as int,
                        )
                        &&& ms.areas@[j].vpn_range.end() == page_ceil(spec_sections[j].end as int)
                        &&& ms.areas@[j].map_perm.bits == spec_sections[j].perm
                        &&& ms.fully_mapped(j)
                    },
                forall|w: u64| !ms.resident(w),
            decreases sections@.len() - k,
        {
            let section = sections[k];
            let ghost m1 = ms;
            let ghost p1 = p2v@;
            let ghost a1 = *allocator;
            proof {
                assert(spec_sections[k as int] == section);
                assert(section.perm == 0x0a || section.perm == 0x02 || section.perm == 0x06);
                assert(0x0au8 & 0xe1 == 0 && 0x02u8 & 0xe1 == 0 && 0x06u8 & 0xe1 == 0)
                    by (bit_vector);
            }
            let permission = MapPermission { bits: section.perm };
            let outcome = ms.try_kpush(
                section.start,
                section.end,
                MapType::Identical,
                permission,
                p2v,
                allocator,
            );
            proof {
                let lo = page_floor(section.start as int);
                let hi = page_ceil(section.end as int);
                lemma_section_frames_step(spec_sections, k as int);
                if sections_ok(spec_sections) {
                    assert forall|j: int| 0 <= j < spec_sections.len() implies range_ok(
                        (#[trigger] spec_sections[j]).start,
                        spec_sections[j].end,
                    ) by {}
                    lemma_section_frames_prefix(spec_sections, k as int + 1);
                }
                if outcome == PushOutcome::Refused {
                    if range_ok(section.start, section.end) {
                        let i = choose|i: int|
                            0 <= i < m1.areas@.len() && (#[trigger] m1.areas@[i]).vpn_range.start()
                                < hi && lo < m1.areas@[i].vpn_range.end();
                        assert(spec_sections[k as int] == section);
                        assert(m1.areas@[i].vpn_range.start() == page_floor(
                            spec_sections[i].start as int,
                        ));
                        assert(!sections_ok(spec_sections)) by {
                            if sections_ok(spec_sections) {
                                assert(range_ok(
                                    spec_sections[k as int].start,
                                    spec_sections[k as int].end,
                                ));
                            }
                        }
                    } else {
                        assert(!sections_ok(spec_sections)) by {
                            assert(spec_sections[k as int] == section);
                        }
                    }
                } else {
                    Self::lemma_born_grown(m1, ms, p0, p1, p2v@, a0, a1, *allocator);
                    assert(m1.page_table@.contains_key(TRAMPOLINE_VPN));
                    assert(ms.page_table@.contains_key(TRAMPOLINE_VPN));
                    assert(ms.page_table@[TRAMPOLINE_VPN] == m1.page_table@[TRAMPOLINE_VPN]);
                    assert(sections_ok(spec_sections.take(k as int + 1))) by {
                        let t = spec_sections.take(k as int + 1);
                        let t0 = spec_sections.take(k as int);
                        assert forall|q: int| 0 <= q < t.len() implies {
                            &&& range_ok((#[trigger] t[q]).start, t[q].end)
                            &&& forall|j: int|
                                0 <= j < q ==> !(page_floor(t[j].start as int) < page_ceil(
                                    t[q].end as int,
                                ) && page_floor(t[q].start as int) < page_ceil(t[j].end as int))
                        } by {
                            if q < k {
                                assert(t0[q] == t[q]);
                                assert forall|j: int| 0 <= j < q implies !(page_floor(
                                    t[j].start as int,
                                ) < page_ceil(t[q].end as int) && page_floor(t[q].start as int)
                                    < page_ceil(t[j].end as int)) by {
                                    assert(t0[j] == t[j]);
                                }
                            } else {
                                assert forall|j: int| 0 <= j < q implies !(page_floor(
                                    t[j].start as int,
                                ) < page_ceil(t[q].end as int) && page_floor(t[q].start as int)
                                    < page_ceil(t[j].end as int)) by {
                                    assert(m1.areas@[j].vpn_range.start() == page_floor(
                                        spec_sections[j].start as int,
                                    ));
                                }
                            }
                        }
                    }
                    assert forall|j: int| 0 <= j < k + 1 implies {
                        &&& (#[trigger] ms.areas@[j]).map_type == MapType::Identical
                        &&& ms.areas@[j].vpn_range.start() == page_floor(
                            spec_sections[j].start as int,
                        )
                        &&& ms.areas@[j].vpn_range.end() == page_ceil(spec_sections[j].end as int)
                        &&& ms.areas@[j].map_perm.bits == spec_sections[j].perm
                        &&& (outcome == PushOutcome::Mapped ==> ms.fully_mapped(j))
                    } by {
                        if j < k {
                            assert(Self::same_area(ms.areas@[j], m1.areas@[j]));
                            assert(m1.fully_mapped(j));
                            assert forall|w: u64| #[trigger]
                                ms.areas@[j].vpn_range.contains(w as int) implies {
                                &&& ms.page_table@.contains_key(w)
                                &&& ms.areas@[j].map_type == MapType::Framed ==> ms.holds(j, w)
                                &&& ms.areas@[j].map_type == MapType::Identical
                                    ==> ms.page_table@[w] == PageTableEntry::spec_new(
                                    w,
                                    ms.areas@[j].map_perm.bits | 0x01,
                                )
                            } by {
                                assert(m1.areas@[j].vpn_range.contains(w as int));
                                assert(m1.page_table@.contains_key(w));
                                assert(ms.page_table@.contains_key(w));
                                assert(ms.page_table@[w] == m1.page_table@[w]);
                            }
                        } else {
                            assert(ms.areas@[j] == ms.areas@.last());
                        }
                    }
                    assert forall|w: u64| !ms.resident(w) by {
                        if ms.resident(w) {
                            if ms.areas@.last().vpn_range.contains(w as int) {
                                let i = ms.owner(w);
                                assert(ms.holds(i, w));
                                ms.lemma_owner(i, w);
                                assert(ms.areas@[i].wf());
                                assert(ms.areas@[i].map_type == MapType::Identical);
                                assert(ms.areas@[i].frames().dom().contains(w));
                            } else {
                                assert(m1.resident(w));
                            }
                        }
                    }
                }
            }
            match outcome {
                PushOutcome::Mapped => {},
                _ => {
                    return None;
                },
            }
            k = k + 1;
        }
        proof {
            assert(spec_sections.take(sections@.len() as int) =~= spec_sections);
        }
        Some(ms)
    }
}

/// Number of pages among `[start, end)` that are in `dom`.
pub open spec fn resident_count(dom: Set<u64>, start: int, end: int) -> int
    decreases end - start,
{
    if end <= start {
        0
    } else {
        resident_count(dom, start, end - 1) + (if dom.contains((end - 1) as u64) {
            1int
        } else {
            0int
        })
    }
}

/// No more pages of `[start, v)` are in `dom` than of `[start, end)`.
pub proof fn lemma_resident_count(dom: Set<u64>, start: int, v: int, end: int)
    requires
        start <= v <= end,
    ensures
        0 <= resident_count(dom, start, v) <= resident_count(dom, start, end),
    decreases end - start,
{
    if v < end {
        lemma_resident_count(dom, start, v, end - 1);
    } else if start < v {
        lemma_resident_count(dom, start, v - 1, end - 1);
    }
}

/// Number of frames that suffice to copy `area` with its resident pages:
/// one for each resident page, and two for each last-level table that
/// the area lies in.
pub open spec fn copy_budget(area: MapArea) -> int {
    (if area.map_type == MapType::Framed {
        resident_count(area.frames().dom(), area.vpn_range.start(), area.vpn_range.end())
    } else {
        0
    }) + 2 * table_span(area.vpn_range.start(), area.vpn_range.end())
}

/// Number of frames that suffice to copy the areas, one after the other.
pub open spec fn layout_frames(areas: Seq<MapArea>) -> int
    decreases areas.len(),
{
    if areas.len() == 0 {
        0
    } else {
        layout_frames(areas.drop_last()) + copy_budget(areas.last())
    }
}

/// The frames for the first `k + 1` areas are those for the first `k` and
/// those for area `k`.
pub proof fn lemma_layout_frames_step(areas: Seq<MapArea>, k: int)
    requires
        0 <= k < areas.len(),
    ensures
        layout_frames(areas.take(k + 1)) == layout_frames(areas.take(k)) + copy_budget(areas[k]),
        0 <= copy_budget(areas[k]),
{
    assert(areas.take(k + 1).drop_last() =~= areas.take(k));
    assert(areas.take(k + 1).last() == areas[k]);
    let r = areas[k].vpn_range;
    if r.start() <= r.end() {
        lemma_resident_count(areas[k].frames().dom(), r.start(), r.start(), r.end());
    }
}

/// The areas take no fewer frames than the first `k` of them do.
pub proof fn lemma_layout_frames_prefix(areas: Seq<MapArea>, k: int)
    requires
        0 <= k <= areas.len(),
    ensures
        0 <= layout_frames(areas.take(k)) <= layout_frames(areas),
    decreases areas.len() - k,
{
    if k == areas.len() {
        assert(areas.take(k) =~= areas);
    } else {
        lemma_layout_frames_step(areas, k);
        lemma_layout_frames_prefix(areas, k + 1);
    }
    lemma_layout_frames_nonneg(areas.take(k));
}

/// The areas take no negative number of frames.
pub proof fn lemma_layout_frames_nonneg(areas: Seq<MapArea>)
    ensures
        0 <= layout_frames(areas),
    decreases areas.len(),
{
    if areas.len() > 0 {
        lemma_layout_frames_nonneg(areas.drop_last());
        assert(areas.take(areas.len() as int) =~= areas);
        lemma_layout_frames_step(areas, areas.len() - 1);
    }
}

impl MemorySet {
    /// A copy of the address space `user_space` for a forked process: a
    /// page table of its own with the trampoline, the same areas, and for
    /// each resident page of a framed area a frame of its own with the
    /// same bytes. The replacement policy of the copy has no frame
    /// registered. The frames of the copy come from the free ones, so the
    /// two spaces share none.
    ///
    /// `None` where the free frames do not suffice.
    #[verifier::rlimit(60)]
    pub fn from_existed_user(
        user_space: &MemorySet,
        strampoline: crate::mm::address::PhysAddr,
        p2v: &mut ReverseMap,
        allocator: &mut StackFrameAllocator,
    ) -> (r: Option<MemorySet>)
        requires
            user_space.inv(old(p2v)@, *old(allocator)),
        ensures
            r is None ==> final(allocator).free().len() < 3,
            old(allocator).free().len() >= 3 + layout_frames(user_space.areas@) ==> r is Some,
            r is Some ==> {
                let child = r->0;
                &&& child.inv(final(p2v)@, *final(allocator))
                &&& Self::born(child, old(p2v)@, final(p2v)@, *old(allocator), *final(allocator))
                &&& user_space.same_layout(child)
                &&& child.frame_manager.pra() == user_space.frame_manager.pra()
                &&& child.frame_manager.frames().len() == 0
                &&& child.page_table.root() == old(allocator).free()[0]
                &&& child.page_table@.contains_key(TRAMPOLINE_VPN)
                &&& child.page_table@[TRAMPOLINE_VPN] == PageTableEntry::spec_new(
                    page_floor(strampoline.0 as int) as u64,
                    0x0b,
                )
                &&& forall|w: u64| #[trigger] child.resident(w) == user_space.resident(w)
                &&& forall|w: u64|
                    user_space.resident(w) ==> (#[trigger] child.frame(w)).data@
                        == user_space.frame(w).data@
                &&& forall|w: u64|
                    user_space.resident(w) ==> child.frame(w).ppn != (#[trigger] user_space.frame(
                        w,
                    )).ppn
            },
    {
        let ghost a0 = *allocator;
        let ghost p0 = p2v@;
        let pra = user_space.frame_manager.used_pra();
        let made = MemorySet::new_with_trampoline(pra, strampoline, p2v, allocator);
        proof {
            lemma_layout_frames_nonneg(user_space.areas@);
            assert(user_space.areas@.take(0) =~= Seq::<MapArea>::empty());
        }
        if made.is_none() {
            return None;
        }
        let mut child = made.unwrap();
        let ghost tramp = child.page_table@[TRAMPOLINE_VPN];
        let n: usize = user_space.areas.len();
        let mut i: usize = 0;
        while i < n
            invariant
                i <= n,
                n == user_space.areas@.len(),
                a0 == *old(allocator),
                p0 == old(p2v)@,
                a0.free().len() >= 3,
                user_space.inv(p0, a0),
                child.inv(p2v@, *allocator),
                Self::born(child, p0, p2v@, a0, *allocator),
                child.frame_manager.pra() == user_space.frame_manager.pra(),
                child.frame_manager.frames().len() == 0,
                child.page_table.root() == a0.free()[0],
                child.page_table@.contains_key(TRAMPOLINE_VPN),
                child.page_table@[TRAMPOLINE_VPN] == tramp,
                child.areas@.len() == i,
                allocator.free().len() + 3 + layout_frames(user_space.areas@.take(i as int))
                    >= a0.free().len(),
                forall|j: int|
                    0 <= j < i ==> Self::same_area(#[trigger] child.areas@[j], user_space.areas@[j]),
                forall|w: u64|
                    #[trigger] child.resident(w) == (user_space.resident(w) && user_space.owner(w)
                        < i),
                forall|w: u64|
                    child.resident(w) ==> (#[trigger] child.frame(w)).data@ == user_space.frame(
                        w,
                    ).data@,
            decreases n - i,
        {
            let ghost c0 = child;
            let area = &user_space.areas[i];
            let start: u64 = area.vpn_range.get_start().0;
            let end: u64 = area.vpn_range.get_end().0;
            let ghost range = area.vpn_range;
            let copy = MapArea::from_another(area);
            proof {
                assert(user_space.areas@[i as int].wf());
                assert forall|j: int| 0 <= j < c0.areas@.len() implies ranges_disjoint(
                    (#[trigger] c0.areas@[j]).vpn_range,
                    copy.vpn_range,
                ) by {
                    assert(Self::same_area(c0.areas@[j], user_space.areas@[j]));
                    assert(ranges_disjoint(
                        user_space.areas@[j].vpn_range,
                        user_space.areas@[i as int].vpn_range,
                    ));
                    user_space.areas@[j].vpn_range.lemma_ordered();
                    user_space.areas@[i as int].vpn_range.lemma_ordered();
                }
            }
            child.areas.push(copy);
            let ghost c1 = child;
            proof {
                assert(c1.areas@.drop_last() =~= c0.areas@);
                assert(c1.areas@.last() == copy);
                c0.lemma_area_pushed(c1);
                c0.lemma_same_residents(c1);
                assert(c1.inv(p2v@, *allocator));
                assert(Self::born(c1, p0, p2v@, a0, *allocator));
                assert forall|j: int| 0 <= j < i + 1 implies Self::same_area(
                    #[trigger] c1.areas@[j],
                    user_space.areas@[j],
                ) by {
                    if j < i {
                        assert(c1.areas@.drop_last()[j] == c1.areas@[j]);
                    }
                }
                assert forall|w: u64| range.contains(w as int) implies !c1.page_table@.contains_key(
                    w,
                ) by {
                    if c0.page_table@.contains_key(w) {
                        assert(w == TRAMPOLINE_VPN || c0.covered(w));
                        if w != TRAMPOLINE_VPN {
                            let j = choose|j: int|
                                0 <= j < c0.areas@.len() && c0.areas@[j].vpn_range.contains(
                                    w as int,
                                );
                            assert(Self::same_area(c0.areas@[j], user_space.areas@[j]));
                            assert(ranges_disjoint(
                                user_space.areas@[j].vpn_range,
                                user_space.areas@[i as int].vpn_range,
                            ));
                        }
                    }
                }
            }
            let ghost framed = user_space.areas@[i as int].map_type == MapType::Framed;
            let ghost dom = user_space.areas@[i as int].frames().dom();
            let ghost mut created: int = 0;
            proof {
                lemma_layout_frames_step(user_space.areas@, i as int);
                lemma_layout_frames_prefix(user_space.areas@, i as int + 1);
            }
            let mut v: u64 = start;
            while v < end
                invariant
                    start <= v <= end,
                    end <= TRAMPOLINE_VPN,
                    i < n,
                    n == user_space.areas@.len(),
                    range == user_space.areas@[i as int].vpn_range,
                    start == range.start(),
                    end == range.end(),
                    a0 == *old(allocator),
                    p0 == old(p2v)@,
                    a0.free().len() >= 3,
                    user_space.inv(p0, a0),
                    child.inv(p2v@, *allocator),
                    Self::born(child, p0, p2v@, a0, *allocator),
                    child.frame_manager.pra() == user_space.frame_manager.pra(),
                    child.frame_manager.frames().len() == 0,
                    child.page_table.root() == a0.free()[0],
                    child.page_table@.contains_key(TRAMPOLINE_VPN),
                    child.page_table@[TRAMPOLINE_VPN] == tramp,
                    child.areas@.len() == i + 1,
                    framed == (user_space.areas@[i as int].map_type == MapType::Framed),
                    dom == user_space.areas@[i as int].frames().dom(),
                    allocator.free().len() + 3 + layout_frames(user_space.areas@.take(i as int))
                        + (if framed {
                        resident_count(dom, start as int, v as int)
                    } else {
                        0
                    }) + 2 * created >= a0.free().len(),
                    0 <= created <= table_span(start as int, v as int),
                    created == table_span(start as int, v as int) && v > start
                        ==> child.page_table.has_table(v - 1),
                    layout_frames(user_space.areas@.take(i as int)) + copy_budget(
                        user_space.areas@[i as int],
                    ) <= layout_frames(user_space.areas@),
                    forall|j: int|
                        0 <= j < i + 1 ==> Self::same_area(
                            #[trigger] child.areas@[j],
                            user_space.areas@[j],
                        ),
                    forall|w: u64|
                        range.contains(w as int) && w >= v ==> !(#[trigger] child.page_table@.contains_key(
                            w,
                        )),
                    forall|w: u64|
                        #[trigger] child.resident(w) == (user_space.resident(w) && (
                        user_space.owner(w) < i || (user_space.owner(w) == i && w < v))),
                    forall|w: u64|
                        child.resident(w) ==> (#[trigger] child.frame(w)).data@
                            == user_space.frame(w).data@,
                decreases end - v,
            {
                let ghost c2 = child;
                let ghost p2 = p2v@;
                let ghost a2 = *allocator;
                let vpn = VirtPageNum(v);
                let source = user_space.areas[i].data_frames.get(&v);
                let mapped_identical: bool = match user_space.areas[i].map_type {
                    MapType::Identical => match user_space.page_table.translate(vpn) {
                        Some(pte) => pte.is_valid(),
                        None => false,
                    },
                    MapType::Framed => false,
                };
                proof {
                    if user_space.resident(v) {
                        let o = user_space.owner(v);
                        assert(user_space.holds(o, v));
                        user_space.lemma_owner(o, v);
                        if o != i {
                            assert(ranges_disjoint(
                                user_space.areas@[o].vpn_range,
                                user_space.areas@[i as int].vpn_range,
                            ));
                        }
                    }
                    if source is Some {
                        assert(user_space.holds(i as int, v));
                        user_space.lemma_owner(i as int, v);
                        assert(user_space.areas@[i as int].map_type == MapType::Framed);
                    }
                }
                let ghost missing = child.page_table.missing_tables(v as int);
                proof {
                    lemma_budget_step(framed, start as int, v as int, end as int);
                    lemma_resident_count(dom, start as int, v as int + 1, end as int);
                    child.page_table.lemma_tables();
                    assert(user_space.areas@[i as int].wf());
                    if !framed {
                        assert(source is None);
                    }
                    assert(source is Some == dom.contains(v));
                    if created == table_span(start as int, v as int) && v > start && v % 512 != 0 {
                        assert(child.page_table.has_table(v as int));
                        assert(missing == 0);
                    }
                }
                if source.is_some() || mapped_identical {
                    let need: usize = child.page_table.tables_needed(vpn) + (
                    match child.areas[i].map_type {
                        MapType::Framed => 1usize,
                        MapType::Identical => 0usize,
                    });
                    if !allocator.has_free(need) {
                        return None;
                    }
                    child.map_page(i, vpn, p2v, allocator);
                    let ghost c3 = child;
                    proof {
                        if missing > 0 {
                            created = created + 1;
                        }
                        assert(c3.page_table@.contains_key(v));
                        assert(c3.page_table.has_table(v as int));
                        Self::lemma_born_grown(c2, c3, p0, p2, p2v@, a0, a2, *allocator);
                        assert(c3.page_table@.contains_key(TRAMPOLINE_VPN));
                        assert(c3.page_table@[TRAMPOLINE_VPN] == c2.page_table@[TRAMPOLINE_VPN]);
                        assert forall|w: u64| range.contains(w as int) && w >= v + 1 implies !(
                        #[trigger] c3.page_table@.contains_key(w)) by {
                            assert(c3.page_table@.dom().contains(w) == c2.page_table@.dom().insert(
                                v,
                            ).contains(w));
                        }
                    }
                    match source {
                        Some(frame) => {
                            proof {
                                assert(user_space.areas@[i as int].wf());
                                assert(frame.wf());
                                assert(c3.resident(v));
                            }
                            child.write_page(vpn, 0, frame.data.as_slice());
                            proof {
                                let c4 = child;
                                c3.lemma_redone_of_written(c4, v);
                                c3.lemma_redone(c4);
                                assert(c4.frame(v).data@ =~= frame.data@) by {
                                    assert(overwritten(c3.frame(v).data@, 0, frame.data@)
                                        =~= frame.data@);
                                }
                                assert forall|w: u64| c4.resident(w) implies (#[trigger] c4.frame(
                                    w,
                                )).data@ == user_space.frame(w).data@ by {
                                    if w != v {
                                        assert(c3.resident(w));
                                        assert(c2.resident(w));
                                        assert(c4.frame(w) == c3.frame(w));
                                        assert(c3.frame(w) == c2.frame(w));
                                    }
                                }
                                assert(Self::born(c4, p0, p2v@, a0, *allocator));
                                assert forall|j: int| 0 <= j < i + 1 implies Self::same_area(
                                    #[trigger] c4.areas@[j],
                                    user_space.areas@[j],
                                ) by {
                                    assert(Self::same_area(c3.areas@[j], c2.areas@[j]));
                                }
                            }
                        },
                        None => {
                            proof {
                                assert forall|w: u64| c3.resident(w) implies (#[trigger] c3.frame(
                                    w,
                                )).data@ == user_space.frame(w).data@ by {
                                    assert(c2.resident(w));
                                    assert(c3.frame(w) == c2.frame(w));
                                }
                                assert forall|j: int| 0 <= j < i + 1 implies Self::same_area(
                                    #[trigger] c3.areas@[j],
                                    user_space.areas@[j],
                                ) by {}
                            }
                        },
                    }
                }
                v = v + 1;
            }
            proof {
                assert forall|w: u64|
                    #[trigger] child.resident(w) == (user_space.resident(w) && user_space.owner(w)
                        < i + 1) by {
                    if user_space.resident(w) && user_space.owner(w) == i {
                        let o = user_space.owner(w);
                        assert(user_space.holds(o, w));
                        user_space.lemma_owner(o, w);
                    }
                }
                lemma_layout_frames_step(user_space.areas@, i as int);
                if framed {
                    assert(dom == user_space.areas@[i as int].frames().dom());
                }
            }
            i = i + 1;
        }
        proof {
            assert forall|w: u64| #[trigger] child.resident(w) == user_space.resident(w) by {
                if user_space.resident(w) {
                    let o = user_space.owner(w);
                    assert(user_space.holds(o, w));
                }
            }
            assert forall|w: u64| user_space.resident(w) implies child.frame(w).ppn != (
            #[trigger] user_space.frame(w)).ppn by {
                let p = user_space.frame(w).ppn.0;
                assert(user_space.owns(p));
                user_space.lemma_owns_allocated(p, p0, a0);
                assert(child.resident(w));
                assert(child.owns(child.frame(w).ppn.0));
            }
        }
        Some(child)
    }

    /// Other bytes in the frame of a page keep the invariant of the space.
    pub proof fn lemma_written_inv(self, after: MemorySet, vpn: u64)
        requires
            self.page_written(after, vpn),
            self.resident(vpn),
            self.areas_wf(),
            after.areas_wf(),
        ensures
            forall|p2v: Map<u64, u64>| #[trigger] self.consistent(p2v) ==> after.consistent(p2v),
            forall|al: StackFrameAllocator| #[trigger]
                self.allocated_by(al) ==> after.allocated_by(al),
    {
        let before = self;
        assert forall|i: int, w: u64| #[trigger] after.holds(i, w) implies before.holds(i, w)
            && after.areas@[i].frames()[w].ppn == before.areas@[i].frames()[w].ppn by {
            after.lemma_owner(i, w);
            assert(before.resident(w));
            let j = before.owner(w);
            assert(before.holds(j, w));
            before.lemma_owner(j, w);
            if i != j {
                assert(ranges_disjoint(before.areas@[i].vpn_range, before.areas@[j].vpn_range));
            }
            if w != vpn {
                assert(after.frame(w) == before.frame(w));
            }
        }
        assert forall|p2v: Map<u64, u64>| #[trigger] before.consistent(p2v) implies after.consistent(
            p2v,
        ) by {
            assert(after.framed_resident()) by {
                assert forall|i: int, w: u64|
                    0 <= i < after.areas@.len() && after.areas@[i].map_type == MapType::Framed
                        && #[trigger] after.areas@[i].vpn_range.contains(w as int)
                        && after.page_table@.contains_key(w) implies after.holds(i, w) by {
                    assert(before.areas@[i].vpn_range.contains(w as int));
                    assert(before.holds(i, w));
                    assert(before.resident(w));
                    assert(after.resident(w));
                    let j = after.owner(w);
                    assert(after.holds(j, w));
                    after.lemma_owner(j, w);
                    if i != j {
                        assert(ranges_disjoint(
                            after.areas@[i].vpn_range,
                            after.areas@[j].vpn_range,
                        ));
                    }
                }
            }
            assert(after.frames_mapped(p2v)) by {
                assert forall|i: int, w: u64| #[trigger] after.holds(i, w) implies {
                    let f = after.areas@[i].frames()[w];
                    let pt = after.page_table@;
                    &&& pt.contains_key(w)
                    &&& pt[w].spec_ppn() == f.ppn.0
                    &&& pt[w].spec_flags() & 0x3f == after.areas@[i].map_perm.bits | 0x01
                    &&& p2v.contains_key(f.ppn.0)
                    &&& p2v[f.ppn.0] == w
                    &&& !after.page_table.table_frames().contains(f.ppn.0)
                } by {
                    assert(before.holds(i, w));
                }
            }
            assert(after.manager_tracks(p2v)) by {
                assert forall|k: int| 0 <= k < after.frame_manager.frames().len() implies {
                    let p = #[trigger] after.frame_manager.frames()[k];
                    &&& p2v.contains_key(p)
                    &&& after.resident(p2v[p])
                    &&& after.frame(p2v[p]).ppn.0 == p
                } by {
                    let p = before.frame_manager.frames()[k];
                    assert(before.resident(p2v[p]));
                    if p2v[p] != vpn {
                        assert(after.frame(p2v[p]) == before.frame(p2v[p]));
                    }
                }
            }
            assert(after.mapped_in_areas()) by {
                assert forall|w: u64| #[trigger]
                    after.page_table@.contains_key(w) implies w == TRAMPOLINE_VPN || after.covered(
                    w,
                ) by {
                    if w != TRAMPOLINE_VPN {
                        let i = choose|i: int|
                            0 <= i < before.areas@.len() && before.areas@[i].vpn_range.contains(
                                w as int,
                            );
                        assert(after.areas@[i].vpn_range.contains(w as int));
                    }
                }
            }
        }
        assert forall|al: StackFrameAllocator| #[trigger]
            before.allocated_by(al) implies after.allocated_by(al) by {
            assert forall|i: int, w: u64| #[trigger] after.holds(i, w) implies al.allocated(
                after.areas@[i].frames()[w].ppn.0,
            ) by {
                assert(before.holds(i, w));
            }
        }
    }

    /// A page with other bytes is a space with other bytes.
    pub proof fn lemma_redone_of_written(self, after: MemorySet, vpn: u64)
        requires
            self.page_written(after, vpn),
            self.resident(vpn),
            self.areas_wf(),
        ensures
            self.redone(after),
    {
        assert forall|w: u64| self.resident(w) implies (#[trigger] after.frame(w)).ppn
            == self.frame(w).ppn && after.frame(w).wf() by {
            if w != vpn {
                assert(after.frame(w) == self.frame(w));
                let i = self.owner(w);
                assert(self.holds(i, w));
                assert(self.areas@[i].wf());
            }
        }
    }
}

/// What the loader reads of one program header of an ELF file.
#[derive(Copy, Clone, Debug)]
pub struct ProgramHeader {
    /// Whether the segment is to be loaded.
    pub is_load: bool,
    pub virtual_addr: u64,
    pub mem_size: u64,
    /// Where the bytes of the segment start in the file.
    pub offset: u64,
    pub file_size: u64,
    /// The flags of the segment: 1 execute, 2 write, 4 read.
    pub flags: u32,
}

/// What the loader reads of the headers of an ELF file.
pub struct ElfImage {
    pub magic: [u8; 4],
    pub entry_point: u64,
    pub program_headers: Vec<ProgramHeader>,
}

/// Why a program cannot be loaded.
#[derive(Copy, Clone, PartialEq, Eq, Structural, Debug)]
pub enum ElfError {
    /// The file does not start with the ELF magic number.
    BadMagic,
    /// A segment to load is malformed, reaches past the file or the
    /// address space, or touches pages of an earlier one.
    BadSegment,
    /// The free frames do not suffice.
    OutOfFrames,
}

/// The permissions of a segment with the ELF flags `flags`: user, and the
/// same of read, write and execute.
pub open spec fn elf_permission(flags: u32) -> u8 {
    (16 + (if flags & 4 == 4 {
        2int
    } else {
        0int
    }) + (if flags & 2 == 2 {
        4int
    } else {
        0int
    }) + (if flags & 1 == 1 {
        8int
    } else {
        0int
    })) as u8
}

/// Number of segments to load among the first `h` program headers.
pub open spec fn loads_before(headers: Seq<ProgramHeader>, h: int) -> int
    decreases h,
{
    if h <= 0 {
        0
    } else {
        loads_before(headers, h - 1) + (if headers[h - 1].is_load {
            1int
        } else {
            0int
        })
    }
}

/// Whether the segment of `ph` fits the address space and a file of
/// `data_len` bytes, and has room for its bytes in its pages.
pub open spec fn segment_ok(ph: ProgramHeader, data_len: int) -> bool {
    &&& ph.virtual_addr + ph.mem_size <= 0x7f_ffff_f000
    &&& ph.offset + ph.file_size <= data_len
    &&& ph.file_size <= (page_ceil(ph.virtual_addr + ph.mem_size) - page_floor(
        ph.virtual_addr as int,
    )) * 4096
}

/// Whether the segments of `a` and `b` share no page.
pub open spec fn segments_apart(a: ProgramHeader, b: ProgramHeader) -> bool {
    !(page_floor(a.virtual_addr as int) < page_ceil(b.virtual_addr + b.mem_size) && page_floor(
        b.virtual_addr as int,
    ) < page_ceil(a.virtual_addr + a.mem_size))
}

/// Whether the segments to load among the first `upto` headers can be
/// loaded: each is well formed and shares no page with an earlier one.
pub open spec fn elf_ok(headers: Seq<ProgramHeader>, upto: int, data_len: int) -> bool {
    forall|h: int|
        0 <= h < upto && (#[trigger] headers[h]).is_load ==> {
            &&& segment_ok(headers[h], data_len)
            &&& forall|g: int|
                0 <= g < h && (#[trigger] headers[g]).is_load ==> segments_apart(
                    headers[g],
                    headers[h],
                )
        }
}

/// Number of frames that suffice to load the segments among the first `h`
/// program headers: see `area_budget`.
pub open spec fn segment_frames(headers: Seq<ProgramHeader>, h: int) -> int
    decreases h,
{
    if h <= 0 {
        0
    } else {
        segment_frames(headers, h - 1) + (if headers[h - 1].is_load {
            area_budget(
                true,
                page_floor(headers[h - 1].virtual_addr as int),
                page_ceil(headers[h - 1].virtual_addr + headers[h - 1].mem_size),
            )
        } else {
            0int
        })
    }
}

/// The segments take no fewer frames than the first `h` of them do.
pub proof fn lemma_segment_frames_prefix(headers: Seq<ProgramHeader>, h: int, data_len: int)
    requires
        0 <= h <= headers.len(),
        elf_ok(headers, headers.len() as int, data_len),
    ensures
        0 <= segment_frames(headers, h) <= segment_frames(headers, headers.len() as int),
    decreases headers.len() - h,
{
    if h < headers.len() {
        lemma_segment_frames_prefix(headers, h + 1, data_len);
        if headers[h].is_load {
            assert(segment_ok(headers[h], data_len));
        }
    }
    lemma_segment_frames_nonneg(headers, h, data_len);
}

/// The segments take no negative number of frames.
pub proof fn lemma_segment_frames_nonneg(headers: Seq<ProgramHeader>, h: int, data_len: int)
    requires
        0 <= h <= headers.len(),
        elf_ok(headers, headers.len() as int, data_len),
    ensures
        0 <= segment_frames(headers, h),
    decreases h,
{
    if h > 0 {
        lemma_segment_frames_nonneg(headers, h - 1, data_len);
        if headers[h - 1].is_load {
            assert(segment_ok(headers[h - 1], data_len));
        }
    }
}

/// Whether area `idx` of `ms` holds the segment of `ph` of the file
/// `data`: it covers the pages of the segment with its permissions, and
/// its frames hold the bytes of the segment from the first page on, then
/// zeros.
pub open spec fn holds_segment(ms: MemorySet, idx: int, ph: ProgramHeader, data: Seq<u8>) -> bool {
    let area = ms.areas@[idx];
    let bytes = data.subrange(ph.offset as int, ph.offset + ph.file_size);
    &&& area.map_type == MapType::Framed
    &&& area.vpn_range.start() == page_floor(ph.virtual_addr as int)
    &&& area.vpn_range.end() == page_ceil(ph.virtual_addr + ph.mem_size)
    &&& area.map_perm.bits == elf_permission(ph.flags)
    &&& ms.fully_mapped(idx)
    &&& forall|w: u64|
        area.vpn_range.contains(w as int) ==> (#[trigger] ms.frame(w)).data@ == overwritten(
            zero_page(),
            0,
            page_chunk(bytes, w - area.vpn_range.start()),
        )
}

impl MemorySet {
    /// The address space of a program: the trampoline, and one framed
    /// area for each segment to load, in the order of the program headers
    /// `elf`, with the permissions of the segment and access from user
    /// mode, all pages resident and filled from the file `elf_data`.
    /// Returns the space, the address of the base of the user stack, one
    /// page above the last segment, and the entry point.
    #[verifier::rlimit(60)]
    pub fn from_elf(
        elf: &ElfImage,
        elf_data: &[u8],
        pra: PRA,
        strampoline: crate::mm::address::PhysAddr,
        p2v: &mut ReverseMap,
        allocator: &mut StackFrameAllocator,
    ) -> (r: Result<(MemorySet, u64, u64), ElfError>)
        requires
            old(allocator).wf(),
            old(allocator).limit() <= 0x1000_0000_0000,
        ensures
            (r is Err && r->Err_0 == ElfError::BadMagic) == !(elf.magic@ == seq![
                0x7fu8,
                0x45u8,
                0x4cu8,
                0x46u8,
            ]),
            r is Err && r->Err_0 == ElfError::BadSegment ==> !elf_ok(
                elf.program_headers@,
                elf.program_headers@.len() as int,
                elf_data@.len() as int,
            ),
            r is Err && r->Err_0 == ElfError::OutOfFrames ==> final(allocator).free().len() < 3,
            elf.magic@ == seq![0x7fu8, 0x45u8, 0x4cu8, 0x46u8] && elf_ok(
                elf.program_headers@,
                elf.program_headers@.len() as int,
                elf_data@.len() as int,
            ) && old(allocator).free().len() >= 3 + segment_frames(
                elf.program_headers@,
                elf.program_headers@.len() as int,
            ) ==> r is Ok,
            r is Ok ==> {
                let ms = (r->Ok_0).0;
                let headers = elf.program_headers@;
                let n = headers.len() as int;
                &&& elf_ok(headers, n, elf_data@.len() as int)
                &&& ms.inv(final(p2v)@, *final(allocator))
                &&& Self::born(ms, old(p2v)@, final(p2v)@, *old(allocator), *final(allocator))
                &&& ms.frame_manager.pra() == pra
                &&& ms.frame_manager.frames().len() == 0
                &&& ms.page_table.root() == old(allocator).free()[0]
                &&& ms.page_table@.contains_key(TRAMPOLINE_VPN)
                &&& ms.page_table@[TRAMPOLINE_VPN] == PageTableEntry::spec_new(
                    page_floor(strampoline.0 as int) as u64,
                    0x0b,
                )
                &&& ms.areas@.len() == loads_before(headers, n)
                &&& forall|h: int|
                    0 <= h < n && (#[trigger] headers[h]).is_load ==> holds_segment(
                        ms,
                        loads_before(headers, h),
                        headers[h],
                        elf_data@,
                    )
                &&& (r->Ok_0).1 == (if ms.areas@.len() == 0 {
                    4096
                } else {
                    ms.areas@.last().vpn_range.end() * 4096 + 4096
                })
                &&& (r->Ok_0).2 == elf.entry_point
            },
    {
        if !(elf.magic[0] == 0x7f && elf.magic[1] == 0x45 && elf.magic[2] == 0x4c && elf.magic[3]
            == 0x46) {
            assert(!(elf.magic@ =~= seq![0x7fu8, 0x45u8, 0x4cu8, 0x46u8]));
            return Err(ElfError::BadMagic);
        }
        assert(elf.magic@ =~= seq![0x7fu8, 0x45u8, 0x4cu8, 0x46u8]);
        let ghost a0 = *allocator;
        let ghost p0 = p2v@;
        let ghost headers = elf.program_headers@;
        let ghost data_len = elf_data@.len() as int;
        let made = MemorySet::new_with_trampoline(pra, strampoline, p2v, allocator);
        if made.is_none() {
            proof {
                if elf_ok(headers, headers.len() as int, data_len) {
                    lemma_segment_frames_nonneg(headers, headers.len() as int, data_len);
                }
            }
            return Err(ElfError::OutOfFrames);
        }
        let mut ms = made.unwrap();
        let ghost tramp = ms.page_table@[TRAMPOLINE_VPN];
        let mut max_end_vpn: u64 = 0;
        let ghost mut origin: Seq<int> = Seq::empty();
        let n: usize = elf.program_headers.len();
        let mut h: usize = 0;
        while h < n
            invariant
                h <= n,
                n == headers.len(),
                headers == elf.program_headers@,
                data_len == elf_data@.len(),
                elf.magic@ == seq![0x7fu8, 0x45u8, 0x4cu8, 0x46u8],
                a0 == *old(allocator),
                p0 == old(p2v)@,
                a0.free().len() >= 3,
                elf_ok(headers, h as int, data_len),
                allocator.free().len() + 3 + segment_frames(headers, h as int)
                    >= a0.free().len(),
                ms.inv(p2v@, *allocator),
                Self::born(ms, p0, p2v@, a0, *allocator),
                ms.frame_manager.pra() == pra,
                ms.frame_manager.frames().len() == 0,
                ms.page_table.root() == a0.free()[0],
                ms.page_table@.contains_key(TRAMPOLINE_VPN),
                ms.page_table@[TRAMPOLINE_VPN] == tramp,
                tramp == PageTableEntry::spec_new(page_floor(strampoline.0 as int) as u64, 0x0b),
                ms.areas@.len() == loads_before(headers, h as int),
                origin.len() == ms.areas@.len(),
                forall|i: int|
                    0 <= i < origin.len() ==> 0 <= #[trigger] origin[i] < h
                        && headers[origin[i]].is_load && loads_before(headers, origin[i]) == i,
                forall|g: int|
                    0 <= g < h && (#[trigger] headers[g]).is_load ==> holds_segment(
                        ms,
                        loads_before(headers, g),
                        headers[g],
                        elf_data@,
                    ) && 0 <= loads_before(headers, g) < ms.areas@.len(),
                max_end_vpn == (if ms.areas@.len() == 0 {
                    0
                } else {
                    ms.areas@.last().vpn_range.end()
                }),
                max_end_vpn <= TRAMPOLINE_VPN,
            decreases n - h,
        {
            let ph = elf.program_headers[h];
            let ghost m1 = ms;
            let ghost p1 = p2v@;
            let ghost a1 = *allocator;
            let ghost c = m1.areas@.len() as int;
            if ph.is_load {
                if ph.mem_size > 0x7f_ffff_f000 || ph.virtual_addr > 0x7f_ffff_f000 - ph.mem_size {
                    assert(!segment_ok(headers[h as int], data_len));
                    return Err(ElfError::BadSegment);
                }
                let start: u64 = ph.virtual_addr;
                let end: u64 = ph.virtual_addr + ph.mem_size;
                let len: usize = elf_data.len();
                if ph.file_size > len as u64 || ph.offset > len as u64 - ph.file_size {
                    assert(!segment_ok(headers[h as int], data_len));
                    return Err(ElfError::BadSegment);
                }
                let first: u64 = start / 4096;
                let last: u64 = if end % 4096 == 0 {
                    end / 4096
                } else {
                    end / 4096 + 1
                };
                if ph.file_size > (last - first) * 4096 {
                    assert(!segment_ok(headers[h as int], data_len));
                    return Err(ElfError::BadSegment);
                }
                let mut bits: u8 = 16;
                if ph.flags & 4 == 4 {
                    bits = bits + 2;
                }
                if ph.flags & 2 == 2 {
                    bits = bits + 4;
                }
                if ph.flags & 1 == 1 {
                    bits = bits + 8;
                }
                assert(bits == elf_permission(ph.flags));
                assert(bits & 0xe1 == 0) by (bit_vector)
                    requires
                        bits == 16 || bits == 18 || bits == 20 || bits == 22 || bits == 24 || bits
                            == 26 || bits == 28 || bits == 30,
                ;
                let permission = MapPermission { bits };
                let outcome = ms.try_kpush(start, end, MapType::Framed, permission, p2v, allocator);
                match outcome {
                    PushOutcome::Refused => {
                        proof {
                            let i = choose|i: int|
                                0 <= i < m1.areas@.len() && (#[trigger] m1.areas@[i]).vpn_range.start()
                                    < last && first < m1.areas@[i].vpn_range.end();
                            let g = origin[i];
                            assert(headers[g].is_load);
                            assert(holds_segment(m1, loads_before(headers, g), headers[g], elf_data@));
                            assert(!segments_apart(headers[g], headers[h as int]));
                            assert(!elf_ok(headers, n as int, data_len)) by {
                                if elf_ok(headers, n as int, data_len) {
                                    assert(headers[h as int].is_load);
                                    assert(segments_apart(headers[g], headers[h as int]));
                                }
                            }
                        }
                        return Err(ElfError::BadSegment);
                    },
                    PushOutcome::Exhausted => {
                        proof {
                            if elf_ok(headers, n as int, data_len) {
                                lemma_segment_frames_prefix(headers, h as int + 1, data_len);
                            }
                        }
                        return Err(ElfError::OutOfFrames);
                    },
                    PushOutcome::Mapped => {},
                }
                let ghost m2 = ms;
                proof {
                    Self::lemma_born_grown(m1, m2, p0, p1, p2v@, a0, a1, *allocator);
                    assert(m2.page_table@.contains_key(TRAMPOLINE_VPN));
                    assert(m2.page_table@[TRAMPOLINE_VPN] == m1.page_table@[TRAMPOLINE_VPN]);
                    assert(m2.areas@[c] == m2.areas@.last());
                }
                let from: usize = ph.offset as usize;
                let to: usize = (ph.offset + ph.file_size) as usize;
                let bytes = vstd::slice::slice_subrange(elf_data, from, to);
                let idx: usize = ms.areas.len() - 1;
                ms.copy_data(idx, bytes);
                max_end_vpn = last;
                proof {
                    let m3 = ms;
                    m2.lemma_redone(m3);
                    origin = origin.push(h as int);
                    assert(Self::born(m3, p0, p2v@, a0, *allocator));
                    assert forall|j: int| 0 <= j < m3.areas@.len() implies Self::same_area(
                        #[trigger] m3.areas@[j],
                        m2.areas@[j],
                    ) by {}
                    assert(m3.areas@[c].vpn_range == m2.areas@[c].vpn_range);
                    // The frames of the earlier segments are as they were.
                    assert forall|g: int|
                        0 <= g < h + 1 && (#[trigger] headers[g]).is_load implies holds_segment(
                        m3,
                        loads_before(headers, g),
                        headers[g],
                        elf_data@,
                    ) && 0 <= loads_before(headers, g) < m3.areas@.len() by {
                        let k = loads_before(headers, g);
                        if g < h {
                            assert(holds_segment(m1, k, headers[g], elf_data@));
                            assert(Self::same_area(m2.areas@[k], m1.areas@[k]));
                            assert(Self::same_area(m3.areas@[k], m2.areas@[k]));
                            let area = m1.areas@[k];
                            assert(ranges_disjoint_spec(m2, k, c));
                            assert forall|w: u64| #[trigger]
                                m3.areas@[k].vpn_range.contains(w as int) implies {
                                &&& m3.page_table@.contains_key(w)
                                &&& m3.holds(k, w)
                                &&& m3.frame(w).data@ == m1.frame(w).data@
                            } by {
                                assert(area.vpn_range.contains(w as int));
                                assert(m1.page_table@.contains_key(w));
                                assert(m1.holds(k, w));
                                m1.lemma_owner(k, w);
                                assert(m2.resident(w));
                                assert(m2.frame(w) == m1.frame(w));
                                assert(m3.resident(w));
                                let o = m3.owner(w);
                                assert(m3.holds(o, w));
                                m3.lemma_owner(o, w);
                                if o != k {
                                    assert(ranges_disjoint_spec(m3, o, k));
                                }
                                assert(m2.page_table@.contains_key(w));
                            }
                        } else {
                            assert(k == c);
                            assert(m2.fully_mapped(c));
                            assert forall|w: u64| #[trigger]
                                m3.areas@[c].vpn_range.contains(w as int) implies {
                                &&& m3.page_table@.contains_key(w)
                                &&& m3.holds(c, w)
                                &&& m3.frame(w).data@ == overwritten(
                                    zero_page(),
                                    0,
                                    page_chunk(bytes@, w - m3.areas@[c].vpn_range.start()),
                                )
                            } by {
                                assert(m2.areas@[c].vpn_range.contains(w as int));
                                assert(m2.holds(c, w));
                                m2.lemma_owner(c, w);
                                assert(m3.resident(w));
                                let o = m3.owner(w);
                                assert(m3.holds(o, w));
                                m3.lemma_owner(o, w);
                                if o != c {
                                    assert(ranges_disjoint_spec(m3, o, c));
                                }
                            }
                        }
                    }
                    assert(elf_ok(headers, h as int + 1, data_len)) by {
                        assert forall|q: int|
                            0 <= q < h + 1 && (#[trigger] headers[q]).is_load implies {
                            &&& segment_ok(headers[q], data_len)
                            &&& forall|g: int|
                                0 <= g < q && (#[trigger] headers[g]).is_load ==> segments_apart(
                                    headers[g],
                                    headers[q],
                                )
                        } by {
                            if q == h {
                                assert forall|g: int|
                                    0 <= g < q && (#[trigger] headers[g]).is_load implies segments_apart(
                                    headers[g],
                                    headers[q],
                                ) by {
                                    let k = loads_before(headers, g);
                                    assert(holds_segment(m1, k, headers[g], elf_data@));
                                    assert(m1.areas@[k].vpn_range.start() == page_floor(
                                        headers[g].virtual_addr as int,
                                    ));
                                }
                            }
                        }
                    }
                }
            }
            h = h + 1;
        }
        let user_stack_base: u64 = max_end_vpn * 4096 + 4096;
        Ok((ms, user_stack_base, elf.entry_point))
    }
}

/// Whether areas `i` and `j` of `ms` share no page.
pub open spec fn ranges_disjoint_spec(ms: MemorySet, i: int, j: int) -> bool {
    ranges_disjoint(ms.areas@[i].vpn_range, ms.areas@[j].vpn_range)
}

impl MemorySet {
    /// Appends a framed area over the pages that `[start_va, end_va)`
    /// touches and maps all of them at once, each to a cleared frame of its
    /// own, without telling the replacement policy: for memory of the
    /// kernel, which never leaves. Returns `false`, with the area mapped
    /// in part, where the free frames do not suffice.
    pub fn insert_framed_area_kernel(
        &mut self,
        start_va: VirtAddr,
        end_va: VirtAddr,
        permission: MapPermission,
        p2v: &mut ReverseMap,
        allocator: &mut StackFrameAllocator,
    ) -> (r: bool)
        requires
            old(self).inv(old(p2v)@, *old(allocator)),
            permission.wf(),
            range_ok(start_va.0, end_va.0),
            !old(self).overlaps(page_floor(start_va.0 as int), page_ceil(end_va.0 as int)),
        ensures
            final(self).inv(final(p2v)@, *final(allocator)),
            old(self).grown(*final(self), old(p2v)@, final(p2v)@, *old(allocator), *final(allocator)),
            final(self).areas@.len() == old(self).areas@.len() + 1,
            final(self).areas@.last().vpn_range.start() == page_floor(start_va.0 as int),
            final(self).areas@.last().vpn_range.end() == page_ceil(end_va.0 as int),
            final(self).areas@.last().map_type == MapType::Framed,
            final(self).areas@.last().map_perm == permission,
            forall|i: int|
                0 <= i < old(self).areas@.len() ==> Self::same_area(
                    #[trigger] final(self).areas@[i],
                    old(self).areas@[i],
                ),
            r ==> final(self).fully_mapped(old(self).areas@.len() as int),
            r ==> forall|w: u64|
                final(self).areas@.last().vpn_range.contains(w as int) ==> (#[trigger] final(self).frame(w)).data@ == zero_page(),
            !r ==> final(allocator).free().len() < 3,
            old(allocator).free().len() >= area_budget(
                true,
                page_floor(start_va.0 as int),
                page_ceil(end_va.0 as int),
            ) ==> r,
            final(allocator).free().len() + area_budget(
                true,
                page_floor(start_va.0 as int),
                page_ceil(end_va.0 as int),
            ) >= old(allocator).free().len(),
    {
        match self.try_kpush(start_va.0, end_va.0, MapType::Framed, permission, p2v, allocator) {
            PushOutcome::Mapped => true,
            _ => false,
        }
    }

    /// Appends `map_area`. With `data`, maps all of its pages at once and
    /// copies `data` into them from the first page on; without, maps
    /// nothing. Returns `false`, with the area mapped in part and nothing
    /// copied, where the free frames do not suffice.
    #[verifier::rlimit(60)]
    pub fn push(
        &mut self,
        map_area: MapArea,
        data: Option<&[u8]>,
        p2v: &mut ReverseMap,
        allocator: &mut StackFrameAllocator,
    ) -> (r: bool)
        requires
            old(self).inv(old(p2v)@, *old(allocator)),
            map_area.wf(),
            forall|w: u64| !map_area.frames().contains_key(w),
            forall|i: int|
                0 <= i < old(self).areas@.len() ==> ranges_disjoint(
                    (#[trigger] old(self).areas@[i]).vpn_range,
                    map_area.vpn_range,
                ),
            data is Some ==> map_area.map_type == MapType::Framed && (data->0)@.len() <= (
            map_area.vpn_range.end() - map_area.vpn_range.start()) * 4096,
        ensures
            final(self).inv(final(p2v)@, *final(allocator)),
            final(self).areas@.len() == old(self).areas@.len() + 1,
            Self::same_area(final(self).areas@.last(), map_area),
            forall|i: int|
                0 <= i < old(self).areas@.len() ==> Self::same_area(
                    #[trigger] final(self).areas@[i],
                    old(self).areas@[i],
                ),
            data is None ==> r && old(self).same_residents(*final(self)) && *final(p2v) == *old(p2v)
                && *final(allocator) == *old(allocator),
            data is Some && r ==> {
                &&& final(self).fully_mapped(old(self).areas@.len() as int)
                &&& forall|w: u64|
                    map_area.vpn_range.contains(w as int) ==> (#[trigger] final(self).frame(
                        w,
                    )).data@ == overwritten(
                        zero_page(),
                        0,
                        page_chunk((data->0)@, w - map_area.vpn_range.start()),
                    )
                &&& forall|w: u64|
                    old(self).resident(w) ==> final(self).resident(w) && (#[trigger] final(self).frame(w)).data@ == old(self).frame(w).data@
            },
            !r ==> final(allocator).free().len() < 3,
            old(allocator).free().len() >= area_budget(
                map_area.map_type == MapType::Framed,
                map_area.vpn_range.start(),
                map_area.vpn_range.end(),
            ) ==> r,
            final(allocator).free().len() + area_budget(
                map_area.map_type == MapType::Framed,
                map_area.vpn_range.start(),
                map_area.vpn_range.end(),
            ) >= old(allocator).free().len(),
    {
        let ghost m0 = *self;
        proof {
            map_area.vpn_range.lemma_ordered();
        }
        match data {
            Some(bytes) => {
                let ghost range = map_area.vpn_range;
                if !self.kpush(map_area, p2v, allocator) {
                    return false;
                }
                let idx: usize = self.areas.len() - 1;
                let ghost m1 = *self;
                self.copy_data(idx, bytes);
                proof {
                    let m2 = *self;
                    m1.lemma_redone(m2);
                    assert forall|i: int| 0 <= i < m0.areas@.len() implies Self::same_area(
                        #[trigger] m2.areas@[i],
                        m0.areas@[i],
                    ) by {
                        assert(Self::same_area(m2.areas@[i], m1.areas@[i]));
                    }
                    assert(m2.fully_mapped(idx as int)) by {
                        assert forall|w: u64| #[trigger]
                            m2.areas@[idx as int].vpn_range.contains(w as int) implies {
                            &&& m2.page_table@.contains_key(w)
                            &&& m2.holds(idx as int, w)
                        } by {
                            assert(m1.areas@[idx as int].vpn_range.contains(w as int));
                            assert(m1.holds(idx as int, w));
                            m1.lemma_owner(idx as int, w);
                            assert(m2.resident(w));
                            let o = m2.owner(w);
                            assert(m2.holds(o, w));
                            m2.lemma_owner(o, w);
                            if o != idx {
                                assert(ranges_disjoint_spec(m2, o, idx as int));
                            }
                        }
                    }
                    assert forall|w: u64| range.contains(w as int) implies (#[trigger] m2.frame(
                        w,
                    )).data@ == overwritten(
                        zero_page(),
                        0,
                        page_chunk(bytes@, w - range.start()),
                    ) by {
                        assert(m1.areas@[idx as int].vpn_range.contains(w as int));
                        assert(m1.holds(idx as int, w));
                        m1.lemma_owner(idx as int, w);
                    }
                    assert forall|w: u64| m0.resident(w) implies m2.resident(w) && (
                    #[trigger] m2.frame(w)).data@ == m0.frame(w).data@ by {
                        assert(m1.resident(w));
                        assert(m1.frame(w) == m0.frame(w));
                        let o = m0.owner(w);
                        assert(m0.holds(o, w));
                        m0.lemma_owner(o, w);
                        assert(ranges_disjoint(m0.areas@[o].vpn_range, range));
                        assert(!m1.areas@[idx as int].vpn_range.contains(w as int));
                    }
                }
                true
            },
            None => {
                self.areas.push(map_area);
                proof {
                    assert(self.areas@.drop_last() =~= m0.areas@);
                    assert(self.areas@.last() == map_area);
                    m0.lemma_area_pushed(*self);
                    assert forall|i: int| 0 <= i < m0.areas@.len() implies Self::same_area(
                        #[trigger] self.areas@[i],
                        m0.areas@[i],
                    ) by {
                        assert(self.areas@.drop_last()[i] == self.areas@[i]);
                    }
                }
                true
            },
        }
    }

    /// The pages that some area of this space covers.
    pub open spec fn covered_pages(self) -> Set<u64> {
        Set::new(|w: u64| self.covered(w))
    }

    /// Gives up all areas of the space: unmaps every page, gives the
    /// frames of the resident ones back and takes them off the reverse map.
    /// The page table stays, with the trampoline.
    #[verifier::rlimit(60)]
    pub fn recycle_data_pages(&mut self, p2v: &mut ReverseMap, allocator: &mut StackFrameAllocator)
        requires
            old(self).inv(old(p2v)@, *old(allocator)),
        ensures
            final(self).inv(final(p2v)@, *final(allocator)),
            final(self).areas@.len() == 0,
            old(self).cleared(
                *final(self),
                old(self).covered_pages(),
                old(p2v)@,
                final(p2v)@,
                *old(allocator),
                *final(allocator),
            ),
            forall|dir: Map<(u64, u64), usize>| #[trigger]
                old(self).swap_free(dir) ==> final(self).swap_free(dir),
    {
        let ghost m0 = *self;
        let ghost p0 = p2v@;
        let ghost a0 = *allocator;
        let ghost n = m0.areas@.len() as int;
        proof {
            assert(m0.frames_in(p0, Set::<u64>::empty()) =~= Set::<u64>::empty());
            lemma_select_none(m0.frame_manager.frames(), Set::<u64>::empty());
            assert forall|p: u64| #[trigger] m0.owns(p) == (m0.owns(p) && !m0.frames_in(
                p0,
                Set::<u64>::empty(),
            ).contains(p)) by {}
        }
        let ghost mut done: Set<u64> = Set::empty();
        while self.areas.len() > 0
            invariant
                m0 == *old(self),
                p0 == old(p2v)@,
                a0 == *old(allocator),
                n == m0.areas@.len(),
                m0.inv(p0, a0),
                self.inv(p2v@, *allocator),
                self.areas@.len() <= n,
                forall|k: int|
                    0 <= k < self.areas@.len() ==> Self::same_area(
                        #[trigger] self.areas@[k],
                        m0.areas@[k],
                    ),
                forall|w: u64|
                    #[trigger] done.contains(w) == (exists|k: int|
                        self.areas@.len() <= k < n && (#[trigger] m0.areas@[k]).vpn_range.contains(
                            w as int,
                        )),
                m0.cleared(*self, done, p0, p2v@, a0, *allocator),
                forall|dir: Map<(u64, u64), usize>| #[trigger]
                    m0.swap_free(dir) ==> self.swap_free(dir),
            decreases self.areas@.len(),
        {
            let ghost m1 = *self;
            let ghost p1 = p2v@;
            let ghost a1 = *allocator;
            let idx: usize = self.areas.len() - 1;
            self.remove_area_at(idx, p2v, allocator);
            proof {
                let m2 = *self;
                let here = Self::page_range(
                    m1.areas@[idx as int].vpn_range.start(),
                    m1.areas@[idx as int].vpn_range.end(),
                );
                m0.lemma_cleared_twice(m1, m2, done, here, p0, p1, p2v@, a0, a1, *allocator);
                let next = done.union(here);
                assert forall|w: u64|
                    #[trigger] next.contains(w) == (exists|k: int|
                        idx <= k < n && (#[trigger] m0.areas@[k]).vpn_range.contains(w as int)) by {
                    assert(Self::same_area(m1.areas@[idx as int], m0.areas@[idx as int]));
                    if done.contains(w) {
                        let k = choose|k: int|
                            idx + 1 <= k < n && (#[trigger] m0.areas@[k]).vpn_range.contains(
                                w as int,
                            );
                        assert(m0.areas@[k].vpn_range.contains(w as int));
                    }
                    if here.contains(w) {
                        assert(m0.areas@[idx as int].vpn_range.contains(w as int));
                    }
                    if exists|k: int|
                        idx <= k < n && (#[trigger] m0.areas@[k]).vpn_range.contains(w as int) {
                        let k = choose|k: int|
                            idx <= k < n && (#[trigger] m0.areas@[k]).vpn_range.contains(w as int);
                        if k > idx {
                            assert(done.contains(w));
                        }
                    }
                }
                done = next;
                assert forall|k: int| 0 <= k < m2.areas@.len() implies Self::same_area(
                    #[trigger] m2.areas@[k],
                    m0.areas@[k],
                ) by {
                    assert(Self::same_area(m2.areas@[k], m1.areas@[k]));
                }
            }
        }
        proof {
            assert(done =~= m0.covered_pages()) by {
                assert forall|w: u64| done.contains(w) == m0.covered_pages().contains(w) by {
                    if done.contains(w) {
                        let k = choose|k: int|
                            0 <= k < n && (#[trigger] m0.areas@[k]).vpn_range.contains(w as int);
                        assert(m0.areas@[k].vpn_range.contains(w as int));
                    }
                    if m0.covered(w) {
                        let k = choose|k: int|
                            0 <= k < m0.areas@.len() && m0.areas@[k].vpn_range.contains(w as int);
                        assert(m0.areas@[k].vpn_range.contains(w as int));
                    }
                }
            }
        }
    }

    /// The value to load into the MMU to switch to this space. The caller
    /// loads it and fences right after.
    pub fn activate(&self) -> (satp: u64)
        ensures
            satp == self.spec_token(),
    {
        self.page_table.token()
    }
}

/// Whether `mmap` refuses a request by its arguments alone: more than 1 GiB,
/// a protection that is empty or has a bit beyond `XWR`, or a start that
/// is not page-aligned.
pub open spec fn mmap_refused(start: usize, len: usize, port: usize) -> bool {
    len > 0x4000_0000 || port > 7 || port == 0 || start % 4096 != 0 || beyond_space(start, len)
}

/// Whether the region `[start, start + len)` passes the end of the part
/// of the address space that areas can cover, which ends at the
/// trampoline.
pub open spec fn beyond_space(start: usize, len: usize) -> bool {
    start + len > 0x7f_ffff_f000
}

/// The permissions of a region mapped with protection `port`: the bits
/// `XWR` of `port`, moved up by one, and `U`.
pub open spec fn mmap_permission(port: usize) -> u8 {
    (port * 2 + 16) as u8
}

/// Maps the region `[start, start + len)` in `memory_set` with protection
/// `port`: appends one framed area for each page that the region touches.
/// No frame is taken.
///
/// Returns 0 on success, also for a region of length 0, which changes
/// nothing; and -1, changing nothing, where the request is refused by its
/// arguments, the region passes the end of the address space or it
/// overlaps an area.
#[verifier::rlimit(60)]
pub fn memory_alloc(memory_set: &mut MemorySet, start: usize, len: usize, port: usize) -> (r: isize)
    requires
        old(memory_set).areas_wf(),
    ensures
        r == (if len == 0 {
            0isize
        } else if mmap_refused(start, len, port) || old(memory_set).overlaps(
            page_floor(start as int),
            page_ceil(start + len),
        ) {
            -1isize
        } else {
            0isize
        }),
        r != 0 || len == 0 ==> *final(memory_set) == *old(memory_set),
        r == 0 && len > 0 ==> {
            let first = page_floor(start as int);
            let count = page_ceil(start + len) - first;
            let before = old(memory_set).areas@.len() as int;
            &&& final(memory_set).areas_wf()
            &&& old(memory_set).same_residents(*final(memory_set))
            &&& final(memory_set).areas@.len() == before + count
            &&& forall|i: int|
                0 <= i < before ==> #[trigger] final(memory_set).areas@[i] == old(
                    memory_set,
                ).areas@[i]
            &&& forall|k: int|
                0 <= k < count ==> {
                    let area = #[trigger] final(memory_set).areas@[before + k];
                    &&& area.vpn_range.start() == first + k
                    &&& area.vpn_range.end() == first + k + 1
                    &&& area.map_type == MapType::Framed
                    &&& area.map_perm.bits == mmap_permission(port)
                    &&& area.frames() == Map::<u64, FrameTracker>::empty()
                }
            &&& forall|p2v: Map<u64, u64>| #[trigger]
                old(memory_set).consistent(p2v) ==> final(memory_set).consistent(p2v)
            &&& forall|al: StackFrameAllocator| #[trigger]
                old(memory_set).allocated_by(al) ==> final(memory_set).allocated_by(al)
        },
{
    if len == 0 {
        return 0;
    }
    if len > 1073741824 || port > 7 || port == 0 || start % 4096 != 0 {
        return -1;
    }
    if start as u64 > 0x7f_ffff_f000 || len as u64 > 0x7f_ffff_f000 - start as u64 {
        return -1;
    }
    let ghost m0 = *memory_set;
    let l: u64 = (start / 4096) as u64;
    let end: u64 = start as u64 + len as u64;
    let r: u64 = if end % 4096 == 0 {
        end / 4096
    } else {
        end / 4096 + 1
    };
    assert(l == page_floor(start as int));
    assert(r == page_ceil(start + len));
    let mut i: usize = 0;
    while i < memory_set.areas.len()
        invariant
            *memory_set == m0,
            m0 == *old(memory_set),
            len > 0,
            !mmap_refused(start, len, port),
            l == page_floor(start as int),
            r == page_ceil(start + len),
            i <= m0.areas@.len(),
            forall|k: int|
                0 <= k < i ==> !((#[trigger] m0.areas@[k]).vpn_range.start() < r && l
                    < m0.areas@[k].vpn_range.end()),
        decreases m0.areas@.len() - i,
    {
        let area = &memory_set.areas[i];
        if area.vpn_range.get_start().0 < r && l < area.vpn_range.get_end().0 {
            assert(m0.areas@[i as int].vpn_range.start() < r && l
                < m0.areas@[i as int].vpn_range.end());
            assert(m0.overlaps(l as int, r as int));
            return -1;
        }
        i = i + 1;
    }
    assert(!m0.overlaps(l as int, r as int));
    let bits: u8 = (port * 2 + 16) as u8;
    assert(bits & 0xe1 == 0) by (bit_vector)
        requires
            bits == 18 || bits == 20 || bits == 22 || bits == 24 || bits == 26 || bits == 28
                || bits == 30,
    ;
    let permission = MapPermission::from_bits(bits).unwrap();
    let ghost before = m0.areas@.len() as int;
    let mut v: u64 = l;
    while v < r
        invariant
            l <= v <= r,
            r <= 0x7ff_ffff,
            before == m0.areas@.len(),
            m0.areas_wf(),
            !m0.overlaps(l as int, r as int),
            permission.wf(),
            permission.bits == bits,
            memory_set.areas_wf(),
            m0.same_residents(*memory_set),
            memory_set.areas@.len() == before + (v - l),
            forall|i: int| 0 <= i < before ==> #[trigger] memory_set.areas@[i] == m0.areas@[i],
            forall|k: int|
                0 <= k < v - l ==> {
                    let area = #[trigger] memory_set.areas@[before + k];
                    &&& area.vpn_range.start() == l + k
                    &&& area.vpn_range.end() == l + k + 1
                    &&& area.map_type == MapType::Framed
                    &&& area.map_perm.bits == bits
                    &&& area.frames() == Map::<u64, FrameTracker>::empty()
                },
            forall|p2v: Map<u64, u64>| #[trigger]
                m0.consistent(p2v) ==> memory_set.consistent(p2v),
            forall|al: StackFrameAllocator| #[trigger]
                m0.allocated_by(al) ==> memory_set.allocated_by(al),
        decreases r - v,
    {
        let ghost m1 = *memory_set;
        proof {
            if m1.overlaps(v as int, v as int + 1) {
                let i = choose|i: int|
                    0 <= i < m1.areas@.len() && (#[trigger] m1.areas@[i]).vpn_range.start() < v + 1
                        && v < m1.areas@[i].vpn_range.end();
                if i < before {
                    assert(m1.areas@[i] == m0.areas@[i]);
                    assert(m0.areas@[i].vpn_range.start() < r && l < m0.areas@[i].vpn_range.end());
                } else {
                    let k = i - before;
                    assert(m1.areas@[before + k].vpn_range.start() == l + k);
                }
            }
        }
        memory_set.insert_framed_area(VirtAddr(v * 4096), VirtAddr((v + 1) * 4096), permission);
        proof {
            let m2 = *memory_set;
            assert forall|k: int| 0 <= k < v + 1 - l implies {
                let area = #[trigger] m2.areas@[before + k];
                &&& area.vpn_range.start() == l + k
                &&& area.vpn_range.end() == l + k + 1
                &&& area.map_type == MapType::Framed
                &&& area.map_perm.bits == bits
                &&& area.frames() == Map::<u64, FrameTracker>::empty()
            } by {
                if k < v - l {
                    assert(m2.areas@[before + k] == m1.areas@[before + k]);
                } else {
                    assert(m2.areas@[before + k] == m2.areas@.last());
                }
            }
            assert forall|i: int| 0 <= i < before implies #[trigger] m2.areas@[i] == m0.areas@[i] by {
                assert(m2.areas@[i] == m1.areas@[i]);
            }
        }
        v = v + 1;
    }
    0
}

/// Whether `area` starts at one of the pages `lo` to `hi - 1`.
pub open spec fn starts_in(area: MapArea, lo: int, hi: int) -> bool {
    lo <= area.vpn_range.start() < hi
}

/// Number of pages of the areas that start at one of the pages `lo` to
/// `hi - 1`.
pub open spec fn pages_of(areas: Seq<MapArea>, lo: int, hi: int) -> int
    decreases areas.len(),
{
    if areas.len() == 0 {
        0
    } else {
        pages_of(areas.drop_last(), lo, hi) + (if starts_in(areas.last(), lo, hi) {
            areas.last().vpn_range.end() - areas.last().vpn_range.start()
        } else {
            0
        })
    }
}

/// The areas that do not start at one of the pages `lo` to `hi - 1`, in
/// their order.
pub open spec fn kept_areas(areas: Seq<MapArea>, lo: int, hi: int) -> Seq<MapArea>
    decreases areas.len(),
{
    if areas.len() == 0 {
        Seq::empty()
    } else if starts_in(areas.last(), lo, hi) {
        kept_areas(areas.drop_last(), lo, hi)
    } else {
        kept_areas(areas.drop_last(), lo, hi).push(areas.last())
    }
}

/// The pages of the areas that start at one of the pages `lo` to `hi - 1`.
pub open spec fn doomed_pages(areas: Seq<MapArea>, lo: int, hi: int) -> Set<u64> {
    Set::new(
        |w: u64|
            exists|i: int|
                0 <= i < areas.len() && starts_in(#[trigger] areas[i], lo, hi)
                    && areas[i].vpn_range.contains(w as int),
    )
}

/// Whether the areas that start at one of the pages `lo` to `hi - 1` end
/// there too, and have as many pages as these are.
pub open spec fn munmap_exact(areas: Seq<MapArea>, lo: int, hi: int) -> bool {
    &&& pages_of(areas, lo, hi) == hi - lo
    &&& forall|i: int|
        0 <= i < areas.len() && starts_in(#[trigger] areas[i], lo, hi) ==> areas[i].vpn_range.end()
            <= hi
}

/// Number of pages of the first `m` of `areas` that start at one of the
/// pages `lo` to `hi - 1`, where the first `n` areas keep clear of these
/// pages and the others cover them page by page: one for each of the
/// others among the first `m`.
proof fn lemma_pages_of_region(areas: Seq<MapArea>, n: int, lo: int, hi: int, m: int)
    requires
        lo < hi,
        0 <= n <= areas.len(),
        areas.len() == n + (hi - lo),
        0 <= m <= areas.len(),
        forall|i: int|
            0 <= i < n ==> (#[trigger] areas[i]).vpn_range.start() <= areas[i].vpn_range.end() && !(
            areas[i].vpn_range.start() < hi && lo < areas[i].vpn_range.end()),
        forall|k: int|
            0 <= k < hi - lo ==> (#[trigger] areas[n + k]).vpn_range.start() == lo + k && areas[n
                + k].vpn_range.end() == lo + k + 1,
    ensures
        pages_of(areas.take(m), lo, hi) == (if m <= n {
            0
        } else {
            m - n
        }),
    decreases m,
{
    if m > 0 {
        lemma_pages_of_region(areas, n, lo, hi, m - 1);
        assert(areas.take(m).drop_last() =~= areas.take(m - 1));
        assert(areas.take(m).last() == areas[m - 1]);
        if m - 1 >= n {
            assert(areas[n + (m - 1 - n)] == areas[m - 1]);
        }
    } else {
        assert(areas.take(0) =~= Seq::<MapArea>::empty());
    }
}

/// A region that was mapped can be unmapped: where areas that keep clear
/// of the pages `lo` to `hi - 1` are followed by one area for each of
/// these pages, as `memory_alloc` leaves them, the areas that start at one
/// of the pages are exactly these, so `memory_free` takes the region.
pub proof fn lemma_mapped_region_unmaps(areas: Seq<MapArea>, n: int, lo: int, hi: int)
    requires
        lo < hi,
        0 <= n <= areas.len(),
        areas.len() == n + (hi - lo),
        forall|i: int|
            0 <= i < n ==> (#[trigger] areas[i]).vpn_range.start() <= areas[i].vpn_range.end() && !(
            areas[i].vpn_range.start() < hi && lo < areas[i].vpn_range.end()),
        forall|k: int|
            0 <= k < hi - lo ==> (#[trigger] areas[n + k]).vpn_range.start() == lo + k && areas[n
                + k].vpn_range.end() == lo + k + 1,
    ensures
        munmap_exact(areas, lo, hi),
{
    lemma_pages_of_region(areas, n, lo, hi, areas.len() as int);
    assert(areas.take(areas.len() as int) =~= areas);
    assert forall|i: int|
        0 <= i < areas.len() && starts_in(#[trigger] areas[i], lo, hi) implies areas[i].vpn_range.end()
        <= hi by {
        if i >= n {
            assert(areas[n + (i - n)] == areas[i]);
        }
    }
}

/// The first areas have no more pages than all of them.
pub proof fn lemma_pages_of_prefix(areas: Seq<MapArea>, lo: int, hi: int, i: int)
    requires
        0 <= i <= areas.len(),
        forall|k: int| 0 <= k < areas.len() ==> (#[trigger] areas[k]).vpn_range.wf(),
    ensures
        0 <= pages_of(areas.take(i), lo, hi) <= pages_of(areas, lo, hi),
        i < areas.len() ==> pages_of(areas.take(i + 1), lo, hi) == pages_of(areas.take(i), lo, hi)
            + (if starts_in(areas[i], lo, hi) {
            areas[i].vpn_range.end() - areas[i].vpn_range.start()
        } else {
            0
        }),
    decreases areas.len() - i,
{
    if i == areas.len() {
        assert(areas.take(i) =~= areas);
        lemma_pages_of_nonneg(areas, lo, hi);
    } else {
        assert(areas.take(i + 1).drop_last() =~= areas.take(i));
        assert(areas.take(i + 1).last() == areas[i]);
        areas[i].vpn_range.lemma_ordered();
        lemma_pages_of_prefix(areas, lo, hi, i + 1);
        assert forall|k: int| 0 <= k < areas.take(i).len() implies (#[trigger] areas.take(
            i,
        )[k]).vpn_range.wf() by {
            assert(areas.take(i)[k] == areas[k]);
        }
        lemma_pages_of_nonneg(areas.take(i), lo, hi);
    }
}

/// A number of pages is not negative.
pub proof fn lemma_pages_of_nonneg(areas: Seq<MapArea>, lo: int, hi: int)
    requires
        forall|k: int| 0 <= k < areas.len() ==> (#[trigger] areas[k]).vpn_range.wf(),
    ensures
        0 <= pages_of(areas, lo, hi),
    decreases areas.len(),
{
    if areas.len() > 0 {
        assert forall|k: int| 0 <= k < areas.drop_last().len() implies (#[trigger] areas.drop_last()[k]).vpn_range.wf() by {
            assert(areas.drop_last()[k] == areas[k]);
        }
        lemma_pages_of_nonneg(areas.drop_last(), lo, hi);
        areas.last().vpn_range.lemma_ordered();
    }
}

/// Unmaps the region `[start, start + len)` of `memory_set`: removes every
/// area that starts in the region, giving the frames of its resident pages
/// back and taking them off the reverse map.
///
/// Returns 0 on success, also for a region of length 0, which changes
/// nothing; and -1, changing nothing, where `start` is not page-aligned
/// or the areas that start in the region do not cover exactly its pages.
#[verifier::rlimit(60)]
pub fn memory_free(
    memory_set: &mut MemorySet,
    start: usize,
    len: usize,
    p2v: &mut ReverseMap,
    allocator: &mut StackFrameAllocator,
) -> (r: isize)
    requires
        old(memory_set).inv(old(p2v)@, *old(allocator)),
    ensures
        r == (if len == 0 {
            0isize
        } else if start % 4096 != 0 || beyond_space(start, len) || !munmap_exact(
            old(memory_set).areas@,
            page_floor(start as int),
            page_ceil(start + len),
        ) {
            -1isize
        } else {
            0isize
        }),
        r != 0 || len == 0 ==> {
            &&& *final(memory_set) == *old(memory_set)
            &&& *final(p2v) == *old(p2v)
            &&& *final(allocator) == *old(allocator)
        },
        r == 0 && len > 0 ==> {
            let lo = page_floor(start as int);
            let hi = page_ceil(start + len);
            let kept = kept_areas(old(memory_set).areas@, lo, hi);
            &&& final(memory_set).inv(final(p2v)@, *final(allocator))
            &&& final(memory_set).areas@.len() == kept.len()
            &&& forall|k: int|
                0 <= k < kept.len() ==> MemorySet::same_area(
                    #[trigger] final(memory_set).areas@[k],
                    kept[k],
                )
            &&& old(memory_set).cleared(
                *final(memory_set),
                doomed_pages(old(memory_set).areas@, lo, hi),
                old(p2v)@,
                final(p2v)@,
                *old(allocator),
                *final(allocator),
            )
            &&& forall|dir: Map<(u64, u64), usize>| #[trigger]
                old(memory_set).swap_free(dir) ==> final(memory_set).swap_free(dir)
        },
{
    if len == 0 {
        return 0;
    }
    if start % 4096 != 0 {
        return -1;
    }
    if start as u64 > 0x7f_ffff_f000 || len as u64 > 0x7f_ffff_f000 - start as u64 {
        return -1;
    }
    let ghost m0 = *memory_set;
    let ghost p0 = p2v@;
    let ghost a0 = *allocator;
    let ghost old_areas = m0.areas@;
    let ghost n = old_areas.len() as int;
    let l: u64 = (start / 4096) as u64;
    let end: u64 = start as u64 + len as u64;
    let r: u64 = if end % 4096 == 0 {
        end / 4096
    } else {
        end / 4096 + 1
    };
    assert(l == page_floor(start as int));
    assert(r == page_ceil(start + len));
    proof {
        assert forall|k: int| 0 <= k < n implies (#[trigger] old_areas[k]).vpn_range.wf() by {
            assert(old_areas[k].wf());
        }
        assert(old_areas.take(0) =~= Seq::<MapArea>::empty());
    }
    // The areas that start in the region must cover exactly its pages.
    let mut cnt: u64 = 0;
    let mut i: usize = 0;
    while i < memory_set.areas.len()
        invariant
            *memory_set == m0,
            m0 == *old(memory_set),
            *p2v == *old(p2v),
            *allocator == *old(allocator),
            old_areas == m0.areas@,
            n == old_areas.len(),
            forall|k: int| 0 <= k < n ==> (#[trigger] old_areas[k]).wf(),
            forall|k: int| 0 <= k < n ==> (#[trigger] old_areas[k]).vpn_range.wf(),
            len > 0,
            start % 4096 == 0,
            l == page_floor(start as int),
            r == page_ceil(start + len),
            l <= r,
            i <= n,
            cnt == pages_of(old_areas.take(i as int), l as int, r as int),
            cnt <= r - l,
            forall|k: int|
                0 <= k < i && starts_in(#[trigger] old_areas[k], l as int, r as int)
                    ==> old_areas[k].vpn_range.end() <= r,
        decreases n - i,
    {
        let area = &memory_set.areas[i];
        let a_start: u64 = area.vpn_range.get_start().0;
        let a_end: u64 = area.vpn_range.get_end().0;
        proof {
            lemma_pages_of_prefix(old_areas, l as int, r as int, i as int);
            lemma_pages_of_prefix(old_areas, l as int, r as int, i as int + 1);
            assert(old_areas[i as int].wf());
        }
        if l <= a_start && a_start < r {
            if a_end > r {
                assert(starts_in(old_areas[i as int], l as int, r as int));
                return -1;
            }
            if a_end - a_start > r - l - cnt {
                return -1;
            }
            cnt = cnt + (a_end - a_start);
        }
        i = i + 1;
    }
    proof {
        assert(old_areas.take(n) =~= old_areas);
    }
    if cnt < r - l {
        return -1;
    }
    assert(munmap_exact(old_areas, l as int, r as int));
    // Remove them.
    let ghost mut j: int = 0;
    let mut i: usize = 0;
    proof {
        assert(doomed_pages(old_areas.take(0), l as int, r as int) =~= Set::<u64>::empty());
        assert(m0.frames_in(p0, Set::<u64>::empty()) =~= Set::<u64>::empty());
        lemma_select_none(m0.frame_manager.frames(), Set::<u64>::empty());
        assert forall|p: u64| #[trigger] m0.owns(p) == (m0.owns(p) && !m0.frames_in(
            p0,
            Set::<u64>::empty(),
        ).contains(p)) by {}
    }
    while i < memory_set.areas.len()
        invariant
            m0 == *old(memory_set),
            p0 == old(p2v)@,
            a0 == *old(allocator),
            old_areas == m0.areas@,
            n == old_areas.len(),
            m0.inv(p0, a0),
            0 <= j <= n,
            memory_set.areas@.len() == i + (n - j),
            i == kept_areas(old_areas.take(j), l as int, r as int).len(),
            forall|k: int|
                0 <= k < i ==> MemorySet::same_area(
                    #[trigger] memory_set.areas@[k],
                    kept_areas(old_areas.take(j), l as int, r as int)[k],
                ),
            forall|k: int|
                i <= k < memory_set.areas@.len() ==> MemorySet::same_area(
                    #[trigger] memory_set.areas@[k],
                    old_areas[j + (k - i)],
                ),
            memory_set.inv(p2v@, *allocator),
            m0.cleared(
                *memory_set,
                doomed_pages(old_areas.take(j), l as int, r as int),
                p0,
                p2v@,
                a0,
                *allocator,
            ),
            forall|dir: Map<(u64, u64), usize>| #[trigger]
                m0.swap_free(dir) ==> memory_set.swap_free(dir),
        decreases n - j,
    {
        let ghost m1 = *memory_set;
        let ghost p1 = p2v@;
        let ghost a1 = *allocator;
        let ghost d1 = doomed_pages(old_areas.take(j), l as int, r as int);
        let ghost d2 = doomed_pages(old_areas.take(j + 1), l as int, r as int);
        let ghost k1 = kept_areas(old_areas.take(j), l as int, r as int);
        let a_start: u64 = memory_set.areas[i].vpn_range.get_start().0;
        proof {
            assert(MemorySet::same_area(m1.areas@[i as int], old_areas[j]));
            assert(old_areas.take(j + 1).drop_last() =~= old_areas.take(j));
            assert(old_areas.take(j + 1).last() == old_areas[j]);
            assert forall|w: u64|
                d2.contains(w) == (d1.contains(w) || (starts_in(old_areas[j], l as int, r as int)
                    && old_areas[j].vpn_range.contains(w as int))) by {
                let t1 = old_areas.take(j);
                let t2 = old_areas.take(j + 1);
                if d2.contains(w) {
                    let q = choose|q: int|
                        0 <= q < t2.len() && starts_in(#[trigger] t2[q], l as int, r as int)
                            && t2[q].vpn_range.contains(w as int);
                    if q < j {
                        assert(t1[q] == t2[q]);
                    }
                }
                if d1.contains(w) {
                    let q = choose|q: int|
                        0 <= q < t1.len() && starts_in(#[trigger] t1[q], l as int, r as int)
                            && t1[q].vpn_range.contains(w as int);
                    assert(t2[q] == t1[q]);
                }
                if starts_in(old_areas[j], l as int, r as int) && old_areas[j].vpn_range.contains(
                    w as int,
                ) {
                    assert(t2[j] == old_areas[j]);
                }
            }
        }
        if l <= a_start && a_start < r {
            memory_set.remove_area_at(i, p2v, allocator);
            proof {
                let m2 = *memory_set;
                let here = MemorySet::page_range(
                    old_areas[j].vpn_range.start(),
                    old_areas[j].vpn_range.end(),
                );
                m0.lemma_cleared_twice(m1, m2, d1, here, p0, p1, p2v@, a0, a1, *allocator);
                assert(d2 =~= d1.union(here));
                assert forall|k: int| i <= k < m2.areas@.len() implies MemorySet::same_area(
                    #[trigger] m2.areas@[k],
                    old_areas[j + 1 + (k - i)],
                ) by {
                    assert(MemorySet::same_area(m2.areas@[k], m1.areas@[k + 1]));
                    assert(MemorySet::same_area(m1.areas@[k + 1], old_areas[j + (k + 1 - i)]));
                }
                assert forall|k: int| 0 <= k < i implies MemorySet::same_area(
                    #[trigger] m2.areas@[k],
                    k1[k],
                ) by {
                    assert(MemorySet::same_area(m2.areas@[k], m1.areas@[k]));
                }
            }
        } else {
            proof {
                assert(d2 =~= d1);
                let k2 = kept_areas(old_areas.take(j + 1), l as int, r as int);
                assert(k2 == k1.push(old_areas[j]));
                assert forall|k: int| 0 <= k < i + 1 implies MemorySet::same_area(
                    #[trigger] m1.areas@[k],
                    k2[k],
                ) by {
                    if k < i {
                        assert(k2[k] == k1[k]);
                    }
                }
                assert forall|k: int| i + 1 <= k < m1.areas@.len() implies MemorySet::same_area(
                    #[trigger] m1.areas@[k],
                    old_areas[j + 1 + (k - (i + 1))],
                ) by {}
            }
            i = i + 1;
        }
        proof {
            j = j + 1;
        }
    }
    proof {
        assert(j == n);
        assert(old_areas.take(n) =~= old_areas);
    }
    0
}

/// The token of the address space of the kernel.
pub fn kernel_token(kernel_space: &MemorySet) -> (r: u64)
    ensures
        r == kernel_space.spec_token(),
{
    kernel_space.token()
}

/// The page in the middle of `[start, end)`.
pub open spec fn middle_page(start: u64, end: u64) -> u64 {
    page_floor(VirtAddr::spec_new(((start + end) / 2) as u64).0 as int) as u64
}

/// Whether the kernel space protects its image: a page in the middle of
/// the text and one in the middle of the read-only data are mapped and not
/// writable, and one in the middle of the data is mapped and not
/// executable.
pub fn remap_test(kernel_space: &MemorySet, layout: &KernelLayout) -> (r: bool)
    requires
        kernel_space.page_table.wf(),
        layout.stext + layout.etext <= u64::MAX,
        layout.srodata + layout.erodata <= u64::MAX,
        layout.sdata + layout.edata <= u64::MAX,
    ensures
        r == {
            let pt = kernel_space.page_table@;
            let text = middle_page(layout.stext, layout.etext);
            let rodata = middle_page(layout.srodata, layout.erodata);
            let data = middle_page(layout.sdata, layout.edata);
            &&& pt.contains_key(text) && !pt[text].spec_writable()
            &&& pt.contains_key(rodata) && !pt[rodata].spec_writable()
            &&& pt.contains_key(data) && !pt[data].spec_executable()
        },
{
    let mid_text = VirtAddr::new((layout.stext + layout.etext) / 2);
    let mid_rodata = VirtAddr::new((layout.srodata + layout.erodata) / 2);
    let mid_data = VirtAddr::new((layout.sdata + layout.edata) / 2);
    let text_ok: bool = match kernel_space.page_table.translate(mid_text.floor()) {
        Some(pte) => pte.is_valid() && !pte.writable(),
        None => false,
    };
    let rodata_ok: bool = match kernel_space.page_table.translate(mid_rodata.floor()) {
        Some(pte) => pte.is_valid() && !pte.writable(),
        None => false,
    };
    let data_ok: bool = match kernel_space.page_table.translate(mid_data.floor()) {
        Some(pte) => pte.is_valid() && !pte.executable(),
        None => false,
    };
    text_ok && rodata_ok && data_ok
}

} // verus!

//! The swap store and the page-fault handler.

use vstd::prelude::*;
use std::collections::BTreeMap;
use crate::drivers::ide::{Ide, ide_read, ide_write};
use crate::mm::address::{PhysPageNum, VirtAddr, VirtPageNum};
use crate::mm::frame_allocator::{StackFrameAllocator, frame_alloc, frame_check, zero_page};
use crate::mm::frame_manager::{clock_demoted, clock_rank, LocalFrameManager, GlobalFrameManager, PRA, idle_total, idle_set, trimmed_or_same, aged_or_same, all_trimmed, all_aged, lemma_aged_system};
use crate::mm::system::{system_inv, lemma_step, lemma_tokens_differ, lemma_joined, lemma_reordered};
use crate::config::{MAX_PAGES, PFF_T, WORKINGSET_DELTA_NUM};
use crate::mm::address::page_floor;
use crate::mm::memory_set::{MemorySet, MapType, memory_alloc, memory_free, mmap_refused, mmap_permission, munmap_exact, kept_areas, doomed_pages};
use crate::mm::page_table::PageTableEntry;

verus! {

broadcast use {vstd::std_specs::btree::group_btree_axioms, vstd::laws_cmp::group_laws_cmp};

/// The backing store of evicted pages: a directory from
/// `(address-space token, virtual page)` to the slot of the swap device
/// that holds the page, and the slots that are free.
pub struct IdeManager {
    current: usize,
    end: usize,
    recycled: Vec<usize>,
    map: BTreeMap<(u64, u64), usize>,
    owners: Vec<Option<(u64, u64)>>,
    ide: Ide,
}

/// Number of the first `upto` slots that hold a page of space `token`.
pub open spec fn slots_of(owners: Seq<Option<(u64, u64)>>, token: u64, upto: int) -> nat
    decreases upto,
{
    if upto <= 0 {
        0
    } else {
        slots_of(owners, token, upto - 1) + (if owners[upto - 1] is Some && (owners[upto
            - 1]->0).0 == token {
            1nat
        } else {
            0nat
        })
    }
}

/// Where none of the first `upto` slots holds a page of `token`, their
/// number is 0.
pub proof fn lemma_slots_none(owners: Seq<Option<(u64, u64)>>, token: u64, upto: int)
    requires
        0 <= upto <= owners.len(),
        forall|t: int|
            0 <= t < upto ==> !((#[trigger] owners[t]) is Some && (owners[t]->0).0 == token),
    ensures
        slots_of(owners, token, upto) == 0,
    decreases upto,
{
    if upto > 0 {
        lemma_slots_none(owners, token, upto - 1);
    }
}

/// Whether `owner` is a page of space `token`.
pub open spec fn is_of(owner: Option<(u64, u64)>, token: u64) -> bool {
    owner is Some && (owner->0).0 == token
}

/// What a change of slot `i` does to the number of slots of `token`.
pub proof fn lemma_slots_update(
    owners: Seq<Option<(u64, u64)>>,
    i: int,
    v: Option<(u64, u64)>,
    token: u64,
    upto: int,
)
    requires
        0 <= i < owners.len(),
        0 <= upto <= owners.len(),
    ensures
        slots_of(owners.update(i, v), token, upto) == slots_of(owners, token, upto) + (if i < upto
            && is_of(v, token) {
            1int
        } else {
            0int
        }) - (if i < upto && is_of(owners[i], token) {
            1int
        } else {
            0int
        }),
    decreases upto,
{
    if upto > 0 {
        lemma_slots_update(owners, i, v, token, upto - 1);
    }
}

/// A new slot that holds nothing changes no number.
pub proof fn lemma_slots_push(owners: Seq<Option<(u64, u64)>>, token: u64, upto: int)
    requires
        0 <= upto <= owners.len(),
    ensures
        slots_of(owners.push(None), token, upto) == slots_of(owners, token, upto),
        upto == owners.len() ==> slots_of(owners.push(None), token, upto + 1) == slots_of(
            owners,
            token,
            upto,
        ),
    decreases upto,
{
    if upto > 0 {
        lemma_slots_push(owners, token, upto - 1);
    }
}

impl IdeManager {
    /// The directory: which slot holds which page.
    pub closed spec fn dir(self) -> Map<(u64, u64), usize> {
        self.map@
    }

    /// The bytes that slot `slot` of the device holds.
    pub closed spec fn page(self, slot: int) -> Seq<u8> {
        self.ide.page(slot)
    }

    /// The pages in the store, each with its bytes.
    pub open spec fn contents(self) -> Map<(u64, u64), Seq<u8>> {
        Map::new(
            |k: (u64, u64)| self.dir().contains_key(k),
            |k: (u64, u64)| self.page(self.dir()[k] as int),
        )
    }

    /// Number of slots that `swap_in` can still take.
    pub closed spec fn room(self) -> nat {
        (self.recycled@.len() + (self.end - self.current)) as nat
    }

    /// The slot that the next `swap_in` takes, where there is room.
    pub closed spec fn next_slot(self) -> usize {
        if self.recycled@.len() > 0 {
            self.recycled@.last()
        } else {
            self.current
        }
    }

    /// Number of pages of space `token` in the store.
    pub closed spec fn held(self, token: u64) -> nat {
        slots_of(self.owners@, token, self.owners@.len() as int)
    }

    /// No slot is free twice, none is both free and in use, no two pages
    /// share a slot, and each slot in use knows its page.
    pub closed spec fn wf(self) -> bool {
        &&& self.ide.wf()
        &&& self.owners@.len() == self.current
        &&& forall|k: (u64, u64)|
            self.map@.contains_key(k) ==> self.owners@[(#[trigger] self.map@[k]) as int] == Some(k)
        &&& forall|t: int|
            0 <= t < self.owners@.len() && (#[trigger] self.owners@[t]) is Some
                ==> self.map@.contains_key(self.owners@[t]->0) && self.map@[self.owners@[t]->0]
                == t
        &&& self.current <= self.end
        &&& self.end == MAX_PAGES
        &&& self.recycled@.no_duplicates()
        &&& forall|i: int| 0 <= i < self.recycled@.len() ==> self.recycled@[i] < self.current
        &&& forall|k: (u64, u64)| self.map@.contains_key(k) ==> #[trigger] self.map@[k] < self.current
        &&& forall|k: (u64, u64)|
            self.map@.contains_key(k) ==> !self.recycled@.contains(#[trigger] self.map@[k])
        &&& forall|k: (u64, u64), l: (u64, u64)|
            self.map@.contains_key(k) && self.map@.contains_key(l) && k != l ==> #[trigger] self.map@[k]
                != #[trigger] self.map@[l]
    }

    /// Every page in the store has a slot of the device, and no two pages
    /// have the same.
    pub proof fn lemma_slots(self)
        requires
            self.wf(),
        ensures
            forall|k: (u64, u64)| self.dir().contains_key(k) ==> #[trigger] self.dir()[k] < MAX_PAGES,
            forall|k: (u64, u64), l: (u64, u64)|
                self.dir().contains_key(k) && self.dir().contains_key(l) && k != l
                    ==> #[trigger] self.dir()[k] != #[trigger] self.dir()[l],
    {
    }

    /// An empty store.
    pub fn new() -> (r: IdeManager)
        ensures
            r.wf(),
            r.dir() == Map::<(u64, u64), usize>::empty(),
            r.room() == MAX_PAGES,
            forall|token: u64| r.held(token) == 0,
    {
        IdeManager {
            current: 0,
            end: MAX_PAGES,
            recycled: Vec::new(),
            map: BTreeMap::new(),
            owners: Vec::new(),
            ide: Ide::new(),
        }
    }

    /// Whether a slot is free.
    pub fn has_room(&self) -> (r: bool)
        requires
            self.wf(),
        ensures
            r == (self.room() > 0),
    {
        self.recycled.len() > 0 || self.current < self.end
    }

    /// Moves a page out of memory and into the store: takes a free slot, a
    /// returned one first, writes `src` to it and records it for
    /// `(token, vpn)`.
    #[verifier::rlimit(60)]
    pub fn swap_in(&mut self, token: u64, vpn: VirtPageNum, src: &[u8])
        requires
            old(self).wf(),
            old(self).room() > 0,
            src@.len() == 4096,
        ensures
            final(self).wf(),
            final(self).room() == old(self).room() - 1,
            final(self).dir() == old(self).dir().insert((token, vpn.0), old(self).next_slot()),
            final(self).contents() == old(self).contents().insert((token, vpn.0), src@),
            forall|t: u64|
                #[trigger] final(self).held(t) == old(self).held(t) + (if t == token && !old(
                    self,
                ).dir().contains_key((token, vpn.0)) {
                    1int
                } else {
                    0int
                }),
    {
        let ghost before = *self;
        let previous: Option<usize> = match self.map.get(&(token, vpn.0)) {
            Some(slot) => Some(*slot),
            None => None,
        };
        let idx: usize = match self.recycled.pop() {
            Some(idx) => idx,
            None => {
                self.current = self.current + 1;
                self.owners.push(None);
                self.current - 1
            },
        };
        proof {
            assert(idx == before.next_slot());
            assert(idx < self.current);
            assert forall|k: (u64, u64)| before.map@.contains_key(k) implies before.map@[k]
                != idx by {
                if before.recycled@.len() > 0 {
                    assert(before.recycled@[before.recycled@.len() - 1] == idx);
                    assert(before.recycled@.contains(idx));
                }
            }
            assert(self.recycled@ =~= before.recycled@.take(self.recycled@.len() as int));
        }
        ide_write(&mut self.ide, idx, src);
        self.map.insert((token, vpn.0), idx);
        match previous {
            Some(slot) => {
                self.owners[slot] = None;
            },
            None => {},
        }
        let ghost grown = if before.recycled@.len() > 0 {
            before.owners@
        } else {
            before.owners@.push(None)
        };
        let ghost cleared = if previous is Some {
            grown.update(previous->0 as int, None)
        } else {
            grown
        };
        self.owners[idx] = Some((token, vpn.0));
        proof {
            assert(self.owners@ =~= cleared.update(idx as int, Some((token, vpn.0))));
            assert(grown[idx as int] is None) by {
                if before.recycled@.len() > 0 {
                    assert(before.recycled@.contains(idx));
                    if before.owners@[idx as int] is Some {
                        assert(before.map@[before.owners@[idx as int]->0] == idx);
                    }
                }
            }
            assert forall|t: u64|
                #[trigger] self.held(t) == before.held(t) + (if t == token
                    && !before.map@.contains_key((token, vpn.0)) {
                    1int
                } else {
                    0int
                }) by {
                let m = before.owners@.len() as int;
                lemma_slots_push(before.owners@, t, m);
                assert(slots_of(grown, t, grown.len() as int) == before.held(t));
                if previous is Some {
                    lemma_slots_update(grown, previous->0 as int, None, t, grown.len() as int);
                    assert(grown[previous->0 as int] == Some((token, vpn.0)));
                }
                lemma_slots_update(
                    cleared,
                    idx as int,
                    Some((token, vpn.0)),
                    t,
                    cleared.len() as int,
                );
            }
            assert(previous is Some ==> previous->0 != idx && before.owners@[previous->0 as int]
                == Some((token, vpn.0)));
            assert forall|t: int|
                0 <= t < self.owners@.len() && (#[trigger] self.owners@[t]) is Some implies self.map@.contains_key(
                self.owners@[t]->0,
            ) && self.map@[self.owners@[t]->0] == t by {
                if t != idx {
                    assert(before.owners@[t] is Some);
                    assert(before.owners@[t]->0 != (token, vpn.0));
                }
            }
            assert forall|k: (u64, u64)| self.map@.contains_key(k) implies !self.recycled@.contains(
                #[trigger] self.map@[k],
            ) by {
                if self.recycled@.contains(self.map@[k]) {
                    let i = choose|i: int|
                        0 <= i < self.recycled@.len() && self.recycled@[i] == self.map@[k];
                    assert(before.recycled@[i] == self.map@[k]);
                    if k == (token, vpn.0) {
                        assert(before.recycled@[before.recycled@.len() - 1] == idx);
                    } else {
                        assert(before.recycled@.contains(before.map@[k]));
                    }
                }
            }
            assert(self.contents() =~= before.contents().insert((token, vpn.0), src@));
        }
    }

    /// Brings a page back from the store: reads the slot of `(token, vpn)`
    /// into `dst`, frees the slot and forgets the page.
    #[verifier::rlimit(60)]
    pub fn swap_out(&mut self, token: u64, vpn: VirtPageNum, dst: &mut Vec<u8>)
        requires
            old(self).wf(),
            old(self).dir().contains_key((token, vpn.0)),
            old(dst)@.len() == 4096,
        ensures
            final(self).wf(),
            final(self).room() == old(self).room() + 1,
            final(dst)@.len() == 4096,
            final(dst)@ == old(self).contents()[(token, vpn.0)],
            final(self).dir() == old(self).dir().remove((token, vpn.0)),
            final(self).contents() == old(self).contents().remove((token, vpn.0)),
            forall|t: u64|
                #[trigger] final(self).held(t) == old(self).held(t) - (if t == token {
                    1int
                } else {
                    0int
                }),
    {
        let ghost before = *self;
        let idx: usize = match self.map.get(&(token, vpn.0)) {
            Some(idx) => *idx,
            None => 0,
        };
        ide_read(&self.ide, idx, dst);
        self.recycled.push(idx);
        self.map.remove(&(token, vpn.0));
        self.owners[idx] = None;
        proof {
            assert(idx == before.map@[(token, vpn.0)]);
            assert(self.owners@ =~= before.owners@.update(idx as int, None));
            assert forall|t: u64|
                #[trigger] self.held(t) == before.held(t) - (if t == token {
                    1int
                } else {
                    0int
                }) by {
                lemma_slots_update(before.owners@, idx as int, None, t, before.owners@.len() as int);
            }
            assert forall|i: int, j: int|
                0 <= i < self.recycled@.len() && 0 <= j < self.recycled@.len() && i
                    != j implies self.recycled@[i] != self.recycled@[j] by {
                if i == before.recycled@.len() {
                    assert(before.recycled@.contains(self.recycled@[j]));
                }
                if j == before.recycled@.len() {
                    assert(before.recycled@.contains(self.recycled@[i]));
                }
            }
            assert forall|k: (u64, u64)| self.map@.contains_key(k) implies !self.recycled@.contains(
                #[trigger] self.map@[k],
            ) by {
                if self.recycled@.contains(self.map@[k]) {
                    let i = choose|i: int|
                        0 <= i < self.recycled@.len() && self.recycled@[i] == self.map@[k];
                    if i < before.recycled@.len() {
                        assert(before.recycled@.contains(before.map@[k]));
                    }
                }
            }
            assert(self.contents() =~= before.contents().remove((token, vpn.0)));
        }
    }

    /// Forgets every page of space `token` and frees its slots: what is
    /// done with the store when the space ends. The pages of other spaces
    /// stay as they are.
    pub fn purge(&mut self, token: u64)
        requires
            old(self).wf(),
        ensures
            final(self).wf(),
            forall|k: (u64, u64)|
                #[trigger] final(self).dir().contains_key(k) == (old(self).dir().contains_key(k)
                    && k.0 != token),
            forall|k: (u64, u64)|
                final(self).dir().contains_key(k) ==> #[trigger] final(self).dir()[k] == old(
                    self,
                ).dir()[k],
            forall|k: (u64, u64)|
                final(self).contents().contains_key(k) ==> #[trigger] final(self).contents()[k]
                    == old(self).contents()[k],
            final(self).room() == old(self).room() + old(self).held(token),
            final(self).held(token) == 0,
    {
        let ghost before = *self;
        let n: usize = self.current;
        let mut s: usize = 0;
        while s < n
            invariant
                s <= n,
                n == before.current,
                before.wf(),
                self.wf(),
                self.current == before.current,
                self.end == before.end,
                self.ide == before.ide,
                forall|k: (u64, u64)|
                    #[trigger] self.map@.contains_key(k) == (before.map@.contains_key(k) && !(k.0
                        == token && before.map@[k] < s)),
                forall|k: (u64, u64)|
                    self.map@.contains_key(k) ==> #[trigger] self.map@[k] == before.map@[k],
                forall|t: int| s <= t < n ==> #[trigger] self.owners@[t] == before.owners@[t],
                forall|t: int|
                    0 <= t < s ==> !((#[trigger] self.owners@[t]) is Some && (self.owners@[t]->0).0
                        == token),
                self.recycled@.len() == before.recycled@.len() + slots_of(
                    before.owners@,
                    token,
                    s as int,
                ),
            decreases n - s,
        {
            let ghost mid = *self;
            match self.owners[s] {
                Some(key) => {
                    if key.0 == token {
                        self.map.remove(&key);
                        self.recycled.push(s);
                        self.owners[s] = None;
                        proof {
                            assert(mid.map@.contains_key(key) && mid.map@[key] == s);
                            assert(!mid.recycled@.contains(s));
                            assert forall|i: int, j: int|
                                0 <= i < self.recycled@.len() && 0 <= j < self.recycled@.len() && i
                                    != j implies self.recycled@[i] != self.recycled@[j] by {
                                if i == mid.recycled@.len() {
                                    assert(mid.recycled@.contains(self.recycled@[j]));
                                }
                                if j == mid.recycled@.len() {
                                    assert(mid.recycled@.contains(self.recycled@[i]));
                                }
                            }
                            assert forall|k: (u64, u64)|
                                self.map@.contains_key(k) implies !self.recycled@.contains(
                                #[trigger] self.map@[k],
                            ) by {
                                if self.recycled@.contains(self.map@[k]) {
                                    let i = choose|i: int|
                                        0 <= i < self.recycled@.len() && self.recycled@[i]
                                            == self.map@[k];
                                    if i < mid.recycled@.len() {
                                        assert(mid.recycled@.contains(mid.map@[k]));
                                    }
                                }
                            }
                            assert forall|t: int|
                                0 <= t < self.owners@.len() && (#[trigger] self.owners@[t]) is Some implies self.map@.contains_key(
                                self.owners@[t]->0,
                            ) && self.map@[self.owners@[t]->0] == t by {
                                assert(mid.owners@[t] is Some);
                            }
                        }
                    }
                },
                None => {},
            }
            s = s + 1;
        }
        proof {
            assert forall|k: (u64, u64)|
                #[trigger] self.map@.contains_key(k) == (before.map@.contains_key(k) && k.0
                    != token) by {
                if before.map@.contains_key(k) {
                    assert(before.map@[k] < n);
                }
            }
            assert forall|k: (u64, u64)| self.contents().contains_key(k) implies #[trigger] self.contents()[k]
                == before.contents()[k] by {}
            lemma_slots_none(self.owners@, token, n as int);
        }
    }

    /// Whether the store holds the page `(token, vpn)`.
    pub fn check(&self, token: u64, vpn: VirtPageNum) -> (r: bool)
        ensures
            r == self.dir().contains_key((token, vpn.0)),
            r == self.contents().contains_key((token, vpn.0)),
    {
        self.map.get(&(token, vpn.0)).is_some()
    }
}

/// The reverse map: for each frame that backs a page of a framed area, the
/// virtual page that occupies it. A plain table of page numbers; it owns no
/// frame.
pub struct ReverseMap {
    map: BTreeMap<u64, u64>,
}

impl View for ReverseMap {
    type V = Map<u64, u64>;

    closed spec fn view(&self) -> Map<u64, u64> {
        self.map@
    }
}

impl ReverseMap {
    /// The empty map.
    pub fn new() -> (r: ReverseMap)
        ensures
            r@ == Map::<u64, u64>::empty(),
    {
        ReverseMap { map: BTreeMap::new() }
    }

    /// Records that `vpn` occupies `ppn`.
    pub fn insert(&mut self, ppn: PhysPageNum, vpn: VirtPageNum)
        ensures
            final(self)@ == old(self)@.insert(ppn.0, vpn.0),
    {
        self.map.insert(ppn.0, vpn.0);
    }

    /// Forgets frame `ppn`.
    pub fn remove(&mut self, ppn: PhysPageNum)
        ensures
            final(self)@ == old(self)@.remove(ppn.0),
    {
        self.map.remove(&ppn.0);
    }

    /// The page that occupies `ppn`, if one is recorded.
    pub fn get(&self, ppn: PhysPageNum) -> (r: Option<VirtPageNum>)
        ensures
            r == (if self@.contains_key(ppn.0) {
                Some(VirtPageNum(self@[ppn.0]))
            } else {
                None
            }),
    {
        match self.map.get(&ppn.0) {
            Some(vpn) => Some(VirtPageNum(*vpn)),
            None => None,
        }
    }
}

/// The conditions on which the kernel cannot go on.
#[derive(Copy, Clone, PartialEq, Eq, Structural, Debug)]
pub enum FatalFault {
    /// A page must leave memory and the swap store has no free slot.
    SwapFull,
    /// A frame is needed, none is free and none can be evicted.
    OutOfFrames,
    /// A fault in an identical area, whose pages are always mapped.
    IdenticalArea,
}

/// Number of frames that the local policy of `ms` can give up.
pub open spec fn evictable(ms: MemorySet) -> nat {
    if LocalFrameManager::is_local(ms.frame_manager.pra()) {
        ms.frame_manager.frames().len()
    } else {
        0
    }
}

/// Evicts the page that the local policy of `ms` picks, and returns its
/// frame. Fails, changing nothing, where the policy has no frame to give or
/// the swap store is full.
#[verifier::rlimit(60)]
pub fn evict_next(
    ms: &mut MemorySet,
    swap: &mut IdeManager,
    p2v: &mut ReverseMap,
    allocator: &mut StackFrameAllocator,
) -> (r: Result<PhysPageNum, FatalFault>)
    requires
        old(ms).inv(old(p2v)@, *old(allocator)),
        old(swap).wf(),
    ensures
        evictable(*old(ms)) == 0 ==> r == Err::<PhysPageNum, FatalFault>(FatalFault::OutOfFrames),
        evictable(*old(ms)) > 0 && old(swap).room() == 0 ==> r == Err::<PhysPageNum, FatalFault>(
            FatalFault::SwapFull,
        ),
        evictable(*old(ms)) > 0 && old(swap).room() > 0 ==> r is Ok,
        r is Err ==> {
            &&& *final(ms) == *old(ms)
            &&& *final(swap) == *old(swap)
            &&& *final(p2v) == *old(p2v)
            &&& *final(allocator) == *old(allocator)
        },
        r is Ok ==> {
            let ppn = (r->Ok_0).0;
            let vpn = old(p2v)@[ppn];
            &&& final(ms).inv(final(p2v)@, *final(allocator))
            &&& old(ms).frame_manager.frames().contains(ppn)
            &&& old(ms).backs(ppn, old(p2v)@)
            &&& evictable(*final(ms)) == evictable(*old(ms)) - 1
            &&& final(ms).frame_manager.pra() == old(ms).frame_manager.pra()
            &&& old(ms).same_layout(*final(ms))
            &&& final(ms).page_table.same_tables(old(ms).page_table)
            &&& final(ms).page_table@.dom() == old(ms).page_table@.dom().remove(vpn)
            &&& forall|w: u64| #[trigger] final(ms).resident(w) == (old(ms).resident(w) && w != vpn)
            &&& forall|w: u64|
                final(ms).resident(w) ==> #[trigger] final(ms).frame(w) == old(ms).frame(w)
            &&& forall|p: u64| #[trigger] final(ms).owns(p) == (old(ms).owns(p) && p != ppn)
            &&& final(p2v)@ == old(p2v)@.remove(ppn)
            &&& final(allocator).after_giving(*old(allocator), ppn)
            &&& final(swap).wf()
            &&& final(swap).room() == old(swap).room() - 1
            &&& final(swap).contents() == old(swap).contents().insert(
                (old(ms).spec_token(), vpn),
                old(ms).frame(vpn).data@,
            )
            &&& old(ms).swap_free(old(swap).dir()) ==> final(ms).swap_free(final(swap).dir())
            &&& forall|w: u64| #[trigger]
                final(ms).content(*final(swap), w) == old(ms).content(*old(swap), w)
            &&& forall|w: u64|
                final(ms).page_table@.contains_key(w) && !old(ms).resident(w)
                    ==> #[trigger] final(ms).page_table@[w] == old(ms).page_table@[w]
            &&& old(ms).frame_manager.pra() == PRA::FIFO ==> {
                &&& ppn == old(ms).frame_manager.frames()[0]
                &&& final(ms).frame_manager.frames() == old(ms).frame_manager.frames().drop_first()
                &&& forall|w: u64|
                    final(ms).resident(w) ==> #[trigger] final(ms).page_table@[w] == old(
                        ms,
                    ).page_table@[w]
            }
            &&& old(ms).frame_manager.pra() != PRA::FIFO ==> {
                let improved = old(ms).frame_manager.pra() == PRA::ClockImproved;
                let clock = old(ms).frame_manager.clock();
                let at = clock.victim(old(ms).page_table@, old(p2v)@, improved);
                &&& ppn == old(ms).frame_manager.frames()[at]
                &&& clock.scanned(
                    final(ms).frame_manager.clock(),
                    old(ms).page_table@,
                    final(ms).page_table@.insert(
                        vpn,
                        clock_demoted(
                            old(ms).page_table@[vpn],
                            clock_rank(old(ms).page_table@[vpn], improved),
                            improved,
                        ),
                    ),
                    old(p2v)@,
                    improved,
                )
                &&& final(ms).frame_manager.frames() == final(ms).frame_manager.clock().frames()
            }
        },
{
    let ghost m0 = *ms;
    let local: bool = match ms.frame_manager.used_pra() {
        crate::mm::frame_manager::PRA::FIFO => true,
        crate::mm::frame_manager::PRA::Clock => true,
        crate::mm::frame_manager::PRA::ClockImproved => true,
        _ => false,
    };
    if !local || ms.frame_manager.len() == 0 {
        return Err(FatalFault::OutOfFrames);
    }
    if !swap.has_room() {
        return Err(FatalFault::SwapFull);
    }
    let ppn = ms.get_next_frame(p2v).unwrap();
    let ghost m1 = *ms;
    proof {
        m1.lemma_same_areas(m0);
        assert(m1.allocated_by(*allocator)) by {
            assert forall|i: int, w: u64| #[trigger] m1.holds(i, w) implies allocator.allocated(
                m1.areas@[i].frames()[w].ppn.0,
            ) by {
                assert(m0.holds(i, w));
            }
        }
        assert(m1.page_table.spec_token() == m0.page_table.spec_token());
        assert forall|w: u64| #[trigger] m1.content(*swap, w) == m0.content(*swap, w) by {}
        if m0.swap_free(swap.dir()) {
            assert forall|w: u64| #[trigger] m1.resident(w) implies !swap.dir().contains_key(
                (m1.spec_token(), w),
            ) by {
                assert(m0.resident(w));
            }
        }
    }
    ms.evict(ppn, swap, p2v, allocator);
    proof {
        let vpn = old(p2v)@[ppn.0];
        assert(ms.page_table@.dom() =~= m0.page_table@.dom().remove(vpn));
        assert forall|w: u64|
            ms.page_table@.contains_key(w) && !m0.resident(w) implies #[trigger] ms.page_table@[w]
            == m0.page_table@[w] by {
            assert(ms.page_table@[w] == m1.page_table@[w]);
            m0.frame_manager.lemma_frames();
            if m0.frame_manager.pra() != PRA::FIFO {
                let clock = m0.frame_manager.clock();
                assert forall|i: int| 0 <= i < clock.frames().len() implies old(p2v)@[
                    #[trigger] clock.frames()[i]] != w by {
                    assert(m0.frame_manager.frames()[i] == clock.frames()[i]);
                    assert(m0.resident(old(p2v)@[m0.frame_manager.frames()[i]]));
                }
            }
            assert(m1.page_table@[w] == m0.page_table@[w]);
        }
        m0.frame_manager.lemma_frames();
        m1.frame_manager.lemma_frames();
        if m0.frame_manager.pra() != PRA::FIFO {
            let improved = m0.frame_manager.pra() == PRA::ClockImproved;
            let clock = m0.frame_manager.clock();
            let at = clock.victim(m0.page_table@, old(p2v)@, improved);
            assert(clock.frames()[at] == ppn.0);
            assert(m1.page_table@[vpn] == clock_demoted(
                clock.pte_at(at, m0.page_table@, old(p2v)@),
                clock.passes(at, at, m0.page_table@, old(p2v)@, improved),
                improved,
            ));
            assert(ms.page_table@.insert(vpn, m1.page_table@[vpn]) =~= m1.page_table@);
        } else {
            assert forall|w: u64| ms.resident(w) implies #[trigger] ms.page_table@[w]
                == m0.page_table@[w] by {
                assert(m1.resident(w));
                m1.lemma_resident(w, old(p2v)@);
            }
        }
    }
    Ok(ppn)
}

/// How the bringing-in of a page ends, from what is at hand: whether
/// evictions are allowed, the number of free frames, of frames that the
/// policy can give up and of free swap slots, whether the page is in the
/// swap store, and the number of page-table nodes that mapping it takes.
///
/// Where evictions are allowed, a frame is evicted first where none is
/// free, and one more where taking the frame for the page leaves none
/// free.
pub open spec fn bring_in_outcome(
    local: bool,
    free: nat,
    evictable: nat,
    room: nat,
    in_swap: bool,
    missing: nat,
) -> Result<(), FatalFault> {
    if !local {
        if free == 0 || missing > free - 1 {
            Err(FatalFault::OutOfFrames)
        } else {
            Ok(())
        }
    } else {
        let first = free == 0;
        let second = free <= 1;
        let evictable2 = if first {
            evictable - 1
        } else {
            evictable as int
        };
        let room2 = room - (if first {
            1int
        } else {
            0int
        }) + (if in_swap {
            1int
        } else {
            0int
        });
        let free2 = if second {
            1int
        } else {
            free - 1
        };
        if first && evictable == 0 {
            Err(FatalFault::OutOfFrames)
        } else if first && room == 0 {
            Err(FatalFault::SwapFull)
        } else if second && evictable2 == 0 {
            Err(FatalFault::OutOfFrames)
        } else if second && room2 == 0 {
            Err(FatalFault::SwapFull)
        } else if missing > free2 {
            Err(FatalFault::OutOfFrames)
        } else {
            Ok(())
        }
    }
}

/// Number of pages that the bringing-in of a page evicts where it
/// succeeds with `free` free frames at hand.
pub open spec fn evictions(local: bool, free: nat) -> int {
    if !local {
        0
    } else if free == 0 {
        2
    } else if free == 1 {
        1
    } else {
        0
    }
}

/// The index of the first area of `ms` that covers `vpn`.
pub open spec fn first_area(ms: MemorySet, vpn: u64) -> int {
    choose|i: int|
        0 <= i < ms.areas@.len() && (#[trigger] ms.areas@[i]).vpn_range.contains(vpn as int)
}

/// Whether `after` with its tables is the space `ms` with its tables after
/// page `vpn` of area `i` was brought in: the page is resident, with the
/// bytes it had in the swap store or with zeros, under a fresh entry with
/// the permissions of the area; every other page has the bytes it had; a
/// page that left memory for it is no longer translated, and no other
/// page lost or won a translation; and the change kept to this space.
pub open spec fn brought_in(
    ms: MemorySet,
    after: MemorySet,
    i: int,
    vpn: u64,
    p2v: Map<u64, u64>,
    p2v2: Map<u64, u64>,
    al: StackFrameAllocator,
    al2: StackFrameAllocator,
    sw: IdeManager,
    sw2: IdeManager,
) -> bool {
    &&& after.inv(p2v2, al2)
    &&& sw2.wf()
    &&& ms.swap_free(sw.dir()) ==> after.swap_free(sw2.dir())
    &&& ms.stepped(after, p2v, p2v2, al, al2, sw, sw2)
    &&& ms.same_layout(after)
    &&& after.resident(vpn)
    &&& after.frame(vpn).data@ == (match ms.content(sw, vpn) {
        Some(bytes) => bytes,
        None => zero_page(),
    })
    &&& forall|w: u64| w != vpn ==> #[trigger] after.content(sw2, w) == ms.content(sw, w)
    &&& forall|w: u64| w != vpn && #[trigger] after.resident(w) ==> ms.resident(w)
    &&& forall|w: u64|
        w != vpn ==> #[trigger] after.page_table@.contains_key(w) == (ms.page_table@.contains_key(
            w,
        ) && (after.resident(w) || !ms.resident(w)))
    &&& forall|w: u64|
        w != vpn && after.page_table@.contains_key(w) && !ms.resident(w)
            ==> #[trigger] after.page_table@[w] == ms.page_table@[w]
    &&& after.page_table@.contains_key(vpn)
    &&& after.page_table@[vpn] == PageTableEntry::spec_new(
        after.frame(vpn).ppn.0,
        ms.areas@[i].map_perm.bits | 0x01,
    )
    &&& after.frame_manager.pra() == ms.frame_manager.pra()
    &&& after.frame_manager.frames().last() == after.frame(vpn).ppn.0
}

/// Whether `after` is what bringing page `vpn` in with `evicted` evictions
/// makes of the queue and the resident pages of `ms` under FIFO: the
/// oldest `evicted` frames are gone with their pages, and the frame of the
/// new page is the youngest.
pub open spec fn fifo_turnover(ms: MemorySet, after: MemorySet, vpn: u64, evicted: int) -> bool {
    let queue = ms.frame_manager.frames();
    &&& after.frame_manager.frames() == queue.skip(evicted).push(after.frame(vpn).ppn.0)
    &&& forall|w: u64|
        w != vpn ==> #[trigger] after.resident(w) == (ms.resident(w) && !queue.take(
            evicted,
        ).contains(ms.frame(w).ppn.0))
}

/// The page that a clock policy of `ms` evicts next: the page of the
/// frame at which the scan of the ring ends.
pub open spec fn clock_victim(ms: MemorySet, p2v: Map<u64, u64>) -> u64 {
    let improved = ms.frame_manager.pra() == PRA::ClockImproved;
    let at = ms.frame_manager.clock().victim(ms.page_table@, p2v, improved);
    p2v[ms.frame_manager.frames()[at]]
}

/// Whether `after` is what bringing page `vpn` in with `evicted` evictions
/// makes of `ms` under a clock policy: the first page to leave is the one
/// that the scan picks in `ms`. Where one page leaves, no other does, the
/// frame of the new page joins the ring at its end, the hand stands
/// behind the place of the victim, and each page that stays has lost the
/// bits that the passes of the hand took.
pub open spec fn clock_turnover(
    ms: MemorySet,
    after: MemorySet,
    vpn: u64,
    evicted: int,
    p2v: Map<u64, u64>,
) -> bool {
    let gone = clock_victim(ms, p2v);
    let improved = ms.frame_manager.pra() == PRA::ClockImproved;
    let clock = ms.frame_manager.clock();
    let pt = ms.page_table@;
    let at = clock.victim(pt, p2v, improved);
    &&& evicted >= 1 ==> ms.resident(gone) && !after.resident(gone)
    &&& evicted == 1 ==> {
        &&& forall|w: u64| w != vpn ==> #[trigger] after.resident(w) == (ms.resident(w) && w != gone)
        &&& after.frame_manager.frames() == clock.frames().remove(at).push(after.frame(vpn).ppn.0)
        &&& after.frame_manager.clock().hand() == (if at == clock.frames().len() - 1 {
            0
        } else {
            at
        })
        &&& forall|i: int|
            0 <= i < clock.frames().len() && i != at ==> after.page_table@[p2v[
                #[trigger] clock.frames()[i]]] == clock_demoted(
                clock.pte_at(i, pt, p2v),
                clock.passes(i, at, pt, p2v, improved),
                improved,
            )
    }
}

/// Brings page `vpn` of the framed area `i` of `ms` into memory: takes a
/// frame, fills it from the swap store where the page is there, freeing
/// the slot, and installs the page. With `local`, a page is evicted by the
/// local policy first where no frame is free, and one page more where
/// taking the frame leaves the allocator empty. On `Err` the kernel cannot
/// go on, and nothing is said of the state.
#[verifier::rlimit(60)]
pub fn bring_in(
    ms: &mut MemorySet,
    i: usize,
    vpn: VirtPageNum,
    local: bool,
    swap: &mut IdeManager,
    p2v: &mut ReverseMap,
    allocator: &mut StackFrameAllocator,
) -> (r: Result<(), FatalFault>)
    requires
        old(ms).inv(old(p2v)@, *old(allocator)),
        old(swap).wf(),
        vpn.in_space(),
        i < old(ms).areas@.len(),
        old(ms).areas@[i as int].vpn_range.contains(vpn.0 as int),
        old(ms).areas@[i as int].map_type == MapType::Framed,
        !old(ms).page_table@.contains_key(vpn.0),
    ensures
        r == bring_in_outcome(
            local,
            old(allocator).free().len(),
            evictable(*old(ms)),
            old(swap).room(),
            old(swap).contents().contains_key((old(ms).spec_token(), vpn.0)),
            old(ms).page_table.missing_tables(vpn.0 as int),
        ),
        r is Ok ==> {
            &&& brought_in(
                *old(ms),
                *final(ms),
                i as int,
                vpn.0,
                old(p2v)@,
                final(p2v)@,
                *old(allocator),
                *final(allocator),
                *old(swap),
                *final(swap),
            )
            &&& final(ms).frame_manager.frames().len() == old(ms).frame_manager.frames().len()
                - evictions(local, old(allocator).free().len()) + 1
            &&& final(allocator).free().len() == old(allocator).free().len() + evictions(
                local,
                old(allocator).free().len(),
            ) - 1 - old(ms).page_table.missing_tables(vpn.0 as int)
            &&& final(swap).room() == old(swap).room() - evictions(
                local,
                old(allocator).free().len(),
            ) + (if old(swap).contents().contains_key((old(ms).spec_token(), vpn.0)) {
                1int
            } else {
                0int
            })
            &&& evictions(local, old(allocator).free().len()) == 0 ==> forall|w: u64|
                w != vpn.0 ==> #[trigger] final(ms).resident(w) == old(ms).resident(w)
            &&& old(ms).frame_manager.pra() == PRA::FIFO ==> fifo_turnover(
                *old(ms),
                *final(ms),
                vpn.0,
                evictions(local, old(allocator).free().len()),
            )
            &&& old(ms).frame_manager.pra() != PRA::FIFO ==> clock_turnover(
                *old(ms),
                *final(ms),
                vpn.0,
                evictions(local, old(allocator).free().len()),
                old(p2v)@,
            )
        },
{
    let ghost m0 = *ms;
    let ghost p0 = p2v@;
    let ghost a0 = *allocator;
    let ghost s0 = *swap;
    let ghost v = vpn.0;
    let token: u64 = ms.token();
    proof {
        if m0.resident(v) {
            m0.lemma_resident(v, p0);
        }
    }
    // A frame for the page, after an eviction where none is free.
    if !frame_check(allocator) {
        if !local {
            return Err(FatalFault::OutOfFrames);
        }
        match evict_next(ms, swap, p2v, allocator) {
            Ok(_) => {},
            Err(e) => {
                return Err(e);
            },
        }
    }
    let ghost m1 = *ms;
    let ghost p1 = p2v@;
    let ghost a1 = *allocator;
    let ghost s1 = *swap;
    proof {
        a1.lemma_free_not_allocated();
        assert(m0.same_layout(m1));
        assert(!m1.resident(v));
        assert(m1.content(s1, v) == m0.content(s0, v));
    }
    let mut frame = frame_alloc(allocator).unwrap();
    let ghost ppn = frame.ppn.0;
    let ghost a2 = *allocator;
    proof {
        assert(!a1.allocated(ppn));
        if m1.owns(ppn) {
            m1.lemma_owns_allocated(ppn, p1, a1);
        }
        assert(m1.allocated_by(a2)) by {
            assert forall|k: int, w: u64| #[trigger] m1.holds(k, w) implies a2.allocated(
                m1.areas@[k].frames()[w].ppn.0,
            ) by {}
        }
    }
    if swap.check(token, vpn) {
        swap.swap_out(token, vpn, &mut frame.data);
    }
    let ghost s2 = *swap;
    let ghost data = frame.data@;
    proof {
        assert(data == (match m0.content(s0, v) {
            Some(bytes) => bytes,
            None => zero_page(),
        }));
        assert(!s2.contents().contains_key((token, v)));
        assert forall|w: u64| w != v implies #[trigger] m1.content(s2, w) == m0.content(s0, w) by {
            assert(m1.content(s1, w) == m0.content(s0, w));
        }
        if m0.swap_free(s0.dir()) {
            assert forall|w: u64| #[trigger] m1.resident(w) implies !s2.dir().contains_key(
                (m1.spec_token(), w),
            ) by {}
        }
    }
    // One page more leaves where the allocator is empty now.
    if local && !frame_check(allocator) {
        match evict_next(ms, swap, p2v, allocator) {
            Ok(_) => {},
            Err(e) => {
                return Err(e);
            },
        }
    }
    let ghost m3 = *ms;
    let ghost p3 = p2v@;
    let ghost a3 = *allocator;
    let ghost s3 = *swap;
    let need: usize = ms.page_table.tables_needed(vpn);
    if !allocator.has_free(need) {
        return Err(FatalFault::OutOfFrames);
    }
    proof {
        assert(m0.same_layout(m3));
        assert(!m3.owns(ppn));
        assert(a3.allocated(ppn));
        assert(!m3.page_table@.contains_key(v));
        assert(!s3.contents().contains_key((token, v)));
        assert forall|w: u64| w != v implies #[trigger] m3.content(s3, w) == m0.content(s0, w) by {
            assert(m3.content(s3, w) == m1.content(s2, w));
            assert(m1.content(s2, w) == m0.content(s0, w));
        }
    }
    ms.install(i, vpn, frame, true, p2v, allocator);
    proof {
        let m4 = *ms;
        let p4 = p2v@;
        let a4 = *allocator;
        let taken = a3.free().take(need as int);
        a3.lemma_free_not_allocated();
        assert(m4.spec_token() == m0.spec_token());
        assert forall|w: u64| w != v implies #[trigger] m4.content(s3, w) == m0.content(s0, w) by {
            assert(m3.content(s3, w) == m0.content(s0, w));
            if m3.resident(w) {
                assert(m4.frame(w) == m3.frame(w));
            }
        }
        if m0.swap_free(s0.dir()) {
            assert forall|w: u64| #[trigger] m4.resident(w) implies !s3.dir().contains_key(
                (m4.spec_token(), w),
            ) by {
                if w != v {
                    assert(m3.resident(w));
                }
            }
        }
        assert forall|w: u64| w != v && #[trigger] m4.resident(w) implies m0.resident(w) by {
            assert(m3.resident(w));
            assert(m1.resident(w));
        }
        assert forall|w: u64| w != v implies #[trigger] m4.page_table@.contains_key(w) == (
        m0.page_table@.contains_key(w) && (m4.resident(w) || !m0.resident(w))) by {
            assert(m4.page_table@.contains_key(w) == m3.page_table@.contains_key(w));
            assert(m4.resident(w) == m3.resident(w));
            assert(m1.page_table@.dom().contains(w) == (m0.page_table@.contains_key(w) && (
            m1.resident(w) || !m0.resident(w))));
            assert(m3.page_table@.dom().contains(w) == (m1.page_table@.contains_key(w) && (
            m3.resident(w) || !m1.resident(w))));
        }
        assert forall|w: u64|
            w != v && m4.page_table@.contains_key(w) && !m0.resident(w) implies #[trigger] m4.page_table@[w]
            == m0.page_table@[w] by {
            assert(m4.page_table@[w] == m3.page_table@[w]);
            assert(!m1.resident(w));
            assert(!m3.resident(w));
            assert(m1.page_table@.contains_key(w));
            assert(m3.page_table@[w] == m1.page_table@[w]);
            assert(m1.page_table@[w] == m0.page_table@[w]);
        }
        // The change kept to this space.
        assert forall|t: int| 0 <= t < taken.len() implies !a3.allocated(#[trigger] taken[t]) by {
            assert(a3.free()[t] == taken[t]);
        }
        assert forall|p: u64| #[trigger] a0.allocated(p) && !m0.owns(p) implies {
            &&& a4.allocated(p)
            &&& p4.contains_key(p) == p0.contains_key(p)
            &&& p0.contains_key(p) ==> p4[p] == p0[p]
        } by {
            assert(a1.allocated(p));
            assert(!m1.owns(p));
            assert(p != ppn);
            assert(a2.allocated(p));
            assert(a3.allocated(p));
        }
        assert forall|p: u64| #[trigger] m4.owns(p) implies m0.owns(p) || !a0.allocated(p) by {
            if p == ppn {
            } else if taken.contains(p) {
                assert(!a3.allocated(p));
            } else {
                assert(m3.owns(p));
                assert(m1.owns(p));
            }
        }
        assert forall|p: u64| #[trigger] p4.contains_key(p) implies m4.backs(p, p4) || (
        p0.contains_key(p) && p4[p] == p0[p] && !m0.backs(p, p0)) by {
            if p == ppn {
                assert(m4.backs(p, p4));
            } else {
                assert(p3.contains_key(p));
                assert(p1.contains_key(p));
                assert(p0.contains_key(p));
                assert(p4[p] == p0[p]);
                if m0.backs(p, p0) {
                    assert(m1.resident(p0[p]));
                    assert(m1.frame(p0[p]) == m0.frame(p0[p]));
                    assert(m3.resident(p0[p]));
                    assert(m3.frame(p0[p]) == m1.frame(p0[p]));
                    assert(m4.resident(p0[p]));
                    assert(m4.frame(p0[p]) == m3.frame(p0[p]));
                }
            }
        }
        assert forall|k: (u64, u64)| k.0 != m0.spec_token() implies {
            &&& (#[trigger] s3.contents().contains_key(k)) == s0.contents().contains_key(k)
            &&& s0.contents().contains_key(k) ==> s3.contents()[k] == s0.contents()[k]
        } by {
            assert(s1.contents().contains_key(k) == s0.contents().contains_key(k));
            assert(s2.contents().contains_key(k) == s1.contents().contains_key(k));
        }
        assert(m0.stepped(m4, p0, p4, a0, a4, s0, s3));
        if evictions(local, a0.free().len()) == 0 {
            assert forall|w: u64| w != v implies #[trigger] m4.resident(w) == m0.resident(w) by {
                assert(m4.resident(w) == m3.resident(w));
            }
        }
        if m0.frame_manager.pra() != PRA::FIFO {
            let e = evictions(local, a0.free().len());
            let gone = clock_victim(m0, p0);
            if e == 2 {
                assert(m0.resident(gone));
                assert(!m1.resident(gone));
                if m4.resident(gone) {
                    assert(m3.resident(gone));
                    assert(m1.resident(gone));
                }
            } else if e == 1 {
                assert(m1 == m0);
                assert(p1 == p0);
                assert(m1.resident(gone));
                assert forall|w: u64| w != v implies #[trigger] m4.resident(w) == (m0.resident(w)
                    && w != gone) by {
                    assert(m4.resident(w) == m3.resident(w));
                }
                let improved = m0.frame_manager.pra() == PRA::ClockImproved;
                let clock = m0.frame_manager.clock();
                let pt = m0.page_table@;
                let at = clock.victim(pt, p0, improved);
                m0.lemma_scannable(p0);
                m0.frame_manager.lemma_frames();
                assert forall|i: int|
                    0 <= i < clock.frames().len() && i != at implies m4.page_table@[p0[
                    #[trigger] clock.frames()[i]]] == clock_demoted(
                    clock.pte_at(i, pt, p0),
                    clock.passes(i, at, pt, p0, improved),
                    improved,
                ) by {
                    let w = p0[clock.frames()[i]];
                    assert(pt.contains_key(w));
                    assert(w != gone);
                    assert(m3.page_table@.insert(
                        gone,
                        clock_demoted(pt[gone], clock_rank(pt[gone], improved), improved),
                    )[w] == m3.page_table@[w]);
                }
            }
        }
        if m0.frame_manager.pra() == PRA::FIFO {
            let e = evictions(local, a0.free().len());
            let q0 = m0.frame_manager.frames();
            let q1 = m1.frame_manager.frames();
            let q3 = m3.frame_manager.frames();
            assert(q3 =~= q0.skip(e));
            assert(m4.frame_manager.frames() =~= q0.skip(e).push(m4.frame(v).ppn.0));
            assert forall|w: u64| w != v implies #[trigger] m4.resident(w) == (m0.resident(w)
                && !q0.take(e).contains(m0.frame(w).ppn.0)) by {
                assert(m4.resident(w) == m3.resident(w));
                if m0.resident(w) {
                    m0.lemma_resident(w, p0);
                    let p = m0.frame(w).ppn.0;
                    if !local {
                        assert(e == 0);
                        assert(q0.take(e) =~= Seq::<u64>::empty());
                    } else if a0.free().len() == 0 {
                        // The oldest frame left first, the next oldest second.
                        assert(e == 2);
                        assert(q1 == q0.drop_first());
                        assert(q1[0] == q0[1]);
                        assert(q0.take(e)[0] == q0[0]);
                        assert(q0.take(e)[1] == q0[1]);
                        assert(m1.resident(w) == (p != q0[0]));
                        if m1.resident(w) {
                            m1.lemma_resident(w, p1);
                            assert(m1.frame(w) == m0.frame(w));
                            assert(m3.resident(w) == (p != q0[1]));
                        }
                        if q0.take(e).contains(p) {
                            let k = choose|k: int| 0 <= k < q0.take(e).len() && q0.take(e)[k] == p;
                            assert(q0[k] == p);
                        }
                    } else if a0.free().len() == 1 {
                        assert(e == 1);
                        assert(m1 == m0);
                        assert(q0.take(e)[0] == q0[0]);
                        assert(m3.resident(w) == (p != q0[0]));
                        if q0.take(e).contains(p) {
                            let k = choose|k: int| 0 <= k < q0.take(e).len() && q0.take(e)[k] == p;
                            assert(q0[k] == p);
                        }
                    } else {
                        assert(e == 0);
                        assert(q0.take(e) =~= Seq::<u64>::empty());
                    }
                }
            }
        }
    }
    Ok(())
}

/// How a fault on a page that no valid entry translates ends under a
/// local policy: with `Ok(false)` where no area covers the page, with a
/// fatal fault where the area is identical, else as the bringing-in ends.
pub open spec fn local_outcome(
    covered: bool,
    identical: bool,
    bring: Result<(), FatalFault>,
) -> Result<bool, FatalFault> {
    if !covered {
        Ok(false)
    } else if identical {
        Err(FatalFault::IdenticalArea)
    } else {
        match bring {
            Ok(_) => Ok(true),
            Err(e) => Err(e),
        }
    }
}

/// Handles a fault on page `vpn` of `ms` under the local policy of `ms`.
///
/// Returns `Ok(false)`, changing nothing, where no area covers the page.
/// Else brings the page in, with evictions where frames are short (see
/// `bring_in`). On `Err` the kernel cannot go on, and nothing is said of
/// the state.
pub fn local_pra(
    ms: &mut MemorySet,
    vpn: VirtPageNum,
    swap: &mut IdeManager,
    p2v: &mut ReverseMap,
    allocator: &mut StackFrameAllocator,
) -> (r: Result<bool, FatalFault>)
    requires
        old(ms).inv(old(p2v)@, *old(allocator)),
        old(swap).wf(),
        vpn.in_space(),
        !old(ms).page_table@.contains_key(vpn.0),
    ensures
        r == local_outcome(
            old(ms).covered(vpn.0),
            old(ms).areas@[first_area(*old(ms), vpn.0)].map_type == MapType::Identical,
            bring_in_outcome(
                true,
                old(allocator).free().len(),
                evictable(*old(ms)),
                old(swap).room(),
                old(swap).contents().contains_key((old(ms).spec_token(), vpn.0)),
                old(ms).page_table.missing_tables(vpn.0 as int),
            ),
        ),
        r == Ok::<bool, FatalFault>(false) || r == Err::<bool, FatalFault>(
            FatalFault::IdenticalArea,
        ) ==> {
            &&& *final(ms) == *old(ms)
            &&& *final(swap) == *old(swap)
            &&& *final(p2v) == *old(p2v)
            &&& *final(allocator) == *old(allocator)
        },
        r == Ok::<bool, FatalFault>(true) ==> {
            &&& brought_in(
                *old(ms),
                *final(ms),
                first_area(*old(ms), vpn.0),
                vpn.0,
                old(p2v)@,
                final(p2v)@,
                *old(allocator),
                *final(allocator),
                *old(swap),
                *final(swap),
            )
            &&& final(ms).frame_manager.frames().len() == old(ms).frame_manager.frames().len()
                - evictions(true, old(allocator).free().len()) + 1
            &&& final(allocator).free().len() == old(allocator).free().len() + evictions(
                true,
                old(allocator).free().len(),
            ) - 1 - old(ms).page_table.missing_tables(vpn.0 as int)
            &&& old(ms).frame_manager.pra() == PRA::FIFO ==> fifo_turnover(
                *old(ms),
                *final(ms),
                vpn.0,
                evictions(true, old(allocator).free().len()),
            )
            &&& old(ms).frame_manager.pra() != PRA::FIFO ==> clock_turnover(
                *old(ms),
                *final(ms),
                vpn.0,
                evictions(true, old(allocator).free().len()),
                old(p2v)@,
            )
        },
{
    let ghost m0 = *ms;
    let ghost v = vpn.0;
    let found = ms.find_area(vpn);
    if found.is_none() {
        return Ok(false);
    }
    let i: usize = found.unwrap();
    proof {
        let fi = first_area(m0, v);
        assert(m0.areas@[i as int].vpn_range.contains(v as int));
        assert(m0.areas@[fi].vpn_range.contains(v as int));
        if fi != i {
            assert(crate::mm::memory_set::ranges_disjoint_spec(m0, fi, i as int));
        }
    }
    if ms.areas[i].map_type == MapType::Identical {
        return Err(FatalFault::IdenticalArea);
    }
    match bring_in(ms, i, vpn, true, swap, p2v, allocator) {
        Ok(_) => Ok(true),
        Err(e) => Err(e),
    }
}

/// Number of pages that the global policy evicts at a fault at time `now`,
/// if the swap store has room for them.
pub open spec fn global_evictions(
    gfm: GlobalFrameManager,
    spaces: Seq<MemorySet>,
    recorder: Seq<BTreeMap<(u64, u64), bool>>,
    p2v: Map<u64, u64>,
    now: u64,
) -> nat {
    match gfm.pra() {
        PRA::WorkingSet => idle_total(spaces, recorder, p2v),
        PRA::PageFaultFrequency => if gfm.last_fault() != 0 && now - gfm.last_fault() > PFF_T {
            idle_total(spaces, Seq::<BTreeMap<(u64, u64), bool>>::empty(), p2v)
        } else {
            0
        },
        _ => 0,
    }
}

/// The samples by which the global policy in use judges a page idle: the
/// history under the working set, none under page-fault frequency.
pub open spec fn global_history(
    gfm: GlobalFrameManager,
    recorder: Seq<BTreeMap<(u64, u64), bool>>,
) -> Seq<BTreeMap<(u64, u64), bool>> {
    if gfm.pra() == PRA::WorkingSet {
        recorder
    } else {
        Seq::empty()
    }
}

/// Whether the global policy evicts at a fault at time `now`, rather than
/// ages or does nothing.
pub open spec fn global_trims(gfm: GlobalFrameManager, now: u64) -> bool {
    gfm.pra() == PRA::WorkingSet || (gfm.pra() == PRA::PageFaultFrequency && gfm.last_fault() != 0
        && now - gfm.last_fault() > PFF_T)
}

/// Whether the global policy ages at a fault at time `now`.
pub open spec fn global_ages(gfm: GlobalFrameManager, now: u64) -> bool {
    gfm.pra() == PRA::PageFaultFrequency && gfm.last_fault() != 0 && now - gfm.last_fault()
        <= PFF_T
}

/// How a fault on a page that no valid entry translates ends under a
/// global policy: with `Ok(false)` where no area covers the page; with a
/// fatal fault where the swap store has no room for the pages that the
/// policy evicts, where the area is identical, or where the frames at hand
/// after the evictions do not suffice for the page and the page-table nodes
/// that it takes.
pub open spec fn global_outcome(
    covered: bool,
    identical: bool,
    evicted: nat,
    room: nat,
    free: nat,
    missing: nat,
) -> Result<bool, FatalFault> {
    if !covered {
        Ok(false)
    } else if evicted > room {
        Err(FatalFault::SwapFull)
    } else if identical {
        Err(FatalFault::IdenticalArea)
    } else if free + evicted == 0 || missing > free + evicted - 1 {
        Err(FatalFault::OutOfFrames)
    } else {
        Ok(true)
    }
}

/// Handles a fault on page `vpn` of the current space under the global
/// policy, at time `now`.
///
/// Returns `Ok(false)`, changing nothing, where no area covers the page.
/// Else lets the policy evict or age (see `GlobalFrameManager::work`), and
/// brings the page in without further evictions. On `Err` the kernel
/// cannot go on, and nothing is said of the state.
#[verifier::rlimit(60)]
pub fn global_pra(
    ready: &mut Vec<MemorySet>,
    current: &mut MemorySet,
    vpn: VirtPageNum,
    gfm: &mut GlobalFrameManager,
    recorder: &Vec<BTreeMap<(u64, u64), bool>>,
    now: u64,
    swap: &mut IdeManager,
    p2v: &mut ReverseMap,
    allocator: &mut StackFrameAllocator,
) -> (r: Result<bool, FatalFault>)
    requires
        system_inv(old(ready)@.push(*old(current)), old(p2v)@, *old(allocator), *old(swap)),
        vpn.in_space(),
        !old(current).page_table@.contains_key(vpn.0),
        old(gfm).pra() == PRA::PageFaultFrequency ==> old(gfm).last_fault() <= now,
    ensures
        r == global_outcome(
            old(current).covered(vpn.0),
            old(current).areas@[first_area(*old(current), vpn.0)].map_type == MapType::Identical,
            global_evictions(
                *old(gfm),
                old(ready)@.push(*old(current)),
                recorder@,
                old(p2v)@,
                now,
            ),
            old(swap).room(),
            old(allocator).free().len(),
            old(current).page_table.missing_tables(vpn.0 as int),
        ),
        final(gfm).pra() == old(gfm).pra(),
        final(gfm).index() == old(gfm).index(),
        old(gfm).wf() ==> final(gfm).wf(),
        r == Ok::<bool, FatalFault>(false) ==> {
            &&& *final(gfm) == *old(gfm)
            &&& *final(ready) == *old(ready)
            &&& *final(current) == *old(current)
            &&& *final(swap) == *old(swap)
            &&& *final(p2v) == *old(p2v)
            &&& *final(allocator) == *old(allocator)
        },
        r == Ok::<bool, FatalFault>(true) ==> {
            let history = global_history(*old(gfm), recorder@);
            let perm = old(current).areas@[first_area(*old(current), vpn.0)].map_perm;
            &&& system_inv(
                final(ready)@.push(*final(current)),
                final(p2v)@,
                *final(allocator),
                *final(swap),
            )
            &&& old(gfm).pra() == PRA::PageFaultFrequency ==> final(gfm).last_fault() == now
            &&& old(gfm).pra() != PRA::PageFaultFrequency ==> final(gfm).last_fault() == old(
                gfm,
            ).last_fault()
            &&& final(ready)@.len() == old(ready)@.len()
            &&& forall|s: int|
                0 <= s < old(ready)@.len() ==> (if global_trims(*old(gfm), now) {
                    trimmed_or_same(old(ready)@[s], #[trigger] final(ready)@[s], history, old(p2v)@)
                } else if global_ages(*old(gfm), now) {
                    aged_or_same(old(ready)@[s], final(ready)@[s])
                } else {
                    final(ready)@[s] == old(ready)@[s]
                })
            &&& forall|s: int, w: u64|
                0 <= s < old(ready)@.len() ==> #[trigger] final(ready)@[s].content(
                    *final(swap),
                    w,
                ) == old(ready)@[s].content(*old(swap), w)
            &&& old(current).same_layout(*final(current))
            &&& final(current).spec_token() == old(current).spec_token()
            &&& final(current).frame_manager.pra() == old(current).frame_manager.pra()
            &&& final(current).resident(vpn.0)
            &&& final(current).frame(vpn.0).data@ == (match old(current).content(
                *old(swap),
                vpn.0,
            ) {
                Some(bytes) => bytes,
                None => zero_page(),
            })
            &&& final(current).page_table@.contains_key(vpn.0)
            &&& final(current).page_table@[vpn.0] == PageTableEntry::spec_new(
                final(current).frame(vpn.0).ppn.0,
                perm.bits | 0x01,
            )
            &&& final(current).frame_manager.frames().last() == final(current).frame(vpn.0).ppn.0
            &&& forall|w: u64|
                w != vpn.0 ==> #[trigger] final(current).content(*final(swap), w) == old(
                    current,
                ).content(*old(swap), w)
            &&& forall|w: u64|
                w != vpn.0 ==> #[trigger] final(current).resident(w) == (old(current).resident(w)
                    && !(global_trims(*old(gfm), now) && !LocalFrameManager::is_local(
                    old(current).frame_manager.pra(),
                ) && idle_set(*old(current), history, old(p2v)@).contains(
                    old(current).frame(w).ppn.0,
                )))
            &&& forall|w: u64|
                w != vpn.0 ==> #[trigger] final(current).page_table@.contains_key(w) == (old(
                    current,
                ).page_table@.contains_key(w) && (final(current).resident(w) || !old(
                    current,
                ).resident(w)))
        },
{
    let ghost all0 = ready@.push(*current);
    let ghost c0 = *current;
    let ghost g0 = *gfm;
    let ghost p0 = p2v@;
    let ghost a0 = *allocator;
    let ghost s0 = *swap;
    let ghost v = vpn.0;
    let ghost n = ready@.len() as int;
    let ghost history = global_history(g0, recorder@);
    let found = current.find_area(vpn);
    if found.is_none() {
        return Ok(false);
    }
    let i: usize = found.unwrap();
    proof {
        assert(all0[n] == c0);
        assert(c0.inv(p0, a0));
        let fi = first_area(c0, v);
        assert(c0.areas@[i as int].vpn_range.contains(v as int));
        assert(c0.areas@[fi].vpn_range.contains(v as int));
        if fi != i {
            assert(crate::mm::memory_set::ranges_disjoint_spec(c0, fi, i as int));
        }
    }
    match gfm.work(ready, current, recorder, now, swap, p2v, allocator) {
        Ok(_) => {},
        Err(e) => {
            return Err(e);
        },
    }
    let ghost all1 = ready@.push(*current);
    let ghost c1 = *current;
    let ghost p1 = p2v@;
    let ghost a1 = *allocator;
    let ghost s1 = *swap;
    proof {
        assert(all1[n] == c1);
        if global_trims(g0, now) {
            assert(all_trimmed(all0, all1, history, p0, s0, s1));
            assert(trimmed_or_same(all0[n], all1[n], history, p0));
        } else if global_ages(g0, now) {
            assert(all_aged(all0, all1));
            assert(aged_or_same(all0[n], all1[n]));
            lemma_aged_system(all0, all1, p0, a0, s0);
        } else {
            assert(all1 =~= all0);
        }
        assert(c0.same_layout(c1));
        assert(!c1.page_table@.contains_key(v));
        assert(c1.page_table.missing_tables(v as int) == c0.page_table.missing_tables(v as int));
        assert(c1.inv(p1, a1));
        assert forall|s: int, w: u64| 0 <= s <= n implies #[trigger] all1[s].content(s1, w)
            == all0[s].content(s0, w) by {}
    }
    if current.areas[i].map_type == MapType::Identical {
        return Err(FatalFault::IdenticalArea);
    }
    match bring_in(current, i, vpn, false, swap, p2v, allocator) {
        Ok(_) => {},
        Err(e) => {
            return Err(e);
        },
    }
    proof {
        let c2 = *current;
        let all2 = ready@.push(c2);
        assert(all2 =~= all1.update(n, c2));
        lemma_step(all1, n, c2, p1, p2v@, a1, *allocator, s1, *swap);
        assert forall|s: int| 0 <= s < n implies (if global_trims(g0, now) {
            trimmed_or_same(old(ready)@[s], #[trigger] ready@[s], history, p0)
        } else if global_ages(g0, now) {
            aged_or_same(old(ready)@[s], ready@[s])
        } else {
            ready@[s] == old(ready)@[s]
        }) by {
            assert(all1[s] == ready@[s]);
            assert(all0[s] == old(ready)@[s]);
        }
        assert forall|s: int, w: u64| 0 <= s < n implies #[trigger] ready@[s].content(*swap, w)
            == old(ready)@[s].content(s0, w) by {
            assert(all1[s] == ready@[s]);
            assert(all0[s] == old(ready)@[s]);
            assert(all1[s].content(s1, w) == all0[s].content(s0, w));
            lemma_tokens_differ(all1, p1, a1, s1, n, s);
            let k = (all1[s].spec_token(), w);
            assert(swap.contents().contains_key(k) == s1.contents().contains_key(k));
        }
        assert forall|w: u64| w != v implies #[trigger] c2.content(*swap, w) == c0.content(s0, w) by {
            assert(c2.content(*swap, w) == c1.content(s1, w));
            assert(all1[n].content(s1, w) == all0[n].content(s0, w));
        }
        assert(c1.content(s1, v) == c0.content(s0, v)) by {
            assert(all1[n].content(s1, v) == all0[n].content(s0, v));
        }
        assert forall|w: u64| w != v implies #[trigger] c2.resident(w) == (c0.resident(w) && !(
        global_trims(g0, now) && !LocalFrameManager::is_local(c0.frame_manager.pra())
            && idle_set(c0, history, p0).contains(c0.frame(w).ppn.0))) by {
            // Bringing in evicts nothing without the local policy.
            assert(c2.resident(w) == c1.resident(w));
            if global_trims(g0, now) {
                assert(trimmed_or_same(c0, c1, history, p0));
            } else if global_ages(g0, now) {
                assert(aged_or_same(c0, c1));
                if !LocalFrameManager::is_local(c0.frame_manager.pra()) {
                    c0.lemma_same_areas(c1);
                }
            } else {
                assert(c1 == c0);
            }
        }
    }
    Ok(true)
}

/// The kernel-wide state of the memory system: the frame allocator, the
/// swap store, the reverse map, the state of the global policy with its
/// history of samples, and the address spaces of the ready processes and
/// of the running one.
pub struct Kernel {
    pub frame_allocator: StackFrameAllocator,
    pub ide_manager: IdeManager,
    pub p2v_map: ReverseMap,
    pub gfm: GlobalFrameManager,
    pub pte_recorder: Vec<BTreeMap<(u64, u64), bool>>,
    pub ready: Vec<MemorySet>,
    pub current: MemorySet,
}

/// The page that holds address `addr`, after truncation to the width of a
/// virtual address.
pub open spec fn fault_page(addr: usize) -> u64 {
    page_floor(VirtAddr::spec_new(addr as u64).0 as int) as u64
}

/// Whether entry `pte` forbids the access of kind `flag`: 0 for a read,
/// 1 for a write, 2 for an instruction fetch.
pub open spec fn access_denied(pte: PageTableEntry, flag: usize) -> bool {
    ||| flag == 0 && !pte.spec_readable()
    ||| flag == 1 && !pte.spec_writable()
    ||| flag == 2 && !pte.spec_executable()
}

impl Kernel {
    /// All address spaces: the ready ones in their order, then the
    /// current one.
    pub open spec fn spaces(self) -> Seq<MemorySet> {
        self.ready@.push(self.current)
    }

    /// The replacement policy of the kernel.
    pub open spec fn pra(self) -> PRA {
        self.gfm.pra()
    }

    /// Every space runs the policy of the kernel.
    pub open spec fn policy_uniform(self) -> bool {
        forall|s: int|
            0 <= s < self.spaces().len() ==> (#[trigger] self.spaces()[s]).frame_manager.pra()
                == self.pra()
    }

    /// The invariant of the kernel: that of the memory system, one policy
    /// for all spaces, and a history of the configured length.
    pub open spec fn wf(self) -> bool {
        &&& system_inv(self.spaces(), self.p2v_map@, self.frame_allocator, self.ide_manager)
        &&& self.gfm.wf()
        &&& self.pte_recorder@.len() == WORKINGSET_DELTA_NUM
        &&& self.policy_uniform()
    }

    /// A kernel around the first process: the allocator and the reverse
    /// map as memory management left them when it built the address
    /// space `first`, an empty swap store, and the policy `pra`. The
    /// reverse map must hold frames of `first` only, as it does where the
    /// space was loaded beside an empty one.
    pub fn with_first_process(
        frame_allocator: StackFrameAllocator,
        p2v_map: ReverseMap,
        first: MemorySet,
        pra: PRA,
    ) -> (r: Kernel)
        requires
            first.inv(p2v_map@, frame_allocator),
            first.frame_manager.pra() == pra,
            forall|p: u64| #[trigger] p2v_map@.contains_key(p) ==> first.backs(p, p2v_map@),
        ensures
            r.wf(),
            r.pra() == pra,
            r.gfm.last_fault() == 0,
            r.gfm.index() == 0,
            r.ready@.len() == 0,
            r.current == first,
            r.frame_allocator == frame_allocator,
            r.p2v_map == p2v_map,
            r.ide_manager.dir() == Map::<(u64, u64), usize>::empty(),
            r.ide_manager.room() == MAX_PAGES,
            forall|k: int| 0 <= k < WORKINGSET_DELTA_NUM ==> (#[trigger] r.pte_recorder@[k])@
                == Map::<(u64, u64), bool>::empty(),
    {
        let mut pte_recorder: Vec<BTreeMap<(u64, u64), bool>> = Vec::new();
        let mut k: usize = 0;
        while k < WORKINGSET_DELTA_NUM
            invariant
                k <= WORKINGSET_DELTA_NUM,
                pte_recorder@.len() == k,
                forall|j: int| 0 <= j < k ==> (#[trigger] pte_recorder@[j])@ == Map::<
                    (u64, u64),
                    bool,
                >::empty(),
            decreases WORKINGSET_DELTA_NUM - k,
        {
            pte_recorder.push(BTreeMap::new());
            k = k + 1;
        }
        let r = Kernel {
            frame_allocator,
            ide_manager: IdeManager::new(),
            p2v_map,
            gfm: GlobalFrameManager::new(pra),
            pte_recorder,
            ready: Vec::new(),
            current: first,
        };
        proof {
            let spaces = r.spaces();
            assert(spaces.len() == 1);
            assert(spaces[0] == r.current);
            assert(r.current.swap_free(r.ide_manager.dir()));
            assert(crate::mm::system::reverse_map_backed(spaces, r.p2v_map@)) by {
                assert forall|p: u64| #[trigger] r.p2v_map@.contains_key(p) implies exists|s: int|
                    0 <= s < spaces.len() && (#[trigger] spaces[s]).backs(p, r.p2v_map@) by {
                    assert(spaces[0].backs(p, r.p2v_map@));
                }
            }
        }
        r
    }

    /// A kernel over the frames `[pool_start, pool_end)` under policy
    /// `pra`, with one empty address space, which is current, and an empty
    /// swap store.
    pub fn new(pool_start: PhysPageNum, pool_end: PhysPageNum, pra: PRA) -> (r: Kernel)
        requires
            pool_start.0 < pool_end.0,
            pool_end.0 <= 0x1000_0000_0000,
        ensures
            r.wf(),
            r.pra() == pra,
            r.gfm.last_fault() == 0,
            r.gfm.index() == 0,
            r.ready@.len() == 0,
            r.current.areas@.len() == 0,
            r.current.page_table.root() == pool_start.0,
            r.current.page_table@ == Map::<u64, PageTableEntry>::empty(),
            r.current.frame_manager.frames().len() == 0,
            r.frame_allocator.free() == Seq::new(
                (pool_end.0 - pool_start.0 - 1) as nat,
                |i: int| (pool_start.0 + 1 + i) as u64,
            ),
            r.p2v_map@ == Map::<u64, u64>::empty(),
            r.ide_manager.dir() == Map::<(u64, u64), usize>::empty(),
            r.ide_manager.room() == MAX_PAGES,
            forall|k: int| 0 <= k < WORKINGSET_DELTA_NUM ==> (#[trigger] r.pte_recorder@[k])@
                == Map::<(u64, u64), bool>::empty(),
    {
        let mut frame_allocator = StackFrameAllocator::new();
        frame_allocator.init(pool_start, pool_end);
        let ghost a0 = frame_allocator;
        let current = MemorySet::new_bare(pra, &mut frame_allocator);
        let mut pte_recorder: Vec<BTreeMap<(u64, u64), bool>> = Vec::new();
        let mut k: usize = 0;
        while k < WORKINGSET_DELTA_NUM
            invariant
                k <= WORKINGSET_DELTA_NUM,
                pte_recorder@.len() == k,
                forall|j: int| 0 <= j < k ==> (#[trigger] pte_recorder@[j])@ == Map::<
                    (u64, u64),
                    bool,
                >::empty(),
            decreases WORKINGSET_DELTA_NUM - k,
        {
            pte_recorder.push(BTreeMap::new());
            k = k + 1;
        }
        let r = Kernel {
            frame_allocator,
            ide_manager: IdeManager::new(),
            p2v_map: ReverseMap::new(),
            gfm: GlobalFrameManager::new(pra),
            pte_recorder,
            ready: Vec::new(),
            current,
        };
        proof {
            let spaces = r.spaces();
            assert(spaces.len() == 1);
            assert(spaces[0] == r.current);
            assert(r.frame_allocator.free() =~= Seq::new(
                (pool_end.0 - pool_start.0 - 1) as nat,
                |i: int| (pool_start.0 + 1 + i) as u64,
            ));
            assert(r.current.inv(r.p2v_map@, r.frame_allocator));
            assert forall|vpn: u64| !r.current.resident(vpn) by {
                if r.current.resident(vpn) {
                    let i = choose|i: int| r.current.holds(i, vpn);
                    assert(r.current.holds(i, vpn));
                }
            }
            assert(r.current.swap_free(r.ide_manager.dir()));
        }
        r
    }
}

/// How a fault at address `addr` with access kind `flag` ends at time
/// `now`: `Ok(false)` where a valid entry forbids the access, else as the
/// local or the global path ends.
pub open spec fn fault_outcome(kernel: Kernel, addr: usize, now: u64) -> Result<bool, FatalFault> {
    let vpn = fault_page(addr);
    let cur = kernel.current;
    let covered = cur.covered(vpn);
    let identical = cur.areas@[first_area(cur, vpn)].map_type == MapType::Identical;
    let free = kernel.frame_allocator.free().len();
    let room = kernel.ide_manager.room();
    let missing = cur.page_table.missing_tables(vpn as int);
    if LocalFrameManager::is_local(kernel.pra()) {
        local_outcome(
            covered,
            identical,
            bring_in_outcome(
                true,
                free,
                evictable(cur),
                room,
                kernel.ide_manager.contents().contains_key((cur.spec_token(), vpn)),
                missing,
            ),
        )
    } else {
        global_outcome(
            covered,
            identical,
            global_evictions(
                kernel.gfm,
                kernel.spaces(),
                kernel.pte_recorder@,
                kernel.p2v_map@,
                now,
            ),
            room,
            free,
            missing,
        )
    }
}

/// The page-fault handler: the running process touched address `addr` with
/// an access of kind `flag` (0 read, 1 write, 2 fetch) at time `now`, and
/// the MMU found no valid entry that allows it.
///
/// Returns `Ok(false)`, changing nothing, where the access is forbidden: a
/// valid entry denies it, or no area covers the page. Returns `Ok(true)`
/// where the page is resident afterwards, with the bytes it had when it
/// left memory, or zeros if it never was there; no other page of any space
/// changes its bytes, and a page that left memory is no longer translated. On `Err` the kernel cannot go on, and nothing is
/// said of the state.
#[verifier::rlimit(60)]
pub fn do_pgfault(kernel: &mut Kernel, addr: usize, flag: usize, now: u64) -> (r: Result<
    bool,
    FatalFault,
>)
    requires
        old(kernel).wf(),
        old(kernel).current.page_table@.contains_key(fault_page(addr)) ==> access_denied(
            old(kernel).current.page_table@[fault_page(addr)],
            flag,
        ),
        old(kernel).pra() == PRA::PageFaultFrequency ==> old(kernel).gfm.last_fault() <= now,
    ensures
        old(kernel).current.page_table@.contains_key(fault_page(addr)) ==> r == Ok::<
            bool,
            FatalFault,
        >(false),
        !old(kernel).current.page_table@.contains_key(fault_page(addr)) ==> r == fault_outcome(
            *old(kernel),
            addr,
            now,
        ),
        r == Ok::<bool, FatalFault>(false) ==> *final(kernel) == *old(kernel),
        r == Err::<bool, FatalFault>(FatalFault::IdenticalArea) && LocalFrameManager::is_local(
            old(kernel).pra(),
        ) ==> *final(kernel) == *old(kernel),
        r == Ok::<bool, FatalFault>(true) ==> {
            let vpn = fault_page(addr);
            let cur = old(kernel).current;
            let perm = cur.areas@[first_area(cur, vpn)].map_perm;
            &&& final(kernel).wf()
            &&& final(kernel).pra() == old(kernel).pra()
            &&& final(kernel).pte_recorder == old(kernel).pte_recorder
            &&& final(kernel).gfm.index() == old(kernel).gfm.index()
            &&& final(kernel).ready@.len() == old(kernel).ready@.len()
            &&& cur.same_layout(final(kernel).current)
            &&& final(kernel).current.spec_token() == cur.spec_token()
            &&& final(kernel).current.resident(vpn)
            &&& final(kernel).current.frame(vpn).data@ == (match cur.content(
                old(kernel).ide_manager,
                vpn,
            ) {
                Some(bytes) => bytes,
                None => zero_page(),
            })
            &&& final(kernel).current.page_table@.contains_key(vpn)
            &&& final(kernel).current.page_table@[vpn] == PageTableEntry::spec_new(
                final(kernel).current.frame(vpn).ppn.0,
                perm.bits | 0x01,
            )
            &&& forall|w: u64|
                w != vpn ==> #[trigger] final(kernel).current.content(final(kernel).ide_manager, w)
                    == cur.content(old(kernel).ide_manager, w)
            &&& forall|s: int, w: u64|
                0 <= s < old(kernel).ready@.len() ==> #[trigger] final(kernel).ready@[s].content(
                    final(kernel).ide_manager,
                    w,
                ) == old(kernel).ready@[s].content(old(kernel).ide_manager, w)
            &&& LocalFrameManager::is_local(old(kernel).pra()) ==> {
                &&& final(kernel).ready@ == old(kernel).ready@
                &&& final(kernel).gfm == old(kernel).gfm
                &&& brought_in(
                    cur,
                    final(kernel).current,
                    first_area(cur, vpn),
                    vpn,
                    old(kernel).p2v_map@,
                    final(kernel).p2v_map@,
                    old(kernel).frame_allocator,
                    final(kernel).frame_allocator,
                    old(kernel).ide_manager,
                    final(kernel).ide_manager,
                )
                &&& final(kernel).current.frame_manager.frames().len()
                    == cur.frame_manager.frames().len() - evictions(
                    true,
                    old(kernel).frame_allocator.free().len(),
                ) + 1
                &&& old(kernel).pra() == PRA::FIFO ==> fifo_turnover(
                    cur,
                    final(kernel).current,
                    vpn,
                    evictions(true, old(kernel).frame_allocator.free().len()),
                )
                &&& old(kernel).pra() != PRA::FIFO ==> clock_turnover(
                    cur,
                    final(kernel).current,
                    vpn,
                    evictions(true, old(kernel).frame_allocator.free().len()),
                    old(kernel).p2v_map@,
                )
            }
            &&& !LocalFrameManager::is_local(old(kernel).pra()) ==> {
                let history = global_history(old(kernel).gfm, old(kernel).pte_recorder@);
                &&& forall|s: int|
                    0 <= s < old(kernel).ready@.len() ==> (if global_trims(old(kernel).gfm, now) {
                        trimmed_or_same(
                            old(kernel).ready@[s],
                            #[trigger] final(kernel).ready@[s],
                            history,
                            old(kernel).p2v_map@,
                        )
                    } else if global_ages(old(kernel).gfm, now) {
                        aged_or_same(old(kernel).ready@[s], final(kernel).ready@[s])
                    } else {
                        final(kernel).ready@[s] == old(kernel).ready@[s]
                    })
                &&& forall|w: u64|
                    w != vpn ==> #[trigger] final(kernel).current.resident(w) == (cur.resident(w)
                        && !(global_trims(old(kernel).gfm, now) && idle_set(
                        cur,
                        history,
                        old(kernel).p2v_map@,
                    ).contains(cur.frame(w).ppn.0)))
                &&& forall|w: u64|
                    w != vpn ==> #[trigger] final(kernel).current.page_table@.contains_key(w) == (
                    cur.page_table@.contains_key(w) && (final(kernel).current.resident(w)
                        || !cur.resident(w)))
                &&& old(kernel).pra() == PRA::PageFaultFrequency ==> final(kernel).gfm.last_fault()
                    == now
            }
        },
{
    let ghost k0 = *kernel;
    let va = VirtAddr::new(addr as u64);
    let vpn: VirtPageNum = va.floor();
    proof {
        assert(vpn.0 == fault_page(addr));
        assert(vpn.0 < 0x800_0000);
        let n = k0.ready@.len() as int;
        assert(k0.spaces()[n] == k0.current);
        assert(k0.current.inv(k0.p2v_map@, k0.frame_allocator));
        assert(k0.current.frame_manager.pra() == k0.pra());
    }
    match kernel.current.page_table.translate(vpn) {
        Some(pte) => {
            if pte.is_valid() {
                if !pte.readable() && flag == 0 {
                    return Ok(false);
                }
                if !pte.writable() && flag == 1 {
                    return Ok(false);
                }
                if !pte.executable() && flag == 2 {
                    return Ok(false);
                }
            }
        },
        None => {},
    }
    let local: bool = match kernel.gfm.used_pra() {
        PRA::FIFO => true,
        PRA::Clock => true,
        PRA::ClockImproved => true,
        _ => false,
    };
    if local {
        let r = local_pra(
            &mut kernel.current,
            vpn,
            &mut kernel.ide_manager,
            &mut kernel.p2v_map,
            &mut kernel.frame_allocator,
        );
        proof {
            if r == Ok::<bool, FatalFault>(true) {
                let n = k0.ready@.len() as int;
                let all0 = k0.spaces();
                let all1 = kernel.spaces();
                assert(all1 =~= all0.update(n, kernel.current));
                lemma_step(
                    all0,
                    n,
                    kernel.current,
                    k0.p2v_map@,
                    kernel.p2v_map@,
                    k0.frame_allocator,
                    kernel.frame_allocator,
                    k0.ide_manager,
                    kernel.ide_manager,
                );
                assert forall|s: int| 0 <= s < all1.len() implies (#[trigger] all1[s]).frame_manager.pra()
                    == kernel.pra() by {
                    if s < n {
                        assert(all1[s] == all0[s]);
                    }
                }
                assert forall|s: int, w: u64| 0 <= s < n implies #[trigger] kernel.ready@[s].content(
                    kernel.ide_manager,
                    w,
                ) == k0.ready@[s].content(k0.ide_manager, w) by {
                    assert(all0[s] == k0.ready@[s]);
                    lemma_tokens_differ(
                        all0,
                        k0.p2v_map@,
                        k0.frame_allocator,
                        k0.ide_manager,
                        n,
                        s,
                    );
                    let k = (all0[s].spec_token(), w);
                    assert(kernel.ide_manager.contents().contains_key(k)
                        == k0.ide_manager.contents().contains_key(k));
                }
            }
        }
        r
    } else {
        let r = global_pra(
            &mut kernel.ready,
            &mut kernel.current,
            vpn,
            &mut kernel.gfm,
            &kernel.pte_recorder,
            now,
            &mut kernel.ide_manager,
            &mut kernel.p2v_map,
            &mut kernel.frame_allocator,
        );
        proof {
            if r == Ok::<bool, FatalFault>(true) {
                let n = k0.ready@.len() as int;
                let all0 = k0.spaces();
                let all1 = kernel.spaces();
                let history = global_history(k0.gfm, k0.pte_recorder@);
                assert forall|s: int| 0 <= s < all1.len() implies (#[trigger] all1[s]).frame_manager.pra()
                    == kernel.pra() by {
                    assert(all0[s].frame_manager.pra() == k0.pra());
                    if s < n {
                        assert(all1[s] == kernel.ready@[s]);
                        assert(all0[s] == k0.ready@[s]);
                        assert(trimmed_or_same(all0[s], all1[s], history, k0.p2v_map@)
                            || aged_or_same(all0[s], all1[s]) || all1[s] == all0[s]);
                    }
                }
            }
        }
        r
    }
}

/// Whether the MMU lets a user-mode access through entry `pte`: a load,
/// or a store with `write`.
pub open spec fn user_allowed(pte: PageTableEntry, write: bool) -> bool {
    &&& pte.spec_is_valid()
    &&& pte.bits & 0x10 != 0
    &&& if write {
        pte.spec_writable()
    } else {
        pte.spec_readable()
    }
}

/// Whether the permissions `bits` of an area let a user program read, or
/// write, a page of the area.
pub open spec fn permits(bits: u8, write: bool) -> bool {
    &&& bits & 0x10 != 0
    &&& if write {
        bits & 0x04 != 0
    } else {
        bits & 0x02 != 0
    }
}

/// A fresh entry allows what the permissions it was made with permit.
pub proof fn lemma_fresh_entry_allows(ppn: u64, bits: u8, write: bool)
    ensures
        user_allowed(PageTableEntry::spec_new(ppn, bits | 0x01), write) == permits(bits, write),
{
    let flags = bits | 0x01;
    let raw = ((ppn & 0xfff_ffff_ffff) << 10) | (flags as u64);
    assert(raw & 0x01 != 0 && (raw & 0x10 != 0) == (bits & 0x10 != 0) && (raw & 0x04 != 0) == (bits
        & 0x04 != 0) && (raw & 0x02 != 0) == (bits & 0x02 != 0)) by (bit_vector)
        requires
            flags == bits | 0x01,
            raw == ((ppn & 0xfff_ffff_ffff) << 10) | (flags as u64),
    ;
}

/// How an access of the running process to address `addr` at time `now`
/// ends, with the page fault that it may take: `Ok(true)` where the access
/// is made, at once or after the fault; `Ok(false)` where the process has
/// no right to it; a fatal fault where the handler cannot bring the page
/// in.
pub open spec fn access_outcome(kernel: Kernel, addr: usize, write: bool, now: u64) -> Result<
    bool,
    FatalFault,
> {
    let vpn = fault_page(addr);
    let cur = kernel.current;
    if kernel.can_access(vpn, write) {
        Ok(true)
    } else if cur.page_table@.contains_key(vpn) {
        Ok(false)
    } else {
        match fault_outcome(kernel, addr, now) {
            Ok(true) => Ok(permits(cur.areas@[first_area(cur, vpn)].map_perm.bits, write)),
            Ok(false) => Ok(false),
            Err(e) => Err(e),
        }
    }
}

impl Kernel {
    /// Whether a user-mode access of the running process to page `vpn`
    /// goes through: the page is resident and its entry allows the access.
    pub open spec fn can_access(self, vpn: u64, write: bool) -> bool {
        &&& self.current.resident(vpn)
        &&& self.current.page_table@.contains_key(vpn)
        &&& user_allowed(self.current.page_table@[vpn], write)
    }

    /// The `mmap` system call of the running process: see `memory_alloc`.
    #[verifier::rlimit(60)]
    pub fn mmap(&mut self, start: usize, len: usize, port: usize) -> (r: isize)
        requires
            old(self).wf(),
        ensures
            final(self).wf(),
            r == (if len == 0 {
                0isize
            } else if mmap_refused(start, len, port) || old(self).current.overlaps(
                crate::mm::address::page_floor(start as int),
                crate::mm::address::page_ceil(start + len),
            ) {
                -1isize
            } else {
                0isize
            }),
            r != 0 || len == 0 ==> *final(self) == *old(self),
            final(self).ready == old(self).ready,
            final(self).frame_allocator == old(self).frame_allocator,
            final(self).ide_manager == old(self).ide_manager,
            final(self).p2v_map == old(self).p2v_map,
            final(self).gfm == old(self).gfm,
            final(self).pte_recorder == old(self).pte_recorder,
            old(self).current.same_residents(final(self).current),
            r == 0 && len > 0 ==> {
                let first = crate::mm::address::page_floor(start as int);
                let count = crate::mm::address::page_ceil(start + len) - first;
                let before = old(self).current.areas@.len() as int;
                &&& final(self).current.areas@.len() == before + count
                &&& forall|i: int|
                    0 <= i < before ==> #[trigger] final(self).current.areas@[i] == old(
                        self,
                    ).current.areas@[i]
                &&& forall|k: int|
                    0 <= k < count ==> {
                        let area = #[trigger] final(self).current.areas@[before + k];
                        &&& area.vpn_range.start() == first + k
                        &&& area.vpn_range.end() == first + k + 1
                        &&& area.map_type == MapType::Framed
                        &&& area.map_perm.bits == mmap_permission(port)
                    }
            },
    {
        let ghost k0 = *self;
        let ghost n = k0.ready@.len() as int;
        proof {
            assert(k0.spaces()[n] == k0.current);
            assert(k0.current.inv(k0.p2v_map@, k0.frame_allocator));
            k0.current.lemma_same_residents(k0.current);
        }
        let r = memory_alloc(&mut self.current, start, len, port);
        proof {
            if r == 0 && len > 0 {
                let all0 = k0.spaces();
                let all1 = self.spaces();
                assert(all1 =~= all0.update(n, self.current));
                k0.current.lemma_same_residents(self.current);
                assert(k0.current.consistent(k0.p2v_map@));
                assert(k0.current.allocated_by(k0.frame_allocator));
                assert(k0.current.swap_free(k0.ide_manager.dir()));
                lemma_step(
                    all0,
                    n,
                    self.current,
                    k0.p2v_map@,
                    k0.p2v_map@,
                    k0.frame_allocator,
                    k0.frame_allocator,
                    k0.ide_manager,
                    k0.ide_manager,
                );
                assert forall|s: int| 0 <= s < all1.len() implies (#[trigger] all1[s]).frame_manager.pra()
                    == self.pra() by {
                    assert(all0[s].frame_manager.pra() == k0.pra());
                    if s < n {
                        assert(all1[s] == all0[s]);
                    }
                }
            }
        }
        r
    }

    /// The `munmap` system call of the running process: see `memory_free`.
    #[verifier::rlimit(60)]
    pub fn munmap(&mut self, start: usize, len: usize) -> (r: isize)
        requires
            old(self).wf(),
        ensures
            final(self).wf(),
            r == (if len == 0 {
                0isize
            } else if start % 4096 != 0 || crate::mm::memory_set::beyond_space(start, len)
                || !munmap_exact(
                old(self).current.areas@,
                crate::mm::address::page_floor(start as int),
                crate::mm::address::page_ceil(start + len),
            ) {
                -1isize
            } else {
                0isize
            }),
            r != 0 || len == 0 ==> *final(self) == *old(self),
            final(self).ready == old(self).ready,
            final(self).ide_manager == old(self).ide_manager,
            final(self).gfm == old(self).gfm,
            final(self).pte_recorder == old(self).pte_recorder,
            r == 0 && len > 0 ==> {
                let lo = crate::mm::address::page_floor(start as int);
                let hi = crate::mm::address::page_ceil(start + len);
                let kept = kept_areas(old(self).current.areas@, lo, hi);
                &&& final(self).current.areas@.len() == kept.len()
                &&& forall|k: int|
                    0 <= k < kept.len() ==> MemorySet::same_area(
                        #[trigger] final(self).current.areas@[k],
                        kept[k],
                    )
                &&& old(self).current.cleared(
                    final(self).current,
                    doomed_pages(old(self).current.areas@, lo, hi),
                    old(self).p2v_map@,
                    final(self).p2v_map@,
                    old(self).frame_allocator,
                    final(self).frame_allocator,
                )
            },
    {
        let ghost k0 = *self;
        let ghost n = k0.ready@.len() as int;
        proof {
            assert(k0.spaces()[n] == k0.current);
            assert(k0.current.inv(k0.p2v_map@, k0.frame_allocator));
        }
        let r = memory_free(
            &mut self.current,
            start,
            len,
            &mut self.p2v_map,
            &mut self.frame_allocator,
        );
        proof {
            if r == 0 && len > 0 {
                let all0 = k0.spaces();
                let all1 = self.spaces();
                let lo = crate::mm::address::page_floor(start as int);
                let hi = crate::mm::address::page_ceil(start + len);
                assert(all1 =~= all0.update(n, self.current));
                k0.current.lemma_cleared_stepped(
                    self.current,
                    doomed_pages(k0.current.areas@, lo, hi),
                    k0.p2v_map@,
                    self.p2v_map@,
                    k0.frame_allocator,
                    self.frame_allocator,
                    k0.ide_manager,
                );
                assert(k0.current.swap_free(k0.ide_manager.dir()));
                lemma_step(
                    all0,
                    n,
                    self.current,
                    k0.p2v_map@,
                    self.p2v_map@,
                    k0.frame_allocator,
                    self.frame_allocator,
                    k0.ide_manager,
                    k0.ide_manager,
                );
                assert forall|s: int| 0 <= s < all1.len() implies (#[trigger] all1[s]).frame_manager.pra()
                    == self.pra() by {
                    assert(all0[s].frame_manager.pra() == k0.pra());
                    if s < n {
                        assert(all1[s] == all0[s]);
                    }
                }
            }
        }
        r
    }

    /// The timer tick: under the working-set policy a sample is taken, see
    /// `GlobalFrameManager::check_workingset`.
    #[verifier::rlimit(60)]
    pub fn check_workingset(&mut self)
        requires
            old(self).wf(),
        ensures
            final(self).wf(),
            final(self).pra() == old(self).pra(),
            final(self).frame_allocator == old(self).frame_allocator,
            final(self).ide_manager == old(self).ide_manager,
            final(self).p2v_map == old(self).p2v_map,
            final(self).gfm.last_fault() == old(self).gfm.last_fault(),
            old(self).pra() != PRA::WorkingSet ==> *final(self) == *old(self),
            old(self).pra() == PRA::WorkingSet ==> {
                let at = old(self).gfm.index();
                &&& final(self).gfm.index() == (at + 1) % (WORKINGSET_DELTA_NUM as int)
                &&& all_aged(old(self).spaces(), final(self).spaces())
                &&& forall|k: int|
                    0 <= k < WORKINGSET_DELTA_NUM && k != at ==> #[trigger] final(self).pte_recorder@[k] == old(self).pte_recorder@[k]
                &&& forall|k: (u64, u64)|
                    #[trigger] final(self).pte_recorder@[at]@.contains_key(k)
                        == crate::mm::frame_manager::in_samples(old(self).spaces(), k)
                &&& forall|s: int, k: (u64, u64)|
                    0 <= s < old(self).spaces().len() && #[trigger] crate::mm::frame_manager::sample_of(
                        old(self).spaces()[s],
                    ).contains_key(k) ==> final(self).pte_recorder@[at]@[k]
                        == crate::mm::frame_manager::sample_of(old(self).spaces()[s])[k]
            },
    {
        let ghost k0 = *self;
        let ghost all0 = k0.spaces();
        let ghost n = k0.ready@.len() as int;
        proof {
            crate::mm::frame_manager::lemma_system_tokens(
                all0,
                k0.p2v_map@,
                k0.frame_allocator,
                k0.ide_manager,
            );
            assert forall|s: int| 0 <= s < k0.ready@.len() implies (#[trigger] k0.ready@[s]).consistent(
                k0.p2v_map@,
            ) by {
                assert(all0[s] == k0.ready@[s]);
            }
            assert(all0[n] == k0.current);
            k0.gfm.lemma_index();
        }
        let is_ws: bool = match self.gfm.used_pra() {
            PRA::WorkingSet => true,
            _ => false,
        };
        if !is_ws {
            return ;
        }
        self.gfm.check_workingset(
            &mut self.ready,
            &mut self.current,
            &mut self.pte_recorder,
            &self.p2v_map,
        );
        proof {
            let all1 = self.spaces();
            lemma_aged_system(all0, all1, k0.p2v_map@, k0.frame_allocator, k0.ide_manager);
            assert forall|s: int| 0 <= s < all1.len() implies (#[trigger] all1[s]).frame_manager.pra()
                == self.pra() by {
                assert(all0[s].frame_manager.pra() == k0.pra());
                assert(aged_or_same(all0[s], all1[s]));
            }
            assert forall|s: int, k: (u64, u64)|
                0 <= s < all0.len() && #[trigger] crate::mm::frame_manager::sample_of(
                    all0[s],
                ).contains_key(k) implies self.pte_recorder@[k0.gfm.index()]@[k]
                == crate::mm::frame_manager::sample_of(all0[s])[k] by {
                assert(all0[s].frame_manager.pra() == k0.pra());
            }
        }
    }

    /// A store of the running process as the MMU performs it: writes
    /// `value` to address `addr` and marks the page accessed and dirty, if
    /// the page is resident and its entry allows a write from user mode.
    /// Returns whether it did: `false` stands for a page fault.
    #[verifier::rlimit(60)]
    pub fn store(&mut self, addr: usize, value: u8) -> (r: bool)
        requires
            old(self).wf(),
        ensures
            final(self).wf(),
            r == old(self).can_access(fault_page(addr), true),
            !r ==> *final(self) == *old(self),
            r ==> {
                let vpn = fault_page(addr);
                let offset = VirtAddr::spec_new(addr as u64).0 % 4096;
                &&& final(self).ready == old(self).ready
                &&& final(self).frame_allocator == old(self).frame_allocator
                &&& final(self).ide_manager == old(self).ide_manager
                &&& final(self).p2v_map == old(self).p2v_map
                &&& final(self).gfm == old(self).gfm
                &&& final(self).pte_recorder == old(self).pte_recorder
                &&& old(self).current.same_layout(final(self).current)
                &&& final(self).current.frame_manager == old(self).current.frame_manager
                &&& forall|w: u64|
                    #[trigger] final(self).current.resident(w) == old(self).current.resident(w)
                &&& final(self).current.frame(vpn).data@ == old(self).current.frame(vpn).data@.update(
                    offset as int,
                    value,
                )
                &&& forall|w: u64|
                    w != vpn && old(self).current.resident(w) ==> #[trigger] final(self).current.frame(w) == old(self).current.frame(w)
                &&& final(self).current.page_table@ == old(self).current.page_table@.insert(
                    vpn,
                    old(self).current.page_table@[vpn].touched(true),
                )
                &&& final(self).current.spec_token() == old(self).current.spec_token()
                &&& forall|w: u64|
                    w != vpn ==> #[trigger] final(self).current.content(final(self).ide_manager, w)
                        == old(self).current.content(old(self).ide_manager, w)
            },
    {
        let ghost k0 = *self;
        let ghost n = k0.ready@.len() as int;
        let va = VirtAddr::new(addr as u64);
        let vpn = va.floor();
        let offset: usize = va.page_offset();
        proof {
            assert(k0.spaces()[n] == k0.current);
            assert(k0.current.inv(k0.p2v_map@, k0.frame_allocator));
            assert(k0.current.swap_free(k0.ide_manager.dir()));
        }
        let allowed: bool = match self.current.page_table.translate(vpn) {
            Some(pte) => pte.is_valid() && pte.bits & 0x10 != 0 && pte.writable(),
            None => false,
        };
        if !allowed {
            return false;
        }
        let found = self.current.find_area(vpn);
        let resident: bool = match found {
            Some(i) => self.current.areas[i].is_resident(vpn),
            None => false,
        };
        proof {
            if k0.current.resident(vpn.0) {
                let o = k0.current.owner(vpn.0);
                assert(k0.current.holds(o, vpn.0));
                k0.current.lemma_owner(o, vpn.0);
                assert(found is Some);
                if found->0 != o {
                    assert(crate::mm::memory_set::ranges_disjoint_spec(k0.current, found->0 as int, o));
                }
            }
            if resident {
                assert(k0.current.holds(found->0 as int, vpn.0));
            }
            assert(resident == k0.current.resident(vpn.0));
        }
        if !resident {
            return false;
        }
        self.current.page_table.touch(vpn, true);
        let ghost c1 = self.current;
        proof {
            assert forall|w: u64| k0.current.page_table@.contains_key(w) implies (
            #[trigger] c1.page_table@[w]).same_but_usage(k0.current.page_table@[w]) by {
                k0.current.page_table@[w].lemma_usage_changes();
            }
            assert(c1.page_table@.dom() =~= k0.current.page_table@.dom());
            k0.current.lemma_usage_update(c1, k0.p2v_map@);
        }
        let mut byte: Vec<u8> = Vec::new();
        byte.push(value);
        self.current.write_page(vpn, offset, byte.as_slice());
        proof {
            let c2 = self.current;
            c1.lemma_redone_of_written(c2, vpn.0);
            c1.lemma_redone(c2);
            assert(c2.frame(vpn.0).data@ =~= k0.current.frame(vpn.0).data@.update(
                offset as int,
                value,
            ));
            let all0 = k0.spaces();
            let mid = all0.update(n, c1);
            lemma_step(
                all0,
                n,
                c1,
                k0.p2v_map@,
                k0.p2v_map@,
                k0.frame_allocator,
                k0.frame_allocator,
                k0.ide_manager,
                k0.ide_manager,
            );
            assert(mid[n] == c1);
            lemma_step(
                mid,
                n,
                c2,
                k0.p2v_map@,
                k0.p2v_map@,
                k0.frame_allocator,
                k0.frame_allocator,
                k0.ide_manager,
                k0.ide_manager,
            );
            let all1 = self.spaces();
            assert(all1 =~= mid.update(n, c2));
            assert forall|s: int| 0 <= s < all1.len() implies (#[trigger] all1[s]).frame_manager.pra()
                == self.pra() by {
                assert(all0[s].frame_manager.pra() == k0.pra());
                if s < n {
                    assert(all1[s] == all0[s]);
                }
            }
            assert forall|w: u64| w != vpn.0 && k0.current.resident(w) implies #[trigger] c2.frame(
                w,
            ) == k0.current.frame(w) by {
                assert(c1.resident(w));
                assert(c2.frame(w) == c1.frame(w));
            }
            assert forall|w: u64| w != vpn.0 implies #[trigger] c2.content(self.ide_manager, w)
                == k0.current.content(k0.ide_manager, w) by {
                assert(c1.content(k0.ide_manager, w) == k0.current.content(k0.ide_manager, w));
                assert(c2.resident(w) == c1.resident(w));
            }
        }
        true
    }
}

impl Kernel {
    /// A load of the running process as the MMU performs it: reads the
    /// byte at address `addr` and marks the page accessed, if the page is
    /// resident and its entry allows a read from user mode. `None` stands
    /// for a page fault.
    #[verifier::rlimit(60)]
    pub fn load(&mut self, addr: usize) -> (r: Option<u8>)
        requires
            old(self).wf(),
        ensures
            final(self).wf(),
            r is Some == old(self).can_access(fault_page(addr), false),
            r is None ==> *final(self) == *old(self),
            r is Some ==> {
                let vpn = fault_page(addr);
                let offset = VirtAddr::spec_new(addr as u64).0 % 4096;
                &&& r->0 == old(self).current.frame(vpn).data@[offset as int]
                &&& final(self).ready == old(self).ready
                &&& final(self).frame_allocator == old(self).frame_allocator
                &&& final(self).ide_manager == old(self).ide_manager
                &&& final(self).p2v_map == old(self).p2v_map
                &&& final(self).gfm == old(self).gfm
                &&& final(self).pte_recorder == old(self).pte_recorder
                &&& final(self).current.areas == old(self).current.areas
                &&& final(self).current.frame_manager == old(self).current.frame_manager
                &&& final(self).current.page_table@ == old(self).current.page_table@.insert(
                    vpn,
                    old(self).current.page_table@[vpn].touched(false),
                )
                &&& final(self).current.spec_token() == old(self).current.spec_token()
                &&& forall|w: u64| #[trigger]
                    final(self).current.resident(w) == old(self).current.resident(w)
                &&& forall|w: u64| #[trigger]
                    final(self).current.content(final(self).ide_manager, w) == old(
                        self,
                    ).current.content(old(self).ide_manager, w)
            },
    {
        let ghost k0 = *self;
        let ghost n = k0.ready@.len() as int;
        let va = VirtAddr::new(addr as u64);
        let vpn = va.floor();
        let offset: usize = va.page_offset();
        proof {
            assert(k0.spaces()[n] == k0.current);
            assert(k0.current.inv(k0.p2v_map@, k0.frame_allocator));
            assert(k0.current.swap_free(k0.ide_manager.dir()));
        }
        let allowed: bool = match self.current.page_table.translate(vpn) {
            Some(pte) => pte.is_valid() && pte.bits & 0x10 != 0 && pte.readable(),
            None => false,
        };
        if !allowed {
            return None;
        }
        let found = self.current.find_area(vpn);
        proof {
            if k0.current.resident(vpn.0) {
                let o = k0.current.owner(vpn.0);
                assert(k0.current.holds(o, vpn.0));
                k0.current.lemma_owner(o, vpn.0);
                assert(found is Some);
                if found->0 != o {
                    assert(crate::mm::memory_set::ranges_disjoint_spec(k0.current, found->0 as int, o));
                }
            }
        }
        let value: u8 = match found {
            Some(i) => match self.current.areas[i].data_frames.get(&vpn.0) {
                Some(frame) => {
                    proof {
                        assert(k0.current.holds(i as int, vpn.0));
                        k0.current.lemma_owner(i as int, vpn.0);
                        assert(k0.current.areas@[i as int].wf());
                    }
                    frame.data[offset]
                },
                None => {
                    return None;
                },
            },
            None => {
                return None;
            },
        };
        self.current.page_table.touch(vpn, false);
        proof {
            let c1 = self.current;
            assert forall|w: u64| k0.current.page_table@.contains_key(w) implies (
            #[trigger] c1.page_table@[w]).same_but_usage(k0.current.page_table@[w]) by {
                k0.current.page_table@[w].lemma_usage_changes();
            }
            assert(c1.page_table@.dom() =~= k0.current.page_table@.dom());
            k0.current.lemma_usage_update(c1, k0.p2v_map@);
            let all0 = k0.spaces();
            lemma_step(
                all0,
                n,
                c1,
                k0.p2v_map@,
                k0.p2v_map@,
                k0.frame_allocator,
                k0.frame_allocator,
                k0.ide_manager,
                k0.ide_manager,
            );
            let all1 = self.spaces();
            assert(all1 =~= all0.update(n, c1));
            assert forall|s: int| 0 <= s < all1.len() implies (#[trigger] all1[s]).frame_manager.pra()
                == self.pra() by {
                assert(all0[s].frame_manager.pra() == k0.pra());
                if s < n {
                    assert(all1[s] == all0[s]);
                }
            }
            assert forall|w: u64| #[trigger]
                c1.content(self.ide_manager, w) == k0.current.content(k0.ide_manager, w) by {}
        }
        Some(value)
    }

    /// A store of the running process with the page fault that it may
    /// take: where the MMU refuses the store, the fault handler runs at
    /// time `now`, and the store is tried once more. Returns `Ok(true)`
    /// where the byte is written, `Ok(false)` where the process has no
    /// right to write there.
    #[verifier::rlimit(60)]
    pub fn user_write(&mut self, addr: usize, value: u8, now: u64) -> (r: Result<bool, FatalFault>)
        requires
            old(self).wf(),
            old(self).pra() == PRA::PageFaultFrequency ==> old(self).gfm.last_fault() <= now,
        ensures
            r is Ok ==> final(self).wf(),
            r == access_outcome(*old(self), addr, true, now),
            r == Ok::<bool, FatalFault>(true) ==> {
                let vpn = fault_page(addr);
                let offset = VirtAddr::spec_new(addr as u64).0 % 4096;
                &&& final(self).current.resident(vpn)
                &&& final(self).current.frame(vpn).data@ == (match old(self).current.content(
                    old(self).ide_manager,
                    vpn,
                ) {
                    Some(bytes) => bytes,
                    None => zero_page(),
                }).update(offset as int, value)
                &&& forall|w: u64|
                    w != vpn ==> #[trigger] final(self).current.content(final(self).ide_manager, w)
                        == old(self).current.content(old(self).ide_manager, w)
            },
    {
        let ghost k0 = *self;
        let ghost n = k0.ready@.len() as int;
        proof {
            assert(k0.spaces()[n] == k0.current);
            assert(k0.current.inv(k0.p2v_map@, k0.frame_allocator));
            assert(k0.current.swap_free(k0.ide_manager.dir()));
        }
        if self.store(addr, value) {
            proof {
                let vpn = fault_page(addr);
                k0.current.lemma_resident(vpn, k0.p2v_map@);
                assert(k0.current.content(k0.ide_manager, vpn) == Some(
                    k0.current.frame(vpn).data@,
                ));
            }
            return Ok(true);
        }
        let va = VirtAddr::new(addr as u64);
        let vpn = va.floor();
        let writable: bool = match self.current.page_table.translate(vpn) {
            Some(pte) => pte.is_valid() && pte.writable(),
            None => false,
        };
        if writable {
            return Ok(false);
        }
        match do_pgfault(self, addr, 1, now) {
            Ok(true) => {
                let ghost k1 = *self;
                let done = self.store(addr, value);
                proof {
                    lemma_fresh_entry_allows(
                        k1.current.frame(vpn.0).ppn.0,
                        k0.current.areas@[first_area(k0.current, vpn.0)].map_perm.bits,
                        true,
                    );
                    if done {
                        assert forall|w: u64| w != vpn.0 implies #[trigger] self.current.content(
                            self.ide_manager,
                            w,
                        ) == k0.current.content(k0.ide_manager, w) by {
                            assert(k1.current.content(k1.ide_manager, w) == k0.current.content(
                                k0.ide_manager,
                                w,
                            ));
                        }
                    }
                }
                Ok(done)
            },
            Ok(false) => Ok(false),
            Err(e) => Err(e),
        }
    }

    /// A load of the running process with the page fault that it may
    /// take: where the MMU refuses the load, the fault handler runs at
    /// time `now`, and the load is tried once more. Returns the byte, or
    /// `None` where the process has no right to read there.
    #[verifier::rlimit(60)]
    pub fn user_read(&mut self, addr: usize, now: u64) -> (r: Result<Option<u8>, FatalFault>)
        requires
            old(self).wf(),
            old(self).pra() == PRA::PageFaultFrequency ==> old(self).gfm.last_fault() <= now,
        ensures
            r is Ok ==> final(self).wf(),
            (match r {
                Ok(Some(_)) => Ok::<bool, FatalFault>(true),
                Ok(None) => Ok::<bool, FatalFault>(false),
                Err(e) => Err::<bool, FatalFault>(e),
            }) == access_outcome(*old(self), addr, false, now),
            r is Ok && r->Ok_0 is Some ==> {
                let vpn = fault_page(addr);
                let offset = VirtAddr::spec_new(addr as u64).0 % 4096;
                &&& final(self).current.resident(vpn)
                &&& (r->Ok_0)->0 == (match old(self).current.content(old(self).ide_manager, vpn) {
                    Some(bytes) => bytes,
                    None => zero_page(),
                })[offset as int]
                &&& forall|w: u64| #[trigger]
                    final(self).current.content(final(self).ide_manager, w) == (if w == vpn {
                        Some(
                            match old(self).current.content(old(self).ide_manager, vpn) {
                                Some(bytes) => bytes,
                                None => zero_page(),
                            },
                        )
                    } else {
                        old(self).current.content(old(self).ide_manager, w)
                    })
            },
    {
        let ghost k0 = *self;
        let ghost n = k0.ready@.len() as int;
        proof {
            assert(k0.spaces()[n] == k0.current);
            assert(k0.current.inv(k0.p2v_map@, k0.frame_allocator));
            assert(k0.current.swap_free(k0.ide_manager.dir()));
        }
        match self.load(addr) {
            Some(value) => {
                proof {
                    let vpn = fault_page(addr);
                    assert(k0.current.content(k0.ide_manager, vpn) == Some(
                        k0.current.frame(vpn).data@,
                    ));
                }
                return Ok(Some(value));
            },
            None => {},
        }
        let va = VirtAddr::new(addr as u64);
        let vpn = va.floor();
        let readable: bool = match self.current.page_table.translate(vpn) {
            Some(pte) => pte.is_valid() && pte.readable(),
            None => false,
        };
        if readable {
            return Ok(None);
        }
        match do_pgfault(self, addr, 0, now) {
            Ok(true) => {
                let ghost k1 = *self;
                let got = self.load(addr);
                proof {
                    lemma_fresh_entry_allows(
                        k1.current.frame(vpn.0).ppn.0,
                        k0.current.areas@[first_area(k0.current, vpn.0)].map_perm.bits,
                        false,
                    );
                    if got is Some {
                        assert(k1.current.content(k1.ide_manager, vpn.0) == Some(
                            k1.current.frame(vpn.0).data@,
                        ));
                        assert forall|w: u64| w != vpn.0 implies #[trigger] self.current.content(
                            self.ide_manager,
                            w,
                        ) == k0.current.content(k0.ide_manager, w) by {
                            assert(k1.current.content(k1.ide_manager, w) == k0.current.content(
                                k0.ide_manager,
                                w,
                            ));
                        }
                    }
                }
                Ok(got)
            },
            Ok(false) => Ok(None),
            Err(e) => Err(e),
        }
    }
}

impl Kernel {
    /// The memory side of `fork`: a copy of the running address space
    /// joins the ready list at its end (see `MemorySet::from_existed_user`).
    /// Returns its place there. `None` where the free frames do not
    /// suffice; the kernel cannot go on then, and nothing is said of the
    /// state.
    #[verifier::rlimit(60)]
    pub fn fork(&mut self, strampoline: crate::mm::address::PhysAddr) -> (r: Option<usize>)
        requires
            old(self).wf(),
        ensures
            r is None ==> final(self).frame_allocator.free().len() < 3,
            old(self).frame_allocator.free().len() >= 3 + crate::mm::memory_set::layout_frames(
                old(self).current.areas@,
            ) ==> r is Some,
            r is Some ==> {
                let child = final(self).ready@.last();
                let parent = old(self).current;
                &&& final(self).wf()
                &&& r->0 == old(self).ready@.len()
                &&& final(self).ready@ == old(self).ready@.push(child)
                &&& final(self).current == parent
                &&& final(self).ide_manager == old(self).ide_manager
                &&& final(self).gfm == old(self).gfm
                &&& final(self).pte_recorder == old(self).pte_recorder
                &&& child.spec_token() != parent.spec_token()
                &&& parent.same_layout(child)
                &&& child.frame_manager.frames().len() == 0
                &&& forall|w: u64| #[trigger] child.resident(w) == parent.resident(w)
                &&& forall|w: u64|
                    parent.resident(w) ==> (#[trigger] child.frame(w)).data@ == parent.frame(
                        w,
                    ).data@
                &&& forall|w: u64|
                    parent.resident(w) ==> child.frame(w).ppn != (#[trigger] parent.frame(w)).ppn
            },
    {
        let ghost k0 = *self;
        let ghost n = k0.ready@.len() as int;
        let ghost all0 = k0.spaces();
        proof {
            assert(all0[n] == k0.current);
            assert(k0.current.inv(k0.p2v_map@, k0.frame_allocator));
            assert(k0.current.frame_manager.pra() == k0.pra());
        }
        let made = MemorySet::from_existed_user(
            &self.current,
            strampoline,
            &mut self.p2v_map,
            &mut self.frame_allocator,
        );
        match made {
            None => None,
            Some(child) => {
                let at: usize = self.ready.len();
                proof {
                    lemma_joined(
                        all0,
                        child,
                        k0.p2v_map@,
                        self.p2v_map@,
                        k0.frame_allocator,
                        self.frame_allocator,
                        k0.ide_manager,
                    );
                    assert(all0[n].spec_token() != child.spec_token());
                }
                let ghost kid = child;
                self.ready.push(child);
                proof {
                    let joined = all0.push(kid);
                    let all1 = self.spaces();
                    let place = |s: int|
                        if s == n {
                            n + 1
                        } else if s == n + 1 {
                            n
                        } else {
                            s
                        };
                    assert forall|s: int| 0 <= s < all1.len() implies 0 <= #[trigger] place(s)
                        < joined.len() && all1[s] == joined[place(s)] && place(place(s)) == s by {
                        if s < n {
                            assert(all1[s] == k0.ready@[s]);
                            assert(joined[s] == all0[s]);
                        }
                    }
                    lemma_reordered(
                        joined,
                        all1,
                        place,
                        place,
                        self.p2v_map@,
                        self.frame_allocator,
                        self.ide_manager,
                    );
                    assert forall|s: int| 0 <= s < all1.len() implies (#[trigger] all1[s]).frame_manager.pra()
                        == self.pra() by {
                        if s < n {
                            assert(all1[s] == all0[s]);
                            assert(all0[s].frame_manager.pra() == k0.pra());
                        }
                    }
                    assert(self.ready@.last() == kid);
                }
                Some(at)
            },
        }
    }

    /// Makes the address space at place `next` of the ready list the
    /// running one; the one that ran takes its place. Returns the value to
    /// load into the MMU.
    #[verifier::rlimit(60)]
    pub fn switch_to(&mut self, next: usize) -> (satp: u64)
        requires
            old(self).wf(),
            next < old(self).ready@.len(),
        ensures
            final(self).wf(),
            satp == final(self).current.spec_token(),
            final(self).current == old(self).ready@[next as int],
            final(self).ready@ == old(self).ready@.update(next as int, old(self).current),
            final(self).frame_allocator == old(self).frame_allocator,
            final(self).ide_manager == old(self).ide_manager,
            final(self).p2v_map == old(self).p2v_map,
            final(self).gfm == old(self).gfm,
            final(self).pte_recorder == old(self).pte_recorder,
    {
        let ghost k0 = *self;
        let ghost n = k0.ready@.len() as int;
        let ghost all0 = k0.spaces();
        std::mem::swap(&mut self.current, &mut self.ready[next]);
        proof {
            let all1 = self.spaces();
            let place = |s: int|
                if s == next {
                    n
                } else if s == n {
                    next as int
                } else {
                    s
                };
            assert forall|s: int| 0 <= s < all1.len() implies 0 <= #[trigger] place(s) < all0.len()
                && all1[s] == all0[place(s)] && place(place(s)) == s by {
                if s < n && s != next {
                    assert(all1[s] == k0.ready@[s]);
                }
            }
            lemma_reordered(
                all0,
                all1,
                place,
                place,
                k0.p2v_map@,
                k0.frame_allocator,
                k0.ide_manager,
            );
            assert forall|s: int| 0 <= s < all1.len() implies (#[trigger] all1[s]).frame_manager.pra()
                == self.pra() by {
                assert(all1[s] == all0[place(s)]);
                assert(all0[place(s)].frame_manager.pra() == k0.pra());
            }
        }
        self.current.activate()
    }
}

/// An access to a page that is not in memory takes the fault: where the
/// page lies in an area of the running process and is not resident, be it
/// evicted or never touched, the access ends as the fault handler does,
/// and is made where the handler brings the page in and the area permits
/// the access. With the contracts of `user_write` and `user_read` this
/// gives the round trip: a byte that was written is read back after the
/// page left memory.
pub proof fn lemma_absent_page_faults(kernel: Kernel, addr: usize, write: bool, now: u64)
    requires
        kernel.wf(),
        kernel.current.covered(fault_page(addr)),
        kernel.current.areas@[first_area(kernel.current, fault_page(addr))].map_type
            == MapType::Framed,
        !kernel.current.resident(fault_page(addr)),
    ensures
        !kernel.current.page_table@.contains_key(fault_page(addr)),
        access_outcome(kernel, addr, write, now) == (match fault_outcome(kernel, addr, now) {
            Ok(true) => Ok::<bool, FatalFault>(
                permits(
                    kernel.current.areas@[first_area(
                        kernel.current,
                        fault_page(addr),
                    )].map_perm.bits,
                    write,
                ),
            ),
            Ok(false) => Ok::<bool, FatalFault>(false),
            Err(e) => Err::<bool, FatalFault>(e),
        }),
{
    let cur = kernel.current;
    let vpn = fault_page(addr);
    let n = kernel.ready@.len() as int;
    assert(kernel.spaces()[n] == cur);
    assert(cur.inv(kernel.p2v_map@, kernel.frame_allocator));
    crate::mm::system::lemma_translated_iff_resident(
        cur,
        kernel.p2v_map@,
        first_area(cur, vpn),
        vpn,
    );
}

impl Kernel {
    /// The running process ends, and the process at place `next` of the
    /// ready list runs in its stead: every frame of the space that ends
    /// goes back to the allocator (those of its resident pages, then those
    /// of its page table), its frames leave the reverse map, and its pages
    /// leave the swap store. The other spaces are as they were. Returns
    /// the token of the space that runs now, for the MMU.
    #[verifier::rlimit(60)]
    pub fn exit_current(&mut self, next: usize) -> (satp: u64)
        requires
            old(self).wf(),
            next < old(self).ready@.len(),
        ensures
            final(self).wf(),
            satp == final(self).current.spec_token(),
            final(self).current == old(self).ready@[next as int],
            final(self).ready@ == old(self).ready@.remove(next as int),
            final(self).gfm == old(self).gfm,
            final(self).pte_recorder == old(self).pte_recorder,
            final(self).frame_allocator.limit() == old(self).frame_allocator.limit(),
            forall|p: u64|
                #[trigger] final(self).frame_allocator.allocated(p) == (old(
                    self,
                ).frame_allocator.allocated(p) && !old(self).current.owns(p)),
            forall|p: u64|
                #[trigger] final(self).p2v_map@.contains_key(p) == (old(self).p2v_map@.contains_key(
                    p,
                ) && !old(self).current.owns(p)),
            forall|p: u64|
                final(self).p2v_map@.contains_key(p) ==> #[trigger] final(self).p2v_map@[p] == old(
                    self,
                ).p2v_map@[p],
            forall|k: (u64, u64)|
                #[trigger] final(self).ide_manager.contents().contains_key(k) == (old(
                    self,
                ).ide_manager.contents().contains_key(k) && k.0 != old(self).current.spec_token()),
            forall|k: (u64, u64)|
                final(self).ide_manager.contents().contains_key(k) ==> #[trigger] final(self).ide_manager.contents()[k] == old(self).ide_manager.contents()[k],
            final(self).ide_manager.room() == old(self).ide_manager.room() + old(
                self,
            ).ide_manager.held(old(self).current.spec_token()),
    {
        let ghost k0 = *self;
        let ghost n = k0.ready@.len() as int;
        let ghost all0 = k0.spaces();
        let ghost c0 = k0.current;
        let ghost p0 = k0.p2v_map@;
        let ghost a0 = k0.frame_allocator;
        let ghost s0 = k0.ide_manager;
        proof {
            assert(all0[n] == c0);
            assert(c0.inv(p0, a0) && c0.swap_free(s0.dir()));
        }
        let token: u64 = self.current.token();
        self.current.recycle_data_pages(&mut self.p2v_map, &mut self.frame_allocator);
        let ghost c1 = self.current;
        let ghost p1 = self.p2v_map@;
        let ghost a1 = self.frame_allocator;
        proof {
            c0.lemma_cleared_stepped(c1, c0.covered_pages(), p0, p1, a0, a1, s0);
            lemma_step(all0, n, c1, p0, p1, a0, a1, s0, s0);
            assert forall|w: u64| !c1.resident(w) by {
                if c1.resident(w) {
                    let i = choose|i: int| c1.holds(i, w);
                    assert(c1.holds(i, w));
                }
            }
        }
        self.ide_manager.purge(token);
        let ghost s1 = self.ide_manager;
        let ghost all1 = all0.update(n, c1);
        proof {
            assert(all1[n] == c1);
            assert(c1.swap_free(s1.dir()));
            assert(crate::mm::memory_set::others_kept(token, s0, s1));
            assert(c1.stepped(c1, p1, p1, a1, a1, s0, s1));
            lemma_step(all1, n, c1, p1, p1, a1, a1, s0, s1);
            assert(all1.update(n, c1) =~= all1);
        }
        std::mem::swap(&mut self.current, &mut self.ready[next]);
        let dead = self.ready.remove(next);
        proof {
            assert(dead == c1);
            assert(self.ready@ =~= k0.ready@.remove(next as int));
            assert(c1.page_table.wf());
            assert(c1.tables_allocated(a1));
        }
        dead.page_table.release(&mut self.frame_allocator);
        proof {
            let a2 = self.frame_allocator;
            crate::mm::system::lemma_left(all1, n, p1, a1, a2, s1);
            let rest = all1.remove(n);
            assert(rest =~= k0.ready@);
            let all2 = self.spaces();
            let place = |s: int|
                if s < next {
                    s
                } else if s < n - 1 {
                    s + 1
                } else {
                    next as int
                };
            let back = |t: int|
                if t < next {
                    t
                } else if t == next {
                    n - 1
                } else {
                    t - 1
                };
            assert(all2.len() == rest.len());
            assert forall|s: int| 0 <= s < all2.len() implies 0 <= #[trigger] place(s) < rest.len()
                && all2[s] == rest[place(s)] && back(place(s)) == s by {
                if s < n - 1 {
                    assert(all2[s] == k0.ready@.remove(next as int)[s]);
                }
            }
            assert forall|t: int| 0 <= t < rest.len() implies 0 <= #[trigger] back(t) < all2.len()
                && place(back(t)) == t by {}
            lemma_reordered(rest, all2, place, back, p1, a2, s1);
            assert forall|s: int| 0 <= s < all2.len() implies (#[trigger] all2[s]).frame_manager.pra()
                == self.pra() by {
                assert(all2[s] == rest[place(s)]);
                assert(all0[place(s)] == k0.ready@[place(s)]);
                assert(all0[place(s)].frame_manager.pra() == k0.pra());
            }
            // Exactly the frames of the space that ended are free again.
            let gone = c0.frames_in(p0, c0.covered_pages());
            assert forall|p: u64| gone.contains(p) == (exists|w: u64|
                c0.resident(w) && #[trigger] c0.frame(w).ppn.0 == p) by {
                if gone.contains(p) {
                    assert(c0.resident(p0[p]) && c0.frame(p0[p]).ppn.0 == p);
                }
                if exists|w: u64| c0.resident(w) && #[trigger] c0.frame(w).ppn.0 == p {
                    let w = choose|w: u64| c0.resident(w) && #[trigger] c0.frame(w).ppn.0 == p;
                    c0.lemma_resident(w, p0);
                    let i = c0.owner(w);
                    assert(c0.holds(i, w));
                    c0.lemma_owner(i, w);
                    assert(c0.covered(w));
                    assert(c0.backs(p, p0));
                }
            }
            assert(c1.page_table.table_frames() == c0.page_table.table_frames());
            assert forall|p: u64|
                #[trigger] a2.allocated(p) == (a0.allocated(p) && !c0.owns(p)) by {
                assert(a1.allocated(p) == (a0.allocated(p) && !gone.contains(p)));
            }
            assert forall|p: u64|
                #[trigger] p1.contains_key(p) == (p0.contains_key(p) && !c0.owns(p)) by {
                assert(p1.contains_key(p) == (p0.contains_key(p) && !gone.contains(p)));
                if p0.contains_key(p) && c0.page_table.table_frames().contains(p) {
                    // A frame of a table backs no page.
                    let u = choose|u: int|
                        0 <= u < all0.len() && (#[trigger] all0[u]).backs(p, p0);
                    assert(all0[u].owns(p));
                    assert(c0.owns(p));
                    assert(u == n);
                    assert(c0.backs(p, p0));
                    c0.lemma_resident(p0[p], p0);
                }
            }
        }
        self.current.activate()
    }
}

} // verus!

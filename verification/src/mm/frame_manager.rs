//! The page-replacement policies: which resident page leaves when memory
//! runs short.

use vstd::prelude::*;
use std::collections::BTreeMap;
use crate::mm::address::{PhysPageNum, VirtPageNum};
use crate::mm::frame_allocator::StackFrameAllocator;
use crate::mm::memory_set::MemorySet;
use crate::mm::page_table::{PageTable, PageTableEntry};
use crate::mm::vmm::{ReverseMap, IdeManager, FatalFault};
use crate::mm::system::{system_inv, lemma_step};
use crate::config::{PFF_T, WORKINGSET_DELTA_NUM};

verus! {

broadcast use {vstd::std_specs::btree::group_btree_axioms, vstd::laws_cmp::group_laws_cmp};

/// A first-in, first-out queue.
#[derive(Debug)]
pub struct Queue<T> {
    data: Vec<T>,
}

impl<T> View for Queue<T> {
    type V = Seq<T>;

    /// The items, oldest first.
    closed spec fn view(&self) -> Seq<T> {
        self.data@
    }
}

impl<T> Queue<T> {
    pub fn new() -> (r: Queue<T>)
        ensures
            r@ == Seq::<T>::empty(),
    {
        Queue { data: Vec::new() }
    }

    /// Adds `item` behind the others.
    pub fn push(&mut self, item: T)
        ensures
            final(self)@ == old(self)@.push(item),
    {
        self.data.push(item);
    }

    /// Takes the oldest item out, if there is one.
    pub fn pop(&mut self) -> (r: Option<T>)
        ensures
            old(self)@.len() == 0 ==> r is None && final(self)@ == old(self)@,
            old(self)@.len() > 0 ==> r == Some(old(self)@[0]) && final(self)@ == old(
                self,
            )@.drop_first(),
    {
        let l: usize = self.data.len();
        if l > 0 {
            let v = self.data.remove(0);
            assert(self.data@ =~= old(self).data@.drop_first());
            Some(v)
        } else {
            None
        }
    }

    pub fn len(&self) -> (r: usize)
        ensures
            r == self@.len(),
    {
        self.data.len()
    }

    /// The item at place `i`, counted from the oldest.
    pub fn get(&self, i: usize) -> (r: &T)
        requires
            i < self@.len(),
        ensures
            *r == self@[i as int],
    {
        &self.data[i]
    }

    /// Takes the item at place `i` out.
    pub fn remove_at(&mut self, i: usize) -> (r: T)
        requires
            i < old(self)@.len(),
        ensures
            r == old(self)@[i as int],
            final(self)@ == old(self)@.remove(i as int),
    {
        self.data.remove(i)
    }
}

/// The page-replacement algorithms.
#[derive(Copy, Clone, PartialEq, Eq, Structural, Debug)]
pub enum PRA {
    FIFO,
    Clock,
    ClockImproved,
    WorkingSet,
    PageFaultFrequency,
}

/// How many times the clock hand must pass an entry before it may take
/// it: once for a set accessed bit, and under the improved algorithm once
/// more for a set dirty bit.
pub open spec fn clock_rank(pte: PageTableEntry, improved: bool) -> int {
    (if pte.spec_accessed() { 1int } else { 0int }) + (if improved && pte.spec_dirty() {
        1int
    } else {
        0int
    })
}

/// What `times` passes of the clock hand leave of an entry: each pass clears
/// the accessed bit if it is set, else, under the improved algorithm, the
/// dirty bit.
pub open spec fn clock_demoted(pte: PageTableEntry, times: int, improved: bool) -> PageTableEntry {
    if times <= 0 {
        pte
    } else if times == 1 {
        if pte.spec_accessed() {
            pte.without_accessed()
        } else if improved {
            pte.without_dirty()
        } else {
            pte
        }
    } else if improved {
        pte.without_accessed().without_dirty()
    } else {
        pte.without_accessed()
    }
}

/// Position of index `i` in the order in which a hand at `hand` visits a
/// buffer of `n` entries.
pub open spec fn scan_pos(i: int, hand: int, n: int) -> int {
    if i >= hand {
        i - hand
    } else {
        i + n - hand
    }
}

/// A pass lowers the rank by one, and leaves the frame and the valid bit.
pub proof fn lemma_clock_demoted(pte: PageTableEntry, times: int, improved: bool)
    requires
        0 <= times <= clock_rank(pte, improved),
    ensures
        clock_rank(clock_demoted(pte, times, improved), improved) == clock_rank(pte, improved)
            - times,
        clock_demoted(pte, times, improved).spec_ppn() == pte.spec_ppn(),
        clock_demoted(pte, times, improved).spec_is_valid() == pte.spec_is_valid(),
        clock_demoted(pte, times, improved).spec_flags() & 0x3f == pte.spec_flags() & 0x3f,
        times >= 1 && !improved ==> !clock_demoted(pte, times, improved).spec_accessed(),
        times < clock_rank(pte, improved) ==> clock_demoted(pte, times + 1, improved) == (if clock_demoted(
            pte,
            times,
            improved,
        ).spec_accessed() {
            clock_demoted(pte, times, improved).without_accessed()
        } else {
            clock_demoted(pte, times, improved).without_dirty()
        }),
{
    pte.lemma_without_accessed();
    pte.lemma_without_dirty();
    pte.without_accessed().lemma_without_dirty();
}

/// The circular buffer of the clock algorithms: the resident frames of
/// one address space, and the hand.
pub struct ClockQue {
    ppns: Vec<PhysPageNum>,
    ptr: usize,
}

impl ClockQue {
    /// The frames in the buffer.
    pub closed spec fn frames(self) -> Seq<u64> {
        Seq::new(self.ppns@.len(), |i: int| self.ppns@[i].0)
    }

    /// The index at which the hand stands.
    pub closed spec fn hand(self) -> int {
        self.ptr as int
    }

    /// The hand stands on an entry, or at 0 where there is none.
    pub closed spec fn wf(self) -> bool {
        if self.ppns@.len() == 0 {
            self.ptr == 0
        } else {
            self.ptr < self.ppns@.len()
        }
    }

    /// Whether the hand can scan the buffer: the reverse map `p2v` knows
    /// every frame, the table `pt` translates the page of each, and no two
    /// frames hold the same page.
    pub open spec fn scannable(
        self,
        pt: Map<u64, PageTableEntry>,
        p2v: Map<u64, u64>,
    ) -> bool {
        &&& forall|i: int|
            0 <= i < self.frames().len() ==> p2v.contains_key(#[trigger] self.frames()[i])
                && pt.contains_key(p2v[self.frames()[i]])
        &&& forall|i: int, j: int|
            0 <= i < self.frames().len() && 0 <= j < self.frames().len() && i != j
                ==> p2v[#[trigger] self.frames()[i]] != p2v[#[trigger] self.frames()[j]]
    }

    /// The page-table entry of the page in entry `i`.
    pub open spec fn pte_at(self, i: int, pt: Map<u64, PageTableEntry>, p2v: Map<u64, u64>) -> PageTableEntry {
        pt[p2v[self.frames()[i]]]
    }

    /// Whether the scan takes entry `v`: no entry has a lower rank, and
    /// those that the hand reaches before `v` have a higher one.
    pub open spec fn is_victim(
        self,
        v: int,
        pt: Map<u64, PageTableEntry>,
        p2v: Map<u64, u64>,
        improved: bool,
    ) -> bool {
        &&& 0 <= v < self.frames().len()
        &&& forall|i: int|
            0 <= i < self.frames().len() ==> clock_rank(
                #[trigger] self.pte_at(i, pt, p2v),
                improved,
            ) >= clock_rank(self.pte_at(v, pt, p2v), improved)
        &&& forall|i: int|
            0 <= i < self.frames().len() && scan_pos(i, self.hand(), self.frames().len() as int)
                < scan_pos(v, self.hand(), self.frames().len() as int) ==> clock_rank(
                #[trigger] self.pte_at(i, pt, p2v),
                improved,
            ) > clock_rank(self.pte_at(v, pt, p2v), improved)
    }

    /// Number of times the hand passes entry `i` without taking it in the
    /// scan that takes entry `v`.
    pub open spec fn passes(
        self,
        i: int,
        v: int,
        pt: Map<u64, PageTableEntry>,
        p2v: Map<u64, u64>,
        improved: bool,
    ) -> int {
        clock_rank(self.pte_at(v, pt, p2v), improved) + (if scan_pos(
            i,
            self.hand(),
            self.frames().len() as int,
        ) < scan_pos(v, self.hand(), self.frames().len() as int) {
            1int
        } else {
            0int
        })
    }

    /// The scan takes at most one entry.
    pub proof fn lemma_victim_unique(
        self,
        v: int,
        w: int,
        pt: Map<u64, PageTableEntry>,
        p2v: Map<u64, u64>,
        improved: bool,
    )
        requires
            self.wf(),
            self.is_victim(v, pt, p2v, improved),
            self.is_victim(w, pt, p2v, improved),
        ensures
            v == w,
    {
        let n = self.frames().len() as int;
        let h = self.hand();
        if v != w {
            assert(clock_rank(self.pte_at(w, pt, p2v), improved) >= clock_rank(
                self.pte_at(v, pt, p2v),
                improved,
            ));
            assert(clock_rank(self.pte_at(v, pt, p2v), improved) >= clock_rank(
                self.pte_at(w, pt, p2v),
                improved,
            ));
            if scan_pos(v, h, n) < scan_pos(w, h, n) {
                assert(clock_rank(self.pte_at(v, pt, p2v), improved) > clock_rank(
                    self.pte_at(w, pt, p2v),
                    improved,
                ));
            } else {
                assert(scan_pos(w, h, n) < scan_pos(v, h, n));
                assert(clock_rank(self.pte_at(w, pt, p2v), improved) > clock_rank(
                    self.pte_at(v, pt, p2v),
                    improved,
                ));
            }
        }
    }

    /// An empty buffer.
    pub fn new() -> (r: ClockQue)
        ensures
            r.wf(),
            r.frames() == Seq::<u64>::empty(),
            r.hand() == 0,
    {
        let r = ClockQue { ppns: Vec::new(), ptr: 0 };
        assert(r.frames() =~= Seq::<u64>::empty());
        r
    }

    fn inc(&mut self)
        requires
            old(self).ppns@.len() > 0,
            old(self).ptr < old(self).ppns@.len(),
        ensures
            final(self).ppns == old(self).ppns,
            final(self).ptr == (if old(self).ptr == old(self).ppns@.len() - 1 {
                0
            } else {
                old(self).ptr + 1
            }),
    {
        if self.ptr == self.ppns.len() - 1 {
            self.ptr = 0;
        } else {
            self.ptr += 1;
        }
    }

    /// Adds frame `ppn` at the end of the buffer. The hand stays.
    pub fn push(&mut self, ppn: PhysPageNum)
        requires
            old(self).wf(),
        ensures
            final(self).wf(),
            final(self).frames() == old(self).frames().push(ppn.0),
            final(self).hand() == old(self).hand(),
    {
        self.ppns.push(ppn);
        assert(self.frames() =~= old(self).frames().push(ppn.0));
    }

    pub fn len(&self) -> (r: usize)
        ensures
            r == self.frames().len(),
    {
        self.ppns.len()
    }

    /// The frame in entry `i`.
    pub fn get(&self, i: usize) -> (r: PhysPageNum)
        requires
            i < self.frames().len(),
        ensures
            r.0 == self.frames()[i as int],
    {
        self.ppns[i]
    }

    /// Takes entry `i` out of the buffer. The hand stays on the entry it
    /// stood on, or moves to the next where that entry leaves.
    pub fn remove_at(&mut self, i: usize)
        requires
            old(self).wf(),
            i < old(self).frames().len(),
        ensures
            final(self).wf(),
            final(self).frames() == old(self).frames().remove(i as int),
            final(self).hand() == (if i < old(self).hand() {
                old(self).hand() - 1
            } else if old(self).hand() == old(self).frames().len() - 1 {
                0
            } else {
                old(self).hand()
            }),
    {
        self.ppns.remove(i);
        if i < self.ptr {
            self.ptr = self.ptr - 1;
        } else if self.ptr == self.ppns.len() {
            self.ptr = 0;
        }
        assert(self.frames() =~= old(self).frames().remove(i as int));
    }

    /// The entry that the scan takes.
    pub open spec fn victim(
        self,
        pt: Map<u64, PageTableEntry>,
        p2v: Map<u64, u64>,
        improved: bool,
    ) -> int {
        choose|v: int| self.is_victim(v, pt, p2v, improved)
    }

    /// What a scan of this buffer with the tables `pt` and `p2v` leaves:
    /// the buffer `after` without the victim, the hand on the entry that
    /// followed it, and in `pt_after` each entry lowered once for each
    /// pass of the hand.
    pub open spec fn scanned(
        self,
        after: ClockQue,
        pt: Map<u64, PageTableEntry>,
        pt_after: Map<u64, PageTableEntry>,
        p2v: Map<u64, u64>,
        improved: bool,
    ) -> bool {
        let n = self.frames().len() as int;
        let v = self.victim(pt, p2v, improved);
        &&& self.is_victim(v, pt, p2v, improved)
        &&& after.frames() == self.frames().remove(v)
        &&& after.hand() == (if v == n - 1 {
            0
        } else {
            v
        })
        &&& pt_after.dom() == pt.dom()
        &&& forall|i: int|
            0 <= i < n ==> pt_after[p2v[#[trigger] self.frames()[i]]] == clock_demoted(
                self.pte_at(i, pt, p2v),
                self.passes(i, v, pt, p2v, improved),
                improved,
            )
        &&& forall|vpn: u64|
            pt.contains_key(vpn) && (forall|i: int|
                0 <= i < n ==> p2v[#[trigger] self.frames()[i]] != vpn) ==> #[trigger] pt_after[vpn]
                == pt[vpn]
    }

    #[verifier::rlimit(60)]
    fn scan(&mut self, page_table: &mut PageTable, p2v: &ReverseMap, improved: bool) -> (r: Option<
        PhysPageNum,
    >)
        requires
            old(self).wf(),
            old(page_table).wf(),
            old(self).scannable(old(page_table)@, p2v@),
        ensures
            final(self).wf(),
            final(page_table).wf(),
            final(page_table).same_tables(*old(page_table)),
            old(self).frames().len() == 0 ==> {
                &&& r is None
                &&& final(self).frames() == old(self).frames()
                &&& final(self).hand() == old(self).hand()
                &&& final(page_table)@ == old(page_table)@
            },
            old(self).frames().len() > 0 ==> {
                &&& r == Some(
                    PhysPageNum(
                        old(self).frames()[old(self).victim(old(page_table)@, p2v@, improved)],
                    ),
                )
                &&& old(self).scanned(
                    *final(self),
                    old(page_table)@,
                    final(page_table)@,
                    p2v@,
                    improved,
                )
            },
    {
        let n: usize = self.ppns.len();
        if n == 0 {
            assert(self.frames() =~= old(self).frames());
            return None;
        }
        let ghost q = *self;
        let ghost h = self.ptr as int;
        let ghost pt0 = page_table@;
        let ghost m = p2v@;
        let mut round: usize = 0;
        let mut off: usize = 0;
        loop
            invariant
                n == self.ppns@.len(),
                n > 0,
                self.ppns@ == q.ppns@,
                q == *old(self),
                q.wf(),
                q.frames().len() == n,
                0 <= h < n,
                h == q.hand(),
                off < n,
                round <= 2,
                self.ptr == (if h + off < n {
                    h + off
                } else {
                    h + off - n
                }),
                page_table.wf(),
                page_table.same_tables(*old(page_table)),
                page_table@.dom() == pt0.dom(),
                pt0 == old(page_table)@,
                m == p2v@,
                q.scannable(pt0, m),
                forall|i: int|
                    0 <= i < n ==> page_table@[m[#[trigger] q.frames()[i]]] == clock_demoted(
                        pt0[m[q.frames()[i]]],
                        round + (if scan_pos(i, h, n as int) < off {
                            1int
                        } else {
                            0int
                        }),
                        improved,
                    ),
                forall|i: int|
                    0 <= i < n ==> clock_rank(pt0[m[#[trigger] q.frames()[i]]], improved) >= round
                        + (if scan_pos(i, h, n as int) < off {
                        1int
                    } else {
                        0int
                    }),
                forall|vpn: u64|
                    pt0.contains_key(vpn) && (forall|i: int|
                        0 <= i < n ==> m[#[trigger] q.frames()[i]] != vpn)
                        ==> #[trigger] page_table@[vpn] == pt0[vpn],
            decreases 3 - round, n - off,
        {
            let ghost idx = self.ptr as int;
            let ghost pt1 = page_table@;
            let ppn = self.ppns[self.ptr];
            assert(q.frames()[idx] == ppn.0);
            assert(scan_pos(idx, h, n as int) == off);
            let vpn = p2v.get(ppn).unwrap();
            assert(pt0.contains_key(vpn.0));
            assert(page_table@.dom().contains(vpn.0));
            let pte = page_table.translate(vpn).unwrap();
            proof {
                lemma_clock_demoted(pt0[vpn.0], round as int, improved);
            }
            if !pte.accessed() && !(improved && pte.dirty()) {
                self.ppns.remove(self.ptr);
                if self.ptr == self.ppns.len() {
                    self.ptr = 0;
                }
                proof {
                    assert(clock_rank(pt0[vpn.0], improved) == round);
                    assert(self.frames() =~= q.frames().remove(idx));
                    assert(q.is_victim(idx, pt0, m, improved));
                    let v = q.victim(pt0, m, improved);
                    assert(q.is_victim(v, pt0, m, improved));
                    q.lemma_victim_unique(idx, v, pt0, m, improved);
                    assert forall|i: int| 0 <= i < n implies page_table@[m[#[trigger] q.frames()[i]]]
                        == clock_demoted(
                        q.pte_at(i, pt0, m),
                        q.passes(i, v, pt0, m, improved),
                        improved,
                    ) by {}
                }
                return Some(ppn);
            }
            if pte.accessed() {
                page_table.clear_accessed(vpn);
            } else {
                page_table.clear_dirty(vpn);
            }
            self.inc();
            proof {
                assert(clock_rank(pt0[vpn.0], improved) > round);
                assert(page_table@[vpn.0] == clock_demoted(pt0[vpn.0], round + 1, improved));
                assert(page_table@.dom() =~= pt0.dom());
                assert forall|i: int| 0 <= i < n && i != idx implies page_table@[m[#[trigger] q.frames()[i]]]
                    == pt1[m[q.frames()[i]]] by {
                    assert(m[q.frames()[i]] != m[q.frames()[idx]]);
                }
            }
            if off + 1 == n {
                off = 0;
                round = round + 1;
            } else {
                off = off + 1;
            }
        }
    }

    /// Clock: takes the first entry from the hand on whose page was not
    /// accessed, clearing the accessed bit of each entry it passes. Where
    /// every page was accessed, the hand comes round with all accessed
    /// bits clear and takes the entry it started on.
    pub fn pop(&mut self, page_table: &mut PageTable, p2v: &ReverseMap) -> (r: Option<PhysPageNum>)
        requires
            old(self).wf(),
            old(page_table).wf(),
            old(self).scannable(old(page_table)@, p2v@),
        ensures
            final(self).wf(),
            final(page_table).wf(),
            final(page_table).same_tables(*old(page_table)),
            old(self).frames().len() == 0 ==> {
                &&& r is None
                &&& final(self).frames() == old(self).frames()
                &&& final(self).hand() == old(self).hand()
                &&& final(page_table)@ == old(page_table)@
            },
            old(self).frames().len() > 0 ==> {
                &&& r == Some(
                    PhysPageNum(old(self).frames()[old(self).victim(old(page_table)@, p2v@, false)]),
                )
                &&& old(self).scanned(
                    *final(self),
                    old(page_table)@,
                    final(page_table)@,
                    p2v@,
                    false,
                )
            },
            (forall|i: int|
                0 <= i < old(self).frames().len() ==> (#[trigger] old(self).pte_at(
                    i,
                    old(page_table)@,
                    p2v@,
                )).spec_accessed()) ==> forall|i: int|
                0 <= i < old(self).frames().len() ==> !(#[trigger] old(self).pte_at(
                    i,
                    final(page_table)@,
                    p2v@,
                )).spec_accessed(),
    {
        let r = self.scan(page_table, p2v, false);
        proof {
            let q = *old(self);
            let pt0 = old(page_table)@;
            let n = q.frames().len() as int;
            if n > 0 && (forall|i: int|
                0 <= i < n ==> (#[trigger] q.pte_at(i, pt0, p2v@)).spec_accessed()) {
                let v = q.victim(pt0, p2v@, false);
                assert(q.pte_at(v, pt0, p2v@).spec_accessed());
                assert forall|i: int| 0 <= i < n implies !(#[trigger] q.pte_at(
                    i,
                    page_table@,
                    p2v@,
                )).spec_accessed() by {
                    assert(q.pte_at(i, pt0, p2v@).spec_accessed());
                    assert(page_table@[p2v@[q.frames()[i]]] == clock_demoted(
                        q.pte_at(i, pt0, p2v@),
                        q.passes(i, v, pt0, p2v@, false),
                        false,
                    ));
                    lemma_clock_demoted(
                        q.pte_at(i, pt0, p2v@),
                        q.passes(i, v, pt0, p2v@, false),
                        false,
                    );
                }
            }
        }
        r
    }

    /// Improved clock: as `pop`, but a page that was written waits one
    /// pass more. An entry whose page was neither accessed nor written is
    /// taken; one that was accessed loses the accessed bit; one that was
    /// only written loses the dirty bit. The hand takes an entry within
    /// two revolutions.
    pub fn pop_improved(&mut self, page_table: &mut PageTable, p2v: &ReverseMap) -> (r: Option<
        PhysPageNum,
    >)
        requires
            old(self).wf(),
            old(page_table).wf(),
            old(self).scannable(old(page_table)@, p2v@),
        ensures
            final(self).wf(),
            final(page_table).wf(),
            final(page_table).same_tables(*old(page_table)),
            old(self).frames().len() == 0 ==> {
                &&& r is None
                &&& final(self).frames() == old(self).frames()
                &&& final(self).hand() == old(self).hand()
                &&& final(page_table)@ == old(page_table)@
            },
            old(self).frames().len() > 0 ==> {
                &&& r == Some(
                    PhysPageNum(old(self).frames()[old(self).victim(old(page_table)@, p2v@, true)]),
                )
                &&& old(self).scanned(
                    *final(self),
                    old(page_table)@,
                    final(page_table)@,
                    p2v@,
                    true,
                )
            },
    {
        self.scan(page_table, p2v, true)
    }
}

/// The replacement state of one address space: the queue of the local
/// policy in use, or, under a global policy, the list of its resident
/// frames.
pub struct LocalFrameManager {
    used_pra: PRA,
    fifo_que: Queue<PhysPageNum>,
    clock_que: ClockQue,
    global_ppns: Vec<PhysPageNum>,
}

impl LocalFrameManager {
    /// The policy in use.
    pub closed spec fn pra(self) -> PRA {
        self.used_pra
    }

    /// The clock buffer. Empty unless the policy is one of the clocks.
    pub closed spec fn clock(self) -> ClockQue {
        self.clock_que
    }

    /// The registered frames, in the order of the structure that the
    /// policy keeps: queue order, buffer order, or order of arrival.
    pub closed spec fn frames(self) -> Seq<u64> {
        match self.used_pra {
            PRA::FIFO => Seq::new(self.fifo_que@.len(), |i: int| self.fifo_que@[i].0),
            PRA::Clock | PRA::ClockImproved => self.clock_que.frames(),
            PRA::WorkingSet | PRA::PageFaultFrequency => Seq::new(
                self.global_ppns@.len(),
                |i: int| self.global_ppns@[i].0,
            ),
        }
    }

    /// The structures of the policies that are not in use are empty.
    pub closed spec fn wf(self) -> bool {
        &&& self.clock_que.wf()
        &&& self.used_pra != PRA::FIFO ==> self.fifo_que@.len() == 0
        &&& self.used_pra != PRA::Clock && self.used_pra != PRA::ClockImproved
            ==> self.clock_que.frames().len() == 0
        &&& self.used_pra != PRA::WorkingSet && self.used_pra != PRA::PageFaultFrequency
            ==> self.global_ppns@.len() == 0
    }

    /// Under a clock policy the registered frames are those of the buffer.
    pub proof fn lemma_frames(self)
        requires
            self.wf(),
        ensures
            self.pra() == PRA::Clock || self.pra() == PRA::ClockImproved ==> self.frames()
                == self.clock().frames(),
            self.clock().wf(),
    {
    }

    /// Whether the policy in use picks its victims inside one address
    /// space.
    pub open spec fn is_local(pra: PRA) -> bool {
        pra == PRA::FIFO || pra == PRA::Clock || pra == PRA::ClockImproved
    }

    /// A manager for policy `pra` with no frame registered.
    pub fn new(pra: PRA) -> (r: LocalFrameManager)
        ensures
            r.wf(),
            r.pra() == pra,
            r.frames() == Seq::<u64>::empty(),
    {
        let r = LocalFrameManager {
            used_pra: pra,
            fifo_que: Queue::new(),
            clock_que: ClockQue::new(),
            global_ppns: Vec::new(),
        };
        assert(r.frames() =~= Seq::<u64>::empty());
        r
    }

    /// The policy in use.
    pub fn used_pra(&self) -> (r: PRA)
        ensures
            r == self.pra(),
    {
        self.used_pra
    }

    /// Number of registered frames.
    pub fn len(&self) -> (r: usize)
        requires
            self.wf(),
        ensures
            r == self.frames().len(),
    {
        match self.used_pra {
            PRA::FIFO => self.fifo_que.len(),
            PRA::Clock | PRA::ClockImproved => self.clock_que.len(),
            PRA::WorkingSet | PRA::PageFaultFrequency => self.global_ppns.len(),
        }
    }

    /// The registered frame at index `i`.
    pub fn frame_at(&self, i: usize) -> (r: PhysPageNum)
        requires
            self.wf(),
            i < self.frames().len(),
        ensures
            r.0 == self.frames()[i as int],
    {
        match self.used_pra {
            PRA::FIFO => *self.fifo_que.get(i),
            PRA::Clock | PRA::ClockImproved => self.clock_que.get(i),
            PRA::WorkingSet | PRA::PageFaultFrequency => self.global_ppns[i],
        }
    }

    /// Takes the registered frame at index `i` off the structure of the
    /// policy in use.
    pub fn remove_at(&mut self, i: usize)
        requires
            old(self).wf(),
            i < old(self).frames().len(),
        ensures
            final(self).wf(),
            final(self).pra() == old(self).pra(),
            final(self).frames() == old(self).frames().remove(i as int),
    {
        match self.used_pra {
            PRA::FIFO => {
                self.fifo_que.remove_at(i);
            },
            PRA::Clock | PRA::ClockImproved => {
                self.clock_que.remove_at(i);
            },
            PRA::WorkingSet | PRA::PageFaultFrequency => {
                self.global_ppns.remove(i);
            },
        }
        assert(self.frames() =~= old(self).frames().remove(i as int));
    }

    /// The index at which frame `ppn` is registered, if it is.
    pub fn position(&self, ppn: PhysPageNum) -> (r: Option<usize>)
        requires
            self.wf(),
        ensures
            r is Some ==> r->0 < self.frames().len() && self.frames()[r->0 as int] == ppn.0,
            r is None ==> !self.frames().contains(ppn.0),
    {
        let n: usize = self.len();
        let mut i: usize = 0;
        while i < n
            invariant
                self.wf(),
                n == self.frames().len(),
                i <= n,
                forall|k: int| 0 <= k < i ==> self.frames()[k] != ppn.0,
            decreases n - i,
        {
            if self.frame_at(i).0 == ppn.0 {
                return Some(i);
            }
            i = i + 1;
        }
        None
    }

    /// The frame that must give way, by the local policy in use: the
    /// oldest under FIFO, the choice of the scan under the clocks. `None`
    /// where no frame is registered, and under a global policy.
    pub fn get_next_frame(&mut self, page_table: &mut PageTable, p2v: &ReverseMap) -> (r: Option<
        PhysPageNum,
    >)
        requires
            old(self).wf(),
            old(page_table).wf(),
            old(self).pra() == PRA::Clock || old(self).pra() == PRA::ClockImproved ==> old(
                self,
            ).clock().scannable(old(page_table)@, p2v@),
        ensures
            final(self).wf(),
            final(self).pra() == old(self).pra(),
            final(page_table).wf(),
            final(page_table).same_tables(*old(page_table)),
            (old(self).frames().len() == 0 || !Self::is_local(old(self).pra())) ==> {
                &&& r is None
                &&& final(self).frames() == old(self).frames()
                &&& final(page_table)@ == old(page_table)@
            },
            old(self).frames().len() > 0 && old(self).pra() == PRA::FIFO ==> {
                &&& r == Some(PhysPageNum(old(self).frames()[0]))
                &&& final(self).frames() == old(self).frames().drop_first()
                &&& final(page_table)@ == old(page_table)@
            },
            old(self).frames().len() > 0 && (old(self).pra() == PRA::Clock || old(self).pra()
                == PRA::ClockImproved) ==> {
                &&& r == Some(
                    PhysPageNum(
                        old(self).frames()[old(self).clock().victim(
                            old(page_table)@,
                            p2v@,
                            old(self).pra() == PRA::ClockImproved,
                        )],
                    ),
                )
                &&& old(self).clock().scanned(
                    final(self).clock(),
                    old(page_table)@,
                    final(page_table)@,
                    p2v@,
                    old(self).pra() == PRA::ClockImproved,
                )
                &&& final(self).frames() == final(self).clock().frames()
            },
    {
        match self.used_pra {
            PRA::FIFO => {
                let r = self.fifo_que.pop();
                proof {
                    if old(self).fifo_que@.len() > 0 {
                        assert(self.frames() =~= old(self).frames().drop_first());
                    } else {
                        assert(self.frames() =~= old(self).frames());
                    }
                }
                r
            },
            PRA::Clock => self.clock_que.pop(page_table, p2v),
            PRA::ClockImproved => self.clock_que.pop_improved(page_table, p2v),
            _ => {
                assert(self.frames() =~= old(self).frames());
                None
            },
        }
    }

    /// Registers frame `ppn` with the policy in use.
    pub fn insert_frame(&mut self, ppn: PhysPageNum)
        requires
            old(self).wf(),
        ensures
            final(self).wf(),
            final(self).pra() == old(self).pra(),
            final(self).frames() == old(self).frames().push(ppn.0),
            final(self).clock().hand() == old(self).clock().hand(),
    {
        match self.used_pra {
            PRA::FIFO => {
                self.fifo_que.push(ppn);
            },
            PRA::Clock | PRA::ClockImproved => {
                self.clock_que.push(ppn);
            },
            PRA::PageFaultFrequency | PRA::WorkingSet => {
                self.global_ppns.push(ppn);
            },
        }
        assert(self.frames() =~= old(self).frames().push(ppn.0));
    }
}

/// Whether one of the samples in `history` saw page `(token, vpn)`
/// accessed.
pub open spec fn sampled(
    history: Seq<BTreeMap<(u64, u64), bool>>,
    token: u64,
    vpn: u64,
) -> bool {
    exists|k: int|
        0 <= k < history.len() && (#[trigger] history[k])@.contains_key((token, vpn))
            && history[k]@[(token, vpn)]
}

/// The frames registered with `ms` whose pages are idle: not accessed by
/// the page table, and not seen accessed by any sample of `history`.
pub open spec fn idle_set(
    ms: MemorySet,
    history: Seq<BTreeMap<(u64, u64), bool>>,
    p2v: Map<u64, u64>,
) -> Set<u64> {
    Set::new(
        |p: u64|
            ms.frame_manager.frames().contains(p) && !ms.page_table@[p2v[p]].spec_accessed()
                && !sampled(history, ms.spec_token(), p2v[p]),
    )
}

/// The frames of `frames` that are in `set` if `inside`, else those that
/// are not, in their order.
pub open spec fn select(frames: Seq<u64>, set: Set<u64>, inside: bool) -> Seq<u64>
    decreases frames.len(),
{
    if frames.len() == 0 {
        Seq::empty()
    } else if set.contains(frames[0]) == inside {
        seq![frames[0]] + select(frames.drop_first(), set, inside)
    } else {
        select(frames.drop_first(), set, inside)
    }
}

/// Selecting from a suffix: the first frame, then the rest.
pub proof fn lemma_select_skip(frames: Seq<u64>, set: Set<u64>, inside: bool, j: int)
    requires
        0 <= j < frames.len(),
    ensures
        select(frames.skip(j), set, inside) == (if set.contains(frames[j]) == inside {
            seq![frames[j]] + select(frames.skip(j + 1), set, inside)
        } else {
            select(frames.skip(j + 1), set, inside)
        }),
{
    assert(frames.skip(j).drop_first() =~= frames.skip(j + 1));
}

/// A suffix holds no more selected frames than the whole.
pub proof fn lemma_select_suffix_len(frames: Seq<u64>, set: Set<u64>, inside: bool, j: int)
    requires
        0 <= j <= frames.len(),
    ensures
        select(frames.skip(j), set, inside).len() <= select(frames, set, inside).len(),
    decreases j,
{
    if j == 0 {
        assert(frames.skip(0) =~= frames);
    } else {
        lemma_select_suffix_len(frames, set, inside, j - 1);
        lemma_select_skip(frames, set, inside, j - 1);
    }
}

/// Two sets that agree on the frames of a list select the same from it.
pub proof fn lemma_select_agree(frames: Seq<u64>, a: Set<u64>, b: Set<u64>, inside: bool)
    requires
        forall|k: int| 0 <= k < frames.len() ==> a.contains(#[trigger] frames[k]) == b.contains(
            frames[k],
        ),
    ensures
        select(frames, a, inside) == select(frames, b, inside),
    decreases frames.len(),
{
    if frames.len() > 0 {
        let rest = frames.drop_first();
        assert forall|k: int| 0 <= k < rest.len() implies a.contains(#[trigger] rest[k])
            == b.contains(rest[k]) by {
            assert(rest[k] == frames[k + 1]);
        }
        lemma_select_agree(rest, a, b, inside);
        assert(a.contains(frames[0]) == b.contains(frames[0]));
    }
}

/// Leaving out the frames of one set and then those of another leaves out
/// the frames of both.
pub proof fn lemma_select_twice(frames: Seq<u64>, a: Set<u64>, b: Set<u64>)
    ensures
        select(select(frames, a, false), b, false) == select(frames, a.union(b), false),
    decreases frames.len(),
{
    if frames.len() > 0 {
        let rest = frames.drop_first();
        lemma_select_twice(rest, a, b);
        if !a.contains(frames[0]) {
            let once = select(frames, a, false);
            assert(once.drop_first() =~= select(rest, a, false));
            assert(once[0] == frames[0]);
        }
    }
}

/// Taking one frame out of a list without duplicates leaves out that
/// frame.
pub proof fn lemma_select_one(frames: Seq<u64>, k: int)
    requires
        frames.no_duplicates(),
        0 <= k < frames.len(),
    ensures
        frames.remove(k) == select(frames, set![frames[k]], false),
    decreases frames.len(),
{
    let rest = frames.drop_first();
    let only = set![frames[k]];
    if k == 0 {
        assert(frames.remove(0) =~= rest);
        lemma_select_none(rest, only);
    } else {
        assert(rest.no_duplicates()) by {
            assert forall|i: int, j: int|
                0 <= i < rest.len() && 0 <= j < rest.len() && i != j implies rest[i] != rest[j] by {
                assert(rest[i] == frames[i + 1] && rest[j] == frames[j + 1]);
            }
        }
        assert(rest[k - 1] == frames[k]);
        lemma_select_one(rest, k - 1);
        assert(frames[0] != frames[k]);
        assert(frames.remove(k) =~= seq![frames[0]] + rest.remove(k - 1));
    }
}

/// Leaving out a set that holds no frame of the list leaves the list.
pub proof fn lemma_select_none(frames: Seq<u64>, set: Set<u64>)
    requires
        forall|i: int| 0 <= i < frames.len() ==> !set.contains(#[trigger] frames[i]),
    ensures
        select(frames, set, false) == frames,
    decreases frames.len(),
{
    if frames.len() > 0 {
        let rest = frames.drop_first();
        assert forall|i: int| 0 <= i < rest.len() implies !set.contains(#[trigger] rest[i]) by {
            assert(rest[i] == frames[i + 1]);
        }
        lemma_select_none(rest, set);
        assert(!set.contains(frames[0]));
        assert(seq![frames[0]] + rest =~= frames);
    }
}

/// Whether `after` is what eviction of the idle pages makes of the space
/// `before`: the idle frames are off the policy's list, their pages are no
/// longer resident and no longer translated, and the other pages are as
/// they were.
pub open spec fn trimmed(
    before: MemorySet,
    after: MemorySet,
    history: Seq<BTreeMap<(u64, u64), bool>>,
    p2v: Map<u64, u64>,
) -> bool {
    let idle = idle_set(before, history, p2v);
    &&& before.same_layout(after)
    &&& after.spec_token() == before.spec_token()
    &&& after.page_table.same_tables(before.page_table)
    &&& forall|w: u64|
        #[trigger] after.page_table@.contains_key(w) == (before.page_table@.contains_key(w) && (
        after.resident(w) || !before.resident(w)))
    &&& after.frame_manager.pra() == before.frame_manager.pra()
    &&& after.frame_manager.frames() == select(before.frame_manager.frames(), idle, false)
    &&& forall|w: u64|
        #[trigger] after.resident(w) == (before.resident(w) && !idle.contains(
            before.frame(w).ppn.0,
        ))
    &&& forall|w: u64| after.resident(w) ==> #[trigger] after.frame(w) == before.frame(w)
    &&& forall|w: u64|
        after.resident(w) ==> #[trigger] after.page_table@[w] == before.page_table@[w]
}

/// Evicts the idle pages among those that the global policy of `ms` has
/// registered, the last registered first. Under a local policy nothing
/// happens. Fails where the swap store has fewer free slots than pages
/// are idle.
#[verifier::rlimit(60)]
pub fn evict_idle(
    ms: &mut MemorySet,
    history: &Vec<BTreeMap<(u64, u64), bool>>,
    swap: &mut IdeManager,
    p2v: &mut ReverseMap,
    allocator: &mut StackFrameAllocator,
) -> (r: Result<(), FatalFault>)
    requires
        old(ms).inv(old(p2v)@, *old(allocator)),
        old(swap).wf(),
    ensures
        r is Err == (!LocalFrameManager::is_local(old(ms).frame_manager.pra()) && select(
            old(ms).frame_manager.frames(),
            idle_set(*old(ms), history@, old(p2v)@),
            true,
        ).len() > old(swap).room()),
        r is Err ==> r == Err::<(), FatalFault>(FatalFault::SwapFull),
        r is Ok && LocalFrameManager::is_local(old(ms).frame_manager.pra()) ==> {
            &&& *final(ms) == *old(ms)
            &&& *final(swap) == *old(swap)
            &&& *final(p2v) == *old(p2v)
            &&& *final(allocator) == *old(allocator)
        },
        r is Ok && !LocalFrameManager::is_local(old(ms).frame_manager.pra()) ==> {
            let gone = select(
                old(ms).frame_manager.frames(),
                idle_set(*old(ms), history@, old(p2v)@),
                true,
            );
            &&& final(ms).inv(final(p2v)@, *final(allocator))
            &&& final(swap).wf()
            &&& old(ms).swap_free(old(swap).dir()) ==> final(ms).swap_free(final(swap).dir())
            &&& old(ms).stepped(
                *final(ms),
                old(p2v)@,
                final(p2v)@,
                *old(allocator),
                *final(allocator),
                *old(swap),
                *final(swap),
            )
            &&& trimmed(*old(ms), *final(ms), history@, old(p2v)@)
            &&& forall|w: u64| #[trigger]
                final(ms).content(*final(swap), w) == old(ms).content(*old(swap), w)
            &&& final(swap).room() == old(swap).room() - gone.len()
            &&& final(allocator).free() == gone + old(allocator).free()
            &&& forall|p: u64|
                #[trigger] final(allocator).allocated(p) == (old(allocator).allocated(p)
                    && !idle_set(*old(ms), history@, old(p2v)@).contains(p))
            &&& forall|p: u64|
                #[trigger] final(p2v)@.contains_key(p) == (old(p2v)@.contains_key(p) && !idle_set(
                    *old(ms),
                    history@,
                    old(p2v)@,
                ).contains(p))
            &&& forall|p: u64| final(p2v)@.contains_key(p) ==> #[trigger] final(p2v)@[p] == old(
                p2v,
            )@[p]
        },
{
    let local: bool = match ms.frame_manager.used_pra() {
        PRA::FIFO => true,
        PRA::Clock => true,
        PRA::ClockImproved => true,
        _ => false,
    };
    if local {
        return Ok(());
    }
    let ghost m0 = *ms;
    let ghost p0 = p2v@;
    let ghost a0 = *allocator;
    let ghost s0 = *swap;
    let ghost list = m0.frame_manager.frames();
    let ghost idle = idle_set(m0, history@, p0);
    let token: u64 = ms.token();
    let mut j: usize = ms.frame_manager.len();
    proof {
        assert(list.skip(j as int) =~= Seq::<u64>::empty());
        assert(list.take(j as int) =~= list);
        assert(select(list.skip(j as int), idle, true) =~= Seq::<u64>::empty());
        assert(select(list.skip(j as int), idle, false) =~= Seq::<u64>::empty());
        assert(a0.free() =~= Seq::<u64>::empty() + a0.free());
        assert(list =~= list + Seq::<u64>::empty());
        assert forall|p: u64| #[trigger] m0.owns(p) == (m0.owns(p) && !(list.skip(
            j as int,
        ).contains(p) && idle.contains(p))) by {}
    }
    while j > 0
        invariant
            j <= list.len(),
            m0 == *old(ms),
            p0 == old(p2v)@,
            a0 == *old(allocator),
            s0 == *old(swap),
            list == m0.frame_manager.frames(),
            idle == idle_set(m0, history@, p0),
            token == m0.spec_token(),
            !LocalFrameManager::is_local(m0.frame_manager.pra()),
            m0.inv(p0, a0),
            s0.wf(),
            ms.inv(p2v@, *allocator),
            swap.wf(),
            m0.swap_free(s0.dir()) ==> ms.swap_free(swap.dir()),
            m0.same_layout(*ms),
            ms.spec_token() == m0.spec_token(),
            ms.page_table.same_tables(m0.page_table),
            forall|w: u64|
                #[trigger] ms.page_table@.contains_key(w) == (m0.page_table@.contains_key(w) && (
                ms.resident(w) || !m0.resident(w))),
            ms.frame_manager.pra() == m0.frame_manager.pra(),
            ms.frame_manager.frames() == list.take(j as int) + select(
                list.skip(j as int),
                idle,
                false,
            ),
            forall|w: u64|
                #[trigger] ms.resident(w) == (m0.resident(w) && !(list.skip(j as int).contains(
                    m0.frame(w).ppn.0,
                ) && idle.contains(m0.frame(w).ppn.0))),
            forall|w: u64| ms.resident(w) ==> #[trigger] ms.frame(w) == m0.frame(w),
            forall|w: u64| ms.resident(w) ==> #[trigger] ms.page_table@[w] == m0.page_table@[w],
            forall|w: u64| #[trigger] ms.content(*swap, w) == m0.content(s0, w),
            forall|p: u64|
                #[trigger] ms.owns(p) == (m0.owns(p) && !(list.skip(j as int).contains(p)
                    && idle.contains(p))),
            forall|p: u64|
                #[trigger] p2v@.contains_key(p) == (p0.contains_key(p) && !(list.skip(
                    j as int,
                ).contains(p) && idle.contains(p))),
            forall|p: u64| p2v@.contains_key(p) ==> #[trigger] p2v@[p] == p0[p],
            allocator.wf(),
            allocator.limit() == a0.limit(),
            forall|p: u64|
                #[trigger] allocator.allocated(p) == (a0.allocated(p) && !(list.skip(
                    j as int,
                ).contains(p) && idle.contains(p))),
            allocator.free() == select(list.skip(j as int), idle, true) + a0.free(),
            swap.room() == s0.room() - select(list.skip(j as int), idle, true).len(),
            crate::mm::memory_set::others_kept(token, s0, *swap),
        decreases j,
    {
        j = j - 1;
        let ghost m1 = *ms;
        let ghost p1 = p2v@;
        let ghost a1 = *allocator;
        let ghost s1 = *swap;
        let ppn = ms.frame_manager.frame_at(j);
        proof {
            lemma_select_skip(list, idle, true, j as int);
            lemma_select_skip(list, idle, false, j as int);
            lemma_select_suffix_len(list, idle, true, j as int);
            assert(m1.frame_manager.frames()[j as int] == list[j as int]);
            assert(ppn.0 == list[j as int]);
            assert(list.contains(ppn.0));
            assert(m1.backs(ppn.0, p1));
            assert(m0.backs(ppn.0, p0));
            m1.lemma_resident(p1[ppn.0], p1);
            assert(list.skip(j as int)[0] == ppn.0);
            assert forall|p: u64|
                #[trigger] list.skip(j as int).contains(p) == (p == ppn.0 || list.skip(
                    j as int + 1,
                ).contains(p)) by {
                let a = list.skip(j as int);
                let b = list.skip(j as int + 1);
                if a.contains(p) {
                    let k = choose|k: int| 0 <= k < a.len() && a[k] == p;
                    if k > 0 {
                        assert(b[k - 1] == p);
                    }
                }
                if b.contains(p) {
                    let k = choose|k: int| 0 <= k < b.len() && b[k] == p;
                    assert(a[k + 1] == p);
                }
            }
        }
        let vpn = p2v.get(ppn).unwrap();
        let mut flag: bool = false;
        let mut k: usize = 0;
        while k < history.len()
            invariant
                k <= history@.len(),
                flag == (exists|i: int|
                    0 <= i < k && (#[trigger] history@[i])@.contains_key((token, vpn.0))
                        && history@[i]@[(token, vpn.0)]),
            decreases history@.len() - k,
        {
            let hit: bool = match history[k].get(&(token, vpn.0)) {
                Some(seen) => *seen,
                None => false,
            };
            if hit {
                flag = true;
            }
            k = k + 1;
        }
        assert(flag == sampled(history@, token, vpn.0));
        match ms.page_table.translate(vpn) {
            Some(pte) => {
                if pte.is_valid() && pte.accessed() {
                    flag = true;
                }
            },
            None => {},
        }
        proof {
            assert(m1.page_table@[vpn.0] == m0.page_table@[vpn.0]);
            assert(flag == !idle.contains(ppn.0));
        }
        if !flag {
            if !swap.has_room() {
                return Err(FatalFault::SwapFull);
            }
            ms.forget_frame(j, p2v);
            let ghost m2 = *ms;
            proof {
                m2.lemma_same_areas(m1);
                assert(m2.allocated_by(a1)) by {
                    assert forall|i: int, w: u64| #[trigger] m2.holds(i, w) implies a1.allocated(
                        m2.areas@[i].frames()[w].ppn.0,
                    ) by {
                        assert(m1.holds(i, w));
                    }
                }
                assert(ms.frame_manager.frames() =~= list.take(j as int) + select(
                    list.skip(j as int),
                    idle,
                    false,
                ));
                if m1.swap_free(s1.dir()) {
                    assert forall|w: u64| #[trigger] m2.resident(w) implies !s1.dir().contains_key(
                        (m2.spec_token(), w),
                    ) by {
                        assert(m1.resident(w));
                    }
                }
                assert forall|w: u64| #[trigger] m2.content(s1, w) == m1.content(s1, w) by {}
            }
            ms.evict(ppn, swap, p2v, allocator);
            proof {
                let m3 = *ms;
                let v = vpn.0;
                assert(m0.frame(v).ppn.0 == ppn.0);
                assert forall|w: u64|
                    #[trigger] m3.resident(w) == (m0.resident(w) && !(list.skip(j as int).contains(
                        m0.frame(w).ppn.0,
                    ) && idle.contains(m0.frame(w).ppn.0))) by {
                    assert(m3.resident(w) == (m2.resident(w) && w != v));
                    assert(m2.resident(w) == m1.resident(w));
                    if m0.resident(w) && m0.frame(w).ppn.0 == ppn.0 {
                        m0.lemma_resident(w, p0);
                    }
                }
                assert forall|w: u64| m3.resident(w) implies #[trigger] m3.frame(w) == m0.frame(
                    w,
                ) by {
                    assert(m3.frame(w) == m2.frame(w));
                    assert(m1.resident(w));
                }
                assert forall|w: u64| m3.resident(w) implies #[trigger] m3.page_table@[w]
                    == m0.page_table@[w] by {
                    assert(m1.resident(w));
                }
                assert forall|w: u64| #[trigger] m3.content(*swap, w) == m0.content(s0, w) by {
                    assert(m3.content(*swap, w) == m2.content(s1, w));
                    assert(m2.content(s1, w) == m1.content(s1, w));
                }
                assert forall|p: u64|
                    #[trigger] m3.owns(p) == (m0.owns(p) && !(list.skip(j as int).contains(p)
                        && idle.contains(p))) by {
                    assert(m3.owns(p) == (m2.owns(p) && p != ppn.0));
                    assert(m2.owns(p) == m1.owns(p));
                }
                assert(allocator.free() =~= select(list.skip(j as int), idle, true) + a0.free());
                assert(m0.same_layout(m3));
                assert forall|w: u64|
                    #[trigger] m3.page_table@.contains_key(w) == (m0.page_table@.contains_key(w)
                        && (m3.resident(w) || !m0.resident(w))) by {
                    assert(m2.page_table@ == m1.page_table@);
                    assert(m3.page_table@.contains_key(w) == (m1.page_table@.contains_key(w) && w
                        != v));
                    assert(m3.resident(w) == (m1.resident(w) && w != v));
                    assert(m0.resident(v));
                }
                assert(crate::mm::memory_set::others_kept(token, s0, *swap)) by {
                    assert forall|k: (u64, u64)| k.0 != token implies {
                        &&& (#[trigger] swap.contents().contains_key(k))
                            == s0.contents().contains_key(k)
                        &&& s0.contents().contains_key(k) ==> swap.contents()[k]
                            == s0.contents()[k]
                    } by {
                        assert(swap.contents() == s1.contents().insert(
                            (token, v),
                            m2.frame(v).data@,
                        ));
                        assert(s1.contents().contains_key(k) == s0.contents().contains_key(k));
                        assert(k != (token, v));
                    }
                }
            }
        } else {
            proof {
                assert(ms.frame_manager.frames() =~= list.take(j as int) + select(
                    list.skip(j as int),
                    idle,
                    false,
                )) by {
                    assert(list.take(j as int + 1) =~= list.take(j as int).push(list[j as int]));
                }
            }
        }
    }
    proof {
        let m9 = *ms;
        assert(list.skip(0) =~= list);
        assert(list.take(0) =~= Seq::<u64>::empty());
        assert(m9.frame_manager.frames() =~= select(list, idle, false));
        assert forall|w: u64|
            #[trigger] m9.resident(w) == (m0.resident(w) && !idle.contains(m0.frame(w).ppn.0)) by {
            if m0.resident(w) && idle.contains(m0.frame(w).ppn.0) {
                assert(list.contains(m0.frame(w).ppn.0));
            }
        }
        assert(trimmed(m0, m9, history@, p0));
        // The change kept to this space.
        assert forall|p: u64| #[trigger] a0.allocated(p) && !m0.owns(p) implies {
            &&& allocator.allocated(p)
            &&& p2v@.contains_key(p) == p0.contains_key(p)
            &&& p0.contains_key(p) ==> p2v@[p] == p0[p]
        } by {
            if list.contains(p) {
                let k = choose|k: int| 0 <= k < list.len() && list[k] == p;
                assert(m0.backs(list[k], p0));
            }
        }
        assert forall|p: u64| #[trigger] m9.owns(p) implies m0.owns(p) || !a0.allocated(p) by {}
        assert forall|p: u64| #[trigger] p2v@.contains_key(p) implies m9.backs(p, p2v@) || (
        p0.contains_key(p) && p2v@[p] == p0[p] && !m0.backs(p, p0)) by {
            if m0.backs(p, p0) {
                let w = p0[p];
                assert(m0.frame(w).ppn.0 == p);
                assert(m9.resident(w));
                assert(m9.frame(w) == m0.frame(w));
            }
        }
        assert(m0.stepped(m9, p0, p2v@, a0, *allocator, s0, *swap));
    }
    Ok(())
}

/// What a sample of the space `ms` records: for each page that the
/// policy has registered, whether the page table saw it accessed.
pub open spec fn sample_of(ms: MemorySet) -> Map<(u64, u64), bool> {
    Map::new(
        |k: (u64, u64)| k.0 == ms.spec_token() && ms.registered(k.1),
        |k: (u64, u64)| ms.page_table@[k.1].spec_accessed(),
    )
}

/// Whether `after` is the space `before` with the accessed bit cleared on
/// every page that the policy has registered, and nothing else changed.
pub open spec fn aged(before: MemorySet, after: MemorySet) -> bool {
    &&& after.areas@ == before.areas@
    &&& after.frame_manager == before.frame_manager
    &&& after.page_table.wf()
    &&& after.page_table.same_tables(before.page_table)
    &&& after.page_table@.dom() == before.page_table@.dom()
    &&& forall|w: u64|
        before.page_table@.contains_key(w) ==> #[trigger] after.page_table@[w] == (if before.registered(
            w,
        ) {
            before.page_table@[w].without_accessed()
        } else {
            before.page_table@[w]
        })
}

/// Takes a sample of `ms` under a global policy: records in `record`, for
/// each registered page, whether it was accessed, and clears its accessed
/// bit. Under a local policy nothing happens.
#[verifier::rlimit(60)]
pub fn sample_pages(ms: &mut MemorySet, record: &mut BTreeMap<(u64, u64), bool>, p2v: &ReverseMap)
    requires
        old(ms).consistent(p2v@),
    ensures
        final(ms).consistent(p2v@),
        LocalFrameManager::is_local(old(ms).frame_manager.pra()) ==> *final(ms) == *old(ms)
            && final(record)@ == old(record)@,
        !LocalFrameManager::is_local(old(ms).frame_manager.pra()) ==> {
            &&& aged(*old(ms), *final(ms))
            &&& final(record)@ == old(record)@.union_prefer_right(sample_of(*old(ms)))
        },
{
    let local: bool = match ms.frame_manager.used_pra() {
        PRA::FIFO => true,
        PRA::Clock => true,
        PRA::ClockImproved => true,
        _ => false,
    };
    if local {
        return ;
    }
    let ghost m0 = *ms;
    let ghost r0 = record@;
    let ghost m = p2v@;
    let ghost list = m0.frame_manager.frames();
    let token: u64 = ms.token();
    let mut j: usize = ms.frame_manager.len();
    proof {
        assert(list.skip(j as int) =~= Seq::<u64>::empty());
        assert(record@ =~= r0.union_prefer_right(
            Map::new(
                |k: (u64, u64)|
                    k.0 == token && m0.resident(k.1) && list.skip(j as int).contains(
                        m0.frame(k.1).ppn.0,
                    ),
                |k: (u64, u64)| m0.page_table@[k.1].spec_accessed(),
            ),
        ));
    }
    while j > 0
        invariant
            j <= list.len(),
            m0 == *old(ms),
            r0 == old(record)@,
            m == p2v@,
            list == m0.frame_manager.frames(),
            token == m0.spec_token(),
            !LocalFrameManager::is_local(m0.frame_manager.pra()),
            m0.consistent(m),
            ms.consistent(m),
            ms.areas@ == m0.areas@,
            ms.frame_manager == m0.frame_manager,
            ms.page_table.wf(),
            ms.page_table.same_tables(m0.page_table),
            ms.page_table@.dom() == m0.page_table@.dom(),
            forall|w: u64|
                m0.page_table@.contains_key(w) ==> #[trigger] ms.page_table@[w] == (if m0.resident(
                    w,
                ) && list.skip(j as int).contains(m0.frame(w).ppn.0) {
                    m0.page_table@[w].without_accessed()
                } else {
                    m0.page_table@[w]
                }),
            record@ == r0.union_prefer_right(
                Map::new(
                    |k: (u64, u64)|
                        k.0 == token && m0.resident(k.1) && list.skip(j as int).contains(
                            m0.frame(k.1).ppn.0,
                        ),
                    |k: (u64, u64)| m0.page_table@[k.1].spec_accessed(),
                ),
            ),
        decreases j,
    {
        j = j - 1;
        let ghost m1 = *ms;
        let ghost r1 = record@;
        let ppn = ms.frame_manager.frame_at(j);
        proof {
            assert(ppn.0 == list[j as int]);
            assert(m0.backs(ppn.0, m));
            m0.lemma_resident(m[ppn.0], m);
            assert(list.skip(j as int)[0] == ppn.0);
            assert forall|p: u64|
                #[trigger] list.skip(j as int).contains(p) == (p == ppn.0 || list.skip(
                    j as int + 1,
                ).contains(p)) by {
                let a = list.skip(j as int);
                let b = list.skip(j as int + 1);
                if a.contains(p) {
                    let k = choose|k: int| 0 <= k < a.len() && a[k] == p;
                    if k > 0 {
                        assert(b[k - 1] == p);
                    }
                }
                if b.contains(p) {
                    let k = choose|k: int| 0 <= k < b.len() && b[k] == p;
                    assert(a[k + 1] == p);
                }
            }
            // The frame stands once in the list, so its page is fresh.
            assert(!list.skip(j as int + 1).contains(ppn.0)) by {
                let b = list.skip(j as int + 1);
                if b.contains(ppn.0) {
                    let k = choose|k: int| 0 <= k < b.len() && b[k] == ppn.0;
                    assert(list[j as int + 1 + k] == list[j as int]);
                }
            }
        }
        let vpn = p2v.get(ppn).unwrap();
        let ghost v = vpn.0;
        let pte = ms.page_table.translate(vpn).unwrap();
        proof {
            assert(m1.page_table@[v] == m0.page_table@[v]);
            m0.page_table@[v].lemma_without_accessed();
            m0.page_table@[v].lemma_usage_changes();
        }
        record.insert((token, vpn.0), pte.accessed());
        if pte.accessed() {
            ms.page_table.clear_accessed(vpn);
        }
        proof {
            let m2 = *ms;
            assert(m2.page_table@.dom() =~= m0.page_table@.dom());
            assert forall|w: u64| m0.page_table@.contains_key(w) implies #[trigger] m2.page_table@[w]
                == (if m0.resident(w) && list.skip(j as int).contains(m0.frame(w).ppn.0) {
                m0.page_table@[w].without_accessed()
            } else {
                m0.page_table@[w]
            }) by {
                if w != v && m0.resident(w) && m0.frame(w).ppn.0 == ppn.0 {
                    m0.lemma_resident(w, m);
                }
            }
            assert forall|w: u64| m1.page_table@.contains_key(w) implies (#[trigger] m2.page_table@[w]).same_but_usage(
                m1.page_table@[w],
            ) by {
                m1.page_table@[w].lemma_usage_changes();
            }
            m1.lemma_usage_update(m2, m);
            let next = Map::new(
                |k: (u64, u64)|
                    k.0 == token && m0.resident(k.1) && list.skip(j as int).contains(
                        m0.frame(k.1).ppn.0,
                    ),
                |k: (u64, u64)| m0.page_table@[k.1].spec_accessed(),
            );
            let prev = Map::new(
                |k: (u64, u64)|
                    k.0 == token && m0.resident(k.1) && list.skip(j as int + 1).contains(
                        m0.frame(k.1).ppn.0,
                    ),
                |k: (u64, u64)| m0.page_table@[k.1].spec_accessed(),
            );
            assert(r1 == r0.union_prefer_right(prev));
            assert forall|k: (u64, u64)|
                #[trigger] next.contains_key(k) == (prev.contains_key(k) || k == (token, v)) by {
                if k.0 == token && m0.resident(k.1) && m0.frame(k.1).ppn.0 == ppn.0 {
                    m0.lemma_resident(k.1, m);
                }
            }
            assert(record@ =~= r0.union_prefer_right(next));
        }
    }
    proof {
        let m9 = *ms;
        assert(list.skip(0) =~= list);
        assert(record@ =~= r0.union_prefer_right(sample_of(m0))) by {
            assert(sample_of(m0) =~= Map::new(
                |k: (u64, u64)|
                    k.0 == token && m0.resident(k.1) && list.skip(0).contains(m0.frame(k.1).ppn.0),
                |k: (u64, u64)| m0.page_table@[k.1].spec_accessed(),
            ));
        }
    }
}

/// Number of idle pages that `evict_idle` finds in `ms`.
pub open spec fn idle_count(
    ms: MemorySet,
    history: Seq<BTreeMap<(u64, u64), bool>>,
    p2v: Map<u64, u64>,
) -> nat {
    if LocalFrameManager::is_local(ms.frame_manager.pra()) {
        0
    } else {
        select(ms.frame_manager.frames(), idle_set(ms, history, p2v), true).len()
    }
}

/// Number of idle pages in all of `spaces`.
pub open spec fn idle_total(
    spaces: Seq<MemorySet>,
    history: Seq<BTreeMap<(u64, u64), bool>>,
    p2v: Map<u64, u64>,
) -> nat
    decreases spaces.len(),
{
    if spaces.len() == 0 {
        0
    } else {
        idle_total(spaces.drop_last(), history, p2v) + idle_count(spaces.last(), history, p2v)
    }
}

/// The first spaces hold no more idle pages than all of them.
pub proof fn lemma_idle_total_prefix(
    spaces: Seq<MemorySet>,
    history: Seq<BTreeMap<(u64, u64), bool>>,
    p2v: Map<u64, u64>,
    i: int,
)
    requires
        0 <= i <= spaces.len(),
    ensures
        idle_total(spaces.take(i), history, p2v) <= idle_total(spaces, history, p2v),
        i < spaces.len() ==> idle_total(spaces.take(i + 1), history, p2v) == idle_total(
            spaces.take(i),
            history,
            p2v,
        ) + idle_count(spaces[i], history, p2v),
    decreases spaces.len() - i,
{
    if i == spaces.len() {
        assert(spaces.take(i) =~= spaces);
    } else {
        assert(spaces.take(i + 1).drop_last() =~= spaces.take(i));
        assert(spaces.take(i + 1).last() == spaces[i]);
        lemma_idle_total_prefix(spaces, history, p2v, i + 1);
    }
}

/// Whether `after` is what eviction of the idle pages makes of `before`:
/// a space under a global policy is trimmed, one under a local policy is
/// as before.
pub open spec fn trimmed_or_same(
    before: MemorySet,
    after: MemorySet,
    history: Seq<BTreeMap<(u64, u64), bool>>,
    p2v: Map<u64, u64>,
) -> bool {
    if LocalFrameManager::is_local(before.frame_manager.pra()) {
        after == before
    } else {
        trimmed(before, after, history, p2v)
    }
}

/// Whether `after` with the swap store `sw2` is what eviction of the idle
/// pages makes of the spaces `before` with the swap store `sw`: each space
/// is trimmed or the same, every page of every space keeps its bytes, and
/// the store has taken one slot for each idle page.
pub open spec fn all_trimmed(
    before: Seq<MemorySet>,
    after: Seq<MemorySet>,
    history: Seq<BTreeMap<(u64, u64), bool>>,
    p2v: Map<u64, u64>,
    sw: IdeManager,
    sw2: IdeManager,
) -> bool {
    &&& after.len() == before.len()
    &&& forall|s: int|
        0 <= s < before.len() ==> trimmed_or_same(before[s], #[trigger] after[s], history, p2v)
    &&& forall|s: int, w: u64|
        0 <= s < before.len() ==> #[trigger] after[s].content(sw2, w) == before[s].content(sw, w)
    &&& sw2.room() == sw.room() - idle_total(before, history, p2v)
}

/// Whether frame `p` backs an idle page of one of the first `upto` of
/// `spaces` that a global policy rules.
pub open spec fn idle_among(
    spaces: Seq<MemorySet>,
    history: Seq<BTreeMap<(u64, u64), bool>>,
    p2v: Map<u64, u64>,
    upto: int,
    p: u64,
) -> bool {
    exists|s: int|
        0 <= s < upto && !LocalFrameManager::is_local((#[trigger] spaces[s]).frame_manager.pra())
            && idle_set(spaces[s], history, p2v).contains(p)
}

/// Whether the allocator `al2` and the reverse map `p2v2` are `al` and
/// `p2v` after the eviction of the idle pages of `spaces`: exactly the
/// frames of those pages are free again and off the reverse map.
pub open spec fn idle_released(
    spaces: Seq<MemorySet>,
    history: Seq<BTreeMap<(u64, u64), bool>>,
    p2v: Map<u64, u64>,
    p2v2: Map<u64, u64>,
    al: StackFrameAllocator,
    al2: StackFrameAllocator,
    upto: int,
) -> bool {
    &&& forall|p: u64|
        #[trigger] al2.allocated(p) == (al.allocated(p) && !idle_among(
            spaces,
            history,
            p2v,
            upto,
            p,
        ))
    &&& forall|p: u64|
        #[trigger] p2v2.contains_key(p) == (p2v.contains_key(p) && !idle_among(
            spaces,
            history,
            p2v,
            upto,
            p,
        ))
    &&& forall|p: u64| p2v2.contains_key(p) ==> #[trigger] p2v2[p] == p2v[p]
}

/// Evicts the idle pages of every space under a global policy: those of
/// the ready spaces in their order, then those of the current one. Fails
/// where the swap store has fewer free slots than pages are idle.
#[verifier::rlimit(60)]
pub fn evict_idle_all(
    ready: &mut Vec<MemorySet>,
    current: &mut MemorySet,
    history: &Vec<BTreeMap<(u64, u64), bool>>,
    swap: &mut IdeManager,
    p2v: &mut ReverseMap,
    allocator: &mut StackFrameAllocator,
) -> (r: Result<(), FatalFault>)
    requires
        system_inv(old(ready)@.push(*old(current)), old(p2v)@, *old(allocator), *old(swap)),
    ensures
        r is Err == (idle_total(old(ready)@.push(*old(current)), history@, old(p2v)@) > old(
            swap,
        ).room()),
        r is Err ==> r == Err::<(), FatalFault>(FatalFault::SwapFull),
        r is Ok ==> {
            &&& system_inv(
                final(ready)@.push(*final(current)),
                final(p2v)@,
                *final(allocator),
                *final(swap),
            )
            &&& all_trimmed(
                old(ready)@.push(*old(current)),
                final(ready)@.push(*final(current)),
                history@,
                old(p2v)@,
                *old(swap),
                *final(swap),
            )
            &&& final(allocator).free().len() == old(allocator).free().len() + idle_total(
                old(ready)@.push(*old(current)),
                history@,
                old(p2v)@,
            )
            &&& idle_released(
                old(ready)@.push(*old(current)),
                history@,
                old(p2v)@,
                final(p2v)@,
                *old(allocator),
                *final(allocator),
                (old(ready)@.len() + 1) as int,
            )
        },
{
    let ghost all0 = ready@.push(*current);
    let ghost p0 = p2v@;
    let ghost s0 = *swap;
    let ghost a0 = *allocator;
    let ghost n = ready@.len() as int;
    let mut i: usize = 0;
    let mut done: bool = false;
    proof {
        assert(all0.take(0) =~= Seq::<MemorySet>::empty());
    }
    while !done
        invariant
            i <= n,
            done ==> i == n,
            n == old(ready)@.len(),
            ready@.len() == n,
            all0 == old(ready)@.push(*old(current)),
            p0 == old(p2v)@,
            s0 == *old(swap),
            system_inv(all0, p0, *old(allocator), s0),
            system_inv(ready@.push(*current), p2v@, *allocator, *swap),
            forall|s: int|
                0 <= s < i + (if done {
                    1int
                } else {
                    0int
                }) ==> trimmed_or_same(all0[s], #[trigger] ready@.push(*current)[s], history@, p0),
            forall|s: int|
                i + (if done {
                    1int
                } else {
                    0int
                }) <= s <= n ==> #[trigger] ready@.push(*current)[s] == all0[s],
            forall|s: int, w: u64|
                0 <= s <= n ==> #[trigger] ready@.push(*current)[s].content(*swap, w)
                    == all0[s].content(s0, w),
            forall|s: int, p: u64|
                i <= s <= n && !done && #[trigger] all0[s].owns(p) && p0.contains_key(p)
                    ==> p2v@.contains_key(p) && p2v@[p] == p0[p],
            swap.room() == s0.room() - idle_total(
                all0.take(
                    i + (if done {
                        1int
                    } else {
                        0int
                    }),
                ),
                history@,
                p0,
            ),
            a0 == *old(allocator),
            allocator.free().len() == a0.free().len() + idle_total(
                all0.take(
                    i + (if done {
                        1int
                    } else {
                        0int
                    }),
                ),
                history@,
                p0,
            ),
            idle_released(
                all0,
                history@,
                p0,
                p2v@,
                a0,
                *allocator,
                i + (if done {
                    1int
                } else {
                    0int
                }),
            ),
        decreases n + 1 - i - (if done {
            1int
        } else {
            0int
        }),
    {
        let ghost all1 = ready@.push(*current);
        let ghost p1 = p2v@;
        let ghost a1 = *allocator;
        let ghost s1 = *swap;
        let ghost before = all1[i as int];
        proof {
            assert(before == all0[i as int]);
            assert(before.inv(p1, a1) && before.swap_free(s1.dir()));
            lemma_idle_total_prefix(all0, history@, p0, i as int);
            lemma_idle_total_prefix(all0, history@, p0, i as int + 1);
            // The idle pages are those of the start.
            let f = before.frame_manager.frames();
            assert forall|k: int| 0 <= k < f.len() implies idle_set(before, history@, p1).contains(
                #[trigger] f[k],
            ) == idle_set(before, history@, p0).contains(f[k]) by {
                assert(before.backs(f[k], p1));
                assert(all0[i as int].inv(p0, *old(allocator)));
                assert(before.backs(f[k], p0));
                assert(before.owns(f[k]));
            }
            lemma_select_agree(
                f,
                idle_set(before, history@, p1),
                idle_set(before, history@, p0),
                true,
            );
            lemma_select_agree(
                f,
                idle_set(before, history@, p1),
                idle_set(before, history@, p0),
                false,
            );
        }
        let at_ready: bool = i < ready.len();
        let r = if at_ready {
            evict_idle(&mut ready[i], history, swap, p2v, allocator)
        } else {
            evict_idle(current, history, swap, p2v, allocator)
        };
        if r.is_err() {
            return r;
        }
        proof {
            let all2 = ready@.push(*current);
            let after = all2[i as int];
            assert(all2 =~= all1.update(i as int, after));
            if LocalFrameManager::is_local(before.frame_manager.pra()) {
                assert(all2 =~= all1);
            } else {
                lemma_step(all1, i as int, after, p1, p2v@, a1, *allocator, s1, *swap);
                assert(trimmed(before, after, history@, p0)) by {
                    let idle1 = idle_set(before, history@, p1);
                    let idle0 = idle_set(before, history@, p0);
                    assert forall|w: u64|
                        #[trigger] after.resident(w) == (before.resident(w) && !idle0.contains(
                            before.frame(w).ppn.0,
                        )) by {
                        if before.resident(w) {
                            let p = before.frame(w).ppn.0;
                            before.lemma_resident(w, p1);
                            assert(before.owns(p));
                            assert(all0[i as int].inv(p0, *old(allocator)));
                            before.lemma_resident(w, p0);
                        }
                    }
                }
                assert forall|s: int, w: u64| 0 <= s <= n implies #[trigger] all2[s].content(
                    *swap,
                    w,
                ) == all0[s].content(s0, w) by {
                    if s != i {
                        assert(all2[s] == all1[s]);
                        crate::mm::system::lemma_tokens_differ(all1, p1, a1, s1, i as int, s);
                        let k = (all1[s].spec_token(), w);
                        assert(swap.contents().contains_key(k) == s1.contents().contains_key(k));
                        assert(all1[s].content(s1, w) == all0[s].content(s0, w));
                    } else {
                        assert(all1[s].content(s1, w) == all0[s].content(s0, w));
                    }
                }
            }
            assert forall|s: int, p: u64|
                i + 1 <= s <= n && #[trigger] all0[s].owns(p) && p0.contains_key(p) implies p2v@.contains_key(
                p,
            ) && p2v@[p] == p0[p] by {
                assert(all1[s] == all0[s]);
                assert(all1[s].owns(p));
            }
            // Exactly the idle frames of this space left.
            let idle1 = idle_set(before, history@, p1);
            let idle0 = idle_set(before, history@, p0);
            let local = LocalFrameManager::is_local(before.frame_manager.pra());
            assert forall|p: u64| idle1.contains(p) == idle0.contains(p) by {
                let f = before.frame_manager.frames();
                if f.contains(p) {
                    let k = choose|k: int| 0 <= k < f.len() && f[k] == p;
                    assert(idle1.contains(f[k]) == idle0.contains(f[k]));
                }
            }
            assert forall|p: u64| idle_among(all0, history@, p0, i as int + 1, p) == (idle_among(
                all0,
                history@,
                p0,
                i as int,
                p,
            ) || (!local && idle0.contains(p))) by {
                if idle_among(all0, history@, p0, i as int + 1, p) {
                    let s = choose|s: int|
                        0 <= s < i + 1 && !LocalFrameManager::is_local(
                            (#[trigger] all0[s]).frame_manager.pra(),
                        ) && idle_set(all0[s], history@, p0).contains(p);
                    if s < i {
                        assert(idle_among(all0, history@, p0, i as int, p));
                    }
                }
                if idle_among(all0, history@, p0, i as int, p) {
                    let s = choose|s: int|
                        0 <= s < i && !LocalFrameManager::is_local(
                            (#[trigger] all0[s]).frame_manager.pra(),
                        ) && idle_set(all0[s], history@, p0).contains(p);
                    assert(0 <= s < i + 1);
                }
                if !local && idle0.contains(p) {
                    assert(all0[i as int] == before);
                }
            }
            assert(idle_released(all0, history@, p0, p2v@, a0, *allocator, i as int + 1)) by {
                assert forall|p: u64|
                    #[trigger] allocator.allocated(p) == (a0.allocated(p) && !idle_among(
                        all0,
                        history@,
                        p0,
                        i as int + 1,
                        p,
                    )) by {
                    assert(a1.allocated(p) == (a0.allocated(p) && !idle_among(
                        all0,
                        history@,
                        p0,
                        i as int,
                        p,
                    )));
                }
                assert forall|p: u64|
                    #[trigger] p2v@.contains_key(p) == (p0.contains_key(p) && !idle_among(
                        all0,
                        history@,
                        p0,
                        i as int + 1,
                        p,
                    )) by {
                    assert(p1.contains_key(p) == (p0.contains_key(p) && !idle_among(
                        all0,
                        history@,
                        p0,
                        i as int,
                        p,
                    )));
                }
            }
        }
        if at_ready {
            i = i + 1;
        } else {
            done = true;
        }
    }
    proof {
        assert(all0.take(n + 1) =~= all0);
    }
    Ok(())
}

/// Whether `after` is what a sample or an ageing pass makes of `before`: a
/// space under a global policy has the accessed bits of its registered
/// pages cleared, one under a local policy is as before.
pub open spec fn aged_or_same(before: MemorySet, after: MemorySet) -> bool {
    if LocalFrameManager::is_local(before.frame_manager.pra()) {
        after == before
    } else {
        aged(before, after)
    }
}

/// Whether the sample of one of the `spaces` under a global policy holds
/// the page `k`.
pub open spec fn in_samples(spaces: Seq<MemorySet>, k: (u64, u64)) -> bool {
    exists|s: int|
        0 <= s < spaces.len() && !LocalFrameManager::is_local(
            (#[trigger] spaces[s]).frame_manager.pra(),
        ) && sample_of(spaces[s]).contains_key(k)
}

/// Whether no two of the `spaces` have the same token.
pub open spec fn tokens_distinct(spaces: Seq<MemorySet>) -> bool {
    forall|s: int, t: int|
        0 <= s < spaces.len() && 0 <= t < spaces.len() && s != t ==> (#[trigger] spaces[s]).spec_token()
            != (#[trigger] spaces[t]).spec_token()
}

/// Takes a sample of every space under a global policy into `record`:
/// for each registered page, whether it was accessed; and clears the
/// accessed bits of those pages.
#[verifier::rlimit(60)]
pub fn sample_all(
    ready: &mut Vec<MemorySet>,
    current: &mut MemorySet,
    record: &mut BTreeMap<(u64, u64), bool>,
    p2v: &ReverseMap,
)
    requires
        forall|s: int| 0 <= s < old(ready)@.len() ==> (#[trigger] old(ready)@[s]).consistent(p2v@),
        old(current).consistent(p2v@),
        tokens_distinct(old(ready)@.push(*old(current))),
    ensures
        final(ready)@.len() == old(ready)@.len(),
        forall|s: int| 0 <= s < final(ready)@.len() ==> (#[trigger] final(ready)@[s]).consistent(p2v@),
        final(current).consistent(p2v@),
        forall|s: int|
            0 <= s < old(ready)@.len() ==> aged_or_same(old(ready)@[s], #[trigger] final(ready)@[s]),
        aged_or_same(*old(current), *final(current)),
        forall|k: (u64, u64)|
            #[trigger] final(record)@.contains_key(k) == (old(record)@.contains_key(k)
                || in_samples(old(ready)@.push(*old(current)), k)),
        forall|k: (u64, u64)|
            old(record)@.contains_key(k) && !in_samples(old(ready)@.push(*old(current)), k)
                ==> #[trigger] final(record)@[k] == old(record)@[k],
        forall|s: int, k: (u64, u64)|
            0 <= s <= old(ready)@.len() && !LocalFrameManager::is_local(
                old(ready)@.push(*old(current))[s].frame_manager.pra(),
            ) && #[trigger] sample_of(old(ready)@.push(*old(current))[s]).contains_key(k)
                ==> final(record)@[k] == sample_of(old(ready)@.push(*old(current))[s])[k],
{
    let ghost all0 = ready@.push(*current);
    let ghost r0 = record@;
    let ghost n = ready@.len() as int;
    let mut i: usize = 0;
    let mut done: bool = false;
    while !done
        invariant
            i <= n,
            done ==> i == n,
            n == old(ready)@.len(),
            ready@.len() == n,
            all0 == old(ready)@.push(*old(current)),
            r0 == old(record)@,
            tokens_distinct(all0),
            forall|s: int| 0 <= s <= n ==> (#[trigger] ready@.push(*current)[s]).consistent(p2v@),
            forall|s: int|
                0 <= s < i + (if done {
                    1int
                } else {
                    0int
                }) ==> aged_or_same(all0[s], #[trigger] ready@.push(*current)[s]),
            forall|s: int|
                i + (if done {
                    1int
                } else {
                    0int
                }) <= s <= n ==> #[trigger] ready@.push(*current)[s] == all0[s],
            forall|k: (u64, u64)|
                #[trigger] record@.contains_key(k) == (r0.contains_key(k) || in_samples(
                    all0.take(
                        i + (if done {
                            1int
                        } else {
                            0int
                        }),
                    ),
                    k,
                )),
            forall|k: (u64, u64)|
                r0.contains_key(k) && !in_samples(
                    all0.take(
                        i + (if done {
                            1int
                        } else {
                            0int
                        }),
                    ),
                    k,
                ) ==> #[trigger] record@[k] == r0[k],
            forall|s: int, k: (u64, u64)|
                0 <= s < i + (if done {
                    1int
                } else {
                    0int
                }) && !LocalFrameManager::is_local(all0[s].frame_manager.pra())
                    && #[trigger] sample_of(all0[s]).contains_key(k) ==> record@[k] == sample_of(
                    all0[s],
                )[k],
        decreases n + 1 - i - (if done {
            1int
        } else {
            0int
        }),
    {
        let ghost pos = i as int;
        let ghost all1 = ready@.push(*current);
        let ghost r1 = record@;
        let ghost before = all1[pos];
        proof {
            assert(before == all0[pos]);
            assert(before.consistent(p2v@));
        }
        let at_ready: bool = i < ready.len();
        if at_ready {
            sample_pages(&mut ready[i], record, p2v);
        } else {
            sample_pages(current, record, p2v);
        }
        proof {
            let all2 = ready@.push(*current);
            let after = all2[pos];
            assert(all2 =~= all1.update(pos, after));
            let prev = all0.take(pos);
            let next = all0.take(pos + 1);
            let local = LocalFrameManager::is_local(before.frame_manager.pra());
            assert forall|k: (u64, u64)|
                #[trigger] in_samples(next, k) == (in_samples(prev, k) || (!local && sample_of(
                    before,
                ).contains_key(k))) by {
                if in_samples(next, k) {
                    let s = choose|s: int|
                        0 <= s < next.len() && !LocalFrameManager::is_local(
                            (#[trigger] next[s]).frame_manager.pra(),
                        ) && sample_of(next[s]).contains_key(k);
                    if s < pos {
                        assert(prev[s] == next[s]);
                    }
                }
                if in_samples(prev, k) {
                    let s = choose|s: int|
                        0 <= s < prev.len() && !LocalFrameManager::is_local(
                            (#[trigger] prev[s]).frame_manager.pra(),
                        ) && sample_of(prev[s]).contains_key(k);
                    assert(next[s] == prev[s]);
                }
                if !local && sample_of(before).contains_key(k) {
                    assert(next[pos] == before);
                }
            }
            assert forall|s: int, k: (u64, u64)|
                0 <= s < pos + 1 && !LocalFrameManager::is_local(all0[s].frame_manager.pra())
                    && #[trigger] sample_of(all0[s]).contains_key(k) implies record@[k]
                == sample_of(all0[s])[k] by {
                if local {
                    assert(record@ == r1);
                    assert(s < pos);
                    assert(r1[k] == sample_of(all0[s])[k]);
                } else {
                    assert(record@ == r1.union_prefer_right(sample_of(before)));
                    if s < pos {
                        assert(all0[s].spec_token() != all0[pos].spec_token());
                        assert(k.0 == all0[s].spec_token());
                        assert(!sample_of(before).contains_key(k));
                        assert(r1[k] == sample_of(all0[s])[k]);
                        assert(in_samples(prev, k)) by {
                            assert(prev[s] == all0[s]);
                        }
                        assert(r1.contains_key(k));
                        assert(record@[k] == r1[k]);
                    } else {
                        assert(all0[s] == before);
                        assert(record@[k] == sample_of(before)[k]);
                    }
                }
            }
            assert forall|s: int| 0 <= s <= n implies (#[trigger] all2[s]).consistent(p2v@) by {
                if s != pos {
                    assert(all2[s] == all1[s]);
                }
            }
        }
        if at_ready {
            i = i + 1;
        } else {
            done = true;
        }
    }
    proof {
        assert(all0.take(n + 1) =~= all0);
        assert forall|s: int| 0 <= s < n implies aged_or_same(
            old(ready)@[s],
            #[trigger] ready@[s],
        ) by {
            assert(ready@.push(*current)[s] == ready@[s]);
            assert(all0[s] == old(ready)@[s]);
        }
        assert(ready@.push(*current)[n] == *current);
        assert(all0[n] == *old(current));
        assert forall|s: int| 0 <= s < ready@.len() implies (#[trigger] ready@[s]).consistent(
            p2v@,
        ) by {
            assert(ready@.push(*current)[s] == ready@[s]);
        }
    }
}

/// Whether each of the spaces `after` is the space of `before` at its
/// place, aged or the same.
pub open spec fn all_aged(before: Seq<MemorySet>, after: Seq<MemorySet>) -> bool {
    &&& after.len() == before.len()
    &&& forall|s: int| 0 <= s < before.len() ==> aged_or_same(before[s], #[trigger] after[s])
}

/// Ageing keeps the invariant of the system and the bytes of every page.
#[verifier::rlimit(60)]
pub proof fn lemma_aged_system(
    before: Seq<MemorySet>,
    after: Seq<MemorySet>,
    p2v: Map<u64, u64>,
    alloc: StackFrameAllocator,
    swap: IdeManager,
)
    requires
        system_inv(before, p2v, alloc, swap),
        all_aged(before, after),
    ensures
        system_inv(after, p2v, alloc, swap),
        forall|s: int, w: u64|
            0 <= s < before.len() ==> #[trigger] after[s].content(swap, w) == before[s].content(
                swap,
                w,
            ),
        forall|s: int| 0 <= s < before.len() ==> (#[trigger] after[s]).spec_token() == before[s].spec_token(),
{
    assert forall|s: int| 0 <= s < before.len() implies {
        &&& (#[trigger] after[s]).inv(p2v, alloc)
        &&& after[s].swap_free(swap.dir())
        &&& after[s].spec_token() == before[s].spec_token()
        &&& forall|p: u64| #[trigger] after[s].owns(p) == before[s].owns(p)
        &&& forall|p: u64| #[trigger] after[s].backs(p, p2v) == before[s].backs(p, p2v)
        &&& forall|w: u64| #[trigger] after[s].content(swap, w) == before[s].content(swap, w)
    } by {
        assert(aged_or_same(before[s], after[s]));
        assert(before[s].inv(p2v, alloc) && before[s].swap_free(swap.dir()));
        if !LocalFrameManager::is_local(before[s].frame_manager.pra()) {
            let b = before[s];
            let a = after[s];
            assert forall|w: u64| b.page_table@.contains_key(w) implies (#[trigger] a.page_table@[w]).same_but_usage(
                b.page_table@[w],
            ) by {
                b.page_table@[w].lemma_usage_changes();
            }
            b.lemma_usage_update(a, p2v);
            assert(b.allocated_by(alloc));
            assert(b.swap_free(swap.dir()));
        }
    }
    assert(crate::mm::system::owners_disjoint(after)) by {
        assert forall|a: int, b: int, p: u64|
            0 <= a < after.len() && 0 <= b < after.len() && a != b && #[trigger] after[a].owns(
                p,
            ) implies !#[trigger] after[b].owns(p) by {
            assert(before[a].owns(p));
            assert(after[b].owns(p) == before[b].owns(p));
        }
    }
    assert(crate::mm::system::reverse_map_backed(after, p2v)) by {
        assert forall|p: u64| #[trigger] p2v.contains_key(p) implies exists|t: int|
            0 <= t < after.len() && (#[trigger] after[t]).backs(p, p2v) by {
            let t = choose|t: int| 0 <= t < before.len() && (#[trigger] before[t]).backs(p, p2v);
            assert(after[t].backs(p, p2v) == before[t].backs(p, p2v));
        }
    }    assert(crate::mm::system::swap_tokens_live(after, swap.dir())) by {
        assert forall|k: (u64, u64)| #[trigger] swap.dir().contains_key(k) implies exists|t: int|
            0 <= t < after.len() && (#[trigger] after[t]).spec_token() == k.0 by {
            let t = choose|t: int|
                0 <= t < before.len() && (#[trigger] before[t]).spec_token() == k.0;
            assert(after[t].spec_token() == before[t].spec_token());
        }
    }
}

/// The spaces of a system have different tokens.
pub proof fn lemma_system_tokens(
    spaces: Seq<MemorySet>,
    p2v: Map<u64, u64>,
    alloc: StackFrameAllocator,
    swap: IdeManager,
)
    requires
        system_inv(spaces, p2v, alloc, swap),
    ensures
        tokens_distinct(spaces),
        forall|s: int| 0 <= s < spaces.len() ==> (#[trigger] spaces[s]).consistent(p2v),
{
    assert forall|s: int, t: int|
        0 <= s < spaces.len() && 0 <= t < spaces.len() && s != t implies (#[trigger] spaces[s]).spec_token()
        != (#[trigger] spaces[t]).spec_token() by {
        crate::mm::system::lemma_tokens_differ(spaces, p2v, alloc, swap, s, t);
    }
    assert forall|s: int| 0 <= s < spaces.len() implies (#[trigger] spaces[s]).consistent(p2v) by {
        assert(spaces[s].inv(p2v, alloc));
    }
}

/// The state of the global policies: the time of the last fault, for
/// page-fault frequency, and the place of the next sample in the
/// history, for the working set.
pub struct GlobalFrameManager {
    used_pra: PRA,
    t_last: u64,
    idx: usize,
}

impl GlobalFrameManager {
    /// The policy in use.
    pub closed spec fn pra(self) -> PRA {
        self.used_pra
    }

    /// The time of the last fault that page-fault frequency saw, or 0
    /// before the first.
    pub closed spec fn last_fault(self) -> u64 {
        self.t_last
    }

    /// The place in the history that the next sample takes.
    pub closed spec fn index(self) -> int {
        self.idx as int
    }

    /// The next sample has a place in the history.
    pub closed spec fn wf(self) -> bool {
        self.idx < WORKINGSET_DELTA_NUM
    }

    pub proof fn lemma_index(self)
        requires
            self.wf(),
        ensures
            0 <= self.index() < WORKINGSET_DELTA_NUM,
    {
    }

    /// A manager for policy `pra` that has seen no fault and no sample.
    pub fn new(pra: PRA) -> (r: GlobalFrameManager)
        ensures
            r.wf(),
            r.pra() == pra,
            r.last_fault() == 0,
            r.index() == 0,
    {
        GlobalFrameManager { used_pra: pra, t_last: 0, idx: 0 }
    }

    /// The policy in use.
    pub fn used_pra(&self) -> (r: PRA)
        ensures
            r == self.pra(),
    {
        self.used_pra
    }

    /// The time of the last fault that page-fault frequency saw.
    pub fn t_last(&self) -> (r: u64)
        ensures
            r == self.last_fault(),
    {
        self.t_last
    }

    /// Page-fault frequency, at a fault at time `now`. The first fault only
    /// sets the clock. A fault more than `PFF_T` after the last means that
    /// faults are rare: the resident sets shrink, and every registered page
    /// that was not accessed is evicted. A fault sooner than that means
    /// that the resident sets are too small: nothing is evicted, and the
    /// accessed bits of the registered pages are cleared.
    #[verifier::rlimit(60)]
    pub fn pff_work(
        &mut self,
        ready: &mut Vec<MemorySet>,
        current: &mut MemorySet,
        now: u64,
        swap: &mut IdeManager,
        p2v: &mut ReverseMap,
        allocator: &mut StackFrameAllocator,
    ) -> (r: Result<(), FatalFault>)
        requires
            system_inv(old(ready)@.push(*old(current)), old(p2v)@, *old(allocator), *old(swap)),
            old(self).last_fault() <= now,
        ensures
            final(self).pra() == old(self).pra(),
            final(self).index() == old(self).index(),
            old(self).wf() ==> final(self).wf(),
            r is Err == (old(self).last_fault() != 0 && now - old(self).last_fault() > PFF_T
                && idle_total(
                old(ready)@.push(*old(current)),
                Seq::<BTreeMap<(u64, u64), bool>>::empty(),
                old(p2v)@,
            ) > old(swap).room()),
            r is Err ==> r == Err::<(), FatalFault>(FatalFault::SwapFull),
            r is Ok ==> final(self).last_fault() == now && system_inv(
                final(ready)@.push(*final(current)),
                final(p2v)@,
                *final(allocator),
                *final(swap),
            ) && final(allocator).free().len() == old(allocator).free().len() + old(
                swap,
            ).room() - final(swap).room(),
            r is Ok && old(self).last_fault() == 0 ==> {
                &&& final(ready)@ == old(ready)@
                &&& *final(current) == *old(current)
                &&& *final(swap) == *old(swap)
                &&& *final(p2v) == *old(p2v)
                &&& *final(allocator) == *old(allocator)
            },
            r is Ok && old(self).last_fault() != 0 && now - old(self).last_fault() > PFF_T
                ==> all_trimmed(
                old(ready)@.push(*old(current)),
                final(ready)@.push(*final(current)),
                Seq::<BTreeMap<(u64, u64), bool>>::empty(),
                old(p2v)@,
                *old(swap),
                *final(swap),
            ) && idle_released(
                old(ready)@.push(*old(current)),
                Seq::<BTreeMap<(u64, u64), bool>>::empty(),
                old(p2v)@,
                final(p2v)@,
                *old(allocator),
                *final(allocator),
                (old(ready)@.len() + 1) as int,
            ),
            r is Ok && old(self).last_fault() != 0 && now - old(self).last_fault() <= PFF_T ==> {
                &&& all_aged(old(ready)@.push(*old(current)), final(ready)@.push(*final(current)))
                &&& *final(swap) == *old(swap)
                &&& *final(p2v) == *old(p2v)
                &&& *final(allocator) == *old(allocator)
            },
    {
        if self.t_last == 0 {
            self.t_last = now;
            return Ok(());
        }
        let t_last: u64 = self.t_last;
        if now - t_last > PFF_T {
            let none: Vec<BTreeMap<(u64, u64), bool>> = Vec::new();
            assert(none@ =~= Seq::<BTreeMap<(u64, u64), bool>>::empty());
            match evict_idle_all(ready, current, &none, swap, p2v, allocator) {
                Ok(_) => {},
                Err(e) => {
                    return Err(e);
                },
            }
        } else {
            let ghost all0 = ready@.push(*current);
            proof {
                lemma_system_tokens(all0, p2v@, *allocator, *swap);
                assert forall|s: int| 0 <= s < ready@.len() implies (#[trigger] ready@[s]).consistent(
                    p2v@,
                ) by {
                    assert(all0[s] == ready@[s]);
                }
                assert(all0[ready@.len() as int] == *current);
            }
            let mut scratch: BTreeMap<(u64, u64), bool> = BTreeMap::new();
            sample_all(ready, current, &mut scratch, p2v);
            proof {
                let all1 = ready@.push(*current);
                assert forall|s: int| 0 <= s < all0.len() implies aged_or_same(
                    all0[s],
                    #[trigger] all1[s],
                ) by {
                    if s < ready@.len() {
                        assert(all1[s] == ready@[s]);
                        assert(all0[s] == old(ready)@[s]);
                    }
                }
                lemma_aged_system(all0, all1, p2v@, *allocator, *swap);
            }
        }
        self.t_last = now;
        Ok(())
    }

    /// The sampling tick of the working-set policy: the oldest sample of
    /// the history gives way to a new one, which records for every
    /// registered page of every space whether it was accessed since the
    /// last tick; the accessed bits of those pages are cleared. Under
    /// another policy nothing happens.
    #[verifier::rlimit(60)]
    pub fn check_workingset(
        &mut self,
        ready: &mut Vec<MemorySet>,
        current: &mut MemorySet,
        recorder: &mut Vec<BTreeMap<(u64, u64), bool>>,
        p2v: &ReverseMap,
    )
        requires
            old(self).wf(),
            old(recorder)@.len() == WORKINGSET_DELTA_NUM,
            forall|s: int| 0 <= s < old(ready)@.len() ==> (#[trigger] old(ready)@[s]).consistent(p2v@),
            old(current).consistent(p2v@),
            tokens_distinct(old(ready)@.push(*old(current))),
        ensures
            final(self).wf(),
            final(self).pra() == old(self).pra(),
            final(self).last_fault() == old(self).last_fault(),
            final(recorder)@.len() == WORKINGSET_DELTA_NUM,
            final(ready)@.len() == old(ready)@.len(),
            forall|s: int| 0 <= s < final(ready)@.len() ==> (#[trigger] final(ready)@[s]).consistent(p2v@),
            final(current).consistent(p2v@),
            old(self).pra() != PRA::WorkingSet ==> {
                &&& final(self).index() == old(self).index()
                &&& final(recorder)@ == old(recorder)@
                &&& final(ready)@ == old(ready)@
                &&& *final(current) == *old(current)
            },
            old(self).pra() == PRA::WorkingSet ==> {
                let all0 = old(ready)@.push(*old(current));
                let at = old(self).index();
                &&& final(self).index() == (old(self).index() + 1) % (WORKINGSET_DELTA_NUM as int)
                &&& all_aged(all0, final(ready)@.push(*final(current)))
                &&& forall|k: int|
                    0 <= k < WORKINGSET_DELTA_NUM && k != at ==> #[trigger] final(recorder)@[k] == old(
                        recorder,
                    )@[k]
                &&& forall|k: (u64, u64)|
                    #[trigger] final(recorder)@[at]@.contains_key(k) == in_samples(all0, k)
                &&& forall|s: int, k: (u64, u64)|
                    0 <= s < all0.len() && !LocalFrameManager::is_local(
                        all0[s].frame_manager.pra(),
                    ) && #[trigger] sample_of(all0[s]).contains_key(k) ==> final(recorder)@[at]@[k]
                        == sample_of(all0[s])[k]
            },
    {
        match self.used_pra {
            PRA::WorkingSet => {
                let ghost all0 = ready@.push(*current);
                recorder[self.idx].clear();
                sample_all(ready, current, &mut recorder[self.idx], p2v);
                self.idx = (self.idx + 1) % WORKINGSET_DELTA_NUM;
                proof {
                    let all1 = ready@.push(*current);
                    assert forall|s: int| 0 <= s < all0.len() implies aged_or_same(
                        all0[s],
                        #[trigger] all1[s],
                    ) by {
                        if s < ready@.len() {
                            assert(all1[s] == ready@[s]);
                            assert(all0[s] == old(ready)@[s]);
                        }
                    }
                }
            },
            _ => {},
        }
    }

    /// The working-set policy, at a fault: every registered page that was
    /// not accessed, neither since the last sample nor at any sample of the
    /// history, is evicted.
    pub fn workingset_work(
        &mut self,
        ready: &mut Vec<MemorySet>,
        current: &mut MemorySet,
        recorder: &Vec<BTreeMap<(u64, u64), bool>>,
        swap: &mut IdeManager,
        p2v: &mut ReverseMap,
        allocator: &mut StackFrameAllocator,
    ) -> (r: Result<(), FatalFault>)
        requires
            system_inv(old(ready)@.push(*old(current)), old(p2v)@, *old(allocator), *old(swap)),
        ensures
            *final(self) == *old(self),
            r is Err == (idle_total(old(ready)@.push(*old(current)), recorder@, old(p2v)@) > old(
                swap,
            ).room()),
            r is Err ==> r == Err::<(), FatalFault>(FatalFault::SwapFull),
            r is Ok ==> {
                &&& system_inv(
                    final(ready)@.push(*final(current)),
                    final(p2v)@,
                    *final(allocator),
                    *final(swap),
                )
                &&& all_trimmed(
                    old(ready)@.push(*old(current)),
                    final(ready)@.push(*final(current)),
                    recorder@,
                    old(p2v)@,
                    *old(swap),
                    *final(swap),
                ) && idle_released(
                    old(ready)@.push(*old(current)),
                    recorder@,
                    old(p2v)@,
                    final(p2v)@,
                    *old(allocator),
                    *final(allocator),
                    (old(ready)@.len() + 1) as int,
                )
                &&& final(allocator).free().len() == old(allocator).free().len() + old(
                    swap,
                ).room() - final(swap).room()
            },
    {
        evict_idle_all(ready, current, recorder, swap, p2v, allocator)
    }

    /// What the global policy in use does at a fault at time `now`, before
    /// a frame is taken: see `pff_work` and `workingset_work`. Under
    /// another policy nothing happens.
    pub fn work(
        &mut self,
        ready: &mut Vec<MemorySet>,
        current: &mut MemorySet,
        recorder: &Vec<BTreeMap<(u64, u64), bool>>,
        now: u64,
        swap: &mut IdeManager,
        p2v: &mut ReverseMap,
        allocator: &mut StackFrameAllocator,
    ) -> (r: Result<(), FatalFault>)
        requires
            system_inv(old(ready)@.push(*old(current)), old(p2v)@, *old(allocator), *old(swap)),
            old(self).pra() == PRA::PageFaultFrequency ==> old(self).last_fault() <= now,
        ensures
            final(self).pra() == old(self).pra(),
            final(self).index() == old(self).index(),
            old(self).wf() ==> final(self).wf(),
            r is Err ==> r == Err::<(), FatalFault>(FatalFault::SwapFull),
            r is Ok ==> system_inv(
                final(ready)@.push(*final(current)),
                final(p2v)@,
                *final(allocator),
                *final(swap),
            ) && final(allocator).free().len() == old(allocator).free().len() + old(
                swap,
            ).room() - final(swap).room(),
            old(self).pra() == PRA::WorkingSet ==> {
                &&& final(self).last_fault() == old(self).last_fault()
                &&& r is Err == (idle_total(old(ready)@.push(*old(current)), recorder@, old(p2v)@)
                    > old(swap).room())
                &&& r is Ok ==> all_trimmed(
                    old(ready)@.push(*old(current)),
                    final(ready)@.push(*final(current)),
                    recorder@,
                    old(p2v)@,
                    *old(swap),
                    *final(swap),
                ) && idle_released(
                    old(ready)@.push(*old(current)),
                    recorder@,
                    old(p2v)@,
                    final(p2v)@,
                    *old(allocator),
                    *final(allocator),
                    (old(ready)@.len() + 1) as int,
                )
            },
            old(self).pra() == PRA::PageFaultFrequency ==> {
                &&& r is Err == (old(self).last_fault() != 0 && now - old(self).last_fault()
                    > PFF_T && idle_total(
                    old(ready)@.push(*old(current)),
                    Seq::<BTreeMap<(u64, u64), bool>>::empty(),
                    old(p2v)@,
                ) > old(swap).room())
                &&& r is Ok ==> final(self).last_fault() == now
                &&& r is Ok && old(self).last_fault() == 0 ==> {
                    &&& final(ready)@ == old(ready)@
                    &&& *final(current) == *old(current)
                    &&& *final(swap) == *old(swap)
                    &&& *final(p2v) == *old(p2v)
                    &&& *final(allocator) == *old(allocator)
                }
                &&& r is Ok && old(self).last_fault() != 0 && now - old(self).last_fault() > PFF_T
                    ==> all_trimmed(
                    old(ready)@.push(*old(current)),
                    final(ready)@.push(*final(current)),
                    Seq::<BTreeMap<(u64, u64), bool>>::empty(),
                    old(p2v)@,
                    *old(swap),
                    *final(swap),
                ) && idle_released(
                    old(ready)@.push(*old(current)),
                    Seq::<BTreeMap<(u64, u64), bool>>::empty(),
                    old(p2v)@,
                    final(p2v)@,
                    *old(allocator),
                    *final(allocator),
                    (old(ready)@.len() + 1) as int,
                )
                &&& r is Ok && old(self).last_fault() != 0 && now - old(self).last_fault()
                    <= PFF_T ==> {
                    &&& all_aged(
                        old(ready)@.push(*old(current)),
                        final(ready)@.push(*final(current)),
                    )
                    &&& *final(swap) == *old(swap)
                    &&& *final(p2v) == *old(p2v)
                    &&& *final(allocator) == *old(allocator)
                }
            },
            old(self).pra() != PRA::WorkingSet && old(self).pra() != PRA::PageFaultFrequency ==> {
                &&& r is Ok
                &&& *final(self) == *old(self)
                &&& final(ready)@ == old(ready)@
                &&& *final(current) == *old(current)
                &&& *final(swap) == *old(swap)
                &&& *final(p2v) == *old(p2v)
                &&& *final(allocator) == *old(allocator)
            },
    {
        match self.used_pra {
            PRA::PageFaultFrequency => self.pff_work(ready, current, now, swap, p2v, allocator),
            PRA::WorkingSet => self.workingset_work(ready, current, recorder, swap, p2v, allocator),
            _ => Ok(()),
        }
    }
}

/// The timer tick of `kernel`: see `Kernel::check_workingset`.
pub fn check_workingset(kernel: &mut crate::mm::vmm::Kernel)
    requires
        old(kernel).wf(),
    ensures
        final(kernel).wf(),
        final(kernel).pra() == old(kernel).pra(),
        old(kernel).pra() != PRA::WorkingSet ==> *final(kernel) == *old(kernel),
        old(kernel).pra() == PRA::WorkingSet ==> {
            &&& final(kernel).gfm.index() == (old(kernel).gfm.index() + 1) % (
            WORKINGSET_DELTA_NUM as int)
            &&& all_aged(old(kernel).spaces(), final(kernel).spaces())
            &&& forall|k: (u64, u64)|
                #[trigger] final(kernel).pte_recorder@[old(kernel).gfm.index()]@.contains_key(k)
                    == in_samples(old(kernel).spaces(), k)
            &&& forall|s: int, k: (u64, u64)|
                0 <= s < old(kernel).spaces().len() && #[trigger] sample_of(
                    old(kernel).spaces()[s],
                ).contains_key(k) ==> final(kernel).pte_recorder@[old(kernel).gfm.index()]@[k]
                    == sample_of(old(kernel).spaces()[s])[k]
        },
{
    kernel.check_workingset();
}

} // verus!

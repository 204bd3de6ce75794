//! The physical frame allocator: a cursor over the frames that were never
//! handed out, and a stack of the frames that came back.

use vstd::prelude::*;
use crate::mm::address::PhysPageNum;

verus! {

/// The content of a frame that was just handed out: 4096 zero bytes.
pub open spec fn zero_page() -> Seq<u8> {
    Seq::new(4096, |i: int| 0u8)
}

/// Ownership of one physical frame, together with the bytes it holds.
pub struct FrameTracker {
    pub ppn: PhysPageNum,
    pub data: Vec<u8>,
}

impl FrameTracker {
    /// A frame holds exactly one page of bytes.
    pub open spec fn wf(self) -> bool {
        self.data@.len() == 4096
    }

    /// Takes ownership of frame `ppn` and clears it.
    pub fn new(ppn: PhysPageNum) -> (r: FrameTracker)
        ensures
            r.ppn == ppn,
            r.data@ == zero_page(),
            r.wf(),
    {
        let mut data: Vec<u8> = Vec::new();
        let mut i: usize = 0;
        while i < 4096
            invariant
                i <= 4096,
                data@.len() == i,
                forall|j: int| 0 <= j < i ==> data@[j] == 0u8,
            decreases 4096 - i,
        {
            data.push(0u8);
            i = i + 1;
        }
        assert(data@ =~= zero_page());
        FrameTracker { ppn, data }
    }
}

/// Hands out the frames of `[current, end)` one by one, preferring those
/// that were given back.
pub struct StackFrameAllocator {
    current: u64,
    end: u64,
    recycled: Vec<u64>,
}

impl StackFrameAllocator {
    /// The free frames, in the order in which `allocate` will hand them out:
    /// the returned frames, last returned first, then those never used.
    pub closed spec fn free(self) -> Seq<u64> {
        self.recycled@.reverse() + Seq::new(
            (self.end - self.current) as nat,
            |i: int| (self.current + i) as u64,
        )
    }

    /// Whether frame `ppn` is handed out at present.
    pub closed spec fn allocated(self, ppn: u64) -> bool {
        ppn < self.current && !self.recycled@.contains(ppn)
    }

    /// No frame is free twice, and a returned frame was handed out before.
    pub closed spec fn wf(self) -> bool {
        &&& self.current <= self.end
        &&& self.recycled@.no_duplicates()
        &&& forall|i: int| 0 <= i < self.recycled@.len() ==> self.recycled@[i] < self.current
    }

    /// A free frame is not handed out, and the free list names no frame twice.
    pub proof fn lemma_free_not_allocated(self)
        requires
            self.wf(),
        ensures
            self.free().no_duplicates(),
            forall|p: u64| self.free().contains(p) ==> !self.allocated(p),
            forall|p: u64| !self.free().contains(p) && p < self.limit() ==> self.allocated(p),
    {
        let rev = self.recycled@.reverse();
        let fresh = Seq::new((self.end - self.current) as nat, |i: int| (self.current + i) as u64);
        assert forall|i: int, j: int|
            0 <= i < self.free().len() && 0 <= j < self.free().len() && i != j implies self.free()[i]
            != self.free()[j] by {
            if i < rev.len() {
                assert(self.free()[i] == self.recycled@[rev.len() - 1 - i]);
            }
            if j < rev.len() {
                assert(self.free()[j] == self.recycled@[rev.len() - 1 - j]);
            }
        }
        assert forall|p: u64| self.free().contains(p) implies !self.allocated(p) by {
            let i = choose|i: int| 0 <= i < self.free().len() && self.free()[i] == p;
            if i < rev.len() {
                assert(self.recycled@[rev.len() - 1 - i] == p);
            }
        }
        assert forall|p: u64| !self.free().contains(p) && p < self.limit() implies self.allocated(
            p,
        ) by {
            if p >= self.current {
                assert(self.free()[rev.len() + (p - self.current)] == p);
            }
            if self.recycled@.contains(p) {
                let i = choose|i: int| 0 <= i < self.recycled@.len() && self.recycled@[i] == p;
                assert(self.free()[rev.len() - 1 - i] == p);
            }
        }
    }

    /// A frame that is handed out lies below the limit.
    pub proof fn lemma_allocated_below_limit(self, ppn: u64)
        requires
            self.wf(),
            self.allocated(ppn),
        ensures
            ppn < self.limit(),
    {
    }

    /// Whether this allocator is `before` after it handed out the first
    /// `k` of its free frames.
    pub open spec fn after_taking(self, before: StackFrameAllocator, k: int) -> bool {
        &&& self.wf()
        &&& self.limit() == before.limit()
        &&& 0 <= k <= before.free().len()
        &&& self.free() == before.free().skip(k)
        &&& forall|p: u64|
            self.allocated(p) == (before.allocated(p) || before.free().take(k).contains(p))
    }

    /// Whether this allocator is `before` after it took frame `ppn` back.
    pub open spec fn after_giving(self, before: StackFrameAllocator, ppn: u64) -> bool {
        &&& self.wf()
        &&& self.limit() == before.limit()
        &&& self.free() == seq![ppn] + before.free()
        &&& forall|p: u64| self.allocated(p) == (before.allocated(p) && p != ppn)
    }

    /// The frame after the last that this allocator manages.
    pub closed spec fn limit(self) -> u64 {
        self.end
    }

    /// An allocator that manages no frame.
    pub fn new() -> (r: StackFrameAllocator)
        ensures
            r.wf(),
            r.free() == Seq::<u64>::empty(),
            r.limit() == 0,
            forall|p: u64| !r.allocated(p),
    {
        let r = StackFrameAllocator { current: 0, end: 0, recycled: Vec::new() };
        assert(r.free() =~= Seq::<u64>::empty());
        r
    }

    /// Takes over the frames `[l, r)`, all of them free.
    pub fn init(&mut self, l: PhysPageNum, r: PhysPageNum)
        requires
            l.0 <= r.0,
        ensures
            final(self).wf(),
            final(self).free() == Seq::new((r.0 - l.0) as nat, |i: int| (l.0 + i) as u64),
            final(self).limit() == r.0,
            forall|p: u64| final(self).allocated(p) == (p < l.0),
    {
        self.current = l.0;
        self.end = r.0;
        self.recycled = Vec::new();
        assert(self.free() =~= Seq::new((r.0 - l.0) as nat, |i: int| (l.0 + i) as u64));
    }

    /// Hands out the first free frame, if there is one.
    pub fn allocate(&mut self) -> (r: Option<PhysPageNum>)
        requires
            old(self).wf(),
        ensures
            final(self).wf(),
            final(self).limit() == old(self).limit(),
            old(self).free().len() == 0 ==> {
                &&& r is None
                &&& final(self).free() == old(self).free()
                &&& forall|p: u64| final(self).allocated(p) == old(self).allocated(p)
            },
            old(self).free().len() > 0 ==> {
                &&& r == Some(PhysPageNum(old(self).free()[0]))
                &&& final(self).free() == old(self).free().drop_first()
                &&& !old(self).allocated(old(self).free()[0])
                &&& forall|p: u64|
                    final(self).allocated(p) == (old(self).allocated(p) || p == old(self).free()[0])
            },
    {
        let ghost before = *self;
        if let Some(ppn) = self.recycled.pop() {
            proof {
                let n = before.recycled@.len() as int;
                assert(before.recycled@.reverse()[0] == ppn);
                assert(self.recycled@ =~= before.recycled@.take(n - 1));
                assert(self.free() =~= before.free().drop_first());
                assert forall|p: u64|
                    self.allocated(p) == (before.allocated(p) || p == ppn) by {
                    if p != ppn && before.recycled@.contains(p) {
                        let i = choose|i: int| 0 <= i < n && before.recycled@[i] == p;
                        assert(self.recycled@[i] == p);
                    }
                    if self.recycled@.contains(p) {
                        let i = choose|i: int| 0 <= i < n - 1 && self.recycled@[i] == p;
                        assert(before.recycled@[i] == p);
                    }
                    assert(before.recycled@[n - 1] == ppn);
                }
                assert(before.recycled@[n - 1] == ppn);
            }
            Some(PhysPageNum(ppn))
        } else if self.current == self.end {
            proof {
                assert(self.recycled@ =~= before.recycled@);
                assert(self.free() =~= before.free());
            }
            None
        } else {
            let ppn: u64 = self.current;
            self.current = self.current + 1;
            proof {
                assert(before.recycled@ =~= Seq::<u64>::empty());
                assert(before.free()[0] == ppn);
                assert(self.free() =~= before.free().drop_first());
            }
            Some(PhysPageNum(ppn))
        }
    }

    /// Takes frame `ppn` back. It becomes the next to be handed out.
    pub fn dealloc(&mut self, ppn: PhysPageNum)
        requires
            old(self).wf(),
            old(self).allocated(ppn.0),
        ensures
            final(self).wf(),
            final(self).limit() == old(self).limit(),
            final(self).free() == seq![ppn.0] + old(self).free(),
            forall|p: u64| final(self).allocated(p) == (old(self).allocated(p) && p != ppn.0),
    {
        let ghost before = *self;
        self.recycled.push(ppn.0);
        proof {
            assert(self.recycled@.reverse() =~= seq![ppn.0] + before.recycled@.reverse());
            assert(self.free() =~= seq![ppn.0] + before.free());
            assert forall|p: u64| self.allocated(p) == (before.allocated(p) && p != ppn.0) by {
                if before.recycled@.contains(p) {
                    let i = choose|i: int|
                        0 <= i < before.recycled@.len() && before.recycled@[i] == p;
                    assert(self.recycled@[i] == p);
                }
                if self.recycled@.contains(p) && p != ppn.0 {
                    let i = choose|i: int| 0 <= i < self.recycled@.len() && self.recycled@[i] == p;
                    assert(before.recycled@[i] == p);
                }
                assert(self.recycled@[before.recycled@.len() as int] == ppn.0);
            }
        }
    }

    /// Whether at least `n` frames are free.
    pub fn has_free(&self, n: usize) -> (r: bool)
        requires
            self.wf(),
        ensures
            r == (self.free().len() >= n),
    {
        if self.recycled.len() >= n {
            true
        } else {
            let rest: usize = n - self.recycled.len();
            (self.end - self.current) >= rest as u64
        }
    }
}

/// Hands out a free frame, cleared, if there is one.
pub fn frame_alloc(allocator: &mut StackFrameAllocator) -> (r: Option<FrameTracker>)
    requires
        old(allocator).wf(),
    ensures
        final(allocator).wf(),
        final(allocator).limit() == old(allocator).limit(),
        old(allocator).free().len() == 0 ==> {
            &&& r is None
            &&& final(allocator).free() == old(allocator).free()
            &&& forall|p: u64| final(allocator).allocated(p) == old(allocator).allocated(p)
        },
        old(allocator).free().len() > 0 ==> {
            &&& r is Some
            &&& r->0.ppn.0 == old(allocator).free()[0]
            &&& r->0.data@ == zero_page()
            &&& final(allocator).free() == old(allocator).free().drop_first()
            &&& !old(allocator).allocated(old(allocator).free()[0])
            &&& forall|p: u64|
                final(allocator).allocated(p) == (old(allocator).allocated(p) || p == old(
                    allocator,
                ).free()[0])
        },
{
    match allocator.allocate() {
        Some(ppn) => Some(FrameTracker::new(ppn)),
        None => None,
    }
}

/// Gives frame `ppn` back to the allocator.
pub fn frame_dealloc(allocator: &mut StackFrameAllocator, ppn: PhysPageNum)
    requires
        old(allocator).wf(),
        old(allocator).allocated(ppn.0),
    ensures
        final(allocator).wf(),
        final(allocator).limit() == old(allocator).limit(),
        final(allocator).free() == seq![ppn.0] + old(allocator).free(),
        forall|p: u64| final(allocator).allocated(p) == (old(allocator).allocated(p) && p != ppn.0),
{
    allocator.dealloc(ppn);
}

/// Whether a frame is free.
pub fn frame_check(allocator: &StackFrameAllocator) -> (r: bool)
    requires
        allocator.wf(),
    ensures
        r == (allocator.free().len() > 0),
{
    allocator.has_free(1)
}

} // verus!

//! The Sv39 page table: entries, flags, and the three-level walk.
//!
//! A table owns its interior nodes as a tree, each node tagged with the
//! frame that holds it. Its view is the map from virtual page to the valid
//! leaf entry that translates it.

use vstd::prelude::*;
use crate::mm::address::{PhysPageNum, VirtPageNum};
use crate::mm::frame_allocator::StackFrameAllocator;

verus! {

/// The entry is in use.
pub const PTE_V: u8 = 0x01;

/// The page may be read.
pub const PTE_R: u8 = 0x02;

/// The page may be written.
pub const PTE_W: u8 = 0x04;

/// The page may be executed.
pub const PTE_X: u8 = 0x08;

/// The page belongs to user mode.
pub const PTE_U: u8 = 0x10;

/// The mapping is global.
pub const PTE_G: u8 = 0x20;

/// The page was accessed since the bit was last cleared.
pub const PTE_A: u8 = 0x40;

/// The page was written since the bit was last cleared.
pub const PTE_D: u8 = 0x80;

/// The eight flag bits of a page-table entry.
#[derive(Copy, Clone, PartialEq, Eq, Structural, Debug)]
pub struct PTEFlags {
    pub bits: u8,
}

impl PTEFlags {
    /// No flag set.
    pub fn empty() -> (r: PTEFlags)
        ensures
            r.bits == 0,
    {
        PTEFlags { bits: 0 }
    }

    /// The flags with the given bits. Every bit is a flag, so this always
    /// succeeds.
    pub fn from_bits(bits: u8) -> (r: Option<PTEFlags>)
        ensures
            r == Some(PTEFlags { bits }),
    {
        Some(PTEFlags { bits })
    }

    pub fn bits(&self) -> (r: u8)
        ensures
            r == self.bits,
    {
        self.bits
    }

    /// Whether every flag of `mask` is set.
    pub fn contains(&self, mask: u8) -> (r: bool)
        ensures
            r == (self.bits & mask == mask),
    {
        self.bits & mask == mask
    }

    /// These flags together with those of `mask`.
    pub fn union(&self, mask: u8) -> (r: PTEFlags)
        ensures
            r.bits == self.bits | mask,
    {
        PTEFlags { bits: self.bits | mask }
    }
}

/// One page-table entry: ten reserved bits, a 44-bit frame number, two
/// software bits and the eight flags `D A G U X W R V`, highest first.
#[derive(Copy, Clone, PartialEq, Eq, Structural, Debug)]
pub struct PageTableEntry {
    pub bits: u64,
}

impl PageTableEntry {
    /// The entry that names frame `ppn` (truncated to 44 bits) with `flags`.
    pub open spec fn spec_new(ppn: u64, flags: u8) -> PageTableEntry {
        PageTableEntry { bits: ((ppn & 0xfff_ffff_ffff) << 10) | (flags as u64) }
    }

    pub open spec fn spec_ppn(self) -> u64 {
        (self.bits >> 10) & 0xfff_ffff_ffff
    }

    pub open spec fn spec_flags(self) -> u8 {
        (self.bits & 0xff) as u8
    }

    pub open spec fn spec_is_valid(self) -> bool {
        self.bits & 0x01 != 0
    }

    pub open spec fn spec_readable(self) -> bool {
        self.bits & 0x02 != 0
    }

    pub open spec fn spec_writable(self) -> bool {
        self.bits & 0x04 != 0
    }

    pub open spec fn spec_executable(self) -> bool {
        self.bits & 0x08 != 0
    }

    pub open spec fn spec_accessed(self) -> bool {
        self.bits & 0x40 != 0
    }

    pub open spec fn spec_dirty(self) -> bool {
        self.bits & 0x80 != 0
    }

    /// This entry with the accessed bit cleared.
    pub open spec fn without_accessed(self) -> PageTableEntry {
        PageTableEntry { bits: self.bits & !0x40u64 }
    }

    /// This entry with the dirty bit cleared.
    pub open spec fn without_dirty(self) -> PageTableEntry {
        PageTableEntry { bits: self.bits & !0x80u64 }
    }

    /// This entry with the accessed bit set, and the dirty bit too if
    /// `write`: what the MMU leaves behind after an access.
    pub open spec fn touched(self, write: bool) -> PageTableEntry {
        PageTableEntry { bits: self.bits | (if write { 0xc0u64 } else { 0x40u64 }) }
    }

    /// Whether this entry and `other` differ at most in the accessed and
    /// the dirty bit.
    pub open spec fn same_but_usage(self, other: PageTableEntry) -> bool {
        self.bits & !0xc0u64 == other.bits & !0xc0u64
    }

    /// Entries that differ at most in the accessed and the dirty bit name
    /// the same frame with the same permissions.
    pub proof fn lemma_same_but_usage(self, other: PageTableEntry)
        requires
            self.same_but_usage(other),
        ensures
            self.spec_ppn() == other.spec_ppn(),
            self.spec_is_valid() == other.spec_is_valid(),
            self.spec_readable() == other.spec_readable(),
            self.spec_writable() == other.spec_writable(),
            self.spec_executable() == other.spec_executable(),
            self.spec_flags() & 0x3f == other.spec_flags() & 0x3f,
    {
        let b = self.bits;
        let c = other.bits;
        assert(b & !0xc0u64 == c & !0xc0u64 ==> {
            &&& ((c & 0xff) as u8) & 0x3f == ((b & 0xff) as u8) & 0x3f
            &&& (c >> 10) & 0xfff_ffff_ffff == (b >> 10) & 0xfff_ffff_ffff
            &&& (c & 0x01 != 0) == (b & 0x01 != 0)
            &&& (c & 0x02 != 0) == (b & 0x02 != 0)
            &&& (c & 0x04 != 0) == (b & 0x04 != 0)
            &&& (c & 0x08 != 0) == (b & 0x08 != 0)
        }) by (bit_vector);
    }

    /// Clearing or setting the accessed and the dirty bit changes nothing
    /// else.
    pub proof fn lemma_usage_changes(self)
        ensures
            self.without_accessed().same_but_usage(self),
            self.without_dirty().same_but_usage(self),
            self.without_accessed().without_dirty().same_but_usage(self),
            self.touched(true).same_but_usage(self),
            self.touched(false).same_but_usage(self),
    {
        let b = self.bits;
        assert({
            &&& (b & !0x40u64) & !0xc0u64 == b & !0xc0u64
            &&& (b & !0x80u64) & !0xc0u64 == b & !0xc0u64
            &&& ((b & !0x40u64) & !0x80u64) & !0xc0u64 == b & !0xc0u64
            &&& (b | 0xc0u64) & !0xc0u64 == b & !0xc0u64
            &&& (b | 0x40u64) & !0xc0u64 == b & !0xc0u64
        }) by (bit_vector);
    }

    /// What an entry made by `spec_new` holds.
    pub proof fn lemma_new(ppn: u64, flags: u8)
        ensures
            Self::spec_new(ppn, flags).spec_ppn() == ppn % 0x1000_0000_0000,
            Self::spec_new(ppn, flags).spec_flags() == flags,
            Self::spec_new(ppn, flags).spec_is_valid() == (flags & 0x01 != 0),
            Self::spec_new(ppn, flags).spec_readable() == (flags & 0x02 != 0),
            Self::spec_new(ppn, flags).spec_writable() == (flags & 0x04 != 0),
            Self::spec_new(ppn, flags).spec_executable() == (flags & 0x08 != 0),
            Self::spec_new(ppn, flags).spec_accessed() == (flags & 0x40 != 0),
            Self::spec_new(ppn, flags).spec_dirty() == (flags & 0x80 != 0),
    {
        assert(((((ppn & 0xfff_ffff_ffff) << 10) | (flags as u64)) >> 10) & 0xfff_ffff_ffff == ppn
            % 0x1000_0000_0000) by (bit_vector);
        assert(((((ppn & 0xfff_ffff_ffff) << 10) | (flags as u64)) & 0xff) as u8 == flags)
            by (bit_vector);
        assert({
            let b = ((ppn & 0xfff_ffff_ffff) << 10) | (flags as u64);
            &&& (b & 0x01 != 0) == (flags & 0x01 != 0)
            &&& (b & 0x02 != 0) == (flags & 0x02 != 0)
            &&& (b & 0x04 != 0) == (flags & 0x04 != 0)
            &&& (b & 0x08 != 0) == (flags & 0x08 != 0)
            &&& (b & 0x40 != 0) == (flags & 0x40 != 0)
            &&& (b & 0x80 != 0) == (flags & 0x80 != 0)
        }) by (bit_vector);
    }

    /// Clearing the accessed bit changes nothing else.
    pub proof fn lemma_without_accessed(self)
        ensures
            !self.without_accessed().spec_accessed(),
            self.without_accessed().spec_ppn() == self.spec_ppn(),
            self.without_accessed().spec_is_valid() == self.spec_is_valid(),
            self.without_accessed().spec_readable() == self.spec_readable(),
            self.without_accessed().spec_writable() == self.spec_writable(),
            self.without_accessed().spec_executable() == self.spec_executable(),
            self.without_accessed().spec_dirty() == self.spec_dirty(),
            self.without_accessed().spec_flags() & 0x3f == self.spec_flags() & 0x3f,
            !self.spec_accessed() ==> self.without_accessed() == self,
    {
        let b = self.bits;
        assert({
            let c = b & !0x40u64;
            &&& ((c & 0xff) as u8) & 0x3f == ((b & 0xff) as u8) & 0x3f
            &&& c & 0x40 == 0
            &&& (c >> 10) & 0xfff_ffff_ffff == (b >> 10) & 0xfff_ffff_ffff
            &&& (c & 0x01 != 0) == (b & 0x01 != 0)
            &&& (c & 0x02 != 0) == (b & 0x02 != 0)
            &&& (c & 0x04 != 0) == (b & 0x04 != 0)
            &&& (c & 0x08 != 0) == (b & 0x08 != 0)
            &&& (c & 0x80 != 0) == (b & 0x80 != 0)
            &&& (b & 0x40 == 0 ==> c == b)
        }) by (bit_vector);
    }

    /// Clearing the dirty bit changes nothing else.
    pub proof fn lemma_without_dirty(self)
        ensures
            !self.without_dirty().spec_dirty(),
            self.without_dirty().spec_ppn() == self.spec_ppn(),
            self.without_dirty().spec_is_valid() == self.spec_is_valid(),
            self.without_dirty().spec_readable() == self.spec_readable(),
            self.without_dirty().spec_writable() == self.spec_writable(),
            self.without_dirty().spec_executable() == self.spec_executable(),
            self.without_dirty().spec_accessed() == self.spec_accessed(),
            self.without_dirty().spec_flags() & 0x3f == self.spec_flags() & 0x3f,
            !self.spec_dirty() ==> self.without_dirty() == self,
    {
        let b = self.bits;
        assert({
            let c = b & !0x80u64;
            &&& ((c & 0xff) as u8) & 0x3f == ((b & 0xff) as u8) & 0x3f
            &&& c & 0x80 == 0
            &&& (c >> 10) & 0xfff_ffff_ffff == (b >> 10) & 0xfff_ffff_ffff
            &&& (c & 0x01 != 0) == (b & 0x01 != 0)
            &&& (c & 0x02 != 0) == (b & 0x02 != 0)
            &&& (c & 0x04 != 0) == (b & 0x04 != 0)
            &&& (c & 0x08 != 0) == (b & 0x08 != 0)
            &&& (c & 0x40 != 0) == (b & 0x40 != 0)
            &&& (b & 0x80 == 0 ==> c == b)
        }) by (bit_vector);
    }

    /// An access sets the accessed bit, a write the dirty bit too, and
    /// neither changes anything else.
    pub proof fn lemma_touched(self, write: bool)
        ensures
            self.touched(write).spec_accessed(),
            self.touched(write).spec_dirty() == (write || self.spec_dirty()),
            self.touched(write).spec_ppn() == self.spec_ppn(),
            self.touched(write).spec_is_valid() == self.spec_is_valid(),
            self.touched(write).spec_readable() == self.spec_readable(),
            self.touched(write).spec_writable() == self.spec_writable(),
            self.touched(write).spec_executable() == self.spec_executable(),
            self.touched(write).spec_flags() & 0x3f == self.spec_flags() & 0x3f,
    {
        let b = self.bits;
        assert({
            let c = b | 0x40u64;
            &&& ((c & 0xff) as u8) & 0x3f == ((b & 0xff) as u8) & 0x3f
            &&& c & 0x40 != 0
            &&& (c >> 10) & 0xfff_ffff_ffff == (b >> 10) & 0xfff_ffff_ffff
            &&& (c & 0x01 != 0) == (b & 0x01 != 0)
            &&& (c & 0x02 != 0) == (b & 0x02 != 0)
            &&& (c & 0x04 != 0) == (b & 0x04 != 0)
            &&& (c & 0x08 != 0) == (b & 0x08 != 0)
            &&& (c & 0x80 != 0) == (b & 0x80 != 0)
        }) by (bit_vector);
        assert({
            let c = b | 0xc0u64;
            &&& ((c & 0xff) as u8) & 0x3f == ((b & 0xff) as u8) & 0x3f
            &&& c & 0x40 != 0
            &&& c & 0x80 != 0
            &&& (c >> 10) & 0xfff_ffff_ffff == (b >> 10) & 0xfff_ffff_ffff
            &&& (c & 0x01 != 0) == (b & 0x01 != 0)
            &&& (c & 0x02 != 0) == (b & 0x02 != 0)
            &&& (c & 0x04 != 0) == (b & 0x04 != 0)
            &&& (c & 0x08 != 0) == (b & 0x08 != 0)
        }) by (bit_vector);
    }

    /// The entry that names frame `ppn` with `flags`.
    pub fn new(ppn: PhysPageNum, flags: PTEFlags) -> (r: PageTableEntry)
        ensures
            r == Self::spec_new(ppn.0, flags.bits),
    {
        PageTableEntry { bits: ((ppn.0 & 0xfff_ffff_ffff) << 10) | (flags.bits as u64) }
    }

    /// The entry that maps nothing.
    pub fn empty() -> (r: PageTableEntry)
        ensures
            r.bits == 0,
            !r.spec_is_valid(),
    {
        assert(0u64 & 0x01 == 0) by (bit_vector);
        PageTableEntry { bits: 0 }
    }

    pub fn ppn(&self) -> (r: PhysPageNum)
        ensures
            r.0 == self.spec_ppn(),
    {
        PhysPageNum((self.bits >> 10) & 0xfff_ffff_ffff)
    }

    pub fn flags(&self) -> (r: PTEFlags)
        ensures
            r.bits == self.spec_flags(),
    {
        PTEFlags { bits: (self.bits & 0xff) as u8 }
    }

    pub fn is_valid(&self) -> (r: bool)
        ensures
            r == self.spec_is_valid(),
    {
        self.bits & 0x01 != 0
    }

    pub fn readable(&self) -> (r: bool)
        ensures
            r == self.spec_readable(),
    {
        self.bits & 0x02 != 0
    }

    pub fn writable(&self) -> (r: bool)
        ensures
            r == self.spec_writable(),
    {
        self.bits & 0x04 != 0
    }

    pub fn executable(&self) -> (r: bool)
        ensures
            r == self.spec_executable(),
    {
        self.bits & 0x08 != 0
    }

    pub fn accessed(&self) -> (r: bool)
        ensures
            r == self.spec_accessed(),
    {
        self.bits & 0x40 != 0
    }

    pub fn dirty(&self) -> (r: bool)
        ensures
            r == self.spec_dirty(),
    {
        self.bits & 0x80 != 0
    }

    /// Clears the accessed bit.
    pub fn change_access(&mut self)
        ensures
            *final(self) == old(self).without_accessed(),
    {
        self.bits = self.bits & !0x40u64;
    }

    /// Clears the dirty bit.
    pub fn change_dirty(&mut self)
        ensures
            *final(self) == old(self).without_dirty(),
    {
        self.bits = self.bits & !0x80u64;
    }

    /// Records an access, as the MMU does: sets the accessed bit, and the
    /// dirty bit too if the access is a write.
    pub fn touch(&mut self, write: bool)
        ensures
            *final(self) == old(self).touched(write),
    {
        if write {
            self.bits = self.bits | 0xc0u64;
        } else {
            self.bits = self.bits | 0x40u64;
        }
    }
}


/// A last-level table: 512 leaf entries.
pub struct LeafTable {
    entries: Vec<PageTableEntry>,
}

/// A second-level table: up to 512 last-level tables.
pub struct MidTable {
    tables: Vec<Option<LeafTable>>,
}

/// A three-level page table. It owns the frames that hold its nodes.
pub struct PageTable {
    root_ppn: PhysPageNum,
    frames: Vec<PhysPageNum>,
    tables: Vec<Option<MidTable>>,
}

impl LeafTable {
    spec fn wf(self) -> bool {
        self.entries@.len() == 512
    }

    fn new() -> (r: LeafTable)
        ensures
            r.wf(),
            forall|i: int| 0 <= i < 512 ==> !(#[trigger] r.entries@[i]).spec_is_valid(),
    {
        let mut entries: Vec<PageTableEntry> = Vec::new();
        let mut i: usize = 0;
        while i < 512
            invariant
                i <= 512,
                entries@.len() == i,
                forall|j: int| 0 <= j < i ==> !(#[trigger] entries@[j]).spec_is_valid(),
            decreases 512 - i,
        {
            entries.push(PageTableEntry::empty());
            i = i + 1;
        }
        LeafTable { entries }
    }
}

impl MidTable {
    spec fn wf(self) -> bool {
        &&& self.tables@.len() == 512
        &&& forall|i: int|
            0 <= i < 512 && (#[trigger] self.tables@[i]) is Some ==> self.tables@[i]->0.wf()
    }

    fn new() -> (r: MidTable)
        ensures
            r.wf(),
            forall|i: int| 0 <= i < 512 ==> (#[trigger] r.tables@[i]) is None,
    {
        let mut tables: Vec<Option<LeafTable>> = Vec::new();
        let mut i: usize = 0;
        while i < 512
            invariant
                i <= 512,
                tables@.len() == i,
                forall|j: int| 0 <= j < i ==> (#[trigger] tables@[j]) is None,
            decreases 512 - i,
        {
            tables.push(None);
            i = i + 1;
        }
        MidTable { tables }
    }
}

/// Whether one second-level table covers both `v` and `w`.
pub open spec fn same_mid(v: int, w: int) -> bool {
    v / 262144 % 512 == w / 262144 % 512
}

/// Whether one last-level table covers both `v` and `w`.
pub open spec fn same_table(v: int, w: int) -> bool {
    v / 262144 % 512 == w / 262144 % 512 && v / 512 % 512 == w / 512 % 512
}

/// Two pages of the address space with the same three indexes are the same.
pub proof fn lemma_indexes_injective(v: int, w: int)
    requires
        0 <= v < 0x800_0000,
        0 <= w < 0x800_0000,
        v / 262144 % 512 == w / 262144 % 512,
        v / 512 % 512 == w / 512 % 512,
        v % 512 == w % 512,
    ensures
        v == w,
{
}

impl View for PageTable {
    type V = Map<u64, PageTableEntry>;

    /// The valid translations: each mapped page with its leaf entry.
    open spec fn view(&self) -> Map<u64, PageTableEntry> {
        Map::new(|v: u64| self.mapped(v as int), |v: u64| self.entry(v as int))
    }
}

impl PageTable {
    /// Whether the second-level table that covers `vpn` exists.
    pub closed spec fn has_mid(self, vpn: int) -> bool {
        self.tables@[vpn / 262144 % 512] is Some
    }

    /// Whether the last-level table that covers `vpn` exists.
    pub closed spec fn has_table(self, vpn: int) -> bool {
        &&& self.tables@[vpn / 262144 % 512] is Some
        &&& self.tables@[vpn / 262144 % 512]->0.tables@[vpn / 512 % 512] is Some
    }

    /// The leaf entry of `vpn`, where its last-level table exists.
    pub closed spec fn entry(self, vpn: int) -> PageTableEntry {
        self.tables@[vpn / 262144 % 512]->0.tables@[vpn / 512 % 512]->0.entries@[vpn % 512]
    }

    /// Whether `vpn` has a valid translation.
    pub open spec fn mapped(self, vpn: int) -> bool {
        &&& 0 <= vpn < 0x800_0000
        &&& self.has_table(vpn)
        &&& self.entry(vpn).spec_is_valid()
    }

    /// The frame of the root table.
    pub closed spec fn root(self) -> u64 {
        self.root_ppn.0
    }

    /// The frames that hold the nodes of this table, the root first, then
    /// in the order in which they were taken.
    pub closed spec fn table_frames(self) -> Seq<u64> {
        Seq::new(self.frames@.len(), |i: int| self.frames@[i].0)
    }

    /// Whether this table has the root, the frames and the nodes of `other`.
    pub open spec fn same_tables(self, other: PageTable) -> bool {
        &&& self.root() == other.root()
        &&& self.table_frames() == other.table_frames()
        &&& forall|v: int| #[trigger] self.has_table(v) == other.has_table(v)
        &&& forall|v: int| #[trigger] self.has_mid(v) == other.has_mid(v)
    }

    /// Whether this table has the leaf entries of `other`, but perhaps
    /// that of `vpn`.
    pub open spec fn same_entries_but(self, other: PageTable, vpn: int) -> bool {
        forall|v: int|
            0 <= v < 0x800_0000 && v != vpn ==> #[trigger] self.entry(v) == other.entry(v)
    }

    /// Number of tables that `map` must create before it can map `vpn`.
    pub open spec fn missing_tables(self, vpn: int) -> nat {
        if !self.has_mid(vpn) {
            2
        } else if !self.has_table(vpn) {
            1
        } else {
            0
        }
    }

    /// Every node has 512 slots, and no frame holds two nodes.
    pub closed spec fn wf(self) -> bool {
        &&& self.tables@.len() == 512
        &&& forall|i: int|
            0 <= i < 512 && (#[trigger] self.tables@[i]) is Some ==> self.tables@[i]->0.wf()
        &&& self.frames@.len() >= 1
        &&& self.frames@[0] == self.root_ppn
        &&& self.table_frames().no_duplicates()
    }

    /// A last-level table has a second-level table above it, both depend
    /// only on the part of the page number that selects them, and the
    /// root is the first of the table's frames.
    pub proof fn lemma_tables(self)
        requires
            self.wf(),
        ensures
            forall|v: int| #[trigger] self.has_table(v) ==> self.has_mid(v),
            forall|v: int, w: int|
                same_table(v, w) ==> #[trigger] self.has_table(v) == #[trigger] self.has_table(w),
            forall|v: int, w: int|
                same_mid(v, w) ==> #[trigger] self.has_mid(v) == #[trigger] self.has_mid(w),
            self.table_frames().len() >= 1,
            self.table_frames()[0] == self.root(),
            self.table_frames().no_duplicates(),
    {
    }

    /// A table with a root and nothing mapped. Takes one frame.
    pub fn new(allocator: &mut StackFrameAllocator) -> (r: PageTable)
        requires
            old(allocator).wf(),
            old(allocator).free().len() > 0,
        ensures
            r.wf(),
            r@ == Map::<u64, PageTableEntry>::empty(),
            forall|v: int| !r.has_mid(v) && !r.has_table(v),
            r.root() == old(allocator).free()[0],
            r.table_frames() == seq![old(allocator).free()[0]],
            final(allocator).wf(),
            final(allocator).limit() == old(allocator).limit(),
            final(allocator).free() == old(allocator).free().drop_first(),
            forall|p: u64|
                final(allocator).allocated(p) == (old(allocator).allocated(p) || p == old(
                    allocator,
                ).free()[0]),
    {
        let root = allocator.allocate().unwrap();
        let mut tables: Vec<Option<MidTable>> = Vec::new();
        let mut i: usize = 0;
        while i < 512
            invariant
                i <= 512,
                tables@.len() == i,
                forall|j: int| 0 <= j < i ==> (#[trigger] tables@[j]) is None,
            decreases 512 - i,
        {
            tables.push(None);
            i = i + 1;
        }
        let mut frames: Vec<PhysPageNum> = Vec::new();
        frames.push(root);
        let r = PageTable { root_ppn: root, frames, tables };
        proof {
            assert(r.table_frames() =~= seq![root.0]);
            assert forall|v: int| !r.has_mid(v) && !r.has_table(v) by {
                assert(r.tables@[v / 262144 % 512] is None);
            }
            assert(r@ =~= Map::<u64, PageTableEntry>::empty());
        }
        r
    }

    /// The value that selects this table in the MMU: mode Sv39 and the
    /// root frame.
    pub open spec fn spec_token(self) -> u64 {
        (8u64 << 60) | self.root()
    }

    /// The MMU token of this table.
    pub fn token(&self) -> (r: u64)
        ensures
            r == self.spec_token(),
    {
        (8u64 << 60) | self.root_ppn.0
    }

    /// The frame of the root table.
    pub fn root_ppn(&self) -> (r: PhysPageNum)
        ensures
            r.0 == self.root(),
    {
        self.root_ppn
    }

    /// Number of tables that mapping `vpn` would create.
    pub fn tables_needed(&self, vpn: VirtPageNum) -> (r: usize)
        requires
            self.wf(),
        ensures
            r == self.missing_tables(vpn.0 as int),
    {
        let (i2, i1, _i0) = vpn.indexes();
        match &self.tables[i2] {
            None => 2,
            Some(mid) => {
                if mid.tables[i1].is_none() {
                    1
                } else {
                    0
                }
            },
        }
    }

    /// The leaf entry of `vpn`, if the walk reaches a last-level table.
    /// The entry may be invalid.
    pub fn translate(&self, vpn: VirtPageNum) -> (r: Option<PageTableEntry>)
        requires
            self.wf(),
        ensures
            r == (if vpn.in_space() && self.has_table(vpn.0 as int) {
                Some(self.entry(vpn.0 as int))
            } else {
                None
            }),
            (r is Some && r->0.spec_is_valid()) == self@.contains_key(vpn.0),
            self@.contains_key(vpn.0) ==> r == Some(self@[vpn.0]),
    {
        if vpn.0 >= 0x800_0000 {
            return None;
        }
        let (i2, i1, i0) = vpn.indexes();
        match &self.tables[i2] {
            None => None,
            Some(mid) => match &mid.tables[i1] {
                None => None,
                Some(leaf) => Some(leaf.entries[i0]),
            },
        }
    }

    /// Maps `vpn` to `ppn` with `flags` and the valid bit. Creates the
    /// tables on the way that do not exist yet, each in the next free frame.
    #[verifier::rlimit(60)]
    pub fn map(
        &mut self,
        vpn: VirtPageNum,
        ppn: PhysPageNum,
        flags: PTEFlags,
        allocator: &mut StackFrameAllocator,
    )
        requires
            old(self).wf(),
            old(allocator).wf(),
            vpn.in_space(),
            !old(self)@.contains_key(vpn.0),
            old(allocator).free().len() >= old(self).missing_tables(vpn.0 as int),
            forall|i: int|
                0 <= i < old(self).table_frames().len() ==> old(allocator).allocated(
                    #[trigger] old(self).table_frames()[i],
                ),
        ensures
            final(self).wf(),
            final(self)@ == old(self)@.insert(
                vpn.0,
                PageTableEntry::spec_new(ppn.0, flags.bits | 0x01),
            ),
            final(self).root() == old(self).root(),
            forall|v: int|
                #[trigger] final(self).has_table(v) == (old(self).has_table(v) || same_table(
                    v,
                    vpn.0 as int,
                )),
            forall|v: int|
                #[trigger] final(self).has_mid(v) == (old(self).has_mid(v) || same_mid(
                    v,
                    vpn.0 as int,
                )),
            final(self).table_frames() == old(self).table_frames() + old(allocator).free().take(
                old(self).missing_tables(vpn.0 as int) as int,
            ),
            final(allocator).wf(),
            final(allocator).limit() == old(allocator).limit(),
            final(allocator).free() == old(allocator).free().skip(
                old(self).missing_tables(vpn.0 as int) as int,
            ),
            forall|p: u64|
                final(allocator).allocated(p) == (old(allocator).allocated(p) || old(
                    allocator,
                ).free().take(old(self).missing_tables(vpn.0 as int) as int).contains(p)),
    {
        let ghost old_self = *self;
        let ghost old_alloc = *allocator;
        let ghost need = old_self.missing_tables(vpn.0 as int) as int;
        let (i2, i1, i0) = vpn.indexes();
        proof {
            old_alloc.lemma_free_not_allocated();
        }
        if self.tables[i2].is_none() {
            let frame = allocator.allocate().unwrap();
            self.frames.push(frame);
            self.tables[i2] = Some(MidTable::new());
            proof {
                assert(self.table_frames() =~= old_self.table_frames().push(frame.0));
                assert forall|i: int, j: int|
                    0 <= i < self.table_frames().len() && 0 <= j < self.table_frames().len() && i
                        != j implies self.table_frames()[i] != self.table_frames()[j] by {
                    if i < old_self.table_frames().len() {
                        assert(old_alloc.allocated(old_self.table_frames()[i]));
                    }
                    if j < old_self.table_frames().len() {
                        assert(old_alloc.allocated(old_self.table_frames()[j]));
                    }
                }
            }
        }
        let ghost mid_self = *self;
        let ghost mid_alloc = *allocator;
        proof {
            mid_alloc.lemma_free_not_allocated();
            assert(forall|i: int|
                0 <= i < mid_self.table_frames().len() ==> mid_alloc.allocated(
                    #[trigger] mid_self.table_frames()[i],
                ));
        }
        match &mut self.tables[i2] {
            Some(mid) => {
                if mid.tables[i1].is_none() {
                    let frame = allocator.allocate().unwrap();
                    self.frames.push(frame);
                    mid.tables[i1] = Some(LeafTable::new());
                    proof {
                        assert(self.frames@ == mid_self.frames@.push(frame));
                    }
                }
                match &mut mid.tables[i1] {
                    Some(leaf) => {
                        leaf.entries[i0] = PageTableEntry::new(ppn, flags.union(PTE_V));
                    },
                    None => {},
                }
            },
            None => {},
        }
        proof {
            PageTableEntry::lemma_new(ppn.0, flags.bits | 0x01);
            let fb = flags.bits;
            assert((fb | 0x01) & 0x01 != 0) by (bit_vector);
            let new_pte = PageTableEntry::spec_new(ppn.0, flags.bits | 0x01);
            let vi = vpn.0 as int;
            assert(self.tables@[i2 as int] is Some);
            assert(self.tables@[i2 as int]->0.tables@[i1 as int] is Some);
            assert(self.tables@[i2 as int]->0.tables@[i1 as int]->0.entries@[i0 as int] == new_pte);
            assert(self.table_frames() =~= old_self.table_frames() + old_alloc.free().take(need));
            assert(allocator.free() =~= old_alloc.free().skip(need));
            assert forall|i: int, j: int|
                0 <= i < self.table_frames().len() && 0 <= j < self.table_frames().len() && i
                    != j implies self.table_frames()[i] != self.table_frames()[j] by {
                if i < mid_self.table_frames().len() {
                    assert(mid_alloc.allocated(mid_self.table_frames()[i]));
                    assert(self.table_frames()[i] == mid_self.table_frames()[i]);
                }
                if j < mid_self.table_frames().len() {
                    assert(mid_alloc.allocated(mid_self.table_frames()[j]));
                    assert(self.table_frames()[j] == mid_self.table_frames()[j]);
                }
            }
            assert forall|p: u64|
                allocator.allocated(p) == (old_alloc.allocated(p) || old_alloc.free().take(
                    need,
                ).contains(p)) by {
                let t = old_alloc.free().take(need);
                if t.contains(p) {
                    let k = choose|k: int| 0 <= k < t.len() && t[k] == p;
                    assert(old_alloc.free()[k] == p);
                }
                if need >= 1 {
                    assert(t[0] == old_alloc.free()[0]);
                }
                if need >= 2 {
                    assert(t[1] == old_alloc.free()[1]);
                }
            }
            assert forall|v: int|
                #[trigger] self.has_table(v) == (old_self.has_table(v) || same_table(v, vi)) by {
                if v / 262144 % 512 == i2 && v / 512 % 512 == i1 {
                } else {
                }
            }
            assert forall|v: int|
                #[trigger] self.has_mid(v) == (old_self.has_mid(v) || same_mid(v, vi)) by {
            }
            assert forall|v: u64| self.mapped(v as int) == (old_self.mapped(v as int) || v
                == vpn.0) by {
                if v != vpn.0 && v < 0x800_0000 {
                    if v as int / 262144 % 512 == i2 && v as int / 512 % 512 == i1 && v as int
                        % 512 == i0 {
                        lemma_indexes_injective(v as int, vi);
                    }
                }
            }
            assert forall|v: u64| self.mapped(v as int) && v != vpn.0 implies self.entry(v as int)
                == old_self.entry(v as int) by {
                if v as int / 262144 % 512 == i2 && v as int / 512 % 512 == i1 && v as int % 512
                    == i0 {
                    lemma_indexes_injective(v as int, vi);
                }
            }
            assert(self@ =~= old_self@.insert(vpn.0, new_pte));
        }
    }

    /// A handle on the leaf entry of `vpn`, if the walk reaches a
    /// last-level table. What the caller leaves in the entry is what the
    /// table holds for `vpn` afterwards; nothing else changes.
    pub fn find_pte(&mut self, vpn: VirtPageNum) -> (r: Option<&mut PageTableEntry>)
        requires
            old(self).wf(),
        ensures
            r is Some == (vpn.in_space() && old(self).has_table(vpn.0 as int)),
            final(self).wf(),
            final(self).same_tables(*old(self)),
            final(self).same_entries_but(*old(self), vpn.0 as int),
            r is None ==> final(self).entry(vpn.0 as int) == old(self).entry(vpn.0 as int),
            r is Some ==> {
                &&& *r->0 == old(self).entry(vpn.0 as int)
                &&& final(self).entry(vpn.0 as int) == *final(r->0)
            },
    {
        if vpn.0 >= 0x800_0000 {
            return None;
        }
        let (i2, i1, i0) = vpn.indexes();
        match &mut self.tables[i2] {
            None => None,
            Some(mid) => match &mut mid.tables[i1] {
                None => None,
                Some(leaf) => Some(&mut leaf.entries[i0]),
            },
        }
    }

    /// Removes the translation of `vpn`. The tables stay.
    pub fn unmap(&mut self, vpn: VirtPageNum)
        requires
            old(self).wf(),
            old(self)@.contains_key(vpn.0),
        ensures
            final(self).wf(),
            final(self).same_tables(*old(self)),
            final(self)@ == old(self)@.remove(vpn.0),
    {
        let ghost before = *self;
        match self.find_pte(vpn) {
            Some(pte) => {
                *pte = PageTableEntry::empty();
            },
            None => {},
        }
        proof {
            assert(self@ =~= before@.remove(vpn.0));
        }
    }

    /// Clears the accessed bit of the translation of `vpn`.
    pub fn clear_accessed(&mut self, vpn: VirtPageNum)
        requires
            old(self).wf(),
            old(self)@.contains_key(vpn.0),
        ensures
            final(self).wf(),
            final(self).same_tables(*old(self)),
            final(self)@ == old(self)@.insert(vpn.0, old(self)@[vpn.0].without_accessed()),
    {
        let ghost before = *self;
        match self.find_pte(vpn) {
            Some(pte) => {
                pte.change_access();
            },
            None => {},
        }
        proof {
            before.entry(vpn.0 as int).lemma_without_accessed();
            assert(self@ =~= before@.insert(vpn.0, before@[vpn.0].without_accessed()));
        }
    }

    /// Clears the dirty bit of the translation of `vpn`.
    pub fn clear_dirty(&mut self, vpn: VirtPageNum)
        requires
            old(self).wf(),
            old(self)@.contains_key(vpn.0),
        ensures
            final(self).wf(),
            final(self).same_tables(*old(self)),
            final(self)@ == old(self)@.insert(vpn.0, old(self)@[vpn.0].without_dirty()),
    {
        let ghost before = *self;
        match self.find_pte(vpn) {
            Some(pte) => {
                pte.change_dirty();
            },
            None => {},
        }
        proof {
            before.entry(vpn.0 as int).lemma_without_dirty();
            assert(self@ =~= before@.insert(vpn.0, before@[vpn.0].without_dirty()));
        }
    }

    /// Records an access to `vpn` in its translation, as the MMU does.
    pub fn touch(&mut self, vpn: VirtPageNum, write: bool)
        requires
            old(self).wf(),
            old(self)@.contains_key(vpn.0),
        ensures
            final(self).wf(),
            final(self).same_tables(*old(self)),
            final(self)@ == old(self)@.insert(vpn.0, old(self)@[vpn.0].touched(write)),
    {
        let ghost before = *self;
        match self.find_pte(vpn) {
            Some(pte) => {
                pte.touch(write);
            },
            None => {},
        }
        proof {
            before.entry(vpn.0 as int).lemma_touched(write);
            assert(self@ =~= before@.insert(vpn.0, before@[vpn.0].touched(write)));
        }
    }

    /// Gives the frames of all nodes back, the root last.
    #[verifier::rlimit(60)]
    pub fn release(self, allocator: &mut StackFrameAllocator)
        requires
            self.wf(),
            old(allocator).wf(),
            forall|i: int|
                0 <= i < self.table_frames().len() ==> old(allocator).allocated(
                    #[trigger] self.table_frames()[i],
                ),
        ensures
            final(allocator).wf(),
            final(allocator).limit() == old(allocator).limit(),
            final(allocator).free() == self.table_frames() + old(allocator).free(),
            forall|p: u64|
                final(allocator).allocated(p) == (old(allocator).allocated(p)
                    && !self.table_frames().contains(p)),
    {
        let mut frames = self.frames;
        let ghost all = self.table_frames();
        let ghost old_alloc = *allocator;
        assert(all.len() == frames@.len());
        while frames.len() > 0
            invariant
                allocator.wf(),
                allocator.limit() == old_alloc.limit(),
                frames@.len() <= all.len(),
                all.no_duplicates(),
                forall|i: int| 0 <= i < frames@.len() ==> (#[trigger] frames@[i]).0 == all[i],
                allocator.free() == all.skip(frames@.len() as int) + old_alloc.free(),
                forall|p: u64|
                    allocator.allocated(p) == (old_alloc.allocated(p) && !all.skip(
                        frames@.len() as int,
                    ).contains(p)),
                forall|i: int| 0 <= i < all.len() ==> old_alloc.allocated(#[trigger] all[i]),
            decreases frames.len(),
        {
            let ghost n = frames@.len() as int;
            let ghost prev = *allocator;
            let frame = frames.pop().unwrap();
            proof {
                assert(frame.0 == all[n - 1]);
                assert(old_alloc.allocated(all[n - 1]));
                if all.skip(n).contains(frame.0) {
                    let k = choose|k: int| 0 <= k < all.skip(n).len() && all.skip(n)[k] == frame.0;
                    assert(all[n + k] == all[n - 1]);
                }
            }
            allocator.dealloc(frame);
            proof {
                assert(all.skip(n - 1) =~= seq![frame.0] + all.skip(n));
                assert(allocator.free() =~= all.skip(n - 1) + old_alloc.free());
                assert forall|p: u64|
                    allocator.allocated(p) == (old_alloc.allocated(p) && !all.skip(n - 1).contains(
                        p,
                    )) by {
                    if all.skip(n).contains(p) {
                        let k = choose|k: int| 0 <= k < all.skip(n).len() && all.skip(n)[k] == p;
                        assert(all.skip(n - 1)[k + 1] == p);
                    }
                    let wider = all.skip(n - 1);
                    if wider.contains(p) && p != frame.0 {
                        let k = choose|k: int| 0 <= k < wider.len() && wider[k] == p;
                        assert(all.skip(n)[k - 1] == p);
                    }
                    assert(all.skip(n - 1)[0] == frame.0);
                }
            }
        }
        proof {
            assert(all.skip(0) =~= all);
        }
    }
}

} // verus!

//! Physical and virtual addresses and page numbers.
//!
//! All four are 64-bit integers in a wrapper. A page number is an address
//! divided by the page size. Converting from a raw integer truncates to the
//! width that Sv39 gives the quantity.

use vstd::prelude::*;
use crate::config::{PAGE_SIZE, VA_LIMIT, PA_LIMIT, VPN_LIMIT, PPN_LIMIT};

verus! {

#[derive(Copy, Clone, PartialEq, Eq, Structural, Debug)]
pub struct PhysAddr(pub u64);

#[derive(Copy, Clone, PartialEq, Eq, Structural, Debug)]
pub struct VirtAddr(pub u64);

#[derive(Copy, Clone, PartialEq, Eq, Structural, Debug)]
pub struct PhysPageNum(pub u64);

#[derive(Copy, Clone, PartialEq, Eq, Structural, Debug)]
pub struct VirtPageNum(pub u64);

/// `x` rounded down to a whole number of pages, in pages.
pub open spec fn page_floor(x: int) -> int {
    x / 4096
}

/// `x` rounded up to a whole number of pages, in pages.
pub open spec fn page_ceil(x: int) -> int {
    (x + 4095) / 4096
}

impl VirtAddr {
    /// The virtual address that `v` names: `v` truncated to 39 bits.
    pub open spec fn spec_new(v: u64) -> VirtAddr {
        VirtAddr((v as int % 0x80_0000_0000) as u64)
    }

    /// Truncates `v` to the width of a virtual address.
    pub fn new(v: u64) -> (r: VirtAddr)
        ensures
            r == Self::spec_new(v),
            r.0 < VA_LIMIT,
    {
        assert(v & 0x7f_ffff_ffff == v % 0x80_0000_0000) by (bit_vector);
        VirtAddr(v & 0x7f_ffff_ffff)
    }

    /// The page that holds this address.
    pub fn floor(&self) -> (r: VirtPageNum)
        ensures
            r.0 == page_floor(self.0 as int),
    {
        VirtPageNum(self.0 / 4096)
    }

    /// The first page at or after this address.
    pub fn ceil(&self) -> (r: VirtPageNum)
        ensures
            r.0 == page_ceil(self.0 as int),
    {
        if self.0 % 4096 == 0 {
            VirtPageNum(self.0 / 4096)
        } else {
            VirtPageNum(self.0 / 4096 + 1)
        }
    }

    /// Offset of this address within its page.
    pub fn page_offset(&self) -> (r: usize)
        ensures
            r == self.0 % 4096,
    {
        (self.0 % 4096) as usize
    }

    /// Whether this address is the first of its page.
    pub fn aligned(&self) -> (r: bool)
        ensures
            r == (self.0 % 4096 == 0),
    {
        self.page_offset() == 0
    }
}

impl PhysAddr {
    /// The physical address that `v` names: `v` truncated to 56 bits.
    pub open spec fn spec_new(v: u64) -> PhysAddr {
        PhysAddr((v as int % 0x100_0000_0000_0000) as u64)
    }

    /// Truncates `v` to the width of a physical address.
    pub fn new(v: u64) -> (r: PhysAddr)
        ensures
            r == Self::spec_new(v),
            r.0 < PA_LIMIT,
    {
        assert(v & 0xff_ffff_ffff_ffff == v % 0x100_0000_0000_0000) by (bit_vector);
        PhysAddr(v & 0xff_ffff_ffff_ffff)
    }

    /// The frame that holds this address.
    pub fn floor(&self) -> (r: PhysPageNum)
        ensures
            r.0 == page_floor(self.0 as int),
    {
        PhysPageNum(self.0 / 4096)
    }

    /// The first frame at or after this address.
    pub fn ceil(&self) -> (r: PhysPageNum)
        ensures
            r.0 == page_ceil(self.0 as int),
    {
        if self.0 % 4096 == 0 {
            PhysPageNum(self.0 / 4096)
        } else {
            PhysPageNum(self.0 / 4096 + 1)
        }
    }

    /// Offset of this address within its frame.
    pub fn page_offset(&self) -> (r: usize)
        ensures
            r == self.0 % 4096,
    {
        (self.0 % 4096) as usize
    }

    /// Whether this address is the first of its frame.
    pub fn aligned(&self) -> (r: bool)
        ensures
            r == (self.0 % 4096 == 0),
    {
        self.page_offset() == 0
    }
}

impl VirtPageNum {
    /// The virtual page that `v` names: `v` truncated to 27 bits.
    pub open spec fn spec_new(v: u64) -> VirtPageNum {
        VirtPageNum((v as int % 0x800_0000) as u64)
    }

    /// Truncates `v` to the width of a virtual page number.
    pub fn new(v: u64) -> (r: VirtPageNum)
        ensures
            r == Self::spec_new(v),
            r.0 < VPN_LIMIT,
    {
        assert(v & 0x7ff_ffff == v % 0x800_0000) by (bit_vector);
        VirtPageNum(v & 0x7ff_ffff)
    }

    /// Whether this page lies inside the Sv39 address space.
    pub open spec fn in_space(self) -> bool {
        self.0 < VPN_LIMIT
    }

    /// The three indexes, root first, by which a page-table walk finds
    /// this page.
    pub open spec fn spec_indexes(self) -> (int, int, int) {
        (self.0 as int / 262144 % 512, self.0 as int / 512 % 512, self.0 as int % 512)
    }

    /// The three 9-bit indexes of this page, root first.
    pub fn indexes(&self) -> (r: (usize, usize, usize))
        ensures
            r.0 == self.spec_indexes().0,
            r.1 == self.spec_indexes().1,
            r.2 == self.spec_indexes().2,
            r.0 < 512,
            r.1 < 512,
            r.2 < 512,
    {
        let v: u64 = self.0;
        assert((v >> 18) & 511 == v / 262144 % 512) by (bit_vector);
        assert((v >> 9) & 511 == v / 512 % 512) by (bit_vector);
        assert(v & 511 == v % 512) by (bit_vector);
        (((v >> 18) & 511) as usize, ((v >> 9) & 511) as usize, (v & 511) as usize)
    }

    /// The first address of this page.
    pub fn start_addr(&self) -> (r: VirtAddr)
        requires
            self.in_space(),
        ensures
            r.0 == self.0 * 4096,
    {
        VirtAddr(self.0 * 4096)
    }

    /// Moves to the next page.
    pub fn step(&mut self)
        requires
            old(self).0 < u64::MAX,
        ensures
            final(self).0 == old(self).0 + 1,
    {
        self.0 = self.0 + 1;
    }
}

impl PhysPageNum {
    /// The frame that `v` names: `v` truncated to 44 bits.
    pub open spec fn spec_new(v: u64) -> PhysPageNum {
        PhysPageNum((v as int % 0x1000_0000_0000) as u64)
    }

    /// Truncates `v` to the width of a physical page number.
    pub fn new(v: u64) -> (r: PhysPageNum)
        ensures
            r == Self::spec_new(v),
            r.0 < PPN_LIMIT,
    {
        assert(v & 0xfff_ffff_ffff == v % 0x1000_0000_0000) by (bit_vector);
        PhysPageNum(v & 0xfff_ffff_ffff)
    }

    /// Whether a page-table entry can name this frame.
    pub open spec fn in_space(self) -> bool {
        self.0 < PPN_LIMIT
    }

    /// The first address of this frame.
    pub fn start_addr(&self) -> (r: PhysAddr)
        requires
            self.in_space(),
        ensures
            r.0 == self.0 * 4096,
    {
        PhysAddr(self.0 * 4096)
    }
}

/// A half-open range of virtual pages, `[l, r)`.
#[derive(Copy, Clone, Debug)]
pub struct VPNRange {
    l: VirtPageNum,
    r: VirtPageNum,
}

impl VPNRange {
    /// The first page of the range.
    pub closed spec fn start(self) -> int {
        self.l.0 as int
    }

    /// The page after the last of the range.
    pub closed spec fn end(self) -> int {
        self.r.0 as int
    }

    /// A range never ends before it starts.
    pub closed spec fn wf(self) -> bool {
        self.l.0 <= self.r.0
    }

    /// Whether `vpn` lies in the range.
    pub open spec fn contains(self, vpn: int) -> bool {
        self.start() <= vpn < self.end()
    }

    /// The range `[start, end)`.
    pub fn new(start: VirtPageNum, end: VirtPageNum) -> (r: VPNRange)
        requires
            start.0 <= end.0,
        ensures
            r.wf(),
            r.start() == start.0,
            r.end() == end.0,
    {
        VPNRange { l: start, r: end }
    }

    /// Two ranges with the same start and the same end are the same.
    pub proof fn lemma_same(self, other: VPNRange)
        requires
            self.start() == other.start(),
            self.end() == other.end(),
        ensures
            self == other,
    {
    }

    /// The start of a range is not after its end.
    pub proof fn lemma_ordered(self)
        requires
            self.wf(),
        ensures
            0 <= self.start() <= self.end() <= u64::MAX,
    {
    }

    pub fn get_start(&self) -> (r: VirtPageNum)
        ensures
            r.0 == self.start(),
            self.wf() ==> self.start() <= self.end(),
    {
        self.l
    }

    pub fn get_end(&self) -> (r: VirtPageNum)
        ensures
            r.0 == self.end(),
            self.wf() ==> self.start() <= self.end(),
    {
        self.r
    }

    /// Whether `vpn` lies in the range.
    pub fn includes(&self, vpn: VirtPageNum) -> (r: bool)
        ensures
            r == self.contains(vpn.0 as int),
    {
        self.l.0 <= vpn.0 && vpn.0 < self.r.0
    }

    /// Number of pages in the range.
    pub fn len(&self) -> (r: u64)
        requires
            self.wf(),
        ensures
            r == self.end() - self.start(),
    {
        self.r.0 - self.l.0
    }
}

} // verus!

//! Physical and virtual addresses and page numbers, with the conversions
//! between them, and ranges of virtual pages.

use vstd::prelude::*;
use crate::config::PAGE_SIZE;

verus! {

/// A physical address.
#[derive(Copy, Clone, PartialEq, Eq, Structural, Debug)]
pub struct PhysAddr(pub usize);

/// A virtual address.
#[derive(Copy, Clone, PartialEq, Eq, Structural, Debug)]
pub struct VirtAddr(pub usize);

/// A physical page number: a physical address divided by the page size.
#[derive(Copy, Clone, PartialEq, Eq, Structural, Debug)]
pub struct PhysPageNum(pub usize);

/// A virtual page number: a virtual address divided by the page size.
#[derive(Copy, Clone, PartialEq, Eq, Structural, Debug)]
pub struct VirtPageNum(pub usize);

impl VirtAddr {
    /// The page containing this address.
    pub fn floor(&self) -> (r: VirtPageNum)
        ensures
            r.0 == self.0 / PAGE_SIZE,
    {
        VirtPageNum(self.0 / PAGE_SIZE)
    }

    /// The first page boundary at or above this address.
    pub fn ceil(&self) -> (r: VirtPageNum)
        ensures
            r.0 == (self.0 + PAGE_SIZE - 1) / (PAGE_SIZE as int),
    {
        if self.0 == 0 {
            VirtPageNum(0)
        } else {
            VirtPageNum((self.0 - 1) / PAGE_SIZE + 1)
        }
    }

    /// The offset of this address within its page.
    pub fn page_offset(&self) -> (r: usize)
        ensures
            r == self.0 % PAGE_SIZE,
    {
        self.0 % PAGE_SIZE
    }

    /// Whether this address lies on a page boundary.
    pub fn aligned(&self) -> (r: bool)
        ensures
            r == (self.0 % PAGE_SIZE == 0),
    {
        self.page_offset() == 0
    }
}

impl PhysAddr {
    /// The page containing this address.
    pub fn floor(&self) -> (r: PhysPageNum)
        ensures
            r.0 == self.0 / PAGE_SIZE,
    {
        PhysPageNum(self.0 / PAGE_SIZE)
    }

    /// The first page boundary at or above this address.
    pub fn ceil(&self) -> (r: PhysPageNum)
        ensures
            r.0 == (self.0 + PAGE_SIZE - 1) / (PAGE_SIZE as int),
    {
        if self.0 == 0 {
            PhysPageNum(0)
        } else {
            PhysPageNum((self.0 - 1) / PAGE_SIZE + 1)
        }
    }

    /// The offset of this address within its page.
    pub fn page_offset(&self) -> (r: usize)
        ensures
            r == self.0 % PAGE_SIZE,
    {
        self.0 % PAGE_SIZE
    }

    /// Whether this address lies on a page boundary.
    pub fn aligned(&self) -> (r: bool)
        ensures
            r == (self.0 % PAGE_SIZE == 0),
    {
        self.page_offset() == 0
    }
}

impl VirtPageNum {
    /// The address of the start of this page.
    pub fn base_addr(&self) -> (r: VirtAddr)
        requires
            self.0 <= usize::MAX / PAGE_SIZE,
        ensures
            r.0 == self.0 * PAGE_SIZE,
    {
        assert(self.0 * PAGE_SIZE <= (usize::MAX / PAGE_SIZE) * PAGE_SIZE) by (nonlinear_arith)
            requires self.0 <= usize::MAX / PAGE_SIZE;
        VirtAddr(self.0 * PAGE_SIZE)
    }

    /// The three 9-bit page-table indices of this page, highest level first.
    /// Only the low 27 bits of the page number take part, as in the hardware
    /// walk.
    pub fn indexes(&self) -> (r: (usize, usize, usize))
        ensures
            r.0 == (self.0 >> 18) & 511,
            r.1 == (self.0 >> 9) & 511,
            r.2 == self.0 & 511,
            r.0 < 512 && r.1 < 512 && r.2 < 512,
    {
        let v: usize = self.0;
        let i0 = (v >> 18) & 511;
        let i1 = (v >> 9) & 511;
        let i2 = v & 511;
        assert(((v >> 18) & 511) < 512 && ((v >> 9) & 511) < 512 && (v & 511) < 512)
            by (bit_vector);
        (i0, i1, i2)
    }
}

impl PhysPageNum {
    /// The address of the start of this page.
    pub fn base_addr(&self) -> (r: PhysAddr)
        requires
            self.0 <= usize::MAX / PAGE_SIZE,
        ensures
            r.0 == self.0 * PAGE_SIZE,
    {
        assert(self.0 * PAGE_SIZE <= (usize::MAX / PAGE_SIZE) * PAGE_SIZE) by (nonlinear_arith)
            requires self.0 <= usize::MAX / PAGE_SIZE;
        PhysAddr(self.0 * PAGE_SIZE)
    }
}

/// The low 27 bits of a virtual page number: the part the three-level walk
/// consults. Two page numbers equal here reach the same leaf.
pub open spec fn vpn_key(vpn: nat) -> nat {
    vpn % 0x8000000
}

/// Stepping to the next page, generic over both kinds of page number.
pub trait StepByOne {
    /// The page number as a mathematical value.
    spec fn number(&self) -> nat;

    /// Advance to the next page.
    fn step(&mut self)
        requires
            old(self).number() < usize::MAX,
        ensures
            final(self).number() == old(self).number() + 1,
    ;
}

impl StepByOne for VirtPageNum {
    open spec fn number(&self) -> nat {
        self.0 as nat
    }

    fn step(&mut self) {
        self.0 = self.0 + 1;
    }
}

impl StepByOne for PhysPageNum {
    open spec fn number(&self) -> nat {
        self.0 as nat
    }

    fn step(&mut self) {
        self.0 = self.0 + 1;
    }
}

/// A half-open range of virtual pages.
#[derive(Copy, Clone, PartialEq, Eq, Structural, Debug)]
pub struct SimpleRange {
    pub l: VirtPageNum,
    pub r: VirtPageNum,
}

impl SimpleRange {
    /// Build the range `[start, end)`; the start must not exceed the end.
    pub fn new(start: VirtPageNum, end: VirtPageNum) -> (r: SimpleRange)
        requires
            start.0 <= end.0,
        ensures
            r.l == start,
            r.r == end,
    {
        SimpleRange { l: start, r: end }
    }

    /// First page of the range.
    pub fn get_start(&self) -> (r: VirtPageNum)
        ensures
            r == self.l,
    {
        self.l
    }

    /// One past the last page of the range.
    pub fn get_end(&self) -> (r: VirtPageNum)
        ensures
            r == self.r,
    {
        self.r
    }

    /// Whether the given page lies inside the range.
    pub fn contains(&self, vpn: VirtPageNum) -> (r: bool)
        ensures
            r == (self.l.0 <= vpn.0 < self.r.0),
    {
        self.l.0 <= vpn.0 && vpn.0 < self.r.0
    }

    /// Number of pages in the range.
    pub fn len(&self) -> (r: usize)
        requires
            self.l.0 <= self.r.0,
        ensures
            r == self.r.0 - self.l.0,
    {
        self.r.0 - self.l.0
    }
}

/// A range of virtual pages, as address-space regions use it.
pub type VPNRange = SimpleRange;

} // verus!

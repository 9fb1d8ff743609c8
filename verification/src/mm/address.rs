//! Typed addresses and page numbers, and half-open ranges of virtual pages.

use vstd::prelude::*;
use crate::config::PAGE_SIZE_U64;

verus! {

/// Number of distinct virtual addresses under Sv39: two to the power 39.
pub const VA_LIMIT: u64 = 0x80_0000_0000;

/// Number of distinct physical addresses under Sv39: two to the power 56.
pub const PA_LIMIT: u64 = 0x100_0000_0000_0000;

/// Number of distinct virtual page numbers: two to the power 27.
pub const VPN_LIMIT: u64 = 0x800_0000;

/// Number of distinct physical page numbers: two to the power 44.
pub const PPN_LIMIT: u64 = 0x1000_0000_0000;

/// A virtual address.
#[derive(Copy, Clone, Debug, PartialEq, Eq, Structural)]
pub struct VirtAddr(pub u64);

/// A physical address.
#[derive(Copy, Clone, Debug, PartialEq, Eq, Structural)]
pub struct PhysAddr(pub u64);

/// A virtual page number.
#[derive(Copy, Clone, Debug, PartialEq, Eq, Structural)]
pub struct VirtPageNum(pub u64);

/// A physical page number.
#[derive(Copy, Clone, Debug, PartialEq, Eq, Structural)]
pub struct PhysPageNum(pub u64);

impl VirtAddr {
    /// The address that the low 39 bits of `v` name.
    pub fn from_u64(v: u64) -> (r: VirtAddr)
        ensures
            r.0 == v % VA_LIMIT,
    {
        assert(v & 0x7f_ffff_ffff == v % 0x80_0000_0000) by (bit_vector);
        VirtAddr(v & 0x7f_ffff_ffff)
    }

    /// The number of the page that holds this address.
    pub open spec fn spec_floor(self) -> VirtPageNum {
        VirtPageNum(self.0 / PAGE_SIZE_U64)
    }

    /// The number of the first page that starts at or after this address.
    pub open spec fn spec_ceil(self) -> VirtPageNum {
        VirtPageNum(((self.0 + PAGE_SIZE_U64 - 1) / (PAGE_SIZE_U64 as int)) as u64)
    }

    /// Rounds down to a page number.
    #[verifier::when_used_as_spec(spec_floor)]
    pub fn floor(self) -> (r: VirtPageNum)
        ensures
            r == self.spec_floor(),
    {
        VirtPageNum(self.0 / PAGE_SIZE_U64)
    }

    /// Rounds up to a page number.
    #[verifier::when_used_as_spec(spec_ceil)]
    pub fn ceil(self) -> (r: VirtPageNum)
        ensures
            r == self.spec_ceil(),
            r.0 * PAGE_SIZE_U64 >= self.0,
            r.0 * PAGE_SIZE_U64 < self.0 + PAGE_SIZE_U64,
    {
        if self.0 == 0 {
            VirtPageNum(0)
        } else {
            VirtPageNum((self.0 - 1) / PAGE_SIZE_U64 + 1)
        }
    }

    /// The offset of this address inside its page.
    pub fn page_offset(self) -> (r: usize)
        ensures
            r == self.0 % PAGE_SIZE_U64,
    {
        (self.0 % PAGE_SIZE_U64) as usize
    }

    /// Whether this address is the first of a page.
    pub fn aligned(self) -> (r: bool)
        ensures
            r == (self.0 % PAGE_SIZE_U64 == 0),
    {
        self.page_offset() == 0
    }
}

impl PhysAddr {
    /// The address that the low 56 bits of `v` name.
    pub fn from_u64(v: u64) -> (r: PhysAddr)
        ensures
            r.0 == v % PA_LIMIT,
    {
        assert(v & 0xff_ffff_ffff_ffff == v % 0x100_0000_0000_0000) by (bit_vector);
        PhysAddr(v & 0xff_ffff_ffff_ffff)
    }

    /// The number of the frame that holds this address.
    pub fn floor(self) -> (r: PhysPageNum)
        ensures
            r.0 == self.0 / PAGE_SIZE_U64,
    {
        PhysPageNum(self.0 / PAGE_SIZE_U64)
    }

    /// The offset of this address inside its frame.
    pub fn page_offset(self) -> (r: usize)
        ensures
            r == self.0 % PAGE_SIZE_U64,
    {
        (self.0 % PAGE_SIZE_U64) as usize
    }
}

impl VirtPageNum {
    /// The page number that the low 27 bits of `v` name.
    pub fn from_u64(v: u64) -> (r: VirtPageNum)
        ensures
            r.0 == v % VPN_LIMIT,
    {
        assert(v & 0x7ff_ffff == v % 0x800_0000) by (bit_vector);
        VirtPageNum(v & 0x7ff_ffff)
    }

    /// The three indexes, nine bits each, by which the page table is walked:
    /// the index into the root first.
    pub open spec fn spec_indexes(self) -> (int, int, int) {
        (((self.0 / 512 / 512) % 512) as int, ((self.0 / 512) % 512) as int, (self.0 % 512) as int)
    }

    /// Splits the page number into its three table indexes, root first.
    pub fn indexes(self) -> (r: [usize; 3])
        ensures
            r[0] == self.spec_indexes().0,
            r[1] == self.spec_indexes().1,
            r[2] == self.spec_indexes().2,
            r[0] < 512,
            r[1] < 512,
            r[2] < 512,
    {
        let i0: usize = (self.0 % 512) as usize;
        let i1: usize = ((self.0 / 512) % 512) as usize;
        let i2: usize = ((self.0 / 512 / 512) % 512) as usize;
        [i2, i1, i0]
    }

    /// The first address of this page.
    pub fn start_addr(self) -> (r: VirtAddr)
        requires
            self.0 < VPN_LIMIT,
        ensures
            r.0 == self.0 * PAGE_SIZE_U64,
            r.floor() == self,
    {
        VirtAddr(self.0 * PAGE_SIZE_U64)
    }

    /// Moves to the next page number.
    pub fn step(&mut self)
        requires
            old(self).0 < u64::MAX,
        ensures
            final(self).0 == old(self).0 + 1,
    {
        self.0 = self.0 + 1;
    }
}

impl PhysPageNum {
    /// The page number that the low 44 bits of `v` name.
    pub fn from_u64(v: u64) -> (r: PhysPageNum)
        ensures
            r.0 == v % PPN_LIMIT,
    {
        assert(v & 0xfff_ffff_ffff == v % 0x1000_0000_0000) by (bit_vector);
        PhysPageNum(v & 0xfff_ffff_ffff)
    }

    /// The first address of this frame.
    pub fn start_addr(self) -> (r: PhysAddr)
        requires
            self.0 < PPN_LIMIT,
        ensures
            r.0 == self.0 * PAGE_SIZE_U64,
    {
        PhysAddr(self.0 * PAGE_SIZE_U64)
    }
}

/// A half-open interval `[start, end)` of virtual page numbers.
#[derive(Copy, Clone, Debug, PartialEq, Eq, Structural)]
pub struct VPNRange {
    l: VirtPageNum,
    r: VirtPageNum,
}

impl VPNRange {
    /// The first page number of the range.
    pub closed spec fn start(self) -> int {
        self.l.0 as int
    }

    /// The page number just past the range.
    pub closed spec fn end(self) -> int {
        self.r.0 as int
    }

    /// A range never ends before it starts.
    pub open spec fn wf(self) -> bool {
        self.start() <= self.end()
    }

    /// Whether `vpn` lies in the range.
    pub open spec fn contains(self, vpn: int) -> bool {
        self.start() <= vpn < self.end()
    }

    /// The number of pages in the range.
    pub open spec fn spec_len(self) -> int {
        self.end() - self.start()
    }

    /// The page numbers of the range, in ascending order.
    pub open spec fn view(self) -> Seq<int> {
        Seq::new(self.spec_len() as nat, |i: int| self.start() + i)
    }

    /// The ends of a range are page numbers.
    pub proof fn lemma_bounds(self)
        ensures
            0 <= self.start() <= u64::MAX,
            0 <= self.end() <= u64::MAX,
    {
    }

    /// The range from `start` up to, not including, `end`.
    pub fn new(start: VirtPageNum, end: VirtPageNum) -> (r: VPNRange)
        requires
            start.0 <= end.0,
        ensures
            r.wf(),
            r.start() == start.0,
            r.end() == end.0,
    {
        VPNRange { l: start, r: end }
    }

    /// The range of `pages` pages that begins at `start`.
    pub fn by_len(start: VirtPageNum, pages: u64) -> (r: VPNRange)
        requires
            start.0 + pages <= u64::MAX,
        ensures
            r.wf(),
            r.start() == start.0,
            r.end() == start.0 + pages,
    {
        VPNRange { l: start, r: VirtPageNum(start.0 + pages) }
    }

    /// The first page number of the range.
    pub fn get_start(&self) -> (r: VirtPageNum)
        ensures
            r.0 == self.start(),
    {
        self.l
    }

    /// The page number just past the range.
    pub fn get_end(&self) -> (r: VirtPageNum)
        ensures
            r.0 == self.end(),
    {
        self.r
    }

    /// The number of pages in the range.
    pub fn len(&self) -> (r: u64)
        requires
            self.wf(),
        ensures
            r == self.spec_len(),
    {
        self.r.0 - self.l.0
    }

    /// Whether `vpn` lies in the range.
    pub fn contains_vpn(&self, vpn: VirtPageNum) -> (r: bool)
        ensures
            r == self.contains(vpn.0 as int),
    {
        self.l.0 <= vpn.0 && vpn.0 < self.r.0
    }

    /// The bounds of the pages that lie in both ranges: the later start, and
    /// the earlier end or, where that lies before it, the later start again.
    pub open spec fn intersection_bounds(self, other: VPNRange) -> (int, int) {
        let s = if self.start() >= other.start() {
            self.start()
        } else {
            other.start()
        };
        let e = if self.end() <= other.end() {
            self.end()
        } else {
            other.end()
        };
        (
            s,
            if e >= s {
                e
            } else {
                s
            },
        )
    }

    /// The pages that lie in both ranges. Where there are none, the result is
    /// the empty range at the later of the two starts.
    pub fn intersection(&self, other: &VPNRange) -> (r: VPNRange)
        ensures
            r.wf(),
            forall|vpn: int| r.contains(vpn) <==> self.contains(vpn) && other.contains(vpn),
            r.start() == self.intersection_bounds(*other).0,
            r.end() == self.intersection_bounds(*other).1,
    {
        let s: u64 = if self.l.0 >= other.l.0 { self.l.0 } else { other.l.0 };
        let e: u64 = if self.r.0 <= other.r.0 { self.r.0 } else { other.r.0 };
        if e >= s {
            VPNRange { l: VirtPageNum(s), r: VirtPageNum(e) }
        } else {
            VPNRange { l: VirtPageNum(s), r: VirtPageNum(s) }
        }
    }

    /// Whether the two ranges share a page.
    pub fn overlaps(&self, other: &VPNRange) -> (r: bool)
        ensures
            r == (exists|vpn: int| self.contains(vpn) && other.contains(vpn)),
    {
        let s: u64 = if self.l.0 >= other.l.0 { self.l.0 } else { other.l.0 };
        let e: u64 = if self.r.0 <= other.r.0 { self.r.0 } else { other.r.0 };
        proof {
            if s < e {
                assert(self.contains(s as int) && other.contains(s as int));
            }
        }
        s < e
    }
}

} // verus!

//! Map areas: contiguous ranges of virtual pages with one kind of mapping and
//! one set of permissions.

use vstd::prelude::*;
use crate::config::PAGE_SIZE;
use crate::mm::address::{
    PhysPageNum,
    VPNRange,
    VirtAddr,
    VirtPageNum,
    PPN_LIMIT,
    VA_LIMIT,
    VPN_LIMIT,
};
use crate::mm::error::{MMError, MMResult, PageError};
use crate::mm::flags::{MapPermission, PTEFlags, PTE_V};
use crate::mm::frame_allocator::{frame_alloc, frame_dealloc, FrameAllocator, FrameTracker};
use crate::mm::frame_map::FrameMap;
use crate::mm::page_table::{PageTable, PageTableEntry};

verus! {

/// How the pages of an area are backed.
#[derive(Copy, Clone, Debug, PartialEq, Eq, Structural)]
pub enum MapType {
    /// Each page is mapped to the frame of the same number; no frame is owned.
    Identical,
    /// Each page is backed by a frame of its own, allocated when the page is
    /// first needed.
    Framed,
}

/// A contiguous piece of virtual memory: its range of pages, how they are
/// backed, their permissions, and the frames of the pages that were
/// materialized so far.
pub struct MapArea {
    vpn_range: VPNRange,
    data_frames: FrameMap,
    map_type: MapType,
    map_perm: MapPermission,
}

/// A page of zero bytes.
pub open spec fn zero_page() -> Seq<u8> {
    Seq::new(PAGE_SIZE as nat, |i: int| 0u8)
}

impl MapArea {
    /// The range of pages of the area.
    pub closed spec fn range(&self) -> VPNRange {
        self.vpn_range
    }

    /// The frames of the materialized pages, by page number.
    pub closed spec fn frames(&self) -> Map<u64, FrameTracker> {
        self.data_frames@
    }

    /// How the pages are backed.
    pub closed spec fn spec_map_type(&self) -> MapType {
        self.map_type
    }

    /// The permissions of the pages.
    pub closed spec fn perm(&self) -> MapPermission {
        self.map_perm
    }

    /// The numbers of the frames that the area owns.
    pub open spec fn ppns(&self) -> Set<u64> {
        Set::new(
            |p: u64|
                exists|v: u64| #[trigger]
                    self.frames().contains_key(v) && self.frames()[v].ppn().0 == p,
        )
    }

    /// The invariant of an area: every materialized page lies in the range
    /// and has a whole frame, whose number is a physical page number; an
    /// identity-mapped area owns no frame; and a range that holds a page
    /// ends within the virtual page numbers.
    pub open spec fn wf(&self) -> bool {
        &&& self.range().wf()
        &&& self.range().start() < self.range().end() ==> self.range().end() <= VPN_LIMIT
        &&& self.perm().wf()
        &&& self.frames().dom().finite()
        &&& forall|v: u64| #[trigger]
            self.frames().contains_key(v) ==> self.range().contains(v as int)
                && self.frames()[v].wf() && self.frames()[v].ppn().0 < PPN_LIMIT
        &&& self.spec_map_type() is Identical ==> self.frames() == Map::<u64, FrameTracker>::empty()
    }

    /// Every page that has a frame lies in the range of the area.
    pub proof fn lemma_frame_in_range(&self, vpn: u64)
        requires
            self.wf(),
            self.frames().contains_key(vpn),
        ensures
            self.range().contains(vpn as int),
            self.spec_map_type() is Framed,
    {
    }

    /// Whether the two areas have the same range, kind, permissions and
    /// frames.
    pub open spec fn same_as(&self, other: &MapArea) -> bool {
        &&& self.range() == other.range()
        &&& self.spec_map_type() == other.spec_map_type()
        &&& self.perm() == other.perm()
        &&& self.frames() == other.frames()
    }

    /// The leaf entry that the area gives to a page backed by the frame
    /// `ppn`: that frame, the area's permissions, and the flag `V`.
    pub open spec fn pte_for(&self, ppn: PhysPageNum) -> PageTableEntry {
        PageTableEntry::spec_new(ppn, PTEFlags { bits: self.perm().bits() | PTE_V })
    }

    /// Whether the page table maps every materialized page of the area to
    /// its frame, with the area's permissions.
    pub open spec fn mapped_in(&self, pt: &PageTable) -> bool {
        forall|v: u64| #[trigger]
            self.frames().contains_key(v) ==> pt.entry(VirtPageNum(v)) == self.pte_for(
                self.frames()[v].ppn(),
            )
    }

    /// The entry that an area gives to a page is valid, and carries the
    /// permissions of the area and the flag `V`.
    pub proof fn lemma_pte_for_valid(&self, ppn: PhysPageNum)
        ensures
            self.pte_for(ppn).spec_is_valid(),
            self.pte_for(ppn).spec_flags().bits == self.perm().bits() | PTE_V,
            self.pte_for(ppn).spec_ppn().0 == ppn.0 % PPN_LIMIT,
    {
        let b: u8 = self.perm().bits();
        assert((b | 1u8) % 2 == 1) by (bit_vector);
        PageTableEntry::lemma_new(ppn, PTEFlags { bits: b | PTE_V });
    }

    /// What [`MapArea::ensure_page_raw`] returns for the page `vpn` when
    /// `free` frames are left.
    pub open spec fn ensure_page_result(
        &self,
        pt: &PageTable,
        free: nat,
        vpn: VirtPageNum,
    ) -> MMResult<()> {
        if self.frames().contains_key(vpn.0) {
            Ok(())
        } else if free == 0 {
            Err(MMError::NotEnoughMemory)
        } else {
            pt.map_result((free - 1) as nat, vpn)
        }
    }

    /// `self` is `pre` with the page `vpn` newly backed by a zero-filled
    /// frame of number `ppn`.
    pub open spec fn materialized_from(&self, pre: &MapArea, vpn: VirtPageNum, ppn: u64) -> bool {
        &&& self.range() == pre.range()
        &&& self.spec_map_type() == pre.spec_map_type()
        &&& self.perm() == pre.perm()
        &&& !pre.frames().contains_key(vpn.0)
        &&& self.frames().contains_key(vpn.0)
        &&& self.frames() == pre.frames().insert(vpn.0, self.frames()[vpn.0])
        &&& self.frames()[vpn.0].ppn().0 == ppn
        &&& self.frames()[vpn.0]@ == zero_page()
    }

    /// `post` and its page table and allocator are what `pre` and its own
    /// become once every page of `[lo, hi)` has its frame: the pages that had
    /// none are backed by zero-filled frames that were free before and differ
    /// from one another, the page table maps each of them, and nothing else
    /// has changed.
    pub open spec fn ensured(
        pre: &MapArea,
        pre_pt: &PageTable,
        pre_alloc: &FrameAllocator,
        post: &MapArea,
        post_pt: &PageTable,
        post_alloc: &FrameAllocator,
        lo: int,
        hi: int,
    ) -> bool {
        &&& post.range() == pre.range()
        &&& post.spec_map_type() == pre.spec_map_type()
        &&& post.perm() == pre.perm()
        &&& forall|v: u64|
            #[trigger] post.frames().contains_key(v) <==> pre.frames().contains_key(v) || lo <= v
                < hi
        &&& forall|v: u64| #[trigger]
            pre.frames().contains_key(v) ==> post.frames()[v] == pre.frames()[v]
        &&& forall|v: u64|
            lo <= v < hi && !pre.frames().contains_key(v) ==> {
                &&& (#[trigger] post.frames()[v])@ == zero_page()
                &&& !pre_alloc.allocated().contains(post.frames()[v].ppn().0)
                &&& post_alloc.allocated().contains(post.frames()[v].ppn().0)
            }
        &&& forall|v: u64, w: u64|
            lo <= v < hi && lo <= w < hi && v != w && !pre.frames().contains_key(v)
                && !pre.frames().contains_key(w) ==> (#[trigger] post.frames()[v]).ppn() != (
            #[trigger] post.frames()[w]).ppn()
        &&& post_pt.spec_root_ppn() == pre_pt.spec_root_ppn()
        &&& forall|v: VirtPageNum|
            v.0 < VPN_LIMIT ==> #[trigger] post_pt.entry(v) == if lo <= v.0 < hi
                && !pre.frames().contains_key(v.0) {
                post.pte_for(post.frames()[v.0].ppn())
            } else {
                pre_pt.entry(v)
            }
        &&& pre_alloc.allocated().subset_of(post_alloc.allocated())
        &&& post_pt.frames() == pre_pt.frames().union(
            post_alloc.allocated().difference(pre_alloc.allocated()).difference(
                Self::fresh_ppns(pre, post, lo, hi),
            ),
        )
        &&& post_alloc.first() == pre_alloc.first()
        &&& post_alloc.limit() == pre_alloc.limit()
        &&& pre_alloc.free_count() - 3 * (hi - lo) <= post_alloc.free_count()
            <= pre_alloc.free_count()
    }

    /// The numbers of the frames that back the pages of `[lo, hi)` in `post`
    /// and that `pre` did not have.
    pub open spec fn fresh_ppns(pre: &MapArea, post: &MapArea, lo: int, hi: int) -> Set<u64> {
        Set::new(
            |p: u64|
                exists|v: u64|
                    lo <= v < hi && !pre.frames().contains_key(v) && (#[trigger] post.frames()[v]).ppn().0
                        == p,
        )
    }

    /// What [`MapArea::ensure_range`] returns, and in which state it leaves
    /// the area, its page table and the allocator, when it is to materialize
    /// the pages `[lo, hi)`: either all of them have their frames, or the
    /// pages before some page `k` have, and materializing `k` fails with the
    /// error that is returned.
    pub open spec fn ensure_outcome(
        pre: &MapArea,
        pre_pt: &PageTable,
        pre_alloc: &FrameAllocator,
        post: &MapArea,
        post_pt: &PageTable,
        post_alloc: &FrameAllocator,
        lo: int,
        hi: int,
        r: MMResult<()>,
    ) -> bool {
        match r {
            Ok(_) => Self::ensured(pre, pre_pt, pre_alloc, post, post_pt, post_alloc, lo, hi),
            Err(e) => exists|k: u64|
                {
                    &&& lo <= k < hi
                    &&& #[trigger] Self::ensured(
                        pre,
                        pre_pt,
                        pre_alloc,
                        post,
                        post_pt,
                        post_alloc,
                        lo,
                        k as int,
                    )
                    &&& post.ensure_page_result(post_pt, post_alloc.free_count(), VirtPageNum(k))
                        == Err::<(), MMError>(e)
                },
        }
    }

    /// The numbers of the frames that back the pages of `[lo, hi)`.
    pub open spec fn ppns_in(&self, lo: int, hi: int) -> Set<u64> {
        Set::new(
            |p: u64|
                exists|v: u64|
                    lo <= v < hi && #[trigger] self.frames().contains_key(v)
                        && self.frames()[v].ppn().0 == p,
        )
    }

    /// `post_pt` and `post_alloc` are what `pre_pt` and `pre_alloc` become
    /// once every page of `[lo, hi)` is mapped to the frame of its own
    /// number, with the area's permissions. None of these pages had a valid
    /// leaf entry before.
    pub open spec fn identity_mapped(
        &self,
        pre_pt: &PageTable,
        pre_alloc: &FrameAllocator,
        post_pt: &PageTable,
        post_alloc: &FrameAllocator,
        lo: int,
        hi: int,
    ) -> bool {
        &&& post_pt.spec_root_ppn() == pre_pt.spec_root_ppn()
        &&& forall|v: VirtPageNum|
            lo <= v.0 < hi ==> !(#[trigger] pre_pt.entry(v)).spec_is_valid()
        &&& forall|v: VirtPageNum|
            v.0 < VPN_LIMIT ==> #[trigger] post_pt.entry(v) == if lo <= v.0 < hi {
                self.pte_for(PhysPageNum(v.0))
            } else {
                pre_pt.entry(v)
            }
        &&& pre_alloc.allocated().subset_of(post_alloc.allocated())
        &&& post_pt.frames() == pre_pt.frames().union(
            post_alloc.allocated().difference(pre_alloc.allocated()),
        )
        &&& post_alloc.first() == pre_alloc.first()
        &&& post_alloc.limit() == pre_alloc.limit()
        &&& pre_alloc.free_count() - 2 * (hi - lo) <= post_alloc.free_count()
            <= pre_alloc.free_count()
    }

    /// What an identity mapping of the pages `[lo, hi)` returns and leaves
    /// behind: either all of them are mapped, or the pages before some page
    /// `k` are, and mapping `k` fails with the error that is returned. So
    /// the mapping fails whenever one of the pages has a valid leaf entry
    /// already, and stops at the first of them at the latest.
    pub open spec fn identity_outcome(
        &self,
        pre_pt: &PageTable,
        pre_alloc: &FrameAllocator,
        post_pt: &PageTable,
        post_alloc: &FrameAllocator,
        lo: int,
        hi: int,
        r: MMResult<()>,
    ) -> bool {
        match r {
            Ok(_) => self.identity_mapped(pre_pt, pre_alloc, post_pt, post_alloc, lo, hi),
            Err(e) => exists|k: u64|
                {
                    &&& lo <= k < hi
                    &&& #[trigger] self.identity_mapped(
                        pre_pt,
                        pre_alloc,
                        post_pt,
                        post_alloc,
                        lo,
                        k as int,
                    )
                    &&& post_pt.map_result(post_alloc.free_count(), VirtPageNum(k)) == Err::<
                        (),
                        MMError,
                    >(e)
                },
        }
    }

    /// `post` and its page table and allocator are what `pre` and its own
    /// become once every page of `[lo, hi)` is unmapped: their frames are
    /// given back, their leaf entries are empty, and nothing else has
    /// changed.
    pub open spec fn unmapped(
        pre: &MapArea,
        pre_pt: &PageTable,
        pre_alloc: &FrameAllocator,
        post: &MapArea,
        post_pt: &PageTable,
        post_alloc: &FrameAllocator,
        lo: int,
        hi: int,
    ) -> bool {
        &&& post.spec_map_type() == pre.spec_map_type()
        &&& post.perm() == pre.perm()
        &&& post.frames() == pre.frames().remove_keys(Set::new(|v: u64| lo <= v < hi))
        &&& post_pt.spec_root_ppn() == pre_pt.spec_root_ppn()
        &&& forall|v: VirtPageNum|
            v.0 < VPN_LIMIT ==> #[trigger] post_pt.entry(v) == if lo <= v.0 < hi {
                PageTableEntry::spec_empty()
            } else {
                pre_pt.entry(v)
            }
        &&& forall|v: VirtPageNum| #[trigger] post_pt.has_dir(v) == pre_pt.has_dir(v)
        &&& forall|v: VirtPageNum| #[trigger] post_pt.tables_needed(v) == pre_pt.tables_needed(v)
        &&& post_pt.frames() == pre_pt.frames()
        &&& post_alloc.allocated() == pre_alloc.allocated().difference(pre.ppns_in(lo, hi))
        &&& post_alloc.first() == pre_alloc.first()
        &&& post_alloc.limit() == pre_alloc.limit()
    }

    /// The number of pages that `len` bytes take.
    pub open spec fn pages_of(len: nat) -> int {
        (len + PAGE_SIZE - 1) / (PAGE_SIZE as int)
    }

    /// The bytes of page `i` of an area after `data` was copied to its
    /// start, where the page held `before`: the part of `data` that falls on
    /// the page, and after it what the page held.
    pub open spec fn page_after_copy(before: Seq<u8>, data: Seq<u8>, i: int) -> Seq<u8> {
        if 0 <= i && i * PAGE_SIZE < data.len() {
            let end = if (i + 1) * PAGE_SIZE <= data.len() {
                (i + 1) * PAGE_SIZE
            } else {
                data.len() as int
            };
            data.subrange(i * PAGE_SIZE, end) + before.subrange(end - i * PAGE_SIZE, PAGE_SIZE as int)
        } else {
            before
        }
    }

    /// `self` is `mid` after `data` was copied to the start of the area:
    /// the same pages have the same frames, and each page holds what
    /// [`MapArea::page_after_copy`] says.
    pub open spec fn holds_data(&self, mid: &MapArea, data: Seq<u8>) -> bool {
        &&& self.range() == mid.range()
        &&& self.spec_map_type() == mid.spec_map_type()
        &&& self.perm() == mid.perm()
        &&& self.frames().dom() == mid.frames().dom()
        &&& forall|v: u64| #[trigger]
            self.frames().contains_key(v) ==> {
                &&& self.frames()[v].ppn() == mid.frames()[v].ppn()
                &&& self.frames()[v]@ == Self::page_after_copy(
                    mid.frames()[v]@,
                    data,
                    v - self.range().start(),
                )
            }
    }

    /// What [`MapArea::copy_data`] returns and leaves behind. It first
    /// materializes the pages that `data` takes, with the outcome of
    /// [`MapArea::ensure_range`]; where that succeeds, it copies `data`
    /// into them.
    pub open spec fn copy_outcome(
        pre: &MapArea,
        pre_pt: &PageTable,
        pre_alloc: &FrameAllocator,
        post: &MapArea,
        post_pt: &PageTable,
        post_alloc: &FrameAllocator,
        data: Seq<u8>,
        r: MMResult<()>,
    ) -> bool {
        let lo = pre.range().start();
        let hi = lo + Self::pages_of(data.len());
        match r {
            Ok(_) => exists|mid: MapArea|
                {
                    &&& #[trigger] Self::ensured(
                        pre,
                        pre_pt,
                        pre_alloc,
                        &mid,
                        post_pt,
                        post_alloc,
                        lo,
                        hi,
                    )
                    &&& post.holds_data(&mid, data)
                },
            Err(_) => Self::ensure_outcome(
                pre,
                pre_pt,
                pre_alloc,
                post,
                post_pt,
                post_alloc,
                lo,
                hi,
                r,
            ),
        }
    }

    /// The range of pages of the area.
    pub fn get_range(&self) -> (r: VPNRange)
        ensures
            r == self.range(),
    {
        self.vpn_range
    }

    /// How the pages are backed.
    #[verifier::when_used_as_spec(spec_map_type)]
    pub fn map_type(&self) -> (r: MapType)
        ensures
            r == self.spec_map_type(),
    {
        self.map_type
    }

    /// The permissions of the pages.
    pub fn map_perm(&self) -> (r: MapPermission)
        ensures
            r == self.perm(),
    {
        self.map_perm
    }

    /// The area of the pages that hold an address of `[start_va, end_va)`,
    /// with no page materialized.
    pub fn new(start_va: VirtAddr, end_va: VirtAddr, map_type: MapType, map_perm: MapPermission) -> (r:
        MapArea)
        requires
            start_va.0 <= end_va.0 <= VA_LIMIT,
            map_perm.wf(),
        ensures
            r.wf(),
            r.range().start() == start_va.spec_floor().0,
            r.range().end() == end_va.spec_ceil().0,
            r.frames() == Map::<u64, FrameTracker>::empty(),
            r.spec_map_type() == map_type,
            r.perm() == map_perm,
    {
        let start_vpn: VirtPageNum = start_va.floor();
        let end_vpn: VirtPageNum = end_va.ceil();
        MapArea {
            vpn_range: VPNRange::new(start_vpn, end_vpn),
            data_frames: FrameMap::new(),
            map_type,
            map_perm,
        }
    }

    /// Makes sure that the page `vpn` of a framed area has a frame and a
    /// leaf entry. A page that has its frame is left alone. Otherwise a
    /// zero-filled frame is allocated and mapped; where the mapping fails,
    /// the frame is given back, and nothing has changed.
    pub fn ensure_page_raw(
        &mut self,
        allocator: &mut FrameAllocator,
        page_table: &mut PageTable,
        vpn: VirtPageNum,
    ) -> (r: MMResult<()>)
        requires
            old(self).wf(),
            old(self).spec_map_type() is Framed,
            old(self).range().contains(vpn.0 as int),
            old(self).mapped_in(old(page_table)),
            old(page_table).wf(),
            old(allocator).wf(),
        ensures
            final(self).wf(),
            final(page_table).wf(),
            final(allocator).wf(),
            final(self).mapped_in(final(page_table)),
            final(allocator).first() == old(allocator).first(),
            final(allocator).limit() == old(allocator).limit(),
            r == old(self).ensure_page_result(old(page_table), old(allocator).free_count(), vpn),
            r is Err || old(self).frames().contains_key(vpn.0) ==> {
                &&& final(self).same_as(old(self))
                &&& *final(page_table) == *old(page_table)
                &&& final(allocator).same_as(old(allocator))
            },
            r is Ok && !old(self).frames().contains_key(vpn.0) ==> {
                &&& final(self).materialized_from(old(self), vpn, old(allocator).next())
                &&& final(page_table).mapped_from(
                    old(page_table),
                    vpn,
                    old(self).pte_for(PhysPageNum(old(allocator).next())),
                    final(allocator).allocated().difference(old(allocator).allocated()).remove(
                        old(allocator).next(),
                    ),
                )
                &&& old(allocator).allocated().subset_of(final(allocator).allocated())
                &&& final(allocator).allocated().contains(old(allocator).next())
                &&& !old(allocator).allocated().contains(old(allocator).next())
                &&& final(allocator).free_count() == old(allocator).free_count() - 1 - old(
                    page_table,
                ).tables_needed(vpn)
            },
    {
        if !self.data_frames.contains_key(vpn.0) {
            let frame = match frame_alloc(allocator) {
                Some(f) => f,
                None => {
                    return Err(MMError::NotEnoughMemory);
                },
            };
            let ppn = frame.ppn();
            let ghost alloc1 = *allocator;
            self.data_frames.insert(vpn.0, frame);
            let pte_flags = PTEFlags::from_bits(self.map_perm.bits()).unwrap();
            match page_table.map(allocator, vpn, ppn, pte_flags) {
                Ok(_) => {
                    proof {
                        let a0 = old(allocator).allocated();
                        let a2 = allocator.allocated();
                        assert(a2.difference(alloc1.allocated()) =~= a2.difference(a0).remove(
                            ppn.0,
                        ));
                        assert forall|v: u64| #[trigger]
                            self.frames().contains_key(v) implies page_table.entry(VirtPageNum(v))
                            == self.pte_for(self.frames()[v].ppn()) by {
                            if v != vpn.0 {
                                old(self).lemma_pte_for_valid(old(self).frames()[v].ppn());
                            }
                        }
                    }
                    return Ok(());
                },
                Err(e) => {
                    match self.data_frames.remove(vpn.0) {
                        Some(f) => {
                            frame_dealloc(allocator, f);
                        },
                        None => {},
                    }
                    proof {
                        assert(self.frames() =~= old(self).frames());
                        assert(allocator.allocated() =~= old(allocator).allocated());
                    }
                    return Err(e);
                },
            }
        }
        Ok(())
    }

    /// Materializes every page of the area that lies in `vpn_range`, in
    /// ascending order, and stops at the first page that cannot be
    /// materialized. An identity-mapped area has nothing to materialize.
    pub fn ensure_range(
        &mut self,
        allocator: &mut FrameAllocator,
        page_table: &mut PageTable,
        vpn_range: VPNRange,
    ) -> (r: MMResult<()>)
        requires
            old(self).wf(),
            old(self).mapped_in(old(page_table)),
            old(page_table).wf(),
            old(allocator).wf(),
        ensures
            final(self).wf(),
            final(page_table).wf(),
            final(allocator).wf(),
            final(self).mapped_in(final(page_table)),
            old(self).spec_map_type() is Identical ==> {
                &&& r is Ok
                &&& *final(self) == *old(self)
                &&& *final(page_table) == *old(page_table)
                &&& *final(allocator) == *old(allocator)
            },
            old(self).spec_map_type() is Framed ==> Self::ensure_outcome(
                old(self),
                old(page_table),
                old(allocator),
                final(self),
                final(page_table),
                final(allocator),
                old(self).range().intersection_bounds(vpn_range).0,
                old(self).range().intersection_bounds(vpn_range).1,
                r,
            ),
    {
        match self.map_type {
            MapType::Identical => Ok(()),
            MapType::Framed => {
                let both = self.vpn_range.intersection(&vpn_range);
                let mut vpn: VirtPageNum = both.get_start();
                let end: VirtPageNum = both.get_end();
                let ghost lo = vpn.0 as int;
                let ghost hi = end.0 as int;
                proof {
                    assert(Self::fresh_ppns(old(self), self, lo, lo) =~= Set::<u64>::empty());
                    assert(page_table.frames() =~= page_table.frames().union(
                        allocator.allocated().difference(allocator.allocated()).difference(
                            Self::fresh_ppns(old(self), self, lo, lo),
                        ),
                    ));
                }
                while vpn.0 < end.0
                    invariant
                        lo <= vpn.0 <= hi,
                        hi == end.0,
                        lo == old(self).range().intersection_bounds(vpn_range).0,
                        hi == old(self).range().intersection_bounds(vpn_range).1,
                        lo == hi || (old(self).range().start() <= lo && hi <= old(
                            self,
                        ).range().end()),
                        old(self).wf(),
                        self.wf(),
                        self.spec_map_type() is Framed,
                        page_table.wf(),
                        allocator.wf(),
                        self.mapped_in(page_table),
                        Self::ensured(
                            old(self),
                            old(page_table),
                            old(allocator),
                            self,
                            page_table,
                            allocator,
                            lo,
                            vpn.0 as int,
                        ),
                    decreases end.0 - vpn.0,
                {
                    let ghost mid = *self;
                    let ghost mid_pt = *page_table;
                    let ghost mid_alloc = *allocator;
                    match self.ensure_page_raw(allocator, page_table, vpn) {
                        Ok(_) => {},
                        Err(e) => {
                            proof {
                                Self::lemma_ensured_same(
                                    old(self),
                                    old(page_table),
                                    old(allocator),
                                    &mid,
                                    &mid_pt,
                                    &mid_alloc,
                                    self,
                                    page_table,
                                    allocator,
                                    lo,
                                    vpn.0 as int,
                                );
                                let k: u64 = vpn.0;
                                assert(Self::ensured(
                                    old(self),
                                    old(page_table),
                                    old(allocator),
                                    self,
                                    page_table,
                                    allocator,
                                    lo,
                                    k as int,
                                ));
                                assert(self.ensure_page_result(
                                    page_table,
                                    allocator.free_count(),
                                    VirtPageNum(k),
                                ) == Err::<(), MMError>(e));
                            }
                            return Err(e);
                        },
                    }
                    proof {
                        Self::lemma_ensured_step(
                            old(self),
                            old(page_table),
                            old(allocator),
                            &mid,
                            &mid_pt,
                            &mid_alloc,
                            self,
                            page_table,
                            allocator,
                            lo,
                            vpn,
                        );
                    }
                    vpn.step();
                }
                Ok(())
            },
        }
    }

    /// Materializes every page of the area.
    pub fn ensure_all(&mut self, allocator: &mut FrameAllocator, page_table: &mut PageTable) -> (r:
        MMResult<()>)
        requires
            old(self).wf(),
            old(self).mapped_in(old(page_table)),
            old(page_table).wf(),
            old(allocator).wf(),
        ensures
            final(self).wf(),
            final(page_table).wf(),
            final(allocator).wf(),
            final(self).mapped_in(final(page_table)),
            old(self).spec_map_type() is Identical ==> {
                &&& r is Ok
                &&& *final(self) == *old(self)
                &&& *final(page_table) == *old(page_table)
                &&& *final(allocator) == *old(allocator)
            },
            old(self).spec_map_type() is Framed ==> Self::ensure_outcome(
                old(self),
                old(page_table),
                old(allocator),
                final(self),
                final(page_table),
                final(allocator),
                old(self).range().start(),
                old(self).range().end(),
                r,
            ),
    {
        let whole = self.vpn_range;
        self.ensure_range(allocator, page_table, whole)
    }

    /// Maps the page `vpn` of an identity-mapped area to the frame of the
    /// same number. A framed area is left alone: its pages get their frames
    /// when they are materialized.
    pub fn map_one(
        &mut self,
        allocator: &mut FrameAllocator,
        page_table: &mut PageTable,
        vpn: VirtPageNum,
    ) -> (r: MMResult<()>)
        requires
            old(self).wf(),
            old(page_table).wf(),
            old(allocator).wf(),
        ensures
            *final(self) == *old(self),
            final(page_table).wf(),
            final(allocator).wf(),
            final(allocator).first() == old(allocator).first(),
            final(allocator).limit() == old(allocator).limit(),
            r == if old(self).spec_map_type() is Framed {
                Ok::<(), MMError>(())
            } else {
                old(page_table).map_result(old(allocator).free_count(), vpn)
            },
            r is Err || old(self).spec_map_type() is Framed ==> *final(allocator) == *old(
                allocator,
            ) && *final(page_table) == *old(page_table),
            r is Ok && old(self).spec_map_type() is Identical ==> {
                &&& final(page_table).mapped_from(
                    old(page_table),
                    vpn,
                    old(self).pte_for(PhysPageNum(vpn.0)),
                    final(allocator).allocated().difference(old(allocator).allocated()),
                )
                &&& final(allocator).free_count() == old(allocator).free_count() - old(
                    page_table,
                ).tables_needed(vpn)
                &&& old(allocator).allocated().subset_of(final(allocator).allocated())
            },
    {
        match self.map_type {
            MapType::Identical => {
                let ppn = PhysPageNum(vpn.0);
                let pte_flags = PTEFlags::from_bits(self.map_perm.bits()).unwrap();
                page_table.map(allocator, vpn, ppn, pte_flags)
            },
            MapType::Framed => Ok(()),
        }
    }

    /// Unmaps the page `vpn`: gives its frame back, if the area holds one for
    /// it, and clears its leaf entry, if it has a valid one. A page that was
    /// never mapped is no error.
    pub fn unmap_one(
        &mut self,
        allocator: &mut FrameAllocator,
        page_table: &mut PageTable,
        vpn: VirtPageNum,
    ) -> (r: MMResult<()>)
        requires
            old(self).wf(),
            old(page_table).wf(),
            old(allocator).wf(),
        ensures
            r == Ok::<(), MMError>(()),
            final(self).wf(),
            final(page_table).wf(),
            final(allocator).wf(),
            final(self).range() == old(self).range(),
            final(self).spec_map_type() == old(self).spec_map_type(),
            final(self).perm() == old(self).perm(),
            final(self).frames() == old(self).frames().remove(vpn.0),
            old(page_table).entry(vpn).spec_is_valid() ==> final(page_table).unmapped_from(
                old(page_table),
                vpn,
            ),
            !old(page_table).entry(vpn).spec_is_valid() ==> *final(page_table) == *old(page_table),
            final(allocator).first() == old(allocator).first(),
            final(allocator).limit() == old(allocator).limit(),
            old(self).frames().contains_key(vpn.0) ==> final(allocator).allocated() == old(
                allocator,
            ).allocated().remove(old(self).frames()[vpn.0].ppn().0),
            !old(self).frames().contains_key(vpn.0) ==> *final(allocator) == *old(allocator),
            old(self).mapped_in(old(page_table)) && vpn.0 < VPN_LIMIT ==> final(self).mapped_in(
                final(page_table),
            ),
            old(self).spec_map_type() is Identical ==> *final(self) == *old(self),
    {
        if self.map_type == MapType::Framed {
            match self.data_frames.remove(vpn.0) {
                Some(frame) => {
                    frame_dealloc(allocator, frame);
                },
                None => {},
            }
        }
        proof {
            assert(self.frames() =~= old(self).frames().remove(vpn.0));
            if !old(page_table).has_dir(vpn) {
                old(page_table).lemma_entry_without_dir(vpn);
            }
        }
        let r = match page_table.unmap(vpn) {
            Ok(_) => Ok(()),
            Err(MMError::PageError(PageError::InvalidDirPage)) => Ok(()),
            Err(MMError::PageError(PageError::PageInvalid)) => Ok(()),
            Err(e) => Err(e),
        };
        proof {
            if old(self).mapped_in(old(page_table)) && vpn.0 < VPN_LIMIT {
                assert forall|v: u64| #[trigger]
                    self.frames().contains_key(v) implies page_table.entry(VirtPageNum(v))
                    == self.pte_for(self.frames()[v].ppn()) by {
                    assert(old(self).frames().contains_key(v));
                    if PageTable::same_slot(VirtPageNum(v), vpn) {
                        PageTable::lemma_slot_injective(VirtPageNum(v), vpn);
                    }
                }
            }
        }
        r
    }

    /// Maps the whole area. For an identity-mapped area every page is
    /// mapped, in ascending order, until one fails; a framed area is only
    /// announced, and no frame is allocated for it.
    pub fn map(&mut self, allocator: &mut FrameAllocator, page_table: &mut PageTable) -> (r:
        MMResult<()>)
        requires
            old(self).wf(),
            old(page_table).wf(),
            old(allocator).wf(),
        ensures
            *final(self) == *old(self),
            final(page_table).wf(),
            final(allocator).wf(),
            old(self).spec_map_type() is Framed ==> {
                &&& r is Ok
                &&& *final(page_table) == *old(page_table)
                &&& *final(allocator) == *old(allocator)
            },
            old(self).spec_map_type() is Identical ==> old(self).identity_outcome(
                old(page_table),
                old(allocator),
                final(page_table),
                final(allocator),
                old(self).range().start(),
                old(self).range().end(),
                r,
            ),
    {
        let start = self.vpn_range.get_start();
        let end = self.vpn_range.get_end();
        self.map_pages(allocator, page_table, start, end)
    }

    /// Applies [`MapArea::map_one`] to the pages `[start, end)` in ascending
    /// order, until one fails.
    pub fn map_pages(
        &mut self,
        allocator: &mut FrameAllocator,
        page_table: &mut PageTable,
        start: VirtPageNum,
        end: VirtPageNum,
    ) -> (r: MMResult<()>)
        requires
            old(self).wf(),
            old(page_table).wf(),
            old(allocator).wf(),
            start.0 <= end.0,
            start.0 < end.0 ==> end.0 <= VPN_LIMIT,
        ensures
            *final(self) == *old(self),
            final(page_table).wf(),
            final(allocator).wf(),
            old(self).spec_map_type() is Framed ==> {
                &&& r is Ok
                &&& *final(page_table) == *old(page_table)
                &&& *final(allocator) == *old(allocator)
            },
            old(self).spec_map_type() is Identical ==> old(self).identity_outcome(
                old(page_table),
                old(allocator),
                final(page_table),
                final(allocator),
                start.0 as int,
                end.0 as int,
                r,
            ),
    {
        let mut vpn: VirtPageNum = start;
        let ghost lo = start.0 as int;
        proof {
            assert(page_table.frames() =~= page_table.frames().union(
                allocator.allocated().difference(allocator.allocated()),
            ));
        }
        while vpn.0 < end.0
            invariant
                lo == start.0,
                lo <= vpn.0 <= end.0,
                lo < end.0 ==> end.0 <= VPN_LIMIT,
                *self == *old(self),
                self.wf(),
                page_table.wf(),
                allocator.wf(),
                self.spec_map_type() is Framed ==> *page_table == *old(page_table) && *allocator
                    == *old(allocator),
                self.spec_map_type() is Identical ==> self.identity_mapped(
                    old(page_table),
                    old(allocator),
                    page_table,
                    allocator,
                    lo,
                    vpn.0 as int,
                ),
            decreases end.0 - vpn.0,
        {
            let ghost mid_pt = *page_table;
            let ghost mid_alloc = *allocator;
            match self.map_one(allocator, page_table, vpn) {
                Ok(_) => {},
                Err(e) => {
                    proof {
                        let k: u64 = vpn.0;
                        assert(self.identity_mapped(
                            old(page_table),
                            old(allocator),
                            page_table,
                            allocator,
                            lo,
                            k as int,
                        ));
                        assert(page_table.map_result(allocator.free_count(), VirtPageNum(k))
                            == Err::<(), MMError>(e));
                    }
                    return Err(e);
                },
            }
            proof {
                if self.spec_map_type() is Identical {
                    mid_pt.lemma_tables_needed(vpn);
                    let a0 = old(allocator).allocated();
                    let a1 = mid_alloc.allocated();
                    let a2 = allocator.allocated();
                    assert(page_table.frames() =~= old(page_table).frames().union(
                        a2.difference(a0),
                    ));
                    assert forall|v: VirtPageNum| v.0 < VPN_LIMIT implies #[trigger]
                        page_table.entry(v) == if lo <= v.0 < vpn.0 + 1 {
                        self.pte_for(PhysPageNum(v.0))
                    } else {
                        old(page_table).entry(v)
                    } by {
                        if PageTable::same_slot(v, vpn) {
                            PageTable::lemma_slot_injective(v, vpn);
                        }
                    }
                }
            }
            vpn.step();
        }
        Ok(())
    }

    /// Unmaps the pages `[start, end)` in ascending order.
    pub fn unmap_pages(
        &mut self,
        allocator: &mut FrameAllocator,
        page_table: &mut PageTable,
        start: VirtPageNum,
        end: VirtPageNum,
    )
        requires
            old(self).wf(),
            old(self).mapped_in(old(page_table)),
            old(page_table).wf(),
            old(allocator).wf(),
            start.0 <= end.0,
            start.0 < end.0 ==> end.0 <= VPN_LIMIT,
        ensures
            final(self).wf(),
            final(self).mapped_in(final(page_table)),
            final(page_table).wf(),
            final(allocator).wf(),
            final(self).range() == old(self).range(),
            old(self).spec_map_type() is Identical ==> *final(self) == *old(self),
            Self::unmapped(
                old(self),
                old(page_table),
                old(allocator),
                final(self),
                final(page_table),
                final(allocator),
                start.0 as int,
                end.0 as int,
            ),
    {
        let mut vpn: VirtPageNum = start;
        let ghost lo = start.0 as int;
        proof {
            assert(self.frames() =~= old(self).frames().remove_keys(
                Set::new(|v: u64| lo <= v < lo),
            ));
            assert(old(self).ppns_in(lo, lo) =~= Set::<u64>::empty());
            assert(allocator.allocated() =~= old(allocator).allocated().difference(
                old(self).ppns_in(lo, lo),
            ));
        }
        while vpn.0 < end.0
            invariant
                lo == start.0,
                lo <= vpn.0 <= end.0,
                lo < end.0 ==> end.0 <= VPN_LIMIT,
                old(self).wf(),
                self.wf(),
                self.mapped_in(page_table),
                page_table.wf(),
                allocator.wf(),
                self.range() == old(self).range(),
                old(self).spec_map_type() is Identical ==> *self == *old(self),
                Self::unmapped(
                    old(self),
                    old(page_table),
                    old(allocator),
                    self,
                    page_table,
                    allocator,
                    lo,
                    vpn.0 as int,
                ),
            decreases end.0 - vpn.0,
        {
            let ghost mid = *self;
            let ghost mid_pt = *page_table;
            let ghost mid_alloc = *allocator;
            let _ = self.unmap_one(allocator, page_table, vpn);
            proof {
                let hi = vpn.0 + 1;
                assert(self.frames() =~= old(self).frames().remove_keys(
                    Set::new(|v: u64| lo <= v < hi),
                ));
                if !mid_pt.entry(vpn).spec_is_valid() {
                    mid_pt.lemma_invalid_is_empty(vpn);
                }
                assert forall|v: VirtPageNum| v.0 < VPN_LIMIT implies #[trigger] page_table.entry(
                    v,
                ) == if lo <= v.0 < hi {
                    PageTableEntry::spec_empty()
                } else {
                    old(page_table).entry(v)
                } by {
                    if PageTable::same_slot(v, vpn) {
                        PageTable::lemma_slot_injective(v, vpn);
                    }
                }
                let snap_a = old(self).ppns_in(lo, vpn.0 as int);
                let snap_b = old(self).ppns_in(lo, hi);
                if old(self).frames().contains_key(vpn.0) {
                    let p = old(self).frames()[vpn.0].ppn().0;
                    assert(mid.frames().contains_key(vpn.0));
                    assert(mid.frames()[vpn.0] == old(self).frames()[vpn.0]);
                    assert(snap_b =~= snap_a.insert(p)) by {
                        assert forall|q: u64| snap_b.contains(q) implies snap_a.insert(p).contains(q) by {
                            let v = choose|v: u64|
                                lo <= v < hi && #[trigger] old(self).frames().contains_key(v)
                                    && old(self).frames()[v].ppn().0 == q;
                            if v != vpn.0 {
                                assert(lo <= v < vpn.0 && old(self).frames().contains_key(v));
                            }
                        }
                        assert forall|q: u64| snap_a.insert(p).contains(q) implies snap_b.contains(q) by {
                            if snap_a.contains(q) {
                                let v = choose|v: u64|
                                    lo <= v < vpn.0 && #[trigger] old(self).frames().contains_key(
                                        v,
                                    ) && old(self).frames()[v].ppn().0 == q;
                                assert(lo <= v < hi && old(self).frames().contains_key(v));
                            } else {
                                assert(lo <= vpn.0 < hi && old(self).frames().contains_key(vpn.0));
                            }
                        }
                    }
                    assert(allocator.allocated() =~= old(allocator).allocated().difference(snap_b));
                } else {
                    assert(!mid.frames().contains_key(vpn.0));
                    assert(snap_b =~= snap_a) by {
                        assert forall|q: u64| snap_b.contains(q) implies snap_a.contains(q) by {
                            let v = choose|v: u64|
                                lo <= v < hi && #[trigger] old(self).frames().contains_key(v)
                                    && old(self).frames()[v].ppn().0 == q;
                            assert(lo <= v < vpn.0 && old(self).frames().contains_key(v));
                        }
                        assert forall|q: u64| snap_a.contains(q) implies snap_b.contains(q) by {
                            let v = choose|v: u64|
                                lo <= v < vpn.0 && #[trigger] old(self).frames().contains_key(v)
                                    && old(self).frames()[v].ppn().0 == q;
                            assert(lo <= v < hi && old(self).frames().contains_key(v));
                        }
                    }
                }
            }
            vpn.step();
        }
    }

    /// Unmaps the whole area: every frame is given back and every leaf entry
    /// of the range is cleared.
    pub fn unmap(&mut self, allocator: &mut FrameAllocator, page_table: &mut PageTable) -> (r:
        MMResult<()>)
        requires
            old(self).wf(),
            old(self).mapped_in(old(page_table)),
            old(page_table).wf(),
            old(allocator).wf(),
        ensures
            r == Ok::<(), MMError>(()),
            final(self).wf(),
            final(self).mapped_in(final(page_table)),
            final(page_table).wf(),
            final(allocator).wf(),
            final(self).range() == old(self).range(),
            final(self).frames() == Map::<u64, FrameTracker>::empty(),
            Self::unmapped(
                old(self),
                old(page_table),
                old(allocator),
                final(self),
                final(page_table),
                final(allocator),
                old(self).range().start(),
                old(self).range().end(),
            ),
    {
        let start = self.vpn_range.get_start();
        let end = self.vpn_range.get_end();
        self.unmap_pages(allocator, page_table, start, end);
        assert(self.frames() =~= Map::<u64, FrameTracker>::empty());
        Ok(())
    }

    /// Shrinks the area to end at `new_end`: the pages from `new_end` on are
    /// unmapped.
    pub fn shrink_to(
        &mut self,
        allocator: &mut FrameAllocator,
        page_table: &mut PageTable,
        new_end: VirtPageNum,
    ) -> (r: MMResult<()>)
        requires
            old(self).wf(),
            old(self).mapped_in(old(page_table)),
            old(page_table).wf(),
            old(allocator).wf(),
            old(self).range().start() <= new_end.0 <= old(self).range().end(),
        ensures
            r == Ok::<(), MMError>(()),
            final(self).wf(),
            final(self).mapped_in(final(page_table)),
            final(page_table).wf(),
            final(allocator).wf(),
            final(self).range().start() == old(self).range().start(),
            final(self).range().end() == new_end.0,
            Self::unmapped(
                old(self),
                old(page_table),
                old(allocator),
                final(self),
                final(page_table),
                final(allocator),
                new_end.0 as int,
                old(self).range().end(),
            ),
    {
        let end = self.vpn_range.get_end();
        self.unmap_pages(allocator, page_table, new_end, end);
        self.vpn_range = VPNRange::new(self.vpn_range.get_start(), new_end);
        Ok(())
    }

    /// Grows the area to end at `new_end`. The new pages of an
    /// identity-mapped area are mapped, in ascending order; where one fails,
    /// the range stays as it was. No frame is allocated for the new pages of
    /// a framed area.
    pub fn append_to(
        &mut self,
        allocator: &mut FrameAllocator,
        page_table: &mut PageTable,
        new_end: VirtPageNum,
    ) -> (r: MMResult<()>)
        requires
            old(self).wf(),
            old(self).mapped_in(old(page_table)),
            old(page_table).wf(),
            old(allocator).wf(),
            old(self).range().end() <= new_end.0 <= VPN_LIMIT,
        ensures
            final(self).wf(),
            final(self).mapped_in(final(page_table)),
            final(page_table).wf(),
            final(allocator).wf(),
            final(self).spec_map_type() == old(self).spec_map_type(),
            final(self).perm() == old(self).perm(),
            final(self).frames() == old(self).frames(),
            final(self).range().start() == old(self).range().start(),
            final(self).range().end() == if r is Ok {
                new_end.0 as int
            } else {
                old(self).range().end()
            },
            r is Err ==> *final(self) == *old(self),
            old(self).spec_map_type() is Framed ==> {
                &&& r is Ok
                &&& *final(page_table) == *old(page_table)
                &&& *final(allocator) == *old(allocator)
            },
            old(self).spec_map_type() is Identical ==> old(self).identity_outcome(
                old(page_table),
                old(allocator),
                final(page_table),
                final(allocator),
                old(self).range().end(),
                new_end.0 as int,
                r,
            ),
    {
        let end = self.vpn_range.get_end();
        match self.map_pages(allocator, page_table, end, new_end) {
            Ok(_) => {},
            Err(e) => {
                return Err(e);
            },
        }
        self.vpn_range = VPNRange::new(self.vpn_range.get_start(), new_end);
        Ok(())
    }

    /// Copies `data` to the start of a framed area, page by page. The pages
    /// that `data` takes are materialized first; where that fails, nothing is
    /// copied.
    pub fn copy_data(
        &mut self,
        allocator: &mut FrameAllocator,
        page_table: &mut PageTable,
        data: &[u8],
    ) -> (r: MMResult<()>)
        requires
            old(self).wf(),
            old(self).spec_map_type() is Framed,
            old(self).mapped_in(old(page_table)),
            old(page_table).wf(),
            old(allocator).wf(),
            Self::pages_of(data@.len()) <= old(self).range().spec_len(),
        ensures
            final(self).wf(),
            final(page_table).wf(),
            final(allocator).wf(),
            final(self).mapped_in(final(page_table)),
            Self::copy_outcome(
                old(self),
                old(page_table),
                old(allocator),
                final(self),
                final(page_table),
                final(allocator),
                data@,
                r,
            ),
    {
        let len: usize = data.len();
        let whole: usize = len / PAGE_SIZE;
        let pages: u64 = if len % PAGE_SIZE == 0 {
            whole as u64
        } else {
            whole as u64 + 1
        };
        let first: VirtPageNum = self.vpn_range.get_start();
        assert(pages == Self::pages_of(data@.len()));
        let wanted = VPNRange::by_len(first, pages);
        match self.ensure_range(allocator, page_table, wanted) {
            Ok(_) => {},
            Err(e) => {
                return Err(e);
            },
        }
        let ghost mid = *self;
        let ghost lo = first.0 as int;
        let mut done: usize = 0;
        let mut current_vpn: VirtPageNum = first;
        while (done as u64) < pages
            invariant
                len == data@.len(),
                lo == first.0,
                lo == mid.range().start(),
                pages == Self::pages_of(data@.len()),
                lo + pages <= mid.range().end(),
                mid.range().end() <= VPN_LIMIT || pages == 0,
                done <= pages,
                current_vpn.0 == lo + done,
                mid.wf(),
                self.wf(),
                page_table.wf(),
                mid.mapped_in(page_table),
                forall|v: u64| lo <= v < lo + pages ==> #[trigger] mid.frames().contains_key(v),
                self.range() == mid.range(),
                self.spec_map_type() == mid.spec_map_type(),
                self.perm() == mid.perm(),
                self.frames().dom() == mid.frames().dom(),
                forall|v: u64| #[trigger]
                    self.frames().contains_key(v) ==> {
                        &&& self.frames()[v].ppn() == mid.frames()[v].ppn()
                        &&& self.frames()[v]@ == if v < current_vpn.0 {
                            Self::page_after_copy(mid.frames()[v]@, data@, v - lo)
                        } else {
                            mid.frames()[v]@
                        }
                    },
            decreases pages - done,
        {
            let start: usize = done * PAGE_SIZE;
            let end: usize = if len - start < PAGE_SIZE {
                len
            } else {
                start + PAGE_SIZE
            };
            let src = vstd::slice::slice_subrange(data, start, end);
            assert(mid.frames().contains_key(current_vpn.0));
            match page_table.translate(current_vpn) {
                Ok(_) => {},
                Err(e) => {
                    proof {
                        mid.lemma_pte_for_valid(mid.frames()[current_vpn.0].ppn());
                        page_table.lemma_entry_without_dir(current_vpn);
                    }
                    return Err(e);
                },
            }
            match self.data_frames.remove(current_vpn.0) {
                Some(frame) => {
                    let mut frame = frame;
                    frame.write_at(0, src);
                    proof {
                        assert(frame@ =~= Self::page_after_copy(
                            mid.frames()[current_vpn.0]@,
                            data@,
                            current_vpn.0 - lo,
                        ));
                    }
                    self.data_frames.insert(current_vpn.0, frame);
                },
                None => {},
            }
            proof {
                assert(self.frames().dom() =~= mid.frames().dom());
            }
            done = done + 1;
            current_vpn.step();
        }
        proof {
            assert forall|v: u64| #[trigger] self.frames().contains_key(v) implies self.frames()[v]@
                == Self::page_after_copy(mid.frames()[v]@, data@, v - self.range().start()) by {
            }
            assert(self.holds_data(&mid, data@));
            assert(self.mapped_in(page_table));
        }
        Ok(())
    }

    /// Divides the area at the page `vpn` into the part before it and the
    /// part from it on, each with the frames of its pages. Where `vpn` does
    /// not lie inside the range, the whole area comes back as one part and
    /// the other is the empty area at `vpn`.
    pub fn split(self, vpn: VirtPageNum) -> (r: (MapArea, MapArea))
        requires
            self.wf(),
        ensures
            r.0.wf(),
            r.1.wf(),
            r.0.spec_map_type() == self.spec_map_type(),
            r.1.spec_map_type() == self.spec_map_type(),
            r.0.perm() == self.perm(),
            r.1.perm() == self.perm(),
            r.0.range().start() == if vpn.0 <= self.range().start() {
                vpn.0 as int
            } else {
                self.range().start()
            },
            r.0.range().end() == if vpn.0 <= self.range().start() || vpn.0 < self.range().end() {
                vpn.0 as int
            } else {
                self.range().end()
            },
            r.1.range().start() == if vpn.0 <= self.range().start() {
                self.range().start()
            } else {
                vpn.0 as int
            },
            r.1.range().end() == if vpn.0 > self.range().start() && vpn.0 >= self.range().end() {
                vpn.0 as int
            } else {
                self.range().end()
            },
            forall|x: int| r.0.range().contains(x) <==> self.range().contains(x) && x < vpn.0,
            forall|x: int| r.1.range().contains(x) <==> self.range().contains(x) && x >= vpn.0,
            r.0.frames() == self.frames().restrict(Set::new(|v: u64| v < vpn.0)),
            r.1.frames() == self.frames().restrict(Set::new(|v: u64| v >= vpn.0)),
    {
        let map_type = self.map_type;
        let map_perm = self.map_perm;
        let start = self.vpn_range.get_start();
        let end = self.vpn_range.get_end();
        let ghost orig = self.frames();
        let other = MapArea {
            vpn_range: VPNRange::new(vpn, vpn),
            data_frames: FrameMap::new(),
            map_type,
            map_perm,
        };
        if vpn.0 <= start.0 {
            proof {
                assert(other.frames() =~= orig.restrict(Set::new(|v: u64| v < vpn.0)));
                assert(self.frames() =~= orig.restrict(Set::new(|v: u64| v >= vpn.0)));
            }
            return (other, self);
        } else if vpn.0 >= end.0 {
            proof {
                assert(other.frames() =~= orig.restrict(Set::new(|v: u64| v >= vpn.0)));
                assert(self.frames() =~= orig.restrict(Set::new(|v: u64| v < vpn.0)));
            }
            return (self, other);
        }
        let MapArea { vpn_range: _, data_frames, map_type: _, map_perm: _ } = self;
        let mut rest = data_frames;
        let mut mapl = FrameMap::new();
        let mut mapr = FrameMap::new();
        let mut i: u64 = start.0;
        proof {
            assert(rest@ =~= orig.restrict(Set::new(|v: u64| v >= i)));
            assert(mapl@ =~= orig.restrict(Set::new(|v: u64| v < i && v < vpn.0)));
            assert(mapr@ =~= orig.restrict(Set::new(|v: u64| vpn.0 <= v < i)));
        }
        if rest.len() > 0 {
            while i < end.0
                invariant
                    start.0 <= i <= end.0,
                    start.0 < vpn.0 < end.0,
                    forall|v: u64| #[trigger]
                        orig.contains_key(v) ==> start.0 <= v < end.0 && orig[v].wf(),
                    rest@ == orig.restrict(Set::new(|v: u64| v >= i)),
                    mapl@ == orig.restrict(Set::new(|v: u64| v < i && v < vpn.0)),
                    mapr@ == orig.restrict(Set::new(|v: u64| vpn.0 <= v < i)),
                decreases end.0 - i,
            {
                match rest.remove(i) {
                    Some(frame) => {
                        if i < vpn.0 {
                            mapl.insert(i, frame);
                        } else {
                            mapr.insert(i, frame);
                        }
                    },
                    None => {},
                }
                proof {
                    assert(rest@ =~= orig.restrict(Set::new(|v: u64| v >= i + 1)));
                    assert(mapl@ =~= orig.restrict(Set::new(|v: u64| v < i + 1 && v < vpn.0)));
                    assert(mapr@ =~= orig.restrict(Set::new(|v: u64| vpn.0 <= v < i + 1)));
                }
                i = i + 1;
            }
        } else {
            proof {
                rest.lemma_finite();
                assert(rest@.dom() =~= Set::<u64>::empty());
                assert(orig =~= Map::<u64, FrameTracker>::empty());
            }
        }
        proof {
            assert(mapl@ =~= orig.restrict(Set::new(|v: u64| v < vpn.0)));
            assert(mapr@ =~= orig.restrict(Set::new(|v: u64| v >= vpn.0)));
            mapl.lemma_finite();
            mapr.lemma_finite();
        }
        let left = MapArea {
            vpn_range: VPNRange::new(start, vpn),
            data_frames: mapl,
            map_type,
            map_perm,
        };
        let right = MapArea {
            vpn_range: VPNRange::new(vpn, end),
            data_frames: mapr,
            map_type,
            map_perm,
        };
        (left, right)
    }

    /// An area with the range, the kind and the permissions of `another`,
    /// and no frame.
    pub fn from_another(another: &MapArea) -> (r: MapArea)
        requires
            another.wf(),
        ensures
            r.wf(),
            r.range() == another.range(),
            r.spec_map_type() == another.spec_map_type(),
            r.perm() == another.perm(),
            r.frames() == Map::<u64, FrameTracker>::empty(),
    {
        MapArea {
            vpn_range: another.vpn_range,
            data_frames: FrameMap::new(),
            map_type: another.map_type,
            map_perm: another.map_perm,
        }
    }

    /// The frame that backs the page `vpn`, if the page is materialized.
    pub fn frame(&self, vpn: VirtPageNum) -> (r: Option<&FrameTracker>)
        ensures
            r is Some == self.frames().contains_key(vpn.0),
            r matches Some(f) ==> *f == self.frames()[vpn.0],
    {
        self.data_frames.get(vpn.0)
    }

    /// Copies `src` into the frame of the page `vpn`, from the byte `offset`
    /// of the page on. `false` comes back, and nothing happens, where the
    /// page is not materialized.
    pub fn write_page(&mut self, vpn: VirtPageNum, offset: usize, src: &[u8]) -> (r: bool)
        requires
            old(self).wf(),
            offset + src@.len() <= PAGE_SIZE,
        ensures
            final(self).wf(),
            r == old(self).frames().contains_key(vpn.0),
            final(self).range() == old(self).range(),
            final(self).spec_map_type() == old(self).spec_map_type(),
            final(self).perm() == old(self).perm(),
            !r ==> final(self).frames() == old(self).frames(),
            r ==> {
                &&& final(self).frames().dom() == old(self).frames().dom()
                &&& final(self).frames() == old(self).frames().insert(
                    vpn.0,
                    final(self).frames()[vpn.0],
                )
                &&& final(self).frames()[vpn.0].ppn() == old(self).frames()[vpn.0].ppn()
                &&& final(self).frames()[vpn.0]@ == old(self).frames()[vpn.0]@.subrange(
                    0,
                    offset as int,
                ) + src@ + old(self).frames()[vpn.0]@.subrange(
                    offset + src@.len(),
                    PAGE_SIZE as int,
                )
            },
    {
        match self.data_frames.remove(vpn.0) {
            Some(frame) => {
                let mut frame = frame;
                frame.write_at(offset, src);
                self.data_frames.insert(vpn.0, frame);
                proof {
                    assert(self.frames().dom() =~= old(self).frames().dom());
                    assert(self.frames() =~= old(self).frames().insert(
                        vpn.0,
                        self.frames()[vpn.0],
                    ));
                }
                true
            },
            None => {
                proof {
                    assert(self.frames() =~= old(self).frames());
                }
                false
            },
        }
    }

    /// After pages were materialized, the area owns the frames that it
    /// owned before and those of the new pages.
    pub proof fn lemma_ensured_ppns(
        pre: &MapArea,
        pre_pt: &PageTable,
        pre_alloc: &FrameAllocator,
        post: &MapArea,
        post_pt: &PageTable,
        post_alloc: &FrameAllocator,
        lo: int,
        hi: int,
    )
        requires
            Self::ensured(pre, pre_pt, pre_alloc, post, post_pt, post_alloc, lo, hi),
        ensures
            post.ppns() == pre.ppns().union(Self::fresh_ppns(pre, post, lo, hi)),
            Self::fresh_ppns(pre, post, lo, hi).subset_of(post_alloc.allocated()),
            Self::fresh_ppns(pre, post, lo, hi).disjoint(pre_alloc.allocated()),
    {
        let fresh = Self::fresh_ppns(pre, post, lo, hi);
        assert forall|p: u64| post.ppns().contains(p) implies pre.ppns().union(fresh).contains(
            p,
        ) by {
            let v = choose|v: u64| #[trigger]
                post.frames().contains_key(v) && post.frames()[v].ppn().0 == p;
            if pre.frames().contains_key(v) {
                assert(post.frames()[v] == pre.frames()[v]);
            } else {
                assert(lo <= v < hi);
                assert(post.frames()[v].ppn().0 == p);
            }
        }
        assert forall|p: u64| pre.ppns().union(fresh).contains(p) implies post.ppns().contains(
            p,
        ) by {
            if pre.ppns().contains(p) {
                let v = choose|v: u64| #[trigger]
                    pre.frames().contains_key(v) && pre.frames()[v].ppn().0 == p;
                assert(post.frames().contains_key(v));
                assert(post.frames()[v] == pre.frames()[v]);
            } else {
                let v = choose|v: u64|
                    lo <= v < hi && !pre.frames().contains_key(v) && (
                    #[trigger] post.frames()[v]).ppn().0 == p;
                assert(post.frames().contains_key(v));
            }
        }
        assert(post.ppns() =~= pre.ppns().union(fresh));
        assert forall|p: u64| fresh.contains(p) implies post_alloc.allocated().contains(p)
            && !pre_alloc.allocated().contains(p) by {
            let v = choose|v: u64|
                lo <= v < hi && !pre.frames().contains_key(v) && (
                #[trigger] post.frames()[v]).ppn().0 == p;
        }
    }

    /// An outcome that holds up to a page still holds when the area, the
    /// page table and the allocator are as they were.
    proof fn lemma_ensured_same(
        pre: &MapArea,
        pre_pt: &PageTable,
        pre_alloc: &FrameAllocator,
        mid: &MapArea,
        mid_pt: &PageTable,
        mid_alloc: &FrameAllocator,
        post: &MapArea,
        post_pt: &PageTable,
        post_alloc: &FrameAllocator,
        lo: int,
        k: int,
    )
        requires
            Self::ensured(pre, pre_pt, pre_alloc, mid, mid_pt, mid_alloc, lo, k),
            post.same_as(mid),
            *post_pt == *mid_pt,
            post_alloc.same_as(mid_alloc),
        ensures
            Self::ensured(pre, pre_pt, pre_alloc, post, post_pt, post_alloc, lo, k),
    {
        assert(Self::fresh_ppns(pre, post, lo, k) =~= Self::fresh_ppns(pre, mid, lo, k));
    }

    /// Materializing the page `vpn` extends an outcome that holds up to it.
    proof fn lemma_ensured_step(
        pre: &MapArea,
        pre_pt: &PageTable,
        pre_alloc: &FrameAllocator,
        mid: &MapArea,
        mid_pt: &PageTable,
        mid_alloc: &FrameAllocator,
        post: &MapArea,
        post_pt: &PageTable,
        post_alloc: &FrameAllocator,
        lo: int,
        vpn: VirtPageNum,
    )
        requires
            lo <= vpn.0 < VPN_LIMIT,
            pre.wf(),
            mid.wf(),
            Self::ensured(pre, pre_pt, pre_alloc, mid, mid_pt, mid_alloc, lo, vpn.0 as int),
            post_alloc.first() == mid_alloc.first(),
            post_alloc.limit() == mid_alloc.limit(),
            mid.frames().contains_key(vpn.0) ==> {
                &&& post.same_as(mid)
                &&& *post_pt == *mid_pt
                &&& post_alloc.same_as(mid_alloc)
            },
            !mid.frames().contains_key(vpn.0) ==> {
                &&& post.materialized_from(mid, vpn, mid_alloc.next())
                &&& post_pt.mapped_from(
                    mid_pt,
                    vpn,
                    mid.pte_for(PhysPageNum(mid_alloc.next())),
                    post_alloc.allocated().difference(mid_alloc.allocated()).remove(
                        mid_alloc.next(),
                    ),
                )
                &&& mid_alloc.allocated().subset_of(post_alloc.allocated())
                &&& post_alloc.allocated().contains(mid_alloc.next())
                &&& !mid_alloc.allocated().contains(mid_alloc.next())
                &&& post_alloc.free_count() == mid_alloc.free_count() - 1 - mid_pt.tables_needed(
                    vpn,
                )
            },
        ensures
            Self::ensured(pre, pre_pt, pre_alloc, post, post_pt, post_alloc, lo, vpn.0 + 1),
    {
        let hi = vpn.0 + 1;
        mid_pt.lemma_tables_needed(vpn);
        let f0 = Self::fresh_ppns(pre, mid, lo, vpn.0 as int);
        let f1 = Self::fresh_ppns(pre, post, lo, hi);
        if mid.frames().contains_key(vpn.0) {
            assert(pre.frames().contains_key(vpn.0));
            assert(f1 =~= f0);
        } else {
            let p = mid_alloc.next();
            assert(!pre.frames().contains_key(vpn.0));
            assert(post.frames()[vpn.0].ppn().0 == p);
            assert forall|v: u64| lo <= v < vpn.0 && !pre.frames().contains_key(v) implies (
            #[trigger] post.frames()[v]) == mid.frames()[v] by {
                assert(mid.frames().contains_key(v));
            }
            assert(f1 =~= f0.insert(p)) by {
                assert forall|q: u64| f0.insert(p).contains(q) implies f1.contains(q) by {
                    if q == p {
                        assert(post.frames()[vpn.0].ppn().0 == q);
                    } else {
                        let v = choose|v: u64|
                            lo <= v < vpn.0 && !pre.frames().contains_key(v) && (
                            #[trigger] mid.frames()[v]).ppn().0 == q;
                        assert(post.frames()[v].ppn().0 == q);
                    }
                }
                assert forall|q: u64| f1.contains(q) implies f0.insert(p).contains(q) by {
                    let v = choose|v: u64|
                        lo <= v < hi && !pre.frames().contains_key(v) && (
                        #[trigger] post.frames()[v]).ppn().0 == q;
                    if v != vpn.0 {
                        assert(mid.frames()[v].ppn().0 == q);
                    }
                }
            }
            assert forall|q: u64| f0.contains(q) implies mid_alloc.allocated().contains(q) by {
                let v = choose|v: u64|
                    lo <= v < vpn.0 && !pre.frames().contains_key(v) && (
                    #[trigger] mid.frames()[v]).ppn().0 == q;
            }
            assert(post_pt.frames() =~= pre_pt.frames().union(
                post_alloc.allocated().difference(pre_alloc.allocated()).difference(f1),
            ));
            assert forall|v: VirtPageNum| v.0 < VPN_LIMIT implies #[trigger] post_pt.entry(v)
                == if lo <= v.0 < hi && !pre.frames().contains_key(v.0) {
                post.pte_for(post.frames()[v.0].ppn())
            } else {
                pre_pt.entry(v)
            } by {
                if PageTable::same_slot(v, vpn) {
                    PageTable::lemma_slot_injective(v, vpn);
                }
            }
            assert forall|v: u64, w: u64|
                lo <= v < hi && lo <= w < hi && v != w && !pre.frames().contains_key(v)
                    && !pre.frames().contains_key(w) implies (#[trigger] post.frames()[v]).ppn()
                != (#[trigger] post.frames()[w]).ppn() by {
                if v == vpn.0 {
                    assert(mid.frames().contains_key(w));
                    assert(mid_alloc.allocated().contains(mid.frames()[w].ppn().0));
                } else if w == vpn.0 {
                    assert(mid.frames().contains_key(v));
                    assert(mid_alloc.allocated().contains(mid.frames()[v].ppn().0));
                } else {
                    assert(mid.frames().contains_key(v));
                    assert(mid.frames().contains_key(w));
                }
            }
        }
    }
}

} // verus!

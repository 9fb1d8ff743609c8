//! Mapping and unmapping regions of an address space at the request of its
//! task.

use vstd::prelude::*;
use crate::config::PAGE_SIZE_U64;
use crate::mm::address::{VPNRange, VirtAddr, VirtPageNum, VA_LIMIT, VPN_LIMIT};
use crate::mm::error::MMError;
use crate::mm::flags::{MapPermission, MAP_U};
use crate::mm::frame_allocator::FrameAllocator;
use crate::mm::memory_area::MapArea;
use crate::mm::memory_set::MemorySet;

verus! {

impl MemorySet {
    /// The first page of the region `[start, start + len)`.
    pub open spec fn region_start(start: u64) -> int {
        (start / PAGE_SIZE_U64) as int
    }

    /// The page just past the region `[start, start + len)`.
    pub open spec fn region_end(start: u64, len: usize) -> int {
        (start + len + PAGE_SIZE_U64 - 1) / (PAGE_SIZE_U64 as int)
    }

    /// The permissions that the request `port` asks for: its three bits are
    /// read, write and execute, and user access comes with them.
    pub open spec fn port_bits(port: usize) -> u8 {
        (((port % 8) * 2) + MAP_U) as u8
    }

    /// Whether a request to map `[start, start + len)` with `port` is well
    /// formed: the start is the first address of a page, `port` asks for at
    /// least one of read, write and execute and for nothing else, and the
    /// region lies within the virtual addresses.
    pub open spec fn mmap_args_ok(start: u64, len: usize, port: usize) -> bool {
        &&& start % PAGE_SIZE_U64 == 0
        &&& port < 8
        &&& port != 0
        &&& start + len <= VA_LIMIT
    }

    /// Whether the address space can take the mapping: the request is well
    /// formed and no area holds a page of the region.
    pub open spec fn mmap_admissible(&self, start: u64, len: usize, port: usize) -> bool {
        &&& Self::mmap_args_ok(start, len, port)
        &&& self.is_free_between(Self::region_start(start), Self::region_end(start, len))
    }

    /// `post` is `pre` after the region was mapped: one more area, framed,
    /// for the pages of the region and with the permissions asked for, and
    /// every page of it backed by a zero-filled frame that was free before.
    pub open spec fn mmapped(
        pre: &MemorySet,
        pre_alloc: &FrameAllocator,
        post: &MemorySet,
        post_alloc: &FrameAllocator,
        start: u64,
        len: usize,
        port: usize,
    ) -> bool {
        let lo = Self::region_start(start);
        let hi = Self::region_end(start, len);
        let area = post.spec_areas().last();
        &&& post.spec_areas().len() == pre.spec_areas().len() + 1
        &&& post.spec_areas().drop_last() == pre.spec_areas()
        &&& area.range().start() == lo
        &&& area.range().end() == hi
        &&& area.spec_map_type() is Framed
        &&& area.perm().bits() == Self::port_bits(port)
        &&& forall|v: u64| #[trigger] area.frames().contains_key(v) <==> lo <= v < hi
        &&& forall|v: u64|
            lo <= v < hi ==> {
                &&& (#[trigger] area.frames()[v])@ == crate::mm::memory_area::zero_page()
                &&& !pre_alloc.allocated().contains(area.frames()[v].ppn().0)
                &&& post_alloc.allocated().contains(area.frames()[v].ppn().0)
            }
        &&& post.table().spec_root_ppn() == pre.table().spec_root_ppn()
        &&& forall|v: VirtPageNum|
            v.0 < VPN_LIMIT ==> #[trigger] post.table().entry(v) == if lo <= v.0 < hi {
                area.pte_for(area.frames()[v.0].ppn())
            } else {
                pre.table().entry(v)
            }
        &&& pre_alloc.allocated().subset_of(post_alloc.allocated())
        &&& post_alloc.first() == pre_alloc.first()
        &&& post_alloc.limit() == pre_alloc.limit()
    }

    /// What [`MemorySet::mmap`] returns and leaves behind. A request that
    /// the address space cannot take is refused with -1, and nothing
    /// changes. One that it can take is granted with 0, or refused with -1
    /// for lack of frames; after that the areas and the leaf entries are
    /// those of before. A request for a region without a page is always
    /// granted: it adds an area without a page, and leaves the page table
    /// and the allocator as they are.
    pub open spec fn mmap_outcome(
        pre: &MemorySet,
        pre_alloc: &FrameAllocator,
        post: &MemorySet,
        post_alloc: &FrameAllocator,
        start: u64,
        len: usize,
        port: usize,
        r: isize,
    ) -> bool {
        if !pre.mmap_admissible(start, len, port) {
            r == -1 && *post == *pre && *post_alloc == *pre_alloc
        } else if Self::region_start(start) >= Self::region_end(start, len) {
            &&& r == 0
            &&& Self::mmapped(pre, pre_alloc, post, post_alloc, start, len, port)
            &&& post.table() == pre.table()
            &&& *post_alloc == *pre_alloc
        } else if r == 0 {
            Self::mmapped(pre, pre_alloc, post, post_alloc, start, len, port)
        } else {
            r == -1 && Self::rolled_back(pre, pre_alloc, post, post_alloc)
        }
    }

    /// Maps the region `[start, start + len)` with the permissions that
    /// `port` asks for, every page of it backed by a frame at once. Three
    /// free frames for each page of the region are always enough.
    pub fn mmap(&mut self, allocator: &mut FrameAllocator, start: u64, len: usize, port: usize) -> (r:
        isize)
        requires
            old(self).wf(),
            old(allocator).wf(),
        ensures
            final(self).wf(),
            final(allocator).wf(),
            Self::mmap_outcome(old(self), old(allocator), final(self), final(allocator), start, len, port, r),
            old(self).mmap_admissible(start, len, port) && old(allocator).free_count() >= 3 * (
            Self::region_end(start, len) - Self::region_start(start)) ==> r == 0,
            Self::kept_books(
                old(self),
                old(allocator).allocated(),
                final(self),
                final(allocator).allocated(),
            ),
    {
        if start % PAGE_SIZE_U64 != 0 {
            return -1;
        }
        if port >= 8 || port == 0 {
            return -1;
        }
        if start > VA_LIMIT || len as u64 > VA_LIMIT - start {
            return -1;
        }
        let start_va = VirtAddr(start);
        let end_va = VirtAddr(start + len as u64);
        let first = start_va.floor();
        let last = end_va.ceil();
        let range = VPNRange::new(first, last);
        let ghost lo = Self::region_start(start);
        let ghost hi = Self::region_end(start, len);
        let ghost pre = *self;
        // no page of the region may be mapped already
        let mut vpn: VirtPageNum = first;
        while vpn.0 < last.0
            invariant
                self.wf(),
                *self == pre,
                pre == *old(self),
                allocator.wf(),
                *allocator == *old(allocator),
                first.0 <= vpn.0 <= last.0,
                first.0 == lo,
                last.0 == hi,
                lo == Self::region_start(start),
                hi == Self::region_end(start, len),
                hi <= VPN_LIMIT,
                forall|v: u64| lo <= v < vpn.0 ==> !(#[trigger] self.table().entry(
                    VirtPageNum(v),
                )).spec_is_valid(),
            decreases last.0 - vpn.0,
        {
            match self.translate(vpn) {
                Ok(pte) => {
                    if pte.is_valid() {
                        proof {
                            assert(self.covered(vpn.0));
                            let i = choose|i: int|
                                0 <= i < self.spec_areas().len() && Self::covers(
                                    &self.spec_areas()[i],
                                    vpn.0,
                                );
                            assert(!self.is_free_between(lo, hi));
                        }
                        return -1;
                    }
                },
                Err(_) => {
                    proof {
                        self.table().lemma_entry_without_dir_or_not(vpn);
                    }
                },
            }
            vpn.step();
        }
        if !self.check_free(range) {
            return -1;
        }
        let bits: u8 = ((port as u8) << 1) | MAP_U;
        proof {
            let p: u8 = port as u8;
            assert(((p << 1) | 0x10u8) & !0x1eu8 == 0 && ((p << 1) | 0x10u8) == (p % 8) * 2 + 0x10) by (bit_vector)
                requires
                    p < 8,
            ;
        }
        let perm = MapPermission::from_bits(bits).unwrap();
        let _ = self.insert_framed_area(allocator, start_va, end_va, perm);
        if first.0 >= last.0 {
            proof {
                let area = self.spec_areas().last();
                assert forall|v: u64| !(#[trigger] area.frames().contains_key(v)) by {}
            }
            return 0;
        }
        let idx: usize = self.area_count() - 1;
        let ghost inserted = *self;
        let ghost i = idx as int;
        proof {
            assert(inserted.spec_areas()[i] == inserted.spec_areas().last());
        }
        match self.ensure_area(allocator, idx) {
            Ok(_) => {
                proof {
                    let a0 = inserted.spec_areas()[i];
                    let a1 = self.spec_areas()[i];
                    assert(self.spec_areas().drop_last() =~= pre.spec_areas());
                    assert(self.spec_areas().last() == a1);
                    assert forall|v: u64| #[trigger] a1.frames().contains_key(v) <==> lo <= v
                        < hi by {
                        assert(!a0.frames().contains_key(v));
                    }
                    assert forall|v: u64| lo <= v < hi implies {
                        &&& (#[trigger] a1.frames()[v])@ == crate::mm::memory_area::zero_page()
                        &&& !old(allocator).allocated().contains(a1.frames()[v].ppn().0)
                        &&& allocator.allocated().contains(a1.frames()[v].ppn().0)
                    } by {
                        assert(!a0.frames().contains_key(v));
                    }
                    assert forall|v: VirtPageNum| v.0 < VPN_LIMIT implies #[trigger]
                        self.table().entry(v) == if lo <= v.0 < hi {
                        a1.pte_for(a1.frames()[v.0].ppn())
                    } else {
                        pre.table().entry(v)
                    } by {
                        assert(!a0.frames().contains_key(v.0));
                    }
                }
                0
            },
            Err(e) => {
                let ghost mid = *self;
                let ghost mid_alloc = *allocator;
                self.remove_area_at(allocator, idx);
                proof {
                    let a0 = inserted.spec_areas()[i];
                    let a1 = mid.spec_areas()[i];
                    assert(self.spec_areas() =~= pre.spec_areas());
                    let k = choose|k: u64|
                        {
                            &&& lo <= k < hi
                            &&& #[trigger] MapArea::ensured(
                                &a0,
                                &inserted.table(),
                                old(allocator),
                                &a1,
                                &mid.table(),
                                &mid_alloc,
                                lo,
                                k as int,
                            )
                            &&& a1.ensure_page_result(
                                &mid.table(),
                                mid_alloc.free_count(),
                                VirtPageNum(k),
                            ) == Err::<(), MMError>(e)
                        };
                    MapArea::lemma_ensured_ppns(
                        &a0,
                        &inserted.table(),
                        old(allocator),
                        &a1,
                        &mid.table(),
                        &mid_alloc,
                        lo,
                        k as int,
                    );
                    assert(a0.ppns() =~= Set::<u64>::empty());
                    assert forall|v: VirtPageNum| v.0 < VPN_LIMIT implies #[trigger]
                        self.table().entry(v) == pre.table().entry(v) by {
                        if range.contains(v.0 as int) {
                            pre.lemma_free_range_unmapped(range, v);
                        } else {
                            assert(!a0.frames().contains_key(v.0));
                        }
                    }
                    assert(self.table().frames() =~= pre.table().frames().union(
                        allocator.allocated().difference(old(allocator).allocated()),
                    ));
                    // three frames for each page would have been enough
                    assert(!a1.frames().contains_key(k));
                    pre.lemma_free_range_unmapped(range, VirtPageNum(k));
                    assert(mid.table().entry(VirtPageNum(k)) == pre.table().entry(VirtPageNum(k)));
                    mid.table().lemma_tables_needed(VirtPageNum(k));
                }
                -1
            },
        }
    }

    /// Whether every page of the region has a valid leaf entry.
    pub open spec fn region_mapped(&self, start: u64, len: usize) -> bool {
        forall|v: u64|
            Self::region_start(start) <= v < Self::region_end(start, len) ==> (
            #[trigger] self.table().entry(VirtPageNum(v))).spec_is_valid()
    }

    /// Whether a request to unmap `[start, start + len)` is taken up: the
    /// start is the first address of a page, the region lies within the
    /// virtual addresses, and every page of it has a valid leaf entry.
    pub open spec fn munmap_admissible(&self, start: u64, len: usize) -> bool {
        &&& start % PAGE_SIZE_U64 == 0
        &&& start + len <= VA_LIMIT
        &&& self.region_mapped(start, len)
    }

    /// Whether the area is one that the region `[lo, hi)` of pages names: it
    /// starts at the page `lo`, and it holds that page exactly if the region
    /// has a page.
    pub open spec fn names_area(area: &MapArea, lo: int, hi: int) -> bool {
        area.range().start() == lo && (lo < area.range().end()) == (lo < hi)
    }

    /// The position of the last area that the region `[first, last)` of
    /// pages names.
    pub fn find_named_area(&self, first: VirtPageNum, last: VirtPageNum) -> (r: Option<usize>)
        ensures
            r matches Some(i) ==> {
                &&& i < self.spec_areas().len()
                &&& Self::names_area(&self.spec_areas()[i as int], first.0 as int, last.0 as int)
                &&& forall|j: int|
                    i < j < self.spec_areas().len() ==> !Self::names_area(
                        &#[trigger] self.spec_areas()[j],
                        first.0 as int,
                        last.0 as int,
                    )
            },
            r is None ==> forall|j: int|
                0 <= j < self.spec_areas().len() ==> !Self::names_area(
                    &#[trigger] self.spec_areas()[j],
                    first.0 as int,
                    last.0 as int,
                ),
    {
        let count = self.area_count();
        let mut found: Option<usize> = None;
        let mut i: usize = 0;
        while i < count
            invariant
                0 <= i <= count,
                count == self.spec_areas().len(),
                found matches Some(k) ==> {
                    &&& k < i
                    &&& Self::names_area(&self.spec_areas()[k as int], first.0 as int, last.0 as int)
                    &&& forall|j: int|
                        k < j < i ==> !Self::names_area(
                            &#[trigger] self.spec_areas()[j],
                            first.0 as int,
                            last.0 as int,
                        )
                },
                found is None ==> forall|j: int|
                    0 <= j < i ==> !Self::names_area(
                        &#[trigger] self.spec_areas()[j],
                        first.0 as int,
                        last.0 as int,
                    ),
            decreases count - i,
        {
            let range = self.area(i).get_range();
            if range.get_start().0 == first.0 && (first.0 < range.get_end().0) == (first.0
                < last.0) {
                found = Some(i);
            }
            i = i + 1;
        }
        found
    }

    /// What [`MemorySet::munmap`] returns and leaves behind. A request that
    /// is not taken up is refused with -1, and nothing changes. Otherwise 0
    /// comes back, and the area that the region names is unmapped and taken
    /// out: the one that starts at the first page of the region and holds
    /// it, or, for a region without a page, the last area without a page
    /// that starts there. Where no such area is there, nothing changes.
    pub open spec fn munmap_outcome(
        pre: &MemorySet,
        pre_alloc: &FrameAllocator,
        post: &MemorySet,
        post_alloc: &FrameAllocator,
        start: u64,
        len: usize,
        r: isize,
    ) -> bool {
        let lo = Self::region_start(start);
        let hi = Self::region_end(start, len);
        if !pre.munmap_admissible(start, len) {
            r == -1 && *post == *pre && *post_alloc == *pre_alloc
        } else if forall|j: int|
            0 <= j < pre.spec_areas().len() ==> !Self::names_area(
                &#[trigger] pre.spec_areas()[j],
                lo,
                hi,
            ) {
            r == 0 && *post == *pre && *post_alloc == *pre_alloc
        } else {
            r == 0 && exists|i: int|
                {
                    &&& 0 <= i < pre.spec_areas().len()
                    &&& Self::names_area(&pre.spec_areas()[i], lo, hi)
                    &&& forall|j: int|
                        i < j < pre.spec_areas().len() ==> !Self::names_area(
                            &#[trigger] pre.spec_areas()[j],
                            lo,
                            hi,
                        )
                    &&& #[trigger] Self::removed(pre, pre_alloc, post, post_alloc, i)
                }
        }
    }

    /// Unmaps the region `[start, start + len)`: the area that starts at its
    /// first page and holds it leaves the address space, with all its
    /// pages. An area without a page leaves only for a region without a
    /// page, and then the one that was added last.
    pub fn munmap(&mut self, allocator: &mut FrameAllocator, start: u64, len: usize) -> (r: isize)
        requires
            old(self).wf(),
            old(allocator).wf(),
        ensures
            final(self).wf(),
            final(allocator).wf(),
            Self::munmap_outcome(old(self), old(allocator), final(self), final(allocator), start, len, r),
            Self::kept_books(
                old(self),
                old(allocator).allocated(),
                final(self),
                final(allocator).allocated(),
            ),
    {
        if start % PAGE_SIZE_U64 != 0 {
            return -1;
        }
        if start > VA_LIMIT || len as u64 > VA_LIMIT - start {
            return -1;
        }
        let first = VirtAddr(start).floor();
        let last = VirtAddr(start + len as u64).ceil();
        let ghost lo = Self::region_start(start);
        let ghost hi = Self::region_end(start, len);
        let mut vpn: VirtPageNum = first;
        while vpn.0 < last.0
            invariant
                self.wf(),
                *self == *old(self),
                allocator.wf(),
                *allocator == *old(allocator),
                start % PAGE_SIZE_U64 == 0,
                start + len <= VA_LIMIT,
                first.0 <= vpn.0 <= last.0,
                first.0 == lo,
                last.0 == hi,
                lo == Self::region_start(start),
                hi == Self::region_end(start, len),
                forall|v: u64| lo <= v < vpn.0 ==> (#[trigger] self.table().entry(
                    VirtPageNum(v),
                )).spec_is_valid(),
            decreases last.0 - vpn.0,
        {
            match self.translate(vpn) {
                Ok(pte) => {
                    if !pte.is_valid() {
                        proof {
                            let v: u64 = vpn.0;
                            assert(!self.table().entry(VirtPageNum(v)).spec_is_valid());
                            assert(!self.region_mapped(start, len));
                        }
                        return -1;
                    }
                },
                Err(_) => {
                    proof {
                        self.table().lemma_entry_without_dir_or_not(vpn);
                        let v: u64 = vpn.0;
                        assert(!self.table().entry(VirtPageNum(v)).spec_is_valid());
                        assert(!self.region_mapped(start, len));
                    }
                    return -1;
                },
            }
            vpn.step();
        }
        match self.find_named_area(first, last) {
            Some(idx) => {
                self.remove_area_at(allocator, idx);
            },
            None => {},
        }
        0
    }

    /// Unmapping a region that was just mapped gives the address space of
    /// before: the same areas and the same leaf entries; and the address
    /// space can take the same mapping again.
    pub proof fn lemma_mmap_munmap(
        pre: &MemorySet,
        pre_alloc: &FrameAllocator,
        mid: &MemorySet,
        mid_alloc: &FrameAllocator,
        post: &MemorySet,
        post_alloc: &FrameAllocator,
        start: u64,
        len: usize,
        port: usize,
        r: isize,
    )
        requires
            pre.wf(),
            mid.wf(),
            Self::mmap_outcome(pre, pre_alloc, mid, mid_alloc, start, len, port, 0),
            Self::munmap_outcome(mid, mid_alloc, post, post_alloc, start, len, r),
        ensures
            r == 0,
            post.spec_areas() == pre.spec_areas(),
            post.same_entries(pre),
            post.mmap_admissible(start, len, port),
            forall|v: u64|
                Self::region_start(start) <= v < Self::region_end(start, len) ==> !(
                #[trigger] post.table().entry(VirtPageNum(v))).spec_is_valid(),
            pre_alloc.allocated().subset_of(post_alloc.allocated()),
    {
        let lo = Self::region_start(start);
        let hi = Self::region_end(start, len);
        let n = pre.spec_areas().len() as int;
        let area = mid.spec_areas().last();
        assert(pre.mmap_admissible(start, len, port));
        assert(Self::mmapped(pre, pre_alloc, mid, mid_alloc, start, len, port));
        assert(mid.spec_areas()[n] == area);
        assert(area.wf());
        assert(mid.region_mapped(start, len)) by {
            assert forall|v: u64| lo <= v < hi implies (#[trigger] mid.table().entry(
                VirtPageNum(v),
            )).spec_is_valid() by {
                area.lemma_pte_for_valid(area.frames()[v].ppn());
            }
        }
        assert(mid.munmap_admissible(start, len));
        assert(Self::names_area(&mid.spec_areas()[n], lo, hi));
        let i = choose|i: int|
            {
                &&& 0 <= i < mid.spec_areas().len()
                &&& Self::names_area(&mid.spec_areas()[i], lo, hi)
                &&& forall|j: int|
                    i < j < mid.spec_areas().len() ==> !Self::names_area(
                        &#[trigger] mid.spec_areas()[j],
                        lo,
                        hi,
                    )
                &&& #[trigger] Self::removed(mid, mid_alloc, post, post_alloc, i)
            };
        assert(i == n);
        assert(post.spec_areas() =~= pre.spec_areas());
        assert(hi <= VPN_LIMIT) by {
            assert(start + len <= VA_LIMIT);
        }
        assert forall|v: VirtPageNum| v.0 < VPN_LIMIT implies #[trigger] post.table().entry(v)
            == pre.table().entry(v) && (lo <= v.0 < hi ==> !pre.table().entry(v).spec_is_valid()) by {
            if lo <= v.0 < hi {
                let range = area.range();
                assert(pre.is_free(range)) by {
                    assert forall|j: int| 0 <= j < pre.spec_areas().len() implies Self::disjoint(
                        (#[trigger] pre.spec_areas()[j]).range(),
                        range,
                    ) by {}
                }
                pre.lemma_free_range_unmapped(range, v);
            }
        }
        assert forall|v: u64| lo <= v < hi implies !(#[trigger] post.table().entry(
            VirtPageNum(v),
        )).spec_is_valid() by {
            assert(post.table().entry(VirtPageNum(v)) == pre.table().entry(VirtPageNum(v)));
        }
        assert(area.ppns().subset_of(mid_alloc.allocated()) && area.ppns().disjoint(
            pre_alloc.allocated(),
        )) by {
            assert forall|p: u64| area.ppns().contains(p) implies mid_alloc.allocated().contains(
                p,
            ) && !pre_alloc.allocated().contains(p) by {
                let v = choose|v: u64| #[trigger]
                    area.frames().contains_key(v) && area.frames()[v].ppn().0 == p;
                assert(lo <= v < hi);
                assert(area.frames()[v].ppn().0 == p);
            }
        }
    }
}

} // verus!

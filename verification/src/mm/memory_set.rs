//! Address spaces: one page table and the map areas that are mapped in it.

use vstd::prelude::*;
use crate::mm::address::{PhysPageNum, VPNRange, VirtAddr, VirtPageNum, VA_LIMIT, VPN_LIMIT};
use crate::mm::error::{MMError, MMResult};
use crate::mm::flags::MapPermission;
use crate::mm::frame_allocator::{FrameAllocator, FrameTracker};
use crate::mm::memory_area::{MapArea, MapType};
use crate::mm::page_table::{PageTable, PageTableEntry};

verus! {

/// An address space: a page table and the areas that are mapped in it.
pub struct MemorySet {
    page_table: PageTable,
    areas: Vec<MapArea>,
}

impl MemorySet {
    /// The page table of the address space.
    pub closed spec fn table(&self) -> PageTable {
        self.page_table
    }

    /// The areas of the address space, in the order in which they were
    /// inserted.
    pub closed spec fn spec_areas(&self) -> Seq<MapArea> {
        self.areas@
    }

    /// Whether the two ranges share no page.
    pub open spec fn disjoint(a: VPNRange, b: VPNRange) -> bool {
        a.start() >= a.end() || b.start() >= b.end() || a.end() <= b.start() || b.end()
            <= a.start()
    }

    /// Whether the area accounts for a leaf entry of the page `v`: the page
    /// lies in its range, and the area is identity-mapped or holds a frame
    /// for it.
    pub open spec fn covers(area: &MapArea, v: u64) -> bool {
        area.range().contains(v as int) && (area.spec_map_type() is Identical
            || area.frames().contains_key(v))
    }

    /// Whether the page table maps every page of an identity-mapped area to
    /// the frame of its own number.
    pub open spec fn identity_in(area: &MapArea, pt: &PageTable) -> bool {
        area.spec_map_type() is Identical ==> forall|v: u64|
            area.range().contains(v as int) ==> #[trigger] pt.entry(VirtPageNum(v))
                == area.pte_for(PhysPageNum(v))
    }

    /// Whether the range shares no page with any area.
    pub open spec fn is_free(&self, range: VPNRange) -> bool {
        forall|i: int|
            0 <= i < self.spec_areas().len() ==> Self::disjoint(
                (#[trigger] self.spec_areas()[i]).range(),
                range,
            )
    }

    /// Whether some area accounts for a leaf entry of the page `v`.
    pub open spec fn covered(&self, v: u64) -> bool {
        exists|i: int| 0 <= i < self.spec_areas().len() && Self::covers(&self.spec_areas()[i], v)
    }

    /// The invariant of an address space: no two areas share a page; every
    /// page that an area accounts for has the leaf entry that the area gives
    /// it; and every valid leaf entry is accounted for by an area.
    pub open spec fn wf(&self) -> bool {
        &&& self.table().wf()
        &&& forall|i: int|
            0 <= i < self.spec_areas().len() ==> {
                &&& (#[trigger] self.spec_areas()[i]).wf()
                &&& self.spec_areas()[i].mapped_in(&self.table())
                &&& Self::identity_in(&self.spec_areas()[i], &self.table())
            }
        &&& forall|i: int, j: int|
            0 <= i < j < self.spec_areas().len() ==> Self::disjoint(
                (#[trigger] self.spec_areas()[i]).range(),
                (#[trigger] self.spec_areas()[j]).range(),
            )
        &&& forall|v: VirtPageNum|
            v.0 < VPN_LIMIT && (#[trigger] self.table().entry(v)).spec_is_valid() ==> self.covered(
                v.0,
            )
    }

    /// No page lies in the ranges of two areas of an address space.
    pub proof fn lemma_areas_share_no_page(&self, i: int, j: int, vpn: int)
        requires
            self.wf(),
            0 <= i < self.spec_areas().len(),
            0 <= j < self.spec_areas().len(),
            i != j,
        ensures
            !(self.spec_areas()[i].range().contains(vpn) && self.spec_areas()[j].range().contains(
                vpn,
            )),
    {
        if i < j {
            assert(Self::disjoint(self.spec_areas()[i].range(), self.spec_areas()[j].range()));
        } else {
            assert(Self::disjoint(self.spec_areas()[j].range(), self.spec_areas()[i].range()));
        }
    }

    /// The leaf entry of a materialized page of a framed area is valid,
    /// names the frame of the page, and carries exactly the permissions of
    /// the area and the flag `V`.
    pub proof fn lemma_materialized_is_mapped(&self, i: int, vpn: u64)
        requires
            self.wf(),
            0 <= i < self.spec_areas().len(),
            self.spec_areas()[i].frames().contains_key(vpn),
        ensures
            self.table().entry(VirtPageNum(vpn)).spec_is_valid(),
            self.table().entry(VirtPageNum(vpn)).spec_ppn() == self.spec_areas()[i].frames()[vpn].ppn(),
            self.table().entry(VirtPageNum(vpn)).spec_flags().bits
                == self.spec_areas()[i].perm().bits() | crate::mm::flags::PTE_V,
    {
        let area = self.spec_areas()[i];
        assert(area.wf() && area.mapped_in(&self.table()));
        area.lemma_pte_for_valid(area.frames()[vpn].ppn());
    }

    /// Whether the page tables of the two address spaces have the same root
    /// and the same leaf entry for every page.
    pub open spec fn same_entries(&self, other: &MemorySet) -> bool {
        &&& self.table().spec_root_ppn() == other.table().spec_root_ppn()
        &&& forall|v: VirtPageNum|
            v.0 < VPN_LIMIT ==> #[trigger] self.table().entry(v) == other.table().entry(v)
    }

    /// The numbers of the frames that the address space owns: those of its
    /// page table and those of its areas.
    pub open spec fn frames(&self) -> Set<u64> {
        self.table().frames().union(self.area_ppns())
    }

    /// Whether the area at position `i` holds a frame for the page `v`.
    pub open spec fn holds_page(&self, i: int, v: u64) -> bool {
        0 <= i < self.spec_areas().len() && self.spec_areas()[i].frames().contains_key(v)
    }

    /// The bytes of the page `v`, where an area holds a frame for it.
    pub open spec fn page(&self, v: u64) -> Option<Seq<u8>> {
        if exists|i: int| self.holds_page(i, v) {
            let i = choose|i: int| self.holds_page(i, v);
            Some(self.spec_areas()[i].frames()[v]@)
        } else {
            None
        }
    }

    /// At most one area holds a frame for a page.
    pub proof fn lemma_page_owner_unique(&self, i: int, j: int, v: u64)
        requires
            self.wf(),
            self.holds_page(i, v),
            self.holds_page(j, v),
        ensures
            i == j,
    {
        assert(self.spec_areas()[i].wf());
        assert(self.spec_areas()[j].wf());
        if i < j {
            assert(Self::disjoint(self.spec_areas()[i].range(), self.spec_areas()[j].range()));
        } else if j < i {
            assert(Self::disjoint(self.spec_areas()[j].range(), self.spec_areas()[i].range()));
        }
    }

    /// The bytes of a page are those of the frame that its area holds for
    /// it.
    pub proof fn lemma_page(&self, i: int, v: u64)
        requires
            self.wf(),
            self.holds_page(i, v),
        ensures
            self.page(v) == Some(self.spec_areas()[i].frames()[v]@),
    {
        let j = choose|j: int| self.holds_page(j, v);
        self.lemma_page_owner_unique(i, j, v);
    }

    /// The value that selects this address space.
    pub open spec fn spec_token(&self) -> u64 {
        self.table().spec_token()
    }

    /// An address space with a page table of one root and no area. Fails
    /// exactly when the allocator has no frame left.
    pub fn new_bare(allocator: &mut FrameAllocator) -> (r: MMResult<MemorySet>)
        requires
            old(allocator).wf(),
        ensures
            final(allocator).wf(),
            final(allocator).first() == old(allocator).first(),
            final(allocator).limit() == old(allocator).limit(),
            r is Ok <==> old(allocator).free_count() > 0,
            r matches Ok(ms) ==> {
                &&& ms.wf()
                &&& ms.spec_areas() == Seq::<MapArea>::empty()
                &&& ms.table().spec_root_ppn().0 == old(allocator).next()
                &&& ms.table().frames() == set![old(allocator).next()]
                &&& forall|v: VirtPageNum| ms.table().entry(v) == PageTableEntry::spec_empty()
                &&& !old(allocator).allocated().contains(old(allocator).next())
                &&& final(allocator).allocated() == old(allocator).allocated().insert(
                    old(allocator).next(),
                )
                &&& final(allocator).free_count() == old(allocator).free_count() - 1
                &&& ms.owns(final(allocator).allocated())
            },
            r matches Err(e) ==> e == MMError::NotEnoughMemory && *final(allocator) == *old(allocator),
    {
        match PageTable::new(allocator) {
            Ok(page_table) => {
                let ms = MemorySet { page_table, areas: Vec::new() };
                proof {
                    assert(ms.area_ppns() =~= Set::<u64>::empty());
                }
                Ok(ms)
            },
            Err(e) => Err(e),
        }
    }

    /// The value that selects this address space.
    #[verifier::when_used_as_spec(spec_token)]
    pub fn token(&self) -> (r: u64)
        ensures
            r == self.spec_token(),
    {
        self.page_table.token()
    }

    /// Reads the leaf entry of `vpn`.
    pub fn translate(&self, vpn: VirtPageNum) -> (r: MMResult<PageTableEntry>)
        requires
            self.wf(),
        ensures
            r == self.table().translate(vpn),
    {
        self.page_table.translate(vpn)
    }

    /// The number of areas.
    pub fn area_count(&self) -> (r: usize)
        ensures
            r == self.spec_areas().len(),
    {
        self.areas.len()
    }

    /// The area at position `i`.
    pub fn area(&self, i: usize) -> (r: &MapArea)
        requires
            i < self.spec_areas().len(),
        ensures
            *r == self.spec_areas()[i as int],
    {
        &self.areas[i]
    }

    /// Whether the range shares no page with any area.
    pub fn check_free(&self, range: VPNRange) -> (r: bool)
        ensures
            r == self.is_free(range),
    {
        let mut i: usize = 0;
        while i < self.areas.len()
            invariant
                0 <= i <= self.areas@.len(),
                forall|j: int|
                    0 <= j < i ==> Self::disjoint((#[trigger] self.spec_areas()[j]).range(), range),
            decreases self.areas@.len() - i,
        {
            let a = self.areas[i].get_range();
            let apart = a.get_start().0 >= a.get_end().0 || range.get_start().0
                >= range.get_end().0 || a.get_end().0 <= range.get_start().0 || range.get_end().0
                <= a.get_start().0;
            if !apart {
                return false;
            }
            i = i + 1;
        }
        true
    }

    /// The position of the first area that starts at the page `vpn`.
    pub fn find_area(&self, vpn: VirtPageNum) -> (r: Option<usize>)
        ensures
            r matches Some(i) ==> {
                &&& i < self.spec_areas().len()
                &&& self.spec_areas()[i as int].range().start() == vpn.0
                &&& forall|j: int| 0 <= j < i ==> (#[trigger] self.spec_areas()[j]).range().start()
                    != vpn.0
            },
            r is None ==> forall|j: int|
                0 <= j < self.spec_areas().len() ==> (#[trigger] self.spec_areas()[j]).range().start()
                    != vpn.0,
    {
        let mut i: usize = 0;
        while i < self.areas.len()
            invariant
                0 <= i <= self.areas@.len(),
                forall|j: int| 0 <= j < i ==> (#[trigger] self.spec_areas()[j]).range().start()
                    != vpn.0,
            decreases self.areas@.len() - i,
        {
            if self.areas[i].get_range().get_start().0 == vpn.0 {
                return Some(i);
            }
            i = i + 1;
        }
        None
    }

    /// An address space stays well formed when its areas stay and its page
    /// table keeps every leaf entry.
    pub proof fn lemma_wf_same_entries(pre: &MemorySet, post: &MemorySet)
        requires
            pre.wf(),
            post.table().wf(),
            post.spec_areas() == pre.spec_areas(),
            post.same_entries(pre),
        ensures
            post.wf(),
    {
        assert forall|i: int| 0 <= i < post.spec_areas().len() implies {
            &&& (#[trigger] post.spec_areas()[i]).wf()
            &&& post.spec_areas()[i].mapped_in(&post.table())
            &&& Self::identity_in(&post.spec_areas()[i], &post.table())
        } by {
            let a = pre.spec_areas()[i];
            assert(a.wf() && a.mapped_in(&pre.table()) && Self::identity_in(&a, &pre.table()));
            assert forall|v: u64| #[trigger] a.frames().contains_key(v) implies post.table().entry(
                VirtPageNum(v),
            ) == a.pte_for(a.frames()[v].ppn()) by {
                assert(pre.table().entry(VirtPageNum(v)) == a.pte_for(a.frames()[v].ppn()));
            }
            if a.spec_map_type() is Identical {
                assert forall|v: u64| a.range().contains(v as int) implies #[trigger]
                    post.table().entry(VirtPageNum(v)) == a.pte_for(PhysPageNum(v)) by {
                    assert(pre.table().entry(VirtPageNum(v)) == a.pte_for(PhysPageNum(v)));
                }
            }
        }
        assert forall|v: VirtPageNum|
            v.0 < VPN_LIMIT && (#[trigger] post.table().entry(v)).spec_is_valid() implies post.covered(
            v.0,
        ) by {
            assert(pre.table().entry(v).spec_is_valid());
            assert(pre.covered(v.0));
        }
    }

    /// An address space stays well formed when an area is added whose range
    /// was free, provided that the page table changed only inside that range
    /// and that the area accounts for what it holds there.
    pub proof fn lemma_wf_push(pre: &MemorySet, post: &MemorySet, area: &MapArea)
        requires
            pre.wf(),
            post.table().wf(),
            post.spec_areas() == pre.spec_areas().push(*area),
            area.wf(),
            area.mapped_in(&post.table()),
            Self::identity_in(area, &post.table()),
            pre.is_free(area.range()),
            forall|v: VirtPageNum|
                v.0 < VPN_LIMIT && !area.range().contains(v.0 as int) ==> #[trigger] post.table().entry(
                    v,
                ) == pre.table().entry(v),
            forall|v: VirtPageNum|
                v.0 < VPN_LIMIT && area.range().contains(v.0 as int) && (
                #[trigger] post.table().entry(v)).spec_is_valid() ==> Self::covers(area, v.0),
        ensures
            post.wf(),
    {
        let n = pre.spec_areas().len() as int;
        assert forall|i: int| 0 <= i < post.spec_areas().len() implies {
            &&& (#[trigger] post.spec_areas()[i]).wf()
            &&& post.spec_areas()[i].mapped_in(&post.table())
            &&& Self::identity_in(&post.spec_areas()[i], &post.table())
        } by {
            if i < n {
                let a = pre.spec_areas()[i];
                assert(post.spec_areas()[i] == a);
                assert(a.wf() && a.mapped_in(&pre.table()) && Self::identity_in(
                    &a,
                    &pre.table(),
                ));
                assert(Self::disjoint(a.range(), area.range()));
                assert forall|v: u64| #[trigger]
                    a.frames().contains_key(v) implies post.table().entry(VirtPageNum(v))
                    == a.pte_for(a.frames()[v].ppn()) by {
                    assert(pre.table().entry(VirtPageNum(v)) == a.pte_for(a.frames()[v].ppn()));
                }
                if a.spec_map_type() is Identical {
                    assert forall|v: u64| a.range().contains(v as int) implies #[trigger]
                        post.table().entry(VirtPageNum(v)) == a.pte_for(PhysPageNum(v)) by {
                        assert(pre.table().entry(VirtPageNum(v)) == a.pte_for(PhysPageNum(v)));
                    }
                }
            } else {
                assert(post.spec_areas()[i] == *area);
            }
        }
        assert forall|i: int, j: int| 0 <= i < j < post.spec_areas().len() implies Self::disjoint(
            (#[trigger] post.spec_areas()[i]).range(),
            (#[trigger] post.spec_areas()[j]).range(),
        ) by {
            assert(post.spec_areas()[i] == pre.spec_areas()[i]);
            if j < n {
                assert(post.spec_areas()[j] == pre.spec_areas()[j]);
            }
        }
        assert forall|v: VirtPageNum|
            v.0 < VPN_LIMIT && (#[trigger] post.table().entry(v)).spec_is_valid() implies post.covered(
            v.0,
        ) by {
            if area.range().contains(v.0 as int) {
                assert(Self::covers(&post.spec_areas()[n], v.0));
            } else {
                assert(pre.table().entry(v).spec_is_valid());
                assert(pre.covered(v.0));
                let i = choose|i: int|
                    0 <= i < pre.spec_areas().len() && Self::covers(&pre.spec_areas()[i], v.0);
                assert(Self::covers(&post.spec_areas()[i], v.0));
            }
        }
    }

    /// No page of a free range has a valid leaf entry.
    pub proof fn lemma_free_range_unmapped(&self, range: VPNRange, v: VirtPageNum)
        requires
            self.wf(),
            self.is_free(range),
            range.contains(v.0 as int),
            v.0 < VPN_LIMIT,
        ensures
            self.table().entry(v) == PageTableEntry::spec_empty(),
    {
        if self.table().entry(v).spec_is_valid() {
            assert(self.covered(v.0));
            let i = choose|i: int|
                0 <= i < self.spec_areas().len() && Self::covers(&self.spec_areas()[i], v.0);
            assert(Self::disjoint(self.spec_areas()[i].range(), range));
        } else {
            self.table().lemma_invalid_is_empty(v);
        }
    }

    /// What [`MemorySet::push`] leaves behind when it succeeds: the areas
    /// of before and, after them, the new area, mapped as its kind asks and
    /// holding `data` where there is any.
    pub open spec fn pushed(
        pre: &MemorySet,
        pre_alloc: &FrameAllocator,
        post: &MemorySet,
        post_alloc: &FrameAllocator,
        map_area: &MapArea,
        data: Option<Seq<u8>>,
    ) -> bool {
        &&& post.spec_areas().len() == pre.spec_areas().len() + 1
        &&& post.spec_areas().drop_last() == pre.spec_areas()
        &&& match (map_area.spec_map_type(), data) {
            (MapType::Framed, None) => {
                &&& post.spec_areas().last() == *map_area
                &&& post.table() == pre.table()
                &&& *post_alloc == *pre_alloc
            },
            (MapType::Framed, Some(d)) => MapArea::copy_outcome(
                map_area,
                &pre.table(),
                pre_alloc,
                &post.spec_areas().last(),
                &post.table(),
                post_alloc,
                d,
                Ok(()),
            ),
            (MapType::Identical, _) => {
                &&& post.spec_areas().last() == *map_area
                &&& map_area.identity_mapped(
                    &pre.table(),
                    pre_alloc,
                    &post.table(),
                    post_alloc,
                    map_area.range().start(),
                    map_area.range().end(),
                )
            },
        }
    }

    /// What a failed insertion leaves behind: the areas and the leaf
    /// entries of before. Directories that were added on the way stay with
    /// the page table; every other frame is given back.
    pub open spec fn rolled_back(
        pre: &MemorySet,
        pre_alloc: &FrameAllocator,
        post: &MemorySet,
        post_alloc: &FrameAllocator,
    ) -> bool {
        &&& post.spec_areas() == pre.spec_areas()
        &&& post.same_entries(pre)
        &&& pre_alloc.allocated().subset_of(post_alloc.allocated())
        &&& post.table().frames() == pre.table().frames().union(
            post_alloc.allocated().difference(pre_alloc.allocated()),
        )
        &&& post_alloc.first() == pre_alloc.first()
        &&& post_alloc.limit() == pre_alloc.limit()
    }

    /// Inserts an area whose range is free: maps it and, where `data` is
    /// given, copies `data` to its start. Only a lack of frames makes this
    /// fail, and three free frames for each page of the area are always
    /// enough. After a failure the areas and the leaf entries are those of
    /// before.
    pub fn push(
        &mut self,
        allocator: &mut FrameAllocator,
        map_area: MapArea,
        data: Option<&[u8]>,
    ) -> (r: MMResult<()>)
        requires
            old(self).wf(),
            old(allocator).wf(),
            map_area.wf(),
            map_area.frames() == Map::<u64, FrameTracker>::empty(),
            old(self).is_free(map_area.range()),
            data matches Some(d) ==> map_area.spec_map_type() is Framed && MapArea::pages_of(
                d@.len(),
            ) <= map_area.range().spec_len(),
        ensures
            final(self).wf(),
            final(allocator).wf(),
            r is Ok ==> Self::pushed(
                old(self),
                old(allocator),
                final(self),
                final(allocator),
                &map_area,
                match data {
                    Some(d) => Some(d@),
                    None => None,
                },
            ),
            r is Err ==> r == Err::<(), MMError>(MMError::NotEnoughMemory) && Self::rolled_back(
                old(self),
                old(allocator),
                final(self),
                final(allocator),
            ),
            old(allocator).free_count() >= 3 * map_area.range().spec_len() ==> r is Ok,
            map_area.spec_map_type() is Framed && data is None ==> r is Ok,
            Self::kept_books(
                old(self),
                old(allocator).allocated(),
                final(self),
                final(allocator).allocated(),
            ),
            data matches Some(d) && old(allocator).free_count() >= 3 * MapArea::pages_of(d@.len())
                ==> r is Ok,
            r is Ok ==> final(allocator).free_count() >= old(allocator).free_count() - 3 * (
            match data {
                Some(d) => MapArea::pages_of(d@.len()),
                None => if map_area.spec_map_type() is Framed {
                    0int
                } else {
                    map_area.range().spec_len()
                },
            }),
    {
        let mut area = map_area;
        let ghost pre = *self;
        let ghost lo = map_area.range().start();
        let ghost hi = map_area.range().end();
        match area.map(allocator, &mut self.page_table) {
            Ok(_) => {},
            Err(e) => {
                let ghost mid = *self;
                let ghost mid_alloc = *allocator;
                let _ = area.unmap(allocator, &mut self.page_table);
                proof {
                    let k = choose|k: u64|
                        {
                            &&& lo <= k < hi
                            &&& #[trigger] map_area.identity_mapped(
                                &pre.table(),
                                old(allocator),
                                &mid.table(),
                                &mid_alloc,
                                lo,
                                k as int,
                            )
                            &&& mid.table().map_result(mid_alloc.free_count(), VirtPageNum(k))
                                == Err::<(), MMError>(e)
                        };
                    pre.lemma_free_range_unmapped(map_area.range(), VirtPageNum(k));
                    mid.table().lemma_tables_needed(VirtPageNum(k));
                    assert(map_area.ppns_in(lo, hi) =~= Set::<u64>::empty());
                    assert(allocator.allocated() =~= mid_alloc.allocated());
                    assert forall|v: VirtPageNum| v.0 < VPN_LIMIT implies #[trigger]
                        self.table().entry(v) == pre.table().entry(v) by {
                        if map_area.range().contains(v.0 as int) {
                            pre.lemma_free_range_unmapped(map_area.range(), v);
                        }
                    }
                    Self::lemma_wf_same_entries(&pre, self);
                    if pre.owns(old(allocator).allocated()) {
                        Self::lemma_owns_table_grown(&pre, old(allocator), self, allocator);
                    }
                }
                return Err(e);
            },
        }
        let ghost mapped = *self;
        let ghost mapped_alloc = *allocator;
        proof {
            assert forall|v: VirtPageNum| v.0 < VPN_LIMIT implies #[trigger] mapped.table().entry(v)
                == if map_area.spec_map_type() is Identical && map_area.range().contains(
                v.0 as int,
            ) {
                map_area.pte_for(PhysPageNum(v.0))
            } else {
                pre.table().entry(v)
            } by {}
        }
        match data {
            Some(d) => {
                match area.copy_data(allocator, &mut self.page_table, d) {
                    Ok(_) => {
                        proof {
                            let ghost m = choose|m: MapArea|
                                {
                                    &&& #[trigger] MapArea::ensured(
                                        &map_area,
                                        &pre.table(),
                                        old(allocator),
                                        &m,
                                        &self.table(),
                                        allocator,
                                        lo,
                                        lo + MapArea::pages_of(d@.len()),
                                    )
                                    &&& area.holds_data(&m, d@)
                                };
                            assert forall|v: VirtPageNum|
                                v.0 < VPN_LIMIT && area.range().contains(v.0 as int) && (
                                #[trigger] self.table().entry(v)).spec_is_valid() implies Self::covers(
                                &area,
                                v.0,
                            ) by {
                                if !(lo <= v.0 < lo + MapArea::pages_of(d@.len())) {
                                    pre.lemma_free_range_unmapped(map_area.range(), v);
                                }
                                assert(m.frames().dom() == area.frames().dom());
                                if lo <= v.0 < lo + MapArea::pages_of(d@.len()) {
                                    assert(m.frames().contains_key(v.0));
                                    assert(area.frames().dom().contains(v.0));
                                }
                            }
                        }
                    },
                    Err(e) => {
                        let ghost mid = *self;
                        let ghost mid_area = area;
                        let ghost mid_alloc = *allocator;
                        let _ = area.unmap(allocator, &mut self.page_table);
                        proof {
                            let top = lo + MapArea::pages_of(d@.len());
                            let k = choose|k: u64|
                                {
                                    &&& lo <= k < top
                                    &&& #[trigger] MapArea::ensured(
                                        &map_area,
                                        &pre.table(),
                                        old(allocator),
                                        &mid_area,
                                        &mid.table(),
                                        &mid_alloc,
                                        lo,
                                        k as int,
                                    )
                                    &&& mid_area.ensure_page_result(
                                        &mid.table(),
                                        mid_alloc.free_count(),
                                        VirtPageNum(k),
                                    ) == Err::<(), MMError>(e)
                                };
                            assert(!mid_area.frames().contains_key(k));
                            assert(mid.table().entry(VirtPageNum(k)) == pre.table().entry(
                                VirtPageNum(k),
                            ));
                            pre.lemma_free_range_unmapped(map_area.range(), VirtPageNum(k));
                            mid.table().lemma_tables_needed(VirtPageNum(k));
                            let fresh = MapArea::fresh_ppns(&map_area, &mid_area, lo, k as int);
                            assert(mid_area.ppns_in(lo, hi) =~= fresh) by {
                                assert forall|p: u64| mid_area.ppns_in(lo, hi).contains(
                                    p,
                                ) implies fresh.contains(p) by {
                                    let v = choose|v: u64|
                                        lo <= v < hi && #[trigger] mid_area.frames().contains_key(
                                            v,
                                        ) && mid_area.frames()[v].ppn().0 == p;
                                    assert(lo <= v < k);
                                    assert(mid_area.frames()[v].ppn().0 == p);
                                }
                                assert forall|p: u64| fresh.contains(p) implies mid_area.ppns_in(
                                    lo,
                                    hi,
                                ).contains(p) by {
                                    let v = choose|v: u64|
                                        lo <= v < k && !map_area.frames().contains_key(v) && (
                                        #[trigger] mid_area.frames()[v]).ppn().0 == p;
                                    assert(mid_area.frames().contains_key(v));
                                }
                            }
                            assert forall|p: u64| fresh.contains(p) implies !old(allocator).allocated().contains(p) by {
                                let v = choose|v: u64|
                                    lo <= v < k && !map_area.frames().contains_key(v) && (
                                    #[trigger] mid_area.frames()[v]).ppn().0 == p;
                            }
                            assert(self.table().frames() =~= pre.table().frames().union(
                                allocator.allocated().difference(old(allocator).allocated()),
                            ));
                            assert forall|v: VirtPageNum| v.0 < VPN_LIMIT implies #[trigger]
                                self.table().entry(v) == pre.table().entry(v) by {
                                if map_area.range().contains(v.0 as int) {
                                    pre.lemma_free_range_unmapped(map_area.range(), v);
                                }
                            }
                            Self::lemma_wf_same_entries(&pre, self);
                            if pre.owns(old(allocator).allocated()) {
                                Self::lemma_owns_table_grown(&pre, old(allocator), self, allocator);
                            }
                        }
                        return Err(e);
                    },
                }
            },
            None => {
                proof {
                    assert forall|v: VirtPageNum|
                        v.0 < VPN_LIMIT && area.range().contains(v.0 as int) && (
                        #[trigger] self.table().entry(v)).spec_is_valid() implies Self::covers(
                        &area,
                        v.0,
                    ) by {
                        if area.spec_map_type() is Framed {
                            pre.lemma_free_range_unmapped(map_area.range(), v);
                        }
                    }
                }
            },
        }
        proof {
            assert(Self::identity_in(&area, &self.table())) by {
                if area.spec_map_type() is Identical {
                    assert forall|v: u64| area.range().contains(v as int) implies #[trigger]
                        self.table().entry(VirtPageNum(v)) == area.pte_for(PhysPageNum(v)) by {}
                }
            }
        }
        let ghost before_push = *self;
        self.areas.push(area);
        proof {
            assert(self.spec_areas().drop_last() =~= pre.spec_areas());
            assert forall|v: VirtPageNum|
                v.0 < VPN_LIMIT && !area.range().contains(v.0 as int) implies #[trigger]
                self.table().entry(v) == pre.table().entry(v) by {}
            Self::lemma_wf_push(&pre, self, &area);
            if pre.owns(old(allocator).allocated()) {
                match data {
                    Some(d) => {
                        crate::mm::loader::lemma_copy_into_fresh(
                            &map_area,
                            &pre.table(),
                            old(allocator),
                            &area,
                            &self.table(),
                            allocator,
                            d@,
                        );
                        Self::lemma_copied_distinct(
                            &map_area,
                            &pre.table(),
                            old(allocator),
                            &area,
                            &self.table(),
                            allocator,
                            d@,
                        );
                    },
                    None => {
                        assert(area.ppns() =~= Set::<u64>::empty());
                        assert(self.table().frames() =~= pre.table().frames().union(
                            allocator.allocated().difference(old(allocator).allocated()).difference(
                                area.ppns(),
                            ),
                        ));
                    },
                }
                assert(self.spec_areas() =~= pre.spec_areas().push(area));
                Self::lemma_owns_pushed(&pre, old(allocator), self, allocator, &area);
            }
        }
        Ok(())
    }

    /// Inserts a framed area for the pages that hold an address of
    /// `[start_va, end_va)`. No frame is allocated for its pages yet.
    pub fn insert_framed_area(
        &mut self,
        allocator: &mut FrameAllocator,
        start_va: VirtAddr,
        end_va: VirtAddr,
        permission: MapPermission,
    ) -> (r: MMResult<()>)
        requires
            old(self).wf(),
            old(allocator).wf(),
            start_va.0 <= end_va.0 <= VA_LIMIT,
            permission.wf(),
            forall|i: int|
                0 <= i < old(self).spec_areas().len() ==> (#[trigger] old(self).spec_areas()[i]).range().end() <= start_va.spec_floor().0 || end_va.spec_ceil().0
                    <= old(self).spec_areas()[i].range().start() || old(self).spec_areas()[i].range().start() >= old(self).spec_areas()[i].range().end()
                    || start_va.spec_floor().0 >= end_va.spec_ceil().0,
        ensures
            r == Ok::<(), MMError>(()),
            final(self).wf(),
            *final(allocator) == *old(allocator),
            final(self).table() == old(self).table(),
            final(self).spec_areas().len() == old(self).spec_areas().len() + 1,
            final(self).spec_areas().drop_last() == old(self).spec_areas(),
            final(self).spec_areas().last().range().start() == start_va.spec_floor().0,
            final(self).spec_areas().last().range().end() == end_va.spec_ceil().0,
            final(self).spec_areas().last().spec_map_type() is Framed,
            final(self).spec_areas().last().perm() == permission,
            final(self).spec_areas().last().frames() == Map::<u64, FrameTracker>::empty(),
            Self::kept_books(
                old(self),
                old(allocator).allocated(),
                final(self),
                final(allocator).allocated(),
            ),
    {
        let area = MapArea::new(start_va, end_va, MapType::Framed, permission);
        match self.push(allocator, area, None) {
            Ok(_) => Ok(()),
            Err(e) => Err(e),
        }
    }

    /// An address space stays well formed when the pages `[lo, hi)` of the
    /// area at position `i` are unmapped and its range is cut down to a part
    /// of what it was that holds none of them.
    pub proof fn lemma_wf_unmapped(
        pre: &MemorySet,
        pre_alloc: &FrameAllocator,
        post: &MemorySet,
        post_alloc: &FrameAllocator,
        i: int,
        lo: int,
        hi: int,
    )
        requires
            pre.wf(),
            post.table().wf(),
            0 <= i < pre.spec_areas().len(),
            post.spec_areas() == pre.spec_areas().update(i, post.spec_areas()[i]),
            post.spec_areas()[i].wf(),
            lo < hi ==> pre.spec_areas()[i].range().start() <= lo && hi <= pre.spec_areas()[i].range().end(),
            MapArea::unmapped(
                &pre.spec_areas()[i],
                &pre.table(),
                pre_alloc,
                &post.spec_areas()[i],
                &post.table(),
                post_alloc,
                lo,
                hi,
            ),
            forall|x: int|
                post.spec_areas()[i].range().contains(x) <==> pre.spec_areas()[i].range().contains(
                    x,
                ) && !(lo <= x < hi),
        ensures
            post.wf(),
    {
        let old_a = pre.spec_areas()[i];
        let new_a = post.spec_areas()[i];
        assert(old_a.wf() && old_a.mapped_in(&pre.table()) && Self::identity_in(
            &old_a,
            &pre.table(),
        ));
        assert forall|j: int| 0 <= j < post.spec_areas().len() implies {
            &&& (#[trigger] post.spec_areas()[j]).wf()
            &&& post.spec_areas()[j].mapped_in(&post.table())
            &&& Self::identity_in(&post.spec_areas()[j], &post.table())
        } by {
            let a = pre.spec_areas()[j];
            assert(a.wf() && a.mapped_in(&pre.table()) && Self::identity_in(&a, &pre.table()));
            if j == i {
                assert forall|v: u64| #[trigger]
                    new_a.frames().contains_key(v) implies post.table().entry(VirtPageNum(v))
                    == new_a.pte_for(new_a.frames()[v].ppn()) by {
                    assert(old_a.frames().contains_key(v));
                    assert(pre.table().entry(VirtPageNum(v)) == old_a.pte_for(
                        old_a.frames()[v].ppn(),
                    ));
                }
                if new_a.spec_map_type() is Identical {
                    assert forall|v: u64| new_a.range().contains(v as int) implies #[trigger]
                        post.table().entry(VirtPageNum(v)) == new_a.pte_for(PhysPageNum(v)) by {
                        assert(old_a.range().contains(v as int));
                        assert(pre.table().entry(VirtPageNum(v)) == old_a.pte_for(PhysPageNum(v)));
                    }
                }
            } else {
                assert(post.spec_areas()[j] == a);
                if i < j {
                    assert(Self::disjoint(old_a.range(), a.range()));
                } else {
                    assert(Self::disjoint(a.range(), old_a.range()));
                }
                assert forall|v: u64| #[trigger]
                    a.frames().contains_key(v) implies post.table().entry(VirtPageNum(v))
                    == a.pte_for(a.frames()[v].ppn()) by {
                    assert(pre.table().entry(VirtPageNum(v)) == a.pte_for(a.frames()[v].ppn()));
                }
                if a.spec_map_type() is Identical {
                    assert forall|v: u64| a.range().contains(v as int) implies #[trigger]
                        post.table().entry(VirtPageNum(v)) == a.pte_for(PhysPageNum(v)) by {
                        assert(pre.table().entry(VirtPageNum(v)) == a.pte_for(PhysPageNum(v)));
                    }
                }
            }
        }
        assert forall|j: int, k: int| 0 <= j < k < post.spec_areas().len() implies Self::disjoint(
            (#[trigger] post.spec_areas()[j]).range(),
            (#[trigger] post.spec_areas()[k]).range(),
        ) by {
            assert(Self::disjoint(pre.spec_areas()[j].range(), pre.spec_areas()[k].range()));
            let rj = post.spec_areas()[j].range();
            let rk = post.spec_areas()[k].range();
            if j == i && rj.start() < rj.end() && rk.start() < rk.end() {
                assert(rj.contains(rj.start()));
                assert(rj.contains(rj.end() - 1));
            }
            if k == i && rj.start() < rj.end() && rk.start() < rk.end() {
                assert(rk.contains(rk.start()));
                assert(rk.contains(rk.end() - 1));
            }
        }
        assert forall|v: VirtPageNum|
            v.0 < VPN_LIMIT && (#[trigger] post.table().entry(v)).spec_is_valid() implies post.covered(
            v.0,
        ) by {
            assert(!(lo <= v.0 < hi));
            assert(pre.table().entry(v).spec_is_valid());
            assert(pre.covered(v.0));
            let j = choose|j: int|
                0 <= j < pre.spec_areas().len() && Self::covers(&pre.spec_areas()[j], v.0);
            if j == i {
                assert(new_a.range().contains(v.0 as int));
            }
            assert(Self::covers(&post.spec_areas()[j], v.0));
        }
    }

    /// Shrinks the first area that starts at the page of `start` to end at
    /// the page that `new_end` rounds up to. Nothing happens, and `false`
    /// comes back, where no area starts there or the new end lies outside
    /// the area.
    pub fn shrink_to(&mut self, allocator: &mut FrameAllocator, start: VirtAddr, new_end: VirtAddr) -> (r:
        bool)
        requires
            old(self).wf(),
            old(allocator).wf(),
        ensures
            final(self).wf(),
            final(allocator).wf(),
            r == (exists|i: int|
                0 <= i < old(self).spec_areas().len() && old(self).shrinks_at(i, start, new_end)),
            Self::kept_books(
                old(self),
                old(allocator).allocated(),
                final(self),
                final(allocator).allocated(),
            ),
            !r ==> *final(self) == *old(self) && *final(allocator) == *old(allocator),
            r ==> exists|i: int|
                {
                    &&& 0 <= i < old(self).spec_areas().len()
                    &&& old(self).shrinks_at(i, start, new_end)
                    &&& #[trigger] Self::shrunk(
                        old(self),
                        old(allocator),
                        final(self),
                        final(allocator),
                        i,
                        new_end.spec_ceil().0 as int,
                    )
                },
    {
        let idx = match self.find_area(start.floor()) {
            Some(i) => i,
            None => {
                return false;
            },
        };
        let new_end_vpn = new_end.ceil();
        let range = self.areas[idx].get_range();
        if new_end_vpn.0 < range.get_start().0 || new_end_vpn.0 > range.get_end().0 {
            return false;
        }
        let ghost pre = *self;
        proof {
            assert(pre.spec_areas()[idx as int].wf());
            assert(pre.shrinks_at(idx as int, start, new_end));
        }
        let _ = self.areas[idx].shrink_to(allocator, &mut self.page_table, new_end_vpn);
        proof {
            assert(self.spec_areas() =~= pre.spec_areas().update(
                idx as int,
                self.spec_areas()[idx as int],
            ));
            Self::lemma_wf_unmapped(
                &pre,
                old(allocator),
                self,
                allocator,
                idx as int,
                new_end_vpn.0 as int,
                range.end(),
            );
            if pre.owns(old(allocator).allocated()) {
                Self::lemma_owns_unmapped(
                    &pre,
                    old(allocator),
                    self,
                    allocator,
                    idx as int,
                    new_end_vpn.0 as int,
                    range.end(),
                );
            }
            assert(Self::shrunk(
                old(self),
                old(allocator),
                self,
                allocator,
                idx as int,
                new_end.spec_ceil().0 as int,
            ));
        }
        true
    }

    /// Whether the area at position `i` is the first that starts at the
    /// page of `start`, and the page that `new_end` rounds up to lies within
    /// it or just past it.
    pub open spec fn shrinks_at(&self, i: int, start: VirtAddr, new_end: VirtAddr) -> bool {
        &&& self.spec_areas()[i].range().start() == start.spec_floor().0
        &&& forall|j: int| 0 <= j < i ==> (#[trigger] self.spec_areas()[j]).range().start()
            != start.spec_floor().0
        &&& self.spec_areas()[i].range().start() <= new_end.spec_ceil().0
            <= self.spec_areas()[i].range().end()
    }

    /// `post` is `pre` after the area at position `i` was shrunk to end at
    /// the page `new_end`: its pages from `new_end` on are unmapped, and the
    /// other areas are as they were.
    pub open spec fn shrunk(
        pre: &MemorySet,
        pre_alloc: &FrameAllocator,
        post: &MemorySet,
        post_alloc: &FrameAllocator,
        i: int,
        new_end: int,
    ) -> bool {
        &&& post.spec_areas() == pre.spec_areas().update(i, post.spec_areas()[i])
        &&& post.spec_areas()[i].range().start() == pre.spec_areas()[i].range().start()
        &&& post.spec_areas()[i].range().end() == new_end
        &&& MapArea::unmapped(
            &pre.spec_areas()[i],
            &pre.table(),
            pre_alloc,
            &post.spec_areas()[i],
            &post.table(),
            post_alloc,
            new_end,
            pre.spec_areas()[i].range().end(),
        )
    }

    /// `post` is `pre` after the area at position `i` was unmapped and
    /// taken out.
    pub open spec fn removed(
        pre: &MemorySet,
        pre_alloc: &FrameAllocator,
        post: &MemorySet,
        post_alloc: &FrameAllocator,
        i: int,
    ) -> bool {
        &&& post.spec_areas() == pre.spec_areas().remove(i)
        &&& post.table().spec_root_ppn() == pre.table().spec_root_ppn()
        &&& forall|v: VirtPageNum|
            v.0 < VPN_LIMIT ==> #[trigger] post.table().entry(v) == if pre.spec_areas()[i].range().contains(
                v.0 as int,
            ) {
                PageTableEntry::spec_empty()
            } else {
                pre.table().entry(v)
            }
        &&& forall|v: VirtPageNum| #[trigger] post.table().has_dir(v) == pre.table().has_dir(v)
        &&& forall|v: VirtPageNum|
            #[trigger] post.table().tables_needed(v) == pre.table().tables_needed(v)
        &&& post.table().frames() == pre.table().frames()
        &&& post_alloc.allocated() == pre_alloc.allocated().difference(pre.spec_areas()[i].ppns())
        &&& post_alloc.first() == pre_alloc.first()
        &&& post_alloc.limit() == pre_alloc.limit()
    }

    /// Unmaps the first area that starts at the page `vpn` and takes it out
    /// of the address space. `false` comes back, and nothing happens, where
    /// no area starts there.
    pub fn remove_area_with_start_vpn(&mut self, allocator: &mut FrameAllocator, vpn: VirtPageNum) -> (r:
        bool)
        requires
            old(self).wf(),
            old(allocator).wf(),
        ensures
            final(self).wf(),
            final(allocator).wf(),
            Self::kept_books(
                old(self),
                old(allocator).allocated(),
                final(self),
                final(allocator).allocated(),
            ),
            r == (exists|i: int|
                0 <= i < old(self).spec_areas().len() && old(self).spec_areas()[i].range().start()
                    == vpn.0),
            !r ==> *final(self) == *old(self) && *final(allocator) == *old(allocator),
            r ==> exists|i: int|
                {
                    &&& 0 <= i < old(self).spec_areas().len()
                    &&& old(self).spec_areas()[i].range().start() == vpn.0
                    &&& forall|j: int|
                        0 <= j < i ==> (#[trigger] old(self).spec_areas()[j]).range().start()
                            != vpn.0
                    &&& #[trigger] Self::removed(
                        old(self),
                        old(allocator),
                        final(self),
                        final(allocator),
                        i,
                    )
                },
    {
        let idx = match self.find_area(vpn) {
            Some(i) => i,
            None => {
                return false;
            },
        };
        self.remove_area_at(allocator, idx);
        true
    }

    /// Unmaps the area at position `idx` and takes it out of the address
    /// space.
    pub fn remove_area_at(&mut self, allocator: &mut FrameAllocator, idx: usize)
        requires
            old(self).wf(),
            old(allocator).wf(),
            idx < old(self).spec_areas().len(),
        ensures
            final(self).wf(),
            final(allocator).wf(),
            Self::removed(old(self), old(allocator), final(self), final(allocator), idx as int),
            Self::kept_books(
                old(self),
                old(allocator).allocated(),
                final(self),
                final(allocator).allocated(),
            ),
    {
        let ghost pre = *self;
        let ghost i = idx as int;
        proof {
            assert(pre.spec_areas()[i].wf());
        }
        let _ = self.areas[idx].unmap(allocator, &mut self.page_table);
        let ghost mid = *self;
        proof {
            assert(mid.spec_areas() =~= pre.spec_areas().update(i, mid.spec_areas()[i]));
            let a = pre.spec_areas()[i];
            assert(a.ppns_in(a.range().start(), a.range().end()) =~= a.ppns()) by {
                assert forall|p: u64| a.ppns().contains(p) implies a.ppns_in(
                    a.range().start(),
                    a.range().end(),
                ).contains(p) by {
                    let v = choose|v: u64| #[trigger]
                        a.frames().contains_key(v) && a.frames()[v].ppn().0 == p;
                    assert(a.range().contains(v as int));
                }
            }
        }
        let gone = self.areas.remove(idx);
        proof {
            assert(self.spec_areas() =~= pre.spec_areas().remove(i));
            let a = pre.spec_areas()[i];
            assert forall|j: int| 0 <= j < self.spec_areas().len() implies {
                &&& (#[trigger] self.spec_areas()[j]).wf()
                &&& self.spec_areas()[j].mapped_in(&self.table())
                &&& Self::identity_in(&self.spec_areas()[j], &self.table())
            } by {
                let k = if j < i {
                    j
                } else {
                    j + 1
                };
                let b = pre.spec_areas()[k];
                assert(self.spec_areas()[j] == b);
                assert(b.wf() && b.mapped_in(&pre.table()) && Self::identity_in(&b, &pre.table()));
                if k < i {
                    assert(Self::disjoint(b.range(), a.range()));
                } else {
                    assert(Self::disjoint(a.range(), b.range()));
                }
                assert forall|v: u64| #[trigger]
                    b.frames().contains_key(v) implies self.table().entry(VirtPageNum(v))
                    == b.pte_for(b.frames()[v].ppn()) by {
                    assert(pre.table().entry(VirtPageNum(v)) == b.pte_for(b.frames()[v].ppn()));
                }
                if b.spec_map_type() is Identical {
                    assert forall|v: u64| b.range().contains(v as int) implies #[trigger]
                        self.table().entry(VirtPageNum(v)) == b.pte_for(PhysPageNum(v)) by {
                        assert(pre.table().entry(VirtPageNum(v)) == b.pte_for(PhysPageNum(v)));
                    }
                }
            }
            assert forall|j: int, k: int|
                0 <= j < k < self.spec_areas().len() implies Self::disjoint(
                (#[trigger] self.spec_areas()[j]).range(),
                (#[trigger] self.spec_areas()[k]).range(),
            ) by {
                let j2 = if j < i {
                    j
                } else {
                    j + 1
                };
                let k2 = if k < i {
                    k
                } else {
                    k + 1
                };
                assert(Self::disjoint(pre.spec_areas()[j2].range(), pre.spec_areas()[k2].range()));
            }
            assert forall|v: VirtPageNum|
                v.0 < VPN_LIMIT && (#[trigger] self.table().entry(v)).spec_is_valid() implies self.covered(
                v.0,
            ) by {
                assert(!a.range().contains(v.0 as int));
                assert(pre.table().entry(v).spec_is_valid());
                assert(pre.covered(v.0));
                let j = choose|j: int|
                    0 <= j < pre.spec_areas().len() && Self::covers(&pre.spec_areas()[j], v.0);
                let j2 = if j < i {
                    j
                } else {
                    j - 1
                };
                assert(self.spec_areas()[j2] == pre.spec_areas()[j]);
                assert(Self::covers(&self.spec_areas()[j2], v.0));
            }
            assert(Self::removed(old(self), old(allocator), self, allocator, i));
            if pre.owns(old(allocator).allocated()) {
                Self::lemma_owns_removed(&pre, old(allocator), self, allocator, i);
            }
        }
    }

    /// An address space stays well formed when pages of the area at
    /// position `i` are materialized.
    pub proof fn lemma_wf_ensured(
        pre: &MemorySet,
        pre_alloc: &FrameAllocator,
        post: &MemorySet,
        post_alloc: &FrameAllocator,
        i: int,
        lo: int,
        hi: int,
    )
        requires
            pre.wf(),
            post.table().wf(),
            0 <= i < pre.spec_areas().len(),
            post.spec_areas() == pre.spec_areas().update(i, post.spec_areas()[i]),
            post.spec_areas()[i].wf(),
            post.spec_areas()[i].mapped_in(&post.table()),
            pre.spec_areas()[i].spec_map_type() is Framed,
            lo < hi ==> pre.spec_areas()[i].range().start() <= lo && hi <= pre.spec_areas()[i].range().end(),
            MapArea::ensured(
                &pre.spec_areas()[i],
                &pre.table(),
                pre_alloc,
                &post.spec_areas()[i],
                &post.table(),
                post_alloc,
                lo,
                hi,
            ),
        ensures
            post.wf(),
    {
        let old_a = pre.spec_areas()[i];
        let new_a = post.spec_areas()[i];
        assert(old_a.wf());
        assert forall|j: int| 0 <= j < post.spec_areas().len() implies {
            &&& (#[trigger] post.spec_areas()[j]).wf()
            &&& post.spec_areas()[j].mapped_in(&post.table())
            &&& Self::identity_in(&post.spec_areas()[j], &post.table())
        } by {
            if j != i {
                let a = pre.spec_areas()[j];
                assert(post.spec_areas()[j] == a);
                assert(a.wf() && a.mapped_in(&pre.table()) && Self::identity_in(
                    &a,
                    &pre.table(),
                ));
                if i < j {
                    assert(Self::disjoint(old_a.range(), a.range()));
                } else {
                    assert(Self::disjoint(a.range(), old_a.range()));
                }
                assert forall|v: u64| #[trigger]
                    a.frames().contains_key(v) implies post.table().entry(VirtPageNum(v))
                    == a.pte_for(a.frames()[v].ppn()) by {
                    assert(pre.table().entry(VirtPageNum(v)) == a.pte_for(a.frames()[v].ppn()));
                }
                if a.spec_map_type() is Identical {
                    assert forall|v: u64| a.range().contains(v as int) implies #[trigger]
                        post.table().entry(VirtPageNum(v)) == a.pte_for(PhysPageNum(v)) by {
                        assert(pre.table().entry(VirtPageNum(v)) == a.pte_for(PhysPageNum(v)));
                    }
                }
            }
        }
        assert forall|j: int, k: int| 0 <= j < k < post.spec_areas().len() implies Self::disjoint(
            (#[trigger] post.spec_areas()[j]).range(),
            (#[trigger] post.spec_areas()[k]).range(),
        ) by {
            assert(Self::disjoint(pre.spec_areas()[j].range(), pre.spec_areas()[k].range()));
        }
        assert forall|v: VirtPageNum|
            v.0 < VPN_LIMIT && (#[trigger] post.table().entry(v)).spec_is_valid() implies post.covered(
            v.0,
        ) by {
            if lo <= v.0 < hi && !old_a.frames().contains_key(v.0) {
                assert(new_a.frames().contains_key(v.0));
                assert(Self::covers(&post.spec_areas()[i], v.0));
            } else {
                assert(pre.table().entry(v).spec_is_valid());
                assert(pre.covered(v.0));
                let j = choose|j: int|
                    0 <= j < pre.spec_areas().len() && Self::covers(&pre.spec_areas()[j], v.0);
                if j == i {
                    assert(new_a.frames().contains_key(v.0));
                }
                assert(Self::covers(&post.spec_areas()[j], v.0));
            }
        }
    }

    /// Materializes every page of the area at position `index`, in ascending
    /// order, until one fails.
    pub fn ensure_area(&mut self, allocator: &mut FrameAllocator, index: usize) -> (r: MMResult<()>)
        requires
            old(self).wf(),
            old(allocator).wf(),
            index < old(self).spec_areas().len(),
        ensures
            final(self).wf(),
            final(allocator).wf(),
            final(self).spec_areas() == old(self).spec_areas().update(
                index as int,
                final(self).spec_areas()[index as int],
            ),
            Self::kept_books(
                old(self),
                old(allocator).allocated(),
                final(self),
                final(allocator).allocated(),
            ),
            old(self).spec_areas()[index as int].spec_map_type() is Identical ==> {
                &&& r is Ok
                &&& *final(self) == *old(self)
                &&& *final(allocator) == *old(allocator)
            },
            old(self).spec_areas()[index as int].spec_map_type() is Framed ==> MapArea::ensure_outcome(
                &old(self).spec_areas()[index as int],
                &old(self).table(),
                old(allocator),
                &final(self).spec_areas()[index as int],
                &final(self).table(),
                final(allocator),
                old(self).spec_areas()[index as int].range().start(),
                old(self).spec_areas()[index as int].range().end(),
                r,
            ),
    {
        let ghost pre = *self;
        let ghost i = index as int;
        proof {
            assert(pre.spec_areas()[i].wf());
        }
        if self.areas[index].map_type() == MapType::Identical {
            return Ok(());
        }
        let r = self.areas[index].ensure_all(allocator, &mut self.page_table);
        proof {
            assert(self.spec_areas() =~= pre.spec_areas().update(i, self.spec_areas()[i]));
            let lo = pre.spec_areas()[i].range().start();
            let hi = pre.spec_areas()[i].range().end();
            match r {
                Ok(_) => {
                    Self::lemma_wf_ensured(&pre, old(allocator), self, allocator, i, lo, hi);
                    if pre.owns(old(allocator).allocated()) {
                        Self::lemma_owns_ensured(&pre, old(allocator), self, allocator, i, lo, hi);
                    }
                },
                Err(e) => {
                    let k = choose|k: u64|
                        {
                            &&& lo <= k < hi
                            &&& #[trigger] MapArea::ensured(
                                &pre.spec_areas()[i],
                                &pre.table(),
                                old(allocator),
                                &self.spec_areas()[i],
                                &self.table(),
                                allocator,
                                lo,
                                k as int,
                            )
                            &&& self.spec_areas()[i].ensure_page_result(
                                &self.table(),
                                allocator.free_count(),
                                VirtPageNum(k),
                            ) == Err::<(), MMError>(e)
                        };
                    Self::lemma_wf_ensured(&pre, old(allocator), self, allocator, i, lo, k as int);
                    if pre.owns(old(allocator).allocated()) {
                        Self::lemma_owns_ensured(
                            &pre,
                            old(allocator),
                            self,
                            allocator,
                            i,
                            lo,
                            k as int,
                        );
                    }
                },
            }
        }
        r
    }

    /// The numbers of the frames that the areas own.
    pub open spec fn area_ppns(&self) -> Set<u64> {
        Set::new(
            |p: u64|
                exists|i: int|
                    0 <= i < self.spec_areas().len() && (
                    #[trigger] self.spec_areas()[i]).ppns().contains(p),
        )
    }

    /// The numbers of the frames that the areas from position `n` on own.
    pub open spec fn area_ppns_from(&self, n: int) -> Set<u64> {
        Set::new(
            |p: u64|
                exists|i: int|
                    n <= i < self.spec_areas().len() && (
                    #[trigger] self.spec_areas()[i]).ppns().contains(p),
        )
    }

    /// Unmaps every area and takes it out: the frames of the areas are given
    /// back and no leaf entry stays valid. The page table keeps its own
    /// frames.
    pub fn recycle_data_pages(&mut self, allocator: &mut FrameAllocator)
        requires
            old(self).wf(),
            old(allocator).wf(),
        ensures
            final(self).wf(),
            final(allocator).wf(),
            final(self).spec_areas() == Seq::<MapArea>::empty(),
            final(self).table().spec_root_ppn() == old(self).table().spec_root_ppn(),
            final(self).table().frames() == old(self).table().frames(),
            forall|v: VirtPageNum|
                v.0 < VPN_LIMIT ==> #[trigger] final(self).table().entry(v)
                    == PageTableEntry::spec_empty(),
            final(allocator).allocated() == old(allocator).allocated().difference(
                old(self).area_ppns(),
            ),
            final(allocator).first() == old(allocator).first(),
            final(allocator).limit() == old(allocator).limit(),
            Self::kept_books(
                old(self),
                old(allocator).allocated(),
                final(self),
                final(allocator).allocated(),
            ),
    {
        let ghost pre = *self;
        proof {
            assert(pre.area_ppns_from(pre.spec_areas().len() as int) =~= Set::<u64>::empty());
            assert(allocator.allocated() =~= old(allocator).allocated().difference(
                pre.area_ppns_from(pre.spec_areas().len() as int),
            ));
            assert(self.spec_areas() =~= pre.spec_areas().take(pre.spec_areas().len() as int));
        }
        while self.areas.len() > 0
            invariant
                self.wf(),
                allocator.wf(),
                self.spec_areas().len() <= pre.spec_areas().len(),
                self.spec_areas() == pre.spec_areas().take(self.spec_areas().len() as int),
                self.table().spec_root_ppn() == pre.table().spec_root_ppn(),
                self.table().frames() == pre.table().frames(),
                Self::kept_books(&pre, old(allocator).allocated(), self, allocator.allocated()),
                allocator.allocated() == old(allocator).allocated().difference(
                    pre.area_ppns_from(self.spec_areas().len() as int),
                ),
                allocator.first() == old(allocator).first(),
                allocator.limit() == old(allocator).limit(),
            decreases self.spec_areas().len(),
        {
            let n: usize = self.areas.len();
            let ghost mid = *self;
            let ghost mid_alloc = *allocator;
            self.remove_area_at(allocator, n - 1);
            proof {
                let last = pre.spec_areas()[n - 1];
                assert(mid.spec_areas()[n - 1] == last);
                assert(self.spec_areas() =~= pre.spec_areas().take(n - 1));
                let snap_a = pre.area_ppns_from(n as int);
                let snap_b = pre.area_ppns_from(n - 1);
                assert(snap_b =~= snap_a.union(last.ppns())) by {
                    assert forall|p: u64| snap_b.contains(p) implies snap_a.union(last.ppns()).contains(
                        p,
                    ) by {
                        let i = choose|i: int|
                            n - 1 <= i < pre.spec_areas().len() && (
                            #[trigger] pre.spec_areas()[i]).ppns().contains(p);
                        if i >= n {
                            assert(snap_a.contains(p));
                        }
                    }
                    assert forall|p: u64| snap_a.union(last.ppns()).contains(p) implies snap_b.contains(
                        p,
                    ) by {
                        if snap_a.contains(p) {
                            let i = choose|i: int|
                                n <= i < pre.spec_areas().len() && (
                                #[trigger] pre.spec_areas()[i]).ppns().contains(p);
                            assert(n - 1 <= i < pre.spec_areas().len() && pre.spec_areas()[i].ppns().contains(
                                p,
                            ));
                        } else {
                            assert(pre.spec_areas()[n - 1].ppns().contains(p));
                        }
                    }
                }
                assert(allocator.allocated() =~= old(allocator).allocated().difference(snap_b));
            }
        }
        proof {
            assert(self.spec_areas() =~= Seq::<MapArea>::empty());
            assert(pre.area_ppns_from(0) =~= pre.area_ppns());
            assert forall|v: VirtPageNum| v.0 < VPN_LIMIT implies #[trigger] self.table().entry(v)
                == PageTableEntry::spec_empty() by {
                if self.table().entry(v).spec_is_valid() {
                    assert(self.covered(v.0));
                } else {
                    self.table().lemma_invalid_is_empty(v);
                }
            }
        }
    }

    /// Gives every frame of the address space back to the allocator: those
    /// of its areas and those of its page table.
    pub fn release(self, allocator: &mut FrameAllocator)
        requires
            self.wf(),
            old(allocator).wf(),
        ensures
            final(allocator).wf(),
            final(allocator).allocated() == old(allocator).allocated().difference(
                self.area_ppns(),
            ).difference(self.table().frames()),
            final(allocator).first() == old(allocator).first(),
            final(allocator).limit() == old(allocator).limit(),
    {
        let mut me = self;
        me.recycle_data_pages(allocator);
        let MemorySet { page_table, areas: _ } = me;
        page_table.release(allocator);
    }

    /// Whether the area at position `i` is the first that starts at the
    /// page of `start`, the page `new_end` lies at or past its end and
    /// within the virtual page numbers, and no area holds a page between its
    /// end and `new_end`.
    pub open spec fn appends_at(&self, i: int, start: VirtAddr, new_end: int) -> bool {
        &&& self.spec_areas()[i].range().start() == start.spec_floor().0
        &&& forall|j: int| 0 <= j < i ==> (#[trigger] self.spec_areas()[j]).range().start()
            != start.spec_floor().0
        &&& self.spec_areas()[i].range().end() <= new_end <= VPN_LIMIT
        &&& forall|j: int|
            0 <= j < self.spec_areas().len() ==> (#[trigger] self.spec_areas()[j]).range().start()
                >= self.spec_areas()[j].range().end() || self.spec_areas()[i].range().end()
                >= new_end || self.spec_areas()[j].range().end()
                <= self.spec_areas()[i].range().end() || new_end
                <= self.spec_areas()[j].range().start()
    }

    /// `post` is `pre` after the area at position `i` grew to end at the
    /// page `new_end`: a framed area has the same frames as before and the
    /// page table is untouched; the new pages of an identity-mapped area are
    /// mapped.
    pub open spec fn appended(
        pre: &MemorySet,
        pre_alloc: &FrameAllocator,
        post: &MemorySet,
        post_alloc: &FrameAllocator,
        i: int,
        new_end: int,
    ) -> bool {
        let a = pre.spec_areas()[i];
        let b = post.spec_areas()[i];
        &&& post.spec_areas() == pre.spec_areas().update(i, b)
        &&& b.range().start() == a.range().start()
        &&& b.range().end() == new_end
        &&& b.spec_map_type() == a.spec_map_type()
        &&& b.perm() == a.perm()
        &&& b.frames() == a.frames()
        &&& a.spec_map_type() is Framed ==> post.table() == pre.table() && *post_alloc
            == *pre_alloc
        &&& a.spec_map_type() is Identical ==> a.identity_mapped(
            &pre.table(),
            pre_alloc,
            &post.table(),
            post_alloc,
            a.range().end(),
            new_end,
        )
    }

    /// Grows the first area that starts at the page of `start` to end at the
    /// page that `new_end` rounds up to. Nothing changes, and `false` comes
    /// back, where no area starts there, where the new end lies before the
    /// old one or past the virtual page numbers, where another area holds
    /// one of the new pages, and where the new pages of an identity-mapped
    /// area cannot all be mapped for lack of frames.
    pub fn append_to(&mut self, allocator: &mut FrameAllocator, start: VirtAddr, new_end: VirtAddr) -> (r:
        bool)
        requires
            old(self).wf(),
            old(allocator).wf(),
        ensures
            final(self).wf(),
            final(allocator).wf(),
            r ==> exists|i: int|
                {
                    &&& 0 <= i < old(self).spec_areas().len()
                    &&& old(self).appends_at(i, start, new_end.spec_ceil().0 as int)
                    &&& #[trigger] Self::appended(
                        old(self),
                        old(allocator),
                        final(self),
                        final(allocator),
                        i,
                        new_end.spec_ceil().0 as int,
                    )
                },
            Self::kept_books(
                old(self),
                old(allocator).allocated(),
                final(self),
                final(allocator).allocated(),
            ),
            !r ==> Self::rolled_back(old(self), old(allocator), final(self), final(allocator)),
            (forall|i: int|
                0 <= i < old(self).spec_areas().len() ==> !#[trigger] old(self).appends_at(
                    i,
                    start,
                    new_end.spec_ceil().0 as int,
                )) ==> !r && *final(self) == *old(self) && *final(allocator) == *old(allocator),
            (exists|i: int|
                0 <= i < old(self).spec_areas().len() && #[trigger] old(self).appends_at(
                    i,
                    start,
                    new_end.spec_ceil().0 as int,
                ) && (old(self).spec_areas()[i].spec_map_type() is Framed || old(allocator).free_count() >= 2 * (new_end.spec_ceil().0 - old(self).spec_areas()[i].range().end()))) ==> r,
    {
        let ghost pre = *self;
        proof {
            assert(pre.table().frames() =~= pre.table().frames().union(
                allocator.allocated().difference(allocator.allocated()),
            ));
        }
        let idx = match self.find_area(start.floor()) {
            Some(i) => i,
            None => {
                return false;
            },
        };
        let ghost i = idx as int;
        let new_end_vpn = new_end.ceil();
        let range = self.areas[idx].get_range();
        let end_vpn = range.get_end();
        if new_end_vpn.0 < end_vpn.0 || new_end_vpn.0 > VPN_LIMIT {
            proof {
                assert forall|j: int| 0 <= j < pre.spec_areas().len() implies !#[trigger] pre.appends_at(
                    j,
                    start,
                    new_end.spec_ceil().0 as int,
                ) by {
                    if j > i {
                        assert(pre.spec_areas()[i].range().start() == start.spec_floor().0);
                    }
                }
            }
            return false;
        }
        let ext = VPNRange::new(end_vpn, new_end_vpn);
        if !self.check_free(ext) {
            proof {
                assert forall|j: int| 0 <= j < pre.spec_areas().len() implies !#[trigger] pre.appends_at(
                    j,
                    start,
                    new_end.spec_ceil().0 as int,
                ) by {
                    if j > i {
                        assert(pre.spec_areas()[i].range().start() == start.spec_floor().0);
                    }
                    if j == i && pre.appends_at(i, start, new_end.spec_ceil().0 as int) {
                        assert forall|k: int| 0 <= k < pre.spec_areas().len() implies Self::disjoint(
                            (#[trigger] pre.spec_areas()[k]).range(),
                            ext,
                        ) by {}
                    }
                }
            }
            return false;
        }
        proof {
            assert(pre.spec_areas()[i].wf());
            assert(pre.appends_at(i, start, new_end.spec_ceil().0 as int)) by {
                assert forall|j: int| 0 <= j < pre.spec_areas().len() implies (
                #[trigger] pre.spec_areas()[j]).range().start() >= pre.spec_areas()[j].range().end()
                    || pre.spec_areas()[i].range().end() >= new_end_vpn.0
                    || pre.spec_areas()[j].range().end() <= pre.spec_areas()[i].range().end()
                    || new_end_vpn.0 <= pre.spec_areas()[j].range().start() by {
                    assert(Self::disjoint(pre.spec_areas()[j].range(), ext));
                }
            }
        }
        match self.areas[idx].append_to(allocator, &mut self.page_table, new_end_vpn) {
            Ok(_) => {
                proof {
                    let a = pre.spec_areas()[i];
                    let b = self.spec_areas()[i];
                    assert(self.spec_areas() =~= pre.spec_areas().update(i, b));
                    assert(a.mapped_in(&pre.table()) && Self::identity_in(&a, &pre.table()));
                    assert forall|j: int| 0 <= j < self.spec_areas().len() implies {
                        &&& (#[trigger] self.spec_areas()[j]).wf()
                        &&& self.spec_areas()[j].mapped_in(&self.table())
                        &&& Self::identity_in(&self.spec_areas()[j], &self.table())
                    } by {
                        if j != i {
                            let c = pre.spec_areas()[j];
                            assert(self.spec_areas()[j] == c);
                            assert(c.wf() && c.mapped_in(&pre.table()) && Self::identity_in(
                                &c,
                                &pre.table(),
                            ));
                            assert(Self::disjoint(c.range(), ext));
                            assert forall|v: u64| #[trigger]
                                c.frames().contains_key(v) implies self.table().entry(
                                VirtPageNum(v),
                            ) == c.pte_for(c.frames()[v].ppn()) by {
                                assert(pre.table().entry(VirtPageNum(v)) == c.pte_for(
                                    c.frames()[v].ppn(),
                                ));
                            }
                            if c.spec_map_type() is Identical {
                                assert forall|v: u64| c.range().contains(v as int) implies #[trigger]
                                    self.table().entry(VirtPageNum(v)) == c.pte_for(
                                    PhysPageNum(v),
                                ) by {
                                    assert(pre.table().entry(VirtPageNum(v)) == c.pte_for(
                                        PhysPageNum(v),
                                    ));
                                }
                            }
                        } else {
                            if b.spec_map_type() is Identical {
                                assert forall|v: u64| b.range().contains(v as int) implies #[trigger]
                                    self.table().entry(VirtPageNum(v)) == b.pte_for(
                                    PhysPageNum(v),
                                ) by {
                                    if a.range().contains(v as int) {
                                        assert(pre.table().entry(VirtPageNum(v)) == a.pte_for(
                                            PhysPageNum(v),
                                        ));
                                    }
                                }
                            }
                        }
                    }
                    assert forall|j: int, k: int|
                        0 <= j < k < self.spec_areas().len() implies Self::disjoint(
                        (#[trigger] self.spec_areas()[j]).range(),
                        (#[trigger] self.spec_areas()[k]).range(),
                    ) by {
                        assert(Self::disjoint(
                            pre.spec_areas()[j].range(),
                            pre.spec_areas()[k].range(),
                        ));
                        assert(Self::disjoint(pre.spec_areas()[j].range(), ext));
                        assert(Self::disjoint(pre.spec_areas()[k].range(), ext));
                    }
                    assert forall|v: VirtPageNum|
                        v.0 < VPN_LIMIT && (
                        #[trigger] self.table().entry(v)).spec_is_valid() implies self.covered(
                        v.0,
                    ) by {
                        if a.spec_map_type() is Identical && ext.contains(v.0 as int) {
                            assert(Self::covers(&self.spec_areas()[i], v.0));
                        } else {
                            assert(pre.table().entry(v).spec_is_valid());
                            assert(pre.covered(v.0));
                            let j = choose|j: int|
                                0 <= j < pre.spec_areas().len() && Self::covers(
                                    &pre.spec_areas()[j],
                                    v.0,
                                );
                            assert(Self::covers(&self.spec_areas()[j], v.0));
                        }
                    }
                    assert(Self::appended(
                        old(self),
                        old(allocator),
                        self,
                        allocator,
                        i,
                        new_end.spec_ceil().0 as int,
                    ));
                    if pre.owns(old(allocator).allocated()) {
                        assert(self.table().frames() =~= pre.table().frames().union(
                            allocator.allocated().difference(old(allocator).allocated()),
                        ));
                        Self::lemma_owns_table_grown(&pre, old(allocator), self, allocator);
                    }
                }
                true
            },
            Err(e) => {
                let ghost mid = *self;
                let ghost mid_alloc = *allocator;
                self.areas[idx].unmap_pages(allocator, &mut self.page_table, end_vpn, new_end_vpn);
                proof {
                    let a = pre.spec_areas()[i];
                    assert(mid.spec_areas()[i] == a);
                    assert(self.spec_areas()[i] == a);
                    assert(self.spec_areas() =~= pre.spec_areas());
                    assert(a.ppns_in(end_vpn.0 as int, new_end_vpn.0 as int) =~= Set::<u64>::empty());
                    assert(allocator.allocated() =~= mid_alloc.allocated());
                    let k = choose|k: u64|
                        {
                            &&& end_vpn.0 <= k < new_end_vpn.0
                            &&& #[trigger] a.identity_mapped(
                                &pre.table(),
                                old(allocator),
                                &mid.table(),
                                &mid_alloc,
                                end_vpn.0 as int,
                                k as int,
                            )
                            &&& mid.table().map_result(mid_alloc.free_count(), VirtPageNum(k))
                                == Err::<(), MMError>(e)
                        };
                    pre.lemma_free_range_unmapped(ext, VirtPageNum(k));
                    mid.table().lemma_tables_needed(VirtPageNum(k));
                    assert forall|v: VirtPageNum| v.0 < VPN_LIMIT implies #[trigger]
                        self.table().entry(v) == pre.table().entry(v) by {
                        if ext.contains(v.0 as int) {
                            pre.lemma_free_range_unmapped(ext, v);
                        }
                    }
                    Self::lemma_wf_same_entries(&pre, self);
                    if pre.owns(old(allocator).allocated()) {
                        Self::lemma_owns_table_grown(&pre, old(allocator), self, allocator);
                    }
                }
                false
            },
        }
    }

    /// The position of the area that holds a frame for the page `vpn`.
    pub fn find_page(&self, vpn: VirtPageNum) -> (r: Option<usize>)
        requires
            self.wf(),
        ensures
            r matches Some(i) ==> self.holds_page(i as int, vpn.0),
            r is None ==> forall|i: int| !self.holds_page(i, vpn.0),
            r is Some == self.page(vpn.0) is Some,
    {
        let mut i: usize = 0;
        while i < self.areas.len()
            invariant
                0 <= i <= self.areas@.len(),
                forall|j: int| 0 <= j < i ==> !self.holds_page(j, vpn.0),
            decreases self.areas@.len() - i,
        {
            if self.areas[i].frame(vpn).is_some() {
                assert(self.holds_page(i as int, vpn.0));
                return Some(i);
            }
            i = i + 1;
        }
        None
    }

    /// The bytes `[start, end)` of the page `vpn`; `None` where no area
    /// holds a frame for the page.
    pub fn read_page(&self, vpn: VirtPageNum, start: usize, end: usize) -> (r: Option<Vec<u8>>)
        requires
            self.wf(),
            start <= end <= crate::config::PAGE_SIZE,
        ensures
            r is Some == self.page(vpn.0) is Some,
            r matches Some(bytes) ==> bytes@ == self.page(vpn.0)->0.subrange(
                start as int,
                end as int,
            ),
    {
        let idx = match self.find_page(vpn) {
            Some(i) => i,
            None => {
                return None;
            },
        };
        proof {
            self.lemma_page(idx as int, vpn.0);
            assert(self.spec_areas()[idx as int].wf());
        }
        match self.areas[idx].frame(vpn) {
            Some(frame) => {
                let bytes = frame.get_bytes_array();
                let part = vstd::slice::slice_subrange(bytes, start, end);
                Some(vstd::slice::slice_to_vec(part))
            },
            None => None,
        }
    }

    /// An address space stays well formed when only the bytes of its frames
    /// change.
    pub proof fn lemma_wf_content(pre: &MemorySet, post: &MemorySet, i: int)
        requires
            pre.wf(),
            post.table() == pre.table(),
            0 <= i < pre.spec_areas().len(),
            post.spec_areas() == pre.spec_areas().update(i, post.spec_areas()[i]),
            post.spec_areas()[i].wf(),
            post.spec_areas()[i].range() == pre.spec_areas()[i].range(),
            post.spec_areas()[i].spec_map_type() == pre.spec_areas()[i].spec_map_type(),
            post.spec_areas()[i].perm() == pre.spec_areas()[i].perm(),
            post.spec_areas()[i].frames().dom() == pre.spec_areas()[i].frames().dom(),
            forall|v: u64| #[trigger]
                post.spec_areas()[i].frames().contains_key(v) ==> post.spec_areas()[i].frames()[v].ppn()
                    == pre.spec_areas()[i].frames()[v].ppn(),
        ensures
            post.wf(),
            post.area_ppns() == pre.area_ppns(),
    {
        let a = pre.spec_areas()[i];
        let b = post.spec_areas()[i];
        assert(a.wf() && a.mapped_in(&pre.table()) && Self::identity_in(&a, &pre.table()));
        assert forall|j: int| 0 <= j < post.spec_areas().len() implies {
            &&& (#[trigger] post.spec_areas()[j]).wf()
            &&& post.spec_areas()[j].mapped_in(&post.table())
            &&& Self::identity_in(&post.spec_areas()[j], &post.table())
        } by {
            if j == i {
                assert forall|v: u64| #[trigger] b.frames().contains_key(v) implies post.table().entry(
                    VirtPageNum(v),
                ) == b.pte_for(b.frames()[v].ppn()) by {
                    assert(a.frames().dom().contains(v));
                    assert(a.frames().contains_key(v));
                }
                if b.spec_map_type() is Identical {
                    assert forall|v: u64| b.range().contains(v as int) implies #[trigger]
                        post.table().entry(VirtPageNum(v)) == b.pte_for(PhysPageNum(v)) by {
                        assert(pre.table().entry(VirtPageNum(v)) == a.pte_for(PhysPageNum(v)));
                    }
                }
            } else {
                assert(post.spec_areas()[j] == pre.spec_areas()[j]);
            }
        }
        assert forall|j: int, k: int| 0 <= j < k < post.spec_areas().len() implies Self::disjoint(
            (#[trigger] post.spec_areas()[j]).range(),
            (#[trigger] post.spec_areas()[k]).range(),
        ) by {
            assert(Self::disjoint(pre.spec_areas()[j].range(), pre.spec_areas()[k].range()));
        }
        assert forall|v: VirtPageNum|
            v.0 < VPN_LIMIT && (#[trigger] post.table().entry(v)).spec_is_valid() implies post.covered(
            v.0,
        ) by {
            assert(pre.covered(v.0));
            let j = choose|j: int|
                0 <= j < pre.spec_areas().len() && Self::covers(&pre.spec_areas()[j], v.0);
            if j == i {
                if a.frames().contains_key(v.0) {
                    assert(a.frames().dom().contains(v.0));
                    assert(b.frames().contains_key(v.0));
                }
            }
            assert(Self::covers(&post.spec_areas()[j], v.0));
        }
        assert(b.ppns() =~= a.ppns()) by {
            assert forall|p: u64| b.ppns().contains(p) implies a.ppns().contains(p) by {
                let v = choose|v: u64| #[trigger]
                    b.frames().contains_key(v) && b.frames()[v].ppn().0 == p;
                assert(a.frames().dom().contains(v));
                assert(a.frames().contains_key(v) && a.frames()[v].ppn().0 == p);
            }
            assert forall|p: u64| a.ppns().contains(p) implies b.ppns().contains(p) by {
                let v = choose|v: u64| #[trigger]
                    a.frames().contains_key(v) && a.frames()[v].ppn().0 == p;
                assert(b.frames().dom().contains(v));
                assert(b.frames().contains_key(v) && b.frames()[v].ppn().0 == p);
            }
        }
        assert(post.area_ppns() =~= pre.area_ppns()) by {
            assert forall|p: u64| post.area_ppns().contains(p) implies pre.area_ppns().contains(
                p,
            ) by {
                let j = choose|j: int|
                    0 <= j < post.spec_areas().len() && (
                    #[trigger] post.spec_areas()[j]).ppns().contains(p);
                assert(pre.spec_areas()[j].ppns().contains(p));
            }
            assert forall|p: u64| pre.area_ppns().contains(p) implies post.area_ppns().contains(
                p,
            ) by {
                let j = choose|j: int|
                    0 <= j < pre.spec_areas().len() && (
                    #[trigger] pre.spec_areas()[j]).ppns().contains(p);
                assert(post.spec_areas()[j].ppns().contains(p));
            }
        }
    }

    /// Copies `src` into the page `vpn`, from the byte `offset` of the page
    /// on. `false` comes back, and nothing happens, where no area holds a
    /// frame for the page.
    pub fn write_page(&mut self, vpn: VirtPageNum, offset: usize, src: &[u8]) -> (r: bool)
        requires
            old(self).wf(),
            offset + src@.len() <= crate::config::PAGE_SIZE,
        ensures
            final(self).wf(),
            r == old(self).page(vpn.0) is Some,
            final(self).table() == old(self).table(),
            final(self).spec_areas().len() == old(self).spec_areas().len(),
            final(self).area_ppns() == old(self).area_ppns(),
            !r ==> *final(self) == *old(self),
            forall|i: int, v: u64| final(self).holds_page(i, v) == old(self).holds_page(i, v),
            forall|i: int, v: u64|
                old(self).holds_page(i, v) ==> (#[trigger] final(self).spec_areas()[i].frames()[v]).ppn()
                    == old(self).spec_areas()[i].frames()[v].ppn(),
            forall|i: int|
                0 <= i < old(self).spec_areas().len() ==> {
                    &&& (#[trigger] final(self).spec_areas()[i]).range() == old(self).spec_areas()[i].range()
                    &&& final(self).spec_areas()[i].spec_map_type() == old(self).spec_areas()[i].spec_map_type()
                    &&& final(self).spec_areas()[i].perm() == old(self).spec_areas()[i].perm()
                },
            forall|v: u64|
                #[trigger] final(self).page(v) == if r && v == vpn.0 {
                    Some(
                        old(self).page(v)->0.subrange(0, offset as int) + src@ + old(self).page(
                            v,
                        )->0.subrange(offset + src@.len(), crate::config::PAGE_SIZE as int),
                    )
                } else {
                    old(self).page(v)
                },
    {
        let idx = match self.find_page(vpn) {
            Some(i) => i,
            None => {
                return false;
            },
        };
        let ghost pre = *self;
        let ghost i = idx as int;
        proof {
            pre.lemma_page(i, vpn.0);
            assert(pre.spec_areas()[i].wf());
        }
        let _ = self.areas[idx].write_page(vpn, offset, src);
        proof {
            assert(self.spec_areas() =~= pre.spec_areas().update(i, self.spec_areas()[i]));
            let a = pre.spec_areas()[i];
            let b = self.spec_areas()[i];
            Self::lemma_wf_content(&pre, self, i);
            assert forall|j: int, v: u64| self.holds_page(j, v) == pre.holds_page(j, v) by {
                if j == i {
                    assert(b.frames().dom().contains(v) == a.frames().dom().contains(v));
                }
            }
            assert forall|v: u64| #[trigger] self.page(v) == if v == vpn.0 {
                Some(
                    pre.page(v)->0.subrange(0, offset as int) + src@ + pre.page(v)->0.subrange(
                        offset + src@.len(),
                        crate::config::PAGE_SIZE as int,
                    ),
                )
            } else {
                pre.page(v)
            } by {
                if exists|j: int| pre.holds_page(j, v) {
                    let j = choose|j: int| pre.holds_page(j, v);
                    pre.lemma_page(j, v);
                    assert(self.holds_page(j, v));
                    self.lemma_page(j, v);
                    if v == vpn.0 {
                        pre.lemma_page_owner_unique(i, j, v);
                    } else if j == i {
                        assert(b.frames()[v] == a.frames()[v]);
                    }
                } else {
                    assert forall|j: int| !self.holds_page(j, v) by {
                        assert(self.holds_page(j, v) == pre.holds_page(j, v));
                    }
                }
            }
        }
        true
    }

    /// Whether `copy` has the range, the kind and the permissions of `src`,
    /// the same pages materialized, and the same bytes in each of them.
    pub open spec fn mirrors(copy: &MapArea, src: &MapArea) -> bool {
        &&& copy.range() == src.range()
        &&& copy.spec_map_type() == src.spec_map_type()
        &&& copy.perm() == src.perm()
        &&& copy.frames().dom() == src.frames().dom()
        &&& forall|v: u64| #[trigger]
            copy.frames().contains_key(v) ==> copy.frames()[v]@ == src.frames()[v]@
    }

    /// Whether every frame of the address space was handed out between the
    /// moment when the frames `before` were handed out and the moment when
    /// the frames `after` are, and no other frame was.
    pub open spec fn fresh_in(&self, before: Set<u64>, after: Set<u64>) -> bool {
        &&& after == before.union(self.frames())
        &&& before.disjoint(self.frames())
    }

    /// An address space whose frames were all taken after those of another
    /// were handed out shares no frame with it.
    pub proof fn lemma_shares_no_frame(
        copy: &MemorySet,
        other: &MemorySet,
        before: Set<u64>,
        after: Set<u64>,
    )
        requires
            copy.fresh_in(before, after),
            other.frames().subset_of(before),
        ensures
            copy.frames().disjoint(other.frames()),
            copy.area_ppns().disjoint(other.area_ppns()),
    {
        assert forall|p: u64| copy.area_ppns().contains(p) implies !other.area_ppns().contains(
            p,
        ) by {
            assert(copy.frames().contains(p));
            if other.area_ppns().contains(p) {
                assert(other.frames().contains(p));
            }
        }
    }

    /// The frames of the areas after an area was added.
    pub proof fn lemma_area_ppns_push(pre: &MemorySet, post: &MemorySet, area: &MapArea)
        requires
            post.spec_areas() == pre.spec_areas().push(*area),
        ensures
            post.area_ppns() == pre.area_ppns().union(area.ppns()),
    {
        let n = pre.spec_areas().len() as int;
        assert forall|p: u64| post.area_ppns().contains(p) implies pre.area_ppns().union(
            area.ppns(),
        ).contains(p) by {
            let j = choose|j: int|
                0 <= j < post.spec_areas().len() && (#[trigger] post.spec_areas()[j]).ppns().contains(
                    p,
                );
            if j < n {
                assert(pre.spec_areas()[j].ppns().contains(p));
            }
        }
        assert forall|p: u64| pre.area_ppns().union(area.ppns()).contains(
            p,
        ) implies post.area_ppns().contains(p) by {
            if pre.area_ppns().contains(p) {
                let j = choose|j: int|
                    0 <= j < pre.spec_areas().len() && (
                    #[trigger] pre.spec_areas()[j]).ppns().contains(p);
                assert(post.spec_areas()[j].ppns().contains(p));
            } else {
                assert(post.spec_areas()[n].ppns().contains(p));
            }
        }
        assert(post.area_ppns() =~= pre.area_ppns().union(area.ppns()));
    }

    /// The frames of the areas after one area came to own more frames.
    pub proof fn lemma_area_ppns_grow(pre: &MemorySet, post: &MemorySet, i: int, extra: Set<u64>)
        requires
            0 <= i < pre.spec_areas().len(),
            post.spec_areas() == pre.spec_areas().update(i, post.spec_areas()[i]),
            post.spec_areas()[i].ppns() == pre.spec_areas()[i].ppns().union(extra),
        ensures
            post.area_ppns() == pre.area_ppns().union(extra),
    {
        assert forall|p: u64| post.area_ppns().contains(p) implies pre.area_ppns().union(
            extra,
        ).contains(p) by {
            let j = choose|j: int|
                0 <= j < post.spec_areas().len() && (#[trigger] post.spec_areas()[j]).ppns().contains(
                    p,
                );
            if j == i {
                if !extra.contains(p) {
                    assert(pre.spec_areas()[i].ppns().contains(p));
                }
            } else {
                assert(pre.spec_areas()[j].ppns().contains(p));
            }
        }
        assert forall|p: u64| pre.area_ppns().union(extra).contains(
            p,
        ) implies post.area_ppns().contains(p) by {
            if pre.area_ppns().contains(p) {
                let j = choose|j: int|
                    0 <= j < pre.spec_areas().len() && (
                    #[trigger] pre.spec_areas()[j]).ppns().contains(p);
                assert(post.spec_areas()[j].ppns().contains(p));
            } else {
                assert(post.spec_areas()[i].ppns().contains(p));
            }
        }
        assert(post.area_ppns() =~= pre.area_ppns().union(extra));
    }

    /// Adds a copy of the area `src`: the same range, kind and permissions,
    /// and for each page that `src` has materialized a frame of its own with
    /// the same bytes. After a failure the address space is well formed, with
    /// what was copied so far.
    fn clone_area(
        &mut self,
        allocator: &mut FrameAllocator,
        src: &MapArea,
        Ghost(before): Ghost<Set<u64>>,
    ) -> (r: MMResult<()>)
        requires
            old(self).wf(),
            old(allocator).wf(),
            src.wf(),
            old(self).is_free(src.range()),
            old(self).fresh_in(before, old(allocator).allocated()),
            old(self).owns(old(allocator).allocated()),
        ensures
            final(self).wf(),
            final(allocator).wf(),
            final(self).owns(final(allocator).allocated()),
            final(allocator).first() == old(allocator).first(),
            final(allocator).limit() == old(allocator).limit(),
            final(self).fresh_in(before, final(allocator).allocated()),
            final(self).table().spec_root_ppn() == old(self).table().spec_root_ppn(),
            r is Err ==> r == Err::<(), MMError>(MMError::NotEnoughMemory),
            r is Ok ==> {
                &&& final(self).spec_areas().len() == old(self).spec_areas().len() + 1
                &&& final(self).spec_areas().drop_last() == old(self).spec_areas()
                &&& Self::mirrors(&final(self).spec_areas().last(), src)
                &&& final(allocator).free_count() >= old(allocator).free_count() - 3
                    * src.range().spec_len()
            },
            old(allocator).free_count() >= 3 * src.range().spec_len() ==> r is Ok,
    {
        let ghost pre = *self;
        let area = MapArea::from_another(src);
        let ghost fresh_area = area;
        proof {
            assert(area.ppns() =~= Set::<u64>::empty());
        }
        match self.push(allocator, area, None) {
            Ok(_) => {},
            Err(e) => {
                proof {
                    assert(self.area_ppns() =~= pre.area_ppns());
                    assert(self.frames() =~= pre.frames().union(
                        allocator.allocated().difference(old(allocator).allocated()),
                    ));
                    assert(allocator.allocated() =~= before.union(self.frames()));
                }
                return Err(e);
            },
        }
        let idx: usize = self.areas.len() - 1;
        let ghost i = idx as int;
        proof {
            assert(self.spec_areas() =~= pre.spec_areas().push(self.spec_areas().last()));
            Self::lemma_area_ppns_push(&pre, self, &self.spec_areas().last());
            assert(self.spec_areas().last().ppns() =~= Set::<u64>::empty());
            assert(self.frames() =~= pre.frames().union(
                allocator.allocated().difference(old(allocator).allocated()),
            ));
            assert(allocator.allocated() =~= before.union(self.frames()));
        }
        let range = src.get_range();
        let mut vpn: VirtPageNum = range.get_start();
        let end: VirtPageNum = range.get_end();
        let ghost free0 = old(allocator).free_count() as int;
        let ghost base = allocator.free_count() as int;
        let ghost first = range.start();
        proof {
            range.lemma_bounds();
        }
        while vpn.0 < end.0
            invariant
                free0 == old(allocator).free_count(),
                first == range.start(),
                first <= vpn.0 <= end.0,
                base >= free0 - (if src.spec_map_type() is Framed {
                    0int
                } else {
                    3 * src.range().spec_len()
                }),
                src.spec_map_type() is Identical ==> allocator.free_count() == base,
                src.spec_map_type() is Framed ==> allocator.free_count() >= base - 3 * (vpn.0
                    - first),
                range == src.range(),
                end.0 == range.end(),
                range.start() <= vpn.0 <= end.0 || range.start() >= end.0,
                src.wf(),
                self.wf(),
                allocator.wf(),
                allocator.first() == old(allocator).first(),
                allocator.limit() == old(allocator).limit(),
                self.table().spec_root_ppn() == pre.table().spec_root_ppn(),
                pre == *old(self),
                i == idx,
                self.spec_areas().len() == pre.spec_areas().len() + 1,
                i == pre.spec_areas().len(),
                self.spec_areas().drop_last() == pre.spec_areas(),
                self.spec_areas()[i].range() == src.range(),
                self.spec_areas()[i].spec_map_type() == src.spec_map_type(),
                self.spec_areas()[i].perm() == src.perm(),
                forall|v: u64|
                    self.spec_areas()[i].frames().contains_key(v) <==> #[trigger] src.frames().contains_key(
                        v,
                    ) && v < vpn.0,
                forall|v: u64| #[trigger]
                    self.spec_areas()[i].frames().contains_key(v) ==> self.spec_areas()[i].frames()[v]@
                        == src.frames()[v]@,
                self.fresh_in(before, allocator.allocated()),
                self.owns(allocator.allocated()),
            decreases end.0 - vpn.0,
        {
            match src.frame(vpn) {
                Some(frame) => {
                    let ghost mid = *self;
                    let ghost mid_alloc = *allocator;
                    let ghost a = mid.spec_areas()[i];
                    proof {
                        assert(a.wf() && a.mapped_in(&mid.table()));
                        assert(src.frames().contains_key(vpn.0));
                        assert(a.spec_map_type() is Framed);
                    }
                    let one = VPNRange::by_len(vpn, 1);
                    let ensured = self.areas[idx].ensure_range(
                        allocator,
                        &mut self.page_table,
                        one,
                    );
                    proof {
                        assert(self.spec_areas() =~= mid.spec_areas().update(
                            i,
                            self.spec_areas()[i],
                        ));
                        assert(self.spec_areas().drop_last() =~= pre.spec_areas());
                        let lo = vpn.0 as int;
                        let b = self.spec_areas()[i];
                        let hi = if ensured is Ok {
                            lo + 1
                        } else {
                            lo
                        };
                        assert(a.range().intersection_bounds(one) == (lo, lo + 1));
                        mid.table().lemma_tables_needed(vpn);
                        if let Err(e) = ensured {
                            let k = choose|k: u64|
                                {
                                    &&& lo <= k < lo + 1
                                    &&& #[trigger] MapArea::ensured(
                                        &a,
                                        &mid.table(),
                                        &mid_alloc,
                                        &b,
                                        &self.table(),
                                        allocator,
                                        lo,
                                        k as int,
                                    )
                                    &&& b.ensure_page_result(
                                        &self.table(),
                                        allocator.free_count(),
                                        VirtPageNum(k),
                                    ) == Err::<(), MMError>(e)
                                };
                            assert(k == lo);
                            assert(!b.frames().contains_key(k));
                            mid.lemma_free_page_unmapped(i, VirtPageNum(k));
                            self.table().lemma_tables_needed(VirtPageNum(k));
                        }
                        assert(MapArea::ensured(
                            &a,
                            &mid.table(),
                            &mid_alloc,
                            &b,
                            &self.table(),
                            allocator,
                            lo,
                            hi,
                        ));
                        Self::lemma_wf_ensured(&mid, &mid_alloc, self, allocator, i, lo, hi);
                        Self::lemma_owns_ensured(&mid, &mid_alloc, self, allocator, i, lo, hi);
                        MapArea::lemma_ensured_ppns(
                            &a,
                            &mid.table(),
                            &mid_alloc,
                            &b,
                            &self.table(),
                            allocator,
                            lo,
                            hi,
                        );
                        let fresh = MapArea::fresh_ppns(&a, &b, lo, hi);
                        Self::lemma_area_ppns_grow(&mid, self, i, fresh);
                        assert(allocator.allocated() =~= before.union(self.frames()));
                        assert(before.disjoint(self.frames()));
                    }
                    match ensured {
                        Ok(_) => {},
                        Err(e) => {
                            return Err(e);
                        },
                    }
                    let ghost mid2 = *self;
                    let _ = self.areas[idx].write_page(vpn, 0, frame.get_bytes_array());
                    proof {
                        assert(self.spec_areas() =~= mid2.spec_areas().update(
                            i,
                            self.spec_areas()[i],
                        ));
                        assert(self.spec_areas().drop_last() =~= pre.spec_areas());
                        Self::lemma_wf_content(&mid2, self, i);
                        assert forall|j: int, v: u64| self.holds_page(j, v) == mid2.holds_page(
                            j,
                            v,
                        ) by {
                            if j == i {
                                assert(self.spec_areas()[i].frames().dom().contains(v)
                                    == mid2.spec_areas()[i].frames().dom().contains(v));
                            } else if 0 <= j < self.spec_areas().len() {
                                assert(self.spec_areas()[j] == mid2.spec_areas()[j]);
                            }
                        }
                        assert forall|j: int, v: u64| mid2.holds_page(j, v) implies (
                        #[trigger] self.spec_areas()[j].frames()[v]).ppn()
                            == mid2.spec_areas()[j].frames()[v].ppn() by {
                            if j != i {
                                assert(self.spec_areas()[j] == mid2.spec_areas()[j]);
                            }
                        }
                        Self::lemma_owns_content(&mid2, self, allocator.allocated());
                        let c = self.spec_areas()[i];
                        assert(frame.wf());
                        assert(c.frames()[vpn.0]@ =~= frame@);
                        assert forall|v: u64|
                            c.frames().contains_key(v) <==> #[trigger] src.frames().contains_key(v)
                                && v < vpn.0 + 1 by {
                            assert(c.frames().dom().contains(v) == mid2.spec_areas()[i].frames().dom().contains(
                                v,
                            ));
                            assert(mid2.spec_areas()[i].frames().contains_key(v) == (
                            a.frames().contains_key(v) || v == vpn.0));
                        }
                        assert forall|v: u64| #[trigger] c.frames().contains_key(v) implies c.frames()[v]@
                            == src.frames()[v]@ by {
                            if v != vpn.0 {
                                assert(a.frames().contains_key(v));
                                assert(mid2.spec_areas()[i].frames()[v] == a.frames()[v]);
                            }
                        }
                    }
                },
                None => {},
            }
            vpn.step();
        }
        proof {
            let c = self.spec_areas()[i];
            assert(c.frames().dom() =~= src.frames().dom()) by {
                assert forall|v: u64| src.frames().dom().contains(v) implies c.frames().dom().contains(
                    v,
                ) by {
                    assert(src.frames().contains_key(v));
                    assert(src.range().contains(v as int));
                }
            }
        }
        Ok(())
    }

    /// A page of an area that holds no frame for it has no valid leaf entry,
    /// unless the area is identity-mapped.
    pub proof fn lemma_free_page_unmapped(&self, i: int, v: VirtPageNum)
        requires
            self.wf(),
            0 <= i < self.spec_areas().len(),
            self.spec_areas()[i].range().contains(v.0 as int),
            self.spec_areas()[i].spec_map_type() is Framed,
            !self.spec_areas()[i].frames().contains_key(v.0),
        ensures
            v.0 < VPN_LIMIT,
            self.table().entry(v) == PageTableEntry::spec_empty(),
    {
        assert(self.spec_areas()[i].wf());
        if self.table().entry(v).spec_is_valid() {
            assert(self.covered(v.0));
            let j = choose|j: int|
                0 <= j < self.spec_areas().len() && Self::covers(&self.spec_areas()[j], v.0);
            if j < i {
                assert(Self::disjoint(self.spec_areas()[j].range(), self.spec_areas()[i].range()));
            } else if i < j {
                assert(Self::disjoint(self.spec_areas()[i].range(), self.spec_areas()[j].range()));
            }
        } else {
            self.table().lemma_invalid_is_empty(v);
        }
    }

    /// The number of pages in the ranges of the first `n` areas.
    pub open spec fn span(&self, n: int) -> int
        decreases n,
    {
        if n <= 0 {
            0
        } else {
            self.span(n - 1) + self.spec_areas()[n - 1].range().spec_len()
        }
    }

    /// The ranges of more areas hold no fewer pages.
    pub proof fn lemma_span(&self, m: int, n: int)
        requires
            self.wf(),
            0 <= m <= n <= self.spec_areas().len(),
        ensures
            0 <= self.span(m) <= self.span(n),
        decreases n,
    {
        if n > 0 {
            assert(self.spec_areas()[n - 1].wf());
            if m < n {
                self.lemma_span(m, n - 1);
            } else {
                self.lemma_span(m - 1, n - 1);
            }
        }
    }

    /// A copy of the address space `other`: a page table of its own, the
    /// same areas in the same order, and for each materialized page a frame
    /// of its own with the same bytes. Only a lack of frames makes this
    /// fail, and every frame that was taken on the way is given back before
    /// it does; one frame, and three more for each page in the ranges of the
    /// areas, are always enough.
    pub fn from_existed_user(allocator: &mut FrameAllocator, other: &MemorySet) -> (r: MMResult<
        MemorySet,
    >)
        requires
            old(allocator).wf(),
            other.wf(),
        ensures
            final(allocator).wf(),
            final(allocator).first() == old(allocator).first(),
            final(allocator).limit() == old(allocator).limit(),
            r matches Ok(ms) ==> {
                &&& ms.wf()
                &&& ms.spec_areas().len() == other.spec_areas().len()
                &&& forall|i: int|
                    0 <= i < other.spec_areas().len() ==> Self::mirrors(
                        &#[trigger] ms.spec_areas()[i],
                        &other.spec_areas()[i],
                    )
                &&& ms.fresh_in(old(allocator).allocated(), final(allocator).allocated())
                &&& ms.owns(final(allocator).allocated())
                &&& ms.table().spec_root_ppn().0 == old(allocator).next()
            },
            r matches Err(e) ==> e == MMError::NotEnoughMemory && final(allocator).allocated() == old(allocator).allocated(),
            old(allocator).free_count() >= 1 + 3 * other.span(other.spec_areas().len() as int)
                ==> r is Ok,
    {
        let ghost before = allocator.allocated();
        let ghost free0 = allocator.free_count() as int;
        proof {
            other.lemma_span(0, other.spec_areas().len() as int);
        }
        let mut ms = match MemorySet::new_bare(allocator) {
            Ok(ms) => ms,
            Err(e) => {
                return Err(e);
            },
        };
        proof {
            assert(ms.area_ppns() =~= Set::<u64>::empty());
            assert(ms.frames() =~= set![old(allocator).next()]);
            assert(allocator.allocated() =~= before.union(ms.frames()));
        }
        let n: usize = other.areas.len();
        let mut i: usize = 0;
        while i < n
            invariant
                n == other.spec_areas().len(),
                0 <= i <= n,
                other.wf(),
                ms.wf(),
                allocator.wf(),
                allocator.first() == old(allocator).first(),
                allocator.limit() == old(allocator).limit(),
                ms.spec_areas().len() == i,
                ms.table().spec_root_ppn().0 == old(allocator).next(),
                forall|j: int|
                    0 <= j < i ==> Self::mirrors(
                        &#[trigger] ms.spec_areas()[j],
                        &other.spec_areas()[j],
                    ),
                ms.fresh_in(before, allocator.allocated()),
                ms.owns(allocator.allocated()),
                before == old(allocator).allocated(),
                free0 == old(allocator).free_count(),
                allocator.free_count() >= free0 - 1 - 3 * other.span(i as int),
            decreases n - i,
        {
            let src = &other.areas[i];
            let ghost mid = ms;
            proof {
                other.lemma_span(i + 1, n as int);
                other.lemma_span(i as int, i + 1);
                assert(other.spec_areas()[i as int].wf());
                assert forall|j: int| 0 <= j < ms.spec_areas().len() implies Self::disjoint(
                    (#[trigger] ms.spec_areas()[j]).range(),
                    src.range(),
                ) by {
                    assert(Self::mirrors(&ms.spec_areas()[j], &other.spec_areas()[j]));
                    assert(Self::disjoint(
                        other.spec_areas()[j].range(),
                        other.spec_areas()[i as int].range(),
                    ));
                }
            }
            match ms.clone_area(allocator, src, Ghost(before)) {
                Ok(_) => {
                    proof {
                        assert forall|j: int| 0 <= j < i + 1 implies Self::mirrors(
                            &#[trigger] ms.spec_areas()[j],
                            &other.spec_areas()[j],
                        ) by {
                            if j < i {
                                assert(ms.spec_areas()[j] == ms.spec_areas().drop_last()[j]);
                                assert(Self::mirrors(
                                    &mid.spec_areas()[j],
                                    &other.spec_areas()[j],
                                ));
                            }
                        }
                    }
                },
                Err(e) => {
                    proof {
                        assert(allocator.allocated().difference(ms.area_ppns()).difference(
                            ms.table().frames(),
                        ) =~= before);
                    }
                    ms.release(allocator);
                    return Err(e);
                },
            }
            i = i + 1;
        }
        Ok(ms)
    }
}

} // verus!

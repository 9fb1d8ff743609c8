//! The address space of the kernel itself: its sections and the physical
//! memory that it manages, each mapped to the frames of the same numbers.

use vstd::prelude::*;
use crate::mm::address::{VirtAddr, VA_LIMIT};
use crate::mm::flags::{MapPermission, MAP_R, MAP_W, MAP_X};
use crate::mm::frame_allocator::{FrameAllocator, FrameTracker};
use crate::mm::loader::LoadError;
use crate::mm::memory_area::{MapArea, MapType};
use crate::mm::memory_set::MemorySet;

verus! {

/// Where the kernel lies in memory: the sections of its image in ascending
/// order, and the end of the physical memory that follows them.
#[derive(Copy, Clone, Debug, PartialEq, Eq, Structural)]
pub struct KernelLayout {
    pub stext: u64,
    pub etext: u64,
    pub srodata: u64,
    pub erodata: u64,
    pub sdata: u64,
    pub edata: u64,
    pub sbss: u64,
    pub ebss: u64,
    pub ekernel: u64,
    pub memory_end: u64,
}

impl KernelLayout {
    /// The address at which the section number `i` starts: the text, the
    /// read-only data, the data, the zeroed data, and the physical memory
    /// after the kernel.
    pub open spec fn section_start(&self, i: int) -> u64 {
        if i == 0 {
            self.stext
        } else if i == 1 {
            self.srodata
        } else if i == 2 {
            self.sdata
        } else if i == 3 {
            self.sbss
        } else {
            self.ekernel
        }
    }

    /// The address at which the section number `i` ends.
    pub open spec fn section_end(&self, i: int) -> u64 {
        if i == 0 {
            self.etext
        } else if i == 1 {
            self.erodata
        } else if i == 2 {
            self.edata
        } else if i == 3 {
            self.ebss
        } else {
            self.memory_end
        }
    }

    /// The permissions of the section number `i`: the text may be read and
    /// executed, the read-only data read, and the rest read and written. No
    /// section may be both written and executed.
    pub open spec fn section_perm(i: int) -> u8 {
        if i == 0 {
            (MAP_R + MAP_X) as u8
        } else if i == 1 {
            MAP_R
        } else {
            (MAP_R + MAP_W) as u8
        }
    }

    /// Whether the layout can be mapped: no section ends before it starts,
    /// each section starts on a page at or after the one on which the one
    /// before it ends, and the last ends within the virtual addresses.
    pub open spec fn valid(&self) -> bool {
        &&& forall|i: int| 0 <= i < 5 ==> self.section_start(i) <= #[trigger] self.section_end(i)
        &&& forall|i: int|
            0 <= i < 4 ==> VirtAddr(#[trigger] self.section_end(i)).spec_ceil().0 <= VirtAddr(
                self.section_start(i + 1),
            ).spec_floor().0
        &&& self.memory_end <= VA_LIMIT
    }

    /// The number of pages that the section number `i` takes.
    pub open spec fn section_pages(&self, i: int) -> int {
        VirtAddr(self.section_end(i)).spec_ceil().0 - VirtAddr(self.section_start(i)).spec_floor().0
    }

    /// The number of pages that the five sections take together.
    pub open spec fn pages(&self) -> int {
        self.section_pages(0) + self.section_pages(1) + self.section_pages(2)
            + self.section_pages(3) + self.section_pages(4)
    }

    /// Whether the layout can be mapped.
    pub fn check(&self) -> (r: bool)
        ensures
            r == self.valid(),
    {
        let ok = self.stext <= self.etext && self.srodata <= self.erodata && self.sdata
            <= self.edata && self.sbss <= self.ebss && self.ekernel <= self.memory_end
            && self.memory_end <= VA_LIMIT;
        if !ok {
            proof {
                assert(self.section_end(0) == self.etext);
                assert(self.section_end(1) == self.erodata);
                assert(self.section_end(2) == self.edata);
                assert(self.section_end(3) == self.ebss);
                assert(self.section_end(4) == self.memory_end);
            }
            return false;
        }
        let apart = VirtAddr(self.etext).ceil().0 <= VirtAddr(self.srodata).floor().0 && VirtAddr(
            self.erodata,
        ).ceil().0 <= VirtAddr(self.sdata).floor().0 && VirtAddr(self.edata).ceil().0 <= VirtAddr(
            self.sbss,
        ).floor().0 && VirtAddr(self.ebss).ceil().0 <= VirtAddr(self.ekernel).floor().0;
        proof {
            assert(self.section_end(0) == self.etext && self.section_start(1) == self.srodata);
            assert(self.section_end(1) == self.erodata && self.section_start(2) == self.sdata);
            assert(self.section_end(2) == self.edata && self.section_start(3) == self.sbss);
            assert(self.section_end(3) == self.ebss && self.section_start(4) == self.ekernel);
        }
        apart
    }
}

impl MemorySet {
    /// Whether the area is the identity mapping of the addresses
    /// `[start, end)` with the permissions `bits`.
    pub open spec fn is_section(area: &MapArea, start: u64, end: u64, bits: u8) -> bool {
        &&& area.range().start() == VirtAddr(start).spec_floor().0
        &&& area.range().end() == VirtAddr(end).spec_ceil().0
        &&& area.spec_map_type() is Identical
        &&& area.perm().bits() == bits
        &&& area.frames() == Map::<u64, FrameTracker>::empty()
    }

    /// Adds the identity mapping of a section whose pages no area holds.
    fn map_section(
        &mut self,
        allocator: &mut FrameAllocator,
        start: u64,
        end: u64,
        bits: u8,
        Ghost(before): Ghost<Set<u64>>,
    ) -> (r: bool)
        requires
            old(self).wf(),
            old(allocator).wf(),
            start <= end <= VA_LIMIT,
            bits == MAP_R || bits == MAP_R + MAP_W || bits == MAP_R + MAP_X,
            old(self).is_free_between(
                VirtAddr(start).spec_floor().0 as int,
                VirtAddr(end).spec_ceil().0 as int,
            ),
            old(self).fresh_in(before, old(allocator).allocated()),
            old(self).owns(old(allocator).allocated()),
        ensures
            final(self).wf(),
            final(allocator).wf(),
            final(self).owns(final(allocator).allocated()),
            final(allocator).first() == old(allocator).first(),
            final(allocator).limit() == old(allocator).limit(),
            final(self).fresh_in(before, final(allocator).allocated()),
            final(self).table().spec_root_ppn() == old(self).table().spec_root_ppn(),
            !r ==> final(self).spec_areas() == old(self).spec_areas(),
            r ==> {
                &&& final(self).spec_areas().len() == old(self).spec_areas().len() + 1
                &&& final(self).spec_areas().drop_last() == old(self).spec_areas()
                &&& Self::is_section(&final(self).spec_areas().last(), start, end, bits)
            },
            old(allocator).free_count() >= 3 * (VirtAddr(end).spec_ceil().0 - VirtAddr(
                start,
            ).spec_floor().0) ==> r,
            r ==> final(allocator).free_count() >= old(allocator).free_count() - 3 * (VirtAddr(
                end,
            ).spec_ceil().0 - VirtAddr(start).spec_floor().0),
    {
        let ghost pre = *self;
        assert(bits & !0x1eu8 == 0) by (bit_vector)
            requires
                bits == 2 || bits == 6 || bits == 10,
        ;
        let perm = MapPermission::from_bits(bits).unwrap();
        let area = MapArea::new(VirtAddr(start), VirtAddr(end), MapType::Identical, perm);
        proof {
            assert(area.ppns() =~= Set::<u64>::empty());
        }
        match self.push(allocator, area, None) {
            Ok(_) => {
                proof {
                    assert(self.spec_areas() =~= pre.spec_areas().push(area));
                    Self::lemma_area_ppns_push(&pre, self, &area);
                    assert(self.frames() =~= pre.frames().union(
                        allocator.allocated().difference(old(allocator).allocated()),
                    ));
                    assert(allocator.allocated() =~= before.union(self.frames()));
                }
                true
            },
            Err(_) => {
                proof {
                    assert(self.area_ppns() =~= pre.area_ppns());
                    assert(self.frames() =~= pre.frames().union(
                        allocator.allocated().difference(old(allocator).allocated()),
                    ));
                    assert(allocator.allocated() =~= before.union(self.frames()));
                }
                false
            },
        }
    }

    /// The address space of the kernel: the text, the read-only data, the
    /// data, the zeroed data and the physical memory after the kernel, each
    /// mapped page by page to the frame of the same number, with the
    /// permissions of [`KernelLayout::section_perm`]. A layout that cannot
    /// be mapped is refused, and every frame that was taken is given back
    /// before a failure is reported. For a layout that can be mapped, one
    /// free frame and three more for each page of the sections are always
    /// enough.
    pub fn new_kernel(allocator: &mut FrameAllocator, layout: &KernelLayout) -> (r: Result<
        MemorySet,
        LoadError,
    >)
        requires
            old(allocator).wf(),
        ensures
            final(allocator).wf(),
            final(allocator).first() == old(allocator).first(),
            final(allocator).limit() == old(allocator).limit(),
            r is Err ==> final(allocator).allocated() == old(allocator).allocated(),
            r == Err::<MemorySet, LoadError>(LoadError::Invalid) <==> !layout.valid(),
            layout.valid() && old(allocator).free_count() == 0 ==> r is Err,
            layout.valid() && old(allocator).free_count() >= 1 + 3 * layout.pages() ==> r is Ok,
            r matches Ok(ms) ==> {
                &&& ms.wf()
                &&& ms.fresh_in(old(allocator).allocated(), final(allocator).allocated())
                &&& ms.owns(final(allocator).allocated())
                &&& ms.spec_areas().len() == 5
                &&& forall|i: int|
                    0 <= i < 5 ==> Self::is_section(
                        &#[trigger] ms.spec_areas()[i],
                        layout.section_start(i),
                        layout.section_end(i),
                        KernelLayout::section_perm(i),
                    )
            },
    {
        let ghost before = allocator.allocated();
        if !layout.check() {
            return Err(LoadError::Invalid);
        }
        let mut ms = match MemorySet::new_bare(allocator) {
            Ok(ms) => ms,
            Err(_) => {
                return Err(LoadError::NotEnoughMemory);
            },
        };
        proof {
            assert(ms.area_ppns() =~= Set::<u64>::empty());
            assert(ms.frames() =~= set![old(allocator).next()]);
            assert(allocator.allocated() =~= before.union(ms.frames()));
            assert(layout.section_end(0) == layout.etext && layout.section_start(1) == layout.srodata);
            assert(layout.section_end(1) == layout.erodata && layout.section_start(2) == layout.sdata);
            assert(layout.section_end(2) == layout.edata && layout.section_start(3) == layout.sbss);
            assert(layout.section_end(3) == layout.ebss && layout.section_start(4) == layout.ekernel);
            assert(layout.section_start(0) <= layout.section_end(0));
            assert(layout.section_start(1) <= layout.section_end(1));
            assert(layout.section_start(2) <= layout.section_end(2));
            assert(layout.section_start(3) <= layout.section_end(3));
            assert(layout.section_start(4) <= layout.section_end(4));
        }
        if !ms.map_section(allocator, layout.stext, layout.etext, MAP_R + MAP_X, Ghost(before)) {
            ms.release_fresh(allocator, Ghost(before));
            return Err(LoadError::NotEnoughMemory);
        }
        let ghost snap_a = ms;
        proof {
            assert(snap_a.spec_areas()[0] == snap_a.spec_areas().last());
        }
        if !ms.map_section(allocator, layout.srodata, layout.erodata, MAP_R, Ghost(before)) {
            ms.release_fresh(allocator, Ghost(before));
            return Err(LoadError::NotEnoughMemory);
        }
        let ghost snap_b = ms;
        proof {
            assert(snap_b.spec_areas().drop_last() == snap_a.spec_areas());
            assert(snap_b.spec_areas()[0] == snap_b.spec_areas().drop_last()[0]);
            assert(snap_b.spec_areas()[1] == snap_b.spec_areas().last());
        }
        if !ms.map_section(allocator, layout.sdata, layout.edata, MAP_R + MAP_W, Ghost(before)) {
            ms.release_fresh(allocator, Ghost(before));
            return Err(LoadError::NotEnoughMemory);
        }
        let ghost snap_c = ms;
        proof {
            assert(snap_c.spec_areas().drop_last() == snap_b.spec_areas());
            assert(snap_c.spec_areas()[0] == snap_c.spec_areas().drop_last()[0]);
            assert(snap_c.spec_areas()[1] == snap_c.spec_areas().drop_last()[1]);
            assert(snap_c.spec_areas()[2] == snap_c.spec_areas().last());
        }
        if !ms.map_section(allocator, layout.sbss, layout.ebss, MAP_R + MAP_W, Ghost(before)) {
            ms.release_fresh(allocator, Ghost(before));
            return Err(LoadError::NotEnoughMemory);
        }
        let ghost snap_d = ms;
        proof {
            assert(snap_d.spec_areas().drop_last() == snap_c.spec_areas());
            assert(snap_d.spec_areas()[0] == snap_d.spec_areas().drop_last()[0]);
            assert(snap_d.spec_areas()[1] == snap_d.spec_areas().drop_last()[1]);
            assert(snap_d.spec_areas()[2] == snap_d.spec_areas().drop_last()[2]);
            assert(snap_d.spec_areas()[3] == snap_d.spec_areas().last());
        }
        if !ms.map_section(
            allocator,
            layout.ekernel,
            layout.memory_end,
            MAP_R + MAP_W,
            Ghost(before),
        ) {
            ms.release_fresh(allocator, Ghost(before));
            return Err(LoadError::NotEnoughMemory);
        }
        proof {
            assert(ms.spec_areas().drop_last() == snap_d.spec_areas());
            assert(ms.spec_areas()[0] == ms.spec_areas().drop_last()[0]);
            assert(ms.spec_areas()[1] == ms.spec_areas().drop_last()[1]);
            assert(ms.spec_areas()[2] == ms.spec_areas().drop_last()[2]);
            assert(ms.spec_areas()[3] == ms.spec_areas().drop_last()[3]);
            assert(ms.spec_areas()[4] == ms.spec_areas().last());
        }
        Ok(ms)
    }
}

} // verus!

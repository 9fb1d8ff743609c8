//! Which frames an address space owns, and that the operations on address
//! spaces keep the books: every frame that is owned is handed out, and no
//! frame is owned twice.

use vstd::prelude::*;
use crate::mm::frame_allocator::FrameAllocator;
use crate::mm::memory_area::MapArea;
use crate::mm::memory_set::MemorySet;

verus! {

impl MapArea {
    /// Whether no frame backs two pages of the area.
    pub open spec fn distinct(&self) -> bool {
        forall|v: u64, w: u64|
            #![trigger self.frames()[v], self.frames()[w]]
            self.frames().contains_key(v) && self.frames().contains_key(w) && v != w
                ==> self.frames()[v].ppn() != self.frames()[w].ppn()
    }

    /// The frame of a materialized page is one of the frames of the area.
    pub proof fn lemma_ppns_member(&self, v: u64)
        requires
            self.frames().contains_key(v),
        ensures
            self.ppns().contains(self.frames()[v].ppn().0),
    {
    }
}

impl MemorySet {
    /// Whether the address space owns its frames properly among the frames
    /// `allocated` that are handed out: each of its frames is handed out;
    /// no frame of the page table backs a page; no frame backs two pages of
    /// an area; and no frame backs pages of two areas.
    pub open spec fn owns(&self, allocated: Set<u64>) -> bool {
        &&& self.frames().subset_of(allocated)
        &&& self.table().frames().disjoint(self.area_ppns())
        &&& forall|i: int| 0 <= i < self.spec_areas().len() ==> (#[trigger] self.spec_areas()[i]).distinct()
        &&& forall|i: int, j: int|
            0 <= i < self.spec_areas().len() && 0 <= j < self.spec_areas().len() && i != j ==> (
            #[trigger] self.spec_areas()[i]).ppns().disjoint((#[trigger] self.spec_areas()[j]).ppns())
    }

    /// Whether the address space, which was `pre` when the frames `before`
    /// were handed out, took every frame that it has more from the frames
    /// that were handed out since, and no frame was given back since that
    /// `pre` did not own.
    pub open spec fn evolved_from(&self, pre: &MemorySet, before: Set<u64>, after: Set<u64>) -> bool {
        &&& self.frames().subset_of(pre.frames().union(after.difference(before)))
        &&& before.difference(after).subset_of(pre.frames())
    }

    /// Whether a step from `pre` to `post` kept the books of frames: where
    /// `pre` owned its frames properly, `post` does, and it evolved from
    /// `pre`.
    pub open spec fn kept_books(
        pre: &MemorySet,
        before: Set<u64>,
        post: &MemorySet,
        after: Set<u64>,
    ) -> bool {
        pre.owns(before) ==> post.owns(after) && post.evolved_from(pre, before, after)
    }

    /// The frames of an area are frames of the areas.
    pub proof fn lemma_area_ppns_member(&self, i: int, p: u64)
        requires
            0 <= i < self.spec_areas().len(),
            self.spec_areas()[i].ppns().contains(p),
        ensures
            self.area_ppns().contains(p),
            self.frames().contains(p),
    {
    }

    /// Proper ownership stays when pages of the area at position `i` are
    /// materialized.
    pub proof fn lemma_owns_ensured(
        pre: &MemorySet,
        pre_alloc: &FrameAllocator,
        post: &MemorySet,
        post_alloc: &FrameAllocator,
        i: int,
        lo: int,
        hi: int,
    )
        requires
            pre.owns(pre_alloc.allocated()),
            0 <= i < pre.spec_areas().len(),
            post.spec_areas() == pre.spec_areas().update(i, post.spec_areas()[i]),
            MapArea::ensured(
                &pre.spec_areas()[i],
                &pre.table(),
                pre_alloc,
                &post.spec_areas()[i],
                &post.table(),
                post_alloc,
                lo,
                hi,
            ),
        ensures
            post.owns(post_alloc.allocated()),
            post.evolved_from(pre, pre_alloc.allocated(), post_alloc.allocated()),
    {
        let a = pre.spec_areas()[i];
        let b = post.spec_areas()[i];
        let a0 = pre_alloc.allocated();
        let a1 = post_alloc.allocated();
        let fresh = MapArea::fresh_ppns(&a, &b, lo, hi);
        MapArea::lemma_ensured_ppns(
            &a,
            &pre.table(),
            pre_alloc,
            &b,
            &post.table(),
            post_alloc,
            lo,
            hi,
        );
        Self::lemma_area_ppns_grow(pre, post, i, fresh);
        assert forall|p: u64| pre.area_ppns().contains(p) implies a0.contains(p) by {
            assert(pre.frames().contains(p));
        }
        assert forall|p: u64| pre.table().frames().contains(p) implies a0.contains(p) by {
            assert(pre.frames().contains(p));
        }
        assert(post.frames().subset_of(a1));
        assert(post.table().frames().disjoint(post.area_ppns()));
        assert forall|j: int| 0 <= j < post.spec_areas().len() implies (
        #[trigger] post.spec_areas()[j]).distinct() by {
            if j == i {
                assert(a.distinct());
                assert forall|v: u64, w: u64|
                    #![trigger b.frames()[v], b.frames()[w]]
                    b.frames().contains_key(v) && b.frames().contains_key(w) && v
                        != w implies b.frames()[v].ppn() != b.frames()[w].ppn() by {
                    if a.frames().contains_key(v) {
                        a.lemma_ppns_member(v);
                        pre.lemma_area_ppns_member(i, a.frames()[v].ppn().0);
                        assert(b.frames()[v] == a.frames()[v]);
                    }
                    if a.frames().contains_key(w) {
                        a.lemma_ppns_member(w);
                        pre.lemma_area_ppns_member(i, a.frames()[w].ppn().0);
                        assert(b.frames()[w] == a.frames()[w]);
                    }
                }
            } else {
                assert(post.spec_areas()[j] == pre.spec_areas()[j]);
            }
        }
        assert forall|j: int, k: int|
            0 <= j < post.spec_areas().len() && 0 <= k < post.spec_areas().len() && j
                != k implies (#[trigger] post.spec_areas()[j]).ppns().disjoint(
            (#[trigger] post.spec_areas()[k]).ppns(),
        ) by {
            assert(pre.spec_areas()[j].ppns().disjoint(pre.spec_areas()[k].ppns()));
            assert forall|p: u64| pre.spec_areas()[j].ppns().contains(p) implies a0.contains(
                p,
            ) by {
                pre.lemma_area_ppns_member(j, p);
            }
            assert forall|p: u64| pre.spec_areas()[k].ppns().contains(p) implies a0.contains(
                p,
            ) by {
                pre.lemma_area_ppns_member(k, p);
            }
        }
    }

    /// Proper ownership stays when pages of the area at position `i` are
    /// unmapped.
    pub proof fn lemma_owns_unmapped(
        pre: &MemorySet,
        pre_alloc: &FrameAllocator,
        post: &MemorySet,
        post_alloc: &FrameAllocator,
        i: int,
        lo: int,
        hi: int,
    )
        requires
            pre.owns(pre_alloc.allocated()),
            0 <= i < pre.spec_areas().len(),
            post.spec_areas() == pre.spec_areas().update(i, post.spec_areas()[i]),
            MapArea::unmapped(
                &pre.spec_areas()[i],
                &pre.table(),
                pre_alloc,
                &post.spec_areas()[i],
                &post.table(),
                post_alloc,
                lo,
                hi,
            ),
        ensures
            post.owns(post_alloc.allocated()),
            post.evolved_from(pre, pre_alloc.allocated(), post_alloc.allocated()),
    {
        let a = pre.spec_areas()[i];
        let b = post.spec_areas()[i];
        let a0 = pre_alloc.allocated();
        let gone = a.ppns_in(lo, hi);
        assert(a.distinct());
        assert forall|p: u64| b.ppns().contains(p) implies a.ppns().contains(p) && !gone.contains(
            p,
        ) by {
            let v = choose|v: u64| #[trigger]
                b.frames().contains_key(v) && b.frames()[v].ppn().0 == p;
            assert(a.frames().contains_key(v) && a.frames()[v] == b.frames()[v]);
            if gone.contains(p) {
                let w = choose|w: u64|
                    lo <= w < hi && #[trigger] a.frames().contains_key(w) && a.frames()[w].ppn().0
                        == p;
                assert(a.frames()[v].ppn() != a.frames()[w].ppn());
            }
        }
        assert forall|p: u64| gone.contains(p) implies a.ppns().contains(p) by {
            let w = choose|w: u64|
                lo <= w < hi && #[trigger] a.frames().contains_key(w) && a.frames()[w].ppn().0 == p;
        }
        assert forall|p: u64| post.area_ppns().contains(p) implies pre.area_ppns().contains(p)
            && !gone.contains(p) by {
            let j = choose|j: int|
                0 <= j < post.spec_areas().len() && (#[trigger] post.spec_areas()[j]).ppns().contains(
                    p,
                );
            if j == i {
                pre.lemma_area_ppns_member(i, p);
            } else {
                assert(post.spec_areas()[j] == pre.spec_areas()[j]);
                pre.lemma_area_ppns_member(j, p);
                if gone.contains(p) {
                    assert(a.ppns().contains(p));
                    assert(pre.spec_areas()[j].ppns().disjoint(a.ppns()));
                }
            }
        }
        assert forall|p: u64| post.table().frames().contains(p) implies !gone.contains(p) by {
            if gone.contains(p) {
                pre.lemma_area_ppns_member(i, p);
            }
        }
        assert(post.frames().subset_of(post_alloc.allocated())) by {
            assert forall|p: u64| post.frames().contains(p) implies post_alloc.allocated().contains(
                p,
            ) by {
                assert(pre.frames().contains(p));
            }
        }
        assert forall|j: int| 0 <= j < post.spec_areas().len() implies (
        #[trigger] post.spec_areas()[j]).distinct() by {
            if j == i {
                assert forall|v: u64, w: u64|
                    #![trigger b.frames()[v], b.frames()[w]]
                    b.frames().contains_key(v) && b.frames().contains_key(w) && v
                        != w implies b.frames()[v].ppn() != b.frames()[w].ppn() by {
                    assert(a.frames().contains_key(v) && a.frames()[v] == b.frames()[v]);
                    assert(a.frames().contains_key(w) && a.frames()[w] == b.frames()[w]);
                }
            } else {
                assert(post.spec_areas()[j] == pre.spec_areas()[j]);
            }
        }
        assert forall|j: int, k: int|
            0 <= j < post.spec_areas().len() && 0 <= k < post.spec_areas().len() && j
                != k implies (#[trigger] post.spec_areas()[j]).ppns().disjoint(
            (#[trigger] post.spec_areas()[k]).ppns(),
        ) by {
            assert(pre.spec_areas()[j].ppns().disjoint(pre.spec_areas()[k].ppns()));
        }
    }

    /// Proper ownership stays when the area at position `i` is unmapped and
    /// taken out.
    pub proof fn lemma_owns_removed(
        pre: &MemorySet,
        pre_alloc: &FrameAllocator,
        post: &MemorySet,
        post_alloc: &FrameAllocator,
        i: int,
    )
        requires
            pre.owns(pre_alloc.allocated()),
            0 <= i < pre.spec_areas().len(),
            Self::removed(pre, pre_alloc, post, post_alloc, i),
        ensures
            post.owns(post_alloc.allocated()),
            post.evolved_from(pre, pre_alloc.allocated(), post_alloc.allocated()),
    {
        let a = pre.spec_areas()[i];
        let gone = a.ppns();
        assert forall|j: int| 0 <= j < post.spec_areas().len() implies (
        #[trigger] post.spec_areas()[j]) == pre.spec_areas()[if j < i {
            j
        } else {
            j + 1
        }] by {}
        assert forall|p: u64| post.area_ppns().contains(p) implies pre.area_ppns().contains(p)
            && !gone.contains(p) by {
            let j = choose|j: int|
                0 <= j < post.spec_areas().len() && (#[trigger] post.spec_areas()[j]).ppns().contains(
                    p,
                );
            let k = if j < i {
                j
            } else {
                j + 1
            };
            assert(post.spec_areas()[j] == pre.spec_areas()[k]);
            pre.lemma_area_ppns_member(k, p);
            assert(pre.spec_areas()[k].ppns().disjoint(a.ppns()));
        }
        assert forall|p: u64| post.table().frames().contains(p) implies !gone.contains(p) by {
            if gone.contains(p) {
                pre.lemma_area_ppns_member(i, p);
            }
        }
        assert(post.frames().subset_of(post_alloc.allocated())) by {
            assert forall|p: u64| post.frames().contains(p) implies post_alloc.allocated().contains(
                p,
            ) by {
                assert(pre.frames().contains(p));
            }
        }
        assert forall|j: int, k: int|
            0 <= j < post.spec_areas().len() && 0 <= k < post.spec_areas().len() && j
                != k implies (#[trigger] post.spec_areas()[j]).ppns().disjoint(
            (#[trigger] post.spec_areas()[k]).ppns(),
        ) by {
            let j2 = if j < i {
                j
            } else {
                j + 1
            };
            let k2 = if k < i {
                k
            } else {
                k + 1
            };
            assert(pre.spec_areas()[j2].ppns().disjoint(pre.spec_areas()[k2].ppns()));
        }
    }

    /// Proper ownership stays when an area without frames is added, or an
    /// area without frames changes, while the page table may get new
    /// directories from frames that were free before.
    pub proof fn lemma_owns_table_grown(
        pre: &MemorySet,
        pre_alloc: &FrameAllocator,
        post: &MemorySet,
        post_alloc: &FrameAllocator,
    )
        requires
            pre.owns(pre_alloc.allocated()),
            pre_alloc.allocated().subset_of(post_alloc.allocated()),
            post.table().frames() == pre.table().frames().union(
                post_alloc.allocated().difference(pre_alloc.allocated()),
            ),
            post.spec_areas().len() >= pre.spec_areas().len(),
            forall|j: int|
                0 <= j < pre.spec_areas().len() ==> (#[trigger] post.spec_areas()[j]).frames()
                    == pre.spec_areas()[j].frames(),
            forall|j: int|
                pre.spec_areas().len() <= j < post.spec_areas().len() ==> (
                #[trigger] post.spec_areas()[j]).frames().dom() == Set::<u64>::empty(),
        ensures
            post.owns(post_alloc.allocated()),
            post.area_ppns() == pre.area_ppns(),
            post.evolved_from(pre, pre_alloc.allocated(), post_alloc.allocated()),
    {
        let n = pre.spec_areas().len() as int;
        assert forall|j: int| 0 <= j < post.spec_areas().len() implies (
        #[trigger] post.spec_areas()[j]).ppns() == if j < n {
            pre.spec_areas()[j].ppns()
        } else {
            Set::<u64>::empty()
        } by {
            let b = post.spec_areas()[j];
            if j < n {
                assert(b.ppns() =~= pre.spec_areas()[j].ppns());
            } else {
                assert forall|p: u64| !b.ppns().contains(p) by {
                    if b.ppns().contains(p) {
                        let v = choose|v: u64| #[trigger]
                            b.frames().contains_key(v) && b.frames()[v].ppn().0 == p;
                        assert(b.frames().dom().contains(v));
                    }
                }
                assert(b.ppns() =~= Set::<u64>::empty());
            }
        }
        assert(post.area_ppns() =~= pre.area_ppns()) by {
            assert forall|p: u64| post.area_ppns().contains(p) implies pre.area_ppns().contains(
                p,
            ) by {
                let j = choose|j: int|
                    0 <= j < post.spec_areas().len() && (
                    #[trigger] post.spec_areas()[j]).ppns().contains(p);
                assert(pre.spec_areas()[j].ppns().contains(p));
            }
            assert forall|p: u64| pre.area_ppns().contains(p) implies post.area_ppns().contains(
                p,
            ) by {
                let j = choose|j: int|
                    0 <= j < pre.spec_areas().len() && (
                    #[trigger] pre.spec_areas()[j]).ppns().contains(p);
                assert(post.spec_areas()[j].ppns().contains(p));
            }
        }
        assert forall|p: u64| pre.area_ppns().contains(p) implies pre_alloc.allocated().contains(
            p,
        ) by {
            assert(pre.frames().contains(p));
        }
        assert forall|p: u64| pre.table().frames().contains(p) implies pre_alloc.allocated().contains(
            p,
        ) by {
            assert(pre.frames().contains(p));
        }
        assert forall|j: int| 0 <= j < post.spec_areas().len() implies (
        #[trigger] post.spec_areas()[j]).distinct() by {
            let b = post.spec_areas()[j];
            if j < n {
                assert(pre.spec_areas()[j].distinct());
            } else {
                assert forall|v: u64, w: u64|
                    #![trigger b.frames()[v], b.frames()[w]]
                    b.frames().contains_key(v) && b.frames().contains_key(w) && v
                        != w implies b.frames()[v].ppn() != b.frames()[w].ppn() by {
                    assert(b.frames().dom().contains(v));
                }
            }
        }
        assert forall|j: int, k: int|
            0 <= j < post.spec_areas().len() && 0 <= k < post.spec_areas().len() && j
                != k implies (#[trigger] post.spec_areas()[j]).ppns().disjoint(
            (#[trigger] post.spec_areas()[k]).ppns(),
        ) by {
            if j < n && k < n {
                assert(pre.spec_areas()[j].ppns().disjoint(pre.spec_areas()[k].ppns()));
            }
        }
    }

    /// Proper ownership stays when an area is added whose frames were free
    /// before and back one page each, while the page table may get new
    /// directories from other frames that were free before.
    pub proof fn lemma_owns_pushed(
        pre: &MemorySet,
        pre_alloc: &FrameAllocator,
        post: &MemorySet,
        post_alloc: &FrameAllocator,
        area: &MapArea,
    )
        requires
            pre.owns(pre_alloc.allocated()),
            pre_alloc.allocated().subset_of(post_alloc.allocated()),
            post.spec_areas() == pre.spec_areas().push(*area),
            area.distinct(),
            area.ppns().subset_of(post_alloc.allocated()),
            area.ppns().disjoint(pre_alloc.allocated()),
            post.table().frames() == pre.table().frames().union(
                post_alloc.allocated().difference(pre_alloc.allocated()).difference(area.ppns()),
            ),
        ensures
            post.owns(post_alloc.allocated()),
            post.evolved_from(pre, pre_alloc.allocated(), post_alloc.allocated()),
    {
        let n = pre.spec_areas().len() as int;
        Self::lemma_area_ppns_push(pre, post, area);
        assert forall|p: u64| pre.area_ppns().contains(p) implies pre_alloc.allocated().contains(
            p,
        ) by {
            assert(pre.frames().contains(p));
        }
        assert forall|p: u64| pre.table().frames().contains(p) implies pre_alloc.allocated().contains(
            p,
        ) by {
            assert(pre.frames().contains(p));
        }
        assert forall|j: int| 0 <= j < post.spec_areas().len() implies (
        #[trigger] post.spec_areas()[j]).distinct() by {
            if j < n {
                assert(post.spec_areas()[j] == pre.spec_areas()[j]);
            }
        }
        assert forall|j: int, k: int|
            0 <= j < post.spec_areas().len() && 0 <= k < post.spec_areas().len() && j
                != k implies (#[trigger] post.spec_areas()[j]).ppns().disjoint(
            (#[trigger] post.spec_areas()[k]).ppns(),
        ) by {
            if j < n && k < n {
                assert(pre.spec_areas()[j].ppns().disjoint(pre.spec_areas()[k].ppns()));
            } else if j < n {
                assert forall|p: u64| pre.spec_areas()[j].ppns().contains(
                    p,
                ) implies pre_alloc.allocated().contains(p) by {
                    pre.lemma_area_ppns_member(j, p);
                }
            } else {
                assert forall|p: u64| pre.spec_areas()[k].ppns().contains(
                    p,
                ) implies pre_alloc.allocated().contains(p) by {
                    pre.lemma_area_ppns_member(k, p);
                }
            }
        }
    }

    /// An area whose frames were all taken when pages of it were
    /// materialized, and then written to, has no frame that backs two pages.
    pub proof fn lemma_copied_distinct(
        pre: &MapArea,
        pre_pt: &crate::mm::page_table::PageTable,
        pre_alloc: &FrameAllocator,
        post: &MapArea,
        post_pt: &crate::mm::page_table::PageTable,
        post_alloc: &FrameAllocator,
        data: Seq<u8>,
    )
        requires
            pre.frames() == Map::<u64, crate::mm::frame_allocator::FrameTracker>::empty(),
            MapArea::copy_outcome(pre, pre_pt, pre_alloc, post, post_pt, post_alloc, data, Ok(())),
        ensures
            post.distinct(),
    {
        let lo = pre.range().start();
        let hi = lo + MapArea::pages_of(data.len());
        let mid = choose|mid: MapArea|
            {
                &&& #[trigger] MapArea::ensured(
                    pre,
                    pre_pt,
                    pre_alloc,
                    &mid,
                    post_pt,
                    post_alloc,
                    lo,
                    hi,
                )
                &&& post.holds_data(&mid, data)
            };
        assert forall|v: u64, w: u64|
            #![trigger post.frames()[v], post.frames()[w]]
            post.frames().contains_key(v) && post.frames().contains_key(w) && v
                != w implies post.frames()[v].ppn() != post.frames()[w].ppn() by {
            assert(mid.frames().dom().contains(v) && mid.frames().dom().contains(w));
            assert(mid.frames().contains_key(v) && mid.frames().contains_key(w));
            assert(lo <= v < hi && lo <= w < hi);
            assert(mid.frames()[v].ppn() != mid.frames()[w].ppn());
        }
    }

    /// Proper ownership stays when only the bytes of frames change.
    pub proof fn lemma_owns_content(pre: &MemorySet, post: &MemorySet, allocated: Set<u64>)
        requires
            pre.owns(allocated),
            post.table() == pre.table(),
            post.spec_areas().len() == pre.spec_areas().len(),
            forall|i: int, v: u64| post.holds_page(i, v) == pre.holds_page(i, v),
            forall|i: int, v: u64|
                pre.holds_page(i, v) ==> (#[trigger] post.spec_areas()[i].frames()[v]).ppn()
                    == pre.spec_areas()[i].frames()[v].ppn(),
        ensures
            post.owns(allocated),
            post.frames() == pre.frames(),
    {
        assert forall|i: int| 0 <= i < post.spec_areas().len() implies (
        #[trigger] post.spec_areas()[i]).ppns() == pre.spec_areas()[i].ppns() by {
            let a = pre.spec_areas()[i];
            let b = post.spec_areas()[i];
            assert forall|p: u64| b.ppns().contains(p) implies a.ppns().contains(p) by {
                let v = choose|v: u64| #[trigger]
                    b.frames().contains_key(v) && b.frames()[v].ppn().0 == p;
                assert(post.holds_page(i, v));
                assert(pre.holds_page(i, v));
                assert(a.frames().contains_key(v) && a.frames()[v].ppn().0 == p);
            }
            assert forall|p: u64| a.ppns().contains(p) implies b.ppns().contains(p) by {
                let v = choose|v: u64| #[trigger]
                    a.frames().contains_key(v) && a.frames()[v].ppn().0 == p;
                assert(pre.holds_page(i, v));
                assert(post.holds_page(i, v));
                assert(b.frames().contains_key(v) && b.frames()[v].ppn().0 == p);
            }
            assert(b.ppns() =~= a.ppns());
        }
        assert(post.area_ppns() =~= pre.area_ppns()) by {
            assert forall|p: u64| post.area_ppns().contains(p) implies pre.area_ppns().contains(
                p,
            ) by {
                let j = choose|j: int|
                    0 <= j < post.spec_areas().len() && (
                    #[trigger] post.spec_areas()[j]).ppns().contains(p);
                assert(pre.spec_areas()[j].ppns().contains(p));
            }
            assert forall|p: u64| pre.area_ppns().contains(p) implies post.area_ppns().contains(
                p,
            ) by {
                let j = choose|j: int|
                    0 <= j < pre.spec_areas().len() && (
                    #[trigger] pre.spec_areas()[j]).ppns().contains(p);
                assert(post.spec_areas()[j].ppns().contains(p));
            }
        }
        assert forall|i: int| 0 <= i < post.spec_areas().len() implies (
        #[trigger] post.spec_areas()[i]).distinct() by {
            let a = pre.spec_areas()[i];
            let b = post.spec_areas()[i];
            assert(a.distinct());
            assert forall|v: u64, w: u64|
                #![trigger b.frames()[v], b.frames()[w]]
                b.frames().contains_key(v) && b.frames().contains_key(w) && v
                    != w implies b.frames()[v].ppn() != b.frames()[w].ppn() by {
                assert(post.holds_page(i, v) && post.holds_page(i, w));
                assert(pre.holds_page(i, v) && pre.holds_page(i, w));
                assert(a.frames()[v].ppn() != a.frames()[w].ppn());
            }
        }
        assert forall|i: int, j: int|
            0 <= i < post.spec_areas().len() && 0 <= j < post.spec_areas().len() && i
                != j implies (#[trigger] post.spec_areas()[i]).ppns().disjoint(
            (#[trigger] post.spec_areas()[j]).ppns(),
        ) by {
            assert(pre.spec_areas()[i].ppns().disjoint(pre.spec_areas()[j].ppns()));
        }
    }
}

} // verus!

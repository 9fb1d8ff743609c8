//! The books of frames across tasks: every task owns its frames properly,
//! and no two tasks share a frame.

use vstd::prelude::*;
use crate::mm::memory_set::MemorySet;
use crate::task::processor::Kernel;

verus! {

impl Kernel {
    /// Whether the books of frames are in order: the address space of each
    /// task owns its frames properly among the frames that are handed out,
    /// and the address spaces of two tasks share no frame.
    pub open spec fn frames_wf(&self) -> bool {
        &&& forall|p: usize| #[trigger]
            self.live(p) ==> self.task(p).memory_set.owns(self.frames.allocated())
        &&& forall|p: usize, q: usize|
            #![trigger self.live(p), self.live(q)]
            self.live(p) && self.live(q) && p != q ==> self.task(p).memory_set.frames().disjoint(
                self.task(q).memory_set.frames(),
            )
    }

    /// The books stay in order when no address space changes, no task
    /// comes, and no frame is given back.
    pub proof fn lemma_frames_same(pre: &Kernel, post: &Kernel)
        requires
            pre.frames_wf(),
            pre.frames.allocated().subset_of(post.frames.allocated()),
            forall|p: usize| #[trigger]
                post.live(p) ==> pre.live(p) && post.task(p).memory_set == pre.task(p).memory_set,
        ensures
            post.frames_wf(),
    {
        assert forall|p: usize| #[trigger] post.live(p) implies post.task(p).memory_set.owns(
            post.frames.allocated(),
        ) by {
            assert(pre.live(p));
        }
        assert forall|p: usize, q: usize|
            #![trigger post.live(p), post.live(q)]
            post.live(p) && post.live(q) && p != q implies post.task(p).memory_set.frames().disjoint(
            post.task(q).memory_set.frames(),
        ) by {
            assert(pre.live(p) && pre.live(q));
        }
    }

    /// The books stay in order when the address space of one task takes a
    /// step that keeps them.
    pub proof fn lemma_frames_step(pre: &Kernel, post: &Kernel, c: usize)
        requires
            pre.frames_wf(),
            pre.live(c),
            post.live(c),
            MemorySet::kept_books(
                &pre.task(c).memory_set,
                pre.frames.allocated(),
                &post.task(c).memory_set,
                post.frames.allocated(),
            ),
            forall|p: usize|
                p != c && #[trigger] post.live(p) ==> pre.live(p) && post.task(p).memory_set
                    == pre.task(p).memory_set,
        ensures
            post.frames_wf(),
    {
        let a0 = pre.frames.allocated();
        let a1 = post.frames.allocated();
        let before = pre.task(c).memory_set;
        let after = post.task(c).memory_set;
        assert(before.owns(a0));
        assert forall|p: usize| #[trigger] post.live(p) implies post.task(p).memory_set.owns(
            a1,
        ) by {
            if p != c {
                assert(pre.live(p) && pre.live(c));
                let other = pre.task(p).memory_set;
                assert(other.owns(a0));
                assert(other.frames().disjoint(before.frames()));
                assert forall|x: u64| other.frames().contains(x) implies a1.contains(x) by {
                    if !a1.contains(x) {
                        assert(a0.difference(a1).contains(x));
                    }
                }
            }
        }
        assert forall|p: usize, q: usize|
            #![trigger post.live(p), post.live(q)]
            post.live(p) && post.live(q) && p != q implies post.task(p).memory_set.frames().disjoint(
            post.task(q).memory_set.frames(),
        ) by {
            if p == c {
                assert(pre.live(q) && pre.live(c));
                let other = pre.task(q).memory_set;
                assert(other.owns(a0));
                assert(other.frames().disjoint(before.frames()));
                assert forall|x: u64| after.frames().contains(x) implies !other.frames().contains(
                    x,
                ) by {
                    assert(before.frames().union(a1.difference(a0)).contains(x));
                }
            } else if q == c {
                assert(pre.live(p) && pre.live(c));
                let other = pre.task(p).memory_set;
                assert(other.owns(a0));
                assert(other.frames().disjoint(before.frames()));
                assert forall|x: u64| after.frames().contains(x) implies !other.frames().contains(
                    x,
                ) by {
                    assert(before.frames().union(a1.difference(a0)).contains(x));
                }
            } else {
                assert(pre.live(p) && pre.live(q));
            }
        }
    }

    /// The books stay in order when a task goes and every frame of its
    /// address space is given back.
    pub proof fn lemma_frames_task_gone(pre: &Kernel, post: &Kernel, pid: usize)
        requires
            pre.frames_wf(),
            pre.live(pid),
            post.frames.allocated() == pre.frames.allocated().difference(
                pre.task(pid).memory_set.area_ppns(),
            ).difference(pre.task(pid).memory_set.table().frames()),
            forall|p: usize| #[trigger]
                post.live(p) ==> p != pid && pre.live(p) && post.task(p).memory_set == pre.task(
                    p,
                ).memory_set,
        ensures
            post.frames_wf(),
    {
        let gone = pre.task(pid).memory_set.frames();
        assert forall|p: usize| #[trigger] post.live(p) implies post.task(p).memory_set.owns(
            post.frames.allocated(),
        ) by {
            assert(pre.live(p) && pre.live(pid));
            let other = pre.task(p).memory_set;
            assert(other.owns(pre.frames.allocated()));
            assert(other.frames().disjoint(gone));
            assert forall|x: u64| other.frames().contains(x) implies post.frames.allocated().contains(
                x,
            ) by {
                assert(!gone.contains(x));
            }
        }
        assert forall|p: usize, q: usize|
            #![trigger post.live(p), post.live(q)]
            post.live(p) && post.live(q) && p != q implies post.task(p).memory_set.frames().disjoint(
            post.task(q).memory_set.frames(),
        ) by {
            assert(pre.live(p) && pre.live(q));
        }
    }

    /// The books stay in order when a task gets a new address space, which
    /// took all its frames after the frames `before` were handed out, and
    /// every frame of its old one is given back.
    pub proof fn lemma_frames_replaced(
        pre: &Kernel,
        post: &Kernel,
        c: usize,
        before: Set<u64>,
        between: Set<u64>,
    )
        requires
            pre.frames_wf(),
            pre.live(c),
            post.live(c),
            before == pre.frames.allocated(),
            post.task(c).memory_set.fresh_in(before, between),
            post.task(c).memory_set.owns(between),
            post.frames.allocated() == between.difference(
                pre.task(c).memory_set.area_ppns(),
            ).difference(pre.task(c).memory_set.table().frames()),
            forall|p: usize|
                p != c && #[trigger] post.live(p) ==> pre.live(p) && post.task(p).memory_set
                    == pre.task(p).memory_set,
        ensures
            post.frames_wf(),
    {
        let old_ms = pre.task(c).memory_set;
        let new_ms = post.task(c).memory_set;
        let gone = old_ms.frames();
        let a2 = post.frames.allocated();
        assert(old_ms.owns(before));
        assert forall|x: u64| new_ms.frames().contains(x) implies a2.contains(x) by {
            assert(!before.contains(x));
            assert(!gone.contains(x));
        }
        assert forall|p: usize| #[trigger] post.live(p) implies post.task(p).memory_set.owns(
            a2,
        ) by {
            if p != c {
                assert(pre.live(p) && pre.live(c));
                let other = pre.task(p).memory_set;
                assert(other.owns(before));
                assert(other.frames().disjoint(gone));
                assert forall|x: u64| other.frames().contains(x) implies a2.contains(x) by {
                    assert(between.contains(x));
                    assert(!gone.contains(x));
                }
            }
        }
        assert forall|p: usize, q: usize|
            #![trigger post.live(p), post.live(q)]
            post.live(p) && post.live(q) && p != q implies post.task(p).memory_set.frames().disjoint(
            post.task(q).memory_set.frames(),
        ) by {
            if p == c {
                assert(pre.live(q));
                assert(pre.task(q).memory_set.owns(before));
            } else if q == c {
                assert(pre.live(p));
                assert(pre.task(p).memory_set.owns(before));
            } else {
                assert(pre.live(p) && pre.live(q));
            }
        }
    }
}

} // verus!

//! Process identifiers.

use vstd::prelude::*;

verus! {

/// The allocator of process identifiers: it hands out the identifier that
/// was given back last, or else the lowest that was never handed out.
pub struct PidAllocator {
    current: usize,
    recycled: Vec<usize>,
}

impl PidAllocator {
    /// The identifiers that are handed out at present.
    pub closed spec fn allocated(&self) -> Set<usize> {
        Set::new(|p: usize| p < self.current && !self.recycled@.contains(p))
    }

    /// The identifier that the next allocation hands out.
    pub closed spec fn next(&self) -> usize {
        if self.recycled@.len() > 0 {
            self.recycled@.last()
        } else {
            self.current
        }
    }

    /// One more than the highest identifier that was ever handed out.
    pub closed spec fn bound(&self) -> usize {
        self.current
    }

    /// Whether an identifier can still be handed out.
    pub closed spec fn available(&self) -> bool {
        self.recycled@.len() > 0 || self.current < usize::MAX
    }

    /// The invariant: every recycled identifier was handed out once and is
    /// recorded once.
    pub closed spec fn wf(&self) -> bool {
        &&& forall|i: int| 0 <= i < self.recycled@.len() ==> #[trigger] self.recycled@[i] < self.current
        &&& forall|i: int, j: int|
            0 <= i < j < self.recycled@.len() ==> self.recycled@[i] != self.recycled@[j]
    }

    /// Every identifier that is handed out lies below the bound, and so
    /// does the next one unless it is the bound itself.
    pub proof fn lemma_bound(&self)
        requires
            self.wf(),
        ensures
            forall|p: usize| self.allocated().contains(p) ==> p < self.bound(),
            self.next() <= self.bound(),
            !self.allocated().contains(self.next()),
    {
        if self.recycled@.len() > 0 {
            assert(self.recycled@.contains(self.recycled@.last()));
        }
    }

    /// An allocator with no identifier handed out.
    pub fn new() -> (r: PidAllocator)
        ensures
            r.wf(),
            r.allocated() == Set::<usize>::empty(),
            r.next() == 0,
            r.bound() == 0,
            r.available(),
    {
        let r = PidAllocator { current: 0, recycled: Vec::new() };
        assert(r.allocated() =~= Set::<usize>::empty());
        r
    }

    /// The identifier that the next allocation hands out, if one is left.
    pub fn peek(&self) -> (r: Option<usize>)
        requires
            self.wf(),
        ensures
            r is Some == self.available(),
            r matches Some(pid) ==> pid == self.next() && !self.allocated().contains(pid) && pid
                <= self.bound() && (pid == self.bound() ==> pid < usize::MAX),
    {
        proof {
            self.lemma_bound();
        }
        if self.recycled.len() > 0 {
            Some(self.recycled[self.recycled.len() - 1])
        } else if self.current == usize::MAX {
            None
        } else {
            Some(self.current)
        }
    }

    /// Hands out an identifier; `None` only when every one is handed out.
    pub fn allocate(&mut self) -> (r: Option<usize>)
        requires
            old(self).wf(),
        ensures
            final(self).wf(),
            r is Some == old(self).available(),
            r matches Some(pid) ==> {
                &&& pid == old(self).next()
                &&& !old(self).allocated().contains(pid)
                &&& final(self).allocated() == old(self).allocated().insert(pid)
                &&& final(self).bound() == if pid == old(self).bound() {
                    (pid + 1) as usize
                } else {
                    old(self).bound()
                }
                &&& pid == old(self).bound() ==> pid < usize::MAX
                &&& pid <= old(self).bound()
            },
            r is None ==> *final(self) == *old(self),
    {
        if self.recycled.len() > 0 {
            let ghost before = self.recycled@;
            let p: usize = self.recycled.pop().unwrap();
            proof {
                assert(before.contains(p));
                assert forall|q: usize| before.contains(q) implies (q == p
                    || self.recycled@.contains(q)) by {
                    let k = choose|k: int| 0 <= k < before.len() && before[k] == q;
                    if k < before.len() - 1 {
                        assert(self.recycled@[k] == q);
                    }
                }
                assert forall|q: usize| self.recycled@.contains(q) implies before.contains(q) by {
                    let k = choose|k: int| 0 <= k < self.recycled@.len() && self.recycled@[k] == q;
                    assert(before[k] == q);
                }
                assert(!self.recycled@.contains(p)) by {
                    if self.recycled@.contains(p) {
                        let k = choose|k: int| 0 <= k < self.recycled@.len() && self.recycled@[k] == p;
                        assert(before[k] == before[before.len() - 1]);
                    }
                }
                assert(self.allocated() =~= old(self).allocated().insert(p));
            }
            Some(p)
        } else if self.current == usize::MAX {
            None
        } else {
            let p: usize = self.current;
            self.current = self.current + 1;
            proof {
                assert(self.allocated() =~= old(self).allocated().insert(p));
            }
            Some(p)
        }
    }

    /// Takes the identifier `pid` back. One that is not handed out at
    /// present is left alone.
    pub fn deallocate(&mut self, pid: usize)
        requires
            old(self).wf(),
        ensures
            final(self).wf(),
            final(self).allocated() == old(self).allocated().remove(pid),
            final(self).bound() == old(self).bound(),
            old(self).allocated().contains(pid) ==> final(self).next() == pid,
            !old(self).allocated().contains(pid) ==> *final(self) == *old(self),
    {
        if pid >= self.current {
            assert(self.allocated() =~= old(self).allocated().remove(pid));
            return ;
        }
        let mut i: usize = 0;
        while i < self.recycled.len()
            invariant
                0 <= i <= self.recycled@.len(),
                *self == *old(self),
                self.wf(),
                pid < self.current,
                forall|j: int| 0 <= j < i ==> self.recycled@[j] != pid,
            decreases self.recycled@.len() - i,
        {
            if self.recycled[i] == pid {
                assert(self.recycled@.contains(pid));
                assert(self.allocated() =~= old(self).allocated().remove(pid));
                return ;
            }
            i = i + 1;
        }
        let ghost before = self.recycled@;
        self.recycled.push(pid);
        proof {
            assert forall|q: usize| self.recycled@.contains(q) implies (q == pid || before.contains(
                q,
            )) by {
                let k = choose|k: int| 0 <= k < self.recycled@.len() && self.recycled@[k] == q;
                if k < before.len() {
                    assert(before[k] == q);
                }
            }
            assert forall|q: usize| (q == pid || before.contains(q)) implies self.recycled@.contains(
                q,
            ) by {
                if q == pid {
                    assert(self.recycled@[before.len() as int] == q);
                } else {
                    let k = choose|k: int| 0 <= k < before.len() && before[k] == q;
                    assert(self.recycled@[k] == q);
                }
            }
            assert(self.allocated() =~= old(self).allocated().remove(pid));
        }
    }
}

} // verus!

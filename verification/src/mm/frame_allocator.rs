//! Physical frames: the allocator that hands their numbers out, and the
//! owning handle through which the bytes of one frame are reached.

use vstd::prelude::*;
use crate::config::PAGE_SIZE;
use crate::mm::address::{PhysPageNum, PPN_LIMIT};

verus! {

/// An owning handle to one allocated physical frame. Whoever holds the handle
/// holds the frame's 4096 bytes; handing it back to the allocator with
/// [`frame_dealloc`] frees the frame.
pub struct FrameTracker {
    ppn: PhysPageNum,
    bytes: Vec<u8>,
}

impl FrameTracker {
    /// The number of the frame.
    pub closed spec fn spec_ppn(&self) -> PhysPageNum {
        self.ppn
    }

    /// The bytes of the frame.
    pub closed spec fn view(&self) -> Seq<u8> {
        self.bytes@
    }

    /// A frame holds exactly one page of bytes.
    pub open spec fn wf(&self) -> bool {
        self@.len() == PAGE_SIZE
    }

    /// The number of the frame.
    #[verifier::when_used_as_spec(spec_ppn)]
    pub fn ppn(&self) -> (r: PhysPageNum)
        ensures
            r == self.spec_ppn(),
    {
        self.ppn
    }

    /// The bytes of the frame, for reading.
    pub fn get_bytes_array(&self) -> (r: &[u8])
        ensures
            r@ == self@,
    {
        self.bytes.as_slice()
    }

    /// Copies `src` over the bytes that begin at `offset`.
    pub fn write_at(&mut self, offset: usize, src: &[u8])
        requires
            old(self).wf(),
            offset + src@.len() <= PAGE_SIZE,
        ensures
            final(self).wf(),
            final(self).ppn() == old(self).ppn(),
            final(self)@ == old(self)@.subrange(0, offset as int) + src@ + old(self)@.subrange(
                offset + src@.len(),
                PAGE_SIZE as int,
            ),
    {
        let n: usize = src.len();
        let mut i: usize = 0;
        while i < n
            invariant
                n == src@.len(),
                offset + n <= PAGE_SIZE,
                0 <= i <= n,
                self.bytes@.len() == PAGE_SIZE,
                old(self).bytes@.len() == PAGE_SIZE,
                self.ppn == old(self).ppn,
                self.bytes@ == old(self).bytes@.subrange(0, offset as int) + src@.subrange(
                    0,
                    i as int,
                ) + old(self).bytes@.subrange(offset + i, PAGE_SIZE as int),
            decreases n - i,
        {
            let ghost before = self.bytes@;
            self.bytes[offset + i] = src[i];
            assert(self.bytes@ == before.update(offset + i, src@[i as int]));
            assert(self.bytes@ =~= old(self).bytes@.subrange(0, offset as int) + src@.subrange(
                0,
                i + 1,
            ) + old(self).bytes@.subrange(offset + i + 1, PAGE_SIZE as int));
            i = i + 1;
        }
        assert(src@.subrange(0, n as int) =~= src@);
    }
}

/// The allocator of physical frames: a stack of recycled frame numbers above
/// a range of numbers that were never handed out.
pub struct FrameAllocator {
    base: u64,
    current: u64,
    end: u64,
    recycled: Vec<u64>,
}

impl FrameAllocator {
    /// The numbers of the frames that are handed out at present.
    pub closed spec fn allocated(&self) -> Set<u64> {
        Set::new(|p: u64| self.base <= p < self.current && !self.recycled@.contains(p))
    }

    /// How many frames can still be handed out.
    pub closed spec fn free_count(&self) -> nat {
        ((self.end - self.current) + self.recycled@.len()) as nat
    }

    /// The first frame number that the allocator manages.
    pub closed spec fn first(&self) -> u64 {
        self.base
    }

    /// The frame number just past those that the allocator manages.
    pub closed spec fn limit(&self) -> u64 {
        self.end
    }

    /// The frame that the next successful allocation hands out.
    pub closed spec fn next(&self) -> u64 {
        if self.recycled@.len() > 0 {
            self.recycled@.last()
        } else {
            self.current
        }
    }

    /// Whether the two allocators manage the same range, have the same
    /// frames handed out, and would hand out the same frame next.
    pub open spec fn same_as(&self, other: &FrameAllocator) -> bool {
        &&& self.allocated() == other.allocated()
        &&& self.free_count() == other.free_count()
        &&& self.first() == other.first()
        &&& self.limit() == other.limit()
        &&& self.free_count() > 0 ==> self.next() == other.next()
    }

    /// The allocator's invariant: every recycled number was handed out once
    /// and is recorded once, and no number exceeds the width of a physical
    /// page number.
    pub closed spec fn wf(&self) -> bool {
        &&& self.base <= self.current <= self.end <= PPN_LIMIT
        &&& forall|i: int|
            0 <= i < self.recycled@.len() ==> self.base <= #[trigger] self.recycled@[i]
                < self.current
        &&& forall|i: int, j: int|
            0 <= i < j < self.recycled@.len() ==> self.recycled@[i] != self.recycled@[j]
    }

    /// An allocator for the frames `[start, end)`, none of them handed out.
    pub fn new(start: PhysPageNum, end: PhysPageNum) -> (r: FrameAllocator)
        requires
            start.0 <= end.0 <= PPN_LIMIT,
        ensures
            r.wf(),
            r.allocated() == Set::<u64>::empty(),
            r.free_count() == end.0 - start.0,
            r.first() == start.0,
            r.limit() == end.0,
    {
        let r = FrameAllocator { base: start.0, current: start.0, end: end.0, recycled: Vec::new() };
        assert(r.allocated() =~= Set::<u64>::empty());
        r
    }

    /// How many frames can still be handed out.
    pub fn remaining(&self) -> (r: usize)
        requires
            self.wf(),
        ensures
            r == self.free_count() || (r == usize::MAX && self.free_count() > usize::MAX),
    {
        let fresh: u64 = self.end - self.current;
        let n: usize = self.recycled.len();
        if fresh > usize::MAX as u64 - n as u64 {
            usize::MAX
        } else {
            fresh as usize + n
        }
    }

    /// Whether the frame `ppn` is handed out at present.
    pub fn is_allocated(&self, ppn: PhysPageNum) -> (r: bool)
        ensures
            r == self.allocated().contains(ppn.0),
    {
        if ppn.0 < self.base || ppn.0 >= self.current {
            return false;
        }
        let mut i: usize = 0;
        while i < self.recycled.len()
            invariant
                0 <= i <= self.recycled@.len(),
                forall|j: int| 0 <= j < i ==> self.recycled@[j] != ppn.0,
            decreases self.recycled@.len() - i,
        {
            if self.recycled[i] == ppn.0 {
                return false;
            }
            i = i + 1;
        }
        true
    }

    /// Hands out a frame number: the one recycled last, or else the lowest
    /// that was never handed out. `None` exactly when none is left.
    pub fn allocate(&mut self) -> (r: Option<PhysPageNum>)
        requires
            old(self).wf(),
        ensures
            final(self).wf(),
            final(self).first() == old(self).first(),
            final(self).limit() == old(self).limit(),
            r.is_some() <==> old(self).free_count() > 0,
            r matches Some(ppn) ==> {
                &&& ppn.0 == old(self).next()
                &&& !old(self).allocated().contains(ppn.0)
                &&& final(self).allocated() == old(self).allocated().insert(ppn.0)
                &&& final(self).free_count() == old(self).free_count() - 1
                &&& ppn.0 < PPN_LIMIT
            },
            r is None ==> *final(self) == *old(self),
    {
        if self.recycled.len() > 0 {
            let ghost before = self.recycled@;
            let p: u64 = self.recycled.pop().unwrap();
            proof {
                assert(self.recycled@ == before.drop_last());
                assert(before.contains(p));
                assert(forall|q: u64|
                    before.contains(q) <==> (q == p || self.recycled@.contains(q))) by {
                    assert forall|q: u64| before.contains(q) implies (q == p
                        || self.recycled@.contains(q)) by {
                        let k = choose|k: int| 0 <= k < before.len() && before[k] == q;
                        if k < before.len() - 1 {
                            assert(self.recycled@[k] == q);
                        }
                    }
                    assert forall|q: u64| self.recycled@.contains(q) implies before.contains(
                        q,
                    ) by {
                        let k = choose|k: int| 0 <= k < self.recycled@.len() && self.recycled@[k] == q;
                        assert(before[k] == q);
                    }
                }
                assert(!self.recycled@.contains(p)) by {
                    if self.recycled@.contains(p) {
                        let k = choose|k: int| 0 <= k < self.recycled@.len() && self.recycled@[k] == p;
                        assert(before[k] == before[before.len() - 1]);
                    }
                }
                assert(self.allocated() =~= old(self).allocated().insert(p));
            }
            Some(PhysPageNum(p))
        } else if self.current == self.end {
            None
        } else {
            let p: u64 = self.current;
            self.current = self.current + 1;
            proof {
                assert(self.allocated() =~= old(self).allocated().insert(p));
            }
            Some(PhysPageNum(p))
        }
    }

    /// Takes the frame `ppn` back. A number that is not handed out at present
    /// is left alone.
    pub fn deallocate(&mut self, ppn: PhysPageNum)
        requires
            old(self).wf(),
        ensures
            final(self).wf(),
            final(self).first() == old(self).first(),
            final(self).limit() == old(self).limit(),
            final(self).allocated() == old(self).allocated().remove(ppn.0),
            final(self).free_count() == old(self).free_count() + if old(self).allocated().contains(
                ppn.0,
            ) {
                1nat
            } else {
                0nat
            },
            old(self).allocated().contains(ppn.0) ==> final(self).next() == ppn.0,
            !old(self).allocated().contains(ppn.0) ==> *final(self) == *old(self),
    {
        if self.is_allocated(ppn) {
            let ghost before = self.recycled@;
            self.recycled.push(ppn.0);
            proof {
                assert(forall|q: u64|
                    self.recycled@.contains(q) <==> (q == ppn.0 || before.contains(q))) by {
                    assert forall|q: u64| self.recycled@.contains(q) implies (q == ppn.0
                        || before.contains(q)) by {
                        let k = choose|k: int| 0 <= k < self.recycled@.len() && self.recycled@[k] == q;
                        if k < before.len() {
                            assert(before[k] == q);
                        }
                    }
                    assert forall|q: u64| (q == ppn.0 || before.contains(q)) implies self.recycled@.contains(
                        q,
                    ) by {
                        if q == ppn.0 {
                            assert(self.recycled@[before.len() as int] == q);
                        } else {
                            let k = choose|k: int| 0 <= k < before.len() && before[k] == q;
                            assert(self.recycled@[k] == q);
                        }
                    }
                }
                assert(self.allocated() =~= old(self).allocated().remove(ppn.0));
            }
        } else {
            assert(self.allocated() =~= old(self).allocated().remove(ppn.0));
        }
    }
}

/// Allocates one frame, filled with zero bytes. `None` exactly when the
/// allocator has none left.
pub fn frame_alloc(allocator: &mut FrameAllocator) -> (r: Option<FrameTracker>)
    requires
        old(allocator).wf(),
    ensures
        final(allocator).wf(),
        final(allocator).first() == old(allocator).first(),
        final(allocator).limit() == old(allocator).limit(),
        r.is_some() <==> old(allocator).free_count() > 0,
        r matches Some(frame) ==> {
            &&& frame.wf()
            &&& frame@ == Seq::new(PAGE_SIZE as nat, |i: int| 0u8)
            &&& frame.ppn().0 == old(allocator).next()
            &&& frame.ppn().0 < PPN_LIMIT
            &&& !old(allocator).allocated().contains(frame.ppn().0)
            &&& final(allocator).allocated() == old(allocator).allocated().insert(frame.ppn().0)
            &&& final(allocator).free_count() == old(allocator).free_count() - 1
        },
        r is None ==> *final(allocator) == *old(allocator),
{
    match allocator.allocate() {
        Some(ppn) => {
            let bytes: Vec<u8> = vec![0u8; PAGE_SIZE];
            assert(bytes@ =~= Seq::new(PAGE_SIZE as nat, |i: int| 0u8));
            Some(FrameTracker { ppn, bytes })
        },
        None => None,
    }
}

/// Gives the frame back to the allocator.
pub fn frame_dealloc(allocator: &mut FrameAllocator, frame: FrameTracker)
    requires
        old(allocator).wf(),
    ensures
        final(allocator).wf(),
        final(allocator).first() == old(allocator).first(),
        final(allocator).limit() == old(allocator).limit(),
        final(allocator).allocated() == old(allocator).allocated().remove(frame.ppn().0),
        final(allocator).free_count() == old(allocator).free_count() + if old(
            allocator,
        ).allocated().contains(frame.ppn().0) {
            1nat
        } else {
            0nat
        },
        old(allocator).allocated().contains(frame.ppn().0) ==> final(allocator).next()
            == frame.ppn().0,
        !old(allocator).allocated().contains(frame.ppn().0) ==> *final(allocator) == *old(
            allocator,
        ),
{
    allocator.deallocate(frame.ppn);
}

} // verus!

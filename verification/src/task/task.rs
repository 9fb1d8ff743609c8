//! Task control blocks.

use vstd::prelude::*;
use crate::config::{BIG_STRIDE, MAX_SYSCALL_NUM};
use crate::mm::address::VirtAddr;
use crate::mm::frame_allocator::FrameAllocator;
use crate::mm::memory_set::MemorySet;
use crate::task::context::{TaskContext, TrapContext};

verus! {

/// Where a task stands in its life.
#[derive(Copy, Clone, Debug, PartialEq, Eq, Structural)]
pub enum TaskStatus {
    /// Not set up yet.
    UnInit,
    /// Waiting in the ready queue.
    Ready,
    /// On the processor.
    Running,
    /// Exited, and waiting for its parent to collect the exit code.
    Zombie,
    /// Exited and collected.
    Exited,
}

/// The control block of a task: everything that the kernel keeps of one
/// process.
pub struct TaskControlBlock {
    /// The process identifier.
    pub pid: usize,
    /// The top of the kernel stack.
    pub kernel_stack_top: u64,
    /// Where the task stands in its life.
    pub task_status: TaskStatus,
    /// The registers that a switch between tasks saves.
    pub task_cx: TaskContext,
    /// The registers of the task when it trapped into the kernel.
    pub trap_cx: TrapContext,
    /// The address space.
    pub memory_set: MemorySet,
    /// The parent, which does not own the task.
    pub parent: Option<usize>,
    /// The children, which the task owns.
    pub children: Vec<usize>,
    /// The exit code, once the task has exited.
    pub exit_code: i32,
    /// The open files by descriptor: each slot is free or refers to an entry
    /// of the table of open files.
    pub fd_table: Vec<Option<usize>>,
    /// The address at which the heap starts.
    pub heap_bottom: u64,
    /// The address at which the heap ends.
    pub program_brk: u64,
    /// The stride that the task has accumulated.
    pub stride: u64,
    /// The priority, which is at least 2.
    pub priority: u64,
    /// How often the task made each system call.
    pub syscall_times: Vec<u32>,
    /// When the task was first put on the processor, in microseconds.
    pub start_time: Option<u64>,
}

impl TaskControlBlock {
    /// The invariant of a control block: the address space is well formed,
    /// there is one counter for each system call, the priority is at least
    /// 2, and the heap does not end before it starts.
    pub open spec fn wf(&self) -> bool {
        &&& self.memory_set.wf()
        &&& self.syscall_times@.len() == MAX_SYSCALL_NUM
        &&& self.priority >= 2
        &&& self.heap_bottom <= self.program_brk
    }

    /// The stride that the task advances by on each selection.
    pub open spec fn spec_pass(&self) -> u64 {
        (BIG_STRIDE as u64 / self.priority) as u64
    }

    /// The stride of the task after one more selection: the sum of stride
    /// and pass, wrapped to a machine word.
    pub open spec fn next_stride(&self) -> u64 {
        if self.stride + self.spec_pass() <= u64::MAX {
            (self.stride + self.spec_pass()) as u64
        } else {
            (self.stride + self.spec_pass() - 0x1_0000_0000_0000_0000) as u64
        }
    }

    /// The process identifier.
    pub fn getpid(&self) -> (r: usize)
        ensures
            r == self.pid,
    {
        self.pid
    }

    /// Whether the task has exited and was not collected yet.
    pub fn is_zombie(&self) -> (r: bool)
        ensures
            r == (self.task_status is Zombie),
    {
        self.task_status == TaskStatus::Zombie
    }

    /// The token of the task's address space.
    pub fn get_user_token(&self) -> (r: u64)
        ensures
            r == self.memory_set.spec_token(),
    {
        self.memory_set.token()
    }

    /// The stride that the task advances by on each selection.
    #[verifier::when_used_as_spec(spec_pass)]
    pub fn pass(&self) -> (r: u64)
        requires
            self.priority >= 2,
        ensures
            r == self.spec_pass(),
            r <= BIG_STRIDE / 2,
    {
        let p: u64 = self.priority;
        assert(0x10_0000int / (p as int) <= 0x10_0000int / 2) by (nonlinear_arith)
            requires
                p >= 2,
        ;
        BIG_STRIDE as u64 / p
    }

    /// Adds the pass to the stride, as on each selection of the task.
    pub fn advance_stride(&mut self)
        requires
            old(self).priority >= 2,
        ensures
            final(self).stride == old(self).next_stride(),
            *final(self) == (TaskControlBlock { stride: final(self).stride, ..*old(self) }),
    {
        let pass = self.pass();
        self.stride = self.stride.wrapping_add(pass);
    }

    /// The lowest free descriptor of the table as it is, or the number of
    /// its slots where none is free.
    pub open spec fn lowest_free_fd(&self) -> int {
        Self::first_free(self.fd_table@)
    }

    /// The position of the first free slot of `table`, or the number of its
    /// slots where none is free.
    pub open spec fn first_free(table: Seq<Option<usize>>) -> int
        decreases table.len(),
    {
        if table.len() == 0 {
            0
        } else if table[0] is None {
            0
        } else {
            1 + Self::first_free(table.drop_first())
        }
    }

    /// The first free slot lies within the table or just past it, it is
    /// free where it lies within, and no slot before it is.
    pub proof fn lemma_first_free(table: Seq<Option<usize>>)
        ensures
            0 <= Self::first_free(table) <= table.len(),
            Self::first_free(table) < table.len() ==> table[Self::first_free(table)] is None,
            forall|j: int| 0 <= j < Self::first_free(table) ==> (#[trigger] table[j]) is Some,
        decreases table.len(),
    {
        if table.len() == 0 {
        } else if table[0] is None {
        } else {
            Self::lemma_first_free(table.drop_first());
            let k = Self::first_free(table.drop_first());
            assert forall|j: int| 0 <= j < 1 + k implies (#[trigger] table[j]) is Some by {
                if j > 0 {
                    assert(table.drop_first()[j - 1] == table[j]);
                }
            }
            if k < table.drop_first().len() {
                assert(table.drop_first()[k] == table[k + 1]);
            }
        }
    }

    /// A position that is free, or lies just past the table, with no free
    /// slot before it, is the first free slot.
    pub proof fn lemma_first_free_is(table: Seq<Option<usize>>, k: int)
        requires
            0 <= k <= table.len(),
            k < table.len() ==> table[k] is None,
            forall|j: int| 0 <= j < k ==> (#[trigger] table[j]) is Some,
        ensures
            Self::first_free(table) == k,
    {
        Self::lemma_first_free(table);
        let p = Self::first_free(table);
        if p < k {
            assert(table[p] is Some);
        } else if k < p {
            assert(table[k] is Some);
        }
    }

    /// The lowest free descriptor; where none is free, the table grows by
    /// one free slot, which is handed out.
    pub fn alloc_fd(&mut self) -> (r: usize)
        ensures
            r == old(self).lowest_free_fd(),
            r < final(self).fd_table@.len(),
            final(self).fd_table@[r as int] is None,
            final(self).fd_table@ == if r < old(self).fd_table@.len() {
                old(self).fd_table@
            } else {
                old(self).fd_table@.push(None)
            },
            *final(self) == (TaskControlBlock { fd_table: final(self).fd_table, ..*old(self) }),
    {
        let mut i: usize = 0;
        while i < self.fd_table.len() && self.fd_table[i].is_some()
            invariant
                0 <= i <= self.fd_table@.len(),
                *self == *old(self),
                forall|j: int| 0 <= j < i ==> (#[trigger] self.fd_table@[j]) is Some,
            decreases self.fd_table@.len() - i,
        {
            i = i + 1;
        }
        proof {
            Self::lemma_first_free_is(self.fd_table@, i as int);
        }
        if i == self.fd_table.len() {
            self.fd_table.push(None);
        }
        i
    }

    /// The address at which the heap ends after a move by `size` bytes.
    pub open spec fn moved_brk(&self, size: i32) -> VirtAddr {
        VirtAddr((self.program_brk + size) as u64)
    }

    /// Whether the heap can shrink by `size` bytes: its area is the first
    /// that starts at the page of the start of the heap, and the new end
    /// lies within it.
    pub open spec fn can_shrink(&self, size: i32) -> bool {
        exists|i: int|
            0 <= i < self.memory_set.spec_areas().len() && #[trigger] self.memory_set.shrinks_at(
                i,
                VirtAddr(self.heap_bottom),
                self.moved_brk(size),
            )
    }

    /// Whether the heap can grow by `size` bytes without a frame: its area
    /// is framed and the first that starts at the page of the start of the
    /// heap, and the pages up to the new end are free and within the virtual
    /// page numbers.
    pub open spec fn can_grow_lazily(&self, size: i32) -> bool {
        exists|i: int|
            0 <= i < self.memory_set.spec_areas().len() && #[trigger] self.memory_set.appends_at(
                i,
                VirtAddr(self.heap_bottom),
                self.moved_brk(size).spec_ceil().0 as int,
            ) && self.memory_set.spec_areas()[i].spec_map_type() is Framed
    }

    /// `post` is `pre` after its heap shrank by `size` bytes: the area of
    /// the heap ends at the page of the new end, and the pages from there on
    /// are unmapped.
    pub open spec fn heap_shrunk(
        pre: &TaskControlBlock,
        pre_alloc: &FrameAllocator,
        post: &TaskControlBlock,
        post_alloc: &FrameAllocator,
        size: i32,
    ) -> bool {
        exists|i: int|
            {
                &&& 0 <= i < pre.memory_set.spec_areas().len()
                &&& pre.memory_set.shrinks_at(i, VirtAddr(pre.heap_bottom), pre.moved_brk(size))
                &&& #[trigger] MemorySet::shrunk(
                    &pre.memory_set,
                    pre_alloc,
                    &post.memory_set,
                    post_alloc,
                    i,
                    pre.moved_brk(size).spec_ceil().0 as int,
                )
            }
    }

    /// `post` is `pre` after its heap grew by `size` bytes: the area of the
    /// heap ends at the page of the new end.
    pub open spec fn heap_grown(
        pre: &TaskControlBlock,
        pre_alloc: &FrameAllocator,
        post: &TaskControlBlock,
        post_alloc: &FrameAllocator,
        size: i32,
    ) -> bool {
        exists|i: int|
            {
                &&& 0 <= i < pre.memory_set.spec_areas().len()
                &&& pre.memory_set.appends_at(
                    i,
                    VirtAddr(pre.heap_bottom),
                    pre.moved_brk(size).spec_ceil().0 as int,
                )
                &&& #[trigger] MemorySet::appended(
                    &pre.memory_set,
                    pre_alloc,
                    &post.memory_set,
                    post_alloc,
                    i,
                    pre.moved_brk(size).spec_ceil().0 as int,
                )
            }
    }

    /// Moves the end of the heap by `size` bytes and hands back where it was.
    /// `None` comes back, and nothing changes, where the new end would lie
    /// before the start of the heap or past the virtual addresses, and where
    /// the address space cannot follow.
    pub fn change_program_brk(&mut self, allocator: &mut FrameAllocator, size: i32) -> (r: Option<u64>)
        requires
            old(self).wf(),
            old(allocator).wf(),
        ensures
            final(self).wf(),
            final(allocator).wf(),
            MemorySet::kept_books(
                &old(self).memory_set,
                old(allocator).allocated(),
                &final(self).memory_set,
                final(allocator).allocated(),
            ),
            final(self).pid == old(self).pid,
            final(self).task_status == old(self).task_status,
            final(self).parent == old(self).parent,
            final(self).children == old(self).children,
            final(self).fd_table == old(self).fd_table,
            final(self).heap_bottom == old(self).heap_bottom,
            final(self).stride == old(self).stride,
            final(self).priority == old(self).priority,
            final(self).trap_cx == old(self).trap_cx,
            final(self).task_cx == old(self).task_cx,
            final(self).exit_code == old(self).exit_code,
            final(self).syscall_times == old(self).syscall_times,
            final(self).start_time == old(self).start_time,
            final(self).kernel_stack_top == old(self).kernel_stack_top,
            r matches Some(brk) ==> {
                &&& brk == old(self).program_brk
                &&& final(self).program_brk == old(self).program_brk + size
                &&& old(self).heap_bottom <= old(self).program_brk + size
            },
            r is None ==> final(self).program_brk == old(self).program_brk && MemorySet::rolled_back(
                &old(self).memory_set,
                old(allocator),
                &final(self).memory_set,
                final(allocator),
            ),
            old(self).program_brk + size < old(self).heap_bottom || old(self).program_brk + size
                > u64::MAX ==> r is None,
            size == 0 ==> r == Some(old(self).program_brk) && final(self).memory_set == old(self).memory_set && *final(allocator) == *old(allocator),
            size < 0 && old(self).heap_bottom <= old(self).program_brk + size ==> (r is Some
                <==> old(self).can_shrink(size)),
            size < 0 && r is Some ==> Self::heap_shrunk(
                old(self),
                old(allocator),
                final(self),
                final(allocator),
                size,
            ),
            size > 0 && r is Some ==> Self::heap_grown(
                old(self),
                old(allocator),
                final(self),
                final(allocator),
                size,
            ),
            size > 0 && old(self).program_brk + size <= u64::MAX && old(self).can_grow_lazily(size)
                ==> r is Some,
    {
        let old_break: u64 = self.program_brk;
        proof {
            assert(self.memory_set.table().frames() =~= self.memory_set.table().frames().union(
                allocator.allocated().difference(allocator.allocated()),
            ));
        }
        if size == 0 {
            return Some(old_break);
        }
        let new_brk: u64 = if size < 0 {
            let down: u64 = (-(size as i64)) as u64;
            if down > self.program_brk - self.heap_bottom {
                return None;
            }
            self.program_brk - down
        } else {
            let up: u64 = size as u64;
            if up > u64::MAX - self.program_brk {
                return None;
            }
            self.program_brk + up
        };
        let ghost pre = *self;
        let result = if size < 0 {
            self.memory_set.shrink_to(allocator, VirtAddr(self.heap_bottom), VirtAddr(new_brk))
        } else {
            self.memory_set.append_to(allocator, VirtAddr(self.heap_bottom), VirtAddr(new_brk))
        };
        proof {
            let bottom = VirtAddr(pre.heap_bottom);
            let target = pre.moved_brk(size);
            assert(target == VirtAddr(new_brk));
            let top = target.spec_ceil().0 as int;
            if size < 0 {
                if result {
                    let i = choose|i: int|
                        {
                            &&& 0 <= i < pre.memory_set.spec_areas().len()
                            &&& pre.memory_set.shrinks_at(i, bottom, target)
                            &&& #[trigger] MemorySet::shrunk(
                                &pre.memory_set,
                                old(allocator),
                                &self.memory_set,
                                allocator,
                                i,
                                top,
                            )
                        };
                    assert(pre.memory_set.shrinks_at(i, bottom, target));
                    assert(pre.can_shrink(size));
                    assert(Self::heap_shrunk(&pre, old(allocator), self, allocator, size));
                } else {
                    assert(!pre.can_shrink(size)) by {
                        if pre.can_shrink(size) {
                            let i = choose|i: int|
                                0 <= i < pre.memory_set.spec_areas().len()
                                    && #[trigger] pre.memory_set.shrinks_at(i, bottom, target);
                            assert(0 <= i < pre.memory_set.spec_areas().len()
                                && pre.memory_set.shrinks_at(i, bottom, target));
                        }
                    }
                }
            } else {
                if result {
                    let i = choose|i: int|
                        {
                            &&& 0 <= i < pre.memory_set.spec_areas().len()
                            &&& pre.memory_set.appends_at(i, bottom, top)
                            &&& #[trigger] MemorySet::appended(
                                &pre.memory_set,
                                old(allocator),
                                &self.memory_set,
                                allocator,
                                i,
                                top,
                            )
                        };
                    assert(Self::heap_grown(&pre, old(allocator), self, allocator, size));
                } else {
                    assert(!pre.can_grow_lazily(size)) by {
                        if pre.can_grow_lazily(size) {
                            let i = choose|i: int|
                                0 <= i < pre.memory_set.spec_areas().len()
                                    && #[trigger] pre.memory_set.appends_at(i, bottom, top)
                                    && pre.memory_set.spec_areas()[i].spec_map_type() is Framed;
                            assert(0 <= i < pre.memory_set.spec_areas().len()
                                && pre.memory_set.appends_at(i, bottom, top)
                                && pre.memory_set.spec_areas()[i].spec_map_type() is Framed);
                        }
                    }
                }
            }
        }
        if result {
            self.program_brk = new_brk;
            Some(old_break)
        } else {
            None
        }
    }
}

} // verus!

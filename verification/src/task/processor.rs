//! The kernel's state in one place: the frames, the table of tasks, the
//! ready queue, the task on the processor, the file store and the console;
//! and the moves between tasks.

use vstd::prelude::*;
use crate::config::{DEFAULT_PRIORITY, MAX_SYSCALL_NUM};
use crate::fs::{FileKind, FileSystem, FileTable, OpenFile};
use crate::mm::address::PhysPageNum;
use crate::mm::frame_allocator::FrameAllocator;
use crate::mm::loader::{LoadError, TRAMPOLINE};
use crate::mm::memory_set::MemorySet;
use crate::task::context::{TaskContext, TrapContext};
use crate::task::descriptors::{entry_refs, fds_of, refs_in, refs_of};
use crate::task::manager::{add_task, find_smallest_stride, is_live, smallest_stride, TaskManager};
use crate::task::pid::PidAllocator;
use crate::task::task::{TaskControlBlock, TaskStatus};

verus! {

/// The identifier of the first task, which adopts the children of every
/// task that exits.
pub const INITPROC_PID: usize = 0;

/// The size of a kernel stack, in bytes.
pub const KERNEL_STACK_SIZE: u64 = 0x2000;

/// The whole state of the kernel.
pub struct Kernel {
    /// The allocator of physical frames.
    pub frames: FrameAllocator,
    /// The allocator of process identifiers.
    pub pids: PidAllocator,
    /// The tasks by process identifier.
    pub tasks: Vec<Option<TaskControlBlock>>,
    /// The ready queue.
    pub manager: TaskManager,
    /// The task on the processor.
    pub current: Option<usize>,
    /// The file store.
    pub fs: FileSystem,
    /// The open files.
    pub files: FileTable,
    /// The bytes that were typed at the console and not read yet, the
    /// oldest first.
    pub console_in: Vec<u8>,
    /// The bytes that were written to the console.
    pub console_out: Vec<u8>,
    /// The token of the kernel's own address space.
    pub kernel_token: u64,
    /// The address of the kernel's trap handler.
    pub trap_handler: u64,
    /// The address at which a task resumes after a trap.
    pub trap_return: u64,
}

/// The top of the kernel stack of the task `pid`: the stacks lie below the
/// trampoline, one guard page apart. Zero where the stack would not fit.
pub open spec fn spec_kernel_stack_top(pid: usize) -> u64 {
    if pid <= 0x100_0000 {
        (TRAMPOLINE - pid * 0x3000) as u64
    } else {
        0
    }
}

/// The top of the kernel stack of the task `pid`.
#[verifier::when_used_as_spec(spec_kernel_stack_top)]
pub fn kernel_stack_top(pid: usize) -> (r: u64)
    ensures
        r == spec_kernel_stack_top(pid),
{
    if pid <= 0x100_0000 {
        TRAMPOLINE - (pid as u64) * 0x3000
    } else {
        0
    }
}

impl Kernel {
    /// Whether the table holds a task under the identifier `pid`.
    pub open spec fn live(&self, pid: usize) -> bool {
        is_live(self.tasks@, pid)
    }

    /// The task `pid`.
    pub open spec fn task(&self, pid: usize) -> TaskControlBlock {
        self.tasks@[pid as int]->0
    }

    /// The invariant of the kernel. The table of tasks holds exactly the
    /// tasks whose identifiers are handed out, each under its own
    /// identifier and well formed. The task on the processor is running and
    /// the tasks in the ready queue are ready. The children of a task are
    /// tasks that name it as their parent, none is listed twice, and a
    /// zombie has none. No task stands twice in the ready queue, and no
    /// task is its own parent. The first task stays for good once it is
    /// there, and has no parent. Each entry of the table of open files
    /// counts the descriptors that refer to it, so that every descriptor of
    /// a task refers to an entry.
    pub open spec fn wf(&self) -> bool {
        self.tasks_wf() && self.files_ok()
    }

    /// The part of the invariant that speaks of the tasks, the process
    /// identifiers, the processor and the ready queue.
    pub open spec fn tasks_wf(&self) -> bool {
        &&& self.frames.wf()
        &&& self.pids.wf()
        &&& self.tasks@.len() == self.pids.bound()
        &&& self.tasks@.len() > 0 ==> self.live(INITPROC_PID) && self.task(INITPROC_PID).parent
            is None
        &&& forall|p: usize|
            p < self.tasks@.len() ==> (#[trigger] self.live(p)) == self.pids.allocated().contains(p)
        &&& forall|p: usize| #[trigger]
            self.live(p) ==> self.task(p).pid == p && self.task(p).wf() && self.task(p).parent
                != Some(p)
        &&& self.current matches Some(c) ==> self.live(c) && self.task(c).task_status is Running
        &&& forall|i: int|
            0 <= i < self.manager@.len() ==> self.live(#[trigger] self.manager@[i]) && self.task(
                self.manager@[i],
            ).task_status is Ready
        &&& self.manager@.no_duplicates()
        &&& forall|p: usize, k: int| #[trigger]
            self.live(p) && 0 <= k < self.task(p).children@.len() ==> self.live(
                #[trigger] self.task(p).children@[k],
            ) && self.task(self.task(p).children@[k]).parent == Some(p)
        &&& forall|p: usize| #[trigger] self.live(p) ==> self.task(p).children@.no_duplicates()
        &&& forall|p: usize| #[trigger]
            self.live(p) && self.task(p).task_status is Zombie ==> self.task(p).children@.len()
                == 0
    }

    /// Whether nothing in the kernel refers to the task `pid`: it is not on
    /// the processor, not in the ready queue, and no task lists it as a
    /// child.
    pub open spec fn unreferenced(&self, pid: usize) -> bool {
        &&& self.current != Some(pid)
        &&& !self.manager@.contains(pid)
        &&& forall|p: usize| #[trigger] self.live(p) ==> !self.task(p).children@.contains(pid)
    }

    /// A kernel with the frames `[first, end)` to hand out, no task, an
    /// empty file store and a silent console.
    pub fn new(
        first: PhysPageNum,
        end: PhysPageNum,
        kernel_token: u64,
        trap_handler: u64,
        trap_return: u64,
    ) -> (r: Kernel)
        requires
            first.0 <= end.0 <= crate::mm::address::PPN_LIMIT,
        ensures
            r.wf(),
            r.frames_wf(),
            r.tasks@.len() == 0,
            r.current is None,
            r.manager@.len() == 0,
            r.frames.allocated() == Set::<u64>::empty(),
            r.frames.free_count() == end.0 - first.0,
            r.fs.entries().len() == 0,
            r.files@.len() == 0,
            r.console_in@.len() == 0,
            r.console_out@.len() == 0,
            r.kernel_token == kernel_token,
            r.trap_handler == trap_handler,
            r.trap_return == trap_return,
    {
        let r = Kernel {
            frames: FrameAllocator::new(first, end),
            pids: PidAllocator::new(),
            tasks: Vec::new(),
            manager: TaskManager::new(),
            current: None,
            fs: FileSystem::new(),
            files: FileTable::new(),
            console_in: Vec::new(),
            console_out: Vec::new(),
            kernel_token,
            trap_handler,
            trap_return,
        };
        r
    }

    /// The identifier of the task on the processor.
    pub fn current_task(&self) -> (r: Option<usize>)
        ensures
            r == self.current,
    {
        self.current
    }

    /// The token of the address space of the task on the processor.
    pub fn current_user_token(&self) -> (r: u64)
        requires
            self.wf(),
            self.current is Some,
        ensures
            r == self.task(self.current->0).memory_set.spec_token(),
    {
        let pid = self.current.unwrap();
        match &self.tasks[pid] {
            Some(t) => t.get_user_token(),
            None => 0,
        }
    }

    /// The kernel stays well formed when one task changes in nothing but
    /// what the invariant does not speak of.
    pub proof fn lemma_tasks_update(pre: &Kernel, post: &Kernel, pid: usize)
        requires
            pre.tasks_wf(),
            pre.live(pid),
            post.frames.wf(),
            post.pids == pre.pids,
            post.manager == pre.manager,
            post.current == pre.current,
            post.tasks@ == pre.tasks@.update(pid as int, post.tasks@[pid as int]),
            post.tasks@[pid as int] is Some,
            post.task(pid).pid == pid,
            post.task(pid).wf(),
            post.task(pid).task_status == pre.task(pid).task_status,
            post.task(pid).children == pre.task(pid).children,
            post.task(pid).parent == pre.task(pid).parent,
        ensures
            post.tasks_wf(),
    {
        assert forall|p: usize| p < post.tasks@.len() implies (#[trigger] post.live(p))
            == post.pids.allocated().contains(p) by {
            assert(post.live(p) == pre.live(p));
        }
        assert forall|p: usize| #[trigger] post.live(p) implies post.task(p).pid == p && post.task(
            p,
        ).wf() && post.task(p).parent != Some(p) by {
            assert(pre.live(p));
        }
        assert forall|i: int| 0 <= i < post.manager@.len() implies post.live(
            #[trigger] post.manager@[i],
        ) && post.task(post.manager@[i]).task_status is Ready by {
            assert(pre.live(pre.manager@[i]));
        }
        assert forall|p: usize, k: int| #[trigger]
            post.live(p) && 0 <= k < post.task(p).children@.len() implies post.live(
            #[trigger] post.task(p).children@[k],
        ) && post.task(post.task(p).children@[k]).parent == Some(p) by {
            assert(pre.live(p));
            let c = pre.task(p).children@[k];
            assert(pre.live(c) && pre.task(c).parent == Some(p));
        }
        assert forall|p: usize| #[trigger] post.live(p) implies post.task(
            p,
        ).children@.no_duplicates() by {
            assert(pre.live(p));
        }
        assert forall|p: usize| #[trigger]
            post.live(p) && post.task(p).task_status is Zombie implies post.task(
            p,
        ).children@.len() == 0 by {
            assert(pre.live(p));
        }
    }

    /// Puts the task of the smallest stride on the processor: it leaves the
    /// ready queue, runs, and its stride advances by its pass. The moment
    /// `now` is recorded for a task that runs for the first time. With an
    /// empty queue the processor stays idle.
    pub fn run_next(&mut self, now: u64)
        requires
            old(self).wf(),
            old(self).frames_wf(),
            old(self).current is None,
        ensures
            final(self).wf(),
            final(self).frames_wf(),
            final(self).frames == old(self).frames,
            final(self).pids == old(self).pids,
            final(self).fs == old(self).fs,
            final(self).files == old(self).files,
            final(self).console_in == old(self).console_in,
            final(self).console_out == old(self).console_out,
            final(self).tasks@.len() == old(self).tasks@.len(),
            match smallest_stride(old(self).tasks@, old(self).manager@) {
                None => *final(self) == *old(self),
                Some((chosen, left)) => {
                    &&& final(self).current == Some(chosen)
                    &&& final(self).manager@ == left
                    &&& final(self).tasks@ == old(self).tasks@.update(
                        chosen as int,
                        final(self).tasks@[chosen as int],
                    )
                    &&& final(self).live(chosen)
                    &&& final(self).task(chosen) == (TaskControlBlock {
                        task_status: TaskStatus::Running,
                        stride: old(self).task(chosen).next_stride(),
                        start_time: if old(self).task(chosen).start_time is Some {
                            old(self).task(chosen).start_time
                        } else {
                            Some(now)
                        },
                        ..old(self).task(chosen)
                    })
                },
            },
    {
        let ghost pre = *self;
        proof {
            assert forall|i: int| 0 <= i < self.manager@.len() implies is_live(
                self.tasks@,
                #[trigger] self.manager@[i],
            ) by {
                assert(self.live(self.manager@[i]));
            }
            if self.manager@.len() > 0 {
                crate::task::manager::lemma_smallest_stride(self.tasks@, self.manager@);
                crate::task::manager::lemma_smallest_stride_distinct(self.tasks@, self.manager@);
            }
        }
        if crate::task::manager::get_length(&self.manager) == 0 {
            return ;
        }
        let chosen = match find_smallest_stride(&mut self.manager, &self.tasks) {
            Some(t) => t,
            None => {
                return ;
            },
        };
        proof {
            assert(pre.manager@.contains(chosen));
            let k = choose|k: int| 0 <= k < pre.manager@.len() && pre.manager@[k] == chosen;
            assert(pre.live(pre.manager@[k]));
        }
        match &mut self.tasks[chosen] {
            Some(task) => {
                task.task_status = TaskStatus::Running;
                task.advance_stride();
                if task.start_time.is_none() {
                    task.start_time = Some(now);
                }
            },
            None => {},
        }
        self.current = Some(chosen);
        proof {
            let left = self.manager@;
            assert(self.tasks@ =~= pre.tasks@.update(chosen as int, self.tasks@[chosen as int]));
            Self::lemma_files_same(&pre, self);
            assert forall|p: usize| p < self.tasks@.len() implies (#[trigger] self.live(p))
                == self.pids.allocated().contains(p) by {
                assert(self.live(p) == pre.live(p));
            }
            assert forall|p: usize| #[trigger] self.live(p) implies self.task(p).pid == p
                && self.task(p).wf() && self.task(p).parent != Some(p) by {
                assert(pre.live(p));
            }
            assert forall|i: int| 0 <= i < left.len() implies self.live(#[trigger] left[i])
                && self.task(left[i]).task_status is Ready by {
                assert(left.contains(left[i]));
                assert(pre.manager@.contains(left[i]));
                let k = choose|k: int| 0 <= k < pre.manager@.len() && pre.manager@[k] == left[i];
                assert(pre.live(pre.manager@[k]));
            }
            assert forall|p: usize, k: int| #[trigger]
                self.live(p) && 0 <= k < self.task(p).children@.len() implies self.live(
                #[trigger] self.task(p).children@[k],
            ) && self.task(self.task(p).children@[k]).parent == Some(p) by {
                assert(pre.live(p));
                let c = pre.task(p).children@[k];
                assert(pre.live(c) && pre.task(c).parent == Some(p));
            }
            assert forall|p: usize| #[trigger] self.live(p) implies self.task(
                p,
            ).children@.no_duplicates() by {
                assert(pre.live(p));
            }
            assert forall|p: usize| #[trigger]
                self.live(p) && self.task(p).task_status is Zombie implies self.task(
                p,
            ).children@.len() == 0 by {
                assert(pre.live(p));
            }
            Self::lemma_frames_same(&pre, self);
        }
    }

    /// The counters of a task that has made no system call yet.
    pub fn zero_counters() -> (r: Vec<u32>)
        ensures
            r@.len() == MAX_SYSCALL_NUM,
            forall|i: int| 0 <= i < r@.len() ==> r@[i] == 0,
    {
        let mut v: Vec<u32> = Vec::new();
        let mut i: usize = 0;
        while i < MAX_SYSCALL_NUM
            invariant
                0 <= i <= MAX_SYSCALL_NUM,
                v@.len() == i,
                forall|j: int| 0 <= j < i ==> v@[j] == 0,
            decreases MAX_SYSCALL_NUM - i,
        {
            v.push(0u32);
            i = i + 1;
        }
        v
    }

    /// The kernel stays well formed when a new task enters the table and
    /// the back of the ready queue, as a child of `parent` where one is
    /// given.
    pub proof fn lemma_tasks_insert(pre: &Kernel, post: &Kernel, pid: usize, parent: Option<usize>)
        requires
            pre.tasks_wf(),
            !pre.live(pid),
            pid == pre.pids.next(),
            post.frames.wf(),
            post.pids.wf(),
            post.pids.allocated() == pre.pids.allocated().insert(pid),
            post.pids.bound() == if pid == pre.pids.bound() {
                (pid + 1) as usize
            } else {
                pre.pids.bound()
            },
            post.current == pre.current,
            post.manager@ == pre.manager@.push(pid),
            post.live(pid),
            post.tasks@.len() == post.pids.bound(),
            post.task(pid).pid == pid,
            post.task(pid).wf(),
            post.task(pid).task_status is Ready,
            post.task(pid).children@.len() == 0,
            post.task(pid).parent == parent,
            parent matches Some(q) ==> pre.live(q) && q != pid && post.live(q)
                && post.task(q).children@ == pre.task(q).children@.push(pid) && post.task(q).wf()
                && post.task(q).pid == q && post.task(q).task_status == pre.task(q).task_status
                && post.task(q).parent == pre.task(q).parent && !(pre.task(q).task_status is Zombie),
            forall|p: usize|
                p != pid && parent != Some(p) && p < pre.tasks@.len() ==> #[trigger] post.tasks@[p as int]
                    == pre.tasks@[p as int],
        ensures
            post.tasks_wf(),
    {
        pre.pids.lemma_bound();
        assert forall|p: usize| p < post.tasks@.len() implies (#[trigger] post.live(p))
            == post.pids.allocated().contains(p) by {
            if p != pid {
                if p < pre.tasks@.len() {
                    assert(pre.live(p) == pre.pids.allocated().contains(p));
                    if parent != Some(p) {
                        assert(post.tasks@[p as int] == pre.tasks@[p as int]);
                    }
                }
            }
        }
        assert forall|p: usize| #[trigger] post.live(p) implies post.task(p).pid == p && post.task(
            p,
        ).wf() && post.task(p).parent != Some(p) by {
            if p != pid && parent != Some(p) {
                assert(post.tasks@[p as int] == pre.tasks@[p as int]);
                assert(pre.live(p));
            }
        }
        if let Some(c) = post.current {
            assert(pre.live(c));
            if parent != Some(c) {
                assert(post.tasks@[c as int] == pre.tasks@[c as int]);
            }
        }
        assert forall|i: int| 0 <= i < post.manager@.len() implies post.live(
            #[trigger] post.manager@[i],
        ) && post.task(post.manager@[i]).task_status is Ready by {
            if i < pre.manager@.len() {
                let q = pre.manager@[i];
                assert(pre.live(q));
                if parent != Some(q) {
                    assert(post.tasks@[q as int] == pre.tasks@[q as int]);
                }
            }
        }
        assert(post.manager@.no_duplicates()) by {
            assert forall|i: int, j: int|
                0 <= i < post.manager@.len() && 0 <= j < post.manager@.len() && i
                    != j implies post.manager@[i] != post.manager@[j] by {
                if i < pre.manager@.len() {
                    assert(pre.live(pre.manager@[i]));
                }
                if j < pre.manager@.len() {
                    assert(pre.live(pre.manager@[j]));
                }
            }
        }
        assert forall|p: usize, k: int| #[trigger]
            post.live(p) && 0 <= k < post.task(p).children@.len() implies post.live(
            #[trigger] post.task(p).children@[k],
        ) && post.task(post.task(p).children@[k]).parent == Some(p) by {
            if parent == Some(p) {
                if k < pre.task(p).children@.len() {
                    let c = pre.task(p).children@[k];
                    assert(pre.live(p));
                    assert(pre.live(c) && pre.task(c).parent == Some(p));
                    assert(c != pid);
                    if c != p {
                        assert(post.tasks@[c as int] == pre.tasks@[c as int]);
                    }
                }
            } else {
                assert(post.tasks@[p as int] == pre.tasks@[p as int]);
                assert(pre.live(p));
                let c = pre.task(p).children@[k];
                assert(pre.live(c) && pre.task(c).parent == Some(p));
                if parent != Some(c) {
                    assert(post.tasks@[c as int] == pre.tasks@[c as int]);
                }
            }
        }
        assert forall|p: usize| #[trigger] post.live(p) implies post.task(
            p,
        ).children@.no_duplicates() by {
            if parent == Some(p) {
                assert(pre.live(p));
                let kids = pre.task(p).children@;
                assert forall|k: int| 0 <= k < kids.len() implies kids[k] != pid by {
                    assert(pre.live(kids[k]));
                }
            } else if p != pid {
                assert(post.tasks@[p as int] == pre.tasks@[p as int]);
                assert(pre.live(p));
            }
        }
        assert forall|p: usize| #[trigger]
            post.live(p) && post.task(p).task_status is Zombie implies post.task(
            p,
        ).children@.len() == 0 by {
            if parent == Some(p) {
                assert(pre.live(p));
                // a zombie is not on the processor, so it makes no system call
            } else if p != pid {
                assert(post.tasks@[p as int] == pre.tasks@[p as int]);
                assert(pre.live(p));
            }
        }
    }

    /// Enters the task `tcb` into the table under its identifier, which is
    /// the next to be handed out, and into the back of the ready queue;
    /// where `tcb` names a parent, the parent lists it as its last child.
    pub(crate) fn enroll(&mut self, tcb: TaskControlBlock)
        requires
            old(self).tasks_wf(),
            old(self).frames_wf(),
            old(self).pids.available(),
            tcb.pid == old(self).pids.next(),
            tcb.wf(),
            tcb.task_status is Ready,
            tcb.children@.len() == 0,
            tcb.parent matches Some(q) ==> old(self).live(q) && !(old(self).task(q).task_status
                is Zombie),
            old(self).frames.wf(),
            tcb.memory_set.owns(old(self).frames.allocated()),
            forall|p: usize| #[trigger]
                old(self).live(p) ==> tcb.memory_set.frames().disjoint(
                    old(self).task(p).memory_set.frames(),
                ),
        ensures
            final(self).tasks_wf(),
            final(self).frames_wf(),
            final(self).frames == old(self).frames,
            final(self).fs == old(self).fs,
            final(self).files == old(self).files,
            final(self).console_in == old(self).console_in,
            final(self).console_out == old(self).console_out,
            final(self).kernel_token == old(self).kernel_token,
            final(self).trap_handler == old(self).trap_handler,
            final(self).trap_return == old(self).trap_return,
            final(self).current == old(self).current,
            final(self).manager@ == old(self).manager@.push(tcb.pid),
            final(self).tasks@.len() == if tcb.pid < old(self).tasks@.len() {
                old(self).tasks@.len()
            } else {
                old(self).tasks@.len() + 1
            },
            !old(self).live(tcb.pid),
            final(self).live(tcb.pid),
            final(self).task(tcb.pid) == tcb,
            tcb.parent matches Some(q) ==> final(self).live(q) && final(self).task(q) == (
            TaskControlBlock {
                children: final(self).task(q).children,
                ..old(self).task(q)
            }) && final(self).task(q).children@ == old(self).task(q).children@.push(tcb.pid),
            forall|p: usize|
                p != tcb.pid && tcb.parent != Some(p) && p < old(self).tasks@.len()
                    ==> #[trigger] final(self).tasks@[p as int] == old(self).tasks@[p as int],
            forall|p: usize|
                p != tcb.pid ==> #[trigger] final(self).live(p) == old(self).live(p),
    {
        let ghost pre = *self;
        let pid = tcb.pid;
        let parent = tcb.parent;
        proof {
            pre.pids.lemma_bound();
            if pid < pre.tasks@.len() {
                assert(pre.live(pid) == pre.pids.allocated().contains(pid));
            }
        }
        let _ = self.pids.allocate();
        if pid < self.tasks.len() {
            self.tasks[pid] = Some(tcb);
        } else {
            self.tasks.push(Some(tcb));
        }
        assert(self.tasks@.len() == self.pids.bound());
        assert(self.tasks@[pid as int] == Some(tcb));
        match parent {
            Some(q) => {
                match &mut self.tasks[q] {
                    Some(task) => {
                        task.children.push(pid);
                    },
                    None => {},
                }
            },
            None => {},
        }
        add_task(&mut self.manager, pid);
        proof {
            if let Some(q) = parent {
                assert(pre.live(q));
                assert(q != pid);
            }
            Self::lemma_tasks_insert(&pre, self, pid, parent);
            assert forall|p: usize| #[trigger] self.live(p) implies self.task(p).memory_set.owns(
                self.frames.allocated(),
            ) by {
                if p != pid {
                    if parent != Some(p) {
                        assert(self.tasks@[p as int] == pre.tasks@[p as int]);
                    }
                    assert(pre.live(p));
                }
            }
            assert forall|p: usize, q: usize|
                #![trigger self.live(p), self.live(q)]
                self.live(p) && self.live(q) && p != q implies self.task(p).memory_set.frames().disjoint(
                self.task(q).memory_set.frames(),
            ) by {
                if p != pid && parent != Some(p) {
                    assert(self.tasks@[p as int] == pre.tasks@[p as int]);
                }
                if q != pid && parent != Some(q) {
                    assert(self.tasks@[q as int] == pre.tasks@[q as int]);
                }
                if p != pid {
                    assert(pre.live(p));
                }
                if q != pid {
                    assert(pre.live(q));
                }
            }
        }
    }

    /// The three open files that a new task starts with: the console for
    /// reading under the descriptor 0 and for writing under 1 and 2. The
    /// entries count one descriptor each; until a task holds the
    /// descriptors, the books of open files are out of order by them.
    pub(crate) fn console_fds(&mut self) -> (r: Vec<Option<usize>>)
        requires
            old(self).tasks_wf(),
            old(self).frames_wf(),
        ensures
            final(self).tasks_wf(),
            final(self).frames_wf(),
            final(self).frames == old(self).frames,
            final(self).pids == old(self).pids,
            final(self).tasks == old(self).tasks,
            final(self).manager == old(self).manager,
            final(self).current == old(self).current,
            final(self).fs == old(self).fs,
            final(self).console_in == old(self).console_in,
            final(self).console_out == old(self).console_out,
            final(self).kernel_token == old(self).kernel_token,
            final(self).trap_handler == old(self).trap_handler,
            final(self).trap_return == old(self).trap_return,
            r@.len() == 3,
            forall|h: usize|
                #[trigger] entry_refs(final(self).files@, h) == entry_refs(old(self).files@, h)
                    + refs_in(r@, h),
            forall|h: usize| #[trigger] refs_in(r@, h) <= 1,
            forall|i: int| 0 <= i < 3 ==> (#[trigger] r@[i]) is Some && r@[i]->0 < final(self).files@.len(),
            final(self).files@[r@[0]->0 as int] == Some(
                OpenFile {
                    kind: FileKind::Stdin,
                    inode: 0,
                    offset: 0,
                    readable: true,
                    writable: false,
                    refs: 1,
                },
            ),
            forall|i: int|
                1 <= i < 3 ==> final(self).files@[(#[trigger] r@[i])->0 as int] == Some(
                    OpenFile {
                        kind: FileKind::Stdout,
                        inode: 0,
                        offset: 0,
                        readable: false,
                        writable: true,
                        refs: 1,
                    },
                ),
            r@[0] != r@[1] && r@[1] != r@[2] && r@[0] != r@[2],
    {
        let stdin = OpenFile {
            kind: FileKind::Stdin,
            inode: 0,
            offset: 0,
            readable: true,
            writable: false,
            refs: 1,
        };
        let stdout = OpenFile {
            kind: FileKind::Stdout,
            inode: 0,
            offset: 0,
            readable: false,
            writable: true,
            refs: 1,
        };
        proof {
            FileTable::lemma_first_free_bounds(self.files@);
        }
        let ghost files_0 = self.files@;
        let a = self.files.open(stdin);
        proof {
            FileTable::lemma_first_free_bounds(self.files@);
        }
        let ghost files_a = self.files@;
        let b = self.files.open(stdout);
        proof {
            FileTable::lemma_first_free_bounds(self.files@);
        }
        let ghost files_b = self.files@;
        let c = self.files.open(stdout);
        let mut v: Vec<Option<usize>> = Vec::new();
        v.push(Some(a));
        v.push(Some(b));
        v.push(Some(c));
        proof {
            let none = Seq::<Option<usize>>::empty();
            assert(v@ =~= none.push(Some(a)).push(Some(b)).push(Some(c)));
            assert forall|h: usize|
                #[trigger] entry_refs(self.files@, h) == entry_refs(files_0, h) + refs_in(v@, h)
                    && refs_in(v@, h) <= 1 by {
                crate::task::descriptors::lemma_opened_refs(files_0, files_a, stdin, a, h);
                crate::task::descriptors::lemma_opened_refs(files_a, files_b, stdout, b, h);
                crate::task::descriptors::lemma_opened_refs(files_b, self.files@, stdout, c, h);
                crate::task::descriptors::lemma_refs_in_push(none, Some(a), h);
                crate::task::descriptors::lemma_refs_in_push(none.push(Some(a)), Some(b), h);
                crate::task::descriptors::lemma_refs_in_push(
                    none.push(Some(a)).push(Some(b)),
                    Some(c),
                    h,
                );
            }
            assert forall|h: usize| #[trigger] refs_in(v@, h) <= 1 by {
                assert(entry_refs(self.files@, h) == entry_refs(files_0, h) + refs_in(v@, h));
            }
            Self::lemma_tasks_frames(old(self), self);
            Self::lemma_frames_same(old(self), self);
        }
        v
    }

    /// Starts a task from the ELF image `elf`, as a child of `parent` where
    /// one is given: a new address space, the next process identifier, the
    /// three descriptors of the console, the default priority and no stride.
    /// The task enters the ready queue. Nothing changes when the image cannot
    /// be loaded or no identifier is left.
    pub fn spawn(&mut self, elf: &[u8], parent: Option<usize>) -> (r: Result<usize, LoadError>)
        requires
            old(self).wf(),
            old(self).frames_wf(),
            parent matches Some(q) ==> old(self).live(q) && !(old(self).task(q).task_status
                is Zombie),
        ensures
            final(self).tasks@.len() >= old(self).tasks@.len(),
            final(self).wf(),
            final(self).frames_wf(),
            final(self).fs == old(self).fs,
            final(self).console_in == old(self).console_in,
            final(self).console_out == old(self).console_out,
            final(self).current == old(self).current,
            final(self).frames.first() == old(self).frames.first(),
            final(self).frames.limit() == old(self).frames.limit(),
            r is Err ==> {
                &&& final(self).frames.allocated() == old(self).frames.allocated()
                &&& final(self).tasks == old(self).tasks
                &&& final(self).manager == old(self).manager
                &&& final(self).pids == old(self).pids
                &&& final(self).files == old(self).files
            },
            !MemorySet::loadable(elf@) || !old(self).pids.available() ==> r is Err,
            MemorySet::loadable(elf@) && old(self).pids.available() && old(self).frames.free_count() >= 1 + 3 * MemorySet::file_pages(
                elf@,
                crate::mm::loader::elf_ph_count(elf@),
            ) ==> r is Ok,
            r matches Ok(pid) ==> {
                &&& MemorySet::loadable(elf@)
                &&& pid == old(self).pids.next()
                &&& !old(self).live(pid)
                &&& final(self).live(pid)
                &&& final(self).manager@ == old(self).manager@.push(pid)
                &&& final(self).task(pid).task_status is Ready
                &&& final(self).task(pid).parent == parent
                &&& final(self).task(pid).children@.len() == 0
                &&& final(self).task(pid).stride == 0
                &&& final(self).task(pid).priority == DEFAULT_PRIORITY
                &&& final(self).task(pid).exit_code == 0
                &&& final(self).task(pid).start_time is None
                &&& final(self).task(pid).fd_table@.len() == 3
                &&& final(self).task(pid).trap_cx.is_init(
                    crate::mm::loader::elf_entry(elf@),
                    final(self).task(pid).heap_bottom,
                    old(self).kernel_token,
                    kernel_stack_top(pid),
                    old(self).trap_handler,
                )
                &&& final(self).task(pid).kernel_stack_top == kernel_stack_top(pid)
                &&& final(self).task(pid).program_brk == final(self).task(pid).heap_bottom
                &&& final(self).task(pid).memory_set.is_program(
                    elf@,
                    final(self).task(pid).heap_bottom,
                )
                &&& forall|i: int|
                    0 <= i < MAX_SYSCALL_NUM ==> final(self).task(pid).syscall_times@[i] == 0
                &&& final(self).task(pid).memory_set.fresh_in(
                    old(self).frames.allocated(),
                    final(self).frames.allocated(),
                )
                &&& parent matches Some(q) ==> final(self).live(q) && final(self).task(q).children@
                    == old(self).task(q).children@.push(pid) && final(self).task(q) == (
                TaskControlBlock {
                    children: final(self).task(q).children,
                    ..old(self).task(q)
                })
                &&& forall|p: usize|
                    p != pid && parent != Some(p) && p < old(self).tasks@.len()
                        ==> #[trigger] final(self).tasks@[p as int] == old(self).tasks@[p as int]
            },
    {
        let pid = match self.pids.peek() {
            Some(pid) => pid,
            None => {
                return Err(LoadError::NotEnoughMemory);
            },
        };
        let (memory_set, user_sp, entry) = match MemorySet::from_elf(&mut self.frames, elf) {
            Ok(loaded) => loaded,
            Err(e) => {
                proof {
                    Self::lemma_wf_frames(old(self), self);
                    Self::lemma_frames_same(old(self), self);
                }
                return Err(e);
            },
        };
        proof {
            Self::lemma_wf_frames(old(self), self);
            Self::lemma_frames_same(old(self), self);
        }
        let fd_table = self.console_fds();
        let stack_top = kernel_stack_top(pid);
        let tcb = TaskControlBlock {
            pid,
            kernel_stack_top: stack_top,
            task_status: TaskStatus::Ready,
            task_cx: TaskContext::goto_trap_return(self.trap_return, stack_top),
            trap_cx: TrapContext::app_init_context(
                entry,
                user_sp,
                self.kernel_token,
                stack_top,
                self.trap_handler,
            ),
            memory_set,
            parent,
            children: Vec::new(),
            exit_code: 0,
            fd_table,
            heap_bottom: user_sp,
            program_brk: user_sp,
            stride: 0,
            priority: DEFAULT_PRIORITY as u64,
            syscall_times: Self::zero_counters(),
            start_time: None,
        };
        proof {
            assert forall|p: usize| #[trigger] self.live(p) implies tcb.memory_set.frames().disjoint(
                self.task(p).memory_set.frames(),
            ) by {
                assert(old(self).live(p));
                assert(old(self).task(p).memory_set.owns(old(self).frames.allocated()));
            }
        }
        let ghost table = tcb.fd_table@;
        self.enroll(tcb);
        proof {
            Self::lemma_wf_enrolled(old(self), self, pid, parent, table);
        }
        Ok(pid)
    }

    /// The kernel stays well formed when only the allocator of frames
    /// changes.
    pub proof fn lemma_tasks_frames(pre: &Kernel, post: &Kernel)
        requires
            pre.tasks_wf(),
            post.frames.wf(),
            post.pids == pre.pids,
            post.tasks == pre.tasks,
            post.manager == pre.manager,
            post.current == pre.current,
        ensures
            post.tasks_wf(),
    {
        assert forall|p: usize| p < post.tasks@.len() implies (#[trigger] post.live(p))
            == post.pids.allocated().contains(p) by {
            assert(post.live(p) == pre.live(p));
        }
        assert forall|p: usize| #[trigger] post.live(p) implies post.task(p).pid == p && post.task(
            p,
        ).wf() && post.task(p).parent != Some(p) by {
            assert(pre.live(p));
        }
        assert forall|i: int| 0 <= i < post.manager@.len() implies post.live(
            #[trigger] post.manager@[i],
        ) && post.task(post.manager@[i]).task_status is Ready by {
            assert(pre.live(pre.manager@[i]));
        }
        assert forall|p: usize, k: int| #[trigger]
            post.live(p) && 0 <= k < post.task(p).children@.len() implies post.live(
            #[trigger] post.task(p).children@[k],
        ) && post.task(post.task(p).children@[k]).parent == Some(p) by {
            assert(pre.live(p));
            let c = pre.task(p).children@[k];
            assert(pre.live(c) && pre.task(c).parent == Some(p));
        }
        assert forall|p: usize| #[trigger] post.live(p) implies post.task(
            p,
        ).children@.no_duplicates() by {
            assert(pre.live(p));
        }
        assert forall|p: usize| #[trigger]
            post.live(p) && post.task(p).task_status is Zombie implies post.task(
            p,
        ).children@.len() == 0 by {
            assert(pre.live(p));
        }
    }
}

} // verus!

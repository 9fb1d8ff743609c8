//! The life of a task after its start: giving up the processor, forking,
//! replacing its program, exiting, and being collected by its parent.

use vstd::prelude::*;
use crate::config::{DEFAULT_PRIORITY, MAX_SYSCALL_NUM};
use crate::fs::OpenFile;
use crate::mm::loader::LoadError;
use crate::mm::memory_set::MemorySet;
use crate::task::context::{TaskContext, TrapContext};
use crate::task::manager::{add_task, smallest_stride, stride_of};
use crate::task::descriptors::{entry_refs, fds_of, refs_in, refs_of};
use crate::task::processor::{kernel_stack_top, Kernel, INITPROC_PID};
use crate::task::task::{TaskControlBlock, TaskStatus};

verus! {

/// The table of open files after one more descriptor was counted for the
/// entry at `handle`. A position without an entry, and an entry whose count
/// is as high as it can be, are left alone.
pub open spec fn retained(files: Seq<Option<OpenFile>>, handle: usize) -> Seq<Option<OpenFile>> {
    if handle < files.len() && files[handle as int] is Some && files[handle as int]->0.refs
        < usize::MAX {
        files.update(
            handle as int,
            Some(
                OpenFile {
                    refs: (files[handle as int]->0.refs + 1) as usize,
                    ..files[handle as int]->0
                },
            ),
        )
    } else {
        files
    }
}

/// The table of open files after one more descriptor was counted for each
/// entry that the first `n` descriptors of `fds` refer to.
pub open spec fn retained_all(files: Seq<Option<OpenFile>>, fds: Seq<Option<usize>>, n: int) -> Seq<
    Option<OpenFile>,
>
    decreases n,
{
    if n <= 0 {
        files
    } else {
        let before = retained_all(files, fds, n - 1);
        match fds[n - 1] {
            Some(h) => retained(before, h),
            None => before,
        }
    }
}

/// The table of open files after one descriptor less was counted for the
/// entry at `handle`: the entry becomes free when that was its last.
pub open spec fn released(files: Seq<Option<OpenFile>>, handle: usize) -> Seq<Option<OpenFile>> {
    if handle < files.len() && files[handle as int] is Some {
        files.update(
            handle as int,
            if files[handle as int]->0.refs > 1 {
                Some(
                    OpenFile {
                        refs: (files[handle as int]->0.refs - 1) as usize,
                        ..files[handle as int]->0
                    },
                )
            } else {
                None::<OpenFile>
            },
        )
    } else {
        files
    }
}

/// The table of open files after one descriptor less was counted for each
/// entry that the first `n` descriptors of `fds` refer to.
pub open spec fn released_all(files: Seq<Option<OpenFile>>, fds: Seq<Option<usize>>, n: int) -> Seq<
    Option<OpenFile>,
>
    decreases n,
{
    if n <= 0 {
        files
    } else {
        let before = released_all(files, fds, n - 1);
        match fds[n - 1] {
            Some(h) => released(before, h),
            None => before,
        }
    }
}

impl Kernel {
    /// Takes the running task off the processor and puts it at the back of
    /// the ready queue; the next task is chosen from the queue, which may be
    /// the same task again.
    pub fn suspend_current_and_run_next(&mut self, now: u64)
        requires
            old(self).wf(),
            old(self).frames_wf(),
            old(self).current is Some,
        ensures
            final(self).wf(),
            final(self).frames_wf(),
            final(self).frames == old(self).frames,
            final(self).pids == old(self).pids,
            final(self).fs == old(self).fs,
            final(self).files == old(self).files,
            final(self).console_in == old(self).console_in,
            final(self).console_out == old(self).console_out,
            final(self).tasks@.len() == old(self).tasks@.len(),
            final(self).current is Some,
            ({
                let c = old(self).current->0;
                let requeued = old(self).tasks@.update(
                    c as int,
                    Some(TaskControlBlock { task_status: TaskStatus::Ready, ..old(self).task(c) }),
                );
                let (chosen, left) = smallest_stride(requeued, old(self).manager@.push(c))->0;
                &&& final(self).current == Some(chosen)
                &&& final(self).manager@ == left
                &&& final(self).tasks@ == requeued.update(
                    chosen as int,
                    final(self).tasks@[chosen as int],
                )
                &&& final(self).live(chosen)
                &&& final(self).task(chosen) == (TaskControlBlock {
                    task_status: TaskStatus::Running,
                    stride: requeued[chosen as int]->0.next_stride(),
                    start_time: if requeued[chosen as int]->0.start_time is Some {
                        requeued[chosen as int]->0.start_time
                    } else {
                        Some(now)
                    },
                    ..requeued[chosen as int]->0
                })
            }),
    {
        let ghost pre = *self;
        let c = self.current.unwrap();
        match &mut self.tasks[c] {
            Some(task) => {
                task.task_status = TaskStatus::Ready;
            },
            None => {},
        }
        add_task(&mut self.manager, c);
        self.current = None;
        proof {
            assert(self.tasks@ =~= pre.tasks@.update(
                c as int,
                Some(TaskControlBlock { task_status: TaskStatus::Ready, ..pre.task(c) }),
            ));
            assert forall|p: usize| p < self.tasks@.len() implies (#[trigger] self.live(p))
                == self.pids.allocated().contains(p) by {
                assert(self.live(p) == pre.live(p));
            }
            assert forall|p: usize| #[trigger] self.live(p) implies self.task(p).pid == p
                && self.task(p).wf() && self.task(p).parent != Some(p) by {
                assert(pre.live(p));
            }
            assert forall|i: int| 0 <= i < self.manager@.len() implies self.live(
                #[trigger] self.manager@[i],
            ) && self.task(self.manager@[i]).task_status is Ready by {
                if i < pre.manager@.len() {
                    assert(pre.live(pre.manager@[i]));
                }
            }
            assert(self.manager@.no_duplicates()) by {
                assert forall|i: int, j: int|
                    0 <= i < self.manager@.len() && 0 <= j < self.manager@.len() && i
                        != j implies self.manager@[i] != self.manager@[j] by {
                    if i < pre.manager@.len() {
                        assert(pre.live(pre.manager@[i]));
                    }
                    if j < pre.manager@.len() {
                        assert(pre.live(pre.manager@[j]));
                    }
                }
            }
            assert forall|p: usize, k: int| #[trigger]
                self.live(p) && 0 <= k < self.task(p).children@.len() implies self.live(
                #[trigger] self.task(p).children@[k],
            ) && self.task(self.task(p).children@[k]).parent == Some(p) by {
                assert(pre.live(p));
                let kid = pre.task(p).children@[k];
                assert(pre.live(kid) && pre.task(kid).parent == Some(p));
            }
            assert forall|p: usize| #[trigger] self.live(p) implies self.task(
                p,
            ).children@.no_duplicates() by {
                assert(pre.live(p));
            }
            assert forall|p: usize| #[trigger]
                self.live(p) && self.task(p).task_status is Zombie implies self.task(
                p,
            ).children@.len() == 0 by {
                assert(pre.live(p));
            }
            Self::lemma_frames_same(&pre, self);
            assert(self.tasks@ =~= pre.tasks@.update(c as int, self.tasks@[c as int]));
            Self::lemma_files_same(&pre, self);
        }
        self.run_next(now);
    }

    /// A copy of the descriptors of a task, with one more descriptor counted
    /// for each open file that they refer to.
    fn share_fds(&mut self, pid: usize) -> (r: Vec<Option<usize>>)
        requires
            old(self).wf(),
            old(self).frames_wf(),
            old(self).live(pid),
            forall|h: usize| #[trigger] entry_refs(old(self).files@, h) < usize::MAX,
        ensures
            final(self).tasks_wf(),
            final(self).frames_wf(),
            forall|h: usize|
                #[trigger] entry_refs(final(self).files@, h) == entry_refs(old(self).files@, h)
                    + refs_in(r@, h),
            r@ == old(self).task(pid).fd_table@,
            final(self).files@ == retained_all(old(self).files@, r@, r@.len() as int),
            final(self).frames == old(self).frames,
            final(self).pids == old(self).pids,
            final(self).tasks == old(self).tasks,
            final(self).manager == old(self).manager,
            final(self).current == old(self).current,
            final(self).fs == old(self).fs,
            final(self).console_in == old(self).console_in,
            final(self).console_out == old(self).console_out,
            final(self).kernel_token == old(self).kernel_token,
            final(self).trap_handler == old(self).trap_handler,
            final(self).trap_return == old(self).trap_return,
    {
        let mut out: Vec<Option<usize>> = Vec::new();
        let n: usize = match &self.tasks[pid] {
            Some(t) => t.fd_table.len(),
            None => 0,
        };
        let mut i: usize = 0;
        while i < n
            invariant
                0 <= i <= n,
                old(self).live(pid),
                n == old(self).task(pid).fd_table@.len(),
                out@ == old(self).task(pid).fd_table@.take(i as int),
                self.files@ == retained_all(
                    old(self).files@,
                    old(self).task(pid).fd_table@,
                    i as int,
                ),
                self.frames == old(self).frames,
                self.pids == old(self).pids,
                self.tasks == old(self).tasks,
                self.manager == old(self).manager,
                self.current == old(self).current,
                self.fs == old(self).fs,
                self.console_in == old(self).console_in,
                self.console_out == old(self).console_out,
                self.kernel_token == old(self).kernel_token,
                self.trap_handler == old(self).trap_handler,
                self.trap_return == old(self).trap_return,
            decreases n - i,
        {
            let fd: Option<usize> = match &self.tasks[pid] {
                Some(t) => t.fd_table[i],
                None => None,
            };
            match fd {
                Some(h) => {
                    let _ = self.files.retain(h);
                },
                None => {},
            }
            out.push(fd);
            proof {
                assert(out@ =~= old(self).task(pid).fd_table@.take(i + 1));
            }
            i = i + 1;
        }
        proof {
            assert(out@ =~= old(self).task(pid).fd_table@);
            Self::lemma_retained_same(
                old(self).files@,
                old(self).task(pid).fd_table@,
                out@,
                n as int,
            );
            Self::lemma_tasks_frames(old(self), self);
            Self::lemma_frames_same(old(self), self);
            assert forall|k: int| 0 <= k < out@.len() implies ((#[trigger] out@[k]) matches Some(g)
                ==> g < old(self).files@.len() && old(self).files@[g as int] is Some) by {
                if out@[k] is Some {
                    old(self).lemma_descriptor_refers(pid, k);
                }
            }
            assert forall|g: usize| #[trigger]
                entry_refs(old(self).files@, g) + refs_in(out@, g) <= usize::MAX by {
                old(self).lemma_task_refs(pid, g);
            }
            assert forall|h: usize|
                #[trigger] entry_refs(self.files@, h) == entry_refs(old(self).files@, h) + refs_in(
                    out@,
                    h,
                ) by {
                crate::task::descriptors::lemma_retained_all_refs(
                    old(self).files@,
                    out@,
                    n as int,
                    h,
                );
                assert(out@.take(n as int) =~= out@);
            }
        }
        out
    }

    /// Counting descriptors depends on the descriptors only.
    proof fn lemma_retained_same(
        files: Seq<Option<OpenFile>>,
        a: Seq<Option<usize>>,
        b: Seq<Option<usize>>,
        n: int,
    )
        requires
            a == b,
        ensures
            retained_all(files, a, n) == retained_all(files, b, n),
    {
    }

    /// Forks the running task: the child has a copy of the parent's address
    /// space in frames of its own, the parent's trap context but for the
    /// kernel stack, the parent's descriptors, which refer to the same open
    /// files, and the parent's heap; it starts with no stride and the
    /// default priority, as a child of the running task and at the back of
    /// the ready queue. `None` comes back, and nothing has changed, when no
    /// identifier or not enough frames are left.
    pub fn fork(&mut self) -> (r: Option<usize>)
        requires
            old(self).wf(),
            old(self).frames_wf(),
            old(self).current is Some,
        ensures
            final(self).tasks@.len() >= old(self).tasks@.len(),
            final(self).wf(),
            final(self).frames_wf(),
            final(self).fs == old(self).fs,
            final(self).console_in == old(self).console_in,
            final(self).console_out == old(self).console_out,
            final(self).current == old(self).current,
            final(self).frames.first() == old(self).frames.first(),
            final(self).frames.limit() == old(self).frames.limit(),
            r is None ==> {
                &&& final(self).frames.allocated() == old(self).frames.allocated()
                &&& final(self).tasks == old(self).tasks
                &&& final(self).manager == old(self).manager
                &&& final(self).pids == old(self).pids
                &&& final(self).files == old(self).files
            },
            !old(self).pids.available() ==> r is None,
            old(self).pids.available() && old(self).frames.free_count() >= 1 + 3 * old(self).task(old(self).current->0).memory_set.span(
                old(self).task(old(self).current->0).memory_set.spec_areas().len() as int,
            ) ==> r is Some,
            r matches Some(pid) ==> {
                let c = old(self).current->0;
                let parent = old(self).task(c);
                let child = final(self).task(pid);
                &&& pid == old(self).pids.next()
                &&& pid != c
                &&& pid != INITPROC_PID
                &&& !old(self).live(pid)
                &&& final(self).live(pid)
                &&& final(self).manager@ == old(self).manager@.push(pid)
                &&& final(self).files@ == retained_all(
                    old(self).files@,
                    parent.fd_table@,
                    parent.fd_table@.len() as int,
                )
                &&& child.task_status is Ready
                &&& child.parent == Some(c)
                &&& child.children@.len() == 0
                &&& child.stride == 0
                &&& child.priority == DEFAULT_PRIORITY
                &&& child.exit_code == 0
                &&& child.start_time is None
                &&& forall|i: int| 0 <= i < MAX_SYSCALL_NUM ==> child.syscall_times@[i] == 0
                &&& child.kernel_stack_top == kernel_stack_top(pid)
                &&& child.fd_table@ == parent.fd_table@
                &&& child.heap_bottom == parent.heap_bottom
                &&& child.program_brk == parent.program_brk
                &&& child.trap_cx == (TrapContext {
                    kernel_sp: kernel_stack_top(pid),
                    ..parent.trap_cx
                })
                &&& child.memory_set.spec_areas().len() == parent.memory_set.spec_areas().len()
                &&& forall|i: int|
                    0 <= i < parent.memory_set.spec_areas().len() ==> MemorySet::mirrors(
                        &#[trigger] child.memory_set.spec_areas()[i],
                        &parent.memory_set.spec_areas()[i],
                    )
                &&& child.memory_set.fresh_in(
                    old(self).frames.allocated(),
                    final(self).frames.allocated(),
                )
                &&& child.memory_set.frames().disjoint(final(self).task(c).memory_set.frames())
                &&& final(self).live(c)
                &&& final(self).task(c) == (TaskControlBlock {
                    children: final(self).task(c).children,
                    ..parent
                })
                &&& final(self).task(c).children@ == parent.children@.push(pid)
                &&& forall|p: usize|
                    p != pid && p != c && p < old(self).tasks@.len() ==> #[trigger] final(self).tasks@[p as int] == old(self).tasks@[p as int]
            },
    {
        let c = self.current.unwrap();
        let pid = match self.pids.peek() {
            Some(pid) => pid,
            None => {
                return None;
            },
        };
        let cloned = match &self.tasks[c] {
            Some(parent) => MemorySet::from_existed_user(&mut self.frames, &parent.memory_set),
            None => Err(crate::mm::error::MMError::NotEnoughMemory),
        };
        proof {
            Self::lemma_wf_frames(old(self), self);
            Self::lemma_frames_same(old(self), self);
        }
        let memory_set = match cloned {
            Ok(ms) => ms,
            Err(_) => {
                return None;
            },
        };
        let ghost mid = *self;
        proof {
            assert forall|h: usize| #[trigger] entry_refs(self.files@, h) < usize::MAX by {
                assert forall|q: int| 0 <= q < self.tasks@.len() implies refs_of(
                    #[trigger] self.tasks@[q],
                    h,
                ) <= 1 by {}
                crate::task::descriptors::lemma_refs_among_bound(
                    self.tasks@,
                    self.tasks@.len() as int,
                    pid as int,
                    h,
                );
                assert(entry_refs(self.files@, h) == self.refs_to(h));
                if pid < self.tasks@.len() {
                    assert(!self.live(pid));
                    assert(fds_of(self.tasks@[pid as int]) =~= Seq::<Option<usize>>::empty());
                }
            }
        }
        let fd_table = self.share_fds(c);
        let stack_top = kernel_stack_top(pid);
        let (parent_cx, heap_bottom, program_brk) = match &self.tasks[c] {
            Some(parent) => (parent.trap_cx, parent.heap_bottom, parent.program_brk),
            None => (
                TrapContext::app_init_context(0, 0, 0, 0, 0),
                0,
                0,
            ),
        };
        let trap_cx = TrapContext { kernel_sp: stack_top, ..parent_cx };
        let tcb = TaskControlBlock {
            pid,
            kernel_stack_top: stack_top,
            task_status: TaskStatus::Ready,
            task_cx: TaskContext::goto_trap_return(self.trap_return, stack_top),
            trap_cx,
            memory_set,
            parent: Some(c),
            children: Vec::new(),
            exit_code: 0,
            fd_table,
            heap_bottom,
            program_brk,
            stride: 0,
            priority: DEFAULT_PRIORITY as u64,
            syscall_times: Self::zero_counters(),
            start_time: None,
        };
        proof {
            assert forall|p: usize| #[trigger] self.live(p) implies tcb.memory_set.frames().disjoint(
                self.task(p).memory_set.frames(),
            ) by {
                assert(old(self).live(p));
                assert(old(self).task(p).memory_set.owns(old(self).frames.allocated()));
            }
        }
        let ghost table = tcb.fd_table@;
        self.enroll(tcb);
        proof {
            assert forall|h: usize| #[trigger] refs_in(table, h) <= 1 by {
                old(self).lemma_task_refs(c, h);
            }
            Self::lemma_wf_enrolled(old(self), self, pid, Some(c), table);
        }
        Some(pid)
    }

    /// Replaces the program of the running task with the ELF image `elf`: a
    /// new address space, whose frames are taken before the old one gives
    /// its own back, a trap context that enters the program at its start
    /// with an empty user stack, and an empty heap. The identifier, the
    /// parent, the children and the descriptors stay. Nothing changes when
    /// the image cannot be loaded.
    pub fn exec(&mut self, elf: &[u8]) -> (r: Result<(), LoadError>)
        requires
            old(self).wf(),
            old(self).frames_wf(),
            old(self).current is Some,
        ensures
            final(self).wf(),
            final(self).frames_wf(),
            final(self).pids == old(self).pids,
            final(self).manager == old(self).manager,
            final(self).current == old(self).current,
            final(self).fs == old(self).fs,
            final(self).files == old(self).files,
            final(self).console_in == old(self).console_in,
            final(self).console_out == old(self).console_out,
            final(self).frames.first() == old(self).frames.first(),
            final(self).frames.limit() == old(self).frames.limit(),
            final(self).tasks@.len() == old(self).tasks@.len(),
            r is Err ==> final(self).tasks == old(self).tasks && final(self).frames.allocated()
                == old(self).frames.allocated(),
            !MemorySet::loadable(elf@) ==> r is Err,
            MemorySet::loadable(elf@) && old(self).frames.free_count() >= 1 + 3
                * MemorySet::file_pages(elf@, crate::mm::loader::elf_ph_count(elf@)) ==> r is Ok,
            r is Ok ==> {
                let c = old(self).current->0;
                let before = old(self).task(c);
                let after = final(self).task(c);
                &&& MemorySet::loadable(elf@)
                &&& final(self).live(c)
                &&& final(self).tasks@ == old(self).tasks@.update(c as int, final(self).tasks@[c as int])
                &&& after == (TaskControlBlock {
                    memory_set: after.memory_set,
                    trap_cx: after.trap_cx,
                    heap_bottom: after.heap_bottom,
                    program_brk: after.program_brk,
                    ..before
                })
                &&& after.trap_cx.is_init(
                    crate::mm::loader::elf_entry(elf@),
                    after.heap_bottom,
                    old(self).kernel_token,
                    kernel_stack_top(c),
                    old(self).trap_handler,
                )
                &&& after.program_brk == after.heap_bottom
                &&& after.memory_set.is_program(elf@, after.heap_bottom)
                &&& final(self).frames.allocated() == old(self).frames.allocated().union(
                    after.memory_set.frames(),
                ).difference(before.memory_set.area_ppns()).difference(
                    before.memory_set.table().frames(),
                )
            },
    {
        let ghost pre = *self;
        let c = self.current.unwrap();
        let (memory_set, user_sp, entry) = match MemorySet::from_elf(&mut self.frames, elf) {
            Ok(loaded) => loaded,
            Err(e) => {
                proof {
                    Self::lemma_wf_frames(old(self), self);
                    Self::lemma_frames_same(old(self), self);
                }
                return Err(e);
            },
        };
        let mut swapped = memory_set;
        let ghost loaded_frames = self.frames.allocated();
        let trap_cx = TrapContext::app_init_context(
            entry,
            user_sp,
            self.kernel_token,
            kernel_stack_top(c),
            self.trap_handler,
        );
        match &mut self.tasks[c] {
            Some(task) => {
                core::mem::swap(&mut task.memory_set, &mut swapped);
                task.trap_cx = trap_cx;
                task.heap_bottom = user_sp;
                task.program_brk = user_sp;
            },
            None => {},
        }
        proof {
            assert(pre.live(c));
            assert(pre.task(c).wf());
            assert(swapped == pre.task(c).memory_set);
        }
        swapped.release(&mut self.frames);
        proof {
            assert(self.tasks@ =~= pre.tasks@.update(c as int, self.tasks@[c as int]));
            Self::lemma_wf_update(&pre, self, c);
            Self::lemma_frames_replaced(&pre, self, c, pre.frames.allocated(), loaded_frames);
        }
        Ok(())
    }

    /// The kernel stays well formed when the last child of a task moves to
    /// another task, or becomes an orphan.
    pub proof fn lemma_tasks_move_child(
        pre: &Kernel,
        post: &Kernel,
        c: usize,
        kid: usize,
        target: Option<usize>,
    )
        requires
            pre.tasks_wf(),
            pre.live(c),
            pre.task(c).children@.len() > 0,
            kid == pre.task(c).children@.last(),
            target != Some(c),
            target != Some(kid),
            target matches Some(t) ==> pre.live(t) && !(pre.task(t).task_status is Zombie),
            post.frames.wf(),
            post.pids == pre.pids,
            post.manager == pre.manager,
            post.current == pre.current,
            post.tasks@.len() == pre.tasks@.len(),
            post.live(c) && post.task(c) == (TaskControlBlock {
                children: post.task(c).children,
                ..pre.task(c)
            }) && post.task(c).children@ == pre.task(c).children@.drop_last(),
            post.live(kid) && post.task(kid) == (TaskControlBlock { parent: target, ..pre.task(kid) }),
            target matches Some(t) ==> post.live(t) && post.task(t) == (TaskControlBlock {
                children: post.task(t).children,
                ..pre.task(t)
            }) && post.task(t).children@ == pre.task(t).children@.push(kid),
            forall|p: usize|
                p != c && p != kid && target != Some(p) && p < pre.tasks@.len()
                    ==> #[trigger] post.tasks@[p as int] == pre.tasks@[p as int],
        ensures
            post.tasks_wf(),
    {
        let kids = pre.task(c).children@;
        assert(pre.live(kid) && pre.task(kid).parent == Some(c)) by {
            assert(pre.live(pre.task(c).children@[kids.len() - 1]));
        }
        assert(kid != c) by {
            if kid == c {
                assert(post.task(c).children@.len() == pre.task(c).children@.len());
            }
        }
        assert forall|p: usize| p < post.tasks@.len() implies post.live(p) == pre.live(p) by {
            if p != c && p != kid && target != Some(p) {
                assert(post.tasks@[p as int] == pre.tasks@[p as int]);
            }
        }
        assert forall|p: usize| p < post.tasks@.len() implies (#[trigger] post.live(p))
            == post.pids.allocated().contains(p) by {
            assert(pre.live(p) == pre.pids.allocated().contains(p));
        }
        assert forall|p: usize| #[trigger] post.live(p) implies post.task(p).pid == p && post.task(
            p,
        ).wf() && post.task(p).parent != Some(p) by {
            assert(pre.live(p));
            if p != c && p != kid && target != Some(p) {
                assert(post.tasks@[p as int] == pre.tasks@[p as int]);
            }
        }
        if let Some(cur) = post.current {
            assert(pre.live(cur));
            if cur != c && cur != kid && target != Some(cur) {
                assert(post.tasks@[cur as int] == pre.tasks@[cur as int]);
            }
        }
        assert forall|i: int| 0 <= i < post.manager@.len() implies post.live(
            #[trigger] post.manager@[i],
        ) && post.task(post.manager@[i]).task_status is Ready by {
            let q = pre.manager@[i];
            assert(pre.live(q));
            if q != c && q != kid && target != Some(q) {
                assert(post.tasks@[q as int] == pre.tasks@[q as int]);
            }
        }
        assert forall|p: usize, k: int| #[trigger]
            post.live(p) && 0 <= k < post.task(p).children@.len() implies post.live(
            #[trigger] post.task(p).children@[k],
        ) && post.task(post.task(p).children@[k]).parent == Some(p) by {
            assert(pre.live(p));
            if p == c {
                let x = pre.task(c).children@[k];
                assert(pre.live(x) && pre.task(x).parent == Some(c));
                assert(x != kid) by {
                    assert(kids.no_duplicates());
                }
                assert(x != c) by {
                    assert(pre.task(c).parent != Some(c));
                }
                if target != Some(x) {
                    assert(post.tasks@[x as int] == pre.tasks@[x as int]);
                }
            } else if target == Some(p) {
                if k < pre.task(p).children@.len() {
                    let x = pre.task(p).children@[k];
                    assert(pre.live(x) && pre.task(x).parent == Some(p));
                    assert(x != kid);
                    if x != c && x != p {
                        assert(post.tasks@[x as int] == pre.tasks@[x as int]);
                    }
                }
            } else {
                if p != kid {
                    assert(post.tasks@[p as int] == pre.tasks@[p as int]);
                }
                let x = pre.task(p).children@[k];
                assert(pre.live(x) && pre.task(x).parent == Some(p));
                assert(x != kid);
                if x != c && target != Some(x) {
                    assert(post.tasks@[x as int] == pre.tasks@[x as int]);
                }
            }
        }
        assert forall|p: usize| #[trigger] post.live(p) implies post.task(
            p,
        ).children@.no_duplicates() by {
            assert(pre.live(p));
            if p == c {
            } else if target == Some(p) {
                let list = pre.task(p).children@;
                assert forall|k: int| 0 <= k < list.len() implies list[k] != kid by {
                    assert(pre.live(list[k]) && pre.task(list[k]).parent == Some(p));
                }
            } else if p != kid {
                assert(post.tasks@[p as int] == pre.tasks@[p as int]);
            }
        }
        assert forall|p: usize| #[trigger]
            post.live(p) && post.task(p).task_status is Zombie implies post.task(
            p,
        ).children@.len() == 0 by {
            assert(pre.live(p));
            if p != c && p != kid && target != Some(p) {
                assert(post.tasks@[p as int] == pre.tasks@[p as int]);
            }
        }
    }

    /// The task that adopts the children of the exiting task `c`: the first
    /// task, unless it is `c` itself, is gone, or is a zombie.
    pub open spec fn adopter(&self, c: usize) -> Option<usize> {
        if c != INITPROC_PID && self.live(INITPROC_PID) && !(self.task(INITPROC_PID).task_status
            is Zombie) {
            Some(INITPROC_PID)
        } else {
            None
        }
    }

    /// The children `kids` from position `n` on in the order in which a task
    /// that exits hands them to the task `t`: the last one first, and `t`
    /// itself left out.
    pub open spec fn handed_over(kids: Seq<usize>, t: usize, n: int) -> Seq<usize>
        decreases kids.len() - n,
    {
        if n >= kids.len() {
            Seq::empty()
        } else if kids[n] == t {
            Self::handed_over(kids, t, n + 1)
        } else {
            Self::handed_over(kids, t, n + 1).push(kids[n])
        }
    }

    /// Ends the running task with the exit code `exit_code`: it becomes a
    /// zombie, its children move to the first task, the last child first, or
    /// become orphans where the first task cannot take them, and its
    /// address space gives up its areas with their frames; the page table
    /// stays until the parent collects the task. The next task is chosen
    /// from the ready queue.
    pub fn exit_current_and_run_next(&mut self, exit_code: i32, now: u64)
        requires
            old(self).wf(),
            old(self).frames_wf(),
            old(self).current is Some,
        ensures
            final(self).wf(),
            final(self).frames_wf(),
            final(self).pids == old(self).pids,
            final(self).fs == old(self).fs,
            final(self).files == old(self).files,
            final(self).console_in == old(self).console_in,
            final(self).console_out == old(self).console_out,
            final(self).tasks@.len() == old(self).tasks@.len(),
            final(self).frames.allocated() == old(self).frames.allocated().difference(
                old(self).task(old(self).current->0).memory_set.area_ppns(),
            ),
            forall|p: usize| #[trigger] final(self).live(p) == old(self).live(p),
            ({
                let c = old(self).current->0;
                let target = old(self).adopter(c);
                &&& final(self).live(c)
                &&& final(self).task(c).task_status is Zombie
                &&& final(self).task(c).exit_code == exit_code
                &&& final(self).task(c).children@.len() == 0
                &&& final(self).task(c).parent == old(self).task(c).parent
                &&& final(self).task(c).pid == c
                &&& final(self).task(c).memory_set.spec_areas().len() == 0
                &&& final(self).task(c).memory_set.table().frames() == old(self).task(
                    c,
                ).memory_set.table().frames()
                &&& forall|k: int|
                    0 <= k < old(self).task(c).children@.len() ==> final(self).task(
                        #[trigger] old(self).task(c).children@[k],
                    ).parent == if target == Some(old(self).task(c).children@[k]) {
                        None::<usize>
                    } else {
                        target
                    }
                &&& target matches Some(t) ==> final(self).task(t).children@ == old(self).task(
                    t,
                ).children@ + Self::handed_over(old(self).task(c).children@, t, 0)
                &&& final(self).current is Some == (old(self).manager@.len() > 0)
                &&& final(self).current matches Some(n) ==> old(self).manager@.contains(n)
                    && final(self).task(n).task_status is Running
                &&& final(self).manager@.len() + (if final(self).current is Some {
                    1int
                } else {
                    0int
                }) == old(self).manager@.len()
                &&& match smallest_stride(old(self).tasks@, old(self).manager@) {
                    None => final(self).current is None && final(self).manager@ == old(
                        self,
                    ).manager@,
                    Some((chosen, left)) => {
                        &&& final(self).current == Some(chosen)
                        &&& final(self).manager@ == left
                        &&& final(self).task(chosen).stride == old(self).task(
                            chosen,
                        ).next_stride()
                    },
                }
            }),
    {
        let ghost pre = *self;
        let c = self.current.unwrap();
        let init_ok: bool = c != INITPROC_PID && INITPROC_PID < self.tasks.len() && match &self.tasks[INITPROC_PID] {
            Some(t) => !t.is_zombie(),
            None => false,
        };
        let target: Option<usize> = if init_ok {
            Some(INITPROC_PID)
        } else {
            None
        };
        let mut n: usize = match &self.tasks[c] {
            Some(t) => t.children.len(),
            None => 0,
        };
        let ghost kids = pre.task(c).children@;
        while n > 0
            invariant
                pre.wf(),
                pre.current == Some(c),
                kids == pre.task(c).children@,
                target == pre.adopter(c),
                self.wf(),
                self.frames_wf(),
                self.current == Some(c),
                self.live(c),
                n <= kids.len(),
                self.task(c).children@ == kids.take(n as int),
                self.task(c).task_status is Running,
                self.task(c).parent == pre.task(c).parent,
                self.task(c).memory_set == pre.task(c).memory_set,
                target matches Some(t) ==> self.live(t) && !(self.task(t).task_status is Zombie),
                target matches Some(t) ==> self.task(t).children@ == pre.task(t).children@
                    + Self::handed_over(kids, t, n as int),
                forall|p: usize| #[trigger]
                    self.live(p) ==> self.task(p).priority == pre.task(p).priority,
                self.frames == pre.frames,
                self.pids == pre.pids,
                self.manager == pre.manager,
                self.fs == pre.fs,
                self.files == pre.files,
                self.console_in == pre.console_in,
                self.console_out == pre.console_out,
                self.tasks@.len() == pre.tasks@.len(),
                forall|p: usize| #[trigger] self.live(p) == pre.live(p),
                forall|p: usize| #[trigger]
                    self.live(p) ==> self.task(p).task_status == pre.task(p).task_status
                        && self.task(p).stride == pre.task(p).stride,
                forall|k: int|
                    n <= k < kids.len() ==> self.task(#[trigger] kids[k]).parent == if target
                        == Some(kids[k]) {
                        None::<usize>
                    } else {
                        target
                    },
            decreases n,
        {
            let ghost mid = *self;
            let kid: usize = match &mut self.tasks[c] {
                Some(task) => {
                    match task.children.pop() {
                        Some(k) => k,
                        None => 0,
                    }
                },
                None => 0,
            };
            proof {
                assert(kid == kids[n - 1]);
                assert(mid.live(mid.task(c).children@[n - 1]));
                assert(mid.task(kid).parent == Some(c));
                assert(kids.take(n as int).drop_last() =~= kids.take(n - 1));
            }
            let adopt: Option<usize> = if target == Some(kid) {
                None
            } else {
                target
            };
            match &mut self.tasks[kid] {
                Some(k) => {
                    k.parent = adopt;
                },
                None => {},
            }
            match adopt {
                Some(t) => {
                    match &mut self.tasks[t] {
                        Some(init) => {
                            init.children.push(kid);
                        },
                        None => {},
                    }
                },
                None => {},
            }
            proof {
                assert(kid != c) by {
                    assert(mid.task(c).parent != Some(c));
                }
                if let Some(t) = target {
                    if kid != t {
                        assert(self.task(t).children@ == mid.task(t).children@.push(kid));
                        assert(self.task(t).children@ =~= pre.task(t).children@
                            + Self::handed_over(kids, t, n as int).push(kid));
                    } else {
                        assert(self.task(t).children@ == mid.task(t).children@);
                    }
                }
                assert forall|p: usize| #[trigger] self.live(p) implies self.task(p).priority
                    == pre.task(p).priority by {
                    assert(mid.live(p));
                    if p != c && p != kid && adopt != Some(p) {
                        assert(self.tasks@[p as int] == mid.tasks@[p as int]);
                    }
                }
                Self::lemma_tasks_move_child(&mid, self, c, kid, adopt);
                Self::lemma_files_same(&mid, self);
                assert forall|p: usize| #[trigger] self.live(p) implies mid.live(p) && self.task(
                    p,
                ).memory_set == mid.task(p).memory_set by {
                    if p < self.tasks@.len() && p != c && p != kid && adopt != Some(p) {
                        assert(self.tasks@[p as int] == mid.tasks@[p as int]);
                    }
                }
                Self::lemma_frames_same(&mid, self);
                assert forall|p: usize| #[trigger] self.live(p) == pre.live(p) by {
                    assert(mid.live(p) == pre.live(p));
                    if p < self.tasks@.len() && p != c && p != kid && adopt != Some(p) {
                        assert(self.tasks@[p as int] == mid.tasks@[p as int]);
                    }
                }
                assert forall|p: usize| #[trigger] self.live(p) implies self.task(p).task_status
                    == pre.task(p).task_status && self.task(p).stride == pre.task(p).stride by {
                    assert(mid.live(p));
                    if p != c && p != kid && adopt != Some(p) {
                        assert(self.tasks@[p as int] == mid.tasks@[p as int]);
                    }
                }
                assert forall|k: int| n - 1 <= k < kids.len() implies self.task(
                    #[trigger] kids[k],
                ).parent == if target == Some(kids[k]) {
                    None::<usize>
                } else {
                    target
                } by {
                    if k >= n {
                        let x = kids[k];
                        assert(kids.no_duplicates());
                        assert(x != kid);
                        assert(pre.live(pre.task(c).children@[k]));
                        assert(x != c) by {
                            if x == c {
                                assert(pre.task(x).parent == Some(c));
                                assert(mid.task(kid).parent == Some(c));
                            }
                        }
                        if adopt == Some(x) {
                            assert(mid.task(x).parent == None::<usize>);
                        } else {
                            assert(self.tasks@[x as int] == mid.tasks@[x as int]);
                        }
                    }
                }
            }
            n = n - 1;
        }
        let ghost moved = *self;
        match &mut self.tasks[c] {
            Some(task) => {
                task.task_status = TaskStatus::Zombie;
                task.exit_code = exit_code;
                task.memory_set.recycle_data_pages(&mut self.frames);
            },
            None => {},
        }
        self.current = None;
        proof {
            assert(moved.task(c).wf());
            assert(self.tasks@ =~= moved.tasks@.update(c as int, self.tasks@[c as int]));
            assert forall|p: usize| p < self.tasks@.len() implies (#[trigger] self.live(p))
                == self.pids.allocated().contains(p) by {
                assert(self.live(p) == moved.live(p));
            }
            assert forall|p: usize| #[trigger] self.live(p) implies self.task(p).pid == p
                && self.task(p).wf() && self.task(p).parent != Some(p) by {
                assert(moved.live(p));
            }
            assert forall|i: int| 0 <= i < self.manager@.len() implies self.live(
                #[trigger] self.manager@[i],
            ) && self.task(self.manager@[i]).task_status is Ready by {
                assert(moved.live(moved.manager@[i]));
            }
            assert forall|p: usize, k: int| #[trigger]
                self.live(p) && 0 <= k < self.task(p).children@.len() implies self.live(
                #[trigger] self.task(p).children@[k],
            ) && self.task(self.task(p).children@[k]).parent == Some(p) by {
                assert(moved.live(p));
                let x = moved.task(p).children@[k];
                assert(moved.live(x) && moved.task(x).parent == Some(p));
            }
            assert forall|p: usize| #[trigger] self.live(p) implies self.task(
                p,
            ).children@.no_duplicates() by {
                assert(moved.live(p));
            }
            assert forall|p: usize| #[trigger]
                self.live(p) && self.task(p).task_status is Zombie implies self.task(
                p,
            ).children@.len() == 0 by {
                assert(moved.live(p));
            }
            assert forall|p: usize| #[trigger] self.live(p) == pre.live(p) by {
                assert(moved.live(p) == pre.live(p));
            }
            if self.manager@.len() > 0 {
                crate::task::manager::lemma_smallest_stride(self.tasks@, self.manager@);
                crate::task::manager::lemma_smallest_stride_distinct(self.tasks@, self.manager@);
            }
            Self::lemma_frames_step(&moved, self, c);
            Self::lemma_files_same(&moved, self);
        }
        let ghost parked = *self;
        proof {
            assert forall|i: int| 0 <= i < pre.manager@.len() implies stride_of(
                pre.tasks@,
                #[trigger] pre.manager@[i],
            ) == stride_of(parked.tasks@, pre.manager@[i]) by {
                let q = pre.manager@[i];
                assert(pre.live(q));
                assert(moved.live(q));
                assert(q != c);
            }
            crate::task::manager::lemma_smallest_by_strides(
                pre.tasks@,
                parked.tasks@,
                pre.manager@,
            );
            if let Some(t) = target {
                assert(parked.task(t).children@ == moved.task(t).children@);
            }
        }
        self.run_next(now);
        proof {
            assert forall|p: usize| #[trigger] self.live(p) == pre.live(p) by {
                assert(parked.live(p) == pre.live(p));
            }
            if let Some((chosen, left)) = smallest_stride(pre.tasks@, pre.manager@) {
                assert(pre.manager@.contains(chosen)) by {
                    crate::task::manager::lemma_smallest_stride(pre.tasks@, pre.manager@);
                }
                let k = choose|k: int| 0 <= k < pre.manager@.len() && pre.manager@[k] == chosen;
                assert(pre.live(pre.manager@[k]));
                assert(moved.live(chosen));
                assert(chosen != c);
                assert(moved.task(chosen).priority == pre.task(chosen).priority);
            }
            if let Some(chosen) = self.current {
                assert(parked.manager@.contains(chosen));
                let k = choose|k: int| 0 <= k < parked.manager@.len() && parked.manager@[k] == chosen;
                assert(parked.live(parked.manager@[k]));
                assert(chosen != c);
            }
            assert forall|k: int| 0 <= k < kids.len() implies self.task(#[trigger] kids[k]).parent
                == if target == Some(kids[k]) {
                None::<usize>
            } else {
                target
            } by {
                let x = kids[k];
                assert(pre.live(pre.task(c).children@[k]));
                assert(moved.task(x).parent == if target == Some(x) {
                    None::<usize>
                } else {
                    target
                });
                assert(x != c) by {
                    if x == c {
                        assert(pre.task(x).parent == Some(c));
                        assert(moved.task(c).parent == pre.task(c).parent);
                    }
                }
            }
        }
    }

    /// Collects the zombie at position `idx` among the children of the
    /// running task: the child leaves the list and the table, its address
    /// space gives back every frame, its descriptors are closed, and its
    /// identifier is free again. Nothing in the kernel refers to the child
    /// any more. The identifier and the exit code of the child come back.
    pub fn reap(&mut self, idx: usize) -> (r: (usize, i32))
        requires
            old(self).wf(),
            old(self).frames_wf(),
            old(self).current is Some,
            idx < old(self).task(old(self).current->0).children@.len(),
            old(self).task(
                old(self).task(old(self).current->0).children@[idx as int],
            ).task_status is Zombie,
        ensures
            final(self).wf(),
            final(self).frames_wf(),
            final(self).current == old(self).current,
            final(self).manager == old(self).manager,
            final(self).fs == old(self).fs,
            final(self).console_in == old(self).console_in,
            final(self).console_out == old(self).console_out,
            final(self).tasks@.len() == old(self).tasks@.len(),
            final(self).frames.first() == old(self).frames.first(),
            final(self).frames.limit() == old(self).frames.limit(),
            ({
                let c = old(self).current->0;
                let child = old(self).task(c).children@[idx as int];
                let gone = old(self).task(child);
                &&& r.0 == child
                &&& r.1 == gone.exit_code
                &&& child != c
                &&& old(self).live(child)
                &&& !final(self).live(child)
                &&& final(self).unreferenced(child)
                &&& final(self).pids.allocated() == old(self).pids.allocated().remove(child)
                &&& final(self).live(c)
                &&& final(self).task(c) == (TaskControlBlock {
                    children: final(self).task(c).children,
                    ..old(self).task(c)
                })
                &&& final(self).task(c).children@ == old(self).task(c).children@.remove(idx as int)
                &&& final(self).frames.allocated() == old(self).frames.allocated().difference(
                    gone.memory_set.area_ppns(),
                ).difference(gone.memory_set.table().frames())
                &&& final(self).files@ == released_all(
                    old(self).files@,
                    gone.fd_table@,
                    gone.fd_table@.len() as int,
                )
                &&& forall|p: usize|
                    p != c && p != child && p < old(self).tasks@.len() ==> #[trigger] final(self).tasks@[p as int] == old(self).tasks@[p as int]
            }),
    {
        let ghost pre = *self;
        let c = self.current.unwrap();
        proof {
            assert(pre.live(pre.task(c).children@[idx as int]));
            assert(pre.task(c).parent != Some(c));
        }
        let child: usize = match &mut self.tasks[c] {
            Some(task) => task.children.remove(idx),
            None => 0,
        };
        let mut slot: Option<TaskControlBlock> = None;
        core::mem::swap(&mut self.tasks[child], &mut slot);
        let ghost kids = pre.task(c).children@;
        proof {
            assert(pre.task(child).parent == Some(c));
            assert(child != c);
            assert(slot == Some(pre.task(child)));
            assert(pre.task(child).wf());
        }
        let exit_code = match slot {
            Some(tcb) => {
                let TaskControlBlock {
                    pid: _,
                    kernel_stack_top: _,
                    task_status: _,
                    task_cx: _,
                    trap_cx: _,
                    memory_set,
                    parent: _,
                    children: _,
                    exit_code,
                    fd_table,
                    heap_bottom: _,
                    program_brk: _,
                    stride: _,
                    priority: _,
                    syscall_times: _,
                    start_time: _,
                } = tcb;
                memory_set.release(&mut self.frames);
                let ghost mid = *self;
                let mut i: usize = 0;
                while i < fd_table.len()
                    invariant
                        0 <= i <= fd_table@.len(),
                        self.files@ == released_all(pre.files@, fd_table@, i as int),
                        *self == (Kernel { files: self.files, ..mid }),
                    decreases fd_table@.len() - i,
                {
                    match fd_table[i] {
                        Some(h) => {
                            self.files.release(h);
                        },
                        None => {},
                    }
                    i = i + 1;
                }
                exit_code
            },
            None => 0,
        };
        self.pids.deallocate(child);
        proof {
            assert forall|p: usize| p < self.tasks@.len() implies (#[trigger] self.live(p))
                == self.pids.allocated().contains(p) by {
                assert(pre.live(p) == pre.pids.allocated().contains(p));
            }
            assert forall|p: usize| #[trigger] self.live(p) implies self.task(p).pid == p
                && self.task(p).wf() && self.task(p).parent != Some(p) by {
                assert(pre.live(p));
            }
            if let Some(cur) = self.current {
                assert(pre.live(cur));
            }
            assert forall|i: int| 0 <= i < self.manager@.len() implies self.live(
                #[trigger] self.manager@[i],
            ) && self.task(self.manager@[i]).task_status is Ready by {
                assert(pre.live(pre.manager@[i]));
            }
            assert forall|p: usize, k: int| #[trigger]
                self.live(p) && 0 <= k < self.task(p).children@.len() implies self.live(
                #[trigger] self.task(p).children@[k],
            ) && self.task(self.task(p).children@[k]).parent == Some(p) by {
                assert(pre.live(p));
                if p == c {
                    let j = if k < idx {
                        k
                    } else {
                        k + 1
                    };
                    let x = kids[j];
                    assert(pre.live(pre.task(c).children@[j]));
                    assert(x != child) by {
                        assert(kids.no_duplicates());
                    }
                } else {
                    let x = pre.task(p).children@[k];
                    assert(pre.live(x) && pre.task(x).parent == Some(p));
                }
            }
            assert forall|p: usize| #[trigger] self.live(p) implies self.task(
                p,
            ).children@.no_duplicates() by {
                assert(pre.live(p));
                if p == c {
                    assert(kids.no_duplicates());
                    assert forall|i: int, j: int|
                        0 <= i < kids.remove(idx as int).len() && 0 <= j < kids.remove(
                            idx as int,
                        ).len() && i != j implies kids.remove(idx as int)[i] != kids.remove(
                        idx as int,
                    )[j] by {}
                }
            }
            assert forall|p: usize| #[trigger]
                self.live(p) && self.task(p).task_status is Zombie implies self.task(
                p,
            ).children@.len() == 0 by {
                assert(pre.live(p));
            }
            // nothing refers to the child any more
            assert(!self.manager@.contains(child)) by {
                if self.manager@.contains(child) {
                    let k = choose|k: int| 0 <= k < self.manager@.len() && self.manager@[k] == child;
                    assert(pre.live(pre.manager@[k]));
                }
            }
            assert forall|p: usize| #[trigger] self.live(p) implies !self.task(
                p,
            ).children@.contains(child) by {
                if self.task(p).children@.contains(child) {
                    let k = choose|k: int|
                        0 <= k < self.task(p).children@.len() && self.task(p).children@[k]
                            == child;
                    assert(pre.live(p));
                    if p == c {
                        let j = if k < idx {
                            k
                        } else {
                            k + 1
                        };
                        assert(kids[j] == child);
                        assert(kids.no_duplicates());
                    } else {
                        assert(pre.live(pre.task(p).children@[k]));
                        assert(pre.task(child).parent == Some(p));
                    }
                }
            }
        }
        proof {
            Self::lemma_frames_task_gone(&pre, self, child);
            let table = pre.task(child).fd_table@;
            assert(self.files@ == released_all(pre.files@, table, table.len() as int));
            assert forall|q: int| 0 <= q < pre.tasks@.len() && q != child implies fds_of(
                #[trigger] self.tasks@[q],
            ) == fds_of(pre.tasks@[q]) by {
                if q != c {
                    assert(self.tasks@[q] == pre.tasks@[q]);
                }
            }
            assert forall|h: usize|
                #[trigger] entry_refs(self.files@, h) + refs_of(pre.tasks@[child as int], h)
                    == entry_refs(pre.files@, h) + refs_of(self.tasks@[child as int], h) by {
                assert forall|g: usize| refs_in(table, g) <= #[trigger] entry_refs(
                    pre.files@,
                    g,
                ) by {
                    pre.lemma_task_refs(child, g);
                }
                crate::task::descriptors::lemma_released_all_refs(
                    pre.files@,
                    table,
                    table.len() as int,
                    h,
                );
                assert(table.take(table.len() as int) =~= table);
                assert(fds_of(self.tasks@[child as int]) =~= Seq::<Option<usize>>::empty());
            }
            assert forall|h: usize| #[trigger] refs_of(self.tasks@[child as int], h) <= 1 by {
                assert(fds_of(self.tasks@[child as int]) =~= Seq::<Option<usize>>::empty());
            }
            Self::lemma_files_step(&pre, self, child as int);
        }
        (child, exit_code)
    }
}

} // verus!

//! The system calls that act on tasks and on their address spaces.

use vstd::prelude::*;
use vstd::bytes::{spec_u32_to_le_bytes, spec_u64_to_le_bytes, u32_to_le_bytes, u64_to_le_bytes};
use crate::config::MAX_SYSCALL_NUM;
use crate::mm::memory_set::MemorySet;
use crate::mm::user_buffer::{
    check_user_range,
    maps_range,
    str_at,
    translated_str,
    write_user,
    written_user,
};
use crate::task::context::REG_A0;
use crate::task::lifecycle::released_all;
use crate::task::manager::smallest_stride;
use crate::task::processor::Kernel;
use crate::task::task::{TaskControlBlock, TaskStatus};

verus! {

/// A moment as seconds and microseconds.
#[derive(Copy, Clone, Debug, PartialEq, Eq, Structural)]
pub struct TimeVal {
    pub sec: u64,
    pub usec: u64,
}

/// What a task can learn about itself.
pub struct TaskInfo {
    /// Where the task stands in its life.
    pub status: TaskStatus,
    /// How often the task made each system call.
    pub syscall_times: Vec<u32>,
    /// How long ago the task first ran, in milliseconds.
    pub time: u64,
}

/// The number that stands for a status where a task reads it.
pub open spec fn status_code(status: TaskStatus) -> u32 {
    match status {
        TaskStatus::UnInit => 0,
        TaskStatus::Ready => 1,
        TaskStatus::Running => 2,
        TaskStatus::Zombie => 3,
        TaskStatus::Exited => 4,
    }
}

impl TimeVal {
    /// The 16 bytes of the structure as user space reads it: the seconds
    /// and the microseconds, each in 8 bytes, low byte first.
    pub open spec fn spec_bytes(&self) -> Seq<u8> {
        spec_u64_to_le_bytes(self.sec) + spec_u64_to_le_bytes(self.usec)
    }

    /// The moment `us` microseconds after the start.
    pub fn from_us(us: u64) -> (r: TimeVal)
        ensures
            r.sec == us / 1_000_000,
            r.usec == us % 1_000_000,
    {
        TimeVal { sec: us / 1_000_000, usec: us % 1_000_000 }
    }

    /// The bytes of the structure as user space reads it.
    pub fn to_bytes(&self) -> (r: Vec<u8>)
        ensures
            r@ == self.spec_bytes(),
            r@.len() == 16,
    {
        proof {
            vstd::bytes::lemma_auto_spec_u64_to_from_le_bytes();
        }
        let mut out = u64_to_le_bytes(self.sec);
        let mut low = u64_to_le_bytes(self.usec);
        out.append(&mut low);
        out
    }
}

impl TaskInfo {
    /// The bytes of the counters `times`, each in 4 bytes, low byte first.
    pub open spec fn counter_bytes(times: Seq<u32>) -> Seq<u8>
        decreases times.len(),
    {
        if times.len() == 0 {
            Seq::<u8>::empty()
        } else {
            Self::counter_bytes(times.drop_last()) + spec_u32_to_le_bytes(times.last())
        }
    }

    /// The bytes of the structure as user space reads it: the status in 4
    /// bytes, the counters in 4 bytes each, 4 bytes of padding, and the time
    /// in 8 bytes, each number low byte first.
    pub open spec fn spec_bytes(&self) -> Seq<u8> {
        spec_u32_to_le_bytes(status_code(self.status)) + Self::counter_bytes(self.syscall_times@)
            + spec_u32_to_le_bytes(0) + spec_u64_to_le_bytes(self.time)
    }

    /// The bytes of the structure as user space reads it.
    pub fn to_bytes(&self) -> (r: Vec<u8>)
        ensures
            r@ == self.spec_bytes(),
    {
        let code: u32 = match self.status {
            TaskStatus::UnInit => 0,
            TaskStatus::Ready => 1,
            TaskStatus::Running => 2,
            TaskStatus::Zombie => 3,
            TaskStatus::Exited => 4,
        };
        let mut out = u32_to_le_bytes(code);
        let ghost head = out@;
        let mut i: usize = 0;
        while i < self.syscall_times.len()
            invariant
                0 <= i <= self.syscall_times@.len(),
                out@ == head + Self::counter_bytes(self.syscall_times@.take(i as int)),
            decreases self.syscall_times@.len() - i,
        {
            let mut next = u32_to_le_bytes(self.syscall_times[i]);
            proof {
                assert(self.syscall_times@.take(i + 1).drop_last() =~= self.syscall_times@.take(
                    i as int,
                ));
                assert(out@ + next@ =~= head + Self::counter_bytes(
                    self.syscall_times@.take(i + 1),
                ));
            }
            out.append(&mut next);
            i = i + 1;
        }
        proof {
            assert(self.syscall_times@.take(i as int) =~= self.syscall_times@);
        }
        let mut pad = u32_to_le_bytes(0);
        out.append(&mut pad);
        let mut tail = u64_to_le_bytes(self.time);
        out.append(&mut tail);
        out
    }
}

/// The number `x` as a result of a system call; the largest result where
/// `x` does not fit.
pub fn as_result(x: usize) -> (r: isize)
    ensures
        r == if x <= isize::MAX {
            x as int
        } else {
            isize::MAX as int
        },
{
    if x <= isize::MAX as usize {
        x as isize
    } else {
        isize::MAX
    }
}

/// The number `x` as a result of a system call; the largest result where
/// `x` does not fit.
pub fn as_result_u64(x: u64) -> (r: isize)
    ensures
        r == if x <= isize::MAX {
            x as int
        } else {
            isize::MAX as int
        },
{
    if x <= isize::MAX as u64 {
        x as isize
    } else {
        isize::MAX
    }
}

impl Kernel {
    /// Whether `self` differs from `pre` in the task `c` at most, and in the
    /// allocator of frames.
    pub open spec fn same_but_task(&self, pre: &Kernel, c: usize) -> bool {
        &&& self.pids == pre.pids
        &&& self.manager == pre.manager
        &&& self.current == pre.current
        &&& self.fs == pre.fs
        &&& self.files == pre.files
        &&& self.console_in == pre.console_in
        &&& self.console_out == pre.console_out
        &&& self.kernel_token == pre.kernel_token
        &&& self.trap_handler == pre.trap_handler
        &&& self.trap_return == pre.trap_return
        &&& self.live(c)
        &&& self.tasks@ == pre.tasks@.update(c as int, self.tasks@[c as int])
    }

    /// The running task.
    pub open spec fn cur(&self) -> TaskControlBlock {
        self.task(self.current->0)
    }
}

/// Ends the running task with the exit code `exit_code` and puts the next
/// task on the processor.
pub fn sys_exit(kernel: &mut Kernel, exit_code: i32, now: u64)
    requires
        old(kernel).wf(),
        old(kernel).frames_wf(),
        old(kernel).current is Some,
    ensures
        final(kernel).wf(),
        final(kernel).frames_wf(),
        final(kernel).live(old(kernel).current->0),
        final(kernel).task(old(kernel).current->0).task_status is Zombie,
        final(kernel).task(old(kernel).current->0).exit_code == exit_code,
        final(kernel).task(old(kernel).current->0).children@.len() == 0,
        final(kernel).task(old(kernel).current->0).memory_set.spec_areas().len() == 0,
        forall|k: int|
            0 <= k < old(kernel).cur().children@.len() ==> final(kernel).task(
                #[trigger] old(kernel).cur().children@[k],
            ).parent == if old(kernel).adopter(old(kernel).current->0) == Some(
                old(kernel).cur().children@[k],
            ) {
                None::<usize>
            } else {
                old(kernel).adopter(old(kernel).current->0)
            },
        old(kernel).adopter(old(kernel).current->0) matches Some(t) ==> final(kernel).task(
            t,
        ).children@ == old(kernel).task(t).children@ + Kernel::handed_over(
            old(kernel).cur().children@,
            t,
            0,
        ),
        match smallest_stride(old(kernel).tasks@, old(kernel).manager@) {
            None => final(kernel).current is None && final(kernel).manager@ == old(
                kernel,
            ).manager@,
            Some((chosen, left)) => {
                &&& final(kernel).current == Some(chosen)
                &&& final(kernel).manager@ == left
                &&& final(kernel).task(chosen).stride == old(kernel).task(chosen).next_stride()
            },
        },
        final(kernel).frames.allocated() == old(kernel).frames.allocated().difference(
            old(kernel).cur().memory_set.area_ppns(),
        ),
        forall|p: usize| #[trigger] final(kernel).live(p) == old(kernel).live(p),
{
    kernel.exit_current_and_run_next(exit_code, now);
}

/// Gives up the processor: the running task goes to the back of the ready
/// queue and the task of the smallest stride runs next. The result is 0.
pub fn sys_yield(kernel: &mut Kernel, now: u64) -> (r: isize)
    requires
        old(kernel).wf(),
        old(kernel).frames_wf(),
        old(kernel).current is Some,
    ensures
        r == 0,
        final(kernel).wf(),
        final(kernel).frames_wf(),
        final(kernel).current is Some,
        final(kernel).frames == old(kernel).frames,
        final(kernel).tasks@.len() == old(kernel).tasks@.len(),
        ({
            let c = old(kernel).current->0;
            let requeued = old(kernel).tasks@.update(
                c as int,
                Some(TaskControlBlock { task_status: TaskStatus::Ready, ..old(kernel).task(c) }),
            );
            let (chosen, left) = crate::task::manager::smallest_stride(
                requeued,
                old(kernel).manager@.push(c),
            )->0;
            &&& final(kernel).current == Some(chosen)
            &&& final(kernel).manager@ == left
            &&& final(kernel).task(chosen).task_status is Running
            &&& final(kernel).task(chosen).stride == requeued[chosen as int]->0.next_stride()
        }),
{
    kernel.suspend_current_and_run_next(now);
    0
}

/// The identifier of the running task.
pub fn sys_getpid(kernel: &Kernel) -> (r: isize)
    requires
        kernel.wf(),
        kernel.current is Some,
    ensures
        r == if kernel.current->0 <= isize::MAX {
            kernel.current->0 as int
        } else {
            isize::MAX as int
        },
{
    as_result(kernel.current.unwrap())
}

/// Forks the running task. The parent gets the identifier of the child as
/// the result, which is never 0, the identifier of the first task; the
/// child, which enters the ready queue, will find 0 in the
/// register of the result when it runs. The result is -1, and nothing has
/// changed, when no identifier or not enough frames are left.
pub fn sys_fork(kernel: &mut Kernel) -> (r: isize)
    requires
        old(kernel).wf(),
        old(kernel).frames_wf(),
        old(kernel).current is Some,
    ensures
        final(kernel).tasks@.len() >= old(kernel).tasks@.len(),
        final(kernel).wf(),
        final(kernel).frames_wf(),
        final(kernel).current == old(kernel).current,
        r == -1 ==> {
            &&& final(kernel).tasks == old(kernel).tasks
            &&& final(kernel).manager == old(kernel).manager
            &&& final(kernel).pids == old(kernel).pids
            &&& final(kernel).files == old(kernel).files
            &&& final(kernel).frames.allocated() == old(kernel).frames.allocated()
        },
        !old(kernel).pids.available() ==> r == -1,
        old(kernel).pids.available() && old(kernel).frames.free_count() >= 1 + 3 * old(kernel).cur().memory_set.span(old(kernel).cur().memory_set.spec_areas().len() as int) ==> r
            != -1,
        r == -1 || r > 0,
        r != -1 ==> {
            let c = old(kernel).current->0;
            let pid = old(kernel).pids.next();
            let parent = old(kernel).task(c);
            let child = final(kernel).task(pid);
            &&& r == if pid <= isize::MAX {
                pid as int
            } else {
                isize::MAX as int
            }
            &&& !old(kernel).live(pid)
            &&& final(kernel).live(pid)
            &&& final(kernel).manager@ == old(kernel).manager@.push(pid)
            &&& child.task_status is Ready
            &&& child.parent == Some(c)
            &&& child.children@.len() == 0
            &&& child.stride == 0
            &&& child.priority == crate::config::DEFAULT_PRIORITY
            &&& child.exit_code == 0
            &&& child.start_time is None
            &&& forall|i: int| 0 <= i < MAX_SYSCALL_NUM ==> child.syscall_times@[i] == 0
            &&& child.heap_bottom == parent.heap_bottom
            &&& child.program_brk == parent.program_brk
            &&& child.fd_table@ == parent.fd_table@
            &&& final(kernel).files@ == crate::task::lifecycle::retained_all(
                old(kernel).files@,
                parent.fd_table@,
                parent.fd_table@.len() as int,
            )
            &&& child.trap_cx.x@ == parent.trap_cx.x@.update(REG_A0 as int, 0u64)
            &&& child.trap_cx == (crate::task::context::TrapContext {
                x: child.trap_cx.x,
                kernel_sp: crate::task::processor::kernel_stack_top(pid),
                ..parent.trap_cx
            })
            &&& child.memory_set.spec_areas().len() == parent.memory_set.spec_areas().len()
            &&& forall|i: int|
                0 <= i < parent.memory_set.spec_areas().len() ==> MemorySet::mirrors(
                    &#[trigger] child.memory_set.spec_areas()[i],
                    &parent.memory_set.spec_areas()[i],
                )
            &&& child.memory_set.fresh_in(
                old(kernel).frames.allocated(),
                final(kernel).frames.allocated(),
            )
            &&& child.memory_set.frames().disjoint(parent.memory_set.frames())
            &&& final(kernel).live(c)
            &&& final(kernel).task(c).children@ == parent.children@.push(pid)
            &&& final(kernel).task(c) == (TaskControlBlock {
                children: final(kernel).task(c).children,
                ..parent
            })
            &&& forall|p: usize|
                p != pid && p != c && p < old(kernel).tasks@.len() ==> #[trigger] final(kernel).tasks@[p as int]
                    == old(kernel).tasks@[p as int]
        },
        final(kernel).fs == old(kernel).fs,
        final(kernel).console_in == old(kernel).console_in,
        final(kernel).console_out == old(kernel).console_out,
{
    let ghost pre = *kernel;
    let new_pid = match kernel.fork() {
        Some(pid) => pid,
        None => {
            return -1;
        },
    };
    let ghost forked = *kernel;
    match &mut kernel.tasks[new_pid] {
        Some(child) => {
            child.trap_cx.set_return(0);
        },
        None => {},
    }
    proof {
        assert(kernel.tasks@ =~= forked.tasks@.update(new_pid as int, kernel.tasks@[new_pid as int]));
        Kernel::lemma_wf_update(&forked, kernel, new_pid);
        Kernel::lemma_frames_step(&forked, kernel, new_pid);
        assert forall|p: usize|
            p != new_pid && p != pre.current->0 && p < pre.tasks@.len() implies #[trigger] kernel.tasks@[p as int]
            == pre.tasks@[p as int] by {
            assert(forked.tasks@[p as int] == pre.tasks@[p as int]);
        }
    }
    as_result(new_pid)
}

/// Sets the priority of the running task. A priority below 2 is refused
/// with -1; otherwise the priority is the result.
pub fn sys_set_priority(kernel: &mut Kernel, prio: isize) -> (r: isize)
    requires
        old(kernel).wf(),
        old(kernel).frames_wf(),
        old(kernel).current is Some,
    ensures
        final(kernel).wf(),
        final(kernel).frames_wf(),
        r == if prio >= 2 {
            prio
        } else {
            -1isize
        },
        prio < 2 ==> *final(kernel) == *old(kernel),
        prio >= 2 ==> final(kernel).same_but_task(old(kernel), old(kernel).current->0)
            && final(kernel).frames == old(kernel).frames && final(kernel).cur() == (
        TaskControlBlock { priority: prio as u64, ..old(kernel).cur() }),
{
    if prio >= 2 {
        let ghost pre = *kernel;
        let c = kernel.current.unwrap();
        match &mut kernel.tasks[c] {
            Some(task) => {
                task.priority = prio as u64;
            },
            None => {},
        }
        proof {
            assert(kernel.tasks@ =~= pre.tasks@.update(c as int, kernel.tasks@[c as int]));
            Kernel::lemma_wf_update(&pre, kernel, c);
            Kernel::lemma_frames_step(&pre, kernel, c);
        }
        prio
    } else {
        -1
    }
}

/// Moves the end of the heap of the running task by `size` bytes. The
/// result is the address at which the heap ended before, or -1 where the
/// heap cannot be moved so: where the new end would lie before the start of
/// the heap or past the addresses, and where the area of the heap cannot
/// follow. A move by nothing always succeeds and changes nothing. A move
/// down succeeds exactly where the area of the heap can shrink, and unmaps
/// the pages that the heap gives up. A move up succeeds at least where the
/// area of the heap can grow without a frame.
pub fn sys_sbrk(kernel: &mut Kernel, size: i32) -> (r: isize)
    requires
        old(kernel).wf(),
        old(kernel).frames_wf(),
        old(kernel).current is Some,
    ensures
        final(kernel).wf(),
        final(kernel).frames_wf(),
        final(kernel).same_but_task(old(kernel), old(kernel).current->0),
        r == -1 || r == if old(kernel).cur().program_brk <= isize::MAX {
            old(kernel).cur().program_brk as int
        } else {
            isize::MAX as int
        },
        final(kernel).cur() == (TaskControlBlock {
            memory_set: final(kernel).cur().memory_set,
            program_brk: final(kernel).cur().program_brk,
            ..old(kernel).cur()
        }),
        size == 0 ==> r != -1 && final(kernel).cur() == old(kernel).cur() && final(kernel).frames
            == old(kernel).frames,
        old(kernel).cur().program_brk + size > u64::MAX ==> r == -1,
        size < 0 && old(kernel).cur().heap_bottom <= old(kernel).cur().program_brk + size ==> (r
            != -1 <==> old(kernel).cur().can_shrink(size)),
        size > 0 && old(kernel).cur().program_brk + size <= u64::MAX && old(
            kernel,
        ).cur().can_grow_lazily(size) ==> r != -1,
        size < 0 && r != -1 ==> TaskControlBlock::heap_shrunk(
            &old(kernel).cur(),
            &old(kernel).frames,
            &final(kernel).cur(),
            &final(kernel).frames,
            size,
        ),
        size > 0 && r != -1 ==> TaskControlBlock::heap_grown(
            &old(kernel).cur(),
            &old(kernel).frames,
            &final(kernel).cur(),
            &final(kernel).frames,
            size,
        ),
        r != -1 ==> final(kernel).cur().program_brk == old(kernel).cur().program_brk + size
            && old(kernel).cur().heap_bottom <= old(kernel).cur().program_brk + size,
        r == -1 ==> final(kernel).cur().program_brk == old(kernel).cur().program_brk
            && MemorySet::rolled_back(
            &old(kernel).cur().memory_set,
            &old(kernel).frames,
            &final(kernel).cur().memory_set,
            &final(kernel).frames,
        ),
        old(kernel).cur().program_brk + size < old(kernel).cur().heap_bottom ==> r == -1,
        final(kernel).cur().heap_bottom == old(kernel).cur().heap_bottom,
{
    let ghost pre = *kernel;
    let c = kernel.current.unwrap();
    let result = match &mut kernel.tasks[c] {
        Some(task) => task.change_program_brk(&mut kernel.frames, size),
        None => None,
    };
    proof {
        assert(kernel.tasks@ =~= pre.tasks@.update(c as int, kernel.tasks@[c as int]));
        Kernel::lemma_wf_update(&pre, kernel, c);
        Kernel::lemma_frames_step(&pre, kernel, c);
    }
    match result {
        Some(old_brk) => as_result_u64(old_brk),
        None => -1,
    }
}

/// Maps the region `[start, start + len)` into the address space of the
/// running task, with the permissions that the three low bits of `port`
/// ask for: read, write and execute. The result is 0, or -1 where the
/// request is refused.
pub fn sys_mmap(kernel: &mut Kernel, start: usize, len: usize, port: usize) -> (r: isize)
    requires
        old(kernel).wf(),
        old(kernel).frames_wf(),
        old(kernel).current is Some,
    ensures
        final(kernel).wf(),
        final(kernel).frames_wf(),
        final(kernel).same_but_task(old(kernel), old(kernel).current->0),
        MemorySet::mmap_outcome(
            &old(kernel).cur().memory_set,
            &old(kernel).frames,
            &final(kernel).cur().memory_set,
            &final(kernel).frames,
            start as u64,
            len,
            port,
            r,
        ),
        old(kernel).cur().memory_set.mmap_admissible(start as u64, len, port) && old(kernel).frames.free_count() >= 3 * (MemorySet::region_end(start as u64, len)
            - MemorySet::region_start(start as u64)) ==> r == 0,
        final(kernel).cur() == (TaskControlBlock {
            memory_set: final(kernel).cur().memory_set,
            ..old(kernel).cur()
        }),
{
    let ghost pre = *kernel;
    let c = kernel.current.unwrap();
    let r = match &mut kernel.tasks[c] {
        Some(task) => task.memory_set.mmap(&mut kernel.frames, start as u64, len, port),
        None => -1,
    };
    proof {
        assert(kernel.tasks@ =~= pre.tasks@.update(c as int, kernel.tasks@[c as int]));
        Kernel::lemma_wf_update(&pre, kernel, c);
        Kernel::lemma_frames_step(&pre, kernel, c);
    }
    r
}

/// Unmaps the region `[start, start + len)` from the address space of the
/// running task. The result is 0, or -1 where the request is refused.
pub fn sys_munmap(kernel: &mut Kernel, start: usize, len: usize) -> (r: isize)
    requires
        old(kernel).wf(),
        old(kernel).frames_wf(),
        old(kernel).current is Some,
    ensures
        final(kernel).wf(),
        final(kernel).frames_wf(),
        final(kernel).same_but_task(old(kernel), old(kernel).current->0),
        MemorySet::munmap_outcome(
            &old(kernel).cur().memory_set,
            &old(kernel).frames,
            &final(kernel).cur().memory_set,
            &final(kernel).frames,
            start as u64,
            len,
            r,
        ),
        final(kernel).cur() == (TaskControlBlock {
            memory_set: final(kernel).cur().memory_set,
            ..old(kernel).cur()
        }),
{
    let ghost pre = *kernel;
    let c = kernel.current.unwrap();
    let r = match &mut kernel.tasks[c] {
        Some(task) => task.memory_set.munmap(&mut kernel.frames, start as u64, len),
        None => -1,
    };
    proof {
        assert(kernel.tasks@ =~= pre.tasks@.update(c as int, kernel.tasks@[c as int]));
        Kernel::lemma_wf_update(&pre, kernel, c);
        Kernel::lemma_frames_step(&pre, kernel, c);
    }
    r
}

/// Writes the moment `now_us`, in microseconds, as seconds and microseconds
/// to the structure at `ts` in the memory of the running task. The result
/// is 0, or -1, with nothing written, where the structure does not lie in
/// memory that frames back.
pub fn sys_get_time(kernel: &mut Kernel, ts: usize, tz: usize, now_us: u64) -> (r: isize)
    requires
        old(kernel).wf(),
        old(kernel).frames_wf(),
        old(kernel).current is Some,
    ensures
        final(kernel).wf(),
        final(kernel).frames_wf(),
        final(kernel).same_but_task(old(kernel), old(kernel).current->0),
        final(kernel).frames == old(kernel).frames,
        r == if maps_range(&old(kernel).cur().memory_set, ts as u64, 16) {
            0isize
        } else {
            -1isize
        },
        r == -1 ==> *final(kernel) == *old(kernel),
        r == 0 ==> written_user(
            &old(kernel).cur().memory_set,
            &final(kernel).cur().memory_set,
            ts as u64,
            (TimeVal { sec: now_us / 1_000_000, usec: now_us % 1_000_000 }).spec_bytes(),
        ) && final(kernel).cur() == (TaskControlBlock {
            memory_set: final(kernel).cur().memory_set,
            ..old(kernel).cur()
        }),
{
    let ghost pre = *kernel;
    let c = kernel.current.unwrap();
    let time = TimeVal::from_us(now_us);
    let bytes = time.to_bytes();
    let mapped = match &kernel.tasks[c] {
        Some(task) => check_user_range(&task.memory_set, ts as u64, 16),
        None => false,
    };
    if !mapped {
        proof {
            assert(kernel.tasks@ =~= pre.tasks@.update(c as int, kernel.tasks@[c as int]));
        }
        return -1;
    }
    match &mut kernel.tasks[c] {
        Some(task) => {
            let _ = write_user(&mut task.memory_set, ts as u64, bytes.as_slice());
        },
        None => {},
    }
    proof {
        assert(kernel.tasks@ =~= pre.tasks@.update(c as int, kernel.tasks@[c as int]));
        Kernel::lemma_wf_update(&pre, kernel, c);
        Kernel::lemma_frames_step(&pre, kernel, c);
    }
    0
}

/// What [`sys_task_info`] reports of the running task at the moment
/// `now_us`: that it runs, how often it made each system call, and how many
/// milliseconds ago it first ran.
pub open spec fn task_info_of(task: TaskControlBlock, now_us: u64) -> TaskInfo {
    TaskInfo {
        status: TaskStatus::Running,
        syscall_times: task.syscall_times,
        time: (if task.start_time is Some && task.start_time->0 <= now_us {
            (now_us - task.start_time->0) / 1000
        } else {
            0
        }) as u64,
    }
}

/// Writes what the running task can learn about itself to the structure at
/// `ti` in its memory. The result is 0, or -1, with nothing written, where
/// the structure does not lie in memory that frames back.
pub fn sys_task_info(kernel: &mut Kernel, ti: usize, now_us: u64) -> (r: isize)
    requires
        old(kernel).wf(),
        old(kernel).frames_wf(),
        old(kernel).current is Some,
    ensures
        final(kernel).wf(),
        final(kernel).frames_wf(),
        final(kernel).same_but_task(old(kernel), old(kernel).current->0),
        final(kernel).frames == old(kernel).frames,
        r == 0 || r == -1,
        r == -1 ==> *final(kernel) == *old(kernel),
        r == 0 <==> maps_range(
            &old(kernel).cur().memory_set,
            ti as u64,
            task_info_of(old(kernel).cur(), now_us).spec_bytes().len() as usize,
        ) && task_info_of(old(kernel).cur(), now_us).spec_bytes().len() <= usize::MAX,
        r == 0 ==> written_user(
            &old(kernel).cur().memory_set,
            &final(kernel).cur().memory_set,
            ti as u64,
            task_info_of(old(kernel).cur(), now_us).spec_bytes(),
        ) && final(kernel).cur() == (TaskControlBlock {
            memory_set: final(kernel).cur().memory_set,
            ..old(kernel).cur()
        }),
{
    let ghost pre = *kernel;
    let c = kernel.current.unwrap();
    let info = match &kernel.tasks[c] {
        Some(task) => {
            let elapsed: u64 = match task.start_time {
                Some(t) => if t <= now_us {
                    (now_us - t) / 1000
                } else {
                    0
                },
                None => 0,
            };
            TaskInfo {
                status: TaskStatus::Running,
                syscall_times: task.syscall_times.clone(),
                time: elapsed,
            }
        },
        None => TaskInfo { status: TaskStatus::Running, syscall_times: Vec::new(), time: 0 },
    };
    proof {
        assert(info.syscall_times@ =~= pre.task(c).syscall_times@);
        assert(info.spec_bytes() == task_info_of(pre.task(c), now_us).spec_bytes());
    }
    let bytes = info.to_bytes();
    let mapped = match &kernel.tasks[c] {
        Some(task) => check_user_range(&task.memory_set, ti as u64, bytes.len()),
        None => false,
    };
    if !mapped {
        proof {
            assert(kernel.tasks@ =~= pre.tasks@.update(c as int, kernel.tasks@[c as int]));
        }
        return -1;
    }
    match &mut kernel.tasks[c] {
        Some(task) => {
            let _ = write_user(&mut task.memory_set, ti as u64, bytes.as_slice());
        },
        None => {},
    }
    proof {
        assert(kernel.tasks@ =~= pre.tasks@.update(c as int, kernel.tasks@[c as int]));
        Kernel::lemma_wf_update(&pre, kernel, c);
        Kernel::lemma_frames_step(&pre, kernel, c);
    }
    0
}

/// The bytes of the file that the string at `path` in the memory of the
/// running task names, where there is such a string and such a file.
pub open spec fn program_at(kernel: &Kernel, path: u64) -> Option<Seq<u8>> {
    match str_at(&kernel.cur().memory_set, path) {
        Some(name) => match kernel.fs.lookup(name) {
            Some(id) => Some(kernel.fs.data(id)),
            None => None,
        },
        None => None,
    }
}

/// Reads the whole file that the string at `path` names.
fn read_program(kernel: &Kernel, path: u64) -> (r: Option<Vec<u8>>)
    requires
        kernel.wf(),
        kernel.current is Some,
    ensures
        r is Some == program_at(kernel, path) is Some,
        r matches Some(data) ==> data@ == program_at(kernel, path)->0,
{
    let c = kernel.current.unwrap();
    let name = match &kernel.tasks[c] {
        Some(task) => match translated_str(&task.memory_set, path) {
            Some(s) => s,
            None => {
                return None;
            },
        },
        None => {
            return None;
        },
    };
    let id = match kernel.fs.find(name.as_slice()) {
        Some(id) => id,
        None => {
            return None;
        },
    };
    let size = match kernel.fs.size(id) {
        Some(n) => n,
        None => 0,
    };
    let data = kernel.fs.read_at(id, 0, size);
    proof {
        assert(data@ =~= kernel.fs.data(id));
    }
    Some(data)
}

/// Replaces the program of the running task with the file that the string
/// at `path` names. The result is 0, or -1, with nothing changed, where
/// there is no such string or file, the file is no program that can be
/// loaded, or frames are lacking.
pub fn sys_exec(kernel: &mut Kernel, path: usize) -> (r: isize)
    requires
        old(kernel).wf(),
        old(kernel).frames_wf(),
        old(kernel).current is Some,
    ensures
        final(kernel).wf(),
        final(kernel).frames_wf(),
        r == 0 || r == -1,
        final(kernel).pids == old(kernel).pids,
        final(kernel).manager == old(kernel).manager,
        final(kernel).current == old(kernel).current,
        final(kernel).fs == old(kernel).fs,
        final(kernel).files == old(kernel).files,
        r == -1 ==> final(kernel).tasks == old(kernel).tasks && final(kernel).frames.allocated()
            == old(kernel).frames.allocated(),
        program_at(old(kernel), path as u64) is None || !MemorySet::loadable(
            program_at(old(kernel), path as u64)->0,
        ) ==> r == -1,
        program_at(old(kernel), path as u64) matches Some(elf) && MemorySet::loadable(elf) && old(kernel).frames.free_count() >= 1 + 3 * MemorySet::file_pages(
            elf,
            crate::mm::loader::elf_ph_count(elf),
        ) ==> r == 0,
        r == 0 ==> {
            let elf = program_at(old(kernel), path as u64)->0;
            let c = old(kernel).current->0;
            let before = old(kernel).task(c);
            let after = final(kernel).task(c);
            &&& program_at(old(kernel), path as u64) is Some
            &&& MemorySet::loadable(elf)
            &&& final(kernel).live(c)
            &&& final(kernel).tasks@ == old(kernel).tasks@.update(
                c as int,
                final(kernel).tasks@[c as int],
            )
            &&& after == (TaskControlBlock {
                memory_set: after.memory_set,
                trap_cx: after.trap_cx,
                heap_bottom: after.heap_bottom,
                program_brk: after.program_brk,
                ..before
            })
            &&& after.trap_cx.is_init(
                crate::mm::loader::elf_entry(elf),
                after.heap_bottom,
                old(kernel).kernel_token,
                crate::task::processor::kernel_stack_top(c),
                old(kernel).trap_handler,
            )
            &&& after.program_brk == after.heap_bottom
            &&& after.memory_set.is_program(elf, after.heap_bottom)
            &&& final(kernel).frames.allocated() == old(kernel).frames.allocated().union(
                after.memory_set.frames(),
            ).difference(before.memory_set.area_ppns()).difference(
                before.memory_set.table().frames(),
            )
        },
        final(kernel).console_in == old(kernel).console_in,
        final(kernel).console_out == old(kernel).console_out,
{
    let data = match read_program(kernel, path as u64) {
        Some(data) => data,
        None => {
            return -1;
        },
    };
    match kernel.exec(data.as_slice()) {
        Ok(_) => 0,
        Err(_) => -1,
    }
}

/// Starts the file that the string at `path` names as a new task, a child
/// of the running task, without copying the address space of the parent.
/// The result is the identifier of the child, or -1, with nothing changed,
/// where there is no such string or file, the file is no program that can
/// be loaded, or frames or identifiers are lacking.
pub fn sys_spawn(kernel: &mut Kernel, path: usize) -> (r: isize)
    requires
        old(kernel).wf(),
        old(kernel).frames_wf(),
        old(kernel).current is Some,
    ensures
        final(kernel).tasks@.len() >= old(kernel).tasks@.len(),
        final(kernel).wf(),
        final(kernel).frames_wf(),
        final(kernel).current == old(kernel).current,
        final(kernel).fs == old(kernel).fs,
        r == -1 ==> {
            &&& final(kernel).tasks == old(kernel).tasks
            &&& final(kernel).manager == old(kernel).manager
            &&& final(kernel).pids == old(kernel).pids
            &&& final(kernel).files == old(kernel).files
            &&& final(kernel).frames.allocated() == old(kernel).frames.allocated()
        },
        program_at(old(kernel), path as u64) is None || !MemorySet::loadable(
            program_at(old(kernel), path as u64)->0,
        ) || !old(kernel).pids.available() ==> r == -1,
        program_at(old(kernel), path as u64) matches Some(elf) && MemorySet::loadable(elf) && old(kernel).pids.available() && old(kernel).frames.free_count() >= 1 + 3 * MemorySet::file_pages(
            elf,
            crate::mm::loader::elf_ph_count(elf),
        ) ==> r != -1,
        r == -1 || r > 0,
        r != -1 ==> {
            let elf = program_at(old(kernel), path as u64)->0;
            let c = old(kernel).current->0;
            let pid = old(kernel).pids.next();
            let child = final(kernel).task(pid);
            &&& program_at(old(kernel), path as u64) is Some
            &&& MemorySet::loadable(elf)
            &&& r == if pid <= isize::MAX {
                pid as int
            } else {
                isize::MAX as int
            }
            &&& !old(kernel).live(pid)
            &&& final(kernel).live(pid)
            &&& final(kernel).manager@ == old(kernel).manager@.push(pid)
            &&& child.task_status is Ready
            &&& child.parent == Some(c)
            &&& child.children@.len() == 0
            &&& child.stride == 0
            &&& child.priority == crate::config::DEFAULT_PRIORITY
            &&& child.exit_code == 0
            &&& child.start_time is None
            &&& forall|i: int| 0 <= i < MAX_SYSCALL_NUM ==> child.syscall_times@[i] == 0
            &&& child.fd_table@.len() == 3
            &&& child.trap_cx.is_init(
                crate::mm::loader::elf_entry(elf),
                child.heap_bottom,
                old(kernel).kernel_token,
                crate::task::processor::kernel_stack_top(pid),
                old(kernel).trap_handler,
            )
            &&& child.program_brk == child.heap_bottom
            &&& child.memory_set.is_program(elf, child.heap_bottom)
            &&& child.memory_set.fresh_in(
                old(kernel).frames.allocated(),
                final(kernel).frames.allocated(),
            )
            &&& final(kernel).live(c)
            &&& final(kernel).task(c).children@ == old(kernel).task(c).children@.push(pid)
            &&& final(kernel).task(c) == (TaskControlBlock {
                children: final(kernel).task(c).children,
                ..old(kernel).task(c)
            })
            &&& child.memory_set.frames().disjoint(final(kernel).task(c).memory_set.frames())
            &&& forall|p: usize|
                p != pid && p != c && p < old(kernel).tasks@.len() ==> #[trigger] final(kernel).tasks@[p as int]
                    == old(kernel).tasks@[p as int]
        },
        final(kernel).console_in == old(kernel).console_in,
        final(kernel).console_out == old(kernel).console_out,
{
    let data = match read_program(kernel, path as u64) {
        Some(data) => data,
        None => {
            return -1;
        },
    };
    let c = kernel.current.unwrap();
    match kernel.spawn(data.as_slice(), Some(c)) {
        Ok(pid) => as_result(pid),
        Err(_) => -1,
    }
}

/// Whether a wait for `pid` is a wait for the task `child`: -1 waits for
/// any child.
pub open spec fn waited(pid: isize, child: usize) -> bool {
    pid == -1 || pid == child as int
}

/// Whether the child at position `i` of the running task is a zombie that
/// a wait for `pid` waits for.
pub open spec fn collectable(kernel: &Kernel, pid: isize, i: int) -> bool {
    let child = kernel.cur().children@[i];
    waited(pid, child) && kernel.task(child).task_status is Zombie
}

/// The bytes of an exit code as user space reads it: 4 bytes, low byte
/// first.
pub open spec fn exit_code_bytes(code: i32) -> Seq<u8> {
    spec_u32_to_le_bytes(code as u32)
}

/// Waits for a child of the running task: for the child `pid`, or for any
/// child where `pid` is -1. The result is -1 where no child is waited for,
/// and -2 where none of those that are waited for is a zombie yet. Otherwise
/// the first such zombie among the children is collected: its exit code is
/// written to `exit_code_ptr` in the memory of the running task, it leaves
/// the kernel altogether, and its identifier is the result. Where the exit
/// code cannot be written, the result is -1 and nothing has changed.
pub fn sys_waitpid(kernel: &mut Kernel, pid: isize, exit_code_ptr: usize) -> (r: isize)
    requires
        old(kernel).wf(),
        old(kernel).frames_wf(),
        old(kernel).current is Some,
    ensures
        final(kernel).wf(),
        final(kernel).frames_wf(),
        final(kernel).current == old(kernel).current,
        final(kernel).manager == old(kernel).manager,
        final(kernel).fs == old(kernel).fs,
        (forall|i: int|
            0 <= i < old(kernel).cur().children@.len() ==> !waited(
                pid,
                #[trigger] old(kernel).cur().children@[i],
            )) ==> r == -1,
        (exists|i: int|
            0 <= i < old(kernel).cur().children@.len() && waited(
                pid,
                #[trigger] old(kernel).cur().children@[i],
            )) && (forall|i: int|
            0 <= i < old(kernel).cur().children@.len() ==> !#[trigger] collectable(
                old(kernel),
                pid,
                i,
            )) <==> r == -2,
        r == -1 || r == -2 ==> *final(kernel) == *old(kernel),
        (exists|i: int|
            0 <= i < old(kernel).cur().children@.len() && #[trigger] collectable(
                old(kernel),
                pid,
                i,
            )) ==> (r == -1 <==> !maps_range(
            &old(kernel).cur().memory_set,
            exit_code_ptr as u64,
            4,
        )),
        r != -1 && r != -2 ==> exists|i: int|
            {
                let c = old(kernel).current->0;
                let child = old(kernel).cur().children@[i];
                let gone = old(kernel).task(child);
                &&& 0 <= i < old(kernel).cur().children@.len()
                &&& #[trigger] collectable(old(kernel), pid, i)
                &&& forall|j: int| 0 <= j < i ==> !#[trigger] collectable(old(kernel), pid, j)
                &&& r == if child <= isize::MAX {
                    child as int
                } else {
                    isize::MAX as int
                }
                &&& !final(kernel).live(child)
                &&& final(kernel).unreferenced(child)
                &&& final(kernel).pids.allocated() == old(kernel).pids.allocated().remove(child)
                &&& final(kernel).live(c)
                &&& final(kernel).cur().children@ == old(kernel).cur().children@.remove(i)
                &&& written_user(
                    &old(kernel).cur().memory_set,
                    &final(kernel).cur().memory_set,
                    exit_code_ptr as u64,
                    exit_code_bytes(gone.exit_code),
                )
                &&& final(kernel).frames.allocated() == old(kernel).frames.allocated().difference(
                    gone.memory_set.area_ppns(),
                ).difference(gone.memory_set.table().frames())
                &&& final(kernel).files@ == released_all(
                    old(kernel).files@,
                    gone.fd_table@,
                    gone.fd_table@.len() as int,
                )
                &&& forall|p: usize|
                    p != c && p != child && p < old(kernel).tasks@.len() ==> #[trigger] final(kernel).tasks@[p as int] == old(kernel).tasks@[p as int]
            },
{
    let ghost pre = *kernel;
    let c = kernel.current.unwrap();
    let n: usize = match &kernel.tasks[c] {
        Some(task) => task.children.len(),
        None => 0,
    };
    // is any child waited for, and which is the first zombie among them
    let mut any: bool = false;
    let mut found: Option<usize> = None;
    let mut i: usize = 0;
    while i < n
        invariant
            *kernel == pre,
            pre.wf(),
            pre.current == Some(c),
            n == pre.cur().children@.len(),
            0 <= i <= n,
            any == (exists|j: int| 0 <= j < i && waited(pid, #[trigger] pre.cur().children@[j])),
            found is None ==> forall|j: int| 0 <= j < i ==> !#[trigger] collectable(&pre, pid, j),
            found matches Some(k) ==> k < i && collectable(&pre, pid, k as int) && forall|j: int|
                0 <= j < k ==> !#[trigger] collectable(&pre, pid, j),
        decreases n - i,
    {
        let child: usize = match &kernel.tasks[c] {
            Some(task) => task.children[i],
            None => 0,
        };
        proof {
            assert(pre.live(pre.task(c).children@[i as int]));
        }
        let is_waited: bool = pid == -1 || (child <= isize::MAX as usize && pid == child as isize);
        if is_waited {
            any = true;
            let zombie = match &kernel.tasks[child] {
                Some(t) => t.is_zombie(),
                None => false,
            };
            if zombie && found.is_none() {
                found = Some(i);
            }
        }
        i = i + 1;
    }
    if !any {
        return -1;
    }
    let idx = match found {
        Some(k) => k,
        None => {
            return -2;
        },
    };
    let mapped = match &kernel.tasks[c] {
        Some(task) => check_user_range(&task.memory_set, exit_code_ptr as u64, 4),
        None => false,
    };
    if !mapped {
        return -1;
    }
    let (child, exit_code) = kernel.reap(idx);
    let ghost reaped = *kernel;
    let bytes = u32_to_le_bytes(exit_code as u32);
    match &mut kernel.tasks[c] {
        Some(task) => {
            let _ = write_user(&mut task.memory_set, exit_code_ptr as u64, bytes.as_slice());
        },
        None => {},
    }
    proof {
        vstd::bytes::lemma_auto_spec_u32_to_from_le_bytes();
        assert(bytes@.len() == 4);
        assert(kernel.tasks@ =~= reaped.tasks@.update(c as int, kernel.tasks@[c as int]));
        Kernel::lemma_wf_update(&reaped, kernel, c);
        Kernel::lemma_frames_step(&reaped, kernel, c);
        assert(collectable(&pre, pid, idx as int));
        assert forall|p: usize| #[trigger] kernel.live(p) implies !kernel.task(
            p,
        ).children@.contains(child) by {
            assert(reaped.live(p));
        }
    }
    as_result(child)
}

/// Counts one more call of the system call `id` for the running task. A
/// number that has no counter is not counted, and a counter that is as high
/// as it can be stays.
pub fn count_syscall(kernel: &mut Kernel, id: usize)
    requires
        old(kernel).wf(),
        old(kernel).frames_wf(),
        old(kernel).current is Some,
    ensures
        final(kernel).wf(),
        final(kernel).frames_wf(),
        final(kernel).same_but_task(old(kernel), old(kernel).current->0),
        final(kernel).frames == old(kernel).frames,
        final(kernel).cur() == (TaskControlBlock {
            syscall_times: final(kernel).cur().syscall_times,
            ..old(kernel).cur()
        }),
        final(kernel).cur().syscall_times@ == if id < MAX_SYSCALL_NUM && old(kernel).cur().syscall_times@[id as int] < u32::MAX {
            old(kernel).cur().syscall_times@.update(
                id as int,
                (old(kernel).cur().syscall_times@[id as int] + 1) as u32,
            )
        } else {
            old(kernel).cur().syscall_times@
        },
{
    let ghost pre = *kernel;
    let c = kernel.current.unwrap();
    match &mut kernel.tasks[c] {
        Some(task) => {
            if id < task.syscall_times.len() {
                let n: u32 = task.syscall_times[id];
                if n < u32::MAX {
                    task.syscall_times[id] = n + 1;
                }
            }
        },
        None => {},
    }
    proof {
        assert(kernel.tasks@ =~= pre.tasks@.update(c as int, kernel.tasks@[c as int]));
        assert(kernel.cur().syscall_times@ =~= if id < MAX_SYSCALL_NUM && pre.cur().syscall_times@[id as int]
            < u32::MAX {
            pre.cur().syscall_times@.update(
                id as int,
                (pre.cur().syscall_times@[id as int] + 1) as u32,
            )
        } else {
            pre.cur().syscall_times@
        });
        Kernel::lemma_wf_update(&pre, kernel, c);
        Kernel::lemma_frames_step(&pre, kernel, c);
    }
}

/// Puts the result `value` of a system call into the register of the task
/// `pid` that carries it. Nothing happens where there is no such task.
pub fn set_syscall_result(kernel: &mut Kernel, pid: usize, value: u64)
    requires
        old(kernel).wf(),
        old(kernel).frames_wf(),
    ensures
        final(kernel).wf(),
        final(kernel).frames_wf(),
        !old(kernel).live(pid) ==> *final(kernel) == *old(kernel),
        old(kernel).live(pid) ==> {
            &&& final(kernel).live(pid)
            &&& *final(kernel) == (Kernel { tasks: final(kernel).tasks, ..*old(kernel) })
            &&& final(kernel).tasks@ == old(kernel).tasks@.update(
                pid as int,
                final(kernel).tasks@[pid as int],
            )
            &&& final(kernel).task(pid) == (TaskControlBlock {
                trap_cx: final(kernel).task(pid).trap_cx,
                ..old(kernel).task(pid)
            })
            &&& final(kernel).task(pid).trap_cx.x@ == old(kernel).task(pid).trap_cx.x@.update(
                REG_A0 as int,
                value,
            )
            &&& final(kernel).task(pid).trap_cx.sepc == old(kernel).task(pid).trap_cx.sepc
        },
{
    let ghost pre = *kernel;
    if pid >= kernel.tasks.len() || kernel.tasks[pid].is_none() {
        return ;
    }
    match &mut kernel.tasks[pid] {
        Some(task) => {
            task.trap_cx.set_return(value);
        },
        None => {},
    }
    proof {
        assert(pre.live(pid));
        assert(pre.task(pid).pid == pid && pre.task(pid).wf());
        assert(kernel.task(pid).pid == pre.task(pid).pid);
        assert(kernel.tasks@ =~= pre.tasks@.update(pid as int, kernel.tasks@[pid as int]));
        Kernel::lemma_wf_update(&pre, kernel, pid);
        Kernel::lemma_frames_step(&pre, kernel, pid);
    }
}

} // verus!

//! The books of open files: each entry of the table of open files counts
//! the descriptors that refer to it, over all tasks.

use vstd::prelude::*;
use crate::fs::{FileTable, OpenFile};
use crate::task::lifecycle::{released, released_all, retained, retained_all};
use crate::task::processor::Kernel;
use crate::task::task::TaskControlBlock;

verus! {

/// The number of descriptors of `table` that refer to the open file `h`.
pub open spec fn refs_in(table: Seq<Option<usize>>, h: usize) -> nat
    decreases table.len(),
{
    if table.len() == 0 {
        0
    } else {
        refs_in(table.drop_last(), h) + if table.last() == Some(h) {
            1nat
        } else {
            0nat
        }
    }
}

/// The descriptors of a task, if there is one.
pub open spec fn fds_of(task: Option<TaskControlBlock>) -> Seq<Option<usize>> {
    match task {
        Some(t) => t.fd_table@,
        None => Seq::empty(),
    }
}

/// The number of descriptors of a task, if there is one, that refer to the
/// open file `h`.
pub open spec fn refs_of(task: Option<TaskControlBlock>, h: usize) -> nat {
    refs_in(fds_of(task), h)
}

/// The number of descriptors of the first `n` tasks that refer to the open
/// file `h`.
pub open spec fn refs_among(tasks: Seq<Option<TaskControlBlock>>, n: int, h: usize) -> nat
    decreases n,
{
    if n <= 0 {
        0
    } else {
        refs_among(tasks, n - 1, h) + refs_of(tasks[n - 1], h)
    }
}

/// The number of descriptors that the entry at `h` counts: none where there
/// is no entry.
pub open spec fn entry_refs(files: Seq<Option<OpenFile>>, h: usize) -> nat {
    if h < files.len() && files[h as int] is Some {
        files[h as int]->0.refs as nat
    } else {
        0
    }
}

/// One for a descriptor that refers to `h`, and nothing for any other.
pub open spec fn one_if(fd: Option<usize>, h: usize) -> nat {
    if fd == Some(h) {
        1
    } else {
        0
    }
}

/// A descriptor that is set counts for the file that it refers to, and the
/// one that it replaces counts no more.
pub proof fn lemma_refs_in_update(table: Seq<Option<usize>>, fd: int, x: Option<usize>, h: usize)
    requires
        0 <= fd < table.len(),
    ensures
        refs_in(table.update(fd, x), h) + one_if(table[fd], h) == refs_in(table, h) + one_if(x, h),
    decreases table.len(),
{
    if fd == table.len() - 1 {
        assert(table.update(fd, x).drop_last() =~= table.drop_last());
    } else {
        lemma_refs_in_update(table.drop_last(), fd, x, h);
        assert(table.update(fd, x).drop_last() =~= table.drop_last().update(fd, x));
    }
}

/// A descriptor that is added counts for the file that it refers to.
pub proof fn lemma_refs_in_push(table: Seq<Option<usize>>, x: Option<usize>, h: usize)
    ensures
        refs_in(table.push(x), h) == refs_in(table, h) + one_if(x, h),
{
    assert(table.push(x).drop_last() =~= table);
}

/// A table counts at least one descriptor for a file that one of its
/// descriptors refers to, and none for a file that none refers to.
pub proof fn lemma_refs_in_bounds(table: Seq<Option<usize>>, h: usize)
    ensures
        (exists|fd: int| 0 <= fd < table.len() && table[fd] == Some(h)) ==> refs_in(table, h) >= 1,
        (forall|fd: int| 0 <= fd < table.len() ==> table[fd] != Some(h)) ==> refs_in(table, h) == 0,
    decreases table.len(),
{
    if table.len() > 0 {
        lemma_refs_in_bounds(table.drop_last(), h);
        if exists|fd: int| 0 <= fd < table.len() && table[fd] == Some(h) {
            let fd = choose|fd: int| 0 <= fd < table.len() && table[fd] == Some(h);
            if fd < table.len() - 1 {
                assert(table.drop_last()[fd] == Some(h));
            }
        }
        if forall|fd: int| 0 <= fd < table.len() ==> table[fd] != Some(h) {
            assert forall|fd: int| 0 <= fd < table.drop_last().len() implies table.drop_last()[fd]
                != Some(h) by {
                assert(table[fd] != Some(h));
            }
        }
    }
}

/// Where two tables of tasks differ in the descriptors of the task `p`
/// alone, the numbers of descriptors that refer to a file differ by what
/// that task counts more or less.
pub proof fn lemma_refs_among_diff(
    before: Seq<Option<TaskControlBlock>>,
    after: Seq<Option<TaskControlBlock>>,
    n: int,
    p: int,
    h: usize,
)
    requires
        0 <= n <= before.len(),
        n <= after.len(),
        forall|q: int|
            0 <= q < n && q != p ==> refs_of(#[trigger] before[q], h) == refs_of(after[q], h),
    ensures
        refs_among(after, n, h) + (if 0 <= p < n {
            refs_of(before[p], h)
        } else {
            0
        }) == refs_among(before, n, h) + (if 0 <= p < n {
            refs_of(after[p], h)
        } else {
            0
        }),
    decreases n,
{
    if n > 0 {
        lemma_refs_among_diff(before, after, n - 1, p, h);
        if n - 1 != p {
            assert(refs_of(before[n - 1], h) == refs_of(after[n - 1], h));
        }
    }
}

/// Where no task counts more than one descriptor for a file, the tasks
/// count no more descriptors for it than there are tasks, and fewer where
/// the task at `p` counts none.
pub proof fn lemma_refs_among_bound(
    tasks: Seq<Option<TaskControlBlock>>,
    n: int,
    p: int,
    h: usize,
)
    requires
        0 <= n <= tasks.len(),
        forall|q: int| 0 <= q < n ==> refs_of(#[trigger] tasks[q], h) <= 1,
    ensures
        refs_among(tasks, n, h) + (if 0 <= p < n && refs_of(tasks[p], h) == 0 {
            1int
        } else {
            0int
        }) <= n,
        forall|q: int| 0 <= q < n ==> refs_of(#[trigger] tasks[q], h) <= refs_among(tasks, n, h),
    decreases n,
{
    if n > 0 {
        lemma_refs_among_bound(tasks, n - 1, p, h);
        assert(refs_of(tasks[n - 1], h) <= 1);
    }
}

/// What an entry counts after one more descriptor was counted for it.
pub proof fn lemma_retained_refs(files: Seq<Option<OpenFile>>, g: usize, h: usize)
    requires
        g < files.len(),
        files[g as int] is Some,
        entry_refs(files, g) < usize::MAX,
    ensures
        entry_refs(retained(files, g), h) == entry_refs(files, h) + one_if(Some(g), h),
        retained(files, g).len() == files.len(),
        forall|k: int| 0 <= k < files.len() ==> (#[trigger] retained(files, g)[k]) is Some == (
        files[k] is Some),
{
}

/// What the entries count after one descriptor was given up.
pub proof fn lemma_released_refs(files: Seq<Option<OpenFile>>, g: usize, h: usize)
    requires
        entry_refs(files, g) >= 1,
    ensures
        entry_refs(released(files, g), h) + one_if(Some(g), h) == entry_refs(files, h),
{
}

/// What the entries count after a file was opened at the first free
/// position: one descriptor for the new entry, where there was none.
pub proof fn lemma_opened_refs(
    pre: Seq<Option<OpenFile>>,
    post: Seq<Option<OpenFile>>,
    file: OpenFile,
    r: usize,
    h: usize,
)
    requires
        r == FileTable::first_free(pre),
        file.refs == 1,
        post == if r < pre.len() {
            pre.update(r as int, Some(file))
        } else {
            pre.push(Some(file))
        },
    ensures
        entry_refs(pre, r) == 0,
        entry_refs(post, h) == entry_refs(pre, h) + one_if(Some(r), h),
{
    FileTable::lemma_first_free_bounds(pre);
}

/// What the entries count after the first `n` descriptors of `fds` were
/// counted once more: as many more as the descriptors that refer to them.
pub proof fn lemma_retained_all_refs(
    files: Seq<Option<OpenFile>>,
    fds: Seq<Option<usize>>,
    n: int,
    h: usize,
)
    requires
        0 <= n <= fds.len(),
        forall|k: int|
            0 <= k < fds.len() ==> ((#[trigger] fds[k]) matches Some(g) ==> g < files.len()
                && files[g as int] is Some),
        forall|g: usize| #[trigger] entry_refs(files, g) + refs_in(fds, g) <= usize::MAX,
    ensures
        entry_refs(retained_all(files, fds, n), h) == entry_refs(files, h) + refs_in(fds.take(n), h),
        retained_all(files, fds, n).len() == files.len(),
        forall|k: int|
            0 <= k < files.len() ==> (#[trigger] retained_all(files, fds, n)[k]) is Some == (
            files[k] is Some),
        refs_in(fds.take(n), h) <= refs_in(fds, h),
    decreases n,
{
    if n == 0 {
        assert(fds.take(0) =~= Seq::<Option<usize>>::empty());
        lemma_refs_in_prefix(fds, 0, h);
    } else {
        lemma_retained_all_refs(files, fds, n - 1, h);
        assert(fds.take(n).drop_last() =~= fds.take(n - 1));
        lemma_refs_in_prefix(fds, n, h);
        let before = retained_all(files, fds, n - 1);
        match fds[n - 1] {
            Some(g) => {
                lemma_retained_all_refs(files, fds, n - 1, g);
                lemma_refs_in_prefix(fds, n, g);
                assert(fds.take(n).last() == Some(g));
                assert(refs_in(fds.take(n), g) == refs_in(fds.take(n - 1), g) + 1);
                assert(entry_refs(files, g) + refs_in(fds, g) <= usize::MAX);
                lemma_retained_refs(before, g, h);
            },
            None => {},
        }
    }
}

/// The first descriptors of a table count no more for a file than the
/// whole table.
pub proof fn lemma_refs_in_prefix(fds: Seq<Option<usize>>, n: int, h: usize)
    requires
        0 <= n <= fds.len(),
    ensures
        refs_in(fds.take(n), h) <= refs_in(fds, h),
    decreases fds.len() - n,
{
    if n < fds.len() {
        lemma_refs_in_prefix(fds, n + 1, h);
        assert(fds.take(n + 1).drop_last() =~= fds.take(n));
    } else {
        assert(fds.take(n) =~= fds);
    }
}

/// What the entries count after the first `n` descriptors of `fds` were
/// given up: as many fewer as the descriptors that refer to them.
pub proof fn lemma_released_all_refs(
    files: Seq<Option<OpenFile>>,
    fds: Seq<Option<usize>>,
    n: int,
    h: usize,
)
    requires
        0 <= n <= fds.len(),
        forall|g: usize| refs_in(fds, g) <= #[trigger] entry_refs(files, g),
    ensures
        entry_refs(released_all(files, fds, n), h) + refs_in(fds.take(n), h) == entry_refs(files, h),
        released_all(files, fds, n).len() == files.len(),
    decreases n,
{
    if n == 0 {
        assert(fds.take(0) =~= Seq::<Option<usize>>::empty());
    } else {
        lemma_released_all_refs(files, fds, n - 1, h);
        assert(fds.take(n).drop_last() =~= fds.take(n - 1));
        let before = released_all(files, fds, n - 1);
        match fds[n - 1] {
            Some(g) => {
                lemma_released_all_refs(files, fds, n - 1, g);
                lemma_refs_in_prefix(fds, n, g);
                assert(fds.take(n).last() == Some(g));
                assert(refs_in(fds.take(n), g) == refs_in(fds.take(n - 1), g) + 1);
                assert(refs_in(fds, g) <= entry_refs(files, g));
                assert(entry_refs(before, g) >= 1);
            },
            None => {},
        }
    }
}

impl Kernel {
    /// The number of descriptors, over all tasks, that refer to the open
    /// file `h`.
    pub open spec fn refs_to(&self, h: usize) -> nat {
        refs_among(self.tasks@, self.tasks@.len() as int, h)
    }

    /// Whether the books of open files are in order: each entry counts the
    /// descriptors that refer to it, over all tasks, a position without an
    /// entry has none, and no task has two descriptors for one entry.
    pub open spec fn files_ok(&self) -> bool {
        &&& forall|h: usize| #[trigger] entry_refs(self.files@, h) == self.refs_to(h)
        &&& forall|p: int, h: usize|
            0 <= p < self.tasks@.len() ==> #[trigger] refs_of(self.tasks@[p], h) <= 1
    }

    /// Every descriptor of a task refers to an entry of the table of open
    /// files.
    pub proof fn lemma_descriptor_refers(&self, p: usize, fd: int)
        requires
            self.files_ok(),
            self.live(p),
            0 <= fd < self.task(p).fd_table@.len(),
            self.task(p).fd_table@[fd] is Some,
        ensures
            self.task(p).fd_table@[fd]->0 < self.files@.len(),
            self.files@[self.task(p).fd_table@[fd]->0 as int] is Some,
            self.files@[self.task(p).fd_table@[fd]->0 as int]->0.refs >= 1,
    {
        let h = self.task(p).fd_table@[fd]->0;
        lemma_refs_in_bounds(self.task(p).fd_table@, h);
        assert forall|q: int| 0 <= q < self.tasks@.len() implies refs_of(
            #[trigger] self.tasks@[q],
            h,
        ) <= 1 by {}
        lemma_refs_among_bound(self.tasks@, self.tasks@.len() as int, -1, h);
        assert(refs_of(self.tasks@[p as int], h) >= 1);
        assert(entry_refs(self.files@, h) == self.refs_to(h));
    }

    /// The books stay in order when the entries count what they counted
    /// and the descriptors of one task at most change, without a change in
    /// what they count.
    pub proof fn lemma_files_step(pre: &Kernel, post: &Kernel, p: int)
        requires
            pre.files_ok(),
            post.tasks@.len() >= pre.tasks@.len(),
            forall|q: int|
                0 <= q < pre.tasks@.len() && q != p ==> fds_of(#[trigger] post.tasks@[q]) == fds_of(
                    pre.tasks@[q],
                ),
            forall|q: int|
                pre.tasks@.len() <= q < post.tasks@.len() && q != p ==> (
                #[trigger] post.tasks@[q]) is None,
            forall|h: usize|
                #[trigger] entry_refs(post.files@, h) + (if 0 <= p < pre.tasks@.len() {
                    refs_of(pre.tasks@[p], h)
                } else {
                    0
                }) == entry_refs(pre.files@, h) + (if 0 <= p < post.tasks@.len() {
                    refs_of(post.tasks@[p], h)
                } else {
                    0
                }),
            forall|h: usize| 0 <= p < post.tasks@.len() ==> #[trigger] refs_of(post.tasks@[p], h) <= 1,
        ensures
            post.files_ok(),
    {
        let n = pre.tasks@.len() as int;
        let m = post.tasks@.len() as int;
        assert forall|h: usize| #[trigger] entry_refs(post.files@, h) == post.refs_to(h) by {
            assert(entry_refs(pre.files@, h) == pre.refs_to(h));
            assert forall|q: int| 0 <= q < n && q != p implies refs_of(
                #[trigger] pre.tasks@[q],
                h,
            ) == refs_of(post.tasks@[q], h) by {
                assert(fds_of(post.tasks@[q]) == fds_of(pre.tasks@[q]));
            }
            lemma_refs_among_diff(pre.tasks@, post.tasks@, n, p, h);
            Self::lemma_refs_among_tail(post.tasks@, n, m, p, h);
        }
        assert forall|q: int, h: usize| 0 <= q < post.tasks@.len() implies #[trigger] refs_of(
            post.tasks@[q],
            h,
        ) <= 1 by {
            if q != p {
                if q < n {
                    assert(fds_of(post.tasks@[q]) == fds_of(pre.tasks@[q]));
                    assert(refs_of(pre.tasks@[q], h) <= 1);
                } else {
                    assert(post.tasks@[q] is None);
                }
            }
        }
    }

    /// The books stay in order when the entries count what they counted
    /// and every task keeps its descriptors.
    pub proof fn lemma_files_same(pre: &Kernel, post: &Kernel)
        requires
            pre.files_ok(),
            post.tasks@.len() >= pre.tasks@.len(),
            forall|q: int|
                0 <= q < pre.tasks@.len() ==> fds_of(#[trigger] post.tasks@[q]) == fds_of(
                    pre.tasks@[q],
                ),
            forall|q: int|
                pre.tasks@.len() <= q < post.tasks@.len() ==> (#[trigger] post.tasks@[q]) is None,
            forall|h: usize| #[trigger] entry_refs(post.files@, h) == entry_refs(pre.files@, h),
        ensures
            post.files_ok(),
    {
        Self::lemma_files_step(pre, post, -1);
    }

    /// The kernel stays well formed when one task changes in nothing but
    /// what the invariant does not speak of.
    pub proof fn lemma_wf_update(pre: &Kernel, post: &Kernel, pid: usize)
        requires
            pre.wf(),
            pre.live(pid),
            post.frames.wf(),
            post.pids == pre.pids,
            post.manager == pre.manager,
            post.current == pre.current,
            post.tasks@ == pre.tasks@.update(pid as int, post.tasks@[pid as int]),
            post.tasks@[pid as int] is Some,
            post.task(pid).pid == pid,
            post.task(pid).wf(),
            post.task(pid).task_status == pre.task(pid).task_status,
            post.task(pid).children == pre.task(pid).children,
            post.task(pid).parent == pre.task(pid).parent,
            post.task(pid).fd_table@ == pre.task(pid).fd_table@,
            forall|h: usize| #[trigger] entry_refs(post.files@, h) == entry_refs(pre.files@, h),
        ensures
            post.wf(),
    {
        Self::lemma_tasks_update(pre, post, pid);
        Self::lemma_files_same(pre, post);
    }

    /// The kernel stays well formed when the descriptors of one task change
    /// and the entries of the open files count them accordingly.
    pub proof fn lemma_wf_descriptors(pre: &Kernel, post: &Kernel, pid: usize)
        requires
            pre.wf(),
            pre.live(pid),
            post.frames.wf(),
            post.pids == pre.pids,
            post.manager == pre.manager,
            post.current == pre.current,
            post.tasks@ == pre.tasks@.update(pid as int, post.tasks@[pid as int]),
            post.tasks@[pid as int] is Some,
            post.task(pid).pid == pid,
            post.task(pid).wf(),
            post.task(pid).task_status == pre.task(pid).task_status,
            post.task(pid).children == pre.task(pid).children,
            post.task(pid).parent == pre.task(pid).parent,
            forall|h: usize|
                #[trigger] entry_refs(post.files@, h) + refs_in(pre.task(pid).fd_table@, h)
                    == entry_refs(pre.files@, h) + refs_in(post.task(pid).fd_table@, h),
            forall|h: usize| #[trigger] refs_in(post.task(pid).fd_table@, h) <= 1,
        ensures
            post.wf(),
    {
        Self::lemma_tasks_update(pre, post, pid);
        assert forall|h: usize|
            #[trigger] entry_refs(post.files@, h) + refs_of(pre.tasks@[pid as int], h)
                == entry_refs(pre.files@, h) + refs_of(post.tasks@[pid as int], h) by {
            assert(entry_refs(post.files@, h) + refs_in(pre.task(pid).fd_table@, h) == entry_refs(
                pre.files@,
                h,
            ) + refs_in(post.task(pid).fd_table@, h));
        }
        assert forall|h: usize| #[trigger] refs_of(post.tasks@[pid as int], h) <= 1 by {
            assert(refs_in(post.task(pid).fd_table@, h) <= 1);
        }
        Self::lemma_files_step(pre, post, pid as int);
    }

    /// The kernel is well formed once a task has joined whose descriptors
    /// the entries of the open files count as well.
    pub proof fn lemma_wf_enrolled(
        pre: &Kernel,
        post: &Kernel,
        pid: usize,
        parent: Option<usize>,
        table: Seq<Option<usize>>,
    )
        requires
            pre.files_ok(),
            post.tasks_wf(),
            pid <= pre.tasks@.len(),
            pid < pre.tasks@.len() ==> !pre.live(pid),
            post.live(pid),
            post.task(pid).fd_table@ == table,
            post.tasks@.len() == if pid < pre.tasks@.len() {
                pre.tasks@.len()
            } else {
                pre.tasks@.len() + 1
            },
            parent matches Some(q) ==> pre.live(q) && post.live(q) && post.task(q).fd_table
                == pre.task(q).fd_table,
            forall|p: usize|
                p != pid && parent != Some(p) && p < pre.tasks@.len() ==> #[trigger] post.tasks@[p as int]
                    == pre.tasks@[p as int],
            forall|h: usize|
                #[trigger] entry_refs(post.files@, h) == entry_refs(pre.files@, h) + refs_in(
                    table,
                    h,
                ),
            forall|h: usize| #[trigger] refs_in(table, h) <= 1,
        ensures
            post.wf(),
    {
        assert forall|q: int| 0 <= q < pre.tasks@.len() && q != pid implies fds_of(
            #[trigger] post.tasks@[q],
        ) == fds_of(pre.tasks@[q]) by {
            let p = q as usize;
            if parent != Some(p) {
                assert(post.tasks@[p as int] == pre.tasks@[p as int]);
            }
        }
        assert forall|h: usize|
            #[trigger] entry_refs(post.files@, h) + (if 0 <= pid < pre.tasks@.len() {
                refs_of(pre.tasks@[pid as int], h)
            } else {
                0
            }) == entry_refs(pre.files@, h) + (if 0 <= pid < post.tasks@.len() {
                refs_of(post.tasks@[pid as int], h)
            } else {
                0
            }) by {
            assert(entry_refs(post.files@, h) == entry_refs(pre.files@, h) + refs_in(table, h));
            if pid < pre.tasks@.len() {
                assert(fds_of(pre.tasks@[pid as int]) =~= Seq::<Option<usize>>::empty());
            }
        }
        assert forall|h: usize|
            0 <= pid < post.tasks@.len() implies #[trigger] refs_of(post.tasks@[pid as int], h)
            <= 1 by {
            assert(refs_in(table, h) <= 1);
        }
        Self::lemma_files_step(pre, post, pid as int);
    }

    /// No task counts more descriptors for an open file than the entry of
    /// the file does, and no task counts more than one.
    pub proof fn lemma_task_refs(&self, p: usize, h: usize)
        requires
            self.files_ok(),
            self.live(p),
        ensures
            refs_in(self.task(p).fd_table@, h) <= entry_refs(self.files@, h),
            refs_in(self.task(p).fd_table@, h) <= 1,
            entry_refs(self.files@, h) <= self.tasks@.len(),
    {
        assert forall|q: int| 0 <= q < self.tasks@.len() implies refs_of(
            #[trigger] self.tasks@[q],
            h,
        ) <= 1 by {}
        lemma_refs_among_bound(self.tasks@, self.tasks@.len() as int, -1, h);
        assert(refs_of(self.tasks@[p as int], h) <= self.refs_to(h));
        assert(entry_refs(self.files@, h) == self.refs_to(h));
    }

    /// The kernel stays well formed when only the allocator of frames
    /// changes.
    pub proof fn lemma_wf_frames(pre: &Kernel, post: &Kernel)
        requires
            pre.wf(),
            post.frames.wf(),
            post.pids == pre.pids,
            post.tasks == pre.tasks,
            post.manager == pre.manager,
            post.current == pre.current,
            forall|h: usize| #[trigger] entry_refs(post.files@, h) == entry_refs(pre.files@, h),
        ensures
            post.wf(),
    {
        Self::lemma_tasks_frames(pre, post);
        Self::lemma_files_same(pre, post);
    }

    /// Tasks that are not there count nothing.
    pub proof fn lemma_refs_among_tail(
        tasks: Seq<Option<TaskControlBlock>>,
        n: int,
        m: int,
        p: int,
        h: usize,
    )
        requires
            0 <= n <= m <= tasks.len(),
            forall|q: int| n <= q < m && q != p ==> (#[trigger] tasks[q]) is None,
        ensures
            refs_among(tasks, m, h) == refs_among(tasks, n, h) + (if n <= p < m {
                refs_of(tasks[p], h)
            } else {
                0
            }),
        decreases m - n,
    {
        if n < m {
            Self::lemma_refs_among_tail(tasks, n, m - 1, p, h);
            if m - 1 != p {
                assert(tasks[m - 1] is None);
            }
        }
    }
}

} // verus!

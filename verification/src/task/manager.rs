//! The ready queue, with its two ways of choosing the next task: first in,
//! first out, and smallest stride first.

use vstd::prelude::*;
use std::collections::VecDeque;
use crate::config::BIG_STRIDE;
use crate::task::task::TaskControlBlock;

verus! {

/// The queue of the tasks that are ready to run, by process identifier.
pub struct TaskManager {
    ready_queue: VecDeque<usize>,
}

impl TaskManager {
    /// The identifiers in the queue, the front first.
    pub closed spec fn view(&self) -> Seq<usize> {
        self.ready_queue@
    }

    /// The empty queue.
    pub fn new() -> (r: TaskManager)
        ensures
            r@ == Seq::<usize>::empty(),
    {
        TaskManager { ready_queue: VecDeque::new() }
    }

    /// Puts a task at the back of the queue.
    pub fn add(&mut self, task: usize)
        ensures
            final(self)@ == old(self)@.push(task),
    {
        self.ready_queue.push_back(task);
    }

    /// Takes the task at the front out of the queue.
    pub fn fetch(&mut self) -> (r: Option<usize>)
        ensures
            r == if old(self)@.len() == 0 {
                None::<usize>
            } else {
                Some(old(self)@[0])
            },
            final(self)@ == if old(self)@.len() == 0 {
                old(self)@
            } else {
                old(self)@.drop_first()
            },
    {
        self.ready_queue.pop_front()
    }
}

/// Puts a task at the back of the ready queue.
pub fn add_task(manager: &mut TaskManager, task: usize)
    ensures
        final(manager)@ == old(manager)@.push(task),
{
    manager.add(task);
}

/// Takes the task at the front out of the ready queue.
pub fn fetch_task(manager: &mut TaskManager) -> (r: Option<usize>)
    ensures
        r == if old(manager)@.len() == 0 {
            None::<usize>
        } else {
            Some(old(manager)@[0])
        },
        final(manager)@ == if old(manager)@.len() == 0 {
            old(manager)@
        } else {
            old(manager)@.drop_first()
        },
{
    manager.fetch()
}

/// The number of tasks in the ready queue.
pub fn get_length(manager: &TaskManager) -> (r: usize)
    ensures
        r == manager@.len(),
{
    manager.ready_queue.len()
}

/// Whether the table holds a task under the identifier `pid`.
pub open spec fn is_live(tasks: Seq<Option<TaskControlBlock>>, pid: usize) -> bool {
    pid < tasks.len() && tasks[pid as int] is Some
}

/// The stride of the task `pid`.
pub open spec fn stride_of(tasks: Seq<Option<TaskControlBlock>>, pid: usize) -> u64 {
    tasks[pid as int]->0.stride
}

/// Whether `k` is the position of the first task of the smallest stride in
/// `queue`: no task of the queue has a smaller stride, and every task
/// before it has a greater one.
pub open spec fn is_first_least(
    tasks: Seq<Option<TaskControlBlock>>,
    queue: Seq<usize>,
    k: int,
) -> bool {
    &&& 0 <= k < queue.len()
    &&& forall|j: int|
        0 <= j < queue.len() ==> stride_of(tasks, queue[k]) <= stride_of(tasks, #[trigger] queue[j])
    &&& forall|j: int| 0 <= j < k ==> stride_of(tasks, queue[k]) < stride_of(tasks, #[trigger] queue[j])
}

/// The position of the first task of the smallest stride in a queue that is
/// not empty.
pub open spec fn first_least(tasks: Seq<Option<TaskControlBlock>>, queue: Seq<usize>) -> int {
    choose|k: int| is_first_least(tasks, queue, k)
}

/// What [`find_smallest_stride`] chooses from `queue`, and the queue that it
/// leaves behind: the first task of the smallest stride, and the queue
/// without it, in the order of before.
pub open spec fn smallest_stride(tasks: Seq<Option<TaskControlBlock>>, queue: Seq<usize>) -> Option<
    (usize, Seq<usize>),
> {
    if queue.len() == 0 {
        None
    } else {
        let k = first_least(tasks, queue);
        Some((queue[k], queue.remove(k)))
    }
}

/// Among the first `n` tasks of a queue, some task is the first of the
/// smallest stride.
pub proof fn lemma_least_of_prefix(
    tasks: Seq<Option<TaskControlBlock>>,
    queue: Seq<usize>,
    n: int,
) -> (k: int)
    requires
        1 <= n <= queue.len(),
    ensures
        is_first_least(tasks, queue.take(n), k),
    decreases n,
{
    if n == 1 {
        0
    } else {
        let before = lemma_least_of_prefix(tasks, queue, n - 1);
        let k = if stride_of(tasks, queue[n - 1]) < stride_of(tasks, queue[before]) {
            n - 1
        } else {
            before
        };
        assert forall|j: int| 0 <= j < n implies stride_of(tasks, queue.take(n)[k]) <= stride_of(
            tasks,
            #[trigger] queue.take(n)[j],
        ) by {
            if j < n - 1 {
                assert(queue.take(n - 1)[j] == queue[j]);
            }
        }
        assert forall|j: int| 0 <= j < k implies stride_of(tasks, queue.take(n)[k]) < stride_of(
            tasks,
            #[trigger] queue.take(n)[j],
        ) by {
            assert(queue.take(n - 1)[j] == queue[j]);
        }
        k
    }
}

/// A queue has one position only that is the first of the smallest stride.
pub proof fn lemma_first_least_unique(
    tasks: Seq<Option<TaskControlBlock>>,
    queue: Seq<usize>,
    k: int,
)
    requires
        is_first_least(tasks, queue, k),
    ensures
        first_least(tasks, queue) == k,
{
    let other = first_least(tasks, queue);
    assert(is_first_least(tasks, queue, other));
    if other < k {
        assert(stride_of(tasks, queue[k]) < stride_of(tasks, queue[other]));
        assert(stride_of(tasks, queue[other]) <= stride_of(tasks, queue[k]));
    } else if k < other {
        assert(stride_of(tasks, queue[other]) < stride_of(tasks, queue[k]));
        assert(stride_of(tasks, queue[k]) <= stride_of(tasks, queue[other]));
    }
}

/// The choice depends on the tasks only through the strides of those in the
/// queue.
pub proof fn lemma_smallest_by_strides(
    tasks: Seq<Option<TaskControlBlock>>,
    others: Seq<Option<TaskControlBlock>>,
    queue: Seq<usize>,
)
    requires
        forall|i: int|
            0 <= i < queue.len() ==> stride_of(tasks, #[trigger] queue[i]) == stride_of(
                others,
                queue[i],
            ),
    ensures
        smallest_stride(tasks, queue) == smallest_stride(others, queue),
{
    if queue.len() > 0 {
        lemma_smallest_stride(tasks, queue);
        let k = first_least(tasks, queue);
        assert(is_first_least(others, queue, k));
        lemma_first_least_unique(others, queue, k);
    }
}

/// The task that is chosen has a stride that no task of the queue
/// undercuts, it is the first such task, and the queue that is left is the
/// queue of before without it: it holds every other task as often as
/// before, in the same order.
pub proof fn lemma_smallest_stride(tasks: Seq<Option<TaskControlBlock>>, queue: Seq<usize>)
    requires
        queue.len() > 0,
    ensures
        is_first_least(tasks, queue, first_least(tasks, queue)),
        smallest_stride(tasks, queue) matches Some((chosen, left)) && {
            &&& queue.contains(chosen)
            &&& forall|j: int|
                0 <= j < queue.len() ==> stride_of(tasks, chosen) <= stride_of(
                    tasks,
                    #[trigger] queue[j],
                )
            &&& left.len() == queue.len() - 1
            &&& left.to_multiset().insert(chosen) == queue.to_multiset()
        },
{
    let found = lemma_least_of_prefix(tasks, queue, queue.len() as int);
    assert(queue.take(queue.len() as int) =~= queue);
    let k = first_least(tasks, queue);
    assert(is_first_least(tasks, queue, k));
    vstd::seq_lib::to_multiset_remove(queue, k);
    assert(queue.to_multiset().remove(queue[k]).insert(queue[k]) =~= queue.to_multiset()) by {
        broadcast use vstd::seq_lib::group_to_multiset_ensures;
        broadcast use vstd::multiset::group_multiset_axioms;

        assert(queue.to_multiset().count(queue[k]) > 0);
    }
}

/// Of a queue in which no task stands twice, the queue that is left holds
/// no task twice, does not hold the chosen task, and holds only tasks of the
/// queue.
pub proof fn lemma_smallest_stride_distinct(tasks: Seq<Option<TaskControlBlock>>, queue: Seq<usize>)
    requires
        queue.len() > 0,
        queue.no_duplicates(),
    ensures
        smallest_stride(tasks, queue) matches Some((chosen, left)) && {
            &&& left.no_duplicates()
            &&& !left.contains(chosen)
            &&& forall|x: usize| left.contains(x) ==> queue.contains(x)
            &&& forall|x: usize| queue.contains(x) && x != chosen ==> left.contains(x)
        },
{
    broadcast use vstd::seq_lib::group_to_multiset_ensures;
    broadcast use vstd::multiset::group_multiset_axioms;

    lemma_smallest_stride(tasks, queue);
    let (chosen, left) = smallest_stride(tasks, queue)->0;
    queue.lemma_multiset_has_no_duplicates();
    assert(queue.to_multiset().count(chosen) == 1);
    assert forall|x: usize| left.to_multiset().contains(x) implies left.to_multiset().count(x)
        == 1 by {
        assert(left.to_multiset().insert(chosen).count(x) >= left.to_multiset().count(x));
        assert(queue.to_multiset().contains(x));
    }
    left.lemma_multiset_has_no_duplicates_conv();
    assert(!left.contains(chosen)) by {
        if left.contains(chosen) {
            assert(left.to_multiset().count(chosen) > 0);
            assert(left.to_multiset().insert(chosen).count(chosen) == left.to_multiset().count(
                chosen,
            ) + 1);
        }
    }
    assert forall|x: usize| left.contains(x) implies queue.contains(x) by {
        assert(left.to_multiset().count(x) > 0);
        assert(left.to_multiset().insert(chosen).count(x) >= left.to_multiset().count(x));
        assert(queue.to_multiset().count(x) > 0);
    }
    assert forall|x: usize| queue.contains(x) && x != chosen implies left.contains(x) by {
        assert(queue.to_multiset().count(x) > 0);
        assert(left.to_multiset().insert(chosen).count(x) == left.to_multiset().count(x));
    }
}

/// Takes the task of the smallest stride out of the ready queue: the first
/// one, where several have it. The queue is turned round twice, task by
/// task from the front to the back: once to find the task, and once more to
/// leave it out, so that the other tasks stay in their order.
pub fn find_smallest_stride(manager: &mut TaskManager, tasks: &Vec<Option<TaskControlBlock>>) -> (r:
    Option<usize>)
    requires
        forall|i: int| 0 <= i < old(manager)@.len() ==> is_live(tasks@, #[trigger] old(manager)@[i]),
    ensures
        old(manager)@.len() == 0 ==> r is None && final(manager)@ == old(manager)@,
        old(manager)@.len() > 0 ==> {
            let k = first_least(tasks@, old(manager)@);
            &&& is_first_least(tasks@, old(manager)@, k)
            &&& r == Some(old(manager)@[k])
            &&& final(manager)@ == old(manager)@.remove(k)
        },
        match smallest_stride(tasks@, old(manager)@) {
            Some((chosen, left)) => r == Some(chosen) && final(manager)@ == left,
            None => r is None && final(manager)@ == old(manager)@,
        },
{
    let ghost queue = manager@;
    let length = get_length(manager);
    if length == 0 {
        return None;
    }
    let mut min_stride_task: usize = 0;
    let mut min_stride: u64 = 0;
    let mut best: usize = 0;
    let mut k: usize = 0;
    while k < length
        invariant
            0 <= k <= length,
            length == queue.len(),
            forall|i: int| 0 <= i < queue.len() ==> is_live(tasks@, #[trigger] queue[i]),
            manager@ == queue.subrange(k as int, length as int) + queue.subrange(0, k as int),
            k > 0 ==> is_first_least(tasks@, queue.take(k as int), best as int),
            k > 0 ==> min_stride_task == queue[best as int] && min_stride == stride_of(
                tasks@,
                min_stride_task,
            ),
        decreases length - k,
    {
        let task = match fetch_task(manager) {
            Some(t) => t,
            None => {
                return None;
            },
        };
        assert(task == queue[k as int]);
        let stride: u64 = match &tasks[task] {
            Some(t) => t.stride,
            None => 0,
        };
        let ghost before = best as int;
        if k == 0 || stride < min_stride {
            min_stride = stride;
            min_stride_task = task;
            best = k;
        }
        add_task(manager, task);
        proof {
            assert(manager@ =~= queue.subrange(k + 1, length as int) + queue.subrange(0, k + 1));
            let n = k + 1;
            assert forall|j: int| 0 <= j < n implies stride_of(
                tasks@,
                queue.take(n)[best as int],
            ) <= stride_of(tasks@, #[trigger] queue.take(n)[j]) by {
                if j < k {
                    assert(queue.take(k as int)[j] == queue[j]);
                    assert(queue.take(k as int)[before] == queue[before]);
                }
            }
            assert forall|j: int| 0 <= j < best implies stride_of(
                tasks@,
                queue.take(n)[best as int],
            ) < stride_of(tasks@, #[trigger] queue.take(n)[j]) by {
                assert(queue.take(k as int)[j] == queue[j]);
                assert(queue.take(k as int)[before] == queue[before]);
            }
        }
        k = k + 1;
    }
    proof {
        assert(queue.take(length as int) =~= queue);
        assert(manager@ =~= queue);
        lemma_first_least_unique(tasks@, queue, best as int);
    }
    let mut i: usize = 0;
    while i < length
        invariant
            0 <= i <= length,
            best < length,
            length == queue.len(),
            manager@ == if i <= best {
                queue.subrange(i as int, length as int) + queue.subrange(0, i as int)
            } else {
                queue.subrange(i as int, length as int) + queue.remove(best as int).subrange(
                    0,
                    i - 1,
                )
            },
        decreases length - i,
    {
        let task = match fetch_task(manager) {
            Some(t) => t,
            None => {
                return None;
            },
        };
        assert(task == queue[i as int]);
        if i != best {
            add_task(manager, task);
        }
        proof {
            if i < best {
                assert(manager@ =~= queue.subrange(i + 1, length as int) + queue.subrange(
                    0,
                    i + 1,
                ));
            } else if i == best {
                assert(manager@ =~= queue.subrange(i + 1, length as int) + queue.remove(
                    best as int,
                ).subrange(0, i as int));
            } else {
                assert(manager@ =~= queue.subrange(i + 1, length as int) + queue.remove(
                    best as int,
                ).subrange(0, i as int));
            }
        }
        i = i + 1;
    }
    proof {
        assert(manager@ =~= queue.remove(best as int));
    }
    Some(min_stride_task)
}

/// The stride that a task of priority `priority` advances by on each
/// selection.
pub open spec fn pass_of(priority: int) -> int {
    BIG_STRIDE as int / priority
}

/// A run of the stride scheduler on tasks that are always ready: the
/// selections so far, as positions in `priorities`.
/// `count(picks, i)` is how often the task at position `i` was selected.
pub open spec fn count(picks: Seq<int>, i: int) -> int
    decreases picks.len(),
{
    if picks.len() == 0 {
        0
    } else {
        count(picks.drop_last(), i) + if picks.last() == i {
            1int
        } else {
            0int
        }
    }
}

/// The stride of the task at position `i` after the selections `picks`: its
/// pass times the number of its selections.
pub open spec fn stride_after(priorities: Seq<int>, picks: Seq<int>, i: int) -> int {
    count(picks, i) * pass_of(priorities[i])
}

/// Whether `picks` is a run of the stride scheduler: each selection falls on
/// a task whose stride no other task undercuts at that moment.
pub open spec fn is_stride_run(priorities: Seq<int>, picks: Seq<int>) -> bool
    decreases picks.len(),
{
    if picks.len() == 0 {
        true
    } else {
        &&& is_stride_run(priorities, picks.drop_last())
        &&& 0 <= picks.last() < priorities.len()
        &&& forall|j: int|
            0 <= j < priorities.len() ==> stride_after(priorities, picks.drop_last(), picks.last())
                <= #[trigger] stride_after(priorities, picks.drop_last(), j)
    }
}

/// The law of stride scheduling. In every run on tasks that are always
/// ready, each of priority at least 2 and all starting with stride zero, the
/// strides of two tasks never differ by more than the pass of the one that
/// is ahead: with `n` for the number of selections and `pass` for
/// `BIG_STRIDE / priority`, `n_i * pass_i - n_j * pass_j <= pass_i`, and so
/// no two strides differ by more than half of `BIG_STRIDE`.
pub proof fn lemma_stride_fairness(priorities: Seq<int>, picks: Seq<int>, i: int, j: int)
    requires
        forall|k: int| 0 <= k < priorities.len() ==> #[trigger] priorities[k] >= 2,
        is_stride_run(priorities, picks),
        0 <= i < priorities.len(),
        0 <= j < priorities.len(),
    ensures
        stride_after(priorities, picks, i) - stride_after(priorities, picks, j) <= pass_of(
            priorities[i],
        ),
        stride_after(priorities, picks, i) - stride_after(priorities, picks, j) <= BIG_STRIDE / 2,
        stride_after(priorities, picks, j) - stride_after(priorities, picks, i) <= BIG_STRIDE / 2,
    decreases picks.len(),
{
    lemma_pass_bounds(priorities[i]);
    lemma_pass_bounds(priorities[j]);
    lemma_stride_lag(priorities, picks, i, j);
    lemma_stride_lag(priorities, picks, j, i);
}

/// Between two tasks of one priority, of at least 2 and at most
/// `BIG_STRIDE`, the numbers of selections never differ by more than one,
/// and so their products with the priority differ by at most `BIG_STRIDE`.
pub proof fn lemma_stride_fairness_of_equals(
    priorities: Seq<int>,
    picks: Seq<int>,
    i: int,
    j: int,
)
    requires
        forall|k: int| 0 <= k < priorities.len() ==> #[trigger] priorities[k] >= 2,
        is_stride_run(priorities, picks),
        0 <= i < priorities.len(),
        0 <= j < priorities.len(),
        priorities[i] == priorities[j],
        priorities[i] <= BIG_STRIDE,
    ensures
        count(picks, i) - count(picks, j) <= 1,
        count(picks, i) * priorities[i] - count(picks, j) * priorities[j] <= BIG_STRIDE,
{
    lemma_stride_lag(priorities, picks, i, j);
    let p = priorities[i];
    let pass = pass_of(p);
    let ni = count(picks, i);
    let nj = count(picks, j);
    assert(pass >= 1) by (nonlinear_arith)
        requires
            pass == 0x10_0000int / p,
            2 <= p <= 0x10_0000,
    ;
    assert(ni - nj <= 1) by (nonlinear_arith)
        requires
            ni * pass - pass <= nj * pass,
            pass >= 1,
    ;
    assert(ni * p - nj * p <= p) by (nonlinear_arith)
        requires
            ni - nj <= 1,
            p >= 2,
    ;
}

/// Proportional share. Between two tasks whose priorities, of at least 2,
/// divide `BIG_STRIDE`, the numbers of selections stand in the ratio of the
/// priorities, up to one selection: with `n` for the number of selections
/// and `p` for the priority, `n_i * p_j - n_j * p_i <= p_j`.
pub proof fn lemma_stride_shares(priorities: Seq<int>, picks: Seq<int>, i: int, j: int)
    requires
        forall|k: int| 0 <= k < priorities.len() ==> #[trigger] priorities[k] >= 2,
        is_stride_run(priorities, picks),
        0 <= i < priorities.len(),
        0 <= j < priorities.len(),
        BIG_STRIDE as int % priorities[i] == 0,
        BIG_STRIDE as int % priorities[j] == 0,
    ensures
        count(picks, i) * priorities[j] - count(picks, j) * priorities[i] <= priorities[j],
{
    lemma_stride_lag(priorities, picks, i, j);
    let pi = priorities[i];
    let pj = priorities[j];
    let a = pass_of(pi);
    let b = pass_of(pj);
    let ni = count(picks, i);
    let nj = count(picks, j);
    let big = BIG_STRIDE as int;
    assert(a * pi == big) by (nonlinear_arith)
        requires
            a == big / pi,
            big % pi == 0,
            pi >= 2,
    ;
    assert(b * pj == big) by (nonlinear_arith)
        requires
            b == big / pj,
            big % pj == 0,
            pj >= 2,
    ;
    assert((ni * a - a) * (pi * pj) <= (nj * b) * (pi * pj)) by (nonlinear_arith)
        requires
            ni * a - a <= nj * b,
            pi >= 2,
            pj >= 2,
    ;
    assert((ni * a - a) * (pi * pj) == (ni * pj - pj) * (a * pi)) by (nonlinear_arith);
    assert((nj * b) * (pi * pj) == (nj * pi) * (b * pj)) by (nonlinear_arith);
    assert(ni * pj - pj <= nj * pi) by (nonlinear_arith)
        requires
            (ni * pj - pj) * big <= (nj * pi) * big,
            big > 0,
    ;
}

/// Whether the tasks `tasks`, each of them in the ready queue `queue`, stand
/// where the selections `picks` have brought them: the task at position `k`
/// has the priority `priorities[k]` and the stride that `picks` gives it.
pub open spec fn follows(
    tasks: Seq<Option<TaskControlBlock>>,
    queue: Seq<usize>,
    priorities: Seq<int>,
    picks: Seq<int>,
) -> bool {
    &&& tasks.len() == priorities.len()
    &&& tasks.len() <= usize::MAX
    &&& forall|k: int|
        0 <= k < tasks.len() ==> {
            &&& (#[trigger] tasks[k]) is Some
            &&& tasks[k]->0.priority == priorities[k]
            &&& tasks[k]->0.stride == stride_after(priorities, picks, k)
            &&& queue.contains(k as usize)
        }
    &&& forall|i: int| 0 <= i < queue.len() ==> (#[trigger] queue[i]) < tasks.len()
}

/// What [`find_smallest_stride`] chooses extends a run of the stride
/// scheduler, and the stride that the chosen task advances to is the one
/// that the longer run gives it, as long as it fits a machine word.
pub proof fn lemma_selection_extends_run(
    tasks: Seq<Option<TaskControlBlock>>,
    queue: Seq<usize>,
    priorities: Seq<int>,
    picks: Seq<int>,
)
    requires
        forall|k: int| 0 <= k < priorities.len() ==> #[trigger] priorities[k] >= 2,
        is_stride_run(priorities, picks),
        follows(tasks, queue, priorities, picks),
        tasks.len() > 0,
    ensures
        smallest_stride(tasks, queue) matches Some((chosen, left)) && {
            let longer = picks.push(chosen as int);
            &&& chosen < tasks.len()
            &&& is_stride_run(priorities, longer)
            &&& stride_after(priorities, longer, chosen as int) <= u64::MAX
                ==> tasks[chosen as int]->0.next_stride() == stride_after(
                priorities,
                longer,
                chosen as int,
            )
            &&& forall|k: int|
                0 <= k < tasks.len() && k != chosen ==> stride_after(priorities, longer, k)
                    == stride_after(priorities, picks, k)
        },
{
    assert(tasks[0] is Some);
    assert(queue.contains(0usize));
    lemma_smallest_stride(tasks, queue);
    let (chosen, left) = smallest_stride(tasks, queue)->0;
    let longer = picks.push(chosen as int);
    let pos = choose|pos: int| 0 <= pos < queue.len() && queue[pos] == chosen;
    assert(queue[pos] < tasks.len());
    assert(longer.drop_last() =~= picks);
    assert forall|j: int| 0 <= j < priorities.len() implies stride_after(
        priorities,
        picks,
        chosen as int,
    ) <= #[trigger] stride_after(priorities, picks, j) by {
        assert(tasks[j] is Some);
        assert(queue.contains(j as usize));
        let at = choose|at: int| 0 <= at < queue.len() && queue[at] == j as usize;
        assert(queue[at] as int == j);
        assert(stride_of(tasks, chosen) <= stride_of(tasks, queue[at]));
        assert(tasks[chosen as int] is Some);
    }
    let n = count(picks, chosen as int);
    let pass = pass_of(priorities[chosen as int]);
    assert(tasks[chosen as int] is Some);
    assert(count(longer, chosen as int) == n + 1);
    assert((n + 1) * pass == n * pass + pass) by (nonlinear_arith);
    lemma_pass_bounds(priorities[chosen as int]);
    assert forall|k: int| 0 <= k < tasks.len() && k != chosen implies stride_after(
        priorities,
        longer,
        k,
    ) == stride_after(priorities, picks, k) by {
        assert(count(longer, k) == count(picks, k));
    }
}

/// The pass of a task of priority at least 2 is not negative and at most
/// half of `BIG_STRIDE`.
pub proof fn lemma_pass_bounds(priority: int)
    requires
        priority >= 2,
    ensures
        0 <= pass_of(priority) <= BIG_STRIDE / 2,
{
    assert(0 <= 0x10_0000int / priority <= 0x10_0000int / 2) by (nonlinear_arith)
        requires
            priority >= 2,
    ;
}

/// In a run of the stride scheduler, the stride that a task had before its
/// last selection is at most the stride of any other task.
pub proof fn lemma_stride_lag(priorities: Seq<int>, picks: Seq<int>, i: int, j: int)
    requires
        forall|k: int| 0 <= k < priorities.len() ==> #[trigger] priorities[k] >= 2,
        is_stride_run(priorities, picks),
        0 <= i < priorities.len(),
        0 <= j < priorities.len(),
    ensures
        stride_after(priorities, picks, i) - pass_of(priorities[i]) <= stride_after(
            priorities,
            picks,
            j,
        ),
        0 <= count(picks, i),
    decreases picks.len(),
{
    lemma_pass_bounds(priorities[i]);
    lemma_pass_bounds(priorities[j]);
    let pi = pass_of(priorities[i]);
    let pj = pass_of(priorities[j]);
    if picks.len() == 0 {
        assert(count(picks, i) * pi == 0) by (nonlinear_arith)
            requires
                count(picks, i) == 0,
        ;
        assert(count(picks, j) * pj == 0) by (nonlinear_arith)
            requires
                count(picks, j) == 0,
        ;
    } else {
        let prev = picks.drop_last();
        let k = picks.last();
        lemma_stride_lag(priorities, prev, i, j);
        lemma_stride_lag(priorities, prev, j, i);
        let ni = count(prev, i);
        let nj = count(prev, j);
        assert((ni + 1) * pi == ni * pi + pi) by (nonlinear_arith);
        assert((nj + 1) * pj == nj * pj + pj) by (nonlinear_arith);
        assert(stride_after(priorities, prev, k) <= stride_after(priorities, prev, j));
        assert(stride_after(priorities, prev, k) <= stride_after(priorities, prev, i));
        if k == i {
            assert(stride_after(priorities, picks, i) == ni * pi + pi);
        } else {
            assert(stride_after(priorities, picks, i) == ni * pi);
        }
        if k == j {
            assert(stride_after(priorities, picks, j) == nj * pj + pj);
        } else {
            assert(stride_after(priorities, picks, j) == nj * pj);
        }
    }
}

} // verus!

use os_core::config::BIG_STRIDE;
use os_core::mm::address::PhysPageNum;
use os_core::mm::frame_allocator::FrameAllocator;
use os_core::mm::memory_set::MemorySet;
use os_core::task::context::{TaskContext, TrapContext};
use os_core::task::manager::{add_task, fetch_task, find_smallest_stride, get_length, TaskManager};
use os_core::task::pid::PidAllocator;
use os_core::task::task::{TaskControlBlock, TaskStatus};

fn task(alloc: &mut FrameAllocator, pid: usize, stride: u64, priority: u64) -> Option<TaskControlBlock> {
    Some(TaskControlBlock {
        pid,
        kernel_stack_top: 0,
        task_status: TaskStatus::Ready,
        task_cx: TaskContext::zero_init(),
        trap_cx: TrapContext::app_init_context(0, 0, 0, 0, 0),
        memory_set: MemorySet::new_bare(alloc).unwrap(),
        parent: None,
        children: Vec::new(),
        exit_code: 0,
        fd_table: Vec::new(),
        heap_bottom: 0,
        program_brk: 0,
        stride,
        priority,
        syscall_times: vec![0; 500],
        start_time: None,
    })
}

fn table(strides: &[u64]) -> Vec<Option<TaskControlBlock>> {
    let mut alloc = FrameAllocator::new(PhysPageNum(1), PhysPageNum(100));
    strides.iter().enumerate().map(|(i, s)| task(&mut alloc, i, *s, 16)).collect()
}

fn drain(manager: &mut TaskManager) -> Vec<usize> {
    let mut out = Vec::new();
    while let Some(t) = fetch_task(manager) {
        out.push(t);
    }
    out
}

#[test]
fn the_queue_is_first_in_first_out() {
    let mut m = TaskManager::new();
    assert_eq!(get_length(&m), 0);
    assert_eq!(m.fetch(), None);
    m.add(3);
    add_task(&mut m, 1);
    m.add(2);
    assert_eq!(get_length(&m), 3);
    assert_eq!(fetch_task(&mut m), Some(3));
    assert_eq!(m.fetch(), Some(1));
    assert_eq!(get_length(&m), 1);
    assert_eq!(m.fetch(), Some(2));
    assert_eq!(fetch_task(&mut m), None);
}

#[test]
fn the_smallest_stride_is_chosen_and_the_rest_keeps_its_order() {
    let tasks = table(&[5, 7, 3]);
    let mut m = TaskManager::new();
    for t in [0, 1, 2] {
        m.add(t);
    }
    assert_eq!(find_smallest_stride(&mut m, &tasks), Some(2));
    assert_eq!(drain(&mut m), vec![0, 1]);
    let tasks = table(&[5, 6, 3, 4, 3, 8]);
    let mut m = TaskManager::new();
    for t in [5, 0, 1, 2, 3, 4] {
        m.add(t);
    }
    assert_eq!(find_smallest_stride(&mut m, &tasks), Some(2));
    assert_eq!(drain(&mut m), vec![5, 0, 1, 3, 4]);
}

#[test]
fn the_first_of_equal_strides_is_chosen() {
    let tasks = table(&[4, 2, 9, 2, 4]);
    let mut m = TaskManager::new();
    for t in [4, 3, 2, 1, 0] {
        m.add(t);
    }
    assert_eq!(find_smallest_stride(&mut m, &tasks), Some(3));
    assert_eq!(drain(&mut m), vec![4, 2, 1, 0]);
    let mut m = TaskManager::new();
    for t in [0, 1, 2] {
        m.add(t);
    }
    assert_eq!(find_smallest_stride(&mut m, &tasks), Some(1));
    assert_eq!(drain(&mut m), vec![0, 2]);
}

#[test]
fn an_empty_queue_gives_no_task_and_a_single_task_is_chosen() {
    let tasks = table(&[4, 2]);
    let mut m = TaskManager::new();
    assert_eq!(find_smallest_stride(&mut m, &tasks), None);
    m.add(0);
    assert_eq!(find_smallest_stride(&mut m, &tasks), Some(0));
    assert_eq!(get_length(&m), 0);
}

#[test]
fn the_pass_is_big_stride_over_priority() {
    let mut tasks = table(&[0]);
    let t = tasks[0].as_mut().unwrap();
    assert_eq!(BIG_STRIDE, 0x10_0000);
    assert_eq!(t.pass(), 0x10_0000 / 16);
    t.priority = 2;
    assert_eq!(t.pass(), 0x8_0000);
    t.priority = 3;
    assert_eq!(t.pass(), 349525);
    t.advance_stride();
    t.advance_stride();
    assert_eq!(t.stride, 699050);
    t.stride = u64::MAX - 10;
    t.advance_stride();
    assert_eq!(t.stride, 349525 - 11);
}

#[test]
fn strides_of_two_busy_tasks_stay_within_a_pass() {
    // priorities 5 and 10: the second advances half as far on each selection
    let mut tasks = table(&[0, 0]);
    tasks[0].as_mut().unwrap().priority = 5;
    tasks[1].as_mut().unwrap().priority = 10;
    let pass = [BIG_STRIDE as u64 / 5, BIG_STRIDE as u64 / 10];
    let mut m = TaskManager::new();
    m.add(0);
    m.add(1);
    let mut count = [0u64; 2];
    while tasks[0].as_ref().unwrap().stride < 3 * BIG_STRIDE as u64
        || tasks[1].as_ref().unwrap().stride < 3 * BIG_STRIDE as u64
    {
        let t = find_smallest_stride(&mut m, &tasks).unwrap();
        tasks[t].as_mut().unwrap().advance_stride();
        count[t] += 1;
        m.add(t);
        let snap_a = tasks[0].as_ref().unwrap().stride;
        let snap_b = tasks[1].as_ref().unwrap().stride;
        assert_eq!(snap_a, count[0] * pass[0]);
        assert_eq!(snap_b, count[1] * pass[1]);
        assert!(snap_a.abs_diff(snap_b) <= pass[0]);
        assert!(snap_a.abs_diff(snap_b) <= BIG_STRIDE as u64 / 2);
    }
    // the task of priority 10 ran twice as often, up to rounding
    assert!(count[0] == 15 || count[0] == 16);
    assert!(count[1] >= 2 * count[0] - 2 && count[1] <= 2 * count[0] + 2);
    assert!(count[0] * 5 * 2 >= 3 * 10 * 5 - 10);
}

#[test]
fn tasks_of_one_priority_take_turns() {
    let mut tasks = table(&[0, 0, 0]);
    for t in tasks.iter_mut() {
        t.as_mut().unwrap().priority = 7;
    }
    let mut m = TaskManager::new();
    for t in [0, 1, 2] {
        m.add(t);
    }
    let mut count = [0u64; 3];
    for _ in 0..100 {
        let t = find_smallest_stride(&mut m, &tasks).unwrap();
        tasks[t].as_mut().unwrap().advance_stride();
        count[t] += 1;
        m.add(t);
        for i in 0..3 {
            for j in 0..3 {
                assert!(count[i] <= count[j] + 1);
                assert!(count[i] * 7 <= count[j] * 7 + BIG_STRIDE as u64);
            }
        }
    }
    count.sort();
    assert_eq!(count, [33, 33, 34]);
}

#[test]
fn selections_stand_in_the_ratio_of_the_priorities() {
    // both priorities divide the big stride
    let prio = [4u64, 16, 8];
    let mut tasks = table(&[0, 0, 0]);
    for (t, p) in tasks.iter_mut().zip(prio) {
        t.as_mut().unwrap().priority = p;
    }
    let mut m = TaskManager::new();
    for t in [0, 1, 2] {
        m.add(t);
    }
    let mut count = [0u64; 3];
    for _ in 0..700 {
        let t = find_smallest_stride(&mut m, &tasks).unwrap();
        tasks[t].as_mut().unwrap().advance_stride();
        count[t] += 1;
        m.add(t);
        for i in 0..3 {
            for j in 0..3 {
                assert!(count[i] * prio[j] <= count[j] * prio[i] + prio[j]);
            }
        }
    }
    assert_eq!(count.iter().sum::<u64>(), 700);
    for (n, share) in count.iter().zip([100u64, 400, 200]) {
        assert!(n.abs_diff(share) <= 1);
    }
}

#[test]
fn process_identifiers_are_recycled() {
    let mut pids = PidAllocator::new();
    assert_eq!(pids.peek(), Some(0));
    assert_eq!(pids.allocate(), Some(0));
    assert_eq!(pids.allocate(), Some(1));
    assert_eq!(pids.allocate(), Some(2));
    pids.deallocate(1);
    pids.deallocate(1);
    pids.deallocate(7);
    assert_eq!(pids.peek(), Some(1));
    assert_eq!(pids.allocate(), Some(1));
    assert_eq!(pids.allocate(), Some(3));
}

#[test]
fn the_lowest_free_descriptor_is_handed_out() {
    let mut tasks = table(&[0]);
    let t = tasks[0].as_mut().unwrap();
    assert_eq!(t.alloc_fd(), 0);
    assert_eq!(t.fd_table, vec![None]);
    t.fd_table[0] = Some(5);
    assert_eq!(t.alloc_fd(), 1);
    t.fd_table[1] = Some(6);
    t.fd_table.push(Some(7));
    t.fd_table[1] = None;
    assert_eq!(t.alloc_fd(), 1);
    assert_eq!(t.fd_table.len(), 3);
    assert!(t.getpid() == 0 && !t.is_zombie());
}

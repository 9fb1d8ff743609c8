use os_core::config::{BIG_STRIDE, DEFAULT_PRIORITY};
use os_core::mm::address::PhysPageNum;
use os_core::mm::user_buffer::{read_user, write_user};
use os_core::syscall::process::{
    count_syscall, set_syscall_result, sys_exec, sys_exit, sys_fork, sys_get_time, sys_getpid,
    sys_mmap, sys_munmap, sys_sbrk, sys_set_priority, sys_spawn, sys_task_info, sys_waitpid,
    sys_yield, TaskInfo, TimeVal,
};
use os_core::syscall::fs::sys_write;
use os_core::task::processor::{kernel_stack_top, Kernel};
use os_core::task::task::TaskStatus;

const SCRATCH: usize = 0x10_0000;

fn program(entry: u64, data: &[u8]) -> Vec<u8> {
    let mut out = vec![0u8; 64 + 56];
    out[0..4].copy_from_slice(&[0x7f, b'E', b'L', b'F']);
    out[24..32].copy_from_slice(&entry.to_le_bytes());
    out[32..40].copy_from_slice(&64u64.to_le_bytes());
    out[54..56].copy_from_slice(&56u16.to_le_bytes());
    out[56..58].copy_from_slice(&1u16.to_le_bytes());
    out[64..68].copy_from_slice(&1u32.to_le_bytes());
    out[68..72].copy_from_slice(&7u32.to_le_bytes());
    out[72..80].copy_from_slice(&120u64.to_le_bytes());
    out[80..88].copy_from_slice(&0x10000u64.to_le_bytes());
    out[96..104].copy_from_slice(&(data.len() as u64).to_le_bytes());
    out[104..112].copy_from_slice(&0x2000u64.to_le_bytes());
    out.extend_from_slice(data);
    out
}

fn boot() -> Kernel {
    let mut k = Kernel::new(PhysPageNum(0x8000), PhysPageNum(0x8200), 0x1111, 0x2222, 0x3333);
    let init = program(0x10000, b"init");
    assert_eq!(k.spawn(&init, None), Ok(0));
    k.run_next(1000);
    assert_eq!(k.current, Some(0));
    assert_eq!(sys_mmap(&mut k, SCRATCH, 0x2000, 3), 0);
    k
}

fn poke(k: &mut Kernel, addr: usize, bytes: &[u8]) {
    let c = k.current.unwrap();
    assert!(write_user(&mut k.tasks[c].as_mut().unwrap().memory_set, addr as u64, bytes));
}

fn peek(k: &Kernel, addr: usize, len: usize) -> Vec<u8> {
    let c = k.current.unwrap();
    read_user(&k.tasks[c].as_ref().unwrap().memory_set, addr as u64, len).unwrap()
}

fn put_file(k: &mut Kernel, name: &[u8], data: &[u8]) {
    let id = k.fs.create(name).unwrap();
    assert!(k.fs.write_at(id, 0, data));
}

#[test]
fn a_spawned_task_starts_ready_with_the_console_open() {
    let k = boot();
    let t = k.tasks[0].as_ref().unwrap();
    assert_eq!(t.task_status, TaskStatus::Running);
    assert_eq!(t.parent, None);
    assert_eq!(t.priority, DEFAULT_PRIORITY as u64);
    assert_eq!(t.stride, BIG_STRIDE as u64 / 16);
    assert_eq!(t.start_time, Some(1000));
    assert_eq!(t.fd_table, vec![Some(0), Some(1), Some(2)]);
    assert_eq!(t.trap_cx.sepc, 0x10000);
    assert_eq!(t.trap_cx.x[2], t.heap_bottom);
    assert_eq!(t.heap_bottom, 0x15000);
    assert_eq!(t.program_brk, 0x15000);
    assert_eq!(t.trap_cx.kernel_satp, 0x1111);
    assert_eq!(t.trap_cx.trap_handler, 0x2222);
    assert_eq!(t.task_cx.ra, 0x3333);
    assert_eq!(t.trap_cx.kernel_sp, kernel_stack_top(0));
    assert_eq!(kernel_stack_top(2), 0x7f_ffff_f000 - 2 * 0x3000);
    assert_eq!(t.syscall_times.len(), 500);
    assert_eq!(peek(&k, 0x10000, 5), b"init\0".to_vec());
}

#[test]
fn fork_exec_wait() {
    let mut k = boot();
    put_file(&mut k, b"hello", &program(0x10020, b"hello"));
    poke(&mut k, SCRATCH, b"hello\0");
    poke(&mut k, SCRATCH + 0x100, b"parent");
    let frames_before = k.frames.remaining();
    // the parent forks
    let p = sys_fork(&mut k);
    assert_eq!(p, 1);
    assert_eq!(k.current, Some(0));
    let child = k.tasks[1].as_ref().unwrap();
    assert_eq!(child.trap_cx.x[10], 0);
    assert_eq!(child.parent, Some(0));
    assert_eq!(child.task_status, TaskStatus::Ready);
    assert_eq!(child.trap_cx.sepc, k.tasks[0].as_ref().unwrap().trap_cx.sepc);
    assert_eq!(child.trap_cx.kernel_sp, kernel_stack_top(1));
    assert_eq!(child.fd_table, k.tasks[0].as_ref().unwrap().fd_table);
    assert_eq!(k.tasks[0].as_ref().unwrap().children, vec![1]);
    assert_eq!(read_user(&child.memory_set, SCRATCH as u64 + 0x100, 6).unwrap(), b"parent".to_vec());
    set_syscall_result(&mut k, 0, p as u64);
    assert_eq!(k.tasks[0].as_ref().unwrap().trap_cx.x[10], 1);
    // the child is not a zombie yet
    assert_eq!(sys_waitpid(&mut k, 1, SCRATCH + 0x200), -2);
    assert_eq!(sys_waitpid(&mut k, -1, SCRATCH + 0x200), -2);
    assert_eq!(sys_waitpid(&mut k, 5, SCRATCH + 0x200), -1);
    // the parent yields; the child, which has no stride yet, runs
    assert_eq!(sys_yield(&mut k, 2000), 0);
    assert_eq!(k.current, Some(1));
    assert_eq!(sys_getpid(&k), 1);
    assert_eq!(sys_waitpid(&mut k, -1, SCRATCH), -1);
    // the child replaces its program
    assert_eq!(sys_exec(&mut k, SCRATCH), 0);
    let child = k.tasks[1].as_ref().unwrap();
    assert_eq!(child.trap_cx.sepc, 0x10020);
    assert_eq!(child.parent, Some(0));
    assert_eq!(child.pid, 1);
    assert_eq!(child.fd_table.len(), 3);
    assert!(read_user(&child.memory_set, SCRATCH as u64, 1).is_none());
    // the new program prints and exits
    assert_eq!(sys_write(&mut k, 1, 0x10000, 5), 5);
    assert_eq!(k.console_out, b"hello".to_vec());
    sys_exit(&mut k, 7, 3000);
    assert_eq!(k.current, Some(0));
    let zombie = k.tasks[1].as_ref().unwrap();
    assert_eq!(zombie.task_status, TaskStatus::Zombie);
    assert_eq!(zombie.exit_code, 7);
    assert_eq!(zombie.memory_set.area_count(), 0);
    // the parent collects the child
    assert_eq!(sys_waitpid(&mut k, 1, SCRATCH + 0x200), 1);
    assert_eq!(peek(&k, SCRATCH + 0x200, 4), 7i32.to_le_bytes().to_vec());
    assert!(k.tasks[1].is_none());
    assert!(k.tasks[0].as_ref().unwrap().children.is_empty());
    assert_eq!(k.frames.remaining(), frames_before);
    assert_eq!(sys_waitpid(&mut k, 1, SCRATCH + 0x200), -1);
    assert_eq!(k.pids.peek(), Some(1));
    // the open files of the console are counted once again
    assert_eq!(k.files.get(0).unwrap().refs, 1);
}

#[test]
fn waitpid_collects_the_first_zombie_and_needs_a_place_for_the_code() {
    let mut k = boot();
    assert_eq!(sys_fork(&mut k), 1);
    assert_eq!(sys_fork(&mut k), 2);
    assert_eq!(sys_fork(&mut k), 3);
    assert_eq!(k.tasks[0].as_ref().unwrap().children, vec![1, 2, 3]);
    for (pid, code) in [(2usize, -5i32), (3, 9)] {
        // put the child on the processor by hand and let it exit
        let old = k.current.take().unwrap();
        k.tasks[old].as_mut().unwrap().task_status = TaskStatus::Ready;
        let mut rest = Vec::new();
        while let Some(t) = k.manager.fetch() {
            if t != pid {
                rest.push(t);
            }
        }
        rest.push(old);
        for t in rest {
            k.manager.add(t);
        }
        k.tasks[pid].as_mut().unwrap().task_status = TaskStatus::Running;
        k.current = Some(pid);
        sys_exit(&mut k, code, 0);
        while k.current != Some(0) {
            sys_yield(&mut k, 0);
        }
    }
    assert_eq!(sys_waitpid(&mut k, 1, SCRATCH), -2);
    assert_eq!(sys_waitpid(&mut k, -1, 0x7000_0000), -1);
    assert_eq!(k.tasks[0].as_ref().unwrap().children, vec![1, 2, 3]);
    assert_eq!(sys_waitpid(&mut k, -1, SCRATCH), 2);
    assert_eq!(peek(&k, SCRATCH, 4), (-5i32).to_le_bytes().to_vec());
    assert_eq!(sys_waitpid(&mut k, 3, SCRATCH + 4), 3);
    assert_eq!(peek(&k, SCRATCH + 4, 4), 9i32.to_le_bytes().to_vec());
    assert_eq!(k.tasks[0].as_ref().unwrap().children, vec![1]);
    assert!(k.tasks[2].is_none() && k.tasks[3].is_none());
    assert_eq!(sys_waitpid(&mut k, -1, SCRATCH), -2);
}

#[test]
fn the_children_of_an_exiting_task_move_to_the_first_task() {
    let mut k = boot();
    assert_eq!(sys_fork(&mut k), 1);
    sys_yield(&mut k, 0);
    assert_eq!(k.current, Some(1));
    assert_eq!(sys_fork(&mut k), 2);
    assert_eq!(sys_fork(&mut k), 3);
    assert_eq!(k.tasks[1].as_ref().unwrap().children, vec![2, 3]);
    sys_exit(&mut k, 0, 0);
    assert_eq!(k.tasks[1].as_ref().unwrap().children, Vec::<usize>::new());
    assert_eq!(k.tasks[0].as_ref().unwrap().children, vec![1, 3, 2]);
    assert_eq!(k.tasks[2].as_ref().unwrap().parent, Some(0));
    assert_eq!(k.tasks[3].as_ref().unwrap().parent, Some(0));
    assert!(k.current.is_some());
    assert_ne!(k.current, Some(1));
}

#[test]
fn the_last_task_leaves_the_processor_idle() {
    let mut k = boot();
    sys_exit(&mut k, 1, 0);
    assert_eq!(k.current, None);
    assert_eq!(k.tasks[0].as_ref().unwrap().task_status, TaskStatus::Zombie);
    k.run_next(5);
    assert_eq!(k.current, None);
}

#[test]
fn mmap_and_munmap_act_on_the_running_task() {
    let mut k = boot();
    assert_eq!(sys_mmap(&mut k, 0x1000_0000, 8192, 3), 0);
    poke(&mut k, 0x1000_0000, &[1]);
    poke(&mut k, 0x1000_1000, &[2]);
    assert_eq!(sys_mmap(&mut k, 0x1000_0000, 4096, 3), -1);
    assert_eq!(sys_mmap(&mut k, 0x1000_0001, 4096, 3), -1);
    assert_eq!(sys_mmap(&mut k, 0x2000_0000, 4096, 0), -1);
    assert_eq!(sys_mmap(&mut k, 0x2000_0000, 4096, 8), -1);
    assert_eq!(sys_munmap(&mut k, 0x1000_0000, 8192), 0);
    let c = k.current.unwrap();
    assert!(!write_user(&mut k.tasks[c].as_mut().unwrap().memory_set, 0x1000_0000, &[3]));
    assert_eq!(sys_munmap(&mut k, 0x1000_0000, 8192), -1);
    assert_eq!(sys_mmap(&mut k, 0x1000_0000, 8192, 3), 0);
    assert_eq!(peek(&k, 0x1000_0000, 1), vec![0]);
}

#[test]
fn set_priority_takes_two_and_more() {
    let mut k = boot();
    assert_eq!(sys_set_priority(&mut k, 1), -1);
    assert_eq!(sys_set_priority(&mut k, 0), -1);
    assert_eq!(sys_set_priority(&mut k, -7), -1);
    assert_eq!(k.tasks[0].as_ref().unwrap().priority, 16);
    assert_eq!(sys_set_priority(&mut k, 2), 2);
    assert_eq!(k.tasks[0].as_ref().unwrap().priority, 2);
    assert_eq!(k.tasks[0].as_ref().unwrap().pass(), BIG_STRIDE as u64 / 2);
    assert_eq!(sys_set_priority(&mut k, 1000), 1000);
}

#[test]
fn sbrk_moves_the_end_of_the_heap() {
    let mut k = boot();
    let bottom = k.tasks[0].as_ref().unwrap().heap_bottom;
    assert_eq!(sys_sbrk(&mut k, 0), bottom as isize);
    assert_eq!(sys_sbrk(&mut k, 5000), bottom as isize);
    assert_eq!(k.tasks[0].as_ref().unwrap().program_brk, bottom + 5000);
    assert_eq!(sys_sbrk(&mut k, -1000), (bottom + 5000) as isize);
    assert_eq!(sys_sbrk(&mut k, -4001), -1);
    assert_eq!(k.tasks[0].as_ref().unwrap().program_brk, bottom + 4000);
    assert_eq!(sys_sbrk(&mut k, -4000), (bottom + 4000) as isize);
    assert_eq!(sys_sbrk(&mut k, -1), -1);
    assert_eq!(k.tasks[0].as_ref().unwrap().program_brk, bottom);
}

#[test]
fn munmap_at_the_start_of_the_heap_leaves_the_heap() {
    let mut k = boot();
    let bottom = k.tasks[0].as_ref().unwrap().heap_bottom as usize;
    let areas = k.tasks[0].as_ref().unwrap().memory_set.area_count();
    assert_eq!(sys_mmap(&mut k, bottom, 8192, 3), 0);
    // the heap cannot grow into the pages of the region
    assert_eq!(sys_sbrk(&mut k, 4096), -1);
    assert_eq!(sys_munmap(&mut k, bottom, 8192), 0);
    assert_eq!(k.tasks[0].as_ref().unwrap().memory_set.area_count(), areas);
    assert_eq!(sys_sbrk(&mut k, 4096), bottom as isize);
    assert_eq!(sys_sbrk(&mut k, -4096), (bottom + 4096) as isize);
    assert_eq!(sys_mmap(&mut k, bottom, 8192, 3), 0);
}

#[test]
fn fork_and_spawn_never_hand_the_parent_zero() {
    let mut k = boot();
    let child = sys_fork(&mut k);
    assert!(child > 0);
    sys_exit(&mut k, 0, 0);
    assert_eq!(k.current, Some(child as usize));
    // the first task is a zombie without a parent: nobody collects it
    assert_eq!(sys_waitpid(&mut k, -1, SCRATCH), -1);
    let next = sys_fork(&mut k);
    assert!(next > 0 && next != child);
    assert!(k.tasks[0].is_some());
}

#[test]
fn get_time_writes_seconds_and_microseconds() {
    let mut k = boot();
    assert_eq!(sys_get_time(&mut k, SCRATCH + 0xff8, 0, 3_000_250), 0);
    let bytes = peek(&k, SCRATCH + 0xff8, 16);
    assert_eq!(bytes[..8], 3u64.to_le_bytes());
    assert_eq!(bytes[8..], 250u64.to_le_bytes());
    assert_eq!(TimeVal::from_us(3_000_250), TimeVal { sec: 3, usec: 250 });
    assert_eq!(TimeVal { sec: 1, usec: 2 }.to_bytes(), bytes_of(&[1, 2]));
    assert_eq!(sys_get_time(&mut k, SCRATCH + 0x1ff8, 0, 1), -1);
    assert_eq!(sys_get_time(&mut k, 0x7000_0000, 0, 1), -1);
}

fn bytes_of(words: &[u64]) -> Vec<u8> {
    words.iter().flat_map(|w| w.to_le_bytes()).collect()
}

#[test]
fn task_info_reports_status_counters_and_time() {
    let mut k = boot();
    count_syscall(&mut k, 64);
    count_syscall(&mut k, 64);
    count_syscall(&mut k, 169);
    count_syscall(&mut k, 500);
    count_syscall(&mut k, 499);
    assert_eq!(sys_mmap(&mut k, 0x20_0000, 0x1000, 3), 0);
    // the task first ran at the moment 1000
    assert_eq!(sys_task_info(&mut k, 0x20_0000, 1000 + 7_654_321), 0);
    let bytes = peek(&k, 0x20_0000, 2016);
    assert_eq!(bytes[0..4], 2u32.to_le_bytes());
    for id in 0..500usize {
        let n = match id {
            64 => 2u32,
            169 | 499 => 1,
            _ => 0,
        };
        assert_eq!(bytes[4 + 4 * id..8 + 4 * id], n.to_le_bytes());
    }
    assert_eq!(bytes[2004..2008], [0; 4]);
    assert_eq!(bytes[2008..], 7654u64.to_le_bytes());
    let info = TaskInfo { status: TaskStatus::Running, syscall_times: vec![1, 2], time: 3 };
    assert_eq!(info.to_bytes().len(), 4 + 8 + 4 + 8);
    assert_eq!(sys_task_info(&mut k, 0x20_0000 + 4096 - 2015, 0), -1);
    assert_eq!(sys_task_info(&mut k, 0x20_0000, 0), 0);
    assert_eq!(peek(&k, 0x20_0000 + 2008, 8), vec![0; 8]);
}

#[test]
fn spawn_starts_a_file_as_a_child() {
    let mut k = boot();
    put_file(&mut k, b"app", &program(0x10008, b"app data"));
    put_file(&mut k, b"junk", b"no program");
    poke(&mut k, SCRATCH, b"app\0junk\0none\0");
    let before = k.frames.remaining();
    assert_eq!(sys_spawn(&mut k, SCRATCH + 4), -1);
    assert_eq!(sys_spawn(&mut k, SCRATCH + 9), -1);
    assert_eq!(sys_spawn(&mut k, 0x7000_0000), -1);
    assert_eq!(k.frames.remaining(), before);
    assert_eq!(sys_spawn(&mut k, SCRATCH), 1);
    let child = k.tasks[1].as_ref().unwrap();
    assert_eq!(child.parent, Some(0));
    assert_eq!(child.trap_cx.sepc, 0x10008);
    assert_eq!(child.stride, 0);
    assert_eq!(child.fd_table.len(), 3);
    assert_ne!(child.fd_table, k.tasks[0].as_ref().unwrap().fd_table);
    assert_eq!(read_user(&child.memory_set, 0x10000, 8).unwrap(), b"app data".to_vec());
    assert!(read_user(&child.memory_set, SCRATCH as u64, 1).is_none());
    assert_eq!(k.tasks[0].as_ref().unwrap().children, vec![1]);
    // root, two directories, one page
    assert_eq!(k.frames.remaining(), before - 4);
    assert_eq!(sys_exec(&mut k, SCRATCH + 4), -1);
    assert_eq!(sys_exec(&mut k, SCRATCH + 9), -1);
}

#[test]
fn yield_runs_the_task_of_the_smallest_stride() {
    let mut k = boot();
    assert_eq!(sys_fork(&mut k), 1);
    assert_eq!(sys_fork(&mut k), 2);
    k.tasks[1].as_mut().unwrap().priority = 5;
    k.tasks[2].as_mut().unwrap().priority = 10;
    // the first task leaves the competition
    k.tasks[0].as_mut().unwrap().stride = u64::MAX / 2;
    let mut runs = [0u32; 3];
    for now in 0..300u64 {
        assert_eq!(sys_yield(&mut k, now), 0);
        let c = k.current.unwrap();
        runs[c] += 1;
        assert_eq!(k.tasks[c].as_ref().unwrap().task_status, TaskStatus::Running);
        let snap_b = k.tasks[1].as_ref().unwrap().stride;
        let snap_c = k.tasks[2].as_ref().unwrap().stride;
        assert!(snap_b.abs_diff(snap_c) <= BIG_STRIDE as u64 / 2);
    }
    assert_eq!(runs[0], 0);
    assert_eq!(runs[1] + runs[2], 300);
    assert!(runs[2] >= 2 * runs[1] - 2 && runs[2] <= 2 * runs[1] + 2);
    assert_eq!(k.tasks[1].as_ref().unwrap().start_time, Some(0));
    assert_eq!(k.tasks[2].as_ref().unwrap().start_time, Some(1));
}

#[test]
fn a_stride_run_keeps_the_law_of_fairness() {
    let mut k = boot();
    let prios = [2u64, 3, 7, 16, 100];
    for (i, p) in prios.iter().enumerate() {
        assert_eq!(sys_fork(&mut k), i as isize + 1);
        k.tasks[i + 1].as_mut().unwrap().priority = *p;
    }
    k.tasks[0].as_mut().unwrap().stride = u64::MAX / 2;
    let mut n = [0u64; 6];
    for _ in 0..2000 {
        sys_yield(&mut k, 0);
        n[k.current.unwrap()] += 1;
        for i in 1..6 {
            for j in 1..6 {
                let pass_i = BIG_STRIDE as u64 / prios[i - 1];
                let pass_j = BIG_STRIDE as u64 / prios[j - 1];
                let si = n[i] * pass_i;
                let sj = n[j] * pass_j;
                assert_eq!(si, k.tasks[i].as_ref().unwrap().stride);
                assert!(si <= sj + pass_i);
            }
        }
    }
}

use sched_core::config::MAX_SYSCALL_NUM;
use sched_core::kernel::Kernel;
use sched_core::mm::{copy_to_chunks, MapArea, MemorySet};
use sched_core::syscall::process::{
    sys_exec, sys_exit, sys_fork, sys_get_time, sys_getpid, sys_mmap, sys_munmap, sys_sbrk,
    sys_set_priority, sys_spawn, sys_task_info, sys_waitpid, sys_yield, TaskInfo, TimeVal,
    TASKINFO_SIZE, TIMEVAL_SIZE,
};
use sched_core::syscall::sync::{sys_mutex_create, sys_sleep};
use sched_core::task::TaskStatus;

fn booted() -> Kernel {
    let mut kernel = Kernel::new();
    assert_eq!(kernel.add_process(None, MemorySet::new(0x1000)), 0);
    kernel.run_next();
    kernel
}

fn areas(kernel: &Kernel, pid: usize) -> Vec<MapArea> {
    kernel.processes[pid].as_ref().unwrap().memory.areas.clone()
}

#[test]
fn boot_runs_the_main_task_of_the_first_process() {
    let kernel = booted();
    let task = kernel.current.unwrap();
    assert_eq!((task.pid, task.tid), (0, 0));
    assert_eq!(task.status, TaskStatus::Running);
    assert_eq!(task.stride, 4096);
    assert_eq!(kernel.manager.len(), 0);
    assert_eq!(sys_getpid(&kernel), 0);
}

#[test]
fn run_next_on_an_empty_queue_leaves_the_processor_idle() {
    let mut kernel = Kernel::new();
    kernel.run_next();
    assert_eq!(kernel.current, None);
}

#[test]
fn yield_alone_runs_the_caller_again() {
    let mut kernel = booted();
    assert_eq!(sys_yield(&mut kernel), 0);
    let task = kernel.current.unwrap();
    assert_eq!((task.pid, task.tid), (0, 0));
    assert_eq!(task.stride, 8192);
    assert_eq!(task.status, TaskStatus::Running);
}

#[test]
fn yield_passes_the_processor_to_the_least_stride() {
    let mut kernel = booted();
    assert_eq!(sys_fork(&mut kernel), 1);
    assert_eq!(sys_yield(&mut kernel), 0);
    assert_eq!(sys_getpid(&kernel), 1);
    assert_eq!(kernel.manager.ready_queue[0].pid, 0);
    assert_eq!(kernel.manager.ready_queue[0].status, TaskStatus::Ready);
    assert_eq!(sys_yield(&mut kernel), 0);
    assert_eq!(sys_getpid(&kernel), 0);
}

#[test]
fn set_priority_accepts_two_and_above() {
    let mut kernel = booted();
    assert_eq!(sys_set_priority(&mut kernel, 2), 2);
    assert_eq!(kernel.current.unwrap().priority, 2);
    assert_eq!(sys_set_priority(&mut kernel, 100), 100);
    assert_eq!(kernel.current.unwrap().priority, 100);
    assert_eq!(sys_set_priority(&mut kernel, isize::MAX), isize::MAX);
    assert_eq!(kernel.current.unwrap().priority, isize::MAX as usize);
}

#[test]
fn set_priority_refuses_below_two() {
    let mut kernel = booted();
    assert_eq!(sys_set_priority(&mut kernel, 1), -1);
    assert_eq!(sys_set_priority(&mut kernel, 0), -1);
    assert_eq!(sys_set_priority(&mut kernel, -5), -1);
    assert_eq!(sys_set_priority(&mut kernel, isize::MIN), -1);
    assert_eq!(kernel.current.unwrap().priority, 16);
}

#[test]
fn priority_sets_the_pace_of_dispatch() {
    let mut kernel = booted();
    assert_eq!(sys_set_priority(&mut kernel, 4), 4);
    assert_eq!(sys_yield(&mut kernel), 0);
    assert_eq!(kernel.current.unwrap().stride, 4096 + 16384);
}

#[test]
fn fork_copies_the_address_space_and_links_the_family() {
    let mut kernel = booted();
    assert_eq!(sys_mmap(&mut kernel, 0x10000, 0x2000, 3), 0);
    assert_eq!(sys_sbrk(&mut kernel, 16), 0x1000);
    assert_eq!(sys_fork(&mut kernel), 1);
    let parent = kernel.processes[0].as_ref().unwrap();
    let child = kernel.processes[1].as_ref().unwrap();
    assert_eq!(parent.children, vec![1]);
    assert_eq!(child.pid, 1);
    assert_eq!(child.parent, Some(0));
    assert_eq!(child.children.len(), 0);
    assert_eq!(child.memory.areas, parent.memory.areas);
    assert_eq!(child.memory.program_brk, 0x1010);
    assert_eq!(child.memory.heap_bottom, 0x1000);
    assert_eq!(child.tasks.len(), 1);
    assert_eq!(child.mutex_list.len(), 0);
    assert!(!child.is_zombie);
    assert_eq!(kernel.manager.len(), 1);
    let ready = kernel.manager.ready_queue[0];
    assert_eq!((ready.pid, ready.tid), (1, 0));
    assert_eq!(ready.stride, 0);
    assert_eq!(ready.priority, 16);
    assert_eq!(sys_getpid(&kernel), 0);
}

#[test]
fn exec_installs_the_image_or_fails_on_a_missing_file() {
    let mut kernel = booted();
    assert_eq!(sys_mmap(&mut kernel, 0x10000, 0x1000, 1), 0);
    assert_eq!(sys_exec(&mut kernel, None), -1);
    assert_eq!(areas(&kernel, 0).len(), 1);
    let mut image = MemorySet::new(0x8000);
    image.insert_framed_area(0, 4, 2 | 8 | 16);
    assert_eq!(sys_exec(&mut kernel, Some(image)), 0);
    let memory = &kernel.processes[0].as_ref().unwrap().memory;
    assert_eq!(memory.areas, vec![MapArea { start_vpn: 0, end_vpn: 4, perm: 26 }]);
    assert_eq!(memory.heap_bottom, 0x8000);
    assert_eq!(memory.program_brk, 0x8000);
}

#[test]
fn spawn_creates_a_child_or_fails_on_a_missing_file() {
    let mut kernel = booted();
    assert_eq!(sys_spawn(&mut kernel, None), -1);
    assert_eq!(kernel.processes.len(), 1);
    assert_eq!(kernel.manager.len(), 0);
    assert_eq!(kernel.processes[0].as_ref().unwrap().children.len(), 0);
    assert_eq!(sys_spawn(&mut kernel, Some(MemorySet::new(0x2000))), 1);
    assert_eq!(sys_spawn(&mut kernel, Some(MemorySet::new(0x3000))), 2);
    assert_eq!(kernel.processes[0].as_ref().unwrap().children, vec![1, 2]);
    assert_eq!(kernel.processes[2].as_ref().unwrap().memory.heap_bottom, 0x3000);
    assert_eq!(kernel.processes[2].as_ref().unwrap().parent, Some(0));
    assert_eq!(kernel.manager.len(), 2);
}

#[test]
fn waitpid_reaps_the_exited_child_once() {
    let mut kernel = booted();
    assert_eq!(sys_fork(&mut kernel), 1);
    assert_eq!(sys_fork(&mut kernel), 2);
    assert_eq!(sys_yield(&mut kernel), 0);
    assert_eq!(sys_getpid(&kernel), 1);
    sys_exit(&mut kernel, 7);
    assert_eq!(sys_getpid(&kernel), 2);
    assert!(kernel.processes[1].as_ref().unwrap().is_zombie);
    assert_eq!(kernel.processes[1].as_ref().unwrap().exit_code, 7);
    assert_eq!(sys_yield(&mut kernel), 0);
    assert_eq!(sys_getpid(&kernel), 0);
    let mut code: i32 = 0;
    assert_eq!(sys_waitpid(&mut kernel, -1, &mut code), 1);
    assert_eq!(code, 7);
    assert!(kernel.processes[1].is_none());
    assert_eq!(kernel.processes[0].as_ref().unwrap().children, vec![2]);
    code = 99;
    assert_eq!(sys_waitpid(&mut kernel, 1, &mut code), -1);
    assert_eq!(code, 99);
    assert_eq!(sys_waitpid(&mut kernel, -1, &mut code), -2);
    assert_eq!(code, 99);
    assert_eq!(kernel.processes[0].as_ref().unwrap().children, vec![2]);
}

#[test]
fn waitpid_without_children_is_minus_one() {
    let mut kernel = booted();
    let mut code: i32 = 5;
    assert_eq!(sys_waitpid(&mut kernel, -1, &mut code), -1);
    assert_eq!(sys_waitpid(&mut kernel, 0, &mut code), -1);
    assert_eq!(sys_waitpid(&mut kernel, -2, &mut code), -1);
    assert_eq!(code, 5);
}

#[test]
fn waitpid_for_a_running_child_is_minus_two() {
    let mut kernel = booted();
    assert_eq!(sys_fork(&mut kernel), 1);
    let mut code: i32 = 5;
    assert_eq!(sys_waitpid(&mut kernel, 1, &mut code), -2);
    assert_eq!(sys_waitpid(&mut kernel, -1, &mut code), -2);
    assert_eq!(sys_waitpid(&mut kernel, 2, &mut code), -1);
    assert_eq!(sys_waitpid(&mut kernel, -3, &mut code), -1);
    assert_eq!(code, 5);
}

#[test]
fn waitpid_by_id_skips_other_zombies() {
    let mut kernel = booted();
    assert_eq!(sys_fork(&mut kernel), 1);
    assert_eq!(sys_fork(&mut kernel), 2);
    assert_eq!(sys_yield(&mut kernel), 0);
    sys_exit(&mut kernel, -3);
    assert_eq!(sys_getpid(&kernel), 2);
    sys_exit(&mut kernel, 4);
    assert_eq!(sys_getpid(&kernel), 0);
    let mut code: i32 = 0;
    assert_eq!(sys_waitpid(&mut kernel, 2, &mut code), 2);
    assert_eq!(code, 4);
    assert_eq!(sys_waitpid(&mut kernel, -1, &mut code), 1);
    assert_eq!(code, -3);
    assert_eq!(sys_waitpid(&mut kernel, -1, &mut code), -1);
}

#[test]
fn a_reaped_process_id_is_given_out_again() {
    let mut kernel = booted();
    assert_eq!(sys_fork(&mut kernel), 1);
    assert_eq!(sys_fork(&mut kernel), 2);
    assert_eq!(sys_yield(&mut kernel), 0);
    sys_exit(&mut kernel, 0);
    assert_eq!(sys_yield(&mut kernel), 0);
    assert_eq!(sys_getpid(&kernel), 0);
    let mut code: i32 = 1;
    assert_eq!(sys_waitpid(&mut kernel, -1, &mut code), 1);
    assert_eq!(sys_fork(&mut kernel), 1);
    assert_eq!(sys_fork(&mut kernel), 3);
    assert_eq!(kernel.processes[0].as_ref().unwrap().children, vec![2, 1, 3]);
}

#[test]
fn exit_of_a_thread_keeps_the_process_alive() {
    let mut kernel = booted();
    assert_eq!(kernel.thread_create(), 1);
    assert_eq!(sys_yield(&mut kernel), 0);
    assert_eq!(kernel.current.unwrap().tid, 1);
    sys_exit(&mut kernel, 3);
    let process = kernel.processes[0].as_ref().unwrap();
    assert!(!process.is_zombie);
    assert_eq!(process.tasks[1].as_ref().unwrap().exit_code, Some(3));
    assert_eq!(process.tasks[0].as_ref().unwrap().exit_code, None);
    assert_eq!(kernel.current.unwrap().tid, 0);
    assert_eq!(kernel.manager.len(), 0);
}

#[test]
fn exit_of_the_main_task_drops_the_whole_process_from_the_queues() {
    let mut kernel = booted();
    assert_eq!(sys_fork(&mut kernel), 1);
    assert_eq!(sys_yield(&mut kernel), 0);
    assert_eq!(sys_getpid(&kernel), 1);
    assert_eq!(kernel.thread_create(), 1);
    assert_eq!(kernel.thread_create(), 2);
    assert_eq!(sys_mutex_create(&mut kernel, true), 0);
    assert_eq!(sys_yield(&mut kernel), 0);
    assert_eq!(kernel.current.unwrap().tid, 1);
    assert_eq!(sys_sleep(&mut kernel, 0, 10), 0);
    assert_eq!(kernel.current.unwrap().tid, 2);
    assert_eq!(sys_yield(&mut kernel), 0);
    assert_eq!(sys_getpid(&kernel), 0);
    assert_eq!(sys_yield(&mut kernel), 0);
    assert_eq!(sys_getpid(&kernel), 1);
    assert_eq!(kernel.current.unwrap().tid, 0);
    assert_eq!(kernel.manager.len(), 2);
    assert_eq!(kernel.timers.len(), 1);
    sys_exit(&mut kernel, 9);
    assert_eq!(sys_getpid(&kernel), 0);
    assert_eq!(kernel.manager.len(), 0);
    assert_eq!(kernel.timers.len(), 0);
    let child = kernel.processes[1].as_ref().unwrap();
    assert!(child.is_zombie);
    assert_eq!(child.exit_code, 9);
    assert_eq!(child.mutex_list.len(), 0);
    let mut code: i32 = 0;
    assert_eq!(sys_waitpid(&mut kernel, -1, &mut code), 1);
    assert_eq!(code, 9);
}

#[test]
fn mmap_maps_whole_pages_with_user_permission() {
    let mut kernel = booted();
    assert_eq!(sys_mmap(&mut kernel, 0x10000, 1, 1), 0);
    assert_eq!(sys_mmap(&mut kernel, 0x20000, 0x1000, 2), 0);
    assert_eq!(sys_mmap(&mut kernel, 0x30000, 0x1001, 7), 0);
    assert_eq!(
        areas(&kernel, 0),
        vec![
            MapArea { start_vpn: 0x10, end_vpn: 0x11, perm: 18 },
            MapArea { start_vpn: 0x20, end_vpn: 0x21, perm: 20 },
            MapArea { start_vpn: 0x30, end_vpn: 0x32, perm: 30 },
        ]
    );
}

#[test]
fn mmap_refuses_bad_permission_bits() {
    let mut kernel = booted();
    assert_eq!(sys_mmap(&mut kernel, 0x10000, 0x1000, 0), -1);
    assert_eq!(sys_mmap(&mut kernel, 0x10000, 0x1000, 8), -1);
    assert_eq!(sys_mmap(&mut kernel, 0x10000, 0x1000, 9), -1);
    assert_eq!(sys_mmap(&mut kernel, 0x10000, 0x1000, usize::MAX), -1);
    assert_eq!(sys_mmap(&mut kernel, 0x10000, 0, 0), -1);
    assert_eq!(areas(&kernel, 0).len(), 0);
}

#[test]
fn mmap_refuses_a_start_off_the_page_boundary() {
    let mut kernel = booted();
    assert_eq!(sys_mmap(&mut kernel, 0x10001, 0x1000, 3), -1);
    assert_eq!(sys_mmap(&mut kernel, 0x10fff, 0, 3), -1);
    assert_eq!(areas(&kernel, 0).len(), 0);
}

#[test]
fn mmap_of_no_bytes_maps_nothing() {
    let mut kernel = booted();
    assert_eq!(sys_mmap(&mut kernel, 0x10000, 0, 3), 0);
    assert_eq!(areas(&kernel, 0).len(), 0);
}

#[test]
fn mmap_refuses_overlap() {
    let mut kernel = booted();
    assert_eq!(sys_mmap(&mut kernel, 0x10000, 0x3000, 3), 0);
    assert_eq!(sys_mmap(&mut kernel, 0x10000, 0x1000, 3), -1);
    assert_eq!(sys_mmap(&mut kernel, 0x12000, 0x1000, 3), -1);
    assert_eq!(sys_mmap(&mut kernel, 0xf000, 0x1001, 3), -1);
    assert_eq!(sys_mmap(&mut kernel, 0xf000, 0x5000, 3), -1);
    assert_eq!(areas(&kernel, 0).len(), 1);
    assert_eq!(sys_mmap(&mut kernel, 0xf000, 0x1000, 3), 0);
    assert_eq!(sys_mmap(&mut kernel, 0x13000, 0x1000, 3), 0);
    assert_eq!(areas(&kernel, 0).len(), 3);
}

#[test]
fn mmap_refuses_a_range_past_the_end_of_the_address_space() {
    let mut kernel = booted();
    let start = usize::MAX - 0xfff;
    assert_eq!(sys_mmap(&mut kernel, start, 0x1000, 3), -1);
    assert_eq!(areas(&kernel, 0).len(), 0);
    assert_eq!(sys_mmap(&mut kernel, start, 0xfff, 3), 0);
    assert_eq!(areas(&kernel, 0).len(), 1);
}

#[test]
fn munmap_removes_only_an_exact_area() {
    let mut kernel = booted();
    assert_eq!(sys_mmap(&mut kernel, 0x10000, 0x3000, 3), 0);
    assert_eq!(sys_mmap(&mut kernel, 0x20000, 0x1000, 1), 0);
    assert_eq!(sys_munmap(&mut kernel, 0x10000, 0x1000), -1);
    assert_eq!(sys_munmap(&mut kernel, 0x11000, 0x2000), -1);
    assert_eq!(sys_munmap(&mut kernel, 0x10000, 0x4000), -1);
    assert_eq!(sys_munmap(&mut kernel, 0x40000, 0x1000), -1);
    assert_eq!(sys_munmap(&mut kernel, usize::MAX, 1), -1);
    assert_eq!(areas(&kernel, 0).len(), 2);
    assert_eq!(sys_munmap(&mut kernel, 0x10000, 0x2001), 0);
    assert_eq!(areas(&kernel, 0), vec![MapArea { start_vpn: 0x20, end_vpn: 0x21, perm: 18 }]);
    assert_eq!(sys_munmap(&mut kernel, 0x10000, 0x3000), -1);
    assert_eq!(sys_munmap(&mut kernel, 0x20000, 0x1000), 0);
    assert_eq!(areas(&kernel, 0).len(), 0);
}

#[test]
fn sbrk_moves_the_break_and_returns_the_old_one() {
    let mut kernel = booted();
    assert_eq!(sys_sbrk(&mut kernel, 0), 0x1000);
    assert_eq!(sys_sbrk(&mut kernel, 0x100), 0x1000);
    assert_eq!(sys_sbrk(&mut kernel, -0x80), 0x1100);
    assert_eq!(sys_sbrk(&mut kernel, 0), 0x1080);
    assert_eq!(sys_sbrk(&mut kernel, -0x80), 0x1080);
    assert_eq!(kernel.processes[0].as_ref().unwrap().memory.program_brk, 0x1000);
}

#[test]
fn sbrk_refuses_to_go_below_the_heap_bottom() {
    let mut kernel = booted();
    assert_eq!(sys_sbrk(&mut kernel, -1), -1);
    assert_eq!(sys_sbrk(&mut kernel, 8), 0x1000);
    assert_eq!(sys_sbrk(&mut kernel, -9), -1);
    assert_eq!(sys_sbrk(&mut kernel, i32::MIN), -1);
    assert_eq!(kernel.processes[0].as_ref().unwrap().memory.program_brk, 0x1008);
}

#[test]
fn timeval_splits_microseconds() {
    assert_eq!(TimeVal::from_us(0), TimeVal { sec: 0, usec: 0 });
    assert_eq!(TimeVal::from_us(999_999), TimeVal { sec: 0, usec: 999_999 });
    assert_eq!(TimeVal::from_us(1_000_000), TimeVal { sec: 1, usec: 0 });
    assert_eq!(TimeVal::from_us(3_000_123), TimeVal { sec: 3, usec: 123 });
}

#[test]
fn timeval_bytes_are_two_little_endian_words() {
    let bytes = TimeVal { sec: 0x0102, usec: 999_999 }.to_bytes();
    assert_eq!(bytes.len(), TIMEVAL_SIZE);
    assert_eq!(bytes, vec![2, 1, 0, 0, 0, 0, 0, 0, 0x3f, 0x42, 0x0f, 0, 0, 0, 0, 0]);
}

#[test]
fn get_time_fills_a_buffer_in_one_piece() {
    let mut chunks = vec![vec![0xffu8; 16]];
    assert_eq!(sys_get_time(3_000_123, &mut chunks, 0), 0);
    assert_eq!(chunks, vec![vec![3, 0, 0, 0, 0, 0, 0, 0, 123, 0, 0, 0, 0, 0, 0, 0]]);
}

#[test]
fn get_time_fills_a_buffer_that_lies_across_two_pages() {
    let mut whole = vec![vec![0u8; 16]];
    assert_eq!(sys_get_time(0x0102_0304_0506, &mut whole, 0), 0);
    for cut in 0..=16usize {
        let mut chunks = vec![vec![0xaau8; cut], vec![0x55u8; 16 - cut]];
        assert_eq!(sys_get_time(0x0102_0304_0506, &mut chunks, 0), 0);
        assert_eq!(chunks[0].len(), cut);
        assert_eq!(chunks[1].len(), 16 - cut);
        assert_eq!(chunks.concat(), whole[0]);
    }
    let mut chunks = vec![vec![0u8; 5], vec![0u8; 11]];
    assert_eq!(sys_get_time(3_000_123, &mut chunks, 0), 0);
    assert_eq!(chunks[0], vec![3, 0, 0, 0, 0]);
    assert_eq!(chunks[1], vec![0, 0, 0, 123, 0, 0, 0, 0, 0, 0, 0]);
}

#[test]
fn get_time_with_a_short_buffer_writes_the_leading_bytes() {
    let mut chunks = vec![vec![9u8; 3], vec![], vec![9u8; 6]];
    assert_eq!(sys_get_time(0x0a_0000_0007 * 1_000_000 + 5, &mut chunks, 0), 0);
    assert_eq!(chunks, vec![vec![7, 0, 0], vec![], vec![0, 0x0a, 0, 0, 0, 5]]);
}

#[test]
fn task_info_bytes_follow_the_declared_layout() {
    let mut counts = [0u32; MAX_SYSCALL_NUM];
    counts[0] = 1;
    counts[1] = 0x0102_0304;
    counts[MAX_SYSCALL_NUM - 1] = 0xffff_fffe;
    let info = TaskInfo::new(TaskStatus::Running, counts, 0x0807_0605);
    let bytes = info.to_bytes();
    assert_eq!(bytes.len(), TASKINFO_SIZE);
    assert_eq!(bytes.len(), 2016);
    assert_eq!(bytes[0..4], [1, 0, 0, 0]);
    assert_eq!(bytes[4..8], [1, 0, 0, 0]);
    assert_eq!(bytes[8..12], [4, 3, 2, 1]);
    assert_eq!(bytes[12..16], [0, 0, 0, 0]);
    assert_eq!(bytes[2000..2004], [0xfe, 0xff, 0xff, 0xff]);
    assert_eq!(bytes[2004..2008], [0, 0, 0, 0]);
    assert_eq!(bytes[2008..2016], [5, 6, 7, 8, 0, 0, 0, 0]);
    assert_eq!(TaskInfo::new(TaskStatus::Ready, counts, 0).to_bytes()[0], 0);
    assert_eq!(TaskInfo::new(TaskStatus::Blocked, counts, 0).to_bytes()[0], 2);
    assert_eq!(TaskInfo::new(TaskStatus::Zombie, counts, 0).to_bytes()[0], 3);
}

#[test]
fn task_info_fills_a_buffer_that_lies_across_two_pages() {
    let mut counts = [0u32; MAX_SYSCALL_NUM];
    for (i, count) in counts.iter_mut().enumerate() {
        *count = (i as u32) * 0x0101 + 7;
    }
    let info = TaskInfo::new(TaskStatus::Blocked, counts, 123_456);
    let image = info.to_bytes();
    let mut chunks = vec![vec![0u8; 1000], vec![0u8; 1016]];
    assert_eq!(sys_task_info(&info, &mut chunks), 0);
    assert_eq!(chunks[0][..], image[..1000]);
    assert_eq!(chunks[1][..], image[1000..]);
    let mut chunks = vec![vec![0u8; 2016]];
    assert_eq!(sys_task_info(&info, &mut chunks), 0);
    assert_eq!(chunks[0], image);
    let mut chunks = vec![vec![0u8; 1], vec![0u8; 2014], vec![0u8; 1]];
    assert_eq!(sys_task_info(&info, &mut chunks), 0);
    assert_eq!(chunks.concat(), image);
}

#[test]
fn copy_to_chunks_fills_chunks_in_order() {
    let src: Vec<u8> = (0u8..10).collect();
    let mut chunks = vec![vec![0u8; 4], vec![], vec![0u8; 3], vec![0u8; 3]];
    copy_to_chunks(&src, &mut chunks);
    assert_eq!(chunks, vec![vec![0, 1, 2, 3], vec![], vec![4, 5, 6], vec![7, 8, 9]]);
    let mut none: Vec<Vec<u8>> = vec![];
    copy_to_chunks(&src, &mut none);
    assert_eq!(none.len(), 0);
}

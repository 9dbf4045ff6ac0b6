use sched_core::kernel::Kernel;
use sched_core::mm::{split_at_pages, MapArea, MemorySet};
use sched_core::process::ProcessControlBlock;
use sched_core::slots::{bump, find_free, insert_slot, lower};
use sched_core::sync::mutex::LockOutcome;
use sched_core::task::TaskControlBlock;

fn fresh_process() -> ProcessControlBlock {
    ProcessControlBlock::new(4, Some(1), MemorySet::new(0))
}

#[test]
fn insert_slot_grows_a_full_table() {
    let mut slots: Vec<Option<u8>> = Vec::new();
    assert_eq!(find_free(&slots), 0);
    assert_eq!(insert_slot(&mut slots, 10), 0);
    assert_eq!(insert_slot(&mut slots, 11), 1);
    assert_eq!(insert_slot(&mut slots, 12), 2);
    assert_eq!(slots, vec![Some(10), Some(11), Some(12)]);
    assert_eq!(find_free(&slots), 3);
}

#[test]
fn insert_slot_takes_the_first_freed_slot() {
    let mut slots: Vec<Option<u8>> = vec![Some(1), None, Some(3), None];
    assert_eq!(find_free(&slots), 1);
    assert_eq!(insert_slot(&mut slots, 7), 1);
    assert_eq!(slots, vec![Some(1), Some(7), Some(3), None]);
    assert_eq!(insert_slot(&mut slots, 8), 3);
    assert_eq!(insert_slot(&mut slots, 9), 4);
    assert_eq!(slots, vec![Some(1), Some(7), Some(3), Some(8), Some(9)]);
}

#[test]
fn bump_grows_the_row_with_zeros() {
    let mut row: Vec<usize> = Vec::new();
    bump(&mut row, 2);
    assert_eq!(row, vec![0, 0, 1]);
    bump(&mut row, 0);
    assert_eq!(row, vec![1, 0, 1]);
    bump(&mut row, 2);
    assert_eq!(row, vec![1, 0, 2]);
}

#[test]
fn lower_stops_at_zero_and_leaves_the_length() {
    let mut row: Vec<usize> = vec![1, 0, 2];
    lower(&mut row, 2);
    assert_eq!(row, vec![1, 0, 1]);
    lower(&mut row, 1);
    assert_eq!(row, vec![1, 0, 1]);
    lower(&mut row, 5);
    assert_eq!(row, vec![1, 0, 1]);
    lower(&mut row, 0);
    lower(&mut row, 0);
    assert_eq!(row, vec![0, 0, 1]);
}

#[test]
fn new_process_has_one_task_and_no_objects() {
    let process = fresh_process();
    assert_eq!(process.pid, 4);
    assert_eq!(process.parent, Some(1));
    assert!(!process.is_zombie);
    assert_eq!(process.tasks.len(), 1);
    assert_eq!(process.tasks[0].as_ref().unwrap().exit_code, None);
    assert_eq!(process.mutex_list.len(), 0);
    assert_eq!(process.semaphore_list.len(), 0);
    assert_eq!(process.condvar_list.len(), 0);
    assert_eq!(process.requests.len(), 0);
    assert!(!process.deadlock_detect_enabled);
}

#[test]
fn ledger_and_requests_grow_on_demand() {
    let mut process = fresh_process();
    assert_eq!(process.alloc_task(), 1);
    process.grant(1, 2);
    process.grant(1, 2);
    process.grant(0, 0);
    assert_eq!(process.tasks[1].as_ref().unwrap().allocated, vec![0, 0, 2]);
    assert_eq!(process.tasks[0].as_ref().unwrap().allocated, vec![1]);
    process.release(1, 2);
    process.release(1, 1);
    process.release(1, 7);
    assert_eq!(process.tasks[1].as_ref().unwrap().allocated, vec![0, 0, 1]);
    process.request_down(2, 1);
    assert_eq!(process.requests, vec![vec![], vec![], vec![0, 1]]);
    process.request_down(0, 0);
    process.request_up(2, 1);
    process.request_up(2, 1);
    process.request_up(9, 0);
    assert_eq!(process.requests, vec![vec![1], vec![], vec![0, 0]]);
}

#[test]
fn process_detector_reads_counts_ledgers_and_requests() {
    let mut process = fresh_process();
    assert_eq!(process.alloc_task(), 1);
    assert_eq!(process.create_semaphore(1), 0);
    assert_eq!(process.create_semaphore(1), 1);
    assert!(!process.detect_deadlock(0, 0));
    assert!(process.semaphore_down(TaskControlBlock::new(4, 0), 0));
    assert!(process.semaphore_down(TaskControlBlock::new(4, 1), 1));
    assert!(!process.detect_deadlock(0, 1));
    assert!(!process.semaphore_down(TaskControlBlock::new(4, 0), 1));
    assert!(process.detect_deadlock(1, 0));
    assert!(process.detect_deadlock(1, 1));
    assert!(process.detect_deadlock(0, 0));
}

#[test]
fn an_exited_task_no_longer_counts_as_a_holder() {
    let mut process = fresh_process();
    assert_eq!(process.alloc_task(), 1);
    assert_eq!(process.create_semaphore(1), 0);
    assert!(process.semaphore_down(TaskControlBlock::new(4, 1), 0));
    assert!(!process.detect_deadlock(0, 0));
    process.exit_task(1, 0);
    assert!(process.detect_deadlock(0, 0));
    assert!(!process.is_zombie);
}

#[test]
fn process_mutex_calls_follow_the_mutex() {
    let mut process = fresh_process();
    assert_eq!(process.alloc_task(), 1);
    assert_eq!(process.create_mutex(true), 0);
    assert!(!process.mutex_is_locking(0));
    assert_eq!(process.mutex_lock(TaskControlBlock::new(4, 0), 0), LockOutcome::Acquired);
    assert!(process.mutex_is_locking(0));
    assert_eq!(process.mutex_lock(TaskControlBlock::new(4, 1), 0), LockOutcome::Blocked);
    assert_eq!(process.mutex_unlock(0).unwrap().tid, 1);
    assert!(process.mutex_is_locking(0));
    assert_eq!(process.mutex_unlock(0), None);
    assert!(!process.mutex_is_locking(0));
}

#[test]
fn exit_of_the_main_task_makes_a_zombie_without_objects() {
    let mut process = fresh_process();
    assert_eq!(process.create_mutex(false), 0);
    assert_eq!(process.create_semaphore(3), 0);
    assert_eq!(process.create_condvar(), 0);
    process.grant(0, 0);
    process.exit_task(0, -7);
    assert!(process.is_zombie);
    assert_eq!(process.exit_code, -7);
    assert_eq!(process.tasks[0].as_ref().unwrap().exit_code, Some(-7));
    assert_eq!(process.tasks[0].as_ref().unwrap().allocated, vec![1]);
    assert_eq!(process.mutex_list.len(), 0);
    assert_eq!(process.semaphore_list.len(), 0);
    assert_eq!(process.condvar_list.len(), 0);
}

#[test]
fn memory_set_finds_overlap_and_exact_areas() {
    let mut memory = MemorySet::new(0);
    memory.insert_framed_area(4, 8, 18);
    assert!(memory.is_mapped(4, 8));
    assert!(memory.is_mapped(7, 9));
    assert!(memory.is_mapped(0, 5));
    assert!(memory.is_mapped(5, 6));
    assert!(!memory.is_mapped(0, 4));
    assert!(!memory.is_mapped(8, 12));
    assert!(!memory.is_mapped(6, 6));
    assert!(memory.contains_area(4, 8));
    assert!(!memory.contains_area(4, 7));
    assert!(!memory.remove_area(5, 8));
    assert_eq!(memory.areas.len(), 1);
    memory.insert_framed_area(9, 10, 20);
    memory.insert_framed_area(4, 8, 22);
    assert!(memory.remove_area(4, 8));
    assert_eq!(
        memory.areas,
        vec![
            MapArea { start_vpn: 9, end_vpn: 10, perm: 20 },
            MapArea { start_vpn: 4, end_vpn: 8, perm: 22 },
        ]
    );
}

#[test]
fn memory_set_copy_is_equal_and_apart() {
    let mut memory = MemorySet::new(0x4000);
    memory.insert_framed_area(1, 2, 18);
    assert_eq!(memory.change_program_brk(0x10), Some(0x4000));
    let mut copy = memory.duplicate();
    assert_eq!(copy.areas, memory.areas);
    assert_eq!(copy.heap_bottom, 0x4000);
    assert_eq!(copy.program_brk, 0x4010);
    copy.insert_framed_area(5, 6, 18);
    assert_eq!(memory.areas.len(), 1);
}

#[test]
fn program_break_stays_between_heap_bottom_and_the_largest_signed_word() {
    let mut memory = MemorySet::new(isize::MAX as usize - 1);
    assert!(memory.can_move_brk(1));
    assert!(!memory.can_move_brk(2));
    assert!(!memory.can_move_brk(-1));
    assert_eq!(memory.change_program_brk(2), None);
    assert_eq!(memory.change_program_brk(1), Some(isize::MAX as usize - 1));
    assert_eq!(memory.program_brk, isize::MAX as usize);
    assert_eq!(memory.change_program_brk(1), None);
    assert_eq!(memory.change_program_brk(-1), Some(isize::MAX as usize));
}

#[test]
fn buffers_are_cut_at_page_boundaries() {
    assert_eq!(split_at_pages(0x1000, 0), Vec::<usize>::new());
    assert_eq!(split_at_pages(0x1000, 16), vec![16]);
    assert_eq!(split_at_pages(0x1ff8, 16), vec![8, 8]);
    assert_eq!(split_at_pages(0x1fff, 16), vec![1, 15]);
    assert_eq!(split_at_pages(0x1ff0, 16), vec![16]);
    assert_eq!(split_at_pages(0x1ffc, 2016), vec![4, 2012]);
    assert_eq!(split_at_pages(0xfff, 0x2002), vec![1, 0x1000, 0x1000, 1]);
    assert_eq!(split_at_pages(usize::MAX - 1, 1), vec![1]);
}

#[test]
fn thread_create_hands_out_task_ids_in_order() {
    let mut kernel = Kernel::new();
    assert_eq!(kernel.add_process(None, MemorySet::new(0)), 0);
    kernel.run_next();
    assert_eq!(kernel.thread_create(), 1);
    assert_eq!(kernel.thread_create(), 2);
    let process = kernel.processes[0].as_ref().unwrap();
    assert_eq!(process.tasks.len(), 3);
    assert_eq!(kernel.manager.len(), 2);
    assert_eq!(kernel.manager.ready_queue[1].tid, 2);
    assert_eq!(kernel.manager.ready_queue[1].pid, 0);
    assert_eq!(kernel.manager.ready_queue[1].stride, 0);
}

#[test]
fn resume_without_pending_lock_changes_nothing() {
    let mut kernel = Kernel::new();
    kernel.add_process(None, MemorySet::new(0));
    kernel.run_next();
    let before = kernel.current;
    kernel.resume();
    assert_eq!(kernel.current, before);
    assert_eq!(kernel.manager.len(), 0);
}

#[test]
fn wakeup_marks_the_task_ready_at_the_back() {
    let mut kernel = Kernel::new();
    kernel.add_process(None, MemorySet::new(0));
    assert_eq!(kernel.manager.len(), 1);
    let mut task = TaskControlBlock::new(0, 0);
    task.status = sched_core::task::TaskStatus::Blocked;
    task.stride = 77;
    kernel.wakeup_task(task);
    assert_eq!(kernel.manager.len(), 2);
    assert_eq!(kernel.manager.ready_queue[1].status, sched_core::task::TaskStatus::Ready);
    assert_eq!(kernel.manager.ready_queue[1].stride, 77);
}

use sched_core::config::{BIG_STRIDE, DEFAULT_PRIORITY, MAX_PASS};
use sched_core::task::manager::{add_task, fetch_task, TaskManager};
use sched_core::task::{TaskControlBlock, TaskStatus};

fn task_with(tid: usize, priority: usize, stride: u64) -> TaskControlBlock {
    let mut task = TaskControlBlock::new(0, tid);
    task.priority = priority;
    task.stride = stride;
    task
}

#[test]
fn new_task_has_default_priority_and_zero_stride() {
    let task = TaskControlBlock::new(3, 4);
    assert_eq!(task.pid, 3);
    assert_eq!(task.tid, 4);
    assert_eq!(task.status, TaskStatus::Ready);
    assert_eq!(task.priority, DEFAULT_PRIORITY);
    assert_eq!(task.stride, 0);
    assert_eq!(task.pending_lock, None);
}

#[test]
fn fetch_on_empty_queue_is_none() {
    let mut manager = TaskManager::new();
    assert!(manager.fetch().is_none());
    assert_eq!(manager.len(), 0);
}

#[test]
fn fetch_takes_least_stride() {
    let mut manager = TaskManager::new();
    manager.add(task_with(0, 16, 10));
    manager.add(task_with(1, 16, 5));
    manager.add(task_with(2, 16, 7));
    let next = manager.fetch().unwrap();
    assert_eq!(next.tid, 1);
    assert_eq!(manager.len(), 2);
    assert_eq!(manager.ready_queue[0].tid, 0);
    assert_eq!(manager.ready_queue[1].tid, 2);
}

#[test]
fn fetch_breaks_ties_by_queue_position() {
    let mut manager = TaskManager::new();
    manager.add(task_with(0, 16, 9));
    manager.add(task_with(1, 16, 5));
    manager.add(task_with(2, 16, 5));
    assert_eq!(manager.fetch().unwrap().tid, 1);
    assert_eq!(manager.fetch().unwrap().tid, 2);
    assert_eq!(manager.fetch().unwrap().tid, 0);
    assert!(manager.fetch().is_none());
}

#[test]
fn fetch_advances_stride_by_big_stride_over_priority() {
    let mut manager = TaskManager::new();
    manager.add(task_with(0, 16, 100));
    let next = manager.fetch().unwrap();
    assert_eq!(next.stride, 100 + 4096);
    let mut manager = TaskManager::new();
    manager.add(task_with(0, 3, 0));
    assert_eq!(manager.fetch().unwrap().stride, 21845);
    let mut manager = TaskManager::new();
    manager.add(task_with(0, 2, 0));
    assert_eq!(manager.fetch().unwrap().stride, MAX_PASS as u64);
    assert_eq!(BIG_STRIDE / 2, MAX_PASS);
}

#[test]
fn fetch_with_all_strides_at_the_cap_takes_the_front() {
    let mut manager = TaskManager::new();
    manager.add(task_with(0, 16, u64::MAX));
    manager.add(task_with(1, 16, u64::MAX));
    let next = manager.fetch().unwrap();
    assert_eq!(next.tid, 0);
    assert_eq!(next.stride, u64::MAX);
}

#[test]
fn stride_stops_at_the_cap() {
    let mut task = task_with(0, 2, u64::MAX - 10);
    task.advance();
    assert_eq!(task.stride, u64::MAX);
    let mut task = task_with(0, 2, u64::MAX - 32768);
    task.advance();
    assert_eq!(task.stride, u64::MAX);
    let mut task = task_with(0, 2, u64::MAX - 32769);
    task.advance();
    assert_eq!(task.stride, u64::MAX - 1);
}

#[test]
fn priority_above_big_stride_gives_zero_pass() {
    let mut task = task_with(0, 65537, 12);
    task.advance();
    assert_eq!(task.stride, 12);
}

#[test]
fn fetch_leaves_status_and_identity_alone() {
    let mut manager = TaskManager::new();
    let mut task = task_with(5, 4, 1);
    task.status = TaskStatus::Blocked;
    task.pending_lock = Some(2);
    manager.add(task);
    let next = manager.fetch().unwrap();
    assert_eq!(next.status, TaskStatus::Blocked);
    assert_eq!(next.pending_lock, Some(2));
    assert_eq!(next.priority, 4);
    assert_eq!(next.tid, 5);
}

#[test]
fn fifo_policy_pops_the_front() {
    let mut manager = TaskManager::new();
    manager.add(task_with(0, 16, 10));
    manager.add(task_with(1, 16, 5));
    let next = manager.fetch_fifo().unwrap();
    assert_eq!(next.tid, 0);
    assert_eq!(next.stride, 10);
    assert_eq!(manager.fetch_fifo().unwrap().tid, 1);
    assert!(manager.fetch_fifo().is_none());
}

#[test]
fn free_functions_add_and_fetch() {
    let mut manager = TaskManager::new();
    add_task(&mut manager, task_with(0, 16, 3));
    add_task(&mut manager, task_with(1, 16, 2));
    assert_eq!(fetch_task(&mut manager).unwrap().tid, 1);
    assert_eq!(fetch_task(&mut manager).unwrap().tid, 0);
    assert!(fetch_task(&mut manager).is_none());
}

#[test]
fn remove_process_keeps_the_others_in_order() {
    let mut manager = TaskManager::new();
    manager.add(TaskControlBlock::new(1, 0));
    manager.add(TaskControlBlock::new(2, 0));
    manager.add(TaskControlBlock::new(1, 1));
    manager.add(TaskControlBlock::new(3, 0));
    manager.remove_process(1);
    assert_eq!(manager.len(), 2);
    assert_eq!(manager.ready_queue[0].pid, 2);
    assert_eq!(manager.ready_queue[1].pid, 3);
}

#[test]
fn turns_are_shared_in_proportion_to_priority() {
    let priorities: [usize; 3] = [2, 4, 8];
    let mut manager = TaskManager::new();
    for (tid, priority) in priorities.iter().enumerate() {
        manager.add(task_with(tid, *priority, 0));
    }
    let mut runs: [u64; 3] = [0, 0, 0];
    for turn in 1..=7000u64 {
        let task = manager.fetch().unwrap();
        runs[task.tid] += 1;
        manager.add(task);
        if turn % 7 == 0 {
            for a in 0..3 {
                for b in 0..3 {
                    let pa = (BIG_STRIDE / priorities[a]) as u64 * runs[a];
                    let pb = (BIG_STRIDE / priorities[b]) as u64 * runs[b];
                    assert!(pa <= pb + MAX_PASS as u64);
                }
            }
        }
    }
    assert_eq!(runs, [1000, 2000, 4000]);
}

use sched_core::config::DEADLOCK;
use sched_core::kernel::Kernel;
use sched_core::mm::MemorySet;
use sched_core::process::ProcessControlBlock;
use sched_core::sync::mutex::{Mutex, MutexKind};
use sched_core::syscall::process::sys_yield;
use sched_core::syscall::sync::{
    sys_condvar_create, sys_condvar_signal, sys_condvar_wait, sys_enable_deadlock_detect,
    sys_mutex_create, sys_mutex_lock, sys_mutex_unlock, sys_semaphore_create, sys_semaphore_down,
    sys_semaphore_up, sys_sleep,
};
use sched_core::task::TaskStatus;

/// A kernel with one process whose main task runs and whose second task is
/// ready.
fn two_tasks() -> Kernel {
    let mut kernel = Kernel::new();
    assert_eq!(kernel.add_process(None, MemorySet::new(0)), 0);
    kernel.run_next();
    assert_eq!(kernel.thread_create(), 1);
    kernel
}

fn process(kernel: &Kernel) -> &ProcessControlBlock {
    kernel.processes[0].as_ref().unwrap()
}

fn running_tid(kernel: &Kernel) -> usize {
    kernel.current.unwrap().tid
}

fn mutex(kernel: &Kernel, id: usize) -> &MutexKind {
    process(kernel).mutex_list[id].as_ref().unwrap()
}

fn ledger(kernel: &Kernel, tid: usize) -> Vec<usize> {
    process(kernel).tasks[tid].as_ref().unwrap().allocated.clone()
}

#[test]
fn deadlock_sentinel_value() {
    assert_eq!(DEADLOCK, -0xDEAD);
    assert_eq!(DEADLOCK, -57005);
}

#[test]
fn create_calls_hand_out_ids_in_order() {
    let mut kernel = two_tasks();
    assert_eq!(sys_mutex_create(&mut kernel, true), 0);
    assert_eq!(sys_mutex_create(&mut kernel, false), 1);
    assert_eq!(sys_semaphore_create(&mut kernel, 2), 0);
    assert_eq!(sys_semaphore_create(&mut kernel, 0), 1);
    assert_eq!(sys_condvar_create(&mut kernel), 0);
    assert_eq!(sys_condvar_create(&mut kernel), 1);
    assert!(matches!(mutex(&kernel, 0), MutexKind::Blocking(_)));
    assert!(matches!(mutex(&kernel, 1), MutexKind::Spin(_)));
    assert_eq!(process(&kernel).semaphore_list[0].as_ref().unwrap().get_count(), 2);
    assert_eq!(process(&kernel).semaphore_list[1].as_ref().unwrap().get_count(), 0);
}

#[test]
fn create_calls_fill_a_freed_slot_first() {
    let mut kernel = two_tasks();
    assert_eq!(sys_mutex_create(&mut kernel, true), 0);
    assert_eq!(sys_mutex_create(&mut kernel, true), 1);
    assert_eq!(sys_mutex_create(&mut kernel, true), 2);
    kernel.processes[0].as_mut().unwrap().mutex_list[1] = None;
    assert_eq!(sys_mutex_create(&mut kernel, false), 1);
    assert!(matches!(mutex(&kernel, 1), MutexKind::Spin(_)));
    assert_eq!(sys_mutex_create(&mut kernel, false), 3);
    assert_eq!(process(&kernel).mutex_list.len(), 4);
}

#[test]
fn blocking_mutex_lock_parks_the_second_caller_and_unlock_hands_over() {
    let mut kernel = two_tasks();
    let id = sys_mutex_create(&mut kernel, true) as usize;
    assert_eq!(sys_mutex_lock(&mut kernel, id), 0);
    assert_eq!(running_tid(&kernel), 0);
    assert!(mutex(&kernel, id).is_locking());
    assert_eq!(sys_yield(&mut kernel), 0);
    assert_eq!(running_tid(&kernel), 1);
    assert_eq!(sys_mutex_lock(&mut kernel, id), 0);
    assert_eq!(running_tid(&kernel), 0);
    assert_eq!(kernel.manager.len(), 0);
    match mutex(&kernel, id) {
        MutexKind::Blocking(m) => {
            assert_eq!(m.inner.wait_queue.len(), 1);
            assert_eq!(m.inner.wait_queue[0].tid, 1);
            assert_eq!(m.inner.wait_queue[0].status, TaskStatus::Blocked);
        }
        MutexKind::Spin(_) => panic!("a blocking mutex was asked for"),
    }
    assert_eq!(sys_mutex_unlock(&mut kernel, id), 0);
    assert!(mutex(&kernel, id).is_locking());
    assert_eq!(kernel.manager.len(), 1);
    assert_eq!(kernel.manager.ready_queue[0].tid, 1);
    assert_eq!(kernel.manager.ready_queue[0].status, TaskStatus::Ready);
    assert_eq!(kernel.manager.ready_queue[0].pending_lock, None);
}

#[test]
fn unlock_without_waiter_frees_the_mutex() {
    let mut kernel = two_tasks();
    let id = sys_mutex_create(&mut kernel, true) as usize;
    assert_eq!(sys_mutex_lock(&mut kernel, id), 0);
    assert_eq!(sys_mutex_unlock(&mut kernel, id), 0);
    assert!(!mutex(&kernel, id).is_locking());
    assert_eq!(kernel.manager.len(), 1);
}

#[test]
fn spin_mutex_lock_yields_and_retries() {
    let mut kernel = two_tasks();
    let id = sys_mutex_create(&mut kernel, false) as usize;
    assert_eq!(sys_mutex_lock(&mut kernel, id), 0);
    assert_eq!(sys_yield(&mut kernel), 0);
    assert_eq!(running_tid(&kernel), 1);
    assert_eq!(sys_mutex_lock(&mut kernel, id), 0);
    assert_eq!(running_tid(&kernel), 0);
    assert_eq!(kernel.manager.len(), 1);
    assert_eq!(kernel.manager.ready_queue[0].tid, 1);
    assert_eq!(kernel.manager.ready_queue[0].pending_lock, Some(id));
    assert_eq!(sys_yield(&mut kernel), 0);
    assert_eq!(running_tid(&kernel), 1);
    kernel.resume();
    assert_eq!(running_tid(&kernel), 0);
    assert_eq!(kernel.manager.ready_queue[0].pending_lock, Some(id));
    assert_eq!(sys_mutex_unlock(&mut kernel, id), 0);
    assert_eq!(sys_yield(&mut kernel), 0);
    assert_eq!(running_tid(&kernel), 1);
    kernel.resume();
    assert_eq!(running_tid(&kernel), 1);
    assert_eq!(kernel.current.unwrap().pending_lock, None);
    assert!(mutex(&kernel, id).is_locking());
}

#[test]
fn mutex_lock_is_refused_on_a_held_mutex_when_detection_is_on() {
    let mut kernel = two_tasks();
    let id = sys_mutex_create(&mut kernel, true) as usize;
    assert_eq!(sys_enable_deadlock_detect(&mut kernel, 1), 0);
    assert_eq!(sys_mutex_lock(&mut kernel, id), 0);
    assert_eq!(sys_yield(&mut kernel), 0);
    assert_eq!(running_tid(&kernel), 1);
    assert_eq!(sys_mutex_lock(&mut kernel, id), DEADLOCK);
    assert_eq!(running_tid(&kernel), 1);
    assert_eq!(kernel.manager.len(), 1);
    match mutex(&kernel, id) {
        MutexKind::Blocking(m) => assert_eq!(m.inner.wait_queue.len(), 0),
        MutexKind::Spin(_) => panic!("a blocking mutex was asked for"),
    }
}

#[test]
fn enable_deadlock_detect_ignores_its_argument() {
    let mut kernel = two_tasks();
    assert!(!process(&kernel).deadlock_detect_enabled);
    assert_eq!(sys_enable_deadlock_detect(&mut kernel, 0), 0);
    assert!(process(&kernel).deadlock_detect_enabled);
    assert_eq!(sys_enable_deadlock_detect(&mut kernel, 0), 0);
    assert!(process(&kernel).deadlock_detect_enabled);
}

#[test]
fn semaphore_down_grants_and_enters_the_ledger() {
    let mut kernel = two_tasks();
    assert_eq!(sys_semaphore_create(&mut kernel, 0), 0);
    let id = sys_semaphore_create(&mut kernel, 2) as usize;
    assert_eq!(id, 1);
    assert_eq!(sys_semaphore_down(&mut kernel, id), 0);
    assert_eq!(running_tid(&kernel), 0);
    assert_eq!(ledger(&kernel, 0), vec![0, 1]);
    assert_eq!(sys_semaphore_down(&mut kernel, id), 0);
    assert_eq!(ledger(&kernel, 0), vec![0, 2]);
    assert_eq!(process(&kernel).semaphore_list[id].as_ref().unwrap().get_count(), 0);
    assert_eq!(process(&kernel).requests.len(), 0);
}

#[test]
fn semaphore_down_blocks_and_up_wakes_and_moves_the_books() {
    let mut kernel = two_tasks();
    let id = sys_semaphore_create(&mut kernel, 0) as usize;
    assert_eq!(sys_semaphore_down(&mut kernel, id), 0);
    assert_eq!(running_tid(&kernel), 1);
    assert_eq!(process(&kernel).requests, vec![vec![1]]);
    assert_eq!(ledger(&kernel, 0), Vec::<usize>::new());
    let sem = process(&kernel).semaphore_list[id].as_ref().unwrap();
    assert_eq!(sem.get_count(), -1);
    assert_eq!(sem.inner.wait_queue[0].tid, 0);
    assert_eq!(kernel.manager.len(), 0);
    assert_eq!(sys_semaphore_up(&mut kernel, id), 0);
    assert_eq!(running_tid(&kernel), 1);
    assert_eq!(process(&kernel).semaphore_list[id].as_ref().unwrap().get_count(), 0);
    assert_eq!(process(&kernel).requests, vec![vec![0]]);
    assert_eq!(ledger(&kernel, 0), vec![1]);
    assert_eq!(ledger(&kernel, 1), Vec::<usize>::new());
    assert_eq!(kernel.manager.len(), 1);
    assert_eq!(kernel.manager.ready_queue[0].tid, 0);
    assert_eq!(kernel.manager.ready_queue[0].status, TaskStatus::Ready);
}

#[test]
fn semaphore_up_gives_back_in_the_ledger_only_with_detection_on() {
    let mut kernel = two_tasks();
    let id = sys_semaphore_create(&mut kernel, 2) as usize;
    assert_eq!(sys_semaphore_down(&mut kernel, id), 0);
    assert_eq!(sys_semaphore_down(&mut kernel, id), 0);
    assert_eq!(ledger(&kernel, 0), vec![2]);
    assert_eq!(sys_semaphore_up(&mut kernel, id), 0);
    assert_eq!(ledger(&kernel, 0), vec![2]);
    assert_eq!(sys_enable_deadlock_detect(&mut kernel, 1), 0);
    assert_eq!(sys_semaphore_up(&mut kernel, id), 0);
    assert_eq!(ledger(&kernel, 0), vec![1]);
    assert_eq!(sys_semaphore_up(&mut kernel, id), 0);
    assert_eq!(ledger(&kernel, 0), vec![0]);
    assert_eq!(sys_semaphore_up(&mut kernel, id), 0);
    assert_eq!(ledger(&kernel, 0), vec![0]);
    assert_eq!(process(&kernel).semaphore_list[id].as_ref().unwrap().get_count(), 4);
}

#[test]
fn second_crossed_down_is_refused_and_changes_nothing() {
    let mut kernel = two_tasks();
    assert_eq!(sys_enable_deadlock_detect(&mut kernel, 1), 0);
    let s0 = sys_semaphore_create(&mut kernel, 1) as usize;
    let s1 = sys_semaphore_create(&mut kernel, 1) as usize;
    assert_eq!((s0, s1), (0, 1));
    assert_eq!(sys_semaphore_down(&mut kernel, s0), 0);
    assert_eq!(running_tid(&kernel), 0);
    assert_eq!(sys_yield(&mut kernel), 0);
    assert_eq!(running_tid(&kernel), 1);
    assert_eq!(sys_semaphore_down(&mut kernel, s1), 0);
    assert_eq!(running_tid(&kernel), 1);
    assert_eq!(sys_yield(&mut kernel), 0);
    assert_eq!(running_tid(&kernel), 0);
    assert_eq!(sys_semaphore_down(&mut kernel, s1), 0);
    assert_eq!(running_tid(&kernel), 1);
    assert_eq!(ledger(&kernel, 0), vec![1]);
    assert_eq!(ledger(&kernel, 1), vec![0, 1]);
    assert_eq!(process(&kernel).requests, vec![vec![0, 1]]);
    let running = kernel.current;
    assert_eq!(sys_semaphore_down(&mut kernel, s0), DEADLOCK);
    assert_eq!(kernel.current, running);
    assert_eq!(kernel.manager.len(), 0);
    assert_eq!(ledger(&kernel, 0), vec![1]);
    assert_eq!(ledger(&kernel, 1), vec![0, 1]);
    assert_eq!(process(&kernel).requests, vec![vec![0, 1]]);
    let sem0 = process(&kernel).semaphore_list[s0].as_ref().unwrap();
    assert_eq!(sem0.get_count(), 0);
    assert_eq!(sem0.inner.wait_queue.len(), 0);
    let sem1 = process(&kernel).semaphore_list[s1].as_ref().unwrap();
    assert_eq!(sem1.get_count(), -1);
    assert_eq!(sem1.inner.wait_queue.len(), 1);
    assert_eq!(sem1.inner.wait_queue[0].tid, 0);
}

#[test]
fn without_detection_the_crossed_down_blocks() {
    let mut kernel = two_tasks();
    let s0 = sys_semaphore_create(&mut kernel, 1) as usize;
    let s1 = sys_semaphore_create(&mut kernel, 1) as usize;
    assert_eq!(sys_semaphore_down(&mut kernel, s0), 0);
    assert_eq!(sys_yield(&mut kernel), 0);
    assert_eq!(sys_semaphore_down(&mut kernel, s1), 0);
    assert_eq!(sys_yield(&mut kernel), 0);
    assert_eq!(sys_semaphore_down(&mut kernel, s1), 0);
    assert_eq!(running_tid(&kernel), 1);
    assert_eq!(sys_semaphore_down(&mut kernel, s0), 0);
    assert_eq!(kernel.current, None);
    assert_eq!(kernel.manager.len(), 0);
    assert_eq!(process(&kernel).requests, vec![vec![0, 1], vec![1]]);
}

#[test]
fn detector_passes_a_down_that_only_has_to_wait() {
    let mut kernel = two_tasks();
    assert_eq!(sys_enable_deadlock_detect(&mut kernel, 1), 0);
    let s0 = sys_semaphore_create(&mut kernel, 1) as usize;
    assert_eq!(sys_semaphore_down(&mut kernel, s0), 0);
    assert_eq!(sys_yield(&mut kernel), 0);
    assert_eq!(running_tid(&kernel), 1);
    assert_eq!(sys_semaphore_down(&mut kernel, s0), 0);
    assert_eq!(running_tid(&kernel), 0);
    assert_eq!(process(&kernel).requests, vec![vec![], vec![1]]);
}

#[test]
fn detector_refuses_a_lone_task_waiting_for_itself() {
    let mut kernel = Kernel::new();
    kernel.add_process(None, MemorySet::new(0));
    kernel.run_next();
    assert_eq!(sys_enable_deadlock_detect(&mut kernel, 1), 0);
    let s0 = sys_semaphore_create(&mut kernel, 1) as usize;
    assert_eq!(sys_semaphore_down(&mut kernel, s0), 0);
    assert_eq!(sys_semaphore_down(&mut kernel, s0), DEADLOCK);
    assert!(kernel.current.is_some());
    assert_eq!(process(&kernel).semaphore_list[s0].as_ref().unwrap().get_count(), 0);
    let mut kernel = Kernel::new();
    kernel.add_process(None, MemorySet::new(0));
    kernel.run_next();
    assert_eq!(sys_enable_deadlock_detect(&mut kernel, 1), 0);
    let s0 = sys_semaphore_create(&mut kernel, 0) as usize;
    assert_eq!(sys_semaphore_down(&mut kernel, s0), DEADLOCK);
    assert!(kernel.current.is_some());
}

#[test]
fn condvar_wait_releases_the_mutex_and_takes_it_again_before_returning() {
    let mut kernel = two_tasks();
    let m = sys_mutex_create(&mut kernel, true) as usize;
    let c = sys_condvar_create(&mut kernel) as usize;
    assert_eq!(sys_mutex_lock(&mut kernel, m), 0);
    assert_eq!(sys_condvar_wait(&mut kernel, c, m), 0);
    assert_eq!(running_tid(&kernel), 1);
    assert!(!mutex(&kernel, m).is_locking());
    let parked = process(&kernel).condvar_list[c].as_ref().unwrap().wait_queue[0];
    assert_eq!(parked.tid, 0);
    assert_eq!(parked.status, TaskStatus::Blocked);
    assert_eq!(parked.pending_lock, Some(m));
    assert_eq!(sys_mutex_lock(&mut kernel, m), 0);
    assert_eq!(sys_condvar_signal(&mut kernel, c), 0);
    assert_eq!(kernel.manager.len(), 1);
    assert_eq!(kernel.manager.ready_queue[0].tid, 0);
    assert_eq!(kernel.manager.ready_queue[0].pending_lock, Some(m));
    assert_eq!(sys_mutex_unlock(&mut kernel, m), 0);
    assert!(!mutex(&kernel, m).is_locking());
    assert_eq!(sys_yield(&mut kernel), 0);
    assert_eq!(running_tid(&kernel), 0);
    assert_eq!(kernel.current.unwrap().pending_lock, Some(m));
    kernel.resume();
    assert_eq!(running_tid(&kernel), 0);
    assert_eq!(kernel.current.unwrap().pending_lock, None);
    assert!(mutex(&kernel, m).is_locking());
}

#[test]
fn condvar_waiter_queues_on_a_mutex_that_is_still_held() {
    let mut kernel = two_tasks();
    let m = sys_mutex_create(&mut kernel, true) as usize;
    let c = sys_condvar_create(&mut kernel) as usize;
    assert_eq!(sys_mutex_lock(&mut kernel, m), 0);
    assert_eq!(sys_condvar_wait(&mut kernel, c, m), 0);
    assert_eq!(running_tid(&kernel), 1);
    assert_eq!(sys_mutex_lock(&mut kernel, m), 0);
    assert_eq!(sys_condvar_signal(&mut kernel, c), 0);
    assert_eq!(sys_yield(&mut kernel), 0);
    assert_eq!(running_tid(&kernel), 0);
    kernel.resume();
    assert_eq!(running_tid(&kernel), 1);
    match mutex(&kernel, m) {
        MutexKind::Blocking(inner) => {
            assert_eq!(inner.inner.wait_queue.len(), 1);
            assert_eq!(inner.inner.wait_queue[0].tid, 0);
            assert_eq!(inner.inner.wait_queue[0].pending_lock, None);
        }
        MutexKind::Spin(_) => panic!("a blocking mutex was asked for"),
    }
    assert_eq!(sys_mutex_unlock(&mut kernel, m), 0);
    assert!(mutex(&kernel, m).is_locking());
    assert_eq!(sys_yield(&mut kernel), 0);
    assert_eq!(running_tid(&kernel), 0);
    kernel.resume();
    assert_eq!(running_tid(&kernel), 0);
    assert!(mutex(&kernel, m).is_locking());
}

#[test]
fn condvar_signal_without_waiter_changes_nothing() {
    let mut kernel = two_tasks();
    let c = sys_condvar_create(&mut kernel) as usize;
    assert_eq!(sys_condvar_signal(&mut kernel, c), 0);
    assert_eq!(kernel.manager.len(), 1);
    assert_eq!(running_tid(&kernel), 0);
}

#[test]
fn condvar_wait_wakes_a_waiter_of_the_mutex() {
    let mut kernel = two_tasks();
    let m = sys_mutex_create(&mut kernel, true) as usize;
    let c = sys_condvar_create(&mut kernel) as usize;
    assert_eq!(sys_mutex_lock(&mut kernel, m), 0);
    assert_eq!(sys_yield(&mut kernel), 0);
    assert_eq!(running_tid(&kernel), 1);
    assert_eq!(sys_mutex_lock(&mut kernel, m), 0);
    assert_eq!(running_tid(&kernel), 0);
    assert_eq!(sys_condvar_wait(&mut kernel, c, m), 0);
    assert_eq!(running_tid(&kernel), 1);
    assert!(mutex(&kernel, m).is_locking());
    assert_eq!(kernel.manager.len(), 0);
}

#[test]
fn sleep_parks_the_caller_until_a_timer_check_finds_it_due() {
    let mut kernel = two_tasks();
    assert_eq!(sys_sleep(&mut kernel, 100, 50), 0);
    assert_eq!(running_tid(&kernel), 1);
    assert_eq!(kernel.timers.len(), 1);
    assert_eq!(kernel.timers[0].expire_ms, 150);
    assert_eq!(kernel.timers[0].task.tid, 0);
    assert_eq!(kernel.timers[0].task.status, TaskStatus::Blocked);
    kernel.check_timer(149);
    assert_eq!(kernel.timers.len(), 1);
    assert_eq!(kernel.manager.len(), 0);
    kernel.check_timer(150);
    assert_eq!(kernel.timers.len(), 0);
    assert_eq!(kernel.manager.len(), 1);
    assert_eq!(kernel.manager.ready_queue[0].tid, 0);
    assert_eq!(kernel.manager.ready_queue[0].status, TaskStatus::Ready);
}

#[test]
fn timer_check_wakes_due_sleepers_in_order_and_keeps_the_rest() {
    let mut kernel = two_tasks();
    assert_eq!(kernel.thread_create(), 2);
    assert_eq!(sys_sleep(&mut kernel, 0, 30), 0);
    assert_eq!(running_tid(&kernel), 1);
    assert_eq!(sys_sleep(&mut kernel, 0, 10), 0);
    assert_eq!(running_tid(&kernel), 2);
    assert_eq!(sys_sleep(&mut kernel, 0, 20), 0);
    assert_eq!(kernel.current, None);
    kernel.check_timer(20);
    assert_eq!(kernel.timers.len(), 1);
    assert_eq!(kernel.timers[0].task.tid, 0);
    assert_eq!(kernel.manager.len(), 2);
    assert_eq!(kernel.manager.ready_queue[0].tid, 1);
    assert_eq!(kernel.manager.ready_queue[1].tid, 2);
}

use sched_core::sync::mutex::{LockOutcome, Mutex, MutexBlocking, MutexKind, MutexSpin};
use sched_core::task::{TaskControlBlock, TaskStatus};

#[test]
fn spin_mutex_starts_free() {
    let mutex = MutexSpin::new();
    assert!(!mutex.is_locking());
}

#[test]
fn spin_mutex_lock_then_retry_then_unlock() {
    let mut mutex = MutexSpin::new();
    assert_eq!(mutex.lock(TaskControlBlock::new(0, 0)), LockOutcome::Acquired);
    assert!(mutex.is_locking());
    assert_eq!(mutex.lock(TaskControlBlock::new(0, 1)), LockOutcome::Retry);
    assert!(mutex.is_locking());
    assert_eq!(mutex.unlock(), None);
    assert!(!mutex.is_locking());
    assert_eq!(mutex.lock(TaskControlBlock::new(0, 1)), LockOutcome::Acquired);
}

#[test]
fn blocking_mutex_starts_free_with_no_waiter() {
    let mutex = MutexBlocking::new();
    assert!(!mutex.is_locking());
    assert_eq!(mutex.inner.wait_queue.len(), 0);
}

#[test]
fn blocking_mutex_parks_contenders_marked_blocked() {
    let mut mutex = MutexBlocking::new();
    assert_eq!(mutex.lock(TaskControlBlock::new(0, 0)), LockOutcome::Acquired);
    assert_eq!(mutex.inner.wait_queue.len(), 0);
    assert_eq!(mutex.lock(TaskControlBlock::new(0, 1)), LockOutcome::Blocked);
    assert_eq!(mutex.inner.wait_queue.len(), 1);
    assert_eq!(mutex.inner.wait_queue[0].tid, 1);
    assert_eq!(mutex.inner.wait_queue[0].status, TaskStatus::Blocked);
}

#[test]
fn blocking_mutex_hands_off_in_fifo_order_and_stays_locked() {
    let mut mutex = MutexBlocking::new();
    assert_eq!(mutex.lock(TaskControlBlock::new(0, 0)), LockOutcome::Acquired);
    assert_eq!(mutex.lock(TaskControlBlock::new(0, 1)), LockOutcome::Blocked);
    assert_eq!(mutex.lock(TaskControlBlock::new(0, 2)), LockOutcome::Blocked);
    assert_eq!(mutex.lock(TaskControlBlock::new(0, 3)), LockOutcome::Blocked);
    let first = mutex.unlock().unwrap();
    assert_eq!(first.tid, 1);
    assert!(mutex.is_locking());
    let second = mutex.unlock().unwrap();
    assert_eq!(second.tid, 2);
    assert!(mutex.is_locking());
    let third = mutex.unlock().unwrap();
    assert_eq!(third.tid, 3);
    assert!(mutex.is_locking());
    assert_eq!(mutex.unlock(), None);
    assert!(!mutex.is_locking());
}

#[test]
fn a_third_task_cannot_take_a_mutex_that_is_being_handed_off() {
    let mut mutex = MutexBlocking::new();
    assert_eq!(mutex.lock(TaskControlBlock::new(0, 0)), LockOutcome::Acquired);
    assert_eq!(mutex.lock(TaskControlBlock::new(0, 1)), LockOutcome::Blocked);
    assert_eq!(mutex.unlock().unwrap().tid, 1);
    assert_eq!(mutex.lock(TaskControlBlock::new(0, 2)), LockOutcome::Blocked);
    assert_eq!(mutex.unlock().unwrap().tid, 2);
}

#[test]
fn at_most_one_holder_over_a_run_of_calls() {
    let mut mutex = MutexBlocking::new();
    let mut holding: i64 = 0;
    let mut parked: Vec<usize> = Vec::new();
    let mut woken: Vec<usize> = Vec::new();
    for step in 0..200usize {
        if step % 3 == 2 && holding == 1 {
            holding -= 1;
            if let Some(task) = mutex.unlock() {
                woken.push(task.tid);
                holding += 1;
            }
        } else {
            match mutex.lock(TaskControlBlock::new(0, step)) {
                LockOutcome::Acquired => holding += 1,
                LockOutcome::Blocked => parked.push(step),
                LockOutcome::Retry => panic!("a blocking mutex never asks for a retry"),
            }
        }
        assert!(holding == 0 || holding == 1);
        assert_eq!(mutex.is_locking(), holding == 1);
        assert_eq!(woken[..], parked[..woken.len()]);
        assert_eq!(mutex.inner.wait_queue.len(), parked.len() - woken.len());
    }
}

#[test]
fn mutex_kind_follows_its_variant() {
    let mut spin = MutexKind::Spin(MutexSpin::new());
    assert_eq!(spin.lock(TaskControlBlock::new(0, 0)), LockOutcome::Acquired);
    assert_eq!(spin.lock(TaskControlBlock::new(0, 1)), LockOutcome::Retry);
    assert!(spin.is_locking());
    assert_eq!(spin.unlock(), None);
    assert!(!spin.is_locking());
    let mut blocking = MutexKind::Blocking(MutexBlocking::new());
    assert_eq!(blocking.lock(TaskControlBlock::new(0, 0)), LockOutcome::Acquired);
    assert_eq!(blocking.lock(TaskControlBlock::new(0, 1)), LockOutcome::Blocked);
    assert_eq!(blocking.unlock().unwrap().tid, 1);
    assert!(blocking.is_locking());
}

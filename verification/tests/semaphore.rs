use sched_core::sync::condvar::Condvar;
use sched_core::sync::semaphore::Semaphore;
use sched_core::task::{TaskControlBlock, TaskStatus};

#[test]
fn new_semaphore_counts_its_units() {
    let sem = Semaphore::new(3);
    assert_eq!(sem.get_count(), 3);
    assert_eq!(sem.inner.wait_queue.len(), 0);
    assert_eq!(Semaphore::new(0).get_count(), 0);
}

#[test]
fn down_grants_while_units_are_free() {
    let mut sem = Semaphore::new(2);
    assert!(sem.down(TaskControlBlock::new(0, 0)));
    assert_eq!(sem.get_count(), 1);
    assert!(sem.down(TaskControlBlock::new(0, 1)));
    assert_eq!(sem.get_count(), 0);
    assert_eq!(sem.inner.wait_queue.len(), 0);
}

#[test]
fn down_parks_the_caller_when_no_unit_is_free() {
    let mut sem = Semaphore::new(0);
    assert!(!sem.down(TaskControlBlock::new(0, 7)));
    assert_eq!(sem.get_count(), -1);
    assert_eq!(sem.inner.wait_queue.len(), 1);
    assert_eq!(sem.inner.wait_queue[0].tid, 7);
    assert_eq!(sem.inner.wait_queue[0].status, TaskStatus::Blocked);
}

#[test]
fn up_without_waiter_frees_a_unit() {
    let mut sem = Semaphore::new(0);
    assert_eq!(sem.up(), None);
    assert_eq!(sem.get_count(), 1);
}

#[test]
fn up_wakes_waiters_in_fifo_order() {
    let mut sem = Semaphore::new(1);
    assert!(sem.down(TaskControlBlock::new(0, 0)));
    assert!(!sem.down(TaskControlBlock::new(0, 1)));
    assert!(!sem.down(TaskControlBlock::new(0, 2)));
    assert_eq!(sem.get_count(), -2);
    assert_eq!(sem.up().unwrap().tid, 1);
    assert_eq!(sem.get_count(), -1);
    assert_eq!(sem.up().unwrap().tid, 2);
    assert_eq!(sem.get_count(), 0);
    assert_eq!(sem.up(), None);
    assert_eq!(sem.get_count(), 1);
}

#[test]
fn units_are_conserved_over_a_run_of_calls() {
    let n: i64 = 3;
    let mut sem = Semaphore::new(3);
    let mut granted: i64 = 0;
    for step in 0..300usize {
        if step % 5 == 1 || step % 7 == 3 {
            granted -= 1;
            if sem.up().is_some() {
                granted += 1;
            }
        } else if sem.down(TaskControlBlock::new(0, step)) {
            granted += 1;
        }
        let count = sem.get_count() as i64;
        let waiters = sem.inner.wait_queue.len() as i64;
        let free = if count < 0 { 0 } else { count };
        assert_eq!(free + granted, n);
        assert_eq!(count + waiters + granted, n);
        assert_eq!(waiters, if count < 0 { -count } else { 0 });
        if count >= 0 {
            assert_eq!(count + granted, n);
        }
    }
}

#[test]
fn with_a_waiter_the_count_alone_falls_short() {
    let mut sem = Semaphore::new(1);
    assert!(sem.down(TaskControlBlock::new(0, 0)));
    assert!(!sem.down(TaskControlBlock::new(0, 1)));
    let granted: isize = 1;
    assert_eq!(sem.get_count() + granted, 0);
}

#[test]
fn condvar_signal_without_waiter_is_no_error() {
    let mut condvar = Condvar::new();
    assert_eq!(condvar.signal(), None);
    assert_eq!(condvar.wait_queue.len(), 0);
}

#[test]
fn condvar_wakes_in_fifo_order() {
    let mut condvar = Condvar::new();
    condvar.wait(TaskControlBlock::new(0, 4));
    condvar.wait(TaskControlBlock::new(0, 2));
    assert_eq!(condvar.wait_queue[0].status, TaskStatus::Blocked);
    assert_eq!(condvar.signal().unwrap().tid, 4);
    assert_eq!(condvar.signal().unwrap().tid, 2);
    assert_eq!(condvar.signal(), None);
}

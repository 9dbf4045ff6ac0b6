use sched_core::deadlock::is_safe;

#[test]
fn a_state_without_tasks_is_safe() {
    assert!(is_safe(&vec![], &vec![], &vec![]));
    assert!(is_safe(&vec![0, 0], &vec![], &vec![]));
}

#[test]
fn a_state_without_requests_is_safe() {
    let work = vec![0, 0];
    let allocation = vec![vec![1, 0], vec![0, 1]];
    let request = vec![vec![0, 0], vec![0, 0]];
    assert!(is_safe(&work, &allocation, &request));
}

#[test]
fn a_cycle_of_two_is_unsafe() {
    let work = vec![0, 0];
    let allocation = vec![vec![1, 0], vec![0, 1]];
    let request = vec![vec![0, 1], vec![1, 0]];
    assert!(!is_safe(&work, &allocation, &request));
}

#[test]
fn one_waiter_behind_a_free_task_is_safe() {
    let work = vec![0, 0];
    let allocation = vec![vec![1, 0], vec![0, 1]];
    let request = vec![vec![0, 1], vec![0, 0]];
    assert!(is_safe(&work, &allocation, &request));
}

#[test]
fn a_later_task_can_free_an_earlier_one() {
    let work = vec![1];
    let allocation = vec![vec![0], vec![0], vec![3]];
    let request = vec![vec![4], vec![2], vec![1]];
    assert!(is_safe(&work, &allocation, &request));
    let request = vec![vec![5], vec![2], vec![1]];
    assert!(!is_safe(&work, &allocation, &request));
}

#[test]
fn a_request_beyond_all_units_is_unsafe() {
    let work = vec![2];
    let allocation = vec![vec![0]];
    let request = vec![vec![3]];
    assert!(!is_safe(&work, &allocation, &request));
    let request = vec![vec![2]];
    assert!(is_safe(&work, &allocation, &request));
}

#[test]
fn large_holdings_do_not_overflow() {
    let work = vec![usize::MAX];
    let allocation = vec![vec![usize::MAX], vec![usize::MAX], vec![usize::MAX]];
    let request = vec![vec![usize::MAX], vec![usize::MAX], vec![usize::MAX]];
    assert!(is_safe(&work, &allocation, &request));
}

#[test]
fn tasks_without_resources_are_safe() {
    let work: Vec<usize> = vec![];
    let allocation: Vec<Vec<usize>> = vec![vec![], vec![]];
    let request: Vec<Vec<usize>> = vec![vec![], vec![]];
    assert!(is_safe(&work, &allocation, &request));
}

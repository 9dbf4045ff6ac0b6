use sched_core::kernel::Kernel;
use sched_core::mm::MemorySet;
use sched_core::sync::mutex::{Mutex, MutexKind};
use sched_core::syscall::process::{
    sys_exit, sys_fork, sys_set_priority, sys_spawn, sys_waitpid, sys_yield,
};
use sched_core::syscall::sync::{
    sys_condvar_create, sys_condvar_signal, sys_condvar_wait, sys_enable_deadlock_detect,
    sys_mutex_create, sys_mutex_lock, sys_mutex_unlock, sys_semaphore_create, sys_semaphore_down,
    sys_semaphore_up, sys_sleep,
};
use sched_core::task::{TaskControlBlock, TaskStatus};

fn hits(queue: impl Iterator<Item = TaskControlBlock>, pid: usize, tid: usize) -> usize {
    queue.filter(|task| task.pid == pid && task.tid == tid).count()
}

/// Number of places at which the task has a handle.
fn places(kernel: &Kernel, pid: usize, tid: usize) -> usize {
    let mut found = hits(kernel.current.iter().copied(), pid, tid);
    found += hits(kernel.manager.ready_queue.iter().copied(), pid, tid);
    found += hits(kernel.timers.iter().map(|timer| timer.task), pid, tid);
    for process in kernel.processes.iter().flatten() {
        for mutex in process.mutex_list.iter().flatten() {
            if let MutexKind::Blocking(blocking) = mutex {
                found += hits(blocking.inner.wait_queue.iter().copied(), pid, tid);
            }
        }
        for sem in process.semaphore_list.iter().flatten() {
            found += hits(sem.inner.wait_queue.iter().copied(), pid, tid);
        }
        for condvar in process.condvar_list.iter().flatten() {
            found += hits(condvar.wait_queue.iter().copied(), pid, tid);
        }
    }
    found
}

/// Checks that every living task is at one place, every other at none, and
/// that handles carry the status of their place.
fn check(kernel: &Kernel) {
    for pid in 0..kernel.processes.len() + 2 {
        let process = kernel.processes.get(pid).and_then(|slot| slot.as_ref());
        let slots = process.map_or(0, |process| process.tasks.len());
        for tid in 0..slots + 2 {
            let lives = process.map_or(false, |process| {
                !process.is_zombie
                    && process
                        .tasks
                        .get(tid)
                        .and_then(|slot| slot.as_ref())
                        .map_or(false, |slot| slot.exit_code.is_none())
            });
            assert_eq!(places(kernel, pid, tid), if lives { 1 } else { 0 });
        }
    }
    if let Some(task) = kernel.current {
        assert_eq!(task.status, TaskStatus::Running);
    }
    for task in kernel.manager.ready_queue.iter() {
        assert_eq!(task.status, TaskStatus::Ready);
        assert!(task.priority >= 2);
    }
    for timer in kernel.timers.iter() {
        assert_eq!(timer.task.status, TaskStatus::Blocked);
    }
    for process in kernel.processes.iter().flatten() {
        for mutex in process.mutex_list.iter().flatten() {
            if let MutexKind::Blocking(blocking) = mutex {
                assert!(blocking.inner.wait_queue.is_empty() || blocking.inner.locked);
                assert!(blocking.inner.wait_queue.iter().all(|t| t.status == TaskStatus::Blocked));
            }
        }
        for sem in process.semaphore_list.iter().flatten() {
            let count = sem.get_count();
            let waiters = sem.inner.wait_queue.len() as isize;
            assert_eq!(waiters, if count < 0 { -count } else { 0 });
        }
    }
}

/// Brings a task into user mode if one can run. Tasks that spin on a mutex
/// whose holder cannot run may keep the processor busy; the search gives up
/// after a while and leaves such a task on the processor.
fn settle(kernel: &mut Kernel) {
    for _ in 0..64 {
        if kernel.current.is_none() {
            if kernel.manager.len() == 0 {
                return;
            }
            kernel.run_next();
            check(kernel);
        }
        match kernel.current {
            Some(task) if task.pending_lock.is_some() => {
                kernel.resume();
                check(kernel);
            }
            Some(_) => return,
            None => {}
        }
    }
}

struct Dice(u64);

impl Dice {
    fn roll(&mut self, sides: usize) -> usize {
        self.0 = self.0.wrapping_mul(6364136223846793005).wrapping_add(1442695040888963407);
        ((self.0 >> 33) as usize) % sides
    }
}

fn one_step(kernel: &mut Kernel, dice: &mut Dice, now_ms: usize) {
    let task = kernel.current.unwrap();
    let process = kernel.processes[task.pid].as_ref().unwrap();
    let mutexes = process.mutex_list.len();
    let sems = process.semaphore_list.len();
    let condvars = process.condvar_list.len();
    match dice.roll(18) {
        0 => {
            sys_yield(kernel);
        }
        1 => {
            if kernel.processes.iter().flatten().count() < 6 {
                assert!(sys_fork(kernel) > 0);
            }
        }
        2 => {
            if process.tasks.len() < 5 {
                kernel.thread_create();
            }
        }
        3 => {
            if mutexes < 3 {
                sys_mutex_create(kernel, dice.roll(2) == 0);
            }
        }
        4 => {
            if sems < 3 {
                sys_semaphore_create(kernel, dice.roll(3));
            }
        }
        5 => {
            if condvars < 2 {
                sys_condvar_create(kernel);
            }
        }
        6 | 7 => {
            if mutexes > 0 {
                sys_mutex_lock(kernel, dice.roll(mutexes));
            }
        }
        8 | 9 => {
            if mutexes > 0 {
                let id = dice.roll(mutexes);
                if process.mutex_list[id].as_ref().unwrap().is_locking() {
                    sys_mutex_unlock(kernel, id);
                }
            }
        }
        10 | 11 => {
            if sems > 0 {
                let r = sys_semaphore_down(kernel, dice.roll(sems));
                assert!(r == 0 || r == -0xDEAD);
            }
        }
        12 => {
            if sems > 0 {
                sys_semaphore_up(kernel, dice.roll(sems));
            }
        }
        13 => {
            if condvars > 0 && mutexes > 0 {
                let id = dice.roll(mutexes);
                if process.mutex_list[id].as_ref().unwrap().is_locking() {
                    sys_condvar_wait(kernel, dice.roll(condvars), id);
                }
            }
        }
        14 => {
            if condvars > 0 {
                sys_condvar_signal(kernel, dice.roll(condvars));
            }
        }
        15 => {
            sys_sleep(kernel, now_ms, dice.roll(5));
        }
        16 => {
            if task.pid != 0 || task.tid != 0 {
                sys_exit(kernel, dice.roll(100) as i32);
            } else {
                let mut code: i32 = 0;
                sys_waitpid(kernel, -1, &mut code);
            }
        }
        _ => {
            if dice.roll(2) == 0 {
                sys_enable_deadlock_detect(kernel, 1);
            } else if dice.roll(2) == 0 {
                sys_set_priority(kernel, 2 + dice.roll(30) as isize);
            } else if kernel.processes.iter().flatten().count() < 6 {
                sys_spawn(kernel, Some(MemorySet::new(0)));
            }
        }
    }
}

fn run_for(seed: u64, steps: usize) {
    let mut dice = Dice(seed);
    let mut kernel = Kernel::new();
    check(&kernel);
    kernel.add_process(None, MemorySet::new(0));
    check(&kernel);
    settle(&mut kernel);
    for now_ms in 0..steps {
        kernel.check_timer(now_ms);
        check(&kernel);
        settle(&mut kernel);
        match kernel.current {
            Some(task) if task.pending_lock.is_none() => {}
            _ => continue,
        }
        one_step(&mut kernel, &mut dice, now_ms);
        check(&kernel);
    }
}

#[test]
fn every_task_stays_at_one_place_first_run() {
    run_for(1, 3000);
}

#[test]
fn every_task_stays_at_one_place_second_run() {
    run_for(0xfeed_beef, 3000);
}

#[test]
fn every_task_stays_at_one_place_many_short_runs() {
    for seed in 100..160u64 {
        run_for(seed, 300);
    }
}

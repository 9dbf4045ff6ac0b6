//! System calls for sleeping and for mutexes, semaphores and condition
//! variables.

use vstd::prelude::*;
use crate::config::DEADLOCK;
use crate::kernel::{dispatch, woken_joins, Kernel, Timer};
use crate::placement::{
    each_in_place, lemma_create_in_place, lemma_plain_change_in_place,
    lemma_semaphore_down_in_place, lemma_semaphore_up_in_place, lemma_signal_in_place,
    lemma_sleep_in_place, lemma_unlock_in_place, lemma_wait_in_place,
};
use crate::slots::first_free;
use crate::sync::mutex::Mutex;
use crate::status::{
    lemma_quiet_change_status, lemma_semaphore_down_status, lemma_semaphore_up_status,
    lemma_signal_status, lemma_sleep_status, lemma_unlock_status, lemma_wait_status,
    status_in_place,
};
use crate::task::{TaskControlBlock, TaskStatus};

verus! {

/// Puts the running task to sleep for `ms` milliseconds, counted from the
/// present time `now_ms`. The task is parked, blocked, with the timers and
/// is due at `now_ms + ms`; the next ready task is dispatched. Returns 0,
/// which the task sees once a timer check has found it due and it runs
/// again.
pub fn sys_sleep(kernel: &mut Kernel, now_ms: usize, ms: usize) -> (r: isize)
    requires
        old(kernel).wf(),
        old(kernel).current is Some,
        now_ms + ms <= usize::MAX,
    ensures
        final(kernel).wf(),
        r == 0,
        final(kernel).processes == old(kernel).processes,
        final(kernel).timers@ == old(kernel).timers@.push(
            Timer {
                expire_ms: (now_ms + ms) as usize,
                task: old(kernel).current->0.with_status(TaskStatus::Blocked),
            },
        ),
        (final(kernel).manager@, final(kernel).current) == dispatch(old(kernel).manager@),
        old(kernel).settled() ==> final(kernel).settled(),
{
    let expire_ms: usize = now_ms + ms;
    let task: TaskControlBlock = kernel.current.unwrap();
    kernel.add_timer(expire_ms, task);
    kernel.block_current_and_run_next();
    proof {
        if each_in_place(*old(kernel)) {
            lemma_sleep_in_place(*old(kernel), *kernel, expire_ms);
        }
        if status_in_place(*old(kernel)) {
            lemma_sleep_status(*old(kernel), *kernel, expire_ms);
        }
    }
    0
}

/// Creates a mutex in the process of the running task, blocking or spinning,
/// and returns its id: the first free slot of the mutex table, which grows
/// when no slot is free.
pub fn sys_mutex_create(kernel: &mut Kernel, blocking: bool) -> (id: isize)
    requires
        old(kernel).wf(),
        old(kernel).current is Some,
        old(kernel).cur_process().mutex_list@.len() < isize::MAX,
    ensures
        final(kernel).wf(),
        id == first_free(old(kernel).cur_process().mutex_list@),
        old(kernel).only_cur_process_changed(final(kernel)),
        old(kernel).cur_process().did_create_mutex(&final(kernel).cur_process(), blocking),
        old(kernel).settled() ==> final(kernel).settled(),
{
    let task: TaskControlBlock = kernel.current.unwrap();
    let pid: usize = task.pid;
    let id: usize = match &mut kernel.processes[pid] {
        Some(process) => process.create_mutex(blocking),
        None => 0,
    };
    proof {
        old(kernel).lemma_cur_process_changed(kernel);
        if each_in_place(*old(kernel)) {
            assert(old(kernel).live(task));
            lemma_create_in_place(*old(kernel), *kernel);
        }
        if status_in_place(*old(kernel)) {
            assert(old(kernel).live(task));
            lemma_quiet_change_status(*old(kernel), *kernel);
        }
    }
    id as isize
}

/// Locks mutex `mutex_id` for the running task.
///
/// With deadlock detection on, a mutex that is held is not waited for: the
/// call returns `DEADLOCK` and changes nothing. This is a check of this one
/// mutex alone; it turns away callers that would merely have waited, and it
/// looks at no other resource. Otherwise the call returns 0: at once when the
/// mutex was free, after the hand-off when the caller was parked on a
/// blocking mutex, after a successful retry when it yielded on a spinning
/// one.
pub fn sys_mutex_lock(kernel: &mut Kernel, mutex_id: usize) -> (r: isize)
    requires
        old(kernel).wf(),
        old(kernel).current is Some,
        old(kernel).cur_process().has_mutex(mutex_id as int),
    ensures
        final(kernel).wf(),
        if old(kernel).cur_process().deadlock_detect_enabled && old(kernel).cur_process().mutex(
            mutex_id as int,
        ).state().locked {
            r == DEADLOCK && *final(kernel) == *old(kernel)
        } else {
            r == 0 && old(kernel).did_lock(final(kernel), mutex_id as int)
        },
        old(kernel).settled() ==> final(kernel).settled(),
{
    let task: TaskControlBlock = kernel.current.unwrap();
    let pid: usize = task.pid;
    let refused: bool = match &kernel.processes[pid] {
        Some(process) => process.deadlock_detect_enabled && process.mutex_is_locking(mutex_id),
        None => false,
    };
    if refused {
        return DEADLOCK;
    }
    kernel.lock_current(mutex_id);
    0
}

/// Unlocks mutex `mutex_id`, which must be held. A waiter, if there is one,
/// takes the mutex over and becomes ready; without one the mutex becomes
/// free. Returns 0.
pub fn sys_mutex_unlock(kernel: &mut Kernel, mutex_id: usize) -> (r: isize)
    requires
        old(kernel).wf(),
        old(kernel).current is Some,
        old(kernel).cur_process().has_mutex(mutex_id as int),
        old(kernel).cur_process().mutex(mutex_id as int).state().locked,
    ensures
        final(kernel).wf(),
        r == 0,
        old(kernel).cur_process_and_schedule_changed(final(kernel)),
        old(kernel).cur_process().did_mutex_unlock(&final(kernel).cur_process(), mutex_id as int),
        final(kernel).current == old(kernel).current,
        final(kernel).manager@ == woken_joins(
            old(kernel).manager@,
            old(kernel).cur_process().mutex(mutex_id as int).state().woken_by_unlock(),
        ),
        old(kernel).settled() ==> final(kernel).settled(),
{
    let task: TaskControlBlock = kernel.current.unwrap();
    let pid: usize = task.pid;
    let woken: Option<TaskControlBlock> = match &mut kernel.processes[pid] {
        Some(process) => process.mutex_unlock(mutex_id),
        None => None,
    };
    proof {
        old(kernel).lemma_cur_process_changed(kernel);
    }
    match woken {
        Some(other) => {
            kernel.wakeup_task(other);
        },
        None => {},
    }
    proof {
        if each_in_place(*old(kernel)) {
            assert(old(kernel).live(task));
            lemma_unlock_in_place(*old(kernel), *kernel, mutex_id as int);
        }
        if status_in_place(*old(kernel)) {
            assert(old(kernel).live(task));
            lemma_unlock_status(*old(kernel), *kernel, mutex_id as int);
        }
    }
    0
}

/// Creates a semaphore with `res_count` free units in the process of the
/// running task and returns its id: the first free slot of the semaphore
/// table, which grows when no slot is free.
pub fn sys_semaphore_create(kernel: &mut Kernel, res_count: usize) -> (id: isize)
    requires
        old(kernel).wf(),
        old(kernel).current is Some,
        old(kernel).cur_process().semaphore_list@.len() < isize::MAX,
        res_count <= isize::MAX,
    ensures
        final(kernel).wf(),
        id == first_free(old(kernel).cur_process().semaphore_list@),
        old(kernel).only_cur_process_changed(final(kernel)),
        old(kernel).cur_process().did_create_semaphore(
            &final(kernel).cur_process(),
            res_count as int,
        ),
        old(kernel).settled() ==> final(kernel).settled(),
{
    let task: TaskControlBlock = kernel.current.unwrap();
    let pid: usize = task.pid;
    let id: usize = match &mut kernel.processes[pid] {
        Some(process) => process.create_semaphore(res_count),
        None => 0,
    };
    proof {
        old(kernel).lemma_cur_process_changed(kernel);
        if each_in_place(*old(kernel)) {
            assert(old(kernel).live(task));
            lemma_create_in_place(*old(kernel), *kernel);
        }
        if status_in_place(*old(kernel)) {
            assert(old(kernel).live(task));
            lemma_quiet_change_status(*old(kernel), *kernel);
        }
    }
    id as isize
}

/// Returns the id of the running task within its process.
pub fn get_tid(kernel: &Kernel) -> (tid: usize)
    requires
        kernel.current is Some,
    ensures
        tid == kernel.current->0.tid,
{
    kernel.current.unwrap().tid
}

/// An `up` on semaphore `sem_id` by the running task. The count grows by
/// one; when it is still zero or below, the oldest waiter gets the unit and
/// becomes ready. The ledgers follow as
/// [`ProcessControlBlock::semaphore_up`](crate::process::ProcessControlBlock::semaphore_up)
/// says. Returns 0.
pub fn sys_semaphore_up(kernel: &mut Kernel, sem_id: usize) -> (r: isize)
    requires
        old(kernel).wf(),
        old(kernel).current is Some,
        old(kernel).cur_process().has_semaphore(sem_id as int),
        old(kernel).cur_process().semaphore(sem_id as int)@.count < isize::MAX,
        old(kernel).cur_process().semaphore(sem_id as int)@.woken_by_up() matches Some(task)
            ==> old(kernel).cur_process().held(task.tid as int, sem_id as int) < usize::MAX,
    ensures
        final(kernel).wf(),
        r == 0,
        old(kernel).cur_process_and_schedule_changed(final(kernel)),
        old(kernel).cur_process().did_semaphore_up(
            &final(kernel).cur_process(),
            old(kernel).current->0.tid as int,
            sem_id as int,
        ),
        final(kernel).current == old(kernel).current,
        final(kernel).manager@ == woken_joins(
            old(kernel).manager@,
            old(kernel).cur_process().semaphore(sem_id as int)@.woken_by_up(),
        ),
        old(kernel).settled() ==> final(kernel).settled(),
{
    let current_tid: usize = get_tid(kernel);
    let task: TaskControlBlock = kernel.current.unwrap();
    let pid: usize = task.pid;
    let woken: Option<TaskControlBlock> = match &mut kernel.processes[pid] {
        Some(process) => process.semaphore_up(current_tid, sem_id),
        None => None,
    };
    proof {
        old(kernel).lemma_cur_process_changed(kernel);
    }
    match woken {
        Some(other) => {
            kernel.wakeup_task(other);
        },
        None => {},
    }
    proof {
        if each_in_place(*old(kernel)) {
            assert(old(kernel).live(task));
            lemma_semaphore_up_in_place(*old(kernel), *kernel, sem_id as int);
        }
        if status_in_place(*old(kernel)) {
            assert(old(kernel).live(task));
            lemma_semaphore_up_status(*old(kernel), *kernel, sem_id as int);
        }
    }
    0
}

/// A `down` on semaphore `sem_id` by the running task.
///
/// With deadlock detection on, the detector first looks at the state that
/// the wish would lead to: the free units of every semaphore, the ledgers of
/// the living tasks, and the pending requests with this wish added. When
/// that state is not safe the call returns `DEADLOCK` and changes nothing:
/// the caller is not parked and no ledger is touched.
///
/// Otherwise the count shrinks by one and the call returns 0. A unit that
/// was free is granted at once and entered in the caller's ledger. When none
/// was free the wish is entered as a pending request, the caller is parked
/// in the semaphore's queue, and the next ready task is dispatched; the
/// caller sees the 0 after an `up` has given it the unit.
pub fn sys_semaphore_down(kernel: &mut Kernel, sem_id: usize) -> (r: isize)
    requires
        old(kernel).wf(),
        old(kernel).current is Some,
        old(kernel).cur_process().has_semaphore(sem_id as int),
        old(kernel).cur_process().semaphore(sem_id as int)@.count > isize::MIN,
        old(kernel).cur_process().held(old(kernel).current->0.tid as int, sem_id as int)
            < usize::MAX,
        old(kernel).cur_process().wanted(old(kernel).current->0.tid as int, sem_id as int)
            < usize::MAX,
    ensures
        final(kernel).wf(),
        if old(kernel).cur_process().deadlock_detect_enabled && old(
            kernel,
        ).cur_process().would_deadlock(old(kernel).current->0.tid as int, sem_id as int) {
            r == DEADLOCK && *final(kernel) == *old(kernel)
        } else {
            &&& r == 0
            &&& old(kernel).cur_process_and_schedule_changed(final(kernel))
            &&& old(kernel).cur_process().did_semaphore_down(
                &final(kernel).process(old(kernel).current->0.pid as int),
                old(kernel).current->0,
                sem_id as int,
            )
            &&& if old(kernel).cur_process().semaphore(sem_id as int)@.grants() {
                final(kernel).manager == old(kernel).manager && final(kernel).current == old(
                    kernel,
                ).current
            } else {
                (final(kernel).manager@, final(kernel).current) == dispatch(old(kernel).manager@)
            }
        },
        old(kernel).settled() ==> final(kernel).settled(),
{
    let current_tid: usize = get_tid(kernel);
    let task: TaskControlBlock = kernel.current.unwrap();
    let pid: usize = task.pid;
    let refused: bool = match &kernel.processes[pid] {
        Some(process) => process.deadlock_detect_enabled && process.detect_deadlock(
            current_tid,
            sem_id,
        ),
        None => false,
    };
    if refused {
        return DEADLOCK;
    }
    let granted: bool = match &mut kernel.processes[pid] {
        Some(process) => process.semaphore_down(task, sem_id),
        None => true,
    };
    proof {
        old(kernel).lemma_cur_process_changed(kernel);
    }
    if !granted {
        kernel.block_current_and_run_next();
    }
    proof {
        if each_in_place(*old(kernel)) {
            assert(old(kernel).live(task));
            lemma_semaphore_down_in_place(*old(kernel), *kernel, sem_id as int);
        }
        if status_in_place(*old(kernel)) {
            assert(old(kernel).live(task));
            lemma_semaphore_down_status(*old(kernel), *kernel, sem_id as int);
        }
    }
    0
}

/// Creates a condition variable in the process of the running task and
/// returns its id: the first free slot of the condition-variable table,
/// which grows when no slot is free.
pub fn sys_condvar_create(kernel: &mut Kernel) -> (id: isize)
    requires
        old(kernel).wf(),
        old(kernel).current is Some,
        old(kernel).cur_process().condvar_list@.len() < isize::MAX,
    ensures
        final(kernel).wf(),
        id == first_free(old(kernel).cur_process().condvar_list@),
        old(kernel).only_cur_process_changed(final(kernel)),
        old(kernel).cur_process().did_create_condvar(&final(kernel).cur_process()),
        old(kernel).settled() ==> final(kernel).settled(),
{
    let task: TaskControlBlock = kernel.current.unwrap();
    let pid: usize = task.pid;
    let id: usize = match &mut kernel.processes[pid] {
        Some(process) => process.create_condvar(),
        None => 0,
    };
    proof {
        old(kernel).lemma_cur_process_changed(kernel);
        if each_in_place(*old(kernel)) {
            assert(old(kernel).live(task));
            lemma_create_in_place(*old(kernel), *kernel);
        }
        if status_in_place(*old(kernel)) {
            assert(old(kernel).live(task));
            lemma_quiet_change_status(*old(kernel), *kernel);
        }
    }
    id as isize
}

/// Wakes the oldest waiter of condition variable `condvar_id`: it leaves the
/// queue and becomes ready, still with its pending lock. Without a waiter
/// nothing changes. Returns 0.
pub fn sys_condvar_signal(kernel: &mut Kernel, condvar_id: usize) -> (r: isize)
    requires
        old(kernel).wf(),
        old(kernel).current is Some,
        old(kernel).cur_process().has_condvar(condvar_id as int),
    ensures
        final(kernel).wf(),
        r == 0,
        old(kernel).cur_process_and_schedule_changed(final(kernel)),
        old(kernel).cur_process().did_condvar_signal(
            &final(kernel).cur_process(),
            condvar_id as int,
        ),
        final(kernel).current == old(kernel).current,
        final(kernel).manager@ == woken_joins(
            old(kernel).manager@,
            old(kernel).cur_process().woken_by_signal(condvar_id as int),
        ),
        old(kernel).settled() ==> final(kernel).settled(),
{
    let task: TaskControlBlock = kernel.current.unwrap();
    let pid: usize = task.pid;
    let woken: Option<TaskControlBlock> = match &mut kernel.processes[pid] {
        Some(process) => process.condvar_signal(condvar_id),
        None => None,
    };
    proof {
        old(kernel).lemma_cur_process_changed(kernel);
    }
    match woken {
        Some(other) => {
            kernel.wakeup_task(other);
        },
        None => {},
    }
    proof {
        if each_in_place(*old(kernel)) {
            assert(old(kernel).live(task));
            lemma_signal_in_place(*old(kernel), *kernel, condvar_id as int);
        }
        if status_in_place(*old(kernel)) {
            assert(old(kernel).live(task));
            lemma_signal_status(*old(kernel), *kernel, condvar_id as int);
        }
    }
    0
}

/// The running task waits on condition variable `condvar_id` with mutex
/// `mutex_id`, which it must hold. The mutex is unlocked, which may make a
/// waiter of the mutex ready; the caller is parked on the condition variable
/// with the mutex as its pending lock; the next ready task is dispatched.
/// Returns 0, which the caller sees only after a signal has woken it and it
/// has locked the mutex again: see [`Kernel::resume`].
pub fn sys_condvar_wait(kernel: &mut Kernel, condvar_id: usize, mutex_id: usize) -> (r: isize)
    requires
        old(kernel).wf(),
        old(kernel).current is Some,
        old(kernel).cur_process().has_condvar(condvar_id as int),
        old(kernel).cur_process().has_mutex(mutex_id as int),
        old(kernel).cur_process().mutex(mutex_id as int).state().locked,
    ensures
        final(kernel).wf(),
        r == 0,
        old(kernel).cur_process_and_schedule_changed(final(kernel)),
        old(kernel).cur_process().did_condvar_wait(
            &final(kernel).process(old(kernel).current->0.pid as int),
            old(kernel).current->0,
            condvar_id as int,
            mutex_id as int,
        ),
        (final(kernel).manager@, final(kernel).current) == dispatch(
            woken_joins(
                old(kernel).manager@,
                old(kernel).cur_process().mutex(mutex_id as int).state().woken_by_unlock(),
            ),
        ),
        old(kernel).settled() ==> final(kernel).settled(),
{
    let task: TaskControlBlock = kernel.current.unwrap();
    let pid: usize = task.pid;
    let woken: Option<TaskControlBlock> = match &mut kernel.processes[pid] {
        Some(process) => process.condvar_wait(task, condvar_id, mutex_id),
        None => None,
    };
    proof {
        old(kernel).lemma_cur_process_changed(kernel);
    }
    match woken {
        Some(other) => {
            kernel.wakeup_task(other);
        },
        None => {},
    }
    kernel.block_current_and_run_next();
    proof {
        if each_in_place(*old(kernel)) {
            assert(old(kernel).live(task));
            lemma_wait_in_place(*old(kernel), *kernel, condvar_id as int, mutex_id as int);
        }
        if status_in_place(*old(kernel)) {
            assert(old(kernel).live(task));
            lemma_wait_status(*old(kernel), *kernel, condvar_id as int, mutex_id as int);
        }
    }
    0
}

/// Turns deadlock detection on for the process of the running task. The
/// argument is not looked at and detection cannot be turned off again.
/// Returns 0.
pub fn sys_enable_deadlock_detect(kernel: &mut Kernel, _enabled: usize) -> (r: isize)
    requires
        old(kernel).wf(),
        old(kernel).current is Some,
    ensures
        final(kernel).wf(),
        r == 0,
        old(kernel).only_cur_process_changed(final(kernel)),
        final(kernel).cur_process() == (crate::process::ProcessControlBlock {
            deadlock_detect_enabled: true,
            ..old(kernel).cur_process()
        }),
        old(kernel).settled() ==> final(kernel).settled(),
{
    let task: TaskControlBlock = kernel.current.unwrap();
    let pid: usize = task.pid;
    match &mut kernel.processes[pid] {
        Some(process) => {
            process.deadlock_detect_enabled = true;
        },
        None => {},
    }
    proof {
        let before = old(kernel).cur_process();
        let after = kernel.cur_process();
        before.lemma_wf_objects(&after, -1, -1, -1);
        old(kernel).lemma_cur_process_changed(kernel);
        if each_in_place(*old(kernel)) {
            assert(old(kernel).live(task));
            lemma_plain_change_in_place(*old(kernel), *kernel);
        }
        if status_in_place(*old(kernel)) {
            assert(old(kernel).live(task));
            lemma_quiet_change_status(*old(kernel), *kernel);
        }
    }
    0
}

} // verus!

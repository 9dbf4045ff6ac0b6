//! Where the handles of the tasks are.
//!
//! A task that lives is at exactly one place: it runs, or it is ready, or it
//! sleeps, or it waits in the queue of one mutex, semaphore or condition
//! variable. A task that has exited, or whose process has, is at no place.
//! The lemmas of this file show that every step of the kernel keeps it so.

use vstd::prelude::*;
use crate::kernel::{
    dispatch, due_tasks, Kernel, not_due, Timer, timer_tasks, timers_without_process,
    woken_joins,
};
use crate::mm::MemorySet;
use crate::process::ProcessControlBlock;
use crate::slots::{first_free, inserted, lemma_first_free_exists};
use crate::sync::condvar::Condvar;
use crate::sync::mutex::{Mutex, MutexKind};
use crate::sync::semaphore::Semaphore;
use crate::task::fairness::lemma_first_min_stride_exists;
use crate::task::manager::{first_min_stride, without_process};
use crate::task::{TaskControlBlock, TaskStatus};

verus! {

/// One when `task` is a handle of task `tid` of process `pid`, else zero.
pub open spec fn hit(task: TaskControlBlock, pid: usize, tid: usize) -> int {
    if task.pid == pid && task.tid == tid {
        1
    } else {
        0
    }
}

/// One when there is a handle and it is of task `tid` of process `pid`.
pub open spec fn hit_some(task: Option<TaskControlBlock>, pid: usize, tid: usize) -> int {
    match task {
        Some(task) => hit(task, pid, tid),
        None => 0,
    }
}

/// Number of handles of task `tid` of process `pid` in the queue.
pub open spec fn count(queue: Seq<TaskControlBlock>, pid: usize, tid: usize) -> int
    decreases queue.len(),
{
    if queue.len() == 0 {
        0
    } else {
        count(queue.drop_last(), pid, tid) + hit(queue.last(), pid, tid)
    }
}

proof fn lemma_count_push(queue: Seq<TaskControlBlock>, task: TaskControlBlock, pid: usize, tid: usize)
    ensures
        count(queue.push(task), pid, tid) == count(queue, pid, tid) + hit(task, pid, tid),
{
    assert(queue.push(task).drop_last() =~= queue);
}

proof fn lemma_count_remove(queue: Seq<TaskControlBlock>, i: int, pid: usize, tid: usize)
    requires
        0 <= i < queue.len(),
    ensures
        count(queue.remove(i), pid, tid) == count(queue, pid, tid) - hit(queue[i], pid, tid),
    decreases queue.len(),
{
    if i == queue.len() - 1 {
        assert(queue.remove(i) =~= queue.drop_last());
    } else {
        lemma_count_remove(queue.drop_last(), i, pid, tid);
        assert(queue.remove(i) =~= queue.drop_last().remove(i).push(queue.last()));
        lemma_count_push(queue.drop_last().remove(i), queue.last(), pid, tid);
    }
}

proof fn lemma_count_tail(queue: Seq<TaskControlBlock>, pid: usize, tid: usize)
    requires
        queue.len() > 0,
    ensures
        count(queue.subrange(1, queue.len() as int), pid, tid) == count(queue, pid, tid) - hit(
            queue[0],
            pid,
            tid,
        ),
{
    assert(queue.subrange(1, queue.len() as int) =~= queue.remove(0));
    lemma_count_remove(queue, 0, pid, tid);
}

proof fn lemma_count_add(
    front: Seq<TaskControlBlock>,
    back: Seq<TaskControlBlock>,
    pid: usize,
    tid: usize,
)
    ensures
        count(front + back, pid, tid) == count(front, pid, tid) + count(back, pid, tid),
    decreases back.len(),
{
    if back.len() == 0 {
        assert(front + back =~= front);
    } else {
        lemma_count_add(front, back.drop_last(), pid, tid);
        assert((front + back).drop_last() =~= front + back.drop_last());
        assert((front + back).last() == back.last());
    }
}

proof fn lemma_count_none(queue: Seq<TaskControlBlock>, pid: usize, tid: usize)
    requires
        forall|i: int| 0 <= i < queue.len() ==> hit(#[trigger] queue[i], pid, tid) == 0,
    ensures
        count(queue, pid, tid) == 0,
    decreases queue.len(),
{
    if queue.len() > 0 {
        assert forall|i: int| 0 <= i < queue.drop_last().len() implies hit(
            #[trigger] queue.drop_last()[i],
            pid,
            tid,
        ) == 0 by {
            assert(queue.drop_last()[i] == queue[i]);
        }
        lemma_count_none(queue.drop_last(), pid, tid);
        assert(queue[queue.len() - 1] == queue.last());
    }
}

proof fn lemma_count_without_process(
    queue: Seq<TaskControlBlock>,
    gone: usize,
    pid: usize,
    tid: usize,
)
    ensures
        count(without_process(queue, gone), pid, tid) == (if pid == gone {
            0
        } else {
            count(queue, pid, tid)
        }),
    decreases queue.len(),
{
    if queue.len() > 0 {
        lemma_count_without_process(queue.drop_last(), gone, pid, tid);
        if queue.last().pid != gone {
            lemma_count_push(without_process(queue.drop_last(), gone), queue.last(), pid, tid);
        }
    }
}

proof fn lemma_count_timers_push(timers: Seq<Timer>, timer: Timer, pid: usize, tid: usize)
    ensures
        count(timer_tasks(timers.push(timer)), pid, tid) == count(timer_tasks(timers), pid, tid)
            + hit(timer.task, pid, tid),
{
    assert(timer_tasks(timers.push(timer)) =~= timer_tasks(timers).push(timer.task));
    lemma_count_push(timer_tasks(timers), timer.task, pid, tid);
}

proof fn lemma_count_due(timers: Seq<Timer>, now_ms: usize, pid: usize, tid: usize)
    ensures
        count(due_tasks(timers, now_ms), pid, tid) + count(
            timer_tasks(not_due(timers, now_ms)),
            pid,
            tid,
        ) == count(timer_tasks(timers), pid, tid),
    decreases timers.len(),
{
    if timers.len() > 0 {
        lemma_count_due(timers.drop_last(), now_ms, pid, tid);
        assert(timer_tasks(timers).drop_last() =~= timer_tasks(timers.drop_last()));
        assert(timer_tasks(timers).last() == timers.last().task);
        if timers.last().expire_ms <= now_ms {
            lemma_count_push(
                due_tasks(timers.drop_last(), now_ms),
                timers.last().task.with_status(TaskStatus::Ready),
                pid,
                tid,
            );
        } else {
            lemma_count_timers_push(not_due(timers.drop_last(), now_ms), timers.last(), pid, tid);
        }
    } else {
        assert(timer_tasks(timers) =~= Seq::<TaskControlBlock>::empty());
    }
}

proof fn lemma_count_timers_without_process(
    timers: Seq<Timer>,
    gone: usize,
    pid: usize,
    tid: usize,
)
    ensures
        count(timer_tasks(timers_without_process(timers, gone)), pid, tid) == (if pid == gone {
            0
        } else {
            count(timer_tasks(timers), pid, tid)
        }),
    decreases timers.len(),
{
    if timers.len() > 0 {
        lemma_count_timers_without_process(timers.drop_last(), gone, pid, tid);
        assert(timer_tasks(timers).drop_last() =~= timer_tasks(timers.drop_last()));
        assert(timer_tasks(timers).last() == timers.last().task);
        if timers.last().task.pid != gone {
            lemma_count_timers_push(
                timers_without_process(timers.drop_last(), gone),
                timers.last(),
                pid,
                tid,
            );
        }
    } else {
        assert(timer_tasks(timers) =~= Seq::<TaskControlBlock>::empty());
        assert(timer_tasks(timers_without_process(timers, gone)) =~= Seq::<
            TaskControlBlock,
        >::empty());
    }
}

/// A dispatch moves one handle from the ready queue to the processor.
proof fn lemma_count_dispatch(ready: Seq<TaskControlBlock>, pid: usize, tid: usize)
    ensures
        count(dispatch(ready).0, pid, tid) + hit_some(dispatch(ready).1, pid, tid) == count(
            ready,
            pid,
            tid,
        ),
{
    if ready.len() > 0 {
        lemma_first_min_stride_exists(ready);
        lemma_count_remove(ready, first_min_stride(ready), pid, tid);
    }
}

/// A wake-up adds the woken handle to the ready queue.
proof fn lemma_count_woken(
    ready: Seq<TaskControlBlock>,
    woken: Option<TaskControlBlock>,
    pid: usize,
    tid: usize,
)
    ensures
        count(woken_joins(ready, woken), pid, tid) == count(ready, pid, tid) + hit_some(
            woken,
            pid,
            tid,
        ),
{
    if woken is Some {
        lemma_count_push(ready, woken->0.with_status(TaskStatus::Ready), pid, tid);
    }
}

/// The wait queues of the mutexes of a table, by id; a freed id has an empty
/// queue.
pub open spec fn mutex_queues(list: Seq<Option<MutexKind>>) -> Seq<Seq<TaskControlBlock>> {
    Seq::new(
        list.len(),
        |i: int|
            match list[i] {
                Some(mutex) => mutex.state().waiters,
                None => Seq::empty(),
            },
    )
}

/// The wait queues of the semaphores of a table, by id.
pub open spec fn semaphore_queues(list: Seq<Option<Semaphore>>) -> Seq<Seq<TaskControlBlock>> {
    Seq::new(
        list.len(),
        |i: int|
            match list[i] {
                Some(sem) => sem@.waiters,
                None => Seq::empty(),
            },
    )
}

/// The wait queues of the condition variables of a table, by id.
pub open spec fn condvar_queues(list: Seq<Option<Condvar>>) -> Seq<Seq<TaskControlBlock>> {
    Seq::new(
        list.len(),
        |i: int|
            match list[i] {
                Some(condvar) => condvar@,
                None => Seq::empty(),
            },
    )
}

/// Number of handles of task `tid` of process `pid` in the first `n` queues.
pub open spec fn count_all(queues: Seq<Seq<TaskControlBlock>>, n: int, pid: usize, tid: usize) -> int
    decreases n,
{
    if n <= 0 {
        0
    } else {
        count_all(queues, n - 1, pid, tid) + count(queues[n - 1], pid, tid)
    }
}

proof fn lemma_count_all_replaced(
    old_queues: Seq<Seq<TaskControlBlock>>,
    new_queues: Seq<Seq<TaskControlBlock>>,
    at: int,
    n: int,
    pid: usize,
    tid: usize,
)
    requires
        0 <= n <= old_queues.len(),
        n <= new_queues.len(),
        forall|k: int| 0 <= k < n && k != at ==> new_queues[k] == old_queues[k],
    ensures
        count_all(new_queues, n, pid, tid) == count_all(old_queues, n, pid, tid) + (if 0 <= at
            < n {
            count(new_queues[at], pid, tid) - count(old_queues[at], pid, tid)
        } else {
            0
        }),
    decreases n,
{
    if n > 0 {
        lemma_count_all_replaced(old_queues, new_queues, at, n - 1, pid, tid);
    }
}

/// Number of handles of task `tid` of process `pid` that wait in the queues
/// of the synchronisation objects of `process`.
pub open spec fn waiting_in(process: ProcessControlBlock, pid: usize, tid: usize) -> int {
    count_all(mutex_queues(process.mutex_list@), process.mutex_list@.len() as int, pid, tid)
        + count_all(
        semaphore_queues(process.semaphore_list@),
        process.semaphore_list@.len() as int,
        pid,
        tid,
    ) + count_all(
        condvar_queues(process.condvar_list@),
        process.condvar_list@.len() as int,
        pid,
        tid,
    )
}

/// Number of handles of task `tid` of process `pid` that wait in the queues
/// of the first `n` processes.
pub open spec fn waiting(processes: Seq<Option<ProcessControlBlock>>, n: int, pid: usize, tid: usize) -> int
    decreases n,
{
    if n <= 0 {
        0
    } else {
        waiting(processes, n - 1, pid, tid) + (match processes[n - 1] {
            Some(process) => waiting_in(process, pid, tid),
            None => 0,
        })
    }
}

/// Number of places at which task `tid` of process `pid` has a handle: on
/// the processor, in the ready queue, with the timers and in the wait
/// queues.
pub open spec fn places(kernel: Kernel, pid: usize, tid: usize) -> int {
    hit_some(kernel.current, pid, tid) + count(kernel.manager@, pid, tid) + count(
        timer_tasks(kernel.timers@),
        pid,
        tid,
    ) + waiting(kernel.processes@, kernel.processes@.len() as int, pid, tid)
}

/// Number of places at which task `tid` of process `pid` should have a
/// handle: one while the task lives and its process has not exited, else
/// none.
pub open spec fn due_places(kernel: Kernel, pid: usize, tid: usize) -> int {
    if kernel.has_process(pid as int) && !kernel.process(pid as int).is_zombie && kernel.process(
        pid as int,
    ).alive(tid as int) {
        1
    } else {
        0
    }
}

/// Every task is where it should be: at one place while it lives, at none
/// after.
pub open spec fn each_in_place(kernel: Kernel) -> bool {
    forall|pid: usize, tid: usize| #[trigger] places(kernel, pid, tid) == due_places(kernel, pid, tid)
}

/// A kernel without processes has every task in place.
pub proof fn lemma_new_in_place(kernel: Kernel)
    requires
        kernel.processes@.len() == 0,
        kernel.manager@.len() == 0,
        kernel.current is None,
        kernel.timers@.len() == 0,
    ensures
        each_in_place(kernel),
{
    assert forall|pid: usize, tid: usize| #[trigger] places(kernel, pid, tid) == due_places(kernel, pid, tid) by {
        assert(timer_tasks(kernel.timers@) =~= Seq::<TaskControlBlock>::empty());
    }
}

/// A dispatch on an idle processor keeps every task in place.
pub proof fn lemma_run_next_in_place(old: Kernel, new: Kernel)
    requires
        each_in_place(old),
        old.current is None,
        new == (Kernel { manager: new.manager, current: new.current, ..old }),
        (new.manager@, new.current) == dispatch(old.manager@),
    ensures
        each_in_place(new),
{
    assert forall|pid: usize, tid: usize| #[trigger] places(new, pid, tid) == due_places(new, pid, tid) by {
        assert(places(old, pid, tid) == due_places(old, pid, tid));
        lemma_count_dispatch(old.manager@, pid, tid);
    }
}

/// A yield keeps every task in place.
pub proof fn lemma_yield_in_place(old: Kernel, new: Kernel)
    requires
        each_in_place(old),
        old.current is Some,
        new.processes == old.processes,
        new.timers == old.timers,
        (new.manager@, new.current) == dispatch(
            old.manager@.push(old.current->0.with_status(TaskStatus::Ready)),
        ),
    ensures
        each_in_place(new),
{
    assert forall|pid: usize, tid: usize| #[trigger] places(new, pid, tid) == due_places(new, pid, tid) by {
        assert(places(old, pid, tid) == due_places(old, pid, tid));
        let ready = old.manager@.push(old.current->0.with_status(TaskStatus::Ready));
        lemma_count_push(old.manager@, old.current->0.with_status(TaskStatus::Ready), pid, tid);
        lemma_count_dispatch(ready, pid, tid);
    }
}

/// Going to sleep keeps every task in place.
pub proof fn lemma_sleep_in_place(old: Kernel, new: Kernel, expire_ms: usize)
    requires
        each_in_place(old),
        old.current is Some,
        new.processes == old.processes,
        new.timers@ == old.timers@.push(
            Timer { expire_ms, task: old.current->0.with_status(TaskStatus::Blocked) },
        ),
        (new.manager@, new.current) == dispatch(old.manager@),
    ensures
        each_in_place(new),
{
    assert forall|pid: usize, tid: usize| #[trigger] places(new, pid, tid) == due_places(new, pid, tid) by {
        assert(places(old, pid, tid) == due_places(old, pid, tid));
        lemma_count_timers_push(
            old.timers@,
            Timer { expire_ms, task: old.current->0.with_status(TaskStatus::Blocked) },
            pid,
            tid,
        );
        lemma_count_dispatch(old.manager@, pid, tid);
    }
}

/// A timer check keeps every task in place.
pub proof fn lemma_check_timer_in_place(old: Kernel, new: Kernel, now_ms: usize)
    requires
        each_in_place(old),
        new == (Kernel { manager: new.manager, timers: new.timers, ..old }),
        new.manager@ == old.manager@ + due_tasks(old.timers@, now_ms),
        new.timers@ == not_due(old.timers@, now_ms),
    ensures
        each_in_place(new),
{
    assert forall|pid: usize, tid: usize| #[trigger] places(new, pid, tid) == due_places(new, pid, tid) by {
        assert(places(old, pid, tid) == due_places(old, pid, tid));
        lemma_count_add(old.manager@, due_tasks(old.timers@, now_ms), pid, tid);
        lemma_count_due(old.timers@, now_ms, pid, tid);
    }
}

/// Handles that wait in a process, or none for a freed slot.
pub open spec fn waiting_in_slot(slot: Option<ProcessControlBlock>, pid: usize, tid: usize) -> int {
    match slot {
        Some(process) => waiting_in(process, pid, tid),
        None => 0,
    }
}

proof fn lemma_waiting_replaced(
    old_table: Seq<Option<ProcessControlBlock>>,
    new_table: Seq<Option<ProcessControlBlock>>,
    at: int,
    n: int,
    pid: usize,
    tid: usize,
)
    requires
        0 <= n <= old_table.len(),
        n <= new_table.len(),
        forall|k: int| 0 <= k < n && k != at ==> new_table[k] == old_table[k],
    ensures
        waiting(new_table, n, pid, tid) == waiting(old_table, n, pid, tid) + (if 0 <= at < n {
            waiting_in_slot(new_table[at], pid, tid) - waiting_in_slot(old_table[at], pid, tid)
        } else {
            0
        }),
    decreases n,
{
    if n > 0 {
        lemma_waiting_replaced(old_table, new_table, at, n - 1, pid, tid);
    }
}

/// Replacing one process changes the waiting handles by what that process
/// gained.
proof fn lemma_process_step(old: Kernel, new: Kernel, at: int, pid: usize, tid: usize)
    requires
        old.has_process(at),
        old.process_replaced(&new, at),
    ensures
        waiting(new.processes@, new.processes@.len() as int, pid, tid) == waiting(
            old.processes@,
            old.processes@.len() as int,
            pid,
            tid,
        ) - waiting_in(old.process(at), pid, tid) + waiting_in(new.process(at), pid, tid),
{
    lemma_waiting_replaced(old.processes@, new.processes@, at, old.processes@.len() as int, pid, tid);
}

/// Replacing one process by one with the same living tasks leaves every
/// task due at the same number of places.
proof fn lemma_due_kept(old: Kernel, new: Kernel, at: int, pid: usize, tid: usize)
    requires
        old.has_process(at),
        old.process_replaced(&new, at),
        new.process(at).is_zombie == old.process(at).is_zombie,
        forall|t: int| new.process(at).alive(t) == old.process(at).alive(t),
    ensures
        due_places(new, pid, tid) == due_places(old, pid, tid),
{
    if pid as int != at && old.has_process(pid as int) {
        assert(new.processes@[pid as int] == old.processes@[pid as int]);
    }
}

/// A change of one mutex changes the waiting handles of its process by what
/// its queue gained.
proof fn lemma_mutex_step(
    old: ProcessControlBlock,
    new: ProcessControlBlock,
    id: int,
    pid: usize,
    tid: usize,
)
    requires
        old.has_mutex(id),
        new.has_mutex(id),
        new.mutex_list@.len() == old.mutex_list@.len(),
        forall|k: int|
            0 <= k < old.mutex_list@.len() && k != id ==> new.mutex_list@[k] == old.mutex_list@[k],
        new.semaphore_list == old.semaphore_list,
        new.condvar_list == old.condvar_list,
    ensures
        waiting_in(new, pid, tid) == waiting_in(old, pid, tid) - count(
            old.mutex(id).state().waiters,
            pid,
            tid,
        ) + count(new.mutex(id).state().waiters, pid, tid),
{
    lemma_count_all_replaced(
        mutex_queues(old.mutex_list@),
        mutex_queues(new.mutex_list@),
        id,
        old.mutex_list@.len() as int,
        pid,
        tid,
    );
}

/// A change of one semaphore changes the waiting handles of its process by
/// what its queue gained.
proof fn lemma_semaphore_step(
    old: ProcessControlBlock,
    new: ProcessControlBlock,
    id: int,
    pid: usize,
    tid: usize,
)
    requires
        old.has_semaphore(id),
        new.has_semaphore(id),
        new.semaphore_list@.len() == old.semaphore_list@.len(),
        forall|k: int|
            0 <= k < old.semaphore_list@.len() && k != id ==> new.semaphore_list@[k]
                == old.semaphore_list@[k],
        new.mutex_list == old.mutex_list,
        new.condvar_list == old.condvar_list,
    ensures
        waiting_in(new, pid, tid) == waiting_in(old, pid, tid) - count(
            old.semaphore(id)@.waiters,
            pid,
            tid,
        ) + count(new.semaphore(id)@.waiters, pid, tid),
{
    lemma_count_all_replaced(
        semaphore_queues(old.semaphore_list@),
        semaphore_queues(new.semaphore_list@),
        id,
        old.semaphore_list@.len() as int,
        pid,
        tid,
    );
}

/// A change of one condition variable changes the waiting handles of its
/// process by what its queue gained.
proof fn lemma_condvar_step(
    old: ProcessControlBlock,
    new: ProcessControlBlock,
    id: int,
    pid: usize,
    tid: usize,
)
    requires
        old.has_condvar(id),
        new.has_condvar(id),
        new.condvar_list@.len() == old.condvar_list@.len(),
        forall|k: int|
            0 <= k < old.condvar_list@.len() && k != id ==> new.condvar_list@[k]
                == old.condvar_list@[k],
        new.mutex_list == old.mutex_list,
        new.semaphore_list == old.semaphore_list,
    ensures
        waiting_in(new, pid, tid) == waiting_in(old, pid, tid) - count(
            old.condvar(id)@,
            pid,
            tid,
        ) + count(new.condvar(id)@, pid, tid),
{
    lemma_count_all_replaced(
        condvar_queues(old.condvar_list@),
        condvar_queues(new.condvar_list@),
        id,
        old.condvar_list@.len() as int,
        pid,
        tid,
    );
}

/// A `lock` by the running task keeps every task in place: a caller that
/// is parked moves from the processor into the queue of the mutex, a caller
/// that retries moves into the ready queue, and a dispatch moves a handle
/// from the ready queue to the processor.
pub proof fn lemma_lock_in_place(old: Kernel, new: Kernel, id: int)
    requires
        each_in_place(old),
        old.current is Some,
        old.has_process(old.current->0.pid as int),
        old.cur_process().has_mutex(id),
        old.did_lock(&new, id),
    ensures
        each_in_place(new),
{
    let task = old.current->0;
    let at = task.pid as int;
    let before = old.process(at);
    let after = new.process(at);
    assert forall|pid: usize, tid: usize| #[trigger] places(new, pid, tid) == due_places(new, pid, tid) by {
        assert(places(old, pid, tid) == due_places(old, pid, tid));
        lemma_process_step(old, new, at, pid, tid);
        lemma_due_kept(old, new, at, pid, tid);
        lemma_mutex_step(before, after, id, pid, tid);
        lemma_count_push(
            before.mutex(id).state().waiters,
            task.with_status(TaskStatus::Blocked),
            pid,
            tid,
        );
        let yielded = task.with_pending(Some(id as usize)).with_status(TaskStatus::Ready);
        lemma_count_push(old.manager@, yielded, pid, tid);
        lemma_count_dispatch(old.manager@.push(yielded), pid, tid);
        lemma_count_dispatch(old.manager@, pid, tid);
    }
}

/// Carrying on a task with a pending lock keeps every task in place.
pub proof fn lemma_resume_in_place(old: Kernel, new: Kernel)
    requires
        each_in_place(old),
        old.current is Some,
        old.has_process(old.current->0.pid as int),
        match old.current->0.pending_lock {
            None => new == old,
            Some(id) => if old.cur_process().has_mutex(id as int) {
                old.pending_cleared().did_lock(&new, id as int)
            } else {
                new == old.pending_cleared()
            },
        },
    ensures
        each_in_place(new),
{
    if old.current->0.pending_lock is Some {
        let cleared = old.pending_cleared();
        assert forall|pid: usize, tid: usize| #[trigger] places(cleared, pid, tid) == due_places(cleared, pid, tid) by {
            assert(places(old, pid, tid) == due_places(old, pid, tid));
        }
        let id = old.current->0.pending_lock->0;
        if old.cur_process().has_mutex(id as int) {
            lemma_lock_in_place(cleared, new, id as int);
        }
    }
}

/// An `unlock` keeps every task in place: the waiter that takes the mutex
/// over moves from the queue of the mutex into the ready queue.
pub proof fn lemma_unlock_in_place(old: Kernel, new: Kernel, id: int)
    requires
        each_in_place(old),
        old.current is Some,
        old.has_process(old.current->0.pid as int),
        old.cur_process().has_mutex(id),
        old.cur_process_and_schedule_changed(&new),
        old.cur_process().did_mutex_unlock(&new.cur_process(), id),
        new.current == old.current,
        new.manager@ == woken_joins(
            old.manager@,
            old.cur_process().mutex(id).state().woken_by_unlock(),
        ),
    ensures
        each_in_place(new),
{
    let at = old.current->0.pid as int;
    let before = old.process(at);
    let after = new.process(at);
    assert forall|pid: usize, tid: usize| #[trigger] places(new, pid, tid) == due_places(new, pid, tid) by {
        assert(places(old, pid, tid) == due_places(old, pid, tid));
        lemma_process_step(old, new, at, pid, tid);
        lemma_due_kept(old, new, at, pid, tid);
        lemma_mutex_step(before, after, id, pid, tid);
        let queue = before.mutex(id).state().waiters;
        if queue.len() > 0 {
            lemma_count_tail(queue, pid, tid);
        }
        lemma_count_woken(old.manager@, before.mutex(id).state().woken_by_unlock(), pid, tid);
    }
}

/// An `up` on a semaphore keeps every task in place: the waiter that gets
/// the unit moves from the queue of the semaphore into the ready queue.
pub proof fn lemma_semaphore_up_in_place(old: Kernel, new: Kernel, id: int)
    requires
        each_in_place(old),
        old.current is Some,
        old.has_process(old.current->0.pid as int),
        old.cur_process().has_semaphore(id),
        old.cur_process_and_schedule_changed(&new),
        old.cur_process().did_semaphore_up(&new.cur_process(), old.current->0.tid as int, id),
        new.current == old.current,
        new.manager@ == woken_joins(old.manager@, old.cur_process().semaphore(id)@.woken_by_up()),
    ensures
        each_in_place(new),
{
    let at = old.current->0.pid as int;
    let before = old.process(at);
    let after = new.process(at);
    assert forall|pid: usize, tid: usize| #[trigger] places(new, pid, tid) == due_places(new, pid, tid) by {
        assert(places(old, pid, tid) == due_places(old, pid, tid));
        lemma_process_step(old, new, at, pid, tid);
        lemma_due_kept(old, new, at, pid, tid);
        lemma_semaphore_step(before, after, id, pid, tid);
        let queue = before.semaphore(id)@.waiters;
        if queue.len() > 0 {
            lemma_count_tail(queue, pid, tid);
        }
        lemma_count_woken(old.manager@, before.semaphore(id)@.woken_by_up(), pid, tid);
    }
}

/// A `down` on a semaphore that is not refused keeps every task in place:
/// a caller that has to wait moves from the processor into the queue of the
/// semaphore.
pub proof fn lemma_semaphore_down_in_place(old: Kernel, new: Kernel, id: int)
    requires
        each_in_place(old),
        old.current is Some,
        old.has_process(old.current->0.pid as int),
        old.cur_process().has_semaphore(id),
        old.cur_process_and_schedule_changed(&new),
        old.cur_process().did_semaphore_down(
            &new.process(old.current->0.pid as int),
            old.current->0,
            id,
        ),
        if old.cur_process().semaphore(id)@.grants() {
            new.manager == old.manager && new.current == old.current
        } else {
            (new.manager@, new.current) == dispatch(old.manager@)
        },
    ensures
        each_in_place(new),
{
    let task = old.current->0;
    let at = task.pid as int;
    let before = old.process(at);
    let after = new.process(at);
    assert forall|pid: usize, tid: usize| #[trigger] places(new, pid, tid) == due_places(new, pid, tid) by {
        assert(places(old, pid, tid) == due_places(old, pid, tid));
        lemma_process_step(old, new, at, pid, tid);
        lemma_due_kept(old, new, at, pid, tid);
        lemma_semaphore_step(before, after, id, pid, tid);
        lemma_count_push(
            before.semaphore(id)@.waiters,
            task.with_status(TaskStatus::Blocked),
            pid,
            tid,
        );
        lemma_count_dispatch(old.manager@, pid, tid);
    }
}

/// A signal on a condition variable keeps every task in place: the woken
/// waiter moves from the queue of the condition variable into the ready
/// queue.
pub proof fn lemma_signal_in_place(old: Kernel, new: Kernel, id: int)
    requires
        each_in_place(old),
        old.current is Some,
        old.has_process(old.current->0.pid as int),
        old.cur_process().has_condvar(id),
        old.cur_process_and_schedule_changed(&new),
        old.cur_process().did_condvar_signal(&new.cur_process(), id),
        new.current == old.current,
        new.manager@ == woken_joins(old.manager@, old.cur_process().woken_by_signal(id)),
    ensures
        each_in_place(new),
{
    let at = old.current->0.pid as int;
    let before = old.process(at);
    let after = new.process(at);
    assert forall|pid: usize, tid: usize| #[trigger] places(new, pid, tid) == due_places(new, pid, tid) by {
        assert(places(old, pid, tid) == due_places(old, pid, tid));
        lemma_process_step(old, new, at, pid, tid);
        lemma_due_kept(old, new, at, pid, tid);
        lemma_condvar_step(before, after, id, pid, tid);
        let queue = before.condvar(id)@;
        if queue.len() > 0 {
            lemma_count_tail(queue, pid, tid);
        }
        lemma_count_woken(old.manager@, before.woken_by_signal(id), pid, tid);
    }
}

/// A wait on a condition variable keeps every task in place: the caller
/// moves from the processor into the queue of the condition variable, and a
/// waiter of the mutex that takes it over moves into the ready queue.
pub proof fn lemma_wait_in_place(old: Kernel, new: Kernel, cond: int, mutex: int)
    requires
        each_in_place(old),
        old.current is Some,
        old.has_process(old.current->0.pid as int),
        old.cur_process().has_condvar(cond),
        old.cur_process().has_mutex(mutex),
        old.cur_process_and_schedule_changed(&new),
        old.cur_process().did_condvar_wait(
            &new.process(old.current->0.pid as int),
            old.current->0,
            cond,
            mutex,
        ),
        (new.manager@, new.current) == dispatch(
            woken_joins(old.manager@, old.cur_process().mutex(mutex).state().woken_by_unlock()),
        ),
    ensures
        each_in_place(new),
{
    let task = old.current->0;
    let at = task.pid as int;
    let before = old.process(at);
    let after = new.process(at);
    let between = ProcessControlBlock { mutex_list: after.mutex_list, ..before };
    assert forall|pid: usize, tid: usize| #[trigger] places(new, pid, tid) == due_places(new, pid, tid) by {
        assert(places(old, pid, tid) == due_places(old, pid, tid));
        lemma_process_step(old, new, at, pid, tid);
        lemma_due_kept(old, new, at, pid, tid);
        lemma_mutex_step(before, between, mutex, pid, tid);
        lemma_condvar_step(between, after, cond, pid, tid);
        let queue = before.mutex(mutex).state().waiters;
        if queue.len() > 0 {
            lemma_count_tail(queue, pid, tid);
        }
        lemma_count_push(
            before.condvar(cond)@,
            task.with_pending(Some(mutex as usize)).with_status(TaskStatus::Blocked),
            pid,
            tid,
        );
        let woken = before.mutex(mutex).state().woken_by_unlock();
        lemma_count_woken(old.manager@, woken, pid, tid);
        lemma_count_dispatch(woken_joins(old.manager@, woken), pid, tid);
    }
}

/// Queues that hold no handle of the task count nothing.
proof fn lemma_count_all_none(queues: Seq<Seq<TaskControlBlock>>, n: int, pid: usize, tid: usize)
    requires
        0 <= n <= queues.len(),
        forall|k: int| 0 <= k < n ==> count(#[trigger] queues[k], pid, tid) == 0,
    ensures
        count_all(queues, n, pid, tid) == 0,
    decreases n,
{
    if n > 0 {
        lemma_count_all_none(queues, n - 1, pid, tid);
    }
}

/// A process without synchronisation objects has no waiting handle.
proof fn lemma_no_objects(process: ProcessControlBlock, pid: usize, tid: usize)
    requires
        process.mutex_list@.len() == 0,
        process.semaphore_list@.len() == 0,
        process.condvar_list@.len() == 0,
    ensures
        waiting_in(process, pid, tid) == 0,
{
}

/// In a well-formed process only handles of its own tasks wait.
proof fn lemma_waiting_in_own(process: ProcessControlBlock, pid: usize, tid: usize)
    requires
        process.wf(),
        process.pid != pid,
    ensures
        waiting_in(process, pid, tid) == 0,
{
    let mutexes = mutex_queues(process.mutex_list@);
    assert forall|k: int| 0 <= k < mutexes.len() implies count(#[trigger] mutexes[k], pid, tid)
        == 0 by {
        if process.has_mutex(k) {
            let queue = process.mutex(k).state().waiters;
            assert forall|i: int| 0 <= i < queue.len() implies hit(#[trigger] queue[i], pid, tid)
                == 0 by {
                assert(process.belongs(queue[i]));
            }
            lemma_count_none(queue, pid, tid);
        }
    }
    lemma_count_all_none(mutexes, mutexes.len() as int, pid, tid);
    let semaphores = semaphore_queues(process.semaphore_list@);
    assert forall|k: int| 0 <= k < semaphores.len() implies count(
        #[trigger] semaphores[k],
        pid,
        tid,
    ) == 0 by {
        if process.has_semaphore(k) {
            let queue = process.semaphore(k)@.waiters;
            assert forall|i: int| 0 <= i < queue.len() implies hit(#[trigger] queue[i], pid, tid)
                == 0 by {
                assert(process.belongs(queue[i]));
            }
            lemma_count_none(queue, pid, tid);
        }
    }
    lemma_count_all_none(semaphores, semaphores.len() as int, pid, tid);
    let condvars = condvar_queues(process.condvar_list@);
    assert forall|k: int| 0 <= k < condvars.len() implies count(#[trigger] condvars[k], pid, tid)
        == 0 by {
        if process.has_condvar(k) {
            let queue = process.condvar(k)@;
            assert forall|i: int| 0 <= i < queue.len() implies hit(#[trigger] queue[i], pid, tid)
                == 0 by {
                assert(process.belongs(queue[i]));
            }
            lemma_count_none(queue, pid, tid);
        }
    }
    lemma_count_all_none(condvars, condvars.len() as int, pid, tid);
}

/// A table whose slots hold as many waiting handles as those of another
/// holds as many in all.
proof fn lemma_waiting_same(
    old_table: Seq<Option<ProcessControlBlock>>,
    new_table: Seq<Option<ProcessControlBlock>>,
    n: int,
    pid: usize,
    tid: usize,
)
    requires
        0 <= n <= old_table.len(),
        n <= new_table.len(),
        forall|k: int|
            0 <= k < n ==> waiting_in_slot(#[trigger] new_table[k], pid, tid) == waiting_in_slot(
                old_table[k],
                pid,
                tid,
            ),
    ensures
        waiting(new_table, n, pid, tid) == waiting(old_table, n, pid, tid),
    decreases n,
{
    if n > 0 {
        lemma_waiting_same(old_table, new_table, n - 1, pid, tid);
        assert(waiting_in_slot(new_table[n - 1], pid, tid) == waiting_in_slot(
            old_table[n - 1],
            pid,
            tid,
        ));
    }
}

/// In a well-formed kernel the handles of a task wait only in the task's
/// own process.
proof fn lemma_waiting_local(kernel: Kernel, n: int, pid: usize, tid: usize)
    requires
        kernel.processes_wf(),
        0 <= n <= kernel.processes@.len(),
    ensures
        waiting(kernel.processes@, n, pid, tid) == (if pid < n {
            waiting_in_slot(kernel.processes@[pid as int], pid, tid)
        } else {
            0
        }),
    decreases n,
{
    if n > 0 {
        lemma_waiting_local(kernel, n - 1, pid, tid);
        if n - 1 != pid && kernel.has_process(n - 1) {
            lemma_waiting_in_own(kernel.process(n - 1), pid, tid);
        }
    }
}

/// Putting an object with an empty queue into a table of queues changes no
/// count.
proof fn lemma_count_all_inserted(
    old_queues: Seq<Seq<TaskControlBlock>>,
    new_queues: Seq<Seq<TaskControlBlock>>,
    at: int,
    pid: usize,
    tid: usize,
)
    requires
        0 <= at <= old_queues.len(),
        new_queues.len() == (if at < old_queues.len() {
            old_queues.len()
        } else {
            old_queues.len() + 1
        }),
        forall|k: int| 0 <= k < old_queues.len() && k != at ==> new_queues[k] == old_queues[k],
        at < old_queues.len() ==> old_queues[at].len() == 0,
        new_queues[at].len() == 0,
    ensures
        count_all(new_queues, new_queues.len() as int, pid, tid) == count_all(
            old_queues,
            old_queues.len() as int,
            pid,
            tid,
        ),
{
    lemma_count_all_replaced(old_queues, new_queues, at, old_queues.len() as int, pid, tid);
}

/// Creating a synchronisation object keeps every task in place.
pub proof fn lemma_create_in_place(old: Kernel, new: Kernel)
    requires
        each_in_place(old),
        old.current is Some,
        old.has_process(old.current->0.pid as int),
        old.only_cur_process_changed(&new),
        old.cur_process().did_create_mutex(&new.cur_process(), true) || old.cur_process().did_create_mutex(
            &new.cur_process(),
            false,
        ) || (exists|n: int| old.cur_process().did_create_semaphore(&new.cur_process(), n))
            || old.cur_process().did_create_condvar(&new.cur_process()),
    ensures
        each_in_place(new),
{
    let at = old.current->0.pid as int;
    let before = old.process(at);
    let after = new.process(at);
    assert forall|pid: usize, tid: usize| #[trigger] places(new, pid, tid) == due_places(new, pid, tid) by {
        assert(places(old, pid, tid) == due_places(old, pid, tid));
        lemma_process_step(old, new, at, pid, tid);
        lemma_due_kept(old, new, at, pid, tid);
        lemma_first_free_exists(before.mutex_list@);
        lemma_first_free_exists(before.semaphore_list@);
        lemma_first_free_exists(before.condvar_list@);
        if after.mutex_list != before.mutex_list {
            lemma_count_all_inserted(
                mutex_queues(before.mutex_list@),
                mutex_queues(after.mutex_list@),
                first_free(before.mutex_list@),
                pid,
                tid,
            );
        } else if after.semaphore_list != before.semaphore_list {
            lemma_count_all_inserted(
                semaphore_queues(before.semaphore_list@),
                semaphore_queues(after.semaphore_list@),
                first_free(before.semaphore_list@),
                pid,
                tid,
            );
        } else if after.condvar_list != before.condvar_list {
            lemma_count_all_inserted(
                condvar_queues(before.condvar_list@),
                condvar_queues(after.condvar_list@),
                first_free(before.condvar_list@),
                pid,
                tid,
            );
        }
    }
}

/// A change of the running task's process that touches neither its tasks
/// nor its synchronisation objects keeps every task in place. Such are a
/// change of the address space and the switch of deadlock detection.
pub proof fn lemma_plain_change_in_place(old: Kernel, new: Kernel)
    requires
        each_in_place(old),
        old.current is Some,
        old.has_process(old.current->0.pid as int),
        old.only_cur_process_changed(&new),
        new.cur_process() == (ProcessControlBlock {
            memory: new.cur_process().memory,
            deadlock_detect_enabled: new.cur_process().deadlock_detect_enabled,
            ..old.cur_process()
        }),
    ensures
        each_in_place(new),
{
    let at = old.current->0.pid as int;
    assert forall|pid: usize, tid: usize| #[trigger] places(new, pid, tid) == due_places(new, pid, tid) by {
        assert(places(old, pid, tid) == due_places(old, pid, tid));
        lemma_process_step(old, new, at, pid, tid);
        lemma_due_kept(old, new, at, pid, tid);
    }
}

/// A change of the priority of the running task keeps every task in place.
pub proof fn lemma_set_priority_in_place(old: Kernel, new: Kernel, priority: usize)
    requires
        each_in_place(old),
        old.current is Some,
        new == (Kernel {
            current: Some(TaskControlBlock { priority, ..old.current->0 }),
            ..old
        }),
    ensures
        each_in_place(new),
{
    assert forall|pid: usize, tid: usize| #[trigger] places(new, pid, tid) == due_places(new, pid, tid) by {
        assert(places(old, pid, tid) == due_places(old, pid, tid));
    }
}

/// The creation of a task keeps every task in place: the new task lives
/// and its handle is in the ready queue.
pub proof fn lemma_thread_create_in_place(old: Kernel, new: Kernel, created_tid: usize)
    requires
        old.wf(),
        each_in_place(old),
        old.current is Some,
        created_tid == first_free(old.cur_process().tasks@),
        old.cur_process_and_schedule_changed(&new),
        old.cur_process().did_alloc_task(&new.cur_process()),
        new.current == old.current,
        new.manager@ == old.manager@.push(
            TaskControlBlock {
                pid: old.current->0.pid,
                tid: created_tid,
                status: TaskStatus::Ready,
                priority: crate::config::DEFAULT_PRIORITY,
                stride: 0,
                pending_lock: None,
            },
        ),
    ensures
        each_in_place(new),
{
    let running = old.current->0;
    let at = running.pid as int;
    let before = old.process(at);
    let after = new.process(at);
    let slot = first_free(before.tasks@);
    let created = TaskControlBlock {
        pid: running.pid,
        tid: created_tid,
        status: TaskStatus::Ready,
        priority: crate::config::DEFAULT_PRIORITY,
        stride: 0,
        pending_lock: None,
    };
    lemma_first_free_exists(before.tasks@);
    assert(old.live(running));
    assert(before.tasks@.len() == before.tasks.len());
    assert(created.tid == slot);
    assert(after.tasks@ == inserted(before.tasks@, after.tasks@[slot]->0));
    assert forall|pid: usize, tid: usize| #[trigger] places(new, pid, tid) == due_places(new, pid, tid) by {
        assert(places(old, pid, tid) == due_places(old, pid, tid));
        lemma_process_step(old, new, at, pid, tid);
        lemma_count_push(old.manager@, created, pid, tid);
        assert(waiting_in(after, pid, tid) == waiting_in(before, pid, tid));
        if pid as int != at {
            if old.has_process(pid as int) {
                assert(new.processes@[pid as int] == old.processes@[pid as int]);
            }
            assert(due_places(new, pid, tid) == due_places(old, pid, tid));
        } else if tid as int != slot {
            if 0 <= tid < before.tasks@.len() {
                assert(after.tasks@[tid as int] == before.tasks@[tid as int]);
            }
            assert(after.alive(tid as int) == before.alive(tid as int));
            assert(due_places(new, pid, tid) == due_places(old, pid, tid));
        } else {
            assert(!before.has_task(slot));
            assert(due_places(old, pid, tid) == 0);
            assert(due_places(new, pid, tid) == 1);
            assert(hit(created, pid, tid) == 1);
        }
    }
}

proof fn lemma_count_nonneg(queue: Seq<TaskControlBlock>, pid: usize, tid: usize)
    ensures
        0 <= count(queue, pid, tid),
    decreases queue.len(),
{
    if queue.len() > 0 {
        lemma_count_nonneg(queue.drop_last(), pid, tid);
    }
}

proof fn lemma_count_all_nonneg(queues: Seq<Seq<TaskControlBlock>>, n: int, pid: usize, tid: usize)
    ensures
        0 <= count_all(queues, n, pid, tid),
    decreases n,
{
    if n > 0 {
        lemma_count_all_nonneg(queues, n - 1, pid, tid);
        lemma_count_nonneg(queues[n - 1], pid, tid);
    }
}

proof fn lemma_waiting_nonneg(
    table: Seq<Option<ProcessControlBlock>>,
    n: int,
    pid: usize,
    tid: usize,
)
    ensures
        0 <= waiting(table, n, pid, tid),
    decreases n,
{
    if n > 0 {
        lemma_waiting_nonneg(table, n - 1, pid, tid);
        if table[n - 1] is Some {
            let process = table[n - 1]->0;
            lemma_count_all_nonneg(
                mutex_queues(process.mutex_list@),
                process.mutex_list@.len() as int,
                pid,
                tid,
            );
            lemma_count_all_nonneg(
                semaphore_queues(process.semaphore_list@),
                process.semaphore_list@.len() as int,
                pid,
                tid,
            );
            lemma_count_all_nonneg(
                condvar_queues(process.condvar_list@),
                process.condvar_list@.len() as int,
                pid,
                tid,
            );
        }
    }
}

/// No part of the number of places is negative.
proof fn lemma_places_nonneg(kernel: Kernel, pid: usize, tid: usize)
    ensures
        0 <= hit_some(kernel.current, pid, tid),
        0 <= count(kernel.manager@, pid, tid),
        0 <= count(timer_tasks(kernel.timers@), pid, tid),
        0 <= waiting(kernel.processes@, kernel.processes@.len() as int, pid, tid),
{
    lemma_count_nonneg(kernel.manager@, pid, tid);
    lemma_count_nonneg(timer_tasks(kernel.timers@), pid, tid);
    lemma_waiting_nonneg(kernel.processes@, kernel.processes@.len() as int, pid, tid);
}

/// A task that is in place has at most one handle, and a task with a handle
/// lives.
pub proof fn lemma_one_handle(kernel: Kernel, pid: usize, tid: usize)
    requires
        each_in_place(kernel),
    ensures
        0 <= places(kernel, pid, tid) <= 1,
        places(kernel, pid, tid) == 1 ==> kernel.has_process(pid as int) && !kernel.process(
            pid as int,
        ).is_zombie && kernel.process(pid as int).alive(tid as int),
{
    assert(places(kernel, pid, tid) == due_places(kernel, pid, tid));
}

/// The exit of the running task keeps every task in place: the task has
/// left the processor and is queued nowhere, and with the main task every
/// task of the process has left the queues.
pub proof fn lemma_exit_in_place(old: Kernel, new: Kernel, code: i32)
    requires
        old.wf(),
        each_in_place(old),
        old.current is Some,
        old.did_exit(&new, code),
    ensures
        each_in_place(new),
{
    let task = old.current->0;
    let at = task.pid as int;
    let before = old.process(at);
    let after = new.process(at);
    assert(old.live(task));
    assert(before.pid == at);
    assert forall|pid: usize, tid: usize| #[trigger] places(new, pid, tid) == due_places(new, pid, tid) by {
        assert(places(old, pid, tid) == due_places(old, pid, tid));
        lemma_places_nonneg(old, pid, tid);
        lemma_places_nonneg(new, pid, tid);
        lemma_process_step(old, new, at, pid, tid);
        if pid as int != at && old.has_process(pid as int) {
            assert(new.processes@[pid as int] == old.processes@[pid as int]);
        }
        if task.tid == 0 {
            lemma_no_objects(after, pid, tid);
            lemma_count_without_process(old.manager@, task.pid, pid, tid);
            lemma_count_timers_without_process(old.timers@, task.pid, pid, tid);
            lemma_count_dispatch(without_process(old.manager@, task.pid), pid, tid);
            lemma_waiting_local(old, old.processes@.len() as int, pid, tid);
            if pid as int != at {
                lemma_waiting_in_own(before, pid, tid);
            }
        } else {
            lemma_count_dispatch(old.manager@, pid, tid);
            if pid as int == at && tid != task.tid {
                if 0 <= tid < before.tasks@.len() {
                    assert(after.tasks@[tid as int] == before.tasks@[tid as int]);
                }
                assert(after.alive(tid as int) == before.alive(tid as int));
            }
        }
    }
}

/// The creation of a process keeps every task in place: its main task
/// lives and has its handle in the ready queue.
pub proof fn lemma_add_process_in_place(
    old: Kernel,
    new: Kernel,
    parent: Option<usize>,
    memory: MemorySet,
    created_pid: usize,
)
    requires
        old.wf(),
        each_in_place(old),
        created_pid == first_free(old.processes@),
        parent matches Some(p) ==> old.has_process(p as int),
        old.did_add_process(&new, parent, memory),
    ensures
        each_in_place(new),
{
    let slot = created_pid as int;
    let created = TaskControlBlock {
        pid: created_pid,
        tid: 0,
        status: TaskStatus::Ready,
        priority: crate::config::DEFAULT_PRIORITY,
        stride: 0,
        pending_lock: None,
    };
    lemma_first_free_exists(old.processes@);
    let n = old.processes@.len() as int;
    assert forall|pid: usize, tid: usize| #[trigger] places(new, pid, tid) == due_places(new, pid, tid) by {
        assert(places(old, pid, tid) == due_places(old, pid, tid));
        lemma_count_push(old.manager@, created, pid, tid);
        lemma_no_objects(new.process(slot), pid, tid);
        assert forall|k: int| 0 <= k < n implies waiting_in_slot(
            #[trigger] new.processes@[k],
            pid,
            tid,
        ) == waiting_in_slot(old.processes@[k], pid, tid) by {
            if k == slot {
            } else if parent == Some(k as usize) {
            } else {
                assert(new.processes@[k] == old.processes@[k]);
            }
        }
        lemma_waiting_same(old.processes@, new.processes@, n, pid, tid);
        if pid as int != slot {
            if old.has_process(pid as int) {
                if parent == Some(pid) {
                } else {
                    assert(new.processes@[pid as int] == old.processes@[pid as int]);
                }
            }
            assert(due_places(new, pid, tid) == due_places(old, pid, tid));
        } else {
            assert(!old.has_process(slot));
            assert(due_places(old, pid, tid) == 0);
            if tid == 0 {
                assert(due_places(new, pid, tid) == 1);
            } else {
                assert(!new.process(slot).alive(tid as int));
            }
        }
    }
}

/// Reaping a zombie keeps every task in place: a zombie has no task at any
/// place.
pub proof fn lemma_reap_in_place(old: Kernel, new: Kernel, i: int)
    requires
        old.wf(),
        each_in_place(old),
        old.current is Some,
        0 <= i < old.cur_process().children@.len(),
        old.process(old.cur_process().children@[i] as int).is_zombie,
        crate::syscall::process::did_reap(&old, &new, i),
    ensures
        each_in_place(new),
{
    let parent = old.current->0.pid as int;
    let child = old.cur_process().children@[i] as int;
    assert(old.live(old.current->0));
    assert(old.has_process(parent));
    assert(old.family_ok(parent));
    assert(old.has_process(child));
    let n = old.processes@.len() as int;
    assert forall|pid: usize, tid: usize| #[trigger] places(new, pid, tid) == due_places(new, pid, tid) by {
        assert(places(old, pid, tid) == due_places(old, pid, tid));
        lemma_no_objects(old.process(child), pid, tid);
        assert forall|k: int| 0 <= k < n implies waiting_in_slot(
            #[trigger] new.processes@[k],
            pid,
            tid,
        ) == waiting_in_slot(old.processes@[k], pid, tid) by {
            if k == child {
            } else if k == parent {
            } else {
                assert(new.processes@[k] == old.processes@[k]);
            }
        }
        lemma_waiting_same(old.processes@, new.processes@, n, pid, tid);
        if pid as int != child && pid as int != parent && old.has_process(pid as int) {
            assert(new.processes@[pid as int] == old.processes@[pid as int]);
        }
    }
}

} // verus!

//! The status that a handle carries names the place at which it is: the
//! handle on the processor is running, the handles in the ready queue are
//! ready, and the handles with the timers and in the wait queues are
//! blocked. The lemmas of this file show that every step of the kernel keeps
//! it so.

use vstd::prelude::*;
use crate::kernel::{
    dispatch, due_tasks, Kernel, not_due, Timer, timer_tasks, timers_without_process,
    woken_joins,
};
use crate::process::ProcessControlBlock;
use crate::sync::mutex::Mutex;
use crate::task::fairness::lemma_first_min_stride_exists;
use crate::task::manager::{first_min_stride, lemma_without_process, without_process};
use crate::task::{TaskControlBlock, TaskStatus};

verus! {

/// Every handle of the queue carries `status`.
pub open spec fn all_have(queue: Seq<TaskControlBlock>, status: TaskStatus) -> bool {
    forall|i: int| 0 <= i < queue.len() ==> (#[trigger] queue[i]).status == status
}

/// Every handle that waits in a queue of the process is blocked.
pub open spec fn waiters_blocked(process: ProcessControlBlock) -> bool {
    &&& forall|id: int| #[trigger]
        process.has_mutex(id) ==> all_have(process.mutex(id).state().waiters, TaskStatus::Blocked)
    &&& forall|id: int| #[trigger]
        process.has_semaphore(id) ==> all_have(process.semaphore(id)@.waiters, TaskStatus::Blocked)
    &&& forall|id: int| #[trigger]
        process.has_condvar(id) ==> all_have(process.condvar(id)@, TaskStatus::Blocked)
}

/// Every handle carries the status of its place.
pub open spec fn status_in_place(kernel: Kernel) -> bool {
    &&& kernel.current matches Some(task) ==> task.status == TaskStatus::Running
    &&& all_have(kernel.manager@, TaskStatus::Ready)
    &&& all_have(timer_tasks(kernel.timers@), TaskStatus::Blocked)
    &&& forall|pid: int| #[trigger] kernel.has_process(pid) ==> waiters_blocked(kernel.process(pid))
}

proof fn lemma_push_has(queue: Seq<TaskControlBlock>, task: TaskControlBlock, status: TaskStatus)
    requires
        all_have(queue, status),
        task.status == status,
    ensures
        all_have(queue.push(task), status),
{
    assert forall|i: int| 0 <= i < queue.push(task).len() implies (#[trigger] queue.push(
        task,
    )[i]).status == status by {
        if i < queue.len() {
            assert(queue[i].status == status);
        }
    }
}

proof fn lemma_tail_has(queue: Seq<TaskControlBlock>, status: TaskStatus)
    requires
        all_have(queue, status),
        queue.len() > 0,
    ensures
        all_have(queue.subrange(1, queue.len() as int), status),
        queue[0].status == status,
{
    let tail = queue.subrange(1, queue.len() as int);
    assert forall|i: int| 0 <= i < tail.len() implies (#[trigger] tail[i]).status == status by {
        assert(queue[i + 1].status == status);
    }
}

proof fn lemma_dispatch_has(ready: Seq<TaskControlBlock>)
    requires
        all_have(ready, TaskStatus::Ready),
    ensures
        all_have(dispatch(ready).0, TaskStatus::Ready),
        dispatch(ready).1 matches Some(task) ==> task.status == TaskStatus::Running,
{
    if ready.len() > 0 {
        lemma_first_min_stride_exists(ready);
        let i = first_min_stride(ready);
        let rest = ready.remove(i);
        assert forall|k: int| 0 <= k < rest.len() implies (#[trigger] rest[k]).status
            == TaskStatus::Ready by {
            if k < i {
                assert(ready[k].status == TaskStatus::Ready);
            } else {
                assert(ready[k + 1].status == TaskStatus::Ready);
            }
        }
    }
}

proof fn lemma_woken_has(ready: Seq<TaskControlBlock>, woken: Option<TaskControlBlock>)
    requires
        all_have(ready, TaskStatus::Ready),
    ensures
        all_have(woken_joins(ready, woken), TaskStatus::Ready),
{
    if woken is Some {
        lemma_push_has(ready, woken->0.with_status(TaskStatus::Ready), TaskStatus::Ready);
    }
}

proof fn lemma_timers_push_has(timers: Seq<Timer>, timer: Timer)
    requires
        all_have(timer_tasks(timers), TaskStatus::Blocked),
        timer.task.status == TaskStatus::Blocked,
    ensures
        all_have(timer_tasks(timers.push(timer)), TaskStatus::Blocked),
{
    assert(timer_tasks(timers.push(timer)) =~= timer_tasks(timers).push(timer.task));
    lemma_push_has(timer_tasks(timers), timer.task, TaskStatus::Blocked);
}

proof fn lemma_due_has(timers: Seq<Timer>, now_ms: usize)
    requires
        all_have(timer_tasks(timers), TaskStatus::Blocked),
    ensures
        all_have(due_tasks(timers, now_ms), TaskStatus::Ready),
        all_have(timer_tasks(not_due(timers, now_ms)), TaskStatus::Blocked),
    decreases timers.len(),
{
    if timers.len() > 0 {
        assert(timer_tasks(timers.drop_last()) =~= timer_tasks(timers).drop_last());
        assert forall|i: int| 0 <= i < timer_tasks(timers.drop_last()).len() implies (
        #[trigger] timer_tasks(timers.drop_last())[i]).status == TaskStatus::Blocked by {
            assert(timer_tasks(timers)[i].status == TaskStatus::Blocked);
        }
        lemma_due_has(timers.drop_last(), now_ms);
        assert(timer_tasks(timers)[timers.len() - 1].status == TaskStatus::Blocked);
        if timers.last().expire_ms <= now_ms {
            lemma_push_has(
                due_tasks(timers.drop_last(), now_ms),
                timers.last().task.with_status(TaskStatus::Ready),
                TaskStatus::Ready,
            );
        } else {
            lemma_timers_push_has(not_due(timers.drop_last(), now_ms), timers.last());
        }
    } else {
        assert(timer_tasks(not_due(timers, now_ms)) =~= Seq::<TaskControlBlock>::empty());
    }
}

proof fn lemma_add_has(front: Seq<TaskControlBlock>, back: Seq<TaskControlBlock>, status: TaskStatus)
    requires
        all_have(front, status),
        all_have(back, status),
    ensures
        all_have(front + back, status),
{
    assert forall|i: int| 0 <= i < (front + back).len() implies (#[trigger] (front + back)[i]).status
        == status by {
        if i < front.len() {
            assert(front[i].status == status);
        } else {
            assert(back[i - front.len()].status == status);
        }
    }
}

proof fn lemma_without_process_has(queue: Seq<TaskControlBlock>, pid: usize, status: TaskStatus)
    requires
        all_have(queue, status),
    ensures
        all_have(without_process(queue, pid), status),
{
    lemma_without_process(queue, pid);
    let kept = without_process(queue, pid);
    assert forall|i: int| 0 <= i < kept.len() implies (#[trigger] kept[i]).status == status by {
        let k = choose|k: int| 0 <= k < queue.len() && queue[k] == kept[i];
        assert(queue[k].status == status);
    }
}

proof fn lemma_timers_without_process_has(timers: Seq<Timer>, pid: usize)
    requires
        all_have(timer_tasks(timers), TaskStatus::Blocked),
    ensures
        all_have(timer_tasks(timers_without_process(timers, pid)), TaskStatus::Blocked),
{
    crate::kernel::lemma_timers_without_process(timers, pid);
    let kept = timers_without_process(timers, pid);
    assert forall|i: int| 0 <= i < timer_tasks(kept).len() implies (#[trigger] timer_tasks(
        kept,
    )[i]).status == TaskStatus::Blocked by {
        let k = choose|k: int| 0 <= k < timers.len() && timers[k] == kept[i];
        assert(timer_tasks(timers)[k].status == TaskStatus::Blocked);
    }
}

/// A process keeps its waiters blocked when at most one object of each
/// table changes and the queue of each changed object holds blocked handles
/// only.
proof fn lemma_objects_blocked(
    old: ProcessControlBlock,
    new: ProcessControlBlock,
    mutex: int,
    sem: int,
    cond: int,
)
    requires
        waiters_blocked(old),
        forall|k: int| #[trigger]
            new.has_mutex(k) && k != mutex ==> old.has_mutex(k) && new.mutex(k) == old.mutex(k),
        forall|k: int| #[trigger]
            new.has_semaphore(k) && k != sem ==> old.has_semaphore(k) && new.semaphore(k)
                == old.semaphore(k),
        forall|k: int| #[trigger]
            new.has_condvar(k) && k != cond ==> old.has_condvar(k) && new.condvar(k)
                == old.condvar(k),
        new.has_mutex(mutex) ==> all_have(new.mutex(mutex).state().waiters, TaskStatus::Blocked),
        new.has_semaphore(sem) ==> all_have(new.semaphore(sem)@.waiters, TaskStatus::Blocked),
        new.has_condvar(cond) ==> all_have(new.condvar(cond)@, TaskStatus::Blocked),
    ensures
        waiters_blocked(new),
{
    assert forall|k: int| #[trigger] new.has_mutex(k) implies all_have(
        new.mutex(k).state().waiters,
        TaskStatus::Blocked,
    ) by {
        if k != mutex {
            assert(old.has_mutex(k));
        }
    }
    assert forall|k: int| #[trigger] new.has_semaphore(k) implies all_have(
        new.semaphore(k)@.waiters,
        TaskStatus::Blocked,
    ) by {
        if k != sem {
            assert(old.has_semaphore(k));
        }
    }
    assert forall|k: int| #[trigger] new.has_condvar(k) implies all_have(
        new.condvar(k)@,
        TaskStatus::Blocked,
    ) by {
        if k != cond {
            assert(old.has_condvar(k));
        }
    }
}

/// The processes keep their waiters blocked when one process is replaced by
/// one whose waiters are blocked.
proof fn lemma_process_blocked(old: Kernel, new: Kernel, at: int)
    requires
        status_in_place(old),
        old.process_replaced(&new, at),
        waiters_blocked(new.process(at)),
    ensures
        forall|pid: int| #[trigger] new.has_process(pid) ==> waiters_blocked(new.process(pid)),
{
    assert forall|pid: int| #[trigger] new.has_process(pid) implies waiters_blocked(
        new.process(pid),
    ) by {
        if pid != at {
            assert(old.has_process(pid));
        }
    }
}

/// A kernel without processes has every status in place.
pub proof fn lemma_new_status(kernel: Kernel)
    requires
        kernel.processes@.len() == 0,
        kernel.manager@.len() == 0,
        kernel.current is None,
        kernel.timers@.len() == 0,
    ensures
        status_in_place(kernel),
{
}

/// A dispatch on an idle processor keeps every status in place.
pub proof fn lemma_run_next_status(old: Kernel, new: Kernel)
    requires
        status_in_place(old),
        new == (Kernel { manager: new.manager, current: new.current, ..old }),
        (new.manager@, new.current) == dispatch(old.manager@),
    ensures
        status_in_place(new),
{
    lemma_dispatch_has(old.manager@);
    assert forall|pid: int| #[trigger] new.has_process(pid) implies waiters_blocked(
        new.process(pid),
    ) by {
        assert(old.has_process(pid));
    }
}

/// A yield keeps every status in place.
pub proof fn lemma_yield_status(old: Kernel, new: Kernel)
    requires
        status_in_place(old),
        old.current is Some,
        new.processes == old.processes,
        new.timers == old.timers,
        (new.manager@, new.current) == dispatch(
            old.manager@.push(old.current->0.with_status(TaskStatus::Ready)),
        ),
    ensures
        status_in_place(new),
{
    let yielded = old.current->0.with_status(TaskStatus::Ready);
    lemma_push_has(old.manager@, yielded, TaskStatus::Ready);
    lemma_dispatch_has(old.manager@.push(yielded));
    assert forall|pid: int| #[trigger] new.has_process(pid) implies waiters_blocked(
        new.process(pid),
    ) by {
        assert(old.has_process(pid));
    }
}

/// Going to sleep keeps every status in place.
pub proof fn lemma_sleep_status(old: Kernel, new: Kernel, expire_ms: usize)
    requires
        status_in_place(old),
        old.current is Some,
        new.processes == old.processes,
        new.timers@ == old.timers@.push(
            Timer { expire_ms, task: old.current->0.with_status(TaskStatus::Blocked) },
        ),
        (new.manager@, new.current) == dispatch(old.manager@),
    ensures
        status_in_place(new),
{
    lemma_timers_push_has(
        old.timers@,
        Timer { expire_ms, task: old.current->0.with_status(TaskStatus::Blocked) },
    );
    lemma_dispatch_has(old.manager@);
    assert forall|pid: int| #[trigger] new.has_process(pid) implies waiters_blocked(
        new.process(pid),
    ) by {
        assert(old.has_process(pid));
    }
}

/// A timer check keeps every status in place.
pub proof fn lemma_check_timer_status(old: Kernel, new: Kernel, now_ms: usize)
    requires
        status_in_place(old),
        new == (Kernel { manager: new.manager, timers: new.timers, ..old }),
        new.manager@ == old.manager@ + due_tasks(old.timers@, now_ms),
        new.timers@ == not_due(old.timers@, now_ms),
    ensures
        status_in_place(new),
{
    lemma_due_has(old.timers@, now_ms);
    lemma_add_has(old.manager@, due_tasks(old.timers@, now_ms), TaskStatus::Ready);
    assert forall|pid: int| #[trigger] new.has_process(pid) implies waiters_blocked(
        new.process(pid),
    ) by {
        assert(old.has_process(pid));
    }
}

/// A `lock` by the running task keeps every status in place.
pub proof fn lemma_lock_status(old: Kernel, new: Kernel, id: int)
    requires
        status_in_place(old),
        old.current is Some,
        old.has_process(old.current->0.pid as int),
        old.cur_process().has_mutex(id),
        old.did_lock(&new, id),
    ensures
        status_in_place(new),
{
    let task = old.current->0;
    let at = task.pid as int;
    let before = old.process(at);
    let after = new.process(at);
    let yielded = task.with_pending(Some(id as usize)).with_status(TaskStatus::Ready);
    lemma_push_has(old.manager@, yielded, TaskStatus::Ready);
    lemma_dispatch_has(old.manager@.push(yielded));
    lemma_dispatch_has(old.manager@);
    lemma_push_has(
        before.mutex(id).state().waiters,
        task.with_status(TaskStatus::Blocked),
        TaskStatus::Blocked,
    );
    lemma_objects_blocked(before, after, id, -1, -1);
    lemma_process_blocked(old, new, at);
}

/// Carrying on a task with a pending lock keeps every status in place.
pub proof fn lemma_resume_status(old: Kernel, new: Kernel)
    requires
        status_in_place(old),
        old.current is Some,
        old.has_process(old.current->0.pid as int),
        match old.current->0.pending_lock {
            None => new == old,
            Some(id) => if old.cur_process().has_mutex(id as int) {
                old.pending_cleared().did_lock(&new, id as int)
            } else {
                new == old.pending_cleared()
            },
        },
    ensures
        status_in_place(new),
{
    if old.current->0.pending_lock is Some {
        let cleared = old.pending_cleared();
        assert(status_in_place(cleared)) by {
            assert forall|pid: int| #[trigger] cleared.has_process(pid) implies waiters_blocked(
                cleared.process(pid),
            ) by {
                assert(old.has_process(pid));
            }
        }
        let id = old.current->0.pending_lock->0;
        if old.cur_process().has_mutex(id as int) {
            lemma_lock_status(cleared, new, id as int);
        }
    }
}

/// An `unlock` keeps every status in place.
pub proof fn lemma_unlock_status(old: Kernel, new: Kernel, id: int)
    requires
        status_in_place(old),
        old.current is Some,
        old.has_process(old.current->0.pid as int),
        old.cur_process().has_mutex(id),
        old.cur_process_and_schedule_changed(&new),
        old.cur_process().did_mutex_unlock(&new.cur_process(), id),
        new.current == old.current,
        new.manager@ == woken_joins(
            old.manager@,
            old.cur_process().mutex(id).state().woken_by_unlock(),
        ),
    ensures
        status_in_place(new),
{
    let at = old.current->0.pid as int;
    let before = old.process(at);
    let after = new.process(at);
    let queue = before.mutex(id).state().waiters;
    if queue.len() > 0 {
        lemma_tail_has(queue, TaskStatus::Blocked);
    }
    lemma_woken_has(old.manager@, before.mutex(id).state().woken_by_unlock());
    lemma_objects_blocked(before, after, id, -1, -1);
    lemma_process_blocked(old, new, at);
}

/// An `up` on a semaphore keeps every status in place.
pub proof fn lemma_semaphore_up_status(old: Kernel, new: Kernel, id: int)
    requires
        status_in_place(old),
        old.current is Some,
        old.has_process(old.current->0.pid as int),
        old.cur_process().has_semaphore(id),
        old.cur_process_and_schedule_changed(&new),
        old.cur_process().did_semaphore_up(&new.cur_process(), old.current->0.tid as int, id),
        new.current == old.current,
        new.manager@ == woken_joins(old.manager@, old.cur_process().semaphore(id)@.woken_by_up()),
    ensures
        status_in_place(new),
{
    let at = old.current->0.pid as int;
    let before = old.process(at);
    let after = new.process(at);
    let queue = before.semaphore(id)@.waiters;
    if queue.len() > 0 {
        lemma_tail_has(queue, TaskStatus::Blocked);
    }
    lemma_woken_has(old.manager@, before.semaphore(id)@.woken_by_up());
    lemma_objects_blocked(before, after, -1, id, -1);
    lemma_process_blocked(old, new, at);
}

/// A `down` on a semaphore that is not refused keeps every status in place.
pub proof fn lemma_semaphore_down_status(old: Kernel, new: Kernel, id: int)
    requires
        status_in_place(old),
        old.current is Some,
        old.has_process(old.current->0.pid as int),
        old.cur_process().has_semaphore(id),
        old.cur_process_and_schedule_changed(&new),
        old.cur_process().did_semaphore_down(
            &new.process(old.current->0.pid as int),
            old.current->0,
            id,
        ),
        if old.cur_process().semaphore(id)@.grants() {
            new.manager == old.manager && new.current == old.current
        } else {
            (new.manager@, new.current) == dispatch(old.manager@)
        },
    ensures
        status_in_place(new),
{
    let task = old.current->0;
    let at = task.pid as int;
    let before = old.process(at);
    let after = new.process(at);
    lemma_dispatch_has(old.manager@);
    lemma_push_has(
        before.semaphore(id)@.waiters,
        task.with_status(TaskStatus::Blocked),
        TaskStatus::Blocked,
    );
    lemma_objects_blocked(before, after, -1, id, -1);
    lemma_process_blocked(old, new, at);
}

/// A signal on a condition variable keeps every status in place.
pub proof fn lemma_signal_status(old: Kernel, new: Kernel, id: int)
    requires
        status_in_place(old),
        old.current is Some,
        old.has_process(old.current->0.pid as int),
        old.cur_process().has_condvar(id),
        old.cur_process_and_schedule_changed(&new),
        old.cur_process().did_condvar_signal(&new.cur_process(), id),
        new.current == old.current,
        new.manager@ == woken_joins(old.manager@, old.cur_process().woken_by_signal(id)),
    ensures
        status_in_place(new),
{
    let at = old.current->0.pid as int;
    let before = old.process(at);
    let after = new.process(at);
    let queue = before.condvar(id)@;
    if queue.len() > 0 {
        lemma_tail_has(queue, TaskStatus::Blocked);
    }
    lemma_woken_has(old.manager@, before.woken_by_signal(id));
    lemma_objects_blocked(before, after, -1, -1, id);
    lemma_process_blocked(old, new, at);
}

/// A wait on a condition variable keeps every status in place.
pub proof fn lemma_wait_status(old: Kernel, new: Kernel, cond: int, mutex: int)
    requires
        status_in_place(old),
        old.current is Some,
        old.has_process(old.current->0.pid as int),
        old.cur_process().has_condvar(cond),
        old.cur_process().has_mutex(mutex),
        old.cur_process_and_schedule_changed(&new),
        old.cur_process().did_condvar_wait(
            &new.process(old.current->0.pid as int),
            old.current->0,
            cond,
            mutex,
        ),
        (new.manager@, new.current) == dispatch(
            woken_joins(old.manager@, old.cur_process().mutex(mutex).state().woken_by_unlock()),
        ),
    ensures
        status_in_place(new),
{
    let task = old.current->0;
    let at = task.pid as int;
    let before = old.process(at);
    let after = new.process(at);
    let queue = before.mutex(mutex).state().waiters;
    if queue.len() > 0 {
        lemma_tail_has(queue, TaskStatus::Blocked);
    }
    let woken = before.mutex(mutex).state().woken_by_unlock();
    lemma_woken_has(old.manager@, woken);
    lemma_dispatch_has(woken_joins(old.manager@, woken));
    lemma_push_has(
        before.condvar(cond)@,
        task.with_pending(Some(mutex as usize)).with_status(TaskStatus::Blocked),
        TaskStatus::Blocked,
    );
    lemma_objects_blocked(before, after, mutex, -1, cond);
    lemma_process_blocked(old, new, at);
}

/// A change of the running task's process that leaves the queues of its
/// objects alone, or adds objects without waiters, keeps every status in
/// place. Such are the creation of an object or of a task, a change of the
/// address space and the switch of deadlock detection.
pub proof fn lemma_quiet_change_status(old: Kernel, new: Kernel)
    requires
        status_in_place(old),
        old.current is Some,
        old.has_process(old.current->0.pid as int),
        old.process_replaced(&new, old.current->0.pid as int),
        new.current == old.current,
        new.timers == old.timers,
        new.manager@ == old.manager@ || (exists|task: TaskControlBlock|
            task.status == TaskStatus::Ready && new.manager@ == old.manager@.push(task)),
        forall|k: int| #[trigger]
            new.cur_process().has_mutex(k) ==> new.cur_process().mutex(k).state().waiters.len()
                == 0 || (old.cur_process().has_mutex(k) && new.cur_process().mutex(k)
                == old.cur_process().mutex(k)),
        forall|k: int| #[trigger]
            new.cur_process().has_semaphore(k) ==> new.cur_process().semaphore(k)@.waiters.len()
                == 0 || (old.cur_process().has_semaphore(k) && new.cur_process().semaphore(k)
                == old.cur_process().semaphore(k)),
        forall|k: int| #[trigger]
            new.cur_process().has_condvar(k) ==> new.cur_process().condvar(k)@.len() == 0 || (
            old.cur_process().has_condvar(k) && new.cur_process().condvar(k)
                == old.cur_process().condvar(k)),
    ensures
        status_in_place(new),
{
    let at = old.current->0.pid as int;
    let before = old.process(at);
    let after = new.process(at);
    if new.manager@ != old.manager@ {
        let task = choose|task: TaskControlBlock|
            task.status == TaskStatus::Ready && new.manager@ == old.manager@.push(task);
        lemma_push_has(old.manager@, task, TaskStatus::Ready);
    }
    assert(waiters_blocked(after)) by {
        assert forall|k: int| #[trigger] after.has_mutex(k) implies all_have(
            after.mutex(k).state().waiters,
            TaskStatus::Blocked,
        ) by {
            if after.mutex(k).state().waiters.len() != 0 {
                assert(before.has_mutex(k));
            }
        }
        assert forall|k: int| #[trigger] after.has_semaphore(k) implies all_have(
            after.semaphore(k)@.waiters,
            TaskStatus::Blocked,
        ) by {
            if after.semaphore(k)@.waiters.len() != 0 {
                assert(before.has_semaphore(k));
            }
        }
        assert forall|k: int| #[trigger] after.has_condvar(k) implies all_have(
            after.condvar(k)@,
            TaskStatus::Blocked,
        ) by {
            if after.condvar(k)@.len() != 0 {
                assert(before.has_condvar(k));
            }
        }
    }
    lemma_process_blocked(old, new, at);
}

/// A change of the priority of the running task keeps every status in
/// place.
pub proof fn lemma_set_priority_status(old: Kernel, new: Kernel, priority: usize)
    requires
        status_in_place(old),
        old.current is Some,
        new == (Kernel {
            current: Some(TaskControlBlock { priority, ..old.current->0 }),
            ..old
        }),
    ensures
        status_in_place(new),
{
    assert forall|pid: int| #[trigger] new.has_process(pid) implies waiters_blocked(
        new.process(pid),
    ) by {
        assert(old.has_process(pid));
    }
}

/// The exit of the running task keeps every status in place.
pub proof fn lemma_exit_status(old: Kernel, new: Kernel, code: i32)
    requires
        status_in_place(old),
        old.current is Some,
        old.has_process(old.current->0.pid as int),
        old.did_exit(&new, code),
    ensures
        status_in_place(new),
{
    let task = old.current->0;
    let at = task.pid as int;
    let before = old.process(at);
    let after = new.process(at);
    lemma_without_process_has(old.manager@, task.pid, TaskStatus::Ready);
    lemma_timers_without_process_has(old.timers@, task.pid);
    lemma_dispatch_has(without_process(old.manager@, task.pid));
    lemma_dispatch_has(old.manager@);
    lemma_objects_blocked(before, after, -1, -1, -1);
    lemma_process_blocked(old, new, at);
}

/// The creation of a process keeps every status in place.
pub proof fn lemma_add_process_status(
    old: Kernel,
    new: Kernel,
    parent: Option<usize>,
    memory: crate::mm::MemorySet,
)
    requires
        status_in_place(old),
        parent matches Some(p) ==> old.has_process(p as int),
        old.did_add_process(&new, parent, memory),
    ensures
        status_in_place(new),
{
    let slot = crate::slots::first_free(old.processes@);
    crate::slots::lemma_first_free_exists(old.processes@);
    let created = TaskControlBlock {
        pid: slot as usize,
        tid: 0,
        status: TaskStatus::Ready,
        priority: crate::config::DEFAULT_PRIORITY,
        stride: 0,
        pending_lock: None,
    };
    lemma_push_has(old.manager@, created, TaskStatus::Ready);
    assert forall|pid: int| #[trigger] new.has_process(pid) implies waiters_blocked(
        new.process(pid),
    ) by {
        if pid == slot {
        } else if parent is Some && parent->0 as int == pid {
            assert(old.has_process(pid));
            lemma_objects_blocked(old.process(pid), new.process(pid), -1, -1, -1);
        } else {
            assert(new.processes@.len() == new.processes.len());
            assert(Some(pid as usize) != parent);
            assert(new.processes@[pid] == old.processes@[pid]);
            assert(old.has_process(pid));
        }
    }
}

/// Reaping a zombie keeps every status in place.
pub proof fn lemma_reap_status(old: Kernel, new: Kernel, i: int)
    requires
        status_in_place(old),
        old.current is Some,
        old.has_process(old.current->0.pid as int),
        0 <= i < old.cur_process().children@.len(),
        crate::syscall::process::did_reap(&old, &new, i),
    ensures
        status_in_place(new),
{
    let parent = old.current->0.pid as int;
    let child = old.cur_process().children@[i] as int;
    assert forall|pid: int| #[trigger] new.has_process(pid) implies waiters_blocked(
        new.process(pid),
    ) by {
        if pid == parent {
            lemma_objects_blocked(old.process(pid), new.process(pid), -1, -1, -1);
        } else {
            assert(new.processes@[pid] == old.processes@[pid]);
            assert(old.has_process(pid));
        }
    }
}

} // verus!

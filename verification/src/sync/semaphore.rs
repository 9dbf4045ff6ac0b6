//! Counting semaphores.

use vstd::prelude::*;
use std::collections::VecDeque;
use crate::task::manager::all_wf;
use crate::task::{TaskControlBlock, TaskStatus};

verus! {

/// What a semaphore is, as a value: a signed count and the tasks parked on
/// it, oldest first. A negative count is the number of waiters.
pub struct SemaphoreState {
    pub count: int,
    pub waiters: Seq<TaskControlBlock>,
}

impl SemaphoreState {
    /// The queue holds exactly the waiters that a negative count stands for,
    /// and each of them is well formed.
    pub open spec fn wf(self) -> bool {
        &&& all_wf(self.waiters)
        &&& self.waiters.len() == (if self.count < 0 { -self.count } else { 0 })
    }

    /// A semaphore with `n` free units and no waiter.
    pub open spec fn initial(n: int) -> SemaphoreState {
        SemaphoreState { count: n, waiters: Seq::empty() }
    }

    /// Units that a `down` can take without waiting.
    pub open spec fn available(self) -> int {
        if self.count < 0 {
            0
        } else {
            self.count
        }
    }

    /// The waiter that `up` wakes: the oldest one, when the count after the
    /// increment is not positive.
    pub open spec fn woken_by_up(self) -> Option<TaskControlBlock> {
        if self.count + 1 <= 0 && self.waiters.len() > 0 {
            Some(self.waiters[0])
        } else {
            None
        }
    }

    /// State after `up`: the count grows by one and the woken waiter, if
    /// any, leaves the queue.
    pub open spec fn after_up(self) -> SemaphoreState {
        SemaphoreState {
            count: self.count + 1,
            waiters: if self.woken_by_up() is Some {
                self.waiters.subrange(1, self.waiters.len() as int)
            } else {
                self.waiters
            },
        }
    }

    /// Whether `down` gets its unit at once.
    pub open spec fn grants(self) -> bool {
        self.count - 1 >= 0
    }

    /// State after `down` by `task`: the count shrinks by one, and when it
    /// turns negative the caller is parked, marked blocked, behind the
    /// others.
    pub open spec fn after_down(self, task: TaskControlBlock) -> SemaphoreState {
        SemaphoreState {
            count: self.count - 1,
            waiters: if self.grants() {
                self.waiters
            } else {
                self.waiters.push(task.with_status(TaskStatus::Blocked))
            },
        }
    }
}

/// The data of a semaphore.
pub struct SemaphoreInner {
    pub count: isize,
    pub wait_queue: VecDeque<TaskControlBlock>,
}

/// A counting semaphore with a FIFO wait queue.
pub struct Semaphore {
    pub inner: SemaphoreInner,
}

impl View for Semaphore {
    type V = SemaphoreState;

    open spec fn view(&self) -> SemaphoreState {
        SemaphoreState { count: self.inner.count as int, waiters: self.inner.wait_queue@ }
    }
}

impl Semaphore {
    /// A semaphore with `res_count` free units and no waiter.
    pub fn new(res_count: usize) -> (sem: Semaphore)
        requires
            res_count <= isize::MAX,
        ensures
            sem@ == SemaphoreState::initial(res_count as int),
            sem@.wf(),
    {
        Semaphore { inner: SemaphoreInner { count: res_count as isize, wait_queue: VecDeque::new() } }
    }

    /// Returns one unit. When a task is waiting, the oldest waiter is taken
    /// out of the queue and returned: the unit is now its own and the caller
    /// has to make it ready.
    pub fn up(&mut self) -> (woken: Option<TaskControlBlock>)
        requires
            old(self)@.wf(),
            old(self)@.count < isize::MAX,
        ensures
            final(self)@ == old(self)@.after_up(),
            woken == old(self)@.woken_by_up(),
            final(self)@.wf(),
            woken matches Some(task) ==> task.wf(),
    {
        self.inner.count = self.inner.count + 1;
        if self.inner.count <= 0 {
            self.inner.wait_queue.pop_front()
        } else {
            None
        }
    }

    /// Takes one unit for `task`. Returns `true` when the unit was free and
    /// is granted at once; returns `false` when the caller has been parked
    /// in the wait queue and must be descheduled until an `up` wakes it.
    pub fn down(&mut self, task: TaskControlBlock) -> (granted: bool)
        requires
            old(self)@.wf(),
            old(self)@.count > isize::MIN,
            task.wf(),
        ensures
            final(self)@ == old(self)@.after_down(task),
            granted == old(self)@.grants(),
            final(self)@.wf(),
    {
        self.inner.count = self.inner.count - 1;
        if self.inner.count < 0 {
            let mut parked: TaskControlBlock = task;
            parked.status = TaskStatus::Blocked;
            self.inner.wait_queue.push_back(parked);
            false
        } else {
            true
        }
    }

    /// The current count; a negative count is the number of waiters.
    pub fn get_count(&self) -> (count: isize)
        ensures
            count == self@.count,
    {
        self.inner.count
    }
}

/// One call on a semaphore.
pub enum SemaphoreOp {
    Up,
    Down(TaskControlBlock),
}

/// A semaphore together with the number of units that its callers hold:
/// each `down` that came back, at once or after a wake-up, adds one, and each
/// `up` takes one away.
pub struct SemaphoreHistory {
    pub state: SemaphoreState,
    pub granted: int,
}

/// The history after one more call.
pub open spec fn semaphore_step(h: SemaphoreHistory, op: SemaphoreOp) -> SemaphoreHistory {
    match op {
        SemaphoreOp::Up => SemaphoreHistory {
            state: h.state.after_up(),
            granted: h.granted - 1 + (if h.state.woken_by_up() is Some { 1int } else { 0int }),
        },
        SemaphoreOp::Down(task) => SemaphoreHistory {
            state: h.state.after_down(task),
            granted: h.granted + (if h.state.grants() { 1int } else { 0int }),
        },
    }
}

/// The history of a semaphore created with `n` units after the calls `ops`.
pub open spec fn semaphore_run(n: int, ops: Seq<SemaphoreOp>) -> SemaphoreHistory
    decreases ops.len(),
{
    if ops.len() == 0 {
        SemaphoreHistory { state: SemaphoreState::initial(n), granted: 0 }
    } else {
        semaphore_step(semaphore_run(n, ops.drop_last()), ops.last())
    }
}

/// Every task that the calls pass in is well formed.
pub open spec fn semaphore_ops_wf(ops: Seq<SemaphoreOp>) -> bool {
    forall|i: int| 0 <= i < ops.len() ==> ((#[trigger] ops[i]) matches SemaphoreOp::Down(task) ==> task.wf())
}

/// Conservation of units. After any sequence of `up` and `down` calls on a
/// semaphore created with `n` units, the free units and the units that
/// callers hold add up to `n`, and the queue length matches the count. While
/// nobody waits the free units are the count itself, so the count plus the
/// held units is `n`; with waiters the count is negative by their number.
pub proof fn lemma_semaphore_conservation(n: int, ops: Seq<SemaphoreOp>)
    requires
        n >= 0,
        semaphore_ops_wf(ops),
    ensures
        semaphore_run(n, ops).state.wf(),
        semaphore_run(n, ops).state.available() + semaphore_run(n, ops).granted == n,
        semaphore_run(n, ops).state.count >= 0 ==> semaphore_run(n, ops).state.count
            + semaphore_run(n, ops).granted == n,
        semaphore_run(n, ops).state.count + semaphore_run(n, ops).state.waiters.len()
            + semaphore_run(n, ops).granted == n,
    decreases ops.len(),
{
    if ops.len() > 0 {
        let before = ops.drop_last();
        assert(semaphore_ops_wf(before)) by {
            assert forall|i: int| 0 <= i < before.len() implies ((#[trigger] before[i]) matches SemaphoreOp::Down(task) ==> task.wf()) by {
                assert(before[i] == ops[i]);
            }
        }
        lemma_semaphore_conservation(n, before);
        let h = semaphore_run(n, before);
        match ops.last() {
            SemaphoreOp::Up => {},
            SemaphoreOp::Down(task) => {
                assert(ops[ops.len() - 1] == ops.last());
                assert(task.wf());
            },
        }
    }
}

} // verus!

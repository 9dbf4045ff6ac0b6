//! Mutexes: a spinning one and a blocking one with direct hand-off.

use vstd::prelude::*;
use std::collections::VecDeque;
use crate::task::manager::all_wf;
use crate::task::{TaskControlBlock, TaskStatus};

verus! {

/// What a mutex is, as a value: the hold flag and the tasks parked on it,
/// oldest first.
pub struct MutexState {
    pub locked: bool,
    pub waiters: Seq<TaskControlBlock>,
}

/// How a `lock` call ended for the caller.
#[derive(Clone, Copy, Debug, PartialEq, Eq, Structural)]
pub enum LockOutcome {
    /// The caller holds the mutex.
    Acquired,
    /// The mutex is held and does not queue: the caller yields the processor
    /// and tries again when it next runs.
    Retry,
    /// The caller was parked in the wait queue; an `unlock` will hand the
    /// mutex to it.
    Blocked,
}

impl MutexState {
    /// Waiters are well formed and are parked only while the mutex is held.
    pub open spec fn wf(self) -> bool {
        &&& all_wf(self.waiters)
        &&& self.waiters.len() > 0 ==> self.locked
    }

    /// Result of `lock` in this state; `spins` tells a spinning mutex from a
    /// blocking one.
    pub open spec fn lock_outcome(self, spins: bool) -> LockOutcome {
        if !self.locked {
            LockOutcome::Acquired
        } else if spins {
            LockOutcome::Retry
        } else {
            LockOutcome::Blocked
        }
    }

    /// State after `lock` by `task`: a free mutex becomes held; a held
    /// blocking mutex parks the caller, marked blocked, behind the others; a
    /// held spinning mutex does not change.
    pub open spec fn after_lock(self, task: TaskControlBlock, spins: bool) -> MutexState {
        if !self.locked {
            MutexState { locked: true, ..self }
        } else if spins {
            self
        } else {
            MutexState {
                waiters: self.waiters.push(task.with_status(TaskStatus::Blocked)),
                ..self
            }
        }
    }

    /// The waiter that `unlock` wakes: the oldest one, if any.
    pub open spec fn woken_by_unlock(self) -> Option<TaskControlBlock> {
        if self.waiters.len() > 0 {
            Some(self.waiters[0])
        } else {
            None
        }
    }

    /// State after `unlock`: with a waiter the mutex stays held and passes
    /// to the oldest waiter, who leaves the queue; without one it becomes
    /// free.
    pub open spec fn after_unlock(self) -> MutexState {
        if self.waiters.len() > 0 {
            MutexState { waiters: self.waiters.subrange(1, self.waiters.len() as int), ..self }
        } else {
            MutexState { locked: false, ..self }
        }
    }
}

/// A mutual-exclusion lock.
pub trait Mutex {
    /// The mutex as a value.
    spec fn state(&self) -> MutexState;

    /// Whether a caller that finds the mutex held retries instead of being
    /// queued.
    spec fn spins(&self) -> bool;

    /// Acquires the mutex for `task`, or says how the caller has to wait.
    fn lock(&mut self, task: TaskControlBlock) -> (outcome: LockOutcome)
        requires
            old(self).state().wf(),
            task.wf(),
        ensures
            outcome == old(self).state().lock_outcome(old(self).spins()),
            final(self).state() == old(self).state().after_lock(task, old(self).spins()),
            final(self).spins() == old(self).spins(),
            final(self).state().wf(),
            final(self).state().locked,
    ;

    /// Releases the mutex, which the caller must hold. Returns the waiter to
    /// wake, to whom the mutex now belongs.
    fn unlock(&mut self) -> (woken: Option<TaskControlBlock>)
        requires
            old(self).state().wf(),
            old(self).state().locked,
        ensures
            woken == old(self).state().woken_by_unlock(),
            final(self).state() == old(self).state().after_unlock(),
            final(self).spins() == old(self).spins(),
            final(self).state().wf(),
            woken matches Some(task) ==> task.wf() && final(self).state().locked,
    ;

    /// Whether the mutex is held right now.
    fn is_locking(&self) -> (held: bool)
        ensures
            held == self.state().locked,
    ;
}

/// A mutex without a queue: contenders yield and retry.
pub struct MutexSpin {
    pub locked: bool,
}

impl MutexSpin {
    /// A free spinning mutex.
    pub fn new() -> (mutex: MutexSpin)
        ensures
            mutex.state() == (MutexState { locked: false, waiters: Seq::empty() }),
            mutex.spins(),
            mutex.state().wf(),
    {
        MutexSpin { locked: false }
    }
}

impl Mutex for MutexSpin {
    open spec fn state(&self) -> MutexState {
        MutexState { locked: self.locked, waiters: Seq::empty() }
    }

    open spec fn spins(&self) -> bool {
        true
    }

    fn lock(&mut self, task: TaskControlBlock) -> (outcome: LockOutcome) {
        if self.locked {
            LockOutcome::Retry
        } else {
            self.locked = true;
            LockOutcome::Acquired
        }
    }

    fn unlock(&mut self) -> (woken: Option<TaskControlBlock>) {
        self.locked = false;
        None
    }

    fn is_locking(&self) -> (held: bool) {
        self.locked
    }
}

/// The data of a blocking mutex.
pub struct MutexBlockingInner {
    pub locked: bool,
    pub wait_queue: VecDeque<TaskControlBlock>,
}

/// A mutex with a FIFO wait queue and direct hand-off on release.
pub struct MutexBlocking {
    pub inner: MutexBlockingInner,
}

impl MutexBlocking {
    /// A free blocking mutex with no waiter.
    pub fn new() -> (mutex: MutexBlocking)
        ensures
            mutex.state() == (MutexState { locked: false, waiters: Seq::empty() }),
            !mutex.spins(),
            mutex.state().wf(),
    {
        MutexBlocking { inner: MutexBlockingInner { locked: false, wait_queue: VecDeque::new() } }
    }
}

impl Mutex for MutexBlocking {
    open spec fn state(&self) -> MutexState {
        MutexState { locked: self.inner.locked, waiters: self.inner.wait_queue@ }
    }

    open spec fn spins(&self) -> bool {
        false
    }

    fn lock(&mut self, task: TaskControlBlock) -> (outcome: LockOutcome) {
        if self.inner.locked {
            let mut parked: TaskControlBlock = task;
            parked.status = TaskStatus::Blocked;
            self.inner.wait_queue.push_back(parked);
            LockOutcome::Blocked
        } else {
            self.inner.locked = true;
            LockOutcome::Acquired
        }
    }

    fn unlock(&mut self) -> (woken: Option<TaskControlBlock>) {
        let woken = self.inner.wait_queue.pop_front();
        if woken.is_none() {
            self.inner.locked = false;
        }
        woken
    }

    fn is_locking(&self) -> (held: bool) {
        self.inner.locked
    }
}

/// A mutex of either kind, as a process keeps it in its table.
pub enum MutexKind {
    Spin(MutexSpin),
    Blocking(MutexBlocking),
}

impl Mutex for MutexKind {
    open spec fn state(&self) -> MutexState {
        match self {
            MutexKind::Spin(m) => m.state(),
            MutexKind::Blocking(m) => m.state(),
        }
    }

    open spec fn spins(&self) -> bool {
        self is Spin
    }

    fn lock(&mut self, task: TaskControlBlock) -> (outcome: LockOutcome) {
        match self {
            MutexKind::Spin(m) => m.lock(task),
            MutexKind::Blocking(m) => m.lock(task),
        }
    }

    fn unlock(&mut self) -> (woken: Option<TaskControlBlock>) {
        match self {
            MutexKind::Spin(m) => m.unlock(),
            MutexKind::Blocking(m) => m.unlock(),
        }
    }

    fn is_locking(&self) -> (held: bool) {
        match self {
            MutexKind::Spin(m) => m.is_locking(),
            MutexKind::Blocking(m) => m.is_locking(),
        }
    }
}

/// A task gets past `lock` only with the mutex held. A call that acquires
/// the mutex leaves it locked; a hand-off to a parked task leaves it locked
/// as well, so the task that is woken finds the mutex its own; and a caller
/// that has to retry has changed nothing. This is what makes a wait on a
/// condition variable end with the mutex held: the waiter gets back to user
/// mode only through a `lock` on the mutex that it released.
pub proof fn lemma_lock_comes_back_holding(state: MutexState, task: TaskControlBlock, spins: bool)
    requires
        state.wf(),
        task.wf(),
    ensures
        state.lock_outcome(spins) == LockOutcome::Acquired ==> !state.locked && state.after_lock(
            task,
            spins,
        ).locked,
        state.lock_outcome(spins) == LockOutcome::Retry ==> state.after_lock(task, spins) == state,
        state.lock_outcome(spins) == LockOutcome::Blocked ==> state.after_lock(task, spins).locked
            && state.after_lock(task, spins).waiters.last() == task.with_status(
            TaskStatus::Blocked,
        ),
        state.woken_by_unlock() is Some ==> state.after_unlock().locked,
        state.after_lock(task, spins).wf(),
{
    assert forall|i: int| 0 <= i < state.after_lock(task, spins).waiters.len() implies (
    #[trigger] state.after_lock(task, spins).waiters[i]).wf() by {
        if i < state.waiters.len() {
            assert(state.waiters[i].wf());
        }
    }
}

/// One call on a mutex.
pub enum MutexOp {
    Lock(TaskControlBlock),
    Unlock,
}

/// A blocking mutex together with a record of what its callers saw.
pub struct MutexHistory {
    pub state: MutexState,
    /// Tasks whose `lock` has come back, at once or by hand-off, and that
    /// have not called `unlock` since.
    pub holding: int,
    /// Every task that was parked, in the order of parking.
    pub parked: Seq<TaskControlBlock>,
    /// Every task that was woken, in the order of waking.
    pub woken: Seq<TaskControlBlock>,
}

/// The history of a blocking mutex after one more call.
pub open spec fn mutex_step(h: MutexHistory, op: MutexOp) -> MutexHistory {
    match op {
        MutexOp::Lock(task) => MutexHistory {
            state: h.state.after_lock(task, false),
            holding: if h.state.lock_outcome(false) == LockOutcome::Acquired {
                h.holding + 1
            } else {
                h.holding
            },
            parked: if h.state.lock_outcome(false) == LockOutcome::Blocked {
                h.parked.push(task.with_status(TaskStatus::Blocked))
            } else {
                h.parked
            },
            woken: h.woken,
        },
        MutexOp::Unlock => MutexHistory {
            state: h.state.after_unlock(),
            holding: h.holding - 1 + (if h.state.woken_by_unlock() is Some { 1int } else { 0int }),
            parked: h.parked,
            woken: match h.state.woken_by_unlock() {
                Some(task) => h.woken.push(task),
                None => h.woken,
            },
        },
    }
}

/// The history of a fresh blocking mutex after the calls `ops`.
pub open spec fn mutex_run(ops: Seq<MutexOp>) -> MutexHistory
    decreases ops.len(),
{
    if ops.len() == 0 {
        MutexHistory {
            state: MutexState { locked: false, waiters: Seq::empty() },
            holding: 0,
            parked: Seq::empty(),
            woken: Seq::empty(),
        }
    } else {
        mutex_step(mutex_run(ops.drop_last()), ops.last())
    }
}

/// The calls respect the rule of use: `unlock` is called only by a task that
/// holds the mutex, and every task passed in is well formed.
pub open spec fn mutex_ops_allowed(ops: Seq<MutexOp>) -> bool
    decreases ops.len(),
{
    if ops.len() == 0 {
        true
    } else {
        &&& mutex_ops_allowed(ops.drop_last())
        &&& match ops.last() {
            MutexOp::Lock(task) => task.wf(),
            MutexOp::Unlock => mutex_run(ops.drop_last()).holding >= 1,
        }
    }
}

/// Mutual exclusion and FIFO hand-off of the blocking mutex. After any
/// allowed sequence of calls at most one task holds the mutex, one holds it
/// exactly when it is locked, the tasks woken so far are the first of the
/// tasks parked so far in the same order, and the queue holds the rest.
pub proof fn lemma_blocking_mutex_exclusive_fifo(ops: Seq<MutexOp>)
    requires
        mutex_ops_allowed(ops),
    ensures
        mutex_run(ops).state.wf(),
        0 <= mutex_run(ops).holding <= 1,
        mutex_run(ops).state.locked <==> mutex_run(ops).holding == 1,
        mutex_run(ops).woken.len() <= mutex_run(ops).parked.len(),
        mutex_run(ops).woken == mutex_run(ops).parked.take(mutex_run(ops).woken.len() as int),
        mutex_run(ops).state.waiters == mutex_run(ops).parked.skip(
            mutex_run(ops).woken.len() as int,
        ),
    decreases ops.len(),
{
    if ops.len() > 0 {
        lemma_blocking_mutex_exclusive_fifo(ops.drop_last());
        let h = mutex_run(ops.drop_last());
        let g = mutex_run(ops);
        assert(g == mutex_step(h, ops.last()));
        let k = h.woken.len() as int;
        match ops.last() {
            MutexOp::Lock(task) => {
                if h.state.locked {
                    let parked = task.with_status(TaskStatus::Blocked);
                    assert(g.parked.take(k) =~= h.parked.take(k));
                    assert(g.parked.skip(k) =~= h.parked.skip(k).push(parked));
                }
            },
            MutexOp::Unlock => {
                if h.state.waiters.len() > 0 {
                    assert(h.parked.skip(k)[0] == h.parked[k]);
                    assert(g.woken =~= g.parked.take(k + 1));
                    assert(g.state.waiters =~= g.parked.skip(k + 1));
                }
            },
        }
    }
}

} // verus!

//! Condition variables.

use vstd::prelude::*;
use std::collections::VecDeque;
use crate::task::manager::all_wf;
use crate::task::{TaskControlBlock, TaskStatus};

verus! {

/// A condition variable: a FIFO queue of waiting tasks. It is bound to no
/// mutex; the caller names the mutex at each wait.
pub struct Condvar {
    pub wait_queue: VecDeque<TaskControlBlock>,
}

impl View for Condvar {
    type V = Seq<TaskControlBlock>;

    open spec fn view(&self) -> Seq<TaskControlBlock> {
        self.wait_queue@
    }
}

impl Condvar {
    /// Every waiter is well formed.
    pub open spec fn wf(&self) -> bool {
        all_wf(self@)
    }

    /// A condition variable with no waiter.
    pub fn new() -> (condvar: Condvar)
        ensures
            condvar@ == Seq::<TaskControlBlock>::empty(),
            condvar.wf(),
    {
        Condvar { wait_queue: VecDeque::new() }
    }

    /// Wakes the oldest waiter, if there is one, by handing it back to the
    /// caller. Without a waiter nothing changes.
    pub fn signal(&mut self) -> (woken: Option<TaskControlBlock>)
        requires
            old(self).wf(),
        ensures
            old(self)@.len() == 0 ==> woken is None && final(self)@ == old(self)@,
            old(self)@.len() > 0 ==> woken == Some(old(self)@[0]) && final(self)@ == old(self)@.subrange(1, old(self)@.len() as int),
            final(self).wf(),
            woken matches Some(task) ==> task.wf(),
    {
        self.wait_queue.pop_front()
    }

    /// Parks `task`, marked blocked, behind the other waiters. `task` should
    /// carry as its pending lock the mutex that it released for the wait.
    pub fn wait(&mut self, task: TaskControlBlock)
        requires
            old(self).wf(),
            task.wf(),
        ensures
            final(self)@ == old(self)@.push(task.with_status(TaskStatus::Blocked)),
            final(self).wf(),
    {
        let mut parked: TaskControlBlock = task;
        parked.status = TaskStatus::Blocked;
        self.wait_queue.push_back(parked);
    }
}

} // verus!

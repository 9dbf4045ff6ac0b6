//! Tasks as the scheduler sees them.

use vstd::prelude::*;
use crate::config::{BIG_STRIDE, DEFAULT_PRIORITY, MIN_PRIORITY};

pub mod fairness;
pub mod manager;

verus! {

/// Life-cycle state of a task.
#[derive(Clone, Copy, Debug, PartialEq, Eq, Structural)]
pub enum TaskStatus {
    /// In the ready queue.
    Ready,
    /// On the processor.
    Running,
    /// In a wait queue or with the timers.
    Blocked,
    /// Exited. A zombie has no handle at any place; the status is what a
    /// `TaskInfo` reports for it.
    Zombie,
}

/// The schedulable handle of a task.
///
/// It names the task (`pid`, `tid`) and carries what the scheduler needs. The
/// handle is held by exactly one place at a time: the processor, the ready
/// queue, a wait queue or a timer. The task's resource ledger and exit code
/// stay in the task table of the owning process.
#[derive(Clone, Copy, Debug, PartialEq, Eq, Structural)]
pub struct TaskControlBlock {
    /// Owning process. A weak link: it is looked up at each use.
    pub pid: usize,
    /// Slot of the task in the task table of its process.
    pub tid: usize,
    pub status: TaskStatus,
    /// Scheduling weight, at least `MIN_PRIORITY`.
    pub priority: usize,
    /// Fairness counter. It is a 64-bit value that only grows and stops at
    /// `u64::MAX`; with an advance of at most `MAX_PASS` per dispatch the cap
    /// is out of reach for 2^49 dispatches of one task.
    pub stride: u64,
    /// Mutex the task must still acquire before it returns to user mode.
    pub pending_lock: Option<usize>,
}

/// Stride advance of one dispatch at the given priority.
pub open spec fn stride_pass(priority: usize) -> int {
    BIG_STRIDE as int / priority as int
}

/// Sum of a stride and a pass, held at the 64-bit cap.
pub open spec fn capped_stride(stride: int, pass: int) -> int {
    if stride + pass > u64::MAX {
        u64::MAX as int
    } else {
        stride + pass
    }
}

impl TaskControlBlock {
    /// A task is well formed when its priority is at least `MIN_PRIORITY`.
    pub open spec fn wf(self) -> bool {
        self.priority >= MIN_PRIORITY
    }

    /// The task after one dispatch: its stride advanced by its pass.
    pub open spec fn advanced(self) -> TaskControlBlock {
        TaskControlBlock {
            stride: capped_stride(self.stride as int, stride_pass(self.priority)) as u64,
            ..self
        }
    }

    /// The same task with another status.
    pub open spec fn with_status(self, status: TaskStatus) -> TaskControlBlock {
        TaskControlBlock { status, ..self }
    }

    /// The same task with another pending lock.
    pub open spec fn with_pending(self, pending_lock: Option<usize>) -> TaskControlBlock {
        TaskControlBlock { pending_lock, ..self }
    }

    /// A ready task of process `pid` in slot `tid`, with the default priority
    /// and stride zero.
    pub fn new(pid: usize, tid: usize) -> (task: TaskControlBlock)
        ensures
            task == (TaskControlBlock {
                pid,
                tid,
                status: TaskStatus::Ready,
                priority: DEFAULT_PRIORITY,
                stride: 0,
                pending_lock: None,
            }),
            task.wf(),
    {
        TaskControlBlock {
            pid,
            tid,
            status: TaskStatus::Ready,
            priority: DEFAULT_PRIORITY,
            stride: 0,
            pending_lock: None,
        }
    }

    /// Advances the stride by `BIG_STRIDE / priority`, stopping at `u64::MAX`.
    pub fn advance(&mut self)
        requires
            old(self).priority > 0,
        ensures
            *final(self) == old(self).advanced(),
            final(self).stride >= old(self).stride,
    {
        let pass: usize = BIG_STRIDE / self.priority;
        let pass64: u64 = pass as u64;
        if self.stride > u64::MAX - pass64 {
            self.stride = u64::MAX;
        } else {
            self.stride = self.stride + pass64;
        }
    }
}

} // verus!

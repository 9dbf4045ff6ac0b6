//! The ready queue and the stride scheduling policy.

use vstd::prelude::*;
use std::collections::VecDeque;
use crate::task::TaskControlBlock;

verus! {

/// Every task of the sequence is well formed.
pub open spec fn all_wf(tasks: Seq<TaskControlBlock>) -> bool {
    forall|i: int| 0 <= i < tasks.len() ==> (#[trigger] tasks[i]).wf()
}

/// `i` is the position of the first task with the least stride.
pub open spec fn is_first_min_stride(tasks: Seq<TaskControlBlock>, i: int) -> bool {
    &&& 0 <= i < tasks.len()
    &&& forall|j: int| 0 <= j < tasks.len() ==> tasks[i].stride <= (#[trigger] tasks[j]).stride
    &&& forall|j: int| 0 <= j < i ==> tasks[i].stride < (#[trigger] tasks[j]).stride
}

/// Position of the task that the stride policy picks from a non-empty queue:
/// the least stride, and among equal strides the one nearest the front.
pub open spec fn first_min_stride(tasks: Seq<TaskControlBlock>) -> int {
    choose|i: int| is_first_min_stride(tasks, i)
}

/// At most one position is the first with the least stride.
pub proof fn lemma_first_min_stride_unique(tasks: Seq<TaskControlBlock>, i: int, j: int)
    requires
        is_first_min_stride(tasks, i),
        is_first_min_stride(tasks, j),
    ensures
        i == j,
{
    if i < j {
        assert(tasks[j].stride < tasks[i].stride);
        assert(tasks[i].stride <= tasks[j].stride);
    } else if j < i {
        assert(tasks[i].stride < tasks[j].stride);
        assert(tasks[j].stride <= tasks[i].stride);
    }
}

/// The tasks of the sequence that do not belong to process `pid`, in the
/// same order.
pub open spec fn without_process(tasks: Seq<TaskControlBlock>, pid: usize) -> Seq<TaskControlBlock>
    decreases tasks.len(),
{
    if tasks.len() == 0 {
        tasks
    } else if tasks.last().pid == pid {
        without_process(tasks.drop_last(), pid)
    } else {
        without_process(tasks.drop_last(), pid).push(tasks.last())
    }
}

/// Every task that `without_process` keeps was in the sequence and is not of
/// process `pid`.
pub proof fn lemma_without_process(tasks: Seq<TaskControlBlock>, pid: usize)
    ensures
        forall|i: int|
            0 <= i < without_process(tasks, pid).len() ==> tasks.contains(
                #[trigger] without_process(tasks, pid)[i],
            ) && without_process(tasks, pid)[i].pid != pid,
    decreases tasks.len(),
{
    if tasks.len() > 0 {
        lemma_without_process(tasks.drop_last(), pid);
        let rest = without_process(tasks.drop_last(), pid);
        assert forall|i: int| 0 <= i < without_process(tasks, pid).len() implies tasks.contains(
            #[trigger] without_process(tasks, pid)[i],
        ) && without_process(tasks, pid)[i].pid != pid by {
            if i < rest.len() {
                let k = choose|k: int| 0 <= k < tasks.drop_last().len() && tasks.drop_last()[k] == rest[i];
                assert(tasks[k] == rest[i]);
            } else {
                assert(tasks[tasks.len() - 1] == tasks.last());
            }
        }
    }
}

/// The tasks that are ready to run, in the order in which they were added.
pub struct TaskManager {
    pub ready_queue: VecDeque<TaskControlBlock>,
}

impl View for TaskManager {
    type V = Seq<TaskControlBlock>;

    open spec fn view(&self) -> Seq<TaskControlBlock> {
        self.ready_queue@
    }
}

impl TaskManager {
    /// Every queued task is well formed.
    pub open spec fn wf(&self) -> bool {
        all_wf(self@)
    }

    /// An empty ready queue.
    pub fn new() -> (manager: TaskManager)
        ensures
            manager@ == Seq::<TaskControlBlock>::empty(),
            manager.wf(),
    {
        TaskManager { ready_queue: VecDeque::new() }
    }

    /// Appends a runnable task at the back of the queue.
    pub fn add(&mut self, task: TaskControlBlock)
        ensures
            final(self)@ == old(self)@.push(task),
            old(self).wf() && task.wf() ==> final(self).wf(),
    {
        self.ready_queue.push_back(task);
    }

    /// Drops every task of process `pid` from the queue.
    pub fn remove_process(&mut self, pid: usize)
        ensures
            final(self)@ == without_process(old(self)@, pid),
    {
        let n: usize = self.ready_queue.len();
        let mut kept: VecDeque<TaskControlBlock> = VecDeque::new();
        let mut i: usize = 0;
        while i < n
            invariant
                n == self.ready_queue@.len(),
                i <= n,
                *self == *old(self),
                kept@ == without_process(self.ready_queue@.take(i as int), pid),
            decreases n - i,
        {
            let task: TaskControlBlock = self.ready_queue[i];
            proof {
                let next = self.ready_queue@.take(i + 1);
                assert(next.drop_last() =~= self.ready_queue@.take(i as int));
                assert(next.last() == task);
            }
            if task.pid != pid {
                kept.push_back(task);
            }
            i = i + 1;
        }
        proof {
            assert(self.ready_queue@.take(n as int) =~= self.ready_queue@);
        }
        self.ready_queue = kept;
    }

    /// Number of ready tasks.
    pub fn len(&self) -> (n: usize)
        ensures
            n == self@.len(),
    {
        self.ready_queue.len()
    }

    /// The plain first-in, first-out policy: removes and returns the task at
    /// the front of the queue, or `None` when no task is ready. The stride of
    /// the task is left as it is.
    pub fn fetch_fifo(&mut self) -> (next: Option<TaskControlBlock>)
        ensures
            old(self)@.len() == 0 ==> next is None && final(self)@ == old(self)@,
            old(self)@.len() > 0 ==> next == Some(old(self)@[0]) && final(self)@ == old(self)@.subrange(1, old(self)@.len() as int),
    {
        self.ready_queue.pop_front()
    }

    /// The stride policy: removes and returns the next task to run, or
    /// `None` when no task is ready.
    ///
    /// The task with the least stride is taken, the first such task when
    /// several share it. Its stride is advanced by `BIG_STRIDE / priority`
    /// before it is handed out.
    pub fn fetch(&mut self) -> (next: Option<TaskControlBlock>)
        requires
            old(self).wf(),
        ensures
            final(self).wf(),
            old(self)@.len() == 0 ==> next is None && final(self)@ == old(self)@,
            old(self)@.len() > 0 ==> {
                let i = first_min_stride(old(self)@);
                &&& is_first_min_stride(old(self)@, i)
                &&& next == Some(old(self)@[i].advanced())
                &&& final(self)@ == old(self)@.remove(i)
            },
            next matches Some(task) ==> task.wf(),
    {
        let n: usize = self.ready_queue.len();
        if n == 0 {
            return None;
        }
        let mut index: usize = 0;
        let mut min_stride: u64 = self.ready_queue[0].stride;
        let mut i: usize = 1;
        while i < n
            invariant
                n == self.ready_queue@.len(),
                1 <= i <= n,
                index < i,
                min_stride == self.ready_queue@[index as int].stride,
                is_first_min_stride(self.ready_queue@.take(i as int), index as int),
            decreases n - i,
        {
            let stride: u64 = self.ready_queue[i].stride;
            let ghost before = self.ready_queue@.take(i as int);
            let ghost after = self.ready_queue@.take(i + 1);
            proof {
                assert(forall|j: int| 0 <= j < i ==> after[j] == before[j]);
                assert(after[i as int] == self.ready_queue@[i as int]);
            }
            if stride < min_stride {
                min_stride = stride;
                index = i;
            }
            i = i + 1;
        }
        proof {
            assert(self.ready_queue@.take(n as int) =~= self.ready_queue@);
            lemma_first_min_stride_unique(
                self.ready_queue@,
                index as int,
                first_min_stride(self.ready_queue@),
            );
        }
        let removed = self.ready_queue.remove(index);
        let mut task: TaskControlBlock = removed.unwrap();
        task.advance();
        Some(task)
    }
}

/// Adds a task to the ready queue.
pub fn add_task(manager: &mut TaskManager, task: TaskControlBlock)
    ensures
        final(manager)@ == old(manager)@.push(task),
        old(manager).wf() && task.wf() ==> final(manager).wf(),
{
    manager.add(task);
}

/// Takes the next task to run out of the ready queue; see
/// [`TaskManager::fetch`].
pub fn fetch_task(manager: &mut TaskManager) -> (next: Option<TaskControlBlock>)
    requires
        old(manager).wf(),
    ensures
        final(manager).wf(),
        old(manager)@.len() == 0 ==> next is None && final(manager)@ == old(manager)@,
        old(manager)@.len() > 0 ==> {
            let i = first_min_stride(old(manager)@);
            &&& is_first_min_stride(old(manager)@, i)
            &&& next == Some(old(manager)@[i].advanced())
            &&& final(manager)@ == old(manager)@.remove(i)
        },
        next matches Some(task) ==> task.wf(),
{
    manager.fetch()
}

} // verus!

//! The kernel state and the transitions of the dispatch loop.
//!
//! One task at most runs at a time. A task leaves the processor by yielding,
//! by blocking, by going to sleep or by exiting, and every such step ends
//! with one dispatch from the ready queue. A blocked task comes back only
//! through a wake-up by the object that holds it.

use vstd::prelude::*;
use crate::mm::MemorySet;
use crate::placement::{
    each_in_place, lemma_add_process_in_place, lemma_check_timer_in_place, lemma_exit_in_place,
    lemma_lock_in_place, lemma_new_in_place, lemma_resume_in_place, lemma_run_next_in_place,
    lemma_thread_create_in_place, lemma_yield_in_place,
};
use crate::process::ProcessControlBlock;
use crate::slots::{first_free, insert_slot};
use crate::sync::mutex::{LockOutcome, Mutex};
use crate::task::manager::{
    all_wf, first_min_stride, lemma_without_process, without_process, TaskManager,
};
use crate::status::{
    lemma_add_process_status, lemma_check_timer_status, lemma_exit_status, lemma_lock_status,
    lemma_new_status, lemma_quiet_change_status, lemma_resume_status, lemma_run_next_status,
    lemma_yield_status, status_in_place,
};
use crate::task::{TaskControlBlock, TaskStatus};

verus! {

/// A sleeping task and the time at which it is due.
#[derive(Clone, Copy, Debug, PartialEq, Eq, Structural)]
pub struct Timer {
    pub expire_ms: usize,
    pub task: TaskControlBlock,
}

/// The whole state of the kernel core.
pub struct Kernel {
    /// Process table, indexed by process id. `None` is a freed slot.
    pub processes: Vec<Option<ProcessControlBlock>>,
    /// The ready queue.
    pub manager: TaskManager,
    /// The task that runs on the processor, if any.
    pub current: Option<TaskControlBlock>,
    /// The sleeping tasks, in the order in which they went to sleep.
    pub timers: Vec<Timer>,
}

/// One dispatch from a ready queue: the queue that is left and the task that
/// runs. The task with the least stride runs, the first such task among
/// equals; it leaves the queue with its stride advanced and is marked
/// running. An empty queue leaves the processor idle.
pub open spec fn dispatch(ready: Seq<TaskControlBlock>) -> (
    Seq<TaskControlBlock>,
    Option<TaskControlBlock>,
) {
    if ready.len() == 0 {
        (ready, None)
    } else {
        let i = first_min_stride(ready);
        (ready.remove(i), Some(ready[i].advanced().with_status(TaskStatus::Running)))
    }
}

/// The ready queue after a wake-up: the woken task, marked ready, joins at
/// the back.
pub open spec fn woken_joins(ready: Seq<TaskControlBlock>, woken: Option<TaskControlBlock>) -> Seq<
    TaskControlBlock,
> {
    match woken {
        Some(task) => ready.push(task.with_status(TaskStatus::Ready)),
        None => ready,
    }
}

/// The tasks of the timers that are due at `now_ms`, each marked ready, in
/// the order of the timers.
pub open spec fn due_tasks(timers: Seq<Timer>, now_ms: usize) -> Seq<TaskControlBlock>
    decreases timers.len(),
{
    if timers.len() == 0 {
        Seq::empty()
    } else if timers.last().expire_ms <= now_ms {
        due_tasks(timers.drop_last(), now_ms).push(
            timers.last().task.with_status(TaskStatus::Ready),
        )
    } else {
        due_tasks(timers.drop_last(), now_ms)
    }
}

/// The timers that are not yet due at `now_ms`, in the same order.
pub open spec fn not_due(timers: Seq<Timer>, now_ms: usize) -> Seq<Timer>
    decreases timers.len(),
{
    if timers.len() == 0 {
        timers
    } else if timers.last().expire_ms <= now_ms {
        not_due(timers.drop_last(), now_ms)
    } else {
        not_due(timers.drop_last(), now_ms).push(timers.last())
    }
}

/// The timers whose task does not belong to process `pid`, in the same
/// order.
pub open spec fn timers_without_process(timers: Seq<Timer>, pid: usize) -> Seq<Timer>
    decreases timers.len(),
{
    if timers.len() == 0 {
        timers
    } else if timers.last().task.pid == pid {
        timers_without_process(timers.drop_last(), pid)
    } else {
        timers_without_process(timers.drop_last(), pid).push(timers.last())
    }
}

/// Every timer that `timers_without_process` keeps was among the timers and
/// is not of process `pid`.
pub proof fn lemma_timers_without_process(timers: Seq<Timer>, pid: usize)
    ensures
        forall|i: int|
            0 <= i < timers_without_process(timers, pid).len() ==> timers.contains(
                #[trigger] timers_without_process(timers, pid)[i],
            ) && timers_without_process(timers, pid)[i].task.pid != pid,
    decreases timers.len(),
{
    if timers.len() > 0 {
        lemma_timers_without_process(timers.drop_last(), pid);
        let rest = timers_without_process(timers.drop_last(), pid);
        assert forall|i: int| 0 <= i < timers_without_process(timers, pid).len() implies timers.contains(
            #[trigger] timers_without_process(timers, pid)[i],
        ) && timers_without_process(timers, pid)[i].task.pid != pid by {
            if i < rest.len() {
                let k = choose|k: int|
                    0 <= k < timers.drop_last().len() && timers.drop_last()[k] == rest[i];
                assert(timers[k] == rest[i]);
            } else {
                assert(timers[timers.len() - 1] == timers.last());
            }
        }
    }
}

/// The tasks of the timers, in order.
pub open spec fn timer_tasks(timers: Seq<Timer>) -> Seq<TaskControlBlock> {
    Seq::new(timers.len(), |i: int| timers[i].task)
}

impl Kernel {
    /// The process table has a process in slot `pid`.
    pub open spec fn has_process(&self, pid: int) -> bool {
        0 <= pid < self.processes@.len() && self.processes@[pid] is Some
    }

    /// The process with the given id.
    pub open spec fn process(&self, pid: int) -> ProcessControlBlock {
        self.processes@[pid]->0
    }

    /// The process of the running task.
    pub open spec fn cur_process(&self) -> ProcessControlBlock {
        self.process(self.current->0.pid as int)
    }

    /// The handle is well formed and names a task of a process that exists
    /// and has not exited.
    pub open spec fn live(&self, task: TaskControlBlock) -> bool {
        &&& self.has_process(task.pid as int)
        &&& !self.process(task.pid as int).is_zombie
        &&& self.process(task.pid as int).belongs(task)
    }

    /// Every handle of the queue is live.
    pub open spec fn all_live(&self, queue: Seq<TaskControlBlock>) -> bool {
        forall|i: int| 0 <= i < queue.len() ==> self.live(#[trigger] queue[i])
    }

    /// The children of process `pid` exist, name it as their parent, and are
    /// listed once each.
    pub open spec fn family_ok(&self, pid: int) -> bool {
        let children = self.process(pid).children@;
        &&& forall|i: int|
            0 <= i < children.len() ==> self.has_process(#[trigger] children[i] as int)
                && self.process(children[i] as int).parent == Some(pid as usize)
        &&& forall|i: int, j: int|
            0 <= i < j < children.len() ==> #[trigger] children[i] != #[trigger] children[j]
    }

    /// Every process sits in the slot of its id, is well formed and has a
    /// sound list of children.
    pub open spec fn processes_wf(&self) -> bool {
        &&& self.processes@.len() <= isize::MAX
        &&& forall|pid: int| #[trigger]
            self.has_process(pid) ==> self.process(pid).pid == pid && self.process(pid).wf()
                && self.family_ok(pid)
    }

    /// The kernel state is well formed: the process table is sound, and the
    /// running task, the ready tasks and the sleeping tasks are live.
    pub open spec fn wf(&self) -> bool {
        &&& self.processes_wf()
        &&& self.current matches Some(task) ==> self.live(task)
        &&& self.all_live(self.manager@)
        &&& self.all_live(timer_tasks(self.timers@))
    }

    /// The process table of `new` is that of `self` but for process `pid`.
    pub open spec fn process_replaced(&self, new: &Kernel, pid: int) -> bool {
        &&& new.processes@.len() == self.processes@.len()
        &&& forall|k: int|
            0 <= k < self.processes@.len() && k != pid ==> new.processes@[k] == self.processes@[k]
        &&& new.has_process(pid)
    }

    /// Replacing a process by a well-formed one with the same tasks and
    /// family keeps the process table sound and every live handle live.
    pub proof fn lemma_process_replaced(&self, new: &Kernel, pid: int)
        requires
            self.processes_wf(),
            self.has_process(pid),
            self.process_replaced(new, pid),
            new.process(pid).same_tasks(&self.process(pid)),
            new.process(pid).wf(),
        ensures
            new.processes_wf(),
            forall|task: TaskControlBlock| self.live(task) ==> #[trigger] new.live(task),
            forall|queue: Seq<TaskControlBlock>| self.all_live(queue) ==> #[trigger] new.all_live(queue),
    {
        assert forall|k: int| #[trigger] new.has_process(k) implies new.process(k).pid == k
            && new.process(k).wf() && new.family_ok(k) by {
            assert(self.has_process(k));
            let children = new.process(k).children@;
            assert(children == self.process(k).children@);
            assert forall|i: int| 0 <= i < children.len() implies new.has_process(
                #[trigger] children[i] as int,
            ) && new.process(children[i] as int).parent == Some(k as usize) by {
                let c = children[i] as int;
                assert(self.has_process(c));
            }
        }
        assert forall|task: TaskControlBlock| self.live(task) implies #[trigger] new.live(task) by {
            assert(self.has_process(task.pid as int));
        }
        assert forall|queue: Seq<TaskControlBlock>| self.all_live(queue) implies #[trigger] new.all_live(queue) by {
            assert forall|i: int| 0 <= i < queue.len() implies new.live(#[trigger] queue[i]) by {
                assert(self.live(queue[i]));
            }
        }
    }

    /// What is said of the processes alone carries over to any kernel state
    /// with the same process table.
    pub proof fn lemma_same_processes(&self, new: &Kernel)
        requires
            new.processes == self.processes,
        ensures
            self.processes_wf() ==> new.processes_wf(),
            forall|task: TaskControlBlock| self.live(task) ==> #[trigger] new.live(task),
            forall|queue: Seq<TaskControlBlock>| self.all_live(queue) ==> #[trigger] new.all_live(queue),
    {
        if self.processes_wf() {
            assert forall|k: int| #[trigger] new.has_process(k) implies new.process(k).pid == k
                && new.process(k).wf() && new.family_ok(k) by {
                assert(self.has_process(k));
                let children = new.process(k).children@;
                assert forall|i: int| 0 <= i < children.len() implies new.has_process(
                    #[trigger] children[i] as int,
                ) && new.process(children[i] as int).parent == Some(k as usize) by {
                    assert(self.has_process(children[i] as int));
                }
            }
        }
        assert forall|task: TaskControlBlock| self.live(task) implies #[trigger] new.live(task) by {
            assert(self.has_process(task.pid as int));
        }
        assert forall|queue: Seq<TaskControlBlock>| self.all_live(queue) implies #[trigger] new.all_live(queue) by {
            assert forall|i: int| 0 <= i < queue.len() implies new.live(#[trigger] queue[i]) by {
                assert(self.live(queue[i]));
            }
        }
    }

    /// Every task is at the one place where it should be, and every handle
    /// carries the status of its place: running on the processor, ready in
    /// the ready queue, blocked with the timers and in the wait queues.
    /// Every step of the kernel keeps a settled state settled; see
    /// [`crate::placement`] and [`crate::status`].
    pub open spec fn settled(&self) -> bool {
        each_in_place(*self) && status_in_place(*self)
    }

    /// `new` is this state with another process of the running task and
    /// nothing else changed.
    pub open spec fn only_cur_process_changed(&self, new: &Kernel) -> bool {
        &&& *new == (Kernel { processes: new.processes, ..*self })
        &&& self.process_replaced(new, self.current->0.pid as int)
    }

    /// `new` is this state with another process of the running task, and
    /// perhaps another ready queue and running task.
    pub open spec fn cur_process_and_schedule_changed(&self, new: &Kernel) -> bool {
        &&& *new == (Kernel {
            processes: new.processes,
            manager: new.manager,
            current: new.current,
            ..*self
        })
        &&& self.process_replaced(new, self.current->0.pid as int)
    }

    /// A change of the running task's process that keeps its tasks and
    /// family, and keeps it well formed, keeps the kernel well formed.
    pub proof fn lemma_cur_process_changed(&self, new: &Kernel)
        requires
            self.wf(),
            self.current is Some,
            self.only_cur_process_changed(new),
            new.cur_process().same_tasks(&self.cur_process()),
            new.cur_process().wf(),
        ensures
            new.wf(),
    {
        self.lemma_process_replaced(new, self.current->0.pid as int);
        assert(new.all_live(self.manager@));
        assert(new.all_live(timer_tasks(self.timers@)));
    }

    /// Live handles are well formed.
    pub proof fn lemma_live_wf(&self, queue: Seq<TaskControlBlock>)
        requires
            self.all_live(queue),
        ensures
            all_wf(queue),
    {
        assert forall|i: int| 0 <= i < queue.len() implies (#[trigger] queue[i]).wf() by {
            assert(self.live(queue[i]));
        }
    }

    /// A kernel with no process, an empty ready queue and an idle processor.
    pub fn new() -> (kernel: Kernel)
        ensures
            kernel.processes@.len() == 0,
            kernel.manager@.len() == 0,
            kernel.current is None,
            kernel.timers@.len() == 0,
            kernel.wf(),
            kernel.settled(),
    {
        let kernel = Kernel {
            processes: Vec::new(),
            manager: TaskManager::new(),
            current: None,
            timers: Vec::new(),
        };
        proof {
            lemma_new_in_place(kernel);
            lemma_new_status(kernel);
        }
        kernel
    }

    /// Makes `task` ready: it is marked ready and joins the ready queue at
    /// the back.
    pub fn wakeup_task(&mut self, task: TaskControlBlock)
        requires
            old(self).wf(),
            old(self).live(task),
        ensures
            final(self).wf(),
            *final(self) == (Kernel { manager: final(self).manager, ..*old(self) }),
            final(self).manager@ == old(self).manager@.push(task.with_status(TaskStatus::Ready)),
    {
        let mut ready: TaskControlBlock = task;
        ready.status = TaskStatus::Ready;
        self.manager.add(ready);
        proof {
            old(self).lemma_same_processes(self);
            assert(old(self).live(ready));
            assert forall|i: int| 0 <= i < self.manager@.len() implies self.live(
                #[trigger] self.manager@[i],
            ) by {
                if i < old(self).manager@.len() {
                    assert(old(self).live(old(self).manager@[i]));
                }
            }
        }
    }

    /// One step of the dispatch loop on an idle processor: the next ready
    /// task, if there is one, is taken from the ready queue and runs.
    pub fn run_next(&mut self)
        requires
            old(self).wf(),
            old(self).current is None,
        ensures
            final(self).wf(),
            *final(self) == (Kernel {
                manager: final(self).manager,
                current: final(self).current,
                ..*old(self)
            }),
            (final(self).manager@, final(self).current) == dispatch(old(self).manager@),
            old(self).settled() ==> final(self).settled(),
    {
        proof {
            self.lemma_live_wf(self.manager@);
        }
        let next: Option<TaskControlBlock> = self.manager.fetch();
        match next {
            Some(task) => {
                let mut running: TaskControlBlock = task;
                running.status = TaskStatus::Running;
                self.current = Some(running);
                proof {
                    old(self).lemma_same_processes(self);
                    let i = first_min_stride(old(self).manager@);
                    assert(old(self).live(running));
                    assert(old(self).live(old(self).manager@[i]));
                    assert forall|k: int| 0 <= k < self.manager@.len() implies self.live(
                        #[trigger] self.manager@[k],
                    ) by {
                        if k < i {
                            assert(old(self).live(old(self).manager@[k]));
                        } else {
                            assert(old(self).live(old(self).manager@[k + 1]));
                        }
                    }
                }
            },
            None => {
                proof {
                    old(self).lemma_same_processes(self);
                }
            },
        }
        proof {
            if each_in_place(*old(self)) {
                lemma_run_next_in_place(*old(self), *self);
            }
            if status_in_place(*old(self)) {
                lemma_run_next_status(*old(self), *self);
            }
        }
    }

    /// The running task gives up the processor but stays runnable: it joins
    /// the ready queue at the back, marked ready, and the next task is
    /// dispatched.
    pub fn suspend_current_and_run_next(&mut self)
        requires
            old(self).wf(),
            old(self).current is Some,
        ensures
            final(self).wf(),
            *final(self) == (Kernel {
                manager: final(self).manager,
                current: final(self).current,
                ..*old(self)
            }),
            (final(self).manager@, final(self).current) == dispatch(
                old(self).manager@.push(old(self).current->0.with_status(TaskStatus::Ready)),
            ),
            old(self).settled() ==> final(self).settled(),
    {
        let task: TaskControlBlock = self.current.unwrap();
        self.current = None;
        proof {
            old(self).lemma_same_processes(self);
        }
        self.wakeup_task(task);
        self.run_next();
        proof {
            if each_in_place(*old(self)) {
                lemma_yield_in_place(*old(self), *self);
            }
            if status_in_place(*old(self)) {
                lemma_yield_status(*old(self), *self);
            }
        }
    }

    /// The running task has been parked elsewhere: the processor is freed
    /// and the next task is dispatched.
    pub fn block_current_and_run_next(&mut self)
        requires
            old(self).wf(),
            old(self).current is Some,
        ensures
            final(self).wf(),
            *final(self) == (Kernel {
                manager: final(self).manager,
                current: final(self).current,
                ..*old(self)
            }),
            (final(self).manager@, final(self).current) == dispatch(old(self).manager@),
    {
        self.current = None;
        proof {
            old(self).lemma_same_processes(self);
        }
        self.run_next();
    }

    /// `new` is this state after the running task called `lock` on mutex
    /// `id` of its process. A task that acquires the mutex runs on. A task
    /// that has to retry keeps the mutex as its pending lock and yields. A
    /// task that was parked in the mutex's queue leaves the processor. In
    /// both waiting cases the next ready task is dispatched.
    pub open spec fn did_lock(&self, new: &Kernel, id: int) -> bool {
        let task = self.current->0;
        let process = self.cur_process();
        &&& self.cur_process_and_schedule_changed(new)
        &&& process.did_mutex_lock(&new.process(task.pid as int), task, id)
        &&& match process.lock_outcome(id) {
            LockOutcome::Acquired => new.manager == self.manager && new.current == self.current,
            LockOutcome::Retry => (new.manager@, new.current) == dispatch(
                self.manager@.push(
                    task.with_pending(Some(id as usize)).with_status(TaskStatus::Ready),
                ),
            ),
            LockOutcome::Blocked => (new.manager@, new.current) == dispatch(self.manager@),
        }
    }

    /// This state with the pending lock of the running task cleared.
    pub open spec fn pending_cleared(&self) -> Kernel {
        Kernel { current: Some(self.current->0.with_pending(None)), ..*self }
    }

    /// Changing what the running task carries besides its identity and
    /// priority keeps the kernel well formed.
    pub proof fn lemma_current_changed(&self, new: &Kernel)
        requires
            self.wf(),
            self.current is Some,
            new.current is Some,
            *new == (Kernel { current: new.current, ..*self }),
            new.current->0.pid == self.current->0.pid,
            new.current->0.tid == self.current->0.tid,
            new.current->0.priority == self.current->0.priority,
        ensures
            new.wf(),
    {
        self.lemma_same_processes(new);
        assert(self.live(self.current->0));
    }

    /// The running task calls `lock` on mutex `id` of its process.
    pub fn lock_current(&mut self, id: usize)
        requires
            old(self).wf(),
            old(self).current is Some,
            old(self).cur_process().has_mutex(id as int),
        ensures
            final(self).wf(),
            old(self).did_lock(final(self), id as int),
            final(self).process(old(self).current->0.pid as int).mutex(id as int).state().locked,
            old(self).settled() ==> final(self).settled(),
    {
        let task: TaskControlBlock = self.current.unwrap();
        let pid: usize = task.pid;
        let outcome: LockOutcome = match &mut self.processes[pid] {
            Some(process) => process.mutex_lock(task, id),
            None => LockOutcome::Acquired,
        };
        proof {
            old(self).lemma_cur_process_changed(self);
        }
        let ghost locked = *self;
        match outcome {
            LockOutcome::Acquired => {},
            LockOutcome::Retry => {
                let mut waiting: TaskControlBlock = task;
                waiting.pending_lock = Some(id);
                self.current = Some(waiting);
                proof {
                    locked.lemma_current_changed(self);
                }
                self.suspend_current_and_run_next();
            },
            LockOutcome::Blocked => {
                self.block_current_and_run_next();
            },
        }
        proof {
            if each_in_place(*old(self)) {
                assert(old(self).live(task));
                lemma_lock_in_place(*old(self), *self, id as int);
            }
            if status_in_place(*old(self)) {
                assert(old(self).live(task));
                lemma_lock_status(*old(self), *self, id as int);
            }
        }
    }

    /// Carries on the running task where it stopped inside the kernel. A
    /// task that was woken from a wait on a condition variable, or that
    /// yielded on a held spinning mutex, carries the mutex as its pending
    /// lock; it calls `lock` on it now, and it returns to user mode only if
    /// that call acquires the mutex. A task without a pending lock is in
    /// user mode already and nothing changes. A pending lock on a mutex that
    /// does not exist is dropped.
    pub fn resume(&mut self)
        requires
            old(self).wf(),
            old(self).current is Some,
        ensures
            final(self).wf(),
            match old(self).current->0.pending_lock {
                None => *final(self) == *old(self),
                Some(id) => if old(self).cur_process().has_mutex(id as int) {
                    old(self).pending_cleared().did_lock(final(self), id as int)
                } else {
                    *final(self) == old(self).pending_cleared()
                },
            },
            old(self).current->0.pending_lock matches Some(id) ==> (old(self).cur_process().has_mutex(
                id as int,
            ) && final(self).current == Some(old(self).current->0.with_pending(None))
                ==> final(self).cur_process().mutex(id as int).state().locked),
            old(self).settled() ==> final(self).settled(),
    {
        let task: TaskControlBlock = self.current.unwrap();
        match task.pending_lock {
            None => {},
            Some(id) => {
                let mut cleared: TaskControlBlock = task;
                cleared.pending_lock = None;
                self.current = Some(cleared);
                proof {
                    old(self).lemma_current_changed(self);
                }
                let pid: usize = task.pid;
                let exists: bool = match &self.processes[pid] {
                    Some(process) => id < process.mutex_list.len() && process.mutex_list[id].is_some(),
                    None => false,
                };
                if exists {
                    self.lock_current(id);
                }
            },
        }
        proof {
            if each_in_place(*old(self)) {
                assert(old(self).live(task));
                lemma_resume_in_place(*old(self), *self);
            }
            if status_in_place(*old(self)) {
                assert(old(self).live(task));
                lemma_resume_status(*old(self), *self);
            }
        }
    }

    /// Registers a wake-up of `task` at `expire_ms`: the task is parked,
    /// blocked, behind the sleepers that are already there.
    pub fn add_timer(&mut self, expire_ms: usize, task: TaskControlBlock)
        requires
            old(self).wf(),
            old(self).live(task),
        ensures
            final(self).wf(),
            *final(self) == (Kernel { timers: final(self).timers, ..*old(self) }),
            final(self).timers@ == old(self).timers@.push(
                Timer { expire_ms, task: task.with_status(TaskStatus::Blocked) },
            ),
    {
        let mut parked: TaskControlBlock = task;
        parked.status = TaskStatus::Blocked;
        self.timers.push(Timer { expire_ms, task: parked });
        proof {
            old(self).lemma_same_processes(self);
            let q = timer_tasks(self.timers@);
            let before = timer_tasks(old(self).timers@);
            assert(old(self).live(parked));
            assert forall|i: int| 0 <= i < q.len() implies self.live(#[trigger] q[i]) by {
                if i < before.len() {
                    assert(old(self).live(before[i]));
                    assert(q[i] == before[i]);
                }
            }
        }
    }

    /// `process` is a fresh process: one living task in slot 0 with an empty
    /// ledger, no child, no synchronisation object, detection off.
    pub open spec fn is_fresh_process(
        process: ProcessControlBlock,
        pid: int,
        parent: Option<usize>,
        memory: MemorySet,
    ) -> bool {
        &&& process.pid == pid
        &&& process.parent == parent
        &&& process.children@.len() == 0
        &&& !process.is_zombie
        &&& process.memory.same_as(&memory)
        &&& process.tasks@.len() == 1
        &&& process.alive(0)
        &&& process.tasks@[0]->0.allocated@.len() == 0
        &&& process.mutex_list@.len() == 0
        &&& process.semaphore_list@.len() == 0
        &&& process.condvar_list@.len() == 0
        &&& process.requests@.len() == 0
        &&& !process.deadlock_detect_enabled
    }

    /// `new` is this state after a process with the given parent and address
    /// space was created. The process takes the first free slot of the
    /// process table, which grows when no slot is free; the parent, if any,
    /// lists it as its last child; its main task joins the ready queue with
    /// the default priority and stride zero.
    pub open spec fn did_add_process(
        &self,
        new: &Kernel,
        parent: Option<usize>,
        memory: MemorySet,
    ) -> bool {
        let pid = first_free(self.processes@);
        &&& *new == (Kernel { processes: new.processes, manager: new.manager, ..*self })
        &&& new.manager@ == self.manager@.push(
            TaskControlBlock {
                pid: pid as usize,
                tid: 0,
                status: TaskStatus::Ready,
                priority: crate::config::DEFAULT_PRIORITY,
                stride: 0,
                pending_lock: None,
            },
        )
        &&& new.processes@.len() == (if pid < self.processes@.len() {
            self.processes@.len()
        } else {
            self.processes@.len() + 1
        })
        &&& new.has_process(pid)
        &&& Self::is_fresh_process(new.process(pid), pid, parent, memory)
        &&& forall|k: int|
            0 <= k < self.processes@.len() && k != pid && Some(k as usize) != parent
                ==> new.processes@[k] == self.processes@[k]
        &&& parent matches Some(p) ==> {
            &&& new.has_process(p as int)
            &&& new.process(p as int) == (ProcessControlBlock {
                children: new.process(p as int).children,
                ..self.process(p as int)
            })
            &&& new.process(p as int).children@ == self.process(p as int).children@.push(
                pid as usize,
            )
        }
    }

    /// Creates a process with the given parent and address space; see
    /// [`Self::did_add_process`]. Returns its id.
    pub fn add_process(&mut self, parent: Option<usize>, memory: MemorySet) -> (pid: usize)
        requires
            old(self).wf(),
            old(self).processes@.len() < isize::MAX,
            memory.wf(),
            parent matches Some(p) ==> old(self).has_process(p as int),
        ensures
            final(self).wf(),
            pid == first_free(old(self).processes@),
            old(self).did_add_process(final(self), parent, memory),
            old(self).settled() ==> final(self).settled(),
    {
        let pid: usize = crate::slots::find_free(&self.processes);
        let process: ProcessControlBlock = ProcessControlBlock::new(pid, parent, memory);
        insert_slot(&mut self.processes, process);
        let ghost first = *self;
        proof {
            assert(!old(self).has_process(pid as int));
            assert forall|k: int| #[trigger] first.has_process(k) implies first.process(k).pid == k
                && first.process(k).wf() && first.family_ok(k) by {
                if k != pid {
                    assert(old(self).has_process(k));
                    let children = first.process(k).children@;
                    assert forall|i: int| 0 <= i < children.len() implies first.has_process(
                        #[trigger] children[i] as int,
                    ) && first.process(children[i] as int).parent == Some(k as usize) by {
                        assert(old(self).has_process(children[i] as int));
                    }
                }
            }
            assert forall|task: TaskControlBlock| old(self).live(task) implies #[trigger] first.live(
                task,
            ) by {
                assert(old(self).has_process(task.pid as int));
            }
        }
        match parent {
            Some(p) => {
                match &mut self.processes[p] {
                    Some(owner) => {
                        owner.children.push(pid);
                    },
                    None => {},
                }
                proof {
                    let before = first.process(p as int);
                    let after = self.process(p as int);
                    before.lemma_wf_objects(&after, -1, -1, -1);
                    assert forall|k: int| #[trigger] self.has_process(k) implies self.process(k).pid
                        == k && self.process(k).wf() && self.family_ok(k) by {
                        assert(first.has_process(k));
                        let children = self.process(k).children@;
                        assert forall|i: int| 0 <= i < children.len() implies self.has_process(
                            #[trigger] children[i] as int,
                        ) && self.process(children[i] as int).parent == Some(k as usize) by {
                            if k == p && i == children.len() - 1 {
                            } else {
                                assert(first.process(k).children@[i] == children[i]);
                                assert(first.has_process(children[i] as int));
                            }
                        }
                        if k == p {
                            assert forall|i: int, j: int|
                                0 <= i < j < children.len() implies #[trigger] children[i]
                                != #[trigger] children[j] by {
                                if j == children.len() - 1 {
                                    assert(first.process(k).children@[i] == children[i]);
                                    assert(old(self).process(k).children@[i] == children[i]);
                                    assert(old(self).has_process(children[i] as int));
                                } else {
                                    assert(first.process(k).children@[i] == children[i]);
                                    assert(first.process(k).children@[j] == children[j]);
                                }
                            }
                        }
                    }
                    assert forall|task: TaskControlBlock| first.live(task) implies #[trigger] self.live(
                        task,
                    ) by {
                        assert(first.has_process(task.pid as int));
                    }
                }
            },
            None => {},
        }
        let ghost second = *self;
        let main_task: TaskControlBlock = TaskControlBlock::new(pid, 0);
        self.manager.add(main_task);
        proof {
            second.lemma_same_processes(self);
            assert(second.live(main_task)) by {
                assert(second.has_process(pid as int));
            }
            assert forall|i: int| 0 <= i < self.manager@.len() implies self.live(
                #[trigger] self.manager@[i],
            ) by {
                if i < old(self).manager@.len() {
                    assert(old(self).live(old(self).manager@[i]));
                }
            }
            let sleepers = timer_tasks(self.timers@);
            assert forall|i: int| 0 <= i < sleepers.len() implies self.live(
                #[trigger] sleepers[i],
            ) by {
                assert(old(self).live(timer_tasks(old(self).timers@)[i]));
            }
            if self.current is Some {
                assert(old(self).live(self.current->0));
            }
            if each_in_place(*old(self)) {
                lemma_add_process_in_place(*old(self), *self, parent, memory, pid);
            }
            if status_in_place(*old(self)) {
                lemma_add_process_status(*old(self), *self, parent, memory);
            }
        }
        pid
    }

    /// Creates a task in the process of the running task. The task takes
    /// the first free slot of the task table, which grows when no slot is
    /// free, and joins the ready queue with the default priority and stride
    /// zero. Returns its id.
    pub fn thread_create(&mut self) -> (tid: usize)
        requires
            old(self).wf(),
            old(self).current is Some,
        ensures
            final(self).wf(),
            tid == first_free(old(self).cur_process().tasks@),
            old(self).cur_process_and_schedule_changed(final(self)),
            old(self).cur_process().did_alloc_task(&final(self).cur_process()),
            final(self).current == old(self).current,
            final(self).manager@ == old(self).manager@.push(
                TaskControlBlock {
                    pid: old(self).current->0.pid,
                    tid,
                    status: TaskStatus::Ready,
                    priority: crate::config::DEFAULT_PRIORITY,
                    stride: 0,
                    pending_lock: None,
                },
            ),
            old(self).settled() ==> final(self).settled(),
    {
        let task: TaskControlBlock = self.current.unwrap();
        let pid: usize = task.pid;
        let tid: usize = match &mut self.processes[pid] {
            Some(process) => process.alloc_task(),
            None => 0,
        };
        let ghost first = *self;
        proof {
            assert forall|k: int| #[trigger] first.has_process(k) implies first.process(k).pid == k
                && first.process(k).wf() && first.family_ok(k) by {
                assert(old(self).has_process(k));
                let children = first.process(k).children@;
                assert forall|i: int| 0 <= i < children.len() implies first.has_process(
                    #[trigger] children[i] as int,
                ) && first.process(children[i] as int).parent == Some(k as usize) by {
                    assert(old(self).has_process(children[i] as int));
                }
            }
            assert forall|other: TaskControlBlock| old(self).live(other) implies #[trigger] first.live(
                other,
            ) by {
                assert(old(self).has_process(other.pid as int));
            }
            assert(old(self).live(task));
        }
        let created: TaskControlBlock = TaskControlBlock::new(pid, tid);
        self.manager.add(created);
        proof {
            first.lemma_same_processes(self);
            assert(first.live(created));
            assert forall|i: int| 0 <= i < self.manager@.len() implies self.live(
                #[trigger] self.manager@[i],
            ) by {
                if i < old(self).manager@.len() {
                    assert(old(self).live(old(self).manager@[i]));
                }
            }
            let sleepers = timer_tasks(self.timers@);
            assert forall|i: int| 0 <= i < sleepers.len() implies self.live(
                #[trigger] sleepers[i],
            ) by {
                assert(old(self).live(timer_tasks(old(self).timers@)[i]));
            }
            if each_in_place(*old(self)) {
                lemma_thread_create_in_place(*old(self), *self, tid);
            }
            if status_in_place(*old(self)) {
                lemma_quiet_change_status(*old(self), *self);
            }
        }
        tid
    }

    /// Drops the timers of every task of process `pid`.
    fn remove_timers_of(&mut self, pid: usize)
        ensures
            *final(self) == (Kernel { timers: final(self).timers, ..*old(self) }),
            final(self).timers@ == timers_without_process(old(self).timers@, pid),
    {
        let n: usize = self.timers.len();
        let mut kept: Vec<Timer> = Vec::new();
        let mut i: usize = 0;
        while i < n
            invariant
                n == self.timers@.len(),
                i <= n,
                *self == *old(self),
                kept@ == timers_without_process(self.timers@.take(i as int), pid),
            decreases n - i,
        {
            let timer: Timer = self.timers[i];
            proof {
                let next = self.timers@.take(i + 1);
                assert(next.drop_last() =~= self.timers@.take(i as int));
                assert(next.last() == timer);
            }
            if timer.task.pid != pid {
                kept.push(timer);
            }
            i = i + 1;
        }
        proof {
            assert(self.timers@.take(n as int) =~= self.timers@);
        }
        self.timers = kept;
    }

    /// `new` is this state after the running task exited with `code`. Its
    /// slot in the task table takes the exit code. When it is the main task
    /// of its process, the process becomes a zombie, to be reaped by its
    /// parent, and every other task of the process is dropped from the ready
    /// queue and from the timers. The exited task is queued nowhere, and the
    /// next ready task is dispatched.
    pub open spec fn did_exit(&self, new: &Kernel, code: i32) -> bool {
        let task = self.current->0;
        &&& self.process_replaced(new, task.pid as int)
        &&& self.cur_process().did_exit_task(&new.process(task.pid as int), task.tid as int, code)
        &&& if task.tid == 0 {
            &&& new.timers@ == timers_without_process(self.timers@, task.pid)
            &&& (new.manager@, new.current) == dispatch(without_process(self.manager@, task.pid))
        } else {
            &&& new.timers == self.timers
            &&& (new.manager@, new.current) == dispatch(self.manager@)
        }
    }

    /// The running task exits with `code`; see [`Self::did_exit`].
    pub fn exit_current_and_run_next(&mut self, code: i32)
        requires
            old(self).wf(),
            old(self).current is Some,
        ensures
            final(self).wf(),
            old(self).did_exit(final(self), code),
            old(self).settled() ==> final(self).settled(),
    {
        let task: TaskControlBlock = self.current.unwrap();
        let pid: usize = task.pid;
        self.current = None;
        match &mut self.processes[pid] {
            Some(process) => {
                process.exit_task(task.tid, code);
            },
            None => {},
        }
        let ghost first = *self;
        proof {
            assert forall|k: int| #[trigger] first.has_process(k) implies first.process(k).pid == k
                && first.process(k).wf() && first.family_ok(k) by {
                assert(old(self).has_process(k));
                let children = first.process(k).children@;
                assert forall|i: int| 0 <= i < children.len() implies first.has_process(
                    #[trigger] children[i] as int,
                ) && first.process(children[i] as int).parent == Some(k as usize) by {
                    assert(old(self).has_process(children[i] as int));
                }
            }
            assert forall|other: TaskControlBlock|
                old(self).live(other) && (task.tid != 0 || other.pid != pid) implies #[trigger] first.live(
                other,
            ) by {
                assert(old(self).has_process(other.pid as int));
            }
        }
        if task.tid == 0 {
            self.manager.remove_process(pid);
            self.remove_timers_of(pid);
            proof {
                lemma_without_process(old(self).manager@, pid);
                lemma_timers_without_process(old(self).timers@, pid);
            }
        }
        proof {
            first.lemma_same_processes(self);
            assert forall|i: int| 0 <= i < self.manager@.len() implies self.live(
                #[trigger] self.manager@[i],
            ) by {
                let other = self.manager@[i];
                if task.tid == 0 {
                    let k = choose|k: int|
                        0 <= k < old(self).manager@.len() && old(self).manager@[k] == other;
                    assert(old(self).live(old(self).manager@[k]));
                } else {
                    assert(old(self).live(old(self).manager@[i]));
                }
                assert(first.live(other));
            }
            let sleepers = timer_tasks(self.timers@);
            assert forall|i: int| 0 <= i < sleepers.len() implies self.live(
                #[trigger] sleepers[i],
            ) by {
                let other = sleepers[i];
                if task.tid == 0 {
                    let k = choose|k: int|
                        0 <= k < old(self).timers@.len() && old(self).timers@[k] == self.timers@[i];
                    assert(old(self).live(timer_tasks(old(self).timers@)[k]));
                } else {
                    assert(old(self).live(timer_tasks(old(self).timers@)[i]));
                }
                assert(first.live(other));
            }
        }
        self.run_next();
        proof {
            if each_in_place(*old(self)) {
                lemma_exit_in_place(*old(self), *self, code);
            }
            if status_in_place(*old(self)) {
                lemma_exit_status(*old(self), *self, code);
            }
        }
    }

    /// Wakes every sleeping task that is due at the time `now_ms`: the due
    /// tasks join the ready queue, in the order in which they went to sleep,
    /// and the others sleep on.
    pub fn check_timer(&mut self, now_ms: usize)
        requires
            old(self).wf(),
        ensures
            final(self).wf(),
            *final(self) == (Kernel {
                manager: final(self).manager,
                timers: final(self).timers,
                ..*old(self)
            }),
            final(self).manager@ == old(self).manager@ + due_tasks(old(self).timers@, now_ms),
            final(self).timers@ == not_due(old(self).timers@, now_ms),
            old(self).settled() ==> final(self).settled(),
    {
        let n: usize = self.timers.len();
        let mut kept: Vec<Timer> = Vec::new();
        let mut i: usize = 0;
        while i < n
            invariant
                n == self.timers@.len(),
                i <= n,
                *self == (Kernel { manager: self.manager, ..*old(self) }),
                old(self).wf(),
                self.manager@ == old(self).manager@ + due_tasks(
                    self.timers@.take(i as int),
                    now_ms,
                ),
                kept@ == not_due(self.timers@.take(i as int), now_ms),
                old(self).all_live(self.manager@),
                old(self).all_live(timer_tasks(kept@)),
            decreases n - i,
        {
            let timer: Timer = self.timers[i];
            let ghost ready_before = self.manager@;
            let ghost kept_before = kept@;
            proof {
                let next = self.timers@.take(i + 1);
                assert(next.drop_last() =~= self.timers@.take(i as int));
                assert(next.last() == timer);
                assert(old(self).live(timer_tasks(old(self).timers@)[i as int]));
            }
            if timer.expire_ms <= now_ms {
                let mut ready: TaskControlBlock = timer.task;
                ready.status = TaskStatus::Ready;
                self.manager.add(ready);
                proof {
                    assert(self.manager@ =~= old(self).manager@ + due_tasks(
                        self.timers@.take(i + 1),
                        now_ms,
                    ));
                    assert forall|k: int| 0 <= k < self.manager@.len() implies old(self).live(
                        #[trigger] self.manager@[k],
                    ) by {
                        if k < ready_before.len() {
                            assert(old(self).live(ready_before[k]));
                        }
                    }
                }
            } else {
                kept.push(timer);
                proof {
                    let sleepers = timer_tasks(kept@);
                    assert forall|k: int| 0 <= k < sleepers.len() implies old(self).live(
                        #[trigger] sleepers[k],
                    ) by {
                        if k < kept_before.len() {
                            assert(old(self).live(timer_tasks(kept_before)[k]));
                        }
                    }
                }
            }
            i = i + 1;
        }
        proof {
            assert(self.timers@.take(n as int) =~= self.timers@);
        }
        self.timers = kept;
        proof {
            old(self).lemma_same_processes(self);
            if self.current is Some {
                assert(old(self).live(self.current->0));
            }
            if each_in_place(*old(self)) {
                lemma_check_timer_in_place(*old(self), *self, now_ms);
            }
            if status_in_place(*old(self)) {
                lemma_check_timer_status(*old(self), *self, now_ms);
            }
        }
    }
}

} // verus!

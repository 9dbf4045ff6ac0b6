//! Processes: the task table, the tables of synchronisation objects and the
//! bookkeeping of the deadlock detector.

use vstd::prelude::*;
use crate::deadlock::{is_safe, is_safe_state, matrix_view, rows_have_width, vector_view};
use crate::mm::MemorySet;
use crate::slots::{bump, bumped, entry, first_free, insert_slot, inserted, lower, lowered};
use crate::sync::condvar::Condvar;
use crate::sync::mutex::{LockOutcome, Mutex, MutexBlocking, MutexKind, MutexSpin, MutexState};
use crate::sync::semaphore::{Semaphore, SemaphoreState};
use crate::task::manager::all_wf;
use crate::task::{TaskControlBlock, TaskStatus};

verus! {

/// What a process keeps of one of its tasks.
pub struct TaskSlot {
    /// Units held per semaphore id; entries past the end are zero.
    pub allocated: Vec<usize>,
    /// The exit code, once the task has exited.
    pub exit_code: Option<i32>,
}

/// A process.
pub struct ProcessControlBlock {
    pub pid: usize,
    /// The process that created this one. A weak link: the parent may be
    /// gone, and the number may have been given to another process since.
    pub parent: Option<usize>,
    /// The processes this one created and has not reaped yet.
    pub children: Vec<usize>,
    /// Set once the main task has exited.
    pub is_zombie: bool,
    /// Exit code of the main task; meaningful once `is_zombie` is set.
    pub exit_code: i32,
    pub memory: MemorySet,
    /// Task table, indexed by task id. `None` is a freed slot.
    pub tasks: Vec<Option<TaskSlot>>,
    pub mutex_list: Vec<Option<MutexKind>>,
    pub semaphore_list: Vec<Option<Semaphore>>,
    pub condvar_list: Vec<Option<Condvar>>,
    /// Units wanted and not yet granted, per task id and semaphore id;
    /// entries past the end are zero.
    pub requests: Vec<Vec<usize>>,
    pub deadlock_detect_enabled: bool,
}

/// Row `t` of the matrix, or an empty row past the end.
pub open spec fn row_of(m: Seq<Vec<usize>>, t: int) -> Seq<usize> {
    if 0 <= t < m.len() {
        m[t]@
    } else {
        Seq::empty()
    }
}

/// The matrix grown with empty rows to hold row `t`, and entry `j` of that
/// row raised by one.
pub open spec fn matrix_bumped(m: Seq<Vec<usize>>, new: Seq<Vec<usize>>, t: int, j: int) -> bool {
    &&& new.len() == (if m.len() > t { m.len() } else { (t + 1) as nat })
    &&& forall|u: int| 0 <= u < new.len() ==> (#[trigger] new[u])@ == (if u == t {
            bumped(row_of(m, u), j)
        } else {
            row_of(m, u)
        })
}

/// Entry `j` of row `t` lowered by one, unless it is zero or past the end.
pub open spec fn matrix_lowered(m: Seq<Vec<usize>>, new: Seq<Vec<usize>>, t: int, j: int) -> bool {
    &&& new.len() == m.len()
    &&& forall|u: int| 0 <= u < new.len() ==> (#[trigger] new[u])@ == (if u == t {
            lowered(m[u]@, j)
        } else {
            m[u]@
        })
}

impl ProcessControlBlock {
    /// The mutex table has a mutex in slot `id`.
    pub open spec fn has_mutex(&self, id: int) -> bool {
        0 <= id < self.mutex_list@.len() && self.mutex_list@[id] is Some
    }

    /// The semaphore table has a semaphore in slot `id`.
    pub open spec fn has_semaphore(&self, id: int) -> bool {
        0 <= id < self.semaphore_list@.len() && self.semaphore_list@[id] is Some
    }

    /// The condition-variable table has a condition variable in slot `id`.
    pub open spec fn has_condvar(&self, id: int) -> bool {
        0 <= id < self.condvar_list@.len() && self.condvar_list@[id] is Some
    }

    /// The task table has a slot for `tid`.
    pub open spec fn has_task(&self, tid: int) -> bool {
        0 <= tid < self.tasks@.len() && self.tasks@[tid] is Some
    }

    /// Task `tid` exists and has not exited.
    pub open spec fn alive(&self, tid: int) -> bool {
        self.has_task(tid) && self.tasks@[tid]->0.exit_code is None
    }

    /// Units of semaphore `sem` that the ledger says task `tid` holds.
    pub open spec fn held(&self, tid: int, sem: int) -> int {
        if self.has_task(tid) {
            entry(self.tasks@[tid]->0.allocated@, sem)
        } else {
            0
        }
    }

    /// Units of semaphore `sem` that task `tid` waits for.
    pub open spec fn wanted(&self, tid: int, sem: int) -> int {
        entry(row_of(self.requests@, tid), sem)
    }

    /// The handle is well formed and names a task of this process.
    pub open spec fn belongs(&self, task: TaskControlBlock) -> bool {
        task.wf() && task.pid == self.pid && self.has_task(task.tid as int)
    }

    /// Every handle in the queue belongs to this process.
    pub open spec fn queue_ok(&self, queue: Seq<TaskControlBlock>) -> bool {
        forall|i: int| 0 <= i < queue.len() ==> self.belongs(#[trigger] queue[i])
    }

    /// The synchronisation objects are well formed and every waiter is a
    /// task of this process; a zombie has no object left.
    pub open spec fn wf(&self) -> bool {
        &&& self.memory.wf()
        &&& forall|id: int| #[trigger]
            self.has_mutex(id) ==> self.mutex_list@[id]->0.state().wf() && self.queue_ok(
                self.mutex_list@[id]->0.state().waiters,
            )
        &&& forall|id: int| #[trigger]
            self.has_semaphore(id) ==> self.semaphore_list@[id]->0@.wf() && self.queue_ok(
                self.semaphore_list@[id]->0@.waiters,
            )
        &&& forall|id: int| #[trigger]
            self.has_condvar(id) ==> self.queue_ok(self.condvar_list@[id]->0@)
        &&& self.is_zombie ==> self.mutex_list@.len() == 0 && self.semaphore_list@.len() == 0
            && self.condvar_list@.len() == 0
    }

    /// The two processes have the same identity, zombie state and task
    /// slots in use.
    pub open spec fn same_slots(&self, other: &ProcessControlBlock) -> bool {
        &&& self.pid == other.pid
        &&& self.is_zombie == other.is_zombie
        &&& forall|tid: int| self.has_task(tid) == other.has_task(tid)
    }

    /// The two processes have the same identity, family, zombie state and
    /// living tasks.
    pub open spec fn same_tasks(&self, other: &ProcessControlBlock) -> bool {
        &&& self.pid == other.pid
        &&& self.parent == other.parent
        &&& self.children == other.children
        &&& self.is_zombie == other.is_zombie
        &&& self.exit_code == other.exit_code
        &&& self.tasks@.len() == other.tasks@.len()
        &&& forall|tid: int| self.has_task(tid) == other.has_task(tid)
        &&& forall|tid: int| self.alive(tid) == other.alive(tid)
        &&& forall|tid: int|
            self.has_task(tid) ==> (#[trigger] self.tasks@[tid])->0.exit_code
                == other.tasks@[tid]->0.exit_code
    }

    /// The mutex with the given id.
    pub open spec fn mutex(&self, id: int) -> MutexKind {
        self.mutex_list@[id]->0
    }

    /// The semaphore with the given id.
    pub open spec fn semaphore(&self, id: int) -> Semaphore {
        self.semaphore_list@[id]->0
    }

    /// The condition variable with the given id.
    pub open spec fn condvar(&self, id: int) -> Condvar {
        self.condvar_list@[id]->0
    }

    /// The mutex table of `new` is that of `self` but for mutex `id`, which
    /// is of the same kind and in state `state`.
    pub open spec fn mutex_replaced(&self, new: &ProcessControlBlock, id: int, state: MutexState) -> bool {
        &&& new.mutex_list@.len() == self.mutex_list@.len()
        &&& forall|k: int|
            0 <= k < self.mutex_list@.len() && k != id ==> new.mutex_list@[k] == self.mutex_list@[k]
        &&& new.has_mutex(id)
        &&& new.mutex(id).state() == state
        &&& new.mutex(id).spins() == self.mutex(id).spins()
    }

    /// The semaphore table of `new` is that of `self` but for semaphore
    /// `id`, which is in state `state`.
    pub open spec fn semaphore_replaced(
        &self,
        new: &ProcessControlBlock,
        id: int,
        state: SemaphoreState,
    ) -> bool {
        &&& new.semaphore_list@.len() == self.semaphore_list@.len()
        &&& forall|k: int|
            0 <= k < self.semaphore_list@.len() && k != id ==> new.semaphore_list@[k]
                == self.semaphore_list@[k]
        &&& new.has_semaphore(id)
        &&& new.semaphore(id)@ == state
    }

    /// The condition-variable table of `new` is that of `self` but for
    /// condition variable `id`, whose queue is `queue`.
    pub open spec fn condvar_replaced(
        &self,
        new: &ProcessControlBlock,
        id: int,
        queue: Seq<TaskControlBlock>,
    ) -> bool {
        &&& new.condvar_list@.len() == self.condvar_list@.len()
        &&& forall|k: int|
            0 <= k < self.condvar_list@.len() && k != id ==> new.condvar_list@[k]
                == self.condvar_list@[k]
        &&& new.has_condvar(id)
        &&& new.condvar(id)@ == queue
    }

    /// A change of the ledgers alone keeps a process well formed.
    pub proof fn lemma_wf_ledger(&self, new: &ProcessControlBlock)
        requires
            self.wf(),
            new.same_tasks(self),
            *new == (ProcessControlBlock { tasks: new.tasks, requests: new.requests, ..*self }),
        ensures
            new.wf(),
    {
        assert forall|k: int| #[trigger] new.has_mutex(k) implies new.mutex(k).state().wf()
            && new.queue_ok(new.mutex(k).state().waiters) by {
            assert(self.has_mutex(k));
            let q = self.mutex(k).state().waiters;
            assert forall|i: int| 0 <= i < q.len() implies new.belongs(#[trigger] q[i]) by {
                assert(self.belongs(q[i]));
            }
        }
        assert forall|k: int| #[trigger] new.has_semaphore(k) implies new.semaphore(k)@.wf()
            && new.queue_ok(new.semaphore(k)@.waiters) by {
            assert(self.has_semaphore(k));
            let q = self.semaphore(k)@.waiters;
            assert forall|i: int| 0 <= i < q.len() implies new.belongs(#[trigger] q[i]) by {
                assert(self.belongs(q[i]));
            }
        }
        assert forall|k: int| #[trigger] new.has_condvar(k) implies new.queue_ok(new.condvar(k)@) by {
            assert(self.has_condvar(k));
            let q = self.condvar(k)@;
            assert forall|i: int| 0 <= i < q.len() implies new.belongs(#[trigger] q[i]) by {
                assert(self.belongs(q[i]));
            }
        }
    }

    /// A process stays well formed when its living tasks stay the same and
    /// at most one object of each table changes into a well-formed object
    /// whose waiters belong to the process.
    pub proof fn lemma_wf_objects(&self, new: &ProcessControlBlock, mutex: int, sem: int, cond: int)
        requires
            self.wf(),
            new.same_slots(self),
            new.memory.wf(),
            new.mutex_list@.len() == self.mutex_list@.len(),
            new.semaphore_list@.len() == self.semaphore_list@.len(),
            new.condvar_list@.len() == self.condvar_list@.len(),
            forall|k: int|
                0 <= k < self.mutex_list@.len() && k != mutex ==> new.mutex_list@[k]
                    == self.mutex_list@[k],
            forall|k: int|
                0 <= k < self.semaphore_list@.len() && k != sem ==> new.semaphore_list@[k]
                    == self.semaphore_list@[k],
            forall|k: int|
                0 <= k < self.condvar_list@.len() && k != cond ==> new.condvar_list@[k]
                    == self.condvar_list@[k],
            new.has_mutex(mutex) ==> new.mutex(mutex).state().wf() && new.queue_ok(
                new.mutex(mutex).state().waiters,
            ),
            new.has_semaphore(sem) ==> new.semaphore(sem)@.wf() && new.queue_ok(
                new.semaphore(sem)@.waiters,
            ),
            new.has_condvar(cond) ==> new.queue_ok(new.condvar(cond)@),
        ensures
            new.wf(),
    {
        assert forall|k: int| #[trigger] new.has_mutex(k) implies new.mutex(k).state().wf()
            && new.queue_ok(new.mutex(k).state().waiters) by {
            if k != mutex {
                assert(self.has_mutex(k));
                let q = self.mutex(k).state().waiters;
                assert forall|i: int| 0 <= i < q.len() implies new.belongs(#[trigger] q[i]) by {
                    assert(self.belongs(q[i]));
                }
            }
        }
        assert forall|k: int| #[trigger] new.has_semaphore(k) implies new.semaphore(k)@.wf()
            && new.queue_ok(new.semaphore(k)@.waiters) by {
            if k != sem {
                assert(self.has_semaphore(k));
                let q = self.semaphore(k)@.waiters;
                assert forall|i: int| 0 <= i < q.len() implies new.belongs(#[trigger] q[i]) by {
                    assert(self.belongs(q[i]));
                }
            }
        }
        assert forall|k: int| #[trigger] new.has_condvar(k) implies new.queue_ok(new.condvar(k)@) by {
            if k != cond {
                assert(self.has_condvar(k));
                let q = self.condvar(k)@;
                assert forall|i: int| 0 <= i < q.len() implies new.belongs(#[trigger] q[i]) by {
                    assert(self.belongs(q[i]));
                }
            }
        }
    }

    /// A fresh process with one living task in slot 0 and no
    /// synchronisation object.
    pub fn new(pid: usize, parent: Option<usize>, memory: MemorySet) -> (process:
        ProcessControlBlock)
        requires
            memory.wf(),
        ensures
            process.pid == pid,
            process.parent == parent,
            process.children@ == Seq::<usize>::empty(),
            !process.is_zombie,
            process.exit_code == 0,
            process.memory == memory,
            process.tasks@.len() == 1,
            process.alive(0),
            process.tasks@[0]->0.allocated@ == Seq::<usize>::empty(),
            process.mutex_list@.len() == 0,
            process.semaphore_list@.len() == 0,
            process.condvar_list@.len() == 0,
            process.requests@.len() == 0,
            !process.deadlock_detect_enabled,
            process.wf(),
    {
        let mut tasks: Vec<Option<TaskSlot>> = Vec::new();
        tasks.push(Some(TaskSlot { allocated: Vec::new(), exit_code: None }));
        ProcessControlBlock {
            pid,
            parent,
            children: Vec::new(),
            is_zombie: false,
            exit_code: 0,
            memory,
            tasks,
            mutex_list: Vec::new(),
            semaphore_list: Vec::new(),
            condvar_list: Vec::new(),
            requests: Vec::new(),
            deadlock_detect_enabled: false,
        }
    }

    /// Records that task `tid` holds one more unit of semaphore `sem`.
    pub fn grant(&mut self, tid: usize, sem: usize)
        requires
            old(self).has_task(tid as int),
            sem < usize::MAX,
            old(self).held(tid as int, sem as int) < usize::MAX,
        ensures
            *final(self) == (ProcessControlBlock { tasks: final(self).tasks, ..*old(self) }),
            final(self).same_tasks(old(self)),
            final(self).tasks@[tid as int]->0.allocated@ == bumped(
                old(self).tasks@[tid as int]->0.allocated@,
                sem as int,
            ),
            old(self).wf() ==> final(self).wf(),
            forall|u: int|
                0 <= u < old(self).tasks@.len() && u != tid ==> final(self).tasks@[u] == old(self).tasks@[u],
    {
        match &mut self.tasks[tid] {
            Some(slot) => {
                bump(&mut slot.allocated, sem);
            },
            None => {},
        }
        proof {
            if old(self).wf() {
                old(self).lemma_wf_ledger(self);
            }
        }
    }

    /// Records that task `tid` gave back one unit of semaphore `sem`, if the
    /// ledger has one.
    pub fn release(&mut self, tid: usize, sem: usize)
        requires
            old(self).has_task(tid as int),
        ensures
            *final(self) == (ProcessControlBlock { tasks: final(self).tasks, ..*old(self) }),
            final(self).same_tasks(old(self)),
            final(self).tasks@[tid as int]->0.allocated@ == lowered(
                old(self).tasks@[tid as int]->0.allocated@,
                sem as int,
            ),
            old(self).wf() ==> final(self).wf(),
            forall|u: int|
                0 <= u < old(self).tasks@.len() && u != tid ==> final(self).tasks@[u] == old(self).tasks@[u],
    {
        match &mut self.tasks[tid] {
            Some(slot) => {
                lower(&mut slot.allocated, sem);
            },
            None => {},
        }
        proof {
            if old(self).wf() {
                old(self).lemma_wf_ledger(self);
            }
        }
    }

    /// Records that task `tid` waits for one more unit of semaphore `sem`.
    pub fn request_down(&mut self, tid: usize, sem: usize)
        requires
            tid < usize::MAX,
            sem < usize::MAX,
            old(self).wanted(tid as int, sem as int) < usize::MAX,
        ensures
            *final(self) == (ProcessControlBlock { requests: final(self).requests, ..*old(self) }),
            matrix_bumped(old(self).requests@, final(self).requests@, tid as int, sem as int),
    {
        while self.requests.len() <= tid
            invariant
                tid < usize::MAX,
                *self == (ProcessControlBlock { requests: self.requests, ..*old(self) }),
                old(self).requests@.len() <= self.requests@.len(),
                self.requests@.len() <= old(self).requests@.len() || self.requests@.len() <= tid
                    + 1,
                forall|u: int|
                    0 <= u < self.requests@.len() ==> (#[trigger] self.requests@[u])@ == row_of(
                        old(self).requests@,
                        u,
                    ),
            decreases tid + 1 - self.requests@.len(),
        {
            self.requests.push(Vec::new());
        }
        bump(&mut self.requests[tid], sem);
    }

    /// Records that task `tid` no longer waits for one unit of semaphore
    /// `sem`, if it was recorded as waiting.
    pub fn request_up(&mut self, tid: usize, sem: usize)
        ensures
            *final(self) == (ProcessControlBlock { requests: final(self).requests, ..*old(self) }),
            matrix_lowered(old(self).requests@, final(self).requests@, tid as int, sem as int),
    {
        if tid < self.requests.len() {
            lower(&mut self.requests[tid], sem);
        }
    }

    /// Free units per semaphore id, as the detector sees them: the count of
    /// the semaphore where it is positive, zero otherwise and for a freed id.
    pub open spec fn work_view(&self) -> Seq<int> {
        Seq::new(
            self.semaphore_list@.len(),
            |j: int|
                if self.has_semaphore(j) {
                    self.semaphore_list@[j]->0@.available()
                } else {
                    0
                },
        )
    }

    /// Units held per task id and semaphore id, as the detector sees them:
    /// the ledger of each living task, zero for the others.
    pub open spec fn allocation_view(&self) -> Seq<Seq<int>> {
        Seq::new(
            self.tasks@.len(),
            |t: int|
                Seq::new(
                    self.semaphore_list@.len(),
                    |j: int|
                        if self.alive(t) {
                            self.held(t, j)
                        } else {
                            0
                        },
                ),
        )
    }

    /// Units wanted per task id and semaphore id, as the detector sees them
    /// when task `tid` asks for one more unit of semaphore `sem`.
    pub open spec fn request_view(&self, tid: int, sem: int) -> Seq<Seq<int>> {
        Seq::new(
            self.tasks@.len(),
            |t: int|
                Seq::new(
                    self.semaphore_list@.len(),
                    |j: int|
                        self.wanted(t, j) + (if t == tid && j == sem {
                            1int
                        } else {
                            0int
                        }),
                ),
        )
    }

    /// Granting task `tid` its wish for one more unit of semaphore `sem`
    /// could end in a deadlock: with that wish added, the state is not safe.
    pub open spec fn would_deadlock(&self, tid: int, sem: int) -> bool {
        !is_safe_state(self.work_view(), self.allocation_view(), self.request_view(tid, sem))
    }

    fn snapshot_work(&self) -> (work: Vec<usize>)
        ensures
            vector_view(&work) == self.work_view(),
    {
        let n: usize = self.semaphore_list.len();
        let mut work: Vec<usize> = Vec::new();
        let mut j: usize = 0;
        while j < n
            invariant
                n == self.semaphore_list@.len(),
                j <= n,
                work@.len() == j,
                forall|k: int| 0 <= k < j ==> #[trigger] work@[k] == self.work_view()[k],
            decreases n - j,
        {
            let free: usize = match &self.semaphore_list[j] {
                Some(sem) => {
                    let count: isize = sem.get_count();
                    if count > 0 {
                        count as usize
                    } else {
                        0
                    }
                },
                None => 0,
            };
            work.push(free);
            j = j + 1;
        }
        assert(vector_view(&work) =~= self.work_view());
        work
    }

    fn snapshot_allocation(&self) -> (allocation: Vec<Vec<usize>>)
        ensures
            matrix_view(&allocation) == self.allocation_view(),
            rows_have_width(&allocation, self.semaphore_list@.len() as int),
            allocation@.len() == self.tasks@.len(),
    {
        let tasks: usize = self.tasks.len();
        let width: usize = self.semaphore_list.len();
        let mut allocation: Vec<Vec<usize>> = Vec::new();
        let mut t: usize = 0;
        while t < tasks
            invariant
                tasks == self.tasks@.len(),
                width == self.semaphore_list@.len(),
                t <= tasks,
                allocation@.len() == t,
                forall|u: int| 0 <= u < t ==> (#[trigger] allocation@[u])@.len() == width,
                forall|u: int, k: int|
                    0 <= u < t && 0 <= k < width ==> #[trigger] allocation@[u]@[k]
                        == self.allocation_view()[u][k],
            decreases tasks - t,
        {
            let mut row: Vec<usize> = Vec::new();
            let mut j: usize = 0;
            while j < width
                invariant
                    tasks == self.tasks@.len(),
                    width == self.semaphore_list@.len(),
                    t < tasks,
                    j <= width,
                    row@.len() == j,
                    forall|k: int|
                        0 <= k < j ==> #[trigger] row@[k] == self.allocation_view()[t as int][k],
                decreases width - j,
            {
                let units: usize = match &self.tasks[t] {
                    Some(slot) => {
                        if slot.exit_code.is_none() && j < slot.allocated.len() {
                            slot.allocated[j]
                        } else {
                            0
                        }
                    },
                    None => 0,
                };
                row.push(units);
                j = j + 1;
            }
            allocation.push(row);
            t = t + 1;
        }
        assert(matrix_view(&allocation) =~~= self.allocation_view());
        allocation
    }

    fn snapshot_request(&self, tid: usize, sem: usize) -> (request: Vec<Vec<usize>>)
        requires
            self.wanted(tid as int, sem as int) < usize::MAX,
        ensures
            matrix_view(&request) == self.request_view(tid as int, sem as int),
            rows_have_width(&request, self.semaphore_list@.len() as int),
            request@.len() == self.tasks@.len(),
    {
        let tasks: usize = self.tasks.len();
        let width: usize = self.semaphore_list.len();
        let mut request: Vec<Vec<usize>> = Vec::new();
        let mut t: usize = 0;
        while t < tasks
            invariant
                tasks == self.tasks@.len(),
                width == self.semaphore_list@.len(),
                self.wanted(tid as int, sem as int) < usize::MAX,
                t <= tasks,
                request@.len() == t,
                forall|u: int| 0 <= u < t ==> (#[trigger] request@[u])@.len() == width,
                forall|u: int, k: int|
                    0 <= u < t && 0 <= k < width ==> #[trigger] request@[u]@[k]
                        == self.request_view(tid as int, sem as int)[u][k],
            decreases tasks - t,
        {
            let mut row: Vec<usize> = Vec::new();
            let mut j: usize = 0;
            while j < width
                invariant
                    tasks == self.tasks@.len(),
                    width == self.semaphore_list@.len(),
                    self.wanted(tid as int, sem as int) < usize::MAX,
                    t < tasks,
                    j <= width,
                    row@.len() == j,
                    forall|k: int|
                        0 <= k < j ==> #[trigger] row@[k] == self.request_view(
                            tid as int,
                            sem as int,
                        )[t as int][k],
                decreases width - j,
            {
                let pending: usize = if t < self.requests.len() && j < self.requests[t].len() {
                    self.requests[t][j]
                } else {
                    0
                };
                let units: usize = if t == tid && j == sem {
                    pending + 1
                } else {
                    pending
                };
                row.push(units);
                j = j + 1;
            }
            request.push(row);
            t = t + 1;
        }
        assert(matrix_view(&request) =~~= self.request_view(tid as int, sem as int));
        request
    }

    /// Runs the deadlock detector for the wish of task `tid` for one more
    /// unit of semaphore `sem`. The state is built anew at each call from the
    /// semaphore counts, the ledgers of the living tasks and the recorded
    /// requests.
    pub fn detect_deadlock(&self, tid: usize, sem: usize) -> (unsafe_state: bool)
        requires
            self.wanted(tid as int, sem as int) < usize::MAX,
        ensures
            unsafe_state == self.would_deadlock(tid as int, sem as int),
    {
        let work = self.snapshot_work();
        let allocation = self.snapshot_allocation();
        let request = self.snapshot_request(tid, sem);
        proof {
            assert(work@.len() == vector_view(&work).len());
        }
        !is_safe(&work, &allocation, &request)
    }

    /// `new` is this process after a mutex, blocking or spinning, was
    /// created in the first free slot of the mutex table.
    pub open spec fn did_create_mutex(&self, new: &ProcessControlBlock, blocking: bool) -> bool {
        let id = first_free(self.mutex_list@);
        &&& *new == (ProcessControlBlock { mutex_list: new.mutex_list, ..*self })
        &&& new.mutex_list@ == inserted(self.mutex_list@, new.mutex(id))
        &&& new.has_mutex(id)
        &&& new.mutex(id).state() == (MutexState { locked: false, waiters: Seq::empty() })
        &&& new.mutex(id).spins() == !blocking
    }

    /// `new` is this process after a semaphore with `res_count` free units
    /// was created in the first free slot of the semaphore table.
    pub open spec fn did_create_semaphore(&self, new: &ProcessControlBlock, res_count: int) -> bool {
        let id = first_free(self.semaphore_list@);
        &&& *new == (ProcessControlBlock { semaphore_list: new.semaphore_list, ..*self })
        &&& new.semaphore_list@ == inserted(self.semaphore_list@, new.semaphore(id))
        &&& new.has_semaphore(id)
        &&& new.semaphore(id)@ == SemaphoreState::initial(res_count)
    }

    /// `new` is this process after a condition variable was created in the
    /// first free slot of the condition-variable table.
    pub open spec fn did_create_condvar(&self, new: &ProcessControlBlock) -> bool {
        let id = first_free(self.condvar_list@);
        &&& *new == (ProcessControlBlock { condvar_list: new.condvar_list, ..*self })
        &&& new.condvar_list@ == inserted(self.condvar_list@, new.condvar(id))
        &&& new.has_condvar(id)
        &&& new.condvar(id)@ == Seq::<TaskControlBlock>::empty()
    }

    /// Result of `lock` on mutex `id`.
    pub open spec fn lock_outcome(&self, id: int) -> LockOutcome {
        self.mutex(id).state().lock_outcome(self.mutex(id).spins())
    }

    /// `new` is this process after `task` called `lock` on mutex `id`.
    pub open spec fn did_mutex_lock(
        &self,
        new: &ProcessControlBlock,
        task: TaskControlBlock,
        id: int,
    ) -> bool {
        &&& *new == (ProcessControlBlock { mutex_list: new.mutex_list, ..*self })
        &&& self.mutex_replaced(
            new,
            id,
            self.mutex(id).state().after_lock(task, self.mutex(id).spins()),
        )
    }

    /// `new` is this process after `unlock` on mutex `id`.
    pub open spec fn did_mutex_unlock(&self, new: &ProcessControlBlock, id: int) -> bool {
        &&& *new == (ProcessControlBlock { mutex_list: new.mutex_list, ..*self })
        &&& self.mutex_replaced(new, id, self.mutex(id).state().after_unlock())
    }

    /// The waiter that `signal` on condition variable `id` wakes: the
    /// oldest one, if any.
    pub open spec fn woken_by_signal(&self, id: int) -> Option<TaskControlBlock> {
        if self.condvar(id)@.len() > 0 {
            Some(self.condvar(id)@[0])
        } else {
            None
        }
    }

    /// `new` is this process after `signal` on condition variable `id`: the
    /// oldest waiter, if any, has left the queue.
    pub open spec fn did_condvar_signal(&self, new: &ProcessControlBlock, id: int) -> bool {
        &&& *new == (ProcessControlBlock { condvar_list: new.condvar_list, ..*self })
        &&& self.condvar_replaced(
            new,
            id,
            if self.condvar(id)@.len() > 0 {
                self.condvar(id)@.subrange(1, self.condvar(id)@.len() as int)
            } else {
                self.condvar(id)@
            },
        )
    }

    /// `new` is this process after `task` began a wait on condition
    /// variable `cond` with mutex `mutex`: the mutex went through an
    /// `unlock`, and the task is parked at the back of the condition
    /// variable's queue, blocked, with the mutex as its pending lock.
    pub open spec fn did_condvar_wait(
        &self,
        new: &ProcessControlBlock,
        task: TaskControlBlock,
        cond: int,
        mutex: int,
    ) -> bool {
        &&& *new == (ProcessControlBlock {
            mutex_list: new.mutex_list,
            condvar_list: new.condvar_list,
            ..*self
        })
        &&& self.mutex_replaced(new, mutex, self.mutex(mutex).state().after_unlock())
        &&& self.condvar_replaced(
            new,
            cond,
            self.condvar(cond)@.push(
                task.with_pending(Some(mutex as usize)).with_status(TaskStatus::Blocked),
            ),
        )
    }

    /// The ledger entry of task `t` for semaphore `s` after an `up` on
    /// semaphore `id` by task `tid`: with detection on, the caller's entry
    /// for `id` drops by one unless it is zero; the woken task's entry for
    /// `id` grows by one.
    pub open spec fn held_after_up(&self, tid: int, id: int, t: int, s: int) -> int {
        let woken = self.semaphore(id)@.woken_by_up();
        let given_back = if self.deadlock_detect_enabled && t == tid && s == id && self.held(t, s)
            > 0 {
            self.held(t, s) - 1
        } else {
            self.held(t, s)
        };
        if woken is Some && t == woken->0.tid && s == id {
            given_back + 1
        } else {
            given_back
        }
    }

    /// The pending request of task `t` for semaphore `s` after an `up` on
    /// semaphore `id`: the woken task's request for `id` drops by one unless
    /// it is zero.
    pub open spec fn wanted_after_up(&self, id: int, t: int, s: int) -> int {
        let woken = self.semaphore(id)@.woken_by_up();
        if woken is Some && t == woken->0.tid && s == id && self.wanted(t, s) > 0 {
            self.wanted(t, s) - 1
        } else {
            self.wanted(t, s)
        }
    }

    /// `new` is this process after task `tid` called `up` on semaphore `id`.
    pub open spec fn did_semaphore_up(&self, new: &ProcessControlBlock, tid: int, id: int) -> bool {
        &&& *new == (ProcessControlBlock {
            semaphore_list: new.semaphore_list,
            tasks: new.tasks,
            requests: new.requests,
            ..*self
        })
        &&& new.same_tasks(self)
        &&& self.semaphore_replaced(new, id, self.semaphore(id)@.after_up())
        &&& forall|t: int, s: int| #[trigger] new.held(t, s) == self.held_after_up(tid, id, t, s)
        &&& forall|t: int, s: int| #[trigger] new.wanted(t, s) == self.wanted_after_up(id, t, s)
    }

    /// `new` is this process after `task` called `down` on semaphore `id`:
    /// a unit granted at once is entered in the task's ledger, a wish that
    /// has to wait is entered as a pending request.
    pub open spec fn did_semaphore_down(
        &self,
        new: &ProcessControlBlock,
        task: TaskControlBlock,
        id: int,
    ) -> bool {
        let granted = self.semaphore(id)@.grants();
        &&& *new == (ProcessControlBlock {
            semaphore_list: new.semaphore_list,
            tasks: new.tasks,
            requests: new.requests,
            ..*self
        })
        &&& new.same_tasks(self)
        &&& self.semaphore_replaced(new, id, self.semaphore(id)@.after_down(task))
        &&& forall|t: int, s: int| #[trigger]
            new.held(t, s) == self.held(t, s) + (if granted && t == task.tid && s == id {
                1int
            } else {
                0int
            })
        &&& forall|t: int, s: int| #[trigger]
            new.wanted(t, s) == self.wanted(t, s) + (if !granted && t == task.tid && s == id {
                1int
            } else {
                0int
            })
    }

    /// Creates a mutex, blocking or spinning, in the first free slot of the
    /// mutex table and returns its id.
    pub fn create_mutex(&mut self, blocking: bool) -> (id: usize)
        requires
            old(self).wf(),
            !old(self).is_zombie,
        ensures
            final(self).wf(),
            final(self).same_tasks(old(self)),
            id == first_free(old(self).mutex_list@),
            old(self).did_create_mutex(final(self), blocking),
    {
        let mutex: MutexKind = if blocking {
            MutexKind::Blocking(MutexBlocking::new())
        } else {
            MutexKind::Spin(MutexSpin::new())
        };
        let id: usize = insert_slot(&mut self.mutex_list, mutex);
        proof {
            assert forall|k: int| #[trigger] self.has_mutex(k) implies self.mutex(k).state().wf()
                && self.queue_ok(self.mutex(k).state().waiters) by {
                if k != id {
                    assert(old(self).has_mutex(k));
                }
            }
            assert forall|k: int| #[trigger] self.has_semaphore(k) implies self.semaphore(k)@.wf()
                && self.queue_ok(self.semaphore(k)@.waiters) by {
                assert(old(self).has_semaphore(k));
            }
            assert forall|k: int| #[trigger] self.has_condvar(k) implies self.queue_ok(
                self.condvar(k)@,
            ) by {
                assert(old(self).has_condvar(k));
            }
        }
        id
    }

    /// Creates a semaphore with `res_count` free units in the first free
    /// slot of the semaphore table and returns its id.
    pub fn create_semaphore(&mut self, res_count: usize) -> (id: usize)
        requires
            old(self).wf(),
            !old(self).is_zombie,
            res_count <= isize::MAX,
        ensures
            final(self).wf(),
            final(self).same_tasks(old(self)),
            id == first_free(old(self).semaphore_list@),
            old(self).did_create_semaphore(final(self), res_count as int),
    {
        let id: usize = insert_slot(&mut self.semaphore_list, Semaphore::new(res_count));
        proof {
            assert forall|k: int| #[trigger] self.has_mutex(k) implies self.mutex(k).state().wf()
                && self.queue_ok(self.mutex(k).state().waiters) by {
                assert(old(self).has_mutex(k));
            }
            assert forall|k: int| #[trigger] self.has_semaphore(k) implies self.semaphore(k)@.wf()
                && self.queue_ok(self.semaphore(k)@.waiters) by {
                if k != id {
                    assert(old(self).has_semaphore(k));
                }
            }
            assert forall|k: int| #[trigger] self.has_condvar(k) implies self.queue_ok(
                self.condvar(k)@,
            ) by {
                assert(old(self).has_condvar(k));
            }
        }
        id
    }

    /// Creates a condition variable in the first free slot of the
    /// condition-variable table and returns its id.
    pub fn create_condvar(&mut self) -> (id: usize)
        requires
            old(self).wf(),
            !old(self).is_zombie,
        ensures
            final(self).wf(),
            final(self).same_tasks(old(self)),
            id == first_free(old(self).condvar_list@),
            old(self).did_create_condvar(final(self)),
    {
        let id: usize = insert_slot(&mut self.condvar_list, Condvar::new());
        proof {
            assert forall|k: int| #[trigger] self.has_mutex(k) implies self.mutex(k).state().wf()
                && self.queue_ok(self.mutex(k).state().waiters) by {
                assert(old(self).has_mutex(k));
            }
            assert forall|k: int| #[trigger] self.has_semaphore(k) implies self.semaphore(k)@.wf()
                && self.queue_ok(self.semaphore(k)@.waiters) by {
                assert(old(self).has_semaphore(k));
            }
            assert forall|k: int| #[trigger] self.has_condvar(k) implies self.queue_ok(
                self.condvar(k)@,
            ) by {
                if k != id {
                    assert(old(self).has_condvar(k));
                }
            }
        }
        id
    }

    /// Locks mutex `id` for `task`, a task of this process; see
    /// [`Mutex::lock`].
    pub fn mutex_lock(&mut self, task: TaskControlBlock, id: usize) -> (outcome: LockOutcome)
        requires
            old(self).wf(),
            old(self).has_mutex(id as int),
            old(self).belongs(task),
        ensures
            final(self).wf(),
            final(self).same_tasks(old(self)),
            outcome == old(self).lock_outcome(id as int),
            old(self).did_mutex_lock(final(self), task, id as int),
            final(self).mutex(id as int).state().locked,
    {
        let outcome: LockOutcome = match &mut self.mutex_list[id] {
            Some(mutex) => mutex.lock(task),
            None => LockOutcome::Retry,
        };
        proof {
            let q = self.mutex(id as int).state().waiters;
            let before = old(self).mutex(id as int).state().waiters;
            assert forall|i: int| 0 <= i < q.len() implies self.belongs(#[trigger] q[i]) by {
                if i < before.len() {
                    assert(old(self).belongs(before[i]));
                    assert(q[i] == before[i]);
                }
            }
            old(self).lemma_wf_objects(self, id as int, -1, -1);
        }
        outcome
    }

    /// Unlocks mutex `id`, which must be held, and returns the waiter that
    /// now holds it, if any; see [`Mutex::unlock`].
    pub fn mutex_unlock(&mut self, id: usize) -> (woken: Option<TaskControlBlock>)
        requires
            old(self).wf(),
            old(self).has_mutex(id as int),
            old(self).mutex(id as int).state().locked,
        ensures
            final(self).wf(),
            final(self).same_tasks(old(self)),
            woken == old(self).mutex(id as int).state().woken_by_unlock(),
            old(self).did_mutex_unlock(final(self), id as int),
            woken matches Some(task) ==> final(self).belongs(task) && final(self).mutex(
                id as int,
            ).state().locked,
    {
        let woken: Option<TaskControlBlock> = match &mut self.mutex_list[id] {
            Some(mutex) => mutex.unlock(),
            None => None,
        };
        proof {
            let q = self.mutex(id as int).state().waiters;
            let before = old(self).mutex(id as int).state().waiters;
            assert forall|i: int| 0 <= i < q.len() implies self.belongs(#[trigger] q[i]) by {
                assert(old(self).belongs(before[i + 1]));
            }
            if before.len() > 0 {
                assert(old(self).belongs(before[0]));
            }
            old(self).lemma_wf_objects(self, id as int, -1, -1);
        }
        woken
    }

    /// Whether mutex `id` is held right now.
    pub fn mutex_is_locking(&self, id: usize) -> (held: bool)
        requires
            self.has_mutex(id as int),
        ensures
            held == self.mutex(id as int).state().locked,
    {
        match &self.mutex_list[id] {
            Some(mutex) => mutex.is_locking(),
            None => false,
        }
    }

    /// Wakes the oldest waiter of condition variable `id`, if there is one,
    /// and returns it.
    pub fn condvar_signal(&mut self, id: usize) -> (woken: Option<TaskControlBlock>)
        requires
            old(self).wf(),
            old(self).has_condvar(id as int),
        ensures
            final(self).wf(),
            final(self).same_tasks(old(self)),
            woken == old(self).woken_by_signal(id as int),
            old(self).did_condvar_signal(final(self), id as int),
            woken matches Some(task) ==> final(self).belongs(task),
    {
        proof {
            let before = old(self).condvar(id as int)@;
            assert(old(self).queue_ok(before));
            assert(all_wf(before)) by {
                assert forall|i: int| 0 <= i < before.len() implies (#[trigger] before[i]).wf() by {
                    assert(old(self).belongs(before[i]));
                }
            }
        }
        let woken: Option<TaskControlBlock> = match &mut self.condvar_list[id] {
            Some(condvar) => condvar.signal(),
            None => None,
        };
        proof {
            let q = self.condvar(id as int)@;
            let before = old(self).condvar(id as int)@;
            if before.len() > 0 {
                assert(old(self).belongs(before[0]));
                assert forall|i: int| 0 <= i < q.len() implies self.belongs(#[trigger] q[i]) by {
                    assert(old(self).belongs(before[i + 1]));
                }
            } else {
                assert(q =~= before);
            }
            old(self).lemma_wf_objects(self, -1, -1, id as int);
        }
        woken
    }

    /// Starts a wait of `task` on condition variable `cond` with mutex
    /// `mutex`, which the task holds: the mutex is unlocked, and the task is
    /// parked on the condition variable with the mutex as its pending lock,
    /// so that it takes the mutex again before it goes on. Returns the task
    /// that the unlock woke, if any.
    pub fn condvar_wait(&mut self, task: TaskControlBlock, cond: usize, mutex: usize) -> (woken:
        Option<TaskControlBlock>)
        requires
            old(self).wf(),
            old(self).has_condvar(cond as int),
            old(self).has_mutex(mutex as int),
            old(self).mutex(mutex as int).state().locked,
            old(self).belongs(task),
        ensures
            final(self).wf(),
            final(self).same_tasks(old(self)),
            woken == old(self).mutex(mutex as int).state().woken_by_unlock(),
            old(self).did_condvar_wait(final(self), task, cond as int, mutex as int),
            woken matches Some(other) ==> final(self).belongs(other),
    {
        let woken: Option<TaskControlBlock> = self.mutex_unlock(mutex);
        let ghost mid = *self;
        proof {
            let before = mid.condvar(cond as int)@;
            assert(mid.queue_ok(before));
            assert(all_wf(before)) by {
                assert forall|i: int| 0 <= i < before.len() implies (#[trigger] before[i]).wf() by {
                    assert(mid.belongs(before[i]));
                }
            }
        }
        let mut parked: TaskControlBlock = task;
        parked.pending_lock = Some(mutex);
        match &mut self.condvar_list[cond] {
            Some(condvar) => {
                condvar.wait(parked);
            },
            None => {},
        }
        proof {
            let q = self.condvar(cond as int)@;
            let before = mid.condvar(cond as int)@;
            assert forall|i: int| 0 <= i < q.len() implies self.belongs(#[trigger] q[i]) by {
                if i < before.len() {
                    assert(mid.belongs(before[i]));
                }
            }
            mid.lemma_wf_objects(self, -1, -1, cond as int);
        }
        woken
    }

    /// An `up` on semaphore `id` by task `tid`. The count grows by one and
    /// the oldest waiter, if any, is taken out of the queue and returned.
    /// With detection on, the caller's ledger loses one unit of `id`. The
    /// woken task's pending request is cleared and the unit is entered in
    /// its ledger.
    pub fn semaphore_up(&mut self, tid: usize, id: usize) -> (woken: Option<TaskControlBlock>)
        requires
            old(self).wf(),
            old(self).has_semaphore(id as int),
            old(self).has_task(tid as int),
            old(self).semaphore(id as int)@.count < isize::MAX,
            old(self).semaphore(id as int)@.woken_by_up() matches Some(task) ==> old(self).held(
                task.tid as int,
                id as int,
            ) < usize::MAX,
        ensures
            final(self).wf(),
            woken == old(self).semaphore(id as int)@.woken_by_up(),
            old(self).did_semaphore_up(final(self), tid as int, id as int),
            woken matches Some(task) ==> final(self).belongs(task),
    {
        assert(id < self.semaphore_list.len() <= usize::MAX);
        if self.deadlock_detect_enabled {
            self.release(tid, id);
        }
        let ghost first = *self;
        let woken: Option<TaskControlBlock> = match &mut self.semaphore_list[id] {
            Some(sem) => sem.up(),
            None => None,
        };
        let ghost second = *self;
        proof {
            let q = second.semaphore(id as int)@.waiters;
            let before = first.semaphore(id as int)@.waiters;
            assert(first.queue_ok(before));
            if woken is Some {
                assert(first.belongs(before[0]));
                assert forall|i: int| 0 <= i < q.len() implies second.belongs(#[trigger] q[i]) by {
                    assert(first.belongs(before[i + 1]));
                }
            } else {
                assert(q =~= before);
            }
            first.lemma_wf_objects(&second, -1, id as int, -1);
        }
        match woken {
            Some(task) => {
                self.request_up(task.tid, id);
                proof {
                    second.lemma_wf_ledger(self);
                }
                self.grant(task.tid, id);
            },
            None => {},
        }
        proof {
            assert forall|t: int, s: int| #[trigger]
                self.wanted(t, s) == old(self).wanted_after_up(id as int, t, s) by {
                if woken is Some && 0 <= t < self.requests@.len() {
                    assert(self.requests@[t]@ == (if t == woken->0.tid {
                        lowered(second.requests@[t]@, id as int)
                    } else {
                        second.requests@[t]@
                    }));
                }
            }
        }
        woken
    }

    /// A `down` on semaphore `id` by `task`, a task of this process. The
    /// count shrinks by one. When it stays at zero or above the unit is
    /// granted at once and entered in the task's ledger, and `true` is
    /// returned. Otherwise the wish is entered as a pending request, the task
    /// is parked in the semaphore's queue, and `false` is returned.
    pub fn semaphore_down(&mut self, task: TaskControlBlock, id: usize) -> (granted: bool)
        requires
            old(self).wf(),
            old(self).has_semaphore(id as int),
            old(self).belongs(task),
            old(self).semaphore(id as int)@.count > isize::MIN,
            old(self).held(task.tid as int, id as int) < usize::MAX,
            old(self).wanted(task.tid as int, id as int) < usize::MAX,
        ensures
            final(self).wf(),
            granted == old(self).semaphore(id as int)@.grants(),
            old(self).did_semaphore_down(final(self), task, id as int),
    {
        assert(id < self.semaphore_list.len() <= usize::MAX);
        assert(task.tid < self.tasks.len() <= usize::MAX);
        let granted: bool = match &mut self.semaphore_list[id] {
            Some(sem) => sem.down(task),
            None => true,
        };
        let ghost second = *self;
        proof {
            let q = second.semaphore(id as int)@.waiters;
            let before = old(self).semaphore(id as int)@.waiters;
            assert(old(self).queue_ok(before));
            assert forall|i: int| 0 <= i < q.len() implies second.belongs(#[trigger] q[i]) by {
                if i < before.len() {
                    assert(old(self).belongs(before[i]));
                    assert(q[i] == before[i]);
                }
            }
            old(self).lemma_wf_objects(&second, -1, id as int, -1);
        }
        if granted {
            self.grant(task.tid, id);
        } else {
            self.request_down(task.tid, id);
            proof {
                assert(self.same_tasks(&second));
                second.lemma_wf_ledger(self);
                assert forall|t: int, s: int| #[trigger]
                    self.wanted(t, s) == old(self).wanted(t, s) + (if t == task.tid && s == id {
                        1int
                    } else {
                        0int
                    }) by {
                    if 0 <= t < self.requests@.len() {
                        assert(self.requests@[t]@ == (if t == task.tid {
                            bumped(row_of(second.requests@, t), id as int)
                        } else {
                            row_of(second.requests@, t)
                        }));
                    }
                }
            }
        }
        granted
    }

    /// `new` is this process after a task was created in the first free
    /// slot of the task table: a living task with an empty ledger.
    pub open spec fn did_alloc_task(&self, new: &ProcessControlBlock) -> bool {
        let tid = first_free(self.tasks@);
        &&& *new == (ProcessControlBlock { tasks: new.tasks, ..*self })
        &&& new.tasks@ == inserted(self.tasks@, new.tasks@[tid]->0)
        &&& new.alive(tid)
        &&& new.tasks@[tid]->0.allocated@ == Seq::<usize>::empty()
    }

    /// Creates a task in the first free slot of the task table, which grows
    /// when no slot is free, and returns its id.
    pub fn alloc_task(&mut self) -> (tid: usize)
        requires
            old(self).wf(),
        ensures
            final(self).wf(),
            tid == first_free(old(self).tasks@),
            !old(self).has_task(tid as int),
            old(self).did_alloc_task(final(self)),
            forall|t: int| old(self).has_task(t) ==> final(self).has_task(t),
    {
        let tid: usize = insert_slot(
            &mut self.tasks,
            TaskSlot { allocated: Vec::new(), exit_code: None },
        );
        proof {
            assert forall|k: int| #[trigger] self.has_mutex(k) implies self.mutex(k).state().wf()
                && self.queue_ok(self.mutex(k).state().waiters) by {
                assert(old(self).has_mutex(k));
                let q = old(self).mutex(k).state().waiters;
                assert forall|i: int| 0 <= i < q.len() implies self.belongs(#[trigger] q[i]) by {
                    assert(old(self).belongs(q[i]));
                }
            }
            assert forall|k: int| #[trigger] self.has_semaphore(k) implies self.semaphore(k)@.wf()
                && self.queue_ok(self.semaphore(k)@.waiters) by {
                assert(old(self).has_semaphore(k));
                let q = old(self).semaphore(k)@.waiters;
                assert forall|i: int| 0 <= i < q.len() implies self.belongs(#[trigger] q[i]) by {
                    assert(old(self).belongs(q[i]));
                }
            }
            assert forall|k: int| #[trigger] self.has_condvar(k) implies self.queue_ok(
                self.condvar(k)@,
            ) by {
                assert(old(self).has_condvar(k));
                let q = old(self).condvar(k)@;
                assert forall|i: int| 0 <= i < q.len() implies self.belongs(#[trigger] q[i]) by {
                    assert(old(self).belongs(q[i]));
                }
            }
        }
        tid
    }

    /// `new` is this process after task `tid` exited with `code`. The task's
    /// slot keeps its ledger and takes the exit code. When the task is the
    /// main task, slot 0, the process becomes a zombie with that exit code
    /// and loses its synchronisation objects.
    pub open spec fn did_exit_task(&self, new: &ProcessControlBlock, tid: int, code: i32) -> bool {
        &&& new.tasks@.len() == self.tasks@.len()
        &&& forall|t: int| 0 <= t < self.tasks@.len() && t != tid ==> new.tasks@[t] == self.tasks@[t]
        &&& new.has_task(tid)
        &&& new.tasks@[tid]->0.exit_code == Some(code)
        &&& new.tasks@[tid]->0.allocated == self.tasks@[tid]->0.allocated
        &&& if tid == 0 {
            &&& *new == (ProcessControlBlock {
                tasks: new.tasks,
                is_zombie: true,
                exit_code: code,
                mutex_list: new.mutex_list,
                semaphore_list: new.semaphore_list,
                condvar_list: new.condvar_list,
                ..*self
            })
            &&& new.mutex_list@.len() == 0
            &&& new.semaphore_list@.len() == 0
            &&& new.condvar_list@.len() == 0
        } else {
            *new == (ProcessControlBlock { tasks: new.tasks, ..*self })
        }
    }

    /// Task `tid` exits with `code`; see [`Self::did_exit_task`].
    pub fn exit_task(&mut self, tid: usize, code: i32)
        requires
            old(self).wf(),
            old(self).has_task(tid as int),
        ensures
            final(self).wf(),
            old(self).did_exit_task(final(self), tid as int, code),
            forall|t: int| old(self).has_task(t) == final(self).has_task(t),
    {
        match &mut self.tasks[tid] {
            Some(slot) => {
                slot.exit_code = Some(code);
            },
            None => {},
        }
        if tid == 0 {
            self.is_zombie = true;
            self.exit_code = code;
            self.mutex_list = Vec::new();
            self.semaphore_list = Vec::new();
            self.condvar_list = Vec::new();
        } else {
            proof {
                assert forall|k: int| #[trigger] self.has_mutex(k) implies self.mutex(
                    k,
                ).state().wf() && self.queue_ok(self.mutex(k).state().waiters) by {
                    assert(old(self).has_mutex(k));
                    let q = old(self).mutex(k).state().waiters;
                    assert forall|i: int| 0 <= i < q.len() implies self.belongs(#[trigger] q[i]) by {
                        assert(old(self).belongs(q[i]));
                    }
                }
                assert forall|k: int| #[trigger] self.has_semaphore(k) implies self.semaphore(
                    k,
                )@.wf() && self.queue_ok(self.semaphore(k)@.waiters) by {
                    assert(old(self).has_semaphore(k));
                    let q = old(self).semaphore(k)@.waiters;
                    assert forall|i: int| 0 <= i < q.len() implies self.belongs(#[trigger] q[i]) by {
                        assert(old(self).belongs(q[i]));
                    }
                }
                assert forall|k: int| #[trigger] self.has_condvar(k) implies self.queue_ok(
                    self.condvar(k)@,
                ) by {
                    assert(old(self).has_condvar(k));
                    let q = old(self).condvar(k)@;
                    assert forall|i: int| 0 <= i < q.len() implies self.belongs(#[trigger] q[i]) by {
                        assert(old(self).belongs(q[i]));
                    }
                }
            }
        }
    }
}

} // verus!

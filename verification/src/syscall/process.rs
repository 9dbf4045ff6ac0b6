//! System calls for processes, memory and time.

use vstd::prelude::*;
use crate::config::{MAX_SYSCALL_NUM, PAGE_SIZE};
use crate::kernel::{dispatch, Kernel};
use crate::mm::{
    chunks_hold, chunks_len, copy_to_chunks, MapArea, MemorySet, page_ceil, page_floor,
    same_shape,
};
use crate::placement::{
    each_in_place, lemma_plain_change_in_place, lemma_reap_in_place, lemma_set_priority_in_place,
};
use crate::process::ProcessControlBlock;
use crate::status::{
    lemma_quiet_change_status, lemma_reap_status, lemma_set_priority_status, status_in_place,
};
use crate::task::{TaskControlBlock, TaskStatus};

verus! {

/// The first `width` bytes of `value`, least significant first.
pub open spec fn le_bytes(value: int, width: nat) -> Seq<u8>
    decreases width,
{
    if width == 0 {
        Seq::empty()
    } else {
        seq![(value % 256) as u8] + le_bytes(value / 256, (width - 1) as nat)
    }
}

proof fn lemma_le_bytes_len(value: int, width: nat)
    ensures
        le_bytes(value, width).len() == width,
    decreases width,
{
    if width > 0 {
        lemma_le_bytes_len(value / 256, (width - 1) as nat);
    }
}

/// Appends the first `width` bytes of `value`, least significant first.
fn push_le_bytes(out: &mut Vec<u8>, value: u64, width: usize)
    ensures
        final(out)@ == old(out)@ + le_bytes(value as int, width as nat),
{
    let mut rest: u64 = value;
    let mut i: usize = 0;
    while i < width
        invariant
            i <= width,
            out@ + le_bytes(rest as int, (width - i) as nat) == old(out)@ + le_bytes(
                value as int,
                width as nat,
            ),
        decreases width - i,
    {
        let ghost before = out@;
        let byte: u8 = (rest % 256) as u8;
        out.push(byte);
        proof {
            let tail = le_bytes(rest as int / 256, (width - i - 1) as nat);
            assert(le_bytes(rest as int, (width - i) as nat) == seq![byte] + tail);
            assert(before.push(byte) + tail =~= before + (seq![byte] + tail));
        }
        rest = rest / 256;
        i = i + 1;
    }
    proof {
        assert(out@ + le_bytes(rest as int, 0) =~= out@);
    }
}

/// A time of day as user programs see it: two machine words, whole seconds
/// and the microseconds beyond them.
#[derive(Clone, Copy, Debug, PartialEq, Eq, Structural)]
pub struct TimeVal {
    pub sec: usize,
    pub usec: usize,
}

/// Size of a `TimeVal` in user memory, in bytes.
pub const TIMEVAL_SIZE: usize = 16;

impl TimeVal {
    /// The time that is `us` microseconds.
    pub fn from_us(us: usize) -> (time: TimeVal)
        ensures
            time.sec == us / 1_000_000,
            time.usec == us % 1_000_000,
    {
        TimeVal { sec: us / 1_000_000, usec: us % 1_000_000 }
    }

    /// The bytes of the structure in user memory: the seconds and then the
    /// microseconds, each as a 64-bit word, least significant byte first.
    pub open spec fn bytes(self) -> Seq<u8> {
        le_bytes(self.sec as int, 8) + le_bytes(self.usec as int, 8)
    }

    /// The bytes of the structure in user memory.
    pub fn to_bytes(&self) -> (out: Vec<u8>)
        ensures
            out@ == self.bytes(),
            out@.len() == TIMEVAL_SIZE,
    {
        let mut out: Vec<u8> = Vec::new();
        push_le_bytes(&mut out, self.sec as u64, 8);
        push_le_bytes(&mut out, self.usec as u64, 8);
        proof {
            lemma_le_bytes_len(self.sec as int, 8);
            lemma_le_bytes_len(self.usec as int, 8);
            assert(out@ =~= self.bytes());
        }
        out
    }
}

/// Number that stands for a task status in user memory.
pub open spec fn status_code(status: TaskStatus) -> u8 {
    match status {
        TaskStatus::Ready => 0,
        TaskStatus::Running => 1,
        TaskStatus::Blocked => 2,
        TaskStatus::Zombie => 3,
    }
}

/// The counters of a system-call table, each as a 32-bit word, least
/// significant byte first.
pub open spec fn table_bytes(counts: Seq<u32>) -> Seq<u8>
    decreases counts.len(),
{
    if counts.len() == 0 {
        Seq::empty()
    } else {
        table_bytes(counts.drop_last()) + le_bytes(counts.last() as int, 4)
    }
}

proof fn lemma_table_bytes_len(counts: Seq<u32>)
    ensures
        table_bytes(counts).len() == 4 * counts.len(),
    decreases counts.len(),
{
    if counts.len() > 0 {
        lemma_table_bytes_len(counts.drop_last());
        lemma_le_bytes_len(counts.last() as int, 4);
    }
}

/// What a task may learn about itself.
pub struct TaskInfo {
    /// Status of the task.
    pub status: TaskStatus,
    /// How often the task made each system call.
    pub syscall_times: [u32; MAX_SYSCALL_NUM],
    /// Time the task has been running, in milliseconds.
    pub time: usize,
}

/// Size of a `TaskInfo` in user memory, in bytes.
pub const TASKINFO_SIZE: usize = 2016;

impl TaskInfo {
    /// A record with the given content.
    pub fn new(status: TaskStatus, syscall_times: [u32; MAX_SYSCALL_NUM], time: usize) -> (info:
        TaskInfo)
        ensures
            info.status == status,
            info.syscall_times == syscall_times,
            info.time == time,
    {
        TaskInfo { status, syscall_times, time }
    }

    /// The bytes of the structure in user memory, fields in the order of
    /// their declaration, each at the next offset that is a multiple of its
    /// size: the status code in one byte, three zero bytes, the counters as
    /// 32-bit words, four zero bytes, and the time as a 64-bit word.
    pub open spec fn bytes(&self) -> Seq<u8> {
        seq![status_code(self.status), 0u8, 0u8, 0u8] + table_bytes(self.syscall_times@) + seq![
            0u8,
            0u8,
            0u8,
            0u8,
        ] + le_bytes(self.time as int, 8)
    }

    /// The bytes of the structure in user memory.
    pub fn to_bytes(&self) -> (out: Vec<u8>)
        ensures
            out@ == self.bytes(),
            out@.len() == TASKINFO_SIZE,
    {
        let code: u8 = match self.status {
            TaskStatus::Ready => 0,
            TaskStatus::Running => 1,
            TaskStatus::Blocked => 2,
            TaskStatus::Zombie => 3,
        };
        let mut out: Vec<u8> = Vec::new();
        out.push(code);
        out.push(0);
        out.push(0);
        out.push(0);
        let ghost head = out@;
        let mut i: usize = 0;
        while i < MAX_SYSCALL_NUM
            invariant
                i <= MAX_SYSCALL_NUM,
                self.syscall_times@.len() == MAX_SYSCALL_NUM,
                out@ == head + table_bytes(self.syscall_times@.take(i as int)),
            decreases MAX_SYSCALL_NUM - i,
        {
            let ghost before = out@;
            push_le_bytes(&mut out, self.syscall_times[i] as u64, 4);
            proof {
                let next = self.syscall_times@.take(i + 1);
                assert(next.drop_last() =~= self.syscall_times@.take(i as int));
                assert(next.last() == self.syscall_times@[i as int]);
                assert(out@ =~= head + table_bytes(next));
            }
            i = i + 1;
        }
        proof {
            assert(self.syscall_times@.take(MAX_SYSCALL_NUM as int) =~= self.syscall_times@);
            lemma_table_bytes_len(self.syscall_times@);
        }
        out.push(0);
        out.push(0);
        out.push(0);
        out.push(0);
        push_le_bytes(&mut out, self.time as u64, 8);
        proof {
            lemma_le_bytes_len(self.time as int, 8);
            assert(out@ =~= self.bytes());
        }
        out
    }
}

/// Writes the time `us`, in microseconds since start, as a `TimeVal` into
/// the caller's buffer. The buffer arrives as the chunks that its pages give,
/// in order; the bytes of the structure fill them one after the other, so a
/// buffer that lies across a page boundary is filled like one that does not.
/// The chunks together must not be longer than the structure. Returns 0.
pub fn sys_get_time(us: usize, chunks: &mut Vec<Vec<u8>>, _tz: usize) -> (r: isize)
    requires
        chunks_len(old(chunks)@, old(chunks)@.len() as int) <= TIMEVAL_SIZE,
    ensures
        r == 0,
        same_shape(final(chunks)@, old(chunks)@),
        chunks_hold(
            final(chunks)@,
            (TimeVal { sec: us / 1_000_000, usec: us % 1_000_000 }).bytes(),
            final(chunks)@.len() as int,
        ),
{
    let time: TimeVal = TimeVal::from_us(us);
    let bytes: Vec<u8> = time.to_bytes();
    copy_to_chunks(&bytes, chunks);
    0
}

/// Writes `info` as a `TaskInfo` into the caller's buffer, which arrives in
/// chunks as for [`sys_get_time`]. Returns 0.
pub fn sys_task_info(info: &TaskInfo, chunks: &mut Vec<Vec<u8>>) -> (r: isize)
    requires
        chunks_len(old(chunks)@, old(chunks)@.len() as int) <= TASKINFO_SIZE,
    ensures
        r == 0,
        same_shape(final(chunks)@, old(chunks)@),
        chunks_hold(final(chunks)@, info.bytes(), final(chunks)@.len() as int),
{
    let bytes: Vec<u8> = info.to_bytes();
    copy_to_chunks(&bytes, chunks);
    0
}

/// The running task exits with `exit_code` and never runs again; see
/// [`Kernel::did_exit`].
pub fn sys_exit(kernel: &mut Kernel, exit_code: i32)
    requires
        old(kernel).wf(),
        old(kernel).current is Some,
    ensures
        final(kernel).wf(),
        old(kernel).did_exit(final(kernel), exit_code),
        old(kernel).settled() ==> final(kernel).settled(),
{
    kernel.exit_current_and_run_next(exit_code);
}

/// The running task gives up the processor: it joins the ready queue at the
/// back and the next task is dispatched. Returns 0.
pub fn sys_yield(kernel: &mut Kernel) -> (r: isize)
    requires
        old(kernel).wf(),
        old(kernel).current is Some,
    ensures
        final(kernel).wf(),
        r == 0,
        final(kernel).processes == old(kernel).processes,
        final(kernel).timers == old(kernel).timers,
        (final(kernel).manager@, final(kernel).current) == dispatch(
            old(kernel).manager@.push(old(kernel).current->0.with_status(TaskStatus::Ready)),
        ),
        old(kernel).settled() ==> final(kernel).settled(),
{
    kernel.suspend_current_and_run_next();
    0
}

/// Returns the id of the process of the running task.
pub fn sys_getpid(kernel: &Kernel) -> (pid: isize)
    requires
        kernel.wf(),
        kernel.current is Some,
    ensures
        pid == kernel.current->0.pid,
{
    let task: TaskControlBlock = kernel.current.unwrap();
    assert(kernel.has_process(task.pid as int));
    task.pid as isize
}

/// Creates a child of the process of the running task with a copy of its
/// address space; see [`Kernel::did_add_process`]. Returns the id of the
/// child.
pub fn sys_fork(kernel: &mut Kernel) -> (pid: isize)
    requires
        old(kernel).wf(),
        old(kernel).current is Some,
        old(kernel).processes@.len() < isize::MAX,
    ensures
        final(kernel).wf(),
        pid == crate::slots::first_free(old(kernel).processes@),
        old(kernel).did_add_process(
            final(kernel),
            Some(old(kernel).current->0.pid),
            old(kernel).cur_process().memory,
        ),
        old(kernel).settled() ==> final(kernel).settled(),
{
    let task: TaskControlBlock = kernel.current.unwrap();
    assert(kernel.has_process(task.pid as int));
    let memory: MemorySet = match &kernel.processes[task.pid] {
        Some(process) => process.memory.duplicate(),
        None => MemorySet::new(0),
    };
    let child: usize = kernel.add_process(Some(task.pid), memory);
    child as isize
}

/// Replaces the address space of the process of the running task by
/// `image`, the address space that the loader built from the program file.
/// Returns 0, or -1 with nothing changed when there is no image because the
/// file is missing.
pub fn sys_exec(kernel: &mut Kernel, image: Option<MemorySet>) -> (r: isize)
    requires
        old(kernel).wf(),
        old(kernel).current is Some,
        image matches Some(memory) ==> memory.wf(),
    ensures
        final(kernel).wf(),
        image is None ==> r == -1 && *final(kernel) == *old(kernel),
        image matches Some(memory) ==> {
            &&& r == 0
            &&& old(kernel).only_cur_process_changed(final(kernel))
            &&& final(kernel).cur_process() == (ProcessControlBlock {
                memory,
                ..old(kernel).cur_process()
            })
        },
        old(kernel).settled() ==> final(kernel).settled(),
{
    match image {
        None => -1,
        Some(memory) => {
            let task: TaskControlBlock = kernel.current.unwrap();
            let pid: usize = task.pid;
            match &mut kernel.processes[pid] {
                Some(process) => {
                    process.memory = memory;
                },
                None => {},
            }
            proof {
                let before = old(kernel).cur_process();
                let after = kernel.cur_process();
                before.lemma_wf_objects(&after, -1, -1, -1);
                old(kernel).lemma_cur_process_changed(kernel);
                if each_in_place(*old(kernel)) {
                    assert(old(kernel).live(task));
                    lemma_plain_change_in_place(*old(kernel), *kernel);
                }
                if status_in_place(*old(kernel)) {
                    assert(old(kernel).live(task));
                    lemma_quiet_change_status(*old(kernel), *kernel);
                }
            }
            0
        },
    }
}

/// Creates a child of the process of the running task that runs the program
/// with address space `image`; see [`Kernel::did_add_process`]. Returns the
/// id of the child, or -1 with nothing changed when there is no image
/// because the file is missing.
pub fn sys_spawn(kernel: &mut Kernel, image: Option<MemorySet>) -> (pid: isize)
    requires
        old(kernel).wf(),
        old(kernel).current is Some,
        old(kernel).processes@.len() < isize::MAX,
        image matches Some(memory) ==> memory.wf(),
    ensures
        final(kernel).wf(),
        image is None ==> pid == -1 && *final(kernel) == *old(kernel),
        image matches Some(memory) ==> pid == crate::slots::first_free(old(kernel).processes@)
            && old(kernel).did_add_process(
            final(kernel),
            Some(old(kernel).current->0.pid),
            memory,
        ),
        old(kernel).settled() ==> final(kernel).settled(),
{
    match image {
        None => -1,
        Some(memory) => {
            let task: TaskControlBlock = kernel.current.unwrap();
            assert(kernel.has_process(task.pid as int));
            let child: usize = kernel.add_process(Some(task.pid), memory);
            child as isize
        },
    }
}

/// Sets the priority of the running task to `prio` and returns it, or
/// returns -1 with nothing changed when `prio` is below 2.
pub fn sys_set_priority(kernel: &mut Kernel, prio: isize) -> (r: isize)
    requires
        old(kernel).wf(),
        old(kernel).current is Some,
    ensures
        final(kernel).wf(),
        prio >= 2 ==> r == prio && *final(kernel) == (Kernel {
            current: Some(TaskControlBlock { priority: prio as usize, ..old(kernel).current->0 }),
            ..*old(kernel)
        }),
        prio < 2 ==> r == -1 && *final(kernel) == *old(kernel),
        old(kernel).settled() ==> final(kernel).settled(),
{
    if prio >= 2 {
        let mut task: TaskControlBlock = kernel.current.unwrap();
        task.priority = prio as usize;
        kernel.current = Some(task);
        proof {
            old(kernel).lemma_same_processes(kernel);
            assert(old(kernel).live(old(kernel).current->0));
            if each_in_place(*old(kernel)) {
                lemma_set_priority_in_place(*old(kernel), *kernel, prio as usize);
            }
            if status_in_place(*old(kernel)) {
                lemma_set_priority_status(*old(kernel), *kernel, prio as usize);
            }
        }
        prio
    } else {
        -1
    }
}

/// The permission bits of a mapping made with protection `prot`: read,
/// write and execute as `prot` names them in its bits 0 to 2, and user.
pub open spec fn map_permission(prot: usize) -> u8 {
    (2 * prot + 16) as u8
}

/// The page range that a valid request to map `len` bytes at `start` asks
/// for, or `None` when the request is turned down as it stands: `prot` has
/// none of its bits 0 to 2 set or a bit beyond them, `start` is not at a page
/// boundary, or the range runs past the end of the address space.
pub open spec fn mmap_range(start: usize, len: usize, prot: usize) -> Option<(int, int)> {
    if prot == 0 || prot > 7 || start % PAGE_SIZE != 0 || start + len > usize::MAX {
        None
    } else {
        Some((page_floor(start as int), page_ceil(start + len)))
    }
}

/// Maps `len` bytes at `start` into the address space of the process of the
/// running task, with the permissions that `prot` names.
///
/// Returns -1, with nothing changed, when [`mmap_range`] turns the request
/// down or when a page of the range is mapped already. Returns 0 otherwise:
/// with `len` zero nothing is mapped, else the pages of the range become one
/// new area behind the others.
pub fn sys_mmap(kernel: &mut Kernel, start: usize, len: usize, prot: usize) -> (r: isize)
    requires
        old(kernel).wf(),
        old(kernel).current is Some,
    ensures
        final(kernel).wf(),
        match mmap_range(start, len, prot) {
            None => r == -1 && *final(kernel) == *old(kernel),
            Some((first, last)) => if len == 0 {
                r == 0 && *final(kernel) == *old(kernel)
            } else if old(kernel).cur_process().memory.overlaps(first, last) {
                r == -1 && *final(kernel) == *old(kernel)
            } else {
                &&& r == 0
                &&& old(kernel).only_cur_process_changed(final(kernel))
                &&& final(kernel).cur_process() == (ProcessControlBlock {
                    memory: final(kernel).cur_process().memory,
                    ..old(kernel).cur_process()
                })
                &&& final(kernel).cur_process().memory.heap_bottom == old(
                    kernel,
                ).cur_process().memory.heap_bottom
                &&& final(kernel).cur_process().memory.program_brk == old(
                    kernel,
                ).cur_process().memory.program_brk
                &&& final(kernel).cur_process().memory.areas@ == old(
                    kernel,
                ).cur_process().memory.areas@.push(
                    MapArea {
                        start_vpn: first as usize,
                        end_vpn: last as usize,
                        perm: map_permission(prot),
                    },
                )
            },
        },
        old(kernel).settled() ==> final(kernel).settled(),
{
    if prot == 0 || prot > 7 {
        return -1;
    }
    if start % PAGE_SIZE != 0 {
        return -1;
    }
    if len > usize::MAX - start {
        return -1;
    }
    if len == 0 {
        return 0;
    }
    let end: usize = start + len;
    let first: usize = start / PAGE_SIZE;
    let last: usize = end / PAGE_SIZE + (if end % PAGE_SIZE != 0 {
        1
    } else {
        0
    });
    assert(last == page_ceil(end as int)) by (nonlinear_arith)
        requires
            last == end / 4096 + (if end % 4096 != 0 { 1int } else { 0int }),
            PAGE_SIZE == 4096,
            end >= 0,
    ;
    let perm: u8 = (2 * prot + 16) as u8;
    let task: TaskControlBlock = kernel.current.unwrap();
    let pid: usize = task.pid;
    let taken: bool = match &kernel.processes[pid] {
        Some(process) => process.memory.is_mapped(first, last),
        None => true,
    };
    if taken {
        return -1;
    }
    match &mut kernel.processes[pid] {
        Some(process) => {
            process.memory.insert_framed_area(first, last, perm);
        },
        None => {},
    }
    proof {
        let before = old(kernel).cur_process();
        let after = kernel.cur_process();
        before.lemma_wf_objects(&after, -1, -1, -1);
        old(kernel).lemma_cur_process_changed(kernel);
        if each_in_place(*old(kernel)) {
            assert(old(kernel).live(task));
            lemma_plain_change_in_place(*old(kernel), *kernel);
        }
        if status_in_place(*old(kernel)) {
            assert(old(kernel).live(task));
            lemma_quiet_change_status(*old(kernel), *kernel);
        }
    }
    0
}

/// The page range that a request to unmap `len` bytes at `start` names, or
/// `None` when the range runs past the end of the address space.
pub open spec fn munmap_range(start: usize, len: usize) -> Option<(int, int)> {
    if start + len > usize::MAX {
        None
    } else {
        Some((page_floor(start as int), page_ceil(start + len)))
    }
}

/// Unmaps `len` bytes at `start` from the address space of the process of
/// the running task. Returns 0 when an area is exactly the page range of the
/// request; the first such area is removed. Returns -1, with nothing
/// changed, when there is none.
pub fn sys_munmap(kernel: &mut Kernel, start: usize, len: usize) -> (r: isize)
    requires
        old(kernel).wf(),
        old(kernel).current is Some,
    ensures
        final(kernel).wf(),
        match munmap_range(start, len) {
            None => r == -1 && *final(kernel) == *old(kernel),
            Some((first, last)) => if old(kernel).cur_process().memory.has_area(first, last) {
                &&& r == 0
                &&& old(kernel).only_cur_process_changed(final(kernel))
                &&& final(kernel).cur_process() == (ProcessControlBlock {
                    memory: final(kernel).cur_process().memory,
                    ..old(kernel).cur_process()
                })
                &&& final(kernel).cur_process().memory.heap_bottom == old(
                    kernel,
                ).cur_process().memory.heap_bottom
                &&& final(kernel).cur_process().memory.program_brk == old(
                    kernel,
                ).cur_process().memory.program_brk
                &&& final(kernel).cur_process().memory.areas@ == old(
                    kernel,
                ).cur_process().memory.areas@.remove(
                    crate::mm::first_spanning(
                        old(kernel).cur_process().memory.areas@,
                        first,
                        last,
                    ),
                )
            } else {
                r == -1 && *final(kernel) == *old(kernel)
            },
        },
        old(kernel).settled() ==> final(kernel).settled(),
{
    if len > usize::MAX - start {
        return -1;
    }
    let end: usize = start + len;
    let first: usize = start / PAGE_SIZE;
    let last: usize = end / PAGE_SIZE + (if end % PAGE_SIZE != 0 {
        1
    } else {
        0
    });
    assert(last == page_ceil(end as int)) by (nonlinear_arith)
        requires
            last == end / 4096 + (if end % 4096 != 0 { 1int } else { 0int }),
            PAGE_SIZE == 4096,
            end >= 0,
    ;
    let task: TaskControlBlock = kernel.current.unwrap();
    let pid: usize = task.pid;
    let found: bool = match &kernel.processes[pid] {
        Some(process) => process.memory.contains_area(first, last),
        None => false,
    };
    if !found {
        return -1;
    }
    match &mut kernel.processes[pid] {
        Some(process) => {
            process.memory.remove_area(first, last);
        },
        None => {},
    }
    proof {
        let before = old(kernel).cur_process();
        let after = kernel.cur_process();
        before.lemma_wf_objects(&after, -1, -1, -1);
        old(kernel).lemma_cur_process_changed(kernel);
        if each_in_place(*old(kernel)) {
            assert(old(kernel).live(task));
            lemma_plain_change_in_place(*old(kernel), *kernel);
        }
        if status_in_place(*old(kernel)) {
            assert(old(kernel).live(task));
            lemma_quiet_change_status(*old(kernel), *kernel);
        }
    }
    0
}

/// Moves the program break of the process of the running task by `size`
/// bytes and returns the old break. Returns -1, with nothing changed, when
/// the new break would fall below the bottom of the heap or would not fit a
/// signed word.
pub fn sys_sbrk(kernel: &mut Kernel, size: i32) -> (r: isize)
    requires
        old(kernel).wf(),
        old(kernel).current is Some,
    ensures
        final(kernel).wf(),
        if old(kernel).cur_process().memory.heap_bottom <= old(
            kernel,
        ).cur_process().memory.program_brk + size <= isize::MAX {
            &&& r == old(kernel).cur_process().memory.program_brk
            &&& old(kernel).only_cur_process_changed(final(kernel))
            &&& final(kernel).cur_process() == (ProcessControlBlock {
                memory: final(kernel).cur_process().memory,
                ..old(kernel).cur_process()
            })
            &&& final(kernel).cur_process().memory.areas == old(kernel).cur_process().memory.areas
            &&& final(kernel).cur_process().memory.heap_bottom == old(
                kernel,
            ).cur_process().memory.heap_bottom
            &&& final(kernel).cur_process().memory.program_brk == old(
                kernel,
            ).cur_process().memory.program_brk + size
        } else {
            r == -1 && *final(kernel) == *old(kernel)
        },
        old(kernel).settled() ==> final(kernel).settled(),
{
    let task: TaskControlBlock = kernel.current.unwrap();
    let pid: usize = task.pid;
    assert(kernel.has_process(pid as int));
    let fits: bool = match &kernel.processes[pid] {
        Some(process) => process.memory.can_move_brk(size),
        None => false,
    };
    if !fits {
        return -1;
    }
    let moved: Option<usize> = match &mut kernel.processes[pid] {
        Some(process) => process.memory.change_program_brk(size),
        None => None,
    };
    proof {
        let before = old(kernel).cur_process();
        let after = kernel.cur_process();
        before.lemma_wf_objects(&after, -1, -1, -1);
        old(kernel).lemma_cur_process_changed(kernel);
        if each_in_place(*old(kernel)) {
            assert(old(kernel).live(task));
            lemma_plain_change_in_place(*old(kernel), *kernel);
        }
        if status_in_place(*old(kernel)) {
            assert(old(kernel).live(task));
            lemma_quiet_change_status(*old(kernel), *kernel);
        }
    }
    match moved {
        Some(old_brk) => old_brk as isize,
        None => -1,
    }
}

/// A wait for `pid` accepts the child `child`: `pid` is -1, which accepts
/// every child, or it is the id of the child.
pub open spec fn child_matches(pid: isize, child: usize) -> bool {
    pid == -1 || pid == child as int
}

/// The process of the running task has a child that a wait for `pid`
/// accepts.
pub open spec fn has_matching_child(kernel: &Kernel, pid: isize) -> bool {
    exists|i: int|
        0 <= i < kernel.cur_process().children@.len() && child_matches(
            pid,
            #[trigger] kernel.cur_process().children@[i],
        )
}

/// Child number `i` of the process of the running task is accepted by a
/// wait for `pid` and is a zombie.
pub open spec fn is_reapable(kernel: &Kernel, pid: isize, i: int) -> bool {
    &&& 0 <= i < kernel.cur_process().children@.len()
    &&& child_matches(pid, kernel.cur_process().children@[i])
    &&& kernel.process(kernel.cur_process().children@[i] as int).is_zombie
}

/// Child number `i` is the first that a wait for `pid` can reap.
pub open spec fn is_first_reapable(kernel: &Kernel, pid: isize, i: int) -> bool {
    &&& is_reapable(kernel, pid, i)
    &&& forall|j: int| 0 <= j < i ==> !is_reapable(kernel, pid, j)
}

/// Position, in the list of children, of the child that a wait for `pid`
/// reaps.
pub open spec fn first_reapable(kernel: &Kernel, pid: isize) -> int {
    choose|i: int| is_first_reapable(kernel, pid, i)
}

/// `new` is `kernel` after child number `i` of the process of the running
/// task was reaped: the child has left the list of children and its slot in
/// the process table is free.
pub open spec fn did_reap(kernel: &Kernel, new: &Kernel, i: int) -> bool {
    let parent = kernel.current->0.pid as int;
    let child = kernel.cur_process().children@[i] as int;
    &&& *new == (Kernel { processes: new.processes, ..*kernel })
    &&& new.processes@.len() == kernel.processes@.len()
    &&& new.processes@[child] is None
    &&& new.has_process(parent)
    &&& new.process(parent) == (ProcessControlBlock {
        children: new.process(parent).children,
        ..kernel.process(parent)
    })
    &&& new.process(parent).children@ == kernel.process(parent).children@.remove(i)
    &&& forall|k: int|
        0 <= k < kernel.processes@.len() && k != parent && k != child ==> new.processes@[k]
            == kernel.processes@[k]
}

/// Reaps a child of the process of the running task.
///
/// Returns -1 when no child is accepted, that is, when `pid` is neither -1
/// nor the id of a child. Returns -2 when a child is accepted but none of
/// the accepted children is a zombie yet. In both cases nothing changes.
/// Otherwise the first accepted zombie in the list of children is reaped:
/// its exit code is written to `exit_code`, it leaves the list and the
/// process table, and its id is returned.
pub fn sys_waitpid(kernel: &mut Kernel, pid: isize, exit_code: &mut i32) -> (r: isize)
    requires
        old(kernel).wf(),
        old(kernel).current is Some,
    ensures
        final(kernel).wf(),
        if !has_matching_child(old(kernel), pid) {
            r == -1 && *final(kernel) == *old(kernel) && *final(exit_code) == *old(exit_code)
        } else if !exists|i: int| is_reapable(old(kernel), pid, i) {
            r == -2 && *final(kernel) == *old(kernel) && *final(exit_code) == *old(exit_code)
        } else {
            let i = first_reapable(old(kernel), pid);
            &&& is_first_reapable(old(kernel), pid, i)
            &&& r == old(kernel).cur_process().children@[i]
            &&& *final(exit_code) == old(kernel).process(r as int).exit_code
            &&& did_reap(old(kernel), final(kernel), i)
        },
        old(kernel).settled() ==> final(kernel).settled(),
{
    let task: TaskControlBlock = kernel.current.unwrap();
    let parent: usize = task.pid;
    assert(kernel.has_process(parent as int));
    assert(kernel.family_ok(parent as int));
    let count: usize = match &kernel.processes[parent] {
        Some(process) => process.children.len(),
        None => 0,
    };
    let mut accepted: bool = false;
    let mut i: usize = 0;
    while i < count
        invariant
            kernel.current == Some(task),
            parent == task.pid,
            kernel.has_process(parent as int),
            count == kernel.cur_process().children@.len(),
            i <= count,
            accepted == exists|j: int|
                0 <= j < i && child_matches(pid, #[trigger] kernel.cur_process().children@[j]),
        decreases count - i,
    {
        let child: usize = match &kernel.processes[parent] {
            Some(process) => process.children[i],
            None => 0,
        };
        if pid == -1 || (pid >= 0 && pid as usize == child) {
            accepted = true;
        }
        i = i + 1;
    }
    if !accepted {
        return -1;
    }
    let mut found: Option<usize> = None;
    let mut i: usize = 0;
    while i < count
        invariant_except_break
            found is None,
            forall|j: int| 0 <= j < i ==> !is_reapable(kernel, pid, j),
        invariant
            kernel.wf(),
            kernel.current == Some(task),
            parent == task.pid,
            kernel.has_process(parent as int),
            kernel.family_ok(parent as int),
            count == kernel.cur_process().children@.len(),
            i <= count,
        ensures
            found is None ==> forall|j: int| 0 <= j < count ==> !is_reapable(kernel, pid, j),
            found matches Some(at) ==> is_first_reapable(kernel, pid, at as int),
        decreases count - i,
    {
        let child: usize = match &kernel.processes[parent] {
            Some(process) => process.children[i],
            None => 0,
        };
        assert(kernel.has_process(child as int));
        if pid == -1 || (pid >= 0 && pid as usize == child) {
            let zombie: bool = match &kernel.processes[child] {
                Some(process) => process.is_zombie,
                None => false,
            };
            if zombie {
                found = Some(i);
                break;
            }
        }
        i = i + 1;
    }
    match found {
        None => {
            proof {
                assert(has_matching_child(kernel, pid));
                assert(!exists|j: int| is_reapable(kernel, pid, j));
            }
            -2
        },
        Some(at) => {
            proof {
                assert(is_reapable(kernel, pid, at as int));
                assert(child_matches(pid, kernel.cur_process().children@[at as int]));
                let first = first_reapable(kernel, pid);
                assert(is_first_reapable(kernel, pid, first));
                if first < at {
                    assert(!is_reapable(kernel, pid, first));
                } else if at < first {
                    assert(!is_reapable(kernel, pid, at as int));
                }
            }
            let child: usize = match &mut kernel.processes[parent] {
                Some(process) => process.children.remove(at),
                None => 0,
            };
            let ghost first = *kernel;
            let reaped: Option<ProcessControlBlock> = kernel.processes[child].take();
            match reaped {
                Some(process) => {
                    *exit_code = process.exit_code;
                },
                None => {},
            }
            proof {
                let before = old(kernel).process(parent as int);
                let after = kernel.process(parent as int);
                assert(child != parent) by {
                    assert(old(kernel).live(task));
                }
                assert(after == first.process(parent as int));
                before.lemma_wf_objects(&after, -1, -1, -1);
                assert forall|k: int| #[trigger] kernel.has_process(k) implies kernel.process(k).pid
                    == k && kernel.process(k).wf() && kernel.family_ok(k) by {
                    assert(old(kernel).has_process(k));
                    assert(old(kernel).family_ok(k));
                    let children = kernel.process(k).children@;
                    let formerly = old(kernel).process(k).children@;
                    assert forall|n: int| 0 <= n < children.len() implies kernel.has_process(
                        #[trigger] children[n] as int,
                    ) && kernel.process(children[n] as int).parent == Some(k as usize) by {
                        if k == parent {
                            let m = if n < at { n } else { n + 1 };
                            assert(children[n] == formerly[m]);
                            assert(old(kernel).has_process(formerly[m] as int));
                            assert(formerly[m] != formerly[at as int]);
                        } else {
                            assert(children[n] == formerly[n]);
                            assert(old(kernel).has_process(formerly[n] as int));
                            if formerly[n] == child {
                                assert(old(kernel).process(child as int).parent == Some(k as usize));
                                assert(old(kernel).process(child as int).parent == Some(parent));
                            }
                        }
                    }
                    if k == parent {
                        assert forall|n: int, m: int|
                            0 <= n < m < children.len() implies #[trigger] children[n]
                            != #[trigger] children[m] by {
                            let n0 = if n < at { n } else { n + 1 };
                            let m0 = if m < at { m } else { m + 1 };
                            assert(children[n] == formerly[n0]);
                            assert(children[m] == formerly[m0]);
                        }
                    }
                }
                assert forall|other: TaskControlBlock| old(kernel).live(other) implies #[trigger] kernel.live(
                    other,
                ) by {
                    assert(old(kernel).has_process(other.pid as int));
                }
                assert forall|n: int| 0 <= n < kernel.manager@.len() implies kernel.live(
                    #[trigger] kernel.manager@[n],
                ) by {
                    assert(old(kernel).live(old(kernel).manager@[n]));
                }
                let sleepers = crate::kernel::timer_tasks(kernel.timers@);
                assert forall|n: int| 0 <= n < sleepers.len() implies kernel.live(
                    #[trigger] sleepers[n],
                ) by {
                    assert(old(kernel).live(crate::kernel::timer_tasks(old(kernel).timers@)[n]));
                }
                if each_in_place(*old(kernel)) {
                    lemma_reap_in_place(*old(kernel), *kernel, at as int);
                }
                if status_in_place(*old(kernel)) {
                    lemma_reap_status(*old(kernel), *kernel, at as int);
                }
            }
            child as isize
        },
    }
}

} // verus!

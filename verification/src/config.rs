//! Constants of the kernel core.

use vstd::prelude::*;

verus! {

/// Stride budget shared by all tasks: a dispatch advances the task's stride
/// by `BIG_STRIDE / priority`.
pub const BIG_STRIDE: usize = 65536;

/// The smallest priority a task may have.
pub const MIN_PRIORITY: usize = 2;

/// Priority of a freshly created task.
pub const DEFAULT_PRIORITY: usize = 16;

/// The largest stride advance of a single dispatch, `BIG_STRIDE / MIN_PRIORITY`.
pub const MAX_PASS: usize = 32768;

/// Number of counters in the per-task system-call table.
pub const MAX_SYSCALL_NUM: usize = 500;

/// Size of a page of the user address space, in bytes.
pub const PAGE_SIZE: usize = 4096;

/// Result of a synchronisation call that the deadlock detector rejected.
pub const DEADLOCK: isize = -0xDEAD;

} // verus!

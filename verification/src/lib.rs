//! A single-core, cooperative kernel core: a stride scheduler, blocking and
//! spinning mutexes, counting semaphores, condition variables and a
//! resource-allocation deadlock detector, driven through a system-call layer.
//!
//! The whole kernel state is one owned [`kernel::Kernel`] value that every
//! operation borrows. A blocking operation moves the calling task out of the
//! processor into a wait queue and dispatches the next ready task; the value
//! it returns is the one the caller observes once it runs again.
//!
//! What the code promises beyond the contracts of its functions is proved in
//! lemmas next to it: conservation of semaphore units
//! ([`sync::semaphore::lemma_semaphore_conservation`]), mutual exclusion and
//! FIFO hand-off of the blocking mutex
//! ([`sync::mutex::lemma_blocking_mutex_exclusive_fifo`]), proportional
//! fairness of the stride policy ([`task::fairness::lemma_stride_fairness`]),
//! the agreement of the deadlock detector with safe sequences
//! ([`deadlock::lemma_safe_sequence_is_safe`],
//! [`deadlock::lemma_safe_has_sequence`]), that every task is at exactly one
//! place ([`placement`]), and that every handle carries the status of its
//! place ([`status`]).

pub mod config;
pub mod deadlock;
pub mod kernel;
pub mod mm;
pub mod placement;
pub mod process;
pub mod slots;
pub mod status;
pub mod sync;
pub mod syscall;
pub mod task;

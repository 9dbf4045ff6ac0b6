//! Synchronisation primitives: mutexes, semaphores and condition variables.
//!
//! A primitive never switches tasks itself. An operation that has to wait
//! parks the caller's handle in the primitive's wait queue and says so in its
//! result; an operation that releases hands the woken handle back. The kernel
//! does the descheduling and the wake-up.

pub mod condvar;
pub mod mutex;
pub mod semaphore;

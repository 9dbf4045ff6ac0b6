//! The system calls. Each one acts on behalf of the running task and returns
//! the value that the task sees when it goes on; for a call that blocks,
//! that is after a later wake-up.

pub mod process;
pub mod sync;

//! The request payloads of the to-do routes, as plain values. The HTTP
//! handlers themselves live outside the library, at the I/O edge; they hand
//! these values in and take the library's results back.

use vstd::prelude::*;

pub mod auth;

verus! {

/// The form payload for creating a task.
pub struct AddTaskQuery {
    pub task: String,
}

/// The form payload for toggling or deleting a task: the task id and the
/// client-reported current `completed` state.
pub struct CheckedQuery {
    pub id: u128,
    pub completed: bool,
}

/// A task's completion state on its own.
pub struct TaskInfo {
    pub completed: bool,
}

} // verus!

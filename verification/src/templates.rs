//! The data each page or fragment is rendered from. Rendering itself is
//! outside the library; these types only carry the values.

use vstd::prelude::*;

verus! {

/// The task-list page: every task of the signed-in user.
pub struct Tasks {
    pub tasks: Vec<crate::Task>,
}

/// The login page.
pub struct Login {}

/// A single-task fragment.
pub struct Task {
    pub task: crate::Task,
}

/// A task-list fragment.
pub struct List {
    pub tasks: Vec<crate::Task>,
}

} // verus!

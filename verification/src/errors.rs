use vstd::prelude::*;

use crate::status::TaskStatus;
use crate::TID;

verus! {

/// The ways an operation on a task tree can fail.
///
/// Every error carries the offending ids or text, so the caller can render
/// a message; the tree itself formats no user-facing prose.
#[derive(Debug, PartialEq, Eq)]
pub enum TreeError {
    /// No task with this id exists in the tree.
    NotFound(TID),
    /// A task cannot depend on itself.
    SelfReference(TID),
    /// The first task already depends on the second.
    DuplicateEdge(TID, TID),
    /// Making the first task depend on the second would close a directed
    /// cycle, because the second already reaches the first.
    CycleWouldForm(TID, TID),
    /// The first task does not depend on the second.
    NoSuchEdge(TID, TID),
    /// The given text names none of the three statuses.
    InvalidStatusName(String),
    /// The task cannot leave `Open` for the given status while a direct
    /// dependency is not yet `Closed`.
    BlockedByOpenChildren(TID, TaskStatus),
}

} // verus!

//! A task tracker whose tasks form a dependency graph.
//!
//! Tasks are stored in a [`tree::TaskTree`]: a directed acyclic graph in
//! which an edge from task `a` to task `b` means that `a` depends on `b`
//! completing first.  The tree keeps two adjacency views (dependencies and
//! dependents) in lock-step, guards status changes behind the state of a
//! task's dependencies, and answers filtered traversal queries over the
//! graph.  Every operation is verified to preserve the tree's invariants:
//! the two adjacency views mirror each other, edges join existing tasks,
//! no task depends on itself, and the graph stays acyclic.

pub mod command;
pub mod errors;
pub mod graph;
pub mod status;
pub mod task;
pub mod text;
pub mod tree;

use vstd::prelude::*;

verus! {

/// A task identifier: assigned at creation, never reused, strictly
/// increasing over the lifetime of a tree.
pub type TID = u16;

} // verus!

use vstd::prelude::*;

use crate::errors::TreeError;
use crate::text::str_eq;
use vstd::string::StringExecFns;

verus! {

/// The three states a task can be in.
///
/// A task starts `Open`; the tree's status gate decides when it may move
/// to `InProgress` or `Closed` (see `TaskTree::set_status`).
#[derive(Debug, Copy, Clone, PartialEq, Eq, Structural)]
pub enum TaskStatus {
    Open,
    InProgress,
    Closed,
}

/// The status named by a piece of text: `"open"`, `"in-progress"` or
/// `"closed"`; any other text names none.
pub open spec fn status_of_name(s: Seq<char>) -> Option<TaskStatus> {
    if s == "open"@ {
        Some(TaskStatus::Open)
    } else if s == "in-progress"@ {
        Some(TaskStatus::InProgress)
    } else if s == "closed"@ {
        Some(TaskStatus::Closed)
    } else {
        None
    }
}

/// The canonical name of a status, as `status_of_name` reads it back.
pub open spec fn name_of_status(st: TaskStatus) -> Seq<char> {
    match st {
        TaskStatus::Open => "open"@,
        TaskStatus::InProgress => "in-progress"@,
        TaskStatus::Closed => "closed"@,
    }
}

/// The three-character glyph that marks a status inside a task's summary
/// line: `[O]`, `[I]` or `[C]`.
pub open spec fn glyph_of_status(st: TaskStatus) -> Seq<char> {
    match st {
        TaskStatus::Open => "[O]"@,
        TaskStatus::InProgress => "[I]"@,
        TaskStatus::Closed => "[C]"@,
    }
}

impl TaskStatus {
    /// Parses a status flag; unknown text is an `InvalidStatusName` error
    /// carrying the text itself.
    pub fn from_status_flag(status_flag: &str) -> (r: Result<TaskStatus, TreeError>)
        ensures
            r matches Ok(st) ==> status_of_name(status_flag@) == Some(st),
            r matches Err(e) ==> status_of_name(status_flag@) is None && (e matches
                TreeError::InvalidStatusName(t) && t@ == status_flag@),
    {
        if str_eq(status_flag, "open") {
            Ok(TaskStatus::Open)
        } else if str_eq(status_flag, "in-progress") {
            Ok(TaskStatus::InProgress)
        } else if str_eq(status_flag, "closed") {
            Ok(TaskStatus::Closed)
        } else {
            Err(TreeError::InvalidStatusName(String::from_str(status_flag)))
        }
    }

    /// Parses an optional status flag; `None` stays `None`.
    pub fn from_opt_status_flag(opt_status_flag: Option<String>) -> (r: Result<
        Option<TaskStatus>,
        TreeError,
    >)
        ensures
            opt_status_flag is None ==> (r matches Ok(o) && o is None),
            opt_status_flag matches Some(f) ==> (status_of_name(f@) matches Some(st) ==> r == Ok::<
                Option<TaskStatus>,
                TreeError,
            >(Some(st))),
            opt_status_flag matches Some(f) ==> (status_of_name(f@) is None ==> (r matches Err(e)
                && e matches TreeError::InvalidStatusName(t) && t@ == f@)),
    {
        match opt_status_flag {
            Some(status_flag) => {
                match Self::from_status_flag(status_flag.as_str()) {
                    Ok(status) => Ok(Some(status)),
                    Err(msg) => Err(msg),
                }
            },
            None => Ok(None),
        }
    }

    /// The status's canonical name.
    pub fn to_name(&self) -> (r: &'static str)
        ensures
            r@ == name_of_status(*self),
    {
        match self {
            Self::Open => "open",
            Self::InProgress => "in-progress",
            Self::Closed => "closed",
        }
    }

    /// The status's summary-line glyph.
    pub fn glyph(&self) -> (r: &'static str)
        ensures
            r@ == glyph_of_status(*self),
    {
        match self {
            Self::Open => "[O]",
            Self::InProgress => "[I]",
            Self::Closed => "[C]",
        }
    }
}

} // verus!

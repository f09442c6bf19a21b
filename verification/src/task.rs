use vstd::prelude::*;

use crate::status::{glyph_of_status, TaskStatus};
use crate::text::{padded5, u16_padded5};
use crate::TID;
use vstd::string::{StrSliceExecFns, StringExecFns};

verus! {

/// A task's fields as mathematical values.
pub ghost struct TaskView {
    pub id: TID,
    pub name: Seq<char>,
    pub desc: Option<Seq<char>>,
    pub created: Seq<char>,
    pub status: TaskStatus,
    pub repr: Seq<char>,
}

/// The summary line for a task: the status glyph, the id right-aligned
/// in a field of width five, then a colon and the name.
#[verifier::opaque]
pub open spec fn repr_spec(status: TaskStatus, id: TID, name: Seq<char>) -> Seq<char> {
    glyph_of_status(status) + " "@ + padded5(id as nat) + ": "@ + name
}

impl TaskView {
    /// The cached summary is the one derived from the current status, id
    /// and name.
    pub open spec fn wf(self) -> bool {
        self.repr == repr_spec(self.status, self.id, self.name)
    }
}

/// One unit of work: an id, a name, an optional description, a status,
/// an opaque creation timestamp, and a cached summary line kept in step
/// with the status.
#[derive(Debug)]
pub struct Task {
    pub created_timestamp: String,
    pub name: String,
    pub desc: Option<String>,
    pub id: TID,
    pub status: TaskStatus,
    pub repr: String,
}

impl View for Task {
    type V = TaskView;

    open spec fn view(&self) -> TaskView {
        TaskView {
            id: self.id,
            name: self.name@,
            desc: match self.desc {
                Some(d) => Some(d@),
                None => None,
            },
            created: self.created_timestamp@,
            status: self.status,
            repr: self.repr@,
        }
    }
}

/// Relies on chrono's `Utc::now` and `DateTime::format`: renders the
/// current UTC time in the form `"%m-%d-%Y %H:%M"`.  The result depends
/// on the clock, so nothing is promised of it; the tree stores it and
/// never recomputes it.  `Utc::now` panics on a system clock that reads
/// before the Unix epoch, a condition no argument can rule out.
#[verifier::external_body]
fn now_timestamp() -> String {
    chrono::Utc::now().format("%m-%d-%Y %H:%M").to_string()
}

impl Task {
    /// Creates an `Open` task stamped with the current time, its summary
    /// line already computed.
    pub fn new(id: TID, name: String, desc: Option<String>) -> (r: Task)
        ensures
            r@.id == id,
            r@.name == name@,
            r@.desc == (match desc {
                Some(d) => Some(d@),
                None => None::<Seq<char>>,
            }),
            r@.status == TaskStatus::Open,
            r@.wf(),
    {
        let status = TaskStatus::Open;
        let cur_time = now_timestamp();

        let mut new_task = Task {
            created_timestamp: cur_time,
            id,
            repr: String::new(),
            desc,
            name,
            status,
        };
        new_task.update_repr();
        new_task
    }

    pub fn get_id(&self) -> (r: &TID)
        ensures
            *r == self@.id,
    {
        &self.id
    }

    pub fn get_name(&self) -> (r: &str)
        ensures
            r@ == self@.name,
    {
        self.name.as_str()
    }

    pub fn get_desc(&self) -> (r: Option<&str>)
        ensures
            r matches Some(d) ==> self@.desc == Some(d@),
            r is None <==> self@.desc is None,
    {
        match &self.desc {
            Some(description) => Some(description.as_str()),
            None => None,
        }
    }

    pub fn get_created_timestamp(&self) -> (r: &str)
        ensures
            r@ == self@.created,
    {
        self.created_timestamp.as_str()
    }

    pub fn get_status(&self) -> (r: &TaskStatus)
        ensures
            *r == self@.status,
    {
        &self.status
    }

    pub fn get_repr(&self) -> (r: &String)
        ensures
            r@ == self@.repr,
    {
        &self.repr
    }

    /// Moves the task to `new_status` and recomputes the summary line.
    /// The tree's status gate decides when this may be called; the task
    /// itself accepts any move.
    pub fn set_status(&mut self, new_status: TaskStatus)
        ensures
            final(self)@ == (TaskView {
                status: new_status,
                repr: repr_spec(new_status, old(self)@.id, old(self)@.name),
                ..old(self)@
            }),
            final(self)@.wf(),
    {
        self.status = new_status;
        self.update_repr();
    }

    /// Recomputes the cached summary line from the current fields; the
    /// single place where `repr` is written.
    fn update_repr(&mut self)
        ensures
            final(self)@ == (TaskView { repr: repr_spec(old(self)@.status, old(self)@.id, old(self)@.name), ..old(self)@ }),
    {
        let mut s = String::from_str(self.status.glyph());
        s.append(" ");
        let pad = u16_padded5(self.id);
        s.append(pad.as_str());
        s.append(": ");
        s.append(self.name.as_str());
        self.repr = s;
        proof {
            reveal(repr_spec);
        }
    }
}

} // verus!

use vstd::prelude::*;

use crate::text::{str_eq, parse_u16, u16_of_text};
use crate::TID;
use vstd::string::{StrSliceExecFns, StringExecFns};

verus! {

/// The one-line usage text printed when no action is given.
pub const GENERAL_USAGE: &'static str = "usage: tasktree action [args...]";

/// An action the user asks for on the command line.
#[derive(Debug, PartialEq, Eq, Structural, Copy, Clone)]
pub enum Action {
    NewProject,
    RemoveProject,
    ListProjects,
    ViewProject,
    SwitchProject,
    NewTask,
    RemoveTask,
    ViewTasks,
    FindTasks,
    ViewTask,
    SetStatus,
    AddDep,
    AddDepBtwn,
    RemoveDep,
    ViewDeps,
}

/// The action named by a command-line word; unknown words name none.
pub open spec fn action_of_word(s: Seq<char>) -> Option<Action> {
    if s == "new-project"@ {
        Some(Action::NewProject)
    } else if s == "rm-project"@ {
        Some(Action::RemoveProject)
    } else if s == "list-projects"@ {
        Some(Action::ListProjects)
    } else if s == "view-project"@ {
        Some(Action::ViewProject)
    } else if s == "switch"@ {
        Some(Action::SwitchProject)
    } else if s == "new"@ {
        Some(Action::NewTask)
    } else if s == "rm"@ {
        Some(Action::RemoveTask)
    } else if s == "view"@ {
        Some(Action::ViewTasks)
    } else if s == "find"@ {
        Some(Action::FindTasks)
    } else if s == "view-task"@ {
        Some(Action::ViewTask)
    } else if s == "set"@ {
        Some(Action::SetStatus)
    } else if s == "add-dep"@ {
        Some(Action::AddDep)
    } else if s == "add-dep-btwn"@ {
        Some(Action::AddDepBtwn)
    } else if s == "rm-dep"@ {
        Some(Action::RemoveDep)
    } else if s == "view-deps"@ {
        Some(Action::ViewDeps)
    } else {
        None
    }
}

impl Action {
    /// Parses the action word of a command line.
    pub fn from_cmdline_arg(arg: &str) -> (r: Result<Action, String>)
        ensures
            action_of_word(arg@) matches Some(a) ==> r == Ok::<Action, String>(a),
            action_of_word(arg@) is None ==> (r matches Err(m) && m@ == "no action \""@ + arg@
                + "\""@),
    {
        if str_eq(arg, "new-project") {
            Ok(Self::NewProject)
        } else if str_eq(arg, "rm-project") {
            Ok(Self::RemoveProject)
        } else if str_eq(arg, "list-projects") {
            Ok(Self::ListProjects)
        } else if str_eq(arg, "view-project") {
            Ok(Self::ViewProject)
        } else if str_eq(arg, "switch") {
            Ok(Self::SwitchProject)
        } else if str_eq(arg, "new") {
            Ok(Self::NewTask)
        } else if str_eq(arg, "rm") {
            Ok(Self::RemoveTask)
        } else if str_eq(arg, "view") {
            Ok(Self::ViewTasks)
        } else if str_eq(arg, "find") {
            Ok(Self::FindTasks)
        } else if str_eq(arg, "view-task") {
            Ok(Self::ViewTask)
        } else if str_eq(arg, "set") {
            Ok(Self::SetStatus)
        } else if str_eq(arg, "add-dep") {
            Ok(Self::AddDep)
        } else if str_eq(arg, "add-dep-btwn") {
            Ok(Self::AddDepBtwn)
        } else if str_eq(arg, "rm-dep") {
            Ok(Self::RemoveDep)
        } else if str_eq(arg, "view-deps") {
            Ok(Self::ViewDeps)
        } else {
            Err(String::from_str("no action \"").concat(arg).concat("\""))
        }
    }
}

/// A parsed command line: the action and the arguments after it.
#[derive(Debug)]
pub struct Command {
    action: Action,
    args: Vec<String>,
}

impl Command {
    /// The command's action.
    pub closed spec fn spec_action(self) -> Action {
        self.action
    }

    /// The command's arguments, in order.
    pub closed spec fn spec_args(self) -> Seq<String> {
        self.args@
    }

    /// Parses a command line: the first word names the action, the rest
    /// are its arguments.  An empty line gets the usage text, an
    /// unknown action word an error naming it.
    pub fn from_args(args: Vec<String>) -> (r: Result<Command, String>)
        ensures
            args@.len() == 0 ==> (r matches Err(m) && m@ == GENERAL_USAGE@),
            args@.len() >= 1 ==> (action_of_word(args@[0]@) matches Some(a) ==> (r matches Ok(c)
                && c.spec_action() == a && c.spec_args() == args@.subrange(
                1,
                args@.len() as int,
            ))),
            args@.len() >= 1 ==> (action_of_word(args@[0]@) is None ==> (r matches Err(m) && m@
                == "no action \""@ + args@[0]@ + "\""@)),
    {
        if args.len() < 1 {
            return Err(String::from_str(GENERAL_USAGE));
        }
        let action = match Action::from_cmdline_arg(args[0].as_str()) {
            Ok(a) => a,
            Err(m) => {
                return Err(m);
            },
        };
        let n = args.len();
        let mut command_args: Vec<String> = Vec::new();
        let mut i: usize = 1;
        while i < n
            invariant
                1 <= i <= n,
                n == args@.len(),
                command_args@ == args@.subrange(1, i as int),
            decreases n - i,
        {
            command_args.push(args[i].clone());
            proof {
                assert(command_args@ =~= args@.subrange(1, i + 1));
            }
            i = i + 1;
        }
        Ok(Command { action, args: command_args })
    }

    /// The command's action, for a caller that dispatches on it.
    pub fn action(&self) -> (r: &Action)
        ensures
            *r == self.spec_action(),
    {
        &self.action
    }

    /// The command's arguments, for a caller that reads them out.
    pub fn args(&self) -> (r: &Vec<String>)
        ensures
            r@ == self.spec_args(),
    {
        &self.args
    }

    /// Checks that at least `args_len` arguments were given; fails with
    /// the given usage text otherwise.
    pub fn check_args_len(&self, args_len: usize, usage: &str) -> (r: Result<(), String>)
        ensures
            r is Ok <==> self.spec_args().len() >= args_len,
            r matches Err(m) ==> m@ == usage@,
    {
        if self.args.len() >= args_len {
            Ok(())
        } else {
            Err(String::from_str(usage))
        }
    }

    /// The argument at `idx`, if one was given.
    pub fn parse_optional_argument(&self, idx: usize) -> (r: Option<String>)
        ensures
            idx + 1 > self.spec_args().len() ==> r is None,
            idx + 1 <= self.spec_args().len() ==> r == Some(self.spec_args()[idx as int]),
    {
        if idx >= self.args.len() {
            None
        } else {
            Some(self.args[idx].clone())
        }
    }

    /// Reads an argument as a task id: decimal digits, optionally
    /// preceded by a plus sign.
    pub fn parse_as_task_id(arg: &str) -> (r: Result<TID, String>)
        ensures
            u16_of_text(arg@) matches Some(v) ==> r == Ok::<TID, String>(v),
            u16_of_text(arg@) is None ==> (r matches Err(m) && m@
                == "task_id must be a positive integer."@),
    {
        match parse_u16(arg) {
            Some(v) => Ok(v),
            None => Err(String::from_str("task_id must be a positive integer.")),
        }
    }
}

} // verus!

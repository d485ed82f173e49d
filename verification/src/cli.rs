//! The command vocabulary of the tool, as plain data. The binary's argument
//! parser builds these values; the library and its callers dispatch on them.

use vstd::prelude::*;

verus! {

/// A parsed invocation: at most one command per run.
#[derive(Debug)]
pub struct Args {
    pub command: Option<TntCommand>,
}

/// One command of the interactive todo list.
#[derive(Debug)]
pub enum TntCommand {
    /// Mark the current task done.
    Done,
    /// Show the file used to store tasks.
    Which,
    /// Add a task.
    Add { name: Vec<String>, parent: Option<usize>, switch: bool },
    /// Add a blocking subtask and switch to it.
    First { name: Vec<String> },
    /// Add a sibling (non-blocking) task.
    Also { name: Vec<String>, switch: bool },
    /// Clear all tasks and subtasks.
    Clear { delete: bool },
    /// List tasks.
    List { all: bool },
    /// View the current task.
    View,
    /// Add new tasks from standard input.
    Stdin { parent: Option<usize>, current: bool },
    /// List all actionable (non-blocked) subtasks for the current root task.
    Local,
    /// Switch to a task by id.
    Switch { id: usize },
    /// Start a new list in the current directory.
    Init,
    /// Interactive switch.
    Iswitch,
    /// Print the current task's id.
    Id,
    /// Switch to the task best matching a name.
    Do { name: Vec<String> },
}

} // verus!

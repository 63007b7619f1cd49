//! A single task: a free-form description and a completion flag.
use vstd::prelude::*;

verus! {

/// The mathematical model of a task.
pub struct TaskView {
    pub description: Seq<char>,
    pub completed: bool,
}

impl TaskView {
    /// A task that has just been created from a description.
    pub open spec fn fresh(description: Seq<char>) -> TaskView {
        TaskView { description, completed: false }
    }
}

pub struct Task {
    pub task_description: String,
    pub is_completed: bool,
}

impl View for Task {
    type V = TaskView;

    open spec fn view(&self) -> TaskView {
        TaskView { description: self.task_description@, completed: self.is_completed }
    }
}

impl Task {
    /// A new, not yet completed task.
    pub fn new(task_description: String) -> (t: Task)
        ensures
            t@ == TaskView::fresh(task_description@),
    {
        Task { task_description, is_completed: false }
    }
}

} // verus!

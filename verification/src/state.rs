//! The states of a task.
use std::collections::HashSet;
use vstd::prelude::*;

use crate::events::DoneEvent;
use crate::slot::{Slot, TaskId};

verus! {

/// Where a task stands between two executions.
#[derive(Clone, Copy, Debug, PartialEq, Eq, Structural)]
pub enum TaskStateType {
    /// Ready
    ///
    /// on dirty this will move to Dirty or Scheduled depending on active flag
    Done,
    /// Execution is invalid, but not yet scheduled
    ///
    /// on activation this will move to Scheduled
    Dirty,
    /// Execution is invalid and scheduled
    ///
    /// on start this will move to InProgress
    Scheduled,
    /// Execution is happening
    ///
    /// on finish this will move to Done
    ///
    /// on dirty this will move to InProgressDirty
    InProgress,
    /// Invalid execution is happening
    ///
    /// on finish this will move to Dirty or Scheduled depending on active flag
    InProgressDirty,
}

impl Default for TaskStateType {
    fn default() -> (res: TaskStateType)
        ensures
            res == TaskStateType::Dirty,
    {
        TaskStateType::Dirty
    }
}

impl TaskStateType {
    /// The name of the state in a description of its task.
    pub open spec fn label(self) -> Seq<char> {
        match self {
            TaskStateType::Scheduled => "scheduled"@,
            TaskStateType::InProgress => "in progress"@,
            TaskStateType::InProgressDirty => "in progress (dirty)"@,
            TaskStateType::Done => "done"@,
            TaskStateType::Dirty => "dirty"@,
        }
    }

    /// The name of the variant.
    pub open spec fn variant(self) -> Seq<char> {
        match self {
            TaskStateType::Scheduled => "Scheduled"@,
            TaskStateType::InProgress => "InProgress"@,
            TaskStateType::InProgressDirty => "InProgressDirty"@,
            TaskStateType::Done => "Done"@,
            TaskStateType::Dirty => "Dirty"@,
        }
    }

    pub(crate) fn variant_str(&self) -> (res: &'static str)
        ensures
            res@ == self.variant(),
    {
        match self {
            TaskStateType::Scheduled => "Scheduled",
            TaskStateType::InProgress => "InProgress",
            TaskStateType::InProgressDirty => "InProgressDirty",
            TaskStateType::Done => "Done",
            TaskStateType::Dirty => "Dirty",
        }
    }

    /// The state after the task has become invalid.
    pub open spec fn on_dirty(self, active: bool) -> TaskStateType {
        match self {
            TaskStateType::Done => if active {
                TaskStateType::Scheduled
            } else {
                TaskStateType::Dirty
            },
            TaskStateType::InProgress => TaskStateType::InProgressDirty,
            _ => self,
        }
    }

    /// The state after the execution of the task has come to its end.
    pub open spec fn on_finish(self, active: bool) -> TaskStateType
        recommends
            self is InProgress || self is InProgressDirty,
    {
        match self {
            TaskStateType::InProgress => TaskStateType::Done,
            _ => if active {
                TaskStateType::Scheduled
            } else {
                TaskStateType::Dirty
            },
        }
    }

    /// The state after the task has become active.
    pub open spec fn on_activation(self) -> TaskStateType {
        if self is Dirty {
            TaskStateType::Scheduled
        } else {
            self
        }
    }
}

/// What of a task changes while it lives.
pub struct TaskState {
    pub active: bool,
    pub state_type: TaskStateType,
    /// children are only modified from execution
    pub children: HashSet<TaskId>,
    pub output_slot: Slot,
    pub created_slots: Vec<Slot>,
    pub event: DoneEvent,
    pub executions: u32,
}

impl TaskState {
    /// The state, and whether the task is inactive.
    pub open spec fn description(self) -> Seq<char> {
        self.state_type.label() + if self.active {
            ""@
        } else {
            " (inactive)"@
        }
    }

    pub open spec fn with_type(self, state_type: TaskStateType) -> TaskState {
        TaskState { state_type, ..self }
    }

    /// The state at the beginning of an execution, with `children` in the place of the
    /// children from the execution before it.
    pub open spec fn started(self, children: HashSet<TaskId>) -> TaskState {
        TaskState {
            state_type: TaskStateType::InProgress,
            executions: (self.executions + 1) as u32,
            children,
            ..self
        }
    }

    /// The state at the end of an execution.
    pub open spec fn finished(self, event: DoneEvent) -> TaskState {
        TaskState { state_type: self.state_type.on_finish(self.active), event, ..self }
    }

    pub open spec fn with_output_slot(self, output_slot: Slot) -> TaskState {
        TaskState { output_slot, ..self }
    }

    pub open spec fn with_created_slots(self, created_slots: Vec<Slot>) -> TaskState {
        TaskState { created_slots, ..self }
    }

    pub open spec fn with_executions(self, executions: u32) -> TaskState {
        TaskState { executions, ..self }
    }

    pub open spec fn with_children(self, children: HashSet<TaskId>) -> TaskState {
        TaskState { children, ..self }
    }

    /// A state without children and slots, before the first execution.
    pub open spec fn is_new(self) -> bool {
        &&& self.children@ == Set::<TaskId>::empty()
        &&& self.output_slot.is_new()
        &&& self.created_slots@.len() == 0
        &&& self.event.sent().len() == 0
        &&& self.executions == 0
    }

    pub(crate) fn new(active: bool, state_type: TaskStateType) -> (res: TaskState)
        ensures
            res.children@ == Set::<TaskId>::empty(),
            res.output_slot.target() is None,
            res.output_slot.held() is None,
            res.created_slots@.len() == 0,
            res.event.sent().len() == 0,
            res.executions == 0,
            res.is_new(),
            res.active == active,
            res.state_type == state_type,
    {
        TaskState {
            active,
            state_type,
            children: HashSet::new(),
            output_slot: Slot::new(),
            created_slots: Vec::new(),
            event: DoneEvent::new(),
            executions: 0,
        }
    }
}

impl Default for TaskState {
    fn default() -> (res: TaskState)
        ensures
            res.is_new(),
            !res.active,
            res.state_type == TaskStateType::Dirty,
    {
        TaskState::new(false, TaskStateType::default())
    }
}

} // verus!

//! What belongs to the execution that is running.
use vstd::prelude::*;

use crate::previous_nodes::{PreviousNodes, PreviousNodesMap};
use crate::slot::TaskId;

verus! {

/// The state that an execution has to itself: the task that is executed, and the slots
/// that earlier executions of the task have created.
pub struct TaskLocals {
    pub current_task: Option<TaskId>,
    pub previous_nodes: PreviousNodesMap,
}

impl TaskLocals {
    pub open spec fn with_current_task(self, current_task: Option<TaskId>) -> TaskLocals {
        TaskLocals { current_task, ..self }
    }

    pub open spec fn with_previous_nodes(self, previous_nodes: PreviousNodesMap) -> TaskLocals {
        TaskLocals { previous_nodes, ..self }
    }
}

/// Another task or other slots change nothing else of the locals.
pub proof fn law_locals_change_one_by_one(
    locals: TaskLocals,
    current_task: Option<TaskId>,
    previous_nodes: PreviousNodesMap,
)
    ensures
        locals.with_current_task(current_task).current_task == current_task,
        locals.with_current_task(current_task).previous_nodes == locals.previous_nodes,
        locals.with_previous_nodes(previous_nodes).previous_nodes == previous_nodes,
        locals.with_previous_nodes(previous_nodes).current_task == locals.current_task,
{
}

impl Default for TaskLocals {
    fn default() -> (res: TaskLocals)
        ensures
            res.previous_nodes@.by_key == Map::<u64, usize>::empty(),
            res.previous_nodes@.by_type == Map::<u64, (usize, Seq<usize>)>::empty(),
            res.current_task is None,
            res.previous_nodes@ == PreviousNodes::empty(),
    {
        TaskLocals { current_task: None, previous_nodes: PreviousNodesMap::default() }
    }
}

} // verus!

//! Tasks, and what happens to a single task.
use event_listener::EventListener;
use std::collections::HashSet;
use vstd::prelude::*;
use vstd::string::StringExecFns;

use crate::dependencies;
use crate::dependencies::Dependencies;
use crate::locals::TaskLocals;
use crate::previous_nodes::{PreviousNodes, PreviousNodesMap};
use crate::slot::{NativeFunction, Slot, SlotHandle, SlotRef, TaskId, TraitType};
use crate::state::{TaskState, TaskStateType};
use crate::text;
use crate::turbo_tasks;
use crate::turbo_tasks::{JobView, TurboTasks};

verus! {

broadcast use vstd::std_specs::hash::group_hash_axioms;

/// What a task does when it is executed. `F` is the type of functions that are bound to
/// their arguments, `O` that of computations that can run only once.
pub enum TaskType<F, O> {
    /// Calls a function, and stays active forever.
    Root(F),
    /// Runs a computation, which is there until it is taken for execution.
    Once(Option<O>),
    /// Calls a function that is bound to the inputs.
    Native(&'static NativeFunction, F),
    /// Resolves the inputs and calls a function with them.
    ResolveNative(&'static NativeFunction),
    /// Resolves the first input and calls its method of that name.
    ResolveTrait(&'static TraitType, String),
}

impl<F, O> TaskType<F, O> {
    /// The name of the task in a description.
    pub open spec fn name(self) -> Seq<char> {
        match self {
            TaskType::Root(_) => "root"@,
            TaskType::Once(_) => "once"@,
            TaskType::Native(native_fn, _) => native_fn.name@,
            TaskType::ResolveNative(native_fn) => "[resolve] "@ + native_fn.name@,
            TaskType::ResolveTrait(trait_type, fn_name) => "[resolve trait] "@ + fn_name@
                + " in trait "@ + trait_type.name@,
        }
    }

    /// The texts that the `Debug` form quotes.
    pub open spec fn debug_fields(self) -> (Seq<char>, Seq<char>) {
        match self {
            TaskType::Root(_) => (seq![], seq![]),
            TaskType::Once(_) => (seq![], seq![]),
            TaskType::Native(native_fn, _) => (native_fn.name@, seq![]),
            TaskType::ResolveNative(native_fn) => (native_fn.name@, seq![]),
            TaskType::ResolveTrait(trait_type, name) => (trait_type.name@, name@),
        }
    }

    /// The `Debug` form, where `first` and `second` are these texts in quotes.
    pub open spec fn debug_with(self, first: Seq<char>, second: Seq<char>) -> Seq<char> {
        match self {
            TaskType::Root(_) => "Root"@,
            TaskType::Once(_) => "Once"@,
            TaskType::Native(_, _) => "Native("@ + first + ")"@,
            TaskType::ResolveNative(_) => "ResolveNative("@ + first + ")"@,
            TaskType::ResolveTrait(_, _) => "ResolveTrait("@ + first + ", "@ + second + ")"@,
        }
    }

    /// The `Debug` form.
    pub open spec fn debug(self) -> Seq<char> {
        self.debug_with(
            text::quotation(self.debug_fields().0),
            text::quotation(self.debug_fields().1),
        )
    }

    /// The `Debug` form on several lines, the lines after the first one behind `indent`,
    /// where `first` and `second` are the texts that it quotes, in quotes.
    pub open spec fn pretty_with(
        self,
        indent: Seq<char>,
        first: Seq<char>,
        second: Seq<char>,
    ) -> Seq<char> {
        let line = "\n"@ + indent + "    "@;
        let end = "\n"@ + indent + ")"@;
        match self {
            TaskType::Root(_) => "Root"@,
            TaskType::Once(_) => "Once"@,
            TaskType::Native(_, _) => "Native("@ + line + first + ","@ + end,
            TaskType::ResolveNative(_) => "ResolveNative("@ + line + first + ","@ + end,
            TaskType::ResolveTrait(_, _) => "ResolveTrait("@ + line + first + ","@ + line + second
                + ","@ + end,
        }
    }

    /// The `Debug` form on several lines.
    pub open spec fn pretty(self, indent: Seq<char>) -> Seq<char> {
        self.pretty_with(
            indent,
            text::quotation(self.debug_fields().0),
            text::quotation(self.debug_fields().1),
        )
    }

    fn name_string(&self) -> (res: String)
        ensures
            res@ == self.name(),
    {
        match self {
            TaskType::Root(_) => "root".to_owned(),
            TaskType::Once(_) => "once".to_owned(),
            TaskType::Native(native_fn, _) => native_fn.name.clone(),
            TaskType::ResolveNative(native_fn) => {
                let mut res: String = "[resolve] ".to_owned();
                res.append(native_fn.name.as_str());
                res
            },
            TaskType::ResolveTrait(trait_type, fn_name) => {
                let mut res: String = "[resolve trait] ".to_owned();
                res.append(fn_name.as_str());
                res.append(" in trait ");
                res.append(trait_type.name.as_str());
                res
            },
        }
    }

    /// The `Debug` form of the type, where `first` and `second` are the texts that it
    /// quotes, in quotes.
    pub fn debug_string_with(&self, first: &str, second: &str) -> (res: String)
        ensures
            res@ == (match *self {
                TaskType::Root(_) => "Root"@,
                TaskType::Once(_) => "Once"@,
                TaskType::Native(native_fn, _) => "Native("@ + first@ + ")"@,
                TaskType::ResolveNative(native_fn) => "ResolveNative("@ + first@ + ")"@,
                TaskType::ResolveTrait(trait_type, name) => "ResolveTrait("@ + first@ + ", "@
                    + second@ + ")"@,
            }),
            res@ == self.debug_with(first@, second@),
    {
        match self {
            TaskType::Root(_) => "Root".to_owned(),
            TaskType::Once(_) => "Once".to_owned(),
            TaskType::Native(_, _) => {
                let mut res: String = "Native(".to_owned();
                res.append(first);
                res.append(")");
                res
            },
            TaskType::ResolveNative(_) => {
                let mut res: String = "ResolveNative(".to_owned();
                res.append(first);
                res.append(")");
                res
            },
            TaskType::ResolveTrait(_, _) => {
                let mut res: String = "ResolveTrait(".to_owned();
                res.append(first);
                res.append(", ");
                res.append(second);
                res.append(")");
                res
            },
        }
    }

    /// The texts that the `Debug` form quotes, in quotes.
    fn quoted_fields(&self) -> (res: (String, String))
        ensures
            res.0@ == text::quotation(self.debug_fields().0),
            res.1@ == text::quotation(self.debug_fields().1),
    {
        proof {
            reveal_strlit("");
            assert(""@ =~= Seq::<char>::empty());
        }
        let (first, second): (&str, &str) = match self {
            TaskType::Root(_) => ("", ""),
            TaskType::Once(_) => ("", ""),
            TaskType::Native(native_fn, _) => (native_fn.name.as_str(), ""),
            TaskType::ResolveNative(native_fn) => (native_fn.name.as_str(), ""),
            TaskType::ResolveTrait(trait_type, name) => (trait_type.name.as_str(), name.as_str()),
        };
        (text::quoted(first), text::quoted(second))
    }

    /// The `Debug` form of the type.
    pub fn debug_string(&self) -> (res: String)
        ensures
            res@ == (match *self {
                TaskType::Root(_) => "Root"@,
                TaskType::Once(_) => "Once"@,
                TaskType::Native(native_fn, _) => "Native("@ + text::quotation(native_fn.name@)
                    + ")"@,
                TaskType::ResolveNative(native_fn) => "ResolveNative("@
                    + text::quotation(native_fn.name@) + ")"@,
                TaskType::ResolveTrait(trait_type, name) => "ResolveTrait("@
                    + text::quotation(trait_type.name@) + ", "@ + text::quotation(name@) + ")"@,
            }),
            res@ == self.debug(),
    {
        let (first, second): (String, String) = self.quoted_fields();
        self.debug_string_with(first.as_str(), second.as_str())
    }

    /// The `Debug` form of the type on several lines, the lines after the first one behind
    /// `indent`, where `first` and `second` are the texts that it quotes, in quotes.
    pub fn pretty_string_with(&self, indent: &str, first: &str, second: &str) -> (res: String)
        ensures
            res@ == (match *self {
                TaskType::Root(_) => "Root"@,
                TaskType::Once(_) => "Once"@,
                TaskType::Native(native_fn, _) => "Native("@ + ("\n"@ + indent@ + "    "@) + first@
                    + ","@ + ("\n"@ + indent@ + ")"@),
                TaskType::ResolveNative(native_fn) => "ResolveNative("@
                    + ("\n"@ + indent@ + "    "@) + first@ + ","@ + ("\n"@ + indent@ + ")"@),
                TaskType::ResolveTrait(trait_type, name) => "ResolveTrait("@
                    + ("\n"@ + indent@ + "    "@) + first@ + ","@ + ("\n"@ + indent@ + "    "@)
                    + second@ + ","@ + ("\n"@ + indent@ + ")"@),
            }),
            res@ == self.pretty_with(indent@, first@, second@),
    {
        let mut line: String = "\n".to_owned();
        line.append(indent);
        line.append("    ");
        let mut end: String = "\n".to_owned();
        end.append(indent);
        end.append(")");
        match self {
            TaskType::Root(_) => "Root".to_owned(),
            TaskType::Once(_) => "Once".to_owned(),
            TaskType::Native(_, _) => {
                let mut res: String = "Native(".to_owned();
                res.append(line.as_str());
                res.append(first);
                res.append(",");
                res.append(end.as_str());
                res
            },
            TaskType::ResolveNative(_) => {
                let mut res: String = "ResolveNative(".to_owned();
                res.append(line.as_str());
                res.append(first);
                res.append(",");
                res.append(end.as_str());
                res
            },
            TaskType::ResolveTrait(_, _) => {
                let mut res: String = "ResolveTrait(".to_owned();
                res.append(line.as_str());
                res.append(first);
                res.append(",");
                res.append(line.as_str());
                res.append(second);
                res.append(",");
                res.append(end.as_str());
                res
            },
        }
    }

    /// The `Debug` form of the type on several lines.
    pub fn pretty_string(&self, indent: &str) -> (res: String)
        ensures
            res@ == (match *self {
                TaskType::Root(_) => "Root"@,
                TaskType::Once(_) => "Once"@,
                TaskType::Native(native_fn, _) => "Native("@ + ("\n"@ + indent@ + "    "@)
                    + text::quotation(native_fn.name@) + ","@ + ("\n"@ + indent@ + ")"@),
                TaskType::ResolveNative(native_fn) => "ResolveNative("@
                    + ("\n"@ + indent@ + "    "@) + text::quotation(native_fn.name@) + ","@
                    + ("\n"@ + indent@ + ")"@),
                TaskType::ResolveTrait(trait_type, name) => "ResolveTrait("@
                    + ("\n"@ + indent@ + "    "@) + text::quotation(trait_type.name@) + ","@
                    + ("\n"@ + indent@ + "    "@) + text::quotation(name@) + ","@
                    + ("\n"@ + indent@ + ")"@),
            }),
            res@ == self.pretty(indent@),
    {
        let (first, second): (String, String) = self.quoted_fields();
        self.pretty_string_with(indent, first.as_str(), second.as_str())
    }
}

/// task data that is only modified during task execution
pub struct TaskExecutionData {
    /// dependencies are only modified from execution
    ///
    /// dependencies are cleared when entering Dirty state
    pub dependencies: Dependencies,
    pub previous_nodes: PreviousNodesMap,
}

impl TaskExecutionData {
    pub open spec fn with_dependencies(self, dependencies: Dependencies) -> TaskExecutionData {
        TaskExecutionData { dependencies, ..self }
    }

    pub open spec fn with_previous_nodes(self, previous_nodes: PreviousNodesMap) -> TaskExecutionData {
        TaskExecutionData { previous_nodes, ..self }
    }
}

impl Default for TaskExecutionData {
    fn default() -> (res: TaskExecutionData)
        ensures
            dependencies::recorded(&res.dependencies) == Set::<(usize, usize)>::empty(),
            res.previous_nodes@ == PreviousNodes::empty(),
    {
        TaskExecutionData {
            dependencies: Dependencies::new(),
            previous_nodes: PreviousNodesMap::default(),
        }
    }
}

/// A task.
pub struct Task<F, O> {
    pub inputs: Vec<SlotRef>,
    pub ty: TaskType<F, O>,
    pub state: TaskState,
    /// How many active parents the task has. A task that is active from its beginning counts
    /// one more.
    pub active_parents: u32,
    pub execution_data: TaskExecutionData,
}

/// What a visualization shows of a task.
#[derive(Debug)]
pub struct TaskSnapshot {
    pub inputs: Vec<SlotRef>,
    pub children: Vec<TaskId>,
    pub dependencies: Vec<SlotRef>,
    pub name: String,
    pub state: String,
    pub output_slot: SlotRef,
    pub slots: Vec<SlotRef>,
    pub executions: u32,
}

impl<F, O> Task<F, O> {
    /// Whether the task depends on `slot`, as far as it has been recorded.
    pub open spec fn depends_on(self, slot: SlotRef) -> bool {
        slot.of_task() && dependencies::recorded(&self.execution_data.dependencies).contains(
            slot.key(),
        )
    }

    pub open spec fn with_state(self, state: TaskState) -> Task<F, O> {
        Task { state, ..self }
    }

    pub open spec fn with_execution_data(self, execution_data: TaskExecutionData) -> Task<F, O> {
        Task { execution_data, ..self }
    }

    /// Whether an execution can begin.
    pub open spec fn startable(self) -> bool {
        self.state.active && self.state.state_type == TaskStateType::Scheduled
    }

    /// Whether an execution is running.
    pub open spec fn in_progress(self) -> bool {
        self.state.state_type == TaskStateType::InProgress || self.state.state_type
            == TaskStateType::InProgressDirty
    }

    /// The same task without dependencies, these being kept in `dependencies`.
    pub open spec fn without_dependencies(self, dependencies: Dependencies) -> Task<F, O> {
        self.with_execution_data(self.execution_data.with_dependencies(dependencies))
    }

    /// The task after it has become invalid, its dependencies being kept in
    /// `dependencies`.
    pub open spec fn made_dirty(self, dependencies: Dependencies) -> Task<F, O> {
        self.with_state(
            self.state.with_type(self.state.state_type.on_dirty(self.state.active)),
        ).without_dependencies(dependencies)
    }

    /// The jobs after the task, which is `this`, has become invalid.
    pub open spec fn jobs_made_dirty(self, this: TaskId, jobs: Seq<JobView>) -> Seq<JobView> {
        turbo_tasks::with_job_if(
            jobs,
            self.state.state_type == TaskStateType::Done && self.state.active,
            JobView::Schedule(this),
        )
    }

    /// A task that was never executed, nor connected to another task.
    pub open spec fn is_new(self) -> bool {
        &&& self.state.is_new()
        &&& dependencies::recorded(&self.execution_data.dependencies)
            == Set::<(usize, usize)>::empty()
        &&& self.execution_data.previous_nodes@ == PreviousNodes::empty()
    }

    /// A new task that waits for a parent.
    pub open spec fn is_idle(self) -> bool {
        &&& self.is_new()
        &&& !self.state.active
        &&& self.state.state_type == TaskStateType::Dirty
        &&& self.active_parents == 0
    }

    /// A new task that is active without a parent.
    pub open spec fn is_top(self) -> bool {
        &&& self.is_new()
        &&& self.state.active
        &&& self.state.state_type == TaskStateType::Scheduled
        &&& self.active_parents == 1
        &&& self.inputs@.len() == 0
    }

    /// A task that calls `native_fn`, where `bound` is the function bound to `inputs`, or
    /// the error that the binding gave.
    pub fn new_native<E>(
        inputs: Vec<SlotRef>,
        native_fn: &'static NativeFunction,
        bound: Result<F, E>,
    ) -> (res: Result<Task<F, O>, E>)
        ensures
            res matches Ok(task) ==> task.state.active == false
                && task.state.state_type == TaskStateType::Dirty && task.active_parents == 0
                && task.state.children@ == Set::<TaskId>::empty()
                && task.state.output_slot.target() is None && task.state.output_slot.held() is None
                && task.state.created_slots@.len() == 0 && task.state.event.sent().len() == 0
                && task.state.executions == 0
                && dependencies::recorded(&task.execution_data.dependencies)
                == Set::<(usize, usize)>::empty()
                && task.execution_data.previous_nodes@.by_key == Map::<u64, usize>::empty()
                && task.execution_data.previous_nodes@.by_type
                == Map::<u64, (usize, Seq<usize>)>::empty(),
            bound is Ok <==> res is Ok,
            bound matches Err(e) ==> res == Err::<Task<F, O>, E>(e),
            bound matches Ok(bound_fn) ==> res matches Ok(task) && task.is_idle() && task.inputs
                == inputs && task.ty == TaskType::<F, O>::Native(native_fn, bound_fn),
    {
        match bound {
            Ok(bound_fn) => Ok(
                Task {
                    inputs,
                    ty: TaskType::Native(native_fn, bound_fn),
                    state: TaskState::default(),
                    active_parents: 0,
                    execution_data: TaskExecutionData::default(),
                },
            ),
            Err(e) => Err(e),
        }
    }

    pub fn new_resolve_native(inputs: Vec<SlotRef>, native_fn: &'static NativeFunction) -> (res:
        Task<F, O>)
        ensures
            res.state.active == false,
            res.state.state_type == TaskStateType::Dirty,
            res.active_parents == 0,
            res.state.children@ == Set::<TaskId>::empty(),
            res.state.output_slot.target() is None,
            res.state.output_slot.held() is None,
            res.state.created_slots@.len() == 0,
            res.state.event.sent().len() == 0,
            res.state.executions == 0,
            dependencies::recorded(&res.execution_data.dependencies)
                == Set::<(usize, usize)>::empty(),
            res.execution_data.previous_nodes@.by_key == Map::<u64, usize>::empty(),
            res.execution_data.previous_nodes@.by_type == Map::<u64, (usize, Seq<usize>)>::empty(),
            res.is_idle(),
            res.inputs == inputs,
            res.ty == TaskType::<F, O>::ResolveNative(native_fn),
    {
        Task {
            inputs,
            ty: TaskType::ResolveNative(native_fn),
            state: TaskState::default(),
            active_parents: 0,
            execution_data: TaskExecutionData::default(),
        }
    }

    pub fn new_resolve_trait(
        trait_type: &'static TraitType,
        trait_fn_name: String,
        inputs: Vec<SlotRef>,
    ) -> (res: Task<F, O>)
        ensures
            res.state.active == false,
            res.state.state_type == TaskStateType::Dirty,
            res.active_parents == 0,
            res.state.children@ == Set::<TaskId>::empty(),
            res.state.output_slot.target() is None,
            res.state.output_slot.held() is None,
            res.state.created_slots@.len() == 0,
            res.state.event.sent().len() == 0,
            res.state.executions == 0,
            dependencies::recorded(&res.execution_data.dependencies)
                == Set::<(usize, usize)>::empty(),
            res.execution_data.previous_nodes@.by_key == Map::<u64, usize>::empty(),
            res.execution_data.previous_nodes@.by_type == Map::<u64, (usize, Seq<usize>)>::empty(),
            res.is_idle(),
            res.inputs == inputs,
            res.ty == TaskType::<F, O>::ResolveTrait(trait_type, trait_fn_name),
    {
        Task {
            inputs,
            ty: TaskType::ResolveTrait(trait_type, trait_fn_name),
            state: TaskState::default(),
            active_parents: 0,
            execution_data: TaskExecutionData::default(),
        }
    }

    pub fn new_root(functor: F) -> (res: Task<F, O>)
        ensures
            res.state.active == true,
            res.state.state_type == TaskStateType::Scheduled,
            res.active_parents == 1,
            res.state.children@ == Set::<TaskId>::empty(),
            res.state.output_slot.target() is None,
            res.state.output_slot.held() is None,
            res.state.created_slots@.len() == 0,
            res.state.event.sent().len() == 0,
            res.state.executions == 0,
            dependencies::recorded(&res.execution_data.dependencies)
                == Set::<(usize, usize)>::empty(),
            res.execution_data.previous_nodes@.by_key == Map::<u64, usize>::empty(),
            res.execution_data.previous_nodes@.by_type == Map::<u64, (usize, Seq<usize>)>::empty(),
            res.inputs@.len() == 0,
            res.is_top(),
            res.ty == TaskType::<F, O>::Root(functor),
    {
        Task {
            inputs: Vec::new(),
            ty: TaskType::Root(functor),
            state: TaskState::new(true, TaskStateType::Scheduled),
            active_parents: 1,
            execution_data: TaskExecutionData::default(),
        }
    }

    pub fn new_once(functor: O) -> (res: Task<F, O>)
        ensures
            res.state.active == true,
            res.state.state_type == TaskStateType::Scheduled,
            res.active_parents == 1,
            res.state.children@ == Set::<TaskId>::empty(),
            res.state.output_slot.target() is None,
            res.state.output_slot.held() is None,
            res.state.created_slots@.len() == 0,
            res.state.event.sent().len() == 0,
            res.state.executions == 0,
            dependencies::recorded(&res.execution_data.dependencies)
                == Set::<(usize, usize)>::empty(),
            res.execution_data.previous_nodes@.by_key == Map::<u64, usize>::empty(),
            res.execution_data.previous_nodes@.by_type == Map::<u64, (usize, Seq<usize>)>::empty(),
            res.inputs@.len() == 0,
            res.is_top(),
            res.ty == TaskType::<F, O>::Once(Some(functor)),
    {
        Task {
            inputs: Vec::new(),
            ty: TaskType::Once(Some(functor)),
            state: TaskState::new(true, TaskStateType::Scheduled),
            active_parents: 1,
            execution_data: TaskExecutionData::default(),
        }
    }

    /// Begins an execution, if the task is active and scheduled. The children from the
    /// execution before it are given away for removal.
    pub fn execution_started(&mut self, turbo_tasks: &mut TurboTasks) -> (res: bool)
        requires
            old(self).state.active ==> old(self).state.state_type != TaskStateType::Dirty,
            old(self).state.active && old(self).state.state_type == TaskStateType::Scheduled ==> old(
                self).state.executions < u32::MAX,
        ensures
            res == (old(self).state.active && old(self).state.state_type == TaskStateType::Scheduled),
            !res ==> final(self).inputs == old(self).inputs && final(self).ty == old(self).ty
                && final(self).active_parents == old(self).active_parents
                && final(self).execution_data.dependencies == old(self).execution_data.dependencies
                && final(self).execution_data.previous_nodes == old(self).execution_data.previous_nodes
                && final(self).state.active == old(self).state.active
                && final(self).state.state_type == old(self).state.state_type
                && final(self).state.children == old(self).state.children
                && final(self).state.output_slot == old(self).state.output_slot
                && final(self).state.created_slots == old(self).state.created_slots
                && final(self).state.event == old(self).state.event
                && final(self).state.executions == old(self).state.executions
                && final(turbo_tasks)@ == old(turbo_tasks)@,
            final(self).inputs == old(self).inputs,
            final(self).ty == old(self).ty,
            final(self).active_parents == old(self).active_parents,
            final(self).execution_data.dependencies == old(self).execution_data.dependencies,
            final(self).execution_data.previous_nodes == old(self).execution_data.previous_nodes,
            final(self).state.active == old(self).state.active,
            final(self).state.output_slot == old(self).state.output_slot,
            final(self).state.created_slots == old(self).state.created_slots,
            final(self).state.event == old(self).state.event,
            res ==> final(self).state.state_type == TaskStateType::InProgress
                && final(self).state.executions == old(self).state.executions + 1
                && final(self).state.children@ == Set::<TaskId>::empty(),
            res && old(self).state.children@ == Set::<TaskId>::empty()
                ==> final(turbo_tasks)@ == old(turbo_tasks)@,
            res && old(self).state.children@ != Set::<TaskId>::empty()
                ==> final(turbo_tasks)@ == old(turbo_tasks)@.push(
                JobView::RemoveTasks(old(self).state.children@),
            ),
            res == old(self).startable(),
            !res ==> *final(self) == *old(self),
            res ==> *final(self) == old(self).with_state(
                old(self).state.started(final(self).state.children),
            ),
            res ==> final(self).state.children@ == Set::<TaskId>::empty(),
            final(turbo_tasks)@ == turbo_tasks::with_job_if(
                old(turbo_tasks)@,
                res && !old(self).state.children@.is_empty(),
                JobView::RemoveTasks(old(self).state.children@),
            ),
    {
        if !self.state.active {
            return false;
        }
        match self.state.state_type {
            TaskStateType::Done | TaskStateType::InProgress | TaskStateType::InProgressDirty => {
                // should not start in this state
                return false;
            },
            TaskStateType::Scheduled => {
                self.state.state_type = TaskStateType::InProgress;
                self.state.executions += 1;
                if !self.state.children.is_empty() {
                    let mut set: HashSet<TaskId> = HashSet::new();
                    std::mem::swap(&mut set, &mut self.state.children);
                    turbo_tasks.schedule_remove_tasks(set);
                }
            },
            TaskStateType::Dirty => {
                // an active task is never dirty
                assert(false);
            },
        }
        true
    }

    /// Takes the result of an execution. The result of an invalid execution is not
    /// assigned, to avoid unnecessary updates.
    pub fn execution_result(&mut self, result: SlotRef)
        requires
            old(self).state.state_type == TaskStateType::InProgress || old(self).state.state_type
                == TaskStateType::InProgressDirty,
        ensures
            final(self).inputs == old(self).inputs,
            final(self).ty == old(self).ty,
            final(self).active_parents == old(self).active_parents,
            final(self).execution_data.dependencies == old(self).execution_data.dependencies,
            final(self).execution_data.previous_nodes == old(self).execution_data.previous_nodes,
            final(self).state.active == old(self).state.active,
            final(self).state.state_type == old(self).state.state_type,
            final(self).state.children == old(self).state.children,
            final(self).state.created_slots == old(self).state.created_slots,
            final(self).state.event == old(self).state.event,
            final(self).state.executions == old(self).state.executions,
            old(self).state.state_type == TaskStateType::InProgress
                ==> final(self).state.output_slot.target() == Some(result),
            final(self).state.output_slot.held() == old(self).state.output_slot.held(),
            old(self).state.state_type != TaskStateType::InProgress
                ==> final(self).state.output_slot == old(self).state.output_slot,
            *final(self) == old(self).with_state(
                old(self).state.with_output_slot(final(self).state.output_slot),
            ),
            old(self).state.state_type == TaskStateType::InProgress ==> final(
                self).state.output_slot.is_linked(old(self).state.output_slot, result),
            old(self).state.state_type == TaskStateType::InProgressDirty
                ==> *final(self) == *old(self),
    {
        match self.state.state_type {
            TaskStateType::InProgress => {
                self.state.output_slot.link(result);
            },
            _ => {},
        }
    }

    /// Whether the end of the execution makes the task dirty.
    pub open spec fn ends_dirty(self) -> bool {
        self.state.state_type == TaskStateType::InProgressDirty && !self.state.active
    }

    /// Ends an execution of `this`, which is the task itself: the slots that the
    /// execution has asked for go back to the task, and the task is done, or, where it
    /// has become invalid meanwhile, dirty or scheduled again. Where it becomes dirty its
    /// dependencies are cleared. Gives the slots from whose dependents the task is to be
    /// removed.
    pub fn execution_completed(
        &mut self,
        this: TaskId,
        locals: &mut TaskLocals,
        turbo_tasks: &mut TurboTasks,
    ) -> (res: Vec<SlotRef>)
        requires
            old(self).state.state_type == TaskStateType::InProgress || old(self).state.state_type
                == TaskStateType::InProgressDirty,
        ensures
            final(self).inputs == old(self).inputs,
            final(self).ty == old(self).ty,
            final(self).active_parents == old(self).active_parents,
            final(self).state.active == old(self).state.active,
            final(self).state.children == old(self).state.children,
            final(self).state.output_slot == old(self).state.output_slot,
            final(self).state.created_slots == old(self).state.created_slots,
            final(self).state.executions == old(self).state.executions,
            final(self).execution_data.previous_nodes == old(locals).previous_nodes,
            final(locals).previous_nodes == old(self).execution_data.previous_nodes,
            final(locals).current_task == old(locals).current_task,
            old(self).state.state_type == TaskStateType::InProgress
                ==> final(self).state.state_type == TaskStateType::Done && res@.len() == 0
                && final(self).execution_data.dependencies == old(self).execution_data.dependencies
                && final(turbo_tasks)@ == old(turbo_tasks)@,
            old(self).state.state_type == TaskStateType::InProgressDirty && old(self).state.active
                ==> final(self).state.state_type == TaskStateType::Scheduled && res@.len() == 0
                && final(self).execution_data.dependencies == old(self).execution_data.dependencies
                && final(turbo_tasks)@ == old(turbo_tasks)@.push(JobView::Schedule(this)),
            old(self).state.state_type == TaskStateType::InProgressDirty && !old(self).state.active
                ==> final(self).state.state_type == TaskStateType::Dirty
                && dependencies::recorded(&final(self).execution_data.dependencies)
                == Set::<(usize, usize)>::empty() && final(turbo_tasks)@ == old(turbo_tasks)@,
            forall|i: int| 0 <= i < res@.len() ==> !(#[trigger] res@[i] is Value)
                && dependencies::recorded(&old(self).execution_data.dependencies).contains(
                res@[i].key(),
            ),
            *final(self) == old(self).with_state(
                old(self).state.finished(final(self).state.event),
            ).with_execution_data(
                old(self).execution_data.with_previous_nodes(
                    old(locals).previous_nodes,
                ).with_dependencies(final(self).execution_data.dependencies),
            ),
            *final(locals) == old(locals).with_previous_nodes(
                old(self).execution_data.previous_nodes,
            ),
            old(self).ends_dirty() ==> dependencies::recorded(
                &final(self).execution_data.dependencies,
            ).is_empty(),
            !old(self).ends_dirty() ==> final(self).execution_data.dependencies == old(
                self).execution_data.dependencies && res@.len() == 0,
            res@.no_duplicates(),
            forall|i: int| 0 <= i < res@.len() ==> old(self).depends_on(#[trigger] res@[i]),
            old(self).state.state_type == TaskStateType::InProgress ==> final(
                self).state.event.sent() == old(self).state.event.sent().push(usize::MAX),
            forall|listener: EventListener| #[trigger]
                final(self).state.event.wakes(listener) == old(self).state.event.wakes(listener),
            old(self).state.state_type == TaskStateType::InProgressDirty ==> final(self).state.event
                == old(self).state.event,
            final(turbo_tasks)@ == turbo_tasks::with_job_if(
                old(turbo_tasks)@,
                old(self).state.state_type == TaskStateType::InProgressDirty
                    && old(self).state.active,
                JobView::Schedule(this),
            ),
    {
        std::mem::swap(&mut self.execution_data.previous_nodes, &mut locals.previous_nodes);
        let mut dependencies: Vec<SlotRef> = Vec::new();
        let mut schedule_task: bool = false;
        match self.state.state_type {
            TaskStateType::InProgress => {
                self.state.state_type = TaskStateType::Done;
                self.state.event.notify(usize::MAX);
            },
            _ => {
                if self.state.active {
                    self.state.state_type = TaskStateType::Scheduled;
                    schedule_task = true;
                } else {
                    self.state.state_type = TaskStateType::Dirty;
                    dependencies = self.clear_dependencies();
                }
            },
        }
        if schedule_task {
            turbo_tasks.schedule(this);
        }
        dependencies
    }

    /// Forgets all dependencies, and gives the slots among them that still exist. The
    /// task is to be removed from the dependents of each of these slots.
    pub fn clear_dependencies(&mut self) -> (res: Vec<SlotRef>)
        ensures
            final(self).inputs == old(self).inputs,
            final(self).ty == old(self).ty,
            final(self).active_parents == old(self).active_parents,
            final(self).execution_data.previous_nodes == old(self).execution_data.previous_nodes,
            final(self).state.active == old(self).state.active,
            final(self).state.state_type == old(self).state.state_type,
            final(self).state.children == old(self).state.children,
            final(self).state.output_slot == old(self).state.output_slot,
            final(self).state.created_slots == old(self).state.created_slots,
            final(self).state.event == old(self).state.event,
            final(self).state.executions == old(self).state.executions,
            dependencies::recorded(&final(self).execution_data.dependencies)
                == Set::<(usize, usize)>::empty(),
            forall|i: int| 0 <= i < res@.len() ==> !(#[trigger] res@[i] is Value)
                && dependencies::recorded(&old(self).execution_data.dependencies).contains(
                res@[i].key(),
            ),
            *final(self) == old(self).without_dependencies(
                final(self).execution_data.dependencies,
            ),
            dependencies::recorded(&final(self).execution_data.dependencies).is_empty(),
            res@.no_duplicates(),
            forall|i: int| 0 <= i < res@.len() ==> old(self).depends_on(#[trigger] res@[i]),
    {
        let handles: Vec<SlotHandle> = self.execution_data.dependencies.drain();
        slots_of(&handles)
    }

    /// Makes the task, which is `this`, invalid. Gives the slots from whose dependents
    /// the task is to be removed.
    pub fn make_dirty(&mut self, this: TaskId, turbo_tasks: &mut TurboTasks) -> (res: Vec<SlotRef>)
        ensures
            final(self).inputs == old(self).inputs,
            final(self).ty == old(self).ty,
            final(self).active_parents == old(self).active_parents,
            final(self).execution_data.previous_nodes == old(self).execution_data.previous_nodes,
            final(self).state.active == old(self).state.active,
            final(self).state.children == old(self).state.children,
            final(self).state.output_slot == old(self).state.output_slot,
            final(self).state.created_slots == old(self).state.created_slots,
            final(self).state.event == old(self).state.event,
            final(self).state.executions == old(self).state.executions,
            dependencies::recorded(&final(self).execution_data.dependencies)
                == Set::<(usize, usize)>::empty(),
            old(self).state.state_type == TaskStateType::Done && old(self).state.active
                ==> final(self).state.state_type == TaskStateType::Scheduled
                && final(turbo_tasks)@ == old(turbo_tasks)@.push(JobView::Schedule(this)),
            old(self).state.state_type == TaskStateType::Done && !old(self).state.active
                ==> final(self).state.state_type == TaskStateType::Dirty
                && final(turbo_tasks)@ == old(turbo_tasks)@,
            old(self).state.state_type == TaskStateType::InProgress
                ==> final(self).state.state_type == TaskStateType::InProgressDirty
                && final(turbo_tasks)@ == old(turbo_tasks)@,
            old(self).state.state_type != TaskStateType::Done
                && old(self).state.state_type != TaskStateType::InProgress
                ==> final(self).state.state_type == old(self).state.state_type
                && final(turbo_tasks)@ == old(turbo_tasks)@,
            forall|i: int| 0 <= i < res@.len() ==> !(#[trigger] res@[i] is Value)
                && dependencies::recorded(&old(self).execution_data.dependencies).contains(
                res@[i].key(),
            ),
            *final(self) == old(self).made_dirty(final(self).execution_data.dependencies),
            dependencies::recorded(&final(self).execution_data.dependencies).is_empty(),
            final(turbo_tasks)@ == old(self).jobs_made_dirty(this, old(turbo_tasks)@),
            res@.no_duplicates(),
            forall|i: int| 0 <= i < res@.len() ==> old(self).depends_on(#[trigger] res@[i]),
    {
        let dependencies: Vec<SlotRef> = self.clear_dependencies();
        match self.state.state_type {
            TaskStateType::Dirty | TaskStateType::Scheduled | TaskStateType::InProgressDirty => {
                // already dirty
            },
            TaskStateType::Done => {
                if self.state.active {
                    self.state.state_type = TaskStateType::Scheduled;
                    turbo_tasks.schedule(this);
                } else {
                    self.state.state_type = TaskStateType::Dirty;
                }
            },
            TaskStateType::InProgress => {
                self.state.state_type = TaskStateType::InProgressDirty;
            },
        }
        dependencies
    }
}

impl<F, O> Task<F, O> {
    /// Makes the task, which is `this`, invalid because a slot on which it depends has
    /// changed. Gives the slots from whose dependents the task is to be removed.
    pub fn dependent_slot_updated(&mut self, this: TaskId, turbo_tasks: &mut TurboTasks) -> (res:
        Vec<SlotRef>)
        ensures
            final(self).inputs == old(self).inputs,
            final(self).ty == old(self).ty,
            final(self).active_parents == old(self).active_parents,
            final(self).execution_data.previous_nodes == old(self).execution_data.previous_nodes,
            final(self).state.active == old(self).state.active,
            final(self).state.children == old(self).state.children,
            final(self).state.output_slot == old(self).state.output_slot,
            final(self).state.created_slots == old(self).state.created_slots,
            final(self).state.event == old(self).state.event,
            final(self).state.executions == old(self).state.executions,
            dependencies::recorded(&final(self).execution_data.dependencies)
                == Set::<(usize, usize)>::empty(),
            old(self).state.state_type == TaskStateType::Done && old(self).state.active
                ==> final(self).state.state_type == TaskStateType::Scheduled
                && final(turbo_tasks)@ == old(turbo_tasks)@.push(JobView::Schedule(this)),
            old(self).state.state_type == TaskStateType::Done && !old(self).state.active
                ==> final(self).state.state_type == TaskStateType::Dirty
                && final(turbo_tasks)@ == old(turbo_tasks)@,
            old(self).state.state_type == TaskStateType::InProgress
                ==> final(self).state.state_type == TaskStateType::InProgressDirty
                && final(turbo_tasks)@ == old(turbo_tasks)@,
            old(self).state.state_type != TaskStateType::Done
                && old(self).state.state_type != TaskStateType::InProgress
                ==> final(self).state.state_type == old(self).state.state_type
                && final(turbo_tasks)@ == old(turbo_tasks)@,
            forall|i: int| 0 <= i < res@.len() ==> !(#[trigger] res@[i] is Value)
                && dependencies::recorded(&old(self).execution_data.dependencies).contains(
                res@[i].key(),
            ),
            *final(self) == old(self).made_dirty(final(self).execution_data.dependencies),
            dependencies::recorded(&final(self).execution_data.dependencies).is_empty(),
            final(turbo_tasks)@ == old(self).jobs_made_dirty(this, old(turbo_tasks)@),
            res@.no_duplicates(),
            forall|i: int| 0 <= i < res@.len() ==> old(self).depends_on(#[trigger] res@[i]),
    {
        self.make_dirty(this, turbo_tasks)
    }

    /// Makes the task, which is `this`, invalid on demand. Gives the slots from whose
    /// dependents the task is to be removed.
    pub(crate) fn invaldate(&mut self, this: TaskId, turbo_tasks: &mut TurboTasks) -> (res: Vec<
        SlotRef,
    >)
        ensures
            final(self).inputs == old(self).inputs,
            final(self).ty == old(self).ty,
            final(self).active_parents == old(self).active_parents,
            final(self).execution_data.previous_nodes == old(self).execution_data.previous_nodes,
            final(self).state.active == old(self).state.active,
            final(self).state.children == old(self).state.children,
            final(self).state.output_slot == old(self).state.output_slot,
            final(self).state.created_slots == old(self).state.created_slots,
            final(self).state.event == old(self).state.event,
            final(self).state.executions == old(self).state.executions,
            dependencies::recorded(&final(self).execution_data.dependencies)
                == Set::<(usize, usize)>::empty(),
            old(self).state.state_type == TaskStateType::Done && old(self).state.active
                ==> final(self).state.state_type == TaskStateType::Scheduled
                && final(turbo_tasks)@ == old(turbo_tasks)@.push(JobView::Schedule(this)),
            old(self).state.state_type == TaskStateType::Done && !old(self).state.active
                ==> final(self).state.state_type == TaskStateType::Dirty
                && final(turbo_tasks)@ == old(turbo_tasks)@,
            old(self).state.state_type == TaskStateType::InProgress
                ==> final(self).state.state_type == TaskStateType::InProgressDirty
                && final(turbo_tasks)@ == old(turbo_tasks)@,
            old(self).state.state_type != TaskStateType::Done
                && old(self).state.state_type != TaskStateType::InProgress
                ==> final(self).state.state_type == old(self).state.state_type
                && final(turbo_tasks)@ == old(turbo_tasks)@,
            forall|i: int| 0 <= i < res@.len() ==> !(#[trigger] res@[i] is Value)
                && dependencies::recorded(&old(self).execution_data.dependencies).contains(
                res@[i].key(),
            ),
            *final(self) == old(self).made_dirty(final(self).execution_data.dependencies),
            dependencies::recorded(&final(self).execution_data.dependencies).is_empty(),
            final(turbo_tasks)@ == old(self).jobs_made_dirty(this, old(turbo_tasks)@),
            res@.no_duplicates(),
            forall|i: int| 0 <= i < res@.len() ==> old(self).depends_on(#[trigger] res@[i]),
    {
        self.make_dirty(this, turbo_tasks)
    }

    /// Makes the task, which is `this`, the one that is executed: the slots that it has
    /// created before go to the execution, at their beginning.
    pub fn set_current(&mut self, this: TaskId, locals: &mut TaskLocals)
        ensures
            final(self).inputs == old(self).inputs,
            final(self).ty == old(self).ty,
            final(self).active_parents == old(self).active_parents,
            final(self).execution_data.dependencies == old(self).execution_data.dependencies,
            final(self).state.active == old(self).state.active,
            final(self).state.state_type == old(self).state.state_type,
            final(self).state.children == old(self).state.children,
            final(self).state.output_slot == old(self).state.output_slot,
            final(self).state.created_slots == old(self).state.created_slots,
            final(self).state.event == old(self).state.event,
            final(self).state.executions == old(self).state.executions,
            final(self).execution_data.previous_nodes == old(locals).previous_nodes,
            final(locals).previous_nodes@.by_key == old(self).execution_data.previous_nodes@.by_key,
            final(locals).previous_nodes@.by_type.dom() == old(
                self).execution_data.previous_nodes@.by_type.dom(),
            forall|t: u64| #[trigger] final(locals).previous_nodes@.by_type.contains_key(t)
                ==> final(locals).previous_nodes@.by_type[t].0 == 0
                && final(locals).previous_nodes@.by_type[t].1 == old(
                self).execution_data.previous_nodes@.by_type[t].1,
            *final(self) == old(self).with_execution_data(
                old(self).execution_data.with_previous_nodes(old(locals).previous_nodes),
            ),
            final(locals).current_task == Some(this),
            final(locals).previous_nodes@
                == old(self).execution_data.previous_nodes@.rewound(),
    {
        self.execution_data.previous_nodes.rewind();
        std::mem::swap(&mut self.execution_data.previous_nodes, &mut locals.previous_nodes);
        locals.current_task = Some(this);
    }

    /// The task that is executed.
    pub fn current(locals: &TaskLocals) -> (res: Option<TaskId>)
        ensures
            res == locals.current_task,
    {
        locals.current_task
    }

    /// Calls `func` with the task that is executed, and with the locals as they are
    /// meanwhile: while `func` runs, no task is executed as far as it can see.
    pub fn with_current<T, C: FnOnce(TaskId, &TaskLocals) -> T>(
        locals: &mut TaskLocals,
        func: C,
    ) -> (res: T)
        requires
            old(locals).current_task is Some,
            func.requires((old(locals).current_task->0, &old(locals).with_current_task(None))),
        ensures
            final(locals).current_task == old(locals).current_task,
            final(locals).previous_nodes == old(locals).previous_nodes,
            func.ensures(
                (
                    old(locals).current_task->0,
                    &(TaskLocals {
                        current_task: None,
                        previous_nodes: old(locals).previous_nodes,
                    }),
                ),
                res,
            ),
            func.ensures((old(locals).current_task->0, &old(locals).with_current_task(None)), res),
            *final(locals) == *old(locals),
    {
        let task: TaskId = locals.current_task.take().unwrap();
        let res: T = func(task, &*locals);
        locals.current_task = Some(task);
        res
    }

    /// Records that the task depends on the slot of `node`.
    pub fn add_dependency(&mut self, node: SlotHandle)
        ensures
            final(self).inputs == old(self).inputs,
            final(self).ty == old(self).ty,
            final(self).active_parents == old(self).active_parents,
            final(self).execution_data.previous_nodes == old(self).execution_data.previous_nodes,
            final(self).state.active == old(self).state.active,
            final(self).state.state_type == old(self).state.state_type,
            final(self).state.children == old(self).state.children,
            final(self).state.output_slot == old(self).state.output_slot,
            final(self).state.created_slots == old(self).state.created_slots,
            final(self).state.event == old(self).state.event,
            final(self).state.executions == old(self).state.executions,
            *final(self) == old(self).without_dependencies(
                final(self).execution_data.dependencies,
            ),
            dependencies::recorded(&final(self).execution_data.dependencies)
                == dependencies::recorded(&old(self).execution_data.dependencies).insert(*node),
    {
        self.execution_data.dependencies.insert(node);
    }

    /// Calls `func` with the output slot.
    pub fn with_output_slot<T, C: FnOnce(&Slot) -> T>(&self, func: C) -> (res: T)
        requires
            func.requires((&self.state.output_slot,)),
        ensures
            func.ensures((&self.state.output_slot,), res),
    {
        func(&self.state.output_slot)
    }

    /// Calls `func` with the output slot, which it may change.
    pub fn with_output_slot_mut<T, C: FnOnce(&mut Slot) -> T>(&mut self, func: C) -> (res: T)
        requires
            forall|slot: &mut Slot| *slot == old(self).state.output_slot ==> func.requires((slot,)),
        ensures
            final(self).inputs == old(self).inputs,
            final(self).ty == old(self).ty,
            final(self).active_parents == old(self).active_parents,
            final(self).execution_data.dependencies == old(self).execution_data.dependencies,
            final(self).execution_data.previous_nodes == old(self).execution_data.previous_nodes,
            final(self).state.active == old(self).state.active,
            final(self).state.state_type == old(self).state.state_type,
            final(self).state.children == old(self).state.children,
            final(self).state.created_slots == old(self).state.created_slots,
            final(self).state.event == old(self).state.event,
            final(self).state.executions == old(self).state.executions,
            *final(self) == old(self).with_state(
                old(self).state.with_output_slot(final(self).state.output_slot),
            ),
            exists|slot: &mut Slot|
                *slot == old(self).state.output_slot && *final(slot)
                    == final(self).state.output_slot && func.ensures((slot,), res),
    {
        func(&mut self.state.output_slot)
    }

    /// Calls `func` with a created slot, which it may change.
    pub fn with_created_slot<T, C: FnOnce(&mut Slot) -> T>(&mut self, index: usize, func: C) -> (res: T)
        requires
            index < old(self).state.created_slots@.len(),
            forall|slot: &mut Slot|
                *slot == old(self).state.created_slots@[index as int] ==> func.requires((slot,)),
        ensures
            final(self).inputs == old(self).inputs,
            final(self).ty == old(self).ty,
            final(self).active_parents == old(self).active_parents,
            final(self).execution_data.dependencies == old(self).execution_data.dependencies,
            final(self).execution_data.previous_nodes == old(self).execution_data.previous_nodes,
            final(self).state.active == old(self).state.active,
            final(self).state.state_type == old(self).state.state_type,
            final(self).state.children == old(self).state.children,
            final(self).state.output_slot == old(self).state.output_slot,
            final(self).state.event == old(self).state.event,
            final(self).state.executions == old(self).state.executions,
            final(self).state.created_slots@.len() == old(self).state.created_slots@.len(),
            forall|j: int| 0 <= j < old(self).state.created_slots@.len() && j != index
                ==> #[trigger] final(self).state.created_slots@[j] == old(self).state.created_slots@[j],
            *final(self) == old(self).with_state(
                old(self).state.with_created_slots(final(self).state.created_slots),
            ),
            final(self).state.created_slots@ == old(self).state.created_slots@.update(
                index as int,
                final(self).state.created_slots@[index as int],
            ),
            exists|slot: &mut Slot|
                *slot == old(self).state.created_slots@[index as int] && *final(slot)
                    == final(self).state.created_slots@[index as int] && func.ensures((slot,), res),
    {
        func(&mut self.state.created_slots[index])
    }

    /// One step of waiting until the task is done: nothing where it is, else a listener
    /// for the next time that it is done. The caller waits for the listener and then
    /// takes the next step.
    pub fn wait_done(&self) -> (res: Option<EventListener>)
        ensures
            res is None <==> self.state.state_type == TaskStateType::Done,
            res matches Some(listener) ==> self.state.event.wakes(listener),
    {
        match self.state.state_type {
            TaskStateType::Done => None,
            _ => Some(self.state.event.listen()),
        }
    }

    /// One step of reading the output slot once the task is done: calls `func` with the
    /// output slot where the task is done, else gives `func` back, with a listener for
    /// the next time that the task is done.
    pub fn get_or_wait<T, C: FnOnce(&mut Slot) -> T>(&mut self, func: C) -> (res: Result<
        T,
        (C, EventListener),
    >)
        requires
            old(self).state.state_type == TaskStateType::Done ==> forall|slot: &mut Slot|
                *slot == old(self).state.output_slot ==> func.requires((slot,)),
        ensures
            final(self).inputs == old(self).inputs,
            final(self).ty == old(self).ty,
            final(self).active_parents == old(self).active_parents,
            final(self).execution_data.dependencies == old(self).execution_data.dependencies,
            final(self).execution_data.previous_nodes == old(self).execution_data.previous_nodes,
            final(self).state.active == old(self).state.active,
            final(self).state.state_type == old(self).state.state_type,
            final(self).state.children == old(self).state.children,
            final(self).state.created_slots == old(self).state.created_slots,
            final(self).state.event == old(self).state.event,
            final(self).state.executions == old(self).state.executions,
            old(self).state.state_type != TaskStateType::Done
                ==> final(self).state.output_slot == old(self).state.output_slot,
            res is Ok <==> old(self).state.state_type == TaskStateType::Done,
            *final(self) == old(self).with_state(
                old(self).state.with_output_slot(final(self).state.output_slot),
            ),
            res matches Ok(value) ==> exists|slot: &mut Slot|
                *slot == old(self).state.output_slot && *final(slot)
                    == final(self).state.output_slot && func.ensures((slot,), value),
            res matches Err(back) ==> back.0 == func && *final(self) == *old(self) && old(
                self).state.event.wakes(back.1),
    {
        match self.state.state_type {
            TaskStateType::Done => {
                let result: T = func(&mut self.state.output_slot);
                Ok(result)
            },
            _ => {
                let listener: EventListener = self.state.event.listen();
                Err((func, listener))
            },
        }
    }

    /// Counts the last execution as the first one.
    pub fn reset_executions(&mut self)
        ensures
            final(self).inputs == old(self).inputs,
            final(self).ty == old(self).ty,
            final(self).active_parents == old(self).active_parents,
            final(self).execution_data.dependencies == old(self).execution_data.dependencies,
            final(self).execution_data.previous_nodes == old(self).execution_data.previous_nodes,
            final(self).state.active == old(self).state.active,
            final(self).state.state_type == old(self).state.state_type,
            final(self).state.children == old(self).state.children,
            final(self).state.output_slot == old(self).state.output_slot,
            final(self).state.created_slots == old(self).state.created_slots,
            final(self).state.event == old(self).state.event,
            *final(self) == old(self).with_state(
                old(self).state.with_executions(final(self).state.executions),
            ),
            final(self).state.executions == if old(self).state.executions > 1 {
                1
            } else {
                old(self).state.executions
            },
    {
        if self.state.executions > 1 {
            self.state.executions = 1;
        }
    }

    /// What a visualization shows of the task, which is `this`.
    pub fn get_snapshot_for_visualization(&self, this: TaskId) -> (res: TaskSnapshot)
        ensures
            res.name@ == (match self.ty {
                TaskType::Root(_) => "root"@,
                TaskType::Once(_) => "once"@,
                TaskType::Native(native_fn, _) => native_fn.name@,
                TaskType::ResolveNative(native_fn) => "[resolve] "@ + native_fn.name@,
                TaskType::ResolveTrait(trait_type, fn_name) => "[resolve trait] "@ + fn_name@
                    + " in trait "@ + trait_type.name@,
            }),
            res.state@ == (match self.state.state_type {
                TaskStateType::Scheduled => "scheduled"@,
                TaskStateType::InProgress => "in progress"@,
                TaskStateType::InProgressDirty => "in progress (dirty)"@,
                TaskStateType::Done => "done"@,
                TaskStateType::Dirty => "dirty"@,
            }) + (if self.state.active { ""@ } else { " (inactive)"@ }),
            forall|i: int| 0 <= i < res.dependencies@.len()
                ==> !(#[trigger] res.dependencies@[i] is Value)
                && dependencies::recorded(&self.execution_data.dependencies).contains(
                res.dependencies@[i].key(),
            ),
            res.inputs@ == self.inputs@.filter(|slot: SlotRef| !(slot is Value)),
            res.slots@.len() == self.state.created_slots@.len() + 1,
            res.inputs@ == self.inputs@.filter(|slot: SlotRef| slot.of_task()),
            res.children@.no_duplicates(),
            res.children@.to_set() == self.state.children@,
            res.dependencies@.no_duplicates(),
            forall|i: int|
                0 <= i < res.dependencies@.len()
                    ==> self.depends_on(#[trigger] res.dependencies@[i]),
            res.name@ == self.ty.name(),
            res.state@ == self.state.description(),
            res.output_slot == SlotRef::TaskOutput(this),
            res.slots@ == Seq::new(
                self.state.created_slots@.len(),
                |i: int| SlotRef::TaskCreated(this, i as usize),
            ).push(SlotRef::TaskOutput(this)),
            res.executions == self.state.executions,
    {
        let mut slots: Vec<SlotRef> = Vec::new();
        let mut i: usize = 0;
        while i < self.state.created_slots.len()
            invariant
                i <= self.state.created_slots@.len(),
                slots@ == Seq::new(i as nat, |j: int| SlotRef::TaskCreated(this, j as usize)),
            decreases self.state.created_slots@.len() - i,
        {
            slots.push(SlotRef::TaskCreated(this, i));
            i += 1;
        }
        slots.push(SlotRef::TaskOutput(this));
        let mut inputs: Vec<SlotRef> = Vec::new();
        let ghost is_task_ref = |slot: SlotRef| slot.of_task();
        let mut j: usize = 0;
        while j < self.inputs.len()
            invariant
                j <= self.inputs@.len(),
                is_task_ref == |slot: SlotRef| slot.of_task(),
                inputs@ == self.inputs@.take(j as int).filter(is_task_ref),
            decreases self.inputs@.len() - j,
        {
            proof {
                let taken = self.inputs@.take(j + 1);
                assert(taken.drop_last() =~= self.inputs@.take(j as int));
                reveal(Seq::filter);
            }
            if self.inputs[j].is_task_ref() {
                inputs.push(self.inputs[j]);
            }
            j += 1;
        }
        proof {
            assert(self.inputs@.take(j as int) =~= self.inputs@);
            let owned = |slot: SlotRef| !(slot is Value);
            assert(is_task_ref =~= owned);
        }
        let handles: Vec<SlotHandle> = self.execution_data.dependencies.handles();
        TaskSnapshot {
            inputs,
            children: self.children(),
            dependencies: slots_of(&handles),
            name: self.ty.name_string(),
            state: Self::state_string(&self.state),
            output_slot: SlotRef::TaskOutput(this),
            slots,
            executions: self.state.executions,
        }
    }

    /// The children, in some order.
    pub(crate) fn children(&self) -> (res: Vec<TaskId>)
        ensures
            res@.no_duplicates(),
            res@.to_set() == self.state.children@,
    {
        list_of(&self.state.children)
    }

    /// A description of the state of a task.
    pub fn state_string(state: &TaskState) -> (res: String)
        ensures
            res@ == (match state.state_type {
                TaskStateType::Scheduled => "scheduled"@,
                TaskStateType::InProgress => "in progress"@,
                TaskStateType::InProgressDirty => "in progress (dirty)"@,
                TaskStateType::Done => "done"@,
                TaskStateType::Dirty => "dirty"@,
            }) + (if state.active { ""@ } else { " (inactive)"@ }),
            res@ == state.description(),
    {
        let mut state_str: String = match state.state_type {
            TaskStateType::Scheduled => "scheduled".to_owned(),
            TaskStateType::InProgress => "in progress".to_owned(),
            TaskStateType::InProgressDirty => "in progress (dirty)".to_owned(),
            TaskStateType::Done => "done".to_owned(),
            TaskStateType::Dirty => "dirty".to_owned(),
        };
        state_str.append(if state.active { "" } else { " (inactive)" });
        state_str
    }

    /// The `Display` form.
    pub open spec fn display(self) -> Seq<char> {
        "Task("@ + self.ty.name() + ", "@ + self.state.description() + ")"@
    }

    /// The `Display` form of the task.
    pub fn display_string(&self) -> (res: String)
        ensures
            res@ == "Task("@ + (match self.ty {
                TaskType::Root(_) => "root"@,
                TaskType::Once(_) => "once"@,
                TaskType::Native(native_fn, _) => native_fn.name@,
                TaskType::ResolveNative(native_fn) => "[resolve] "@ + native_fn.name@,
                TaskType::ResolveTrait(trait_type, fn_name) => "[resolve trait] "@ + fn_name@
                    + " in trait "@ + trait_type.name@,
            }) + ", "@ + ((match self.state.state_type {
                TaskStateType::Scheduled => "scheduled"@,
                TaskStateType::InProgress => "in progress"@,
                TaskStateType::InProgressDirty => "in progress (dirty)"@,
                TaskStateType::Done => "done"@,
                TaskStateType::Dirty => "dirty"@,
            }) + (if self.state.active { ""@ } else { " (inactive)"@ })) + ")"@,
            res@ == self.display(),
    {
        let mut res: String = "Task(".to_owned();
        res.append(self.ty.name_string().as_str());
        res.append(", ");
        res.append(Self::state_string(&self.state).as_str());
        res.append(")");
        res
    }

    /// The `Debug` form, where `ty` is that of the type.
    pub open spec fn debug_with(self, ty: Seq<char>) -> Seq<char> {
        "Task { type: "@ + ty + ", active: "@ + (if self.state.active {
            "true"@
        } else {
            "false"@
        }) + ", state: "@ + self.state.state_type.variant() + " }"@
    }

    /// The `Debug` form.
    pub open spec fn debug(self) -> Seq<char> {
        self.debug_with(self.ty.debug())
    }

    /// The `Debug` form of the task, where `ty` is that of its type.
    pub fn debug_string_with(&self, ty: &str) -> (res: String)
        ensures
            res@ == "Task { type: "@ + ty@ + ", active: "@
                + (if self.state.active { "true"@ } else { "false"@ }) + ", state: "@
                + (match self.state.state_type {
                TaskStateType::Scheduled => "Scheduled"@,
                TaskStateType::InProgress => "InProgress"@,
                TaskStateType::InProgressDirty => "InProgressDirty"@,
                TaskStateType::Done => "Done"@,
                TaskStateType::Dirty => "Dirty"@,
            }) + " }"@,
            res@ == self.debug_with(ty@),
    {
        let mut res: String = "Task { type: ".to_owned();
        res.append(ty);
        res.append(", active: ");
        res.append(if self.state.active { "true" } else { "false" });
        res.append(", state: ");
        res.append(self.state.state_type.variant_str());
        res.append(" }");
        res
    }

    /// The `Debug` form of the task.
    pub fn debug_string(&self) -> (res: String)
        ensures
            res@ == "Task { type: "@ + (match self.ty {
                TaskType::Root(_) => "Root"@,
                TaskType::Once(_) => "Once"@,
                TaskType::Native(native_fn, _) => "Native("@ + text::quotation(native_fn.name@)
                    + ")"@,
                TaskType::ResolveNative(native_fn) => "ResolveNative("@
                    + text::quotation(native_fn.name@) + ")"@,
                TaskType::ResolveTrait(trait_type, name) => "ResolveTrait("@
                    + text::quotation(trait_type.name@) + ", "@ + text::quotation(name@) + ")"@,
            }) + ", active: "@ + (if self.state.active { "true"@ } else { "false"@ })
                + ", state: "@ + (match self.state.state_type {
                TaskStateType::Scheduled => "Scheduled"@,
                TaskStateType::InProgress => "InProgress"@,
                TaskStateType::InProgressDirty => "InProgressDirty"@,
                TaskStateType::Done => "Done"@,
                TaskStateType::Dirty => "Dirty"@,
            }) + " }"@,
            res@ == self.debug(),
    {
        self.debug_string_with(self.ty.debug_string().as_str())
    }

    /// The `Debug` form on several lines, where `ty` is that of the type behind four spaces.
    pub open spec fn pretty_with(self, ty: Seq<char>) -> Seq<char> {
        "Task {\n    type: "@ + ty + ",\n    active: "@ + (if self.state.active {
            "true"@
        } else {
            "false"@
        }) + ",\n    state: "@ + self.state.state_type.variant() + ",\n}"@
    }

    /// The `Debug` form of the task on several lines, where `ty` is that of its type behind
    /// four spaces.
    pub fn pretty_string_with(&self, ty: &str) -> (res: String)
        ensures
            res@ == "Task {\n    type: "@ + ty@ + ",\n    active: "@
                + (if self.state.active { "true"@ } else { "false"@ }) + ",\n    state: "@
                + (match self.state.state_type {
                TaskStateType::Scheduled => "Scheduled"@,
                TaskStateType::InProgress => "InProgress"@,
                TaskStateType::InProgressDirty => "InProgressDirty"@,
                TaskStateType::Done => "Done"@,
                TaskStateType::Dirty => "Dirty"@,
            }) + ",\n}"@,
            res@ == self.pretty_with(ty@),
    {
        let mut res: String = "Task {\n    type: ".to_owned();
        res.append(ty);
        res.append(",\n    active: ");
        res.append(if self.state.active { "true" } else { "false" });
        res.append(",\n    state: ");
        res.append(self.state.state_type.variant_str());
        res.append(",\n}");
        res
    }

    /// The `Debug` form of the task on several lines.
    pub fn pretty_string(&self) -> (res: String)
        ensures
            res@ == "Task {\n    type: "@ + (match self.ty {
                TaskType::Root(_) => "Root"@,
                TaskType::Once(_) => "Once"@,
                TaskType::Native(native_fn, _) => "Native("@ + ("\n"@ + "    "@ + "    "@)
                    + text::quotation(native_fn.name@) + ","@ + ("\n"@ + "    "@ + ")"@),
                TaskType::ResolveNative(native_fn) => "ResolveNative("@
                    + ("\n"@ + "    "@ + "    "@) + text::quotation(native_fn.name@) + ","@
                    + ("\n"@ + "    "@ + ")"@),
                TaskType::ResolveTrait(trait_type, name) => "ResolveTrait("@
                    + ("\n"@ + "    "@ + "    "@) + text::quotation(trait_type.name@) + ","@
                    + ("\n"@ + "    "@ + "    "@) + text::quotation(name@) + ","@
                    + ("\n"@ + "    "@ + ")"@),
            }) + ",\n    active: "@ + (if self.state.active { "true"@ } else { "false"@ })
                + ",\n    state: "@ + (match self.state.state_type {
                TaskStateType::Scheduled => "Scheduled"@,
                TaskStateType::InProgress => "InProgress"@,
                TaskStateType::InProgressDirty => "InProgressDirty"@,
                TaskStateType::Done => "Done"@,
                TaskStateType::Dirty => "Dirty"@,
            }) + ",\n}"@,
            res@ == self.pretty_with(self.ty.pretty("    "@)),
    {
        self.pretty_string_with(self.ty.pretty_string("    ").as_str())
    }

    /// What is to be printed after `count` dependencies of the task were cleared, where
    /// that has taken that many milliseconds, which are that many microseconds: a report,
    /// where there were many of them or it took long.
    pub fn report_cleared_dependencies(&self, count: usize, millis: u128, micros: u128) -> (res:
        Option<String>)
        ensures
            res is Some <==> millis >= 1 || count > 10000,
            millis >= 100 ==> res->0@ == "clear_dependencies("@ + text::decimal(count as nat)
                + ") took "@ + text::decimal(millis as nat) + " ms: "@ + self.debug(),
            millis < 100 && (millis >= 1 || count > 10000) ==> res->0@ == "clear_dependencies("@
                + text::decimal(count as nat) + ") took "@ + text::decimal(micros as nat)
                + " \u{b5}s: "@ + self.debug(),
            is_report(
                res,
                clearing_report(self.debug(), count as nat, millis as nat, micros as nat),
            ),
    {
        report_clearing(self.debug_string().as_str(), count, millis, micros)
    }
}

/// What is to be printed when `count` dependencies of the task whose `Debug` form is
/// `debug` were cleared, and that has taken that many milliseconds, which are that many
/// microseconds.
pub open spec fn clearing_report(
    debug: Seq<char>,
    count: nat,
    millis: nat,
    micros: nat,
) -> Option<Seq<char>> {
    let begin = "clear_dependencies("@ + text::decimal(count) + ") took "@;
    if millis >= 100 {
        Some(begin + text::decimal(millis) + " ms: "@ + debug)
    } else if millis >= 1 || count > 10000 {
        Some(begin + text::decimal(micros) + " \u{b5}s: "@ + debug)
    } else {
        None
    }
}

/// Whether `text` holds the report, or none where there is none.
pub open spec fn is_report(text: Option<String>, report: Option<Seq<char>>) -> bool {
    match text {
        Some(text) => report == Some(text@),
        None => report is None,
    }
}

/// What is to be printed after `count` dependencies of the task whose `Debug` form is
/// `debug` were cleared.
pub fn report_clearing(debug: &str, count: usize, millis: u128, micros: u128) -> (res: Option<
    String,
>)
    ensures
        res is Some <==> millis >= 1 || count > 10000,
        millis >= 100 ==> res->0@ == "clear_dependencies("@ + text::decimal(count as nat)
            + ") took "@ + text::decimal(millis as nat) + " ms: "@ + debug@,
        millis < 100 && (millis >= 1 || count > 10000) ==> res->0@ == "clear_dependencies("@
            + text::decimal(count as nat) + ") took "@ + text::decimal(micros as nat)
            + " \u{b5}s: "@ + debug@,
        is_report(res, clearing_report(debug@, count as nat, millis as nat, micros as nat)),
{
    let mut res: String = "clear_dependencies(".to_owned();
    res.append(text::decimal_text(count as u128).as_str());
    res.append(") took ");
    if millis >= 100 {
        res.append(text::decimal_text(millis).as_str());
        res.append(" ms: ");
        res.append(debug);
        Some(res)
    } else if millis >= 1 || count > 10000 {
        res.append(text::decimal_text(micros).as_str());
        res.append(" \u{b5}s: ");
        res.append(debug);
        Some(res)
    } else {
        None
    }
}

/// The tasks in a set, in some order.
pub(crate) fn list_of(set: &HashSet<TaskId>) -> (res: Vec<TaskId>)
    ensures
        res@.no_duplicates(),
        res@.to_set() == set@,
{
    let mut list: Vec<TaskId> = Vec::new();
    for task in it: set.iter()
        invariant
            it.seq().unref().to_set() == set@,
            it.seq().no_duplicates(),
            list@.len() == it.index(),
            forall|j: int| 0 <= j < list@.len() ==> list@[j] == *#[trigger] it.seq()[j],
            it.index() == it.seq().len() ==> list@ == it.seq().unref(),
    {
        list.push(*task);
    }
    list
}

/// The slots on which `handles` are handles.
pub fn slots_of(handles: &Vec<SlotHandle>) -> (res: Vec<SlotRef>)
    ensures
        forall|i: int| 0 <= i < handles@.len() && handles@[i].1 == 0
            ==> #[trigger] res@[i] == SlotRef::TaskOutput(handles@[i].0),
        forall|i: int| 0 <= i < handles@.len() && handles@[i].1 > 0
            ==> #[trigger] res@[i] == SlotRef::TaskCreated(handles@[i].0, (handles@[i].1 - 1) as usize),
        res@.len() == handles@.len(),
        forall|i: int|
            0 <= i < res@.len() ==> #[trigger] res@[i] == SlotRef::of_key(*handles@[i])
                && res@[i].of_task() && res@[i].key() == *handles@[i],
        handles@.no_duplicates() ==> res@.no_duplicates(),
{
    let mut slots: Vec<SlotRef> = Vec::new();
    let mut i: usize = 0;
    while i < handles.len()
        invariant
            i <= handles@.len(),
            slots@.len() == i,
            forall|j: int|
                0 <= j < i ==> #[trigger] slots@[j] == SlotRef::of_key(*handles@[j])
                    && slots@[j].of_task() && slots@[j].key() == *handles@[j],
        decreases handles@.len() - i,
    {
        slots.push(SlotRef::from_handle(&handles[i]));
        i += 1;
    }
    proof {
        if handles@.no_duplicates() {
            assert forall|j: int, k: int|
                0 <= j < k < slots@.len() implies slots@[j] != slots@[k] by {
                assert(slots@[j].key() == *handles@[j] && slots@[k].key() == *handles@[k]);
                assert(handles@[j] != handles@[k]);
            }
        }
    }
    slots
}

} // verus!

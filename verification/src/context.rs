//! What a running execution can do to its own task.
use vstd::prelude::*;

use crate::dependencies;
use crate::graph::TaskGraph;
use crate::laws;
use crate::locals::TaskLocals;
use crate::previous_nodes;
use crate::previous_nodes::{PreviousNodes, Request};
use crate::slot::{Slot, SlotRef, TaskId};
use crate::state::TaskStateType;
use crate::task::Task;
use crate::turbo_tasks::{JobView, TurboTasks};

verus! {

/// A means to make a task invalid later, from outside of its execution.
pub struct Invalidator {
    task: Option<TaskId>,
}

impl Invalidator {
    /// The task that is made invalid.
    pub closed spec fn task(self) -> Option<TaskId> {
        self.task
    }

    /// Whether there is a task that can be made invalid.
    pub open spec fn reaches<F, O>(self, tasks: Seq<Task<F, O>>) -> bool {
        self.task() matches Some(task) && task < tasks.len()
    }

    /// Makes the task invalid, if there is one and it exists. Gives the slots from whose
    /// dependents the task is to be removed.
    pub fn invalidate<F, O>(self, graph: &mut TaskGraph<F, O>, turbo_tasks: &mut TurboTasks) -> (res:
        Vec<SlotRef>)
        ensures
            final(graph).tasks@.len() == old(graph).tasks@.len(),
            forall|i: int|
                0 <= i < old(graph).tasks@.len() && self.task() != Some(i as TaskId)
                    ==> #[trigger] final(graph).tasks@[i] == old(graph).tasks@[i],
            self.task() is None || self.task()->0 >= old(graph).tasks@.len() ==> final(
                graph).tasks@ == old(graph).tasks@ && final(turbo_tasks)@ == old(turbo_tasks)@
                && res@.len() == 0,
            self.task() is Some && self.task()->0 < old(graph).tasks@.len() ==> ({
                let task = old(graph).tasks@[self.task()->0 as int];
                let then = final(graph).tasks@[self.task()->0 as int];
                let jobs = old(turbo_tasks)@;
                let state_type = task.state.state_type;
                &&& then.inputs == task.inputs
                &&& then.ty == task.ty
                &&& then.active_parents == task.active_parents
                &&& then.execution_data.previous_nodes == task.execution_data.previous_nodes
                &&& then.state.active == task.state.active
                &&& then.state.children == task.state.children
                &&& then.state.output_slot == task.state.output_slot
                &&& then.state.created_slots == task.state.created_slots
                &&& then.state.event == task.state.event
                &&& then.state.executions == task.state.executions
                &&& dependencies::recorded(&then.execution_data.dependencies) == Set::<
                    (usize, usize),
                >::empty()
                &&& state_type == TaskStateType::Done && task.state.active
                    ==> then.state.state_type == TaskStateType::Scheduled && final(turbo_tasks)@
                    == jobs.push(JobView::Schedule(self.task()->0))
                &&& state_type == TaskStateType::Done && !task.state.active
                    ==> then.state.state_type == TaskStateType::Dirty && final(turbo_tasks)@ == jobs
                &&& state_type == TaskStateType::InProgress ==> then.state.state_type
                    == TaskStateType::InProgressDirty && final(turbo_tasks)@ == jobs
                &&& state_type != TaskStateType::Done && state_type != TaskStateType::InProgress
                    ==> then.state.state_type == state_type && final(turbo_tasks)@ == jobs
            }),
            !self.reaches(old(graph).tasks@) ==> final(graph).tasks@ == old(graph).tasks@ && final(
                turbo_tasks)@ == old(turbo_tasks)@ && res@.len() == 0,
            self.reaches(old(graph).tasks@) ==> final(graph).tasks@ == old(graph).tasks@.update(
                self.task()->0 as int,
                old(graph).tasks@[self.task()->0 as int].made_dirty(
                    final(graph).tasks@[self.task()->0 as int].execution_data.dependencies,
                ),
            ),
            self.reaches(old(graph).tasks@) ==> dependencies::recorded(
                &final(graph).tasks@[self.task()->0 as int].execution_data.dependencies,
            ).is_empty(),
            self.reaches(old(graph).tasks@) ==> final(turbo_tasks)@
                == old(graph).tasks@[self.task()->0 as int].jobs_made_dirty(
                self.task()->0,
                old(turbo_tasks)@,
            ),
            res@.no_duplicates(),
            self.reaches(old(graph).tasks@) ==> forall|i: int|
                0 <= i < res@.len() ==> old(graph).tasks@[self.task()->0 as int].depends_on(
                    #[trigger] res@[i],
                ),
            old(graph).wf() ==> final(graph).wf(),
    {
        if let Some(task) = self.task {
            if task < graph.tasks.len() {
                let slots: Vec<SlotRef> = graph.tasks[task].invaldate(task, turbo_tasks);
                proof {
                    let t = task as int;
                    assert(graph.tasks@ =~= old(graph).tasks@.update(t, graph.tasks@[t]));
                    if old(graph).wf() {
                        laws::law_change_of_one_task_keeps_soundness(
                            old(graph).tasks@,
                            t,
                            graph.tasks@[t],
                        );
                    }
                }
                return slots;
            }
        }
        Vec::new()
    }
}

impl<F, O> Task<F, O> {
    /// A means to make the task that is executed invalid later. Outside of an execution
    /// it does nothing.
    pub fn get_invalidator(locals: &TaskLocals) -> (res: Invalidator)
        ensures
            res.task() == locals.current_task,
    {
        Invalidator { task: Self::current(locals) }
    }

    /// Whether the slots that earlier executions have created are those that the task has.
    pub open spec fn nodes_fit(self, nodes: PreviousNodes) -> bool {
        nodes.fits(self.state.created_slots@.len())
    }
}

/// Whether `slot` is the slot number `index` of `slots`, or a new one where there is none
/// of that number.
pub open spec fn is_slot(slots: Seq<Slot>, index: usize, slot: Slot) -> bool {
    if index < slots.len() {
        slot == slots[index as int]
    } else {
        slot.is_new()
    }
}

/// Whether `after` are `slots` with another slot number `index`, which may be one more
/// than there were.
pub open spec fn one_slot_changed(slots: Seq<Slot>, index: usize, after: Seq<Slot>) -> bool {
    &&& index < after.len()
    &&& after.len() == if index < slots.len() {
        slots.len()
    } else {
        slots.len() + 1
    }
    &&& forall|j: int| 0 <= j < slots.len() && j != index ==> #[trigger] after[j] == slots[j]
}

/// Whether `functor` can be called with that slot.
pub open spec fn callable<C: FnOnce(&mut Slot)>(functor: C, slots: Seq<Slot>, index: usize) -> bool {
    forall|slot: &mut Slot| is_slot(slots, index, *slot) ==> #[trigger] functor.requires((slot,))
}

/// The slots that the task that is executed has created.
pub open spec fn current_slots<F, O>(locals: TaskLocals, tasks: Seq<Task<F, O>>) -> Seq<Slot> {
    tasks[locals.current_task->0 as int].state.created_slots@
}

/// Whether the task that is executed, which is one of `tasks`, can be asked for the slot
/// of a request.
pub open spec fn can_request<F, O>(locals: TaskLocals, tasks: Seq<Task<F, O>>) -> bool {
    &&& locals.current_task is Some
    &&& locals.current_task->0 < tasks.len()
    &&& tasks[locals.current_task->0 as int].nodes_fit(locals.previous_nodes@)
}

/// The slot for a request of the task that is executed.
pub open spec fn requested<F, O>(
    locals: TaskLocals,
    tasks: Seq<Task<F, O>>,
    request: Request,
) -> usize {
    locals.previous_nodes@.slot_for(
        request,
        tasks[locals.current_task->0 as int].state.created_slots@.len() as usize,
    )
}

/// Whether a request of the task that is executed makes `locals` and `tasks` these.
pub open spec fn answered<F, O>(
    locals: TaskLocals,
    tasks: Seq<Task<F, O>>,
    request: Request,
    then_locals: TaskLocals,
    then: Seq<Task<F, O>>,
) -> bool {
    let t = locals.current_task->0 as int;
    let slots = tasks[t].state.created_slots@;
    &&& then_locals == locals.with_previous_nodes(then_locals.previous_nodes)
    &&& then_locals.previous_nodes@ == locals.previous_nodes@.after(request, slots.len() as usize)
    &&& then.len() == tasks.len()
    &&& then == tasks.update(
        t,
        tasks[t].with_state(tasks[t].state.with_created_slots(then[t].state.created_slots)),
    )
    &&& one_slot_changed(slots, requested(locals, tasks, request), then[t].state.created_slots@)
    &&& then[t].state.created_slots@.len() == locals.previous_nodes@.slots_after(
        request,
        slots.len() as usize,
    )
}

/// A functor can be called with a slot where it takes every slot that it can be: the one of
/// that number, or, where there is none, any that is linked to nothing and has given no
/// handle.
pub proof fn law_functor_takes_the_slot<C: FnOnce(&mut Slot)>(
    functor: C,
    slots: Seq<Slot>,
    index: usize,
    slot: Slot,
)
    ensures
        index < slots.len() ==> (is_slot(slots, index, slot) <==> slot == slots[index as int]),
        index >= slots.len() ==> (is_slot(slots, index, slot) <==> slot.target() is None
            && slot.held() is None),
        (forall|taken: &mut Slot| #[trigger] functor.requires((taken,))) ==> callable(
            functor,
            slots,
            index,
        ),
        callable(functor, slots, index) ==> forall|taken: &mut Slot|
            is_slot(slots, index, *taken) ==> #[trigger] functor.requires((taken,)),
{
}

/// An execution of a task of the graph can ask for slots, where the slots that it knows of
/// are slots of the task.
pub proof fn law_execution_can_request<F, O>(locals: TaskLocals, tasks: Seq<Task<F, O>>, t: TaskId)
    requires
        locals.current_task == Some(t),
        t < tasks.len(),
    ensures
        can_request(locals, tasks) <==> locals.previous_nodes@.fits(
            tasks[t as int].state.created_slots@.len(),
        ),
        locals.previous_nodes@ == PreviousNodes::empty() ==> can_request(locals, tasks),
{
}

/// An invalidator reaches its task wherever the task exists, whatever its state, its type
/// and its activity.
pub proof fn law_invalidator_reaches_every_task<F, O>(
    invalidator: Invalidator,
    tasks: Seq<Task<F, O>>,
    t: TaskId,
)
    requires
        invalidator.task() == Some(t),
    ensures
        invalidator.reaches(tasks) <==> t < tasks.len(),
{
}

/// The slot of the task that is executed for the key `key`, after `functor` was called
/// with it. It is the slot that the key has got before, in this execution or an earlier
/// one, or a new one.
pub fn match_previous_node_by_key<F, O, C: FnOnce(&mut Slot)>(
    locals: &mut TaskLocals,
    graph: &mut TaskGraph<F, O>,
    key: u64,
    functor: C,
) -> (res: SlotRef)
    requires
        can_request(*old(locals), old(graph).tasks@),
        callable(
            functor,
            current_slots(*old(locals), old(graph).tasks@),
            requested(*old(locals), old(graph).tasks@, Request::Key(key)),
        ),
    ensures
        final(locals).current_task == old(locals).current_task,
        final(graph).tasks@.len() == old(graph).tasks@.len(),
        forall|i: int|
            0 <= i < old(graph).tasks@.len() && i != old(locals).current_task->0
                ==> #[trigger] final(graph).tasks@[i] == old(graph).tasks@[i],
        ({
            let current = old(locals).current_task->0;
            let task = old(graph).tasks@[current as int];
            let then = final(graph).tasks@[current as int];
            let slots = task.state.created_slots@;
            let slots_then = then.state.created_slots@;
            let nodes = old(locals).previous_nodes@;
            let nodes_then = final(locals).previous_nodes@;
            let new = slots.len() as usize;
            let index = res->TaskCreated_1;
            &&& res == SlotRef::TaskCreated(current, index)
            &&& forall|j: int|
                0 <= j < slots.len() && j != index ==> #[trigger] slots_then[j] == slots[j]
            &&& slots_then.len() == if index < slots.len() {
                slots.len()
            } else {
                slots.len() + 1
            }
            &&& then.inputs == task.inputs
            &&& then.ty == task.ty
            &&& then.active_parents == task.active_parents
            &&& then.execution_data.dependencies == task.execution_data.dependencies
            &&& then.execution_data.previous_nodes == task.execution_data.previous_nodes
            &&& then.state.active == task.state.active
            &&& then.state.state_type == task.state.state_type
            &&& then.state.children == task.state.children
            &&& then.state.output_slot == task.state.output_slot
            &&& then.state.event == task.state.event
            &&& then.state.executions == task.state.executions
            &&& nodes_then.by_type == nodes.by_type
            &&& nodes_then.by_key == nodes.by_key.insert(key, index)
            &&& nodes.by_key.contains_key(key) ==> index == nodes.by_key[key] && index < slots.len()
            &&& !nodes.by_key.contains_key(key) ==> index == new
        }),
        res == SlotRef::TaskCreated(
            old(locals).current_task->0,
            requested(*old(locals), old(graph).tasks@, Request::Key(key)),
        ),
        answered(
            *old(locals),
            old(graph).tasks@,
            Request::Key(key),
            *final(locals),
            final(graph).tasks@,
        ),
        can_request(*final(locals), final(graph).tasks@),
        exists|slot: &mut Slot|
            is_slot(
                current_slots(*old(locals), old(graph).tasks@),
                requested(*old(locals), old(graph).tasks@, Request::Key(key)),
                *slot,
            ) && *final(slot) == current_slots(
                *old(locals),
                final(graph).tasks@,
            )[requested(*old(locals), old(graph).tasks@, Request::Key(key)) as int]
                && #[trigger] functor.ensures((slot,), ()),
        old(graph).wf() ==> final(graph).wf(),
{
    let task: TaskId = locals.current_task.unwrap();
    let ghost t = task as int;
    let ghost tasks = graph.tasks@;
    let slots: usize = graph.tasks[task].state.created_slots.len();
    let index: usize = locals.previous_nodes.next_of_key(key, slots);
    if index == slots {
        graph.tasks[task].state.created_slots.push(Slot::new());
    }
    proof {
        if old(locals).previous_nodes@.by_key.contains_key(key) {
            assert(index < slots);
        }
        let now = graph.tasks@[t].state.created_slots;
        assert(now.len() <= usize::MAX);
        assert(index < now@.len());
        assert(is_slot(tasks[t].state.created_slots@, index, now@[index as int]));
    }
    functor(&mut graph.tasks[task].state.created_slots[index]);
    proof {
        assert(graph.tasks@ =~= tasks.update(t, graph.tasks@[t]));
        assert(one_slot_changed(
            tasks[t].state.created_slots@,
            index,
            graph.tasks@[t].state.created_slots@,
        ));
        if old(graph).wf() {
            laws::law_change_of_one_task_keeps_soundness(tasks, t, graph.tasks@[t]);
        }
    }
    SlotRef::TaskCreated(task, index)
}

/// The slot of the task that is executed for the next request for the type `type_id`,
/// after `functor` was called with it. It is the slot that the same request, counted from
/// the beginning of the execution, has got in an earlier execution, or a new one.
pub fn match_previous_node_by_type<F, O, C: FnOnce(&mut Slot)>(
    locals: &mut TaskLocals,
    graph: &mut TaskGraph<F, O>,
    type_id: u64,
    functor: C,
) -> (res: SlotRef)
    requires
        can_request(*old(locals), old(graph).tasks@),
        callable(
            functor,
            current_slots(*old(locals), old(graph).tasks@),
            requested(*old(locals), old(graph).tasks@, Request::Type(type_id)),
        ),
    ensures
        final(locals).current_task == old(locals).current_task,
        final(graph).tasks@.len() == old(graph).tasks@.len(),
        forall|i: int|
            0 <= i < old(graph).tasks@.len() && i != old(locals).current_task->0
                ==> #[trigger] final(graph).tasks@[i] == old(graph).tasks@[i],
        ({
            let current = old(locals).current_task->0;
            let task = old(graph).tasks@[current as int];
            let then = final(graph).tasks@[current as int];
            let slots = task.state.created_slots@;
            let slots_then = then.state.created_slots@;
            let nodes = old(locals).previous_nodes@;
            let nodes_then = final(locals).previous_nodes@;
            let new = slots.len() as usize;
            let index = res->TaskCreated_1;
            &&& res == SlotRef::TaskCreated(current, index)
            &&& forall|j: int|
                0 <= j < slots.len() && j != index ==> #[trigger] slots_then[j] == slots[j]
            &&& slots_then.len() == if index < slots.len() {
                slots.len()
            } else {
                slots.len() + 1
            }
            &&& then.inputs == task.inputs
            &&& then.ty == task.ty
            &&& then.active_parents == task.active_parents
            &&& then.execution_data.dependencies == task.execution_data.dependencies
            &&& then.execution_data.previous_nodes == task.execution_data.previous_nodes
            &&& then.state.active == task.state.active
            &&& then.state.state_type == task.state.state_type
            &&& then.state.children == task.state.children
            &&& then.state.output_slot == task.state.output_slot
            &&& then.state.event == task.state.event
            &&& then.state.executions == task.state.executions
            &&& nodes_then.by_key == nodes.by_key
            &&& !nodes.by_type.contains_key(type_id) ==> index == new && nodes_then.by_type
                == nodes.by_type.insert(type_id, (1usize, seq![new]))
            &&& nodes.by_type.contains_key(type_id) ==> ({
                let (next, list) = nodes.by_type[type_id];
                &&& next < list.len() ==> index == list[next as int] && index < slots.len()
                    && nodes_then.by_type == nodes.by_type.insert(
                    type_id,
                    ((next + 1) as usize, list),
                )
                &&& next >= list.len() ==> index == new && nodes_then.by_type
                    == nodes.by_type.insert(type_id, ((next + 1) as usize, list.push(new)))
            })
        }),
        res == SlotRef::TaskCreated(
            old(locals).current_task->0,
            requested(*old(locals), old(graph).tasks@, Request::Type(type_id)),
        ),
        answered(
            *old(locals),
            old(graph).tasks@,
            Request::Type(type_id),
            *final(locals),
            final(graph).tasks@,
        ),
        can_request(*final(locals), final(graph).tasks@),
        exists|slot: &mut Slot|
            is_slot(
                current_slots(*old(locals), old(graph).tasks@),
                requested(*old(locals), old(graph).tasks@, Request::Type(type_id)),
                *slot,
            ) && *final(slot) == current_slots(
                *old(locals),
                final(graph).tasks@,
            )[requested(*old(locals), old(graph).tasks@, Request::Type(type_id)) as int]
                && #[trigger] functor.ensures((slot,), ()),
        old(graph).wf() ==> final(graph).wf(),
{
    let task: TaskId = locals.current_task.unwrap();
    let ghost t = task as int;
    let ghost tasks = graph.tasks@;
    let slots: usize = graph.tasks[task].state.created_slots.len();
    let index: usize = locals.previous_nodes.next_of_type(type_id, slots);
    if index == slots {
        graph.tasks[task].state.created_slots.push(Slot::new());
    }
    proof {
        let nodes = old(locals).previous_nodes@;
        let (next, list) = nodes.of_type(type_id);
        if next < list.len() {
            assert(nodes.by_type.contains_key(type_id));
            assert(nodes.by_type[type_id].1[next as int] < slots);
        }
        let now = graph.tasks@[t].state.created_slots;
        assert(now.len() <= usize::MAX);
        assert(index < now@.len());
        assert(is_slot(tasks[t].state.created_slots@, index, now@[index as int]));
    }
    functor(&mut graph.tasks[task].state.created_slots[index]);
    proof {
        assert(graph.tasks@ =~= tasks.update(t, graph.tasks@[t]));
        assert(one_slot_changed(
            tasks[t].state.created_slots@,
            index,
            graph.tasks@[t].state.created_slots@,
        ));
        if old(graph).wf() {
            laws::law_change_of_one_task_keeps_soundness(tasks, t, graph.tasks@[t]);
        }
    }
    SlotRef::TaskCreated(task, index)
}

/// Whether the requests are answered one after the other, `locals` and `states` being what
/// the locals and the tasks are before the first one and after each.
pub open spec fn all_answered<F, O>(
    locals: Seq<TaskLocals>,
    states: Seq<Seq<Task<F, O>>>,
    requests: Seq<Request>,
) -> bool {
    &&& locals.len() == requests.len() + 1
    &&& states.len() == requests.len() + 1
    &&& forall|k: int|
        0 <= k < requests.len() ==> answered(
            #[trigger] locals[k],
            states[k],
            requests[k],
            locals[k + 1],
            states[k + 1],
        )
}

/// Requests that are answered one after the other make an execution: it says which slot
/// each of them gets, what is known at the end, and how many slots the task then has.
pub proof fn law_answers_make_an_execution<F, O>(
    locals: Seq<TaskLocals>,
    states: Seq<Seq<Task<F, O>>>,
    requests: Seq<Request>,
)
    requires
        all_answered(locals, states, requests),
        forall|k: int|
            0 <= k < states.len() ==> (#[trigger] states[k]).len() > locals[0].current_task->0
                && current_slots(locals[0], states[k]).len() <= usize::MAX,
    ensures
        ({
            let e = previous_nodes::execution(
                locals[0].previous_nodes@,
                current_slots(locals[0], states[0]).len() as usize,
                requests,
            );
            &&& locals.last().current_task == locals[0].current_task
            &&& locals.last().previous_nodes@ == e.0
            &&& current_slots(locals[0], states.last()).len() == e.1
            &&& e.2.len() == requests.len()
            &&& forall|k: int|
                0 <= k < requests.len() ==> #[trigger] e.2[k] == requested(
                    locals[k],
                    states[k],
                    requests[k],
                )
        }),
    decreases requests.len(),
{
    if requests.len() > 0 {
        let rest_locals = locals.drop_first();
        let rest_states = states.drop_first();
        let rest = requests.drop_first();
        assert(answered(locals[0], states[0], requests[0], locals[1], states[1]));
        assert forall|k: int| 0 <= k < rest.len() implies answered(
            #[trigger] rest_locals[k],
            rest_states[k],
            rest[k],
            rest_locals[k + 1],
            rest_states[k + 1],
        ) by {
            assert(answered(
                locals[k + 1],
                states[k + 1],
                requests[k + 1],
                locals[k + 2],
                states[k + 2],
            ));
        }
        assert forall|k: int| 0 <= k < rest_states.len() implies (
        #[trigger] rest_states[k]).len() > rest_locals[0].current_task->0 && current_slots(
            rest_locals[0],
            rest_states[k],
        ).len() <= usize::MAX by {
            assert(states[k + 1].len() > locals[0].current_task->0);
        }
        assert(states[0].len() > locals[0].current_task->0);
        law_answers_make_an_execution(rest_locals, rest_states, rest);
        let slots = current_slots(locals[0], states[0]).len() as usize;
        let e = previous_nodes::execution(locals[0].previous_nodes@, slots, requests);
        let d = previous_nodes::execution(
            rest_locals[0].previous_nodes@,
            current_slots(rest_locals[0], rest_states[0]).len() as usize,
            rest,
        );
        assert forall|k: int| 0 <= k < requests.len() implies #[trigger] e.2[k] == requested(
            locals[k],
            states[k],
            requests[k],
        ) by {
            if k > 0 {
                assert(e.2[k] == d.2[k - 1]);
                assert(rest_locals[k - 1] == locals[k]);
                assert(rest_states[k - 1] == states[k]);
                assert(rest[k - 1] == requests[k]);
            }
        }
    }
}

/// What a task knew of its slots before an execution it knows after it, together with what
/// the execution has asked for. The execution begins with what the task knew, and what it
/// knows at its end goes back to the task.
pub proof fn law_execution_extends_what_the_task_knew<F, O>(
    task: Task<F, O>,
    locals: Seq<TaskLocals>,
    states: Seq<Seq<Task<F, O>>>,
    requests: Seq<Request>,
    ended: Task<F, O>,
)
    requires
        all_answered(locals, states, requests),
        forall|k: int|
            0 <= k < states.len() ==> (#[trigger] states[k]).len() > locals[0].current_task->0
                && current_slots(locals[0], states[k]).len() <= usize::MAX,
        current_slots(locals[0], states[0]).len() + requests.len() <= usize::MAX,
        locals[0].previous_nodes@ == task.execution_data.previous_nodes@.rewound(),
        ended.execution_data.previous_nodes == locals.last().previous_nodes,
    ensures
        previous_nodes::extends(
            task.execution_data.previous_nodes@,
            ended.execution_data.previous_nodes@,
        ),
{
    law_answers_make_an_execution(locals, states, requests);
    previous_nodes::law_execution_extends_what_was_known(
        task.execution_data.previous_nodes@,
        current_slots(locals[0], states[0]).len() as usize,
        requests,
    );
}

} // verus!

//! All tasks, and the operations that concern more than one of them.
use std::collections::HashSet;
use vstd::prelude::*;

use crate::dependencies;
use crate::laws;
use crate::links;
use crate::slot::{SlotHandle, SlotRef, TaskId};
use crate::state::TaskStateType;
use crate::task::{list_of, Task};
use crate::turbo_tasks;
use crate::turbo_tasks::{JobView, TurboTasks};

verus! {

broadcast use vstd::std_specs::hash::group_hash_axioms;

/// All tasks. A task is known by its place among them.
pub struct TaskGraph<F, O> {
    pub tasks: Vec<Task<F, O>>,
}

/// Whether the slot of `node` is linked in `after` as it is in `tasks` and holds a handle
/// on itself, and the other slots of its task are the same.
pub open spec fn slot_handled<F, O>(
    tasks: Seq<Task<F, O>>,
    after: Seq<Task<F, O>>,
    node: SlotRef,
) -> bool {
    match node {
        SlotRef::TaskOutput(owner) => {
            let slot = tasks[owner as int].state.output_slot;
            let slot_after = after[owner as int].state.output_slot;
            &&& slot_after.target() == slot.target()
            &&& slot_after.held() == Some(node.key())
        },
        SlotRef::TaskCreated(owner, index) => {
            let slots = tasks[owner as int].state.created_slots@;
            let slots_after = after[owner as int].state.created_slots@;
            &&& slots_after == slots.update(index as int, slots_after[index as int])
            &&& slots_after[index as int].target() == slots[index as int].target()
            &&& slots_after[index as int].held() == Some(node.key())
        },
        SlotRef::Value(_) => true,
    }
}

impl<F, O> TaskGraph<F, O> {
    /// Whether a task of the graph owns the slot of `node`.
    pub open spec fn has_slot(self, node: SlotRef) -> bool {
        match node {
            SlotRef::TaskOutput(owner) => owner < self.tasks@.len(),
            SlotRef::TaskCreated(owner, index) => owner < self.tasks@.len() && index
                < self.tasks@[owner as int].state.created_slots@.len(),
            SlotRef::Value(_) => false,
        }
    }

    /// The tasks with the slot of `node` as it is in `after`.
    pub open spec fn with_handle(self, node: SlotRef, after: Seq<Task<F, O>>) -> Seq<Task<F, O>> {
        match node {
            SlotRef::TaskOutput(owner) => self.tasks@.update(
                owner as int,
                self.tasks@[owner as int].with_state(
                    self.tasks@[owner as int].state.with_output_slot(
                        after[owner as int].state.output_slot,
                    ),
                ),
            ),
            SlotRef::TaskCreated(owner, _) => self.tasks@.update(
                owner as int,
                self.tasks@[owner as int].with_state(
                    self.tasks@[owner as int].state.with_created_slots(
                        after[owner as int].state.created_slots,
                    ),
                ),
            ),
            SlotRef::Value(_) => self.tasks@,
        }
    }

    /// What always holds.
    pub open spec fn wf(self) -> bool {
        links::sound(self.tasks@)
    }

    pub fn new() -> (res: TaskGraph<F, O>)
        ensures
            res.wf(),
            res.tasks@.len() == 0,
    {
        TaskGraph { tasks: Vec::new() }
    }

    /// Adds a new task.
    pub fn add_task(&mut self, task: Task<F, O>) -> (res: TaskId)
        requires
            old(self).wf(),
            task.is_idle() || task.is_top(),
        ensures
            final(self).wf(),
            res == old(self).tasks@.len(),
            final(self).tasks@ == old(self).tasks@.push(task),
    {
        let id: TaskId = self.tasks.len();
        proof {
            links::lemma_new_task_keeps(self.tasks@, task);
        }
        self.tasks.push(task);
        id
    }

    /// Makes task `child` a child of task `parent`. Where the parent is active the child
    /// counts it, and is activated where it is the first one.
    pub fn connect_parent(&mut self, child: TaskId, parent: TaskId, turbo_tasks: &mut TurboTasks)
        requires
            old(self).wf(),
            child < old(self).tasks@.len(),
            parent < old(self).tasks@.len(),
            links::is_child(old(self).tasks@, parent as int, child as int) || links::load(
                old(self).tasks@,
                child as int,
            ) < u32::MAX,
        ensures
            final(self).tasks@.len() == old(self).tasks@.len(),
            forall|i: int|
                0 <= i < old(self).tasks@.len() ==> ({
                    let before = old(self).tasks@[i];
                    let then = #[trigger] final(self).tasks@[i];
                    &&& then.inputs == before.inputs
                    &&& then.ty == before.ty
                    &&& then.execution_data.dependencies == before.execution_data.dependencies
                    &&& then.execution_data.previous_nodes == before.execution_data.previous_nodes
                    &&& then.state.output_slot == before.state.output_slot
                    &&& then.state.created_slots == before.state.created_slots
                    &&& then.state.event == before.state.event
                    &&& then.state.executions == before.state.executions
                }),
            final(self).wf(),
            final(self).tasks@.len() == old(self).tasks@.len(),
            final(self).tasks@[parent as int].state.children@
                == old(self).tasks@[parent as int].state.children@.insert(child),
            links::connected(
                old(self).tasks@,
                final(self).tasks@,
                child as int,
                parent as int,
                final(self).tasks@[parent as int].state.children,
                old(turbo_tasks)@,
                final(turbo_tasks)@,
            ),
    {
        let ghost tasks = self.tasks@;
        assert(self.tasks.len() <= usize::MAX);
        let is_new: bool = self.tasks[parent].state.children.insert(child);
        let ghost children = self.tasks@[parent as int].state.children;
        let ghost linked = links::with_children(tasks, parent as int, children);
        proof {
            assert(self.tasks@ =~= linked);
            links::lemma_new_child_keeps(tasks, parent as int, child as int, children);
        }
        if is_new {
            let active: bool = self.tasks[parent].state.active;
            if active {
                let active_parents: u32 = self.tasks[child].active_parents;
                self.tasks[child].active_parents = active_parents + 1;
                let ghost counted = links::with_parent_counted(linked, child as int);
                proof {
                    assert(self.tasks@ =~= counted);
                    assert forall|i: int|
                        0 <= i < counted.len() && i != child && (
                        #[trigger] counted[i]).active_parents > 0 implies counted[i].state.active by {
                        assert(tasks[i].active_parents > 0);
                    }
                    links::lemma_activation_keeps(counted, child as int);
                }
                if active_parents == 0 {
                    self.activate(child, turbo_tasks);
                } else {
                    proof {
                        assert(tasks[child as int].state.active);
                        links::lemma_nothing_woken(counted, child as int);
                        assert(links::lists_dirty(
                            counted,
                            child as int,
                            Set::empty(),
                            Seq::empty(),
                        ));
                        assert(turbo_tasks@ =~= turbo_tasks@ + links::schedules(Seq::empty()));
                    }
                }
                proof {
                    assert(self.tasks@[parent as int].state.children == children);
                }
            }
        }
    }

    /// Begins an execution of a task, if it is active and scheduled. The children from
    /// the execution before it are given away for removal, and can be removed.
    pub fn execution_started(&mut self, task: TaskId, turbo_tasks: &mut TurboTasks) -> (res: bool)
        requires
            old(self).wf(),
            task < old(self).tasks@.len(),
            old(self).tasks@[task as int].state.active && old(
                self).tasks@[task as int].state.state_type == TaskStateType::Scheduled ==> old(
                self).tasks@[task as int].state.executions < u32::MAX,
        ensures
            final(self).tasks@.len() == old(self).tasks@.len(),
            forall|i: int|
                0 <= i < old(self).tasks@.len() && i != task ==> #[trigger] final(self).tasks@[i]
                    == old(self).tasks@[i],
            ({
                let before = old(self).tasks@[task as int];
                let then = final(self).tasks@[task as int];
                let jobs = old(turbo_tasks)@;
                &&& res == (before.state.active && before.state.state_type
                    == TaskStateType::Scheduled)
                &&& !res ==> then == before && final(turbo_tasks)@ == jobs
                &&& res ==> then.state.state_type == TaskStateType::InProgress
                    && then.state.executions == before.state.executions + 1
                    && then.state.children@ == Set::<TaskId>::empty()
                &&& res && before.state.children@ == Set::<TaskId>::empty() ==> final(
                    turbo_tasks)@ == jobs
                &&& res && before.state.children@ != Set::<TaskId>::empty() ==> final(
                    turbo_tasks)@ == jobs.push(JobView::RemoveTasks(before.state.children@))
                &&& then.inputs == before.inputs
                &&& then.ty == before.ty
                &&& then.active_parents == before.active_parents
                &&& then.execution_data.dependencies == before.execution_data.dependencies
                &&& then.execution_data.previous_nodes == before.execution_data.previous_nodes
                &&& then.state.active == before.state.active
                &&& then.state.output_slot == before.state.output_slot
                &&& then.state.created_slots == before.state.created_slots
                &&& then.state.event == before.state.event
            }),
            final(self).wf(),
            res == old(self).tasks@[task as int].startable(),
            !res ==> final(self).tasks@ == old(self).tasks@,
            res ==> final(self).tasks@ == old(self).tasks@.update(
                task as int,
                old(self).tasks@[task as int].with_state(
                    old(self).tasks@[task as int].state.started(
                        final(self).tasks@[task as int].state.children,
                    ),
                ),
            ),
            res ==> final(self).tasks@[task as int].state.children@ == Set::<TaskId>::empty(),
            final(turbo_tasks)@ == turbo_tasks::with_job_if(
                old(turbo_tasks)@,
                res && !old(self).tasks@[task as int].state.children@.is_empty(),
                JobView::RemoveTasks(old(self).tasks@[task as int].state.children@),
            ),
            res ==> links::covered(
                final(self).tasks@,
                links::children_of(old(self).tasks@, task as int),
            ),
    {
        let ghost tasks = self.tasks@;
        let started: bool = self.tasks[task].execution_started(turbo_tasks);
        proof {
            assert(self.tasks@ =~= tasks.update(task as int, self.tasks@[task as int]));
            if started {
                links::lemma_started_keeps(tasks, task as int, self.tasks@);
            } else {
                assert(self.tasks@ =~= tasks);
            }
        }
        started
    }

    /// Takes an active parent away from each of `tasks`, and deactivates those that have
    /// none left.
    pub fn remove_tasks(&mut self, tasks: HashSet<TaskId>, turbo_tasks: &mut TurboTasks)
        requires
            old(self).wf(),
            forall|task: TaskId| #[trigger] tasks@.contains(task) ==> task < old(self).tasks@.len(),
            links::covered(old(self).tasks@, links::members(tasks@)),
        ensures
            final(self).tasks@.len() == old(self).tasks@.len(),
            forall|i: int|
                0 <= i < old(self).tasks@.len() ==> ({
                    let before = old(self).tasks@[i];
                    let then = #[trigger] final(self).tasks@[i];
                    &&& then.inputs == before.inputs
                    &&& then.ty == before.ty
                    &&& then.execution_data.dependencies == before.execution_data.dependencies
                    &&& then.execution_data.previous_nodes == before.execution_data.previous_nodes
                    &&& then.state.state_type == before.state.state_type
                    &&& then.state.children == before.state.children
                    &&& then.state.output_slot == before.state.output_slot
                    &&& then.state.created_slots == before.state.created_slots
                    &&& then.state.event == before.state.event
                    &&& then.state.executions == before.state.executions
                }),
            final(self).wf(),
            exists|count: nat| #[trigger]
                links::shuts_down(
                    old(self).tasks@,
                    final(self).tasks@,
                    links::members(tasks@),
                    Set::empty(),
                    1,
                    old(turbo_tasks)@,
                    final(turbo_tasks)@,
                    count,
                ),
    {
        let list: Vec<TaskId> = list_of(&tasks);
        proof {
            links::lemma_members(tasks@, list@);
        }
        let count: usize = self.release(&list, 1, turbo_tasks);
        proof {
            let (levels, lists) = choose|levels: Map<int, nat>, lists: Seq<Seq<TaskId>>| #[trigger]
                links::shutdown(
                    old(self).tasks@,
                    self.tasks@,
                    links::as_set(list@),
                    Set::empty(),
                    1,
                    levels,
                    lists,
                ) && turbo_tasks@ == old(turbo_tasks)@ + links::deactivations(lists) && count
                    == levels.dom().len();
            links::lemma_shutdown_keeps(
                old(self).tasks@,
                self.tasks@,
                links::as_set(list@),
                Set::empty(),
                1,
                levels,
                lists,
                links::as_set(list@),
            );
            assert(links::as_set(list@).difference(links::as_set(list@)) =~= Set::<int>::empty());
            assert(links::shuts_down(
                old(self).tasks@,
                self.tasks@,
                links::members(tasks@),
                Set::empty(),
                1,
                old(turbo_tasks)@,
                turbo_tasks@,
                count as nat,
            ));
        }
    }

    /// Deactivates those of `tasks` that are active and count no active parent.
    pub fn deactivate_tasks(&mut self, tasks: Vec<TaskId>, turbo_tasks: &mut TurboTasks)
        requires
            old(self).wf(),
            forall|j: int| 0 <= j < tasks@.len() ==> #[trigger] tasks@[j] < old(self).tasks@.len(),
        ensures
            final(self).tasks@.len() == old(self).tasks@.len(),
            forall|i: int|
                0 <= i < old(self).tasks@.len() ==> ({
                    let before = old(self).tasks@[i];
                    let then = #[trigger] final(self).tasks@[i];
                    &&& then.inputs == before.inputs
                    &&& then.ty == before.ty
                    &&& then.execution_data.dependencies == before.execution_data.dependencies
                    &&& then.execution_data.previous_nodes == before.execution_data.previous_nodes
                    &&& then.state.state_type == before.state.state_type
                    &&& then.state.children == before.state.children
                    &&& then.state.output_slot == before.state.output_slot
                    &&& then.state.created_slots == before.state.created_slots
                    &&& then.state.event == before.state.event
                    &&& then.state.executions == before.state.executions
                }),
            final(self).wf(),
            exists|count: nat| #[trigger]
                links::shuts_down(
                    old(self).tasks@,
                    final(self).tasks@,
                    Set::empty(),
                    links::as_set(tasks@),
                    1,
                    old(turbo_tasks)@,
                    final(turbo_tasks)@,
                    count,
                ),
    {
        let ghost before = self.tasks@;
        let ghost mut levels: Map<int, nat> = Map::empty();
        let ghost mut lists: Seq<Seq<TaskId>> = Seq::empty();
        proof {
            links::lemma_shutdown_of_nothing(before, Set::empty(), 1);
            assert(links::as_set(tasks@.take(0)) =~= Set::<int>::empty());
            assert(turbo_tasks@ =~= old(turbo_tasks)@ + links::deactivations(lists));
        }
        let mut i: usize = 0;
        while i < tasks.len()
            invariant
                i <= tasks@.len(),
                before == old(self).tasks@,
                old(self).wf(),
                self.wf(),
                forall|j: int| 0 <= j < tasks@.len() ==> #[trigger] tasks@[j] < before.len(),
                links::shutdown(
                    before,
                    self.tasks@,
                    Set::empty(),
                    links::as_set(tasks@.take(i as int)),
                    1,
                    levels,
                    lists,
                ),
                turbo_tasks@ == old(turbo_tasks)@ + links::deactivations(lists),
            decreases tasks@.len() - i,
        {
            let ghost now = self.tasks@;
            let ghost jobs = turbo_tasks@;
            let ghost x = tasks@[i as int] as int;
            let count: usize = self.deactivate(tasks[i], 1, turbo_tasks);
            proof {
                let (l, s) = choose|l: Map<int, nat>, s: Seq<Seq<TaskId>>| #[trigger]
                    links::shutdown(now, self.tasks@, Set::empty(), set![x], 1, l, s)
                        && turbo_tasks@ == jobs + links::deactivations(s) && count == l.dom().len();
                links::lemma_shutdown_keeps(
                    now,
                    self.tasks@,
                    Set::empty(),
                    set![x],
                    1,
                    l,
                    s,
                    Set::empty(),
                );
                assert(Set::<int>::empty().difference(Set::empty()) =~= Set::<int>::empty());
                links::lemma_shutdown_step(
                    before,
                    now,
                    now,
                    self.tasks@,
                    Set::empty(),
                    links::as_set(tasks@.take(i as int)),
                    1,
                    levels,
                    lists,
                    x,
                    false,
                    l,
                    s,
                );
                links::lemma_as_set_next(tasks@, i as int);
                assert(turbo_tasks@ =~= old(turbo_tasks)@ + links::deactivations(lists + s));
                levels = levels.union_prefer_right(l);
                lists = lists + s;
            }
            i += 1;
        }
        proof {
            assert(tasks@.take(i as int) =~= tasks@);
            assert(links::shuts_down(
                before,
                self.tasks@,
                Set::empty(),
                links::as_set(tasks@),
                1,
                old(turbo_tasks)@,
                turbo_tasks@,
                levels.dom().len(),
            ));
        }
    }

    /// Records that a task depends on the slot of `node`, by a handle on the slot that the
    /// slot itself holds. A value that no task owns never changes, so that there is nothing
    /// to record.
    pub fn add_dependency(&mut self, task: TaskId, node: SlotRef)
        requires
            task < old(self).tasks@.len(),
            node matches SlotRef::TaskOutput(owner) ==> owner < old(self).tasks@.len(),
            node matches SlotRef::TaskCreated(owner, index) ==> owner < old(self).tasks@.len()
                && index < old(self).tasks@[owner as int].state.created_slots@.len(),
        ensures
            final(self).tasks@.len() == old(self).tasks@.len(),
            forall|i: int|
                0 <= i < old(self).tasks@.len() ==> ({
                    let before = old(self).tasks@[i];
                    let then = #[trigger] final(self).tasks@[i];
                    &&& then.inputs == before.inputs
                    &&& then.ty == before.ty
                    &&& then.active_parents == before.active_parents
                    &&& then.execution_data.previous_nodes == before.execution_data.previous_nodes
                    &&& then.state.active == before.state.active
                    &&& then.state.state_type == before.state.state_type
                    &&& then.state.children == before.state.children
                    &&& then.state.event == before.state.event
                    &&& then.state.executions == before.state.executions
                    &&& i != task ==> then.execution_data.dependencies
                        == before.execution_data.dependencies
                    &&& then.state.output_slot.target() == before.state.output_slot.target()
                    &&& then.state.created_slots@.len() == before.state.created_slots@.len()
                    &&& forall|j: int|
                        0 <= j < before.state.created_slots@.len() ==> (
                        #[trigger] then.state.created_slots@[j]).target()
                            == before.state.created_slots@[j].target()
                }),
            ({
                let recorded = dependencies::recorded(
                    &old(self).tasks@[task as int].execution_data.dependencies,
                );
                let recorded_then = dependencies::recorded(
                    &final(self).tasks@[task as int].execution_data.dependencies,
                );
                match node {
                    SlotRef::TaskOutput(owner) => recorded_then == recorded.insert(
                        (owner, 0usize),
                    ) && final(self).tasks@[owner as int].state.output_slot.held() == Some(
                        (owner, 0usize),
                    ),
                    SlotRef::TaskCreated(owner, index) => recorded_then == recorded.insert(
                        (owner, (index + 1) as usize),
                    ) && final(
                        self).tasks@[owner as int].state.created_slots@[index as int].held()
                        == Some((owner, (index + 1) as usize)),
                    SlotRef::Value(_) => final(self).tasks@ == old(self).tasks@,
                }
            }),
            !node.of_task() ==> final(self).tasks@ == old(self).tasks@,
            node.of_task() ==> final(self).tasks@ == old(self).with_handle(
                node,
                final(self).tasks@,
            ).update(
                task as int,
                old(self).with_handle(node, final(self).tasks@)[task as int].without_dependencies(
                    final(self).tasks@[task as int].execution_data.dependencies,
                ),
            ),
            node.of_task() ==> dependencies::recorded(
                &final(self).tasks@[task as int].execution_data.dependencies,
            ) == dependencies::recorded(
                &old(self).tasks@[task as int].execution_data.dependencies,
            ).insert(node.key()),
            slot_handled(old(self).tasks@, final(self).tasks@, node),
            old(self).wf() ==> final(self).wf(),
    {
        let ghost tasks = self.tasks@;
        let handle: SlotHandle = match node {
            SlotRef::TaskOutput(owner) => self.tasks[owner].state.output_slot.handle((owner, 0)),
            SlotRef::TaskCreated(owner, index) => {
                assert(self.tasks@[owner as int].state.created_slots.len() <= usize::MAX);
                self.tasks[owner].state.created_slots[index].handle((owner, index + 1))
            },
            SlotRef::Value(_) => return,
        };
        let ghost held = self.tasks@;
        self.tasks[task].add_dependency(handle);
        proof {
            let owner = node.owner() as int;
            assert(held =~= tasks.update(owner, held[owner]));
            assert(self.tasks@ =~= held.update(task as int, self.tasks@[task as int]));
            assert(held =~= old(self).with_handle(node, self.tasks@));
            if old(self).wf() {
                laws::law_change_of_one_task_keeps_soundness(tasks, owner, held[owner]);
                laws::law_change_of_one_task_keeps_soundness(
                    held,
                    task as int,
                    self.tasks@[task as int],
                );
            }
        }
    }

    /// This method should be called after adding the first parent
    pub fn activate(&mut self, task: TaskId, turbo_tasks: &mut TurboTasks) -> (res: usize)
        requires
            task < old(self).tasks@.len(),
            links::closed(old(self).tasks@),
            links::roomy(old(self).tasks@),
        ensures
            final(self).tasks@.len() == old(self).tasks@.len(),
            forall|i: int|
                0 <= i < old(self).tasks@.len() ==> ({
                    let before = old(self).tasks@[i];
                    let then = #[trigger] final(self).tasks@[i];
                    &&& then.inputs == before.inputs
                    &&& then.ty == before.ty
                    &&& then.execution_data.dependencies == before.execution_data.dependencies
                    &&& then.execution_data.previous_nodes == before.execution_data.previous_nodes
                    &&& then.state.children == before.state.children
                    &&& then.state.output_slot == before.state.output_slot
                    &&& then.state.created_slots == before.state.created_slots
                    &&& then.state.event == before.state.event
                    &&& then.state.executions == before.state.executions
                }),
            final(self).tasks@ == links::activated(
                old(self).tasks@,
                links::woken(old(self).tasks@, task as int),
            ),
            links::woken(old(self).tasks@, task as int).finite(),
            res == links::woken(old(self).tasks@, task as int).len(),
            links::schedules_dirty(
                old(self).tasks@,
                task as int,
                links::woken(old(self).tasks@, task as int),
                old(turbo_tasks)@,
                final(turbo_tasks)@,
            ),
        decreases links::inactive_tasks(old(self).tasks@).len(),
    {
        let ghost tasks = self.tasks@;
        let ghost start = task as int;
        let ghost n = tasks.len() as int;
        proof {
            if self.tasks[start].state.active || self.tasks[start].active_parents == 0 {
                links::lemma_nothing_woken(tasks, start);
                assert(links::lists_dirty(tasks, start, Set::empty(), Seq::empty()));
                assert(turbo_tasks@ =~= turbo_tasks@ + links::schedules(Seq::empty()));
            }
        }
        if self.tasks[task].active_parents == 0 {
            return 0;
        }
        if self.tasks[task].state.active {
            return 0;
        }
        proof {
            assert(self.tasks.len() <= usize::MAX);
            links::lemma_waking_begins(tasks, start);
        }
        self.tasks[task].state.active = true;
        let mut count: usize = 1;
        let children: Vec<TaskId> = self.tasks[task].children();
        let ghost mut woken: Set<int> = set![start];
        let ghost mut done: Set<int> = Set::empty();
        let ghost mut ids: Seq<TaskId> = Seq::empty();
        proof {
            assert(turbo_tasks@ =~= old(turbo_tasks)@ + links::schedules(ids));
        }
        let mut i: usize = 0;
        while i < children.len()
            invariant
                i <= children@.len(),
                n == tasks.len(),
                start == task,
                tasks == old(self).tasks@,
                children@.no_duplicates(),
                children@.to_set() == tasks[start].state.children@,
                links::waking(tasks, start, woken, done),
                forall|c: int| #[trigger]
                    done.contains(c) <==> exists|j: int| 0 <= j < i && children@[j] == c,
                self.tasks@ == links::half_activated(tasks, start, woken, done),
                count == woken.len(),
                turbo_tasks@ == old(turbo_tasks)@ + links::schedules(ids),
                links::lists_dirty(tasks, start, woken.remove(start), ids),
            decreases children@.len() - i,
        {
            let child: TaskId = children[i];
            let ghost now = self.tasks@;
            proof {
                assert(children@.to_set().contains(child));
                assert(links::is_child(tasks, start, child as int));
                links::lemma_waking_room(tasks, start, woken, done, child as int);
            }
            let before: u32 = self.tasks[child].active_parents;
            self.tasks[child].active_parents = before + 1;
            proof {
                assert(self.tasks@ =~= links::half_activated(
                    tasks,
                    start,
                    woken,
                    done.insert(child as int),
                ));
            }
            let ghost then = self.tasks@;
            let ghost mut more: Set<int> = Set::empty();
            let ghost mut new_ids: Seq<TaskId> = Seq::empty();
            let ghost jobs = turbo_tasks@;
            proof {
                links::lemma_waking_ready(tasks, start, woken, done, child as int);
                assert(jobs + links::schedules(new_ids) =~= jobs);
            }
            let mut woken_now: usize = 0;
            if before == 0 {
                woken_now = self.activate(child, turbo_tasks);
                proof {
                    more = links::woken(then, child as int);
                    new_ids = choose|new_ids: Seq<TaskId>| #[trigger]
                        links::lists_dirty(then, child as int, more, new_ids) && turbo_tasks@
                            == jobs + links::schedules(new_ids);
                }
            } else {
                proof {
                    links::lemma_activated_none(then);
                }
            }
            proof {
                links::lemma_waking_step(tasks, start, woken, done, child as int, more);
                vstd::set_lib::lemma_set_disjoint_lens(woken, more);
                links::lemma_finite(woken.union(more), n);
                links::lemma_lists_union(tasks, start, then, woken, more, ids, new_ids, child as int);
                assert(turbo_tasks@ =~= old(turbo_tasks)@ + links::schedules(ids + new_ids));
                woken = woken.union(more);
                done = done.insert(child as int);
                ids = ids + new_ids;
            }
            count = count + woken_now;
            i += 1;
        }
        proof {
            assert forall|c: int| 0 <= c < n && #[trigger] links::is_child(
                tasks,
                start,
                c,
            ) implies done.contains(c) by {
                assert(children@.to_set().contains(c as TaskId));
                let j = choose|j: int| 0 <= j < children@.len() && children@[j] == c as TaskId;
                assert(children@[j] == c);
            }
            links::lemma_waking_ends(tasks, start, woken, done);
            links::lemma_lists_start(tasks, start, woken, ids);
        }
        match self.tasks[task].state.state_type {
            TaskStateType::Dirty => {
                self.tasks[task].state.state_type = TaskStateType::Scheduled;
                turbo_tasks.schedule(task);
                proof {
                    assert(turbo_tasks@ =~= old(turbo_tasks)@ + links::schedules(ids.push(task)));
                    ids = ids.push(task);
                }
            },
            _ => {},
        }
        proof {
            assert(links::lists_dirty(tasks, start, woken, ids));
            assert(self.tasks@ =~= links::activated(tasks, woken));
        }
        count
    }

    /// Takes an active parent away from each of `released`, and deactivates those that have
    /// none left.
    fn release(&mut self, released: &Vec<TaskId>, depth: u8, turbo_tasks: &mut TurboTasks) -> (res:
        usize)
        requires
            links::closed(old(self).tasks@),
            links::covered(old(self).tasks@, links::as_set(released@)),
            links::awake(old(self).tasks@),
            released@.no_duplicates(),
            forall|j: int| 0 <= j < released@.len() ==> #[trigger] released@[j] < old(
                self).tasks@.len(),
        ensures
            links::shuts_down(
                old(self).tasks@,
                final(self).tasks@,
                links::as_set(released@),
                Set::empty(),
                depth as nat,
                old(turbo_tasks)@,
                final(turbo_tasks)@,
                res as nat,
            ),
        decreases links::active_tasks(old(self).tasks@).len(), 1int,
    {
        let ghost tasks = self.tasks@;
        let ghost n = tasks.len() as int;
        let ghost owed = links::as_set(released@);
        let ghost mut done: Set<int> = Set::empty();
        let ghost mut levels: Map<int, nat> = Map::empty();
        let ghost mut lists: Seq<Seq<TaskId>> = Seq::empty();
        proof {
            links::lemma_shutdown_of_nothing(tasks, Set::empty(), depth as nat);
            assert(turbo_tasks@ =~= old(turbo_tasks)@ + links::deactivations(lists));
            assert(self.tasks.len() <= usize::MAX);
        }
        let mut count: usize = 0;
        let mut i: usize = 0;
        while i < released.len()
            invariant
                i <= released@.len(),
                n == tasks.len(),
                n <= usize::MAX,
                tasks == old(self).tasks@,
                owed == links::as_set(released@),
                links::closed(tasks),
                links::covered(tasks, owed),
                links::awake(tasks),
                released@.no_duplicates(),
                forall|j: int| 0 <= j < released@.len() ==> #[trigger] released@[j] < n,
                forall|c: int| #[trigger]
                    done.contains(c) <==> exists|j: int| 0 <= j < i && released@[j] == c,
                links::shutdown(
                    tasks,
                    self.tasks@,
                    done,
                    Set::empty(),
                    depth as nat,
                    levels,
                    lists,
                ),
                turbo_tasks@ == old(turbo_tasks)@ + links::deactivations(lists),
                count == levels.dom().len(),
            decreases released@.len() - i,
        {
            let task: TaskId = released[i];
            let ghost x = task as int;
            let ghost before = self.tasks@;
            proof {
                assert(owed.contains(x));
                assert(done.subset_of(owed)) by {
                    assert forall|c: int| done.contains(c) implies owed.contains(c) by {
                        let j = choose|j: int| 0 <= j < i && released@[j] == c;
                        assert(released@[j] == c);
                    }
                }
                links::lemma_release_ready(tasks, before, done, owed, depth as nat, levels, lists, x);
            }
            let active_parents: u32 = self.tasks[task].active_parents;
            self.tasks[task].active_parents = active_parents - 1;
            let ghost middle = self.tasks@;
            let ghost jobs = turbo_tasks@;
            let ghost mut more_levels: Map<int, nat> = Map::empty();
            let ghost mut more_lists: Seq<Seq<TaskId>> = Seq::empty();
            proof {
                assert(middle =~= before.update(
                    x,
                    before[x].with_activity(
                        before[x].state.active,
                        before[x].state.state_type,
                        before[x].active_parents - 1,
                    ),
                ));
                assert(jobs + links::deactivations(more_lists) =~= jobs);
            }
            let mut stopped: usize = 0;
            if active_parents == 1 {
                stopped = self.deactivate(task, depth, turbo_tasks);
                proof {
                    let (l, s) = choose|l: Map<int, nat>, s: Seq<Seq<TaskId>>| #[trigger]
                        links::shutdown(
                            middle,
                            self.tasks@,
                            Set::empty(),
                            set![x],
                            depth as nat,
                            l,
                            s,
                        ) && turbo_tasks@ == jobs + links::deactivations(s) && stopped
                            == l.dom().len();
                    more_levels = l;
                    more_lists = s;
                }
            } else {
                proof {
                    links::lemma_shutdown_of_nothing(middle, set![x], depth as nat);
                }
            }
            proof {
                links::lemma_shutdown_step(
                    tasks,
                    before,
                    middle,
                    self.tasks@,
                    done,
                    Set::empty(),
                    depth as nat,
                    levels,
                    lists,
                    x,
                    true,
                    more_levels,
                    more_lists,
                );
                links::lemma_levels_union(levels, more_levels, n);
                assert(turbo_tasks@ =~= old(turbo_tasks)@ + links::deactivations(
                    lists + more_lists,
                ));
                levels = levels.union_prefer_right(more_levels);
                lists = lists + more_lists;
                done = done.insert(x);
            }
            count = count + stopped;
            i += 1;
        }
        proof {
            assert(done =~= owed);
        }
        count
    }

    /// This method should be called after removing the last parent
    pub fn deactivate(&mut self, task: TaskId, depth: u8, turbo_tasks: &mut TurboTasks) -> (res: usize)
        requires
            task < old(self).tasks@.len(),
            links::closed(old(self).tasks@),
            links::covered(old(self).tasks@, Set::empty()),
            links::awake(old(self).tasks@),
        ensures
            final(self).tasks@.len() == old(self).tasks@.len(),
            forall|i: int|
                0 <= i < old(self).tasks@.len() ==> ({
                    let before = old(self).tasks@[i];
                    let then = #[trigger] final(self).tasks@[i];
                    &&& then.inputs == before.inputs
                    &&& then.ty == before.ty
                    &&& then.execution_data.dependencies == before.execution_data.dependencies
                    &&& then.execution_data.previous_nodes == before.execution_data.previous_nodes
                    &&& then.state.state_type == before.state.state_type
                    &&& then.state.children == before.state.children
                    &&& then.state.output_slot == before.state.output_slot
                    &&& then.state.created_slots == before.state.created_slots
                    &&& then.state.event == before.state.event
                    &&& then.state.executions == before.state.executions
                }),
            links::shuts_down(
                old(self).tasks@,
                final(self).tasks@,
                Set::empty(),
                set![task as int],
                depth as nat,
                old(turbo_tasks)@,
                final(turbo_tasks)@,
                res as nat,
            ),
            res == 0 <==> old(self).tasks@[task as int].active_parents != 0 || !old(
                self).tasks@[task as int].state.active,
            res == 0 ==> final(self).tasks@ == old(self).tasks@ && final(turbo_tasks)@ == old(
                turbo_tasks)@,
            final(self).tasks@[task as int].active_parents == old(
                self).tasks@[task as int].active_parents,
        decreases links::active_tasks(old(self).tasks@).len(), 0int,
    {
        let ghost tasks = self.tasks@;
        let ghost t = task as int;
        let ghost n = tasks.len() as int;
        proof {
            if self.tasks[t].active_parents != 0 || !self.tasks[t].state.active {
                links::lemma_shutdown_of_nothing(tasks, set![t], depth as nat);
                assert(turbo_tasks@ =~= turbo_tasks@ + links::deactivations(Seq::empty()));
            }
        }
        if self.tasks[task].active_parents != 0 {
            return 0;
        }
        if !self.tasks[task].state.active {
            return 0;
        }
        proof {
            links::lemma_stop_ready(tasks, t);
            assert(self.tasks.len() <= usize::MAX);
        }
        self.tasks[task].state.active = false;
        let children: Vec<TaskId> = self.tasks[task].children();
        let ghost then = self.tasks@;
        proof {
            assert(then =~= links::stopped_first(tasks, t));
            links::lemma_children_listed(tasks, t, children@);
        }
        if depth < links::DEEP {
            let stopped: usize = self.release(&children, depth + 1, turbo_tasks);
            proof {
                let (levels, lists) = choose|levels: Map<int, nat>, lists: Seq<Seq<TaskId>>| #[trigger]
                    links::shutdown(
                        then,
                        self.tasks@,
                        links::as_set(children@),
                        Set::empty(),
                        (depth + 1) as nat,
                        levels,
                        lists,
                    ) && turbo_tasks@ == old(turbo_tasks)@ + links::deactivations(lists) && stopped
                        == levels.dom().len();
                links::lemma_stopped(tasks, self.tasks@, t, depth as nat, levels, lists);
                assert(levels.insert(t, depth as nat).dom() =~= levels.dom().insert(t));
                links::lemma_finite(levels.dom().insert(t), n);
            }
            stopped + 1
        } else {
            let mut scheduled: Vec<TaskId> = Vec::new();
            let mut i: usize = 0;
            while i < children.len()
                invariant
                    i <= children@.len(),
                    n == tasks.len(),
                    then.len() == n,
                    then == links::stopped_first(tasks, t),
                    self.tasks@.len() == n,
                    children@.no_duplicates(),
                    forall|j: int| 0 <= j < children@.len() ==> #[trigger] children@[j] < n,
                    links::as_set(children@) == links::children_of(tasks, t),
                    links::covered(then, links::as_set(children@)),
                    forall|c: int|
                        0 <= c < n ==> #[trigger] self.tasks@[c] == then[c].with_activity(
                            then[c].state.active,
                            then[c].state.state_type,
                            then[c].active_parents - if links::as_set(
                                children@.take(i as int),
                            ).contains(c) {
                                1int
                            } else {
                                0int
                            },
                        ),
                    scheduled@.no_duplicates(),
                    forall|c: TaskId| #[trigger]
                        scheduled@.contains(c) <==> links::as_set(
                            children@.take(i as int),
                        ).contains(c as int) && then[c as int].active_parents == 1,
                decreases children@.len() - i,
            {
                let child: TaskId = children[i];
                proof {
                    assert(links::as_set(children@).contains(child as int));
                    assert(then[child as int].active_parents >= 1);
                    links::lemma_as_set_next(children@, i as int);
                }
                let active_parents: u32 = self.tasks[child].active_parents;
                self.tasks[child].active_parents = active_parents - 1;
                if active_parents == 1 {
                    let ghost shorter = scheduled@;
                    scheduled.push(child);
                    proof {
                        assert(!shorter.contains(child));
                        assert forall|j: int, k: int|
                            0 <= j < k < scheduled@.len() implies scheduled@[j] != scheduled@[k] by {
                            assert(shorter.contains(scheduled@[j]));
                        }
                        assert forall|c: TaskId| #[trigger]
                            scheduled@.contains(c) <==> shorter.contains(c) || c == child by {
                            if shorter.contains(c) {
                                let j = choose|j: int| 0 <= j < shorter.len() && shorter[j] == c;
                                assert(scheduled@[j] == c);
                            }
                            assert(scheduled@[shorter.len() as int] == child);
                        }
                    }
                }
                i += 1;
            }
            assert(children@.take(i as int) =~= children@);
            let ghost list = scheduled@;
            turbo_tasks.schedule_deactivate_tasks(scheduled);
            proof {
                let kids = links::children_of(tasks, t);
                assert forall|c: int| 0 <= c < n implies self.tasks@[c] == links::deactivated(
                    then,
                    Set::empty(),
                    kids,
                )[c] by {
                    links::lemma_links_none(then, Set::empty(), c, n);
                    assert(kids.contains(c) <==> links::as_set(children@).contains(c));
                }
                assert(self.tasks@ =~= links::deactivated(then, Set::empty(), kids));
                assert forall|c: TaskId| #[trigger]
                    list.contains(c) <==> kids.contains(c as int) && tasks[c as int].active_parents
                        == 1 by {
                    assert(kids.contains(c as int) <==> links::as_set(children@).contains(c as int));
                    if c == task {
                        assert(!kids.contains(t));
                    }
                }
                links::lemma_stopped_deep(tasks, self.tasks@, t, depth as nat, list);
                assert(turbo_tasks@ =~= old(turbo_tasks)@ + links::deactivations(seq![list]));
                assert(Map::<int, nat>::empty().insert(t, depth as nat).dom() =~= set![t]);
            }
            1
        }
    }
}

} // verus!

//! The links between parents and children, and what it means for tasks to become active
//! and inactive.
use std::collections::HashSet;
use vstd::prelude::*;

use crate::slot::TaskId;
use crate::state::{TaskState, TaskStateType};
use crate::task::Task;
use crate::turbo_tasks::JobView;

verus! {

/// Whether task `child` is a child of task `parent`.
pub open spec fn is_child<F, O>(tasks: Seq<Task<F, O>>, parent: int, child: int) -> bool {
    tasks[parent].state.children@.contains(child as TaskId)
}

/// How many of the first `n` tasks are in `parents` and have `child` as a child.
pub open spec fn links_among<F, O>(
    tasks: Seq<Task<F, O>>,
    parents: Set<int>,
    child: int,
    n: int,
) -> nat
    decreases n,
{
    if n <= 0 {
        0
    } else {
        links_among(tasks, parents, child, n - 1) + if parents.contains(n - 1) && is_child(
            tasks,
            n - 1,
            child,
        ) {
            1nat
        } else {
            0nat
        }
    }
}

/// How many tasks in `parents` have `child` as a child.
pub open spec fn links<F, O>(tasks: Seq<Task<F, O>>, parents: Set<int>, child: int) -> nat {
    links_among(tasks, parents, child, tasks.len() as int)
}

/// The tasks that are active.
pub open spec fn active_tasks<F, O>(tasks: Seq<Task<F, O>>) -> Set<int> {
    Set::new(|i: int| 0 <= i < tasks.len() && tasks[i].state.active)
}

/// The tasks that are not active.
pub open spec fn inactive_tasks<F, O>(tasks: Seq<Task<F, O>>) -> Set<int> {
    Set::new(|i: int| 0 <= i < tasks.len() && !tasks[i].state.active)
}

/// Whether the children of all tasks exist.
pub open spec fn closed<F, O>(tasks: Seq<Task<F, O>>) -> bool {
    forall|parent: int, child: TaskId|
        0 <= parent < tasks.len() && #[trigger] tasks[parent].state.children@.contains(child)
            ==> child < tasks.len()
}

/// Whether each task counts at least its active parents, and one more where it is in
/// `owed`.
pub open spec fn covered<F, O>(tasks: Seq<Task<F, O>>, owed: Set<int>) -> bool {
    forall|i: int|
        0 <= i < tasks.len() ==> (#[trigger] tasks[i]).active_parents >= links(
            tasks,
            active_tasks(tasks),
            i,
        ) + if owed.contains(i) {
            1nat
        } else {
            0nat
        }
}

/// Whether each task that counts an active parent is active.
pub open spec fn awake<F, O>(tasks: Seq<Task<F, O>>) -> bool {
    forall|i: int|
        0 <= i < tasks.len() && (#[trigger] tasks[i]).active_parents > 0 ==> tasks[i].state.active
}

/// What task `i` counts, and what it would count more if all of its parents were active.
pub open spec fn load<F, O>(tasks: Seq<Task<F, O>>, i: int) -> nat {
    tasks[i].active_parents as nat + links(tasks, inactive_tasks(tasks), i)
}

/// Whether each task can count all of its parents.
pub open spec fn roomy<F, O>(tasks: Seq<Task<F, O>>) -> bool {
    forall|i: int| 0 <= i < tasks.len() ==> #[trigger] load(tasks, i) <= u32::MAX
}

/// Whether no active task is dirty: an active task that is invalid is scheduled.
pub open spec fn settled<F, O>(tasks: Seq<Task<F, O>>) -> bool {
    forall|i: int|
        0 <= i < tasks.len() && (#[trigger] tasks[i]).state.active ==> tasks[i].state.state_type
            != TaskStateType::Dirty
}

/// What always holds of the tasks of a graph: their children exist, each counts at least
/// its active parents and can count all of its parents, each that counts one is active,
/// and each active one that is invalid is scheduled.
pub open spec fn sound<F, O>(tasks: Seq<Task<F, O>>) -> bool {
    &&& closed(tasks)
    &&& covered(tasks, Set::empty())
    &&& awake(tasks)
    &&& roomy(tasks)
    &&& settled(tasks)
}

impl<F, O> Task<F, O> {
    /// The same task with another activity.
    pub open spec fn with_activity(
        self,
        active: bool,
        state_type: TaskStateType,
        active_parents: int,
    ) -> Task<F, O> {
        Task {
            state: TaskState { active, state_type, ..self.state },
            active_parents: active_parents as u32,
            ..self
        }
    }
}

// Changes of the children

/// The tasks after `children` have become the children of task `parent`.
pub open spec fn with_children<F, O>(
    tasks: Seq<Task<F, O>>,
    parent: int,
    children: HashSet<TaskId>,
) -> Seq<Task<F, O>> {
    tasks.update(parent, tasks[parent].with_state(tasks[parent].state.with_children(children)))
}

/// The tasks after task `child` has got one active parent more.
pub open spec fn with_parent_counted<F, O>(tasks: Seq<Task<F, O>>, child: int) -> Seq<Task<F, O>> {
    tasks.update(
        child,
        tasks[child].with_activity(
            tasks[child].state.active,
            tasks[child].state.state_type,
            tasks[child].active_parents + 1,
        ),
    )
}

// Activation

/// Whether task `i` becomes active when its first active parent does.
pub open spec fn dormant<F, O>(tasks: Seq<Task<F, O>>, i: int) -> bool {
    !tasks[i].state.active && tasks[i].active_parents == 0
}

/// Whether `path` leads from parents to children, and each task on it but the first one
/// is dormant.
pub open spec fn wake_path<F, O>(tasks: Seq<Task<F, O>>, path: Seq<int>) -> bool {
    &&& path.len() > 0
    &&& forall|k: int| 0 <= k < path.len() ==> 0 <= #[trigger] path[k] < tasks.len()
    &&& forall|k: int|
        0 < k < path.len() ==> is_child(tasks, path[k - 1], #[trigger] path[k]) && dormant(
            tasks,
            path[k],
        )
}

/// Whether activation of task `start` makes task `i` active.
pub open spec fn wakes<F, O>(tasks: Seq<Task<F, O>>, start: int, i: int) -> bool {
    &&& !tasks[start].state.active
    &&& tasks[start].active_parents > 0
    &&& exists|path: Seq<int>| #[trigger]
        wake_path(tasks, path) && path[0] == start && path.last() == i
}

/// The tasks that activation of task `start` makes active: none where it is active
/// already or counts no active parent, else itself and the dormant tasks that are
/// reached from it through dormant tasks.
pub open spec fn woken<F, O>(tasks: Seq<Task<F, O>>, start: int) -> Set<int> {
    Set::new(|i: int| wakes(tasks, start, i))
}

/// The tasks after those in `woken` have become active.
pub open spec fn activated<F, O>(tasks: Seq<Task<F, O>>, woken: Set<int>) -> Seq<Task<F, O>> {
    Seq::new(
        tasks.len(),
        |i: int|
            tasks[i].with_activity(
                tasks[i].state.active || woken.contains(i),
                if woken.contains(i) {
                    tasks[i].state.state_type.on_activation()
                } else {
                    tasks[i].state.state_type
                },
                tasks[i].active_parents + links(tasks, woken, i),
            ),
    )
}

/// Jobs that execute `ids`, one after the other.
pub open spec fn schedules(ids: Seq<TaskId>) -> Seq<JobView> {
    ids.map_values(|id: TaskId| JobView::Schedule(id))
}

/// Whether `ids` are the dirty tasks in `woken`, each once, with `start` at the end where
/// it is one of them.
pub open spec fn lists_dirty<F, O>(
    tasks: Seq<Task<F, O>>,
    start: int,
    woken: Set<int>,
    ids: Seq<TaskId>,
) -> bool {
    &&& ids.no_duplicates()
    &&& forall|id: TaskId| #[trigger]
        ids.contains(id) <==> woken.contains(id as int) && tasks[id as int].state.state_type
            == TaskStateType::Dirty
    &&& ids.contains(start as TaskId) ==> ids.last() == start
}

/// Whether `after` are the jobs `before` and, after them, the execution of each dirty
/// task in `woken`, with `start` at the end where it is one of them.
pub open spec fn schedules_dirty<F, O>(
    tasks: Seq<Task<F, O>>,
    start: int,
    woken: Set<int>,
    before: Seq<JobView>,
    after: Seq<JobView>,
) -> bool {
    exists|ids: Seq<TaskId>| #[trigger]
        lists_dirty(tasks, start, woken, ids) && after == before + schedules(ids)
}

/// Whether `tasks` become `after`, and the jobs `jobs_before` become `jobs_after`, when
/// task `child` becomes a child of task `parent`, whose children are then `children`.
pub open spec fn connected<F, O>(
    tasks: Seq<Task<F, O>>,
    after: Seq<Task<F, O>>,
    child: int,
    parent: int,
    children: HashSet<TaskId>,
    jobs_before: Seq<JobView>,
    jobs_after: Seq<JobView>,
) -> bool {
    let linked = with_children(tasks, parent, children);
    let counted = with_parent_counted(linked, child);
    if is_child(tasks, parent, child) || !tasks[parent].state.active {
        after == linked && jobs_after == jobs_before
    } else {
        &&& after == activated(counted, woken(counted, child))
        &&& schedules_dirty(counted, child, woken(counted, child), jobs_before, jobs_after)
    }
}

// Deactivation

/// At this depth and below, deactivation goes on in jobs of its own.
pub const DEEP: u8 = 4;

/// The tasks after those in `stopped` have become inactive and those in `released` have
/// lost one active parent more.
pub open spec fn deactivated<F, O>(
    tasks: Seq<Task<F, O>>,
    stopped: Set<int>,
    released: Set<int>,
) -> Seq<Task<F, O>> {
    Seq::new(
        tasks.len(),
        |i: int|
            tasks[i].with_activity(
                tasks[i].state.active && !stopped.contains(i),
                tasks[i].state.state_type,
                tasks[i].active_parents - lost(tasks, stopped, released, i),
            ),
    )
}

/// How many active parents task `i` loses when the tasks in `stopped` become inactive and
/// those in `released` lose one more.
pub open spec fn lost<F, O>(
    tasks: Seq<Task<F, O>>,
    stopped: Set<int>,
    released: Set<int>,
    i: int,
) -> nat {
    links(tasks, stopped, i) + if released.contains(i) {
        1nat
    } else {
        0nat
    }
}

/// Whether task `i` is in one of the lists.
pub open spec fn listed(lists: Seq<Seq<TaskId>>, i: int) -> bool {
    exists|k: int, j: int|
        0 <= k < lists.len() && 0 <= j < lists[k].len() && #[trigger] lists[k][j] == i
}

/// Whether no task is in the lists twice.
pub open spec fn listed_once(lists: Seq<Seq<TaskId>>) -> bool {
    forall|k1: int, j1: int, k2: int, j2: int|
        0 <= k1 < lists.len() && 0 <= j1 < lists[k1].len() && 0 <= k2 < lists.len() && 0 <= j2
            < lists[k2].len() && (k1 != k2 || j1 != j2) ==> #[trigger] lists[k1][j1]
            != #[trigger] lists[k2][j2]
}

/// Jobs that deactivate the tasks of each list.
pub open spec fn deactivations(lists: Seq<Seq<TaskId>>) -> Seq<JobView> {
    lists.map_values(|list: Seq<TaskId>| JobView::DeactivateTasks(list))
}

/// Whether each of `lists` belongs to a task of its own, the one at the same place in
/// `owners`, which becomes inactive at [`DEEP`] or below, and holds only children of it.
pub open spec fn handed_on_by<F, O>(
    tasks: Seq<Task<F, O>>,
    levels: Map<int, nat>,
    lists: Seq<Seq<TaskId>>,
    owners: Seq<int>,
) -> bool {
    &&& owners.len() == lists.len()
    &&& owners.no_duplicates()
    &&& forall|k: int|
        0 <= k < owners.len() ==> levels.dom().contains(#[trigger] owners[k]) && levels[owners[k]]
            >= DEEP
    &&& forall|k: int, j: int|
        0 <= k < lists.len() && 0 <= j < lists[k].len() ==> is_child(
            tasks,
            owners[k],
            #[trigger] lists[k][j] as int,
        )
}

/// Whether `order` holds the tasks in `stopped`, each after all of its parents among them.
pub open spec fn in_order<F, O>(
    tasks: Seq<Task<F, O>>,
    stopped: Set<int>,
    order: Seq<int>,
) -> bool {
    &&& forall|i: int| #[trigger] stopped.contains(i) <==> order.contains(i)
    &&& forall|a: int, b: int|
        0 <= a <= b < order.len() ==> !is_child(tasks, #[trigger] order[b], #[trigger] order[a])
}

/// Whether `tasks` become `after` when those in `released` lose an active parent, and
/// then, from `depth` on, those of them that have none left and those of `starts` that
/// have none are deactivated.
///
/// `levels` are the tasks that become inactive, each with the depth at which it does.
/// A task that loses its last active parent above [`DEEP`] becomes inactive one level
/// deeper; one that loses it there or below is handed on in one of `lists`. The order in
/// which children are visited decides which parent is the last one, so more than one
/// outcome is possible. In each, tasks become inactive one after the other, and none does
/// before its parents that do: a task whose active parents are all below itself stays.
pub open spec fn shutdown<F, O>(
    tasks: Seq<Task<F, O>>,
    after: Seq<Task<F, O>>,
    released: Set<int>,
    starts: Set<int>,
    depth: nat,
    levels: Map<int, nat>,
    lists: Seq<Seq<TaskId>>,
) -> bool {
    let stopped = levels.dom();
    &&& stopped.finite()
    &&& after == deactivated(tasks, stopped, released)
    &&& forall|i: int|
        0 <= i < tasks.len() ==> lost(tasks, stopped, released, i) <= (
        #[trigger] tasks[i]).active_parents
    // the tasks that become inactive
    &&& forall|i: int| #[trigger]
        stopped.contains(i) ==> 0 <= i < tasks.len() && tasks[i].state.active
            && after[i].active_parents == 0 && (tasks[i].active_parents > 0 || starts.contains(i))
    &&& forall|i: int| #[trigger]
        stopped.contains(i) ==> (levels[i] == depth && (starts.contains(i) || released.contains(i)))
            || (exists|p: int|
            stopped.contains(p) && #[trigger] is_child(tasks, p, i) && levels[p] < DEEP
                && levels[i] == levels[p] + 1)
    &&& exists|order: Seq<int>| #[trigger] in_order(tasks, stopped, order)
    &&& forall|i: int| #[trigger]
        starts.contains(i) && 0 <= i < tasks.len() && tasks[i].state.active
            && tasks[i].active_parents == 0 ==> stopped.contains(i)
    &&& forall|i: int|
        0 <= i < tasks.len() && tasks[i].active_parents > 0 && (
        #[trigger] after[i]).active_parents == 0 ==> stopped.contains(i) || listed(lists, i)
    // the tasks that are handed on
    &&& forall|i: int| #[trigger]
        listed(lists, i) ==> 0 <= i < tasks.len() && tasks[i].active_parents > 0
            && after[i].active_parents == 0 && (!stopped.contains(i) || starts.contains(i)) && (
        exists|p: int|
            stopped.contains(p) && #[trigger] is_child(tasks, p, i) && levels[p] >= DEEP)
    &&& exists|owners: Seq<int>| #[trigger] handed_on_by(tasks, levels, lists, owners)
    &&& listed_once(lists)
    &&& lists.len() == stopped.filter(|i: int| levels[i] >= DEEP).len()
}

/// Whether `tasks` become `after` in that way, `count` of them become inactive, and the
/// jobs `jobs_before` become `jobs_after`.
pub open spec fn shuts_down<F, O>(
    tasks: Seq<Task<F, O>>,
    after: Seq<Task<F, O>>,
    released: Set<int>,
    starts: Set<int>,
    depth: nat,
    jobs_before: Seq<JobView>,
    jobs_after: Seq<JobView>,
    count: nat,
) -> bool {
    exists|levels: Map<int, nat>, lists: Seq<Seq<TaskId>>| #[trigger]
        shutdown(tasks, after, released, starts, depth, levels, lists) && jobs_after == jobs_before
            + deactivations(lists) && count == levels.dom().len()
}

// Lemmas on links

pub(crate) proof fn lemma_links_same_children<F, O>(
    tasks: Seq<Task<F, O>>,
    others: Seq<Task<F, O>>,
    parents: Set<int>,
    child: int,
    n: int,
)
    requires
        forall|p: int|
            0 <= p < n ==> (#[trigger] tasks[p]).state.children@ == others[p].state.children@,
    ensures
        links_among(tasks, parents, child, n) == links_among(others, parents, child, n),
    decreases n,
{
    if n > 0 {
        lemma_links_same_children(tasks, others, parents, child, n - 1);
        assert(tasks[n - 1].state.children@ == others[n - 1].state.children@);
    }
}

pub(crate) proof fn lemma_links_union<F, O>(
    tasks: Seq<Task<F, O>>,
    all: Set<int>,
    some: Set<int>,
    rest: Set<int>,
    child: int,
    n: int,
)
    requires
        forall|p: int|
            0 <= p < n ==> (#[trigger] all.contains(p) <==> some.contains(p) || rest.contains(p))
                && !(some.contains(p) && rest.contains(p)),
    ensures
        links_among(tasks, all, child, n) == links_among(tasks, some, child, n) + links_among(
            tasks,
            rest,
            child,
            n,
        ),
    decreases n,
{
    if n > 0 {
        lemma_links_union(tasks, all, some, rest, child, n - 1);
        assert(all.contains(n - 1) <==> some.contains(n - 1) || rest.contains(n - 1));
    }
}

/// One task has one link to each of its children.
pub(crate) proof fn lemma_links_single<F, O>(
    tasks: Seq<Task<F, O>>,
    parents: Set<int>,
    parent: int,
    child: int,
    n: int,
)
    requires
        forall|p: int| 0 <= p < n ==> (#[trigger] parents.contains(p) <==> p == parent),
    ensures
        links_among(tasks, parents, child, n) == if 0 <= parent < n && is_child(
            tasks,
            parent,
            child,
        ) {
            1nat
        } else {
            0nat
        },
    decreases n,
{
    if n > 0 {
        lemma_links_single(tasks, parents, parent, child, n - 1);
        assert(parents.contains(n - 1) <==> n - 1 == parent);
    }
}

pub(crate) proof fn lemma_links_witness<F, O>(
    tasks: Seq<Task<F, O>>,
    parents: Set<int>,
    child: int,
    n: int,
)
    ensures
        links_among(tasks, parents, child, n) > 0 <==> exists|p: int|
            0 <= p < n && parents.contains(p) && #[trigger] is_child(tasks, p, child),
    decreases n,
{
    if n > 0 {
        lemma_links_witness(tasks, parents, child, n - 1);
        if parents.contains(n - 1) && is_child(tasks, n - 1, child) {
        } else if links_among(tasks, parents, child, n - 1) == 0 {
            assert forall|p: int| 0 <= p < n && parents.contains(p) implies !#[trigger] is_child(
                tasks,
                p,
                child,
            ) by {
                if p < n - 1 {
                }
            }
        }
    }
}

pub(crate) proof fn lemma_links_none<F, O>(
    tasks: Seq<Task<F, O>>,
    parents: Set<int>,
    child: int,
    n: int,
)
    requires
        forall|p: int| 0 <= p < n ==> !#[trigger] parents.contains(p),
    ensures
        links_among(tasks, parents, child, n) == 0,
    decreases n,
{
    if n > 0 {
        lemma_links_none(tasks, parents, child, n - 1);
        assert(!parents.contains(n - 1));
    }
}

/// Links from a set that holds all the parents that another one holds.
pub(crate) proof fn lemma_links_subset<F, O>(
    tasks: Seq<Task<F, O>>,
    some: Set<int>,
    more: Set<int>,
    child: int,
    n: int,
)
    requires
        forall|p: int|
            0 <= p < n && some.contains(p) && #[trigger] is_child(tasks, p, child)
                ==> more.contains(p),
    ensures
        links_among(tasks, some, child, n) <= links_among(tasks, more, child, n),
    decreases n,
{
    if n > 0 {
        lemma_links_subset(tasks, some, more, child, n - 1);
        assert(is_child(tasks, n - 1, child) || !is_child(tasks, n - 1, child));
    }
}

proof fn lemma_links_bounded<F, O>(
    tasks: Seq<Task<F, O>>,
    parents: Set<int>,
    child: int,
    n: int,
)
    requires
        n >= 0,
    ensures
        links_among(tasks, parents, child, n) <= n,
    decreases n,
{
    if n > 0 {
        lemma_links_bounded(tasks, parents, child, n - 1);
    }
}

/// A task has at most as many parents as there are tasks.
pub proof fn law_load_is_bounded<F, O>(tasks: Seq<Task<F, O>>, i: int)
    ensures
        load(tasks, i) <= tasks[i].active_parents + tasks.len(),
{
    lemma_links_bounded(tasks, inactive_tasks(tasks), i, tasks.len() as int);
}

// Lemmas on activation

pub(crate) proof fn lemma_woken_inactive<F, O>(tasks: Seq<Task<F, O>>, start: int, i: int)
    requires
        wakes(tasks, start, i),
    ensures
        0 <= i < tasks.len(),
        0 <= start < tasks.len(),
        !tasks[i].state.active,
        i == start || dormant(tasks, i),
{
    let path = choose|path: Seq<int>| #[trigger]
        wake_path(tasks, path) && path[0] == start && path.last() == i;
    assert(0 <= path[0] < tasks.len());
    if path.len() > 1 {
        assert(dormant(tasks, path[path.len() - 1]));
    }
}

/// What activation makes active counts an active parent, before or after.
pub(crate) proof fn lemma_woken_counted<F, O>(tasks: Seq<Task<F, O>>, start: int, i: int)
    requires
        wakes(tasks, start, i),
    ensures
        tasks[start].active_parents > 0,
        i != start ==> exists|p: int|
            0 <= p < tasks.len() && woken(tasks, start).contains(p) && #[trigger] is_child(
                tasks,
                p,
                i,
            ),
{
    let path = choose|path: Seq<int>| #[trigger]
        wake_path(tasks, path) && path[0] == start && path.last() == i;
    if i != start {
        let shorter = path.drop_last();
        assert(wake_path(tasks, shorter));
        let p = shorter.last();
        assert(shorter[0] == start);
        assert(wakes(tasks, start, p));
        assert(is_child(tasks, path[path.len() - 2], path[path.len() - 1]));
        assert(0 <= path[path.len() - 2] < tasks.len());
    }
}

pub(crate) proof fn lemma_wakes_itself<F, O>(tasks: Seq<Task<F, O>>, start: int)
    requires
        0 <= start < tasks.len(),
        !tasks[start].state.active,
        tasks[start].active_parents > 0,
    ensures
        wakes(tasks, start, start),
{
    let path = seq![start];
    assert(wake_path(tasks, path));
}

pub(crate) proof fn lemma_wakes_child<F, O>(tasks: Seq<Task<F, O>>, start: int, i: int, child: int)
    requires
        wakes(tasks, start, i),
        is_child(tasks, i, child),
        0 <= child < tasks.len(),
        dormant(tasks, child),
    ensures
        wakes(tasks, start, child),
{
    let path = choose|path: Seq<int>| #[trigger]
        wake_path(tasks, path) && path[0] == start && path.last() == i;
    let longer = path.push(child);
    assert forall|k: int| 0 < k < longer.len() implies is_child(
        tasks,
        longer[k - 1],
        #[trigger] longer[k],
    ) && dormant(tasks, longer[k]) by {
        if k < path.len() {
            assert(longer[k] == path[k]);
            assert(longer[k - 1] == path[k - 1]);
        }
    }
    assert(wake_path(tasks, longer));
    assert(longer[0] == start);
    assert(longer.last() == child);
}

/// A set that holds `start` and, with a task, its dormant children holds all that
/// `start` wakes.
pub(crate) proof fn lemma_woken_least<F, O>(
    tasks: Seq<Task<F, O>>,
    start: int,
    set: Set<int>,
    path: Seq<int>,
)
    requires
        wake_path(tasks, path),
        path[0] == start,
        set.contains(start),
        forall|p: int, d: int|
            set.contains(p) && 0 <= d < tasks.len() && dormant(tasks, d) && #[trigger] is_child(
                tasks,
                p,
                d,
            ) ==> set.contains(d),
    ensures
        set.contains(path.last()),
    decreases path.len(),
{
    if path.len() > 1 {
        let shorter = path.drop_last();
        assert(wake_path(tasks, shorter));
        lemma_woken_least(tasks, start, set, shorter);
        assert(is_child(tasks, path[path.len() - 2], path[path.len() - 1]));
    }
}

/// The tasks while the activation of `start` goes on: `woken` are those that are active
/// already, `done` the children of `start` that already count it.
pub(crate) open spec fn half_activated<F, O>(
    tasks: Seq<Task<F, O>>,
    start: int,
    woken: Set<int>,
    done: Set<int>,
) -> Seq<Task<F, O>> {
    Seq::new(
        tasks.len(),
        |i: int|
            tasks[i].with_activity(
                tasks[i].state.active || woken.contains(i),
                if woken.contains(i) && i != start {
                    tasks[i].state.state_type.on_activation()
                } else {
                    tasks[i].state.state_type
                },
                tasks[i].active_parents + links(tasks, woken.remove(start), i) + if done.contains(
                    i,
                ) {
                    1int
                } else {
                    0int
                },
            ),
    )
}

/// What holds while the activation of `start` goes on.
pub(crate) open spec fn waking<F, O>(
    tasks: Seq<Task<F, O>>,
    start: int,
    woken: Set<int>,
    done: Set<int>,
) -> bool {
    &&& closed(tasks)
    &&& roomy(tasks)
    &&& 0 <= start < tasks.len()
    &&& tasks.len() <= usize::MAX
    &&& !tasks[start].state.active
    &&& tasks[start].active_parents > 0
    &&& woken.finite()
    &&& woken.contains(start)
    &&& forall|i: int| #[trigger] woken.contains(i) ==> wakes(tasks, start, i)
    &&& forall|i: int| #[trigger]
        done.contains(i) ==> 0 <= i < tasks.len() && is_child(tasks, start, i)
    &&& forall|p: int, d: int|
        woken.contains(p) && p != start && 0 <= d < tasks.len() && dormant(tasks, d)
            && #[trigger] is_child(tasks, p, d) ==> woken.contains(d)
    &&& forall|d: int| #[trigger] done.contains(d) && dormant(tasks, d) ==> woken.contains(d)
}

/// A child of `start` that does not count it yet has room to do so.
pub(crate) proof fn lemma_waking_room<F, O>(
    tasks: Seq<Task<F, O>>,
    start: int,
    woken: Set<int>,
    done: Set<int>,
    i: int,
)
    requires
        waking(tasks, start, woken, done),
        0 <= i < tasks.len(),
    ensures
        ({
            let now = half_activated(tasks, start, woken, done);
            let before = tasks[i].active_parents + links(tasks, woken.remove(start), i) + if done.contains(i) {
                1int
            } else {
                0int
            };
            &&& before <= u32::MAX
            &&& load(now, i) + if is_child(tasks, start, i) && !done.contains(i) {
                1nat
            } else {
                0nat
            } <= u32::MAX
        }),
{
    let now = half_activated(tasks, start, woken, done);
    let n = tasks.len() as int;
    assert forall|p: int| 0 <= p < n implies (#[trigger] tasks[p]).state.children@
        == now[p].state.children@ by {
        assert(now[p].state.children@ == tasks[p].state.children@);
    }
    lemma_links_same_children(tasks, now, inactive_tasks(now), i, n);
    assert forall|p: int| 0 <= p < n implies (#[trigger] inactive_tasks(tasks).contains(p)
        <==> inactive_tasks(now).contains(p) || woken.contains(p)) && !(inactive_tasks(
        now,
    ).contains(p) && woken.contains(p)) by {
        if woken.contains(p) {
            lemma_woken_inactive(tasks, start, p);
        }
    }
    lemma_links_union(tasks, inactive_tasks(tasks), inactive_tasks(now), woken, i, n);
    lemma_links_union(tasks, woken, woken.remove(start), set![start], i, n);
    lemma_links_single(tasks, set![start], start, i, n);
    assert(load(tasks, i) <= u32::MAX);
}

pub(crate) proof fn lemma_waking_begins<F, O>(tasks: Seq<Task<F, O>>, start: int)
    requires
        closed(tasks),
        roomy(tasks),
        0 <= start < tasks.len() <= usize::MAX,
        !tasks[start].state.active,
        tasks[start].active_parents > 0,
    ensures
        waking(tasks, start, set![start], Set::empty()),
        half_activated(tasks, start, set![start], Set::empty()) == tasks.update(
            start,
            tasks[start].with_activity(
                true,
                tasks[start].state.state_type,
                tasks[start].active_parents as int,
            ),
        ),
{
    lemma_wakes_itself(tasks, start);
    let now = half_activated(tasks, start, set![start], Set::empty());
    let then = tasks.update(
        start,
        tasks[start].with_activity(
            true,
            tasks[start].state.state_type,
            tasks[start].active_parents as int,
        ),
    );
    assert forall|i: int| 0 <= i < tasks.len() implies now[i] == then[i] by {
        lemma_links_none(tasks, set![start].remove(start), i, tasks.len() as int);
    }
    assert(now =~= then);
}

/// One step of the activation of `start`: its child `child` counts it, and is activated
/// where it is its first active parent.
pub(crate) proof fn lemma_waking_step<F, O>(
    tasks: Seq<Task<F, O>>,
    start: int,
    woken: Set<int>,
    done: Set<int>,
    child: int,
    more: Set<int>,
)
    requires
        waking(tasks, start, woken, done),
        0 <= child < tasks.len(),
        is_child(tasks, start, child),
        !done.contains(child),
        more == ({
            let now = half_activated(tasks, start, woken, done);
            if now[child].active_parents == 0 {
                self::woken(half_activated(tasks, start, woken, done.insert(child)), child)
            } else {
                Set::empty()
            }
        }),
        more.finite(),
    ensures
        waking(tasks, start, woken.union(more), done.insert(child)),
        woken.disjoint(more),
        activated(half_activated(tasks, start, woken, done.insert(child)), more) == half_activated(
            tasks,
            start,
            woken.union(more),
            done.insert(child),
        ),
        forall|i: int| #[trigger]
            more.contains(i) ==> !woken.contains(i) && half_activated(
                tasks,
                start,
                woken,
                done.insert(child),
            )[i].state.state_type == tasks[i].state.state_type,
{
    let n = tasks.len() as int;
    let now = half_activated(tasks, start, woken, done);
    let then = half_activated(tasks, start, woken, done.insert(child));
    let all = woken.union(more);
    // The counts in `then` are those in `tasks`, and more.
    assert forall|i: int| 0 <= i < n implies then[i].active_parents == tasks[i].active_parents
        + links(tasks, woken.remove(start), i) + (if done.insert(child).contains(i) {
        1int
    } else {
        0int
    }) && now[i].active_parents == tasks[i].active_parents + links(tasks, woken.remove(start), i)
        + (if done.contains(i) {
        1int
    } else {
        0int
    }) by {
        lemma_waking_room(tasks, start, woken, done, i);
    }
    // A dormant task that is counted by someone now is active now.
    assert forall|d: int|
        0 <= d < n && dormant(tasks, d) && now[d].active_parents > 0 implies #[trigger] woken.contains(d) by {
        if !done.contains(d) {
            lemma_links_witness(tasks, woken.remove(start), d, n);
            let p = choose|p: int|
                0 <= p < n && woken.remove(start).contains(p) && #[trigger] is_child(tasks, p, d);
            assert(woken.contains(p) && p != start);
        }
    }
    assert forall|i: int| #[trigger] more.contains(i) implies !woken.contains(i) && wakes(
        tasks,
        start,
        i,
    ) && 0 <= i < n && !then[i].state.active by {
        lemma_woken_inactive(then, child, i);
        assert(dormant(tasks, child));
        let path = choose|path: Seq<int>| #[trigger]
            wake_path(then, path) && path[0] == child && path.last() == i;
        let longer = seq![start] + path;
        assert forall|k: int| 0 <= k < longer.len() implies 0 <= #[trigger] longer[k] < n by {
            if k > 0 {
                assert(longer[k] == path[k - 1]);
            }
        }
        assert forall|k: int| 0 < k < longer.len() implies is_child(
            tasks,
            longer[k - 1],
            #[trigger] longer[k],
        ) && dormant(tasks, longer[k]) by {
            assert(longer[k] == path[k - 1]);
            if k > 1 {
                assert(longer[k - 1] == path[k - 2]);
                assert(is_child(then, path[k - 2], path[k - 1]) && dormant(then, path[k - 1]));
            }
        }
        assert(wake_path(tasks, longer));
        assert(longer[0] == start && longer.last() == i);
    }
    assert(woken.disjoint(more));
    assert forall|p: int, d: int|
        all.contains(p) && p != start && 0 <= d < n && dormant(tasks, d) && #[trigger] is_child(
            tasks,
            p,
            d,
        ) implies all.contains(d) by {
        if more.contains(p) && !woken.contains(d) {
            assert(now[d].active_parents == 0);
            if d == child {
                lemma_wakes_itself(then, child);
            } else {
                assert(dormant(then, d));
                assert(is_child(then, p, d));
                lemma_wakes_child(then, child, p, d);
            }
        }
    }
    assert forall|d: int| #[trigger]
        done.insert(child).contains(d) && dormant(tasks, d) implies all.contains(d) by {
        if d == child && !woken.contains(child) {
            assert(now[child].active_parents == 0);
            lemma_wakes_itself(then, child);
        }
    }
    assert(waking(tasks, start, all, done.insert(child)));
    let result = activated(then, more);
    let expected = half_activated(tasks, start, all, done.insert(child));
    assert forall|i: int| 0 <= i < n implies result[i] == expected[i] by {
        assert forall|p: int| 0 <= p < n implies (#[trigger] tasks[p]).state.children@
            == then[p].state.children@ by {
            assert(then[p].state.children@ == tasks[p].state.children@);
        }
        lemma_links_same_children(tasks, then, more, i, n);
        lemma_links_union(tasks, all.remove(start), woken.remove(start), more, i, n);
    }
    assert(result =~= expected);
}

/// The end of the activation of `start`.
pub(crate) proof fn lemma_waking_ends<F, O>(
    tasks: Seq<Task<F, O>>,
    start: int,
    woken: Set<int>,
    done: Set<int>,
)
    requires
        waking(tasks, start, woken, done),
        forall|c: int| 0 <= c < tasks.len() && #[trigger] is_child(tasks, start, c)
            ==> done.contains(c),
    ensures
        woken == self::woken(tasks, start),
        activated(tasks, woken) == half_activated(tasks, start, woken, done).update(
            start,
            half_activated(tasks, start, woken, done)[start].with_activity(
                true,
                tasks[start].state.state_type.on_activation(),
                half_activated(tasks, start, woken, done)[start].active_parents as int,
            ),
        ),
{
    let n = tasks.len() as int;
    assert forall|i: int| #[trigger] wakes(tasks, start, i) implies woken.contains(i) by {
        let path = choose|path: Seq<int>| #[trigger]
            wake_path(tasks, path) && path[0] == start && path.last() == i;
        lemma_woken_least(tasks, start, woken, path);
    }
    assert(woken =~= self::woken(tasks, start));
    let now = half_activated(tasks, start, woken, done);
    let result = now.update(
        start,
        now[start].with_activity(
            true,
            tasks[start].state.state_type.on_activation(),
            now[start].active_parents as int,
        ),
    );
    assert forall|i: int| 0 <= i < n implies activated(tasks, woken)[i] == result[i] by {
        lemma_links_union(tasks, woken, woken.remove(start), set![start], i, n);
        lemma_links_single(tasks, set![start], start, i, n);
        lemma_waking_room(tasks, start, woken, done, i);
    }
    assert(activated(tasks, woken) =~= result);
}

/// Activation of a task that is active or counts no active parent changes nothing.
pub(crate) proof fn lemma_nothing_woken<F, O>(tasks: Seq<Task<F, O>>, start: int)
    requires
        tasks[start].state.active || tasks[start].active_parents == 0,
    ensures
        woken(tasks, start) == Set::<int>::empty(),
        activated(tasks, woken(tasks, start)) == tasks,
{
    assert(woken(tasks, start) =~= Set::<int>::empty());
    lemma_activated_none(tasks);
}

/// Tasks can be counted.
pub(crate) proof fn lemma_finite(set: Set<int>, n: int)
    requires
        0 <= n,
        forall|i: int| #[trigger] set.contains(i) ==> 0 <= i < n,
    ensures
        set.finite(),
        set.len() <= n,
{
    vstd::set_lib::lemma_int_range(0, n);
    assert(set.subset_of(vstd::set_lib::set_int_range(0, n)));
    vstd::set_lib::lemma_len_subset(set, vstd::set_lib::set_int_range(0, n));
}

/// While the activation of `start` goes on, the next child of it can be activated, and
/// fewer tasks are inactive than before.
pub(crate) proof fn lemma_waking_ready<F, O>(
    tasks: Seq<Task<F, O>>,
    start: int,
    woken: Set<int>,
    done: Set<int>,
    child: int,
)
    requires
        waking(tasks, start, woken, done),
        0 <= child < tasks.len(),
        is_child(tasks, start, child),
        !done.contains(child),
    ensures
        ({
            let then = half_activated(tasks, start, woken, done.insert(child));
            &&& closed(then)
            &&& roomy(then)
            &&& inactive_tasks(then).len() < inactive_tasks(tasks).len()
        }),
{
    let n = tasks.len() as int;
    let now = half_activated(tasks, start, woken, done);
    let then = half_activated(tasks, start, woken, done.insert(child));
    assert forall|parent: int, c: TaskId|
        0 <= parent < then.len() && #[trigger] then[parent].state.children@.contains(
            c,
        ) implies c < then.len() by {
        assert(tasks[parent].state.children@.contains(c));
    }
    assert(inactive_tasks(then) =~= inactive_tasks(now));
    assert forall|i: int| 0 <= i < n implies #[trigger] load(then, i) <= u32::MAX by {
        lemma_waking_room(tasks, start, woken, done, i);
        assert forall|p: int| 0 <= p < n implies (#[trigger] then[p]).state.children@
            == now[p].state.children@ by {
            assert(now[p].state.children@ == tasks[p].state.children@);
        }
        lemma_links_same_children(then, now, inactive_tasks(then), i, n);
    }
    lemma_finite(inactive_tasks(tasks), n);
    lemma_finite(inactive_tasks(then), n);
    assert(inactive_tasks(then).subset_of(inactive_tasks(tasks).remove(start)));
    vstd::set_lib::lemma_len_subset(inactive_tasks(then), inactive_tasks(tasks).remove(start));
}

pub(crate) proof fn lemma_activated_none<F, O>(tasks: Seq<Task<F, O>>)
    ensures
        activated(tasks, Set::empty()) == tasks,
{
    assert forall|i: int| 0 <= i < tasks.len() implies activated(tasks, Set::empty())[i]
        == tasks[i] by {
        lemma_links_none(tasks, Set::empty(), i, tasks.len() as int);
    }
    assert(activated(tasks, Set::empty()) =~= tasks);
}

/// The dirty tasks of two steps of the activation of `start`.
pub(crate) proof fn lemma_lists_union<F, O>(
    tasks: Seq<Task<F, O>>,
    start: int,
    then: Seq<Task<F, O>>,
    woken: Set<int>,
    more: Set<int>,
    ids: Seq<TaskId>,
    new_ids: Seq<TaskId>,
    child: int,
)
    requires
        lists_dirty(tasks, start, woken.remove(start), ids),
        lists_dirty(then, child, more, new_ids) || (more.is_empty() && new_ids.len() == 0),
        0 <= start <= usize::MAX,
        woken.contains(start),
        forall|i: int| #[trigger]
            more.contains(i) ==> !woken.contains(i) && then[i].state.state_type
                == tasks[i].state.state_type,
    ensures
        lists_dirty(tasks, start, woken.union(more).remove(start), ids + new_ids),
{
    let all = ids + new_ids;
    assert forall|id: TaskId| #[trigger]
        all.contains(id) <==> ids.contains(id) || new_ids.contains(id) by {
        if ids.contains(id) {
            let j = choose|j: int| 0 <= j < ids.len() && ids[j] == id;
            assert(all[j] == id);
        }
        if new_ids.contains(id) {
            let j = choose|j: int| 0 <= j < new_ids.len() && new_ids[j] == id;
            assert(all[ids.len() + j] == id);
        }
    }
    assert forall|i: int, j: int| 0 <= i < j < all.len() implies all[i] != all[j] by {
        if i < ids.len() && j >= ids.len() {
            assert(ids.contains(all[i]));
            assert(new_ids.contains(all[j]));
        }
    }
}

/// The dirty tasks at the end of the activation of `start`.
pub(crate) proof fn lemma_lists_start<F, O>(
    tasks: Seq<Task<F, O>>,
    start: int,
    woken: Set<int>,
    ids: Seq<TaskId>,
)
    requires
        lists_dirty(tasks, start, woken.remove(start), ids),
        0 <= start <= usize::MAX,
        woken.contains(start),
    ensures
        tasks[start].state.state_type == TaskStateType::Dirty ==> lists_dirty(
            tasks,
            start,
            woken,
            ids.push(start as TaskId),
        ),
        tasks[start].state.state_type != TaskStateType::Dirty ==> lists_dirty(
            tasks,
            start,
            woken,
            ids,
        ),
{
    let all = ids.push(start as TaskId);
    assert(!ids.contains(start as TaskId));
    assert forall|id: TaskId| #[trigger]
        all.contains(id) <==> ids.contains(id) || id == start by {
        if ids.contains(id) {
            let j = choose|j: int| 0 <= j < ids.len() && ids[j] == id;
            assert(all[j] == id);
        }
        assert(all[ids.len() as int] == start);
    }
    assert forall|id: TaskId| id != start implies (woken.remove(start).contains(id as int)
        <==> #[trigger] woken.contains(id as int)) by {}
}

// Lemmas on deactivation

/// A task that counts an active parent is not deactivated.
pub(crate) proof fn lemma_shutdown_of_nothing<F, O>(
    tasks: Seq<Task<F, O>>,
    starts: Set<int>,
    depth: nat,
)
    requires
        forall|i: int| #[trigger]
            starts.contains(i) && 0 <= i < tasks.len() ==> !tasks[i].state.active
                || tasks[i].active_parents > 0,
    ensures
        shutdown(tasks, tasks, Set::empty(), starts, depth, Map::empty(), Seq::empty()),
{
    let levels = Map::<int, nat>::empty();
    let after = deactivated(tasks, levels.dom(), Set::empty());
    assert forall|i: int| 0 <= i < tasks.len() implies after[i] == tasks[i] && lost(
        tasks,
        levels.dom(),
        Set::empty(),
        i,
    ) == 0 by {
        lemma_links_none(tasks, levels.dom(), i, tasks.len() as int);
    }
    assert(after =~= tasks);
    assert(in_order(tasks, levels.dom(), Seq::empty()));
    assert(handed_on_by(tasks, levels, Seq::empty(), Seq::empty()));
    assert(levels.dom().filter(|i: int| levels[i] >= DEEP) =~= Set::<int>::empty());
}

/// What becomes inactive later comes later in the order.
proof fn lemma_in_order_next<F, O>(
    tasks: Seq<Task<F, O>>,
    middle: Seq<Task<F, O>>,
    before: Seq<Task<F, O>>,
    stopped: Set<int>,
    more: Set<int>,
    order: Seq<int>,
    more_order: Seq<int>,
    all: Set<int>,
)
    requires
        in_order(tasks, stopped, order),
        in_order(middle, more, more_order),
        all == stopped.union(more),
        middle.len() == tasks.len(),
        forall|p: int|
            0 <= p < tasks.len() ==> (#[trigger] tasks[p]).state.children@
                == middle[p].state.children@,
        forall|i: int| #[trigger] more.contains(i) ==> 0 <= i < tasks.len(),
        forall|i: int| #[trigger]
            stopped.contains(i) ==> 0 <= i < tasks.len() && before[i].active_parents == 0,
        forall|i: int|
            0 <= i < tasks.len() ==> lost(middle, more, Set::empty(), i) <= (
            #[trigger] middle[i]).active_parents && middle[i].active_parents
                <= before[i].active_parents,
    ensures
        in_order(tasks, all, order + more_order),
{
    let n = tasks.len() as int;
    let whole = order + more_order;
    assert forall|i: int| #[trigger] all.contains(i) <==> whole.contains(i) by {
        if stopped.contains(i) {
            assert(order.contains(i));
            let a = choose|a: int| 0 <= a < order.len() && order[a] == i;
            assert(whole[a] == i);
        }
        if more.contains(i) {
            assert(more_order.contains(i));
            let a = choose|a: int| 0 <= a < more_order.len() && more_order[a] == i;
            assert(whole[order.len() + a] == i);
        }
        if whole.contains(i) {
            let a = choose|a: int| 0 <= a < whole.len() && whole[a] == i;
            if a < order.len() {
                assert(order.contains(order[a]));
            } else {
                assert(more_order.contains(more_order[a - order.len()]));
            }
        }
    }
    assert forall|a: int, b: int| 0 <= a <= b < whole.len() implies !is_child(
        tasks,
        #[trigger] whole[b],
        #[trigger] whole[a],
    ) by {
        let m = order.len() as int;
        if b < m {
            assert(!is_child(tasks, order[b], order[a]));
        } else {
            let p = more_order[b - m];
            assert(more_order.contains(p));
            assert(more.contains(p));
            assert(tasks[p].state.children@ == middle[p].state.children@);
            if a < m {
                let i = order[a];
                assert(order.contains(i));
                assert(stopped.contains(i));
                assert(lost(middle, more, Set::empty(), i) <= middle[i].active_parents);
                lemma_links_witness(middle, more, i, n);
                if is_child(tasks, p, i) {
                    assert(is_child(middle, p, i));
                }
            } else {
                assert(!is_child(middle, more_order[b - m], more_order[a - m]));
            }
        }
    }
}

/// Lists of two parts of a shutdown.
proof fn lemma_handed_on_next<F, O>(
    tasks: Seq<Task<F, O>>,
    middle: Seq<Task<F, O>>,
    levels: Map<int, nat>,
    more_levels: Map<int, nat>,
    lists: Seq<Seq<TaskId>>,
    more_lists: Seq<Seq<TaskId>>,
    owners: Seq<int>,
    more_owners: Seq<int>,
)
    requires
        handed_on_by(tasks, levels, lists, owners),
        handed_on_by(middle, more_levels, more_lists, more_owners),
        forall|i: int| #[trigger]
            more_levels.dom().contains(i) ==> 0 <= i < tasks.len() && !levels.dom().contains(i),
        forall|p: int|
            0 <= p < tasks.len() ==> (#[trigger] tasks[p]).state.children@
                == middle[p].state.children@,
    ensures
        handed_on_by(
            tasks,
            levels.union_prefer_right(more_levels),
            lists + more_lists,
            owners + more_owners,
        ),
{
    let all_levels = levels.union_prefer_right(more_levels);
    let all_lists = lists + more_lists;
    let all = owners + more_owners;
    let m = owners.len() as int;
    assert forall|k: int| 0 <= k < all.len() implies all_levels.dom().contains(#[trigger] all[k])
        && all_levels[all[k]] >= DEEP by {
        if k < m {
            assert(levels.dom().contains(owners[k]));
            assert(!more_levels.dom().contains(owners[k]));
        } else {
            assert(more_levels.dom().contains(more_owners[k - m]));
        }
    }
    assert forall|k: int, l: int| 0 <= k < all.len() && 0 <= l < all.len() && k != l implies all[k]
        != all[l] by {
        if k < m {
            assert(levels.dom().contains(owners[k]));
        } else {
            assert(more_levels.dom().contains(more_owners[k - m]));
        }
        if l < m {
            assert(levels.dom().contains(owners[l]));
        } else {
            assert(more_levels.dom().contains(more_owners[l - m]));
        }
    }
    assert forall|k: int, j: int|
        0 <= k < all_lists.len() && 0 <= j < all_lists[k].len() implies is_child(
        tasks,
        all[k],
        #[trigger] all_lists[k][j] as int,
    ) by {
        if k < m {
            assert(is_child(tasks, owners[k], lists[k][j] as int));
        } else {
            let p = more_owners[k - m];
            assert(more_levels.dom().contains(p));
            assert(is_child(middle, p, more_lists[k - m][j] as int));
            assert(tasks[p].state.children@ == middle[p].state.children@);
        }
    }
}

/// A shutdown goes on with task `x`, which loses an active parent more (`release`) or is
/// one more to start from.
pub(crate) proof fn lemma_shutdown_step<F, O>(
    tasks: Seq<Task<F, O>>,
    before: Seq<Task<F, O>>,
    middle: Seq<Task<F, O>>,
    after: Seq<Task<F, O>>,
    released: Set<int>,
    starts: Set<int>,
    depth: nat,
    levels: Map<int, nat>,
    lists: Seq<Seq<TaskId>>,
    x: int,
    release: bool,
    more_levels: Map<int, nat>,
    more_lists: Seq<Seq<TaskId>>,
)
    requires
        awake(tasks),
        shutdown(tasks, before, released, starts, depth, levels, lists),
        0 <= x < tasks.len(),
        release ==> !released.contains(x) && before[x].active_parents >= 1 && middle
            == before.update(
            x,
            before[x].with_activity(
                before[x].state.active,
                before[x].state.state_type,
                before[x].active_parents - 1,
            ),
        ) && (middle[x].active_parents > 0 ==> more_levels.dom().is_empty()),
        !release ==> middle == before,
        shutdown(middle, after, Set::empty(), set![x], depth, more_levels, more_lists),
    ensures
        shutdown(
            tasks,
            after,
            if release {
                released.insert(x)
            } else {
                released
            },
            if release {
                starts
            } else {
                starts.insert(x)
            },
            depth,
            levels.union_prefer_right(more_levels),
            lists + more_lists,
        ),
        levels.dom().disjoint(more_levels.dom()),
{
    let n = tasks.len() as int;
    let all_released = if release {
        released.insert(x)
    } else {
        released
    };
    let all_starts = if release {
        starts
    } else {
        starts.insert(x)
    };
    let all_levels = levels.union_prefer_right(more_levels);
    let all_lists = lists + more_lists;
    let stopped = levels.dom();
    let more = more_levels.dom();
    let all = all_levels.dom();
    assert(all =~= stopped.union(more));
    assert forall|i: int| #[trigger] more.contains(i) implies !stopped.contains(i) by {
        assert(middle[i].state.active);
        assert(before[i].state.active);
    }
    assert forall|p: int| 0 <= p < n implies (#[trigger] tasks[p]).state.children@
        == middle[p].state.children@ by {
        assert(before[p].state.children@ == tasks[p].state.children@);
    }
    // counts
    assert forall|i: int| 0 <= i < n implies lost(tasks, all, all_released, i) <= (
    #[trigger] tasks[i]).active_parents && after[i].active_parents == tasks[i].active_parents
        - lost(tasks, all, all_released, i) && before[i].active_parents
        == tasks[i].active_parents - lost(tasks, stopped, released, i) && middle[i].active_parents
        == before[i].active_parents - (if release && i == x {
        1int
    } else {
        0int
    }) && after[i].active_parents <= middle[i].active_parents && after[i] == deactivated(
        tasks,
        all,
        all_released,
    )[i] by {
        lemma_links_union(tasks, all, stopped, more, i, n);
        lemma_links_same_children(tasks, middle, more, i, n);
        assert(lost(middle, more, Set::empty(), i) <= middle[i].active_parents);
    }
    assert(after =~= deactivated(tasks, all, all_released));
    // lists
    assert forall|i: int| #[trigger]
        listed(all_lists, i) <==> listed(lists, i) || listed(more_lists, i) by {
        if listed(lists, i) {
            let (k, j) = choose|k: int, j: int|
                0 <= k < lists.len() && 0 <= j < lists[k].len() && #[trigger] lists[k][j] == i;
            assert(all_lists[k][j] == i);
        }
        if listed(more_lists, i) {
            let (k, j) = choose|k: int, j: int|
                0 <= k < more_lists.len() && 0 <= j < more_lists[k].len()
                    && #[trigger] more_lists[k][j] == i;
            assert(all_lists[lists.len() + k][j] == i);
        }
        if listed(all_lists, i) {
            let (k, j) = choose|k: int, j: int|
                0 <= k < all_lists.len() && 0 <= j < all_lists[k].len()
                    && #[trigger] all_lists[k][j] == i;
            if k < lists.len() {
                assert(lists[k][j] == i);
            } else {
                assert(more_lists[k - lists.len()][j] == i);
            }
        }
    }
    assert forall|i: int| #[trigger] listed(lists, i) implies !listed(more_lists, i) by {
        assert(before[i].active_parents == 0);
        if listed(more_lists, i) {
            assert(middle[i].active_parents > 0);
        }
    }
    assert forall|k1: int, j1: int, k2: int, j2: int|
        0 <= k1 < all_lists.len() && 0 <= j1 < all_lists[k1].len() && 0 <= k2 < all_lists.len()
            && 0 <= j2 < all_lists[k2].len() && (k1 != k2 || j1
            != j2) implies #[trigger] all_lists[k1][j1] != #[trigger] all_lists[k2][j2] by {
        let m = lists.len();
        let i1 = all_lists[k1][j1] as int;
        let i2 = all_lists[k2][j2] as int;
        if k1 < m {
            assert(lists[k1][j1] == i1);
            assert(listed(lists, i1));
        } else {
            assert(more_lists[k1 - m][j1] == i1);
            assert(listed(more_lists, i1));
        }
        if k2 < m {
            assert(lists[k2][j2] == i2);
            assert(listed(lists, i2));
        } else {
            assert(more_lists[k2 - m][j2] == i2);
            assert(listed(more_lists, i2));
        }
    }
    // stopped tasks
    assert forall|i: int| #[trigger] all.contains(i) implies 0 <= i < n && tasks[i].state.active
        && after[i].active_parents == 0 && (tasks[i].active_parents > 0 || all_starts.contains(
        i,
    )) by {
        assert(stopped.contains(i) || more.contains(i));
        if stopped.contains(i) {
            assert(before[i].active_parents == 0);
        } else {
            assert(middle[i].state.active);
            assert(before[i].state.active);
        }
    }
    assert forall|i: int| #[trigger] all.contains(i) implies (all_levels[i] == depth && (
    all_starts.contains(i) || all_released.contains(i))) || (exists|p: int|
        all.contains(p) && #[trigger] is_child(tasks, p, i) && all_levels[p] < DEEP
            && all_levels[i] == all_levels[p] + 1) by {
        if stopped.contains(i) {
            assert(!more.contains(i));
            if !(levels[i] == depth && (starts.contains(i) || released.contains(i))) {
                let p = choose|p: int|
                    stopped.contains(p) && #[trigger] is_child(tasks, p, i) && levels[p] < DEEP
                        && levels[i] == levels[p] + 1;
                assert(!more.contains(p));
                assert(all.contains(p) && is_child(tasks, p, i));
            }
        } else {
            assert(more.contains(i));
            if !(more_levels[i] == depth && i == x) {
                assert(!set![x].contains(i) || more_levels[i] != depth);
                let p = choose|p: int|
                    more.contains(p) && #[trigger] is_child(middle, p, i) && more_levels[p] < DEEP
                        && more_levels[i] == more_levels[p] + 1;
                assert(all.contains(p));
                assert(middle[p].state.active);
                assert(is_child(tasks, p, i));
            }
        }
    }
    assert forall|i: int| #[trigger]
        all_starts.contains(i) && 0 <= i < n && tasks[i].state.active && tasks[i].active_parents
            == 0 implies all.contains(i) by {
        if !starts.contains(i) {
            assert(set![x].contains(i));
            if !stopped.contains(i) {
                assert(middle[i].state.active);
                assert(middle[i].active_parents == 0);
            }
        }
    }
    assert forall|i: int|
        0 <= i < n && tasks[i].active_parents > 0 && (#[trigger] after[i]).active_parents
            == 0 implies all.contains(i) || listed(all_lists, i) by {
        if middle[i].active_parents == 0 {
            if before[i].active_parents > 0 {
                assert(i == x);
                assert(tasks[i].state.active);
                assert(!stopped.contains(i));
                assert(middle[i].state.active);
                assert(set![x].contains(i));
            }
        }
    }
    assert forall|i: int| #[trigger] listed(all_lists, i) implies 0 <= i < n
        && tasks[i].active_parents > 0 && after[i].active_parents == 0 && (!all.contains(i)
        || all_starts.contains(i)) && (exists|p: int|
        all.contains(p) && #[trigger] is_child(tasks, p, i) && all_levels[p] >= DEEP) by {
        if listed(lists, i) {
            assert(before[i].active_parents == 0);
            if more.contains(i) {
                assert(middle[i].active_parents == 0);
                assert(set![x].contains(i));
            }
            let p = choose|p: int|
                stopped.contains(p) && #[trigger] is_child(tasks, p, i) && levels[p] >= DEEP;
            assert(!more.contains(p));
            assert(all.contains(p));
        } else {
            assert(listed(more_lists, i));
            assert(middle[i].active_parents > 0);
            assert(!stopped.contains(i));
            let p = choose|p: int|
                more.contains(p) && #[trigger] is_child(middle, p, i) && more_levels[p] >= DEEP;
            assert(all.contains(p));
            assert(middle[p].state.active);
            assert(is_child(tasks, p, i));
        }
    }
    // the order
    let order = choose|order: Seq<int>| #[trigger] in_order(tasks, stopped, order);
    let more_order = choose|order: Seq<int>| #[trigger] in_order(middle, more, order);
    lemma_in_order_next(tasks, middle, before, stopped, more, order, more_order, all);
    assert(in_order(tasks, all, order + more_order));
    // the owners of the lists
    let owners = choose|owners: Seq<int>| #[trigger] handed_on_by(tasks, levels, lists, owners);
    let more_owners = choose|owners: Seq<int>| #[trigger]
        handed_on_by(middle, more_levels, more_lists, owners);
    lemma_handed_on_next(
        tasks,
        middle,
        levels,
        more_levels,
        lists,
        more_lists,
        owners,
        more_owners,
    );
    // how many lists
    let deep = stopped.filter(|i: int| levels[i] >= DEEP);
    let more_deep = more.filter(|i: int| more_levels[i] >= DEEP);
    assert(all.filter(|i: int| all_levels[i] >= DEEP) =~= deep.union(more_deep)) by {
        assert forall|i: int| stopped.contains(i) implies all_levels[i] == levels[i] by {
            assert(!more.contains(i));
        }
    }
    assert(deep.disjoint(more_deep));
    vstd::set_lib::lemma_set_disjoint_lens(deep, more_deep);
}

/// The tasks in a set of their numbers.
pub open spec fn members(ids: Set<TaskId>) -> Set<int> {
    Set::new(|i: int| 0 <= i <= usize::MAX && ids.contains(i as TaskId))
}

pub(crate) proof fn lemma_members(ids: Set<TaskId>, list: Seq<TaskId>)
    requires
        list.to_set() == ids,
    ensures
        as_set(list) == members(ids),
        forall|j: int| 0 <= j < list.len() ==> ids.contains(#[trigger] list[j]),
{
    assert forall|j: int| 0 <= j < list.len() implies ids.contains(#[trigger] list[j]) by {
        assert(list.to_set().contains(list[j]));
    }
    assert forall|c: int| #[trigger] as_set(list).contains(c) <==> members(ids).contains(c) by {
        if as_set(list).contains(c) {
            let j = choose|j: int| 0 <= j < list.len() && #[trigger] list[j] == c;
            assert(ids.contains(list[j]));
        }
        if members(ids).contains(c) {
            assert(list.to_set().contains(c as TaskId));
            let j = choose|j: int| 0 <= j < list.len() && list[j] == c as TaskId;
            assert(list[j] == c);
        }
    }
    assert(as_set(list) =~= members(ids));
}

/// The tasks in a list.
pub open spec fn as_set(ids: Seq<TaskId>) -> Set<int> {
    Set::new(|i: int| exists|j: int| 0 <= j < ids.len() && #[trigger] ids[j] == i)
}

/// The children of task `i`.
pub open spec fn children_of<F, O>(tasks: Seq<Task<F, O>>, i: int) -> Set<int> {
    Set::new(|c: int| 0 <= c < tasks.len() && is_child(tasks, i, c))
}

/// The tasks after task `i` has become inactive, before its children have noticed.
pub(crate) open spec fn stopped_first<F, O>(tasks: Seq<Task<F, O>>, i: int) -> Seq<Task<F, O>> {
    tasks.update(
        i,
        tasks[i].with_activity(
            false,
            tasks[i].state.state_type,
            tasks[i].active_parents as int,
        ),
    )
}

/// When a task becomes inactive, each of its children counts one active parent too many.
pub(crate) proof fn lemma_stop_ready<F, O>(tasks: Seq<Task<F, O>>, t: int)
    requires
        closed(tasks),
        covered(tasks, Set::empty()),
        awake(tasks),
        0 <= t < tasks.len(),
        tasks[t].state.active,
        tasks[t].active_parents == 0,
    ensures
        closed(stopped_first(tasks, t)),
        covered(stopped_first(tasks, t), children_of(tasks, t)),
        awake(stopped_first(tasks, t)),
        active_tasks(stopped_first(tasks, t)).len() < active_tasks(tasks).len(),
        !children_of(tasks, t).contains(t),
{
    let n = tasks.len() as int;
    let then = stopped_first(tasks, t);
    assert forall|parent: int, c: TaskId|
        0 <= parent < then.len() && #[trigger] then[parent].state.children@.contains(
            c,
        ) implies c < then.len() by {
        assert(tasks[parent].state.children@.contains(c));
    }
    assert(active_tasks(then) =~= active_tasks(tasks).remove(t));
    lemma_finite(active_tasks(tasks), n);
    assert forall|i: int| 0 <= i < n implies (#[trigger] then[i]).active_parents >= links(
        then,
        active_tasks(then),
        i,
    ) + if children_of(tasks, t).contains(i) {
        1nat
    } else {
        0nat
    } by {
        assert forall|p: int| 0 <= p < n implies (#[trigger] tasks[p]).state.children@
            == then[p].state.children@ by {}
        lemma_links_same_children(tasks, then, active_tasks(then), i, n);
        lemma_links_union(tasks, active_tasks(tasks), active_tasks(then), set![t], i, n);
        lemma_links_single(tasks, set![t], t, i, n);
        assert(tasks[i].active_parents >= links(tasks, active_tasks(tasks), i));
    }
    if children_of(tasks, t).contains(t) {
        assert(then[t].active_parents == 0);
        assert(false);
    }
}

/// A task becomes inactive above [`DEEP`], and its children one level deeper.
pub(crate) proof fn lemma_stopped<F, O>(
    tasks: Seq<Task<F, O>>,
    after: Seq<Task<F, O>>,
    t: int,
    depth: nat,
    levels: Map<int, nat>,
    lists: Seq<Seq<TaskId>>,
)
    requires
        closed(tasks),
        covered(tasks, Set::empty()),
        awake(tasks),
        0 <= t < tasks.len(),
        tasks[t].state.active,
        tasks[t].active_parents == 0,
        depth < DEEP,
        shutdown(
            stopped_first(tasks, t),
            after,
            children_of(tasks, t),
            Set::empty(),
            depth + 1,
            levels,
            lists,
        ),
    ensures
        shutdown(
            tasks,
            after,
            Set::empty(),
            set![t],
            depth,
            levels.insert(t, depth),
            lists,
        ),
        !levels.dom().contains(t),
{
    lemma_stop_ready(tasks, t);
    let n = tasks.len() as int;
    let then = stopped_first(tasks, t);
    let stopped = levels.dom();
    let all_levels = levels.insert(t, depth);
    let all = all_levels.dom();
    assert(all =~= stopped.insert(t));
    assert(!stopped.contains(t));
    assert forall|p: int| 0 <= p < n implies (#[trigger] tasks[p]).state.children@
        == then[p].state.children@ by {}
    assert forall|i: int| 0 <= i < n implies lost(tasks, all, Set::empty(), i) == lost(
        then,
        stopped,
        children_of(tasks, t),
        i,
    ) && lost(tasks, all, Set::empty(), i) <= (#[trigger] tasks[i]).active_parents && after[i]
        == deactivated(tasks, all, Set::empty())[i] by {
        lemma_links_same_children(tasks, then, stopped, i, n);
        lemma_links_union(tasks, all, stopped, set![t], i, n);
        lemma_links_single(tasks, set![t], t, i, n);
        assert(lost(then, stopped, children_of(tasks, t), i) <= then[i].active_parents);
    }
    assert(after =~= deactivated(tasks, all, Set::empty()));
    assert forall|i: int| #[trigger] all.contains(i) implies 0 <= i < n && tasks[i].state.active
        && after[i].active_parents == 0 && (tasks[i].active_parents > 0 || set![t].contains(i)) by {
        if i != t {
            assert(stopped.contains(i));
            assert(then[i].state.active);
        }
    }
    assert forall|i: int| #[trigger] all.contains(i) implies (all_levels[i] == depth
        && set![t].contains(i)) || (exists|p: int|
        all.contains(p) && #[trigger] is_child(tasks, p, i) && all_levels[p] < DEEP
            && all_levels[i] == all_levels[p] + 1) by {
        if i != t {
            assert(stopped.contains(i));
            if levels[i] == depth + 1 && children_of(tasks, t).contains(i) {
                assert(all.contains(t) && is_child(tasks, t, i));
            } else {
                let p = choose|p: int|
                    stopped.contains(p) && #[trigger] is_child(then, p, i) && levels[p] < DEEP
                        && levels[i] == levels[p] + 1;
                assert(all.contains(p) && is_child(tasks, p, i));
            }
        }
    }
    assert forall|i: int|
        0 <= i < n && tasks[i].active_parents > 0 && (#[trigger] after[i]).active_parents
            == 0 implies all.contains(i) || listed(lists, i) by {
        assert(then[i].active_parents > 0);
    }
    assert forall|i: int| #[trigger] listed(lists, i) implies 0 <= i < n && tasks[i].active_parents
        > 0 && after[i].active_parents == 0 && (!all.contains(i) || set![t].contains(i)) && (
    exists|p: int|
        all.contains(p) && #[trigger] is_child(tasks, p, i) && all_levels[p] >= DEEP) by {
        assert(then[i].active_parents > 0);
        let p = choose|p: int|
            stopped.contains(p) && #[trigger] is_child(then, p, i) && levels[p] >= DEEP;
        assert(all.contains(p) && is_child(tasks, p, i));
        assert(p != t);
    }
    assert(all.filter(|i: int| all_levels[i] >= DEEP) =~= stopped.filter(
        |i: int| levels[i] >= DEEP,
    ));
    let order = choose|order: Seq<int>| #[trigger] in_order(then, stopped, order);
    let whole = seq![t] + order;
    assert forall|i: int| #[trigger] all.contains(i) <==> whole.contains(i) by {
        assert(whole[0] == t);
        if stopped.contains(i) {
            assert(order.contains(i));
            let a = choose|a: int| 0 <= a < order.len() && order[a] == i;
            assert(whole[a + 1] == i);
        }
        if whole.contains(i) {
            let a = choose|a: int| 0 <= a < whole.len() && whole[a] == i;
            if a > 0 {
                assert(order.contains(order[a - 1]));
            }
        }
    }
    assert forall|a: int, b: int| 0 <= a <= b < whole.len() implies !is_child(
        tasks,
        #[trigger] whole[b],
        #[trigger] whole[a],
    ) by {
        assert(all.contains(whole[b]) && all.contains(whole[a]));
        if a == 0 {
            assert(lost(tasks, all, Set::empty(), t) <= tasks[t].active_parents);
            lemma_links_witness(tasks, all, t, n);
        } else {
            assert(!is_child(then, order[b - 1], order[a - 1]));
        }
    }
    assert(in_order(tasks, all, whole));
    let owners = choose|owners: Seq<int>| #[trigger] handed_on_by(then, levels, lists, owners);
    assert forall|k: int| 0 <= k < owners.len() implies all_levels.dom().contains(
        #[trigger] owners[k],
    ) && all_levels[owners[k]] >= DEEP by {
        assert(stopped.contains(owners[k]));
    }
    assert forall|k: int, j: int| 0 <= k < lists.len() && 0 <= j < lists[k].len() implies is_child(
        tasks,
        owners[k],
        #[trigger] lists[k][j] as int,
    ) by {
        assert(stopped.contains(owners[k]));
        assert(is_child(then, owners[k], lists[k][j] as int));
    }
    assert(handed_on_by(tasks, all_levels, lists, owners));
}

/// A task becomes inactive at [`DEEP`] or below, and its children that have no active
/// parent left are handed on.
pub(crate) proof fn lemma_stopped_deep<F, O>(
    tasks: Seq<Task<F, O>>,
    after: Seq<Task<F, O>>,
    t: int,
    depth: nat,
    list: Seq<TaskId>,
)
    requires
        closed(tasks),
        covered(tasks, Set::empty()),
        awake(tasks),
        0 <= t < tasks.len(),
        tasks[t].state.active,
        tasks[t].active_parents == 0,
        depth >= DEEP,
        after == deactivated(stopped_first(tasks, t), Set::empty(), children_of(tasks, t)),
        tasks.len() <= usize::MAX,
        list.no_duplicates(),
        forall|i: TaskId| #[trigger]
            list.contains(i) <==> children_of(tasks, t).contains(i as int)
                && tasks[i as int].active_parents == 1,
    ensures
        shutdown(
            tasks,
            after,
            Set::empty(),
            set![t],
            depth,
            Map::empty().insert(t, depth),
            seq![list],
        ),
{
    lemma_stop_ready(tasks, t);
    let n = tasks.len() as int;
    let then = stopped_first(tasks, t);
    let kids = children_of(tasks, t);
    let levels = Map::<int, nat>::empty().insert(t, depth);
    let stopped = levels.dom();
    let lists = seq![list];
    assert(stopped =~= set![t]);
    assert forall|i: int| 0 <= i < n implies lost(tasks, stopped, Set::empty(), i) == lost(
        then,
        Set::empty(),
        kids,
        i,
    ) && lost(tasks, stopped, Set::empty(), i) <= (#[trigger] tasks[i]).active_parents && after[i]
        == deactivated(tasks, stopped, Set::empty())[i] && lost(tasks, stopped, Set::empty(), i)
        == (if kids.contains(i) {
        1nat
    } else {
        0nat
    }) by {
        lemma_links_none(then, Set::empty(), i, n);
        lemma_links_single(tasks, stopped, t, i, n);
        assert(then[i].active_parents >= links(then, active_tasks(then), i) + if kids.contains(i) {
            1nat
        } else {
            0nat
        });
    }
    assert(after =~= deactivated(tasks, stopped, Set::empty()));
    assert forall|i: int| #[trigger]
        listed(lists, i) <==> kids.contains(i) && tasks[i].active_parents == 1 by {
        if listed(lists, i) {
            let (k, j) = choose|k: int, j: int|
                0 <= k < lists.len() && 0 <= j < lists[k].len() && #[trigger] lists[k][j] == i;
            assert(lists[k] == list);
            assert(list.contains(i as TaskId));
        }
        if kids.contains(i) && tasks[i].active_parents == 1 {
            assert(tasks[t].state.children@.contains(i as TaskId));
            assert(0 <= i < n);
            assert(list.contains(i as TaskId));
            let j = choose|j: int| 0 <= j < list.len() && list[j] == i as TaskId;
            assert(lists[0][j] == i);
        }
    }
    assert(stopped.filter(|i: int| levels[i] >= DEEP) =~= set![t]);
    assert forall|i: int| #[trigger] stopped.contains(i) <==> seq![t].contains(i) by {
        assert(seq![t][0] == t);
    }
    assert(!is_child(tasks, t, t));
    assert(in_order(tasks, stopped, seq![t]));
    assert forall|k: int, j: int| 0 <= k < lists.len() && 0 <= j < lists[k].len() implies is_child(
        tasks,
        t,
        #[trigger] lists[k][j] as int,
    ) by {
        assert(list.contains(list[j]));
    }
    assert(handed_on_by(tasks, levels, lists, seq![t]));
    assert forall|i: int| #[trigger] listed(lists, i) implies (exists|p: int|
        stopped.contains(p) && #[trigger] is_child(tasks, p, i) && levels[p] >= DEEP) by {
        assert(stopped.contains(t) && is_child(tasks, t, i));
    }
}

/// While tasks are released one after the other, the next one can be.
pub(crate) proof fn lemma_release_ready<F, O>(
    tasks: Seq<Task<F, O>>,
    before: Seq<Task<F, O>>,
    released: Set<int>,
    owed: Set<int>,
    depth: nat,
    levels: Map<int, nat>,
    lists: Seq<Seq<TaskId>>,
    x: int,
)
    requires
        closed(tasks),
        covered(tasks, owed),
        awake(tasks),
        shutdown(tasks, before, released, Set::empty(), depth, levels, lists),
        released.subset_of(owed),
        owed.contains(x),
        !released.contains(x),
        0 <= x < tasks.len(),
    ensures
        before[x].active_parents >= 1,
        ({
            let middle = before.update(
                x,
                before[x].with_activity(
                    before[x].state.active,
                    before[x].state.state_type,
                    before[x].active_parents - 1,
                ),
            );
            &&& closed(middle)
            &&& covered(middle, Set::empty())
            &&& awake(middle)
            &&& active_tasks(middle).len() <= active_tasks(tasks).len()
        }),
{
    let n = tasks.len() as int;
    let stopped = levels.dom();
    let middle = before.update(
        x,
        before[x].with_activity(
            before[x].state.active,
            before[x].state.state_type,
            before[x].active_parents - 1,
        ),
    );
    assert forall|p: int| 0 <= p < n implies (#[trigger] tasks[p]).state.children@
        == middle[p].state.children@ by {
        assert(before[p].state.children@ == tasks[p].state.children@);
    }
    assert forall|parent: int, c: TaskId|
        0 <= parent < middle.len() && #[trigger] middle[parent].state.children@.contains(
            c,
        ) implies c < middle.len() by {
        assert(tasks[parent].state.children@.contains(c));
    }
    assert forall|p: int| 0 <= p < n implies (#[trigger] active_tasks(tasks).contains(p)
        <==> active_tasks(middle).contains(p) || stopped.contains(p)) && !(active_tasks(
        middle,
    ).contains(p) && stopped.contains(p)) by {
        assert(before[p].state.active == (tasks[p].state.active && !stopped.contains(p)));
    }
    assert forall|i: int| 0 <= i < n implies before[i].active_parents >= links(
        middle,
        active_tasks(middle),
        i,
    ) + (if owed.contains(i) && !released.contains(i) {
        1nat
    } else {
        0nat
    }) by {
        lemma_links_union(tasks, active_tasks(tasks), active_tasks(middle), stopped, i, n);
        lemma_links_same_children(tasks, middle, active_tasks(middle), i, n);
        assert(tasks[i].active_parents >= links(tasks, active_tasks(tasks), i) + if owed.contains(
            i,
        ) {
            1nat
        } else {
            0nat
        });
        assert(lost(tasks, stopped, released, i) <= tasks[i].active_parents);
    }
    assert forall|i: int| 0 <= i < n && (#[trigger] middle[i]).active_parents
        > 0 implies middle[i].state.active by {
        assert(before[i].active_parents > 0);
        assert(lost(tasks, stopped, released, i) <= tasks[i].active_parents);
        assert(tasks[i].active_parents > 0);
        assert(!stopped.contains(i));
    }
    lemma_finite(active_tasks(tasks), n);
    assert(active_tasks(middle).subset_of(active_tasks(tasks))) by {
        assert forall|i: int| active_tasks(middle).contains(i) implies active_tasks(tasks).contains(
            i,
        ) by {
            assert(before[i].state.active);
        }
    }
    vstd::set_lib::lemma_len_subset(active_tasks(middle), active_tasks(tasks));
}

/// A list of the children of a task.
pub(crate) proof fn lemma_children_listed<F, O>(
    tasks: Seq<Task<F, O>>,
    i: int,
    children: Seq<TaskId>,
)
    requires
        closed(tasks),
        0 <= i < tasks.len() <= usize::MAX,
        children.to_set() == tasks[i].state.children@,
    ensures
        as_set(children) == children_of(tasks, i),
        forall|j: int| 0 <= j < children.len() ==> #[trigger] children[j] < tasks.len(),
{
    assert forall|j: int| 0 <= j < children.len() implies #[trigger] children[j] < tasks.len() by {
        assert(children.to_set().contains(children[j]));
        assert(tasks[i].state.children@.contains(children[j]));
    }
    assert forall|c: int| #[trigger]
        as_set(children).contains(c) <==> children_of(tasks, i).contains(c) by {
        if as_set(children).contains(c) {
            let j = choose|j: int| 0 <= j < children.len() && #[trigger] children[j] == c;
            assert(children.to_set().contains(children[j]));
        }
        if children_of(tasks, i).contains(c) {
            assert(children.to_set().contains(c as TaskId));
            let j = choose|j: int| 0 <= j < children.len() && children[j] == c as TaskId;
            assert(children[j] == c);
        }
    }
    assert(as_set(children) =~= children_of(tasks, i));
}

pub(crate) proof fn lemma_levels_union(levels: Map<int, nat>, more: Map<int, nat>, n: int)
    requires
        0 <= n,
        levels.dom().disjoint(more.dom()),
        levels.dom().finite(),
        more.dom().finite(),
        forall|i: int| #[trigger]
            levels.union_prefer_right(more).dom().contains(i) ==> 0 <= i < n,
    ensures
        levels.union_prefer_right(more).dom().len() == levels.dom().len() + more.dom().len(),
        levels.dom().len() + more.dom().len() <= n,
{
    let all = levels.union_prefer_right(more).dom();
    assert(all =~= levels.dom().union(more.dom()));
    vstd::set_lib::lemma_set_disjoint_lens(levels.dom(), more.dom());
    lemma_finite(all, n);
}

pub(crate) proof fn lemma_as_set_next(ids: Seq<TaskId>, i: int)
    requires
        0 <= i < ids.len(),
    ensures
        as_set(ids.take(i + 1)) == as_set(ids.take(i)).insert(ids[i] as int),
        ids.no_duplicates() ==> !as_set(ids.take(i)).contains(ids[i] as int),
{
    let shorter = ids.take(i);
    let longer = ids.take(i + 1);
    assert forall|c: int| #[trigger]
        as_set(longer).contains(c) <==> as_set(shorter).insert(ids[i] as int).contains(c) by {
        if as_set(shorter).contains(c) {
            let j = choose|j: int| 0 <= j < shorter.len() && #[trigger] shorter[j] == c;
            assert(longer[j] == c);
        }
        if as_set(longer).contains(c) {
            let j = choose|j: int| 0 <= j < longer.len() && #[trigger] longer[j] == c;
            if j < i {
                assert(shorter[j] == c);
            }
        }
        assert(longer[i] == ids[i]);
    }
    assert(as_set(longer) =~= as_set(shorter).insert(ids[i] as int));
}

// Lemmas on what always holds

/// Links when the children of one task change.
pub(crate) proof fn lemma_links_changed<F, O>(
    tasks: Seq<Task<F, O>>,
    others: Seq<Task<F, O>>,
    parents: Set<int>,
    t: int,
    child: int,
    n: int,
)
    requires
        forall|p: int|
            0 <= p < n && p != t ==> (#[trigger] tasks[p]).state.children@
                == others[p].state.children@,
    ensures
        links_among(others, parents, child, n) + if 0 <= t < n && parents.contains(t) && is_child(
            tasks,
            t,
            child,
        ) {
            1nat
        } else {
            0nat
        } == links_among(tasks, parents, child, n) + if 0 <= t < n && parents.contains(t)
            && is_child(others, t, child) {
            1nat
        } else {
            0nat
        },
    decreases n,
{
    if n > 0 {
        lemma_links_changed(tasks, others, parents, t, child, n - 1);
        if n - 1 != t {
            assert(tasks[n - 1].state.children@ == others[n - 1].state.children@);
        }
    }
}

/// A shutdown keeps what always holds.
pub(crate) proof fn lemma_shutdown_keeps<F, O>(
    tasks: Seq<Task<F, O>>,
    after: Seq<Task<F, O>>,
    released: Set<int>,
    starts: Set<int>,
    depth: nat,
    levels: Map<int, nat>,
    lists: Seq<Seq<TaskId>>,
    owed: Set<int>,
)
    requires
        shutdown(tasks, after, released, starts, depth, levels, lists),
        closed(tasks),
        covered(tasks, owed),
        released.subset_of(owed),
        awake(tasks),
    ensures
        closed(after),
        covered(after, owed.difference(released)),
        awake(after),
        roomy(tasks) ==> roomy(after),
        settled(tasks) ==> settled(after),
{
    let n = tasks.len() as int;
    let stopped = levels.dom();
    assert forall|p: int| 0 <= p < n implies (#[trigger] tasks[p]).state.children@
        == after[p].state.children@ by {
        assert(after[p].state.children@ == tasks[p].state.children@);
    }
    assert forall|parent: int, c: TaskId|
        0 <= parent < after.len() && #[trigger] after[parent].state.children@.contains(
            c,
        ) implies c < after.len() by {
        assert(tasks[parent].state.children@.contains(c));
    }
    assert forall|p: int| 0 <= p < n implies (#[trigger] active_tasks(tasks).contains(p)
        <==> active_tasks(after).contains(p) || stopped.contains(p)) && !(active_tasks(
        after,
    ).contains(p) && stopped.contains(p)) by {
        assert(after[p].state.active == (tasks[p].state.active && !stopped.contains(p)));
    }
    assert forall|p: int| 0 <= p < n implies (#[trigger] inactive_tasks(after).contains(p)
        <==> inactive_tasks(tasks).contains(p) || stopped.contains(p)) && !(inactive_tasks(
        tasks,
    ).contains(p) && stopped.contains(p)) by {
        assert(after[p].state.active == (tasks[p].state.active && !stopped.contains(p)));
    }
    assert forall|i: int| 0 <= i < n implies (#[trigger] after[i]).active_parents >= links(
        after,
        active_tasks(after),
        i,
    ) + (if owed.difference(released).contains(i) {
        1nat
    } else {
        0nat
    }) && load(after, i) <= load(tasks, i) by {
        lemma_links_union(tasks, active_tasks(tasks), active_tasks(after), stopped, i, n);
        lemma_links_same_children(tasks, after, active_tasks(after), i, n);
        lemma_links_union(tasks, inactive_tasks(after), inactive_tasks(tasks), stopped, i, n);
        lemma_links_same_children(tasks, after, inactive_tasks(after), i, n);
        assert(tasks[i].active_parents >= links(tasks, active_tasks(tasks), i) + if owed.contains(
            i,
        ) {
            1nat
        } else {
            0nat
        });
        assert(lost(tasks, stopped, released, i) <= tasks[i].active_parents);
    }
    assert forall|i: int| 0 <= i < n && (#[trigger] after[i]).active_parents
        > 0 implies after[i].state.active by {
        assert(lost(tasks, stopped, released, i) <= tasks[i].active_parents);
        assert(!stopped.contains(i));
    }
    if roomy(tasks) {
        assert forall|i: int| 0 <= i < after.len() implies #[trigger] load(after, i) <= u32::MAX by {
            assert(after[i].active_parents >= 0);
            assert(load(tasks, i) <= u32::MAX);
        }
    }
    if settled(tasks) {
        assert forall|i: int| 0 <= i < after.len() && (
        #[trigger] after[i]).state.active implies after[i].state.state_type
            != TaskStateType::Dirty by {
            assert(tasks[i].state.active);
        }
    }
}

/// Activation of a task that has got its first active parent keeps what always holds.
pub(crate) proof fn lemma_activation_keeps<F, O>(tasks: Seq<Task<F, O>>, start: int)
    requires
        0 <= start < tasks.len(),
        closed(tasks),
        covered(tasks, Set::empty()),
        roomy(tasks),
        settled(tasks),
        tasks[start].active_parents > 0,
        forall|i: int|
            0 <= i < tasks.len() && i != start && (#[trigger] tasks[i]).active_parents > 0
                ==> tasks[i].state.active,
    ensures
        closed(activated(tasks, woken(tasks, start))),
        covered(activated(tasks, woken(tasks, start)), Set::empty()),
        awake(activated(tasks, woken(tasks, start))),
        roomy(activated(tasks, woken(tasks, start))),
        settled(activated(tasks, woken(tasks, start))),
        woken(tasks, start).subset_of(inactive_tasks(tasks)),
        forall|i: int|
            0 <= i < tasks.len() ==> tasks[i].active_parents + #[trigger] links(
                tasks,
                woken(tasks, start),
                i,
            ) <= u32::MAX,
        !tasks[start].state.active ==> woken(tasks, start).contains(start),
{
    let n = tasks.len() as int;
    let more = woken(tasks, start);
    let after = activated(tasks, more);
    assert forall|i: int| #[trigger] more.contains(i) implies inactive_tasks(tasks).contains(i) by {
        lemma_woken_inactive(tasks, start, i);
    }
    if !tasks[start].state.active {
        lemma_wakes_itself(tasks, start);
    }
    assert forall|p: int| 0 <= p < n implies (#[trigger] tasks[p]).state.children@
        == after[p].state.children@ by {
        assert(after[p].state.children@ == tasks[p].state.children@);
    }
    assert forall|parent: int, c: TaskId|
        0 <= parent < after.len() && #[trigger] after[parent].state.children@.contains(
            c,
        ) implies c < after.len() by {
        assert(tasks[parent].state.children@.contains(c));
    }
    assert forall|p: int| 0 <= p < n implies (#[trigger] active_tasks(after).contains(p)
        <==> active_tasks(tasks).contains(p) || more.contains(p)) && !(active_tasks(
        tasks,
    ).contains(p) && more.contains(p)) by {
        assert(more.contains(p) ==> inactive_tasks(tasks).contains(p));
    }
    assert forall|p: int| 0 <= p < n implies (#[trigger] inactive_tasks(tasks).contains(p)
        <==> inactive_tasks(after).contains(p) || more.contains(p)) && !(inactive_tasks(
        after,
    ).contains(p) && more.contains(p)) by {
        assert(more.contains(p) ==> inactive_tasks(tasks).contains(p));
    }
    assert forall|i: int| 0 <= i < n implies tasks[i].active_parents + #[trigger] links(
        tasks,
        more,
        i,
    ) <= u32::MAX && load(after, i) == load(tasks, i) && after[i].active_parents >= links(
        after,
        active_tasks(after),
        i,
    ) by {
        lemma_links_union(tasks, active_tasks(after), active_tasks(tasks), more, i, n);
        lemma_links_same_children(tasks, after, active_tasks(after), i, n);
        lemma_links_union(tasks, inactive_tasks(tasks), inactive_tasks(after), more, i, n);
        lemma_links_same_children(tasks, after, inactive_tasks(after), i, n);
        assert(load(tasks, i) <= u32::MAX);
        assert(tasks[i].active_parents >= links(tasks, active_tasks(tasks), i));
    }
    assert forall|i: int| 0 <= i < n && (#[trigger] after[i]).active_parents
        > 0 implies after[i].state.active by {
        assert(tasks[i].active_parents + links(tasks, more, i) <= u32::MAX);
        if tasks[i].active_parents == 0 && !tasks[i].state.active {
            lemma_links_witness(tasks, more, i, n);
            let p = choose|p: int|
                0 <= p < n && more.contains(p) && #[trigger] is_child(tasks, p, i);
            lemma_wakes_child(tasks, start, p, i);
        }
    }
    assert forall|i: int| 0 <= i < n implies (#[trigger] after[i]).active_parents >= links(
        after,
        active_tasks(after),
        i,
    ) by {
        assert(tasks[i].active_parents + links(tasks, more, i) <= u32::MAX);
    }
    assert forall|i: int| 0 <= i < n implies #[trigger] load(after, i) <= u32::MAX by {
        assert(tasks[i].active_parents + links(tasks, more, i) <= u32::MAX);
        assert(load(tasks, i) <= u32::MAX);
    }
    assert forall|i: int| 0 <= i < n && (
    #[trigger] after[i]).state.active implies after[i].state.state_type
        != TaskStateType::Dirty by {
        assert(tasks[i].state.active || more.contains(i));
    }
}

/// A new link keeps what always holds, once an active parent is counted.
pub(crate) proof fn lemma_new_child_keeps<F, O>(
    tasks: Seq<Task<F, O>>,
    parent: int,
    child: int,
    children: HashSet<TaskId>,
)
    requires
        closed(tasks),
        covered(tasks, Set::empty()),
        awake(tasks),
        roomy(tasks),
        settled(tasks),
        0 <= parent < tasks.len() <= usize::MAX,
        0 <= child < tasks.len(),
        children@ == tasks[parent].state.children@.insert(child as TaskId),
        !is_child(tasks, parent, child) ==> load(tasks, child) < u32::MAX,
    ensures
        ({
            let linked = with_children(tasks, parent, children);
            let counted = with_parent_counted(linked, child);
            if is_child(tasks, parent, child) || !tasks[parent].state.active {
                &&& closed(linked)
                &&& covered(linked, Set::empty())
                &&& awake(linked)
                &&& roomy(linked)
                &&& settled(linked)
            } else {
                &&& tasks[child].active_parents < u32::MAX
                &&& closed(counted)
                &&& covered(counted, Set::empty())
                &&& roomy(counted)
                &&& settled(counted)
            }
        }),
{
    let n = tasks.len() as int;
    let linked = with_children(tasks, parent, children);
    let counted = with_parent_counted(linked, child);
    assert forall|p: int, c: TaskId|
        0 <= p < n && #[trigger] linked[p].state.children@.contains(c) implies c < n by {
        if p != parent || c != child {
            assert(tasks[p].state.children@.contains(c));
        }
    }
    assert(active_tasks(linked) =~= active_tasks(tasks));
    assert(inactive_tasks(linked) =~= inactive_tasks(tasks));
    assert(active_tasks(counted) =~= active_tasks(tasks));
    assert(inactive_tasks(counted) =~= inactive_tasks(tasks));
    let new = !is_child(tasks, parent, child);
    let active = tasks[parent].state.active;
    assert forall|i: int| 0 <= i < n implies links(linked, active_tasks(linked), i) == links(
        tasks,
        active_tasks(tasks),
        i,
    ) + (if new && active && i == child {
        1nat
    } else {
        0nat
    }) && links(linked, inactive_tasks(linked), i) == links(tasks, inactive_tasks(tasks), i) + (
    if new && !active && i == child {
        1nat
    } else {
        0nat
    }) && #[trigger] load(linked, i) <= u32::MAX && (tasks[i].active_parents >= links(
        tasks,
        active_tasks(tasks),
        i,
    )) by {
        assert forall|p: int| 0 <= p < n && p != parent implies (
        #[trigger] tasks[p]).state.children@ == linked[p].state.children@ by {}
        lemma_links_changed(tasks, linked, active_tasks(tasks), parent, i, n);
        lemma_links_changed(tasks, linked, inactive_tasks(tasks), parent, i, n);
        assert(i as TaskId == i);
        assert(child as TaskId == child);
        assert(is_child(linked, parent, i) <==> is_child(tasks, parent, i) || i == child);
        assert(load(tasks, i) <= u32::MAX);
        assert(linked[i].active_parents == tasks[i].active_parents);
        assert(tasks[i].active_parents >= links(tasks, active_tasks(tasks), i) + 0);
    }
    assert(load(linked, child) <= u32::MAX);
    if !new || !active {
        assert forall|i: int| 0 <= i < n implies (#[trigger] linked[i]).active_parents >= links(
            linked,
            active_tasks(linked),
            i,
        ) by {
            assert(load(linked, i) <= u32::MAX);
        }
        assert forall|i: int| 0 <= i < n && (#[trigger] linked[i]).active_parents
            > 0 implies linked[i].state.active by {
            assert(tasks[i].active_parents > 0);
        }
        assert forall|i: int| 0 <= i < n && (
        #[trigger] linked[i]).state.active implies linked[i].state.state_type
            != TaskStateType::Dirty by {
            assert(tasks[i].state.active);
        }
    } else {
        assert forall|p: int| 0 <= p < n implies (#[trigger] linked[p]).state.children@
            == counted[p].state.children@ by {}
        assert forall|p: int, c: TaskId|
            0 <= p < n && #[trigger] counted[p].state.children@.contains(c) implies c < n by {
            assert(linked[p].state.children@.contains(c));
        }
        assert forall|i: int| 0 <= i < n implies (#[trigger] counted[i]).active_parents >= links(
            counted,
            active_tasks(counted),
            i,
        ) && load(counted, i) <= u32::MAX by {
            assert(load(linked, i) <= u32::MAX);
            lemma_links_same_children(linked, counted, active_tasks(tasks), i, n);
            lemma_links_same_children(linked, counted, inactive_tasks(tasks), i, n);
        }
        assert forall|i: int| 0 <= i < n implies #[trigger] load(counted, i) <= u32::MAX by {
            assert(counted[i].active_parents >= 0);
        }
        assert forall|i: int| 0 <= i < n && (
        #[trigger] counted[i]).state.active implies counted[i].state.state_type
            != TaskStateType::Dirty by {
            assert(tasks[i].state.active);
        }
    }
}

/// A task that lets go of its children keeps what always holds; each of the children
/// then counts one active parent too many.
pub(crate) proof fn lemma_started_keeps<F, O>(
    tasks: Seq<Task<F, O>>,
    t: int,
    after: Seq<Task<F, O>>,
)
    requires
        closed(tasks),
        covered(tasks, Set::empty()),
        awake(tasks),
        roomy(tasks),
        settled(tasks),
        0 <= t < tasks.len(),
        tasks[t].state.active,
        after == tasks.update(t, after[t]),
        after[t].state.active,
        after[t].state.state_type != TaskStateType::Dirty,
        after[t].active_parents == tasks[t].active_parents,
        after[t].state.children@.is_empty(),
    ensures
        closed(after),
        covered(after, children_of(tasks, t)),
        awake(after),
        roomy(after),
        settled(after),
{
    let n = tasks.len() as int;
    assert(active_tasks(after) =~= active_tasks(tasks));
    assert(inactive_tasks(after) =~= inactive_tasks(tasks));
    assert forall|p: int, c: TaskId|
        0 <= p < n && #[trigger] after[p].state.children@.contains(c) implies c < n by {
        assert(tasks[p].state.children@.contains(c));
    }
    assert forall|i: int| 0 <= i < n implies (#[trigger] after[i]).active_parents >= links(
        after,
        active_tasks(after),
        i,
    ) + (if children_of(tasks, t).contains(i) {
        1nat
    } else {
        0nat
    }) && load(after, i) <= u32::MAX by {
        assert forall|p: int| 0 <= p < n && p != t implies (#[trigger] tasks[p]).state.children@
            == after[p].state.children@ by {}
        lemma_links_changed(tasks, after, active_tasks(tasks), t, i, n);
        lemma_links_changed(tasks, after, inactive_tasks(tasks), t, i, n);
        assert(!is_child(after, t, i));
        assert(load(tasks, i) <= u32::MAX);
        assert(tasks[i].active_parents >= links(tasks, active_tasks(tasks), i) + 0);
    }
    assert forall|i: int| 0 <= i < n implies #[trigger] load(after, i) <= u32::MAX by {
        assert(after[i].active_parents >= 0);
    }
    assert forall|i: int| 0 <= i < n && (#[trigger] after[i]).active_parents
        > 0 implies after[i].state.active by {
        assert(tasks[i].active_parents > 0);
    }
    assert forall|i: int| 0 <= i < n && (
    #[trigger] after[i]).state.active implies after[i].state.state_type
        != TaskStateType::Dirty by {
        assert(tasks[i].state.active);
    }
}

/// A new task keeps what always holds.
pub(crate) proof fn lemma_new_task_keeps<F, O>(tasks: Seq<Task<F, O>>, task: Task<F, O>)
    requires
        closed(tasks),
        covered(tasks, Set::empty()),
        awake(tasks),
        roomy(tasks),
        settled(tasks),
        tasks.len() <= usize::MAX,
        task.is_idle() || task.is_top(),
    ensures
        closed(tasks.push(task)),
        covered(tasks.push(task), Set::empty()),
        awake(tasks.push(task)),
        roomy(tasks.push(task)),
        settled(tasks.push(task)),
        forall|i: int| 0 <= i < tasks.len() ==> #[trigger] links(
            tasks.push(task),
            active_tasks(tasks.push(task)),
            i,
        ) == links(tasks, active_tasks(tasks), i),
        links(tasks.push(task), active_tasks(tasks.push(task)), tasks.len() as int) == 0,
{
    let n = tasks.len() as int;
    let after = tasks.push(task);
    assert forall|p: int, c: TaskId|
        0 <= p < after.len() && #[trigger] after[p].state.children@.contains(c) implies c
        < after.len() by {
        assert(p < n);
        assert(tasks[p].state.children@.contains(c));
    }
    assert forall|i: int| 0 <= i < n implies #[trigger] links(after, active_tasks(after), i)
        == links(tasks, active_tasks(tasks), i) && links(after, inactive_tasks(after), i) == links(
        tasks,
        inactive_tasks(tasks),
        i,
    ) by {
        lemma_links_same_children(tasks, after, active_tasks(after), i, n);
        lemma_links_same_children(tasks, after, inactive_tasks(after), i, n);
        lemma_links_union(tasks, active_tasks(after), active_tasks(tasks), Set::empty(), i, n);
        lemma_links_union(tasks, inactive_tasks(after), inactive_tasks(tasks), Set::empty(), i, n);
        lemma_links_none(tasks, Set::empty(), i, n);
        assert(!is_child(after, n, i));
    }
    assert(links(after, active_tasks(after), n) == 0 && links(after, inactive_tasks(after), n)
        == 0) by {
        lemma_links_witness(after, active_tasks(after), n, n + 1);
        lemma_links_witness(after, inactive_tasks(after), n, n + 1);
        assert forall|p: int| 0 <= p < n + 1 implies !#[trigger] is_child(after, p, n) by {
            if p < n && is_child(after, p, n) {
                assert(tasks[p].state.children@.contains(n as TaskId));
                assert((n as TaskId) < n);
            }
        }
    }
    assert forall|i: int| 0 <= i < after.len() implies (#[trigger] after[i]).active_parents
        >= links(after, active_tasks(after), i) by {
        if i < n {
            assert(tasks[i].active_parents >= links(tasks, active_tasks(tasks), i) + 0);
            assert(links(after, active_tasks(after), i) == links(tasks, active_tasks(tasks), i));
        }
    }
    assert forall|i: int| 0 <= i < after.len() implies #[trigger] load(after, i) <= u32::MAX by {
        if i < n {
            assert(links(after, active_tasks(after), i) == links(tasks, active_tasks(tasks), i));
            assert(load(tasks, i) <= u32::MAX);
        }
    }
}

} // verus!

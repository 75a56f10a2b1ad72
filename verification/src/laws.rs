//! What holds of the tasks and of the jobs of the runtime together, whatever happens to
//! the tasks.
use std::collections::HashSet;
use vstd::prelude::*;

use crate::dependencies;
use crate::dependencies::Dependencies;
use crate::events::DoneEvent;
use crate::links;
use crate::slot::{Slot, SlotRef, TaskId};
use crate::state::{TaskState, TaskStateType};
use crate::task::{Task, TaskExecutionData};
use crate::turbo_tasks;
use crate::turbo_tasks::JobView;

verus! {

impl<F, O> Task<F, O> {
    /// Whether the task counts itself as an active parent, so that it is active forever.
    pub open spec fn always_active(self) -> bool {
        self.ty is Root || self.ty is Once
    }

    /// Whether `other` stands in the graph as the task does.
    pub open spec fn same_place(self, other: Task<F, O>) -> bool {
        &&& self.state.active == other.state.active
        &&& self.state.children@ == other.state.children@
        &&& self.active_parents == other.active_parents
        &&& self.always_active() == other.always_active()
    }
}

/// How many of the jobs take an active parent away from task `i`.
pub open spec fn removals(jobs: Seq<JobView>, i: int) -> nat
    decreases jobs.len(),
{
    if jobs.len() == 0 {
        0
    } else {
        removals(jobs.drop_last(), i) + if jobs.last() matches JobView::RemoveTasks(ids)
            && links::members(ids).contains(i) {
            1nat
        } else {
            0nat
        }
    }
}

/// Whether one of the jobs deactivates task `i` if it counts no active parent.
pub open spec fn deactivation_awaits(jobs: Seq<JobView>, i: int) -> bool {
    exists|k: int|
        0 <= k < jobs.len() && (#[trigger] jobs[k] matches JobView::DeactivateTasks(ids)
            && links::as_set(ids).contains(i))
}

/// Whether the tasks of a job exist, where there are `n`.
pub open spec fn job_known(job: JobView, n: nat) -> bool {
    match job {
        JobView::Schedule(id) => id < n,
        JobView::RemoveTasks(ids) => forall|id: TaskId| #[trigger] ids.contains(id) ==> id < n,
        JobView::DeactivateTasks(ids) => forall|j: int| 0 <= j < ids.len()
            ==> #[trigger] ids[j] < n,
    }
}

/// Whether the tasks and the jobs that are yet to run agree: the tasks of the jobs exist,
/// each task counts its active parents, the removals that await it, and one more where
/// it is active forever; each task that counts one is active; and each active task that
/// counts none awaits its deactivation.
pub open spec fn accounts<F, O>(tasks: Seq<Task<F, O>>, jobs: Seq<JobView>) -> bool {
    &&& forall|k: int| 0 <= k < jobs.len() ==> job_known(#[trigger] jobs[k], tasks.len())
    &&& forall|i: int|
        0 <= i < tasks.len() ==> (#[trigger] tasks[i]).active_parents == links::links(
            tasks,
            links::active_tasks(tasks),
            i,
        ) + removals(jobs, i) + if tasks[i].always_active() {
            1nat
        } else {
            0nat
        }
    &&& links::awake(tasks)
    &&& forall|i: int|
        0 <= i < tasks.len() && (#[trigger] tasks[i]).state.active && tasks[i].active_parents == 0
            ==> deactivation_awaits(jobs, i)
}

// Lemmas on jobs

proof fn lemma_removals_sum(jobs: Seq<JobView>, more: Seq<JobView>, i: int)
    ensures
        removals(jobs + more, i) == removals(jobs, i) + removals(more, i),
    decreases more.len(),
{
    if more.len() == 0 {
        assert(jobs + more =~= jobs);
    } else {
        assert((jobs + more).drop_last() =~= jobs + more.drop_last());
        lemma_removals_sum(jobs, more.drop_last(), i);
    }
}

proof fn lemma_no_removals(jobs: Seq<JobView>, i: int)
    requires
        forall|k: int| 0 <= k < jobs.len() ==> !(#[trigger] jobs[k] is RemoveTasks),
    ensures
        removals(jobs, i) == 0,
    decreases jobs.len(),
{
    if jobs.len() > 0 {
        assert(!(jobs[jobs.len() - 1] is RemoveTasks));
        assert forall|k: int| 0 <= k < jobs.drop_last().len() implies !(
        #[trigger] jobs.drop_last()[k] is RemoveTasks) by {
            assert(!(jobs[k] is RemoveTasks));
        }
        lemma_no_removals(jobs.drop_last(), i);
    }
}

/// A job counts once, wherever it stands.
proof fn lemma_removals_without(jobs: Seq<JobView>, k: int, i: int)
    requires
        0 <= k < jobs.len(),
    ensures
        removals(jobs, i) == removals(jobs.remove(k), i) + removals(seq![jobs[k]], i),
{
    let first = jobs.take(k);
    let rest = jobs.skip(k + 1);
    assert(jobs =~= first + seq![jobs[k]] + rest);
    assert(jobs.remove(k) =~= first + rest);
    lemma_removals_sum(first + seq![jobs[k]], rest, i);
    lemma_removals_sum(first, seq![jobs[k]], i);
    lemma_removals_sum(first, rest, i);
}

proof fn lemma_removals_single(job: JobView, i: int)
    ensures
        removals(seq![job], i) == if job matches JobView::RemoveTasks(ids) && links::members(
            ids,
        ).contains(i) {
            1nat
        } else {
            0nat
        },
{
    assert(seq![job].drop_last() =~= Seq::<JobView>::empty());
    assert(seq![job].last() == job);
    assert(removals(Seq::<JobView>::empty(), i) == 0);
}

/// No job speaks of a task that does not exist.
proof fn lemma_removals_known(jobs: Seq<JobView>, n: nat, i: int)
    requires
        forall|k: int| 0 <= k < jobs.len() ==> job_known(#[trigger] jobs[k], n),
        i >= n,
    ensures
        removals(jobs, i) == 0,
    decreases jobs.len(),
{
    if jobs.len() > 0 {
        assert(job_known(jobs[jobs.len() - 1], n));
        assert forall|k: int| 0 <= k < jobs.drop_last().len() implies job_known(
            #[trigger] jobs.drop_last()[k],
            n,
        ) by {
            assert(job_known(jobs[k], n));
        }
        lemma_removals_known(jobs.drop_last(), n, i);
        if let JobView::RemoveTasks(ids) = jobs.last() {
            if links::members(ids).contains(i) {
                assert(ids.contains(i as TaskId));
            }
        }
    }
}

/// What the jobs say of tasks when more of them are added.
proof fn lemma_more_jobs(taken: Seq<JobView>, jobs: Seq<JobView>, more: Seq<JobView>, n: nat)
    requires
        forall|k: int| 0 <= k < (taken + jobs).len() ==> job_known(#[trigger] (taken + jobs)[k], n),
        forall|k: int| 0 <= k < more.len() ==> job_known(#[trigger] more[k], n),
    ensures
        taken + (jobs + more) == (taken + jobs) + more,
        forall|k: int|
            0 <= k < (taken + (jobs + more)).len() ==> job_known(
                #[trigger] (taken + (jobs + more))[k],
                n,
            ),
        forall|i: int| #[trigger]
            removals(taken + (jobs + more), i) == removals(taken + jobs, i) + removals(more, i),
        forall|i: int| #[trigger]
            deactivation_awaits(taken + (jobs + more), i) <==> deactivation_awaits(taken + jobs, i)
                || deactivation_awaits(more, i),
{
    let all = taken + jobs;
    assert(taken + (jobs + more) =~= all + more);
    assert forall|k: int| 0 <= k < (all + more).len() implies job_known(
        #[trigger] (all + more)[k],
        n,
    ) by {
        if k < all.len() {
            assert(job_known(all[k], n));
        } else {
            assert(job_known(more[k - all.len()], n));
        }
    }
    assert forall|i: int| #[trigger] removals(all + more, i) == removals(all, i) + removals(
        more,
        i,
    ) by {
        lemma_removals_sum(all, more, i);
    }
    assert forall|i: int| #[trigger]
        deactivation_awaits(all + more, i) <==> deactivation_awaits(all, i) || deactivation_awaits(
            more,
            i,
        ) by {
        if deactivation_awaits(all, i) {
            let k = choose|k: int|
                0 <= k < all.len() && (#[trigger] all[k] matches JobView::DeactivateTasks(ids)
                    && links::as_set(ids).contains(i));
            assert((all + more)[k] == all[k]);
        }
        if deactivation_awaits(more, i) {
            let k = choose|k: int|
                0 <= k < more.len() && (#[trigger] more[k] matches JobView::DeactivateTasks(ids)
                    && links::as_set(ids).contains(i));
            assert((all + more)[all.len() + k] == more[k]);
        }
        if deactivation_awaits(all + more, i) {
            let k = choose|k: int|
                0 <= k < (all + more).len() && (
                #[trigger] (all + more)[k] matches JobView::DeactivateTasks(ids) && links::as_set(
                    ids,
                ).contains(i));
            if k < all.len() {
                assert((all + more)[k] == all[k]);
            } else {
                assert((all + more)[k] == more[k - all.len()]);
            }
        }
    }
}

proof fn lemma_schedules(ids: Seq<TaskId>, n: nat)
    requires
        forall|id: TaskId| #[trigger] ids.contains(id) ==> id < n,
    ensures
        forall|k: int|
            0 <= k < links::schedules(ids).len() ==> job_known(
                #[trigger] links::schedules(ids)[k],
                n,
            ),
        forall|i: int| #[trigger] removals(links::schedules(ids), i) == 0,
        forall|i: int| !#[trigger] deactivation_awaits(links::schedules(ids), i),
{
    let jobs = links::schedules(ids);
    assert forall|k: int| 0 <= k < jobs.len() implies job_known(#[trigger] jobs[k], n) by {
        assert(ids.contains(ids[k]));
    }
    assert forall|i: int| #[trigger] removals(jobs, i) == 0 by {
        lemma_no_removals(jobs, i);
    }
}

proof fn lemma_deactivations(lists: Seq<Seq<TaskId>>, n: nat)
    requires
        forall|i: int| #[trigger] links::listed(lists, i) ==> 0 <= i < n,
    ensures
        forall|k: int|
            0 <= k < links::deactivations(lists).len() ==> job_known(
                #[trigger] links::deactivations(lists)[k],
                n,
            ),
        forall|i: int| #[trigger] removals(links::deactivations(lists), i) == 0,
        forall|i: int| #[trigger]
            deactivation_awaits(links::deactivations(lists), i) <==> links::listed(lists, i),
{
    let jobs = links::deactivations(lists);
    assert forall|k: int| 0 <= k < jobs.len() implies job_known(#[trigger] jobs[k], n) by {
        assert forall|j: int| 0 <= j < lists[k].len() implies #[trigger] lists[k][j] < n by {
            assert(links::listed(lists, lists[k][j] as int));
        }
    }
    assert forall|i: int| #[trigger] removals(jobs, i) == 0 by {
        lemma_no_removals(jobs, i);
    }
    assert forall|i: int| #[trigger] deactivation_awaits(jobs, i) <==> links::listed(lists, i) by {
        if deactivation_awaits(jobs, i) {
            let k = choose|k: int|
                0 <= k < jobs.len() && (#[trigger] jobs[k] matches JobView::DeactivateTasks(ids)
                    && links::as_set(ids).contains(i));
            assert(jobs[k] == JobView::DeactivateTasks(lists[k]));
            let j = choose|j: int| 0 <= j < lists[k].len() && #[trigger] lists[k][j] == i;
            assert(lists[k][j] == i);
        }
        if links::listed(lists, i) {
            let (k, j) = choose|k: int, j: int|
                0 <= k < lists.len() && 0 <= j < lists[k].len() && #[trigger] lists[k][j] == i;
            assert(jobs[k] == JobView::DeactivateTasks(lists[k]));
            assert(links::as_set(lists[k]).contains(i));
        }
    }
}

// The laws. In each, `taken` are the jobs that the runtime has taken and not run yet, and
// `before` and `after` the jobs that are handed to it and not taken, before and after the
// operation.

/// A new task keeps the accounts.
pub proof fn law_new_task_keeps_accounts<F, O>(
    tasks: Seq<Task<F, O>>,
    task: Task<F, O>,
    jobs: Seq<JobView>,
)
    requires
        links::sound(tasks),
        tasks.len() <= usize::MAX,
        accounts(tasks, jobs),
        task.is_top() && task.always_active() || task.is_idle() && !task.always_active(),
    ensures
        accounts(tasks.push(task), jobs),
{
    let n = tasks.len() as int;
    let after = tasks.push(task);
    links::lemma_new_task_keeps(tasks, task);
    lemma_removals_known(jobs, tasks.len(), n);
    assert forall|k: int| 0 <= k < jobs.len() implies job_known(
        #[trigger] jobs[k],
        after.len(),
    ) by {
        assert(job_known(jobs[k], tasks.len()));
    }
    assert forall|i: int| 0 <= i < after.len() implies (#[trigger] after[i]).active_parents
        == links::links(after, links::active_tasks(after), i) + removals(jobs, i) + if after[i].always_active() {
        1nat
    } else {
        0nat
    } by {
        if i < n {
            assert(tasks[i].active_parents == links::links(tasks, links::active_tasks(tasks), i)
                + removals(jobs, i) + if tasks[i].always_active() {
                1nat
            } else {
                0nat
            });
        }
    }
    assert forall|i: int|
        0 <= i < after.len() && (#[trigger] after[i]).state.active && after[i].active_parents
            == 0 implies deactivation_awaits(jobs, i) by {
        assert(tasks[i].state.active);
    }
}

/// A new link between two tasks keeps the accounts.
pub proof fn law_connection_keeps_accounts<F, O>(
    tasks: Seq<Task<F, O>>,
    then: Seq<Task<F, O>>,
    child: int,
    parent: int,
    children: HashSet<TaskId>,
    taken: Seq<JobView>,
    before: Seq<JobView>,
    after: Seq<JobView>,
)
    requires
        links::sound(tasks),
        0 <= child < tasks.len() <= usize::MAX,
        0 <= parent < tasks.len(),
        links::is_child(tasks, parent, child) || links::load(tasks, child) < u32::MAX,
        children@ == tasks[parent].state.children@.insert(child as TaskId),
        links::connected(tasks, then, child, parent, children, before, after),
        accounts(tasks, taken + before),
    ensures
        accounts(then, taken + after),
{
    let n = tasks.len() as int;
    let linked = links::with_children(tasks, parent, children);
    let counted = links::with_parent_counted(linked, child);
    let new = !links::is_child(tasks, parent, child);
    let active = tasks[parent].state.active;
    links::lemma_new_child_keeps(tasks, parent, child, children);
    assert(links::active_tasks(linked) =~= links::active_tasks(tasks));
    assert(links::active_tasks(counted) =~= links::active_tasks(tasks));
    assert forall|i: int| 0 <= i < n implies #[trigger] links::links(
        linked,
        links::active_tasks(tasks),
        i,
    ) == links::links(tasks, links::active_tasks(tasks), i) + if new && active && i == child {
        1nat
    } else {
        0nat
    } by {
        assert forall|p: int| 0 <= p < n && p != parent implies (
        #[trigger] tasks[p]).state.children@ == linked[p].state.children@ by {}
        links::lemma_links_changed(tasks, linked, links::active_tasks(tasks), parent, i, n);
        assert(i as TaskId == i);
        assert(child as TaskId == child);
        assert(links::is_child(linked, parent, i) <==> links::is_child(tasks, parent, i) || i
            == child);
    }
    if !new || !active {
        assert forall|i: int| 0 <= i < n implies (#[trigger] linked[i]).active_parents
            == links::links(linked, links::active_tasks(linked), i) + removals(taken + after, i)
            + if linked[i].always_active() {
            1nat
        } else {
            0nat
        } by {
            assert(tasks[i].active_parents == linked[i].active_parents);
        }
        assert forall|i: int|
            0 <= i < n && (#[trigger] linked[i]).state.active && linked[i].active_parents
                == 0 implies deactivation_awaits(taken + after, i) by {
            assert(tasks[i].state.active);
        }
    } else {
        assert forall|i: int|
            0 <= i < n && i != child && (#[trigger] counted[i]).active_parents
                > 0 implies counted[i].state.active by {
            assert(tasks[i].active_parents > 0);
        }
        links::lemma_activation_keeps(counted, child);
        let more = links::woken(counted, child);
        let ids = choose|ids: Seq<TaskId>| #[trigger]
            links::lists_dirty(counted, child, more, ids) && after == before + links::schedules(
                ids,
            );
        assert forall|id: TaskId| #[trigger] ids.contains(id) implies id < n by {
            assert(more.contains(id as int));
        }
        lemma_schedules(ids, n as nat);
        lemma_more_jobs(taken, before, links::schedules(ids), n as nat);
        assert forall|p: int| 0 <= p < n implies (#[trigger] links::active_tasks(then).contains(p)
            <==> links::active_tasks(tasks).contains(p) || more.contains(p))
            && !(links::active_tasks(tasks).contains(p) && more.contains(p)) by {
            assert(more.contains(p) ==> links::inactive_tasks(counted).contains(p));
        }
        assert forall|p: int| 0 <= p < n implies (#[trigger] counted[p]).state.children@
            == then[p].state.children@ by {}
        assert forall|p: int| 0 <= p < n implies (#[trigger] linked[p]).state.children@
            == counted[p].state.children@ by {}
        assert forall|i: int| 0 <= i < n implies (#[trigger] then[i]).active_parents
            == links::links(then, links::active_tasks(then), i) + removals(taken + after, i)
            + if then[i].always_active() {
            1nat
        } else {
            0nat
        } by {
            links::lemma_links_union(
                counted,
                links::active_tasks(then),
                links::active_tasks(tasks),
                more,
                i,
                n,
            );
            links::lemma_links_same_children(counted, then, links::active_tasks(then), i, n);
            links::lemma_links_same_children(linked, counted, links::active_tasks(tasks), i, n);
            assert(counted[i].active_parents + links::links(counted, more, i) <= u32::MAX);
            assert(tasks[i].active_parents == links::links(tasks, links::active_tasks(tasks), i)
                + removals(taken + before, i) + if tasks[i].always_active() {
                1nat
            } else {
                0nat
            });
            assert(links::links(linked, links::active_tasks(tasks), i) == links::links(
                tasks,
                links::active_tasks(tasks),
                i,
            ) + if i == child {
                1nat
            } else {
                0nat
            });
        }
        assert forall|i: int|
            0 <= i < n && (#[trigger] then[i]).state.active && then[i].active_parents
                == 0 implies deactivation_awaits(taken + after, i) by {
            assert(counted[i].active_parents + links::links(counted, more, i) <= u32::MAX);
            if more.contains(i) {
                links::lemma_woken_counted(counted, child, i);
                if i != child {
                    links::lemma_links_witness(counted, more, i, n);
                }
                assert(false);
            }
            assert(tasks[i].state.active);
        }
    }
}

/// The beginning of an execution keeps the accounts: what the children lose in links they
/// have in removals.
pub proof fn law_start_keeps_accounts<F, O>(
    tasks: Seq<Task<F, O>>,
    t: TaskId,
    children: HashSet<TaskId>,
    taken: Seq<JobView>,
    before: Seq<JobView>,
)
    requires
        links::sound(tasks),
        t < tasks.len() <= usize::MAX,
        tasks[t as int].startable(),
        children@ == Set::<TaskId>::empty(),
        accounts(tasks, taken + before),
    ensures
        accounts(
            tasks.update(
                t as int,
                tasks[t as int].with_state(tasks[t as int].state.started(children)),
            ),
            taken + turbo_tasks::with_job_if(
                before,
                !tasks[t as int].state.children@.is_empty(),
                JobView::RemoveTasks(tasks[t as int].state.children@),
            ),
        ),
{
    let n = tasks.len() as int;
    let i0 = t as int;
    let ids = tasks[i0].state.children@;
    let then = tasks.update(i0, tasks[i0].with_state(tasks[i0].state.started(children)));
    let job = JobView::RemoveTasks(ids);
    let more = if ids.is_empty() {
        Seq::empty()
    } else {
        seq![job]
    };
    let after = turbo_tasks::with_job_if(before, !ids.is_empty(), job);
    assert(after =~= before + more);
    assert forall|id: TaskId| #[trigger] ids.contains(id) implies id < n by {
        assert(tasks[i0].state.children@.contains(id));
    }
    lemma_more_jobs(taken, before, more, n as nat);
    assert(links::active_tasks(then) =~= links::active_tasks(tasks));
    assert forall|i: int| 0 <= i < n implies (#[trigger] then[i]).active_parents == links::links(
        then,
        links::active_tasks(then),
        i,
    ) + removals(taken + after, i) + if then[i].always_active() {
        1nat
    } else {
        0nat
    } by {
        assert forall|p: int| 0 <= p < n && p != i0 implies (#[trigger] tasks[p]).state.children@
            == then[p].state.children@ by {}
        links::lemma_links_changed(tasks, then, links::active_tasks(tasks), i0, i, n);
        lemma_removals_single(job, i);
        assert(tasks[i].active_parents == then[i].active_parents);
        assert(links::members(ids).contains(i) <==> 0 <= i <= usize::MAX && ids.contains(
            i as TaskId,
        ));
    }
    assert forall|i: int| 0 <= i < n && (#[trigger] then[i]).active_parents
        > 0 implies then[i].state.active by {
        assert(tasks[i].active_parents > 0);
    }
    assert forall|i: int|
        0 <= i < n && (#[trigger] then[i]).state.active && then[i].active_parents
            == 0 implies deactivation_awaits(taken + after, i) by {
        assert(tasks[i].state.active);
    }
}

/// A removal keeps the accounts, once it has run.
pub proof fn law_removal_keeps_accounts<F, O>(
    tasks: Seq<Task<F, O>>,
    then: Seq<Task<F, O>>,
    ids: Set<TaskId>,
    taken: Seq<JobView>,
    k: int,
    before: Seq<JobView>,
    after: Seq<JobView>,
    count: nat,
)
    requires
        0 <= k < taken.len(),
        taken[k] == JobView::RemoveTasks(ids),
        links::shuts_down(
            tasks,
            then,
            links::members(ids),
            Set::empty(),
            1,
            before,
            after,
            count,
        ),
        accounts(tasks, taken + before),
    ensures
        accounts(then, taken.remove(k) + after),
{
    lemma_shutdown_keeps_accounts(
        tasks,
        then,
        links::members(ids),
        Set::empty(),
        1,
        taken,
        k,
        before,
        after,
        count,
    );
}

/// A deactivation that was handed on keeps the accounts, once it has run.
pub proof fn law_deactivation_keeps_accounts<F, O>(
    tasks: Seq<Task<F, O>>,
    then: Seq<Task<F, O>>,
    ids: Seq<TaskId>,
    taken: Seq<JobView>,
    k: int,
    before: Seq<JobView>,
    after: Seq<JobView>,
    count: nat,
)
    requires
        0 <= k < taken.len(),
        taken[k] == JobView::DeactivateTasks(ids),
        links::shuts_down(
            tasks,
            then,
            Set::empty(),
            links::as_set(ids),
            1,
            before,
            after,
            count,
        ),
        accounts(tasks, taken + before),
    ensures
        accounts(then, taken.remove(k) + after),
{
    lemma_shutdown_keeps_accounts(
        tasks,
        then,
        Set::empty(),
        links::as_set(ids),
        1,
        taken,
        k,
        before,
        after,
        count,
    );
}

proof fn lemma_shutdown_keeps_accounts<F, O>(
    tasks: Seq<Task<F, O>>,
    then: Seq<Task<F, O>>,
    released: Set<int>,
    starts: Set<int>,
    depth: nat,
    taken: Seq<JobView>,
    k: int,
    before: Seq<JobView>,
    after: Seq<JobView>,
    count: nat,
)
    requires
        0 <= k < taken.len(),
        links::shuts_down(tasks, then, released, starts, depth, before, after, count),
        accounts(tasks, taken + before),
        match taken[k] {
            JobView::Schedule(_) => false,
            JobView::RemoveTasks(ids) => released == links::members(ids) && starts
                == Set::<int>::empty(),
            JobView::DeactivateTasks(ids) => released == Set::<int>::empty() && starts
                == links::as_set(ids),
        },
    ensures
        accounts(then, taken.remove(k) + after),
{
    let n = tasks.len() as int;
    let (levels, lists) = choose|levels: Map<int, nat>, lists: Seq<Seq<TaskId>>| #[trigger]
        links::shutdown(tasks, then, released, starts, depth, levels, lists) && after == before
            + links::deactivations(lists) && count == levels.dom().len();
    let stopped = levels.dom();
    let rest = taken.remove(k);
    let all = taken + before;
    assert(all.remove(k) =~= rest + before);
    assert(all[k] == taken[k]);
    assert forall|j: int| 0 <= j < (rest + before).len() implies job_known(
        #[trigger] (rest + before)[j],
        n as nat,
    ) by {
        if j < k {
            assert((rest + before)[j] == all[j]);
        } else {
            assert((rest + before)[j] == all[j + 1]);
        }
    }
    lemma_deactivations(lists, n as nat);
    lemma_more_jobs(rest, before, links::deactivations(lists), n as nat);
    assert forall|p: int| 0 <= p < n implies (#[trigger] tasks[p]).state.children@
        == then[p].state.children@ by {
        assert(then[p].state.children@ == tasks[p].state.children@);
    }
    assert forall|p: int| 0 <= p < n implies (#[trigger] links::active_tasks(tasks).contains(p)
        <==> links::active_tasks(then).contains(p) || stopped.contains(p))
        && !(links::active_tasks(then).contains(p) && stopped.contains(p)) by {
        assert(then[p].state.active == (tasks[p].state.active && !stopped.contains(p)));
    }
    assert forall|i: int| 0 <= i < n implies (#[trigger] then[i]).active_parents == links::links(
        then,
        links::active_tasks(then),
        i,
    ) + removals(rest + after, i) + if then[i].always_active() {
        1nat
    } else {
        0nat
    } by {
        links::lemma_links_union(
            tasks,
            links::active_tasks(tasks),
            links::active_tasks(then),
            stopped,
            i,
            n,
        );
        links::lemma_links_same_children(tasks, then, links::active_tasks(then), i, n);
        lemma_removals_without(all, k, i);
        lemma_removals_single(all[k], i);
        assert(removals(rest + before, i) == removals(all.remove(k), i));
        assert(tasks[i].active_parents == links::links(tasks, links::active_tasks(tasks), i)
            + removals(all, i) + if tasks[i].always_active() {
            1nat
        } else {
            0nat
        });
        assert(links::lost(tasks, stopped, released, i) <= tasks[i].active_parents);
    }
    assert forall|i: int| 0 <= i < n && (#[trigger] then[i]).active_parents
        > 0 implies then[i].state.active by {
        assert(links::lost(tasks, stopped, released, i) <= tasks[i].active_parents);
        assert(tasks[i].active_parents > 0);
        assert(!stopped.contains(i));
    }
    assert forall|i: int|
        0 <= i < n && (#[trigger] then[i]).state.active && then[i].active_parents
            == 0 implies deactivation_awaits(rest + after, i) by {
        assert(tasks[i].state.active && !stopped.contains(i));
        if tasks[i].active_parents == 0 {
            assert(deactivation_awaits(all, i));
            let j = choose|j: int|
                0 <= j < all.len() && (#[trigger] all[j] matches JobView::DeactivateTasks(ids)
                    && links::as_set(ids).contains(i));
            if j == k {
                assert(starts.contains(i));
                assert(false);
            }
            let l = if j < k {
                j
            } else {
                j - 1
            };
            assert((rest + before)[l] == all[j]);
            assert(deactivation_awaits(rest + before, i));
        }
    }
}

/// A change of one task that leaves its place in the graph keeps the accounts, whether or
/// not an execution of it is handed to the runtime.
pub proof fn law_change_of_one_task_keeps_accounts<F, O>(
    tasks: Seq<Task<F, O>>,
    t: TaskId,
    task: Task<F, O>,
    taken: Seq<JobView>,
    before: Seq<JobView>,
    scheduled: bool,
)
    requires
        t < tasks.len(),
        tasks[t as int].same_place(task),
        accounts(tasks, taken + before),
    ensures
        accounts(
            tasks.update(t as int, task),
            taken + turbo_tasks::with_job_if(before, scheduled, JobView::Schedule(t)),
        ),
{
    let n = tasks.len() as int;
    let then = tasks.update(t as int, task);
    let job = JobView::Schedule(t);
    let more = if scheduled {
        seq![job]
    } else {
        Seq::empty()
    };
    let after = turbo_tasks::with_job_if(before, scheduled, job);
    assert(after =~= before + more);
    lemma_more_jobs(taken, before, more, n as nat);
    assert(links::active_tasks(then) =~= links::active_tasks(tasks));
    assert forall|p: int| 0 <= p < n implies (#[trigger] tasks[p]).state.children@
        == then[p].state.children@ by {}
    assert forall|i: int| 0 <= i < n implies (#[trigger] then[i]).active_parents == links::links(
        then,
        links::active_tasks(then),
        i,
    ) + removals(taken + after, i) + if then[i].always_active() {
        1nat
    } else {
        0nat
    } by {
        links::lemma_links_same_children(tasks, then, links::active_tasks(tasks), i, n);
        lemma_removals_single(job, i);
        assert(tasks[i].active_parents == then[i].active_parents);
    }
    assert forall|i: int| 0 <= i < n && (#[trigger] then[i]).active_parents
        > 0 implies then[i].state.active by {
        assert(tasks[i].active_parents > 0);
    }
    assert forall|i: int|
        0 <= i < n && (#[trigger] then[i]).state.active && then[i].active_parents
            == 0 implies deactivation_awaits(taken + after, i) by {
        assert(tasks[i].state.active);
    }
}

/// A removal that is yet to run can run: its tasks exist, and each of them has the active
/// parent that it loses.
pub proof fn law_removal_can_run<F, O>(
    tasks: Seq<Task<F, O>>,
    jobs: Seq<JobView>,
    k: int,
    ids: Set<TaskId>,
)
    requires
        accounts(tasks, jobs),
        0 <= k < jobs.len(),
        jobs[k] == JobView::RemoveTasks(ids),
    ensures
        links::covered(tasks, links::members(ids)),
        forall|id: TaskId| #[trigger] ids.contains(id) ==> id < tasks.len(),
{
    assert(job_known(jobs[k], tasks.len()));
    assert forall|i: int| 0 <= i < tasks.len() implies (#[trigger] tasks[i]).active_parents
        >= links::links(tasks, links::active_tasks(tasks), i) + if links::members(ids).contains(i) {
        1nat
    } else {
        0nat
    } by {
        lemma_removals_without(jobs, k, i);
        lemma_removals_single(jobs[k], i);
    }
}

/// A task that is active forever is active, whatever has happened.
pub proof fn law_root_stays_active<F, O>(tasks: Seq<Task<F, O>>, jobs: Seq<JobView>, i: int)
    requires
        accounts(tasks, jobs),
        0 <= i < tasks.len(),
        tasks[i].always_active(),
    ensures
        tasks[i].state.active,
{
}

/// The children of an active task are active.
pub proof fn law_children_of_active_tasks_are_active<F, O>(
    tasks: Seq<Task<F, O>>,
    parent: int,
    child: int,
)
    requires
        links::sound(tasks),
        0 <= parent < tasks.len(),
        0 <= child < tasks.len(),
        links::is_child(tasks, parent, child),
        tasks[parent].state.active,
    ensures
        tasks[child].state.active,
{
    links::lemma_links_witness(tasks, links::active_tasks(tasks), child, tasks.len() as int);
    assert(links::active_tasks(tasks).contains(parent));
    assert(tasks[child].active_parents >= links::links(tasks, links::active_tasks(tasks), child));
}

/// Whether `path` leads from parents to children.
pub open spec fn leads_down<F, O>(tasks: Seq<Task<F, O>>, path: Seq<int>) -> bool {
    &&& path.len() > 0
    &&& forall|k: int| 0 <= k < path.len() ==> 0 <= #[trigger] path[k] < tasks.len()
    &&& forall|k: int|
        0 < k < path.len() ==> links::is_child(tasks, path[k - 1], #[trigger] path[k])
}

/// Whatever is below an active task is active.
pub proof fn law_tasks_below_active_tasks_are_active<F, O>(tasks: Seq<Task<F, O>>, path: Seq<int>)
    requires
        links::sound(tasks),
        leads_down(tasks, path),
        tasks[path[0]].state.active,
    ensures
        tasks[path.last()].state.active,
    decreases path.len(),
{
    if path.len() > 1 {
        let shorter = path.drop_last();
        assert forall|k: int| 0 < k < shorter.len() implies links::is_child(
            tasks,
            shorter[k - 1],
            #[trigger] shorter[k],
        ) by {
            assert(links::is_child(tasks, path[k - 1], path[k]));
        }
        law_tasks_below_active_tasks_are_active(tasks, shorter);
        assert(links::is_child(tasks, path[path.len() - 2], path[path.len() - 1]));
        assert(0 <= path[path.len() - 2] < tasks.len());
        law_children_of_active_tasks_are_active(
            tasks,
            path[path.len() - 2],
            path[path.len() - 1],
        );
    }
}

/// When no job is left to run, a task is active exactly where it is active forever or
/// has an active parent.
pub proof fn law_active_tasks_are_needed<F, O>(tasks: Seq<Task<F, O>>, i: int)
    requires
        accounts(tasks, Seq::empty()),
        0 <= i < tasks.len(),
    ensures
        tasks[i].state.active <==> tasks[i].always_active() || exists|p: int|
            0 <= p < tasks.len() && tasks[p].state.active && #[trigger] links::is_child(
                tasks,
                p,
                i,
            ),
{
    links::lemma_links_witness(tasks, links::active_tasks(tasks), i, tasks.len() as int);
    assert(removals(Seq::<JobView>::empty(), i) == 0);
    assert(!deactivation_awaits(Seq::<JobView>::empty(), i));
    if exists|p: int|
        0 <= p < tasks.len() && tasks[p].state.active && #[trigger] links::is_child(tasks, p, i) {
        let p = choose|p: int|
            0 <= p < tasks.len() && tasks[p].state.active && #[trigger] links::is_child(
                tasks,
                p,
                i,
            );
        assert(links::active_tasks(tasks).contains(p));
    }
}

/// A change of one task that leaves its place in the graph, and does not make it dirty
/// while it is active, keeps what always holds.
pub proof fn law_change_of_one_task_keeps_soundness<F, O>(
    tasks: Seq<Task<F, O>>,
    t: int,
    task: Task<F, O>,
)
    requires
        links::sound(tasks),
        0 <= t < tasks.len(),
        tasks[t].same_place(task),
        task.state.active ==> task.state.state_type != TaskStateType::Dirty,
    ensures
        links::sound(tasks.update(t, task)),
{
    let n = tasks.len() as int;
    let then = tasks.update(t, task);
    assert(links::active_tasks(then) =~= links::active_tasks(tasks));
    assert(links::inactive_tasks(then) =~= links::inactive_tasks(tasks));
    assert forall|p: int| 0 <= p < n implies (#[trigger] tasks[p]).state.children@
        == then[p].state.children@ by {}
    assert forall|p: int, c: TaskId|
        0 <= p < n && #[trigger] then[p].state.children@.contains(c) implies c < n by {
        assert(tasks[p].state.children@.contains(c));
    }
    assert forall|i: int| 0 <= i < n implies (#[trigger] then[i]).active_parents >= links::links(
        then,
        links::active_tasks(then),
        i,
    ) && links::load(then, i) <= u32::MAX by {
        links::lemma_links_same_children(tasks, then, links::active_tasks(tasks), i, n);
        links::lemma_links_same_children(tasks, then, links::inactive_tasks(tasks), i, n);
        assert(links::load(tasks, i) <= u32::MAX);
        assert(tasks[i].active_parents >= links::links(tasks, links::active_tasks(tasks), i) + 0);
    }
    assert forall|i: int| 0 <= i < n implies #[trigger] links::load(then, i) <= u32::MAX by {
        assert(then[i].active_parents >= 0);
    }
    assert forall|i: int| 0 <= i < n && (#[trigger] then[i]).active_parents
        > 0 implies then[i].state.active by {
        assert(tasks[i].active_parents > 0);
    }
    assert forall|i: int| 0 <= i < n && (
    #[trigger] then[i]).state.active implies then[i].state.state_type != TaskStateType::Dirty by {
        assert(tasks[i].state.active);
    }
}

/// A task that has become invalid stands where it stood, and is not dirty while it is
/// active.
pub proof fn law_invalidation_leaves_the_place<F, O>(
    task: Task<F, O>,
    dependencies: Dependencies,
)
    requires
        task.state.active ==> task.state.state_type != TaskStateType::Dirty,
    ensures
        task.same_place(task.made_dirty(dependencies)),
        task.state.active ==> task.made_dirty(dependencies).state.state_type
            != TaskStateType::Dirty,
{
}

/// A task whose execution has come to its end stands where it stood, and is not dirty
/// while it is active.
pub proof fn law_completion_leaves_the_place<F, O>(
    task: Task<F, O>,
    event: DoneEvent,
    execution_data: TaskExecutionData,
)
    requires
        task.in_progress(),
    ensures
        task.same_place(
            task.with_state(task.state.finished(event)).with_execution_data(execution_data),
        ),
        task.state.active ==> task.state.finished(event).state_type != TaskStateType::Dirty,
{
}

/// To make a task invalid a second time changes its state no further, and hands nothing
/// more to the runtime.
pub proof fn law_second_invalidation_changes_nothing<F, O>(
    task: Task<F, O>,
    this: TaskId,
    dependencies: Dependencies,
    again: Dependencies,
    jobs: Seq<JobView>,
)
    ensures
        task.made_dirty(dependencies).made_dirty(again) == task.made_dirty(again),
        task.made_dirty(dependencies).jobs_made_dirty(this, jobs) == jobs,
{
}

/// An execution during which the task has become invalid does not make it done: it is
/// executed again, now where it is active, else when it becomes active.
pub proof fn law_invalid_execution_is_repeated<F, O>(
    task: Task<F, O>,
    dependencies: Dependencies,
    event: DoneEvent,
)
    requires
        task.in_progress(),
    ensures
        task.made_dirty(dependencies).state.finished(event).state_type == if task.state.active {
            TaskStateType::Scheduled
        } else {
            TaskStateType::Dirty
        },
        task.made_dirty(dependencies).state.finished(event).state_type.on_activation()
            == TaskStateType::Scheduled,
{
}

// What the states of a task mean

/// An execution can begin exactly where the task is active and scheduled, and is running
/// exactly where it is in progress, valid or not, whatever the task is and however often it
/// was executed.
pub proof fn law_execution_can_begin_or_is_running<F, O>(task: Task<F, O>)
    ensures
        task.startable() <==> task.state.active && task.state.state_type
            == TaskStateType::Scheduled,
        task.in_progress() <==> task.state.state_type == TaskStateType::InProgress
            || task.state.state_type == TaskStateType::InProgressDirty,
        task.ends_dirty() <==> task.state.state_type == TaskStateType::InProgressDirty
            && !task.state.active,
        !(task.startable() && task.in_progress()),
{
}

/// A task that is done and becomes invalid is executed again: at once where it is active,
/// however often it was executed, else as soon as it becomes active.
pub proof fn law_invalidated_task_can_be_executed_again<F, O>(
    task: Task<F, O>,
    this: TaskId,
    dependencies: Dependencies,
    jobs: Seq<JobView>,
)
    requires
        task.state.state_type == TaskStateType::Done,
    ensures
        task.state.active ==> task.made_dirty(dependencies).startable()
            && task.made_dirty(dependencies).state.state_type == TaskStateType::Scheduled
            && task.jobs_made_dirty(this, jobs) == jobs.push(JobView::Schedule(this)),
        !task.state.active ==> task.made_dirty(dependencies).state.state_type
            == TaskStateType::Dirty && task.made_dirty(
            dependencies,
        ).state.state_type.on_activation() == TaskStateType::Scheduled && task.jobs_made_dirty(
            this,
            jobs,
        ) == jobs,
        task.made_dirty(dependencies).state.executions == task.state.executions,
{
}

/// A task goes round: an active task that is scheduled begins an execution, which makes it
/// done where it is not invalidated, and once it is invalidated it can begin the next one,
/// with one execution more, the same inputs and the same work.
pub proof fn law_task_is_executed_time_and_again<F, O>(
    task: Task<F, O>,
    children: HashSet<TaskId>,
    event: DoneEvent,
    execution_data: TaskExecutionData,
    dependencies: Dependencies,
)
    requires
        task.state.active,
        task.state.state_type == TaskStateType::Scheduled,
        task.state.executions < u32::MAX,
    ensures
        ({
            let running = task.with_state(task.state.started(children));
            let done = running.with_state(running.state.finished(event)).with_execution_data(
                execution_data,
            );
            let again = done.made_dirty(dependencies);
            &&& task.startable()
            &&& running.in_progress() && !running.startable()
            &&& running.state.state_type == TaskStateType::InProgress
            &&& running.state.executions == task.state.executions + 1
            &&& running.state.children == children
            &&& done.state.state_type == TaskStateType::Done && !done.in_progress()
            &&& again.startable()
            &&& again.state.executions == task.state.executions + 1
            &&& again.ty == task.ty && again.inputs == task.inputs && again.active_parents
                == task.active_parents
        }),
{
}

/// A valid execution makes the task done when it ends, whether or not the task is still
/// active, and done it stays when it becomes active again.
pub proof fn law_valid_execution_makes_the_task_done<F, O>(task: Task<F, O>, event: DoneEvent)
    requires
        task.state.state_type == TaskStateType::InProgress,
    ensures
        task.state.finished(event).state_type == TaskStateType::Done,
        task.state.finished(event).state_type.on_activation() == TaskStateType::Done,
        task.state.finished(event).active == task.state.active,
        task.state.finished(event).output_slot == task.state.output_slot,
        task.state.finished(event).created_slots == task.state.created_slots,
        task.state.finished(event).children == task.state.children,
        task.state.finished(event).executions == task.state.executions,
        task.state.finished(event).event == event,
{
}

/// No task stays valid when it becomes invalid. One that is executed is still executed; any
/// other is scheduled where it is active, and is scheduled when it becomes active.
pub proof fn law_invalidation_makes_every_task_invalid<F, O>(
    task: Task<F, O>,
    dependencies: Dependencies,
)
    requires
        task.state.active ==> task.state.state_type != TaskStateType::Dirty,
    ensures
        ({
            let state = task.made_dirty(dependencies).state;
            &&& state.state_type != TaskStateType::Done && state.state_type
                != TaskStateType::InProgress
            &&& task.in_progress() <==> state.state_type == TaskStateType::InProgressDirty
            &&& task.state.active && !task.in_progress() ==> state.state_type
                == TaskStateType::Scheduled
            &&& !task.in_progress() ==> state.state_type.on_activation()
                == TaskStateType::Scheduled
            &&& state.active == task.state.active
        }),
{
}

/// Activation schedules what is dirty, and leaves every other state.
pub proof fn law_activation_schedules_what_is_dirty(state_type: TaskStateType)
    ensures
        state_type.on_activation() != state_type <==> state_type == TaskStateType::Dirty,
        state_type.on_activation() == TaskStateType::Scheduled <==> state_type
            == TaskStateType::Dirty || state_type == TaskStateType::Scheduled,
        state_type.on_activation().on_activation() == state_type.on_activation(),
        state_type.on_activation() != TaskStateType::Dirty,
{
}

/// Each change of a state changes what it says and nothing else.
pub proof fn law_changes_of_a_state(
    state: TaskState,
    state_type: TaskStateType,
    output_slot: Slot,
    created_slots: Vec<Slot>,
    executions: u32,
    children: HashSet<TaskId>,
)
    ensures
        state.with_type(state_type).state_type == state_type,
        state.with_type(state_type).active == state.active,
        state.with_type(state_type).children == state.children,
        state.with_type(state_type).output_slot == state.output_slot,
        state.with_type(state_type).created_slots == state.created_slots,
        state.with_type(state_type).event == state.event,
        state.with_type(state_type).executions == state.executions,
        state.with_output_slot(output_slot).output_slot == output_slot,
        state.with_output_slot(output_slot).with_output_slot(state.output_slot) == state,
        state.with_created_slots(created_slots).created_slots == created_slots,
        state.with_created_slots(created_slots).with_created_slots(state.created_slots) == state,
        state.with_executions(executions).executions == executions,
        state.with_executions(executions).with_executions(state.executions) == state,
        state.with_children(children).children == children,
        state.with_children(children).with_children(state.children) == state,
        state.executions < u32::MAX ==> state.started(children).with_type(
            state.state_type,
        ).with_children(state.children).with_executions(state.executions) == state,
        state.executions < u32::MAX ==> state.started(children).executions == state.executions + 1
            && state.started(children).children == children && state.started(children).state_type
            == TaskStateType::InProgress,
{
}

/// Each change of a task changes what it says and nothing else.
pub proof fn law_changes_of_a_task<F, O>(
    task: Task<F, O>,
    state: TaskState,
    execution_data: TaskExecutionData,
    dependencies: Dependencies,
    slot: SlotRef,
    active: bool,
    state_type: TaskStateType,
    active_parents: u32,
)
    ensures
        task.with_state(state).state == state,
        task.with_state(state).with_state(task.state) == task,
        task.with_execution_data(execution_data).execution_data == execution_data,
        task.with_execution_data(execution_data).with_execution_data(task.execution_data) == task,
        task.without_dependencies(dependencies).execution_data.dependencies == dependencies,
        task.without_dependencies(dependencies).without_dependencies(
            task.execution_data.dependencies,
        ) == task,
        task.made_dirty(dependencies).execution_data.dependencies == dependencies,
        task.made_dirty(dependencies).without_dependencies(
            task.execution_data.dependencies,
        ).with_state(task.state) == task,
        task.made_dirty(dependencies).state.with_type(task.state.state_type) == task.state,
        task.with_activity(active, state_type, active_parents as int).state.active == active,
        task.with_activity(active, state_type, active_parents as int).state.state_type
            == state_type,
        task.with_activity(active, state_type, active_parents as int).active_parents
            == active_parents,
        task.with_activity(active, state_type, active_parents as int).with_activity(
            task.state.active,
            task.state.state_type,
            task.active_parents as int,
        ) == task,
        task.depends_on(slot) <==> !(slot is Value) && dependencies::recorded(
            &task.execution_data.dependencies,
        ).contains(slot.key()),
        task.always_active() <==> task.ty is Root || task.ty is Once,
{
}

/// A new task is idle until it gets a parent, or active from its beginning; it is not both,
/// was never executed and has neither children nor slots.
pub proof fn law_new_tasks<F, O>(task: Task<F, O>)
    ensures
        !(task.is_idle() && task.is_top()),
        task.is_idle() ==> !task.state.active && task.active_parents == 0 && task.state.state_type
            == TaskStateType::Dirty && !task.startable(),
        task.is_top() ==> task.state.active && task.active_parents == 1 && task.startable(),
        task.is_idle() || task.is_top() ==> task.state.children@ == Set::<TaskId>::empty()
            && task.state.created_slots@.len() == 0 && task.state.executions == 0
            && task.state.output_slot.target() is None && dependencies::recorded(
            &task.execution_data.dependencies,
        ) == Set::<(usize, usize)>::empty(),
{
}

// Executions that are yet to run

/// How many of the jobs execute task `i`.
pub open spec fn executions(jobs: Seq<JobView>, i: int) -> nat
    decreases jobs.len(),
{
    if jobs.len() == 0 {
        0
    } else {
        executions(jobs.drop_last(), i) + if jobs.last() matches JobView::Schedule(id) && id == i {
            1nat
        } else {
            0nat
        }
    }
}

/// Whether one job executes each task that is scheduled, and none any other task.
pub open spec fn orderly<F, O>(tasks: Seq<Task<F, O>>, jobs: Seq<JobView>) -> bool {
    forall|i: int|
        0 <= i < tasks.len() ==> #[trigger] executions(jobs, i) == if tasks[i].state.state_type
            == TaskStateType::Scheduled {
            1nat
        } else {
            0nat
        }
}

proof fn lemma_executions_sum(jobs: Seq<JobView>, more: Seq<JobView>, i: int)
    ensures
        executions(jobs + more, i) == executions(jobs, i) + executions(more, i),
    decreases more.len(),
{
    if more.len() == 0 {
        assert(jobs + more =~= jobs);
    } else {
        assert((jobs + more).drop_last() =~= jobs + more.drop_last());
        lemma_executions_sum(jobs, more.drop_last(), i);
    }
}

proof fn lemma_executions_single(job: JobView, i: int)
    ensures
        executions(seq![job], i) == if job matches JobView::Schedule(id) && id == i {
            1nat
        } else {
            0nat
        },
{
    assert(seq![job].drop_last() =~= Seq::<JobView>::empty());
    assert(seq![job].last() == job);
    assert(executions(Seq::<JobView>::empty(), i) == 0);
}

proof fn lemma_executions_without(jobs: Seq<JobView>, k: int, i: int)
    requires
        0 <= k < jobs.len(),
    ensures
        executions(jobs, i) == executions(jobs.remove(k), i) + executions(seq![jobs[k]], i),
{
    let first = jobs.take(k);
    let rest = jobs.skip(k + 1);
    assert(jobs =~= first + seq![jobs[k]] + rest);
    assert(jobs.remove(k) =~= first + rest);
    lemma_executions_sum(first + seq![jobs[k]], rest, i);
    lemma_executions_sum(first, seq![jobs[k]], i);
    lemma_executions_sum(first, rest, i);
}

proof fn lemma_no_executions(jobs: Seq<JobView>, i: int)
    requires
        forall|k: int| 0 <= k < jobs.len() ==> #[trigger] jobs[k] != JobView::Schedule(i as TaskId)
            || i > usize::MAX || i < 0,
    ensures
        executions(jobs, i) == 0,
    decreases jobs.len(),
{
    if jobs.len() > 0 {
        assert(jobs[jobs.len() - 1] == jobs.last());
        assert forall|k: int| 0 <= k < jobs.drop_last().len() implies #[trigger] jobs.drop_last()[k]
            != JobView::Schedule(i as TaskId) || i > usize::MAX || i < 0 by {
            assert(jobs.drop_last()[k] == jobs[k]);
        }
        lemma_no_executions(jobs.drop_last(), i);
    }
}

proof fn lemma_executions_of_schedules(ids: Seq<TaskId>, i: TaskId)
    requires
        ids.no_duplicates(),
    ensures
        executions(links::schedules(ids), i as int) == if ids.contains(i) {
            1nat
        } else {
            0nat
        },
    decreases ids.len(),
{
    if ids.len() > 0 {
        let shorter = ids.drop_last();
        let jobs = links::schedules(ids);
        assert(jobs.drop_last() =~= links::schedules(shorter));
        assert(jobs.last() == JobView::Schedule(ids.last()));
        lemma_executions_of_schedules(shorter, i);
        if shorter.contains(i) {
            let j = choose|j: int| 0 <= j < shorter.len() && shorter[j] == i;
            assert(ids[j] == i);
        }
        if ids.contains(i) && ids.last() != i {
            let j = choose|j: int| 0 <= j < ids.len() && ids[j] == i;
            assert(shorter[j] == i);
        }
        if ids.last() == i {
            assert(ids[ids.len() - 1] == i);
        }
    }
}

/// A new task keeps the order of executions. A task that is active from its beginning needs
/// the execution with which it begins.
pub proof fn law_new_task_keeps_order<F, O>(
    tasks: Seq<Task<F, O>>,
    task: Task<F, O>,
    jobs: Seq<JobView>,
)
    requires
        tasks.len() <= usize::MAX,
        forall|k: int| 0 <= k < jobs.len() ==> job_known(#[trigger] jobs[k], tasks.len()),
        task.is_top() || task.is_idle(),
        orderly(tasks, jobs),
    ensures
        orderly(
            tasks.push(task),
            turbo_tasks::with_job_if(
                jobs,
                task.is_top(),
                JobView::Schedule(tasks.len() as TaskId),
            ),
        ),
{
    let n = tasks.len() as int;
    let job = JobView::Schedule(n as TaskId);
    assert forall|k: int| 0 <= k < jobs.len() implies #[trigger] jobs[k] != job by {
        assert(job_known(jobs[k], tasks.len()));
    }
    lemma_no_executions(jobs, n);
    assert(jobs.push(job) =~= jobs + seq![job]);
    let after = turbo_tasks::with_job_if(jobs, task.is_top(), job);
    assert forall|i: int| 0 <= i < tasks.push(task).len() implies #[trigger] executions(after, i)
        == if tasks.push(task)[i].state.state_type == TaskStateType::Scheduled {
        1nat
    } else {
        0nat
    } by {
        lemma_executions_sum(jobs, seq![job], i);
        lemma_executions_single(job, i);
        if i < n {
            assert(tasks.push(task)[i] == tasks[i]);
            assert(executions(jobs, i) == if tasks[i].state.state_type == TaskStateType::Scheduled {
                1nat
            } else {
                0nat
            });
        }
    }
}

/// A new link between two tasks keeps the order of executions.
pub proof fn law_connection_keeps_order<F, O>(
    tasks: Seq<Task<F, O>>,
    then: Seq<Task<F, O>>,
    child: int,
    parent: int,
    children: HashSet<TaskId>,
    taken: Seq<JobView>,
    before: Seq<JobView>,
    after: Seq<JobView>,
)
    requires
        0 <= child < tasks.len() <= usize::MAX,
        0 <= parent < tasks.len(),
        links::connected(tasks, then, child, parent, children, before, after),
        orderly(tasks, taken + before),
    ensures
        orderly(then, taken + after),
{
    let n = tasks.len() as int;
    let linked = links::with_children(tasks, parent, children);
    let counted = links::with_parent_counted(linked, child);
    if links::is_child(tasks, parent, child) || !tasks[parent].state.active {
        assert forall|i: int| 0 <= i < n implies #[trigger] executions(taken + after, i)
            == if linked[i].state.state_type == TaskStateType::Scheduled {
            1nat
        } else {
            0nat
        } by {
            assert(linked[i].state.state_type == tasks[i].state.state_type);
        }
    } else {
        let more = links::woken(counted, child);
        let ids = choose|ids: Seq<TaskId>| #[trigger]
            links::lists_dirty(counted, child, more, ids) && after == before + links::schedules(
                ids,
            );
        assert(taken + after =~= (taken + before) + links::schedules(ids));
        assert forall|i: int| 0 <= i < n implies #[trigger] executions(taken + after, i)
            == if then[i].state.state_type == TaskStateType::Scheduled {
            1nat
        } else {
            0nat
        } by {
            lemma_executions_sum(taken + before, links::schedules(ids), i);
            lemma_executions_of_schedules(ids, i as TaskId);
            assert(executions(taken + before, i) == if tasks[i].state.state_type
                == TaskStateType::Scheduled {
                1nat
            } else {
                0nat
            });
            assert(counted[i].state.state_type == tasks[i].state.state_type);
            assert(ids.contains(i as TaskId) <==> more.contains(i)
                && counted[i].state.state_type == TaskStateType::Dirty);
        }
    }
}

/// The execution of a task that begins keeps the order of executions. It is one that was
/// yet to run, and the task is active.
pub proof fn law_start_keeps_order<F, O>(
    tasks: Seq<Task<F, O>>,
    t: TaskId,
    children: HashSet<TaskId>,
    taken: Seq<JobView>,
    k: int,
    before: Seq<JobView>,
)
    requires
        t < tasks.len(),
        tasks[t as int].startable(),
        0 <= k < taken.len(),
        taken[k] == JobView::Schedule(t),
        orderly(tasks, taken + before),
    ensures
        orderly(
            tasks.update(
                t as int,
                tasks[t as int].with_state(tasks[t as int].state.started(children)),
            ),
            taken.remove(k) + turbo_tasks::with_job_if(
                before,
                !tasks[t as int].state.children@.is_empty(),
                JobView::RemoveTasks(tasks[t as int].state.children@),
            ),
        ),
{
    let n = tasks.len() as int;
    let i0 = t as int;
    let ids = tasks[i0].state.children@;
    let then = tasks.update(i0, tasks[i0].with_state(tasks[i0].state.started(children)));
    let job = JobView::RemoveTasks(ids);
    let after = turbo_tasks::with_job_if(before, !ids.is_empty(), job);
    let all = taken + before;
    assert(all.remove(k) =~= taken.remove(k) + before);
    assert(all[k] == taken[k]);
    assert(taken.remove(k) + before.push(job) =~= all.remove(k) + seq![job]);
    assert forall|i: int| 0 <= i < n implies #[trigger] executions(taken.remove(k) + after, i)
        == if then[i].state.state_type == TaskStateType::Scheduled {
        1nat
    } else {
        0nat
    } by {
        lemma_executions_without(all, k, i);
        lemma_executions_single(all[k], i);
        lemma_executions_sum(all.remove(k), seq![job], i);
        lemma_executions_single(job, i);
        assert(executions(all, i) == if tasks[i].state.state_type == TaskStateType::Scheduled {
            1nat
        } else {
            0nat
        });
    }
}

/// A removal or a deactivation that was yet to run keeps the order of executions.
pub proof fn law_shutdown_keeps_order<F, O>(
    tasks: Seq<Task<F, O>>,
    then: Seq<Task<F, O>>,
    released: Set<int>,
    starts: Set<int>,
    taken: Seq<JobView>,
    k: int,
    before: Seq<JobView>,
    after: Seq<JobView>,
    count: nat,
)
    requires
        links::shuts_down(tasks, then, released, starts, 1, before, after, count),
        0 <= k < taken.len(),
        !(taken[k] is Schedule),
        orderly(tasks, taken + before),
    ensures
        orderly(then, taken.remove(k) + after),
{
    let n = tasks.len() as int;
    let (levels, lists) = choose|levels: Map<int, nat>, lists: Seq<Seq<TaskId>>| #[trigger]
        links::shutdown(tasks, then, released, starts, 1, levels, lists) && after == before
            + links::deactivations(lists) && count == levels.dom().len();
    let all = taken + before;
    let more = links::deactivations(lists);
    assert(all.remove(k) =~= taken.remove(k) + before);
    assert(all[k] == taken[k]);
    assert(taken.remove(k) + after =~= all.remove(k) + more);
    assert forall|i: int| 0 <= i < n implies #[trigger] executions(taken.remove(k) + after, i)
        == if then[i].state.state_type == TaskStateType::Scheduled {
        1nat
    } else {
        0nat
    } by {
        lemma_executions_without(all, k, i);
        lemma_executions_single(all[k], i);
        lemma_executions_sum(all.remove(k), more, i);
        lemma_no_executions(more, i);
        assert(executions(all, i) == if tasks[i].state.state_type == TaskStateType::Scheduled {
            1nat
        } else {
            0nat
        });
        assert(then[i].state.state_type == tasks[i].state.state_type);
    }
}

/// A task that becomes invalid keeps the order of executions.
pub proof fn law_invalidation_keeps_order<F, O>(
    tasks: Seq<Task<F, O>>,
    t: TaskId,
    dependencies: Dependencies,
    taken: Seq<JobView>,
    before: Seq<JobView>,
)
    requires
        t < tasks.len(),
        orderly(tasks, taken + before),
    ensures
        orderly(
            tasks.update(t as int, tasks[t as int].made_dirty(dependencies)),
            taken + tasks[t as int].jobs_made_dirty(t, before),
        ),
{
    let task = tasks[t as int];
    lemma_one_task_keeps_order(
        tasks,
        t,
        task.made_dirty(dependencies),
        taken,
        before,
        task.state.state_type == TaskStateType::Done && task.state.active,
    );
}

/// The end of an execution keeps the order of executions.
pub proof fn law_completion_keeps_order<F, O>(
    tasks: Seq<Task<F, O>>,
    t: TaskId,
    event: DoneEvent,
    execution_data: TaskExecutionData,
    taken: Seq<JobView>,
    before: Seq<JobView>,
)
    requires
        t < tasks.len(),
        tasks[t as int].in_progress(),
        orderly(tasks, taken + before),
    ensures
        orderly(
            tasks.update(
                t as int,
                tasks[t as int].with_state(
                    tasks[t as int].state.finished(event),
                ).with_execution_data(execution_data),
            ),
            taken + turbo_tasks::with_job_if(
                before,
                tasks[t as int].state.state_type == TaskStateType::InProgressDirty
                    && tasks[t as int].state.active,
                JobView::Schedule(t),
            ),
        ),
{
    let task = tasks[t as int];
    lemma_one_task_keeps_order(
        tasks,
        t,
        task.with_state(task.state.finished(event)).with_execution_data(execution_data),
        taken,
        before,
        task.state.state_type == TaskStateType::InProgressDirty && task.state.active,
    );
}

proof fn lemma_one_task_keeps_order<F, O>(
    tasks: Seq<Task<F, O>>,
    t: TaskId,
    task: Task<F, O>,
    taken: Seq<JobView>,
    before: Seq<JobView>,
    scheduled: bool,
)
    requires
        t < tasks.len(),
        orderly(tasks, taken + before),
        scheduled <==> tasks[t as int].state.state_type != TaskStateType::Scheduled
            && task.state.state_type == TaskStateType::Scheduled,
        tasks[t as int].state.state_type == TaskStateType::Scheduled ==> task.state.state_type
            == TaskStateType::Scheduled,
    ensures
        orderly(
            tasks.update(t as int, task),
            taken + turbo_tasks::with_job_if(before, scheduled, JobView::Schedule(t)),
        ),
{
    let job = JobView::Schedule(t);
    let then = tasks.update(t as int, task);
    let after = turbo_tasks::with_job_if(before, scheduled, job);
    assert(taken + before.push(job) =~= (taken + before) + seq![job]);
    assert forall|i: int| 0 <= i < then.len() implies #[trigger] executions(taken + after, i)
        == if then[i].state.state_type == TaskStateType::Scheduled {
        1nat
    } else {
        0nat
    } by {
        lemma_executions_sum(taken + before, seq![job], i);
        lemma_executions_single(job, i);
        assert(executions(taken + before, i) == if tasks[i].state.state_type
            == TaskStateType::Scheduled {
            1nat
        } else {
            0nat
        });
    }
}

/// In an orderly state an execution that is yet to run finds its task scheduled.
pub proof fn law_execution_finds_its_task_scheduled<F, O>(
    tasks: Seq<Task<F, O>>,
    jobs: Seq<JobView>,
    k: int,
    t: TaskId,
)
    requires
        orderly(tasks, jobs),
        0 <= k < jobs.len(),
        jobs[k] == JobView::Schedule(t),
        t < tasks.len(),
    ensures
        tasks[t as int].state.state_type == TaskStateType::Scheduled,
{
    lemma_executions_without(jobs, k, t as int);
    lemma_executions_single(jobs[k], t as int);
    assert(executions(jobs, t as int) >= 1);
}

// Where a shutdown comes from

/// Each task that becomes inactive is below one from which the shutdown starts, or is one.
proof fn lemma_source<F, O>(
    tasks: Seq<Task<F, O>>,
    then: Seq<Task<F, O>>,
    released: Set<int>,
    starts: Set<int>,
    depth: nat,
    levels: Map<int, nat>,
    lists: Seq<Seq<TaskId>>,
    order: Seq<int>,
    b: int,
) -> (res: (int, Seq<int>))
    requires
        links::shutdown(tasks, then, released, starts, depth, levels, lists),
        links::in_order(tasks, levels.dom(), order),
        0 <= b < order.len(),
    ensures
        0 <= res.0 <= b,
        starts.contains(order[res.0]) || released.contains(order[res.0]),
        leads_down(tasks, res.1),
        res.1[0] == order[res.0],
        res.1.last() == order[b],
    decreases b,
{
    let i = order[b];
    assert(order.contains(i));
    assert(levels.dom().contains(i));
    if starts.contains(i) || released.contains(i) {
        (b, seq![i])
    } else {
        let p = choose|p: int|
            levels.dom().contains(p) && #[trigger] links::is_child(tasks, p, i) && levels[p]
                < links::DEEP && levels[i] == levels[p] + 1;
        assert(order.contains(p));
        let a = choose|a: int| 0 <= a < order.len() && order[a] == p;
        if a >= b {
            assert(!links::is_child(tasks, order[a], order[b]));
        }
        let (source, path) = lemma_source(
            tasks,
            then,
            released,
            starts,
            depth,
            levels,
            lists,
            order,
            a,
        );
        let longer = path.push(i);
        assert forall|k: int| 0 < k < longer.len() implies links::is_child(
            tasks,
            longer[k - 1],
            #[trigger] longer[k],
        ) by {
            if k < path.len() {
                assert(longer[k] == path[k]);
                assert(longer[k - 1] == path[k - 1]);
            }
        }
        assert(longer[0] == path[0]);
        (source, longer)
    }
}

/// A task that is removed from a parent loses that parent and no other, unless it is below
/// another one that is removed, and becomes inactive exactly where it has none left.
pub proof fn law_removed_task_loses_one_parent<F, O>(
    tasks: Seq<Task<F, O>>,
    then: Seq<Task<F, O>>,
    released: Set<int>,
    before: Seq<JobView>,
    after: Seq<JobView>,
    count: nat,
    r: int,
)
    requires
        links::shuts_down(tasks, then, released, Set::empty(), 1, before, after, count),
        0 <= r < tasks.len(),
        released.contains(r),
        tasks[r].state.active,
        forall|path: Seq<int>| #[trigger]
            leads_down(tasks, path) && released.contains(path[0]) && path[0] != r ==> path.last()
                != r,
    ensures
        then[r].active_parents == tasks[r].active_parents - 1,
        then[r].state.active <==> then[r].active_parents > 0,
{
    let n = tasks.len() as int;
    let (levels, lists) = choose|levels: Map<int, nat>, lists: Seq<Seq<TaskId>>| #[trigger]
        links::shutdown(tasks, then, released, Set::empty(), 1, levels, lists) && after == before
            + links::deactivations(lists) && count == levels.dom().len();
    let stopped = levels.dom();
    let order = choose|order: Seq<int>| #[trigger] links::in_order(tasks, stopped, order);
    assert forall|p: int| stopped.contains(p) implies !#[trigger] links::is_child(tasks, p, r) by {
        if links::is_child(tasks, p, r) {
            assert(order.contains(p));
            let b = choose|b: int| 0 <= b < order.len() && order[b] == p;
            let (a, path) = lemma_source(
                tasks,
                then,
                released,
                Set::empty(),
                1,
                levels,
                lists,
                order,
                b,
            );
            if order[a] == r {
                assert(!links::is_child(tasks, order[b], order[a]));
            } else {
                let longer = path.push(r);
                assert forall|k: int| 0 < k < longer.len() implies links::is_child(
                    tasks,
                    longer[k - 1],
                    #[trigger] longer[k],
                ) by {
                    if k < path.len() {
                        assert(longer[k] == path[k]);
                        assert(longer[k - 1] == path[k - 1]);
                    }
                }
                assert(leads_down(tasks, longer));
                assert(longer[0] == path[0]);
            }
        }
    }
    links::lemma_links_witness(tasks, stopped, r, n);
    assert(links::lost(tasks, stopped, released, r) == 1);
    assert(links::lost(tasks, stopped, released, r) <= tasks[r].active_parents);
    if then[r].active_parents == 0 {
        assert(stopped.contains(r) || links::listed(lists, r));
    }
}

/// Where none of the tasks that are to be deactivated is active without an active parent,
/// nothing happens.
pub proof fn law_deactivation_spares_needed_tasks<F, O>(
    tasks: Seq<Task<F, O>>,
    then: Seq<Task<F, O>>,
    starts: Set<int>,
    depth: nat,
    before: Seq<JobView>,
    after: Seq<JobView>,
    count: nat,
)
    requires
        links::shuts_down(tasks, then, Set::empty(), starts, depth, before, after, count),
        forall|i: int| #[trigger]
            starts.contains(i) && 0 <= i < tasks.len() ==> !tasks[i].state.active
                || tasks[i].active_parents > 0,
    ensures
        then == tasks,
        after == before,
        count == 0,
{
    let n = tasks.len() as int;
    let (levels, lists) = choose|levels: Map<int, nat>, lists: Seq<Seq<TaskId>>| #[trigger]
        links::shutdown(tasks, then, Set::empty(), starts, depth, levels, lists) && after == before
            + links::deactivations(lists) && count == levels.dom().len();
    let stopped = levels.dom();
    let order = choose|order: Seq<int>| #[trigger] links::in_order(tasks, stopped, order);
    if order.len() > 0 {
        lemma_first_has_no_parent(tasks, then, starts, depth, levels, lists, order);
        assert(false);
    }
    assert forall|i: int| !#[trigger] stopped.contains(i) by {
        if stopped.contains(i) {
            assert(order.contains(i));
        }
    }
    assert(stopped =~= Set::<int>::empty());
    assert forall|i: int| 0 <= i < n implies then[i] == tasks[i] by {
        links::lemma_links_none(tasks, stopped, i, n);
    }
    assert(then =~= tasks);
    assert(stopped.filter(|i: int| levels[i] >= links::DEEP) =~= Set::<int>::empty());
    assert(after =~= before);
}

/// The first task that becomes inactive counts no active parent, and keeps its count.
proof fn lemma_first_has_no_parent<F, O>(
    tasks: Seq<Task<F, O>>,
    then: Seq<Task<F, O>>,
    starts: Set<int>,
    depth: nat,
    levels: Map<int, nat>,
    lists: Seq<Seq<TaskId>>,
    order: Seq<int>,
)
    requires
        links::shutdown(tasks, then, Set::empty(), starts, depth, levels, lists),
        links::in_order(tasks, levels.dom(), order),
        order.len() > 0,
    ensures
        levels.dom().contains(order[0]),
        starts.contains(order[0]),
        tasks[order[0]].active_parents == 0,
        tasks[order[0]].state.active,
        0 <= order[0] < tasks.len(),
        then[order[0]].active_parents == tasks[order[0]].active_parents,
{
    let i = order[0];
    let n = tasks.len() as int;
    assert(order.contains(i));
    assert(levels.dom().contains(i));
    assert forall|p: int| levels.dom().contains(p) implies !#[trigger] links::is_child(
        tasks,
        p,
        i,
    ) by {
        assert(order.contains(p));
        let b = choose|b: int| 0 <= b < order.len() && order[b] == p;
        assert(!links::is_child(tasks, order[b], order[0]));
    }
    links::lemma_links_witness(tasks, levels.dom(), i, n);
}

/// Deactivation of one task leaves what the task itself counts, and makes it inactive
/// exactly where it was active and counts nothing; else nothing happens.
pub proof fn law_deactivation_of_one_task<F, O>(
    tasks: Seq<Task<F, O>>,
    then: Seq<Task<F, O>>,
    t: int,
    depth: nat,
    before: Seq<JobView>,
    after: Seq<JobView>,
    count: nat,
)
    requires
        links::shuts_down(tasks, then, Set::empty(), set![t], depth, before, after, count),
        0 <= t < tasks.len(),
    ensures
        then[t].active_parents == tasks[t].active_parents,
        then[t].state.active <==> tasks[t].state.active && tasks[t].active_parents > 0,
        count == 0 <==> !tasks[t].state.active || tasks[t].active_parents > 0,
        count == 0 ==> then == tasks && after == before,
{
    if !tasks[t].state.active || tasks[t].active_parents > 0 {
        law_deactivation_spares_needed_tasks(tasks, then, set![t], depth, before, after, count);
    } else {
        let (levels, lists) = choose|levels: Map<int, nat>, lists: Seq<Seq<TaskId>>| #[trigger]
            links::shutdown(tasks, then, Set::empty(), set![t], depth, levels, lists) && after
                == before + links::deactivations(lists) && count == levels.dom().len();
        let stopped = levels.dom();
        let order = choose|order: Seq<int>| #[trigger] links::in_order(tasks, stopped, order);
        assert(set![t].contains(t));
        assert(stopped.contains(t));
        assert(order.contains(t));
        lemma_first_has_no_parent(tasks, then, set![t], depth, levels, lists, order);
        assert(order[0] == t);
    }
}

// Histories

/// The tasks, the jobs that the runtime has taken and not run yet, and those that are
/// handed to it and not taken.
pub ghost struct Moment<F, O> {
    pub tasks: Seq<Task<F, O>>,
    pub taken: Seq<JobView>,
    pub handed: Seq<JobView>,
}

impl<F, O> Moment<F, O> {
    /// The jobs that are yet to run.
    pub open spec fn jobs(self) -> Seq<JobView> {
        self.taken + self.handed
    }

    /// Whether a new task makes the moment `then`.
    pub open spec fn task_added(self, then: Moment<F, O>) -> bool {
        &&& exists|task: Task<F, O>|
            then.tasks == #[trigger] self.tasks.push(task) && (task.is_top()
                && task.always_active() || task.is_idle() && !task.always_active())
        &&& then.taken == self.taken
        &&& then.handed == self.handed
    }

    /// Whether a new link between two tasks does.
    pub open spec fn link_made(self, then: Moment<F, O>) -> bool {
        &&& exists|child: int, parent: int, children: HashSet<TaskId>|
            0 <= child < self.tasks.len() && 0 <= parent < self.tasks.len() && (links::is_child(
                self.tasks,
                parent,
                child,
            ) || links::load(self.tasks, child) < u32::MAX) && children@
                == self.tasks[parent].state.children@.insert(child as TaskId)
                && #[trigger] links::connected(
                self.tasks,
                then.tasks,
                child,
                parent,
                children,
                self.handed,
                then.handed,
            )
        &&& then.taken == self.taken
    }

    /// Whether the beginning of an execution does.
    pub open spec fn execution_begun(self, then: Moment<F, O>) -> bool {
        &&& exists|t: TaskId, children: HashSet<TaskId>|
            t < self.tasks.len() && self.tasks[t as int].startable() && children@ == Set::<
                TaskId,
            >::empty() && then.tasks == self.tasks.update(
                t as int,
                self.tasks[t as int].with_state(
                    #[trigger] self.tasks[t as int].state.started(children),
                ),
            ) && then.handed == turbo_tasks::with_job_if(
                self.handed,
                !self.tasks[t as int].state.children@.is_empty(),
                JobView::RemoveTasks(self.tasks[t as int].state.children@),
            )
        &&& then.taken == self.taken
    }

    /// Whether a removal that the runtime has taken does when it runs.
    pub open spec fn removal_run(self, then: Moment<F, O>) -> bool {
        exists|k: int, ids: Set<TaskId>, count: nat|
            0 <= k < self.taken.len() && #[trigger] self.taken[k] == JobView::RemoveTasks(ids)
                && #[trigger] links::shuts_down(
                self.tasks,
                then.tasks,
                links::members(ids),
                Set::empty(),
                1,
                self.handed,
                then.handed,
                count,
            ) && then.taken == self.taken.remove(k)
    }

    /// Whether a deactivation that the runtime has taken does when it runs.
    pub open spec fn deactivation_run(self, then: Moment<F, O>) -> bool {
        exists|k: int, ids: Seq<TaskId>, count: nat|
            0 <= k < self.taken.len() && #[trigger] self.taken[k] == JobView::DeactivateTasks(ids)
                && #[trigger] links::shuts_down(
                self.tasks,
                then.tasks,
                Set::empty(),
                links::as_set(ids),
                1,
                self.handed,
                then.handed,
                count,
            ) && then.taken == self.taken.remove(k)
    }

    /// Whether deactivation of a task does, outside of any job.
    pub open spec fn task_deactivated(self, then: Moment<F, O>) -> bool {
        &&& exists|t: TaskId, depth: nat, count: nat|
            t < self.tasks.len() && #[trigger] links::shuts_down(
                self.tasks,
                then.tasks,
                Set::empty(),
                set![t as int],
                depth,
                self.handed,
                then.handed,
                count,
            )
        &&& then.taken == self.taken
    }

    /// Whether activation of a task does.
    pub open spec fn task_activated(self, then: Moment<F, O>) -> bool {
        &&& exists|t: int|
            0 <= t < self.tasks.len() && then.tasks == links::activated(
                self.tasks,
                #[trigger] links::woken(self.tasks, t),
            ) && links::schedules_dirty(
                self.tasks,
                t,
                links::woken(self.tasks, t),
                self.handed,
                then.handed,
            )
        &&& then.taken == self.taken
    }

    /// Whether a change of one task does that leaves its place in the graph, and does not
    /// make it dirty while it is active.
    pub open spec fn task_changed(self, then: Moment<F, O>) -> bool {
        &&& exists|t: TaskId, task: Task<F, O>, scheduled: bool|
            t < self.tasks.len() && self.tasks[t as int].same_place(task) && (task.state.active
                ==> task.state.state_type != TaskStateType::Dirty) && then.tasks
                == #[trigger] self.tasks.update(t as int, task) && then.handed
                == #[trigger] turbo_tasks::with_job_if(
                self.handed,
                scheduled,
                JobView::Schedule(t),
            )
        &&& then.taken == self.taken
    }

    /// Whether it does that the runtime takes the jobs that are handed to it.
    pub open spec fn jobs_taken(self, then: Moment<F, O>) -> bool {
        &&& then.tasks == self.tasks
        &&& then.taken == self.taken + self.handed
        &&& then.handed == Seq::<JobView>::empty()
    }

    /// Whether it does that the runtime is through with the execution of a task.
    pub open spec fn execution_over(self, then: Moment<F, O>) -> bool {
        &&& exists|k: int|
            0 <= k < self.taken.len() && #[trigger] self.taken[k] is Schedule && then.taken
                == self.taken.remove(k)
        &&& then.tasks == self.tasks
        &&& then.handed == self.handed
    }

    /// Whether anything that can happen makes the moment `then`.
    pub open spec fn comes_before(self, then: Moment<F, O>) -> bool {
        ||| self.task_added(then)
        ||| self.link_made(then)
        ||| self.execution_begun(then)
        ||| self.removal_run(then)
        ||| self.deactivation_run(then)
        ||| self.task_deactivated(then)
        ||| self.task_activated(then)
        ||| self.task_changed(then)
        ||| self.jobs_taken(then)
        ||| self.execution_over(then)
    }

    /// Whether no removal and no deactivation is yet to run.
    pub open spec fn is_quiet(self) -> bool {
        forall|k: int| 0 <= k < self.jobs().len() ==> #[trigger] self.jobs()[k] is Schedule
    }
}

/// Whether the moments begin without tasks and jobs, and each comes of the one before it
/// by something that can happen.
pub open spec fn is_history<F, O>(moments: Seq<Moment<F, O>>) -> bool {
    &&& moments.len() > 0
    &&& moments[0].tasks.len() == 0
    &&& moments[0].jobs().len() == 0
    &&& forall|k: int| 0 <= k < moments.len() ==> (#[trigger] moments[k]).tasks.len() <= usize::MAX
    &&& forall|k: int|
        0 <= k < moments.len() - 1 ==> (#[trigger] moments[k]).comes_before(moments[k + 1])
}

/// A job that takes nothing away and deactivates nothing does not count.
proof fn lemma_without_execution<F, O>(tasks: Seq<Task<F, O>>, jobs: Seq<JobView>, k: int)
    requires
        0 <= k < jobs.len(),
        jobs[k] is Schedule,
        accounts(tasks, jobs),
    ensures
        accounts(tasks, jobs.remove(k)),
{
    let rest = jobs.remove(k);
    assert forall|j: int| 0 <= j < rest.len() implies job_known(#[trigger] rest[j], tasks.len()) by {
        if j < k {
            assert(rest[j] == jobs[j]);
        } else {
            assert(rest[j] == jobs[j + 1]);
        }
    }
    assert forall|i: int| #[trigger] removals(rest, i) == removals(jobs, i) by {
        lemma_removals_without(jobs, k, i);
        lemma_removals_single(jobs[k], i);
    }
    assert forall|i: int| #[trigger] deactivation_awaits(jobs, i) implies deactivation_awaits(
        rest,
        i,
    ) by {
        lemma_awaits_without(jobs, k, i);
    }
    assert forall|i: int| 0 <= i < tasks.len() implies (#[trigger] tasks[i]).active_parents
        == links::links(tasks, links::active_tasks(tasks), i) + removals(rest, i)
        + if tasks[i].always_active() {
        1nat
    } else {
        0nat
    } by {
        assert(removals(rest, i) == removals(jobs, i));
    }
}

proof fn lemma_awaits_without(jobs: Seq<JobView>, k: int, i: int)
    requires
        0 <= k < jobs.len(),
        deactivation_awaits(jobs, i),
    ensures
        deactivation_awaits(jobs.remove(k), i) || (jobs[k] matches JobView::DeactivateTasks(ids)
            && links::as_set(ids).contains(i)),
{
    let rest = jobs.remove(k);
    let j = choose|j: int|
        0 <= j < jobs.len() && (#[trigger] jobs[j] matches JobView::DeactivateTasks(ids)
            && links::as_set(ids).contains(i));
    if j < k {
        assert(rest[j] == jobs[j]);
    } else if j > k {
        assert(rest[j - 1] == jobs[j]);
    }
}

/// One deactivation more changes nothing.
proof fn lemma_one_deactivation_more<F, O>(
    tasks: Seq<Task<F, O>>,
    taken: Seq<JobView>,
    handed: Seq<JobView>,
    t: TaskId,
)
    requires
        accounts(tasks, taken + handed),
        t < tasks.len(),
    ensures
        accounts(tasks, taken.push(JobView::DeactivateTasks(seq![t])) + handed),
{
    let job = JobView::DeactivateTasks(seq![t]);
    let jobs = taken + handed;
    let more = taken.push(job) + handed;
    let k = taken.len() as int;
    assert(more.remove(k) =~= jobs);
    assert(more[k] == job);
    assert forall|j: int| 0 <= j < more.len() implies job_known(#[trigger] more[j], tasks.len()) by {
        if j < k {
            assert(more[j] == jobs[j]);
        } else if j > k {
            assert(more[j] == jobs[j - 1]);
        }
    }
    assert forall|i: int| #[trigger] removals(more, i) == removals(jobs, i) by {
        lemma_removals_without(more, k, i);
        lemma_removals_single(job, i);
    }
    assert forall|i: int| #[trigger] deactivation_awaits(jobs, i) implies deactivation_awaits(
        more,
        i,
    ) by {
        let j = choose|j: int|
            0 <= j < jobs.len() && (#[trigger] jobs[j] matches JobView::DeactivateTasks(ids)
                && links::as_set(ids).contains(i));
        let l = if j < k {
            j
        } else {
            j + 1
        };
        assert(more[l] == jobs[j]);
    }
    assert forall|i: int| 0 <= i < tasks.len() implies (#[trigger] tasks[i]).active_parents
        == links::links(tasks, links::active_tasks(tasks), i) + removals(more, i)
        + if tasks[i].always_active() {
        1nat
    } else {
        0nat
    } by {
        assert(removals(more, i) == removals(jobs, i));
    }
}

/// A new link keeps what always holds.
proof fn lemma_link_keeps_soundness<F, O>(
    tasks: Seq<Task<F, O>>,
    then: Seq<Task<F, O>>,
    child: int,
    parent: int,
    children: HashSet<TaskId>,
    before: Seq<JobView>,
    after: Seq<JobView>,
)
    requires
        links::sound(tasks),
        0 <= child < tasks.len() <= usize::MAX,
        0 <= parent < tasks.len(),
        links::is_child(tasks, parent, child) || links::load(tasks, child) < u32::MAX,
        children@ == tasks[parent].state.children@.insert(child as TaskId),
        links::connected(tasks, then, child, parent, children, before, after),
    ensures
        links::sound(then),
{
    let linked = links::with_children(tasks, parent, children);
    let counted = links::with_parent_counted(linked, child);
    links::lemma_new_child_keeps(tasks, parent, child, children);
    if !links::is_child(tasks, parent, child) && tasks[parent].state.active {
        assert forall|i: int|
            0 <= i < counted.len() && i != child && (#[trigger] counted[i]).active_parents
                > 0 implies counted[i].state.active by {
            assert(tasks[i].active_parents > 0);
        }
        links::lemma_activation_keeps(counted, child);
    }
}

/// A shutdown keeps what always holds.
proof fn lemma_shutdown_keeps_soundness<F, O>(
    tasks: Seq<Task<F, O>>,
    then: Seq<Task<F, O>>,
    released: Set<int>,
    starts: Set<int>,
    depth: nat,
    before: Seq<JobView>,
    after: Seq<JobView>,
    count: nat,
)
    requires
        links::sound(tasks),
        links::covered(tasks, released),
        links::shuts_down(tasks, then, released, starts, depth, before, after, count),
    ensures
        links::sound(then),
{
    let (levels, lists) = choose|levels: Map<int, nat>, lists: Seq<Seq<TaskId>>| #[trigger]
        links::shutdown(tasks, then, released, starts, depth, levels, lists) && after == before
            + links::deactivations(lists) && count == levels.dom().len();
    links::lemma_shutdown_keeps(tasks, then, released, starts, depth, levels, lists, released);
    assert(released.difference(released) =~= Set::<int>::empty());
}

/// Whatever happens keeps what always holds, and the accounts.
pub proof fn law_whatever_happens_keeps_accounts<F, O>(before: Moment<F, O>, then: Moment<F, O>)
    requires
        links::sound(before.tasks),
        accounts(before.tasks, before.jobs()),
        before.tasks.len() <= usize::MAX,
        before.comes_before(then),
    ensures
        links::sound(then.tasks),
        accounts(then.tasks, then.jobs()),
{
    let tasks = before.tasks;
    if before.task_added(then) {
        let task = choose|task: Task<F, O>|
            then.tasks == #[trigger] tasks.push(task) && (task.is_top() && task.always_active()
                || task.is_idle() && !task.always_active());
        links::lemma_new_task_keeps(tasks, task);
        law_new_task_keeps_accounts(tasks, task, before.jobs());
    } else if before.link_made(then) {
        let (child, parent, children) = choose|
            child: int,
            parent: int,
            children: HashSet<TaskId>,
        |
            0 <= child < tasks.len() && 0 <= parent < tasks.len() && (links::is_child(
                tasks,
                parent,
                child,
            ) || links::load(tasks, child) < u32::MAX) && children@
                == tasks[parent].state.children@.insert(child as TaskId)
                && #[trigger] links::connected(
                tasks,
                then.tasks,
                child,
                parent,
                children,
                before.handed,
                then.handed,
            );
        lemma_link_keeps_soundness(
            tasks,
            then.tasks,
            child,
            parent,
            children,
            before.handed,
            then.handed,
        );
        law_connection_keeps_accounts(
            tasks,
            then.tasks,
            child,
            parent,
            children,
            before.taken,
            before.handed,
            then.handed,
        );
    } else if before.execution_begun(then) {
        let (t, children) = choose|t: TaskId, children: HashSet<TaskId>|
            t < tasks.len() && tasks[t as int].startable() && children@ == Set::<TaskId>::empty()
                && then.tasks == tasks.update(
                t as int,
                tasks[t as int].with_state(#[trigger] tasks[t as int].state.started(children)),
            ) && then.handed == turbo_tasks::with_job_if(
                before.handed,
                !tasks[t as int].state.children@.is_empty(),
                JobView::RemoveTasks(tasks[t as int].state.children@),
            );
        links::lemma_started_keeps(tasks, t as int, then.tasks);
        law_start_keeps_accounts(tasks, t, children, before.taken, before.handed);
    } else if before.removal_run(then) {
        let (k, ids, count) = choose|k: int, ids: Set<TaskId>, count: nat|
            0 <= k < before.taken.len() && #[trigger] before.taken[k] == JobView::RemoveTasks(ids)
                && #[trigger] links::shuts_down(
                tasks,
                then.tasks,
                links::members(ids),
                Set::empty(),
                1,
                before.handed,
                then.handed,
                count,
            ) && then.taken == before.taken.remove(k);
        assert(before.jobs()[k] == before.taken[k]);
        law_removal_can_run(tasks, before.jobs(), k, ids);
        lemma_shutdown_keeps_soundness(
            tasks,
            then.tasks,
            links::members(ids),
            Set::empty(),
            1,
            before.handed,
            then.handed,
            count,
        );
        law_removal_keeps_accounts(
            tasks,
            then.tasks,
            ids,
            before.taken,
            k,
            before.handed,
            then.handed,
            count,
        );
    } else if before.deactivation_run(then) {
        let (k, ids, count) = choose|k: int, ids: Seq<TaskId>, count: nat|
            0 <= k < before.taken.len() && #[trigger] before.taken[k] == JobView::DeactivateTasks(
                ids,
            ) && #[trigger] links::shuts_down(
                tasks,
                then.tasks,
                Set::empty(),
                links::as_set(ids),
                1,
                before.handed,
                then.handed,
                count,
            ) && then.taken == before.taken.remove(k);
        lemma_shutdown_keeps_soundness(
            tasks,
            then.tasks,
            Set::empty(),
            links::as_set(ids),
            1,
            before.handed,
            then.handed,
            count,
        );
        law_deactivation_keeps_accounts(
            tasks,
            then.tasks,
            ids,
            before.taken,
            k,
            before.handed,
            then.handed,
            count,
        );
    } else if before.task_deactivated(then) {
        let (t, depth, count) = choose|t: TaskId, depth: nat, count: nat|
            t < tasks.len() && #[trigger] links::shuts_down(
                tasks,
                then.tasks,
                Set::empty(),
                set![t as int],
                depth,
                before.handed,
                then.handed,
                count,
            );
        lemma_shutdown_keeps_soundness(
            tasks,
            then.tasks,
            Set::empty(),
            set![t as int],
            depth,
            before.handed,
            then.handed,
            count,
        );
        let job = JobView::DeactivateTasks(seq![t]);
        let more = before.taken.push(job);
        lemma_one_deactivation_more(tasks, before.taken, before.handed, t);
        assert(links::as_set(seq![t]) =~= set![t as int]) by {
            assert(seq![t][0] == t);
        }
        lemma_shutdown_keeps_accounts(
            tasks,
            then.tasks,
            Set::empty(),
            set![t as int],
            depth,
            more,
            before.taken.len() as int,
            before.handed,
            then.handed,
            count,
        );
        assert(more.remove(before.taken.len() as int) =~= before.taken);
    } else if before.task_activated(then) {
        let t = choose|t: int|
            0 <= t < tasks.len() && then.tasks == links::activated(
                tasks,
                #[trigger] links::woken(tasks, t),
            ) && links::schedules_dirty(
                tasks,
                t,
                links::woken(tasks, t),
                before.handed,
                then.handed,
            );
        links::lemma_nothing_woken(tasks, t);
        let ids = choose|ids: Seq<TaskId>| #[trigger]
            links::lists_dirty(tasks, t, links::woken(tasks, t), ids) && then.handed
                == before.handed + links::schedules(ids);
        if ids.len() > 0 {
            assert(ids.contains(ids[0]));
        }
        assert(then.handed =~= before.handed);
    } else if before.task_changed(then) {
        let (t, task, scheduled) = choose|t: TaskId, task: Task<F, O>, scheduled: bool|
            t < tasks.len() && tasks[t as int].same_place(task) && (task.state.active
                ==> task.state.state_type != TaskStateType::Dirty) && then.tasks
                == #[trigger] tasks.update(t as int, task) && then.handed
                == #[trigger] turbo_tasks::with_job_if(
                before.handed,
                scheduled,
                JobView::Schedule(t),
            );
        law_change_of_one_task_keeps_soundness(tasks, t as int, task);
        law_change_of_one_task_keeps_accounts(
            tasks,
            t,
            task,
            before.taken,
            before.handed,
            scheduled,
        );
    } else if before.jobs_taken(then) {
        assert(then.jobs() =~= before.jobs());
    } else {
        let k = choose|k: int|
            0 <= k < before.taken.len() && #[trigger] before.taken[k] is Schedule && then.taken
                == before.taken.remove(k);
        assert(before.jobs()[k] == before.taken[k]);
        lemma_without_execution(tasks, before.jobs(), k);
        assert(before.jobs().remove(k) =~= then.jobs());
    }
}

/// Whatever has happened since there was no task, what always holds does, and the accounts
/// balance.
pub proof fn law_accounts_hold_throughout<F, O>(moments: Seq<Moment<F, O>>, k: int)
    requires
        is_history(moments),
        0 <= k < moments.len(),
    ensures
        links::sound(moments[k].tasks),
        accounts(moments[k].tasks, moments[k].jobs()),
    decreases k,
{
    if k > 0 {
        law_accounts_hold_throughout(moments, k - 1);
        assert(moments[k - 1].comes_before(moments[k - 1 + 1]));
        law_whatever_happens_keeps_accounts(moments[k - 1], moments[k]);
    }
}

/// Whatever has happened since there was no task, when no removal and no deactivation is
/// yet to run, each task counts its active parents, and one more where it is active
/// forever, and is active exactly where it counts one.
pub proof fn law_counts_are_right_when_quiet<F, O>(moments: Seq<Moment<F, O>>, k: int, i: int)
    requires
        is_history(moments),
        0 <= k < moments.len(),
        moments[k].is_quiet(),
        0 <= i < moments[k].tasks.len(),
    ensures
        ({
            let tasks = moments[k].tasks;
            &&& tasks[i].active_parents == links::links(tasks, links::active_tasks(tasks), i)
                + if tasks[i].always_active() {
                1nat
            } else {
                0nat
            }
            &&& tasks[i].state.active <==> tasks[i].active_parents > 0
        }),
{
    law_accounts_hold_throughout(moments, k);
    let jobs = moments[k].jobs();
    assert forall|j: int| 0 <= j < jobs.len() implies !(#[trigger] jobs[j] is RemoveTasks) by {
        assert(jobs[j] is Schedule);
    }
    lemma_no_removals(jobs, i);
    if deactivation_awaits(jobs, i) {
        let j = choose|j: int|
            0 <= j < jobs.len() && (#[trigger] jobs[j] matches JobView::DeactivateTasks(ids)
                && links::as_set(ids).contains(i));
        assert(jobs[j] is Schedule);
    }
    assert(moments[k].tasks[i].active_parents == links::links(
        moments[k].tasks,
        links::active_tasks(moments[k].tasks),
        i,
    ) + removals(jobs, i) + if moments[k].tasks[i].always_active() {
        1nat
    } else {
        0nat
    });
}

/// What else happens to one task leaves its place in the graph: a change of its slots or of
/// what it keeps for its executions, another count of its executions, and the taking of a
/// computation that can run only once.
pub proof fn law_other_changes_leave_the_place<F, O>(
    task: Task<F, O>,
    output_slot: Slot,
    created_slots: Vec<Slot>,
    executions: u32,
    execution_data: TaskExecutionData,
)
    ensures
        task.same_place(task.with_state(task.state.with_output_slot(output_slot))),
        task.same_place(task.with_state(task.state.with_created_slots(created_slots))),
        task.same_place(task.with_state(task.state.with_executions(executions))),
        task.same_place(task.with_execution_data(execution_data)),
        task.same_place(task.used_up()),
{
}

// Activation and deactivation

/// Whether `heights` gives each task a greater number than its parents have.
pub open spec fn above_parents<F, O>(tasks: Seq<Task<F, O>>, heights: Map<int, nat>) -> bool {
    forall|p: int, c: int|
        0 <= p < tasks.len() && 0 <= c < tasks.len() && #[trigger] links::is_child(tasks, p, c)
            ==> heights[p] < heights[c]
}

/// Whether no task is below itself, so that the tasks can be ordered with each one after
/// its parents.
pub open spec fn acyclic<F, O>(tasks: Seq<Task<F, O>>) -> bool {
    exists|heights: Map<int, nat>| #[trigger] above_parents(tasks, heights)
}

/// Whether the active tasks are those that count an active parent.
pub open spec fn active_where_counted<F, O>(tasks: Seq<Task<F, O>>) -> bool {
    forall|i: int|
        0 <= i < tasks.len() ==> ((#[trigger] tasks[i]).state.active <==> tasks[i].active_parents
            > 0)
}

/// The tasks after activation of those in `woken`, of which those in `live` are still
/// active, where those in `extra` count one active parent more.
pub open spec fn winding_down<F, O>(
    tasks: Seq<Task<F, O>>,
    woken: Set<int>,
    live: Set<int>,
    extra: Set<int>,
) -> Seq<Task<F, O>> {
    Seq::new(
        tasks.len(),
        |i: int|
            tasks[i].with_activity(
                tasks[i].state.active || live.contains(i),
                if woken.contains(i) {
                    tasks[i].state.state_type.on_activation()
                } else {
                    tasks[i].state.state_type
                },
                tasks[i].active_parents + links::links(tasks, live, i) + if extra.contains(i) {
                    1int
                } else {
                    0int
                },
            ),
    )
}

/// The tasks after task `t` has got an active parent and was activated.
pub open spec fn with_activation<F, O>(tasks: Seq<Task<F, O>>, t: int) -> Seq<Task<F, O>> {
    let counted = links::with_parent_counted(tasks, t);
    links::activated(counted, links::woken(counted, t))
}

/// The tasks that activation of task `t` makes active.
pub open spec fn activation<F, O>(tasks: Seq<Task<F, O>>, t: int) -> Set<int> {
    links::woken(links::with_parent_counted(tasks, t), t)
}

/// The tasks after task `t` has lost an active parent.
pub open spec fn with_parent_lost<F, O>(tasks: Seq<Task<F, O>>, t: int) -> Seq<Task<F, O>> {
    tasks.update(
        t,
        tasks[t].with_activity(
            tasks[t].state.active,
            tasks[t].state.state_type,
            tasks[t].active_parents - 1,
        ),
    )
}

/// Whether the runtime runs deactivations, and nothing else changes the tasks, until none
/// is left.
pub open spec fn winds_down<F, O>(moments: Seq<Moment<F, O>>) -> bool {
    &&& moments.len() > 0
    &&& forall|k: int|
        0 <= k < moments.len() - 1 ==> (#[trigger] moments[k]).deactivation_run(moments[k + 1])
            || moments[k].jobs_taken(moments[k + 1]) || moments[k].execution_over(moments[k + 1])
    &&& moments.last().is_quiet()
}

/// What holds of the tasks that an activation has made active, and of those that are left
/// of them.
spec fn windable<F, O>(tasks: Seq<Task<F, O>>, woken: Set<int>, live: Set<int>, extra: Set<int>) -> bool {
    &&& active_where_counted(tasks)
    &&& forall|i: int| #[trigger]
        woken.contains(i) ==> 0 <= i < tasks.len() && !tasks[i].state.active
    &&& live.subset_of(woken)
    &&& forall|i: int|
        0 <= i < tasks.len() ==> tasks[i].active_parents + #[trigger] links::links(tasks, live, i)
            + (if extra.contains(i) {
            1int
        } else {
            0int
        }) <= u32::MAX
}

/// Only tasks that the activation has made active become inactive again.
proof fn lemma_only_live_stop<F, O>(
    tasks: Seq<Task<F, O>>,
    woken: Set<int>,
    live: Set<int>,
    then: Seq<Task<F, O>>,
    released: Set<int>,
    starts: Set<int>,
    levels: Map<int, nat>,
    lists: Seq<Seq<TaskId>>,
    order: Seq<int>,
    b: int,
)
    requires
        windable(tasks, woken, live, released),
        links::shutdown(
            winding_down(tasks, woken, live, released),
            then,
            released,
            starts,
            1,
            levels,
            lists,
        ),
        links::in_order(winding_down(tasks, woken, live, released), levels.dom(), order),
        0 <= b < order.len(),
    ensures
        live.contains(order[b]),
    decreases b,
{
    let n = tasks.len() as int;
    let now = winding_down(tasks, woken, live, released);
    let stopped = levels.dom();
    let i = order[b];
    assert(order.contains(i));
    assert(stopped.contains(i));
    if !live.contains(i) {
        assert(now[i].state.active);
        assert(tasks[i].state.active);
        assert forall|p: int|
            0 <= p < n && stopped.contains(p) && #[trigger] links::is_child(
                now,
                p,
                i,
            ) implies live.contains(p) by {
            assert(order.contains(p));
            let a = choose|a: int| 0 <= a < order.len() && order[a] == p;
            if a >= b {
                assert(!links::is_child(now, order[a], order[b]));
            }
            lemma_only_live_stop(
                tasks,
                woken,
                live,
                then,
                released,
                starts,
                levels,
                lists,
                order,
                a,
            );
        }
        links::lemma_links_subset(now, stopped, live, i, n);
        assert forall|p: int| 0 <= p < n implies (#[trigger] tasks[p]).state.children@
            == now[p].state.children@ by {}
        links::lemma_links_same_children(tasks, now, live, i, n);
        assert(links::lost(now, stopped, released, i) <= now[i].active_parents);
        assert(tasks[i].active_parents + links::links(tasks, live, i) + (if released.contains(i) {
            1int
        } else {
            0int
        }) <= u32::MAX);
        assert(then[i].active_parents > 0);
    }
}

/// One more deactivation.
proof fn lemma_winding_step<F, O>(
    tasks: Seq<Task<F, O>>,
    woken: Set<int>,
    live: Set<int>,
    then: Seq<Task<F, O>>,
    released: Set<int>,
    starts: Set<int>,
    levels: Map<int, nat>,
    lists: Seq<Seq<TaskId>>,
    waiting: Set<int>,
)
    requires
        windable(tasks, woken, live, released),
        links::shutdown(
            winding_down(tasks, woken, live, released),
            then,
            released,
            starts,
            1,
            levels,
            lists,
        ),
        forall|i: int| #[trigger]
            live.contains(i) && winding_down(tasks, woken, live, released)[i].active_parents == 0
                ==> starts.contains(i) || waiting.contains(i),
    ensures
        windable(tasks, woken, live.difference(levels.dom()), Set::empty()),
        then == winding_down(tasks, woken, live.difference(levels.dom()), Set::empty()),
        forall|i: int| #[trigger]
            live.difference(levels.dom()).contains(i) && then[i].active_parents == 0
                ==> waiting.contains(i) || links::listed(lists, i),
{
    let n = tasks.len() as int;
    let now = winding_down(tasks, woken, live, released);
    let stopped = levels.dom();
    let left = live.difference(stopped);
    let order = choose|order: Seq<int>| #[trigger] links::in_order(now, stopped, order);
    assert forall|i: int| #[trigger] stopped.contains(i) implies live.contains(i) by {
        assert(order.contains(i));
        let b = choose|b: int| 0 <= b < order.len() && order[b] == i;
        lemma_only_live_stop(
            tasks,
            woken,
            live,
            then,
            released,
            starts,
            levels,
            lists,
            order,
            b,
        );
    }
    assert forall|p: int| 0 <= p < n implies (#[trigger] tasks[p]).state.children@
        == now[p].state.children@ by {}
    assert forall|i: int| 0 <= i < n implies links::links(tasks, live, i) == #[trigger] links::links(
        tasks,
        left,
        i,
    ) + links::links(now, stopped, i) && then[i] == winding_down(
        tasks,
        woken,
        left,
        Set::empty(),
    )[i] && tasks[i].active_parents + links::links(tasks, left, i) <= u32::MAX by {
        links::lemma_links_union(tasks, live, left, stopped, i, n);
        links::lemma_links_same_children(tasks, now, stopped, i, n);
        assert(tasks[i].active_parents + links::links(tasks, live, i) + (if released.contains(i) {
            1int
        } else {
            0int
        }) <= u32::MAX);
        assert(links::lost(now, stopped, released, i) <= now[i].active_parents);
        if stopped.contains(i) {
            assert(live.contains(i));
            assert(woken.contains(i));
        }
    }
    assert(then =~= winding_down(tasks, woken, left, Set::empty()));
    assert forall|i: int| #[trigger]
        left.contains(i) && then[i].active_parents == 0 implies waiting.contains(i)
        || links::listed(lists, i) by {
        assert(live.contains(i) && woken.contains(i));
        assert(now[i].state.active);
        if now[i].active_parents == 0 {
            assert(starts.contains(i) || waiting.contains(i));
        }
    }
}

/// A set of tasks in which each has a parent is empty, where no task is below itself.
proof fn lemma_no_descent<F, O>(
    tasks: Seq<Task<F, O>>,
    heights: Map<int, nat>,
    set: Set<int>,
    i: int,
)
    requires
        above_parents(tasks, heights),
        forall|c: int| #[trigger] set.contains(c) ==> 0 <= c < tasks.len(),
        forall|c: int| #[trigger]
            set.contains(c) ==> exists|p: int|
                set.contains(p) && #[trigger] links::is_child(tasks, p, c),
    ensures
        !set.contains(i),
    decreases heights[i],
{
    if set.contains(i) {
        let p = choose|p: int| set.contains(p) && #[trigger] links::is_child(tasks, p, i);
        assert(0 <= p < tasks.len());
        lemma_no_descent(tasks, heights, set, p);
    }
}

/// When all deactivations have run, nothing is left of the activation.
proof fn lemma_wound_down<F, O>(
    tasks: Seq<Task<F, O>>,
    woken: Set<int>,
    live: Set<int>,
    moments: Seq<Moment<F, O>>,
    k: int,
)
    requires
        acyclic(tasks),
        winds_down(moments),
        0 <= k < moments.len(),
        windable(tasks, woken, live, Set::empty()),
        moments[k].tasks == winding_down(tasks, woken, live, Set::empty()),
        forall|i: int| #[trigger]
            live.contains(i) && moments[k].tasks[i].active_parents == 0 ==> deactivation_awaits(
                moments[k].jobs(),
                i,
            ),
    ensures
        moments.last().tasks == winding_down(tasks, woken, Set::empty(), Set::empty()),
    decreases moments.len() - k,
{
    let n = tasks.len() as int;
    let now = moments[k].tasks;
    let jobs = moments[k].jobs();
    if k == moments.len() - 1 {
        assert forall|i: int| #[trigger] live.contains(i) implies exists|p: int|
            live.contains(p) && #[trigger] links::is_child(tasks, p, i) by {
            assert(woken.contains(i));
            assert(tasks[i].active_parents == 0);
            if deactivation_awaits(jobs, i) {
                let j = choose|j: int|
                    0 <= j < jobs.len() && (#[trigger] jobs[j] matches JobView::DeactivateTasks(ids)
                        && links::as_set(ids).contains(i));
                assert(jobs[j] is Schedule);
            }
            assert(now[i].active_parents > 0);
            assert(tasks[i].active_parents + links::links(tasks, live, i) <= u32::MAX);
            links::lemma_links_witness(tasks, live, i, n);
        }
        assert forall|i: int| #[trigger] live.contains(i) implies 0 <= i < n by {
            assert(woken.contains(i));
        }
        let heights = choose|heights: Map<int, nat>| #[trigger] above_parents(tasks, heights);
        assert forall|i: int| !#[trigger] live.contains(i) by {
            lemma_no_descent(tasks, heights, live, i);
        }
        assert(live =~= Set::<int>::empty());
    } else {
        let then = moments[k + 1];
        assert(moments[k].deactivation_run(then) || moments[k].jobs_taken(then)
            || moments[k].execution_over(then));
        if moments[k].deactivation_run(then) {
            let (j, ids, count) = choose|j: int, ids: Seq<TaskId>, count: nat|
                0 <= j < moments[k].taken.len() && #[trigger] moments[k].taken[j]
                    == JobView::DeactivateTasks(ids) && #[trigger] links::shuts_down(
                    now,
                    then.tasks,
                    Set::empty(),
                    links::as_set(ids),
                    1,
                    moments[k].handed,
                    then.handed,
                    count,
                ) && then.taken == moments[k].taken.remove(j);
            let (levels, lists) = choose|levels: Map<int, nat>, lists: Seq<Seq<TaskId>>| #[trigger]
                links::shutdown(
                    now,
                    then.tasks,
                    Set::empty(),
                    links::as_set(ids),
                    1,
                    levels,
                    lists,
                ) && then.handed == moments[k].handed + links::deactivations(lists) && count
                    == levels.dom().len();
            let rest = jobs.remove(j);
            let more = links::deactivations(lists);
            assert(jobs[j] == moments[k].taken[j]);
            assert(then.jobs() =~= rest + more);
            let waiting = Set::new(|i: int| deactivation_awaits(rest, i));
            assert forall|i: int| #[trigger]
                live.contains(i) && now[i].active_parents == 0 implies links::as_set(ids).contains(
                i,
            ) || waiting.contains(i) by {
                lemma_awaits_without(jobs, j, i);
            }
            lemma_winding_step(
                tasks,
                woken,
                live,
                then.tasks,
                Set::empty(),
                links::as_set(ids),
                levels,
                lists,
                waiting,
            );
            lemma_deactivations(lists, now.len());
            let left = live.difference(levels.dom());
            assert forall|i: int| #[trigger]
                left.contains(i) && then.tasks[i].active_parents == 0 implies deactivation_awaits(
                then.jobs(),
                i,
            ) by {
                assert(deactivation_awaits(rest, i) || deactivation_awaits(more, i));
                lemma_awaits_either(rest, more, i);
            }
            lemma_wound_down(tasks, woken, left, moments, k + 1);
        } else {
            assert forall|i: int| #[trigger]
                live.contains(i) && then.tasks[i].active_parents == 0 implies deactivation_awaits(
                then.jobs(),
                i,
            ) by {
                if moments[k].jobs_taken(then) {
                    assert(then.jobs() =~= jobs);
                } else {
                    let j = choose|j: int|
                        0 <= j < moments[k].taken.len() && #[trigger] moments[k].taken[j] is Schedule
                            && then.taken == moments[k].taken.remove(j);
                    assert(jobs[j] == moments[k].taken[j]);
                    assert(then.jobs() =~= jobs.remove(j));
                    lemma_awaits_without(jobs, j, i);
                }
            }
            lemma_wound_down(tasks, woken, live, moments, k + 1);
        }
    }
}

proof fn lemma_awaits_either(jobs: Seq<JobView>, more: Seq<JobView>, i: int)
    requires
        deactivation_awaits(jobs, i) || deactivation_awaits(more, i),
    ensures
        deactivation_awaits(jobs + more, i),
{
    let all = jobs + more;
    if deactivation_awaits(jobs, i) {
        let k = choose|k: int|
            0 <= k < jobs.len() && (#[trigger] jobs[k] matches JobView::DeactivateTasks(ids)
                && links::as_set(ids).contains(i));
        assert(all[k] == jobs[k]);
    } else {
        let k = choose|k: int|
            0 <= k < more.len() && (#[trigger] more[k] matches JobView::DeactivateTasks(ids)
                && links::as_set(ids).contains(i));
        assert(all[jobs.len() + k] == more[k]);
    }
}

/// What an activation makes of the tasks.
proof fn lemma_activation_windable<F, O>(tasks: Seq<Task<F, O>>, t: int)
    requires
        links::sound(tasks),
        tasks.len() <= usize::MAX,
        0 <= t < tasks.len(),
        active_where_counted(tasks),
        !tasks[t].state.active,
        links::load(tasks, t) < u32::MAX,
    ensures
        links::closed(links::with_parent_counted(tasks, t)),
        links::roomy(links::with_parent_counted(tasks, t)),
        links::awake(with_activation(tasks, t)),
        windable(tasks, activation(tasks, t), activation(tasks, t), set![t]),
        with_activation(tasks, t) == winding_down(
            tasks,
            activation(tasks, t),
            activation(tasks, t),
            set![t],
        ),
        forall|i: int| #[trigger]
            activation(tasks, t).contains(i) && i != t ==> links::links(
                tasks,
                activation(tasks, t),
                i,
            ) > 0,
{
    let n = tasks.len() as int;
    let counted = links::with_parent_counted(tasks, t);
    let woken = activation(tasks, t);
    assert(links::load(tasks, t) < u32::MAX);
    assert(tasks[t].active_parents < u32::MAX);
    assert forall|p: int| 0 <= p < n implies (#[trigger] tasks[p]).state.children@
        == counted[p].state.children@ by {}
    assert(links::active_tasks(counted) =~= links::active_tasks(tasks));
    assert(links::inactive_tasks(counted) =~= links::inactive_tasks(tasks));
    assert forall|p: int, c: TaskId|
        0 <= p < n && #[trigger] counted[p].state.children@.contains(c) implies c < n by {
        assert(tasks[p].state.children@.contains(c));
    }
    assert forall|i: int| 0 <= i < n implies (#[trigger] counted[i]).active_parents
        >= links::links(counted, links::active_tasks(counted), i) && links::load(counted, i)
        <= u32::MAX by {
        links::lemma_links_same_children(tasks, counted, links::active_tasks(tasks), i, n);
        links::lemma_links_same_children(tasks, counted, links::inactive_tasks(tasks), i, n);
        assert(links::load(tasks, i) <= u32::MAX);
        assert(tasks[i].active_parents >= links::links(tasks, links::active_tasks(tasks), i) + 0);
    }
    assert forall|i: int| 0 <= i < n implies #[trigger] links::load(counted, i) <= u32::MAX by {
        assert(counted[i].active_parents >= 0);
    }
    assert forall|i: int| 0 <= i < n && (
    #[trigger] counted[i]).state.active implies counted[i].state.state_type
        != TaskStateType::Dirty by {
        assert(tasks[i].state.active);
    }
    assert forall|i: int|
        0 <= i < n && i != t && (#[trigger] counted[i]).active_parents
            > 0 implies counted[i].state.active by {
        assert(tasks[i].active_parents > 0);
    }
    links::lemma_activation_keeps(counted, t);
    assert forall|i: int| #[trigger] woken.contains(i) implies 0 <= i < n
        && !tasks[i].state.active by {
        assert(links::inactive_tasks(counted).contains(i));
    }
    assert forall|i: int| 0 <= i < n implies tasks[i].active_parents + #[trigger] links::links(
        tasks,
        woken,
        i,
    ) + (if set![t].contains(i) {
        1int
    } else {
        0int
    }) <= u32::MAX && with_activation(tasks, t)[i] == winding_down(
        tasks,
        woken,
        woken,
        set![t],
    )[i] by {
        links::lemma_links_same_children(tasks, counted, woken, i, n);
        assert(counted[i].active_parents + links::links(counted, woken, i) <= u32::MAX);
    }
    assert(with_activation(tasks, t) =~= winding_down(tasks, woken, woken, set![t]));
    assert forall|i: int| #[trigger] woken.contains(i) && i != t implies links::links(
        tasks,
        woken,
        i,
    ) > 0 by {
        links::lemma_woken_counted(counted, t, i);
        links::lemma_links_witness(counted, woken, i, n);
        links::lemma_links_same_children(tasks, counted, woken, i, n);
    }
}

/// Whether activation and what was done since have left what each task counts and whether
/// it is active, and have at most made dirty tasks scheduled.
pub open spec fn activity_restored<F, O>(
    tasks: Seq<Task<F, O>>,
    woken: Set<int>,
    then: Seq<Task<F, O>>,
) -> bool {
    &&& then.len() == tasks.len()
    &&& forall|i: int|
        0 <= i < tasks.len() ==> #[trigger] then[i] == tasks[i].with_activity(
            tasks[i].state.active,
            if woken.contains(i) {
                tasks[i].state.state_type.on_activation()
            } else {
                tasks[i].state.state_type
            },
            tasks[i].active_parents as int,
        )
}

proof fn lemma_restored<F, O>(tasks: Seq<Task<F, O>>, woken: Set<int>)
    ensures
        activity_restored(
            tasks,
            woken,
            winding_down(tasks, woken, Set::empty(), Set::empty()),
        ),
{
    let then = winding_down(tasks, woken, Set::empty(), Set::empty());
    assert forall|i: int| 0 <= i < tasks.len() implies #[trigger] then[i]
        == tasks[i].with_activity(
        tasks[i].state.active,
        if woken.contains(i) {
            tasks[i].state.state_type.on_activation()
        } else {
            tasks[i].state.state_type
        },
        tasks[i].active_parents as int,
    ) by {
        links::lemma_links_none(tasks, Set::empty(), i, tasks.len() as int);
    }
}

/// A deactivation after which the runtime runs all that are handed on undoes the activation.
proof fn lemma_undone<F, O>(
    tasks: Seq<Task<F, O>>,
    woken: Set<int>,
    released: Set<int>,
    starts: Set<int>,
    levels: Map<int, nat>,
    lists: Seq<Seq<TaskId>>,
    handed: Seq<JobView>,
    moments: Seq<Moment<F, O>>,
)
    requires
        acyclic(tasks),
        winds_down(moments),
        windable(tasks, woken, woken, released),
        links::shutdown(
            winding_down(tasks, woken, woken, released),
            moments[0].tasks,
            released,
            starts,
            1,
            levels,
            lists,
        ),
        moments[0].handed == handed + links::deactivations(lists),
        forall|i: int| #[trigger]
            woken.contains(i) && winding_down(tasks, woken, woken, released)[i].active_parents == 0
                ==> starts.contains(i),
    ensures
        activity_restored(tasks, woken, moments.last().tasks),
{
    lemma_winding_step(
        tasks,
        woken,
        woken,
        moments[0].tasks,
        released,
        starts,
        levels,
        lists,
        Set::empty(),
    );
    let left = woken.difference(levels.dom());
    lemma_handed_await(
        winding_down(tasks, woken, woken, released),
        moments[0].tasks,
        released,
        starts,
        levels,
        lists,
    );
    let more = links::deactivations(lists);
    let rest = moments[0].taken + handed;
    assert(moments[0].jobs() =~= rest + more);
    assert forall|i: int| #[trigger]
        left.contains(i) && moments[0].tasks[i].active_parents == 0 implies deactivation_awaits(
        moments[0].jobs(),
        i,
    ) by {
        assert(links::listed(lists, i));
        assert(deactivation_awaits(more, i));
        lemma_awaits_either(rest, more, i);
    }
    lemma_wound_down(tasks, woken, left, moments, 0);
    lemma_restored(tasks, woken);
}

proof fn lemma_handed_await<F, O>(
    tasks: Seq<Task<F, O>>,
    then: Seq<Task<F, O>>,
    released: Set<int>,
    starts: Set<int>,
    levels: Map<int, nat>,
    lists: Seq<Seq<TaskId>>,
)
    requires
        links::shutdown(tasks, then, released, starts, 1, levels, lists),
    ensures
        forall|i: int| #[trigger]
            deactivation_awaits(links::deactivations(lists), i) <==> links::listed(lists, i),
{
    lemma_deactivations(lists, tasks.len());
}

/// Deactivation undoes activation: where a task gets an active parent and is activated,
/// loses that parent and is deactivated, and then the runtime runs the deactivations that
/// are handed on until none is left, each task counts what it counted, and is active where
/// it was. No task may be below itself, since tasks on a cycle keep each other active.
pub proof fn law_deactivation_undoes_activation<F, O>(
    tasks: Seq<Task<F, O>>,
    t: int,
    handed: Seq<JobView>,
    count: nat,
    moments: Seq<Moment<F, O>>,
)
    requires
        links::sound(tasks),
        tasks.len() <= usize::MAX,
        0 <= t < tasks.len(),
        acyclic(tasks),
        active_where_counted(tasks),
        !tasks[t].state.active,
        links::load(tasks, t) < u32::MAX,
        winds_down(moments),
        links::shuts_down(
            with_parent_lost(with_activation(tasks, t), t),
            moments[0].tasks,
            Set::empty(),
            set![t],
            1,
            handed,
            moments[0].handed,
            count,
        ),
    ensures
        activity_restored(tasks, activation(tasks, t), moments.last().tasks),
{
    let woken = activation(tasks, t);
    let begun = with_parent_lost(with_activation(tasks, t), t);
    lemma_activation_windable(tasks, t);
    let (levels, lists) = choose|levels: Map<int, nat>, lists: Seq<Seq<TaskId>>| #[trigger]
        links::shutdown(begun, moments[0].tasks, Set::empty(), set![t], 1, levels, lists)
            && moments[0].handed == handed + links::deactivations(lists) && count
            == levels.dom().len();
    let now = winding_down(tasks, woken, woken, Set::empty());
    assert forall|i: int| 0 <= i < tasks.len() implies begun[i] == now[i]
        && tasks[i].active_parents + #[trigger] links::links(tasks, woken, i) <= u32::MAX by {
        assert(tasks[i].active_parents + links::links(tasks, woken, i) + (if set![t].contains(i) {
            1int
        } else {
            0int
        }) <= u32::MAX);
    }
    assert(begun =~= now);
    assert forall|i: int| #[trigger]
        woken.contains(i) && now[i].active_parents == 0 implies set![t].contains(i) by {
        assert(0 <= i < tasks.len());
        if i != t {
            assert(links::links(tasks, woken, i) > 0);
        }
    }
    lemma_undone(tasks, woken, Set::empty(), set![t], levels, lists, handed, moments);
}

/// Removal undoes activation: the same, where the parent goes by a removal.
pub proof fn law_removal_undoes_activation<F, O>(
    tasks: Seq<Task<F, O>>,
    t: int,
    handed: Seq<JobView>,
    count: nat,
    moments: Seq<Moment<F, O>>,
)
    requires
        links::sound(tasks),
        tasks.len() <= usize::MAX,
        0 <= t < tasks.len(),
        acyclic(tasks),
        active_where_counted(tasks),
        !tasks[t].state.active,
        links::load(tasks, t) < u32::MAX,
        winds_down(moments),
        links::shuts_down(
            with_activation(tasks, t),
            moments[0].tasks,
            set![t],
            Set::empty(),
            1,
            handed,
            moments[0].handed,
            count,
        ),
    ensures
        activity_restored(tasks, activation(tasks, t), moments.last().tasks),
{
    let woken = activation(tasks, t);
    let begun = with_activation(tasks, t);
    lemma_activation_windable(tasks, t);
    let (levels, lists) = choose|levels: Map<int, nat>, lists: Seq<Seq<TaskId>>| #[trigger]
        links::shutdown(begun, moments[0].tasks, set![t], Set::empty(), 1, levels, lists)
            && moments[0].handed == handed + links::deactivations(lists) && count
            == levels.dom().len();
    let now = winding_down(tasks, woken, woken, set![t]);
    assert forall|i: int| #[trigger] woken.contains(i) implies now[i].active_parents > 0 by {
        assert(0 <= i < tasks.len());
        assert(tasks[i].active_parents + links::links(tasks, woken, i) + (if set![t].contains(i) {
            1int
        } else {
            0int
        }) <= u32::MAX);
        if i != t {
            assert(links::links(tasks, woken, i) > 0);
        }
    }
    lemma_undone(tasks, woken, set![t], Set::empty(), levels, lists, handed, moments);
}

/// What is left after an activation when the new parent is lost is in order, so that
/// deactivation can begin.
pub proof fn law_activation_can_be_undone<F, O>(tasks: Seq<Task<F, O>>, t: int)
    requires
        links::sound(tasks),
        tasks.len() <= usize::MAX,
        0 <= t < tasks.len(),
        active_where_counted(tasks),
        !tasks[t].state.active,
        links::load(tasks, t) < u32::MAX,
    ensures
        links::closed(links::with_parent_counted(tasks, t)),
        links::roomy(links::with_parent_counted(tasks, t)),
        links::sound(with_parent_lost(with_activation(tasks, t), t)),
        links::covered(with_activation(tasks, t), set![t]),
{
    lemma_activation_windable(tasks, t);
    let n = tasks.len() as int;
    let woken = activation(tasks, t);
    let awake = with_activation(tasks, t);
    let left = with_parent_lost(awake, t);
    assert forall|p: int| 0 <= p < n implies (#[trigger] tasks[p]).state.children@
        == left[p].state.children@ && tasks[p].state.children@ == awake[p].state.children@ by {}
    assert forall|p: int, c: TaskId|
        0 <= p < n && #[trigger] left[p].state.children@.contains(c) implies c < n by {
        assert(tasks[p].state.children@.contains(c));
    }
    assert(links::active_tasks(left) =~= links::active_tasks(awake));
    assert(links::inactive_tasks(left) =~= links::inactive_tasks(awake));
    assert forall|p: int| 0 <= p < n implies (#[trigger] links::active_tasks(awake).contains(p)
        <==> links::active_tasks(tasks).contains(p) || woken.contains(p))
        && !(links::active_tasks(tasks).contains(p) && woken.contains(p)) by {}
    assert forall|p: int| 0 <= p < n implies (#[trigger] links::inactive_tasks(tasks).contains(p)
        <==> links::inactive_tasks(awake).contains(p) || woken.contains(p))
        && !(links::inactive_tasks(awake).contains(p) && woken.contains(p)) by {}
    assert forall|i: int| 0 <= i < n implies (#[trigger] left[i]).active_parents >= links::links(
        left,
        links::active_tasks(left),
        i,
    ) && links::load(left, i) <= u32::MAX && awake[i].active_parents >= links::links(
        awake,
        links::active_tasks(awake),
        i,
    ) + (if set![t].contains(i) {
        1nat
    } else {
        0nat
    }) by {
        links::lemma_links_same_children(tasks, left, links::active_tasks(left), i, n);
        links::lemma_links_same_children(tasks, awake, links::active_tasks(left), i, n);
        links::lemma_links_same_children(tasks, left, links::inactive_tasks(left), i, n);
        links::lemma_links_union(
            tasks,
            links::active_tasks(awake),
            links::active_tasks(tasks),
            woken,
            i,
            n,
        );
        links::lemma_links_union(
            tasks,
            links::inactive_tasks(tasks),
            links::inactive_tasks(awake),
            woken,
            i,
            n,
        );
        assert(tasks[i].active_parents + links::links(tasks, woken, i) + (if set![t].contains(i) {
            1int
        } else {
            0int
        }) <= u32::MAX);
        assert(links::load(tasks, i) <= u32::MAX);
        assert(tasks[i].active_parents >= links::links(tasks, links::active_tasks(tasks), i) + 0);
    }
    assert forall|i: int| 0 <= i < n implies #[trigger] links::load(left, i) <= u32::MAX by {
        assert(left[i].active_parents >= 0);
    }
    assert forall|i: int| 0 <= i < n && (#[trigger] left[i]).active_parents
        > 0 implies left[i].state.active by {
        assert(tasks[i].active_parents + links::links(tasks, woken, i) + (if set![t].contains(i) {
            1int
        } else {
            0int
        }) <= u32::MAX);
        assert(awake[i].active_parents > 0);
    }
    assert forall|i: int| 0 <= i < n && (
    #[trigger] left[i]).state.active implies left[i].state.state_type != TaskStateType::Dirty by {
        assert(tasks[i].state.active || woken.contains(i));
    }
}

// What links are, and what activation and shutdown do

/// The tasks in `parents` that have `child` as a child, among the first `n`.
pub open spec fn parents_of<F, O>(
    tasks: Seq<Task<F, O>>,
    parents: Set<int>,
    child: int,
    n: int,
) -> Set<int> {
    Set::new(
        |p: int|
            0 <= p < n && parents.contains(p) && tasks[p].state.children@.contains(child as TaskId),
    )
}

/// The links to a task from some tasks are as many as those of them that have it as a child.
pub proof fn law_links_are_counted<F, O>(
    tasks: Seq<Task<F, O>>,
    parents: Set<int>,
    child: int,
    n: int,
)
    requires
        0 <= n,
    ensures
        parents_of(tasks, parents, child, n).finite(),
        links::links_among(tasks, parents, child, n) == parents_of(tasks, parents, child, n).len(),
        n == tasks.len() ==> links::links(tasks, parents, child) == parents_of(
            tasks,
            parents,
            child,
            n,
        ).len(),
    decreases n,
{
    let all = parents_of(tasks, parents, child, n);
    if n == 0 {
        assert(all =~= Set::<int>::empty());
    } else {
        law_links_are_counted(tasks, parents, child, n - 1);
        let fewer = parents_of(tasks, parents, child, n - 1);
        if parents.contains(n - 1) && tasks[n - 1].state.children@.contains(child as TaskId) {
            assert(all =~= fewer.insert(n - 1));
        } else {
            assert(all =~= fewer);
        }
    }
}

/// The tasks that are active in `then` and were not in `tasks`.
pub open spec fn newly_active<F, O>(tasks: Seq<Task<F, O>>, then: Seq<Task<F, O>>) -> Set<int> {
    Set::new(|i: int| 0 <= i < tasks.len() && !tasks[i].state.active && then[i].state.active)
}

/// Whether `path` leads from parent to child through tasks of `set`.
pub open spec fn leads_through<F, O>(
    tasks: Seq<Task<F, O>>,
    set: Set<int>,
    path: Seq<int>,
) -> bool {
    &&& path.len() > 0
    &&& forall|k: int| 0 <= k < path.len() ==> set.contains(#[trigger] path[k])
    &&& forall|j: int, k: int|
        0 <= j && k == j + 1 && k < path.len() ==> tasks[#[trigger] path[j]].state.children@.contains(
            (#[trigger] path[k]) as TaskId,
        )
}

/// Whether a new link has no more to do: it was there, or the parent is not active.
pub open spec fn link_is_quiet<F, O>(tasks: Seq<Task<F, O>>, child: int, parent: int) -> bool {
    tasks[parent].state.children@.contains(child as TaskId) || !tasks[parent].state.active
}

/// What becomes active by a new link.
proof fn lemma_newly_active<F, O>(
    tasks: Seq<Task<F, O>>,
    then: Seq<Task<F, O>>,
    child: int,
    parent: int,
    children: HashSet<TaskId>,
    before: Seq<JobView>,
    after: Seq<JobView>,
)
    requires
        links::sound(tasks),
        0 <= child < tasks.len() <= usize::MAX,
        0 <= parent < tasks.len(),
        tasks[parent].state.children@.contains(child as TaskId) || links::load(tasks, child)
            < u32::MAX,
        children@ == tasks[parent].state.children@.insert(child as TaskId),
        links::connected(tasks, then, child, parent, children, before, after),
        !link_is_quiet(tasks, child, parent),
    ensures
        ({
            let counted = links::with_parent_counted(
                links::with_children(tasks, parent, children),
                child,
            );
            let woken = links::woken(counted, child);
            &&& newly_active(tasks, then) == woken
            &&& then == links::activated(counted, woken)
            &&& links::schedules_dirty(counted, child, woken, before, after)
            &&& counted.len() == tasks.len()
            &&& tasks[child].active_parents < u32::MAX
            &&& forall|j: int|
                0 <= j < tasks.len() ==> counted[j].active_parents + #[trigger] links::links(
                    counted,
                    woken,
                    j,
                ) <= u32::MAX
            &&& then[child].state.active
        }),
{
    let n = tasks.len() as int;
    let linked = links::with_children(tasks, parent, children);
    let counted = links::with_parent_counted(linked, child);
    links::lemma_new_child_keeps(tasks, parent, child, children);
    assert forall|j: int|
        0 <= j < n && j != child && (#[trigger] counted[j]).active_parents
            > 0 implies counted[j].state.active by {
        assert(tasks[j].active_parents > 0);
    }
    links::lemma_activation_keeps(counted, child);
    let woken = links::woken(counted, child);
    let new = newly_active(tasks, then);
    assert forall|j: int| #[trigger] new.contains(j) <==> woken.contains(j) by {
        if woken.contains(j) {
            assert(links::inactive_tasks(counted).contains(j));
        }
    }
    assert(new =~= woken);
}

/// A new link changes the children of the parent, and otherwise at most whether tasks are
/// active, what they count and that they are scheduled. What is active stays active, and a
/// task changes its state only where it becomes active and was dirty: it is scheduled.
pub proof fn law_connection_changes_little<F, O>(
    tasks: Seq<Task<F, O>>,
    then: Seq<Task<F, O>>,
    child: int,
    parent: int,
    children: HashSet<TaskId>,
    before: Seq<JobView>,
    after: Seq<JobView>,
    i: int,
)
    requires
        links::sound(tasks),
        0 <= child < tasks.len() <= usize::MAX,
        0 <= parent < tasks.len(),
        0 <= i < tasks.len(),
        tasks[parent].state.children@.contains(child as TaskId) || links::load(tasks, child)
            < u32::MAX,
        children@ == tasks[parent].state.children@.insert(child as TaskId),
        links::connected(tasks, then, child, parent, children, before, after),
    ensures
        then.len() == tasks.len(),
        then[i].inputs == tasks[i].inputs,
        then[i].ty == tasks[i].ty,
        then[i].execution_data == tasks[i].execution_data,
        then[i].state.output_slot == tasks[i].state.output_slot,
        then[i].state.created_slots == tasks[i].state.created_slots,
        then[i].state.event == tasks[i].state.event,
        then[i].state.executions == tasks[i].state.executions,
        then[i].state.children == if i == parent {
            children
        } else {
            tasks[i].state.children
        },
        tasks[i].state.active ==> then[i].state.active,
        tasks[i].state.active || !then[i].state.active || tasks[i].state.state_type
            != TaskStateType::Dirty ==> then[i].state.state_type == tasks[i].state.state_type,
        !tasks[i].state.active && then[i].state.active && tasks[i].state.state_type
            == TaskStateType::Dirty ==> then[i].state.state_type == TaskStateType::Scheduled,
        link_is_quiet(tasks, child, parent) ==> then[i].state.active == tasks[i].state.active
            && then[i].active_parents == tasks[i].active_parents && after == before,
        link_is_quiet(tasks, child, parent) <==> tasks[parent].state.children@.contains(
            child as TaskId,
        ) || !tasks[parent].state.active,
{
    if !link_is_quiet(tasks, child, parent) {
        lemma_newly_active(tasks, then, child, parent, children, before, after);
        assert(newly_active(tasks, then).contains(i) <==> !tasks[i].state.active
            && then[i].state.active);
    }
}

/// A new link to a task from an active parent makes the task active, and with it the
/// inactive tasks below it, each reached through tasks that become active, and no others. In
/// the end the children of each active task are active.
pub proof fn law_connection_activates_what_is_below<F, O>(
    tasks: Seq<Task<F, O>>,
    then: Seq<Task<F, O>>,
    child: int,
    parent: int,
    children: HashSet<TaskId>,
    before: Seq<JobView>,
    after: Seq<JobView>,
    i: int,
)
    requires
        links::sound(tasks),
        0 <= child < tasks.len() <= usize::MAX,
        0 <= parent < tasks.len(),
        0 <= i < tasks.len(),
        tasks[parent].state.children@.contains(child as TaskId) || links::load(tasks, child)
            < u32::MAX,
        children@ == tasks[parent].state.children@.insert(child as TaskId),
        links::connected(tasks, then, child, parent, children, before, after),
    ensures
        !link_is_quiet(tasks, child, parent) ==> then[child].state.active,
        !tasks[i].state.active && then[i].state.active ==> exists|path: Seq<int>| #[trigger]
            leads_through(then, newly_active(tasks, then), path) && path[0] == child
                && path.last() == i,
        then[i].state.active ==> forall|c: TaskId| #[trigger]
            then[i].state.children@.contains(c) ==> then[c as int].state.active,
{
    lemma_link_keeps_soundness(tasks, then, child, parent, children, before, after);
    if then[i].state.active {
        assert forall|c: TaskId| #[trigger]
            then[i].state.children@.contains(c) implies then[c as int].state.active by {
            law_children_of_active_tasks_are_active(then, i, c as int);
        }
    }
    if !link_is_quiet(tasks, child, parent) {
        lemma_newly_active(tasks, then, child, parent, children, before, after);
        let counted = links::with_parent_counted(
            links::with_children(tasks, parent, children),
            child,
        );
        let new = newly_active(tasks, then);
        if !tasks[i].state.active && then[i].state.active {
            assert(new.contains(i));
            let path = lemma_path_is_woken(counted, child, i);
            assert forall|j: int, k: int|
                0 <= j && k == j + 1 && k
                    < path.len() implies then[#[trigger] path[j]].state.children@.contains(
                (#[trigger] path[k]) as TaskId,
            ) by {
                assert(new.contains(path[j]));
                assert(counted[path[j]].state.children@.contains(path[k] as TaskId));
            }
            assert(leads_through(then, new, path));
        }
    }
}

proof fn lemma_path_is_woken<F, O>(tasks: Seq<Task<F, O>>, start: int, i: int) -> (path: Seq<int>)
    requires
        links::wakes(tasks, start, i),
    ensures
        leads_through(tasks, links::woken(tasks, start), path),
        path[0] == start,
        path.last() == i,
{
    let woken = links::woken(tasks, start);
    let path = choose|path: Seq<int>| #[trigger]
        links::wake_path(tasks, path) && path[0] == start && path.last() == i;
    assert forall|k: int| 0 <= k < path.len() implies woken.contains(#[trigger] path[k]) by {
        let first = path.take(k + 1);
        assert forall|l: int| 0 < l < first.len() implies links::is_child(
            tasks,
            first[l - 1],
            #[trigger] first[l],
        ) && links::dormant(tasks, first[l]) by {
            assert(first[l] == path[l] && first[l - 1] == path[l - 1]);
        }
        assert(links::wake_path(tasks, first));
        assert(first[0] == start && first.last() == path[k]);
    }
    assert forall|j: int, k: int|
        0 <= j && k == j + 1 && k
            < path.len() implies tasks[#[trigger] path[j]].state.children@.contains(
        (#[trigger] path[k]) as TaskId,
    ) by {
        assert(links::is_child(tasks, path[k - 1], path[k]));
    }
    path
}

/// After a new link each task counts one active parent more for each of its parents that has
/// become active, and the child counts the new parent where that is active.
pub proof fn law_connection_counts_the_parents<F, O>(
    tasks: Seq<Task<F, O>>,
    then: Seq<Task<F, O>>,
    child: int,
    parent: int,
    children: HashSet<TaskId>,
    before: Seq<JobView>,
    after: Seq<JobView>,
    i: int,
)
    requires
        links::sound(tasks),
        0 <= child < tasks.len() <= usize::MAX,
        0 <= parent < tasks.len(),
        0 <= i < tasks.len(),
        tasks[parent].state.children@.contains(child as TaskId) || links::load(tasks, child)
            < u32::MAX,
        children@ == tasks[parent].state.children@.insert(child as TaskId),
        links::connected(tasks, then, child, parent, children, before, after),
    ensures
        then[i].active_parents == tasks[i].active_parents + parents_of(
            then,
            newly_active(tasks, then),
            i,
            tasks.len() as int,
        ).len() + if i == child && !link_is_quiet(tasks, child, parent) {
            1nat
        } else {
            0nat
        },
{
    let n = tasks.len() as int;
    let new = newly_active(tasks, then);
    law_links_are_counted(then, new, i, n);
    if link_is_quiet(tasks, child, parent) {
        assert(new =~= Set::<int>::empty());
        assert(parents_of(then, new, i, n) =~= Set::<int>::empty());
    } else {
        lemma_newly_active(tasks, then, child, parent, children, before, after);
        let counted = links::with_parent_counted(
            links::with_children(tasks, parent, children),
            child,
        );
        assert forall|p: int| 0 <= p < n implies (#[trigger] counted[p]).state.children@
            == then[p].state.children@ by {}
        links::lemma_links_same_children(counted, then, new, i, n);
        assert(counted[i].active_parents + links::links(counted, new, i) <= u32::MAX);
    }
}

/// After a new link there is one job more for each task that has become active and was
/// dirty, which executes it, behind the jobs that were there, and no other. The child comes
/// last, after what is below it.
pub proof fn law_connection_schedules_what_was_dirty<F, O>(
    tasks: Seq<Task<F, O>>,
    then: Seq<Task<F, O>>,
    child: int,
    parent: int,
    children: HashSet<TaskId>,
    before: Seq<JobView>,
    after: Seq<JobView>,
)
    requires
        links::sound(tasks),
        0 <= child < tasks.len() <= usize::MAX,
        0 <= parent < tasks.len(),
        tasks[parent].state.children@.contains(child as TaskId) || links::load(tasks, child)
            < u32::MAX,
        children@ == tasks[parent].state.children@.insert(child as TaskId),
        links::connected(tasks, then, child, parent, children, before, after),
    ensures
        before.len() <= after.len(),
        after.take(before.len() as int) == before,
        forall|k: int|
            before.len() <= k < after.len() ==> (#[trigger] after[k] matches JobView::Schedule(id)
                && newly_active(tasks, then).contains(id as int)
                && tasks[id as int].state.state_type == TaskStateType::Dirty),
        forall|i: int| #[trigger]
            newly_active(tasks, then).contains(i) && tasks[i].state.state_type
                == TaskStateType::Dirty ==> exists|k: int|
                before.len() <= k < after.len() && #[trigger] after[k] == JobView::Schedule(
                    i as TaskId,
                ),
        forall|k: int, l: int|
            before.len() <= k < l < after.len() ==> #[trigger] after[k] != #[trigger] after[l],
        newly_active(tasks, then).contains(child) && tasks[child].state.state_type
            == TaskStateType::Dirty ==> after.last() == JobView::Schedule(child as TaskId),
{
    let m = before.len() as int;
    let new = newly_active(tasks, then);
    if link_is_quiet(tasks, child, parent) {
        assert(new =~= Set::<int>::empty());
        assert(after.take(m) =~= before);
    } else {
        lemma_newly_active(tasks, then, child, parent, children, before, after);
        let counted = links::with_parent_counted(
            links::with_children(tasks, parent, children),
            child,
        );
        let ids = choose|ids: Seq<TaskId>| #[trigger]
            links::lists_dirty(counted, child, new, ids) && after == before + links::schedules(ids);
        assert(after.take(m) =~= before);
        assert forall|k: int| m <= k < after.len() implies #[trigger] after[k] == JobView::Schedule(
            ids[k - m],
        ) && new.contains(ids[k - m] as int) && tasks[ids[k - m] as int].state.state_type
            == TaskStateType::Dirty by {
            assert(ids.contains(ids[k - m]));
        }
        assert forall|i: int| #[trigger]
            new.contains(i) && tasks[i].state.state_type == TaskStateType::Dirty implies exists|
            k: int,
        |
            m <= k < after.len() && #[trigger] after[k] == JobView::Schedule(i as TaskId) by {
            assert(ids.contains(i as TaskId));
            let j = choose|j: int| 0 <= j < ids.len() && ids[j] == i as TaskId;
            assert(after[m + j] == JobView::Schedule(i as TaskId));
        }
        assert forall|k: int, l: int| m <= k < l < after.len() implies #[trigger] after[k]
            != #[trigger] after[l] by {
            assert(after[k] == JobView::Schedule(ids[k - m]));
            assert(after[l] == JobView::Schedule(ids[l - m]));
        }
    }
}

/// Whether each task of `levels` is one of `sources` on the level `depth`, or one level
/// below a parent of it that is above the fourth level.
spec fn levels_go_down<F, O>(
    tasks: Seq<Task<F, O>>,
    sources: Set<int>,
    depth: nat,
    levels: Map<int, nat>,
) -> bool {
    forall|i: int| #[trigger]
        levels.dom().contains(i) ==> (levels[i] == depth && sources.contains(i)) || exists|p: int|
            levels.dom().contains(p) && #[trigger] links::is_child(tasks, p, i) && levels[p] < 4
                && levels[i] == levels[p] + 1
}

proof fn lemma_levels_go_down<F, O>(
    tasks: Seq<Task<F, O>>,
    then: Seq<Task<F, O>>,
    released: Set<int>,
    starts: Set<int>,
    depth: nat,
    levels: Map<int, nat>,
    lists: Seq<Seq<TaskId>>,
)
    requires
        links::shutdown(tasks, then, released, starts, depth, levels, lists),
    ensures
        levels_go_down(tasks, starts.union(released), depth, levels),
        levels.dom() == newly_active(then, tasks),
        then.len() == tasks.len(),
{
    let gone = newly_active(then, tasks);
    assert forall|j: int| #[trigger] gone.contains(j) <==> levels.dom().contains(j) by {}
    assert(gone =~= levels.dom());
}

/// Each task is reached from a source, one level deeper at each step.
proof fn lemma_reached<F, O>(
    tasks: Seq<Task<F, O>>,
    sources: Set<int>,
    depth: nat,
    levels: Map<int, nat>,
    order: Seq<int>,
    b: int,
) -> (path: Seq<int>)
    requires
        levels_go_down(tasks, sources, depth, levels),
        links::in_order(tasks, levels.dom(), order),
        0 <= b < order.len(),
    ensures
        leads_through(tasks, levels.dom(), path),
        sources.contains(path[0]),
        path.last() == order[b],
        path.len() == 1 || depth + path.len() <= 5,
        levels[order[b]] == depth + path.len() - 1,
    decreases b,
{
    let i = order[b];
    assert(order.contains(i));
    assert(levels.dom().contains(i));
    if levels[i] == depth && sources.contains(i) {
        seq![i]
    } else {
        let p = choose|p: int|
            levels.dom().contains(p) && #[trigger] links::is_child(tasks, p, i) && levels[p] < 4
                && levels[i] == levels[p] + 1;
        assert(order.contains(p));
        let a = choose|a: int| 0 <= a < order.len() && order[a] == p;
        if a >= b {
            assert(!links::is_child(tasks, order[a], order[b]));
        }
        let path = lemma_reached(tasks, sources, depth, levels, order, a);
        let longer = path.push(i);
        assert forall|k: int| 0 <= k < longer.len() implies levels.dom().contains(
            #[trigger] longer[k],
        ) by {
            if k < path.len() {
                assert(longer[k] == path[k]);
            }
        }
        assert forall|j: int, k: int|
            0 <= j && k == j + 1 && k
                < longer.len() implies tasks[#[trigger] longer[j]].state.children@.contains(
            (#[trigger] longer[k]) as TaskId,
        ) by {
            assert(longer[j] == path[j]);
            if k < path.len() {
                assert(longer[k] == path[k]);
            }
        }
        assert(longer[0] == path[0]);
        longer
    }
}

/// A shutdown changes at most whether tasks are active and what they count. Tasks become
/// inactive, as many as it says, and never active. Each task loses one of the active parents
/// that it counts for each of its parents that has become inactive, and one more where it is
/// released. A task becomes inactive only with none left, and a start that is active and
/// counts none does.
pub proof fn law_shutdown_changes_little<F, O>(
    tasks: Seq<Task<F, O>>,
    then: Seq<Task<F, O>>,
    released: Set<int>,
    starts: Set<int>,
    depth: nat,
    before: Seq<JobView>,
    after: Seq<JobView>,
    count: nat,
    i: int,
)
    requires
        links::shuts_down(tasks, then, released, starts, depth, before, after, count),
        0 <= i < tasks.len(),
    ensures
        then.len() == tasks.len(),
        count == newly_active(then, tasks).len(),
        then[i].inputs == tasks[i].inputs,
        then[i].ty == tasks[i].ty,
        then[i].execution_data == tasks[i].execution_data,
        then[i].state.state_type == tasks[i].state.state_type,
        then[i].state.children == tasks[i].state.children,
        then[i].state.output_slot == tasks[i].state.output_slot,
        then[i].state.created_slots == tasks[i].state.created_slots,
        then[i].state.event == tasks[i].state.event,
        then[i].state.executions == tasks[i].state.executions,
        then[i].state.active ==> tasks[i].state.active,
        tasks[i].active_parents == then[i].active_parents + parents_of(
            tasks,
            newly_active(then, tasks),
            i,
            tasks.len() as int,
        ).len() + if released.contains(i) {
            1nat
        } else {
            0nat
        },
        tasks[i].state.active && !then[i].state.active ==> then[i].active_parents == 0,
        starts.contains(i) && tasks[i].state.active && tasks[i].active_parents == 0
            ==> !then[i].state.active,
{
    let n = tasks.len() as int;
    let (levels, lists) = choose|levels: Map<int, nat>, lists: Seq<Seq<TaskId>>| #[trigger]
        links::shutdown(tasks, then, released, starts, depth, levels, lists) && after == before
            + links::deactivations(lists) && count == levels.dom().len();
    lemma_levels_go_down(tasks, then, released, starts, depth, levels, lists);
    law_links_are_counted(tasks, levels.dom(), i, n);
    assert(links::lost(tasks, levels.dom(), released, i) <= tasks[i].active_parents);
    assert(newly_active(then, tasks).contains(i) <==> tasks[i].state.active
        && !then[i].state.active);
}

/// A task becomes inactive in a shutdown only where it is reached from a released task or a
/// start through tasks that become inactive, and no deeper than the fourth level.
pub proof fn law_shutdown_goes_down<F, O>(
    tasks: Seq<Task<F, O>>,
    then: Seq<Task<F, O>>,
    released: Set<int>,
    starts: Set<int>,
    depth: nat,
    before: Seq<JobView>,
    after: Seq<JobView>,
    count: nat,
    i: int,
)
    requires
        links::shuts_down(tasks, then, released, starts, depth, before, after, count),
        0 <= i < tasks.len(),
        tasks[i].state.active && !then[i].state.active,
    ensures
        exists|path: Seq<int>| #[trigger]
            leads_through(tasks, newly_active(then, tasks), path) && path.last() == i && (
            starts.contains(path[0]) || released.contains(path[0])) && (path.len() == 1 || depth
                + path.len() <= 5),
{
    let (levels, lists) = choose|levels: Map<int, nat>, lists: Seq<Seq<TaskId>>| #[trigger]
        links::shutdown(tasks, then, released, starts, depth, levels, lists) && after == before
            + links::deactivations(lists) && count == levels.dom().len();
    lemma_levels_go_down(tasks, then, released, starts, depth, levels, lists);
    let order = choose|order: Seq<int>| #[trigger] links::in_order(tasks, levels.dom(), order);
    assert(newly_active(then, tasks).contains(i));
    assert(order.contains(i));
    let b = choose|b: int| 0 <= b < order.len() && order[b] == i;
    let path = lemma_reached(tasks, starts.union(released), depth, levels, order, b);
    assert(leads_through(tasks, newly_active(then, tasks), path));
}

/// Whether a job behind the first `m` deactivates task `i`.
pub open spec fn is_handed_on(jobs: Seq<JobView>, m: int, i: int) -> bool {
    exists|k: int|
        m <= k < jobs.len() && (#[trigger] jobs[k] matches JobView::DeactivateTasks(ids)
            && ids.contains(i as TaskId))
}

/// A task that loses its last active parent in a shutdown becomes inactive or is handed on,
/// in a job behind those that were there, which all are deactivations. It is handed on only
/// where a parent of it has become inactive on the fourth level or below.
pub proof fn law_shutdown_hands_on_what_is_deep<F, O>(
    tasks: Seq<Task<F, O>>,
    then: Seq<Task<F, O>>,
    released: Set<int>,
    starts: Set<int>,
    depth: nat,
    before: Seq<JobView>,
    after: Seq<JobView>,
    count: nat,
    i: int,
)
    requires
        links::shuts_down(tasks, then, released, starts, depth, before, after, count),
        0 <= i < tasks.len() <= usize::MAX,
    ensures
        before.len() <= after.len(),
        after.take(before.len() as int) == before,
        forall|k: int| before.len() <= k < after.len() ==> #[trigger] after[k] is DeactivateTasks,
        tasks[i].active_parents > 0 && then[i].active_parents == 0 && then[i].state.active
            ==> is_handed_on(after, before.len() as int, i),
        is_handed_on(after, before.len() as int, i) ==> tasks[i].active_parents > 0
            && then[i].active_parents == 0 && exists|path: Seq<int>| #[trigger]
            leads_through(tasks, newly_active(then, tasks), path)
                && tasks[path.last()].state.children@.contains(i as TaskId) && (starts.contains(
                path[0],
            ) || released.contains(path[0])) && depth + path.len() >= 5,
{
    let (levels, lists) = choose|levels: Map<int, nat>, lists: Seq<Seq<TaskId>>| #[trigger]
        links::shutdown(tasks, then, released, starts, depth, levels, lists) && after == before
            + links::deactivations(lists) && count == levels.dom().len();
    lemma_levels_go_down(tasks, then, released, starts, depth, levels, lists);
    let m = before.len() as int;
    assert(after.take(m) =~= before);
    if tasks[i].active_parents > 0 && then[i].active_parents == 0 && then[i].state.active {
        assert(!newly_active(then, tasks).contains(i));
        assert(links::listed(lists, i));
        let (k, j) = choose|k: int, j: int|
            0 <= k < lists.len() && 0 <= j < lists[k].len() && #[trigger] lists[k][j] == i;
        assert(after[m + k] == JobView::DeactivateTasks(lists[k]));
        assert(lists[k][j] == i as TaskId);
        assert(lists[k].contains(i as TaskId));
    }
    if is_handed_on(after, m, i) {
        let k = choose|k: int|
            m <= k < after.len() && (#[trigger] after[k] matches JobView::DeactivateTasks(ids)
                && ids.contains(i as TaskId));
        let list = lists[k - m];
        assert(after[k] == JobView::DeactivateTasks(list));
        let j = choose|j: int| 0 <= j < list.len() && list[j] == i as TaskId;
        assert(lists[k - m][j] == i);
        assert(links::listed(lists, i));
        lemma_deep_parent(
            tasks,
            then,
            released,
            starts,
            depth,
            levels,
            lists,
            i,
        );
    }
}

proof fn lemma_deep_parent<F, O>(
    tasks: Seq<Task<F, O>>,
    then: Seq<Task<F, O>>,
    released: Set<int>,
    starts: Set<int>,
    depth: nat,
    levels: Map<int, nat>,
    lists: Seq<Seq<TaskId>>,
    i: int,
)
    requires
        links::shutdown(tasks, then, released, starts, depth, levels, lists),
        links::listed(lists, i),
    ensures
        exists|path: Seq<int>| #[trigger]
            leads_through(tasks, newly_active(then, tasks), path)
                && tasks[path.last()].state.children@.contains(i as TaskId) && (starts.contains(
                path[0],
            ) || released.contains(path[0])) && depth + path.len() >= 5,
{
    lemma_levels_go_down(tasks, then, released, starts, depth, levels, lists);
    let order = choose|order: Seq<int>| #[trigger] links::in_order(tasks, levels.dom(), order);
    let p = choose|p: int|
        levels.dom().contains(p) && #[trigger] links::is_child(tasks, p, i) && levels[p]
            >= links::DEEP;
    assert(order.contains(p));
    let b = choose|b: int| 0 <= b < order.len() && order[b] == p;
    let path = lemma_reached(tasks, starts.union(released), depth, levels, order, b);
    assert(leads_through(tasks, newly_active(then, tasks), path));
}

/// What always holds, in full: the children of each task exist; each task counts at least
/// its active parents, and could count its inactive ones too; it is active where it counts
/// one, and where it is active it is not dirty.
pub proof fn law_soundness_in_full<F, O>(tasks: Seq<Task<F, O>>)
    ensures
        links::sound(tasks) <==> forall|i: int|
            0 <= i < tasks.len() ==> {
                &&& forall|c: TaskId| #[trigger]
                    tasks[i].state.children@.contains(c) ==> c < tasks.len()
                &&& (#[trigger] tasks[i]).active_parents >= parents_of(
                    tasks,
                    links::active_tasks(tasks),
                    i,
                    tasks.len() as int,
                ).len()
                &&& tasks[i].active_parents + parents_of(
                    tasks,
                    links::inactive_tasks(tasks),
                    i,
                    tasks.len() as int,
                ).len() <= u32::MAX
                &&& tasks[i].active_parents > 0 ==> tasks[i].state.active
                &&& tasks[i].state.active ==> tasks[i].state.state_type != TaskStateType::Dirty
            },
        forall|i: int| #[trigger]
            links::active_tasks(tasks).contains(i) <==> 0 <= i < tasks.len()
                && tasks[i].state.active,
        forall|i: int| #[trigger]
            links::inactive_tasks(tasks).contains(i) <==> 0 <= i < tasks.len()
                && !tasks[i].state.active,
{
    let n = tasks.len() as int;
    assert forall|i: int| 0 <= i < n implies links::links(tasks, links::active_tasks(tasks), i)
        == parents_of(tasks, links::active_tasks(tasks), i, n).len() && #[trigger] links::load(
        tasks,
        i,
    ) == tasks[i].active_parents + parents_of(tasks, links::inactive_tasks(tasks), i, n).len() by {
        law_links_are_counted(tasks, links::active_tasks(tasks), i, n);
        law_links_are_counted(tasks, links::inactive_tasks(tasks), i, n);
    }
    if links::sound(tasks) {
        assert forall|i: int| 0 <= i < n implies (#[trigger] tasks[i]).active_parents
            >= parents_of(tasks, links::active_tasks(tasks), i, n).len() && tasks[i].active_parents
            + parents_of(tasks, links::inactive_tasks(tasks), i, n).len() <= u32::MAX by {
            assert(links::load(tasks, i) <= u32::MAX);
        }
    } else {
        if forall|i: int|
            0 <= i < tasks.len() ==> {
                &&& forall|c: TaskId| #[trigger]
                    tasks[i].state.children@.contains(c) ==> c < tasks.len()
                &&& (#[trigger] tasks[i]).active_parents >= parents_of(
                    tasks,
                    links::active_tasks(tasks),
                    i,
                    tasks.len() as int,
                ).len()
                &&& tasks[i].active_parents + parents_of(
                    tasks,
                    links::inactive_tasks(tasks),
                    i,
                    tasks.len() as int,
                ).len() <= u32::MAX
                &&& tasks[i].active_parents > 0 ==> tasks[i].state.active
                &&& tasks[i].state.active ==> tasks[i].state.state_type != TaskStateType::Dirty
            } {
            assert forall|i: int| 0 <= i < n implies #[trigger] links::load(tasks, i)
                <= u32::MAX by {
                assert(tasks[i].active_parents >= 0);
            }
            assert forall|i: int| 0 <= i < n implies (#[trigger] tasks[i]).active_parents
                >= links::links(tasks, links::active_tasks(tasks), i) by {
                assert(links::load(tasks, i) <= u32::MAX);
            }
            assert(links::covered(tasks, Set::empty()));
            assert(links::roomy(tasks));
            assert(links::closed(tasks));
            assert(false);
        }
    }
}

/// Tasks can lose an active parent each where each of them counts one more than are active.
pub proof fn law_covered_in_full<F, O>(tasks: Seq<Task<F, O>>, owed: Set<int>)
    ensures
        links::covered(tasks, owed) <==> forall|i: int|
            0 <= i < tasks.len() ==> (#[trigger] tasks[i]).active_parents >= parents_of(
                tasks,
                links::active_tasks(tasks),
                i,
                tasks.len() as int,
            ).len() + (if owed.contains(i) {
                1nat
            } else {
                0nat
            }),
{
    let n = tasks.len() as int;
    assert forall|i: int| 0 <= i < n implies #[trigger] links::links(
        tasks,
        links::active_tasks(tasks),
        i,
    ) == parents_of(tasks, links::active_tasks(tasks), i, n).len() by {
        law_links_are_counted(tasks, links::active_tasks(tasks), i, n);
    }
    if forall|i: int|
        0 <= i < n ==> (#[trigger] tasks[i]).active_parents >= parents_of(
            tasks,
            links::active_tasks(tasks),
            i,
            n,
        ).len() + (if owed.contains(i) {
            1nat
        } else {
            0nat
        }) {
        assert forall|i: int| 0 <= i < n implies (#[trigger] tasks[i]).active_parents
            >= links::links(tasks, links::active_tasks(tasks), i) + (if owed.contains(i) {
            1nat
        } else {
            0nat
        }) by {
            assert(links::links(tasks, links::active_tasks(tasks), i) == parents_of(
                tasks,
                links::active_tasks(tasks),
                i,
                n,
            ).len());
        }
    }
    if links::covered(tasks, owed) {
        assert forall|i: int| 0 <= i < n implies (#[trigger] tasks[i]).active_parents
            >= parents_of(tasks, links::active_tasks(tasks), i, n).len() + (if owed.contains(i) {
            1nat
        } else {
            0nat
        }) by {
            assert(links::links(tasks, links::active_tasks(tasks), i) == parents_of(
                tasks,
                links::active_tasks(tasks),
                i,
                n,
            ).len());
        }
    }
}

/// A removal and a deactivation are of the tasks that they name, and of no others.
pub proof fn law_jobs_are_of_the_tasks_that_they_name(ids: Set<TaskId>, list: Seq<TaskId>, i: int)
    ensures
        links::members(ids).contains(i) <==> exists|id: TaskId| #[trigger]
            ids.contains(id) && id == i,
        links::as_set(list).contains(i) <==> exists|j: int|
            0 <= j < list.len() && #[trigger] list[j] == i,
{
    if links::members(ids).contains(i) {
        assert(ids.contains(i as TaskId));
    }
}

} // verus!

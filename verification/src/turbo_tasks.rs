//! The work that operations on tasks hand to the runtime.
use std::collections::HashSet;
use vstd::prelude::*;

use crate::slot::TaskId;

verus! {

/// A piece of work for the runtime.
#[derive(Debug)]
pub enum Job {
    /// Execute the task.
    Schedule(TaskId),
    /// Take these tasks away from a parent that has let go of them.
    RemoveTasks(HashSet<TaskId>),
    /// Deactivate those of these tasks that have no active parent.
    DeactivateTasks(Vec<TaskId>),
}

/// The contents of a [`Job`].
pub ghost enum JobView {
    Schedule(TaskId),
    RemoveTasks(Set<TaskId>),
    DeactivateTasks(Seq<TaskId>),
}

/// `jobs`, and then `job` where `condition` holds.
pub open spec fn with_job_if(jobs: Seq<JobView>, condition: bool, job: JobView) -> Seq<JobView> {
    if condition {
        jobs.push(job)
    } else {
        jobs
    }
}

/// A job is added at the end where the condition holds, and none where it does not.
pub proof fn law_job_is_added_at_the_end(jobs: Seq<JobView>, condition: bool, job: JobView)
    ensures
        with_job_if(jobs, condition, job).len() == jobs.len() + if condition {
            1nat
        } else {
            0nat
        },
        with_job_if(jobs, condition, job).take(jobs.len() as int) == jobs,
        condition ==> with_job_if(jobs, condition, job).last() == job,
{
    assert(with_job_if(jobs, condition, job).take(jobs.len() as int) =~= jobs);
}

impl View for Job {
    type V = JobView;

    open spec fn view(&self) -> JobView {
        match self {
            Job::Schedule(task) => JobView::Schedule(*task),
            Job::RemoveTasks(tasks) => JobView::RemoveTasks(tasks@),
            Job::DeactivateTasks(tasks) => JobView::DeactivateTasks(tasks@),
        }
    }
}

/// The jobs that were handed to the runtime and that it has not taken yet, in the
/// order in which they came.
#[derive(Debug)]
pub struct TurboTasks {
    jobs: Vec<Job>,
}

impl View for TurboTasks {
    type V = Seq<JobView>;

    closed spec fn view(&self) -> Seq<JobView> {
        self.jobs@.map_values(|job: Job| job@)
    }
}

impl TurboTasks {
    pub fn new() -> (res: TurboTasks)
        ensures
            res@ == Seq::<JobView>::empty(),
    {
        let res = TurboTasks { jobs: Vec::new() };
        assert(res@ =~= Seq::<JobView>::empty());
        res
    }

    /// Hands over the execution of `task`.
    pub fn schedule(&mut self, task: TaskId)
        ensures
            final(self)@ == old(self)@.push(JobView::Schedule(task)),
    {
        self.jobs.push(Job::Schedule(task));
        assert(self@ =~= old(self)@.push(JobView::Schedule(task)));
    }

    /// Hands over the removal of `tasks` from a parent.
    pub fn schedule_remove_tasks(&mut self, tasks: HashSet<TaskId>)
        ensures
            final(self)@ == old(self)@.push(JobView::RemoveTasks(tasks@)),
    {
        self.jobs.push(Job::RemoveTasks(tasks));
        assert(self@ =~= old(self)@.push(JobView::RemoveTasks(tasks@)));
    }

    /// Hands over the deactivation of `tasks`.
    pub fn schedule_deactivate_tasks(&mut self, tasks: Vec<TaskId>)
        ensures
            final(self)@ == old(self)@.push(JobView::DeactivateTasks(tasks@)),
    {
        self.jobs.push(Job::DeactivateTasks(tasks));
        assert(self@ =~= old(self)@.push(JobView::DeactivateTasks(tasks@)));
    }

    /// Gives the jobs to the runtime.
    pub fn take_jobs(&mut self) -> (res: Vec<Job>)
        ensures
            res@.len() == old(self)@.len(),
            forall|k: int| 0 <= k < res@.len() ==> match #[trigger] res@[k] {
                Job::Schedule(task) => old(self)@[k] == JobView::Schedule(task),
                Job::RemoveTasks(tasks) => old(self)@[k] == JobView::RemoveTasks(tasks@),
                Job::DeactivateTasks(tasks) => old(self)@[k] == JobView::DeactivateTasks(tasks@),
            },
            res@.map_values(|job: Job| job@) == old(self)@,
            final(self)@ == Seq::<JobView>::empty(),
    {
        let mut res: Vec<Job> = Vec::new();
        std::mem::swap(&mut res, &mut self.jobs);
        proof {
            assert forall|k: int| 0 <= k < res@.len() implies old(self)@[k]
                == #[trigger] res@[k]@ by {}
        }
        assert(self@ =~= Seq::<JobView>::empty());
        res
    }
}

} // verus!

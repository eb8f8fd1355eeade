//! How far the regions of a job have come.

use crate::scheduler::options::JobSchedulerOptions;
use crate::scheduler::JobScheduler;
use crate::state::{
    lemma_same_shape, same_shape, JobDescriptor, JobView, TaskRegionState, TaskState,
};
use crate::topology::TaskTopology;
use vstd::prelude::*;

verus! {

/// Whether a task has failed or been canceled as often as it may be attempted.
pub open spec fn is_exhausted(job: JobView, max_attempts: nat, task: TaskTopology) -> bool {
    let s = task.stage as int;
    let p = task.partition as int;
    match job.latest_state(s, p) {
        Some(TaskState::Failed) | Some(TaskState::Canceled) => job.attempts(s, p).len()
            >= max_attempts,
        _ => false,
    }
}

/// Whether the latest attempt at a task has succeeded.
pub open spec fn has_succeeded(job: JobView, task: TaskTopology) -> bool {
    job.latest_state(task.stage as int, task.partition as int) == Some(TaskState::Succeeded)
}

/// The state of a region, as it follows from its tasks.
pub open spec fn region_state(job: JobView, max_attempts: nat, region: int) -> TaskRegionState {
    let tasks = job.region_tasks(region);
    if exists|i: int|
        0 <= i < tasks.len() && is_exhausted(job, max_attempts, #[trigger] tasks[i]) {
        TaskRegionState::Failed
    } else if forall|i: int| 0 <= i < tasks.len() ==> has_succeeded(job, #[trigger] tasks[i]) {
        TaskRegionState::Succeeded
    } else {
        TaskRegionState::Running
    }
}

/// The job with the states of all regions brought up to date.
pub open spec fn with_region_states(job: JobView, max_attempts: nat) -> JobView {
    JobView {
        regions: Seq::new(job.regions.len(), |r: int| region_state(job, max_attempts, r)),
        ..job
    }
}

impl JobScheduler {
    /// The state of a region, as it follows from its tasks.
    fn find_region_state(job: &JobDescriptor, max_attempts: usize, region: usize) -> (r: TaskRegionState)
        requires
            job@.well_formed(),
            region < job@.regions.len(),
        ensures
            r == region_state(job@, max_attempts as nat, region as int),
    {
        let topology = &job.topology.regions[region];
        let ghost tasks = job@.region_tasks(region as int);
        assert(topology.tasks@ == tasks);
        let mut succeeded = true;
        let mut i: usize = 0;
        while i < topology.tasks.len()
            invariant
                i <= topology.tasks@.len(),
                job@.well_formed(),
                region < job@.regions.len(),
                tasks == job@.region_tasks(region as int),
                topology.tasks@ == tasks,
                forall|k: int|
                    0 <= k < i ==> !is_exhausted(job@, max_attempts as nat, #[trigger] tasks[k]),
                succeeded == forall|k: int|
                    0 <= k < i ==> has_succeeded(job@, #[trigger] tasks[k]),
            decreases topology.tasks@.len() - i,
        {
            let task = topology.tasks[i];
            assert(task == job@.region_tasks(region as int)[i as int]);
            match job.latest_state(task.stage, task.partition) {
                Some(TaskState::Succeeded) => {},
                Some(TaskState::Failed) | Some(TaskState::Canceled) => {
                    if job.num_attempts(task.stage, task.partition) >= max_attempts {
                        assert(is_exhausted(job@, max_attempts as nat, tasks[i as int]));
                        return TaskRegionState::Failed;
                    }
                    assert(!has_succeeded(job@, tasks[i as int]));
                    succeeded = false;
                },
                _ => {
                    assert(!has_succeeded(job@, tasks[i as int]));
                    succeeded = false;
                },
            }
            i = i + 1;
        }
        if succeeded {
            TaskRegionState::Succeeded
        } else {
            TaskRegionState::Running
        }
    }

    /// Brings the states of all regions up to date: a region has failed if one of its tasks is
    /// exhausted, it has succeeded if all its tasks have, and it is running otherwise.
    pub fn update_task_regions(job: &mut JobDescriptor, options: &JobSchedulerOptions)
        requires
            old(job)@.well_formed(),
        ensures
            final(job)@ == with_region_states(old(job)@, options@.task_max_attempts as nat),
            final(job)@.well_formed(),
    {
        let ghost before = job@;
        let ghost max = options@.task_max_attempts as nat;
        let n: usize = job.regions.len();
        let mut i: usize = 0;
        while i < n
            invariant
                i <= n,
                n == before.regions.len(),
                max == options@.task_max_attempts,
                before.well_formed(),
                job@.well_formed(),
                job@ == (JobView {
                    regions: Seq::new(
                        n as nat,
                        |r: int|
                            if r < i {
                                region_state(before, max, r)
                            } else {
                                before.regions[r]
                            },
                    ),
                    ..before
                }),
            decreases n - i,
        {
            let state = Self::find_region_state(job, options.task_max_attempts(), i);
            proof {
                assert(job@.region_tasks(i as int) == before.region_tasks(i as int));
                assert forall|t: TaskTopology|
                    #![trigger is_exhausted(job@, max, t)]
                    #![trigger has_succeeded(job@, t)]
                    is_exhausted(job@, max, t) == is_exhausted(before, max, t) && has_succeeded(
                        job@,
                        t,
                    ) == has_succeeded(before, t) by {}
                assert(region_state(job@, max, i as int) == region_state(before, max, i as int));
            }
            job.set_region_state(i, state);
            i = i + 1;
            proof {
                let expected = Seq::new(
                    n as nat,
                    |r: int|
                        if r < i {
                            region_state(before, max, r)
                        } else {
                            before.regions[r]
                        },
                );
                assert(job@.regions =~= expected);
                assert(same_shape(before, job@));
                lemma_same_shape(before, job@);
            }
        }
        assert(job@.regions =~= with_region_states(before, max).regions);
    }
}

}

//! Scheduling the regions whose dependencies have succeeded.

use crate::action::{lemma_views_push, views, ActionView, JobAction};
use crate::clock::Timestamp;
use crate::id::JobId;
use crate::scheduler::adapt::{
    adapted_region, adapted_stages, all_tasks, lemma_adapted_region, lemma_region_stages,
};
use crate::scheduler::cancel::is_listed;
use crate::scheduler::limits::lemma_all_tasks_once;
use crate::scheduler::options::{JobSchedulerOptions, SchedulerOptionsView};
use crate::scheduler::region::{region_sets, task_stages};
use crate::scheduler::regroup::lemma_only_stages_changed;
use crate::scheduler::JobScheduler;
use crate::measurements::Measurements;
use crate::state::{
    lemma_same_shape, new_attempt, same_shape, JobDescriptor, JobView, TaskRegionState,
};
use crate::topology::TaskTopology;
use vstd::prelude::*;

verus! {

/// Whether all regions that a region depends on have succeeded.
pub open spec fn dependencies_succeeded(job: JobView, region: int) -> bool {
    forall|i: int|
        0 <= i < job.topology.regions[region].dependencies.len() ==> job.regions[(
        #[trigger] job.topology.regions[region].dependencies[i]) as int] is Succeeded
}

/// Whether the latest attempt at a task has not stopped yet.
pub open spec fn is_live(job: JobView, task: TaskTopology) -> bool {
    match job.latest_state(task.stage as int, task.partition as int) {
        Some(state) => !state.terminal(),
        None => false,
    }
}

/// Whether a region is to be scheduled: it has not succeeded, its dependencies have, and none of
/// its tasks is live.
pub open spec fn is_ready(job: JobView, region: int) -> bool {
    &&& !(job.regions[region] is Succeeded)
    &&& dependencies_succeeded(job, region)
    &&& forall|i: int|
        0 <= i < job.region_tasks(region).len() ==> !is_live(
            job,
            #[trigger] job.region_tasks(region)[i],
        )
}

/// The job with a new attempt at each of some tasks.
pub open spec fn with_new_attempts(job: JobView, tasks: Seq<TaskTopology>, now: Timestamp) -> JobView
    decreases tasks.len(),
{
    if tasks.len() == 0 {
        job
    } else {
        let before = with_new_attempts(job, tasks.drop_last(), now);
        let s = tasks.last().stage as int;
        let p = tasks.last().partition as int;
        before.with_attempts(s, p, before.attempts(s, p).push(new_attempt(now)))
    }
}

/// The job in which a region that is about to be scheduled has the tasks that it will have.
pub open spec fn adapted_if_enabled(
    options: SchedulerOptionsView,
    data: &Measurements,
    job_id: JobId,
    job: JobView,
    region: int,
) -> JobView {
    if options.adaptive_enabled {
        adapted_region(options.target_partition_size, data, job_id, job, region)
    } else {
        job
    }
}

/// The job in which a region is about to be scheduled.
pub open spec fn prepared_region(
    options: SchedulerOptionsView,
    data: &Measurements,
    job_id: JobId,
    job: JobView,
    region: int,
    now: Timestamp,
) -> JobView {
    let adapted = adapted_if_enabled(options, data, job_id, job, region);
    with_new_attempts(adapted, adapted.region_tasks(region), now)
}

/// The job and the actions once each of the first `n` regions has been scheduled if it is ready.
pub open spec fn scheduled_regions(
    options: SchedulerOptionsView,
    data: &Measurements,
    job_id: JobId,
    job: JobView,
    n: nat,
    now: Timestamp,
) -> (JobView, Seq<ActionView>)
    decreases n,
{
    if n == 0 {
        (job, Seq::empty())
    } else {
        let r = n - 1;
        let before = scheduled_regions(options, data, job_id, job, r as nat, now);
        if is_ready(before.0, r) {
            let after = prepared_region(options, data, job_id, before.0, r, now);
            (
                after,
                before.1.push(
                    ActionView::ScheduleTaskRegion {
                        region: region_sets(job_id, after, after.region_tasks(r)),
                    },
                ),
            )
        } else {
            before
        }
    }
}

/// Whether it can be found out whether a region is to be scheduled: if it has not succeeded and its
/// dependencies have, its tasks exist up to the first one that is live.
pub open spec fn can_examine(job: JobView, region: int) -> bool {
    !(job.regions[region] is Succeeded) && dependencies_succeeded(job, region) ==> forall|i: int|
        0 <= i < job.region_tasks(region).len() && none_live_before(job, region, i)
            ==> job.has_task(
            (#[trigger] job.region_tasks(region)[i]).stage as int,
            job.region_tasks(region)[i].partition as int,
        )
}

/// Whether none of the first `n` tasks of a region is live.
pub open spec fn none_live_before(job: JobView, region: int, n: int) -> bool {
    forall|i: int|
        0 <= i < n ==> !is_live(job, #[trigger] job.region_tasks(region)[i])
}

/// Whether the tasks that a region will have can be put into task sets: each of them is one of the
/// output partitions of the plan of its stage.
pub open spec fn can_place(
    options: SchedulerOptionsView,
    data: &Measurements,
    job_id: JobId,
    job: JobView,
    region: int,
) -> bool {
    let adapted = adapted_if_enabled(options, data, job_id, job, region);
    forall|i: int|
        0 <= i < adapted.region_tasks(region).len() ==> {
            let t = #[trigger] adapted.region_tasks(region)[i];
            t.partition < adapted.graph.stages[t.stage as int].plan.partitions
        }
}

/// Whether each of the first `n` regions can be scheduled if it is ready, one after the other.
pub open spec fn can_schedule(
    options: SchedulerOptionsView,
    data: &Measurements,
    job_id: JobId,
    job: JobView,
    n: nat,
    now: Timestamp,
) -> bool
    decreases n,
{
    if n == 0 {
        true
    } else {
        let r = n - 1;
        let before = scheduled_regions(options, data, job_id, job, r as nat, now).0;
        &&& can_schedule(options, data, job_id, job, r as nat, now)
        &&& can_examine(before, r)
        &&& is_ready(before, r) ==> can_place(options, data, job_id, before, r)
    }
}

/// All tasks of a region that is ready exist, if that can be found out.
pub proof fn lemma_ready_exists(job: JobView, region: int)
    requires
        can_examine(job, region),
        is_ready(job, region),
    ensures
        job.tasks_exist(region),
{
    assert forall|i: int| 0 <= i < job.region_tasks(region).len() implies job.has_task(
        (#[trigger] job.region_tasks(region)[i]).stage as int,
        job.region_tasks(region)[i].partition as int,
    ) by {
        assert(none_live_before(job, region, i));
    }
}

/// New attempts keep the shape of a job.
pub proof fn lemma_new_attempts(job: JobView, tasks: Seq<TaskTopology>, now: Timestamp)
    requires
        job.linked(),
        forall|i: int|
            0 <= i < tasks.len() ==> job.has_task(
                (#[trigger] tasks[i]).stage as int,
                tasks[i].partition as int,
            ),
    ensures
        same_shape(job, with_new_attempts(job, tasks, now)),
        with_new_attempts(job, tasks, now).linked(),
        job.sound() ==> with_new_attempts(job, tasks, now).sound(),
        job.well_formed() ==> with_new_attempts(job, tasks, now).well_formed(),
    decreases tasks.len(),
{
    if tasks.len() > 0 {
        let rest = tasks.drop_last();
        assert forall|i: int| 0 <= i < rest.len() implies job.has_task(
            (#[trigger] rest[i]).stage as int,
            rest[i].partition as int,
        ) by {
            assert(rest[i] == tasks[i]);
        }
        lemma_new_attempts(job, rest, now);
        assert(job.has_task(
            tasks[tasks.len() - 1].stage as int,
            tasks[tasks.len() - 1].partition as int,
        ));
        lemma_new_attempts_keep(job, rest, now);
    }
    lemma_new_attempts_keep(job, tasks, now);
    lemma_same_shape(job, with_new_attempts(job, tasks, now));
}

/// New attempts change nothing but the stages.
pub proof fn lemma_new_attempts_keep(job: JobView, tasks: Seq<TaskTopology>, now: Timestamp)
    ensures
        ({
            let after = with_new_attempts(job, tasks, now);
            after == (JobView { stages: after.stages, ..job })
        }),
    decreases tasks.len(),
{
    if tasks.len() > 0 {
        lemma_new_attempts_keep(job, tasks.drop_last(), now);
    }
}

/// Having stages read their inputs in groups of channels changes nothing but the stages.
proof fn lemma_adapted_keeps(
    target: u64,
    data: &Measurements,
    job_id: JobId,
    job: JobView,
    stages: Seq<usize>,
)
    ensures
        ({
            let after = adapted_stages(target, data, job_id, job, stages);
            &&& after.topology == job.topology
            &&& after.regions == job.regions
            &&& after.state == job.state
            &&& after.created_at == job.created_at
            &&& after.stopped_at == job.stopped_at
        }),
    decreases stages.len(),
{
    if stages.len() > 0 {
        lemma_adapted_keeps(target, data, job_id, job, stages.drop_last());
    }
}

/// Preparing a region keeps the states of the regions and of the job, and what the regions depend on.
pub proof fn lemma_prepared_keeps(
    options: SchedulerOptionsView,
    data: &Measurements,
    job_id: JobId,
    job: JobView,
    region: int,
    now: Timestamp,
)
    requires
        0 <= region < job.topology.regions.len(),
    ensures
        ({
            let after = prepared_region(options, data, job_id, job, region, now);
            &&& after.regions == job.regions
            &&& after.state == job.state
            &&& after.created_at == job.created_at
            &&& after.stopped_at == job.stopped_at
            &&& after.topology.regions.len() == job.topology.regions.len()
            &&& forall|r: int|
                0 <= r < job.topology.regions.len() ==> (
                #[trigger] after.topology.regions[r]).dependencies
                    == job.topology.regions[r].dependencies
        }),
{
    let adapted = adapted_if_enabled(options, data, job_id, job, region);
    lemma_adapted_keeps(
        options.target_partition_size,
        data,
        job_id,
        job,
        task_stages(job.region_tasks(region)),
    );
    lemma_new_attempts_keep(adapted, adapted.region_tasks(region), now);
}

/// Scheduling keeps the states of the regions and of the job, and what the regions depend on.
pub proof fn lemma_scheduled_keeps(
    options: SchedulerOptionsView,
    data: &Measurements,
    job_id: JobId,
    job: JobView,
    n: nat,
    now: Timestamp,
)
    requires
        n <= job.topology.regions.len(),
    ensures
        ({
            let after = scheduled_regions(options, data, job_id, job, n, now).0;
            &&& after.regions == job.regions
            &&& after.state == job.state
            &&& after.created_at == job.created_at
            &&& after.stopped_at == job.stopped_at
            &&& after.topology.regions.len() == job.topology.regions.len()
            &&& forall|r: int|
                0 <= r < job.topology.regions.len() ==> (
                #[trigger] after.topology.regions[r]).dependencies
                    == job.topology.regions[r].dependencies
        }),
    decreases n,
{
    if n > 0 {
        lemma_scheduled_keeps(options, data, job_id, job, (n - 1) as nat, now);
        let before = scheduled_regions(options, data, job_id, job, (n - 1) as nat, now).0;
        let after = scheduled_regions(options, data, job_id, job, n, now).0;
        if is_ready(before, n - 1) {
            lemma_prepared_keeps(options, data, job_id, before, n - 1, now);
            assert forall|r: int| 0 <= r < job.topology.regions.len() implies (
            #[trigger] after.topology.regions[r]).dependencies
                == job.topology.regions[r].dependencies by {
                assert(before.topology.regions[r].dependencies
                    == job.topology.regions[r].dependencies);
            }
        }
    }
}

/// Scheduling keeps the parts of a job together, as long as it can be done.
pub proof fn lemma_scheduled_regions(
    options: SchedulerOptionsView,
    data: &Measurements,
    job_id: JobId,
    job: JobView,
    n: nat,
    now: Timestamp,
)
    requires
        job.sound(),
        n <= job.regions.len(),
        can_schedule(options, data, job_id, job, n, now),
    ensures
        scheduled_regions(options, data, job_id, job, n, now).0.sound(),
        scheduled_regions(options, data, job_id, job, n, now).0.regions == job.regions,
    decreases n,
{
    lemma_scheduled_keeps(options, data, job_id, job, n, now);
    if n > 0 {
        lemma_scheduled_regions(options, data, job_id, job, (n - 1) as nat, now);
        let before = scheduled_regions(options, data, job_id, job, (n - 1) as nat, now).0;
        if is_ready(before, n - 1) {
            lemma_ready_exists(before, n - 1);
            lemma_prepared_region(options, data, job_id, before, n - 1, now);
        }
    }
}

/// The tasks that a region will have exist, and the parts of the job stay together.
pub proof fn lemma_adapted_if_enabled(
    options: SchedulerOptionsView,
    data: &Measurements,
    job_id: JobId,
    job: JobView,
    region: int,
)
    requires
        job.linked(),
        0 <= region < job.regions.len(),
        job.tasks_exist(region),
    ensures
        ({
            let adapted = adapted_if_enabled(options, data, job_id, job, region);
            let tasks = adapted.region_tasks(region);
            &&& adapted.linked()
            &&& adapted.regions == job.regions
            &&& adapted.tasks_exist(region)
            &&& forall|i: int|
                0 <= i < tasks.len() ==> adapted.has_task(
                    (#[trigger] tasks[i]).stage as int,
                    tasks[i].partition as int,
                )
            &&& job.sound() && can_place(options, data, job_id, job, region) ==> adapted.sound()
        }),
{
    let target = options.target_partition_size;
    let adapted = adapted_if_enabled(options, data, job_id, job, region);
    let tasks = adapted.region_tasks(region);
    lemma_adapted_region(target, data, job_id, job, region);
    lemma_adapted_keeps(target, data, job_id, job, task_stages(job.region_tasks(region)));
    assert forall|i: int| 0 <= i < tasks.len() implies adapted.has_task(
        (#[trigger] tasks[i]).stage as int,
        tasks[i].partition as int,
    ) by {
        assert(tasks[i] == adapted.region_tasks(region)[i]);
    }
    if options.adaptive_enabled && job.sound() && can_place(options, data, job_id, job, region) {
        let stages = task_stages(job.region_tasks(region));
        let middle = adapted_stages(target, data, job_id, job, stages);
        lemma_region_stages(job, region);
        lemma_all_tasks_once(middle, stages);
        lemma_only_stages_changed(target, data, job_id, job, stages);
        assert forall|s: int| 0 <= s < adapted.stages.len() implies (
        #[trigger] adapted.stages[s]).tasks.len()
            <= adapted.graph.stages[s].plan.partitions by {
            let n = adapted.stages[s].tasks.len();
            if exists|k: int| 0 <= k < stages.len() && #[trigger] stages[k] == s {
                let k = choose|k: int| 0 <= k < stages.len() && #[trigger] stages[k] == s;
                if n > 0 {
                    assert(stages.contains(stages[k]));
                    assert(middle.has_task(s, n - 1));
                    assert(is_listed(all_tasks(middle, stages), s, n - 1));
                    let i = choose|i: int|
                        0 <= i < tasks.len() && (#[trigger] tasks[i]).stage == s
                            && tasks[i].partition == n - 1;
                    assert(adapted.region_tasks(region)[i] == tasks[i]);
                }
            } else {
                assert(middle.stages[s] == job.stages[s]);
                assert(middle.graph.stages[s] == job.graph.stages[s]);
                assert(job.stages[s].tasks.len() <= job.graph.stages[s].plan.partitions);
            }
        }
    }
}

/// Preparing a region keeps the parts of a job together, if its tasks exist and can be put into task
/// sets.
pub proof fn lemma_prepared_region(
    options: SchedulerOptionsView,
    data: &Measurements,
    job_id: JobId,
    job: JobView,
    region: int,
    now: Timestamp,
)
    requires
        job.sound(),
        0 <= region < job.regions.len(),
        job.tasks_exist(region),
        can_place(options, data, job_id, job, region),
    ensures
        ({
            let after = prepared_region(options, data, job_id, job, region, now);
            &&& after.sound()
            &&& after.tasks_exist(region)
            &&& after.regions == job.regions
        }),
{
    lemma_adapted_if_enabled(options, data, job_id, job, region);
    lemma_prepared_keeps(options, data, job_id, job, region, now);
    let adapted = adapted_if_enabled(options, data, job_id, job, region);
    let after = prepared_region(options, data, job_id, job, region, now);
    lemma_new_attempts(adapted, adapted.region_tasks(region), now);
    lemma_same_shape(adapted, after);
}

impl JobScheduler {
    /// Whether a region is to be scheduled, or nothing if that cannot be found out.
    fn find_readiness(job: &JobDescriptor, region: usize) -> (r: Option<bool>)
        requires
            job@.linked(),
            region < job@.regions.len(),
        ensures
            match r {
                Some(ready) => can_examine(job@, region as int) && ready == is_ready(
                    job@,
                    region as int,
                ),
                None => !can_examine(job@, region as int),
            },
    {
        match job.regions[region].state {
            TaskRegionState::Succeeded => {
                return Some(false);
            },
            _ => {},
        }
        let topology = &job.topology.regions[region];
        assert(job@.topology.regions[region as int] == topology@);
        let mut d: usize = 0;
        while d < topology.dependencies.len()
            invariant
                job@.linked(),
                region < job@.regions.len(),
                job@.topology.regions[region as int] == topology@,
                d <= topology.dependencies@.len(),
                forall|i: int|
                    0 <= i < d ==> job@.regions[(
                    #[trigger] job@.topology.regions[region as int].dependencies[i]) as int] is Succeeded,
            decreases topology.dependencies@.len() - d,
        {
            let dependency: usize = topology.dependencies[d];
            assert(job@.topology.regions[region as int].dependencies[d as int]
                < job@.regions.len());
            match job.regions[dependency].state {
                TaskRegionState::Succeeded => {},
                _ => {
                    return Some(false);
                },
            }
            d = d + 1;
        }
        let mut t: usize = 0;
        while t < topology.tasks.len()
            invariant
                job@.topology.regions[region as int] == topology@,
                t <= topology.tasks@.len(),
                !(job@.regions[region as int] is Succeeded),
                dependencies_succeeded(job@, region as int),
                none_live_before(job@, region as int, t as int),
                forall|i: int|
                    0 <= i < t ==> job@.has_task(
                        (#[trigger] job@.region_tasks(region as int)[i]).stage as int,
                        job@.region_tasks(region as int)[i].partition as int,
                    ),
            decreases topology.tasks@.len() - t,
        {
            let task = topology.tasks[t];
            assert(task == job@.region_tasks(region as int)[t as int]);
            if !job.contains_task(task.stage, task.partition) {
                return None;
            }
            if let Some(state) = job.latest_state(task.stage, task.partition) {
                if !state.is_terminal() {
                    assert(is_live(job@, job@.region_tasks(region as int)[t as int]));
                    assert forall|i: int|
                        0 <= i < job@.region_tasks(region as int).len() && none_live_before(
                            job@,
                            region as int,
                            i,
                        ) implies job@.has_task(
                        (#[trigger] job@.region_tasks(region as int)[i]).stage as int,
                        job@.region_tasks(region as int)[i].partition as int,
                    ) by {
                        if i > t {
                            assert(!is_live(job@, job@.region_tasks(region as int)[t as int]));
                        }
                    }
                    return Some(false);
                }
            }
            t = t + 1;
        }
        Some(true)
    }

    /// Whether the tasks of a region are output partitions of the plans of their stages.
    fn check_places(job: &JobDescriptor, region: usize) -> (r: bool)
        requires
            job@.linked(),
            region < job@.regions.len(),
        ensures
            r == forall|i: int|
                0 <= i < job@.region_tasks(region as int).len() ==> {
                    let t = #[trigger] job@.region_tasks(region as int)[i];
                    t.partition < job@.graph.stages[t.stage as int].plan.partitions
                },
    {
        let tasks = &job.topology.regions[region].tasks;
        assert(tasks@ == job@.region_tasks(region as int));
        let mut i: usize = 0;
        while i < tasks.len()
            invariant
                i <= tasks@.len(),
                job@.linked(),
                region < job@.regions.len(),
                tasks@ == job@.region_tasks(region as int),
                forall|k: int|
                    0 <= k < i ==> {
                        let t = #[trigger] job@.region_tasks(region as int)[k];
                        t.partition < job@.graph.stages[t.stage as int].plan.partitions
                    },
            decreases tasks@.len() - i,
        {
            let task = tasks[i];
            assert(task == job@.region_tasks(region as int)[i as int]);
            if task.partition >= job.graph.stages[task.stage].plan.partitions {
                return false;
            }
            i = i + 1;
        }
        true
    }

    /// Adds a new attempt to every task of a region.
    fn create_attempts(job: &mut JobDescriptor, region: usize, now: Timestamp)
        requires
            old(job)@.linked(),
            region < old(job)@.regions.len(),
            old(job)@.tasks_exist(region as int),
        ensures
            final(job)@ == with_new_attempts(
                old(job)@,
                old(job)@.region_tasks(region as int),
                now,
            ),
    {
        let ghost before = job@;
        let ghost tasks = job@.region_tasks(region as int);
        let n: usize = job.topology.regions[region].tasks.len();
        let mut t: usize = 0;
        assert(tasks.take(0).len() == 0);
        while t < n
            invariant
                t <= n,
                before.linked(),
                before.tasks_exist(region as int),
                region < before.regions.len(),
                tasks == before.region_tasks(region as int),
                n == tasks.len(),
                job@ == with_new_attempts(before, tasks.take(t as int), now),
                same_shape(before, job@),
            decreases n - t,
        {
            let task = job.topology.regions[region].tasks[t];
            proof {
                assert(job@.topology.regions[region as int].tasks == tasks);
                assert(task == tasks[t as int]);
                assert(task == before.region_tasks(region as int)[t as int]);
                assert(job@.stages[task.stage as int].tasks.len()
                    == before.stages[task.stage as int].tasks.len());
                assert(tasks.take(t + 1).drop_last() =~= tasks.take(t as int));
                assert(tasks.take(t + 1).last() == task);
            }
            job.push_attempt(task.stage, task.partition, now);
            t = t + 1;
        }
        assert(tasks.take(n as int) =~= tasks);
    }

    /// Schedules a region if it is ready and that can be done, and adds the action to a list. Tells
    /// whether it could be done.
    fn try_schedule_region(
        options: &JobSchedulerOptions,
        data: &Measurements,
        job_id: JobId,
        job: &mut JobDescriptor,
        region: usize,
        now: Timestamp,
        actions: &mut Vec<JobAction>,
    ) -> (r: bool)
        requires
            old(job)@.sound(),
            region < old(job)@.regions.len(),
        ensures
            r == (can_examine(old(job)@, region as int) && (is_ready(old(job)@, region as int)
                ==> can_place(options@, data, job_id, old(job)@, region as int))),
            r && !is_ready(old(job)@, region as int) ==> final(job)@ == old(job)@ && final(actions)@
                == old(actions)@,
            r && is_ready(old(job)@, region as int) ==> {
                let after = prepared_region(
                    options@,
                    data,
                    job_id,
                    old(job)@,
                    region as int,
                    now,
                );
                &&& final(job)@ == after
                &&& after.sound()
                &&& after.regions == old(job)@.regions
                &&& views(final(actions)@) == views(old(actions)@).push(
                    ActionView::ScheduleTaskRegion {
                        region: region_sets(job_id, after, after.region_tasks(region as int)),
                    },
                )
            },
    {
        let ghost before = job@;
        match Self::find_readiness(job, region) {
            None => {
                return false;
            },
            Some(ready) => {
                if !ready {
                    return true;
                }
            },
        }
        proof {
            lemma_ready_exists(before, region as int);
            lemma_adapted_if_enabled(options@, data, job_id, before, region as int);
        }
        if options.adaptive_enabled() {
            Self::optimize_region_adaptively(options, data, job_id, job, region);
        }
        assert(job@ == adapted_if_enabled(options@, data, job_id, before, region as int));
        if !Self::check_places(job, region) {
            return false;
        }
        proof {
            lemma_prepared_region(options@, data, job_id, before, region as int, now);
        }
        Self::create_attempts(job, region, now);
        let topology = &job.topology.regions[region];
        proof {
            assert(topology@.tasks == job@.region_tasks(region as int));
            assert forall|k: int| 0 <= k < topology@.tasks.len() implies job@.has_task(
                (#[trigger] topology@.tasks[k]).stage as int,
                topology@.tasks[k].partition as int,
            ) by {
                assert(topology@.tasks[k] == job@.region_tasks(region as int)[k]);
            }
        }
        let task_region = Self::build_task_region(job_id, job, topology);
        let ghost list = actions@;
        actions.push(JobAction::ScheduleTaskRegion { region: task_region });
        proof {
            lemma_views_push(list, JobAction::ScheduleTaskRegion { region: task_region });
        }
        true
    }

    /// Schedules every region that has not succeeded, whose dependencies have, and none of whose
    /// tasks is live, as long as that can be done. If it cannot, nothing is returned.
    pub fn try_schedule_task_regions(
        options: &JobSchedulerOptions,
        data: &Measurements,
        job_id: JobId,
        job: &mut JobDescriptor,
        now: Timestamp,
    ) -> (r: Option<Vec<JobAction>>)
        requires
            old(job)@.sound(),
        ensures
            r is Some <==> can_schedule(
                options@,
                data,
                job_id,
                old(job)@,
                old(job)@.regions.len(),
                now,
            ),
            r is Some ==> (final(job)@, views(r->0@)) == scheduled_regions(
                options@,
                data,
                job_id,
                old(job)@,
                old(job)@.regions.len(),
                now,
            ),
    {
        let ghost before = job@;
        let n: usize = job.regions.len();
        let mut actions: Vec<JobAction> = Vec::new();
        let mut i: usize = 0;
        proof {
            assert(views(actions@) =~= Seq::empty());
            reveal(has_come_to);
        }
        while i < n
            invariant
                i <= n,
                before == old(job)@,
                n == before.regions.len(),
                job@.sound(),
                job@.regions.len() == n,
                has_come_to(
                    options@,
                    data,
                    job_id,
                    before,
                    i as nat,
                    now,
                    job@,
                    views(actions@),
                ),
            decreases n - i,
        {
            let ghost current = job@;
            let ghost list = views(actions@);
            let done = Self::try_schedule_region(
                options,
                data,
                job_id,
                job,
                i,
                now,
                &mut actions,
            );
            proof {
                lemma_schedule_step(
                    options@,
                    data,
                    job_id,
                    before,
                    i as nat,
                    now,
                    current,
                    list,
                    done,
                    job@,
                    views(actions@),
                );
            }
            if !done {
                proof {
                    lemma_cannot_schedule(
                        options@,
                        data,
                        job_id,
                        before,
                        (i + 1) as nat,
                        n as nat,
                        now,
                    );
                }
                return None;
            }
            i = i + 1;
        }
        proof {
            reveal(has_come_to);
        }
        Some(actions)
    }

    /// Schedules every region that has not succeeded, whose dependencies have, and none of whose
    /// tasks is live: every task gets a new attempt, and the attempts are scheduled together.
    pub fn schedule_task_regions(
        options: &JobSchedulerOptions,
        data: &Measurements,
        job_id: JobId,
        job: &mut JobDescriptor,
        now: Timestamp,
    ) -> (r: Vec<JobAction>)
        requires
            old(job)@.sound(),
            can_schedule(options@, data, job_id, old(job)@, old(job)@.regions.len(), now),
        ensures
            (final(job)@, views(r@)) == scheduled_regions(
                options@,
                data,
                job_id,
                old(job)@,
                old(job)@.regions.len(),
                now,
            ),
            final(job)@.sound(),
    {
        proof {
            lemma_scheduled_regions(options@, data, job_id, job@, job@.regions.len(), now);
        }
        match Self::try_schedule_task_regions(options, data, job_id, job, now) {
            Some(actions) => actions,
            None => Vec::new(),
        }
    }
}

/// Whether the first `n` regions can be scheduled, and that leads to a state of the job and to actions.
#[verifier::opaque]
spec fn has_come_to(
    options: SchedulerOptionsView,
    data: &Measurements,
    job_id: JobId,
    before: JobView,
    n: nat,
    now: Timestamp,
    job: JobView,
    actions: Seq<ActionView>,
) -> bool {
    &&& can_schedule(options, data, job_id, before, n, now)
    &&& (job, actions) == scheduled_regions(options, data, job_id, before, n, now)
}

/// What it takes to schedule one region more.
proof fn lemma_schedule_step(
    options: SchedulerOptionsView,
    data: &Measurements,
    job_id: JobId,
    before: JobView,
    n: nat,
    now: Timestamp,
    job: JobView,
    actions: Seq<ActionView>,
    done: bool,
    after: JobView,
    more: Seq<ActionView>,
)
    requires
        has_come_to(options, data, job_id, before, n, now, job, actions),
        done == (can_examine(job, n as int) && (is_ready(job, n as int) ==> can_place(
            options,
            data,
            job_id,
            job,
            n as int,
        ))),
        done && !is_ready(job, n as int) ==> after == job && more == actions,
        done && is_ready(job, n as int) ==> after == prepared_region(
            options,
            data,
            job_id,
            job,
            n as int,
            now,
        ) && more == actions.push(
            ActionView::ScheduleTaskRegion {
                region: region_sets(job_id, after, after.region_tasks(n as int)),
            },
        ),
    ensures
        done ==> has_come_to(options, data, job_id, before, n + 1, now, after, more),
        !done ==> !can_schedule(options, data, job_id, before, n + 1, now),
{
    reveal(has_come_to);
}

/// If some of the first regions cannot be scheduled, not all can.
proof fn lemma_cannot_schedule(
    options: SchedulerOptionsView,
    data: &Measurements,
    job_id: JobId,
    job: JobView,
    m: nat,
    n: nat,
    now: Timestamp,
)
    requires
        m <= n,
        !can_schedule(options, data, job_id, job, m, now),
    ensures
        !can_schedule(options, data, job_id, job, n, now),
    decreases n,
{
    if m < n {
        lemma_cannot_schedule(options, data, job_id, job, m, (n - 1) as nat, now);
    }
}

}

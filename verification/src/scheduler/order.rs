//! The order in which the regions of a job run.

use crate::clock::Timestamp;
use crate::id::JobId;
use crate::job::new_job;
use crate::job_graph::JobGraphView;
use crate::scheduler::cancel::{canceled_regions, lemma_canceled_regions};
use crate::scheduler::laws::{lemma_refresh_outcome, lemma_settled_regions};
use crate::scheduler::lifecycle::{
    all_regions_succeeded, any_region_failed, can_refresh, cleaned_job, lemma_settled_shape,
    refreshed_job, reported_job, settled_job, stopped_job,
};
use crate::scheduler::limits::{
    attempt_count, lemma_apart_kept, lemma_scheduled_apart, lemma_settled_counts, same_counts,
    tasks_apart,
};
use crate::scheduler::options::SchedulerOptionsView;
use crate::scheduler::output::extended_output;
use crate::scheduler::progress::{has_succeeded, is_exhausted, region_state};
use crate::scheduler::schedule::{
    can_schedule, is_ready, lemma_scheduled_keeps, scheduled_regions,
};
use crate::scheduler::stability::{created_or_kept, lemma_scheduled_or_kept, region_kept};
use crate::measurements::Measurements;
use crate::state::{same_shape, ErrorCause, JobState, JobView, TaskState};
use crate::topology::JobTopologyView;
use vstd::prelude::*;

verus! {

/// Whether some task of a region has been attempted.
pub open spec fn is_started(job: JobView, region: int) -> bool {
    exists|i: int|
        0 <= i < job.region_tasks(region).len() && attempt_count(
            job,
            #[trigger] job.region_tasks(region)[i],
        ) > 0
}

/// Whether all tasks of a region have succeeded.
pub open spec fn is_done(job: JobView, region: int) -> bool {
    forall|i: int|
        0 <= i < job.region_tasks(region).len() ==> has_succeeded(
            job,
            #[trigger] job.region_tasks(region)[i],
        )
}

/// Whether no region has been started before all regions that it depends on were done.
pub open spec fn in_order(job: JobView) -> bool {
    forall|r: int, i: int|
        0 <= r < job.regions.len() && 0 <= i < job.topology.regions[r].dependencies.len()
            && is_started(job, r) ==> is_done(
            job,
            (#[trigger] job.topology.regions[r].dependencies[i]) as int,
        )
}

/// Whether every task that has succeeded in one state of a job has so in another.
pub open spec fn successes_kept(a: JobView, b: JobView) -> bool {
    forall|s: int, p: int|
        a.has_task(s, p) && a.latest_state(s, p) == Some(TaskState::Succeeded)
            ==> #[trigger] b.latest_state(s, p) == Some(TaskState::Succeeded)
}

/// What keeps the number of attempts and the successes keeps the order.
proof fn lemma_order_kept(a: JobView, b: JobView)
    requires
        a.well_formed(),
        same_shape(a, b),
        same_counts(a, b),
        successes_kept(a, b),
        in_order(a),
    ensures
        in_order(b),
{
    assert forall|r: int, i: int|
        0 <= r < b.regions.len() && 0 <= i < b.topology.regions[r].dependencies.len()
            && is_started(b, r) implies is_done(
        b,
        (#[trigger] b.topology.regions[r].dependencies[i]) as int,
    ) by {
        let d = a.topology.regions[r].dependencies[i] as int;
        let k = choose|k: int|
            0 <= k < b.region_tasks(r).len() && attempt_count(b, #[trigger] b.region_tasks(r)[k])
                > 0;
        let t = a.region_tasks(r)[k];
        assert(b.region_tasks(r)[k] == t);
        assert(a.has_task(t.stage as int, t.partition as int));
        assert(b.attempts(t.stage as int, t.partition as int).len() == a.attempts(
            t.stage as int,
            t.partition as int,
        ).len());
        assert(attempt_count(a, a.region_tasks(r)[k]) > 0);
        assert(is_done(a, d));
        lemma_done_kept(a, b, d);
    }
}

/// What keeps the successes keeps a region done.
proof fn lemma_done_kept(a: JobView, b: JobView, region: int)
    requires
        a.well_formed(),
        same_shape(a, b),
        successes_kept(a, b),
        0 <= region < a.regions.len(),
        is_done(a, region),
    ensures
        is_done(b, region),
{
    assert forall|i: int| 0 <= i < b.region_tasks(region).len() implies has_succeeded(
        b,
        #[trigger] b.region_tasks(region)[i],
    ) by {
        let t = a.region_tasks(region)[i];
        assert(b.region_tasks(region)[i] == t);
        assert(a.has_task(t.stage as int, t.partition as int));
        assert(has_succeeded(a, a.region_tasks(region)[i]));
        assert(b.latest_state(t.stage as int, t.partition as int) == Some(TaskState::Succeeded));
    }
}

/// Dealing with what tasks have reported keeps the successes.
proof fn lemma_settled_successes(max_attempts: nat, job_id: JobId, job: JobView, now: Timestamp)
    requires
        job.well_formed(),
    ensures
        successes_kept(job, settled_job(max_attempts, job_id, job, now).0),
{
    let n = job.regions.len();
    let canceled = canceled_regions(job_id, job, n, now).0;
    let extended = extended_output(job_id, canceled).0;
    let settled = settled_job(max_attempts, job_id, job, now).0;
    lemma_settled_shape(max_attempts, job_id, job, now);
    lemma_canceled_regions(job_id, job, n, now);
    assert forall|s: int, p: int|
        job.has_task(s, p) && job.latest_state(s, p) == Some(
            TaskState::Succeeded,
        ) implies #[trigger] settled.latest_state(s, p) == Some(TaskState::Succeeded) by {
        assert(canceled.stages[s].tasks.len() == job.stages[s].tasks.len());
        assert(extended.stages[s].tasks.len() == job.stages[s].tasks.len());
        assert(canceled.latest_state(s, p) == Some(TaskState::Succeeded));
        assert(extended.latest_state(s, p) == Some(TaskState::Succeeded));
        assert(settled.stages[s].tasks == extended.stages[s].tasks);
    }
}

/// Dealing with what tasks have reported keeps a job in order.
pub proof fn lemma_settled_in_order(max_attempts: nat, job_id: JobId, job: JobView, now: Timestamp)
    requires
        job.well_formed(),
        in_order(job),
    ensures
        in_order(settled_job(max_attempts, job_id, job, now).0),
{
    lemma_settled_shape(max_attempts, job_id, job, now);
    lemma_settled_counts(max_attempts, job_id, job, now);
    lemma_settled_successes(max_attempts, job_id, job, now);
    lemma_order_kept(job, settled_job(max_attempts, job_id, job, now).0);
}

/// A region is never started before all regions that it depends on are done. So it is of a job that
/// has just been created.
pub proof fn lemma_new_job_in_order(
    graph: JobGraphView,
    topology: JobTopologyView,
    state: JobState,
    now: Timestamp,
)
    requires
        new_job(graph, topology, state, now).well_formed(),
    ensures
        in_order(new_job(graph, topology, state, now)),
{
    let job = new_job(graph, topology, state, now);
    assert forall|r: int| 0 <= r < job.regions.len() implies !#[trigger] is_started(job, r) by {
        assert forall|i: int| 0 <= i < job.region_tasks(r).len() implies attempt_count(
            job,
            #[trigger] job.region_tasks(r)[i],
        ) == 0 by {
            let t = job.region_tasks(r)[i];
            assert(job.has_task(t.stage as int, t.partition as int));
        }
    }
}

/// A region is never started before all regions that it depends on are done: whatever is reported of
/// the tasks of a job, it stays in order.
pub proof fn lemma_reported_in_order(
    job: JobView,
    stage: int,
    partition: int,
    attempt: int,
    state: TaskState,
    message: Option<String>,
    cause: Option<ErrorCause>,
    now: Timestamp,
)
    requires
        job.well_formed(),
        in_order(job),
    ensures
        in_order(reported_job(job, stage, partition, attempt, state, message, cause, now)),
{
    let after = reported_job(job, stage, partition, attempt, state, message, cause, now);
    assert(same_counts(job, after));
    assert(successes_kept(job, after));
    lemma_order_kept(job, after);
}

/// A region is never started before all regions that it depends on are done: refreshing a job keeps
/// it in order.
pub proof fn lemma_refreshed_in_order(
    options: SchedulerOptionsView,
    data: &Measurements,
    job_id: JobId,
    job: JobView,
    now: Timestamp,
)
    requires
        job.well_formed(),
        can_refresh(options, data, job_id, job, now),
        tasks_apart(options, job),
        in_order(job),
    ensures
        in_order(refreshed_job(options, data, job_id, job, now).0),
{
    let max = options.task_max_attempts as nat;
    let settled = settled_job(max, job_id, job, now).0;
    let after = refreshed_job(options, data, job_id, job, now).0;
    if job.state is Running {
        lemma_settled_shape(max, job_id, job, now);
        lemma_settled_in_order(max, job_id, job, now);
        lemma_apart_kept(options, job, settled);
        lemma_settled_regions(max, job_id, job, now);
        if any_region_failed(settled) || all_regions_succeeded(settled) {
            assert(same_counts(settled, after));
            assert(successes_kept(settled, after));
            lemma_order_kept(settled, after);
        } else {
            lemma_scheduled_in_order(options, data, job_id, settled, now);
        }
    }
}

/// Scheduling the regions that are ready keeps a job in order.
proof fn lemma_scheduled_in_order(
    options: SchedulerOptionsView,
    data: &Measurements,
    job_id: JobId,
    job: JobView,
    now: Timestamp,
)
    requires
        job.well_formed(),
        can_schedule(options, data, job_id, job, job.regions.len(), now),
        tasks_apart(options, job),
        in_order(job),
        forall|r: int|
            0 <= r < job.regions.len() ==> #[trigger] job.regions[r] == region_state(
                job,
                options.task_max_attempts as nat,
                r,
            ),
        !any_region_failed(job),
    ensures
        in_order(scheduled_regions(options, data, job_id, job, job.regions.len(), now).0),
{
    let max = options.task_max_attempts as nat;
    let n = job.regions.len();
    let after = scheduled_regions(options, data, job_id, job, n, now).0;
    lemma_scheduled_or_kept(options, data, job_id, job, n, now);
    lemma_scheduled_apart(options, data, job_id, job, n, now);
    lemma_scheduled_keeps(options, data, job_id, job, n, now);
    assert forall|r: int, i: int|
        0 <= r < after.regions.len() && 0 <= i < after.topology.regions[r].dependencies.len()
            && is_started(after, r) implies is_done(
        after,
        (#[trigger] after.topology.regions[r].dependencies[i]) as int,
    ) by {
        assert(after.topology.regions[r].dependencies == job.topology.regions[r].dependencies);
        let d = job.topology.regions[r].dependencies[i] as int;
        assert(created_or_kept(job, n as int, after, r));
        assert(created_or_kept(job, n as int, after, d));
        if is_ready(job, r) {
            assert(job.regions[d] is Succeeded);
        } else {
            let k = choose|k: int|
                0 <= k < after.region_tasks(r).len() && attempt_count(
                    after,
                    #[trigger] after.region_tasks(r)[k],
                ) > 0;
            assert(job.region_tasks(r)[k] == after.region_tasks(r)[k]);
            assert(attempt_count(job, job.region_tasks(r)[k]) > 0);
            assert(is_done(job, d));
            let tasks = job.region_tasks(d);
            assert forall|j: int| 0 <= j < tasks.len() implies has_succeeded(job, #[trigger] tasks[j])
                && !is_exhausted(job, max, tasks[j]) by {
                assert(has_succeeded(job, job.region_tasks(d)[j]));
            }
            assert(region_state(job, max, d) is Succeeded);
        }
        assert(job.regions[d] is Succeeded);
        assert(job.regions[d] == region_state(job, max, d));
        assert(region_kept(job, after, d));
        assert forall|j: int| 0 <= j < after.region_tasks(d).len() implies has_succeeded(
            after,
            #[trigger] after.region_tasks(d)[j],
        ) by {
            let t = job.region_tasks(d)[j];
            let tasks = job.region_tasks(d);
            assert(after.region_tasks(d)[j] == t);
            assert(has_succeeded(job, tasks[j]));
            assert(job.has_task(t.stage as int, t.partition as int));
            assert(after.has_task(t.stage as int, t.partition as int));
        }
    }
}

/// A region is never started before all regions that it depends on are done: cleaning a job up or
/// stopping it keeps it in order.
pub proof fn lemma_ended_in_order(job: JobView, now: Timestamp)
    requires
        job.well_formed(),
        in_order(job),
    ensures
        in_order(cleaned_job(job, now)),
        in_order(stopped_job(job, now)),
{
    assert(same_counts(job, cleaned_job(job, now)));
    assert(successes_kept(job, cleaned_job(job, now)));
    lemma_order_kept(job, cleaned_job(job, now));
    assert(same_counts(job, stopped_job(job, now)));
    assert(successes_kept(job, stopped_job(job, now)));
    lemma_order_kept(job, stopped_job(job, now));
}

/// Whether some region depends on a region.
pub open spec fn is_needed(job: JobView, region: int) -> bool {
    exists|r: int, i: int|
        0 <= r < job.regions.len() && 0 <= i < job.topology.regions[r].dependencies.len()
            && #[trigger] job.topology.regions[r].dependencies[i] == region
}

/// Whether the regions of a job do not depend on each other in a circle: they can be numbered so that
/// every region has a smaller number than those that it depends on.
pub open spec fn numbered(job: JobView, numbers: Seq<nat>) -> bool {
    &&& numbers.len() == job.regions.len()
    &&& forall|r: int, i: int|
        0 <= r < job.regions.len() && 0 <= i < job.topology.regions[r].dependencies.len()
            ==> numbers[(#[trigger] job.topology.regions[r].dependencies[i]) as int] > numbers[r]
}

/// If the regions that no other depends on are done, all are.
proof fn lemma_needed_done(job: JobView, numbers: Seq<nat>, region: int)
    requires
        job.well_formed(),
        in_order(job),
        numbered(job, numbers),
        forall|r: int| 0 <= r < job.regions.len() ==> (#[trigger] job.region_tasks(r)).len() > 0,
        forall|r: int|
            0 <= r < job.regions.len() && !is_needed(job, r) ==> #[trigger] is_done(job, r),
        0 <= region < job.regions.len(),
    ensures
        is_done(job, region),
    decreases numbers[region],
{
    if is_needed(job, region) {
        let (r, i) = choose|r: int, i: int|
            0 <= r < job.regions.len() && 0 <= i < job.topology.regions[r].dependencies.len()
                && #[trigger] job.topology.regions[r].dependencies[i] == region;
        assert(numbers[job.topology.regions[r].dependencies[i] as int] > numbers[r]);
        lemma_needed_done(job, numbers, r);
        assert(job.region_tasks(r).len() > 0);
        assert(has_succeeded(job, job.region_tasks(r)[0]));
        assert(attempt_count(job, job.region_tasks(r)[0]) > 0);
        assert(is_done(job, job.topology.regions[r].dependencies[i] as int));
    }
}

/// Once the regions at the end of a job, which no other region depends on, are done, so is the job:
/// refreshing it leaves nothing but to read its output. That is so for jobs that are in order, whose
/// regions have tasks and do not depend on each other in a circle.
pub proof fn lemma_last_regions_decide(
    options: SchedulerOptionsView,
    data: &Measurements,
    job_id: JobId,
    job: JobView,
    numbers: Seq<nat>,
    now: Timestamp,
)
    requires
        job.well_formed(),
        job.state is Running,
        in_order(job),
        numbered(job, numbers),
        forall|r: int| 0 <= r < job.regions.len() ==> (#[trigger] job.region_tasks(r)).len() > 0,
        forall|r: int|
            0 <= r < job.regions.len() && !is_needed(job, r) ==> #[trigger] is_done(job, r),
    ensures
        refreshed_job(options, data, job_id, job, now).0.state is Draining,
{
    let max = options.task_max_attempts as nat;
    let settled = settled_job(max, job_id, job, now).0;
    lemma_settled_shape(max, job_id, job, now);
    lemma_settled_successes(max, job_id, job, now);
    lemma_refresh_outcome(options, data, job_id, job, now);
    assert forall|r: int, i: int|
        0 <= r < settled.regions.len() && 0 <= i < settled.region_tasks(r).len() implies
        has_succeeded(settled, #[trigger] settled.region_tasks(r)[i]) by {
        lemma_needed_done(job, numbers, r);
        lemma_done_kept(job, settled, r);
    }
}

}

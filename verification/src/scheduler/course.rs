//! What holds of a job from its beginning to its end.

use crate::clock::Timestamp;
use crate::id::JobId;
use crate::job::new_job;
use crate::job_graph::JobGraphView;
use crate::measurements::Measurements;
use crate::scheduler::choices::{
    choices_kept, lemma_ended_choices_kept, lemma_new_job_choices_kept,
    lemma_refreshed_choices_kept, lemma_reported_choices_kept,
};
use crate::scheduler::lifecycle::{
    can_refresh, cleaned_job, lemma_ended_shape, lemma_reported_shape, refreshed_job, reported_job,
    stopped_job,
};
use crate::scheduler::limits::{
    lemma_ended_within_limits, lemma_new_job_within_limits, lemma_refreshed_well_formed,
    lemma_refreshed_within_limits, lemma_reported_within_limits, tasks_apart, within_limits,
};
use crate::scheduler::options::SchedulerOptionsView;
use crate::scheduler::order::{
    in_order, lemma_ended_in_order, lemma_new_job_in_order, lemma_refreshed_in_order,
    lemma_reported_in_order,
};
use crate::scheduler::regroup::{depends_on_data, lemma_same_order};
use crate::state::{ErrorCause, JobState, JobView, TaskState};
use crate::topology::JobTopologyView;
use vstd::prelude::*;

verus! {

/// Whether a report of a task leads from one state of a job to another.
pub open spec fn is_report(a: JobView, b: JobView) -> bool {
    exists|
        stage: int,
        partition: int,
        attempt: int,
        state: TaskState,
        message: Option<String>,
        cause: Option<ErrorCause>,
        now: Timestamp,
    |
        b == #[trigger] reported_job(a, stage, partition, attempt, state, message, cause, now)
}

/// Whether a refresh leads from one state of a job to another.
pub open spec fn is_refresh(
    options: SchedulerOptionsView,
    data: &Measurements,
    job_id: JobId,
    a: JobView,
    b: JobView,
) -> bool {
    exists|now: Timestamp|
        can_refresh(options, data, job_id, a, now) && b == (#[trigger] refreshed_job(
            options,
            data,
            job_id,
            a,
            now,
        )).0
}

/// Whether a job is cleaned up or stopped between one state and another.
pub open spec fn is_end(a: JobView, b: JobView) -> bool {
    ||| exists|now: Timestamp| b == #[trigger] cleaned_job(a, now)
    ||| exists|now: Timestamp| b == #[trigger] stopped_job(a, now)
}

/// Whether a job goes through some states, one after the other, while tasks are reported and the job is
/// refreshed, cleaned up or stopped. The sizes of its data and what its plans can be changed to are the
/// same at every refresh.
pub open spec fn is_course(
    options: SchedulerOptionsView,
    data: &Measurements,
    job_id: JobId,
    jobs: Seq<JobView>,
) -> bool {
    forall|i: int, j: int|
        #![trigger jobs[i], jobs[j]]
        0 <= i && j == i + 1 && j < jobs.len() ==> is_report(jobs[i], jobs[j]) || is_refresh(
            options,
            data,
            job_id,
            jobs[i],
            jobs[j],
        ) || is_end(jobs[i], jobs[j])
}

/// Whether a job is on course: no task has been attempted more often than allowed, no region has been
/// started before those that it depends on were done, and how the regions that have been started read
/// shuffled data stays as it is.
pub open spec fn on_course(
    options: SchedulerOptionsView,
    data: &Measurements,
    job_id: JobId,
    job: JobView,
) -> bool {
    &&& job.well_formed()
    &&& within_limits(options, job)
    &&& in_order(job)
    &&& options.adaptive_enabled ==> depends_on_data(job) && choices_kept(
        options,
        data,
        job_id,
        job,
    )
}

/// A job that is on course stays so.
proof fn lemma_stays_on_course(
    options: SchedulerOptionsView,
    data: &Measurements,
    job_id: JobId,
    a: JobView,
    b: JobView,
)
    requires
        on_course(options, data, job_id, a),
        is_report(a, b) || is_refresh(options, data, job_id, a, b) || is_end(a, b),
    ensures
        on_course(options, data, job_id, b),
{
    if is_report(a, b) {
        let (stage, partition, attempt, state, message, cause, now) = choose|
            stage: int,
            partition: int,
            attempt: int,
            state: TaskState,
            message: Option<String>,
            cause: Option<ErrorCause>,
            now: Timestamp,
        |
            b == #[trigger] reported_job(a, stage, partition, attempt, state, message, cause, now);
        lemma_reported_shape(a, stage, partition, attempt, state, message, cause, now);
        lemma_reported_within_limits(
            options,
            a,
            stage,
            partition,
            attempt,
            state,
            message,
            cause,
            now,
        );
        lemma_reported_in_order(a, stage, partition, attempt, state, message, cause, now);
        if options.adaptive_enabled {
            lemma_same_order(a, b);
            lemma_reported_choices_kept(
                options,
                data,
                job_id,
                a,
                stage,
                partition,
                attempt,
                state,
                message,
                cause,
                now,
            );
        }
    } else if is_refresh(options, data, job_id, a, b) {
        let now = choose|now: Timestamp|
            can_refresh(options, data, job_id, a, now) && b == (#[trigger] refreshed_job(
                options,
                data,
                job_id,
                a,
                now,
            )).0;
        lemma_refreshed_well_formed(options, data, job_id, a, now);
        lemma_refreshed_within_limits(options, data, job_id, a, now);
        lemma_refreshed_in_order(options, data, job_id, a, now);
        if options.adaptive_enabled {
            lemma_refreshed_choices_kept(options, data, job_id, a, now);
        }
    } else {
        let now = if exists|now: Timestamp| b == #[trigger] cleaned_job(a, now) {
            choose|now: Timestamp| b == #[trigger] cleaned_job(a, now)
        } else {
            choose|now: Timestamp| b == #[trigger] stopped_job(a, now)
        };
        lemma_ended_shape(a, now);
        lemma_ended_within_limits(options, a, now);
        lemma_ended_in_order(a, now);
        if options.adaptive_enabled {
            lemma_same_order(a, b);
            lemma_ended_choices_kept(options, data, job_id, a, now);
        }
    }
}

/// From its beginning to its end, whatever is reported and however often it is refreshed, no task of a
/// job is attempted more often than allowed, no region is started before all regions that it depends on
/// are done, and how a region that has been started reads shuffled data stays as it is.
///
/// So it is of a job whose regions share no tasks. With adaptive reading, every region holds all tasks
/// of its stages, and depends on those that write the data which it reads.
pub proof fn lemma_course(
    options: SchedulerOptionsView,
    data: &Measurements,
    job_id: JobId,
    graph: JobGraphView,
    topology: JobTopologyView,
    state: JobState,
    now: Timestamp,
    jobs: Seq<JobView>,
    i: int,
)
    requires
        0 <= i < jobs.len(),
        jobs[0] == new_job(graph, topology, state, now),
        jobs[0].well_formed(),
        tasks_apart(options, jobs[0]),
        options.adaptive_enabled ==> depends_on_data(jobs[0]),
        is_course(options, data, job_id, jobs),
    ensures
        on_course(options, data, job_id, jobs[i]),
    decreases i,
{
    if i == 0 {
        lemma_new_job_within_limits(options, graph, topology, state, now);
        lemma_new_job_in_order(graph, topology, state, now);
        lemma_new_job_choices_kept(options, data, job_id, graph, topology, state, now);
    } else {
        lemma_course(options, data, job_id, graph, topology, state, now, jobs, i - 1);
        lemma_stays_on_course(options, data, job_id, jobs[i - 1], jobs[i]);
    }
}

}

//! What reports, new jobs, clean-up and stopping do to the records of jobs, told field by field.

use crate::action::ActionView;
use crate::clock::Timestamp;
use crate::error::{id_generation_failed_text, malformed_job_text, ErrorView, ExecutionResult};
use crate::id::{JobId, TaskKey};
use crate::job::new_job;
use crate::job_graph::{JobGraph, JobGraphView};
use crate::lists::{lemma_contains_flatten, lemma_contains_push};
use crate::measurements::Measurements;
use crate::scheduler::cancel::cancel_actions;
use crate::scheduler::effects::{is_countable, is_going, lemma_only_attempt_cancels};
use crate::scheduler::laws::lemma_clean_up_cancels_live;
use crate::scheduler::lifecycle::{job_cancel_actions, refreshed_job, stage_cancel_actions};
use crate::scheduler::{
    accepts, cleaned_up, is_refreshable, refreshed, reported, stopped, task_state, SchedulerView,
};
use crate::state::{
    AttemptView, ErrorCause, JobOutputHandle, JobState, JobView, StageState, TaskContextHandle,
    TaskRegionState, TaskState,
};
use crate::topology::{JobTopology, JobTopologyView};
use vstd::prelude::*;

verus! {

/// The state of an attempt once a state has been reported for it. Success, failure and cancelation are
/// final. Otherwise a report counts unless it is of a state that the attempt has left behind.
pub proof fn lemma_state_reported(before: TaskState, state: TaskState)
    ensures
        ({
            let after = before.consolidated(state);
            &&& before == TaskState::Succeeded || before == TaskState::Failed || before
                == TaskState::Canceled ==> after == before
            &&& before == TaskState::Created ==> after == state
            &&& before == TaskState::Scheduled ==> after == (if state == TaskState::Created {
                before
            } else {
                state
            })
            &&& before == TaskState::Running ==> after == (if state == TaskState::Created || state
                == TaskState::Scheduled {
                before
            } else {
                state
            })
        }),
{
}

/// Whether a scheduler has a task attempt.
pub open spec fn knows(scheduler: SchedulerView, key: TaskKey) -> bool {
    let job = scheduler.jobs[key.job_id];
    &&& scheduler.jobs.dom().contains(key.job_id)
    &&& key.stage < job.stages.len()
    &&& key.partition < job.stages[key.stage as int].tasks.len()
    &&& key.attempt < job.stages[key.stage as int].tasks[key.partition as int].len()
}

/// The record of a task attempt.
pub open spec fn record(scheduler: SchedulerView, key: TaskKey) -> AttemptView {
    scheduler.jobs[key.job_id].stages[key.stage as int].tasks[key.partition as int][key.attempt as int]
}

/// What a report leaves behind. The message is added to those of the attempt, a cause takes the place of the
/// one before, and the time at which the attempt has stopped is kept once it is known.
pub proof fn lemma_report_recorded(
    scheduler: SchedulerView,
    key: TaskKey,
    state: TaskState,
    message: Option<String>,
    cause: Option<ErrorCause>,
    now: Timestamp,
)
    requires
        knows(scheduler, key),
    ensures
        ({
            let after = reported(scheduler, key, state, message, cause, now);
            let old_record = record(scheduler, key);
            let new_record = record(after, key);
            &&& knows(after, key)
            &&& new_record.state == old_record.state.consolidated(state)
            &&& match message {
                Some(m) => {
                    &&& new_record.messages.len() == old_record.messages.len() + 1
                    &&& new_record.messages.last() == m
                    &&& new_record.messages.drop_last() == old_record.messages
                },
                None => new_record.messages == old_record.messages,
            }
            &&& new_record.cause == (if cause is Some {
                cause
            } else {
                old_record.cause
            })
            &&& new_record.stopped_at == (if old_record.stopped_at is Some || is_going(
                new_record.state,
            ) {
                old_record.stopped_at
            } else {
                Some(now)
            })
            &&& new_record.created_at == old_record.created_at
            &&& new_record.job_output_fetched == old_record.job_output_fetched
        }),
{
    let after = reported(scheduler, key, state, message, cause, now);
    match message {
        Some(m) => {
            assert(record(scheduler, key).messages.push(m).drop_last()
                =~= record(scheduler, key).messages);
        },
        None => {},
    }
}

/// A report changes the attempt that it is about, and nothing else. A report of an attempt that does not
/// exist changes nothing at all.
pub proof fn lemma_report_changes_one_record(
    scheduler: SchedulerView,
    key: TaskKey,
    state: TaskState,
    message: Option<String>,
    cause: Option<ErrorCause>,
    now: Timestamp,
)
    ensures
        ({
            let after = reported(scheduler, key, state, message, cause, now);
            let old_job = scheduler.jobs[key.job_id];
            let new_job = after.jobs[key.job_id];
            &&& after.options == scheduler.options
            &&& after.next_id == scheduler.next_id
            &&& after.jobs.dom() == scheduler.jobs.dom()
            &&& forall|id: JobId|
                id != key.job_id && scheduler.jobs.dom().contains(id)
                    ==> #[trigger] after.jobs[id] == scheduler.jobs[id]
            &&& !knows(scheduler, key) ==> after == scheduler
            &&& scheduler.jobs.dom().contains(key.job_id) ==> {
                &&& new_job.graph == old_job.graph
                &&& new_job.topology == old_job.topology
                &&& new_job.regions == old_job.regions
                &&& new_job.state == old_job.state
                &&& new_job.created_at == old_job.created_at
                &&& new_job.stopped_at == old_job.stopped_at
                &&& new_job.stages.len() == old_job.stages.len()
                &&& forall|s: int|
                    0 <= s < old_job.stages.len() ==> {
                        &&& (#[trigger] new_job.stages[s]).state == old_job.stages[s].state
                        &&& new_job.stages[s].created_at == old_job.stages[s].created_at
                        &&& new_job.stages[s].stopped_at == old_job.stages[s].stopped_at
                        &&& new_job.stages[s].tasks.len() == old_job.stages[s].tasks.len()
                    }
                &&& forall|s: int, p: int|
                    0 <= s < old_job.stages.len() && 0 <= p < old_job.stages[s].tasks.len() ==> (
                    #[trigger] new_job.stages[s].tasks[p]).len() == old_job.stages[s].tasks[p].len()
                &&& forall|s: int, p: int, a: int|
                    0 <= s < old_job.stages.len() && 0 <= p < old_job.stages[s].tasks.len() && 0 <= a
                        < old_job.stages[s].tasks[p].len() && !(s == key.stage && p == key.partition
                        && a == key.attempt) ==> #[trigger] new_job.stages[s].tasks[p][a]
                        == old_job.stages[s].tasks[p][a]
            }
        }),
{
    let after = reported(scheduler, key, state, message, cause, now);
    if scheduler.jobs.dom().contains(key.job_id) {
        assert(after.jobs.dom() =~= scheduler.jobs.dom());
        if !knows(scheduler, key) {
            assert(after.jobs =~= scheduler.jobs);
        }
    }
}

/// The state of a task attempt is the one in its record, if the attempt exists.
pub proof fn lemma_state_is_recorded(scheduler: SchedulerView, key: TaskKey)
    ensures
        task_state(scheduler, key) == (if knows(scheduler, key) {
            Some(record(scheduler, key).state)
        } else {
            None
        }),
{
}

/// A new job has a task for every partition of every stage, none of them attempted. All its stages are
/// active, and nothing is known of its regions.
pub proof fn lemma_new_job_records(
    graph: JobGraphView,
    topology: JobTopologyView,
    state: JobState,
    now: Timestamp,
)
    ensures
        ({
            let job = new_job(graph, topology, state, now);
            &&& job.graph == graph
            &&& job.topology == topology
            &&& job.state == state
            &&& job.created_at == now
            &&& job.stopped_at is None
            &&& job.stages.len() == graph.stages.len()
            &&& job.regions.len() == topology.regions.len()
            &&& forall|r: int|
                0 <= r < job.regions.len() ==> #[trigger] job.regions[r]
                    == TaskRegionState::Pending
            &&& forall|s: int|
                0 <= s < job.stages.len() ==> {
                    &&& (#[trigger] job.stages[s]).state == StageState::Active
                    &&& job.stages[s].created_at == now
                    &&& job.stages[s].stopped_at is None
                    &&& job.stages[s].tasks.len() == graph.stages[s].plan.partitions
                }
            &&& forall|s: int, p: int|
                0 <= s < job.stages.len() && 0 <= p < job.stages[s].tasks.len() ==> (
                #[trigger] job.stages[s].tasks[p]).len() == 0
        }),
{
}

/// A job whose parts fit together is accepted under the next identifier, unless there is none left. Every job
/// that is handed in uses up an identifier, and none of the other jobs changes.
pub proof fn lemma_acceptance(
    before: SchedulerView,
    plan: ExecutionResult<(JobGraph, JobTopology)>,
    output: JobOutputHandle,
    context: TaskContextHandle,
    now: Timestamp,
    after: SchedulerView,
    result: ExecutionResult<JobId>,
)
    requires
        accepts(before, plan, output, context, now, after, result),
    ensures
        after.options == before.options,
        after.next_id == (if before.next_id >= u64::MAX {
            before.next_id
        } else {
            before.next_id + 1
        }),
        result matches Ok(id) ==> {
            &&& before.next_id < u64::MAX
            &&& id.value == before.next_id
            &&& plan is Ok
            &&& after.jobs.dom() == before.jobs.dom().insert(id)
            &&& after.jobs[id] == new_job(
                plan->Ok_0.0@,
                plan->Ok_0.1@,
                JobState::Running { output, context },
                now,
            )
            &&& after.jobs[id].well_formed()
            &&& forall|other: JobId|
                other != id && before.jobs.dom().contains(other) ==> #[trigger] after.jobs[other]
                    == before.jobs[other]
        },
        result matches Err(e) ==> {
            &&& after.jobs == before.jobs
            &&& if before.next_id >= u64::MAX {
                e@ == ErrorView::Internal(id_generation_failed_text())
            } else {
                match plan {
                    Err(cause) => e == cause,
                    Ok((graph, topology)) => {
                        &&& !new_job(
                            graph@,
                            topology@,
                            JobState::Running { output, context },
                            now,
                        ).well_formed()
                        &&& e@ == ErrorView::Internal(malformed_job_text())
                    },
                }
            }
        },
{
}

/// Cleaning up a job ends it: as a success exactly if its output was being read to its end. All its stages
/// become inactive, and nothing else changes in it, nor any other job. The attempts that have not stopped
/// are canceled, and after that all output streams of the job are removed.
pub proof fn lemma_clean_up_records(
    scheduler: SchedulerView,
    job_id: JobId,
    now: Timestamp,
)
    ensures
        ({
            let (after, actions) = cleaned_up(scheduler, job_id, now);
            let old_job = scheduler.jobs[job_id];
            let new_job = after.jobs[job_id];
            &&& after.options == scheduler.options
            &&& after.next_id == scheduler.next_id
            &&& after.jobs.dom() == scheduler.jobs.dom()
            &&& forall|id: JobId|
                id != job_id && scheduler.jobs.dom().contains(id) ==> #[trigger] after.jobs[id]
                    == scheduler.jobs[id]
            &&& !scheduler.jobs.dom().contains(job_id) ==> actions.len() == 0
            &&& scheduler.jobs.dom().contains(job_id) ==> {
                &&& new_job.state == (if old_job.state == JobState::Draining {
                    JobState::Succeeded
                } else {
                    JobState::Canceled
                })
                &&& new_job.stopped_at == Some(now)
                &&& new_job.created_at == old_job.created_at
                &&& new_job.graph == old_job.graph
                &&& new_job.topology == old_job.topology
                &&& new_job.regions == old_job.regions
                &&& new_job.stages.len() == old_job.stages.len()
                &&& forall|s: int|
                    0 <= s < old_job.stages.len() ==> {
                        &&& (#[trigger] new_job.stages[s]).state == StageState::Inactive
                        &&& new_job.stages[s].tasks == old_job.stages[s].tasks
                        &&& new_job.stages[s].created_at == old_job.stages[s].created_at
                        &&& new_job.stages[s].stopped_at == (if old_job.stages[s].stopped_at is Some {
                            old_job.stages[s].stopped_at
                        } else {
                            Some(now)
                        })
                    }
                &&& actions.len() > 0
                &&& actions.last() == (ActionView::CleanUpJob { job_id, stage: None })
                &&& forall|i: int|
                    0 <= i < actions.len() - 1 ==> (#[trigger] actions[i]) is CancelTask
                &&& is_countable(old_job) && old_job.linked() ==> forall|key: TaskKey|
                    actions.contains(#[trigger] cancel_of(key)) <==> key.job_id == job_id && knows(
                        scheduler,
                        key,
                    ) && is_going(record(scheduler, key).state)
            }
        }),
{
    let (after, actions) = cleaned_up(scheduler, job_id, now);
    if scheduler.jobs.dom().contains(job_id) {
        let job = scheduler.jobs[job_id];
        assert(after.jobs.dom() =~= scheduler.jobs.dom());
        let cancels = job_cancel_actions(job_id, job);
        lemma_only_job_cancels(job_id, job);
        if is_countable(job) && job.linked() {
            assert forall|key: TaskKey| actions.contains(#[trigger] cancel_of(key)) <==> key.job_id
                == job_id && knows(scheduler, key) && is_going(record(scheduler, key).state) by {
                assert forall|s: int, p: int| job.has_task(s, p) implies (#[trigger] job.attempts(
                    s,
                    p,
                )).len() <= usize::MAX by {
                    assert(job.stages[s].tasks[p].len() <= usize::MAX);
                }
                lemma_clean_up_cancels_live(job_id, job, key);
                lemma_contains_push(
                    cancels,
                    ActionView::CleanUpJob { job_id, stage: None },
                    cancel_of(key),
                );
            }
        }
    }
}

/// The action that cancels a task attempt.
pub open spec fn cancel_of(key: TaskKey) -> ActionView {
    ActionView::CancelTask { key }
}

/// Canceling the attempts of a job calls for nothing else.
proof fn lemma_only_job_cancels(job_id: JobId, job: JobView)
    ensures
        forall|i: int|
            0 <= i < job_cancel_actions(job_id, job).len() ==> (
            #[trigger] job_cancel_actions(job_id, job)[i]) is CancelTask,
{
    let all = job_cancel_actions(job_id, job);
    assert forall|i: int| 0 <= i < all.len() implies (#[trigger] all[i]) is CancelTask by {
        let action = all[i];
        assert(all.contains(action));
        let stages = Seq::new(job.stages.len(), |s: int| stage_cancel_actions(job_id, job, s));
        lemma_contains_flatten(stages, action);
        let s = choose|s: int| 0 <= s < stages.len() && (#[trigger] stages[s]).contains(action);
        let tasks = Seq::new(
            job.stages[s].tasks.len(),
            |p: int|
                cancel_actions(
                    job_id,
                    s as usize,
                    p as usize,
                    job.attempts(s, p),
                    job.attempts(s, p).len(),
                ),
        );
        assert(stages[s] == tasks.flatten());
        lemma_contains_flatten(tasks, action);
        let p = choose|p: int| 0 <= p < tasks.len() && (#[trigger] tasks[p]).contains(action);
        let attempts = job.attempts(s, p);
        lemma_only_attempt_cancels(job_id, s as usize, p as usize, attempts, attempts.len());
        let k = tasks[p].index_of(action);
        assert(tasks[p][k] == action);
    }
}

/// Stopping the scheduler cancels what has not ended: the jobs that are open, and the attempts that have not
/// stopped. All stages become inactive. Nothing else changes.
pub proof fn lemma_stop_records(scheduler: SchedulerView, now: Timestamp, id: JobId)
    requires
        scheduler.jobs.dom().contains(id),
    ensures
        ({
            let after = stopped(scheduler, now);
            let old_job = scheduler.jobs[id];
            let new_job = after.jobs[id];
            let ends = old_job.state is Running || old_job.state is Draining;
            &&& after.options == scheduler.options
            &&& after.next_id == scheduler.next_id
            &&& after.jobs.dom() == scheduler.jobs.dom()
            &&& new_job.state == (if ends {
                JobState::Canceled
            } else {
                old_job.state
            })
            &&& new_job.stopped_at == (if ends {
                Some(now)
            } else {
                old_job.stopped_at
            })
            &&& new_job.created_at == old_job.created_at
            &&& new_job.graph == old_job.graph
            &&& new_job.topology == old_job.topology
            &&& new_job.regions == old_job.regions
            &&& new_job.stages.len() == old_job.stages.len()
            &&& forall|s: int|
                0 <= s < old_job.stages.len() ==> {
                    &&& (#[trigger] new_job.stages[s]).state == StageState::Inactive
                    &&& new_job.stages[s].created_at == old_job.stages[s].created_at
                    &&& new_job.stages[s].stopped_at == (if old_job.stages[s].state
                        == StageState::Active {
                        Some(now)
                    } else {
                        old_job.stages[s].stopped_at
                    })
                    &&& new_job.stages[s].tasks.len() == old_job.stages[s].tasks.len()
                }
            &&& forall|s: int, p: int|
                0 <= s < old_job.stages.len() && 0 <= p < old_job.stages[s].tasks.len() ==> (
                #[trigger] new_job.stages[s].tasks[p]).len() == old_job.stages[s].tasks[p].len()
            &&& forall|s: int, p: int, a: int|
                0 <= s < old_job.stages.len() && 0 <= p < old_job.stages[s].tasks.len() && 0 <= a
                    < old_job.stages[s].tasks[p].len() ==> {
                    let old_record = old_job.stages[s].tasks[p][a];
                    let new_record = #[trigger] new_job.stages[s].tasks[p][a];
                    if is_going(old_record.state) {
                        &&& new_record.state == TaskState::Canceled
                        &&& new_record.stopped_at == Some(now)
                        &&& new_record.messages == old_record.messages
                        &&& new_record.cause == old_record.cause
                        &&& new_record.created_at == old_record.created_at
                        &&& new_record.job_output_fetched == old_record.job_output_fetched
                    } else {
                        new_record == old_record
                    }
                }
        }),
{
    let after = stopped(scheduler, now);
    assert(after.jobs.dom() =~= scheduler.jobs.dom());
}

/// The parts of a new job fit together exactly if whatever they name exists: there are consumers for every
/// stage, and the stages that are read, the stages that consume, the regions that are depended on and the
/// tasks of the regions are there.
pub proof fn lemma_parts_fit(
    graph: JobGraphView,
    topology: JobTopologyView,
    state: JobState,
    now: Timestamp,
)
    ensures
        new_job(graph, topology, state, now).well_formed() <==> {
            &&& topology.consumers.len() == graph.stages.len()
            &&& forall|s: int, i: int|
                0 <= s < graph.stages.len() && 0 <= i < graph.stages[s].inputs.len() ==> (
                #[trigger] graph.stages[s].inputs[i]).stage < graph.stages.len()
            &&& forall|s: int, i: int|
                0 <= s < topology.consumers.len() && 0 <= i < topology.consumers[s].len()
                    ==> #[trigger] topology.consumers[s][i] < graph.stages.len()
            &&& forall|r: int, i: int|
                0 <= r < topology.regions.len() && 0 <= i < topology.regions[r].dependencies.len()
                    ==> #[trigger] topology.regions[r].dependencies[i] < topology.regions.len()
            &&& forall|r: int, i: int|
                0 <= r < topology.regions.len() && 0 <= i < topology.regions[r].tasks.len() ==> {
                    let t = #[trigger] topology.regions[r].tasks[i];
                    t.stage < graph.stages.len() && t.partition
                        < graph.stages[t.stage as int].plan.partitions
                }
        },
{
    let job = new_job(graph, topology, state, now);
    if job.well_formed() {
        assert forall|r: int, i: int|
            0 <= r < topology.regions.len() && 0 <= i < topology.regions[r].tasks.len() implies {
            let t = #[trigger] topology.regions[r].tasks[i];
            t.stage < graph.stages.len() && t.partition
                < graph.stages[t.stage as int].plan.partitions
        } by {
            let t = job.region_tasks(r)[i];
            assert(job.has_task(t.stage as int, t.partition as int));
        }
        assert forall|s: int, i: int|
            0 <= s < graph.stages.len() && 0 <= i < graph.stages[s].inputs.len() implies (
        #[trigger] graph.stages[s].inputs[i]).stage < graph.stages.len() by {
            assert(job.graph.stages[s].inputs[i].stage < job.stages.len());
        }
        assert forall|s: int, i: int|
            0 <= s < topology.consumers.len() && 0 <= i < topology.consumers[s].len()
            implies #[trigger] topology.consumers[s][i] < graph.stages.len() by {
            assert(job.topology.consumers[s][i] < job.stages.len());
        }
        assert forall|r: int, i: int|
            0 <= r < topology.regions.len() && 0 <= i < topology.regions[r].dependencies.len()
            implies #[trigger] topology.regions[r].dependencies[i] < topology.regions.len() by {
            assert(job.topology.regions[r].dependencies[i] < job.regions.len());
        }
    }
    if topology.consumers.len() == graph.stages.len() && (forall|r: int, i: int|
        0 <= r < topology.regions.len() && 0 <= i < topology.regions[r].tasks.len() ==> {
            let t = #[trigger] topology.regions[r].tasks[i];
            t.stage < graph.stages.len() && t.partition
                < graph.stages[t.stage as int].plan.partitions
        }) {
        assert forall|r: int, i: int|
            0 <= r < job.regions.len() && 0 <= i < job.region_tasks(r).len() implies job.has_task(
            (#[trigger] job.region_tasks(r)[i]).stage as int,
            job.region_tasks(r)[i].partition as int,
        ) by {
            let t = topology.regions[r].tasks[i];
        }
        assert forall|r: int, i: int|
            0 <= r < job.regions.len() && 0 <= i < job.region_tasks(r).len() implies (
        #[trigger] job.region_tasks(r)[i]).stage < job.stages.len() by {
            let t = topology.regions[r].tasks[i];
        }
    }
}

/// A refresh changes the job that it is about, and nothing else. For a job that does not exist or is not
/// running it does nothing.
pub proof fn lemma_refresh_changes_one_job(
    scheduler: SchedulerView,
    data: &Measurements,
    job_id: JobId,
    now: Timestamp,
)
    ensures
        ({
            let (after, actions) = refreshed(scheduler, data, job_id, now);
            let job = scheduler.jobs[job_id];
            &&& after.options == scheduler.options
            &&& after.next_id == scheduler.next_id
            &&& after.jobs.dom() == scheduler.jobs.dom()
            &&& forall|id: JobId|
                id != job_id && scheduler.jobs.dom().contains(id) ==> #[trigger] after.jobs[id]
                    == scheduler.jobs[id]
            &&& !scheduler.jobs.dom().contains(job_id) || !(job.state is Running) ==> {
                &&& after == scheduler
                &&& actions.len() == 0
                &&& is_refreshable(scheduler, data, job_id, now)
            }
            &&& scheduler.jobs.dom().contains(job_id) ==> after.jobs[job_id] == refreshed_job(
                scheduler.options,
                data,
                job_id,
                job,
                now,
            ).0 && actions == refreshed_job(scheduler.options, data, job_id, job, now).1
        }),
{
    let (after, actions) = refreshed(scheduler, data, job_id, now);
    if scheduler.jobs.dom().contains(job_id) {
        assert(after.jobs.dom() =~= scheduler.jobs.dom());
        if !(scheduler.jobs[job_id].state is Running) {
            assert(after.jobs =~= scheduler.jobs);
        }
    }
}

}

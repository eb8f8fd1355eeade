//! What a refresh does, told by the attempts at the tasks of the job before it.

use crate::action::ActionView;
use crate::clock::Timestamp;
use crate::id::{JobId, TaskKey, TaskStreamKey};
use crate::job_graph::SchemaHandle;
use crate::lists::{lemma_contains_flatten, lemma_contains_join, lemma_contains_push};
use crate::measurements::Measurements;
use crate::scheduler::cancel::{
    cancel_actions, canceled_regions, canceled_tasks, has_failed, has_failure, is_doomed,
    lemma_cancel_regions_exact, lemma_canceled_regions,
};
use crate::scheduler::failure::{failure_cause, failures, most_failing};
use crate::scheduler::keys::channel_count;
use crate::scheduler::lifecycle::{
    any_region_failed, lemma_settled_shape, refreshed_job, settled_job,
};
use crate::scheduler::options::SchedulerOptionsView;
use crate::scheduler::output::{
    extended_output, has_new_output, is_releasable, output_action, output_actions, release_actions,
    stage_output_actions, stage_succeeded, task_output_actions, with_released,
};
use crate::scheduler::progress::{has_succeeded, is_exhausted, region_state};
use crate::scheduler::schedule::{lemma_scheduled_keeps, scheduled_regions};
use crate::state::{
    AttemptView, CauseView, JobOutputHandle, JobState, JobView, StageState, TaskRegionState,
    TaskState, TaskView,
};
use crate::topology::TaskTopology;
use vstd::prelude::*;

verus! {

/// Whether a region has a task.
pub open spec fn has_member(job: JobView, region: int, stage: int, partition: int) -> bool {
    exists|i: int|
        0 <= i < job.topology.regions[region].tasks.len() && (
        #[trigger] job.topology.regions[region].tasks[i]).stage == stage
            && job.topology.regions[region].tasks[i].partition == partition
}

/// Whether a task exists and has been attempted.
pub open spec fn has_been_tried(job: JobView, stage: int, partition: int) -> bool {
    &&& 0 <= stage < job.stages.len()
    &&& 0 <= partition < job.stages[stage].tasks.len()
    &&& job.stages[stage].tasks[partition].len() > 0
}

/// Whether the last attempt at a task is in a state.
pub open spec fn ends_in(job: JobView, stage: int, partition: int, state: TaskState) -> bool {
    has_been_tried(job, stage, partition) && job.stages[stage].tasks[partition].last().state
        == state
}

/// Whether the last attempt at some task of a region has failed.
pub open spec fn is_broken(job: JobView, region: int) -> bool {
    exists|s: int, p: int| #[trigger]
        has_member(job, region, s, p) && ends_in(job, s, p, TaskState::Failed)
}

/// Whether a task is in a region in which the last attempt at some task has failed.
pub open spec fn is_swept(job: JobView, stage: int, partition: int) -> bool {
    exists|r: int|
        0 <= r < job.topology.regions.len() && #[trigger] has_member(job, r, stage, partition)
            && is_broken(job, r)
}

/// Whether a task attempt has not stopped yet.
pub open spec fn is_going(state: TaskState) -> bool {
    state == TaskState::Created || state == TaskState::Scheduled || state == TaskState::Running
}

/// Whether the numbers of stages and of attempts fit in a machine word.
pub open spec fn is_countable(job: JobView) -> bool {
    &&& job.stages.len() <= usize::MAX
    &&& forall|s: int, p: int|
        0 <= s < job.stages.len() && 0 <= p < job.stages[s].tasks.len() ==> (
        #[trigger] job.stages[s].tasks[p]).len() <= usize::MAX
}

/// The tasks that are canceled are those in regions with a failed task.
pub proof fn lemma_swept(job: JobView, stage: int, partition: int)
    requires
        job.linked(),
    ensures
        is_doomed(job, job.regions.len(), stage, partition) <==> is_swept(job, stage, partition),
        forall|r: int| 0 <= r < job.regions.len() ==> #[trigger] has_failure(job, r) == is_broken(job, r),
{
    assert forall|r: int| 0 <= r < job.regions.len() implies #[trigger] has_failure(job, r)
        == is_broken(job, r) by {
        if has_failure(job, r) {
            let i = choose|i: int|
                0 <= i < job.region_tasks(r).len() && has_failed(
                    job,
                    #[trigger] job.region_tasks(r)[i],
                );
            let t = job.topology.regions[r].tasks[i];
            assert(has_member(job, r, t.stage as int, t.partition as int));
        }
        if is_broken(job, r) {
            let (s, p) = choose|s: int, p: int| #[trigger]
                has_member(job, r, s, p) && ends_in(job, s, p, TaskState::Failed);
            let i = choose|i: int|
                0 <= i < job.topology.regions[r].tasks.len() && (
                #[trigger] job.topology.regions[r].tasks[i]).stage == s
                    && job.topology.regions[r].tasks[i].partition == p;
            assert(has_failed(job, job.region_tasks(r)[i]));
        }
    }
    if is_doomed(job, job.regions.len(), stage, partition) {
        let (r, i) = choose|r: int, i: int|
            #![trigger job.region_tasks(r)[i]]
            0 <= r < job.regions.len() && 0 <= i < job.region_tasks(r).len() && has_failure(job, r)
                && job.region_tasks(r)[i].stage == stage && job.region_tasks(r)[i].partition
                == partition;
        assert(job.topology.regions[r].tasks[i] == job.region_tasks(r)[i]);
        assert(has_member(job, r, stage, partition));
    }
    if is_swept(job, stage, partition) {
        let r = choose|r: int|
            0 <= r < job.topology.regions.len() && #[trigger] has_member(job, r, stage, partition)
                && is_broken(job, r);
        let i = choose|i: int|
            0 <= i < job.topology.regions[r].tasks.len() && (
            #[trigger] job.topology.regions[r].tasks[i]).stage == stage
                && job.topology.regions[r].tasks[i].partition == partition;
        assert(has_failure(job, r));
        assert(job.region_tasks(r)[i].stage == stage);
    }
}

/// Whether the output of the last attempt at a task is still to be added to the job output: the task is
/// one of a final stage, and the attempt is running and is not about to be canceled, or has succeeded.
pub open spec fn has_fresh_output(job: JobView, stage: int, partition: int) -> bool {
    let last = job.stages[stage].tasks[partition].last();
    &&& has_been_tried(job, stage, partition)
    &&& job.topology.consumers[stage].len() == 0
    &&& !last.job_output_fetched
    &&& last.state == TaskState::Succeeded || (last.state == TaskState::Running && !is_swept(
        job,
        stage,
        partition,
    ))
}

/// What dealing with reports makes of the attempts: those that have not stopped are canceled in regions
/// with a failed task, and the last ones whose output is to be added to the job output are marked.
/// Nothing else changes in any attempt, and there are no new ones.
pub proof fn lemma_settled_attempts(max: nat, job_id: JobId, job: JobView, now: Timestamp)
    requires
        job.well_formed(),
        job.state is Running,
    ensures
        ({
            let after = settled_job(max, job_id, job, now).0;
            &&& after.graph == job.graph
            &&& after.topology == job.topology
            &&& after.state == job.state
            &&& after.created_at == job.created_at
            &&& after.stopped_at == job.stopped_at
            &&& after.regions.len() == job.regions.len()
            &&& after.stages.len() == job.stages.len()
            &&& forall|s: int|
                0 <= s < job.stages.len() ==> (#[trigger] after.stages[s]).tasks.len()
                    == job.stages[s].tasks.len() && after.stages[s].created_at
                    == job.stages[s].created_at
            &&& forall|s: int, p: int|
                0 <= s < job.stages.len() && 0 <= p < job.stages[s].tasks.len() ==> (
                #[trigger] after.stages[s].tasks[p]).len() == job.stages[s].tasks[p].len()
            &&& forall|s: int, p: int, a: int|
                0 <= s < job.stages.len() && 0 <= p < job.stages[s].tasks.len() && 0 <= a
                    < job.stages[s].tasks[p].len() ==> {
                    let old_attempt = job.stages[s].tasks[p][a];
                    let new_attempt = #[trigger] after.stages[s].tasks[p][a];
                    let stops = is_going(old_attempt.state) && is_swept(job, s, p);
                    &&& new_attempt.state == (if stops {
                        TaskState::Canceled
                    } else {
                        old_attempt.state
                    })
                    &&& new_attempt.stopped_at == (if stops {
                        Some(now)
                    } else {
                        old_attempt.stopped_at
                    })
                    &&& new_attempt.messages == old_attempt.messages
                    &&& new_attempt.cause == old_attempt.cause
                    &&& new_attempt.created_at == old_attempt.created_at
                    &&& new_attempt.job_output_fetched == (old_attempt.job_output_fetched || (a
                        == job.stages[s].tasks[p].len() - 1 && has_fresh_output(job, s, p)))
                }
        }),
{
    let n = job.regions.len();
    let canceled = canceled_regions(job_id, job, n, now).0;
    let extended = extended_output(job_id, canceled).0;
    let after = settled_job(max, job_id, job, now).0;
    lemma_canceled_regions(job_id, job, n, now);
    assert forall|s: int, p: int|
        0 <= s < job.stages.len() && 0 <= p < job.stages[s].tasks.len() implies has_new_output(
        canceled,
        s,
        p,
    ) == has_fresh_output(job, s, p) && #[trigger] after.stages[s].tasks[p]
        == extended.stages[s].tasks[p] && after.stages[s].tasks[p].len()
        == job.stages[s].tasks[p].len() by {
        lemma_swept(job, s, p);
    }
    assert forall|s: int, p: int, a: int|
        0 <= s < job.stages.len() && 0 <= p < job.stages[s].tasks.len() && 0 <= a
            < job.stages[s].tasks[p].len() implies {
        let old_attempt = job.stages[s].tasks[p][a];
        let new_attempt = #[trigger] after.stages[s].tasks[p][a];
        let stops = is_going(old_attempt.state) && is_swept(job, s, p);
        &&& new_attempt.state == (if stops {
            TaskState::Canceled
        } else {
            old_attempt.state
        })
        &&& new_attempt.stopped_at == (if stops {
            Some(now)
        } else {
            old_attempt.stopped_at
        })
        &&& new_attempt.messages == old_attempt.messages
        &&& new_attempt.cause == old_attempt.cause
        &&& new_attempt.created_at == old_attempt.created_at
        &&& new_attempt.job_output_fetched == (old_attempt.job_output_fetched || (a
            == job.stages[s].tasks[p].len() - 1 && has_fresh_output(job, s, p)))
    } by {
        lemma_swept(job, s, p);
        assert(after.stages[s].tasks[p] == extended.stages[s].tasks[p]);
        assert(has_new_output(canceled, s, p) == has_fresh_output(job, s, p));
    }
}

/// Canceling attempts calls for nothing else.
pub proof fn lemma_only_cancels(job_id: JobId, job: JobView, n: nat, now: Timestamp)
    requires
        n <= job.regions.len(),
    ensures
        forall|i: int|
            0 <= i < canceled_regions(job_id, job, n, now).1.len() ==> (
            #[trigger] canceled_regions(job_id, job, n, now).1[i]) is CancelTask,
    decreases n,
{
    if n > 0 {
        let before = canceled_regions(job_id, job, (n - 1) as nat, now);
        lemma_only_cancels(job_id, job, (n - 1) as nat, now);
        lemma_only_task_cancels(job_id, before.0, before.0.region_tasks(n - 1), now);
    }
}

/// Canceling the attempts at some tasks calls for nothing else.
pub proof fn lemma_only_task_cancels(
    job_id: JobId,
    job: JobView,
    tasks: Seq<TaskTopology>,
    now: Timestamp,
)
    ensures
        forall|i: int|
            0 <= i < canceled_tasks(job_id, job, tasks, now).1.len() ==> (
            #[trigger] canceled_tasks(job_id, job, tasks, now).1[i]) is CancelTask,
    decreases tasks.len(),
{
    if tasks.len() > 0 {
        let before = canceled_tasks(job_id, job, tasks.drop_last(), now);
        lemma_only_task_cancels(job_id, job, tasks.drop_last(), now);
        let t = tasks.last();
        let attempts = before.0.attempts(t.stage as int, t.partition as int);
        lemma_only_attempt_cancels(job_id, t.stage, t.partition, attempts, attempts.len());
    }
}

/// Canceling the attempts at a task calls for nothing else.
pub proof fn lemma_only_attempt_cancels(
    job_id: JobId,
    stage: usize,
    partition: usize,
    attempts: TaskView,
    n: nat,
)
    ensures
        forall|i: int|
            0 <= i < cancel_actions(job_id, stage, partition, attempts, n).len() ==> (
            #[trigger] cancel_actions(job_id, stage, partition, attempts, n)[i]) is CancelTask,
    decreases n,
{
    if n > 0 {
        lemma_only_attempt_cancels(job_id, stage, partition, attempts, (n - 1) as nat);
    }
}

/// Scheduling calls for nothing else than regions to be scheduled.
pub proof fn lemma_only_schedules(
    options: SchedulerOptionsView,
    data: &Measurements,
    job_id: JobId,
    job: JobView,
    n: nat,
    now: Timestamp,
)
    ensures
        forall|i: int|
            0 <= i < scheduled_regions(options, data, job_id, job, n, now).1.len() ==> (
            #[trigger] scheduled_regions(options, data, job_id, job, n, now).1[i]) is ScheduleTaskRegion,
    decreases n,
{
    if n > 0 {
        lemma_only_schedules(options, data, job_id, job, (n - 1) as nat, now);
    }
}

/// The actions that release stages, one by one.
proof fn lemma_release_actions(job_id: JobId, job: JobView, n: nat, action: ActionView)
    requires
        n <= usize::MAX,
    ensures
        release_actions(job_id, job, n).contains(action) <==> exists|s: int|
            0 <= s < n && #[trigger] is_releasable(job, s) && action == (ActionView::CleanUpJob {
                job_id,
                stage: Some(s as usize),
            }),
    decreases n,
{
    if n > 0 {
        let m = (n - 1) as nat;
        let before = release_actions(job_id, job, m);
        lemma_release_actions(job_id, job, m, action);
        lemma_contains_push(
            before,
            ActionView::CleanUpJob { job_id, stage: Some(m as usize) },
            action,
        );
        if before.contains(action) {
            let s = choose|s: int|
                0 <= s < m && #[trigger] is_releasable(job, s) && action == (
                ActionView::CleanUpJob { job_id, stage: Some(s as usize) });
            assert(0 <= s < n && is_releasable(job, s));
        }
    } else {
        assert(release_actions(job_id, job, n).len() == 0);
    }
}

/// The actions that add output, one by one.
proof fn lemma_output_actions(job_id: JobId, job: JobView, handle: JobOutputHandle, action: ActionView)
    ensures
        output_actions(job_id, job, handle).contains(action) <==> exists|s: int, p: int, c: int|
            0 <= s < job.stages.len() && 0 <= p < job.stages[s].tasks.len() && has_new_output(
                job,
                s,
                p,
            ) && 0 <= c < channel_count(job.graph.stages[s]) && action == #[trigger] output_action(
                job_id,
                job,
                handle,
                s,
                p,
                c,
            ),
{
    let stages = Seq::new(
        job.stages.len(),
        |s: int| stage_output_actions(job_id, job, handle, s),
    );
    lemma_contains_flatten(stages, action);
    if output_actions(job_id, job, handle).contains(action) {
        let s = choose|s: int| 0 <= s < stages.len() && (#[trigger] stages[s]).contains(action);
        let tasks = Seq::new(
            job.stages[s].tasks.len(),
            |p: int| task_output_actions(job_id, job, handle, s, p),
        );
        lemma_contains_flatten(tasks, action);
        assert(stages[s] == tasks.flatten());
        let p = choose|p: int| 0 <= p < tasks.len() && (#[trigger] tasks[p]).contains(action);
        let list = task_output_actions(job_id, job, handle, s, p);
        assert(tasks[p] == list);
        let c = list.index_of(action);
        assert(list[c] == output_action(job_id, job, handle, s, p, c));
    }
    if exists|s: int, p: int, c: int|
        0 <= s < job.stages.len() && 0 <= p < job.stages[s].tasks.len() && has_new_output(job, s, p)
            && 0 <= c < channel_count(job.graph.stages[s]) && action == #[trigger] output_action(
            job_id,
            job,
            handle,
            s,
            p,
            c,
        ) {
        let (s, p, c) = choose|s: int, p: int, c: int|
            0 <= s < job.stages.len() && 0 <= p < job.stages[s].tasks.len() && has_new_output(
                job,
                s,
                p,
            ) && 0 <= c < channel_count(job.graph.stages[s]) && action == #[trigger] output_action(
                job_id,
                job,
                handle,
                s,
                p,
                c,
            );
        let tasks = Seq::new(
            job.stages[s].tasks.len(),
            |p: int| task_output_actions(job_id, job, handle, s, p),
        );
        lemma_contains_flatten(tasks, action);
        let list = task_output_actions(job_id, job, handle, s, p);
        assert(list[c] == action);
        assert(tasks[p] == list);
        assert(tasks[p].contains(action));
        assert(stages[s] == tasks.flatten());
        assert(stages[s].contains(action));
    }
}

/// Which of the actions of a refresh deal with reports, and which come after them.
proof fn lemma_refresh_parts(
    options: SchedulerOptionsView,
    data: &Measurements,
    job_id: JobId,
    job: JobView,
    now: Timestamp,
    action: ActionView,
)
    requires
        job.well_formed(),
        job.state is Running,
        job.stages.len() <= usize::MAX,
    ensures
        ({
            let n = job.regions.len();
            let canceled = canceled_regions(job_id, job, n, now);
            let extended = extended_output(job_id, canceled.0);
            let released = release_actions(job_id, extended.0, job.stages.len());
            let all = refreshed_job(options, data, job_id, job, now).1;
            &&& action is CancelTask ==> (all.contains(action) <==> canceled.1.contains(action))
            &&& action is ExtendJobOutput ==> (all.contains(action) <==> extended.1.contains(
                action,
            ))
            &&& action is CleanUpJob ==> (all.contains(action) <==> released.contains(action))
            &&& canceled.0.graph == job.graph
            &&& canceled.0.topology == job.topology
            &&& canceled.0.state == job.state
            &&& canceled.0.stages.len() == job.stages.len()
            &&& extended.0.graph == job.graph
            &&& extended.0.topology == job.topology
            &&& extended.0.stages.len() == job.stages.len()
        }),
{
    let n = job.regions.len();
    let max = options.task_max_attempts as nat;
    let canceled = canceled_regions(job_id, job, n, now);
    let extended = extended_output(job_id, canceled.0);
    let released = release_actions(job_id, extended.0, job.stages.len());
    let (settled, actions) = settled_job(max, job_id, job, now);
    lemma_canceled_regions(job_id, job, n, now);
    lemma_settled_shape(max, job_id, job, now);
    lemma_only_cancels(job_id, job, n, now);
    lemma_only_schedules(options, data, job_id, settled, settled.regions.len(), now);
    let handle = job.state->output;
    let more = scheduled_regions(options, data, job_id, settled, settled.regions.len(), now).1;
    let all = refreshed_job(options, data, job_id, job, now).1;
    let kept = canceled.1 + extended.1;
    assert(actions == kept + released);
    lemma_contains_join(canceled.1, extended.1, action);
    lemma_contains_join(kept, released, action);
    lemma_contains_join(actions, more, action);
    lemma_output_actions(job_id, canceled.0, handle, action);
    lemma_release_actions(job_id, extended.0, job.stages.len(), action);
    if canceled.1.contains(action) {
        let i = canceled.1.index_of(action);
        assert(canceled.1[i] is CancelTask);
    }
    if more.contains(action) {
        let i = more.index_of(action);
        assert(more[i] is ScheduleTaskRegion);
    }
    if any_region_failed(settled) {
        lemma_contains_push(
            actions,
            ActionView::FailJobOutput { handle, cause: failure_cause(settled) },
            action,
        );
    }
}

/// A refresh cancels exactly the task attempts that have not stopped in regions with a failed task.
pub proof fn lemma_refresh_cancels(
    options: SchedulerOptionsView,
    data: &Measurements,
    job_id: JobId,
    job: JobView,
    now: Timestamp,
    key: TaskKey,
)
    requires
        job.well_formed(),
        job.state is Running,
        is_countable(job),
    ensures
        ({
            let s = key.stage as int;
            let p = key.partition as int;
            let a = key.attempt as int;
            refreshed_job(options, data, job_id, job, now).1.contains(
                ActionView::CancelTask { key },
            ) <==> {
                &&& key.job_id == job_id
                &&& s < job.stages.len()
                &&& p < job.stages[s].tasks.len()
                &&& a < job.stages[s].tasks[p].len()
                &&& is_going(job.stages[s].tasks[p][a].state)
                &&& is_swept(job, s, p)
            }
        }),
{
    let s = key.stage as int;
    let p = key.partition as int;
    lemma_refresh_parts(options, data, job_id, job, now, ActionView::CancelTask { key });
    assert forall|s: int, p: int| job.has_task(s, p) implies (#[trigger] job.attempts(s, p)).len()
        <= usize::MAX by {
        assert(job.stages[s].tasks[p].len() <= usize::MAX);
    }
    lemma_cancel_regions_exact(job_id, job, job.regions.len(), now, key);
    lemma_swept(job, s, p);
}

/// A refresh adds output streams to the job output exactly of the last attempts at the tasks of the final
/// stages, if these are running and are not canceled, or have succeeded, and have not been added before:
/// all channels of them, each with the schema of the job.
pub proof fn lemma_refresh_adds_output(
    options: SchedulerOptionsView,
    data: &Measurements,
    job_id: JobId,
    job: JobView,
    now: Timestamp,
    handle: JobOutputHandle,
    key: TaskStreamKey,
    schema: SchemaHandle,
)
    requires
        job.well_formed(),
        job.state is Running,
        is_countable(job),
    ensures
        ({
            let s = key.stage as int;
            let p = key.partition as int;
            refreshed_job(options, data, job_id, job, now).1.contains(
                ActionView::ExtendJobOutput { handle, key, schema },
            ) <==> {
                &&& handle == job.state->output
                &&& schema == job.graph.schema
                &&& key.job_id == job_id
                &&& s < job.stages.len()
                &&& p < job.stages[s].tasks.len()
                &&& has_fresh_output(job, s, p)
                &&& key.attempt == job.stages[s].tasks[p].len() - 1
                &&& key.channel < channel_count(job.graph.stages[s])
            }
        }),
{
    let action = ActionView::ExtendJobOutput { handle, key, schema };
    let n = job.regions.len();
    let canceled = canceled_regions(job_id, job, n, now).0;
    let output = job.state->output;
    lemma_refresh_parts(options, data, job_id, job, now, action);
    lemma_canceled_regions(job_id, job, n, now);
    lemma_output_actions(job_id, canceled, output, action);
    assert forall|s: int, p: int|
        0 <= s < job.stages.len() && 0 <= p < job.stages[s].tasks.len() implies has_new_output(
        canceled,
        s,
        p,
    ) == #[trigger] has_fresh_output(job, s, p) && canceled.attempts(s, p).len()
        == job.stages[s].tasks[p].len() by {
        lemma_swept(job, s, p);
    }
    let s = key.stage as int;
    let p = key.partition as int;
    if refreshed_job(options, data, job_id, job, now).1.contains(action) {
        let (s1, p1, c1) = choose|s: int, p: int, c: int|
            0 <= s < canceled.stages.len() && 0 <= p < canceled.stages[s].tasks.len()
                && has_new_output(canceled, s, p) && 0 <= c < channel_count(
                canceled.graph.stages[s],
            ) && action == #[trigger] output_action(job_id, canceled, output, s, p, c);
        assert(p1 < job.stages[s1].tasks.len() <= usize::MAX);
        assert(job.stages[s1].tasks[p1].len() <= usize::MAX);
        assert(has_fresh_output(job, s1, p1));
        assert(s1 == s && p1 == p);
    }
    if handle == output && schema == job.graph.schema && key.job_id == job_id && s
        < job.stages.len() && p < job.stages[s].tasks.len() && has_fresh_output(job, s, p)
        && key.attempt == job.stages[s].tasks[p].len() - 1 && key.channel < channel_count(
        job.graph.stages[s],
    ) {
        assert(canceled.stages[s].tasks.len() == job.stages[s].tasks.len());
        assert(action == output_action(job_id, canceled, output, s, p, key.channel as int));
    }
}

/// Whether a stage is kept although all that consume it are done: some stage consumes it, and the last
/// attempt at the task for every output partition of every consumer has succeeded.
pub open spec fn is_used_up(job: JobView, stage: int) -> bool {
    &&& job.stages[stage].state is Active
    &&& job.topology.consumers[stage].len() > 0
    &&& forall|i: int, p: int|
        0 <= i < job.topology.consumers[stage].len() && 0 <= p
            < job.graph.stages[job.topology.consumers[stage][i] as int].plan.partitions
            ==> #[trigger] ends_in(
            job,
            job.topology.consumers[stage][i] as int,
            p,
            TaskState::Succeeded,
        )
}

/// Whether a stage has to be released is told by the attempts before the refresh.
proof fn lemma_used_up(job_id: JobId, job: JobView, now: Timestamp, stage: int)
    requires
        job.well_formed(),
        job.state is Running,
        0 <= stage < job.stages.len(),
    ensures
        ({
            let canceled = canceled_regions(job_id, job, job.regions.len(), now).0;
            let extended = extended_output(job_id, canceled).0;
            &&& is_releasable(extended, stage) <==> is_used_up(job, stage)
            &&& extended.stages[stage].state == job.stages[stage].state
            &&& extended.stages[stage].stopped_at == job.stages[stage].stopped_at
        }),
{
    let canceled = canceled_regions(job_id, job, job.regions.len(), now).0;
    let extended = extended_output(job_id, canceled).0;
    lemma_canceled_regions(job_id, job, job.regions.len(), now);
    assert forall|s: int, p: int|
        0 <= s < job.stages.len() implies (#[trigger] extended.latest_state(s, p) == Some(
        TaskState::Succeeded,
    ) <==> ends_in(job, s, p, TaskState::Succeeded)) by {
        lemma_swept(job, s, p);
    }
    let consumers = job.topology.consumers[stage];
    if is_releasable(extended, stage) {
        assert forall|i: int, p: int|
            0 <= i < consumers.len() && 0 <= p < job.graph.stages[consumers[i] as int].plan.partitions
            implies #[trigger] ends_in(
            job,
            job.topology.consumers[stage][i] as int,
            p,
            TaskState::Succeeded,
        ) by {
            assert(consumers[i] < job.stages.len());
            assert(stage_succeeded(extended, consumers[i] as int));
            assert(extended.latest_state(consumers[i] as int, p) == Some(TaskState::Succeeded));
        }
    }
    if is_used_up(job, stage) {
        assert forall|i: int| 0 <= i < consumers.len() implies stage_succeeded(
            extended,
            (#[trigger] consumers[i]) as int,
        ) by {
            assert(job.topology.consumers[stage][i] < job.stages.len());
            assert forall|p: int|
                0 <= p < extended.graph.stages[consumers[i] as int].plan.partitions
                implies #[trigger] extended.latest_state(consumers[i] as int, p) == Some(
                TaskState::Succeeded,
            ) by {
                assert(ends_in(
                    job,
                    job.topology.consumers[stage][i] as int,
                    p,
                    TaskState::Succeeded,
                ));
            }
        }
    }
}

/// A refresh removes the output streams exactly of the stages that are used up, and of no job as a whole.
pub proof fn lemma_refresh_releases(
    options: SchedulerOptionsView,
    data: &Measurements,
    job_id: JobId,
    job: JobView,
    now: Timestamp,
    id: JobId,
    stage: Option<usize>,
)
    requires
        job.well_formed(),
        job.state is Running,
        is_countable(job),
    ensures
        refreshed_job(options, data, job_id, job, now).1.contains(
            ActionView::CleanUpJob { job_id: id, stage },
        ) <==> {
            &&& id == job_id
            &&& stage is Some
            &&& stage->0 < job.stages.len()
            &&& is_used_up(job, stage->0 as int)
        },
{
    let action = ActionView::CleanUpJob { job_id: id, stage };
    let canceled = canceled_regions(job_id, job, job.regions.len(), now).0;
    let extended = extended_output(job_id, canceled).0;
    lemma_refresh_parts(options, data, job_id, job, now, action);
    lemma_release_actions(job_id, extended, job.stages.len(), action);
    if stage is Some && stage->0 < job.stages.len() {
        lemma_used_up(job_id, job, now, stage->0 as int);
        if is_used_up(job, stage->0 as int) && id == job_id {
            assert(is_releasable(extended, stage->0 as int));
        }
    }
}

/// Whether a task has been attempted as often as it may be, without success: the last attempt has failed
/// or been canceled, or is about to be canceled.
pub open spec fn is_given_up(job: JobView, max: nat, stage: int, partition: int) -> bool {
    let state = job.stages[stage].tasks[partition].last().state;
    &&& has_been_tried(job, stage, partition)
    &&& job.stages[stage].tasks[partition].len() >= max
    &&& state == TaskState::Failed || state == TaskState::Canceled || (is_going(state) && is_swept(
        job,
        stage,
        partition,
    ))
}

/// Whether some task of a region is given up.
pub open spec fn is_lost(job: JobView, max: nat, region: int) -> bool {
    exists|s: int, p: int| #[trigger]
        has_member(job, region, s, p) && is_given_up(job, max, s, p)
}

/// Whether the last attempts at all tasks of a region have succeeded.
pub open spec fn is_complete(job: JobView, region: int) -> bool {
    forall|s: int, p: int| #[trigger]
        has_member(job, region, s, p) ==> ends_in(job, s, p, TaskState::Succeeded)
}

/// The state of a region is told by the last attempts at its tasks: it has failed if one of them is given
/// up, has succeeded if otherwise all of them have, and is running otherwise.
pub proof fn lemma_settled_region_states(max: nat, job_id: JobId, job: JobView, now: Timestamp)
    requires
        job.well_formed(),
        job.state is Running,
    ensures
        ({
            let after = settled_job(max, job_id, job, now).0;
            &&& after.regions.len() == job.regions.len()
            &&& forall|r: int|
                0 <= r < job.regions.len() ==> #[trigger] after.regions[r] == (if is_lost(
                    job,
                    max,
                    r,
                ) {
                    TaskRegionState::Failed
                } else if is_complete(job, r) {
                    TaskRegionState::Succeeded
                } else {
                    TaskRegionState::Running
                })
        }),
{
    let after = settled_job(max, job_id, job, now).0;
    let canceled = canceled_regions(job_id, job, job.regions.len(), now).0;
    let extended = extended_output(job_id, canceled).0;
    let released = with_released(extended, extended.stages.len(), now);
    lemma_settled_attempts(max, job_id, job, now);
    assert forall|s: int| 0 <= s < job.stages.len() implies (#[trigger] released.stages[s]).tasks
        == after.stages[s].tasks by {}
    assert forall|s: int, p: int| has_been_tried(job, s, p) implies {
        let old_attempt = job.stages[s].tasks[p].last();
        let stops = is_going(old_attempt.state) && is_swept(job, s, p);
        #[trigger] released.latest_state(s, p) == Some(
            if stops {
                TaskState::Canceled
            } else {
                old_attempt.state
            },
        ) && released.attempts(s, p).len() == job.stages[s].tasks[p].len()
    } by {
        let a = job.stages[s].tasks[p].len() - 1;
        let new_attempt = after.stages[s].tasks[p][a];
        assert(released.stages[s].tasks == after.stages[s].tasks);
        assert(after.stages[s].tasks[p].len() == a + 1);
    }
    assert forall|r: int| 0 <= r < job.regions.len() implies #[trigger] after.regions[r] == (
    if is_lost(job, max, r) {
        TaskRegionState::Failed
    } else if is_complete(job, r) {
        TaskRegionState::Succeeded
    } else {
        TaskRegionState::Running
    }) by {
        let tasks = released.region_tasks(r);
        assert(tasks == job.topology.regions[r].tasks);
        assert(after.regions[r] == region_state(released, max, r));
        assert forall|i: int| 0 <= i < tasks.len() implies {
            let t = #[trigger] tasks[i];
            &&& has_member(job, r, t.stage as int, t.partition as int)
            &&& is_exhausted(released, max, t) == is_given_up(
                job,
                max,
                t.stage as int,
                t.partition as int,
            )
            &&& has_succeeded(released, t) == ends_in(
                job,
                t.stage as int,
                t.partition as int,
                TaskState::Succeeded,
            )
        } by {
            let t = tasks[i];
            let s = t.stage as int;
            let p = t.partition as int;
            assert(job.topology.regions[r].tasks[i] == t);
            assert(job.region_tasks(r)[i] == t);
            assert(has_member(job, r, s, p));
            assert(released.stages[s].tasks == after.stages[s].tasks);
            assert(after.stages[s].tasks[p].len() == job.stages[s].tasks[p].len());
            if has_been_tried(job, s, p) {
                assert(released.latest_state(s, p) is Some);
            }
        }
        if is_lost(job, max, r) {
            let (s, p) = choose|s: int, p: int| #[trigger]
                has_member(job, r, s, p) && is_given_up(job, max, s, p);
            let i = choose|i: int|
                0 <= i < job.topology.regions[r].tasks.len() && (
                #[trigger] job.topology.regions[r].tasks[i]).stage == s
                    && job.topology.regions[r].tasks[i].partition == p;
            assert(is_exhausted(released, max, tasks[i]));
        }
        if exists|i: int| 0 <= i < tasks.len() && is_exhausted(released, max, #[trigger] tasks[i]) {
            let i = choose|i: int|
                0 <= i < tasks.len() && is_exhausted(released, max, #[trigger] tasks[i]);
            assert(has_member(job, r, tasks[i].stage as int, tasks[i].partition as int));
        }
        if is_complete(job, r) {
            assert forall|i: int| 0 <= i < tasks.len() implies has_succeeded(
                released,
                #[trigger] tasks[i],
            ) by {
                assert(has_member(job, r, tasks[i].stage as int, tasks[i].partition as int));
            }
        }
        if forall|i: int| 0 <= i < tasks.len() ==> has_succeeded(released, #[trigger] tasks[i]) {
            assert forall|s: int, p: int| #[trigger] has_member(job, r, s, p) implies ends_in(
                job,
                s,
                p,
                TaskState::Succeeded,
            ) by {
                let i = choose|i: int|
                    0 <= i < job.topology.regions[r].tasks.len() && (
                    #[trigger] job.topology.regions[r].tasks[i]).stage == s
                        && job.topology.regions[r].tasks[i].partition == p;
                assert(has_succeeded(released, tasks[i]));
            }
        }
    }
}

/// A refresh ends a job exactly in these cases. If some task is given up, the job fails. If otherwise the
/// last attempts at all tasks have succeeded, the job output is read to its end. In all other cases the
/// job goes on. The stages that are used up become inactive.
pub proof fn lemma_refresh_ends(
    options: SchedulerOptionsView,
    data: &Measurements,
    job_id: JobId,
    job: JobView,
    now: Timestamp,
)
    requires
        job.well_formed(),
        job.state is Running,
    ensures
        ({
            let max = options.task_max_attempts as nat;
            let after = refreshed_job(options, data, job_id, job, now).0;
            let lost = exists|r: int| 0 <= r < job.regions.len() && #[trigger] is_lost(job, max, r);
            let complete = forall|r: int|
                0 <= r < job.regions.len() ==> #[trigger] is_complete(job, r);
            &&& after.state == (if lost {
                JobState::Failed
            } else if complete {
                JobState::Draining
            } else {
                job.state
            })
            &&& after.stopped_at == (if lost {
                Some(now)
            } else {
                job.stopped_at
            })
            &&& after.created_at == job.created_at
            &&& after.regions == settled_job(max, job_id, job, now).0.regions
            &&& lost || complete ==> {
                &&& after.stages == settled_job(max, job_id, job, now).0.stages
                &&& after.graph == job.graph
                &&& after.topology == job.topology
                &&& forall|i: int|
                    0 <= i < refreshed_job(options, data, job_id, job, now).1.len() ==> !((
                    #[trigger] refreshed_job(options, data, job_id, job, now).1[i]) is ScheduleTaskRegion)
            }
            &&& forall|s: int|
                0 <= s < job.stages.len() ==> {
                    let new_stage = #[trigger] settled_job(max, job_id, job, now).0.stages[s];
                    &&& new_stage.state == (if is_used_up(job, s) {
                        StageState::Inactive
                    } else {
                        job.stages[s].state
                    })
                    &&& new_stage.stopped_at == (if is_used_up(job, s) {
                        Some(now)
                    } else {
                        job.stages[s].stopped_at
                    })
                }
        }),
{
    let max = options.task_max_attempts as nat;
    let (settled, actions) = settled_job(max, job_id, job, now);
    let lost = exists|r: int| 0 <= r < job.regions.len() && #[trigger] is_lost(job, max, r);
    let complete = forall|r: int| 0 <= r < job.regions.len() ==> #[trigger] is_complete(job, r);
    lemma_settled_attempts(max, job_id, job, now);
    lemma_settled_region_states(max, job_id, job, now);
    lemma_scheduled_keeps(options, data, job_id, settled, settled.regions.len(), now);
    if lost {
        let r = choose|r: int| 0 <= r < job.regions.len() && #[trigger] is_lost(job, max, r);
        assert(settled.regions[r] is Failed);
    } else {
        assert forall|r: int| 0 <= r < settled.regions.len() implies !((
        #[trigger] settled.regions[r]) is Failed) by {
            assert(!is_lost(job, max, r));
        }
        if complete {
            assert forall|r: int| 0 <= r < settled.regions.len() implies (
            #[trigger] settled.regions[r]) is Succeeded by {
                assert(!is_lost(job, max, r) && is_complete(job, r));
            }
        } else {
            let r = choose|r: int| 0 <= r < job.regions.len() && !#[trigger] is_complete(job, r);
            assert(!is_lost(job, max, r));
            assert(!(settled.regions[r] is Succeeded));
        }
    }
    assert forall|s: int| 0 <= s < job.stages.len() implies {
        let new_stage = #[trigger] settled_job(max, job_id, job, now).0.stages[s];
        &&& new_stage.state == (if is_used_up(job, s) {
            StageState::Inactive
        } else {
            job.stages[s].state
        })
        &&& new_stage.stopped_at == (if is_used_up(job, s) {
            Some(now)
        } else {
            job.stages[s].stopped_at
        })
    } by {
        lemma_used_up(job_id, job, now, s);
    }
    let canceled = canceled_regions(job_id, job, job.regions.len(), now);
    let extended = extended_output(job_id, canceled.0);
    lemma_canceled_regions(job_id, job, job.regions.len(), now);
    if lost || complete {
        lemma_only_cancels(job_id, job, job.regions.len(), now);
        let all = refreshed_job(options, data, job_id, job, now).1;
        assert forall|i: int| 0 <= i < all.len() implies !((#[trigger] all[i]) is ScheduleTaskRegion) by {
            let action = all[i];
            lemma_output_actions(job_id, canceled.0, job.state->output, action);
            let released = release_actions(job_id, extended.0, job.stages.len());
            if i < canceled.1.len() {
                assert(canceled.1[i] == action);
            } else if i < canceled.1.len() + extended.1.len() {
                assert(extended.1[i - canceled.1.len()] == action);
                assert(extended.1.contains(action));
            } else if i < actions.len() {
                let k = i - canceled.1.len() - extended.1.len();
                assert(released[k] == action);
                lemma_only_releases(job_id, extended.0, job.stages.len());
            }
        }
    }
}

/// Releasing stages calls for nothing else.
pub proof fn lemma_only_releases(job_id: JobId, job: JobView, n: nat)
    ensures
        forall|i: int|
            0 <= i < release_actions(job_id, job, n).len() ==> (
            #[trigger] release_actions(job_id, job, n)[i]) is CleanUpJob,
    decreases n,
{
    if n > 0 {
        lemma_only_releases(job_id, job, (n - 1) as nat);
    }
}

/// Whether an attempt has failed for a known reason.
pub open spec fn fails_knowingly(attempt: AttemptView) -> bool {
    attempt.state == TaskState::Failed && attempt.cause is Some
}

/// How many attempts at a task have failed for a known reason.
pub open spec fn known_failures(job: JobView, stage: int, partition: int) -> nat {
    job.stages[stage].tasks[partition].filter(|a: AttemptView| fails_knowingly(a)).len()
}

/// Whether an attempt tells why a job has failed: it has failed for a known reason, no later attempt at the
/// same task has, no task has failed so more often, and none that comes earlier has failed so as often.
pub open spec fn is_telling(job: JobView, stage: int, partition: int, attempt: int) -> bool {
    &&& 0 <= stage < job.stages.len()
    &&& 0 <= partition < job.stages[stage].tasks.len()
    &&& 0 <= attempt < job.stages[stage].tasks[partition].len()
    &&& fails_knowingly(job.stages[stage].tasks[partition][attempt])
    &&& forall|a: int|
        attempt < a < job.stages[stage].tasks[partition].len() ==> !fails_knowingly(
            #[trigger] job.stages[stage].tasks[partition][a],
        )
    &&& forall|s: int, p: int|
        0 <= s < job.stages.len() && 0 <= p < job.stages[s].tasks.len() ==> {
            let here = known_failures(job, stage, partition);
            let there = #[trigger] known_failures(job, s, p);
            there < here || (there == here && (stage < s || (stage == s && partition <= p)))
        }
}

/// Whether no attempt of a job has failed for a known reason.
pub open spec fn fails_unexplained(job: JobView) -> bool {
    forall|s: int, p: int, a: int|
        0 <= s < job.stages.len() && 0 <= p < job.stages[s].tasks.len() && 0 <= a
            < job.stages[s].tasks[p].len() ==> !fails_knowingly(
            #[trigger] job.stages[s].tasks[p][a],
        )
}

/// The last attempt with a property is the last one that is left of the attempts when the others are taken
/// out.
proof fn lemma_last_kept(attempts: TaskView, f: spec_fn(AttemptView) -> bool) -> (r: int)
    requires
        attempts.filter(f).len() > 0,
    ensures
        0 <= r < attempts.len(),
        f(attempts[r]),
        attempts[r] == attempts.filter(f).last(),
        forall|a: int| r < a < attempts.len() ==> !f(#[trigger] attempts[a]),
    decreases attempts.len(),
{
    reveal(Seq::filter);
    if f(attempts.last()) {
        attempts.len() - 1
    } else {
        let rest = attempts.drop_last();
        let r = lemma_last_kept(rest, f);
        assert forall|a: int| r < a < attempts.len() implies !f(#[trigger] attempts[a]) by {
            if a < rest.len() {
                assert(!f(rest[a]));
            }
        }
        r
    }
}

/// Some task has failed for a known reason most often, if any has.
proof fn lemma_most_failing_exists(job: JobView, stage: int, partition: int, bound: nat)
    requires
        job.has_task(stage, partition),
        failures(job, stage, partition) > 0,
        forall|s: int, p: int| job.has_task(s, p) ==> #[trigger] failures(job, s, p) <= bound,
    ensures
        exists|s: int, p: int| most_failing(job, s, p),
    decreases bound - failures(job, stage, partition), stage, partition,
{
    if !most_failing(job, stage, partition) {
        let (s, p) = choose|s: int, p: int|
            #![trigger job.attempts(s, p)]
            job.has_task(s, p) && !(failures(job, s, p) < failures(job, stage, partition) || (
            failures(job, s, p) == failures(job, stage, partition) && (stage < s || (stage == s
                && partition <= p))));
        assert(failures(job, s, p) <= bound);
        lemma_most_failing_exists(job, s, p, bound);
    }
}

/// The numbers of failures are bounded.
proof fn lemma_failures_bounded(job: JobView, n: nat) -> (r: nat)
    requires
        n <= job.stages.len(),
    ensures
        forall|s: int, p: int|
            job.has_task(s, p) && s < n ==> #[trigger] failures(job, s, p) <= r,
    decreases n,
{
    if n == 0 {
        0
    } else {
        let before = lemma_failures_bounded(job, (n - 1) as nat);
        let here = lemma_stage_failures_bounded(job, n - 1, job.stages[n - 1].tasks.len());
        before + here
    }
}

/// The numbers of failures of the tasks of a stage are bounded.
proof fn lemma_stage_failures_bounded(job: JobView, stage: int, n: nat) -> (r: nat)
    ensures
        forall|p: int| 0 <= p < n ==> #[trigger] failures(job, stage, p) <= r,
    decreases n,
{
    if n == 0 {
        0
    } else {
        lemma_stage_failures_bounded(job, stage, (n - 1) as nat) + failures(job, stage, n - 1)
    }
}

/// Why a job has failed is told by the last known reason of the task that has failed for a known reason
/// most often, and of several such tasks by the first one. If no reason is known, that is said.
pub proof fn lemma_failure_told(job: JobView)
    ensures
        if fails_unexplained(job) {
            failure_cause(job) == CauseView::Internal("job failed for unknown reason"@)
        } else {
            exists|s: int, p: int, a: int| #[trigger]
                is_telling(job, s, p, a) && failure_cause(job)
                    == job.stages[s].tasks[p][a].cause->0@
        },
{
    let f = |a: AttemptView| fails_knowingly(a);
    let g = |a: AttemptView| a.state is Failed && a.cause is Some;
    assert(f =~= g);
    assert forall|s: int, p: int| #[trigger] known_failures(job, s, p) == failures(job, s, p) by {}
    if fails_unexplained(job) {
        assert forall|s: int, p: int| !most_failing(job, s, p) by {
            if most_failing(job, s, p) {
                let a = lemma_last_kept(job.attempts(s, p), g);
                assert(!fails_knowingly(job.stages[s].tasks[p][a]));
            }
        }
    } else {
        let (s0, p0, a0) = choose|s: int, p: int, a: int|
            0 <= s < job.stages.len() && 0 <= p < job.stages[s].tasks.len() && 0 <= a
                < job.stages[s].tasks[p].len() && fails_knowingly(
                #[trigger] job.stages[s].tasks[p][a],
            );
        let attempts = job.stages[s0].tasks[p0];
        assert(attempts.filter(g).contains(attempts[a0]));
        let bound = lemma_failures_bounded(job, job.stages.len());
        lemma_most_failing_exists(job, s0, p0, bound);
        let (s, p) = choose|s: int, p: int| most_failing(job, s, p);
        let a = lemma_last_kept(job.attempts(s, p), g);
        assert forall|s2: int, p2: int|
            0 <= s2 < job.stages.len() && 0 <= p2 < job.stages[s2].tasks.len() implies {
            let here = known_failures(job, s, p);
            let there = #[trigger] known_failures(job, s2, p2);
            there < here || (there == here && (s < s2 || (s == s2 && p <= p2)))
        } by {
            assert(job.has_task(s2, p2));
            let t = job.attempts(s2, p2);
        }
        assert forall|b: int| a < b < job.stages[s].tasks[p].len() implies !fails_knowingly(
            #[trigger] job.stages[s].tasks[p][b],
        ) by {
            assert(!g(job.attempts(s, p)[b]));
        }
        assert(is_telling(job, s, p, a));
    }
}

/// Counting attempts with a property, it is enough to know which ones have it.
proof fn lemma_same_count(a: TaskView, b: TaskView, f: spec_fn(AttemptView) -> bool)
    requires
        a.len() == b.len(),
        forall|i: int| 0 <= i < a.len() ==> f(#[trigger] a[i]) == f(b[i]),
    ensures
        a.filter(f).len() == b.filter(f).len(),
    decreases a.len(),
{
    reveal(Seq::filter);
    if a.len() > 0 {
        lemma_same_count(a.drop_last(), b.drop_last(), f);
    }
}

/// A refresh that fails a job says why: the reason is told by an attempt of the job. No other refresh
/// makes the job output fail.
pub proof fn lemma_refresh_explains(
    options: SchedulerOptionsView,
    data: &Measurements,
    job_id: JobId,
    job: JobView,
    now: Timestamp,
    handle: JobOutputHandle,
    cause: CauseView,
)
    requires
        job.well_formed(),
        job.state is Running,
        is_countable(job),
    ensures
        ({
            let max = options.task_max_attempts as nat;
            let lost = exists|r: int| 0 <= r < job.regions.len() && #[trigger] is_lost(job, max, r);
            let all = refreshed_job(options, data, job_id, job, now).1;
            let fails = all.contains(ActionView::FailJobOutput { handle, cause });
            &&& fails ==> lost && handle == job.state->output
            &&& fails && fails_unexplained(job) ==> cause == CauseView::Internal(
                "job failed for unknown reason"@,
            )
            &&& fails && !fails_unexplained(job) ==> exists|s: int, p: int, a: int| #[trigger]
                is_telling(job, s, p, a) && cause == job.stages[s].tasks[p][a].cause->0@
            &&& lost ==> all.len() > 0 && all.last() is FailJobOutput && all.last()->FailJobOutput_handle
                == job.state->output
        }),
{
    let max = options.task_max_attempts as nat;
    let action = ActionView::FailJobOutput { handle, cause };
    let (settled, actions) = settled_job(max, job_id, job, now);
    let canceled = canceled_regions(job_id, job, job.regions.len(), now);
    let extended = extended_output(job_id, canceled.0);
    let released = release_actions(job_id, extended.0, job.stages.len());
    let output = job.state->output;
    let all = refreshed_job(options, data, job_id, job, now).1;
    let more = scheduled_regions(options, data, job_id, settled, settled.regions.len(), now).1;
    lemma_canceled_regions(job_id, job, job.regions.len(), now);
    lemma_settled_attempts(max, job_id, job, now);
    lemma_refresh_ends(options, data, job_id, job, now);
    lemma_only_cancels(job_id, job, job.regions.len(), now);
    lemma_only_schedules(options, data, job_id, settled, settled.regions.len(), now);
    lemma_output_actions(job_id, canceled.0, output, action);
    lemma_release_actions(job_id, extended.0, job.stages.len(), action);
    lemma_contains_join(canceled.1, extended.1, action);
    lemma_contains_join(canceled.1 + extended.1, released, action);
    lemma_contains_join(actions, more, action);
    assert(actions == canceled.1 + extended.1 + released);
    if canceled.1.contains(action) {
        let i = canceled.1.index_of(action);
        assert(canceled.1[i] is CancelTask);
    }
    if more.contains(action) {
        let i = more.index_of(action);
        assert(more[i] is ScheduleTaskRegion);
    }
    assert(!actions.contains(action));
    let told = failure_cause(settled);
    lemma_contains_push(
        actions,
        ActionView::FailJobOutput { handle: output, cause: told },
        action,
    );
    lemma_settled_region_states(max, job_id, job, now);
    if any_region_failed(settled) {
        let r = choose|r: int|
            0 <= r < settled.regions.len() && (#[trigger] settled.regions[r]) is Failed;
        assert(is_lost(job, max, r));
    }
    if exists|r: int| 0 <= r < job.regions.len() && #[trigger] is_lost(job, max, r) {
        let r = choose|r: int| 0 <= r < job.regions.len() && #[trigger] is_lost(job, max, r);
        assert(settled.regions[r] is Failed);
        assert(any_region_failed(settled));
        assert(all == actions.push(ActionView::FailJobOutput { handle: output, cause: told }));
    }
    if all.contains(action) {
        assert(cause == told);
        lemma_failure_told(settled);
        assert forall|s: int, p: int|
            0 <= s < job.stages.len() && 0 <= p < job.stages[s].tasks.len() implies #[trigger] known_failures(
            settled,
            s,
            p,
        ) == known_failures(job, s, p) by {
            let f = |a: AttemptView| fails_knowingly(a);
            assert(settled.stages[s].tasks[p].len() == job.stages[s].tasks[p].len());
            assert forall|i: int| 0 <= i < settled.stages[s].tasks[p].len() implies f(
                #[trigger] settled.stages[s].tasks[p][i],
            ) == f(job.stages[s].tasks[p][i]) by {}
            lemma_same_count(settled.stages[s].tasks[p], job.stages[s].tasks[p], f);
        }
        if fails_unexplained(job) {
            assert(fails_unexplained(settled));
        } else {
            let (s0, p0, a0) = choose|s: int, p: int, a: int|
                0 <= s < job.stages.len() && 0 <= p < job.stages[s].tasks.len() && 0 <= a
                    < job.stages[s].tasks[p].len() && fails_knowingly(
                    #[trigger] job.stages[s].tasks[p][a],
                );
            assert(fails_knowingly(settled.stages[s0].tasks[p0][a0]));
            assert(settled.stages[s0].tasks.len() == job.stages[s0].tasks.len());
            let (s, p, a) = choose|s: int, p: int, a: int| #[trigger]
                is_telling(settled, s, p, a) && told == settled.stages[s].tasks[p][a].cause->0@;
            assert(settled.stages[s].tasks.len() == job.stages[s].tasks.len());
            assert(settled.stages[s].tasks[p].len() == job.stages[s].tasks[p].len());
            assert(settled.stages[s].tasks[p][a].cause == job.stages[s].tasks[p][a].cause);
            assert forall|b: int| a < b < job.stages[s].tasks[p].len() implies !fails_knowingly(
                #[trigger] job.stages[s].tasks[p][b],
            ) by {
                assert(!fails_knowingly(settled.stages[s].tasks[p][b]));
            }
            assert forall|s2: int, p2: int|
                0 <= s2 < job.stages.len() && 0 <= p2 < job.stages[s2].tasks.len() implies {
                let here = known_failures(job, s, p);
                let there = #[trigger] known_failures(job, s2, p2);
                there < here || (there == here && (s < s2 || (s == s2 && p <= p2)))
            } by {
                assert(settled.stages[s2].tasks.len() == job.stages[s2].tasks.len());
                assert(known_failures(settled, s2, p2) == known_failures(job, s2, p2));
            }
            assert(is_telling(job, s, p, a));
        }
    }
}

}

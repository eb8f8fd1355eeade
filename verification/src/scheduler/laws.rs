//! What holds of the scheduler across its operations.

use crate::action::ActionView;
use crate::adaptive::covers;
use crate::clock::Timestamp;
use crate::error::{ExecutionError, ExecutionResult};
use crate::id::{JobId, TaskKey};
use crate::job_graph::{InputMode, JobGraph};
use crate::lists::{lemma_contains_flatten, lemma_flatten_empty};
use crate::scheduler::adapt::{input_ranges, lemma_ranges_fit};
use crate::scheduler::cancel::{
    attempts_countable, cancel_actions, canceled_regions, canceled_tasks, has_failed, has_failure,
    is_doomed, is_live_attempt, lemma_cancel_actions_exact, lemma_canceled_regions,
    lemma_failure_kept, lemma_nothing_to_cancel,
};
use crate::scheduler::input::{input_cells, lemma_groups_read_everything};
use crate::scheduler::lifecycle::{
    cleaned_job, is_open, job_cancel_actions, lemma_settled_shape, refreshed_job, reported_attempt,
    settled_job, stage_cancel_actions, stopped_job,
};
use crate::scheduler::options::SchedulerOptionsView;
use crate::scheduler::output::{
    consumers_succeeded, extended_output, has_new_output, is_releasable, release_actions,
    stage_output_actions, stage_succeeded, task_output_actions, with_all_output_fetched,
    with_output_fetched, with_released,
};
use crate::scheduler::progress::{has_succeeded, is_exhausted, region_state, with_region_states};
use crate::scheduler::schedule::{
    adapted_if_enabled, dependencies_succeeded, is_live, is_ready, lemma_adapted_if_enabled,
    lemma_new_attempts, lemma_scheduled_keeps, prepared_region, scheduled_regions,
    with_new_attempts,
};
use crate::scheduler::{accepts, reported, stopped, task_state, SchedulerView};
use crate::measurements::Measurements;
use crate::state::{
    canceled_attempts, AttemptView, ErrorCause, JobOutputHandle, JobState, JobView,
    TaskContextHandle, TaskState, TaskView,
};
use crate::topology::{JobTopology, TaskTopology};
use vstd::prelude::*;

verus! {

/// Whether all attempts at a task have stopped.
pub open spec fn all_stopped(attempts: TaskView) -> bool {
    forall|a: int| 0 <= a < attempts.len() ==> (#[trigger] attempts[a]).state.terminal()
}

/// Canceling attempts that have stopped changes nothing.
proof fn lemma_stopped_unchanged(attempts: TaskView, now: Timestamp)
    requires
        all_stopped(attempts),
    ensures
        canceled_attempts(attempts, now) == attempts,
{
    assert(canceled_attempts(attempts, now) =~= attempts);
}

/// Replacing the attempts at a task by themselves changes nothing.
proof fn lemma_same_attempts(job: JobView, s: int, p: int)
    requires
        job.has_task(s, p),
    ensures
        job.with_attempts(s, p, job.attempts(s, p)) == job,
{
    let after = job.with_attempts(s, p, job.attempts(s, p));
    assert(after.stages[s].tasks =~= job.stages[s].tasks);
    assert(after.stages =~= job.stages);
}

/// Canceling tasks whose attempts have all stopped does nothing.
proof fn lemma_cancel_stopped_tasks(
    job_id: JobId,
    job: JobView,
    tasks: Seq<TaskTopology>,
    now: Timestamp,
)
    requires
        forall|i: int|
            0 <= i < tasks.len() ==> {
                &&& job.has_task((#[trigger] tasks[i]).stage as int, tasks[i].partition as int)
                &&& all_stopped(job.attempts(tasks[i].stage as int, tasks[i].partition as int))
            },
    ensures
        canceled_tasks(job_id, job, tasks, now) == (job, Seq::<ActionView>::empty()),
    decreases tasks.len(),
{
    if tasks.len() > 0 {
        let rest = tasks.drop_last();
        assert forall|i: int| 0 <= i < rest.len() implies {
            &&& job.has_task((#[trigger] rest[i]).stage as int, rest[i].partition as int)
            &&& all_stopped(job.attempts(rest[i].stage as int, rest[i].partition as int))
        } by {
            assert(rest[i] == tasks[i]);
        }
        lemma_cancel_stopped_tasks(job_id, job, rest, now);
        let t = tasks[tasks.len() - 1];
        let attempts = job.attempts(t.stage as int, t.partition as int);
        lemma_stopped_unchanged(attempts, now);
        lemma_nothing_to_cancel(job_id, t.stage, t.partition, attempts, attempts.len());
        lemma_same_attempts(job, t.stage as int, t.partition as int);
        assert(Seq::<ActionView>::empty() + Seq::<ActionView>::empty() =~= Seq::empty());
    }
}

/// Canceling regions does nothing if all attempts in those with a failure have stopped.
proof fn lemma_cancel_stopped_regions(job_id: JobId, job: JobView, n: nat, now: Timestamp)
    requires
        job.well_formed(),
        n <= job.regions.len(),
        forall|r: int, i: int|
            0 <= r < n && 0 <= i < job.region_tasks(r).len() && has_failure(job, r) ==> all_stopped(
                job.attempts(
                    (#[trigger] job.region_tasks(r)[i]).stage as int,
                    job.region_tasks(r)[i].partition as int,
                ),
            ),
    ensures
        canceled_regions(job_id, job, n, now) == (job, Seq::<ActionView>::empty()),
    decreases n,
{
    if n > 0 {
        lemma_cancel_stopped_regions(job_id, job, (n - 1) as nat, now);
        if has_failure(job, n - 1) {
            let tasks = job.region_tasks(n - 1);
            assert forall|i: int| 0 <= i < tasks.len() implies {
                &&& job.has_task((#[trigger] tasks[i]).stage as int, tasks[i].partition as int)
                &&& all_stopped(job.attempts(tasks[i].stage as int, tasks[i].partition as int))
            } by {
                assert(tasks[i] == job.region_tasks(n - 1)[i]);
            }
            lemma_cancel_stopped_tasks(job_id, job, tasks, now);
            assert(Seq::<ActionView>::empty() + Seq::<ActionView>::empty() =~= Seq::empty());
        }
    }
}

/// Adding output to the job output does nothing if there is no new output.
proof fn lemma_no_new_output(job_id: JobId, job: JobView)
    requires
        forall|s: int, p: int| job.has_task(s, p) ==> !#[trigger] has_new_output(job, s, p),
    ensures
        extended_output(job_id, job) == (job, Seq::<ActionView>::empty()),
{
    if let JobState::Running { output, .. } = job.state {
        let after = with_all_output_fetched(job);
        assert forall|s: int| 0 <= s < job.stages.len() implies #[trigger] after.stages[s]
            == job.stages[s] by {
            assert forall|p: int| 0 <= p < job.stages[s].tasks.len() implies
                #[trigger] after.stages[s].tasks[p] == job.stages[s].tasks[p] by {
                assert(!has_new_output(job, s, p));
            }
            assert(after.stages[s].tasks =~= job.stages[s].tasks);
        }
        assert(after.stages =~= job.stages);
        let all = Seq::new(
            job.stages.len(),
            |s: int| stage_output_actions(job_id, job, output, s),
        );
        assert forall|s: int| 0 <= s < all.len() implies (#[trigger] all[s]).len() == 0 by {
            let parts = Seq::new(
                job.stages[s].tasks.len(),
                |p: int| task_output_actions(job_id, job, output, s, p),
            );
            assert forall|p: int| 0 <= p < parts.len() implies (#[trigger] parts[p]).len() == 0 by {
                assert(!has_new_output(job, s, p));
            }
            lemma_flatten_empty(parts);
        }
        lemma_flatten_empty(all);
    }
}

/// Releasing stages does nothing if none can be released.
proof fn lemma_nothing_to_release(job_id: JobId, job: JobView, n: nat, now: Timestamp)
    requires
        n <= job.stages.len(),
        forall|s: int| 0 <= s < n ==> !#[trigger] is_releasable(job, s),
    ensures
        with_released(job, n, now) == job,
        release_actions(job_id, job, n) == Seq::<ActionView>::empty(),
    decreases n,
{
    assert(with_released(job, n, now).stages =~= job.stages);
    if n > 0 {
        assert(!is_releasable(job, n - 1));
        lemma_nothing_to_release(job_id, job, (n - 1) as nat, now);
    }
}

/// Whether two jobs agree on the state of every attempt.
pub open spec fn same_attempt_states(a: JobView, b: JobView) -> bool {
    &&& a.stages.len() == b.stages.len()
    &&& forall|s: int|
        0 <= s < a.stages.len() ==> (#[trigger] a.stages[s]).tasks.len() == b.stages[s].tasks.len()
    &&& forall|s: int, p: int|
        #![trigger a.attempts(s, p)]
        #![trigger b.attempts(s, p)]
        a.has_task(s, p) ==> {
            &&& a.attempts(s, p).len() == b.attempts(s, p).len()
            &&& forall|i: int|
                0 <= i < a.attempts(s, p).len() ==> (#[trigger] a.attempts(s, p)[i]).state
                    == b.attempts(s, p)[i].state
        }
}

/// Jobs that agree on the state of every attempt agree on the latest states.
proof fn lemma_same_latest_state(a: JobView, b: JobView, s: int, p: int)
    requires
        same_attempt_states(a, b),
    ensures
        a.latest_state(s, p) == b.latest_state(s, p),
        a.has_task(s, p) == b.has_task(s, p),
{
    if 0 <= s < a.stages.len() {
        assert(a.stages[s].tasks.len() == b.stages[s].tasks.len());
    }
    if a.has_task(s, p) && a.attempts(s, p).len() > 0 {
        let last = a.attempts(s, p).len() - 1;
        assert(a.attempts(s, p)[last].state == b.attempts(s, p)[last].state);
    }
}

/// Jobs with the same regions that agree on the state of every attempt agree on the failures.
proof fn lemma_same_failure(a: JobView, b: JobView, region: int)
    requires
        same_attempt_states(a, b),
        a.topology == b.topology,
    ensures
        has_failure(a, region) == has_failure(b, region),
{
    assert forall|t: TaskTopology| #[trigger] has_failed(a, t) == has_failed(b, t) by {
        lemma_same_latest_state(a, b, t.stage as int, t.partition as int);
    }
    if has_failure(a, region) {
        let i = choose|i: int|
            0 <= i < a.region_tasks(region).len() && has_failed(
                a,
                #[trigger] a.region_tasks(region)[i],
            );
        assert(has_failed(b, b.region_tasks(region)[i]));
    }
    if has_failure(b, region) {
        let i = choose|i: int|
            0 <= i < b.region_tasks(region).len() && has_failed(
                b,
                #[trigger] b.region_tasks(region)[i],
            );
        assert(has_failed(a, a.region_tasks(region)[i]));
    }
}

/// Jobs with the same connections that agree on the state of every attempt agree on whether all
/// consumers of a stage have succeeded.
proof fn lemma_same_consumers(a: JobView, b: JobView, stage: int)
    requires
        same_attempt_states(a, b),
        a.topology == b.topology,
        a.graph == b.graph,
    ensures
        consumers_succeeded(a, stage)
            == consumers_succeeded(b, stage),
{
    assert forall|c: int| #[trigger]
        stage_succeeded(a, c)
            == stage_succeeded(b, c) by {
        assert forall|p: int| #[trigger] a.latest_state(c, p) == b.latest_state(c, p) by {
            lemma_same_latest_state(a, b, c, p);
        }
        if stage_succeeded(a, c) {
            assert forall|p: int| 0 <= p < b.graph.stages[c].plan.partitions implies
                #[trigger] b.latest_state(c, p) == Some(TaskState::Succeeded) by {
                assert(a.latest_state(c, p) == Some(TaskState::Succeeded));
            }
        }
        if stage_succeeded(b, c) {
            assert forall|p: int| 0 <= p < a.graph.stages[c].plan.partitions implies
                #[trigger] a.latest_state(c, p) == Some(TaskState::Succeeded) by {
                assert(b.latest_state(c, p) == Some(TaskState::Succeeded));
            }
        }
    }
    let consumers = a.topology.consumers[stage];
    if consumers_succeeded(a, stage) {
        assert forall|i: int| 0 <= i < consumers.len() implies
            stage_succeeded(b, (#[trigger] consumers[i]) as int) by {
            assert(stage_succeeded(a, consumers[i] as int));
        }
    }
    if consumers_succeeded(b, stage) {
        assert forall|i: int| 0 <= i < consumers.len() implies
            stage_succeeded(a, (#[trigger] consumers[i]) as int) by {
            assert(stage_succeeded(b, consumers[i] as int));
        }
    }
}

/// Jobs with the same regions that agree on the state of every attempt agree on the region states.
proof fn lemma_same_region_state(a: JobView, b: JobView, max_attempts: nat, region: int)
    requires
        same_attempt_states(a, b),
        a.topology == b.topology,
    ensures
        region_state(a, max_attempts, region) == region_state(b, max_attempts, region),
{
    let tasks = a.region_tasks(region);
    assert forall|t: TaskTopology|
        #![trigger is_exhausted(a, max_attempts, t)]
        #![trigger has_succeeded(a, t)]
        is_exhausted(a, max_attempts, t) == is_exhausted(b, max_attempts, t) && has_succeeded(a, t)
            == has_succeeded(b, t) by {
        let s = t.stage as int;
        let p = t.partition as int;
        lemma_same_latest_state(a, b, s, p);
        if a.has_task(s, p) {
            assert(a.attempts(s, p).len() == b.attempts(s, p).len());
        }
    }
    assert(b.region_tasks(region) == tasks);
    assert forall|i: int| 0 <= i < tasks.len() implies is_exhausted(
        a,
        max_attempts,
        #[trigger] tasks[i],
    ) == is_exhausted(b, max_attempts, tasks[i]) && has_succeeded(a, tasks[i]) == has_succeeded(
        b,
        tasks[i],
    ) by {}
}

/// Once what tasks have reported has been dealt with, no attempt in a region with a failure is live, no
/// output is left to be added to the job output, and no stage is left to be released.
pub proof fn lemma_settled_leaves_nothing(
    max_attempts: nat,
    job_id: JobId,
    job: JobView,
    now: Timestamp,
)
    requires
        job.well_formed(),
        job.state is Running,
    ensures
        ({
            let settled = settled_job(max_attempts, job_id, job, now).0;
            &&& forall|r: int, i: int|
                0 <= r < settled.regions.len() && 0 <= i < settled.region_tasks(r).len()
                    && has_failure(settled, r) ==> all_stopped(
                    settled.attempts(
                        (#[trigger] settled.region_tasks(r)[i]).stage as int,
                        settled.region_tasks(r)[i].partition as int,
                    ),
                )
            &&& forall|s: int, p: int|
                settled.has_task(s, p) ==> !#[trigger] has_new_output(settled, s, p)
            &&& forall|s: int|
                0 <= s < settled.stages.len() ==> !#[trigger] is_releasable(settled, s)
        }),
{
    let n = job.regions.len();
    let canceled = canceled_regions(job_id, job, n, now).0;
    let extended = extended_output(job_id, canceled).0;
    let m = extended.stages.len();
    let settled = settled_job(max_attempts, job_id, job, now).0;
    lemma_settled_shape(max_attempts, job_id, job, now);
    lemma_canceled_regions(job_id, job, n, now);
    assert(extended == with_all_output_fetched(canceled));
    assert(same_attempt_states(canceled, settled)) by {
        assert forall|s: int, p: int|
            #![trigger canceled.attempts(s, p)]
            #![trigger settled.attempts(s, p)]
            canceled.has_task(s, p) implies {
            &&& canceled.attempts(s, p).len() == settled.attempts(s, p).len()
            &&& forall|i: int|
                0 <= i < canceled.attempts(s, p).len() ==> (
                #[trigger] canceled.attempts(s, p)[i]).state == settled.attempts(s, p)[i].state
        } by {
            assert(settled.attempts(s, p) == extended.attempts(s, p));
        }
        assert forall|s: int| 0 <= s < canceled.stages.len() implies (
        #[trigger] canceled.stages[s]).tasks.len() == settled.stages[s].tasks.len() by {
            assert(settled.stages[s].tasks == extended.stages[s].tasks);
        }
    }
    assert forall|r: int, i: int|
        0 <= r < settled.regions.len() && 0 <= i < settled.region_tasks(r).len() && has_failure(
            settled,
            r,
        ) implies all_stopped(
        settled.attempts(
            (#[trigger] settled.region_tasks(r)[i]).stage as int,
            settled.region_tasks(r)[i].partition as int,
        ),
    ) by {
        let s = settled.region_tasks(r)[i].stage as int;
        let p = settled.region_tasks(r)[i].partition as int;
        assert(settled.region_tasks(r) == job.region_tasks(r));
        lemma_same_failure(canceled, settled, r);
        let doomed = |a: int, b: int| is_doomed(job, n, a, b);
        lemma_failure_kept(job, doomed, now, r);
        assert(has_failure(job, r));
        assert(job.region_tasks(r)[i].stage == s);
        assert(is_doomed(job, n, s, p));
        assert(job.has_task(s, p));
        assert(canceled.attempts(s, p) == canceled_attempts(job.attempts(s, p), now));
        let attempts = settled.attempts(s, p);
        assert(canceled.has_task(s, p));
        assert forall|a: int| 0 <= a < attempts.len() implies (
        #[trigger] attempts[a]).state.terminal() by {
            assert(canceled.attempts(s, p)[a].state == settled.attempts(s, p)[a].state);
        }
    }
    assert forall|s: int, p: int| settled.has_task(s, p) implies !#[trigger] has_new_output(
        settled,
        s,
        p,
    ) by {
        assert(settled.attempts(s, p) == extended.attempts(s, p));
        lemma_same_latest_state(canceled, settled, s, p);
        assert(canceled.has_task(s, p));
        if has_new_output(canceled, s, p) {
            assert(extended.attempts(s, p) == with_output_fetched(canceled.attempts(s, p)));
        } else {
            assert(extended.attempts(s, p) == canceled.attempts(s, p));
        }
    }
    assert forall|s: int| 0 <= s < settled.stages.len() implies !#[trigger] is_releasable(
        settled,
        s,
    ) by {
        assert(same_attempt_states(extended, settled)) by {
            assert forall|a: int, b: int|
                #![trigger extended.attempts(a, b)]
                #![trigger settled.attempts(a, b)]
                extended.has_task(a, b) implies extended.attempts(a, b) == settled.attempts(
                a,
                b,
            ) by {}
            assert forall|a: int| 0 <= a < extended.stages.len() implies (
            #[trigger] extended.stages[a]).tasks.len() == settled.stages[a].tasks.len() by {
                assert(settled.stages[a].tasks == extended.stages[a].tasks);
            }
        }
        lemma_same_consumers(extended, settled, s);
        if is_releasable(extended, s) {
            assert(settled.stages[s].state is Inactive);
        }
    }
}

/// A job in which nothing is left to be dealt with, and whose regions are up to date, calls for no
/// action and stays as it is.
pub proof fn lemma_nothing_to_settle(
    max_attempts: nat,
    job_id: JobId,
    job: JobView,
    now: Timestamp,
)
    requires
        job.well_formed(),
        forall|r: int, i: int|
            0 <= r < job.regions.len() && 0 <= i < job.region_tasks(r).len() && has_failure(job, r)
                ==> all_stopped(
                job.attempts(
                    (#[trigger] job.region_tasks(r)[i]).stage as int,
                    job.region_tasks(r)[i].partition as int,
                ),
            ),
        forall|s: int, p: int| job.has_task(s, p) ==> !#[trigger] has_new_output(job, s, p),
        forall|s: int| 0 <= s < job.stages.len() ==> !#[trigger] is_releasable(job, s),
        forall|r: int|
            0 <= r < job.regions.len() ==> #[trigger] job.regions[r] == region_state(
                job,
                max_attempts,
                r,
            ),
    ensures
        settled_job(max_attempts, job_id, job, now) == (job, Seq::<ActionView>::empty()),
{
    lemma_cancel_stopped_regions(job_id, job, job.regions.len(), now);
    lemma_no_new_output(job_id, job);
    lemma_nothing_to_release(job_id, job, job.stages.len(), now);
    assert(with_region_states(job, max_attempts).regions =~= job.regions);
    let none = Seq::<ActionView>::empty();
    assert(none + none + none =~= none);
}

/// Dealing with what tasks have reported is done once: as long as nothing new has been reported, doing
/// it again calls for no action and changes nothing.
pub proof fn lemma_settled_once(
    max_attempts: nat,
    job_id: JobId,
    job: JobView,
    now: Timestamp,
    later: Timestamp,
)
    requires
        job.well_formed(),
        job.state is Running,
    ensures
        ({
            let settled = settled_job(max_attempts, job_id, job, now).0;
            settled_job(max_attempts, job_id, settled, later) == (
                settled,
                Seq::<ActionView>::empty(),
            )
        }),
{
    let settled = settled_job(max_attempts, job_id, job, now).0;
    lemma_settled_shape(max_attempts, job_id, job, now);
    lemma_settled_leaves_nothing(max_attempts, job_id, job, now);
    lemma_settled_regions(max_attempts, job_id, job, now);
    lemma_nothing_to_settle(max_attempts, job_id, settled, later);
}

/// A job fails exactly when some task has failed or been canceled as often as it may be attempted. It
/// is drained exactly when, that not being so, all tasks have succeeded. Otherwise it goes on
/// running.
pub proof fn lemma_refresh_outcome(
    options: SchedulerOptionsView,
    data: &Measurements,
    job_id: JobId,
    job: JobView,
    now: Timestamp,
)
    requires
        job.well_formed(),
        job.state is Running,
    ensures
        ({
            let max = options.task_max_attempts as nat;
            let settled = settled_job(max, job_id, job, now).0;
            let after = refreshed_job(options, data, job_id, job, now).0;
            let given_up = exists|r: int, i: int|
                0 <= r < settled.regions.len() && 0 <= i < settled.region_tasks(r).len()
                    && is_exhausted(settled, max, #[trigger] settled.region_tasks(r)[i]);
            let done = forall|r: int, i: int|
                0 <= r < settled.regions.len() && 0 <= i < settled.region_tasks(r).len()
                    ==> has_succeeded(settled, #[trigger] settled.region_tasks(r)[i]);
            if given_up {
                after.state is Failed
            } else if done {
                after.state is Draining
            } else {
                after.state == job.state
            }
        }),
{
    let max = options.task_max_attempts as nat;
    let settled = settled_job(max, job_id, job, now).0;
    lemma_settled_shape(max, job_id, job, now);
    lemma_settled_regions(max, job_id, job, now);
    lemma_scheduled_keeps(options, data, job_id, settled, settled.regions.len(), now);
    let given_up = exists|r: int, i: int|
        0 <= r < settled.regions.len() && 0 <= i < settled.region_tasks(r).len() && is_exhausted(
            settled,
            max,
            #[trigger] settled.region_tasks(r)[i],
        );
    let done = forall|r: int, i: int|
        0 <= r < settled.regions.len() && 0 <= i < settled.region_tasks(r).len() ==> has_succeeded(
            settled,
            #[trigger] settled.region_tasks(r)[i],
        );
    if given_up {
        let (r, i) = choose|r: int, i: int|
            0 <= r < settled.regions.len() && 0 <= i < settled.region_tasks(r).len()
                && is_exhausted(settled, max, #[trigger] settled.region_tasks(r)[i]);
        assert(settled.regions[r] == region_state(settled, max, r));
        assert(settled.regions[r] is Failed);
    } else {
        assert forall|r: int| 0 <= r < settled.regions.len() implies !((
        #[trigger] settled.regions[r]) is Failed) by {
            assert(settled.regions[r] == region_state(settled, max, r));
        }
        if done {
            assert forall|r: int| 0 <= r < settled.regions.len() implies (
            #[trigger] settled.regions[r]) is Succeeded by {
                assert(settled.regions[r] == region_state(settled, max, r));
            }
        } else {
            let (r, i) = choose|r: int, i: int|
                0 <= r < settled.regions.len() && 0 <= i < settled.region_tasks(r).len()
                    && !has_succeeded(settled, #[trigger] settled.region_tasks(r)[i]);
            assert(settled.regions[r] == region_state(settled, max, r));
            assert(settled.regions[r] is Running);
        }
    }
}

/// The states of the regions follow from the attempts at their tasks.
pub proof fn lemma_settled_regions(max_attempts: nat, job_id: JobId, job: JobView, now: Timestamp)
    requires
        job.well_formed(),
    ensures
        ({
            let settled = settled_job(max_attempts, job_id, job, now).0;
            forall|r: int|
                0 <= r < settled.regions.len() ==> #[trigger] settled.regions[r] == region_state(
                    settled,
                    max_attempts,
                    r,
                )
        }),
{
    let canceled = canceled_regions(job_id, job, job.regions.len(), now).0;
    let extended = extended_output(job_id, canceled).0;
    let released = with_released(extended, extended.stages.len(), now);
    let settled = settled_job(max_attempts, job_id, job, now).0;
    assert(same_attempt_states(released, settled));
    assert forall|r: int| 0 <= r < settled.regions.len() implies #[trigger] settled.regions[r]
        == region_state(settled, max_attempts, r) by {
        lemma_same_region_state(released, settled, max_attempts, r);
    }
}

/// A region is scheduled only if it has not succeeded and all regions that it depends on have.
pub proof fn lemma_scheduled_after_dependencies(
    options: SchedulerOptionsView,
    data: &Measurements,
    job_id: JobId,
    job: JobView,
    region: nat,
    now: Timestamp,
)
    requires
        job.linked(),
        region < job.regions.len(),
        is_ready(
            scheduled_regions(options, data, job_id, job, region, now).0,
            region as int,
        ),
    ensures
        !(job.regions[region as int] is Succeeded),
        dependencies_succeeded(job, region as int),
{
    lemma_scheduled_keeps(options, data, job_id, job, region, now);
    let before = scheduled_regions(options, data, job_id, job, region, now).0;
    let dependencies = job.topology.regions[region as int].dependencies;
    assert forall|i: int| 0 <= i < dependencies.len() implies job.regions[(
    #[trigger] job.topology.regions[region as int].dependencies[i]) as int] is Succeeded by {
        assert(before.regions[before.topology.regions[region as int].dependencies[i] as int] is
            Succeeded);
    }
}

/// Once a region has been scheduled, all its tasks have just been attempted, so that it is not
/// scheduled again before one of them has stopped.
pub proof fn lemma_scheduled_is_live(
    options: SchedulerOptionsView,
    data: &Measurements,
    job_id: JobId,
    job: JobView,
    region: int,
    now: Timestamp,
)
    requires
        job.linked(),
        0 <= region < job.regions.len(),
        job.tasks_exist(region),
    ensures
        ({
            let after = prepared_region(options, data, job_id, job, region, now);
            &&& forall|i: int|
                0 <= i < after.region_tasks(region).len() ==> after.latest_state(
                    (#[trigger] after.region_tasks(region)[i]).stage as int,
                    after.region_tasks(region)[i].partition as int,
                ) == Some(TaskState::Created)
            &&& after.region_tasks(region).len() > 0 ==> !is_ready(after, region)
        }),
{
    lemma_adapted_if_enabled(options, data, job_id, job, region);
    let adapted = adapted_if_enabled(options, data, job_id, job, region);
    let tasks = adapted.region_tasks(region);
    lemma_new_attempts(adapted, tasks, now);
    let after = prepared_region(options, data, job_id, job, region, now);
    assert(after.region_tasks(region) == tasks);
    assert forall|i: int| 0 <= i < after.region_tasks(region).len() implies after.latest_state(
        (#[trigger] after.region_tasks(region)[i]).stage as int,
        after.region_tasks(region)[i].partition as int,
    ) == Some(TaskState::Created) by {
        lemma_new_attempt_is_latest(adapted, tasks, now, i);
    }
    if tasks.len() > 0 {
        assert(is_live(after, after.region_tasks(region)[0]));
    }
}

/// A task that has been given a new attempt has one that has just been created.
proof fn lemma_new_attempt_is_latest(
    job: JobView,
    tasks: Seq<TaskTopology>,
    now: Timestamp,
    i: int,
)
    requires
        job.linked(),
        forall|i: int|
            0 <= i < tasks.len() ==> job.has_task(
                (#[trigger] tasks[i]).stage as int,
                tasks[i].partition as int,
            ),
        0 <= i < tasks.len(),
    ensures
        with_new_attempts(job, tasks, now).latest_state(
            tasks[i].stage as int,
            tasks[i].partition as int,
        ) == Some(TaskState::Created),
    decreases tasks.len(),
{
    let rest = tasks.drop_last();
    let last = tasks[tasks.len() - 1];
    assert forall|k: int| 0 <= k < rest.len() implies job.has_task(
        (#[trigger] rest[k]).stage as int,
        rest[k].partition as int,
    ) by {
        assert(rest[k] == tasks[k]);
    }
    lemma_new_attempts(job, rest, now);
    let before = with_new_attempts(job, rest, now);
    assert(before.stages[last.stage as int].tasks.len() == job.stages[last.stage as int].tasks.len());
    if tasks[i] != last {
        assert(rest[i] == tasks[i]);
        lemma_new_attempt_is_latest(job, rest, now, i);
    }
}

/// As long as a job has not failed, a task that has failed or been canceled may be attempted again:
/// it has not been attempted as often as the limit allows.
pub proof fn lemma_retry_within_limit(
    options: SchedulerOptionsView,
    data: &Measurements,
    job_id: JobId,
    job: JobView,
    now: Timestamp,
    region: int,
    i: int,
)
    requires
        job.well_formed(),
        job.state is Running,
        !(refreshed_job(options, data, job_id, job, now).0.state is Failed),
        0 <= region < job.regions.len(),
        0 <= i < job.region_tasks(region).len(),
    ensures
        ({
            let settled = settled_job(options.task_max_attempts as nat, job_id, job, now).0;
            let s = job.region_tasks(region)[i].stage as int;
            let p = job.region_tasks(region)[i].partition as int;
            match settled.latest_state(s, p) {
                Some(TaskState::Failed) | Some(TaskState::Canceled) => settled.attempts(s, p).len()
                    < options.task_max_attempts,
                _ => true,
            }
        }),
{
    let max = options.task_max_attempts as nat;
    let settled = settled_job(max, job_id, job, now).0;
    lemma_settled_shape(max, job_id, job, now);
    lemma_refresh_outcome(options, data, job_id, job, now);
    assert(settled.region_tasks(region)[i] == job.region_tasks(region)[i]);
}

/// A task attempt that has stopped keeps its state and the time at which it stopped, whatever is
/// reported of it.
pub proof fn lemma_stopped_attempt_stays(
    attempt: AttemptView,
    state: TaskState,
    message: Option<String>,
    cause: Option<ErrorCause>,
    now: Timestamp,
)
    requires
        attempt.state.terminal(),
        attempt.stopped_at is Some,
    ensures
        reported_attempt(attempt, state, message, cause, now).state == attempt.state,
        reported_attempt(attempt, state, message, cause, now).stopped_at == attempt.stopped_at,
{
}

/// A report never takes a task attempt back.
pub proof fn lemma_progress_is_kept(before: TaskState, reported: TaskState)
    ensures
        before.consolidated(reported).progress() >= before.progress(),
        before.consolidated(reported).progress() >= reported.progress(),
{
}

/// What is reported of a task attempt shows in its state, and in no other. A report for a task attempt
/// that does not exist changes nothing at all.
pub proof fn lemma_report_shows(
    scheduler: SchedulerView,
    key: TaskKey,
    state: TaskState,
    message: Option<String>,
    cause: Option<ErrorCause>,
    now: Timestamp,
    other: TaskKey,
)
    requires
        other != key,
    ensures
        ({
            let after = reported(scheduler, key, state, message, cause, now);
            &&& match task_state(scheduler, key) {
                Some(before) => task_state(after, key) == Some(before.consolidated(state)),
                None => after == scheduler,
            }
            &&& task_state(after, other) == task_state(scheduler, other)
        }),
{
    let after = reported(scheduler, key, state, message, cause, now);
    if task_state(scheduler, key) is None {
        if scheduler.jobs.dom().contains(key.job_id) {
            assert(scheduler.jobs.insert(key.job_id, scheduler.jobs[key.job_id])
                =~= scheduler.jobs);
        }
        assert(after =~= scheduler);
    }
}

/// Once the scheduler has been stopped, no job is open, no stage is active and no task attempt is
/// live. Stopping it again changes nothing.
pub proof fn lemma_stopped_is_final(scheduler: SchedulerView, now: Timestamp, later: Timestamp)
    ensures
        ({
            let after = stopped(scheduler, now);
            &&& after.jobs.dom() == scheduler.jobs.dom()
            &&& forall|id: JobId| #[trigger]
                after.jobs.dom().contains(id) ==> {
                    &&& !is_open(after.jobs[id].state)
                    &&& forall|s: int|
                        0 <= s < after.jobs[id].stages.len() ==> (
                        #[trigger] after.jobs[id].stages[s]).state is Inactive
                    &&& forall|s: int, p: int|
                        after.jobs[id].has_task(s, p) ==> all_stopped(
                            #[trigger] after.jobs[id].attempts(s, p),
                        )
                }
            &&& stopped(after, later) == after
        }),
{
    let after = stopped(scheduler, now);
    let again = stopped(after, later);
    assert(after.jobs.dom() =~= scheduler.jobs.dom());
    assert forall|id: JobId| after.jobs.dom().contains(id) implies #[trigger] again.jobs[id]
        == after.jobs[id] by {
        let job = scheduler.jobs[id];
        assert(after.jobs[id] == stopped_job(job, now));
        lemma_stopped_job_twice(job, now, later);
    }
    assert(again.jobs =~= after.jobs);
    assert forall|id: JobId| #[trigger] after.jobs.dom().contains(id) implies {
        &&& !is_open(after.jobs[id].state)
        &&& forall|s: int|
            0 <= s < after.jobs[id].stages.len() ==> (
            #[trigger] after.jobs[id].stages[s]).state is Inactive
        &&& forall|s: int, p: int|
            after.jobs[id].has_task(s, p) ==> all_stopped(#[trigger] after.jobs[id].attempts(s, p))
    } by {
        assert(after.jobs[id] == stopped_job(scheduler.jobs[id], now));
    }
}

/// Stopping a job again changes nothing.
proof fn lemma_stopped_job_twice(job: JobView, now: Timestamp, later: Timestamp)
    ensures
        stopped_job(stopped_job(job, now), later) == stopped_job(job, now),
{
    let once = stopped_job(job, now);
    let twice = stopped_job(once, later);
    assert forall|s: int| 0 <= s < once.stages.len() implies #[trigger] twice.stages[s]
        == once.stages[s] by {
        assert forall|p: int| 0 <= p < once.stages[s].tasks.len() implies
            #[trigger] twice.stages[s].tasks[p] == once.stages[s].tasks[p] by {
            lemma_stopped_unchanged(once.stages[s].tasks[p], later);
        }
        assert(twice.stages[s].tasks =~= once.stages[s].tasks);
    }
    assert(twice.stages =~= once.stages);
}

/// A job that has been cleaned up has ended: it has succeeded exactly if its output was being read to
/// its end, none of its stages is active, and refreshing it does nothing.
pub proof fn lemma_cleaned_up_is_final(
    options: SchedulerOptionsView,
    data: &Measurements,
    job_id: JobId,
    job: JobView,
    now: Timestamp,
    later: Timestamp,
)
    ensures
        ({
            let after = cleaned_job(job, now);
            &&& !is_open(after.state)
            &&& after.state is Succeeded <==> job.state is Draining
            &&& forall|s: int|
                0 <= s < after.stages.len() ==> (#[trigger] after.stages[s]).state is Inactive
            &&& refreshed_job(options, data, job_id, after, later) == (
                after,
                Seq::<ActionView>::empty(),
            )
        }),
{
}

/// A job is accepted under an identifier that no other job has.
pub proof fn lemma_accepted_is_new(
    before: SchedulerView,
    plan: ExecutionResult<
        (JobGraph, JobTopology),
    >,
    output: JobOutputHandle,
    context: TaskContextHandle,
    now: Timestamp,
    after: SchedulerView,
    job_id: JobId,
)
    requires
        before.well_formed(),
        accepts(
            before,
            plan,
            output,
            context,
            now,
            after,
            Ok::<JobId, ExecutionError>(job_id),
        ),
    ensures
        !before.jobs.dom().contains(job_id),
        after.jobs.dom() == before.jobs.dom().insert(job_id),
        forall|id: JobId| #[trigger]
            before.jobs.dom().contains(id) ==> after.jobs[id] == before.jobs[id],
        after.jobs[job_id].state == (JobState::Running { output, context }),
{
    if before.jobs.dom().contains(job_id) {
        assert(job_id.value < before.next_id);
    }
    assert(after.jobs.dom() =~= before.jobs.dom().insert(job_id));
}

/// The groups of channels that are chosen for an input hold every channel, so that the tasks read
/// together what they would have read channel by channel.
pub proof fn lemma_chosen_groups_read_everything(
    target: u64,
    data: &Measurements,
    job_id: JobId,
    job: JobView,
    stage: int,
    input: int,
    partitions: nat,
)
    ensures
        ({
            let u = job.graph.stages[stage].inputs[input].stage;
            let channels = job.graph.stages[u as int].distribution.spec_channels() as nat;
            let ranges = input_ranges(target, data, job_id, job, stage, input);
            &&& covers(ranges, channels)
            &&& input_cells(
                InputMode::Shuffle,
                Some(ranges),
                partitions,
                channels,
            ).flatten() == input_cells(
                InputMode::Shuffle,
                None,
                partitions,
                channels,
            ).flatten()
        }),
{
    let u = job.graph.stages[stage].inputs[input].stage;
    let channels = job.graph.stages[u as int].distribution.spec_channels() as nat;
    let ranges = input_ranges(target, data, job_id, job, stage, input);
    lemma_ranges_fit(target, data, job_id, job, stage, input);
    lemma_groups_read_everything(ranges, partitions, channels);
}

/// Cleaning up a job cancels exactly its live task attempts.
pub proof fn lemma_clean_up_cancels_live(job_id: JobId, job: JobView, key: TaskKey)
    requires
        job.stages.len() <= usize::MAX,
        forall|s: int|
            0 <= s < job.stages.len() ==> (#[trigger] job.stages[s]).tasks.len() <= usize::MAX,
        attempts_countable(job),
    ensures
        job_cancel_actions(job_id, job).contains(ActionView::CancelTask { key }) <==> key.job_id
            == job_id && is_live_attempt(job, key),
{
    let action = ActionView::CancelTask { key };
    let all = Seq::new(job.stages.len(), |s: int| stage_cancel_actions(job_id, job, s));
    lemma_contains_flatten(all, action);
    assert forall|s: int| 0 <= s < job.stages.len() implies ((#[trigger] all[s]).contains(action)
        <==> key.job_id == job_id && key.stage == s && is_live_attempt(job, key)) by {
        let parts = Seq::new(
            job.stages[s].tasks.len(),
            |p: int|
                cancel_actions(
                    job_id,
                    s as usize,
                    p as usize,
                    job.attempts(s, p),
                    job.attempts(s, p).len(),
                ),
        );
        lemma_contains_flatten(parts, action);
        assert(job.stages[s].tasks.len() <= usize::MAX);
        assert forall|p: int| 0 <= p < parts.len() implies ((#[trigger] parts[p]).contains(action)
            <==> key.job_id == job_id && key.stage == s && key.partition == p && is_live_attempt(
            job,
            key,
        )) by {
            assert(job.attempts(s, p).len() <= usize::MAX);
            lemma_cancel_actions_exact(
                job_id,
                s as usize,
                p as usize,
                job.attempts(s, p),
                job.attempts(s, p).len(),
                key,
            );
        }
        if key.job_id == job_id && key.stage == s && is_live_attempt(job, key) {
            assert(parts[key.partition as int].contains(action));
        }
    }
    if key.job_id == job_id && is_live_attempt(job, key) {
        assert(all[key.stage as int].contains(action));
    }
}

}

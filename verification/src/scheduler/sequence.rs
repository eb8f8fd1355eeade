//! The order in which a refresh calls for actions.

use crate::action::ActionView;
use crate::clock::Timestamp;
use crate::id::{JobId, TaskKey, TaskStreamKey};
use crate::measurements::Measurements;
use crate::scheduler::cancel::{
    attempts_countable, cancel_actions, canceled_regions, canceled_tasks, has_failure,
    is_live_attempt, lemma_cancel_actions_exact, lemma_canceled_regions,
};
use crate::scheduler::effects::{is_countable, lemma_only_attempt_cancels, lemma_only_schedules};
use crate::scheduler::lifecycle::{
    all_regions_succeeded, any_region_failed, lemma_settled_shape, refreshed_job, settled_job,
};
use crate::scheduler::options::SchedulerOptionsView;
use crate::scheduler::output::{
    extended_output, output_action, output_actions, release_actions, stage_output_actions,
    task_output_actions,
};
use crate::scheduler::schedule::scheduled_regions;
use crate::scheduler::sets::{lemma_flatten_from, length_before};
use crate::state::{lemma_same_shape, same_shape, JobOutputHandle, JobView, TaskView};
use crate::topology::TaskTopology;
use vstd::prelude::*;

verus! {

/// The place of an action among those of a refresh: attempts are canceled first, then output is added, then
/// output streams are removed, and at last the job fails or regions are scheduled.
pub open spec fn rank(action: ActionView) -> int {
    match action {
        ActionView::CancelTask { .. } => 0,
        ActionView::ExtendJobOutput { .. } => 1,
        ActionView::CleanUpJob { .. } => 2,
        ActionView::FailJobOutput { .. } => 3,
        ActionView::ScheduleTaskRegion { .. } => 3,
    }
}

/// Whether a stream comes before another one: by stage, then by partition, then by channel.
pub open spec fn comes_before(a: TaskStreamKey, b: TaskStreamKey) -> bool {
    a.stage < b.stage || (a.stage == b.stage && (a.partition < b.partition || (a.partition
        == b.partition && a.channel < b.channel)))
}

/// Whether two actions, one after the other, are in order.
pub open spec fn in_sequence(a: ActionView, b: ActionView) -> bool {
    match (a, b) {
        (
            ActionView::ExtendJobOutput { key: first, .. },
            ActionView::ExtendJobOutput { key: second, .. },
        ) => comes_before(first, second),
        (
            ActionView::CleanUpJob { stage: Some(first), .. },
            ActionView::CleanUpJob { stage: Some(second), .. },
        ) => first < second,
        (ActionView::CancelTask { key: first }, ActionView::CancelTask { key: second }) => first
            != second,
        _ => rank(a) <= rank(b),
    }
}

/// The items before a list are at most those up to its end.
proof fn lemma_lengths_grow<A>(lists: Seq<Seq<A>>, i: int, j: int)
    requires
        0 <= i < j <= lists.len(),
    ensures
        length_before(lists, i) + lists[i].len() <= length_before(lists, j),
    decreases j - i,
{
    if i < j - 1 {
        lemma_lengths_grow(lists, i, j - 1);
    }
}

/// Of two items of lists one after the other, the first is in an earlier list, or earlier in the same one.
pub proof fn lemma_two_places<A>(lists: Seq<Seq<A>>, x: int, y: int) -> (r: (int, int, int, int))
    requires
        0 <= x < y < lists.flatten().len(),
    ensures
        ({
            let (i, a, j, b) = r;
            &&& 0 <= i <= j < lists.len()
            &&& 0 <= a < lists[i].len()
            &&& 0 <= b < lists[j].len()
            &&& i == j ==> a < b
            &&& lists.flatten()[x] == lists[i][a]
            &&& lists.flatten()[y] == lists[j][b]
        }),
{
    let (i, a) = lemma_flatten_from(lists, x);
    let (j, b) = lemma_flatten_from(lists, y);
    if j < i {
        lemma_lengths_grow(lists, j, i);
    }
    (i, a, j, b)
}

/// The channels of a task are added in their order.
proof fn lemma_outputs_in_sequence(job_id: JobId, job: JobView, handle: JobOutputHandle, x: int, y: int)
    requires
        job.linked(),
        job.stages.len() <= usize::MAX,
        0 <= x < y < output_actions(job_id, job, handle).len(),
    ensures
        output_actions(job_id, job, handle)[x] is ExtendJobOutput,
        output_actions(job_id, job, handle)[y] is ExtendJobOutput,
        in_sequence(
            output_actions(job_id, job, handle)[x],
            output_actions(job_id, job, handle)[y],
        ),
{
    let stages = Seq::new(
        job.stages.len(),
        |s: int| stage_output_actions(job_id, job, handle, s),
    );
    let (s, a, t, b) = lemma_two_places(stages, x, y);
    let tasks = Seq::new(
        job.stages[s].tasks.len(),
        |p: int| task_output_actions(job_id, job, handle, s, p),
    );
    assert(stages[s] == tasks.flatten());
    if s == t {
        let (p, c, q, d) = lemma_two_places(tasks, a, b);
        assert(tasks[p] == task_output_actions(job_id, job, handle, s, p));
        assert(tasks[q] == task_output_actions(job_id, job, handle, s, q));
        assert(tasks[p][c] == output_action(job_id, job, handle, s, p, c));
        assert(tasks[q][d] == output_action(job_id, job, handle, s, q, d));
        assert(job.stages[s].tasks.len() <= usize::MAX);
    } else {
        let others = Seq::new(
            job.stages[t].tasks.len(),
            |p: int| task_output_actions(job_id, job, handle, t, p),
        );
        assert(stages[t] == others.flatten());
        let (p, c) = lemma_flatten_from(tasks, a);
        let (q, d) = lemma_flatten_from(others, b);
        assert(tasks[p] == task_output_actions(job_id, job, handle, s, p));
        assert(others[q] == task_output_actions(job_id, job, handle, t, q));
        assert(tasks[p][c] == output_action(job_id, job, handle, s, p, c));
        assert(others[q][d] == output_action(job_id, job, handle, t, q, d));
    }
}

/// Adding output calls for nothing else.
proof fn lemma_only_outputs(job_id: JobId, job: JobView, handle: JobOutputHandle, x: int)
    requires
        0 <= x < output_actions(job_id, job, handle).len(),
    ensures
        output_actions(job_id, job, handle)[x] is ExtendJobOutput,
{
    let stages = Seq::new(
        job.stages.len(),
        |s: int| stage_output_actions(job_id, job, handle, s),
    );
    let (s, a) = lemma_flatten_from(stages, x);
    let tasks = Seq::new(
        job.stages[s].tasks.len(),
        |p: int| task_output_actions(job_id, job, handle, s, p),
    );
    assert(stages[s] == tasks.flatten());
    let (p, c) = lemma_flatten_from(tasks, a);
    assert(tasks[p] == task_output_actions(job_id, job, handle, s, p));
    assert(tasks[p][c] == output_action(job_id, job, handle, s, p, c));
}

/// Stages are released in their order.
proof fn lemma_releases_in_sequence(job_id: JobId, job: JobView, n: nat)
    requires
        n <= usize::MAX,
    ensures
        ({
            let r = release_actions(job_id, job, n);
            &&& forall|i: int|
                0 <= i < r.len() ==> (#[trigger] r[i]) is CleanUpJob && r[i]->CleanUpJob_stage is Some
                    && r[i]->CleanUpJob_stage->0 < n
            &&& forall|i: int, j: int|
                0 <= i < j < r.len() ==> in_sequence(#[trigger] r[i], #[trigger] r[j])
        }),
    decreases n,
{
    if n > 0 {
        lemma_releases_in_sequence(job_id, job, (n - 1) as nat);
    }
}

/// No attempt at a task is canceled twice.
proof fn lemma_attempt_cancels_differ(
    job_id: JobId,
    stage: usize,
    partition: usize,
    attempts: TaskView,
    n: nat,
)
    requires
        n <= attempts.len() <= usize::MAX,
    ensures
        ({
            let r = cancel_actions(job_id, stage, partition, attempts, n);
            forall|i: int, j: int|
                0 <= i < j < r.len() ==> in_sequence(#[trigger] r[i], #[trigger] r[j])
        }),
    decreases n,
{
    if n > 0 {
        let m = (n - 1) as nat;
        let before = cancel_actions(job_id, stage, partition, attempts, m);
        let r = cancel_actions(job_id, stage, partition, attempts, n);
        lemma_attempt_cancels_differ(job_id, stage, partition, attempts, m);
        lemma_only_attempt_cancels(job_id, stage, partition, attempts, n);
        assert forall|i: int, j: int| 0 <= i < j < r.len() implies in_sequence(
            #[trigger] r[i],
            #[trigger] r[j],
        ) by {
            if j < before.len() {
                assert(r[i] == before[i] && r[j] == before[j]);
            } else {
                assert(r[i] == before[i]);
                assert(before.contains(before[i]));
                lemma_cancel_actions_exact(
                    job_id,
                    stage,
                    partition,
                    attempts,
                    m,
                    before[i]->CancelTask_key,
                );
            }
        }
    }
}

/// Whether all actions cancel attempts that have been going in one state of a job and are not in another,
/// each of them once.
spec fn are_stopped_once(actions: Seq<ActionView>, before: JobView, after: JobView) -> bool {
    &&& forall|i: int|
        0 <= i < actions.len() ==> (#[trigger] actions[i]) is CancelTask && is_live_attempt(
            before,
            actions[i]->CancelTask_key,
        ) && !is_live_attempt(after, actions[i]->CancelTask_key)
    &&& forall|i: int, j: int|
        0 <= i < j < actions.len() ==> in_sequence(#[trigger] actions[i], #[trigger] actions[j])
    &&& forall|key: TaskKey| #[trigger]
        is_live_attempt(after, key) ==> is_live_attempt(before, key)
    &&& same_shape(before, after)
    &&& attempts_countable(before) ==> attempts_countable(after)
}

/// Stopping attempts in two steps.
proof fn lemma_stopped_in_steps(
    a: Seq<ActionView>,
    b: Seq<ActionView>,
    first: JobView,
    second: JobView,
    third: JobView,
)
    requires
        are_stopped_once(a, first, second),
        are_stopped_once(b, second, third),
    ensures
        are_stopped_once(a + b, first, third),
{
    let all = a + b;
    assert forall|i: int| 0 <= i < all.len() implies (#[trigger] all[i]) is CancelTask
        && is_live_attempt(first, all[i]->CancelTask_key) && !is_live_attempt(
        third,
        all[i]->CancelTask_key,
    ) by {
        if i < a.len() {
            assert(all[i] == a[i]);
        } else {
            assert(all[i] == b[i - a.len()]);
        }
    }
    assert forall|i: int, j: int| 0 <= i < j < all.len() implies in_sequence(
        #[trigger] all[i],
        #[trigger] all[j],
    ) by {
        if j < a.len() {
            assert(all[i] == a[i] && all[j] == a[j]);
        } else if i < a.len() {
            assert(all[i] == a[i] && all[j] == b[j - a.len()]);
        } else {
            assert(all[i] == b[i - a.len()] && all[j] == b[j - a.len()]);
        }
    }
}

/// No attempt at some tasks is canceled twice.
proof fn lemma_task_cancels_differ(
    job_id: JobId,
    job: JobView,
    tasks: Seq<TaskTopology>,
    now: Timestamp,
)
    requires
        attempts_countable(job),
        forall|i: int|
            0 <= i < tasks.len() ==> job.has_task(
                (#[trigger] tasks[i]).stage as int,
                tasks[i].partition as int,
            ),
    ensures
        are_stopped_once(
            canceled_tasks(job_id, job, tasks, now).1,
            job,
            canceled_tasks(job_id, job, tasks, now).0,
        ),
    decreases tasks.len(),
{
    if tasks.len() > 0 {
        let rest = tasks.drop_last();
        assert forall|i: int| 0 <= i < rest.len() implies job.has_task(
            (#[trigger] rest[i]).stage as int,
            rest[i].partition as int,
        ) by {
            assert(rest[i] == tasks[i]);
        }
        lemma_task_cancels_differ(job_id, job, rest, now);
        let before = canceled_tasks(job_id, job, rest, now);
        let after = canceled_tasks(job_id, job, tasks, now);
        let t = tasks.last();
        let s = t.stage as int;
        let p = t.partition as int;
        assert(tasks[tasks.len() - 1] == t);
        assert(job.has_task(s, p));
        assert(before.0.stages[s].tasks.len() == job.stages[s].tasks.len());
        assert(before.0.has_task(s, p));
        let attempts = before.0.attempts(s, p);
        assert(attempts.len() <= usize::MAX);
        let more = cancel_actions(job_id, t.stage, t.partition, attempts, attempts.len());
        lemma_attempt_cancels_differ(job_id, t.stage, t.partition, attempts, attempts.len());
        lemma_only_attempt_cancels(job_id, t.stage, t.partition, attempts, attempts.len());
        assert forall|i: int| 0 <= i < more.len() implies (#[trigger] more[i]) is CancelTask
            && is_live_attempt(before.0, more[i]->CancelTask_key) && !is_live_attempt(
            after.0,
            more[i]->CancelTask_key,
        ) by {
            assert(more.contains(more[i]));
            lemma_cancel_actions_exact(
                job_id,
                t.stage,
                t.partition,
                attempts,
                attempts.len(),
                more[i]->CancelTask_key,
            );
        }
        assert forall|key: TaskKey| #[trigger] is_live_attempt(after.0, key) implies is_live_attempt(
            before.0,
            key,
        ) by {
            if key.stage == s && key.partition == p {
                assert(after.0.attempts(s, p).len() == attempts.len());
            }
        }
        assert forall|x: int| 0 <= x < before.0.stages.len() implies (
        #[trigger] after.0.stages[x]).tasks.len() == before.0.stages[x].tasks.len() by {}
        assert forall|x: int, y: int| after.0.has_task(x, y) implies (
        #[trigger] after.0.attempts(x, y)).len() <= usize::MAX by {
            assert(after.0.stages[x].tasks.len() == before.0.stages[x].tasks.len());
            assert(before.0.attempts(x, y).len() <= usize::MAX);
            if x == s && y == p {
                assert(after.0.attempts(x, y).len() == attempts.len());
            }
        }
        assert(are_stopped_once(more, before.0, after.0));
        lemma_stopped_in_steps(before.1, more, job, before.0, after.0);
    }
}

/// No attempt is canceled twice.
proof fn lemma_cancels_differ(job_id: JobId, job: JobView, n: nat, now: Timestamp)
    requires
        job.well_formed(),
        attempts_countable(job),
        n <= job.regions.len(),
    ensures
        are_stopped_once(
            canceled_regions(job_id, job, n, now).1,
            job,
            canceled_regions(job_id, job, n, now).0,
        ),
    decreases n,
{
    if n > 0 {
        let before = canceled_regions(job_id, job, (n - 1) as nat, now);
        lemma_cancels_differ(job_id, job, (n - 1) as nat, now);
        if has_failure(before.0, n - 1) {
            lemma_same_shape(job, before.0);
            let tasks = before.0.region_tasks(n - 1);
            assert forall|i: int| 0 <= i < tasks.len() implies before.0.has_task(
                (#[trigger] tasks[i]).stage as int,
                tasks[i].partition as int,
            ) by {
                assert(before.0.region_tasks(n - 1)[i] == tasks[i]);
            }
            lemma_task_cancels_differ(job_id, before.0, tasks, now);
            let after = canceled_tasks(job_id, before.0, tasks, now);
            lemma_stopped_in_steps(before.1, after.1, job, before.0, after.0);
        }
    }
}

/// A refresh first cancels attempts, each of them once. Then it adds output, by stage, partition and channel,
/// and nothing twice. Then it removes output streams, stage by stage. At last the job fails, or regions
/// are scheduled.
pub proof fn lemma_refresh_in_sequence(
    options: SchedulerOptionsView,
    data: &Measurements,
    job_id: JobId,
    job: JobView,
    now: Timestamp,
)
    requires
        job.well_formed(),
        job.state is Running,
        is_countable(job),
    ensures
        ({
            let actions = refreshed_job(options, data, job_id, job, now).1;
            forall|i: int, j: int|
                0 <= i < j < actions.len() ==> in_sequence(
                    #[trigger] actions[i],
                    #[trigger] actions[j],
                )
        }),
{
    let n = job.regions.len();
    let max = options.task_max_attempts as nat;
    let canceled = canceled_regions(job_id, job, n, now);
    let extended = extended_output(job_id, canceled.0);
    let released = release_actions(job_id, extended.0, job.stages.len());
    let (settled, actions) = settled_job(max, job_id, job, now);
    let more = scheduled_regions(options, data, job_id, settled, settled.regions.len(), now).1;
    let all = refreshed_job(options, data, job_id, job, now).1;
    let output = job.state->output;
    assert forall|s: int, p: int| job.has_task(s, p) implies (#[trigger] job.attempts(s, p)).len()
        <= usize::MAX by {
        assert(job.stages[s].tasks[p].len() <= usize::MAX);
    }
    lemma_cancels_differ(job_id, job, n, now);
    lemma_settled_shape(max, job_id, job, now);
    lemma_same_shape(job, canceled.0);
    lemma_canceled_regions(job_id, job, n, now);
    lemma_releases_in_sequence(job_id, extended.0, job.stages.len());
    lemma_only_schedules(options, data, job_id, settled, settled.regions.len(), now);
    let a = canceled.1.len() as int;
    let b = a + extended.1.len();
    let c = b + released.len();
    assert(actions == canceled.1 + extended.1 + released);
    assert(extended.1 == output_actions(job_id, canceled.0, output));
    assert(c == actions.len());
    assert forall|i: int| 0 <= i < all.len() implies {
        let x = #[trigger] all[i];
        &&& i < a ==> x == canceled.1[i] && x is CancelTask
        &&& a <= i < b ==> x == extended.1[i - a] && x is ExtendJobOutput
        &&& b <= i < c ==> x == released[i - b] && x is CleanUpJob
        &&& c <= i ==> rank(x) == 3
    } by {
        if a <= i < b {
            lemma_only_outputs(job_id, canceled.0, output, i - a);
        }
        if c <= i {
            if !any_region_failed(settled) && !all_regions_succeeded(settled) {
                assert(all[i] == more[i - c]);
            }
        }
    }
    assert forall|i: int, j: int| 0 <= i < j < all.len() implies in_sequence(
        #[trigger] all[i],
        #[trigger] all[j],
    ) by {
        if a <= i && j < b {
            lemma_outputs_in_sequence(job_id, canceled.0, output, i - a, j - a);
        }
        if b <= i && j < c {
            assert(in_sequence(released[i - b], released[j - b]));
        }
        if j < a {
            assert(in_sequence(canceled.1[i], canceled.1[j]));
        }
    }
}

}

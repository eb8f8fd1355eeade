//! Canceling the tasks of a region in which a task has failed.

use crate::action::{lemma_views_push, views, ActionView, JobAction};
use crate::clock::Timestamp;
use crate::id::{JobId, TaskKey};
use crate::lists::{lemma_contains_join, lemma_contains_push};
use crate::scheduler::JobScheduler;
use crate::state::{
    canceled_attempt, canceled_attempts, lemma_same_shape, same_shape, JobDescriptor, JobView,
    StageDescriptorView, TaskState, TaskView,
};
use crate::topology::TaskTopology;
use vstd::prelude::*;

verus! {

/// Whether the latest attempt at a task has failed.
pub open spec fn has_failed(job: JobView, task: TaskTopology) -> bool {
    job.latest_state(task.stage as int, task.partition as int) == Some(TaskState::Failed)
}

/// Whether the latest attempt at some task of a region has failed.
pub open spec fn has_failure(job: JobView, region: int) -> bool {
    exists|i: int|
        0 <= i < job.region_tasks(region).len() && has_failed(
            job,
            #[trigger] job.region_tasks(region)[i],
        )
}

/// The actions that cancel the live ones among the first `n` attempts at a task.
pub open spec fn cancel_actions(
    job_id: JobId,
    stage: usize,
    partition: usize,
    attempts: TaskView,
    n: nat,
) -> Seq<ActionView>
    decreases n,
{
    if n == 0 {
        Seq::empty()
    } else {
        let before = cancel_actions(job_id, stage, partition, attempts, (n - 1) as nat);
        if attempts[n - 1].state.terminal() {
            before
        } else {
            before.push(
                ActionView::CancelTask {
                    key: TaskKey { job_id, stage, partition, attempt: (n - 1) as usize },
                },
            )
        }
    }
}

/// The job and the actions once all live attempts at some tasks have been canceled.
pub open spec fn canceled_tasks(
    job_id: JobId,
    job: JobView,
    tasks: Seq<TaskTopology>,
    now: Timestamp,
) -> (JobView, Seq<ActionView>)
    decreases tasks.len(),
{
    if tasks.len() == 0 {
        (job, Seq::empty())
    } else {
        let before = canceled_tasks(job_id, job, tasks.drop_last(), now);
        let t = tasks.last();
        let attempts = before.0.attempts(t.stage as int, t.partition as int);
        (
            before.0.with_attempts(
                t.stage as int,
                t.partition as int,
                canceled_attempts(attempts, now),
            ),
            before.1 + cancel_actions(job_id, t.stage, t.partition, attempts, attempts.len()),
        )
    }
}

/// The job and the actions once the tasks of each of the first `n` regions have been canceled if
/// the region has a failure.
pub open spec fn canceled_regions(job_id: JobId, job: JobView, n: nat, now: Timestamp) -> (
    JobView,
    Seq<ActionView>,
)
    decreases n,
{
    if n == 0 {
        (job, Seq::empty())
    } else {
        let before = canceled_regions(job_id, job, (n - 1) as nat, now);
        if has_failure(before.0, n - 1) {
            let after = canceled_tasks(job_id, before.0, before.0.region_tasks(n - 1), now);
            (after.0, before.1 + after.1)
        } else {
            before
        }
    }
}

/// Whether a task lies in one of the first `n` regions, and that region has a failure.
pub open spec fn is_doomed(job: JobView, n: nat, stage: int, partition: int) -> bool {
    exists|r: int, i: int|
        #![trigger job.region_tasks(r)[i]]
        0 <= r < n && 0 <= i < job.region_tasks(r).len() && has_failure(job, r)
            && job.region_tasks(r)[i].stage == stage && job.region_tasks(r)[i].partition
            == partition
}

/// The job in which the live attempts at exactly the tasks with a property have been canceled.
pub open spec fn with_canceled(
    job: JobView,
    chosen: spec_fn(int, int) -> bool,
    now: Timestamp,
) -> JobView {
    job.with_stages(
        Seq::new(
            job.stages.len(),
            |s: int|
                StageDescriptorView {
                    tasks: Seq::new(
                        job.stages[s].tasks.len(),
                        |p: int|
                            if chosen(s, p) {
                                canceled_attempts(job.attempts(s, p), now)
                            } else {
                                job.attempts(s, p)
                            },
                    ),
                    ..job.stages[s]
                },
        ),
    )
}

/// Canceling attempts again changes nothing.
pub proof fn lemma_canceled_twice(attempts: TaskView, now: Timestamp, later: Timestamp)
    ensures
        canceled_attempts(canceled_attempts(attempts, now), later) == canceled_attempts(
            attempts,
            now,
        ),
{
    assert(canceled_attempts(canceled_attempts(attempts, now), later) =~= canceled_attempts(
        attempts,
        now,
    ));
}

/// Canceled attempts give no reason to cancel any of them again.
pub proof fn lemma_nothing_to_cancel(
    job_id: JobId,
    stage: usize,
    partition: usize,
    attempts: TaskView,
    n: nat,
)
    requires
        n <= attempts.len(),
        forall|a: int| 0 <= a < n ==> (#[trigger] attempts[a]).state.terminal(),
    ensures
        cancel_actions(job_id, stage, partition, attempts, n) == Seq::<ActionView>::empty(),
    decreases n,
{
    if n > 0 {
        lemma_nothing_to_cancel(job_id, stage, partition, attempts, (n - 1) as nat);
    }
}

/// Canceling does not change which tasks have failed.
proof fn lemma_failed_kept(
    job: JobView,
    chosen: spec_fn(int, int) -> bool,
    now: Timestamp,
    task: TaskTopology,
)
    ensures
        has_failed(with_canceled(job, chosen, now), task) == has_failed(job, task),
{
    let after = with_canceled(job, chosen, now);
    let s = task.stage as int;
    let p = task.partition as int;
    if job.has_task(s, p) && job.attempts(s, p).len() > 0 && chosen(s, p) {
        assert(after.attempts(s, p).last() == canceled_attempt(
            job.attempts(s, p).last(),
            now,
        ));
    }
}

/// Canceling does not change which regions have a failure.
pub proof fn lemma_failure_kept(
    job: JobView,
    chosen: spec_fn(int, int) -> bool,
    now: Timestamp,
    region: int,
)
    ensures
        has_failure(with_canceled(job, chosen, now), region) == has_failure(job, region),
{
    let after = with_canceled(job, chosen, now);
    assert(after.region_tasks(region) == job.region_tasks(region));
    assert forall|i: int| 0 <= i < job.region_tasks(region).len() implies has_failed(
        after,
        #[trigger] job.region_tasks(region)[i],
    ) == has_failed(job, job.region_tasks(region)[i]) by {
        lemma_failed_kept(job, chosen, now, job.region_tasks(region)[i]);
    }
    if has_failure(job, region) {
        let i = choose|i: int|
            0 <= i < job.region_tasks(region).len() && has_failed(
                job,
                #[trigger] job.region_tasks(region)[i],
            );
        assert(has_failed(after, after.region_tasks(region)[i]));
    }
    if has_failure(after, region) {
        let i = choose|i: int|
            0 <= i < after.region_tasks(region).len() && has_failed(
                after,
                #[trigger] after.region_tasks(region)[i],
            );
        assert(has_failed(job, job.region_tasks(region)[i]));
    }
}

/// Whether a task is one of the given ones.
pub open spec fn is_listed(tasks: Seq<TaskTopology>, stage: int, partition: int) -> bool {
    exists|i: int|
        0 <= i < tasks.len() && (#[trigger] tasks[i]).stage == stage && tasks[i].partition
            == partition
}

/// Canceling tasks one after the other cancels exactly these.
proof fn lemma_canceled_tasks(
    job_id: JobId,
    job: JobView,
    chosen: spec_fn(int, int) -> bool,
    tasks: Seq<TaskTopology>,
    now: Timestamp,
)
    requires
        forall|i: int|
            0 <= i < tasks.len() ==> job.has_task(
                (#[trigger] tasks[i]).stage as int,
                tasks[i].partition as int,
            ),
    ensures
        canceled_tasks(job_id, with_canceled(job, chosen, now), tasks, now).0 == with_canceled(
            job,
            |s: int, p: int| chosen(s, p) || is_listed(tasks, s, p),
            now,
        ),
    decreases tasks.len(),
{
    let both = |s: int, p: int| chosen(s, p) || is_listed(tasks, s, p);
    if tasks.len() == 0 {
        assert forall|s: int, p: int| !#[trigger] is_listed(tasks, s, p) by {}
        assert(with_canceled(job, both, now).stages =~~= with_canceled(job, chosen, now).stages);
    } else {
        let rest = tasks.drop_last();
        let t = tasks.last();
        assert forall|i: int| 0 <= i < rest.len() implies job.has_task(
            (#[trigger] rest[i]).stage as int,
            rest[i].partition as int,
        ) by {
            assert(rest[i] == tasks[i]);
        }
        assert(tasks[tasks.len() - 1] == t);
        lemma_canceled_tasks(job_id, job, chosen, rest, now);
        let before = |s: int, p: int| chosen(s, p) || is_listed(rest, s, p);
        let middle = with_canceled(job, before, now);
        assert forall|s: int, p: int| #[trigger]
            is_listed(tasks, s, p) == (is_listed(rest, s, p) || (s == t.stage && p
                == t.partition)) by {
            if is_listed(tasks, s, p) {
                let i = choose|i: int|
                    0 <= i < tasks.len() && (#[trigger] tasks[i]).stage == s && tasks[i].partition
                        == p;
                if i < rest.len() {
                    assert(rest[i] == tasks[i]);
                }
            }
            if is_listed(rest, s, p) {
                let i = choose|i: int|
                    0 <= i < rest.len() && (#[trigger] rest[i]).stage == s && rest[i].partition
                        == p;
                assert(tasks[i] == rest[i]);
            }
        }
        lemma_canceled_twice(
            job.attempts(t.stage as int, t.partition as int),
            now,
            now,
        );
        let after = canceled_tasks(job_id, with_canceled(job, chosen, now), tasks, now).0;
        let expected = with_canceled(job, both, now);
        assert forall|s: int| 0 <= s < job.stages.len() implies #[trigger] after.stages[s]
            == expected.stages[s] by {
            assert(after.stages[s].tasks =~= expected.stages[s].tasks);
        }
        assert(after.stages =~= expected.stages);
    }
}

/// Once the tasks of the first `n` regions have been canceled where a region has a failure, the
/// live attempts at exactly these tasks are canceled, and nothing else has changed.
pub proof fn lemma_canceled_regions(job_id: JobId, job: JobView, n: nat, now: Timestamp)
    requires
        job.well_formed(),
        n <= job.regions.len(),
    ensures
        canceled_regions(job_id, job, n, now).0 == with_canceled(
            job,
            |s: int, p: int| is_doomed(job, n, s, p),
            now,
        ),
    decreases n,
{
    let doomed = |s: int, p: int| is_doomed(job, n, s, p);
    if n == 0 {
        assert(with_canceled(job, doomed, now).stages =~~= job.stages);
    } else {
        lemma_canceled_regions(job_id, job, (n - 1) as nat, now);
        let before = |s: int, p: int| is_doomed(job, (n - 1) as nat, s, p);
        let middle = with_canceled(job, before, now);
        let tasks = job.region_tasks(n - 1);
        assert(middle.region_tasks(n - 1) == tasks);
        lemma_failure_kept(job, before, now, n - 1);
        assert forall|s: int, p: int| #[trigger]
            is_doomed(job, n, s, p) == (is_doomed(job, (n - 1) as nat, s, p) || (has_failure(
                job,
                n - 1,
            ) && is_listed(tasks, s, p))) by {
            if is_doomed(job, n, s, p) {
                let (r, i) = choose|r: int, i: int|
                    #![trigger job.region_tasks(r)[i]]
                    0 <= r < n && 0 <= i < job.region_tasks(r).len() && has_failure(job, r)
                        && job.region_tasks(r)[i].stage == s && job.region_tasks(r)[i].partition
                        == p;
                if r == n - 1 {
                    assert(tasks[i].stage == s);
                } else {
                    assert(job.region_tasks(r)[i].stage == s);
                }
            }
            if is_listed(tasks, s, p) && has_failure(job, n - 1) {
                let i = choose|i: int|
                    0 <= i < tasks.len() && (#[trigger] tasks[i]).stage == s && tasks[i].partition
                        == p;
                assert(job.region_tasks(n - 1)[i].stage == s);
            }
            if is_doomed(job, (n - 1) as nat, s, p) {
                let (r, i) = choose|r: int, i: int|
                    #![trigger job.region_tasks(r)[i]]
                    0 <= r < n - 1 && 0 <= i < job.region_tasks(r).len() && has_failure(job, r)
                        && job.region_tasks(r)[i].stage == s && job.region_tasks(r)[i].partition
                        == p;
                assert(job.region_tasks(r)[i].stage == s);
            }
        }
        if has_failure(job, n - 1) {
            assert forall|i: int| 0 <= i < tasks.len() implies job.has_task(
                (#[trigger] tasks[i]).stage as int,
                tasks[i].partition as int,
            ) by {
                assert(tasks[i] == job.region_tasks(n - 1)[i]);
            }
            lemma_canceled_tasks(job_id, job, before, tasks, now);
            let both = |s: int, p: int| before(s, p) || is_listed(tasks, s, p);
            assert(with_canceled(job, both, now).stages =~~= with_canceled(
                job,
                doomed,
                now,
            ).stages);
        } else {
            assert(middle.stages =~~= with_canceled(job, doomed, now).stages);
        }
    }
}

/// Canceling attempts keeps a job well formed.
pub proof fn lemma_with_canceled_shape(
    job: JobView,
    chosen: spec_fn(int, int) -> bool,
    now: Timestamp,
)
    requires
        job.well_formed(),
    ensures
        same_shape(job, with_canceled(job, chosen, now)),
        with_canceled(job, chosen, now).well_formed(),
{
    lemma_same_shape(job, with_canceled(job, chosen, now));
}

/// Whether a task attempt exists and has not stopped.
pub open spec fn is_live_attempt(job: JobView, key: TaskKey) -> bool {
    let s = key.stage as int;
    let p = key.partition as int;
    &&& job.has_task(s, p)
    &&& key.attempt < job.attempts(s, p).len()
    &&& !job.attempts(s, p)[key.attempt as int].state.terminal()
}

/// The actions for a task cancel exactly those of its attempts that are live.
pub proof fn lemma_cancel_actions_exact(
    job_id: JobId,
    stage: usize,
    partition: usize,
    attempts: TaskView,
    n: nat,
    key: TaskKey,
)
    requires
        n <= attempts.len(),
        attempts.len() <= usize::MAX,
    ensures
        cancel_actions(job_id, stage, partition, attempts, n).contains(
            ActionView::CancelTask { key },
        ) <==> {
            &&& key.job_id == job_id
            &&& key.stage == stage
            &&& key.partition == partition
            &&& key.attempt < n
            &&& !attempts[key.attempt as int].state.terminal()
        },
    decreases n,
{
    if n > 0 {
        lemma_cancel_actions_exact(job_id, stage, partition, attempts, (n - 1) as nat, key);
        let before = cancel_actions(job_id, stage, partition, attempts, (n - 1) as nat);
        lemma_contains_push(
            before,
            ActionView::CancelTask {
                key: TaskKey { job_id, stage, partition, attempt: (n - 1) as usize },
            },
            ActionView::CancelTask { key },
        );
    }
}

/// Whether the number of attempts at every task fits in a machine word.
pub open spec fn attempts_countable(job: JobView) -> bool {
    forall|s: int, p: int|
        job.has_task(s, p) ==> (#[trigger] job.attempts(s, p)).len() <= usize::MAX
}

/// Canceling some tasks where others have been canceled before cancels exactly the attempts at them
/// that are still live.
proof fn lemma_cancel_tasks_exact(
    job_id: JobId,
    job: JobView,
    chosen: spec_fn(int, int) -> bool,
    tasks: Seq<TaskTopology>,
    now: Timestamp,
    key: TaskKey,
)
    requires
        attempts_countable(job),
        forall|i: int|
            0 <= i < tasks.len() ==> job.has_task(
                (#[trigger] tasks[i]).stage as int,
                tasks[i].partition as int,
            ),
    ensures
        canceled_tasks(job_id, with_canceled(job, chosen, now), tasks, now).1.contains(
            ActionView::CancelTask { key },
        ) <==> {
            &&& key.job_id == job_id
            &&& is_listed(tasks, key.stage as int, key.partition as int)
            &&& !chosen(key.stage as int, key.partition as int)
            &&& is_live_attempt(job, key)
        },
    decreases tasks.len(),
{
    if tasks.len() > 0 {
        let rest = tasks.drop_last();
        let t = tasks.last();
        assert forall|i: int| 0 <= i < rest.len() implies job.has_task(
            (#[trigger] rest[i]).stage as int,
            rest[i].partition as int,
        ) by {
            assert(rest[i] == tasks[i]);
        }
        assert(tasks[tasks.len() - 1] == t);
        let s = t.stage as int;
        let p = t.partition as int;
        lemma_cancel_tasks_exact(job_id, job, chosen, rest, now, key);
        lemma_canceled_tasks(job_id, job, chosen, rest, now);
        let before = canceled_tasks(job_id, with_canceled(job, chosen, now), rest, now);
        let attempts = before.0.attempts(s, p);
        assert(job.attempts(s, p).len() <= usize::MAX);
        lemma_cancel_actions_exact(job_id, t.stage, t.partition, attempts, attempts.len(), key);
        lemma_contains_join(
            before.1,
            cancel_actions(job_id, t.stage, t.partition, attempts, attempts.len()),
            ActionView::CancelTask { key },
        );
        let ks = key.stage as int;
        let kp = key.partition as int;
        if is_listed(tasks, ks, kp) {
            let i = choose|i: int|
                0 <= i < tasks.len() && (#[trigger] tasks[i]).stage == ks && tasks[i].partition
                    == kp;
            if i < rest.len() {
                assert(rest[i] == tasks[i]);
            }
        }
        if is_listed(rest, ks, kp) {
            let i = choose|i: int|
                0 <= i < rest.len() && (#[trigger] rest[i]).stage == ks && rest[i].partition == kp;
            assert(tasks[i] == rest[i]);
        }
    }
}

/// The actions for failed regions cancel exactly the live attempts at the tasks of these regions.
pub proof fn lemma_cancel_regions_exact(
    job_id: JobId,
    job: JobView,
    n: nat,
    now: Timestamp,
    key: TaskKey,
)
    requires
        job.well_formed(),
        attempts_countable(job),
        n <= job.regions.len(),
    ensures
        canceled_regions(job_id, job, n, now).1.contains(ActionView::CancelTask { key }) <==> {
            &&& key.job_id == job_id
            &&& is_doomed(job, n, key.stage as int, key.partition as int)
            &&& is_live_attempt(job, key)
        },
    decreases n,
{
    if n > 0 {
        let before = |s: int, p: int| is_doomed(job, (n - 1) as nat, s, p);
        let earlier = canceled_regions(job_id, job, (n - 1) as nat, now);
        let tasks = job.region_tasks(n - 1);
        lemma_cancel_regions_exact(job_id, job, (n - 1) as nat, now, key);
        lemma_canceled_regions(job_id, job, (n - 1) as nat, now);
        lemma_failure_kept(job, before, now, n - 1);
        assert(earlier.0.region_tasks(n - 1) == tasks);
        let ks = key.stage as int;
        let kp = key.partition as int;
        if has_failure(job, n - 1) {
            assert forall|i: int| 0 <= i < tasks.len() implies job.has_task(
                (#[trigger] tasks[i]).stage as int,
                tasks[i].partition as int,
            ) by {
                assert(tasks[i] == job.region_tasks(n - 1)[i]);
            }
            lemma_cancel_tasks_exact(job_id, job, before, tasks, now, key);
            lemma_contains_join(
                earlier.1,
                canceled_tasks(job_id, earlier.0, tasks, now).1,
                ActionView::CancelTask { key },
            );
            if is_listed(tasks, ks, kp) {
                let i = choose|i: int|
                    0 <= i < tasks.len() && (#[trigger] tasks[i]).stage == ks
                        && tasks[i].partition == kp;
                assert(job.region_tasks(n - 1)[i].stage == ks);
                assert(is_doomed(job, n, ks, kp));
            }
        }
        if is_doomed(job, n, ks, kp) {
            let (r, i) = choose|r: int, i: int|
                #![trigger job.region_tasks(r)[i]]
                0 <= r < n && 0 <= i < job.region_tasks(r).len() && has_failure(job, r)
                    && job.region_tasks(r)[i].stage == ks && job.region_tasks(r)[i].partition == kp;
            if r == n - 1 {
                assert(tasks[i].stage == ks);
                assert(is_listed(tasks, ks, kp));
            } else {
                assert(is_doomed(job, (n - 1) as nat, ks, kp));
            }
        }
        if is_doomed(job, (n - 1) as nat, ks, kp) {
            let (r, i) = choose|r: int, i: int|
                #![trigger job.region_tasks(r)[i]]
                0 <= r < n - 1 && 0 <= i < job.region_tasks(r).len() && has_failure(job, r)
                    && job.region_tasks(r)[i].stage == ks && job.region_tasks(r)[i].partition == kp;
            assert(job.region_tasks(r)[i].stage == ks);
            assert(is_doomed(job, n, ks, kp));
        }
    }
}

/// The attempts at a task while the first `n` of them have been canceled unless they have stopped.
spec fn partly_canceled(attempts: TaskView, n: nat, now: Timestamp) -> TaskView {
    Seq::new(
        attempts.len(),
        |a: int|
            if a < n {
                canceled_attempt(attempts[a], now)
            } else {
                attempts[a]
            },
    )
}

impl JobScheduler {
    /// Cancels all live attempts at a task.
    fn cancel_task_attempts(
        job_id: JobId,
        job: &mut JobDescriptor,
        task: TaskTopology,
        now: Timestamp,
        actions: &mut Vec<JobAction>,
    )
        requires
            old(job)@.has_task(task.stage as int, task.partition as int),
        ensures
            ({
                let s = task.stage;
                let p = task.partition;
                let attempts = old(job)@.attempts(s as int, p as int);
                &&& final(job)@ == old(job)@.with_attempts(
                    s as int,
                    p as int,
                    canceled_attempts(attempts, now),
                )
                &&& views(final(actions)@) == views(old(actions)@) + cancel_actions(
                    job_id,
                    s,
                    p,
                    attempts,
                    attempts.len(),
                )
            }),
    {
        let s: usize = task.stage;
        let p: usize = task.partition;
        let ghost before = job@;
        let ghost attempts = before.attempts(s as int, p as int);
        let ghost listed = views(actions@);
        let n: usize = job.num_attempts(s, p);
        let mut a: usize = 0;
        proof {
            assert(partly_canceled(attempts, 0, now) =~= attempts);
            let unchanged = before.with_attempts(s as int, p as int, attempts);
            assert(unchanged.stages[s as int].tasks =~= before.stages[s as int].tasks);
            assert(unchanged.stages =~= before.stages);
            assert(listed + cancel_actions(job_id, s, p, attempts, 0) =~= listed);
        }
        while a < n
            invariant
                a <= n,
                n == attempts.len(),
                before.has_task(s as int, p as int),
                attempts == before.attempts(s as int, p as int),
                job@ == before.with_attempts(
                    s as int,
                    p as int,
                    partly_canceled(attempts, a as nat, now),
                ),
                views(actions@) == listed + cancel_actions(job_id, s, p, attempts, a as nat),
            decreases n - a,
        {
            let ghost current = job@;
            assert(current.attempts(s as int, p as int)[a as int] == attempts[a as int]);
            if job.cancel_attempt(s, p, a, now) {
                let action = JobAction::CancelTask {
                    key: TaskKey { job_id, stage: s, partition: p, attempt: a },
                };
                proof {
                    lemma_views_push(actions@, action);
                }
                actions.push(action);
                assert(views(actions@) =~= listed + cancel_actions(
                    job_id,
                    s,
                    p,
                    attempts,
                    (a + 1) as nat,
                ));
            }
            proof {
                let next = partly_canceled(attempts, (a + 1) as nat, now);
                assert(current.attempts(s as int, p as int).update(
                    a as int,
                    canceled_attempt(attempts[a as int], now),
                ) =~= next);
                let expected = before.with_attempts(s as int, p as int, next);
                assert(job@.stages[s as int].tasks =~= expected.stages[s as int].tasks);
                assert(job@.stages =~= expected.stages);
            }
            a = a + 1;
        }
        assert(partly_canceled(attempts, n as nat, now) =~= canceled_attempts(attempts, now));
    }

    /// Whether the latest attempt at some task of a region has failed.
    pub(crate) fn has_region_failure(job: &JobDescriptor, region: usize) -> (r: bool)
        requires
            region < job@.topology.regions.len(),
        ensures
            r == has_failure(job@, region as int),
    {
        let topology = &job.topology.regions[region];
        assert(topology.tasks@ == job@.region_tasks(region as int));
        let mut i: usize = 0;
        while i < topology.tasks.len()
            invariant
                i <= topology.tasks@.len(),
                topology.tasks@ == job@.region_tasks(region as int),
                forall|k: int|
                    0 <= k < i ==> !has_failed(job@, #[trigger] job@.region_tasks(region as int)[k]),
            decreases topology.tasks@.len() - i,
        {
            let task = topology.tasks[i];
            match job.latest_state(task.stage, task.partition) {
                Some(TaskState::Failed) => {
                    assert(has_failed(job@, job@.region_tasks(region as int)[i as int]));
                    return true;
                },
                _ => {},
            }
            i = i + 1;
        }
        false
    }

    /// Cancels all live attempts at the tasks of every region in which the latest attempt at a task
    /// has failed.
    pub fn cascade_cancel_task_attempts(job_id: JobId, job: &mut JobDescriptor, now: Timestamp) -> (r:
        Vec<JobAction>)
        requires
            old(job)@.well_formed(),
        ensures
            (final(job)@, views(r@)) == canceled_regions(
                job_id,
                old(job)@,
                old(job)@.regions.len(),
                now,
            ),
            final(job)@.well_formed(),
    {
        let ghost before = job@;
        let mut actions: Vec<JobAction> = Vec::new();
        let n: usize = job.regions.len();
        let mut i: usize = 0;
        assert(views(actions@) =~= Seq::empty());
        while i < n
            invariant
                i <= n,
                n == before.regions.len(),
                before.well_formed(),
                job@.well_formed(),
                job@.regions.len() == n,
                (job@, views(actions@)) == canceled_regions(job_id, before, i as nat, now),
            decreases n - i,
        {
            if Self::has_region_failure(job, i) {
                let ghost current = job@;
                let ghost listed = views(actions@);
                let ghost tasks = current.region_tasks(i as int);
                let m: usize = job.topology.regions[i].tasks.len();
                let mut t: usize = 0;
                proof {
                    assert(tasks.take(0).len() == 0);
                    assert(listed + Seq::<ActionView>::empty() =~= listed);
                }
                while t < m
                    invariant
                        t <= m,
                        i < n,
                        current.well_formed(),
                        current.regions.len() == n,
                        tasks == current.region_tasks(i as int),
                        m == tasks.len(),
                        same_shape(current, job@),
                        job@.regions == current.regions,
                        job@ == canceled_tasks(job_id, current, tasks.take(t as int), now).0,
                        views(actions@) == listed + canceled_tasks(
                            job_id,
                            current,
                            tasks.take(t as int),
                            now,
                        ).1,
                    decreases m - t,
                {
                    let task = job.topology.regions[i].tasks[t];
                    proof {
                        assert(job@.topology.regions[i as int].tasks == tasks);
                        assert(task == tasks[t as int]);
                        assert(task == current.region_tasks(i as int)[t as int]);
                        assert(job@.stages[task.stage as int].tasks.len()
                            == current.stages[task.stage as int].tasks.len());
                        assert(tasks.take(t + 1).drop_last() =~= tasks.take(t as int));
                        assert(tasks.take(t + 1).last() == task);
                    }
                    Self::cancel_task_attempts(job_id, job, task, now, &mut actions);
                    t = t + 1;
                    assert(views(actions@) =~= listed + canceled_tasks(
                        job_id,
                        current,
                        tasks.take(t as int),
                        now,
                    ).1);
                }
                proof {
                    assert(tasks.take(t as int) =~= tasks);
                    lemma_same_shape(current, job@);
                }
            }
            i = i + 1;
        }
        actions
    }
}

}

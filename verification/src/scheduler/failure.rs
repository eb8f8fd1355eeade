//! Finding out why a job has failed.

use crate::scheduler::JobScheduler;
use crate::state::{AttemptView, CauseView, ErrorCause, JobDescriptor, JobView, TaskState, TaskView};
use vstd::prelude::*;
use vstd::string::*;

verus! {

/// The attempts at a task that have failed with a known cause.
pub open spec fn explained_failures(attempts: TaskView) -> TaskView {
    attempts.filter(|a: AttemptView| a.state is Failed && a.cause is Some)
}

/// The number of attempts at a task that have failed with a known cause.
pub open spec fn failures(job: JobView, stage: int, partition: int) -> nat {
    explained_failures(job.attempts(stage, partition)).len()
}

/// Whether a task has failed with a known cause, no task has done so more often, and no earlier
/// one as often.
pub open spec fn most_failing(job: JobView, stage: int, partition: int) -> bool {
    &&& job.has_task(stage, partition)
    &&& failures(job, stage, partition) > 0
    &&& forall|s: int, p: int|
        #![trigger job.attempts(s, p)]
        job.has_task(s, p) ==> failures(job, s, p) < failures(job, stage, partition) || (failures(
            job,
            s,
            p,
        ) == failures(job, stage, partition) && (stage < s || (stage == s && partition <= p)))
}

/// The cause of the failure of a job: the latest one of the task that fails most often.
pub open spec fn failure_cause(job: JobView) -> CauseView {
    if exists|s: int, p: int| most_failing(job, s, p) {
        let (s, p) = choose|s: int, p: int| most_failing(job, s, p);
        explained_failures(job.attempts(s, p)).last().cause->0@
    } else {
        CauseView::Internal("job failed for unknown reason"@)
    }
}

/// There is at most one task that fails most often.
pub proof fn lemma_most_failing_unique(job: JobView, s1: int, p1: int, s2: int, p2: int)
    requires
        most_failing(job, s1, p1),
        most_failing(job, s2, p2),
    ensures
        s1 == s2,
        p1 == p2,
{
    assert(job.attempts(s1, p1) == job.attempts(s1, p1));
    assert(job.attempts(s2, p2) == job.attempts(s2, p2));
}

/// One more attempt counts if it has failed with a known cause.
proof fn lemma_explained_failures_step(attempts: TaskView, n: int)
    requires
        0 <= n < attempts.len(),
    ensures
        explained_failures(attempts.take(n + 1)) == if attempts[n].state is Failed
            && attempts[n].cause is Some {
            explained_failures(attempts.take(n)).push(attempts[n])
        } else {
            explained_failures(attempts.take(n))
        },
{
    reveal(Seq::filter);
    assert(attempts.take(n + 1).drop_last() =~= attempts.take(n));
    assert(attempts.take(n + 1).last() == attempts[n]);
}

/// Counts the attempts at a task that have failed with a known cause, and finds the last of them.
fn count_failures(job: &JobDescriptor, stage: usize, partition: usize) -> (r: (usize, usize))
    requires
        job@.has_task(stage as int, partition as int),
    ensures
        r.0 == failures(job@, stage as int, partition as int),
        r.0 > 0 ==> {
            let attempts = job@.attempts(stage as int, partition as int);
            &&& r.1 < attempts.len()
            &&& attempts[r.1 as int] == explained_failures(attempts).last()
            &&& attempts[r.1 as int].cause is Some
        },
{
    let task = &job.stages[stage].tasks[partition];
    let ghost attempts = job@.attempts(stage as int, partition as int);
    assert(task@ == attempts);
    let mut count: usize = 0;
    let mut last: usize = 0;
    let mut i: usize = 0;
    proof {
        reveal(Seq::filter);
        assert(attempts.take(0).len() == 0);
        assert(explained_failures(attempts.take(0)).len() == 0);
    }
    while i < task.attempts.len()
        invariant
            i <= task.attempts@.len(),
            count <= i,
            task@ == attempts,
            count == explained_failures(attempts.take(i as int)).len(),
            count > 0 ==> last < i && attempts[last as int] == explained_failures(
                attempts.take(i as int),
            ).last() && attempts[last as int].cause is Some,
        decreases task.attempts@.len() - i,
    {
        assert(attempts[i as int] == task.attempts@[i as int]@);
        proof {
            lemma_explained_failures_step(attempts, i as int);
        }
        match task.attempts[i].state {
            TaskState::Failed => {
                if task.attempts[i].cause.is_some() {
                    count = count + 1;
                    last = i;
                }
            },
            _ => {},
        }
        i = i + 1;
    }
    assert(attempts.take(i as int) =~= attempts);
    (count, last)
}

impl JobScheduler {
    /// Infers why a job has failed.
    ///
    /// It is the most recent cause of the task that has failed the most number of times, and if
    /// there is a tie, of the one with the smallest stage and partition.
    pub fn infer_job_failure_cause(job: &JobDescriptor) -> (r: ErrorCause)
        ensures
            r@ == failure_cause(job@),
    {
        let ghost view = job@;
        // the most failures so far, and the task and the attempt with the latest of them
        let mut best: usize = 0;
        let mut best_stage: usize = 0;
        let mut best_partition: usize = 0;
        let mut best_attempt: usize = 0;
        let mut s: usize = 0;
        while s < job.stages.len()
            invariant
                s <= job.stages@.len(),
                view == job@,
                best == 0 ==> forall|s2: int, p2: int|
                    #![trigger view.attempts(s2, p2)]
                    view.has_task(s2, p2) && s2 < s ==> failures(view, s2, p2) == 0,
                best > 0 ==> {
                    &&& view.has_task(best_stage as int, best_partition as int)
                    &&& best_stage < s
                    &&& best == failures(view, best_stage as int, best_partition as int)
                    &&& best_attempt < view.attempts(
                        best_stage as int,
                        best_partition as int,
                    ).len()
                    &&& view.attempts(best_stage as int, best_partition as int)[best_attempt as int]
                        == explained_failures(
                        view.attempts(best_stage as int, best_partition as int),
                    ).last()
                    &&& view.attempts(
                        best_stage as int,
                        best_partition as int,
                    )[best_attempt as int].cause is Some
                    &&& forall|s2: int, p2: int|
                        #![trigger view.attempts(s2, p2)]
                        view.has_task(s2, p2) && s2 < s ==> failures(view, s2, p2) < best || (
                        failures(view, s2, p2) == best && (best_stage < s2 || (best_stage == s2
                            && best_partition <= p2)))
                },
            decreases job.stages@.len() - s,
        {
            let mut p: usize = 0;
            let n: usize = job.stages[s].tasks.len();
            assert(n == view.stages[s as int].tasks.len());
            while p < n
                invariant
                    s < job.stages@.len(),
                    p <= n,
                    view == job@,
                    n == view.stages[s as int].tasks.len(),
                    best == 0 ==> forall|s2: int, p2: int|
                        #![trigger view.attempts(s2, p2)]
                        view.has_task(s2, p2) && (s2 < s || (s2 == s && p2 < p)) ==> failures(
                            view,
                            s2,
                            p2,
                        ) == 0,
                    best > 0 ==> {
                        &&& view.has_task(best_stage as int, best_partition as int)
                        &&& best_stage < s || (best_stage == s && best_partition < p)
                        &&& best == failures(view, best_stage as int, best_partition as int)
                        &&& best_attempt < view.attempts(
                            best_stage as int,
                            best_partition as int,
                        ).len()
                        &&& view.attempts(
                            best_stage as int,
                            best_partition as int,
                        )[best_attempt as int] == explained_failures(
                            view.attempts(best_stage as int, best_partition as int),
                        ).last()
                        &&& view.attempts(
                            best_stage as int,
                            best_partition as int,
                        )[best_attempt as int].cause is Some
                        &&& forall|s2: int, p2: int|
                            #![trigger view.attempts(s2, p2)]
                            view.has_task(s2, p2) && (s2 < s || (s2 == s && p2 < p)) ==> failures(
                                view,
                                s2,
                                p2,
                            ) < best || (failures(view, s2, p2) == best && (best_stage < s2 || (
                            best_stage == s2 && best_partition <= p2)))
                    },
                decreases n - p,
            {
                let (count, last) = count_failures(job, s, p);
                if count > best {
                    best = count;
                    best_stage = s;
                    best_partition = p;
                    best_attempt = last;
                }
                p = p + 1;
            }
            s = s + 1;
        }
        if best > 0 {
            proof {
                assert(most_failing(view, best_stage as int, best_partition as int));
                let (s1, p1) = choose|s1: int, p1: int| most_failing(view, s1, p1);
                lemma_most_failing_unique(
                    view,
                    s1,
                    p1,
                    best_stage as int,
                    best_partition as int,
                );
            }
            let attempt = &job.stages[best_stage].tasks[best_partition].attempts[best_attempt];
            assert(attempt@ == view.attempts(
                best_stage as int,
                best_partition as int,
            )[best_attempt as int]);
            if let Some(cause) = &attempt.cause {
                return cause.clone();
            }
        }
        proof {
            assert forall|s1: int, p1: int| !most_failing(view, s1, p1) by {
                assert(view.attempts(s1, p1) == view.attempts(s1, p1));
            }
        }
        ErrorCause::Internal(String::from_str("job failed for unknown reason"))
    }
}

}

//! What happens to a job as a whole: refreshing it, cleaning it up and stopping it.

use crate::action::{extend_actions, lemma_views_push, views, ActionView, JobAction};
use crate::clock::Timestamp;
use crate::id::{JobId, TaskKey};
use crate::scheduler::cancel::{
    cancel_actions, canceled_regions, is_doomed, lemma_canceled_regions,
    lemma_with_canceled_shape,
};
use crate::scheduler::failure::failure_cause;
use crate::scheduler::options::{JobSchedulerOptions, SchedulerOptionsView};
use crate::scheduler::output::{
    can_release, extended_output, lemma_output_shape, lemma_released_shape, outputs_exist,
    release_actions, with_released,
};
use crate::scheduler::progress::with_region_states;
use crate::scheduler::schedule::{can_schedule, lemma_scheduled_regions, scheduled_regions};
use crate::scheduler::JobScheduler;
use crate::measurements::Measurements;
use crate::state::{
    canceled_attempt, canceled_attempts, lemma_same_shape, same_shape, AttemptView, ErrorCause,
    JobDescriptor, JobState, JobView, StageDescriptorView, StageState, TaskRegionState, TaskState,
    TaskView,
};
use vstd::prelude::*;

verus! {

/// An attempt once a state, a message and a cause have been reported for it.
pub open spec fn reported_attempt(
    attempt: AttemptView,
    state: TaskState,
    message: Option<String>,
    cause: Option<ErrorCause>,
    now: Timestamp,
) -> AttemptView {
    let next = attempt.state.consolidated(state);
    AttemptView {
        state: next,
        messages: match message {
            Some(m) => attempt.messages.push(m),
            None => attempt.messages,
        },
        cause: match cause {
            Some(c) => Some(c),
            None => attempt.cause,
        },
        stopped_at: if next.terminal() && attempt.stopped_at is None {
            Some(now)
        } else {
            attempt.stopped_at
        },
        ..attempt
    }
}

/// Whether a job has an attempt at a task.
pub open spec fn has_attempt(job: JobView, stage: int, partition: int, attempt: int) -> bool {
    job.has_task(stage, partition) && 0 <= attempt < job.attempts(stage, partition).len()
}

/// The job once something has been reported for an attempt at a task. A report for an attempt that
/// does not exist changes nothing.
pub open spec fn reported_job(
    job: JobView,
    stage: int,
    partition: int,
    attempt: int,
    state: TaskState,
    message: Option<String>,
    cause: Option<ErrorCause>,
    now: Timestamp,
) -> JobView {
    if has_attempt(job, stage, partition, attempt) {
        let attempts = job.attempts(stage, partition);
        job.with_attempts(
            stage,
            partition,
            attempts.update(
                attempt,
                reported_attempt(attempts[attempt], state, message, cause, now),
            ),
        )
    } else {
        job
    }
}

/// The job and the actions after what tasks have reported has been dealt with: the tasks of failed
/// regions are canceled, new output is added to the job output, output that is no longer needed
/// is removed, and the states of the regions are brought up to date.
pub open spec fn settled_job(max_attempts: nat, job_id: JobId, job: JobView, now: Timestamp) -> (
    JobView,
    Seq<ActionView>,
) {
    let canceled = canceled_regions(job_id, job, job.regions.len(), now);
    let extended = extended_output(job_id, canceled.0);
    let n = extended.0.stages.len();
    let released = with_released(extended.0, n, now);
    (
        with_region_states(released, max_attempts),
        canceled.1 + extended.1 + release_actions(job_id, extended.0, n),
    )
}

/// Whether some region of a job has failed.
pub open spec fn any_region_failed(job: JobView) -> bool {
    exists|r: int| 0 <= r < job.regions.len() && (#[trigger] job.regions[r]) is Failed
}

/// Whether all regions of a job have succeeded.
pub open spec fn all_regions_succeeded(job: JobView) -> bool {
    forall|r: int| 0 <= r < job.regions.len() ==> (#[trigger] job.regions[r]) is Succeeded
}

/// The job and the actions after the job has been refreshed. Only a running job changes.
///
/// If a region has failed, the job fails. If all regions have succeeded, the job output is read to
/// its end. Otherwise, the regions that are ready are scheduled.
pub open spec fn refreshed_job(
    options: SchedulerOptionsView,
    data: &Measurements,
    job_id: JobId,
    job: JobView,
    now: Timestamp,
) -> (JobView, Seq<ActionView>) {
    match job.state {
        JobState::Running { output, .. } => {
            let (settled, actions) = settled_job(
                options.task_max_attempts as nat,
                job_id,
                job,
                now,
            );
            if any_region_failed(settled) {
                (
                    JobView { state: JobState::Failed, stopped_at: Some(now), ..settled },
                    actions.push(
                        ActionView::FailJobOutput {
                            handle: output,
                            cause: failure_cause(settled),
                        },
                    ),
                )
            } else if all_regions_succeeded(settled) {
                (JobView { state: JobState::Draining, ..settled }, actions)
            } else {
                let (scheduled, more) = scheduled_regions(
                    options,
                    data,
                    job_id,
                    settled,
                    settled.regions.len(),
                    now,
                );
                (scheduled, actions + more)
            }
        },
        _ => (job, Seq::empty()),
    }
}

/// Whether a job can be refreshed.
///
/// A job that is running can be refreshed if its tasks are where they are looked for: all tasks of its
/// regions exist, every final stage has a task for every output partition of its plan, and so have the
/// consumers of an active stage as far as they are looked at, and the regions can be scheduled.
pub open spec fn can_refresh(
    options: SchedulerOptionsView,
    data: &Measurements,
    job_id: JobId,
    job: JobView,
    now: Timestamp,
) -> bool {
    job.state is Running ==> {
        let canceled = canceled_regions(job_id, job, job.regions.len(), now).0;
        let extended = extended_output(job_id, canceled).0;
        let settled = settled_job(options.task_max_attempts as nat, job_id, job, now).0;
        &&& job.well_formed()
        &&& outputs_exist(canceled)
        &&& can_release(extended)
        &&& any_region_failed(settled) || all_regions_succeeded(settled) || can_schedule(
            options,
            data,
            job_id,
            settled,
            settled.regions.len(),
            now,
        )
    }
}

/// The actions that cancel all live attempts at the tasks of a stage.
pub open spec fn stage_cancel_actions(job_id: JobId, job: JobView, stage: int) -> Seq<ActionView> {
    Seq::new(
        job.stages[stage].tasks.len(),
        |p: int|
            cancel_actions(
                job_id,
                stage as usize,
                p as usize,
                job.attempts(stage, p),
                job.attempts(stage, p).len(),
            ),
    ).flatten()
}

/// The actions that cancel all live attempts of a job.
pub open spec fn job_cancel_actions(job_id: JobId, job: JobView) -> Seq<ActionView> {
    Seq::new(job.stages.len(), |s: int| stage_cancel_actions(job_id, job, s)).flatten()
}

/// A stage once the job has been cleaned up.
pub open spec fn cleaned_stage(stage: StageDescriptorView, now: Timestamp) -> StageDescriptorView {
    StageDescriptorView {
        state: StageState::Inactive,
        stopped_at: match stage.stopped_at {
            Some(t) => Some(t),
            None => Some(now),
        },
        ..stage
    }
}

/// A job once it has been cleaned up. It has succeeded if its output was being read to its end, and
/// it is canceled otherwise.
pub open spec fn cleaned_job(job: JobView, now: Timestamp) -> JobView {
    JobView {
        stages: job.stages.map_values(|s: StageDescriptorView| cleaned_stage(s, now)),
        state: if job.state is Draining {
            JobState::Succeeded
        } else {
            JobState::Canceled
        },
        stopped_at: Some(now),
        ..job
    }
}

/// A stage once the scheduler has been stopped.
pub open spec fn stopped_stage(stage: StageDescriptorView, now: Timestamp) -> StageDescriptorView {
    StageDescriptorView {
        state: StageState::Inactive,
        stopped_at: if stage.state is Active {
            Some(now)
        } else {
            stage.stopped_at
        },
        tasks: stage.tasks.map_values(|attempts: TaskView| canceled_attempts(attempts, now)),
        ..stage
    }
}

/// Whether a job still has to be brought to its end.
pub open spec fn is_open(state: JobState) -> bool {
    state is Running || state is Draining
}

/// A job once the scheduler has been stopped.
pub open spec fn stopped_job(job: JobView, now: Timestamp) -> JobView {
    JobView {
        stages: job.stages.map_values(|s: StageDescriptorView| stopped_stage(s, now)),
        state: if is_open(job.state) {
            JobState::Canceled
        } else {
            job.state
        },
        stopped_at: if is_open(job.state) {
            Some(now)
        } else {
            job.stopped_at
        },
        ..job
    }
}

/// Reports keep the parts of a job together.
pub proof fn lemma_reported_shape(
    job: JobView,
    stage: int,
    partition: int,
    attempt: int,
    state: TaskState,
    message: Option<String>,
    cause: Option<ErrorCause>,
    now: Timestamp,
)
    requires
        job.linked(),
    ensures
        job.sound() ==> reported_job(
            job,
            stage,
            partition,
            attempt,
            state,
            message,
            cause,
            now,
        ).sound(),
        job.well_formed() ==> reported_job(
            job,
            stage,
            partition,
            attempt,
            state,
            message,
            cause,
            now,
        ).well_formed(),
{
    lemma_same_shape(
        job,
        reported_job(job, stage, partition, attempt, state, message, cause, now),
    );
}

/// Dealing with what tasks have reported keeps a job well formed and running.
pub proof fn lemma_settled_shape(max_attempts: nat, job_id: JobId, job: JobView, now: Timestamp)
    requires
        job.well_formed(),
    ensures
        ({
            let canceled = canceled_regions(job_id, job, job.regions.len(), now).0;
            let extended = extended_output(job_id, canceled).0;
            let settled = settled_job(max_attempts, job_id, job, now).0;
            &&& canceled.well_formed()
            &&& same_shape(job, canceled)
            &&& canceled.state == job.state
            &&& extended.well_formed()
            &&& same_shape(job, extended)
            &&& settled.well_formed()
            &&& same_shape(job, settled)
            &&& settled.state == job.state
            &&& settled.created_at == job.created_at
            &&& settled.stopped_at == job.stopped_at
        }),
{
    let n = job.regions.len();
    let doomed = |s: int, p: int| is_doomed(job, n, s, p);
    lemma_canceled_regions(job_id, job, n, now);
    lemma_with_canceled_shape(job, doomed, now);
    let canceled = canceled_regions(job_id, job, n, now).0;
    lemma_output_shape(canceled, |s: int, p: int| true);
    let extended = extended_output(job_id, canceled).0;
    lemma_released_shape(extended, extended.stages.len(), now);
    let released = with_released(extended, extended.stages.len(), now);
    lemma_same_shape(released, with_region_states(released, max_attempts));
}

/// Refreshing keeps the parts of a job together, as long as it can be done.
pub proof fn lemma_refreshed_shape(
    options: SchedulerOptionsView,
    data: &Measurements,
    job_id: JobId,
    job: JobView,
    now: Timestamp,
)
    requires
        job.sound(),
        can_refresh(options, data, job_id, job, now),
    ensures
        refreshed_job(options, data, job_id, job, now).0.sound(),
{
    if job.state is Running {
        lemma_settled_shape(options.task_max_attempts as nat, job_id, job, now);
        let settled = settled_job(options.task_max_attempts as nat, job_id, job, now).0;
        lemma_same_shape(
            settled,
            JobView { state: JobState::Failed, stopped_at: Some(now), ..settled },
        );
        lemma_same_shape(settled, JobView { state: JobState::Draining, ..settled });
        if !any_region_failed(settled) && !all_regions_succeeded(settled) {
            lemma_scheduled_regions(options, data, job_id, settled, settled.regions.len(), now);
        }
    }
}

/// Cleaning up and stopping keep the parts of a job together.
pub proof fn lemma_ended_shape(job: JobView, now: Timestamp)
    requires
        job.linked(),
    ensures
        job.sound() ==> cleaned_job(job, now).sound() && stopped_job(job, now).sound(),
        job.well_formed() ==> cleaned_job(job, now).well_formed() && stopped_job(
            job,
            now,
        ).well_formed(),
{
    lemma_same_shape(job, cleaned_job(job, now));
    lemma_same_shape(job, stopped_job(job, now));
}

impl JobDescriptor {
    /// Reports a state, a message and a cause for an attempt at a task.
    pub fn report(
        &mut self,
        stage: usize,
        partition: usize,
        attempt: usize,
        state: TaskState,
        message: Option<String>,
        cause: Option<ErrorCause>,
        now: Timestamp,
    )
        ensures
            final(self)@ == reported_job(
                old(self)@,
                stage as int,
                partition as int,
                attempt as int,
                state,
                message,
                cause,
                now,
            ),
    {
        let ghost before = self@;
        if stage >= self.stages.len() || partition >= self.stages[stage].tasks.len() || attempt
            >= self.stages[stage].tasks[partition].attempts.len() {
            return;
        }
        let ghost old_attempts = before.attempts(stage as int, partition as int);
        let ghost new_attempts = old_attempts.update(
            attempt as int,
            reported_attempt(old_attempts[attempt as int], state, message, cause, now),
        );
        let next = self.stages[stage].tasks[partition].attempts[attempt].state.consolidate(state);
        self.stages[stage].tasks[partition].attempts[attempt].state = next;
        if next.is_terminal()
            && self.stages[stage].tasks[partition].attempts[attempt].stopped_at.is_none() {
            self.stages[stage].tasks[partition].attempts[attempt].stopped_at = Some(now);
        }
        if let Some(m) = message {
            self.stages[stage].tasks[partition].attempts[attempt].messages.push(m);
        }
        if let Some(c) = cause {
            self.stages[stage].tasks[partition].attempts[attempt].cause = Some(c);
        }
        proof {
            assert(self@.attempts(stage as int, partition as int)[attempt as int]
                =~= new_attempts[attempt as int]);
            assert(self@.attempts(stage as int, partition as int) =~= new_attempts);
            let expected = before.with_attempts(stage as int, partition as int, new_attempts);
            assert(self@.stages[stage as int].tasks =~= expected.stages[stage as int].tasks);
            assert(self@.stages =~= expected.stages);
        }
    }

    /// Whether some region has failed.
    fn has_failed_region(&self) -> (r: bool)
        ensures
            r == any_region_failed(self@),
    {
        let mut i: usize = 0;
        while i < self.regions.len()
            invariant
                i <= self.regions@.len(),
                forall|k: int| 0 <= k < i ==> !((#[trigger] self@.regions[k]) is Failed),
            decreases self.regions@.len() - i,
        {
            assert(self@.regions[i as int] == self.regions@[i as int].state);
            match self.regions[i].state {
                TaskRegionState::Failed => {
                    return true;
                },
                _ => {},
            }
            i = i + 1;
        }
        false
    }

    /// Whether all regions have succeeded.
    fn has_succeeded(&self) -> (r: bool)
        ensures
            r == all_regions_succeeded(self@),
    {
        let mut i: usize = 0;
        while i < self.regions.len()
            invariant
                i <= self.regions@.len(),
                forall|k: int| 0 <= k < i ==> (#[trigger] self@.regions[k]) is Succeeded,
            decreases self.regions@.len() - i,
        {
            assert(self@.regions[i as int] == self.regions@[i as int].state);
            match self.regions[i].state {
                TaskRegionState::Succeeded => {},
                _ => {
                    return false;
                },
            }
            i = i + 1;
        }
        true
    }

    /// Lists the actions that cancel the live attempts at a task.
    fn list_task_cancels(
        &self,
        job_id: JobId,
        stage: usize,
        partition: usize,
        actions: &mut Vec<JobAction>,
    )
        requires
            self@.has_task(stage as int, partition as int),
        ensures
            views(final(actions)@) == views(old(actions)@) + cancel_actions(
                job_id,
                stage,
                partition,
                self@.attempts(stage as int, partition as int),
                self@.attempts(stage as int, partition as int).len(),
            ),
    {
        let ghost listed = views(actions@);
        let ghost attempts = self@.attempts(stage as int, partition as int);
        let task = &self.stages[stage].tasks[partition];
        assert(task@ == attempts);
        let mut a: usize = 0;
        assert(listed + cancel_actions(job_id, stage, partition, attempts, 0) =~= listed);
        while a < task.attempts.len()
            invariant
                a <= task.attempts@.len(),
                task@ == attempts,
                views(actions@) == listed + cancel_actions(
                    job_id,
                    stage,
                    partition,
                    attempts,
                    a as nat,
                ),
            decreases task.attempts@.len() - a,
        {
            assert(attempts[a as int] == task.attempts@[a as int]@);
            if !task.attempts[a].state.is_terminal() {
                let action = JobAction::CancelTask {
                    key: TaskKey { job_id, stage, partition, attempt: a },
                };
                proof {
                    lemma_views_push(actions@, action);
                }
                actions.push(action);
                assert(views(actions@) =~= listed + cancel_actions(
                    job_id,
                    stage,
                    partition,
                    attempts,
                    (a + 1) as nat,
                ));
            }
            a = a + 1;
        }
    }

    /// Lists the actions that cancel all live attempts.
    fn list_cancels(&self, job_id: JobId) -> (r: Vec<JobAction>)
        ensures
            views(r@) == job_cancel_actions(job_id, self@),
    {
        let ghost all = Seq::new(
            self@.stages.len(),
            |s: int| stage_cancel_actions(job_id, self@, s),
        );
        let mut actions: Vec<JobAction> = Vec::new();
        let mut s: usize = 0;
        assert(views(actions@) =~= all.take(0).flatten_alt());
        while s < self.stages.len()
            invariant
                s <= self.stages@.len(),
                all == Seq::new(
                    self@.stages.len(),
                    |s: int| stage_cancel_actions(job_id, self@, s),
                ),
                views(actions@) == all.take(s as int).flatten_alt(),
            decreases self.stages@.len() - s,
        {
            let ghost listed = views(actions@);
            let ghost parts = Seq::new(
                self@.stages[s as int].tasks.len(),
                |p: int|
                    cancel_actions(
                        job_id,
                        s,
                        p as usize,
                        self@.attempts(s as int, p),
                        self@.attempts(s as int, p).len(),
                    ),
            );
            let n: usize = self.stages[s].tasks.len();
            let mut p: usize = 0;
            assert(listed + parts.take(0).flatten_alt() =~= listed);
            while p < n
                invariant
                    p <= n,
                    s < self.stages@.len(),
                    n == self@.stages[s as int].tasks.len(),
                    parts == Seq::new(
                        self@.stages[s as int].tasks.len(),
                        |p: int|
                            cancel_actions(
                                job_id,
                                s,
                                p as usize,
                                self@.attempts(s as int, p),
                                self@.attempts(s as int, p).len(),
                            ),
                    ),
                    views(actions@) == listed + parts.take(p as int).flatten_alt(),
                decreases n - p,
            {
                proof {
                    assert(parts.take(p + 1).drop_last() =~= parts.take(p as int));
                    assert(parts.take(p + 1).last() == parts[p as int]);
                }
                self.list_task_cancels(job_id, s, p, &mut actions);
                p = p + 1;
                assert(views(actions@) =~= listed + parts.take(p as int).flatten_alt());
            }
            proof {
                assert(parts.take(p as int) =~= parts);
                parts.lemma_flatten_and_flatten_alt_are_equivalent();
                assert(parts =~= Seq::new(
                    self@.stages[s as int].tasks.len(),
                    |p: int|
                        cancel_actions(
                            job_id,
                            s as int as usize,
                            p as usize,
                            self@.attempts(s as int, p),
                            self@.attempts(s as int, p).len(),
                        ),
                ));
                assert(all.take(s + 1).drop_last() =~= all.take(s as int));
                assert(all.take(s + 1).last() == stage_cancel_actions(job_id, self@, s as int));
            }
            s = s + 1;
        }
        proof {
            assert(all.take(s as int) =~= all);
            all.lemma_flatten_and_flatten_alt_are_equivalent();
        }
        actions
    }

    /// Makes all stages inactive and ends the job.
    fn clean_up(&mut self, now: Timestamp)
        ensures
            final(self)@ == cleaned_job(old(self)@, now),
    {
        let ghost before = self@;
        let n: usize = self.stages.len();
        let mut s: usize = 0;
        while s < n
            invariant
                s <= n,
                n == before.stages.len(),
                n == self.stages@.len(),
                self@ == before.with_stages(
                    Seq::new(
                        before.stages.len(),
                        |k: int|
                            if k < s {
                                cleaned_stage(before.stages[k], now)
                            } else {
                                before.stages[k]
                            },
                    ),
                ),
            decreases n - s,
        {
            let ghost current = self@;
            assert(current.stages[s as int] == before.stages[s as int]);
            let stopped_at = match self.stages[s].stopped_at {
                Some(t) => Some(t),
                None => Some(now),
            };
            self.deactivate_stage(s, stopped_at);
            s = s + 1;
            assert(self@.stages =~= Seq::new(
                before.stages.len(),
                |k: int|
                    if k < s {
                        cleaned_stage(before.stages[k], now)
                    } else {
                        before.stages[k]
                    },
            ));
        }
        self.state = match self.state {
            JobState::Draining => JobState::Succeeded,
            _ => JobState::Canceled,
        };
        self.stopped_at = Some(now);
        assert(self@.stages =~= cleaned_job(before, now).stages);
    }

    /// Cancels all live attempts at a task.
    fn stop_task(&mut self, stage: usize, partition: usize, now: Timestamp)
        requires
            old(self)@.has_task(stage as int, partition as int),
        ensures
            final(self)@ == old(self)@.with_attempts(
                stage as int,
                partition as int,
                canceled_attempts(old(self)@.attempts(stage as int, partition as int), now),
            ),
    {
        let ghost before = self@;
        let ghost attempts = before.attempts(stage as int, partition as int);
        let n: usize = self.num_attempts(stage, partition);
        let mut a: usize = 0;
        proof {
            let unchanged = before.with_attempts(stage as int, partition as int, attempts);
            assert(unchanged.stages[stage as int].tasks =~= before.stages[stage as int].tasks);
            assert(unchanged.stages =~= before.stages);
            assert(attempts =~= Seq::new(
                n as nat,
                |k: int|
                    if k < 0 {
                        canceled_attempt(attempts[k], now)
                    } else {
                        attempts[k]
                    },
            ));
        }
        while a < n
            invariant
                a <= n,
                n == attempts.len(),
                before.has_task(stage as int, partition as int),
                attempts == before.attempts(stage as int, partition as int),
                self@ == before.with_attempts(
                    stage as int,
                    partition as int,
                    Seq::new(
                        n as nat,
                        |k: int|
                            if k < a {
                                canceled_attempt(attempts[k], now)
                            } else {
                                attempts[k]
                            },
                    ),
                ),
            decreases n - a,
        {
            let ghost current = self@;
            assert(current.attempts(stage as int, partition as int)[a as int]
                == attempts[a as int]);
            self.cancel_attempt(stage, partition, a, now);
            a = a + 1;
            proof {
                let next = Seq::new(
                    n as nat,
                    |k: int|
                        if k < a {
                            canceled_attempt(attempts[k], now)
                        } else {
                            attempts[k]
                        },
                );
                let expected = before.with_attempts(stage as int, partition as int, next);
                assert(self@.attempts(stage as int, partition as int) =~= next);
                assert(self@.stages[stage as int].tasks =~= expected.stages[stage as int].tasks);
                assert(self@.stages =~= expected.stages);
            }
        }
        proof {
            assert(Seq::new(
                n as nat,
                |k: int|
                    if k < a {
                        canceled_attempt(attempts[k], now)
                    } else {
                        attempts[k]
                    },
            ) =~= canceled_attempts(attempts, now));
        }
    }

    /// Makes a stage inactive and cancels all live attempts at its tasks.
    fn stop_stage(&mut self, stage: usize, now: Timestamp)
        requires
            stage < old(self)@.stages.len(),
        ensures
            final(self)@ == old(self)@.with_stage(
                stage as int,
                stopped_stage(old(self)@.stages[stage as int], now),
            ),
    {
        let ghost before = self@;
        match self.stages[stage].state {
            StageState::Active => {
                self.deactivate_stage(stage, Some(now));
            },
            StageState::Inactive => {
                assert(before.with_stage(stage as int, before.stages[stage as int]).stages
                    =~= before.stages);
            },
        }
        let ghost deactivated = StageDescriptorView {
            tasks: before.stages[stage as int].tasks,
            ..stopped_stage(before.stages[stage as int], now)
        };
        assert(self@ =~= before.with_stage(stage as int, deactivated));
        let ghost tasks = before.stages[stage as int].tasks;
        assert(self@.stages.len() == self.stages@.len());
        let n: usize = self.stages[stage].tasks.len();
        let mut p: usize = 0;
        assert(self@.stages[stage as int].tasks.len() == n);
        assert(tasks =~= Seq::new(
            n as nat,
            |k: int|
                if k < 0 {
                    canceled_attempts(tasks[k], now)
                } else {
                    tasks[k]
                },
        ));
        while p < n
            invariant
                p <= n,
                n == tasks.len(),
                stage < before.stages.len(),
                tasks == before.stages[stage as int].tasks,
                deactivated == (StageDescriptorView {
                    tasks: before.stages[stage as int].tasks,
                    ..stopped_stage(before.stages[stage as int], now)
                }),
                self@ == before.with_stage(
                    stage as int,
                    StageDescriptorView {
                        tasks: Seq::new(
                            n as nat,
                            |k: int|
                                if k < p {
                                    canceled_attempts(tasks[k], now)
                                } else {
                                    tasks[k]
                                },
                        ),
                        ..deactivated
                    },
                ),
            decreases n - p,
        {
            let ghost current = self@;
            assert(current.attempts(stage as int, p as int) == tasks[p as int]);
            self.stop_task(stage, p, now);
            p = p + 1;
            proof {
                let next = Seq::new(
                    n as nat,
                    |k: int|
                        if k < p {
                            canceled_attempts(tasks[k], now)
                        } else {
                            tasks[k]
                        },
                );
                let expected = before.with_stage(
                    stage as int,
                    StageDescriptorView { tasks: next, ..deactivated },
                );
                assert(self@.stages[stage as int].tasks =~= next);
                assert(self@.stages =~= expected.stages);
            }
        }
        proof {
            let expected = before.with_stage(
                stage as int,
                stopped_stage(before.stages[stage as int], now),
            );
            assert(self@.stages[stage as int].tasks =~= expected.stages[stage as int].tasks);
            assert(self@.stages =~= expected.stages);
        }
    }

    /// Ends the job unless it has ended, makes all stages inactive and cancels all live attempts.
    pub fn stop(&mut self, now: Timestamp)
        ensures
            final(self)@ == stopped_job(old(self)@, now),
    {
        let ghost before = self@;
        match self.state {
            JobState::Running { .. } | JobState::Draining => {
                self.state = JobState::Canceled;
                self.stopped_at = Some(now);
            },
            _ => {},
        }
        let ghost ended = JobView { stages: before.stages, ..stopped_job(before, now) };
        assert(self@ =~= ended);
        let n: usize = self.stages.len();
        let mut s: usize = 0;
        assert(before.stages =~= Seq::new(
            n as nat,
            |k: int|
                if k < 0 {
                    stopped_stage(before.stages[k], now)
                } else {
                    before.stages[k]
                },
        ));
        while s < n
            invariant
                s <= n,
                n == before.stages.len(),
                ended == (JobView { stages: before.stages, ..stopped_job(before, now) }),
                self@ == ended.with_stages(
                    Seq::new(
                        n as nat,
                        |k: int|
                            if k < s {
                                stopped_stage(before.stages[k], now)
                            } else {
                                before.stages[k]
                            },
                    ),
                ),
            decreases n - s,
        {
            let ghost current = self@;
            assert(current.stages[s as int] == before.stages[s as int]);
            self.stop_stage(s, now);
            s = s + 1;
            assert(self@.stages =~= Seq::new(
                n as nat,
                |k: int|
                    if k < s {
                        stopped_stage(before.stages[k], now)
                    } else {
                        before.stages[k]
                    },
            ));
        }
        assert(self@.stages =~= stopped_job(before, now).stages);
    }
}

impl JobScheduler {
    /// Whether all tasks of the regions of a job exist.
    fn check_tasks(job: &JobDescriptor) -> (r: bool)
        requires
            job@.sound(),
        ensures
            r == job@.well_formed(),
    {
        let n: usize = job.topology.regions.len();
        let mut i: usize = 0;
        while i < n
            invariant
                i <= n,
                n == job.topology.regions@.len(),
                job@.sound(),
                forall|r: int, k: int|
                    0 <= r < i && 0 <= k < job@.region_tasks(r).len() ==> job@.has_task(
                        (#[trigger] job@.region_tasks(r)[k]).stage as int,
                        job@.region_tasks(r)[k].partition as int,
                    ),
            decreases n - i,
        {
            let tasks = &job.topology.regions[i].tasks;
            assert(tasks@ == job@.region_tasks(i as int));
            let mut k: usize = 0;
            while k < tasks.len()
                invariant
                    k <= tasks@.len(),
                    i < n,
                    n == job.topology.regions@.len(),
                    job@.sound(),
                    tasks@ == job@.region_tasks(i as int),
                    forall|a: int|
                        0 <= a < k ==> job@.has_task(
                            (#[trigger] job@.region_tasks(i as int)[a]).stage as int,
                            job@.region_tasks(i as int)[a].partition as int,
                        ),
                decreases tasks@.len() - k,
            {
                assert(tasks@[k as int] == job@.region_tasks(i as int)[k as int]);
                if !job.contains_task(tasks[k].stage, tasks[k].partition) {
                    return false;
                }
                k = k + 1;
            }
            i = i + 1;
        }
        true
    }

    /// Refreshes a job if that can be done: deals with what its tasks have reported, and then fails the
    /// job, drains it, or schedules the regions that are ready. If it cannot be done, nothing is
    /// returned.
    pub fn try_refresh(
        options: &JobSchedulerOptions,
        data: &Measurements,
        job_id: JobId,
        job: &mut JobDescriptor,
        now: Timestamp,
    ) -> (r: Option<Vec<JobAction>>)
        requires
            old(job)@.sound(),
        ensures
            r is Some <==> can_refresh(options@, data, job_id, old(job)@, now),
            r is Some ==> (final(job)@, views(r->0@)) == refreshed_job(
                options@,
                data,
                job_id,
                old(job)@,
                now,
            ),
            r is Some ==> final(job)@.sound(),
    {
        let ghost before = job@;
        let mut actions: Vec<JobAction> = Vec::new();
        assert(views(actions@) =~= Seq::empty());
        let output = match job.state {
            JobState::Running { output, .. } => output,
            _ => {
                return Some(actions);
            },
        };
        if !Self::check_tasks(job) {
            return None;
        }
        proof {
            lemma_settled_shape(options@.task_max_attempts as nat, job_id, before, now);
        }
        let canceled = Self::cascade_cancel_task_attempts(job_id, job, now);
        extend_actions(&mut actions, canceled);
        if !Self::check_outputs(job) {
            return None;
        }
        let extended = Self::extend_job_output(job_id, job);
        extend_actions(&mut actions, extended);
        if !Self::check_release(job) {
            return None;
        }
        proof {
            lemma_released_shape(job@, job@.stages.len(), now);
        }
        let released = Self::clean_up_job_by_stage(job_id, job, now);
        extend_actions(&mut actions, released);
        Self::update_task_regions(job, options);
        let ghost settled = settled_job(options@.task_max_attempts as nat, job_id, before, now);
        proof {
            assert(job@ == settled.0);
            assert(views(actions@) =~= settled.1);
        }
        if job.has_failed_region() {
            let cause = Self::infer_job_failure_cause(job);
            let action = JobAction::FailJobOutput { handle: output, cause };
            proof {
                lemma_views_push(actions@, action);
                lemma_refreshed_shape(options@, data, job_id, before, now);
            }
            actions.push(action);
            job.state = JobState::Failed;
            job.stopped_at = Some(now);
            return Some(actions);
        }
        if job.has_succeeded() {
            proof {
                lemma_refreshed_shape(options@, data, job_id, before, now);
            }
            job.state = JobState::Draining;
            return Some(actions);
        }
        match Self::try_schedule_task_regions(options, data, job_id, job, now) {
            Some(scheduled) => {
                proof {
                    lemma_refreshed_shape(options@, data, job_id, before, now);
                }
                extend_actions(&mut actions, scheduled);
                Some(actions)
            },
            None => None,
        }
    }

    /// Refreshes a job: deals with what its tasks have reported, and then fails the job, drains it,
    /// or schedules the regions that are ready.
    pub fn refresh(
        options: &JobSchedulerOptions,
        data: &Measurements,
        job_id: JobId,
        job: &mut JobDescriptor,
        now: Timestamp,
    ) -> (r: Vec<JobAction>)
        requires
            old(job)@.sound(),
            can_refresh(options@, data, job_id, old(job)@, now),
        ensures
            (final(job)@, views(r@)) == refreshed_job(options@, data, job_id, old(job)@, now),
            final(job)@.sound(),
    {
        match Self::try_refresh(options, data, job_id, job, now) {
            Some(actions) => actions,
            None => Vec::new(),
        }
    }

    /// Cleans up a job: cancels all its live attempts, removes all its output streams and ends it.
    pub fn clean_up(job_id: JobId, job: &mut JobDescriptor, now: Timestamp) -> (r: Vec<JobAction>)
        ensures
            final(job)@ == cleaned_job(old(job)@, now),
            views(r@) == job_cancel_actions(job_id, old(job)@).push(
                ActionView::CleanUpJob { job_id, stage: None },
            ),
    {
        let mut actions = job.list_cancels(job_id);
        job.clean_up(now);
        let action = JobAction::CleanUpJob { job_id, stage: None };
        proof {
            lemma_views_push(actions@, action);
        }
        actions.push(action);
        actions
    }
}

}

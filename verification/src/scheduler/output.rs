//! Adding task outputs to the job output, and releasing those that are no longer needed.

use crate::action::{lemma_views_push, views, ActionView, JobAction};
use crate::clock::Timestamp;
use crate::id::{JobId, TaskStreamKey};
use crate::scheduler::JobScheduler;
use crate::state::{
    lemma_same_shape, same_shape, AttemptView, JobDescriptor, JobOutputHandle, JobState, JobView,
    StageDescriptorView, StageState, TaskState, TaskView,
};
use vstd::prelude::*;

verus! {

/// Whether all tasks of a stage have succeeded.
pub open spec fn stage_succeeded(job: JobView, stage: int) -> bool {
    forall|p: int|
        0 <= p < job.graph.stages[stage].plan.partitions ==> #[trigger] job.latest_state(stage, p)
            == Some(TaskState::Succeeded)
}

/// Whether a stage has consumers, and all of them have succeeded.
pub open spec fn consumers_succeeded(job: JobView, stage: int) -> bool {
    let consumers = job.topology.consumers[stage];
    &&& consumers.len() > 0
    &&& forall|i: int|
        0 <= i < consumers.len() ==> stage_succeeded(job, (#[trigger] consumers[i]) as int)
}

/// Whether a stage has fewer tasks than its plan has output partitions, and all of them have
/// succeeded, so that only tasks that do not exist are missing.
pub open spec fn is_overrun(job: JobView, stage: int) -> bool {
    &&& job.stages[stage].tasks.len() < job.graph.stages[stage].plan.partitions
    &&& forall|p: int|
        0 <= p < job.stages[stage].tasks.len() ==> #[trigger] job.latest_state(stage, p) == Some(
            TaskState::Succeeded,
        )
}

/// Whether it can be found out for every active stage whether its consumers have succeeded: up to the
/// first consumer that has not, none is overrun.
pub open spec fn can_release(job: JobView) -> bool {
    forall|s: int, i: int|
        0 <= s < job.stages.len() && job.stages[s].state is Active && 0 <= i
            < job.topology.consumers[s].len() && all_succeeded_before(job, s, i) ==> !is_overrun(
            job,
            (#[trigger] job.topology.consumers[s][i]) as int,
        )
}

/// Whether the first `n` consumers of a stage have succeeded.
pub open spec fn all_succeeded_before(job: JobView, stage: int, n: int) -> bool {
    forall|i: int|
        0 <= i < n ==> stage_succeeded(
            job,
            (#[trigger] job.topology.consumers[stage][i]) as int,
        )
}

/// Whether every final stage has a task for every output partition of its plan.
pub open spec fn outputs_exist(job: JobView) -> bool {
    forall|s: int|
        0 <= s < job.stages.len() && is_final(job, s) ==> (#[trigger] job.stages[s]).tasks.len()
            >= job.graph.stages[s].plan.partitions
}

/// Whether the output streams of a stage are kept, although nothing will read them any more.
pub open spec fn is_releasable(job: JobView, stage: int) -> bool {
    job.stages[stage].state is Active && consumers_succeeded(job, stage)
}

/// The job once the first `n` stages have been released where possible.
pub open spec fn with_released(job: JobView, n: nat, now: Timestamp) -> JobView {
    job.with_stages(
        Seq::new(
            job.stages.len(),
            |s: int|
                if s < n && is_releasable(job, s) {
                    StageDescriptorView {
                        state: StageState::Inactive,
                        stopped_at: Some(now),
                        ..job.stages[s]
                    }
                } else {
                    job.stages[s]
                },
        ),
    )
}

/// The actions that release the first `n` stages where possible.
pub open spec fn release_actions(job_id: JobId, job: JobView, n: nat) -> Seq<ActionView>
    decreases n,
{
    if n == 0 {
        Seq::empty()
    } else {
        let before = release_actions(job_id, job, (n - 1) as nat);
        if is_releasable(job, n - 1) {
            before.push(ActionView::CleanUpJob { job_id, stage: Some((n - 1) as usize) })
        } else {
            before
        }
    }
}

/// Whether a stage is final: no other stage consumes it.
pub open spec fn is_final(job: JobView, stage: int) -> bool {
    job.topology.consumers[stage].len() == 0
}

/// Whether the latest attempt at a task produces job output that has not been added yet.
pub open spec fn has_new_output(job: JobView, stage: int, partition: int) -> bool {
    let attempts = job.attempts(stage, partition);
    &&& is_final(job, stage)
    &&& attempts.len() > 0
    &&& attempts.last().state is Running || attempts.last().state is Succeeded
    &&& !attempts.last().job_output_fetched
}

/// The attempts at a task once the output of the latest one has been added to the job output.
pub open spec fn with_output_fetched(attempts: TaskView) -> TaskView {
    attempts.update(
        attempts.len() - 1,
        AttemptView { job_output_fetched: true, ..attempts.last() },
    )
}

/// The job once all new output has been added to the job output.
pub open spec fn with_all_output_fetched(job: JobView) -> JobView {
    with_some_output_fetched(job, |s: int, p: int| true)
}

/// The job once the new output of the chosen tasks has been added to the job output.
pub open spec fn with_some_output_fetched(job: JobView, chosen: spec_fn(int, int) -> bool) -> JobView {
    job.with_stages(
        Seq::new(
            job.stages.len(),
            |s: int|
                StageDescriptorView {
                    tasks: Seq::new(
                        job.stages[s].tasks.len(),
                        |p: int|
                            if chosen(s, p) && has_new_output(job, s, p) {
                                with_output_fetched(job.attempts(s, p))
                            } else {
                                job.attempts(s, p)
                            },
                    ),
                    ..job.stages[s]
                },
        ),
    )
}

/// The action that adds a channel of the latest attempt at a task to the job output.
pub open spec fn output_action(
    job_id: JobId,
    job: JobView,
    handle: JobOutputHandle,
    stage: int,
    partition: int,
    channel: int,
) -> ActionView {
    ActionView::ExtendJobOutput {
        handle,
        key: TaskStreamKey {
            job_id,
            stage: stage as usize,
            partition: partition as usize,
            attempt: (job.attempts(stage, partition).len() - 1) as usize,
            channel: channel as usize,
        },
        schema: job.graph.schema,
    }
}

/// The actions that add all channels of the latest attempt at a task to the job output, if they
/// are to be added.
pub open spec fn task_output_actions(
    job_id: JobId,
    job: JobView,
    handle: JobOutputHandle,
    stage: int,
    partition: int,
) -> Seq<ActionView> {
    if has_new_output(job, stage, partition) {
        Seq::new(
            job.graph.stages[stage].distribution.spec_channels() as nat,
            |c: int| output_action(job_id, job, handle, stage, partition, c),
        )
    } else {
        Seq::empty()
    }
}

/// The actions that add the new output of a stage to the job output, task by task.
pub open spec fn stage_output_actions(
    job_id: JobId,
    job: JobView,
    handle: JobOutputHandle,
    stage: int,
) -> Seq<ActionView> {
    Seq::new(
        job.stages[stage].tasks.len(),
        |p: int| task_output_actions(job_id, job, handle, stage, p),
    ).flatten()
}

/// The actions that add all new output to the job output, stage by stage.
pub open spec fn output_actions(job_id: JobId, job: JobView, handle: JobOutputHandle) -> Seq<
    ActionView,
> {
    Seq::new(
        job.stages.len(),
        |s: int| stage_output_actions(job_id, job, handle, s),
    ).flatten()
}

/// The job and the actions once all new output has been added to the job output. A job that is not
/// running takes in no output.
pub open spec fn extended_output(job_id: JobId, job: JobView) -> (JobView, Seq<ActionView>) {
    match job.state {
        JobState::Running { output, .. } => (
            with_all_output_fetched(job),
            output_actions(job_id, job, output),
        ),
        _ => (job, Seq::empty()),
    }
}

/// Adding output to the job output keeps the parts of a job together.
pub proof fn lemma_output_shape(job: JobView, chosen: spec_fn(int, int) -> bool)
    requires
        job.linked(),
    ensures
        same_shape(job, with_some_output_fetched(job, chosen)),
        job.sound() ==> with_some_output_fetched(job, chosen).sound(),
        job.well_formed() ==> with_some_output_fetched(job, chosen).well_formed(),
{
    lemma_same_shape(job, with_some_output_fetched(job, chosen));
}

/// Releasing stages keeps the parts of a job together.
pub proof fn lemma_released_shape(job: JobView, n: nat, now: Timestamp)
    requires
        job.linked(),
    ensures
        same_shape(job, with_released(job, n, now)),
        job.sound() ==> with_released(job, n, now).sound(),
        job.well_formed() ==> with_released(job, n, now).well_formed(),
{
    lemma_same_shape(job, with_released(job, n, now));
}

impl JobScheduler {
    /// Whether all tasks of a stage have succeeded.
    fn has_stage_succeeded(job: &JobDescriptor, stage: usize) -> (r: bool)
        requires
            job@.graph.stages.len() > stage,
        ensures
            r == stage_succeeded(job@, stage as int),
    {
        let n: usize = job.graph.stages[stage].plan.partitions;
        assert(n == job@.graph.stages[stage as int].plan.partitions);
        let mut p: usize = 0;
        while p < n
            invariant
                p <= n,
                n == job@.graph.stages[stage as int].plan.partitions,
                forall|k: int|
                    0 <= k < p ==> #[trigger] job@.latest_state(stage as int, k) == Some(
                        TaskState::Succeeded,
                    ),
            decreases n - p,
        {
            match job.latest_state(stage, p) {
                Some(TaskState::Succeeded) => {},
                _ => {
                    assert(job@.latest_state(stage as int, p as int) != Some(
                        TaskState::Succeeded,
                    ));
                    return false;
                },
            }
            p = p + 1;
        }
        true
    }

    /// Whether the output streams of a stage are kept, although nothing will read them any more.
    fn is_stage_releasable(job: &JobDescriptor, stage: usize) -> (r: bool)
        requires
            job@.linked(),
            stage < job@.stages.len(),
        ensures
            r == is_releasable(job@, stage as int),
    {
        match job.stages[stage].state {
            StageState::Inactive => {
                return false;
            },
            StageState::Active => {},
        }
        let consumers = &job.topology.stages[stage].consumers;
        assert(consumers@ == job@.topology.consumers[stage as int]);
        let mut i: usize = 0;
        while i < consumers.len()
            invariant
                i <= consumers@.len(),
                job@.linked(),
                stage < job@.stages.len(),
                consumers@ == job@.topology.consumers[stage as int],
                forall|k: int|
                    0 <= k < i ==> stage_succeeded(job@, (#[trigger] consumers@[k]) as int),
            decreases consumers@.len() - i,
        {
            assert(job@.topology.consumers[stage as int][i as int] < job@.stages.len());
            if !Self::has_stage_succeeded(job, consumers[i]) {
                assert(!stage_succeeded(
                    job@,
                    job@.topology.consumers[stage as int][i as int] as int,
                ));
                return false;
            }
            i = i + 1;
        }
        consumers.len() > 0
    }

    /// Whether every final stage has a task for every output partition of its plan.
    pub(crate) fn check_outputs(job: &JobDescriptor) -> (r: bool)
        requires
            job@.linked(),
        ensures
            r == outputs_exist(job@),
    {
        let n: usize = job.stages.len();
        let mut s: usize = 0;
        while s < n
            invariant
                s <= n,
                n == job.stages@.len(),
                job@.linked(),
                forall|a: int|
                    0 <= a < s && is_final(job@, a) ==> (#[trigger] job@.stages[a]).tasks.len()
                        >= job@.graph.stages[a].plan.partitions,
            decreases n - s,
        {
            let is_final_stage = job.topology.stages[s].consumers.len() == 0;
            assert(job@.topology.consumers[s as int] == job.topology.stages@[s as int].consumers@);
            assert(is_final_stage == is_final(job@, s as int));
            assert(job@.stages[s as int].tasks.len() == job.stages@[s as int].tasks@.len());
            if is_final_stage && job.stages[s].tasks.len() < job.graph.stages[s].plan.partitions {
                return false;
            }
            s = s + 1;
        }
        true
    }

    /// Whether a stage has fewer tasks than output partitions, and all of them have succeeded.
    fn check_overrun(job: &JobDescriptor, stage: usize) -> (r: bool)
        requires
            job@.linked(),
            stage < job@.stages.len(),
        ensures
            r == is_overrun(job@, stage as int),
    {
        let n: usize = job.stages[stage].tasks.len();
        assert(n == job@.stages[stage as int].tasks.len());
        if n >= job.graph.stages[stage].plan.partitions {
            return false;
        }
        let mut p: usize = 0;
        while p < n
            invariant
                p <= n,
                n == job@.stages[stage as int].tasks.len(),
                forall|k: int|
                    0 <= k < p ==> #[trigger] job@.latest_state(stage as int, k) == Some(
                        TaskState::Succeeded,
                    ),
            decreases n - p,
        {
            match job.latest_state(stage, p) {
                Some(TaskState::Succeeded) => {},
                _ => {
                    assert(job@.latest_state(stage as int, p as int) != Some(
                        TaskState::Succeeded,
                    ));
                    return false;
                },
            }
            p = p + 1;
        }
        true
    }

    /// Whether it can be found out for every active stage whether its consumers have succeeded.
    pub(crate) fn check_release(job: &JobDescriptor) -> (r: bool)
        requires
            job@.linked(),
        ensures
            r == can_release(job@),
    {
        let n: usize = job.stages.len();
        let mut s: usize = 0;
        while s < n
            invariant
                s <= n,
                n == job.stages@.len(),
                job@.linked(),
                forall|a: int, i: int|
                    0 <= a < s && job@.stages[a].state is Active && 0 <= i
                        < job@.topology.consumers[a].len() && all_succeeded_before(job@, a, i)
                        ==> !is_overrun(
                        job@,
                        (#[trigger] job@.topology.consumers[a][i]) as int,
                    ),
            decreases n - s,
        {
            let is_active = match job.stages[s].state {
                StageState::Active => true,
                StageState::Inactive => false,
            };
            assert(is_active == job@.stages[s as int].state is Active);
            let consumers = &job.topology.stages[s].consumers;
            assert(consumers@ == job@.topology.consumers[s as int]);
            let mut going = is_active;
            let mut i: usize = 0;
            while going && i < consumers.len()
                invariant
                    i <= consumers@.len(),
                    s < n,
                    n == job.stages@.len(),
                    job@.linked(),
                    consumers@ == job@.topology.consumers[s as int],
                    is_active == job@.stages[s as int].state is Active,
                    going ==> is_active && all_succeeded_before(job@, s as int, i as int),
                    !going ==> !is_active || !all_succeeded_before(job@, s as int, i as int),
                    forall|k: int|
                        0 <= k < i && is_active && all_succeeded_before(job@, s as int, k)
                            ==> !is_overrun(
                            job@,
                            (#[trigger] job@.topology.consumers[s as int][k]) as int,
                        ),
                decreases
                    consumers@.len() - i,
                    if going {
                        1int
                    } else {
                        0int
                    },
            {
                assert(job@.topology.consumers[s as int][i as int] < job@.stages.len());
                if Self::check_overrun(job, consumers[i]) {
                    return false;
                }
                going = Self::has_stage_succeeded(job, consumers[i]);
                i = i + 1;
                assert(!going ==> !stage_succeeded(
                    job@,
                    job@.topology.consumers[s as int][i - 1] as int,
                ));
            }
            assert forall|k: int|
                0 <= k < job@.topology.consumers[s as int].len() && is_active
                    && all_succeeded_before(job@, s as int, k) implies !is_overrun(
                job@,
                (#[trigger] job@.topology.consumers[s as int][k]) as int,
            ) by {
                if k >= i {
                    let done = i as int;
                    assert forall|j: int| 0 <= j < done implies stage_succeeded(
                        job@,
                        (#[trigger] job@.topology.consumers[s as int][j]) as int,
                    ) by {}
                    assert(all_succeeded_before(job@, s as int, done));
                }
            }
            s = s + 1;
        }
        true
    }

    /// Removes the output streams of every stage whose consumers have all succeeded, if that has
    /// not been done before.
    pub fn clean_up_job_by_stage(job_id: JobId, job: &mut JobDescriptor, now: Timestamp) -> (r: Vec<
        JobAction,
    >)
        requires
            old(job)@.sound(),
            can_release(old(job)@),
        ensures
            final(job)@ == with_released(old(job)@, old(job)@.stages.len(), now),
            views(r@) == release_actions(job_id, old(job)@, old(job)@.stages.len()),
            final(job)@.sound(),
    {
        let ghost before = job@;
        let mut actions: Vec<JobAction> = Vec::new();
        let n: usize = job.stages.len();
        let mut s: usize = 0;
        proof {
            assert(views(actions@) =~= Seq::empty());
            assert(with_released(before, 0, now).stages =~= before.stages);
        }
        while s < n
            invariant
                s <= n,
                n == before.stages.len(),
                before.sound(),
                job@ == with_released(before, s as nat, now),
                views(actions@) == release_actions(job_id, before, s as nat),
            decreases n - s,
        {
            proof {
                lemma_released_shape(before, s as nat, now);
                lemma_released_kept(before, s as nat, now, s as int);
            }
            let ghost current = job@;
            if Self::is_stage_releasable(job, s) {
                job.deactivate_stage(s, Some(now));
                let action = JobAction::CleanUpJob { job_id, stage: Some(s) };
                proof {
                    lemma_views_push(actions@, action);
                }
                actions.push(action);
            }
            s = s + 1;
            assert(job@.stages =~= with_released(before, s as nat, now).stages);
        }
        proof {
            lemma_released_shape(before, n as nat, now);
        }
        actions
    }

    /// Adds the channels of every task of a final stage that is running or has succeeded to the job
    /// output, if they have not been added before.
    pub fn extend_job_output(job_id: JobId, job: &mut JobDescriptor) -> (r: Vec<JobAction>)
        requires
            old(job)@.sound(),
            old(job)@.state is Running ==> outputs_exist(old(job)@),
        ensures
            (final(job)@, views(r@)) == extended_output(job_id, old(job)@),
            final(job)@.sound(),
    {
        let handle = match job.state {
            JobState::Running { output, .. } => output,
            _ => {
                let none: Vec<JobAction> = Vec::new();
                assert(views(none@) =~= Seq::empty());
                return none;
            },
        };
        let ghost before = job@;
        let ghost all = Seq::new(
            before.stages.len(),
            |s: int| stage_output_actions(job_id, before, handle, s),
        );
        let mut actions: Vec<JobAction> = Vec::new();
        let n: usize = job.stages.len();
        let mut s: usize = 0;
        proof {
            assert(views(actions@) =~= all.take(0).flatten_alt());
            assert(with_some_output_fetched(before, |a: int, b: int| a < 0).stages
                =~~= before.stages);
        }
        while s < n
            invariant
                s <= n,
                n == before.stages.len(),
                before.sound(),
                outputs_exist(before),
                all == Seq::new(
                    before.stages.len(),
                    |s: int| stage_output_actions(job_id, before, handle, s),
                ),
                job@ == with_some_output_fetched(before, |a: int, b: int| a < s),
                views(actions@) == all.take(s as int).flatten_alt(),
            decreases n - s,
        {
            proof {
                lemma_output_shape(before, |a: int, b: int| a < s);
            }
            Self::extend_stage_output(job_id, job, handle, s, &mut actions, Ghost(before));
            s = s + 1;
            proof {
                assert(all.take(s as int).drop_last() =~= all.take(s - 1));
            }
        }
        proof {
            lemma_output_shape(before, |a: int, b: int| true);
            assert(job@.stages =~~= with_all_output_fetched(before).stages);
            assert(all.take(s as int) =~= all);
            all.lemma_flatten_and_flatten_alt_are_equivalent();
        }
        actions
    }

    /// Adds the channels of the tasks of a stage to the job output where that is to be done.
    fn extend_stage_output(
        job_id: JobId,
        job: &mut JobDescriptor,
        handle: JobOutputHandle,
        stage: usize,
        actions: &mut Vec<JobAction>,
        Ghost(before): Ghost<JobView>,
    )
        requires
            before.sound(),
            outputs_exist(before),
            stage < before.stages.len(),
            old(job)@ == with_some_output_fetched(before, |a: int, b: int| a < stage),
        ensures
            final(job)@ == with_some_output_fetched(before, |a: int, b: int| a < stage + 1),
            views(final(actions)@) == views(old(actions)@) + stage_output_actions(
                job_id,
                before,
                handle,
                stage as int,
            ),
    {
        let ghost listed = views(actions@);
        let ghost parts = Seq::new(
            before.stages[stage as int].tasks.len(),
            |p: int| task_output_actions(job_id, before, handle, stage as int, p),
        );
        proof {
            lemma_output_shape(before, |a: int, b: int| a < stage);
        }
        let is_final_stage = job.topology.stages[stage].consumers.len() == 0;
        let channels: usize = job.graph.stages[stage].distribution.channels();
        let partitions: usize = job.stages[stage].tasks.len();
        proof {
            assert(job@.stages[stage as int].tasks.len() == partitions);
            assert(before.stages[stage as int].tasks.len() == partitions);
            assert(job@.topology.consumers[stage as int]
                == job.topology.stages@[stage as int].consumers@);
            assert(is_final_stage == is_final(before, stage as int));
        }
        let mut p: usize = 0;
        proof {
            assert(listed + parts.take(0).flatten_alt() =~= listed);
            assert(job@.stages =~~= with_some_output_fetched(
                before,
                |a: int, b: int| a < stage || (a == stage && b < 0),
            ).stages);
        }
        while p < partitions
            invariant
                p <= partitions,
                before.sound(),
                stage < before.stages.len(),
                partitions == before.stages[stage as int].tasks.len(),
                channels == before.graph.stages[stage as int].distribution.spec_channels(),
                is_final_stage == is_final(before, stage as int),
                parts == Seq::new(
                    before.stages[stage as int].tasks.len(),
                    |p: int| task_output_actions(job_id, before, handle, stage as int, p),
                ),
                job@ == with_some_output_fetched(
                    before,
                    |a: int, b: int| a < stage || (a == stage && b < p),
                ),
                views(actions@) == listed + parts.take(p as int).flatten_alt(),
            decreases partitions - p,
        {
            let ghost current = job@;
            proof {
                assert(current.attempts(stage as int, p as int) == before.attempts(
                    stage as int,
                    p as int,
                ));
                assert(parts.take(p + 1).drop_last() =~= parts.take(p as int));
                assert(parts.take(p + 1).last() == task_output_actions(
                    job_id,
                    before,
                    handle,
                    stage as int,
                    p as int,
                ));
            }
            let fresh = is_final_stage && Self::has_unfetched_output(job, stage, p);
            assert(fresh == has_new_output(before, stage as int, p as int));
            if fresh {
                let attempt: usize = job.num_attempts(stage, p) - 1;
                let schema = job.graph.schema;
                job.mark_output_fetched(stage, p);
                let ghost added = views(actions@);
                let mut c: usize = 0;
                assert(added =~= added + Seq::new(
                    0,
                    |c: int|
                        output_action(job_id, before, handle, stage as int, p as int, c),
                ));
                while c < channels
                    invariant
                        c <= channels,
                        attempt == before.attempts(stage as int, p as int).len() - 1,
                        schema == before.graph.schema,
                        views(actions@) == added + Seq::new(
                            c as nat,
                            |c: int|
                                output_action(job_id, before, handle, stage as int, p as int, c),
                        ),
                    decreases channels - c,
                {
                    let key = TaskStreamKey { job_id, stage, partition: p, attempt, channel: c };
                    let action = JobAction::ExtendJobOutput { handle, key, schema };
                    proof {
                        lemma_views_push(actions@, action);
                    }
                    actions.push(action);
                    c = c + 1;
                    assert(views(actions@) =~= added + Seq::new(
                        c as nat,
                        |c: int|
                            output_action(job_id, before, handle, stage as int, p as int, c),
                    ));
                }
            }
            proof {
                assert(views(actions@) =~= listed + (parts.take(p as int).flatten_alt()
                    + task_output_actions(job_id, before, handle, stage as int, p as int)));
                let expected = with_some_output_fetched(
                    before,
                    |a: int, b: int| a < stage || (a == stage && b < p + 1),
                );
                assert forall|a: int| 0 <= a < before.stages.len() implies #[trigger] job@.stages[a]
                    == expected.stages[a] by {
                    assert(job@.stages[a].tasks =~= expected.stages[a].tasks);
                }
                assert(job@.stages =~= expected.stages);
            }
            p = p + 1;
        }
        proof {
            assert(parts.take(p as int) =~= parts);
            parts.lemma_flatten_and_flatten_alt_are_equivalent();
            assert(job@.stages =~~= with_some_output_fetched(
                before,
                |a: int, b: int| a < stage + 1,
            ).stages);
        }
    }

    /// Whether the latest attempt at a task is running or has succeeded, and its output has not
    /// been added to the job output.
    fn has_unfetched_output(job: &JobDescriptor, stage: usize, partition: usize) -> (r: bool)
        requires
            job@.has_task(stage as int, partition as int),
        ensures
            ({
                let attempts = job@.attempts(stage as int, partition as int);
                r == (attempts.len() > 0 && (attempts.last().state is Running
                    || attempts.last().state is Succeeded) && !attempts.last().job_output_fetched)
            }),
    {
        let task = &job.stages[stage].tasks[partition];
        assert(task@ == job@.attempts(stage as int, partition as int));
        let n: usize = task.attempts.len();
        if n == 0 {
            return false;
        }
        let attempt = &task.attempts[n - 1];
        assert(attempt@ == task@.last());
        match attempt.state {
            TaskState::Running | TaskState::Succeeded => !attempt.job_output_fetched,
            _ => false,
        }
    }
}

/// Releasing some stages does not change whether another one can be released.
proof fn lemma_released_kept(job: JobView, n: nat, now: Timestamp, stage: int)
    requires
        n <= stage < job.stages.len(),
    ensures
        is_releasable(with_released(job, n, now), stage) == is_releasable(job, stage),
{
    let after = with_released(job, n, now);
    assert forall|s: int, p: int| #[trigger]
        after.latest_state(s, p) == job.latest_state(s, p) by {}
    assert forall|s: int| #[trigger] stage_succeeded(after, s) == stage_succeeded(job, s) by {
        if stage_succeeded(after, s) {
            assert forall|p: int| 0 <= p < job.graph.stages[s].plan.partitions implies
                #[trigger] job.latest_state(s, p) == Some(TaskState::Succeeded) by {
                assert(after.latest_state(s, p) == Some(TaskState::Succeeded));
            }
        }
    }
    if consumers_succeeded(job, stage) {
        assert forall|i: int| 0 <= i < after.topology.consumers[stage].len() implies
            stage_succeeded(after, (#[trigger] after.topology.consumers[stage][i]) as int) by {
            assert(stage_succeeded(job, job.topology.consumers[stage][i] as int));
        }
    }
    if consumers_succeeded(after, stage) {
        assert forall|i: int| 0 <= i < job.topology.consumers[stage].len() implies
            stage_succeeded(job, (#[trigger] job.topology.consumers[stage][i]) as int) by {
            assert(stage_succeeded(after, after.topology.consumers[stage][i] as int));
        }
    }
}

}

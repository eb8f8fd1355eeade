//! The job scheduler.

pub mod adapt;
pub mod cancel;
pub mod choices;
pub mod course;
pub mod definition;
pub mod effects;
pub mod failure;
pub mod grouping;
pub mod input;
pub mod keys;
pub mod laws;
pub mod lifecycle;
pub mod limits;
pub mod options;
pub mod order;
pub mod output;
pub mod progress;
pub mod reads;
pub mod records;
pub mod refreshable;
pub mod region;
pub mod regroup;
pub mod repeat;
pub mod requests;
pub mod schedule;
pub mod sequence;
pub mod sets;
pub mod snapshot;
pub mod stability;
pub mod starts;

use crate::action::{views, ActionView, JobAction};
use crate::clock::{now, Timestamp};
use crate::error::{
    id_generation_failed_text, job_not_found, job_not_found_text, job_not_running,
    job_not_running_text, malformed_job_text, stage_not_found, stage_not_found_text, ErrorView,
    ExecutionError, ExecutionResult,
};
use crate::id::{JobId, JobIdGenerator, TaskKey};
use crate::job::new_job;
use crate::job_graph::JobGraph;
use crate::scheduler::definition::{stage_definition, EncodedStage};
use crate::scheduler::lifecycle::{
    can_refresh, cleaned_job, has_attempt, job_cancel_actions, lemma_ended_shape,
    lemma_reported_shape, refreshed_job, reported_job, stopped_job,
};
use crate::scheduler::options::{JobSchedulerOptions, SchedulerOptionsView};
use crate::measurements::Measurements;
use crate::state::{
    ErrorCause, JobDescriptor, JobOutputHandle, JobState, JobView, TaskContextHandle, TaskState,
};
use crate::task::{TaskAssignment, TaskAssignmentGetter, TaskDefinition, TaskDefinitionView};
use crate::topology::JobTopology;
use vstd::prelude::*;

verus! {

/// Keeps the jobs and decides what to do next for each of them.
pub struct JobScheduler {
    options: JobSchedulerOptions,
    jobs: Vec<(JobId, JobDescriptor)>,
    job_id_generator: JobIdGenerator,
}

/// The job scheduler as a mathematical value: its options, its jobs, and the value of the next job
/// identifier.
#[verifier::ext_equal]
pub struct SchedulerView {
    pub options: SchedulerOptionsView,
    pub jobs: Map<JobId, JobView>,
    pub next_id: nat,
}

/// The position of the first job with an identifier, or the number of jobs if there is none.
spec fn job_position(jobs: Seq<(JobId, JobDescriptor)>, job_id: JobId) -> int
    decreases jobs.len(),
{
    if jobs.len() == 0 || jobs[0].0 == job_id {
        0
    } else {
        1 + job_position(jobs.skip(1), job_id)
    }
}

/// The jobs of a list by their identifiers.
spec fn job_map(jobs: Seq<(JobId, JobDescriptor)>) -> Map<JobId, JobView> {
    Map::new(
        |job_id: JobId| job_position(jobs, job_id) < jobs.len(),
        |job_id: JobId| jobs[job_position(jobs, job_id)].1@,
    )
}

/// Whether no two jobs of a list have the same identifier.
spec fn distinct_ids(jobs: Seq<(JobId, JobDescriptor)>) -> bool {
    forall|i: int, j: int|
        0 <= i < jobs.len() && 0 <= j < jobs.len() && (#[trigger] jobs[i]).0 == (
        #[trigger] jobs[j]).0 ==> i == j
}

proof fn lemma_job_position(jobs: Seq<(JobId, JobDescriptor)>, job_id: JobId)
    ensures
        0 <= job_position(jobs, job_id) <= jobs.len(),
        job_position(jobs, job_id) < jobs.len() ==> jobs[job_position(jobs, job_id)].0 == job_id,
        forall|j: int| 0 <= j < job_position(jobs, job_id) ==> (#[trigger] jobs[j]).0 != job_id,
    decreases jobs.len(),
{
    if jobs.len() > 0 && jobs[0].0 != job_id {
        lemma_job_position(jobs.skip(1), job_id);
        let p = job_position(jobs, job_id);
        assert forall|j: int| 0 <= j < p implies (#[trigger] jobs[j]).0 != job_id by {
            if j > 0 {
                assert(jobs[j] == jobs.skip(1)[j - 1]);
            }
        }
        if p < jobs.len() {
            assert(jobs.skip(1)[p - 1] == jobs[p]);
        }
    }
}

proof fn lemma_job_at(jobs: Seq<(JobId, JobDescriptor)>, i: int)
    requires
        distinct_ids(jobs),
        0 <= i < jobs.len(),
    ensures
        job_position(jobs, jobs[i].0) == i,
        job_map(jobs).dom().contains(jobs[i].0),
        job_map(jobs)[jobs[i].0] == jobs[i].1@,
{
    lemma_job_position(jobs, jobs[i].0);
    let p = job_position(jobs, jobs[i].0);
    assert(p <= i);
    assert(jobs[p].0 == jobs[i].0);
}

proof fn lemma_job_updated(jobs: Seq<(JobId, JobDescriptor)>, i: int, job: JobDescriptor)
    requires
        distinct_ids(jobs),
        0 <= i < jobs.len(),
    ensures
        distinct_ids(jobs.update(i, (jobs[i].0, job))),
        job_map(jobs.update(i, (jobs[i].0, job))) == job_map(jobs).insert(jobs[i].0, job@),
{
    let after = jobs.update(i, (jobs[i].0, job));
    assert(distinct_ids(after)) by {
        assert forall|a: int, b: int|
            0 <= a < after.len() && 0 <= b < after.len() && (#[trigger] after[a]).0 == (
            #[trigger] after[b]).0 implies a == b by {
            assert(jobs[a].0 == after[a].0 && jobs[b].0 == after[b].0);
        }
    }
    lemma_job_at(jobs, i);
    lemma_job_at(after, i);
    assert forall|id: JobId| #[trigger] job_position(after, id) == job_position(jobs, id) by {
        lemma_job_position(jobs, id);
        lemma_job_position(after, id);
        let p = job_position(jobs, id);
        let q = job_position(after, id);
        if p < jobs.len() {
            assert(after[p].0 == jobs[p].0);
        }
        if q < jobs.len() {
            assert(after[q].0 == jobs[q].0);
        }
    }
    assert(job_map(after) =~= job_map(jobs).insert(jobs[i].0, job@)) by {
        assert forall|id: JobId| job_map(after).dom().contains(id) && id != jobs[i].0 implies
            #[trigger] job_map(after)[id] == job_map(jobs)[id] by {
            lemma_job_position(jobs, id);
        }
    }
}

proof fn lemma_job_added(jobs: Seq<(JobId, JobDescriptor)>, job_id: JobId, job: JobDescriptor)
    requires
        distinct_ids(jobs),
        !job_map(jobs).dom().contains(job_id),
    ensures
        distinct_ids(jobs.push((job_id, job))),
        job_map(jobs.push((job_id, job))) == job_map(jobs).insert(job_id, job@),
{
    let after = jobs.push((job_id, job));
    lemma_job_position(jobs, job_id);
    assert(job_position(jobs, job_id) == jobs.len());
    assert(distinct_ids(after)) by {
        assert forall|a: int, b: int|
            0 <= a < after.len() && 0 <= b < after.len() && (#[trigger] after[a]).0 == (
            #[trigger] after[b]).0 implies a == b by {
            if a < jobs.len() {
                assert(jobs[a].0 == after[a].0);
            }
            if b < jobs.len() {
                assert(jobs[b].0 == after[b].0);
            }
        }
    }
    lemma_job_at(after, jobs.len() as int);
    assert forall|id: JobId| id != job_id implies (#[trigger] job_position(after, id) < after.len())
        == (job_position(jobs, id) < jobs.len()) && (job_position(jobs, id) < jobs.len()
        ==> job_position(after, id) == job_position(jobs, id)) by {
        lemma_job_position(jobs, id);
        lemma_job_position(after, id);
        let p = job_position(jobs, id);
        let q = job_position(after, id);
        if p < jobs.len() {
            assert(after[p].0 == jobs[p].0);
        }
        if q < jobs.len() {
            assert(after[q].0 == jobs[q].0);
        }
    }
    assert(job_map(after) =~= job_map(jobs).insert(job_id, job@)) by {
        assert forall|id: JobId| job_map(after).dom().contains(id) && id != job_id implies
            #[trigger] job_map(after)[id] == job_map(jobs)[id] by {
            lemma_job_position(jobs, id);
        }
    }
}

impl View for JobScheduler {
    type V = SchedulerView;

    closed spec fn view(&self) -> SchedulerView {
        SchedulerView {
            options: self.options@,
            jobs: job_map(self.jobs@),
            next_id: self.job_id_generator@,
        }
    }
}

impl SchedulerView {
    /// Whether the parts of all jobs fit together, and their identifiers come before the next one.
    pub open spec fn well_formed(self) -> bool {
        forall|id: JobId| #[trigger]
            self.jobs.dom().contains(id) ==> self.jobs[id].sound() && id.value < self.next_id
    }

    /// The scheduler with another state of a job.
    pub open spec fn with_job(self, job_id: JobId, job: JobView) -> SchedulerView {
        SchedulerView { jobs: self.jobs.insert(job_id, job), ..self }
    }
}

/// The scheduler once something has been reported for a task attempt. A report for a task attempt
/// that does not exist changes nothing.
pub open spec fn reported(
    scheduler: SchedulerView,
    key: TaskKey,
    state: TaskState,
    message: Option<String>,
    cause: Option<ErrorCause>,
    now: Timestamp,
) -> SchedulerView {
    if scheduler.jobs.dom().contains(key.job_id) {
        scheduler.with_job(
            key.job_id,
            reported_job(
                scheduler.jobs[key.job_id],
                key.stage as int,
                key.partition as int,
                key.attempt as int,
                state,
                message,
                cause,
                now,
            ),
        )
    } else {
        scheduler
    }
}

/// The scheduler and the actions once a job has been refreshed. A job that does not exist has
/// nothing to be done for.
pub open spec fn refreshed(
    scheduler: SchedulerView,
    data: &Measurements,
    job_id: JobId,
    now: Timestamp,
) -> (SchedulerView, Seq<ActionView>) {
    if scheduler.jobs.dom().contains(job_id) {
        let (job, actions) = refreshed_job(
            scheduler.options,
            data,
            job_id,
            scheduler.jobs[job_id],
            now,
        );
        (scheduler.with_job(job_id, job), actions)
    } else {
        (scheduler, Seq::empty())
    }
}

/// Whether a job can be refreshed. For a job that does not exist there is nothing to be done.
pub open spec fn is_refreshable(
    scheduler: SchedulerView,
    data: &Measurements,
    job_id: JobId,
    now: Timestamp,
) -> bool {
    scheduler.jobs.dom().contains(job_id) ==> can_refresh(
        scheduler.options,
        data,
        job_id,
        scheduler.jobs[job_id],
        now,
    )
}

/// The scheduler and the actions once a job has been cleaned up. A job that does not exist has
/// nothing to be done for.
pub open spec fn cleaned_up(scheduler: SchedulerView, job_id: JobId, now: Timestamp) -> (
    SchedulerView,
    Seq<ActionView>,
) {
    if scheduler.jobs.dom().contains(job_id) {
        let job = scheduler.jobs[job_id];
        (
            scheduler.with_job(job_id, cleaned_job(job, now)),
            job_cancel_actions(job_id, job).push(ActionView::CleanUpJob { job_id, stage: None }),
        )
    } else {
        (scheduler, Seq::empty())
    }
}

/// The scheduler once it has been stopped.
pub open spec fn stopped(scheduler: SchedulerView, now: Timestamp) -> SchedulerView {
    SchedulerView {
        jobs: scheduler.jobs.map_values(|job: JobView| stopped_job(job, now)),
        ..scheduler
    }
}

/// What comes of accepting a job: the identifier of the job, or an error. Every attempt uses up an
/// identifier unless there is none left.
pub open spec fn accepts(
    before: SchedulerView,
    plan: ExecutionResult<(JobGraph, JobTopology)>,
    output: JobOutputHandle,
    context: TaskContextHandle,
    now: Timestamp,
    after: SchedulerView,
    result: ExecutionResult<JobId>,
) -> bool {
    if before.next_id >= u64::MAX {
        &&& after == before
        &&& result is Err
        &&& result->Err_0@ == ErrorView::Internal(id_generation_failed_text())
    } else {
        let counted = SchedulerView { next_id: before.next_id + 1, ..before };
        match plan {
            Err(e) => after == counted && result == Err::<JobId, ExecutionError>(e),
            Ok((graph, topology)) => {
                let job = new_job(
                    graph@,
                    topology@,
                    JobState::Running { output, context },
                    now,
                );
                if job.well_formed() {
                    let job_id = JobId { value: before.next_id as u64 };
                    after == counted.with_job(job_id, job) && result == Ok::<
                        JobId,
                        ExecutionError,
                    >(job_id)
                } else {
                    &&& after == counted
                    &&& result is Err
                    &&& result->Err_0@ == ErrorView::Internal(malformed_job_text())
                }
            },
        }
    }
}

/// What a worker needs to run a task, together with the context of the job, or the reason why it
/// cannot be told.
pub open spec fn task_definition(
    scheduler: SchedulerView,
    key: TaskKey,
    assigned: spec_fn(TaskKey) -> Option<TaskAssignment>,
    encoded: EncodedStage,
) -> Result<(TaskDefinitionView, TaskContextHandle), ErrorView> {
    if !scheduler.jobs.dom().contains(key.job_id) {
        Err(ErrorView::Invalid(job_not_found_text(key.job_id)))
    } else {
        let job = scheduler.jobs[key.job_id];
        match job.state {
            JobState::Running { context, .. } => if key.stage >= job.graph.stages.len() {
                Err(ErrorView::Invalid(stage_not_found_text(key.stage, key.job_id)))
            } else {
                match stage_definition(key.job_id, job, key.stage as int, assigned, encoded) {
                    Ok(definition) => Ok((definition, context)),
                    Err(e) => Err(e),
                }
            },
            _ => Err(ErrorView::Invalid(job_not_running_text(key.job_id))),
        }
    }
}

/// The state of a task attempt, if it exists.
pub open spec fn task_state(scheduler: SchedulerView, key: TaskKey) -> Option<TaskState> {
    let job = scheduler.jobs[key.job_id];
    let s = key.stage as int;
    let p = key.partition as int;
    if scheduler.jobs.dom().contains(key.job_id) && has_attempt(job, s, p, key.attempt as int) {
        Some(job.attempts(s, p)[key.attempt as int].state)
    } else {
        None
    }
}

impl JobScheduler {
    /// Whether the scheduler is in a state that its operations keep.
    pub closed spec fn valid(&self) -> bool {
        distinct_ids(self.jobs@) && self@.well_formed()
    }

    /// A scheduler without jobs.
    pub fn new(options: JobSchedulerOptions) -> (r: Self)
        ensures
            r.valid(),
            r@ == (SchedulerView { options: options@, jobs: Map::empty(), next_id: 1 }),
    {
        let r = JobScheduler {
            options,
            jobs: Vec::new(),
            job_id_generator: JobIdGenerator::new(),
        };
        assert(r@.jobs =~= Map::empty());
        r
    }

    /// The options of the scheduler.
    pub fn options(&self) -> (r: &JobSchedulerOptions)
        ensures
            r@ == self@.options,
    {
        &self.options
    }

    /// A valid scheduler is well formed.
    pub proof fn lemma_valid(&self)
        requires
            self.valid(),
        ensures
            self@.well_formed(),
    {
    }

    /// The position of a job.
    fn position(&self, job_id: JobId) -> (r: Option<usize>)
        requires
            self.valid(),
        ensures
            match r {
                Some(i) => {
                    &&& i < self.jobs@.len()
                    &&& self.jobs@[i as int].0 == job_id
                    &&& self@.jobs.dom().contains(job_id)
                    &&& self@.jobs[job_id] == self.jobs@[i as int].1@
                },
                None => !self@.jobs.dom().contains(job_id),
            },
    {
        let mut i: usize = 0;
        while i < self.jobs.len()
            invariant
                i <= self.jobs@.len(),
                distinct_ids(self.jobs@),
                forall|j: int| 0 <= j < i ==> (#[trigger] self.jobs@[j]).0 != job_id,
            decreases self.jobs@.len() - i,
        {
            if self.jobs[i].0 == job_id {
                proof {
                    lemma_job_at(self.jobs@, i as int);
                }
                return Some(i);
            }
            i = i + 1;
        }
        proof {
            lemma_job_position(self.jobs@, job_id);
        }
        None
    }

    /// A job.
    pub fn job(&self, job_id: JobId) -> (r: Option<&JobDescriptor>)
        requires
            self.valid(),
        ensures
            match r {
                Some(job) => self@.jobs.dom().contains(job_id) && job@ == self@.jobs[job_id],
                None => !self@.jobs.dom().contains(job_id),
            },
    {
        match self.position(job_id) {
            Some(i) => Some(&self.jobs[i].1),
            None => None,
        }
    }

    /// The next job identifier.
    pub fn next_job_id(&mut self) -> (r: ExecutionResult<JobId>)
        requires
            old(self).valid(),
        ensures
            final(self).valid(),
            match r {
                Ok(id) => {
                    &&& old(self)@.next_id < u64::MAX
                    &&& id.value == old(self)@.next_id
                    &&& final(self)@ == (SchedulerView {
                        next_id: old(self)@.next_id + 1,
                        ..old(self)@
                    })
                },
                Err(e) => old(self)@.next_id >= u64::MAX && e@ == ErrorView::Internal(
                    id_generation_failed_text(),
                ) && final(self)@ == old(self)@,
            },
    {
        self.job_id_generator.next()
    }

    /// Accepts a job, given its graph and its topology or the error with which they could not be
    /// built.
    pub fn accept_job(
        &mut self,
        plan: ExecutionResult<(JobGraph, JobTopology)>,
        output: JobOutputHandle,
        context: TaskContextHandle,
    ) -> (r: ExecutionResult<JobId>)
        requires
            old(self).valid(),
        ensures
            final(self).valid(),
            exists|now: Timestamp| #[trigger]
                accepts(old(self)@, plan, output, context, now, final(self)@, r),
    {
        let t = now();
        self.accept_job_at(plan, output, context, t)
    }

    /// Accepts a job at a point in time.
    pub fn accept_job_at(
        &mut self,
        plan: ExecutionResult<(JobGraph, JobTopology)>,
        output: JobOutputHandle,
        context: TaskContextHandle,
        now: Timestamp,
    ) -> (r: ExecutionResult<JobId>)
        requires
            old(self).valid(),
        ensures
            final(self).valid(),
            accepts(old(self)@, plan, output, context, now, final(self)@, r),
    {
        let job_id = match self.next_job_id() {
            Ok(id) => id,
            Err(e) => {
                return Err(e);
            },
        };
        let ghost counted = self@;
        let (graph, topology) = match plan {
            Ok((graph, topology)) => (graph, topology),
            Err(e) => {
                return Err(e);
            },
        };
        match JobDescriptor::try_new(graph, topology, JobState::Running { output, context }, now) {
            Ok(job) => {
                proof {
                    assert(!self@.jobs.dom().contains(job_id)) by {
                        if self@.jobs.dom().contains(job_id) {
                            assert(old(self)@.jobs.dom().contains(job_id));
                        }
                    }
                    lemma_job_added(self.jobs@, job_id, job);
                }
                self.jobs.push((job_id, job));
                Ok(job_id)
            },
            Err(e) => Err(e),
        }
    }

    /// Takes in what has been reported of a task attempt.
    pub fn update_task(
        &mut self,
        key: &TaskKey,
        state: TaskState,
        message: Option<String>,
        cause: Option<ErrorCause>,
    )
        requires
            old(self).valid(),
        ensures
            final(self).valid(),
            exists|now: Timestamp|
                final(self)@ == #[trigger] reported(old(self)@, *key, state, message, cause, now),
    {
        let t = now();
        self.update_task_at(key, state, message, cause, t);
    }

    /// Takes in what has been reported of a task attempt at a point in time.
    pub fn update_task_at(
        &mut self,
        key: &TaskKey,
        state: TaskState,
        message: Option<String>,
        cause: Option<ErrorCause>,
        now: Timestamp,
    )
        requires
            old(self).valid(),
        ensures
            final(self).valid(),
            final(self)@ == reported(old(self)@, *key, state, message, cause, now),
    {
        if let Some(i) = self.position(key.job_id) {
            let ghost before = self.jobs@;
            proof {
                lemma_reported_shape(
                    before[i as int].1@,
                    key.stage as int,
                    key.partition as int,
                    key.attempt as int,
                    state,
                    message,
                    cause,
                    now,
                );
            }
            self.jobs[i].1.report(
                key.stage,
                key.partition,
                key.attempt,
                state,
                message,
                cause,
                now,
            );
            proof {
                lemma_job_updated(before, i as int, self.jobs@[i as int].1);
                assert(self.jobs@ =~= before.update(
                    i as int,
                    (before[i as int].0, self.jobs@[i as int].1),
                ));
            }
        }
    }

    /// The state of a task attempt, if it exists.
    pub fn get_task_state(&self, key: &TaskKey) -> (r: Option<TaskState>)
        requires
            self.valid(),
        ensures
            r == task_state(self@, *key),
    {
        match self.position(key.job_id) {
            Some(i) => {
                let job = &self.jobs[i].1;
                if key.stage < job.stages.len() && key.partition < job.stages[key.stage].tasks.len()
                    && key.attempt < job.stages[key.stage].tasks[key.partition].attempts.len() {
                    Some(job.stages[key.stage].tasks[key.partition].attempts[key.attempt].state)
                } else {
                    None
                }
            },
            None => None,
        }
    }

    /// Determines what the driver has to do for a job whose task states may have changed.
    ///
    /// 1. If a task attempt of a region has failed, all live attempts of the region are canceled.
    /// 2. If a task of a final stage is running or has succeeded, all its channels are added to the
    ///    job output.
    /// 3. If all the stages that consume a stage have succeeded, the output streams of the stage
    ///    are removed.
    /// 4. If a task exceeds the maximum number of attempts, its region and the job fail.
    /// 5. If all regions have succeeded, the job output is read to its end.
    /// 6. Otherwise, every region is scheduled whose dependencies have succeeded.
    ///
    /// What has been done before is not done again. The index files tell the sizes of the shuffled
    /// data that the scheduled regions are going to read.
    ///
    /// The job must be one that can be refreshed. `try_refresh_job` finds that out.
    pub fn refresh_job(&mut self, job_id: JobId, data: &Measurements) -> (r: Vec<JobAction>)
        requires
            old(self).valid(),
            forall|now: Timestamp| #[trigger] is_refreshable(old(self)@, data, job_id, now),
        ensures
            final(self).valid(),
            exists|now: Timestamp|
                (final(self)@, views(r@)) == #[trigger] refreshed(old(self)@, data, job_id, now),
    {
        let t = now();
        assert(is_refreshable(self@, data, job_id, t));
        self.refresh_job_at(job_id, data, t)
    }

    /// Determines what the driver has to do for a job whose task states may have changed, if the job
    /// can be refreshed.
    ///
    /// It cannot be if a task is not where it is looked for. That comes of plans which do not have one
    /// output partition for every group of channels that a stage reads, and of regions that share a
    /// stage. Nothing is then returned, and nothing is said of the job.
    pub fn try_refresh_job(&mut self, job_id: JobId, data: &Measurements) -> (r: Option<
        Vec<JobAction>,
    >)
        requires
            old(self).valid(),
        ensures
            exists|now: Timestamp|
                {
                    &&& r is Some <==> is_refreshable(old(self)@, data, job_id, now)
                    &&& r is Some ==> final(self).valid() && (final(self)@, views(r->0@))
                        == #[trigger] refreshed(old(self)@, data, job_id, now)
                },
            r is None ==> exists|job: JobView|
                final(self)@ == #[trigger] old(self)@.with_job(job_id, job),
    {
        let t = now();
        let ghost expected = refreshed(self@, data, job_id, t);
        self.try_refresh_job_at(job_id, data, t)
    }

    /// Determines what the driver has to do for a job at a point in time, if the job can be refreshed.
    /// If it cannot, nothing is returned, and nothing is said of the job.
    pub fn try_refresh_job_at(&mut self, job_id: JobId, data: &Measurements, now: Timestamp) -> (r:
        Option<Vec<JobAction>>)
        requires
            old(self).valid(),
        ensures
            r is Some <==> is_refreshable(old(self)@, data, job_id, now),
            r is Some ==> final(self).valid(),
            r is Some ==> (final(self)@, views(r->0@)) == refreshed(
                old(self)@,
                data,
                job_id,
                now,
            ),
            r is None ==> exists|job: JobView|
                final(self)@ == #[trigger] old(self)@.with_job(job_id, job),
    {
        match self.position(job_id) {
            Some(i) => {
                let ghost before = self.jobs@;
                let ghost first = self@;
                let r = Self::try_refresh(
                    &self.options,
                    data,
                    job_id,
                    &mut self.jobs[i].1,
                    now,
                );
                proof {
                    lemma_job_updated(before, i as int, self.jobs@[i as int].1);
                    assert(self.jobs@ =~= before.update(
                        i as int,
                        (before[i as int].0, self.jobs@[i as int].1),
                    ));
                    assert(self@ =~= first.with_job(job_id, self.jobs@[i as int].1@));
                }
                r
            },
            None => {
                let none: Vec<JobAction> = Vec::new();
                assert(views(none@) =~= Seq::empty());
                Some(none)
            },
        }
    }

    /// Determines what the driver has to do for a job at a point in time.
    pub fn refresh_job_at(&mut self, job_id: JobId, data: &Measurements, now: Timestamp) -> (r: Vec<
        JobAction,
    >)
        requires
            old(self).valid(),
            is_refreshable(old(self)@, data, job_id, now),
        ensures
            final(self).valid(),
            (final(self)@, views(r@)) == refreshed(old(self)@, data, job_id, now),
    {
        match self.try_refresh_job_at(job_id, data, now) {
            Some(actions) => actions,
            None => Vec::new(),
        }
    }

    /// Determines what the driver has to do to clean up a job: all live task attempts are canceled,
    /// and all output streams are removed.
    pub fn clean_up_job(&mut self, job_id: JobId) -> (r: Vec<JobAction>)
        requires
            old(self).valid(),
        ensures
            final(self).valid(),
            exists|now: Timestamp|
                (final(self)@, views(r@)) == #[trigger] cleaned_up(old(self)@, job_id, now),
    {
        let t = now();
        self.clean_up_job_at(job_id, t)
    }

    /// Determines what the driver has to do to clean up a job at a point in time.
    pub fn clean_up_job_at(&mut self, job_id: JobId, now: Timestamp) -> (r: Vec<JobAction>)
        requires
            old(self).valid(),
        ensures
            final(self).valid(),
            (final(self)@, views(r@)) == cleaned_up(old(self)@, job_id, now),
    {
        match self.position(job_id) {
            Some(i) => {
                let ghost before = self.jobs@;
                proof {
                    lemma_ended_shape(before[i as int].1@, now);
                }
                let actions = Self::clean_up(job_id, &mut self.jobs[i].1, now);
                proof {
                    lemma_job_updated(before, i as int, self.jobs@[i as int].1);
                    assert(self.jobs@ =~= before.update(
                        i as int,
                        (before[i as int].0, self.jobs@[i as int].1),
                    ));
                }
                actions
            },
            None => {
                let none: Vec<JobAction> = Vec::new();
                assert(views(none@) =~= Seq::empty());
                none
            },
        }
    }

    /// Builds the definition of a task, and gives the context of its job.
    ///
    /// The plan of the stage and the keys of its output are given as the query engine has encoded
    /// them.
    pub fn get_task_definition<A: TaskAssignmentGetter>(
        &self,
        key: &TaskKey,
        assignments: &A,
        encoded: EncodedStage,
    ) -> (r: ExecutionResult<(TaskDefinition, TaskContextHandle)>)
        requires
            self.valid(),
        ensures
            ({
                let expected = task_definition(
                    self@,
                    *key,
                    |k: TaskKey| assignments.assigned(k),
                    encoded,
                );
                match r {
                    Ok((definition, context)) => expected == Ok::<
                        (TaskDefinitionView, TaskContextHandle),
                        ErrorView,
                    >((definition@, context)),
                    Err(e) => expected == Err::<(TaskDefinitionView, TaskContextHandle), ErrorView>(
                        e@,
                    ),
                }
            }),
    {
        let job = match self.job(key.job_id) {
            Some(job) => job,
            None => {
                return Err(job_not_found(key.job_id));
            },
        };
        let context = match job.state {
            JobState::Running { context, .. } => context,
            _ => {
                return Err(job_not_running(key.job_id));
            },
        };
        if key.stage >= job.graph.stages.len() {
            return Err(stage_not_found(key.stage, key.job_id));
        }
        match self.define_task(job, key, assignments, encoded) {
            Ok(definition) => Ok((definition, context)),
            Err(e) => Err(e),
        }
    }

    /// Stops the scheduler: all jobs that have not ended and all live task attempts are canceled, and
    /// all stages become inactive.
    pub fn stop(&mut self)
        requires
            old(self).valid(),
        ensures
            final(self).valid(),
            exists|now: Timestamp| final(self)@ == #[trigger] stopped(old(self)@, now),
    {
        let t = now();
        self.stop_at(t);
    }

    /// Stops the scheduler at a point in time.
    pub fn stop_at(&mut self, now: Timestamp)
        requires
            old(self).valid(),
        ensures
            final(self).valid(),
            final(self)@ == stopped(old(self)@, now),
    {
        let ghost before = self.jobs@;
        let ghost view = self@;
        let n: usize = self.jobs.len();
        let mut i: usize = 0;
        while i < n
            invariant
                i <= n,
                n == before.len(),
                self.jobs@.len() == n,
                self@.options == view.options,
                self@.next_id == view.next_id,
                forall|j: int| 0 <= j < n ==> (#[trigger] self.jobs@[j]).0 == before[j].0,
                forall|j: int|
                    0 <= j < i ==> (#[trigger] self.jobs@[j]).1@ == stopped_job(before[j].1@, now),
                forall|j: int| i <= j < n ==> (#[trigger] self.jobs@[j]).1 == before[j].1,
            decreases n - i,
        {
            self.jobs[i].1.stop(now);
            i = i + 1;
        }
        proof {
            let after = self.jobs@;
            assert(distinct_ids(after)) by {
                assert forall|a: int, b: int|
                    0 <= a < after.len() && 0 <= b < after.len() && (#[trigger] after[a]).0 == (
                    #[trigger] after[b]).0 implies a == b by {
                    assert(before[a].0 == before[b].0);
                }
            }
            assert forall|id: JobId| #[trigger] job_position(after, id) == job_position(
                before,
                id,
            ) by {
                lemma_job_position(before, id);
                lemma_job_position(after, id);
                let p = job_position(before, id);
                let q = job_position(after, id);
                if p < n {
                    assert(after[p].0 == before[p].0);
                }
                if q < n {
                    assert(after[q].0 == before[q].0);
                }
            }
            let expected = stopped(view, now);
            assert forall|id: JobId| self@.jobs.dom().contains(id) implies #[trigger] self@.jobs[id]
                == expected.jobs[id] && self@.jobs[id].sound() by {
                lemma_job_position(before, id);
                let p = job_position(before, id);
                assert(after[p].1@ == stopped_job(before[p].1@, now));
                assert(view.jobs.dom().contains(id));
                lemma_ended_shape(view.jobs[id], now);
            }
            assert(self@.jobs =~= expected.jobs);
            assert forall|id: JobId| #[trigger] self@.jobs.dom().contains(id) implies id.value
                < self@.next_id by {
                assert(view.jobs.dom().contains(id));
            }
        }
    }
}

}

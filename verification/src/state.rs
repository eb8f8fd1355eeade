//! The state of jobs, stages, task regions and task attempts.

use crate::clock::Timestamp;
use crate::job_graph::{
    InputRepartition, JobGraph, JobGraphView, StageInput, StageInputView, StagePlanView, StageView,
};
use crate::topology::{JobTopology, JobTopologyView, RegionTopologyView, TaskTopology};
use std::ops::Range;
use vstd::prelude::*;

verus! {

/// The state of a task attempt.
#[derive(Debug, Clone, Copy, PartialEq, Eq, Structural)]
pub enum TaskState {
    Created,
    Scheduled,
    Running,
    Succeeded,
    Failed,
    Canceled,
}

impl TaskState {
    /// Whether a task attempt in this state has stopped for good.
    pub open spec fn terminal(self) -> bool {
        self is Succeeded || self is Failed || self is Canceled
    }

    /// How far a task attempt in this state has come.
    pub open spec fn progress(self) -> int {
        match self {
            TaskState::Created => 0,
            TaskState::Scheduled => 1,
            TaskState::Running => 2,
            _ => 3,
        }
    }

    /// The state that follows from a reported one. Reports can arrive late and out of order: a
    /// task attempt never goes back, and it never leaves a state in which it has stopped.
    pub open spec fn consolidated(self, reported: TaskState) -> TaskState {
        if self.terminal() || reported.progress() < self.progress() {
            self
        } else {
            reported
        }
    }

    /// Whether a task attempt in this state has stopped for good.
    pub fn is_terminal(&self) -> (r: bool)
        ensures
            r == self.terminal(),
    {
        match self {
            TaskState::Succeeded | TaskState::Failed | TaskState::Canceled => true,
            _ => false,
        }
    }

    /// The state that follows from a reported one.
    pub fn consolidate(self, reported: TaskState) -> (r: TaskState)
        ensures
            r == self.consolidated(reported),
    {
        match (self, reported) {
            (TaskState::Succeeded | TaskState::Failed | TaskState::Canceled, _) => self,
            (TaskState::Scheduled, TaskState::Created) => self,
            (TaskState::Running, TaskState::Created | TaskState::Scheduled) => self,
            _ => reported,
        }
    }
}

/// Why a task has failed.
#[derive(Debug)]
pub enum ErrorCause {
    /// The cause that a failed task attempt has reported.
    Reported(String),
    /// A cause that the scheduler itself has found.
    Internal(String),
}

/// A cause of failure as text.
pub enum CauseView {
    Reported(Seq<char>),
    Internal(Seq<char>),
}

impl View for ErrorCause {
    type V = CauseView;

    open spec fn view(&self) -> CauseView {
        match self {
            ErrorCause::Reported(m) => CauseView::Reported(m@),
            ErrorCause::Internal(m) => CauseView::Internal(m@),
        }
    }
}

impl Clone for ErrorCause {
    fn clone(&self) -> (r: Self)
        ensures
            r == *self,
    {
        match self {
            ErrorCause::Reported(m) => ErrorCause::Reported(m.clone()),
            ErrorCause::Internal(m) => ErrorCause::Internal(m.clone()),
        }
    }
}

/// One attempt at running a task.
#[derive(Debug)]
pub struct TaskAttemptDescriptor {
    pub state: TaskState,
    pub messages: Vec<String>,
    pub cause: Option<ErrorCause>,
    /// Whether the output of the attempt has been added to the job output.
    pub job_output_fetched: bool,
    pub created_at: Timestamp,
    pub stopped_at: Option<Timestamp>,
}

/// An attempt at running a task as a mathematical value.
#[verifier::ext_equal]
pub struct AttemptView {
    pub state: TaskState,
    pub messages: Seq<String>,
    pub cause: Option<ErrorCause>,
    pub job_output_fetched: bool,
    pub created_at: Timestamp,
    pub stopped_at: Option<Timestamp>,
}

impl View for TaskAttemptDescriptor {
    type V = AttemptView;

    open spec fn view(&self) -> AttemptView {
        AttemptView {
            state: self.state,
            messages: self.messages@,
            cause: self.cause,
            job_output_fetched: self.job_output_fetched,
            created_at: self.created_at,
            stopped_at: self.stopped_at,
        }
    }
}

/// A task, with all the attempts at running it so far.
#[derive(Debug)]
pub struct TaskDescriptor {
    pub attempts: Vec<TaskAttemptDescriptor>,
}

/// The attempts at running a task.
pub type TaskView = Seq<AttemptView>;

impl View for TaskDescriptor {
    type V = TaskView;

    open spec fn view(&self) -> TaskView {
        self.attempts@.map_values(|a: TaskAttemptDescriptor| a@)
    }
}

/// Whether the output streams of a stage are kept.
#[derive(Debug, Clone, Copy, PartialEq, Eq, Structural)]
pub enum StageState {
    Active,
    Inactive,
}

/// A stage and its tasks.
#[derive(Debug)]
pub struct StageDescriptor {
    pub state: StageState,
    pub tasks: Vec<TaskDescriptor>,
    pub created_at: Timestamp,
    pub stopped_at: Option<Timestamp>,
}

/// A stage and its tasks as a mathematical value.
#[verifier::ext_equal]
pub struct StageDescriptorView {
    pub state: StageState,
    pub tasks: Seq<TaskView>,
    pub created_at: Timestamp,
    pub stopped_at: Option<Timestamp>,
}

impl View for StageDescriptor {
    type V = StageDescriptorView;

    open spec fn view(&self) -> StageDescriptorView {
        StageDescriptorView {
            state: self.state,
            tasks: self.tasks@.map_values(|t: TaskDescriptor| t@),
            created_at: self.created_at,
            stopped_at: self.stopped_at,
        }
    }
}

/// The state of a task region.
#[derive(Debug, Clone, Copy, PartialEq, Eq, Structural)]
pub enum TaskRegionState {
    Pending,
    Running,
    Succeeded,
    Failed,
}

/// A task region.
#[derive(Debug)]
pub struct TaskRegionDescriptor {
    pub state: TaskRegionState,
}

/// A handle of a job output that the driver keeps.
#[derive(Debug, Clone, Copy, PartialEq, Eq, Structural)]
pub struct JobOutputHandle {
    pub slot: u64,
}

/// A handle of a task context that the driver keeps.
#[derive(Debug, Clone, Copy, PartialEq, Eq, Structural)]
pub struct TaskContextHandle {
    pub slot: u64,
}

/// The state of a job.
#[derive(Debug, Clone, Copy, PartialEq, Eq, Structural)]
pub enum JobState {
    /// The job output still takes in task outputs.
    Running { output: JobOutputHandle, context: TaskContextHandle },
    /// All tasks have succeeded, and the job output is being read to its end.
    Draining,
    Succeeded,
    Failed,
    Canceled,
}

/// A job.
#[derive(Debug)]
pub struct JobDescriptor {
    pub graph: JobGraph,
    pub topology: JobTopology,
    pub stages: Vec<StageDescriptor>,
    pub regions: Vec<TaskRegionDescriptor>,
    pub state: JobState,
    pub created_at: Timestamp,
    pub stopped_at: Option<Timestamp>,
}

/// A job as a mathematical value.
#[verifier::ext_equal]
pub struct JobView {
    pub graph: JobGraphView,
    pub topology: JobTopologyView,
    pub stages: Seq<StageDescriptorView>,
    pub regions: Seq<TaskRegionState>,
    pub state: JobState,
    pub created_at: Timestamp,
    pub stopped_at: Option<Timestamp>,
}

impl View for JobDescriptor {
    type V = JobView;

    open spec fn view(&self) -> JobView {
        JobView {
            graph: self.graph@,
            topology: self.topology@,
            stages: self.stages@.map_values(|s: StageDescriptor| s@),
            regions: self.regions@.map_values(|r: TaskRegionDescriptor| r.state),
            state: self.state,
            created_at: self.created_at,
            stopped_at: self.stopped_at,
        }
    }
}

impl JobView {
    /// Whether the job has a task for a partition of a stage.
    pub open spec fn has_task(self, stage: int, partition: int) -> bool {
        0 <= stage < self.stages.len() && 0 <= partition < self.stages[stage].tasks.len()
    }

    /// The attempts at a task.
    pub open spec fn attempts(self, stage: int, partition: int) -> TaskView {
        self.stages[stage].tasks[partition]
    }

    /// The state of the latest attempt at a task, if there is such a task and it has been
    /// attempted.
    pub open spec fn latest_state(self, stage: int, partition: int) -> Option<TaskState> {
        if self.has_task(stage, partition) && self.attempts(stage, partition).len() > 0 {
            Some(self.attempts(stage, partition).last().state)
        } else {
            None
        }
    }

    /// The number of the latest attempt at a task.
    pub open spec fn latest_attempt(self, stage: int, partition: int) -> Option<usize> {
        if self.has_task(stage, partition) && self.attempts(stage, partition).len() > 0 {
            Some((self.attempts(stage, partition).len() - 1) as usize)
        } else {
            None
        }
    }

    /// The job with other stages.
    pub open spec fn with_stages(self, stages: Seq<StageDescriptorView>) -> JobView {
        JobView { stages, ..self }
    }

    /// The job with another state of a stage.
    pub open spec fn with_stage(self, stage: int, descriptor: StageDescriptorView) -> JobView {
        self.with_stages(self.stages.update(stage, descriptor))
    }

    /// The job with other attempts at a task.
    pub open spec fn with_attempts(self, stage: int, partition: int, attempts: TaskView) -> JobView {
        self.with_stage(
            stage,
            StageDescriptorView {
                tasks: self.stages[stage].tasks.update(partition, attempts),
                ..self.stages[stage]
            },
        )
    }

    /// The job with other inputs and another plan of a stage, and with a number of tasks of it that
    /// have not been attempted.
    pub open spec fn with_grouped_stage(
        self,
        stage: int,
        inputs: Seq<StageInputView>,
        plan: StagePlanView,
        tasks: nat,
    ) -> JobView {
        JobView {
            graph: JobGraphView {
                stages: self.graph.stages.update(
                    stage,
                    StageView { inputs, plan, ..self.graph.stages[stage] },
                ),
                ..self.graph
            },
            stages: self.stages.update(
                stage,
                StageDescriptorView {
                    tasks: Seq::new(tasks, |p: int| Seq::<AttemptView>::empty()),
                    ..self.stages[stage]
                },
            ),
            ..self
        }
    }

    /// The job with other tasks in a region.
    pub open spec fn with_region_tasks(self, region: int, tasks: Seq<TaskTopology>) -> JobView {
        JobView {
            topology: JobTopologyView {
                regions: self.topology.regions.update(
                    region,
                    RegionTopologyView { tasks, ..self.topology.regions[region] },
                ),
                ..self.topology
            },
            ..self
        }
    }

    /// The tasks of a region.
    pub open spec fn region_tasks(self, region: int) -> Seq<TaskTopology> {
        self.topology.regions[region].tasks
    }

    /// Whether the tasks of a stage may read an input in groups of channels that are still to be
    /// determined: the input is a shuffle whose upstream stage writes to disk.
    pub open spec fn adaptable_input(self, stage: int, input: int) -> bool {
        let i = self.graph.stages[stage].inputs[input];
        &&& i.mode is Shuffle
        &&& i.partition_ranges is None
        &&& self.graph.stages[i.stage as int].mode is Blocking
    }

    /// Whether the number of tasks of a stage may still change.
    pub open spec fn adaptable(self, stage: int) -> bool {
        exists|i: int|
            0 <= i < self.graph.stages[stage].inputs.len() && #[trigger] self.adaptable_input(
                stage,
                i,
            )
    }

    /// Whether all tasks of a region exist.
    pub open spec fn tasks_exist(self, region: int) -> bool {
        forall|i: int|
            0 <= i < self.region_tasks(region).len() ==> self.has_task(
                (#[trigger] self.region_tasks(region)[i]).stage as int,
                self.region_tasks(region)[i].partition as int,
            )
    }

    /// Whether all parts of the job fit together, and all tasks of its regions exist.
    pub open spec fn well_formed(self) -> bool {
        &&& self.sound()
        &&& forall|r: int, i: int|
            0 <= r < self.regions.len() && 0 <= i < self.region_tasks(r).len() ==> self.has_task(
                (#[trigger] self.region_tasks(r)[i]).stage as int,
                self.region_tasks(r)[i].partition as int,
            )
    }

    /// Whether all parts of the job fit together: whatever is named exists, and there is an output
    /// partition of a stage for every task of it.
    pub open spec fn sound(self) -> bool {
        &&& self.linked()
        &&& forall|s: int|
            0 <= s < self.stages.len() ==> (#[trigger] self.stages[s]).tasks.len()
                <= self.graph.stages[s].plan.partitions
    }

    /// Whether the stages and the regions that a stage input, a consumer, a dependency or a task of
    /// a region names exist.
    pub open spec fn linked(self) -> bool {
        &&& self.graph.stages.len() == self.stages.len()
        &&& self.topology.consumers.len() == self.stages.len()
        &&& self.topology.regions.len() == self.regions.len()
        &&& forall|s: int|
            0 <= s < self.stages.len() ==> (#[trigger] self.stages[s]).tasks.len() <= usize::MAX
        &&& forall|s: int, i: int|
            0 <= s < self.graph.stages.len() && 0 <= i < self.graph.stages[s].inputs.len() ==> (
            #[trigger] self.graph.stages[s].inputs[i]).stage < self.stages.len()
        &&& forall|s: int, i: int|
            0 <= s < self.topology.consumers.len() && 0 <= i < self.topology.consumers[s].len()
                ==> #[trigger] self.topology.consumers[s][i] < self.stages.len()
        &&& forall|r: int, i: int|
            0 <= r < self.regions.len() && 0 <= i < self.topology.regions[r].dependencies.len()
                ==> #[trigger] self.topology.regions[r].dependencies[i] < self.regions.len()
        &&& forall|r: int, i: int|
            0 <= r < self.regions.len() && 0 <= i < self.region_tasks(r).len() ==> (
            #[trigger] self.region_tasks(r)[i]).stage < self.stages.len()
    }
}

/// The inputs of a stage once some of them are read in groups of channels.
pub open spec fn chosen_inputs(
    inputs: Seq<StageInputView>,
    choices: Seq<Option<Vec<Range<usize>>>>,
) -> Seq<StageInputView> {
    Seq::new(
        inputs.len(),
        |k: int|
            match choices[k] {
                Some(ranges) => StageInputView { partition_ranges: Some(ranges@), ..inputs[k] },
                None => inputs[k],
            },
    )
}

/// Whether two states of a job differ at most in their attempts and in the states of their parts.
pub open spec fn same_shape(a: JobView, b: JobView) -> bool {
    &&& a.graph == b.graph
    &&& a.topology == b.topology
    &&& a.regions.len() == b.regions.len()
    &&& a.stages.len() == b.stages.len()
    &&& forall|s: int|
        0 <= s < a.stages.len() ==> (#[trigger] b.stages[s]).tasks.len() == a.stages[s].tasks.len()
}

/// Changes of attempts and states keep the parts of a job together.
pub proof fn lemma_same_shape(a: JobView, b: JobView)
    requires
        a.linked(),
        same_shape(a, b),
    ensures
        b.linked(),
        a.sound() ==> b.sound(),
        a.well_formed() ==> b.well_formed(),
        forall|r: int|
            0 <= r < a.regions.len() && a.tasks_exist(r) ==> #[trigger] b.tasks_exist(r),
{
    assert forall|s: int| 0 <= s < b.stages.len() implies (#[trigger] b.stages[s]).tasks.len()
        <= usize::MAX by {
        assert(a.stages[s].tasks.len() <= usize::MAX);
    }
    assert forall|r: int, i: int|
        0 <= r < b.regions.len() && 0 <= i < b.region_tasks(r).len() implies (
    #[trigger] b.region_tasks(r)[i]).stage < b.stages.len() by {
        assert(a.region_tasks(r)[i].stage < a.stages.len());
    }
    if a.sound() {
        assert forall|s: int| 0 <= s < b.stages.len() implies (#[trigger] b.stages[s]).tasks.len()
            <= b.graph.stages[s].plan.partitions by {
            assert(a.stages[s].tasks.len() <= a.graph.stages[s].plan.partitions);
        }
    }
    assert forall|r: int, i: int|
        0 <= r < b.regions.len() && 0 <= i < b.region_tasks(r).len() && a.has_task(
            a.region_tasks(r)[i].stage as int,
            a.region_tasks(r)[i].partition as int,
        ) implies b.has_task(
        (#[trigger] b.region_tasks(r)[i]).stage as int,
        b.region_tasks(r)[i].partition as int,
    ) by {
        let t = a.region_tasks(r)[i];
        assert(b.stages[t.stage as int].tasks.len() == a.stages[t.stage as int].tasks.len());
    }
}

/// An attempt that has just been created.
pub open spec fn new_attempt(now: Timestamp) -> AttemptView {
    AttemptView {
        state: TaskState::Created,
        messages: Seq::empty(),
        cause: None,
        job_output_fetched: false,
        created_at: now,
        stopped_at: None,
    }
}

/// An attempt that is canceled unless it has already stopped.
pub open spec fn canceled_attempt(attempt: AttemptView, now: Timestamp) -> AttemptView {
    if attempt.state.terminal() {
        attempt
    } else {
        AttemptView { state: TaskState::Canceled, stopped_at: Some(now), ..attempt }
    }
}

/// Attempts that are canceled unless they have already stopped.
pub open spec fn canceled_attempts(attempts: TaskView, now: Timestamp) -> TaskView {
    attempts.map_values(|a: AttemptView| canceled_attempt(a, now))
}

impl JobDescriptor {
    /// The number of attempts at a task.
    pub fn num_attempts(&self, stage: usize, partition: usize) -> (r: usize)
        requires
            self@.has_task(stage as int, partition as int),
        ensures
            r == self@.attempts(stage as int, partition as int).len(),
    {
        self.stages[stage].tasks[partition].attempts.len()
    }

    /// Whether there is a task.
    pub fn contains_task(&self, stage: usize, partition: usize) -> (r: bool)
        ensures
            r == self@.has_task(stage as int, partition as int),
    {
        stage < self.stages.len() && partition < self.stages[stage].tasks.len()
    }

    /// The state of the latest attempt at a task.
    pub fn latest_state(&self, stage: usize, partition: usize) -> (r: Option<TaskState>)
        ensures
            r == self@.latest_state(stage as int, partition as int),
    {
        if stage < self.stages.len() && partition < self.stages[stage].tasks.len() {
            let attempts = &self.stages[stage].tasks[partition].attempts;
            let n: usize = attempts.len();
            if n > 0 {
                return Some(attempts[n - 1].state);
            }
        }
        None
    }

    /// The number of the latest attempt at a task.
    pub fn latest_attempt(&self, stage: usize, partition: usize) -> (r: Option<usize>)
        ensures
            r == self@.latest_attempt(stage as int, partition as int),
    {
        if stage < self.stages.len() && partition < self.stages[stage].tasks.len() {
            let n: usize = self.stages[stage].tasks[partition].attempts.len();
            if n > 0 {
                return Some(n - 1);
            }
        }
        None
    }

    /// Replaces the state of a region.
    pub fn set_region_state(&mut self, region: usize, state: TaskRegionState)
        requires
            region < old(self)@.regions.len(),
        ensures
            final(self)@ == (JobView {
                regions: old(self)@.regions.update(region as int, state),
                ..old(self)@
            }),
    {
        let ghost before = self@;
        self.regions[region].state = state;
        assert(self@.regions =~= before.regions.update(region as int, state));
    }

    /// Cancels an attempt unless it has already stopped, and says whether it did.
    pub fn cancel_attempt(
        &mut self,
        stage: usize,
        partition: usize,
        attempt: usize,
        now: Timestamp,
    ) -> (r: bool)
        requires
            old(self)@.has_task(stage as int, partition as int),
            attempt < old(self)@.attempts(stage as int, partition as int).len(),
        ensures
            final(self)@ == old(self)@.with_attempts(
                stage as int,
                partition as int,
                old(self)@.attempts(stage as int, partition as int).update(
                    attempt as int,
                    canceled_attempt(
                        old(self)@.attempts(stage as int, partition as int)[attempt as int],
                        now,
                    ),
                ),
            ),
            r == !old(self)@.attempts(stage as int, partition as int)[attempt as int].state.terminal(),
    {
        let ghost before = self@;
        let ghost old_attempts = before.attempts(stage as int, partition as int);
        let r = !self.stages[stage].tasks[partition].attempts[attempt].state.is_terminal();
        if r {
            self.stages[stage].tasks[partition].attempts[attempt].state = TaskState::Canceled;
            self.stages[stage].tasks[partition].attempts[attempt].stopped_at = Some(now);
        }
        let ghost new_attempts = old_attempts.update(
            attempt as int,
            canceled_attempt(old_attempts[attempt as int], now),
        );
        proof {
            assert(self@.attempts(stage as int, partition as int) =~= new_attempts);
            assert(self@.stages[stage as int].tasks =~= before.stages[stage as int].tasks.update(
                partition as int,
                new_attempts,
            ));
            assert(self@.stages =~= before.with_attempts(
                stage as int,
                partition as int,
                new_attempts,
            ).stages);
        }
        r
    }

    /// Adds a new attempt to a task.
    pub fn push_attempt(&mut self, stage: usize, partition: usize, now: Timestamp)
        requires
            old(self)@.has_task(stage as int, partition as int),
        ensures
            final(self)@ == old(self)@.with_attempts(
                stage as int,
                partition as int,
                old(self)@.attempts(stage as int, partition as int).push(new_attempt(now)),
            ),
    {
        let ghost before = self@;
        let ghost new_attempts = before.attempts(stage as int, partition as int).push(
            new_attempt(now),
        );
        let attempt = TaskAttemptDescriptor {
            state: TaskState::Created,
            messages: Vec::new(),
            cause: None,
            job_output_fetched: false,
            created_at: now,
            stopped_at: None,
        };
        assert(attempt@ =~= new_attempt(now));
        self.stages[stage].tasks[partition].attempts.push(attempt);
        proof {
            assert(self@.attempts(stage as int, partition as int) =~= new_attempts);
            assert(self@.stages[stage as int].tasks =~= before.stages[stage as int].tasks.update(
                partition as int,
                new_attempts,
            ));
            assert(self@.stages =~= before.with_attempts(
                stage as int,
                partition as int,
                new_attempts,
            ).stages);
        }
    }

    /// Marks the output of the latest attempt at a task as added to the job output.
    pub fn mark_output_fetched(&mut self, stage: usize, partition: usize)
        requires
            old(self)@.has_task(stage as int, partition as int),
            old(self)@.attempts(stage as int, partition as int).len() > 0,
        ensures
            ({
                let attempts = old(self)@.attempts(stage as int, partition as int);
                final(self)@ == old(self)@.with_attempts(
                    stage as int,
                    partition as int,
                    attempts.update(
                        attempts.len() - 1,
                        AttemptView { job_output_fetched: true, ..attempts.last() },
                    ),
                )
            }),
    {
        let ghost before = self@;
        let ghost attempts = before.attempts(stage as int, partition as int);
        let ghost new_attempts = attempts.update(
            attempts.len() - 1,
            AttemptView { job_output_fetched: true, ..attempts.last() },
        );
        let n: usize = self.stages[stage].tasks[partition].attempts.len();
        self.stages[stage].tasks[partition].attempts[n - 1].job_output_fetched = true;
        proof {
            assert(self@.attempts(stage as int, partition as int) =~= new_attempts);
            assert(self@.stages[stage as int].tasks =~= before.stages[stage as int].tasks.update(
                partition as int,
                new_attempts,
            ));
            assert(self@.stages =~= before.with_attempts(
                stage as int,
                partition as int,
                new_attempts,
            ).stages);
        }
    }

    /// Makes a stage inactive.
    pub fn deactivate_stage(&mut self, stage: usize, stopped_at: Option<Timestamp>)
        requires
            stage < old(self)@.stages.len(),
        ensures
            final(self)@ == old(self)@.with_stage(
                stage as int,
                StageDescriptorView {
                    state: StageState::Inactive,
                    stopped_at,
                    ..old(self)@.stages[stage as int]
                },
            ),
    {
        let ghost before = self@;
        self.stages[stage].state = StageState::Inactive;
        self.stages[stage].stopped_at = stopped_at;
        proof {
            let descriptor = StageDescriptorView {
                state: StageState::Inactive,
                stopped_at,
                ..before.stages[stage as int]
            };
            assert(self@.stages[stage as int].tasks =~= descriptor.tasks);
            assert(self@.stages =~= before.stages.update(stage as int, descriptor));
        }
    }

    /// Has inputs of a stage read in groups of channels, changes its plan accordingly, and gives it
    /// new tasks.
    pub fn group_stage(
        &mut self,
        stage: usize,
        choices: Vec<Option<Vec<Range<usize>>>>,
        changes: Vec<InputRepartition>,
        partitions: usize,
        tasks: usize,
    )
        requires
            stage < old(self)@.stages.len(),
            old(self)@.graph.stages.len() == old(self)@.stages.len(),
            choices@.len() == old(self)@.graph.stages[stage as int].inputs.len(),
        ensures
            final(self)@ == old(self)@.with_grouped_stage(
                stage as int,
                chosen_inputs(old(self)@.graph.stages[stage as int].inputs, choices@),
                StagePlanView {
                    repartitions: old(self)@.graph.stages[stage as int].plan.repartitions
                        + changes@,
                    partitions,
                    ..old(self)@.graph.stages[stage as int].plan
                },
                tasks as nat,
            ),
    {
        let ghost before = self@;
        let ghost added = changes@;
        assert(before.graph.stages[stage as int] == self.graph.stages@[stage as int]@);
        group_inputs(&mut self.graph.stages[stage].inputs, choices);
        let mut changes = changes;
        self.graph.stages[stage].plan.repartitions.append(&mut changes);
        self.graph.stages[stage].plan.partitions = partitions;
        self.stages[stage].tasks = new_tasks(tasks);
        proof {
            let after = before.with_grouped_stage(
                stage as int,
                chosen_inputs(before.graph.stages[stage as int].inputs, choices@),
                StagePlanView {
                    repartitions: before.graph.stages[stage as int].plan.repartitions + added,
                    partitions,
                    ..before.graph.stages[stage as int].plan
                },
                tasks as nat,
            );
            assert(self@.graph.stages =~= after.graph.stages);
            assert(self@.stages[stage as int].tasks =~= after.stages[stage as int].tasks);
            assert(self@.stages =~= after.stages);
        }
    }

    /// Replaces the tasks of a region.
    pub fn set_region_tasks(&mut self, region: usize, tasks: Vec<TaskTopology>)
        requires
            region < old(self)@.topology.regions.len(),
        ensures
            final(self)@ == old(self)@.with_region_tasks(region as int, tasks@),
    {
        self.topology.update_region_tasks(region, tasks);
    }
}

/// Has inputs of a stage read in groups of channels.
fn group_inputs(inputs: &mut Vec<StageInput>, choices: Vec<Option<Vec<Range<usize>>>>)
    requires
        choices@.len() == old(inputs)@.len(),
    ensures
        final(inputs)@.map_values(|i: StageInput| i@) == chosen_inputs(
            old(inputs)@.map_values(|i: StageInput| i@),
            choices@,
        ),
{
    let ghost before = inputs@;
    let ghost all = choices@;
    let mut choices = choices;
    let mut k: usize = choices.len();
    while k > 0
        invariant
            k <= all.len(),
            all.len() == before.len(),
            inputs@.len() == before.len(),
            choices@ == all.take(k as int),
            forall|i: int| 0 <= i < k ==> #[trigger] inputs@[i] == before[i],
            forall|i: int|
                k <= i < before.len() ==> (#[trigger] inputs@[i])@ == match all[i] {
                    Some(ranges) => StageInputView {
                        partition_ranges: Some(ranges@),
                        ..before[i]@
                    },
                    None => before[i]@,
                },
        decreases k,
    {
        let choice = choices.pop();
        k = k - 1;
        assert(choices@ =~= all.take(k as int));
        if let Some(Some(ranges)) = choice {
            inputs[k].partition_ranges = Some(ranges);
        }
    }
    assert(inputs@.map_values(|i: StageInput| i@) =~= chosen_inputs(
        before.map_values(|i: StageInput| i@),
        all,
    ));
}

/// Tasks that have not been attempted yet.
pub fn new_tasks(n: usize) -> (r: Vec<TaskDescriptor>)
    ensures
        r@.map_values(|t: TaskDescriptor| t@) == Seq::new(
            n as nat,
            |p: int| Seq::<AttemptView>::empty(),
        ),
{
    let mut r: Vec<TaskDescriptor> = Vec::new();
    let mut i: usize = 0;
    while i < n
        invariant
            i <= n,
            r@.len() == i,
            forall|p: int| 0 <= p < i ==> (#[trigger] r@[p])@ == Seq::<AttemptView>::empty(),
        decreases n - i,
    {
        let task = TaskDescriptor { attempts: Vec::new() };
        assert(task@ =~= Seq::<AttemptView>::empty());
        r.push(task);
        i = i + 1;
    }
    assert(r@.map_values(|t: TaskDescriptor| t@) =~= Seq::new(
        n as nat,
        |p: int| Seq::<AttemptView>::empty(),
    ));
    r
}

}

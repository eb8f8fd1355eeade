//! Tasks: where they run, what they read and what they write.

use crate::id::{TaskKey, WorkerId};
use vstd::prelude::*;

verus! {

/// Where the tasks of a stage run.
#[derive(Debug, Clone, Copy, PartialEq, Eq, Structural)]
pub enum TaskPlacement {
    Driver,
    Worker,
}

/// Where the output of a task is kept.
#[derive(Debug, Clone, Copy, PartialEq, Eq, Structural)]
pub enum TaskOutputKind {
    Local,
}

/// A task attempt to be scheduled.
#[derive(Debug, Clone, Copy, PartialEq, Eq, Structural)]
pub struct TaskSetEntry {
    pub key: TaskKey,
    pub output: TaskOutputKind,
}

/// Task attempts that are scheduled together in one slot.
#[derive(Debug)]
pub struct TaskSet {
    pub entries: Vec<TaskSetEntry>,
}

/// The task sets of a region, with the place where each of them runs.
#[derive(Debug)]
pub struct TaskRegion {
    pub tasks: Vec<(TaskPlacement, TaskSet)>,
}

/// The task sets of a region as sequences.
pub type RegionView = Seq<(TaskPlacement, Seq<TaskSetEntry>)>;

impl View for TaskRegion {
    type V = RegionView;

    open spec fn view(&self) -> RegionView {
        self.tasks@.map_values(|t: (TaskPlacement, TaskSet)| (t.0, t.1.entries@))
    }
}

/// Where a task attempt has been placed.
#[derive(Debug, Clone, Copy, PartialEq, Eq, Structural)]
pub enum TaskAssignment {
    Driver,
    Worker { worker_id: WorkerId, slot: usize },
}

/// Knows where task attempts have been placed.
pub trait TaskAssignmentGetter {
    /// The place of a task attempt.
    spec fn assigned(&self, key: TaskKey) -> Option<TaskAssignment>;

    /// The place of a task attempt, if it has one.
    fn get(&self, key: &TaskKey) -> (r: Option<TaskAssignment>)
        ensures
            r == self.assigned(*key),
    ;
}

/// A list of task attempts and their places. Of two entries for an attempt the first one counts.
#[derive(Debug)]
pub struct TaskAssignments {
    pub entries: Vec<(TaskKey, TaskAssignment)>,
}

/// The place that the first entry for a task attempt gives.
pub open spec fn first_assignment(
    entries: Seq<(TaskKey, TaskAssignment)>,
    key: TaskKey,
) -> Option<TaskAssignment>
    decreases entries.len(),
{
    if entries.len() == 0 {
        None
    } else if entries[0].0 == key {
        Some(entries[0].1)
    } else {
        first_assignment(entries.skip(1), key)
    }
}

impl TaskAssignmentGetter for TaskAssignments {
    open spec fn assigned(&self, key: TaskKey) -> Option<TaskAssignment> {
        first_assignment(self.entries@, key)
    }

    fn get(&self, key: &TaskKey) -> (r: Option<TaskAssignment>) {
        let mut i: usize = 0;
        assert(self.entries@.skip(0) =~= self.entries@);
        while i < self.entries.len()
            invariant
                i <= self.entries@.len(),
                self.assigned(*key) == first_assignment(self.entries@.skip(i as int), *key),
            decreases self.entries@.len() - i,
        {
            if self.entries[i].0 == *key {
                return Some(self.entries[i].1);
            }
            assert(self.entries@.skip(i as int).skip(1) =~= self.entries@.skip(i + 1));
            i = i + 1;
        }
        None
    }
}

/// One output channel of an upstream task attempt.
#[derive(Debug, Clone, Copy, PartialEq, Eq, Structural)]
pub struct TaskInputKey {
    pub partition: usize,
    pub attempt: usize,
    pub channel: usize,
}

/// Where the input of a stage is found: for every task of the stage the upstream channels that
/// it reads, together with the worker that serves each of them if the upstream stage runs on
/// workers.
#[derive(Debug)]
#[allow(inconsistent_fields)]
pub enum TaskInputLocator {
    Driver { stage: usize, keys: Vec<Vec<TaskInputKey>> },
    Worker { stage: usize, keys: Vec<Vec<(WorkerId, TaskInputKey)>> },
}

/// One input of a task.
#[derive(Debug)]
pub struct TaskInput {
    pub locator: TaskInputLocator,
}

/// An input of a task as sequences.
#[allow(inconsistent_fields)]
pub enum TaskInputView {
    Driver { stage: usize, keys: Seq<Seq<TaskInputKey>> },
    Worker { stage: usize, keys: Seq<Seq<(WorkerId, TaskInputKey)>> },
}

/// The rows of a table as sequences.
pub open spec fn rows<T>(v: Seq<Vec<T>>) -> Seq<Seq<T>> {
    v.map_values(|row: Vec<T>| row@)
}

impl View for TaskInput {
    type V = TaskInputView;

    open spec fn view(&self) -> TaskInputView {
        match self.locator {
            TaskInputLocator::Driver { stage, keys } => TaskInputView::Driver {
                stage,
                keys: rows(keys@),
            },
            TaskInputLocator::Worker { stage, keys } => TaskInputView::Worker {
                stage,
                keys: rows(keys@),
            },
        }
    }
}

/// How a task distributes its output over channels. The keys of a hash distribution are
/// encoded expressions.
#[derive(Debug)]
pub enum TaskOutputDistribution {
    Hash { keys: Vec<Vec<u8>>, channels: usize },
    RoundRobin { channels: usize },
}

/// The distribution of a task output as a mathematical value.
#[allow(inconsistent_fields)]
pub enum OutputDistributionView {
    Hash { keys: Seq<Seq<u8>>, channels: usize },
    RoundRobin { channels: usize },
}

impl View for TaskOutputDistribution {
    type V = OutputDistributionView;

    open spec fn view(&self) -> OutputDistributionView {
        match self {
            TaskOutputDistribution::Hash { keys, channels } => OutputDistributionView::Hash {
                keys: rows(keys@),
                channels: *channels,
            },
            TaskOutputDistribution::RoundRobin { channels } => OutputDistributionView::RoundRobin {
                channels: *channels,
            },
        }
    }
}

/// Where a task puts its output.
#[derive(Debug, Clone, Copy, PartialEq, Eq, Structural)]
pub enum TaskOutputLocator {
    Local { replicas: usize },
    LocalDisk,
}

/// The output of a task.
#[derive(Debug)]
pub struct TaskOutput {
    pub distribution: TaskOutputDistribution,
    pub locator: TaskOutputLocator,
}

/// The output of a task as a mathematical value.
pub struct TaskOutputView {
    pub distribution: OutputDistributionView,
    pub locator: TaskOutputLocator,
}

impl View for TaskOutput {
    type V = TaskOutputView;

    open spec fn view(&self) -> TaskOutputView {
        TaskOutputView { distribution: self.distribution@, locator: self.locator }
    }
}

/// What a worker needs to run a task: the encoded plan of the stage, its inputs and its output.
#[derive(Debug)]
pub struct TaskDefinition {
    pub plan: Vec<u8>,
    pub inputs: Vec<TaskInput>,
    pub output: TaskOutput,
}

/// What a worker needs to run a task as a mathematical value.
#[verifier::ext_equal]
pub struct TaskDefinitionView {
    pub plan: Seq<u8>,
    pub inputs: Seq<TaskInputView>,
    pub output: TaskOutputView,
}

impl View for TaskDefinition {
    type V = TaskDefinitionView;

    open spec fn view(&self) -> TaskDefinitionView {
        TaskDefinitionView {
            plan: self.plan@,
            inputs: self.inputs@.map_values(|i: TaskInput| i@),
            output: self.output@,
        }
    }
}

}

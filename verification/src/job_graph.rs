//! The stages of a job and how they are connected.

use crate::task::TaskPlacement;
use std::ops::Range;
use vstd::prelude::*;

verus! {

/// How the output of a stage is handed to its consumers.
#[derive(Debug, Clone, Copy, PartialEq, Eq, Structural)]
pub enum OutputMode {
    /// Streamed in memory while the stage runs.
    Pipelined,
    /// Written to disk, and read once the stage has finished.
    Blocking,
}

/// How a stage reads the output of another one.
#[derive(Debug, Clone, Copy, PartialEq, Eq, Structural)]
pub enum InputMode {
    Forward,
    Merge,
    Shuffle,
    Broadcast,
}

/// How the output of a stage is distributed over channels. The keys of a hash distribution are
/// handles of expressions that the query engine keeps.
#[derive(Debug)]
pub enum OutputDistribution {
    Hash { keys: Vec<u64>, channels: usize },
    RoundRobin { channels: usize },
}

impl OutputDistribution {
    /// The number of channels.
    pub open spec fn spec_channels(&self) -> usize {
        match self {
            OutputDistribution::Hash { channels, .. } => *channels,
            OutputDistribution::RoundRobin { channels } => *channels,
        }
    }

    /// The number of channels.
    pub fn channels(&self) -> (r: usize)
        ensures
            r == self.spec_channels(),
    {
        match self {
            OutputDistribution::Hash { channels, .. } => *channels,
            OutputDistribution::RoundRobin { channels } => *channels,
        }
    }
}

/// One input of a stage.
#[derive(Debug)]
pub struct StageInput {
    /// The stage that produces the input.
    pub stage: usize,
    pub mode: InputMode,
    /// The channels that each task reads, once they have been grouped.
    pub partition_ranges: Option<Vec<Range<usize>>>,
}

/// An input of a stage as a mathematical value.
#[verifier::ext_equal]
pub struct StageInputView {
    pub stage: usize,
    pub mode: InputMode,
    pub partition_ranges: Option<Seq<Range<usize>>>,
}

impl View for StageInput {
    type V = StageInputView;

    open spec fn view(&self) -> StageInputView {
        StageInputView {
            stage: self.stage,
            mode: self.mode,
            partition_ranges: match self.partition_ranges {
                Some(ranges) => Some(ranges@),
                None => None,
            },
        }
    }
}

/// A change of the number of partitions with which a plan reads one of its stage inputs.
#[derive(Debug, Clone, Copy, PartialEq, Eq, Structural)]
pub struct InputRepartition {
    pub input: usize,
    pub partitions: usize,
}

/// The plan of a stage: the handle of a plan that the query engine keeps, the changes that have
/// been made to its stage inputs since, in order, and the number of output partitions of the
/// plan with these changes.
#[derive(Debug)]
pub struct StagePlan {
    pub base: u64,
    pub repartitions: Vec<InputRepartition>,
    pub partitions: usize,
}

/// The plan of a stage as a mathematical value.
#[verifier::ext_equal]
pub struct StagePlanView {
    pub base: u64,
    pub repartitions: Seq<InputRepartition>,
    pub partitions: usize,
}

impl View for StagePlan {
    type V = StagePlanView;

    open spec fn view(&self) -> StagePlanView {
        StagePlanView {
            base: self.base,
            repartitions: self.repartitions@,
            partitions: self.partitions,
        }
    }
}

/// A stage of a job.
#[derive(Debug)]
pub struct Stage {
    pub inputs: Vec<StageInput>,
    pub plan: StagePlan,
    /// Stages of one group share task slots.
    pub group: String,
    pub mode: OutputMode,
    pub distribution: OutputDistribution,
    pub placement: TaskPlacement,
    /// The number of times that each channel of the stage is read.
    pub replicas: usize,
}

/// A stage of a job as a mathematical value.
#[verifier::ext_equal]
pub struct StageView {
    pub inputs: Seq<StageInputView>,
    pub plan: StagePlanView,
    pub group: Seq<char>,
    pub mode: OutputMode,
    pub distribution: OutputDistribution,
    pub placement: TaskPlacement,
    pub replicas: usize,
}

impl View for Stage {
    type V = StageView;

    open spec fn view(&self) -> StageView {
        StageView {
            inputs: self.inputs@.map_values(|i: StageInput| i@),
            plan: self.plan@,
            group: self.group@,
            mode: self.mode,
            distribution: self.distribution,
            placement: self.placement,
            replicas: self.replicas,
        }
    }
}

/// A handle of an output schema that the query engine keeps.
#[derive(Debug, Clone, Copy, PartialEq, Eq, Structural)]
pub struct SchemaHandle {
    pub slot: u64,
}

/// The stages of a job and the schema of its output.
#[derive(Debug)]
pub struct JobGraph {
    pub stages: Vec<Stage>,
    pub schema: SchemaHandle,
}

/// The stages of a job as a mathematical value.
#[verifier::ext_equal]
pub struct JobGraphView {
    pub stages: Seq<StageView>,
    pub schema: SchemaHandle,
}

impl View for JobGraph {
    type V = JobGraphView;

    open spec fn view(&self) -> JobGraphView {
        JobGraphView { stages: self.stages@.map_values(|s: Stage| s@), schema: self.schema }
    }
}

}

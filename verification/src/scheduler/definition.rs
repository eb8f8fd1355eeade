//! Defining a task for the worker that is to run it.

use crate::error::{ErrorView, ExecutionError, ExecutionResult};
use crate::id::{JobId, TaskKey};
use crate::job_graph::{OutputDistribution, OutputMode, Stage, StageInput, StageInputView, StageView};
use crate::scheduler::input::task_input;
use crate::scheduler::JobScheduler;
use crate::state::{JobDescriptor, JobView};
use crate::task::{
    rows, OutputDistributionView, TaskAssignment, TaskAssignmentGetter, TaskDefinition,
    TaskDefinitionView, TaskInput, TaskInputView, TaskOutput, TaskOutputDistribution,
    TaskOutputLocator, TaskOutputView,
};
use vstd::prelude::*;

verus! {

/// The plan of a stage and the keys of its hash distribution as the query engine has encoded them,
/// or the messages of the errors with which that has failed.
#[derive(Debug)]
pub struct EncodedStage {
    pub plan: Result<Vec<u8>, String>,
    pub hash_keys: Result<Vec<Vec<u8>>, String>,
}

/// All inputs of a task, or the reason why the first one that cannot be read cannot be.
pub open spec fn task_inputs(
    job_id: JobId,
    job: JobView,
    inputs: Seq<StageInputView>,
    assigned: spec_fn(TaskKey) -> Option<TaskAssignment>,
) -> Result<Seq<TaskInputView>, ErrorView>
    decreases inputs.len(),
{
    if inputs.len() == 0 {
        Ok(Seq::empty())
    } else {
        match task_inputs(job_id, job, inputs.drop_last(), assigned) {
            Ok(found) => match task_input(job_id, job, inputs.last(), assigned) {
                Ok(input) => Ok(found.push(input)),
                Err(e) => Err(e),
            },
            Err(e) => Err(e),
        }
    }
}

/// The output of the tasks of a stage, or the reason why it cannot be described.
pub open spec fn task_output(stage: StageView, hash_keys: Result<Vec<Vec<u8>>, String>) -> Result<
    TaskOutputView,
    ErrorView,
> {
    let locator = match stage.mode {
        OutputMode::Pipelined => TaskOutputLocator::Local { replicas: stage.replicas },
        OutputMode::Blocking => TaskOutputLocator::LocalDisk,
    };
    match stage.distribution {
        OutputDistribution::Hash { channels, .. } => match hash_keys {
            Ok(keys) => Ok(
                TaskOutputView {
                    distribution: OutputDistributionView::Hash { keys: rows(keys@), channels },
                    locator,
                },
            ),
            Err(message) => Err(ErrorView::DataFusion(message@)),
        },
        OutputDistribution::RoundRobin { channels } => Ok(
            TaskOutputView {
                distribution: OutputDistributionView::RoundRobin { channels },
                locator,
            },
        ),
    }
}

/// What a worker needs to run the tasks of a stage, or the reason why it cannot be told. An error of
/// the plan comes before one of the inputs, and that before one of the output.
pub open spec fn stage_definition(
    job_id: JobId,
    job: JobView,
    stage: int,
    assigned: spec_fn(TaskKey) -> Option<TaskAssignment>,
    encoded: EncodedStage,
) -> Result<TaskDefinitionView, ErrorView> {
    match encoded.plan {
        Ok(plan) => match task_inputs(job_id, job, job.graph.stages[stage].inputs, assigned) {
            Ok(inputs) => match task_output(job.graph.stages[stage], encoded.hash_keys) {
                Ok(output) => Ok(TaskDefinitionView { plan: plan@, inputs, output }),
                Err(e) => Err(e),
            },
            Err(e) => Err(e),
        },
        Err(message) => Err(ErrorView::DataFusion(message@)),
    }
}

impl JobScheduler {
    /// Describes the output of the tasks of a stage.
    pub fn get_task_output(&self, stage: &Stage, hash_keys: Result<Vec<Vec<u8>>, String>) -> (r: ExecutionResult<
        TaskOutput,
    >)
        ensures
            match r {
                Ok(output) => task_output(stage@, hash_keys) == Ok::<TaskOutputView, ErrorView>(
                    output@,
                ),
                Err(e) => task_output(stage@, hash_keys) == Err::<TaskOutputView, ErrorView>(e@),
            },
    {
        let distribution = match &stage.distribution {
            OutputDistribution::Hash { keys: _, channels } => match hash_keys {
                Ok(keys) => TaskOutputDistribution::Hash { keys, channels: *channels },
                Err(message) => {
                    return Err(ExecutionError::DataFusionError(message));
                },
            },
            OutputDistribution::RoundRobin { channels } => TaskOutputDistribution::RoundRobin {
                channels: *channels,
            },
        };
        let locator = match stage.mode {
            OutputMode::Pipelined => TaskOutputLocator::Local { replicas: stage.replicas },
            OutputMode::Blocking => TaskOutputLocator::LocalDisk,
        };
        Ok(TaskOutput { distribution, locator })
    }

    /// Locates all inputs of a task.
    fn get_task_inputs<A: TaskAssignmentGetter>(
        &self,
        job: &JobDescriptor,
        key: &TaskKey,
        inputs: &Vec<StageInput>,
        assignments: &A,
    ) -> (r: ExecutionResult<Vec<TaskInput>>)
        ensures
            ({
                let expected = task_inputs(
                    key.job_id,
                    job@,
                    inputs@.map_values(|i: StageInput| i@),
                    |k: TaskKey| assignments.assigned(k),
                );
                match r {
                    Ok(found) => expected == Ok::<Seq<TaskInputView>, ErrorView>(
                        found@.map_values(|i: TaskInput| i@),
                    ),
                    Err(e) => expected == Err::<Seq<TaskInputView>, ErrorView>(e@),
                }
            }),
    {
        let ghost all = inputs@.map_values(|i: StageInput| i@);
        let ghost assigned = |k: TaskKey| assignments.assigned(k);
        let mut found: Vec<TaskInput> = Vec::new();
        let mut i: usize = 0;
        proof {
            assert(all.take(0).len() == 0);
            assert(found@.map_values(|i: TaskInput| i@) =~= Seq::empty());
        }
        while i < inputs.len()
            invariant
                i <= inputs@.len(),
                all == inputs@.map_values(|i: StageInput| i@),
                assigned == (|k: TaskKey| assignments.assigned(k)),
                task_inputs(key.job_id, job@, all.take(i as int), assigned) == Ok::<
                    Seq<TaskInputView>,
                    ErrorView,
                >(found@.map_values(|i: TaskInput| i@)),
            decreases inputs@.len() - i,
        {
            proof {
                assert(all.take(i + 1).drop_last() =~= all.take(i as int));
                assert(all.take(i + 1).last() == inputs@[i as int]@);
            }
            match self.get_task_input(job, key, &inputs[i], assignments) {
                Ok(input) => {
                    let ghost before = found@;
                    found.push(input);
                    assert(found@.map_values(|i: TaskInput| i@) =~= before.map_values(
                        |i: TaskInput| i@,
                    ).push(input@));
                },
                Err(e) => {
                    proof {
                        lemma_inputs_fail(key.job_id, job@, all, assigned, i + 1);
                    }
                    return Err(e);
                },
            }
            i = i + 1;
        }
        assert(all.take(i as int) =~= all);
        Ok(found)
    }

    /// Defines a task of a stage.
    pub fn define_task<A: TaskAssignmentGetter>(
        &self,
        job: &JobDescriptor,
        key: &TaskKey,
        assignments: &A,
        encoded: EncodedStage,
    ) -> (r: ExecutionResult<TaskDefinition>)
        requires
            key.stage < job@.graph.stages.len(),
        ensures
            ({
                let expected = stage_definition(
                    key.job_id,
                    job@,
                    key.stage as int,
                    |k: TaskKey| assignments.assigned(k),
                    encoded,
                );
                match r {
                    Ok(definition) => expected == Ok::<TaskDefinitionView, ErrorView>(definition@),
                    Err(e) => expected == Err::<TaskDefinitionView, ErrorView>(e@),
                }
            }),
    {
        let stage = &job.graph.stages[key.stage];
        assert(stage@ == job@.graph.stages[key.stage as int]);
        let plan = match encoded.plan {
            Ok(plan) => plan,
            Err(message) => {
                return Err(ExecutionError::DataFusionError(message));
            },
        };
        let inputs = match self.get_task_inputs(job, key, &stage.inputs, assignments) {
            Ok(inputs) => inputs,
            Err(e) => {
                return Err(e);
            },
        };
        let output = match self.get_task_output(stage, encoded.hash_keys) {
            Ok(output) => output,
            Err(e) => {
                return Err(e);
            },
        };
        Ok(TaskDefinition { plan, inputs, output })
    }
}

/// An error of the first inputs is an error of all of them.
proof fn lemma_inputs_fail(
    job_id: JobId,
    job: JobView,
    inputs: Seq<StageInputView>,
    assigned: spec_fn(TaskKey) -> Option<TaskAssignment>,
    n: int,
)
    requires
        0 <= n <= inputs.len(),
        task_inputs(job_id, job, inputs.take(n), assigned) is Err,
    ensures
        task_inputs(job_id, job, inputs, assigned) == task_inputs(
            job_id,
            job,
            inputs.take(n),
            assigned,
        ),
    decreases inputs.len() - n,
{
    if n < inputs.len() {
        assert(inputs.take(n + 1).drop_last() =~= inputs.take(n));
        lemma_inputs_fail(job_id, job, inputs, assigned, n + 1);
    } else {
        assert(inputs.take(n) =~= inputs);
    }
}

}

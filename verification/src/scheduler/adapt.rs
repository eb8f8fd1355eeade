//! Choosing how a region reads shuffled data, once its sizes are known.

use crate::adaptive::{
    coalesced, covers, lemma_coalesced_covers, lemma_covers_length, StageShuffleStats,
};
use crate::collections::lemma_distinct;
use crate::id::JobId;
use crate::job_graph::{InputMode, InputRepartition, OutputMode, StageInputView, StagePlanView};
use crate::measurements::Measurements;
use crate::scheduler::options::JobSchedulerOptions;
use crate::scheduler::region::{lemma_stages_exist, region_stages, task_stages};
use crate::scheduler::JobScheduler;
use crate::shuffle_index::{channel_total, ShuffleIndex};
use crate::state::{chosen_inputs, JobDescriptor, JobView};
use crate::topology::TaskTopology;
use std::ops::Range;
use vstd::prelude::*;

verus! {

/// The number of the latest attempt at every task of a stage, zero where there is none.
pub open spec fn latest_attempts(job: JobView, stage: usize) -> Seq<usize> {
    Seq::new(
        job.stages[stage as int].tasks.len(),
        |p: int|
            match job.latest_attempt(stage as int, p) {
                Some(attempt) => attempt,
                None => 0,
            },
    )
}

/// The size of every output channel of a stage, as the index files of the latest attempts give it.
pub open spec fn channel_sizes(index: &ShuffleIndex, job_id: JobId, job: JobView, stage: usize) -> Seq<
    u64,
> {
    let attempts = latest_attempts(job, stage);
    Seq::new(
        job.graph.stages[stage as int].distribution.spec_channels() as nat,
        |c: int| channel_total(index, job_id, stage, attempts, c, attempts.len()).0 as u64,
    )
}

/// The groups of channels into which an input of a stage falls.
pub open spec fn input_ranges(
    target: u64,
    data: &Measurements,
    job_id: JobId,
    job: JobView,
    stage: int,
    input: int,
) -> Seq<Range<usize>> {
    coalesced(
        channel_sizes(&data.index, job_id, job, job.graph.stages[stage].inputs[input].stage),
        target as nat,
    )
}

/// The number of channels of an input of a stage.
pub open spec fn input_channels(job: JobView, stage: int, input: int) -> nat {
    job.graph.stages[job.graph.stages[stage].inputs[input].stage as int].distribution.spec_channels() as nat
}

/// Whether an input of a stage is to be read in groups of channels: that is possible, and there are
/// fewer groups than channels.
pub open spec fn is_merged(
    target: u64,
    data: &Measurements,
    job_id: JobId,
    job: JobView,
    stage: int,
    input: int,
) -> bool {
    &&& job.adaptable_input(stage, input)
    &&& input_ranges(target, data, job_id, job, stage, input).len() < input_channels(
        job,
        stage,
        input,
    )
}

/// The inputs of a stage, those that are to be read in groups of channels with their groups.
pub open spec fn grouped_inputs(
    target: u64,
    data: &Measurements,
    job_id: JobId,
    job: JobView,
    stage: int,
) -> Seq<StageInputView> {
    let inputs = job.graph.stages[stage].inputs;
    Seq::new(
        inputs.len(),
        |k: int|
            if is_merged(target, data, job_id, job, stage, k) {
                StageInputView {
                    partition_ranges: Some(input_ranges(target, data, job_id, job, stage, k)),
                    ..inputs[k]
                }
            } else {
                inputs[k]
            },
    )
}

/// The plan of a stage once it reads those of its first `n` inputs in groups of channels for which
/// that is to be done. Where the query engine cannot change the plan, it stays as it is.
pub open spec fn grouped_plan(
    target: u64,
    data: &Measurements,
    job_id: JobId,
    job: JobView,
    stage: int,
    n: nat,
) -> StagePlanView
    decreases n,
{
    if n == 0 {
        job.graph.stages[stage].plan
    } else {
        let before = grouped_plan(target, data, job_id, job, stage, (n - 1) as nat);
        let groups = input_ranges(target, data, job_id, job, stage, n - 1).len();
        match data.spec_rewritten(stage, n - 1, groups as int) {
            Some(partitions) if is_merged(target, data, job_id, job, stage, n - 1) => StagePlanView {
                repartitions: before.repartitions.push(
                    InputRepartition { input: (n - 1) as usize, partitions: groups as usize },
                ),
                partitions,
                ..before
            },
            _ => before,
        }
    }
}

/// The number of tasks that a stage gets if some of its first `n` inputs are to be read in groups of
/// channels: one for every group of the last such input.
pub open spec fn group_count(
    target: u64,
    data: &Measurements,
    job_id: JobId,
    job: JobView,
    stage: int,
    n: nat,
) -> Option<nat>
    decreases n,
{
    if n == 0 {
        None
    } else if is_merged(target, data, job_id, job, stage, n - 1) {
        Some(input_ranges(target, data, job_id, job, stage, n - 1).len())
    } else {
        group_count(target, data, job_id, job, stage, (n - 1) as nat)
    }
}

/// Whether a stage is to read inputs in groups of channels.
pub open spec fn is_regrouped(
    target: u64,
    data: &Measurements,
    job_id: JobId,
    job: JobView,
    stage: int,
) -> bool {
    group_count(target, data, job_id, job, stage, job.graph.stages[stage].inputs.len()) is Some
}

/// The job once a stage reads its inputs in groups of channels, if that is to be done. The stage then
/// has one task for every group, none of them attempted yet.
pub open spec fn adapted_stage(
    target: u64,
    data: &Measurements,
    job_id: JobId,
    job: JobView,
    stage: int,
) -> JobView {
    let n = job.graph.stages[stage].inputs.len();
    match group_count(target, data, job_id, job, stage, n) {
        Some(count) => job.with_grouped_stage(
            stage,
            grouped_inputs(target, data, job_id, job, stage),
            grouped_plan(target, data, job_id, job, stage, n),
            count,
        ),
        None => job,
    }
}

/// The job once some stages read their inputs in groups of channels.
pub open spec fn adapted_stages(
    target: u64,
    data: &Measurements,
    job_id: JobId,
    job: JobView,
    stages: Seq<usize>,
) -> JobView
    decreases stages.len(),
{
    if stages.len() == 0 {
        job
    } else {
        let before = adapted_stages(target, data, job_id, job, stages.drop_last());
        adapted_stage(target, data, job_id, before, stages.last() as int)
    }
}

/// All tasks of a stage.
pub open spec fn stage_tasks(job: JobView, stage: usize) -> Seq<TaskTopology> {
    Seq::new(
        job.stages[stage as int].tasks.len(),
        |p: int| TaskTopology { stage, partition: p as usize },
    )
}

/// All tasks of some stages.
pub open spec fn all_tasks(job: JobView, stages: Seq<usize>) -> Seq<TaskTopology> {
    stages.map_values(|s: usize| stage_tasks(job, s)).flatten()
}

/// The job once the stages of a region read their inputs in groups of channels.
pub open spec fn adapted_region(
    target: u64,
    data: &Measurements,
    job_id: JobId,
    job: JobView,
    region: int,
) -> JobView {
    let stages = task_stages(job.region_tasks(region));
    let after = adapted_stages(target, data, job_id, job, stages);
    after.with_region_tasks(region, all_tasks(after, stages))
}

/// Whether a job differs from an earlier state of it at most in how some stages read their
/// inputs, and in the tasks of these stages.
pub open spec fn adapted_from(before: JobView, after: JobView, stages: Seq<usize>) -> bool {
    &&& after.topology == before.topology
    &&& after.regions == before.regions
    &&& after.state == before.state
    &&& after.created_at == before.created_at
    &&& after.stopped_at == before.stopped_at
    &&& after.graph.schema == before.graph.schema
    &&& after.graph.stages.len() == before.graph.stages.len()
    &&& after.stages.len() == before.stages.len()
    &&& forall|s: int|
        0 <= s < after.graph.stages.len() ==> {
            let old_stage = before.graph.stages[s];
            let new_stage = #[trigger] after.graph.stages[s];
            &&& new_stage.inputs.len() == old_stage.inputs.len()
            &&& new_stage.plan.base == old_stage.plan.base
            &&& new_stage.group == old_stage.group
            &&& new_stage.mode == old_stage.mode
            &&& new_stage.distribution == old_stage.distribution
            &&& new_stage.placement == old_stage.placement
            &&& new_stage.replicas == old_stage.replicas
        }
    &&& forall|s: int|
        0 <= s < after.stages.len() ==> (#[trigger] after.stages[s]).tasks.len() <= usize::MAX
    &&& forall|s: int, i: int|
        0 <= s < after.graph.stages.len() && 0 <= i < after.graph.stages[s].inputs.len() ==> {
            let old_input = before.graph.stages[s].inputs[i];
            let new_input = #[trigger] after.graph.stages[s].inputs[i];
            &&& new_input.stage == old_input.stage
            &&& new_input.mode == old_input.mode
            &&& old_input.partition_ranges is Some ==> new_input.partition_ranges
                == old_input.partition_ranges
        }
    &&& forall|s: int|
        #![trigger after.stages[s]]
        #![trigger after.graph.stages[s]]
        0 <= s < after.stages.len() && !(stages.contains(s as usize) && before.adaptable(s)) ==> {
            &&& after.stages[s] == before.stages[s]
            &&& after.graph.stages[s] == before.graph.stages[s]
        }
}

/// The groups of an input hold all its channels, and they are at most as many as these.
pub proof fn lemma_ranges_fit(
    target: u64,
    data: &Measurements,
    job_id: JobId,
    job: JobView,
    stage: int,
    input: int,
)
    ensures
        ({
            let ranges = input_ranges(target, data, job_id, job, stage, input);
            let channels = input_channels(job, stage, input);
            &&& covers(ranges, channels)
            &&& ranges.len() <= channels
            &&& channels > 0 ==> ranges.len() > 0
        }),
{
    let u = job.graph.stages[stage].inputs[input].stage;
    let sizes = channel_sizes(&data.index, job_id, job, u);
    lemma_coalesced_covers(sizes, target as nat);
    lemma_covers_length(coalesced(sizes, target as nat), sizes.len());
}

/// A stage that is to read inputs in groups of channels gets some tasks, and it has such an input.
pub proof fn lemma_group_count(
    target: u64,
    data: &Measurements,
    job_id: JobId,
    job: JobView,
    stage: int,
    n: nat,
)
    ensures
        match group_count(target, data, job_id, job, stage, n) {
            Some(count) => 0 < count <= usize::MAX && exists|k: int|
                0 <= k < n && #[trigger] is_merged(target, data, job_id, job, stage, k),
            None => forall|k: int|
                0 <= k < n ==> !#[trigger] is_merged(target, data, job_id, job, stage, k),
        },
    decreases n,
{
    if n > 0 {
        lemma_group_count(target, data, job_id, job, stage, (n - 1) as nat);
        lemma_ranges_fit(target, data, job_id, job, stage, n - 1);
    }
}

/// The stages that a job reads from exist after any changes too.
proof fn lemma_adapted_inputs_exist(before: JobView, job: JobView, stages: Seq<usize>, s: int, i: int)
    requires
        before.linked(),
        adapted_from(before, job, stages),
        0 <= s < job.graph.stages.len(),
        0 <= i < job.graph.stages[s].inputs.len(),
    ensures
        job.graph.stages[s].inputs[i].stage < job.stages.len(),
{
    assert(job.graph.stages[s].inputs[i].stage == before.graph.stages[s].inputs[i].stage);
    assert(before.graph.stages[s].inputs[i].stage < before.stages.len());
}

/// Having a stage read inputs in groups of channels keeps everything else.
proof fn lemma_adapted_stage(
    target: u64,
    data: &Measurements,
    job_id: JobId,
    before: JobView,
    job: JobView,
    stages: Seq<usize>,
    stage: usize,
)
    requires
        before.linked(),
        adapted_from(before, job, stages),
        stages.contains(stage),
        stage < job.stages.len(),
    ensures
        adapted_from(
            before,
            adapted_stage(target, data, job_id, job, stage as int),
            stages,
        ),
{
    let after = adapted_stage(target, data, job_id, job, stage as int);
    let n = job.graph.stages[stage as int].inputs.len();
    lemma_group_count(target, data, job_id, job, stage as int, n);
    if is_regrouped(target, data, job_id, job, stage as int) {
        lemma_grouped_plan_base(target, data, job_id, job, stage as int, n);
        let k = choose|k: int|
            0 <= k < n && #[trigger] is_merged(target, data, job_id, job, stage as int, k);
        let u = job.graph.stages[stage as int].inputs[k].stage;
        assert(u == before.graph.stages[stage as int].inputs[k].stage);
        assert(before.graph.stages[stage as int].inputs[k].stage < before.stages.len());
        assert(job.graph.stages[u as int].mode == before.graph.stages[u as int].mode);
        assert(before.adaptable_input(stage as int, k));
        assert(before.adaptable(stage as int));
        assert forall|s: int| 0 <= s < after.graph.stages.len() implies ({
            let old_stage = before.graph.stages[s];
            let new_stage = #[trigger] after.graph.stages[s];
            &&& new_stage.inputs.len() == old_stage.inputs.len()
            &&& new_stage.plan.base == old_stage.plan.base
            &&& new_stage.group == old_stage.group
            &&& new_stage.mode == old_stage.mode
            &&& new_stage.distribution == old_stage.distribution
            &&& new_stage.placement == old_stage.placement
            &&& new_stage.replicas == old_stage.replicas
        }) by {
            assert(job.graph.stages[s].inputs.len() == before.graph.stages[s].inputs.len());
        }
        assert forall|s: int, i: int|
            0 <= s < after.graph.stages.len() && 0 <= i
                < after.graph.stages[s].inputs.len() implies ({
            let old_input = before.graph.stages[s].inputs[i];
            let new_input = #[trigger] after.graph.stages[s].inputs[i];
            &&& new_input.stage == old_input.stage
            &&& new_input.mode == old_input.mode
            &&& old_input.partition_ranges is Some ==> new_input.partition_ranges
                == old_input.partition_ranges
        }) by {
            assert(job.graph.stages[s].inputs.len() == before.graph.stages[s].inputs.len());
            assert(job.graph.stages[s].inputs[i].stage == before.graph.stages[s].inputs[i].stage);
        }
        assert forall|s: int|
            #![trigger after.stages[s]]
            #![trigger after.graph.stages[s]]
            0 <= s < after.stages.len() && !(stages.contains(s as usize) && before.adaptable(
                s,
            )) implies after.stages[s] == before.stages[s] && after.graph.stages[s]
            == before.graph.stages[s] by {
            assert(s != stage);
            assert(job.stages[s] == before.stages[s]);
        }
        assert forall|s: int| 0 <= s < after.stages.len() implies (
        #[trigger] after.stages[s]).tasks.len() <= usize::MAX by {
            assert(job.stages[s].tasks.len() <= usize::MAX);
        }
    }
}

/// Whether a stage finds the same in two states of a job, each with what has been found out about it:
/// it has the same inputs and the same plan, and what it may read in groups of channels has the same
/// sizes.
pub open spec fn finds_the_same(
    a: &Measurements,
    b: &Measurements,
    job_id: JobId,
    first: JobView,
    second: JobView,
    stage: int,
) -> bool {
    &&& second.graph.stages[stage].inputs == first.graph.stages[stage].inputs
    &&& second.graph.stages[stage].plan == first.graph.stages[stage].plan
    &&& forall|k: int|
        0 <= k < first.graph.stages[stage].inputs.len() ==> {
            let u = (#[trigger] first.graph.stages[stage].inputs[k]).stage;
            &&& second.graph.stages[u as int].mode == first.graph.stages[u as int].mode
            &&& second.graph.stages[u as int].distribution
                == first.graph.stages[u as int].distribution
            &&& first.adaptable_input(stage, k) ==> channel_sizes(&b.index, job_id, second, u)
                == channel_sizes(&a.index, job_id, first, u)
        }
}

/// Whether the plan of a stage can be changed in the same ways, as far as that is to be done.
pub open spec fn changes_the_same(
    target: u64,
    a: &Measurements,
    b: &Measurements,
    job_id: JobId,
    job: JobView,
    stage: int,
) -> bool {
    forall|k: int|
        0 <= k < job.graph.stages[stage].inputs.len() && #[trigger] is_merged(
            target,
            a,
            job_id,
            job,
            stage,
            k,
        ) ==> {
            let groups = input_ranges(target, a, job_id, job, stage, k).len() as int;
            a.spec_rewritten(stage, k, groups) == b.spec_rewritten(stage, k, groups)
        }
}

/// A stage that finds the same reads its inputs in the same groups of channels.
pub proof fn lemma_same_choice(
    target: u64,
    a: &Measurements,
    b: &Measurements,
    job_id: JobId,
    first: JobView,
    second: JobView,
    stage: int,
    n: nat,
)
    requires
        finds_the_same(a, b, job_id, first, second, stage),
        changes_the_same(target, a, b, job_id, first, stage),
        n <= first.graph.stages[stage].inputs.len(),
    ensures
        forall|k: int|
            0 <= k < first.graph.stages[stage].inputs.len() ==> (#[trigger] is_merged(
                target,
                a,
                job_id,
                first,
                stage,
                k,
            ) <==> is_merged(target, b, job_id, second, stage, k)),
        grouped_inputs(target, a, job_id, first, stage) == grouped_inputs(
            target,
            b,
            job_id,
            second,
            stage,
        ),
        grouped_plan(target, a, job_id, first, stage, n) == grouped_plan(
            target,
            b,
            job_id,
            second,
            stage,
            n,
        ),
        group_count(target, a, job_id, first, stage, n) == group_count(
            target,
            b,
            job_id,
            second,
            stage,
            n,
        ),
    decreases n,
{
    assert forall|k: int| 0 <= k < first.graph.stages[stage].inputs.len() implies (
    #[trigger] is_merged(target, a, job_id, first, stage, k) <==> is_merged(
        target,
        b,
        job_id,
        second,
        stage,
        k,
    )) && (is_merged(target, a, job_id, first, stage, k) ==> input_ranges(
        target,
        a,
        job_id,
        first,
        stage,
        k,
    ) == input_ranges(target, b, job_id, second, stage, k)) by {
        let input = first.graph.stages[stage].inputs[k];
        assert(first.adaptable_input(stage, k) == second.adaptable_input(stage, k));
    }
    assert(grouped_inputs(target, a, job_id, first, stage) =~= grouped_inputs(
        target,
        b,
        job_id,
        second,
        stage,
    ));
    if n > 0 {
        lemma_same_choice(target, a, b, job_id, first, second, stage, (n - 1) as nat);
        assert(is_merged(target, a, job_id, first, stage, n - 1) <==> is_merged(
            target,
            b,
            job_id,
            second,
            stage,
            n - 1,
        ));
    }
}

/// Whatever inputs a plan reads in groups, it stays the same plan.
proof fn lemma_grouped_plan_base(
    target: u64,
    data: &Measurements,
    job_id: JobId,
    job: JobView,
    stage: int,
    n: nat,
)
    ensures
        grouped_plan(target, data, job_id, job, stage, n).base == job.graph.stages[stage].plan.base,
    decreases n,
{
    if n > 0 {
        lemma_grouped_plan_base(target, data, job_id, job, stage, (n - 1) as nat);
    }
}

/// Having some stages read inputs in groups of channels keeps everything else.
proof fn lemma_adapted_stages(
    target: u64,
    data: &Measurements,
    job_id: JobId,
    job: JobView,
    all: Seq<usize>,
    n: nat,
)
    requires
        job.linked(),
        n <= all.len(),
        forall|i: int| 0 <= i < all.len() ==> #[trigger] all[i] < job.stages.len(),
    ensures
        adapted_from(
            job,
            adapted_stages(target, data, job_id, job, all.take(n as int)),
            all,
        ),
    decreases n,
{
    if n == 0 {
        assert(all.take(0).len() == 0);
    } else {
        let stages = all.take(n as int);
        assert(stages.drop_last() =~= all.take(n - 1));
        lemma_adapted_stages(target, data, job_id, job, all, (n - 1) as nat);
        let middle = adapted_stages(target, data, job_id, job, all.take(n - 1));
        assert(all.contains(all[n - 1]));
        lemma_adapted_stage(target, data, job_id, job, middle, all, all[n - 1]);
    }
}

/// The tasks of some stages belong to these stages and exist.
pub proof fn lemma_all_tasks(job: JobView, stages: Seq<usize>, i: int)
    requires
        forall|s: int| 0 <= s < stages.len() ==> #[trigger] stages[s] < job.stages.len(),
        forall|s: int|
            0 <= s < job.stages.len() ==> (#[trigger] job.stages[s]).tasks.len() <= usize::MAX,
        0 <= i < all_tasks(job, stages).len(),
    ensures
        stages.contains(all_tasks(job, stages)[i].stage),
        job.has_task(
            all_tasks(job, stages)[i].stage as int,
            all_tasks(job, stages)[i].partition as int,
        ),
    decreases stages.len(),
{
    let lists = stages.map_values(|s: usize| stage_tasks(job, s));
    lists.lemma_flatten_and_flatten_alt_are_equivalent();
    if stages.len() > 0 {
        let rest = stages.drop_last();
        let rest_lists = rest.map_values(|s: usize| stage_tasks(job, s));
        rest_lists.lemma_flatten_and_flatten_alt_are_equivalent();
        assert(lists.drop_last() =~= rest_lists);
        assert(all_tasks(job, stages) == all_tasks(job, rest) + stage_tasks(job, stages.last()));
        if i < all_tasks(job, rest).len() {
            assert forall|s: int| 0 <= s < rest.len() implies #[trigger] rest[s]
                < job.stages.len() by {
                assert(rest[s] == stages[s]);
            }
            lemma_all_tasks(job, rest, i);
            let k = rest.index_of(all_tasks(job, rest)[i].stage);
            assert(stages[k] == all_tasks(job, stages)[i].stage);
        } else {
            let p = i - all_tasks(job, rest).len();
            assert(all_tasks(job, stages)[i] == stage_tasks(job, stages.last())[p]);
            assert(stages[stages.len() - 1] == stages.last());
            assert(job.stages[stages.last() as int].tasks.len() <= usize::MAX);
        }
    }
}

/// The parts of a job stay together when a region takes in all tasks of its stages, and all these
/// tasks exist.
proof fn lemma_adapted_linked(before: JobView, job: JobView, region: int)
    requires
        before.linked(),
        0 <= region < before.regions.len(),
        adapted_from(before, job, task_stages(before.region_tasks(region))),
    ensures
        ({
            let after = job.with_region_tasks(
                region,
                all_tasks(job, task_stages(before.region_tasks(region))),
            );
            &&& after.linked()
            &&& after.tasks_exist(region)
        }),
{
    let stages = task_stages(before.region_tasks(region));
    let tasks = all_tasks(job, stages);
    let after = job.with_region_tasks(region, tasks);
    lemma_region_stages(before, region);
    assert forall|s: int, i: int|
        0 <= s < after.graph.stages.len() && 0 <= i < after.graph.stages[s].inputs.len() implies (
    #[trigger] after.graph.stages[s].inputs[i]).stage < after.stages.len() by {
        lemma_adapted_inputs_exist(before, job, stages, s, i);
    }
    assert forall|r: int, i: int|
        0 <= r < after.regions.len() && 0 <= i < after.topology.regions[r].dependencies.len()
        implies #[trigger] after.topology.regions[r].dependencies[i] < after.regions.len() by {
        assert(before.topology.regions[r].dependencies[i] < before.regions.len());
    }
    assert forall|i: int| 0 <= i < after.region_tasks(region).len() implies after.has_task(
        (#[trigger] after.region_tasks(region)[i]).stage as int,
        after.region_tasks(region)[i].partition as int,
    ) by {
        lemma_all_tasks(job, stages, i);
    }
    assert forall|r: int, i: int|
        0 <= r < after.regions.len() && 0 <= i < after.region_tasks(r).len() implies (
    #[trigger] after.region_tasks(r)[i]).stage < after.stages.len() by {
        if r == region {
            lemma_all_tasks(job, stages, i);
        } else {
            assert(after.region_tasks(r)[i] == before.region_tasks(r)[i]);
        }
    }
}

/// The stages of a region exist, and they have tasks if all tasks of the region exist.
pub proof fn lemma_region_stages(job: JobView, region: int)
    requires
        job.linked(),
        0 <= region < job.regions.len(),
    ensures
        ({
            let stages = task_stages(job.region_tasks(region));
            &&& forall|k: int| 0 <= k < stages.len() ==> #[trigger] stages[k] < job.stages.len()
            &&& job.tasks_exist(region) ==> forall|k: int|
                0 <= k < stages.len() ==> job.stages[(#[trigger] stages[k]) as int].tasks.len() > 0
            &&& stages.no_duplicates()
            &&& forall|i: int|
                0 <= i < job.region_tasks(region).len() ==> stages.contains(
                    (#[trigger] job.region_tasks(region)[i]).stage,
                )
        }),
{
    let tasks = job.region_tasks(region);
    let stages = task_stages(tasks);
    lemma_stages_exist(tasks);
    lemma_distinct(tasks.map_values(|t: TaskTopology| t.stage));
    assert forall|k: int| 0 <= k < stages.len() implies #[trigger] stages[k] < job.stages.len() && (
    job.tasks_exist(region) ==> job.stages[stages[k] as int].tasks.len() > 0) by {
        let j = choose|j: int| 0 <= j < tasks.len() && (#[trigger] tasks[j]).stage == stages[k];
        assert(job.region_tasks(region)[j] == tasks[j]);
    }
}

/// Choosing how a region reads shuffled data keeps the parts of a job together, and everything else.
/// All tasks that the region then has exist.
pub proof fn lemma_adapted_region(
    target: u64,
    data: &Measurements,
    job_id: JobId,
    job: JobView,
    region: int,
)
    requires
        job.linked(),
        0 <= region < job.regions.len(),
    ensures
        adapted_region(target, data, job_id, job, region).linked(),
        adapted_region(target, data, job_id, job, region).tasks_exist(region),
        adapted_from(
            job,
            adapted_stages(target, data, job_id, job, task_stages(job.region_tasks(region))),
            task_stages(job.region_tasks(region)),
        ),
{
    let stages = task_stages(job.region_tasks(region));
    lemma_region_stages(job, region);
    assert(stages.take(stages.len() as int) =~= stages);
    lemma_adapted_stages(target, data, job_id, job, stages, stages.len());
    lemma_adapted_linked(
        job,
        adapted_stages(target, data, job_id, job, stages),
        region,
    );
}

/// The number of the latest attempt at every task of a stage, zero where there is none.
pub fn list_latest_attempts(job: &JobDescriptor, stage: usize) -> (r: Vec<usize>)
    requires
        stage < job@.stages.len(),
    ensures
        r@ == latest_attempts(job@, stage),
{
    let n: usize = job.stages[stage].tasks.len();
    let mut attempts: Vec<usize> = Vec::new();
    let mut p: usize = 0;
    while p < n
        invariant
            p <= n,
            n == job@.stages[stage as int].tasks.len(),
            attempts@ == latest_attempts(job@, stage).take(p as int),
        decreases n - p,
    {
        let attempt: usize = match JobScheduler::get_latest_task_attempt(job, stage, p) {
            Some(a) => a,
            None => 0,
        };
        attempts.push(attempt);
        p = p + 1;
        assert(attempts@ =~= latest_attempts(job@, stage).take(p as int));
    }
    assert(attempts@ =~= latest_attempts(job@, stage));
    attempts
}

/// The groups of channels in which an input of a stage is to be read, if it is.
pub(crate) fn choose_ranges(
    target: u64,
    data: &Measurements,
    job_id: JobId,
    job: &JobDescriptor,
    stage: usize,
    input: usize,
) -> (r: Option<Vec<Range<usize>>>)
    requires
        stage < job@.stages.len(),
        job@.graph.stages.len() == job@.stages.len(),
        input < job@.graph.stages[stage as int].inputs.len(),
        job@.graph.stages[stage as int].inputs[input as int].stage < job@.stages.len(),
    ensures
        match r {
            Some(ranges) => is_merged(target, data, job_id, job@, stage as int, input as int)
                && ranges@ == input_ranges(
                target,
                data,
                job_id,
                job@,
                stage as int,
                input as int,
            ),
            None => !is_merged(target, data, job_id, job@, stage as int, input as int),
        },
{
    let u: usize = job.graph.stages[stage].inputs[input].stage;
    match job.graph.stages[stage].inputs[input].mode {
        InputMode::Shuffle => {},
        _ => {
            return None;
        },
    }
    match job.graph.stages[u].mode {
        OutputMode::Blocking => {},
        _ => {
            return None;
        },
    }
    if job.graph.stages[stage].inputs[input].partition_ranges.is_some() {
        return None;
    }
    let upstream_channels: usize = job.graph.stages[u].distribution.channels();
    let upstream_attempts = list_latest_attempts(job, u);
    let stats = StageShuffleStats::from_disk(
        &data.index,
        job_id,
        u,
        job.stages[u].tasks.len(),
        upstream_channels,
        &upstream_attempts,
    );
    proof {
        let sizes = channel_sizes(&data.index, job_id, job@, u);
        assert forall|c: int| 0 <= c < sizes.len() implies #[trigger] stats.channel_bytes@[c]
            == sizes[c] by {}
        assert(stats.channel_bytes@ =~= sizes);
    }
    let ranges = stats.coalesce(target);
    if ranges.len() < upstream_channels {
        Some(ranges)
    } else {
        None
    }
}

/// Has a stage read its inputs in groups of channels, if that is to be done.
fn adapt_stage(
    target: u64,
    data: &Measurements,
    job_id: JobId,
    job: &mut JobDescriptor,
    stage: usize,
)
    requires
        stage < old(job)@.stages.len(),
        old(job)@.graph.stages.len() == old(job)@.stages.len(),
        forall|k: int|
            0 <= k < old(job)@.graph.stages[stage as int].inputs.len() ==> (
            #[trigger] old(job)@.graph.stages[stage as int].inputs[k]).stage
                < old(job)@.stages.len(),
    ensures
        final(job)@ == adapted_stage(
            target,
            data,
            job_id,
            old(job)@,
            stage as int,
        ),
{
    let ghost before = job@;
    let ghost plan = before.graph.stages[stage as int].plan;
    let n: usize = job.graph.stages[stage].inputs.len();
    let mut choices: Vec<Option<Vec<Range<usize>>>> = Vec::new();
    let mut changes: Vec<InputRepartition> = Vec::new();
    let mut partitions: usize = job.graph.stages[stage].plan.partitions;
    let mut count: Option<usize> = None;
    let mut k: usize = 0;
    assert(plan.repartitions + changes@ =~= plan.repartitions);
    while k < n
        invariant
            k <= n,
            job@ == before,
            stage < before.stages.len(),
            before.graph.stages.len() == before.stages.len(),
            n == before.graph.stages[stage as int].inputs.len(),
            forall|k: int|
                0 <= k < before.graph.stages[stage as int].inputs.len() ==> (
                #[trigger] before.graph.stages[stage as int].inputs[k]).stage
                    < before.stages.len(),
            plan == before.graph.stages[stage as int].plan,
            choices@.len() == k,
            forall|i: int|
                0 <= i < k ==> match #[trigger] choices@[i] {
                    Some(ranges) => is_merged(target, data, job_id, before, stage as int, i)
                        && ranges@ == input_ranges(target, data, job_id, before, stage as int, i),
                    None => !is_merged(target, data, job_id, before, stage as int, i),
                },
            grouped_plan(target, data, job_id, before, stage as int, k as nat) == (StagePlanView {
                repartitions: plan.repartitions + changes@,
                partitions,
                ..plan
            }),
            group_count(target, data, job_id, before, stage as int, k as nat) == match count {
                Some(c) => Some(c as nat),
                None => None,
            },
        decreases n - k,
    {
        assert(before.graph.stages[stage as int].inputs[k as int].stage < before.stages.len());
        let ghost earlier = changes@;
        let choice = choose_ranges(target, data, job_id, job, stage, k);
        if let Some(ranges) = &choice {
            let groups: usize = ranges.len();
            count = Some(groups);
            if let Some(p) = data.rewritten(stage, k, groups) {
                partitions = p;
                changes.push(InputRepartition { input: k, partitions: groups });
            }
        }
        proof {
            assert(changes@.len() > earlier.len() ==> plan.repartitions + changes@ =~= (
            plan.repartitions + earlier).push(changes@.last()));
        }
        choices.push(choice);
        k = k + 1;
    }
    if let Some(c) = count {
        proof {
            assert(chosen_inputs(before.graph.stages[stage as int].inputs, choices@)
                =~= grouped_inputs(target, data, job_id, before, stage as int));
        }
        job.group_stage(stage, choices, changes, partitions, c);
    }
}

/// Lists all tasks of some stages.
fn list_tasks(job: &JobDescriptor, stages: &Vec<usize>) -> (r: Vec<TaskTopology>)
    requires
        forall|i: int| 0 <= i < stages@.len() ==> #[trigger] stages@[i] < job@.stages.len(),
    ensures
        r@ == all_tasks(job@, stages@),
{
    let ghost lists = stages@.map_values(|s: usize| stage_tasks(job@, s));
    let mut tasks: Vec<TaskTopology> = Vec::new();
    let mut i: usize = 0;
    assert(lists.take(0).flatten_alt() =~= Seq::empty());
    while i < stages.len()
        invariant
            i <= stages@.len(),
            forall|i: int| 0 <= i < stages@.len() ==> #[trigger] stages@[i] < job@.stages.len(),
            lists == stages@.map_values(|s: usize| stage_tasks(job@, s)),
            tasks@ == lists.take(i as int).flatten_alt(),
        decreases stages@.len() - i,
    {
        let s: usize = stages[i];
        let n: usize = job.stages[s].tasks.len();
        let ghost before = tasks@;
        let mut p: usize = 0;
        assert(before + stage_tasks(job@, s).take(0) =~= before);
        while p < n
            invariant
                p <= n,
                n == job@.stages[s as int].tasks.len(),
                tasks@ == before + stage_tasks(job@, s).take(p as int),
            decreases n - p,
        {
            tasks.push(TaskTopology { stage: s, partition: p });
            p = p + 1;
            assert(tasks@ =~= before + stage_tasks(job@, s).take(p as int));
        }
        proof {
            assert(stage_tasks(job@, s).take(p as int) =~= stage_tasks(job@, s));
            assert(lists.take(i + 1).drop_last() =~= lists.take(i as int));
            assert(lists.take(i + 1).last() == stage_tasks(job@, s));
        }
        i = i + 1;
    }
    proof {
        assert(lists.take(i as int) =~= lists);
        lists.lemma_flatten_and_flatten_alt_are_equivalent();
    }
    tasks
}

impl JobScheduler {
    /// Chooses how the stages of a region read shuffled data.
    ///
    /// For every input that is a shuffle from a stage that writes to disk, small adjacent channels
    /// are read together, and the stage gets one task for every group of channels. An input for
    /// which the groups have been chosen before is left alone, and so is one of which no two channels
    /// come together.
    ///
    /// The region then holds all tasks of its stages. The plan of a stage has as many output partitions
    /// as the query engine makes of it, which need not be one for every task, and the other regions
    /// keep the tasks that they list.
    pub fn optimize_region_adaptively(
        options: &JobSchedulerOptions,
        data: &Measurements,
        job_id: JobId,
        job: &mut JobDescriptor,
        region_idx: usize,
    )
        requires
            old(job)@.linked(),
            region_idx < old(job)@.regions.len(),
        ensures
            final(job)@ == adapted_region(
                options@.target_partition_size,
                data,
                job_id,
                old(job)@,
                region_idx as int,
            ),
            final(job)@.linked(),
    {
        let target: u64 = options.target_partition_size();
        let ghost before = job@;
        let ghost r = region_idx as int;
        let stages = region_stages(&job.topology.regions[region_idx].tasks);
        let ghost all = stages@;
        proof {
            assert(before.region_tasks(r) == job.topology.regions@[r].tasks@);
            lemma_region_stages(before, r);
            lemma_adapted_region(target, data, job_id, before, r);
            assert(all.take(0).len() == 0);
        }
        let mut i: usize = 0;
        while i < stages.len()
            invariant
                i <= stages@.len(),
                stages@ == all,
                r == region_idx,
                before.linked(),
                forall|s: int| 0 <= s < all.len() ==> #[trigger] all[s] < before.stages.len(),
                job@ == adapted_stages(target, data, job_id, before, all.take(i as int)),
            decreases stages@.len() - i,
        {
            let s: usize = stages[i];
            proof {
                lemma_adapted_stages(target, data, job_id, before, all, i as nat);
                assert(all[i as int] < before.stages.len());
                assert forall|k: int| 0 <= k < job@.graph.stages[s as int].inputs.len() implies (
                #[trigger] job@.graph.stages[s as int].inputs[k]).stage < job@.stages.len() by {
                    lemma_adapted_inputs_exist(before, job@, all, s as int, k);
                }
            }
            adapt_stage(target, data, job_id, job, s);
            proof {
                assert(all.take(i + 1).drop_last() =~= all.take(i as int));
                assert(all.take(i + 1).last() == s);
            }
            i = i + 1;
        }
        assert(all.take(i as int) =~= all);
        proof {
            lemma_adapted_stages(target, data, job_id, before, all, all.len());
        }
        let tasks = list_tasks(job, &stages);
        job.set_region_tasks(region_idx, tasks);
    }
}

}

//! How the stages of a region come to read shuffled data, told by the index files of the newest attempts.

use crate::collections::{distinct, lemma_distinct};
use crate::id::JobId;
use crate::job_graph::InputRepartition;
use crate::lists::lemma_contains_push;
use crate::measurements::Measurements;
use crate::scheduler::adapt::{
    adapted_region, adapted_stage, adapted_stages, all_tasks, channel_sizes, group_count,
    grouped_inputs, grouped_plan, input_ranges, is_merged, latest_attempts, lemma_adapted_region,
    lemma_all_tasks, lemma_group_count, lemma_ranges_fit, lemma_region_stages, lemma_same_choice,
    stage_tasks,
};
use crate::scheduler::cancel::is_listed;
use crate::scheduler::effects::has_member;
use crate::scheduler::keys::channel_count;
use crate::scheduler::limits::lemma_all_tasks_once;
use crate::scheduler::region::{lemma_stages_exist, task_stages};
use crate::scheduler::regroup::{lemma_only_stages_changed, lemma_stages_decided};
use crate::scheduler::sequence::lemma_two_places;
use crate::shuffle_index::{channel_total, index_entry, ShuffleIndex};
use crate::sizing::{is_grouping, lemma_coalesced_groups, lemma_grouping_unique};
use crate::state::JobView;
use crate::topology::TaskTopology;
use std::ops::Range;
use vstd::prelude::*;

verus! {

/// Whether a region has a task of a stage.
pub open spec fn takes_part(job: JobView, region: int, stage: int) -> bool {
    exists|i: int|
        0 <= i < job.topology.regions[region].tasks.len() && (
        #[trigger] job.topology.regions[region].tasks[i]).stage == stage
}

/// Whether it is still open how an input is read: the input is a shuffle of data on disk, and no groups of
/// channels have been chosen for it.
pub open spec fn is_undecided(job: JobView, stage: int, input: int) -> bool {
    let i = job.graph.stages[stage].inputs[input];
    &&& i.mode is Shuffle
    &&& i.partition_ranges is None
    &&& job.graph.stages[i.stage as int].mode is Blocking
}

/// Whether no stage of a region has still to decide how to read a stage of the same region.
pub open spec fn reads_outside(job: JobView, region: int) -> bool {
    forall|s: int, k: int|
        takes_part(job, region, s) && 0 <= k < job.graph.stages[s].inputs.len()
            && #[trigger] is_undecided(job, s, k) ==> !takes_part(
            job,
            region,
            job.graph.stages[s].inputs[k].stage as int,
        )
}

/// The bytes that the index file of a channel tells for a task: the file of the attempt with the highest
/// number counts, and that of attempt number zero if there is no attempt. A file that is missing or
/// malformed tells none.
pub open spec fn told_bytes(
    index: &ShuffleIndex,
    job_id: JobId,
    job: JobView,
    stage: usize,
    partition: int,
    channel: int,
) -> nat {
    let n = job.stages[stage as int].tasks[partition].len();
    let attempt = if n > 0 {
        (n - 1) as usize
    } else {
        0
    };
    match index.content(job_id, stage, partition, attempt, channel) {
        Some(text) => match index_entry(text) {
            Some((bytes, records)) => bytes,
            None => 0,
        },
        None => 0,
    }
}

/// The bytes of a channel of the first `n` tasks of a stage together.
pub open spec fn summed_bytes(
    index: &ShuffleIndex,
    job_id: JobId,
    job: JobView,
    stage: usize,
    channel: int,
    n: nat,
) -> nat
    decreases n,
{
    if n == 0 {
        0
    } else {
        summed_bytes(index, job_id, job, stage, channel, (n - 1) as nat) + told_bytes(
            index,
            job_id,
            job,
            stage,
            n - 1,
            channel,
        )
    }
}

/// Whether these are the sizes of all channels of a stage.
pub open spec fn are_sizes(
    index: &ShuffleIndex,
    job_id: JobId,
    job: JobView,
    stage: usize,
    sizes: Seq<u64>,
) -> bool {
    &&& sizes.len() == channel_count(job.graph.stages[stage as int])
    &&& forall|c: int|
        0 <= c < sizes.len() ==> #[trigger] sizes[c] == summed_bytes(
            index,
            job_id,
            job,
            stage,
            c,
            job.stages[stage as int].tasks.len(),
        )
}

/// Both ways of adding up the index files agree.
proof fn lemma_summed_bytes(
    index: &ShuffleIndex,
    job_id: JobId,
    job: JobView,
    stage: usize,
    channel: int,
    n: nat,
)
    requires
        stage < job.stages.len(),
        n <= job.stages[stage as int].tasks.len(),
    ensures
        channel_total(index, job_id, stage, latest_attempts(job, stage), channel, n).0
            == summed_bytes(index, job_id, job, stage, channel, n),
    decreases n,
{
    if n > 0 {
        lemma_summed_bytes(index, job_id, job, stage, channel, (n - 1) as nat);
        let p = n - 1;
        let attempts = job.stages[stage as int].tasks[p];
        assert(job.attempts(stage as int, p) == attempts);
        assert(latest_attempts(job, stage)[p] == (if attempts.len() > 0 {
            (attempts.len() - 1) as usize
        } else {
            0
        }));
    }
}

/// The sizes by which channels are grouped are those that the index files of the newest attempts tell.
pub proof fn lemma_sizes(
    index: &ShuffleIndex,
    job_id: JobId,
    job: JobView,
    stage: usize,
    sizes: Seq<u64>,
)
    requires
        stage < job.stages.len(),
        are_sizes(index, job_id, job, stage, sizes),
    ensures
        channel_sizes(index, job_id, job, stage) == sizes,
{
    let found = channel_sizes(index, job_id, job, stage);
    assert forall|c: int| 0 <= c < sizes.len() implies found[c] == sizes[c] by {
        lemma_summed_bytes(index, job_id, job, stage, c, job.stages[stage as int].tasks.len());
    }
    assert(found =~= sizes);
}

/// Each stage of a region is decided about by itself.
proof fn lemma_decided_alone(
    target: u64,
    data: &Measurements,
    job_id: JobId,
    job: JobView,
    region: int,
    s: int,
)
    requires
        job.linked(),
        0 <= region < job.regions.len(),
        reads_outside(job, region),
        takes_part(job, region, s),
    ensures
        0 <= s < job.stages.len(),
        ({
            let after = adapted_region(target, data, job_id, job, region);
            let alone = adapted_stage(target, data, job_id, job, s);
            &&& after.stages[s] == alone.stages[s]
            &&& after.graph.stages[s] == alone.graph.stages[s]
        }),
{
    let tasks = job.region_tasks(region);
    let stages = task_stages(tasks);
    lemma_region_stages(job, region);
    lemma_stages_exist(tasks);
    let i = choose|i: int|
        0 <= i < job.topology.regions[region].tasks.len() && (
        #[trigger] job.topology.regions[region].tasks[i]).stage == s;
    assert(tasks[i].stage == s);
    assert(stages.contains(tasks[i].stage));
    let j = stages.index_of(tasks[i].stage);
    assert(stages[j] < job.stages.len());
    assert forall|i: int, k: int|
        0 <= i < stages.len() && 0 <= k < job.graph.stages[stages[i] as int].inputs.len()
            && #[trigger] job.adaptable_input(stages[i] as int, k) implies !stages.contains(
        job.graph.stages[stages[i] as int].inputs[k].stage,
    ) by {
        let x = stages[i] as int;
        let u = job.graph.stages[x].inputs[k].stage;
        let a = choose|a: int| 0 <= a < tasks.len() && (#[trigger] tasks[a]).stage == stages[i];
        assert(job.topology.regions[region].tasks[a].stage == x);
        assert(takes_part(job, region, x));
        assert(is_undecided(job, x, k));
        if stages.contains(u) {
            let b = stages.index_of(u);
            let c = choose|c: int| 0 <= c < tasks.len() && (#[trigger] tasks[c]).stage == stages[b];
            assert(job.topology.regions[region].tasks[c].stage == u);
            assert(takes_part(job, region, u as int));
        }
    }
    lemma_stages_decided(target, data, job_id, job, stages, stages.len(), j);
    assert(stages.take(stages.len() as int) =~= stages);
}

/// An input of a stage of a region that is a shuffle of data on disk is read in the groups that the sizes of
/// its channels call for, if these are fewer than the channels. These sizes are what the index files of
/// the newest attempts at the upstream tasks tell, added up. All other inputs are read as before.
pub proof fn lemma_groups_follow_sizes(
    target: u64,
    data: &Measurements,
    job_id: JobId,
    job: JobView,
    region: int,
    s: int,
    k: int,
    sizes: Seq<u64>,
)
    requires
        job.linked(),
        0 <= region < job.regions.len(),
        reads_outside(job, region),
        takes_part(job, region, s),
        0 <= k < job.graph.stages[s].inputs.len(),
        are_sizes(&data.index, job_id, job, job.graph.stages[s].inputs[k].stage, sizes),
    ensures
        ({
            let before = job.graph.stages[s].inputs[k];
            let inputs = adapted_region(target, data, job_id, job, region).graph.stages[s].inputs;
            &&& inputs.len() == job.graph.stages[s].inputs.len()
            &&& inputs[k].stage == before.stage
            &&& inputs[k].mode == before.mode
            &&& if is_undecided(job, s, k) {
                match inputs[k].partition_ranges {
                    Some(ranges) => ranges.len() < sizes.len() && is_grouping(
                        sizes,
                        target as nat,
                        ranges,
                    ),
                    None => forall|ranges: Seq<Range<usize>>| #[trigger]
                        is_grouping(sizes, target as nat, ranges) ==> ranges.len() >= sizes.len(),
                }
            } else {
                inputs[k].partition_ranges == before.partition_ranges
            }
        }),
{
    lemma_decided_alone(target, data, job_id, job, region, s);
    let n = job.graph.stages[s].inputs.len();
    let u = job.graph.stages[s].inputs[k].stage;
    assert(job.graph.stages[s].inputs[k].stage < job.stages.len());
    lemma_sizes(&data.index, job_id, job, u, sizes);
    lemma_group_count(target, data, job_id, job, s, n);
    lemma_coalesced_groups(sizes, target as nat);
    let ranges = input_ranges(target, data, job_id, job, s, k);
    if is_undecided(job, s, k) {
        assert(is_grouping(sizes, target as nat, ranges));
        if !is_merged(target, data, job_id, job, s, k) {
            assert forall|other: Seq<Range<usize>>| #[trigger]
                is_grouping(sizes, target as nat, other) implies other.len() >= sizes.len() by {
                lemma_grouping_unique(sizes, target as nat, ranges, other);
            }
        }
    } else {
        assert(!is_merged(target, data, job_id, job, s, k));
    }
}

/// Whether groups of channels have just been chosen for an input.
pub open spec fn is_newly_grouped(before: JobView, after: JobView, stage: int, input: int) -> bool {
    &&& before.graph.stages[stage].inputs[input].partition_ranges is None
    &&& after.graph.stages[stage].inputs[input].partition_ranges is Some
}

/// The number of groups of channels in which an input is read.
pub open spec fn groups_of(job: JobView, stage: int, input: int) -> int {
    job.graph.stages[stage].inputs[input].partition_ranges->0.len() as int
}

/// A stage for which groups of channels have just been chosen has as many tasks as the last of these inputs
/// has groups, none of them attempted. Any other stage of the region keeps its tasks and its plan.
pub proof fn lemma_tasks_follow_groups(
    target: u64,
    data: &Measurements,
    job_id: JobId,
    job: JobView,
    region: int,
    s: int,
)
    requires
        job.linked(),
        0 <= region < job.regions.len(),
        reads_outside(job, region),
        takes_part(job, region, s),
    ensures
        ({
            let after = adapted_region(target, data, job_id, job, region);
            let n = job.graph.stages[s].inputs.len();
            &&& forall|k: int|
                0 <= k < n && #[trigger] is_newly_grouped(job, after, s, k) && (forall|j: int|
                    k < j < n ==> !#[trigger] is_newly_grouped(job, after, s, j)) ==> {
                    &&& after.stages[s].tasks.len() == groups_of(after, s, k)
                    &&& after.stages[s].tasks.len() > 0
                    &&& forall|p: int|
                        0 <= p < after.stages[s].tasks.len() ==> (
                        #[trigger] after.stages[s].tasks[p]).len() == 0
                }
            &&& (forall|k: int| 0 <= k < n ==> !#[trigger] is_newly_grouped(job, after, s, k)) ==> {
                &&& after.stages[s] == job.stages[s]
                &&& after.graph.stages[s] == job.graph.stages[s]
            }
            &&& after.stages[s].state == job.stages[s].state
            &&& after.stages[s].created_at == job.stages[s].created_at
            &&& after.stages[s].stopped_at == job.stages[s].stopped_at
            &&& after.graph.stages[s].group == job.graph.stages[s].group
            &&& after.graph.stages[s].mode == job.graph.stages[s].mode
            &&& after.graph.stages[s].distribution == job.graph.stages[s].distribution
            &&& after.graph.stages[s].placement == job.graph.stages[s].placement
            &&& after.graph.stages[s].replicas == job.graph.stages[s].replicas
        }),
{
    lemma_decided_alone(target, data, job_id, job, region, s);
    let after = adapted_region(target, data, job_id, job, region);
    let n = job.graph.stages[s].inputs.len();
    lemma_group_count(target, data, job_id, job, s, n);
    assert forall|k: int| 0 <= k < n implies (#[trigger] is_newly_grouped(job, after, s, k)
        <==> is_merged(target, data, job_id, job, s, k)) by {
        if group_count(target, data, job_id, job, s, n) is Some {
            assert(after.graph.stages[s].inputs == grouped_inputs(target, data, job_id, job, s));
        } else {
            assert(!is_merged(target, data, job_id, job, s, k));
        }
    }
    assert forall|k: int|
        0 <= k < n && #[trigger] is_newly_grouped(job, after, s, k) && (forall|j: int|
            k < j < n ==> !#[trigger] is_newly_grouped(job, after, s, j)) implies {
        &&& after.stages[s].tasks.len() == groups_of(after, s, k)
        &&& after.stages[s].tasks.len() > 0
        &&& forall|p: int|
            0 <= p < after.stages[s].tasks.len() ==> (#[trigger] after.stages[s].tasks[p]).len()
                == 0
    } by {
        assert(is_merged(target, data, job_id, job, s, k));
        assert forall|j: int| k < j < n implies !#[trigger] is_merged(
            target,
            data,
            job_id,
            job,
            s,
            j,
        ) by {
            assert(!is_newly_grouped(job, after, s, j));
        }
        lemma_last_counts(target, data, job_id, job, s, k, n);
        assert(after.graph.stages[s].inputs[k].partition_ranges == Some(
            input_ranges(target, data, job_id, job, s, k),
        ));
    }
    if forall|k: int| 0 <= k < n ==> !#[trigger] is_newly_grouped(job, after, s, k) {
        assert forall|k: int| 0 <= k < n implies !#[trigger] is_merged(
            target,
            data,
            job_id,
            job,
            s,
            k,
        ) by {
            assert(!is_newly_grouped(job, after, s, k));
        }
    }
}

/// The last input that is read in groups gives the number of tasks.
proof fn lemma_last_counts(
    target: u64,
    data: &Measurements,
    job_id: JobId,
    job: JobView,
    s: int,
    k: int,
    n: nat,
)
    requires
        0 <= k < n,
        is_merged(target, data, job_id, job, s, k),
        forall|j: int| k < j < n ==> !#[trigger] is_merged(target, data, job_id, job, s, j),
    ensures
        group_count(target, data, job_id, job, s, n) == Some(
            input_ranges(target, data, job_id, job, s, k).len(),
        ),
    decreases n,
{
    if k < n - 1 {
        assert(!is_merged(target, data, job_id, job, s, n - 1));
        lemma_last_counts(target, data, job_id, job, s, k, (n - 1) as nat);
    }
}

/// The changes to a plan, input by input.
proof fn lemma_plan_changes(
    target: u64,
    data: &Measurements,
    job_id: JobId,
    job: JobView,
    s: int,
    n: nat,
)
    requires
        n <= job.graph.stages[s].inputs.len(),
        n <= usize::MAX,
    ensures
        ({
            let before = job.graph.stages[s].plan;
            let after = grouped_plan(target, data, job_id, job, s, n);
            let old_changes = before.repartitions;
            let new_changes = after.repartitions.skip(old_changes.len() as int);
            &&& after.base == before.base
            &&& after.repartitions == old_changes + new_changes
            &&& forall|c: InputRepartition| #[trigger]
                new_changes.contains(c) <==> c.input < n && is_merged(
                    target,
                    data,
                    job_id,
                    job,
                    s,
                    c.input as int,
                ) && c.partitions == input_ranges(target, data, job_id, job, s, c.input as int).len()
                    && data.spec_rewritten(s, c.input as int, c.partitions as int) is Some
            &&& forall|i: int, j: int|
                0 <= i < j < new_changes.len() ==> (#[trigger] new_changes[i]).input < (
                #[trigger] new_changes[j]).input
            &&& if new_changes.len() == 0 {
                after.partitions == before.partitions
            } else {
                Some(after.partitions) == data.spec_rewritten(
                    s,
                    new_changes.last().input as int,
                    new_changes.last().partitions as int,
                )
            }
        }),
    decreases n,
{
    let before = job.graph.stages[s].plan;
    let after = grouped_plan(target, data, job_id, job, s, n);
    let old_changes = before.repartitions;
    let new_changes = after.repartitions.skip(old_changes.len() as int);
    if n == 0 {
        assert(new_changes.len() == 0);
        assert(after.repartitions =~= old_changes + new_changes);
    } else {
        let k = (n - 1) as nat;
        lemma_plan_changes(target, data, job_id, job, s, k);
        lemma_ranges_fit(target, data, job_id, job, s, k as int);
        let earlier = grouped_plan(target, data, job_id, job, s, k);
        let rest = earlier.repartitions.skip(old_changes.len() as int);
        let groups = input_ranges(target, data, job_id, job, s, k as int).len();
        let change = InputRepartition { input: k as usize, partitions: groups as usize };
        assert forall|i: int| 0 <= i < rest.len() implies (#[trigger] rest[i]).input < k by {
            assert(rest.contains(rest[i]));
        }
        if is_merged(target, data, job_id, job, s, k as int) && data.spec_rewritten(
            s,
            k as int,
            groups as int,
        ) is Some {
            assert(new_changes =~= rest.push(change));
            assert(after.repartitions =~= old_changes + new_changes);
            assert forall|c: InputRepartition| #[trigger]
                new_changes.contains(c) <==> c.input < n && is_merged(
                    target,
                    data,
                    job_id,
                    job,
                    s,
                    c.input as int,
                ) && c.partitions == input_ranges(target, data, job_id, job, s, c.input as int).len()
                    && data.spec_rewritten(s, c.input as int, c.partitions as int) is Some by {
                lemma_contains_push(rest, change, c);
                assert(rest.contains(c) <==> c.input < k && is_merged(
                    target,
                    data,
                    job_id,
                    job,
                    s,
                    c.input as int,
                ) && c.partitions == input_ranges(target, data, job_id, job, s, c.input as int).len()
                    && data.spec_rewritten(s, c.input as int, c.partitions as int) is Some);
            }
        } else {
            assert(after == earlier);
            assert forall|c: InputRepartition| #[trigger]
                new_changes.contains(c) <==> c.input < n && is_merged(
                    target,
                    data,
                    job_id,
                    job,
                    s,
                    c.input as int,
                ) && c.partitions == input_ranges(target, data, job_id, job, s, c.input as int).len()
                    && data.spec_rewritten(s, c.input as int, c.partitions as int) is Some by {
                assert(new_changes == rest);
                assert(rest.contains(c) <==> c.input < k && is_merged(
                    target,
                    data,
                    job_id,
                    job,
                    s,
                    c.input as int,
                ) && c.partitions == input_ranges(target, data, job_id, job, s, c.input as int).len()
                    && data.spec_rewritten(s, c.input as int, c.partitions as int) is Some);
            }
        }
    }
}

/// The plan of a stage takes in a change for every input for which groups of channels have just been
/// chosen, in the order of the inputs, unless the query engine cannot make that change. The last change
/// tells how many partitions the plan has then.
pub proof fn lemma_plan_follows_groups(
    target: u64,
    data: &Measurements,
    job_id: JobId,
    job: JobView,
    region: int,
    s: int,
)
    requires
        job.linked(),
        0 <= region < job.regions.len(),
        reads_outside(job, region),
        takes_part(job, region, s),
        job.graph.stages[s].inputs.len() <= usize::MAX,
    ensures
        ({
            let job_after = adapted_region(target, data, job_id, job, region);
            let before = job.graph.stages[s].plan;
            let after = job_after.graph.stages[s].plan;
            let old_changes = before.repartitions;
            let new_changes = after.repartitions.skip(old_changes.len() as int);
            &&& after.base == before.base
            &&& after.repartitions == old_changes + new_changes
            &&& forall|c: InputRepartition| #[trigger]
                new_changes.contains(c) <==> c.input < job.graph.stages[s].inputs.len()
                    && is_newly_grouped(job, job_after, s, c.input as int) && c.partitions
                    == groups_of(job_after, s, c.input as int) && data.spec_rewritten(
                    s,
                    c.input as int,
                    c.partitions as int,
                ) is Some
            &&& forall|i: int, j: int|
                0 <= i < j < new_changes.len() ==> (#[trigger] new_changes[i]).input < (
                #[trigger] new_changes[j]).input
            &&& if new_changes.len() == 0 {
                after.partitions == before.partitions
            } else {
                Some(after.partitions) == data.spec_rewritten(
                    s,
                    new_changes.last().input as int,
                    new_changes.last().partitions as int,
                )
            }
        }),
{
    lemma_decided_alone(target, data, job_id, job, region, s);
    let after = adapted_region(target, data, job_id, job, region);
    let n = job.graph.stages[s].inputs.len();
    lemma_group_count(target, data, job_id, job, s, n);
    lemma_plan_changes(target, data, job_id, job, s, n);
    let plan = grouped_plan(target, data, job_id, job, s, n);
    let changes = plan.repartitions.skip(job.graph.stages[s].plan.repartitions.len() as int);
    assert forall|k: int| 0 <= k < n implies (#[trigger] is_newly_grouped(job, after, s, k)
        <==> is_merged(target, data, job_id, job, s, k)) && (is_newly_grouped(job, after, s, k)
        ==> groups_of(after, s, k) == input_ranges(target, data, job_id, job, s, k).len()) by {
        if group_count(target, data, job_id, job, s, n) is Some {
            assert(after.graph.stages[s].inputs == grouped_inputs(target, data, job_id, job, s));
        } else {
            assert(!is_merged(target, data, job_id, job, s, k));
        }
    }
    if group_count(target, data, job_id, job, s, n) is Some {
        assert(after.graph.stages[s].plan == plan);
    } else {
        assert forall|c: InputRepartition| !#[trigger] changes.contains(c) by {
            if c.input < n {
                assert(!is_merged(target, data, job_id, job, s, c.input as int));
            }
        }
        if changes.len() > 0 {
            assert(changes.contains(changes[0]));
        }
        let kept = after.graph.stages[s].plan.repartitions;
        assert(kept.skip(kept.len() as int) =~= changes);
        assert(kept =~= kept + changes);
    }
}

/// Choosing how a region reads shuffled data leaves everything else alone. The region then has all tasks of
/// its stages, each of them once.
pub proof fn lemma_region_takes_all_tasks(
    target: u64,
    data: &Measurements,
    job_id: JobId,
    job: JobView,
    region: int,
)
    requires
        job.linked(),
        0 <= region < job.regions.len(),
    ensures
        ({
            let after = adapted_region(target, data, job_id, job, region);
            &&& after.stages.len() == job.stages.len()
            &&& after.graph.stages.len() == job.graph.stages.len()
            &&& after.graph.schema == job.graph.schema
            &&& after.regions == job.regions
            &&& after.state == job.state
            &&& after.created_at == job.created_at
            &&& after.stopped_at == job.stopped_at
            &&& after.topology.consumers == job.topology.consumers
            &&& after.topology.regions.len() == job.topology.regions.len()
            &&& forall|r: int|
                0 <= r < job.topology.regions.len() && r != region
                    ==> #[trigger] after.topology.regions[r] == job.topology.regions[r]
            &&& after.topology.regions[region].dependencies
                == job.topology.regions[region].dependencies
            &&& forall|s: int|
                #![trigger after.stages[s]]
                #![trigger after.graph.stages[s]]
                0 <= s < job.stages.len() && !takes_part(job, region, s) ==> after.stages[s]
                    == job.stages[s] && after.graph.stages[s] == job.graph.stages[s]
            &&& after.topology.regions[region].tasks.no_duplicates()
            &&& forall|s: int, p: int| #[trigger]
                has_member(after, region, s, p) <==> takes_part(job, region, s) && 0 <= s
                    < after.stages.len() && 0 <= p < after.stages[s].tasks.len()
        }),
{
    let tasks = job.region_tasks(region);
    let stages = task_stages(tasks);
    let middle = adapted_stages(target, data, job_id, job, stages);
    let after = adapted_region(target, data, job_id, job, region);
    lemma_region_stages(job, region);
    lemma_stages_exist(tasks);
    lemma_adapted_region(target, data, job_id, job, region);
    lemma_only_stages_changed(target, data, job_id, job, stages);
    assert forall|i: int| 0 <= i < stages.len() implies takes_part(
        job,
        region,
        (#[trigger] stages[i]) as int,
    ) by {
        let a = choose|a: int| 0 <= a < tasks.len() && (#[trigger] tasks[a]).stage == stages[i];
        assert(job.topology.regions[region].tasks[a].stage == stages[i]);
    }
    assert forall|s: int|
        #![trigger after.stages[s]]
        #![trigger after.graph.stages[s]]
        0 <= s < job.stages.len() && !takes_part(job, region, s) implies after.stages[s]
        == job.stages[s] && after.graph.stages[s] == job.graph.stages[s] by {
        assert(middle.stages[s] == job.stages[s]);
        assert(middle.graph.stages[s] == job.graph.stages[s]);
    }
    lemma_all_tasks_once(middle, stages);
    let listed = all_tasks(middle, stages);
    assert(after.topology.regions[region].tasks == listed);
    assert forall|s: int, p: int| #[trigger]
        has_member(after, region, s, p) <==> takes_part(job, region, s) && 0 <= s
            < after.stages.len() && 0 <= p < after.stages[s].tasks.len() by {
        if has_member(after, region, s, p) {
            let i = choose|i: int|
                0 <= i < after.topology.regions[region].tasks.len() && (
                #[trigger] after.topology.regions[region].tasks[i]).stage == s
                    && after.topology.regions[region].tasks[i].partition == p;
            lemma_all_tasks(middle, stages, i);
            assert(listed[i].stage == s);
            let j = stages.index_of(listed[i].stage);
            assert(stages[j] == s);
        }
        if takes_part(job, region, s) && 0 <= s < after.stages.len() && 0 <= p
            < after.stages[s].tasks.len() {
            let a = choose|a: int|
                0 <= a < job.topology.regions[region].tasks.len() && (
                #[trigger] job.topology.regions[region].tasks[a]).stage == s;
            assert(stages.contains(tasks[a].stage));
            assert(middle.has_task(s, p));
            assert(is_listed(listed, s, p));
            let i = choose|i: int|
                0 <= i < listed.len() && (#[trigger] listed[i]).stage == s && listed[i].partition
                    == p;
            assert(after.topology.regions[region].tasks[i] == listed[i]);
        }
    }
}

/// How a region comes to read shuffled data depends on no other index files than those of the newest
/// attempts: as long as these tell the same, it comes out the same.
pub proof fn lemma_only_newest_files_count(
    target: u64,
    a: &Measurements,
    b: &Measurements,
    job_id: JobId,
    job: JobView,
    region: int,
)
    requires
        job.linked(),
        0 <= region < job.regions.len(),
        reads_outside(job, region),
        a.plans@ == b.plans@,
        forall|u: usize, p: int, c: int|
            u < job.stages.len() && 0 <= p < job.stages[u as int].tasks.len() && 0 <= c
                < channel_count(job.graph.stages[u as int]) ==> #[trigger] told_bytes(
                &a.index,
                job_id,
                job,
                u,
                p,
                c,
            ) == told_bytes(&b.index, job_id, job, u, p, c),
    ensures
        adapted_region(target, a, job_id, job, region) == adapted_region(
            target,
            b,
            job_id,
            job,
            region,
        ),
{
    let first = adapted_region(target, a, job_id, job, region);
    let second = adapted_region(target, b, job_id, job, region);
    lemma_region_takes_all_tasks(target, a, job_id, job, region);
    lemma_region_takes_all_tasks(target, b, job_id, job, region);
    assert forall|s: int|
        #![trigger first.stages[s]]
        #![trigger first.graph.stages[s]]
        0 <= s < job.stages.len() implies first.stages[s] == second.stages[s]
        && first.graph.stages[s] == second.graph.stages[s] by {
        if takes_part(job, region, s) {
            lemma_decided_alone(target, a, job_id, job, region, s);
            lemma_decided_alone(target, b, job_id, job, region, s);
            assert forall|k: int|
                0 <= k < job.graph.stages[s].inputs.len() implies channel_sizes(
                &b.index,
                job_id,
                job,
                (#[trigger] job.graph.stages[s].inputs[k]).stage,
            ) == channel_sizes(&a.index, job_id, job, job.graph.stages[s].inputs[k].stage) by {
                let u = job.graph.stages[s].inputs[k].stage;
                assert(u < job.stages.len());
                lemma_same_sizes(a, b, job_id, job, u);
            }
            let n = job.graph.stages[s].inputs.len();
            lemma_same_choice(target, a, b, job_id, job, job, s, n);
        }
    }
    assert(first.stages =~= second.stages);
    assert(first.graph.stages =~= second.graph.stages);
    let stages = task_stages(job.region_tasks(region));
    let x = adapted_stages(target, a, job_id, job, stages);
    let y = adapted_stages(target, b, job_id, job, stages);
    lemma_region_stages(job, region);
    lemma_only_stages_changed(target, a, job_id, job, stages);
    lemma_only_stages_changed(target, b, job_id, job, stages);
    assert(x.stages =~= y.stages);
    assert(all_tasks(x, stages) == all_tasks(y, stages)) by {
        assert(stages.map_values(|s: usize| stage_tasks(x, s)) =~= stages.map_values(
            |s: usize| stage_tasks(y, s),
        ));
    }
    assert forall|r: int| 0 <= r < job.topology.regions.len() implies first.topology.regions[r]
        == second.topology.regions[r] by {
        if r == region {
            assert(first.topology.regions[r].tasks == all_tasks(x, stages));
            assert(second.topology.regions[r].tasks == all_tasks(y, stages));
        }
    }
    assert(first.topology.regions =~= second.topology.regions);
    assert(first =~= second);
}

/// Index files that tell the same give the same sizes.
proof fn lemma_same_sizes(a: &Measurements, b: &Measurements, job_id: JobId, job: JobView, u: usize)
    requires
        u < job.stages.len(),
        forall|p: int, c: int|
            0 <= p < job.stages[u as int].tasks.len() && 0 <= c < channel_count(
                job.graph.stages[u as int],
            ) ==> #[trigger] told_bytes(&a.index, job_id, job, u, p, c) == told_bytes(
                &b.index,
                job_id,
                job,
                u,
                p,
                c,
            ),
    ensures
        channel_sizes(&a.index, job_id, job, u) == channel_sizes(&b.index, job_id, job, u),
{
    let n = job.stages[u as int].tasks.len();
    let x = channel_sizes(&a.index, job_id, job, u);
    let y = channel_sizes(&b.index, job_id, job, u);
    assert forall|c: int| 0 <= c < x.len() implies x[c] == y[c] by {
        lemma_summed_bytes(&a.index, job_id, job, u, c, n);
        lemma_summed_bytes(&b.index, job_id, job, u, c, n);
        lemma_same_sum(a, b, job_id, job, u, c, n);
    }
    assert(x =~= y);
}

/// Files that tell the same add up to the same.
proof fn lemma_same_sum(
    a: &Measurements,
    b: &Measurements,
    job_id: JobId,
    job: JobView,
    u: usize,
    c: int,
    n: nat,
)
    requires
        forall|p: int|
            0 <= p < n ==> #[trigger] told_bytes(&a.index, job_id, job, u, p, c) == told_bytes(
                &b.index,
                job_id,
                job,
                u,
                p,
                c,
            ),
    ensures
        summed_bytes(&a.index, job_id, job, u, c, n) == summed_bytes(
            &b.index,
            job_id,
            job,
            u,
            c,
            n,
        ),
    decreases n,
{
    if n > 0 {
        lemma_same_sum(a, b, job_id, job, u, c, (n - 1) as nat);
        assert(told_bytes(&a.index, job_id, job, u, n - 1, c) == told_bytes(
            &b.index,
            job_id,
            job,
            u,
            n - 1,
            c,
        ));
    }
}

/// Items without repetitions are in the order in which they occur first.
proof fn lemma_distinct_in_order(s: Seq<usize>, a: int, b: int) -> (r: int)
    requires
        0 <= a < b < distinct(s).len(),
    ensures
        0 <= r < s.len(),
        s[r] == distinct(s)[a],
        forall|k: int| 0 <= k <= r ==> #[trigger] s[k] != distinct(s)[b],
    decreases s.len(),
{
    let rest = s.drop_last();
    let d = distinct(rest);
    lemma_distinct(rest);
    if b < d.len() {
        let r = lemma_distinct_in_order(rest, a, b);
        assert forall|k: int| 0 <= k <= r implies #[trigger] s[k] != distinct(s)[b] by {
            assert(rest[k] != d[b]);
        }
        r
    } else {
        assert(d.contains(d[a]));
        assert(rest.contains(d[a]));
        let r = rest.index_of(d[a]);
        assert(s[r] == rest[r]);
        assert forall|k: int| 0 <= k <= r implies #[trigger] s[k] != distinct(s)[b] by {
            assert(rest[k] == s[k]);
            assert(rest.contains(rest[k]));
            assert(d.contains(rest[k]));
        }
        r
    }
}

/// A region takes in the tasks of its stages in the order in which the stages occurred first, and those of a
/// stage by partition.
pub proof fn lemma_region_tasks_in_order(
    target: u64,
    data: &Measurements,
    job_id: JobId,
    job: JobView,
    region: int,
    i: int,
    j: int,
)
    requires
        job.linked(),
        0 <= region < job.regions.len(),
        0 <= i < j < adapted_region(
            target,
            data,
            job_id,
            job,
            region,
        ).topology.regions[region].tasks.len(),
    ensures
        ({
            let old_tasks = job.topology.regions[region].tasks;
            let tasks = adapted_region(
                target,
                data,
                job_id,
                job,
                region,
            ).topology.regions[region].tasks;
            if tasks[i].stage == tasks[j].stage {
                tasks[i].partition < tasks[j].partition
            } else {
                exists|a: int|
                    0 <= a < old_tasks.len() && (#[trigger] old_tasks[a]).stage == tasks[i].stage
                        && forall|b: int|
                        0 <= b <= a ==> (#[trigger] old_tasks[b]).stage != tasks[j].stage
            }
        }),
{
    let old_tasks = job.topology.regions[region].tasks;
    let of_tasks = old_tasks.map_values(|t: TaskTopology| t.stage);
    let stages = task_stages(job.region_tasks(region));
    let middle = adapted_stages(target, data, job_id, job, stages);
    lemma_region_stages(job, region);
    lemma_only_stages_changed(target, data, job_id, job, stages);
    lemma_adapted_region(target, data, job_id, job, region);
    let lists = stages.map_values(|s: usize| stage_tasks(middle, s));
    let tasks = adapted_region(target, data, job_id, job, region).topology.regions[region].tasks;
    assert(tasks == lists.flatten());
    let (k, p, l, q) = lemma_two_places(lists, i, j);
    assert(lists[k] == stage_tasks(middle, stages[k]));
    assert(lists[l] == stage_tasks(middle, stages[l]));
    assert(middle.stages[stages[k] as int].tasks.len() <= usize::MAX);
    assert(middle.stages[stages[l] as int].tasks.len() <= usize::MAX);
    if k < l {
        assert(stages == distinct(of_tasks));
        let a = lemma_distinct_in_order(of_tasks, k, l);
        assert(old_tasks[a].stage == tasks[i].stage);
        assert forall|b: int| 0 <= b <= a implies (#[trigger] old_tasks[b]).stage
            != tasks[j].stage by {
            assert(of_tasks[b] == old_tasks[b].stage);
        }
        assert(stages[k] != stages[l]);
    }
}

}

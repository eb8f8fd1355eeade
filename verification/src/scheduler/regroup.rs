//! What choosing how regions read shuffled data leaves alone.

use crate::clock::Timestamp;
use crate::id::JobId;
use crate::measurements::Measurements;
use crate::scheduler::adapt::{
    adapted_stage, adapted_stages, all_tasks, channel_sizes, finds_the_same,
    is_merged, is_regrouped, latest_attempts, lemma_adapted_region, lemma_all_tasks,
    lemma_group_count, lemma_region_stages, lemma_same_choice,
};
use crate::scheduler::options::SchedulerOptionsView;
use crate::scheduler::region::{lemma_stages_exist, task_stages};
use crate::scheduler::schedule::{
    adapted_if_enabled, can_schedule, is_ready, lemma_adapted_if_enabled, lemma_new_attempts,
    lemma_ready_exists, lemma_scheduled_regions, prepared_region, scheduled_regions,
    with_new_attempts,
};
use crate::state::JobView;
use crate::topology::TaskTopology;
use vstd::prelude::*;

verus! {

/// Whether a region has a task of a stage.
pub open spec fn has_stage(job: JobView, region: int, stage: int) -> bool {
    exists|i: int|
        0 <= i < job.region_tasks(region).len() && (#[trigger] job.region_tasks(region)[i]).stage
            == stage
}

/// Whether a region depends on another one.
pub open spec fn depends_on(job: JobView, region: int, other: int) -> bool {
    exists|i: int|
        0 <= i < job.topology.regions[region].dependencies.len()
            && #[trigger] job.topology.regions[region].dependencies[i] == other
}

/// Whether every region depends on the regions that write the data whose sizes it needs.
pub open spec fn depends_on_data(job: JobView) -> bool {
    forall|r: int, s: int, k: int, q: int|
        #![trigger has_stage(job, r, s), has_stage(job, q, job.graph.stages[s].inputs[k].stage as int)]
        0 <= r < job.regions.len() && has_stage(job, r, s) && 0 <= k
            < job.graph.stages[s].inputs.len() && job.adaptable_input(s, k) && 0 <= q
            < job.regions.len() && has_stage(job, q, job.graph.stages[s].inputs[k].stage as int)
            ==> depends_on(job, r, q)
}

/// Whether no stage of a region may read another stage of it in groups of channels.
pub open spec fn reads_others(job: JobView, region: int) -> bool {
    forall|s: int, k: int|
        #![trigger has_stage(job, region, s), job.graph.stages[s].inputs[k]]
        has_stage(job, region, s) && 0 <= k < job.graph.stages[s].inputs.len()
            && job.adaptable_input(s, k) ==> !has_stage(
            job,
            region,
            job.graph.stages[s].inputs[k].stage as int,
        )
}

/// Whether all regions that have tasks of a stage have succeeded.
pub open spec fn is_left_alone(job: JobView, stage: int) -> bool {
    forall|r: int|
        0 <= r < job.regions.len() && #[trigger] has_stage(job, r, stage)
            ==> job.regions[r] is Succeeded
}

/// A region has a task of every stage that is listed for it.
pub proof fn lemma_listed_stage(job: JobView, region: int, i: int)
    requires
        0 <= i < task_stages(job.region_tasks(region)).len(),
    ensures
        has_stage(job, region, task_stages(job.region_tasks(region))[i] as int),
{
    let tasks = job.region_tasks(region);
    lemma_stages_exist(tasks);
    let j = choose|j: int|
        0 <= j < tasks.len() && (#[trigger] tasks[j]).stage == task_stages(tasks)[i];
    assert(job.region_tasks(region)[j].stage == task_stages(tasks)[i]);
}

/// A region that is ready needs the sizes of stages that are left alone, and that are not its own.
pub proof fn lemma_data_is_left_alone(job: JobView, region: int, s: int, k: int)
    requires
        job.linked(),
        depends_on_data(job),
        0 <= region < job.regions.len(),
        !(job.regions[region] is Succeeded),
        forall|q: int|
            0 <= q < job.regions.len() && #[trigger] depends_on(job, region, q)
                ==> job.regions[q] is Succeeded,
        has_stage(job, region, s),
        0 <= s < job.graph.stages.len(),
        0 <= k < job.graph.stages[s].inputs.len(),
        job.adaptable_input(s, k),
    ensures
        is_left_alone(job, job.graph.stages[s].inputs[k].stage as int),
        !has_stage(job, region, job.graph.stages[s].inputs[k].stage as int),
{
    let u = job.graph.stages[s].inputs[k].stage as int;
    assert forall|q: int| 0 <= q < job.regions.len() && #[trigger] has_stage(
        job,
        q,
        u,
    ) implies job.regions[q] is Succeeded by {
        assert(has_stage(job, q, job.graph.stages[s].inputs[k].stage as int));
        assert(depends_on(job, region, q));
    }
}

/// Whether a job differs from another one, apart from some stages, in nothing that says what can be
/// read in groups of channels.
pub open spec fn only_stages_changed(before: JobView, after: JobView, stages: Seq<usize>) -> bool {
    &&& after.stages.len() == before.stages.len()
    &&& after.graph.stages.len() == before.graph.stages.len()
    &&& after.topology == before.topology
    &&& after.regions == before.regions
    &&& forall|s: int|
        0 <= s < before.stages.len() && (forall|i: int|
            0 <= i < stages.len() ==> #[trigger] stages[i] != s) ==> #[trigger] after.stages[s]
            == before.stages[s]
    &&& forall|s: int|
        0 <= s < before.graph.stages.len() && (forall|i: int|
            0 <= i < stages.len() ==> #[trigger] stages[i] != s)
            ==> #[trigger] after.graph.stages[s] == before.graph.stages[s]
    &&& forall|s: int|
        0 <= s < before.graph.stages.len() ==> (#[trigger] after.graph.stages[s]).mode
            == before.graph.stages[s].mode && after.graph.stages[s].distribution
            == before.graph.stages[s].distribution
}

/// Having some stages read inputs in groups of channels changes no other stages.
pub proof fn lemma_only_stages_changed(
    target: u64,
    data: &Measurements,
    job_id: JobId,
    job: JobView,
    stages: Seq<usize>,
)
    requires
        job.graph.stages.len() == job.stages.len(),
        forall|i: int| 0 <= i < stages.len() ==> #[trigger] stages[i] < job.stages.len(),
    ensures
        only_stages_changed(
            job,
            adapted_stages(target, data, job_id, job, stages),
            stages,
        ),
    decreases stages.len(),
{
    if stages.len() > 0 {
        let rest = stages.drop_last();
        let last = stages[stages.len() - 1];
        assert forall|i: int| 0 <= i < rest.len() implies #[trigger] rest[i]
            < job.stages.len() by {
            assert(rest[i] == stages[i]);
        }
        lemma_only_stages_changed(target, data, job_id, job, rest);
        let before = adapted_stages(target, data, job_id, job, rest);
        let after = adapted_stages(target, data, job_id, job, stages);
        assert forall|s: int|
            0 <= s < job.stages.len() && (forall|i: int|
                0 <= i < stages.len() ==> #[trigger] stages[i] != s) implies
            #[trigger] after.stages[s] == job.stages[s] && after.graph.stages[s]
            == job.graph.stages[s] by {
            assert(last != s);
            assert forall|i: int| 0 <= i < rest.len() implies #[trigger] rest[i] != s by {
                assert(rest[i] == stages[i]);
            }
            assert(before.stages[s] == job.stages[s]);
            assert(before.graph.stages[s] == job.graph.stages[s]);
        }
        assert forall|s: int|
            0 <= s < job.graph.stages.len() && (forall|i: int|
                0 <= i < stages.len() ==> #[trigger] stages[i] != s) implies
            #[trigger] after.graph.stages[s] == job.graph.stages[s] by {
            assert(after.stages[s] == job.stages[s]);
        }
        assert forall|s: int| 0 <= s < job.graph.stages.len() implies (
        #[trigger] after.graph.stages[s]).mode == job.graph.stages[s].mode
            && after.graph.stages[s].distribution == job.graph.stages[s].distribution by {
            assert(before.graph.stages[s].mode == job.graph.stages[s].mode);
        }
    }
}

/// Choosing how the stages of a region read shuffled data decides about each stage as if it were the
/// only one, if they do not read from each other.
pub proof fn lemma_stages_decided(
    target: u64,
    data: &Measurements,
    job_id: JobId,
    job: JobView,
    all: Seq<usize>,
    n: nat,
    i: int,
)
    requires
        job.linked(),
        n <= all.len(),
        all.no_duplicates(),
        forall|i: int| 0 <= i < all.len() ==> #[trigger] all[i] < job.stages.len(),
        forall|i: int, k: int|
            0 <= i < all.len() && 0 <= k < job.graph.stages[all[i] as int].inputs.len()
                && #[trigger] job.adaptable_input(all[i] as int, k) ==> !all.contains(
                job.graph.stages[all[i] as int].inputs[k].stage,
            ),
        0 <= i < n,
    ensures
        ({
            let s = all[i] as int;
            let after = adapted_stages(target, data, job_id, job, all.take(n as int));
            let alone = adapted_stage(target, data, job_id, job, s);
            &&& after.stages[s] == alone.stages[s]
            &&& after.graph.stages[s] == alone.graph.stages[s]
        }),
    decreases n,
{
    let stages = all.take(n as int);
    let rest = all.take(n - 1);
    let last = all[n - 1] as int;
    assert(stages.drop_last() =~= rest);
    assert(stages.last() == all[n - 1]);
    assert forall|j: int| 0 <= j < rest.len() implies #[trigger] rest[j] < job.stages.len()
        && rest[j] != last by {
        assert(rest[j] == all[j]);
    }
    lemma_only_stages_changed(target, data, job_id, job, rest);
    let before = adapted_stages(target, data, job_id, job, rest);
    if i < n - 1 {
        lemma_stages_decided(target, data, job_id, job, all, (n - 1) as nat, i);
        assert(all[i] != all[n - 1]);
    } else {
        lemma_same_decision(target, data, job_id, job, before, rest, last);
    }
}

/// A stage is decided about in the same way after other stages have been, if it does not read from
/// them.
proof fn lemma_same_decision(
    target: u64,
    data: &Measurements,
    job_id: JobId,
    job: JobView,
    later: JobView,
    changed: Seq<usize>,
    s: int,
)
    requires
        job.linked(),
        only_stages_changed(job, later, changed),
        0 <= s < job.stages.len(),
        forall|i: int| 0 <= i < changed.len() ==> #[trigger] changed[i] != s,
        forall|k: int|
            0 <= k < job.graph.stages[s].inputs.len() && #[trigger] job.adaptable_input(s, k)
                ==> !changed.contains(job.graph.stages[s].inputs[k].stage),
    ensures
        is_regrouped(target, data, job_id, later, s) == is_regrouped(
            target,
            data,
            job_id,
            job,
            s,
        ),
        adapted_stage(target, data, job_id, later, s).stages[s] == adapted_stage(
            target,
            data,
            job_id,
            job,
            s,
        ).stages[s],
        adapted_stage(target, data, job_id, later, s).graph.stages[s] == adapted_stage(
            target,
            data,
            job_id,
            job,
            s,
        ).graph.stages[s],
{
    assert(later.stages[s] == job.stages[s]);
    assert(later.graph.stages[s] == job.graph.stages[s]);
    assert forall|k: int| 0 <= k < job.graph.stages[s].inputs.len() implies {
        let u = (#[trigger] job.graph.stages[s].inputs[k]).stage;
        &&& later.graph.stages[u as int].mode == job.graph.stages[u as int].mode
        &&& later.graph.stages[u as int].distribution == job.graph.stages[u as int].distribution
        &&& job.adaptable_input(s, k) ==> channel_sizes(&data.index, job_id, later, u)
            == channel_sizes(&data.index, job_id, job, u)
    } by {
        let u = job.graph.stages[s].inputs[k].stage;
        assert(u < job.stages.len());
        assert(later.graph.stages[u as int].mode == job.graph.stages[u as int].mode);
        if job.adaptable_input(s, k) {
            assert forall|i: int| 0 <= i < changed.len() implies #[trigger] changed[i] != u by {
                if changed[i] == u {
                    assert(changed.contains(u));
                }
            }
            assert(later.stages[u as int] == job.stages[u as int]);
            assert(latest_attempts(later, u) =~= latest_attempts(job, u));
            assert(channel_sizes(&data.index, job_id, later, u) =~= channel_sizes(
                &data.index,
                job_id,
                job,
                u,
            ));
        }
    }
    assert(finds_the_same(data, data, job_id, job, later, s));
    lemma_same_choice(
        target,
        data,
        data,
        job_id,
        job,
        later,
        s,
        job.graph.stages[s].inputs.len(),
    );
}

/// A stage that has been decided about is not regrouped again: the inputs that are read in groups of
/// channels stay so, and the other ones have no channels that come together, as long as what they read
/// has the same sizes.
pub proof fn lemma_decided_once(
    target: u64,
    data: &Measurements,
    job_id: JobId,
    job: JobView,
    later: JobView,
    s: int,
)
    requires
        0 <= s < job.graph.stages.len(),
        forall|k: int|
            0 <= k < job.graph.stages[s].inputs.len() ==> (
            #[trigger] job.graph.stages[s].inputs[k]).stage < job.graph.stages.len(),
        later.graph.stages[s].inputs == adapted_stage(
            target,
            data,
            job_id,
            job,
            s,
        ).graph.stages[s].inputs,
        later.graph.stages.len() == job.graph.stages.len(),
        forall|u: int|
            0 <= u < job.graph.stages.len() ==> (#[trigger] later.graph.stages[u]).mode
                == job.graph.stages[u].mode && later.graph.stages[u].distribution
                == job.graph.stages[u].distribution,
        forall|k: int|
            0 <= k < job.graph.stages[s].inputs.len() && #[trigger] later.adaptable_input(s, k) ==> {
                let u = job.graph.stages[s].inputs[k].stage;
                channel_sizes(&data.index, job_id, later, u) == channel_sizes(
                    &data.index,
                    job_id,
                    job,
                    u,
                )
            },
    ensures
        !is_regrouped(target, data, job_id, later, s),
{
    let n = job.graph.stages[s].inputs.len();
    lemma_group_count(target, data, job_id, job, s, n);
    assert forall|k: int| 0 <= k < n implies !#[trigger] is_merged(
        target,
        data,
        job_id,
        later,
        s,
        k,
    ) by {
        let input = job.graph.stages[s].inputs[k];
        assert(input.stage < job.graph.stages.len());
        assert(later.graph.stages[input.stage as int].mode
            == job.graph.stages[input.stage as int].mode);
        if is_merged(target, data, job_id, later, s, k) {
            assert(later.adaptable_input(s, k));
            assert(later.graph.stages[s].inputs[k].partition_ranges is None);
            assert(!is_merged(target, data, job_id, job, s, k));
            assert(later.graph.stages[s].inputs[k] == input);
            assert(job.adaptable_input(s, k));
        }
    }
    lemma_group_count(target, data, job_id, later, s, n);
}

/// If no stage is to be regrouped, none is.
pub proof fn lemma_nothing_regrouped(
    target: u64,
    data: &Measurements,
    job_id: JobId,
    job: JobView,
    stages: Seq<usize>,
)
    requires
        forall|i: int|
            0 <= i < stages.len() ==> !is_regrouped(
                target,
                data,
                job_id,
                job,
                (#[trigger] stages[i]) as int,
            ),
    ensures
        adapted_stages(target, data, job_id, job, stages) == job,
    decreases stages.len(),
{
    if stages.len() > 0 {
        let rest = stages.drop_last();
        assert forall|i: int| 0 <= i < rest.len() implies !is_regrouped(
            target,
            data,
            job_id,
            job,
            (#[trigger] rest[i]) as int,
        ) by {
            assert(rest[i] == stages[i]);
        }
        lemma_nothing_regrouped(target, data, job_id, job, rest);
        assert(!is_regrouped(target, data, job_id, job, stages[stages.len() - 1] as int));
    }
}

/// New attempts at tasks of other stages leave a stage alone.
proof fn lemma_stage_left_alone(job: JobView, tasks: Seq<TaskTopology>, now: Timestamp, s: int)
    requires
        0 <= s < job.stages.len(),
        forall|i: int|
            0 <= i < tasks.len() ==> (#[trigger] tasks[i]).stage != s && tasks[i].stage
                < job.stages.len(),
    ensures
        with_new_attempts(job, tasks, now).stages[s] == job.stages[s],
        with_new_attempts(job, tasks, now).stages.len() == job.stages.len(),
    decreases tasks.len(),
{
    if tasks.len() > 0 {
        let rest = tasks.drop_last();
        assert forall|i: int| 0 <= i < rest.len() implies (#[trigger] rest[i]).stage != s
            && rest[i].stage < job.stages.len() by {
            assert(rest[i] == tasks[i]);
        }
        lemma_stage_left_alone(job, rest, now, s);
        assert(tasks[tasks.len() - 1].stage != s);
    }
}

/// Whether none of the first `n` regions has a task of a stage.
pub open spec fn is_beyond(job: JobView, n: int, stage: int) -> bool {
    forall|r: int| 0 <= r < n ==> !#[trigger] has_stage(job, r, stage)
}

/// What scheduling the first `n` regions of a job keeps of it: the other regions, the stages that are
/// left alone or beyond these regions, and what the stages read.
pub open spec fn is_scheduled_from(before: JobView, after: JobView, n: int) -> bool {
    &&& after.stages.len() == before.stages.len()
    &&& after.graph.stages.len() == before.graph.stages.len()
    &&& after.topology.regions.len() == before.topology.regions.len()
    &&& forall|r: int|
        n <= r < before.topology.regions.len() ==> #[trigger] after.topology.regions[r]
            == before.topology.regions[r]
    &&& forall|s: int|
        0 <= s < before.stages.len() && (is_left_alone(before, s) || is_beyond(before, n, s))
            ==> #[trigger] after.stages[s] == before.stages[s]
    &&& forall|s: int|
        0 <= s < before.graph.stages.len() ==> {
            let old_stage = before.graph.stages[s];
            let new_stage = #[trigger] after.graph.stages[s];
            &&& new_stage.mode == old_stage.mode
            &&& new_stage.distribution == old_stage.distribution
            &&& new_stage.inputs.len() == old_stage.inputs.len()
        }
    &&& forall|s: int, k: int|
        0 <= s < before.graph.stages.len() && 0 <= k < before.graph.stages[s].inputs.len() ==> {
            let old_input = before.graph.stages[s].inputs[k];
            let new_input = #[trigger] after.graph.stages[s].inputs[k];
            &&& new_input.stage == old_input.stage
            &&& new_input.mode == old_input.mode
            &&& old_input.partition_ranges is Some ==> new_input.partition_ranges is Some
        }
}

/// Preparing a region that has not succeeded keeps what scheduling keeps.
pub proof fn lemma_preparation_keeps(
    options: SchedulerOptionsView,
    data: &Measurements,
    job_id: JobId,
    job: JobView,
    later: JobView,
    region: int,
    now: Timestamp,
)
    requires
        job.linked(),
        later.linked(),
        is_scheduled_from(job, later, region),
        later.regions == job.regions,
        0 <= region < job.regions.len(),
        !(job.regions[region] is Succeeded),
        later.tasks_exist(region),
    ensures
        is_scheduled_from(
            job,
            prepared_region(options, data, job_id, later, region, now),
            region + 1,
        ),
{
    let target = options.target_partition_size;
    let stages = task_stages(later.region_tasks(region));
    let middle = adapted_stages(target, data, job_id, later, stages);
    assert(later.topology.regions[region] == job.topology.regions[region]);
    lemma_adapted_region(target, data, job_id, later, region);
    lemma_region_stages(later, region);
    lemma_only_stages_changed(target, data, job_id, later, stages);
    lemma_adapted_if_enabled(options, data, job_id, later, region);
    let adapted = adapted_if_enabled(options, data, job_id, later, region);
    let tasks = adapted.region_tasks(region);
    let after = prepared_region(options, data, job_id, later, region, now);
    lemma_new_attempts(adapted, tasks, now);
    assert forall|s: int|
        0 <= s < job.stages.len() && (is_left_alone(job, s) || is_beyond(
            job,
            region + 1,
            s,
        )) implies #[trigger] after.stages[s] == job.stages[s] by {
        assert(!has_stage(job, region, s));
        assert(is_left_alone(job, s) || is_beyond(job, region, s));
        assert(later.stages[s] == job.stages[s]);
        assert forall|i: int| 0 <= i < stages.len() implies #[trigger] stages[i] != s by {
            if stages[i] == s {
                lemma_listed_stage(later, region, i);
                let j = choose|j: int|
                    0 <= j < later.region_tasks(region).len() && (#[trigger] later.region_tasks(
                        region,
                    )[j]).stage == s;
                assert(job.region_tasks(region)[j].stage == s);
            }
        }
        assert(adapted.stages[s] == job.stages[s]);
        assert forall|i: int| 0 <= i < tasks.len() implies (#[trigger] tasks[i]).stage != s
            && tasks[i].stage < adapted.stages.len() by {
            assert(adapted.has_task(tasks[i].stage as int, tasks[i].partition as int));
            if options.adaptive_enabled {
                assert(tasks == all_tasks(middle, stages));
                lemma_all_tasks(middle, stages, i);
                let j = stages.index_of(tasks[i].stage);
                assert(stages[j] != s);
            } else {
                assert(job.region_tasks(region)[i] == tasks[i]);
            }
        }
        lemma_stage_left_alone(adapted, tasks, now, s);
    }
    assert forall|r: int| region + 1 <= r < job.topology.regions.len() implies
        #[trigger] after.topology.regions[r] == job.topology.regions[r] by {
        assert(later.topology.regions[r] == job.topology.regions[r]);
    }
    assert forall|s: int| 0 <= s < job.graph.stages.len() implies {
        let old_stage = job.graph.stages[s];
        let new_stage = #[trigger] after.graph.stages[s];
        &&& new_stage.mode == old_stage.mode
        &&& new_stage.distribution == old_stage.distribution
        &&& new_stage.inputs.len() == old_stage.inputs.len()
    } by {
        assert(later.graph.stages[s].mode == job.graph.stages[s].mode);
        assert(adapted.graph.stages[s].mode == later.graph.stages[s].mode);
        assert(middle.graph.stages[s].distribution == later.graph.stages[s].distribution);
    }
    assert forall|s: int, k: int|
        0 <= s < job.graph.stages.len() && 0 <= k < job.graph.stages[s].inputs.len() implies {
        let old_input = job.graph.stages[s].inputs[k];
        let new_input = #[trigger] after.graph.stages[s].inputs[k];
        &&& new_input.stage == old_input.stage
        &&& new_input.mode == old_input.mode
        &&& old_input.partition_ranges is Some ==> new_input.partition_ranges is Some
    } by {
        assert(later.graph.stages[s].inputs.len() == job.graph.stages[s].inputs.len());
        assert(later.graph.stages[s].inputs[k].stage == job.graph.stages[s].inputs[k].stage);
        assert(middle.graph.stages[s].inputs.len() == later.graph.stages[s].inputs.len());
        assert(middle.graph.stages[s].inputs[k].stage == later.graph.stages[s].inputs[k].stage);
    }
}

/// Scheduling regions keeps what it keeps.
pub proof fn lemma_scheduling_keeps(
    options: SchedulerOptionsView,
    data: &Measurements,
    job_id: JobId,
    job: JobView,
    n: nat,
    now: Timestamp,
)
    requires
        job.sound(),
        n <= job.regions.len(),
        can_schedule(options, data, job_id, job, n, now),
    ensures
        is_scheduled_from(job, scheduled_regions(options, data, job_id, job, n, now).0, n as int),
    decreases n,
{
    if n > 0 {
        let r = n - 1;
        lemma_scheduling_keeps(options, data, job_id, job, r as nat, now);
        lemma_scheduled_regions(options, data, job_id, job, r as nat, now);
        let before = scheduled_regions(options, data, job_id, job, r as nat, now).0;
        if is_ready(before, r) {
            lemma_ready_exists(before, r);
            lemma_preparation_keeps(options, data, job_id, job, before, r, now);
        }
    }
}

/// When a region is about to be scheduled, the data whose sizes it needs is as it was before any
/// region was scheduled, and it is not its own.
pub proof fn lemma_needed_data_kept(job: JobView, later: JobView, region: int, s: int, k: int)
    requires
        job.linked(),
        later.linked(),
        depends_on_data(job),
        is_scheduled_from(job, later, region),
        later.regions == job.regions,
        0 <= region < job.regions.len(),
        is_ready(later, region),
        has_stage(job, region, s),
        0 <= s < later.graph.stages.len(),
        0 <= k < later.graph.stages[s].inputs.len(),
        later.adaptable_input(s, k),
    ensures
        ({
            let u = job.graph.stages[s].inputs[k].stage;
            &&& later.graph.stages[s].inputs[k].stage == u
            &&& job.adaptable_input(s, k)
            &&& u < job.stages.len()
            &&& is_left_alone(job, u as int)
            &&& !has_stage(job, region, u as int)
            &&& latest_attempts(later, u) == latest_attempts(job, u)
            &&& later.graph.stages[u as int].distribution
                == job.graph.stages[u as int].distribution
        }),
{
    let u = job.graph.stages[s].inputs[k].stage;
    assert(later.graph.stages[s].inputs.len() == job.graph.stages[s].inputs.len());
    assert(later.graph.stages[s].inputs[k].stage == u);
    assert(job.graph.stages[s].inputs[k].stage < job.stages.len());
    assert(later.graph.stages[u as int].mode == job.graph.stages[u as int].mode);
    assert(job.adaptable_input(s, k));
    assert(later.topology.regions[region] == job.topology.regions[region]);
    assert forall|q: int| 0 <= q < job.regions.len() && #[trigger] depends_on(
        job,
        region,
        q,
    ) implies job.regions[q] is Succeeded by {
        let d = choose|d: int|
            0 <= d < job.topology.regions[region].dependencies.len()
                && #[trigger] job.topology.regions[region].dependencies[d] == q;
        assert(later.regions[later.topology.regions[region].dependencies[d] as int] is Succeeded);
    }
    lemma_data_is_left_alone(job, region, s, k);
    assert(later.stages[u as int] == job.stages[u as int]);
    assert(latest_attempts(later, u) =~= latest_attempts(job, u));
}

/// Which regions depend on which data follows from the graph and the topology of a job.
pub proof fn lemma_same_order(a: JobView, b: JobView)
    requires
        a.graph == b.graph,
        a.topology == b.topology,
        a.regions.len() == b.regions.len(),
        depends_on_data(a),
    ensures
        depends_on_data(b),
{
    assert forall|r: int, s: int| #[trigger] has_stage(b, r, s) implies has_stage(a, r, s) by {
        let i = choose|i: int|
            0 <= i < b.region_tasks(r).len() && (#[trigger] b.region_tasks(r)[i]).stage == s;
        assert(a.region_tasks(r)[i].stage == s);
    }
    assert forall|r: int, s: int, k: int, q: int|
        #![trigger has_stage(b, r, s), has_stage(b, q, b.graph.stages[s].inputs[k].stage as int)]
        0 <= r < b.regions.len() && has_stage(b, r, s) && 0 <= k
            < b.graph.stages[s].inputs.len() && b.adaptable_input(s, k) && 0 <= q
            < b.regions.len() && has_stage(
            b,
            q,
            b.graph.stages[s].inputs[k].stage as int,
        ) implies depends_on(b, r, q) by {
        assert(has_stage(a, r, s));
        assert(has_stage(a, q, a.graph.stages[s].inputs[k].stage as int));
        assert(a.adaptable_input(s, k));
        assert(depends_on(a, r, q));
        let d = choose|d: int|
            0 <= d < a.topology.regions[r].dependencies.len()
                && #[trigger] a.topology.regions[r].dependencies[d] == q;
        assert(b.topology.regions[r].dependencies[d] == q);
    }
}

}

//! Jobs that can be refreshed.

use crate::clock::Timestamp;
use crate::id::JobId;
use crate::measurements::Measurements;
use crate::scheduler::adapt::{
    adapted_region, adapted_stage, adapted_stages, group_count, grouped_plan, input_channels,
    input_ranges, is_merged, lemma_adapted_region, lemma_ranges_fit, lemma_region_stages,
};
use crate::scheduler::cancel::{canceled_regions, lemma_canceled_regions};
use crate::scheduler::effects::{has_member, lemma_settled_attempts};
use crate::scheduler::grouping::{lemma_region_takes_all_tasks, takes_part};
use crate::scheduler::keys::channel_count;
use crate::scheduler::lifecycle::{can_refresh, lemma_settled_shape, settled_job};
use crate::scheduler::options::SchedulerOptionsView;
use crate::scheduler::output::{can_release, extended_output, is_overrun, outputs_exist};
use crate::scheduler::region::task_stages;
use crate::scheduler::schedule::{
    adapted_if_enabled, can_examine, can_place, can_schedule, lemma_new_attempts, prepared_region,
    scheduled_regions,
};
use crate::scheduler::starts::are_apart;
use crate::state::JobView;
use vstd::prelude::*;

verus! {

/// Whether every stage has a task for every output partition of its plan, and no other tasks.
pub open spec fn is_matched(job: JobView) -> bool {
    forall|s: int|
        0 <= s < job.stages.len() ==> (#[trigger] job.stages[s]).tasks.len()
            == job.graph.stages[s].plan.partitions
}

/// Whether the plan of a stage comes to one output partition for every group of channels, however many groups
/// an input of it is read in.
pub open spec fn plans_follow(job: JobView, data: &Measurements) -> bool {
    forall|s: int, k: int, groups: int|
        0 <= s < job.graph.stages.len() && 0 <= k < job.graph.stages[s].inputs.len() && 0 < groups
            < channel_count(job.graph.stages[job.graph.stages[s].inputs[k].stage as int])
            ==> #[trigger] data.spec_rewritten(s, k, groups) == Some(groups as usize)
}

/// What makes it possible to start one region after the other.
spec fn is_at_ease(options: SchedulerOptionsView, data: &Measurements, job: JobView) -> bool {
    &&& job.well_formed()
    &&& is_matched(job)
    &&& options.adaptive_enabled ==> are_apart(job) && plans_follow(job, data)
}

/// A plan that follows has as many partitions as the stage gets tasks.
proof fn lemma_plan_matches(
    target: u64,
    data: &Measurements,
    job_id: JobId,
    job: JobView,
    s: int,
    n: nat,
)
    requires
        plans_follow(job, data),
        0 <= s < job.graph.stages.len(),
        n <= job.graph.stages[s].inputs.len(),
    ensures
        grouped_plan(target, data, job_id, job, s, n).partitions == match group_count(
            target,
            data,
            job_id,
            job,
            s,
            n,
        ) {
            Some(count) => count as int,
            None => job.graph.stages[s].plan.partitions as int,
        },
    decreases n,
{
    if n > 0 {
        lemma_plan_matches(target, data, job_id, job, s, (n - 1) as nat);
        lemma_ranges_fit(target, data, job_id, job, s, n - 1);
        let groups = input_ranges(target, data, job_id, job, s, n - 1).len();
        if is_merged(target, data, job_id, job, s, n - 1) {
            assert(groups < input_channels(job, s, n - 1));
            assert(input_channels(job, s, n - 1) == channel_count(
                job.graph.stages[job.graph.stages[s].inputs[n - 1].stage as int],
            ));
            assert(data.spec_rewritten(s, n - 1, groups as int) == Some(groups as usize));
        }
    }
}

/// Deciding about stages keeps tasks and plans in step.
proof fn lemma_stages_match(
    target: u64,
    data: &Measurements,
    job_id: JobId,
    job: JobView,
    stages: Seq<usize>,
)
    requires
        job.linked(),
        is_matched(job),
        plans_follow(job, data),
        forall|i: int| 0 <= i < stages.len() ==> #[trigger] stages[i] < job.stages.len(),
    ensures
        ({
            let after = adapted_stages(target, data, job_id, job, stages);
            &&& is_matched(after)
            &&& plans_follow(after, data)
            &&& after.stages.len() == job.stages.len()
            &&& after.graph.stages.len() == job.graph.stages.len()
            &&& forall|s: int|
                0 <= s < job.graph.stages.len() ==> (#[trigger] after.graph.stages[s]).inputs.len()
                    == job.graph.stages[s].inputs.len() && after.graph.stages[s].distribution
                    == job.graph.stages[s].distribution
            &&& forall|s: int, k: int|
                0 <= s < job.graph.stages.len() && 0 <= k < job.graph.stages[s].inputs.len() ==> (
                #[trigger] after.graph.stages[s].inputs[k]).stage
                    == job.graph.stages[s].inputs[k].stage
        }),
    decreases stages.len(),
{
    if stages.len() > 0 {
        let rest = stages.drop_last();
        assert forall|i: int| 0 <= i < rest.len() implies #[trigger] rest[i] < job.stages.len() by {
            assert(rest[i] == stages[i]);
        }
        lemma_stages_match(target, data, job_id, job, rest);
        let before = adapted_stages(target, data, job_id, job, rest);
        let after = adapted_stages(target, data, job_id, job, stages);
        let s0 = stages.last() as int;
        assert(stages[stages.len() - 1] == stages.last());
        assert(after == adapted_stage(target, data, job_id, before, s0));
        let n = before.graph.stages[s0].inputs.len();
        lemma_plan_matches(target, data, job_id, before, s0, n);
        assert forall|s: int| 0 <= s < after.stages.len() implies (
        #[trigger] after.stages[s]).tasks.len() == after.graph.stages[s].plan.partitions by {
            assert(before.stages[s].tasks.len() == before.graph.stages[s].plan.partitions);
        }
        assert forall|s: int| 0 <= s < job.graph.stages.len() implies (
        #[trigger] after.graph.stages[s]).inputs.len() == before.graph.stages[s].inputs.len()
            && after.graph.stages[s].distribution == before.graph.stages[s].distribution by {}
        assert forall|s: int, k: int|
            0 <= s < job.graph.stages.len() && 0 <= k < job.graph.stages[s].inputs.len() implies (
        #[trigger] after.graph.stages[s].inputs[k]).stage
            == job.graph.stages[s].inputs[k].stage by {
            assert(before.graph.stages[s].inputs[k].stage == job.graph.stages[s].inputs[k].stage);
            assert(before.graph.stages[s].inputs.len() == job.graph.stages[s].inputs.len());
        }
        assert forall|s: int, k: int, groups: int|
            0 <= s < after.graph.stages.len() && 0 <= k < after.graph.stages[s].inputs.len() && 0
                < groups < channel_count(
                after.graph.stages[after.graph.stages[s].inputs[k].stage as int],
            ) implies #[trigger] data.spec_rewritten(s, k, groups) == Some(groups as usize) by {
            assert(after.graph.stages[s].inputs[k].stage == job.graph.stages[s].inputs[k].stage);
            let u = job.graph.stages[s].inputs[k].stage as int;
            assert(job.graph.stages[s].inputs[k].stage < job.stages.len());
            assert(after.graph.stages[u].distribution == job.graph.stages[u].distribution);
        }
    }
}

/// Deciding how a region reads shuffled data keeps a job at ease.
proof fn lemma_region_at_ease(
    options: SchedulerOptionsView,
    data: &Measurements,
    job_id: JobId,
    job: JobView,
    r: int,
)
    requires
        is_at_ease(options, data, job),
        options.adaptive_enabled,
        0 <= r < job.regions.len(),
    ensures
        is_at_ease(
            options,
            data,
            adapted_region(options.target_partition_size, data, job_id, job, r),
        ),
{
    let target = options.target_partition_size;
    let stages = task_stages(job.region_tasks(r));
    let after = adapted_region(target, data, job_id, job, r);
    lemma_region_stages(job, r);
    lemma_stages_match(target, data, job_id, job, stages);
    lemma_adapted_region(target, data, job_id, job, r);
    lemma_region_takes_all_tasks(target, data, job_id, job, r);
    let middle = adapted_stages(target, data, job_id, job, stages);
    assert forall|s: int| 0 <= s < after.stages.len() implies (
    #[trigger] after.stages[s]).tasks.len() == after.graph.stages[s].plan.partitions by {
        assert(after.stages[s] == middle.stages[s]);
    }
    assert forall|q: int, s: int| 0 <= q < job.regions.len() && #[trigger] takes_part(
        after,
        q,
        s,
    ) implies takes_part(job, q, s) by {
        let i = choose|i: int|
            0 <= i < after.topology.regions[q].tasks.len() && (
            #[trigger] after.topology.regions[q].tasks[i]).stage == s;
        let t = after.topology.regions[q].tasks[i];
        if q == r {
            assert(has_member(after, r, s, t.partition as int));
        } else {
            assert(job.topology.regions[q].tasks[i] == t);
        }
    }
    assert forall|a: int, b: int, s: int|
        0 <= a < after.topology.regions.len() && 0 <= b < after.topology.regions.len()
            && #[trigger] takes_part(after, a, s) && #[trigger] takes_part(
            after,
            b,
            s,
        ) implies a == b by {
        assert(takes_part(job, a, s) && takes_part(job, b, s));
    }
    assert forall|q: int| 0 <= q < after.topology.regions.len() implies (
    #[trigger] after.topology.regions[q]).tasks.no_duplicates() by {
        if q != r {
            assert(after.topology.regions[q] == job.topology.regions[q]);
        }
    }
    assert forall|q: int, i: int|
        0 <= q < after.regions.len() && 0 <= i < after.region_tasks(q).len() implies after.has_task(
        (#[trigger] after.region_tasks(q)[i]).stage as int,
        after.region_tasks(q)[i].partition as int,
    ) by {
        let t = after.topology.regions[q].tasks[i];
        assert(after.region_tasks(q)[i] == t);
        if q == r {
            assert(has_member(after, r, t.stage as int, t.partition as int));
        } else {
            assert(job.region_tasks(q)[i] == t);
            assert(job.has_task(t.stage as int, t.partition as int));
            assert(job.topology.regions[q].tasks[i].stage == t.stage);
            assert(takes_part(job, q, t.stage as int));
            assert(!takes_part(job, r, t.stage as int));
            assert(after.stages[t.stage as int] == job.stages[t.stage as int]);
        }
    }
    assert forall|s: int, k: int, groups: int|
        0 <= s < after.graph.stages.len() && 0 <= k < after.graph.stages[s].inputs.len() && 0 < groups
            < channel_count(
            after.graph.stages[after.graph.stages[s].inputs[k].stage as int],
        ) implies #[trigger] data.spec_rewritten(s, k, groups) == Some(groups as usize) by {
        assert(after.graph == middle.graph);
    }
}

/// Whether regions are apart depends on their tasks alone.
proof fn lemma_same_apart(a: JobView, b: JobView)
    requires
        a.topology == b.topology,
        are_apart(a),
    ensures
        are_apart(b),
{
    assert forall|q: int, r: int, s: int|
        0 <= q < b.topology.regions.len() && 0 <= r < b.topology.regions.len()
            && #[trigger] takes_part(b, q, s) && #[trigger] takes_part(b, r, s) implies q == r by {
        assert(takes_part(a, q, s) && takes_part(a, r, s));
    }
    assert forall|r: int| 0 <= r < b.topology.regions.len() implies (
    #[trigger] b.topology.regions[r]).tasks.no_duplicates() by {
        assert(a.topology.regions[r].tasks.no_duplicates());
    }
}

/// New attempts keep a job at ease.
proof fn lemma_attempts_at_ease(
    options: SchedulerOptionsView,
    data: &Measurements,
    job_id: JobId,
    job: JobView,
    r: int,
    now: Timestamp,
)
    requires
        is_at_ease(options, data, job),
        0 <= r < job.regions.len(),
    ensures
        is_at_ease(options, data, prepared_region(options, data, job_id, job, r, now)),
        can_place(options, data, job_id, job, r),
        prepared_region(options, data, job_id, job, r, now).regions.len() == job.regions.len(),
{
    let chosen = adapted_if_enabled(options, data, job_id, job, r);
    if options.adaptive_enabled {
        lemma_region_at_ease(options, data, job_id, job, r);
        lemma_region_takes_all_tasks(options.target_partition_size, data, job_id, job, r);
    }
    let tasks = chosen.region_tasks(r);
    assert forall|i: int| 0 <= i < tasks.len() implies chosen.has_task(
        (#[trigger] tasks[i]).stage as int,
        tasks[i].partition as int,
    ) by {
        assert(chosen.region_tasks(r)[i] == tasks[i]);
    }
    lemma_new_attempts(chosen, tasks, now);
    let after = prepared_region(options, data, job_id, job, r, now);
    assert forall|i: int| 0 <= i < chosen.region_tasks(r).len() implies {
        let t = #[trigger] chosen.region_tasks(r)[i];
        t.partition < chosen.graph.stages[t.stage as int].plan.partitions
    } by {
        let t = tasks[i];
        assert(chosen.stages[t.stage as int].tasks.len()
            == chosen.graph.stages[t.stage as int].plan.partitions);
    }
    assert forall|s: int| 0 <= s < after.stages.len() implies (
    #[trigger] after.stages[s]).tasks.len() == after.graph.stages[s].plan.partitions by {
        assert(after.stages[s].tasks.len() == chosen.stages[s].tasks.len());
    }
    if options.adaptive_enabled {
        lemma_same_apart(chosen, after);
        assert(plans_follow(after, data));
    }
}

/// Regions of a job that is at ease can be started one after the other.
proof fn lemma_all_can_start(
    options: SchedulerOptionsView,
    data: &Measurements,
    job_id: JobId,
    job: JobView,
    n: nat,
    now: Timestamp,
)
    requires
        is_at_ease(options, data, job),
        n <= job.regions.len(),
    ensures
        can_schedule(options, data, job_id, job, n, now),
        is_at_ease(options, data, scheduled_regions(options, data, job_id, job, n, now).0),
        scheduled_regions(options, data, job_id, job, n, now).0.regions.len()
            == job.regions.len(),
    decreases n,
{
    if n > 0 {
        let r = n - 1;
        let before = scheduled_regions(options, data, job_id, job, r as nat, now).0;
        lemma_all_can_start(options, data, job_id, job, r as nat, now);
        lemma_attempts_at_ease(options, data, job_id, before, r, now);
        assert(can_examine(before, r));
    }
}

/// A job can be refreshed whose parts fit together and whose stages have a task for every output partition.
/// If data is read in groups of channels that depend on its size, no two regions may have tasks of the
/// same stage, and the plans must come to one output partition for every group.
pub proof fn lemma_can_be_refreshed(
    options: SchedulerOptionsView,
    data: &Measurements,
    job_id: JobId,
    job: JobView,
    now: Timestamp,
)
    requires
        job.well_formed(),
        is_matched(job),
        options.adaptive_enabled ==> are_apart(job) && plans_follow(job, data),
    ensures
        can_refresh(options, data, job_id, job, now),
{
    if job.state is Running {
        let max = options.task_max_attempts as nat;
        let canceled = canceled_regions(job_id, job, job.regions.len(), now).0;
        let extended = extended_output(job_id, canceled).0;
        let settled = settled_job(max, job_id, job, now).0;
        lemma_settled_shape(max, job_id, job, now);
        lemma_settled_attempts(max, job_id, job, now);
        lemma_canceled_regions(job_id, job, job.regions.len(), now);
        assert(outputs_exist(canceled)) by {
            assert forall|s: int| 0 <= s < canceled.stages.len() implies (
            #[trigger] canceled.stages[s]).tasks.len()
                >= canceled.graph.stages[s].plan.partitions by {
                assert(job.stages[s].tasks.len() == job.graph.stages[s].plan.partitions);
            }
        }
        assert(can_release(extended)) by {
            assert forall|s: int, i: int|
                0 <= s < extended.stages.len() && 0 <= i < extended.topology.consumers[s].len()
                implies !is_overrun(
                extended,
                (#[trigger] extended.topology.consumers[s][i]) as int,
            ) by {
                let c = job.topology.consumers[s][i] as int;
                assert(job.topology.consumers[s][i] < job.stages.len());
                assert(job.stages[c].tasks.len() == job.graph.stages[c].plan.partitions);
                assert(extended.stages[c].tasks.len() == job.stages[c].tasks.len());
            }
        }
        assert forall|s: int| 0 <= s < settled.stages.len() implies (
        #[trigger] settled.stages[s]).tasks.len() == settled.graph.stages[s].plan.partitions by {
            assert(job.stages[s].tasks.len() == job.graph.stages[s].plan.partitions);
        }
        if options.adaptive_enabled {
            lemma_same_apart(job, settled);
            assert(plans_follow(settled, data));
        }
        lemma_all_can_start(options, data, job_id, settled, settled.regions.len(), now);
    }
}

}

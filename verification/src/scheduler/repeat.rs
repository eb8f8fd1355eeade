//! Choosing how a region reads shuffled data more than once.

use crate::collections::{distinct, insert_last, lemma_distinct};
use crate::id::JobId;
use crate::measurements::Measurements;
use crate::scheduler::adapt::{
    adapted_region, adapted_stage, adapted_stages, all_tasks, channel_sizes, is_regrouped,
    latest_attempts, lemma_adapted_region, lemma_region_stages, stage_tasks,
};
use crate::scheduler::limits::lemma_adapted_keeps_tasks;
use crate::scheduler::region::task_stages;
use crate::scheduler::regroup::{
    has_stage, lemma_decided_once, lemma_listed_stage, lemma_nothing_regrouped,
    lemma_only_stages_changed, reads_others,
};
use crate::state::JobView;
use crate::topology::TaskTopology;
use vstd::prelude::*;

verus! {

/// Items that follow some others and are all the same add nothing but one of them.
proof fn lemma_distinct_run<A>(a: Seq<A>, b: Seq<A>, x: A)
    requires
        b.len() > 0,
        forall|i: int| 0 <= i < b.len() ==> #[trigger] b[i] == x,
    ensures
        distinct(a + b) == insert_last(distinct(a), x),
    decreases b.len(),
{
    let rest = b.drop_last();
    assert((a + b).drop_last() =~= a + rest);
    assert((a + b).last() == x);
    if rest.len() > 0 {
        lemma_distinct_run(a, rest, x);
        let d = distinct(a);
        if !d.contains(x) {
            assert(d.push(x)[d.len() as int] == x);
        }
    } else {
        assert(a + rest =~= a);
    }
}

/// The tasks of some stages, none of which is without tasks, are of these stages in this order.
proof fn lemma_stages_of_all_tasks(job: JobView, stages: Seq<usize>)
    requires
        stages.no_duplicates(),
        forall|i: int|
            0 <= i < stages.len() ==> job.stages[(#[trigger] stages[i]) as int].tasks.len() > 0,
    ensures
        task_stages(all_tasks(job, stages)) == stages,
    decreases stages.len(),
{
    let lists = stages.map_values(|s: usize| stage_tasks(job, s));
    let stage_of = |t: TaskTopology| t.stage;
    lists.lemma_flatten_and_flatten_alt_are_equivalent();
    if stages.len() > 0 {
        let rest = stages.drop_last();
        let last = stages[stages.len() - 1];
        let rest_lists = rest.map_values(|s: usize| stage_tasks(job, s));
        rest_lists.lemma_flatten_and_flatten_alt_are_equivalent();
        assert(lists.drop_last() =~= rest_lists);
        assert forall|i: int| 0 <= i < rest.len() implies job.stages[(
        #[trigger] rest[i]) as int].tasks.len() > 0 by {
            assert(rest[i] == stages[i]);
        }
        lemma_stages_of_all_tasks(job, rest);
        let a = all_tasks(job, rest).map_values(stage_of);
        let b = stage_tasks(job, last).map_values(stage_of);
        assert(all_tasks(job, stages) == all_tasks(job, rest) + stage_tasks(job, last));
        assert(all_tasks(job, stages).map_values(stage_of) =~= a + b);
        lemma_distinct_run(a, b, last);
        assert(distinct(a) == rest);
        assert(!rest.contains(last)) by {
            if rest.contains(last) {
                assert(stages[rest.index_of(last)] == last);
            }
        }
        assert(rest.push(last) =~= stages);
    } else {
        assert(lists.flatten_alt().len() == 0);
        assert(all_tasks(job, stages).map_values(stage_of) =~= Seq::empty());
        lemma_distinct(Seq::<usize>::empty());
        assert(stages =~= Seq::empty());
    }
}

/// Whether a job differs from another one in nothing but the attempts at the tasks of the stages of
/// a region, and in what has come of its regions and of itself.
pub open spec fn only_attempted(before: JobView, after: JobView, region: int) -> bool {
    &&& after.graph == before.graph
    &&& after.topology == before.topology
    &&& after.stages.len() == before.stages.len()
    &&& forall|s: int|
        0 <= s < before.stages.len() ==> (#[trigger] after.stages[s]).tasks.len()
            == before.stages[s].tasks.len()
    &&& forall|s: int|
        0 <= s < before.stages.len() && !has_stage(before, region, s)
            ==> #[trigger] after.stages[s] == before.stages[s]
}

/// What a stage reads is what has been decided about it, whatever is decided about the stages after it.
proof fn lemma_inputs_decided(
    target: u64,
    data: &Measurements,
    job_id: JobId,
    job: JobView,
    all: Seq<usize>,
    n: nat,
    i: int,
)
    requires
        n <= all.len(),
        all.no_duplicates(),
        0 <= i < n,
        job.graph.stages.len() == job.stages.len(),
        forall|i: int| 0 <= i < all.len() ==> #[trigger] all[i] < job.stages.len(),
    ensures
        ({
            let before = adapted_stages(target, data, job_id, job, all.take(i));
            let after = adapted_stages(target, data, job_id, job, all.take(n as int));
            let s = all[i] as int;
            after.graph.stages[s].inputs == adapted_stage(
                target,
                data,
                job_id,
                before,
                s,
            ).graph.stages[s].inputs
        }),
    decreases n,
{
    assert(all.take(n as int).drop_last() =~= all.take(n - 1));
    assert(all.take(n as int).last() == all[n - 1]);
    assert forall|j: int| 0 <= j < all.take(n - 1).len() implies #[trigger] all.take(n - 1)[j]
        < job.stages.len() by {
        assert(all.take(n - 1)[j] == all[j]);
    }
    lemma_only_stages_changed(target, data, job_id, job, all.take(n - 1));
    if i < n - 1 {
        lemma_inputs_decided(target, data, job_id, job, all, (n - 1) as nat, i);
        assert(all[i] != all[n - 1]);
    }
}

/// How a region reads shuffled data is chosen once: when it is chosen again after nothing but new
/// attempts at the tasks of its stages, nothing changes. So it is of regions whose stages, once it has
/// been chosen, are not left with inputs from each other for which groups are still to be determined.
pub proof fn lemma_chosen_once(
    target: u64,
    data: &Measurements,
    job_id: JobId,
    job: JobView,
    later: JobView,
    region: int,
)
    requires
        job.linked(),
        0 <= region < job.regions.len(),
        job.tasks_exist(region),
        reads_others(adapted_region(target, data, job_id, job, region), region),
        only_attempted(adapted_region(target, data, job_id, job, region), later, region),
    ensures
        adapted_region(target, data, job_id, later, region) == later,
{
    let stages = task_stages(job.region_tasks(region));
    let middle = adapted_stages(target, data, job_id, job, stages);
    let after = adapted_region(target, data, job_id, job, region);
    lemma_region_stages(job, region);
    lemma_adapted_region(target, data, job_id, job, region);
    lemma_only_stages_changed(target, data, job_id, job, stages);
    assert forall|i: int| 0 <= i < stages.len() implies middle.stages[(
    #[trigger] stages[i]) as int].tasks.len() > 0 by {
        lemma_adapted_keeps_tasks(target, data, job_id, job, stages, stages[i] as int);
    }
    lemma_stages_of_all_tasks(middle, stages);
    assert(after.region_tasks(region) == all_tasks(middle, stages));
    assert(later.region_tasks(region) == all_tasks(middle, stages));
    assert(stages.take(stages.len() as int) =~= stages);
    assert forall|i: int| 0 <= i < stages.len() implies !is_regrouped(
        target,
        data,
        job_id,
        later,
        (#[trigger] stages[i]) as int,
    ) by {
        let s = stages[i] as int;
        let rest = stages.take(i);
        let before = adapted_stages(target, data, job_id, job, rest);
        assert forall|j: int| 0 <= j < rest.len() implies #[trigger] rest[j] < job.stages.len()
            && rest[j] != s by {
            assert(rest[j] == stages[j]);
        }
        lemma_only_stages_changed(target, data, job_id, job, rest);
        lemma_inputs_decided(target, data, job_id, job, stages, stages.len(), i);
        lemma_listed_stage(after, region, i);
        assert(before.graph.stages[s] == job.graph.stages[s]);
        assert forall|k: int| 0 <= k < before.graph.stages[s].inputs.len() implies (
        #[trigger] before.graph.stages[s].inputs[k]).stage < before.graph.stages.len() by {
            assert(job.graph.stages[s].inputs[k].stage < job.stages.len());
        }
        assert forall|u: int| 0 <= u < before.graph.stages.len() implies (
        #[trigger] later.graph.stages[u]).mode == before.graph.stages[u].mode
            && later.graph.stages[u].distribution == before.graph.stages[u].distribution by {
            assert(middle.graph.stages[u].mode == job.graph.stages[u].mode);
            assert(before.graph.stages[u].mode == job.graph.stages[u].mode);
        }
        assert forall|k: int|
            0 <= k < before.graph.stages[s].inputs.len() && #[trigger] later.adaptable_input(
                s,
                k,
            ) implies {
            let u = before.graph.stages[s].inputs[k].stage;
            channel_sizes(&data.index, job_id, later, u) == channel_sizes(
                &data.index,
                job_id,
                before,
                u,
            )
        } by {
            let u = before.graph.stages[s].inputs[k].stage;
            assert(job.graph.stages[s].inputs[k].stage < job.stages.len());
            assert(after.adaptable_input(s, k));
            assert(after.graph.stages[s].inputs[k].stage == u);
            assert(!has_stage(after, region, u as int));
            assert forall|j: int| 0 <= j < stages.len() implies #[trigger] stages[j] != u by {
                if stages[j] == u {
                    lemma_listed_stage(after, region, j);
                }
            }
            assert forall|j: int| 0 <= j < rest.len() implies #[trigger] rest[j] != u by {
                assert(rest[j] == stages[j]);
            }
            assert(later.stages[u as int] == after.stages[u as int]);
            assert(middle.stages[u as int] == job.stages[u as int]);
            assert(middle.graph.stages[u as int] == job.graph.stages[u as int]);
            assert(before.stages[u as int] == job.stages[u as int]);
            assert(before.graph.stages[u as int] == job.graph.stages[u as int]);
            assert(latest_attempts(later, u) =~= latest_attempts(before, u));
            assert(channel_sizes(&data.index, job_id, later, u) =~= channel_sizes(
                &data.index,
                job_id,
                before,
                u,
            ));
        }
        lemma_decided_once(target, data, job_id, before, later, s);
    }
    lemma_nothing_regrouped(target, data, job_id, later, stages);
    assert(stages.map_values(|s: usize| stage_tasks(later, s)) =~= stages.map_values(
        |s: usize| stage_tasks(middle, s),
    )) by {
        assert forall|i: int| 0 <= i < stages.len() implies stage_tasks(
            later,
            #[trigger] stages[i],
        ) == stage_tasks(middle, stages[i]) by {
            assert(later.stages[stages[i] as int].tasks.len()
                == after.stages[stages[i] as int].tasks.len());
            assert(stage_tasks(later, stages[i]) =~= stage_tasks(middle, stages[i]));
        }
    }
    assert(later.topology.regions.update(region, later.topology.regions[region])
        =~= later.topology.regions);
}

}

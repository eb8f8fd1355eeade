//! How often a task can be attempted.

use crate::clock::Timestamp;
use crate::id::JobId;
use crate::job::new_job;
use crate::job_graph::JobGraphView;
use crate::measurements::Measurements;
use crate::scheduler::adapt::{
    adapted_region, adapted_stages, all_tasks, channel_sizes, finds_the_same, is_regrouped,
    lemma_adapted_region, lemma_all_tasks, lemma_group_count, lemma_region_stages,
    lemma_same_choice, stage_tasks,
};
use crate::scheduler::cancel::{canceled_regions, is_listed, lemma_canceled_regions};
use crate::scheduler::choices::{choices_kept, lemma_settled_choices};
use crate::scheduler::laws::lemma_settled_regions;
use crate::scheduler::lifecycle::{
    all_regions_succeeded, any_region_failed, can_refresh, cleaned_job, lemma_settled_shape,
    refreshed_job, reported_job, settled_job, stopped_job,
};
use crate::scheduler::options::SchedulerOptionsView;
use crate::scheduler::output::extended_output;
use crate::scheduler::progress::{has_succeeded, is_exhausted, region_state};
use crate::scheduler::region::{lemma_stages_exist, task_stages};
use crate::scheduler::regroup::{
    depends_on_data, has_stage, is_scheduled_from, lemma_needed_data_kept,
    lemma_nothing_regrouped, lemma_only_stages_changed, lemma_same_order, lemma_scheduling_keeps,
};
use crate::scheduler::schedule::{
    adapted_if_enabled, can_place, can_schedule, is_live, is_ready, lemma_adapted_if_enabled,
    lemma_new_attempts, lemma_prepared_region, prepared_region, scheduled_regions,
    with_new_attempts,
};
use crate::state::{lemma_same_shape, same_shape, ErrorCause, JobState, JobView, TaskState};
use crate::topology::{JobTopologyView, TaskTopology};
use vstd::prelude::*;

verus! {

/// The number of attempts at a task.
pub open spec fn attempt_count(job: JobView, task: TaskTopology) -> nat {
    job.attempts(task.stage as int, task.partition as int).len()
}

/// Whether no task is listed twice in the regions.
pub open spec fn tasks_once(job: JobView) -> bool {
    forall|r1: int, i1: int, r2: int, i2: int|
        0 <= r1 < job.regions.len() && 0 <= i1 < job.region_tasks(r1).len() && 0 <= r2
            < job.regions.len() && 0 <= i2 < job.region_tasks(r2).len()
            && #[trigger] job.region_tasks(r1)[i1] == #[trigger] job.region_tasks(r2)[i2] ==> r1
            == r2 && i1 == i2
}

/// Whether every region holds all tasks of its stages.
pub open spec fn whole_stages(job: JobView) -> bool {
    &&& forall|r1: int, i1: int, r2: int, i2: int|
        0 <= r1 < job.regions.len() && 0 <= i1 < job.region_tasks(r1).len() && 0 <= r2
            < job.regions.len() && 0 <= i2 < job.region_tasks(r2).len() && (
        #[trigger] job.region_tasks(r1)[i1]).stage == (#[trigger] job.region_tasks(r2)[i2]).stage
            ==> r1 == r2
    &&& forall|r: int, i: int, p: int|
        0 <= r < job.regions.len() && 0 <= i < job.region_tasks(r).len() && 0 <= p
            < job.stages[job.region_tasks(r)[i].stage as int].tasks.len()
            ==> #[trigger] is_listed(
            job.region_tasks(r),
            job.region_tasks(r)[i].stage as int,
            p,
        )
}

/// Whether the tasks of every region have been attempted equally often.
pub open spec fn in_step(job: JobView) -> bool {
    forall|r: int, i: int, j: int|
        0 <= r < job.regions.len() && 0 <= i < job.region_tasks(r).len() && 0 <= j
            < job.region_tasks(r).len() ==> attempt_count(job, #[trigger] job.region_tasks(r)[i])
            == attempt_count(job, #[trigger] job.region_tasks(r)[j])
}

/// The number of attempts that a task can have: at least the first one is made.
pub open spec fn attempt_limit(options: SchedulerOptionsView) -> nat {
    if options.task_max_attempts == 0 {
        1
    } else {
        options.task_max_attempts as nat
    }
}

/// Whether no task of a region has been attempted more often than allowed.
pub open spec fn limited(options: SchedulerOptionsView, job: JobView) -> bool {
    forall|r: int, i: int|
        0 <= r < job.regions.len() && 0 <= i < job.region_tasks(r).len() ==> attempt_count(
            job,
            #[trigger] job.region_tasks(r)[i],
        ) <= attempt_limit(options)
}

/// Whether no two regions share a task and, with adaptive reading, every region holds all tasks of its
/// stages.
pub open spec fn tasks_apart(options: SchedulerOptionsView, job: JobView) -> bool {
    &&& tasks_once(job)
    &&& options.adaptive_enabled ==> whole_stages(job)
}

/// Whether the tasks of a job are apart, and have been attempted in step and no more often than
/// allowed.
pub open spec fn within_limits(options: SchedulerOptionsView, job: JobView) -> bool {
    &&& tasks_apart(options, job)
    &&& in_step(job)
    &&& limited(options, job)
}

/// Whether two jobs agree on the number of attempts at every task.
pub open spec fn same_counts(a: JobView, b: JobView) -> bool {
    forall|s: int, p: int|
        #![trigger b.attempts(s, p)]
        a.has_task(s, p) ==> b.attempts(s, p).len() == a.attempts(s, p).len()
}

/// What does not change the shape of a job keeps its tasks apart.
pub proof fn lemma_apart_kept(options: SchedulerOptionsView, a: JobView, b: JobView)
    requires
        a.well_formed(),
        same_shape(a, b),
        tasks_apart(options, a),
    ensures
        tasks_apart(options, b),
{
    assert forall|r1: int, i1: int, r2: int, i2: int|
        0 <= r1 < b.regions.len() && 0 <= i1 < b.region_tasks(r1).len() && 0 <= r2
            < b.regions.len() && 0 <= i2 < b.region_tasks(r2).len()
            && #[trigger] b.region_tasks(r1)[i1] == #[trigger] b.region_tasks(r2)[i2] implies r1
        == r2 && i1 == i2 by {
        assert(a.region_tasks(r1)[i1] == a.region_tasks(r2)[i2]);
    }
    if options.adaptive_enabled {
        assert forall|r1: int, i1: int, r2: int, i2: int|
            0 <= r1 < b.regions.len() && 0 <= i1 < b.region_tasks(r1).len() && 0 <= r2
                < b.regions.len() && 0 <= i2 < b.region_tasks(r2).len() && (
            #[trigger] b.region_tasks(r1)[i1]).stage == (#[trigger] b.region_tasks(r2)[i2]).stage
                implies r1 == r2 by {
            assert(a.region_tasks(r1)[i1].stage == a.region_tasks(r2)[i2].stage);
        }
        assert forall|r: int, i: int, p: int|
            0 <= r < b.regions.len() && 0 <= i < b.region_tasks(r).len() && 0 <= p
                < b.stages[b.region_tasks(r)[i].stage as int].tasks.len() implies #[trigger] is_listed(
            b.region_tasks(r),
            b.region_tasks(r)[i].stage as int,
            p,
        ) by {
            let t = a.region_tasks(r)[i];
            assert(a.has_task(t.stage as int, t.partition as int));
            assert(b.stages[t.stage as int].tasks.len() == a.stages[t.stage as int].tasks.len());
            assert(is_listed(a.region_tasks(r), a.region_tasks(r)[i].stage as int, p));
        }
    }
}

/// What does not change the number of attempts, nor the shape of a job, keeps the limits.
proof fn lemma_limits_kept(options: SchedulerOptionsView, a: JobView, b: JobView)
    requires
        a.well_formed(),
        same_shape(a, b),
        same_counts(a, b),
        within_limits(options, a),
    ensures
        within_limits(options, b),
{
    lemma_apart_kept(options, a, b);
    assert forall|r: int, i: int|
        0 <= r < a.regions.len() && 0 <= i < a.region_tasks(r).len() implies attempt_count(
        b,
        #[trigger] b.region_tasks(r)[i],
    ) == attempt_count(a, a.region_tasks(r)[i]) by {
        let t = a.region_tasks(r)[i];
        assert(a.has_task(t.stage as int, t.partition as int));
        assert(b.attempts(t.stage as int, t.partition as int).len() == a.attempts(
            t.stage as int,
            t.partition as int,
        ).len());
    }
    assert forall|r: int, i: int, j: int|
        0 <= r < b.regions.len() && 0 <= i < b.region_tasks(r).len() && 0 <= j < b.region_tasks(
            r,
        ).len() implies attempt_count(b, #[trigger] b.region_tasks(r)[i]) == attempt_count(
        b,
        #[trigger] b.region_tasks(r)[j],
    ) by {
        assert(attempt_count(a, a.region_tasks(r)[i]) == attempt_count(a, a.region_tasks(r)[j]));
    }
    assert forall|r: int, i: int|
        0 <= r < b.regions.len() && 0 <= i < b.region_tasks(r).len() implies attempt_count(
        b,
        #[trigger] b.region_tasks(r)[i],
    ) <= attempt_limit(options) by {
        assert(attempt_count(a, a.region_tasks(r)[i]) <= attempt_limit(options));
    }
}

/// Dealing with what tasks have reported makes no new attempts.
pub proof fn lemma_settled_counts(max_attempts: nat, job_id: JobId, job: JobView, now: Timestamp)
    requires
        job.well_formed(),
    ensures
        same_counts(job, settled_job(max_attempts, job_id, job, now).0),
{
    let n = job.regions.len();
    let canceled = canceled_regions(job_id, job, n, now).0;
    let extended = extended_output(job_id, canceled).0;
    let settled = settled_job(max_attempts, job_id, job, now).0;
    lemma_settled_shape(max_attempts, job_id, job, now);
    lemma_canceled_regions(job_id, job, n, now);
    assert forall|s: int, p: int|
        #![trigger settled.attempts(s, p)]
        job.has_task(s, p) implies settled.attempts(s, p).len() == job.attempts(s, p).len() by {
        assert(canceled.stages[s].tasks.len() == job.stages[s].tasks.len());
        assert(extended.stages[s].tasks.len() == job.stages[s].tasks.len());
        assert(canceled.attempts(s, p).len() == job.attempts(s, p).len());
        assert(extended.attempts(s, p).len() == canceled.attempts(s, p).len());
        assert(settled.stages[s].tasks == extended.stages[s].tasks);
    }
}

/// New attempts at some tasks leave all other tasks alone.
pub proof fn lemma_other_attempts_kept(
    job: JobView,
    tasks: Seq<TaskTopology>,
    now: Timestamp,
    s: int,
    p: int,
)
    requires
        job.linked(),
        forall|i: int|
            0 <= i < tasks.len() ==> job.has_task(
                (#[trigger] tasks[i]).stage as int,
                tasks[i].partition as int,
            ),
        job.has_task(s, p),
        !is_listed(tasks, s, p),
    ensures
        with_new_attempts(job, tasks, now).attempts(s, p) == job.attempts(s, p),
    decreases tasks.len(),
{
    if tasks.len() > 0 {
        let rest = tasks.drop_last();
        let last = tasks[tasks.len() - 1];
        assert forall|k: int| 0 <= k < rest.len() implies job.has_task(
            (#[trigger] rest[k]).stage as int,
            rest[k].partition as int,
        ) by {
            assert(rest[k] == tasks[k]);
        }
        if is_listed(rest, s, p) {
            let k = choose|k: int|
                0 <= k < rest.len() && (#[trigger] rest[k]).stage == s && rest[k].partition == p;
            assert(tasks[k] == rest[k]);
        }
        lemma_other_attempts_kept(job, rest, now, s, p);
        lemma_new_attempts(job, rest, now);
        let before = with_new_attempts(job, rest, now);
        assert(before.stages[s].tasks.len() == job.stages[s].tasks.len());
        assert(before.stages[last.stage as int].tasks.len()
            == job.stages[last.stage as int].tasks.len());
        assert(last.stage != s || last.partition != p);
    }
}

/// A new attempt at every task of a list that holds none twice adds one attempt to each.
proof fn lemma_new_attempts_counted(
    job: JobView,
    tasks: Seq<TaskTopology>,
    now: Timestamp,
    i: int,
)
    requires
        job.linked(),
        forall|i: int|
            0 <= i < tasks.len() ==> job.has_task(
                (#[trigger] tasks[i]).stage as int,
                tasks[i].partition as int,
            ),
        tasks.no_duplicates(),
        0 <= i < tasks.len(),
    ensures
        attempt_count(with_new_attempts(job, tasks, now), tasks[i]) == attempt_count(job, tasks[i])
            + 1,
    decreases tasks.len(),
{
    let rest = tasks.drop_last();
    let last = tasks[tasks.len() - 1];
    assert forall|k: int| 0 <= k < rest.len() implies job.has_task(
        (#[trigger] rest[k]).stage as int,
        rest[k].partition as int,
    ) by {
        assert(rest[k] == tasks[k]);
    }
    lemma_new_attempts(job, rest, now);
    let before = with_new_attempts(job, rest, now);
    assert(before.stages[last.stage as int].tasks.len()
        == job.stages[last.stage as int].tasks.len());
    if i < tasks.len() - 1 {
        assert(rest[i] == tasks[i]);
        assert(rest.no_duplicates());
        lemma_new_attempts_counted(job, rest, now, i);
        assert(tasks[i] != last);
        assert(before.stages[tasks[i].stage as int].tasks.len()
            == job.stages[tasks[i].stage as int].tasks.len());
    } else {
        if is_listed(rest, last.stage as int, last.partition as int) {
            let k = choose|k: int|
                0 <= k < rest.len() && (#[trigger] rest[k]).stage == last.stage
                    && rest[k].partition == last.partition;
            assert(rest[k] == tasks[k]);
            assert(tasks[k] == last);
        }
        lemma_other_attempts_kept(job, rest, now, last.stage as int, last.partition as int);
    }
}

/// All tasks of different stages are different tasks.
pub proof fn lemma_all_tasks_once(job: JobView, stages: Seq<usize>)
    requires
        stages.no_duplicates(),
        forall|s: int| 0 <= s < stages.len() ==> #[trigger] stages[s] < job.stages.len(),
        forall|s: int|
            0 <= s < job.stages.len() ==> (#[trigger] job.stages[s]).tasks.len() <= usize::MAX,
    ensures
        all_tasks(job, stages).no_duplicates(),
        forall|s: int, p: int|
            #![trigger is_listed(all_tasks(job, stages), s, p)]
            0 <= s <= usize::MAX && stages.contains(s as usize) && job.has_task(s, p) ==> is_listed(
                all_tasks(job, stages),
                s,
                p,
            ),
    decreases stages.len(),
{
    let lists = stages.map_values(|s: usize| stage_tasks(job, s));
    lists.lemma_flatten_and_flatten_alt_are_equivalent();
    if stages.len() == 0 {
        assert(all_tasks(job, stages) =~= Seq::empty());
    } else {
        let rest = stages.drop_last();
        let last = stages.last();
        let rest_lists = rest.map_values(|s: usize| stage_tasks(job, s));
        rest_lists.lemma_flatten_and_flatten_alt_are_equivalent();
        assert(lists.drop_last() =~= rest_lists);
        let before = all_tasks(job, rest);
        let added = stage_tasks(job, last);
        let all = all_tasks(job, stages);
        assert(all == before + added);
        assert forall|s: int| 0 <= s < rest.len() implies #[trigger] rest[s] < job.stages.len() by {
            assert(rest[s] == stages[s]);
        }
        assert(rest.no_duplicates());
        lemma_all_tasks_once(job, rest);
        assert(stages[stages.len() - 1] == last);
        assert(job.stages[last as int].tasks.len() <= usize::MAX);
        assert forall|i: int, j: int| 0 <= i < j < all.len() implies all[i] != all[j] by {
            if j < before.len() {
                assert(before[i] != before[j]);
            } else if i >= before.len() {
                assert(added[i - before.len()].partition != added[j - before.len()].partition);
            } else {
                lemma_all_tasks(job, rest, i);
                let k = rest.index_of(before[i].stage);
                assert(stages[k] == before[i].stage);
                assert(added[j - before.len()].stage == last);
            }
        }
        assert forall|s: int, p: int|
            #![trigger is_listed(all_tasks(job, stages), s, p)]
            0 <= s <= usize::MAX && stages.contains(s as usize) && job.has_task(
                s,
                p,
            ) implies is_listed(all, s, p) by {
            if s == last {
                assert(added[p].stage == s && added[p].partition == p);
                assert(all[before.len() + p] == added[p]);
            } else {
                let k = stages.index_of(s as usize);
                assert(rest[k] == s);
                assert(is_listed(before, s, p));
                let i = choose|i: int|
                    0 <= i < before.len() && (#[trigger] before[i]).stage == s
                        && before[i].partition == p;
                assert(all[i] == before[i]);
            }
        }
    }
}

/// Having some stages read inputs in groups of channels leaves a stage as it is, or gives it tasks that
/// have not been attempted.
pub proof fn lemma_unchanged_or_fresh(
    target: u64,
    data: &Measurements,
    job_id: JobId,
    job: JobView,
    stages: Seq<usize>,
    s: int,
)
    requires
        0 <= s < job.stages.len(),
        forall|i: int| 0 <= i < stages.len() ==> #[trigger] stages[i] < job.stages.len(),
    ensures
        ({
            let after = adapted_stages(target, data, job_id, job, stages);
            &&& after.stages.len() == job.stages.len()
            &&& after.stages[s] == job.stages[s] || forall|p: int|
                0 <= p < after.stages[s].tasks.len() ==> (
                #[trigger] after.stages[s].tasks[p]).len() == 0
            &&& after.stages[s].state == job.stages[s].state
        }),
    decreases stages.len(),
{
    if stages.len() > 0 {
        let rest = stages.drop_last();
        assert forall|i: int| 0 <= i < rest.len() implies #[trigger] rest[i]
            < job.stages.len() by {
            assert(rest[i] == stages[i]);
        }
        lemma_unchanged_or_fresh(target, data, job_id, job, rest, s);
        assert(stages[stages.len() - 1] < job.stages.len());
    }
}

/// Choosing how a region reads shuffled data keeps the tasks apart: the other regions keep their tasks
/// and the attempts at them, and the region holds all tasks of its stages, each of which is as it was
/// or has tasks that have not been attempted.
proof fn lemma_adapted_apart(
    options: SchedulerOptionsView,
    data: &Measurements,
    job_id: JobId,
    job: JobView,
    region: int,
)
    requires
        job.well_formed(),
        0 <= region < job.regions.len(),
        tasks_apart(options, job),
        options.adaptive_enabled,
    ensures
        ({
            let after = adapted_region(
                options.target_partition_size,
                data,
                job_id,
                job,
                region,
            );
            let tasks = after.region_tasks(region);
            &&& tasks.no_duplicates()
            &&& forall|r: int|
                0 <= r < job.regions.len() && r != region ==> #[trigger] after.region_tasks(r)
                    == job.region_tasks(r)
            &&& forall|r: int, i: int|
                0 <= r < job.regions.len() && r != region && 0 <= i < job.region_tasks(r).len() ==> {
                    let s = (#[trigger] job.region_tasks(r)[i]).stage as int;
                    &&& after.stages[s] == job.stages[s]
                    &&& after.graph.stages[s] == job.graph.stages[s]
                }
            &&& forall|i: int|
                0 <= i < tasks.len() ==> attempt_count(after, #[trigger] tasks[i]) == 0 || (exists|
                    j: int,
                |
                    0 <= j < job.region_tasks(region).len() && #[trigger] job.region_tasks(
                        region,
                    )[j] == tasks[i] && after.attempts(
                        tasks[i].stage as int,
                        tasks[i].partition as int,
                    ) == job.attempts(tasks[i].stage as int, tasks[i].partition as int))
            &&& tasks.len() > 0 <==> job.region_tasks(region).len() > 0
            &&& whole_stages(after)
        }),
{
    let target = options.target_partition_size;
    let stages = task_stages(job.region_tasks(region));
    let middle = adapted_stages(target, data, job_id, job, stages);
    let after = adapted_region(target, data, job_id, job, region);
    let old_tasks = job.region_tasks(region);
    let tasks = after.region_tasks(region);
    lemma_adapted_region(target, data, job_id, job, region);
    lemma_stages_exist(old_tasks);
    lemma_region_stages(job, region);
    lemma_only_stages_changed(target, data, job_id, job, stages);
    assert(tasks == all_tasks(middle, stages));
    lemma_all_tasks_once(middle, stages);
    // the stages of a region are not those of another one
    assert forall|r: int, i: int|
        0 <= r < job.regions.len() && r != region && 0 <= i < job.region_tasks(
            r,
        ).len() implies !stages.contains((#[trigger] job.region_tasks(r)[i]).stage) by {
        let s = job.region_tasks(r)[i].stage;
        if stages.contains(s) {
            let k = stages.index_of(s);
            let j = choose|j: int|
                0 <= j < old_tasks.len() && (#[trigger] old_tasks[j]).stage == stages[k];
            assert(job.region_tasks(region)[j].stage == job.region_tasks(r)[i].stage);
        }
    }
    assert forall|r: int, i: int|
        0 <= r < job.regions.len() && r != region && 0 <= i < job.region_tasks(
            r,
        ).len() implies {
        let s = (#[trigger] job.region_tasks(r)[i]).stage as int;
        &&& after.stages[s] == job.stages[s]
        &&& after.graph.stages[s] == job.graph.stages[s]
    } by {
        let s = job.region_tasks(r)[i].stage;
        assert(job.has_task(s as int, job.region_tasks(r)[i].partition as int));
        assert forall|k: int| 0 <= k < stages.len() implies #[trigger] stages[k] != s by {
            assert(stages.contains(stages[k]));
        }
        assert(middle.stages[s as int] == job.stages[s as int]);
        assert(middle.graph.stages[s as int] == job.graph.stages[s as int]);
    }
    assert forall|i: int| 0 <= i < tasks.len() implies attempt_count(after, #[trigger] tasks[i]) == 0
        || (exists|j: int|
        0 <= j < old_tasks.len() && #[trigger] job.region_tasks(region)[j] == tasks[i]
            && after.attempts(tasks[i].stage as int, tasks[i].partition as int) == job.attempts(
            tasks[i].stage as int,
            tasks[i].partition as int,
        )) by {
        lemma_all_tasks(middle, stages, i);
        let t = tasks[i];
        let s = t.stage as int;
        let p = t.partition as int;
        lemma_unchanged_or_fresh(target, data, job_id, job, stages, s);
        if middle.stages[s] == job.stages[s] {
            let k = stages.index_of(t.stage);
            let m = choose|m: int|
                0 <= m < old_tasks.len() && (#[trigger] old_tasks[m]).stage == stages[k];
            assert(job.region_tasks(region)[m] == old_tasks[m]);
            assert(is_listed(job.region_tasks(region), job.region_tasks(region)[m].stage as int, p));
            let q = choose|q: int|
                0 <= q < old_tasks.len() && (#[trigger] old_tasks[q]).stage == s
                    && old_tasks[q].partition == p;
            assert(job.region_tasks(region)[q] == t);
        } else {
            assert(middle.stages[s].tasks[p].len() == 0);
        }
    }
    if tasks.len() > 0 {
        lemma_all_tasks(middle, stages, 0);
        let k = stages.index_of(tasks[0].stage);
        let m = choose|m: int|
            0 <= m < old_tasks.len() && (#[trigger] old_tasks[m]).stage == stages[k];
        assert(old_tasks.len() > 0);
    }
    if old_tasks.len() > 0 {
        let s = old_tasks[0].stage;
        assert(job.region_tasks(region)[0].stage == s);
        assert(stages.contains(s));
        lemma_adapted_keeps_tasks(target, data, job_id, job, stages, s as int);
        assert(job.has_task(s as int, old_tasks[0].partition as int));
        assert(middle.has_task(s as int, 0));
        assert(is_listed(all_tasks(middle, stages), s as int, 0));
    }
    // the regions hold all tasks of their stages
    assert forall|r1: int, i1: int, r2: int, i2: int|
        0 <= r1 < after.regions.len() && 0 <= i1 < after.region_tasks(r1).len() && 0 <= r2
            < after.regions.len() && 0 <= i2 < after.region_tasks(r2).len() && (
        #[trigger] after.region_tasks(r1)[i1]).stage == (
        #[trigger] after.region_tasks(r2)[i2]).stage implies r1 == r2 by {
        if r1 == region && r2 != region {
            lemma_all_tasks(middle, stages, i1);
            assert(after.region_tasks(r2)[i2] == job.region_tasks(r2)[i2]);
            assert(!stages.contains(job.region_tasks(r2)[i2].stage));
        } else if r2 == region && r1 != region {
            lemma_all_tasks(middle, stages, i2);
            assert(after.region_tasks(r1)[i1] == job.region_tasks(r1)[i1]);
            assert(!stages.contains(job.region_tasks(r1)[i1].stage));
        } else if r1 != region && r2 != region {
            assert(job.region_tasks(r1)[i1].stage == job.region_tasks(r2)[i2].stage);
        }
    }
    assert forall|r: int, i: int, p: int|
        0 <= r < after.regions.len() && 0 <= i < after.region_tasks(r).len() && 0 <= p
            < after.stages[after.region_tasks(r)[i].stage as int].tasks.len() implies
        #[trigger] is_listed(after.region_tasks(r), after.region_tasks(r)[i].stage as int, p) by {
        if r == region {
            lemma_all_tasks(middle, stages, i);
        } else {
            let t = job.region_tasks(r)[i];
            assert(job.has_task(t.stage as int, t.partition as int));
            assert(after.stages[t.stage as int] == job.stages[t.stage as int]);
            assert(is_listed(job.region_tasks(r), job.region_tasks(r)[i].stage as int, p));
        }
    }
}

/// A stage that has tasks does not lose all of them when it reads inputs in groups of channels, and one
/// without tasks that no region lists gets none.
pub proof fn lemma_adapted_keeps_tasks(
    target: u64,
    data: &Measurements,
    job_id: JobId,
    job: JobView,
    stages: Seq<usize>,
    s: int,
)
    requires
        0 <= s < job.stages.len(),
        forall|i: int| 0 <= i < stages.len() ==> #[trigger] stages[i] < job.stages.len(),
        job.stages[s].tasks.len() > 0,
    ensures
        adapted_stages(target, data, job_id, job, stages).stages.len() == job.stages.len(),
        adapted_stages(target, data, job_id, job, stages).stages[s].tasks.len() > 0,
    decreases stages.len(),
{
    if stages.len() > 0 {
        let rest = stages.drop_last();
        let last = stages[stages.len() - 1] as int;
        assert forall|i: int| 0 <= i < rest.len() implies #[trigger] rest[i]
            < job.stages.len() by {
            assert(rest[i] == stages[i]);
        }
        lemma_adapted_keeps_tasks(target, data, job_id, job, rest, s);
        let before = adapted_stages(target, data, job_id, job, rest);
        lemma_group_count(
            target,
            data,
            job_id,
            before,
            last,
            before.graph.stages[last].inputs.len(),
        );
    }
}

/// Preparing a region keeps the tasks apart: the other regions keep their tasks, the attempts at them
/// and what their stages read.
pub proof fn lemma_prepared_apart(
    options: SchedulerOptionsView,
    data: &Measurements,
    job_id: JobId,
    job: JobView,
    region: int,
    now: Timestamp,
)
    requires
        job.well_formed(),
        0 <= region < job.regions.len(),
        tasks_apart(options, job),
        can_place(options, data, job_id, job, region),
    ensures
        ({
            let after = prepared_region(options, data, job_id, job, region, now);
            &&& after.well_formed()
            &&& after.regions == job.regions
            &&& tasks_apart(options, after)
            &&& forall|r: int|
                0 <= r < job.regions.len() && r != region ==> #[trigger] after.region_tasks(r)
                    == job.region_tasks(r)
            &&& forall|r: int, i: int|
                0 <= r < job.regions.len() && r != region && 0 <= i < job.region_tasks(r).len() ==> {
                    let t = #[trigger] job.region_tasks(r)[i];
                    &&& after.attempts(t.stage as int, t.partition as int) == job.attempts(
                        t.stage as int,
                        t.partition as int,
                    )
                    &&& after.graph.stages[t.stage as int] == job.graph.stages[t.stage as int]
                }
            &&& after.region_tasks(region).len() > 0 <==> job.region_tasks(region).len() > 0
        }),
{
    assert(job.tasks_exist(region));
    lemma_adapted_if_enabled(options, data, job_id, job, region);
    lemma_prepared_region(options, data, job_id, job, region, now);
    let adapted = adapted_if_enabled(options, data, job_id, job, region);
    let after = prepared_region(options, data, job_id, job, region, now);
    let tasks = adapted.region_tasks(region);
    if options.adaptive_enabled {
        lemma_adapted_apart(options, data, job_id, job, region);
    }
    assert forall|r: int, i: int|
        0 <= r < adapted.regions.len() && 0 <= i < adapted.region_tasks(r).len() implies
        adapted.has_task(
        (#[trigger] adapted.region_tasks(r)[i]).stage as int,
        adapted.region_tasks(r)[i].partition as int,
    ) by {
        if r != region {
            let t = job.region_tasks(r)[i];
            assert(adapted.region_tasks(r)[i] == t);
            assert(job.has_task(t.stage as int, t.partition as int));
            if options.adaptive_enabled {
                assert(adapted.stages[t.stage as int] == job.stages[t.stage as int]);
            }
        }
    }
    assert(adapted.well_formed());
    lemma_new_attempts(adapted, tasks, now);
    assert(after == with_new_attempts(adapted, tasks, now));
    assert(after.region_tasks(region) == tasks);
    assert forall|r: int|
        0 <= r < job.regions.len() && r != region implies #[trigger] after.region_tasks(r)
        == job.region_tasks(r) by {
        assert(adapted.region_tasks(r) == job.region_tasks(r));
    }
    assert forall|r: int, i: int|
        0 <= r < job.regions.len() && r != region && 0 <= i < job.region_tasks(
            r,
        ).len() implies {
        let t = #[trigger] job.region_tasks(r)[i];
        &&& after.attempts(t.stage as int, t.partition as int) == job.attempts(
            t.stage as int,
            t.partition as int,
        )
        &&& after.graph.stages[t.stage as int] == job.graph.stages[t.stage as int]
    } by {
        let t = job.region_tasks(r)[i];
        let s = t.stage as int;
        let p = t.partition as int;
        assert(adapted.region_tasks(r)[i] == t);
        assert(adapted.has_task(s, p));
        assert(adapted.attempts(s, p) == job.attempts(s, p));
        if is_listed(tasks, s, p) {
            let k = choose|k: int|
                0 <= k < tasks.len() && (#[trigger] tasks[k]).stage == s && tasks[k].partition == p;
            assert(adapted.region_tasks(region)[k] == tasks[k]);
            if options.adaptive_enabled {
                assert(adapted.region_tasks(region)[k].stage == adapted.region_tasks(r)[i].stage);
            } else {
                assert(job.region_tasks(region)[k] == job.region_tasks(r)[i]);
            }
            assert(false);
        }
        lemma_other_attempts_kept(adapted, tasks, now, s, p);
    }
    assert forall|r1: int, i1: int, r2: int, i2: int|
        0 <= r1 < after.regions.len() && 0 <= i1 < after.region_tasks(r1).len() && 0 <= r2
            < after.regions.len() && 0 <= i2 < after.region_tasks(r2).len()
            && #[trigger] after.region_tasks(r1)[i1]
            == #[trigger] after.region_tasks(r2)[i2] implies r1 == r2 && i1 == i2 by {
        assert(adapted.region_tasks(r1)[i1] == adapted.region_tasks(r2)[i2]);
        if options.adaptive_enabled {
            assert(adapted.region_tasks(r1)[i1].stage == adapted.region_tasks(r2)[i2].stage);
            if r1 != region {
                assert(job.region_tasks(r1)[i1] == job.region_tasks(r2)[i2]);
            } else {
                assert(tasks[i1] == tasks[i2]);
            }
        } else {
            assert(job.region_tasks(r1)[i1] == job.region_tasks(r2)[i2]);
        }
    }
    if options.adaptive_enabled {
        assert forall|r: int, i: int, p: int|
            0 <= r < after.regions.len() && 0 <= i < after.region_tasks(r).len() && 0 <= p
                < after.stages[after.region_tasks(r)[i].stage as int].tasks.len() implies
            #[trigger] is_listed(
            after.region_tasks(r),
            after.region_tasks(r)[i].stage as int,
            p,
        ) by {
            let t = adapted.region_tasks(r)[i];
            assert(adapted.has_task(t.stage as int, t.partition as int));
            assert(after.stages[t.stage as int].tasks.len()
                == adapted.stages[t.stage as int].tasks.len());
            assert(is_listed(adapted.region_tasks(r), adapted.region_tasks(r)[i].stage as int, p));
        }
        assert forall|r1: int, i1: int, r2: int, i2: int|
            0 <= r1 < after.regions.len() && 0 <= i1 < after.region_tasks(r1).len() && 0 <= r2
                < after.regions.len() && 0 <= i2 < after.region_tasks(r2).len() && (
            #[trigger] after.region_tasks(r1)[i1]).stage == (
            #[trigger] after.region_tasks(r2)[i2]).stage implies r1 == r2 by {
            assert(adapted.region_tasks(r1)[i1].stage == adapted.region_tasks(r2)[i2].stage);
        }
    }
}

/// Whether the stages of a region that has been started are not to be regrouped.
pub open spec fn region_choices_kept(
    options: SchedulerOptionsView,
    data: &Measurements,
    job_id: JobId,
    job: JobView,
    region: int,
) -> bool {
    forall|i: int|
        0 <= i < job.region_tasks(region).len() && attempt_count(
            job,
            #[trigger] job.region_tasks(region)[i],
        ) > 0 ==> !is_regrouped(
            options.target_partition_size,
            data,
            job_id,
            job,
            job.region_tasks(region)[i].stage as int,
        )
}

/// What preparing a region does to the numbers of attempts: all tasks of the region have one attempt
/// more than they had.
proof fn lemma_prepared_counts(
    options: SchedulerOptionsView,
    data: &Measurements,
    job_id: JobId,
    job: JobView,
    region: int,
    now: Timestamp,
)
    requires
        job.well_formed(),
        0 <= region < job.regions.len(),
        within_limits(options, job),
        options.adaptive_enabled ==> region_choices_kept(options, data, job_id, job, region),
    ensures
        ({
            let after = prepared_region(options, data, job_id, job, region, now);
            let tasks = after.region_tasks(region);
            forall|i: int, j: int|
                0 <= i < tasks.len() && 0 <= j < job.region_tasks(region).len() ==> attempt_count(
                    after,
                    #[trigger] tasks[i],
                ) == attempt_count(job, #[trigger] job.region_tasks(region)[j]) + 1
        }),
{
    let target = options.target_partition_size;
    let old_tasks = job.region_tasks(region);
    assert(job.tasks_exist(region));
    lemma_adapted_if_enabled(options, data, job_id, job, region);
    let adapted = adapted_if_enabled(options, data, job_id, job, region);
    let after = prepared_region(options, data, job_id, job, region, now);
    let tasks = adapted.region_tasks(region);
    if options.adaptive_enabled {
        lemma_adapted_apart(options, data, job_id, job, region);
        let stages = task_stages(old_tasks);
        if old_tasks.len() > 0 && attempt_count(job, old_tasks[0]) > 0 {
            assert forall|k: int| 0 <= k < stages.len() implies !is_regrouped(
                target,
                data,
                job_id,
                job,
                (#[trigger] stages[k]) as int,
            ) by {
                lemma_stages_exist(old_tasks);
                let m = choose|m: int|
                    0 <= m < old_tasks.len() && (#[trigger] old_tasks[m]).stage == stages[k];
                assert(attempt_count(job, job.region_tasks(region)[m]) == attempt_count(
                    job,
                    job.region_tasks(region)[0],
                ));
            }
            lemma_nothing_regrouped(target, data, job_id, job, stages);
        }
    } else {
        assert forall|i: int, j: int| 0 <= i < j < tasks.len() implies tasks[i] != tasks[j] by {
            assert(job.region_tasks(region)[i] == tasks[i]);
            assert(job.region_tasks(region)[j] == tasks[j]);
        }
    }
    assert forall|i: int, j: int|
        0 <= i < tasks.len() && 0 <= j < old_tasks.len() implies attempt_count(
        adapted,
        #[trigger] tasks[i],
    ) == attempt_count(job, #[trigger] old_tasks[j]) by {
        assert(job.region_tasks(region)[j] == old_tasks[j]);
        assert(attempt_count(job, job.region_tasks(region)[j]) == attempt_count(
            job,
            job.region_tasks(region)[0],
        ));
        if options.adaptive_enabled {
            if attempt_count(job, old_tasks[0]) > 0 {
                let stages = task_stages(old_tasks);
                lemma_region_stages(job, region);
                lemma_tasks_are_old(job, region, i);
                let q = choose|q: int|
                    0 <= q < old_tasks.len() && #[trigger] old_tasks[q] == tasks[i];
                assert(attempt_count(job, job.region_tasks(region)[q]) == attempt_count(
                    job,
                    job.region_tasks(region)[0],
                ));
            } else if attempt_count(adapted, tasks[i]) != 0 {
                let q = choose|q: int|
                    0 <= q < old_tasks.len() && #[trigger] job.region_tasks(region)[q] == tasks[i];
                assert(attempt_count(job, job.region_tasks(region)[q]) == attempt_count(
                    job,
                    job.region_tasks(region)[0],
                ));
            }
        } else {
            assert(attempt_count(job, job.region_tasks(region)[i]) == attempt_count(
                job,
                job.region_tasks(region)[j],
            ));
        }
    }
    assert forall|i: int| 0 <= i < tasks.len() implies adapted.has_task(
        (#[trigger] tasks[i]).stage as int,
        tasks[i].partition as int,
    ) by {
        assert(tasks[i] == adapted.region_tasks(region)[i]);
    }
    lemma_new_attempts(adapted, tasks, now);
    assert(after.region_tasks(region) == tasks);
    assert forall|i: int, j: int|
        0 <= i < tasks.len() && 0 <= j < old_tasks.len() implies attempt_count(
        after,
        #[trigger] tasks[i],
    ) == attempt_count(job, #[trigger] old_tasks[j]) + 1 by {
        lemma_new_attempts_counted(adapted, tasks, now, i);
        assert(attempt_count(adapted, tasks[i]) == attempt_count(job, old_tasks[j]));
    }
}

/// All tasks of the stages of a region that holds all of them are its tasks.
proof fn lemma_tasks_are_old(job: JobView, region: int, i: int)
    requires
        job.well_formed(),
        0 <= region < job.regions.len(),
        whole_stages(job),
        0 <= i < all_tasks(job, task_stages(job.region_tasks(region))).len(),
    ensures
        exists|q: int|
            0 <= q < job.region_tasks(region).len() && #[trigger] job.region_tasks(region)[q]
                == all_tasks(job, task_stages(job.region_tasks(region)))[i],
{
    let old_tasks = job.region_tasks(region);
    let stages = task_stages(old_tasks);
    let t = all_tasks(job, stages)[i];
    lemma_region_stages(job, region);
    lemma_all_tasks(job, stages, i);
    lemma_stages_exist(old_tasks);
    let k = stages.index_of(t.stage);
    let m = choose|m: int| 0 <= m < old_tasks.len() && (#[trigger] old_tasks[m]).stage == stages[k];
    assert(job.region_tasks(region)[m] == old_tasks[m]);
    assert(is_listed(
        job.region_tasks(region),
        job.region_tasks(region)[m].stage as int,
        t.partition as int,
    ));
    let q = choose|q: int|
        0 <= q < old_tasks.len() && (#[trigger] old_tasks[q]).stage == t.stage
            && old_tasks[q].partition == t.partition;
    assert(job.region_tasks(region)[q] == t);
}

/// Scheduling a region that is running keeps the limits.
proof fn lemma_prepared_limits(
    options: SchedulerOptionsView,
    data: &Measurements,
    job_id: JobId,
    job: JobView,
    region: int,
    now: Timestamp,
)
    requires
        job.well_formed(),
        0 <= region < job.regions.len(),
        within_limits(options, job),
        options.adaptive_enabled ==> region_choices_kept(options, data, job_id, job, region),
        is_ready(job, region),
        can_place(options, data, job_id, job, region),
        region_state(job, options.task_max_attempts as nat, region) is Running,
    ensures
        within_limits(options, prepared_region(options, data, job_id, job, region, now)),
{
    let max = options.task_max_attempts as nat;
    let after = prepared_region(options, data, job_id, job, region, now);
    let old_tasks = job.region_tasks(region);
    let tasks = after.region_tasks(region);
    lemma_prepared_apart(options, data, job_id, job, region, now);
    lemma_prepared_counts(options, data, job_id, job, region, now);
    // some task has not succeeded, although it is not live: it can be attempted once more
    let open = choose|i: int|
        0 <= i < old_tasks.len() && !has_succeeded(job, #[trigger] old_tasks[i]);
    assert(0 <= open < old_tasks.len() && !has_succeeded(job, old_tasks[open]));
    assert(!is_live(job, job.region_tasks(region)[open]));
    assert(!is_exhausted(job, max, old_tasks[open]));
    assert(job.has_task(old_tasks[open].stage as int, old_tasks[open].partition as int)) by {
        assert(old_tasks[open] == job.region_tasks(region)[open]);
    }
    assert(attempt_count(job, old_tasks[open]) + 1 <= attempt_limit(options));
    assert forall|r: int, i: int|
        0 <= r < after.regions.len() && 0 <= i < after.region_tasks(r).len() implies attempt_count(
        after,
        #[trigger] after.region_tasks(r)[i],
    ) <= attempt_limit(options) by {
        if r == region {
            assert(attempt_count(after, tasks[i]) == attempt_count(
                job,
                job.region_tasks(region)[open],
            ) + 1);
        } else {
            assert(after.region_tasks(r)[i] == job.region_tasks(r)[i]);
            assert(attempt_count(job, job.region_tasks(r)[i]) <= attempt_limit(options));
        }
    }
    assert forall|r: int, i: int, j: int|
        0 <= r < after.regions.len() && 0 <= i < after.region_tasks(r).len() && 0 <= j
            < after.region_tasks(r).len() implies attempt_count(
        after,
        #[trigger] after.region_tasks(r)[i],
    ) == attempt_count(after, #[trigger] after.region_tasks(r)[j]) by {
        if r == region {
            assert(attempt_count(after, tasks[i]) == attempt_count(
                job,
                job.region_tasks(region)[open],
            ) + 1);
            assert(attempt_count(after, tasks[j]) == attempt_count(
                job,
                job.region_tasks(region)[open],
            ) + 1);
        } else {
            assert(after.region_tasks(r)[i] == job.region_tasks(r)[i]);
            assert(after.region_tasks(r)[j] == job.region_tasks(r)[j]);
            assert(attempt_count(job, job.region_tasks(r)[i]) == attempt_count(
                job,
                job.region_tasks(r)[j],
            ));
        }
    }
}

/// The state of a region follows from its tasks and the attempts at them.
pub proof fn lemma_same_attempts_same_state(a: JobView, b: JobView, max_attempts: nat, region: int)
    requires
        a.well_formed(),
        b.well_formed(),
        0 <= region < a.regions.len(),
        a.regions.len() == b.regions.len(),
        a.region_tasks(region) == b.region_tasks(region),
        forall|i: int|
            0 <= i < a.region_tasks(region).len() ==> b.attempts(
                (#[trigger] a.region_tasks(region)[i]).stage as int,
                a.region_tasks(region)[i].partition as int,
            ) == a.attempts(
                a.region_tasks(region)[i].stage as int,
                a.region_tasks(region)[i].partition as int,
            ),
    ensures
        region_state(a, max_attempts, region) == region_state(b, max_attempts, region),
{
    let tasks = a.region_tasks(region);
    assert forall|i: int| 0 <= i < tasks.len() implies is_exhausted(
        a,
        max_attempts,
        #[trigger] tasks[i],
    ) == is_exhausted(b, max_attempts, tasks[i]) && has_succeeded(a, tasks[i]) == has_succeeded(
        b,
        tasks[i],
    ) by {
        let t = a.region_tasks(region)[i];
        assert(b.region_tasks(region)[i] == t);
        assert(a.has_task(t.stage as int, t.partition as int));
        assert(b.has_task(t.stage as int, t.partition as int));
    }
}

/// Scheduling regions keeps the tasks apart, and leaves the regions that have not been looked at alone.
pub proof fn lemma_scheduled_apart(
    options: SchedulerOptionsView,
    data: &Measurements,
    job_id: JobId,
    job: JobView,
    n: nat,
    now: Timestamp,
)
    requires
        job.well_formed(),
        n <= job.regions.len(),
        tasks_apart(options, job),
        can_schedule(options, data, job_id, job, n, now),
    ensures
        ({
            let after = scheduled_regions(options, data, job_id, job, n, now).0;
            &&& after.well_formed()
            &&& after.regions == job.regions
            &&& tasks_apart(options, after)
            &&& forall|r: int|
                n <= r < job.regions.len() ==> #[trigger] after.region_tasks(r)
                    == job.region_tasks(r)
            &&& forall|r: int, i: int|
                n <= r < job.regions.len() && 0 <= i < job.region_tasks(r).len() ==> {
                    let t = #[trigger] job.region_tasks(r)[i];
                    &&& after.attempts(t.stage as int, t.partition as int) == job.attempts(
                        t.stage as int,
                        t.partition as int,
                    )
                    &&& after.graph.stages[t.stage as int] == job.graph.stages[t.stage as int]
                }
        }),
    decreases n,
{
    if n > 0 {
        let r = n - 1;
        lemma_scheduled_apart(options, data, job_id, job, r as nat, now);
        let before = scheduled_regions(options, data, job_id, job, r as nat, now).0;
        let after = scheduled_regions(options, data, job_id, job, n, now).0;
        if is_ready(before, r) {
            lemma_prepared_apart(options, data, job_id, before, r, now);
            assert forall|q: int| n <= q < job.regions.len() implies #[trigger] after.region_tasks(
                q,
            ) == job.region_tasks(q) by {
                assert(before.region_tasks(q) == job.region_tasks(q));
            }
            assert forall|q: int, i: int|
                n <= q < job.regions.len() && 0 <= i < job.region_tasks(q).len() implies {
                let t = #[trigger] job.region_tasks(q)[i];
                &&& after.attempts(t.stage as int, t.partition as int) == job.attempts(
                    t.stage as int,
                    t.partition as int,
                )
                &&& after.graph.stages[t.stage as int] == job.graph.stages[t.stage as int]
            } by {
                assert(before.region_tasks(q)[i] == job.region_tasks(q)[i]);
            }
        }
    }
}

/// A region that is about to be scheduled is not to be regrouped if that was so before any region was
/// scheduled.
proof fn lemma_region_choices_kept(
    options: SchedulerOptionsView,
    data: &Measurements,
    job_id: JobId,
    job: JobView,
    later: JobView,
    region: int,
)
    requires
        job.well_formed(),
        later.well_formed(),
        options.adaptive_enabled,
        whole_stages(job),
        whole_stages(later),
        depends_on_data(job),
        is_scheduled_from(job, later, region),
        later.regions == job.regions,
        0 <= region < job.regions.len(),
        is_ready(later, region),
        later.region_tasks(region) == job.region_tasks(region),
        forall|i: int|
            0 <= i < job.region_tasks(region).len() ==> {
                let t = #[trigger] job.region_tasks(region)[i];
                &&& later.attempts(t.stage as int, t.partition as int) == job.attempts(
                    t.stage as int,
                    t.partition as int,
                )
                &&& later.graph.stages[t.stage as int] == job.graph.stages[t.stage as int]
            },
        region_choices_kept(options, data, job_id, job, region),
    ensures
        region_choices_kept(options, data, job_id, later, region),
{
    let target = options.target_partition_size;
    assert forall|i: int|
        0 <= i < later.region_tasks(region).len() && attempt_count(
            later,
            #[trigger] later.region_tasks(region)[i],
        ) > 0 implies !is_regrouped(
        target,
        data,
        job_id,
        later,
        later.region_tasks(region)[i].stage as int,
    ) by {
        let t = job.region_tasks(region)[i];
        let s = t.stage as int;
        assert(later.region_tasks(region)[i] == t);
        assert(job.has_task(s, t.partition as int));
        assert(attempt_count(job, job.region_tasks(region)[i]) > 0);
        assert(!is_regrouped(target, data, job_id, job, s));
        assert(has_stage(job, region, s));
        assert forall|k: int| 0 <= k < job.graph.stages[s].inputs.len() implies {
            let u = (#[trigger] job.graph.stages[s].inputs[k]).stage;
            &&& later.graph.stages[u as int].mode == job.graph.stages[u as int].mode
            &&& later.graph.stages[u as int].distribution
                == job.graph.stages[u as int].distribution
            &&& job.adaptable_input(s, k) ==> channel_sizes(&data.index, job_id, later, u)
                == channel_sizes(&data.index, job_id, job, u)
        } by {
            let u = job.graph.stages[s].inputs[k].stage;
            assert(u < job.stages.len());
            assert(later.graph.stages[u as int].mode == job.graph.stages[u as int].mode);
            if job.adaptable_input(s, k) {
                assert(later.adaptable_input(s, k));
                lemma_needed_data_kept(job, later, region, s, k);
                assert(channel_sizes(&data.index, job_id, later, u) =~= channel_sizes(
                    &data.index,
                    job_id,
                    job,
                    u,
                ));
            }
        }
        assert(finds_the_same(data, data, job_id, job, later, s));
        lemma_same_choice(
            target,
            data,
            data,
            job_id,
            job,
            later,
            s,
            job.graph.stages[s].inputs.len(),
        );
    }
}

/// Scheduling the regions of a job none of whose regions has failed keeps the limits.
proof fn lemma_scheduled_limits(
    options: SchedulerOptionsView,
    data: &Measurements,
    job_id: JobId,
    job: JobView,
    n: nat,
    now: Timestamp,
)
    requires
        job.well_formed(),
        n <= job.regions.len(),
        can_schedule(options, data, job_id, job, n, now),
        within_limits(options, job),
        options.adaptive_enabled ==> depends_on_data(job) && choices_kept(
            options,
            data,
            job_id,
            job,
        ),
        forall|r: int|
            0 <= r < job.regions.len() ==> #[trigger] job.regions[r] == region_state(
                job,
                options.task_max_attempts as nat,
                r,
            ),
        !any_region_failed(job),
    ensures
        within_limits(options, scheduled_regions(options, data, job_id, job, n, now).0),
    decreases n,
{
    if n > 0 {
        let r = n - 1;
        let max = options.task_max_attempts as nat;
        lemma_scheduled_limits(options, data, job_id, job, r as nat, now);
        lemma_scheduled_apart(options, data, job_id, job, r as nat, now);
        lemma_scheduling_keeps(options, data, job_id, job, r as nat, now);
        let before = scheduled_regions(options, data, job_id, job, r as nat, now).0;
        if is_ready(before, r) {
            assert(before.region_tasks(r) == job.region_tasks(r));
            assert forall|i: int| 0 <= i < job.region_tasks(r).len() implies before.attempts(
                (#[trigger] job.region_tasks(r)[i]).stage as int,
                job.region_tasks(r)[i].partition as int,
            ) == job.attempts(
                job.region_tasks(r)[i].stage as int,
                job.region_tasks(r)[i].partition as int,
            ) && before.graph.stages[job.region_tasks(r)[i].stage as int]
                == job.graph.stages[job.region_tasks(r)[i].stage as int] by {}
            lemma_same_attempts_same_state(job, before, max, r);
            assert(job.regions[r] == region_state(job, max, r));
            assert(!(job.regions[r] is Failed));
            if options.adaptive_enabled {
                assert(region_choices_kept(options, data, job_id, job, r));
                lemma_region_choices_kept(options, data, job_id, job, before, r);
            }
            lemma_prepared_limits(options, data, job_id, before, r, now);
        }
    }
}

/// A job that has just been created is within its limits, as long as its regions list no task twice,
/// and, with adaptive reading, hold all tasks of their stages.
pub proof fn lemma_new_job_within_limits(
    options: SchedulerOptionsView,
    graph: JobGraphView,
    topology: JobTopologyView,
    state: JobState,
    now: Timestamp,
)
    requires
        new_job(graph, topology, state, now).well_formed(),
        tasks_once(new_job(graph, topology, state, now)),
        options.adaptive_enabled ==> whole_stages(new_job(graph, topology, state, now)),
    ensures
        within_limits(options, new_job(graph, topology, state, now)),
{
    let job = new_job(graph, topology, state, now);
    assert forall|r: int, i: int|
        0 <= r < job.regions.len() && 0 <= i < job.region_tasks(r).len() implies attempt_count(
        job,
        #[trigger] job.region_tasks(r)[i],
    ) == 0 by {
        let t = job.region_tasks(r)[i];
        assert(job.has_task(t.stage as int, t.partition as int));
    }
}

/// No task is attempted more often than allowed: a job that is within its limits stays so, whatever
/// is reported of its tasks.
pub proof fn lemma_reported_within_limits(
    options: SchedulerOptionsView,
    job: JobView,
    stage: int,
    partition: int,
    attempt: int,
    state: TaskState,
    message: Option<String>,
    cause: Option<ErrorCause>,
    now: Timestamp,
)
    requires
        job.well_formed(),
        within_limits(options, job),
    ensures
        within_limits(
            options,
            reported_job(job, stage, partition, attempt, state, message, cause, now),
        ),
{
    let after = reported_job(job, stage, partition, attempt, state, message, cause, now);
    assert(same_counts(job, after));
    lemma_limits_kept(options, job, after);
}

/// All tasks of the regions of a job still exist once it has been refreshed, if the regions share no
/// tasks and, with adaptive reading, hold all tasks of their stages.
pub proof fn lemma_refreshed_well_formed(
    options: SchedulerOptionsView,
    data: &Measurements,
    job_id: JobId,
    job: JobView,
    now: Timestamp,
)
    requires
        job.well_formed(),
        can_refresh(options, data, job_id, job, now),
        tasks_apart(options, job),
    ensures
        refreshed_job(options, data, job_id, job, now).0.well_formed(),
        tasks_apart(options, refreshed_job(options, data, job_id, job, now).0),
{
    let max = options.task_max_attempts as nat;
    let settled = settled_job(max, job_id, job, now).0;
    let after = refreshed_job(options, data, job_id, job, now).0;
    if job.state is Running {
        lemma_settled_shape(max, job_id, job, now);
        lemma_apart_kept(options, job, settled);
        if any_region_failed(settled) || all_regions_succeeded(settled) {
            lemma_same_shape(settled, after);
            lemma_apart_kept(options, settled, after);
        } else {
            lemma_scheduled_apart(options, data, job_id, settled, settled.regions.len(), now);
        }
    }
}

/// No task is attempted more often than allowed: a job that is within its limits stays so when it is
/// refreshed. With adaptive reading, that is so as long as the tasks of regions that have been started
/// are not grouped anew, which is what happens if the sizes of the data and the plans stay the same.
pub proof fn lemma_refreshed_within_limits(
    options: SchedulerOptionsView,
    data: &Measurements,
    job_id: JobId,
    job: JobView,
    now: Timestamp,
)
    requires
        job.well_formed(),
        can_refresh(options, data, job_id, job, now),
        within_limits(options, job),
        options.adaptive_enabled ==> depends_on_data(job) && choices_kept(
            options,
            data,
            job_id,
            job,
        ),
    ensures
        within_limits(options, refreshed_job(options, data, job_id, job, now).0),
{
    let max = options.task_max_attempts as nat;
    let settled = settled_job(max, job_id, job, now).0;
    let after = refreshed_job(options, data, job_id, job, now).0;
    if job.state is Running {
        lemma_settled_shape(max, job_id, job, now);
        lemma_settled_counts(max, job_id, job, now);
        lemma_limits_kept(options, job, settled);
        lemma_settled_regions(max, job_id, job, now);
        if options.adaptive_enabled {
            lemma_settled_choices(options, data, job_id, job, now);
            lemma_same_order(job, settled);
        }
        if any_region_failed(settled) || all_regions_succeeded(settled) {
            assert(same_counts(settled, after));
            lemma_limits_kept(options, settled, after);
        } else {
            lemma_scheduled_limits(options, data, job_id, settled, settled.regions.len(), now);
        }
    }
}

/// No task is attempted more often than allowed: a job that is within its limits stays so when it is
/// cleaned up or stopped.
pub proof fn lemma_ended_within_limits(options: SchedulerOptionsView, job: JobView, now: Timestamp)
    requires
        job.well_formed(),
        within_limits(options, job),
    ensures
        within_limits(options, cleaned_job(job, now)),
        within_limits(options, stopped_job(job, now)),
{
    assert(same_counts(job, cleaned_job(job, now)));
    lemma_limits_kept(options, job, cleaned_job(job, now));
    assert(same_counts(job, stopped_job(job, now)));
    lemma_limits_kept(options, job, stopped_job(job, now));
}

}

//! How long the choice of how a region reads shuffled data lasts.

use crate::clock::Timestamp;
use crate::id::JobId;
use crate::job::new_job;
use crate::job_graph::JobGraphView;
use crate::measurements::Measurements;
use crate::scheduler::adapt::{
    adapted_region, adapted_stages, channel_sizes, finds_the_same, is_regrouped, latest_attempts,
    lemma_adapted_region, lemma_all_tasks, lemma_region_stages, lemma_same_choice,
};
use crate::scheduler::laws::lemma_settled_regions;
use crate::scheduler::lifecycle::{
    all_regions_succeeded, any_region_failed, can_refresh, cleaned_job, lemma_settled_shape,
    refreshed_job, reported_job, settled_job, stopped_job,
};
use crate::scheduler::limits::{
    attempt_count, lemma_apart_kept, lemma_prepared_apart, lemma_scheduled_apart,
    lemma_settled_counts, region_choices_kept, same_counts, tasks_apart,
};
use crate::scheduler::options::SchedulerOptionsView;
use crate::scheduler::order::{in_order, is_done, is_started, lemma_settled_in_order};
use crate::scheduler::progress::{has_succeeded, is_exhausted, region_state};
use crate::scheduler::region::task_stages;
use crate::scheduler::regroup::{
    depends_on, depends_on_data, has_stage, is_left_alone, is_scheduled_from,
    lemma_data_is_left_alone, lemma_decided_once, lemma_listed_stage, lemma_only_stages_changed,
    lemma_preparation_keeps, lemma_same_order, lemma_scheduling_keeps,
    lemma_stages_decided,
};
use crate::scheduler::schedule::{
    can_place, can_schedule, is_ready, lemma_new_attempts, lemma_scheduled_keeps, prepared_region,
    scheduled_regions,
};
use crate::scheduler::stability::{
    created_or_kept, lemma_same_readiness, lemma_scheduled_or_kept,
};
use crate::state::{same_shape, ErrorCause, JobState, JobView, TaskState};
use crate::topology::JobTopologyView;
use vstd::prelude::*;

verus! {

/// Whether the stages of regions that have been started are not to be regrouped.
pub open spec fn choices_kept(
    options: SchedulerOptionsView,
    data: &Measurements,
    job_id: JobId,
    job: JobView,
) -> bool {
    forall|r: int|
        0 <= r < job.regions.len() ==> #[trigger] region_choices_kept(
            options,
            data,
            job_id,
            job,
            r,
        )
}

/// What changes neither the number of attempts nor the shape of a job keeps its choices.
pub proof fn lemma_choices_kept(
    options: SchedulerOptionsView,
    data: &Measurements,
    job_id: JobId,
    a: JobView,
    b: JobView,
)
    requires
        a.well_formed(),
        same_shape(a, b),
        same_counts(a, b),
        choices_kept(options, data, job_id, a),
    ensures
        choices_kept(options, data, job_id, b),
{
    let target = options.target_partition_size;
    assert forall|r: int| 0 <= r < b.regions.len() implies #[trigger] region_choices_kept(
        options,
        data,
        job_id,
        b,
        r,
    ) by {
        assert(region_choices_kept(options, data, job_id, a, r));
        assert forall|i: int|
            0 <= i < b.region_tasks(r).len() && attempt_count(b, #[trigger] b.region_tasks(r)[i])
                > 0 implies !is_regrouped(
            target,
            data,
            job_id,
            b,
            b.region_tasks(r)[i].stage as int,
        ) by {
            let t = a.region_tasks(r)[i];
            let s = t.stage as int;
            assert(b.region_tasks(r)[i] == t);
            assert(a.has_task(s, t.partition as int));
            assert(b.attempts(s, t.partition as int).len() == a.attempts(
                s,
                t.partition as int,
            ).len());
            assert(attempt_count(a, a.region_tasks(r)[i]) > 0);
            assert forall|k: int| 0 <= k < a.graph.stages[s].inputs.len() implies channel_sizes(
                &data.index,
                job_id,
                b,
                (#[trigger] a.graph.stages[s].inputs[k]).stage,
            ) == channel_sizes(&data.index, job_id, a, a.graph.stages[s].inputs[k].stage) by {
                lemma_same_attempts(a, b, a.graph.stages[s].inputs[k].stage);
            }
            assert(finds_the_same(data, data, job_id, a, b, s));
            lemma_same_choice(
                target,
                data,
                data,
                job_id,
                a,
                b,
                s,
                a.graph.stages[s].inputs.len(),
            );
        }
    }
}

/// The latest attempts follow from the numbers of attempts.
proof fn lemma_same_attempts(a: JobView, b: JobView, u: usize)
    requires
        a.well_formed(),
        same_shape(a, b),
        same_counts(a, b),
        u < a.stages.len(),
    ensures
        latest_attempts(b, u) == latest_attempts(a, u),
{
    assert(b.stages[u as int].tasks.len() == a.stages[u as int].tasks.len());
    assert forall|p: int| 0 <= p < a.stages[u as int].tasks.len() implies #[trigger] latest_attempts(
        b,
        u,
    )[p] == latest_attempts(a, u)[p] by {
        assert(a.has_task(u as int, p));
        assert(b.attempts(u as int, p).len() == a.attempts(u as int, p).len());
    }
    assert(latest_attempts(b, u) =~= latest_attempts(a, u));
}

/// Dealing with what tasks have reported keeps the choices.
pub proof fn lemma_settled_choices(
    options: SchedulerOptionsView,
    data: &Measurements,
    job_id: JobId,
    job: JobView,
    now: Timestamp,
)
    requires
        job.well_formed(),
        choices_kept(options, data, job_id, job),
    ensures
        choices_kept(
            options,
            data,
            job_id,
            settled_job(options.task_max_attempts as nat, job_id, job, now).0,
        ),
{
    let max = options.task_max_attempts as nat;
    lemma_settled_shape(max, job_id, job, now);
    lemma_settled_counts(max, job_id, job, now);
    lemma_choices_kept(options, data, job_id, job, settled_job(max, job_id, job, now).0);
}

/// What scheduling keeps of the choices: no region gets other stages, and a region that was ready is
/// not to be regrouped once it has been scheduled.
spec fn choices_made(
    target: u64,
    data: &Measurements,
    job_id: JobId,
    job: JobView,
    after: JobView,
    n: int,
) -> bool {
    &&& forall|r: int, s: int|
        0 <= r < job.regions.len() && #[trigger] has_stage(after, r, s) ==> has_stage(job, r, s)
    &&& forall|r: int, i: int|
        0 <= r < n && 0 <= i < after.region_tasks(r).len() && is_ready(job, r) ==> !is_regrouped(
            target,
            data,
            job_id,
            after,
            (#[trigger] after.region_tasks(r)[i]).stage as int,
        )
}

/// The sizes of data that is left alone stay the same.
proof fn lemma_same_sizes_left_alone(
    data: &Measurements,
    job_id: JobId,
    job: JobView,
    a: JobView,
    n: int,
    u: usize,
)
    requires
        is_scheduled_from(job, a, n),
        u < job.stages.len(),
        job.graph.stages.len() == job.stages.len(),
        is_left_alone(job, u as int),
    ensures
        channel_sizes(&data.index, job_id, a, u) == channel_sizes(&data.index, job_id, job, u),
{
    assert(a.stages[u as int] == job.stages[u as int]);
    assert(a.graph.stages[u as int].distribution == job.graph.stages[u as int].distribution);
    assert(latest_attempts(a, u) =~= latest_attempts(job, u));
    assert(channel_sizes(&data.index, job_id, a, u) =~= channel_sizes(&data.index, job_id, job, u));
}

/// The data whose sizes a region needs that was ready is left alone.
proof fn lemma_ready_data_left_alone(job: JobView, later: JobView, n: int, r: int, s: int, k: int)
    requires
        job.well_formed(),
        depends_on_data(job),
        is_scheduled_from(job, later, n),
        0 <= r < job.regions.len(),
        is_ready(job, r),
        has_stage(job, r, s),
        0 <= s < job.graph.stages.len(),
        0 <= k < job.graph.stages[s].inputs.len(),
        later.adaptable_input(s, k),
    ensures
        job.adaptable_input(s, k),
        later.graph.stages[s].inputs[k].stage == job.graph.stages[s].inputs[k].stage,
        job.graph.stages[s].inputs[k].stage < job.stages.len(),
        is_left_alone(job, job.graph.stages[s].inputs[k].stage as int),
        !has_stage(job, r, job.graph.stages[s].inputs[k].stage as int),
{
    let u = job.graph.stages[s].inputs[k].stage;
    assert(later.graph.stages[s].inputs[k].stage == u);
    assert(job.graph.stages[s].inputs[k].stage < job.stages.len());
    assert(later.graph.stages[u as int].mode == job.graph.stages[u as int].mode);
    assert(job.adaptable_input(s, k));
    assert forall|q: int| 0 <= q < job.regions.len() && #[trigger] depends_on(
        job,
        r,
        q,
    ) implies job.regions[q] is Succeeded by {
        let d = choose|d: int|
            0 <= d < job.topology.regions[r].dependencies.len()
                && #[trigger] job.topology.regions[r].dependencies[d] == q;
        assert(job.regions[job.topology.regions[r].dependencies[d] as int] is Succeeded);
    }
    lemma_data_is_left_alone(job, r, s, k);
}

/// A region that has just been prepared is not to be regrouped.
proof fn lemma_prepared_choice(
    options: SchedulerOptionsView,
    data: &Measurements,
    job_id: JobId,
    job: JobView,
    before: JobView,
    region: int,
    now: Timestamp,
    i: int,
)
    requires
        job.well_formed(),
        before.well_formed(),
        options.adaptive_enabled,
        tasks_apart(options, before),
        depends_on_data(job),
        is_scheduled_from(job, before, region),
        before.regions == job.regions,
        0 <= region < job.regions.len(),
        is_ready(before, region),
        is_ready(job, region),
        can_place(options, data, job_id, before, region),
        0 <= i < prepared_region(options, data, job_id, before, region, now).region_tasks(
            region,
        ).len(),
    ensures
        ({
            let after = prepared_region(options, data, job_id, before, region, now);
            let s = after.region_tasks(region)[i].stage as int;
            &&& !is_regrouped(options.target_partition_size, data, job_id, after, s)
            &&& has_stage(job, region, s)
        }),
{
    let target = options.target_partition_size;
    let stages = task_stages(before.region_tasks(region));
    let middle = adapted_stages(target, data, job_id, before, stages);
    let adapted = adapted_region(target, data, job_id, before, region);
    let after = prepared_region(options, data, job_id, before, region, now);
    let tasks = adapted.region_tasks(region);
    assert(before.topology.regions[region] == job.topology.regions[region]);
    lemma_adapted_region(target, data, job_id, before, region);
    lemma_region_stages(before, region);
    lemma_only_stages_changed(target, data, job_id, before, stages);
    lemma_prepared_apart(options, data, job_id, before, region, now);
    assert(before.tasks_exist(region));
    lemma_preparation_keeps(options, data, job_id, job, before, region, now);
    assert forall|k: int| 0 <= k < tasks.len() implies adapted.has_task(
        (#[trigger] tasks[k]).stage as int,
        tasks[k].partition as int,
    ) by {
        assert(tasks[k] == adapted.region_tasks(region)[k]);
    }
    lemma_new_attempts(adapted, tasks, now);
    assert(after.region_tasks(region) == tasks);
    lemma_all_tasks(middle, stages, i);
    let m = stages.index_of(tasks[i].stage);
    let s = stages[m] as int;
    lemma_listed_stage(job, region, m);
    assert(has_stage(job, region, s));
    assert forall|a: int, k: int|
        0 <= a < stages.len() && 0 <= k < before.graph.stages[stages[a] as int].inputs.len()
            && #[trigger] before.adaptable_input(stages[a] as int, k) implies !stages.contains(
        before.graph.stages[stages[a] as int].inputs[k].stage,
    ) && is_left_alone(job, before.graph.stages[stages[a] as int].inputs[k].stage as int) by {
        let u = before.graph.stages[stages[a] as int].inputs[k].stage;
        lemma_listed_stage(job, region, a);
        assert(before.graph.stages[stages[a] as int].inputs.len()
            == job.graph.stages[stages[a] as int].inputs.len());
        lemma_ready_data_left_alone(job, before, region, region, stages[a] as int, k);
        if stages.contains(u) {
            lemma_listed_stage(job, region, stages.index_of(u));
        }
    }
    lemma_stages_decided(target, data, job_id, before, stages, stages.len(), m);
    assert(stages.take(stages.len() as int) =~= stages);
    assert forall|u: int| 0 <= u < before.graph.stages.len() implies (
    #[trigger] after.graph.stages[u]).mode == before.graph.stages[u].mode
        && after.graph.stages[u].distribution == before.graph.stages[u].distribution by {
        assert(middle.graph.stages[u].mode == before.graph.stages[u].mode);
    }
    assert forall|k: int|
        0 <= k < before.graph.stages[s].inputs.len() && #[trigger] after.adaptable_input(
            s,
            k,
        ) implies {
        let u = before.graph.stages[s].inputs[k].stage;
        channel_sizes(&data.index, job_id, after, u) == channel_sizes(
            &data.index,
            job_id,
            before,
            u,
        )
    } by {
        let u = before.graph.stages[s].inputs[k].stage;
        assert(u < before.stages.len());
        assert(after.graph.stages[u as int].mode == before.graph.stages[u as int].mode);
        assert(after.graph.stages[s].inputs[k] == before.graph.stages[s].inputs[k]);
        assert(before.adaptable_input(stages[m] as int, k));
        assert(before.graph.stages[s].inputs[k].stage < before.stages.len());
        lemma_same_sizes_left_alone(data, job_id, job, before, region, u);
        lemma_same_sizes_left_alone(data, job_id, job, after, region + 1, u);
    }
    assert(after.region_tasks(region)[i].stage == s);
    lemma_decided_once(target, data, job_id, before, after, s);
}

/// Scheduling regions makes choices that last.
proof fn lemma_scheduled_choices(
    options: SchedulerOptionsView,
    data: &Measurements,
    job_id: JobId,
    job: JobView,
    n: nat,
    now: Timestamp,
)
    requires
        job.well_formed(),
        n <= job.regions.len(),
        options.adaptive_enabled,
        tasks_apart(options, job),
        can_schedule(options, data, job_id, job, n, now),
        depends_on_data(job),
    ensures
        choices_made(
            options.target_partition_size,
            data,
            job_id,
            job,
            scheduled_regions(options, data, job_id, job, n, now).0,
            n as int,
        ),
    decreases n,
{
    let target = options.target_partition_size;
    if n > 0 {
        let q = n - 1;
        lemma_scheduled_choices(options, data, job_id, job, q as nat, now);
        lemma_scheduled_apart(options, data, job_id, job, q as nat, now);
        lemma_scheduled_or_kept(options, data, job_id, job, q as nat, now);
        lemma_scheduled_keeps(options, data, job_id, job, q as nat, now);
        lemma_scheduling_keeps(options, data, job_id, job, q as nat, now);
        lemma_scheduling_keeps(options, data, job_id, job, n, now);
        let before = scheduled_regions(options, data, job_id, job, q as nat, now).0;
        let after = scheduled_regions(options, data, job_id, job, n, now).0;
        assert(created_or_kept(job, q, before, q));
        lemma_same_readiness(job, before, q);
        if is_ready(before, q) {
            lemma_prepared_apart(options, data, job_id, before, q, now);
            assert forall|r: int, s: int|
                0 <= r < job.regions.len() && #[trigger] has_stage(after, r, s) implies has_stage(
                job,
                r,
                s,
            ) by {
                let i = choose|i: int|
                    0 <= i < after.region_tasks(r).len() && (#[trigger] after.region_tasks(
                        r,
                    )[i]).stage == s;
                if r == q {
                    lemma_prepared_choice(options, data, job_id, job, before, q, now, i);
                } else {
                    assert(before.region_tasks(r)[i].stage == s);
                    assert(has_stage(before, r, s));
                }
            }
            assert forall|r: int, i: int|
                0 <= r < n && 0 <= i < after.region_tasks(r).len() && is_ready(
                    job,
                    r,
                ) implies !is_regrouped(
                target,
                data,
                job_id,
                after,
                (#[trigger] after.region_tasks(r)[i]).stage as int,
            ) by {
                if r == q {
                    lemma_prepared_choice(options, data, job_id, job, before, q, now, i);
                } else {
                    let t = before.region_tasks(r)[i];
                    let s = t.stage as int;
                    assert(after.region_tasks(r)[i] == t);
                    assert(before.has_task(s, t.partition as int));
                    assert(has_stage(before, r, s));
                    assert(has_stage(job, r, s));
                    lemma_kept_choice(options, data, job_id, job, before, after, q, n as int, r, i);
                }
            }
        }
    }
}

/// A region that was ready is not to be regrouped if it was not before and its stages read what they
/// read.
proof fn lemma_kept_choice(
    options: SchedulerOptionsView,
    data: &Measurements,
    job_id: JobId,
    job: JobView,
    before: JobView,
    after: JobView,
    n: int,
    m: int,
    r: int,
    i: int,
)
    requires
        job.well_formed(),
        before.well_formed(),
        after.well_formed(),
        depends_on_data(job),
        is_scheduled_from(job, before, n),
        is_scheduled_from(job, after, m),
        before.regions.len() == job.regions.len(),
        after.regions.len() == job.regions.len(),
        0 <= r < job.regions.len(),
        after.region_tasks(r) == before.region_tasks(r),
        0 <= i < before.region_tasks(r).len(),
        after.graph.stages[before.region_tasks(r)[i].stage as int]
            == before.graph.stages[before.region_tasks(r)[i].stage as int],
        has_stage(job, r, before.region_tasks(r)[i].stage as int),
        forall|k: int|
            0 <= k < before.graph.stages[before.region_tasks(r)[i].stage as int].inputs.len()
                && #[trigger] before.adaptable_input(before.region_tasks(r)[i].stage as int, k)
                ==> is_ready(job, r) || is_left_alone(
                job,
                before.graph.stages[before.region_tasks(r)[i].stage as int].inputs[k].stage as int,
            ),
        !is_regrouped(
            options.target_partition_size,
            data,
            job_id,
            before,
            before.region_tasks(r)[i].stage as int,
        ),
    ensures
        !is_regrouped(
            options.target_partition_size,
            data,
            job_id,
            after,
            before.region_tasks(r)[i].stage as int,
        ),
{
    let target = options.target_partition_size;
    let t = before.region_tasks(r)[i];
    let s = t.stage as int;
    assert(before.has_task(s, t.partition as int));
    assert forall|k: int| 0 <= k < before.graph.stages[s].inputs.len() implies {
        let u = (#[trigger] before.graph.stages[s].inputs[k]).stage;
        &&& after.graph.stages[u as int].mode == before.graph.stages[u as int].mode
        &&& after.graph.stages[u as int].distribution == before.graph.stages[u as int].distribution
        &&& before.adaptable_input(s, k) ==> channel_sizes(&data.index, job_id, after, u)
            == channel_sizes(&data.index, job_id, before, u)
    } by {
        let u = before.graph.stages[s].inputs[k].stage;
        assert(u < before.stages.len());
        assert(before.graph.stages[u as int].mode == job.graph.stages[u as int].mode);
        assert(after.graph.stages[u as int].mode == job.graph.stages[u as int].mode);
        if before.adaptable_input(s, k) {
            if is_ready(job, r) {
                assert(before.graph.stages[s].inputs.len() == job.graph.stages[s].inputs.len());
                lemma_ready_data_left_alone(job, before, n, r, s, k);
            }
            lemma_same_sizes_left_alone(data, job_id, job, before, n, u);
            lemma_same_sizes_left_alone(data, job_id, job, after, m, u);
        }
    }
    assert(finds_the_same(data, data, job_id, before, after, s));
    lemma_same_choice(
        target,
        data,
        data,
        job_id,
        before,
        after,
        s,
        before.graph.stages[s].inputs.len(),
    );
    assert(after.region_tasks(r)[i] == t);
}

/// How a region reads shuffled data is chosen once: as long as the sizes of the data and the plans stay
/// the same, the tasks of a region that has been started are not grouped anew when the job is
/// refreshed. That is so for jobs that are in order, and whose regions depend on those that write the
/// data which they read.
pub proof fn lemma_refreshed_choices_kept(
    options: SchedulerOptionsView,
    data: &Measurements,
    job_id: JobId,
    job: JobView,
    now: Timestamp,
)
    requires
        job.well_formed(),
        can_refresh(options, data, job_id, job, now),
        options.adaptive_enabled,
        tasks_apart(options, job),
        in_order(job),
        depends_on_data(job),
        choices_kept(options, data, job_id, job),
    ensures
        ({
            let after = refreshed_job(options, data, job_id, job, now).0;
            &&& choices_kept(options, data, job_id, after)
            &&& depends_on_data(after)
        }),
{
    let max = options.task_max_attempts as nat;
    let settled = settled_job(max, job_id, job, now).0;
    let after = refreshed_job(options, data, job_id, job, now).0;
    if job.state is Running {
        lemma_settled_shape(max, job_id, job, now);
        lemma_settled_choices(options, data, job_id, job, now);
        lemma_same_order(job, settled);
        if any_region_failed(settled) || all_regions_succeeded(settled) {
            assert(same_counts(settled, after));
            lemma_choices_kept(options, data, job_id, settled, after);
            lemma_same_order(settled, after);
        } else {
            let target = options.target_partition_size;
            let n = settled.regions.len();
            lemma_apart_kept(options, job, settled);
            lemma_settled_in_order(max, job_id, job, now);
            lemma_settled_regions(max, job_id, job, now);
            lemma_scheduled_choices(options, data, job_id, settled, n, now);
            lemma_scheduled_apart(options, data, job_id, settled, n, now);
            lemma_scheduled_or_kept(options, data, job_id, settled, n, now);
            lemma_scheduled_keeps(options, data, job_id, settled, n, now);
            lemma_scheduling_keeps(options, data, job_id, settled, n, now);
            assert forall|r: int|
                0 <= r < after.regions.len() implies #[trigger] region_choices_kept(
                options,
                data,
                job_id,
                after,
                r,
            ) by {
                assert forall|i: int|
                    0 <= i < after.region_tasks(r).len() && attempt_count(
                        after,
                        #[trigger] after.region_tasks(r)[i],
                    ) > 0 implies !is_regrouped(
                    target,
                    data,
                    job_id,
                    after,
                    after.region_tasks(r)[i].stage as int,
                ) by {
                    assert(created_or_kept(settled, n as int, after, r));
                    if !is_ready(settled, r) {
                        let t = settled.region_tasks(r)[i];
                        let s = t.stage as int;
                        assert(after.region_tasks(r)[i] == t);
                        assert(settled.has_task(s, t.partition as int));
                        assert(has_stage(settled, r, s));
                        assert(attempt_count(settled, settled.region_tasks(r)[i]) > 0);
                        assert(region_choices_kept(options, data, job_id, settled, r));
                        assert(is_scheduled_from(settled, settled, 0));
                        assert forall|k: int|
                            0 <= k < settled.graph.stages[s].inputs.len()
                                && #[trigger] settled.adaptable_input(s, k) implies is_left_alone(
                            settled,
                            settled.graph.stages[s].inputs[k].stage as int,
                        ) by {
                            lemma_started_data_left_alone(max, settled, r, i, k);
                        }
                        lemma_kept_choice(
                            options,
                            data,
                            job_id,
                            settled,
                            settled,
                            after,
                            0,
                            n as int,
                            r,
                            i,
                        );
                    }
                }
            }
            lemma_order_after(settled, after, n as int);
        }
    }
}

/// The data that a region which has been started reads is left alone.
proof fn lemma_started_data_left_alone(max_attempts: nat, job: JobView, r: int, i: int, k: int)
    requires
        job.well_formed(),
        in_order(job),
        depends_on_data(job),
        forall|r: int|
            0 <= r < job.regions.len() ==> #[trigger] job.regions[r] == region_state(
                job,
                max_attempts,
                r,
            ),
        0 <= r < job.regions.len(),
        0 <= i < job.region_tasks(r).len(),
        attempt_count(job, job.region_tasks(r)[i]) > 0,
        0 <= k < job.graph.stages[job.region_tasks(r)[i].stage as int].inputs.len(),
        job.adaptable_input(job.region_tasks(r)[i].stage as int, k),
    ensures
        is_left_alone(
            job,
            job.graph.stages[job.region_tasks(r)[i].stage as int].inputs[k].stage as int,
        ),
{
    let s = job.region_tasks(r)[i].stage as int;
    assert(has_stage(job, r, s));
    assert(is_started(job, r));
    assert forall|q: int| 0 <= q < job.regions.len() && #[trigger] has_stage(
        job,
        q,
        job.graph.stages[s].inputs[k].stage as int,
    ) implies job.regions[q] is Succeeded by {
        assert(depends_on(job, r, q));
        let d = choose|d: int|
            0 <= d < job.topology.regions[r].dependencies.len()
                && #[trigger] job.topology.regions[r].dependencies[d] == q;
        assert(is_done(job, job.topology.regions[r].dependencies[d] as int));
        let tasks = job.region_tasks(q);
        assert forall|j: int| 0 <= j < tasks.len() implies has_succeeded(job, #[trigger] tasks[j])
            && !is_exhausted(job, max_attempts, tasks[j]) by {
            assert(has_succeeded(job, job.region_tasks(q)[j]));
        }
        assert(job.regions[q] == region_state(job, max_attempts, q));
    }
}

/// Scheduling keeps every region dependent on those that write its data.
proof fn lemma_order_after(job: JobView, after: JobView, n: int)
    requires
        job.well_formed(),
        after.well_formed(),
        depends_on_data(job),
        is_scheduled_from(job, after, n),
        after.regions == job.regions,
        forall|r: int, s: int|
            0 <= r < job.regions.len() && #[trigger] has_stage(after, r, s) ==> has_stage(job, r, s),
        forall|r: int|
            0 <= r < job.regions.len() ==> (#[trigger] after.topology.regions[r]).dependencies
                == job.topology.regions[r].dependencies,
    ensures
        depends_on_data(after),
{
    assert forall|r: int, s: int, k: int, q: int|
        #![trigger has_stage(after, r, s), has_stage(after, q, after.graph.stages[s].inputs[k].stage as int)]
        0 <= r < after.regions.len() && has_stage(after, r, s) && 0 <= k
            < after.graph.stages[s].inputs.len() && after.adaptable_input(s, k) && 0 <= q
            < after.regions.len() && has_stage(
            after,
            q,
            after.graph.stages[s].inputs[k].stage as int,
        ) implies depends_on(after, r, q) by {
        let i = choose|i: int|
            0 <= i < after.region_tasks(r).len() && (#[trigger] after.region_tasks(r)[i]).stage
                == s;
        assert(after.has_task(s, after.region_tasks(r)[i].partition as int));
        assert(after.graph.stages[s].inputs.len() == job.graph.stages[s].inputs.len());
        let u = job.graph.stages[s].inputs[k].stage;
        assert(after.graph.stages[s].inputs[k].stage == u);
        assert(u < job.stages.len());
        assert(after.graph.stages[u as int].mode == job.graph.stages[u as int].mode);
        assert(job.adaptable_input(s, k));
        assert(has_stage(job, r, s));
        assert(has_stage(job, q, job.graph.stages[s].inputs[k].stage as int));
        assert(depends_on(job, r, q));
        let d = choose|d: int|
            0 <= d < job.topology.regions[r].dependencies.len()
                && #[trigger] job.topology.regions[r].dependencies[d] == q;
        assert(after.topology.regions[r].dependencies[d] == q);
    }
}

/// A job none of whose tasks has been attempted has no choices to keep.
pub proof fn lemma_new_job_choices_kept(
    options: SchedulerOptionsView,
    data: &Measurements,
    job_id: JobId,
    graph: JobGraphView,
    topology: JobTopologyView,
    state: JobState,
    now: Timestamp,
)
    requires
        new_job(graph, topology, state, now).well_formed(),
    ensures
        choices_kept(options, data, job_id, new_job(graph, topology, state, now)),
{
    let job = new_job(graph, topology, state, now);
    assert forall|r: int| 0 <= r < job.regions.len() implies #[trigger] region_choices_kept(
        options,
        data,
        job_id,
        job,
        r,
    ) by {
        assert forall|i: int| 0 <= i < job.region_tasks(r).len() implies attempt_count(
            job,
            #[trigger] job.region_tasks(r)[i],
        ) == 0 by {
            let t = job.region_tasks(r)[i];
            assert(job.has_task(t.stage as int, t.partition as int));
        }
    }
}

/// Whatever is reported of the tasks of a job, it keeps its choices.
pub proof fn lemma_reported_choices_kept(
    options: SchedulerOptionsView,
    data: &Measurements,
    job_id: JobId,
    job: JobView,
    stage: int,
    partition: int,
    attempt: int,
    state: TaskState,
    message: Option<String>,
    cause: Option<ErrorCause>,
    now: Timestamp,
)
    requires
        job.well_formed(),
        choices_kept(options, data, job_id, job),
    ensures
        choices_kept(
            options,
            data,
            job_id,
            reported_job(job, stage, partition, attempt, state, message, cause, now),
        ),
{
    let after = reported_job(job, stage, partition, attempt, state, message, cause, now);
    assert(same_counts(job, after));
    lemma_choices_kept(options, data, job_id, job, after);
}

/// Cleaning up a job or stopping it keeps its choices.
pub proof fn lemma_ended_choices_kept(
    options: SchedulerOptionsView,
    data: &Measurements,
    job_id: JobId,
    job: JobView,
    now: Timestamp,
)
    requires
        job.well_formed(),
        choices_kept(options, data, job_id, job),
    ensures
        choices_kept(options, data, job_id, cleaned_job(job, now)),
        choices_kept(options, data, job_id, stopped_job(job, now)),
{
    assert(same_counts(job, cleaned_job(job, now)));
    lemma_choices_kept(options, data, job_id, job, cleaned_job(job, now));
    assert(same_counts(job, stopped_job(job, now)));
    lemma_choices_kept(options, data, job_id, job, stopped_job(job, now));
}

}

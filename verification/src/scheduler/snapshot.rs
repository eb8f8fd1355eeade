//! Refreshing a job from what has been found out about it beforehand.

use crate::clock::Timestamp;
use crate::id::JobId;
use crate::measurements::Measurements;
use crate::scheduler::adapt::{
    adapted_stages, changes_the_same, channel_sizes, finds_the_same, input_ranges, is_merged,
    latest_attempts, lemma_ranges_fit, lemma_region_stages, lemma_same_choice,
};
use crate::scheduler::cancel::{
    canceled_regions, has_failure, is_doomed, lemma_canceled_regions,
};
use crate::scheduler::laws::lemma_settled_regions;
use crate::scheduler::lifecycle::{
    all_regions_succeeded, any_region_failed, lemma_settled_shape, settled_job,
};
use crate::scheduler::limits::lemma_settled_counts;
use crate::scheduler::options::SchedulerOptionsView;
use crate::scheduler::order::is_done;
use crate::scheduler::output::extended_output;
use crate::scheduler::progress::{has_succeeded, is_exhausted, region_state};
use crate::scheduler::reads::{
    has_own_live, is_measured, is_own_stage, job_changes, may_read, may_start, needed_changes,
    needed_reads, stage_changes, stage_read, stage_reads, PlanChange, ShuffleReadView,
};
use crate::scheduler::region::task_stages;
use crate::scheduler::regroup::{
    depends_on_data, has_stage, is_beyond, is_scheduled_from, lemma_listed_stage, lemma_needed_data_kept,
    lemma_only_stages_changed, lemma_same_order, lemma_scheduling_keeps,
};
use crate::scheduler::schedule::{
    can_schedule, dependencies_succeeded, is_live, is_ready, lemma_scheduled_regions,
    prepared_region, scheduled_regions,
};
use crate::scheduler::{is_refreshable, refreshed, SchedulerView};
use crate::shuffle_index::{channel_total, ShuffleIndex};
use crate::state::{JobView, TaskState};
use vstd::prelude::*;

verus! {

/// Whether two sets of index files agree on those that are listed.
pub open spec fn agree_on(
    a: &ShuffleIndex,
    b: &ShuffleIndex,
    job_id: JobId,
    reads: Seq<ShuffleReadView>,
) -> bool {
    forall|i: int, p: int, c: int|
        #![trigger a.content(job_id, reads[i].stage, p, reads[i].attempts[p], c)]
        0 <= i < reads.len() && 0 <= p < reads[i].attempts.len() && 0 <= c < reads[i].channels
            ==> a.content(job_id, reads[i].stage, p, reads[i].attempts[p], c) == b.content(
            job_id,
            reads[i].stage,
            p,
            reads[i].attempts[p],
            c,
        )
}

/// Whether two sets of changed plans agree on the changes that are listed.
pub open spec fn agree_on_plans(
    a: &Measurements,
    b: &Measurements,
    changes: Seq<PlanChange>,
) -> bool {
    forall|i: int|
        0 <= i < changes.len() ==> {
            let change = #[trigger] changes[i];
            a.spec_rewritten(change.stage as int, change.input as int, change.groups as int)
                == b.spec_rewritten(
                change.stage as int,
                change.input as int,
                change.groups as int,
            )
        }
}

/// A stage whose sizes are needed is listed.
proof fn lemma_measured_listed(job: JobView, n: nat, stage: int)
    requires
        0 <= stage < n,
        is_measured(job, stage),
    ensures
        exists|i: int|
            0 <= i < stage_reads(job, n).len() && #[trigger] stage_reads(job, n)[i] == stage_read(
                job,
                stage,
            ),
    decreases n,
{
    let reads = stage_reads(job, n);
    if stage == n - 1 {
        assert(reads[reads.len() - 1] == stage_read(job, stage));
    } else {
        lemma_measured_listed(job, (n - 1) as nat, stage);
        let before = stage_reads(job, (n - 1) as nat);
        let i = choose|i: int|
            0 <= i < before.len() && #[trigger] before[i] == stage_read(job, stage);
        assert(reads[i] == stage_read(job, stage));
    }
}

/// Index files that agree give the same sizes.
proof fn lemma_same_totals(
    a: &ShuffleIndex,
    b: &ShuffleIndex,
    job_id: JobId,
    stage: usize,
    attempts: Seq<usize>,
    channel: int,
    n: nat,
)
    requires
        n <= attempts.len(),
        forall|p: int|
            0 <= p < attempts.len() ==> #[trigger] a.content(job_id, stage, p, attempts[p], channel)
                == b.content(job_id, stage, p, attempts[p], channel),
    ensures
        channel_total(a, job_id, stage, attempts, channel, n) == channel_total(
            b,
            job_id,
            stage,
            attempts,
            channel,
            n,
        ),
    decreases n,
{
    if n > 0 {
        lemma_same_totals(a, b, job_id, stage, attempts, channel, (n - 1) as nat);
        assert(a.content(job_id, stage, n - 1, attempts[n - 1], channel) == b.content(
            job_id,
            stage,
            n - 1,
            attempts[n - 1],
            channel,
        ));
    }
}

/// Index files that agree on what is needed give the same sizes of a stage, in every state of the job
/// in which the stage has the same attempts.
proof fn lemma_same_sizes(
    a: &ShuffleIndex,
    b: &ShuffleIndex,
    job_id: JobId,
    job: JobView,
    later: JobView,
    stage: usize,
)
    requires
        agree_on(a, b, job_id, stage_reads(job, job.stages.len())),
        stage < job.stages.len(),
        is_measured(job, stage as int),
        latest_attempts(later, stage) == latest_attempts(job, stage),
        later.graph.stages[stage as int].distribution == job.graph.stages[stage as int].distribution,
    ensures
        channel_sizes(a, job_id, later, stage) == channel_sizes(b, job_id, later, stage),
{
    let reads = stage_reads(job, job.stages.len());
    let attempts = latest_attempts(job, stage);
    lemma_measured_listed(job, job.stages.len(), stage as int);
    let i = choose|i: int|
        0 <= i < reads.len() && #[trigger] reads[i] == stage_read(job, stage as int);
    let sa = channel_sizes(a, job_id, later, stage);
    let sb = channel_sizes(b, job_id, later, stage);
    assert forall|c: int| 0 <= c < sa.len() implies #[trigger] sa[c] == sb[c] by {
        assert forall|p: int| 0 <= p < attempts.len() implies #[trigger] a.content(
            job_id,
            stage,
            p,
            attempts[p],
            c,
        ) == b.content(job_id, stage, p, attempts[p], c) by {
            assert(a.content(job_id, reads[i].stage, p, reads[i].attempts[p], c) == b.content(
                job_id,
                reads[i].stage,
                p,
                reads[i].attempts[p],
                c,
            ));
        }
        lemma_same_totals(a, b, job_id, stage, attempts, c, attempts.len());
    }
    assert(sa =~= sb);
}

/// A change that is to be made is listed.
proof fn lemma_change_listed(
    target: u64,
    data: &Measurements,
    job_id: JobId,
    job: JobView,
    n: nat,
    stage: int,
    input: int,
)
    requires
        0 <= stage < n <= usize::MAX,
        0 <= input < job.graph.stages[stage].inputs.len() <= usize::MAX,
        may_read(job, stage),
        is_merged(target, data, job_id, job, stage, input),
    ensures
        exists|i: int|
            0 <= i < job_changes(target, data, job_id, job, n).len() && #[trigger] job_changes(
                target,
                data,
                job_id,
                job,
                n,
            )[i] == (PlanChange {
                stage: stage as usize,
                input: input as usize,
                groups: input_ranges(target, data, job_id, job, stage, input).len() as usize,
            }),
    decreases n,
{
    let change = PlanChange {
        stage: stage as usize,
        input: input as usize,
        groups: input_ranges(target, data, job_id, job, stage, input).len() as usize,
    };
    let before = job_changes(target, data, job_id, job, (n - 1) as nat);
    let all = job_changes(target, data, job_id, job, n);
    if stage == n - 1 {
        let m = job.graph.stages[stage].inputs.len();
        lemma_stage_change_listed(target, data, job_id, job, m, stage, input);
        let last = stage_changes(target, data, job_id, job, stage, m);
        let i = choose|i: int| 0 <= i < last.len() && #[trigger] last[i] == change;
        assert(all[before.len() + i] == change);
    } else {
        lemma_change_listed(target, data, job_id, job, (n - 1) as nat, stage, input);
        let i = choose|i: int| 0 <= i < before.len() && #[trigger] before[i] == change;
        assert(all[i] == change);
    }
}

/// A change of the plan of a stage is listed for the stage.
proof fn lemma_stage_change_listed(
    target: u64,
    data: &Measurements,
    job_id: JobId,
    job: JobView,
    n: nat,
    stage: int,
    input: int,
)
    requires
        0 <= input < n,
        is_merged(target, data, job_id, job, stage, input),
    ensures
        exists|i: int|
            0 <= i < stage_changes(target, data, job_id, job, stage, n).len()
                && #[trigger] stage_changes(target, data, job_id, job, stage, n)[i] == (PlanChange {
                stage: stage as usize,
                input: input as usize,
                groups: input_ranges(target, data, job_id, job, stage, input).len() as usize,
            }),
    decreases n,
{
    let change = PlanChange {
        stage: stage as usize,
        input: input as usize,
        groups: input_ranges(target, data, job_id, job, stage, input).len() as usize,
    };
    let all = stage_changes(target, data, job_id, job, stage, n);
    if input == n - 1 {
        assert(all[all.len() - 1] == change);
    } else {
        lemma_stage_change_listed(target, data, job_id, job, (n - 1) as nat, stage, input);
        let before = stage_changes(target, data, job_id, job, stage, (n - 1) as nat);
        let i = choose|i: int| 0 <= i < before.len() && #[trigger] before[i] == change;
        assert(all[i] == change);
    }
}

/// Whether two sets of findings agree on what a refresh of a job needs.
pub open spec fn agree(
    target: u64,
    a: &Measurements,
    b: &Measurements,
    job_id: JobId,
    job: JobView,
) -> bool {
    &&& agree_on(&a.index, &b.index, job_id, stage_reads(job, job.stages.len()))
    &&& agree_on_plans(a, b, job_changes(target, a, job_id, job, job.stages.len()))
}

/// Some stages read their inputs in the same groups of channels, if they find the same, and they do
/// not read from each other.
proof fn lemma_same_stages(
    target: u64,
    a: &Measurements,
    b: &Measurements,
    job_id: JobId,
    job: JobView,
    all: Seq<usize>,
    n: nat,
)
    requires
        job.linked(),
        n <= all.len(),
        all.no_duplicates(),
        forall|i: int| 0 <= i < all.len() ==> #[trigger] all[i] < job.stages.len(),
        forall|i: int|
            0 <= i < all.len() ==> changes_the_same(
                target,
                a,
                b,
                job_id,
                job,
                (#[trigger] all[i]) as int,
            ),
        forall|i: int, k: int|
            0 <= i < all.len() && 0 <= k < job.graph.stages[all[i] as int].inputs.len()
                && #[trigger] job.adaptable_input(all[i] as int, k) ==> {
                let u = job.graph.stages[all[i] as int].inputs[k].stage;
                !all.contains(u) && channel_sizes(&a.index, job_id, job, u) == channel_sizes(
                    &b.index,
                    job_id,
                    job,
                    u,
                )
            },
    ensures
        adapted_stages(target, a, job_id, job, all.take(n as int)) == adapted_stages(
            target,
            b,
            job_id,
            job,
            all.take(n as int),
        ),
    decreases n,
{
    if n > 0 {
        let stages = all.take(n as int);
        let rest = all.take(n - 1);
        let s = all[n - 1] as int;
        assert(stages.drop_last() =~= rest);
        assert(stages.last() == all[n - 1]);
        lemma_same_stages(target, a, b, job_id, job, all, (n - 1) as nat);
        assert forall|i: int| 0 <= i < rest.len() implies #[trigger] rest[i] < job.stages.len()
            && rest[i] != s by {
            assert(rest[i] == all[i]);
        }
        lemma_only_stages_changed(target, a, job_id, job, rest);
        let before = adapted_stages(target, a, job_id, job, rest);
        assert(before.graph.stages[s] == job.graph.stages[s]);
        assert forall|k: int| 0 <= k < job.graph.stages[s].inputs.len() implies {
            let u = (#[trigger] before.graph.stages[s].inputs[k]).stage;
            &&& before.graph.stages[u as int].mode == job.graph.stages[u as int].mode
            &&& before.graph.stages[u as int].distribution
                == job.graph.stages[u as int].distribution
            &&& before.adaptable_input(s, k) == job.adaptable_input(s, k)
            &&& job.adaptable_input(s, k) ==> {
                &&& channel_sizes(&a.index, job_id, before, u) == channel_sizes(
                    &a.index,
                    job_id,
                    job,
                    u,
                )
                &&& channel_sizes(&b.index, job_id, before, u) == channel_sizes(
                    &a.index,
                    job_id,
                    job,
                    u,
                )
            }
        } by {
            let u = job.graph.stages[s].inputs[k].stage;
            assert(u < job.stages.len());
            assert(before.graph.stages[u as int].mode == job.graph.stages[u as int].mode);
            if job.adaptable_input(s, k) {
                assert(job.adaptable_input(all[n - 1] as int, k));
                assert(!all.contains(u));
                assert forall|i: int| 0 <= i < rest.len() implies #[trigger] rest[i] != u by {
                    assert(rest[i] == all[i]);
                    assert(all.contains(all[i]));
                }
                assert(before.stages[u as int] == job.stages[u as int]);
                assert(latest_attempts(before, u) =~= latest_attempts(job, u));
                assert(channel_sizes(&a.index, job_id, before, u) =~= channel_sizes(
                    &a.index,
                    job_id,
                    job,
                    u,
                ));
                assert(channel_sizes(&b.index, job_id, before, u) =~= channel_sizes(
                    &b.index,
                    job_id,
                    job,
                    u,
                ));
            }
        }
        assert(finds_the_same(a, b, job_id, before, before, s));
        assert(changes_the_same(target, a, b, job_id, before, s)) by {
            assert(changes_the_same(target, a, b, job_id, job, all[n - 1] as int));
            assert forall|k: int|
                0 <= k < before.graph.stages[s].inputs.len() && #[trigger] is_merged(
                    target,
                    a,
                    job_id,
                    before,
                    s,
                    k,
                ) implies {
                let groups = input_ranges(target, a, job_id, before, s, k).len() as int;
                a.spec_rewritten(s, k, groups) == b.spec_rewritten(s, k, groups)
            } by {
                let u = before.graph.stages[s].inputs[k].stage;
                assert(is_merged(target, a, job_id, job, s, k));
            }
        }
        lemma_same_choice(
            target,
            a,
            b,
            job_id,
            before,
            before,
            s,
            before.graph.stages[s].inputs.len(),
        );
    }
}

/// Whether what is listed for a job is listed for a later state of it, too: the stages and regions are
/// the same, there have been no new attempts, and only regions that may be scheduled can be ready.
pub open spec fn is_listed_for(listed: JobView, job: JobView) -> bool {
    &&& job.graph == listed.graph
    &&& job.topology == listed.topology
    &&& job.stages.len() == listed.stages.len()
    &&& job.regions.len() == listed.regions.len()
    &&& forall|u: usize|
        u < listed.stages.len() ==> #[trigger] latest_attempts(job, u) == latest_attempts(listed, u)
    &&& forall|r: int|
        0 <= r < job.regions.len() && !(job.regions[r] is Succeeded)
            && #[trigger] dependencies_succeeded(job, r) && !has_own_live(job, r) ==> may_start(
            listed,
            r,
        )
}

/// Dealing with what tasks have reported takes no success back, and adds none.
proof fn lemma_settled_done(
    max_attempts: nat,
    job_id: JobId,
    job: JobView,
    now: Timestamp,
    s: int,
    p: int,
)
    requires
        job.well_formed(),
        job.has_task(s, p),
    ensures
        settled_job(max_attempts, job_id, job, now).0.latest_state(s, p) == Some(
            TaskState::Succeeded,
        ) <==> job.latest_state(s, p) == Some(TaskState::Succeeded),
{
    let n = job.regions.len();
    let canceled = canceled_regions(job_id, job, n, now).0;
    let extended = extended_output(job_id, canceled).0;
    let settled = settled_job(max_attempts, job_id, job, now).0;
    lemma_settled_shape(max_attempts, job_id, job, now);
    lemma_canceled_regions(job_id, job, n, now);
    assert(canceled.stages[s].tasks.len() == job.stages[s].tasks.len());
    assert(extended.stages[s].tasks.len() == job.stages[s].tasks.len());
    assert(canceled.latest_state(s, p) == Some(TaskState::Succeeded) <==> job.latest_state(s, p)
        == Some(TaskState::Succeeded));
    assert(extended.latest_state(s, p) == canceled.latest_state(s, p));
    assert(settled.stages[s].tasks == extended.stages[s].tasks);
}

/// A region has succeeded, once what tasks have reported is dealt with, if all its tasks have.
proof fn lemma_settled_region_done(
    max_attempts: nat,
    job_id: JobId,
    job: JobView,
    now: Timestamp,
    region: int,
)
    requires
        job.well_formed(),
        0 <= region < job.regions.len(),
    ensures
        settled_job(max_attempts, job_id, job, now).0.regions[region] is Succeeded <==> is_done(
            job,
            region,
        ),
{
    let settled = settled_job(max_attempts, job_id, job, now).0;
    lemma_settled_shape(max_attempts, job_id, job, now);
    lemma_settled_regions(max_attempts, job_id, job, now);
    let tasks = settled.region_tasks(region);
    assert(tasks == job.region_tasks(region));
    assert(settled.regions[region] == region_state(settled, max_attempts, region));
    assert forall|i: int| 0 <= i < tasks.len() implies has_succeeded(settled, #[trigger] tasks[i])
        == has_succeeded(job, tasks[i]) by {
        assert(tasks[i] == job.region_tasks(region)[i]);
        lemma_settled_done(
            max_attempts,
            job_id,
            job,
            now,
            tasks[i].stage as int,
            tasks[i].partition as int,
        );
    }
    if is_done(job, region) {
        assert forall|i: int| 0 <= i < tasks.len() implies has_succeeded(
            settled,
            #[trigger] tasks[i],
        ) && !is_exhausted(settled, max_attempts, tasks[i]) by {
            assert(has_succeeded(job, job.region_tasks(region)[i]));
        }
    }
    if settled.regions[region] is Succeeded {
        assert forall|i: int| 0 <= i < job.region_tasks(region).len() implies has_succeeded(
            job,
            #[trigger] job.region_tasks(region)[i],
        ) by {
            assert(has_succeeded(settled, tasks[i]));
        }
    }
}

/// A region without a failure keeps a live task of a stage of its own, once what tasks have reported
/// is dealt with.
proof fn lemma_settled_own_live(
    max_attempts: nat,
    job_id: JobId,
    job: JobView,
    now: Timestamp,
    region: int,
)
    requires
        job.well_formed(),
        0 <= region < job.regions.len(),
        !has_failure(job, region),
        has_own_live(job, region),
    ensures
        has_own_live(settled_job(max_attempts, job_id, job, now).0, region),
{
    let n = job.regions.len();
    let canceled = canceled_regions(job_id, job, n, now).0;
    let extended = extended_output(job_id, canceled).0;
    let settled = settled_job(max_attempts, job_id, job, now).0;
    let i = choose|i: int|
        0 <= i < job.region_tasks(region).len() && is_live(
            job,
            #[trigger] job.region_tasks(region)[i],
        ) && is_own_stage(job, region, job.region_tasks(region)[i].stage as int);
    let t = job.region_tasks(region)[i];
    let s = t.stage as int;
    let p = t.partition as int;
    assert(job.has_task(s, p));
    lemma_settled_shape(max_attempts, job_id, job, now);
    lemma_canceled_regions(job_id, job, n, now);
    assert(!is_doomed(job, n, s, p)) by {
        if is_doomed(job, n, s, p) {
            let (r, k) = choose|r: int, k: int|
                #![trigger job.region_tasks(r)[k]]
                0 <= r < n && 0 <= k < job.region_tasks(r).len() && has_failure(job, r)
                    && job.region_tasks(r)[k].stage == s && job.region_tasks(r)[k].partition == p;
            assert(has_stage(job, r, s));
        }
    }
    assert(canceled.attempts(s, p) == job.attempts(s, p));
    assert(canceled.latest_state(s, p) == job.latest_state(s, p));
    assert(extended.latest_state(s, p) == canceled.latest_state(s, p));
    assert(settled.stages[s].tasks == extended.stages[s].tasks);
    assert(settled.region_tasks(region)[i] == t);
    assert forall|r: int| 0 <= r < settled.regions.len() && r != region implies !#[trigger]
        has_stage(settled, r, s) by {
        if has_stage(settled, r, s) {
            let k = choose|k: int|
                0 <= k < settled.region_tasks(r).len() && (#[trigger] settled.region_tasks(
                    r,
                )[k]).stage == s;
            assert(job.region_tasks(r)[k].stage == s);
            assert(has_stage(job, r, s));
        }
    }
}

/// A region that is ready later has no live task of a stage of its own.
proof fn lemma_ready_without_own_live(job: JobView, later: JobView, region: int)
    requires
        job.linked(),
        is_scheduled_from(job, later, region),
        0 <= region < job.regions.len(),
        is_ready(later, region),
    ensures
        !has_own_live(job, region),
{
    assert(later.topology.regions[region] == job.topology.regions[region]);
    if has_own_live(job, region) {
        let i = choose|i: int|
            0 <= i < job.region_tasks(region).len() && is_live(
                job,
                #[trigger] job.region_tasks(region)[i],
            ) && is_own_stage(job, region, job.region_tasks(region)[i].stage as int);
        let t = job.region_tasks(region)[i];
        assert(job.has_task(t.stage as int, t.partition as int));
        assert(is_beyond(job, region, t.stage as int));
        assert(later.stages[t.stage as int] == job.stages[t.stage as int]);
        assert(later.region_tasks(region)[i] == t);
        assert(is_live(later, later.region_tasks(region)[i]));
    }
}

/// What is listed for a job is listed for it once what tasks have reported is dealt with.
proof fn lemma_settled_listed(max_attempts: nat, job_id: JobId, job: JobView, now: Timestamp)
    requires
        job.well_formed(),
    ensures
        is_listed_for(job, settled_job(max_attempts, job_id, job, now).0),
{
    let settled = settled_job(max_attempts, job_id, job, now).0;
    lemma_settled_shape(max_attempts, job_id, job, now);
    lemma_settled_counts(max_attempts, job_id, job, now);
    assert forall|u: usize| u < job.stages.len() implies #[trigger] latest_attempts(settled, u)
        == latest_attempts(job, u) by {
        assert(settled.stages[u as int].tasks.len() == job.stages[u as int].tasks.len());
        assert forall|p: int| 0 <= p < job.stages[u as int].tasks.len() implies
            #[trigger] latest_attempts(settled, u)[p] == latest_attempts(job, u)[p] by {
            assert(job.has_task(u as int, p));
            assert(settled.attempts(u as int, p).len() == job.attempts(u as int, p).len());
        }
        assert(latest_attempts(settled, u) =~= latest_attempts(job, u));
    }
    assert forall|r: int|
        0 <= r < settled.regions.len() && !(settled.regions[r] is Succeeded)
            && #[trigger] dependencies_succeeded(settled, r) && !has_own_live(
            settled,
            r,
        ) implies may_start(job, r) by {
        lemma_settled_region_done(max_attempts, job_id, job, now, r);
        if !has_failure(job, r) && has_own_live(job, r) {
            lemma_settled_own_live(max_attempts, job_id, job, now, r);
        }
        assert forall|i: int| 0 <= i < job.topology.regions[r].dependencies.len() implies is_done(
            job,
            (#[trigger] job.topology.regions[r].dependencies[i]) as int,
        ) by {
            let d = job.topology.regions[r].dependencies[i] as int;
            assert(d < job.regions.len());
            assert(settled.regions[settled.topology.regions[r].dependencies[i] as int] is Succeeded);
            lemma_settled_region_done(max_attempts, job_id, job, now, d);
        }
    }
}

/// Preparing a region that is ready comes to the same with findings that agree on what is needed.
proof fn lemma_same_preparation(
    options: SchedulerOptionsView,
    a: &Measurements,
    b: &Measurements,
    job_id: JobId,
    listed: JobView,
    job: JobView,
    later: JobView,
    region: int,
    now: Timestamp,
)
    requires
        job.sound(),
        later.linked(),
        is_listed_for(listed, job),
        is_countable(job),
        depends_on_data(job),
        options.adaptive_enabled ==> agree(options.target_partition_size, a, b, job_id, listed),
        is_scheduled_from(job, later, region),
        later.regions == job.regions,
        0 <= region < job.regions.len(),
        is_ready(later, region),
    ensures
        prepared_region(options, a, job_id, later, region, now) == prepared_region(
            options,
            b,
            job_id,
            later,
            region,
            now,
        ),
{
    if options.adaptive_enabled {
        let target = options.target_partition_size;
        let stages = task_stages(later.region_tasks(region));
        assert(later.topology.regions[region] == job.topology.regions[region]);
        lemma_region_stages(later, region);
        assert(dependencies_succeeded(job, region));
        lemma_ready_without_own_live(job, later, region);
        assert(may_start(listed, region));
        assert forall|i: int| 0 <= i < stages.len() implies may_read(
            listed,
            (#[trigger] stages[i]) as int,
        ) by {
            lemma_listed_stage(listed, region, i);
            assert(has_stage(listed, region, stages[i] as int));
        }
        assert forall|i: int, k: int|
            0 <= i < stages.len() && 0 <= k < later.graph.stages[stages[i] as int].inputs.len()
                && #[trigger] later.adaptable_input(stages[i] as int, k) implies {
            let u = later.graph.stages[stages[i] as int].inputs[k].stage;
            &&& !stages.contains(u)
            &&& channel_sizes(&a.index, job_id, later, u) == channel_sizes(
                &b.index,
                job_id,
                later,
                u,
            )
            &&& channel_sizes(&a.index, job_id, later, u) == channel_sizes(
                &a.index,
                job_id,
                listed,
                u,
            )
            &&& job.adaptable_input(stages[i] as int, k)
            &&& job.graph.stages[stages[i] as int].inputs[k].stage == u
            &&& later.graph.stages[u as int].distribution
                == job.graph.stages[u as int].distribution
        } by {
            let s = stages[i] as int;
            let u = later.graph.stages[s].inputs[k].stage;
            lemma_listed_stage(job, region, i);
            lemma_needed_data_kept(job, later, region, s, k);
            assert(job.adaptable_input(s, k));
            assert(later.graph.stages[s].inputs.len() == job.graph.stages[s].inputs.len());
            assert(u < job.stages.len());
            assert(latest_attempts(job, u) == latest_attempts(listed, u));
            assert(listed.adaptable_input(s, k));
            assert(is_measured(listed, u as int));
            if stages.contains(u) {
                lemma_listed_stage(job, region, stages.index_of(u));
            }
            lemma_same_sizes(&a.index, &b.index, job_id, listed, later, u);
            assert(channel_sizes(&a.index, job_id, later, u) =~= channel_sizes(
                &a.index,
                job_id,
                listed,
                u,
            ));
        }
        assert forall|i: int| 0 <= i < stages.len() implies changes_the_same(
            target,
            a,
            b,
            job_id,
            later,
            (#[trigger] stages[i]) as int,
        ) by {
            let s = stages[i] as int;
            assert forall|k: int|
                0 <= k < later.graph.stages[s].inputs.len() && #[trigger] is_merged(
                    target,
                    a,
                    job_id,
                    later,
                    s,
                    k,
                ) implies {
                let groups = input_ranges(target, a, job_id, later, s, k).len() as int;
                a.spec_rewritten(s, k, groups) == b.spec_rewritten(s, k, groups)
            } by {
                assert(later.adaptable_input(stages[i] as int, k));
                assert(is_merged(target, a, job_id, listed, s, k));
                assert(later.graph.stages[s].inputs.len() == job.graph.stages[s].inputs.len());
                lemma_change_listed(target, a, job_id, listed, listed.stages.len(), s, k);
                lemma_ranges_fit(target, a, job_id, listed, s, k);
                let changes = job_changes(target, a, job_id, listed, listed.stages.len());
                let c = choose|c: int|
                    0 <= c < changes.len() && #[trigger] changes[c] == (PlanChange {
                        stage: s as usize,
                        input: k as usize,
                        groups: input_ranges(target, a, job_id, listed, s, k).len() as usize,
                    });
                assert(changes[c].groups == input_ranges(target, a, job_id, later, s, k).len());
            }
        }
        lemma_same_stages(target, a, b, job_id, later, stages, stages.len());
        assert(stages.take(stages.len() as int) =~= stages);
    }
}

/// Whether the stages of a job and the inputs of each of them can be counted in a machine word.
pub open spec fn is_countable(job: JobView) -> bool {
    &&& job.stages.len() <= usize::MAX
    &&& forall|s: int|
        0 <= s < job.graph.stages.len() ==> (#[trigger] job.graph.stages[s]).inputs.len()
            <= usize::MAX
}

/// Scheduling the regions of a job comes to the same with findings that agree on what is needed.
proof fn lemma_same_scheduling(
    options: SchedulerOptionsView,
    a: &Measurements,
    b: &Measurements,
    job_id: JobId,
    listed: JobView,
    job: JobView,
    n: nat,
    now: Timestamp,
)
    requires
        job.sound(),
        is_listed_for(listed, job),
        is_countable(job),
        depends_on_data(job),
        options.adaptive_enabled ==> agree(options.target_partition_size, a, b, job_id, listed),
        n <= job.regions.len(),
        can_schedule(options, a, job_id, job, n, now),
    ensures
        scheduled_regions(options, a, job_id, job, n, now) == scheduled_regions(
            options,
            b,
            job_id,
            job,
            n,
            now,
        ),
    decreases n,
{
    if n > 0 {
        let r = n - 1;
        lemma_same_scheduling(options, a, b, job_id, listed, job, r as nat, now);
        lemma_scheduling_keeps(options, a, job_id, job, r as nat, now);
        lemma_scheduled_regions(options, a, job_id, job, r as nat, now);
        let before = scheduled_regions(options, a, job_id, job, r as nat, now).0;
        if is_ready(before, r) {
            lemma_same_preparation(options, a, b, job_id, listed, job, before, r, now);
        }
    }
}

/// What is listed for a refresh is all that it needs: whatever else is on disk, and whatever else the
/// plans could be changed to, it comes to the same. That is so for jobs whose regions depend on those
/// that write the data which they read.
pub proof fn lemma_reads_suffice(
    scheduler: SchedulerView,
    a: &Measurements,
    b: &Measurements,
    job_id: JobId,
    now: Timestamp,
)
    requires
        scheduler.well_formed(),
        scheduler.jobs.dom().contains(job_id) ==> depends_on_data(scheduler.jobs[job_id])
            && is_countable(scheduler.jobs[job_id]),
        is_refreshable(scheduler, a, job_id, now),
        agree_on(&a.index, &b.index, job_id, needed_reads(scheduler, job_id)),
        agree_on_plans(a, b, needed_changes(scheduler, a, job_id)),
    ensures
        refreshed(scheduler, a, job_id, now) == refreshed(scheduler, b, job_id, now),
{
    if scheduler.jobs.dom().contains(job_id) {
        let options = scheduler.options;
        let job = scheduler.jobs[job_id];
        if job.state is Running {
            let max = options.task_max_attempts as nat;
            let settled = settled_job(max, job_id, job, now).0;
            lemma_settled_shape(max, job_id, job, now);
            lemma_settled_listed(max, job_id, job, now);
            lemma_same_order(job, settled);
            if !any_region_failed(settled) && !all_regions_succeeded(settled) {
                lemma_same_scheduling(
                    options,
                    a,
                    b,
                    job_id,
                    job,
                    settled,
                    settled.regions.len(),
                    now,
                );
            }
        }
    }
}

}

//! Which index files and which changed plans a refresh asks for, told by the attempts at the tasks.

use crate::id::JobId;
use crate::lists::{lemma_contains_join, lemma_contains_push};
use crate::measurements::Measurements;
use crate::scheduler::adapt::{input_ranges, is_merged, latest_attempts, lemma_ranges_fit};
use crate::scheduler::cancel::has_failure;
use crate::scheduler::effects::{
    ends_in, has_been_tried, has_member, is_broken, is_complete, is_going, lemma_swept,
};
use crate::scheduler::grouping::{are_sizes, is_undecided, lemma_sizes, takes_part};
use crate::scheduler::keys::channel_count;
use crate::scheduler::order::is_done;
use crate::scheduler::progress::has_succeeded;
use crate::scheduler::reads::{
    has_own_live, is_measured, is_own_stage, job_changes, may_read, may_start, needed_changes,
    needed_reads, stage_changes, stage_reads, PlanChange,
};
use crate::scheduler::regroup::has_stage;
use crate::scheduler::schedule::is_live;
use crate::scheduler::SchedulerView;
use crate::sizing::{is_grouping, lemma_coalesced_groups, lemma_grouping_unique};
use crate::state::{JobView, TaskState};
use std::ops::Range;
use vstd::prelude::*;

verus! {

/// Whether a region has a task that is being attempted, of a stage that no other region has tasks of.
pub open spec fn is_busy(job: JobView, region: int) -> bool {
    exists|s: int, p: int| #[trigger]
        has_member(job, region, s, p) && has_been_tried(job, s, p) && is_going(
            job.stages[s].tasks[p].last().state,
        ) && forall|r: int|
            0 <= r < job.regions.len() && r != region ==> !#[trigger] takes_part(job, r, s)
}

/// Whether a region may be started by the next refresh: it is not complete, all regions that it depends on
/// are, and it is not busy unless a task of it has failed.
pub open spec fn may_come(job: JobView, region: int) -> bool {
    &&& !is_complete(job, region)
    &&& is_broken(job, region) || !is_busy(job, region)
    &&& forall|i: int|
        0 <= i < job.topology.regions[region].dependencies.len() ==> is_complete(
            job,
            (#[trigger] job.topology.regions[region].dependencies[i]) as int,
        )
}

/// Whether a stage has a task in a region that may be started by the next refresh.
pub open spec fn is_expected(job: JobView, stage: int) -> bool {
    exists|r: int|
        0 <= r < job.regions.len() && #[trigger] takes_part(job, r, stage) && may_come(job, r)
}

/// Whether a stage that may be started by the next refresh has still to decide how to read a stage.
pub open spec fn is_asked_about(job: JobView, stage: int) -> bool {
    exists|s: int, k: int|
        0 <= s < job.graph.stages.len() && 0 <= k < job.graph.stages[s].inputs.len()
            && #[trigger] is_undecided(job, s, k) && job.graph.stages[s].inputs[k].stage == stage
            && is_expected(job, s)
}

/// A region has the same stages by either count.
proof fn lemma_parts(job: JobView, r: int, s: int)
    ensures
        has_stage(job, r, s) == takes_part(job, r, s),
{
    if has_stage(job, r, s) {
        let i = choose|i: int|
            0 <= i < job.region_tasks(r).len() && (#[trigger] job.region_tasks(r)[i]).stage == s;
        assert(job.topology.regions[r].tasks[i].stage == s);
    }
    if takes_part(job, r, s) {
        let i = choose|i: int|
            0 <= i < job.topology.regions[r].tasks.len() && (
            #[trigger] job.topology.regions[r].tasks[i]).stage == s;
        assert(job.region_tasks(r)[i].stage == s);
    }
}

/// A region is done exactly if it is complete.
proof fn lemma_done(job: JobView, r: int)
    ensures
        is_done(job, r) == is_complete(job, r),
{
    if is_done(job, r) {
        assert forall|s: int, p: int| #[trigger] has_member(job, r, s, p) implies ends_in(
            job,
            s,
            p,
            TaskState::Succeeded,
        ) by {
            let i = choose|i: int|
                0 <= i < job.topology.regions[r].tasks.len() && (
                #[trigger] job.topology.regions[r].tasks[i]).stage == s
                    && job.topology.regions[r].tasks[i].partition == p;
            assert(has_succeeded(job, job.region_tasks(r)[i]));
        }
    }
    if is_complete(job, r) {
        assert forall|i: int| 0 <= i < job.region_tasks(r).len() implies has_succeeded(
            job,
            #[trigger] job.region_tasks(r)[i],
        ) by {
            let t = job.topology.regions[r].tasks[i];
            assert(job.region_tasks(r)[i] == t);
            assert(has_member(job, r, t.stage as int, t.partition as int));
        }
    }
}

/// Whether a region may be started is told by the attempts at its tasks.
proof fn lemma_may_come(job: JobView, r: int)
    requires
        job.linked(),
        0 <= r < job.regions.len(),
    ensures
        may_start(job, r) == may_come(job, r),
{
    lemma_done(job, r);
    lemma_swept(job, 0, 0);
    assert(has_failure(job, r) == is_broken(job, r));
    assert forall|i: int| 0 <= i < job.topology.regions[r].dependencies.len() implies is_done(
        job,
        (#[trigger] job.topology.regions[r].dependencies[i]) as int,
    ) == is_complete(job, job.topology.regions[r].dependencies[i] as int) by {
        lemma_done(job, job.topology.regions[r].dependencies[i] as int);
    }
    assert forall|s: int| is_own_stage(job, r, s) == (forall|q: int|
        0 <= q < job.regions.len() && q != r ==> !#[trigger] takes_part(job, q, s)) by {
        if is_own_stage(job, r, s) {
            assert forall|q: int| 0 <= q < job.regions.len() && q != r implies !#[trigger] takes_part(
                job,
                q,
                s,
            ) by {
                lemma_parts(job, q, s);
                assert(!has_stage(job, q, s));
            }
        } else {
            let q = choose|q: int|
                0 <= q < job.regions.len() && q != r && #[trigger] has_stage(job, q, s);
            lemma_parts(job, q, s);
            assert(takes_part(job, q, s));
        }
    }
    if has_own_live(job, r) {
        let i = choose|i: int|
            0 <= i < job.region_tasks(r).len() && is_live(job, #[trigger] job.region_tasks(r)[i])
                && is_own_stage(job, r, job.region_tasks(r)[i].stage as int);
        let t = job.topology.regions[r].tasks[i];
        assert(job.region_tasks(r)[i] == t);
        assert(has_member(job, r, t.stage as int, t.partition as int));
        assert(is_own_stage(job, r, t.stage as int));
        assert(is_busy(job, r));
    }
    if is_busy(job, r) {
        let (s, p) = choose|s: int, p: int| #[trigger]
            has_member(job, r, s, p) && has_been_tried(job, s, p) && is_going(
                job.stages[s].tasks[p].last().state,
            ) && forall|q: int|
                0 <= q < job.regions.len() && q != r ==> !#[trigger] takes_part(job, q, s);
        let i = choose|i: int|
            0 <= i < job.topology.regions[r].tasks.len() && (
            #[trigger] job.topology.regions[r].tasks[i]).stage == s
                && job.topology.regions[r].tasks[i].partition == p;
        let t = job.region_tasks(r)[i];
        assert(is_own_stage(job, r, s));
        assert(is_live(job, t));
        assert(has_own_live(job, r));
    }
}

/// Whether a stage may be started is told by the attempts at the tasks.
proof fn lemma_expected(job: JobView, s: int)
    requires
        job.linked(),
    ensures
        may_read(job, s) == is_expected(job, s),
{
    if may_read(job, s) {
        let r = choose|r: int|
            0 <= r < job.regions.len() && #[trigger] has_stage(job, r, s) && may_start(job, r);
        lemma_parts(job, r, s);
        lemma_may_come(job, r);
        assert(takes_part(job, r, s));
    }
    if is_expected(job, s) {
        let r = choose|r: int|
            0 <= r < job.regions.len() && #[trigger] takes_part(job, r, s) && may_come(job, r);
        lemma_parts(job, r, s);
        lemma_may_come(job, r);
        assert(has_stage(job, r, s));
    }
}

/// Whether a stage is asked about is told by the attempts at the tasks.
proof fn lemma_asked_about(job: JobView, u: int)
    requires
        job.linked(),
    ensures
        is_measured(job, u) == is_asked_about(job, u),
{
    if is_measured(job, u) {
        let (s, k) = choose|s: int, k: int|
            0 <= s < job.graph.stages.len() && 0 <= k < job.graph.stages[s].inputs.len()
                && #[trigger] job.adaptable_input(s, k) && job.graph.stages[s].inputs[k].stage == u
                && may_read(job, s);
        lemma_expected(job, s);
        assert(is_undecided(job, s, k));
    }
    if is_asked_about(job, u) {
        let (s, k) = choose|s: int, k: int|
            0 <= s < job.graph.stages.len() && 0 <= k < job.graph.stages[s].inputs.len()
                && #[trigger] is_undecided(job, s, k) && job.graph.stages[s].inputs[k].stage == u
                && is_expected(job, s);
        lemma_expected(job, s);
        assert(job.adaptable_input(s, k));
    }
}

/// The stages that are asked about, one by one.
proof fn lemma_stage_reads(job: JobView, n: nat)
    requires
        job.linked(),
        n <= job.stages.len() <= usize::MAX,
    ensures
        ({
            let reads = stage_reads(job, n);
            &&& forall|i: int|
                0 <= i < reads.len() ==> {
                    let read = #[trigger] reads[i];
                    &&& read.stage < n
                    &&& is_asked_about(job, read.stage as int)
                    &&& read.channels == channel_count(job.graph.stages[read.stage as int])
                    &&& read.attempts == latest_attempts(job, read.stage)
                }
            &&& forall|i: int, j: int|
                0 <= i < j < reads.len() ==> (#[trigger] reads[i]).stage < (
                #[trigger] reads[j]).stage
            &&& forall|u: int|
                0 <= u < n && #[trigger] is_asked_about(job, u) ==> exists|i: int|
                    0 <= i < reads.len() && (#[trigger] reads[i]).stage == u
        }),
    decreases n,
{
    if n > 0 {
        let m = (n - 1) as nat;
        let before = stage_reads(job, m);
        let reads = stage_reads(job, n);
        lemma_stage_reads(job, m);
        lemma_asked_about(job, m as int);
        assert forall|u: int| 0 <= u < n && #[trigger] is_asked_about(job, u) implies exists|i: int|
            0 <= i < reads.len() && (#[trigger] reads[i]).stage == u by {
            if u < m {
                let i = choose|i: int|
                    0 <= i < before.len() && (#[trigger] before[i]).stage == u;
                assert(reads[i] == before[i]);
            } else {
                assert(reads[before.len() as int].stage == u);
            }
        }
    }
}

/// A refresh asks for the index files of exactly those stages whose data a stage that may be started has still
/// to decide how to read. For each of their tasks it asks for the files of the attempt with the highest
/// number, one for every channel. A job that is not running, or that reads without groups, asks for
/// nothing.
pub proof fn lemma_newest_files_requested(scheduler: SchedulerView, job_id: JobId)
    requires
        scheduler.jobs.dom().contains(job_id) ==> scheduler.jobs[job_id].linked()
            && scheduler.jobs[job_id].stages.len() <= usize::MAX,
    ensures
        ({
            let reads = needed_reads(scheduler, job_id);
            let job = scheduler.jobs[job_id];
            if scheduler.options.adaptive_enabled && scheduler.jobs.dom().contains(job_id)
                && job.state is Running {
                &&& forall|i: int|
                    0 <= i < reads.len() ==> {
                        let read = #[trigger] reads[i];
                        let tasks = job.stages[read.stage as int].tasks;
                        &&& read.stage < job.stages.len()
                        &&& is_asked_about(job, read.stage as int)
                        &&& read.channels == channel_count(job.graph.stages[read.stage as int])
                        &&& read.attempts.len() == tasks.len()
                        &&& forall|p: int|
                            0 <= p < tasks.len() ==> #[trigger] read.attempts[p] == (
                            if tasks[p].len() > 0 {
                                (tasks[p].len() - 1) as usize
                            } else {
                                0
                            })
                    }
                &&& forall|i: int, j: int|
                    0 <= i < j < reads.len() ==> (#[trigger] reads[i]).stage < (
                    #[trigger] reads[j]).stage
                &&& forall|u: int|
                    0 <= u < job.stages.len() && #[trigger] is_asked_about(job, u) ==> exists|i: int|
                        0 <= i < reads.len() && (#[trigger] reads[i]).stage == u
            } else {
                reads.len() == 0
            }
        }),
{
    let reads = needed_reads(scheduler, job_id);
    let job = scheduler.jobs[job_id];
    if scheduler.options.adaptive_enabled && scheduler.jobs.dom().contains(job_id)
        && job.state is Running {
        lemma_stage_reads(job, job.stages.len());
        assert forall|i: int| 0 <= i < reads.len() implies {
            let read = #[trigger] reads[i];
            let tasks = job.stages[read.stage as int].tasks;
            &&& read.attempts.len() == tasks.len()
            &&& forall|p: int|
                0 <= p < tasks.len() ==> #[trigger] read.attempts[p] == (if tasks[p].len() > 0 {
                    (tasks[p].len() - 1) as usize
                } else {
                    0
                })
        } by {
            let read = reads[i];
            assert(read.attempts == latest_attempts(job, read.stage));
            assert forall|p: int|
                0 <= p < job.stages[read.stage as int].tasks.len() implies #[trigger] read.attempts[p]
                == (if job.stages[read.stage as int].tasks[p].len() > 0 {
                (job.stages[read.stage as int].tasks[p].len() - 1) as usize
            } else {
                0
            }) by {
                assert(job.attempts(read.stage as int, p)
                    == job.stages[read.stage as int].tasks[p]);
            }
        }
    }
}

/// The changes of the plan of a stage, input by input.
proof fn lemma_stage_changes(
    target: u64,
    data: &Measurements,
    job_id: JobId,
    job: JobView,
    s: int,
    n: nat,
    c: PlanChange,
)
    requires
        0 <= s <= usize::MAX,
        n <= usize::MAX,
    ensures
        stage_changes(target, data, job_id, job, s, n).contains(c) <==> {
            &&& c.stage == s
            &&& c.input < n
            &&& is_merged(target, data, job_id, job, s, c.input as int)
            &&& c.groups == input_ranges(target, data, job_id, job, s, c.input as int).len()
        },
    decreases n,
{
    if n > 0 {
        let m = (n - 1) as nat;
        lemma_stage_changes(target, data, job_id, job, s, m, c);
        lemma_ranges_fit(target, data, job_id, job, s, m as int);
        let change = PlanChange {
            stage: s as usize,
            input: m as usize,
            groups: input_ranges(target, data, job_id, job, s, m as int).len() as usize,
        };
        lemma_contains_push(stage_changes(target, data, job_id, job, s, m), change, c);
    } else {
        assert(stage_changes(target, data, job_id, job, s, n).len() == 0);
    }
}

/// The changes of the plans of a job, stage by stage.
proof fn lemma_job_changes(
    target: u64,
    data: &Measurements,
    job_id: JobId,
    job: JobView,
    n: nat,
    c: PlanChange,
)
    requires
        n <= usize::MAX,
        forall|s: int| 0 <= s < n ==> (#[trigger] job.graph.stages[s]).inputs.len() <= usize::MAX,
    ensures
        job_changes(target, data, job_id, job, n).contains(c) <==> {
            &&& c.stage < n
            &&& may_read(job, c.stage as int)
            &&& c.input < job.graph.stages[c.stage as int].inputs.len()
            &&& is_merged(target, data, job_id, job, c.stage as int, c.input as int)
            &&& c.groups == input_ranges(
                target,
                data,
                job_id,
                job,
                c.stage as int,
                c.input as int,
            ).len()
        },
    decreases n,
{
    if n > 0 {
        let m = (n - 1) as nat;
        lemma_job_changes(target, data, job_id, job, m, c);
        let k = job.graph.stages[m as int].inputs.len();
        lemma_stage_changes(target, data, job_id, job, m as int, k, c);
        lemma_contains_join(
            job_changes(target, data, job_id, job, m),
            stage_changes(target, data, job_id, job, m as int, k),
            c,
        );
    } else {
        assert(job_changes(target, data, job_id, job, n).len() == 0);
    }
}

/// A refresh asks for exactly those changes of plans that the sizes of the data call for: of a stage that may
/// be started, and of an input that is undecided, if its channels come together in fewer groups.
pub proof fn lemma_changes_requested(
    scheduler: SchedulerView,
    data: &Measurements,
    job_id: JobId,
    c: PlanChange,
    sizes: Seq<u64>,
    ranges: Seq<Range<usize>>,
)
    requires
        scheduler.jobs.dom().contains(job_id),
        scheduler.jobs[job_id].linked(),
        scheduler.jobs[job_id].stages.len() <= usize::MAX,
        forall|s: int|
            0 <= s < scheduler.jobs[job_id].stages.len() ==> (
            #[trigger] scheduler.jobs[job_id].graph.stages[s]).inputs.len() <= usize::MAX,
        c.stage < scheduler.jobs[job_id].stages.len(),
        c.input < scheduler.jobs[job_id].graph.stages[c.stage as int].inputs.len(),
        are_sizes(
            &data.index,
            job_id,
            scheduler.jobs[job_id],
            scheduler.jobs[job_id].graph.stages[c.stage as int].inputs[c.input as int].stage,
            sizes,
        ),
        is_grouping(sizes, scheduler.options.target_partition_size as nat, ranges),
    ensures
        ({
            let job = scheduler.jobs[job_id];
            needed_changes(scheduler, data, job_id).contains(c) <==> {
                &&& scheduler.options.adaptive_enabled
                &&& job.state is Running
                &&& is_expected(job, c.stage as int)
                &&& is_undecided(job, c.stage as int, c.input as int)
                &&& ranges.len() < sizes.len()
                &&& c.groups == ranges.len()
            }
        }),
{
    let job = scheduler.jobs[job_id];
    let target = scheduler.options.target_partition_size;
    let s = c.stage as int;
    let k = c.input as int;
    let u = job.graph.stages[s].inputs[k].stage;
    assert(u < job.stages.len());
    if scheduler.options.adaptive_enabled && job.state is Running {
        lemma_job_changes(target, data, job_id, job, job.stages.len(), c);
        lemma_expected(job, s);
        lemma_sizes(&data.index, job_id, job, u, sizes);
        lemma_coalesced_groups(sizes, target as nat);
        lemma_grouping_unique(
            sizes,
            target as nat,
            ranges,
            input_ranges(target, data, job_id, job, s, k),
        );
    } else {
        assert(needed_changes(scheduler, data, job_id).len() == 0);
    }
}

/// The changes of a plan are listed in the order of the inputs.
proof fn lemma_stage_changes_in_order(
    target: u64,
    data: &Measurements,
    job_id: JobId,
    job: JobView,
    s: int,
    n: nat,
)
    requires
        0 <= s <= usize::MAX,
        n <= usize::MAX,
    ensures
        ({
            let r = stage_changes(target, data, job_id, job, s, n);
            &&& forall|i: int| 0 <= i < r.len() ==> (#[trigger] r[i]).stage == s && r[i].input < n
            &&& forall|i: int, j: int|
                0 <= i < j < r.len() ==> (#[trigger] r[i]).input < (#[trigger] r[j]).input
        }),
    decreases n,
{
    if n > 0 {
        let before = stage_changes(target, data, job_id, job, s, (n - 1) as nat);
        let r = stage_changes(target, data, job_id, job, s, n);
        lemma_stage_changes_in_order(target, data, job_id, job, s, (n - 1) as nat);
        assert forall|i: int| 0 <= i < r.len() implies (#[trigger] r[i]).stage == s && r[i].input
            < n && (i < before.len() ==> r[i] == before[i]) && (i >= before.len() ==> r[i].input
            == n - 1) by {
            if i < before.len() {
                assert(before[i].stage == s);
            }
        }
        assert forall|i: int, j: int| 0 <= i < j < r.len() implies (#[trigger] r[i]).input < (
        #[trigger] r[j]).input by {
            assert(before[i].input < n - 1);
            if j < before.len() {
                assert(before[i].input < before[j].input);
            }
        }
    }
}

/// The changes of plans that a refresh asks for are listed by stage, and those of a stage by input.
pub proof fn lemma_changes_in_order(
    target: u64,
    data: &Measurements,
    job_id: JobId,
    job: JobView,
    n: nat,
)
    requires
        n <= usize::MAX,
        forall|s: int| 0 <= s < n ==> (#[trigger] job.graph.stages[s]).inputs.len() <= usize::MAX,
    ensures
        ({
            let r = job_changes(target, data, job_id, job, n);
            &&& forall|i: int| 0 <= i < r.len() ==> (#[trigger] r[i]).stage < n
            &&& forall|i: int, j: int|
                0 <= i < j < r.len() ==> (#[trigger] r[i]).stage < (#[trigger] r[j]).stage || (
                r[i].stage == r[j].stage && r[i].input < r[j].input)
        }),
    decreases n,
{
    if n > 0 {
        let m = (n - 1) as nat;
        let k = job.graph.stages[m as int].inputs.len();
        lemma_changes_in_order(target, data, job_id, job, m);
        lemma_stage_changes_in_order(target, data, job_id, job, m as int, k);
        let a = job_changes(target, data, job_id, job, m);
        let b = stage_changes(target, data, job_id, job, m as int, k);
        let r = job_changes(target, data, job_id, job, n);
        if may_read(job, m as int) {
            assert(r == a + b);
            assert forall|i: int| 0 <= i < r.len() implies r[i] == (if i < a.len() {
                a[i]
            } else {
                b[i - a.len()]
            }) by {}
        }
    }
}

}

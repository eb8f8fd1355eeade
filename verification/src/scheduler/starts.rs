//! Which regions are started, and what that does to them, told by the attempts at their tasks.

use crate::action::ActionView;
use crate::clock::Timestamp;
use crate::id::JobId;
use crate::measurements::Measurements;
use crate::scheduler::adapt::{adapted_region, lemma_region_stages};
use crate::scheduler::effects::{
    has_been_tried, has_member, is_complete, is_going, is_lost, lemma_settled_attempts,
    lemma_settled_region_states,
};
use crate::scheduler::grouping::{
    are_sizes, is_undecided, lemma_groups_follow_sizes, lemma_region_takes_all_tasks,
    reads_outside, summed_bytes, takes_part,
};
use crate::scheduler::lifecycle::{can_refresh, lemma_settled_shape, refreshed_job, settled_job};
use crate::scheduler::options::SchedulerOptionsView;
use crate::scheduler::region::{region_sets, task_stages};
use crate::scheduler::regroup::lemma_only_stages_changed;
use crate::scheduler::schedule::{
    adapted_if_enabled, can_schedule, is_live, is_ready, lemma_adapted_if_enabled,
    lemma_new_attempts, lemma_ready_exists, lemma_scheduled_regions, prepared_region,
    scheduled_regions, with_new_attempts,
};
use crate::shuffle_index::ShuffleIndex;
use crate::sizing::is_grouping;
use crate::state::{AttemptView, JobView, TaskRegionState, TaskState};
use crate::topology::TaskTopology;
use std::ops::Range;
use vstd::prelude::*;

verus! {

/// Whether a region is due to be started: it has not succeeded, all regions that it depends on have, and no
/// task of it is being attempted.
pub open spec fn is_due(job: JobView, region: int) -> bool {
    &&& job.regions[region] != TaskRegionState::Succeeded
    &&& forall|i: int|
        0 <= i < job.topology.regions[region].dependencies.len() ==> job.regions[(
        #[trigger] job.topology.regions[region].dependencies[i]) as int]
            == TaskRegionState::Succeeded
    &&& forall|s: int, p: int| #[trigger]
        has_member(job, region, s, p) && has_been_tried(job, s, p) ==> !is_going(
            job.stages[s].tasks[p].last().state,
        )
}

/// How many of the first `n` regions are due to be started.
pub open spec fn due_count(job: JobView, n: int) -> int
    decreases n,
{
    if n <= 0 {
        0
    } else if is_due(job, n - 1) {
        due_count(job, n - 1) + 1
    } else {
        due_count(job, n - 1)
    }
}

/// Whether no two regions have tasks of the same stage, and no region has a task twice.
pub open spec fn are_apart(job: JobView) -> bool {
    &&& forall|q: int, r: int, s: int|
        0 <= q < job.topology.regions.len() && 0 <= r < job.topology.regions.len()
            && #[trigger] takes_part(job, q, s) && #[trigger] takes_part(job, r, s) ==> q == r
    &&& forall|r: int|
        0 <= r < job.topology.regions.len()
            ==> (#[trigger] job.topology.regions[r]).tasks.no_duplicates()
}

/// Whether an attempt has just been made.
pub open spec fn is_fresh(attempt: AttemptView, now: Timestamp) -> bool {
    &&& attempt.state == TaskState::Created
    &&& attempt.messages.len() == 0
    &&& attempt.cause is None
    &&& !attempt.job_output_fetched
    &&& attempt.created_at == now
    &&& attempt.stopped_at is None
}

/// Whether a region has been started: every task that it has has been attempted once more. It has the tasks
/// that it comes to have when its turn comes, and they read what they come to read then.
pub open spec fn is_started(
    options: SchedulerOptionsView,
    data: &Measurements,
    job_id: JobId,
    turn: JobView,
    after: JobView,
    region: int,
    now: Timestamp,
) -> bool {
    let chosen = if options.adaptive_enabled {
        adapted_region(options.target_partition_size, data, job_id, turn, region)
    } else {
        turn
    };
    &&& after.topology.regions[region] == chosen.topology.regions[region]
    &&& forall|s: int|
        #![trigger after.stages[s]]
        #![trigger after.graph.stages[s]]
        takes_part(turn, region, s) && 0 <= s < turn.stages.len() ==> {
            &&& after.graph.stages[s] == chosen.graph.stages[s]
            &&& after.stages[s].state == chosen.stages[s].state
            &&& after.stages[s].created_at == chosen.stages[s].created_at
            &&& after.stages[s].stopped_at == chosen.stages[s].stopped_at
            &&& after.stages[s].tasks.len() == chosen.stages[s].tasks.len()
        }
    &&& forall|s: int, p: int|
        takes_part(turn, region, s) && 0 <= s < turn.stages.len() && 0 <= p
            < chosen.stages[s].tasks.len() ==> {
            let old_attempts = chosen.stages[s].tasks[p];
            let new_attempts = #[trigger] after.stages[s].tasks[p];
            if has_member(chosen, region, s, p) {
                &&& new_attempts.len() == old_attempts.len() + 1
                &&& new_attempts.drop_last() == old_attempts
                &&& is_fresh(new_attempts.last(), now)
            } else {
                new_attempts == old_attempts
            }
        }
}

/// Whether a task is one of some.
spec fn is_among(tasks: Seq<TaskTopology>, s: int, p: int) -> bool {
    exists|i: int| 0 <= i < tasks.len() && (#[trigger] tasks[i]).stage == s && tasks[i].partition == p
}

/// New attempts at tasks, each of which is there once.
proof fn lemma_tried_again(job: JobView, tasks: Seq<TaskTopology>, now: Timestamp)
    requires
        tasks.no_duplicates(),
        forall|i: int|
            0 <= i < tasks.len() ==> job.has_task(
                (#[trigger] tasks[i]).stage as int,
                tasks[i].partition as int,
            ),
    ensures
        ({
            let after = with_new_attempts(job, tasks, now);
            &&& after.graph == job.graph
            &&& after.topology == job.topology
            &&& after.regions == job.regions
            &&& after.stages.len() == job.stages.len()
            &&& forall|s: int|
                0 <= s < job.stages.len() ==> {
                    &&& (#[trigger] after.stages[s]).state == job.stages[s].state
                    &&& after.stages[s].created_at == job.stages[s].created_at
                    &&& after.stages[s].stopped_at == job.stages[s].stopped_at
                    &&& after.stages[s].tasks.len() == job.stages[s].tasks.len()
                }
            &&& forall|s: int, p: int|
                0 <= s < job.stages.len() && 0 <= p < job.stages[s].tasks.len() ==> {
                    let old_attempts = job.stages[s].tasks[p];
                    let new_attempts = #[trigger] after.stages[s].tasks[p];
                    if is_among(tasks, s, p) {
                        &&& new_attempts.len() == old_attempts.len() + 1
                        &&& new_attempts.drop_last() == old_attempts
                        &&& is_fresh(new_attempts.last(), now)
                    } else {
                        new_attempts == old_attempts
                    }
                }
            &&& forall|s: int|
                0 <= s < job.stages.len() && (forall|p: int| !#[trigger] is_among(tasks, s, p))
                    ==> #[trigger] after.stages[s] == job.stages[s]
        }),
    decreases tasks.len(),
{
    let after = with_new_attempts(job, tasks, now);
    if tasks.len() > 0 {
        let rest = tasks.drop_last();
        let t = tasks.last();
        let s0 = t.stage as int;
        let p0 = t.partition as int;
        assert forall|i: int| 0 <= i < rest.len() implies job.has_task(
            (#[trigger] rest[i]).stage as int,
            rest[i].partition as int,
        ) by {
            assert(rest[i] == tasks[i]);
        }
        assert(rest.no_duplicates()) by {
            assert forall|i: int, j: int| 0 <= i < rest.len() && 0 <= j < rest.len() && i != j implies rest[i]
                != rest[j] by {
                assert(tasks[i] != tasks[j]);
            }
        }
        lemma_tried_again(job, rest, now);
        let before = with_new_attempts(job, rest, now);
        assert(tasks[tasks.len() - 1] == t);
        assert(job.has_task(s0, p0));
        assert(before.stages[s0].tasks.len() == job.stages[s0].tasks.len());
        assert forall|s: int, p: int|
            is_among(tasks, s, p) <==> #[trigger] is_among(rest, s, p) || (s == s0 && p == p0) by {
            if is_among(tasks, s, p) {
                let i = choose|i: int|
                    0 <= i < tasks.len() && (#[trigger] tasks[i]).stage == s && tasks[i].partition
                        == p;
                if i < rest.len() {
                    assert(rest[i] == tasks[i]);
                }
            }
            if is_among(rest, s, p) {
                let i = choose|i: int|
                    0 <= i < rest.len() && (#[trigger] rest[i]).stage == s && rest[i].partition == p;
                assert(tasks[i] == rest[i]);
            }
        }
        assert(!is_among(rest, s0, p0)) by {
            if is_among(rest, s0, p0) {
                let i = choose|i: int|
                    0 <= i < rest.len() && (#[trigger] rest[i]).stage == s0 && rest[i].partition
                        == p0;
                assert(tasks[i] == rest[i]);
                assert(tasks[i] == tasks[tasks.len() - 1]);
            }
        }
        assert(is_among(tasks, s0, p0));
        assert forall|s: int, p: int|
            0 <= s < job.stages.len() && 0 <= p < job.stages[s].tasks.len() implies {
            let old_attempts = job.stages[s].tasks[p];
            let new_attempts = #[trigger] after.stages[s].tasks[p];
            if is_among(tasks, s, p) {
                &&& new_attempts.len() == old_attempts.len() + 1
                &&& new_attempts.drop_last() == old_attempts
                &&& is_fresh(new_attempts.last(), now)
            } else {
                new_attempts == old_attempts
            }
        } by {
            assert(is_among(tasks, s, p) <==> is_among(rest, s, p) || (s == s0 && p == p0));
            let middle = before.stages[s].tasks[p];
            if s == s0 && p == p0 {
                assert(after.stages[s].tasks[p].drop_last() =~= middle);
            } else {
                assert(after.stages[s].tasks[p] == middle);
            }
        }
        assert forall|s: int|
            0 <= s < job.stages.len() && (forall|p: int| !#[trigger] is_among(tasks, s, p))
            implies #[trigger] after.stages[s] == job.stages[s] by {
            assert(!is_among(tasks, s, p0));
            assert(s != s0);
            assert forall|p: int| !#[trigger] is_among(rest, s, p) by {
                assert(!is_among(tasks, s, p));
            }
            assert(after.stages[s] == before.stages[s]);
        }
    } else {
        assert forall|s: int, p: int| !#[trigger] is_among(tasks, s, p) by {}
    }
}

/// Exactly the regions that are due are started, one after the other, and a region that is started is put
/// into task sets. Whatever does not belong to these regions stays as it is.
pub proof fn lemma_due_regions_start(
    options: SchedulerOptionsView,
    data: &Measurements,
    job_id: JobId,
    job: JobView,
    n: nat,
    now: Timestamp,
)
    requires
        job.sound(),
        are_apart(job),
        n <= job.regions.len(),
        can_schedule(options, data, job_id, job, n, now),
    ensures
        ({
            let after = scheduled_regions(options, data, job_id, job, n, now).0;
            let actions = scheduled_regions(options, data, job_id, job, n, now).1;
            &&& after.regions == job.regions
            &&& after.stages.len() == job.stages.len()
            &&& after.graph.stages.len() == job.graph.stages.len()
            &&& after.topology.regions.len() == job.topology.regions.len()
            &&& forall|s: int|
                #![trigger after.stages[s]]
                #![trigger after.graph.stages[s]]
                0 <= s < job.stages.len() && (forall|r: int|
                    0 <= r < n && is_due(job, r) ==> !#[trigger] takes_part(job, r, s))
                    ==> after.stages[s] == job.stages[s] && after.graph.stages[s]
                    == job.graph.stages[s]
            &&& forall|r: int|
                0 <= r < job.regions.len() && (r >= n || !is_due(job, r))
                    ==> #[trigger] after.topology.regions[r] == job.topology.regions[r]
            &&& forall|r: int|
                0 <= r < n && #[trigger] is_due(job, r) ==> is_started(
                    options,
                    data,
                    job_id,
                    scheduled_regions(options, data, job_id, job, r as nat, now).0,
                    after,
                    r,
                    now,
                )
            &&& actions.len() == due_count(job, n as int)
            &&& forall|r: int|
                0 <= r < n && #[trigger] is_due(job, r) ==> {
                    let then = scheduled_regions(options, data, job_id, job, (r + 1) as nat, now).0;
                    &&& 0 <= due_count(job, r) < actions.len()
                    &&& actions[due_count(job, r)] == (ActionView::ScheduleTaskRegion {
                        region: region_sets(job_id, then, then.topology.regions[r].tasks),
                    })
                }
        }),
    decreases n,
{
    if n > 0 {
        let r = n - 1;
        let m = r as nat;
        let before = scheduled_regions(options, data, job_id, job, m, now).0;
        let after = scheduled_regions(options, data, job_id, job, n, now).0;
        let earlier = scheduled_regions(options, data, job_id, job, m, now).1;
        let actions = scheduled_regions(options, data, job_id, job, n, now).1;
        lemma_due_regions_start(options, data, job_id, job, m, now);
        lemma_scheduled_regions(options, data, job_id, job, m, now);
        lemma_counts_grow(job, m as int);
        assert(before.topology.regions[r] == job.topology.regions[r]);
        assert forall|s: int| takes_part(job, r, s) && 0 <= s < job.stages.len() implies (
        #[trigger] before.stages[s]) == job.stages[s] by {
            assert forall|q: int| 0 <= q < m && is_due(job, q) implies !#[trigger] takes_part(
                job,
                q,
                s,
            ) by {
                if takes_part(job, q, s) {
                    assert(takes_part(job, r, s));
                }
            }
        }
        lemma_due_is_ready(job, before, r);
        assert forall|s: int| takes_part(before, r, s) == #[trigger] takes_part(job, r, s) by {
            lemma_same_part(before, job, r, s);
        }
        if is_ready(before, r) {
            lemma_ready_exists(before, r);
            assert(job.topology.regions[r].tasks.no_duplicates());
            lemma_one_start(options, data, job_id, before, r, now);
            assert forall|s: int|
                #![trigger after.stages[s]]
                #![trigger after.graph.stages[s]]
                0 <= s < job.stages.len() && (forall|q: int|
                    0 <= q < n && is_due(job, q) ==> !#[trigger] takes_part(job, q, s))
                implies after.stages[s] == job.stages[s] && after.graph.stages[s]
                == job.graph.stages[s] by {
                assert(!takes_part(job, r, s));
                assert(after.stages[s] == before.stages[s]);
                assert(before.stages[s] == job.stages[s]);
            }
            assert forall|q: int| 0 <= q < n && #[trigger] is_due(job, q) implies is_started(
                options,
                data,
                job_id,
                scheduled_regions(options, data, job_id, job, q as nat, now).0,
                after,
                q,
                now,
            ) by {
                if q < r {
                    let turn = scheduled_regions(options, data, job_id, job, q as nat, now).0;
                    lemma_before(options, data, job_id, job, q as nat, m, now);
                    assert forall|s: int| takes_part(turn, q, s) && 0 <= s < turn.stages.len() implies (
                    #[trigger] after.stages[s]) == before.stages[s] && after.graph.stages[s]
                        == before.graph.stages[s] by {
                        lemma_same_part(turn, job, q, s);
                        assert(takes_part(job, q, s));
                        if takes_part(job, r, s) {
                            assert(q == r);
                        }
                        assert(!takes_part(before, r, s));
                    }
                    lemma_stays_started(options, data, job_id, turn, before, after, q, now);
                }
            }
        } else {
            assert forall|q: int| 0 <= q < n && #[trigger] is_due(job, q) implies is_started(
                options,
                data,
                job_id,
                scheduled_regions(options, data, job_id, job, q as nat, now).0,
                after,
                q,
                now,
            ) by {
                assert(q < r);
            }
        }
        assert forall|q: int| 0 <= q < n && #[trigger] is_due(job, q) implies {
            let then = scheduled_regions(options, data, job_id, job, (q + 1) as nat, now).0;
            &&& 0 <= due_count(job, q) < actions.len()
            &&& actions[due_count(job, q)] == (ActionView::ScheduleTaskRegion {
                region: region_sets(job_id, then, then.topology.regions[q].tasks),
            })
        } by {
            if q < r {
                assert(0 <= due_count(job, q) < earlier.len());
            }
        }
    }
}

/// What can be scheduled up to some region can be scheduled up to an earlier one, and before its turn a
/// region has the tasks that it had at first.
proof fn lemma_before(
    options: SchedulerOptionsView,
    data: &Measurements,
    job_id: JobId,
    job: JobView,
    q: nat,
    n: nat,
    now: Timestamp,
)
    requires
        job.sound(),
        are_apart(job),
        q <= n <= job.regions.len(),
        q < job.regions.len(),
        can_schedule(options, data, job_id, job, n, now),
    ensures
        can_schedule(options, data, job_id, job, q, now),
        ({
            let turn = scheduled_regions(options, data, job_id, job, q, now).0;
            &&& turn.stages.len() == job.stages.len()
            &&& turn.topology.regions[q as int] == job.topology.regions[q as int]
        }),
    decreases n, q,
{
    if q < n {
        lemma_before(options, data, job_id, job, q, (n - 1) as nat, now);
    } else {
        lemma_kept_until(options, data, job_id, job, q, now);
    }
}

/// Before its turn a region has the tasks that it had at first.
proof fn lemma_kept_until(
    options: SchedulerOptionsView,
    data: &Measurements,
    job_id: JobId,
    job: JobView,
    q: nat,
    now: Timestamp,
)
    requires
        job.sound(),
        q <= job.regions.len(),
        can_schedule(options, data, job_id, job, q, now),
    ensures
        ({
            let turn = scheduled_regions(options, data, job_id, job, q, now).0;
            &&& turn.stages.len() == job.stages.len()
            &&& turn.topology.regions.len() == job.topology.regions.len()
            &&& forall|r: int|
                q <= r < job.topology.regions.len() ==> #[trigger] turn.topology.regions[r]
                    == job.topology.regions[r]
        }),
    decreases q,
{
    if q > 0 {
        let r = q - 1;
        let before = scheduled_regions(options, data, job_id, job, r as nat, now).0;
        lemma_kept_until(options, data, job_id, job, r as nat, now);
        lemma_scheduled_regions(options, data, job_id, job, r as nat, now);
        if is_ready(before, r) {
            lemma_ready_exists(before, r);
            lemma_adapted_if_enabled(options, data, job_id, before, r);
            lemma_region_takes_all_tasks(options.target_partition_size, data, job_id, before, r);
            let chosen = adapted_if_enabled(options, data, job_id, before, r);
            lemma_new_attempts(chosen, chosen.region_tasks(r), now);
        }
    }
}

/// A region with the same tasks has the same stages.
proof fn lemma_same_part(a: JobView, b: JobView, r: int, s: int)
    requires
        a.topology.regions[r] == b.topology.regions[r],
    ensures
        takes_part(a, r, s) == takes_part(b, r, s),
{
    if takes_part(a, r, s) {
        let i = choose|i: int|
            0 <= i < a.topology.regions[r].tasks.len() && (
            #[trigger] a.topology.regions[r].tasks[i]).stage == s;
        assert(b.topology.regions[r].tasks[i].stage == s);
    }
    if takes_part(b, r, s) {
        let i = choose|i: int|
            0 <= i < b.topology.regions[r].tasks.len() && (
            #[trigger] b.topology.regions[r].tasks[i]).stage == s;
        assert(a.topology.regions[r].tasks[i].stage == s);
    }
}

/// Preparing a region starts it, and changes nothing else.
proof fn lemma_one_start(
    options: SchedulerOptionsView,
    data: &Measurements,
    job_id: JobId,
    before: JobView,
    r: int,
    now: Timestamp,
)
    requires
        before.linked(),
        0 <= r < before.regions.len(),
        before.tasks_exist(r),
        before.topology.regions[r].tasks.no_duplicates(),
    ensures
        ({
            let after = prepared_region(options, data, job_id, before, r, now);
            &&& is_started(options, data, job_id, before, after, r, now)
            &&& after.regions == before.regions
            &&& after.stages.len() == before.stages.len()
            &&& after.graph.stages.len() == before.graph.stages.len()
            &&& after.topology.regions.len() == before.topology.regions.len()
            &&& forall|q: int|
                0 <= q < before.topology.regions.len() && q != r
                    ==> #[trigger] after.topology.regions[q] == before.topology.regions[q]
            &&& forall|s: int|
                #![trigger after.stages[s]]
                #![trigger after.graph.stages[s]]
                0 <= s < before.stages.len() && !takes_part(before, r, s) ==> after.stages[s]
                    == before.stages[s] && after.graph.stages[s] == before.graph.stages[s]
        }),
{
    let after = prepared_region(options, data, job_id, before, r, now);
    let chosen = adapted_if_enabled(options, data, job_id, before, r);
    let tasks = chosen.region_tasks(r);
    lemma_adapted_if_enabled(options, data, job_id, before, r);
    lemma_region_takes_all_tasks(options.target_partition_size, data, job_id, before, r);
    assert(tasks == chosen.topology.regions[r].tasks);
    assert(tasks.no_duplicates());
    lemma_tried_again(chosen, tasks, now);
    assert forall|s: int, p: int| #[trigger]
        is_among(tasks, s, p) <==> has_member(chosen, r, s, p) by {
        if is_among(tasks, s, p) {
            let i = choose|i: int|
                0 <= i < tasks.len() && (#[trigger] tasks[i]).stage == s && tasks[i].partition == p;
            assert(chosen.topology.regions[r].tasks[i].stage == s);
        }
        if has_member(chosen, r, s, p) {
            let i = choose|i: int|
                0 <= i < chosen.topology.regions[r].tasks.len() && (
                #[trigger] chosen.topology.regions[r].tasks[i]).stage == s
                    && chosen.topology.regions[r].tasks[i].partition == p;
            assert(tasks[i].stage == s);
        }
    }
    assert forall|s: int, p: int| #[trigger] is_among(tasks, s, p) implies takes_part(
        before,
        r,
        s,
    ) by {
        assert(has_member(chosen, r, s, p));
        if !options.adaptive_enabled {
            let i = choose|i: int|
                0 <= i < tasks.len() && (#[trigger] tasks[i]).stage == s && tasks[i].partition == p;
            assert(before.topology.regions[r].tasks[i].stage == s);
        }
    }
    assert forall|s: int|
        #![trigger after.stages[s]]
        #![trigger after.graph.stages[s]]
        0 <= s < before.stages.len() && !takes_part(before, r, s) implies after.stages[s]
        == before.stages[s] && after.graph.stages[s] == before.graph.stages[s] by {
        assert forall|p: int| !#[trigger] is_among(tasks, s, p) by {}
        assert(after.stages[s] == chosen.stages[s]);
        assert(chosen.stages[s] == before.stages[s]);
    }
    assert forall|s: int, p: int|
        takes_part(before, r, s) && 0 <= s < before.stages.len() && 0 <= p
            < chosen.stages[s].tasks.len() implies {
        let old_attempts = chosen.stages[s].tasks[p];
        let new_attempts = #[trigger] after.stages[s].tasks[p];
        if has_member(chosen, r, s, p) {
            &&& new_attempts.len() == old_attempts.len() + 1
            &&& new_attempts.drop_last() == old_attempts
            &&& is_fresh(new_attempts.last(), now)
        } else {
            new_attempts == old_attempts
        }
    } by {
        assert(is_among(tasks, s, p) <==> has_member(chosen, r, s, p));
    }
}

/// Counts of due regions are not negative.
proof fn lemma_counts_grow(job: JobView, n: int)
    requires
        n >= 0,
    ensures
        due_count(job, n) >= 0,
    decreases n,
{
    if n > 0 {
        lemma_counts_grow(job, n - 1);
    }
}

/// A region whose stages have not changed is ready exactly if it is due.
proof fn lemma_due_is_ready(job: JobView, before: JobView, r: int)
    requires
        job.linked(),
        0 <= r < job.regions.len(),
        before.regions == job.regions,
        before.stages.len() == job.stages.len(),
        before.topology.regions[r] == job.topology.regions[r],
        forall|s: int|
            takes_part(job, r, s) && 0 <= s < job.stages.len() ==> (#[trigger] before.stages[s])
                == job.stages[s],
    ensures
        is_ready(before, r) <==> is_due(job, r),
{
    let tasks = job.topology.regions[r].tasks;
    assert(before.region_tasks(r) == tasks);
    assert forall|i: int| 0 <= i < tasks.len() implies {
        let t = #[trigger] tasks[i];
        let s = t.stage as int;
        let p = t.partition as int;
        &&& has_member(job, r, s, p)
        &&& is_live(before, t) == (has_been_tried(job, s, p) && is_going(
            job.stages[s].tasks[p].last().state,
        ))
    } by {
        let t = tasks[i];
        let s = t.stage as int;
        assert(job.topology.regions[r].tasks[i] == t);
        assert(job.region_tasks(r)[i] == t);
        assert(takes_part(job, r, s));
        assert(has_member(job, r, s, t.partition as int));
        assert(before.stages[s] == job.stages[s]);
    }
    if is_ready(before, r) {
        assert forall|s: int, p: int| #[trigger]
            has_member(job, r, s, p) && has_been_tried(job, s, p) implies !is_going(
            job.stages[s].tasks[p].last().state,
        ) by {
            let i = choose|i: int|
                0 <= i < job.topology.regions[r].tasks.len() && (
                #[trigger] job.topology.regions[r].tasks[i]).stage == s
                    && job.topology.regions[r].tasks[i].partition == p;
            assert(!is_live(before, before.region_tasks(r)[i]));
            assert(tasks[i] == before.region_tasks(r)[i]);
        }
        assert forall|i: int| 0 <= i < job.topology.regions[r].dependencies.len() implies job.regions[(
        #[trigger] job.topology.regions[r].dependencies[i]) as int]
            == TaskRegionState::Succeeded by {
            assert(before.regions[before.topology.regions[r].dependencies[i] as int] is Succeeded);
        }
    }
    if is_due(job, r) {
        assert forall|i: int| 0 <= i < before.region_tasks(r).len() implies !is_live(
            before,
            #[trigger] before.region_tasks(r)[i],
        ) by {
            let t = tasks[i];
            assert(has_member(job, r, t.stage as int, t.partition as int));
        }
        assert forall|i: int| 0 <= i < before.topology.regions[r].dependencies.len() implies before.regions[(
        #[trigger] before.topology.regions[r].dependencies[i]) as int] is Succeeded by {
            assert(job.regions[job.topology.regions[r].dependencies[i] as int]
                == TaskRegionState::Succeeded);
        }
    }
}

/// Starting another region does not undo that a region has been started.
proof fn lemma_stays_started(
    options: SchedulerOptionsView,
    data: &Measurements,
    job_id: JobId,
    turn: JobView,
    before: JobView,
    after: JobView,
    q: int,
    now: Timestamp,
)
    requires
        is_started(options, data, job_id, turn, before, q, now),
        after.topology.regions[q] == before.topology.regions[q],
        forall|s: int|
            takes_part(turn, q, s) && 0 <= s < turn.stages.len() ==> (#[trigger] after.stages[s])
                == before.stages[s] && after.graph.stages[s] == before.graph.stages[s],
    ensures
        is_started(options, data, job_id, turn, after, q, now),
{
    let chosen = if options.adaptive_enabled {
        adapted_region(options.target_partition_size, data, job_id, turn, q)
    } else {
        turn
    };
    assert forall|s: int|
        #![trigger after.stages[s]]
        #![trigger after.graph.stages[s]]
        takes_part(turn, q, s) && 0 <= s < turn.stages.len() implies {
        &&& after.graph.stages[s] == chosen.graph.stages[s]
        &&& after.stages[s].state == chosen.stages[s].state
        &&& after.stages[s].created_at == chosen.stages[s].created_at
        &&& after.stages[s].stopped_at == chosen.stages[s].stopped_at
        &&& after.stages[s].tasks.len() == chosen.stages[s].tasks.len()
    } by {
        assert(after.stages[s] == before.stages[s]);
    }
    assert forall|s: int, p: int|
        takes_part(turn, q, s) && 0 <= s < turn.stages.len() && 0 <= p
            < chosen.stages[s].tasks.len() implies {
        let old_attempts = chosen.stages[s].tasks[p];
        let new_attempts = #[trigger] after.stages[s].tasks[p];
        if has_member(chosen, q, s, p) {
            &&& new_attempts.len() == old_attempts.len() + 1
            &&& new_attempts.drop_last() == old_attempts
            &&& is_fresh(new_attempts.last(), now)
        } else {
            new_attempts == old_attempts
        }
    } by {
        assert(after.stages[s] == before.stages[s]);
        let kept = before.stages[s].tasks[p];
    }
}

/// A refresh of a job that goes on starts the regions that are due once the reports have been dealt with, and
/// calls for that after everything else.
pub proof fn lemma_refresh_starts(
    options: SchedulerOptionsView,
    data: &Measurements,
    job_id: JobId,
    job: JobView,
    now: Timestamp,
)
    requires
        job.well_formed(),
        job.state is Running,
        forall|r: int|
            0 <= r < job.regions.len() ==> !#[trigger] is_lost(
                job,
                options.task_max_attempts as nat,
                r,
            ),
        exists|r: int| 0 <= r < job.regions.len() && !#[trigger] is_complete(job, r),
    ensures
        ({
            let (settled, first) = settled_job(options.task_max_attempts as nat, job_id, job, now);
            let (started, more) = scheduled_regions(
                options,
                data,
                job_id,
                settled,
                job.regions.len(),
                now,
            );
            let (after, actions) = refreshed_job(options, data, job_id, job, now);
            &&& after == started
            &&& actions.len() == first.len() + more.len()
            &&& forall|i: int| 0 <= i < first.len() ==> #[trigger] actions[i] == first[i]
            &&& forall|i: int| 0 <= i < more.len() ==> actions[first.len() + i] == #[trigger] more[i]
        }),
{
    let max = options.task_max_attempts as nat;
    let (settled, first) = settled_job(max, job_id, job, now);
    lemma_settled_region_states(max, job_id, job, now);
    let r = choose|r: int| 0 <= r < job.regions.len() && !#[trigger] is_complete(job, r);
    assert(!is_lost(job, max, r));
    assert(!(settled.regions[r] is Succeeded));
    assert forall|q: int| 0 <= q < settled.regions.len() implies !((
    #[trigger] settled.regions[q]) is Failed) by {
        assert(!is_lost(job, max, q));
    }
}

/// Starting regions leaves the modes and the distributions of all stages as they are.
proof fn lemma_modes_kept(
    options: SchedulerOptionsView,
    data: &Measurements,
    job_id: JobId,
    job: JobView,
    n: nat,
    now: Timestamp,
)
    requires
        job.sound(),
        n <= job.regions.len(),
        can_schedule(options, data, job_id, job, n, now),
    ensures
        ({
            let after = scheduled_regions(options, data, job_id, job, n, now).0;
            &&& after.graph.stages.len() == job.graph.stages.len()
            &&& forall|s: int|
                0 <= s < job.graph.stages.len() ==> (#[trigger] after.graph.stages[s]).mode
                    == job.graph.stages[s].mode && after.graph.stages[s].distribution
                    == job.graph.stages[s].distribution
        }),
    decreases n,
{
    if n > 0 {
        let r = n - 1;
        let before = scheduled_regions(options, data, job_id, job, r as nat, now).0;
        let after = scheduled_regions(options, data, job_id, job, n, now).0;
        lemma_modes_kept(options, data, job_id, job, r as nat, now);
        lemma_scheduled_regions(options, data, job_id, job, r as nat, now);
        if is_ready(before, r) {
            lemma_ready_exists(before, r);
            lemma_adapted_if_enabled(options, data, job_id, before, r);
            let chosen = adapted_if_enabled(options, data, job_id, before, r);
            lemma_new_attempts(chosen, chosen.region_tasks(r), now);
            let stages = task_stages(before.region_tasks(r));
            lemma_region_stages(before, r);
            lemma_only_stages_changed(
                options.target_partition_size,
                data,
                job_id,
                before,
                stages,
            );
            assert forall|s: int| 0 <= s < job.graph.stages.len() implies (
            #[trigger] after.graph.stages[s]).mode == job.graph.stages[s].mode
                && after.graph.stages[s].distribution == job.graph.stages[s].distribution by {
                assert(before.graph.stages[s].mode == job.graph.stages[s].mode);
                assert(chosen.graph.stages[s].mode == before.graph.stages[s].mode);
            }
        }
    }
}

/// Whether a region that is due reads from no region that is due as well, as far as it has still to decide how
/// to read.
pub open spec fn reads_finished_data(job: JobView, settled: JobView, region: int) -> bool {
    forall|s: int, k: int, q: int|
        takes_part(job, region, s) && 0 <= k < job.graph.stages[s].inputs.len() && is_undecided(
            job,
            s,
            k,
        ) && 0 <= q < job.regions.len() && is_due(settled, q) ==> !#[trigger] reads_from(
            job,
            s,
            k,
            q,
        )
}

/// Whether an input is read from a stage that a region has tasks of.
pub open spec fn reads_from(job: JobView, stage: int, input: int, region: int) -> bool {
    takes_part(job, region, job.graph.stages[stage].inputs[input].stage as int)
}

/// A refresh that starts a region has it read shuffled data in the groups that the sizes of the data call for.
/// These sizes are what the index files tell that the newest attempts at the upstream tasks before the
/// refresh have left.
pub proof fn lemma_refresh_groups_by_size(
    options: SchedulerOptionsView,
    data: &Measurements,
    job_id: JobId,
    job: JobView,
    now: Timestamp,
    r: int,
    s: int,
    k: int,
    sizes: Seq<u64>,
)
    requires
        job.well_formed(),
        job.state is Running,
        options.adaptive_enabled,
        can_refresh(options, data, job_id, job, now),
        are_apart(job),
        forall|q: int|
            0 <= q < job.regions.len() ==> !#[trigger] is_lost(
                job,
                options.task_max_attempts as nat,
                q,
            ),
        0 <= r < job.regions.len(),
        is_due(settled_job(options.task_max_attempts as nat, job_id, job, now).0, r),
        reads_finished_data(
            job,
            settled_job(options.task_max_attempts as nat, job_id, job, now).0,
            r,
        ),
        takes_part(job, r, s),
        0 <= k < job.graph.stages[s].inputs.len(),
        is_undecided(job, s, k),
        are_sizes(&data.index, job_id, job, job.graph.stages[s].inputs[k].stage, sizes),
    ensures
        match refreshed_job(options, data, job_id, job, now).0.graph.stages[s].inputs[k].partition_ranges {
            Some(ranges) => ranges.len() < sizes.len() && is_grouping(
                sizes,
                options.target_partition_size as nat,
                ranges,
            ),
            None => forall|ranges: Seq<Range<usize>>| #[trigger]
                is_grouping(sizes, options.target_partition_size as nat, ranges) ==> ranges.len()
                    >= sizes.len(),
        },
{
    let max = options.task_max_attempts as nat;
    let settled = settled_job(max, job_id, job, now).0;
    let n = job.regions.len();
    lemma_settled_attempts(max, job_id, job, now);
    lemma_settled_region_states(max, job_id, job, now);
    lemma_settled_shape(max, job_id, job, now);
    assert(!is_complete(job, r)) by {
        assert(!is_lost(job, max, r));
        assert(settled.regions[r] != TaskRegionState::Succeeded);
    }
    lemma_refresh_starts(options, data, job_id, job, now);
    assert forall|q: int, x: int| takes_part(settled, q, x) == #[trigger] takes_part(job, q, x) by {}
    assert(are_apart(settled)) by {
        assert forall|a: int, b: int, x: int|
            0 <= a < settled.topology.regions.len() && 0 <= b < settled.topology.regions.len()
                && #[trigger] takes_part(settled, a, x) && #[trigger] takes_part(
                settled,
                b,
                x,
            ) implies a == b by {
            assert(takes_part(job, a, x) && takes_part(job, b, x));
        }
    }
    assert(can_schedule(options, data, job_id, settled, n, now)) by {
        assert(!(settled.regions[r] is Succeeded));
        assert forall|q: int| 0 <= q < settled.regions.len() implies !((
        #[trigger] settled.regions[q]) is Failed) by {
            assert(!is_lost(job, max, q));
        }
    }
    lemma_due_regions_start(options, data, job_id, settled, n, now);
    lemma_before(options, data, job_id, settled, r as nat, n, now);
    lemma_due_regions_start(options, data, job_id, settled, r as nat, now);
    lemma_scheduled_regions(options, data, job_id, settled, r as nat, now);
    lemma_modes_kept(options, data, job_id, settled, r as nat, now);
    let turn = scheduled_regions(options, data, job_id, settled, r as nat, now).0;
    assert forall|x: int| takes_part(turn, r, x) == #[trigger] takes_part(job, r, x) by {
        lemma_same_part(turn, job, r, x);
    }
    assert forall|x: int| takes_part(job, r, x) && 0 <= x < job.stages.len() implies (
    #[trigger] turn.graph.stages[x]) == job.graph.stages[x] by {
        assert forall|q: int| 0 <= q < r && is_due(settled, q) implies !#[trigger] takes_part(
            settled,
            q,
            x,
        ) by {
            if takes_part(settled, q, x) {
                assert(takes_part(settled, r, x));
            }
        }
    }
    lemma_part_exists(job, r, s);
    let u = job.graph.stages[s].inputs[k].stage;
    assert(u < job.stages.len());
    assert(turn.stages[u as int] == settled.stages[u as int] && turn.graph.stages[u as int]
        == settled.graph.stages[u as int]) by {
        assert forall|q: int| 0 <= q < r && is_due(settled, q) implies !#[trigger] takes_part(
            settled,
            q,
            u as int,
        ) by {
            assert(!reads_from(job, s, k, q));
        }
    }
    assert(reads_outside(turn, r)) by {
        assert forall|x: int, j: int|
            takes_part(turn, r, x) && 0 <= j < turn.graph.stages[x].inputs.len()
                && #[trigger] is_undecided(turn, x, j) implies !takes_part(
            turn,
            r,
            turn.graph.stages[x].inputs[j].stage as int,
        ) by {
            lemma_part_exists(job, r, x);
            assert(turn.graph.stages[x] == job.graph.stages[x]);
            let v = job.graph.stages[x].inputs[j].stage;
            assert(v < job.stages.len());
            assert(turn.graph.stages[v as int].mode == job.graph.stages[v as int].mode);
            assert(is_undecided(job, x, j));
            assert(!reads_from(job, x, j, r));
        }
    }
    assert(turn.graph.stages[s] == job.graph.stages[s]);
    assert(is_undecided(turn, s, k));
    assert(are_sizes(&data.index, job_id, turn, u, sizes)) by {
        assert forall|c: int| 0 <= c < sizes.len() implies #[trigger] sizes[c] == summed_bytes(
            &data.index,
            job_id,
            turn,
            u,
            c,
            turn.stages[u as int].tasks.len(),
        ) by {
            lemma_same_told(
                &data.index,
                job_id,
                job,
                turn,
                u,
                c,
                job.stages[u as int].tasks.len(),
            );
        }
    }
    lemma_groups_follow_sizes(
        options.target_partition_size,
        data,
        job_id,
        turn,
        r,
        s,
        k,
        sizes,
    );
    let after = refreshed_job(options, data, job_id, job, now).0;
    assert(is_started(options, data, job_id, turn, after, r, now));
    assert(after.graph.stages[s] == adapted_region(
        options.target_partition_size,
        data,
        job_id,
        turn,
        r,
    ).graph.stages[s]);
}

/// A stage that a region has tasks of exists.
proof fn lemma_part_exists(job: JobView, r: int, s: int)
    requires
        job.linked(),
        0 <= r < job.regions.len(),
        takes_part(job, r, s),
    ensures
        0 <= s < job.stages.len(),
{
    let i = choose|i: int|
        0 <= i < job.topology.regions[r].tasks.len() && (
        #[trigger] job.topology.regions[r].tasks[i]).stage == s;
    assert(job.region_tasks(r)[i].stage < job.stages.len());
}

/// As long as tasks have been attempted as often, the same index files count.
proof fn lemma_same_told(
    index: &ShuffleIndex,
    job_id: JobId,
    a: JobView,
    b: JobView,
    u: usize,
    c: int,
    n: nat,
)
    requires
        n <= a.stages[u as int].tasks.len(),
        a.stages[u as int].tasks.len() == b.stages[u as int].tasks.len(),
        forall|p: int|
            0 <= p < n ==> (#[trigger] b.stages[u as int].tasks[p]).len()
                == a.stages[u as int].tasks[p].len(),
    ensures
        summed_bytes(index, job_id, a, u, c, n) == summed_bytes(index, job_id, b, u, c, n),
    decreases n,
{
    if n > 0 {
        lemma_same_told(index, job_id, a, b, u, c, (n - 1) as nat);
        assert(b.stages[u as int].tasks[n - 1].len() == a.stages[u as int].tasks[n - 1].len());
    }
}

}

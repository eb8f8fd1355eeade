//! Refreshing a job of which nothing new has been reported.

use crate::action::ActionView;
use crate::clock::Timestamp;
use crate::id::JobId;
use crate::scheduler::adapt::{
    adapted_region, adapted_stages, all_tasks, lemma_adapted_region, lemma_region_stages,
};
use crate::scheduler::cancel::{has_failed, has_failure, is_listed};
use crate::scheduler::laws::{
    all_stopped, lemma_nothing_to_settle, lemma_scheduled_is_live, lemma_settled_leaves_nothing,
    lemma_settled_regions,
};
use crate::scheduler::lifecycle::{
    all_regions_succeeded, any_region_failed, can_refresh, lemma_settled_shape, refreshed_job,
    settled_job,
};
use crate::scheduler::limits::{
    lemma_adapted_keeps_tasks, lemma_all_tasks_once, lemma_apart_kept, lemma_other_attempts_kept,
    lemma_prepared_apart, lemma_same_attempts_same_state, lemma_scheduled_apart,
    lemma_unchanged_or_fresh, tasks_apart,
};
use crate::scheduler::options::SchedulerOptionsView;
use crate::scheduler::output::{
    consumers_succeeded, has_new_output, is_releasable, stage_succeeded,
};
use crate::scheduler::progress::{has_succeeded, is_exhausted, region_state};
use crate::scheduler::region::task_stages;
use crate::scheduler::regroup::lemma_only_stages_changed;
use crate::scheduler::schedule::{
    adapted_if_enabled, can_schedule, is_live, is_ready, lemma_adapted_if_enabled,
    lemma_new_attempts, lemma_scheduled_keeps, prepared_region, scheduled_regions,
    with_new_attempts,
};
use crate::measurements::Measurements;
use crate::state::{JobView, TaskState};
use crate::topology::TaskTopology;
use vstd::prelude::*;

verus! {

/// Whether a task has just been given a new attempt.
pub open spec fn just_created(job: JobView, s: int, p: int) -> bool {
    job.latest_state(s, p) == Some(TaskState::Created)
}

/// Whether scheduling can have led from one state of a job to another: a task is as it was, or it has
/// just been given a new attempt; if a stage has got another plan or another number of tasks, all of
/// them have been; and a stage has tasks if it had any. Apart from that, the stages and what consumes them are as
/// they were.
pub open spec fn scheduled_from(before: JobView, after: JobView) -> bool {
    &&& after.stages.len() == before.stages.len()
    &&& after.topology.consumers == before.topology.consumers
    &&& forall|s: int|
        0 <= s < before.stages.len() ==> (#[trigger] after.stages[s]).state
            == before.stages[s].state
    &&& forall|s: int, p: int|
        #![trigger after.attempts(s, p)]
        #![trigger after.has_task(s, p)]
        after.has_task(s, p) ==> just_created(after, s, p) || (before.has_task(s, p)
            && after.attempts(s, p) == before.attempts(s, p))
    &&& forall|s: int, p: int|
        #![trigger after.has_task(s, p)]
        after.has_task(s, p) && after.stages[s].tasks.len() != before.stages[s].tasks.len()
            ==> just_created(after, s, p)
    &&& forall|s: int|
        0 <= s < before.stages.len() ==> ((#[trigger] after.stages[s]).tasks.len() > 0
            <==> before.stages[s].tasks.len() > 0)
    &&& forall|s: int|
        0 <= s < before.stages.len() ==> plan_kept(before, after, s) || all_created(after, s)
}

/// Whether a stage has the plan that it had.
pub open spec fn plan_kept(before: JobView, after: JobView, s: int) -> bool {
    after.graph.stages[s].plan == before.graph.stages[s].plan
}

/// Whether a stage has tasks, and all of them have just been given a new attempt.
pub open spec fn all_created(job: JobView, s: int) -> bool {
    &&& job.stages[s].tasks.len() > 0
    &&& forall|p: int| #[trigger] job.has_task(s, p) ==> just_created(job, s, p)
}

/// Choosing how a region reads shuffled data leaves a stage as it is, or puts all its tasks into the
/// region.
proof fn lemma_adapted_or_listed(
    options: SchedulerOptionsView,
    data: &Measurements,
    job_id: JobId,
    job: JobView,
    region: int,
    s: int,
)
    requires
        job.linked(),
        0 <= region < job.regions.len(),
        job.tasks_exist(region),
        0 <= s < job.stages.len(),
    ensures
        ({
            let after = adapted_region(
                options.target_partition_size,
                data,
                job_id,
                job,
                region,
            );
            &&& after.stages.len() == job.stages.len()
            &&& after.topology.consumers == job.topology.consumers
            &&& (after.stages[s] == job.stages[s] && after.graph.stages[s] == job.graph.stages[s])
                || (after.stages[s].tasks.len() > 0 && forall|p: int| #[trigger]
                after.has_task(s, p) ==> is_listed(after.region_tasks(region), s, p))
            &&& after.stages[s].state == job.stages[s].state
        }),
{
    let target = options.target_partition_size;
    let stages = task_stages(job.region_tasks(region));
    let middle = adapted_stages(target, data, job_id, job, stages);
    let after = adapted_region(target, data, job_id, job, region);
    lemma_adapted_region(target, data, job_id, job, region);
    lemma_region_stages(job, region);
    lemma_all_tasks_once(middle, stages);
    lemma_unchanged_or_fresh(target, data, job_id, job, stages, s);
    if exists|k: int| 0 <= k < stages.len() && #[trigger] stages[k] == s {
        let k = choose|k: int| 0 <= k < stages.len() && #[trigger] stages[k] == s;
        assert(stages.contains(s as usize));
        lemma_adapted_keeps_tasks(target, data, job_id, job, stages, s);
        assert forall|p: int| #[trigger] after.has_task(s, p) implies is_listed(
            after.region_tasks(region),
            s,
            p,
        ) by {
            assert(middle.has_task(s, p));
            assert(is_listed(all_tasks(middle, stages), s, p));
        }
    } else {
        lemma_only_stages_changed(target, data, job_id, job, stages);
    }
}

/// New attempts do not change whether a stage is active.
proof fn lemma_new_attempts_state(
    job: JobView,
    tasks: Seq<TaskTopology>,
    now: Timestamp,
    s: int,
)
    requires
        job.linked(),
        forall|i: int|
            0 <= i < tasks.len() ==> job.has_task(
                (#[trigger] tasks[i]).stage as int,
                tasks[i].partition as int,
            ),
        0 <= s < job.stages.len(),
    ensures
        with_new_attempts(job, tasks, now).stages[s].state == job.stages[s].state,
    decreases tasks.len(),
{
    if tasks.len() > 0 {
        let rest = tasks.drop_last();
        assert forall|k: int| 0 <= k < rest.len() implies job.has_task(
            (#[trigger] rest[k]).stage as int,
            rest[k].partition as int,
        ) by {
            assert(rest[k] == tasks[k]);
        }
        lemma_new_attempts_state(job, rest, now, s);
        lemma_new_attempts(job, rest, now);
        let last = tasks[tasks.len() - 1];
        assert(job.has_task(last.stage as int, last.partition as int));
    }
}

/// Preparing a region is a step of scheduling.
proof fn lemma_prepared_step(
    options: SchedulerOptionsView,
    data: &Measurements,
    job_id: JobId,
    job: JobView,
    region: int,
    now: Timestamp,
)
    requires
        job.well_formed(),
        0 <= region < job.regions.len(),
    ensures
        scheduled_from(job, prepared_region(options, data, job_id, job, region, now)),
{
    let target = options.target_partition_size;
    assert(job.tasks_exist(region));
    lemma_adapted_if_enabled(options, data, job_id, job, region);
    let adapted = adapted_if_enabled(options, data, job_id, job, region);
    let after = prepared_region(options, data, job_id, job, region, now);
    let tasks = adapted.region_tasks(region);
    lemma_new_attempts(adapted, tasks, now);
    lemma_scheduled_is_live(options, data, job_id, job, region, now);
    assert(after.region_tasks(region) == tasks);
    assert forall|s: int| 0 <= s < job.stages.len() implies {
        &&& adapted.stages.len() == job.stages.len()
        &&& adapted.topology.consumers == job.topology.consumers
        &&& (#[trigger] adapted.stages[s] == job.stages[s] && adapted.graph.stages[s]
            == job.graph.stages[s]) || (adapted.stages[s].tasks.len() > 0 && forall|p: int|
            #[trigger] adapted.has_task(s, p) ==> is_listed(tasks, s, p))
        &&& adapted.stages[s].state == job.stages[s].state
    } by {
        if options.adaptive_enabled {
            lemma_adapted_or_listed(options, data, job_id, job, region, s);
        }
    }
    if options.adaptive_enabled && job.stages.len() == 0 {
        assert(adapted.stages.len() == 0) by {
            assert(adapted_region(target, data, job_id, job, region).stages.len()
                == job.stages.len());
        }
    }
    assert forall|s: int| 0 <= s < job.stages.len() implies (#[trigger] after.stages[s]).state
        == job.stages[s].state by {
        assert(adapted.stages[s].state == job.stages[s].state);
        lemma_new_attempts_state(adapted, tasks, now, s);
    }
    assert forall|s: int, p: int| is_listed(tasks, s, p) implies #[trigger] just_created(
        after,
        s,
        p,
    ) by {
        let i = choose|i: int|
            0 <= i < tasks.len() && (#[trigger] tasks[i]).stage == s && tasks[i].partition == p;
        assert(after.region_tasks(region)[i] == tasks[i]);
    }
    assert forall|s: int, p: int|
        #![trigger after.attempts(s, p)]
        #![trigger after.has_task(s, p)]
        after.has_task(s, p) implies just_created(after, s, p) || (job.has_task(s, p)
        && after.attempts(s, p) == job.attempts(s, p)) by {
        assert(after.stages[s].tasks.len() == adapted.stages[s].tasks.len());
        assert(adapted.has_task(s, p));
        if is_listed(tasks, s, p) {
            assert(just_created(after, s, p));
        } else {
            assert(adapted.stages[s] == job.stages[s]);
            lemma_other_attempts_kept(adapted, tasks, now, s, p);
        }
    }
    assert forall|s: int, p: int|
        #![trigger after.has_task(s, p)]
        after.has_task(s, p) && after.stages[s].tasks.len()
            != job.stages[s].tasks.len() implies just_created(after, s, p) by {
        assert(after.stages[s].tasks.len() == adapted.stages[s].tasks.len());
        assert(adapted.has_task(s, p));
        assert(is_listed(tasks, s, p));
        assert(just_created(after, s, p));
    }
    assert forall|s: int| 0 <= s < job.stages.len() implies ((
    #[trigger] after.stages[s]).tasks.len() > 0 <==> job.stages[s].tasks.len() > 0) by {
        if options.adaptive_enabled {
            let stages = task_stages(job.region_tasks(region));
            lemma_region_stages(job, region);
            if job.stages[s].tasks.len() > 0 {
                lemma_adapted_keeps_tasks(target, data, job_id, job, stages, s);
            } else {
                assert forall|k: int| 0 <= k < stages.len() implies #[trigger] stages[k] != s by {
                    assert(job.stages[stages[k] as int].tasks.len() > 0);
                }
                lemma_only_stages_changed(target, data, job_id, job, stages);
            }
        }
        assert(after.stages[s].tasks.len() == adapted.stages[s].tasks.len());
    }
    assert forall|s: int| 0 <= s < job.stages.len() implies plan_kept(job, after, s) || all_created(
        after,
        s,
    ) by {
        assert(after.stages[s].tasks.len() == adapted.stages[s].tasks.len());
        if adapted.stages[s] != job.stages[s] || adapted.graph.stages[s] != job.graph.stages[s] {
            assert forall|p: int| #[trigger] after.has_task(s, p) implies just_created(
                after,
                s,
                p,
            ) by {
                assert(adapted.has_task(s, p));
                assert(is_listed(tasks, s, p));
            }
        }
    }
}

/// Steps of scheduling make up scheduling.
proof fn lemma_scheduled_from_joins(a: JobView, b: JobView, c: JobView)
    requires
        scheduled_from(a, b),
        scheduled_from(b, c),
    ensures
        scheduled_from(a, c),
{
    assert forall|s: int| 0 <= s < a.stages.len() implies (#[trigger] c.stages[s]).state
        == a.stages[s].state by {
        assert(b.stages[s].state == a.stages[s].state);
    }
    assert forall|s: int, p: int|
        #![trigger c.attempts(s, p)]
        #![trigger c.has_task(s, p)]
        c.has_task(s, p) implies just_created(c, s, p) || (a.has_task(s, p) && c.attempts(s, p)
        == a.attempts(s, p)) by {
        if !just_created(c, s, p) {
            assert(b.has_task(s, p));
            assert(c.attempts(s, p) == b.attempts(s, p));
            assert(just_created(b, s, p) == just_created(c, s, p));
        }
    }
    assert forall|s: int, p: int|
        #![trigger c.has_task(s, p)]
        c.has_task(s, p) && c.stages[s].tasks.len() != a.stages[s].tasks.len() implies just_created(
        c,
        s,
        p,
    ) by {
        if !just_created(c, s, p) {
            assert(c.stages[s].tasks.len() == b.stages[s].tasks.len());
            assert(b.has_task(s, p));
            assert(c.attempts(s, p) == b.attempts(s, p));
            assert(just_created(b, s, p));
        }
    }
    assert forall|s: int| 0 <= s < a.stages.len() implies ((
    #[trigger] c.stages[s]).tasks.len() > 0 <==> a.stages[s].tasks.len() > 0) by {
        assert(b.stages[s].tasks.len() > 0 <==> a.stages[s].tasks.len() > 0);
    }
    assert forall|s: int| 0 <= s < a.stages.len() implies plan_kept(a, c, s) || all_created(
        c,
        s,
    ) by {
        assert(plan_kept(a, b, s) || all_created(b, s));
        assert(plan_kept(b, c, s) || all_created(c, s));
        if !all_created(c, s) && !plan_kept(a, c, s) {
            assert(all_created(b, s));
            assert(c.stages[s].tasks.len() > 0);
            assert forall|p: int| #[trigger] c.has_task(s, p) implies just_created(c, s, p) by {
                if !just_created(c, s, p) {
                    assert(b.has_task(s, p));
                    assert(c.attempts(s, p) == b.attempts(s, p));
                    assert(just_created(b, s, p));
                }
            }
        }
    }
}

/// Whether all tasks of a region have just been given new attempts, and it has tasks if it had any.
pub open spec fn region_created(before: JobView, after: JobView, region: int) -> bool {
    &&& forall|i: int|
        0 <= i < after.region_tasks(region).len() ==> just_created(
            after,
            (#[trigger] after.region_tasks(region)[i]).stage as int,
            after.region_tasks(region)[i].partition as int,
        )
    &&& after.region_tasks(region).len() > 0 <==> before.region_tasks(region).len() > 0
}

/// Whether a region has the tasks that it had, the attempts at them are those that there were, and
/// its stages read what they read.
pub open spec fn region_kept(before: JobView, after: JobView, region: int) -> bool {
    &&& after.region_tasks(region) == before.region_tasks(region)
    &&& forall|i: int|
        0 <= i < before.region_tasks(region).len() ==> {
            let t = #[trigger] before.region_tasks(region)[i];
            &&& after.attempts(t.stage as int, t.partition as int) == before.attempts(
                t.stage as int,
                t.partition as int,
            )
            &&& after.graph.stages[t.stage as int] == before.graph.stages[t.stage as int]
        }
}

/// Whether a region is as scheduling the first `n` regions leaves it: if it is one of them and was
/// ready, it has been given new attempts at its tasks, and otherwise it is as it was.
pub open spec fn created_or_kept(before: JobView, n: int, after: JobView, region: int) -> bool {
    if region < n && is_ready(before, region) {
        region_created(before, after, region)
    } else {
        region_kept(before, after, region)
    }
}

/// Scheduling gives new attempts to all tasks of a region that was ready, and leaves any other region
/// as it was.
pub proof fn lemma_scheduled_or_kept(
    options: SchedulerOptionsView,
    data: &Measurements,
    job_id: JobId,
    job: JobView,
    n: nat,
    now: Timestamp,
)
    requires
        job.well_formed(),
        n <= job.regions.len(),
        tasks_apart(options, job),
        can_schedule(options, data, job_id, job, n, now),
    ensures
        ({
            let after = scheduled_regions(options, data, job_id, job, n, now).0;
            &&& scheduled_from(job, after)
            &&& forall|r: int|
                0 <= r < job.regions.len() ==> #[trigger] created_or_kept(job, n as int, after, r)
        }),
    decreases n,
{
    if n == 0 {
        let after = scheduled_regions(options, data, job_id, job, n, now).0;
        assert(after == job);
        assert(scheduled_from(job, job));
        assert forall|r: int| 0 <= r < job.regions.len() implies #[trigger] created_or_kept(
            job,
            n as int,
            after,
            r,
        ) by {
            assert(region_kept(job, job, r));
        }
    } else {
        let q = n - 1;
        lemma_scheduled_or_kept(options, data, job_id, job, q as nat, now);
        lemma_scheduled_apart(options, data, job_id, job, q as nat, now);
        lemma_scheduled_keeps(options, data, job_id, job, q as nat, now);
        let before = scheduled_regions(options, data, job_id, job, q as nat, now).0;
        let after = scheduled_regions(options, data, job_id, job, n, now).0;
        assert(created_or_kept(job, q, before, q));
        lemma_same_readiness(job, before, q);
        if is_ready(before, q) {
            lemma_prepared_step(options, data, job_id, before, q, now);
            lemma_scheduled_from_joins(job, before, after);
            lemma_prepared_apart(options, data, job_id, before, q, now);
            assert(before.tasks_exist(q));
            lemma_scheduled_is_live(options, data, job_id, before, q, now);
            assert(region_created(job, after, q));
            assert forall|r: int| 0 <= r < job.regions.len() implies #[trigger] created_or_kept(
                job,
                n as int,
                after,
                r,
            ) by {
                assert(created_or_kept(job, q, before, r));
                if r != q {
                    assert(after.region_tasks(r) == before.region_tasks(r));
                    if r < q && is_ready(job, r) {
                        assert forall|i: int| 0 <= i < after.region_tasks(r).len() implies
                            just_created(
                            after,
                            (#[trigger] after.region_tasks(r)[i]).stage as int,
                            after.region_tasks(r)[i].partition as int,
                        ) by {
                            let t = before.region_tasks(r)[i];
                            assert(after.region_tasks(r)[i] == t);
                            assert(before.has_task(t.stage as int, t.partition as int));
                            assert(after.has_task(t.stage as int, t.partition as int));
                            assert(just_created(
                                before,
                                before.region_tasks(r)[i].stage as int,
                                before.region_tasks(r)[i].partition as int,
                            ));
                        }
                        assert(region_created(job, after, r));
                    } else {
                        assert forall|i: int| 0 <= i < job.region_tasks(r).len() implies {
                            let t = #[trigger] job.region_tasks(r)[i];
                            &&& after.attempts(t.stage as int, t.partition as int) == job.attempts(
                                t.stage as int,
                                t.partition as int,
                            )
                            &&& after.graph.stages[t.stage as int]
                                == job.graph.stages[t.stage as int]
                        } by {
                            assert(before.region_tasks(r)[i] == job.region_tasks(r)[i]);
                        }
                        assert(region_kept(job, after, r));
                    }
                }
            }
        } else {
            assert forall|r: int| 0 <= r < job.regions.len() implies #[trigger] created_or_kept(
                job,
                n as int,
                after,
                r,
            ) by {
                assert(created_or_kept(job, q, before, r));
            }
        }
    }
}

/// A region that is as it was, in a job whose regions are in the same states, is as ready as it was.
pub proof fn lemma_same_readiness(a: JobView, b: JobView, region: int)
    requires
        a.well_formed(),
        b.well_formed(),
        0 <= region < a.regions.len(),
        a.regions == b.regions,
        a.topology.regions[region].dependencies == b.topology.regions[region].dependencies,
        region_kept(a, b, region),
    ensures
        is_ready(a, region) == is_ready(b, region),
{
    assert forall|i: int| 0 <= i < a.region_tasks(region).len() implies is_live(
        a,
        #[trigger] a.region_tasks(region)[i],
    ) == is_live(b, a.region_tasks(region)[i]) by {
        let t = a.region_tasks(region)[i];
        assert(b.region_tasks(region)[i] == t);
        assert(a.has_task(t.stage as int, t.partition as int));
        assert(b.has_task(t.stage as int, t.partition as int));
    }
    if is_ready(a, region) {
        assert forall|i: int| 0 <= i < b.topology.regions[region].dependencies.len() implies
            b.regions[(#[trigger] b.topology.regions[region].dependencies[i]) as int] is Succeeded by {
            assert(a.regions[a.topology.regions[region].dependencies[i] as int] is Succeeded);
        }
        assert forall|i: int| 0 <= i < b.region_tasks(region).len() implies !is_live(
            b,
            #[trigger] b.region_tasks(region)[i],
        ) by {
            assert(!is_live(a, a.region_tasks(region)[i]));
        }
    }
    if is_ready(b, region) {
        assert forall|i: int| 0 <= i < a.topology.regions[region].dependencies.len() implies
            a.regions[(#[trigger] a.topology.regions[region].dependencies[i]) as int] is Succeeded by {
            assert(b.regions[b.topology.regions[region].dependencies[i] as int] is Succeeded);
        }
        assert forall|i: int| 0 <= i < a.region_tasks(region).len() implies !is_live(
            a,
            #[trigger] a.region_tasks(region)[i],
        ) by {
            assert(!is_live(b, b.region_tasks(region)[i]));
        }
    }
}

/// What scheduling has led to leaves nothing to be dealt with, if there was nothing before.
proof fn lemma_still_settled(
    max_attempts: nat,
    job_id: JobId,
    before: JobView,
    after: JobView,
    later: Timestamp,
)
    requires
        before.well_formed(),
        after.well_formed(),
        after.regions == before.regions,
        scheduled_from(before, after),
        forall|r: int|
            0 <= r < before.regions.len() ==> #[trigger] created_or_kept(
                before,
                before.regions.len() as int,
                after,
                r,
            ),
        !any_region_failed(before),
        forall|r: int, i: int|
            0 <= r < before.regions.len() && 0 <= i < before.region_tasks(r).len() && has_failure(
                before,
                r,
            ) ==> all_stopped(
                before.attempts(
                    (#[trigger] before.region_tasks(r)[i]).stage as int,
                    before.region_tasks(r)[i].partition as int,
                ),
            ),
        forall|s: int, p: int| before.has_task(s, p) ==> !#[trigger] has_new_output(before, s, p),
        forall|s: int| 0 <= s < before.stages.len() ==> !#[trigger] is_releasable(before, s),
        forall|r: int|
            0 <= r < before.regions.len() ==> #[trigger] before.regions[r] == region_state(
                before,
                max_attempts,
                r,
            ),
    ensures
        settled_job(max_attempts, job_id, after, later) == (after, Seq::<ActionView>::empty()),
{
    assert forall|r: int, i: int|
        0 <= r < after.regions.len() && 0 <= i < after.region_tasks(r).len() && has_failure(
            after,
            r,
        ) implies all_stopped(
        after.attempts(
            (#[trigger] after.region_tasks(r)[i]).stage as int,
            after.region_tasks(r)[i].partition as int,
        ),
    ) by {
        let k = choose|k: int|
            0 <= k < after.region_tasks(r).len() && has_failed(
                after,
                #[trigger] after.region_tasks(r)[k],
            );
        assert(created_or_kept(before, before.regions.len() as int, after, r));
        if is_ready(before, r) {
            assert(just_created(
                after,
                after.region_tasks(r)[k].stage as int,
                after.region_tasks(r)[k].partition as int,
            ));
        } else {
            let t = before.region_tasks(r)[k];
            assert(after.region_tasks(r)[k] == t);
            assert(before.has_task(t.stage as int, t.partition as int));
            assert(has_failed(before, before.region_tasks(r)[k]));
            assert(before.region_tasks(r)[i] == after.region_tasks(r)[i]);
        }
    }
    assert forall|s: int, p: int| after.has_task(s, p) implies !#[trigger] has_new_output(
        after,
        s,
        p,
    ) by {
        if !just_created(after, s, p) {
            assert(!has_new_output(before, s, p));
        }
    }
    assert forall|s: int| 0 <= s < after.stages.len() implies !#[trigger] is_releasable(
        after,
        s,
    ) by {
        assert(!is_releasable(before, s));
        assert(after.stages[s].state == before.stages[s].state);
        if consumers_succeeded(after, s) {
            let consumers = before.topology.consumers[s];
            assert forall|i: int| 0 <= i < consumers.len() implies stage_succeeded(
                before,
                (#[trigger] consumers[i]) as int,
            ) by {
                let c = after.topology.consumers[s][i] as int;
                assert(c < after.stages.len());
                assert(stage_succeeded(after, c));
                lemma_succeeded_before(before, after, c);
            }
        }
    }
    assert forall|r: int| 0 <= r < after.regions.len() implies #[trigger] after.regions[r]
        == region_state(after, max_attempts, r) by {
        assert(before.regions[r] == region_state(before, max_attempts, r));
        assert(created_or_kept(before, before.regions.len() as int, after, r));
        if is_ready(before, r) {
            assert(before.region_tasks(r).len() > 0);
            let tasks = after.region_tasks(r);
            assert forall|i: int| 0 <= i < tasks.len() implies !is_exhausted(
                after,
                max_attempts,
                #[trigger] tasks[i],
            ) && !has_succeeded(after, tasks[i]) by {
                assert(just_created(
                    after,
                    after.region_tasks(r)[i].stage as int,
                    after.region_tasks(r)[i].partition as int,
                ));
            }
            assert(!has_succeeded(after, tasks[0]));
            assert(!(before.regions[r] is Failed));
        } else {
            lemma_same_attempts_same_state(before, after, max_attempts, r);
        }
    }
    lemma_nothing_to_settle(max_attempts, job_id, after, later);
}

/// A stage that has succeeded after scheduling had succeeded before.
proof fn lemma_succeeded_before(before: JobView, after: JobView, c: int)
    requires
        before.well_formed(),
        after.well_formed(),
        scheduled_from(before, after),
        0 <= c < after.stages.len(),
        stage_succeeded(after, c),
    ensures
        stage_succeeded(before, c),
{
    assert(after.stages[c].tasks.len() <= after.graph.stages[c].plan.partitions);
    assert(plan_kept(before, after, c) || all_created(after, c));
    if !plan_kept(before, after, c) {
        assert(after.latest_state(c, 0) == Some(TaskState::Succeeded));
        assert(after.has_task(c, 0));
        assert(just_created(after, c, 0));
    }
    assert forall|p: int| 0 <= p < before.graph.stages[c].plan.partitions implies
        #[trigger] before.latest_state(c, p) == Some(TaskState::Succeeded) by {
        assert(after.latest_state(c, p) == Some(TaskState::Succeeded));
        assert(after.has_task(c, p));
    }
}

/// As long as nothing new has been reported, refreshing a job again calls for no action and changes
/// nothing. That is so for jobs whose regions share no tasks and, with adaptive reading, hold all tasks
/// of their stages.
pub proof fn lemma_refreshed_once(
    options: SchedulerOptionsView,
    data: &Measurements,
    job_id: JobId,
    job: JobView,
    now: Timestamp,
    other_data: &Measurements,
    later: Timestamp,
)
    requires
        job.well_formed(),
        can_refresh(options, data, job_id, job, now),
        tasks_apart(options, job),
    ensures
        ({
            let after = refreshed_job(options, data, job_id, job, now).0;
            refreshed_job(options, other_data, job_id, after, later) == (
                after,
                Seq::<ActionView>::empty(),
            )
        }),
{
    let max = options.task_max_attempts as nat;
    let settled = settled_job(max, job_id, job, now).0;
    let after = refreshed_job(options, data, job_id, job, now).0;
    if job.state is Running {
        lemma_settled_shape(max, job_id, job, now);
        lemma_settled_regions(max, job_id, job, now);
        if !any_region_failed(settled) && !all_regions_succeeded(settled) {
            lemma_apart_kept(options, job, settled);
            lemma_settled_leaves_nothing(max, job_id, job, now);
            let n = settled.regions.len();
            lemma_scheduled_or_kept(options, data, job_id, settled, n, now);
            lemma_scheduled_apart(options, data, job_id, settled, n, now);
            lemma_scheduled_keeps(options, data, job_id, settled, n, now);
            assert(after == scheduled_regions(options, data, job_id, settled, n, now).0);
            lemma_still_settled(max, job_id, settled, after, later);
            assert forall|r: int| 0 <= r < n implies !#[trigger] is_ready(after, r) by {
                assert(created_or_kept(settled, n as int, after, r));
                if is_ready(settled, r) {
                    assert(settled.regions[r] == region_state(settled, max, r));
                    assert(settled.region_tasks(r).len() > 0);
                    assert(is_live(after, after.region_tasks(r)[0]));
                } else {
                    assert(region_kept(settled, after, r));
                    lemma_same_readiness(settled, after, r);
                }
            }
            lemma_nothing_to_schedule(options, other_data, job_id, after, n, later);
            assert(Seq::<ActionView>::empty() + Seq::<ActionView>::empty() =~= Seq::empty());
        }
    }
}

/// If no region is ready, none is scheduled.
proof fn lemma_nothing_to_schedule(
    options: SchedulerOptionsView,
    data: &Measurements,
    job_id: JobId,
    job: JobView,
    n: nat,
    now: Timestamp,
)
    requires
        n <= job.regions.len(),
        forall|r: int| 0 <= r < n ==> !#[trigger] is_ready(job, r),
    ensures
        scheduled_regions(options, data, job_id, job, n, now) == (
            job,
            Seq::<ActionView>::empty(),
        ),
    decreases n,
{
    if n > 0 {
        lemma_nothing_to_schedule(options, data, job_id, job, (n - 1) as nat, now);
        assert(!is_ready(job, n - 1));
    }
}

}

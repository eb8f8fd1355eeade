//! Grouping the tasks of a region into task sets.

use crate::collections::{
    BucketsView, GroupKeyView, GroupMap, distinct, distinct_numbers, group_get_mut,
    group_map_into_vec, group_or_default, group_position, insert_last, lemma_distinct, map_groups,
    new_group_map,
};
use crate::id::{JobId, TaskKey};
use crate::job_graph::{OutputMode, Stage, StageView};
use crate::lists::{lemma_flatten_empty, lemma_flatten_join, lemma_flatten_update};
use crate::scheduler::JobScheduler;
use crate::state::{JobDescriptor, JobView};
use crate::task::{rows, RegionView, TaskOutputKind, TaskPlacement, TaskRegion, TaskSet, TaskSetEntry};
use crate::topology::{TaskRegionTopology, TaskTopology};
use vstd::prelude::*;

verus! {

/// The stages of a list of tasks, in the order in which they occur first.
pub open spec fn task_stages(tasks: Seq<TaskTopology>) -> Seq<usize> {
    distinct(tasks.map_values(|t: TaskTopology| t.stage))
}

/// The key of the group that a stage belongs to.
pub open spec fn group_key(stage: StageView) -> GroupKeyView {
    (stage.placement is Driver, stage.group)
}

/// Where the tasks of a group run.
pub open spec fn group_placement(key: GroupKeyView) -> TaskPlacement {
    if key.0 {
        TaskPlacement::Driver
    } else {
        TaskPlacement::Worker
    }
}

/// The groups of a list of stages, in the order in which they occur first.
pub open spec fn group_keys(job: JobView, stages: Seq<usize>) -> Seq<GroupKeyView> {
    distinct(stages.map_values(|s: usize| group_key(job.graph.stages[s as int])))
}

/// The number of buckets of a group: the most partitions that a stage of the group has.
pub open spec fn bucket_count(job: JobView, stages: Seq<usize>, key: GroupKeyView) -> nat
    decreases stages.len(),
{
    if stages.len() == 0 {
        0
    } else {
        let stage = job.graph.stages[stages.last() as int];
        let n = bucket_count(job, stages.drop_last(), key);
        if group_key(stage) == key && stage.plan.partitions > n {
            stage.plan.partitions as nat
        } else {
            n
        }
    }
}

/// The bucket of a task: the partitions of a stage are spread evenly over the buckets.
pub open spec fn bucket_of(partition: nat, partitions: nat, buckets: nat) -> nat
    recommends
        partitions > 0,
{
    (partition * buckets) / partitions
}

/// The task attempt to be scheduled for a task.
pub open spec fn task_entry(job_id: JobId, job: JobView, task: TaskTopology) -> TaskSetEntry {
    TaskSetEntry {
        key: TaskKey {
            job_id,
            stage: task.stage,
            partition: task.partition,
            attempt: job.latest_attempt(task.stage as int, task.partition as int)->0,
        },
        output: TaskOutputKind::Local,
    }
}

/// Whether a task belongs to a bucket of a group. A task without an attempt belongs to none.
pub open spec fn in_bucket(
    job: JobView,
    task: TaskTopology,
    key: GroupKeyView,
    buckets: nat,
    bucket: int,
) -> bool {
    let stage = job.graph.stages[task.stage as int];
    &&& job.latest_attempt(task.stage as int, task.partition as int) is Some
    &&& group_key(stage) == key
    &&& bucket_of(task.partition as nat, stage.plan.partitions as nat, buckets) == bucket
}

/// The task attempts in a bucket of a group, in the order of the tasks.
pub open spec fn bucket_entries(
    job_id: JobId,
    job: JobView,
    tasks: Seq<TaskTopology>,
    key: GroupKeyView,
    buckets: nat,
    bucket: int,
) -> Seq<TaskSetEntry> {
    tasks.filter(|t: TaskTopology| in_bucket(job, t, key, buckets, bucket)).map_values(
        |t: TaskTopology| task_entry(job_id, job, t),
    )
}

/// The task sets of a group, one for each bucket.
pub open spec fn group_sets(
    job_id: JobId,
    job: JobView,
    tasks: Seq<TaskTopology>,
    key: GroupKeyView,
) -> RegionView {
    let n = bucket_count(job, task_stages(tasks), key);
    Seq::new(
        n,
        |b: int| (group_placement(key), bucket_entries(job_id, job, tasks, key, n, b)),
    )
}

/// The task sets of a region: those of its groups one after the other.
pub open spec fn region_sets(job_id: JobId, job: JobView, tasks: Seq<TaskTopology>) -> RegionView {
    group_keys(job, task_stages(tasks)).map_values(
        |key: GroupKeyView| group_sets(job_id, job, tasks, key),
    ).flatten()
}

/// Whether the latest attempt at a task can be put into a task set: the task is one of the output
/// partitions of the plan of its stage, if it has been attempted.
pub open spec fn has_place(job: JobView, task: TaskTopology) -> bool {
    job.latest_attempt(task.stage as int, task.partition as int) is Some ==> task.partition
        < job.graph.stages[task.stage as int].plan.partitions
}

/// The groups of a region while the first `n` tasks have been put into their buckets.
spec fn filled_groups(
    job_id: JobId,
    job: JobView,
    stages: Seq<usize>,
    tasks: Seq<TaskTopology>,
) -> Seq<(GroupKeyView, BucketsView)> {
    group_keys(job, stages).map_values(
        |key: GroupKeyView|
            (
                key,
                Seq::new(
                    bucket_count(job, stages, key),
                    |b: int|
                        bucket_entries(
                            job_id,
                            job,
                            tasks,
                            key,
                            bucket_count(job, stages, key),
                            b,
                        ),
                ),
            ),
    )
}

/// The key at a position that is found is the one looked for, and no earlier one is.
proof fn lemma_group_position(groups: Seq<(GroupKeyView, BucketsView)>, key: GroupKeyView)
    ensures
        0 <= group_position(groups, key) <= groups.len(),
        group_position(groups, key) < groups.len() ==> groups[group_position(groups, key)].0 == key,
        forall|j: int| 0 <= j < group_position(groups, key) ==> (#[trigger] groups[j]).0 != key,
    decreases groups.len(),
{
    if groups.len() > 0 && groups[0].0 != key {
        lemma_group_position(groups.skip(1), key);
        assert forall|j: int| 0 <= j < group_position(groups, key) implies (
        #[trigger] groups[j]).0 != key by {
            if j > 0 {
                assert(groups[j] == groups.skip(1)[j - 1]);
            }
        }
        assert(groups.skip(1)[group_position(groups.skip(1), key)]
            == groups[group_position(groups, key)] || group_position(groups, key)
            == groups.len());
    }
}

/// A task goes to one of the buckets of its group.
proof fn lemma_bucket_in_range(partition: nat, partitions: nat, buckets: nat)
    by (nonlinear_arith)
    requires
        partition < partitions,
        buckets > 0,
    ensures
        bucket_of(partition, partitions, buckets) < buckets,
{
    assert(partition * buckets < buckets * partitions);
}

/// The stages of a group have no more partitions than the group has buckets.
proof fn lemma_bucket_count(job: JobView, stages: Seq<usize>, i: int)
    requires
        0 <= i < stages.len(),
    ensures
        job.graph.stages[stages[i] as int].plan.partitions <= bucket_count(
            job,
            stages,
            group_key(job.graph.stages[stages[i] as int]),
        ),
    decreases stages.len(),
{
    if i < stages.len() - 1 {
        assert(stages.drop_last()[i] == stages[i]);
        lemma_bucket_count(job, stages.drop_last(), i);
    }
}

/// A group without stages has no buckets.
proof fn lemma_bucket_count_zero(job: JobView, stages: Seq<usize>, key: GroupKeyView)
    requires
        forall|i: int|
            0 <= i < stages.len() ==> group_key(job.graph.stages[#[trigger] stages[i] as int])
                != key,
    ensures
        bucket_count(job, stages, key) == 0,
    decreases stages.len(),
{
    if stages.len() > 0 {
        assert forall|i: int| 0 <= i < stages.drop_last().len() implies group_key(
            job.graph.stages[#[trigger] stages.drop_last()[i] as int],
        ) != key by {
            assert(stages.drop_last()[i] == stages[i]);
        }
        assert(group_key(job.graph.stages[stages[stages.len() - 1] as int]) != key);
        lemma_bucket_count_zero(job, stages.drop_last(), key);
    }
}

/// Adding a stage extends its group, or adds a group.
proof fn lemma_add_stage(job_id: JobId, job: JobView, stages: Seq<usize>, s: usize)
    ensures
        ({
            let key = group_key(job.graph.stages[s as int]);
            let p = job.graph.stages[s as int].plan.partitions as nat;
            let before = filled_groups(job_id, job, stages, Seq::empty());
            let after = filled_groups(job_id, job, stages.push(s), Seq::empty());
            let i = group_position(before, key);
            if i < before.len() {
                let n = before[i].1.len();
                after == before.update(
                    i,
                    (
                        key,
                        if p > n {
                            before[i].1 + Seq::new(
                                (p - n) as nat,
                                |b: int| Seq::<TaskSetEntry>::empty(),
                            )
                        } else {
                            before[i].1
                        },
                    ),
                )
            } else {
                after == before.push((key, Seq::new(p, |b: int| Seq::<TaskSetEntry>::empty())))
            }
        }),
{
    let key = group_key(job.graph.stages[s as int]);
    let p = job.graph.stages[s as int].plan.partitions as nat;
    let before = filled_groups(job_id, job, stages, Seq::empty());
    let after = filled_groups(job_id, job, stages.push(s), Seq::empty());
    let i = group_position(before, key);
    let keys_of = |s: usize| group_key(job.graph.stages[s as int]);
    let all = stages.map_values(keys_of);
    let old_keys = group_keys(job, stages);
    lemma_group_position(before, key);
    lemma_distinct(all);
    assert(stages.push(s).drop_last() =~= stages);
    assert(stages.push(s).map_values(keys_of) =~= all.push(key));
    assert(all.push(key).drop_last() =~= all);
    assert(group_keys(job, stages.push(s)) == insert_last(old_keys, key));
    assert forall|k: GroupKeyView| k != key implies #[trigger] bucket_count(job, stages.push(s), k)
        == bucket_count(job, stages, k) by {}
    assert(Seq::<TaskTopology>::empty().filter(
        |t: TaskTopology| in_bucket(job, t, key, 0, 0),
    ).len() == 0);
    assert forall|k: GroupKeyView, n: nat, b: int| #[trigger]
        bucket_entries(job_id, job, Seq::empty(), k, n, b) =~= Seq::<TaskSetEntry>::empty() by {
        reveal(Seq::filter);
    }
    if i < before.len() {
        assert(old_keys[i] == key);
        assert(old_keys.contains(key));
        let n = before[i].1.len();
        let changed = if p > n {
            before[i].1 + Seq::new((p - n) as nat, |b: int| Seq::<TaskSetEntry>::empty())
        } else {
            before[i].1
        };
        assert forall|j: int| 0 <= j < after.len() implies #[trigger] after[j] == before.update(
            i,
            (key, changed),
        )[j] by {
            if j == i {
                assert(after[i].1 =~= changed);
            } else {
                assert(old_keys[j] != key);
                assert(after[j].1 =~= before[j].1);
            }
        }
        assert(after =~= before.update(i, (key, changed)));
    } else {
        assert(!old_keys.contains(key)) by {
            if old_keys.contains(key) {
                let j = old_keys.index_of(key);
                assert(before[j].0 == key);
            }
        }
        assert forall|j: int| 0 <= j < stages.len() implies group_key(
            job.graph.stages[#[trigger] stages[j] as int],
        ) != key by {
            assert(all[j] == group_key(job.graph.stages[stages[j] as int]));
            if all[j] == key {
                assert(all.contains(key));
            }
        }
        lemma_bucket_count_zero(job, stages, key);
        let fresh = Seq::new(p, |b: int| Seq::<TaskSetEntry>::empty());
        assert forall|j: int| 0 <= j < after.len() implies #[trigger] after[j] == before.push(
            (key, fresh),
        )[j] by {
            if j == before.len() {
                assert(after[j].1 =~= fresh);
            } else {
                assert(old_keys[j] != key);
                assert(after[j].1 =~= before[j].1);
            }
        }
        assert(after =~= before.push((key, fresh)));
    }
}

/// Adding a task puts its latest attempt at the end of its bucket.
proof fn lemma_add_task(
    job_id: JobId,
    job: JobView,
    stages: Seq<usize>,
    tasks: Seq<TaskTopology>,
    t: TaskTopology,
)
    requires
        stages.contains(t.stage),
        has_place(job, t),
    ensures
        ({
            let stage = job.graph.stages[t.stage as int];
            let before = filled_groups(job_id, job, stages, tasks);
            let after = filled_groups(job_id, job, stages, tasks.push(t));
            let i = group_position(before, group_key(stage));
            let n = before[i].1.len();
            let b = bucket_of(t.partition as nat, stage.plan.partitions as nat, n) as int;
            &&& i < before.len()
            &&& if job.latest_attempt(t.stage as int, t.partition as int) is Some {
                &&& n > 0
                &&& b < n
                &&& after == before.update(
                    i,
                    (
                        group_key(stage),
                        before[i].1.update(b, before[i].1[b].push(task_entry(job_id, job, t))),
                    ),
                )
            } else {
                after == before
            }
        }),
{
    let stage = job.graph.stages[t.stage as int];
    let key = group_key(stage);
    let before = filled_groups(job_id, job, stages, tasks);
    let after = filled_groups(job_id, job, stages, tasks.push(t));
    let keys = group_keys(job, stages);
    let i = group_position(before, key);
    let all = stages.map_values(|s: usize| group_key(job.graph.stages[s as int]));
    lemma_group_position(before, key);
    lemma_distinct(all);
    let j = stages.index_of(t.stage);
    assert(all[j] == key);
    assert(all.contains(key));
    assert(keys.contains(key));
    let m = keys.index_of(key);
    assert(before[m].0 == key);
    assert(i < before.len());
    assert(keys[i] == key);
    lemma_bucket_count(job, stages, j);
    let n = before[i].1.len();
    if job.latest_attempt(t.stage as int, t.partition as int) is Some {
        lemma_bucket_in_range(t.partition as nat, stage.plan.partitions as nat, n);
    }
    let b = bucket_of(t.partition as nat, stage.plan.partitions as nat, n) as int;
    let entry = task_entry(job_id, job, t);
    assert forall|k: GroupKeyView, c: nat, d: int| #[trigger]
        bucket_entries(job_id, job, tasks.push(t), k, c, d) == if in_bucket(job, t, k, c, d) {
            bucket_entries(job_id, job, tasks, k, c, d).push(entry)
        } else {
            bucket_entries(job_id, job, tasks, k, c, d)
        } by {
        reveal(Seq::filter);
        let f = |t: TaskTopology| in_bucket(job, t, k, c, d);
        assert(tasks.push(t).drop_last() =~= tasks);
        assert(tasks.push(t).filter(f) == if f(t) {
            tasks.filter(f).push(t)
        } else {
            tasks.filter(f)
        });
        assert(bucket_entries(job_id, job, tasks.push(t), k, c, d) =~= if f(t) {
            bucket_entries(job_id, job, tasks, k, c, d).push(entry)
        } else {
            bucket_entries(job_id, job, tasks, k, c, d)
        });
    }
    let expected = if job.latest_attempt(t.stage as int, t.partition as int) is Some {
        before.update(i, (key, before[i].1.update(b, before[i].1[b].push(entry))))
    } else {
        before
    };
    assert forall|x: int| 0 <= x < after.len() implies #[trigger] after[x] == expected[x] by {
        if x != i {
            assert(keys[x] != key);
        }
        assert(after[x].1 =~= expected[x].1);
    }
    assert(after =~= expected);
}

/// The task sets that a group with its buckets stands for.
spec fn sets_of(group: (GroupKeyView, BucketsView)) -> RegionView {
    Seq::new(group.1.len(), |b: int| (group_placement(group.0), group.1[b]))
}

/// The view of a list of task sets.
spec fn set_views(sets: Seq<(TaskPlacement, TaskSet)>) -> RegionView {
    sets.map_values(|t: (TaskPlacement, TaskSet)| (t.0, t.1.entries@))
}

/// Lists the task sets of all groups.
fn list_task_sets(map: GroupMap) -> (r: Vec<(TaskPlacement, TaskSet)>)
    ensures
        set_views(r@) == map_groups(map).map_values(
            |g: (GroupKeyView, BucketsView)| sets_of(g),
        ).flatten(),
{
    let ghost groups = map_groups(map);
    let ghost all = groups.map_values(|g: (GroupKeyView, BucketsView)| sets_of(g));
    let mut list = group_map_into_vec(map);
    let mut r: Vec<(TaskPlacement, TaskSet)> = Vec::new();
    let mut i: usize = 0;
    proof {
        assert(list@.len() == groups.len());
        assert forall|j: int| 0 <= j < groups.len() implies #[trigger] groups[j] == (
            (list@[j].0.0, list@[j].0.1@),
            rows(list@[j].1@),
        ) by {}
        assert(all.take(0).flatten_alt() =~= Seq::empty());
    }
    while i < list.len()
        invariant
            i <= list@.len(),
            list@.len() == groups.len(),
            all == groups.map_values(|g: (GroupKeyView, BucketsView)| sets_of(g)),
            forall|j: int|
                i <= j < groups.len() ==> #[trigger] groups[j] == (
                    (list@[j].0.0, list@[j].0.1@),
                    rows(list@[j].1@),
                ),
            set_views(r@) == all.take(i as int).flatten_alt(),
        decreases list@.len() - i,
    {
        let ghost group = groups[i as int];
        let ghost before = set_views(r@);
        let placement = if list[i].0.0 {
            TaskPlacement::Driver
        } else {
            TaskPlacement::Worker
        };
        let mut buckets: Vec<Vec<TaskSetEntry>> = Vec::new();
        assert(groups[i as int] == ((list@[i as int].0.0, list@[i as int].0.1@), rows(
            list@[i as int].1@,
        )));
        std::mem::swap(&mut list[i].1, &mut buckets);
        let mut b: usize = 0;
        assert(before + sets_of(group).take(0) =~= before);
        while b < buckets.len()
            invariant
                b <= buckets@.len(),
                buckets@.len() == group.1.len(),
                placement == group_placement(group.0),
                forall|j: int| b <= j < buckets@.len() ==> (#[trigger] buckets@[j])@ == group.1[j],
                set_views(r@) == before + sets_of(group).take(b as int),
            decreases buckets@.len() - b,
        {
            let mut entries: Vec<TaskSetEntry> = Vec::new();
            std::mem::swap(&mut buckets[b], &mut entries);
            let ghost r0 = r@;
            r.push((placement, TaskSet { entries }));
            proof {
                assert(set_views(r@) =~= set_views(r0).push((placement, entries@)));
                assert(sets_of(group).take(b + 1) =~= sets_of(group).take(b as int).push(
                    (placement, entries@),
                ));
                assert(before + sets_of(group).take(b + 1) =~= (before + sets_of(group).take(
                    b as int,
                )).push((placement, entries@)));
            }
            b = b + 1;
        }
        proof {
            assert(sets_of(group).take(b as int) =~= sets_of(group));
            assert(all.take(i + 1).drop_last() =~= all.take(i as int));
            assert(all.take(i + 1).last() == sets_of(group));
        }
        i = i + 1;
    }
    proof {
        assert(all.take(i as int) =~= all);
        all.lemma_flatten_and_flatten_alt_are_equivalent();
    }
    r
}

/// Every stage of a list of tasks is the stage of a task, and the other way round.
pub proof fn lemma_stages_exist(tasks: Seq<TaskTopology>)
    ensures
        forall|i: int|
            0 <= i < task_stages(tasks).len() ==> exists|j: int|
                0 <= j < tasks.len() && (#[trigger] tasks[j]).stage
                    == #[trigger] task_stages(tasks)[i],
        forall|i: int|
            0 <= i < tasks.len() ==> task_stages(tasks).contains((#[trigger] tasks[i]).stage),
{
    let all = tasks.map_values(|t: TaskTopology| t.stage);
    lemma_distinct(all);
    assert forall|i: int| 0 <= i < task_stages(tasks).len() implies exists|j: int|
        0 <= j < tasks.len() && (#[trigger] tasks[j]).stage == #[trigger] task_stages(tasks)[i] by {
        assert(task_stages(tasks).contains(task_stages(tasks)[i]));
        let j = all.index_of(task_stages(tasks)[i]);
        assert(all.contains(task_stages(tasks)[i]));
        assert(tasks[j].stage == task_stages(tasks)[i]);
    }
    assert forall|i: int| 0 <= i < tasks.len() implies task_stages(tasks).contains(
        (#[trigger] tasks[i]).stage,
    ) by {
        assert(all[i] == tasks[i].stage);
        assert(all.contains(tasks[i].stage));
    }
}

/// The stages of a list of tasks, in the order in which they occur first.
pub fn region_stages(tasks: &Vec<TaskTopology>) -> (r: Vec<usize>)
    ensures
        r@ == task_stages(tasks@),
{
    let mut stages: Vec<usize> = Vec::new();
    let mut i: usize = 0;
    while i < tasks.len()
        invariant
            i <= tasks@.len(),
            stages@ == tasks@.take(i as int).map_values(|t: TaskTopology| t.stage),
        decreases tasks@.len() - i,
    {
        stages.push(tasks[i].stage);
        proof {
            assert(tasks@.take(i + 1) =~= tasks@.take(i as int).push(tasks@[i as int]));
            assert(stages@ =~= tasks@.take(i + 1).map_values(|t: TaskTopology| t.stage));
        }
        i = i + 1;
    }
    assert(tasks@.take(i as int) =~= tasks@);
    distinct_numbers(&stages)
}

/// Makes sure that the group of a stage has as many buckets as the stage has partitions.
fn add_stage(groups: &mut GroupMap, stage: &Stage)
    ensures
        ({
            let before = map_groups(*old(groups));
            let after = map_groups(*final(groups));
            let key = group_key(stage@);
            let p = stage.plan.partitions as nat;
            let i = group_position(before, key);
            let empty = Seq::<TaskSetEntry>::empty();
            if i < before.len() {
                let n = before[i].1.len();
                after == before.update(
                    i,
                    (
                        key,
                        if p > n {
                            before[i].1 + Seq::new((p - n) as nat, |b: int| empty)
                        } else {
                            before[i].1
                        },
                    ),
                )
            } else {
                after == before.push((key, Seq::new(p, |b: int| empty)))
            }
        }),
{
    let driver = match stage.placement {
        TaskPlacement::Driver => true,
        TaskPlacement::Worker => false,
    };
    let ghost before = map_groups(*groups);
    let ghost i = group_position(before, group_key(stage@));
    let group = group_or_default(groups, (driver, stage.group.clone()));
    let p: usize = stage.plan.partitions;
    let ghost found = rows(group@);
    let ghost empty = Seq::<TaskSetEntry>::empty();
    assert(found + Seq::new(0, |b: int| empty) =~= found);
    let n: usize = group.len();
    let mut m: usize = n;
    while m < p
        invariant
            found.len() == n,
            n <= m,
            n <= p ==> m <= p,
            n > p ==> m == n,
            empty == Seq::<TaskSetEntry>::empty(),
            group@.len() == m,
            rows(group@) == found + Seq::new((m - n) as nat, |b: int| empty),
        decreases p - m,
    {
        let ghost before_push = group@;
        group.push(Vec::new());
        m = m + 1;
        assert(group@[m - 1]@ =~= empty);
        assert(forall|b: int| 0 <= b < m - 1 ==> rows(before_push)[b] == #[trigger] group@[b]@);
        assert(rows(group@) =~= found + Seq::new((m - n) as nat, |b: int| empty));
    }
    proof {
        if i >= before.len() {
            assert(found + Seq::new((m - n) as nat, |b: int| empty) =~= Seq::new(
                p as nat,
                |b: int| empty,
            ));
        }
    }
}

/// Adds a task attempt to its bucket.
fn add_task(groups: &mut GroupMap, stage: &Stage, partition: usize, entry: TaskSetEntry)
    requires
        ({
            let before = map_groups(*old(groups));
            let i = group_position(before, group_key(stage@));
            &&& i < before.len()
            &&& partition < stage.plan.partitions
            &&& bucket_of(partition as nat, stage.plan.partitions as nat, before[i].1.len())
                < before[i].1.len()
        }),
    ensures
        ({
            let before = map_groups(*old(groups));
            let key = group_key(stage@);
            let i = group_position(before, key);
            let b = bucket_of(
                partition as nat,
                stage.plan.partitions as nat,
                before[i].1.len(),
            ) as int;
            map_groups(*final(groups)) == before.update(
                i,
                (key, before[i].1.update(b, before[i].1[b].push(entry))),
            )
        }),
{
    let driver = match stage.placement {
        TaskPlacement::Driver => true,
        TaskPlacement::Worker => false,
    };
    let key = (driver, stage.group.clone());
    if let Some(buckets) = group_get_mut(groups, &key) {
        let ghost before = rows(buckets@);
        let n: usize = buckets.len();
        proof {
            lemma_product_fits(partition, n);
        }
        let product: u128 = partition as u128 * n as u128;
        let bucket: u128 = product / stage.plan.partitions as u128;
        let b: usize = bucket as usize;
        buckets[b].push(entry);
        assert(rows(buckets@) =~= before.update(b as int, before[b as int].push(entry)));
    }
}

/// The product of two machine words fits in a double word.
proof fn lemma_product_fits(a: usize, b: usize)
    by (nonlinear_arith)
    ensures
        0 <= a * b <= u128::MAX,
{
}

impl JobScheduler {
    /// The number of the latest attempt at a task, if there is such a task and it has been
    /// attempted.
    pub fn get_latest_task_attempt(job: &JobDescriptor, stage: usize, partition: usize) -> (r: Option<
        usize,
    >)
        ensures
            r == job@.latest_attempt(stage as int, partition as int),
    {
        job.latest_attempt(stage, partition)
    }

    /// Groups the latest attempts at the tasks of a region into task sets.
    ///
    /// Stages with the same placement and group name share their task sets. There are as many of
    /// them as the stage with the most partitions has, and the partitions of every stage are
    /// spread evenly over them.
    pub fn build_task_region(job_id: JobId, job: &JobDescriptor, region: &TaskRegionTopology) -> (r:
        TaskRegion)
        requires
            forall|i: int|
                0 <= i < region@.tasks.len() ==> (#[trigger] region@.tasks[i]).stage
                    < job@.graph.stages.len() && has_place(job@, region@.tasks[i]),
        ensures
            r@ == region_sets(job_id, job@, region@.tasks),
    {
        let ghost tasks = region@.tasks;
        let stages = region_stages(&region.tasks);
        let mut groups = new_group_map();
        let mut i: usize = 0;
        proof {
            assert(stages@.take(0) =~= Seq::empty());
            assert(map_groups(groups) =~= filled_groups(
                job_id,
                job@,
                stages@.take(0),
                Seq::empty(),
            ));
            lemma_stages_exist(tasks);
        }
        while i < stages.len()
            invariant
                i <= stages@.len(),
                stages@ == task_stages(tasks),
                forall|i: int|
                    0 <= i < tasks.len() ==> (#[trigger] tasks[i]).stage < job@.graph.stages.len()
                        && has_place(job@, tasks[i]),
                forall|i: int|
                    0 <= i < stages@.len() ==> exists|j: int|
                        0 <= j < tasks.len() && (#[trigger] tasks[j]).stage == #[trigger] stages@[i],
                map_groups(groups) == filled_groups(
                    job_id,
                    job@,
                    stages@.take(i as int),
                    Seq::empty(),
                ),
            decreases stages@.len() - i,
        {
            let s: usize = stages[i];
            let ghost j = choose|j: int|
                0 <= j < tasks.len() && (#[trigger] tasks[j]).stage == stages@[i as int];
            assert(tasks[j].stage < job@.graph.stages.len());
            proof {
                lemma_add_stage(job_id, job@, stages@.take(i as int), s);
                assert(stages@.take(i + 1) =~= stages@.take(i as int).push(s));
                lemma_group_position(
                    map_groups(groups),
                    group_key(job@.graph.stages[s as int]),
                );
            }
            add_stage(&mut groups, &job.graph.stages[s]);
            i = i + 1;
        }
        assert(stages@.take(i as int) =~= stages@);
        let mut t: usize = 0;
        assert(tasks.take(0) =~= Seq::empty());
        while t < region.tasks.len()
            invariant
                t <= tasks.len(),
                tasks == region@.tasks,
                stages@ == task_stages(tasks),
                forall|i: int|
                    0 <= i < tasks.len() ==> (#[trigger] tasks[i]).stage < job@.graph.stages.len()
                        && has_place(job@, tasks[i]),
                forall|i: int| 0 <= i < tasks.len() ==> stages@.contains((#[trigger] tasks[i]).stage),
                map_groups(groups) == filled_groups(job_id, job@, stages@, tasks.take(t as int)),
            decreases tasks.len() - t,
        {
            let task = region.tasks[t];
            assert(task == tasks[t as int]);
            proof {
                lemma_add_task(job_id, job@, stages@, tasks.take(t as int), task);
                assert(tasks.take(t + 1) =~= tasks.take(t as int).push(task));
            }
            if let Some(attempt) = Self::get_latest_task_attempt(job, task.stage, task.partition) {
                let stage = &job.graph.stages[task.stage];
                let output = match stage.mode {
                    OutputMode::Pipelined | OutputMode::Blocking => TaskOutputKind::Local,
                };
                let entry = TaskSetEntry {
                    key: TaskKey {
                        job_id,
                        stage: task.stage,
                        partition: task.partition,
                        attempt,
                    },
                    output,
                };
                add_task(&mut groups, stage, task.partition, entry);
            }
            t = t + 1;
        }
        proof {
            assert(tasks.take(t as int) =~= tasks);
            let lists = filled_groups(job_id, job@, stages@, tasks).map_values(
                |g: (GroupKeyView, BucketsView)| sets_of(g),
            );
            let expected = group_keys(job@, task_stages(tasks)).map_values(
                |key: GroupKeyView| group_sets(job_id, job@, tasks, key),
            );
            assert forall|i: int| 0 <= i < expected.len() implies #[trigger] lists[i]
                == expected[i] by {
                assert(lists[i] =~= expected[i]);
            }
            assert(lists =~= expected);
        }
        TaskRegion { tasks: list_task_sets(groups) }
    }
}

/// The task attempts in the task sets of a region.
pub open spec fn set_entries(region: RegionView) -> Seq<TaskSetEntry> {
    region.map_values(|set: (TaskPlacement, Seq<TaskSetEntry>)| set.1).flatten()
}

/// The tasks of a list that have been attempted.
pub open spec fn attempted_tasks(job: JobView, tasks: Seq<TaskTopology>) -> Seq<TaskTopology> {
    tasks.filter(
        |t: TaskTopology| job.latest_attempt(t.stage as int, t.partition as int) is Some,
    )
}

/// The task attempts in the buckets of some groups.
spec fn group_entries(groups: Seq<(GroupKeyView, BucketsView)>) -> Seq<TaskSetEntry> {
    groups.map_values(|g: (GroupKeyView, BucketsView)| g.1.flatten()).flatten()
}

/// The buckets of the groups hold every task that has been attempted once.
proof fn lemma_filled_groups_entries(
    job_id: JobId,
    job: JobView,
    stages: Seq<usize>,
    tasks: Seq<TaskTopology>,
)
    requires
        forall|i: int|
            0 <= i < tasks.len() ==> {
                &&& stages.contains((#[trigger] tasks[i]).stage)
                &&& has_place(job, tasks[i])
            },
    ensures
        group_entries(filled_groups(job_id, job, stages, tasks)).to_multiset() == attempted_tasks(
            job,
            tasks,
        ).map_values(|t: TaskTopology| task_entry(job_id, job, t)).to_multiset(),
    decreases tasks.len(),
{
    reveal(Seq::filter);
    let entry_of = |t: TaskTopology| task_entry(job_id, job, t);
    let groups = filled_groups(job_id, job, stages, tasks);
    let lists = groups.map_values(|g: (GroupKeyView, BucketsView)| g.1.flatten());
    if tasks.len() == 0 {
        assert forall|i: int| 0 <= i < lists.len() implies (#[trigger] lists[i]).len() == 0 by {
            let buckets = groups[i].1;
            assert forall|b: int| 0 <= b < buckets.len() implies (#[trigger] buckets[b]).len()
                == 0 by {}
            lemma_flatten_empty(buckets);
        }
        lemma_flatten_empty(lists);
        assert(lists.flatten() =~= Seq::empty());
        assert(attempted_tasks(job, tasks).map_values(entry_of) =~= Seq::empty());
    } else {
        let rest = tasks.drop_last();
        let t = tasks[tasks.len() - 1];
        assert(tasks =~= rest.push(t));
        assert forall|i: int| 0 <= i < rest.len() implies {
            &&& stages.contains((#[trigger] rest[i]).stage)
            &&& has_place(job, rest[i])
        } by {
            assert(rest[i] == tasks[i]);
        }
        lemma_filled_groups_entries(job_id, job, stages, rest);
        lemma_add_task(job_id, job, stages, rest, t);
        let before = filled_groups(job_id, job, stages, rest);
        let known = attempted_tasks(job, rest);
        if job.latest_attempt(t.stage as int, t.partition as int) is Some {
            let stage = job.graph.stages[t.stage as int];
            let i = group_position(before, group_key(stage));
            let buckets = before[i].1;
            let b = bucket_of(
                t.partition as nat,
                stage.plan.partitions as nat,
                buckets.len(),
            ) as int;
            let x = task_entry(job_id, job, t);
            lemma_group_position(before, group_key(stage));
            let old_lists = before.map_values(|g: (GroupKeyView, BucketsView)| g.1.flatten());
            buckets[b].to_multiset_ensures();
            lemma_flatten_update(buckets, b, buckets[b].push(x), x);
            let new_row = buckets.update(b, buckets[b].push(x)).flatten();
            lemma_flatten_update(old_lists, i, new_row, x);
            assert(lists =~= old_lists.update(i, new_row));
            assert(attempted_tasks(job, tasks) == known.push(t));
            assert(known.push(t).map_values(entry_of) =~= known.map_values(entry_of).push(x));
            known.map_values(entry_of).to_multiset_ensures();
        } else {
            assert(attempted_tasks(job, tasks) == known);
        }
    }
}

/// Joining the sets of lists of sets, one gets the entries list by list.
proof fn lemma_set_entries(lists: Seq<RegionView>)
    ensures
        set_entries(lists.flatten()) == lists.map_values(|l: RegionView| set_entries(l)).flatten(),
    decreases lists.len(),
{
    let second = |set: (TaskPlacement, Seq<TaskSetEntry>)| set.1;
    let entries = lists.map_values(|l: RegionView| set_entries(l));
    if lists.len() == 0 {
        assert(lists.flatten() =~= Seq::empty());
        assert(lists.flatten().map_values(second) =~= Seq::empty());
        assert(set_entries(lists.flatten()) =~= Seq::empty());
        assert(entries.flatten() =~= Seq::empty());
    } else {
        let rest = lists.drop_first();
        lemma_set_entries(rest);
        let a = lists.first();
        let b = rest.flatten();
        assert((a + b).map_values(second) =~= a.map_values(second) + b.map_values(second));
        lemma_flatten_join(a.map_values(second), b.map_values(second));
        assert(entries.first() == set_entries(a));
        assert(entries.drop_first() =~= rest.map_values(|l: RegionView| set_entries(l)));
    }
}

/// The task sets of a region hold the latest attempt at every task that has been attempted, each of
/// them once, and nothing else.
pub proof fn lemma_region_holds_every_task(
    job_id: JobId,
    job: JobView,
    tasks: Seq<TaskTopology>,
)
    requires
        forall|i: int| 0 <= i < tasks.len() ==> has_place(job, #[trigger] tasks[i]),
    ensures
        set_entries(region_sets(job_id, job, tasks)).to_multiset() == attempted_tasks(
            job,
            tasks,
        ).map_values(|t: TaskTopology| task_entry(job_id, job, t)).to_multiset(),
{
    let stages = task_stages(tasks);
    lemma_stages_exist(tasks);
    lemma_filled_groups_entries(job_id, job, stages, tasks);
    let groups = filled_groups(job_id, job, stages, tasks);
    let lists = group_keys(job, stages).map_values(
        |key: GroupKeyView| group_sets(job_id, job, tasks, key),
    );
    lemma_set_entries(lists);
    let entries = lists.map_values(|l: RegionView| set_entries(l));
    let rows = groups.map_values(|g: (GroupKeyView, BucketsView)| g.1.flatten());
    assert forall|i: int| 0 <= i < rows.len() implies #[trigger] rows[i] == entries[i] by {
        assert(lists[i].map_values(|set: (TaskPlacement, Seq<TaskSetEntry>)| set.1)
            =~= groups[i].1);
    }
    assert(rows =~= entries);
}

/// A stage with as many partitions as its group has task sets has one task in each of them, by
/// partition.
pub proof fn lemma_widest_stage_is_spread(partition: nat, partitions: nat)
    requires
        partition < partitions,
    ensures
        bucket_of(partition, partitions, partitions) == partition,
{
    assert((partition * partitions) / partitions == partition) by (nonlinear_arith)
        requires
            partition < partitions,
    ;
}

}

//! Which task attempts are scheduled together, told task by task.

use crate::collections::{distinct, lemma_distinct, GroupKeyView};
use crate::id::JobId;
use crate::scheduler::effects::has_been_tried;
use crate::scheduler::keys::newest;
use crate::scheduler::region::{
    attempted_tasks, bucket_count, bucket_entries, group_key, group_keys, group_sets, has_place,
    in_bucket, lemma_region_holds_every_task, lemma_stages_exist, region_sets, set_entries,
    task_entry, task_stages,
};
use crate::state::JobView;
use crate::task::{RegionView, TaskPlacement, TaskSetEntry};
use crate::topology::TaskTopology;
use vstd::prelude::*;

verus! {

/// How many items the first `k` lists hold together.
pub open spec fn length_before<A>(lists: Seq<Seq<A>>, k: int) -> int
    decreases k,
{
    if k <= 0 {
        0
    } else {
        length_before(lists, k - 1) + lists[k - 1].len()
    }
}

/// Taking away the first list takes away its items.
proof fn lemma_length_shift<A>(lists: Seq<Seq<A>>, k: int)
    requires
        0 < k <= lists.len(),
    ensures
        length_before(lists, k) == lists[0].len() + length_before(lists.drop_first(), k - 1),
    decreases k,
{
    if k > 1 {
        lemma_length_shift(lists, k - 1);
        assert(lists.drop_first()[k - 2] == lists[k - 1]);
    } else {
        assert(length_before(lists, 0) == 0);
        assert(length_before(lists.drop_first(), 0) == 0);
    }
}

/// Where an item stands once lists follow one another.
proof fn lemma_flatten_at<A>(lists: Seq<Seq<A>>, i: int, j: int)
    requires
        0 <= i < lists.len(),
        0 <= j < lists[i].len(),
    ensures
        0 <= length_before(lists, i) + j < lists.flatten().len(),
        lists.flatten()[length_before(lists, i) + j] == lists[i][j],
    decreases i,
{
    let rest = lists.drop_first();
    let all = lists.first() + rest.flatten();
    assert(lists.flatten() == all);
    if i > 0 {
        assert(rest[i - 1] == lists[i]);
        lemma_flatten_at(rest, i - 1, j);
        lemma_length_shift(lists, i);
        let x = length_before(rest, i - 1) + j;
        assert(all[lists[0].len() + x] == rest.flatten()[x]);
    } else {
        assert(all[j] == lists[0][j]);
    }
}

/// Which list an item comes from.
pub proof fn lemma_flatten_from<A>(lists: Seq<Seq<A>>, x: int) -> (r: (int, int))
    requires
        0 <= x < lists.flatten().len(),
    ensures
        0 <= r.0 < lists.len(),
        0 <= r.1 < lists[r.0].len(),
        x == length_before(lists, r.0) + r.1,
        lists.flatten()[x] == lists[r.0][r.1],
    decreases lists.len(),
{
    if lists.len() == 0 {
        assert(lists.flatten() =~= Seq::empty());
        (0, 0)
    } else {
        let rest = lists.drop_first();
        let all = lists.first() + rest.flatten();
        assert(lists.flatten() == all);
        if x < lists[0].len() {
            assert(length_before(lists, 0) == 0);
            (0, x)
        } else {
            let r = lemma_flatten_from(rest, x - lists[0].len());
            lemma_length_shift(lists, r.0 + 1);
            assert(rest[r.0] == lists[r.0 + 1]);
            assert(all[x] == rest.flatten()[x - lists[0].len()]);
            (r.0 + 1, r.1)
        }
    }
}

/// The items of all lists together.
proof fn lemma_flatten_length<A>(lists: Seq<Seq<A>>)
    ensures
        lists.flatten().len() == length_before(lists, lists.len() as int),
    decreases lists.len(),
{
    if lists.len() == 0 {
        assert(lists.flatten() =~= Seq::empty());
    } else {
        lemma_flatten_length(lists.drop_first());
        lemma_length_shift(lists, lists.len() as int);
        assert(lists.flatten() == lists.first() + lists.drop_first().flatten());
    }
}

/// Where a stage runs, and the group that it belongs to.
pub open spec fn home(job: JobView, stage: usize) -> (bool, Seq<char>) {
    (
        job.graph.stages[stage as int].placement is Driver,
        job.graph.stages[stage as int].group,
    )
}

/// The homes of some tasks, in the order in which they occur first.
pub open spec fn homes(job: JobView, tasks: Seq<TaskTopology>) -> Seq<(bool, Seq<char>)>
    decreases tasks.len(),
{
    if tasks.len() == 0 {
        Seq::empty()
    } else {
        let before = homes(job, tasks.drop_last());
        let last = home(job, tasks.last().stage);
        if before.contains(last) {
            before
        } else {
            before.push(last)
        }
    }
}

/// The most partitions of a stage with one of some tasks at a home.
pub open spec fn widest(job: JobView, tasks: Seq<TaskTopology>, at: (bool, Seq<char>)) -> int
    decreases tasks.len(),
{
    if tasks.len() == 0 {
        0
    } else {
        let before = widest(job, tasks.drop_last(), at);
        let partitions = job.graph.stages[tasks.last().stage as int].plan.partitions as int;
        if home(job, tasks.last().stage) == at && partitions > before {
            partitions
        } else {
            before
        }
    }
}

/// The number of task sets of the first `k` homes together: each home has as many as its widest stage has
/// partitions.
pub open spec fn sets_before(job: JobView, tasks: Seq<TaskTopology>, k: int) -> int
    decreases k,
{
    if k <= 0 {
        0
    } else {
        sets_before(job, tasks, k - 1) + widest(job, tasks, homes(job, tasks)[k - 1])
    }
}

/// Mapping distinct items and mapping all items gives the same distinct items.
proof fn lemma_distinct_mapped<A, B>(s: Seq<A>, f: spec_fn(A) -> B)
    ensures
        distinct(distinct(s).map_values(f)) == distinct(s.map_values(f)),
    decreases s.len(),
{
    if s.len() == 0 {
        assert(distinct(s).map_values(f) =~= s.map_values(f));
    } else {
        let rest = s.drop_last();
        let d = distinct(rest);
        lemma_distinct_mapped(rest, f);
        assert(s.map_values(f).drop_last() =~= rest.map_values(f));
        let m = d.map_values(f);
        if d.contains(s.last()) {
            let i = d.index_of(s.last());
            assert(m[i] == f(s.last()));
            assert(m.contains(f(s.last())));
            lemma_distinct(m);
            assert(distinct(m).contains(f(s.last())));
        } else {
            assert(distinct(s).map_values(f) =~= m.push(f(s.last())));
            assert(m.push(f(s.last())).drop_last() =~= m);
        }
    }
}

/// The groups of a region are the homes of its tasks.
proof fn lemma_homes(job: JobView, tasks: Seq<TaskTopology>)
    ensures
        group_keys(job, task_stages(tasks)) == homes(job, tasks),
    decreases tasks.len(),
{
    let f = |s: usize| group_key(job.graph.stages[s as int]);
    let stage_of = |t: TaskTopology| t.stage;
    let of_tasks = tasks.map_values(stage_of).map_values(f);
    lemma_distinct_mapped(tasks.map_values(stage_of), f);
    lemma_distinct_homes(job, tasks);
    assert(distinct(of_tasks) == homes(job, tasks));
}

/// The homes are distinct.
proof fn lemma_distinct_homes(job: JobView, tasks: Seq<TaskTopology>)
    ensures
        distinct(
            tasks.map_values(|t: TaskTopology| t.stage).map_values(
                |s: usize| group_key(job.graph.stages[s as int]),
            ),
        ) == homes(job, tasks),
    decreases tasks.len(),
{
    let f = |s: usize| group_key(job.graph.stages[s as int]);
    let stage_of = |t: TaskTopology| t.stage;
    let all = tasks.map_values(stage_of).map_values(f);
    if tasks.len() > 0 {
        let rest = tasks.drop_last();
        lemma_distinct_homes(job, rest);
        assert(all.drop_last() =~= rest.map_values(stage_of).map_values(f));
        assert(all.last() == home(job, tasks.last().stage));
    } else {
        assert(all.len() == 0);
    }
}

/// The number of task sets of a group is an upper bound of the partitions of its stages, and one of them
/// has as many, unless there are none.
proof fn lemma_bucket_count_exact(job: JobView, stages: Seq<usize>, key: GroupKeyView)
    ensures
        forall|i: int|
            0 <= i < stages.len() && group_key(job.graph.stages[(#[trigger] stages[i]) as int])
                == key ==> job.graph.stages[stages[i] as int].plan.partitions <= bucket_count(
                job,
                stages,
                key,
            ),
        bucket_count(job, stages, key) == 0 || exists|i: int|
            0 <= i < stages.len() && group_key(job.graph.stages[(#[trigger] stages[i]) as int])
                == key && job.graph.stages[stages[i] as int].plan.partitions == bucket_count(
                job,
                stages,
                key,
            ),
    decreases stages.len(),
{
    if stages.len() > 0 {
        let rest = stages.drop_last();
        lemma_bucket_count_exact(job, rest, key);
        let n = bucket_count(job, rest, key);
        assert(stages[stages.len() - 1] == stages.last());
        assert forall|i: int|
            0 <= i < stages.len() && group_key(job.graph.stages[(#[trigger] stages[i]) as int])
                == key implies job.graph.stages[stages[i] as int].plan.partitions <= bucket_count(
            job,
            stages,
            key,
        ) by {
            if i < rest.len() {
                assert(rest[i] == stages[i]);
            }
        }
        if bucket_count(job, stages, key) == n && n > 0 {
            let i = choose|i: int|
                0 <= i < rest.len() && group_key(job.graph.stages[(#[trigger] rest[i]) as int])
                    == key && job.graph.stages[rest[i] as int].plan.partitions == n;
            assert(stages[i] == rest[i]);
        }
    }
}

/// The same, of the stages of tasks.
proof fn lemma_widest_exact(job: JobView, tasks: Seq<TaskTopology>, at: (bool, Seq<char>))
    ensures
        widest(job, tasks, at) >= 0,
        forall|i: int|
            0 <= i < tasks.len() && home(job, (#[trigger] tasks[i]).stage) == at
                ==> job.graph.stages[tasks[i].stage as int].plan.partitions <= widest(
                job,
                tasks,
                at,
            ),
        widest(job, tasks, at) == 0 || exists|i: int|
            0 <= i < tasks.len() && home(job, (#[trigger] tasks[i]).stage) == at
                && job.graph.stages[tasks[i].stage as int].plan.partitions == widest(
                job,
                tasks,
                at,
            ),
    decreases tasks.len(),
{
    if tasks.len() > 0 {
        let rest = tasks.drop_last();
        lemma_widest_exact(job, rest, at);
        let n = widest(job, rest, at);
        assert(tasks[tasks.len() - 1] == tasks.last());
        assert forall|i: int|
            0 <= i < tasks.len() && home(job, (#[trigger] tasks[i]).stage) == at
            implies job.graph.stages[tasks[i].stage as int].plan.partitions <= widest(
            job,
            tasks,
            at,
        ) by {
            if i < rest.len() {
                assert(rest[i] == tasks[i]);
            }
        }
        if widest(job, tasks, at) == n && n > 0 {
            let i = choose|i: int|
                0 <= i < rest.len() && home(job, (#[trigger] rest[i]).stage) == at
                    && job.graph.stages[rest[i].stage as int].plan.partitions == n;
            assert(tasks[i] == rest[i]);
        }
    }
}

/// A group has as many task sets as its widest stage has partitions.
proof fn lemma_widest(job: JobView, tasks: Seq<TaskTopology>, at: (bool, Seq<char>))
    ensures
        bucket_count(job, task_stages(tasks), at) == widest(job, tasks, at),
{
    let stages = task_stages(tasks);
    lemma_bucket_count_exact(job, stages, at);
    lemma_widest_exact(job, tasks, at);
    lemma_stages_exist(tasks);
    let n = bucket_count(job, stages, at);
    let m = widest(job, tasks, at);
    if n > 0 {
        let i = choose|i: int|
            0 <= i < stages.len() && group_key(job.graph.stages[(#[trigger] stages[i]) as int])
                == at && job.graph.stages[stages[i] as int].plan.partitions == n;
        let j = choose|j: int| 0 <= j < tasks.len() && (#[trigger] tasks[j]).stage == stages[i];
        assert(home(job, tasks[j].stage) == at);
    }
    if m > 0 {
        let i = choose|i: int|
            0 <= i < tasks.len() && home(job, (#[trigger] tasks[i]).stage) == at
                && job.graph.stages[tasks[i].stage as int].plan.partitions == m;
        assert(stages.contains(tasks[i].stage));
        let j = stages.index_of(tasks[i].stage);
        assert(stages[j] == tasks[i].stage);
    }
}

/// The task set that a task of a home belongs to: the partitions of its stage are spread evenly over the
/// sets of the home.
pub open spec fn set_number(
    job: JobView,
    tasks: Seq<TaskTopology>,
    task: TaskTopology,
    k: int,
) -> int {
    sets_before(job, tasks, k) + (task.partition * widest(job, tasks, homes(job, tasks)[k])) / (
    job.graph.stages[task.stage as int].plan.partitions as int)
}

/// Whether an entry of a task set stands for the newest attempt at a task.
pub open spec fn stands_for(
    job_id: JobId,
    job: JobView,
    entry: TaskSetEntry,
    task: TaskTopology,
) -> bool {
    &&& has_been_tried(job, task.stage as int, task.partition as int)
    &&& entry.key == newest(job_id, job, task.stage, task.partition as int)
    &&& entry.output is Local
}

/// The task sets of a region hold the newest attempts at its tasks, and nothing else. There are as many sets
/// for a home as its widest stage has partitions, home by home. The partitions of a stage are spread
/// evenly over the sets of its home, and a set is placed where its home is.
pub proof fn lemma_sets_by_home(job_id: JobId, job: JobView, tasks: Seq<TaskTopology>)
    requires
        forall|i: int|
            0 <= i < tasks.len() && has_been_tried(
                job,
                (#[trigger] tasks[i]).stage as int,
                tasks[i].partition as int,
            ) ==> tasks[i].partition < job.graph.stages[tasks[i].stage as int].plan.partitions,
    ensures
        ({
            let sets = region_sets(job_id, job, tasks);
            let all = homes(job, tasks);
            &&& sets.len() == sets_before(job, tasks, all.len() as int)
            &&& forall|x: int, y: int|
                0 <= x < sets.len() && 0 <= y < sets[x].1.len() ==> is_accounted_for(
                    job_id,
                    job,
                    tasks,
                    x,
                    #[trigger] sets[x].1[y],
                )
            &&& forall|k: int, b: int|
                0 <= k < all.len() && 0 <= b < widest(job, tasks, all[k]) ==> (
                #[trigger] sets[sets_before(job, tasks, k) + b]).0 is Driver == all[k].0
            &&& forall|i: int, k: int|
                0 <= i < tasks.len() && 0 <= k < all.len() && has_been_tried(
                    job,
                    tasks[i].stage as int,
                    tasks[i].partition as int,
                ) && home(job, tasks[i].stage) == all[k] ==> {
                    let x = #[trigger] set_number(job, tasks, tasks[i], k);
                    &&& 0 <= x < sets.len()
                    &&& exists|y: int|
                        0 <= y < sets[x].1.len() && stands_for(
                            job_id,
                            job,
                            #[trigger] sets[x].1[y],
                            tasks[i],
                        )
                }
        }),
{
    let stages = task_stages(tasks);
    let sets = region_sets(job_id, job, tasks);
    let all = homes(job, tasks);
    lemma_homes(job, tasks);
    let lists = all.map_values(|key: GroupKeyView| group_sets(job_id, job, tasks, key));
    assert(sets == lists.flatten());
    assert forall|k: int| 0 <= k < all.len() implies (#[trigger] lists[k]).len() == widest(
        job,
        tasks,
        all[k],
    ) by {
        lemma_widest(job, tasks, all[k]);
    }
    lemma_sets_before(job, tasks, lists, all.len() as int);
    lemma_flatten_length(lists);
    assert forall|x: int, y: int|
        0 <= x < sets.len() && 0 <= y < sets[x].1.len() implies is_accounted_for(
        job_id,
        job,
        tasks,
        x,
        #[trigger] sets[x].1[y],
    ) by {
        let (k, b) = lemma_flatten_from(lists, x);
        lemma_sets_before(job, tasks, lists, k);
        lemma_widest(job, tasks, all[k]);
        let n = widest(job, tasks, all[k]) as nat;
        let chosen = tasks.filter(|t: TaskTopology| in_bucket(job, t, all[k], n, b));
        let t = chosen[y];
        assert(sets[x].1 == bucket_entries(job_id, job, tasks, all[k], n, b));
        assert(sets[x].1[y] == task_entry(job_id, job, t));
        assert(chosen.contains(t));
        tasks.lemma_filter_contains_rev(|t: TaskTopology| in_bucket(job, t, all[k], n, b), t);
        let i = tasks.index_of(t);
        assert(tasks[i] == t);
        assert(in_bucket(job, t, all[k], n, b));
        assert(set_number(job, tasks, tasks[i], k) == x);
        assert(is_number(job, tasks, i, k, x));
    }
    assert forall|k: int, b: int|
        0 <= k < all.len() && 0 <= b < widest(job, tasks, all[k]) implies (
    #[trigger] sets[sets_before(job, tasks, k) + b]).0 is Driver == all[k].0 by {
        lemma_sets_before(job, tasks, lists, k);
        assert(lists[k].len() == widest(job, tasks, all[k]));
        lemma_flatten_at(lists, k, b);
    }
    assert forall|i: int, k: int|
        0 <= i < tasks.len() && 0 <= k < all.len() && has_been_tried(
            job,
            tasks[i].stage as int,
            tasks[i].partition as int,
        ) && home(job, tasks[i].stage) == all[k] implies {
        let x = #[trigger] set_number(job, tasks, tasks[i], k);
        &&& 0 <= x < sets.len()
        &&& exists|y: int|
            0 <= y < sets[x].1.len() && stands_for(job_id, job, #[trigger] sets[x].1[y], tasks[i])
    } by {
        let t = tasks[i];
        let n = widest(job, tasks, all[k]);
        let parts = job.graph.stages[t.stage as int].plan.partitions as int;
        let b = (t.partition * n) / parts;
        lemma_widest_exact(job, tasks, all[k]);
        lemma_widest(job, tasks, all[k]);
        assert(0 <= b < n) by (nonlinear_arith)
            requires
                0 <= t.partition < parts <= n,
                b == (t.partition * n) / parts,
        ;
        lemma_sets_before(job, tasks, lists, k);
        lemma_flatten_at(lists, k, b);
        let x = set_number(job, tasks, t, k);
        assert(x == length_before(lists, k) + b);
        let f = |t: TaskTopology| in_bucket(job, t, all[k], n as nat, b);
        assert(f(tasks[i]));
        let chosen = tasks.filter(f);
        assert(chosen.contains(t));
        let y = chosen.index_of(t);
        assert(sets[x].1 == bucket_entries(job_id, job, tasks, all[k], n as nat, b));
        assert(sets[x].1[y] == task_entry(job_id, job, t));
        assert(stands_for(job_id, job, sets[x].1[y], tasks[i]));
    }
}

/// Whether a task set is the one that a task belongs to.
pub open spec fn is_number(
    job: JobView,
    tasks: Seq<TaskTopology>,
    i: int,
    k: int,
    x: int,
) -> bool {
    &&& 0 <= i < tasks.len()
    &&& 0 <= k < homes(job, tasks).len()
    &&& home(job, tasks[i].stage) == homes(job, tasks)[k]
    &&& set_number(job, tasks, tasks[i], k) == x
}

/// Whether an entry of a task set stands for a task that belongs there.
pub open spec fn is_accounted_for(
    job_id: JobId,
    job: JobView,
    tasks: Seq<TaskTopology>,
    x: int,
    entry: TaskSetEntry,
) -> bool {
    exists|i: int, k: int| #[trigger]
        is_number(job, tasks, i, k, x) && stands_for(job_id, job, entry, tasks[i])
}

/// Both ways of counting task sets agree.
proof fn lemma_sets_before(
    job: JobView,
    tasks: Seq<TaskTopology>,
    lists: Seq<RegionView>,
    k: int,
)
    requires
        0 <= k <= lists.len(),
        lists.len() == homes(job, tasks).len(),
        forall|i: int|
            0 <= i < lists.len() ==> (#[trigger] lists[i]).len() == widest(
                job,
                tasks,
                homes(job, tasks)[i],
            ),
    ensures
        length_before(lists, k) == sets_before(job, tasks, k),
    decreases k,
{
    if k > 0 {
        lemma_sets_before(job, tasks, lists, k - 1);
        assert(lists[k - 1].len() == widest(job, tasks, homes(job, tasks)[k - 1]));
    }
}

/// The task sets of a region hold as many task attempts as there are tasks that have been attempted.
pub proof fn lemma_sets_hold_each_once(job_id: JobId, job: JobView, tasks: Seq<TaskTopology>)
    requires
        forall|i: int|
            0 <= i < tasks.len() && has_been_tried(
                job,
                (#[trigger] tasks[i]).stage as int,
                tasks[i].partition as int,
            ) ==> tasks[i].partition < job.graph.stages[tasks[i].stage as int].plan.partitions,
    ensures
        region_sets(job_id, job, tasks).map_values(
            |set: (TaskPlacement, Seq<TaskSetEntry>)| set.1,
        ).flatten().len() == tasks.filter(
            |t: TaskTopology| has_been_tried(job, t.stage as int, t.partition as int),
        ).len(),
{
    assert forall|i: int| 0 <= i < tasks.len() implies has_place(job, #[trigger] tasks[i]) by {}
    lemma_region_holds_every_task(job_id, job, tasks);
    let f = |t: TaskTopology| has_been_tried(job, t.stage as int, t.partition as int);
    let g = |t: TaskTopology| job.latest_attempt(t.stage as int, t.partition as int) is Some;
    assert(f =~= g);
    let a = set_entries(region_sets(job_id, job, tasks));
    let b = attempted_tasks(job, tasks).map_values(|t: TaskTopology| task_entry(job_id, job, t));
    a.to_multiset_ensures();
    b.to_multiset_ensures();
}

/// What is kept of a list is kept in order.
proof fn lemma_kept_in_order(
    tasks: Seq<TaskTopology>,
    f: spec_fn(TaskTopology) -> bool,
    a: int,
    b: int,
) -> (r: (int, int))
    requires
        0 <= a < b < tasks.filter(f).len(),
    ensures
        0 <= r.0 < r.1 < tasks.len(),
        tasks[r.0] == tasks.filter(f)[a],
        tasks[r.1] == tasks.filter(f)[b],
    decreases tasks.len(),
{
    reveal(Seq::filter);
    let rest = tasks.drop_last();
    let kept = rest.filter(f);
    if b < kept.len() {
        lemma_kept_in_order(rest, f, a, b)
    } else {
        assert(kept.contains(kept[a]));
        rest.lemma_filter_contains_rev(f, kept[a]);
        let i = rest.index_of(kept[a]);
        assert(tasks[i] == rest[i]);
        (i, tasks.len() - 1)
    }
}

/// The task attempts in a task set are in the order of the tasks of the region.
pub proof fn lemma_sets_in_order(
    job_id: JobId,
    job: JobView,
    tasks: Seq<TaskTopology>,
    x: int,
    y: int,
    z: int,
)
    requires
        0 <= x < region_sets(job_id, job, tasks).len(),
        0 <= y < z < region_sets(job_id, job, tasks)[x].1.len(),
    ensures
        exists|i: int, j: int|
            0 <= i < j < tasks.len() && stands_for(
                job_id,
                job,
                region_sets(job_id, job, tasks)[x].1[y],
                #[trigger] tasks[i],
            ) && stands_for(
                job_id,
                job,
                region_sets(job_id, job, tasks)[x].1[z],
                #[trigger] tasks[j],
            ),
{
    let sets = region_sets(job_id, job, tasks);
    let all = group_keys(job, task_stages(tasks));
    let lists = all.map_values(|key: GroupKeyView| group_sets(job_id, job, tasks, key));
    let (k, b) = lemma_flatten_from(lists, x);
    let n = bucket_count(job, task_stages(tasks), all[k]);
    let f = |t: TaskTopology| in_bucket(job, t, all[k], n, b);
    let chosen = tasks.filter(f);
    assert(sets[x].1 == bucket_entries(job_id, job, tasks, all[k], n, b));
    assert(sets[x].1[y] == task_entry(job_id, job, chosen[y]));
    assert(sets[x].1[z] == task_entry(job_id, job, chosen[z]));
    assert(f(chosen[y]) && f(chosen[z]));
    let (i, j) = lemma_kept_in_order(tasks, f, y, z);
    assert(stands_for(job_id, job, sets[x].1[y], tasks[i]));
    assert(stands_for(job_id, job, sets[x].1[z], tasks[j]));
}

}

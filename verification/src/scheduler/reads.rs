//! Listing the index files and the changed plans that a refresh needs.

use crate::id::JobId;
use crate::job_graph::{InputMode, OutputMode};
use crate::measurements::Measurements;
use crate::scheduler::adapt::{
    choose_ranges, input_ranges, is_merged, latest_attempts, list_latest_attempts,
};
use crate::scheduler::cancel::has_failure;
use crate::scheduler::order::is_done;
use crate::scheduler::progress::has_succeeded;
use crate::scheduler::regroup::has_stage;
use crate::scheduler::schedule::is_live;
use crate::scheduler::{JobScheduler, SchedulerView};
use crate::state::{JobDescriptor, JobState, JobView, TaskState};
use vstd::prelude::*;

verus! {

/// The index files of a stage that a refresh needs: those of all channels of one attempt per task.
#[derive(Debug)]
pub struct ShuffleRead {
    pub stage: usize,
    pub channels: usize,
    pub attempts: Vec<usize>,
}

/// The index files of a stage as a mathematical value.
#[verifier::ext_equal]
pub struct ShuffleReadView {
    pub stage: usize,
    pub channels: usize,
    pub attempts: Seq<usize>,
}

impl View for ShuffleRead {
    type V = ShuffleReadView;

    open spec fn view(&self) -> ShuffleReadView {
        ShuffleReadView { stage: self.stage, channels: self.channels, attempts: self.attempts@ }
    }
}

/// Whether no other region has a task of a stage.
pub open spec fn is_own_stage(job: JobView, region: int, stage: int) -> bool {
    forall|r: int|
        0 <= r < job.regions.len() && r != region ==> !#[trigger] has_stage(job, r, stage)
}

/// Whether a region has a live task of a stage of its own.
pub open spec fn has_own_live(job: JobView, region: int) -> bool {
    exists|i: int|
        0 <= i < job.region_tasks(region).len() && is_live(
            job,
            #[trigger] job.region_tasks(region)[i],
        ) && is_own_stage(job, region, job.region_tasks(region)[i].stage as int)
}

/// Whether a region may be scheduled by the next refresh: all regions that it depends on are done, and
/// it is neither done nor running without a failure.
pub open spec fn may_start(job: JobView, region: int) -> bool {
    &&& !is_done(job, region)
    &&& has_failure(job, region) || !has_own_live(job, region)
    &&& forall|i: int|
        0 <= i < job.topology.regions[region].dependencies.len() ==> is_done(
            job,
            (#[trigger] job.topology.regions[region].dependencies[i]) as int,
        )
}

/// Whether a stage has a task in a region that may be scheduled by the next refresh.
pub open spec fn may_read(job: JobView, stage: int) -> bool {
    exists|r: int|
        0 <= r < job.regions.len() && #[trigger] has_stage(job, r, stage) && may_start(job, r)
}

/// Whether some stage that may be scheduled by the next refresh may read a stage in groups of
/// channels that are still to be determined.
pub open spec fn is_measured(job: JobView, stage: int) -> bool {
    exists|s: int, i: int|
        0 <= s < job.graph.stages.len() && 0 <= i < job.graph.stages[s].inputs.len()
            && #[trigger] job.adaptable_input(s, i) && job.graph.stages[s].inputs[i].stage == stage
            && may_read(job, s)
}

/// The index files of a stage that a refresh needs.
pub open spec fn stage_read(job: JobView, stage: int) -> ShuffleReadView {
    ShuffleReadView {
        stage: stage as usize,
        channels: job.graph.stages[stage].distribution.spec_channels(),
        attempts: latest_attempts(job, stage as usize),
    }
}

/// The index files of the first `n` stages that a refresh needs.
pub open spec fn stage_reads(job: JobView, n: nat) -> Seq<ShuffleReadView>
    decreases n,
{
    if n == 0 {
        Seq::empty()
    } else if is_measured(job, n - 1) {
        stage_reads(job, (n - 1) as nat).push(stage_read(job, n - 1))
    } else {
        stage_reads(job, (n - 1) as nat)
    }
}

/// The index files that the next refresh of a job needs. Without adaptive reading, and for a job that
/// does not exist or is not running, there are none.
pub open spec fn needed_reads(scheduler: SchedulerView, job_id: JobId) -> Seq<ShuffleReadView> {
    if scheduler.options.adaptive_enabled && scheduler.jobs.dom().contains(job_id)
        && scheduler.jobs[job_id].state is Running {
        stage_reads(scheduler.jobs[job_id], scheduler.jobs[job_id].stages.len())
    } else {
        Seq::empty()
    }
}

/// A change of the plan of a stage that a refresh may make: the number of groups in which it is to read
/// one of its inputs.
#[derive(Debug, Clone, Copy, PartialEq, Eq, Structural)]
pub struct PlanChange {
    pub stage: usize,
    pub input: usize,
    pub groups: usize,
}

/// The changes of the plan of a stage for those of its first `n` inputs that are to be read in groups
/// of channels.
pub open spec fn stage_changes(
    target: u64,
    data: &Measurements,
    job_id: JobId,
    job: JobView,
    stage: int,
    n: nat,
) -> Seq<PlanChange>
    decreases n,
{
    if n == 0 {
        Seq::empty()
    } else {
        let before = stage_changes(target, data, job_id, job, stage, (n - 1) as nat);
        if is_merged(target, data, job_id, job, stage, n - 1) {
            before.push(
                PlanChange {
                    stage: stage as usize,
                    input: (n - 1) as usize,
                    groups: input_ranges(target, data, job_id, job, stage, n - 1).len() as usize,
                },
            )
        } else {
            before
        }
    }
}

/// The changes of the plans of those of the first `n` stages that may be scheduled by the next refresh.
pub open spec fn job_changes(
    target: u64,
    data: &Measurements,
    job_id: JobId,
    job: JobView,
    n: nat,
) -> Seq<PlanChange>
    decreases n,
{
    if n == 0 {
        Seq::empty()
    } else if may_read(job, n - 1) {
        job_changes(target, data, job_id, job, (n - 1) as nat) + stage_changes(
            target,
            data,
            job_id,
            job,
            n - 1,
            job.graph.stages[n - 1].inputs.len(),
        )
    } else {
        job_changes(target, data, job_id, job, (n - 1) as nat)
    }
}

/// The changes of plans that the next refresh of a job may make. Without adaptive reading, and for a
/// job that does not exist or is not running, there are none.
pub open spec fn needed_changes(scheduler: SchedulerView, data: &Measurements, job_id: JobId) -> Seq<
    PlanChange,
> {
    if scheduler.options.adaptive_enabled && scheduler.jobs.dom().contains(job_id)
        && scheduler.jobs[job_id].state is Running {
        job_changes(
            scheduler.options.target_partition_size,
            data,
            job_id,
            scheduler.jobs[job_id],
            scheduler.jobs[job_id].stages.len(),
        )
    } else {
        Seq::empty()
    }
}

/// Whether all tasks of a region have succeeded.
fn check_done(job: &JobDescriptor, region: usize) -> (r: bool)
    requires
        job@.linked(),
        region < job@.regions.len(),
    ensures
        r == is_done(job@, region as int),
{
    let tasks = &job.topology.regions[region].tasks;
    assert(tasks@ == job@.region_tasks(region as int));
    let mut i: usize = 0;
    while i < tasks.len()
        invariant
            i <= tasks@.len(),
            tasks@ == job@.region_tasks(region as int),
            forall|k: int|
                0 <= k < i ==> has_succeeded(job@, #[trigger] job@.region_tasks(region as int)[k]),
        decreases tasks@.len() - i,
    {
        let task = tasks[i];
        assert(task == job@.region_tasks(region as int)[i as int]);
        match job.latest_state(task.stage, task.partition) {
            Some(TaskState::Succeeded) => {},
            _ => {
                assert(!has_succeeded(job@, job@.region_tasks(region as int)[i as int]));
                return false;
            },
        }
        i = i + 1;
    }
    true
}

/// Whether no other region has a task of a stage.
fn check_own_stage(job: &JobDescriptor, region: usize, stage: usize) -> (r: bool)
    requires
        job@.linked(),
    ensures
        r == is_own_stage(job@, region as int, stage as int),
{
    let mut q: usize = 0;
    while q < job.topology.regions.len()
        invariant
            q <= job.topology.regions@.len(),
            job@.regions.len() == job.topology.regions@.len(),
            job@.linked(),
            forall|r: int|
                0 <= r < q && r != region ==> !#[trigger] has_stage(job@, r, stage as int),
        decreases job.topology.regions@.len() - q,
    {
        let tasks = &job.topology.regions[q].tasks;
        assert(tasks@ == job@.region_tasks(q as int));
        let mut i: usize = 0;
        while i < tasks.len() && q != region
            invariant
                i <= tasks@.len(),
                q < job@.regions.len(),
                tasks@ == job@.region_tasks(q as int),
                forall|k: int|
                    0 <= k < i ==> (#[trigger] job@.region_tasks(q as int)[k]).stage != stage,
            decreases tasks@.len() - i,
        {
            if tasks[i].stage == stage {
                assert(job@.region_tasks(q as int)[i as int].stage == stage);
                assert(has_stage(job@, q as int, stage as int));
                return false;
            }
            i = i + 1;
        }
        q = q + 1;
    }
    true
}

/// Whether a region has a live task of a stage of its own.
fn check_own_live(job: &JobDescriptor, region: usize) -> (r: bool)
    requires
        job@.linked(),
        region < job@.regions.len(),
    ensures
        r == has_own_live(job@, region as int),
{
    let tasks = &job.topology.regions[region].tasks;
    assert(tasks@ == job@.region_tasks(region as int));
    let mut i: usize = 0;
    while i < tasks.len()
        invariant
            i <= tasks@.len(),
            job@.linked(),
            tasks@ == job@.region_tasks(region as int),
            forall|k: int|
                0 <= k < i && is_live(job@, #[trigger] job@.region_tasks(region as int)[k])
                    ==> !is_own_stage(
                    job@,
                    region as int,
                    job@.region_tasks(region as int)[k].stage as int,
                ),
        decreases tasks@.len() - i,
    {
        let task = tasks[i];
        assert(task == job@.region_tasks(region as int)[i as int]);
        if let Some(state) = job.latest_state(task.stage, task.partition) {
            if !state.is_terminal() && check_own_stage(job, region, task.stage) {
                assert(is_live(job@, job@.region_tasks(region as int)[i as int]));
                return true;
            }
        }
        i = i + 1;
    }
    false
}

/// Whether a region may be scheduled by the next refresh.
fn check_start(job: &JobDescriptor, region: usize) -> (r: bool)
    requires
        job@.linked(),
        region < job@.regions.len(),
    ensures
        r == may_start(job@, region as int),
{
    if check_done(job, region) {
        return false;
    }
    if !JobScheduler::has_region_failure(job, region) && check_own_live(job, region) {
        return false;
    }
    let dependencies = &job.topology.regions[region].dependencies;
    assert(dependencies@ == job@.topology.regions[region as int].dependencies);
    let mut i: usize = 0;
    while i < dependencies.len()
        invariant
            i <= dependencies@.len(),
            job@.linked(),
            region < job@.regions.len(),
            dependencies@ == job@.topology.regions[region as int].dependencies,
            forall|k: int|
                0 <= k < i ==> is_done(
                    job@,
                    (#[trigger] job@.topology.regions[region as int].dependencies[k]) as int,
                ),
        decreases dependencies@.len() - i,
    {
        assert(job@.topology.regions[region as int].dependencies[i as int] < job@.regions.len());
        if !check_done(job, dependencies[i]) {
            return false;
        }
        i = i + 1;
    }
    true
}

/// Tells for each stage whether it has a task in a region that may be scheduled by the next refresh.
fn find_readers(job: &JobDescriptor) -> (r: Vec<bool>)
    requires
        job@.linked(),
    ensures
        r@.len() == job@.stages.len(),
        forall|s: int| 0 <= s < r@.len() ==> #[trigger] r@[s] == may_read(job@, s),
{
    let mut readers: Vec<bool> = Vec::new();
    while readers.len() < job.stages.len()
        invariant
            readers@.len() <= job.stages@.len(),
            forall|s: int| 0 <= s < readers@.len() ==> !#[trigger] readers@[s],
        decreases job.stages@.len() - readers@.len(),
    {
        readers.push(false);
    }
    let mut q: usize = 0;
    while q < job.topology.regions.len()
        invariant
            q <= job.topology.regions@.len(),
            job@.linked(),
            job@.regions.len() == job.topology.regions@.len(),
            readers@.len() == job@.stages.len(),
            forall|s: int|
                0 <= s < readers@.len() ==> (#[trigger] readers@[s] <==> exists|r: int|
                    0 <= r < q && #[trigger] has_stage(job@, r, s) && may_start(job@, r)),
        decreases job.topology.regions@.len() - q,
    {
        let ghost before = readers@;
        if check_start(job, q) {
            let tasks = &job.topology.regions[q].tasks;
            assert(tasks@ == job@.region_tasks(q as int));
            let mut i: usize = 0;
            while i < tasks.len()
                invariant
                    i <= tasks@.len(),
                    q < job@.regions.len(),
                    job@.linked(),
                    tasks@ == job@.region_tasks(q as int),
                    before.len() == job@.stages.len(),
                    readers@.len() == before.len(),
                    forall|s: int|
                        0 <= s < readers@.len() ==> (#[trigger] readers@[s] <==> before[s]
                            || exists|k: int|
                            0 <= k < i && (#[trigger] job@.region_tasks(q as int)[k]).stage == s),
                decreases tasks@.len() - i,
            {
                let stage: usize = tasks[i].stage;
                let ghost earlier = readers@;
                assert(job@.region_tasks(q as int)[i as int] == tasks@[i as int]);
                assert(job@.region_tasks(q as int)[i as int].stage < job@.stages.len());
                readers.set(stage, true);
                i = i + 1;
                proof {
                    assert forall|s: int| 0 <= s < readers@.len() implies (#[trigger] readers@[s]
                        <==> before[s] || exists|k: int|
                        0 <= k < i && (#[trigger] job@.region_tasks(q as int)[k]).stage == s) by {
                        if s == stage {
                            assert(job@.region_tasks(q as int)[i - 1].stage == s);
                        } else {
                            assert(readers@[s] == earlier[s]);
                        }
                    }
                }
            }
            assert forall|s: int| 0 <= s < readers@.len() implies #[trigger] readers@[s] == (
            before[s] || has_stage(job@, q as int, s)) by {}
        }
        q = q + 1;
        proof {
            assert forall|s: int| 0 <= s < readers@.len() implies (#[trigger] readers@[s]
                <==> exists|r: int|
                0 <= r < q && #[trigger] has_stage(job@, r, s) && may_start(job@, r)) by {
                if before[s] {
                    let r = choose|r: int|
                        0 <= r < q - 1 && #[trigger] has_stage(job@, r, s) && may_start(job@, r);
                    assert(has_stage(job@, r, s));
                }
                if readers@[s] && !before[s] {
                    assert(has_stage(job@, q - 1, s));
                }
                if exists|r: int|
                    0 <= r < q && #[trigger] has_stage(job@, r, s) && may_start(job@, r) {
                    let r = choose|r: int|
                        0 <= r < q && #[trigger] has_stage(job@, r, s) && may_start(job@, r);
                    if r < q - 1 {
                        assert(before[s]);
                    }
                }
            }
        }
    }
    readers
}

/// Lists the changes of the plans of a job.
fn list_changes(target: u64, data: &Measurements, job_id: JobId, job: &JobDescriptor) -> (r: Vec<
    PlanChange,
>)
    requires
        job@.linked(),
    ensures
        r@ == job_changes(target, data, job_id, job@, job@.stages.len()),
{
    let readers = find_readers(job);
    let mut r: Vec<PlanChange> = Vec::new();
    let mut s: usize = 0;
    while s < job.stages.len()
        invariant
            s <= job.stages@.len(),
            job@.linked(),
            readers@.len() == job@.stages.len(),
            forall|a: int| 0 <= a < readers@.len() ==> #[trigger] readers@[a] == may_read(job@, a),
            r@ == job_changes(target, data, job_id, job@, s as nat),
        decreases job.stages@.len() - s,
    {
        let ghost before = r@;
        let reads = readers[s];
        let n: usize = if reads {
            job.graph.stages[s].inputs.len()
        } else {
            0
        };
        let mut k: usize = 0;
        assert(before + stage_changes(target, data, job_id, job@, s as int, 0) =~= before);
        while k < n
            invariant
                k <= n,
                s < job@.stages.len(),
                job@.linked(),
                n <= job@.graph.stages[s as int].inputs.len(),
                r@ == before + stage_changes(target, data, job_id, job@, s as int, k as nat),
            decreases n - k,
        {
            assert(job@.graph.stages[s as int].inputs[k as int].stage < job@.stages.len());
            let ghost earlier = stage_changes(target, data, job_id, job@, s as int, k as nat);
            if let Some(ranges) = choose_ranges(target, data, job_id, job, s, k) {
                let change = PlanChange { stage: s, input: k, groups: ranges.len() };
                r.push(change);
                assert(r@ =~= before + earlier.push(change));
            }
            k = k + 1;
        }
        s = s + 1;
    }
    r
}

/// Whether some stage that may be scheduled by the next refresh may read a stage in groups of
/// channels that are still to be determined.
fn needs_measure(job: &JobDescriptor, readers: &Vec<bool>, stage: usize) -> (r: bool)
    requires
        job@.linked(),
        readers@.len() == job@.stages.len(),
        forall|s: int| 0 <= s < readers@.len() ==> #[trigger] readers@[s] == may_read(job@, s),
    ensures
        r == is_measured(job@, stage as int),
{
    let mut s: usize = 0;
    while s < job.graph.stages.len()
        invariant
            s <= job.graph.stages@.len(),
            job@.linked(),
            readers@.len() == job@.stages.len(),
            forall|a: int| 0 <= a < readers@.len() ==> #[trigger] readers@[a] == may_read(job@, a),
            forall|a: int, b: int|
                0 <= a < s && 0 <= b < job@.graph.stages[a].inputs.len()
                    && #[trigger] job@.adaptable_input(a, b) && may_read(job@, a)
                    ==> job@.graph.stages[a].inputs[b].stage != stage,
        decreases job.graph.stages@.len() - s,
    {
        let inputs = &job.graph.stages[s].inputs;
        let reads = readers[s];
        assert(job@.graph.stages[s as int] == job.graph.stages@[s as int]@);
        let mut i: usize = 0;
        while i < inputs.len()
            invariant
                i <= inputs@.len(),
                s < job.graph.stages@.len(),
                job@.linked(),
                inputs@.len() == job@.graph.stages[s as int].inputs.len(),
                forall|b: int|
                    0 <= b < inputs@.len() ==> job@.graph.stages[s as int].inputs[b]
                        == #[trigger] inputs@[b]@,
                reads == may_read(job@, s as int),
                forall|a: int, b: int|
                    0 <= a < s && 0 <= b < job@.graph.stages[a].inputs.len()
                        && #[trigger] job@.adaptable_input(a, b) && may_read(job@, a)
                        ==> job@.graph.stages[a].inputs[b].stage != stage,
                forall|b: int|
                    0 <= b < i && #[trigger] job@.adaptable_input(s as int, b) && reads
                        ==> job@.graph.stages[s as int].inputs[b].stage != stage,
            decreases inputs@.len() - i,
        {
            let input = &inputs[i];
            assert(job@.graph.stages[s as int].inputs[i as int] == input@);
            assert(job@.graph.stages[s as int].inputs[i as int].stage < job@.stages.len());
            let shuffled = match input.mode {
                InputMode::Shuffle => true,
                _ => false,
            };
            let on_disk = match job.graph.stages[input.stage].mode {
                OutputMode::Blocking => true,
                _ => false,
            };
            if reads && shuffled && on_disk && input.partition_ranges.is_none() && input.stage
                == stage {
                assert(job@.adaptable_input(s as int, i as int));
                return true;
            }
            i = i + 1;
        }
        s = s + 1;
    }
    false
}

impl JobScheduler {
    /// Lists the index files that a refresh of a job needs.
    pub fn list_stage_reads(job: &JobDescriptor) -> (r: Vec<ShuffleRead>)
        requires
            job@.linked(),
        ensures
            r@.map_values(|s: ShuffleRead| s@) == stage_reads(job@, job@.stages.len()),
    {
        let readers = find_readers(job);
        let mut r: Vec<ShuffleRead> = Vec::new();
        let mut u: usize = 0;
        assert(r@.map_values(|s: ShuffleRead| s@) =~= stage_reads(job@, 0));
        while u < job.stages.len()
            invariant
                u <= job.stages@.len(),
                job@.linked(),
                readers@.len() == job@.stages.len(),
                forall|s: int|
                    0 <= s < readers@.len() ==> #[trigger] readers@[s] == may_read(job@, s),
                r@.map_values(|s: ShuffleRead| s@) == stage_reads(job@, u as nat),
            decreases job.stages@.len() - u,
        {
            if needs_measure(job, &readers, u) {
                let ghost before = r@;
                let read = ShuffleRead {
                    stage: u,
                    channels: job.graph.stages[u].distribution.channels(),
                    attempts: list_latest_attempts(job, u),
                };
                r.push(read);
                assert(r@.map_values(|s: ShuffleRead| s@) =~= before.map_values(
                    |s: ShuffleRead| s@,
                ).push(read@));
                assert(read@ == stage_read(job@, u as int));
            }
            u = u + 1;
        }
        r
    }

    /// Lists the changes of plans that the next refresh of a job may make, given the sizes in its index
    /// files, by stage and input. What the query engine makes of a plan with all the changes up to one
    /// of them is to be found out before the job is refreshed.
    pub fn plan_changes(&self, job_id: JobId, data: &Measurements) -> (r: Vec<PlanChange>)
        requires
            self.valid(),
        ensures
            r@ == needed_changes(self@, data, job_id),
    {
        proof {
            self.lemma_valid();
        }
        if self.options().adaptive_enabled() {
            if let Some(job) = self.job(job_id) {
                if let JobState::Running { .. } = job.state {
                    let target: u64 = self.options().target_partition_size();
                    return list_changes(target, data, job_id, job);
                }
            }
        }
        Vec::new()
    }

    /// Lists the index files that the next refresh of a job needs. Without adaptive reading, and for
    /// a job that does not exist or is not running, there are none.
    pub fn shuffle_reads(&self, job_id: JobId) -> (r: Vec<ShuffleRead>)
        requires
            self.valid(),
        ensures
            r@.map_values(|s: ShuffleRead| s@) == needed_reads(self@, job_id),
    {
        proof {
            self.lemma_valid();
        }
        if self.options().adaptive_enabled() {
            if let Some(job) = self.job(job_id) {
                if let JobState::Running { .. } = job.state {
                    return Self::list_stage_reads(job);
                }
            }
        }
        let none: Vec<ShuffleRead> = Vec::new();
        assert(none@.map_values(|s: ShuffleRead| s@) =~= Seq::empty());
        none
    }
}

}

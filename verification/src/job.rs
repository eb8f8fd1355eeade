//! Creating jobs.

use crate::clock::Timestamp;
use crate::error::{malformed_job, malformed_job_text, ErrorView, ExecutionResult};
use crate::job_graph::{JobGraph, JobGraphView};
use crate::state::{
    new_tasks, AttemptView, JobDescriptor, JobState, JobView, StageDescriptor, StageDescriptorView,
    StageState, TaskRegionDescriptor, TaskRegionState,
};
use crate::topology::{JobTopology, JobTopologyView};
use vstd::prelude::*;

verus! {

/// A stage none of whose tasks has been attempted.
pub open spec fn new_stage(partitions: nat, now: Timestamp) -> StageDescriptorView {
    StageDescriptorView {
        state: StageState::Active,
        tasks: Seq::new(partitions, |p: int| Seq::<AttemptView>::empty()),
        created_at: now,
        stopped_at: None,
    }
}

/// A job that has just been created.
pub open spec fn new_job(
    graph: JobGraphView,
    topology: JobTopologyView,
    state: JobState,
    now: Timestamp,
) -> JobView {
    JobView {
        graph,
        topology,
        stages: Seq::new(
            graph.stages.len(),
            |s: int| new_stage(graph.stages[s].plan.partitions as nat, now),
        ),
        regions: Seq::new(topology.regions.len(), |r: int| TaskRegionState::Pending),
        state,
        created_at: now,
        stopped_at: None,
    }
}

/// Stages none of whose tasks has been attempted.
fn new_stages(graph: &JobGraph, now: Timestamp) -> (r: Vec<StageDescriptor>)
    ensures
        r@.map_values(|s: StageDescriptor| s@) == Seq::new(
            graph@.stages.len(),
            |s: int| new_stage(graph@.stages[s].plan.partitions as nat, now),
        ),
{
    let ghost expected = Seq::new(
        graph@.stages.len(),
        |s: int| new_stage(graph@.stages[s].plan.partitions as nat, now),
    );
    let mut r: Vec<StageDescriptor> = Vec::new();
    let mut s: usize = 0;
    while s < graph.stages.len()
        invariant
            s <= graph.stages@.len(),
            expected == Seq::new(
                graph@.stages.len(),
                |s: int| new_stage(graph@.stages[s].plan.partitions as nat, now),
            ),
            r@.len() == s,
            forall|k: int| 0 <= k < s ==> (#[trigger] r@[k])@ == expected[k],
        decreases graph.stages@.len() - s,
    {
        let stage = StageDescriptor {
            state: StageState::Active,
            tasks: new_tasks(graph.stages[s].plan.partitions),
            created_at: now,
            stopped_at: None,
        };
        assert(stage@ =~= expected[s as int]);
        r.push(stage);
        s = s + 1;
    }
    assert(r@.map_values(|s: StageDescriptor| s@) =~= expected);
    r
}

/// Regions of which nothing is known yet.
fn new_regions(n: usize) -> (r: Vec<TaskRegionDescriptor>)
    ensures
        r@.map_values(|r: TaskRegionDescriptor| r.state) == Seq::new(
            n as nat,
            |r: int| TaskRegionState::Pending,
        ),
{
    let mut r: Vec<TaskRegionDescriptor> = Vec::new();
    let mut i: usize = 0;
    while i < n
        invariant
            i <= n,
            r@.len() == i,
            forall|k: int| 0 <= k < i ==> (#[trigger] r@[k]).state is Pending,
        decreases n - i,
    {
        r.push(TaskRegionDescriptor { state: TaskRegionState::Pending });
        i = i + 1;
    }
    assert(r@.map_values(|r: TaskRegionDescriptor| r.state) =~= Seq::new(
        n as nat,
        |r: int| TaskRegionState::Pending,
    ));
    r
}

/// Whether all indices of a list are below a bound.
fn all_below(list: &Vec<usize>, bound: usize) -> (r: bool)
    ensures
        r == forall|i: int| 0 <= i < list@.len() ==> #[trigger] list@[i] < bound,
{
    let mut i: usize = 0;
    while i < list.len()
        invariant
            i <= list@.len(),
            forall|k: int| 0 <= k < i ==> #[trigger] list@[k] < bound,
        decreases list@.len() - i,
    {
        if list[i] >= bound {
            return false;
        }
        i = i + 1;
    }
    true
}

impl JobDescriptor {
    /// Whether all stages that are read exist.
    fn check_inputs(&self) -> (r: bool)
        ensures
            r == forall|s: int, i: int|
                0 <= s < self@.graph.stages.len() && 0 <= i < self@.graph.stages[s].inputs.len()
                    ==> (#[trigger] self@.graph.stages[s].inputs[i]).stage < self@.stages.len(),
    {
        let n: usize = self.stages.len();
        let mut s: usize = 0;
        while s < self.graph.stages.len()
            invariant
                s <= self.graph.stages@.len(),
                n == self@.stages.len(),
                forall|a: int, b: int|
                    0 <= a < s && 0 <= b < self@.graph.stages[a].inputs.len() ==> (
                    #[trigger] self@.graph.stages[a].inputs[b]).stage < self@.stages.len(),
            decreases self.graph.stages@.len() - s,
        {
            let inputs = &self.graph.stages[s].inputs;
            assert(self@.graph.stages[s as int] == self.graph.stages@[s as int]@);
            let mut i: usize = 0;
            while i < inputs.len()
                invariant
                    i <= inputs@.len(),
                    s < self.graph.stages@.len(),
                    n == self@.stages.len(),
                    inputs@.len() == self@.graph.stages[s as int].inputs.len(),
                    forall|b: int|
                        0 <= b < inputs@.len() ==> self@.graph.stages[s as int].inputs[b]
                            == #[trigger] inputs@[b]@,
                    forall|a: int, b: int|
                        0 <= a < s && 0 <= b < self@.graph.stages[a].inputs.len() ==> (
                        #[trigger] self@.graph.stages[a].inputs[b]).stage < self@.stages.len(),
                    forall|b: int|
                        0 <= b < i ==> (#[trigger] self@.graph.stages[s as int].inputs[b]).stage
                            < self@.stages.len(),
                decreases inputs@.len() - i,
            {
                assert(self@.graph.stages[s as int].inputs[i as int] == inputs@[i as int]@);
                if inputs[i].stage >= n {
                    assert(self@.graph.stages[s as int].inputs[i as int].stage
                        >= self@.stages.len());
                    return false;
                }
                i = i + 1;
            }
            s = s + 1;
        }
        true
    }

    /// Whether all consumers exist.
    fn check_consumers(&self) -> (r: bool)
        ensures
            r == forall|s: int, i: int|
                0 <= s < self@.topology.consumers.len() && 0 <= i
                    < self@.topology.consumers[s].len()
                    ==> #[trigger] self@.topology.consumers[s][i] < self@.stages.len(),
    {
        let mut s: usize = 0;
        while s < self.topology.stages.len()
            invariant
                s <= self.topology.stages@.len(),
                forall|a: int, b: int|
                    0 <= a < s && 0 <= b < self@.topology.consumers[a].len()
                        ==> #[trigger] self@.topology.consumers[a][b] < self@.stages.len(),
            decreases self.topology.stages@.len() - s,
        {
            let consumers = &self.topology.stages[s].consumers;
            assert(self@.topology.consumers[s as int] == consumers@);
            if !all_below(consumers, self.stages.len()) {
                assert(exists|b: int|
                    0 <= b < consumers@.len() && self@.topology.consumers[s as int][b]
                        >= self@.stages.len());
                return false;
            }
            s = s + 1;
        }
        true
    }

    /// Whether all dependencies exist.
    fn check_dependencies(&self) -> (r: bool)
        requires
            self@.topology.regions.len() == self@.regions.len(),
        ensures
            r == forall|s: int, i: int|
                0 <= s < self@.regions.len() && 0 <= i
                    < self@.topology.regions[s].dependencies.len()
                    ==> #[trigger] self@.topology.regions[s].dependencies[i] < self@.regions.len(),
    {
        let mut s: usize = 0;
        while s < self.topology.regions.len()
            invariant
                s <= self.topology.regions@.len(),
                self@.topology.regions.len() == self@.regions.len(),
                forall|a: int, b: int|
                    0 <= a < s && 0 <= b < self@.topology.regions[a].dependencies.len()
                        ==> #[trigger] self@.topology.regions[a].dependencies[b]
                        < self@.regions.len(),
            decreases self.topology.regions@.len() - s,
        {
            let dependencies = &self.topology.regions[s].dependencies;
            assert(self@.topology.regions[s as int].dependencies == dependencies@);
            if !all_below(dependencies, self.regions.len()) {
                assert(exists|b: int|
                    0 <= b < dependencies@.len() && self@.topology.regions[s as int].dependencies[b]
                        >= self@.regions.len());
                return false;
            }
            s = s + 1;
        }
        true
    }

    /// Whether all tasks of the regions exist.
    fn check_tasks(&self) -> (r: bool)
        requires
            self@.topology.regions.len() == self@.regions.len(),
        ensures
            r == forall|r: int, i: int|
                0 <= r < self@.regions.len() && 0 <= i < self@.region_tasks(r).len()
                    ==> self@.has_task(
                    (#[trigger] self@.region_tasks(r)[i]).stage as int,
                    self@.region_tasks(r)[i].partition as int,
                ),
    {
        let mut r: usize = 0;
        while r < self.topology.regions.len()
            invariant
                r <= self.topology.regions@.len(),
                self@.topology.regions.len() == self@.regions.len(),
                forall|a: int, b: int|
                    0 <= a < r && 0 <= b < self@.region_tasks(a).len() ==> self@.has_task(
                        (#[trigger] self@.region_tasks(a)[b]).stage as int,
                        self@.region_tasks(a)[b].partition as int,
                    ),
            decreases self.topology.regions@.len() - r,
        {
            let tasks = &self.topology.regions[r].tasks;
            assert(self@.region_tasks(r as int) == tasks@);
            let mut i: usize = 0;
            while i < tasks.len()
                invariant
                    i <= tasks@.len(),
                    r < self.topology.regions@.len(),
                    self@.topology.regions.len() == self@.regions.len(),
                    self@.region_tasks(r as int) == tasks@,
                    forall|a: int, b: int|
                        0 <= a < r && 0 <= b < self@.region_tasks(a).len() ==> self@.has_task(
                            (#[trigger] self@.region_tasks(a)[b]).stage as int,
                            self@.region_tasks(a)[b].partition as int,
                        ),
                    forall|b: int|
                        0 <= b < i ==> self@.has_task(
                            (#[trigger] self@.region_tasks(r as int)[b]).stage as int,
                            self@.region_tasks(r as int)[b].partition as int,
                        ),
                decreases tasks@.len() - i,
            {
                let task = tasks[i];
                assert(self@.region_tasks(r as int)[i as int] == task);
                if task.stage >= self.stages.len() || task.partition
                    >= self.stages[task.stage].tasks.len() {
                    assert(!self@.has_task(task.stage as int, task.partition as int));
                    return false;
                }
                i = i + 1;
            }
            r = r + 1;
        }
        true
    }

    /// A job that has just been created, or an error if its graph and its topology do not fit
    /// together.
    pub fn try_new(graph: JobGraph, topology: JobTopology, state: JobState, now: Timestamp) -> (r: ExecutionResult<
        JobDescriptor,
    >)
        ensures
            ({
                let expected = new_job(graph@, topology@, state, now);
                match r {
                    Ok(job) => job@ == expected && expected.well_formed(),
                    Err(e) => e@ == ErrorView::Internal(malformed_job_text())
                        && !expected.well_formed(),
                }
            }),
    {
        let stages = new_stages(&graph, now);
        let regions = new_regions(topology.regions.len());
        let fits = topology.stages.len() == graph.stages.len();
        let job = JobDescriptor {
            graph,
            topology,
            stages,
            regions,
            state,
            created_at: now,
            stopped_at: None,
        };
        assert(job@ == new_job(graph@, topology@, state, now));
        if fits && job.check_inputs() && job.check_consumers() && job.check_dependencies()
            && job.check_tasks() {
            Ok(job)
        } else {
            Err(malformed_job())
        }
    }
}

}

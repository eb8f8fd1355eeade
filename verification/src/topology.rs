//! Which stages consume which, and which tasks are scheduled together.

use vstd::prelude::*;

verus! {

/// The task that runs one partition of a stage.
#[derive(Debug, Clone, Copy, PartialEq, Eq, Structural)]
pub struct TaskTopology {
    pub stage: usize,
    pub partition: usize,
}

/// The stages that consume the output of a stage.
#[derive(Debug)]
pub struct StageTopology {
    pub consumers: Vec<usize>,
}

/// Tasks that are scheduled together, and the regions that have to succeed before.
#[derive(Debug)]
pub struct TaskRegionTopology {
    pub tasks: Vec<TaskTopology>,
    pub dependencies: Vec<usize>,
}

/// A region as a mathematical value.
#[verifier::ext_equal]
pub struct RegionTopologyView {
    pub tasks: Seq<TaskTopology>,
    pub dependencies: Seq<usize>,
}

impl View for TaskRegionTopology {
    type V = RegionTopologyView;

    open spec fn view(&self) -> RegionTopologyView {
        RegionTopologyView { tasks: self.tasks@, dependencies: self.dependencies@ }
    }
}

/// The connections of a job.
#[derive(Debug)]
pub struct JobTopology {
    pub stages: Vec<StageTopology>,
    pub regions: Vec<TaskRegionTopology>,
}

/// The connections of a job as a mathematical value.
#[verifier::ext_equal]
pub struct JobTopologyView {
    /// The consumers of every stage.
    pub consumers: Seq<Seq<usize>>,
    pub regions: Seq<RegionTopologyView>,
}

impl View for JobTopology {
    type V = JobTopologyView;

    open spec fn view(&self) -> JobTopologyView {
        JobTopologyView {
            consumers: self.stages@.map_values(|s: StageTopology| s.consumers@),
            regions: self.regions@.map_values(|r: TaskRegionTopology| r@),
        }
    }
}

impl JobTopology {
    /// Replaces the tasks of a region.
    pub fn update_region_tasks(&mut self, region: usize, tasks: Vec<TaskTopology>)
        requires
            region < old(self)@.regions.len(),
        ensures
            final(self)@ == (JobTopologyView {
                regions: old(self)@.regions.update(
                    region as int,
                    RegionTopologyView { tasks: tasks@, ..old(self)@.regions[region as int] },
                ),
                ..old(self)@
            }),
    {
        let ghost before = self@;
        self.regions[region].tasks = tasks;
        assert(self@.regions =~= before.regions.update(
            region as int,
            RegionTopologyView { tasks: tasks@, ..before.regions[region as int] },
        ));
        assert(self@.consumers =~= before.consumers);
    }
}

}

//! What has to be found out about a job from outside before it is refreshed.

use crate::id::JobId;
use crate::shuffle_index::ShuffleIndex;
use vstd::prelude::*;

verus! {

/// What the query engine makes of the plan of a stage if the plan is to read one of its inputs in a
/// number of groups: the number of output partitions that the plan then has.
#[derive(Debug, Clone, Copy, PartialEq, Eq, Structural)]
pub struct RewrittenPlan {
    pub stage: usize,
    pub input: usize,
    pub groups: usize,
    pub partitions: usize,
}

/// The number of output partitions in the first entry for a change of a plan.
pub open spec fn find_plan(plans: Seq<RewrittenPlan>, stage: int, input: int, groups: int) -> Option<
    usize,
>
    decreases plans.len(),
{
    if plans.len() == 0 {
        None
    } else if plans[0].stage == stage && plans[0].input == input && plans[0].groups == groups {
        Some(plans[0].partitions)
    } else {
        find_plan(plans.skip(1), stage, input, groups)
    }
}

/// The sizes of the shuffled data of a job, as its index files give them, and the plans of its stages
/// with other numbers of input partitions. A change of a plan that is not there cannot be made.
pub struct Measurements {
    pub index: ShuffleIndex,
    pub plans: Vec<RewrittenPlan>,
}

impl Measurements {
    /// What is known of a job without looking.
    pub fn empty(job_id: JobId) -> (r: Self)
        ensures
            r.index.job() == job_id,
            forall|stage: usize| (#[trigger] r.index.stage_files(stage)).len() == 0,
            r.plans@.len() == 0,
    {
        Measurements { index: ShuffleIndex::empty(job_id), plans: Vec::new() }
    }

    /// The number of output partitions of the plan of a stage that reads an input in a number of
    /// groups, if the plan can be changed that way.
    pub open spec fn spec_rewritten(&self, stage: int, input: int, groups: int) -> Option<usize> {
        find_plan(self.plans@, stage, input, groups)
    }

    /// The number of output partitions of the plan of a stage that reads an input in a number of
    /// groups, if the plan can be changed that way.
    pub fn rewritten(&self, stage: usize, input: usize, groups: usize) -> (r: Option<usize>)
        ensures
            r == self.spec_rewritten(stage as int, input as int, groups as int),
    {
        let mut i: usize = 0;
        assert(self.plans@.skip(0) =~= self.plans@);
        while i < self.plans.len()
            invariant
                i <= self.plans@.len(),
                find_plan(
                    self.plans@.skip(i as int),
                    stage as int,
                    input as int,
                    groups as int,
                ) == self.spec_rewritten(stage as int, input as int, groups as int),
            decreases self.plans@.len() - i,
        {
            let plan = self.plans[i];
            assert(self.plans@.skip(i as int)[0] == plan);
            assert(self.plans@.skip(i as int).skip(1) =~= self.plans@.skip(i + 1));
            if plan.stage == stage && plan.input == input && plan.groups == groups {
                return Some(plan.partitions);
            }
            i = i + 1;
        }
        None
    }
}

}

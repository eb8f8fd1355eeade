//! What the driver has to do for a job.

use crate::id::{JobId, TaskKey, TaskStreamKey};
use crate::job_graph::SchemaHandle;
use crate::state::{CauseView, ErrorCause, JobOutputHandle};
use crate::task::{RegionView, TaskRegion};
use vstd::prelude::*;

verus! {

/// Something that the driver has to do for a job.
#[derive(Debug)]
#[allow(inconsistent_fields)]
pub enum JobAction {
    /// Schedule the tasks of a region.
    ScheduleTaskRegion { region: TaskRegion },
    /// Cancel a task attempt.
    CancelTask { key: TaskKey },
    /// Add an output channel of a task attempt to the job output.
    ExtendJobOutput { handle: JobOutputHandle, key: TaskStreamKey, schema: SchemaHandle },
    /// Report a failure to the reader of the job output.
    FailJobOutput { handle: JobOutputHandle, cause: ErrorCause },
    /// Remove the output streams of a stage, or of all stages.
    CleanUpJob { job_id: JobId, stage: Option<usize> },
}

/// An action as a mathematical value.
#[verifier::ext_equal]
#[allow(inconsistent_fields)]
pub enum ActionView {
    ScheduleTaskRegion { region: RegionView },
    CancelTask { key: TaskKey },
    ExtendJobOutput { handle: JobOutputHandle, key: TaskStreamKey, schema: SchemaHandle },
    FailJobOutput { handle: JobOutputHandle, cause: CauseView },
    CleanUpJob { job_id: JobId, stage: Option<usize> },
}

impl View for JobAction {
    type V = ActionView;

    open spec fn view(&self) -> ActionView {
        match *self {
            JobAction::ScheduleTaskRegion { region } => ActionView::ScheduleTaskRegion {
                region: region@,
            },
            JobAction::CancelTask { key } => ActionView::CancelTask { key },
            JobAction::ExtendJobOutput { handle, key, schema } => ActionView::ExtendJobOutput {
                handle,
                key,
                schema,
            },
            JobAction::FailJobOutput { handle, cause } => ActionView::FailJobOutput {
                handle,
                cause: cause@,
            },
            JobAction::CleanUpJob { job_id, stage } => ActionView::CleanUpJob { job_id, stage },
        }
    }
}

/// The actions of a list as mathematical values.
pub open spec fn views(actions: Seq<JobAction>) -> Seq<ActionView> {
    actions.map_values(|a: JobAction| a@)
}

/// Adding an action to a list adds its view.
pub proof fn lemma_views_push(actions: Seq<JobAction>, action: JobAction)
    ensures
        views(actions.push(action)) == views(actions).push(action@),
{
    assert(views(actions.push(action)) =~= views(actions).push(action@));
}

/// Adds the actions of one list to another.
pub fn extend_actions(actions: &mut Vec<JobAction>, more: Vec<JobAction>)
    ensures
        views(final(actions)@) == views(old(actions)@) + views(more@),
{
    let mut more = more;
    actions.append(&mut more);
}

}

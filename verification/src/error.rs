//! Errors of the execution layer.

use crate::id::JobId;
use crate::text::{decimal, push_decimal};
use vstd::prelude::*;
use vstd::string::*;

verus! {

/// An error of the execution layer.
#[derive(Debug)]
pub enum ExecutionError {
    /// The caller asked for something that does not exist.
    InvalidArgument(String),
    /// The execution layer is in a state that it should not be in.
    InternalError(String),
    /// The query engine could not encode a plan or an expression.
    DataFusionError(String),
    /// A file could not be created, opened or written.
    IoError(String),
}

pub type ExecutionResult<T> = Result<T, ExecutionError>;

/// The kind and the text of an error.
pub enum ErrorView {
    Invalid(Seq<char>),
    Internal(Seq<char>),
    DataFusion(Seq<char>),
    Io(Seq<char>),
}

impl View for ExecutionError {
    type V = ErrorView;

    open spec fn view(&self) -> ErrorView {
        match self {
            ExecutionError::InvalidArgument(m) => ErrorView::Invalid(m@),
            ExecutionError::InternalError(m) => ErrorView::Internal(m@),
            ExecutionError::DataFusionError(m) => ErrorView::DataFusion(m@),
            ExecutionError::IoError(m) => ErrorView::Io(m@),
        }
    }
}

/// The text of [`job_not_found`].
pub open spec fn job_not_found_text(job_id: JobId) -> Seq<char> {
    "job "@ + decimal(job_id.value as nat) + " not found"@
}

/// A job that the scheduler does not know.
pub(crate) fn job_not_found(job_id: JobId) -> (r: ExecutionError)
    ensures
        r@ == ErrorView::Invalid(job_not_found_text(job_id)),
{
    let mut text = String::from_str("job ");
    push_decimal(&mut text, job_id.value);
    text.append(" not found");
    ExecutionError::InvalidArgument(text)
}

/// The text of [`job_not_running`].
pub open spec fn job_not_running_text(job_id: JobId) -> Seq<char> {
    "job "@ + decimal(job_id.value as nat) + " is not running"@
}

/// A job that is not running.
pub(crate) fn job_not_running(job_id: JobId) -> (r: ExecutionError)
    ensures
        r@ == ErrorView::Invalid(job_not_running_text(job_id)),
{
    let mut text = String::from_str("job ");
    push_decimal(&mut text, job_id.value);
    text.append(" is not running");
    ExecutionError::InvalidArgument(text)
}

/// The text of [`stage_not_found`].
pub open spec fn stage_not_found_text(stage: usize, job_id: JobId) -> Seq<char> {
    "stage "@ + decimal(stage as nat) + " not found in job "@ + decimal(job_id.value as nat)
}

/// A stage that the job does not have.
pub(crate) fn stage_not_found(stage: usize, job_id: JobId) -> (r: ExecutionError)
    ensures
        r@ == ErrorView::Invalid(stage_not_found_text(stage, job_id)),
{
    let mut text = String::from_str("stage ");
    push_decimal(&mut text, stage as u64);
    text.append(" not found in job ");
    push_decimal(&mut text, job_id.value);
    ExecutionError::InvalidArgument(text)
}

/// The text of [`no_task_attempt`].
pub open spec fn no_task_attempt_text(job_id: JobId, stage: usize, partition: usize) -> Seq<char> {
    "no latest task attempt found for job "@ + decimal(job_id.value as nat) + " stage "@ + decimal(
        stage as nat,
    ) + " partition "@ + decimal(partition as nat)
}

/// A task that has not been attempted yet.
pub(crate) fn no_task_attempt(job_id: JobId, stage: usize, partition: usize) -> (r: ExecutionError)
    ensures
        r@ == ErrorView::Invalid(no_task_attempt_text(job_id, stage, partition)),
{
    let mut text = String::from_str("no latest task attempt found for job ");
    push_decimal(&mut text, job_id.value);
    text.append(" stage ");
    push_decimal(&mut text, stage as u64);
    text.append(" partition ");
    push_decimal(&mut text, partition as u64);
    ExecutionError::InvalidArgument(text)
}

/// The text of [`input_stage_not_found`].
pub open spec fn input_stage_not_found_text(job_id: JobId, stage: usize) -> Seq<char> {
    "job "@ + decimal(job_id.value as nat) + " input stage "@ + decimal(stage as nat) + " not found"@
}

/// A stage input that names a stage that the job does not have.
pub(crate) fn input_stage_not_found(job_id: JobId, stage: usize) -> (r: ExecutionError)
    ensures
        r@ == ErrorView::Invalid(input_stage_not_found_text(job_id, stage)),
{
    let mut text = String::from_str("job ");
    push_decimal(&mut text, job_id.value);
    text.append(" input stage ");
    push_decimal(&mut text, stage as u64);
    text.append(" not found");
    ExecutionError::InvalidArgument(text)
}

/// The text of [`not_assigned_to_driver`].
pub open spec fn not_assigned_to_driver_text(
    job_id: JobId,
    stage: usize,
    partition: usize,
    attempt: usize,
) -> Seq<char> {
    "job "@ + decimal(job_id.value as nat) + " input stage "@ + decimal(stage as nat)
        + " partition "@ + decimal(partition as nat) + " attempt "@ + decimal(attempt as nat)
        + " is not assigned to driver"@
}

/// A task attempt that should run on the driver and does not.
pub(crate) fn not_assigned_to_driver(
    job_id: JobId,
    stage: usize,
    partition: usize,
    attempt: usize,
) -> (r: ExecutionError)
    ensures
        r@ == ErrorView::Internal(not_assigned_to_driver_text(job_id, stage, partition, attempt)),
{
    let mut text = String::from_str("job ");
    push_decimal(&mut text, job_id.value);
    text.append(" input stage ");
    push_decimal(&mut text, stage as u64);
    text.append(" partition ");
    push_decimal(&mut text, partition as u64);
    text.append(" attempt ");
    push_decimal(&mut text, attempt as u64);
    text.append(" is not assigned to driver");
    ExecutionError::InternalError(text)
}

/// The text of [`not_assigned_to_worker`].
pub open spec fn not_assigned_to_worker_text(
    job_id: JobId,
    stage: usize,
    partition: usize,
    attempt: usize,
) -> Seq<char> {
    "job "@ + decimal(job_id.value as nat) + " input stage "@ + decimal(stage as nat)
        + " partition "@ + decimal(partition as nat) + " attempt "@ + decimal(attempt as nat)
        + " is not assigned to worker"@
}

/// A task attempt that should run on a worker and does not.
pub(crate) fn not_assigned_to_worker(
    job_id: JobId,
    stage: usize,
    partition: usize,
    attempt: usize,
) -> (r: ExecutionError)
    ensures
        r@ == ErrorView::Internal(not_assigned_to_worker_text(job_id, stage, partition, attempt)),
{
    let mut text = String::from_str("job ");
    push_decimal(&mut text, job_id.value);
    text.append(" input stage ");
    push_decimal(&mut text, stage as u64);
    text.append(" partition ");
    push_decimal(&mut text, partition as u64);
    text.append(" attempt ");
    push_decimal(&mut text, attempt as u64);
    text.append(" is not assigned to worker");
    ExecutionError::InternalError(text)
}

/// The text of [`id_generation_failed`].
pub open spec fn id_generation_failed_text() -> Seq<char> {
    "failed to generate the next identifier"@
}

/// No identifier is left.
pub(crate) fn id_generation_failed() -> (r: ExecutionError)
    ensures
        r@ == ErrorView::Internal(id_generation_failed_text()),
{
    let text = String::from_str("failed to generate the next identifier");
    ExecutionError::InternalError(text)
}

/// The text of [`malformed_job`].
pub open spec fn malformed_job_text() -> Seq<char> {
    "job graph and topology are inconsistent"@
}

/// A job whose graph and topology do not fit together.
pub(crate) fn malformed_job() -> (r: ExecutionError)
    ensures
        r@ == ErrorView::Internal(malformed_job_text()),
{
    let text = String::from_str("job graph and topology are inconsistent");
    ExecutionError::InternalError(text)
}

/// The text of [`memory_stream_written`].
pub open spec fn memory_stream_written_text() -> Seq<char> {
    "memory stream can only be written once"@
}

/// A second writer of a memory stream.
pub(crate) fn memory_stream_written() -> (r: ExecutionError)
    ensures
        r@ == ErrorView::Internal(memory_stream_written_text()),
{
    let text = String::from_str("memory stream can only be written once");
    ExecutionError::InternalError(text)
}

/// The text of [`memory_stream_exhausted`].
pub open spec fn memory_stream_exhausted_text() -> Seq<char> {
    "memory stream has exhausted all replica(s)"@
}

/// One reader more than a memory stream has replicas.
pub(crate) fn memory_stream_exhausted() -> (r: ExecutionError)
    ensures
        r@ == ErrorView::Internal(memory_stream_exhausted_text()),
{
    let text = String::from_str("memory stream has exhausted all replica(s)");
    ExecutionError::InternalError(text)
}

/// The text of [`disk_stream_written`].
pub open spec fn disk_stream_written_text() -> Seq<char> {
    "disk stream can only be written once"@
}

/// A second writer of a disk stream.
pub(crate) fn disk_stream_written() -> (r: ExecutionError)
    ensures
        r@ == ErrorView::Internal(disk_stream_written_text()),
{
    let text = String::from_str("disk stream can only be written once");
    ExecutionError::InternalError(text)
}

}

//! Identifiers of jobs, workers, task attempts and task streams.

use crate::error::{
    id_generation_failed, id_generation_failed_text, ErrorView, ExecutionResult,
};
use vstd::prelude::*;

verus! {

/// The identifier of a job.
#[derive(Debug, Clone, Copy, PartialEq, Eq, Structural, Hash)]
pub struct JobId {
    pub value: u64,
}

/// The identifier of a worker.
#[derive(Debug, Clone, Copy, PartialEq, Eq, Structural, Hash)]
pub struct WorkerId {
    pub value: u64,
}

impl From<u64> for JobId {
    fn from(value: u64) -> (r: Self) {
        JobId { value }
    }
}

impl vstd::std_specs::convert::FromSpecImpl<u64> for JobId {
    open spec fn obeys_from_spec() -> bool {
        true
    }

    open spec fn from_spec(value: u64) -> Self {
        JobId { value }
    }
}

impl From<u64> for WorkerId {
    fn from(value: u64) -> (r: Self) {
        WorkerId { value }
    }
}

impl vstd::std_specs::convert::FromSpecImpl<u64> for WorkerId {
    open spec fn obeys_from_spec() -> bool {
        true
    }

    open spec fn from_spec(value: u64) -> Self {
        WorkerId { value }
    }
}

/// One attempt at running one partition of one stage of a job.
#[derive(Debug, Clone, Copy, PartialEq, Eq, Structural, Hash)]
pub struct TaskKey {
    pub job_id: JobId,
    pub stage: usize,
    pub partition: usize,
    pub attempt: usize,
}

/// One output channel of a task attempt.
#[derive(Debug, Clone, Copy, PartialEq, Eq, Structural, Hash)]
pub struct TaskStreamKey {
    pub job_id: JobId,
    pub stage: usize,
    pub partition: usize,
    pub attempt: usize,
    pub channel: usize,
}

/// Hands out job identifiers, each of them once and in increasing order.
pub struct JobIdGenerator {
    next: u64,
}

impl View for JobIdGenerator {
    type V = nat;

    /// The value of the next identifier.
    closed spec fn view(&self) -> nat {
        self.next as nat
    }
}

impl JobIdGenerator {
    /// A generator whose first identifier is 1.
    pub fn new() -> (r: Self)
        ensures
            r@ == 1,
    {
        JobIdGenerator { next: 1 }
    }

    /// The next identifier, or an error once the identifiers are used up.
    pub fn next(&mut self) -> (r: ExecutionResult<JobId>)
        ensures
            match r {
                Ok(id) => old(self)@ < u64::MAX && id.value == old(self)@ && final(self)@ == old(
                    self,
                )@ + 1,
                Err(e) => old(self)@ == u64::MAX && e@ == ErrorView::Internal(
                    id_generation_failed_text(),
                ) && final(self)@ == old(self)@,
            },
    {
        if self.next == u64::MAX {
            return Err(id_generation_failed());
        }
        let value: u64 = self.next;
        self.next = value + 1;
        Ok(JobId { value })
    }
}

}

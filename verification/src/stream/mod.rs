//! Streams of record batches between tasks.

pub mod channel;
pub mod disk;
pub mod item;
pub mod memory;
pub mod offers;
pub mod options;

use crate::error::ExecutionResult;
use vstd::prelude::*;

verus! {

/// A stream that is written once and then read.
pub trait LocalStream: Send {
    /// What the stream is written to.
    type Sink;

    /// What the stream is read from.
    type Source;

    /// Whether the stream has been given to a writer.
    spec fn is_published(&self) -> bool;

    /// Gives the stream to a writer. That can be done once.
    fn publish(&mut self) -> (r: ExecutionResult<Self::Sink>)
        ensures
            r is Ok <==> !old(self).is_published(),
            final(self).is_published(),
    ;

    /// Gives the stream to a reader.
    fn subscribe(&mut self) -> (r: ExecutionResult<Self::Source>)
        ensures
            final(self).is_published() == old(self).is_published(),
    ;
}

}

//! The items of a stream.

use vstd::prelude::*;

verus! {

/// What has become of a sink.
#[derive(Debug)]
pub enum TaskStreamSinkState {
    /// The sink takes more items.
    Open,
    /// Nothing reads the items of the sink any more.
    Closed,
    /// Writing has failed.
    Error(String),
}

}

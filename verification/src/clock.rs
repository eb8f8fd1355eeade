//! Points in time.

use vstd::prelude::*;

verus! {

/// A point in time: whole seconds since the Unix epoch, and the nanoseconds
/// since the last second boundary.
#[derive(Debug, Clone, Copy, PartialEq, Eq, Structural)]
pub struct Timestamp {
    pub seconds: i64,
    pub nanoseconds: u32,
}

/// A span of time.
#[derive(Debug, Clone, Copy, PartialEq, Eq, Structural)]
pub struct TimeSpan {
    pub seconds: u64,
    pub nanoseconds: u32,
}

/// Reads the system clock with `chrono::Utc::now`, and takes the result apart with
/// `timestamp` and `timestamp_subsec_nanos`.
///
/// Nothing is claimed of the second that comes back. The nanoseconds stay below two
/// seconds: `chrono` counts a leap second as the second half of that range.
#[verifier::external_body]
pub(crate) fn now() -> (r: Timestamp)
    ensures
        r.nanoseconds < 2_000_000_000,
{
    let t = chrono::Utc::now();
    Timestamp { seconds: t.timestamp(), nanoseconds: t.timestamp_subsec_nanos() }
}

}

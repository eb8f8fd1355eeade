//! The options of the nodes of a cluster, as far as jobs and streams depend on them.

use crate::clock::TimeSpan;
use std::path::PathBuf;
use vstd::prelude::*;

verus! {

/// The options of a driver.
#[derive(Debug)]
pub struct DriverOptions {
    /// The time that a task may take to launch.
    pub task_launch_timeout: TimeSpan,
    /// The number of attempts after which a task is given up.
    pub task_max_attempts: usize,
    /// The number of items that a channel of a stream holds.
    pub task_stream_buffer: usize,
    /// The time that the creation of a stream may take.
    pub task_stream_creation_timeout: TimeSpan,
    /// The directory of shuffle files.
    pub shuffle_dir: PathBuf,
}

/// The options of a worker.
#[derive(Debug)]
pub struct WorkerOptions {
    /// The number of items that a channel of a stream holds.
    pub task_stream_buffer: usize,
    /// The time that the creation of a stream may take.
    pub task_stream_creation_timeout: TimeSpan,
    /// The directory of shuffle files.
    pub shuffle_dir: PathBuf,
}

}

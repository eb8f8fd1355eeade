//! The options of the stream manager, which can be read but not changed once they are set.

use crate::clock::TimeSpan;
use crate::node::{DriverOptions, WorkerOptions};
use std::path::PathBuf;
use vstd::prelude::*;
use vstd::std_specs::convert::FromSpecImpl;

verus! {

/// The options of the stream manager.
#[derive(Debug)]
pub struct StreamManagerOptions {
    task_stream_buffer: usize,
    task_stream_creation_timeout: TimeSpan,
    shuffle_dir: PathBuf,
}

/// The options of the stream manager as a mathematical value.
pub struct StreamOptionsView {
    pub task_stream_buffer: usize,
    pub task_stream_creation_timeout: TimeSpan,
    pub shuffle_dir: PathBuf,
}

impl View for StreamManagerOptions {
    type V = StreamOptionsView;

    closed spec fn view(&self) -> StreamOptionsView {
        StreamOptionsView {
            task_stream_buffer: self.task_stream_buffer,
            task_stream_creation_timeout: self.task_stream_creation_timeout,
            shuffle_dir: self.shuffle_dir,
        }
    }
}

impl Clone for StreamManagerOptions {
    fn clone(&self) -> (r: Self)
        ensures
            r@ == self@,
    {
        StreamManagerOptions {
            task_stream_buffer: self.task_stream_buffer,
            task_stream_creation_timeout: self.task_stream_creation_timeout,
            shuffle_dir: self.shuffle_dir.clone(),
        }
    }
}

impl From<&DriverOptions> for StreamManagerOptions {
    /// The options that follow from those of a driver.
    fn from(options: &DriverOptions) -> (r: Self)
        ensures
            r@ == (StreamOptionsView {
                task_stream_buffer: options.task_stream_buffer,
                task_stream_creation_timeout: options.task_stream_creation_timeout,
                shuffle_dir: options.shuffle_dir,
            }),
    {
        StreamManagerOptions {
            task_stream_buffer: options.task_stream_buffer,
            task_stream_creation_timeout: options.task_stream_creation_timeout,
            shuffle_dir: options.shuffle_dir.clone(),
        }
    }
}

impl FromSpecImpl<&DriverOptions> for StreamManagerOptions {
    open spec fn obeys_from_spec() -> bool {
        true
    }

    closed spec fn from_spec(options: &DriverOptions) -> Self {
        StreamManagerOptions {
            task_stream_buffer: options.task_stream_buffer,
            task_stream_creation_timeout: options.task_stream_creation_timeout,
            shuffle_dir: options.shuffle_dir,
        }
    }
}

impl From<&WorkerOptions> for StreamManagerOptions {
    /// The options that follow from those of a worker.
    fn from(options: &WorkerOptions) -> (r: Self)
        ensures
            r@ == (StreamOptionsView {
                task_stream_buffer: options.task_stream_buffer,
                task_stream_creation_timeout: options.task_stream_creation_timeout,
                shuffle_dir: options.shuffle_dir,
            }),
    {
        StreamManagerOptions {
            task_stream_buffer: options.task_stream_buffer,
            task_stream_creation_timeout: options.task_stream_creation_timeout,
            shuffle_dir: options.shuffle_dir.clone(),
        }
    }
}

impl FromSpecImpl<&WorkerOptions> for StreamManagerOptions {
    open spec fn obeys_from_spec() -> bool {
        true
    }

    closed spec fn from_spec(options: &WorkerOptions) -> Self {
        StreamManagerOptions {
            task_stream_buffer: options.task_stream_buffer,
            task_stream_creation_timeout: options.task_stream_creation_timeout,
            shuffle_dir: options.shuffle_dir,
        }
    }
}

impl StreamManagerOptions {
    /// The default options, for a directory of shuffle files: a buffer of 16 items, and one minute to
    /// create a stream.
    pub fn with_defaults(shuffle_dir: PathBuf) -> (r: Self)
        ensures
            r@ == (StreamOptionsView {
                task_stream_buffer: 16,
                task_stream_creation_timeout: TimeSpan { seconds: 60, nanoseconds: 0 },
                shuffle_dir,
            }),
    {
        StreamManagerOptions {
            task_stream_buffer: 16,
            task_stream_creation_timeout: TimeSpan { seconds: 60, nanoseconds: 0 },
            shuffle_dir,
        }
    }

    /// The number of items that a channel holds.
    pub fn task_stream_buffer(&self) -> (r: usize)
        ensures
            r == self@.task_stream_buffer,
    {
        self.task_stream_buffer
    }

    /// The time that the creation of a stream may take.
    pub fn task_stream_creation_timeout(&self) -> (r: TimeSpan)
        ensures
            r == self@.task_stream_creation_timeout,
    {
        self.task_stream_creation_timeout
    }

    /// The directory of shuffle files.
    pub fn shuffle_dir(&self) -> (r: &PathBuf)
        ensures
            *r == self@.shuffle_dir,
    {
        &self.shuffle_dir
    }
}

}

//! The options of the job scheduler, which can be read but not changed once they are set.

use crate::clock::TimeSpan;
use crate::job_graph::OutputMode;
use crate::node::DriverOptions;
use std::path::PathBuf;
use vstd::prelude::*;
use vstd::std_specs::convert::{FromSpec, FromSpecImpl};

verus! {

/// `std::path::PathBuf`.
#[verifier::external_type_specification]
#[verifier::external_body]
pub struct ExPathBuf(PathBuf);

/// `std::path::PathBuf::clone`: the clone is the same path.
pub assume_specification [<PathBuf as Clone>::clone](path: &PathBuf) -> (r: PathBuf)
    ensures
        r == *path,
;

/// The options of the job scheduler.
#[derive(Debug)]
pub struct JobSchedulerOptions {
    task_launch_timeout: TimeSpan,
    task_max_attempts: usize,
    shuffle_mode: OutputMode,
    shuffle_dir: PathBuf,
    adaptive_enabled: bool,
    target_partition_size: u64,
    min_partition_size: u64,
    min_skew_threshold: u64,
}

/// The options of the job scheduler as a mathematical value.
pub struct SchedulerOptionsView {
    pub task_launch_timeout: TimeSpan,
    pub task_max_attempts: usize,
    pub shuffle_mode: OutputMode,
    pub shuffle_dir: PathBuf,
    pub adaptive_enabled: bool,
    pub target_partition_size: u64,
    pub min_partition_size: u64,
    pub min_skew_threshold: u64,
}

impl View for JobSchedulerOptions {
    type V = SchedulerOptionsView;

    closed spec fn view(&self) -> SchedulerOptionsView {
        SchedulerOptionsView {
            task_launch_timeout: self.task_launch_timeout,
            task_max_attempts: self.task_max_attempts,
            shuffle_mode: self.shuffle_mode,
            shuffle_dir: self.shuffle_dir,
            adaptive_enabled: self.adaptive_enabled,
            target_partition_size: self.target_partition_size,
            min_partition_size: self.min_partition_size,
            min_skew_threshold: self.min_skew_threshold,
        }
    }
}

impl Clone for JobSchedulerOptions {
    fn clone(&self) -> (r: Self)
        ensures
            r@ == self@,
    {
        JobSchedulerOptions { shuffle_dir: self.shuffle_dir.clone(), ..*self }
    }
}

/// The options that hold where nothing else is said, for a directory of shuffle files.
pub open spec fn default_options(shuffle_dir: PathBuf) -> SchedulerOptionsView {
    SchedulerOptionsView {
        task_launch_timeout: TimeSpan { seconds: 60, nanoseconds: 0 },
        task_max_attempts: 3,
        shuffle_mode: OutputMode::Pipelined,
        shuffle_dir,
        adaptive_enabled: true,
        target_partition_size: 67_108_864,
        min_partition_size: 1_048_576,
        min_skew_threshold: 134_217_728,
    }
}

/// The default options with the time that a task may take to launch and the number of attempts of
/// a driver.
pub open spec fn driver_options(options: DriverOptions) -> SchedulerOptionsView {
    SchedulerOptionsView {
        task_launch_timeout: options.task_launch_timeout,
        task_max_attempts: options.task_max_attempts,
        ..default_options(options.shuffle_dir)
    }
}

impl From<&DriverOptions> for JobSchedulerOptions {
    /// The options that follow from those of the driver.
    fn from(options: &DriverOptions) -> (r: Self)
        ensures
            r@ == driver_options(*options),
    {
        JobSchedulerOptions {
            task_launch_timeout: options.task_launch_timeout,
            task_max_attempts: options.task_max_attempts,
            shuffle_mode: OutputMode::Pipelined,
            shuffle_dir: options.shuffle_dir.clone(),
            adaptive_enabled: true,
            target_partition_size: 64 * 1024 * 1024,
            min_partition_size: 1024 * 1024,
            min_skew_threshold: 128 * 1024 * 1024,
        }
    }
}

impl FromSpecImpl<&DriverOptions> for JobSchedulerOptions {
    open spec fn obeys_from_spec() -> bool {
        true
    }

    closed spec fn from_spec(options: &DriverOptions) -> Self {
        JobSchedulerOptions {
            task_launch_timeout: options.task_launch_timeout,
            task_max_attempts: options.task_max_attempts,
            shuffle_mode: OutputMode::Pipelined,
            shuffle_dir: options.shuffle_dir,
            adaptive_enabled: true,
            target_partition_size: 67_108_864,
            min_partition_size: 1_048_576,
            min_skew_threshold: 134_217_728,
        }
    }
}

/// The options that `from` makes of those of a driver have the time that a task may take to launch
/// and the number of attempts of the driver. Every other one is the default one, with the
/// directory of shuffle files of the driver. Adaptive reading is on, with 64 MiB per partition.
pub proof fn lemma_driver_options(options: DriverOptions)
    ensures
        <JobSchedulerOptions as FromSpec<&DriverOptions>>::obeys_from_spec(),
        ({
            let r = <JobSchedulerOptions as FromSpec<&DriverOptions>>::from_spec(&options)@;
            let defaults = default_options(options.shuffle_dir);
            &&& r.task_launch_timeout == options.task_launch_timeout
            &&& r.task_max_attempts == options.task_max_attempts
            &&& r.shuffle_mode == defaults.shuffle_mode
            &&& r.shuffle_dir == defaults.shuffle_dir
            &&& r.adaptive_enabled == defaults.adaptive_enabled
            &&& r.target_partition_size == defaults.target_partition_size
            &&& r.min_partition_size == defaults.min_partition_size
            &&& r.min_skew_threshold == defaults.min_skew_threshold
            &&& r.adaptive_enabled
            &&& r.target_partition_size == 64 * 1024 * 1024
        }),
{
}

impl JobSchedulerOptions {
    /// The default options, for a directory of shuffle files: one minute to launch a task, three
    /// attempts, and adaptive reading with 64 MiB per partition.
    pub fn with_defaults(shuffle_dir: PathBuf) -> (r: Self)
        ensures
            r@ == default_options(shuffle_dir),
    {
        JobSchedulerOptions {
            task_launch_timeout: TimeSpan { seconds: 60, nanoseconds: 0 },
            task_max_attempts: 3,
            shuffle_mode: OutputMode::Pipelined,
            shuffle_dir,
            adaptive_enabled: true,
            target_partition_size: 64 * 1024 * 1024,
            min_partition_size: 1024 * 1024,
            min_skew_threshold: 128 * 1024 * 1024,
        }
    }

    /// The options with another shuffle mode.
    pub fn with_shuffle_mode(self, shuffle_mode: OutputMode) -> (r: Self)
        ensures
            r@ == (SchedulerOptionsView { shuffle_mode, ..self@ }),
    {
        JobSchedulerOptions { shuffle_mode, ..self }
    }

    /// The options with another directory of shuffle files.
    pub fn with_shuffle_dir(self, shuffle_dir: PathBuf) -> (r: Self)
        ensures
            r@ == (SchedulerOptionsView { shuffle_dir, ..self@ }),
    {
        JobSchedulerOptions { shuffle_dir, ..self }
    }

    /// The options with adaptive reading turned on or off.
    pub fn with_adaptive_enabled(self, adaptive_enabled: bool) -> (r: Self)
        ensures
            r@ == (SchedulerOptionsView { adaptive_enabled, ..self@ }),
    {
        JobSchedulerOptions { adaptive_enabled, ..self }
    }

    /// The options with another target partition size.
    pub fn with_target_partition_size(self, target_partition_size: u64) -> (r: Self)
        ensures
            r@ == (SchedulerOptionsView { target_partition_size, ..self@ }),
    {
        JobSchedulerOptions { target_partition_size, ..self }
    }

    /// The options with another minimum partition size.
    pub fn with_min_partition_size(self, min_partition_size: u64) -> (r: Self)
        ensures
            r@ == (SchedulerOptionsView { min_partition_size, ..self@ }),
    {
        JobSchedulerOptions { min_partition_size, ..self }
    }

    /// The options with another minimum size of a skewed partition.
    pub fn with_min_skew_threshold(self, min_skew_threshold: u64) -> (r: Self)
        ensures
            r@ == (SchedulerOptionsView { min_skew_threshold, ..self@ }),
    {
        JobSchedulerOptions { min_skew_threshold, ..self }
    }

    /// The time that a task may take to launch.
    pub fn task_launch_timeout(&self) -> (r: TimeSpan)
        ensures
            r == self@.task_launch_timeout,
    {
        self.task_launch_timeout
    }

    /// The number of attempts after which a task is given up.
    pub fn task_max_attempts(&self) -> (r: usize)
        ensures
            r == self@.task_max_attempts,
    {
        self.task_max_attempts
    }

    /// How shuffled data is handed to its consumers.
    pub fn shuffle_mode(&self) -> (r: OutputMode)
        ensures
            r == self@.shuffle_mode,
    {
        self.shuffle_mode
    }

    /// The directory of shuffle files.
    pub fn shuffle_dir(&self) -> (r: &PathBuf)
        ensures
            *r == self@.shuffle_dir,
    {
        &self.shuffle_dir
    }

    /// Whether shuffled data is read in groups of channels that depend on their sizes.
    pub fn adaptive_enabled(&self) -> (r: bool)
        ensures
            r == self@.adaptive_enabled,
    {
        self.adaptive_enabled
    }

    /// The size up to which channels are grouped.
    pub fn target_partition_size(&self) -> (r: u64)
        ensures
            r == self@.target_partition_size,
    {
        self.target_partition_size
    }

    /// The minimum size of a partition.
    pub fn min_partition_size(&self) -> (r: u64)
        ensures
            r == self@.min_partition_size,
    {
        self.min_partition_size
    }

    /// The minimum size of a skewed partition.
    pub fn min_skew_threshold(&self) -> (r: u64)
        ensures
            r == self@.min_skew_threshold,
    {
        self.min_skew_threshold
    }
}

}

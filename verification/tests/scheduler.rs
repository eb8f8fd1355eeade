use std::path::PathBuf;

use sail_execution::action::JobAction;
use sail_execution::clock::{TimeSpan, Timestamp};
use sail_execution::error::ExecutionError;
use sail_execution::id::{JobId, TaskKey, WorkerId};
use sail_execution::job_graph::{
    InputMode, JobGraph, OutputDistribution, OutputMode, SchemaHandle, Stage, StageInput, StagePlan,
};
use sail_execution::measurements::{Measurements, RewrittenPlan};
use sail_execution::node::DriverOptions;
use sail_execution::scheduler::definition::EncodedStage;
use sail_execution::scheduler::options::JobSchedulerOptions;
use sail_execution::scheduler::reads::PlanChange;
use sail_execution::scheduler::JobScheduler;
use sail_execution::shuffle_index::{PartitionIndex, ShuffleIndex, StageIndex};
use sail_execution::state::{
    ErrorCause, JobDescriptor, JobOutputHandle, JobState, StageState, TaskAttemptDescriptor,
    TaskContextHandle, TaskRegionState, TaskState,
};
use sail_execution::task::{
    TaskAssignment, TaskAssignmentGetter, TaskAssignments, TaskInputLocator, TaskOutputDistribution,
    TaskOutputLocator, TaskPlacement,
};
use sail_execution::topology::{JobTopology, StageTopology, TaskRegionTopology, TaskTopology};

fn at(seconds: i64) -> Timestamp {
    Timestamp { seconds, nanoseconds: 0 }
}

fn stage(inputs: Vec<StageInput>, partitions: usize, mode: OutputMode, channels: usize) -> Stage {
    Stage {
        inputs,
        plan: StagePlan { base: 0, repartitions: vec![], partitions },
        group: "default".to_string(),
        mode,
        distribution: OutputDistribution::RoundRobin { channels },
        placement: TaskPlacement::Worker,
        replicas: 1,
    }
}

fn input(stage: usize, mode: InputMode) -> StageInput {
    StageInput { stage, mode, partition_ranges: None }
}

fn tasks(stage: usize, partitions: usize) -> Vec<TaskTopology> {
    (0..partitions).map(|partition| TaskTopology { stage, partition }).collect()
}

/// Two stages with a shuffle on disk between them: `maps` tasks with 4 channels each, and 4 tasks
/// that read one channel each.
fn shuffle_job(maps: usize) -> (JobGraph, JobTopology) {
    let graph = JobGraph {
        stages: vec![
            stage(vec![], maps, OutputMode::Blocking, 4),
            stage(vec![input(0, InputMode::Shuffle)], 4, OutputMode::Pipelined, 1),
        ],
        schema: SchemaHandle { slot: 7 },
    };
    let topology = JobTopology {
        stages: vec![
            StageTopology { consumers: vec![1] },
            StageTopology { consumers: vec![] },
        ],
        regions: vec![
            TaskRegionTopology { tasks: tasks(0, maps), dependencies: vec![] },
            TaskRegionTopology { tasks: tasks(1, 4), dependencies: vec![0] },
        ],
    };
    (graph, topology)
}

fn succeeded() -> TaskAttemptDescriptor {
    TaskAttemptDescriptor {
        state: TaskState::Succeeded,
        messages: vec![],
        cause: None,
        job_output_fetched: false,
        created_at: at(0),
        stopped_at: None,
    }
}

fn options() -> JobSchedulerOptions {
    JobSchedulerOptions::with_defaults(PathBuf::from("/shuffle"))
}

fn driver_options() -> DriverOptions {
    DriverOptions {
        task_launch_timeout: TimeSpan { seconds: 7, nanoseconds: 8 },
        task_max_attempts: 9,
        task_stream_buffer: 4,
        task_stream_creation_timeout: TimeSpan { seconds: 1, nanoseconds: 5 },
        shuffle_dir: PathBuf::from("/shuffle"),
    }
}

/// Plans of a stage that have as many partitions as one of its inputs has groups.
fn following_plans(stage: usize, input: usize) -> Vec<RewrittenPlan> {
    (1..5)
        .map(|groups| RewrittenPlan { stage, input, groups, partitions: groups })
        .collect()
}

fn index_of(job_id: JobId, maps: usize, content: &str) -> Measurements {
    let mut partitions = vec![];
    for _ in 0..maps {
        partitions.push(PartitionIndex {
            attempt: 0,
            channels: vec![Some(content.to_string()); 4],
        });
    }
    let index = ShuffleIndex::try_new(job_id, vec![StageIndex { stage: 0, partitions }]).unwrap();
    Measurements { index, plans: following_plans(1, 0) }
}

#[test]
fn test_adaptive_disk_shuffle_coalescing_workflow() {
    let job_id = JobId::from(42);
    let index = index_of(job_id, 2, "100\n10\n");

    let (graph, topology) = shuffle_job(1);
    assert_eq!(graph.stages.len(), 2);
    assert_eq!(graph.stages[0].mode, OutputMode::Blocking);
    assert_eq!(graph.stages[1].plan.partitions, 4);

    let mut job = JobDescriptor::try_new(graph, topology, JobState::Draining, at(0)).unwrap();
    assert_eq!(job.topology.regions.len(), 2);

    // Mark upstream tasks (Stage 0) as succeeded
    let stage0_partitions = job.stages[0].tasks.len();
    for p in 0..stage0_partitions {
        job.stages[0].tasks[p].attempts.push(succeeded());
    }

    let options = options()
        .with_shuffle_mode(OutputMode::Blocking)
        .with_adaptive_enabled(true)
        .with_target_partition_size(250); // Each channel is 100 bytes. Target 250 -> [0..2, 2..4] (2 partitions)

    JobScheduler::update_task_regions(&mut job, &options);
    assert!(matches!(job.regions[0].state, TaskRegionState::Succeeded));

    let actions = JobScheduler::schedule_task_regions(&options, &index, job_id, &mut job, at(1));
    assert_eq!(actions.len(), 1);

    // Stage 1 was coalesced from 4 partitions to 2 partitions!
    assert_eq!(job.stages[1].tasks.len(), 2);
    assert_eq!(job.graph.stages[1].plan.partitions, 2);
    assert_eq!(
        job.graph.stages[1].inputs[0].partition_ranges,
        Some(vec![0..2, 2..4])
    );

    assert_eq!(job.topology.regions[1].tasks, tasks(1, 2));
    assert_eq!(job.graph.stages[1].plan.repartitions.len(), 1);
    assert_eq!(job.graph.stages[1].plan.repartitions[0].input, 0);
    assert_eq!(job.graph.stages[1].plan.repartitions[0].partitions, 2);
}

#[test]
fn test_adaptive_disabled_preserves_partitions() {
    let job_id = JobId::from(43);
    let index = index_of(job_id, 1, "10\n1\n");

    let (graph, topology) = shuffle_job(1);
    let mut job = JobDescriptor::try_new(graph, topology, JobState::Draining, at(0)).unwrap();

    for p in 0..job.stages[0].tasks.len() {
        job.stages[0].tasks[p].attempts.push(succeeded());
    }

    let options = options()
        .with_shuffle_mode(OutputMode::Blocking)
        .with_adaptive_enabled(false); // Adaptive disabled!

    JobScheduler::update_task_regions(&mut job, &options);
    let actions = JobScheduler::schedule_task_regions(&options, &index, job_id, &mut job, at(1));
    assert_eq!(actions.len(), 1);

    // Stage 1 remains 4 partitions!
    assert_eq!(job.stages[1].tasks.len(), 4);
    assert_eq!(job.graph.stages[1].plan.partitions, 4);
    assert_eq!(job.graph.stages[1].inputs[0].partition_ranges, None);
}

/// A job whose first stage has succeeded, after its second region has been scheduled.
fn scheduled_with(data: &Measurements, job_id: JobId, options: &JobSchedulerOptions) -> JobDescriptor {
    let (graph, topology) = shuffle_job(1);
    let mut job = JobDescriptor::try_new(graph, topology, JobState::Draining, at(0)).unwrap();
    job.stages[0].tasks[0].attempts.push(succeeded());
    JobScheduler::update_task_regions(&mut job, options);
    let actions = JobScheduler::schedule_task_regions(options, data, job_id, &mut job, at(1));
    assert_eq!(actions.len(), 1);
    job
}

/// Whether the second stage of a job reads its input as it did at first.
fn is_ungrouped(job: &JobDescriptor) -> bool {
    let stage = &job.graph.stages[1];
    stage.inputs[0].partition_ranges.is_none()
        && stage.plan.repartitions.is_empty()
        && stage.plan.partitions == 4
        && job.stages[1].tasks.len() == 4
        && job.topology.regions[1].tasks == tasks(1, 4)
}

#[test]
fn nothing_changes_where_no_channels_come_together() {
    let job_id = JobId::from(44);
    // two channels of 100 bytes exceed the target, so that there are as many groups as channels
    let data = index_of(job_id, 1, "100\n10\n");
    let job = scheduled_with(&data, job_id, &options().with_target_partition_size(150));
    assert!(is_ungrouped(&job));
    // the same holds for a target of zero
    let job = scheduled_with(&data, job_id, &options().with_target_partition_size(0));
    assert!(is_ungrouped(&job));
    for task in &job.stages[1].tasks {
        assert_eq!(task.attempts.len(), 1);
    }

    let job = scheduled_with(&data, job_id, &options().with_target_partition_size(200));
    assert!(!is_ungrouped(&job));
}

#[test]
fn a_stage_has_a_task_for_every_group_whatever_its_plan_comes_to() {
    let job_id = JobId::from(45);
    let options = options().with_target_partition_size(250);
    let mut data = index_of(job_id, 1, "100\n10\n");
    let plan = |input, partitions| RewrittenPlan { stage: 1, input, groups: 2, partitions };
    for (plans, partitions, changes) in [
        // the plan has a number of partitions of its own
        (vec![plan(0, 3)], 3, 1),
        // the plan cannot be changed, and keeps the number of partitions that it has
        (vec![], 4, 0),
        // the first entry for a change counts
        (vec![plan(1, 3), plan(0, 2), plan(0, 3)], 2, 1),
    ] {
        data.plans = plans;
        let job = scheduled_with(&data, job_id, &options);
        let stage = &job.graph.stages[1];
        assert_eq!(stage.inputs[0].partition_ranges, Some(vec![0..2, 2..4]));
        assert_eq!(stage.plan.partitions, partitions);
        assert_eq!(stage.plan.repartitions.len(), changes);
        assert_eq!(job.stages[1].tasks.len(), 2);
        assert_eq!(job.topology.regions[1].tasks, tasks(1, 2));
        for task in &job.stages[1].tasks {
            assert_eq!(task.attempts.len(), 1);
        }
    }
}

#[test]
fn a_region_is_not_scheduled_if_a_task_is_past_the_partitions_of_its_plan() {
    let job_id = JobId::from(49);
    let options = options().with_target_partition_size(250);
    let mut data = index_of(job_id, 1, "100\n10\n");
    for (partitions, scheduled) in [(1, false), (2, true)] {
        data.plans = vec![RewrittenPlan { stage: 1, input: 0, groups: 2, partitions }];
        let (graph, topology) = shuffle_job(1);
        let mut job = JobDescriptor::try_new(graph, topology, JobState::Draining, at(0)).unwrap();
        job.stages[0].tasks[0].attempts.push(succeeded());
        JobScheduler::update_task_regions(&mut job, &options);
        let actions = JobScheduler::try_schedule_task_regions(&options, &data, job_id, &mut job, at(1));
        match actions {
            Some(actions) => {
                assert!(scheduled);
                assert_eq!(sets(&actions[0]).len(), 2);
            }
            None => assert!(!scheduled),
        }
    }
}

/// A job whose second stage has just been scheduled, with two groups of channels and a plan of so many
/// partitions.
fn regrouped(
    job: (JobGraph, JobTopology),
    partitions: usize,
) -> (JobScheduler, JobId, Measurements) {
    let (mut scheduler, id) = scheduler_with(job, options().with_target_partition_size(250));
    let mut data = index_of(id, 1, "100\n10\n");
    data.plans = vec![RewrittenPlan { stage: 1, input: 0, groups: 2, partitions }];
    assert_eq!(scheduler.try_refresh_job_at(id, &data, at(1)).unwrap().len(), 1);
    report(&mut scheduler, id, (0, 0, 0), TaskState::Succeeded);
    assert_eq!(scheduler.try_refresh_job_at(id, &data, at(2)).unwrap().len(), 1);
    assert_eq!(scheduler.job(id).unwrap().stages[1].tasks.len(), 2);
    (scheduler, id, data)
}

#[test]
fn a_job_cannot_be_refreshed_if_an_output_has_no_task() {
    let (mut scheduler, id, data) = regrouped(shuffle_job(1), 2);
    assert!(scheduler.try_refresh_job_at(id, &data, at(3)).unwrap().is_empty());
    report(&mut scheduler, id, (1, 1, 0), TaskState::Running);
    let actions = scheduler.try_refresh_job_at(id, &data, at(4)).unwrap();
    assert_eq!(actions.len(), 1);
    assert!(matches!(&actions[0], JobAction::ExtendJobOutput { key, .. } if key.partition == 1));

    // the third output partition of the final stage has no task, which matters to no other job
    let (mut scheduler, id, data) = regrouped(shuffle_job(1), 3);
    let other = scheduler
        .accept_job_at(
            Ok(shuffle_job(1)),
            JobOutputHandle { slot: 12 },
            TaskContextHandle { slot: 23 },
            at(4),
        )
        .unwrap();
    assert_eq!(scheduler.try_refresh_job_at(other, &Measurements::empty(other), at(5)).unwrap().len(), 1);
    // what is not there needs nothing
    assert!(scheduler.try_refresh_job(JobId::from(99), &data).unwrap().is_empty());
    assert!(scheduler.try_refresh_job(id, &data).is_none());
}

#[test]
fn a_job_cannot_be_refreshed_if_a_consumer_has_fewer_tasks_than_partitions() {
    for (partitions, released) in [(2, true), (3, false)] {
        let (mut graph, mut topology) = shuffle_job(1);
        graph.stages.push(stage(vec![input(1, InputMode::Merge)], 1, OutputMode::Pipelined, 1));
        topology.stages[1].consumers.push(2);
        topology.stages.push(StageTopology { consumers: vec![] });
        topology.regions.push(TaskRegionTopology { tasks: tasks(2, 1), dependencies: vec![1] });
        let (mut scheduler, id, data) = regrouped((graph, topology), partitions);
        // while a task is still running, the ones after it are not looked at
        report(&mut scheduler, id, (1, 0, 0), TaskState::Succeeded);
        assert!(scheduler.try_refresh_job_at(id, &data, at(3)).unwrap().is_empty());
        report(&mut scheduler, id, (1, 1, 0), TaskState::Succeeded);
        match scheduler.try_refresh_job_at(id, &data, at(4)) {
            Some(actions) => {
                assert!(released);
                assert!(matches!(actions[0], JobAction::CleanUpJob { stage: Some(0), .. }));
                assert_eq!(sets(&actions[1]), vec![(TaskPlacement::Worker, vec![(2, 0, 0)])]);
            }
            None => assert!(!released),
        }
    }
}

#[test]
fn a_region_can_be_left_with_tasks_that_another_one_gives_up() {
    for (partition, kept) in [(1, true), (3, false)] {
        let (graph, mut topology) = shuffle_job(1);
        topology.regions.push(TaskRegionTopology {
            tasks: vec![TaskTopology { stage: 1, partition }],
            dependencies: vec![1],
        });
        let (mut scheduler, id, data) = regrouped((graph, topology), 2);
        let job = scheduler.job(id).unwrap();
        assert_eq!(job.topology.regions[1].tasks, tasks(1, 2));
        assert_eq!(job.topology.regions[2].tasks, vec![TaskTopology { stage: 1, partition }]);
        assert_eq!(scheduler.try_refresh_job_at(id, &data, at(3)).is_some(), kept);
    }
}

#[test]
fn how_a_region_reads_is_chosen_once() {
    let job_id = JobId::from(47);
    let options = options().with_target_partition_size(250);
    let data = index_of(job_id, 1, "100\n10\n");
    let mut job = scheduled_with(&data, job_id, &options);
    let before = format!("{job:?}");
    JobScheduler::optimize_region_adaptively(&options, &data, job_id, &mut job, 1);
    assert_eq!(format!("{job:?}"), before);
    // not even other sizes change it
    let other = index_of(job_id, 1, "1\n1\n");
    JobScheduler::optimize_region_adaptively(&options, &other, job_id, &mut job, 1);
    assert_eq!(format!("{job:?}"), before);
}

#[test]
fn groups_of_a_stage_of_the_same_region_are_chosen_once_too() {
    let job_id = JobId::from(50);
    let options = options().with_target_partition_size(250);
    let (mut graph, mut topology) = shuffle_job(1);
    graph.stages[1].mode = OutputMode::Blocking;
    graph.stages[1].distribution = OutputDistribution::RoundRobin { channels: 4 };
    graph.stages.push(stage(vec![input(1, InputMode::Shuffle)], 4, OutputMode::Pipelined, 1));
    topology.stages[1].consumers.push(2);
    topology.stages.push(StageTopology { consumers: vec![] });
    topology.regions[1].tasks.extend(tasks(2, 4));
    let mut job = JobDescriptor::try_new(graph, topology, JobState::Draining, at(0)).unwrap();
    job.stages[0].tasks[0].attempts.push(succeeded());
    let mut data = index_of(job_id, 1, "100\n10\n");
    data.plans.extend(following_plans(2, 0));
    JobScheduler::optimize_region_adaptively(&options, &data, job_id, &mut job, 1);
    assert_eq!(job.graph.stages[1].inputs[0].partition_ranges, Some(vec![0..2, 2..4]));
    // the last stage finds nothing yet of what it reads
    assert_eq!(job.graph.stages[2].inputs[0].partition_ranges, Some(vec![0..4]));
    assert_eq!(job.topology.regions[1].tasks, [tasks(1, 2), tasks(2, 1)].concat());

    // attempts that write something change nothing any more
    for s in [1, 2] {
        for task in &mut job.stages[s].tasks {
            task.attempts.push(succeeded());
        }
    }
    let files = |stage: usize, maps: usize| StageIndex {
        stage,
        partitions: (0..maps)
            .map(|_| PartitionIndex { attempt: 0, channels: vec![Some("100\n10\n".to_string()); 4] })
            .collect(),
    };
    data.index = ShuffleIndex::try_new(job_id, vec![files(0, 1), files(1, 2)]).unwrap();
    let before = format!("{job:?}");
    JobScheduler::optimize_region_adaptively(&options, &data, job_id, &mut job, 1);
    assert_eq!(format!("{job:?}"), before);
}

#[test]
fn the_last_input_with_groups_sets_the_number_of_tasks() {
    let job_id = JobId::from(48);
    let (mut graph, mut topology) = shuffle_job(1);
    graph.stages.push(stage(vec![], 1, OutputMode::Blocking, 4));
    graph.stages[1].inputs.push(input(2, InputMode::Shuffle));
    topology.stages.push(StageTopology { consumers: vec![1] });
    topology.regions.push(TaskRegionTopology { tasks: tasks(2, 1), dependencies: vec![] });
    topology.regions[1].dependencies.push(2);
    let mut job = JobDescriptor::try_new(graph, topology, JobState::Draining, at(0)).unwrap();
    for s in [0, 2] {
        job.stages[s].tasks[0].attempts.push(succeeded());
    }
    let files = |stage: usize, sizes: [u64; 4]| StageIndex {
        stage,
        partitions: vec![PartitionIndex {
            attempt: 0,
            channels: sizes.iter().map(|s| Some(format!("{s}\n1\n"))).collect(),
        }],
    };
    let index = ShuffleIndex::try_new(
        job_id,
        vec![files(0, [100, 100, 100, 100]), files(2, [10, 10, 10, 250])],
    )
    .unwrap();
    let mut plans = following_plans(1, 0);
    plans.extend(following_plans(1, 1));
    let data = Measurements { index, plans };
    let options = options().with_target_partition_size(250);
    JobScheduler::update_task_regions(&mut job, &options);
    JobScheduler::schedule_task_regions(&options, &data, job_id, &mut job, at(1));
    let reader = &job.graph.stages[1];
    assert_eq!(reader.inputs[0].partition_ranges, Some(vec![0..2, 2..4]));
    assert_eq!(reader.inputs[1].partition_ranges, Some(vec![0..3, 3..4]));
    assert_eq!(reader.plan.repartitions.len(), 2);
    assert_eq!(job.stages[1].tasks.len(), 2);
}

fn worker(id: u64) -> TaskAssignment {
    TaskAssignment::Worker { worker_id: WorkerId::from(id), slot: 0 }
}

/// Places the given attempts at partitions of a stage.
fn placed(job_id: JobId, stage: usize, places: Vec<(usize, usize, TaskAssignment)>) -> TaskAssignments {
    TaskAssignments {
        entries: places
            .into_iter()
            .map(|(partition, attempt, assignment)| {
                (TaskKey { job_id, stage, partition, attempt }, assignment)
            })
            .collect(),
    }
}

fn message(e: ExecutionError) -> String {
    match e {
        ExecutionError::InvalidArgument(m) => format!("invalid: {m}"),
        ExecutionError::InternalError(m) => format!("internal: {m}"),
        ExecutionError::DataFusionError(m) => format!("datafusion: {m}"),
        ExecutionError::IoError(m) => format!("io: {m}"),
    }
}

#[test]
fn test_get_task_input_with_coalesced_ranges() {
    let (graph, topology) = shuffle_job(1);
    let mut job = JobDescriptor::try_new(graph, topology, JobState::Draining, at(0)).unwrap();

    // Upstream stage 0 succeeded with attempt 0
    job.stages[0].tasks[0].attempts.push(succeeded());

    // Set coalesced partition ranges: 0..2 and 2..4
    job.graph.stages[1].inputs[0].partition_ranges = Some(vec![0..2, 2..4]);

    let scheduler = JobScheduler::new(options());
    let task_key = TaskKey {
        job_id: JobId::from(1),
        stage: 1,
        partition: 0,
        attempt: 0,
    };

    let assignments = placed(JobId::from(1), 0, vec![(0, 0, worker(1))]);
    let task_input = scheduler
        .get_task_input(&job, &task_key, &job.graph.stages[1].inputs[0], &assignments)
        .unwrap();

    match task_input.locator {
        TaskInputLocator::Worker { stage, keys } => {
            assert_eq!(stage, 0);
            assert_eq!(keys.len(), 2); // 2 coalesced partitions
            // Partition 0 reads channels 0 and 1
            assert_eq!(keys[0].len(), 2);
            assert_eq!(keys[0][0].1.channel, 0);
            assert_eq!(keys[0][1].1.channel, 1);
            // Partition 1 reads channels 2 and 3
            assert_eq!(keys[1].len(), 2);
            assert_eq!(keys[1][0].1.channel, 2);
            assert_eq!(keys[1][1].1.channel, 3);
        }
        _ => panic!("expected Worker locator"),
    }
}

/// A job with an upstream stage of 2 partitions and 2 channels, all attempted once.
fn read_job(mode: InputMode, placement: TaskPlacement) -> JobDescriptor {
    let mut upstream = stage(vec![], 2, OutputMode::Pipelined, 2);
    upstream.placement = placement;
    let graph = JobGraph {
        stages: vec![upstream, stage(vec![input(0, mode)], 2, OutputMode::Pipelined, 1)],
        schema: SchemaHandle { slot: 0 },
    };
    let topology = JobTopology {
        stages: vec![
            StageTopology { consumers: vec![1] },
            StageTopology { consumers: vec![] },
        ],
        regions: vec![],
    };
    let mut job = JobDescriptor::try_new(graph, topology, JobState::Draining, at(0)).unwrap();
    for p in 0..2 {
        job.stages[0].tasks[p].attempts.push(succeeded());
    }
    job
}

fn read<A: TaskAssignmentGetter>(job: &JobDescriptor, assignments: &A) -> Result<TaskInputLocator, String> {
    let scheduler = JobScheduler::new(options());
    let key = TaskKey { job_id: JobId::from(1), stage: 1, partition: 0, attempt: 0 };
    match scheduler.get_task_input(job, &key, &job.graph.stages[1].inputs[0], assignments) {
        Ok(input) => Ok(input.locator),
        Err(e) => Err(message(e)),
    }
}

/// The partitions and channels that each task reads.
fn cells(locator: TaskInputLocator) -> Vec<Vec<(usize, usize)>> {
    match locator {
        TaskInputLocator::Driver { keys, .. } => keys
            .into_iter()
            .map(|row| row.into_iter().map(|k| (k.partition, k.channel)).collect())
            .collect(),
        TaskInputLocator::Worker { keys, .. } => keys
            .into_iter()
            .map(|row| row.into_iter().map(|(_, k)| (k.partition, k.channel)).collect())
            .collect(),
    }
}

#[test]
fn every_input_mode_reads_its_own_cells() {
    let assignments = placed(JobId::from(1), 0, vec![(0, 0, worker(5)), (1, 0, worker(6))]);
    for mode in [InputMode::Forward, InputMode::Merge] {
        let job = read_job(mode, TaskPlacement::Worker);
        assert_eq!(
            cells(read(&job, &assignments).unwrap()),
            vec![vec![(0, 0), (0, 1)], vec![(1, 0), (1, 1)]]
        );
    }
    let job = read_job(InputMode::Shuffle, TaskPlacement::Worker);
    assert_eq!(
        cells(read(&job, &assignments).unwrap()),
        vec![vec![(0, 0), (1, 0)], vec![(0, 1), (1, 1)]]
    );
    let job = read_job(InputMode::Broadcast, TaskPlacement::Worker);
    assert_eq!(
        cells(read(&job, &assignments).unwrap()),
        vec![vec![(0, 0), (0, 1), (1, 0), (1, 1)]]
    );
}

#[test]
fn grouped_channels_are_read_like_single_ones() {
    let assignments = placed(JobId::from(1), 0, vec![(0, 0, worker(5)), (1, 0, worker(6))]);
    let mut job = read_job(InputMode::Shuffle, TaskPlacement::Worker);
    let single: Vec<(usize, usize)> = cells(read(&job, &assignments).unwrap()).concat();
    job.graph.stages[1].inputs[0].partition_ranges = Some(vec![0..2]);
    let grouped = cells(read(&job, &assignments).unwrap());
    assert_eq!(grouped, vec![vec![(0, 0), (1, 0), (0, 1), (1, 1)]]);
    assert_eq!(grouped.concat(), single);

    // groups of one channel each make no difference at all
    job.graph.stages[1].inputs[0].partition_ranges = None;
    let ungrouped = cells(read(&job, &assignments).unwrap());
    job.graph.stages[1].inputs[0].partition_ranges = Some(vec![0..1, 1..2]);
    assert_eq!(cells(read(&job, &assignments).unwrap()), ungrouped);
}

#[test]
fn inputs_carry_the_latest_attempt_and_its_worker() {
    let mut job = read_job(InputMode::Forward, TaskPlacement::Worker);
    job.stages[0].tasks[1].attempts.push(succeeded());
    let assignments = placed(
        JobId::from(1),
        0,
        vec![(0, 0, worker(5)), (1, 0, worker(6)), (1, 1, worker(7))],
    );
    match read(&job, &assignments).unwrap() {
        TaskInputLocator::Worker { stage, keys } => {
            assert_eq!(stage, 0);
            assert_eq!(keys[0][0].0, WorkerId::from(5));
            assert_eq!(keys[0][0].1.attempt, 0);
            assert_eq!(keys[1][0].0, WorkerId::from(7));
            assert_eq!(keys[1][0].1.attempt, 1);
        }
        _ => panic!("expected a worker"),
    }
}

#[test]
fn inputs_on_the_driver_need_no_worker() {
    let job = read_job(InputMode::Forward, TaskPlacement::Driver);
    let assignments = placed(
        JobId::from(1),
        0,
        vec![(0, 0, TaskAssignment::Driver), (1, 0, TaskAssignment::Driver)],
    );
    match read(&job, &assignments).unwrap() {
        TaskInputLocator::Driver { stage, keys } => {
            assert_eq!(stage, 0);
            assert_eq!(keys.len(), 2);
        }
        _ => panic!("expected the driver"),
    }
}

#[test]
fn inputs_that_cannot_be_read() {
    let all = placed(JobId::from(1), 0, vec![(0, 0, worker(5)), (1, 0, worker(6))]);

    let mut job = read_job(InputMode::Shuffle, TaskPlacement::Worker);
    job.stages[0].tasks[1].attempts.clear();
    assert_eq!(
        read(&job, &all).unwrap_err(),
        "invalid: no latest task attempt found for job 1 stage 0 partition 1"
    );
    // a partition that is not read is not missed
    job.graph.stages[1].inputs[0].partition_ranges = Some(vec![]);
    assert!(cells(read(&job, &all).unwrap()).is_empty());

    let job = read_job(InputMode::Shuffle, TaskPlacement::Worker);
    let some = placed(JobId::from(1), 0, vec![(0, 0, worker(5)), (1, 0, TaskAssignment::Driver)]);
    assert_eq!(
        read(&job, &some).unwrap_err(),
        "internal: job 1 input stage 0 partition 1 attempt 0 is not assigned to worker"
    );

    let job = read_job(InputMode::Shuffle, TaskPlacement::Driver);
    assert_eq!(
        read(&job, &all).unwrap_err(),
        "internal: job 1 input stage 0 partition 0 attempt 0 is not assigned to driver"
    );

    let scheduler = JobScheduler::new(options());
    let key = TaskKey { job_id: JobId::from(3), stage: 1, partition: 0, attempt: 0 };
    let missing = input(9, InputMode::Forward);
    let e = scheduler.get_task_input(&job, &key, &missing, &all).err().unwrap();
    assert_eq!(message(e), "invalid: job 3 input stage 9 not found");
}

#[test]
fn latest_attempts_are_counted_from_zero() {
    let mut job = read_job(InputMode::Forward, TaskPlacement::Worker);
    assert_eq!(JobScheduler::get_latest_task_attempt(&job, 0, 0), Some(0));
    job.stages[0].tasks[0].attempts.push(succeeded());
    assert_eq!(JobScheduler::get_latest_task_attempt(&job, 0, 0), Some(1));
    assert_eq!(JobScheduler::get_latest_task_attempt(&job, 1, 0), None);
    assert_eq!(JobScheduler::get_latest_task_attempt(&job, 0, 2), None);
    assert_eq!(JobScheduler::get_latest_task_attempt(&job, 2, 0), None);
}

fn scheduler_with(job: (JobGraph, JobTopology), options: JobSchedulerOptions) -> (JobScheduler, JobId) {
    let mut scheduler = JobScheduler::new(options);
    let id = scheduler
        .accept_job_at(
            Ok(job),
            JobOutputHandle { slot: 11 },
            TaskContextHandle { slot: 22 },
            at(0),
        )
        .unwrap();
    (scheduler, id)
}

/// The attempts in every task set of a region that is scheduled.
fn sets(action: &JobAction) -> Vec<(TaskPlacement, Vec<(usize, usize, usize)>)> {
    match action {
        JobAction::ScheduleTaskRegion { region } => region
            .tasks
            .iter()
            .map(|(placement, set)| {
                (
                    *placement,
                    set.entries
                        .iter()
                        .map(|e| (e.key.stage, e.key.partition, e.key.attempt))
                        .collect(),
                )
            })
            .collect(),
        _ => panic!("expected a region to be scheduled"),
    }
}

fn report(scheduler: &mut JobScheduler, job_id: JobId, task: (usize, usize, usize), state: TaskState) {
    let key = TaskKey { job_id, stage: task.0, partition: task.1, attempt: task.2 };
    scheduler.update_task_at(&key, state, None, None, at(5));
}

#[test]
fn a_job_runs_from_its_first_region_to_its_end() {
    let (mut scheduler, id) = scheduler_with(shuffle_job(2), options().with_target_partition_size(450));
    let none = Measurements::empty(id);

    // only the region without dependencies is scheduled
    let actions = scheduler.refresh_job_at(id, &none, at(1));
    assert_eq!(actions.len(), 1);
    assert_eq!(
        sets(&actions[0]),
        vec![
            (TaskPlacement::Worker, vec![(0, 0, 0)]),
            (TaskPlacement::Worker, vec![(0, 1, 0)]),
        ]
    );
    // and it is not scheduled again
    assert!(scheduler.refresh_job_at(id, &none, at(2)).is_empty());

    report(&mut scheduler, id, (0, 0, 0), TaskState::Running);
    report(&mut scheduler, id, (0, 0, 0), TaskState::Succeeded);
    assert!(scheduler.refresh_job_at(id, &none, at(3)).is_empty());
    report(&mut scheduler, id, (0, 1, 0), TaskState::Succeeded);

    // the index files of the succeeded attempts are needed now
    let reads = scheduler.shuffle_reads(id);
    assert_eq!(reads.len(), 1);
    assert_eq!(reads[0].stage, 0);
    assert_eq!(reads[0].channels, 4);
    assert_eq!(reads[0].attempts, vec![0, 0]);

    // each channel holds 200 bytes, so that two of them make a group
    let actions = scheduler.refresh_job_at(id, &index_of(id, 2, "100\n10\n"), at(4));
    assert_eq!(actions.len(), 1);
    assert_eq!(
        sets(&actions[0]),
        vec![
            (TaskPlacement::Worker, vec![(1, 0, 0)]),
            (TaskPlacement::Worker, vec![(1, 1, 0)]),
        ]
    );
    assert!(scheduler.shuffle_reads(id).is_empty());

    // a running task of the final stage adds its channel to the job output, once
    report(&mut scheduler, id, (1, 0, 0), TaskState::Running);
    let actions = scheduler.refresh_job_at(id, &none, at(6));
    assert_eq!(actions.len(), 1);
    match &actions[0] {
        JobAction::ExtendJobOutput { handle, key, schema } => {
            assert_eq!(*handle, JobOutputHandle { slot: 11 });
            assert_eq!((key.job_id, key.stage, key.partition, key.attempt, key.channel), (id, 1, 0, 0, 0));
            assert_eq!(*schema, SchemaHandle { slot: 7 });
        }
        _ => panic!("expected job output"),
    }
    assert!(scheduler.refresh_job_at(id, &none, at(6)).is_empty());

    // once all consumers have succeeded, the output of the first stage is removed
    report(&mut scheduler, id, (1, 0, 0), TaskState::Succeeded);
    report(&mut scheduler, id, (1, 1, 0), TaskState::Succeeded);
    let actions = scheduler.refresh_job_at(id, &none, at(7));
    assert_eq!(actions.len(), 2);
    assert!(matches!(&actions[0], JobAction::ExtendJobOutput { key, .. } if key.partition == 1));
    assert!(matches!(&actions[1], JobAction::CleanUpJob { job_id, stage: Some(0) } if *job_id == id));

    let job = scheduler.job(id).unwrap();
    assert!(matches!(job.state, JobState::Draining));
    assert_eq!(job.stages[0].state, StageState::Inactive);
    assert_eq!(job.stages[0].stopped_at, Some(at(7)));
    assert_eq!(job.stages[1].state, StageState::Active);
    assert!(scheduler.refresh_job_at(id, &none, at(8)).is_empty());

    let actions = scheduler.clean_up_job_at(id, at(9));
    assert_eq!(actions.len(), 1);
    assert!(matches!(&actions[0], JobAction::CleanUpJob { stage: None, .. }));
    let job = scheduler.job(id).unwrap();
    assert!(matches!(job.state, JobState::Succeeded));
    assert_eq!(job.stopped_at, Some(at(9)));
    assert_eq!(job.stages[0].stopped_at, Some(at(7)));
    assert_eq!(job.stages[1].stopped_at, Some(at(9)));
    assert!(scheduler.refresh_job_at(id, &none, at(10)).is_empty());
}

#[test]
fn a_failed_attempt_cancels_its_region_which_is_then_tried_again() {
    let (mut scheduler, id) = scheduler_with(shuffle_job(3), options());
    let none = Measurements::empty(id);
    scheduler.refresh_job_at(id, &none, at(1));

    report(&mut scheduler, id, (0, 0, 0), TaskState::Succeeded);
    report(&mut scheduler, id, (0, 1, 0), TaskState::Failed);
    let actions = scheduler.refresh_job_at(id, &none, at(6));
    assert_eq!(actions.len(), 2);
    match &actions[0] {
        JobAction::CancelTask { key } => {
            assert_eq!((key.job_id, key.stage, key.partition, key.attempt), (id, 0, 2, 0));
        }
        _ => panic!("expected a task to be canceled"),
    }
    // one more attempt at every task of the region
    assert_eq!(
        sets(&actions[1]),
        vec![
            (TaskPlacement::Worker, vec![(0, 0, 1)]),
            (TaskPlacement::Worker, vec![(0, 1, 1)]),
            (TaskPlacement::Worker, vec![(0, 2, 1)]),
        ]
    );
    let attempt = &scheduler.job(id).unwrap().stages[0].tasks[2].attempts[0];
    assert_eq!(attempt.state, TaskState::Canceled);
    assert_eq!(attempt.stopped_at, Some(at(6)));
    assert!(scheduler.refresh_job_at(id, &none, at(7)).is_empty());
}

#[test]
fn a_job_fails_when_the_attempts_are_used_up() {
    let (mut scheduler, id) = scheduler_with(shuffle_job(2), JobSchedulerOptions::from(&DriverOptions {
        task_max_attempts: 2,
        ..driver_options()
    }));
    let none = Measurements::empty(id);
    scheduler.refresh_job_at(id, &none, at(1));
    for attempt in 0..2 {
        let key = TaskKey { job_id: id, stage: 0, partition: 1, attempt };
        scheduler.update_task_at(
            &key,
            TaskState::Failed,
            Some(format!("attempt {attempt}")),
            Some(ErrorCause::Reported(format!("cause {attempt}"))),
            at(2),
        );
        let actions = scheduler.refresh_job_at(id, &none, at(3));
        if attempt == 0 {
            // the other task is canceled, and both are tried again
            assert_eq!(actions.len(), 2);
        } else {
            assert_eq!(actions.len(), 2);
            assert!(matches!(&actions[0], JobAction::CancelTask { key } if key.partition == 0 && key.attempt == 1));
            match &actions[1] {
                JobAction::FailJobOutput { handle, cause } => {
                    assert_eq!(*handle, JobOutputHandle { slot: 11 });
                    assert!(matches!(cause, ErrorCause::Reported(m) if m == "cause 1"));
                }
                _ => panic!("expected the job output to fail"),
            }
        }
    }
    let job = scheduler.job(id).unwrap();
    assert!(matches!(job.state, JobState::Failed));
    assert_eq!(job.stopped_at, Some(at(3)));
    assert!(matches!(job.regions[0].state, TaskRegionState::Failed));
    assert_eq!(job.stages[0].tasks[1].attempts[1].messages, vec!["attempt 1".to_string()]);
    assert!(scheduler.refresh_job_at(id, &none, at(4)).is_empty());
}

#[test]
fn no_task_is_attempted_more_often_than_allowed() {
    let (mut scheduler, id) = scheduler_with(shuffle_job(2), options().with_target_partition_size(450));
    let index = index_of(id, 2, "100\n10\n");
    scheduler.refresh_job_at(id, &index, at(1));
    for p in 0..2 {
        report(&mut scheduler, id, (0, p, 0), TaskState::Succeeded);
    }
    scheduler.refresh_job_at(id, &index, at(2));
    for round in 0..5 {
        report(&mut scheduler, id, (1, 0, round), TaskState::Failed);
        scheduler.refresh_job_at(id, &index, at(3));
        let job = scheduler.job(id).unwrap();
        // the tasks of a region are attempted in step, three times at most
        for task in &job.stages[1].tasks {
            assert_eq!(task.attempts.len(), (round + 2).min(3));
        }
        assert_eq!(matches!(job.state, JobState::Failed), round >= 2);
        // the region that has succeeded is left alone
        for task in &job.stages[0].tasks {
            assert_eq!(task.attempts.len(), 1);
        }
    }
}

#[test]
fn refreshing_again_changes_nothing() {
    let (mut scheduler, id) = scheduler_with(shuffle_job(2), options().with_target_partition_size(450));
    let index = index_of(id, 2, "100\n10\n");
    let other = index_of(id, 2, "400\n10\n");
    for p in 0..2 {
        scheduler.refresh_job_at(id, &index, at(1));
        report(&mut scheduler, id, (0, p, 0), TaskState::Succeeded);
    }
    assert_eq!(scheduler.refresh_job_at(id, &index, at(2)).len(), 1);
    let before = format!("{:?}", scheduler.job(id).unwrap());
    // not even with other index files at another time
    assert!(scheduler.refresh_job_at(id, &other, at(9)).is_empty());
    assert_eq!(format!("{:?}", scheduler.job(id).unwrap()), before);
}

#[test]
fn only_the_listed_index_files_matter() {
    let refresh = |extra: bool| -> String {
        let (mut scheduler, id) = scheduler_with(shuffle_job(1), options().with_target_partition_size(250));
        scheduler.refresh_job_at(id, &Measurements::empty(id), at(1));
        report(&mut scheduler, id, (0, 0, 0), TaskState::Succeeded);
        let reads = scheduler.shuffle_reads(id);
        assert_eq!(reads.len(), 1);
        assert_eq!((reads[0].stage, reads[0].channels), (0, 4));
        let listed = |content: &str, channels: usize| PartitionIndex {
            attempt: 0,
            channels: vec![Some(content.to_string()); channels],
        };
        let index = if extra {
            // a fifth channel, a second partition and a second stage
            let partitions = vec![listed("100\n1\n", 5), listed("7000\n1\n", 4)];
            let others = vec![listed("9000\n1\n", 4)];
            vec![StageIndex { stage: 0, partitions }, StageIndex { stage: 1, partitions: others }]
        } else {
            vec![StageIndex { stage: 0, partitions: vec![listed("100\n1\n", 4)] }]
        };
        let index = ShuffleIndex::try_new(id, index).unwrap();
        let mut data = Measurements { index, plans: vec![] };
        // of the plans, too, only the listed ones matter
        let changes = scheduler.plan_changes(id, &data);
        assert_eq!(changes, vec![PlanChange { stage: 1, input: 0, groups: 2 }]);
        data.plans = if extra {
            following_plans(1, 0)
        } else {
            vec![RewrittenPlan { stage: 1, input: 0, groups: 2, partitions: 2 }]
        };
        assert_eq!(scheduler.refresh_job_at(id, &data, at(2)).len(), 1);
        let job = scheduler.job(id).unwrap();
        assert_eq!(job.graph.stages[1].inputs[0].partition_ranges, Some(vec![0..2, 2..4]));
        format!("{job:?}")
    };
    assert_eq!(refresh(false), refresh(true));
}

#[test]
fn small_partitions_of_four_tasks_are_read_by_two() {
    let (mut scheduler, id) = scheduler_with(shuffle_job(4), options().with_target_partition_size(400));
    // 50 bytes per task and channel
    let data = index_of(id, 4, "50\n5\n");
    assert_eq!(sets(&scheduler.refresh_job_at(id, &data, at(1))[0]).len(), 4);
    for p in 0..4 {
        report(&mut scheduler, id, (0, p, 0), TaskState::Succeeded);
    }
    assert_eq!(
        scheduler.plan_changes(id, &data),
        vec![PlanChange { stage: 1, input: 0, groups: 2 }]
    );
    assert_eq!(sets(&scheduler.refresh_job_at(id, &data, at(2))[0]).len(), 2);
    let job = scheduler.job(id).unwrap();
    assert_eq!(job.graph.stages[1].plan.partitions, 2);
    assert_eq!(job.topology.regions[1].tasks, tasks(1, 2));

    // each of the two tasks reads its channels across all four tasks
    let places = (0..4).map(|p| (p, 0, worker(p as u64))).collect();
    let key = TaskKey { job_id: id, stage: 1, partition: 0, attempt: 0 };
    let input = scheduler
        .get_task_input(job, &key, &job.graph.stages[1].inputs[0], &placed(id, 0, places))
        .unwrap();
    assert_eq!(
        cells(input.locator),
        vec![
            vec![(0, 0), (1, 0), (2, 0), (3, 0), (0, 1), (1, 1), (2, 1), (3, 1)],
            vec![(0, 2), (1, 2), (2, 2), (3, 2), (0, 3), (1, 3), (2, 3), (3, 3)],
        ]
    );

    for p in 0..2 {
        report(&mut scheduler, id, (1, p, 0), TaskState::Succeeded);
    }
    let actions = scheduler.refresh_job_at(id, &data, at(3));
    assert!(actions.iter().any(|a| matches!(a, JobAction::CleanUpJob { stage: Some(0), .. })));
    scheduler.clean_up_job_at(id, at(4));
    assert!(matches!(scheduler.job(id).unwrap().state, JobState::Succeeded));
}

#[test]
fn only_regions_that_may_start_need_index_files() {
    // no two channels come together, so that the input stays as it is
    let (mut scheduler, id) = scheduler_with(shuffle_job(2), options().with_target_partition_size(150));
    let data = index_of(id, 2, "100\n10\n");
    assert!(scheduler.shuffle_reads(id).is_empty());
    assert!(scheduler.plan_changes(id, &data).is_empty());
    scheduler.refresh_job_at(id, &data, at(1));
    report(&mut scheduler, id, (0, 0, 0), TaskState::Succeeded);
    // the data is not complete yet
    assert!(scheduler.shuffle_reads(id).is_empty());
    report(&mut scheduler, id, (0, 1, 0), TaskState::Succeeded);
    assert_eq!(scheduler.shuffle_reads(id).len(), 1);
    scheduler.refresh_job_at(id, &data, at(2));
    // the region that reads it is running
    assert!(scheduler.shuffle_reads(id).is_empty());
    report(&mut scheduler, id, (1, 0, 0), TaskState::Running);
    assert!(scheduler.shuffle_reads(id).is_empty());
    // the region is to be tried again
    report(&mut scheduler, id, (1, 0, 0), TaskState::Failed);
    assert_eq!(scheduler.shuffle_reads(id).len(), 1);
    scheduler.refresh_job_at(id, &data, at(3));
    for task in &scheduler.job(id).unwrap().stages[1].tasks {
        assert_eq!(task.attempts.len(), 2);
    }
    for p in 0..4 {
        report(&mut scheduler, id, (1, p, 1), TaskState::Succeeded);
    }
    // the region is done
    assert!(scheduler.shuffle_reads(id).is_empty());
}

#[test]
fn a_region_waits_for_those_it_depends_on() {
    // three stages in a row, each in a region of its own
    let graph = JobGraph {
        stages: vec![
            stage(vec![], 1, OutputMode::Blocking, 1),
            stage(vec![input(0, InputMode::Forward)], 1, OutputMode::Blocking, 1),
            stage(vec![input(1, InputMode::Forward)], 1, OutputMode::Pipelined, 1),
        ],
        schema: SchemaHandle { slot: 7 },
    };
    let topology = JobTopology {
        stages: vec![
            StageTopology { consumers: vec![1] },
            StageTopology { consumers: vec![2] },
            StageTopology { consumers: vec![] },
        ],
        regions: vec![
            TaskRegionTopology { tasks: tasks(0, 1), dependencies: vec![] },
            TaskRegionTopology { tasks: tasks(1, 1), dependencies: vec![0] },
            TaskRegionTopology { tasks: tasks(2, 1), dependencies: vec![1] },
        ],
    };
    let (mut scheduler, id) = scheduler_with((graph, topology), options());
    let none = Measurements::empty(id);
    let attempts = |scheduler: &JobScheduler| -> Vec<usize> {
        scheduler.job(id).unwrap().stages.iter().map(|s| s.tasks[0].attempts.len()).collect()
    };

    scheduler.refresh_job_at(id, &none, at(1));
    assert_eq!(attempts(&scheduler), vec![1, 0, 0]);
    // a failed region is tried again, and what depends on it goes on waiting
    report(&mut scheduler, id, (0, 0, 0), TaskState::Failed);
    scheduler.refresh_job_at(id, &none, at(2));
    assert_eq!(attempts(&scheduler), vec![2, 0, 0]);
    report(&mut scheduler, id, (0, 0, 1), TaskState::Succeeded);
    scheduler.refresh_job_at(id, &none, at(3));
    assert_eq!(attempts(&scheduler), vec![2, 1, 0]);
    report(&mut scheduler, id, (1, 0, 0), TaskState::Succeeded);
    scheduler.refresh_job_at(id, &none, at(4));
    assert_eq!(attempts(&scheduler), vec![2, 1, 1]);

    // the last region decides about the job
    assert!(matches!(scheduler.job(id).unwrap().state, JobState::Running { .. }));
    report(&mut scheduler, id, (2, 0, 0), TaskState::Succeeded);
    scheduler.refresh_job_at(id, &none, at(5));
    assert!(matches!(scheduler.job(id).unwrap().state, JobState::Draining));
}

#[test]
fn the_task_that_fails_most_often_explains_a_failure() {
    let mut job = read_job(InputMode::Forward, TaskPlacement::Worker);
    let failed = |cause: Option<&str>| TaskAttemptDescriptor {
        state: TaskState::Failed,
        messages: vec![],
        cause: cause.map(|c| ErrorCause::Reported(c.to_string())),
        job_output_fetched: false,
        created_at: at(0),
        stopped_at: None,
    };
    let text = |job: &JobDescriptor| match JobScheduler::infer_job_failure_cause(job) {
        ErrorCause::Reported(m) => m,
        ErrorCause::Internal(m) => format!("internal: {m}"),
    };
    assert_eq!(text(&job), "internal: job failed for unknown reason");

    // failures without a cause do not count
    job.stages[0].tasks[0].attempts = vec![failed(None), failed(None), failed(Some("a"))];
    job.stages[0].tasks[1].attempts = vec![failed(Some("b")), failed(Some("c"))];
    assert_eq!(text(&job), "c");
    // of two tasks that fail as often, the first one counts
    job.stages[1].tasks[0].attempts = vec![failed(Some("d")), failed(Some("e"))];
    assert_eq!(text(&job), "c");
    job.stages[1].tasks[0].attempts.push(failed(Some("f")));
    assert_eq!(text(&job), "f");
    // a cause of an attempt that has not failed does not count
    let mut canceled = failed(Some("g"));
    canceled.state = TaskState::Canceled;
    job.stages[1].tasks[0].attempts.push(canceled);
    assert_eq!(text(&job), "f");
}

#[test]
fn stages_of_a_group_share_task_sets() {
    let mut wide = stage(vec![], 4, OutputMode::Pipelined, 1);
    let mut narrow = stage(vec![input(0, InputMode::Merge)], 2, OutputMode::Pipelined, 1);
    let mut other = stage(vec![input(1, InputMode::Merge)], 1, OutputMode::Pipelined, 1);
    wide.group = "a".to_string();
    narrow.group = "a".to_string();
    other.group = "a".to_string();
    other.placement = TaskPlacement::Driver;
    let graph = JobGraph { stages: vec![wide, narrow, other], schema: SchemaHandle { slot: 0 } };
    let mut region = vec![];
    region.extend(tasks(1, 2));
    region.extend(tasks(2, 1));
    region.extend(tasks(0, 4));
    let topology = JobTopology {
        stages: vec![
            StageTopology { consumers: vec![1] },
            StageTopology { consumers: vec![2] },
            StageTopology { consumers: vec![] },
        ],
        regions: vec![TaskRegionTopology { tasks: region, dependencies: vec![] }],
    };
    let (mut scheduler, id) = scheduler_with((graph, topology), options().with_adaptive_enabled(false));
    let actions = scheduler.refresh_job_at(id, &Measurements::empty(id), at(1));
    assert_eq!(actions.len(), 1);
    assert_eq!(
        sets(&actions[0]),
        vec![
            (TaskPlacement::Worker, vec![(1, 0, 0), (0, 0, 0)]),
            (TaskPlacement::Worker, vec![(0, 1, 0)]),
            (TaskPlacement::Worker, vec![(1, 1, 0), (0, 2, 0)]),
            (TaskPlacement::Worker, vec![(0, 3, 0)]),
            (TaskPlacement::Driver, vec![(2, 0, 0)]),
        ]
    );
}

#[test]
fn reports_show_in_the_state_of_their_task_alone() {
    let (mut scheduler, id) = scheduler_with(shuffle_job(2), options());
    scheduler.refresh_job_at(id, &Measurements::empty(id), at(1));
    let key = TaskKey { job_id: id, stage: 0, partition: 0, attempt: 0 };
    let other = TaskKey { job_id: id, stage: 0, partition: 1, attempt: 0 };
    assert_eq!(scheduler.get_task_state(&key), Some(TaskState::Created));
    report(&mut scheduler, id, (0, 0, 0), TaskState::Running);
    assert_eq!(scheduler.get_task_state(&key), Some(TaskState::Running));
    // a late report does not take the task back
    report(&mut scheduler, id, (0, 0, 0), TaskState::Scheduled);
    assert_eq!(scheduler.get_task_state(&key), Some(TaskState::Running));
    report(&mut scheduler, id, (0, 0, 0), TaskState::Canceled);
    report(&mut scheduler, id, (0, 0, 0), TaskState::Succeeded);
    assert_eq!(scheduler.get_task_state(&key), Some(TaskState::Canceled));
    assert_eq!(scheduler.job(id).unwrap().stages[0].tasks[0].attempts[0].stopped_at, Some(at(5)));
    assert_eq!(scheduler.get_task_state(&other), Some(TaskState::Created));

    for missing in [
        TaskKey { job_id: JobId::from(99), ..key },
        TaskKey { stage: 5, ..key },
        TaskKey { partition: 5, ..key },
        TaskKey { attempt: 1, ..key },
    ] {
        assert_eq!(scheduler.get_task_state(&missing), None);
        scheduler.update_task_at(&missing, TaskState::Failed, None, None, at(6));
        assert_eq!(scheduler.get_task_state(&missing), None);
    }
    assert_eq!(scheduler.get_task_state(&key), Some(TaskState::Canceled));
}

#[test]
fn the_clock_tells_when_things_happen() {
    let mut scheduler = JobScheduler::new(options());
    let id = scheduler
        .accept_job(Ok(shuffle_job(2)), JobOutputHandle { slot: 0 }, TaskContextHandle { slot: 0 })
        .unwrap();
    let none = Measurements::empty(id);
    // some time in this century
    let recent = |t: Timestamp| t.seconds > 1_600_000_000 && t.seconds < 4_200_000_000;
    assert!(recent(scheduler.job(id).unwrap().created_at));
    assert_eq!(scheduler.refresh_job(id, &none).len(), 1);
    let key = TaskKey { job_id: id, stage: 0, partition: 0, attempt: 0 };
    scheduler.update_task(&key, TaskState::Succeeded, None, None);
    let attempt = &scheduler.job(id).unwrap().stages[0].tasks[0].attempts[0];
    assert!(recent(attempt.created_at));
    assert!(recent(attempt.stopped_at.unwrap()));
    assert_eq!(scheduler.clean_up_job(id).len(), 2);
    assert!(recent(scheduler.job(id).unwrap().stopped_at.unwrap()));
    scheduler.stop();
    let attempt = &scheduler.job(id).unwrap().stages[0].tasks[1].attempts[0];
    assert_eq!(attempt.state, TaskState::Canceled);
    assert!(recent(attempt.stopped_at.unwrap()));
}

#[test]
fn cleaning_up_cancels_what_is_live() {
    let (mut scheduler, id) = scheduler_with(shuffle_job(2), options());
    scheduler.refresh_job_at(id, &Measurements::empty(id), at(1));
    report(&mut scheduler, id, (0, 0, 0), TaskState::Succeeded);
    let actions = scheduler.clean_up_job_at(id, at(2));
    assert_eq!(actions.len(), 2);
    assert!(matches!(&actions[0], JobAction::CancelTask { key } if key.partition == 1));
    assert!(matches!(&actions[1], JobAction::CleanUpJob { job_id, stage: None } if *job_id == id));
    assert!(matches!(scheduler.job(id).unwrap().state, JobState::Canceled));
    assert!(scheduler.clean_up_job_at(JobId::from(99), at(3)).is_empty());
    assert!(scheduler.refresh_job_at(JobId::from(99), &Measurements::empty(id), at(3)).is_empty());
}

#[test]
fn stopping_leaves_nothing_open() {
    let (mut scheduler, id) = scheduler_with(shuffle_job(2), options());
    let second = scheduler
        .accept_job_at(
            Ok(shuffle_job(1)),
            JobOutputHandle { slot: 1 },
            TaskContextHandle { slot: 1 },
            at(0),
        )
        .unwrap();
    scheduler.refresh_job_at(id, &Measurements::empty(id), at(1));
    scheduler.clean_up_job_at(second, at(2));
    scheduler.stop_at(at(3));
    for (job, stopped) in [(id, at(3)), (second, at(2))] {
        let job = scheduler.job(job).unwrap();
        assert!(matches!(job.state, JobState::Canceled));
        assert_eq!(job.stopped_at, Some(stopped));
        for stage in &job.stages {
            assert_eq!(stage.state, StageState::Inactive);
            assert_eq!(stage.stopped_at, Some(stopped));
            for task in &stage.tasks {
                for attempt in &task.attempts {
                    assert_eq!(attempt.state, TaskState::Canceled);
                    assert_eq!(attempt.stopped_at, Some(at(3)));
                }
            }
        }
    }
    // stopping again changes nothing
    scheduler.stop_at(at(4));
    assert_eq!(scheduler.job(id).unwrap().stopped_at, Some(at(3)));
}

#[test]
fn identifiers_are_used_up_by_refused_jobs_too() {
    let mut scheduler = JobScheduler::new(options());
    let output = JobOutputHandle { slot: 0 };
    let context = TaskContextHandle { slot: 0 };
    let e = scheduler
        .accept_job_at(Err(ExecutionError::InvalidArgument("no plan".to_string())), output, context, at(0))
        .unwrap_err();
    assert_eq!(message(e), "invalid: no plan");

    let (graph, mut topology) = shuffle_job(1);
    topology.regions[1].dependencies = vec![2];
    assert!(matches!(
        scheduler.accept_job_at(Ok((graph, topology)), output, context, at(0)),
        Err(ExecutionError::InternalError(_))
    ));

    let id = scheduler.accept_job_at(Ok(shuffle_job(1)), output, context, at(0)).unwrap();
    assert_eq!(id, JobId::from(3));
    assert_eq!(scheduler.next_job_id().unwrap(), JobId::from(4));
    assert!(matches!(
        scheduler.job(id).unwrap().state,
        JobState::Running { output: o, context: c } if o == output && c == context
    ));
    assert!(scheduler.job(JobId::from(1)).is_none());
}

#[test]
fn jobs_that_do_not_fit_together_are_refused() {
    let refused = |change: &dyn Fn(&mut JobGraph, &mut JobTopology)| {
        let (mut graph, mut topology) = shuffle_job(1);
        change(&mut graph, &mut topology);
        JobDescriptor::try_new(graph, topology, JobState::Draining, at(0)).is_err()
    };
    assert!(!refused(&|_, _| {}));
    assert!(refused(&|_, t| t.stages.push(StageTopology { consumers: vec![] })));
    assert!(refused(&|g, _| g.stages[1].inputs[0].stage = 2));
    assert!(refused(&|_, t| t.stages[0].consumers = vec![2]));
    assert!(refused(&|_, t| t.regions[1].tasks = tasks(2, 1)));
    assert!(refused(&|_, t| t.regions[1].tasks = tasks(1, 5)));
    // a stage may lie in several regions
    assert!(!refused(&|_, t| t.regions[0].tasks.push(TaskTopology { stage: 1, partition: 0 })));
    assert!(!refused(&|_, t| t.regions[1].tasks.push(TaskTopology { stage: 0, partition: 0 })));
}

fn encoded() -> EncodedStage {
    EncodedStage { plan: Ok(vec![1, 2, 3]), hash_keys: Ok(vec![vec![4], vec![5, 6]]) }
}

#[test]
fn task_definitions_hold_plan_inputs_and_output() {
    let (mut graph, topology) = shuffle_job(1);
    graph.stages[1].distribution = OutputDistribution::Hash { keys: vec![8, 9], channels: 3 };
    graph.stages[1].replicas = 2;
    let (mut scheduler, id) = scheduler_with((graph, topology), options());
    scheduler.refresh_job_at(id, &Measurements::empty(id), at(1));
    let assignments = placed(id, 0, vec![(0, 0, worker(5))]);

    let key = TaskKey { job_id: id, stage: 0, partition: 0, attempt: 0 };
    let (definition, context) = scheduler.get_task_definition(&key, &assignments, encoded()).unwrap();
    assert_eq!(context, TaskContextHandle { slot: 22 });
    assert_eq!(definition.plan, vec![1, 2, 3]);
    assert!(definition.inputs.is_empty());
    assert_eq!(definition.output.locator, TaskOutputLocator::LocalDisk);
    assert!(matches!(definition.output.distribution, TaskOutputDistribution::RoundRobin { channels: 4 }));

    let key = TaskKey { stage: 1, ..key };
    let (definition, _) = scheduler.get_task_definition(&key, &assignments, encoded()).unwrap();
    assert_eq!(definition.inputs.len(), 1);
    assert_eq!(definition.output.locator, TaskOutputLocator::Local { replicas: 2 });
    match definition.output.distribution {
        TaskOutputDistribution::Hash { keys, channels } => {
            assert_eq!(keys, vec![vec![4], vec![5, 6]]);
            assert_eq!(channels, 3);
        }
        _ => panic!("expected a hash distribution"),
    }
}

#[test]
fn task_definitions_that_cannot_be_given() {
    let (mut graph, topology) = shuffle_job(1);
    graph.stages[1].distribution = OutputDistribution::Hash { keys: vec![8], channels: 3 };
    let (mut scheduler, id) = scheduler_with((graph, topology), options());
    scheduler.refresh_job_at(id, &Measurements::empty(id), at(1));
    let key = TaskKey { job_id: id, stage: 1, partition: 0, attempt: 0 };
    let unplaced = placed(id, 0, vec![]);
    let assignments = placed(id, 0, vec![(0, 0, worker(5))]);
    let no_plan = EncodedStage { plan: Err("plan".to_string()), hash_keys: Err("keys".to_string()) };
    let no_keys = || EncodedStage { plan: Ok(vec![]), hash_keys: Err("keys".to_string()) };

    let fail = |key: &TaskKey, assignments: &TaskAssignments, encoded: EncodedStage| {
        message(scheduler.get_task_definition(key, assignments, encoded).err().unwrap())
    };
    let missing = TaskKey { job_id: JobId::from(77), ..key };
    assert_eq!(fail(&missing, &assignments, encoded()), "invalid: job 77 not found");
    let missing = TaskKey { stage: 2, ..key };
    assert_eq!(fail(&missing, &assignments, encoded()), "invalid: stage 2 not found in job 1");
    assert_eq!(fail(&key, &unplaced, no_plan), "datafusion: plan");
    assert_eq!(
        fail(&key, &unplaced, no_keys()),
        "internal: job 1 input stage 0 partition 0 attempt 0 is not assigned to worker"
    );
    assert_eq!(fail(&key, &assignments, no_keys()), "datafusion: keys");

    // the keys matter only for a hash distribution
    let first = TaskKey { stage: 0, ..key };
    assert!(scheduler.get_task_definition(&first, &assignments, no_keys()).is_ok());

    scheduler.clean_up_job_at(id, at(2));
    let e = scheduler.get_task_definition(&key, &assignments, encoded()).err().unwrap();
    assert_eq!(message(e), "invalid: job 1 is not running");
}

#[test]
fn options_have_defaults_and_can_be_replaced() {
    let options = options();
    assert_eq!(options.task_launch_timeout(), TimeSpan { seconds: 60, nanoseconds: 0 });
    assert_eq!(options.task_max_attempts(), 3);
    assert_eq!(options.shuffle_mode(), OutputMode::Pipelined);
    assert_eq!(options.shuffle_dir(), &PathBuf::from("/shuffle"));
    assert!(options.adaptive_enabled());
    assert_eq!(options.target_partition_size(), 64 * 1024 * 1024);
    assert_eq!(options.min_partition_size(), 1024 * 1024);
    assert_eq!(options.min_skew_threshold(), 128 * 1024 * 1024);

    let options = options
        .with_shuffle_mode(OutputMode::Blocking)
        .with_shuffle_dir(PathBuf::from("/other"))
        .with_adaptive_enabled(false)
        .with_target_partition_size(1)
        .with_min_partition_size(2)
        .with_min_skew_threshold(3);
    assert_eq!(options.shuffle_mode(), OutputMode::Blocking);
    assert_eq!(options.shuffle_dir(), &PathBuf::from("/other"));
    assert!(!options.adaptive_enabled());
    assert_eq!(options.target_partition_size(), 1);
    assert_eq!(options.min_partition_size(), 2);
    assert_eq!(options.min_skew_threshold(), 3);
    assert_eq!(options.task_max_attempts(), 3);

    let copy = options.clone();
    assert_eq!(copy.shuffle_dir(), &PathBuf::from("/other"));
    assert_eq!(copy.target_partition_size(), 1);
}

#[test]
fn the_options_of_a_driver_are_the_default_ones_but_for_two() {
    let driver = JobSchedulerOptions::from(&driver_options());
    let default = options();
    assert_eq!(driver.task_launch_timeout(), TimeSpan { seconds: 7, nanoseconds: 8 });
    assert_eq!(driver.task_max_attempts(), 9);
    assert_eq!(driver.shuffle_mode(), default.shuffle_mode());
    assert_eq!(driver.shuffle_dir(), default.shuffle_dir());
    assert_eq!(driver.adaptive_enabled(), default.adaptive_enabled());
    assert_eq!(driver.target_partition_size(), default.target_partition_size());
    assert_eq!(driver.min_partition_size(), default.min_partition_size());
    assert_eq!(driver.min_skew_threshold(), default.min_skew_threshold());
    assert_eq!(driver.target_partition_size(), 64 * 1024 * 1024);
}

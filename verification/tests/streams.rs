use std::path::PathBuf;

use sail_execution::adaptive::StageShuffleStats;
use sail_execution::clock::TimeSpan;
use sail_execution::error::ExecutionError;
use sail_execution::id::JobId;
use sail_execution::node::{DriverOptions, WorkerOptions};
use sail_execution::shuffle_index::{PartitionIndex, ShuffleIndex, StageIndex};
use sail_execution::stream::disk::{DiskStream, DiskWriteStep};
use sail_execution::stream::item::TaskStreamSinkState;
use sail_execution::stream::channel::SendOutcome;
use sail_execution::stream::memory::{MemoryStream, Replica};
use sail_execution::stream::options::StreamManagerOptions;
use sail_execution::stream::LocalStream;

use tokio::sync::mpsc;

fn drain<T>(rx: &mut mpsc::Receiver<T>) -> Vec<T> {
    let mut items = vec![];
    while let Ok(item) = rx.try_recv() {
        items.push(item);
    }
    items
}

#[test]
fn every_replica_gets_every_item_in_order() {
    let (tx, mut given) = mpsc::channel(8);
    let mut stream: MemoryStream<u32> = MemoryStream::new(4, 3, vec![tx]);
    let mut sink = stream.publish().unwrap();
    let mut first = stream.subscribe().unwrap();
    let mut second = stream.subscribe().unwrap();
    for i in 0..3 {
        assert!(matches!(sink.write(i), TaskStreamSinkState::Open));
    }
    assert_eq!(drain(&mut given), vec![0, 1, 2]);
    assert_eq!(drain(&mut first), vec![0, 1, 2]);
    assert_eq!(drain(&mut second), vec![0, 1, 2]);
}

#[test]
fn items_without_room_wait_in_order() {
    let mut stream: MemoryStream<u32> = MemoryStream::new(2, 1, vec![]);
    let mut sink = stream.publish().unwrap();
    let mut rx = stream.subscribe().unwrap();
    for i in 0..5 {
        assert!(matches!(sink.write(i), TaskStreamSinkState::Open));
    }
    // the channel holds two, three are waiting
    assert_eq!(rx.try_recv().unwrap(), 0);
    assert!(matches!(sink.write(5), TaskStreamSinkState::Open));
    assert_eq!(drain(&mut rx), vec![1, 2]);
    assert!(matches!(sink.write(6), TaskStreamSinkState::Open));
    assert_eq!(drain(&mut rx), vec![3, 4]);

    // what is still waiting is passed on when the stream ends
    let mut closing = sink.close();
    let mut passed = vec![];
    while let Some((replica, item)) = closing.next() {
        assert_eq!(replica, 0);
        let sent = closing.sender().unwrap().try_send(item).is_ok();
        closing.settle(sent);
        passed.extend(drain(&mut rx));
    }
    assert_eq!(passed, vec![5, 6]);
}

#[test]
fn a_replica_without_receiver_is_left_out() {
    let mut stream: MemoryStream<u32> = MemoryStream::new(1, 2, vec![]);
    let mut sink = stream.publish().unwrap();
    let mut last = stream.subscribe().unwrap();
    let first = stream.subscribe().unwrap();
    assert!(matches!(sink.write(0), TaskStreamSinkState::Open));
    assert!(matches!(sink.write(1), TaskStreamSinkState::Open));
    drop(first);
    assert!(matches!(sink.write(2), TaskStreamSinkState::Open));
    assert_eq!(drain(&mut last), vec![0]);

    // only the replica that is left has items to pass on
    let mut closing = sink.close();
    let (replica, item) = closing.next().unwrap();
    assert_eq!((replica, item), (1, 1));
    drop(last);
    let sent = closing.sender().unwrap().try_send(item).is_ok();
    assert!(!sent);
    closing.settle(sent);
    assert!(closing.next().is_none());
}

#[test]
fn a_sink_without_receivers_is_closed() {
    let mut stream: MemoryStream<u32> = MemoryStream::new(1, 1, vec![]);
    let mut sink = stream.publish().unwrap();
    drop(stream.subscribe().unwrap());
    assert!(matches!(sink.write(0), TaskStreamSinkState::Closed));
    assert!(matches!(sink.write(1), TaskStreamSinkState::Closed));

    let mut nothing: MemoryStream<u32> = MemoryStream::new(0, 0, vec![]);
    assert!(matches!(nothing.publish().unwrap().write(0), TaskStreamSinkState::Closed));
}

#[test]
fn receivers_are_handed_out_from_the_last_one_on() {
    let mut stream: MemoryStream<u32> = MemoryStream::new(1, 2, vec![]);
    let mut sink = stream.publish().unwrap();
    // only the receiver of the first replica is left when the second one is dropped
    drop(stream.subscribe().unwrap());
    let mut rx = stream.subscribe().unwrap();
    sink.write(7);
    sink.write(8);
    assert_eq!(drain(&mut rx), vec![7]);
    let mut closing = sink.close();
    assert_eq!(closing.next().unwrap(), (0, 8));
}

#[test]
fn memory_streams_are_written_once_and_read_once_per_replica() {
    let mut stream: MemoryStream<u32> = MemoryStream::new(1, 1, vec![]);
    assert!(stream.publish().is_ok());
    match stream.publish() {
        Err(ExecutionError::InternalError(m)) => assert_eq!(m, "memory stream can only be written once"),
        _ => panic!("expected an error"),
    }
    assert!(stream.subscribe().is_ok());
    match stream.subscribe() {
        Err(ExecutionError::InternalError(m)) => assert_eq!(m, "memory stream has exhausted all replica(s)"),
        _ => panic!("expected an error"),
    }
}

#[test]
fn given_senders_count_as_replicas() {
    let (tx, mut given) = mpsc::channel(1);
    let (other, _rest) = mpsc::channel(1);
    let mut stream: MemoryStream<u32> = MemoryStream::new(0, 1, vec![tx, other]);
    assert!(stream.subscribe().is_err());
    stream.publish().unwrap().write(3);
    assert_eq!(drain(&mut given), vec![3]);
}

#[test]
fn answers_of_a_channel_are_settled_one_by_one() {
    let (tx, _rx) = mpsc::channel::<u32>(1);
    let mut replica = Replica::new(tx);
    assert!(replica.settle_waiting(SendOutcome::Sent));
    assert!(!replica.settle_waiting(SendOutcome::Full(1)));
    assert!(replica.is_open());
    replica.settle_new(SendOutcome::Full(2));
    assert!(replica.is_open());
    replica.settle_new(SendOutcome::Closed(3));
    assert!(!replica.is_open());

    let (tx, _rx) = mpsc::channel::<u32>(1);
    let mut replica = Replica::new(tx);
    assert!(!replica.settle_waiting(SendOutcome::Closed(1)));
    assert!(!replica.is_open());
}

#[test]
fn disk_streams_are_written_once_and_read_any_number_of_times() {
    let mut stream = DiskStream::new(PathBuf::from("/shuffle/1/0/shuffle_0_0_0.data"));
    assert_eq!(stream.file_path(), &PathBuf::from("/shuffle/1/0/shuffle_0_0_0.data"));
    assert!(stream.subscribe().is_ok());
    assert!(stream.publish().is_ok());
    match stream.publish() {
        Err(ExecutionError::InternalError(m)) => assert_eq!(m, "disk stream can only be written once"),
        _ => panic!("expected an error"),
    }
    assert!(stream.subscribe().is_ok());
    assert!(stream.subscribe().is_ok());
}

#[test]
fn a_disk_stream_is_started_with_its_first_batch() {
    let mut stream = DiskStream::new(PathBuf::from("x"));
    let mut writer = stream.publish().unwrap();
    match writer.write(Some("broken".to_string())) {
        DiskWriteStep::Done(TaskStreamSinkState::Error(m)) => assert_eq!(m, "broken"),
        _ => panic!("expected an error"),
    }
    assert!(matches!(writer.write(None), DiskWriteStep::Start));
    assert!(matches!(writer.started(Ok(())), DiskWriteStep::Write));
    assert!(matches!(writer.written(Ok(()), 100, 7), TaskStreamSinkState::Open));
    assert!(matches!(writer.write(None), DiskWriteStep::Write));
    match writer.written(Err("disk full".to_string()), 50, 3) {
        TaskStreamSinkState::Error(m) => assert_eq!(m, "disk full"),
        _ => panic!("expected an error"),
    }
    // what could not be written does not count
    assert_eq!(writer.close(), Some("100\n7\n".to_string()));
}

#[test]
fn the_index_of_a_disk_stream_is_read_back() {
    let mut partitions = vec![];
    for sizes in [[(100, 1), (20, 2)], [(1000, 10), (0, 0)]] {
        let mut stream = DiskStream::new(PathBuf::from("x"));
        let mut writer = stream.publish().unwrap();
        assert!(matches!(writer.write(None), DiskWriteStep::Start));
        assert!(matches!(writer.started(Ok(())), DiskWriteStep::Write));
        for (bytes, records) in sizes {
            assert!(matches!(writer.written(Ok(()), bytes, records), TaskStreamSinkState::Open));
        }
        partitions.push(PartitionIndex { attempt: 0, channels: vec![writer.close()] });
    }
    let job_id = JobId::from(1);
    let index = ShuffleIndex::try_new(job_id, vec![StageIndex { stage: 3, partitions }]).unwrap();
    let stats = StageShuffleStats::from_disk(&index, job_id, 3, 2, 1, &vec![0, 0]);
    assert_eq!(stats.channel_bytes, vec![1120]);
    assert_eq!(stats.channel_records, vec![13]);
}

#[test]
fn a_disk_stream_that_cannot_be_counted_is_given_up() {
    let mut stream = DiskStream::new(PathBuf::from("x"));
    let mut writer = stream.publish().unwrap();
    writer.write(None);
    writer.started(Ok(()));
    assert!(matches!(writer.written(Ok(()), u64::MAX, 1), TaskStreamSinkState::Open));
    match writer.written(Ok(()), 1, 1) {
        TaskStreamSinkState::Error(m) => assert_eq!(m, "disk stream has too much data to be counted"),
        _ => panic!("expected an error"),
    }
    assert!(matches!(writer.write(None), DiskWriteStep::Done(TaskStreamSinkState::Closed)));
    assert_eq!(writer.close(), None);
}

#[test]
fn a_disk_stream_that_cannot_be_started_is_closed() {
    let mut stream = DiskStream::new(PathBuf::from("x"));
    let mut writer = stream.publish().unwrap();
    assert!(matches!(writer.write(None), DiskWriteStep::Start));
    match writer.started(Err("no schema".to_string())) {
        DiskWriteStep::Done(TaskStreamSinkState::Error(m)) => assert_eq!(m, "no schema"),
        _ => panic!("expected an error"),
    }
    assert!(matches!(writer.write(None), DiskWriteStep::Done(TaskStreamSinkState::Closed)));
    assert_eq!(writer.close(), None);

    let mut stream = DiskStream::new(PathBuf::from("x"));
    assert_eq!(stream.publish().unwrap().close(), None);
}

#[test]
fn stream_options_have_defaults() {
    let options = StreamManagerOptions::with_defaults(PathBuf::from("/shuffle"));
    assert_eq!(options.task_stream_buffer(), 16);
    assert_eq!(options.task_stream_creation_timeout(), TimeSpan { seconds: 60, nanoseconds: 0 });
    assert_eq!(options.shuffle_dir(), &PathBuf::from("/shuffle"));

    let options = StreamManagerOptions::from(&WorkerOptions {
        task_stream_buffer: 4,
        task_stream_creation_timeout: TimeSpan { seconds: 1, nanoseconds: 5 },
        shuffle_dir: PathBuf::from("/other"),
    });
    assert_eq!(options.task_stream_buffer(), 4);
    assert_eq!(options.task_stream_creation_timeout(), TimeSpan { seconds: 1, nanoseconds: 5 });
    assert_eq!(options.shuffle_dir(), &PathBuf::from("/other"));

    let options = StreamManagerOptions::from(&DriverOptions {
        task_launch_timeout: TimeSpan { seconds: 2, nanoseconds: 0 },
        task_max_attempts: 7,
        task_stream_buffer: 5,
        task_stream_creation_timeout: TimeSpan { seconds: 3, nanoseconds: 6 },
        shuffle_dir: PathBuf::from("/third"),
    });
    assert_eq!(options.task_stream_buffer(), 5);
    assert_eq!(options.task_stream_creation_timeout(), TimeSpan { seconds: 3, nanoseconds: 6 });
    assert_eq!(options.shuffle_dir(), &PathBuf::from("/third"));
}

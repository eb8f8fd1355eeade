use std::ops::Range;

use sail_execution::adaptive::{
    coalesce_shuffle_partitions, singleton_ranges, split_skew_partition, StageShuffleStats,
};
use sail_execution::id::JobId;
use sail_execution::shuffle_index::{
    is_countable, make_index_file_name, parse_index_entry, PartitionIndex, ShuffleIndex, StageIndex,
};

#[test]
fn test_coalesce_empty() {
    assert_eq!(coalesce_shuffle_partitions(&[], 100), Vec::<Range<usize>>::new());
}

#[test]
fn test_coalesce_target_zero() {
    let sizes = vec![10, 20, 30];
    assert_eq!(
        coalesce_shuffle_partitions(&sizes, 0),
        vec![0..1, 1..2, 2..3]
    );
}

#[test]
fn test_coalesce_all_small_partitions() {
    // 5 small channels coalesced into a single partition
    let sizes = vec![10, 10, 10, 10, 10];
    assert_eq!(
        coalesce_shuffle_partitions(&sizes, 100),
        vec![0..5]
    );
}

#[test]
fn test_coalesce_balanced_partitions() {
    let sizes = vec![20, 25, 30, 15, 45, 10];
    // Target: 50
    // [20, 25] -> 45 <= 50 (range 0..2)
    // [30, 15] -> 45 <= 50 (range 2..4)
    // [45] -> 45 <= 50 (range 4..5)
    // [10] -> 10 <= 50 (range 5..6)
    assert_eq!(
        coalesce_shuffle_partitions(&sizes, 50),
        vec![0..2, 2..4, 4..5, 5..6]
    );
}

#[test]
fn test_coalesce_skewed_partition() {
    let sizes = vec![5, 5, 200, 10, 10];
    // Target: 50
    // 0..2 (10 <= 50)
    // 2..3 (200 > 50)
    // 3..5 (20 <= 50)
    assert_eq!(
        coalesce_shuffle_partitions(&sizes, 50),
        vec![0..2, 2..3, 3..5]
    );
}

#[test]
fn coalescing_joins_empty_channels_to_a_large_one() {
    // a group without data takes in any channel
    assert_eq!(
        coalesce_shuffle_partitions(&[0, 0, 300, 0, 1], 50),
        vec![0..3, 3..5]
    );
}

#[test]
fn coalescing_survives_sizes_that_do_not_add_up() {
    assert_eq!(
        coalesce_shuffle_partitions(&[u64::MAX, u64::MAX, 1], u64::MAX),
        vec![0..1, 1..2, 2..3]
    );
}

#[test]
fn singleton_ranges_hold_one_channel_each() {
    assert_eq!(singleton_ranges(3), vec![0..1, 1..2, 2..3]);
    assert!(singleton_ranges(0).is_empty());
}

fn files(partition_contents: Vec<Vec<Option<&str>>>) -> Vec<PartitionIndex> {
    let mut partitions = vec![];
    for contents in partition_contents {
        partitions.push(PartitionIndex {
            attempt: 0,
            channels: contents.into_iter().map(|c| c.map(|c| c.to_string())).collect(),
        });
    }
    partitions
}

#[test]
fn test_from_disk_stats() {
    let index = ShuffleIndex::try_new(
        JobId::from(1),
        vec![StageIndex {
            stage: 0,
            partitions: files(vec![
                vec![Some("100\n10\n"), Some("200\n20\n")],
                vec![Some("300\n30\n"), Some("400\n40\n")],
            ]),
        }],
    )
    .unwrap();

    let stats = StageShuffleStats::from_disk(&index, JobId::from(1), 0, 2, 2, &vec![0, 0]);

    assert_eq!(stats.channel_bytes, vec![400, 600]);
    assert_eq!(stats.channel_records, vec![40, 60]);
    assert_eq!(stats.total_bytes, 1000);
    assert_eq!(stats.total_records, 100);

    let coalesced = stats.coalesce(1500);
    assert_eq!(coalesced, vec![0..2]);
}

#[test]
fn sizes_are_summed_over_all_tasks() {
    let partitions = files(vec![
        vec![Some("100\n1\n"), Some("200\n1\n"), Some("300\n1\n"), Some("400\n1\n")],
        vec![Some("50\n1\n"), Some("150\n1\n"), Some("250\n1\n"), Some("350\n1\n")],
    ]);
    let index = ShuffleIndex::try_new(JobId::from(1), vec![StageIndex { stage: 0, partitions }]).unwrap();
    let stats = StageShuffleStats::from_disk(&index, JobId::from(1), 0, 2, 4, &vec![0, 0]);
    assert_eq!(stats.channel_bytes, vec![150, 350, 550, 750]);
    assert_eq!(stats.total_bytes, 1800);
}

#[test]
fn statistics_leave_out_what_cannot_be_read() {
    let index = ShuffleIndex::try_new(
        JobId::from(1),
        vec![StageIndex {
            stage: 3,
            partitions: files(vec![
                vec![Some("100\n10\n"), None, Some("7\n")],
                vec![Some("x\n1\n"), Some("5\r\n6"), Some("8\n9\nmore")],
            ]),
        }],
    )
    .unwrap();

    let stats = StageShuffleStats::from_disk(&index, JobId::from(1), 3, 2, 3, &vec![0, 0]);
    assert_eq!(stats.channel_bytes, vec![100, 5, 8]);
    assert_eq!(stats.channel_records, vec![10, 6, 9]);

    // another attempt, another job, another stage
    for stats in [
        StageShuffleStats::from_disk(&index, JobId::from(1), 3, 2, 3, &vec![1, 1]),
        StageShuffleStats::from_disk(&index, JobId::from(2), 3, 2, 3, &vec![0, 0]),
        StageShuffleStats::from_disk(&index, JobId::from(1), 2, 2, 3, &vec![0, 0]),
    ] {
        assert_eq!(stats.channel_bytes, vec![0, 0, 0]);
        assert_eq!(stats.total_bytes, 0);
    }

    // fewer partitions than attempts
    let stats = StageShuffleStats::from_disk(&index, JobId::from(1), 3, 1, 3, &vec![0, 0]);
    assert_eq!(stats.total_bytes, 100);
}

#[test]
fn an_index_that_cannot_be_counted_is_refused() {
    let max = format!("{}\n1\n", u64::MAX);
    let partitions = files(vec![vec![Some(max.as_str())], vec![Some("1\n1\n")]]);
    assert!(!is_countable(&partitions));
    assert!(ShuffleIndex::try_new(JobId::from(1), vec![StageIndex { stage: 0, partitions }]).is_none());

    let partitions = files(vec![vec![Some(max.as_str())]]);
    assert!(is_countable(&partitions));
    assert!(ShuffleIndex::try_new(JobId::from(1), vec![StageIndex { stage: 0, partitions }]).is_some());
}

#[test]
fn index_entries_are_two_numbers() {
    assert_eq!(parse_index_entry("100\n10\n"), Some((100, 10)));
    assert_eq!(parse_index_entry("+1\n+2"), Some((1, 2)));
    assert_eq!(parse_index_entry(&format!("{}\n{}", u64::MAX, usize::MAX)), Some((u64::MAX, usize::MAX)));
    assert_eq!(parse_index_entry("18446744073709551616\n1"), None);
    assert_eq!(parse_index_entry("-1\n1"), None);
    assert_eq!(parse_index_entry("1 \n1"), None);
    assert_eq!(parse_index_entry("1"), None);
    assert_eq!(parse_index_entry("1\n"), None);
    assert_eq!(parse_index_entry(""), None);
    assert_eq!(parse_index_entry("\n1"), None);
}

#[test]
fn index_files_are_named_after_partition_attempt_and_channel() {
    assert_eq!(make_index_file_name(0, 0, 1), "shuffle_0_0_1.index");
    assert_eq!(make_index_file_name(12, 3, 405), "shuffle_12_3_405.index");
    assert_ne!(make_index_file_name(1, 11, 1), make_index_file_name(11, 1, 1));
}

/// Marks the channels whose size exceeds the median by a factor.
fn above(stats: &StageShuffleStats, skew_factor: f64) -> Vec<bool> {
    let median = stats.median_channel_bytes().unwrap_or(0);
    let threshold = median as f64 * skew_factor;
    stats.channel_bytes.iter().map(|b| *b as f64 > threshold).collect()
}

#[test]
fn test_detect_skew_partitions() {
    let mut stats = StageShuffleStats::new(5);
    stats.channel_bytes = vec![10, 12, 500, 11, 10];
    stats.total_bytes = 543;

    // median is 11. Skew factor 5.0 -> threshold 55. Min skew threshold 100.
    // Channel 2 (500) > 55 and >= 100, so it is detected as skewed.
    let skewed = stats.detect_skew_partitions(&above(&stats, 5.0), 100);
    assert_eq!(skewed, vec![2]);

    // If min_skew_threshold is higher than 500, not skewed
    let skewed = stats.detect_skew_partitions(&above(&stats, 5.0), 1000);
    assert!(skewed.is_empty());
}

#[test]
fn skew_needs_data() {
    let stats = StageShuffleStats::new(2);
    assert_eq!(stats.median_channel_bytes(), None);
    assert!(stats.detect_skew_partitions(&vec![true, true], 0).is_empty());
}

#[test]
fn the_median_leaves_out_empty_channels() {
    let mut stats = StageShuffleStats::new(6);
    stats.channel_bytes = vec![0, 9, 0, 3, 5, 7];
    assert_eq!(stats.median_channel_bytes(), Some(7));
}

#[test]
fn test_split_skew_partition() {
    let splits = split_skew_partition(10, 3);
    assert_eq!(splits, vec![0..4, 4..8, 8..10]);

    let single = split_skew_partition(5, 1);
    assert_eq!(single, vec![0..5]);
}

#[test]
fn splitting_at_the_edges() {
    assert_eq!(split_skew_partition(0, 4), vec![0..0]);
    assert_eq!(split_skew_partition(3, 0), vec![0..3]);
    assert_eq!(split_skew_partition(2, 5), vec![0..1, 1..2]);
}

#[test]
fn test_should_broadcast_join() {
    let mut stats = StageShuffleStats::new(2);
    stats.total_bytes = 5 * 1024 * 1024; // 5MB
    assert!(stats.should_broadcast_join(10 * 1024 * 1024));
    assert!(!stats.should_broadcast_join(2 * 1024 * 1024));
}

#[test]
fn a_stage_without_data_is_not_broadcast() {
    assert!(!StageShuffleStats::new(2).should_broadcast_join(100));
}

#[test]
fn a_larger_target_never_gives_more_partitions() {
    let channels = [3, 0, 7, 2, 2, 9, 0, 1, 4];
    let mut last = channels.len();
    for target in 0..30 {
        let count = coalesce_shuffle_partitions(&channels, target).len();
        assert!(count <= last);
        last = count;
    }
    assert_eq!(last, 1);
}

#[test]
fn no_other_division_within_the_target_has_fewer_partitions() {
    let channels: [u64; 7] = [3, 5, 2, 4, 4, 1, 6];
    for target in 6..26 {
        // try every way of cutting the channels into adjacent ranges
        let mut fewest = channels.len();
        for cuts in 0u32..64 {
            let mut parts = vec![channels[0]];
            for (i, &size) in channels.iter().enumerate().skip(1) {
                if cuts & (1 << (i - 1)) != 0 {
                    parts.push(size);
                } else {
                    let last = parts.len() - 1;
                    parts[last] += size;
                }
            }
            if parts.iter().all(|&size| size <= target) {
                fewest = fewest.min(parts.len());
            }
        }
        assert_eq!(coalesce_shuffle_partitions(&channels, target).len(), fewest);
    }
}

//! What is found in lists of entries and in the text of index files.

use crate::id::{JobId, TaskKey};
use crate::measurements::{find_plan, RewrittenPlan};
use crate::shuffle_index::{
    channel_total, countable, find_stage, index_entry, row_total, stage_total, PartitionIndex,
    ShuffleIndex, StageIndex,
};
use crate::task::{first_assignment, TaskAssignment};
use crate::text::{
    after_first_line, digits_number, digits_value, first_line, is_digit, line_feed, parsed_number,
    without_plus,
};
use vstd::prelude::*;

verus! {

/// Of several entries for a change of a plan the first one counts. Without one the change cannot be made.
pub proof fn lemma_first_plan(plans: Seq<RewrittenPlan>, stage: int, input: int, groups: int)
    ensures
        match find_plan(plans, stage, input, groups) {
            Some(partitions) => exists|i: int|
                0 <= i < plans.len() && (#[trigger] plans[i]).stage == stage && plans[i].input
                    == input && plans[i].groups == groups && plans[i].partitions == partitions && (
                forall|k: int|
                    0 <= k < i ==> !((#[trigger] plans[k]).stage == stage && plans[k].input == input
                        && plans[k].groups == groups)),
            None => forall|k: int|
                0 <= k < plans.len() ==> !((#[trigger] plans[k]).stage == stage && plans[k].input
                    == input && plans[k].groups == groups),
        },
    decreases plans.len(),
{
    if plans.len() > 0 {
        let rest = plans.skip(1);
        if plans[0].stage == stage && plans[0].input == input && plans[0].groups == groups {
            assert(plans[0].partitions == plans[0].partitions);
        } else {
            lemma_first_plan(rest, stage, input, groups);
            assert forall|k: int| 0 < k < plans.len() implies rest[k - 1] == #[trigger] plans[k] by {}
            match find_plan(rest, stage, input, groups) {
                Some(partitions) => {
                    let i = choose|i: int|
                        0 <= i < rest.len() && (#[trigger] rest[i]).stage == stage && rest[i].input
                            == input && rest[i].groups == groups && rest[i].partitions
                            == partitions && (forall|k: int|
                            0 <= k < i ==> !((#[trigger] rest[k]).stage == stage && rest[k].input
                                == input && rest[k].groups == groups));
                    assert(plans[i + 1] == rest[i]);
                    assert forall|k: int| 0 <= k < i + 1 implies !((#[trigger] plans[k]).stage
                        == stage && plans[k].input == input && plans[k].groups == groups) by {
                        if k > 0 {
                            assert(rest[k - 1] == plans[k]);
                        }
                    }
                },
                None => {
                    assert forall|k: int| 0 <= k < plans.len() implies !((#[trigger] plans[k]).stage
                        == stage && plans[k].input == input && plans[k].groups == groups) by {
                        if k > 0 {
                            assert(rest[k - 1] == plans[k]);
                        }
                    }
                },
            }
        }
    }
}

/// Of several entries for a stage the first one counts. Without one the stage has no index files.
pub proof fn lemma_first_stage(stages: Seq<StageIndex>, stage: usize)
    ensures
        (exists|i: int|
            0 <= i < stages.len() && (#[trigger] stages[i]).stage == stage && find_stage(
                stages,
                stage,
            ) == stages[i].partitions@ && (forall|k: int|
                0 <= k < i ==> (#[trigger] stages[k]).stage != stage)) || (find_stage(
            stages,
            stage,
        ).len() == 0 && forall|k: int|
            0 <= k < stages.len() ==> (#[trigger] stages[k]).stage != stage),
    decreases stages.len(),
{
    if stages.len() > 0 {
        let rest = stages.skip(1);
        if stages[0].stage == stage {
            assert(stages[0].partitions@ == stages[0].partitions@);
        } else {
            lemma_first_stage(rest, stage);
            if exists|i: int|
                0 <= i < rest.len() && (#[trigger] rest[i]).stage == stage && find_stage(rest, stage)
                    == rest[i].partitions@ && (forall|k: int|
                    0 <= k < i ==> (#[trigger] rest[k]).stage != stage) {
                let i = choose|i: int|
                    0 <= i < rest.len() && (#[trigger] rest[i]).stage == stage && find_stage(
                        rest,
                        stage,
                    ) == rest[i].partitions@ && (forall|k: int|
                        0 <= k < i ==> (#[trigger] rest[k]).stage != stage);
                assert(stages[i + 1] == rest[i]);
                assert forall|k: int| 0 <= k < i + 1 implies (#[trigger] stages[k]).stage
                    != stage by {
                    if k > 0 {
                        assert(rest[k - 1] == stages[k]);
                    }
                }
            } else {
                assert forall|k: int| 0 <= k < stages.len() implies (#[trigger] stages[k]).stage
                    != stage by {
                    if k > 0 {
                        assert(rest[k - 1] == stages[k]);
                    }
                }
            }
        }
    }
}

/// Of several entries for a task attempt the first one counts. Without one the attempt has no place.
pub proof fn lemma_first_place(entries: Seq<(TaskKey, TaskAssignment)>, key: TaskKey)
    ensures
        match first_assignment(entries, key) {
            Some(place) => exists|i: int|
                0 <= i < entries.len() && #[trigger] entries[i] == (key, place) && (forall|k: int|
                    0 <= k < i ==> (#[trigger] entries[k]).0 != key),
            None => forall|k: int| 0 <= k < entries.len() ==> (#[trigger] entries[k]).0 != key,
        },
    decreases entries.len(),
{
    if entries.len() > 0 {
        let rest = entries.skip(1);
        if entries[0].0 == key {
            assert(entries[0] == (key, entries[0].1));
        } else {
            lemma_first_place(rest, key);
            match first_assignment(rest, key) {
                Some(place) => {
                    let i = choose|i: int|
                        0 <= i < rest.len() && #[trigger] rest[i] == (key, place) && (forall|k: int|
                            0 <= k < i ==> (#[trigger] rest[k]).0 != key);
                    assert(entries[i + 1] == rest[i]);
                    assert forall|k: int| 0 <= k < i + 1 implies (#[trigger] entries[k]).0 != key by {
                        if k > 0 {
                            assert(rest[k - 1] == entries[k]);
                        }
                    }
                },
                None => {
                    assert forall|k: int| 0 <= k < entries.len() implies (#[trigger] entries[k]).0
                        != key by {
                        if k > 0 {
                            assert(rest[k - 1] == entries[k]);
                        }
                    }
                },
            }
        }
    }
}

/// An index file is found exactly if it is one of the job and the stage, of the attempt that is listed for
/// its task, and of a channel for which the attempt has left a file.
pub proof fn lemma_file_found(
    index: &ShuffleIndex,
    job_id: JobId,
    stage: usize,
    partition: int,
    attempt: usize,
    channel: int,
)
    ensures
        ({
            let files = index.stage_files(stage);
            let listed = {
                &&& index.job() == job_id
                &&& 0 <= partition < files.len()
                &&& files[partition].attempt == attempt
                &&& 0 <= channel < files[partition].channels@.len()
                &&& files[partition].channels@[channel] is Some
            };
            match index.content(job_id, stage, partition, attempt, channel) {
                Some(text) => listed && text == files[partition].channels@[channel]->0@,
                None => !listed,
            }
        }),
{
}

/// Where the first line feed of a text is.
proof fn lemma_line_feed_at(a: Seq<char>, b: Seq<char>)
    requires
        forall|i: int| 0 <= i < a.len() ==> #[trigger] a[i] != '\n',
        b.len() == 0 || b[0] == '\n',
    ensures
        line_feed(a + b) == a.len(),
    decreases a.len(),
{
    if a.len() > 0 {
        let rest = a.skip(1);
        assert((a + b).skip(1) =~= rest + b);
        assert forall|i: int| 0 <= i < rest.len() implies #[trigger] rest[i] != '\n' by {
            assert(rest[i] == a[i + 1]);
        }
        assert((a + b)[0] == a[0]);
        lemma_line_feed_at(rest, b);
    } else {
        assert(a + b =~= b);
    }
}

/// The first line feed of a text is not beyond its end.
proof fn lemma_line_feed_within(s: Seq<char>)
    ensures
        line_feed(s) <= s.len(),
    decreases s.len(),
{
    if s.len() > 0 && s[0] != '\n' {
        lemma_line_feed_within(s.skip(1));
    }
}

/// Digits are read as the number that they denote.
proof fn lemma_digits_read(s: Seq<char>, max: nat)
    requires
        s.len() > 0,
        forall|i: int| 0 <= i < s.len() ==> '0' <= #[trigger] s[i] <= '9',
    ensures
        parsed_number(s, max) == (if digits_value(s) <= max {
            Some(digits_value(s))
        } else {
            None
        }),
{
    assert('0' <= s[0] <= '9');
    assert(without_plus(s) == s);
    assert forall|i: int| 0 <= i < s.len() implies is_digit(#[trigger] s[i]) by {}
}

/// The first two lines of an index file tell the bytes and the records. What follows them does not matter.
pub proof fn lemma_lines_read(bytes: Seq<char>, records: Seq<char>, rest: Seq<char>)
    requires
        bytes.len() > 0,
        records.len() > 0,
        forall|i: int| 0 <= i < bytes.len() ==> '0' <= #[trigger] bytes[i] <= '9',
        forall|i: int| 0 <= i < records.len() ==> '0' <= #[trigger] records[i] <= '9',
        rest.len() == 0 || rest[0] == '\n',
    ensures
        index_entry(bytes + seq!['\n'] + records + rest) == (if digits_value(bytes) <= u64::MAX
            && digits_value(records) <= usize::MAX {
            Some((digits_value(bytes), digits_value(records)))
        } else {
            None
        }),
{
    let tail = seq!['\n'] + records + rest;
    let content = bytes + seq!['\n'] + records + rest;
    let second = records + rest;
    assert(content =~= bytes + tail);
    assert(tail[0] == '\n');
    lemma_line_feed_at(bytes, tail);
    lemma_line_feed_at(records, rest);
    assert(content[bytes.len() - 1] == bytes[bytes.len() - 1]);
    assert('0' <= bytes[bytes.len() - 1] <= '9');
    assert(first_line(content) =~= bytes);
    assert(after_first_line(content) =~= second);
    assert(second[records.len() - 1] == records[records.len() - 1]);
    assert('0' <= records[records.len() - 1] <= '9');
    assert(first_line(second) =~= records);
    lemma_digits_read(bytes, u64::MAX as nat);
    lemma_digits_read(records, usize::MAX as nat);
}

/// A text that does not start with a digit or a plus sign, or has no second line, is no index file.
pub proof fn lemma_malformed(content: Seq<char>)
    requires
        content.len() == 0 || !('0' <= content[0] <= '9' || content[0] == '+') || forall|i: int|
            0 <= i < content.len() ==> #[trigger] content[i] != '\n',
    ensures
        index_entry(content) is None,
{
    if content.len() > 0 {
        if forall|i: int| 0 <= i < content.len() ==> #[trigger] content[i] != '\n' {
            assert(content + Seq::<char>::empty() =~= content);
            lemma_line_feed_at(content, Seq::empty());
        } else {
            let line = first_line(content);
            lemma_line_feed_within(content);
            if line.len() > 0 {
                assert(line[0] == content[0]);
                assert(without_plus(line) == line);
                assert(!is_digit(line[0]));
            }
            assert(digits_number(without_plus(line), u64::MAX as nat) is None);
        }
    }
}

/// The bytes and the records that an index file tells. A file that is missing or malformed tells none.
pub open spec fn told(content: Option<Seq<char>>) -> (nat, nat) {
    match content {
        Some(text) => match index_entry(text) {
            Some((bytes, records)) => (bytes, records),
            None => (0, 0),
        },
        None => (0, 0),
    }
}

/// What the files of a channel tell from a task on, added up.
pub open spec fn told_from(
    index: &ShuffleIndex,
    job_id: JobId,
    stage: usize,
    attempts: Seq<usize>,
    channel: int,
    p: int,
    n: int,
) -> (nat, nat)
    decreases n - p,
{
    if p >= n {
        (0, 0)
    } else {
        let here = told(index.content(job_id, stage, p, attempts[p], channel));
        let rest = told_from(index, job_id, stage, attempts, channel, p + 1, n);
        (here.0 + rest.0, here.1 + rest.1)
    }
}

/// Adding up ends with the last task.
proof fn lemma_told_last(
    index: &ShuffleIndex,
    job_id: JobId,
    stage: usize,
    attempts: Seq<usize>,
    channel: int,
    p: int,
    n: int,
)
    requires
        p < n,
    ensures
        ({
            let here = told(index.content(job_id, stage, n - 1, attempts[n - 1], channel));
            let before = told_from(index, job_id, stage, attempts, channel, p, n - 1);
            told_from(index, job_id, stage, attempts, channel, p, n) == (
                before.0 + here.0,
                before.1 + here.1,
            )
        }),
    decreases n - p,
{
    if p + 1 < n {
        lemma_told_last(index, job_id, stage, attempts, channel, p + 1, n);
    } else {
        assert(told_from(index, job_id, stage, attempts, channel, n, n) == (0nat, 0nat));
        assert(told_from(index, job_id, stage, attempts, channel, p, n - 1) == (0nat, 0nat));
    }
}

/// The statistics of a channel are what the index files of the given attempts tell, one file per task, added
/// up: the bytes and the records by themselves.
pub proof fn lemma_channel_told(
    index: &ShuffleIndex,
    job_id: JobId,
    stage: usize,
    attempts: Seq<usize>,
    channel: int,
    n: nat,
)
    ensures
        channel_total(index, job_id, stage, attempts, channel, n) == told_from(
            index,
            job_id,
            stage,
            attempts,
            channel,
            0,
            n as int,
        ),
    decreases n,
{
    if n > 0 {
        lemma_channel_told(index, job_id, stage, attempts, channel, (n - 1) as nat);
        lemma_told_last(index, job_id, stage, attempts, channel, 0, n as int);
    }
}

/// What the files of all channels of a task tell from a channel on.
pub open spec fn row_told(channels: Seq<Option<String>>, c: int) -> (nat, nat)
    decreases channels.len() - c,
{
    if c >= channels.len() {
        (0, 0)
    } else {
        let here = told(
            match channels[c] {
                Some(text) => Some(text@),
                None => None,
            },
        );
        let rest = row_told(channels, c + 1);
        (here.0 + rest.0, here.1 + rest.1)
    }
}

/// What all files of a stage tell from a task on.
pub open spec fn stage_told(partitions: Seq<PartitionIndex>, p: int) -> (nat, nat)
    decreases partitions.len() - p,
{
    if p >= partitions.len() {
        (0, 0)
    } else {
        let here = row_told(partitions[p].channels@, 0);
        let rest = stage_told(partitions, p + 1);
        (here.0 + rest.0, here.1 + rest.1)
    }
}

/// Both ways of adding up the files of a task agree.
proof fn lemma_row_told(channels: Seq<Option<String>>, c: nat)
    requires
        c <= channels.len(),
    ensures
        ({
            let before = row_total(channels, c);
            let rest = row_told(channels, c as int);
            row_told(channels, 0) == (before.0 + rest.0, before.1 + rest.1)
        }),
    decreases c,
{
    if c > 0 {
        lemma_row_told(channels, (c - 1) as nat);
    }
}

/// Both ways of adding up the files of a stage agree.
proof fn lemma_stage_told(partitions: Seq<PartitionIndex>, p: nat)
    requires
        p <= partitions.len(),
    ensures
        ({
            let before = stage_total(partitions, p);
            let rest = stage_told(partitions, p as int);
            stage_told(partitions, 0) == (before.0 + rest.0, before.1 + rest.1)
        }),
    decreases p,
{
    if p > 0 {
        lemma_stage_told(partitions, (p - 1) as nat);
        let channels = partitions[p - 1].channels@;
        lemma_row_told(channels, channels.len());
        assert(row_told(channels, channels.len() as int) == (0nat, 0nat));
    }
}

/// The files of a stage can be counted exactly if the bytes and the records that they tell together fit in
/// machine words.
pub proof fn lemma_fits_in_words(partitions: Seq<PartitionIndex>)
    ensures
        countable(partitions) <==> stage_told(partitions, 0).0 <= u64::MAX && stage_told(
            partitions,
            0,
        ).1 <= usize::MAX,
{
    lemma_stage_told(partitions, partitions.len());
    assert(stage_told(partitions, partitions.len() as int) == (0nat, 0nat));
}

/// A number may have a plus sign in front of it, and a line may end with a carriage return as well.
pub proof fn lemma_signs_and_returns(digits: Seq<char>, rest: Seq<char>, max: nat)
    requires
        digits.len() > 0,
        forall|i: int| 0 <= i < digits.len() ==> '0' <= #[trigger] digits[i] <= '9',
    ensures
        parsed_number(seq!['+'] + digits, max) == parsed_number(digits, max),
        first_line(digits + seq!['\r', '\n'] + rest) == digits,
        after_first_line(digits + seq!['\r', '\n'] + rest) == rest,
{
    assert((seq!['+'] + digits).skip(1) =~= digits);
    assert('0' <= digits[0] <= '9');
    let line = digits.push('\r');
    let tail = seq!['\n'] + rest;
    let all = digits + seq!['\r', '\n'] + rest;
    assert(all =~= line + tail);
    assert forall|i: int| 0 <= i < line.len() implies #[trigger] line[i] != '\n' by {
        if i < digits.len() {
            assert('0' <= digits[i] <= '9');
        }
    }
    lemma_line_feed_at(line, tail);
    assert(all[line.len() - 1] == '\r');
    assert(all.take(line.len() - 1) =~= digits);
    assert(all.skip(line.len() as int + 1) =~= rest);
}

}

//! Index files of a disk shuffle: their names, their contents, and the statistics that are
//! read from them.
//!
//! A task attempt leaves one index file per output channel. Its first line holds the number
//! of bytes and its second line the number of records that the attempt has written to the
//! channel.

use crate::adaptive::{counts, seq_sum, sizes, StageShuffleStats};
use crate::id::JobId;
use crate::text::{
    after_first_line, characters, decimal, find_line_feed, first_line, is_digit,
    lemma_decimal_round_trip, lemma_number_line, line_end, parse_number, parsed_number,
    push_decimal,
};
use vstd::prelude::*;
use vstd::string::*;

verus! {

/// The name of the index file of one output channel of a task attempt.
pub open spec fn index_file_name(partition: nat, attempt: nat, channel: nat) -> Seq<char> {
    "shuffle_"@ + decimal(partition) + "_"@ + decimal(attempt) + "_"@ + decimal(channel)
        + ".index"@
}

/// The name of the index file of one output channel of a task attempt, inside the directory of
/// its stage.
pub fn make_index_file_name(partition: usize, attempt: usize, channel: usize) -> (r: String)
    ensures
        r@ == index_file_name(partition as nat, attempt as nat, channel as nat),
{
    let mut name = String::from_str("shuffle_");
    push_decimal(&mut name, partition as u64);
    name.append("_");
    push_decimal(&mut name, attempt as u64);
    name.append("_");
    push_decimal(&mut name, channel as u64);
    name.append(".index");
    name
}

/// Two texts that start with digits, each followed by something else, agree only if the
/// digits agree and the rest does.
proof fn lemma_split_at_non_digit(a: Seq<char>, b: Seq<char>, x: Seq<char>, y: Seq<char>)
    requires
        forall|i: int| 0 <= i < a.len() ==> is_digit(#[trigger] a[i]),
        forall|i: int| 0 <= i < b.len() ==> is_digit(#[trigger] b[i]),
        x.len() > 0 && !is_digit(x[0]),
        y.len() > 0 && !is_digit(y[0]),
        a + x == b + y,
    ensures
        a == b,
        x == y,
{
    let s = a + x;
    if a.len() < b.len() {
        assert(s[a.len() as int] == x[0]);
        assert(s[a.len() as int] == b[a.len() as int]);
    }
    if b.len() < a.len() {
        assert((b + y)[b.len() as int] == y[0]);
        assert(s[b.len() as int] == a[b.len() as int]);
    }
    assert(a =~= s.take(a.len() as int));
    assert(b =~= (b + y).take(b.len() as int));
    assert(x =~= s.skip(a.len() as int));
    assert(y =~= (b + y).skip(b.len() as int));
}

spec fn all_digits(s: Seq<char>) -> bool {
    forall|i: int| 0 <= i < s.len() ==> is_digit(#[trigger] s[i])
}

/// A number, a separator and a tail.
proof fn lemma_separated(a: Seq<char>, b: Seq<char>, x: Seq<char>, y: Seq<char>)
    requires
        all_digits(a),
        all_digits(b),
        a + ("_"@ + x) == b + ("_"@ + y),
    ensures
        a == b,
        x == y,
{
    reveal_strlit("_");
    lemma_split_at_non_digit(a, b, "_"@ + x, "_"@ + y);
    assert(x =~= ("_"@ + x).skip(1));
    assert(y =~= ("_"@ + y).skip(1));
}

proof fn lemma_name_parts(
    p1: Seq<char>,
    a1: Seq<char>,
    c1: Seq<char>,
    p2: Seq<char>,
    a2: Seq<char>,
    c2: Seq<char>,
)
    requires
        all_digits(p1),
        all_digits(a1),
        all_digits(c1),
        all_digits(p2),
        all_digits(a2),
        all_digits(c2),
        "shuffle_"@ + p1 + "_"@ + a1 + "_"@ + c1 + ".index"@ == "shuffle_"@ + p2 + "_"@ + a2
            + "_"@ + c2 + ".index"@,
    ensures
        p1 == p2,
        a1 == a2,
        c1 == c2,
{
    let tail1 = c1 + ".index"@;
    let tail2 = c2 + ".index"@;
    let mid1 = a1 + ("_"@ + tail1);
    let mid2 = a2 + ("_"@ + tail2);
    let head1 = p1 + ("_"@ + mid1);
    let head2 = p2 + ("_"@ + mid2);
    let name1 = "shuffle_"@ + p1 + "_"@ + a1 + "_"@ + c1 + ".index"@;
    let name2 = "shuffle_"@ + p2 + "_"@ + a2 + "_"@ + c2 + ".index"@;
    let n = "shuffle_"@.len() as int;
    assert(name1.skip(n) =~= head1);
    assert(name2.skip(n) =~= head2);
    lemma_separated(p1, p2, mid1, mid2);
    lemma_separated(a1, a2, tail1, tail2);
    assert(".index"@.len() > 0 && !is_digit(".index"@[0])) by {
        reveal_strlit(".index");
    }
    lemma_split_at_non_digit(c1, c2, ".index"@, ".index"@);
}

/// Different task outputs have different index files.
pub proof fn lemma_index_file_names_differ(
    p1: nat,
    a1: nat,
    c1: nat,
    p2: nat,
    a2: nat,
    c2: nat,
)
    requires
        index_file_name(p1, a1, c1) == index_file_name(p2, a2, c2),
    ensures
        p1 == p2,
        a1 == a2,
        c1 == c2,
{
    lemma_decimal_round_trip(p1);
    lemma_decimal_round_trip(a1);
    lemma_decimal_round_trip(c1);
    lemma_decimal_round_trip(p2);
    lemma_decimal_round_trip(a2);
    lemma_decimal_round_trip(c2);
    lemma_name_parts(
        decimal(p1),
        decimal(a1),
        decimal(c1),
        decimal(p2),
        decimal(a2),
        decimal(c2),
    );
}

/// The bytes and records that an index file holds, if its first two lines are numbers.
pub open spec fn index_entry(content: Seq<char>) -> Option<(nat, nat)> {
    let rest = after_first_line(content);
    if content.len() == 0 || rest.len() == 0 {
        None
    } else {
        match (
            parsed_number(first_line(content), u64::MAX as nat),
            parsed_number(first_line(rest), usize::MAX as nat),
        ) {
            (Some(bytes), Some(records)) => Some((bytes, records)),
            _ => None,
        }
    }
}

/// Reads the bytes and records from the content of an index file.
pub fn parse_index_entry(content: &str) -> (r: Option<(u64, usize)>)
    ensures
        match r {
            Some((bytes, records)) => index_entry(content@) == Some(
                (bytes as nat, records as nat),
            ),
            None => index_entry(content@) is None,
        },
{
    let chars = characters(content);
    let n: usize = chars.len();
    proof {
        assert(chars@.skip(0) =~= content@);
    }
    let first_feed: usize = find_line_feed(&chars, 0);
    if first_feed >= n || first_feed + 1 >= n {
        proof {
            if first_feed < n {
                assert(after_first_line(content@).len() == 0);
            }
        }
        return None;
    }
    let second: usize = first_feed + 1;
    assert(chars@.skip(second as int) =~= after_first_line(content@));
    let first_end: usize = line_end(&chars, 0, first_feed);
    let second_feed: usize = find_line_feed(&chars, second);
    let second_end: usize = line_end(&chars, second, second_feed);
    match (
        parse_number(&chars, 0, first_end, u64::MAX),
        parse_number(&chars, second, second_end, usize::MAX as u64),
    ) {
        (Some(bytes), Some(records)) => Some((bytes, records as usize)),
        _ => None,
    }
}

/// The text of an index file: the bytes on the first line, and the records on the second one.
pub open spec fn index_text(bytes: nat, records: nat) -> Seq<char> {
    decimal(bytes) + "\n"@ + decimal(records) + "\n"@
}

/// An index file tells what was written to it.
pub proof fn lemma_index_text_read_back(bytes: nat, records: nat)
    requires
        bytes <= u64::MAX,
        records <= usize::MAX,
    ensures
        index_entry(index_text(bytes, records)) == Some((bytes, records)),
{
    reveal_strlit("\n");
    let feed = seq!['\n'];
    assert("\n"@ =~= feed);
    let second = decimal(records) + feed + Seq::<char>::empty();
    assert(index_text(bytes, records) =~= decimal(bytes) + feed + second);
    lemma_number_line(bytes, second, u64::MAX as nat);
    lemma_number_line(records, Seq::empty(), usize::MAX as nat);
}

/// Makes the text of an index file.
pub fn make_index_text(bytes: u64, records: usize) -> (r: String)
    ensures
        r@ == index_text(bytes as nat, records as nat),
        index_entry(r@) == Some((bytes as nat, records as nat)),
{
    proof {
        lemma_index_text_read_back(bytes as nat, records as nat);
    }
    let mut text = String::from_str("");
    push_decimal(&mut text, bytes);
    text.append("\n");
    push_decimal(&mut text, records as u64);
    text.append("\n");
    proof {
        reveal_strlit("");
        assert(text@ =~= index_text(bytes as nat, records as nat));
    }
    text
}

/// The contents of the index files that one task attempt has left. A channel without a
/// readable index file has none.
pub struct PartitionIndex {
    pub attempt: usize,
    pub channels: Vec<Option<String>>,
}

/// The contents of the index files of one stage, by partition.
pub struct StageIndex {
    pub stage: usize,
    pub partitions: Vec<PartitionIndex>,
}

/// The text of an index file, if there is one.
pub open spec fn file_text(file: Option<String>) -> Option<Seq<char>> {
    match file {
        Some(s) => Some(s@),
        None => None,
    }
}

/// What an index file contributes to the statistics: nothing if it is missing or malformed.
pub open spec fn recorded(content: Option<Seq<char>>) -> (nat, nat) {
    match content {
        Some(text) => match index_entry(text) {
            Some(entry) => entry,
            None => (0, 0),
        },
        None => (0, 0),
    }
}

/// The content of the index file of a channel of a task attempt.
pub open spec fn stage_content(
    partitions: Seq<PartitionIndex>,
    partition: int,
    attempt: usize,
    channel: int,
) -> Option<Seq<char>> {
    if 0 <= partition < partitions.len() && partitions[partition].attempt == attempt && 0
        <= channel < partitions[partition].channels@.len() {
        file_text(partitions[partition].channels@[channel])
    } else {
        None
    }
}

/// The sum of two pairs.
pub open spec fn plus(a: (nat, nat), b: (nat, nat)) -> (nat, nat) {
    (a.0 + b.0, a.1 + b.1)
}

/// What the first `n` channels of a task attempt contribute.
pub open spec fn row_total(channels: Seq<Option<String>>, n: nat) -> (nat, nat)
    decreases n,
{
    if n == 0 {
        (0, 0)
    } else {
        plus(
            row_total(channels, (n - 1) as nat),
            recorded(file_text(channels[n - 1])),
        )
    }
}

/// What the first `n` partitions of a stage contribute.
pub open spec fn stage_total(partitions: Seq<PartitionIndex>, n: nat) -> (nat, nat)
    decreases n,
{
    if n == 0 {
        (0, 0)
    } else {
        plus(
            stage_total(partitions, (n - 1) as nat),
            row_total(partitions[n - 1].channels@, partitions[n - 1].channels@.len()),
        )
    }
}

/// Whether the bytes and the records of a stage can be counted in machine words.
pub open spec fn countable(partitions: Seq<PartitionIndex>) -> bool {
    &&& stage_total(partitions, partitions.len()).0 <= u64::MAX
    &&& stage_total(partitions, partitions.len()).1 <= usize::MAX
}

/// The partitions of the first entry for a stage.
pub open spec fn find_stage(stages: Seq<StageIndex>, stage: usize) -> Seq<PartitionIndex>
    decreases stages.len(),
{
    if stages.len() == 0 {
        Seq::empty()
    } else if stages[0].stage == stage {
        stages[0].partitions@
    } else {
        find_stage(stages.skip(1), stage)
    }
}

/// The index files of a job at one point in time.
pub struct ShuffleIndex {
    job_id: JobId,
    stages: Vec<StageIndex>,
}

proof fn lemma_row_total_monotone(channels: Seq<Option<String>>, m: nat, n: nat)
    requires
        m <= n,
    ensures
        row_total(channels, m).0 <= row_total(channels, n).0,
        row_total(channels, m).1 <= row_total(channels, n).1,
    decreases n,
{
    if m < n {
        lemma_row_total_monotone(channels, m, (n - 1) as nat);
    }
}

proof fn lemma_stage_total_monotone(partitions: Seq<PartitionIndex>, m: nat, n: nat)
    requires
        m <= n,
    ensures
        stage_total(partitions, m).0 <= stage_total(partitions, n).0,
        stage_total(partitions, m).1 <= stage_total(partitions, n).1,
    decreases n,
{
    if m < n {
        lemma_stage_total_monotone(partitions, m, (n - 1) as nat);
    }
}

/// Reads what an index file contributes to the statistics.
fn read_recorded(file: &Option<String>) -> (r: (u64, usize))
    ensures
        recorded(file_text(*file)) == (r.0 as nat, r.1 as nat),
{
    match file {
        Some(text) => match parse_index_entry(text.as_str()) {
            Some(entry) => entry,
            None => (0, 0),
        },
        None => (0, 0),
    }
}

/// Whether the bytes and the records of a stage can be counted in machine words.
pub fn is_countable(partitions: &Vec<PartitionIndex>) -> (r: bool)
    ensures
        r == countable(partitions@),
{
    let mut bytes: u64 = 0;
    let mut records: usize = 0;
    let mut p: usize = 0;
    while p < partitions.len()
        invariant
            p <= partitions@.len(),
            stage_total(partitions@, p as nat) == (bytes as nat, records as nat),
        decreases partitions@.len() - p,
    {
        let row = &partitions[p].channels;
        let ghost before = stage_total(partitions@, p as nat);
        let mut c: usize = 0;
        proof {
            lemma_stage_total_monotone(partitions@, (p + 1) as nat, partitions@.len());
        }
        while c < row.len()
            invariant
                p < partitions@.len(),
                row@ == partitions@[p as int].channels@,
                c <= row@.len(),
                before == stage_total(partitions@, p as nat),
                plus(before, row_total(row@, c as nat)) == (bytes as nat, records as nat),
                stage_total(partitions@, (p + 1) as nat).0 <= stage_total(
                    partitions@,
                    partitions@.len(),
                ).0,
                stage_total(partitions@, (p + 1) as nat).1 <= stage_total(
                    partitions@,
                    partitions@.len(),
                ).1,
            decreases row@.len() - c,
        {
            let (b, r) = read_recorded(&row[c]);
            proof {
                lemma_row_total_monotone(row@, (c + 1) as nat, row@.len());
            }
            if b > u64::MAX - bytes || r > usize::MAX - records {
                return false;
            }
            bytes = bytes + b;
            records = records + r;
            c = c + 1;
        }
        p = p + 1;
    }
    true
}

impl ShuffleIndex {
    #[verifier::type_invariant]
    spec fn all_countable(&self) -> bool {
        forall|i: int| 0 <= i < self.stages@.len() ==> countable((#[trigger] self.stages@[i]).partitions@)
    }

    /// The job whose index files these are.
    pub closed spec fn job(&self) -> JobId {
        self.job_id
    }

    /// The index files of a stage, by partition.
    pub closed spec fn stage_files(&self, stage: usize) -> Seq<PartitionIndex> {
        find_stage(self.stages@, stage)
    }

    /// The content of the index file of one output channel of a task attempt.
    pub open spec fn content(
        &self,
        job_id: JobId,
        stage: usize,
        partition: int,
        attempt: usize,
        channel: int,
    ) -> Option<Seq<char>> {
        if self.job() == job_id {
            stage_content(self.stage_files(stage), partition, attempt, channel)
        } else {
            None
        }
    }

    /// The index files of a job, or nothing if the bytes or records of a stage cannot be
    /// counted. Of two entries for a stage the first one counts.
    pub fn try_new(job_id: JobId, stages: Vec<StageIndex>) -> (r: Option<Self>)
        ensures
            match r {
                Some(index) => {
                    &&& index.job() == job_id
                    &&& forall|stage: usize|
                        #[trigger] index.stage_files(stage) == find_stage(stages@, stage)
                    &&& forall|i: int|
                        0 <= i < stages@.len() ==> countable((#[trigger] stages@[i]).partitions@)
                },
                None => exists|i: int|
                    0 <= i < stages@.len() && !countable((#[trigger] stages@[i]).partitions@),
            },
    {
        let mut i: usize = 0;
        while i < stages.len()
            invariant
                i <= stages@.len(),
                forall|j: int|
                    0 <= j < i ==> countable((#[trigger] stages@[j]).partitions@),
            decreases stages@.len() - i,
        {
            if !is_countable(&stages[i].partitions) {
                return None;
            }
            i = i + 1;
        }
        Some(ShuffleIndex { job_id, stages })
    }

    /// The index of a job without index files.
    pub fn empty(job_id: JobId) -> (r: Self)
        ensures
            r.job() == job_id,
            forall|stage: usize| (#[trigger] r.stage_files(stage)).len() == 0,
    {
        ShuffleIndex { job_id, stages: Vec::new() }
    }

    /// The position of the first entry for a stage.
    fn position(&self, stage: usize) -> (r: Option<usize>)
        ensures
            match r {
                Some(i) => i < self.stages@.len() && self.stages@[i as int].partitions@
                    == self.stage_files(stage),
                None => self.stage_files(stage).len() == 0,
            },
    {
        let mut i: usize = 0;
        assert(self.stages@.skip(0) =~= self.stages@);
        while i < self.stages.len()
            invariant
                i <= self.stages@.len(),
                self.stage_files(stage) == find_stage(self.stages@.skip(i as int), stage),
            decreases self.stages@.len() - i,
        {
            if self.stages[i].stage == stage {
                return Some(i);
            }
            assert(self.stages@.skip(i as int).skip(1) =~= self.stages@.skip(i + 1));
            i = i + 1;
        }
        None
    }
}

/// What the first `n` of the given task attempts contribute to a channel.
pub open spec fn channel_total(
    index: &ShuffleIndex,
    job_id: JobId,
    stage: usize,
    attempts: Seq<usize>,
    channel: int,
    n: nat,
) -> (nat, nat)
    decreases n,
{
    if n == 0 {
        (0, 0)
    } else {
        plus(
            channel_total(index, job_id, stage, attempts, channel, (n - 1) as nat),
            recorded(index.content(job_id, stage, n - 1, attempts[n - 1], channel)),
        )
    }
}

/// The statistics of a channel are the sums of what the task attempts have written to it: if each of
/// them has left an index file with its bytes and its records, these are added up.
pub proof fn lemma_sizes_read_back(
    index: &ShuffleIndex,
    job_id: JobId,
    stage: usize,
    attempts: Seq<usize>,
    channel: int,
    written: Seq<(nat, nat)>,
    n: nat,
)
    requires
        n <= attempts.len(),
        written.len() == attempts.len(),
        forall|p: int|
            0 <= p < attempts.len() ==> written[p].0 <= u64::MAX && written[p].1 <= usize::MAX
                && #[trigger] index.content(job_id, stage, p, attempts[p], channel) == Some(
                index_text(written[p].0, written[p].1),
            ),
    ensures
        channel_total(index, job_id, stage, attempts, channel, n).0 == seq_sum(
            written.take(n as int).map_values(|w: (nat, nat)| w.0),
        ),
        channel_total(index, job_id, stage, attempts, channel, n).1 == seq_sum(
            written.take(n as int).map_values(|w: (nat, nat)| w.1),
        ),
    decreases n,
{
    let bytes = written.take(n as int).map_values(|w: (nat, nat)| w.0);
    let records = written.take(n as int).map_values(|w: (nat, nat)| w.1);
    if n > 0 {
        lemma_sizes_read_back(index, job_id, stage, attempts, channel, written, (n - 1) as nat);
        assert(index.content(job_id, stage, n - 1, attempts[n - 1], channel) is Some);
        lemma_index_text_read_back(written[n - 1].0, written[n - 1].1);
        assert(bytes.drop_last() =~= written.take(n - 1).map_values(|w: (nat, nat)| w.0));
        assert(records.drop_last() =~= written.take(n - 1).map_values(|w: (nat, nat)| w.1));
    }
}

proof fn lemma_seq_sum_update(s: Seq<nat>, i: int, x: nat)
    requires
        0 <= i < s.len(),
    ensures
        seq_sum(s.update(i, x)) == seq_sum(s) - s[i] + x,
    decreases s.len(),
{
    if i == s.len() - 1 {
        assert(s.update(i, x).drop_last() =~= s.drop_last());
    } else {
        assert(s.update(i, x).drop_last() =~= s.drop_last().update(i, x));
        lemma_seq_sum_update(s.drop_last(), i, x);
    }
}

proof fn lemma_seq_sum_zero(s: Seq<nat>)
    requires
        forall|i: int| 0 <= i < s.len() ==> s[i] == 0,
    ensures
        seq_sum(s) == 0,
    decreases s.len(),
{
    if s.len() > 0 {
        lemma_seq_sum_zero(s.drop_last());
    }
}

proof fn lemma_seq_sum_bounds(s: Seq<nat>, i: int)
    requires
        0 <= i < s.len(),
    ensures
        s[i] <= seq_sum(s),
    decreases s.len(),
{
    if i < s.len() - 1 {
        lemma_seq_sum_bounds(s.drop_last(), i);
    }
}

/// What the channels below `n` of one task attempt contribute, at most.
spec fn row_bound(partitions: Seq<PartitionIndex>, p: int, n: nat) -> (nat, nat) {
    if p < partitions.len() {
        let row = partitions[p].channels@;
        row_total(row, if n < row.len() { n } else { row.len() })
    } else {
        (0, 0)
    }
}

/// What the partitions below `n` contribute, at most.
spec fn stage_bound(partitions: Seq<PartitionIndex>, n: nat) -> (nat, nat) {
    stage_total(partitions, if n < partitions.len() { n } else { partitions.len() })
}

proof fn lemma_bounds(partitions: Seq<PartitionIndex>, p: nat, n: nat)
    ensures
        stage_bound(partitions, p).0 + row_bound(partitions, p as int, n).0 <= stage_total(
            partitions,
            partitions.len(),
        ).0,
        stage_bound(partitions, p).1 + row_bound(partitions, p as int, n).1 <= stage_total(
            partitions,
            partitions.len(),
        ).1,
        stage_bound(partitions, p).0 + row_bound(partitions, p as int, n).0 <= stage_bound(
            partitions,
            p + 1,
        ).0,
        stage_bound(partitions, p).1 + row_bound(partitions, p as int, n).1 <= stage_bound(
            partitions,
            p + 1,
        ).1,
{
    if p < partitions.len() {
        let row = partitions[p as int].channels@;
        lemma_row_total_monotone(row, if n < row.len() { n } else { row.len() }, row.len());
        lemma_stage_total_monotone(partitions, p + 1, partitions.len());
    } else {
        lemma_stage_total_monotone(partitions, partitions.len(), partitions.len());
    }
}

impl StageShuffleStats {
    /// Sums up the index files that the given attempts of a stage have left, one attempt per
    /// partition. Attempts beyond `partitions` do not count, nor does an index file that is
    /// missing or malformed.
    pub fn from_disk(
        index: &ShuffleIndex,
        job_id: JobId,
        stage: usize,
        partitions: usize,
        channels: usize,
        attempts: &Vec<usize>,
    ) -> (r: Self)
        ensures
            r.channel_bytes@.len() == channels,
            r.channel_records@.len() == channels,
            ({
                let n: nat = if partitions < attempts@.len() {
                    partitions as nat
                } else {
                    attempts@.len()
                };
                forall|c: int|
                    #![trigger r.channel_bytes@[c]]
                    #![trigger r.channel_records@[c]]
                    0 <= c < channels ==> (
                        r.channel_bytes@[c] as nat,
                        r.channel_records@[c] as nat,
                    ) == channel_total(index, job_id, stage, attempts@, c, n)
            }),
            r.total_bytes == seq_sum(sizes(r.channel_bytes@)),
            r.total_records == seq_sum(counts(r.channel_records@)),
    {
        proof {
            use_type_invariant(index);
        }
        let mut stats = StageShuffleStats::new(channels);
        let ghost files = index.stage_files(stage);
        proof {
            lemma_seq_sum_zero(sizes(stats.channel_bytes@));
            lemma_seq_sum_zero(counts(stats.channel_records@));
        }
        let position = index.position(stage);
        let n: usize = if partitions < attempts.len() {
            partitions
        } else {
            attempts.len()
        };
        let mut p: usize = 0;
        while p < n
            invariant
                p <= n <= attempts@.len(),
                index.all_countable(),
                files == index.stage_files(stage),
                match position {
                    Some(i) => i < index.stages@.len() && index.stages@[i as int].partitions@
                        == files,
                    None => files.len() == 0,
                },
                stats.channel_bytes@.len() == channels,
                stats.channel_records@.len() == channels,
                forall|c: int|
                    0 <= c < channels ==> (
                        stats.channel_bytes@[c] as nat,
                        stats.channel_records@[c] as nat,
                    ) == #[trigger] channel_total(index, job_id, stage, attempts@, c, p as nat),
                stats.total_bytes == seq_sum(sizes(stats.channel_bytes@)),
                stats.total_records == seq_sum(counts(stats.channel_records@)),
                stats.total_bytes <= stage_bound(files, p as nat).0,
                stats.total_records <= stage_bound(files, p as nat).1,
            decreases n - p,
        {
            let attempt: usize = attempts[p];
            let mut c: usize = 0;
            proof {
                lemma_bounds(files, p as nat, 0);
            }
            while c < channels
                invariant
                    p < n <= attempts@.len(),
                    c <= channels,
                    attempt == attempts@[p as int],
                    index.all_countable(),
                    files == index.stage_files(stage),
                    match position {
                        Some(i) => i < index.stages@.len() && index.stages@[i as int].partitions@
                            == files,
                        None => files.len() == 0,
                    },
                    stats.channel_bytes@.len() == channels,
                    stats.channel_records@.len() == channels,
                    forall|k: int|
                        0 <= k < c ==> (
                            stats.channel_bytes@[k] as nat,
                            stats.channel_records@[k] as nat,
                        ) == #[trigger] channel_total(
                            index,
                            job_id,
                            stage,
                            attempts@,
                            k,
                            (p + 1) as nat,
                        ),
                    forall|k: int|
                        c <= k < channels ==> (
                            stats.channel_bytes@[k] as nat,
                            stats.channel_records@[k] as nat,
                        ) == #[trigger] channel_total(index, job_id, stage, attempts@, k, p as nat),
                    stats.total_bytes == seq_sum(sizes(stats.channel_bytes@)),
                    stats.total_records == seq_sum(counts(stats.channel_records@)),
                    stats.total_bytes <= stage_bound(files, p as nat).0 + row_bound(
                        files,
                        p as int,
                        c as nat,
                    ).0,
                    stats.total_records <= stage_bound(files, p as nat).1 + row_bound(
                        files,
                        p as int,
                        c as nat,
                    ).1,
                decreases channels - c,
            {
                let ghost content = index.content(job_id, stage, p as int, attempt, c as int);
                let entry: (u64, usize) = index.recorded_at(position, job_id, p, attempt, c, Ghost(stage));
                let (bytes, records) = entry;
                assert(recorded(content) == (bytes as nat, records as nat));
                proof {
                    lemma_bounds(files, p as nat, c as nat);
                    lemma_bounds(files, p as nat, (c + 1) as nat);
                    if let Some(i) = position {
                        assert(countable(index.stages@[i as int].partitions@));
                    }
                    assert(channel_total(index, job_id, stage, attempts@, c as int, p as nat) == (
                        stats.channel_bytes@[c as int] as nat,
                        stats.channel_records@[c as int] as nat,
                    ));
                    lemma_seq_sum_bounds(sizes(stats.channel_bytes@), c as int);
                    lemma_seq_sum_bounds(counts(stats.channel_records@), c as int);
                    lemma_seq_sum_update(
                        sizes(stats.channel_bytes@),
                        c as int,
                        (stats.channel_bytes@[c as int] + bytes) as nat,
                    );
                    lemma_seq_sum_update(
                        counts(stats.channel_records@),
                        c as int,
                        (stats.channel_records@[c as int] + records) as nat,
                    );
                }
                let ghost old_bytes = stats.channel_bytes@;
                let ghost old_records = stats.channel_records@;
                stats.channel_bytes[c] = stats.channel_bytes[c] + bytes;
                stats.channel_records[c] = stats.channel_records[c] + records;
                stats.total_bytes = stats.total_bytes + bytes;
                stats.total_records = stats.total_records + records;
                proof {
                    assert(sizes(stats.channel_bytes@) =~= sizes(old_bytes).update(
                        c as int,
                        (old_bytes[c as int] + bytes) as nat,
                    ));
                    assert(counts(stats.channel_records@) =~= counts(old_records).update(
                        c as int,
                        (old_records[c as int] + records) as nat,
                    ));
                    assert(channel_total(index, job_id, stage, attempts@, c as int, (p + 1) as nat)
                        == plus(
                        channel_total(index, job_id, stage, attempts@, c as int, p as nat),
                        recorded(content),
                    ));
                }
                c = c + 1;
            }
            proof {
                lemma_bounds(files, p as nat, channels as nat);
            }
            p = p + 1;
        }
        stats
    }
}

impl ShuffleIndex {
    /// What the index file of one output channel of a task attempt contributes, given the
    /// position of the entry for its stage.
    fn recorded_at(
        &self,
        position: Option<usize>,
        job_id: JobId,
        partition: usize,
        attempt: usize,
        channel: usize,
        Ghost(stage): Ghost<usize>,
    ) -> (r: (u64, usize))
        requires
            match position {
                Some(i) => i < self.stages@.len() && self.stages@[i as int].partitions@
                    == self.stage_files(stage),
                None => self.stage_files(stage).len() == 0,
            },
        ensures
            recorded(self.content(job_id, stage, partition as int, attempt, channel as int)) == (
                r.0 as nat,
                r.1 as nat,
            ),
    {
        if self.job_id != job_id {
            return (0, 0);
        }
        match position {
            Some(i) => {
                let partitions = &self.stages[i].partitions;
                if partition < partitions.len() && partitions[partition].attempt == attempt
                    && channel < partitions[partition].channels.len() {
                    read_recorded(&partitions[partition].channels[channel])
                } else {
                    (0, 0)
                }
            },
            None => (0, 0),
        }
    }
}

}

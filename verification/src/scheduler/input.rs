//! Locating the upstream channels that the tasks of a stage read.

use crate::adaptive::{covers, lemma_covers_singly};
use crate::error::{
    input_stage_not_found, input_stage_not_found_text, no_task_attempt, no_task_attempt_text,
    not_assigned_to_driver, not_assigned_to_driver_text, not_assigned_to_worker,
    not_assigned_to_worker_text, ErrorView, ExecutionResult,
};
use crate::id::{JobId, TaskKey, WorkerId};
use crate::job_graph::{InputMode, OutputMode, StageInput, StageInputView};
use crate::lists::lemma_flatten_join;
use crate::scheduler::JobScheduler;
use crate::state::{JobDescriptor, JobView};
use crate::task::{
    rows, TaskAssignment, TaskAssignmentGetter, TaskInput, TaskInputKey, TaskInputLocator,
    TaskInputView, TaskPlacement,
};
use std::ops::Range;
use vstd::prelude::*;

verus! {

/// A partition and a channel of an upstream stage.
pub type Cell = (usize, usize);

/// All channels of a partition.
pub open spec fn partition_cells(channels: nat, partition: int) -> Seq<Cell> {
    Seq::new(channels, |c: int| (partition as usize, c as usize))
}

/// A channel of all partitions.
pub open spec fn channel_cells(partitions: nat, channel: int) -> Seq<Cell> {
    Seq::new(partitions, |p: int| (p as usize, channel as usize))
}

/// Consecutive channels, each of all partitions.
pub open spec fn channel_rows(partitions: nat, start: int, end: int) -> Seq<Seq<Cell>> {
    Seq::new(
        if start < end {
            (end - start) as nat
        } else {
            0
        },
        |i: int| channel_cells(partitions, start + i),
    )
}

/// All partitions, each with all channels.
pub open spec fn partition_rows(partitions: nat, channels: nat) -> Seq<Seq<Cell>> {
    Seq::new(partitions, |p: int| partition_cells(channels, p))
}

/// What each task of a stage reads of an upstream stage.
///
/// Forwarded and merged inputs are listed by partition. A shuffled input is read by channel, or by
/// group of channels once the groups have been chosen. A broadcast input is read as a whole.
pub open spec fn input_cells(
    mode: InputMode,
    ranges: Option<Seq<Range<usize>>>,
    partitions: nat,
    channels: nat,
) -> Seq<Seq<Cell>> {
    match mode {
        InputMode::Forward | InputMode::Merge => partition_rows(partitions, channels),
        InputMode::Shuffle => match ranges {
            Some(ranges) => ranges.map_values(
                |r: Range<usize>| channel_rows(partitions, r.start as int, r.end as int).flatten(),
            ),
            None => channel_rows(partitions, 0, channels as int),
        },
        InputMode::Broadcast => seq![partition_rows(partitions, channels).flatten()],
    }
}

/// The first item of a sequence with a property.
pub open spec fn first_where<A>(s: Seq<A>, f: spec_fn(A) -> bool) -> Option<A>
    decreases s.len(),
{
    if s.len() == 0 {
        None
    } else if f(s[0]) {
        Some(s[0])
    } else {
        first_where(s.skip(1), f)
    }
}

/// The first item of a table with a property, row by row.
pub open spec fn first_in_rows<A>(s: Seq<Seq<A>>, f: spec_fn(A) -> bool) -> Option<A>
    decreases s.len(),
{
    if s.len() == 0 {
        None
    } else {
        match first_where(s[0], f) {
            Some(x) => Some(x),
            None => first_in_rows(s.skip(1), f),
        }
    }
}

/// Whether a partition of an upstream stage has not been attempted.
pub open spec fn unattempted(job: JobView, stage: usize) -> spec_fn(Cell) -> bool {
    |c: Cell| job.latest_attempt(stage as int, c.0 as int) is None
}

/// The channel of the latest attempt at a partition.
pub open spec fn input_key(job: JobView, stage: usize, cell: Cell) -> TaskInputKey {
    TaskInputKey {
        partition: cell.0,
        attempt: job.latest_attempt(stage as int, cell.0 as int)->0,
        channel: cell.1,
    }
}

/// The channels of the latest attempts at the partitions of a table.
pub open spec fn input_keys(job: JobView, stage: usize, cells: Seq<Seq<Cell>>) -> Seq<
    Seq<TaskInputKey>,
> {
    cells.map_values(
        |row: Seq<Cell>| row.map_values(|c: Cell| input_key(job, stage, c)),
    )
}

/// The task attempt that writes a channel.
pub open spec fn writer_key(job_id: JobId, stage: usize, key: TaskInputKey) -> TaskKey {
    TaskKey { job_id, stage, partition: key.partition, attempt: key.attempt }
}

/// Whether a task attempt that writes a channel is not placed on the driver.
pub open spec fn not_on_driver(
    job_id: JobId,
    stage: usize,
    assigned: spec_fn(TaskKey) -> Option<TaskAssignment>,
) -> spec_fn(TaskInputKey) -> bool {
    |k: TaskInputKey| assigned(writer_key(job_id, stage, k)) != Some(TaskAssignment::Driver)
}

/// Whether a task attempt that writes a channel is not placed on a worker.
pub open spec fn not_on_worker(
    job_id: JobId,
    stage: usize,
    assigned: spec_fn(TaskKey) -> Option<TaskAssignment>,
) -> spec_fn(TaskInputKey) -> bool {
    |k: TaskInputKey|
        match assigned(writer_key(job_id, stage, k)) {
            Some(TaskAssignment::Worker { .. }) => false,
            _ => true,
        }
}

/// A channel together with the worker that serves it.
pub open spec fn located_key(
    job_id: JobId,
    stage: usize,
    assigned: spec_fn(TaskKey) -> Option<TaskAssignment>,
    key: TaskInputKey,
) -> (WorkerId, TaskInputKey) {
    (assigned(writer_key(job_id, stage, key))->0->worker_id, key)
}

/// Channels together with the workers that serve them.
pub open spec fn located_keys(
    job_id: JobId,
    stage: usize,
    assigned: spec_fn(TaskKey) -> Option<TaskAssignment>,
    keys: Seq<Seq<TaskInputKey>>,
) -> Seq<Seq<(WorkerId, TaskInputKey)>> {
    keys.map_values(
        |row: Seq<TaskInputKey>|
            row.map_values(|k: TaskInputKey| located_key(job_id, stage, assigned, k)),
    )
}

/// Where the channels of an upstream stage are found, given the channels that each task reads.
pub open spec fn located_input(
    job_id: JobId,
    stage: usize,
    placement: TaskPlacement,
    assigned: spec_fn(TaskKey) -> Option<TaskAssignment>,
    keys: Seq<Seq<TaskInputKey>>,
) -> Result<TaskInputView, ErrorView> {
    match placement {
        TaskPlacement::Driver => match first_in_rows(keys, not_on_driver(job_id, stage, assigned)) {
            Some(k) => Err(
                ErrorView::Internal(
                    not_assigned_to_driver_text(job_id, stage, k.partition, k.attempt),
                ),
            ),
            None => Ok(TaskInputView::Driver { stage, keys }),
        },
        TaskPlacement::Worker => match first_in_rows(keys, not_on_worker(job_id, stage, assigned)) {
            Some(k) => Err(
                ErrorView::Internal(
                    not_assigned_to_worker_text(job_id, stage, k.partition, k.attempt),
                ),
            ),
            None => Ok(
                TaskInputView::Worker { stage, keys: located_keys(job_id, stage, assigned, keys) },
            ),
        },
    }
}

/// One input of a task, or the reason why it cannot be read.
pub open spec fn task_input(
    job_id: JobId,
    job: JobView,
    input: StageInputView,
    assigned: spec_fn(TaskKey) -> Option<TaskAssignment>,
) -> Result<TaskInputView, ErrorView> {
    if input.stage >= job.graph.stages.len() {
        Err(ErrorView::Invalid(input_stage_not_found_text(job_id, input.stage)))
    } else {
        let producer = job.graph.stages[input.stage as int];
        let cells = input_cells(
            input.mode,
            input.partition_ranges,
            producer.plan.partitions as nat,
            producer.distribution.spec_channels() as nat,
        );
        match first_in_rows(cells, unattempted(job, input.stage)) {
            Some(cell) => Err(
                ErrorView::Invalid(no_task_attempt_text(job_id, input.stage, cell.0)),
            ),
            None => located_input(
                job_id,
                input.stage,
                producer.placement,
                assigned,
                input_keys(job, input.stage, cells),
            ),
        }
    }
}

/// Groups of channels that cover all channels are read together as the single channels would be:
/// every channel of every partition once, and in the same order.
pub proof fn lemma_groups_read_everything(
    ranges: Seq<Range<usize>>,
    partitions: nat,
    channels: nat,
)
    requires
        covers(ranges, channels),
    ensures
        input_cells(InputMode::Shuffle, Some(ranges), partitions, channels).flatten()
            == input_cells(InputMode::Shuffle, None, partitions, channels).flatten(),
{
    let grouped = input_cells(InputMode::Shuffle, Some(ranges), partitions, channels);
    if ranges.len() > 0 {
        lemma_groups_read_prefix(ranges, partitions, channels, ranges.len());
        assert(grouped.take(ranges.len() as int) =~= grouped);
    } else {
        assert(grouped.flatten() =~= Seq::empty());
        assert(channel_rows(partitions, 0, 0).flatten() =~= Seq::empty());
    }
}

/// If there are as many groups as channels, every task reads what it would read without groups.
pub proof fn lemma_single_groups_change_nothing(
    ranges: Seq<Range<usize>>,
    partitions: nat,
    channels: nat,
)
    requires
        covers(ranges, channels),
        ranges.len() == channels,
    ensures
        input_cells(InputMode::Shuffle, Some(ranges), partitions, channels) == input_cells(
            InputMode::Shuffle,
            None,
            partitions,
            channels,
        ),
{
    let grouped = input_cells(InputMode::Shuffle, Some(ranges), partitions, channels);
    let single = input_cells(InputMode::Shuffle, None, partitions, channels);
    lemma_covers_singly(ranges, channels);
    assert forall|i: int| 0 <= i < channels implies #[trigger] grouped[i] == single[i] by {
        let rows = channel_rows(partitions, i, i + 1);
        assert(ranges[i].start == i && ranges[i].end == i + 1);
        assert(grouped[i] == rows.flatten());
        assert(rows =~= seq![channel_cells(partitions, i)]);
        assert(rows.drop_first().flatten() =~= Seq::empty());
        assert(rows.flatten() =~= rows.first() + rows.drop_first().flatten());
        assert(grouped[i] =~= channel_cells(partitions, i));
    }
    assert(grouped =~= single);
}

/// The first groups of channels are read together as the channels in them would be.
proof fn lemma_groups_read_prefix(
    ranges: Seq<Range<usize>>,
    partitions: nat,
    channels: nat,
    n: nat,
)
    requires
        covers(ranges, channels),
        0 < n <= ranges.len(),
    ensures
        input_cells(InputMode::Shuffle, Some(ranges), partitions, channels).take(n as int).flatten()
            == channel_rows(partitions, 0, ranges[n - 1].end as int).flatten(),
    decreases n,
{
    let grouped = input_cells(InputMode::Shuffle, Some(ranges), partitions, channels);
    let r = ranges[n - 1];
    let last = channel_rows(partitions, r.start as int, r.end as int);
    let front = grouped.take(n as int);
    front.lemma_flatten_and_flatten_alt_are_equivalent();
    front.drop_last().lemma_flatten_and_flatten_alt_are_equivalent();
    assert(front.last() == last.flatten());
    assert(front.drop_last() =~= grouped.take(n - 1));
    assert(front.flatten() == grouped.take(n - 1).flatten() + last.flatten());
    if n == 1 {
        assert(grouped.take(0).flatten() =~= Seq::empty());
        assert(front.flatten() =~= last.flatten());
    } else {
        lemma_groups_read_prefix(ranges, partitions, channels, (n - 1) as nat);
        assert(ranges[n - 2].end == ranges[n - 1].start);
        let before = channel_rows(partitions, 0, r.start as int);
        assert(before + last =~= channel_rows(partitions, 0, r.end as int));
        lemma_flatten_join(before, last);
    }
}

/// Lists all channels of a partition.
fn list_partition_cells(channels: usize, partition: usize) -> (r: Vec<Cell>)
    ensures
        r@ == partition_cells(channels as nat, partition as int),
{
    let mut r: Vec<Cell> = Vec::new();
    let mut c: usize = 0;
    while c < channels
        invariant
            c <= channels,
            r@ == partition_cells(c as nat, partition as int),
        decreases channels - c,
    {
        r.push((partition, c));
        c = c + 1;
        assert(r@ =~= partition_cells(c as nat, partition as int));
    }
    r
}

/// Lists a channel of all partitions.
fn list_channel_cells(partitions: usize, channel: usize) -> (r: Vec<Cell>)
    ensures
        r@ == channel_cells(partitions as nat, channel as int),
{
    let mut r: Vec<Cell> = Vec::new();
    let mut p: usize = 0;
    while p < partitions
        invariant
            p <= partitions,
            r@ == channel_cells(p as nat, channel as int),
        decreases partitions - p,
    {
        r.push((p, channel));
        p = p + 1;
        assert(r@ =~= channel_cells(p as nat, channel as int));
    }
    r
}

/// Lists all partitions, each with all channels.
fn list_partition_rows(partitions: usize, channels: usize) -> (r: Vec<Vec<Cell>>)
    ensures
        rows(r@) == partition_rows(partitions as nat, channels as nat),
{
    let mut r: Vec<Vec<Cell>> = Vec::new();
    let mut p: usize = 0;
    assert(rows(r@) =~= partition_rows(0, channels as nat));
    while p < partitions
        invariant
            p <= partitions,
            rows(r@) == partition_rows(p as nat, channels as nat),
        decreases partitions - p,
    {
        let ghost before = r@;
        let row = list_partition_cells(channels, p);
        r.push(row);
        p = p + 1;
        assert(rows(r@) =~= rows(before).push(row@));
        assert(rows(r@) =~= partition_rows(p as nat, channels as nat));
    }
    r
}

/// Lists consecutive channels, each of all partitions.
fn list_channel_rows(partitions: usize, start: usize, end: usize) -> (r: Vec<Vec<Cell>>)
    ensures
        rows(r@) == channel_rows(partitions as nat, start as int, end as int),
{
    let mut r: Vec<Vec<Cell>> = Vec::new();
    let mut c: usize = start;
    assert(rows(r@) =~= channel_rows(partitions as nat, start as int, start as int));
    while c < end
        invariant
            start <= c,
            start <= end ==> c <= end,
            start > end ==> c == start,
            rows(r@) == channel_rows(partitions as nat, start as int, c as int),
        decreases end - c,
    {
        let ghost before = r@;
        let row = list_channel_cells(partitions, c);
        r.push(row);
        c = c + 1;
        assert(rows(r@) =~= rows(before).push(row@));
        assert(rows(r@) =~= channel_rows(partitions as nat, start as int, c as int));
    }
    assert(rows(r@) =~= channel_rows(partitions as nat, start as int, end as int));
    r
}

/// Joins the rows of a table.
fn join_rows(table: Vec<Vec<Cell>>) -> (r: Vec<Cell>)
    ensures
        r@ == rows(table@).flatten(),
{
    let ghost all = rows(table@);
    let mut r: Vec<Cell> = Vec::new();
    let mut i: usize = 0;
    assert(all.take(0).flatten_alt() =~= Seq::empty());
    while i < table.len()
        invariant
            i <= table@.len(),
            all == rows(table@),
            r@ == all.take(i as int).flatten_alt(),
        decreases table@.len() - i,
    {
        let ghost before = r@;
        let row = &table[i];
        let mut j: usize = 0;
        assert(before + row@.take(0) =~= before);
        while j < row.len()
            invariant
                j <= row@.len(),
                r@ == before + row@.take(j as int),
            decreases row@.len() - j,
        {
            r.push(row[j]);
            j = j + 1;
            assert(r@ =~= before + row@.take(j as int));
        }
        proof {
            assert(row@.take(j as int) =~= row@);
            assert(all.take(i + 1).drop_last() =~= all.take(i as int));
            assert(all.take(i + 1).last() == row@);
        }
        i = i + 1;
    }
    proof {
        assert(all.take(i as int) =~= all);
        all.lemma_flatten_and_flatten_alt_are_equivalent();
    }
    r
}

/// Lists what each task of a stage reads of an upstream stage.
fn list_input_cells(input: &StageInput, partitions: usize, channels: usize) -> (r: Vec<Vec<Cell>>)
    ensures
        rows(r@) == input_cells(
            input@.mode,
            input@.partition_ranges,
            partitions as nat,
            channels as nat,
        ),
{
    match input.mode {
        InputMode::Forward | InputMode::Merge => list_partition_rows(partitions, channels),
        InputMode::Shuffle => match &input.partition_ranges {
            Some(ranges) => {
                let ghost expected = input_cells(
                    input@.mode,
                    input@.partition_ranges,
                    partitions as nat,
                    channels as nat,
                );
                let mut r: Vec<Vec<Cell>> = Vec::new();
                let mut i: usize = 0;
                assert(rows(r@) =~= expected.take(0));
                while i < ranges.len()
                    invariant
                        i <= ranges@.len(),
                        expected.len() == ranges@.len(),
                        forall|k: int|
                            0 <= k < ranges@.len() ==> #[trigger] expected[k] == channel_rows(
                                partitions as nat,
                                ranges@[k].start as int,
                                ranges@[k].end as int,
                            ).flatten(),
                        rows(r@) == expected.take(i as int),
                    decreases ranges@.len() - i,
                {
                    let ghost before = r@;
                    let row = join_rows(
                        list_channel_rows(partitions, ranges[i].start, ranges[i].end),
                    );
                    r.push(row);
                    assert(row@ == expected[i as int]);
                    i = i + 1;
                    assert(rows(r@) =~= rows(before).push(row@));
                    assert(rows(r@) =~= expected.take(i as int));
                }
                assert(expected.take(i as int) =~= expected);
                r
            },
            None => list_channel_rows(partitions, 0, channels),
        },
        InputMode::Broadcast => {
            let mut r: Vec<Vec<Cell>> = Vec::new();
            r.push(join_rows(list_partition_rows(partitions, channels)));
            assert(rows(r@) =~= seq![
                partition_rows(partitions as nat, channels as nat).flatten(),
            ]);
            r
        },
    }
}

/// The items of a sequence from a position on have the first one with a property in common with
/// the sequence if none before the position has the property.
proof fn lemma_first_where_skip<A>(s: Seq<A>, f: spec_fn(A) -> bool, i: int)
    requires
        0 <= i < s.len(),
    ensures
        first_where(s.skip(i), f) == if f(s[i]) {
            Some(s[i])
        } else {
            first_where(s.skip(i + 1), f)
        },
{
    assert(s.skip(i).skip(1) =~= s.skip(i + 1));
}

/// The rows of a table from a position on have the first item with a property in common with the
/// table if none before has the property.
proof fn lemma_first_in_rows_skip<A>(s: Seq<Seq<A>>, f: spec_fn(A) -> bool, i: int)
    requires
        0 <= i < s.len(),
    ensures
        first_in_rows(s.skip(i), f) == match first_where(s[i], f) {
            Some(x) => Some(x),
            None => first_in_rows(s.skip(i + 1), f),
        },
{
    assert(s.skip(i).skip(1) =~= s.skip(i + 1));
}

/// Looks up the latest attempts for a row.
fn resolve_row(job_id: JobId, job: &JobDescriptor, stage: usize, cells: &Vec<Cell>) -> (r: ExecutionResult<
    Vec<TaskInputKey>,
>)
    ensures
        match r {
            Ok(keys) => first_where(cells@, unattempted(job@, stage)) is None && keys@
                == cells@.map_values(|c: Cell| input_key(job@, stage, c)),
            Err(e) => match first_where(cells@, unattempted(job@, stage)) {
                Some(c) => e@ == ErrorView::Invalid(no_task_attempt_text(job_id, stage, c.0)),
                None => false,
            },
        },
{
    let ghost f = unattempted(job@, stage);
    let ghost expected = cells@.map_values(|c: Cell| input_key(job@, stage, c));
    let mut keys: Vec<TaskInputKey> = Vec::new();
    let mut i: usize = 0;
    assert(cells@.skip(0) =~= cells@);
    while i < cells.len()
        invariant
            i <= cells@.len(),
            f == unattempted(job@, stage),
            expected == cells@.map_values(|c: Cell| input_key(job@, stage, c)),
            first_where(cells@, f) == first_where(cells@.skip(i as int), f),
            keys@ == expected.take(i as int),
        decreases cells@.len() - i,
    {
        let (partition, channel) = cells[i];
        proof {
            lemma_first_where_skip(cells@, f, i as int);
        }
        match JobScheduler::get_latest_task_attempt(job, stage, partition) {
            Some(attempt) => {
                keys.push(TaskInputKey { partition, attempt, channel });
            },
            None => {
                return Err(no_task_attempt(job_id, stage, partition));
            },
        }
        i = i + 1;
        assert(keys@ =~= expected.take(i as int));
    }
    assert(expected.take(i as int) =~= expected);
    Ok(keys)
}

/// Looks up the latest attempts for a table.
fn resolve_rows(job_id: JobId, job: &JobDescriptor, stage: usize, cells: &Vec<Vec<Cell>>) -> (r: ExecutionResult<
    Vec<Vec<TaskInputKey>>,
>)
    ensures
        match r {
            Ok(keys) => first_in_rows(rows(cells@), unattempted(job@, stage)) is None && rows(keys@)
                == input_keys(job@, stage, rows(cells@)),
            Err(e) => match first_in_rows(rows(cells@), unattempted(job@, stage)) {
                Some(c) => e@ == ErrorView::Invalid(no_task_attempt_text(job_id, stage, c.0)),
                None => false,
            },
        },
{
    let ghost f = unattempted(job@, stage);
    let ghost table = rows(cells@);
    let ghost expected = input_keys(job@, stage, table);
    let mut keys: Vec<Vec<TaskInputKey>> = Vec::new();
    let mut i: usize = 0;
    assert(table.skip(0) =~= table);
    assert(rows(keys@) =~= expected.take(0));
    while i < cells.len()
        invariant
            i <= cells@.len(),
            f == unattempted(job@, stage),
            table == rows(cells@),
            expected == input_keys(job@, stage, table),
            first_in_rows(table, f) == first_in_rows(table.skip(i as int), f),
            rows(keys@) == expected.take(i as int),
        decreases cells@.len() - i,
    {
        proof {
            lemma_first_in_rows_skip(table, f, i as int);
            assert(table[i as int] == cells@[i as int]@);
        }
        match resolve_row(job_id, job, stage, &cells[i]) {
            Ok(row) => {
                let ghost before = keys@;
                keys.push(row);
                assert(rows(keys@) =~= rows(before).push(row@));
            },
            Err(e) => {
                return Err(e);
            },
        }
        i = i + 1;
        assert(rows(keys@) =~= expected.take(i as int));
    }
    assert(expected.take(i as int) =~= expected);
    Ok(keys)
}

/// Checks that all channels are served by the driver.
fn check_on_driver<A: TaskAssignmentGetter>(
    job_id: JobId,
    stage: usize,
    keys: &Vec<Vec<TaskInputKey>>,
    assignments: &A,
) -> (r: ExecutionResult<()>)
    ensures
        ({
            let f = not_on_driver(job_id, stage, |k: TaskKey| assignments.assigned(k));
            match r {
                Ok(_) => first_in_rows(rows(keys@), f) is None,
                Err(e) => match first_in_rows(rows(keys@), f) {
                    Some(k) => e@ == ErrorView::Internal(
                        not_assigned_to_driver_text(job_id, stage, k.partition, k.attempt),
                    ),
                    None => false,
                },
            }
        }),
{
    let ghost f = not_on_driver(job_id, stage, |k: TaskKey| assignments.assigned(k));
    let ghost table = rows(keys@);
    let mut i: usize = 0;
    assert(table.skip(0) =~= table);
    while i < keys.len()
        invariant
            i <= keys@.len(),
            f == not_on_driver(job_id, stage, |k: TaskKey| assignments.assigned(k)),
            table == rows(keys@),
            first_in_rows(table, f) == first_in_rows(table.skip(i as int), f),
        decreases keys@.len() - i,
    {
        let row = &keys[i];
        let mut j: usize = 0;
        proof {
            lemma_first_in_rows_skip(table, f, i as int);
            assert(table[i as int] == row@);
            assert(row@.skip(0) =~= row@);
        }
        while j < row.len()
            invariant
                i < table.len(),
                j <= row@.len(),
                f == not_on_driver(job_id, stage, |k: TaskKey| assignments.assigned(k)),
                table[i as int] == row@,
                table == rows(keys@),
                first_in_rows(table, f) == match first_where(row@, f) {
                    Some(x) => Some(x),
                    None => first_in_rows(table.skip(i + 1), f),
                },
                first_where(row@, f) == first_where(row@.skip(j as int), f),
            decreases row@.len() - j,
        {
            let k = row[j];
            proof {
                lemma_first_where_skip(row@, f, j as int);
            }
            match assignments.get(
                &TaskKey { job_id, stage, partition: k.partition, attempt: k.attempt },
            ) {
                Some(TaskAssignment::Driver) => {},
                _ => {
                    return Err(not_assigned_to_driver(job_id, stage, k.partition, k.attempt));
                },
            }
            j = j + 1;
        }
        i = i + 1;
    }
    Ok(())
}

/// Looks up the workers that serve the channels of a row.
fn locate_row<A: TaskAssignmentGetter>(
    job_id: JobId,
    stage: usize,
    keys: &Vec<TaskInputKey>,
    assignments: &A,
) -> (r: ExecutionResult<Vec<(WorkerId, TaskInputKey)>>)
    ensures
        ({
            let assigned = |k: TaskKey| assignments.assigned(k);
            let f = not_on_worker(job_id, stage, assigned);
            match r {
                Ok(located) => first_where(keys@, f) is None && located@ == keys@.map_values(
                    |k: TaskInputKey| located_key(job_id, stage, assigned, k),
                ),
                Err(e) => match first_where(keys@, f) {
                    Some(k) => e@ == ErrorView::Internal(
                        not_assigned_to_worker_text(job_id, stage, k.partition, k.attempt),
                    ),
                    None => false,
                },
            }
        }),
{
    let ghost assigned = |k: TaskKey| assignments.assigned(k);
    let ghost f = not_on_worker(job_id, stage, assigned);
    let ghost expected = keys@.map_values(
        |k: TaskInputKey| located_key(job_id, stage, assigned, k),
    );
    let mut located: Vec<(WorkerId, TaskInputKey)> = Vec::new();
    let mut j: usize = 0;
    assert(keys@.skip(0) =~= keys@);
    while j < keys.len()
        invariant
            j <= keys@.len(),
            assigned == (|k: TaskKey| assignments.assigned(k)),
            f == not_on_worker(job_id, stage, assigned),
            expected == keys@.map_values(
                |k: TaskInputKey| located_key(job_id, stage, assigned, k),
            ),
            first_where(keys@, f) == first_where(keys@.skip(j as int), f),
            located@ == expected.take(j as int),
        decreases keys@.len() - j,
    {
        let k = keys[j];
        proof {
            lemma_first_where_skip(keys@, f, j as int);
        }
        match assignments.get(
            &TaskKey { job_id, stage, partition: k.partition, attempt: k.attempt },
        ) {
            Some(TaskAssignment::Worker { worker_id, slot: _ }) => {
                located.push((worker_id, k));
            },
            _ => {
                return Err(not_assigned_to_worker(job_id, stage, k.partition, k.attempt));
            },
        }
        j = j + 1;
        assert(located@ =~= expected.take(j as int));
    }
    assert(expected.take(j as int) =~= expected);
    Ok(located)
}

/// Looks up the workers that serve the channels of a table.
fn locate_rows<A: TaskAssignmentGetter>(
    job_id: JobId,
    stage: usize,
    keys: &Vec<Vec<TaskInputKey>>,
    assignments: &A,
) -> (r: ExecutionResult<Vec<Vec<(WorkerId, TaskInputKey)>>>)
    ensures
        ({
            let assigned = |k: TaskKey| assignments.assigned(k);
            let f = not_on_worker(job_id, stage, assigned);
            match r {
                Ok(located) => first_in_rows(rows(keys@), f) is None && rows(located@)
                    == located_keys(job_id, stage, assigned, rows(keys@)),
                Err(e) => match first_in_rows(rows(keys@), f) {
                    Some(k) => e@ == ErrorView::Internal(
                        not_assigned_to_worker_text(job_id, stage, k.partition, k.attempt),
                    ),
                    None => false,
                },
            }
        }),
{
    let ghost assigned = |k: TaskKey| assignments.assigned(k);
    let ghost f = not_on_worker(job_id, stage, assigned);
    let ghost table = rows(keys@);
    let ghost expected = located_keys(job_id, stage, assigned, table);
    let mut located: Vec<Vec<(WorkerId, TaskInputKey)>> = Vec::new();
    let mut i: usize = 0;
    assert(table.skip(0) =~= table);
    assert(rows(located@) =~= expected.take(0));
    while i < keys.len()
        invariant
            i <= keys@.len(),
            assigned == (|k: TaskKey| assignments.assigned(k)),
            f == not_on_worker(job_id, stage, assigned),
            table == rows(keys@),
            expected == located_keys(job_id, stage, assigned, table),
            first_in_rows(table, f) == first_in_rows(table.skip(i as int), f),
            rows(located@) == expected.take(i as int),
        decreases keys@.len() - i,
    {
        proof {
            lemma_first_in_rows_skip(table, f, i as int);
            assert(table[i as int] == keys@[i as int]@);
        }
        match locate_row(job_id, stage, &keys[i], assignments) {
            Ok(row) => {
                let ghost before = located@;
                located.push(row);
                assert(rows(located@) =~= rows(before).push(row@));
            },
            Err(e) => {
                return Err(e);
            },
        }
        i = i + 1;
        assert(rows(located@) =~= expected.take(i as int));
    }
    assert(expected.take(i as int) =~= expected);
    Ok(located)
}

impl JobScheduler {
    /// Locates one input of a task.
    ///
    /// It fails if the upstream stage does not exist, if a partition of it that is read has not
    /// been attempted, or if an attempt that is read is not placed where its stage runs. Of several
    /// partitions or attempts, the first one in reading order is reported.
    pub fn get_task_input<A: TaskAssignmentGetter>(
        &self,
        job: &JobDescriptor,
        key: &TaskKey,
        input: &StageInput,
        assignments: &A,
    ) -> (r: ExecutionResult<TaskInput>)
        ensures
            ({
                let expected = task_input(
                    key.job_id,
                    job@,
                    input@,
                    |k: TaskKey| assignments.assigned(k),
                );
                match r {
                    Ok(found) => expected == Ok::<TaskInputView, ErrorView>(found@),
                    Err(e) => expected == Err::<TaskInputView, ErrorView>(e@),
                }
            }),
    {
        if input.stage >= job.graph.stages.len() {
            return Err(input_stage_not_found(key.job_id, input.stage));
        }
        let producer = &job.graph.stages[input.stage];
        assert(job@.graph.stages[input.stage as int] == producer@);
        let partitions: usize = producer.plan.partitions;
        let channels: usize = producer.distribution.channels();
        let cells = list_input_cells(input, partitions, channels);
        let keys = match resolve_rows(key.job_id, job, input.stage, &cells) {
            Ok(keys) => keys,
            Err(e) => {
                return Err(e);
            },
        };
        match producer.mode {
            OutputMode::Pipelined | OutputMode::Blocking => match producer.placement {
                TaskPlacement::Driver => match check_on_driver(
                    key.job_id,
                    input.stage,
                    &keys,
                    assignments,
                ) {
                    Ok(_) => Ok(
                        TaskInput {
                            locator: TaskInputLocator::Driver { stage: input.stage, keys },
                        },
                    ),
                    Err(e) => Err(e),
                },
                TaskPlacement::Worker => match locate_rows(
                    key.job_id,
                    input.stage,
                    &keys,
                    assignments,
                ) {
                    Ok(keys) => Ok(
                        TaskInput {
                            locator: TaskInputLocator::Worker { stage: input.stage, keys },
                        },
                    ),
                    Err(e) => Err(e),
                },
            },
        }
    }
}

}

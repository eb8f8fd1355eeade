//! Which channels the tasks of a stage read, told key by key.

use crate::error::{
    input_stage_not_found_text, job_not_found_text, job_not_running_text, no_task_attempt_text,
    not_assigned_to_driver_text, not_assigned_to_worker_text, stage_not_found_text, ErrorView,
};
use crate::id::{JobId, TaskKey};
use crate::job_graph::{InputMode, OutputDistribution, StageInputView, StageView};
use crate::scheduler::definition::{task_inputs, EncodedStage};
use crate::scheduler::input::{
    channel_cells, channel_rows, first_in_rows, first_where, input_cells, input_key, input_keys,
    not_on_driver, not_on_worker, partition_cells, partition_rows, task_input, unattempted,
    writer_key, Cell,
};
use crate::scheduler::{task_definition, SchedulerView};
use crate::state::{JobView, TaskContextHandle};
use crate::task::{
    OutputDistributionView, TaskAssignment, TaskDefinitionView, TaskInputView, TaskOutputLocator,
    TaskPlacement,
};
use std::ops::Range;
use vstd::prelude::*;

verus! {

/// Rows of the same length one after the other: how many items there are, and where one comes from.
pub proof fn lemma_flatten_even<A>(rows: Seq<Seq<A>>, w: int)
    requires
        w >= 0,
        forall|i: int| 0 <= i < rows.len() ==> (#[trigger] rows[i]).len() == w,
    ensures
        rows.flatten().len() == rows.len() * w,
        forall|x: int|
            0 <= x < rows.flatten().len() ==> is_at(rows, w, x, #[trigger] rows.flatten()[x]),
    decreases rows.len(),
{
    if rows.len() > 0 {
        let rest = rows.drop_first();
        assert forall|i: int| 0 <= i < rest.len() implies (#[trigger] rest[i]).len() == w by {
            assert(rest[i] == rows[i + 1]);
        }
        lemma_flatten_even(rest, w);
        let all = rows.first() + rest.flatten();
        assert(rows.flatten() == all);
        assert(rows.len() * w == w + rest.len() * w) by (nonlinear_arith)
            requires
                rows.len() == rest.len() + 1,
        ;
        assert forall|x: int| 0 <= x < rows.flatten().len() implies is_at(
            rows,
            w,
            x,
            #[trigger] rows.flatten()[x],
        ) by {
            if x < w {
                vstd::arithmetic::div_mod::lemma_basic_div(x, w);
                vstd::arithmetic::div_mod::lemma_small_mod(x as nat, w as nat);
                assert(all[x] == rows[0][x]);
            } else if w > 0 {
                let y = x - w;
                assert(all[x] == rest.flatten()[y]);
                assert(is_at(rest, w, y, rest.flatten()[y]));
                vstd::arithmetic::div_mod::lemma_div_plus_one(y, w);
                vstd::arithmetic::div_mod::lemma_mod_add_multiples_vanish(y, w);
                assert(rest[y / w] == rows[y / w + 1]);
            } else {
                assert(rest.len() * w == 0) by (nonlinear_arith)
                    requires
                        w == 0,
                ;
            }
        }
    } else {
        assert(rows.flatten() =~= Seq::empty());
        assert(rows.len() * w == 0) by (nonlinear_arith)
            requires
                rows.len() == 0,
        ;
    }
}

/// Whether an item stands at a position of a table with rows of the same length, counted row by row.
pub open spec fn is_at<A>(rows: Seq<Seq<A>>, w: int, x: int, item: A) -> bool {
    &&& 0 <= x / w < rows.len()
    &&& 0 <= x % w < w
    &&& item == rows[x / w][x % w]
}

/// The number of channels from the start of a range up to its end.
pub open spec fn width(range: Range<usize>) -> nat {
    if range.start < range.end {
        (range.end - range.start) as nat
    } else {
        0
    }
}

/// Whether a table of partitions and channels is what the tasks of a stage read of `n` partitions with
/// `m` channels each.
///
/// - Forwarded and merged input: row by row the partitions, each with all its channels.
/// - Shuffled input: row by row the channels, each of all partitions. If there are groups of channels,
///   row by row the groups, each with its channels one after the other.
/// - Broadcast input: a single row with all partitions, each with all its channels.
pub open spec fn is_laid_out(
    table: Seq<Seq<(int, int)>>,
    mode: InputMode,
    ranges: Option<Seq<Range<usize>>>,
    n: int,
    m: int,
) -> bool {
    match mode {
        InputMode::Forward | InputMode::Merge => {
            &&& table.len() == n
            &&& forall|p: int| 0 <= p < n ==> (#[trigger] table[p]).len() == m
            &&& forall|p: int, c: int|
                0 <= p < n && 0 <= c < m ==> #[trigger] table[p][c] == (p, c)
        },
        InputMode::Shuffle => match ranges {
            None => {
                &&& table.len() == m
                &&& forall|c: int| 0 <= c < m ==> (#[trigger] table[c]).len() == n
                &&& forall|c: int, p: int|
                    0 <= c < m && 0 <= p < n ==> #[trigger] table[c][p] == (p, c)
            },
            Some(ranges) => {
                &&& table.len() == ranges.len()
                &&& forall|i: int|
                    0 <= i < ranges.len() ==> (#[trigger] table[i]).len() == width(ranges[i]) * n
                &&& forall|i: int, x: int|
                    0 <= i < ranges.len() && 0 <= x < table[i].len() ==> #[trigger] table[i][x] == (
                        x % n,
                        ranges[i].start + x / n,
                    )
            },
        },
        InputMode::Broadcast => {
            &&& table.len() == 1
            &&& table[0].len() == n * m
            &&& forall|x: int|
                0 <= x < table[0].len() ==> #[trigger] table[0][x] == (x / m, x % m)
        },
    }
}

/// The partitions and channels of a table of cells.
spec fn places(cells: Seq<Seq<Cell>>) -> Seq<Seq<(int, int)>> {
    cells.map_values(
        |row: Seq<Cell>| row.map_values(|c: Cell| (c.0 as int, c.1 as int)),
    )
}

/// The partitions and channels that the rows of an input hold.
pub open spec fn read_places(found: TaskInputView) -> Seq<Seq<(int, int)>> {
    match found {
        TaskInputView::Driver { keys, .. } => Seq::new(
            keys.len(),
            |i: int|
                Seq::new(
                    keys[i].len(),
                    |j: int| (keys[i][j].partition as int, keys[i][j].channel as int),
                ),
        ),
        TaskInputView::Worker { keys, .. } => Seq::new(
            keys.len(),
            |i: int|
                Seq::new(
                    keys[i].len(),
                    |j: int| (keys[i][j].1.partition as int, keys[i][j].1.channel as int),
                ),
        ),
    }
}

/// The table of cells is laid out by the mode of the input.
proof fn lemma_cells(
    mode: InputMode,
    ranges: Option<Seq<Range<usize>>>,
    n: usize,
    m: usize,
)
    ensures
        is_laid_out(
            places(input_cells(mode, ranges, n as nat, m as nat)),
            mode,
            ranges,
            n as int,
            m as int,
        ),
{
    let cells = input_cells(mode, ranges, n as nat, m as nat);
    let table = places(cells);
    match mode {
        InputMode::Forward | InputMode::Merge => {
            assert forall|p: int| 0 <= p < n implies (#[trigger] table[p]).len() == m by {
                assert(cells[p] == partition_cells(m as nat, p));
            }
            assert forall|p: int, c: int| 0 <= p < n && 0 <= c < m implies #[trigger] table[p][c]
                == (p, c) by {
                assert(cells[p] == partition_cells(m as nat, p));
            }
        },
        InputMode::Shuffle => match ranges {
            None => {
                assert forall|c: int| 0 <= c < m implies (#[trigger] table[c]).len() == n by {
                    assert(cells[c] == channel_cells(n as nat, c));
                }
                assert forall|c: int, p: int|
                    0 <= c < m && 0 <= p < n implies #[trigger] table[c][p] == (p, c) by {
                    assert(cells[c] == channel_cells(n as nat, c));
                }
            },
            Some(ranges) => {
                assert forall|i: int| 0 <= i < ranges.len() implies (#[trigger] table[i]).len()
                    == width(ranges[i]) * n && forall|x: int|
                    0 <= x < table[i].len() ==> #[trigger] table[i][x] == (
                        x % (n as int),
                        ranges[i].start + x / (n as int),
                    ) by {
                    let r = ranges[i];
                    let rows = channel_rows(n as nat, r.start as int, r.end as int);
                    assert(cells[i] == rows.flatten());
                    lemma_flatten_even(rows, n as int);
                    assert(rows.len() == width(r));
                    assert forall|x: int| 0 <= x < table[i].len() implies #[trigger] table[i][x]
                        == (x % (n as int), ranges[i].start + x / (n as int)) by {
                        assert(is_at(rows, n as int, x, rows.flatten()[x]));
                        let c = x / (n as int);
                        assert(rows[c] == channel_cells(n as nat, r.start + c));
                    }
                }
                assert forall|i: int, x: int|
                    0 <= i < ranges.len() && 0 <= x < table[i].len() implies #[trigger] table[i][x]
                    == (x % (n as int), ranges[i].start + x / (n as int)) by {
                    assert(table[i].len() == width(ranges[i]) * n);
                }
            },
        },
        InputMode::Broadcast => {
            let rows = partition_rows(n as nat, m as nat);
            assert(cells[0] == rows.flatten());
            lemma_flatten_even(rows, m as int);
            assert forall|x: int| 0 <= x < table[0].len() implies #[trigger] table[0][x] == (
                x / (m as int),
                x % (m as int),
            ) by {
                assert(is_at(rows, m as int, x, rows.flatten()[x]));
                assert(rows[x / (m as int)] == partition_cells(m as nat, x / (m as int)));
            }
        },
    }
}

/// The first item with a property: it has the property, and none before it does.
proof fn lemma_first_where<A>(s: Seq<A>, f: spec_fn(A) -> bool)
    ensures
        match first_where(s, f) {
            Some(x) => f(x) && exists|i: int|
                0 <= i < s.len() && #[trigger] s[i] == x && forall|k: int|
                    0 <= k < i ==> !f(#[trigger] s[k]),
            None => forall|k: int| 0 <= k < s.len() ==> !f(#[trigger] s[k]),
        },
    decreases s.len(),
{
    if s.len() > 0 {
        let rest = s.skip(1);
        if f(s[0]) {
            assert(s[0] == s[0] && forall|k: int| 0 <= k < 0 ==> !f(#[trigger] s[k]));
        } else {
            lemma_first_where(rest, f);
            match first_where(rest, f) {
                Some(x) => {
                    let i = choose|i: int|
                        0 <= i < rest.len() && #[trigger] rest[i] == x && forall|k: int|
                            0 <= k < i ==> !f(#[trigger] rest[k]);
                    assert(s[i + 1] == x);
                    assert forall|k: int| 0 <= k < i + 1 implies !f(#[trigger] s[k]) by {
                        if k > 0 {
                            assert(rest[k - 1] == s[k]);
                        }
                    }
                },
                None => {
                    assert forall|k: int| 0 <= k < s.len() implies !f(#[trigger] s[k]) by {
                        if k > 0 {
                            assert(rest[k - 1] == s[k]);
                        }
                    }
                },
            }
        }
    }
}

/// Whether a position of a table comes before another one, counted row by row.
spec fn is_before(k: int, l: int, i: int, j: int) -> bool {
    k < i || (k == i && l < j)
}

/// Whether an item stands at a position of a table, has a property, and is the first one to have it.
spec fn is_first<A>(s: Seq<Seq<A>>, f: spec_fn(A) -> bool, x: A, i: int, j: int) -> bool {
    &&& 0 <= i < s.len()
    &&& 0 <= j < s[i].len()
    &&& s[i][j] == x
    &&& f(x)
    &&& forall|k: int, l: int|
        0 <= k < s.len() && 0 <= l < s[k].len() && is_before(k, l, i, j) ==> !f(
            #[trigger] s[k][l],
        )
}

/// The first item of a table with a property.
proof fn lemma_first_in_rows<A>(s: Seq<Seq<A>>, f: spec_fn(A) -> bool)
    ensures
        match first_in_rows(s, f) {
            Some(x) => exists|i: int, j: int| #[trigger] is_first(s, f, x, i, j),
            None => forall|k: int, l: int|
                0 <= k < s.len() && 0 <= l < s[k].len() ==> !f(#[trigger] s[k][l]),
        },
    decreases s.len(),
{
    if s.len() > 0 {
        let rest = s.skip(1);
        lemma_first_where(s[0], f);
        match first_where(s[0], f) {
            Some(x) => {
                let j = choose|j: int|
                    0 <= j < s[0].len() && #[trigger] s[0][j] == x && forall|k: int|
                        0 <= k < j ==> !f(#[trigger] s[0][k]);
                assert(is_first(s, f, x, 0, j));
            },
            None => {
                lemma_first_in_rows(rest, f);
                match first_in_rows(rest, f) {
                    Some(x) => {
                        let (i, j) = choose|i: int, j: int| #[trigger] is_first(rest, f, x, i, j);
                        assert(rest[i] == s[i + 1]);
                        assert forall|k: int, l: int|
                            0 <= k < s.len() && 0 <= l < s[k].len() && is_before(k, l, i + 1, j)
                            implies !f(#[trigger] s[k][l]) by {
                            if k > 0 {
                                assert(rest[k - 1] == s[k]);
                                assert(!f(rest[k - 1][l]));
                            }
                        }
                        assert(is_first(s, f, x, i + 1, j));
                    },
                    None => {
                        assert forall|k: int, l: int|
                            0 <= k < s.len() && 0 <= l < s[k].len() implies !f(
                            #[trigger] s[k][l],
                        ) by {
                            if k > 0 {
                                assert(rest[k - 1] == s[k]);
                                assert(!f(rest[k - 1][l]));
                            }
                        }
                    },
                }
            },
        }
    }
}

/// Whether the tasks of a stage read anything of `n` partitions with `m` channels each.
pub open spec fn reads_any(
    mode: InputMode,
    ranges: Option<Seq<Range<usize>>>,
    n: int,
    m: int,
) -> bool {
    n > 0 && match (mode, ranges) {
        (InputMode::Shuffle, Some(ranges)) => exists|i: int|
            0 <= i < ranges.len() && (#[trigger] ranges[i]).start < ranges[i].end,
        _ => m > 0,
    }
}

/// In every table that tasks read, a partition comes after all partitions with smaller numbers.
proof fn lemma_partitions_in_order(
    table: Seq<Seq<(int, int)>>,
    mode: InputMode,
    ranges: Option<Seq<Range<usize>>>,
    n: int,
    m: int,
    i: int,
    j: int,
    q: int,
) -> (r: (int, int))
    requires
        is_laid_out(table, mode, ranges, n, m),
        n >= 0,
        m >= 0,
        0 <= i < table.len(),
        0 <= j < table[i].len(),
        0 <= q < table[i][j].0,
    ensures
        table[i][j].0 < n,
        0 <= r.0 < table.len(),
        0 <= r.1 < table[r.0].len(),
        is_before(r.0, r.1, i, j),
        table[r.0][r.1].0 == q,
{
    match mode {
        InputMode::Forward | InputMode::Merge => {
            assert(table[i][j] == (i, j));
            assert(table[q].len() == m);
            assert(table[q][0] == (q, 0int));
            (q, 0)
        },
        InputMode::Shuffle => match ranges {
            None => {
                assert(table[i].len() == n);
                assert(table[i][j] == (j, i));
                assert(table[i][q] == (q, i));
                (i, q)
            },
            Some(ranges) => {
                assert(table[i][j] == (j % n, ranges[i].start + j / n));
                if n == 0 {
                    assert(width(ranges[i]) * n == 0) by (nonlinear_arith)
                        requires
                            n == 0,
                    ;
                }
                let x = j - j % n + q;
                assert(0 <= j % n < n && 0 <= x < j && x % n == q) by {
                    let d = j / n;
                    vstd::arithmetic::div_mod::lemma_fundamental_div_mod(j, n);
                    vstd::arithmetic::div_mod::lemma_mod_bound(j, n);
                    vstd::arithmetic::div_mod::lemma_fundamental_div_mod_converse(x, n, d, q);
                    assert(d >= 0) by (nonlinear_arith)
                        requires
                            j >= 0,
                            n > 0,
                            d == j / n,
                    ;
                    assert(n * d >= 0) by (nonlinear_arith)
                        requires
                            n > 0,
                            d >= 0,
                    ;
                }
                assert(table[i][x] == (x % n, ranges[i].start + x / n));
                (i, x)
            },
        },
        InputMode::Broadcast => {
            assert(i == 0);
            assert(table[0][j] == (j / m, j % m));
            if m == 0 {
                assert(n * m == 0) by (nonlinear_arith)
                    requires
                        m == 0,
                ;
            }
            let x = q * m;
            vstd::arithmetic::div_mod::lemma_fundamental_div_mod(j, m);
            vstd::arithmetic::div_mod::lemma_mod_bound(j, m);
            let d = j / m;
            assert(0 <= x < j && d < n) by (nonlinear_arith)
                requires
                    x == q * m,
                    0 <= q < d,
                    j == m * d + j % m,
                    0 <= j % m < m,
                    j < n * m,
                    m > 0,
            ;
            assert(x / m == q && x % m == 0) by {
                vstd::arithmetic::div_mod::lemma_fundamental_div_mod_converse(x, m, q, 0);
            }
            assert(table[0][x] == (x / m, x % m));
            (0, x)
        },
    }
}

/// Whether a partition stands in a table.
spec fn holds_partition(table: Seq<Seq<(int, int)>>, p: int) -> bool {
    exists|i: int, j: int|
        0 <= i < table.len() && 0 <= j < table[i].len() && (#[trigger] table[i][j]).0 == p
}

/// Every partition below `n` is read if anything is, and no other one is.
proof fn lemma_partitions_read(
    table: Seq<Seq<(int, int)>>,
    mode: InputMode,
    ranges: Option<Seq<Range<usize>>>,
    n: int,
    m: int,
)
    requires
        is_laid_out(table, mode, ranges, n, m),
        n >= 0,
        m >= 0,
    ensures
        forall|i: int, j: int|
            0 <= i < table.len() && 0 <= j < table[i].len() ==> reads_any(mode, ranges, n, m) && 0
                <= (#[trigger] table[i][j]).0 < n,
        reads_any(mode, ranges, n, m) ==> forall|p: int|
            0 <= p < n ==> #[trigger] holds_partition(table, p),
{
    assert forall|i: int, j: int|
        0 <= i < table.len() && 0 <= j < table[i].len() implies reads_any(mode, ranges, n, m) && 0
        <= (#[trigger] table[i][j]).0 < n by {
        match mode {
            InputMode::Forward | InputMode::Merge => {
                assert(table[i].len() == m);
            },
            InputMode::Shuffle => match ranges {
                None => {
                    assert(table[i].len() == n);
                },
                Some(ranges) => {
                    let w = width(ranges[i]);
                    assert(w > 0 && n > 0) by (nonlinear_arith)
                        requires
                            w * n > 0,
                            n >= 0,
                            w >= 0,
                    ;
                    assert(ranges[i].start < ranges[i].end);
                    vstd::arithmetic::div_mod::lemma_mod_bound(j, n);
                },
            },
            InputMode::Broadcast => {
                assert(n > 0 && m > 0) by (nonlinear_arith)
                    requires
                        n * m > 0,
                        n >= 0,
                        m >= 0,
                ;
                let d = j / m;
                assert(0 <= d < n) by (nonlinear_arith)
                    requires
                        0 <= j < n * m,
                        m > 0,
                        d == j / m,
                ;
            },
        }
    }
    if reads_any(mode, ranges, n, m) {
        assert forall|p: int| 0 <= p < n implies #[trigger] holds_partition(table, p) by {
            match mode {
                InputMode::Forward | InputMode::Merge => {
                    assert(table[p].len() == m);
                    assert(table[p][0].0 == p);
                },
                InputMode::Shuffle => match ranges {
                    None => {
                        assert(table[0].len() == n);
                        assert(table[0][p].0 == p);
                    },
                    Some(ranges) => {
                        let i = choose|i: int|
                            0 <= i < ranges.len() && (#[trigger] ranges[i]).start < ranges[i].end;
                        let w = width(ranges[i]);
                        assert(table[i].len() == w * n);
                        assert(p < w * n) by (nonlinear_arith)
                            requires
                                w >= 1,
                                0 <= p < n,
                        ;
                        vstd::arithmetic::div_mod::lemma_small_mod(p as nat, n as nat);
                        assert(table[i][p].0 == p);
                    },
                },
                InputMode::Broadcast => {
                    let x = p * m;
                    assert(0 <= x < n * m) by (nonlinear_arith)
                        requires
                            x == p * m,
                            0 <= p < n,
                            m > 0,
                    ;
                    vstd::arithmetic::div_mod::lemma_fundamental_div_mod_converse(x, m, p, 0);
                    assert(table[0][x].0 == p);
                },
            }
        }
    }
}

/// The number of channels of a stage.
pub open spec fn channel_count(stage: StageView) -> int {
    match stage.distribution {
        OutputDistribution::Hash { channels, .. } => channels as int,
        OutputDistribution::RoundRobin { channels } => channels as int,
    }
}

/// Whether a partition of a stage has been attempted.
pub open spec fn is_attempted(job: JobView, stage: usize, p: int) -> bool {
    &&& stage < job.stages.len()
    &&& 0 <= p < job.stages[stage as int].tasks.len()
    &&& job.stages[stage as int].tasks[p].len() > 0
}

/// The attempt with the highest number at a partition of a stage.
pub open spec fn newest(job_id: JobId, job: JobView, stage: usize, p: int) -> TaskKey {
    TaskKey {
        job_id,
        stage,
        partition: p as usize,
        attempt: (job.stages[stage as int].tasks[p].len() - 1) as usize,
    }
}

/// Whether the newest attempt at a partition runs where its stage does.
pub open spec fn is_placed(
    job_id: JobId,
    job: JobView,
    stage: usize,
    assigned: spec_fn(TaskKey) -> Option<TaskAssignment>,
    p: int,
) -> bool {
    match (
        job.graph.stages[stage as int].placement,
        assigned(newest(job_id, job, stage, p)),
    ) {
        (TaskPlacement::Driver, Some(TaskAssignment::Driver)) => true,
        (TaskPlacement::Worker, Some(TaskAssignment::Worker { .. })) => true,
        _ => false,
    }
}

/// The first item of a table whose partition has a property has the smallest such partition.
proof fn lemma_first_partition<A>(
    s: Seq<Seq<A>>,
    table: Seq<Seq<(int, int)>>,
    f: spec_fn(A) -> bool,
    g: spec_fn(int) -> bool,
    mode: InputMode,
    ranges: Option<Seq<Range<usize>>>,
    n: int,
    m: int,
    x: A,
    i: int,
    j: int,
)
    requires
        is_laid_out(table, mode, ranges, n, m),
        n >= 0,
        m >= 0,
        s.len() == table.len(),
        forall|k: int| 0 <= k < s.len() ==> (#[trigger] s[k]).len() == table[k].len(),
        forall|k: int, l: int|
            0 <= k < s.len() && 0 <= l < s[k].len() ==> f(#[trigger] s[k][l]) == g(
                table[k][l].0,
            ),
        is_first(s, f, x, i, j),
    ensures
        reads_any(mode, ranges, n, m),
        0 <= table[i][j].0 < n,
        g(table[i][j].0),
        forall|q: int| 0 <= q < table[i][j].0 ==> !#[trigger] g(q),
{
    lemma_partitions_read(table, mode, ranges, n, m);
    assert(s[i].len() == table[i].len());
    assert(f(s[i][j]) == g(table[i][j].0));
    assert forall|q: int| 0 <= q < table[i][j].0 implies !#[trigger] g(q) by {
        let r = lemma_partitions_in_order(table, mode, ranges, n, m, i, j, q);
        assert(s[r.0].len() == table[r.0].len());
        assert(!f(s[r.0][r.1]));
    }
}

/// What the tasks of a stage read of another stage.
///
/// If one of the partitions that are read has not been attempted, that is an error, which names the one
/// with the smallest number. Otherwise, if the newest attempt at one of them does not run where its stage
/// does, that is an error, which again names the first one. Otherwise every partition and every channel
/// stands in the rows where the mode of the input puts it, each with the newest attempt at the partition,
/// and with the worker on which that attempt runs.
pub proof fn lemma_input_read(
    job_id: JobId,
    job: JobView,
    input: StageInputView,
    assigned: spec_fn(TaskKey) -> Option<TaskAssignment>,
)
    requires
        input.stage < job.graph.stages.len(),
    ensures
        ({
            let u = input.stage;
            let stage = job.graph.stages[u as int];
            let n = stage.plan.partitions as int;
            let m = channel_count(stage);
            let any = reads_any(input.mode, input.partition_ranges, n, m);
            let found = task_input(job_id, job, input, assigned);
            &&& forall|p: int|
                any && 0 <= p < n && !(#[trigger] is_attempted(job, u, p)) && (forall|q: int|
                    0 <= q < p ==> #[trigger] is_attempted(job, u, q)) ==> found == Err::<
                    TaskInputView,
                    ErrorView,
                >(ErrorView::Invalid(no_task_attempt_text(job_id, u, p as usize)))
            &&& forall|p: int|
                any && (forall|q: int| 0 <= q < n ==> #[trigger] is_attempted(job, u, q)) && 0 <= p
                    < n && !(#[trigger] is_placed(job_id, job, u, assigned, p)) && (forall|q: int|
                    0 <= q < p ==> #[trigger] is_placed(job_id, job, u, assigned, q))
                    ==> found == Err::<TaskInputView, ErrorView>(
                    ErrorView::Internal(
                        if stage.placement is Driver {
                            not_assigned_to_driver_text(
                                job_id,
                                u,
                                p as usize,
                                newest(job_id, job, u, p).attempt,
                            )
                        } else {
                            not_assigned_to_worker_text(
                                job_id,
                                u,
                                p as usize,
                                newest(job_id, job, u, p).attempt,
                            )
                        },
                    ),
                )
            &&& (any ==> forall|q: int|
                0 <= q < n ==> #[trigger] is_attempted(job, u, q) && is_placed(
                    job_id,
                    job,
                    u,
                    assigned,
                    q,
                )) ==> found is Ok
            &&& found matches Ok(view) ==> {
                &&& is_laid_out(read_places(view), input.mode, input.partition_ranges, n, m)
                &&& any ==> forall|q: int|
                    0 <= q < n ==> #[trigger] is_attempted(job, u, q) && is_placed(
                        job_id,
                        job,
                        u,
                        assigned,
                        q,
                    )
                &&& match view {
                    TaskInputView::Driver { stage: s, keys } => stage.placement is Driver && s == u
                        && forall|i: int, j: int|
                        0 <= i < keys.len() && 0 <= j < keys[i].len() ==> (
                        #[trigger] keys[i][j]).attempt == newest(
                            job_id,
                            job,
                            u,
                            keys[i][j].partition as int,
                        ).attempt,
                    TaskInputView::Worker { stage: s, keys } => stage.placement is Worker && s == u
                        && forall|i: int, j: int|
                        0 <= i < keys.len() && 0 <= j < keys[i].len() ==> {
                            let k = #[trigger] keys[i][j];
                            let key = newest(job_id, job, u, k.1.partition as int);
                            k.1.attempt == key.attempt && assigned(key)->0->worker_id == k.0
                        },
                }
            }
        }),
{
    let u = input.stage;
    let stage = job.graph.stages[u as int];
    let n = stage.plan.partitions as int;
    let m = channel_count(stage);
    let mode = input.mode;
    let ranges = input.partition_ranges;
    let cells = input_cells(mode, ranges, n as nat, m as nat);
    let table = places(cells);
    let found = task_input(job_id, job, input, assigned);
    assert(m == stage.distribution.spec_channels());
    lemma_cells(mode, ranges, n as usize, m as usize);
    lemma_partitions_read(table, mode, ranges, n, m);
    assert forall|k: int| 0 <= k < cells.len() implies (#[trigger] cells[k]).len()
        == table[k].len() by {}
    let f = unattempted(job, u);
    let missing = |p: int| !is_attempted(job, u, p);
    assert forall|k: int, l: int| 0 <= k < cells.len() && 0 <= l < cells[k].len() implies f(
        #[trigger] cells[k][l],
    ) == missing(table[k][l].0) by {
        assert(table[k][l] == (cells[k][l].0 as int, cells[k][l].1 as int));
    }
    lemma_first_in_rows(cells, f);
    match first_in_rows(cells, f) {
        Some(cell) => {
            let (i, j) = choose|i: int, j: int| #[trigger] is_first(cells, f, cell, i, j);
            lemma_first_partition(cells, table, f, missing, mode, ranges, n, m, cell, i, j);
            let p = table[i][j].0;
            assert(p == cell.0);
            assert(missing(p));
            assert forall|q: int| 0 <= q < p implies #[trigger] is_attempted(job, u, q) by {
                assert(!missing(q));
            }
            assert(!is_attempted(job, u, p));
        },
        None => {
            let keys = input_keys(job, u, cells);
            assert forall|k: int| 0 <= k < keys.len() implies (#[trigger] keys[k]).len()
                == table[k].len() by {
                assert(keys[k].len() == cells[k].len());
            }
            assert forall|k: int, l: int|
                0 <= k < keys.len() && 0 <= l < keys[k].len() implies {
                let key = #[trigger] keys[k][l];
                &&& key.partition == table[k][l].0
                &&& key.channel == table[k][l].1
                &&& is_attempted(job, u, table[k][l].0)
                &&& key.attempt == newest(job_id, job, u, table[k][l].0).attempt
                &&& writer_key(job_id, u, key) == newest(job_id, job, u, table[k][l].0)
            } by {
                assert(keys[k][l] == input_key(job, u, cells[k][l]));
                assert(!f(cells[k][l]));
                assert(!missing(table[k][l].0));
            }
            assert forall|q: int| reads_any(mode, ranges, n, m) && 0 <= q < n implies #[trigger]
                is_attempted(job, u, q) by {
                assert(holds_partition(table, q));
                let (i, j) = choose|i: int, j: int|
                    0 <= i < table.len() && 0 <= j < table[i].len() && (#[trigger] table[i][j]).0
                        == q;
                assert(!f(cells[i][j]));
                assert(!missing(table[i][j].0));
            }
            let h = if stage.placement is Driver {
                not_on_driver(job_id, u, assigned)
            } else {
                not_on_worker(job_id, u, assigned)
            };
            let away = |p: int| !is_placed(job_id, job, u, assigned, p);
            assert forall|k: int, l: int| 0 <= k < keys.len() && 0 <= l < keys[k].len() implies h(
                #[trigger] keys[k][l],
            ) == away(table[k][l].0) by {}
            lemma_first_in_rows(keys, h);
            match first_in_rows(keys, h) {
                Some(key) => {
                    let (i, j) = choose|i: int, j: int| #[trigger] is_first(keys, h, key, i, j);
                    lemma_first_partition(keys, table, h, away, mode, ranges, n, m, key, i, j);
                    let p = table[i][j].0;
                    assert(p == key.partition);
                    assert(away(p));
                    assert(!is_placed(job_id, job, u, assigned, p));
                    assert forall|q: int| 0 <= q < p implies #[trigger] is_placed(
                        job_id,
                        job,
                        u,
                        assigned,
                        q,
                    ) by {
                        assert(!away(q));
                    }
                },
                None => {
                    assert forall|q: int|
                        reads_any(mode, ranges, n, m) && 0 <= q < n implies #[trigger] is_placed(
                        job_id,
                        job,
                        u,
                        assigned,
                        q,
                    ) by {
                        assert(holds_partition(table, q));
                        let (i, j) = choose|i: int, j: int|
                            0 <= i < table.len() && 0 <= j < table[i].len() && (
                            #[trigger] table[i][j]).0 == q;
                        assert(keys[i].len() == table[i].len());
                        assert(!h(keys[i][j]));
                        assert(!away(table[i][j].0));
                    }
                    match found {
                        Ok(view) => {
                            assert(read_places(view) =~~= table);
                            match view {
                                TaskInputView::Driver { keys: listed, .. } => {
                                    assert forall|i: int, j: int|
                                        0 <= i < listed.len() && 0 <= j < listed[i].len() implies (
                                    #[trigger] listed[i][j]).attempt == newest(
                                        job_id,
                                        job,
                                        u,
                                        listed[i][j].partition as int,
                                    ).attempt by {
                                        assert(listed[i][j] == keys[i][j]);
                                    }
                                },
                                TaskInputView::Worker { keys: listed, .. } => {
                                    assert forall|i: int, j: int|
                                        0 <= i < listed.len() && 0 <= j < listed[i].len() implies {
                                        let k = #[trigger] listed[i][j];
                                        let key = newest(job_id, job, u, k.1.partition as int);
                                        k.1.attempt == key.attempt && assigned(key)->0->worker_id
                                            == k.0
                                    } by {
                                        assert(listed[i].len() == keys[i].len());
                                        assert(listed[i][j].1 == keys[i][j]);
                                    }
                                },
                            }
                        },
                        Err(_) => {},
                    }
                },
            }
        },
    }
}

/// An input from a stage that the job does not have is an error.
pub proof fn lemma_unknown_input(
    job_id: JobId,
    job: JobView,
    input: StageInputView,
    assigned: spec_fn(TaskKey) -> Option<TaskAssignment>,
)
    requires
        input.stage >= job.graph.stages.len(),
    ensures
        task_input(job_id, job, input, assigned) == Err::<TaskInputView, ErrorView>(
            ErrorView::Invalid(input_stage_not_found_text(job_id, input.stage)),
        ),
{
}

/// All inputs of a task are located one by one, and the first one that cannot be read is reported.
proof fn lemma_inputs_in_order(
    job_id: JobId,
    job: JobView,
    inputs: Seq<StageInputView>,
    assigned: spec_fn(TaskKey) -> Option<TaskAssignment>,
)
    ensures
        match task_inputs(job_id, job, inputs, assigned) {
            Ok(found) => found.len() == inputs.len() && forall|i: int|
                0 <= i < inputs.len() ==> task_input(
                    job_id,
                    job,
                    #[trigger] inputs[i],
                    assigned,
                ) == Ok::<TaskInputView, ErrorView>(found[i]),
            Err(e) => exists|i: int|
                0 <= i < inputs.len() && task_input(job_id, job, #[trigger] inputs[i], assigned)
                    == Err::<TaskInputView, ErrorView>(e) && forall|k: int|
                    0 <= k < i ==> task_input(job_id, job, #[trigger] inputs[k], assigned) is Ok,
        },
    decreases inputs.len(),
{
    if inputs.len() > 0 {
        let rest = inputs.drop_last();
        let n = rest.len() as int;
        lemma_inputs_in_order(job_id, job, rest, assigned);
        assert forall|i: int| 0 <= i < n implies rest[i] == #[trigger] inputs[i] by {}
        match task_inputs(job_id, job, rest, assigned) {
            Ok(found) => {
                assert forall|k: int| 0 <= k < n implies task_input(
                    job_id,
                    job,
                    #[trigger] inputs[k],
                    assigned,
                ) == Ok::<TaskInputView, ErrorView>(found[k]) by {
                    assert(rest[k] == inputs[k]);
                }
                assert(inputs[n] == inputs.last());
            },
            Err(e) => {
                let i = choose|i: int|
                    0 <= i < rest.len() && task_input(job_id, job, #[trigger] rest[i], assigned)
                        == Err::<TaskInputView, ErrorView>(e) && forall|k: int|
                        0 <= k < i ==> task_input(job_id, job, #[trigger] rest[k], assigned) is Ok;
                assert(inputs[i] == rest[i]);
                assert forall|k: int| 0 <= k < i implies task_input(
                    job_id,
                    job,
                    #[trigger] inputs[k],
                    assigned,
                ) is Ok by {
                    assert(rest[k] == inputs[k]);
                }
            },
        }
    }
}

/// The definition of a task.
///
/// There is none for a job that does not exist or is not running, nor for a stage that the job does not
/// have. An error of the plan comes first, then that of the first input that cannot be read, then one of
/// the keys of the output. Otherwise the definition holds the plan, what is read of every input of the
/// stage, and the number of channels and the keys of the output. The output is kept on disk if the stage
/// is blocking, and replicated otherwise. The context is that of the job.
pub proof fn lemma_definition(
    scheduler: SchedulerView,
    key: TaskKey,
    assigned: spec_fn(TaskKey) -> Option<TaskAssignment>,
    encoded: EncodedStage,
)
    ensures
        ({
            let job = scheduler.jobs[key.job_id];
            let stage = job.graph.stages[key.stage as int];
            let r = task_definition(scheduler, key, assigned, encoded);
            if !scheduler.jobs.dom().contains(key.job_id) {
                r == Err::<(TaskDefinitionView, TaskContextHandle), ErrorView>(
                    ErrorView::Invalid(job_not_found_text(key.job_id)),
                )
            } else if !(job.state is Running) {
                r == Err::<(TaskDefinitionView, TaskContextHandle), ErrorView>(
                    ErrorView::Invalid(job_not_running_text(key.job_id)),
                )
            } else if key.stage >= job.graph.stages.len() {
                r == Err::<(TaskDefinitionView, TaskContextHandle), ErrorView>(
                    ErrorView::Invalid(stage_not_found_text(key.stage, key.job_id)),
                )
            } else {
                let readable = |i: int|
                    task_input(key.job_id, job, stage.inputs[i], assigned) is Ok;
                &&& encoded.plan matches Err(text) ==> r == Err::<
                    (TaskDefinitionView, TaskContextHandle),
                    ErrorView,
                >(ErrorView::DataFusion(text@))
                &&& forall|i: int|
                    encoded.plan is Ok && 0 <= i < stage.inputs.len() && !(#[trigger] readable(i))
                        && (forall|k: int| 0 <= k < i ==> #[trigger] readable(k)) ==> r == Err::<
                        (TaskDefinitionView, TaskContextHandle),
                        ErrorView,
                    >(task_input(key.job_id, job, stage.inputs[i], assigned)->Err_0)
                &&& encoded.plan is Ok && (forall|i: int|
                    0 <= i < stage.inputs.len() ==> #[trigger] readable(i)) ==> match (
                    stage.distribution,
                    encoded.hash_keys,
                ) {
                    (OutputDistribution::Hash { .. }, Err(text)) => r == Err::<
                        (TaskDefinitionView, TaskContextHandle),
                        ErrorView,
                    >(ErrorView::DataFusion(text@)),
                    _ => r is Ok,
                }
                &&& r matches Ok((definition, context)) ==> {
                    &&& job.state->context == context
                    &&& definition.plan == encoded.plan->Ok_0@
                    &&& definition.inputs.len() == stage.inputs.len()
                    &&& forall|i: int|
                        0 <= i < stage.inputs.len() ==> task_input(
                            key.job_id,
                            job,
                            #[trigger] stage.inputs[i],
                            assigned,
                        ) == Ok::<TaskInputView, ErrorView>(definition.inputs[i])
                    &&& match definition.output.locator {
                        TaskOutputLocator::Local { replicas } => stage.mode is Pipelined && replicas
                            == stage.replicas,
                        TaskOutputLocator::LocalDisk => stage.mode is Blocking,
                    }
                    &&& match definition.output.distribution {
                        OutputDistributionView::Hash { keys, channels } => {
                            &&& stage.distribution is Hash
                            &&& channels == channel_count(stage)
                            &&& keys.len() == encoded.hash_keys->Ok_0@.len()
                            &&& forall|i: int|
                                0 <= i < keys.len() ==> #[trigger] keys[i]
                                    == encoded.hash_keys->Ok_0@[i]@
                        },
                        OutputDistributionView::RoundRobin { channels } => stage.distribution is RoundRobin
                            && channels == channel_count(stage),
                    }
                }
            }
        }),
{
    if scheduler.jobs.dom().contains(key.job_id) {
        let job = scheduler.jobs[key.job_id];
        if job.state is Running && key.stage < job.graph.stages.len() {
            let stage = job.graph.stages[key.stage as int];
            let readable = |i: int| task_input(key.job_id, job, stage.inputs[i], assigned) is Ok;
            lemma_inputs_in_order(key.job_id, job, stage.inputs, assigned);
            match task_inputs(key.job_id, job, stage.inputs, assigned) {
                Ok(found) => {
                    assert forall|i: int| 0 <= i < stage.inputs.len() implies #[trigger] readable(
                        i,
                    ) by {
                        assert(task_input(key.job_id, job, stage.inputs[i], assigned) is Ok);
                    }
                },
                Err(e) => {
                    let i = choose|i: int|
                        0 <= i < stage.inputs.len() && task_input(
                            key.job_id,
                            job,
                            #[trigger] stage.inputs[i],
                            assigned,
                        ) == Err::<TaskInputView, ErrorView>(e) && forall|k: int|
                            0 <= k < i ==> task_input(
                                key.job_id,
                                job,
                                #[trigger] stage.inputs[k],
                                assigned,
                            ) is Ok;
                    assert(!readable(i));
                    assert forall|k: int| 0 <= k < i implies #[trigger] readable(k) by {
                        assert(task_input(key.job_id, job, stage.inputs[k], assigned) is Ok);
                    }
                },
            }
        }
    }
}

}

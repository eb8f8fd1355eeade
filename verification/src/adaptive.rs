//! Adaptive planning of shuffle partitions from the sizes of shuffle channels.

use std::ops::Range;
use vstd::prelude::*;
use vstd::relations::sorted_by;

verus! {

/// The sum of a sequence of numbers.
pub open spec fn seq_sum(s: Seq<nat>) -> nat
    decreases s.len(),
{
    if s.len() == 0 {
        0
    } else {
        seq_sum(s.drop_last()) + s.last()
    }
}

/// The sizes of channels as numbers.
pub open spec fn sizes(bytes: Seq<u64>) -> Seq<nat> {
    bytes.map_values(|b: u64| b as nat)
}

/// The record counts of channels as numbers.
pub open spec fn counts(records: Seq<usize>) -> Seq<nat> {
    records.map_values(|r: usize| r as nat)
}

/// The combined size of the channels from `start` up to, not including, `end`.
pub open spec fn range_bytes(bytes: Seq<u64>, start: int, end: int) -> nat {
    seq_sum(sizes(bytes.subrange(start, end)))
}

/// A range of indices.
pub open spec fn index_range(start: int, end: int) -> Range<usize> {
    Range { start: start as usize, end: end as usize }
}

/// Whether ranges follow one another without gaps and together cover the indices
/// below `n`, none of them being empty.
pub open spec fn covers(ranges: Seq<Range<usize>>, n: nat) -> bool {
    &&& ranges.len() == 0 <==> n == 0
    &&& ranges.len() > 0 ==> ranges[0].start == 0 && ranges.last().end == n
    &&& forall|i: int| 0 <= i < ranges.len() ==> (#[trigger] ranges[i]).start < ranges[i].end
    &&& forall|i: int, j: int|
        0 <= i && j == i + 1 && j < ranges.len() ==> (#[trigger] ranges[i]).end == (
        #[trigger] ranges[j]).start
}

/// Whether channel `k` joins the group that starts at `start` and reaches up to `k`:
/// either the group has no data yet, or it stays within the target.
pub open spec fn joins(bytes: Seq<u64>, target: nat, start: int, k: int) -> bool {
    range_bytes(bytes, start, k) == 0 || range_bytes(bytes, start, k + 1) <= target
}

/// The group that is open after the first `n` channels: where it starts.
pub open spec fn open_start(bytes: Seq<u64>, target: nat, n: nat) -> nat
    decreases n,
{
    if n == 0 {
        0
    } else {
        let k = (n - 1) as nat;
        let start = open_start(bytes, target, k);
        if joins(bytes, target, start as int, k as int) {
            start
        } else {
            k
        }
    }
}

/// The groups that are complete after the first `n` channels.
pub open spec fn closed_groups(bytes: Seq<u64>, target: nat, n: nat) -> Seq<Range<usize>>
    decreases n,
{
    if n == 0 {
        Seq::empty()
    } else {
        let k = (n - 1) as nat;
        let start = open_start(bytes, target, k);
        if joins(bytes, target, start as int, k as int) {
            closed_groups(bytes, target, k)
        } else {
            closed_groups(bytes, target, k).push(index_range(start as int, k as int))
        }
    }
}

/// One range per index below `n`.
pub open spec fn singletons(n: nat) -> Seq<Range<usize>> {
    Seq::new(n, |i: int| index_range(i, i + 1))
}

/// The grouping of channels into partitions: every group takes in channels as long as
/// they join it. A target of zero keeps every channel by itself.
pub open spec fn coalesced(bytes: Seq<u64>, target: nat) -> Seq<Range<usize>> {
    if bytes.len() == 0 {
        Seq::empty()
    } else if target == 0 {
        singletons(bytes.len())
    } else {
        closed_groups(bytes, target, bytes.len()).push(
            index_range(open_start(bytes, target, bytes.len()) as int, bytes.len() as int),
        )
    }
}

/// Whether ranges are a grouping of all channels in which every group has taken in all
/// the channels that join it, and no other.
pub open spec fn is_greedy_grouping(
    bytes: Seq<u64>,
    target: nat,
    ranges: Seq<Range<usize>>,
) -> bool {
    &&& covers(ranges, bytes.len())
    &&& forall|i: int, k: int|
        0 <= i < ranges.len() && (#[trigger] ranges[i]).start < k < ranges[i].end
            ==> #[trigger] joins(bytes, target, ranges[i].start as int, k)
    &&& forall|i: int|
        0 <= i < ranges.len() - 1 ==> !joins(
            bytes,
            target,
            (#[trigger] ranges[i]).start as int,
            ranges[i].end as int,
        )
}

proof fn lemma_range_bytes_step(bytes: Seq<u64>, start: int, k: int)
    requires
        0 <= start <= k < bytes.len(),
    ensures
        range_bytes(bytes, start, k + 1) == range_bytes(bytes, start, k) + bytes[k],
        range_bytes(bytes, k, k) == 0,
        range_bytes(bytes, k, k + 1) == bytes[k],
{
    assert(sizes(bytes.subrange(start, k + 1)).drop_last() =~= sizes(bytes.subrange(start, k)));
    assert(sizes(bytes.subrange(k, k + 1)).drop_last() =~= sizes(bytes.subrange(k, k)));
    assert(seq_sum(sizes(bytes.subrange(k, k))) == 0);
    assert(sizes(bytes.subrange(k, k + 1)).last() == bytes[k]);
    assert(sizes(bytes.subrange(start, k + 1)).last() == bytes[k]);
}

proof fn lemma_groups(bytes: Seq<u64>, target: nat, n: nat)
    requires
        0 < n <= bytes.len() <= usize::MAX,
    ensures
        open_start(bytes, target, n) < n,
        ({
            let ranges = closed_groups(bytes, target, n);
            let start = open_start(bytes, target, n);
            &&& ranges.len() == 0 <==> start == 0
            &&& ranges.len() > 0 ==> ranges[0].start == 0 && ranges.last().end == start
            &&& forall|i: int| 0 <= i < ranges.len() ==> (#[trigger] ranges[i]).start < ranges[i].end
            &&& forall|i: int, j: int|
                0 <= i && j == i + 1 && j < ranges.len() ==> (#[trigger] ranges[i]).end == (
                #[trigger] ranges[j]).start
            &&& forall|i: int, k: int|
                0 <= i < ranges.len() && (#[trigger] ranges[i]).start < k < ranges[i].end
                    ==> #[trigger] joins(bytes, target, ranges[i].start as int, k)
            &&& forall|i: int|
                0 <= i < ranges.len() ==> !joins(
                    bytes,
                    target,
                    (#[trigger] ranges[i]).start as int,
                    ranges[i].end as int,
                )
            &&& forall|k: int|
                start < k < n ==> #[trigger] joins(bytes, target, start as int, k)
        }),
    decreases n,
{
    if n == 1 {
        lemma_range_bytes_step(bytes, 0, 0);
        assert(joins(bytes, target, 0, 0));
        reveal_with_fuel(open_start, 2);
        reveal_with_fuel(closed_groups, 2);
    } else {
        lemma_groups(bytes, target, (n - 1) as nat);
    }
}

/// Coalescing yields the one grouping in which each group takes in exactly the channels
/// that join it. It covers all channels, each of them once and in order.
pub proof fn lemma_coalesced_is_greedy(bytes: Seq<u64>, target: nat)
    requires
        target > 0,
        bytes.len() <= usize::MAX,
    ensures
        is_greedy_grouping(bytes, target, coalesced(bytes, target)),
{
    if bytes.len() > 0 {
        lemma_groups(bytes, target, bytes.len());
        let closed = closed_groups(bytes, target, bytes.len());
        let ranges = coalesced(bytes, target);
        assert(forall|i: int| 0 <= i < closed.len() ==> ranges[i] == closed[i]);
        assert(ranges.last().start == open_start(bytes, target, bytes.len()));
        if closed.len() > 0 {
            assert(ranges[closed.len() - 1] == closed.last());
        }
    }
}

/// Ranges that cover all indices below `n` are at most `n` in number.
pub proof fn lemma_covers_length(ranges: Seq<Range<usize>>, n: nat)
    requires
        covers(ranges, n),
    ensures
        ranges.len() <= n,
{
    if ranges.len() > 0 {
        lemma_range_ends_above(ranges, n, ranges.len() - 1);
    }
}

/// The ranges up to a position hold at least one index each.
proof fn lemma_range_ends_above(ranges: Seq<Range<usize>>, n: nat, i: int)
    requires
        covers(ranges, n),
        0 <= i < ranges.len(),
    ensures
        ranges[i].end >= i + 1,
    decreases i,
{
    if i > 0 {
        lemma_range_ends_above(ranges, n, i - 1);
    }
}

/// If as many ranges cover the indices as there are indices, each range holds one of them.
pub proof fn lemma_covers_singly(ranges: Seq<Range<usize>>, n: nat)
    requires
        covers(ranges, n),
        ranges.len() == n,
    ensures
        forall|i: int|
            0 <= i < ranges.len() ==> (#[trigger] ranges[i]).start == i && ranges[i].end == i + 1,
{
    assert forall|i: int| 0 <= i < ranges.len() implies (#[trigger] ranges[i]).start == i
        && ranges[i].end == i + 1 by {
        lemma_range_ends_above(ranges, n, i);
        lemma_range_ends_below(ranges, n, i);
        if i > 0 {
            lemma_range_ends_above(ranges, n, i - 1);
            lemma_range_ends_below(ranges, n, i - 1);
            assert(ranges[i - 1].end == ranges[i].start);
        }
    }
}

/// The ranges from a position on hold at least one index each.
proof fn lemma_range_ends_below(ranges: Seq<Range<usize>>, n: nat, i: int)
    requires
        covers(ranges, n),
        0 <= i < ranges.len(),
    ensures
        ranges[i].end + (ranges.len() - 1 - i) <= n,
    decreases ranges.len() - i,
{
    if i < ranges.len() - 1 {
        lemma_range_ends_below(ranges, n, i + 1);
        assert(ranges[i].end == ranges[i + 1].start);
    }
}

/// Whatever the target, coalescing covers all channels, each of them once and in order.
pub proof fn lemma_coalesced_covers(bytes: Seq<u64>, target: nat)
    requires
        bytes.len() <= usize::MAX,
    ensures
        covers(coalesced(bytes, target), bytes.len()),
{
    if target > 0 {
        lemma_coalesced_is_greedy(bytes, target);
    }
}

/// Two groupings that both take in exactly the channels that join are the same.
pub proof fn lemma_greedy_grouping_unique(
    bytes: Seq<u64>,
    target: nat,
    a: Seq<Range<usize>>,
    b: Seq<Range<usize>>,
)
    requires
        is_greedy_grouping(bytes, target, a),
        is_greedy_grouping(bytes, target, b),
    ensures
        a == b,
{
    if bytes.len() > 0 {
        lemma_same_starts(bytes, target, a, b, (a.len() - 1) as nat);
        lemma_same_starts(bytes, target, b, a, (b.len() - 1) as nat);
        assert forall|i: int| 0 <= i < a.len() implies a[i] == b[i] by {
            lemma_same_starts(bytes, target, a, b, i as nat);
            lemma_same_end(bytes, target, a, b, i);
        }
        assert(a =~= b);
    }
}

proof fn lemma_same_end(
    bytes: Seq<u64>,
    target: nat,
    a: Seq<Range<usize>>,
    b: Seq<Range<usize>>,
    i: int,
)
    requires
        is_greedy_grouping(bytes, target, a),
        is_greedy_grouping(bytes, target, b),
        0 <= i < a.len(),
        i < b.len(),
        a[i].start == b[i].start,
    ensures
        a[i].end == b[i].end,
{
    lemma_range_ends_below(a, bytes.len(), i);
    lemma_range_ends_below(b, bytes.len(), i);
    let start = a[i].start as int;
    if a[i].end < b[i].end {
        assert(joins(bytes, target, b[i].start as int, a[i].end as int));
        assert(i < a.len() - 1);
        assert(!joins(bytes, target, a[i].start as int, a[i].end as int));
    }
    if b[i].end < a[i].end {
        assert(joins(bytes, target, a[i].start as int, b[i].end as int));
        assert(i < b.len() - 1);
        assert(!joins(bytes, target, b[i].start as int, b[i].end as int));
    }
}

proof fn lemma_same_starts(
    bytes: Seq<u64>,
    target: nat,
    a: Seq<Range<usize>>,
    b: Seq<Range<usize>>,
    i: nat,
)
    requires
        is_greedy_grouping(bytes, target, a),
        is_greedy_grouping(bytes, target, b),
        i < a.len(),
    ensures
        i < b.len(),
        a[i as int].start == b[i as int].start,
    decreases i,
{
    if i > 0 {
        let j = i - 1;
        lemma_same_starts(bytes, target, a, b, j as nat);
        lemma_same_end(bytes, target, a, b, j);
        lemma_range_ends_below(a, bytes.len(), j);
        assert(a[j].end == a[j + 1].start);
        if i >= b.len() {
            assert(b.last() == b[j]);
        }
        assert(b[j].end == b[j + 1].start);
    }
}

/// A group stays within the target, or all its data is in its last non-empty channel.
///
/// A channel that is larger than the target is thus only ever grouped with channels
/// without data.
pub proof fn lemma_group_size(bytes: Seq<u64>, target: nat, i: int)
    requires
        target > 0,
        bytes.len() <= usize::MAX,
        0 <= i < coalesced(bytes, target).len(),
    ensures
        ({
            let range = coalesced(bytes, target)[i];
            range_bytes(bytes, range.start as int, range.end as int) <= target || exists|c: int|
                range.start <= c < range.end && #[trigger] range_bytes(
                    bytes,
                    range.start as int,
                    range.end as int,
                ) == bytes[c]
        }),
{
    lemma_coalesced_is_greedy(bytes, target);
    let range = coalesced(bytes, target)[i];
    lemma_range_ends_below(coalesced(bytes, target), bytes.len(), i);
    lemma_group_prefix(bytes, target, range.start as int, range.end as int);
}

proof fn lemma_group_prefix(bytes: Seq<u64>, target: nat, start: int, end: int)
    requires
        0 <= start < end <= bytes.len(),
        forall|k: int| start < k < end ==> #[trigger] joins(bytes, target, start, k),
    ensures
        range_bytes(bytes, start, end) <= target || exists|c: int|
            start <= c < end && #[trigger] bytes[c] == range_bytes(bytes, start, end),
    decreases end - start,
{
    lemma_range_bytes_step(bytes, start, end - 1);
    if end - start == 1 {
        assert(bytes[start] == range_bytes(bytes, start, end));
    } else {
        assert(joins(bytes, target, start, end - 1));
        if range_bytes(bytes, start, end - 1) == 0 {
            assert(bytes[end - 1] == range_bytes(bytes, start, end));
        }
    }
}

/// Whether every range takes in only channels that join it.
pub open spec fn takes_in_joining(
    bytes: Seq<u64>,
    target: nat,
    ranges: Seq<Range<usize>>,
) -> bool {
    forall|i: int, k: int|
        0 <= i < ranges.len() && (#[trigger] ranges[i]).start < k < ranges[i].end
            ==> #[trigger] joins(bytes, target, ranges[i].start as int, k)
}

/// Ranges hold at least the data of the ranges inside them.
proof fn lemma_range_bytes_grow(bytes: Seq<u64>, outer: int, inner: int, k: int, end: int)
    requires
        0 <= outer <= inner <= k <= end <= bytes.len(),
    ensures
        range_bytes(bytes, inner, k) <= range_bytes(bytes, outer, end),
    decreases end - outer,
{
    if k < end {
        lemma_range_bytes_grow(bytes, outer, inner, k, end - 1);
        lemma_range_bytes_step(bytes, outer, end - 1);
    } else if outer < inner {
        if inner < end {
            lemma_range_bytes_grow(bytes, outer, inner, end - 1, end - 1);
            lemma_range_bytes_step(bytes, outer, end - 1);
            lemma_range_bytes_step(bytes, inner, end - 1);
        } else {
            assert(bytes.subrange(end, end).len() == 0);
            assert(seq_sum(sizes(bytes.subrange(end, end))) == 0);
        }
    }
}

/// The groups of a coalesced grouping reach at least as far as those of any other grouping whose groups
/// take in only channels that join.
proof fn lemma_coalesced_reaches(
    bytes: Seq<u64>,
    target: nat,
    a: Seq<Range<usize>>,
    b: Seq<Range<usize>>,
    i: int,
)
    requires
        is_greedy_grouping(bytes, target, a),
        covers(b, bytes.len()),
        takes_in_joining(bytes, target, b),
        0 <= i < a.len(),
        i < b.len(),
    ensures
        a[i].end >= b[i].end,
    decreases i,
{
    lemma_range_ends_below(a, bytes.len(), i);
    lemma_range_ends_below(b, bytes.len(), i);
    if i > 0 {
        lemma_coalesced_reaches(bytes, target, a, b, i - 1);
        assert(a[i - 1].end == a[i].start);
        assert(b[i - 1].end == b[i].start);
    }
    let k = a[i].end as int;
    if k < b[i].end {
        assert(i < a.len() - 1);
        assert(!joins(bytes, target, a[i].start as int, k));
        lemma_range_bytes_grow(bytes, b[i].start as int, a[i].start as int, k, k);
        lemma_range_bytes_grow(bytes, b[i].start as int, a[i].start as int, k + 1, k + 1);
        assert(joins(bytes, target, b[i].start as int, k));
    }
}

/// No grouping whose groups take in only channels that join has fewer groups than the coalesced one.
proof fn lemma_coalesced_is_least(bytes: Seq<u64>, target: nat, ranges: Seq<Range<usize>>)
    requires
        target > 0,
        bytes.len() <= usize::MAX,
        covers(ranges, bytes.len()),
        takes_in_joining(bytes, target, ranges),
    ensures
        coalesced(bytes, target).len() <= ranges.len(),
{
    let a = coalesced(bytes, target);
    lemma_coalesced_is_greedy(bytes, target);
    if ranges.len() < a.len() {
        let i = ranges.len() - 1;
        lemma_coalesced_reaches(bytes, target, a, ranges, i);
        lemma_range_ends_below(a, bytes.len(), i);
    }
}

/// Coalescing yields the least number of partitions: no division of the channels into adjacent ranges
/// of at most the target size each has fewer ranges.
pub proof fn lemma_fewest_partitions(bytes: Seq<u64>, target: nat, ranges: Seq<Range<usize>>)
    requires
        target > 0,
        bytes.len() <= usize::MAX,
        covers(ranges, bytes.len()),
        forall|i: int|
            0 <= i < ranges.len() ==> range_bytes(
                bytes,
                (#[trigger] ranges[i]).start as int,
                ranges[i].end as int,
            ) <= target,
    ensures
        coalesced(bytes, target).len() <= ranges.len(),
{
    assert forall|i: int, k: int|
        0 <= i < ranges.len() && (#[trigger] ranges[i]).start < k
            < ranges[i].end implies #[trigger] joins(
        bytes,
        target,
        ranges[i].start as int,
        k,
    ) by {
        let start = ranges[i].start as int;
        lemma_range_ends_below(ranges, bytes.len(), i);
        lemma_range_bytes_grow(bytes, start, start, k + 1, ranges[i].end as int);
    }
    lemma_coalesced_is_least(bytes, target, ranges);
}

/// A larger target never yields more partitions.
pub proof fn lemma_larger_target(bytes: Seq<u64>, target: nat, larger: nat)
    requires
        target <= larger,
        bytes.len() <= usize::MAX,
    ensures
        coalesced(bytes, larger).len() <= coalesced(bytes, target).len(),
{
    let ranges = coalesced(bytes, target);
    lemma_coalesced_covers(bytes, target);
    if larger > 0 {
        if target > 0 {
            lemma_coalesced_is_greedy(bytes, target);
        }
        assert forall|i: int, k: int|
            0 <= i < ranges.len() && (#[trigger] ranges[i]).start < k
                < ranges[i].end implies #[trigger] joins(
            bytes,
            larger,
            ranges[i].start as int,
            k,
        ) by {
            assert(joins(bytes, target, ranges[i].start as int, k));
        }
        lemma_coalesced_is_least(bytes, larger, ranges);
    }
}

/// Groups adjacent shuffle channels into partitions.
///
/// A group takes in the next channel unless it holds data and would exceed
/// `target_partition_size` with that channel.
pub fn coalesce_shuffle_partitions(
    channel_bytes: &[u64],
    target_partition_size: u64,
) -> (r: Vec<Range<usize>>)
    ensures
        r@ == coalesced(channel_bytes@, target_partition_size as nat),
{
    let n: usize = channel_bytes.len();
    if n == 0 {
        let r: Vec<Range<usize>> = Vec::new();
        assert(r@ =~= coalesced(channel_bytes@, target_partition_size as nat));
        return r;
    }
    if target_partition_size == 0 {
        return singleton_ranges(n);
    }
    let ghost bytes = channel_bytes@;
    let ghost target = target_partition_size as nat;
    let mut ranges: Vec<Range<usize>> = Vec::new();
    let mut start: usize = 0;
    let mut current_size: u64 = 0;
    let mut i: usize = 0;
    proof {
        assert(bytes.subrange(0, 0).len() == 0);
    }
    while i < n
        invariant
            n == channel_bytes@.len(),
            bytes == channel_bytes@,
            target == target_partition_size as nat,
            target > 0,
            0 <= start <= i <= n,
            start == open_start(bytes, target, i as nat),
            current_size == range_bytes(bytes, start as int, i as int),
            ranges@ == closed_groups(bytes, target, i as nat),
        decreases n - i,
    {
        let size: u64 = channel_bytes[i];
        proof {
            lemma_range_bytes_step(bytes, start as int, i as int);
        }
        if current_size > 0 && (size > target_partition_size || current_size
            > target_partition_size - size) {
            assert(!joins(bytes, target, start as int, i as int));
            ranges.push(start..i);
            start = i;
            current_size = size;
        } else {
            assert(joins(bytes, target, start as int, i as int));
            current_size = current_size + size;
        }
        i = i + 1;
    }
    proof {
        lemma_groups(bytes, target, n as nat);
    }
    ranges.push(start..n);
    ranges
}

/// One range per index below `n`.
pub fn singleton_ranges(n: usize) -> (r: Vec<Range<usize>>)
    ensures
        r@ == singletons(n as nat),
{
    let mut r: Vec<Range<usize>> = Vec::new();
    let mut i: usize = 0;
    while i < n
        invariant
            i <= n,
            r@ =~= singletons(i as nat),
        decreases n - i,
    {
        r.push(i..i + 1);
        i = i + 1;
    }
    r
}

/// The quotient of two numbers, rounded up.
pub open spec fn ceil_div(a: nat, b: nat) -> nat
    recommends
        b > 0,
{
    if a % b == 0 {
        a / b
    } else {
        a / b + 1
    }
}

/// The size of the sub-ranges into which `n` map partitions are split.
pub open spec fn split_chunk(n: nat, splits: nat) -> nat {
    ceil_div(n, if splits < n { splits } else { n })
}

/// The sub-range number `i` of `n` map partitions in chunks of `chunk`.
pub open spec fn split_range(n: nat, chunk: nat, i: int) -> Range<usize> {
    index_range(
        i * chunk,
        if (i + 1) * chunk < n {
            (i + 1) * chunk
        } else {
            n as int
        },
    )
}

/// The sub-ranges of `n` map partitions for `splits` readers.
pub open spec fn split_ranges(n: nat, splits: nat) -> Seq<Range<usize>> {
    if n == 0 || splits <= 1 {
        seq![index_range(0, n as int)]
    } else {
        let chunk = split_chunk(n, splits);
        Seq::new(ceil_div(n, chunk), |i: int| split_range(n, chunk, i))
    }
}

/// How a quotient that is rounded up relates to the number that is divided.
pub proof fn lemma_ceil_div(a: nat, b: nat)
    requires
        b > 0,
    ensures
        ceil_div(a, b) * b >= a,
        a > 0 ==> ceil_div(a, b) > 0,
        a > 0 ==> (ceil_div(a, b) - 1) * b < a,
{
    let q = a / b;
    let r = a % b;
    vstd::arithmetic::div_mod::lemma_fundamental_div_mod(a as int, b as int);
    assert(a == q * b + r) by (nonlinear_arith)
        requires
            a == b * q + r,
    ;
    assert((q + 1) * b == q * b + b) by (nonlinear_arith);
    assert((q - 1) * b == q * b - b) by (nonlinear_arith);
    if a > 0 && q == 0 {
        assert(q * b == 0) by (nonlinear_arith)
            requires
                q == 0,
        ;
    }
}

/// Splitting covers all map partitions, each of them once and in order, with no more
/// ranges than readers, none of them longer than the chunk.
pub proof fn lemma_split_covers(n: nat, splits: nat)
    requires
        0 < n <= usize::MAX,
    ensures
        covers(split_ranges(n, splits), n),
        split_ranges(n, splits).len() <= (if splits < 1 { 1 } else { splits }),
        splits > 1 ==> forall|i: int|
            0 <= i < split_ranges(n, splits).len() ==> (#[trigger] split_ranges(n, splits)[i]).end
                - split_ranges(n, splits)[i].start <= split_chunk(n, splits),
{
    if splits > 1 {
        let s: nat = if splits < n { splits } else { n };
        let chunk = split_chunk(n, splits);
        lemma_ceil_div(n, s);
        lemma_ceil_div(n, chunk);
        let m = ceil_div(n, chunk);
        let ranges = split_ranges(n, splits);
        assert(m <= s) by (nonlinear_arith)
            requires
                chunk * s >= n,
                (m - 1) * chunk < n,
                chunk > 0,
                m > 0,
                s > 0,
        ;
        assert forall|i: int| 0 <= i < m implies (#[trigger] ranges[i]).start < ranges[i].end
            && ranges[i].start == i * chunk && ranges[i].end - ranges[i].start <= chunk && (i < m
            - 1 ==> ranges[i].end == (i + 1) * chunk) && (i == m - 1 ==> ranges[i].end == n) by {
            assert(0 <= i * chunk < n && (i + 1) * chunk == i * chunk + chunk && (i < m - 1 ==> (i
                + 1) * chunk < n)) by (nonlinear_arith)
                requires
                    0 <= i < m,
                    (m - 1) * chunk < n,
                    chunk > 0,
            ;
            if i == m - 1 {
                assert((i + 1) * chunk == m * chunk);
            }
            assert(ranges[i] == split_range(n, chunk, i));
        }
        assert forall|i: int, j: int|
            0 <= i && j == i + 1 && j < ranges.len() implies (#[trigger] ranges[i]).end == (
        #[trigger] ranges[j]).start by {}
        assert(ranges[0].start == 0 * chunk);
    } else {
        assert(split_ranges(n, splits)[0] == index_range(0, n as int));
    }
}

/// Splits map partitions into sub-ranges, so that several tasks can read a skewed channel.
pub fn split_skew_partition(num_map_partitions: usize, num_splits: usize) -> (r: Vec<Range<usize>>)
    ensures
        r@ == split_ranges(num_map_partitions as nat, num_splits as nat),
{
    let mut ranges: Vec<Range<usize>> = Vec::new();
    if num_map_partitions == 0 || num_splits <= 1 {
        ranges.push(0..num_map_partitions);
        assert(ranges@ =~= split_ranges(num_map_partitions as nat, num_splits as nat));
        return ranges;
    }
    let splits: usize = if num_splits < num_map_partitions {
        num_splits
    } else {
        num_map_partitions
    };
    let mut chunk_size: usize = num_map_partitions / splits;
    if num_map_partitions % splits != 0 {
        proof {
            assert(num_map_partitions / splits < usize::MAX) by (nonlinear_arith)
                requires
                    splits > 1,
                    num_map_partitions <= usize::MAX,
            ;
        }
        chunk_size = chunk_size + 1;
    }
    let ghost n = num_map_partitions as nat;
    let ghost chunk = chunk_size as nat;
    proof {
        assert(splits == 1 ==> num_map_partitions % splits == 0);
        lemma_ceil_div(n, splits as nat);
        assert(chunk == split_chunk(n, num_splits as nat));
        lemma_ceil_div(n, chunk);
    }
    let ghost mut i: int = 0;
    let mut start: usize = 0;
    while start < num_map_partitions
        invariant
            n == num_map_partitions,
            chunk == chunk_size,
            chunk > 0,
            start <= num_map_partitions,
            0 <= i <= ceil_div(n, chunk),
            start == (if i * chunk < n {
                i * chunk
            } else {
                n as int
            }),
            ceil_div(n, chunk) * chunk >= n,
            (ceil_div(n, chunk) - 1) * chunk < n,
            start < n ==> i < ceil_div(n, chunk),
            start == n ==> i == ceil_div(n, chunk),
            ranges@ =~= Seq::new(i as nat, |j: int| split_range(n, chunk, j)),
        decreases num_map_partitions - start,
    {
        let end: usize = if chunk_size < num_map_partitions - start {
            start + chunk_size
        } else {
            num_map_partitions
        };
        proof {
            assert((i + 1) * chunk == i * chunk + chunk) by (nonlinear_arith);
            let m = ceil_div(n, chunk);
            if (i + 1) * chunk < n {
                assert(i + 1 < m) by (nonlinear_arith)
                    requires
                        (i + 1) * chunk < n,
                        m * chunk >= n,
                        chunk > 0,
                ;
            } else {
                assert(i + 1 >= m) by (nonlinear_arith)
                    requires
                        (i + 1) * chunk >= n,
                        (m - 1) * chunk < n,
                        chunk > 0,
                ;
            }
        }
        assert((start..end) == split_range(n, chunk, i));
        ranges.push(start..end);
        start = end;
        proof {
            i = i + 1;
        }
    }
    ranges
}

/// The sizes of the channels that hold data.
pub open spec fn nonzero_sizes(bytes: Seq<u64>) -> Seq<u64> {
    bytes.filter(|b: u64| b > 0)
}

/// The order of numbers.
pub open spec fn ascending() -> spec_fn(u64, u64) -> bool {
    |a: u64, b: u64| a <= b
}

/// The median size of the channels that hold data: the element in the middle of the sorted
/// sizes, and of two middle elements the larger one.
pub open spec fn median_size(bytes: Seq<u64>) -> Option<u64> {
    let s = nonzero_sizes(bytes);
    if s.len() == 0 {
        None
    } else {
        Some(s.sort_by(ascending())[s.len() as int / 2])
    }
}

/// The channels below `n` that are at least `min` bytes large and marked as lying above the
/// skew threshold.
pub open spec fn skewed_below(bytes: Seq<u64>, above: Seq<bool>, min: nat, n: nat) -> Seq<usize>
    decreases n,
{
    if n == 0 {
        Seq::empty()
    } else {
        let k = (n - 1) as nat;
        let rest = skewed_below(bytes, above, min, k);
        if bytes[k as int] >= min && above[k as int] {
            rest.push(k as usize)
        } else {
            rest
        }
    }
}

/// The channels that are at least `min` bytes large and marked as lying above the skew threshold.
/// Without any data there are none.
pub open spec fn skewed_channels(bytes: Seq<u64>, above: Seq<bool>, min: nat) -> Seq<usize> {
    if median_size(bytes) is None {
        Seq::empty()
    } else {
        skewed_below(bytes, above, min, bytes.len())
    }
}

/// Sorts numbers in ascending order with `sort_unstable` of the standard library: the result
/// holds the same numbers, each of them as often as before.
#[verifier::external_body]
fn sort_unstable(v: &mut Vec<u64>)
    ensures
        sorted_by(final(v)@, ascending()),
        final(v)@.to_multiset() == old(v)@.to_multiset(),
{
    v.sort_unstable();
}

/// Summary statistics for all partitions and channels that a shuffle stage has produced.
#[derive(Debug, Clone, PartialEq, Eq)]
pub struct StageShuffleStats {
    pub channel_bytes: Vec<u64>,
    pub channel_records: Vec<usize>,
    pub total_bytes: u64,
    pub total_records: usize,
}

impl StageShuffleStats {
    /// The statistics of a stage without data.
    pub fn new(channels: usize) -> (r: Self)
        ensures
            r.channel_bytes@ == Seq::new(channels as nat, |c: int| 0u64),
            r.channel_records@ == Seq::new(channels as nat, |c: int| 0usize),
            r.total_bytes == 0,
            r.total_records == 0,
    {
        let channel_bytes: Vec<u64> = vec![0u64; channels];
        let channel_records: Vec<usize> = vec![0usize; channels];
        assert(channel_bytes@ =~= Seq::new(channels as nat, |c: int| 0u64));
        assert(channel_records@ =~= Seq::new(channels as nat, |c: int| 0usize));
        StageShuffleStats { channel_bytes, channel_records, total_bytes: 0, total_records: 0 }
    }

    /// Groups adjacent channels into partitions of roughly `target_partition_size` bytes.
    pub fn coalesce(&self, target_partition_size: u64) -> (r: Vec<Range<usize>>)
        ensures
            r@ == coalesced(self.channel_bytes@, target_partition_size as nat),
    {
        coalesce_shuffle_partitions(self.channel_bytes.as_slice(), target_partition_size)
    }

    /// The median size of the channels that hold data, if there are any.
    pub fn median_channel_bytes(&self) -> (r: Option<u64>)
        ensures
            r == median_size(self.channel_bytes@),
    {
        let ghost bytes = self.channel_bytes@;
        let ghost pred = |b: u64| b > 0;
        let mut non_zero: Vec<u64> = Vec::new();
        let mut i: usize = 0;
        while i < self.channel_bytes.len()
            invariant
                bytes == self.channel_bytes@,
                i <= bytes.len(),
                pred == (|b: u64| b > 0),
                non_zero@ == bytes.take(i as int).filter(pred),
            decreases bytes.len() - i,
        {
            proof {
                reveal(Seq::filter);
                assert(bytes.take(i + 1).drop_last() =~= bytes.take(i as int));
            }
            if self.channel_bytes[i] > 0 {
                non_zero.push(self.channel_bytes[i]);
            }
            i = i + 1;
        }
        proof {
            assert(bytes.take(bytes.len() as int) =~= bytes);
        }
        if non_zero.len() == 0 {
            return None;
        }
        let ghost s = non_zero@;
        sort_unstable(&mut non_zero);
        proof {
            s.lemma_sort_by_ensures(ascending());
            vstd::seq_lib::lemma_sorted_unique(non_zero@, s.sort_by(ascending()), ascending());
            non_zero@.to_multiset_ensures();
            s.to_multiset_ensures();
        }
        Some(non_zero[non_zero.len() / 2])
    }

    /// The channels that suffer from data skew: those of at least `min_skew_threshold` bytes
    /// that are marked in `above_threshold`, which says of every channel whether its size
    /// exceeds the median by the skew factor. Without any data there is no skew.
    pub fn detect_skew_partitions(
        &self,
        above_threshold: &Vec<bool>,
        min_skew_threshold: u64,
    ) -> (r: Vec<usize>)
        requires
            above_threshold@.len() == self.channel_bytes@.len(),
        ensures
            r@ == skewed_channels(
                self.channel_bytes@,
                above_threshold@,
                min_skew_threshold as nat,
            ),
    {
        let mut skewed: Vec<usize> = Vec::new();
        if self.median_channel_bytes().is_none() {
            assert(skewed@ =~= Seq::<usize>::empty());
            return skewed;
        }
        let mut c: usize = 0;
        while c < self.channel_bytes.len()
            invariant
                c <= self.channel_bytes@.len(),
                above_threshold@.len() == self.channel_bytes@.len(),
                skewed@ == skewed_below(
                    self.channel_bytes@,
                    above_threshold@,
                    min_skew_threshold as nat,
                    c as nat,
                ),
            decreases self.channel_bytes@.len() - c,
        {
            if self.channel_bytes[c] >= min_skew_threshold && above_threshold[c] {
                skewed.push(c);
            }
            c = c + 1;
        }
        skewed
    }

    /// Whether a join on the output of this stage should become a broadcast join.
    pub fn should_broadcast_join(&self, auto_broadcast_threshold: u64) -> (r: bool)
        ensures
            r == (0 < self.total_bytes <= auto_broadcast_threshold),
    {
        self.total_bytes > 0 && self.total_bytes <= auto_broadcast_threshold
    }
}

}

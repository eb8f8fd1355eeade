//! What the sizing of shuffle reads comes to, told by the sizes of the channels alone.

use crate::adaptive::{
    ascending, ceil_div, coalesced, covers, is_greedy_grouping, joins, lemma_ceil_div,
    lemma_coalesced_covers, lemma_coalesced_is_greedy, lemma_covers_singly,
    lemma_greedy_grouping_unique, lemma_split_covers, median_size, nonzero_sizes, range_bytes,
    seq_sum, sizes, skewed_below, skewed_channels, split_chunk, split_range, split_ranges,
};
use crate::lists::lemma_contains_push;
use std::ops::Range;
use vstd::prelude::*;

verus! {

/// The bytes of the channels from `start` up to, not including, `end`.
pub open spec fn bytes_between(bytes: Seq<u64>, start: int, end: int) -> int
    decreases end - start,
{
    if start >= end {
        0
    } else {
        bytes[start] + bytes_between(bytes, start + 1, end)
    }
}

/// The sum over channels ends with the last of them.
pub proof fn lemma_bytes_between_last(bytes: Seq<u64>, start: int, end: int)
    requires
        start < end,
    ensures
        bytes_between(bytes, start, end) == bytes_between(bytes, start, end - 1) + bytes[end - 1],
    decreases end - start,
{
    if start + 1 < end {
        lemma_bytes_between_last(bytes, start + 1, end);
    } else {
        assert(bytes_between(bytes, end, end) == 0);
        assert(bytes_between(bytes, start, end - 1) == 0);
    }
}

/// Both ways of adding up channels agree.
proof fn lemma_range_bytes(bytes: Seq<u64>, start: int, end: int)
    requires
        0 <= start <= end <= bytes.len(),
    ensures
        range_bytes(bytes, start, end) == bytes_between(bytes, start, end),
    decreases end - start,
{
    let part = sizes(bytes.subrange(start, end));
    if start < end {
        lemma_range_bytes(bytes, start, end - 1);
        lemma_bytes_between_last(bytes, start, end);
        assert(part.drop_last() =~= sizes(bytes.subrange(start, end - 1)));
        assert(part.last() == bytes[end - 1]);
    } else {
        assert(part.len() == 0);
    }
}

/// Whether ranges are the groups that coalescing owes: they follow one another, a group takes in the next
/// channel as long as it has no data or stays within the target with it, and no longer.
pub open spec fn is_grouping(
    bytes: Seq<u64>,
    target: nat,
    r: Seq<Range<usize>>,
) -> bool {
    let n = bytes.len();
    &&& r.len() == 0 <==> n == 0
    &&& n > 0 ==> r[0].start == 0 && r[r.len() - 1].end == n
    &&& forall|i: int| 0 <= i < r.len() ==> (#[trigger] r[i]).start < r[i].end <= n
    &&& forall|i: int| 0 < i < r.len() ==> (#[trigger] r[i]).start == r[i - 1].end
    &&& target == 0 ==> r.len() == n
    &&& target > 0 ==> forall|i: int, k: int|
        0 <= i < r.len() && r[i].start < k < r[i].end ==> bytes_between(
            bytes,
            (#[trigger] r[i]).start as int,
            k,
        ) == 0 || #[trigger] bytes_between(bytes, r[i].start as int, k + 1) <= target
    &&& target > 0 ==> forall|i: int|
        0 <= i < r.len() - 1 ==> bytes_between(
            bytes,
            (#[trigger] r[i]).start as int,
            r[i].end as int,
        ) > 0 && bytes_between(bytes, r[i].start as int, r[i].end + 1) > target
}

/// Coalescing divides the channels into groups that follow one another. A group takes in the next
/// channel as long as it has no data, or stays within the target with it. The next group starts only
/// where the group before holds data, and would exceed the target with one channel more. A target of
/// zero leaves every channel alone.
pub proof fn lemma_coalesced_groups(bytes: Seq<u64>, target: nat)
    requires
        bytes.len() <= usize::MAX,
    ensures
        is_grouping(bytes, target, coalesced(bytes, target)),
{
    let r = coalesced(bytes, target);
    let n = bytes.len();
    lemma_coalesced_covers(bytes, target);
    assert forall|i: int| 0 <= i < r.len() implies (#[trigger] r[i]).start < r[i].end <= n by {
        lemma_ends_within(bytes, target, i);
    }
    assert forall|i: int| 0 < i < r.len() implies (#[trigger] r[i]).start == r[i - 1].end by {
        assert(r[i - 1].end == r[i].start);
    }
    if target > 0 {
        lemma_coalesced_is_greedy(bytes, target);
        assert forall|i: int, k: int|
            0 <= i < r.len() && r[i].start < k < r[i].end implies bytes_between(
            bytes,
            (#[trigger] r[i]).start as int,
            k,
        ) == 0 || #[trigger] bytes_between(bytes, r[i].start as int, k + 1) <= target by {
            assert(joins(bytes, target, r[i].start as int, k));
            lemma_range_bytes(bytes, r[i].start as int, k);
            lemma_range_bytes(bytes, r[i].start as int, k + 1);
        }
        assert forall|i: int| 0 <= i < r.len() - 1 implies bytes_between(
            bytes,
            (#[trigger] r[i]).start as int,
            r[i].end as int,
        ) > 0 && bytes_between(bytes, r[i].start as int, r[i].end + 1) > target by {
            assert(!joins(bytes, target, r[i].start as int, r[i].end as int));
            lemma_ends_within(bytes, target, i + 1);
            assert(r[i].end == r[i + 1].start);
            lemma_range_bytes(bytes, r[i].start as int, r[i].end as int);
            lemma_range_bytes(bytes, r[i].start as int, r[i].end + 1);
        }
    }
}

/// No group reaches beyond the channels.
proof fn lemma_ends_within(bytes: Seq<u64>, target: nat, i: int)
    requires
        bytes.len() <= usize::MAX,
        0 <= i < coalesced(bytes, target).len(),
    ensures
        coalesced(bytes, target)[i].end <= bytes.len(),
    decreases coalesced(bytes, target).len() - i,
{
    let r = coalesced(bytes, target);
    lemma_coalesced_covers(bytes, target);
    if i < r.len() - 1 {
        lemma_ends_within(bytes, target, i + 1);
        assert(r[i].end == r[i + 1].start);
    }
}

/// There is one way only to group channels like that.
pub proof fn lemma_grouping_unique(
    bytes: Seq<u64>,
    target: nat,
    a: Seq<Range<usize>>,
    b: Seq<Range<usize>>,
)
    requires
        is_grouping(bytes, target, a),
        is_grouping(bytes, target, b),
    ensures
        a == b,
{
    lemma_grouping_covers(bytes, target, a);
    lemma_grouping_covers(bytes, target, b);
    if target == 0 {
        lemma_covers_singly(a, bytes.len());
        lemma_covers_singly(b, bytes.len());
        assert(a =~= b);
    } else {
        lemma_greedy_grouping_unique(bytes, target, a, b);
    }
}

/// Groups that coalescing owes cover all channels, and take in exactly the channels that join them.
proof fn lemma_grouping_covers(bytes: Seq<u64>, target: nat, r: Seq<Range<usize>>)
    requires
        is_grouping(bytes, target, r),
    ensures
        covers(r, bytes.len()),
        target > 0 ==> is_greedy_grouping(bytes, target, r),
{
    assert forall|i: int, j: int| 0 <= i && j == i + 1 && j < r.len() implies (
    #[trigger] r[i]).end == (#[trigger] r[j]).start by {
        assert(r[j].start == r[j - 1].end);
    }
    if target > 0 {
        assert forall|i: int, k: int|
            0 <= i < r.len() && (#[trigger] r[i]).start < k < r[i].end implies #[trigger] joins(
            bytes,
            target,
            r[i].start as int,
            k,
        ) by {
            assert(bytes_between(bytes, r[i].start as int, k + 1) <= target || bytes_between(
                bytes,
                r[i].start as int,
                k,
            ) == 0);
            lemma_range_bytes(bytes, r[i].start as int, k);
            lemma_range_bytes(bytes, r[i].start as int, k + 1);
        }
        assert forall|i: int| 0 <= i < r.len() - 1 implies !joins(
            bytes,
            target,
            (#[trigger] r[i]).start as int,
            r[i].end as int,
        ) by {
            assert(r[i + 1].start == r[i].end);
            assert(r[i + 1].end <= bytes.len());
            lemma_range_bytes(bytes, r[i].start as int, r[i].end as int);
            lemma_range_bytes(bytes, r[i].start as int, r[i].end + 1);
        }
    }
}

/// If some channel holds data, the skewed channels are exactly those that have at least the minimum size
/// and lie above the threshold, in ascending order. Without data there are none.
pub proof fn lemma_skewed_channels(bytes: Seq<u64>, above: Seq<bool>, min: nat)
    requires
        bytes.len() == above.len(),
        bytes.len() <= usize::MAX,
    ensures
        ({
            let r = skewed_channels(bytes, above, min);
            &&& forall|i: int, j: int| 0 <= i < j < r.len() ==> #[trigger] r[i] < #[trigger] r[j]
            &&& (exists|c: int| 0 <= c < bytes.len() && #[trigger] bytes[c] > 0) ==> forall|c: usize| #[trigger]
                r.contains(c) <==> c < bytes.len() && bytes[c as int] >= min && above[c as int]
            &&& (forall|c: int| 0 <= c < bytes.len() ==> #[trigger] bytes[c] == 0) ==> r.len() == 0
        }),
{
    let positive = |b: u64| b > 0;
    lemma_skewed_below(bytes, above, min, bytes.len());
    if exists|c: int| 0 <= c < bytes.len() && #[trigger] bytes[c] > 0 {
        let c = choose|c: int| 0 <= c < bytes.len() && #[trigger] bytes[c] > 0;
        assert(bytes.filter(positive).contains(bytes[c]));
        assert(median_size(bytes) is Some);
    }
    if forall|c: int| 0 <= c < bytes.len() ==> #[trigger] bytes[c] == 0 {
        bytes.lemma_all_neg_filter_empty(positive);
    }
}

/// The skewed ones among the first channels.
proof fn lemma_skewed_below(bytes: Seq<u64>, above: Seq<bool>, min: nat, n: nat)
    requires
        bytes.len() == above.len(),
        n <= bytes.len() <= usize::MAX,
    ensures
        ({
            let r = skewed_below(bytes, above, min, n);
            &&& forall|i: int, j: int| 0 <= i < j < r.len() ==> #[trigger] r[i] < #[trigger] r[j]
            &&& forall|c: usize| #[trigger]
                r.contains(c) <==> c < n && bytes[c as int] >= min && above[c as int]
        }),
    decreases n,
{
    let r = skewed_below(bytes, above, min, n);
    if n > 0 {
        let k = (n - 1) as usize;
        let rest = skewed_below(bytes, above, min, k as nat);
        lemma_skewed_below(bytes, above, min, k as nat);
        assert forall|i: int| 0 <= i < rest.len() implies #[trigger] rest[i] < k by {
            assert(rest.contains(rest[i]));
        }
        assert forall|c: usize| #[trigger]
            r.contains(c) <==> c < n && bytes[c as int] >= min && above[c as int] by {
            assert(rest.contains(c) <==> c < k && bytes[c as int] >= min && above[c as int]);
            if bytes[k as int] >= min && above[k as int] {
                lemma_contains_push(rest, k, c);
            }
        }
    } else {
        assert(r.len() == 0);
    }
}

/// How many channels have a size with a property does not depend on their order.
proof fn lemma_filter_count(s: Seq<u64>, f: spec_fn(u64) -> bool)
    ensures
        s.filter(f).len() == s.to_multiset().filter(f).len(),
    decreases s.len(),
{
    broadcast use vstd::multiset::group_multiset_axioms;

    reveal(Seq::filter);
    if s.len() > 0 {
        let rest = s.drop_last();
        lemma_filter_count(rest, f);
        assert(s =~= rest.push(s.last()));
        rest.to_multiset_ensures();
        let m = rest.to_multiset();
        assert(s.to_multiset() =~= m.insert(s.last()));
        if f(s.last()) {
            assert(m.insert(s.last()).filter(f) =~= m.filter(f).insert(s.last()));
        } else {
            assert(m.insert(s.last()).filter(f) =~= m.filter(f));
        }
    } else {
        s.to_multiset_ensures();
        assert(s.to_multiset().filter(f) =~= vstd::multiset::Multiset::empty());
    }
}

/// In an ordered sequence whose items from `k` on lack a property, at most `k` items have it.
proof fn lemma_at_most(s: Seq<u64>, f: spec_fn(u64) -> bool, k: int)
    requires
        0 <= k <= s.len(),
        forall|i: int| k <= i < s.len() ==> !f(#[trigger] s[i]),
    ensures
        s.filter(f).len() <= k,
    decreases s.len(),
{
    reveal(Seq::filter);
    if k < s.len() {
        lemma_at_most(s.drop_last(), f, k);
    } else {
    }
}

/// In a sequence whose items before `k` have a property, at least `k` items have it.
proof fn lemma_at_least(s: Seq<u64>, f: spec_fn(u64) -> bool, k: int)
    requires
        0 <= k <= s.len(),
        forall|i: int| 0 <= i < k ==> f(#[trigger] s[i]),
    ensures
        s.filter(f).len() >= k,
    decreases s.len(),
{
    reveal(Seq::filter);
    if s.len() > 0 {
        lemma_at_least(s.drop_last(), f, if k < s.len() { k } else { k - 1 });
    }
}

/// Filtering twice is filtering by both properties.
proof fn lemma_filter_twice(s: Seq<u64>, f: spec_fn(u64) -> bool, g: spec_fn(u64) -> bool)
    requires
        forall|b: u64| #[trigger] g(b) ==> f(b),
    ensures
        s.filter(f).filter(g) == s.filter(g),
    decreases s.len(),
{
    reveal(Seq::filter);
    if s.len() > 0 {
        lemma_filter_twice(s.drop_last(), f, g);
        let rest = s.drop_last().filter(f);
        if f(s.last()) {
            assert(rest.push(s.last()).drop_last() =~= rest);
        }
    }
}

/// The median is the size of a channel with data. At most half of the channels with data are smaller,
/// and more than half of them are not larger.
pub proof fn lemma_median_is_in_the_middle(bytes: Seq<u64>)
    ensures
        match median_size(bytes) {
            Some(m) => {
                let n = bytes.filter(|b: u64| b > 0).len();
                &&& m > 0
                &&& bytes.contains(m)
                &&& 2 * bytes.filter(|b: u64| 0 < b < m).len() <= n
                &&& 2 * bytes.filter(|b: u64| 0 < b <= m).len() > n
            },
            None => forall|c: int| 0 <= c < bytes.len() ==> #[trigger] bytes[c] == 0,
        },
{
    let positive = |b: u64| b > 0;
    let s = nonzero_sizes(bytes);
    if s.len() > 0 {
        let n = s.len() as int;
        let t = s.sort_by(ascending());
        s.lemma_sort_by_ensures(ascending());
        s.to_multiset_ensures();
        t.to_multiset_ensures();
        let m = t[n / 2];
        assert(t.len() == s.len());
        assert(t.contains(m));
        assert(s.to_multiset().contains(m));
        assert(s.contains(m));
        bytes.lemma_filter_contains_rev(positive, m);
        let smaller = |b: u64| 0 < b < m;
        let upto = |b: u64| 0 < b <= m;
        assert forall|i: int| 0 <= i < t.len() implies #[trigger] t[i] > 0 by {
            assert(t.contains(t[i]));
            assert(s.to_multiset().contains(t[i]));
            assert(s.contains(t[i]));
        }
        assert forall|i: int| n / 2 <= i < t.len() implies !smaller(#[trigger] t[i]) by {
            if i > n / 2 {
                assert(ascending()(t[n / 2], t[i]));
            }
        }
        assert forall|i: int| 0 <= i < n / 2 + 1 implies upto(#[trigger] t[i]) by {
            if i < n / 2 {
                assert(ascending()(t[i], t[n / 2]));
            }
        }
        lemma_at_most(t, smaller, n / 2);
        lemma_at_least(t, upto, n / 2 + 1);
        lemma_filter_count(s, smaller);
        lemma_filter_count(t, smaller);
        lemma_filter_count(s, upto);
        lemma_filter_count(t, upto);
        lemma_filter_twice(bytes, positive, smaller);
        lemma_filter_twice(bytes, positive, upto);
    } else {
        assert forall|c: int| 0 <= c < bytes.len() implies #[trigger] bytes[c] == 0 by {
            if bytes[c] > 0 {
                assert(s.contains(bytes[c]));
            }
        }
    }
}

/// Map partitions are split into ranges that follow one another, at most as many as there are readers.
/// All of them but the last have the same length, and that is the least length with which no more ranges
/// are needed than there are readers or map partitions.
pub proof fn lemma_split_evenly(n: nat, splits: nat)
    requires
        n <= usize::MAX,
    ensures
        ({
            let r = split_ranges(n, splits);
            let readers: nat = if splits < 1 { 1 } else if splits < n { splits } else { n };
            let length = r[0].end as int;
            &&& r.len() > 0
            &&& r[0].start == 0 && r[r.len() - 1].end == n
            &&& n == 0 ==> r.len() == 1
            &&& n > 0 ==> {
                &&& r.len() <= readers
                &&& forall|i: int| 0 <= i < r.len() ==> (#[trigger] r[i]).start < r[i].end
                &&& forall|i: int| 0 < i < r.len() ==> (#[trigger] r[i]).start == r[i - 1].end
                &&& forall|i: int|
                    0 <= i < r.len() - 1 ==> (#[trigger] r[i]).end - r[i].start == length
                &&& r[r.len() - 1].end - r[r.len() - 1].start <= length
                &&& (length - 1) * readers < n <= length * readers
            }
        }),
{
    let r = split_ranges(n, splits);
    if n > 0 && splits > 1 {
        lemma_split_covers(n, splits);
        let readers: nat = if splits < n { splits } else { n };
        let chunk = split_chunk(n, splits);
        let m = ceil_div(n, chunk);
        lemma_ceil_div(n, readers);
        lemma_ceil_div(n, chunk);
        assert(m <= readers) by (nonlinear_arith)
            requires
                chunk * readers >= n,
                (m - 1) * chunk < n,
                chunk > 0,
                m > 0,
                readers > 0,
        ;
        assert(chunk <= n) by (nonlinear_arith)
            requires
                (chunk - 1) * readers < n,
                readers > 0,
                n > 0,
                chunk > 0,
        ;
        assert forall|i: int| 0 <= i < r.len() - 1 implies (#[trigger] r[i]).start == i * chunk
            && r[i].end == (i + 1) * chunk by {
            assert(0 <= i * chunk && (i + 1) * chunk == i * chunk + chunk && (i + 1) * chunk < n)
                by (nonlinear_arith)
                requires
                    0 <= i < m - 1,
                    (m - 1) * chunk < n,
                    chunk > 0,
            ;
            assert(r[i] == split_range(n, chunk, i));
        }
        assert forall|i: int| 0 < i < r.len() implies (#[trigger] r[i]).start == r[i - 1].end by {
            assert(r[i - 1].end == r[i].start);
        }
        assert forall|i: int| 0 <= i < r.len() - 1 implies (#[trigger] r[i]).end - r[i].start
            == chunk by {
            assert((i + 1) * chunk == i * chunk + chunk) by (nonlinear_arith);
        }
        assert(r[0] == split_range(n, chunk, 0));
        assert(0 * chunk == 0 && 1 * chunk == chunk) by (nonlinear_arith);
        if m == 1 {
            assert(chunk == n) by (nonlinear_arith)
                requires
                    m == 1,
                    m * chunk >= n,
                    chunk <= n,
            ;
        }
    } else {
        assert(r[0].start == 0 && r[0].end == n);
        if n > 0 {
            assert(n * 1 == n && (n - 1) * 1 < n) by (nonlinear_arith);
        }
    }
}

/// The sum of sizes adds up: a single size is its own sum, and the sum of two lists one after the other is
/// that of the first and that of the second together.
pub proof fn lemma_sums_add_up(a: Seq<nat>, b: Seq<nat>, x: nat)
    ensures
        seq_sum(Seq::empty()) == 0,
        seq_sum(seq![x]) == x,
        seq_sum(a + b) == seq_sum(a) + seq_sum(b),
    decreases b.len(),
{
    assert(seq![x].drop_last() =~= Seq::<nat>::empty());
    assert(seq_sum(seq![x].drop_last()) == 0);
    if b.len() > 0 {
        lemma_sums_add_up(a, b.drop_last(), x);
        assert((a + b).drop_last() =~= a + b.drop_last());
        assert((a + b).last() == b.last());
    } else {
        assert(a + b =~= a);
    }
}

}

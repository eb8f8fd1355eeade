//! Collections that keep their items in insertion order.

use crate::task::{rows, TaskSetEntry};
use indexmap::{IndexMap, IndexSet};
use std::hash::RandomState;
use vstd::prelude::*;

verus! {

/// The items of a sequence without repetitions, in the order in which they occur first.
pub open spec fn distinct<A>(s: Seq<A>) -> Seq<A>
    decreases s.len(),
{
    if s.len() == 0 {
        Seq::empty()
    } else {
        insert_last(distinct(s.drop_last()), s.last())
    }
}

/// A sequence with an item added at its end unless it holds the item already.
pub open spec fn insert_last<A>(s: Seq<A>, item: A) -> Seq<A> {
    if s.contains(item) {
        s
    } else {
        s.push(item)
    }
}

/// `indexmap::IndexSet`.
#[verifier::external_type_specification]
#[verifier::external_body]
#[verifier::reject_recursive_types(T)]
#[verifier::reject_recursive_types(S)]
pub struct ExIndexSet<T, S>(IndexSet<T, S>);

/// `indexmap::IndexMap`.
#[verifier::external_type_specification]
#[verifier::external_body]
#[verifier::reject_recursive_types(K)]
#[verifier::reject_recursive_types(V)]
#[verifier::reject_recursive_types(S)]
pub struct ExIndexMap<K, V, S>(IndexMap<K, V, S>);

/// A set of numbers that keeps them in insertion order.
pub type NumberSet = IndexSet<usize, RandomState>;

/// The numbers in a set, in insertion order.
pub uninterp spec fn set_items(set: NumberSet) -> Seq<usize>;

/// `IndexSet::new`: the set is empty.
#[verifier::external_body]
pub(crate) fn new_set() -> (r: NumberSet)
    ensures
        set_items(r) == Seq::<usize>::empty(),
{
    IndexSet::new()
}

/// `IndexSet::insert`: a new item goes to the end, and an item that the set holds already
/// changes nothing. The result says whether the item is new.
#[verifier::external_body]
pub(crate) fn set_insert(set: &mut NumberSet, item: usize) -> (r: bool)
    ensures
        set_items(*final(set)) == insert_last(set_items(*old(set)), item),
        r == !set_items(*old(set)).contains(item),
{
    set.insert(item)
}

/// `IndexSet::into_iter`: the items come out in insertion order.
#[verifier::external_body]
pub(crate) fn set_into_vec(set: NumberSet) -> (r: Vec<usize>)
    ensures
        r@ == set_items(set),
{
    set.into_iter().collect()
}

/// The key of a stage group: whether its tasks run on the driver, and its name.
pub type GroupKey = (bool, String);

/// The key of a stage group as a mathematical value.
pub type GroupKeyView = (bool, Seq<char>);

/// The buckets of task attempts of a stage group.
pub type Buckets = Vec<Vec<TaskSetEntry>>;

/// The buckets of a stage group as sequences.
pub type BucketsView = Seq<Seq<TaskSetEntry>>;

/// A map from stage groups to their buckets that keeps the groups in insertion order.
pub type GroupMap = IndexMap<GroupKey, Buckets, RandomState>;

/// The stage groups in a map and their buckets, in insertion order.
pub uninterp spec fn map_groups(map: GroupMap) -> Seq<(GroupKeyView, BucketsView)>;

/// The position of a stage group, or the length of the sequence if it is not there.
pub open spec fn group_position(groups: Seq<(GroupKeyView, BucketsView)>, key: GroupKeyView) -> int
    decreases groups.len(),
{
    if groups.len() == 0 || groups[0].0 == key {
        0
    } else {
        1 + group_position(groups.skip(1), key)
    }
}

/// `IndexMap::new`: the map is empty.
#[verifier::external_body]
pub(crate) fn new_group_map() -> (r: GroupMap)
    ensures
        map_groups(r) == Seq::<(GroupKeyView, BucketsView)>::empty(),
{
    IndexMap::new()
}

/// `Entry::or_default` of `IndexMap::entry`: refers to the buckets of a group. A group that is
/// not in the map is added at its end, without buckets. No other group changes.
#[verifier::external_body]
pub(crate) fn group_or_default(map: &mut GroupMap, key: GroupKey) -> (r: &mut Buckets)
    ensures
        ({
            let groups = map_groups(*old(map));
            let k = (key.0, key.1@);
            let i = group_position(groups, k);
            if i < groups.len() {
                &&& rows(r@) == groups[i].1
                &&& map_groups(*final(map)) == groups.update(i, (k, rows(final(r)@)))
            } else {
                &&& r@.len() == 0
                &&& map_groups(*final(map)) == groups.push((k, rows(final(r)@)))
            }
        }),
{
    map.entry(key).or_default()
}

/// `IndexMap::get_mut`: refers to the buckets of a group if the group is in the map. No other
/// group changes.
#[verifier::external_body]
pub(crate) fn group_get_mut<'a>(map: &'a mut GroupMap, key: &GroupKey) -> (r: Option<&'a mut Buckets>)
    ensures
        ({
            let groups = map_groups(*old(map));
            let k = (key.0, key.1@);
            let i = group_position(groups, k);
            match r {
                Some(buckets) => {
                    &&& i < groups.len()
                    &&& rows(buckets@) == groups[i].1
                    &&& map_groups(*final(map)) == groups.update(i, (k, rows(final(buckets)@)))
                },
                None => i == groups.len() && map_groups(*final(map)) == groups,
            }
        }),
{
    map.get_mut(key)
}

/// `IndexMap::into_iter`: the groups come out in insertion order.
#[verifier::external_body]
pub(crate) fn group_map_into_vec(map: GroupMap) -> (r: Vec<(GroupKey, Buckets)>)
    ensures
        r@.map_values(|g: (GroupKey, Buckets)| ((g.0.0, g.0.1@), rows(g.1@))) == map_groups(map),
{
    map.into_iter().collect()
}

/// The numbers of a list without repetitions, in the order in which they occur first.
pub fn distinct_numbers(items: &Vec<usize>) -> (r: Vec<usize>)
    ensures
        r@ == distinct(items@),
{
    let mut set = new_set();
    let mut i: usize = 0;
    assert(items@.take(0) =~= Seq::<usize>::empty());
    while i < items.len()
        invariant
            i <= items@.len(),
            set_items(set) == distinct(items@.take(i as int)),
        decreases items@.len() - i,
    {
        assert(items@.take(i + 1).drop_last() =~= items@.take(i as int));
        set_insert(&mut set, items[i]);
        i = i + 1;
    }
    assert(items@.take(i as int) =~= items@);
    set_into_vec(set)
}

/// The items of a sequence without repetitions are those of the sequence, each once.
pub proof fn lemma_distinct<A>(s: Seq<A>)
    ensures
        distinct(s).no_duplicates(),
        forall|x: A| #[trigger] distinct(s).contains(x) <==> s.contains(x),
        distinct(s).len() <= s.len(),
    decreases s.len(),
{
    if s.len() > 0 {
        lemma_distinct(s.drop_last());
        let d = distinct(s.drop_last());
        assert forall|x: A| #[trigger] distinct(s).contains(x) <==> s.contains(x) by {
            assert(s =~= s.drop_last().push(s.last()));
            if distinct(s).contains(x) {
                if x != s.last() {
                    let i = choose|i: int| 0 <= i < distinct(s).len() && distinct(s)[i] == x;
                    assert(d[i] == x);
                    assert(d.contains(x));
                    let j = s.drop_last().index_of(x);
                    assert(s[j] == x);
                } else {
                    assert(s[s.len() - 1] == x);
                }
            }
            if s.contains(x) {
                let j = s.index_of(x);
                if x == s.last() {
                    if !d.contains(x) {
                        assert(d.push(x)[d.len() as int] == x);
                    }
                } else {
                    assert(s.drop_last()[j] == x);
                    assert(d.contains(x));
                    let i = d.index_of(x);
                    assert(distinct(s)[i] == x);
                }
            }
        }
    }
}

}

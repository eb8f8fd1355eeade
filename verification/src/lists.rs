//! Facts about sequences.

use vstd::prelude::*;

verus! {

/// Two tables one after the other hold the items of the first and then those of the second.
pub proof fn lemma_flatten_join<A>(a: Seq<Seq<A>>, b: Seq<Seq<A>>)
    ensures
        (a + b).flatten() == a.flatten() + b.flatten(),
    decreases a.len(),
{
    if a.len() == 0 {
        assert(a + b =~= b);
        assert(a.flatten() + b.flatten() =~= b.flatten());
    } else {
        assert((a + b).drop_first() =~= a.drop_first() + b);
        lemma_flatten_join(a.drop_first(), b);
        assert((a + b).first() == a.first());
        assert(a.first() + (a.drop_first().flatten() + b.flatten()) =~= (a.first()
            + a.drop_first().flatten()) + b.flatten());
    }
}

/// Joining the rows of a table in which an item has been added to a row adds the item.
pub proof fn lemma_flatten_update<A>(s: Seq<Seq<A>>, i: int, row: Seq<A>, x: A)
    requires
        0 <= i < s.len(),
        row.to_multiset() == s[i].to_multiset().insert(x),
    ensures
        s.update(i, row).flatten().to_multiset() == s.flatten().to_multiset().insert(x),
    decreases s.len(),
{
    broadcast use vstd::multiset::group_multiset_axioms;

    let after = s.update(i, row);
    vstd::seq_lib::lemma_multiset_commutative(s.first(), s.drop_first().flatten());
    vstd::seq_lib::lemma_multiset_commutative(after.first(), after.drop_first().flatten());
    if i == 0 {
        assert(after.drop_first() =~= s.drop_first());
        assert(after.first() == row);
        assert(row.to_multiset().add(s.drop_first().flatten().to_multiset())
            =~= s.first().to_multiset().add(s.drop_first().flatten().to_multiset()).insert(x));
    } else {
        assert(after.drop_first() =~= s.drop_first().update(i - 1, row));
        assert(after.first() == s.first());
        lemma_flatten_update(s.drop_first(), i - 1, row, x);
        assert(s.first().to_multiset().add(s.drop_first().flatten().to_multiset().insert(x))
            =~= s.first().to_multiset().add(s.drop_first().flatten().to_multiset()).insert(x));
    }
}

/// Empty lists one after the other are empty.
pub proof fn lemma_flatten_empty<A>(s: Seq<Seq<A>>)
    requires
        forall|i: int| 0 <= i < s.len() ==> (#[trigger] s[i]).len() == 0,
    ensures
        s.flatten() == Seq::<A>::empty(),
    decreases s.len(),
{
    if s.len() > 0 {
        assert forall|i: int| 0 <= i < s.drop_first().len() implies (
        #[trigger] s.drop_first()[i]).len() == 0 by {
            assert(s.drop_first()[i] == s[i + 1]);
        }
        lemma_flatten_empty(s.drop_first());
        assert(s.first().len() == 0);
        assert(s.flatten() =~= Seq::empty());
    } else {
        assert(s.flatten() =~= Seq::empty());
    }
}

/// Joining the rows of a table, an item is in the result exactly if it is in one of the rows.
pub proof fn lemma_contains_flatten<A>(s: Seq<Seq<A>>, x: A)
    ensures
        s.flatten().contains(x) <==> exists|i: int| 0 <= i < s.len() && (#[trigger] s[i]).contains(x),
    decreases s.len(),
{
    if s.len() > 0 {
        let first = s.first();
        let rest = s.drop_first();
        lemma_contains_flatten(rest, x);
        let all = first + rest.flatten();
        assert(s.flatten() == all);
        if first.contains(x) {
            let i = first.index_of(x);
            assert(all[i] == x);
            assert(s[0].contains(x));
        }
        if rest.flatten().contains(x) {
            let i = rest.flatten().index_of(x);
            assert(all[first.len() + i] == x);
            let k = choose|k: int| 0 <= k < rest.len() && (#[trigger] rest[k]).contains(x);
            assert(s[k + 1].contains(x));
        }
        if all.contains(x) {
            let i = all.index_of(x);
            if i < first.len() {
                assert(first[i] == x);
            } else {
                assert(rest.flatten()[i - first.len()] == x);
            }
        }
        if exists|i: int| 0 <= i < s.len() && (#[trigger] s[i]).contains(x) {
            let i = choose|i: int| 0 <= i < s.len() && (#[trigger] s[i]).contains(x);
            if i > 0 {
                assert(rest[i - 1].contains(x));
            }
        }
    } else {
        assert(s.flatten() =~= Seq::empty());
    }
}

/// Joining lists, an item is in the result exactly if it is in one of them.
pub proof fn lemma_contains_join<A>(a: Seq<A>, b: Seq<A>, x: A)
    ensures
        (a + b).contains(x) <==> a.contains(x) || b.contains(x),
{
    if a.contains(x) {
        let i = a.index_of(x);
        assert((a + b)[i] == x);
    }
    if b.contains(x) {
        let i = b.index_of(x);
        assert((a + b)[a.len() + i] == x);
    }
    if (a + b).contains(x) {
        let i = (a + b).index_of(x);
        if i < a.len() {
            assert(a[i] == x);
        } else {
            assert(b[i - a.len()] == x);
        }
    }
}

/// Adding an item to a list, an item is in the result exactly if it was there or has been added.
pub proof fn lemma_contains_push<A>(a: Seq<A>, y: A, x: A)
    ensures
        a.push(y).contains(x) <==> a.contains(x) || x == y,
{
    if a.contains(x) {
        let i = a.index_of(x);
        assert(a.push(y)[i] == x);
    }
    if x == y {
        assert(a.push(y)[a.len() as int] == x);
    }
    if a.push(y).contains(x) {
        let i = a.push(y).index_of(x);
        if i < a.len() {
            assert(a[i] == x);
        }
    }
}

}

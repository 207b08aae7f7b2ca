//! Sorted lists of number pairs.

use vstd::multiset::Multiset;
use vstd::prelude::*;
use vstd::relations::*;
use vstd::seq_lib::*;

verus! {

/// Pairs ordered by their first number, then by their second.
pub open spec fn pair_leq() -> spec_fn((u64, u64), (u64, u64)) -> bool {
    |a: (u64, u64), b: (u64, u64)| a.0 < b.0 || (a.0 == b.0 && a.1 <= b.1)
}

/// The pairs in ascending order.
pub open spec fn sorted_pairs(pairs: Seq<(u64, u64)>) -> Seq<(u64, u64)> {
    pairs.sort_by(pair_leq())
}

proof fn lemma_insert_multiset(pairs: Seq<(u64, u64)>, place: int, pair: (u64, u64))
    requires
        0 <= place <= pairs.len(),
    ensures
        pairs.insert(place, pair).to_multiset() == pairs.to_multiset().insert(pair),
{
    broadcast use vstd::multiset::group_multiset_axioms;

    let more = pairs.insert(place, pair);
    to_multiset_remove(more, place);
    assert(more.remove(place) =~= pairs);
    more.to_multiset_ensures();
    assert(more[place] == pair);
    assert(more.contains(pair));
    assert(more.to_multiset().count(pair) > 0);
    assert(more.to_multiset() =~= pairs.to_multiset().insert(pair));
}

proof fn lemma_pair_order()
    ensures
        total_ordering(pair_leq()),
{
}

/// Two lists have the same sorted form exactly where they hold the same pairs
/// equally often.
pub proof fn lemma_sorted_pairs_equal(a: Seq<(u64, u64)>, b: Seq<(u64, u64)>)
    ensures
        sorted_pairs(a) == sorted_pairs(b) <==> a.to_multiset() == b.to_multiset(),
{
    lemma_pair_order();
    a.lemma_sort_by_ensures(pair_leq());
    b.lemma_sort_by_ensures(pair_leq());
    if a.to_multiset() == b.to_multiset() {
        lemma_sorted_unique(sorted_pairs(a), sorted_pairs(b), pair_leq());
    }
}

/// The sorted form holds nothing else.
pub proof fn lemma_sorted_pairs_hold(pairs: Seq<(u64, u64)>)
    ensures
        forall|i: int|
            0 <= i < sorted_pairs(pairs).len() ==> pairs.contains(#[trigger] sorted_pairs(pairs)[i]),
{
    broadcast use vstd::multiset::group_multiset_axioms;

    lemma_pair_order();
    pairs.lemma_sort_by_ensures(pair_leq());
    let sorted = sorted_pairs(pairs);
    sorted.to_multiset_ensures();
    pairs.to_multiset_ensures();
    assert forall|i: int| 0 <= i < sorted.len() implies pairs.contains(#[trigger] sorted[i]) by {
        assert(sorted.contains(sorted[i]));
        assert(sorted.to_multiset().count(sorted[i]) > 0);
        assert(pairs.to_multiset().count(sorted[i]) > 0);
    }
}

/// The pairs in ascending order.
pub fn sort_pairs(pairs: &[(u64, u64)]) -> (sorted: Vec<(u64, u64)>)
    ensures
        sorted@ == sorted_pairs(pairs@),
{
    let mut sorted: Vec<(u64, u64)> = Vec::new();
    let mut index: usize = 0;
    assert(pairs@.take(0) =~= Seq::<(u64, u64)>::empty());
    assert(sorted@ =~= Seq::<(u64, u64)>::empty());
    while index < pairs.len()
        invariant
            index <= pairs.len(),
            sorted_by(sorted@, pair_leq()),
            sorted@.to_multiset() == pairs@.take(index as int).to_multiset(),
        decreases pairs.len() - index,
    {
        let pair: (u64, u64) = pairs[index];
        let mut place: usize = sorted.len();
        while place > 0 && (pair.0 < sorted[place - 1].0 || (pair.0 == sorted[place - 1].0 && pair.1
            < sorted[place - 1].1))
            invariant
                place <= sorted@.len(),
                sorted_by(sorted@, pair_leq()),
                forall|i: int|
                    place <= i < sorted@.len() ==> pair_leq()(pair, #[trigger] sorted@[i]),
            decreases place,
        {
            place = place - 1;
        }
        let ghost before = sorted@;
        sorted.insert(place, pair);
        proof {
            lemma_insert_multiset(before, place as int, pair);
            let now = pairs@.take(index + 1);
            assert(now =~= pairs@.take(index as int).push(pair));
            to_multiset_build(pairs@.take(index as int), pair);
            assert forall|i: int, j: int| 0 <= i < j < sorted@.len() implies #[trigger] pair_leq()(
                sorted@[i],
                sorted@[j],
            ) by {
                if i < place && j < place {
                    assert(pair_leq()(before[i], before[j]));
                } else if i > place && j > place {
                    assert(pair_leq()(before[i - 1], before[j - 1]));
                } else if i == place {
                    assert(pair_leq()(pair, before[j - 1]));
                } else if j == place {
                    if i < place - 1 {
                        assert(pair_leq()(before[i], before[place - 1]));
                    }
                } else {
                    assert(pair_leq()(before[i], before[j - 1]));
                }
            }
        }
        index = index + 1;
    }
    proof {
        assert(pairs@.take(index as int) =~= pairs@);
        lemma_pair_order();
        pairs@.lemma_sort_by_ensures(pair_leq());
        lemma_sorted_unique(sorted@, sorted_pairs(pairs@), pair_leq());
    }
    sorted
}

/// Whether two lists of pairs are equal.
pub fn same_pairs(a: &[(u64, u64)], b: &[(u64, u64)]) -> (same: bool)
    ensures
        same == (a@ == b@),
{
    if a.len() != b.len() {
        return false;
    }
    let mut index: usize = 0;
    while index < a.len()
        invariant
            index <= a.len(),
            a@.len() == b@.len(),
            forall|i: int| 0 <= i < index ==> #[trigger] a@[i] == b@[i],
        decreases a.len() - index,
    {
        if a[index].0 != b[index].0 || a[index].1 != b[index].1 {
            return false;
        }
        index = index + 1;
    }
    assert(a@ =~= b@);
    true
}

} // verus!

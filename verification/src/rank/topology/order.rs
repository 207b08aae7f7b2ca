//! Lexicographic order of rank lists, and lists in strict order.

use crate::rank::layout::rank_lists;
use vstd::prelude::*;

verus! {

/// `a` comes before `b` in lexicographic order.
pub open spec fn lex_less(a: Seq<u32>, b: Seq<u32>) -> bool
    decreases a.len(),
{
    if b.len() == 0 {
        false
    } else if a.len() == 0 {
        true
    } else if a[0] != b[0] {
        a[0] < b[0]
    } else {
        lex_less(a.skip(1), b.skip(1))
    }
}

/// The same for lists of lists.
pub open spec fn lex_less_lists(a: Seq<Seq<u32>>, b: Seq<Seq<u32>>) -> bool
    decreases a.len(),
{
    if b.len() == 0 {
        false
    } else if a.len() == 0 {
        true
    } else if a[0] != b[0] {
        lex_less(a[0], b[0])
    } else {
        lex_less_lists(a.skip(1), b.skip(1))
    }
}

pub proof fn lemma_lex_irreflexive(a: Seq<u32>)
    ensures
        !lex_less(a, a),
    decreases a.len(),
{
    if a.len() > 0 {
        lemma_lex_irreflexive(a.skip(1));
    }
}

pub proof fn lemma_lex_transitive(a: Seq<u32>, b: Seq<u32>, c: Seq<u32>)
    requires
        lex_less(a, b),
        lex_less(b, c),
    ensures
        lex_less(a, c),
    decreases a.len(),
{
    if a.len() > 0 && a[0] == b[0] && b[0] == c[0] {
        lemma_lex_transitive(a.skip(1), b.skip(1), c.skip(1));
    }
}

pub proof fn lemma_lex_total(a: Seq<u32>, b: Seq<u32>)
    ensures
        lex_less(a, b) || lex_less(b, a) || a == b,
    decreases a.len(),
{
    if a.len() == 0 {
        if b.len() == 0 {
            assert(a =~= b);
        }
    } else if b.len() > 0 && a[0] == b[0] {
        lemma_lex_total(a.skip(1), b.skip(1));
        if a.skip(1) == b.skip(1) {
            assert(a.skip(1).len() == a.len() - 1);
            assert(b.skip(1).len() == b.len() - 1);
            assert forall|i: int| 0 <= i < a.len() implies a[i] == b[i] by {
                if i > 0 {
                    assert(a.skip(1)[i - 1] == b.skip(1)[i - 1]);
                }
            }
            assert(a =~= b);
        }
    }
}

pub proof fn lemma_lex_lists_irreflexive(a: Seq<Seq<u32>>)
    ensures
        !lex_less_lists(a, a),
    decreases a.len(),
{
    if a.len() > 0 {
        lemma_lex_lists_irreflexive(a.skip(1));
    }
}

pub proof fn lemma_lex_lists_transitive(a: Seq<Seq<u32>>, b: Seq<Seq<u32>>, c: Seq<Seq<u32>>)
    requires
        lex_less_lists(a, b),
        lex_less_lists(b, c),
    ensures
        lex_less_lists(a, c),
    decreases a.len(),
{
    if a.len() > 0 {
        if a[0] == b[0] && b[0] == c[0] {
            lemma_lex_lists_transitive(a.skip(1), b.skip(1), c.skip(1));
        } else if a[0] != b[0] && b[0] != c[0] {
            lemma_lex_transitive(a[0], b[0], c[0]);
            lemma_lex_irreflexive(a[0]);
        }
    }
}

pub proof fn lemma_lex_lists_total(a: Seq<Seq<u32>>, b: Seq<Seq<u32>>)
    ensures
        lex_less_lists(a, b) || lex_less_lists(b, a) || a == b,
    decreases a.len(),
{
    if a.len() == 0 {
        if b.len() == 0 {
            assert(a =~= b);
        }
    } else if b.len() > 0 {
        if a[0] == b[0] {
            lemma_lex_lists_total(a.skip(1), b.skip(1));
            if a.skip(1) == b.skip(1) {
                assert(a.skip(1).len() == a.len() - 1);
                assert(b.skip(1).len() == b.len() - 1);
                assert forall|i: int| 0 <= i < a.len() implies a[i] == b[i] by {
                    if i > 0 {
                        assert(a.skip(1)[i - 1] == b.skip(1)[i - 1]);
                    }
                }
                assert(a =~= b);
            }
        } else {
            lemma_lex_total(a[0], b[0]);
        }
    }
}

/// The outcome of comparing two lists.
#[derive(Debug, Clone, Copy, PartialEq, Eq, Structural)]
pub enum Comparison {
    Before,
    Same,
    After,
}

pub fn compare_ranks(a: &[u32], b: &[u32]) -> (result: Comparison)
    ensures
        result == Comparison::Before <==> lex_less(a@, b@),
        result == Comparison::Same <==> a@ == b@,
        result == Comparison::After <==> lex_less(b@, a@),
{
    let mut index: usize = 0;
    proof {
        assert(a@.skip(0) =~= a@);
        assert(b@.skip(0) =~= b@);
        lemma_lex_total(a@, b@);
        lemma_lex_irreflexive(a@);
        if lex_less(a@, b@) && lex_less(b@, a@) {
            lemma_lex_transitive(a@, b@, a@);
        }
    }
    while index < a.len() && index < b.len()
        invariant
            index <= a.len(),
            index <= b.len(),
            lex_less(a@, b@) == lex_less(a@.skip(index as int), b@.skip(index as int)),
            lex_less(b@, a@) == lex_less(b@.skip(index as int), a@.skip(index as int)),
            lex_less(a@, b@) || lex_less(b@, a@) || a@ == b@,
            !(lex_less(a@, b@) && lex_less(b@, a@)),
            a@ == b@ ==> !lex_less(a@, b@),
        decreases a.len() - index,
    {
        proof {
            assert(a@.skip(index as int)[0] == a@[index as int]);
            assert(b@.skip(index as int)[0] == b@[index as int]);
            assert(a@.skip(index as int).skip(1) =~= a@.skip(index + 1));
            assert(b@.skip(index as int).skip(1) =~= b@.skip(index + 1));
        }
        if a[index] < b[index] {
            return Comparison::Before;
        }
        if a[index] > b[index] {
            return Comparison::After;
        }
        index = index + 1;
    }
    if index < b.len() {
        Comparison::Before
    } else if index < a.len() {
        Comparison::After
    } else {
        Comparison::Same
    }
}

pub fn compare_lists(a: &[Vec<u32>], b: &[Vec<u32>]) -> (result: Comparison)
    ensures
        result == Comparison::Before <==> lex_less_lists(rank_lists(a@), rank_lists(b@)),
        result == Comparison::Same <==> rank_lists(a@) == rank_lists(b@),
        result == Comparison::After <==> lex_less_lists(rank_lists(b@), rank_lists(a@)),
{
    let mut index: usize = 0;
    let ghost x = rank_lists(a@);
    let ghost y = rank_lists(b@);
    proof {
        assert(x.skip(0) =~= x);
        assert(y.skip(0) =~= y);
        lemma_lex_lists_total(x, y);
        lemma_lex_lists_irreflexive(x);
        if lex_less_lists(x, y) && lex_less_lists(y, x) {
            lemma_lex_lists_transitive(x, y, x);
        }
    }
    while index < a.len() && index < b.len()
        invariant
            index <= a.len(),
            index <= b.len(),
            x == rank_lists(a@),
            y == rank_lists(b@),
            lex_less_lists(x, y) == lex_less_lists(x.skip(index as int), y.skip(index as int)),
            lex_less_lists(y, x) == lex_less_lists(y.skip(index as int), x.skip(index as int)),
            lex_less_lists(x, y) || lex_less_lists(y, x) || x == y,
            !(lex_less_lists(x, y) && lex_less_lists(y, x)),
            x == y ==> !lex_less_lists(x, y),
        decreases a.len() - index,
    {
        proof {
            assert(x.skip(index as int)[0] == a@[index as int]@);
            assert(y.skip(index as int)[0] == b@[index as int]@);
            assert(x.skip(index as int).skip(1) =~= x.skip(index + 1));
            assert(y.skip(index as int).skip(1) =~= y.skip(index + 1));
            lemma_lex_irreflexive(a@[index as int]@);
        }
        match compare_ranks(a[index].as_slice(), b[index].as_slice()) {
            Comparison::Before => {
                return Comparison::Before;
            },
            Comparison::After => {
                return Comparison::After;
            },
            Comparison::Same => {},
        }
        index = index + 1;
    }
    if index < b.len() {
        Comparison::Before
    } else if index < a.len() {
        Comparison::After
    } else {
        Comparison::Same
    }
}

/// Each list comes before all that follow it.
pub open spec fn strictly_sorted(lists: Seq<Seq<u32>>) -> bool {
    forall|i: int, j: int| 0 <= i < j < lists.len() ==> #[trigger] lex_less(lists[i], lists[j])
}

/// Lists in strict order are determined by what they hold.
pub proof fn lemma_sorted_unique(a: Seq<Seq<u32>>, b: Seq<Seq<u32>>)
    requires
        strictly_sorted(a),
        strictly_sorted(b),
        forall|r: Seq<u32>| a.contains(r) <==> b.contains(r),
    ensures
        a == b,
    decreases a.len(),
{
    if a.len() == 0 {
        if b.len() > 0 {
            assert(b.contains(b[0]));
        }
        assert(a =~= b);
    } else {
        assert(a.contains(a.last()));
        assert(b.contains(a.last()));
        let j = choose|j: int| 0 <= j < b.len() && b[j] == a.last();
        assert(b.contains(b.last()));
        assert(a.contains(b.last()));
        let i = choose|i: int| 0 <= i < a.len() && a[i] == b.last();
        if i < a.len() - 1 && j < b.len() - 1 {
            assert(lex_less(a[i], a[a.len() - 1]));
            assert(lex_less(b[j], b[b.len() - 1]));
            lemma_lex_transitive(a.last(), b.last(), a.last());
            lemma_lex_irreflexive(a.last());
        } else if i < a.len() - 1 {
            assert(lex_less(a[i], a[a.len() - 1]));
            lemma_lex_irreflexive(a.last());
        } else if j < b.len() - 1 {
            assert(lex_less(b[j], b[b.len() - 1]));
            lemma_lex_irreflexive(b.last());
        }
        assert(a.last() == b.last());
        let x = a.drop_last();
        let y = b.drop_last();
        assert(strictly_sorted(x)) by {
            assert forall|p: int, q: int| 0 <= p < q < x.len() implies #[trigger] lex_less(
                x[p],
                x[q],
            ) by {
                assert(lex_less(a[p], a[q]));
            }
        }
        assert(strictly_sorted(y)) by {
            assert forall|p: int, q: int| 0 <= p < q < y.len() implies #[trigger] lex_less(
                y[p],
                y[q],
            ) by {
                assert(lex_less(b[p], b[q]));
            }
        }
        assert forall|r: Seq<u32>| x.contains(r) <==> y.contains(r) by {
            lemma_drop_last_contains(a, r);
            lemma_drop_last_contains(b, r);
        }
        lemma_sorted_unique(x, y);
        assert(a =~= x.push(a.last()));
        assert(b =~= y.push(b.last()));
    }
}

proof fn lemma_drop_last_contains(a: Seq<Seq<u32>>, r: Seq<u32>)
    requires
        strictly_sorted(a),
        a.len() > 0,
    ensures
        a.drop_last().contains(r) <==> a.contains(r) && r != a.last(),
{
    if a.drop_last().contains(r) {
        let i = choose|i: int| 0 <= i < a.len() - 1 && a.drop_last()[i] == r;
        assert(a[i] == r);
        assert(lex_less(a[i], a[a.len() - 1]));
        lemma_lex_irreflexive(r);
    }
    if a.contains(r) && r != a.last() {
        let i = choose|i: int| 0 <= i < a.len() && a[i] == r;
        assert(a.drop_last()[i] == r);
    }
}

/// Adds a list in its place, unless it is there already.
pub fn insert_sorted(lists: &mut Vec<Vec<u32>>, list: Vec<u32>)
    requires
        strictly_sorted(rank_lists(old(lists)@)),
    ensures
        strictly_sorted(rank_lists(final(lists)@)),
        forall|r: Seq<u32>| #[trigger]
            rank_lists(final(lists)@).contains(r) <==> rank_lists(old(lists)@).contains(r) || r == list@,
{
    let ghost before = rank_lists(lists@);
    let mut place: usize = lists.len();
    while place > 0
        invariant
            place <= lists.len(),
            before == rank_lists(lists@),
            strictly_sorted(before),
            forall|i: int| place <= i < before.len() ==> #[trigger] lex_less(list@, before[i]),
            lists@ == old(lists)@,
        ensures
            place <= lists.len(),
            before == rank_lists(lists@),
            lists@ == old(lists)@,
            forall|i: int| place <= i < before.len() ==> #[trigger] lex_less(list@, before[i]),
            place > 0 ==> lex_less(before[place - 1], list@),
        decreases place,
    {
        match compare_ranks(list.as_slice(), lists[place - 1].as_slice()) {
            Comparison::Before => {
                place = place - 1;
            },
            Comparison::Same => {
                proof {
                    assert(before[place - 1] == list@);
                    assert(before.contains(list@));
                }
                return;
            },
            Comparison::After => {
                break;
            },
        }
    }
    let ghost added = list@;
    lists.insert(place, list);
    proof {
        let after = rank_lists(lists@);
        assert(after =~= before.insert(place as int, added));
        assert forall|i: int, j: int| 0 <= i < j < after.len() implies #[trigger] lex_less(
            after[i],
            after[j],
        ) by {
            if i < place && j < place {
                assert(lex_less(before[i], before[j]));
            } else if i > place && j > place {
                assert(lex_less(before[i - 1], before[j - 1]));
            } else if i == place {
                assert(lex_less(added, before[j - 1]));
            } else if j == place {
                if i < place - 1 {
                    assert(lex_less(before[i], before[place - 1]));
                    lemma_lex_transitive(before[i], before[place - 1], added);
                }
            } else {
                assert(lex_less(before[i], before[j - 1]));
            }
        }
        assert forall|r: Seq<u32>| #[trigger] after.contains(r) <==> before.contains(r) || r
            == added by {
            if after.contains(r) {
                let k = choose|k: int| 0 <= k < after.len() && after[k] == r;
                if k < place {
                    assert(before[k] == r);
                } else if k > place {
                    assert(before[k - 1] == r);
                }
            }
            if before.contains(r) {
                let k = choose|k: int| 0 <= k < before.len() && before[k] == r;
                if k < place {
                    assert(after[k] == r);
                } else {
                    assert(after[k + 1] == r);
                }
            }
            if r == added {
                assert(after[place as int] == r);
            }
        }
    }
}

/// A copy of a rank list.
pub fn copy_ranks(ranks: &[u32]) -> (copy: Vec<u32>)
    ensures
        copy@ == ranks@,
{
    let mut copy: Vec<u32> = Vec::new();
    let mut index: usize = 0;
    while index < ranks.len()
        invariant
            index <= ranks.len(),
            copy@ == ranks@.take(index as int),
        decreases ranks.len() - index,
    {
        copy.push(ranks[index]);
        assert(copy@ =~= ranks@.take(index + 1));
        index = index + 1;
    }
    assert(ranks@.take(index as int) =~= ranks@);
    copy
}

/// A copy of a list of rank lists.
pub fn copy_lists(lists: &[Vec<u32>]) -> (copy: Vec<Vec<u32>>)
    ensures
        rank_lists(copy@) == rank_lists(lists@),
{
    let mut copy: Vec<Vec<u32>> = Vec::new();
    let mut index: usize = 0;
    while index < lists.len()
        invariant
            index <= lists.len(),
            copy@.len() == index,
            forall|i: int| 0 <= i < index ==> (#[trigger] copy@[i])@ == lists@[i]@,
        decreases lists.len() - index,
    {
        copy.push(copy_ranks(lists[index].as_slice()));
        index = index + 1;
    }
    assert(rank_lists(copy@) =~= rank_lists(lists@));
    copy
}

} // verus!

//! A topology's candidate rings can always be listed, and a uniform topology
//! has some.

use crate::rank::topology::links::TopologyModel;
use crate::rank::topology::order::{
    lemma_lex_irreflexive, lemma_lex_total, lemma_lex_transitive, lex_less, strictly_sorted,
};
use crate::rank::topology::rings::{
    around, best_step, greedy_candidate, greedy_ring, is_candidate, is_exact_candidate,
    lemma_greedy_ring, lemma_ring_holds_all, lists_candidates, no_ring, oriented, reversed,
    ring_candidates, rotated,
};
use crate::rank::topology::EXACT_RING_SEARCH_MAX_RANKS;
use vstd::prelude::*;
use vstd::set_lib::*;

verus! {

/// The lists of `length` ranks of a world.
spec fn rank_words(size: u32, length: nat) -> Set<Seq<u32>> {
    Set::new(
        |word: Seq<u32>|
            word.len() == length && forall|i: int| 0 <= i < length ==> #[trigger] word[i] < size,
    )
}

/// Those of one more rank whose last one is below `limit`.
spec fn longer_words(size: u32, length: nat, limit: int) -> Set<Seq<u32>> {
    rank_words(size, length + 1).filter(|word: Seq<u32>| word.last() < limit)
}

proof fn lemma_longer_words(size: u32, length: nat, limit: int)
    requires
        rank_words(size, length).finite(),
        0 <= limit <= size,
    ensures
        longer_words(size, length, limit).finite(),
    decreases limit,
{
    if limit == 0 {
        assert(longer_words(size, length, 0) =~= Set::empty());
    } else {
        lemma_longer_words(size, length, limit - 1);
        let last = (limit - 1) as u32;
        let extend = |word: Seq<u32>| word.push(last);
        let fewer = longer_words(size, length, limit - 1);
        let more = rank_words(size, length).map(extend);
        rank_words(size, length).lemma_map_finite(extend);
        assert forall|word: Seq<u32>| longer_words(size, length, limit).contains(
            word,
        ) implies fewer.union(more).contains(word) by {
            if word.last() == last {
                let head = word.drop_last();
                assert forall|i: int| 0 <= i < length implies #[trigger] head[i] < size by {
                    assert(head[i] == word[i]);
                }
                assert(rank_words(size, length).contains(head));
                assert(extend(head) =~= word);
                assert(more.contains(word));
            }
        }
        lemma_set_subset_finite(fewer.union(more), longer_words(size, length, limit));
    }
}

proof fn lemma_rank_words(size: u32, length: nat)
    ensures
        rank_words(size, length).finite(),
    decreases length,
{
    if length == 0 {
        let one = set![Seq::<u32>::empty()];
        assert forall|word: Seq<u32>| rank_words(size, 0).contains(word) implies one.contains(
            word,
        ) by {
            assert(word =~= Seq::empty());
        }
        lemma_set_subset_finite(one, rank_words(size, 0));
    } else {
        let shorter = (length - 1) as nat;
        lemma_rank_words(size, shorter);
        lemma_longer_words(size, shorter, size as int);
        assert(longer_words(size, shorter, size as int) =~= rank_words(size, length)) by {
            assert forall|word: Seq<u32>| rank_words(size, length).contains(
                word,
            ) implies longer_words(size, shorter, size as int).contains(word) by {
                assert(word[length - 1] < size);
            }
        }
    }
}

/// A sorted list with one more element.
proof fn lemma_listed_with(lists: Seq<Seq<u32>>, list: Seq<u32>) -> (more: Seq<Seq<u32>>)
    requires
        strictly_sorted(lists),
        !lists.contains(list),
    ensures
        strictly_sorted(more),
        forall|other: Seq<u32>| #[trigger]
            more.contains(other) <==> lists.contains(other) || other == list,
    decreases lists.len(),
{
    if lists.len() == 0 || lex_less(lists.last(), list) {
        let more = lists.push(list);
        assert forall|i: int, j: int| 0 <= i < j < more.len() implies lex_less(
            #[trigger] more[i],
            #[trigger] more[j],
        ) by {
            if j == lists.len() && i < lists.len() - 1 {
                lemma_lex_transitive(lists[i], lists.last(), list);
            }
        }
        assert forall|other: Seq<u32>| #[trigger] more.contains(other) <==> lists.contains(other)
            || other == list by {
            if lists.contains(other) {
                let k = choose|k: int| 0 <= k < lists.len() && lists[k] == other;
                assert(more[k] == other);
            }
            assert(more[lists.len() as int] == list);
        }
        more
    } else {
        let last = lists.last();
        let fewer = lists.drop_last();
        assert(lists[lists.len() - 1] == last);
        assert forall|other: Seq<u32>| #[trigger] lists.contains(other) <==> fewer.contains(other)
            || other == last by {
            if lists.contains(other) {
                let k = choose|k: int| 0 <= k < lists.len() && lists[k] == other;
                if k < fewer.len() {
                    assert(fewer[k] == other);
                }
            }
            if fewer.contains(other) {
                let k = choose|k: int| 0 <= k < fewer.len() && fewer[k] == other;
                assert(lists[k] == other);
            }
        }
        let middle = lemma_listed_with(fewer, list);
        lemma_lex_total(last, list);
        let more = middle.push(last);
        assert forall|i: int, j: int| 0 <= i < j < more.len() implies lex_less(
            #[trigger] more[i],
            #[trigger] more[j],
        ) by {
            if j == middle.len() {
                assert(middle.contains(middle[i]));
                if middle[i] != list {
                    let k = choose|k: int| 0 <= k < fewer.len() && fewer[k] == middle[i];
                    assert(lex_less(lists[k], lists[lists.len() - 1]));
                }
            }
        }
        assert forall|other: Seq<u32>| #[trigger] more.contains(other) <==> lists.contains(other)
            || other == list by {
            if middle.contains(other) {
                let k = choose|k: int| 0 <= k < middle.len() && middle[k] == other;
                assert(more[k] == other);
            }
            assert(more[middle.len() as int] == last);
            if more.contains(other) {
                let k = choose|k: int| 0 <= k < more.len() && more[k] == other;
                if k < middle.len() {
                    assert(middle.contains(middle[k]));
                }
            }
        }
        more
    }
}

/// A finite set of lists, in order.
proof fn lemma_listed(all: Set<Seq<u32>>) -> (lists: Seq<Seq<u32>>)
    requires
        all.finite(),
    ensures
        strictly_sorted(lists),
        forall|list: Seq<u32>| #[trigger] lists.contains(list) <==> all.contains(list),
    decreases all.len(),
{
    if all.len() == 0 {
        assert(all =~= Set::empty());
        Seq::empty()
    } else {
        let one = all.choose();
        let fewer = lemma_listed(all.remove(one));
        lemma_listed_with(fewer, one)
    }
}

/// A candidate is a list of ranks of the world, as long as the world is large.
proof fn lemma_candidate_word(model: TopologyModel, ring: Seq<u32>)
    requires
        model.world_size > 0,
        is_candidate(model, ring),
    ensures
        rank_words(model.world_size, model.world_size as nat).contains(ring),
{
    if model.world_size > EXACT_RING_SEARCH_MAX_RANKS {
        let start = choose|start: u32|
            start < model.world_size && #[trigger] greedy_candidate(model, start) == Some(ring);
        let order = greedy_ring(model, seq![start])->0;
        assert(seq![start].len() == 1 && seq![start][0] == start);
        lemma_greedy_ring(model, seq![start]);
        lemma_ring_holds_all(model.world_size, order, 0);
        let turned = rotated(order, order.index_of(0));
        assert(ring == oriented(turned));
        assert forall|i: int| 0 <= i < turned.len() implies #[trigger] turned[i]
            < model.world_size by {
            let place = i + order.index_of(0);
            let at = if place < order.len() {
                place
            } else {
                place - order.len()
            };
            assert(turned[i] == order[at]);
        }
        assert forall|i: int| 0 <= i < ring.len() implies #[trigger] ring[i]
            < model.world_size by {
            if ring != turned {
                let at = if i == 0 {
                    0
                } else {
                    turned.len() - i
                };
                assert(ring[i] == turned[at]);
            }
        }
    }
}

/// The candidates of a topology can be listed, each once, in order.
pub proof fn lemma_candidates_listed(model: TopologyModel)
    requires
        model.world_size > 0,
    ensures
        lists_candidates(model, ring_candidates(model)),
{
    let words = rank_words(model.world_size, model.world_size as nat);
    let all = words.filter(|ring: Seq<u32>| is_candidate(model, ring));
    lemma_rank_words(model.world_size, model.world_size as nat);
    lemma_set_subset_finite(words, all);
    let rings = lemma_listed(all);
    assert forall|ring: Seq<u32>| #[trigger] rings.contains(ring) <==> is_candidate(
        model,
        ring,
    ) by {
        if is_candidate(model, ring) {
            lemma_candidate_word(model, ring);
        }
    }
    assert(lists_candidates(model, rings));
}

/// The ranks below a number, in order.
spec fn first_ranks(count: int) -> Seq<u32> {
    Seq::new(count as nat, |i: int| i as u32)
}

proof fn lemma_uniform_step(size: u32, count: int, end: int)
    requires
        0 < count < size,
        0 <= end <= size,
    ensures
        best_step(TopologyModel::uniform(size), first_ranks(count), end) == (if end <= count {
            None
        } else {
            Some(count as u32)
        }),
    decreases end,
{
    if end > 0 {
        lemma_uniform_step(size, count, end - 1);
        let order = first_ranks(count);
        let rank = (end - 1) as u32;
        if end <= count {
            assert(order[end - 1] == rank);
            assert(order.contains(rank));
        } else {
            assert(!order.contains(rank));
        }
    }
}

proof fn lemma_uniform_ring(size: u32, count: int)
    requires
        0 < count <= size,
    ensures
        greedy_ring(TopologyModel::uniform(size), first_ranks(count)) == Some(
            first_ranks(size as int),
        ),
    decreases size - count,
{
    if count < size {
        lemma_uniform_step(size, count, size as int);
        lemma_uniform_ring(size, count + 1);
        assert(first_ranks(count).push(count as u32) =~= first_ranks(count + 1));
    }
}

/// A uniform topology has a ring to offer.
pub proof fn lemma_uniform_offers(size: u32)
    requires
        size > 0,
    ensures
        !no_ring(TopologyModel::uniform(size)),
{
    let model = TopologyModel::uniform(size);
    if size > 1 {
        lemma_candidates_listed(model);
        let order = first_ranks(size as int);
        let n = size as int;
        let ring = if size <= EXACT_RING_SEARCH_MAX_RANKS {
            assert forall|i: int| 0 <= i < n implies (#[trigger] model.ring_link(order, i))
                is Some by {
                assert(order[i] == i);
                assert(order[around(i, n)] == around(i, n));
            }
            assert(model.is_closed_ring(order));
            let back = reversed(order);
            assert(order[0] == 0);
            if size == 2 {
                assert(back =~= order);
                lemma_lex_irreflexive(order);
            } else {
                assert(back[0] == order[0]);
                assert(back.skip(1)[0] == order[n - 1]);
                assert(order.skip(1)[0] == order[1]);
                reveal_with_fuel(lex_less, 3);
                assert(!lex_less(back, order));
            }
            assert(is_exact_candidate(model, order));
            order
        } else {
            lemma_uniform_ring(size, 1);
            assert(first_ranks(1) =~= seq![0u32]);
            assert(order.last() == n - 1 && order[0] == 0);
            let candidate = oriented(rotated(order, order.index_of(0)));
            assert(greedy_candidate(model, 0) == Some(candidate));
            candidate
        };
        assert(is_candidate(model, ring));
        assert(ring_candidates(model).contains(ring));
    }
}

} // verus!

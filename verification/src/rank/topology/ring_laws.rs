//! What the rings that a topology offers have to do with each other.

use crate::rank::topology::channels::{ring_edge, ring_edge_list, same_links};
use crate::rank::topology::links::TopologyModel;
use crate::rank::topology::order::{
    lemma_lex_irreflexive, lemma_lex_total, lemma_lex_transitive, lex_less,
};
use crate::rank::topology::rings::{
    around, choice, chosen_rings, greedy_candidate, greedy_ring, is_candidate, is_ring,
    lemma_choice_in_range, lemma_greedy_ring, lemma_ring_holds_all, offered_rings, oriented,
    reversed, ring_candidates, rotated, unused, usage_after,
};
use crate::rank::topology::EXACT_RING_SEARCH_MAX_RANKS;
use vstd::prelude::*;

verus! {

/// Every link of `b` is one of `a`.
spec fn within(b: Seq<u32>, a: Seq<u32>) -> bool {
    forall|k: int| 0 <= k < b.len() ==> #[trigger] links_hold(a, ring_edge(b, k))
}

spec fn links_hold(a: Seq<u32>, edge: (u64, u64)) -> bool {
    exists|j: int| 0 <= j < a.len() && #[trigger] ring_edge(a, j) == edge
}

/// From two places on, the links leave a walk no choice.
proof fn lemma_walk(world_size: u32, a: Seq<u32>, b: Seq<u32>, place: int)
    requires
        is_ring(world_size, a),
        is_ring(world_size, b),
        3 <= world_size,
        within(b, a),
        b[0] == a[0],
        b[1] == a[1],
        1 <= place < world_size,
    ensures
        b[place] == a[place],
        b[place - 1] == a[place - 1],
    decreases place,
{
    if place > 1 {
        lemma_walk(world_size, a, b, place - 1);
        let k = place - 1;
        assert(links_hold(a, ring_edge(b, k)));
        let j = choose|j: int| 0 <= j < a.len() && #[trigger] ring_edge(a, j) == ring_edge(b, k);
        let n = a.len() as int;
        assert(b[k + 1] != b[k - 1]);
        assert(b[k + 1] != b[k]);
        // The link holds the rank at place k of both.
        if a[j] == b[k] {
            assert(j == k);
        } else {
            assert(a[around(j, n)] == a[k]);
            assert(around(j, n) == k);
            assert(j == k - 1);
        }
    }
}

/// A ring walked the other way has the same links.
proof fn lemma_reversed_links(world_size: u32, a: Seq<u32>, edge: (u64, u64))
    requires
        is_ring(world_size, a),
        links_hold(a, edge),
    ensures
        links_hold(reversed(a), edge),
{
    let n = a.len() as int;
    let j = choose|j: int| 0 <= j < a.len() && #[trigger] ring_edge(a, j) == edge;
    let back = reversed(a);
    let k = n - 1 - j;
    assert(ring_edge(back, k) == edge);
}

proof fn lemma_reversed_ring(world_size: u32, a: Seq<u32>)
    requires
        is_ring(world_size, a),
    ensures
        is_ring(world_size, reversed(a)),
        reversed(reversed(a)) == a,
{
    let back = reversed(a);
    let n = a.len() as int;
    assert forall|i: int, j: int| 0 <= i < n && 0 <= j < n && i != j implies back[i]
        != back[j] by {
        let p = if i == 0 {
            0
        } else {
            n - i
        };
        let q = if j == 0 {
            0
        } else {
            n - j
        };
        assert(a[p] != a[q]);
    }
    assert(reversed(back) =~= a);
}

/// Two rings from one rank on with the same links are one ring, walked one way
/// or the other.
proof fn lemma_same_links(world_size: u32, a: Seq<u32>, b: Seq<u32>)
    requires
        is_ring(world_size, a),
        is_ring(world_size, b),
        a[0] == b[0],
        same_links(a, b),
    ensures
        b == a || b == reversed(a),
{
    let n = a.len() as int;
    if n == 1 {
        assert(a =~= b);
    } else if n == 2 {
        assert(a[0] != a[1] && b[0] != b[1]);
        assert(a[0] < 2 && a[1] < 2 && b[0] < 2 && b[1] < 2);
        assert(a =~= b);
    } else {
        assert(within(b, a)) by {
            assert forall|k: int| 0 <= k < b.len() implies #[trigger] links_hold(
                a,
                ring_edge(b, k),
            ) by {
                let edge = ring_edge(b, k);
                ring_edge_list(a).to_multiset_ensures();
                ring_edge_list(b).to_multiset_ensures();
                assert(ring_edge_list(b)[k] == edge);
                assert(ring_edge_list(b).contains(edge));
                assert(ring_edge_list(a).to_multiset().count(edge) > 0);
                assert(ring_edge_list(a).contains(edge));
                let j = choose|j: int|
                    0 <= j < ring_edge_list(a).len() && ring_edge_list(a)[j] == edge;
                assert(ring_edge(a, j) == edge);
            }
        }
        assert(links_hold(a, ring_edge(b, 0)));
        let j = choose|j: int| 0 <= j < a.len() && #[trigger] ring_edge(a, j) == ring_edge(b, 0);
        assert(b[0] != b[1]);
        if a[j] == b[0] {
            assert(j == 0);
            assert(b[1] == a[1]);
            assert forall|i: int| 0 <= i < n implies b[i] == a[i] by {
                if i > 0 {
                    lemma_walk(world_size, a, b, i);
                }
            }
            assert(b =~= a);
        } else {
            assert(a[around(j, n)] == a[0]);
            assert(around(j, n) == 0);
            let back = reversed(a);
            lemma_reversed_ring(world_size, a);
            assert(b[1] == back[1]);
            assert forall|k: int| 0 <= k < b.len() implies #[trigger] links_hold(
                back,
                ring_edge(b, k),
            ) by {
                lemma_reversed_links(world_size, a, ring_edge(b, k));
            }
            assert forall|i: int| 0 <= i < n implies b[i] == back[i] by {
                if i > 0 {
                    lemma_walk(world_size, back, b, i);
                }
            }
            assert(b =~= back);
        }
    }
}

/// A candidate begins at rank zero, in the direction that comes first.
proof fn lemma_candidate_oriented(model: TopologyModel, ring: Seq<u32>)
    requires
        is_candidate(model, ring),
        is_ring(model.world_size, ring),
    ensures
        ring[0] == 0,
        !lex_less(reversed(ring), ring),
{
    if model.world_size > EXACT_RING_SEARCH_MAX_RANKS {
        let start = choose|start: u32|
            start < model.world_size && #[trigger] greedy_candidate(model, start) == Some(ring);
        let order = greedy_ring(model, seq![start])->0;
        let turned = rotated(order, order.index_of(0));
        assert(ring == oriented(turned));
        assert(seq![start].len() == 1 && seq![start][0] == start);
        lemma_greedy_ring(model, seq![start]);
        lemma_ring_holds_all(model.world_size, order, 0);
        assert(turned[0] == 0);
        lemma_reversed_ring(model.world_size, ring);
        if lex_less(reversed(turned), turned) {
            assert(ring == reversed(turned));
            assert(reversed(ring) =~= turned);
            if lex_less(turned, ring) {
                lemma_lex_transitive(turned, ring, turned);
                lemma_lex_irreflexive(turned);
            }
        }
    }
}

/// Different candidates use different links.
pub proof fn lemma_candidates_apart(model: TopologyModel, a: Seq<u32>, b: Seq<u32>)
    requires
        is_candidate(model, a),
        is_candidate(model, b),
        is_ring(model.world_size, a),
        is_ring(model.world_size, b),
        a != b,
    ensures
        !same_links(a, b),
{
    lemma_candidate_oriented(model, a);
    lemma_candidate_oriented(model, b);
    if same_links(a, b) {
        lemma_same_links(model.world_size, a, b);
        lemma_reversed_ring(model.world_size, a);
        lemma_lex_total(a, b);
    }
}

proof fn lemma_chosen_prefix(
    model: TopologyModel,
    usage: Seq<Seq<u16>>,
    rings: Seq<Seq<u32>>,
    fewer: nat,
    more: nat,
)
    requires
        fewer <= more,
    ensures
        chosen_rings(model, usage, rings, fewer).len() <= chosen_rings(
            model,
            usage,
            rings,
            more,
        ).len(),
        chosen_rings(model, usage, rings, fewer) == chosen_rings(model, usage, rings, more).take(
            chosen_rings(model, usage, rings, fewer).len() as int,
        ),
    decreases fewer,
{
    let some = chosen_rings(model, usage, rings, fewer);
    let all = chosen_rings(model, usage, rings, more);
    if fewer == 0 || rings.len() == 0 {
        assert(some =~= all.take(0));
    } else {
        let best = choice(model, usage, rings, rings.len() as int);
        lemma_choice_in_range(model, usage, rings, rings.len() as int);
        let later = usage_after(usage, rings[best], rings[best].len() as int);
        let left = rings.remove(best);
        lemma_chosen_prefix(model, later, left, (fewer - 1) as nat, (more - 1) as nat);
        let rest = chosen_rings(model, later, left, (more - 1) as nat);
        let first = chosen_rings(model, later, left, (fewer - 1) as nat);
        assert(all == seq![rings[best]] + rest);
        assert(some == seq![rings[best]] + first);
        assert(some =~= all.take(some.len() as int));
    }
}

/// Asked for fewer rings, a topology offers the first of those that it offers
/// when asked for more.
pub proof fn law_fewer_rings_come_first(model: TopologyModel, fewer: nat, more: nat)
    requires
        fewer <= more,
    ensures
        offered_rings(model, fewer).len() <= offered_rings(model, more).len(),
        offered_rings(model, fewer) == offered_rings(model, more).take(
            offered_rings(model, fewer).len() as int,
        ),
{
    let some = offered_rings(model, fewer);
    let all = offered_rings(model, more);
    if fewer == 0 {
        assert(some =~= all.take(0));
    } else if model.world_size == 1 {
        assert(some =~= all.take(1));
    } else {
        lemma_chosen_prefix(
            model,
            unused(model.world_size as int),
            ring_candidates(model),
            fewer,
            more,
        );
    }
}

} // verus!

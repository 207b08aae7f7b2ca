//! What a ring scores does not depend on where it begins or which way it goes,
//! so that the first ring offered is the best of all closed rings.

use crate::math::min_int;
use crate::rank::topology::links::TopologyModel;
use crate::rank::topology::order::{lemma_lex_irreflexive, lemma_lex_transitive, lex_less};
use crate::rank::topology::ring_listing::lemma_candidates_listed;
use crate::rank::topology::rings::{
    all_closed, around, greedy_candidate, is_candidate, is_ring, lemma_greedy_candidate_closed,
    lemma_greedy_linked,
    lemma_offered_rings, lemma_reversed_closed, lemma_ring_holds_all, lemma_rotated_closed,
    no_ring, offered_rings, oriented, reversed, ring_bandwidth, ring_bottleneck, ring_candidates,
    ring_latency, rotated,
};
use crate::rank::topology::EXACT_RING_SEARCH_MAX_RANKS;
use vstd::prelude::*;

verus! {

/// The sum of numbers.
spec fn total(values: Seq<int>) -> int
    decreases values.len(),
{
    if values.len() == 0 {
        0
    } else {
        total(values.drop_last()) + values.last()
    }
}

/// The least of numbers, none of which counts above the largest score.
spec fn least(values: Seq<int>) -> int
    decreases values.len(),
{
    if values.len() == 0 {
        u64::MAX as int
    } else {
        min_int(least(values.drop_last()), values.last())
    }
}

proof fn lemma_joined(a: Seq<int>, b: Seq<int>)
    ensures
        total(a + b) == total(a) + total(b),
        least(a + b) == min_int(least(a), least(b)),
    decreases b.len(),
{
    if b.len() == 0 {
        assert(a + b =~= a);
        lemma_least_bounded(a);
    } else {
        assert((a + b).drop_last() =~= a + b.drop_last());
        lemma_joined(a, b.drop_last());
    }
}

proof fn lemma_least_bounded(values: Seq<int>)
    ensures
        least(values) <= u64::MAX,
    decreases values.len(),
{
    if values.len() > 0 {
        lemma_least_bounded(values.drop_last());
    }
}

/// Numbers in the other order.
spec fn backwards(values: Seq<int>) -> Seq<int> {
    Seq::new(values.len(), |i: int| values[values.len() - 1 - i])
}

proof fn lemma_backwards(values: Seq<int>)
    ensures
        total(backwards(values)) == total(values),
        least(backwards(values)) == least(values),
    decreases values.len(),
{
    if values.len() == 0 {
        assert(backwards(values) =~= values);
    } else {
        let rest = values.drop_last();
        let last = seq![values.last()];
        assert(backwards(values) =~= last + backwards(rest));
        lemma_joined(last, backwards(rest));
        lemma_backwards(rest);
        assert(last.drop_last() =~= Seq::<int>::empty());
        lemma_least_bounded(rest);
        assert(total(last) == values.last()) by {
            reveal_with_fuel(total, 2);
        }
        assert(least(last) == min_int(u64::MAX as int, values.last())) by {
            reveal_with_fuel(least, 2);
        }
    }
}

/// The bandwidths of a ring's links, and the latencies.
spec fn bandwidths(model: TopologyModel, order: Seq<u32>) -> Seq<int> {
    Seq::new(order.len(), |i: int| model.ring_link(order, i)->0.bandwidth_mbps as int)
}

spec fn latencies(model: TopologyModel, order: Seq<u32>) -> Seq<int> {
    Seq::new(order.len(), |i: int| model.ring_link(order, i)->0.latency_ns as int)
}

proof fn lemma_sums(model: TopologyModel, order: Seq<u32>, count: int)
    requires
        0 <= count <= order.len(),
    ensures
        ring_bandwidth(model, order, count) == total(bandwidths(model, order).take(count)),
        ring_latency(model, order, count) == total(latencies(model, order).take(count)),
        ring_bottleneck(model, order, count) == least(bandwidths(model, order).take(count)),
    decreases count,
{
    if count > 0 {
        lemma_sums(model, order, count - 1);
        assert(bandwidths(model, order).take(count).drop_last() =~= bandwidths(model, order).take(
            count - 1,
        ));
        assert(latencies(model, order).take(count).drop_last() =~= latencies(model, order).take(
            count - 1,
        ));
    }
}

/// Rings whose links have the same sums and the same least score alike.
proof fn lemma_scores(model: TopologyModel, a: Seq<u32>, b: Seq<u32>)
    requires
        a.len() == b.len(),
        total(bandwidths(model, a)) == total(bandwidths(model, b)),
        least(bandwidths(model, a)) == least(bandwidths(model, b)),
        total(latencies(model, a)) == total(latencies(model, b)),
    ensures
        model.ring_score(a) == model.ring_score(b),
{
    let n = a.len() as int;
    lemma_sums(model, a, n);
    lemma_sums(model, b, n);
    assert(bandwidths(model, a).take(n) =~= bandwidths(model, a));
    assert(bandwidths(model, b).take(n) =~= bandwidths(model, b));
    assert(latencies(model, a).take(n) =~= latencies(model, a));
    assert(latencies(model, b).take(n) =~= latencies(model, b));
}

/// A ring begun at another place scores the same.
pub proof fn law_turned_ring_scores_alike(model: TopologyModel, order: Seq<u32>, place: int)
    requires
        0 <= place < order.len(),
    ensures
        model.ring_score(rotated(order, place)) == model.ring_score(order),
{
    let turned = rotated(order, place);
    let n = order.len() as int;
    let wide = bandwidths(model, order);
    let slow = latencies(model, order);
    assert forall|i: int| 0 <= i < n implies #[trigger] model.ring_link(turned, i)
        == model.ring_link(
        order,
        if i + place < n {
            i + place
        } else {
            i + place - n
        },
    ) by {
        let a = if i + place < n {
            i + place
        } else {
            i + place - n
        };
        assert(turned[i] == order[a]);
        assert(turned[around(i, n)] == order[around(a, n)]);
    }
    assert(bandwidths(model, turned) =~= wide.skip(place) + wide.take(place));
    assert(latencies(model, turned) =~= slow.skip(place) + slow.take(place));
    assert(wide =~= wide.take(place) + wide.skip(place));
    assert(slow =~= slow.take(place) + slow.skip(place));
    lemma_joined(wide.skip(place), wide.take(place));
    lemma_joined(wide.take(place), wide.skip(place));
    lemma_joined(slow.skip(place), slow.take(place));
    lemma_joined(slow.take(place), slow.skip(place));
    lemma_scores(model, turned, order);
}

/// A ring walked the other way scores the same.
pub proof fn law_reversed_ring_scores_alike(model: TopologyModel, order: Seq<u32>)
    requires
        model.valid(),
        is_ring(model.world_size, order),
    ensures
        model.ring_score(reversed(order)) == model.ring_score(order),
{
    let back = reversed(order);
    let n = order.len() as int;
    assert forall|i: int| 0 <= i < n implies #[trigger] model.ring_link(back, i)
        == model.ring_link(order, n - 1 - i) by {
        let a = n - 1 - i;
        let from = back[i] as int;
        let to = back[around(i, n)] as int;
        assert(order[a] == to && order[around(a, n)] == from);
        assert(model.links[to][from] == model.links[from][to]);
    }
    assert(bandwidths(model, back) =~= backwards(bandwidths(model, order)));
    assert(latencies(model, back) =~= backwards(latencies(model, order)));
    lemma_backwards(bandwidths(model, order));
    lemma_backwards(latencies(model, order));
    lemma_scores(model, back, order);
}

/// A closed ring, from rank zero on and in the direction that comes first.
pub open spec fn turned_to_zero(order: Seq<u32>) -> Seq<u32> {
    oriented(rotated(order, order.index_of(0)))
}

/// In a world small enough for the exact search, every closed ring is a candidate
/// once it is turned to rank zero, and scores as it did.
pub proof fn law_every_closed_ring_is_a_candidate(model: TopologyModel, order: Seq<u32>)
    requires
        model.valid(),
        model.world_size <= EXACT_RING_SEARCH_MAX_RANKS,
        model.is_closed_ring(order),
    ensures
        is_candidate(model, turned_to_zero(order)),
        model.ring_score(turned_to_zero(order)) == model.ring_score(order),
{
    lemma_ring_holds_all(model.world_size, order, 0);
    let place = order.index_of(0);
    let turned = rotated(order, place);
    lemma_rotated_closed(model, order, place);
    law_turned_ring_scores_alike(model, order, place);
    lemma_reversed_closed(model, turned);
    law_reversed_ring_scores_alike(model, turned);
    let back = reversed(turned);
    assert(reversed(back) =~= turned);
    if lex_less(back, turned) {
        if lex_less(turned, back) {
            lemma_lex_transitive(turned, back, turned);
            lemma_lex_irreflexive(turned);
        }
    }
}

/// Every candidate is a closed ring.
pub proof fn lemma_candidates_closed(model: TopologyModel)
    requires
        model.valid(),
    ensures
        all_closed(model, ring_candidates(model)),
{
    lemma_candidates_listed(model);
    let rings = ring_candidates(model);
    assert forall|i: int| 0 <= i < rings.len() implies model.is_closed_ring(#[trigger] rings[i]) by {
        assert(rings.contains(rings[i]));
        assert(is_candidate(model, rings[i]));
        if model.world_size > EXACT_RING_SEARCH_MAX_RANKS {
            let start = choose|start: u32|
                start < model.world_size && #[trigger] greedy_candidate(model, start) == Some(
                    rings[i],
                );
            lemma_greedy_linked(model, seq![start]);
            lemma_greedy_candidate_closed(model, start);
        }
    }
}

/// The rings that are offered are closed and begin at rank zero.
pub proof fn law_offered_rings_are_closed(model: TopologyModel, maximum: nat)
    requires
        model.valid(),
        model.world_size > 1,
    ensures
        all_closed(model, offered_rings(model, maximum)),
        maximum > 0 && !no_ring(model) ==> offered_rings(model, maximum).len() > 0,
        model.world_size <= EXACT_RING_SEARCH_MAX_RANKS ==> forall|i: int|
            0 <= i < offered_rings(model, maximum).len() ==> (#[trigger] offered_rings(
                model,
                maximum,
            )[i])[0] == 0,
{
    lemma_candidates_listed(model);
    lemma_candidates_closed(model);
    lemma_offered_rings(model, maximum);
}

/// In a world small enough for the exact search, a ring is refused only where no
/// closed ring exists, and no closed ring scores above the first one offered.
pub proof fn law_first_ring_is_the_best(model: TopologyModel, maximum: nat)
    requires
        model.valid(),
        1 < model.world_size <= EXACT_RING_SEARCH_MAX_RANKS,
        maximum > 0,
    ensures
        no_ring(model) <==> forall|order: Seq<u32>| !model.is_closed_ring(order),
        !no_ring(model) ==> offered_rings(model, maximum).len() > 0,
        forall|order: Seq<u32>| #[trigger]
            model.is_closed_ring(order) ==> !model.ring_score(order).above(
                model.ring_score(offered_rings(model, maximum)[0]),
            ),
{
    lemma_candidates_listed(model);
    lemma_candidates_closed(model);
    lemma_offered_rings(model, maximum);
    let rings = ring_candidates(model);
    assert forall|order: Seq<u32>| #[trigger] model.is_closed_ring(order) implies !no_ring(model)
        && !model.ring_score(order).above(
        model.ring_score(offered_rings(model, maximum)[0]),
    ) by {
        law_every_closed_ring_is_a_candidate(model, order);
        assert(rings.contains(turned_to_zero(order)));
    }
    if !no_ring(model) {
        assert(model.is_closed_ring(rings[0]));
    }
}

} // verus!

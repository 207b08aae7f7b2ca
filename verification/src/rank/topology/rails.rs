//! The order in which channels use rails.

use crate::math::{min_int, saturate_u128, saturating_add_u128};
use crate::rank::topology::links::{rank_pairs, rank_pairs_of, CollectiveTopology, TopologyModel};
use crate::rank::topology::rings::RingScore;
use crate::rank::topology::{TopologyError, TopologyFailure};
use crate::rank::topology::paths::repeat;
use crate::text::{decimal, push_usize};
use vstd::prelude::*;
use vstd::relations::*;
use vstd::seq_lib::*;
use vstd::string::*;

verus! {

/// A rail has a link for one of the pairs.
pub open spec fn rail_linked(model: TopologyModel, rail: int, pairs: Seq<(u32, u32)>) -> bool
    decreases pairs.len(),
{
    pairs.len() > 0 && (rail_linked(model, rail, pairs.drop_last()) || model.link_on_rail(
        pairs.last().0 as int,
        pairs.last().1 as int,
        rail,
    ) is Some)
}

/// The narrowest link of a rail.
pub open spec fn rail_bottleneck(model: TopologyModel, rail: int, pairs: Seq<(u32, u32)>) -> int
    decreases pairs.len(),
{
    if pairs.len() == 0 {
        u64::MAX as int
    } else {
        let rest = rail_bottleneck(model, rail, pairs.drop_last());
        match model.link_on_rail(pairs.last().0 as int, pairs.last().1 as int, rail) {
            Some(cost) => min_int(rest, cost.bandwidth_mbps as int),
            None => rest,
        }
    }
}

/// The total bandwidth of a rail.
pub open spec fn rail_bandwidth(model: TopologyModel, rail: int, pairs: Seq<(u32, u32)>) -> u128
    decreases pairs.len(),
{
    if pairs.len() == 0 {
        0
    } else {
        let rest = rail_bandwidth(model, rail, pairs.drop_last());
        match model.link_on_rail(pairs.last().0 as int, pairs.last().1 as int, rail) {
            Some(cost) => saturate_u128(rest + cost.bandwidth_mbps),
            None => rest,
        }
    }
}

/// The total latency of a rail.
pub open spec fn rail_latency(model: TopologyModel, rail: int, pairs: Seq<(u32, u32)>) -> u128
    decreases pairs.len(),
{
    if pairs.len() == 0 {
        0
    } else {
        let rest = rail_latency(model, rail, pairs.drop_last());
        match model.link_on_rail(pairs.last().0 as int, pairs.last().1 as int, rail) {
            Some(cost) => saturate_u128(rest + cost.latency_ns),
            None => rest,
        }
    }
}

impl TopologyModel {
    /// How good a rail is over all pairs of ranks.
    pub open spec fn rail_score(self, rail: int) -> RingScore {
        let pairs = rank_pairs_of(self.world_size);
        RingScore {
            bottleneck: if rail_linked(self, rail, pairs) {
                rail_bottleneck(self, rail, pairs) as u64
            } else {
                0
            },
            total_bandwidth: rail_bandwidth(self, rail, pairs),
            inverse_latency: (u128::MAX - rail_latency(self, rail, pairs)) as u128,
        }
    }

    /// Rails ordered by their score, the better first, and equals by number.
    pub open spec fn rail_leq(self) -> spec_fn(usize, usize) -> bool {
        |a: usize, b: usize|
            self.rail_score(a as int).above(self.rail_score(b as int)) || (!self.rail_score(
                b as int,
            ).above(self.rail_score(a as int)) && a <= b)
    }

    /// The rails, best first.
    pub open spec fn preferred_rails(self, count: nat) -> Seq<usize> {
        Seq::new(count, |i: int| i as usize).sort_by(self.rail_leq())
    }
}

proof fn lemma_rail_order(model: TopologyModel)
    ensures
        total_ordering(model.rail_leq()),
{
    let leq = model.rail_leq();
    assert forall|a: usize, b: usize, c: usize| #[trigger] leq(a, b) && #[trigger] leq(
        b,
        c,
    ) implies leq(a, c) by {
        let x = model.rail_score(a as int);
        let y = model.rail_score(b as int);
        let z = model.rail_score(c as int);
        assert(x.above(y) && y.above(z) ==> x.above(z));
    }
    assert forall|a: usize, b: usize| #[trigger] leq(a, b) && #[trigger] leq(b, a) implies a
        == b by {
        let x = model.rail_score(a as int);
        let y = model.rail_score(b as int);
        assert(!(x.above(y) && y.above(x)));
    }
}

proof fn lemma_insert_rail(rails: Seq<usize>, place: int, rail: usize)
    requires
        0 <= place <= rails.len(),
    ensures
        rails.insert(place, rail).to_multiset() == rails.to_multiset().insert(rail),
{
    broadcast use vstd::multiset::group_multiset_axioms;

    let more = rails.insert(place, rail);
    to_multiset_remove(more, place);
    assert(more.remove(place) =~= rails);
    more.to_multiset_ensures();
    assert(more[place] == rail);
    assert(more.contains(rail));
    assert(more.to_multiset().count(rail) > 0);
    assert(more.to_multiset() =~= rails.to_multiset().insert(rail));
}

/// The preferred order holds every rail once.
pub proof fn law_preferred_rails(model: TopologyModel, count: nat)
    requires
        count <= usize::MAX,
    ensures
        model.preferred_rails(count).len() == count,
        model.preferred_rails(count).to_multiset() == Seq::new(
            count,
            |i: int| i as usize,
        ).to_multiset(),
        forall|i: int, j: int|
            0 <= i < j < count ==> !model.rail_score(
                #[trigger] model.preferred_rails(count)[j] as int,
            ).above(model.rail_score(#[trigger] model.preferred_rails(count)[i] as int)),
{
    let plain = Seq::new(count, |i: int| i as usize);
    lemma_rail_order(model);
    plain.lemma_sort_by_ensures(model.rail_leq());
    let sorted = model.preferred_rails(count);
    plain.to_multiset_ensures();
    sorted.to_multiset_ensures();
    assert forall|i: int, j: int| 0 <= i < j < count implies !model.rail_score(
        #[trigger] sorted[j] as int,
    ).above(model.rail_score(#[trigger] sorted[i] as int)) by {
        assert(model.rail_leq()(sorted[i], sorted[j]));
    }
}

impl CollectiveTopology {
    pub fn rail_score(&self, rail: usize) -> (score: RingScore)
        requires
            self@.valid(),
        ensures
            score == self@.rail_score(rail as int),
    {
        let pairs = rank_pairs(self.world_size);
        let mut linked = false;
        let mut bottleneck: u64 = u64::MAX;
        let mut total_bandwidth: u128 = 0;
        let mut total_latency: u128 = 0;
        let mut index: usize = 0;
        while index < pairs.len()
            invariant
                index <= pairs.len(),
                self@.valid(),
                forall|k: int|
                    0 <= k < pairs@.len() ==> (#[trigger] pairs@[k]).0 < pairs@[k].1
                        < self.world_size,
                linked == rail_linked(self@, rail as int, pairs@.take(index as int)),
                bottleneck == rail_bottleneck(self@, rail as int, pairs@.take(index as int)),
                total_bandwidth == rail_bandwidth(self@, rail as int, pairs@.take(index as int)),
                total_latency == rail_latency(self@, rail as int, pairs@.take(index as int)),
            decreases pairs.len() - index,
        {
            let (first, second) = pairs[index];
            assert(pairs@.take(index + 1).drop_last() =~= pairs@.take(index as int));
            match self.link_on_rail(first, second, rail) {
                Some(link) => {
                    if link.bandwidth_mbps < bottleneck {
                        bottleneck = link.bandwidth_mbps;
                    }
                    total_bandwidth = saturating_add_u128(
                        total_bandwidth,
                        link.bandwidth_mbps as u128,
                    );
                    total_latency = saturating_add_u128(total_latency, link.latency_ns as u128);
                    linked = true;
                },
                None => {},
            }
            index = index + 1;
        }
        assert(pairs@.take(index as int) =~= pairs@);
        if !linked {
            bottleneck = 0;
        }
        RingScore { bottleneck, total_bandwidth, inverse_latency: u128::MAX - total_latency }
    }

    pub fn preferred_rail_order(&self, rail_count: usize) -> (order: Vec<usize>)
        requires
            self@.valid(),
        ensures
            order@ == self@.preferred_rails(rail_count as nat),
            order@.len() == rail_count,
            forall|i: int| 0 <= i < order@.len() ==> #[trigger] order@[i] < rail_count,
    {
        let ghost model = self@;
        let ghost leq = model.rail_leq();
        let ghost plain = Seq::new(rail_count as nat, |i: int| i as usize);
        let mut order: Vec<usize> = Vec::new();
        let mut rail: usize = 0;
        assert(plain.take(0) =~= Seq::<usize>::empty());
        assert(order@ =~= Seq::<usize>::empty());
        while rail < rail_count
            invariant
                rail <= rail_count,
                self@.valid(),
                model == self@,
                leq == model.rail_leq(),
                plain == Seq::new(rail_count as nat, |i: int| i as usize),
                order@.len() == rail,
                forall|i: int| 0 <= i < order@.len() ==> #[trigger] order@[i] < rail,
                sorted_by(order@, leq),
                order@.to_multiset() == plain.take(rail as int).to_multiset(),
            decreases rail_count - rail,
        {
            let score = self.rail_score(rail);
            let mut place: usize = order.len();
            while place > 0
                invariant
                    place <= order@.len(),
                    rail < rail_count,
                    self@.valid(),
                    model == self@,
                    leq == model.rail_leq(),
                    score == model.rail_score(rail as int),
                    forall|i: int| 0 <= i < order@.len() ==> #[trigger] order@[i] < rail,
                    forall|i: int|
                        place <= i < order@.len() ==> leq(rail, #[trigger] order@[i]),
                ensures
                    place <= order@.len(),
                    forall|i: int|
                        place <= i < order@.len() ==> leq(rail, #[trigger] order@[i]),
                    place > 0 ==> leq(order@[place - 1], rail),
                decreases place,
            {
                let other = self.rail_score(order[place - 1]);
                assert(order@[place - 1] < rail);
                if score.exceeds(&other) {
                    place = place - 1;
                } else {
                    break;
                }
            }
            let ghost before = order@;
            order.insert(place, rail);
            proof {
                lemma_rail_order(model);
                lemma_insert_rail(before, place as int, rail);
                assert(plain.take(rail + 1) =~= plain.take(rail as int).push(rail));
                to_multiset_build(plain.take(rail as int), rail);
                assert forall|i: int, j: int| 0 <= i < j < order@.len() implies #[trigger] leq(
                    order@[i],
                    order@[j],
                ) by {
                    if i < place && j < place {
                        assert(leq(before[i], before[j]));
                    } else if i > place && j > place {
                        assert(leq(before[i - 1], before[j - 1]));
                    } else if i == place {
                        assert(leq(rail, before[j - 1]));
                    } else if j == place {
                        if i < place - 1 {
                            assert(leq(before[i], before[place - 1]));
                            assert(leq(before[place - 1], rail));
                        }
                    } else {
                        assert(leq(before[i], before[j - 1]));
                    }
                }
                assert forall|i: int| 0 <= i < order@.len() implies #[trigger] order@[i] < rail
                    + 1 by {
                    if i < place {
                        assert(order@[i] == before[i]);
                    } else if i > place {
                        assert(order@[i] == before[i - 1]);
                    }
                }
            }
            rail = rail + 1;
        }
        proof {
            assert(plain.take(rail as int) =~= plain);
            lemma_rail_order(model);
            plain.lemma_sort_by_ensures(leq);
            lemma_sorted_unique(order@, model.preferred_rails(rail_count as nat), leq);
        }
        order
    }
}

/// Why the rail at one place of an order is refused, if it is.
pub open spec fn rail_defect_at(count: int, order: Seq<usize>, index: int) -> Option<
    TopologyFailure,
> {
    if order[index] >= count {
        Some(
            TopologyFailure::InvalidRailOrder(
                "rail "@ + decimal(order[index] as nat) + " is outside configured rail count "@
                    + decimal(count as nat),
            ),
        )
    } else if order.take(index).contains(order[index]) {
        Some(
            TopologyFailure::InvalidRailOrder(
                "rail "@ + decimal(order[index] as nat) + " appears more than once"@,
            ),
        )
    } else {
        None
    }
}

/// The first refusal among the first `places` places.
pub open spec fn rail_defect_below(count: int, order: Seq<usize>, places: int) -> Option<
    TopologyFailure,
>
    decreases places,
{
    if places <= 0 {
        None
    } else {
        match rail_defect_below(count, order, places - 1) {
            Some(defect) => Some(defect),
            None => rail_defect_at(count, order, places - 1),
        }
    }
}

/// Why a rail order is refused, if it is.
pub open spec fn rail_order_defect(count: int, order: Seq<usize>) -> Option<TopologyFailure> {
    if order.len() != count {
        Some(
            TopologyFailure::InvalidRailOrder(
                "contains "@ + decimal(order.len()) + " rails, expected "@ + decimal(count as nat),
            ),
        )
    } else {
        rail_defect_below(count, order, order.len() as int)
    }
}

/// Every rail once.
pub open spec fn is_rail_order(count: int, order: Seq<usize>) -> bool {
    &&& order.len() == count
    &&& order.no_duplicates()
    &&& forall|i: int| 0 <= i < order.len() ==> #[trigger] order[i] < count
}

proof fn lemma_rail_defect_below(count: int, order: Seq<usize>, places: int)
    requires
        0 <= places <= order.len(),
    ensures
        rail_defect_below(count, order, places) is None <==> {
            &&& forall|i: int| 0 <= i < places ==> #[trigger] order[i] < count
            &&& order.take(places).no_duplicates()
        },
    decreases places,
{
    if places > 0 {
        lemma_rail_defect_below(count, order, places - 1);
        let head = order.take(places - 1);
        let more = order.take(places);
        if rail_defect_below(count, order, places) is None {
            assert forall|i: int, j: int|
                0 <= i < places && 0 <= j < places && i != j implies more[i] != more[j] by {
                if i < places - 1 && j < places - 1 {
                    assert(head[i] != head[j]);
                } else if i == places - 1 {
                    assert(head[j] == more[j]);
                    assert(head.contains(head[j]));
                } else {
                    assert(head[i] == more[i]);
                    assert(head.contains(head[i]));
                }
            }
        }
        if (forall|i: int| 0 <= i < places ==> #[trigger] order[i] < count)
            && more.no_duplicates() {
            assert forall|i: int, j: int|
                0 <= i < places - 1 && 0 <= j < places - 1 && i != j implies head[i]
                != head[j] by {
                assert(more[i] != more[j]);
            }
            if head.contains(order[places - 1]) {
                let k = choose|k: int| 0 <= k < head.len() && head[k] == order[places - 1];
                assert(more[k] == more[places - 1]);
            }
            assert(order[places - 1] < count);
        }
    }
}

/// A rail order that nothing is wrong with holds every rail once.
pub proof fn law_accepted_rail_orders(count: int, order: Seq<usize>)
    ensures
        rail_order_defect(count, order) is None <==> is_rail_order(count, order),
{
    if order.len() == count {
        lemma_rail_defect_below(count, order, order.len() as int);
        assert(order.take(order.len() as int) =~= order);
    }
}

proof fn lemma_rail_defect_prefix(count: int, order: Seq<usize>, places: int, end: int)
    requires
        0 <= places <= end,
    ensures
        rail_defect_below(count, order, places) is Some ==> rail_defect_below(count, order, end)
            == rail_defect_below(count, order, places),
    decreases end - places,
{
    if places < end {
        lemma_rail_defect_prefix(count, order, places, end - 1);
    }
}

pub fn validate_rail_order(rail_count: usize, order: &[usize]) -> (result: Result<
    (),
    TopologyError,
>)
    ensures
        match rail_order_defect(rail_count as int, order@) {
            Some(defect) => result is Err && result->Err_0@ == defect,
            None => result is Ok,
        },
        result is Ok <==> is_rail_order(rail_count as int, order@),
{
    proof {
        law_accepted_rail_orders(rail_count as int, order@);
    }
    if order.len() != rail_count {
        let mut text = String::from_str("contains ");
        push_usize(&mut text, order.len());
        text.append(" rails, expected ");
        push_usize(&mut text, rail_count);
        return Err(TopologyError::InvalidRailOrder(text));
    }
    let mut seen: Vec<bool> = repeat(false, rail_count);
    let mut index: usize = 0;
    while index < order.len()
        invariant
            index <= order.len(),
            order@.len() == rail_count,
            seen@.len() == rail_count,
            rail_defect_below(rail_count as int, order@, index as int) is None,
            forall|v: int|
                0 <= v < rail_count ==> (#[trigger] seen@[v] <==> order@.take(
                    index as int,
                ).contains(v as usize)),
            rail_order_defect(rail_count as int, order@) is None <==> is_rail_order(
                rail_count as int,
                order@,
            ),
        decreases order.len() - index,
    {
        let rail: usize = order[index];
        proof {
            lemma_rail_defect_prefix(
                rail_count as int,
                order@,
                index + 1,
                order@.len() as int,
            );
        }
        if rail >= rail_count {
            let mut text = String::from_str("rail ");
            push_usize(&mut text, rail);
            text.append(" is outside configured rail count ");
            push_usize(&mut text, rail_count);
            return Err(TopologyError::InvalidRailOrder(text));
        }
        if seen[rail] {
            let mut text = String::from_str("rail ");
            push_usize(&mut text, rail);
            text.append(" appears more than once");
            return Err(TopologyError::InvalidRailOrder(text));
        }
        seen.set(rail, true);
        proof {
            let now = order@.take(index + 1);
            let was = order@.take(index as int);
            assert forall|v: int| 0 <= v < rail_count implies (#[trigger] seen@[v] <==> now.contains(
                v as usize,
            )) by {
                if was.contains(v as usize) {
                    let k = choose|k: int| 0 <= k < was.len() && was[k] == v as usize;
                    assert(now[k] == v as usize);
                }
                if v as usize == rail {
                    assert(now[index as int] == rail);
                }
                if now.contains(v as usize) && v as usize != rail {
                    let k = choose|k: int| 0 <= k < now.len() && now[k] == v as usize;
                    assert(was[k] == v as usize);
                }
            }
        }
        index = index + 1;
    }
    Ok(())
}

} // verus!

//! Leaders of groups and the order in which they pass messages on.

use crate::math::{max_int, saturate_u128, saturate_u64, saturating_add_u128, saturating_add_u64};
use crate::rank::layout::rank_lists;
use crate::rank::topology::groups::{
    domains, grouped, is_partition, law_domains_partition, link_times,
};
use crate::rank::topology::links::{rank_pairs_of, CollectiveTopology, TopologyModel};
use crate::rank::topology::order::{
    compare_lists, compare_ranks, copy_ranks, lemma_lex_irreflexive, lemma_lex_total,
    lemma_lex_transitive, lex_less, Comparison,
};
use crate::rank::topology::paths::repeat;
use crate::rank::topology::rings::{
    around, begins_with, is_ring, lemma_ring_holds_all, lemma_take_contains, next_place,
};
use crate::rank::topology::EXACT_RING_SEARCH_MAX_RANKS;
use vstd::prelude::*;

verus! {

/// The summed times from a rank to the first `count` members of its group, or
/// nothing where one of them cannot be reached inside the group.
pub open spec fn reach_total(
    model: TopologyModel,
    bytes: int,
    group: Seq<u32>,
    rank: u32,
    count: int,
) -> Option<u64>
    decreases count,
{
    if count <= 0 {
        Some(0)
    } else {
        match (
            reach_total(model, bytes, group, rank, count - 1),
            model.group_route_time(rank as int, group[count - 1] as int, bytes, group),
        ) {
            (Some(total), Some(time)) => Some(saturate_u64(total + time)),
            _ => None,
        }
    }
}

/// The place of the best leader among the first `count` members: the least
/// total, and the lowest rank of equals.
pub open spec fn leader_place(
    model: TopologyModel,
    bytes: int,
    group: Seq<u32>,
    count: int,
) -> Option<int>
    decreases count,
{
    if count <= 0 {
        None
    } else {
        match (
            leader_place(model, bytes, group, count - 1),
            reach_total(model, bytes, group, group[count - 1], group.len() as int),
        ) {
            (best, None) => best,
            (None, Some(_)) => Some(count - 1),
            (Some(best), Some(total)) => {
                let lead = reach_total(model, bytes, group, group[best], group.len() as int)->0;
                if total < lead || (total == lead && group[count - 1] < group[best]) {
                    Some(count - 1)
                } else {
                    Some(best)
                }
            },
        }
    }
}

/// A list with its first item and another one exchanged.
pub open spec fn led_by(group: Seq<u32>, place: int) -> Seq<u32> {
    group.update(0, group[place]).update(place, group[0])
}

/// Every group has a leader.
pub open spec fn all_led(model: TopologyModel, bytes: int, groups: Seq<Seq<u32>>) -> bool {
    forall|g: int|
        0 <= g < groups.len() ==> leader_place(
            model,
            bytes,
            #[trigger] groups[g],
            groups[g].len() as int,
        ) is Some
}

/// The groups, each with its leader in front.
pub open spec fn led_groups(model: TopologyModel, bytes: int, groups: Seq<Seq<u32>>) -> Seq<
    Seq<u32>,
> {
    Seq::new(
        groups.len(),
        |g: int|
            led_by(groups[g], leader_place(model, bytes, groups[g], groups[g].len() as int)->0),
    )
}

/// The first members.
pub open spec fn heads(groups: Seq<Seq<u32>>) -> Seq<u32> {
    Seq::new(groups.len(), |g: int| groups[g][0])
}

/// The time from one place of a cycle to the next.
pub open spec fn hop(
    model: TopologyModel,
    ranks: Seq<u32>,
    bytes: int,
    order: Seq<u32>,
    index: int,
) -> Option<u64> {
    model.route_time(
        ranks[order[index] as int] as int,
        ranks[order[around(index, order.len() as int)] as int] as int,
        bytes,
    )
}

/// Every hop has a time.
pub open spec fn feasible(
    model: TopologyModel,
    ranks: Seq<u32>,
    bytes: int,
    order: Seq<u32>,
) -> bool {
    forall|i: int| 0 <= i < order.len() ==> (#[trigger] hop(model, ranks, bytes, order, i)) is Some
}

/// The slowest of the first `count` hops.
pub open spec fn slowest_hop(
    model: TopologyModel,
    ranks: Seq<u32>,
    bytes: int,
    order: Seq<u32>,
    count: int,
) -> int
    decreases count,
{
    if count <= 0 {
        0
    } else {
        max_int(
            slowest_hop(model, ranks, bytes, order, count - 1),
            hop(model, ranks, bytes, order, count - 1)->0 as int,
        )
    }
}

/// The summed time of the first `count` hops.
pub open spec fn total_hops(
    model: TopologyModel,
    ranks: Seq<u32>,
    bytes: int,
    order: Seq<u32>,
    count: int,
) -> u128
    decreases count,
{
    if count <= 0 {
        0
    } else {
        saturate_u128(
            total_hops(model, ranks, bytes, order, count - 1) + hop(
                model,
                ranks,
                bytes,
                order,
                count - 1,
            )->0,
        )
    }
}

/// A cycle over all ranks of the list, from the first of them on.
pub open spec fn is_cycle(ranks: Seq<u32>, order: Seq<u32>) -> bool {
    is_ring(ranks.len() as u32, order) && order[0] == 0
}

/// A cycle each of whose hops has a time.
pub open spec fn is_route(
    model: TopologyModel,
    ranks: Seq<u32>,
    bytes: int,
    order: Seq<u32>,
) -> bool {
    is_cycle(ranks, order) && feasible(model, ranks, bytes, order)
}

/// `a` is the better cycle: its slowest hop is faster, or else its total, or
/// else it comes first.
pub open spec fn better_cycle(
    model: TopologyModel,
    ranks: Seq<u32>,
    bytes: int,
    a: Seq<u32>,
    b: Seq<u32>,
) -> bool {
    let slow_a = slowest_hop(model, ranks, bytes, a, a.len() as int);
    let slow_b = slowest_hop(model, ranks, bytes, b, b.len() as int);
    let sum_a = total_hops(model, ranks, bytes, a, a.len() as int);
    let sum_b = total_hops(model, ranks, bytes, b, b.len() as int);
    if slow_a != slow_b {
        slow_a < slow_b
    } else if sum_a != sum_b {
        sum_a < sum_b
    } else {
        lex_less(a, b)
    }
}

/// A cycle than which none is better.
pub open spec fn is_best_cycle(
    model: TopologyModel,
    ranks: Seq<u32>,
    bytes: int,
    order: Seq<u32>,
) -> bool {
    &&& is_route(model, ranks, bytes, order)
    &&& forall|other: Seq<u32>| #[trigger]
        is_route(model, ranks, bytes, other) ==> !better_cycle(model, ranks, bytes, other, order)
}

/// The nearest place below `end` that is not on the cycle yet: the least time,
/// and the lowest rank of equals.
pub open spec fn nearest_place(
    model: TopologyModel,
    ranks: Seq<u32>,
    bytes: int,
    order: Seq<u32>,
    end: int,
) -> Option<u32>
    decreases end,
{
    if end <= 0 {
        None
    } else {
        let from = ranks[order.last() as int] as int;
        let place = (end - 1) as u32;
        match (
            nearest_place(model, ranks, bytes, order, end - 1),
            if order.contains(place) {
                None
            } else {
                model.route_time(from, ranks[end - 1] as int, bytes)
            },
        ) {
            (best, None) => best,
            (None, Some(_)) => Some(place),
            (Some(best), Some(time)) => {
                let lead = model.route_time(from, ranks[best as int] as int, bytes)->0;
                if time < lead || (time == lead && ranks[end - 1] < ranks[best as int]) {
                    Some(place)
                } else {
                    Some(best)
                }
            },
        }
    }
}

/// The cycle that always goes on to the nearest place.
pub open spec fn nearest_cycle(
    model: TopologyModel,
    ranks: Seq<u32>,
    bytes: int,
    order: Seq<u32>,
) -> Option<Seq<u32>>
    decreases ranks.len() - order.len(),
{
    if order.len() >= ranks.len() {
        Some(order)
    } else {
        match nearest_place(model, ranks, bytes, order, ranks.len() as int) {
            Some(place) => nearest_cycle(model, ranks, bytes, order.push(place)),
            None => None,
        }
    }
}

/// Whether `order` is the cycle over the listed ranks: the best one of a short
/// list, the nearest-place one of a long list where it can be closed.
pub open spec fn is_chosen_cycle(
    model: TopologyModel,
    ranks: Seq<u32>,
    bytes: int,
    order: Seq<u32>,
) -> bool {
    if ranks.len() == 1 {
        order == seq![0u32]
    } else if ranks.len() <= EXACT_RING_SEARCH_MAX_RANKS {
        is_best_cycle(model, ranks, bytes, order)
    } else {
        &&& nearest_cycle(model, ranks, bytes, seq![0u32]) == Some(order)
        &&& model.route_time(
            ranks[order.last() as int] as int,
            ranks[order[0] as int] as int,
            bytes,
        ) is Some
    }
}

/// The cycle over the listed ranks, where there is one.
pub open spec fn chosen_cycle(model: TopologyModel, ranks: Seq<u32>, bytes: int) -> Option<
    Seq<u32>,
> {
    if ranks.len() > 0 && exists|order: Seq<u32>| is_chosen_cycle(model, ranks, bytes, order) {
        Some(choose|order: Seq<u32>| is_chosen_cycle(model, ranks, bytes, order))
    } else {
        None
    }
}

/// There is one chosen cycle at most.
proof fn lemma_chosen_cycle(model: TopologyModel, ranks: Seq<u32>, bytes: int, order: Seq<u32>)
    requires
        ranks.len() > 0,
        is_chosen_cycle(model, ranks, bytes, order),
    ensures
        chosen_cycle(model, ranks, bytes) == Some(order),
{
    let other = choose|other: Seq<u32>| is_chosen_cycle(model, ranks, bytes, other);
    assert(is_chosen_cycle(model, ranks, bytes, other));
    if ranks.len() > 1 && ranks.len() <= EXACT_RING_SEARCH_MAX_RANKS {
        assert(is_route(model, ranks, bytes, order));
        assert(is_route(model, ranks, bytes, other));
        lemma_lex_total(order, other);
    }
}

proof fn lemma_better_transitive(
    model: TopologyModel,
    ranks: Seq<u32>,
    bytes: int,
    a: Seq<u32>,
    b: Seq<u32>,
    c: Seq<u32>,
)
    requires
        better_cycle(model, ranks, bytes, a, b),
        better_cycle(model, ranks, bytes, b, c),
    ensures
        better_cycle(model, ranks, bytes, a, c),
{
    if lex_less(a, b) && lex_less(b, c) {
        lemma_lex_transitive(a, b, c);
    }
}

/// A prefix of a cycle.
spec fn is_cycle_prefix(ranks: Seq<u32>, prefix: Seq<u32>) -> bool {
    &&& 0 < prefix.len() <= ranks.len()
    &&& prefix[0] == 0
    &&& prefix.no_duplicates()
    &&& forall|i: int| 0 <= i < prefix.len() ==> #[trigger] prefix[i] < ranks.len()
}

/// What is known of a cycle found so far: its slowest hop, its total, itself.
pub struct FoundCycle {
    pub slowest: u64,
    pub total: u128,
    pub order: Vec<u32>,
}

spec fn found_well(model: TopologyModel, ranks: Seq<u32>, bytes: int, found: FoundCycle) -> bool {
    let order = found.order@;
    &&& is_route(model, ranks, bytes, order)
    &&& found.slowest == slowest_hop(model, ranks, bytes, order, order.len() as int)
    &&& found.total == total_hops(model, ranks, bytes, order, order.len() as int)
}

spec fn found_order(found: Option<FoundCycle>) -> Option<Seq<u32>> {
    match found {
        Some(found) => Some(found.order@),
        None => None,
    }
}

/// Measures a cycle.
fn measure_cycle(
    topology: &CollectiveTopology,
    ranks: &[u32],
    payload_bytes: usize,
    order: &Vec<u32>,
) -> (result: Option<(u64, u128)>)
    requires
        topology@.valid(),
        forall|i: int| 0 <= i < ranks@.len() ==> #[trigger] ranks@[i] < topology@.world_size,
        forall|i: int| 0 <= i < order@.len() ==> #[trigger] order@[i] < ranks@.len(),
    ensures
        match result {
            Some((slowest, total)) => {
                &&& feasible(topology@, ranks@, payload_bytes as int, order@)
                &&& slowest == slowest_hop(
                    topology@,
                    ranks@,
                    payload_bytes as int,
                    order@,
                    order@.len() as int,
                )
                &&& total == total_hops(
                    topology@,
                    ranks@,
                    payload_bytes as int,
                    order@,
                    order@.len() as int,
                )
            },
            None => !feasible(topology@, ranks@, payload_bytes as int, order@),
        },
{
    let ghost model = topology@;
    let ghost bytes = payload_bytes as int;
    let mut slowest: u64 = 0;
    let mut total: u128 = 0;
    let mut position: usize = 0;
    while position < order.len()
        invariant
            position <= order.len(),
            topology@.valid(),
            model == topology@,
            bytes == payload_bytes,
            forall|i: int| 0 <= i < ranks@.len() ==> #[trigger] ranks@[i] < topology@.world_size,
            forall|i: int| 0 <= i < order@.len() ==> #[trigger] order@[i] < ranks@.len(),
            forall|i: int|
                0 <= i < position ==> (#[trigger] hop(model, ranks@, bytes, order@, i)) is Some,
            slowest == slowest_hop(model, ranks@, bytes, order@, position as int),
            total == total_hops(model, ranks@, bytes, order@, position as int),
        decreases order.len() - position,
    {
        let next: usize = next_place(position, order.len());
        assert(order@[position as int] < ranks@.len());
        assert(order@[next as int] < ranks@.len());
        let source: u32 = ranks[order[position] as usize];
        let destination: u32 = ranks[order[next] as usize];
        match topology.shortest_transfer_time_ns(source, destination, payload_bytes) {
            Some(time) => {
                assert(hop(model, ranks@, bytes, order@, position as int) == Some(time));
                if time > slowest {
                    slowest = time;
                }
                total = saturating_add_u128(total, time as u128);
            },
            None => {
                assert(hop(model, ranks@, bytes, order@, position as int) is None);
                return None;
            },
        }
        position = position + 1;
    }
    Some((slowest, total))
}

/// Finds the best of the cycles that begin with `order`.
fn collect_rank_cycles(
    topology: &CollectiveTopology,
    ranks: &[u32],
    payload_bytes: usize,
    order: &mut Vec<u32>,
    used: &mut Vec<bool>,
    best: &mut Option<FoundCycle>,
)
    requires
        topology@.valid(),
        ranks@.len() <= u32::MAX,
        forall|i: int| 0 <= i < ranks@.len() ==> #[trigger] ranks@[i] < topology@.world_size,
        is_cycle_prefix(ranks@, old(order)@),
        old(used)@.len() == ranks@.len(),
        forall|v: int|
            0 <= v < ranks@.len() ==> (#[trigger] old(used)@[v] <==> old(order)@.contains(v as u32)),
        *old(best) matches Some(found) ==> found_well(
            topology@,
            ranks@,
            payload_bytes as int,
            found,
        ),
    ensures
        final(order)@ == old(order)@,
        final(used)@ == old(used)@,
        *final(best) matches Some(found) ==> found_well(
            topology@,
            ranks@,
            payload_bytes as int,
            found,
        ),
        *old(best) matches Some(found) ==> *final(best) is Some && !better_cycle(
            topology@,
            ranks@,
            payload_bytes as int,
            found.order@,
            (*final(best))->0.order@,
        ),
        forall|other: Seq<u32>| #[trigger]
            is_route(topology@, ranks@, payload_bytes as int, other) && begins_with(
                other,
                old(order)@,
            ) ==> *final(best) is Some && !better_cycle(
                topology@,
                ranks@,
                payload_bytes as int,
                other,
                (*final(best))->0.order@,
            ),
    decreases ranks@.len() - old(order)@.len(),
{
    let ghost model = topology@;
    let ghost bytes = payload_bytes as int;
    let ghost prefix = order@;
    let ghost start = found_order(*best);
    if order.len() == ranks.len() {
        proof {
            assert forall|other: Seq<u32>|
                is_route(model, ranks@, bytes, other) && begins_with(
                    other,
                    prefix,
                ) implies other == prefix by {
                assert(other.take(prefix.len() as int) =~= other);
            }
            lemma_lex_irreflexive(prefix);
            if let Some(first) = start {
                lemma_lex_irreflexive(first);
            }
        }
        match measure_cycle(topology, ranks, payload_bytes, order) {
            Some((slowest, total)) => {
                assert(is_route(model, ranks@, bytes, prefix));
                let better = match best {
                    None => true,
                    Some(found) => if slowest != found.slowest {
                        slowest < found.slowest
                    } else if total != found.total {
                        total < found.total
                    } else {
                        match compare_ranks(order.as_slice(), found.order.as_slice()) {
                            Comparison::Before => true,
                            _ => false,
                        }
                    },
                };
                if better {
                    proof {
                        if let Some(first) = start {
                            assert(better_cycle(model, ranks@, bytes, prefix, first));
                            if better_cycle(model, ranks@, bytes, first, prefix) {
                                lemma_better_transitive(
                                    model,
                                    ranks@,
                                    bytes,
                                    first,
                                    prefix,
                                    first,
                                );
                            }
                        }
                    }
                    *best = Some(
                        FoundCycle { slowest, total, order: copy_ranks(order.as_slice()) },
                    );
                }
            },
            None => {
                assert(!is_route(model, ranks@, bytes, prefix));
            },
        }
        return;
    }
    proof {
        if let Some(first) = start {
            lemma_lex_irreflexive(first);
        }
    }
    let mut candidate: usize = 1;
    while candidate < ranks.len()
        invariant
            1 <= candidate <= ranks@.len(),
            topology@.valid(),
            model == topology@,
            bytes == payload_bytes,
            ranks@.len() <= u32::MAX,
            forall|i: int| 0 <= i < ranks@.len() ==> #[trigger] ranks@[i] < topology@.world_size,
            prefix == order@,
            prefix == old(order)@,
            start == found_order(*old(best)),
            is_cycle_prefix(ranks@, prefix),
            prefix.len() < ranks@.len(),
            used@ == old(used)@,
            used@.len() == ranks@.len(),
            forall|v: int|
                0 <= v < ranks@.len() ==> (#[trigger] used@[v] <==> prefix.contains(v as u32)),
            *best matches Some(found) ==> found_well(model, ranks@, bytes, found),
            start matches Some(first) ==> *best is Some && !better_cycle(
                model,
                ranks@,
                bytes,
                first,
                best->0.order@,
            ),
            forall|other: Seq<u32>| #[trigger]
                is_route(model, ranks@, bytes, other) && begins_with(other, prefix)
                    && other[prefix.len() as int] < candidate ==> *best is Some && !better_cycle(
                    model,
                    ranks@,
                    bytes,
                    other,
                    best->0.order@,
                ),
        decreases ranks@.len() - candidate,
    {
        if !used[candidate] {
            let ghost before = found_order(*best);
            used.set(candidate, true);
            order.push(candidate as u32);
            proof {
                let longer = prefix.push(candidate as u32);
                assert(used@[candidate as int]);
                assert(!prefix.contains(candidate as u32));
                assert(longer.no_duplicates());
                assert forall|v: int| 0 <= v < ranks@.len() implies (#[trigger] used@[v]
                    <==> longer.contains(v as u32)) by {
                    assert(longer.take(prefix.len() as int) =~= prefix);
                    assert(longer.take(prefix.len() as int + 1) =~= longer);
                    lemma_take_contains(longer, prefix.len() as int);
                    assert(longer.contains(v as u32) <==> prefix.contains(v as u32) || v as u32
                        == candidate as u32);
                }
            }
            collect_rank_cycles(topology, ranks, payload_bytes, order, used, best);
            order.pop();
            used.set(candidate, false);
            proof {
                assert(order@ =~= prefix);
                assert(used@ =~= old(used)@);
                let now = found_order(*best);
                if let Some(first) = start {
                    lemma_still_not_better(model, ranks@, bytes, first, before->0, now->0);
                }
                assert forall|other: Seq<u32>| #[trigger]
                    is_route(model, ranks@, bytes, other) && begins_with(other, prefix)
                        && other[prefix.len() as int] < candidate + 1 implies *best is Some
                    && !better_cycle(model, ranks@, bytes, other, best->0.order@) by {
                    lemma_next_of_cycle(ranks@, other, prefix);
                    if other[prefix.len() as int] == candidate {
                        assert(other.take(prefix.len() as int + 1) =~= prefix.push(
                            candidate as u32,
                        )) by {
                            assert(other.take(prefix.len() as int + 1) =~= other.take(
                                prefix.len() as int,
                            ).push(other[prefix.len() as int]));
                        }
                        assert(begins_with(other, prefix.push(candidate as u32)));
                    } else {
                        lemma_still_not_better(model, ranks@, bytes, other, before->0, now->0);
                    }
                }
            }
        } else {
            proof {
                assert forall|other: Seq<u32>| #[trigger]
                    is_route(model, ranks@, bytes, other) && begins_with(other, prefix)
                        && other[prefix.len() as int] < candidate + 1 implies *best is Some
                    && !better_cycle(model, ranks@, bytes, other, best->0.order@) by {
                    lemma_next_of_cycle(ranks@, other, prefix);
                }
            }
        }
        candidate = candidate + 1;
    }
    proof {
        assert forall|other: Seq<u32>| #[trigger]
            is_route(model, ranks@, bytes, other) && begins_with(
                other,
                prefix,
            ) implies *best is Some && !better_cycle(
            model,
            ranks@,
            bytes,
            other,
            best->0.order@,
        ) by {
            lemma_next_of_cycle(ranks@, other, prefix);
        }
    }
}

/// What is not better than a cycle is not better than an improved one.
proof fn lemma_still_not_better(
    model: TopologyModel,
    ranks: Seq<u32>,
    bytes: int,
    other: Seq<u32>,
    before: Seq<u32>,
    now: Seq<u32>,
)
    requires
        !better_cycle(model, ranks, bytes, other, before),
        !better_cycle(model, ranks, bytes, before, now),
    ensures
        !better_cycle(model, ranks, bytes, other, now),
{
    lemma_lex_total(before, now);
    if better_cycle(model, ranks, bytes, other, now) {
        if before != now {
            assert(better_cycle(model, ranks, bytes, now, before));
            lemma_better_transitive(model, ranks, bytes, other, now, before);
        }
    }
}

proof fn lemma_next_of_cycle(ranks: Seq<u32>, order: Seq<u32>, prefix: Seq<u32>)
    requires
        is_cycle(ranks, order),
        ranks.len() <= u32::MAX,
        begins_with(order, prefix),
        0 < prefix.len() < ranks.len(),
    ensures
        0 < order[prefix.len() as int] < ranks.len(),
        !prefix.contains(order[prefix.len() as int]),
{
    let place = prefix.len() as int;
    if prefix.contains(order[place]) {
        let k = choose|k: int| 0 <= k < prefix.len() && prefix[k] == order[place];
        assert(order.take(place)[k] == order[k]);
        assert(order[k] == order[place]);
    }
    assert(order[0] != order[place]);
}

proof fn lemma_nearest_place(
    model: TopologyModel,
    ranks: Seq<u32>,
    bytes: int,
    order: Seq<u32>,
    end: int,
)
    requires
        0 <= end <= ranks.len(),
        ranks.len() <= u32::MAX,
        order.len() > 0,
    ensures
        nearest_place(model, ranks, bytes, order, end) matches Some(place) ==> place < end
            && !order.contains(place) && model.route_time(
            ranks[order.last() as int] as int,
            ranks[place as int] as int,
            bytes,
        ) is Some,
    decreases end,
{
    if end > 0 {
        lemma_nearest_place(model, ranks, bytes, order, end - 1);
    }
}

impl CollectiveTopology {
    /// The cycle over the listed ranks, as places in the list.
    pub fn best_rank_cycle_order(&self, ranks: &[u32], payload_bytes: usize) -> (result: Option<
        Vec<u32>,
    >)
        requires
            self@.valid(),
            ranks@.len() <= u32::MAX,
            forall|i: int| 0 <= i < ranks@.len() ==> #[trigger] ranks@[i] < self@.world_size,
        ensures
            match result {
                Some(order) => {
                    &&& chosen_cycle(self@, ranks@, payload_bytes as int) == Some(order@)
                    &&& is_cycle(ranks@, order@)
                },
                None => chosen_cycle(self@, ranks@, payload_bytes as int) is None,
            },
    {
        let ghost model = self@;
        let ghost bytes = payload_bytes as int;
        if ranks.len() == 0 {
            return None;
        }
        let mut order: Vec<u32> = Vec::new();
        order.push(0);
        assert(order@ =~= seq![0u32]);
        if ranks.len() == 1 {
            proof {
                lemma_chosen_cycle(model, ranks@, bytes, order@);
            }
            return Some(order);
        }
        let mut used: Vec<bool> = repeat(false, ranks.len());
        used.set(0, true);
        proof {
            assert forall|v: int| 0 <= v < ranks@.len() implies (#[trigger] used@[v]
                <==> order@.contains(v as u32)) by {
                assert(order@[0] == 0);
            }
        }
        if ranks.len() <= EXACT_RING_SEARCH_MAX_RANKS as usize {
            let mut best: Option<FoundCycle> = None;
            collect_rank_cycles(self, ranks, payload_bytes, &mut order, &mut used, &mut best);
            proof {
                assert forall|other: Seq<u32>| #[trigger]
                    is_route(model, ranks@, bytes, other) implies begins_with(
                    other,
                    seq![0u32],
                ) by {
                    assert(other.take(1) =~= seq![0u32]);
                }
            }
            return match best {
                Some(found) => {
                    proof {
                        assert(is_best_cycle(model, ranks@, bytes, found.order@));
                        lemma_chosen_cycle(model, ranks@, bytes, found.order@);
                    }
                    Some(found.order)
                },
                None => {
                    proof {
                        assert forall|other: Seq<u32>| !is_chosen_cycle(
                            model,
                            ranks@,
                            bytes,
                            other,
                        ) by {
                            if is_chosen_cycle(model, ranks@, bytes, other) {
                                assert(is_route(model, ranks@, bytes, other));
                            }
                        }
                    }
                    None
                },
            };
        }
        while order.len() < ranks.len()
            invariant
                self@.valid(),
                model == self@,
                bytes == payload_bytes,
                ranks@.len() <= u32::MAX,
                ranks@.len() > EXACT_RING_SEARCH_MAX_RANKS,
                forall|i: int| 0 <= i < ranks@.len() ==> #[trigger] ranks@[i] < self@.world_size,
                is_cycle_prefix(ranks@, order@),
                used@.len() == ranks@.len(),
                forall|v: int|
                    0 <= v < ranks@.len() ==> (#[trigger] used@[v] <==> order@.contains(v as u32)),
                nearest_cycle(model, ranks@, bytes, order@) == nearest_cycle(
                    model,
                    ranks@,
                    bytes,
                    seq![0u32],
                ),
            decreases ranks.len() - order.len(),
        {
            let current: u32 = order[order.len() - 1];
            assert(current < ranks@.len());
            let from: u32 = ranks[current as usize];
            let mut best: Option<u32> = None;
            let mut best_time: u64 = 0;
            let mut candidate: usize = 0;
            while candidate < ranks.len()
                invariant
                    candidate <= ranks@.len(),
                    self@.valid(),
                    model == self@,
                    bytes == payload_bytes,
                    ranks@.len() <= u32::MAX,
                    forall|i: int|
                        0 <= i < ranks@.len() ==> #[trigger] ranks@[i] < self@.world_size,
                    order@.len() > 0,
                    current == order@.last(),
                    current < ranks@.len(),
                    from == ranks@[current as int],
                    used@.len() == ranks@.len(),
                    forall|v: int|
                        0 <= v < ranks@.len() ==> (#[trigger] used@[v] <==> order@.contains(
                            v as u32,
                        )),
                    best == nearest_place(model, ranks@, bytes, order@, candidate as int),
                    best matches Some(place) ==> place < ranks@.len() && model.route_time(
                        from as int,
                        ranks@[place as int] as int,
                        bytes,
                    ) == Some(best_time),
                decreases ranks@.len() - candidate,
            {
                assert(used@[candidate as int] <==> order@.contains((candidate as int) as u32));
                if !used[candidate] {
                    match self.shortest_transfer_time_ns(from, ranks[candidate], payload_bytes) {
                        Some(time) => {
                            let better = match best {
                                None => true,
                                Some(place) => time < best_time || (time == best_time
                                    && ranks[candidate] < ranks[place as usize]),
                            };
                            if better {
                                best = Some(candidate as u32);
                                best_time = time;
                            }
                        },
                        None => {},
                    }
                }
                candidate = candidate + 1;
            }
            proof {
                lemma_nearest_place(model, ranks@, bytes, order@, ranks@.len() as int);
            }
            match best {
                Some(next) => {
                    let ghost before = order@;
                    used.set(next as usize, true);
                    order.push(next);
                    proof {
                        let longer = order@;
                        assert forall|v: int| 0 <= v < ranks@.len() implies (#[trigger] used@[v]
                            <==> longer.contains(v as u32)) by {
                            assert(longer.take(before.len() as int) =~= before);
                            assert(longer.take(before.len() as int + 1) =~= longer);
                            lemma_take_contains(longer, before.len() as int);
                            assert(longer.contains(v as u32) <==> before.contains(v as u32)
                                || v as u32 == next);
                        }
                    }
                },
                None => {
                    proof {
                        assert forall|other: Seq<u32>| !is_chosen_cycle(
                            model,
                            ranks@,
                            bytes,
                            other,
                        ) by {}
                    }
                    return None;
                },
            }
        }
        let last: u32 = order[order.len() - 1];
        let first: u32 = order[0];
        assert(last < ranks@.len());
        assert(first < ranks@.len());
        match self.shortest_transfer_time_ns(
            ranks[last as usize],
            ranks[first as usize],
            payload_bytes,
        ) {
            Some(_) => {
                proof {
                    lemma_chosen_cycle(model, ranks@, bytes, order@);
                }
                Some(order)
            },
            None => {
                proof {
                    assert forall|other: Seq<u32>| !is_chosen_cycle(
                        model,
                        ranks@,
                        bytes,
                        other,
                    ) by {}
                }
                None
            },
        }
    }

    /// The summed times from a rank to the members of its group.
    fn reach(&self, group: &[u32], rank: u32, payload_bytes: usize) -> (total: Option<u64>)
        requires
            self@.valid(),
            rank < self@.world_size,
            forall|i: int| 0 <= i < group@.len() ==> #[trigger] group@[i] < self@.world_size,
        ensures
            total == reach_total(
                self@,
                payload_bytes as int,
                group@,
                rank,
                group@.len() as int,
            ),
    {
        let mut total: u64 = 0;
        let mut index: usize = 0;
        while index < group.len()
            invariant
                index <= group.len(),
                self@.valid(),
                rank < self@.world_size,
                forall|i: int| 0 <= i < group@.len() ==> #[trigger] group@[i] < self@.world_size,
                reach_total(self@, payload_bytes as int, group@, rank, index as int) == Some(total),
            decreases group.len() - index,
        {
            assert(group@[index as int] < self@.world_size);
            match self.shortest_transfer_time_ns_within(rank, group[index], payload_bytes, group) {
                Some(time) => {
                    total = saturating_add_u64(total, time);
                },
                None => {
                    proof {
                        lemma_reach_none(
                            self@,
                            payload_bytes as int,
                            group@,
                            rank,
                            index + 1,
                            group@.len() as int,
                        );
                    }
                    return None;
                },
            }
            index = index + 1;
        }
        Some(total)
    }

    /// The place of the best leader of a group.
    fn best_leader(&self, group: &[u32], payload_bytes: usize) -> (place: Option<usize>)
        requires
            self@.valid(),
            forall|i: int| 0 <= i < group@.len() ==> #[trigger] group@[i] < self@.world_size,
        ensures
            match place {
                Some(place) => {
                    &&& leader_place(
                        self@,
                        payload_bytes as int,
                        group@,
                        group@.len() as int,
                    ) == Some(place as int)
                    &&& place < group@.len()
                },
                None => leader_place(
                    self@,
                    payload_bytes as int,
                    group@,
                    group@.len() as int,
                ) is None,
            },
    {
        let ghost model = self@;
        let ghost bytes = payload_bytes as int;
        let mut best: Option<usize> = None;
        let mut best_total: u64 = 0;
        let mut index: usize = 0;
        while index < group.len()
            invariant
                index <= group.len(),
                self@.valid(),
                model == self@,
                bytes == payload_bytes,
                forall|i: int| 0 <= i < group@.len() ==> #[trigger] group@[i] < self@.world_size,
                match best {
                    Some(place) => {
                        &&& leader_place(model, bytes, group@, index as int) == Some(place as int)
                        &&& place < index
                        &&& reach_total(
                            model,
                            bytes,
                            group@,
                            group@[place as int],
                            group@.len() as int,
                        ) == Some(best_total)
                    },
                    None => leader_place(model, bytes, group@, index as int) is None,
                },
            decreases group.len() - index,
        {
            assert(group@[index as int] < self@.world_size);
            match self.reach(group, group[index], payload_bytes) {
                Some(total) => {
                    let better = match best {
                        None => true,
                        Some(place) => total < best_total || (total == best_total && group[index]
                            < group[place]),
                    };
                    if better {
                        best = Some(index);
                        best_total = total;
                    }
                },
                None => {},
            }
            index = index + 1;
        }
        best
    }
}

proof fn lemma_reach_none(
    model: TopologyModel,
    bytes: int,
    group: Seq<u32>,
    rank: u32,
    count: int,
    end: int,
)
    requires
        count <= end,
        reach_total(model, bytes, group, rank, count) is None,
    ensures
        reach_total(model, bytes, group, rank, end) is None,
    decreases end - count,
{
    if count < end {
        lemma_reach_none(model, bytes, group, rank, count, end - 1);
    }
}

/// The groups with their leaders in front, in the order of the leaders' cycle.
pub open spec fn optimized(model: TopologyModel, bytes: int, groups: Seq<Seq<u32>>) -> Option<
    Seq<Seq<u32>>,
> {
    if !all_led(model, bytes, groups) {
        None
    } else {
        let led = led_groups(model, bytes, groups);
        match chosen_cycle(model, heads(led), bytes) {
            Some(order) => Some(Seq::new(order.len(), |k: int| led[order[k] as int])),
            None => None,
        }
    }
}

/// Where an item of a list stands after its first item and another one were
/// exchanged.
spec fn exchanged(index: int, place: int) -> int {
    if index == 0 {
        place
    } else if index == place {
        0
    } else {
        index
    }
}

/// Putting leaders in front and reordering groups keeps a partition.
pub proof fn lemma_reordered_partition(
    world_size: u32,
    groups: Seq<Seq<u32>>,
    places: Seq<int>,
    order: Seq<u32>,
    result: Seq<Seq<u32>>,
)
    requires
        is_partition(world_size, groups),
        groups.len() <= u32::MAX,
        places.len() == groups.len(),
        forall|g: int| 0 <= g < groups.len() ==> 0 <= #[trigger] places[g] < groups[g].len(),
        is_ring(groups.len() as u32, order),
        result.len() == groups.len(),
        forall|k: int|
            0 <= k < result.len() ==> #[trigger] result[k] == led_by(
                groups[order[k] as int],
                places[order[k] as int],
            ),
    ensures
        is_partition(world_size, result),
{
    let count = groups.len() as int;
    assert forall|k: int| 0 <= k < count implies (#[trigger] result[k]).len() > 0 by {
        let g = order[k] as int;
        assert(0 <= g < count);
        assert(groups[g].len() > 0);
        assert(0 <= places[g] < groups[g].len());
    }
    assert forall|k: int, i: int|
        0 <= k < count && 0 <= i < result[k].len() implies #[trigger] result[k][i]
        == groups[order[k] as int][exchanged(i, places[order[k] as int])] && 0 <= exchanged(
        i,
        places[order[k] as int],
    ) < groups[order[k] as int].len() by {
        let g = order[k] as int;
        assert(0 <= g < count);
        assert(0 <= places[g] < groups[g].len());
        assert(result[k] == led_by(groups[g], places[g]));
    }
    assert forall|k: int, i: int|
        0 <= k < count && 0 <= i < result[k].len() implies #[trigger] result[k][i]
        < world_size by {
        let g = order[k] as int;
        assert(0 <= g < count);
        let at = exchanged(i, places[g]);
        assert(result[k][i] == groups[g][at]);
        assert(groups[g][at] < world_size);
    }
    assert forall|k: int, i: int, m: int, j: int|
        0 <= k < count && 0 <= m < count && 0 <= i < result[k].len() && 0 <= j < result[m].len() && (
        k != m || i != j) implies #[trigger] result[k][i] != #[trigger] result[m][j] by {
        let g = order[k] as int;
        let h = order[m] as int;
        assert(0 <= g < count && 0 <= h < count);
        let a = exchanged(i, places[g]);
        let b = exchanged(j, places[h]);
        assert(result[k][i] == groups[g][a]);
        assert(result[m][j] == groups[h][b]);
        if k != m {
            assert(order[k] != order[m]);
        }
        assert(g != h || a != b);
        assert(groups[g][a] != groups[h][b]);
    }
    assert forall|r: int| 0 <= r < world_size implies grouped(
        result,
        count,
        #[trigger] (r as u32),
    ) by {
        assert(grouped(groups, count, r as u32));
        let g = choose|g: int| 0 <= g < count && (#[trigger] groups[g]).contains(r as u32);
        let i = choose|i: int| 0 <= i < groups[g].len() && groups[g][i] == r as u32;
        lemma_ring_holds_all(groups.len() as u32, order, g as u32);
        let k = choose|k: int| 0 <= k < order.len() && order[k] == g as u32;
        let at = exchanged(i, places[g]);
        assert(0 <= places[g] < groups[g].len());
        assert(result[k] == led_by(groups[g], places[g]));
        assert(result[k][at] == r as u32);
        assert(result[k].contains(r as u32));
    }
}

impl CollectiveTopology {
    /// Puts the best leader of each group in front and orders the groups by
    /// the best cycle over their leaders.
    pub fn optimize_hierarchy(&self, groups: &Vec<Vec<u32>>, payload_bytes: usize) -> (result:
        Option<Vec<Vec<u32>>>)
        requires
            self@.valid(),
            is_partition(self@.world_size, rank_lists(groups@)),
            0 < groups@.len() <= u32::MAX,
        ensures
            match result {
                Some(ordered) => {
                    &&& optimized(self@, payload_bytes as int, rank_lists(groups@)) == Some(
                        rank_lists(ordered@),
                    )
                    &&& is_partition(self@.world_size, rank_lists(ordered@))
                    &&& ordered@.len() == groups@.len()
                },
                None => optimized(self@, payload_bytes as int, rank_lists(groups@)) is None,
            },
    {
        let ghost model = self@;
        let ghost bytes = payload_bytes as int;
        let ghost plain = rank_lists(groups@);
        let ghost count = plain.len() as int;
        let mut led: Vec<Vec<u32>> = Vec::new();
        let mut leaders: Vec<u32> = Vec::new();
        let ghost places = Seq::new(
            plain.len(),
            |g: int| leader_place(model, bytes, plain[g], plain[g].len() as int)->0,
        );
        let mut index: usize = 0;
        while index < groups.len()
            invariant
                index <= groups.len(),
                self@.valid(),
                model == self@,
                bytes == payload_bytes,
                plain == rank_lists(groups@),
                count == plain.len(),
                groups@.len() <= u32::MAX,
                is_partition(model.world_size, plain),
                places == Seq::new(
                    plain.len(),
                    |g: int| leader_place(model, bytes, plain[g], plain[g].len() as int)->0,
                ),
                led@.len() == index,
                leaders@.len() == index,
                forall|g: int|
                    0 <= g < index ==> leader_place(
                        model,
                        bytes,
                        #[trigger] plain[g],
                        plain[g].len() as int,
                    ) is Some,
                forall|g: int|
                    0 <= g < index ==> (#[trigger] led@[g])@ == led_by(plain[g], places[g])
                        && leaders@[g] == plain[g][places[g]] && 0 <= places[g] < plain[g].len(),
            decreases groups.len() - index,
        {
            proof {
                assert(plain[index as int] == groups@[index as int]@);
                assert forall|i: int|
                    0 <= i < groups@[index as int]@.len() implies #[trigger] groups@[index as int]@[i]
                    < model.world_size by {
                    assert(plain[index as int][i] < model.world_size);
                }
            }
            let place: usize = match self.best_leader(groups[index].as_slice(), payload_bytes) {
                Some(place) => place,
                None => {
                    assert(!all_led(model, bytes, plain));
                    return None;
                },
            };
            let mut group = copy_ranks(groups[index].as_slice());
            let first: u32 = group[0];
            let leader: u32 = group[place];
            group.set(0, leader);
            group.set(place, first);
            proof {
                assert(places[index as int] == place);
                assert(group@ =~= led_by(plain[index as int], place as int));
            }
            let ghost added = group@;
            let ghost earlier = led@;
            let ghost before = leaders@;
            led.push(group);
            leaders.push(leader);
            proof {
                assert forall|g: int| 0 <= g < index + 1 implies (#[trigger] led@[g])@ == led_by(
                    plain[g],
                    places[g],
                ) && leaders@[g] == plain[g][places[g]] && 0 <= places[g] < plain[g].len() by {
                    if g < index {
                        assert(led@[g] == earlier[g]);
                        assert(leaders@[g] == before[g]);
                    } else {
                        assert(led@[g]@ == added);
                    }
                }
            }
            index = index + 1;
        }
        proof {
            assert(all_led(model, bytes, plain));
            assert(rank_lists(led@) =~= led_groups(model, bytes, plain)) by {
                assert forall|g: int| 0 <= g < count implies #[trigger] rank_lists(led@)[g]
                    == led_groups(model, bytes, plain)[g] by {
                    assert(led@[g]@ == led_by(plain[g], places[g]));
                }
            }
            assert forall|g: int| 0 <= g < count implies #[trigger] leaders@[g] == heads(
                rank_lists(led@),
            )[g] && leaders@[g] < model.world_size by {
                assert(led@[g]@ == led_by(plain[g], places[g]));
                assert(plain[g][places[g]] < model.world_size);
            }
            assert(leaders@ =~= heads(led_groups(model, bytes, plain)));
        }
        let order = match self.best_rank_cycle_order(leaders.as_slice(), payload_bytes) {
            Some(order) => order,
            None => {
                return None;
            },
        };
        let mut ordered: Vec<Vec<u32>> = Vec::new();
        let mut place: usize = 0;
        while place < order.len()
            invariant
                place <= order.len(),
                led@.len() == count,
                forall|k: int| 0 <= k < order@.len() ==> #[trigger] order@[k] < count,
                ordered@.len() == place,
                forall|k: int|
                    0 <= k < place ==> (#[trigger] ordered@[k])@ == led@[order@[k] as int]@,
            decreases order.len() - place,
        {
            assert(order@[place as int] < count);
            ordered.push(copy_ranks(led[order[place] as usize].as_slice()));
            place = place + 1;
        }
        proof {
            let result = rank_lists(ordered@);
            let lead = led_groups(model, bytes, plain);
            assert(result =~= Seq::new(order@.len(), |k: int| lead[order@[k] as int])) by {
                assert forall|k: int| 0 <= k < result.len() implies #[trigger] result[k]
                    == lead[order@[k] as int] by {
                    assert(ordered@[k]@ == led@[order@[k] as int]@);
                    assert(order@[k] < count);
                    assert(rank_lists(led@)[order@[k] as int] == lead[order@[k] as int]);
                }
            }
            assert forall|g: int| 0 <= g < plain.len() implies 0 <= #[trigger] places[g]
                < plain[g].len() by {
                assert(led@[g]@ == led_by(plain[g], places[g]));
            }
            assert forall|k: int| 0 <= k < result.len() implies #[trigger] result[k] == led_by(
                plain[order@[k] as int],
                places[order@[k] as int],
            ) by {
                assert(order@[k] < count);
                assert(lead[order@[k] as int] == led_by(
                    plain[order@[k] as int],
                    places[order@[k] as int],
                ));
            }
            lemma_reordered_partition(model.world_size, plain, places, order@, result);
        }
        Some(ordered)
    }
}

/// Lists of groups as sequences.
pub open spec fn groupings(list: Seq<Vec<Vec<u32>>>) -> Seq<Seq<Seq<u32>>> {
    Seq::new(list.len(), |i: int| rank_lists(list[i]@))
}

/// The hierarchies that the first `count` thresholds suggest, each once.
pub open spec fn suggested(
    model: TopologyModel,
    bytes: int,
    thresholds: Seq<u64>,
    count: int,
) -> Seq<Seq<Seq<u32>>>
    decreases count,
{
    if count <= 0 {
        Seq::empty()
    } else {
        let before = suggested(model, bytes, thresholds, count - 1);
        let groups = domains(model, bytes, thresholds[count - 1], model.world_size as int);
        if groups.len() < 2 || groups.len() == model.world_size || before.contains(groups) {
            before
        } else {
            match optimized(model, bytes, groups) {
                Some(ordered) => if before.contains(ordered) {
                    before
                } else {
                    before.push(ordered)
                },
                None => before,
            }
        }
    }
}

/// The hierarchies that a topology suggests for a payload.
pub open spec fn hierarchy_candidates_of(model: TopologyModel, bytes: int) -> Seq<Seq<Seq<u32>>> {
    let thresholds = link_times(model, bytes, rank_pairs_of(model.world_size));
    suggested(model, bytes, thresholds, thresholds.len() as int)
}

/// Whether a hierarchy is in a list.
fn holds_groups(list: &Vec<Vec<Vec<u32>>>, groups: &Vec<Vec<u32>>) -> (held: bool)
    ensures
        held == groupings(list@).contains(rank_lists(groups@)),
{
    let ghost wanted = rank_lists(groups@);
    let mut index: usize = 0;
    while index < list.len()
        invariant
            index <= list.len(),
            wanted == rank_lists(groups@),
            forall|i: int| 0 <= i < index ==> #[trigger] groupings(list@)[i] != wanted,
        decreases list.len() - index,
    {
        assert(groupings(list@)[index as int] == rank_lists(list@[index as int]@));
        match compare_lists(list[index].as_slice(), groups.as_slice()) {
            Comparison::Same => {
                assert(groupings(list@)[index as int] == wanted);
                return true;
            },
            _ => {},
        }
        index = index + 1;
    }
    false
}

/// The domains of a world are no more than its ranks.
proof fn lemma_domain_count(model: TopologyModel, bytes: int, threshold: u64, end: int)
    requires
        0 <= end,
    ensures
        domains(model, bytes, threshold, end).len() <= end,
    decreases end,
{
    if end > 0 {
        lemma_domain_count(model, bytes, threshold, end - 1);
    }
}

impl CollectiveTopology {
    /// The hierarchies that the topology suggests for a payload.
    pub fn hierarchy_candidates(&self, payload_bytes: usize) -> (candidates: Vec<Vec<Vec<u32>>>)
        requires
            self@.valid(),
        ensures
            groupings(candidates@) == hierarchy_candidates_of(self@, payload_bytes as int),
            forall|i: int|
                0 <= i < candidates@.len() ==> #[trigger] groupings(candidates@)[i].len() >= 2
                    && is_partition(self@.world_size, groupings(candidates@)[i]),
    {
        let ghost model = self@;
        let ghost bytes = payload_bytes as int;
        let thresholds = self.link_thresholds(payload_bytes);
        let mut candidates: Vec<Vec<Vec<u32>>> = Vec::new();
        let mut index: usize = 0;
        assert(groupings(candidates@) =~= Seq::<Seq<Seq<u32>>>::empty());
        while index < thresholds.len()
            invariant
                index <= thresholds.len(),
                self@.valid(),
                model == self@,
                bytes == payload_bytes,
                groupings(candidates@) == suggested(model, bytes, thresholds@, index as int),
                forall|i: int|
                    0 <= i < candidates@.len() ==> #[trigger] groupings(candidates@)[i].len() >= 2
                        && is_partition(model.world_size, groupings(candidates@)[i]),
            decreases thresholds.len() - index,
        {
            let threshold: u64 = thresholds[index];
            let groups = self.fast_domains(payload_bytes, threshold);
            proof {
                law_domains_partition(model, bytes, threshold);
                lemma_domain_count(model, bytes, threshold, model.world_size as int);
            }
            if groups.len() >= 2 && groups.len() != self.world_size as usize && !holds_groups(
                &candidates,
                &groups,
            ) {
                match self.optimize_hierarchy(&groups, payload_bytes) {
                    Some(ordered) => {
                        if !holds_groups(&candidates, &ordered) {
                            let ghost before = groupings(candidates@);
                            let ghost added = rank_lists(ordered@);
                            candidates.push(ordered);
                            proof {
                                assert(groupings(candidates@) =~= before.push(added));
                                assert forall|i: int|
                                    0 <= i < candidates@.len() implies #[trigger] groupings(
                                    candidates@,
                                )[i].len() >= 2 && is_partition(
                                    model.world_size,
                                    groupings(candidates@)[i],
                                ) by {
                                    if i < before.len() {
                                        assert(groupings(candidates@)[i] == before[i]);
                                    }
                                }
                            }
                        }
                    },
                    None => {},
                }
            }
            index = index + 1;
        }
        candidates
    }
}

} // verus!

//! Ring orders: validation, scores, the search for closed rings and the choice
//! of rings that share few links.

use crate::math::{max_int, min_int, saturate_u64, saturating_add_u64};
use crate::rank::layout::rank_lists;
use crate::rank::topology::channels::same_links;
use crate::rank::topology::links::{CollectiveTopology, LinkCost, TopologyModel};
use crate::rank::topology::order::{
    compare_ranks, copy_ranks, insert_sorted, lemma_lex_irreflexive, lemma_sorted_unique, lex_less,
    strictly_sorted, Comparison,
};
use crate::rank::topology::paths::repeat;
use crate::rank::topology::ring_laws::lemma_candidates_apart;
use crate::rank::topology::ring_listing::lemma_candidates_listed;
use crate::rank::topology::{TopologyError, TopologyFailure, EXACT_RING_SEARCH_MAX_RANKS};
use crate::text::{decimal, push_decimal, push_usize};
use vstd::prelude::*;
use vstd::string::*;

verus! {

/// Why the rank at one place of a ring is refused, if it is.
pub open spec fn ring_defect_at(world_size: u32, order: Seq<u32>, index: int) -> Option<
    TopologyFailure,
> {
    if order[index] >= world_size {
        Some(TopologyFailure::RankOutOfRange { rank: order[index], world_size })
    } else if order.take(index).contains(order[index]) {
        Some(
            TopologyFailure::InvalidRing(
                "rank "@ + decimal(order[index] as nat) + " appears more than once"@,
            ),
        )
    } else {
        None
    }
}

/// The first refusal among the first `count` places.
pub open spec fn ring_defect_below(world_size: u32, order: Seq<u32>, count: int) -> Option<
    TopologyFailure,
>
    decreases count,
{
    if count <= 0 {
        None
    } else {
        match ring_defect_below(world_size, order, count - 1) {
            Some(defect) => Some(defect),
            None => ring_defect_at(world_size, order, count - 1),
        }
    }
}

/// Why a ring order is refused, if it is.
pub open spec fn ring_defect(world_size: u32, order: Seq<u32>) -> Option<TopologyFailure> {
    if world_size == 0 {
        Some(TopologyFailure::EmptyWorld)
    } else if order.len() != world_size {
        Some(
            TopologyFailure::InvalidRing(
                "contains "@ + decimal(order.len()) + " ranks, expected "@ + decimal(
                    world_size as nat,
                ),
            ),
        )
    } else {
        ring_defect_below(world_size, order, order.len() as int)
    }
}

/// Every rank of the world once.
pub open spec fn is_ring(world_size: u32, order: Seq<u32>) -> bool {
    &&& world_size > 0
    &&& order.len() == world_size
    &&& order.no_duplicates()
    &&& forall|i: int| 0 <= i < order.len() ==> #[trigger] order[i] < world_size
}

proof fn lemma_no_defect_below(world_size: u32, order: Seq<u32>, count: int)
    requires
        0 <= count <= order.len(),
    ensures
        ring_defect_below(world_size, order, count) is None <==> {
            &&& forall|i: int| 0 <= i < count ==> #[trigger] order[i] < world_size
            &&& order.take(count).no_duplicates()
        },
    decreases count,
{
    if count > 0 {
        lemma_no_defect_below(world_size, order, count - 1);
        let head = order.take(count - 1);
        let more = order.take(count);
        if ring_defect_below(world_size, order, count) is None {
            assert forall|i: int, j: int| 0 <= i < count && 0 <= j < count && i != j implies more[i]
                != more[j] by {
                if i < count - 1 && j < count - 1 {
                    assert(head[i] != head[j]);
                } else if i == count - 1 {
                    assert(head[j] == more[j]);
                    assert(head.contains(head[j]));
                } else {
                    assert(head[i] == more[i]);
                    assert(head.contains(head[i]));
                }
            }
        }
        if (forall|i: int| 0 <= i < count ==> #[trigger] order[i] < world_size)
            && more.no_duplicates() {
            assert forall|i: int, j: int|
                0 <= i < count - 1 && 0 <= j < count - 1 && i != j implies head[i] != head[j] by {
                assert(more[i] != more[j]);
            }
            if head.contains(order[count - 1]) {
                let k = choose|k: int| 0 <= k < head.len() && head[k] == order[count - 1];
                assert(more[k] == more[count - 1]);
            }
            assert(order[count - 1] < world_size);
        }
    }
}

/// An order that nothing is wrong with holds every rank of the world once.
pub proof fn law_accepted_rings(world_size: u32, order: Seq<u32>)
    ensures
        ring_defect(world_size, order) is None <==> is_ring(world_size, order),
{
    if world_size > 0 && order.len() == world_size {
        lemma_no_defect_below(world_size, order, order.len() as int);
        assert(order.take(order.len() as int) =~= order);
    }
}

pub fn validate_ring_order(world_size: u32, order: &[u32]) -> (result: Result<(), TopologyError>)
    ensures
        match ring_defect(world_size, order@) {
            Some(defect) => result is Err && result->Err_0@ == defect,
            None => result is Ok,
        },
        result is Ok <==> is_ring(world_size, order@),
{
    proof {
        law_accepted_rings(world_size, order@);
    }
    if world_size == 0 {
        return Err(TopologyError::EmptyWorld);
    }
    if order.len() != world_size as usize {
        let mut text = String::from_str("contains ");
        push_usize(&mut text, order.len());
        text.append(" ranks, expected ");
        push_decimal(&mut text, world_size as u64);
        return Err(TopologyError::InvalidRing(text));
    }
    let mut seen: Vec<bool> = repeat(false, world_size as usize);
    let mut index: usize = 0;
    while index < order.len()
        invariant
            index <= order.len(),
            order@.len() == world_size,
            world_size > 0,
            seen@.len() == world_size,
            ring_defect_below(world_size, order@, index as int) is None,
            forall|v: int|
                0 <= v < world_size ==> (#[trigger] seen@[v] <==> order@.take(
                    index as int,
                ).contains(v as u32)),
            ring_defect(world_size, order@) is None <==> is_ring(world_size, order@),
        decreases order.len() - index,
    {
        let rank: u32 = order[index];
        proof {
            lemma_defect_stays(world_size, order@, index + 1);
        }
        if rank >= world_size {
            return Err(TopologyError::RankOutOfRange { rank, world_size });
        }
        if seen[rank as usize] {
            let mut text = String::from_str("rank ");
            push_decimal(&mut text, rank as u64);
            text.append(" appears more than once");
            return Err(TopologyError::InvalidRing(text));
        }
        seen.set(rank as usize, true);
        proof {
            lemma_take_contains(order@, index as int);
        }
        index = index + 1;
    }
    Ok(())
}

/// A refusal among the first places is the refusal of the whole order.
proof fn lemma_defect_stays(world_size: u32, order: Seq<u32>, count: int)
    requires
        0 <= count <= order.len(),
        order.len() == world_size,
        world_size > 0,
    ensures
        ring_defect_below(world_size, order, count) is Some ==> ring_defect(world_size, order)
            == ring_defect_below(world_size, order, count),
{
    lemma_defect_prefix(world_size, order, count, order.len() as int);
}

proof fn lemma_defect_prefix(world_size: u32, order: Seq<u32>, count: int, end: int)
    requires
        0 <= count <= end,
    ensures
        ring_defect_below(world_size, order, count) is Some ==> ring_defect_below(
            world_size,
            order,
            end,
        ) == ring_defect_below(world_size, order, count),
    decreases end - count,
{
    if count < end {
        lemma_defect_prefix(world_size, order, count, end - 1);
    }
}

/// What one more place adds to a prefix.
pub proof fn lemma_take_contains(order: Seq<u32>, index: int)
    requires
        0 <= index < order.len(),
    ensures
        forall|r: u32| #[trigger]
            order.take(index + 1).contains(r) <==> order.take(index).contains(r) || r
                == order[index],
{
    let now = order.take(index + 1);
    let was = order.take(index);
    assert forall|r: u32| #[trigger] now.contains(r) <==> was.contains(r) || r == order[index] by {
        if was.contains(r) {
            let k = choose|k: int| 0 <= k < was.len() && was[k] == r;
            assert(now[k] == r);
        }
        if r == order[index] {
            assert(now[index] == r);
        }
        if now.contains(r) && r != order[index] {
            let k = choose|k: int| 0 <= k < now.len() && now[k] == r;
            assert(was[k] == r);
        }
    }
}

/// The place after `index` on a ring.
pub open spec fn around(index: int, length: int) -> int {
    if index + 1 == length {
        0
    } else {
        index + 1
    }
}

pub fn next_place(index: usize, length: usize) -> (next: usize)
    requires
        index < length,
    ensures
        next == around(index as int, length as int),
{
    if index + 1 == length {
        0
    } else {
        index + 1
    }
}

/// How good a ring is: first its narrowest link, then its total bandwidth,
/// then its total latency.
#[derive(Debug, Clone, Copy, PartialEq, Eq, Structural)]
pub struct RingScore {
    pub bottleneck: u64,
    pub total_bandwidth: u128,
    pub inverse_latency: u128,
}

impl RingScore {
    pub open spec fn above(self, other: RingScore) -> bool {
        if self.bottleneck != other.bottleneck {
            self.bottleneck > other.bottleneck
        } else if self.total_bandwidth != other.total_bandwidth {
            self.total_bandwidth > other.total_bandwidth
        } else {
            self.inverse_latency > other.inverse_latency
        }
    }

    pub fn exceeds(&self, other: &RingScore) -> (above: bool)
        ensures
            above == self.above(*other),
    {
        if self.bottleneck != other.bottleneck {
            self.bottleneck > other.bottleneck
        } else if self.total_bandwidth != other.total_bandwidth {
            self.total_bandwidth > other.total_bandwidth
        } else {
            self.inverse_latency > other.inverse_latency
        }
    }
}

/// The sum of the bandwidths of the first `count` ring links.
pub open spec fn ring_bandwidth(model: TopologyModel, order: Seq<u32>, count: int) -> int
    decreases count,
{
    if count <= 0 {
        0
    } else {
        ring_bandwidth(model, order, count - 1) + model.ring_link(order, count - 1)->0.bandwidth_mbps
    }
}

/// The sum of the latencies of the first `count` ring links.
pub open spec fn ring_latency(model: TopologyModel, order: Seq<u32>, count: int) -> int
    decreases count,
{
    if count <= 0 {
        0
    } else {
        ring_latency(model, order, count - 1) + model.ring_link(order, count - 1)->0.latency_ns
    }
}

/// The narrowest of the first `count` ring links.
pub open spec fn ring_bottleneck(model: TopologyModel, order: Seq<u32>, count: int) -> int
    decreases count,
{
    if count <= 0 {
        u64::MAX as int
    } else {
        min_int(
            ring_bottleneck(model, order, count - 1),
            model.ring_link(order, count - 1)->0.bandwidth_mbps as int,
        )
    }
}

impl TopologyModel {
    /// The link from one place of a ring to the next.
    pub open spec fn ring_link(self, order: Seq<u32>, index: int) -> Option<LinkCost> {
        self.link(order[index] as int, order[around(index, order.len() as int)] as int)
    }

    /// The first `count` places are each linked to the next.
    pub open spec fn linked_below(self, order: Seq<u32>, count: int) -> bool {
        forall|i: int| 0 <= i < count ==> (#[trigger] self.ring_link(order, i)) is Some
    }

    /// A ring each of whose places is linked to the next.
    pub open spec fn is_closed_ring(self, order: Seq<u32>) -> bool {
        is_ring(self.world_size, order) && self.linked_below(order, order.len() as int)
    }

    pub open spec fn ring_score(self, order: Seq<u32>) -> RingScore {
        let count = order.len() as int;
        RingScore {
            bottleneck: ring_bottleneck(self, order, count) as u64,
            total_bandwidth: ring_bandwidth(self, order, count) as u128,
            inverse_latency: (u128::MAX - ring_latency(self, order, count)) as u128,
        }
    }
}

impl CollectiveTopology {
    pub fn ring_score(&self, order: &[u32]) -> (result: Result<RingScore, TopologyError>)
        requires
            self@.valid(),
        ensures
            match ring_defect(self@.world_size, order@) {
                Some(defect) => result is Err && result->Err_0@ == defect,
                None => match result {
                    Ok(score) => self@.is_closed_ring(order@) && score == self@.ring_score(order@),
                    Err(error) => exists|i: int|
                        0 <= i < order@.len() && self@.linked_below(order@, i) && (
                        #[trigger] self@.ring_link(order@, i)) is None && error@
                            == TopologyFailure::InvalidRing(
                            "ring edge "@ + decimal(order@[i] as nat) + "-"@ + decimal(
                                order@[around(i, order@.len() as int)] as nat,
                            ) + " is not connected"@,
                        ),
                },
            },
    {
        proof {
            law_accepted_rings(self@.world_size, order@);
        }
        match validate_ring_order(self.world_size, order) {
            Ok(()) => {},
            Err(error) => {
                return Err(error);
            },
        }
        let mut bottleneck: u64 = u64::MAX;
        let mut total_bandwidth: u128 = 0;
        let mut total_latency: u128 = 0;
        let mut index: usize = 0;
        while index < order.len()
            invariant
                index <= order.len(),
                self@.valid(),
                is_ring(self@.world_size, order@),
                ring_defect(self@.world_size, order@) is None,
                self@.linked_below(order@, index as int),
                bottleneck == ring_bottleneck(self@, order@, index as int),
                total_bandwidth == ring_bandwidth(self@, order@, index as int),
                total_latency == ring_latency(self@, order@, index as int),
                total_bandwidth <= index * u64::MAX,
                total_latency <= index * u64::MAX,
            decreases order.len() - index,
        {
            let first: u32 = order[index];
            let second: u32 = order[next_place(index, order.len())];
            assert(index * u64::MAX <= 0xffff_ffff * u64::MAX) by (nonlinear_arith)
                requires
                    index <= 0xffff_ffff,
            ;
            assert((index + 1) * u64::MAX == index * u64::MAX + u64::MAX) by (nonlinear_arith);
            match self.link(first, second) {
                Some(link) => {
                    if link.bandwidth_mbps < bottleneck {
                        bottleneck = link.bandwidth_mbps;
                    }
                    total_bandwidth = total_bandwidth + link.bandwidth_mbps as u128;
                    total_latency = total_latency + link.latency_ns as u128;
                },
                None => {
                    let mut text = String::from_str("ring edge ");
                    push_decimal(&mut text, first as u64);
                    text.append("-");
                    push_decimal(&mut text, second as u64);
                    text.append(" is not connected");
                    assert(self@.ring_link(order@, index as int) is None);
                    return Err(TopologyError::InvalidRing(text));
                },
            }
            index = index + 1;
        }
        assert(index * u64::MAX <= 0xffff_ffff * u64::MAX) by (nonlinear_arith)
            requires
                index <= 0xffff_ffff,
        ;
        Ok(
            RingScore {
                bottleneck,
                total_bandwidth,
                inverse_latency: u128::MAX - total_latency,
            },
        )
    }
}

/// A ring walked the other way from its first rank.
pub open spec fn reversed(order: Seq<u32>) -> Seq<u32> {
    Seq::new(
        order.len(),
        |i: int|
            if i == 0 {
                order[0]
            } else {
                order[order.len() - i]
            },
    )
}

fn reverse_ring(order: &[u32]) -> (result: Vec<u32>)
    ensures
        result@ == reversed(order@),
{
    let mut result: Vec<u32> = Vec::new();
    let mut index: usize = 0;
    while index < order.len()
        invariant
            index <= order.len(),
            result@.len() == index,
            forall|i: int| 0 <= i < index ==> #[trigger] result@[i] == reversed(order@)[i],
        decreases order.len() - index,
    {
        if index == 0 {
            result.push(order[0]);
        } else {
            result.push(order[order.len() - index]);
        }
        index = index + 1;
    }
    assert(result@ =~= reversed(order@));
    result
}

/// A ring from rank zero on, in the direction that comes first.
pub open spec fn oriented(order: Seq<u32>) -> Seq<u32> {
    if lex_less(reversed(order), order) {
        reversed(order)
    } else {
        order
    }
}

/// A closed ring from rank zero on, in the direction that comes first.
pub open spec fn is_exact_candidate(model: TopologyModel, order: Seq<u32>) -> bool {
    &&& model.is_closed_ring(order)
    &&& order[0] == 0
    &&& !lex_less(reversed(order), order)
}

/// The best rank below `end` to go on to: linked, not on the ring yet, with the
/// most bandwidth, then the least latency, then the lowest number.
pub open spec fn best_step(model: TopologyModel, order: Seq<u32>, end: int) -> Option<u32>
    decreases end,
{
    if end <= 0 {
        None
    } else {
        let rank = (end - 1) as u32;
        match (
            best_step(model, order, end - 1),
            if order.contains(rank) {
                None
            } else {
                model.link(order.last() as int, rank as int)
            },
        ) {
            (best, None) => best,
            (None, Some(_)) => Some(rank),
            (Some(best), Some(cost)) => {
                let current = model.link(order.last() as int, best as int)->0;
                if cost.bandwidth_mbps > current.bandwidth_mbps || (cost.bandwidth_mbps
                    == current.bandwidth_mbps && cost.latency_ns < current.latency_ns) {
                    Some(rank)
                } else {
                    Some(best)
                }
            },
        }
    }
}

/// The ring that always takes the best step.
pub open spec fn greedy_ring(model: TopologyModel, order: Seq<u32>) -> Option<Seq<u32>>
    decreases model.world_size - order.len(),
{
    if order.len() >= model.world_size {
        Some(order)
    } else {
        match best_step(model, order, model.world_size as int) {
            Some(rank) => greedy_ring(model, order.push(rank)),
            None => None,
        }
    }
}

/// A ring begun at another place.
pub open spec fn rotated(order: Seq<u32>, place: int) -> Seq<u32> {
    Seq::new(
        order.len(),
        |i: int|
            if i + place < order.len() {
                order[i + place]
            } else {
                order[i + place - order.len()]
            },
    )
}

/// The ring that greedy steps from `start` close, from rank zero on.
pub open spec fn greedy_candidate(model: TopologyModel, start: u32) -> Option<Seq<u32>> {
    match greedy_ring(model, seq![start]) {
        Some(order) => if model.link(order.last() as int, order[0] as int) is Some {
            Some(oriented(rotated(order, order.index_of(0))))
        } else {
            None
        },
        None => None,
    }
}

/// The rings among which the best are chosen: all closed rings of a small
/// world, the closed greedy rings of a large one.
pub open spec fn is_candidate(model: TopologyModel, order: Seq<u32>) -> bool {
    if model.world_size <= EXACT_RING_SEARCH_MAX_RANKS {
        is_exact_candidate(model, order)
    } else {
        exists|start: u32|
            start < model.world_size && #[trigger] greedy_candidate(model, start) == Some(order)
    }
}

/// The candidates, each once, in order.
pub open spec fn lists_candidates(model: TopologyModel, rings: Seq<Seq<u32>>) -> bool {
    &&& strictly_sorted(rings)
    &&& forall|order: Seq<u32>| #[trigger] rings.contains(order) <==> is_candidate(model, order)
}

pub open spec fn ring_candidates(model: TopologyModel) -> Seq<Seq<u32>> {
    choose|rings: Seq<Seq<u32>>| lists_candidates(model, rings)
}

proof fn lemma_ring_candidates(model: TopologyModel, rings: Seq<Seq<u32>>)
    requires
        lists_candidates(model, rings),
    ensures
        ring_candidates(model) == rings,
{
    let chosen = ring_candidates(model);
    assert(lists_candidates(model, chosen));
    assert forall|order: Seq<u32>| chosen.contains(order) <==> rings.contains(order) by {
        assert(chosen.contains(order) <==> is_candidate(model, order));
        assert(rings.contains(order) <==> is_candidate(model, order));
    }
    lemma_sorted_unique(chosen, rings);
}

/// The order begins with a prefix.
pub open spec fn begins_with(order: Seq<u32>, prefix: Seq<u32>) -> bool {
    order.len() >= prefix.len() && order.take(prefix.len() as int) == prefix
}

/// A prefix of a ring from rank zero on: distinct ranks, each linked to the
/// next.
pub open spec fn is_ring_prefix(model: TopologyModel, prefix: Seq<u32>) -> bool {
    &&& 0 < prefix.len() <= model.world_size
    &&& prefix[0] == 0
    &&& prefix.no_duplicates()
    &&& forall|i: int| 0 <= i < prefix.len() ==> #[trigger] prefix[i] < model.world_size
    &&& forall|i: int|
        0 <= i < prefix.len() - 1 ==> model.link(
            #[trigger] prefix[i] as int,
            prefix[i + 1] as int,
        ) is Some
}

/// Adds every candidate ring that begins with `order`.
fn collect_rings(
    topology: &CollectiveTopology,
    order: &mut Vec<u32>,
    used: &mut Vec<bool>,
    candidates: &mut Vec<Vec<u32>>,
)
    requires
        topology@.valid(),
        is_ring_prefix(topology@, old(order)@),
        old(used)@.len() == topology@.world_size,
        forall|v: int|
            0 <= v < topology@.world_size ==> (#[trigger] old(used)@[v] <==> old(order)@.contains(
                v as u32,
            )),
        strictly_sorted(rank_lists(old(candidates)@)),
    ensures
        final(order)@ == old(order)@,
        final(used)@ == old(used)@,
        strictly_sorted(rank_lists(final(candidates)@)),
        forall|r: Seq<u32>| #[trigger]
            rank_lists(final(candidates)@).contains(r) <==> rank_lists(
                old(candidates)@,
            ).contains(r) || (is_exact_candidate(topology@, r) && begins_with(r, old(order)@)),
    decreases topology@.world_size - old(order)@.len(),
{
    let ghost model = topology@;
    let ghost prefix = order@;
    let ghost known = rank_lists(candidates@);
    if order.len() == topology.world_size as usize {
        proof {
            assert forall|r: Seq<u32>| is_exact_candidate(model, r) && begins_with(r, prefix)
                implies r == prefix by {
                assert(r.take(prefix.len() as int) =~= r);
            }
            assert(prefix.take(prefix.len() as int) =~= prefix);
        }
        let last: u32 = order[order.len() - 1];
        if topology.link(last, order[0]).is_none() {
            proof {
                assert(model.ring_link(prefix, prefix.len() - 1) is None);
                assert(!is_exact_candidate(model, prefix));
            }
            return;
        }
        proof {
            assert forall|i: int| 0 <= i < prefix.len() implies (#[trigger] model.ring_link(
                prefix,
                i,
            )) is Some by {
                if i < prefix.len() - 1 {
                    assert(model.link(prefix[i] as int, prefix[i + 1] as int) is Some);
                }
            }
            assert(model.is_closed_ring(prefix));
        }
        let back = reverse_ring(order.as_slice());
        match compare_ranks(back.as_slice(), order.as_slice()) {
            Comparison::Before => {},
            _ => {
                insert_sorted(candidates, copy_ranks(order.as_slice()));
            },
        }
        return;
    }
    let current: u32 = order[order.len() - 1];
    let mut candidate: u32 = 1;
    while candidate < topology.world_size
        invariant
            1 <= candidate <= topology.world_size,
            topology@.valid(),
            model == topology@,
            prefix == order@,
            prefix == old(order)@,
            is_ring_prefix(model, prefix),
            prefix.len() < model.world_size,
            current == prefix.last(),
            used@ == old(used)@,
            used@.len() == model.world_size,
            forall|v: int|
                0 <= v < model.world_size ==> (#[trigger] used@[v] <==> prefix.contains(v as u32)),
            strictly_sorted(rank_lists(candidates@)),
            forall|r: Seq<u32>| #[trigger]
                rank_lists(candidates@).contains(r) <==> known.contains(r) || (is_exact_candidate(
                    model,
                    r,
                ) && begins_with(r, prefix) && r[prefix.len() as int] < candidate),
        decreases topology.world_size - candidate,
    {
        let ghost sofar = rank_lists(candidates@);
        if used[candidate as usize] || topology.link(current, candidate).is_none() {
            proof {
                assert forall|r: Seq<u32>|
                    is_exact_candidate(model, r) && begins_with(r, prefix) implies r[prefix.len() as int]
                    != candidate by {
                    lemma_next_of_ring(model, r, prefix);
                }
            }
        } else {
            used.set(candidate as usize, true);
            order.push(candidate);
            proof {
                let longer = prefix.push(candidate);
                assert(longer.no_duplicates());
                assert forall|i: int| 0 <= i < longer.len() - 1 implies model.link(
                    #[trigger] longer[i] as int,
                    longer[i + 1] as int,
                ) is Some by {
                    if i < prefix.len() - 1 {
                        assert(longer[i] == prefix[i]);
                        assert(longer[i + 1] == prefix[i + 1]);
                    }
                }
                assert forall|v: int| 0 <= v < model.world_size implies (#[trigger] used@[v]
                    <==> longer.contains(v as u32)) by {
                    assert(longer.take(prefix.len() as int) =~= prefix);
                    assert(longer.take(prefix.len() as int + 1) =~= longer);
                    lemma_take_contains(longer, prefix.len() as int);
                    assert(longer.contains(v as u32) <==> prefix.contains(v as u32) || v as u32
                        == candidate);
                }
            }
            collect_rings(topology, order, used, candidates);
            let ghost all = rank_lists(candidates@);
            order.pop();
            used.set(candidate as usize, false);
            proof {
                assert(order@ =~= prefix);
                assert(used@ =~= old(used)@);
                assert forall|r: Seq<u32>| #[trigger] all.contains(r) <==> known.contains(r) || (
                is_exact_candidate(model, r) && begins_with(r, prefix) && r[prefix.len() as int]
                    < candidate + 1) by {
                    lemma_begins_longer(r, prefix, candidate);
                    assert(all.contains(r) <==> sofar.contains(r) || (is_exact_candidate(model, r)
                        && begins_with(r, prefix.push(candidate))));
                    if is_exact_candidate(model, r) && begins_with(r, prefix) {
                        lemma_next_of_ring(model, r, prefix);
                    }
                }
            }
        }
        candidate = candidate + 1;
    }
    proof {
        let all = rank_lists(candidates@);
        assert forall|r: Seq<u32>| #[trigger] all.contains(r) <==> known.contains(r) || (
        is_exact_candidate(model, r) && begins_with(r, prefix)) by {
            if is_exact_candidate(model, r) && begins_with(r, prefix) {
                lemma_next_of_ring(model, r, prefix);
            }
        }
    }
}

/// A ring that begins with a proper prefix goes on to an unused linked rank.
proof fn lemma_next_of_ring(model: TopologyModel, order: Seq<u32>, prefix: Seq<u32>)
    requires
        is_exact_candidate(model, order),
        begins_with(order, prefix),
        0 < prefix.len() < model.world_size,
    ensures
        0 < order[prefix.len() as int] < model.world_size,
        !prefix.contains(order[prefix.len() as int]),
        model.link(prefix.last() as int, order[prefix.len() as int] as int) is Some,
{
    let place = prefix.len() as int;
    assert(order.take(place)[place - 1] == order[place - 1]);
    assert(model.ring_link(order, place - 1) is Some);
    if prefix.contains(order[place]) {
        let k = choose|k: int| 0 <= k < prefix.len() && prefix[k] == order[place];
        assert(order.take(place)[k] == order[k]);
        assert(order[k] == order[place]);
    }
    assert(order[0] != order[place]);
}

proof fn lemma_begins_longer(order: Seq<u32>, prefix: Seq<u32>, next: u32)
    requires
        prefix.len() > 0,
    ensures
        begins_with(order, prefix.push(next)) <==> begins_with(order, prefix) && order.len()
            > prefix.len() && order[prefix.len() as int] == next,
{
    let place = prefix.len() as int;
    let longer = prefix.push(next);
    if begins_with(order, longer) {
        assert(order.take(place + 1)[place] == order[place]);
        assert(order.take(place) =~= order.take(place + 1).take(place));
        assert(longer.take(place) =~= prefix);
    }
    if begins_with(order, prefix) && order.len() > place && order[place] == next {
        assert(order.take(place + 1) =~= order.take(place).push(next));
    }
}

/// A ring begun at another place is closed as well.
pub(crate) proof fn lemma_rotated_closed(model: TopologyModel, order: Seq<u32>, place: int)
    requires
        model.is_closed_ring(order),
        0 <= place < order.len(),
    ensures
        model.is_closed_ring(rotated(order, place)),
{
    let turned = rotated(order, place);
    let n = order.len() as int;
    assert forall|i: int, j: int| 0 <= i < n && 0 <= j < n && i != j implies turned[i]
        != turned[j] by {
        let a = if i + place < n {
            i + place
        } else {
            i + place - n
        };
        let b = if j + place < n {
            j + place
        } else {
            j + place - n
        };
        assert(order[a] != order[b]);
    }
    assert forall|i: int| 0 <= i < n implies (#[trigger] model.ring_link(turned, i)) is Some by {
        let a = if i + place < n {
            i + place
        } else {
            i + place - n
        };
        assert(model.ring_link(order, a) is Some);
    }
}

/// A ring walked the other way is closed as well.
pub(crate) proof fn lemma_reversed_closed(model: TopologyModel, order: Seq<u32>)
    requires
        model.valid(),
        model.is_closed_ring(order),
    ensures
        model.is_closed_ring(reversed(order)),
{
    let back = reversed(order);
    let n = order.len() as int;
    assert forall|i: int, j: int| 0 <= i < n && 0 <= j < n && i != j implies back[i]
        != back[j] by {
        let a = if i == 0 {
            0
        } else {
            n - i
        };
        let b = if j == 0 {
            0
        } else {
            n - j
        };
        assert(order[a] != order[b]);
    }
    assert forall|i: int| 0 <= i < n implies (#[trigger] model.ring_link(back, i)) is Some by {
        let from = back[i] as int;
        let to = back[around(i, n)] as int;
        if n == 1 {
            assert(model.ring_link(order, 0) is Some);
        } else {
            let a = n - i - 1;
            assert(model.ring_link(order, a) is Some);
            assert(order[a] == to && order[around(a, n)] == from);
            assert(model.links[to][from] == model.links[from][to]);
        }
    }
}

/// An order that takes only linked steps to new ranks.
pub open spec fn is_greedy_prefix(model: TopologyModel, order: Seq<u32>) -> bool {
    &&& 0 < order.len() <= model.world_size
    &&& order.no_duplicates()
    &&& forall|i: int| 0 <= i < order.len() ==> #[trigger] order[i] < model.world_size
    &&& forall|i: int|
        0 <= i < order.len() - 1 ==> model.link(
            #[trigger] order[i] as int,
            order[i + 1] as int,
        ) is Some
}

proof fn lemma_best_step(model: TopologyModel, order: Seq<u32>, end: int)
    requires
        0 <= end <= model.world_size,
        order.len() > 0,
    ensures
        best_step(model, order, end) matches Some(rank) ==> rank < end && !order.contains(rank)
            && model.link(order.last() as int, rank as int) is Some,
    decreases end,
{
    if end > 0 {
        lemma_best_step(model, order, end - 1);
    }
}

/// A greedy ring that is walked to the end holds every rank of the world once.
pub proof fn lemma_greedy_ring(model: TopologyModel, order: Seq<u32>)
    requires
        0 < order.len() <= model.world_size,
        order.no_duplicates(),
        forall|i: int| 0 <= i < order.len() ==> #[trigger] order[i] < model.world_size,
    ensures
        greedy_ring(model, order) matches Some(ring) ==> is_ring(model.world_size, ring),
    decreases model.world_size - order.len(),
{
    if order.len() < model.world_size {
        lemma_best_step(model, order, model.world_size as int);
        if let Some(rank) = best_step(model, order, model.world_size as int) {
            let longer = order.push(rank);
            assert forall|i: int, j: int|
                0 <= i < longer.len() && 0 <= j < longer.len() && i != j implies longer[i]
                != longer[j] by {
                assert(i < order.len() ==> order.contains(order[i]));
                assert(j < order.len() ==> order.contains(order[j]));
            }
            lemma_greedy_ring(model, longer);
        }
    }
}

/// A greedy ring that is walked to the end takes only linked steps.
pub(crate) proof fn lemma_greedy_linked(model: TopologyModel, order: Seq<u32>)
    requires
        is_greedy_prefix(model, order),
    ensures
        greedy_ring(model, order) matches Some(ring) ==> is_greedy_prefix(model, ring) && ring.len()
            == model.world_size,
    decreases model.world_size - order.len(),
{
    if order.len() < model.world_size {
        lemma_best_step(model, order, model.world_size as int);
        if let Some(rank) = best_step(model, order, model.world_size as int) {
            let longer = order.push(rank);
            assert forall|i: int, j: int|
                0 <= i < longer.len() && 0 <= j < longer.len() && i != j implies longer[i]
                != longer[j] by {
                assert(i < order.len() ==> order.contains(order[i]));
                assert(j < order.len() ==> order.contains(order[j]));
            }
            assert forall|i: int| 0 <= i < longer.len() - 1 implies model.link(
                #[trigger] longer[i] as int,
                longer[i + 1] as int,
            ) is Some by {
                if i < order.len() - 1 {
                    assert(model.link(order[i] as int, order[i + 1] as int) is Some);
                }
            }
            lemma_greedy_linked(model, longer);
        }
    }
}

/// A full list of distinct ranks holds every rank.
pub proof fn lemma_ring_holds_all(world_size: u32, order: Seq<u32>, rank: u32)
    requires
        is_ring(world_size, order),
        rank < world_size,
    ensures
        order.contains(rank),
{
    let values = order.map_values(|r: u32| r as int);
    let all = vstd::set_lib::set_int_range(0, world_size as int);
    let held = values.to_set();
    assert(values.no_duplicates()) by {
        assert forall|i: int, j: int|
            0 <= i < values.len() && 0 <= j < values.len() && i != j implies values[i]
            != values[j] by {
            assert(order[i] != order[j]);
        }
    }
    values.unique_seq_to_set();
    vstd::set_lib::lemma_int_range(0, world_size as int);
    assert(held.subset_of(all)) by {
        assert forall|v: int| held.contains(v) implies all.contains(v) by {
            let k = choose|k: int| 0 <= k < values.len() && values[k] == v;
            assert(order[k] < world_size);
        }
    }
    assert(held.finite());
    vstd::set_lib::lemma_subset_equality(held, all);
    assert(all.contains(rank as int));
    assert(held.contains(rank as int));
    let k = choose|k: int| 0 <= k < values.len() && values[k] == rank as int;
    assert(order[k] == rank);
}

/// Takes the best steps from a rank on until all ranks are there.
fn walk_greedily(topology: &CollectiveTopology, start: u32) -> (result: Option<Vec<u32>>)
    requires
        topology@.valid(),
        start < topology@.world_size,
    ensures
        match greedy_ring(topology@, seq![start]) {
            Some(order) => {
                &&& result is Some
                &&& result->0@ == order
                &&& is_greedy_prefix(topology@, order)
                &&& order.len() == topology@.world_size
            },
            None => result is None,
        },
{
    let ghost model = topology@;
    let mut order: Vec<u32> = Vec::new();
    order.push(start);
    let mut used: Vec<bool> = repeat(false, topology.world_size as usize);
    used.set(start as usize, true);
    proof {
        assert(order@ =~= seq![start]);
        assert forall|v: int| 0 <= v < model.world_size implies (#[trigger] used@[v]
            <==> order@.contains(v as u32)) by {
            assert(order@[0] == start);
        }
    }
    while order.len() < topology.world_size as usize
        invariant
            topology@.valid(),
            model == topology@,
            is_greedy_prefix(model, order@),
            used@.len() == model.world_size,
            forall|v: int|
                0 <= v < model.world_size ==> (#[trigger] used@[v] <==> order@.contains(v as u32)),
            greedy_ring(model, order@) == greedy_ring(model, seq![start]),
        decreases topology.world_size - order@.len(),
    {
        let current: u32 = order[order.len() - 1];
        let mut best: Option<u32> = None;
        let mut rank: u32 = 0;
        while rank < topology.world_size
            invariant
                rank <= topology.world_size,
                topology@.valid(),
                model == topology@,
                order@.len() > 0,
                current == order@.last(),
                current < model.world_size,
                used@.len() == model.world_size,
                forall|v: int|
                    0 <= v < model.world_size ==> (#[trigger] used@[v] <==> order@.contains(
                        v as u32,
                    )),
                best == best_step(model, order@, rank as int),
            decreases topology.world_size - rank,
        {
            proof {
                lemma_best_step(model, order@, rank as int);
            }
            if !used[rank as usize] {
                match (best, topology.link(current, rank)) {
                    (_, None) => {},
                    (None, Some(_)) => {
                        best = Some(rank);
                    },
                    (Some(leader), Some(cost)) => {
                        match topology.link(current, leader) {
                            Some(lead) => {
                                if cost.bandwidth_mbps > lead.bandwidth_mbps || (
                                cost.bandwidth_mbps == lead.bandwidth_mbps && cost.latency_ns
                                    < lead.latency_ns) {
                                    best = Some(rank);
                                }
                            },
                            None => {},
                        }
                    },
                }
            }
            rank = rank + 1;
        }
        proof {
            lemma_best_step(model, order@, model.world_size as int);
        }
        match best {
            Some(next) => {
                let ghost before = order@;
                used.set(next as usize, true);
                order.push(next);
                proof {
                    let longer = order@;
                    assert forall|i: int| 0 <= i < longer.len() - 1 implies model.link(
                        #[trigger] longer[i] as int,
                        longer[i + 1] as int,
                    ) is Some by {
                        if i < before.len() - 1 {
                            assert(longer[i] == before[i]);
                            assert(longer[i + 1] == before[i + 1]);
                        }
                    }
                    assert forall|v: int| 0 <= v < model.world_size implies (#[trigger] used@[v]
                        <==> longer.contains(v as u32)) by {
                        assert(longer.take(before.len() as int) =~= before);
                        assert(longer.take(before.len() as int + 1) =~= longer);
                        lemma_take_contains(longer, before.len() as int);
                        assert(longer.contains(v as u32) <==> before.contains(v as u32) || v as u32
                            == next);
                    }
                }
            },
            None => {
                return None;
            },
        }
    }
    Some(order)
}

/// The place of rank zero.
fn place_of_zero(order: &[u32]) -> (place: usize)
    requires
        order@.contains(0),
        order@.no_duplicates(),
    ensures
        place < order@.len(),
        place == order@.index_of(0),
        order@[place as int] == 0,
{
    let mut place: usize = 0;
    while order[place] != 0
        invariant
            place < order@.len(),
            order@.contains(0),
            order@.no_duplicates(),
            forall|i: int| 0 <= i < place ==> order@[i] != 0,
        decreases order@.len() - place,
    {
        proof {
            let k = choose|k: int| 0 <= k < order@.len() && order@[k] == 0;
            assert(k > place);
        }
        place = place + 1;
    }
    proof {
        let k = order@.index_of(0);
        assert(order@[k] == 0);
        assert(order@[place as int] == order@[k]);
    }
    place
}

/// A ring from rank zero on, in the direction that comes first.
fn rotate_ring_to_zero(order: &[u32]) -> (result: Vec<u32>)
    requires
        order@.contains(0),
        order@.no_duplicates(),
    ensures
        result@ == oriented(rotated(order@, order@.index_of(0))),
{
    let place: usize = place_of_zero(order);
    let mut turned: Vec<u32> = Vec::new();
    let mut index: usize = 0;
    while index < order.len()
        invariant
            index <= order.len(),
            place < order.len(),
            turned@.len() == index,
            forall|i: int|
                0 <= i < index ==> #[trigger] turned@[i] == rotated(order@, place as int)[i],
        decreases order.len() - index,
    {
        if index < order.len() - place {
            turned.push(order[index + place]);
        } else {
            turned.push(order[index - (order.len() - place)]);
        }
        index = index + 1;
    }
    assert(turned@ =~= rotated(order@, place as int));
    let back = reverse_ring(turned.as_slice());
    match compare_ranks(back.as_slice(), turned.as_slice()) {
        Comparison::Before => back,
        _ => turned,
    }
}

/// How often the links of the chosen rings are used already.
pub open spec fn usage_at(usage: Seq<Seq<u16>>, order: Seq<u32>, index: int) -> u16 {
    usage[order[index] as int][order[around(index, order.len() as int)] as int]
}

/// The most used of the first `count` ring links.
pub open spec fn highest_usage(usage: Seq<Seq<u16>>, order: Seq<u32>, count: int) -> int
    decreases count,
{
    if count <= 0 {
        0
    } else {
        max_int(highest_usage(usage, order, count - 1), usage_at(usage, order, count - 1) as int)
    }
}

/// The summed use of the first `count` ring links.
pub open spec fn summed_usage(usage: Seq<Seq<u16>>, order: Seq<u32>, count: int) -> u64
    decreases count,
{
    if count <= 0 {
        0
    } else {
        saturate_u64(
            summed_usage(usage, order, count - 1) + usage_at(usage, order, count - 1),
        )
    }
}

/// One more use of a pair's link in one direction.
pub open spec fn bumped(usage: Seq<Seq<u16>>, first: int, second: int) -> Seq<Seq<u16>> {
    usage.update(
        first,
        usage[first].update(
            second,
            if usage[first][second] == u16::MAX {
                u16::MAX
            } else {
                (usage[first][second] + 1) as u16
            },
        ),
    )
}

/// The use after the first `count` links of a ring were taken, each in both
/// directions.
pub open spec fn usage_after(usage: Seq<Seq<u16>>, order: Seq<u32>, count: int) -> Seq<Seq<u16>>
    decreases count,
{
    if count <= 0 {
        usage
    } else {
        let before = usage_after(usage, order, count - 1);
        let first = order[count - 1] as int;
        let second = order[around(count - 1, order.len() as int)] as int;
        bumped(bumped(before, first, second), second, first)
    }
}

/// `a` is preferred over `b`: its links are used less, or it scores higher.
pub open spec fn preferred(
    model: TopologyModel,
    usage: Seq<Seq<u16>>,
    a: Seq<u32>,
    b: Seq<u32>,
) -> bool {
    let high_a = highest_usage(usage, a, a.len() as int);
    let high_b = highest_usage(usage, b, b.len() as int);
    let sum_a = summed_usage(usage, a, a.len() as int);
    let sum_b = summed_usage(usage, b, b.len() as int);
    if high_a != high_b {
        high_a < high_b
    } else if sum_a != sum_b {
        sum_a < sum_b
    } else {
        model.ring_score(a).above(model.ring_score(b))
    }
}

/// The first of the `count` first rings over which none of them is preferred.
pub open spec fn choice(
    model: TopologyModel,
    usage: Seq<Seq<u16>>,
    rings: Seq<Seq<u32>>,
    count: int,
) -> int
    decreases count,
{
    if count <= 1 {
        0
    } else {
        let best = choice(model, usage, rings, count - 1);
        if preferred(model, usage, rings[count - 1], rings[best]) {
            count - 1
        } else {
            best
        }
    }
}

/// The rings chosen one after the other, each with regard to the use that the
/// earlier ones make of the links.
pub open spec fn chosen_rings(
    model: TopologyModel,
    usage: Seq<Seq<u16>>,
    rings: Seq<Seq<u32>>,
    maximum: nat,
) -> Seq<Seq<u32>>
    decreases maximum,
{
    if maximum == 0 || rings.len() == 0 {
        Seq::empty()
    } else {
        let best = choice(model, usage, rings, rings.len() as int);
        seq![rings[best]] + chosen_rings(
            model,
            usage_after(usage, rings[best], rings[best].len() as int),
            rings.remove(best),
            (maximum - 1) as nat,
        )
    }
}

/// No link used yet.
pub open spec fn unused(size: int) -> Seq<Seq<u16>> {
    Seq::new(size as nat, |i: int| Seq::new(size as nat, |j: int| 0u16))
}

/// Up to `maximum` rings of a topology, best first.
pub open spec fn best_rings(model: TopologyModel, maximum: nat) -> Seq<Seq<u32>> {
    chosen_rings(model, unused(model.world_size as int), ring_candidates(model), maximum)
}

pub proof fn lemma_choice_in_range(
    model: TopologyModel,
    usage: Seq<Seq<u16>>,
    rings: Seq<Seq<u32>>,
    count: int,
)
    requires
        1 <= count <= rings.len(),
    ensures
        0 <= choice(model, usage, rings, count) < count,
    decreases count,
{
    if count > 1 {
        lemma_choice_in_range(model, usage, rings, count - 1);
    }
}

/// Usage tables as sequences.
pub open spec fn usage_rows(rows: Seq<Vec<u16>>) -> Seq<Seq<u16>> {
    Seq::new(rows.len(), |i: int| rows[i]@)
}

pub open spec fn usage_shape(usage: Seq<Seq<u16>>, size: int) -> bool {
    usage.len() == size && forall|i: int| 0 <= i < size ==> (#[trigger] usage[i]).len() == size
}

proof fn lemma_usage_shape(usage: Seq<Seq<u16>>, order: Seq<u32>, count: int, size: int)
    requires
        usage_shape(usage, size),
        0 <= count <= order.len(),
        forall|i: int| 0 <= i < order.len() ==> #[trigger] order[i] < size,
    ensures
        usage_shape(usage_after(usage, order, count), size),
    decreases count,
{
    if count > 0 {
        lemma_usage_shape(usage, order, count - 1, size);
        let first = order[count - 1] as int;
        let second = order[around(count - 1, order.len() as int)] as int;
        let before = usage_after(usage, order, count - 1);
        assert(0 <= first < size && 0 <= second < size);
        assert(usage_shape(bumped(before, first, second), size));
    }
}

fn bump(usage: &mut Vec<Vec<u16>>, first: usize, second: usize)
    requires
        first < old(usage)@.len(),
        second < old(usage)@[first as int]@.len(),
    ensures
        usage_rows(final(usage)@) == bumped(usage_rows(old(usage)@), first as int, second as int),
{
    let ghost before = usage_rows(usage@);
    let count: u16 = usage[first][second];
    let more: u16 = if count == u16::MAX {
        u16::MAX
    } else {
        count + 1
    };
    usage[first][second] = more;
    let ghost after = usage_rows(usage@);
    let ghost wanted = bumped(before, first as int, second as int);
    assert forall|i: int| 0 <= i < wanted.len() implies #[trigger] after[i] == wanted[i] by {
        assert(after[i] =~= wanted[i]);
    }
    assert(after =~= wanted);
}

/// Counts the use that a ring makes of its links.
fn take_links(usage: &mut Vec<Vec<u16>>, order: &[u32], size: Ghost<int>)
    requires
        usage_shape(usage_rows(old(usage)@), size@),
        forall|i: int| 0 <= i < order@.len() ==> #[trigger] order@[i] < size@,
    ensures
        usage_rows(final(usage)@) == usage_after(
            usage_rows(old(usage)@),
            order@,
            order@.len() as int,
        ),
        usage_shape(usage_rows(final(usage)@), size@),
{
    let ghost before = usage_rows(usage@);
    let mut position: usize = 0;
    while position < order.len()
        invariant
            position <= order.len(),
            usage_shape(before, size@),
            forall|i: int| 0 <= i < order@.len() ==> #[trigger] order@[i] < size@,
            usage_rows(usage@) == usage_after(before, order@, position as int),
        decreases order.len() - position,
    {
        let first: usize = order[position] as usize;
        let second: usize = order[next_place(position, order.len())] as usize;
        proof {
            lemma_usage_shape(before, order@, position as int, size@);
            assert(usage_rows(usage@)[first as int].len() == size@);
            assert(usage_rows(usage@)[second as int].len() == size@);
        }
        bump(usage, first, second);
        proof {
            assert(usage_shape(usage_rows(usage@), size@));
            assert(usage_rows(usage@)[second as int].len() == size@);
        }
        bump(usage, second, first);
        position = position + 1;
    }
    proof {
        lemma_usage_shape(before, order@, order@.len() as int, size@);
    }
}

/// The highest and the summed use of a ring's links.
fn measure_usage(usage: &Vec<Vec<u16>>, order: &[u32], size: Ghost<int>) -> (result: (u16, u64))
    requires
        usage_shape(usage_rows(usage@), size@),
        forall|i: int| 0 <= i < order@.len() ==> #[trigger] order@[i] < size@,
    ensures
        result.0 == highest_usage(usage_rows(usage@), order@, order@.len() as int),
        result.1 == summed_usage(usage_rows(usage@), order@, order@.len() as int),
{
    let mut highest: u16 = 0;
    let mut summed: u64 = 0;
    let mut position: usize = 0;
    while position < order.len()
        invariant
            position <= order.len(),
            usage_shape(usage_rows(usage@), size@),
            forall|i: int| 0 <= i < order@.len() ==> #[trigger] order@[i] < size@,
            highest == highest_usage(usage_rows(usage@), order@, position as int),
            summed == summed_usage(usage_rows(usage@), order@, position as int),
        decreases order.len() - position,
    {
        let first: usize = order[position] as usize;
        let second: usize = order[next_place(position, order.len())] as usize;
        assert(usage_rows(usage@)[first as int].len() == size@);
        let count: u16 = usage[first][second];
        if count > highest {
            highest = count;
        }
        summed = saturating_add_u64(summed, count as u64);
        position = position + 1;
    }
    (highest, summed)
}

/// All rings of a list are closed.
pub open spec fn all_closed(model: TopologyModel, rings: Seq<Seq<u32>>) -> bool {
    forall|i: int| 0 <= i < rings.len() ==> model.is_closed_ring(#[trigger] rings[i])
}

/// The place of the ring to choose next.
fn choose_ring(
    topology: &CollectiveTopology,
    usage: &Vec<Vec<u16>>,
    rings: &Vec<Vec<u32>>,
) -> (best: usize)
    requires
        topology@.valid(),
        rings@.len() > 0,
        all_closed(topology@, rank_lists(rings@)),
        usage_shape(usage_rows(usage@), topology@.world_size as int),
    ensures
        best == choice(
            topology@,
            usage_rows(usage@),
            rank_lists(rings@),
            rings@.len() as int,
        ),
        best < rings@.len(),
{
    let ghost model = topology@;
    let ghost table = usage_rows(usage@);
    let ghost lists = rank_lists(rings@);
    let mut best: usize = 0;
    let mut best_usage: (u16, u64) = (0, 0);
    let mut best_score: Option<RingScore> = None;
    let mut index: usize = 0;
    while index < rings.len()
        invariant
            index <= rings.len(),
            topology@.valid(),
            model == topology@,
            table == usage_rows(usage@),
            lists == rank_lists(rings@),
            all_closed(model, lists),
            usage_shape(table, model.world_size as int),
            index > 0 ==> best < index,
            index > 0 ==> best == choice(model, table, lists, index as int),
            index > 0 ==> best_usage.0 == highest_usage(
                table,
                lists[best as int],
                lists[best as int].len() as int,
            ),
            index > 0 ==> best_usage.1 == summed_usage(
                table,
                lists[best as int],
                lists[best as int].len() as int,
            ),
            index == 0 ==> best_score is None,
            index > 0 ==> best_score == Some(model.ring_score(lists[best as int])),
        decreases rings.len() - index,
    {
        assert(model.is_closed_ring(lists[index as int]));
        proof {
            law_accepted_rings(model.world_size, lists[index as int]);
        }
        let order = rings[index].as_slice();
        let (highest, summed) = measure_usage(usage, order, Ghost(model.world_size as int));
        match topology.ring_score(order) {
            Ok(score) => {
                let better = match best_score {
                    None => true,
                    Some(leader) => if highest != best_usage.0 {
                        highest < best_usage.0
                    } else if summed != best_usage.1 {
                        summed < best_usage.1
                    } else {
                        score.exceeds(&leader)
                    },
                };
                if better {
                    best = index;
                    best_usage = (highest, summed);
                    best_score = Some(score);
                }
            },
            Err(_) => {
                proof {
                    assert(false);
                }
            },
        }
        index = index + 1;
    }
    best
}

fn unused_table(size: usize) -> (usage: Vec<Vec<u16>>)
    ensures
        usage_rows(usage@) == unused(size as int),
{
    let mut usage: Vec<Vec<u16>> = Vec::new();
    let mut index: usize = 0;
    while index < size
        invariant
            index <= size,
            usage@.len() == index,
            forall|i: int|
                0 <= i < index ==> (#[trigger] usage@[i])@ == Seq::new(size as nat, |j: int| 0u16),
        decreases size - index,
    {
        usage.push(repeat(0u16, size));
        index = index + 1;
    }
    assert(usage_rows(usage@) =~= unused(size as int));
    usage
}

/// Chooses up to `maximum` rings that share few links.
fn select_diverse_rings(
    topology: &CollectiveTopology,
    candidates: Vec<Vec<u32>>,
    maximum: usize,
) -> (result: Result<Vec<Vec<u32>>, TopologyError>)
    requires
        topology@.valid(),
        all_closed(topology@, rank_lists(candidates@)),
    ensures
        if candidates@.len() == 0 {
            &&& result is Err
            &&& result->Err_0@ == TopologyFailure::InvalidRing(
                "topology does not contain a closed rank ring"@,
            )
        } else {
            &&& result is Ok
            &&& rank_lists(result->Ok_0@) == chosen_rings(
                topology@,
                unused(topology@.world_size as int),
                rank_lists(candidates@),
                maximum as nat,
            )
        },
{
    if candidates.len() == 0 {
        return Err(
            TopologyError::InvalidRing(
                String::from_str("topology does not contain a closed rank ring"),
            ),
        );
    }
    let ghost model = topology@;
    let ghost size = model.world_size as int;
    let mut candidates = candidates;
    let mut usage = unused_table(topology.world_size as usize);
    let mut selected: Vec<Vec<u32>> = Vec::new();
    let ghost wanted = chosen_rings(
        model,
        unused(size),
        rank_lists(candidates@),
        maximum as nat,
    );
    proof {
        assert(rank_lists(selected@) + wanted =~= wanted);
    }
    while selected.len() < maximum && candidates.len() > 0
        invariant
            selected@.len() <= maximum,
            topology@.valid(),
            model == topology@,
            size == model.world_size,
            usage_shape(usage_rows(usage@), size),
            all_closed(model, rank_lists(candidates@)),
            rank_lists(selected@) + chosen_rings(
                model,
                usage_rows(usage@),
                rank_lists(candidates@),
                (maximum - selected@.len()) as nat,
            ) == wanted,
        decreases candidates.len(),
    {
        let best: usize = choose_ring(topology, &usage, &candidates);
        let ghost before = rank_lists(candidates@);
        let ghost taken = rank_lists(selected@);
        let ghost table = usage_rows(usage@);
        let order = candidates.remove(best);
        proof {
            assert(rank_lists(candidates@) =~= before.remove(best as int));
            assert(order@ == before[best as int]);
            assert(model.is_closed_ring(before[best as int]));
            assert forall|i: int| 0 <= i < rank_lists(candidates@).len() implies model.is_closed_ring(
                #[trigger] rank_lists(candidates@)[i],
            ) by {
                if i < best {
                    assert(rank_lists(candidates@)[i] == before[i]);
                } else {
                    assert(rank_lists(candidates@)[i] == before[i + 1]);
                }
            }
        }
        take_links(&mut usage, order.as_slice(), Ghost(size));
        let ghost room = (maximum - selected@.len()) as nat;
        selected.push(order);
        proof {
            assert(rank_lists(selected@) =~= taken.push(before[best as int]));
            let rest = chosen_rings(
                model,
                usage_rows(usage@),
                rank_lists(candidates@),
                (room - 1) as nat,
            );
            assert(chosen_rings(model, table, before, room) == seq![before[best as int]] + rest);
            assert(taken + (seq![before[best as int]] + rest) =~= rank_lists(selected@) + rest);
        }
    }
    assert(rank_lists(selected@) + Seq::<Seq<u32>>::empty() =~= rank_lists(selected@));
    Ok(selected)
}

/// Why a topology has no ring to offer, if it has none.
pub open spec fn no_ring(model: TopologyModel) -> bool {
    model.world_size > 1 && ring_candidates(model).len() == 0
}

/// How many rings a topology has to offer.
pub open spec fn ring_count(model: TopologyModel) -> int {
    if model.world_size == 1 {
        1
    } else {
        ring_candidates(model).len() as int
    }
}

/// No two of the rings use the same links.
pub open spec fn links_apart(rings: Seq<Seq<u32>>) -> bool {
    forall|i: int, j: int|
        0 <= i < rings.len() && 0 <= j < rings.len() && i != j ==> !same_links(
            #[trigger] rings[i],
            #[trigger] rings[j],
        )
}

/// The rings that a topology offers, best first.
pub open spec fn offered_rings(model: TopologyModel, maximum: nat) -> Seq<Seq<u32>> {
    if maximum == 0 {
        Seq::empty()
    } else if model.world_size == 1 {
        seq![seq![0u32]]
    } else {
        best_rings(model, maximum)
    }
}

pub(crate) proof fn lemma_greedy_candidate_closed(model: TopologyModel, start: u32)
    requires
        model.valid(),
        start < model.world_size,
        greedy_ring(model, seq![start]) matches Some(order) ==> is_greedy_prefix(model, order)
            && order.len() == model.world_size,
    ensures
        greedy_candidate(model, start) matches Some(ring) ==> model.is_closed_ring(ring),
{
    if let Some(ring) = greedy_candidate(model, start) {
        let order = greedy_ring(model, seq![start])->0;
        assert forall|i: int| 0 <= i < order.len() implies (#[trigger] model.ring_link(
            order,
            i,
        )) is Some by {
            if i < order.len() - 1 {
                assert(model.link(order[i] as int, order[i + 1] as int) is Some);
            }
        }
        assert(model.is_closed_ring(order));
        lemma_ring_holds_all(model.world_size, order, 0);
        lemma_rotated_closed(model, order, order.index_of(0));
        lemma_reversed_closed(model, rotated(order, order.index_of(0)));
    }
}

/// Chosen rings are candidates, none of them twice, and no more than asked.
proof fn lemma_chosen_rings(
    model: TopologyModel,
    usage: Seq<Seq<u16>>,
    rings: Seq<Seq<u32>>,
    maximum: nat,
)
    requires
        rings.no_duplicates(),
    ensures
        chosen_rings(model, usage, rings, maximum).len() == (if maximum <= rings.len() {
            maximum
        } else {
            rings.len()
        }),
        chosen_rings(model, usage, rings, maximum).no_duplicates(),
        forall|i: int|
            0 <= i < chosen_rings(model, usage, rings, maximum).len() ==> rings.contains(
                #[trigger] chosen_rings(model, usage, rings, maximum)[i],
            ),
    decreases maximum,
{
    if maximum > 0 && rings.len() > 0 {
        let best = choice(model, usage, rings, rings.len() as int);
        lemma_choice_in_range(model, usage, rings, rings.len() as int);
        let fewer = rings.remove(best);
        let later = usage_after(usage, rings[best], rings[best].len() as int);
        assert(fewer.no_duplicates()) by {
            assert forall|i: int, j: int|
                0 <= i < fewer.len() && 0 <= j < fewer.len() && i != j implies fewer[i]
                != fewer[j] by {
                let a = if i < best {
                    i
                } else {
                    i + 1
                };
                let b = if j < best {
                    j
                } else {
                    j + 1
                };
                assert(rings[a] != rings[b]);
            }
        }
        lemma_chosen_rings(model, later, fewer, (maximum - 1) as nat);
        let rest = chosen_rings(model, later, fewer, (maximum - 1) as nat);
        let all = chosen_rings(model, usage, rings, maximum);
        assert(all == seq![rings[best]] + rest);
        assert forall|i: int| 0 <= i < all.len() implies rings.contains(#[trigger] all[i]) && (i > 0
            ==> all[i] != rings[best]) by {
            if i == 0 {
                assert(all[0] == rings[best]);
            } else {
                assert(all[i] == rest[i - 1]);
                assert(fewer.contains(rest[i - 1]));
                let k = choose|k: int| 0 <= k < fewer.len() && fewer[k] == rest[i - 1];
                let a = if k < best {
                    k
                } else {
                    k + 1
                };
                assert(rings[a] == rest[i - 1]);
                assert(rings[a] != rings[best]);
            }
        }
        assert forall|i: int, j: int|
            0 <= i < all.len() && 0 <= j < all.len() && i != j implies all[i] != all[j] by {
            if i > 0 && j > 0 {
                assert(rest[i - 1] != rest[j - 1]);
            } else if i == 0 {
                assert(all[j] != rings[best]);
            } else {
                assert(all[i] != rings[best]);
            }
        }
    }
}

proof fn lemma_unused(size: int, order: Seq<u32>, count: int)
    requires
        0 <= count <= order.len(),
        forall|i: int| 0 <= i < order.len() ==> #[trigger] order[i] < size,
    ensures
        highest_usage(unused(size), order, count) == 0,
        summed_usage(unused(size), order, count) == 0,
    decreases count,
{
    if count > 0 {
        lemma_unused(size, order, count - 1);
        assert(order[count - 1] < size);
        assert(order[around(count - 1, order.len() as int)] < size);
        assert(usage_at(unused(size), order, count - 1) == 0);
    }
}

/// The first ring that is chosen scores highest.
proof fn lemma_first_choice(model: TopologyModel, rings: Seq<Seq<u32>>, count: int, other: int)
    requires
        1 <= count <= rings.len(),
        0 <= other < count,
        all_closed(model, rings),
    ensures
        !model.ring_score(rings[other]).above(
            model.ring_score(
                rings[choice(model, unused(model.world_size as int), rings, count)],
            ),
        ),
    decreases count,
{
    let usage = unused(model.world_size as int);
    if count > 1 {
        let best = choice(model, usage, rings, count - 1);
        lemma_choice_in_range(model, usage, rings, count - 1);
        let last = rings[count - 1];
        assert(model.is_closed_ring(last));
        assert(model.is_closed_ring(rings[best]));
        lemma_unused(model.world_size as int, last, last.len() as int);
        lemma_unused(model.world_size as int, rings[best], rings[best].len() as int);
        if other < count - 1 {
            lemma_first_choice(model, rings, count - 1, other);
        }
    }
}

/// What the offered rings are: every one closed, none offered twice, no more
/// than asked, and none of the candidates scores higher than the first.
pub proof fn lemma_offered_rings(model: TopologyModel, maximum: nat)
    requires
        model.valid(),
        model.world_size > 1,
        lists_candidates(model, ring_candidates(model)),
        all_closed(model, ring_candidates(model)),
    ensures
        ({
            let offered = offered_rings(model, maximum);
            &&& offered.len() == (if maximum <= ring_count(model) {
                maximum as int
            } else {
                ring_count(model)
            })
            &&& offered.no_duplicates()
            &&& all_closed(model, offered)
            &&& forall|i: int|
                0 <= i < offered.len() ==> is_candidate(model, #[trigger] offered[i])
            &&& offered.len() > 0 ==> forall|ring: Seq<u32>| #[trigger]
                is_candidate(model, ring) ==> !model.ring_score(ring).above(
                    model.ring_score(offered[0]),
                )
        }),
{
    let rings = ring_candidates(model);
    let usage = unused(model.world_size as int);
    assert(rings.no_duplicates()) by {
        assert forall|i: int, j: int|
            0 <= i < rings.len() && 0 <= j < rings.len() && i != j implies rings[i] != rings[j] by {
            if i < j {
                assert(lex_less(rings[i], rings[j]));
            } else {
                assert(lex_less(rings[j], rings[i]));
            }
            lemma_lex_irreflexive(rings[i]);
        }
    }
    lemma_chosen_rings(model, usage, rings, maximum);
    let offered = offered_rings(model, maximum);
    if maximum > 0 {
        assert forall|i: int| 0 <= i < offered.len() implies is_candidate(
            model,
            #[trigger] offered[i],
        ) && model.is_closed_ring(offered[i]) by {
            assert(rings.contains(offered[i]));
            let k = choose|k: int| 0 <= k < rings.len() && rings[k] == offered[i];
            assert(model.is_closed_ring(rings[k]));
        }
        if offered.len() > 0 {
            assert forall|ring: Seq<u32>| #[trigger]
                is_candidate(model, ring) implies !model.ring_score(ring).above(
                model.ring_score(offered[0]),
            ) by {
                assert(rings.contains(ring));
                let k = choose|k: int| 0 <= k < rings.len() && rings[k] == ring;
                lemma_first_choice(model, rings, rings.len() as int, k);
            }
        }
    }
}

impl CollectiveTopology {
    pub fn best_ring_order(&self) -> (result: Result<Vec<u32>, TopologyError>)
        requires
            self@.valid(),
        ensures
            if no_ring(self@) {
                &&& result is Err
                &&& result->Err_0@ == TopologyFailure::InvalidRing(
                    "topology does not contain a closed rank ring"@,
                )
            } else {
                &&& result is Ok
                &&& result->Ok_0@ == offered_rings(self@, 1)[0]
                &&& is_ring(self@.world_size, result->Ok_0@)
            },
    {
        match self.best_ring_orders(1) {
            Ok(orders) => {
                let mut orders = orders;
                proof {
                    assert(rank_lists(orders@).len() > 0) by {
                        if self@.world_size > 1 {
                            assert(best_rings(self@, 1).len() > 0);
                        }
                    }
                    assert(rank_lists(orders@)[0] == orders@[0]@);
                }
                Ok(orders.remove(0))
            },
            Err(error) => Err(error),
        }
    }

    pub fn best_ring_orders(&self, maximum: usize) -> (result: Result<Vec<Vec<u32>>, TopologyError>)
        requires
            self@.valid(),
        ensures
            if maximum > 0 && no_ring(self@) {
                &&& result is Err
                &&& result->Err_0@ == TopologyFailure::InvalidRing(
                    "topology does not contain a closed rank ring"@,
                )
            } else {
                &&& result is Ok
                &&& rank_lists(result->Ok_0@) == offered_rings(self@, maximum as nat)
            },
            lists_candidates(self@, ring_candidates(self@)),
            result matches Ok(orders) ==> {
                let offered = rank_lists(orders@);
                &&& offered.len() == (if maximum <= ring_count(self@) {
                    maximum as int
                } else {
                    ring_count(self@)
                })
                &&& links_apart(offered)
                &&& offered.no_duplicates()
                &&& forall|i: int|
                    0 <= i < offered.len() ==> is_ring(self@.world_size, #[trigger] offered[i])
                &&& self@.world_size > 1 ==> all_closed(self@, offered)
                &&& self@.world_size > 1 && offered.len() > 0 ==> forall|ring: Seq<u32>| #[trigger]
                    is_candidate(self@, ring) ==> !self@.ring_score(ring).above(
                        self@.ring_score(offered[0]),
                    )
            },
    {
        let ghost model = self@;
        proof {
            lemma_candidates_listed(model);
        }
        if maximum == 0 {
            let nothing: Vec<Vec<u32>> = Vec::new();
            assert(rank_lists(nothing@) =~= Seq::<Seq<u32>>::empty());
            return Ok(nothing);
        }
        if self.world_size == 1 {
            let mut order: Vec<u32> = Vec::new();
            order.push(0);
            let mut orders: Vec<Vec<u32>> = Vec::new();
            orders.push(order);
            assert(orders@[0]@ =~= seq![0u32]);
            assert(rank_lists(orders@) =~= seq![seq![0u32]]);
            return Ok(orders);
        }
        let mut candidates: Vec<Vec<u32>> = Vec::new();
        assert(strictly_sorted(rank_lists(candidates@)));
        if self.world_size <= EXACT_RING_SEARCH_MAX_RANKS {
            let mut order: Vec<u32> = Vec::new();
            order.push(0);
            let mut used: Vec<bool> = repeat(false, self.world_size as usize);
            used.set(0, true);
            proof {
                assert(order@[0] == 0);
                assert forall|v: int| 0 <= v < model.world_size implies (#[trigger] used@[v]
                    <==> order@.contains(v as u32)) by {
                    assert(order@[0] == 0);
                }
            }
            let ghost prefix = order@;
            collect_rings(self, &mut order, &mut used, &mut candidates);
            proof {
                let rings = rank_lists(candidates@);
                assert forall|r: Seq<u32>| #[trigger] rings.contains(r) <==> is_candidate(
                    model,
                    r,
                ) by {
                    if is_exact_candidate(model, r) {
                        assert(r.take(1) =~= prefix);
                    }
                }
                assert(lists_candidates(model, rings));
                assert forall|i: int| 0 <= i < rings.len() implies model.is_closed_ring(
                    #[trigger] rings[i],
                ) by {
                    assert(rings.contains(rings[i]));
                }
            }
        } else {
            let mut start: u32 = 0;
            while start < self.world_size
                invariant
                    start <= self.world_size,
                    self@.valid(),
                    model == self@,
                    strictly_sorted(rank_lists(candidates@)),
                    forall|r: Seq<u32>| #[trigger]
                        rank_lists(candidates@).contains(r) <==> exists|s: u32|
                            s < start && #[trigger] greedy_candidate(model, s) == Some(r),
                    forall|r: Seq<u32>| #[trigger]
                        rank_lists(candidates@).contains(r) ==> model.is_closed_ring(r),
                decreases self.world_size - start,
            {
                let ghost before = rank_lists(candidates@);
                match walk_greedily(self, start) {
                    Some(order) => {
                        proof {
                            lemma_greedy_candidate_closed(model, start);
                        }
                        let last: u32 = order[order.len() - 1];
                        if self.link(last, order[0]).is_some() {
                            proof {
                                lemma_ring_holds_all(model.world_size, order@, 0);
                            }
                            insert_sorted(&mut candidates, rotate_ring_to_zero(order.as_slice()));
                        }
                    },
                    None => {},
                }
                proof {
                    let after = rank_lists(candidates@);
                    assert forall|r: Seq<u32>| #[trigger] after.contains(r) <==> exists|s: u32|
                        s < start + 1 && #[trigger] greedy_candidate(model, s) == Some(r) by {
                        assert(after.contains(r) <==> before.contains(r) || greedy_candidate(
                            model,
                            start,
                        ) == Some(r));
                        if before.contains(r) {
                            let s = choose|s: u32|
                                s < start && #[trigger] greedy_candidate(model, s) == Some(r);
                            assert(s < start + 1 && greedy_candidate(model, s) == Some(r));
                        }
                        if exists|s: u32|
                            s < start + 1 && #[trigger] greedy_candidate(model, s) == Some(r) {
                            let s = choose|s: u32|
                                s < start + 1 && #[trigger] greedy_candidate(model, s) == Some(r);
                            if s < start {
                                assert(before.contains(r));
                            }
                        }
                    }
                }
                start = start + 1;
            }
            proof {
                let rings = rank_lists(candidates@);
                assert(lists_candidates(model, rings));
                assert forall|i: int| 0 <= i < rings.len() implies model.is_closed_ring(
                    #[trigger] rings[i],
                ) by {
                    assert(rings.contains(rings[i]));
                }
            }
        }
        proof {
            lemma_ring_candidates(model, rank_lists(candidates@));
            lemma_offered_rings(model, maximum as nat);
            let offered = offered_rings(model, maximum as nat);
            assert forall|i: int| 0 <= i < offered.len() implies is_ring(
                model.world_size,
                #[trigger] offered[i],
            ) by {
                assert(model.is_closed_ring(offered[i]));
            }
            assert forall|i: int, j: int|
                0 <= i < offered.len() && 0 <= j < offered.len() && i != j implies !same_links(
                #[trigger] offered[i],
                #[trigger] offered[j],
            ) by {
                lemma_candidates_apart(model, offered[i], offered[j]);
            }
        }
        select_diverse_rings(self, candidates, maximum)
    }
}

} // verus!

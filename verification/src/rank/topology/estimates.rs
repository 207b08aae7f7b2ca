//! Cost estimates and plans.

use crate::math::{
    ceiling_div, max_int, saturate_u128, saturate_u64, saturate_usize, saturating_add_u128,
    saturating_add_u64, saturating_mul_u128, saturating_mul_u64, saturating_mul_usize,
};
use crate::rank::layout::{balanced_len, rank_lists};
use crate::rank::topology::cycles::heads;
use crate::rank::topology::groups::is_hierarchy;
use crate::rank::topology::links::{table, CollectiveTopology, TopologyModel};
use crate::rank::topology::paths::{
    repeat, saturating_u64, transfer_time_ns_u128, wide_transfer_time,
};
use crate::rank::topology::rings::{around, is_ring, next_place};
use crate::rank::topology::stripes::{
    channel_count, channels_for, flows_inside, part_size, rail_slots, rails_for, striped, Flow,
};
use crate::rank::topology::tuning::{CollectiveTuning, TuningModel};
use crate::rank::topology::{
    AlgorithmPolicy, CollectiveAutotuneEntry, CollectiveKind, CollectivePlan,
    CollectivePlanSource,
};
use crate::rank::CollectiveAlgorithm;
use vstd::prelude::*;

verus! {

/// The flows of one channel of a ring step.
pub open spec fn ring_flows(order: Seq<u32>, bytes: int) -> Seq<Flow> {
    Seq::new(
        order.len(),
        |p: int|
            Flow {
                source: order[p],
                destination: order[around(p, order.len() as int)],
                bytes: bytes as usize,
            },
    )
}

/// The place `step` places further on a ring.
pub open spec fn shifted(place: int, step: int, length: int) -> int {
    if place + step < length {
        place + step
    } else {
        place + step - length
    }
}

/// The flows of one channel of a pairwise step.
pub open spec fn pairwise_flows(order: Seq<u32>, step: int, bytes: int) -> Seq<Flow> {
    Seq::new(
        order.len(),
        |p: int|
            Flow {
                source: order[p],
                destination: order[shifted(p, step, order.len() as int)],
                bytes: bytes as usize,
            },
    )
}

/// The flows of one channel of a ring step whose places send different sizes.
pub open spec fn uneven_flows(order: Seq<u32>, bytes: Seq<usize>, channels: int, channel: int) -> Seq<
    Flow,
> {
    Seq::new(
        order.len(),
        |p: int|
            Flow {
                source: order[p],
                destination: order[around(p, order.len() as int)],
                bytes: balanced_len(bytes[p] as int, channels, channel) as usize,
            },
    )
}

/// The largest of the first `count` sizes.
pub open spec fn largest(sizes: Seq<usize>, count: int) -> int
    decreases count,
{
    if count <= 0 {
        0
    } else {
        max_int(largest(sizes, count - 1), sizes[count - 1] as int)
    }
}

impl TopologyModel {
    /// The time of one pairwise step.
    pub open spec fn pairwise_step(
        self,
        order: Seq<u32>,
        bytes: int,
        channels: int,
        rail_order: Seq<usize>,
        step: int,
    ) -> Option<u64> {
        striped(
            self,
            Seq::new(
                channels as nat,
                |c: int| pairwise_flows(order, step, balanced_len(bytes, channels, c)),
            ),
            rail_order,
            rails_for(rail_order.len() as int, channels),
            true,
        )
    }

    /// The time of the pairwise steps below `steps`.
    pub open spec fn pairwise_steps(
        self,
        order: Seq<u32>,
        bytes: int,
        channels: int,
        rail_order: Seq<usize>,
        steps: int,
    ) -> Option<u64>
        decreases steps,
    {
        if steps <= 1 {
            Some(0)
        } else {
            match (
                self.pairwise_steps(order, bytes, channels, rail_order, steps - 1),
                self.pairwise_step(order, bytes, channels, rail_order, steps - 1),
            ) {
                (Some(total), Some(time)) => Some(saturate_u64(total + time)),
                _ => None,
            }
        }
    }

    /// The time in which every rank sends some bytes to every other one.
    pub open spec fn pairwise_time(
        self,
        order: Seq<u32>,
        bytes: int,
        channel_count: int,
        rail_order: Seq<usize>,
    ) -> Option<u64> {
        if order.len() <= 1 {
            Some(0)
        } else if rail_order.len() == 0 {
            None
        } else {
            self.pairwise_steps(
                order,
                bytes,
                channels_for(channel_count, bytes),
                rail_order,
                order.len() as int,
            )
        }
    }

    /// The summed times between a leader and the members before `count`.
    pub open spec fn local_time(
        self,
        group: Seq<u32>,
        bytes: int,
        to_leader: bool,
        count: int,
    ) -> Option<u64>
        decreases count,
    {
        if count <= 1 {
            Some(0)
        } else {
            match (
                self.local_time(group, bytes, to_leader, count - 1),
                if to_leader {
                    self.route_time(group[count - 1] as int, group[0] as int, bytes)
                } else {
                    self.route_time(group[0] as int, group[count - 1] as int, bytes)
                },
            ) {
                (Some(total), Some(time)) => Some(saturate_u64(total + time)),
                _ => None,
            }
        }
    }

    /// The slowest of the first `count` groups.
    pub open spec fn slowest_group(
        self,
        groups: Seq<Seq<u32>>,
        bytes: int,
        to_leader: bool,
        count: int,
    ) -> Option<u64>
        decreases count,
    {
        if count <= 0 {
            Some(0)
        } else {
            match (
                self.slowest_group(groups, bytes, to_leader, count - 1),
                self.local_time(
                    groups[count - 1],
                    bytes,
                    to_leader,
                    groups[count - 1].len() as int,
                ),
            ) {
                (Some(slowest), Some(time)) => Some(
                    if slowest >= time {
                        slowest
                    } else {
                        time
                    },
                ),
                _ => None,
            }
        }
    }
}

impl TuningModel {
    /// The time of one step of all ring channels.
    pub open spec fn multi_ring_step(self, bytes: int) -> Option<u64> {
        let channels = channels_for(self.ring_channels as int, bytes);
        striped(
            self.topology,
            Seq::new(
                channels as nat,
                |c: int| ring_flows(self.ring_for_channel(c), balanced_len(bytes, channels, c)),
            ),
            self.rail_order(),
            rails_for(self.rail_order().len() as int, channels),
            false,
        )
    }

    /// The time of one ring step whose places send different sizes.
    pub open spec fn striped_ring_step(self, order: Seq<u32>, bytes: Seq<usize>) -> Option<u64> {
        if order.len() != bytes.len() {
            None
        } else {
            let channels = channels_for(
                self.ring_channels as int,
                largest(bytes, bytes.len() as int),
            );
            striped(
                self.topology,
                Seq::new(
                    channels as nat,
                    |c: int| uneven_flows(order, bytes, channels, c),
                ),
                self.rail_order(),
                rails_for(self.rail_order().len() as int, channels),
                true,
            )
        }
    }

    /// The time over the coordinator: everyone sends, everyone receives.
    pub open spec fn direct_estimate(self, kind: CollectiveKind, payload: usize) -> u64 {
        let ranks = self.ring_order.len();
        if ranks <= 1 {
            0
        } else {
            let response = match kind {
                CollectiveKind::AllReduce | CollectiveKind::AllToAll => payload as int,
                CollectiveKind::AllGather => saturate_u128(payload * ranks) as int,
                CollectiveKind::ReduceScatter => ceiling_div(payload as int, ranks as int),
            };
            let aggregate = saturate_u128(ranks * saturate_u128(payload + response));
            let latency = saturate_u128(saturate_u128(self.direct_latency_ns * 2) * ranks);
            saturate_u64(
                saturate_u128(
                    wide_transfer_time(aggregate, self.direct_bandwidth_mbps) + latency,
                ) as int,
            )
        }
    }

    /// The time over rings, or over pairs for an all-to-all.
    pub open spec fn peer_estimate(self, kind: CollectiveKind, payload: usize) -> Option<u64> {
        let ranks = self.ring_order.len();
        let chunk = ceiling_div(payload as int, ranks as int);
        if ranks <= 1 {
            Some(0)
        } else {
            match kind {
                CollectiveKind::AllReduce => match self.multi_ring_step(chunk) {
                    Some(step) => Some(saturate_u64(step * (2 * (ranks - 1)))),
                    None => None,
                },
                CollectiveKind::AllGather => match self.multi_ring_step(payload as int) {
                    Some(step) => Some(saturate_u64(step * (ranks - 1))),
                    None => None,
                },
                CollectiveKind::ReduceScatter => match self.multi_ring_step(chunk) {
                    Some(step) => Some(saturate_u64(step * (ranks - 1))),
                    None => None,
                },
                CollectiveKind::AllToAll => self.topology.pairwise_time(
                    self.ring_order,
                    chunk,
                    self.ring_channels as int,
                    self.rail_order(),
                ),
            }
        }
    }

    /// What the leaders send in one step: the bundles of the groups, each one
    /// `back` places behind its sender.
    pub open spec fn bundle_sizes(groups: Seq<Seq<u32>>, unit: usize, back: int) -> Seq<usize> {
        Seq::new(
            groups.len(),
            |p: int|
                saturate_usize(
                    groups[shifted(
                        p,
                        groups.len() - back,
                        groups.len() as int,
                    )].len() * unit,
                ),
        )
    }

    /// The time in which the leaders pass `steps` bundles on, the first of them
    /// `first` places behind.
    pub open spec fn bundle_steps(
        self,
        groups: Seq<Seq<u32>>,
        unit: usize,
        first: int,
        steps: int,
    ) -> Option<u64>
        decreases steps,
    {
        if steps <= 0 {
            Some(0)
        } else {
            match (
                self.bundle_steps(groups, unit, first, steps - 1),
                self.striped_ring_step(
                    heads(groups),
                    TuningModel::bundle_sizes(groups, unit, first + steps - 1),
                ),
            ) {
                (Some(total), Some(time)) => Some(saturate_u64(total + time)),
                _ => None,
            }
        }
    }

    /// The time between the leaders.
    pub open spec fn leader_estimate(
        self,
        kind: CollectiveKind,
        groups: Seq<Seq<u32>>,
        payload: usize,
    ) -> Option<u64> {
        let leaders = groups.len() as int;
        match kind {
            CollectiveKind::AllReduce => {
                let chunk = ceiling_div(payload as int, leaders) as usize;
                match self.striped_ring_step(
                    heads(groups),
                    Seq::new(groups.len(), |p: int| chunk),
                ) {
                    Some(step) => Some(saturate_u64(step * (2 * (leaders - 1)))),
                    None => None,
                }
            },
            CollectiveKind::ReduceScatter => self.bundle_steps(
                groups,
                ceiling_div(payload as int, self.ring_order.len() as int) as usize,
                1,
                leaders - 1,
            ),
            CollectiveKind::AllGather => self.bundle_steps(groups, payload, 0, leaders - 1),
            CollectiveKind::AllToAll => None,
        }
    }

    /// What a leader hands to each member.
    pub open spec fn member_bytes(self, kind: CollectiveKind, payload: usize) -> int {
        let ranks = self.ring_order.len() as int;
        match kind {
            CollectiveKind::AllReduce => payload as int,
            CollectiveKind::AllGather => saturate_usize(payload * ranks) as int,
            _ => ceiling_div(payload as int, ranks),
        }
    }

    /// The time over groups: to the leaders, between them, and back.
    pub open spec fn hierarchical_estimate(self, kind: CollectiveKind, payload: usize) -> Option<
        u64,
    > {
        match self.hierarchy_groups {
            None => None,
            Some(groups) => if kind == CollectiveKind::AllToAll {
                None
            } else {
                match (
                    self.topology.slowest_group(
                        groups,
                        payload as int,
                        true,
                        groups.len() as int,
                    ),
                    self.leader_estimate(kind, groups, payload),
                    self.topology.slowest_group(
                        groups,
                        self.member_bytes(kind, payload),
                        false,
                        groups.len() as int,
                    ),
                ) {
                    (Some(gather), Some(inter), Some(distribute)) => Some(
                        saturate_u64(saturate_u64(gather + inter) + distribute),
                    ),
                    _ => None,
                }
            },
        }
    }

    /// Whether a measurement is for a collective of this kind and size.
    pub open spec fn measures(
        entry: CollectiveAutotuneEntry,
        kind: CollectiveKind,
        payload: usize,
    ) -> bool {
        entry.operation == kind && entry.min_payload_bytes <= payload <= entry.max_payload_bytes
    }

    /// The first measurement at or behind `from` that applies.
    pub open spec fn measured_from(
        entries: Seq<CollectiveAutotuneEntry>,
        kind: CollectiveKind,
        payload: usize,
        from: int,
    ) -> Option<CollectiveAutotuneEntry>
        decreases entries.len() - from,
    {
        if from < 0 || from >= entries.len() {
            None
        } else if TuningModel::measures(entries[from], kind, payload) {
            Some(entries[from])
        } else {
            TuningModel::measured_from(entries, kind, payload, from + 1)
        }
    }

    /// The measurement that applies, where a profile has one.
    pub open spec fn measured(self, kind: CollectiveKind, payload: usize) -> Option<
        CollectiveAutotuneEntry,
    > {
        match self.autotune_profile {
            Some(profile) => TuningModel::measured_from(profile.entries, kind, payload, 0),
            None => None,
        }
    }

    /// The algorithm that runs over peers.
    pub open spec fn peer_algorithm(kind: CollectiveKind) -> CollectiveAlgorithm {
        if kind == CollectiveKind::AllToAll {
            CollectiveAlgorithm::Pairwise
        } else {
            CollectiveAlgorithm::Ring
        }
    }

    /// The fastest algorithm by the estimates: a later one only where it is
    /// faster than all before it.
    pub open spec fn fastest_algorithm(self, kind: CollectiveKind, payload: usize) -> CollectiveAlgorithm {
        let direct = self.direct_estimate(kind, payload);
        let (algorithm, best) = match self.peer_estimate(kind, payload) {
            Some(time) => if time < direct {
                (TuningModel::peer_algorithm(kind), time)
            } else {
                (CollectiveAlgorithm::Direct, direct)
            },
            None => (CollectiveAlgorithm::Direct, direct),
        };
        match self.hierarchical_estimate(kind, payload) {
            Some(time) => if kind != CollectiveKind::AllToAll && time < best {
                CollectiveAlgorithm::Hierarchical
            } else {
                algorithm
            },
            None => algorithm,
        }
    }

    /// The algorithm, where it comes from, and its measured time.
    pub open spec fn selection(self, kind: CollectiveKind, payload: usize) -> (
        CollectiveAlgorithm,
        CollectivePlanSource,
        Option<CollectiveAutotuneEntry>,
    ) {
        if self.ring_order.len() <= 1 {
            (
                CollectiveAlgorithm::Direct,
                if self.algorithm_policy == AlgorithmPolicy::Auto {
                    CollectivePlanSource::Model
                } else {
                    CollectivePlanSource::Policy
                },
                None,
            )
        } else {
            match self.algorithm_policy {
                AlgorithmPolicy::Direct => (
                    CollectiveAlgorithm::Direct,
                    CollectivePlanSource::Policy,
                    None,
                ),
                AlgorithmPolicy::Ring => (
                    TuningModel::peer_algorithm(kind),
                    CollectivePlanSource::Policy,
                    None,
                ),
                AlgorithmPolicy::Hierarchical => (
                    if kind != CollectiveKind::AllToAll && self.hierarchical_estimate(
                        kind,
                        payload,
                    ) is Some {
                        CollectiveAlgorithm::Hierarchical
                    } else {
                        TuningModel::peer_algorithm(kind)
                    },
                    CollectivePlanSource::Policy,
                    None,
                ),
                AlgorithmPolicy::Auto => match self.measured(kind, payload) {
                    Some(entry) => (entry.algorithm, CollectivePlanSource::Autotune, Some(entry)),
                    None => (
                        if payload < self.ring_threshold_bytes {
                            CollectiveAlgorithm::Direct
                        } else {
                            self.fastest_algorithm(kind, payload)
                        },
                        CollectivePlanSource::Model,
                        None,
                    ),
                },
            }
        }
    }

    /// The plan for a collective.
    pub open spec fn plan(self, kind: CollectiveKind, payload: usize) -> CollectivePlan {
        let (algorithm, source, measured) = self.selection(kind, payload);
        let direct = self.direct_estimate(kind, payload);
        let peer = self.peer_estimate(kind, payload);
        let hierarchical = self.hierarchical_estimate(kind, payload);
        CollectivePlan {
            algorithm,
            source,
            estimated_time_ns: match measured {
                Some(entry) => entry.measured_time_ns,
                None => match algorithm {
                    CollectiveAlgorithm::Direct => direct,
                    CollectiveAlgorithm::Ring | CollectiveAlgorithm::Pairwise => match peer {
                        Some(time) => time,
                        None => u64::MAX,
                    },
                    CollectiveAlgorithm::Hierarchical => match hierarchical {
                        Some(time) => time,
                        None => u64::MAX,
                    },
                },
            },
            direct_estimated_time_ns: direct,
            peer_estimated_time_ns: peer,
            hierarchical_estimated_time_ns: hierarchical,
            ring_channels: match measured {
                Some(entry) => entry.ring_channels,
                None => self.ring_channels,
            },
        }
    }
}

fn ceil_div(numerator: usize, denominator: usize) -> (quotient: usize)
    requires
        denominator > 0,
    ensures
        quotient == ceiling_div(numerator as int, denominator as int),
        quotient <= numerator,
{
    proof {
        vstd::arithmetic::div_mod::lemma_fundamental_div_mod(
            numerator as int,
            denominator as int,
        );
        vstd::arithmetic::div_mod::lemma_div_is_ordered_by_denominator(
            numerator as int,
            1,
            denominator as int,
        );
        if numerator % denominator != 0 {
            if denominator == 1 {
                assert(numerator as int % 1 == 0);
            } else {
                assert(numerator / denominator < numerator) by {
                    if numerator > 0 {
                        vstd::arithmetic::div_mod::lemma_div_decreases(
                            numerator as int,
                            denominator as int,
                        );
                    }
                }
            }
        }
    }
    if numerator % denominator == 0 {
        numerator / denominator
    } else {
        numerator / denominator + 1
    }
}

impl CollectiveTopology {
    /// The time in which every rank sends some bytes to every other one.
    pub fn pairwise_time_ns(
        &self,
        order: &[u32],
        bytes_per_peer: usize,
        channel_limit: usize,
        rail_order: &[usize],
    ) -> (time: Option<u64>)
        requires
            self@.valid(),
            forall|i: int| 0 <= i < order@.len() ==> #[trigger] order@[i] < self@.world_size,
        ensures
            time == self@.pairwise_time(
                order@,
                bytes_per_peer as int,
                channel_limit as int,
                rail_order@,
            ),
    {
        if order.len() <= 1 {
            return Some(0);
        }
        if rail_order.len() == 0 {
            return None;
        }
        let channels: usize = channel_count(channel_limit, bytes_per_peer);
        let rails: usize = rail_slots(rail_order.len(), channels);
        let mut total: u64 = 0;
        let mut step: usize = 1;
        while step < order.len()
            invariant
                1 <= step <= order@.len(),
                self@.valid(),
                forall|i: int| 0 <= i < order@.len() ==> #[trigger] order@[i] < self@.world_size,
                channels == channels_for(channel_limit as int, bytes_per_peer as int),
                channels >= 1,
                rails == rails_for(rail_order@.len() as int, channels as int),
                rail_order@.len() > 0,
                self@.pairwise_steps(
                    order@,
                    bytes_per_peer as int,
                    channels as int,
                    rail_order@,
                    step as int,
                ) == Some(total),
            decreases order@.len() - step,
        {
            let mut flows: Vec<Vec<Flow>> = Vec::new();
            let mut channel: usize = 0;
            let ghost wanted = Seq::new(
                channels as nat,
                |c: int|
                    pairwise_flows(
                        order@,
                        step as int,
                        balanced_len(bytes_per_peer as int, channels as int, c),
                    ),
            );
            while channel < channels
                invariant
                    channel <= channels,
                    1 <= step < order@.len(),
                    forall|i: int|
                        0 <= i < order@.len() ==> #[trigger] order@[i] < self@.world_size,
                    wanted == Seq::new(
                        channels as nat,
                        |c: int|
                            pairwise_flows(
                                order@,
                                step as int,
                                balanced_len(bytes_per_peer as int, channels as int, c),
                            ),
                    ),
                    flows@.len() == channel,
                    forall|c: int| 0 <= c < channel ==> (#[trigger] flows@[c])@ == wanted[c],
                decreases channels - channel,
            {
                let bytes: usize = part_size(bytes_per_peer, channels, channel);
                let mut list: Vec<Flow> = Vec::new();
                let mut position: usize = 0;
                while position < order.len()
                    invariant
                        position <= order@.len(),
                        1 <= step < order@.len(),
                        list@.len() == position,
                        forall|p: int|
                            0 <= p < position ==> #[trigger] list@[p] == pairwise_flows(
                                order@,
                                step as int,
                                bytes as int,
                            )[p],
                    decreases order@.len() - position,
                {
                    let place: usize = if position < order.len() - step {
                        position + step
                    } else {
                        position - (order.len() - step)
                    };
                    list.push(
                        Flow { source: order[position], destination: order[place], bytes },
                    );
                    position = position + 1;
                }
                assert(list@ =~= wanted[channel as int]);
                flows.push(list);
                channel = channel + 1;
            }
            proof {
                assert(table(flows@) =~= wanted);
                assert forall|c: int| 0 <= c < wanted.len() implies flows_inside(
                    #[trigger] wanted[c],
                    self@.world_size as int,
                ) by {
                    let list = wanted[c];
                    assert forall|i: int| 0 <= i < list.len() implies (#[trigger] list[i]).source
                        < self@.world_size && list[i].destination < self@.world_size by {
                        assert(order@[i] < self@.world_size);
                        assert(order@[shifted(i, step as int, order@.len() as int)]
                            < self@.world_size);
                    }
                }
                lemma_pairwise_none(
                    self@,
                    order@,
                    bytes_per_peer as int,
                    channels as int,
                    rail_order@,
                    step + 1,
                    order@.len() as int,
                );
            }
            match self.striped_time(&flows, rail_order, rails, true) {
                Some(time) => {
                    total = saturating_add_u64(total, time);
                },
                None => {
                    return None;
                },
            }
            step = step + 1;
        }
        Some(total)
    }

    fn local_total(&self, group: &[u32], bytes: usize, to_leader: bool) -> (total: Option<u64>)
        requires
            self@.valid(),
            group@.len() > 0,
            forall|i: int| 0 <= i < group@.len() ==> #[trigger] group@[i] < self@.world_size,
        ensures
            total == self@.local_time(group@, bytes as int, to_leader, group@.len() as int),
    {
        let leader: u32 = group[0];
        let mut total: u64 = 0;
        let mut index: usize = 1;
        while index < group.len()
            invariant
                1 <= index <= group@.len(),
                self@.valid(),
                leader == group@[0],
                forall|i: int| 0 <= i < group@.len() ==> #[trigger] group@[i] < self@.world_size,
                self@.local_time(group@, bytes as int, to_leader, index as int) == Some(total),
            decreases group@.len() - index,
        {
            let member: u32 = group[index];
            assert(group@[0] < self@.world_size);
            assert(group@[index as int] < self@.world_size);
            let time = if to_leader {
                self.shortest_transfer_time_ns(member, leader, bytes)
            } else {
                self.shortest_transfer_time_ns(leader, member, bytes)
            };
            proof {
                lemma_local_none(
                    self@,
                    group@,
                    bytes as int,
                    to_leader,
                    index + 1,
                    group@.len() as int,
                );
            }
            match time {
                Some(time) => {
                    total = saturating_add_u64(total, time);
                },
                None => {
                    return None;
                },
            }
            index = index + 1;
        }
        Some(total)
    }

    fn slowest_local(&self, groups: &[Vec<u32>], bytes: usize, to_leader: bool) -> (time: Option<
        u64,
    >)
        requires
            self@.valid(),
            is_hierarchy(self@.world_size, rank_lists(groups@)),
        ensures
            time == self@.slowest_group(
                rank_lists(groups@),
                bytes as int,
                to_leader,
                groups@.len() as int,
            ),
    {
        let ghost model = rank_lists(groups@);
        let mut slowest: u64 = 0;
        let mut index: usize = 0;
        while index < groups.len()
            invariant
                index <= groups@.len(),
                self@.valid(),
                model == rank_lists(groups@),
                is_hierarchy(self@.world_size, model),
                self@.slowest_group(model, bytes as int, to_leader, index as int) == Some(slowest),
            decreases groups@.len() - index,
        {
            proof {
                assert(model[index as int] == groups@[index as int]@);
                assert(model[index as int].len() > 0);
                assert forall|i: int|
                    0 <= i < groups@[index as int]@.len() implies #[trigger] groups@[index as int]@[i]
                    < self@.world_size by {
                    assert(model[index as int][i] < self@.world_size);
                }
                lemma_groups_none(
                    self@,
                    model,
                    bytes as int,
                    to_leader,
                    index + 1,
                    model.len() as int,
                );
            }
            match self.local_total(groups[index].as_slice(), bytes, to_leader) {
                Some(time) => {
                    if time > slowest {
                        slowest = time;
                    }
                },
                None => {
                    return None;
                },
            }
            index = index + 1;
        }
        Some(slowest)
    }
}

proof fn lemma_pairwise_none(
    model: TopologyModel,
    order: Seq<u32>,
    bytes: int,
    channels: int,
    rail_order: Seq<usize>,
    steps: int,
    end: int,
)
    requires
        steps <= end,
    ensures
        model.pairwise_steps(order, bytes, channels, rail_order, steps) is None
            ==> model.pairwise_steps(order, bytes, channels, rail_order, end) is None,
    decreases end - steps,
{
    if steps < end {
        lemma_pairwise_none(model, order, bytes, channels, rail_order, steps, end - 1);
    }
}

proof fn lemma_local_none(
    model: TopologyModel,
    group: Seq<u32>,
    bytes: int,
    to_leader: bool,
    count: int,
    end: int,
)
    requires
        count <= end,
    ensures
        model.local_time(group, bytes, to_leader, count) is None ==> model.local_time(
            group,
            bytes,
            to_leader,
            end,
        ) is None,
    decreases end - count,
{
    if count < end {
        lemma_local_none(model, group, bytes, to_leader, count, end - 1);
    }
}

proof fn lemma_groups_none(
    model: TopologyModel,
    groups: Seq<Seq<u32>>,
    bytes: int,
    to_leader: bool,
    count: int,
    end: int,
)
    requires
        count <= end,
    ensures
        model.slowest_group(groups, bytes, to_leader, count) is None ==> model.slowest_group(
            groups,
            bytes,
            to_leader,
            end,
        ) is None,
    decreases end - count,
{
    if count < end {
        lemma_groups_none(model, groups, bytes, to_leader, count, end - 1);
    }
}

proof fn lemma_bundles_none(
    model: TuningModel,
    groups: Seq<Seq<u32>>,
    unit: usize,
    first: int,
    steps: int,
    end: int,
)
    requires
        steps <= end,
    ensures
        model.bundle_steps(groups, unit, first, steps) is None ==> model.bundle_steps(
            groups,
            unit,
            first,
            end,
        ) is None,
    decreases end - steps,
{
    if steps < end {
        lemma_bundles_none(model, groups, unit, first, steps, end - 1);
    }
}

impl CollectiveTuning {
    /// The time of one step of all ring channels.
    pub fn multi_ring_step_time_ns(&self, bytes: usize) -> (time: Option<u64>)
        requires
            self@.valid(),
        ensures
            time == self@.multi_ring_step(bytes as int),
    {
        let ghost model = self@;
        let channels: usize = channel_count(self.ring_channels, bytes);
        let rail_order = self.rail_order();
        let rails: usize = rail_slots(rail_order.len(), channels);
        let mut flows: Vec<Vec<Flow>> = Vec::new();
        let ghost wanted = Seq::new(
            channels as nat,
            |c: int|
                ring_flows(
                    model.ring_for_channel(c),
                    balanced_len(bytes as int, channels as int, c),
                ),
        );
        let mut channel: usize = 0;
        while channel < channels
            invariant
                channel <= channels,
                model == self@,
                self@.valid(),
                wanted == Seq::new(
                    channels as nat,
                    |c: int|
                        ring_flows(
                            model.ring_for_channel(c),
                            balanced_len(bytes as int, channels as int, c),
                        ),
                ),
                flows@.len() == channel,
                forall|c: int| 0 <= c < channel ==> (#[trigger] flows@[c])@ == wanted[c],
            decreases channels - channel,
        {
            let part: usize = part_size(bytes, channels, channel);
            let order = self.ring_order_for_channel(channel);
            let list = ring_step_flows(order, part);
            assert(list@ =~= wanted[channel as int]);
            flows.push(list);
            channel = channel + 1;
        }
        proof {
            assert(table(flows@) =~= wanted);
            assert forall|c: int| 0 <= c < wanted.len() implies flows_inside(
                #[trigger] wanted[c],
                model.topology.world_size as int,
            ) by {
                let order = model.ring_for_channel(c);
                vstd::arithmetic::div_mod::lemma_mod_bound(c, model.ring_orders.len() as int);
                assert(is_ring(model.topology.world_size, order));
                lemma_ring_flows_inside(
                    model.topology.world_size,
                    order,
                    balanced_len(bytes as int, channels as int, c),
                );
            }
        }
        self.topology.striped_time(&flows, rail_order.as_slice(), rails, false)
    }

    /// The time of one ring step whose places send different sizes.
    pub fn striped_ring_step_time_ns(&self, order: &[u32], bytes_by_position: &[usize]) -> (time:
        Option<u64>)
        requires
            self@.valid(),
            forall|i: int|
                0 <= i < order@.len() ==> #[trigger] order@[i] < self@.topology.world_size,
        ensures
            time == self@.striped_ring_step(order@, bytes_by_position@),
    {
        if order.len() != bytes_by_position.len() {
            return None;
        }
        let ghost model = self@;
        let mut maximum: usize = 0;
        let mut index: usize = 0;
        while index < bytes_by_position.len()
            invariant
                index <= bytes_by_position@.len(),
                maximum == largest(bytes_by_position@, index as int),
            decreases bytes_by_position@.len() - index,
        {
            if bytes_by_position[index] > maximum {
                maximum = bytes_by_position[index];
            }
            index = index + 1;
        }
        let channels: usize = channel_count(self.ring_channels, maximum);
        let rail_order = self.rail_order();
        let rails: usize = rail_slots(rail_order.len(), channels);
        let mut flows: Vec<Vec<Flow>> = Vec::new();
        let ghost wanted = Seq::new(
            channels as nat,
            |c: int| uneven_flows(order@, bytes_by_position@, channels as int, c),
        );
        let mut channel: usize = 0;
        while channel < channels
            invariant
                channel <= channels,
                order@.len() == bytes_by_position@.len(),
                wanted == Seq::new(
                    channels as nat,
                    |c: int| uneven_flows(order@, bytes_by_position@, channels as int, c),
                ),
                flows@.len() == channel,
                forall|c: int| 0 <= c < channel ==> (#[trigger] flows@[c])@ == wanted[c],
            decreases channels - channel,
        {
            let mut list: Vec<Flow> = Vec::new();
            let mut position: usize = 0;
            while position < order.len()
                invariant
                    position <= order@.len(),
                    channel < channels,
                    order@.len() == bytes_by_position@.len(),
                    list@.len() == position,
                    forall|p: int|
                        0 <= p < position ==> #[trigger] list@[p] == uneven_flows(
                            order@,
                            bytes_by_position@,
                            channels as int,
                            channel as int,
                        )[p],
                decreases order@.len() - position,
            {
                let bytes: usize = part_size(bytes_by_position[position], channels, channel);
                list.push(
                    Flow {
                        source: order[position],
                        destination: order[next_place(position, order.len())],
                        bytes,
                    },
                );
                position = position + 1;
            }
            assert(list@ =~= wanted[channel as int]);
            flows.push(list);
            channel = channel + 1;
        }
        proof {
            assert(table(flows@) =~= wanted);
            assert forall|c: int| 0 <= c < wanted.len() implies flows_inside(
                #[trigger] wanted[c],
                model.topology.world_size as int,
            ) by {
                let list = wanted[c];
                assert forall|i: int| 0 <= i < list.len() implies (#[trigger] list[i]).source
                    < model.topology.world_size && list[i].destination
                    < model.topology.world_size by {
                    assert(order@[i] < model.topology.world_size);
                    assert(order@[around(i, order@.len() as int)] < model.topology.world_size);
                }
            }
        }
        self.topology.striped_time(&flows, rail_order.as_slice(), rails, true)
    }

    pub fn direct_estimated_time_ns(&self, kind: CollectiveKind, payload_bytes: usize) -> (time:
        u64)
        requires
            self@.valid(),
        ensures
            time == self@.direct_estimate(kind, payload_bytes),
    {
        let ranks: u128 = self.ring_order.len() as u128;
        if ranks <= 1 {
            return 0;
        }
        let payload: u128 = payload_bytes as u128;
        let response: u128 = match kind {
            CollectiveKind::AllReduce | CollectiveKind::AllToAll => payload,
            CollectiveKind::AllGather => saturating_mul_u128(payload, ranks),
            CollectiveKind::ReduceScatter => ceil_div(
                payload_bytes,
                self.ring_order.len(),
            ) as u128,
        };
        let aggregate: u128 = saturating_mul_u128(ranks, saturating_add_u128(payload, response));
        let transfer: u128 = transfer_time_ns_u128(aggregate, self.direct_bandwidth_mbps);
        let latency: u128 = saturating_mul_u128(
            saturating_mul_u128(self.direct_latency_ns as u128, 2),
            ranks,
        );
        saturating_u64(saturating_add_u128(transfer, latency))
    }

    pub fn peer_estimated_time_ns(&self, kind: CollectiveKind, payload_bytes: usize) -> (time:
        Option<u64>)
        requires
            self@.valid(),
        ensures
            time == self@.peer_estimate(kind, payload_bytes),
    {
        let ranks: usize = self.ring_order.len();
        if ranks <= 1 {
            return Some(0);
        }
        let rail_order = self.rail_order();
        let chunk_bytes: usize = ceil_div(payload_bytes, ranks);
        let hops: u64 = ranks as u64 - 1;
        match kind {
            CollectiveKind::AllReduce => match self.multi_ring_step_time_ns(chunk_bytes) {
                Some(step) => Some(saturating_mul_u64(step, 2 * hops)),
                None => None,
            },
            CollectiveKind::AllGather => match self.multi_ring_step_time_ns(payload_bytes) {
                Some(step) => Some(saturating_mul_u64(step, hops)),
                None => None,
            },
            CollectiveKind::ReduceScatter => match self.multi_ring_step_time_ns(chunk_bytes) {
                Some(step) => Some(saturating_mul_u64(step, hops)),
                None => None,
            },
            CollectiveKind::AllToAll => self.topology.pairwise_time_ns(
                self.ring_order.as_slice(),
                chunk_bytes,
                self.ring_channels,
                rail_order.as_slice(),
            ),
        }
    }

    /// The time in which the leaders pass bundles on.
    fn bundle_time_ns(
        &self,
        groups: &[Vec<u32>],
        leaders: &Vec<u32>,
        unit: usize,
        first: usize,
    ) -> (time: Option<u64>)
        requires
            self@.valid(),
            is_hierarchy(self@.topology.world_size, rank_lists(groups@)),
            leaders@ == heads(rank_lists(groups@)),
            forall|i: int|
                0 <= i < leaders@.len() ==> #[trigger] leaders@[i] < self@.topology.world_size,
            first <= 1,
        ensures
            time == self@.bundle_steps(
                rank_lists(groups@),
                unit,
                first as int,
                groups@.len() - 1,
            ),
    {
        let ghost model = self@;
        let ghost lists = rank_lists(groups@);
        let count: usize = groups.len();
        let mut total: u64 = 0;
        let mut step: usize = 0;
        while step < count - 1
            invariant
                step <= count - 1,
                count == groups@.len(),
                count >= 2,
                first <= 1,
                model == self@,
                self@.valid(),
                lists == rank_lists(groups@),
                leaders@ == heads(lists),
                forall|i: int|
                    0 <= i < leaders@.len() ==> #[trigger] leaders@[i] < self@.topology.world_size,
                model.bundle_steps(lists, unit, first as int, step as int) == Some(total),
            decreases count - step,
        {
            let back: usize = first + step;
            let mut bytes: Vec<usize> = Vec::new();
            let mut position: usize = 0;
            while position < count
                invariant
                    position <= count,
                    count == groups@.len(),
                    count >= 2,
                    back == first + step,
                    step < count - 1,
                    first <= 1,
                    lists == rank_lists(groups@),
                    bytes@.len() == position,
                    forall|p: int|
                        0 <= p < position ==> #[trigger] bytes@[p] == TuningModel::bundle_sizes(
                            lists,
                            unit,
                            back as int,
                        )[p],
                decreases count - position,
            {
                let place: usize = if position < back {
                    position + (count - back)
                } else {
                    position - back
                };
                proof {
                    assert(place == shifted(position as int, count - back, count as int));
                    assert(lists[place as int] == groups@[place as int]@);
                }
                bytes.push(saturating_mul_usize(groups[place].len(), unit));
                position = position + 1;
            }
            proof {
                assert(bytes@ =~= TuningModel::bundle_sizes(lists, unit, back as int));
                lemma_bundles_none(model, lists, unit, first as int, step + 1, count - 1);
            }
            match self.striped_ring_step_time_ns(leaders.as_slice(), bytes.as_slice()) {
                Some(time) => {
                    total = saturating_add_u64(total, time);
                },
                None => {
                    return None;
                },
            }
            step = step + 1;
        }
        Some(total)
    }

    pub fn hierarchical_estimated_time_ns(&self, kind: CollectiveKind, payload_bytes: usize) -> (time:
        Option<u64>)
        requires
            self@.valid(),
        ensures
            time == self@.hierarchical_estimate(kind, payload_bytes),
    {
        let ghost model = self@;
        let groups = match &self.hierarchy_groups {
            Some(groups) => groups.as_slice(),
            None => {
                return None;
            },
        };
        if kind == CollectiveKind::AllToAll {
            return None;
        }
        let ghost lists = rank_lists(groups@);
        let gather: u64 = match self.topology.slowest_local(groups, payload_bytes, true) {
            Some(time) => time,
            None => {
                return None;
            },
        };
        let leaders = group_leaders(groups);
        let count: usize = groups.len();
        let ranks: usize = self.ring_order.len();
        proof {
            assert forall|i: int| 0 <= i < leaders@.len() implies #[trigger] leaders@[i]
                < model.topology.world_size by {
                assert(lists[i].len() > 0);
                assert(lists[i][0] < model.topology.world_size);
            }
        }
        let inter: u64 = match kind {
            CollectiveKind::AllReduce => {
                let chunk: usize = ceil_div(payload_bytes, count);
                let sizes = repeat(chunk, count);
                assert(sizes@ =~= Seq::new(lists.len(), |p: int| chunk));
                match self.striped_ring_step_time_ns(leaders.as_slice(), sizes.as_slice()) {
                    Some(step) => {
                        proof {
                            lemma_group_count(model.topology.world_size, lists);
                        }
                        saturating_mul_u64(step, 2 * (count as u64 - 1))
                    },
                    None => {
                        return None;
                    },
                }
            },
            CollectiveKind::ReduceScatter => {
                let shard: usize = ceil_div(payload_bytes, ranks);
                match self.bundle_time_ns(groups, &leaders, shard, 1) {
                    Some(time) => time,
                    None => {
                        return None;
                    },
                }
            },
            _ => match self.bundle_time_ns(groups, &leaders, payload_bytes, 0) {
                Some(time) => time,
                None => {
                    return None;
                },
            },
        };
        let member_bytes: usize = match kind {
            CollectiveKind::AllReduce => payload_bytes,
            CollectiveKind::AllGather => saturating_mul_usize(payload_bytes, ranks),
            _ => ceil_div(payload_bytes, ranks),
        };
        match self.topology.slowest_local(groups, member_bytes, false) {
            Some(distribute) => Some(
                saturating_add_u64(saturating_add_u64(gather, inter), distribute),
            ),
            None => None,
        }
    }

    /// The measurement that applies, where a profile has one.
    pub fn autotune_entry(&self, kind: CollectiveKind, payload_bytes: usize) -> (entry: Option<
        CollectiveAutotuneEntry,
    >)
        ensures
            entry == self@.measured(kind, payload_bytes),
    {
        match &self.autotune_profile {
            Some(profile) => {
                let mut index: usize = 0;
                while index < profile.entries.len()
                    invariant
                        index <= profile.entries@.len(),
                        self@.autotune_profile == Some(profile@),
                        TuningModel::measured_from(profile.entries@, kind, payload_bytes, 0)
                            == TuningModel::measured_from(
                            profile.entries@,
                            kind,
                            payload_bytes,
                            index as int,
                        ),
                    decreases profile.entries@.len() - index,
                {
                    let entry = profile.entries[index];
                    if entry.operation == kind && payload_bytes as u64 >= entry.min_payload_bytes
                        && payload_bytes as u64 <= entry.max_payload_bytes {
                        return Some(entry);
                    }
                    index = index + 1;
                }
                None
            },
            None => None,
        }
    }

    pub fn plan(&self, kind: CollectiveKind, payload_bytes: usize) -> (plan: CollectivePlan)
        requires
            self@.valid(),
        ensures
            plan == self@.plan(kind, payload_bytes),
    {
        let direct_estimated_time_ns: u64 = self.direct_estimated_time_ns(kind, payload_bytes);
        let peer_algorithm = if kind == CollectiveKind::AllToAll {
            CollectiveAlgorithm::Pairwise
        } else {
            CollectiveAlgorithm::Ring
        };
        let peer_estimated_time_ns = self.peer_estimated_time_ns(kind, payload_bytes);
        let hierarchical_estimated_time_ns = self.hierarchical_estimated_time_ns(
            kind,
            payload_bytes,
        );
        let mut ring_channels: usize = self.ring_channels;
        let mut measured_time_ns: Option<u64> = None;
        let (algorithm, source) = if self.ring_order.len() <= 1 {
            (
                CollectiveAlgorithm::Direct,
                match self.algorithm_policy {
                    AlgorithmPolicy::Auto => CollectivePlanSource::Model,
                    _ => CollectivePlanSource::Policy,
                },
            )
        } else {
            match self.algorithm_policy {
                AlgorithmPolicy::Direct => (
                    CollectiveAlgorithm::Direct,
                    CollectivePlanSource::Policy,
                ),
                AlgorithmPolicy::Ring => (peer_algorithm, CollectivePlanSource::Policy),
                AlgorithmPolicy::Hierarchical => {
                    if kind != CollectiveKind::AllToAll
                        && hierarchical_estimated_time_ns.is_some() {
                        (CollectiveAlgorithm::Hierarchical, CollectivePlanSource::Policy)
                    } else {
                        (peer_algorithm, CollectivePlanSource::Policy)
                    }
                },
                AlgorithmPolicy::Auto => match self.autotune_entry(kind, payload_bytes) {
                    Some(entry) => {
                        ring_channels = entry.ring_channels;
                        measured_time_ns = Some(entry.measured_time_ns);
                        (entry.algorithm, CollectivePlanSource::Autotune)
                    },
                    None => {
                        if payload_bytes < self.ring_threshold_bytes {
                            (CollectiveAlgorithm::Direct, CollectivePlanSource::Model)
                        } else {
                            let mut best = CollectiveAlgorithm::Direct;
                            let mut best_time: u64 = direct_estimated_time_ns;
                            match peer_estimated_time_ns {
                                Some(estimate) => {
                                    if estimate < best_time {
                                        best = peer_algorithm;
                                        best_time = estimate;
                                    }
                                },
                                None => {},
                            }
                            if kind != CollectiveKind::AllToAll {
                                match hierarchical_estimated_time_ns {
                                    Some(estimate) => {
                                        if estimate < best_time {
                                            best = CollectiveAlgorithm::Hierarchical;
                                        }
                                    },
                                    None => {},
                                }
                            }
                            (best, CollectivePlanSource::Model)
                        }
                    },
                },
            }
        };
        let estimated_time_ns: u64 = match measured_time_ns {
            Some(time) => time,
            None => match algorithm {
                CollectiveAlgorithm::Direct => direct_estimated_time_ns,
                CollectiveAlgorithm::Ring
                | CollectiveAlgorithm::Pairwise => match peer_estimated_time_ns {
                    Some(time) => time,
                    None => u64::MAX,
                },
                CollectiveAlgorithm::Hierarchical => match hierarchical_estimated_time_ns {
                    Some(time) => time,
                    None => u64::MAX,
                },
            },
        };
        CollectivePlan {
            algorithm,
            source,
            estimated_time_ns,
            direct_estimated_time_ns,
            peer_estimated_time_ns,
            hierarchical_estimated_time_ns,
            ring_channels,
        }
    }

    pub fn all_reduce_algorithm(&self, payload_bytes: usize) -> (algorithm: CollectiveAlgorithm)
        requires
            self@.valid(),
        ensures
            algorithm == self@.plan(CollectiveKind::AllReduce, payload_bytes).algorithm,
    {
        self.plan(CollectiveKind::AllReduce, payload_bytes).algorithm
    }

    pub fn all_gather_algorithm(&self, payload_bytes: usize) -> (algorithm: CollectiveAlgorithm)
        requires
            self@.valid(),
        ensures
            algorithm == self@.plan(CollectiveKind::AllGather, payload_bytes).algorithm,
    {
        self.plan(CollectiveKind::AllGather, payload_bytes).algorithm
    }

    pub fn reduce_scatter_algorithm(&self, payload_bytes: usize) -> (algorithm:
        CollectiveAlgorithm)
        requires
            self@.valid(),
        ensures
            algorithm == self@.plan(CollectiveKind::ReduceScatter, payload_bytes).algorithm,
    {
        self.plan(CollectiveKind::ReduceScatter, payload_bytes).algorithm
    }

    pub fn all_to_all_algorithm(&self, payload_bytes: usize) -> (algorithm: CollectiveAlgorithm)
        requires
            self@.valid(),
        ensures
            algorithm == self@.plan(CollectiveKind::AllToAll, payload_bytes).algorithm,
    {
        self.plan(CollectiveKind::AllToAll, payload_bytes).algorithm
    }
}

/// The flows of one channel of a ring step.
fn ring_step_flows(order: &[u32], bytes: usize) -> (flows: Vec<Flow>)
    ensures
        flows@ == ring_flows(order@, bytes as int),
{
    let mut flows: Vec<Flow> = Vec::new();
    let mut position: usize = 0;
    while position < order.len()
        invariant
            position <= order@.len(),
            flows@.len() == position,
            forall|p: int|
                0 <= p < position ==> #[trigger] flows@[p] == ring_flows(order@, bytes as int)[p],
        decreases order@.len() - position,
    {
        flows.push(
            Flow {
                source: order[position],
                destination: order[next_place(position, order.len())],
                bytes,
            },
        );
        position = position + 1;
    }
    assert(flows@ =~= ring_flows(order@, bytes as int));
    flows
}

proof fn lemma_ring_flows_inside(world_size: u32, order: Seq<u32>, bytes: int)
    requires
        is_ring(world_size, order),
    ensures
        flows_inside(ring_flows(order, bytes), world_size as int),
{
    let list = ring_flows(order, bytes);
    assert forall|i: int| 0 <= i < list.len() implies (#[trigger] list[i]).source < world_size
        && list[i].destination < world_size by {
        assert(order[i] < world_size);
        assert(order[around(i, order.len() as int)] < world_size);
    }
}

/// The first member of each group.
pub fn group_leaders(groups: &[Vec<u32>]) -> (leaders: Vec<u32>)
    requires
        forall|g: int| 0 <= g < groups@.len() ==> (#[trigger] rank_lists(groups@)[g]).len() > 0,
    ensures
        leaders@ == heads(rank_lists(groups@)),
{
    let mut leaders: Vec<u32> = Vec::new();
    let mut index: usize = 0;
    while index < groups.len()
        invariant
            index <= groups@.len(),
            forall|g: int|
                0 <= g < groups@.len() ==> (#[trigger] rank_lists(groups@)[g]).len() > 0,
            leaders@.len() == index,
            forall|g: int|
                0 <= g < index ==> #[trigger] leaders@[g] == heads(rank_lists(groups@))[g],
        decreases groups@.len() - index,
    {
        assert(rank_lists(groups@)[index as int].len() > 0);
        leaders.push(groups[index][0]);
        index = index + 1;
    }
    assert(leaders@ =~= heads(rank_lists(groups@)));
    leaders
}

/// A partition has no more groups than the world has ranks.
pub proof fn lemma_group_count(world_size: u32, groups: Seq<Seq<u32>>)
    requires
        is_hierarchy(world_size, groups),
    ensures
        groups.len() <= world_size,
{
    let leaders = heads(groups).map_values(|r: u32| r as int);
    let all = vstd::set_lib::set_int_range(0, world_size as int);
    let held = leaders.to_set();
    assert(leaders.no_duplicates()) by {
        assert forall|i: int, j: int|
            0 <= i < leaders.len() && 0 <= j < leaders.len() && i != j implies leaders[i]
            != leaders[j] by {
            assert(groups[i].len() > 0 && groups[j].len() > 0);
            assert(groups[i][0] != groups[j][0]);
        }
    }
    leaders.unique_seq_to_set();
    vstd::set_lib::lemma_int_range(0, world_size as int);
    assert(held.subset_of(all)) by {
        assert forall|v: int| held.contains(v) implies all.contains(v) by {
            let k = choose|k: int| 0 <= k < leaders.len() && leaders[k] == v;
            assert(groups[k].len() > 0);
            assert(groups[k][0] < world_size);
        }
    }
    vstd::set_lib::lemma_len_subset(held, all);
}

} // verus!

//! A tuning: a topology, the rings, rails and groups to run over it, and
//! measured choices.

use crate::rank::layout::rank_lists;
use crate::rank::topology::channels::{channel_rings, ring_orders_with_primary};
use crate::rank::topology::groups::is_hierarchy;
use crate::rank::topology::links::{
    CollectiveTopology, TopologyAggregateLink, TopologyLink, TopologyModel, TopologyRailLink,
};
use crate::rank::topology::links::{
    aggregate_links_of, links_of, rail_links_of, rank_pairs_of,
};
use crate::rank::topology::rails::is_rail_order;
use crate::rank::topology::rings::{
    is_ring, law_accepted_rings, no_ring, offered_rings, ring_defect, validate_ring_order,
};
use crate::rank::topology::{
    AlgorithmPolicy, CollectiveAutotuneEntry, CollectiveAutotuneProfile, TopologyError,
    TopologyFailure, DEFAULT_BANDWIDTH_MBPS, DEFAULT_LATENCY_NS, MAX_P2P_RAILS, MAX_RING_CHANNELS,
};
use crate::rank::CollectiveTransport;
use vstd::prelude::*;
use vstd::string::*;

verus! {

#[derive(Debug, Clone, PartialEq, Eq)]
pub struct CollectiveTuning {
    pub algorithm_policy: AlgorithmPolicy,
    pub ring_threshold_bytes: usize,
    pub ring_order: Vec<u32>,
    pub ring_orders: Vec<Vec<u32>>,
    pub ring_channels: usize,
    pub p2p_rails: usize,
    pub rail_order_override: Option<Vec<usize>>,
    pub hierarchy_groups: Option<Vec<Vec<u32>>>,
    pub topology: CollectiveTopology,
    pub direct_bandwidth_mbps: u64,
    pub direct_latency_ns: u64,
    pub transport: CollectiveTransport,
    pub autotune_profile: Option<CollectiveAutotuneProfile>,
}

/// A profile as plain data.
pub struct ProfileModel {
    pub version: u32,
    pub world_size: u32,
    pub topology_fingerprint: Seq<char>,
    pub execution_fingerprint: Seq<char>,
    pub entries: Seq<CollectiveAutotuneEntry>,
}

impl View for CollectiveAutotuneProfile {
    type V = ProfileModel;

    open spec fn view(&self) -> ProfileModel {
        ProfileModel {
            version: self.version,
            world_size: self.world_size,
            topology_fingerprint: self.topology_fingerprint@,
            execution_fingerprint: self.execution_fingerprint@,
            entries: self.entries@,
        }
    }
}

/// A tuning as plain data.
pub struct TuningModel {
    pub algorithm_policy: AlgorithmPolicy,
    pub ring_threshold_bytes: usize,
    pub ring_order: Seq<u32>,
    pub ring_orders: Seq<Seq<u32>>,
    pub ring_channels: usize,
    pub p2p_rails: usize,
    pub rail_order_override: Option<Seq<usize>>,
    pub hierarchy_groups: Option<Seq<Seq<u32>>>,
    pub topology: TopologyModel,
    pub direct_bandwidth_mbps: u64,
    pub direct_latency_ns: u64,
    pub transport: CollectiveTransport,
    pub autotune_profile: Option<ProfileModel>,
}

impl View for CollectiveTuning {
    type V = TuningModel;

    open spec fn view(&self) -> TuningModel {
        TuningModel {
            algorithm_policy: self.algorithm_policy,
            ring_threshold_bytes: self.ring_threshold_bytes,
            ring_order: self.ring_order@,
            ring_orders: rank_lists(self.ring_orders@),
            ring_channels: self.ring_channels,
            p2p_rails: self.p2p_rails,
            rail_order_override: match self.rail_order_override {
                Some(order) => Some(order@),
                None => None,
            },
            hierarchy_groups: match self.hierarchy_groups {
                Some(groups) => Some(rank_lists(groups@)),
                None => None,
            },
            topology: self.topology@,
            direct_bandwidth_mbps: self.direct_bandwidth_mbps,
            direct_latency_ns: self.direct_latency_ns,
            transport: self.transport,
            autotune_profile: match self.autotune_profile {
                Some(profile) => Some(profile@),
                None => None,
            },
        }
    }
}

impl TuningModel {
    /// The rings hold every rank once, the counts are in range, and what is
    /// configured fits the topology.
    pub open spec fn valid(self) -> bool {
        &&& self.topology.valid()
        &&& is_ring(self.topology.world_size, self.ring_order)
        &&& self.ring_orders.len() > 0
        &&& forall|i: int|
            0 <= i < self.ring_orders.len() ==> is_ring(
                self.topology.world_size,
                #[trigger] self.ring_orders[i],
            )
        &&& 0 < self.ring_channels <= MAX_RING_CHANNELS
        &&& 0 < self.p2p_rails <= MAX_P2P_RAILS
        &&& self.rail_order_override matches Some(order) ==> is_rail_order(
            self.p2p_rails as int,
            order,
        )
        &&& self.hierarchy_groups matches Some(groups) ==> is_hierarchy(
            self.topology.world_size,
            groups,
        )
        &&& self.direct_bandwidth_mbps > 0
        &&& self.profile_has_channels()
    }

    /// Every entry of the autotune profile has a channel.
    pub open spec fn profile_has_channels(self) -> bool {
        self.autotune_profile matches Some(profile) ==> forall|i: int|
            0 <= i < profile.entries.len() ==> 0 < (#[trigger] profile.entries[i]).ring_channels
    }

    /// The order in which channels use the rails.
    pub open spec fn rail_order(self) -> Seq<usize> {
        match self.rail_order_override {
            Some(order) => order,
            None => self.topology.preferred_rails(self.p2p_rails as nat),
        }
    }

    /// The ring of a channel.
    pub open spec fn ring_for_channel(self, channel: int) -> Seq<u32> {
        self.ring_orders[channel % (self.ring_orders.len() as int)]
    }

    /// A tuning over a topology with the default transport.
    pub open spec fn over(
        policy: AlgorithmPolicy,
        threshold: usize,
        topology: TopologyModel,
        ring_order: Seq<u32>,
    ) -> TuningModel {
        TuningModel {
            algorithm_policy: policy,
            ring_threshold_bytes: threshold,
            ring_order,
            ring_orders: channel_rings(topology, ring_order),
            ring_channels: 1,
            p2p_rails: 1,
            rail_order_override: None,
            hierarchy_groups: None,
            topology,
            direct_bandwidth_mbps: DEFAULT_BANDWIDTH_MBPS,
            direct_latency_ns: DEFAULT_LATENCY_NS,
            transport: CollectiveTransport::TcpHostStaged,
            autotune_profile: None,
        }
    }
}

/// A copy of a rail order.
pub fn copy_rails(rails: &[usize]) -> (copy: Vec<usize>)
    ensures
        copy@ == rails@,
{
    let mut copy: Vec<usize> = Vec::new();
    let mut index: usize = 0;
    while index < rails.len()
        invariant
            index <= rails.len(),
            copy@ == rails@.take(index as int),
        decreases rails.len() - index,
    {
        copy.push(rails[index]);
        assert(copy@ =~= rails@.take(index + 1));
        index = index + 1;
    }
    assert(rails@.take(index as int) =~= rails@);
    copy
}

/// Refuses a channel count that no collective can have.
pub fn validate_ring_channels(channels: usize) -> (result: Result<(), TopologyError>)
    ensures
        match result {
            Ok(()) => 0 < channels <= MAX_RING_CHANNELS,
            Err(error) => !(0 < channels <= MAX_RING_CHANNELS) && error@
                == TopologyFailure::InvalidRingChannels(channels),
        },
{
    if channels == 0 || channels > MAX_RING_CHANNELS {
        return Err(TopologyError::InvalidRingChannels(channels));
    }
    Ok(())
}

impl CollectiveTuning {
    pub fn new(
        algorithm_policy: AlgorithmPolicy,
        ring_threshold_bytes: usize,
        ring_order: Vec<u32>,
    ) -> (result: Result<Self, TopologyError>)
        ensures
            ({
                let size = ring_order@.len();
                if size > u32::MAX {
                    &&& result is Err
                    &&& result->Err_0@ == TopologyFailure::InvalidRing("ring is too large"@)
                } else {
                    match ring_defect(size as u32, ring_order@) {
                        Some(defect) => result is Err && result->Err_0@ == defect,
                        None => {
                            &&& result is Ok
                            &&& result->Ok_0@ == TuningModel::over(
                                algorithm_policy,
                                ring_threshold_bytes,
                                TopologyModel::uniform(size as u32),
                                ring_order@,
                            )
                            &&& result->Ok_0@.valid()
                        },
                    }
                }
            }),
    {
        if ring_order.len() as u64 > u32::MAX as u64 {
            return Err(TopologyError::InvalidRing(String::from_str("ring is too large")));
        }
        let world_size: u32 = ring_order.len() as u32;
        let topology = match CollectiveTopology::uniform(world_size) {
            Ok(topology) => topology,
            Err(error) => {
                return Err(error);
            },
        };
        CollectiveTuning::from_topology(
            algorithm_policy,
            ring_threshold_bytes,
            topology,
            Some(ring_order),
        )
    }

    pub fn from_topology(
        algorithm_policy: AlgorithmPolicy,
        ring_threshold_bytes: usize,
        topology: CollectiveTopology,
        ring_order: Option<Vec<u32>>,
    ) -> (result: Result<Self, TopologyError>)
        requires
            topology@.valid(),
        ensures
            if ring_order is None && no_ring(topology@) {
                &&& result is Err
                &&& result->Err_0@ == TopologyFailure::InvalidRing(
                    "topology does not contain a closed rank ring"@,
                )
            } else {
                let order = match ring_order {
                    Some(order) => order@,
                    None => offered_rings(topology@, 1)[0],
                };
                match ring_defect(topology@.world_size, order) {
                    Some(defect) => result is Err && result->Err_0@ == defect,
                    None => {
                        &&& result is Ok
                        &&& result->Ok_0@ == TuningModel::over(
                            algorithm_policy,
                            ring_threshold_bytes,
                            topology@,
                            order,
                        )
                        &&& result->Ok_0@.valid()
                    },
                }
            },
    {
        let world_size: u32 = topology.world_size();
        let ring_order = match ring_order {
            Some(order) => order,
            None => match topology.best_ring_order() {
                Ok(order) => order,
                Err(error) => {
                    return Err(error);
                },
            },
        };
        proof {
            law_accepted_rings(world_size, ring_order@);
        }
        match validate_ring_order(world_size, ring_order.as_slice()) {
            Ok(()) => {},
            Err(error) => {
                return Err(error);
            },
        }
        let ring_orders = ring_orders_with_primary(&topology, ring_order.as_slice());
        Ok(
            Self {
                algorithm_policy,
                ring_threshold_bytes,
                ring_order,
                ring_orders,
                ring_channels: 1,
                p2p_rails: 1,
                rail_order_override: None,
                hierarchy_groups: None,
                topology,
                direct_bandwidth_mbps: DEFAULT_BANDWIDTH_MBPS,
                direct_latency_ns: DEFAULT_LATENCY_NS,
                transport: CollectiveTransport::TcpHostStaged,
                autotune_profile: None,
            },
        )
    }

    pub fn transport(&self) -> (transport: CollectiveTransport)
        ensures
            transport == self@.transport,
    {
        self.transport
    }

    pub fn hierarchy_groups(&self) -> (groups: Option<&[Vec<u32>]>)
        ensures
            match groups {
                Some(groups) => self@.hierarchy_groups == Some(rank_lists(groups@)),
                None => self@.hierarchy_groups is None,
            },
    {
        match &self.hierarchy_groups {
            Some(groups) => Some(groups.as_slice()),
            None => None,
        }
    }

    pub fn ring_channels(&self) -> (channels: usize)
        ensures
            channels == self@.ring_channels,
    {
        self.ring_channels
    }

    pub fn ring_orders(&self) -> (orders: &[Vec<u32>])
        ensures
            rank_lists(orders@) == self@.ring_orders,
    {
        self.ring_orders.as_slice()
    }

    pub fn topology_links(&self) -> (links: Vec<TopologyLink>)
        requires
            self@.topology.valid(),
        ensures
            links@ == links_of(self@.topology, rank_pairs_of(self@.topology.world_size)),
    {
        self.topology.links()
    }

    pub fn topology_rail_links(&self) -> (links: Vec<TopologyRailLink>)
        requires
            self@.topology.valid(),
        ensures
            links@ == rail_links_of(self@.topology, self@.topology.rail_links.len() as int),
    {
        self.topology.rail_links()
    }

    pub fn topology_aggregate_links(&self) -> (links: Vec<TopologyAggregateLink>)
        requires
            self@.topology.valid(),
        ensures
            links@ == aggregate_links_of(self@.topology, rank_pairs_of(self@.topology.world_size)),
    {
        self.topology.aggregate_links()
    }

    pub fn ring_order_for_channel(&self, channel: usize) -> (order: &[u32])
        requires
            self@.ring_orders.len() > 0,
        ensures
            order@ == self@.ring_for_channel(channel as int),
    {
        let place: usize = channel % self.ring_orders.len();
        assert(rank_lists(self.ring_orders@)[place as int] == self.ring_orders@[place as int]@);
        self.ring_orders[place].as_slice()
    }

    pub fn rail_order(&self) -> (order: Vec<usize>)
        requires
            self@.valid(),
        ensures
            order@ == self@.rail_order(),
            order@.len() == self@.p2p_rails,
            forall|i: int| 0 <= i < order@.len() ==> #[trigger] order@[i] < self@.p2p_rails,
    {
        match &self.rail_order_override {
            Some(order) => copy_rails(order.as_slice()),
            None => self.topology.preferred_rail_order(self.p2p_rails),
        }
    }

    pub fn rail_for_channel(&self, channel: usize) -> (rail: usize)
        requires
            self@.valid(),
        ensures
            rail == self@.rail_order()[channel as int % (self@.rail_order().len() as int)],
    {
        let order = self.rail_order();
        order[channel % order.len()]
    }

    pub fn p2p_rails(&self) -> (rails: usize)
        ensures
            rails == self@.p2p_rails,
    {
        self.p2p_rails
    }
}

} // verus!

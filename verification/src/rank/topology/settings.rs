//! A tuning from named settings.

use crate::chars::spells;
use crate::rank::topology::channels::{channel_rings, ring_orders_with_primary};
use crate::rank::topology::links::{validate_p2p_rails, CollectiveTopology, TopologyModel};
use crate::rank::topology::parse::{
    aggregate_links_added, groups_of, is_word, number_setting, parse_hierarchy_groups,
    parse_rail_order, parse_ring_order, parse_topology_aggregate_links, parse_topology_links,
    parse_topology_rail_links, parse_u64_environment, parse_usize_environment, plain_word,
    rail_links_added, rail_order_of, reads, ring_order_of, topology_of, unusable,
    unusable_setting, Variable, VariableModel,
};
use crate::rank::topology::builders::built;
use crate::rank::topology::ring_listing::lemma_uniform_offers;
use crate::rank::topology::ring_scores::law_offered_rings_are_closed;
use crate::rank::topology::rings::{
    is_ring, law_accepted_rings, no_ring, offered_rings, ring_defect,
};
use crate::rank::topology::tuning::{validate_ring_channels, CollectiveTuning, TuningModel};
use crate::rank::topology::{
    AlgorithmPolicy, TopologyError, TopologyFailure, DEFAULT_BANDWIDTH_MBPS,
    DEFAULT_HIERARCHY_INFERENCE_BYTES, DEFAULT_LATENCY_NS, DEFAULT_RING_THRESHOLD_BYTES,
    MAX_P2P_RAILS, MAX_RING_CHANNELS,
};
use crate::rank::CollectiveTransport;
use vstd::prelude::*;
use vstd::string::*;

verus! {

/// The settings that a tuning is read from.
#[derive(Debug, Clone, PartialEq, Eq)]
pub struct TuningVariables {
    /// `GX1_COLLECTIVE_ALGORITHM`
    pub algorithm: Variable,
    /// `GX1_RING_THRESHOLD_BYTES`
    pub ring_threshold: Variable,
    /// `GX1_RING_CHANNELS`
    pub ring_channels: Variable,
    /// `GX1_P2P_RAILS`
    pub p2p_rails: Variable,
    /// `GX1_DIRECT_BANDWIDTH_MBPS`
    pub direct_bandwidth: Variable,
    /// `GX1_DIRECT_LATENCY_NS`
    pub direct_latency: Variable,
    /// `GX1_COLLECTIVE_TRANSPORT`
    pub transport: Variable,
    /// `GX1_TOPOLOGY_LINKS`
    pub links: Variable,
    /// `GX1_TOPOLOGY_RAIL_LINKS`
    pub rail_links: Variable,
    /// `GX1_TOPOLOGY_AGGREGATE_LINKS`
    pub aggregate_links: Variable,
    /// `GX1_RAIL_ORDER`
    pub rail_order: Variable,
    /// `GX1_RING_ORDER`
    pub ring_order: Variable,
    /// `GX1_TOPOLOGY_GROUPS`
    pub groups: Variable,
    /// `GX1_TOPOLOGY_GROUP_PAYLOAD_BYTES`
    pub group_payload: Variable,
}

/// The same with its texts as character sequences.
pub struct VariablesModel {
    pub algorithm: VariableModel,
    pub ring_threshold: VariableModel,
    pub ring_channels: VariableModel,
    pub p2p_rails: VariableModel,
    pub direct_bandwidth: VariableModel,
    pub direct_latency: VariableModel,
    pub transport: VariableModel,
    pub links: VariableModel,
    pub rail_links: VariableModel,
    pub aggregate_links: VariableModel,
    pub rail_order: VariableModel,
    pub ring_order: VariableModel,
    pub groups: VariableModel,
    pub group_payload: VariableModel,
}

impl View for TuningVariables {
    type V = VariablesModel;

    open spec fn view(&self) -> VariablesModel {
        VariablesModel {
            algorithm: self.algorithm@,
            ring_threshold: self.ring_threshold@,
            ring_channels: self.ring_channels@,
            p2p_rails: self.p2p_rails@,
            direct_bandwidth: self.direct_bandwidth@,
            direct_latency: self.direct_latency@,
            transport: self.transport@,
            links: self.links@,
            rail_links: self.rail_links@,
            aggregate_links: self.aggregate_links@,
            rail_order: self.rail_order@,
            ring_order: self.ring_order@,
            groups: self.groups@,
            group_payload: self.group_payload@,
        }
    }
}

/// The policy that a setting names.
pub open spec fn policy_of(value: VariableModel) -> Result<AlgorithmPolicy, TopologyFailure> {
    match value {
        VariableModel::Absent => Ok(AlgorithmPolicy::Auto),
        VariableModel::NotUnicode(text) => Err(unusable("GX1_COLLECTIVE_ALGORITHM"@, text)),
        VariableModel::Text(text) => if is_word(text, "auto"@) {
            Ok(AlgorithmPolicy::Auto)
        } else if is_word(text, "direct"@) {
            Ok(AlgorithmPolicy::Direct)
        } else if is_word(text, "ring"@) {
            Ok(AlgorithmPolicy::Ring)
        } else if is_word(text, "hierarchical"@) {
            Ok(AlgorithmPolicy::Hierarchical)
        } else {
            Err(unusable("GX1_COLLECTIVE_ALGORITHM"@, text))
        },
    }
}

/// The transport that a setting names.
pub open spec fn transport_of(value: VariableModel) -> Result<
    CollectiveTransport,
    TopologyFailure,
> {
    match value {
        VariableModel::Absent => Ok(CollectiveTransport::TcpHostStaged),
        VariableModel::NotUnicode(text) => Err(unusable("GX1_COLLECTIVE_TRANSPORT"@, text)),
        VariableModel::Text(text) => if is_word(text, "coordinator"@) || is_word(
            text,
            "tcp_coordinator"@,
        ) || is_word(text, "tcp_host_staged"@) {
            Ok(CollectiveTransport::TcpHostStaged)
        } else if is_word(text, "peer"@) || is_word(text, "tcp_peer"@) {
            Ok(CollectiveTransport::TcpPeer)
        } else {
            Err(unusable("GX1_COLLECTIVE_TRANSPORT"@, text))
        },
    }
}

/// Whether the links are to be probed.
pub open spec fn probe_requested(value: VariableModel) -> Result<bool, TopologyFailure> {
    match value {
        VariableModel::Absent => Ok(false),
        VariableModel::NotUnicode(text) => Err(unusable("GX1_TOPOLOGY_LINKS"@, text)),
        VariableModel::Text(text) => Ok(is_word(text, "probe"@)),
    }
}

/// The settings that do not depend on the topology.
pub struct Basics {
    pub policy: AlgorithmPolicy,
    pub threshold: usize,
    pub channels: usize,
    pub rails: usize,
    pub bandwidth: u64,
    pub latency: u64,
    pub transport: CollectiveTransport,
}

/// The basics, or the first that cannot be used.
pub open spec fn basics_of(value: VariablesModel) -> Result<Basics, TopologyFailure> {
    match policy_of(value.algorithm) {
        Err(failure) => Err(failure),
        Ok(policy) => match number_setting(
            "GX1_RING_THRESHOLD_BYTES"@,
            value.ring_threshold,
            DEFAULT_RING_THRESHOLD_BYTES as nat,
            usize::MAX as nat,
        ) {
            Err(failure) => Err(failure),
            Ok(threshold) => match number_setting(
                "GX1_RING_CHANNELS"@,
                value.ring_channels,
                1,
                usize::MAX as nat,
            ) {
                Err(failure) => Err(failure),
                Ok(channels) => if !(0 < channels <= MAX_RING_CHANNELS) {
                    Err(TopologyFailure::InvalidRingChannels(channels as usize))
                } else {
                    match number_setting("GX1_P2P_RAILS"@, value.p2p_rails, 1, usize::MAX as nat) {
                        Err(failure) => Err(failure),
                        Ok(rails) => if !(0 < rails <= MAX_P2P_RAILS) {
                            Err(TopologyFailure::InvalidP2pRails(rails as usize))
                        } else {
                            paths_of(
                                value,
                                policy,
                                threshold as usize,
                                channels as usize,
                                rails as usize,
                            )
                        },
                    }
                },
            },
        },
    }
}

/// The basics from the direct path on.
pub open spec fn paths_of(
    value: VariablesModel,
    policy: AlgorithmPolicy,
    threshold: usize,
    channels: usize,
    rails: usize,
) -> Result<Basics, TopologyFailure> {
    match number_setting(
        "GX1_DIRECT_BANDWIDTH_MBPS"@,
        value.direct_bandwidth,
        DEFAULT_BANDWIDTH_MBPS as nat,
        u64::MAX as nat,
    ) {
        Err(failure) => Err(failure),
        Ok(bandwidth) => if bandwidth == 0 {
            Err(unusable("GX1_DIRECT_BANDWIDTH_MBPS"@, "0"@))
        } else {
            match number_setting(
                "GX1_DIRECT_LATENCY_NS"@,
                value.direct_latency,
                DEFAULT_LATENCY_NS as nat,
                u64::MAX as nat,
            ) {
                Err(failure) => Err(failure),
                Ok(latency) => match transport_of(value.transport) {
                    Err(failure) => Err(failure),
                    Ok(transport) => Ok(
                        Basics {
                            policy,
                            threshold,
                            channels,
                            rails,
                            bandwidth: bandwidth as u64,
                            latency: latency as u64,
                            transport,
                        },
                    ),
                },
            }
        },
    }
}

/// The links that a tuning starts from.
pub open spec fn links_setting(
    world_size: u32,
    probed: Option<TopologyModel>,
    value: VariableModel,
) -> Result<TopologyModel, TopologyFailure> {
    match value {
        VariableModel::NotUnicode(text) => Err(unusable("GX1_TOPOLOGY_LINKS"@, text)),
        VariableModel::Text(text) => if is_word(text, "probe"@) {
            match probed {
                Some(topology) => Ok(topology),
                None => Err(unusable("GX1_TOPOLOGY_LINKS"@, text)),
            }
        } else {
            topology_of(world_size, text)
        },
        VariableModel::Absent => match probed {
            Some(topology) => Ok(topology),
            None => if world_size == 0 {
                Err(TopologyFailure::EmptyWorld)
            } else {
                Ok(TopologyModel::uniform(world_size))
            },
        },
    }
}

/// The topology with the rails and caps that the settings add.
pub open spec fn topology_setting(
    world_size: u32,
    probed: Option<TopologyModel>,
    rails: int,
    value: VariablesModel,
) -> Result<TopologyModel, TopologyFailure> {
    match links_setting(world_size, probed, value.links) {
        Err(failure) => Err(failure),
        Ok(plain) => match (match value.rail_links {
            VariableModel::Absent => Ok(plain),
            VariableModel::NotUnicode(text) => Err(unusable("GX1_TOPOLOGY_RAIL_LINKS"@, text)),
            VariableModel::Text(text) => rail_links_added(plain, text, rails),
        }) {
            Err(failure) => Err(failure),
            Ok(railed) => match value.aggregate_links {
                VariableModel::Absent => Ok(railed),
                VariableModel::NotUnicode(text) => Err(
                    unusable("GX1_TOPOLOGY_AGGREGATE_LINKS"@, text),
                ),
                VariableModel::Text(text) => aggregate_links_added(railed, text),
            },
        },
    }
}

/// The rail order that a setting pins.
pub open spec fn rail_order_setting(rails: int, value: VariableModel) -> Result<
    Option<Seq<usize>>,
    TopologyFailure,
> {
    match value {
        VariableModel::Absent => Ok(None),
        VariableModel::NotUnicode(text) => Err(unusable("GX1_RAIL_ORDER"@, text)),
        VariableModel::Text(text) => if is_word(text, "auto"@) {
            Ok(None)
        } else {
            match rail_order_of(rails, text) {
                Ok(order) => Ok(Some(order)),
                Err(failure) => Err(failure),
            }
        },
    }
}

/// The primary ring.
pub open spec fn ring_order_setting(
    world_size: u32,
    topology: TopologyModel,
    value: VariableModel,
) -> Result<Seq<u32>, TopologyFailure> {
    match value {
        VariableModel::Text(text) => ring_order_of(world_size, text),
        VariableModel::NotUnicode(text) => Err(unusable("GX1_RING_ORDER"@, text)),
        VariableModel::Absent => if no_ring(topology) {
            Err(TopologyFailure::InvalidRing("topology does not contain a closed rank ring"@))
        } else {
            Ok(offered_rings(topology, 1)[0])
        },
    }
}

/// How ranks are grouped: not at all, as given, or by a payload.
pub enum Grouping {
    Ungrouped,
    Given(Seq<Seq<u32>>),
    Inferred(usize),
}

pub open spec fn grouping_setting(
    world_size: u32,
    value: VariableModel,
    payload: VariableModel,
) -> Result<Grouping, TopologyFailure> {
    match value {
        VariableModel::Absent => Ok(Grouping::Ungrouped),
        VariableModel::NotUnicode(text) => Err(unusable("GX1_TOPOLOGY_GROUPS"@, text)),
        VariableModel::Text(text) => if is_word(text, "auto"@) {
            match number_setting(
                "GX1_TOPOLOGY_GROUP_PAYLOAD_BYTES"@,
                payload,
                DEFAULT_HIERARCHY_INFERENCE_BYTES as nat,
                usize::MAX as nat,
            ) {
                Err(failure) => Err(failure),
                Ok(bytes) => if bytes == 0 {
                    Err(unusable("GX1_TOPOLOGY_GROUP_PAYLOAD_BYTES"@, "0"@))
                } else {
                    Ok(Grouping::Inferred(bytes as usize))
                },
            }
        } else {
            match groups_of(world_size, text) {
                Ok(groups) => Ok(Grouping::Given(groups)),
                Err(failure) => Err(failure),
            }
        },
    }
}

/// The tuning that the settings describe.
pub open spec fn tuning_of(
    world_size: u32,
    probed: Option<TopologyModel>,
    value: VariablesModel,
) -> Result<TuningModel, TopologyFailure> {
    match basics_of(value) {
        Err(failure) => Err(failure),
        Ok(basics) => match topology_setting(world_size, probed, basics.rails as int, value) {
            Err(failure) => Err(failure),
            Ok(topology) => match rail_order_setting(basics.rails as int, value.rail_order) {
                Err(failure) => Err(failure),
                Ok(rail_order) => match ring_order_setting(world_size, topology, value.ring_order) {
                    Err(failure) => Err(failure),
                    Ok(ring_order) => match grouping_setting(
                        world_size,
                        value.groups,
                        value.group_payload,
                    ) {
                        Err(failure) => Err(failure),
                        Ok(grouping) => grouped_tuning(
                            basics,
                            topology,
                            rail_order,
                            ring_order,
                            grouping,
                        ),
                    },
                },
            },
        },
    }
}

/// The tuning once every setting has been read.
pub open spec fn grouped_tuning(
    basics: Basics,
    topology: TopologyModel,
    rail_order: Option<Seq<usize>>,
    ring_order: Seq<u32>,
    grouping: Grouping,
) -> Result<TuningModel, TopologyFailure> {
    let plain = TuningModel {
        algorithm_policy: basics.policy,
        ring_threshold_bytes: basics.threshold,
        ring_order,
        ring_orders: channel_rings(topology, ring_order),
        ring_channels: basics.channels,
        p2p_rails: basics.rails,
        rail_order_override: rail_order,
        hierarchy_groups: match grouping {
            Grouping::Given(groups) => Some(groups),
            _ => None,
        },
        topology,
        direct_bandwidth_mbps: basics.bandwidth,
        direct_latency_ns: basics.latency,
        transport: basics.transport,
        autotune_profile: None,
    };
    match (match grouping {
        Grouping::Inferred(payload) => plain.with_inferred_hierarchy(payload),
        _ => Ok(plain),
    }) {
        Err(failure) => Err(failure),
        Ok(tuning) => if basics.policy == AlgorithmPolicy::Hierarchical
            && tuning.hierarchy_groups is None {
            Err(TopologyFailure::InvalidHierarchy(ungrouped_text()))
        } else {
            Ok(tuning)
        },
    }
}

pub open spec fn ungrouped_text() -> Seq<char> {
    "GX1_COLLECTIVE_ALGORITHM=hierarchical requires explicit or inferred topology groups"@
}

fn parse_algorithm_policy(value: &Variable) -> (result: Result<AlgorithmPolicy, TopologyError>)
    ensures
        match policy_of(value@) {
            Ok(policy) => result is Ok && result->Ok_0 == policy,
            Err(failure) => result is Err && result->Err_0@ == failure,
        },
{
    match value {
        Variable::Absent => Ok(AlgorithmPolicy::Auto),
        Variable::NotUnicode(text) => Err(
            unusable_setting("GX1_COLLECTIVE_ALGORITHM", text.as_str()),
        ),
        Variable::Text(text) => {
            let word = plain_word(text.as_str());
            if spells(word.as_slice(), "auto") {
                Ok(AlgorithmPolicy::Auto)
            } else if spells(word.as_slice(), "direct") {
                Ok(AlgorithmPolicy::Direct)
            } else if spells(word.as_slice(), "ring") {
                Ok(AlgorithmPolicy::Ring)
            } else if spells(word.as_slice(), "hierarchical") {
                Ok(AlgorithmPolicy::Hierarchical)
            } else {
                Err(unusable_setting("GX1_COLLECTIVE_ALGORITHM", text.as_str()))
            }
        },
    }
}

pub fn parse_collective_transport_environment(value: &Variable) -> (result: Result<
    CollectiveTransport,
    TopologyError,
>)
    ensures
        match transport_of(value@) {
            Ok(transport) => result is Ok && result->Ok_0 == transport,
            Err(failure) => result is Err && result->Err_0@ == failure,
        },
{
    match value {
        Variable::Absent => Ok(CollectiveTransport::TcpHostStaged),
        Variable::NotUnicode(text) => Err(
            unusable_setting("GX1_COLLECTIVE_TRANSPORT", text.as_str()),
        ),
        Variable::Text(text) => {
            let word = plain_word(text.as_str());
            if spells(word.as_slice(), "coordinator") || spells(
                word.as_slice(),
                "tcp_coordinator",
            ) || spells(word.as_slice(), "tcp_host_staged") {
                Ok(CollectiveTransport::TcpHostStaged)
            } else if spells(word.as_slice(), "peer") || spells(word.as_slice(), "tcp_peer") {
                Ok(CollectiveTransport::TcpPeer)
            } else {
                Err(unusable_setting("GX1_COLLECTIVE_TRANSPORT", text.as_str()))
            }
        },
    }
}

fn parse_links_setting(
    world_size: u32,
    probed_topology: Option<CollectiveTopology>,
    value: &Variable,
) -> (result: Result<CollectiveTopology, TopologyError>)
    requires
        probed_topology matches Some(topology) ==> topology@.valid() && topology@.world_size
            == world_size,
    ensures
        match links_setting(
            world_size,
            match probed_topology {
                Some(topology) => Some(topology@),
                None => None,
            },
            value@,
        ) {
            Ok(topology) => {
                &&& result is Ok
                &&& result->Ok_0@ == topology
                &&& topology.valid()
                &&& topology.world_size == world_size
            },
            Err(failure) => result is Err && result->Err_0@ == failure,
        },
{
    match value {
        Variable::NotUnicode(text) => Err(unusable_setting("GX1_TOPOLOGY_LINKS", text.as_str())),
        Variable::Text(text) => {
            if reads(text.as_str(), "probe") {
                match probed_topology {
                    Some(topology) => Ok(topology),
                    None => Err(unusable_setting("GX1_TOPOLOGY_LINKS", text.as_str())),
                }
            } else {
                parse_topology_links(world_size, text.as_str())
            }
        },
        Variable::Absent => match probed_topology {
            Some(topology) => Ok(topology),
            None => CollectiveTopology::uniform(world_size),
        },
    }
}

fn parse_topology_setting(
    world_size: u32,
    probed_topology: Option<CollectiveTopology>,
    p2p_rails: usize,
    value: &TuningVariables,
) -> (result: Result<CollectiveTopology, TopologyError>)
    requires
        probed_topology matches Some(topology) ==> topology@.valid() && topology@.world_size
            == world_size,
    ensures
        match topology_setting(
            world_size,
            match probed_topology {
                Some(topology) => Some(topology@),
                None => None,
            },
            p2p_rails as int,
            value@,
        ) {
            Ok(topology) => {
                &&& result is Ok
                &&& result->Ok_0@ == topology
                &&& topology.valid()
                &&& topology.world_size == world_size
            },
            Err(failure) => result is Err && result->Err_0@ == failure,
        },
{
    let mut topology = match parse_links_setting(world_size, probed_topology, &value.links) {
        Ok(topology) => topology,
        Err(error) => {
            return Err(error);
        },
    };
    match &value.rail_links {
        Variable::Text(text) => match parse_topology_rail_links(
            &mut topology,
            text.as_str(),
            p2p_rails,
        ) {
            Ok(()) => {},
            Err(error) => {
                return Err(error);
            },
        },
        Variable::Absent => {},
        Variable::NotUnicode(text) => {
            return Err(unusable_setting("GX1_TOPOLOGY_RAIL_LINKS", text.as_str()));
        },
    }
    match &value.aggregate_links {
        Variable::Text(text) => match parse_topology_aggregate_links(
            &mut topology,
            text.as_str(),
        ) {
            Ok(()) => {},
            Err(error) => {
                return Err(error);
            },
        },
        Variable::Absent => {},
        Variable::NotUnicode(text) => {
            return Err(unusable_setting("GX1_TOPOLOGY_AGGREGATE_LINKS", text.as_str()));
        },
    }
    Ok(topology)
}

/// The path of the profile that a setting names.
pub open spec fn profile_setting(value: VariableModel) -> Result<
    Option<Seq<char>>,
    TopologyFailure,
> {
    match value {
        VariableModel::Absent => Ok(None),
        VariableModel::Text(text) => Ok(Some(text)),
        VariableModel::NotUnicode(text) => Err(unusable("GX1_COLLECTIVE_AUTOTUNE_PROFILE"@, text)),
    }
}

/// The path of the profile to load (`GX1_COLLECTIVE_AUTOTUNE_PROFILE`).
pub fn autotune_profile_path(value: &Variable) -> (result: Result<Option<&str>, TopologyError>)
    ensures
        match profile_setting(value@) {
            Ok(path) => {
                &&& result is Ok
                &&& match result->Ok_0 {
                    Some(found) => path == Some(found@),
                    None => path is None,
                }
            },
            Err(failure) => result is Err && result->Err_0@ == failure,
        },
{
    match value {
        Variable::Absent => Ok(None),
        Variable::Text(text) => Ok(Some(text.as_str())),
        Variable::NotUnicode(text) => Err(
            unusable_setting("GX1_COLLECTIVE_AUTOTUNE_PROFILE", text.as_str()),
        ),
    }
}

/// Settings that are all absent.
pub open spec fn no_settings() -> VariablesModel {
    VariablesModel {
        algorithm: VariableModel::Absent,
        ring_threshold: VariableModel::Absent,
        ring_channels: VariableModel::Absent,
        p2p_rails: VariableModel::Absent,
        direct_bandwidth: VariableModel::Absent,
        direct_latency: VariableModel::Absent,
        transport: VariableModel::Absent,
        links: VariableModel::Absent,
        rail_links: VariableModel::Absent,
        aggregate_links: VariableModel::Absent,
        rail_order: VariableModel::Absent,
        ring_order: VariableModel::Absent,
        groups: VariableModel::Absent,
        group_payload: VariableModel::Absent,
    }
}

/// What a tuning over the uniform topology is: automatic, with the default
/// threshold and the topology's best ring.
pub open spec fn uniform_tuning(world_size: u32) -> TuningModel {
    let topology = TopologyModel::uniform(world_size);
    TuningModel::over(
        AlgorithmPolicy::Auto,
        DEFAULT_RING_THRESHOLD_BYTES,
        topology,
        offered_rings(topology, 1)[0],
    )
}

/// Without settings a world has the tuning over its uniform topology, and an
/// empty world has none.
pub proof fn law_no_settings_give_the_uniform_tuning(world_size: u32)
    ensures
        DEFAULT_RING_THRESHOLD_BYTES == 256 * 1024,
        world_size == 0 ==> tuning_of(world_size, None, no_settings()) == Err::<
            TuningModel,
            TopologyFailure,
        >(TopologyFailure::EmptyWorld),
        world_size > 0 ==> {
            let topology = TopologyModel::uniform(world_size);
            &&& !no_ring(topology)
            &&& ring_defect(world_size, offered_rings(topology, 1)[0]) is None
            &&& tuning_of(world_size, None, no_settings()) == Ok::<TuningModel, TopologyFailure>(
                uniform_tuning(world_size),
            )
        },
{
    if world_size > 0 {
        let topology = TopologyModel::uniform(world_size);
        lemma_uniform_offers(world_size);
        let order = offered_rings(topology, 1)[0];
        if world_size > 1 {
            law_offered_rings_are_closed(topology, 1);
            assert(topology.is_closed_ring(order));
        }
        assert(is_ring(world_size, order));
        law_accepted_rings(world_size, order);
    }
}

impl CollectiveTuning {
    pub fn from_environment(world_size: u32, variables: &TuningVariables) -> (result: Result<
        Self,
        TopologyError,
    >)
        ensures
            built(result, tuning_of(world_size, None, variables@)),
            variables@ == no_settings() ==> if world_size == 0 {
                result is Err && result->Err_0@ == TopologyFailure::EmptyWorld
            } else {
                result is Ok && result->Ok_0@ == uniform_tuning(world_size)
            },
    {
        proof {
            law_no_settings_give_the_uniform_tuning(world_size);
        }
        CollectiveTuning::from_environment_impl(world_size, None, variables)
    }

    pub fn from_environment_with_topology(
        topology: CollectiveTopology,
        variables: &TuningVariables,
    ) -> (result: Result<Self, TopologyError>)
        requires
            topology@.valid(),
        ensures
            built(result, tuning_of(topology@.world_size, Some(topology@), variables@)),
    {
        let world_size: u32 = topology.world_size();
        CollectiveTuning::from_environment_impl(world_size, Some(topology), variables)
    }

    pub fn topology_probe_requested(links: &Variable) -> (result: Result<bool, TopologyError>)
        ensures
            match probe_requested(links@) {
                Ok(requested) => result is Ok && result->Ok_0 == requested,
                Err(failure) => result is Err && result->Err_0@ == failure,
            },
    {
        match links {
            Variable::Text(text) => Ok(reads(text.as_str(), "probe")),
            Variable::Absent => Ok(false),
            Variable::NotUnicode(text) => Err(
                unusable_setting("GX1_TOPOLOGY_LINKS", text.as_str()),
            ),
        }
    }

    #[verifier::rlimit(40)]
    fn from_environment_impl(
        world_size: u32,
        probed_topology: Option<CollectiveTopology>,
        variables: &TuningVariables,
    ) -> (result: Result<Self, TopologyError>)
        requires
            probed_topology matches Some(topology) ==> topology@.valid() && topology@.world_size
                == world_size,
        ensures
            built(
                result,
                tuning_of(
                    world_size,
                    match probed_topology {
                        Some(topology) => Some(topology@),
                        None => None,
                    },
                    variables@,
                ),
            ),
    {
        let algorithm_policy = match parse_algorithm_policy(&variables.algorithm) {
            Ok(policy) => policy,
            Err(error) => {
                return Err(error);
            },
        };
        let ring_threshold_bytes: usize = match parse_usize_environment(
            "GX1_RING_THRESHOLD_BYTES",
            &variables.ring_threshold,
            DEFAULT_RING_THRESHOLD_BYTES,
        ) {
            Ok(bytes) => bytes,
            Err(error) => {
                return Err(error);
            },
        };
        let ring_channels: usize = match parse_usize_environment(
            "GX1_RING_CHANNELS",
            &variables.ring_channels,
            1,
        ) {
            Ok(channels) => channels,
            Err(error) => {
                return Err(error);
            },
        };
        match validate_ring_channels(ring_channels) {
            Ok(()) => {},
            Err(error) => {
                return Err(error);
            },
        }
        let p2p_rails: usize = match parse_usize_environment(
            "GX1_P2P_RAILS",
            &variables.p2p_rails,
            1,
        ) {
            Ok(rails) => rails,
            Err(error) => {
                return Err(error);
            },
        };
        match validate_p2p_rails(p2p_rails) {
            Ok(()) => {},
            Err(error) => {
                return Err(error);
            },
        }
        let direct_bandwidth_mbps: u64 = match parse_u64_environment(
            "GX1_DIRECT_BANDWIDTH_MBPS",
            &variables.direct_bandwidth,
            DEFAULT_BANDWIDTH_MBPS,
        ) {
            Ok(bandwidth) => bandwidth,
            Err(error) => {
                return Err(error);
            },
        };
        if direct_bandwidth_mbps == 0 {
            return Err(unusable_setting("GX1_DIRECT_BANDWIDTH_MBPS", "0"));
        }
        let direct_latency_ns: u64 = match parse_u64_environment(
            "GX1_DIRECT_LATENCY_NS",
            &variables.direct_latency,
            DEFAULT_LATENCY_NS,
        ) {
            Ok(latency) => latency,
            Err(error) => {
                return Err(error);
            },
        };
        let transport = match parse_collective_transport_environment(&variables.transport) {
            Ok(transport) => transport,
            Err(error) => {
                return Err(error);
            },
        };
        let topology = match parse_topology_setting(
            world_size,
            probed_topology,
            p2p_rails,
            variables,
        ) {
            Ok(topology) => topology,
            Err(error) => {
                return Err(error);
            },
        };
        let rail_order_override: Option<Vec<usize>> = match &variables.rail_order {
            Variable::Text(text) => {
                if reads(text.as_str(), "auto") {
                    None
                } else {
                    match parse_rail_order(p2p_rails, text.as_str()) {
                        Ok(order) => Some(order),
                        Err(error) => {
                            return Err(error);
                        },
                    }
                }
            },
            Variable::Absent => None,
            Variable::NotUnicode(text) => {
                return Err(unusable_setting("GX1_RAIL_ORDER", text.as_str()));
            },
        };
        let ring_order: Vec<u32> = match &variables.ring_order {
            Variable::Text(text) => match parse_ring_order(world_size, text.as_str()) {
                Ok(order) => order,
                Err(error) => {
                    return Err(error);
                },
            },
            Variable::Absent => match topology.best_ring_order() {
                Ok(order) => order,
                Err(error) => {
                    return Err(error);
                },
            },
            Variable::NotUnicode(text) => {
                return Err(unusable_setting("GX1_RING_ORDER", text.as_str()));
            },
        };
        let mut hierarchy_groups: Option<Vec<Vec<u32>>> = None;
        let mut inferred_hierarchy_bytes: Option<usize> = None;
        match &variables.groups {
            Variable::Text(text) => {
                if reads(text.as_str(), "auto") {
                    let payload_bytes: usize = match parse_usize_environment(
                        "GX1_TOPOLOGY_GROUP_PAYLOAD_BYTES",
                        &variables.group_payload,
                        DEFAULT_HIERARCHY_INFERENCE_BYTES,
                    ) {
                        Ok(bytes) => bytes,
                        Err(error) => {
                            return Err(error);
                        },
                    };
                    if payload_bytes == 0 {
                        return Err(unusable_setting("GX1_TOPOLOGY_GROUP_PAYLOAD_BYTES", "0"));
                    }
                    inferred_hierarchy_bytes = Some(payload_bytes);
                } else {
                    match parse_hierarchy_groups(world_size, text.as_str()) {
                        Ok(groups) => {
                            hierarchy_groups = Some(groups);
                        },
                        Err(error) => {
                            return Err(error);
                        },
                    }
                }
            },
            Variable::Absent => {},
            Variable::NotUnicode(text) => {
                return Err(unusable_setting("GX1_TOPOLOGY_GROUPS", text.as_str()));
            },
        }
        let ring_orders = ring_orders_with_primary(&topology, ring_order.as_slice());
        let mut tuning = Self {
            algorithm_policy,
            ring_threshold_bytes,
            ring_order,
            ring_orders,
            ring_channels,
            p2p_rails,
            rail_order_override,
            hierarchy_groups,
            topology,
            direct_bandwidth_mbps,
            direct_latency_ns,
            transport,
            autotune_profile: None,
        };
        assert(tuning@.valid());
        match inferred_hierarchy_bytes {
            Some(payload_bytes) => match tuning.with_inferred_hierarchy(payload_bytes) {
                Ok(grouped) => {
                    tuning = grouped;
                },
                Err(error) => {
                    return Err(error);
                },
            },
            None => {},
        }
        if algorithm_policy == AlgorithmPolicy::Hierarchical && tuning.hierarchy_groups.is_none() {
            return Err(
                TopologyError::InvalidHierarchy(
                    String::from_str(
                        "GX1_COLLECTIVE_ALGORITHM=hierarchical requires explicit or inferred topology groups",
                    ),
                ),
            );
        }
        Ok(tuning)
    }
}

} // verus!

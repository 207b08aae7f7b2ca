//! Topology-aware collective planning shared by the TCP transport and by
//! peer-memory and GX-Link transports.

pub mod builders;
pub mod channels;
pub mod cycles;
pub mod document;
pub mod error;
pub mod estimates;
pub mod fingerprint;
pub mod groups;
pub mod link_laws;
pub mod links;
pub mod order;
pub mod pairs;
pub mod parse;
pub mod paths;
pub mod plan_laws;
pub mod profile;
pub mod rails;
pub mod ring_laws;
pub mod ring_listing;
pub mod ring_scores;
pub mod rings;
pub mod setting_laws;
pub mod settings;
pub mod step_laws;
pub mod stripes;
pub mod tuning;

pub use error::{TopologyError, TopologyFailure};
pub use tuning::CollectiveTuning;
pub use links::{CollectiveTopology, TopologyAggregateLink, TopologyLink, TopologyRailLink};

use crate::rank::CollectiveAlgorithm;
use vstd::prelude::*;

verus! {

pub const DEFAULT_RING_THRESHOLD_BYTES: usize = 262144;

pub const DEFAULT_BANDWIDTH_MBPS: u64 = 32000;

pub const DEFAULT_LATENCY_NS: u64 = 1000;

pub const DEFAULT_HIERARCHY_INFERENCE_BYTES: usize = 16777216;

pub const EXACT_RING_SEARCH_MAX_RANKS: u32 = 9;

pub const MAX_RING_CHANNELS: usize = 64;

pub const MAX_P2P_RAILS: usize = 64;

pub const COLLECTIVE_AUTOTUNE_PROFILE_VERSION: u32 = 2;

pub const COLLECTIVE_EXECUTION_REVISION: u64 = 6;

#[derive(Debug, Clone, Copy, PartialEq, Eq, Structural)]
pub enum AlgorithmPolicy {
    Auto,
    Direct,
    Ring,
    Hierarchical,
}

#[derive(Debug, Clone, Copy, PartialEq, Eq, Structural)]
pub enum CollectiveKind {
    AllReduce,
    AllGather,
    ReduceScatter,
    AllToAll,
}

impl CollectiveKind {
    /// The kind's name in messages.
    pub open spec fn spec_name(self) -> Seq<char> {
        match self {
            CollectiveKind::AllReduce => "AllReduce"@,
            CollectiveKind::AllGather => "AllGather"@,
            CollectiveKind::ReduceScatter => "ReduceScatter"@,
            CollectiveKind::AllToAll => "AllToAll"@,
        }
    }

    pub fn name(self) -> (name: &'static str)
        ensures
            name@ == self.spec_name(),
    {
        match self {
            CollectiveKind::AllReduce => "AllReduce",
            CollectiveKind::AllGather => "AllGather",
            CollectiveKind::ReduceScatter => "ReduceScatter",
            CollectiveKind::AllToAll => "AllToAll",
        }
    }
}

#[derive(Debug, Clone, Copy, PartialEq, Eq, Structural)]
pub enum CollectivePlanSource {
    Policy,
    Autotune,
    Model,
}

#[derive(Debug, Clone, Copy, PartialEq, Eq, Structural)]
pub struct CollectivePlan {
    pub algorithm: CollectiveAlgorithm,
    pub source: CollectivePlanSource,
    pub estimated_time_ns: u64,
    pub direct_estimated_time_ns: u64,
    pub peer_estimated_time_ns: Option<u64>,
    pub hierarchical_estimated_time_ns: Option<u64>,
    pub ring_channels: usize,
}

#[derive(Debug, Clone, PartialEq, Eq)]
pub struct CollectiveAutotuneProfile {
    pub version: u32,
    pub world_size: u32,
    pub topology_fingerprint: String,
    pub execution_fingerprint: String,
    pub entries: Vec<CollectiveAutotuneEntry>,
}

#[derive(Debug, Clone, Copy, PartialEq, Eq, Structural)]
pub struct CollectiveAutotuneEntry {
    pub operation: CollectiveKind,
    pub min_payload_bytes: u64,
    pub max_payload_bytes: u64,
    pub algorithm: CollectiveAlgorithm,
    pub ring_channels: usize,
    pub measured_time_ns: u64,
}

} // verus!

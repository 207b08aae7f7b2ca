//! Rank-local collectives over a rendezvous transport.

pub mod communicator;
pub mod device;
pub mod device_collective;
pub mod error;
pub mod hash;
pub mod host;
pub mod layout;
pub mod network;
pub mod operation;
pub mod payload;
pub mod peer;
pub mod protocol;
pub mod prospects;
pub mod rounds;
pub mod script;
pub mod stats;
pub mod tags;
pub mod topology;
pub mod transport;

use vstd::prelude::*;

pub use error::RankError;
pub use network::probe::TopologyProbeOptions;
pub use network::{ExchangeOptions, NetworkError};
pub use operation::ReductionOperation;
pub use protocol::{
    CollectiveAgreement, ElementType, Frame, FrameHeader, Opcode, OperationDescriptor,
    ProtocolError, UniqueId, ANY_RANK, FLAG_COUNTS_PREFIX, FLAG_P2P_CHANNEL,
};
pub use stats::CollectiveStats;
pub use topology::{
    AlgorithmPolicy, CollectiveAutotuneEntry, CollectiveAutotuneProfile, CollectiveKind,
    CollectivePlan, CollectivePlanSource, CollectiveTopology, CollectiveTuning,
    TopologyAggregateLink, TopologyError, TopologyLink, TopologyRailLink,
    COLLECTIVE_AUTOTUNE_PROFILE_VERSION,
};
pub use transport::{
    RankTransport, TracingRankTransport, TransportTraceEvent, TransportTraceOperation,
    TransportTraceSink,
};

verus! {

#[derive(Debug, Clone, Copy, PartialEq, Eq, Structural)]
pub enum CollectiveTransport {
    HostStaged,
    TcpHostStaged,
    TcpPeer,
    PciePeer,
    Rdma,
    GxLink,
}

#[derive(Debug, Clone, Copy, PartialEq, Eq, Structural)]
pub enum CollectiveAlgorithm {
    Direct,
    Ring,
    Pairwise,
    Hierarchical,
}

} // verus!

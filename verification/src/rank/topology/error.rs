//! Rejected topologies, tunings and profiles.

use crate::rank::topology::{MAX_P2P_RAILS, MAX_RING_CHANNELS};
use crate::rank::CollectiveTransport;
use crate::text::{decimal, push_decimal, push_usize, quote, quoted};
use vstd::prelude::*;
use vstd::string::*;

verus! {

#[allow(inconsistent_fields)]
#[derive(Debug, Clone, PartialEq, Eq)]
pub enum TopologyError {
    EmptyWorld,
    RankOutOfRange { rank: u32, world_size: u32 },
    SelfLink(u32),
    ZeroBandwidth { first_rank: u32, second_rank: u32 },
    ZeroDirectBandwidth,
    ProfileRead { path: String, message: String },
    InvalidProfile(String),
    InvalidRing(String),
    InvalidRingChannels(usize),
    InvalidP2pRails(usize),
    InvalidRailOrder(String),
    P2pRailMismatch { tuning: usize, session: usize },
    TransportMismatch { tuning: CollectiveTransport, communicator: CollectiveTransport },
    InvalidHierarchy(String),
    InvalidEnvironment { name: &'static str, value: String },
}

/// A topology failure with its texts as character sequences.
#[allow(inconsistent_fields)]
pub enum TopologyFailure {
    EmptyWorld,
    RankOutOfRange { rank: u32, world_size: u32 },
    SelfLink(u32),
    ZeroBandwidth { first_rank: u32, second_rank: u32 },
    ZeroDirectBandwidth,
    ProfileRead { path: Seq<char>, message: Seq<char> },
    InvalidProfile(Seq<char>),
    InvalidRing(Seq<char>),
    InvalidRingChannels(usize),
    InvalidP2pRails(usize),
    InvalidRailOrder(Seq<char>),
    P2pRailMismatch { tuning: usize, session: usize },
    TransportMismatch { tuning: CollectiveTransport, communicator: CollectiveTransport },
    InvalidHierarchy(Seq<char>),
    InvalidEnvironment { name: Seq<char>, value: Seq<char> },
}

impl View for TopologyError {
    type V = TopologyFailure;

    open spec fn view(&self) -> TopologyFailure {
        match *self {
            TopologyError::EmptyWorld => TopologyFailure::EmptyWorld,
            TopologyError::RankOutOfRange { rank, world_size } => TopologyFailure::RankOutOfRange {
                rank,
                world_size,
            },
            TopologyError::SelfLink(rank) => TopologyFailure::SelfLink(rank),
            TopologyError::ZeroBandwidth { first_rank, second_rank } =>
                TopologyFailure::ZeroBandwidth { first_rank, second_rank },
            TopologyError::ZeroDirectBandwidth => TopologyFailure::ZeroDirectBandwidth,
            TopologyError::ProfileRead { path, message } => TopologyFailure::ProfileRead {
                path: path@,
                message: message@,
            },
            TopologyError::InvalidProfile(text) => TopologyFailure::InvalidProfile(text@),
            TopologyError::InvalidRing(text) => TopologyFailure::InvalidRing(text@),
            TopologyError::InvalidRingChannels(channels) => TopologyFailure::InvalidRingChannels(
                channels,
            ),
            TopologyError::InvalidP2pRails(rails) => TopologyFailure::InvalidP2pRails(rails),
            TopologyError::InvalidRailOrder(text) => TopologyFailure::InvalidRailOrder(text@),
            TopologyError::P2pRailMismatch { tuning, session } => TopologyFailure::P2pRailMismatch {
                tuning,
                session,
            },
            TopologyError::TransportMismatch { tuning, communicator } =>
                TopologyFailure::TransportMismatch { tuning, communicator },
            TopologyError::InvalidHierarchy(text) => TopologyFailure::InvalidHierarchy(text@),
            TopologyError::InvalidEnvironment { name, value } =>
                TopologyFailure::InvalidEnvironment { name: name@, value: value@ },
        }
    }
}

/// A transport's name in messages.
pub open spec fn transport_text(transport: CollectiveTransport) -> Seq<char> {
    match transport {
        CollectiveTransport::HostStaged => "HostStaged"@,
        CollectiveTransport::TcpHostStaged => "TcpHostStaged"@,
        CollectiveTransport::TcpPeer => "TcpPeer"@,
        CollectiveTransport::PciePeer => "PciePeer"@,
        CollectiveTransport::Rdma => "Rdma"@,
        CollectiveTransport::GxLink => "GxLink"@,
    }
}

pub fn transport_name(transport: CollectiveTransport) -> (name: &'static str)
    ensures
        name@ == transport_text(transport),
{
    match transport {
        CollectiveTransport::HostStaged => "HostStaged",
        CollectiveTransport::TcpHostStaged => "TcpHostStaged",
        CollectiveTransport::TcpPeer => "TcpPeer",
        CollectiveTransport::PciePeer => "PciePeer",
        CollectiveTransport::Rdma => "Rdma",
        CollectiveTransport::GxLink => "GxLink",
    }
}

impl TopologyFailure {
    /// The failure as text.
    pub open spec fn message(self) -> Seq<char> {
        match self {
            TopologyFailure::EmptyWorld => "collective topology cannot be empty"@,
            TopologyFailure::RankOutOfRange { rank, world_size } => "topology rank "@ + decimal(
                rank as nat,
            ) + " is outside world size "@ + decimal(world_size as nat),
            TopologyFailure::SelfLink(rank) => "topology rank "@ + decimal(rank as nat)
                + " links to itself"@,
            TopologyFailure::ZeroBandwidth { first_rank, second_rank } => "topology link "@
                + decimal(first_rank as nat) + "-"@ + decimal(second_rank as nat)
                + " has zero bandwidth"@,
            TopologyFailure::ZeroDirectBandwidth =>
                "direct collective transport has zero bandwidth"@,
            TopologyFailure::ProfileRead { path, message } =>
                "cannot read collective autotune profile "@ + quoted(path) + ": "@ + message,
            TopologyFailure::InvalidProfile(text) => "invalid collective autotune profile: "@
                + text,
            TopologyFailure::InvalidRing(text) => "invalid collective ring: "@ + text,
            TopologyFailure::InvalidRingChannels(channels) =>
                "invalid collective ring channel count "@ + decimal(channels as nat)
                + "; expected 1..="@ + decimal(MAX_RING_CHANNELS as nat),
            TopologyFailure::InvalidP2pRails(rails) => "invalid point-to-point rail count "@
                + decimal(rails as nat) + "; expected 1..="@ + decimal(MAX_P2P_RAILS as nat),
            TopologyFailure::InvalidRailOrder(text) => "invalid collective rail order: "@ + text,
            TopologyFailure::P2pRailMismatch { tuning, session } => "collective tuning declares "@
                + decimal(tuning as nat) + " point-to-point rails, session has "@ + decimal(
                session as nat,
            ),
            TopologyFailure::TransportMismatch { tuning, communicator } =>
                "collective tuning targets "@ + transport_text(tuning) + ", communicator uses "@
                + transport_text(communicator),
            TopologyFailure::InvalidHierarchy(text) => "invalid collective hierarchy: "@ + text,
            TopologyFailure::InvalidEnvironment { name, value } => "invalid "@ + name + " value "@
                + quoted(value),
        }
    }
}

impl TopologyError {
    /// The error as text.
    pub fn to_string(&self) -> (text: String)
        ensures
            text@ == self@.message(),
    {
        match self {
            TopologyError::EmptyWorld => String::from_str("collective topology cannot be empty"),
            TopologyError::RankOutOfRange { rank, world_size } => {
                let mut text = String::from_str("topology rank ");
                push_decimal(&mut text, *rank as u64);
                text.append(" is outside world size ");
                push_decimal(&mut text, *world_size as u64);
                text
            },
            TopologyError::SelfLink(rank) => {
                let mut text = String::from_str("topology rank ");
                push_decimal(&mut text, *rank as u64);
                text.append(" links to itself");
                text
            },
            TopologyError::ZeroBandwidth { first_rank, second_rank } => {
                let mut text = String::from_str("topology link ");
                push_decimal(&mut text, *first_rank as u64);
                text.append("-");
                push_decimal(&mut text, *second_rank as u64);
                text.append(" has zero bandwidth");
                text
            },
            TopologyError::ZeroDirectBandwidth => String::from_str(
                "direct collective transport has zero bandwidth",
            ),
            TopologyError::ProfileRead { path, message } => {
                let mut text = String::from_str("cannot read collective autotune profile ");
                text.append(quote(path.as_str()).as_str());
                text.append(": ");
                text.append(message.as_str());
                text
            },
            TopologyError::InvalidProfile(message) => {
                let mut text = String::from_str("invalid collective autotune profile: ");
                text.append(message.as_str());
                text
            },
            TopologyError::InvalidRing(message) => {
                let mut text = String::from_str("invalid collective ring: ");
                text.append(message.as_str());
                text
            },
            TopologyError::InvalidRingChannels(channels) => {
                let mut text = String::from_str("invalid collective ring channel count ");
                push_usize(&mut text, *channels);
                text.append("; expected 1..=");
                push_usize(&mut text, MAX_RING_CHANNELS);
                text
            },
            TopologyError::InvalidP2pRails(rails) => {
                let mut text = String::from_str("invalid point-to-point rail count ");
                push_usize(&mut text, *rails);
                text.append("; expected 1..=");
                push_usize(&mut text, MAX_P2P_RAILS);
                text
            },
            TopologyError::InvalidRailOrder(message) => {
                let mut text = String::from_str("invalid collective rail order: ");
                text.append(message.as_str());
                text
            },
            TopologyError::P2pRailMismatch { tuning, session } => {
                let mut text = String::from_str("collective tuning declares ");
                push_usize(&mut text, *tuning);
                text.append(" point-to-point rails, session has ");
                push_usize(&mut text, *session);
                text
            },
            TopologyError::TransportMismatch { tuning, communicator } => {
                let mut text = String::from_str("collective tuning targets ");
                text.append(transport_name(*tuning));
                text.append(", communicator uses ");
                text.append(transport_name(*communicator));
                text
            },
            TopologyError::InvalidHierarchy(message) => {
                let mut text = String::from_str("invalid collective hierarchy: ");
                text.append(message.as_str());
                text
            },
            TopologyError::InvalidEnvironment { name, value } => {
                let mut text = String::from_str("invalid ");
                text.append(name);
                text.append(" value ");
                text.append(quote(value.as_str()).as_str());
                text
            },
        }
    }
}

} // verus!

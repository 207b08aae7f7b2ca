//! Failures of rank-local collectives.

use crate::rank::network::{NetworkError, NetworkFailure};
use crate::text::{decimal, push_usize};
use vstd::prelude::*;
use vstd::std_specs::convert::{FromSpec, FromSpecImpl};
use vstd::string::*;

verus! {

#[derive(Debug, Clone, PartialEq, Eq)]
pub enum RankError {
    RankOutOfRange { rank: usize, world_size: usize },
    InvalidLength(&'static str),
    Overflow(&'static str),
    Network(NetworkError),
}

/// A rank failure with its texts as character sequences.
pub enum RankFailure {
    RankOutOfRange { rank: usize, world_size: usize },
    InvalidLength(Seq<char>),
    Overflow(Seq<char>),
    Network(NetworkFailure),
}

impl View for RankError {
    type V = RankFailure;

    open spec fn view(&self) -> RankFailure {
        match *self {
            RankError::RankOutOfRange { rank, world_size } => RankFailure::RankOutOfRange {
                rank,
                world_size,
            },
            RankError::InvalidLength(text) => RankFailure::InvalidLength(text@),
            RankError::Overflow(text) => RankFailure::Overflow(text@),
            RankError::Network(error) => RankFailure::Network(error@),
        }
    }
}

impl RankFailure {
    /// The failure as text.
    pub open spec fn message(self) -> Seq<char> {
        match self {
            RankFailure::RankOutOfRange { rank, world_size } => "rank "@ + decimal(rank as nat)
                + " is outside collective world size "@ + decimal(world_size as nat),
            RankFailure::InvalidLength(text) => "invalid collective length: "@ + text,
            RankFailure::Overflow(text) => "collective size overflow while computing "@ + text,
            RankFailure::Network(error) => error.message(),
        }
    }
}

impl RankError {
    /// The error as text.
    pub fn to_string(&self) -> (text: String)
        ensures
            text@ == self@.message(),
    {
        match self {
            RankError::RankOutOfRange { rank, world_size } => {
                let mut text = String::from_str("rank ");
                push_usize(&mut text, *rank);
                text.append(" is outside collective world size ");
                push_usize(&mut text, *world_size);
                text
            },
            RankError::InvalidLength(message) => {
                let mut text = String::from_str("invalid collective length: ");
                text.append(message);
                text
            },
            RankError::Overflow(what) => {
                let mut text = String::from_str("collective size overflow while computing ");
                text.append(what);
                text
            },
            RankError::Network(error) => error.to_string(),
        }
    }
}

/// `result` is `error` as a caller's own error type holds it.
pub open spec fn raised<X, E: From<X>>(error: X, result: E) -> bool {
    <E as FromSpec<X>>::obeys_from_spec() ==> result == <E as FromSpec<X>>::from_spec(error)
}

impl FromSpecImpl<NetworkError> for RankError {
    open spec fn obeys_from_spec() -> bool {
        true
    }

    open spec fn from_spec(error: NetworkError) -> RankError {
        RankError::Network(error)
    }
}

impl From<NetworkError> for RankError {
    fn from(error: NetworkError) -> (result: RankError) {
        RankError::Network(error)
    }
}

} // verus!

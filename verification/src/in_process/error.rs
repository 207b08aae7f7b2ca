//! Failures of in-process collectives.

use crate::text::{decimal, push_usize};
use vstd::prelude::*;
use vstd::string::*;

verus! {

#[derive(Debug, PartialEq, Eq)]
pub enum InProcessError {
    EmptyWorld,
    RankOutOfRange { rank: usize, world_size: usize },
    WrongCommunicator,
    InvalidLength(&'static str),
    Overflow(&'static str),
}

impl InProcessError {
    /// The error as text.
    pub open spec fn message(self) -> Seq<char> {
        match self {
            InProcessError::EmptyWorld => "collective world must contain at least one rank"@,
            InProcessError::RankOutOfRange { rank, world_size } => "rank "@ + decimal(rank as nat)
                + " is outside collective world size "@ + decimal(world_size as nat),
            InProcessError::WrongCommunicator =>
                "distributed buffer belongs to another communicator"@,
            InProcessError::InvalidLength(text) => "invalid collective length: "@ + text@,
            InProcessError::Overflow(text) => "collective size overflow while computing "@ + text@,
        }
    }

    pub fn to_string(&self) -> (text: String)
        ensures
            text@ == self.message(),
    {
        match self {
            InProcessError::EmptyWorld => String::from_str(
                "collective world must contain at least one rank",
            ),
            InProcessError::RankOutOfRange { rank, world_size } => {
                let mut text = String::from_str("rank ");
                push_usize(&mut text, *rank);
                text.append(" is outside collective world size ");
                push_usize(&mut text, *world_size);
                text
            },
            InProcessError::WrongCommunicator => String::from_str(
                "distributed buffer belongs to another communicator",
            ),
            InProcessError::InvalidLength(message) => {
                let mut text = String::from_str("invalid collective length: ");
                text.append(message);
                text
            },
            InProcessError::Overflow(what) => {
                let mut text = String::from_str("collective size overflow while computing ");
                text.append(what);
                text
            },
        }
    }
}

} // verus!

//! Failures of rendezvous sessions.

use crate::rank::protocol::ProtocolError;
use crate::text::{decimal, push_decimal};
use vstd::prelude::*;
use vstd::std_specs::convert::FromSpecImpl;
use vstd::string::*;

verus! {

/// `Io` holds the operating system's message.
#[derive(Debug, Clone, PartialEq, Eq)]
pub enum NetworkError {
    Io(String),
    Protocol(ProtocolError),
    InvalidConfiguration(String),
    RankAlreadyJoined(u32),
    WrongSession,
    WrongDestination { expected: u32, actual: u32 },
    RemoteAbort(String),
    Timeout(String),
    ChannelClosed,
    Poisoned,
}

/// A network failure with its texts as character sequences.
pub enum NetworkFailure {
    Io(Seq<char>),
    Protocol(ProtocolError),
    InvalidConfiguration(Seq<char>),
    RankAlreadyJoined(u32),
    WrongSession,
    WrongDestination { expected: u32, actual: u32 },
    RemoteAbort(Seq<char>),
    Timeout(Seq<char>),
    ChannelClosed,
    Poisoned,
}

impl View for NetworkError {
    type V = NetworkFailure;

    open spec fn view(&self) -> NetworkFailure {
        match *self {
            NetworkError::Io(text) => NetworkFailure::Io(text@),
            NetworkError::Protocol(error) => NetworkFailure::Protocol(error),
            NetworkError::InvalidConfiguration(text) => NetworkFailure::InvalidConfiguration(text@),
            NetworkError::RankAlreadyJoined(rank) => NetworkFailure::RankAlreadyJoined(rank),
            NetworkError::WrongSession => NetworkFailure::WrongSession,
            NetworkError::WrongDestination { expected, actual } => NetworkFailure::WrongDestination {
                expected,
                actual,
            },
            NetworkError::RemoteAbort(text) => NetworkFailure::RemoteAbort(text@),
            NetworkError::Timeout(text) => NetworkFailure::Timeout(text@),
            NetworkError::ChannelClosed => NetworkFailure::ChannelClosed,
            NetworkError::Poisoned => NetworkFailure::Poisoned,
        }
    }
}

impl NetworkFailure {
    /// The failure as text.
    pub open spec fn message(self) -> Seq<char> {
        match self {
            NetworkFailure::Io(text) => text,
            NetworkFailure::Protocol(error) => error.message(),
            NetworkFailure::InvalidConfiguration(text) => text,
            NetworkFailure::RankAlreadyJoined(rank) => "rank "@ + decimal(rank as nat)
                + " joined twice"@,
            NetworkFailure::WrongSession => "collective frame belongs to another session"@,
            NetworkFailure::WrongDestination { expected, actual } =>
                "collective response destination "@ + decimal(actual as nat)
                + " does not match rank "@ + decimal(expected as nat),
            NetworkFailure::RemoteAbort(text) => "collective coordinator aborted: "@ + text,
            NetworkFailure::Timeout(text) => text + " timed out"@,
            NetworkFailure::ChannelClosed => "collective response channel closed"@,
            NetworkFailure::Poisoned => "TCP collective session is poisoned"@,
        }
    }
}

impl NetworkError {
    /// The error as text.
    pub fn to_string(&self) -> (text: String)
        ensures
            text@ == self@.message(),
    {
        match self {
            NetworkError::Io(text) => text.clone(),
            NetworkError::Protocol(error) => error.to_string(),
            NetworkError::InvalidConfiguration(text) => text.clone(),
            NetworkError::RankAlreadyJoined(rank) => {
                let mut text = String::from_str("rank ");
                push_decimal(&mut text, *rank as u64);
                text.append(" joined twice");
                text
            },
            NetworkError::WrongSession => String::from_str(
                "collective frame belongs to another session",
            ),
            NetworkError::WrongDestination { expected, actual } => {
                let mut text = String::from_str("collective response destination ");
                push_decimal(&mut text, *actual as u64);
                text.append(" does not match rank ");
                push_decimal(&mut text, *expected as u64);
                text
            },
            NetworkError::RemoteAbort(message) => {
                let mut text = String::from_str("collective coordinator aborted: ");
                text.append(message.as_str());
                text
            },
            NetworkError::Timeout(operation) => {
                let mut text = operation.clone();
                text.append(" timed out");
                text
            },
            NetworkError::ChannelClosed => String::from_str("collective response channel closed"),
            NetworkError::Poisoned => String::from_str("TCP collective session is poisoned"),
        }
    }

    /// A rejected configuration with a fixed message.
    pub fn invalid(message: &str) -> (error: Self)
        ensures
            error@ == NetworkFailure::InvalidConfiguration(message@),
    {
        NetworkError::InvalidConfiguration(String::from_str(message))
    }
}

impl FromSpecImpl<ProtocolError> for NetworkError {
    open spec fn obeys_from_spec() -> bool {
        true
    }

    open spec fn from_spec(error: ProtocolError) -> NetworkError {
        NetworkError::Protocol(error)
    }
}

impl From<ProtocolError> for NetworkError {
    fn from(error: ProtocolError) -> (result: NetworkError) {
        NetworkError::Protocol(error)
    }
}

} // verus!

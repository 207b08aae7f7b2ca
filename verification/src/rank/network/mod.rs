//! Rendezvous sessions: coordination, routing and point-to-point matching.

pub mod control;
pub mod coordinator;
pub mod endpoints;
pub mod error;
pub mod laws;
pub mod matching;
pub mod measure_laws;
pub mod probe;
pub mod probe_laws;
pub mod route_laws;
pub mod routing;
pub mod schedule;
pub mod session;
pub mod tables;

pub use error::{NetworkError, NetworkFailure};

use vstd::prelude::*;

verus! {

/// The envelope fields of one collective exchange.
#[derive(Debug, Clone, Copy, PartialEq, Eq, Structural)]
pub struct ExchangeOptions {
    pub root_rank: u32,
    pub element_count: u64,
    pub flags: u16,
    pub tag: u64,
}

impl ExchangeOptions {
    pub fn new(root_rank: u32, element_count: u64) -> (options: Self)
        ensures
            options == (ExchangeOptions { root_rank, element_count, flags: 0, tag: 0 }),
    {
        Self { root_rank, element_count, flags: 0, tag: 0 }
    }
}

} // verus!

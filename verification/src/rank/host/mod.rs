//! Collectives whose data is staged on the host.

pub mod exchange;
pub mod reduction;
pub mod reduction_laws;

pub use exchange::HostStagedExchange;

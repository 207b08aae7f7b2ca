//! Collective communication: wire protocol, topology planning, rendezvous
//! routing, and the collective algorithms of in-process and rank-local devices.

pub mod chars;
pub mod in_process;
pub mod math;
pub mod rank;
pub mod text;

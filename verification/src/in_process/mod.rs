//! Collectives among ranks that live in one process.

pub mod buffer;
pub mod collective;
pub mod device;
pub mod error;
pub mod owner;

pub use buffer::{DistributedBuffer, RootedBuffer, VariableDistributedBuffer};
pub use collective::PointToPointTransfer;
pub use owner::{Communicator, CommunicatorIds};

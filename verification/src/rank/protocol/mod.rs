//! Versioned wire contract shared by host-staged, TCP, peer-memory, and RDMA
//! collective transports.

pub mod agreement;
pub mod codes;
pub mod error;
pub mod frame;
pub mod header;
pub mod identity;

pub use agreement::{CollectiveAgreement, OperationDescriptor};
pub use codes::{ElementType, Opcode};
pub use error::ProtocolError;
pub use frame::Frame;
pub use header::{checksum, FrameHeader};
pub use identity::UniqueId;

use vstd::prelude::*;

verus! {

pub const PROTOCOL_MAGIC: [u8; 4] = [71, 88, 67, 76];

pub const PROTOCOL_VERSION: u16 = 3;

pub const FRAME_HEADER_BYTES: usize = 80;

pub const MAX_FRAME_PAYLOAD_BYTES: usize = 1073741824;

pub const ANY_RANK: u32 = 4294967295;

pub const FLAG_PAYLOAD: u16 = 1;

pub const FLAG_COUNTS_PREFIX: u16 = 2;

pub const FLAG_P2P_CHANNEL: u16 = 4;

} // verus!

//! Violations of the wire contract.

use crate::rank::protocol::{Opcode, OperationDescriptor, FRAME_HEADER_BYTES};
use crate::text::{
    decimal, hex_fixed, number_list, push_decimal, push_hex, push_number_list, push_usize,
};
use vstd::prelude::*;
use vstd::string::*;

verus! {

#[allow(inconsistent_fields)]
#[derive(Debug, Clone, PartialEq, Eq)]
pub enum ProtocolError {
    TruncatedHeader(usize),
    BadMagic([u8; 4]),
    UnsupportedVersion(u16),
    UnsupportedHeaderLength(usize),
    UnknownOpcode(u8),
    UnknownElementType(u8),
    UnknownFlags(u16),
    UnexpectedCountsPrefix(Opcode),
    UnexpectedP2pChannelFlag(Opcode),
    EmptyWorld,
    RankOutOfRange { name: &'static str, rank: u32, world_size: u32 },
    PayloadTooLarge(usize),
    PayloadFlagMismatch,
    ElementLengthMismatch,
    PayloadLengthMismatch { declared: usize, actual: usize },
    FrameLengthMismatch { declared: usize, actual: usize },
    ChecksumMismatch { declared: u32, actual: u32 },
    SequenceMismatch { expected: u64, actual: u64 },
    DuplicateSubmission { rank: usize, sequence: u64 },
    CollectiveMismatch {
        sequence: u64,
        expected: OperationDescriptor,
        actual: OperationDescriptor,
    },
    SequenceOverflow,
}

impl ProtocolError {
    /// The error as text.
    pub open spec fn message(self) -> Seq<char> {
        match self {
            ProtocolError::TruncatedHeader(actual) => "GX collective header needs "@ + decimal(
                FRAME_HEADER_BYTES as nat,
            ) + " bytes, got "@ + decimal(actual as nat),
            ProtocolError::BadMagic(actual) => "bad GX collective magic "@ + number_list(
                seq![actual@[0] as nat, actual@[1] as nat, actual@[2] as nat, actual@[3] as nat],
            ),
            ProtocolError::UnsupportedVersion(version) =>
                "unsupported GX collective protocol version "@ + decimal(version as nat),
            ProtocolError::UnsupportedHeaderLength(length) =>
                "unsupported GX collective header length "@ + decimal(length as nat),
            ProtocolError::UnknownOpcode(opcode) => "unknown collective opcode "@ + decimal(
                opcode as nat,
            ),
            ProtocolError::UnknownElementType(element_type) => "unknown collective element type "@
                + decimal(element_type as nat),
            ProtocolError::UnknownFlags(flags) => "unknown collective frame flags 0x"@ + hex_fixed(
                flags as nat,
                4,
            ),
            ProtocolError::UnexpectedCountsPrefix(opcode) => "counts prefix is invalid for "@
                + opcode.spec_name(),
            ProtocolError::UnexpectedP2pChannelFlag(opcode) =>
                "point-to-point channel flag is invalid for "@ + opcode.spec_name(),
            ProtocolError::EmptyWorld => "collective protocol world cannot be empty"@,
            ProtocolError::RankOutOfRange { name, rank, world_size } => name@ + " rank "@
                + decimal(rank as nat) + " is outside protocol world size "@ + decimal(
                world_size as nat,
            ),
            ProtocolError::PayloadTooLarge(bytes) => "collective payload of "@ + decimal(
                bytes as nat,
            ) + " bytes is too large"@,
            ProtocolError::PayloadFlagMismatch => "collective payload flag and length disagree"@,
            ProtocolError::ElementLengthMismatch =>
                "collective element count and payload length disagree"@,
            ProtocolError::PayloadLengthMismatch { declared, actual } =>
                "collective payload declares "@ + decimal(declared as nat) + " bytes, got "@
                + decimal(actual as nat),
            ProtocolError::FrameLengthMismatch { declared, actual } =>
                "collective frame declares "@ + decimal(declared as nat) + " bytes, got "@
                + decimal(actual as nat),
            ProtocolError::ChecksumMismatch { declared, actual } =>
                "collective payload checksum 0x"@ + hex_fixed(actual as nat, 8)
                + " does not match 0x"@ + hex_fixed(declared as nat, 8),
            ProtocolError::SequenceMismatch { expected, actual } => "collective sequence "@
                + decimal(actual as nat) + " does not match expected "@ + decimal(expected as nat),
            ProtocolError::DuplicateSubmission { rank, sequence } => "rank "@ + decimal(
                rank as nat,
            ) + " submitted collective sequence "@ + decimal(sequence as nat) + " twice"@,
            ProtocolError::CollectiveMismatch { sequence, expected, actual } =>
                "collective sequence "@ + decimal(sequence as nat) + " mismatch: expected "@
                + expected.description() + ", got "@ + actual.description(),
            ProtocolError::SequenceOverflow => "collective sequence overflow"@,
        }
    }

    /// The error as text.
    pub fn to_string(&self) -> (text: String)
        ensures
            text@ == self.message(),
    {
        match self {
            ProtocolError::TruncatedHeader(actual) => {
                let mut text = String::from_str("GX collective header needs ");
                push_usize(&mut text, FRAME_HEADER_BYTES);
                text.append(" bytes, got ");
                push_usize(&mut text, *actual);
                text
            },
            ProtocolError::BadMagic(actual) => {
                let mut text = String::from_str("bad GX collective magic ");
                let numbers: [u64; 4] = [
                    actual[0] as u64,
                    actual[1] as u64,
                    actual[2] as u64,
                    actual[3] as u64,
                ];
                push_number_list(&mut text, &numbers);
                assert(numbers@.map_values(|v: u64| v as nat) =~= seq![
                    actual@[0] as nat,
                    actual@[1] as nat,
                    actual@[2] as nat,
                    actual@[3] as nat,
                ]);
                text
            },
            ProtocolError::UnsupportedVersion(version) => {
                let mut text = String::from_str("unsupported GX collective protocol version ");
                push_decimal(&mut text, *version as u64);
                text
            },
            ProtocolError::UnsupportedHeaderLength(length) => {
                let mut text = String::from_str("unsupported GX collective header length ");
                push_usize(&mut text, *length);
                text
            },
            ProtocolError::UnknownOpcode(opcode) => {
                let mut text = String::from_str("unknown collective opcode ");
                push_decimal(&mut text, *opcode as u64);
                text
            },
            ProtocolError::UnknownElementType(element_type) => {
                let mut text = String::from_str("unknown collective element type ");
                push_decimal(&mut text, *element_type as u64);
                text
            },
            ProtocolError::UnknownFlags(flags) => {
                let mut text = String::from_str("unknown collective frame flags 0x");
                push_hex(&mut text, *flags as u64, 4);
                text
            },
            ProtocolError::UnexpectedCountsPrefix(opcode) => {
                let mut text = String::from_str("counts prefix is invalid for ");
                text.append(opcode.name());
                text
            },
            ProtocolError::UnexpectedP2pChannelFlag(opcode) => {
                let mut text = String::from_str("point-to-point channel flag is invalid for ");
                text.append(opcode.name());
                text
            },
            ProtocolError::EmptyWorld => String::from_str(
                "collective protocol world cannot be empty",
            ),
            ProtocolError::RankOutOfRange { name, rank, world_size } => {
                let mut text = String::from_str(name);
                text.append(" rank ");
                push_decimal(&mut text, *rank as u64);
                text.append(" is outside protocol world size ");
                push_decimal(&mut text, *world_size as u64);
                text
            },
            ProtocolError::PayloadTooLarge(bytes) => {
                let mut text = String::from_str("collective payload of ");
                push_usize(&mut text, *bytes);
                text.append(" bytes is too large");
                text
            },
            ProtocolError::PayloadFlagMismatch => String::from_str(
                "collective payload flag and length disagree",
            ),
            ProtocolError::ElementLengthMismatch => String::from_str(
                "collective element count and payload length disagree",
            ),
            ProtocolError::PayloadLengthMismatch { declared, actual } => {
                let mut text = String::from_str("collective payload declares ");
                push_usize(&mut text, *declared);
                text.append(" bytes, got ");
                push_usize(&mut text, *actual);
                text
            },
            ProtocolError::FrameLengthMismatch { declared, actual } => {
                let mut text = String::from_str("collective frame declares ");
                push_usize(&mut text, *declared);
                text.append(" bytes, got ");
                push_usize(&mut text, *actual);
                text
            },
            ProtocolError::ChecksumMismatch { declared, actual } => {
                let mut text = String::from_str("collective payload checksum 0x");
                push_hex(&mut text, *actual as u64, 8);
                text.append(" does not match 0x");
                push_hex(&mut text, *declared as u64, 8);
                text
            },
            ProtocolError::SequenceMismatch { expected, actual } => {
                let mut text = String::from_str("collective sequence ");
                push_decimal(&mut text, *actual);
                text.append(" does not match expected ");
                push_decimal(&mut text, *expected);
                text
            },
            ProtocolError::DuplicateSubmission { rank, sequence } => {
                let mut text = String::from_str("rank ");
                push_usize(&mut text, *rank);
                text.append(" submitted collective sequence ");
                push_decimal(&mut text, *sequence);
                text.append(" twice");
                text
            },
            ProtocolError::CollectiveMismatch { sequence, expected, actual } => {
                let mut text = String::from_str("collective sequence ");
                push_decimal(&mut text, *sequence);
                text.append(" mismatch: expected ");
                expected.push_description(&mut text);
                text.append(", got ");
                actual.push_description(&mut text);
                text
            },
            ProtocolError::SequenceOverflow => String::from_str("collective sequence overflow"),
        }
    }
}

} // verus!

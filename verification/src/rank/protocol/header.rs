//! Frame headers: validation and wire image.

use crate::rank::protocol::identity::array_16;
use crate::rank::protocol::{
    ElementType, Opcode, ProtocolError, UniqueId, ANY_RANK, FLAG_COUNTS_PREFIX, FLAG_P2P_CHANNEL,
    FLAG_PAYLOAD, FRAME_HEADER_BYTES, MAX_FRAME_PAYLOAD_BYTES, PROTOCOL_MAGIC, PROTOCOL_VERSION,
};
use vstd::bytes::*;
use vstd::prelude::*;
use vstd::slice::*;

verus! {

/// The CRC-32 checksum of a byte sequence.
pub uninterp spec fn crc32(bytes: Seq<u8>) -> u32;

/// `crc32fast::hash`: the CRC-32 checksum depends on the bytes alone.
#[verifier::external_body]
fn crc32_of(bytes: &[u8]) -> (sum: u32)
    ensures
        sum == crc32(bytes@),
{
    crc32fast::hash(bytes)
}

/// The payload checksum of the wire protocol.
pub fn checksum(bytes: &[u8]) -> (sum: u32)
    ensures
        sum == crc32(bytes@),
{
    crc32_of(bytes)
}

#[derive(Debug, Clone, Copy, PartialEq, Eq)]
pub struct FrameHeader {
    pub opcode: Opcode,
    pub element_type: ElementType,
    pub flags: u16,
    pub source_rank: u32,
    pub destination_rank: u32,
    pub root_rank: u32,
    pub world_size: u32,
    pub sequence: u64,
    pub tag: u64,
    pub element_count: u64,
    pub payload_bytes: u64,
    pub unique_id: UniqueId,
    pub payload_checksum: u32,
}

/// Whether a rank field of a header names a rank of the world, or any rank
/// where that is allowed.
pub open spec fn rank_in_world(rank: u32, world_size: u32, allow_any: bool) -> bool {
    (allow_any && rank == ANY_RANK) || rank < world_size
}

impl FrameHeader {
    pub open spec fn unknown_flags(self) -> u16 {
        self.flags & !7u16
    }

    pub open spec fn has_payload(self) -> bool {
        self.flags & FLAG_PAYLOAD != 0
    }

    pub open spec fn has_counts_prefix(self) -> bool {
        self.flags & FLAG_COUNTS_PREFIX != 0
    }

    pub open spec fn has_p2p_channel(self) -> bool {
        self.flags & FLAG_P2P_CHANNEL != 0
    }

    /// The payload bytes that the element count, the element type and the
    /// counts prefix ask for.
    pub open spec fn expected_payload(self) -> int {
        self.element_count * self.element_type.width() + (if self.has_counts_prefix() {
            8 * self.world_size
        } else {
            0
        })
    }

    /// What is wrong with the header fields, if anything.
    pub open spec fn defect(self) -> Option<ProtocolError> {
        if self.unknown_flags() != 0 {
            Some(ProtocolError::UnknownFlags(self.unknown_flags()))
        } else if self.has_counts_prefix() && self.opcode != Opcode::AllToAllV {
            Some(ProtocolError::UnexpectedCountsPrefix(self.opcode))
        } else if self.has_p2p_channel() && self.opcode != Opcode::Join && self.opcode
            != Opcode::Ready {
            Some(ProtocolError::UnexpectedP2pChannelFlag(self.opcode))
        } else if self.world_size == 0 {
            Some(ProtocolError::EmptyWorld)
        } else if !rank_in_world(self.source_rank, self.world_size, false) {
            Some(ProtocolError::RankOutOfRange {
                name: "source",
                rank: self.source_rank,
                world_size: self.world_size,
            })
        } else if !rank_in_world(self.destination_rank, self.world_size, true) {
            Some(ProtocolError::RankOutOfRange {
                name: "destination",
                rank: self.destination_rank,
                world_size: self.world_size,
            })
        } else if !rank_in_world(self.root_rank, self.world_size, true) {
            Some(ProtocolError::RankOutOfRange {
                name: "root",
                rank: self.root_rank,
                world_size: self.world_size,
            })
        } else if self.payload_bytes > usize::MAX {
            Some(ProtocolError::PayloadTooLarge(usize::MAX))
        } else if self.payload_bytes > MAX_FRAME_PAYLOAD_BYTES {
            Some(ProtocolError::PayloadTooLarge(self.payload_bytes as usize))
        } else if self.has_payload() != (self.payload_bytes != 0) {
            Some(ProtocolError::PayloadFlagMismatch)
        } else if self.element_type == ElementType::Untyped && (self.element_count != 0
            || self.payload_bytes != 0) {
            Some(ProtocolError::ElementLengthMismatch)
        } else if self.element_type != ElementType::Untyped && self.has_payload()
            && self.expected_payload() != self.payload_bytes {
            Some(ProtocolError::ElementLengthMismatch)
        } else {
            None
        }
    }

    /// What is wrong with the header beside its payload, if anything.
    pub open spec fn payload_defect(self, payload: Seq<u8>) -> Option<ProtocolError> {
        if self.defect() is Some {
            self.defect()
        } else if payload.len() != self.payload_bytes {
            Some(ProtocolError::PayloadLengthMismatch {
                declared: self.payload_bytes as usize,
                actual: payload.len() as usize,
            })
        } else if crc32(payload) != self.payload_checksum {
            Some(ProtocolError::ChecksumMismatch {
                declared: self.payload_checksum,
                actual: crc32(payload),
            })
        } else {
            None
        }
    }

    /// The header that declares `payload`.
    pub open spec fn declaring(self, payload: Seq<u8>) -> FrameHeader {
        FrameHeader {
            flags: self.flags | FLAG_PAYLOAD,
            payload_bytes: payload.len() as u64,
            payload_checksum: crc32(payload),
            ..self
        }
    }

    /// The header's wire image.
    pub open spec fn wire(self) -> Seq<u8> {
        PROTOCOL_MAGIC@ + spec_u16_to_le_bytes(PROTOCOL_VERSION) + spec_u16_to_le_bytes(
            FRAME_HEADER_BYTES as u16,
        ) + seq![self.opcode.spec_code(), self.element_type.spec_code()] + spec_u16_to_le_bytes(
            self.flags,
        ) + spec_u32_to_le_bytes(self.source_rank) + spec_u32_to_le_bytes(self.destination_rank)
            + spec_u32_to_le_bytes(self.root_rank) + spec_u32_to_le_bytes(self.world_size)
            + spec_u64_to_le_bytes(self.sequence) + spec_u64_to_le_bytes(self.tag)
            + spec_u64_to_le_bytes(self.element_count) + spec_u64_to_le_bytes(self.payload_bytes)
            + self.unique_id.0@ + spec_u32_to_le_bytes(self.payload_checksum)
    }

    /// Whether the fields of the header are those of a wire image.
    pub open spec fn read_from(self, bytes: Seq<u8>) -> bool {
        &&& Opcode::from_code(bytes[8]) == Ok::<Opcode, ProtocolError>(self.opcode)
        &&& ElementType::from_code(bytes[9]) == Ok::<ElementType, ProtocolError>(self.element_type)
        &&& self.flags == spec_u16_from_le_bytes(bytes.subrange(10, 12))
        &&& self.source_rank == spec_u32_from_le_bytes(bytes.subrange(12, 16))
        &&& self.destination_rank == spec_u32_from_le_bytes(bytes.subrange(16, 20))
        &&& self.root_rank == spec_u32_from_le_bytes(bytes.subrange(20, 24))
        &&& self.world_size == spec_u32_from_le_bytes(bytes.subrange(24, 28))
        &&& self.sequence == spec_u64_from_le_bytes(bytes.subrange(28, 36))
        &&& self.tag == spec_u64_from_le_bytes(bytes.subrange(36, 44))
        &&& self.element_count == spec_u64_from_le_bytes(bytes.subrange(44, 52))
        &&& self.payload_bytes == spec_u64_from_le_bytes(bytes.subrange(52, 60))
        &&& self.unique_id.0@ == bytes.subrange(60, 76)
        &&& self.payload_checksum == spec_u32_from_le_bytes(bytes.subrange(76, 80))
    }

    /// What is wrong with the fixed fields of a wire image, if anything.
    pub open spec fn preamble_defect(bytes: Seq<u8>) -> Option<ProtocolError> {
        if bytes.len() < FRAME_HEADER_BYTES {
            Some(ProtocolError::TruncatedHeader(bytes.len() as usize))
        } else if bytes.subrange(0, 4) != PROTOCOL_MAGIC@ {
            Some(ProtocolError::BadMagic(array_of_four(bytes.subrange(0, 4))))
        } else if spec_u16_from_le_bytes(bytes.subrange(4, 6)) != PROTOCOL_VERSION {
            Some(
                ProtocolError::UnsupportedVersion(spec_u16_from_le_bytes(bytes.subrange(4, 6))),
            )
        } else if spec_u16_from_le_bytes(bytes.subrange(6, 8)) != FRAME_HEADER_BYTES {
            Some(
                ProtocolError::UnsupportedHeaderLength(
                    spec_u16_from_le_bytes(bytes.subrange(6, 8)) as usize,
                ),
            )
        } else if Opcode::from_code(bytes[8]) is Err {
            Some(Opcode::from_code(bytes[8])->Err_0)
        } else if ElementType::from_code(bytes[9]) is Err {
            Some(ElementType::from_code(bytes[9])->Err_0)
        } else {
            None
        }
    }

    /// Whether `result` is what a wire image decodes to.
    pub open spec fn decodes(bytes: Seq<u8>, result: Result<FrameHeader, ProtocolError>) -> bool {
        match FrameHeader::preamble_defect(bytes) {
            Some(defect) => result == Err::<FrameHeader, _>(defect),
            None => match result {
                Ok(header) => header.read_from(bytes) && header.defect() is None,
                Err(error) => exists|header: FrameHeader|
                    #[trigger]
                    header.read_from(bytes) && header.defect() == Some(error),
            },
        }
    }

    pub fn collective(
        unique_id: UniqueId,
        opcode: Opcode,
        element_type: ElementType,
        source_rank: u32,
        root_rank: u32,
        world_size: u32,
        sequence: u64,
        element_count: u64,
    ) -> (header: Self)
        ensures
            header == (FrameHeader {
                opcode,
                element_type,
                flags: 0,
                source_rank,
                destination_rank: ANY_RANK,
                root_rank,
                world_size,
                sequence,
                tag: 0,
                element_count,
                payload_bytes: 0,
                unique_id,
                payload_checksum: crc32(Seq::empty()),
            }),
    {
        let nothing: Vec<u8> = Vec::new();
        let payload_checksum: u32 = checksum(nothing.as_slice());
        assert(nothing@ =~= Seq::<u8>::empty());
        Self {
            opcode,
            element_type,
            flags: 0,
            source_rank,
            destination_rank: ANY_RANK,
            root_rank,
            world_size,
            sequence,
            tag: 0,
            element_count,
            payload_bytes: 0,
            unique_id,
            payload_checksum,
        }
    }

    pub fn with_payload(self, payload: &[u8]) -> (result: Result<Self, ProtocolError>)
        ensures
            result == (if payload@.len() > MAX_FRAME_PAYLOAD_BYTES {
                Err(ProtocolError::PayloadTooLarge(payload@.len() as usize))
            } else {
                match self.declaring(payload@).defect() {
                    Some(defect) => Err(defect),
                    None => Ok(self.declaring(payload@)),
                }
            }),
    {
        if payload.len() > MAX_FRAME_PAYLOAD_BYTES {
            return Err(ProtocolError::PayloadTooLarge(payload.len()));
        }
        let mut header = self;
        header.flags = header.flags | FLAG_PAYLOAD;
        header.payload_bytes = payload.len() as u64;
        header.payload_checksum = checksum(payload);
        match header.validate(None) {
            Ok(()) => Ok(header),
            Err(error) => Err(error),
        }
    }

    pub fn encode(&self) -> (result: Result<[u8; 80], ProtocolError>)
        ensures
            match self.defect() {
                Some(defect) => result == Err::<[u8; 80], _>(defect),
                None => result is Ok && result->Ok_0@ == self.wire(),
            },
    {
        match self.validate(None) {
            Ok(()) => {},
            Err(error) => {
                return Err(error);
            },
        }
        proof {
            lemma_auto_spec_u16_to_from_le_bytes();
            lemma_auto_spec_u32_to_from_le_bytes();
            lemma_auto_spec_u64_to_from_le_bytes();
        }
        let mut bytes: Vec<u8> = Vec::with_capacity(FRAME_HEADER_BYTES);
        extend(&mut bytes, &PROTOCOL_MAGIC);
        extend(&mut bytes, u16_to_le_bytes(PROTOCOL_VERSION).as_slice());
        extend(&mut bytes, u16_to_le_bytes(FRAME_HEADER_BYTES as u16).as_slice());
        let codes: [u8; 2] = [self.opcode.code(), self.element_type.code()];
        extend(&mut bytes, &codes);
        assert(codes@ =~= seq![self.opcode.spec_code(), self.element_type.spec_code()]);
        extend(&mut bytes, u16_to_le_bytes(self.flags).as_slice());
        extend(&mut bytes, u32_to_le_bytes(self.source_rank).as_slice());
        extend(&mut bytes, u32_to_le_bytes(self.destination_rank).as_slice());
        extend(&mut bytes, u32_to_le_bytes(self.root_rank).as_slice());
        extend(&mut bytes, u32_to_le_bytes(self.world_size).as_slice());
        extend(&mut bytes, u64_to_le_bytes(self.sequence).as_slice());
        extend(&mut bytes, u64_to_le_bytes(self.tag).as_slice());
        extend(&mut bytes, u64_to_le_bytes(self.element_count).as_slice());
        extend(&mut bytes, u64_to_le_bytes(self.payload_bytes).as_slice());
        extend(&mut bytes, self.unique_id.as_bytes());
        extend(&mut bytes, u32_to_le_bytes(self.payload_checksum).as_slice());
        assert(bytes@ =~= self.wire());
        let mut result: [u8; 80] = [0;80];
        let mut index: usize = 0;
        while index < 80
            invariant
                index <= 80,
                bytes@.len() == 80,
                forall|i: int| 0 <= i < index ==> result@[i] == bytes@[i],
            decreases 80 - index,
        {
            result[index] = bytes[index];
            index = index + 1;
        }
        assert(result@ =~= bytes@);
        Ok(result)
    }

    pub fn decode(bytes: &[u8]) -> (result: Result<Self, ProtocolError>)
        ensures
            FrameHeader::decodes(bytes@, result),
    {
        if bytes.len() < FRAME_HEADER_BYTES {
            return Err(ProtocolError::TruncatedHeader(bytes.len()));
        }
        let magic: [u8; 4] = [bytes[0], bytes[1], bytes[2], bytes[3]];
        assert(magic@ =~= bytes@.subrange(0, 4));
        if magic[0] != PROTOCOL_MAGIC[0] || magic[1] != PROTOCOL_MAGIC[1] || magic[2]
            != PROTOCOL_MAGIC[2] || magic[3] != PROTOCOL_MAGIC[3] {
            proof {
                lemma_array_of_four(magic);
                assert(bytes@.subrange(0, 4) != PROTOCOL_MAGIC@) by {
                    if magic@ == PROTOCOL_MAGIC@ {
                        assert(magic@[0] == PROTOCOL_MAGIC@[0]);
                        assert(magic@[1] == PROTOCOL_MAGIC@[1]);
                        assert(magic@[2] == PROTOCOL_MAGIC@[2]);
                        assert(magic@[3] == PROTOCOL_MAGIC@[3]);
                    }
                }
            }
            return Err(ProtocolError::BadMagic(magic));
        }
        assert(bytes@.subrange(0, 4) =~= PROTOCOL_MAGIC@);
        let version: u16 = get_u16(bytes, 4);
        if version != PROTOCOL_VERSION {
            return Err(ProtocolError::UnsupportedVersion(version));
        }
        let header_bytes: usize = get_u16(bytes, 6) as usize;
        if header_bytes != FRAME_HEADER_BYTES {
            return Err(ProtocolError::UnsupportedHeaderLength(header_bytes));
        }
        let opcode = match Opcode::try_from(bytes[8]) {
            Ok(opcode) => opcode,
            Err(error) => {
                return Err(error);
            },
        };
        let element_type = match ElementType::try_from(bytes[9]) {
            Ok(element_type) => element_type,
            Err(error) => {
                return Err(error);
            },
        };
        let header = Self {
            opcode,
            element_type,
            flags: get_u16(bytes, 10),
            source_rank: get_u32(bytes, 12),
            destination_rank: get_u32(bytes, 16),
            root_rank: get_u32(bytes, 20),
            world_size: get_u32(bytes, 24),
            sequence: get_u64(bytes, 28),
            tag: get_u64(bytes, 36),
            element_count: get_u64(bytes, 44),
            payload_bytes: get_u64(bytes, 52),
            unique_id: UniqueId::from_bytes(array_16(bytes, 60)),
            payload_checksum: get_u32(bytes, 76),
        };
        assert(header.read_from(bytes@));
        match header.validate(None) {
            Ok(()) => Ok(header),
            Err(error) => Err(error),
        }
    }

    pub fn validate(&self, payload: Option<&[u8]>) -> (result: Result<(), ProtocolError>)
        ensures
            result == (match (match payload {
                Some(payload) => self.payload_defect(payload@),
                None => self.defect(),
            }) {
                Some(defect) => Err(defect),
                None => Ok(()),
            }),
    {
        proof {
            assert(!(FLAG_PAYLOAD | FLAG_COUNTS_PREFIX | FLAG_P2P_CHANNEL) == !7u16) by {
                assert(!(1u16 | 2u16 | 4u16) == !7u16) by (bit_vector);
            }
        }
        let unknown_flags: u16 = self.flags & !(FLAG_PAYLOAD | FLAG_COUNTS_PREFIX
            | FLAG_P2P_CHANNEL);
        if unknown_flags != 0 {
            return Err(ProtocolError::UnknownFlags(unknown_flags));
        }
        let has_counts_prefix = self.flags & FLAG_COUNTS_PREFIX != 0;
        if has_counts_prefix && self.opcode != Opcode::AllToAllV {
            return Err(ProtocolError::UnexpectedCountsPrefix(self.opcode));
        }
        if self.flags & FLAG_P2P_CHANNEL != 0 && self.opcode != Opcode::Join && self.opcode
            != Opcode::Ready {
            return Err(ProtocolError::UnexpectedP2pChannelFlag(self.opcode));
        }
        if self.world_size == 0 {
            return Err(ProtocolError::EmptyWorld);
        }
        match validate_rank("source", self.source_rank, self.world_size, false) {
            Ok(()) => {},
            Err(error) => {
                return Err(error);
            },
        }
        match validate_rank("destination", self.destination_rank, self.world_size, true) {
            Ok(()) => {},
            Err(error) => {
                return Err(error);
            },
        }
        match validate_rank("root", self.root_rank, self.world_size, true) {
            Ok(()) => {},
            Err(error) => {
                return Err(error);
            },
        }
        if self.payload_bytes > usize::MAX as u64 {
            return Err(ProtocolError::PayloadTooLarge(usize::MAX));
        }
        let payload_bytes: usize = self.payload_bytes as usize;
        if payload_bytes > MAX_FRAME_PAYLOAD_BYTES {
            return Err(ProtocolError::PayloadTooLarge(payload_bytes));
        }
        let has_payload = self.flags & FLAG_PAYLOAD != 0;
        if has_payload != (self.payload_bytes != 0) {
            return Err(ProtocolError::PayloadFlagMismatch);
        }
        if self.element_type == ElementType::Untyped {
            if self.element_count != 0 || self.payload_bytes != 0 {
                return Err(ProtocolError::ElementLengthMismatch);
            }
        } else if has_payload {
            let width: u64 = self.element_type.byte_width() as u64;
            let element_bytes: u64 = match self.element_count.checked_mul(width) {
                Some(element_bytes) => element_bytes,
                None => {
                    return Err(ProtocolError::ElementLengthMismatch);
                },
            };
            let prefix_bytes: u64 = if has_counts_prefix {
                self.world_size as u64 * 8
            } else {
                0
            };
            let expected: u64 = match element_bytes.checked_add(prefix_bytes) {
                Some(expected) => expected,
                None => {
                    return Err(ProtocolError::ElementLengthMismatch);
                },
            };
            if expected != self.payload_bytes {
                return Err(ProtocolError::ElementLengthMismatch);
            }
        }
        match payload {
            Some(payload) => {
                if payload.len() != payload_bytes {
                    return Err(
                        ProtocolError::PayloadLengthMismatch {
                            declared: payload_bytes,
                            actual: payload.len(),
                        },
                    );
                }
                let actual: u32 = checksum(payload);
                if actual != self.payload_checksum {
                    return Err(
                        ProtocolError::ChecksumMismatch {
                            declared: self.payload_checksum,
                            actual,
                        },
                    );
                }
            },
            None => {},
        }
        Ok(())
    }
}

/// The array that holds four bytes.
pub open spec fn array_of_four(bytes: Seq<u8>) -> [u8; 4] {
    choose|array: [u8; 4]| #[trigger] array@ == bytes
}

proof fn lemma_array_of_four(array: [u8; 4])
    ensures
        array_of_four(array@) == array,
{
    let chosen = array_of_four(array@);
    assert(chosen@ == array@);
    assert(chosen =~= array);
}

/// Appends bytes.
pub fn extend(bytes: &mut Vec<u8>, more: &[u8])
    ensures
        final(bytes)@ == old(bytes)@ + more@,
{
    bytes.extend_from_slice(more);
    assert(bytes@ =~= old(bytes)@ + more@);
}

fn validate_rank(name: &'static str, rank: u32, world_size: u32, allow_any: bool) -> (result:
    Result<(), ProtocolError>)
    ensures
        result == (if rank_in_world(rank, world_size, allow_any) {
            Ok(())
        } else {
            Err(ProtocolError::RankOutOfRange { name, rank, world_size })
        }),
{
    if (allow_any && rank == ANY_RANK) || rank < world_size {
        Ok(())
    } else {
        Err(ProtocolError::RankOutOfRange { name, rank, world_size })
    }
}

fn get_u16(bytes: &[u8], offset: usize) -> (value: u16)
    requires
        offset + 2 <= bytes.len(),
    ensures
        value == spec_u16_from_le_bytes(bytes@.subrange(offset as int, offset + 2)),
{
    u16_from_le_bytes(slice_subrange(bytes, offset, offset + 2))
}

fn get_u32(bytes: &[u8], offset: usize) -> (value: u32)
    requires
        offset + 4 <= bytes.len(),
    ensures
        value == spec_u32_from_le_bytes(bytes@.subrange(offset as int, offset + 4)),
{
    u32_from_le_bytes(slice_subrange(bytes, offset, offset + 4))
}

/// The little-endian `u64` at `offset`.
pub fn get_u64(bytes: &[u8], offset: usize) -> (value: u64)
    requires
        offset + 8 <= bytes.len(),
    ensures
        value == spec_u64_from_le_bytes(bytes@.subrange(offset as int, offset + 8)),
{
    u64_from_le_bytes(slice_subrange(bytes, offset, offset + 8))
}

} // verus!

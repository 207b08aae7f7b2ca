//! Whole frames: a header and its payload.

use crate::rank::protocol::header::{crc32, extend};
use crate::rank::protocol::{
    ElementType, FrameHeader, Opcode, ProtocolError, FRAME_HEADER_BYTES, MAX_FRAME_PAYLOAD_BYTES,
    PROTOCOL_MAGIC, PROTOCOL_VERSION,
};
use vstd::bytes::*;
use vstd::prelude::*;
use vstd::slice::*;

verus! {

#[derive(Debug, Clone, PartialEq, Eq)]
pub struct Frame {
    pub header: FrameHeader,
    pub payload: Vec<u8>,
}

/// A frame with its payload as a byte sequence.
pub struct FrameModel {
    pub header: FrameHeader,
    pub payload: Seq<u8>,
}

impl View for Frame {
    type V = FrameModel;

    open spec fn view(&self) -> FrameModel {
        FrameModel { header: self.header, payload: self.payload@ }
    }
}

impl FrameModel {
    /// The frame that `header` and `payload` make, or why they make none.
    pub open spec fn make(header: FrameHeader, payload: Seq<u8>) -> Result<
        FrameModel,
        ProtocolError,
    > {
        if payload.len() == 0 {
            match header.payload_defect(payload) {
                Some(defect) => Err(defect),
                None => Ok(FrameModel { header, payload }),
            }
        } else if payload.len() > MAX_FRAME_PAYLOAD_BYTES {
            Err(ProtocolError::PayloadTooLarge(payload.len() as usize))
        } else {
            match header.declaring(payload).defect() {
                Some(defect) => Err(defect),
                None => Ok(FrameModel { header: header.declaring(payload), payload }),
            }
        }
    }

    /// Whether the frame obeys the wire contract.
    pub open spec fn valid(self) -> bool {
        self.header.payload_defect(self.payload) is None
    }

    /// The frame's wire image.
    pub open spec fn wire(self) -> Seq<u8> {
        self.header.wire() + self.payload
    }

    /// Whether `result` is what a wire image decodes to.
    pub open spec fn decodes(bytes: Seq<u8>, result: Result<FrameModel, ProtocolError>) -> bool {
        ||| exists|defect: ProtocolError|
            #[trigger]
            FrameHeader::decodes(bytes, Err(defect)) && result == Err::<FrameModel, _>(defect)
        ||| exists|header: FrameHeader|
            {
                &&& #[trigger]
                FrameHeader::decodes(bytes, Ok(header))
                &&& result == FrameModel::body_of(header, bytes)
            }
    }

    /// The frame behind a decoded header, or why there is none.
    pub open spec fn body_of(header: FrameHeader, bytes: Seq<u8>) -> Result<
        FrameModel,
        ProtocolError,
    > {
        if bytes.len() != FRAME_HEADER_BYTES + header.payload_bytes {
            Err(
                ProtocolError::FrameLengthMismatch {
                    declared: (FRAME_HEADER_BYTES + header.payload_bytes) as usize,
                    actual: bytes.len() as usize,
                },
            )
        } else {
            let payload = bytes.skip(FRAME_HEADER_BYTES as int);
            match header.payload_defect(payload) {
                Some(defect) => Err(defect),
                None => Ok(FrameModel { header, payload }),
            }
        }
    }
}

/// A result with a frame seen through its model.
pub open spec fn frame_result(result: Result<Frame, ProtocolError>) -> Result<
    FrameModel,
    ProtocolError,
> {
    match result {
        Ok(frame) => Ok(frame@),
        Err(error) => Err(error),
    }
}

impl Frame {
    pub fn new(header: FrameHeader, payload: Vec<u8>) -> (result: Result<Self, ProtocolError>)
        ensures
            frame_result(result) == FrameModel::make(header, payload@),
    {
        if payload.len() == 0 {
            match header.validate(Some(payload.as_slice())) {
                Ok(()) => Ok(Self { header, payload }),
                Err(error) => Err(error),
            }
        } else {
            match header.with_payload(payload.as_slice()) {
                Ok(header) => Ok(Self { header, payload }),
                Err(error) => Err(error),
            }
        }
    }

    pub fn encode(&self) -> (result: Result<Vec<u8>, ProtocolError>)
        ensures
            match self.header.payload_defect(self.payload@) {
                Some(defect) => result == Err::<Vec<u8>, _>(defect),
                None => result is Ok && result->Ok_0@ == self@.wire(),
            },
    {
        match self.header.validate(Some(self.payload.as_slice())) {
            Ok(()) => {},
            Err(error) => {
                return Err(error);
            },
        }
        let head = match self.header.encode() {
            Ok(head) => head,
            Err(error) => {
                return Err(error);
            },
        };
        let mut bytes: Vec<u8> = Vec::new();
        extend(&mut bytes, &head);
        extend(&mut bytes, self.payload.as_slice());
        assert(bytes@ =~= self@.wire());
        Ok(bytes)
    }

    /// The header's wire image, with the checksum that the header already
    /// declares.
    pub fn encode_transport_header(&self) -> (result: Result<[u8; 80], ProtocolError>)
        ensures
            if self.header.payload_bytes > usize::MAX {
                result == Err::<[u8; 80], _>(ProtocolError::PayloadTooLarge(usize::MAX))
            } else if self.payload@.len() != self.header.payload_bytes {
                result == Err::<[u8; 80], _>(
                    ProtocolError::PayloadLengthMismatch {
                        declared: self.header.payload_bytes as usize,
                        actual: self.payload@.len() as usize,
                    },
                )
            } else {
                match self.header.defect() {
                    Some(defect) => result == Err::<[u8; 80], _>(defect),
                    None => result is Ok && result->Ok_0@ == self.header.wire(),
                }
            },
    {
        if self.header.payload_bytes > usize::MAX as u64 {
            return Err(ProtocolError::PayloadTooLarge(usize::MAX));
        }
        let declared: usize = self.header.payload_bytes as usize;
        if self.payload.len() != declared {
            return Err(
                ProtocolError::PayloadLengthMismatch { declared, actual: self.payload.len() },
            );
        }
        self.header.encode()
    }

    pub fn decode(bytes: &[u8]) -> (result: Result<Self, ProtocolError>)
        ensures
            FrameModel::decodes(bytes@, frame_result(result)),
    {
        let header = match FrameHeader::decode(bytes) {
            Ok(header) => header,
            Err(error) => {
                return Err(error);
            },
        };
        let payload_bytes: usize = header.payload_bytes as usize;
        let expected: usize = FRAME_HEADER_BYTES + payload_bytes;
        assert(FrameHeader::decodes(bytes@, Ok(header)));
        if bytes.len() != expected {
            return Err(
                ProtocolError::FrameLengthMismatch { declared: expected, actual: bytes.len() },
            );
        }
        let payload = slice_to_vec(slice_subrange(bytes, FRAME_HEADER_BYTES, bytes.len()));
        assert(payload@ =~= bytes@.skip(FRAME_HEADER_BYTES as int));
        match header.validate(Some(payload.as_slice())) {
            Ok(()) => Ok(Self { header, payload }),
            Err(error) => Err(error),
        }
    }
}

/// The wire image of a header is eighty bytes, each field at its offset.
pub proof fn lemma_wire_layout(header: FrameHeader)
    ensures
        header.wire().len() == FRAME_HEADER_BYTES,
        FrameHeader::preamble_defect(header.wire()) is None,
        header.read_from(header.wire()),
{
    lemma_auto_spec_u16_to_from_le_bytes();
    lemma_auto_spec_u32_to_from_le_bytes();
    lemma_auto_spec_u64_to_from_le_bytes();
    let bytes = header.wire();
    assert(bytes.len() == 80);
    assert(bytes.subrange(0, 4) =~= PROTOCOL_MAGIC@);
    assert(bytes.subrange(4, 6) =~= spec_u16_to_le_bytes(PROTOCOL_VERSION));
    assert(bytes.subrange(6, 8) =~= spec_u16_to_le_bytes(FRAME_HEADER_BYTES as u16));
    assert(bytes[8] == header.opcode.spec_code());
    assert(bytes[9] == header.element_type.spec_code());
    assert(bytes.subrange(10, 12) =~= spec_u16_to_le_bytes(header.flags));
    assert(bytes.subrange(12, 16) =~= spec_u32_to_le_bytes(header.source_rank));
    assert(bytes.subrange(16, 20) =~= spec_u32_to_le_bytes(header.destination_rank));
    assert(bytes.subrange(20, 24) =~= spec_u32_to_le_bytes(header.root_rank));
    assert(bytes.subrange(24, 28) =~= spec_u32_to_le_bytes(header.world_size));
    assert(bytes.subrange(28, 36) =~= spec_u64_to_le_bytes(header.sequence));
    assert(bytes.subrange(36, 44) =~= spec_u64_to_le_bytes(header.tag));
    assert(bytes.subrange(44, 52) =~= spec_u64_to_le_bytes(header.element_count));
    assert(bytes.subrange(52, 60) =~= spec_u64_to_le_bytes(header.payload_bytes));
    assert(bytes.subrange(60, 76) =~= header.unique_id.0@);
    assert(bytes.subrange(76, 80) =~= spec_u32_to_le_bytes(header.payload_checksum));
}

/// One wire image belongs to one header.
pub proof fn lemma_read_from_unique(a: FrameHeader, b: FrameHeader, bytes: Seq<u8>)
    requires
        a.read_from(bytes),
        b.read_from(bytes),
    ensures
        a == b,
{
    assert(a.unique_id.0 =~= b.unique_id.0);
}

/// Every opcode and every element type is found again by its wire code.
pub proof fn law_codes_round_trip(opcode: Opcode, element_type: ElementType)
    ensures
        Opcode::from_code(opcode.spec_code()) == Ok::<_, ProtocolError>(opcode),
        ElementType::from_code(element_type.spec_code()) == Ok::<_, ProtocolError>(element_type),
{
}

/// Where the fields of a header stand on the wire: the magic letters `GXCL`, the
/// version 3 and the length 80, a byte each for the opcode and the element type, and
/// the others behind them, all in little-endian order.
pub proof fn law_header_layout(header: FrameHeader)
    ensures
        header.wire().len() == 80,
        header.wire().subrange(0, 4) == seq![0x47u8, 0x58u8, 0x43u8, 0x4cu8],
        spec_u16_from_le_bytes(header.wire().subrange(4, 6)) == 3,
        spec_u16_from_le_bytes(header.wire().subrange(6, 8)) == 80,
        Opcode::from_code(header.wire()[8]) == Ok::<_, ProtocolError>(header.opcode),
        ElementType::from_code(header.wire()[9]) == Ok::<_, ProtocolError>(header.element_type),
        spec_u16_from_le_bytes(header.wire().subrange(10, 12)) == header.flags,
        spec_u32_from_le_bytes(header.wire().subrange(12, 16)) == header.source_rank,
        spec_u32_from_le_bytes(header.wire().subrange(16, 20)) == header.destination_rank,
        spec_u32_from_le_bytes(header.wire().subrange(20, 24)) == header.root_rank,
        spec_u32_from_le_bytes(header.wire().subrange(24, 28)) == header.world_size,
        spec_u64_from_le_bytes(header.wire().subrange(28, 36)) == header.sequence,
        spec_u64_from_le_bytes(header.wire().subrange(36, 44)) == header.tag,
        spec_u64_from_le_bytes(header.wire().subrange(44, 52)) == header.element_count,
        spec_u64_from_le_bytes(header.wire().subrange(52, 60)) == header.payload_bytes,
        header.wire().subrange(60, 76) == header.unique_id.0@,
        spec_u32_from_le_bytes(header.wire().subrange(76, 80)) == header.payload_checksum,
{
    lemma_wire_layout(header);
    assert(header.wire().subrange(0, 4) =~= seq![0x47u8, 0x58u8, 0x43u8, 0x4cu8]);
}

/// A header that may be encoded is what its wire image decodes to, whatever
/// bytes follow it.
pub proof fn law_header_round_trip(
    header: FrameHeader,
    rest: Seq<u8>,
    result: Result<FrameHeader, ProtocolError>,
)
    requires
        header.defect() is None,
        FrameHeader::decodes(header.wire() + rest, result),
    ensures
        result == Ok::<_, ProtocolError>(header),
{
    lemma_wire_layout(header);
    let bytes = header.wire() + rest;
    assert(bytes.subrange(0, 4) =~= header.wire().subrange(0, 4));
    assert(bytes.subrange(4, 6) =~= header.wire().subrange(4, 6));
    assert(bytes.subrange(6, 8) =~= header.wire().subrange(6, 8));
    assert(bytes.subrange(10, 12) =~= header.wire().subrange(10, 12));
    assert(bytes.subrange(12, 16) =~= header.wire().subrange(12, 16));
    assert(bytes.subrange(16, 20) =~= header.wire().subrange(16, 20));
    assert(bytes.subrange(20, 24) =~= header.wire().subrange(20, 24));
    assert(bytes.subrange(24, 28) =~= header.wire().subrange(24, 28));
    assert(bytes.subrange(28, 36) =~= header.wire().subrange(28, 36));
    assert(bytes.subrange(36, 44) =~= header.wire().subrange(36, 44));
    assert(bytes.subrange(44, 52) =~= header.wire().subrange(44, 52));
    assert(bytes.subrange(52, 60) =~= header.wire().subrange(52, 60));
    assert(bytes.subrange(60, 76) =~= header.wire().subrange(60, 76));
    assert(bytes.subrange(76, 80) =~= header.wire().subrange(76, 80));
    assert(header.read_from(bytes));
    match result {
        Ok(decoded) => {
            lemma_read_from_unique(decoded, header, bytes);
        },
        Err(error) => {
            let other = choose|other: FrameHeader|
                #[trigger]
                other.read_from(bytes) && other.defect() == Some(error);
            lemma_read_from_unique(other, header, bytes);
        },
    }
}

/// A decoded header's wire image is the bytes that it was decoded from.
pub proof fn law_decoded_header_keeps_its_bytes(
    bytes: Seq<u8>,
    result: Result<FrameHeader, ProtocolError>,
)
    requires
        FrameHeader::decodes(bytes, result),
    ensures
        result matches Ok(header) ==> header.wire() == bytes.take(FRAME_HEADER_BYTES as int),
{
    lemma_auto_spec_u16_to_from_le_bytes();
    lemma_auto_spec_u32_to_from_le_bytes();
    lemma_auto_spec_u64_to_from_le_bytes();
    if let Ok(header) = result {
        let codes = seq![header.opcode.spec_code(), header.element_type.spec_code()];
        assert(bytes.subrange(8, 10) =~= codes);
        assert(spec_u16_to_le_bytes(PROTOCOL_VERSION) == bytes.subrange(4, 6));
        assert(spec_u16_to_le_bytes(FRAME_HEADER_BYTES as u16) == bytes.subrange(6, 8));
        assert(bytes.take(80) =~= bytes.subrange(0, 4) + bytes.subrange(4, 6) + bytes.subrange(6, 8)
            + bytes.subrange(8, 10) + bytes.subrange(10, 12) + bytes.subrange(12, 16)
            + bytes.subrange(16, 20) + bytes.subrange(20, 24) + bytes.subrange(24, 28)
            + bytes.subrange(28, 36) + bytes.subrange(36, 44) + bytes.subrange(44, 52)
            + bytes.subrange(52, 60) + bytes.subrange(60, 76) + bytes.subrange(76, 80));
    }
}

/// A decoded frame's wire image is the bytes that it was decoded from.
pub proof fn law_decoded_frame_keeps_its_bytes(
    bytes: Seq<u8>,
    result: Result<FrameModel, ProtocolError>,
)
    requires
        FrameModel::decodes(bytes, result),
    ensures
        result matches Ok(frame) ==> frame.wire() == bytes,
{
    if let Ok(frame) = result {
        let header = choose|header: FrameHeader|
            {
                &&& #[trigger]
                FrameHeader::decodes(bytes, Ok(header))
                &&& result == FrameModel::body_of(header, bytes)
            };
        law_decoded_header_keeps_its_bytes(bytes, Ok(header));
        assert(frame.wire() =~= bytes);
    }
}

/// A frame that may be encoded is what its wire image decodes to.
pub proof fn law_frame_round_trip(frame: FrameModel, result: Result<FrameModel, ProtocolError>)
    requires
        frame.valid(),
        FrameModel::decodes(frame.wire(), result),
    ensures
        result == Ok::<_, ProtocolError>(frame),
{
    lemma_wire_layout(frame.header);
    let bytes = frame.wire();
    assert(bytes.skip(FRAME_HEADER_BYTES as int) =~= frame.payload);
    if exists|defect: ProtocolError|
        #[trigger]
        FrameHeader::decodes(bytes, Err(defect)) && result == Err::<FrameModel, _>(defect) {
        let defect = choose|defect: ProtocolError|
            #[trigger]
            FrameHeader::decodes(bytes, Err(defect)) && result == Err::<FrameModel, _>(defect);
        law_header_round_trip(frame.header, frame.payload, Err(defect));
    } else {
        let header = choose|header: FrameHeader|
            {
                &&& #[trigger]
                FrameHeader::decodes(bytes, Ok(header))
                &&& result == FrameModel::body_of(header, bytes)
            };
        law_header_round_trip(frame.header, frame.payload, Ok(header));
    }
}

/// Every frame that is made obeys the wire contract.
pub proof fn law_made_frames_are_valid(header: FrameHeader, payload: Seq<u8>)
    ensures
        FrameModel::make(header, payload) matches Ok(frame) ==> frame.valid() && frame.payload
            == payload,
{
    if payload.len() > 0 && payload.len() <= MAX_FRAME_PAYLOAD_BYTES {
        assert(payload.len() as u64 == payload.len());
    }
}

/// A decoded frame obeys the wire contract, and its payload has the declared
/// checksum.
pub proof fn law_decoded_frames_are_valid(
    bytes: Seq<u8>,
    result: Result<FrameModel, ProtocolError>,
)
    requires
        FrameModel::decodes(bytes, result),
    ensures
        result matches Ok(frame) ==> frame.valid() && crc32(frame.payload)
            == frame.header.payload_checksum,
{
}

} // verus!

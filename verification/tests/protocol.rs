//! Frames, codes and the collective agreement.

use ruccl::rank::protocol::header::checksum;
use ruccl::rank::protocol::{FLAG_PAYLOAD, PROTOCOL_VERSION};
use ruccl::rank::{
    CollectiveAgreement, ElementType, Frame, FrameHeader, Opcode, OperationDescriptor,
    ProtocolError, UniqueId, ANY_RANK,
};

#[test]
fn frame_round_trip_is_little_endian_and_checksum_protected() {
    let unique_id = UniqueId::from_bytes([7; 16]);
    let mut header = FrameHeader::collective(
        unique_id,
        Opcode::Send,
        ElementType::U32,
        1,
        ANY_RANK,
        4,
        9,
        3,
    );
    header.destination_rank = 2;
    header.tag = 44;
    let frame = Frame::new(header, vec![1, 0, 0, 0, 2, 0, 0, 0, 3, 0, 0, 0]).unwrap();
    let encoded = frame.encode().unwrap();
    assert_eq!(&encoded[0..4], b"GXCL");
    assert_eq!(Frame::decode(&encoded).unwrap(), frame);

    let mut corrupt = encoded;
    *corrupt.last_mut().unwrap() ^= 0x80;
    assert!(matches!(
        Frame::decode(&corrupt),
        Err(ProtocolError::ChecksumMismatch { .. })
    ));
}

#[test]
fn protocol_v3_uses_crc32_and_transport_reuses_the_precomputed_checksum() {
    assert_eq!(PROTOCOL_VERSION, 3);
    assert_eq!(checksum(b"123456789"), 0xcbf4_3926);

    let header = FrameHeader::collective(
        UniqueId::from_bytes([3; 16]),
        Opcode::Send,
        ElementType::U8,
        0,
        ANY_RANK,
        2,
        1,
        4,
    );
    let mut frame = Frame::new(header, vec![1, 2, 3, 4]).unwrap();
    frame.payload[0] ^= 0xff;

    let encoded_header = frame.encode_transport_header().unwrap();
    let mut wire = encoded_header.to_vec();
    wire.extend_from_slice(&frame.payload);
    assert!(matches!(
        Frame::decode(&wire),
        Err(ProtocolError::ChecksumMismatch { .. })
    ));

    frame.payload.push(5);
    assert!(matches!(
        frame.encode_transport_header(),
        Err(ProtocolError::PayloadLengthMismatch {
            declared: 4,
            actual: 5
        })
    ));
}

#[test]
fn extended_pytorch_element_types_round_trip_with_exact_widths() {
    for (code, element_type, width) in [
        (7, ElementType::Bool, 1),
        (8, ElementType::I8, 1),
        (9, ElementType::I16, 2),
        (10, ElementType::I64, 8),
        (11, ElementType::F64, 8),
        (12, ElementType::U16, 2),
        (13, ElementType::U64, 8),
        (14, ElementType::Complex64, 8),
        (15, ElementType::Complex128, 16),
        (16, ElementType::F8E4M3Fn, 1),
        (17, ElementType::F8E5M2, 1),
        (18, ElementType::F8E4M3Fnuz, 1),
        (19, ElementType::F8E5M2Fnuz, 1),
        (20, ElementType::F8E8M0Fnu, 1),
        (21, ElementType::F4E2M1FnX2, 1),
    ] {
        assert_eq!(ElementType::try_from(code).unwrap(), element_type);
        assert_eq!(element_type.byte_width(), width);
        assert_eq!(element_type.is_low_precision_storage(), code >= 16);
    }
}

#[test]
fn decoder_rejects_version_rank_and_length_mismatches() {
    let header = FrameHeader::collective(
        UniqueId::from_bytes([1; 16]),
        Opcode::AllReduce,
        ElementType::F32,
        0,
        ANY_RANK,
        2,
        0,
        8,
    );
    let mut encoded = Frame::new(header, vec![0; 32]).unwrap().encode().unwrap();
    encoded[4..6].copy_from_slice(&99_u16.to_le_bytes());
    assert!(matches!(
        Frame::decode(&encoded),
        Err(ProtocolError::UnsupportedVersion(99))
    ));

    let mut bad_rank = FrameHeader::collective(
        UniqueId::from_bytes([1; 16]),
        Opcode::Barrier,
        ElementType::Untyped,
        2,
        ANY_RANK,
        2,
        0,
        0,
    );
    assert!(matches!(
        bad_rank.encode(),
        Err(ProtocolError::RankOutOfRange { .. })
    ));
    bad_rank.source_rank = 0;
    bad_rank.flags = FLAG_PAYLOAD;
    assert!(matches!(
        bad_rank.encode(),
        Err(ProtocolError::PayloadFlagMismatch)
    ));
}

#[test]
fn agreement_detects_order_and_contract_mismatch() {
    let mut agreement = CollectiveAgreement::new(3).unwrap();
    let operation =
        OperationDescriptor::new(Opcode::AllReduce, ElementType::BF16, ANY_RANK, 1024);
    assert!(!agreement.submit(2, 0, operation.clone()).unwrap());
    assert!(!agreement.submit(0, 0, operation.clone()).unwrap());
    assert!(matches!(
        agreement.submit(
            1,
            0,
            OperationDescriptor::new(Opcode::AllGather, ElementType::BF16, ANY_RANK, 1024)
        ),
        Err(ProtocolError::CollectiveMismatch { .. })
    ));
    assert!(agreement.submit(1, 0, operation.clone()).unwrap());
    assert_eq!(agreement.next_sequence(), 1);
    assert!(matches!(
        agreement.submit(0, 0, operation),
        Err(ProtocolError::SequenceMismatch { .. })
    ));
}

#[test]
fn a_decoded_frame_encodes_to_the_bytes_it_came_from() {
    let header = FrameHeader::collective(
        UniqueId::from_bytes([9; 16]),
        Opcode::AllGather,
        ElementType::U32,
        2,
        ANY_RANK,
        5,
        77,
        2,
    );
    let bytes = Frame::new(header, vec![8, 7, 6, 5, 4, 3, 2, 1]).unwrap().encode().unwrap();
    assert_eq!(Frame::decode(&bytes).unwrap().encode().unwrap(), bytes);
    let mut other = bytes.clone();
    other[36] = 0x5a;
    let decoded = Frame::decode(&other).unwrap();
    assert_eq!(decoded.header.tag, 0x5a);
    assert_eq!(decoded.encode().unwrap(), other);
}

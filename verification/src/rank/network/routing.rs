//! The coordinator's side of a collective: requests of one sequence in, one
//! response per rank out.

use crate::math::{checked_sum, lemma_sum_nonnegative, lemma_sum_prefix, lemma_sum_step, sum_usize};
use crate::rank::network::{NetworkError, NetworkFailure};
use crate::rank::payload::{count_at, counts_bytes, encode_counts};
use crate::rank::protocol::agreement::AgreementModel;
use crate::rank::protocol::frame::FrameModel;
use crate::rank::protocol::header::{crc32, extend, get_u64};
use crate::rank::protocol::{
    CollectiveAgreement, ElementType, Frame, FrameHeader, Opcode, OperationDescriptor, UniqueId,
    ANY_RANK, FLAG_COUNTS_PREFIX,
};
use crate::text::{decimal, push_decimal, push_usize};
use vstd::arithmetic::div_mod::*;
use vstd::arithmetic::mul::*;
use vstd::prelude::*;
use vstd::slice::*;
use vstd::string::*;

verus! {

/// Frames seen through their models.
pub open spec fn frames_of(frames: Seq<Frame>) -> Seq<FrameModel> {
    Seq::new(frames.len(), |i: int| frames[i]@)
}

/// A routing result seen through its models.
pub open spec fn routed(result: Result<Vec<Frame>, NetworkError>) -> Result<
    Seq<FrameModel>,
    NetworkFailure,
> {
    match result {
        Ok(frames) => Ok(frames_of(frames@)),
        Err(error) => Err(error@),
    }
}

/// A refusal with a fixed message.
pub open spec fn refused(message: Seq<char>) -> NetworkFailure {
    NetworkFailure::InvalidConfiguration(message)
}

/// What the ranks must agree on: for a variable exchange neither counts nor
/// tags, which are each rank's own.
pub open spec fn descriptor_of(header: FrameHeader) -> OperationDescriptor {
    let variable = header.opcode == Opcode::AllToAllV;
    OperationDescriptor {
        opcode: header.opcode,
        element_type: header.element_type,
        root_rank: header.root_rank,
        element_count: if variable {
            0
        } else {
            header.element_count
        },
        layout_hash: if variable {
            0
        } else {
            header.tag
        },
    }
}

/// Why a request does not belong on a rank's connection.
pub open spec fn request_defect(
    header: FrameHeader,
    rank: int,
    world_size: int,
    unique_id: UniqueId,
) -> Option<NetworkFailure> {
    if header.unique_id != unique_id {
        Some(NetworkFailure::WrongSession)
    } else if header.source_rank != rank || header.world_size != world_size {
        Some(
            refused(
                "connection rank "@ + decimal(rank as nat) + " submitted source rank "@ + decimal(
                    header.source_rank as nat,
                ) + " and world size "@ + decimal(header.world_size as nat),
            ),
        )
    } else {
        None
    }
}

/// The agreement after the first `count` requests, and the first refusal.
pub open spec fn agreed(
    agreement: AgreementModel,
    unique_id: UniqueId,
    sequence: u64,
    requests: Seq<FrameModel>,
    count: int,
) -> (AgreementModel, Option<NetworkFailure>)
    decreases count,
{
    if count <= 0 {
        (agreement, None)
    } else {
        let (before, failure) = agreed(agreement, unique_id, sequence, requests, count - 1);
        let header = requests[count - 1].header;
        if failure is Some {
            (before, failure)
        } else {
            match request_defect(header, count - 1, requests.len() as int, unique_id) {
                Some(defect) => (before, Some(defect)),
                None => {
                    let (after, answer) = before.submitted(
                        count - 1,
                        sequence,
                        descriptor_of(header),
                    );
                    (
                        after,
                        match answer {
                            Ok(_) => None,
                            Err(error) => Some(NetworkFailure::Protocol(error)),
                        },
                    )
                },
            }
        }
    }
}

/// The header of a response to one rank.
pub open spec fn response_header_of(
    unique_id: UniqueId,
    opcode: Opcode,
    element_type: ElementType,
    sequence: u64,
    destination: int,
    world_size: int,
    count: int,
) -> FrameHeader {
    FrameHeader {
        opcode,
        element_type,
        flags: 0,
        source_rank: 0,
        destination_rank: destination as u32,
        root_rank: ANY_RANK,
        world_size: world_size as u32,
        sequence,
        tag: 0,
        element_count: count as u64,
        payload_bytes: 0,
        unique_id,
        payload_checksum: crc32(Seq::empty()),
    }
}

/// What one rank is to receive, or why it cannot be built.
pub type Outcome = Result<(FrameHeader, Seq<u8>), NetworkFailure>;

/// The frames of the first `count` outcomes, or the first failure.
pub open spec fn frames_made(outcomes: Seq<Outcome>, count: int) -> Result<
    Seq<FrameModel>,
    NetworkFailure,
>
    decreases count,
{
    if count <= 0 {
        Ok(Seq::empty())
    } else {
        match frames_made(outcomes, count - 1) {
            Err(failure) => Err(failure),
            Ok(frames) => match outcomes[count - 1] {
                Err(failure) => Err(failure),
                Ok((header, payload)) => match FrameModel::make(header, payload) {
                    Err(error) => Err(NetworkFailure::Protocol(error)),
                    Ok(frame) => Ok(frames.push(frame)),
                },
            },
        }
    }
}

/// The first `count` payloads, one behind the other.
pub open spec fn joined(requests: Seq<FrameModel>, count: int) -> Seq<u8>
    decreases count,
{
    if count <= 0 {
        Seq::empty()
    } else {
        joined(requests, count - 1) + requests[count - 1].payload
    }
}

/// One piece of each of the first `count` payloads, one behind the other.
pub open spec fn pieces(requests: Seq<FrameModel>, start: int, size: int, count: int) -> Seq<u8>
    decreases count,
{
    if count <= 0 {
        Seq::empty()
    } else {
        pieces(requests, start, size, count - 1) + requests[count - 1].payload.subrange(
            start,
            start + size,
        )
    }
}

/// How messages name a payload of the wrong size.
pub open spec fn payload_text(rank: int, actual: int, expected: int) -> Seq<char> {
    "rank "@ + decimal(rank as nat) + " payload has "@ + decimal(actual as nat)
        + " bytes, expected "@ + decimal(expected as nat)
}

/// The first of the first `count` payloads whose size is not `bytes`.
pub open spec fn sizes_defect(requests: Seq<FrameModel>, bytes: int, count: int) -> Option<
    NetworkFailure,
>
    decreases count,
{
    if count <= 0 {
        None
    } else {
        match sizes_defect(requests, bytes, count - 1) {
            Some(defect) => Some(defect),
            None => if requests[count - 1].payload.len() != bytes {
                Some(
                    refused(
                        payload_text(
                            count - 1,
                            requests[count - 1].payload.len() as int,
                            bytes,
                        ),
                    ),
                )
            } else {
                None
            },
        }
    }
}

/// The first payload of a wrong size where the root alone has one.
pub open spec fn root_sizes_defect(
    requests: Seq<FrameModel>,
    root: int,
    bytes: int,
    count: int,
) -> Option<NetworkFailure>
    decreases count,
{
    if count <= 0 {
        None
    } else {
        match root_sizes_defect(requests, root, bytes, count - 1) {
            Some(defect) => Some(defect),
            None => {
                let expected = if count - 1 == root {
                    bytes
                } else {
                    0
                };
                if requests[count - 1].payload.len() != expected {
                    Some(
                        refused(
                            payload_text(
                                count - 1,
                                requests[count - 1].payload.len() as int,
                                expected,
                            ),
                        ),
                    )
                } else {
                    None
                }
            },
        }
    }
}

/// The same payload to every rank.
pub open spec fn same_outcomes(
    unique_id: UniqueId,
    opcode: Opcode,
    element_type: ElementType,
    sequence: u64,
    world_size: int,
    count: int,
    payload: Seq<u8>,
) -> Seq<Outcome> {
    Seq::new(
        world_size as nat,
        |d: int|
            Ok(
                (
                    response_header_of(
                        unique_id,
                        opcode,
                        element_type,
                        sequence,
                        d,
                        world_size,
                        count,
                    ),
                    payload,
                ),
            ),
    )
}

/// The payload to the root, an empty frame to every other rank.
pub open spec fn root_outcomes(
    unique_id: UniqueId,
    opcode: Opcode,
    element_type: ElementType,
    sequence: u64,
    world_size: int,
    root: int,
    count: int,
    payload: Seq<u8>,
) -> Seq<Outcome> {
    Seq::new(
        world_size as nat,
        |d: int|
            if d == root {
                Ok(
                    (
                        response_header_of(
                            unique_id,
                            opcode,
                            element_type,
                            sequence,
                            d,
                            world_size,
                            count,
                        ),
                        payload,
                    ),
                )
            } else {
                Ok(
                    (
                        response_header_of(
                            unique_id,
                            opcode,
                            ElementType::Untyped,
                            sequence,
                            d,
                            world_size,
                            0,
                        ),
                        Seq::<u8>::empty(),
                    ),
                )
            },
    )
}

/// One shard of the root's payload to every rank.
pub open spec fn scatter_outcomes(
    unique_id: UniqueId,
    opcode: Opcode,
    element_type: ElementType,
    sequence: u64,
    world_size: int,
    shard_count: int,
    shard_bytes: int,
    payload: Seq<u8>,
) -> Seq<Outcome> {
    Seq::new(
        world_size as nat,
        |d: int|
            Ok(
                (
                    response_header_of(
                        unique_id,
                        opcode,
                        element_type,
                        sequence,
                        d,
                        world_size,
                        shard_count,
                    ),
                    payload.subrange(d * shard_bytes, d * shard_bytes + shard_bytes),
                ),
            ),
    )
}

/// A rank's shards of all payloads to every rank.
pub open spec fn shard_outcomes(
    unique_id: UniqueId,
    opcode: Opcode,
    element_type: ElementType,
    sequence: u64,
    requests: Seq<FrameModel>,
    count: int,
    shard_bytes: int,
) -> Seq<Outcome> {
    Seq::new(
        requests.len(),
        |d: int|
            Ok(
                (
                    response_header_of(
                        unique_id,
                        opcode,
                        element_type,
                        sequence,
                        d,
                        requests.len() as int,
                        count,
                    ),
                    pieces(requests, d * shard_bytes, shard_bytes, requests.len() as int),
                ),
            ),
    )
}

/// The counts of a variable exchange's request.
pub open spec fn row(frame: FrameModel, world_size: int) -> Seq<usize> {
    Seq::new(world_size as nat, |i: int| count_at(frame.payload, i) as usize)
}

/// A count that no host value holds.
pub open spec fn oversized(frame: FrameModel, world_size: int) -> bool {
    exists|i: int| 0 <= i < world_size && #[trigger] count_at(frame.payload, i) > usize::MAX
}

/// Why a variable exchange's request is refused.
pub open spec fn row_defect(frame: FrameModel, world_size: int, width: int) -> Option<
    NetworkFailure,
> {
    let total = sum_usize(row(frame, world_size));
    let data = frame.payload.len() - 8 * world_size;
    if !frame.header.has_counts_prefix() {
        Some(refused("all-to-all-v frame is missing its counts prefix"@))
    } else if 8 * world_size > usize::MAX {
        Some(refused("all-to-all-v prefix size overflow"@))
    } else if data < 0 {
        Some(refused("all-to-all-v counts prefix is truncated"@))
    } else if oversized(frame, world_size) {
        Some(refused("all-to-all-v count exceeds host usize"@))
    } else if total > usize::MAX {
        Some(refused("all-to-all-v count sum overflow"@))
    } else if total != frame.header.element_count {
        Some(
            refused(
                "all-to-all-v counts sum to "@ + decimal(total as nat) + ", header declares "@
                    + decimal(frame.header.element_count as nat),
            ),
        )
    } else if total * width > usize::MAX {
        Some(refused("all-to-all-v data size overflow"@))
    } else if data != total * width {
        Some(
            refused(
                "all-to-all-v data has "@ + decimal(data as nat) + " bytes, expected "@ + decimal(
                    (total * width) as nat,
                ),
            ),
        )
    } else {
        None
    }
}

/// The first of the first `count` requests that is refused.
pub open spec fn rows_defect(requests: Seq<FrameModel>, width: int, count: int) -> Option<
    NetworkFailure,
>
    decreases count,
{
    if count <= 0 {
        None
    } else {
        match rows_defect(requests, width, count - 1) {
            Some(defect) => Some(defect),
            None => row_defect(requests[count - 1], requests.len() as int, width),
        }
    }
}

/// What a rank receives from every rank.
pub open spec fn received(requests: Seq<FrameModel>, destination: int) -> Seq<usize> {
    Seq::new(
        requests.len(),
        |s: int| row(requests[s], requests.len() as int)[destination],
    )
}

/// What a request sends to one rank.
pub open spec fn sent(frame: FrameModel, world_size: int, destination: int, width: int) -> Seq<u8> {
    let counts = row(frame, world_size);
    let start = 8 * world_size + sum_usize(counts.take(destination)) * width;
    frame.payload.subrange(start, start + counts[destination] * width)
}

/// What the first `count` requests send to one rank.
pub open spec fn sent_by(
    requests: Seq<FrameModel>,
    destination: int,
    width: int,
    count: int,
) -> Seq<u8>
    decreases count,
{
    if count <= 0 {
        Seq::empty()
    } else {
        sent_by(requests, destination, width, count - 1) + sent(
            requests[count - 1],
            requests.len() as int,
            destination,
            width,
        )
    }
}

/// A rank's response to a variable exchange: what it receives from each rank,
/// behind the counts.
pub open spec fn variable_outcome(
    requests: Seq<FrameModel>,
    unique_id: UniqueId,
    sequence: u64,
    element_type: ElementType,
    width: int,
    destination: int,
) -> Outcome {
    let counts = received(requests, destination);
    let total = sum_usize(counts);
    if total > usize::MAX {
        Err(refused("all-to-all-v receive count overflow"@))
    } else if total * width > usize::MAX {
        Err(refused("all-to-all-v response size overflow"@))
    } else {
        Ok(
            (
                FrameHeader {
                    flags: FLAG_COUNTS_PREFIX,
                    ..response_header_of(
                        unique_id,
                        Opcode::AllToAllV,
                        element_type,
                        sequence,
                        destination,
                        requests.len() as int,
                        total,
                    )
                },
                counts_bytes(counts) + sent_by(
                    requests,
                    destination,
                    width,
                    requests.len() as int,
                ),
            ),
        )
    }
}

/// The responses of a variable exchange.
pub open spec fn variable_route(
    requests: Seq<FrameModel>,
    unique_id: UniqueId,
    sequence: u64,
    element_type: ElementType,
    width: int,
) -> Result<Seq<FrameModel>, NetworkFailure> {
    let world_size = requests.len() as int;
    if element_type == ElementType::Untyped || width == 0 {
        Err(refused("all-to-all-v requires a concrete element type"@))
    } else {
        match rows_defect(requests, width, world_size) {
            Some(defect) => Err(defect),
            None => frames_made(
                Seq::new(
                    requests.len(),
                    |d: int|
                        variable_outcome(requests, unique_id, sequence, element_type, width, d),
                ),
                world_size,
            ),
        }
    }
}

/// Whether any payload is not empty.
pub open spec fn carries(requests: Seq<FrameModel>) -> bool {
    exists|i: int| 0 <= i < requests.len() && (#[trigger] requests[i]).payload.len() > 0
}

/// An empty answer to every rank.
pub open spec fn empty_route(
    requests: Seq<FrameModel>,
    unique_id: UniqueId,
    sequence: u64,
    opcode: Opcode,
) -> Result<Seq<FrameModel>, NetworkFailure> {
    let world_size = requests.len() as int;
    if carries(requests) {
        Err(refused(opcode.spec_name() + " cannot carry a payload"@))
    } else {
        frames_made(
            same_outcomes(
                unique_id,
                opcode,
                ElementType::Untyped,
                sequence,
                world_size,
                0,
                Seq::empty(),
            ),
            world_size,
        )
    }
}

/// All payloads to every rank.
pub open spec fn gather_route(
    requests: Seq<FrameModel>,
    unique_id: UniqueId,
    sequence: u64,
    header: FrameHeader,
    bytes: int,
    overflow: Seq<char>,
) -> Result<Seq<FrameModel>, NetworkFailure> {
    let world_size = requests.len() as int;
    let payload = joined(requests, world_size);
    match sizes_defect(requests, bytes, world_size) {
        Some(defect) => Err(defect),
        None => if payload.len() > usize::MAX {
            Err(refused("response payload overflow"@))
        } else if header.element_count * world_size > usize::MAX {
            Err(refused(overflow))
        } else {
            frames_made(
                same_outcomes(
                    unique_id,
                    header.opcode,
                    header.element_type,
                    sequence,
                    world_size,
                    header.element_count * world_size,
                    payload,
                ),
                world_size,
            )
        },
    }
}

/// All payloads to the root.
pub open spec fn rooted_route(
    requests: Seq<FrameModel>,
    unique_id: UniqueId,
    sequence: u64,
    header: FrameHeader,
    bytes: int,
) -> Result<Seq<FrameModel>, NetworkFailure> {
    let world_size = requests.len() as int;
    let payload = joined(requests, world_size);
    if !has_root(header, world_size) {
        Err(refused(rootless_text()))
    } else {
        match sizes_defect(requests, bytes, world_size) {
            Some(defect) => Err(defect),
            None => if payload.len() > usize::MAX {
                Err(refused("response payload overflow"@))
            } else if header.element_count * world_size > usize::MAX {
                Err(refused("rooted collective count overflow"@))
            } else {
                frames_made(
                    root_outcomes(
                        unique_id,
                        header.opcode,
                        header.element_type,
                        sequence,
                        world_size,
                        header.root_rank as int,
                        header.element_count * world_size,
                        payload,
                    ),
                    world_size,
                )
            },
        }
    }
}

/// A root that is a rank of the world.
pub open spec fn has_root(header: FrameHeader, world_size: int) -> bool {
    header.root_rank != ANY_RANK && header.root_rank < world_size
}

pub open spec fn rootless_text() -> Seq<char> {
    "rooted collective requires a valid root rank"@
}

/// The root's payload to every rank.
pub open spec fn broadcast_route(
    requests: Seq<FrameModel>,
    unique_id: UniqueId,
    sequence: u64,
    header: FrameHeader,
    bytes: int,
) -> Result<Seq<FrameModel>, NetworkFailure> {
    let world_size = requests.len() as int;
    let root = header.root_rank as int;
    if !has_root(header, world_size) {
        Err(refused(rootless_text()))
    } else {
        match root_sizes_defect(requests, root, bytes, world_size) {
            Some(defect) => Err(defect),
            None => frames_made(
                same_outcomes(
                    unique_id,
                    header.opcode,
                    header.element_type,
                    sequence,
                    world_size,
                    header.element_count as int,
                    requests[root].payload,
                ),
                world_size,
            ),
        }
    }
}

/// A shard of the root's payload to every rank.
pub open spec fn scatter_route(
    requests: Seq<FrameModel>,
    unique_id: UniqueId,
    sequence: u64,
    header: FrameHeader,
    bytes: int,
) -> Result<Seq<FrameModel>, NetworkFailure> {
    let world_size = requests.len() as int;
    let root = header.root_rank as int;
    let shard = header.element_count as int / world_size;
    if !has_root(header, world_size) {
        Err(refused(rootless_text()))
    } else {
        match root_sizes_defect(requests, root, bytes, world_size) {
            Some(defect) => Err(defect),
            None => if header.element_count as int % world_size != 0 {
                Err(refused("scatter total element count is not divisible by world size"@))
            } else {
                frames_made(
                    scatter_outcomes(
                        unique_id,
                        header.opcode,
                        header.element_type,
                        sequence,
                        world_size,
                        shard,
                        shard * header.element_type.width(),
                        requests[root].payload,
                    ),
                    world_size,
                )
            },
        }
    }
}

/// A rank's shards of all payloads to that rank.
pub open spec fn shard_route(
    requests: Seq<FrameModel>,
    unique_id: UniqueId,
    sequence: u64,
    header: FrameHeader,
    bytes: int,
    indivisible: Seq<char>,
) -> Result<Seq<FrameModel>, NetworkFailure> {
    let world_size = requests.len() as int;
    match sizes_defect(requests, bytes, world_size) {
        Some(defect) => Err(defect),
        None => if header.element_count as int % world_size != 0 {
            Err(refused(indivisible))
        } else {
            frames_made(
                shard_outcomes(
                    unique_id,
                    header.opcode,
                    header.element_type,
                    sequence,
                    requests,
                    header.element_count as int,
                    header.element_count as int / world_size * header.element_type.width(),
                ),
                world_size,
            )
        },
    }
}

/// The responses to requests that the ranks agree on.
pub open spec fn route(requests: Seq<FrameModel>, unique_id: UniqueId, sequence: u64) -> Result<
    Seq<FrameModel>,
    NetworkFailure,
> {
    let header = requests[0].header;
    let bytes = header.element_count * header.element_type.width();
    if header.element_count > usize::MAX {
        Err(refused("collective element count exceeds usize"@))
    } else if bytes > usize::MAX {
        Err(refused("collective payload size overflow"@))
    } else {
        match header.opcode {
            Opcode::Barrier => empty_route(requests, unique_id, sequence, Opcode::Barrier),
            Opcode::SetTimeout => if header.element_type != ElementType::Untyped
                || header.root_rank != ANY_RANK || header.tag == 0 {
                Err(
                    refused(
                        "SET_TIMEOUT requires an empty control frame and non-zero millisecond tag"@,
                    ),
                )
            } else {
                empty_route(requests, unique_id, sequence, Opcode::SetTimeout)
            },
            Opcode::Broadcast => broadcast_route(requests, unique_id, sequence, header, bytes),
            Opcode::AllGather => gather_route(
                requests,
                unique_id,
                sequence,
                header,
                bytes,
                "all-gather count overflow"@,
            ),
            Opcode::AllReduce => gather_route(
                requests,
                unique_id,
                sequence,
                header,
                bytes,
                "all-reduce count overflow"@,
            ),
            Opcode::Gather | Opcode::Reduce => rooted_route(
                requests,
                unique_id,
                sequence,
                header,
                bytes,
            ),
            Opcode::Scatter => scatter_route(requests, unique_id, sequence, header, bytes),
            Opcode::ReduceScatter => shard_route(
                requests,
                unique_id,
                sequence,
                header,
                bytes,
                "reduce-scatter count is not divisible by world size"@,
            ),
            Opcode::AllToAll => shard_route(
                requests,
                unique_id,
                sequence,
                header,
                bytes,
                "all-to-all count is not divisible by world size"@,
            ),
            Opcode::AllToAllV => variable_route(
                requests,
                unique_id,
                sequence,
                header.element_type,
                header.element_type.width() as int,
            ),
            _ => Err(
                refused(
                    "opcode "@ + header.opcode.spec_name()
                        + " is not a coordinator collective request"@,
                ),
            ),
        }
    }
}

proof fn lemma_frames_fail(outcomes: Seq<Outcome>, count: int, end: int)
    requires
        count <= end,
    ensures
        frames_made(outcomes, count) is Err ==> frames_made(outcomes, end) == frames_made(
            outcomes,
            count,
        ),
    decreases end - count,
{
    if count < end {
        lemma_frames_fail(outcomes, count, end - 1);
    }
}

proof fn lemma_agreed_fail(
    agreement: AgreementModel,
    unique_id: UniqueId,
    sequence: u64,
    requests: Seq<FrameModel>,
    count: int,
    end: int,
)
    requires
        count <= end,
    ensures
        agreed(agreement, unique_id, sequence, requests, count).1 is Some ==> agreed(
            agreement,
            unique_id,
            sequence,
            requests,
            end,
        ) == agreed(agreement, unique_id, sequence, requests, count),
    decreases end - count,
{
    if count < end {
        lemma_agreed_fail(agreement, unique_id, sequence, requests, count, end - 1);
    }
}

/// The header of a response to one rank.
pub fn response_header(
    unique_id: UniqueId,
    opcode: Opcode,
    element_type: ElementType,
    sequence: u64,
    destination: usize,
    world_size: usize,
    count: usize,
) -> (header: FrameHeader)
    ensures
        header == response_header_of(
            unique_id,
            opcode,
            element_type,
            sequence,
            destination as int,
            world_size as int,
            count as int,
        ),
{
    let mut header = FrameHeader::collective(
        unique_id,
        opcode,
        element_type,
        0,
        ANY_RANK,
        world_size as u32,
        sequence,
        count as u64,
    );
    header.destination_rank = destination as u32;
    header
}

fn push_response(responses: &mut Vec<Frame>, header: FrameHeader, payload: Vec<u8>) -> (result:
    Result<(), NetworkError>)
    ensures
        match FrameModel::make(header, payload@) {
            Ok(frame) => result is Ok && frames_of(final(responses)@) == frames_of(
                old(responses)@,
            ).push(frame),
            Err(error) => result is Err && result->Err_0@ == NetworkFailure::Protocol(error),
        },
{
    let ghost before = responses@;
    match Frame::new(header, payload) {
        Ok(frame) => {
            responses.push(frame);
            assert(frames_of(responses@) =~= frames_of(before).push(frame@));
            Ok(())
        },
        Err(error) => Err(NetworkError::from(error)),
    }
}

fn copy_bytes(bytes: &[u8]) -> (copy: Vec<u8>)
    ensures
        copy@ == bytes@,
{
    let mut copy: Vec<u8> = Vec::new();
    extend(&mut copy, bytes);
    assert(copy@ =~= bytes@);
    copy
}

/// Answers every rank with the same payload.
fn route_same_payload(
    world_size: usize,
    unique_id: UniqueId,
    sequence: u64,
    opcode: Opcode,
    element_type: ElementType,
    count: usize,
    payload: &[u8],
) -> (result: Result<Vec<Frame>, NetworkError>)
    ensures
        routed(result) == frames_made(
            same_outcomes(
                unique_id,
                opcode,
                element_type,
                sequence,
                world_size as int,
                count as int,
                payload@,
            ),
            world_size as int,
        ),
{
    let ghost outcomes = same_outcomes(
        unique_id,
        opcode,
        element_type,
        sequence,
        world_size as int,
        count as int,
        payload@,
    );
    let mut responses: Vec<Frame> = Vec::new();
    let mut rank: usize = 0;
    assert(frames_of(responses@) =~= Seq::<FrameModel>::empty());
    while rank < world_size
        invariant
            rank <= world_size,
            outcomes == same_outcomes(
                unique_id,
                opcode,
                element_type,
                sequence,
                world_size as int,
                count as int,
                payload@,
            ),
            frames_made(outcomes, rank as int) == Ok::<_, NetworkFailure>(frames_of(responses@)),
        decreases world_size - rank,
    {
        let header = response_header(
            unique_id,
            opcode,
            element_type,
            sequence,
            rank,
            world_size,
            count,
        );
        proof {
            assert(outcomes[rank as int] == Ok::<_, NetworkFailure>((header, payload@)));
            lemma_frames_fail(outcomes, rank + 1, world_size as int);
        }
        match push_response(&mut responses, header, copy_bytes(payload)) {
            Ok(()) => {},
            Err(error) => {
                return Err(error);
            },
        }
        rank = rank + 1;
    }
    Ok(responses)
}

/// Answers the root with the payload and every other rank with nothing.
fn route_root_payload(
    world_size: usize,
    unique_id: UniqueId,
    sequence: u64,
    opcode: Opcode,
    element_type: ElementType,
    root: usize,
    count: usize,
    payload: &[u8],
) -> (result: Result<Vec<Frame>, NetworkError>)
    ensures
        routed(result) == frames_made(
            root_outcomes(
                unique_id,
                opcode,
                element_type,
                sequence,
                world_size as int,
                root as int,
                count as int,
                payload@,
            ),
            world_size as int,
        ),
{
    let ghost outcomes = root_outcomes(
        unique_id,
        opcode,
        element_type,
        sequence,
        world_size as int,
        root as int,
        count as int,
        payload@,
    );
    let mut responses: Vec<Frame> = Vec::new();
    let mut rank: usize = 0;
    assert(frames_of(responses@) =~= Seq::<FrameModel>::empty());
    while rank < world_size
        invariant
            rank <= world_size,
            outcomes == root_outcomes(
                unique_id,
                opcode,
                element_type,
                sequence,
                world_size as int,
                root as int,
                count as int,
                payload@,
            ),
            frames_made(outcomes, rank as int) == Ok::<_, NetworkFailure>(frames_of(responses@)),
        decreases world_size - rank,
    {
        let (header, body): (FrameHeader, Vec<u8>) = if rank == root {
            (
                response_header(
                    unique_id,
                    opcode,
                    element_type,
                    sequence,
                    rank,
                    world_size,
                    count,
                ),
                copy_bytes(payload),
            )
        } else {
            (
                response_header(
                    unique_id,
                    opcode,
                    ElementType::Untyped,
                    sequence,
                    rank,
                    world_size,
                    0,
                ),
                Vec::new(),
            )
        };
        proof {
            if rank != root {
                assert(body@ =~= Seq::<u8>::empty());
            }
            assert(outcomes[rank as int] == Ok::<_, NetworkFailure>((header, body@)));
            lemma_frames_fail(outcomes, rank + 1, world_size as int);
        }
        match push_response(&mut responses, header, body) {
            Ok(()) => {},
            Err(error) => {
                return Err(error);
            },
        }
        rank = rank + 1;
    }
    Ok(responses)
}

/// Answers every rank with nothing, where no rank sent anything.
fn route_empty(requests: &[Frame], unique_id: UniqueId, sequence: u64, opcode: Opcode) -> (result:
    Result<Vec<Frame>, NetworkError>)
    ensures
        routed(result) == empty_route(frames_of(requests@), unique_id, sequence, opcode),
{
    let ghost model = frames_of(requests@);
    let mut index: usize = 0;
    while index < requests.len()
        invariant
            index <= requests@.len(),
            model == frames_of(requests@),
            forall|i: int| 0 <= i < index ==> (#[trigger] model[i]).payload.len() == 0,
        decreases requests@.len() - index,
    {
        if requests[index].payload.len() != 0 {
            assert(model[index as int].payload.len() > 0);
            let mut text = String::from_str(opcode.name());
            text.append(" cannot carry a payload");
            return Err(NetworkError::InvalidConfiguration(text));
        }
        index = index + 1;
    }
    let nothing: Vec<u8> = Vec::new();
    assert(nothing@ =~= Seq::<u8>::empty());
    route_same_payload(
        requests.len(),
        unique_id,
        sequence,
        opcode,
        ElementType::Untyped,
        0,
        nothing.as_slice(),
    )
}

fn payload_error(rank: usize, actual: usize, expected: usize) -> (error: NetworkError)
    ensures
        error@ == refused(payload_text(rank as int, actual as int, expected as int)),
{
    let mut text = String::from_str("rank ");
    push_usize(&mut text, rank);
    text.append(" payload has ");
    push_usize(&mut text, actual);
    text.append(" bytes, expected ");
    push_usize(&mut text, expected);
    NetworkError::InvalidConfiguration(text)
}

proof fn lemma_sizes_defect(requests: Seq<FrameModel>, bytes: int, count: int, end: int)
    requires
        0 <= count <= end,
    ensures
        sizes_defect(requests, bytes, count) is Some ==> sizes_defect(requests, bytes, end)
            == sizes_defect(requests, bytes, count),
        sizes_defect(requests, bytes, end) is None ==> forall|i: int|
            0 <= i < count ==> (#[trigger] requests[i]).payload.len() == bytes,
    decreases end,
{
    if count < end {
        lemma_sizes_defect(requests, bytes, count, end - 1);
    } else if end > 0 {
        lemma_sizes_defect(requests, bytes, count - 1, end - 1);
    }
}

proof fn lemma_root_sizes_defect(
    requests: Seq<FrameModel>,
    root: int,
    bytes: int,
    count: int,
    end: int,
)
    requires
        0 <= count <= end,
    ensures
        root_sizes_defect(requests, root, bytes, count) is Some ==> root_sizes_defect(
            requests,
            root,
            bytes,
            end,
        ) == root_sizes_defect(requests, root, bytes, count),
        root_sizes_defect(requests, root, bytes, end) is None && 0 <= root < count
            ==> requests[root].payload.len() == bytes,
    decreases end,
{
    if count < end {
        lemma_root_sizes_defect(requests, root, bytes, count, end - 1);
    } else if end > 0 {
        lemma_root_sizes_defect(requests, root, bytes, count - 1, end - 1);
    }
}

fn require_all_payloads(requests: &[Frame], bytes: usize) -> (result: Result<(), NetworkError>)
    ensures
        match sizes_defect(frames_of(requests@), bytes as int, requests@.len() as int) {
            Some(defect) => result is Err && result->Err_0@ == defect,
            None => {
                &&& result is Ok
                &&& forall|i: int|
                    0 <= i < requests@.len() ==> (#[trigger] requests@[i]).payload@.len() == bytes
            },
        },
{
    let ghost model = frames_of(requests@);
    let mut rank: usize = 0;
    while rank < requests.len()
        invariant
            rank <= requests@.len(),
            model == frames_of(requests@),
            sizes_defect(model, bytes as int, rank as int) is None,
            forall|i: int| 0 <= i < rank ==> (#[trigger] requests@[i]).payload@.len() == bytes,
        decreases requests@.len() - rank,
    {
        let actual: usize = requests[rank].payload.len();
        proof {
            assert(model[rank as int].payload.len() == actual);
            lemma_sizes_defect(model, bytes as int, rank + 1, model.len() as int);
        }
        if actual != bytes {
            return Err(payload_error(rank, actual, bytes));
        }
        rank = rank + 1;
    }
    Ok(())
}

fn require_only_root_payload(requests: &[Frame], root: usize, bytes: usize) -> (result: Result<
    (),
    NetworkError,
>)
    ensures
        match root_sizes_defect(
            frames_of(requests@),
            root as int,
            bytes as int,
            requests@.len() as int,
        ) {
            Some(defect) => result is Err && result->Err_0@ == defect,
            None => {
                &&& result is Ok
                &&& root < requests@.len() ==> requests@[root as int].payload@.len() == bytes
            },
        },
{
    let ghost model = frames_of(requests@);
    let mut rank: usize = 0;
    while rank < requests.len()
        invariant
            rank <= requests@.len(),
            model == frames_of(requests@),
            root_sizes_defect(model, root as int, bytes as int, rank as int) is None,
            root < rank ==> requests@[root as int].payload@.len() == bytes,
        decreases requests@.len() - rank,
    {
        let expected: usize = if rank == root {
            bytes
        } else {
            0
        };
        let actual: usize = requests[rank].payload.len();
        proof {
            assert(model[rank as int].payload.len() == actual);
            lemma_root_sizes_defect(
                model,
                root as int,
                bytes as int,
                rank + 1,
                model.len() as int,
            );
        }
        if actual != expected {
            return Err(payload_error(rank, actual, expected));
        }
        rank = rank + 1;
    }
    Ok(())
}

proof fn lemma_joined_grows(requests: Seq<FrameModel>, count: int, end: int)
    requires
        count <= end,
    ensures
        joined(requests, count).len() <= joined(requests, end).len(),
    decreases end - count,
{
    if count < end {
        lemma_joined_grows(requests, count, end - 1);
    }
}

/// All payloads, one behind the other.
fn concatenate_payloads(requests: &[Frame]) -> (result: Result<Vec<u8>, NetworkError>)
    ensures
        ({
            let payload = joined(frames_of(requests@), requests@.len() as int);
            if payload.len() > usize::MAX {
                result is Err && result->Err_0@ == refused("response payload overflow"@)
            } else {
                result is Ok && result->Ok_0@ == payload
            }
        }),
{
    let ghost model = frames_of(requests@);
    let mut payload: Vec<u8> = Vec::new();
    let mut total: usize = 0;
    let mut rank: usize = 0;
    while rank < requests.len()
        invariant
            rank <= requests@.len(),
            model == frames_of(requests@),
            payload@ == joined(model, rank as int),
            total == payload@.len(),
        decreases requests@.len() - rank,
    {
        assert(model[rank as int].payload == requests@[rank as int].payload@);
        proof {
            lemma_joined_grows(model, rank + 1, model.len() as int);
        }
        match total.checked_add(requests[rank].payload.len()) {
            Some(next) => {
                total = next;
            },
            None => {
                return Err(NetworkError::invalid("response payload overflow"));
            },
        }
        extend(&mut payload, requests[rank].payload.as_slice());
        rank = rank + 1;
    }
    Ok(payload)
}

/// The rank that a rooted collective names.
fn required_root(root_rank: u32, world_size: usize) -> (result: Result<usize, NetworkError>)
    ensures
        if root_rank != ANY_RANK && root_rank < world_size {
            result is Ok && result->Ok_0 == root_rank
        } else {
            result is Err && result->Err_0@ == refused(rootless_text())
        },
{
    if root_rank == ANY_RANK || root_rank as usize >= world_size {
        return Err(NetworkError::invalid("rooted collective requires a valid root rank"));
    }
    Ok(root_rank as usize)
}

/// A shard of a divisible whole fits in it.
proof fn lemma_shard(count: int, world_size: int, width: int, place: int)
    requires
        0 <= count,
        0 < world_size,
        0 <= width,
        count % world_size == 0,
        0 <= place < world_size,
    ensures
        count / world_size * width >= 0,
        place * (count / world_size * width) >= 0,
        place * (count / world_size * width) + count / world_size * width <= count * width,
{
    let shard = count / world_size;
    lemma_fundamental_div_mod(count, world_size);
    assert(shard >= 0) by {
        lemma_div_pos_is_pos(count, world_size);
    }
    assert(shard * width >= 0) by (nonlinear_arith)
        requires
            shard >= 0,
            width >= 0,
    ;
    let size = shard * width;
    assert(place * size >= 0) by (nonlinear_arith)
        requires
            place >= 0,
            size >= 0,
    ;
    assert(place * size + size <= world_size * size) by (nonlinear_arith)
        requires
            place + 1 <= world_size,
            size >= 0,
    ;
    assert(world_size * (shard * width) == (world_size * shard) * width) by (nonlinear_arith);
}

/// Answers every rank with its shard of one payload.
fn route_shards(
    world_size: usize,
    unique_id: UniqueId,
    sequence: u64,
    opcode: Opcode,
    element_type: ElementType,
    shard_count: usize,
    shard_bytes: usize,
    payload: &[u8],
) -> (result: Result<Vec<Frame>, NetworkError>)
    requires
        forall|d: int|
            #![trigger d * shard_bytes]
            0 <= d < world_size ==> 0 <= d * shard_bytes && d * shard_bytes + shard_bytes
                <= payload.len(),
    ensures
        routed(result) == frames_made(
            scatter_outcomes(
                unique_id,
                opcode,
                element_type,
                sequence,
                world_size as int,
                shard_count as int,
                shard_bytes as int,
                payload@,
            ),
            world_size as int,
        ),
{
    let ghost outcomes = scatter_outcomes(
        unique_id,
        opcode,
        element_type,
        sequence,
        world_size as int,
        shard_count as int,
        shard_bytes as int,
        payload@,
    );
    let mut responses: Vec<Frame> = Vec::new();
    let mut rank: usize = 0;
    assert(frames_of(responses@) =~= Seq::<FrameModel>::empty());
    while rank < world_size
        invariant
            rank <= world_size,
            forall|d: int|
                #![trigger d * shard_bytes]
                0 <= d < world_size ==> 0 <= d * shard_bytes && d * shard_bytes + shard_bytes
                    <= payload.len(),
            outcomes == scatter_outcomes(
                unique_id,
                opcode,
                element_type,
                sequence,
                world_size as int,
                shard_count as int,
                shard_bytes as int,
                payload@,
            ),
            frames_made(outcomes, rank as int) == Ok::<_, NetworkFailure>(frames_of(responses@)),
        decreases world_size - rank,
    {
        assert(0 <= rank * shard_bytes && rank * shard_bytes + shard_bytes <= payload.len());
        let start: usize = rank * shard_bytes;
        let body = slice_to_vec(slice_subrange(payload, start, start + shard_bytes));
        let header = response_header(
            unique_id,
            opcode,
            element_type,
            sequence,
            rank,
            world_size,
            shard_count,
        );
        proof {
            assert(outcomes[rank as int] == Ok::<_, NetworkFailure>((header, body@)));
            lemma_frames_fail(outcomes, rank + 1, world_size as int);
        }
        match push_response(&mut responses, header, body) {
            Ok(()) => {},
            Err(error) => {
                return Err(error);
            },
        }
        rank = rank + 1;
    }
    Ok(responses)
}

/// Answers every rank with its shards of all payloads.
fn route_transposed(
    requests: &[Frame],
    unique_id: UniqueId,
    sequence: u64,
    opcode: Opcode,
    element_type: ElementType,
    count: usize,
    shard_bytes: usize,
    rank_bytes: usize,
) -> (result: Result<Vec<Frame>, NetworkError>)
    requires
        forall|d: int|
            #![trigger d * shard_bytes]
            0 <= d < requests@.len() ==> 0 <= d * shard_bytes && d * shard_bytes + shard_bytes
                <= rank_bytes,
        forall|i: int|
            0 <= i < requests@.len() ==> (#[trigger] requests@[i]).payload@.len() == rank_bytes,
    ensures
        routed(result) == frames_made(
            shard_outcomes(
                unique_id,
                opcode,
                element_type,
                sequence,
                frames_of(requests@),
                count as int,
                shard_bytes as int,
            ),
            requests@.len() as int,
        ),
{
    let ghost model = frames_of(requests@);
    let world_size: usize = requests.len();
    let ghost outcomes = shard_outcomes(
        unique_id,
        opcode,
        element_type,
        sequence,
        model,
        count as int,
        shard_bytes as int,
    );
    let mut responses: Vec<Frame> = Vec::new();
    let mut destination: usize = 0;
    assert(frames_of(responses@) =~= Seq::<FrameModel>::empty());
    while destination < world_size
        invariant
            destination <= world_size,
            world_size == requests@.len(),
            model == frames_of(requests@),
            forall|d: int|
                #![trigger d * shard_bytes]
                0 <= d < requests@.len() ==> 0 <= d * shard_bytes && d * shard_bytes + shard_bytes
                    <= rank_bytes,
            forall|i: int|
                0 <= i < requests@.len() ==> (#[trigger] requests@[i]).payload@.len() == rank_bytes,
            outcomes == shard_outcomes(
                unique_id,
                opcode,
                element_type,
                sequence,
                model,
                count as int,
                shard_bytes as int,
            ),
            frames_made(outcomes, destination as int) == Ok::<_, NetworkFailure>(
                frames_of(responses@),
            ),
        decreases world_size - destination,
    {
        assert(0 <= destination * shard_bytes && destination * shard_bytes + shard_bytes
            <= rank_bytes);
        let start: usize = destination * shard_bytes;
        let mut body: Vec<u8> = Vec::new();
        let mut source: usize = 0;
        while source < world_size
            invariant
                source <= world_size,
                world_size == requests@.len(),
                model == frames_of(requests@),
                start + shard_bytes <= rank_bytes,
                forall|i: int|
                    0 <= i < requests@.len() ==> (#[trigger] requests@[i]).payload@.len()
                        == rank_bytes,
                body@ == pieces(model, start as int, shard_bytes as int, source as int),
            decreases world_size - source,
        {
            assert(requests@[source as int].payload@.len() == rank_bytes);
            let piece = slice_subrange(
                requests[source].payload.as_slice(),
                start,
                start + shard_bytes,
            );
            extend(&mut body, piece);
            source = source + 1;
        }
        let header = response_header(
            unique_id,
            opcode,
            element_type,
            sequence,
            destination,
            world_size,
            count,
        );
        proof {
            assert(outcomes[destination as int] == Ok::<_, NetworkFailure>((header, body@)));
            lemma_frames_fail(outcomes, destination + 1, world_size as int);
        }
        match push_response(&mut responses, header, body) {
            Ok(()) => {},
            Err(error) => {
                return Err(error);
            },
        }
        destination = destination + 1;
    }
    Ok(responses)
}

/// The counts of a variable exchange's request, and the bytes behind them.
pub fn decode_counts_payload(frame: &Frame, world_size: usize, element_bytes: usize) -> (result:
    Result<(Vec<usize>, &[u8]), NetworkError>)
    ensures
        match row_defect(frame@, world_size as int, element_bytes as int) {
            Some(defect) => result is Err && result->Err_0@ == defect,
            None => {
                &&& result is Ok
                &&& result->Ok_0.0@ == row(frame@, world_size as int)
                &&& result->Ok_0.1@ == frame.payload@.skip(8 * world_size)
            },
        },
{
    if frame.header.flags & FLAG_COUNTS_PREFIX == 0 {
        return Err(NetworkError::invalid("all-to-all-v frame is missing its counts prefix"));
    }
    let prefix_bytes: usize = match world_size.checked_mul(8) {
        Some(prefix_bytes) => prefix_bytes,
        None => {
            return Err(NetworkError::invalid("all-to-all-v prefix size overflow"));
        },
    };
    if frame.payload.len() < prefix_bytes {
        return Err(NetworkError::invalid("all-to-all-v counts prefix is truncated"));
    }
    let ghost wanted = row(frame@, world_size as int);
    let mut counts: Vec<usize> = Vec::new();
    let mut index: usize = 0;
    while index < world_size
        invariant
            index <= world_size,
            prefix_bytes == 8 * world_size,
            prefix_bytes <= frame.payload@.len(),
            frame.header.has_counts_prefix(),
            wanted == row(frame@, world_size as int),
            counts@ == wanted.take(index as int),
            forall|i: int|
                0 <= i < index ==> #[trigger] count_at(frame.payload@, i) <= usize::MAX,
        decreases world_size - index,
    {
        let count: u64 = get_u64(frame.payload.as_slice(), 8 * index);
        assert(count == count_at(frame.payload@, index as int));
        if count > usize::MAX as u64 {
            assert(oversized(frame@, world_size as int));
            return Err(NetworkError::invalid("all-to-all-v count exceeds host usize"));
        }
        counts.push(count as usize);
        assert(counts@ =~= wanted.take(index + 1));
        index = index + 1;
    }
    assert(wanted.take(index as int) =~= wanted);
    let total: usize = match checked_sum(counts.as_slice()) {
        Some(total) => total,
        None => {
            return Err(NetworkError::invalid("all-to-all-v count sum overflow"));
        },
    };
    if total as u64 != frame.header.element_count {
        let mut text = String::from_str("all-to-all-v counts sum to ");
        push_usize(&mut text, total);
        text.append(", header declares ");
        push_decimal(&mut text, frame.header.element_count);
        return Err(NetworkError::InvalidConfiguration(text));
    }
    let expected_data: usize = match total.checked_mul(element_bytes) {
        Some(expected) => expected,
        None => {
            return Err(NetworkError::invalid("all-to-all-v data size overflow"));
        },
    };
    let data = slice_subrange(frame.payload.as_slice(), prefix_bytes, frame.payload.len());
    assert(data@ =~= frame.payload@.skip(8 * world_size));
    if data.len() != expected_data {
        let mut text = String::from_str("all-to-all-v data has ");
        push_usize(&mut text, data.len());
        text.append(" bytes, expected ");
        push_usize(&mut text, expected_data);
        return Err(NetworkError::InvalidConfiguration(text));
    }
    Ok((counts, data))
}

proof fn lemma_rows_defect(requests: Seq<FrameModel>, width: int, count: int, end: int)
    requires
        0 <= count <= end,
    ensures
        rows_defect(requests, width, count) is Some ==> rows_defect(requests, width, end)
            == rows_defect(requests, width, count),
    decreases end - count,
{
    if count < end {
        lemma_rows_defect(requests, width, count, end - 1);
    }
}

/// What a request sends to one rank lies inside its payload.
proof fn lemma_sent_inside(frame: FrameModel, world_size: int, destination: int, width: int)
    requires
        0 <= destination < world_size,
        0 <= width,
        row_defect(frame, world_size, width) is None,
    ensures
        ({
            let counts = row(frame, world_size);
            let before = sum_usize(counts.take(destination));
            &&& 0 <= before
            &&& 0 <= before * width
            &&& 0 <= counts[destination] * width
            &&& before <= usize::MAX
            &&& 8 * world_size + before * width + counts[destination] * width
                <= frame.payload.len()
        }),
{
    let counts = row(frame, world_size);
    let before = sum_usize(counts.take(destination));
    let total = sum_usize(counts);
    lemma_sum_prefix(counts, destination);
    lemma_sum_prefix(counts, destination + 1);
    lemma_sum_step(counts, destination);
    lemma_sum_nonnegative(counts.take(destination));
    let here = counts[destination] as int;
    assert(0 <= before * width) by (nonlinear_arith)
        requires
            0 <= before,
            0 <= width,
    ;
    assert(0 <= here * width) by (nonlinear_arith)
        requires
            0 <= here,
            0 <= width,
    ;
    assert(before * width + here * width <= total * width) by (nonlinear_arith)
        requires
            before + here <= total,
            0 <= width,
    ;
}

/// Answers every rank with what all ranks sent it, behind the counts.
#[verifier::rlimit(40)]
fn route_all_to_all_v(
    requests: &[Frame],
    unique_id: UniqueId,
    sequence: u64,
    element_type: ElementType,
    element_bytes: usize,
) -> (result: Result<Vec<Frame>, NetworkError>)
    ensures
        routed(result) == variable_route(
            frames_of(requests@),
            unique_id,
            sequence,
            element_type,
            element_bytes as int,
        ),
{
    if element_type == ElementType::Untyped || element_bytes == 0 {
        return Err(NetworkError::invalid("all-to-all-v requires a concrete element type"));
    }
    let ghost model = frames_of(requests@);
    let ghost width = element_bytes as int;
    let world_size: usize = requests.len();
    let mut rows: Vec<Vec<usize>> = Vec::new();
    let mut source: usize = 0;
    while source < world_size
        invariant
            source <= world_size,
            world_size == requests@.len(),
            model == frames_of(requests@),
            width == element_bytes,
            width > 0,
            element_type != ElementType::Untyped,
            rows@.len() == source,
            rows_defect(model, width, source as int) is None,
            forall|s: int|
                0 <= s < source ==> (#[trigger] rows@[s])@ == row(model[s], world_size as int)
                    && row_defect(model[s], world_size as int, width) is None,
        decreases world_size - source,
    {
        proof {
            lemma_rows_defect(model, width, source + 1, world_size as int);
        }
        match decode_counts_payload(&requests[source], world_size, element_bytes) {
            Ok((counts, _)) => {
                rows.push(counts);
            },
            Err(error) => {
                return Err(error);
            },
        }
        source = source + 1;
    }
    let ghost outcomes = Seq::new(
        model.len(),
        |d: int| variable_outcome(model, unique_id, sequence, element_type, width, d),
    );
    let mut responses: Vec<Frame> = Vec::new();
    let mut destination: usize = 0;
    assert(frames_of(responses@) =~= Seq::<FrameModel>::empty());
    while destination < world_size
        invariant
            destination <= world_size,
            world_size == requests@.len(),
            model == frames_of(requests@),
            width == element_bytes,
            width > 0,
            element_type != ElementType::Untyped,
            rows@.len() == world_size,
            rows_defect(model, width, world_size as int) is None,
            forall|s: int|
                0 <= s < world_size ==> (#[trigger] rows@[s])@ == row(model[s], world_size as int)
                    && row_defect(model[s], world_size as int, width) is None,
            outcomes == Seq::new(
                model.len(),
                |d: int| variable_outcome(model, unique_id, sequence, element_type, width, d),
            ),
            frames_made(outcomes, destination as int) == Ok::<_, NetworkFailure>(
                frames_of(responses@),
            ),
        decreases world_size - destination,
    {
        let ghost counts_model = received(model, destination as int);
        let mut receive_counts: Vec<usize> = Vec::new();
        let mut place: usize = 0;
        while place < world_size
            invariant
                place <= world_size,
                destination < world_size,
                world_size == model.len(),
                rows@.len() == world_size,
                counts_model == received(model, destination as int),
                forall|s: int|
                    0 <= s < world_size ==> (#[trigger] rows@[s])@ == row(
                        model[s],
                        world_size as int,
                    ),
                receive_counts@ == counts_model.take(place as int),
            decreases world_size - place,
        {
            assert(rows@[place as int]@ == row(model[place as int], world_size as int));
            receive_counts.push(rows[place][destination]);
            assert(receive_counts@ =~= counts_model.take(place + 1));
            place = place + 1;
        }
        assert(counts_model.take(place as int) =~= counts_model);
        proof {
            assert(outcomes[destination as int] == variable_outcome(
                model,
                unique_id,
                sequence,
                element_type,
                width,
                destination as int,
            ));
            lemma_frames_fail(outcomes, destination + 1, world_size as int);
        }
        let receive_total: usize = match checked_sum(receive_counts.as_slice()) {
            Some(total) => total,
            None => {
                return Err(NetworkError::invalid("all-to-all-v receive count overflow"));
            },
        };
        let mut payload = match encode_counts(receive_counts.as_slice()) {
            Ok(payload) => payload,
            Err(_) => {
                return Err(NetworkError::invalid("all-to-all-v count exceeds protocol u64"));
            },
        };
        match receive_total.checked_mul(element_bytes) {
            Some(_) => {},
            None => {
                return Err(NetworkError::invalid("all-to-all-v response size overflow"));
            },
        }
        let ghost head = payload@;
        let mut from: usize = 0;
        assert(payload@ =~= head + sent_by(model, destination as int, width, 0));
        while from < world_size
            invariant
                from <= world_size,
                destination < world_size,
                world_size == requests@.len(),
                model == frames_of(requests@),
                width == element_bytes,
                rows@.len() == world_size,
                forall|s: int|
                    0 <= s < world_size ==> (#[trigger] rows@[s])@ == row(
                        model[s],
                        world_size as int,
                    ) && row_defect(model[s], world_size as int, width) is None,
                payload@ == head + sent_by(model, destination as int, width, from as int),
            decreases world_size - from,
        {
            let ghost frame = model[from as int];
            let ghost counts = row(frame, world_size as int);
            proof {
                assert(rows@[from as int]@ == counts);
                lemma_sent_inside(frame, world_size as int, destination as int, width);
            }
            let mut offset: usize = 0;
            let mut index: usize = 0;
            assert(counts.take(0) =~= Seq::<usize>::empty());
            while index < destination
                invariant
                    index <= destination,
                    destination < world_size,
                    from < world_size,
                    rows@.len() == world_size,
                    rows@[from as int]@ == counts,
                    counts.len() == world_size,
                    offset == sum_usize(counts.take(index as int)),
                    sum_usize(counts.take(destination as int)) <= usize::MAX,
                decreases destination - index,
            {
                proof {
                    lemma_sum_step(counts, index as int);
                    lemma_sum_prefix(counts.take(destination as int), index + 1);
                    assert(counts.take(destination as int).take(index + 1) =~= counts.take(
                        index + 1,
                    ));
                }
                offset = offset + rows[from][index];
                index = index + 1;
            }
            assert(frame.payload == requests@[from as int].payload@);
            let limit: usize = requests[from].payload.len();
            assert(8 * world_size + offset * element_bytes + counts[destination as int]
                * element_bytes <= limit);
            let start: usize = 8 * world_size + offset * element_bytes;
            let bytes: usize = rows[from][destination] * element_bytes;
            let piece = slice_subrange(
                requests[from].payload.as_slice(),
                start,
                start + bytes,
            );
            extend(&mut payload, piece);
            proof {
                assert(piece@ == sent(frame, world_size as int, destination as int, width));
                assert(payload@ =~= head + sent_by(model, destination as int, width, from + 1));
            }
            from = from + 1;
        }
        let mut header = response_header(
            unique_id,
            Opcode::AllToAllV,
            element_type,
            sequence,
            destination,
            world_size,
            receive_total,
        );
        header.flags = FLAG_COUNTS_PREFIX;
        match push_response(&mut responses, header, payload) {
            Ok(()) => {},
            Err(error) => {
                return Err(error);
            },
        }
        destination = destination + 1;
    }
    Ok(responses)
}

fn submit_requests(
    agreement: &mut CollectiveAgreement,
    unique_id: UniqueId,
    sequence: u64,
    requests: &[Frame],
) -> (result: Result<(), NetworkError>)
    requires
        old(agreement)@.valid(),
    ensures
        final(agreement)@.valid(),
        ({
            let (after, failure) = agreed(
                old(agreement)@,
                unique_id,
                sequence,
                frames_of(requests@),
                requests@.len() as int,
            );
            &&& final(agreement)@ == after
            &&& match failure {
                Some(failure) => result is Err && result->Err_0@ == failure,
                None => result is Ok,
            }
        }),
{
    let ghost model = frames_of(requests@);
    let ghost start = agreement@;
    let world_size: usize = requests.len();
    let mut rank: usize = 0;
    while rank < world_size
        invariant
            rank <= world_size,
            world_size == requests@.len(),
            model == frames_of(requests@),
            start == old(agreement)@,
            agreement@.valid(),
            agreed(start, unique_id, sequence, model, rank as int) == (
                agreement@,
                None::<NetworkFailure>,
            ),
        decreases world_size - rank,
    {
        let header = requests[rank].header;
        proof {
            assert(model[rank as int].header == header);
            lemma_agreed_fail(start, unique_id, sequence, model, rank + 1, world_size as int);
        }
        if !header.unique_id.same(&unique_id) {
            return Err(NetworkError::WrongSession);
        }
        if header.source_rank as usize != rank || header.world_size as usize != world_size {
            let mut text = String::from_str("connection rank ");
            push_usize(&mut text, rank);
            text.append(" submitted source rank ");
            push_decimal(&mut text, header.source_rank as u64);
            text.append(" and world size ");
            push_decimal(&mut text, header.world_size as u64);
            return Err(NetworkError::InvalidConfiguration(text));
        }
        let variable: bool = header.opcode == Opcode::AllToAllV;
        let descriptor = OperationDescriptor::new(
            header.opcode,
            header.element_type,
            header.root_rank,
            if variable {
                0
            } else {
                header.element_count
            },
        ).with_layout_hash(
            if variable {
                0
            } else {
                header.tag
            },
        );
        match agreement.submit(rank, sequence, descriptor) {
            Ok(_) => {},
            Err(error) => {
                return Err(NetworkError::from(error));
            },
        }
        rank = rank + 1;
    }
    Ok(())
}

/// Holds the requests of one sequence against each other and answers every
/// rank.
pub fn validate_and_route(
    agreement: &mut CollectiveAgreement,
    unique_id: UniqueId,
    sequence: u64,
    requests: &[Frame],
) -> (result: Result<Vec<Frame>, NetworkError>)
    requires
        old(agreement)@.valid(),
        requests@.len() > 0,
    ensures
        final(agreement)@.valid(),
        ({
            let model = frames_of(requests@);
            let (after, failure) = agreed(
                old(agreement)@,
                unique_id,
                sequence,
                model,
                model.len() as int,
            );
            &&& final(agreement)@ == after
            &&& routed(result) == match failure {
                Some(failure) => Err(failure),
                None => route(model, unique_id, sequence),
            }
        }),
{
    let ghost model = frames_of(requests@);
    match submit_requests(agreement, unique_id, sequence, requests) {
        Ok(()) => {},
        Err(error) => {
            return Err(error);
        },
    }
    let world_size: usize = requests.len();
    let first = requests[0].header;
    assert(model[0].header == first);
    let element_bytes: usize = first.element_type.byte_width();
    if first.element_count > usize::MAX as u64 {
        return Err(NetworkError::invalid("collective element count exceeds usize"));
    }
    let count: usize = first.element_count as usize;
    let rank_payload_bytes: usize = match count.checked_mul(element_bytes) {
        Some(bytes) => bytes,
        None => {
            return Err(NetworkError::invalid("collective payload size overflow"));
        },
    };
    proof {
        if count as int % (world_size as int) == 0 {
            assert forall|d: int|
                #![trigger d * (count / world_size * element_bytes)]
                0 <= d < world_size implies 0 <= d * (count / world_size * element_bytes) && d * (
            count / world_size * element_bytes) + count / world_size * element_bytes
                <= rank_payload_bytes by {
                lemma_shard(count as int, world_size as int, element_bytes as int, d);
            }
        }
    }
    match first.opcode {
        Opcode::Barrier => route_empty(requests, unique_id, sequence, Opcode::Barrier),
        Opcode::SetTimeout => {
            if first.element_type != ElementType::Untyped || first.root_rank != ANY_RANK
                || first.tag == 0 {
                return Err(
                    NetworkError::invalid(
                        "SET_TIMEOUT requires an empty control frame and non-zero millisecond tag",
                    ),
                );
            }
            route_empty(requests, unique_id, sequence, Opcode::SetTimeout)
        },
        Opcode::Broadcast => {
            let root: usize = match required_root(first.root_rank, world_size) {
                Ok(root) => root,
                Err(error) => {
                    return Err(error);
                },
            };
            match require_only_root_payload(requests, root, rank_payload_bytes) {
                Ok(()) => {},
                Err(error) => {
                    return Err(error);
                },
            }
            assert(model[root as int].payload == requests@[root as int].payload@);
            route_same_payload(
                world_size,
                unique_id,
                sequence,
                first.opcode,
                first.element_type,
                count,
                requests[root].payload.as_slice(),
            )
        },
        Opcode::AllGather | Opcode::AllReduce => {
            match require_all_payloads(requests, rank_payload_bytes) {
                Ok(()) => {},
                Err(error) => {
                    return Err(error);
                },
            }
            let payload = match concatenate_payloads(requests) {
                Ok(payload) => payload,
                Err(error) => {
                    return Err(error);
                },
            };
            let total: usize = match count.checked_mul(world_size) {
                Some(total) => total,
                None => {
                    return Err(
                        NetworkError::invalid(
                            if first.opcode == Opcode::AllGather {
                                "all-gather count overflow"
                            } else {
                                "all-reduce count overflow"
                            },
                        ),
                    );
                },
            };
            route_same_payload(
                world_size,
                unique_id,
                sequence,
                first.opcode,
                first.element_type,
                total,
                payload.as_slice(),
            )
        },
        Opcode::Gather | Opcode::Reduce => {
            let root: usize = match required_root(first.root_rank, world_size) {
                Ok(root) => root,
                Err(error) => {
                    return Err(error);
                },
            };
            match require_all_payloads(requests, rank_payload_bytes) {
                Ok(()) => {},
                Err(error) => {
                    return Err(error);
                },
            }
            let payload = match concatenate_payloads(requests) {
                Ok(payload) => payload,
                Err(error) => {
                    return Err(error);
                },
            };
            let total: usize = match count.checked_mul(world_size) {
                Some(total) => total,
                None => {
                    return Err(NetworkError::invalid("rooted collective count overflow"));
                },
            };
            route_root_payload(
                world_size,
                unique_id,
                sequence,
                first.opcode,
                first.element_type,
                root,
                total,
                payload.as_slice(),
            )
        },
        Opcode::Scatter => {
            let root: usize = match required_root(first.root_rank, world_size) {
                Ok(root) => root,
                Err(error) => {
                    return Err(error);
                },
            };
            match require_only_root_payload(requests, root, rank_payload_bytes) {
                Ok(()) => {},
                Err(error) => {
                    return Err(error);
                },
            }
            if count % world_size != 0 {
                return Err(
                    NetworkError::invalid(
                        "scatter total element count is not divisible by world size",
                    ),
                );
            }
            let shard_count: usize = count / world_size;
            assert(shard_count * element_bytes <= rank_payload_bytes) by {
                lemma_shard(count as int, world_size as int, element_bytes as int, 0);
            }
            assert(model[root as int].payload == requests@[root as int].payload@);
            route_shards(
                world_size,
                unique_id,
                sequence,
                first.opcode,
                first.element_type,
                shard_count,
                shard_count * element_bytes,
                requests[root].payload.as_slice(),
            )
        },
        Opcode::ReduceScatter | Opcode::AllToAll => {
            match require_all_payloads(requests, rank_payload_bytes) {
                Ok(()) => {},
                Err(error) => {
                    return Err(error);
                },
            }
            if count % world_size != 0 {
                return Err(
                    NetworkError::invalid(
                        if first.opcode == Opcode::ReduceScatter {
                            "reduce-scatter count is not divisible by world size"
                        } else {
                            "all-to-all count is not divisible by world size"
                        },
                    ),
                );
            }
            let shard_count: usize = count / world_size;
            assert(shard_count * element_bytes <= rank_payload_bytes) by {
                lemma_shard(count as int, world_size as int, element_bytes as int, 0);
            }
            route_transposed(
                requests,
                unique_id,
                sequence,
                first.opcode,
                first.element_type,
                count,
                shard_count * element_bytes,
                rank_payload_bytes,
            )
        },
        Opcode::AllToAllV => route_all_to_all_v(
            requests,
            unique_id,
            sequence,
            first.element_type,
            element_bytes,
        ),
        _ => {
            let mut text = String::from_str("opcode ");
            text.append(first.opcode.name());
            text.append(" is not a coordinator collective request");
            Err(NetworkError::InvalidConfiguration(text))
        },
    }
}

} // verus!

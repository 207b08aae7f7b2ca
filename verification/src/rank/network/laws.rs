//! What holds of every routed collective.

use crate::rank::network::routing::{
    agreed, descriptor_of, frames_made, joined, pieces, request_defect, root_outcomes, route,
    same_outcomes, scatter_outcomes, shard_outcomes, variable_outcome, Outcome,
};
use crate::rank::protocol::agreement::AgreementModel;
use crate::rank::protocol::frame::FrameModel;
use crate::rank::protocol::{FrameHeader, Opcode, UniqueId};
use vstd::prelude::*;

verus! {

/// What an agreement holds while requests come in.
pub open spec fn collecting(
    before: AgreementModel,
    now: AgreementModel,
    requests: Seq<FrameModel>,
    count: int,
) -> bool {
    &&& now.world_size == before.world_size
    &&& now.next_sequence == before.next_sequence
    &&& now.submissions.len() == before.world_size
    &&& forall|i: int|
        0 <= i < count ==> #[trigger] now.submissions[i] == Some(descriptor_of(requests[i].header))
    &&& forall|i: int|
        count <= i < before.world_size ==> #[trigger] now.submissions[i] is None
}

/// Every one of the first `count` requests asks for what the first asks for.
pub open spec fn alike(requests: Seq<FrameModel>, count: int) -> bool {
    forall|i: int|
        0 <= i < count ==> descriptor_of((#[trigger] requests[i]).header) == descriptor_of(
            requests[0].header,
        )
}

proof fn lemma_collecting(
    agreement: AgreementModel,
    unique_id: UniqueId,
    sequence: u64,
    requests: Seq<FrameModel>,
    count: int,
)
    requires
        agreement.valid(),
        agreement.idle(),
        agreement.world_size == requests.len(),
        0 <= count < requests.len(),
        agreed(agreement, unique_id, sequence, requests, count).1 is None,
    ensures
        collecting(
            agreement,
            agreed(agreement, unique_id, sequence, requests, count).0,
            requests,
            count,
        ),
        alike(requests, count),
        count > 0 ==> sequence == agreement.next_sequence,
    decreases count,
{
    if count > 0 {
        lemma_collecting(agreement, unique_id, sequence, requests, count - 1);
        let before = agreed(agreement, unique_id, sequence, requests, count - 1).0;
        let descriptor = descriptor_of(requests[count - 1].header);
        assert(!before.conflicts(descriptor));
        assert(before.submissions[count] is None);
        assert(!before.lacks_only(count - 1));
        if count > 1 {
            assert(before.submissions[0] == Some(descriptor_of(requests[0].header)));
        }
        let now = agreed(agreement, unique_id, sequence, requests, count).0;
        assert(now.submissions == before.submissions.update(count - 1, Some(descriptor)));
        assert forall|i: int| 0 <= i < count implies #[trigger] now.submissions[i] == Some(
            descriptor_of(requests[i].header),
        ) by {
            if i < count - 1 {
                assert(before.submissions[i] == Some(descriptor_of(requests[i].header)));
            }
        }
    }
}

/// A collective is routed only where every rank asked for the same operation
/// in the same sequence and session, each on its own connection; the agreement
/// then waits for the next sequence.
pub proof fn law_routed_requests_agree(
    agreement: AgreementModel,
    unique_id: UniqueId,
    sequence: u64,
    requests: Seq<FrameModel>,
)
    requires
        agreement.valid(),
        agreement.idle(),
        agreement.world_size == requests.len(),
        requests.len() > 0,
        agreed(agreement, unique_id, sequence, requests, requests.len() as int).1 is None,
    ensures
        alike(requests, requests.len() as int),
        forall|i: int|
            0 <= i < requests.len() ==> {
                &&& (#[trigger] requests[i]).header.unique_id == unique_id
                &&& requests[i].header.source_rank == i
                &&& requests[i].header.world_size == requests.len()
            },
        sequence == agreement.next_sequence,
        agreed(agreement, unique_id, sequence, requests, requests.len() as int).0
            == agreement.advanced(),
{
    let count = requests.len() as int;
    lemma_collecting(agreement, unique_id, sequence, requests, count - 1);
    let before = agreed(agreement, unique_id, sequence, requests, count - 1).0;
    let descriptor = descriptor_of(requests[count - 1].header);
    assert(before.lacks_only(count - 1)) by {
        assert forall|i: int| 0 <= i < before.world_size && i != count - 1 implies (
        #[trigger] before.submissions[i]) is Some by {
            assert(before.submissions[i] == Some(descriptor_of(requests[i].header)));
        }
    }
    assert(before.submissions[count - 1] is None);
    assert(!before.conflicts(descriptor));
    if count > 1 {
        assert(before.submissions[0] == Some(descriptor_of(requests[0].header)));
    }
    assert(before.advanced() == agreement.advanced());
    assert forall|i: int| 0 <= i < requests.len() implies {
        &&& (#[trigger] requests[i]).header.unique_id == unique_id
        &&& requests[i].header.source_rank == i
        &&& requests[i].header.world_size == requests.len()
    } by {
        lemma_no_request_defect(agreement, unique_id, sequence, requests, count, i);
    }
}

proof fn lemma_no_request_defect(
    agreement: AgreementModel,
    unique_id: UniqueId,
    sequence: u64,
    requests: Seq<FrameModel>,
    count: int,
    place: int,
)
    requires
        0 <= place < count,
        agreed(agreement, unique_id, sequence, requests, count).1 is None,
    ensures
        request_defect(requests[place].header, place, requests.len() as int, unique_id) is None,
    decreases count,
{
    if place < count - 1 {
        lemma_no_request_defect(agreement, unique_id, sequence, requests, count - 1, place);
    }
}

pub proof fn lemma_joined(requests: Seq<FrameModel>, bytes: int, count: int, place: int)
    requires
        0 <= place < count <= requests.len(),
        0 <= bytes,
        forall|i: int|
            0 <= i < requests.len() ==> (#[trigger] requests[i]).payload.len() == bytes,
    ensures
        joined(requests, count).len() == count * bytes,
        0 <= place * bytes,
        place * bytes + bytes <= count * bytes,
        joined(requests, count).subrange(place * bytes, place * bytes + bytes)
            == requests[place].payload,
    decreases count,
{
    let all = joined(requests, count);
    let shorter = joined(requests, count - 1);
    assert(requests[count - 1].payload.len() == bytes);
    assert(shorter.len() == (count - 1) * bytes) by {
        if count > 1 {
            lemma_joined(requests, bytes, count - 1, 0);
        }
    }
    assert(count * bytes == (count - 1) * bytes + bytes) by (nonlinear_arith);
    assert(0 <= place * bytes) by (nonlinear_arith)
        requires
            0 <= place,
            0 <= bytes,
    ;
    assert(place * bytes + bytes <= count * bytes) by (nonlinear_arith)
        requires
            place + 1 <= count,
            0 <= bytes,
    ;
    if place < count - 1 {
        lemma_joined(requests, bytes, count - 1, place);
        assert(all.subrange(place * bytes, place * bytes + bytes) =~= shorter.subrange(
            place * bytes,
            place * bytes + bytes,
        ));
    } else {
        assert(all.subrange(place * bytes, place * bytes + bytes)
            =~= requests[place].payload);
    }
}

/// Gathered payloads stand in rank order: the bytes of a rank are found at its
/// place.
pub proof fn law_gathered_in_rank_order(requests: Seq<FrameModel>, bytes: int, rank: int)
    requires
        0 <= rank < requests.len(),
        0 <= bytes,
        forall|i: int|
            0 <= i < requests.len() ==> (#[trigger] requests[i]).payload.len() == bytes,
    ensures
        joined(requests, requests.len() as int).len() == requests.len() * bytes,
        joined(requests, requests.len() as int).subrange(rank * bytes, rank * bytes + bytes)
            == requests[rank].payload,
{
    lemma_joined(requests, bytes, requests.len() as int, rank);
}

pub proof fn lemma_pieces(
    requests: Seq<FrameModel>,
    start: int,
    size: int,
    bytes: int,
    count: int,
    place: int,
)
    requires
        0 <= place < count <= requests.len(),
        0 <= start,
        0 <= size,
        start + size <= bytes,
        forall|i: int|
            0 <= i < requests.len() ==> (#[trigger] requests[i]).payload.len() == bytes,
    ensures
        pieces(requests, start, size, count).len() == count * size,
        0 <= place * size,
        place * size + size <= count * size,
        pieces(requests, start, size, count).subrange(place * size, place * size + size)
            == requests[place].payload.subrange(start, start + size),
    decreases count,
{
    let all = pieces(requests, start, size, count);
    let shorter = pieces(requests, start, size, count - 1);
    assert(requests[count - 1].payload.len() == bytes);
    assert(shorter.len() == (count - 1) * size) by {
        if count > 1 {
            lemma_pieces(requests, start, size, bytes, count - 1, 0);
        }
    }
    assert(count * size == (count - 1) * size + size) by (nonlinear_arith);
    assert(0 <= place * size) by (nonlinear_arith)
        requires
            0 <= place,
            0 <= size,
    ;
    assert(place * size + size <= count * size) by (nonlinear_arith)
        requires
            place + 1 <= count,
            0 <= size,
    ;
    if place < count - 1 {
        lemma_pieces(requests, start, size, bytes, count - 1, place);
        assert(all.subrange(place * size, place * size + size) =~= shorter.subrange(
            place * size,
            place * size + size,
        ));
    } else {
        assert(all.subrange(place * size, place * size + size) =~= requests[place].payload.subrange(
            start,
            start + size,
        ));
    }
}

/// An exchange transposes: what rank `source` put in its shard for
/// `destination`, `destination` finds in its shard from `source`.
pub proof fn law_exchange_transposes(
    requests: Seq<FrameModel>,
    size: int,
    bytes: int,
    source: int,
    destination: int,
)
    requires
        0 <= source < requests.len(),
        0 <= destination < requests.len(),
        0 <= size,
        0 <= destination * size,
        destination * size + size <= bytes,
        forall|i: int|
            0 <= i < requests.len() ==> (#[trigger] requests[i]).payload.len() == bytes,
    ensures
        pieces(requests, destination * size, size, requests.len() as int).subrange(
            source * size,
            source * size + size,
        ) == requests[source].payload.subrange(destination * size, destination * size + size),
{
    lemma_pieces(requests, destination * size, size, bytes, requests.len() as int, source);
}

/// A header that answers one rank in a sequence.
pub open spec fn answers(
    header: FrameHeader,
    destination: int,
    unique_id: UniqueId,
    sequence: u64,
    opcode: Opcode,
) -> bool {
    &&& header.destination_rank == destination as u32
    &&& header.source_rank == 0
    &&& header.unique_id == unique_id
    &&& header.sequence == sequence
    &&& header.opcode == opcode
}

proof fn lemma_frames(
    outcomes: Seq<Outcome>,
    unique_id: UniqueId,
    sequence: u64,
    opcode: Opcode,
    count: int,
)
    requires
        0 <= count <= outcomes.len(),
        frames_made(outcomes, count) is Ok,
        forall|d: int|
            0 <= d < outcomes.len() && #[trigger] outcomes[d] is Ok ==> answers(
                (outcomes[d]->Ok_0).0,
                d,
                unique_id,
                sequence,
                opcode,
            ),
    ensures
        frames_made(outcomes, count)->Ok_0.len() == count,
        forall|d: int|
            0 <= d < count ==> answers(
                (#[trigger] frames_made(outcomes, count)->Ok_0[d]).header,
                d,
                unique_id,
                sequence,
                opcode,
            ) && frames_made(outcomes, count)->Ok_0[d].valid(),
    decreases count,
{
    if count > 0 {
        lemma_frames(outcomes, unique_id, sequence, opcode, count - 1);
        let frames = frames_made(outcomes, count)->Ok_0;
        let shorter = frames_made(outcomes, count - 1)->Ok_0;
        let (header, payload) = outcomes[count - 1]->Ok_0;
        let made = FrameModel::make(header, payload)->Ok_0;
        assert(frames == shorter.push(made));
        crate::rank::protocol::frame::law_made_frames_are_valid(header, payload);
        assert forall|d: int| 0 <= d < count implies answers(
            (#[trigger] frames[d]).header,
            d,
            unique_id,
            sequence,
            opcode,
        ) && frames[d].valid() by {
            if d < count - 1 {
                assert(frames[d] == shorter[d]);
            }
        }
    }
}

/// A collective that is routed answers every rank once, in order, in the
/// request's session, sequence and opcode, with a frame that obeys the wire
/// contract.
pub proof fn law_every_rank_is_answered(
    requests: Seq<FrameModel>,
    unique_id: UniqueId,
    sequence: u64,
)
    requires
        requests.len() > 0,
        route(requests, unique_id, sequence) is Ok,
    ensures
        ({
            let frames = route(requests, unique_id, sequence)->Ok_0;
            &&& frames.len() == requests.len()
            &&& forall|d: int|
                0 <= d < frames.len() ==> answers(
                    (#[trigger] frames[d]).header,
                    d,
                    unique_id,
                    sequence,
                    requests[0].header.opcode,
                ) && frames[d].valid()
        }),
{
    let header = requests[0].header;
    let world_size = requests.len() as int;
    let shard = header.element_count as int / world_size;
    let outcomes = match header.opcode {
        Opcode::Barrier | Opcode::SetTimeout => same_outcomes(
            unique_id,
            header.opcode,
            crate::rank::protocol::ElementType::Untyped,
            sequence,
            world_size,
            0,
            Seq::empty(),
        ),
        Opcode::Broadcast => same_outcomes(
            unique_id,
            header.opcode,
            header.element_type,
            sequence,
            world_size,
            header.element_count as int,
            requests[header.root_rank as int].payload,
        ),
        Opcode::AllGather | Opcode::AllReduce => same_outcomes(
            unique_id,
            header.opcode,
            header.element_type,
            sequence,
            world_size,
            header.element_count * world_size,
            joined(requests, world_size),
        ),
        Opcode::Gather | Opcode::Reduce => root_outcomes(
            unique_id,
            header.opcode,
            header.element_type,
            sequence,
            world_size,
            header.root_rank as int,
            header.element_count * world_size,
            joined(requests, world_size),
        ),
        Opcode::Scatter => scatter_outcomes(
            unique_id,
            header.opcode,
            header.element_type,
            sequence,
            world_size,
            shard,
            shard * header.element_type.width(),
            requests[header.root_rank as int].payload,
        ),
        Opcode::ReduceScatter | Opcode::AllToAll => shard_outcomes(
            unique_id,
            header.opcode,
            header.element_type,
            sequence,
            requests,
            header.element_count as int,
            header.element_count as int / world_size * header.element_type.width(),
        ),
        _ => Seq::new(
            requests.len(),
            |d: int|
                variable_outcome(
                    requests,
                    unique_id,
                    sequence,
                    header.element_type,
                    header.element_type.width() as int,
                    d,
                ),
        ),
    };
    assert(route(requests, unique_id, sequence) == frames_made(outcomes, world_size));
    lemma_frames(outcomes, unique_id, sequence, header.opcode, world_size);
}

proof fn lemma_frames_carry(outcomes: Seq<Outcome>, payload: Seq<u8>, count: int)
    requires
        0 <= count <= outcomes.len(),
        frames_made(outcomes, count) is Ok,
        forall|d: int|
            0 <= d < outcomes.len() ==> (#[trigger] outcomes[d]) is Ok && (outcomes[d]->Ok_0).1
                == payload,
    ensures
        frames_made(outcomes, count)->Ok_0.len() == count,
        forall|d: int|
            0 <= d < count ==> (#[trigger] frames_made(outcomes, count)->Ok_0[d]).payload
                == payload,
    decreases count,
{
    if count > 0 {
        lemma_frames_carry(outcomes, payload, count - 1);
        let frames = frames_made(outcomes, count)->Ok_0;
        let shorter = frames_made(outcomes, count - 1)->Ok_0;
        assert(outcomes[count - 1] is Ok);
        assert forall|d: int| 0 <= d < count implies (#[trigger] frames[d]).payload
            == payload by {
            if d < count - 1 {
                assert(frames[d] == shorter[d]);
            }
        }
    }
}

/// A gathering that is routed answers every rank with the same bytes: the
/// payloads of all ranks, in rank order.
pub proof fn law_gathering_answers_all_alike(
    requests: Seq<FrameModel>,
    unique_id: UniqueId,
    sequence: u64,
    rank: int,
)
    requires
        0 <= rank < requests.len(),
        requests[0].header.opcode == Opcode::AllGather,
        route(requests, unique_id, sequence) is Ok,
    ensures
        rank < route(requests, unique_id, sequence)->Ok_0.len(),
        route(requests, unique_id, sequence)->Ok_0[rank].payload == joined(
            requests,
            requests.len() as int,
        ),
{
    let header = requests[0].header;
    let world_size = requests.len() as int;
    let payload = joined(requests, world_size);
    let outcomes = same_outcomes(
        unique_id,
        header.opcode,
        header.element_type,
        sequence,
        world_size,
        header.element_count * world_size,
        payload,
    );
    assert(route(requests, unique_id, sequence) == frames_made(outcomes, world_size));
    lemma_frames_carry(outcomes, payload, world_size);
}

} // verus!

//! What the ranks of a world end up with from a collective through the coordinator.

use crate::math::sum_usize;
use crate::rank::device::{lossless, reduced_into, RankDevice};
use crate::rank::device_collective::all_gather::lemma_row_fits;
use crate::rank::device_collective::all_to_all::{
    all_to_all_answered, all_to_all_direct_script, all_to_all_v_answered,
    all_to_all_v_direct_script, received_counts, VariableModel,
};
use crate::rank::device_collective::direct::{
    all_gather_answered, all_gather_direct_script, answered_with, at_root, broadcast_answered,
    broadcast_script, exchange_script, gather_answered, gather_script, plain_options,
    scatter_answered, scatter_defect, scatter_script,
};
use crate::rank::device_collective::laws::{faithful, one_world};
use crate::rank::device_collective::pairwise::{lemma_rows_apart, offset_of};
use crate::rank::device_collective::reduce_dispatch::{
    reduce_answered, reduce_script, reduced_answer, reduced_answered, reduction_direct_script,
};
use crate::rank::device_collective::reduction::{concatenated, rank_part, stacked};
use crate::rank::device_collective::CollectiveModel;
use crate::rank::host::exchange::reduction_options;
use crate::rank::layout::laid_out;
use crate::rank::network::laws::{law_exchange_transposes, law_gathered_in_rank_order};
use crate::rank::network::routing::{
    frames_made, has_root, joined, pieces, received, root_outcomes, root_sizes_defect, route, row,
    row_defect, rows_defect, same_outcomes, scatter_outcomes, sent, sent_by, shard_outcomes,
    sizes_defect, variable_outcome, Outcome,
};
use crate::rank::network::ExchangeOptions;
use crate::rank::operation::ReductionOperation;
use crate::rank::protocol::frame::FrameModel;
use crate::rank::payload::{counts_bytes, law_counts_round_trip};
use crate::rank::protocol::{ElementType, Opcode, UniqueId, ANY_RANK, FLAG_COUNTS_PREFIX};
use crate::rank::rounds::{order_free, rank_fold};
use crate::rank::script::{
    lemma_over, lemma_ran_ask, lemma_ran_tried, ran, tried, Failure, Script, TransportCall,
    TransportEvent, TransportReply,
};
use crate::rank::stats::CollectiveStats;
use vstd::arithmetic::div_mod::*;
use vstd::prelude::*;

verus! {

/// The device encodes element by element: the bytes of values that follow each
/// other follow each other.
pub open spec fn in_pieces<T, D: RankDevice<T>>() -> bool {
    forall|a: Seq<T>, b: Seq<T>|
        #![trigger D::encoding(a + b)]
        D::encoding(a + b) == D::encoding(a) + D::encoding(b)
}

/// A rank's exchange reaches the coordinator as a request.
pub open spec fn asks(event: TransportEvent, request: FrameModel) -> bool {
    &&& event.call matches TransportCall::Exchange { opcode, element_type, options, payload }
    &&& request.payload == payload
    &&& request.header.opcode == opcode
    &&& request.header.element_type == element_type
    &&& request.header.element_count == options.element_count
    &&& request.header.root_rank == options.root_rank
}

/// Every rank's first call is an exchange, and the coordinator answers it by its
/// routing of all the requests.
pub open spec fn coordinated(
    requests: Seq<FrameModel>,
    unique_id: UniqueId,
    sequence: u64,
    traces: Seq<Seq<TransportEvent>>,
) -> bool {
    &&& requests.len() == traces.len() > 0
    &&& route(requests, unique_id, sequence) is Ok
    &&& forall|r: int|
        #![trigger traces[r]]
        0 <= r < traces.len() && traces[r].len() > 0 ==> {
            &&& asks(traces[r][0], requests[r])
            &&& traces[r][0].reply == TransportReply::Delivered(
                route(requests, unique_id, sequence)->Ok_0[r],
            )
        }
}

/// Equal sizes, where none is refused.
proof fn lemma_sizes(requests: Seq<FrameModel>, bytes: int, count: int, place: int)
    requires
        sizes_defect(requests, bytes, count) is None,
        0 <= place < count,
    ensures
        requests[place].payload.len() == bytes,
    decreases count,
{
    if place < count - 1 {
        lemma_sizes(requests, bytes, count - 1, place);
    }
}

/// Only the root's payload has a size, where none is refused.
proof fn lemma_root_sizes(
    requests: Seq<FrameModel>,
    root: int,
    bytes: int,
    count: int,
    place: int,
)
    requires
        root_sizes_defect(requests, root, bytes, count) is None,
        0 <= place < count,
    ensures
        requests[place].payload.len() == (if place == root {
            bytes
        } else {
            0
        }),
    decreases count,
{
    if place < count - 1 {
        lemma_root_sizes(requests, root, bytes, count - 1, place);
    }
}

/// The frames carry what they were made for.
proof fn lemma_made_payloads(outcomes: Seq<Outcome>, count: int)
    requires
        0 <= count <= outcomes.len(),
        frames_made(outcomes, count) is Ok,
    ensures
        frames_made(outcomes, count)->Ok_0.len() == count,
        forall|d: int|
            #![trigger outcomes[d]]
            0 <= d < count ==> outcomes[d] is Ok && frames_made(outcomes, count)->Ok_0[d].payload
                == (outcomes[d]->Ok_0).1,
    decreases count,
{
    if count > 0 {
        lemma_made_payloads(outcomes, count - 1);
    }
}

/// What the coordinator sends a rank.
pub open spec fn routed_payload(requests: Seq<FrameModel>, rank: int) -> Seq<u8> {
    let header = requests[0].header;
    let world_size = requests.len() as int;
    let root = header.root_rank as int;
    let shard = header.element_count as int / world_size * header.element_type.width();
    match header.opcode {
        Opcode::Broadcast => requests[root].payload,
        Opcode::AllGather | Opcode::AllReduce => joined(requests, world_size),
        Opcode::Gather | Opcode::Reduce => if rank == root {
            joined(requests, world_size)
        } else {
            Seq::empty()
        },
        Opcode::Scatter => requests[root].payload.subrange(rank * shard, rank * shard + shard),
        Opcode::ReduceScatter | Opcode::AllToAll => pieces(
            requests,
            rank * shard,
            shard,
            world_size,
        ),
        _ => arbitrary(),
    }
}

/// A collective of a fixed size.
pub open spec fn of_fixed_size(opcode: Opcode) -> bool {
    match opcode {
        Opcode::Broadcast | Opcode::AllGather | Opcode::AllReduce | Opcode::Gather
        | Opcode::Reduce | Opcode::Scatter | Opcode::ReduceScatter | Opcode::AllToAll => true,
        _ => false,
    }
}

/// What the ranks asked with, as the routing accepts it.
pub open spec fn accepted(requests: Seq<FrameModel>) -> bool {
    let header = requests[0].header;
    let root = header.root_rank as int;
    let bytes = header.element_count * header.element_type.width();
    match header.opcode {
        Opcode::Broadcast | Opcode::Scatter => has_root(header, requests.len() as int)
            && requests[root].payload.len() == bytes,
        Opcode::Gather | Opcode::Reduce => has_root(header, requests.len() as int) && (forall|
            i: int,
        |
            0 <= i < requests.len() ==> (#[trigger] requests[i]).payload.len() == bytes),
        _ => forall|i: int|
            0 <= i < requests.len() ==> (#[trigger] requests[i]).payload.len() == bytes,
    }
}

/// A routed collective of a fixed size sends every rank its payload.
proof fn lemma_routed(requests: Seq<FrameModel>, unique_id: UniqueId, sequence: u64)
    requires
        requests.len() > 0,
        route(requests, unique_id, sequence) is Ok,
        of_fixed_size(requests[0].header.opcode),
    ensures
        route(requests, unique_id, sequence)->Ok_0.len() == requests.len(),
        forall|d: int|
            #![trigger route(requests, unique_id, sequence)->Ok_0[d]]
            0 <= d < requests.len() ==> route(requests, unique_id, sequence)->Ok_0[d].payload
                == routed_payload(requests, d),
        accepted(requests),
{
    let header = requests[0].header;
    let world_size = requests.len() as int;
    let root = header.root_rank as int;
    let bytes = header.element_count * header.element_type.width();
    let shard = header.element_count as int / world_size;
    let shard_bytes = shard * header.element_type.width();
    let outcomes = match header.opcode {
        Opcode::Broadcast => same_outcomes(
            unique_id,
            header.opcode,
            header.element_type,
            sequence,
            world_size,
            header.element_count as int,
            requests[root].payload,
        ),
        Opcode::AllGather | Opcode::AllReduce => same_outcomes(
            unique_id,
            header.opcode,
            header.element_type,
            sequence,
            world_size,
            header.element_count * world_size,
            joined(requests, world_size),
        ),
        Opcode::Gather | Opcode::Reduce => root_outcomes(
            unique_id,
            header.opcode,
            header.element_type,
            sequence,
            world_size,
            root,
            header.element_count * world_size,
            joined(requests, world_size),
        ),
        Opcode::Scatter => scatter_outcomes(
            unique_id,
            header.opcode,
            header.element_type,
            sequence,
            world_size,
            shard,
            shard_bytes,
            requests[root].payload,
        ),
        _ => shard_outcomes(
            unique_id,
            header.opcode,
            header.element_type,
            sequence,
            requests,
            header.element_count as int,
            shard_bytes,
        ),
    };
    assert(route(requests, unique_id, sequence) == frames_made(outcomes, world_size));
    lemma_made_payloads(outcomes, world_size);
    let frames = route(requests, unique_id, sequence)->Ok_0;
    assert forall|d: int| #![trigger frames[d]] 0 <= d < requests.len() implies frames[d].payload
        == routed_payload(requests, d) by {
        assert(outcomes[d] is Ok);
    }
    if header.opcode == Opcode::Broadcast || header.opcode == Opcode::Scatter {
        lemma_root_sizes(requests, root, bytes, world_size, root);
    } else {
        assert forall|i: int| 0 <= i < requests.len() implies (
        #[trigger] requests[i]).payload.len() == bytes by {
            lemma_sizes(requests, bytes, world_size, i);
        }
    }
}

/// A collective that succeeds through the coordinator goes on with its answer.
proof fn lemma_exchange_ran<R, E>(
    element_type: ElementType,
    opcode: Opcode,
    options: ExchangeOptions,
    payload: Seq<u8>,
    next: spec_fn(FrameModel) -> Script<R, E>,
    trace: Seq<TransportEvent>,
    result: R,
) -> (frame: FrameModel)
    requires
        ran(
            tried(exchange_script(element_type, opcode, options, payload), false, next),
            trace,
            result,
        ),
    ensures
        trace.len() > 0,
        trace[0].call == (TransportCall::Exchange { opcode, element_type, options, payload }),
        trace[0].reply.frame() == Ok::<FrameModel, crate::rank::network::NetworkFailure>(frame),
        ran(next(frame), trace.skip(1), result),
{
    let first = exchange_script::<E>(element_type, opcode, options, payload);
    let (k, frame) = lemma_ran_tried(first, false, next, trace, result);
    lemma_ran_ask(first->Ask_0, first->Ask_1, trace.take(k), frame);
    let then = (first->Ask_1)(trace.take(k)[0].reply);
    lemma_over(then->Done_0, trace.take(k).skip(1));
    assert(k == 1);
    assert(trace.take(k)[0] == trace[0]);
    frame
}

/// The value of a script that asks nothing.
proof fn lemma_ended<R, E>(script: Script<R, E>, trace: Seq<TransportEvent>, result: R)
    requires
        ran(script, trace, result),
        script is Done,
    ensures
        script == Script::<R, E>::Done(Ok(result)),
{
    lemma_over(script->Done_0, trace);
}

/// The ranks' elements reduced in rank order, each into the ones before.
pub open spec fn stack_fold<T>(
    tables: Seq<Seq<T>>,
    element: int,
    last: int,
    reduce: spec_fn(T, T) -> T,
) -> T
    decreases last,
{
    if last <= 0 {
        tables[0][element]
    } else {
        reduce(stack_fold(tables, element, last - 1, reduce), tables[last][element])
    }
}

/// With a reduction whose order does not matter it is the reduction over the ranks
/// in order.
pub proof fn lemma_stack_in_order<T>(
    tables: Seq<Seq<T>>,
    element: int,
    last: int,
    reduce: spec_fn(T, T) -> T,
)
    requires
        order_free(reduce),
    ensures
        stack_fold(tables, element, last, reduce) == rank_fold(tables, element, last, reduce),
    decreases last,
{
    if last > 0 {
        lemma_stack_in_order(tables, element, last - 1, reduce);
        let so_far = rank_fold(tables, element, last - 1, reduce);
        assert(reduce(so_far, tables[last][element]) == reduce(tables[last][element], so_far));
    }
}

/// Encoded parts that stand one behind the other reduce to their fold.
proof fn lemma_stacked<T, D: RankDevice<T>>(
    payload: Seq<u8>,
    rank_bytes: int,
    parts: Seq<Seq<T>>,
    length: int,
    ranks: int,
    reduce: spec_fn(T, T) -> T,
)
    requires
        faithful::<T, D>(),
        0 < ranks <= parts.len(),
        0 <= length,
        forall|s: int|
            #![trigger parts[s]]
            0 <= s < parts.len() ==> parts[s].len() == length && rank_part(payload, rank_bytes, s)
                == D::encoding(parts[s]),
    ensures
        stacked::<T, D>(payload, rank_bytes, ranks, reduce) == Ok::<Seq<T>, Failure<D::Error>>(
            Seq::new(length as nat, |x: int| stack_fold(parts, x, ranks - 1, reduce)),
        ),
    decreases ranks,
{
    let expected = Seq::new(length as nat, |x: int| stack_fold(parts, x, ranks - 1, reduce));
    let part = parts[ranks - 1];
    assert(lossless::<T, D>(part));
    assert(lossless::<T, D>(parts[0]));
    assert(part.len() == length);
    if ranks == 1 {
        assert(parts[0] =~= expected);
    } else {
        lemma_stacked::<T, D>(payload, rank_bytes, parts, length, ranks - 1, reduce);
        let before = Seq::new(length as nat, |x: int| stack_fold(parts, x, ranks - 2, reduce));
        assert(rank_part(payload, rank_bytes, ranks - 1) == D::encoding(part));
        assert(reduced_into(before, 0, part, reduce) =~= expected);
    }
}

/// What a rank asked of the coordinator, and what it goes on with.
proof fn lemma_answered<R, E>(
    requests: Seq<FrameModel>,
    unique_id: UniqueId,
    sequence: u64,
    traces: Seq<Seq<TransportEvent>>,
    rank: int,
    element_type: ElementType,
    opcode: Opcode,
    options: ExchangeOptions,
    payload: Seq<u8>,
    next: spec_fn(FrameModel) -> Script<R, E>,
    result: R,
)
    requires
        coordinated(requests, unique_id, sequence, traces),
        0 <= rank < traces.len(),
        ran(
            tried(exchange_script(element_type, opcode, options, payload), false, next),
            traces[rank],
            result,
        ),
    ensures
        requests[rank].payload == payload,
        requests[rank].header.opcode == opcode,
        requests[rank].header.element_type == element_type,
        requests[rank].header.element_count == options.element_count,
        requests[rank].header.root_rank == options.root_rank,
        ran(
            next(route(requests, unique_id, sequence)->Ok_0[rank]),
            traces[rank].skip(1),
            result,
        ),
{
    let frame = lemma_exchange_ran(
        element_type,
        opcode,
        options,
        payload,
        next,
        traces[rank],
        result,
    );
    assert(asks(traces[rank][0], requests[rank]));
}

/// What the ranks' parts, found one behind the other in an answer, reduce to.
proof fn lemma_concatenated<T, D: RankDevice<T>>(
    payload: Seq<u8>,
    parts: Seq<Seq<T>>,
    length: int,
    reduce: spec_fn(T, T) -> T,
)
    requires
        faithful::<T, D>(),
        0 < parts.len(),
        0 <= length,
        forall|s: int|
            #![trigger parts[s]]
            0 <= s < parts.len() ==> parts[s].len() == length && rank_part(
                payload,
                length * D::ELEMENT_SIZE,
                s,
            ) == D::encoding(parts[s]),
        concatenated::<T, D>(payload, length, parts.len() as int, reduce) is Ok,
    ensures
        (concatenated::<T, D>(payload, length, parts.len() as int, reduce)->Ok_0).0 == Seq::new(
            length as nat,
            |x: int| stack_fold(parts, x, parts.len() - 1, reduce),
        ),
{
    let ranks = if length == 0 {
        1
    } else {
        parts.len() as int
    };
    lemma_stacked::<T, D>(
        payload,
        length * D::ELEMENT_SIZE,
        parts,
        length,
        ranks,
        reduce,
    );
    if length == 0 {
        assert(Seq::new(0, |x: int| stack_fold(parts, x, ranks - 1, reduce)) =~= Seq::new(
            0,
            |x: int| stack_fold(parts, x, parts.len() - 1, reduce),
        ));
    }
}

/// Where the ranks' encoded inputs are found in what is gathered of them.
proof fn lemma_gathered_parts<T, D: RankDevice<T>>(
    requests: Seq<FrameModel>,
    inputs: Seq<Seq<T>>,
    length: int,
)
    requires
        faithful::<T, D>(),
        0 <= length,
        0 < inputs.len() == requests.len(),
        forall|s: int|
            #![trigger inputs[s]]
            0 <= s < inputs.len() ==> inputs[s].len() == length && requests[s].payload
                == D::encoding(inputs[s]),
    ensures
        forall|s: int|
            #![trigger inputs[s]]
            0 <= s < inputs.len() ==> rank_part(
                joined(requests, requests.len() as int),
                length * D::ELEMENT_SIZE,
                s,
            ) == D::encoding(inputs[s]),
{
    assert forall|i: int| 0 <= i < requests.len() implies (#[trigger] requests[i]).payload.len()
        == length * D::ELEMENT_SIZE by {
        assert(inputs[i].len() == length);
        assert(lossless::<T, D>(inputs[i]));
    }
    assert(0 <= length * D::ELEMENT_SIZE) by (nonlinear_arith)
        requires
            0 <= length,
            0 <= D::ELEMENT_SIZE,
    ;
    assert forall|s: int| #![trigger inputs[s]] 0 <= s < inputs.len() implies rank_part(
        joined(requests, requests.len() as int),
        length * D::ELEMENT_SIZE,
        s,
    ) == D::encoding(inputs[s]) by {
        law_gathered_in_rank_order(requests, length * D::ELEMENT_SIZE, s);
    }
}

/// An all-reduce through the coordinator. Where every rank's request is answered by
/// the coordinator's routing, all ranks hold the same: the reduction of every
/// rank's own, in rank order.
pub proof fn law_direct_all_reduce<T, D: RankDevice<T>>(
    models: Seq<CollectiveModel>,
    inputs: Seq<Seq<T>>,
    length: int,
    operation: ReductionOperation,
    reduce: spec_fn(T, T) -> T,
    requests: Seq<FrameModel>,
    unique_id: UniqueId,
    sequence: u64,
    traces: Seq<Seq<TransportEvent>>,
    results: Seq<(Seq<T>, CollectiveStats)>,
)
    requires
        faithful::<T, D>(),
        one_world(models),
        inputs.len() == models.len(),
        traces.len() == models.len(),
        results.len() == models.len(),
        coordinated(requests, unique_id, sequence, traces),
        forall|r: int| 0 <= r < inputs.len() ==> (#[trigger] inputs[r]).len() == length,
        forall|r: int|
            #![trigger results[r]]
            0 <= r < models.len() ==> ran(
                reduction_direct_script::<T, D>(
                    models[r],
                    Opcode::AllReduce,
                    inputs[r],
                    length,
                    operation,
                    reduce,
                ),
                traces[r],
                results[r],
            ),
    ensures
        forall|r: int|
            0 <= r < models.len() ==> (#[trigger] results[r]).0 == Seq::new(
                length as nat,
                |x: int| stack_fold(inputs, x, models.len() - 1, reduce),
            ),
        order_free(reduce) ==> forall|r: int, x: int|
            #![trigger results[r].0[x]]
            0 <= r < models.len() && 0 <= x < length ==> results[r].0[x] == rank_fold(
                inputs,
                x,
                models.len() - 1,
                reduce,
            ),
{
    assert(inputs[0].len() == length);
    let frames = route(requests, unique_id, sequence)->Ok_0;
    assert forall|s: int|
        #![trigger inputs[s]]
        0 <= s < inputs.len() implies inputs[s].len() == length && requests[s].payload
        == D::encoding(inputs[s]) && requests[s].header.opcode == Opcode::AllReduce && ran(
        reduced_answer::<T, D>(
            models[s],
            frames[s],
            length,
            D::encoding(inputs[s]).len() as int,
            reduce,
        ),
        traces[s].skip(1),
        results[s],
    ) by {
        lemma_answered(
            requests,
            unique_id,
            sequence,
            traces,
            s,
            models[s].element_type,
            Opcode::AllReduce,
            reduction_options(ANY_RANK, length, operation),
            D::encoding(inputs[s]),
            reduced_answered::<T, D>(
                models[s],
                length,
                D::encoding(inputs[s]).len() as int,
                reduce,
            ),
            results[s],
        );
    }
    assert(requests[0].payload == D::encoding(inputs[0]));
    lemma_routed(requests, unique_id, sequence);
    lemma_gathered_parts::<T, D>(requests, inputs, length);
    let expected = Seq::new(
        length as nat,
        |x: int| stack_fold(inputs, x, models.len() - 1, reduce),
    );
    assert forall|r: int| 0 <= r < models.len() implies (#[trigger] results[r]).0 == expected by {
        assert(inputs[r].len() == length);
        assert(models[r].place.world_size == models.len());
        let sent = D::encoding(inputs[r]).len() as int;
        let answer = reduced_answer::<T, D>(models[r], frames[r], length, sent, reduce);
        lemma_ended(answer, traces[r].skip(1), results[r]);
        lemma_concatenated::<T, D>(frames[r].payload, inputs, length, reduce);
    }
    if order_free(reduce) {
        assert forall|r: int, x: int|
            #![trigger results[r].0[x]]
            0 <= r < models.len() && 0 <= x < length implies results[r].0[x] == rank_fold(
            inputs,
            x,
            models.len() - 1,
            reduce,
        ) by {
            lemma_stack_in_order(inputs, x, models.len() - 1, reduce);
        }
    }
}

/// A reduce through the coordinator. The root holds the reduction of every rank's
/// own, in rank order, and no other rank holds anything.
pub proof fn law_direct_reduce<T, D: RankDevice<T>>(
    models: Seq<CollectiveModel>,
    inputs: Seq<Seq<T>>,
    length: int,
    root: u32,
    operation: ReductionOperation,
    reduce: spec_fn(T, T) -> T,
    requests: Seq<FrameModel>,
    unique_id: UniqueId,
    sequence: u64,
    traces: Seq<Seq<TransportEvent>>,
    results: Seq<(Option<Seq<T>>, CollectiveStats)>,
)
    requires
        faithful::<T, D>(),
        one_world(models),
        root < models.len(),
        inputs.len() == models.len(),
        traces.len() == models.len(),
        results.len() == models.len(),
        coordinated(requests, unique_id, sequence, traces),
        forall|r: int| 0 <= r < inputs.len() ==> (#[trigger] inputs[r]).len() == length,
        forall|r: int|
            #![trigger results[r]]
            0 <= r < models.len() ==> ran(
                reduce_script::<T, D>(models[r], inputs[r], root, operation, reduce),
                traces[r],
                results[r],
            ),
    ensures
        forall|r: int|
            0 <= r < models.len() ==> (#[trigger] results[r]).0 == (if r == root {
                Some(
                    Seq::new(
                        length as nat,
                        |x: int| stack_fold(inputs, x, models.len() - 1, reduce),
                    ),
                )
            } else {
                None::<Seq<T>>
            }),
{
    assert(inputs[0].len() == length);
    let frames = route(requests, unique_id, sequence)->Ok_0;
    assert forall|s: int|
        #![trigger inputs[s]]
        0 <= s < inputs.len() implies inputs[s].len() == length && requests[s].payload
        == D::encoding(inputs[s]) && requests[s].header.opcode == Opcode::Reduce
        && requests[s].header.root_rank == root && ran(
        reduce_answered::<T, D>(
            models[s],
            length,
            D::encoding(inputs[s]).len() as int,
            root,
            reduce,
        )(frames[s]),
        traces[s].skip(1),
        results[s],
    ) by {
        assert(models[s].place.world_size == models.len());
        assert(ran(
            reduce_script::<T, D>(models[s], inputs[s], root, operation, reduce),
            traces[s],
            results[s],
        ));
        lemma_answered(
            requests,
            unique_id,
            sequence,
            traces,
            s,
            models[s].element_type,
            Opcode::Reduce,
            reduction_options(root, length, operation),
            D::encoding(inputs[s]),
            reduce_answered::<T, D>(
                models[s],
                length,
                D::encoding(inputs[s]).len() as int,
                root,
                reduce,
            ),
            results[s],
        );
    }
    assert(requests[0].payload == D::encoding(inputs[0]));
    lemma_routed(requests, unique_id, sequence);
    lemma_gathered_parts::<T, D>(requests, inputs, length);
    assert forall|r: int| 0 <= r < models.len() implies (#[trigger] results[r]).0 == (if r == root {
        Some(
            Seq::new(
                length as nat,
                |x: int| stack_fold(inputs, x, models.len() - 1, reduce),
            ),
        )
    } else {
        None::<Seq<T>>
    }) by {
        assert(inputs[r].len() == length);
        assert(models[r].place.world_size == models.len() && models[r].place.rank == r);
        let answer = reduce_answered::<T, D>(
            models[r],
            length,
            D::encoding(inputs[r]).len() as int,
            root,
            reduce,
        )(frames[r]);
        lemma_ended(answer, traces[r].skip(1), results[r]);
        if r == root {
            lemma_concatenated::<T, D>(frames[r].payload, inputs, length, reduce);
        }
    }
}

/// A broadcast through the coordinator: every rank holds the root's values.
pub proof fn law_direct_broadcast<T, D: RankDevice<T>>(
    models: Seq<CollectiveModel>,
    inputs: Seq<Seq<T>>,
    root: u32,
    requests: Seq<FrameModel>,
    unique_id: UniqueId,
    sequence: u64,
    traces: Seq<Seq<TransportEvent>>,
    results: Seq<(Seq<T>, CollectiveStats)>,
)
    requires
        faithful::<T, D>(),
        one_world(models),
        root < models.len(),
        inputs.len() == models.len(),
        traces.len() == models.len(),
        results.len() == models.len(),
        coordinated(requests, unique_id, sequence, traces),
        forall|r: int|
            #![trigger results[r]]
            0 <= r < models.len() ==> ran(
                broadcast_script::<T, D>(models[r], inputs[r], root),
                traces[r],
                results[r],
            ),
    ensures
        forall|r: int| 0 <= r < models.len() ==> (#[trigger] results[r]).0 == inputs[root as int],
{
    let frames = route(requests, unique_id, sequence)->Ok_0;
    assert forall|s: int|
        #![trigger inputs[s]]
        0 <= s < inputs.len() implies requests[s].payload == (if s == root {
        D::encoding(inputs[s])
    } else {
        Seq::empty()
    }) && requests[s].header.opcode == Opcode::Broadcast && requests[s].header.root_rank == root
        && ran(
        broadcast_answered::<T, D>(models[s], inputs[s].len() as int)(frames[s]),
        traces[s].skip(1),
        results[s],
    ) by {
        assert(models[s].place.world_size == models.len() && models[s].place.rank == s);
        assert(ran(
            broadcast_script::<T, D>(models[s], inputs[s], root),
            traces[s],
            results[s],
        ));
        lemma_answered(
            requests,
            unique_id,
            sequence,
            traces,
            s,
            models[s].element_type,
            Opcode::Broadcast,
            plain_options(root, inputs[s].len() as int),
            if models[s].place.rank == root {
                D::encoding(inputs[s])
            } else {
                Seq::empty()
            },
            broadcast_answered::<T, D>(models[s], inputs[s].len() as int),
            results[s],
        );
    }
    assert(inputs[0].len() >= 0);
    assert(requests[0].header.opcode == Opcode::Broadcast);
    lemma_routed(requests, unique_id, sequence);
    assert forall|r: int| 0 <= r < models.len() implies (#[trigger] results[r]).0
        == inputs[root as int] by {
        assert(inputs[r].len() >= 0);
        assert(requests[root as int].payload == D::encoding(inputs[root as int]));
        let answer = broadcast_answered::<T, D>(models[r], inputs[r].len() as int)(frames[r]);
        lemma_ended(answer, traces[r].skip(1), results[r]);
        assert(frames[r].payload == routed_payload(requests, r));
        assert(lossless::<T, D>(inputs[root as int]));
    }
}

/// A part of the bytes of values are the bytes of a part of them.
proof fn lemma_encoding_part<T, D: RankDevice<T>>(values: Seq<T>, from: int, to: int)
    requires
        faithful::<T, D>(),
        in_pieces::<T, D>(),
        0 <= from <= to <= values.len(),
    ensures
        0 <= from * D::ELEMENT_SIZE <= to * D::ELEMENT_SIZE <= D::encoding(values).len(),
        D::encoding(values).subrange(from * D::ELEMENT_SIZE, to * D::ELEMENT_SIZE) == D::encoding(
            values.subrange(from, to),
        ),
{
    let size = D::ELEMENT_SIZE as int;
    let before = values.subrange(0, from);
    let part = values.subrange(from, to);
    let behind = values.subrange(to, values.len() as int);
    assert(values =~= (before + part) + behind);
    assert(D::encoding((before + part) + behind) == D::encoding(before + part) + D::encoding(
        behind,
    ));
    assert(D::encoding(before + part) == D::encoding(before) + D::encoding(part));
    assert(lossless::<T, D>(before));
    assert(lossless::<T, D>(part));
    assert(lossless::<T, D>(behind));
    assert(0 <= from * size) by (nonlinear_arith)
        requires
            0 <= from,
            0 <= size,
    ;
    assert(to * size == from * size + (to - from) * size) by (nonlinear_arith);
    assert(0 <= (to - from) * size) by (nonlinear_arith)
        requires
            from <= to,
            0 <= size,
    ;
    assert(D::encoding(values).subrange(from * size, to * size) =~= D::encoding(part));
}

/// Encoded rows, one behind the other, are the encoded rows laid out.
proof fn lemma_joined_encodings<T, D: RankDevice<T>>(
    requests: Seq<FrameModel>,
    rows: Seq<Seq<T>>,
    count: int,
)
    requires
        faithful::<T, D>(),
        in_pieces::<T, D>(),
        0 <= count <= rows.len() == requests.len(),
        forall|s: int|
            #![trigger rows[s]]
            0 <= s < rows.len() ==> requests[s].payload == D::encoding(rows[s]),
    ensures
        joined(requests, count) == D::encoding(laid_out(rows.take(count))),
    decreases count,
{
    if count == 0 {
        assert(rows.take(0) =~= Seq::empty());
        let none = Seq::<T>::empty();
        assert(lossless::<T, D>(none));
        assert(0 * D::ELEMENT_SIZE == 0) by (nonlinear_arith);
        assert(D::encoding(none) =~= Seq::empty());
    } else {
        lemma_joined_encodings::<T, D>(requests, rows, count - 1);
        assert(rows.take(count).drop_last() =~= rows.take(count - 1));
        assert(rows.take(count).last() == rows[count - 1]);
        let before = laid_out(rows.take(count - 1));
        assert(D::encoding(before + rows[count - 1]) == D::encoding(before) + D::encoding(
            rows[count - 1],
        ));
    }
}

/// Pieces of encoded inputs, one behind the other, are the encoded pieces laid out.
proof fn lemma_joined_pieces<T, D: RankDevice<T>>(
    requests: Seq<FrameModel>,
    inputs: Seq<Seq<T>>,
    from: int,
    width: int,
    count: int,
)
    requires
        faithful::<T, D>(),
        in_pieces::<T, D>(),
        0 <= from,
        0 <= width,
        0 <= count <= inputs.len() == requests.len(),
        forall|s: int|
            #![trigger inputs[s]]
            0 <= s < inputs.len() ==> from + width <= inputs[s].len() && requests[s].payload
                == D::encoding(inputs[s]),
    ensures
        pieces(requests, from * D::ELEMENT_SIZE, width * D::ELEMENT_SIZE, count) == D::encoding(
            laid_out(Seq::new(count as nat, |s: int| inputs[s].subrange(from, from + width))),
        ),
    decreases count,
{
    let rows = Seq::new(count as nat, |s: int| inputs[s].subrange(from, from + width));
    if count == 0 {
        let none = Seq::<T>::empty();
        assert(lossless::<T, D>(none));
        assert(0 * D::ELEMENT_SIZE == 0) by (nonlinear_arith);
        assert(D::encoding(none) =~= Seq::empty());
    } else {
        lemma_joined_pieces::<T, D>(requests, inputs, from, width, count - 1);
        let fewer = Seq::new(
            (count - 1) as nat,
            |s: int| inputs[s].subrange(from, from + width),
        );
        assert(rows.drop_last() =~= fewer);
        let last = inputs[count - 1].subrange(from, from + width);
        lemma_encoding_part::<T, D>(inputs[count - 1], from, from + width);
        assert((from + width) * D::ELEMENT_SIZE == from * D::ELEMENT_SIZE + width
            * D::ELEMENT_SIZE) by (nonlinear_arith);
        assert(D::encoding(laid_out(fewer) + last) == D::encoding(laid_out(fewer)) + D::encoding(
            last,
        ));
    }
}

/// The coordinator's shard is the device's: its bytes are those of a share of the
/// elements.
proof fn lemma_shard_bytes(elements: int, world: int, size: int, width: int)
    requires
        0 <= elements,
        0 < world,
        elements * size == elements * width,
    ensures
        elements / world * width == elements / world * size,
{
    if elements == 0 {
        lemma_div_basics(world);
        assert(0int / world == 0);
    } else {
        assert(size == width) by (nonlinear_arith)
            requires
                elements > 0,
                elements * size == elements * width,
        ;
    }
}

/// An all-gather through the coordinator: every rank holds every rank's input, in
/// rank order.
pub proof fn law_direct_all_gather<T, D: RankDevice<T>>(
    models: Seq<CollectiveModel>,
    inputs: Seq<Seq<T>>,
    requests: Seq<FrameModel>,
    unique_id: UniqueId,
    sequence: u64,
    traces: Seq<Seq<TransportEvent>>,
    results: Seq<(Seq<T>, CollectiveStats)>,
)
    requires
        faithful::<T, D>(),
        in_pieces::<T, D>(),
        one_world(models),
        inputs.len() == models.len(),
        traces.len() == models.len(),
        results.len() == models.len(),
        coordinated(requests, unique_id, sequence, traces),
        forall|r: int|
            #![trigger results[r]]
            0 <= r < models.len() ==> ran(
                all_gather_direct_script::<T, D>(models[r], inputs[r]),
                traces[r],
                results[r],
            ),
    ensures
        forall|r: int| 0 <= r < models.len() ==> (#[trigger] results[r]).0 == laid_out(inputs),
{
    let frames = route(requests, unique_id, sequence)->Ok_0;
    let world = models.len() as int;
    assert forall|s: int|
        #![trigger inputs[s]]
        0 <= s < inputs.len() implies requests[s].payload == D::encoding(inputs[s])
        && requests[s].header.opcode == Opcode::AllGather && ran(
        all_gather_answered::<T, D>(models[s], inputs[s].len() as int)(frames[s]),
        traces[s].skip(1),
        results[s],
    ) by {
        lemma_answered(
            requests,
            unique_id,
            sequence,
            traces,
            s,
            models[s].element_type,
            Opcode::AllGather,
            plain_options(ANY_RANK, inputs[s].len() as int),
            D::encoding(inputs[s]),
            all_gather_answered::<T, D>(models[s], inputs[s].len() as int),
            results[s],
        );
    }
    assert(requests[0].payload == D::encoding(inputs[0]));
    lemma_routed(requests, unique_id, sequence);
    lemma_joined_encodings::<T, D>(requests, inputs, world);
    assert(inputs.take(world) =~= inputs);
    assert forall|r: int| 0 <= r < models.len() implies (#[trigger] results[r]).0 == laid_out(
        inputs,
    ) by {
        assert(inputs[r].len() >= 0);
        let answer = all_gather_answered::<T, D>(models[r], inputs[r].len() as int)(frames[r]);
        lemma_ended(answer, traces[r].skip(1), results[r]);
        assert(frames[r].payload == routed_payload(requests, r));
        assert(lossless::<T, D>(laid_out(inputs)));
    }
}

/// A gather through the coordinator: the root holds every rank's input, in rank
/// order, and no other rank holds anything.
pub proof fn law_direct_gather<T, D: RankDevice<T>>(
    models: Seq<CollectiveModel>,
    inputs: Seq<Seq<T>>,
    root: u32,
    requests: Seq<FrameModel>,
    unique_id: UniqueId,
    sequence: u64,
    traces: Seq<Seq<TransportEvent>>,
    results: Seq<(Option<Seq<T>>, CollectiveStats)>,
)
    requires
        faithful::<T, D>(),
        in_pieces::<T, D>(),
        one_world(models),
        root < models.len(),
        inputs.len() == models.len(),
        traces.len() == models.len(),
        results.len() == models.len(),
        coordinated(requests, unique_id, sequence, traces),
        forall|r: int|
            #![trigger results[r]]
            0 <= r < models.len() ==> ran(
                gather_script::<T, D>(models[r], inputs[r], root),
                traces[r],
                results[r],
            ),
    ensures
        forall|r: int|
            0 <= r < models.len() ==> (#[trigger] results[r]).0 == (if r == root {
                Some(laid_out(inputs))
            } else {
                None::<Seq<T>>
            }),
{
    let frames = route(requests, unique_id, sequence)->Ok_0;
    let world = models.len() as int;
    assert forall|s: int|
        #![trigger inputs[s]]
        0 <= s < inputs.len() implies requests[s].payload == D::encoding(inputs[s])
        && requests[s].header.opcode == Opcode::Gather && requests[s].header.root_rank == root
        && ran(
        gather_answered::<T, D>(models[s], inputs[s].len() as int, root)(frames[s]),
        traces[s].skip(1),
        results[s],
    ) by {
        assert(models[s].place.world_size == models.len());
        assert(ran(gather_script::<T, D>(models[s], inputs[s], root), traces[s], results[s]));
        lemma_answered(
            requests,
            unique_id,
            sequence,
            traces,
            s,
            models[s].element_type,
            Opcode::Gather,
            plain_options(root, inputs[s].len() as int),
            D::encoding(inputs[s]),
            gather_answered::<T, D>(models[s], inputs[s].len() as int, root),
            results[s],
        );
    }
    assert(requests[0].payload == D::encoding(inputs[0]));
    lemma_routed(requests, unique_id, sequence);
    lemma_joined_encodings::<T, D>(requests, inputs, world);
    assert(inputs.take(world) =~= inputs);
    assert forall|r: int| 0 <= r < models.len() implies (#[trigger] results[r]).0 == (if r == root {
        Some(laid_out(inputs))
    } else {
        None::<Seq<T>>
    }) by {
        assert(inputs[r].len() >= 0);
        assert(models[r].place.rank == r);
        let length = inputs[r].len() as int;
        let answer = gather_answered::<T, D>(models[r], length, root)(frames[r]);
        assert(frames[r].payload == routed_payload(requests, r));
        if r == root {
            let inner = answered_with::<T, D>(
                models[r],
                frames[r],
                length * models[r].world(),
                length * D::ELEMENT_SIZE,
                crate::rank::host::exchange::one_step(models[r].place),
                "TCP gather output length"@,
            );
            let (k, mid) = lemma_ran_tried(
                inner,
                false,
                at_root::<T, D>(),
                traces[r].skip(1),
                results[r],
            );
            lemma_ended(inner, traces[r].skip(1).take(k), mid);
            lemma_ended(at_root::<T, D>()(mid), traces[r].skip(1).skip(k), results[r]);
            assert(lossless::<T, D>(laid_out(inputs)));
        } else {
            lemma_ended(answer, traces[r].skip(1), results[r]);
        }
    }
}

/// An all-to-all through the coordinator: each rank holds the shard that each rank
/// had for it, in rank order.
pub proof fn law_direct_all_to_all<T, D: RankDevice<T>>(
    models: Seq<CollectiveModel>,
    inputs: Seq<Seq<T>>,
    shard: usize,
    requests: Seq<FrameModel>,
    unique_id: UniqueId,
    sequence: u64,
    traces: Seq<Seq<TransportEvent>>,
    results: Seq<(Seq<T>, CollectiveStats)>,
)
    requires
        faithful::<T, D>(),
        in_pieces::<T, D>(),
        one_world(models),
        inputs.len() == models.len(),
        traces.len() == models.len(),
        results.len() == models.len(),
        shard * models.len() <= usize::MAX,
        coordinated(requests, unique_id, sequence, traces),
        forall|r: int|
            0 <= r < inputs.len() ==> (#[trigger] inputs[r]).len() == shard * models.len(),
        forall|r: int|
            #![trigger results[r]]
            0 <= r < models.len() ==> ran(
                all_to_all_direct_script::<T, D>(models[r], inputs[r]),
                traces[r],
                results[r],
            ),
    ensures
        forall|r: int|
            0 <= r < models.len() ==> (#[trigger] results[r]).0 == laid_out(
                Seq::new(
                    models.len(),
                    |s: int| inputs[s].subrange(r * shard, r * shard + shard),
                ),
            ),
{
    let frames = route(requests, unique_id, sequence)->Ok_0;
    let world = models.len() as int;
    let length = shard * world;
    assert forall|s: int|
        #![trigger inputs[s]]
        0 <= s < inputs.len() implies inputs[s].len() == length && requests[s].payload
        == D::encoding(inputs[s]) && requests[s].header.opcode == Opcode::AllToAll
        && requests[s].header.element_count == length && ran(
        all_to_all_answered::<T, D>(models[s], length)(frames[s]),
        traces[s].skip(1),
        results[s],
    ) by {
        lemma_answered(
            requests,
            unique_id,
            sequence,
            traces,
            s,
            models[s].element_type,
            Opcode::AllToAll,
            plain_options(ANY_RANK, length),
            D::encoding(inputs[s]),
            all_to_all_answered::<T, D>(models[s], length),
            results[s],
        );
    }
    assert(requests[0].payload == D::encoding(inputs[0]));
    lemma_routed(requests, unique_id, sequence);
    assert(lossless::<T, D>(inputs[0]));
    lemma_shard_bytes(
        length,
        world,
        D::ELEMENT_SIZE as int,
        requests[0].header.element_type.width() as int,
    );
    lemma_div_multiples_vanish(shard as int, world);
    assert(world * shard == shard * world) by (nonlinear_arith);
    assert forall|r: int| 0 <= r < models.len() implies (#[trigger] results[r]).0 == laid_out(
        Seq::new(models.len(), |s: int| inputs[s].subrange(r * shard, r * shard + shard)),
    ) by {
        assert(inputs[r].len() == length);
        lemma_row_fits(r, shard as int, world);
        assert(r * (shard * D::ELEMENT_SIZE) == (r * shard) * D::ELEMENT_SIZE) by (nonlinear_arith);
        lemma_joined_pieces::<T, D>(requests, inputs, r * shard, shard as int, world);
        let answer = all_to_all_answered::<T, D>(models[r], length)(frames[r]);
        lemma_ended(answer, traces[r].skip(1), results[r]);
        assert(frames[r].payload == routed_payload(requests, r));
        let rows = Seq::new(
            models.len(),
            |s: int| inputs[s].subrange(r * shard, r * shard + shard),
        );
        assert(lossless::<T, D>(laid_out(rows)));
    }
}

/// A scatter through the coordinator: each rank holds its share of the root's
/// values.
pub proof fn law_direct_scatter<T, D: RankDevice<T>>(
    models: Seq<CollectiveModel>,
    values: Seq<T>,
    root: u32,
    share: usize,
    requests: Seq<FrameModel>,
    unique_id: UniqueId,
    sequence: u64,
    traces: Seq<Seq<TransportEvent>>,
    results: Seq<(Seq<T>, CollectiveStats)>,
)
    requires
        faithful::<T, D>(),
        in_pieces::<T, D>(),
        one_world(models),
        root < models.len(),
        traces.len() == models.len(),
        results.len() == models.len(),
        share * models.len() <= usize::MAX,
        values.len() == share * models.len(),
        coordinated(requests, unique_id, sequence, traces),
        forall|r: int|
            #![trigger results[r]]
            0 <= r < models.len() ==> ran(
                scatter_script::<T, D>(
                    models[r],
                    if r == root {
                        Some(values)
                    } else {
                        None
                    },
                    root,
                    share as int,
                ),
                traces[r],
                results[r],
            ),
    ensures
        forall|r: int|
            0 <= r < models.len() ==> (#[trigger] results[r]).0 == values.subrange(
                r * share,
                r * share + share,
            ),
{
    let frames = route(requests, unique_id, sequence)->Ok_0;
    let world = models.len() as int;
    let length = share * world;
    let sent = values.len() * D::ELEMENT_SIZE;
    assert forall|s: int|
        #![trigger results[s]]
        0 <= s < models.len() implies requests[s].payload == (if s == root {
        D::encoding(values)
    } else {
        Seq::empty()
    }) && requests[s].header.opcode == Opcode::Scatter && requests[s].header.root_rank == root
        && requests[s].header.element_count == length && ran(
        scatter_answered::<T, D>(
            models[s],
            share as int,
            if s == root {
                sent
            } else {
                0
            },
        )(frames[s]),
        traces[s].skip(1),
        results[s],
    ) by {
        assert(models[s].place.world_size == models.len() && models[s].place.rank == s);
        let input = if s == root {
            Some(values)
        } else {
            None
        };
        assert(ran(
            scatter_script::<T, D>(models[s], input, root, share as int),
            traces[s],
            results[s],
        ));
        assert(scatter_defect::<T, D::Error>(models[s], input, root, share as int) is None);
        lemma_answered(
            requests,
            unique_id,
            sequence,
            traces,
            s,
            models[s].element_type,
            Opcode::Scatter,
            plain_options(root, length),
            if s == root {
                D::encoding(values)
            } else {
                Seq::empty()
            },
            scatter_answered::<T, D>(
                models[s],
                share as int,
                if s == root {
                    sent
                } else {
                    0
                },
            ),
            results[s],
        );
    }
    assert(results[0].0.len() >= 0);
    assert(results[root as int].0.len() >= 0);
    lemma_routed(requests, unique_id, sequence);
    assert(lossless::<T, D>(values));
    lemma_shard_bytes(
        length,
        world,
        D::ELEMENT_SIZE as int,
        requests[0].header.element_type.width() as int,
    );
    lemma_div_multiples_vanish(share as int, world);
    assert(world * share == share * world) by (nonlinear_arith);
    assert forall|r: int| 0 <= r < models.len() implies (#[trigger] results[r]).0
        == values.subrange(r * share, r * share + share) by {
        lemma_row_fits(r, share as int, world);
        lemma_encoding_part::<T, D>(values, r * share, r * share + share);
        assert(r * (share * D::ELEMENT_SIZE) == (r * share) * D::ELEMENT_SIZE) by (nonlinear_arith);
        assert((r * share + share) * D::ELEMENT_SIZE == (r * share) * D::ELEMENT_SIZE + share
            * D::ELEMENT_SIZE) by (nonlinear_arith);
        let answer = scatter_answered::<T, D>(
            models[r],
            share as int,
            if r == root {
                sent
            } else {
                0
            },
        )(frames[r]);
        lemma_ended(answer, traces[r].skip(1), results[r]);
        assert(frames[r].payload == routed_payload(requests, r));
        assert(lossless::<T, D>(values.subrange(r * share, r * share + share)));
    }
}

/// A fold over parts of the tables is the fold over the tables.
proof fn lemma_stack_of_parts<T>(
    tables: Seq<Seq<T>>,
    parts: Seq<Seq<T>>,
    start: int,
    element: int,
    last: int,
    reduce: spec_fn(T, T) -> T,
)
    requires
        0 <= last < tables.len() == parts.len(),
        forall|s: int|
            #![trigger parts[s]]
            0 <= s < tables.len() ==> parts[s][element] == tables[s][start + element],
    ensures
        stack_fold(parts, element, last, reduce) == stack_fold(
            tables,
            start + element,
            last,
            reduce,
        ),
    decreases last,
{
    assert(parts[last][element] == tables[last][start + element]);
    if last > 0 {
        lemma_stack_of_parts(tables, parts, start, element, last - 1, reduce);
    }
}

/// A reduce-scatter through the coordinator: each rank holds its share of the
/// reduction of every rank's own, in rank order.
pub proof fn law_direct_reduce_scatter<T, D: RankDevice<T>>(
    models: Seq<CollectiveModel>,
    inputs: Seq<Seq<T>>,
    share: usize,
    operation: ReductionOperation,
    reduce: spec_fn(T, T) -> T,
    requests: Seq<FrameModel>,
    unique_id: UniqueId,
    sequence: u64,
    traces: Seq<Seq<TransportEvent>>,
    results: Seq<(Seq<T>, CollectiveStats)>,
)
    requires
        faithful::<T, D>(),
        in_pieces::<T, D>(),
        one_world(models),
        inputs.len() == models.len(),
        traces.len() == models.len(),
        results.len() == models.len(),
        share * models.len() <= usize::MAX,
        coordinated(requests, unique_id, sequence, traces),
        forall|r: int|
            0 <= r < inputs.len() ==> (#[trigger] inputs[r]).len() == share * models.len(),
        forall|r: int|
            #![trigger results[r]]
            0 <= r < models.len() ==> ran(
                reduction_direct_script::<T, D>(
                    models[r],
                    Opcode::ReduceScatter,
                    inputs[r],
                    share as int,
                    operation,
                    reduce,
                ),
                traces[r],
                results[r],
            ),
    ensures
        forall|r: int|
            0 <= r < models.len() ==> (#[trigger] results[r]).0 == Seq::new(
                share as nat,
                |x: int| stack_fold(inputs, r * share + x, models.len() - 1, reduce),
            ),
{
    let frames = route(requests, unique_id, sequence)->Ok_0;
    let world = models.len() as int;
    let length = share * world;
    let size = D::ELEMENT_SIZE as int;
    assert forall|s: int|
        #![trigger inputs[s]]
        0 <= s < inputs.len() implies inputs[s].len() == length && requests[s].payload
        == D::encoding(inputs[s]) && requests[s].header.opcode == Opcode::ReduceScatter
        && requests[s].header.element_count == length && ran(
        reduced_answer::<T, D>(
            models[s],
            frames[s],
            share as int,
            D::encoding(inputs[s]).len() as int,
            reduce,
        ),
        traces[s].skip(1),
        results[s],
    ) by {
        lemma_answered(
            requests,
            unique_id,
            sequence,
            traces,
            s,
            models[s].element_type,
            Opcode::ReduceScatter,
            reduction_options(ANY_RANK, length, operation),
            D::encoding(inputs[s]),
            reduced_answered::<T, D>(
                models[s],
                share as int,
                D::encoding(inputs[s]).len() as int,
                reduce,
            ),
            results[s],
        );
    }
    assert(requests[0].payload == D::encoding(inputs[0]));
    lemma_routed(requests, unique_id, sequence);
    assert(lossless::<T, D>(inputs[0]));
    lemma_shard_bytes(
        length,
        world,
        size,
        requests[0].header.element_type.width() as int,
    );
    lemma_div_multiples_vanish(share as int, world);
    assert(world * share == share * world) by (nonlinear_arith);
    assert forall|i: int| 0 <= i < requests.len() implies (#[trigger] requests[i]).payload.len()
        == length * size by {
        assert(inputs[i].len() == length);
        assert(lossless::<T, D>(inputs[i]));
    }
    assert forall|r: int| 0 <= r < models.len() implies (#[trigger] results[r]).0 == Seq::new(
        share as nat,
        |x: int| stack_fold(inputs, r * share + x, models.len() - 1, reduce),
    ) by {
        assert(inputs[r].len() == length);
        assert(models[r].place.world_size == models.len());
        lemma_row_fits(r, share as int, world);
        let parts = Seq::new(
            models.len(),
            |s: int| inputs[s].subrange(r * share, r * share + share),
        );
        let answer = reduced_answer::<T, D>(
            models[r],
            frames[r],
            share as int,
            D::encoding(inputs[r]).len() as int,
            reduce,
        );
        lemma_ended(answer, traces[r].skip(1), results[r]);
        assert(frames[r].payload == routed_payload(requests, r));
        let bytes = share * size;
        assert(r * bytes == (r * share) * size) by (nonlinear_arith)
            requires
                bytes == share * size,
        ;
        assert((r * share + share) * size == (r * share) * size + bytes) by (nonlinear_arith)
            requires
                bytes == share * size,
        ;
        assert forall|s: int| #![trigger parts[s]] 0 <= s < parts.len() implies parts[s].len()
            == share && rank_part(frames[r].payload, share * D::ELEMENT_SIZE, s) == D::encoding(
            parts[s],
        ) by {
            assert(inputs[s].len() == length);
            lemma_encoding_part::<T, D>(inputs[s], r * share, r * share + share);
            assert(lossless::<T, D>(inputs[s]));
            law_exchange_transposes(requests, bytes, length * size, s, r);
        }
        lemma_concatenated::<T, D>(frames[r].payload, parts, share as int, reduce);
        let one = Seq::new(
            share as nat,
            |x: int| stack_fold(parts, x, parts.len() - 1, reduce),
        );
        let other = Seq::new(
            share as nat,
            |x: int| stack_fold(inputs, r * share + x, models.len() - 1, reduce),
        );
        assert forall|x: int| 0 <= x < share implies one[x] == other[x] by {
            lemma_stack_of_parts(inputs, parts, r * share, x, world - 1, reduce);
        }
        assert(one =~= other);
    }
}

/// What a request of a variable all-to-all sends to one rank, where the
/// coordinator's elements are as wide as the device's or there are none.
proof fn lemma_variable_piece<T, D: RankDevice<T>>(
    frame: FrameModel,
    input: Seq<T>,
    sends: Seq<usize>,
    width: int,
    rank: int,
)
    requires
        faithful::<T, D>(),
        in_pieces::<T, D>(),
        0 <= rank < sends.len(),
        sum_usize(sends) == input.len(),
        frame.payload == counts_bytes(sends) + D::encoding(input),
        row_defect(frame, sends.len() as int, width) is None,
    ensures
        row(frame, sends.len() as int) == sends,
        0 <= offset_of(sends, rank),
        offset_of(sends, rank) + sends[rank] <= input.len(),
        sent(frame, sends.len() as int, rank, width) == D::encoding(
            input.subrange(offset_of(sends, rank), offset_of(sends, rank) + sends[rank]),
        ),
{
    let world = sends.len() as int;
    let size = D::ELEMENT_SIZE as int;
    let from = offset_of(sends, rank);
    let to = from + sends[rank];
    law_counts_round_trip(sends, D::encoding(input));
    assert(row(frame, world) =~= sends);
    lemma_rows_apart(sends, rank, rank);
    assert(lossless::<T, D>(input));
    let total = input.len() as int;
    assert(total * size == total * width);
    lemma_encoding_part::<T, D>(input, from, to);
    if total > 0 {
        assert(size == width) by (nonlinear_arith)
            requires
                total > 0,
                total * size == total * width,
        ;
        assert(to * size == from * size + sends[rank] * size) by (nonlinear_arith)
            requires
                to == from + sends[rank],
        ;
        assert(sent(frame, world, rank, width) =~= D::encoding(input).subrange(
            from * size,
            to * size,
        ));
    } else {
        assert(from == 0 && sends[rank] == 0);
        assert(0 * size == 0) by (nonlinear_arith);
        assert(0 * width == 0) by (nonlinear_arith);
        assert(sent(frame, world, rank, width) =~= D::encoding(input).subrange(0, 0));
    }
}

/// A rank's request carries its counts and its elements, and is not refused.
spec fn variable_request<T, D: RankDevice<T>>(
    requests: Seq<FrameModel>,
    inputs: Seq<Seq<T>>,
    sends: Seq<Seq<usize>>,
    width: int,
    rank: int,
) -> bool {
    &&& sends[rank].len() == requests.len()
    &&& sum_usize(sends[rank]) == inputs[rank].len()
    &&& requests[rank].payload == counts_bytes(sends[rank]) + D::encoding(inputs[rank])
    &&& row_defect(requests[rank], requests.len() as int, width) is None
}

/// What all requests send to one rank.
proof fn lemma_variable_pieces<T, D: RankDevice<T>>(
    requests: Seq<FrameModel>,
    inputs: Seq<Seq<T>>,
    sends: Seq<Seq<usize>>,
    width: int,
    rank: int,
    count: int,
)
    requires
        faithful::<T, D>(),
        in_pieces::<T, D>(),
        inputs.len() == requests.len(),
        sends.len() == requests.len(),
        0 <= rank < requests.len(),
        0 <= count <= requests.len(),
        forall|s: int|
            0 <= s < inputs.len() ==> #[trigger] variable_request::<T, D>(
                requests,
                inputs,
                sends,
                width,
                s,
            ),
    ensures
        sent_by(requests, rank, width, count) == D::encoding(
            laid_out(Seq::new(count as nat, |s: int| share_for(inputs[s], sends[s], rank))),
        ),
    decreases count,
{
    let shares = Seq::new(count as nat, |s: int| share_for(inputs[s], sends[s], rank));
    if count == 0 {
        let none = Seq::<T>::empty();
        assert(lossless::<T, D>(none));
        assert(0 * D::ELEMENT_SIZE == 0) by (nonlinear_arith);
        assert(D::encoding(none) =~= Seq::empty());
    } else {
        let last = count - 1;
        lemma_variable_pieces::<T, D>(requests, inputs, sends, width, rank, last);
        assert(shares.drop_last() =~= Seq::new(
            last as nat,
            |s: int| share_for(inputs[s], sends[s], rank),
        ));
        assert(variable_request::<T, D>(requests, inputs, sends, width, last));
        lemma_variable_piece::<T, D>(
            requests[last],
            inputs[last],
            sends[last],
            width,
            rank,
        );
        let before = laid_out(shares.drop_last());
        let share = share_for(inputs[last], sends[last], rank);
        assert(D::encoding(before + share) == D::encoding(before) + D::encoding(share));
    }
}

/// What a rank has for another.
pub open spec fn share_for<T>(input: Seq<T>, sends: Seq<usize>, rank: int) -> Seq<T> {
    input.subrange(offset_of(sends, rank), offset_of(sends, rank) + sends[rank])
}

/// No row is refused where none of them all is.
proof fn lemma_rows(requests: Seq<FrameModel>, width: int, count: int, place: int)
    requires
        rows_defect(requests, width, count) is None,
        0 <= place < count,
    ensures
        row_defect(requests[place], requests.len() as int, width) is None,
    decreases count,
{
    if place < count - 1 {
        lemma_rows(requests, width, count - 1, place);
    }
}

/// A variable all-to-all through the coordinator: each rank learns how many
/// elements each rank had for it and holds those elements, in rank order; it has no
/// buffer where there are none.
pub proof fn law_direct_all_to_all_v<T, D: RankDevice<T>>(
    models: Seq<CollectiveModel>,
    inputs: Seq<Seq<T>>,
    sends: Seq<Seq<usize>>,
    requests: Seq<FrameModel>,
    unique_id: UniqueId,
    sequence: u64,
    traces: Seq<Seq<TransportEvent>>,
    results: Seq<VariableModel<T>>,
)
    requires
        faithful::<T, D>(),
        in_pieces::<T, D>(),
        one_world(models),
        inputs.len() == models.len(),
        sends.len() == models.len(),
        traces.len() == models.len(),
        results.len() == models.len(),
        coordinated(requests, unique_id, sequence, traces),
        forall|r: int|
            #![trigger sends[r]]
            0 <= r < sends.len() ==> sends[r].len() == models.len() && sum_usize(sends[r])
                == inputs[r].len(),
        forall|r: int|
            #![trigger results[r]]
            0 <= r < models.len() ==> ran(
                all_to_all_v_direct_script::<T, D>(models[r], inputs[r], sends[r]),
                traces[r],
                results[r],
            ),
    ensures
        forall|r: int|
            0 <= r < models.len() ==> (#[trigger] results[r]).counts == Seq::new(
                models.len(),
                |s: int| sends[s][r],
            ),
        forall|r: int|
            0 <= r < models.len() ==> (#[trigger] results[r]).buffer == (if sum_usize(
                results[r].counts,
            ) == 0 {
                None::<Seq<T>>
            } else {
                Some(
                    laid_out(
                        Seq::new(models.len(), |s: int| share_for(inputs[s], sends[s], r)),
                    ),
                )
            }),
{
    let frames = route(requests, unique_id, sequence)->Ok_0;
    let world = models.len() as int;
    assert forall|s: int|
        #![trigger inputs[s]]
        0 <= s < inputs.len() implies requests[s].payload == counts_bytes(sends[s]) + D::encoding(
        inputs[s],
    ) && requests[s].header.opcode == Opcode::AllToAllV && ran(
        all_to_all_v_answered::<T, D>(models[s], requests[s].payload.len() as int)(frames[s]),
        traces[s].skip(1),
        results[s],
    ) by {
        let payload = counts_bytes(sends[s]) + D::encoding(inputs[s]);
        lemma_answered(
            requests,
            unique_id,
            sequence,
            traces,
            s,
            models[s].element_type,
            Opcode::AllToAllV,
            ExchangeOptions {
                root_rank: ANY_RANK,
                element_count: inputs[s].len() as u64,
                flags: FLAG_COUNTS_PREFIX,
                tag: 0,
            },
            payload,
            all_to_all_v_answered::<T, D>(models[s], payload.len() as int),
            results[s],
        );
    }
    assert(requests[0].payload == counts_bytes(sends[0]) + D::encoding(inputs[0]));
    let element_type = requests[0].header.element_type;
    let width = element_type.width() as int;
    let outcomes = Seq::new(
        requests.len(),
        |d: int| variable_outcome(requests, unique_id, sequence, element_type, width, d),
    );
    assert(route(requests, unique_id, sequence) == frames_made(outcomes, world));
    lemma_made_payloads(outcomes, world);
    assert forall|s: int| 0 <= s < inputs.len() implies #[trigger] variable_request::<T, D>(
        requests,
        inputs,
        sends,
        width,
        s,
    ) by {
        assert(sends[s].len() == models.len());
        assert(inputs[s].len() == sum_usize(sends[s]));
        lemma_rows(requests, width, world, s);
    }
    assert forall|r: int| 0 <= r < models.len() implies (#[trigger] results[r]).counts == Seq::new(
        models.len(),
        |s: int| sends[s][r],
    ) && results[r].buffer == (if sum_usize(results[r].counts) == 0 {
        None::<Seq<T>>
    } else {
        Some(laid_out(Seq::new(models.len(), |s: int| share_for(inputs[s], sends[s], r))))
    }) by {
        let counts = Seq::new(models.len(), |s: int| sends[s][r]);
        let shares = Seq::new(models.len(), |s: int| share_for(inputs[s], sends[s], r));
        assert(models[r].place.world_size == models.len());
        assert forall|s: int| 0 <= s < world implies received(requests, r)[s] == counts[s] by {
            assert(variable_request::<T, D>(requests, inputs, sends, width, s));
            lemma_variable_piece::<T, D>(requests[s], inputs[s], sends[s], width, r);
        }
        assert(received(requests, r) =~= counts);
        lemma_variable_pieces::<T, D>(requests, inputs, sends, width, r, world);
        assert(outcomes[r] is Ok);
        let payload = counts_bytes(counts) + D::encoding(laid_out(shares));
        assert(frames[r].payload == payload);
        law_counts_round_trip(counts, D::encoding(laid_out(shares)));
        assert(received_counts(payload, world) =~= counts);
        assert(payload.skip(8 * world) =~= D::encoding(laid_out(shares)));
        assert(lossless::<T, D>(laid_out(shares)));
        assert(inputs[r].len() == sum_usize(sends[r]));
        let answer = all_to_all_v_answered::<T, D>(models[r], requests[r].payload.len() as int)(
            frames[r],
        );
        lemma_ended(answer, traces[r].skip(1), results[r]);
    }
}

} // verus!

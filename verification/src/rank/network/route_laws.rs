//! Which bytes the coordinator hands to which rank.

use crate::rank::network::laws::{law_every_rank_is_answered, lemma_joined, lemma_pieces};
use crate::rank::network::routing::{
    frames_made, joined, root_outcomes, root_sizes_defect, route, same_outcomes, scatter_outcomes,
    shard_outcomes, sizes_defect, Outcome,
};
use crate::rank::protocol::frame::FrameModel;
use crate::rank::protocol::{ElementType, Opcode, UniqueId};
use vstd::arithmetic::div_mod::*;
use vstd::prelude::*;

verus! {

proof fn lemma_sizes(requests: Seq<FrameModel>, bytes: int, count: int)
    requires
        0 <= count <= requests.len(),
        sizes_defect(requests, bytes, count) is None,
    ensures
        forall|i: int| 0 <= i < count ==> (#[trigger] requests[i]).payload.len() == bytes,
    decreases count,
{
    if count > 0 {
        lemma_sizes(requests, bytes, count - 1);
    }
}

proof fn lemma_root_sizes(requests: Seq<FrameModel>, root: int, bytes: int, count: int)
    requires
        0 <= count <= requests.len(),
        root_sizes_defect(requests, root, bytes, count) is None,
    ensures
        0 <= root < count ==> requests[root].payload.len() == bytes,
    decreases count,
{
    if count > 0 {
        lemma_root_sizes(requests, root, bytes, count - 1);
    }
}

proof fn lemma_carried(outcomes: Seq<Outcome>, count: int, rank: int)
    requires
        0 <= rank < count <= outcomes.len(),
        frames_made(outcomes, count) is Ok,
    ensures
        frames_made(outcomes, count)->Ok_0.len() == count,
        outcomes[rank] is Ok,
        frames_made(outcomes, count)->Ok_0[rank].payload == outcomes[rank]->Ok_0.1,
    decreases count,
{
    lemma_made(outcomes, count - 1);
    if rank < count - 1 {
        lemma_carried(outcomes, count - 1, rank);
    }
}

proof fn lemma_made(outcomes: Seq<Outcome>, count: int)
    requires
        0 <= count <= outcomes.len(),
        frames_made(outcomes, count) is Ok,
    ensures
        frames_made(outcomes, count)->Ok_0.len() == count,
    decreases count,
{
    if count > 0 {
        lemma_made(outcomes, count - 1);
    }
}

/// What a collective is for, in bytes. A gathering or an all-reduce hands the
/// payload of every rank to every rank, a rooted one to the root alone; they stand
/// in rank order. A broadcast hands the root's payload to every rank and a scatter
/// the rank's own equal share of it. In an exchange or a reduce-scatter a rank gets
/// its own share of every rank's payload, in rank order. A barrier carries nothing.
pub proof fn law_payloads_reach_their_ranks(
    requests: Seq<FrameModel>,
    unique_id: UniqueId,
    sequence: u64,
    rank: int,
    source: int,
)
    requires
        route(requests, unique_id, sequence) is Ok,
        0 <= rank < requests.len(),
        0 <= source < requests.len(),
    ensures
        ({
            let frames = route(requests, unique_id, sequence)->Ok_0;
            let payload = frames[rank].payload;
            let header = requests[0].header;
            let world = requests.len() as int;
            let bytes = header.element_count * header.element_type.width();
            let share = header.element_count as int / world * header.element_type.width();
            let root = header.root_rank as int;
            &&& frames.len() == world
            &&& match header.opcode {
                Opcode::Barrier | Opcode::SetTimeout => payload.len() == 0,
                Opcode::AllGather | Opcode::AllReduce => {
                    &&& payload.len() == world * bytes
                    &&& payload.subrange(source * bytes, source * bytes + bytes)
                        == requests[source].payload
                },
                Opcode::Gather | Opcode::Reduce => if rank == root {
                    &&& payload.len() == world * bytes
                    &&& payload.subrange(source * bytes, source * bytes + bytes)
                        == requests[source].payload
                } else {
                    payload.len() == 0
                },
                Opcode::Broadcast => 0 <= root < world && payload == requests[root].payload,
                Opcode::Scatter => {
                    &&& 0 <= root < world
                    &&& requests[root].payload.len() == world * share
                    &&& payload == requests[root].payload.subrange(
                        rank * share,
                        rank * share + share,
                    )
                },
                Opcode::ReduceScatter | Opcode::AllToAll => {
                    &&& payload.len() == world * share
                    &&& requests[source].payload.len() == world * share
                    &&& payload.subrange(source * share, source * share + share)
                        == requests[source].payload.subrange(rank * share, rank * share + share)
                },
                _ => true,
            }
        }),
{
    law_every_rank_is_answered(requests, unique_id, sequence);
    let header = requests[0].header;
    let world = requests.len() as int;
    let width = header.element_type.width() as int;
    let count = header.element_count as int;
    let bytes = count * width;
    let part = count / world;
    let share = part * width;
    let root = header.root_rank as int;
    assert(0 <= bytes) by (nonlinear_arith)
        requires
            0 <= count,
            0 <= width,
            bytes == count * width,
    ;
    lemma_fundamental_div_mod(count, world);
    lemma_div_pos_is_pos(count, world);
    assert(0 <= share) by (nonlinear_arith)
        requires
            0 <= part,
            0 <= width,
            share == part * width,
    ;
    if count % world == 0 {
        assert(world * share == bytes) by (nonlinear_arith)
            requires
                count == world * part,
                share == part * width,
                bytes == count * width,
        ;
    }
    assert(0 <= rank * share && rank * share + share <= world * share) by (nonlinear_arith)
        requires
            0 <= rank < world,
            0 <= share,
    ;
    match header.opcode {
        Opcode::Barrier | Opcode::SetTimeout => {
            lemma_carried(
                same_outcomes(
                    unique_id,
                    header.opcode,
                    ElementType::Untyped,
                    sequence,
                    world,
                    0,
                    Seq::empty(),
                ),
                world,
                rank,
            );
        },
        Opcode::AllGather | Opcode::AllReduce => {
            lemma_sizes(requests, bytes, world);
            lemma_joined(requests, bytes, world, source);
            lemma_carried(
                same_outcomes(
                    unique_id,
                    header.opcode,
                    header.element_type,
                    sequence,
                    world,
                    count * world,
                    joined(requests, world),
                ),
                world,
                rank,
            );
        },
        Opcode::Gather | Opcode::Reduce => {
            lemma_sizes(requests, bytes, world);
            lemma_joined(requests, bytes, world, source);
            lemma_carried(
                root_outcomes(
                    unique_id,
                    header.opcode,
                    header.element_type,
                    sequence,
                    world,
                    root,
                    count * world,
                    joined(requests, world),
                ),
                world,
                rank,
            );
        },
        Opcode::Broadcast => {
            lemma_carried(
                same_outcomes(
                    unique_id,
                    header.opcode,
                    header.element_type,
                    sequence,
                    world,
                    count,
                    requests[root].payload,
                ),
                world,
                rank,
            );
        },
        Opcode::Scatter => {
            lemma_root_sizes(requests, root, bytes, world);
            lemma_carried(
                scatter_outcomes(
                    unique_id,
                    header.opcode,
                    header.element_type,
                    sequence,
                    world,
                    part,
                    share,
                    requests[root].payload,
                ),
                world,
                rank,
            );
        },
        Opcode::ReduceScatter | Opcode::AllToAll => {
            lemma_sizes(requests, bytes, world);
            lemma_pieces(requests, rank * share, share, bytes, world, source);
            lemma_carried(
                shard_outcomes(
                    unique_id,
                    header.opcode,
                    header.element_type,
                    sequence,
                    requests,
                    count,
                    share,
                ),
                world,
                rank,
            );
        },
        _ => {},
    }
}

} // verus!

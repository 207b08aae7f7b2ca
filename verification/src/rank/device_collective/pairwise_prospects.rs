//! How the pairwise exchanges fare on a device and a transport that work.

use crate::rank::device::RankDevice;
use crate::rank::device_collective::all_to_all::{
    all_to_all_pairwise_script, all_to_all_v_pairwise_script, counts_next, counts_script,
    own_count_only, pairwise_agreed, pairwise_finished, pairwise_v_agreed, pairwise_v_counted,
    pairwise_v_finished, shard_plan, variable_plan, VariableModel,
};
use crate::rank::device_collective::hierarchical::prospects::{
    lemma_agreement_fares, lemma_chunk_fares, sized_bytes, works,
};
use crate::rank::device_collective::pairwise::{
    joined, offset_of, own_row_only, pairwise_next, pairwise_script, step_destination, step_next,
    step_script, step_source, Pairwise,
};
use crate::rank::device_collective::ring::{chunk_length, chunk_script};
use crate::rank::device_collective::{effective_channels, CollectiveModel};
use crate::rank::hash::fnv;
use crate::rank::host::exchange::host_payload_script;
use crate::rank::layout::law_balanced_partition;
use crate::rank::prospects::{
    anything, fares, lemma_fares_ask, lemma_fares_done, lemma_fares_tried,
};
use crate::rank::protocol::ElementType;
use crate::rank::script::TransportReply;
use crate::rank::stats::CollectiveStats;
use crate::rank::tags::{agreement_bytes, ring_tag};
use crate::rank::topology::rings::lemma_ring_holds_all;
use crate::math::{max_int, sum_usize};
use vstd::bytes::*;
use vstd::prelude::*;

verus! {

/// The agreement of a ring collective.
pub proof fn lemma_ring_agreement_fares<T, D: RankDevice<T>>(
    model: CollectiveModel,
    operation: u64,
    length: int,
    discriminator: u32,
    channels: int,
)
    ensures
        fares(
            model.ring_agreement::<D::Error>(operation, length, discriminator, channels),
            works::<T, D>(),
            anything(),
        ),
{
    lemma_agreement_fares::<T, D>(
        fnv(
            agreement_bytes(
                operation,
                length as u64,
                model.channel_rings(channels),
                discriminator,
                channels as u64,
                model.channel_rails(channels),
            ),
        ),
        "invalid ring collective agreement response"@,
    );
}

/// The channels of a step.
proof fn lemma_step_fares<T, D: RankDevice<T>>(
    model: CollectiveModel,
    plan: Pairwise,
    input: Seq<T>,
    destination: u32,
    source: u32,
    step: int,
    channel: int,
    parts: Seq<Seq<u8>>,
)
    requires
        model.element_type.width() == D::ELEMENT_SIZE,
        0 < plan.channels,
        0 <= channel,
    ensures
        fares(
            step_script::<T, D>(model, plan, input, destination, source, step, channel, parts),
            works::<T, D>(),
            anything(),
        ),
    decreases plan.channels - channel,
{
    let works = works::<T, D>();
    let wishes = anything::<Seq<Seq<u8>>>();
    let script = step_script::<T, D>(
        model,
        plan,
        input,
        destination,
        source,
        step,
        channel,
        parts,
    );
    if channel >= plan.channels {
        lemma_fares_done(script, works, wishes);
    } else {
        let count = plan.receive_counts[source as int] as int;
        let length = chunk_length(count, plan.channels, channel);
        let part = plan.part(input, destination, channel);
        let tag = ring_tag(plan.operation, plan.phase, channel as u64, step as u64);
        law_balanced_partition(count, plan.channels, channel);
        lemma_chunk_fares::<T, D>(
            model.element_type,
            model.rail(channel),
            part,
            length,
            destination,
            source,
            tag,
        );
        let hopes = sized_bytes::<T, D>(length);
        let next = step_next::<T, D>(
            model,
            plan,
            input,
            destination,
            source,
            step,
            channel,
            parts,
        );
        assert forall|received: Seq<u8>| #[trigger] hopes(received) implies fares(
            next(received),
            works,
            wishes,
        ) by {
            lemma_step_fares::<T, D>(
                model,
                plan,
                input,
                destination,
                source,
                step,
                channel + 1,
                parts.push(received),
            );
        }
        lemma_fares_tried(
            chunk_script::<T, D>(
                model.element_type,
                model.rail(channel),
                part,
                length,
                destination,
                source,
                tag,
            ),
            true,
            next,
            works,
            hopes,
            wishes,
        );
    }
}

/// The steps of a pairwise exchange.
proof fn lemma_pairwise_fares<T, D: RankDevice<T>>(
    model: CollectiveModel,
    plan: Pairwise,
    input: Seq<T>,
    position: int,
    step: int,
    rows: Seq<Seq<T>>,
    bytes: int,
)
    requires
        model.element_type.width() == D::ELEMENT_SIZE,
        0 < plan.channels,
    ensures
        fares(
            pairwise_script::<T, D>(model, plan, input, position, step, rows, bytes),
            works::<T, D>(),
            anything(),
        ),
    decreases model.world() - step,
{
    let works = works::<T, D>();
    let wishes = anything::<(Seq<T>, int)>();
    let script = pairwise_script::<T, D>(model, plan, input, position, step, rows, bytes);
    if step >= model.world() {
        lemma_fares_done(script, works, wishes);
    } else {
        let ring = model.tuning.ring_order;
        let destination = step_destination(ring, position, step);
        let source = step_source(ring, position, step);
        let first = step_script::<T, D>(
            model,
            plan,
            input,
            destination,
            source,
            step,
            0,
            Seq::empty(),
        );
        let next = pairwise_next::<T, D>(model, plan, input, position, step, rows, bytes);
        lemma_step_fares::<T, D>(
            model,
            plan,
            input,
            destination,
            source,
            step,
            0,
            Seq::empty(),
        );
        let hopes = anything::<Seq<Seq<u8>>>();
        assert forall|parts: Seq<Seq<u8>>| #[trigger] hopes(parts) implies fares(
            next(parts),
            works,
            wishes,
        ) by {
            let total = bytes + plan.moved(
                destination,
                source,
                D::ELEMENT_SIZE as int,
                plan.channels,
            );
            if total > usize::MAX {
                lemma_fares_done(next(parts), works, wishes);
            } else {
                lemma_pairwise_fares::<T, D>(
                    model,
                    plan,
                    input,
                    position,
                    step + 1,
                    rows.update(source as int, joined::<T, D>(parts)),
                    total,
                );
            }
        }
        lemma_fares_tried(first, false, next, works, hopes, wishes);
    }
}

/// The exchange of counts.
proof fn lemma_counts_fare<T, D: RankDevice<T>>(
    model: CollectiveModel,
    send_counts: Seq<usize>,
    operation: u64,
    step: int,
    counts: Seq<usize>,
    bytes: int,
)
    ensures
        fares(
            counts_script::<D::Error>(model, send_counts, operation, step, counts, bytes),
            works::<T, D>(),
            anything(),
        ),
    decreases model.world() - step,
{
    let works = works::<T, D>();
    let wishes = anything::<(Seq<usize>, int)>();
    let script = counts_script::<D::Error>(model, send_counts, operation, step, counts, bytes);
    if step >= model.world() {
        lemma_fares_done(script, works, wishes);
    } else {
        let ring = model.tuning.ring_order;
        let position = ring.index_of(model.place.rank);
        let destination = step_destination(ring, position, step);
        let source = step_source(ring, position, step);
        let payload = spec_u64_to_le_bytes(send_counts[destination as int] as u64);
        let first = host_payload_script::<D::Error>(
            model.rails,
            ElementType::U8,
            payload,
            8,
            destination,
            source,
            0,
            ring_tag(operation, 0, 0, step as u64),
        );
        let any = anything::<Seq<u8>>();
        lemma_auto_spec_u64_to_from_le_bytes();
        assert(payload.len() == 8);
        assert(first is Ask);
        assert forall|reply: TransportReply| works(first->Ask_0, reply) implies fares(
            #[trigger] (first->Ask_1)(reply),
            works,
            any,
        ) by {
            let rest = (first->Ask_1)(reply);
            assert forall|answer: TransportReply| works(rest->Ask_0, answer) implies fares(
                #[trigger] (rest->Ask_1)(answer),
                works,
                any,
            ) by {
                lemma_fares_done((rest->Ask_1)(answer), works, any);
            }
            lemma_fares_ask(rest, works, any);
        }
        lemma_fares_ask(first, works, any);
        let next = counts_next::<D::Error>(
            model,
            send_counts,
            operation,
            step,
            counts,
            bytes,
        );
        assert forall|received: Seq<u8>| #[trigger] any(received) implies fares(
            next(received),
            works,
            wishes,
        ) by {
            let count = spec_u64_from_le_bytes(received);
            if count > usize::MAX || bytes + 16 > usize::MAX {
                lemma_fares_done(next(received), works, wishes);
            } else {
                lemma_counts_fare::<T, D>(
                    model,
                    send_counts,
                    operation,
                    step + 1,
                    counts.update(source as int, count as usize),
                    bytes + 16,
                );
            }
        }
        lemma_fares_tried(first, false, next, works, any, wishes);
    }
}

/// Where the device refuses nothing and the transport works, a rank's pairwise
/// all-to-all ends in a result unless a count does not fit.
pub proof fn law_pairwise_all_to_all_succeeds<T, D: RankDevice<T>>(
    model: CollectiveModel,
    values: Seq<T>,
    operation: u64,
    ring_channels: int,
)
    requires
        model.valid(),
        model.element_type.width() == D::ELEMENT_SIZE,
        ring_channels > 0,
    ensures
        fares(
            all_to_all_pairwise_script::<T, D>(model, values, operation, ring_channels),
            works::<T, D>(),
            anything(),
        ),
{
    let works = works::<T, D>();
    let wishes = anything::<(Seq<T>, CollectiveStats)>();
    let shard = (values.len() as int / model.world()) as usize;
    let channels = effective_channels(ring_channels, shard as int);
    let rank = model.place.rank;
    let plan = shard_plan(model, shard, channels, operation);
    let position = model.tuning.ring_order.index_of(rank);
    let rows = own_row_only(
        rank,
        model.world(),
        values.subrange(rank * shard, rank * shard + shard),
    );
    lemma_ring_holds_all(model.place.world_size, model.tuning.ring_order, rank);
    lemma_pairwise_fares::<T, D>(model, plan, values, position, 1, rows, 0);
    let found = anything::<(Seq<T>, int)>();
    let last = pairwise_finished::<T, D>(model);
    assert forall|run: (Seq<T>, int)| #[trigger] found(run) implies fares(
        last(run),
        works,
        wishes,
    ) by {
        lemma_fares_done(last(run), works, wishes);
    }
    lemma_fares_tried(
        pairwise_script::<T, D>(model, plan, values, position, 1, rows, 0),
        false,
        last,
        works,
        found,
        wishes,
    );
    let any = anything::<()>();
    let agreed = pairwise_agreed::<T, D>(model, values, shard, channels, operation);
    assert forall|done: ()| #[trigger] any(done) implies fares(agreed(done), works, wishes) by {}
    lemma_ring_agreement_fares::<T, D>(
        model,
        operation,
        values.len() as int,
        0x400,
        channels,
    );
    lemma_fares_tried(
        model.ring_agreement::<D::Error>(operation, values.len() as int, 0x400, channels),
        false,
        agreed,
        works,
        any,
        wishes,
    );
}

/// Where the device refuses nothing and the transport works, a rank's pairwise
/// all-to-all of rows of any length ends in a result unless a count does not fit.
pub proof fn law_pairwise_all_to_all_v_succeeds<T, D: RankDevice<T>>(
    model: CollectiveModel,
    values: Seq<T>,
    send_counts: Seq<usize>,
    operation: u64,
    ring_channels: int,
)
    requires
        model.valid(),
        model.element_type.width() == D::ELEMENT_SIZE,
    ensures
        fares(
            all_to_all_v_pairwise_script::<T, D>(
                model,
                values,
                send_counts,
                operation,
                ring_channels,
            ),
            works::<T, D>(),
            anything(),
        ),
{
    let works = works::<T, D>();
    let wishes = anything::<VariableModel<T>>();
    let channels = max_int(ring_channels, 1);
    let rank = model.place.rank;
    let position = model.tuning.ring_order.index_of(rank);
    let known = own_count_only(model, send_counts);
    lemma_ring_holds_all(model.place.world_size, model.tuning.ring_order, rank);
    lemma_counts_fare::<T, D>(model, send_counts, operation, 1, known, 0);
    let learning = anything::<(Seq<usize>, int)>();
    let counted = pairwise_v_counted::<T, D>(model, values, send_counts, channels, operation);
    assert forall|learnt: (Seq<usize>, int)| #[trigger] learning(learnt) implies fares(
        counted(learnt),
        works,
        wishes,
    ) by {
        if sum_usize(learnt.0) > usize::MAX {
            lemma_fares_done(counted(learnt), works, wishes);
        } else {
            let own = offset_of(send_counts, rank as int);
            let plan = variable_plan(send_counts, learnt.0, channels, operation);
            let rows = own_row_only(
                rank,
                model.world(),
                values.subrange(own, own + send_counts[rank as int]),
            );
            let last = pairwise_v_finished::<T, D>(model, learnt.0);
            let found = anything::<(Seq<T>, int)>();
            lemma_pairwise_fares::<T, D>(model, plan, values, position, 1, rows, learnt.1);
            assert forall|run: (Seq<T>, int)| #[trigger] found(run) implies fares(
                last(run),
                works,
                wishes,
            ) by {
                lemma_fares_done(last(run), works, wishes);
            }
            lemma_fares_tried(
                pairwise_script::<T, D>(model, plan, values, position, 1, rows, learnt.1),
                false,
                last,
                works,
                found,
                wishes,
            );
        }
    }
    lemma_fares_tried(
        counts_script::<D::Error>(model, send_counts, operation, 1, known, 0),
        false,
        counted,
        works,
        learning,
        wishes,
    );
    let any = anything::<()>();
    let agreed = pairwise_v_agreed::<T, D>(model, values, send_counts, channels, operation);
    assert forall|done: ()| #[trigger] any(done) implies fares(agreed(done), works, wishes) by {}
    lemma_ring_agreement_fares::<T, D>(model, operation, 0, 0x500, channels);
    lemma_fares_tried(
        model.ring_agreement::<D::Error>(operation, 0, 0x500, channels),
        false,
        agreed,
        works,
        any,
        wishes,
    );
}

} // verus!

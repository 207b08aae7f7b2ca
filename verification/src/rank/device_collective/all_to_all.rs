//! Collectives in which every rank sends a part of its own to every other.

use crate::math::{
    checked_sum, is_multiple_of, lemma_sum_step, multiple_of, saturate_usize, saturating_add_usize,
    sum_usize,
};
use crate::rank::device::{asked, lemma_bytes_fit, DeviceCall, RankDevice};
use crate::rank::device_collective::direct::{
    answered_with, exchange_script, frame_of, plain_options,
};
use crate::rank::device_collective::output::VariableCollectiveOutput;
use crate::rank::device_collective::pairwise::{
    ahead, held, laid_result, lemma_rows_apart, offset_of, own_row_apart, own_row_only,
    pairwise_script, step_destination, step_source, Pairwise,
};
use crate::rank::device_collective::reduce_scatter::new_buffer;
use crate::rank::device_collective::ring::{back, lemma_place_in_ring, received_bytes};
use crate::rank::device_collective::{
    absent_from_ring, conversed, effective_channels, exactly, from_network, from_rank, lemma_part,
    lemma_performed_part, performed, CollectiveModel, DeviceCollective, Scope,
};
use crate::rank::error::RankError;
use crate::rank::host::exchange::{host_payload_script, other_ranks, stats_of};
use crate::rank::layout::prefix_offsets;
use crate::rank::network::{ExchangeOptions, NetworkError};
use crate::rank::payload::{
    count_at, counts_bytes, counts_defect, decode_counts_response, encode_counts,
};
use crate::rank::protocol::frame::FrameModel;
use crate::rank::protocol::{ElementType, Opcode, ANY_RANK, FLAG_COUNTS_PREFIX};
use crate::rank::script::{
    bad_length, fails, followed, lemma_start, reached, too_large, tried, yields, Failure, Script,
};
use crate::rank::stats::CollectiveStats;
use crate::rank::tags::{ring_data_tag, ring_tag};
use crate::rank::topology::{CollectiveKind, TopologyError};
use crate::rank::transport::RankTransport;
use crate::rank::CollectiveAlgorithm;
use vstd::arithmetic::div_mod::*;
use vstd::bytes::*;
use vstd::prelude::*;
use vstd::slice::*;

verus! {

pub open spec fn all_to_all_answered<T, D: RankDevice<T>>(
    model: CollectiveModel,
    length: int,
) -> spec_fn(FrameModel) -> Script<(Seq<T>, CollectiveStats), D::Error> {
    |frame: FrameModel|
        answered_with::<T, D>(
            model,
            frame,
            length,
            length * D::ELEMENT_SIZE,
            other_ranks(model.place),
            ""@,
        )
}

/// The script of an all-to-all through the coordinator.
pub open spec fn all_to_all_direct_script<T, D: RankDevice<T>>(
    model: CollectiveModel,
    values: Seq<T>,
) -> Script<(Seq<T>, CollectiveStats), D::Error> {
    tried(
        exchange_script(
            model.element_type,
            Opcode::AllToAll,
            plain_options(ANY_RANK, values.len() as int),
            D::encoding(values),
        ),
        false,
        all_to_all_answered::<T, D>(model, values.len() as int),
    )
}

/// The same count for every rank.
pub open spec fn uniform(count: usize, ranks: int) -> Seq<usize> {
    Seq::new(ranks as nat, |rank: int| count)
}

/// Equal shares add up.
pub(crate) proof fn lemma_uniform(count: usize, ranks: int, rank: int)
    requires
        0 <= rank <= ranks,
    ensures
        offset_of(uniform(count, ranks), rank) == rank * count,
    decreases rank,
{
    let all = uniform(count, ranks);
    if rank == 0 {
        assert(all.take(0) =~= Seq::empty());
    } else {
        lemma_uniform(count, ranks, rank - 1);
        lemma_sum_step(all, rank - 1);
        assert(rank * count == (rank - 1) * count + count) by (nonlinear_arith);
    }
}

pub open spec fn pairwise_finished<T, D: RankDevice<T>>(model: CollectiveModel) -> spec_fn(
    (Seq<T>, int),
) -> Script<(Seq<T>, CollectiveStats), D::Error> {
    |run: (Seq<T>, int)|
        yields(
            (
                run.0,
                stats_of(
                    model.place,
                    CollectiveAlgorithm::Pairwise,
                    model.world() - 1,
                    run.1,
                    0,
                ),
            ),
        )
}

/// How equal shards of an input go round.
pub open spec fn shard_plan(
    model: CollectiveModel,
    shard: usize,
    channels: int,
    operation: u64,
) -> Pairwise {
    Pairwise {
        send_counts: uniform(shard, model.world()),
        receive_counts: uniform(shard, model.world()),
        channels,
        operation,
        phase: 0,
        bytes_label: "pairwise all-to-all transferred bytes"@,
    }
}

pub open spec fn pairwise_agreed<T, D: RankDevice<T>>(
    model: CollectiveModel,
    input: Seq<T>,
    shard: usize,
    channels: int,
    operation: u64,
) -> spec_fn(()) -> Script<(Seq<T>, CollectiveStats), D::Error> {
    |agreed: ()|
        tried(
            pairwise_script::<T, D>(
                model,
                shard_plan(model, shard, channels, operation),
                input,
                model.tuning.ring_order.index_of(model.place.rank),
                1,
                own_row_only(
                    model.place.rank,
                    model.world(),
                    input.subrange(
                        model.place.rank * shard,
                        model.place.rank * shard + shard,
                    ),
                ),
                0,
            ),
            false,
            pairwise_finished::<T, D>(model),
        )
}

/// The script of a pairwise all-to-all: the shard for each rank goes to it.
pub open spec fn all_to_all_pairwise_script<T, D: RankDevice<T>>(
    model: CollectiveModel,
    input: Seq<T>,
    operation: u64,
    ring_channels: int,
) -> Script<(Seq<T>, CollectiveStats), D::Error> {
    let shard = (input.len() as int / model.world()) as usize;
    let channels = effective_channels(ring_channels, shard as int);
    if !model.tuning.ring_order.contains(model.place.rank) {
        fails(Failure::Topology(absent_from_ring(model.place.rank)))
    } else {
        tried(
            model.ring_agreement(operation, input.len() as int, 0x400, channels),
            false,
            pairwise_agreed::<T, D>(model, input, shard, channels, operation),
        )
    }
}

/// The script of an all-to-all: the input is one shard for each rank, and the
/// output one from each.
pub open spec fn all_to_all_script<T, D: RankDevice<T>>(
    model: CollectiveModel,
    values: Seq<T>,
    operation: u64,
) -> Script<(Seq<T>, CollectiveStats), D::Error> {
    let bytes = values.len() * D::ELEMENT_SIZE;
    if !multiple_of(values.len() as int, model.world()) {
        fails(bad_length("TCP all-to-all input length must be divisible by world size"@))
    } else if model.algorithm(CollectiveKind::AllToAll, bytes) == CollectiveAlgorithm::Pairwise {
        all_to_all_pairwise_script::<T, D>(
            model,
            values,
            operation,
            model.channels(CollectiveKind::AllToAll, bytes),
        )
    } else {
        all_to_all_direct_script::<T, D>(model, values)
    }
}

/// What a variable all-to-all brings: the elements, if any, the counts by rank
/// and the statistics.
pub struct VariableModel<T> {
    pub buffer: Option<Seq<T>>,
    pub counts: Seq<usize>,
    pub stats: CollectiveStats,
}

pub open spec fn variable_output<T, D: RankDevice<T>>(
    result: Result<(VariableCollectiveOutput<D::Buffer>, CollectiveStats), D::Error>,
) -> Result<VariableModel<T>, D::Error> {
    match result {
        Ok((output, stats)) => Ok(
            VariableModel {
                buffer: match output.buffer {
                    Some(buffer) => Some(D::values(&buffer)),
                    None => None,
                },
                counts: output.counts@,
                stats,
            },
        ),
        Err(error) => Err(error),
    }
}

/// The counts that a response begins with.
pub open spec fn received_counts(payload: Seq<u8>, ranks: int) -> Seq<usize> {
    Seq::new(ranks as nat, |rank: int| count_at(payload, rank) as usize)
}

/// What a response of counts and elements is worth; `sent` bytes went out.
pub open spec fn all_to_all_v_answered<T, D: RankDevice<T>>(
    model: CollectiveModel,
    sent: int,
) -> spec_fn(FrameModel) -> Script<VariableModel<T>, D::Error> {
    |frame: FrameModel|
        {
            let counts = received_counts(frame.payload, model.world());
            let stats = stats_of(
                model.place,
                CollectiveAlgorithm::Direct,
                other_ranks(model.place),
                saturate_usize(sent + frame.payload.len()) as int,
                0,
            );
            match counts_defect(frame, model.world(), D::ELEMENT_SIZE as int) {
                Some(defect) => fails(Failure::Rank(defect)),
                None => if sum_usize(counts) == 0 {
                    yields(VariableModel { buffer: None, counts, stats })
                } else {
                    match exactly::<T, D>(
                        frame.payload.skip(8 * model.world()),
                        sum_usize(counts),
                    ) {
                        Err(failure) => fails(failure),
                        Ok(values) => yields(VariableModel { buffer: Some(values), counts, stats }),
                    }
                },
            }
        }
}

/// The script of a variable all-to-all through the coordinator.
pub open spec fn all_to_all_v_direct_script<T, D: RankDevice<T>>(
    model: CollectiveModel,
    values: Seq<T>,
    send_counts: Seq<usize>,
) -> Script<VariableModel<T>, D::Error> {
    let payload = counts_bytes(send_counts) + D::encoding(values);
    tried(
        exchange_script(
            model.element_type,
            Opcode::AllToAllV,
            ExchangeOptions {
                root_rank: ANY_RANK,
                element_count: values.len() as u64,
                flags: FLAG_COUNTS_PREFIX,
                tag: 0,
            },
            payload,
        ),
        false,
        all_to_all_v_answered::<T, D>(model, payload.len() as int),
    )
}

/// The script of the count exchange from `step` on: every rank learns how many
/// elements come from each.
pub open spec fn counts_script<E>(
    model: CollectiveModel,
    send_counts: Seq<usize>,
    operation: u64,
    step: int,
    counts: Seq<usize>,
    bytes: int,
) -> Script<(Seq<usize>, int), E>
    decreases model.world() - step, 1int,
{
    let ring = model.tuning.ring_order;
    let position = ring.index_of(model.place.rank);
    if step >= model.world() {
        yields((counts, bytes))
    } else {
        tried(
            host_payload_script(
                model.rails,
                ElementType::U8,
                spec_u64_to_le_bytes(
                    send_counts[step_destination(ring, position, step) as int] as u64,
                ),
                8,
                step_destination(ring, position, step),
                step_source(ring, position, step),
                0,
                ring_tag(operation, 0, 0, step as u64),
            ),
            false,
            counts_next::<E>(model, send_counts, operation, step, counts, bytes),
        )
    }
}

pub open spec fn counts_next<E>(
    model: CollectiveModel,
    send_counts: Seq<usize>,
    operation: u64,
    step: int,
    counts: Seq<usize>,
    bytes: int,
) -> spec_fn(Seq<u8>) -> Script<(Seq<usize>, int), E>
    decreases model.world() - step, 0int,
{
    |received: Seq<u8>|
        {
            let ring = model.tuning.ring_order;
            let position = ring.index_of(model.place.rank);
            let count = spec_u64_from_le_bytes(received);
            if step >= model.world() {
                yields((counts, bytes))
            } else if count > usize::MAX {
                fails(too_large("pairwise all-to-all-v receive count"@))
            } else if bytes + 16 > usize::MAX {
                fails(too_large("pairwise all-to-all-v transferred bytes"@))
            } else {
                counts_script::<E>(
                    model,
                    send_counts,
                    operation,
                    step + 1,
                    counts.update(step_source(ring, position, step) as int, count as usize),
                    bytes + 16,
                )
            }
        }
}

/// The counts before anything is received: only the rank's own is known.
pub open spec fn own_count_only(model: CollectiveModel, send_counts: Seq<usize>) -> Seq<usize> {
    Seq::new(
        model.world() as nat,
        |rank: int|
            if rank == model.place.rank {
                send_counts[rank]
            } else {
                0
            },
    )
}

pub open spec fn pairwise_v_finished<T, D: RankDevice<T>>(
    model: CollectiveModel,
    counts: Seq<usize>,
) -> spec_fn((Seq<T>, int)) -> Script<VariableModel<T>, D::Error> {
    |run: (Seq<T>, int)|
        yields(
            VariableModel {
                buffer: if sum_usize(counts) == 0 {
                    None
                } else {
                    Some(run.0)
                },
                counts,
                stats: stats_of(
                    model.place,
                    CollectiveAlgorithm::Pairwise,
                    2 * (model.world() - 1),
                    run.1,
                    0,
                ),
            },
        )
}

/// How the elements go round once the counts are known.
pub open spec fn variable_plan(
    send_counts: Seq<usize>,
    receive_counts: Seq<usize>,
    channels: int,
    operation: u64,
) -> Pairwise {
    Pairwise {
        send_counts,
        receive_counts,
        channels,
        operation,
        phase: 1,
        bytes_label: "pairwise all-to-all-v transferred bytes"@,
    }
}

pub open spec fn pairwise_v_counted<T, D: RankDevice<T>>(
    model: CollectiveModel,
    input: Seq<T>,
    send_counts: Seq<usize>,
    channels: int,
    operation: u64,
) -> spec_fn((Seq<usize>, int)) -> Script<VariableModel<T>, D::Error> {
    |learnt: (Seq<usize>, int)|
        {
            let own = offset_of(send_counts, model.place.rank as int);
            if sum_usize(learnt.0) > usize::MAX {
                fails(too_large("pairwise count prefix"@))
            } else {
                tried(
                    pairwise_script::<T, D>(
                        model,
                        variable_plan(send_counts, learnt.0, channels, operation),
                        input,
                        model.tuning.ring_order.index_of(model.place.rank),
                        1,
                        own_row_only(
                            model.place.rank,
                            model.world(),
                            input.subrange(own, own + send_counts[model.place.rank as int]),
                        ),
                        learnt.1,
                    ),
                    false,
                    pairwise_v_finished::<T, D>(model, learnt.0),
                )
            }
        }
}

pub open spec fn pairwise_v_agreed<T, D: RankDevice<T>>(
    model: CollectiveModel,
    input: Seq<T>,
    send_counts: Seq<usize>,
    channels: int,
    operation: u64,
) -> spec_fn(()) -> Script<VariableModel<T>, D::Error> {
    |agreed: ()|
        tried(
            counts_script(
                model,
                send_counts,
                operation,
                1,
                own_count_only(model, send_counts),
                0,
            ),
            false,
            pairwise_v_counted::<T, D>(model, input, send_counts, channels, operation),
        )
}

/// The script of a pairwise variable all-to-all: the counts go round first, then
/// the elements.
pub open spec fn all_to_all_v_pairwise_script<T, D: RankDevice<T>>(
    model: CollectiveModel,
    input: Seq<T>,
    send_counts: Seq<usize>,
    operation: u64,
    ring_channels: int,
) -> Script<VariableModel<T>, D::Error> {
    let channels = if ring_channels < 1 {
        1
    } else {
        ring_channels
    };
    if !model.tuning.ring_order.contains(model.place.rank) {
        fails(Failure::Topology(absent_from_ring(model.place.rank)))
    } else {
        tried(
            model.ring_agreement(operation, 0, 0x500, channels),
            false,
            pairwise_v_agreed::<T, D>(model, input, send_counts, channels, operation),
        )
    }
}

/// The script of a variable all-to-all: `send_counts` says how many elements of
/// the input go to each rank.
pub open spec fn all_to_all_v_script<T, D: RankDevice<T>>(
    model: CollectiveModel,
    values: Seq<T>,
    send_counts: Seq<usize>,
    operation: u64,
) -> Script<VariableModel<T>, D::Error> {
    let bytes = values.len() * D::ELEMENT_SIZE;
    if send_counts.len() != model.world() {
        fails(bad_length("TCP all-to-all-v send_counts must have one entry per rank"@))
    } else if sum_usize(send_counts) > usize::MAX {
        fails(too_large("TCP all-to-all-v send count"@))
    } else if sum_usize(send_counts) != values.len() {
        fails(bad_length("TCP all-to-all-v send_counts do not sum to input length"@))
    } else if model.algorithm(CollectiveKind::AllToAll, bytes) == CollectiveAlgorithm::Pairwise {
        all_to_all_v_pairwise_script::<T, D>(
            model,
            values,
            send_counts,
            operation,
            model.channels(CollectiveKind::AllToAll, bytes),
        )
    } else {
        all_to_all_v_direct_script::<T, D>(model, values, send_counts)
    }
}

/// What the count exchange brought.
pub open spec fn learnt_counts<E>(result: Result<(Vec<usize>, usize), E>) -> Result<
    (Seq<usize>, int),
    E,
> {
    match result {
        Ok((counts, bytes)) => Ok((counts@, bytes as int)),
        Err(error) => Err(error),
    }
}

/// Where a pairwise all-to-all works on the device.
pub open spec fn pairwise_scope(model: CollectiveModel, length: int) -> Scope {
    own_row_apart(
        uniform((length / model.world()) as usize, model.world()),
        model.place.rank,
        false,
    )
}

/// Where a pairwise all-to-all of rows of any length does.
pub open spec fn pairwise_v_scope(model: CollectiveModel, send_counts: Seq<usize>) -> Scope {
    own_row_apart(send_counts, model.place.rank, false)
}

/// Where an all-to-all does: the tuning's plan picks the algorithm.
pub open spec fn all_to_all_scope(model: CollectiveModel, length: int, size: int) -> Scope {
    match model.algorithm(CollectiveKind::AllToAll, length * size) {
        CollectiveAlgorithm::Pairwise => pairwise_scope(model, length),
        _ => Scope::Outside,
    }
}

/// Where an all-to-all of rows of any length does.
pub open spec fn all_to_all_v_scope(
    model: CollectiveModel,
    send_counts: Seq<usize>,
    length: int,
    size: int,
) -> Scope {
    match model.algorithm(CollectiveKind::AllToAll, length * size) {
        CollectiveAlgorithm::Pairwise => pairwise_v_scope(model, send_counts),
        _ => Scope::Outside,
    }
}

impl<'a, T, D: RankDevice<T>, S: RankTransport> DeviceCollective<'a, T, D, S> where
    D::Error: From<RankError> + From<NetworkError> + From<TopologyError>,
 {
    fn all_to_all_direct(&mut self, input: &D::Buffer) -> (result: Result<
        (D::Buffer, CollectiveStats),
        D::Error,
    >)
        ensures
            *final(final(self).link) == *final(old(self).link),
            final(self).model() == old(self).model(),
            final(self).next() == old(self).next(),
            asked(
                old(self).standing().faults,
                final(self).standing().faults,
                |call: DeviceCall| call.handles_whole(D::values(input).len() as int),
            ),
            conversed(
                all_to_all_direct_script::<T, D>(old(self).model(), D::values(input)),
                old(self).standing(),
                final(self).standing(),
                new_buffer::<T, D>(result),
                false,
            ),
    {
        let ghost before = self.standing();
        let ghost model = self.model();
        let ghost script = all_to_all_direct_script::<T, D>(model, D::values(input));
        proof {
            lemma_start(script, before.log);
        }
        let values = match self.link.execution.copy_from_device(input) {
            Ok(values) => values,
            Err(error) => {
                return Err(error);
            },
        };
        let payload = D::encode(values.as_slice());
        let length: usize = self.link.execution.buffer_len(input);
        let options = ExchangeOptions::new(ANY_RANK, length as u64);
        let outcome = self.exchange_direct(Opcode::AllToAll, options, payload);
        proof {
            lemma_part(
                script,
                before,
                before,
                self.standing(),
                exchange_script(
                    model.element_type,
                    Opcode::AllToAll,
                    options,
                    D::encoding(D::values(input)),
                ),
                false,
                all_to_all_answered::<T, D>(model, length as int),
                frame_of(outcome),
            );
        }
        let response = match outcome {
            Ok(response) => response,
            Err(error) => {
                return Err(error);
            },
        };
        let values = match self.decode_exact(response.payload.as_slice(), length) {
            Ok(values) => values,
            Err(error) => {
                return Err(error);
            },
        };
        let output = match self.store_new(values.as_slice()) {
            Ok(output) => output,
            Err(error) => {
                return Err(error);
            },
        };
        let world: u32 = self.world_size();
        let steps: u32 = if world == 0 {
            0
        } else {
            world - 1
        };
        let bytes: usize = saturating_add_usize(
            self.link.execution.buffer_bytes(input),
            response.payload.len(),
        );
        let stats = self.stats(CollectiveAlgorithm::Direct, steps, bytes, 0);
        Ok((output, stats))
    }

    fn all_to_all_pairwise(&mut self, input: &D::Buffer, ring_channels: usize) -> (result: Result<
        (D::Buffer, CollectiveStats),
        D::Error,
    >)
        requires
            old(self).model().valid(),
            ring_channels > 0,
            multiple_of(D::values(input).len() as int, old(self).model().world()),
        ensures
            *final(final(self).link) == *final(old(self).link),
            final(self).model() == old(self).model(),
            final(self).next() == (if final(self).standing().log == old(self).standing().log {
                old(self).next()
            } else {
                old(self).next().wrapping_add(1)
            }),
            asked(
                old(self).standing().faults,
                final(self).standing().faults,
                |call: DeviceCall| call.handles_part(D::values(input).len() as int),
            ),
            performed::<T, D, (Seq<T>, CollectiveStats)>(
                all_to_all_pairwise_script::<T, D>(
                    old(self).model(),
                    D::values(input),
                    old(self).next(),
                    ring_channels as int,
                ),
                "pairwise all-to-all"@,
                pairwise_scope(old(self).model(), D::values(input).len() as int),
                old(self).standing(),
                final(self).standing(),
                new_buffer::<T, D>(result),
            ),
    {
        let ghost before = self.standing();
        let ghost model = self.model();
        let ghost values = D::values(input);
        let ghost script = all_to_all_pairwise_script::<T, D>(
            model,
            values,
            self.next(),
            ring_channels as int,
        );
        proof {
            lemma_start(script, before.log);
        }
        let world_size: u32 = self.world_size();
        let world: usize = world_size as usize;
        let length: usize = self.link.execution.buffer_len(input);
        let shard: usize = length / world;
        proof {
            lemma_fundamental_div_mod(length as int, world as int);
        }
        let tuning = self.tuning;
        let position: usize = match self.ring_position(tuning.ring_order.as_slice()) {
            Ok(position) => position,
            Err(error) => {
                return Err(error);
            },
        };
        let mut output = match self.link.execution.allocate(length) {
            Ok(output) => output,
            Err(error) => {
                return Err(error);
            },
        };
        let rank: usize = self.rank() as usize;
        let ghost counts = uniform(shard, world as int);
        proof {
            lemma_place_in_ring(model.tuning.ring_order, position as int);
            lemma_uniform(shard, world as int, rank as int);
            lemma_uniform(shard, world as int, world as int);
            assert(counts.take(world as int) =~= counts);
            assert(world * shard == length);
            lemma_rows_apart(counts, rank as int, rank as int);
        }
        let own: usize = rank * shard;
        let local = match self.link.execution.copy_bytes_from_device_at(input, own, shard) {
            Ok(local) => local,
            Err(error) => {
                return Err(error);
            },
        };
        proof {
            lemma_bytes_fit(length as int, own as int, shard as int, D::ELEMENT_SIZE as int);
        }
        match self.link.execution.copy_bytes_to_device_at(&mut output, own, local.as_slice()) {
            Ok(()) => {},
            Err(error) => {
                return Err(error);
            },
        }
        let ghost row = values.subrange(own as int, own + shard);
        let ghost rows = own_row_only(model.place.rank, model.world(), row);
        proof {
            assert(D::values(&output).subrange(own as int, own + shard) =~= row);
        }
        let operation: u64 = self.link.internal_sequence;
        self.link.internal_sequence = operation.wrapping_add(1);
        let channels: usize = self.effective_ring_channels(ring_channels, shard);
        let outcome = self.ring_agreement(operation, length, 0x400, channels);
        let ghost mid = self.standing();
        proof {
            lemma_part(
                script,
                before,
                before,
                mid,
                model.ring_agreement(operation, length as int, 0x400, channels as int),
                false,
                pairwise_agreed::<T, D>(model, values, shard, channels as int, operation),
                outcome,
            );
        }
        match outcome {
            Ok(()) => {},
            Err(error) => {
                return Err(error);
            },
        }
        let mut shares: Vec<usize> = Vec::new();
        let mut starts: Vec<usize> = Vec::new();
        let mut index: usize = 0;
        while index < world
            invariant
                index <= world,
                counts == uniform(shard, world as int),
                world * shard == length,
                shares@ == counts.take(index as int),
                starts@.len() == index,
                forall|i: int| 0 <= i < index ==> #[trigger] starts@[i] == offset_of(counts, i),
            decreases world - index,
        {
            proof {
                lemma_uniform(shard, world as int, index as int);
                assert(index * shard <= world * shard) by (nonlinear_arith)
                    requires
                        index < world,
                ;
            }
            shares.push(shard);
            starts.push(index * shard);
            assert(shares@ =~= counts.take(index + 1));
            index = index + 1;
        }
        let mut held_output: Option<D::Buffer> = Some(output);
        assert(shares@ =~= counts);
        let outcome = self.pairwise_steps(
            input,
            &mut held_output,
            position,
            shares.as_slice(),
            starts.as_slice(),
            shares.as_slice(),
            starts.as_slice(),
            channels,
            operation,
            0,
            0,
            "pairwise all-to-all",
            "pairwise all-to-all transferred bytes",
            Ghost(rows),
        );
        proof {
            lemma_performed_part::<T, D, (Seq<T>, int), (Seq<T>, CollectiveStats)>(
                script,
                "pairwise all-to-all"@,
                own_row_apart(counts, model.place.rank, true),
                pairwise_scope(model, length as int),
                before,
                mid,
                self.standing(),
                pairwise_script::<T, D>(
                    model,
                    shard_plan(model, shard, channels as int, operation),
                    values,
                    position as int,
                    1,
                    rows,
                    0,
                ),
                pairwise_finished::<T, D>(model),
                laid_result::<T, D>(outcome, held_output),
            );
        }
        let bytes: usize = match outcome {
            Ok(bytes) => bytes,
            Err(error) => {
                return Err(error);
            },
        };
        let stats = self.stats(CollectiveAlgorithm::Pairwise, world_size - 1, bytes, 0);
        Ok((held_output.unwrap(), stats))
    }

    pub fn all_to_all(&mut self, input: &D::Buffer) -> (result: Result<
        (D::Buffer, CollectiveStats),
        D::Error,
    >)
        requires
            old(self).model().valid(),
        ensures
            *final(final(self).link) == *final(old(self).link),
            final(self).model() == old(self).model(),
            final(self).next() == (if old(self).model().algorithm(
                CollectiveKind::AllToAll,
                D::values(input).len() * D::ELEMENT_SIZE,
            ) != CollectiveAlgorithm::Pairwise || final(self).standing().log == old(
                self,
            ).standing().log {
                old(self).next()
            } else {
                old(self).next().wrapping_add(1)
            }),
            asked(
                old(self).standing().faults,
                final(self).standing().faults,
                |call: DeviceCall|
                    call.handles_whole(D::values(input).len() as int)
                    || call.handles_part(D::values(input).len() as int),
            ),
            performed::<T, D, (Seq<T>, CollectiveStats)>(
                all_to_all_script::<T, D>(old(self).model(), D::values(input), old(self).next()),
                "pairwise all-to-all"@,
                all_to_all_scope(
                    old(self).model(),
                    D::values(input).len() as int,
                    D::ELEMENT_SIZE as int,
                ),
                old(self).standing(),
                final(self).standing(),
                new_buffer::<T, D>(result),
            ),
    {
        proof {
            lemma_start(
                all_to_all_script::<T, D>(self.model(), D::values(input), self.next()),
                self.standing().log,
            );
        }
        let length: usize = self.link.execution.buffer_len(input);
        if !is_multiple_of(length, self.world_size() as usize) {
            return Err(
                from_rank(
                    RankError::InvalidLength(
                        "TCP all-to-all input length must be divisible by world size",
                    ),
                ),
            );
        }
        let bytes: usize = self.link.execution.buffer_bytes(input);
        let plan = self.tuning.plan(CollectiveKind::AllToAll, bytes);
        proof {
            self.model().lemma_plan_channels(CollectiveKind::AllToAll, bytes);
        }
        if plan.algorithm == CollectiveAlgorithm::Pairwise && self.world_size() > 1 {
            return self.all_to_all_pairwise(input, plan.ring_channels);
        }
        self.all_to_all_direct(input)
    }

    fn all_to_all_v_direct(&mut self, input: &D::Buffer, send_counts: &[usize]) -> (result: Result<
        (VariableCollectiveOutput<D::Buffer>, CollectiveStats),
        D::Error,
    >)
        requires
            old(self).model().valid(),
        ensures
            *final(final(self).link) == *final(old(self).link),
            final(self).model() == old(self).model(),
            final(self).next() == old(self).next(),
            asked(
                old(self).standing().faults,
                final(self).standing().faults,
                |call: DeviceCall| call.fits_whole(),
            ),
            conversed(
                all_to_all_v_direct_script::<T, D>(
                    old(self).model(),
                    D::values(input),
                    send_counts@,
                ),
                old(self).standing(),
                final(self).standing(),
                variable_output::<T, D>(result),
                false,
            ),
    {
        let ghost before = self.standing();
        let ghost model = self.model();
        let ghost script = all_to_all_v_direct_script::<T, D>(
            model,
            D::values(input),
            send_counts@,
        );
        proof {
            lemma_start(script, before.log);
        }
        let mut payload = match encode_counts(send_counts) {
            Ok(payload) => payload,
            Err(error) => {
                return Err(from_rank(error));
            },
        };
        let values = match self.link.execution.copy_from_device(input) {
            Ok(values) => values,
            Err(error) => {
                return Err(error);
            },
        };
        let mut elements = D::encode(values.as_slice());
        payload.append(&mut elements);
        let ghost sent = counts_bytes(send_counts@) + D::encoding(D::values(input));
        assert(payload@ =~= sent);
        let request_bytes: usize = payload.len();
        let length: usize = self.link.execution.buffer_len(input);
        let options = ExchangeOptions {
            root_rank: ANY_RANK,
            element_count: length as u64,
            flags: FLAG_COUNTS_PREFIX,
            tag: 0,
        };
        let outcome = self.exchange_direct(Opcode::AllToAllV, options, payload);
        proof {
            lemma_part(
                script,
                before,
                before,
                self.standing(),
                exchange_script(model.element_type, Opcode::AllToAllV, options, sent),
                false,
                all_to_all_v_answered::<T, D>(model, sent.len() as int),
                frame_of(outcome),
            );
        }
        let response = match outcome {
            Ok(response) => response,
            Err(error) => {
                return Err(error);
            },
        };
        let world: u32 = self.world_size();
        let (counts, data) = match decode_counts_response(
            &response,
            world as usize,
            D::ELEMENT_SIZE,
        ) {
            Ok(decoded) => decoded,
            Err(error) => {
                return Err(from_rank(error));
            },
        };
        assert(counts@ =~= received_counts(response.payload@, world as int));
        let output_length: usize = match checked_sum(counts.as_slice()) {
            Some(output_length) => output_length,
            None => {
                return Err(from_rank(RankError::Overflow("TCP all-to-all-v receive count")));
            },
        };
        let buffer = if output_length == 0 {
            assert(0 * D::ELEMENT_SIZE == 0) by (nonlinear_arith);
            if data.len() != 0 {
                return Err(
                    from_network(
                        NetworkError::invalid("zero-length all-to-all-v response contains data"),
                    ),
                );
            }
            None
        } else {
            let values = match self.decode_exact(data, output_length) {
                Ok(values) => values,
                Err(error) => {
                    return Err(error);
                },
            };
            match self.store_new(values.as_slice()) {
                Ok(output) => Some(output),
                Err(error) => {
                    return Err(error);
                },
            }
        };
        let bytes: usize = saturating_add_usize(request_bytes, response.payload.len());
        let stats = self.stats(CollectiveAlgorithm::Direct, world - 1, bytes, 0);
        Ok((VariableCollectiveOutput { buffer, counts }, stats))
    }

    /// Learns how many elements come from each rank.
    fn exchange_counts(
        &mut self,
        send_counts: &[usize],
        position: usize,
        operation: u64,
    ) -> (result: Result<(Vec<usize>, usize), D::Error>)
        requires
            old(self).model().valid(),
            position < old(self).model().world(),
            old(self).model().tuning.ring_order[position as int] == old(self).model().place.rank,
            send_counts@.len() == old(self).model().world(),
        ensures
            *final(final(self).link) == *final(old(self).link),
            final(self).model() == old(self).model(),
            final(self).next() == old(self).next(),
            result is Ok ==> {
                &&& result->Ok_0.0@.len() == old(self).model().world()
                &&& result->Ok_0.0@[old(self).model().place.rank as int] == send_counts@[old(
                    self,
                ).model().place.rank as int]
            },
            final(self).standing().faults == old(self).standing().faults,
            conversed(
                counts_script(
                    old(self).model(),
                    send_counts@,
                    operation,
                    1,
                    own_count_only(old(self).model(), send_counts@),
                    0,
                ),
                old(self).standing(),
                final(self).standing(),
                learnt_counts(result),
                false,
            ),
    {
        let ghost before = self.standing();
        let ghost model = self.model();
        let ghost own = own_count_only(model, send_counts@);
        let ghost script = counts_script::<D::Error>(model, send_counts@, operation, 1, own, 0);
        let ghost ring = model.tuning.ring_order;
        let tuning = self.tuning;
        let world: usize = self.world_size() as usize;
        let rank: usize = self.rank() as usize;
        proof {
            lemma_start(script, before.log);
            lemma_place_in_ring(ring, position as int);
        }
        let mut counts: Vec<usize> = Vec::new();
        let mut index: usize = 0;
        while index < world
            invariant
                index <= world,
                world == model.world(),
                rank == model.place.rank,
                send_counts@.len() == world,
                own == own_count_only(model, send_counts@),
                counts@ == own.take(index as int),
            decreases world - index,
        {
            let count: usize = if index == rank {
                send_counts[index]
            } else {
                0
            };
            counts.push(count);
            assert(counts@ =~= own.take(index + 1));
            index = index + 1;
        }
        assert(counts@ =~= own);
        let mut bytes: usize = 0;
        let mut step: usize = 1;
        while step < world
            invariant
                1 <= step <= world,
                position < world,
                world == model.world(),
                rank == model.place.rank,
                model.valid(),
                tuning@ == model.tuning,
                ring == model.tuning.ring_order,
                ring[position as int] == rank,
                ring.index_of(model.place.rank) == position,
                send_counts@.len() == world,
                counts@.len() == world,
                counts@[rank as int] == send_counts@[rank as int],
                before == old(self).standing(),
                model == old(self).model(),
                own == own_count_only(model, send_counts@),
                script == counts_script::<D::Error>(model, send_counts@, operation, 1, own, 0),
                self.model() == model,
                self.next() == old(self).next(),
                *final(self.link) == *final(old(self).link),
                self.standing().faults == before.faults,
                followed(script, before.log, self.standing().log),
                reached(script, before.log, self.standing().log) == counts_script::<D::Error>(
                    model,
                    send_counts@,
                    operation,
                    step as int,
                    counts@,
                    bytes as int,
                ),
            decreases world - step,
        {
            let to: usize = ahead(position, step, world);
            let from: usize = back(position, step, world);
            let destination: u32 = tuning.ring_order[to];
            let source: u32 = tuning.ring_order[from];
            proof {
                if position >= step {
                    lemma_small_mod((position - step) as nat, world as nat);
                } else {
                    lemma_mod_add_multiples_vanish(position - step, world as int);
                    lemma_small_mod((position - step + world) as nat, world as nat);
                }
                assert(from != position);
                assert(source != rank);
            }
            let encoded = u64_to_le_bytes(send_counts[destination as usize] as u64);
            proof {
                lemma_auto_spec_u64_to_from_le_bytes();
            }
            let ghost told = encoded@;
            let ghost mid = self.standing();
            let tag: u64 = ring_data_tag(operation, 0, 0, step);
            let outcome = self.exchange_host_payload(
                ElementType::U8,
                encoded,
                8,
                destination,
                source,
                0,
                tag,
            );
            proof {
                lemma_part(
                    script,
                    before,
                    mid,
                    self.standing(),
                    host_payload_script(
                        model.rails,
                        ElementType::U8,
                        told,
                        8,
                        destination,
                        source,
                        0,
                        tag,
                    ),
                    false,
                    counts_next::<D::Error>(
                        model,
                        send_counts@,
                        operation,
                        step as int,
                        counts@,
                        bytes as int,
                    ),
                    received_bytes(outcome),
                );
            }
            let received = match outcome {
                Ok(received) => received,
                Err(error) => {
                    return Err(error);
                },
            };
            let count: u64 = u64_from_le_bytes(received.as_slice());
            if count > usize::MAX as u64 {
                return Err(from_rank(RankError::Overflow("pairwise all-to-all-v receive count")));
            }
            counts.set(source as usize, count as usize);
            bytes = match bytes.checked_add(16) {
                Some(total) => total,
                None => {
                    return Err(
                        from_rank(RankError::Overflow("pairwise all-to-all-v transferred bytes")),
                    );
                },
            };
            step = step + 1;
        }
        Ok((counts, bytes))
    }

    pub fn all_to_all_v_pairwise(
        &mut self,
        input: &D::Buffer,
        send_counts: &[usize],
        ring_channels: usize,
    ) -> (result: Result<(VariableCollectiveOutput<D::Buffer>, CollectiveStats), D::Error>)
        requires
            old(self).model().valid(),
            send_counts@.len() == old(self).model().world(),
            sum_usize(send_counts@) == D::values(input).len() <= usize::MAX,
        ensures
            *final(final(self).link) == *final(old(self).link),
            final(self).model() == old(self).model(),
            final(self).next() == old(self).next().wrapping_add(1),
            asked(
                old(self).standing().faults,
                final(self).standing().faults,
                |call: DeviceCall| call.fits() && call.in_bytes(),
            ),
            performed::<T, D, VariableModel<T>>(
                all_to_all_v_pairwise_script::<T, D>(
                    old(self).model(),
                    D::values(input),
                    send_counts@,
                    old(self).next(),
                    ring_channels as int,
                ),
                "pairwise all-to-all-v"@,
                pairwise_v_scope(old(self).model(), send_counts@),
                old(self).standing(),
                final(self).standing(),
                variable_output::<T, D>(result),
            ),
    {
        let ghost before = self.standing();
        let ghost model = self.model();
        let ghost values = D::values(input);
        let ghost script = all_to_all_v_pairwise_script::<T, D>(
            model,
            values,
            send_counts@,
            self.next(),
            ring_channels as int,
        );
        proof {
            lemma_start(script, before.log);
            crate::rank::topology::rings::lemma_ring_holds_all(
                model.place.world_size,
                model.tuning.ring_order,
                model.place.rank,
            );
        }
        let world_size: u32 = self.world_size();
        let tuning = self.tuning;
        let position: usize = match self.ring_position(tuning.ring_order.as_slice()) {
            Ok(position) => position,
            Err(error) => {
                return Err(error);
            },
        };
        let rank: usize = self.rank() as usize;
        proof {
            lemma_place_in_ring(model.tuning.ring_order, position as int);
        }
        let operation: u64 = self.link.internal_sequence;
        self.link.internal_sequence = operation.wrapping_add(1);
        let channels: usize = if ring_channels < 1 {
            1
        } else {
            ring_channels
        };
        let outcome = self.ring_agreement(operation, 0, 0x500, channels);
        let ghost mid = self.standing();
        proof {
            lemma_part(
                script,
                before,
                before,
                mid,
                model.ring_agreement(operation, 0, 0x500, channels as int),
                false,
                pairwise_v_agreed::<T, D>(
                    model,
                    values,
                    send_counts@,
                    channels as int,
                    operation,
                ),
                outcome,
            );
        }
        match outcome {
            Ok(()) => {},
            Err(error) => {
                return Err(error);
            },
        }
        let outcome = self.exchange_counts(send_counts, position, operation);
        let ghost told = self.standing();
        proof {
            lemma_part(
                script,
                before,
                mid,
                told,
                counts_script(
                    model,
                    send_counts@,
                    operation,
                    1,
                    own_count_only(model, send_counts@),
                    0,
                ),
                false,
                pairwise_v_counted::<T, D>(
                    model,
                    values,
                    send_counts@,
                    channels as int,
                    operation,
                ),
                learnt_counts(outcome),
            );
        }
        let (counts, count_bytes) = match outcome {
            Ok(learnt) => learnt,
            Err(error) => {
                return Err(error);
            },
        };
        let send_offsets = match prefix_offsets(send_counts) {
            Ok(offsets) => offsets,
            Err(error) => {
                return Err(from_rank(error));
            },
        };
        let receive_offsets = match prefix_offsets(counts.as_slice()) {
            Ok(offsets) => offsets,
            Err(error) => {
                return Err(from_rank(error));
            },
        };
        let output_length: usize = match checked_sum(counts.as_slice()) {
            Some(output_length) => output_length,
            None => {
                return Err(from_rank(RankError::Overflow("pairwise all-to-all-v receive count")));
            },
        };
        let mut output: Option<D::Buffer> = if output_length == 0 {
            None
        } else {
            match self.link.execution.allocate(output_length) {
                Ok(output) => Some(output),
                Err(error) => {
                    return Err(error);
                },
            }
        };
        let own_count: usize = send_counts[rank];
        let ghost own = offset_of(send_counts@, rank as int);
        let ghost row = values.subrange(own, own + own_count);
        let ghost rows = own_row_only(model.place.rank, model.world(), row);
        proof {
            lemma_rows_apart(send_counts@, rank as int, rank as int);
            lemma_rows_apart(counts@, rank as int, rank as int);
        }
        if own_count != 0 {
            let local = match self.link.execution.copy_bytes_from_device_at(
                input,
                send_offsets[rank],
                own_count,
            ) {
                Ok(local) => local,
                Err(error) => {
                    return Err(error);
                },
            };
            proof {
                lemma_bytes_fit(
                    output_length as int,
                    receive_offsets@[rank as int] as int,
                    own_count as int,
                    D::ELEMENT_SIZE as int,
                );
            }
            match &mut output {
                Some(buffer) => {
                    match self.link.execution.copy_bytes_to_device_at(
                        buffer,
                        receive_offsets[rank],
                        local.as_slice(),
                    ) {
                        Ok(()) => {},
                        Err(error) => {
                            return Err(error);
                        },
                    }
                },
                None => {},
            }
        }
        proof {
            let at = offset_of(counts@, rank as int);
            assert(held::<T, D>(output).subrange(at, at + own_count) =~= row);
        }
        let outcome = self.pairwise_steps(
            input,
            &mut output,
            position,
            send_counts,
            send_offsets.as_slice(),
            counts.as_slice(),
            receive_offsets.as_slice(),
            channels,
            operation,
            1,
            count_bytes,
            "pairwise all-to-all-v",
            "pairwise all-to-all-v transferred bytes",
            Ghost(rows),
        );
        proof {
            lemma_performed_part::<T, D, (Seq<T>, int), VariableModel<T>>(
                script,
                "pairwise all-to-all-v"@,
                own_row_apart(send_counts@, model.place.rank, true),
                pairwise_v_scope(model, send_counts@),
                before,
                told,
                self.standing(),
                pairwise_script::<T, D>(
                    model,
                    variable_plan(send_counts@, counts@, channels as int, operation),
                    values,
                    position as int,
                    1,
                    rows,
                    count_bytes as int,
                ),
                pairwise_v_finished::<T, D>(model, counts@),
                laid_result::<T, D>(outcome, output),
            );
        }
        let bytes: usize = match outcome {
            Ok(bytes) => bytes,
            Err(error) => {
                return Err(error);
            },
        };
        let twice: u64 = 2 * (world_size as u64 - 1);
        #[verifier::truncate]
        let steps: u32 = twice as u32;
        let stats = self.stats(CollectiveAlgorithm::Pairwise, steps, bytes, 0);
        Ok((VariableCollectiveOutput { buffer: output, counts }, stats))
    }

    pub fn all_to_all_v(&mut self, input: &D::Buffer, send_counts: &[usize]) -> (result: Result<
        (VariableCollectiveOutput<D::Buffer>, CollectiveStats),
        D::Error,
    >)
        requires
            old(self).model().valid(),
        ensures
            *final(final(self).link) == *final(old(self).link),
            final(self).model() == old(self).model(),
            final(self).next() == (if old(self).model().algorithm(
                CollectiveKind::AllToAll,
                D::values(input).len() * D::ELEMENT_SIZE,
            ) != CollectiveAlgorithm::Pairwise || send_counts@.len() != old(self).model().world()
                || sum_usize(send_counts@) != D::values(input).len() {
                old(self).next()
            } else {
                old(self).next().wrapping_add(1)
            }),
            asked(
                old(self).standing().faults,
                final(self).standing().faults,
                |call: DeviceCall| call.fits_whole() || call.fits() && call.in_bytes(),
            ),
            performed::<T, D, VariableModel<T>>(
                all_to_all_v_script::<T, D>(
                    old(self).model(),
                    D::values(input),
                    send_counts@,
                    old(self).next(),
                ),
                "pairwise all-to-all-v"@,
                all_to_all_v_scope(
                    old(self).model(),
                    send_counts@,
                    D::values(input).len() as int,
                    D::ELEMENT_SIZE as int,
                ),
                old(self).standing(),
                final(self).standing(),
                variable_output::<T, D>(result),
            ),
    {
        proof {
            lemma_start(
                all_to_all_v_script::<T, D>(
                    self.model(),
                    D::values(input),
                    send_counts@,
                    self.next(),
                ),
                self.standing().log,
            );
        }
        let length: usize = self.link.execution.buffer_len(input);
        if send_counts.len() != self.world_size() as usize {
            return Err(
                from_rank(
                    RankError::InvalidLength(
                        "TCP all-to-all-v send_counts must have one entry per rank",
                    ),
                ),
            );
        }
        let send_total: usize = match checked_sum(send_counts) {
            Some(send_total) => send_total,
            None => {
                return Err(from_rank(RankError::Overflow("TCP all-to-all-v send count")));
            },
        };
        if send_total != length {
            return Err(
                from_rank(
                    RankError::InvalidLength(
                        "TCP all-to-all-v send_counts do not sum to input length",
                    ),
                ),
            );
        }
        let bytes: usize = self.link.execution.buffer_bytes(input);
        let plan = self.tuning.plan(CollectiveKind::AllToAll, bytes);
        if plan.algorithm == CollectiveAlgorithm::Pairwise && self.world_size() > 1 {
            return self.all_to_all_v_pairwise(input, send_counts, plan.ring_channels);
        }
        self.all_to_all_v_direct(input, send_counts)
    }
}

} // verus!

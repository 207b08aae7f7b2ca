//! Reductions, by the algorithm that the tuning's plan picks.

use crate::math::{is_multiple_of, multiple_of, saturate_usize, saturating_add_usize};
use crate::rank::device::{asked, DeviceCall, RankDevice};
use crate::rank::device_collective::direct::{exchange_script, frame_of, rooted_buffer, scope_of};
use crate::rank::device_collective::hierarchical::all_reduce::all_reduce_hierarchical_script;
use crate::rank::device_collective::hierarchical::leaders_scope;
use crate::rank::device_collective::hierarchical::reduce_scatter::reduce_scatter_hierarchical_script;
use crate::rank::device_collective::reduce_scatter::{new_buffer, reduce_scatter_ring_script};
use crate::rank::device_collective::reduction::concatenated;
use crate::rank::device_collective::ring::{all_reduce_ring_script, in_place};
use crate::rank::device_collective::{
    conversed, from_network, from_rank, lemma_part, performed, refused_at_once, CollectiveModel,
    DeviceCollective,
};
use crate::rank::error::RankError;
use crate::rank::host::exchange::{other_ranks, reduction_options, root_defect, stats_of};
use crate::rank::network::NetworkError;
use crate::rank::operation::ReductionOperation;
use crate::rank::protocol::frame::FrameModel;
use crate::rank::protocol::{Opcode, ANY_RANK};
use crate::rank::script::{
    bad_length, bad_reply, fails, lemma_start, tried, yields, Failure, Script,
};
use crate::rank::stats::CollectiveStats;
use crate::rank::tags::reduction_exchange_options;
use crate::rank::topology::{CollectiveKind, TopologyError};
use crate::rank::transport::RankTransport;
use crate::rank::CollectiveAlgorithm;
use vstd::arithmetic::div_mod::*;
use vstd::prelude::*;

verus! {

/// What a response of every rank's elements is worth; `sent` bytes went out.
pub open spec fn reduced_answer<T, D: RankDevice<T>>(
    model: CollectiveModel,
    frame: FrameModel,
    length: int,
    sent: int,
    reduce: spec_fn(T, T) -> T,
) -> Script<(Seq<T>, CollectiveStats), D::Error> {
    match concatenated::<T, D>(frame.payload, length, model.world(), reduce) {
        Err(failure) => fails(failure),
        Ok((values, launches)) => yields(
            (
                values,
                stats_of(
                    model.place,
                    CollectiveAlgorithm::Direct,
                    other_ranks(model.place),
                    saturate_usize(sent + frame.payload.len()) as int,
                    launches as int,
                ),
            ),
        ),
    }
}

pub open spec fn reduced_answered<T, D: RankDevice<T>>(
    model: CollectiveModel,
    length: int,
    sent: int,
    reduce: spec_fn(T, T) -> T,
) -> spec_fn(FrameModel) -> Script<(Seq<T>, CollectiveStats), D::Error> {
    |frame: FrameModel| reduced_answer::<T, D>(model, frame, length, sent, reduce)
}

/// The script of a reduction through the coordinator whose result has `length`
/// elements.
pub open spec fn reduction_direct_script<T, D: RankDevice<T>>(
    model: CollectiveModel,
    opcode: Opcode,
    values: Seq<T>,
    length: int,
    operation: ReductionOperation,
    reduce: spec_fn(T, T) -> T,
) -> Script<(Seq<T>, CollectiveStats), D::Error> {
    tried(
        exchange_script(
            model.element_type,
            opcode,
            reduction_options(ANY_RANK, values.len() as int, operation),
            D::encoding(values),
        ),
        false,
        reduced_answered::<T, D>(model, length, D::encoding(values).len() as int, reduce),
    )
}

/// The script of an all-reduce.
pub open spec fn all_reduce_script<T, D: RankDevice<T>>(
    model: CollectiveModel,
    values: Seq<T>,
    sequence: u64,
    operation: ReductionOperation,
    reduce: spec_fn(T, T) -> T,
) -> Script<(Seq<T>, CollectiveStats), D::Error> {
    let bytes = values.len() * D::ELEMENT_SIZE;
    let channels = model.channels(CollectiveKind::AllReduce, bytes);
    match model.algorithm(CollectiveKind::AllReduce, bytes) {
        CollectiveAlgorithm::Hierarchical => all_reduce_hierarchical_script::<T, D>(
            model,
            values,
            sequence,
            operation,
            channels,
            reduce,
        ),
        CollectiveAlgorithm::Ring => all_reduce_ring_script::<T, D>(
            model,
            values,
            sequence,
            operation,
            channels,
            reduce,
        ),
        _ => reduction_direct_script::<T, D>(
            model,
            Opcode::AllReduce,
            values,
            values.len() as int,
            operation,
            reduce,
        ),
    }
}

/// What an all-reduce's channels are called.
pub open spec fn all_reduce_label(algorithm: CollectiveAlgorithm) -> Seq<char> {
    match algorithm {
        CollectiveAlgorithm::Hierarchical => "hierarchical all-reduce"@,
        _ => "ring all-reduce"@,
    }
}

pub open spec fn reduce_answered<T, D: RankDevice<T>>(
    model: CollectiveModel,
    length: int,
    sent: int,
    root: u32,
    reduce: spec_fn(T, T) -> T,
) -> spec_fn(FrameModel) -> Script<(Option<Seq<T>>, CollectiveStats), D::Error> {
    |frame: FrameModel|
        if model.place.rank == root {
            match concatenated::<T, D>(frame.payload, length, model.world(), reduce) {
                Err(failure) => fails(failure),
                Ok((values, launches)) => yields(
                    (
                        Some(values),
                        stats_of(
                            model.place,
                            CollectiveAlgorithm::Direct,
                            other_ranks(model.place),
                            saturate_usize(sent + frame.payload.len()) as int,
                            launches as int,
                        ),
                    ),
                ),
            }
        } else if frame.payload.len() != 0 {
            fails(bad_reply("non-root reduce response contains data"@))
        } else {
            yields(
                (
                    None,
                    stats_of(
                        model.place,
                        CollectiveAlgorithm::Direct,
                        other_ranks(model.place),
                        sent,
                        0,
                    ),
                ),
            )
        }
}

/// The script of a reduce: only the root is answered with data.
pub open spec fn reduce_script<T, D: RankDevice<T>>(
    model: CollectiveModel,
    values: Seq<T>,
    root: u32,
    operation: ReductionOperation,
    reduce: spec_fn(T, T) -> T,
) -> Script<(Option<Seq<T>>, CollectiveStats), D::Error> {
    match root_defect(model.place, root) {
        Some(defect) => fails(Failure::Rank(defect)),
        None => tried(
            exchange_script(
                model.element_type,
                Opcode::Reduce,
                reduction_options(root, values.len() as int, operation),
                D::encoding(values),
            ),
            false,
            reduce_answered::<T, D>(
                model,
                values.len() as int,
                D::encoding(values).len() as int,
                root,
                reduce,
            ),
        ),
    }
}

/// The script of a reduce-scatter: each rank gets its share of the result.
pub open spec fn reduce_scatter_script<T, D: RankDevice<T>>(
    model: CollectiveModel,
    values: Seq<T>,
    sequence: u64,
    operation: ReductionOperation,
    reduce: spec_fn(T, T) -> T,
) -> Script<(Seq<T>, CollectiveStats), D::Error> {
    let bytes = values.len() * D::ELEMENT_SIZE;
    let channels = model.channels(CollectiveKind::ReduceScatter, bytes);
    let share = values.len() as int / model.world();
    if !multiple_of(values.len() as int, model.world()) {
        fails(bad_length("TCP reduce-scatter input length must be divisible by world size"@))
    } else {
        match model.algorithm(CollectiveKind::ReduceScatter, bytes) {
            CollectiveAlgorithm::Hierarchical => reduce_scatter_hierarchical_script::<T, D>(
                model,
                values,
                share,
                sequence,
                operation,
                channels,
                reduce,
            ),
            CollectiveAlgorithm::Ring => reduce_scatter_ring_script::<T, D>(
                model,
                values,
                share,
                sequence,
                operation,
                channels,
                reduce,
            ),
            _ => reduction_direct_script::<T, D>(
                model,
                Opcode::ReduceScatter,
                values,
                share,
                operation,
                reduce,
            ),
        }
    }
}

/// What a reduce-scatter's channels are called.
pub open spec fn reduce_scatter_label(algorithm: CollectiveAlgorithm) -> Seq<char> {
    match algorithm {
        CollectiveAlgorithm::Hierarchical => "hierarchical reduce-scatter"@,
        _ => "ring reduce-scatter"@,
    }
}

impl CollectiveModel {
    /// The next internal operation after a collective, where `spoke` says whether
    /// a call was made. A collective through the coordinator takes none.
    pub open spec fn next_after(
        self,
        algorithm: CollectiveAlgorithm,
        next: u64,
        spoke: bool,
    ) -> u64 {
        let taken = match algorithm {
            CollectiveAlgorithm::Hierarchical => self.membership_defect() is None,
            CollectiveAlgorithm::Ring => spoke,
            _ => false,
        };
        if taken {
            next.wrapping_add(1)
        } else {
            next
        }
    }
}

impl<'a, T, D: RankDevice<T>, S: RankTransport> DeviceCollective<'a, T, D, S> where
    D::Error: From<RankError> + From<NetworkError> + From<TopologyError>,
 {
    fn all_reduce_direct(
        &mut self,
        buffer: &mut D::Buffer,
        operation: ReductionOperation,
        function: &D::Kernel,
    ) -> (result: Result<CollectiveStats, D::Error>)
        requires
            old(self).model().place.world_size > 0,
        ensures
            *final(final(self).link) == *final(old(self).link),
            final(self).model() == old(self).model(),
            final(self).next() == old(self).next(),
            D::values(&*final(buffer)).len() == D::values(&*old(buffer)).len(),
            result is Err && refused_at_once(old(self).standing(), final(self).standing())
                ==> D::values(&*final(buffer)) == D::values(&*old(buffer)),
            asked(
                old(self).standing().faults,
                final(self).standing().faults,
                |call: DeviceCall|
                    call.handles_whole(D::values(&*old(buffer)).len() as int)
                    || call.handles_part(D::values(&*old(buffer)).len() as int),
            ),
            conversed(
                reduction_direct_script::<T, D>(
                    old(self).model(),
                    Opcode::AllReduce,
                    D::values(&*old(buffer)),
                    D::values(&*old(buffer)).len() as int,
                    operation,
                    D::reduction(function),
                ),
                old(self).standing(),
                final(self).standing(),
                in_place::<T, D>(result, D::values(&*final(buffer))),
                false,
            ),
    {
        let ghost before = self.standing();
        let ghost model = self.model();
        let ghost reduce = D::reduction(function);
        let ghost held = D::values(&*buffer);
        let ghost script = reduction_direct_script::<T, D>(
            model,
            Opcode::AllReduce,
            held,
            held.len() as int,
            operation,
            reduce,
        );
        proof {
            lemma_start(script, before.log);
        }
        let values = match self.link.execution.copy_from_device(&*buffer) {
            Ok(values) => values,
            Err(error) => {
                return Err(error);
            },
        };
        let payload = D::encode(values.as_slice());
        let request_bytes: usize = payload.len();
        let length: usize = self.link.execution.buffer_len(&*buffer);
        let options = reduction_exchange_options(ANY_RANK, length, operation.code());
        let outcome = self.exchange_direct(Opcode::AllReduce, options, payload);
        proof {
            lemma_part(
                script,
                before,
                before,
                self.standing(),
                exchange_script(
                    model.element_type,
                    Opcode::AllReduce,
                    options,
                    D::encoding(held),
                ),
                false,
                reduced_answered::<T, D>(model, length as int, request_bytes as int, reduce),
                frame_of(outcome),
            );
        }
        let response = match outcome {
            Ok(response) => response,
            Err(error) => {
                return Err(error);
            },
        };
        let launches: u32 = match self.reduce_concatenated(
            response.payload.as_slice(),
            buffer,
            length,
            function,
        ) {
            Ok(launches) => launches,
            Err(error) => {
                return Err(error);
            },
        };
        let steps: u32 = self.world_size() - 1;
        let bytes: usize = saturating_add_usize(request_bytes, response.payload.len());
        Ok(self.stats(CollectiveAlgorithm::Direct, steps, bytes, launches))
    }

    fn reduce_scatter_direct(
        &mut self,
        input: &D::Buffer,
        output_length: usize,
        operation: ReductionOperation,
        function: &D::Kernel,
    ) -> (result: Result<(D::Buffer, CollectiveStats), D::Error>)
        requires
            old(self).model().place.world_size > 0,
        ensures
            *final(final(self).link) == *final(old(self).link),
            final(self).model() == old(self).model(),
            final(self).next() == old(self).next(),
            asked(
                old(self).standing().faults,
                final(self).standing().faults,
                |call: DeviceCall|
                    call.handles_whole(D::values(input).len() as int)
                    || call.handles_whole(output_length as int)
                    || call.handles_part(output_length as int),
            ),
            conversed(
                reduction_direct_script::<T, D>(
                    old(self).model(),
                    Opcode::ReduceScatter,
                    D::values(input),
                    output_length as int,
                    operation,
                    D::reduction(function),
                ),
                old(self).standing(),
                final(self).standing(),
                new_buffer::<T, D>(result),
                false,
            ),
    {
        let ghost before = self.standing();
        let ghost model = self.model();
        let ghost reduce = D::reduction(function);
        let ghost held = D::values(input);
        let ghost script = reduction_direct_script::<T, D>(
            model,
            Opcode::ReduceScatter,
            held,
            output_length as int,
            operation,
            reduce,
        );
        proof {
            lemma_start(script, before.log);
        }
        let values = match self.link.execution.copy_from_device(input) {
            Ok(values) => values,
            Err(error) => {
                return Err(error);
            },
        };
        let payload = D::encode(values.as_slice());
        let request_bytes: usize = payload.len();
        let length: usize = self.link.execution.buffer_len(input);
        let options = reduction_exchange_options(ANY_RANK, length, operation.code());
        let outcome = self.exchange_direct(Opcode::ReduceScatter, options, payload);
        proof {
            lemma_part(
                script,
                before,
                before,
                self.standing(),
                exchange_script(
                    model.element_type,
                    Opcode::ReduceScatter,
                    options,
                    D::encoding(held),
                ),
                false,
                reduced_answered::<T, D>(
                    model,
                    output_length as int,
                    request_bytes as int,
                    reduce,
                ),
                frame_of(outcome),
            );
        }
        let response = match outcome {
            Ok(response) => response,
            Err(error) => {
                return Err(error);
            },
        };
        let mut output = match self.link.execution.allocate(output_length) {
            Ok(output) => output,
            Err(error) => {
                return Err(error);
            },
        };
        let launches: u32 = match self.reduce_concatenated(
            response.payload.as_slice(),
            &mut output,
            output_length,
            function,
        ) {
            Ok(launches) => launches,
            Err(error) => {
                return Err(error);
            },
        };
        let steps: u32 = self.world_size() - 1;
        let bytes: usize = saturating_add_usize(request_bytes, response.payload.len());
        let stats = self.stats(CollectiveAlgorithm::Direct, steps, bytes, launches);
        Ok((output, stats))
    }

    pub fn all_reduce(
        &mut self,
        buffer: &mut D::Buffer,
        operation: ReductionOperation,
        function: &D::Kernel,
    ) -> (result: Result<CollectiveStats, D::Error>)
        requires
            old(self).model().valid(),
        ensures
            *final(final(self).link) == *final(old(self).link),
            final(self).model() == old(self).model(),
            D::values(&*final(buffer)).len() == D::values(&*old(buffer)).len(),
            result is Err && refused_at_once(old(self).standing(), final(self).standing())
                ==> D::values(&*final(buffer)) == D::values(&*old(buffer)),
            final(self).next() == old(self).model().next_after(
                old(self).model().algorithm(
                    CollectiveKind::AllReduce,
                    D::values(&*old(buffer)).len() * D::ELEMENT_SIZE,
                ),
                old(self).next(),
                true,
            ),
            asked(
                old(self).standing().faults,
                final(self).standing().faults,
                |call: DeviceCall|
                    call.handles_whole(D::values(&*old(buffer)).len() as int)
                    || call.handles_part(D::values(&*old(buffer)).len() as int),
            ),
            performed::<T, D, (Seq<T>, CollectiveStats)>(
                all_reduce_script::<T, D>(
                    old(self).model(),
                    D::values(&*old(buffer)),
                    old(self).next(),
                    operation,
                    D::reduction(function),
                ),
                all_reduce_label(
                    old(self).model().algorithm(
                        CollectiveKind::AllReduce,
                        D::values(&*old(buffer)).len() * D::ELEMENT_SIZE,
                    ),
                ),
                scope_of(
                    old(self).model().algorithm(
                        CollectiveKind::AllReduce,
                        D::values(&*old(buffer)).len() * D::ELEMENT_SIZE,
                    ),
                    leaders_scope(old(self).model(), false),
                ),
                old(self).standing(),
                final(self).standing(),
                in_place::<T, D>(result, D::values(&*final(buffer))),
            ),
    {
        proof {
            lemma_start(
                all_reduce_script::<T, D>(
                    self.model(),
                    D::values(&*buffer),
                    self.next(),
                    operation,
                    D::reduction(function),
                ),
                self.standing().log,
            );
        }
        if self.world_size() > 1 {
            let bytes: usize = self.link.execution.buffer_bytes(&*buffer);
            let plan = self.tuning.plan(CollectiveKind::AllReduce, bytes);
            proof {
                self.model().lemma_plan_channels(CollectiveKind::AllReduce, bytes);
            }
            match plan.algorithm {
                CollectiveAlgorithm::Hierarchical => {
                    return self.all_reduce_hierarchical(
                        buffer,
                        operation,
                        function,
                        plan.ring_channels,
                    );
                },
                CollectiveAlgorithm::Ring => {
                    return self.all_reduce_ring(buffer, operation, function, plan.ring_channels);
                },
                _ => {},
            }
        }
        self.all_reduce_direct(buffer, operation, function)
    }

    pub fn reduce(
        &mut self,
        input: &D::Buffer,
        root: u32,
        operation: ReductionOperation,
        function: &D::Kernel,
    ) -> (result: Result<(Option<D::Buffer>, CollectiveStats), D::Error>)
        ensures
            *final(final(self).link) == *final(old(self).link),
            final(self).model() == old(self).model(),
            final(self).next() == old(self).next(),
            asked(
                old(self).standing().faults,
                final(self).standing().faults,
                |call: DeviceCall|
                    call.handles_whole(D::values(input).len() as int)
                    || call.handles_part(D::values(input).len() as int),
            ),
            conversed(
                reduce_script::<T, D>(
                    old(self).model(),
                    D::values(input),
                    root,
                    operation,
                    D::reduction(function),
                ),
                old(self).standing(),
                final(self).standing(),
                rooted_buffer::<T, D>(result),
                false,
            ),
    {
        let ghost before = self.standing();
        let ghost model = self.model();
        let ghost reduce = D::reduction(function);
        let ghost script = reduce_script::<T, D>(model, D::values(input), root, operation, reduce);
        proof {
            lemma_start(script, before.log);
        }
        match self.validate_root(root) {
            Ok(()) => {},
            Err(error) => {
                return Err(error);
            },
        }
        let values = match self.link.execution.copy_from_device(input) {
            Ok(values) => values,
            Err(error) => {
                return Err(error);
            },
        };
        let payload = D::encode(values.as_slice());
        let request_bytes: usize = payload.len();
        let length: usize = self.link.execution.buffer_len(input);
        let options = reduction_exchange_options(root, length, operation.code());
        let outcome = self.exchange_direct(Opcode::Reduce, options, payload);
        proof {
            lemma_part(
                script,
                before,
                before,
                self.standing(),
                exchange_script(
                    model.element_type,
                    Opcode::Reduce,
                    options,
                    D::encoding(D::values(input)),
                ),
                false,
                reduce_answered::<T, D>(
                    model,
                    length as int,
                    request_bytes as int,
                    root,
                    reduce,
                ),
                frame_of(outcome),
            );
        }
        let response = match outcome {
            Ok(response) => response,
            Err(error) => {
                return Err(error);
            },
        };
        let steps: u32 = self.world_size() - 1;
        let bytes: usize = saturating_add_usize(request_bytes, response.payload.len());
        if self.rank() == root {
            let mut output = match self.link.execution.allocate(length) {
                Ok(output) => output,
                Err(error) => {
                    return Err(error);
                },
            };
            let launches: u32 = match self.reduce_concatenated(
                response.payload.as_slice(),
                &mut output,
                length,
                function,
            ) {
                Ok(launches) => launches,
                Err(error) => {
                    return Err(error);
                },
            };
            let stats = self.stats(CollectiveAlgorithm::Direct, steps, bytes, launches);
            Ok((Some(output), stats))
        } else {
            if response.payload.len() != 0 {
                return Err(
                    from_network(NetworkError::invalid("non-root reduce response contains data")),
                );
            }
            let stats = self.stats(CollectiveAlgorithm::Direct, steps, bytes, 0);
            Ok((None, stats))
        }
    }
}

impl<'a, T: Copy, D: RankDevice<T>, S: RankTransport> DeviceCollective<'a, T, D, S> where
    D::Error: From<RankError> + From<NetworkError> + From<TopologyError>,
 {
    pub fn reduce_scatter(
        &mut self,
        input: &D::Buffer,
        operation: ReductionOperation,
        function: &D::Kernel,
    ) -> (result: Result<(D::Buffer, CollectiveStats), D::Error>)
        requires
            old(self).model().valid(),
        ensures
            *final(final(self).link) == *final(old(self).link),
            final(self).model() == old(self).model(),
            final(self).next() == (if multiple_of(
                D::values(input).len() as int,
                old(self).model().world(),
            ) {
                old(self).model().next_after(
                    old(self).model().algorithm(
                        CollectiveKind::ReduceScatter,
                        D::values(input).len() * D::ELEMENT_SIZE,
                    ),
                    old(self).next(),
                    final(self).standing().log != old(self).standing().log,
                )
            } else {
                old(self).next()
            }),
            asked(
                old(self).standing().faults,
                final(self).standing().faults,
                |call: DeviceCall|
                    call.handles_whole(D::values(input).len() as int)
                    || call.handles_part(D::values(input).len() as int)
                    || call.handles_whole(D::values(input).len() as int / old(self).model().world())
                    || call.handles_run(D::values(input).len() as int),
            ),
            performed::<T, D, (Seq<T>, CollectiveStats)>(
                reduce_scatter_script::<T, D>(
                    old(self).model(),
                    D::values(input),
                    old(self).next(),
                    operation,
                    D::reduction(function),
                ),
                reduce_scatter_label(
                    old(self).model().algorithm(
                        CollectiveKind::ReduceScatter,
                        D::values(input).len() * D::ELEMENT_SIZE,
                    ),
                ),
                scope_of(
                    old(self).model().algorithm(
                        CollectiveKind::ReduceScatter,
                        D::values(input).len() * D::ELEMENT_SIZE,
                    ),
                    leaders_scope(old(self).model(), true),
                ),
                old(self).standing(),
                final(self).standing(),
                new_buffer::<T, D>(result),
            ),
    {
        let ghost model = self.model();
        let ghost held = D::values(input);
        proof {
            lemma_start(
                reduce_scatter_script::<T, D>(
                    model,
                    held,
                    self.next(),
                    operation,
                    D::reduction(function),
                ),
                self.standing().log,
            );
        }
        let length: usize = self.link.execution.buffer_len(input);
        let world: usize = self.world_size() as usize;
        if !is_multiple_of(length, world) {
            return Err(
                from_rank(
                    RankError::InvalidLength(
                        "TCP reduce-scatter input length must be divisible by world size",
                    ),
                ),
            );
        }
        let output_length: usize = length / world;
        proof {
            lemma_fundamental_div_mod(length as int, world as int);
            assert(output_length * world == world * output_length) by (nonlinear_arith);
        }
        if world > 1 {
            let bytes: usize = self.link.execution.buffer_bytes(input);
            let plan = self.tuning.plan(CollectiveKind::ReduceScatter, bytes);
            proof {
                self.model().lemma_plan_channels(CollectiveKind::ReduceScatter, bytes);
            }
            match plan.algorithm {
                CollectiveAlgorithm::Hierarchical => {
                    return self.reduce_scatter_hierarchical(
                        input,
                        output_length,
                        operation,
                        function,
                        plan.ring_channels,
                    );
                },
                CollectiveAlgorithm::Ring => {
                    return self.reduce_scatter_ring(
                        input,
                        output_length,
                        operation,
                        function,
                        plan.ring_channels,
                    );
                },
                _ => {},
            }
        }
        self.reduce_scatter_direct(input, output_length, operation, function)
    }
}

} // verus!

//! Collectives through the coordinator.

use crate::math::{saturate_usize, saturating_add_usize};
use crate::rank::device::{asked, refused, DeviceCall, RankDevice};
use crate::rank::device_collective::all_gather::all_gather_ring_script;
use crate::rank::device_collective::hierarchical::all_gather::all_gather_hierarchical_script;
use crate::rank::device_collective::reduce_scatter::new_buffer;
use crate::rank::device_collective::ring::in_place;
use crate::rank::device_collective::{
    conversed, exactly, from_network, from_rank, lemma_part, performed, CollectiveModel,
    DeviceCollective, Scope,
};
use crate::rank::error::RankError;
use crate::rank::host::exchange::{one_step, root_defect, stats_of};
use crate::rank::network::{ExchangeOptions, NetworkError};
use crate::rank::protocol::frame::FrameModel;
use crate::rank::protocol::{ElementType, Frame, Opcode, ANY_RANK};
use crate::rank::script::{
    bad_length, bad_reply, fails, lemma_asked, lemma_start, too_large, tried, yields, Failure,
    Script, TransportCall, TransportReply,
};
use crate::rank::stats::CollectiveStats;
use crate::rank::topology::{CollectiveKind, TopologyError};
use crate::rank::transport::RankTransport;
use crate::rank::CollectiveAlgorithm;
use vstd::prelude::*;

verus! {

/// The script of one exchange through the coordinator.
pub open spec fn exchange_script<E>(
    element_type: ElementType,
    opcode: Opcode,
    options: ExchangeOptions,
    payload: Seq<u8>,
) -> Script<FrameModel, E> {
    Script::Ask(
        TransportCall::Exchange { opcode, element_type, options, payload },
        |reply: TransportReply|
            match reply.frame() {
                Err(failure) => fails(Failure::Network(failure)),
                Ok(frame) => yields(frame),
            },
    )
}

/// The envelope of a plain exchange.
pub open spec fn plain_options(root: u32, element_count: int) -> ExchangeOptions {
    ExchangeOptions { root_rank: root, element_count: element_count as u64, flags: 0, tag: 0 }
}

pub open spec fn frame_of<E>(result: Result<Frame, E>) -> Result<FrameModel, E> {
    match result {
        Ok(frame) => Ok(frame@),
        Err(error) => Err(error),
    }
}

pub open spec fn broadcast_answered<T, D: RankDevice<T>>(
    model: CollectiveModel,
    length: int,
) -> spec_fn(FrameModel) -> Script<(Seq<T>, CollectiveStats), D::Error> {
    |frame: FrameModel|
        match exactly::<T, D>(frame.payload, length) {
            Err(failure) => fails(failure),
            Ok(values) => yields(
                (
                    values,
                    stats_of(
                        model.place,
                        CollectiveAlgorithm::Direct,
                        one_step(model.place),
                        length * D::ELEMENT_SIZE,
                        0,
                    ),
                ),
            ),
        }
}

/// The script of a broadcast: the root's values come back to every rank.
pub open spec fn broadcast_script<T, D: RankDevice<T>>(
    model: CollectiveModel,
    values: Seq<T>,
    root: u32,
) -> Script<(Seq<T>, CollectiveStats), D::Error> {
    match root_defect(model.place, root) {
        Some(defect) => fails(Failure::Rank(defect)),
        None => tried(
            exchange_script(
                model.element_type,
                Opcode::Broadcast,
                plain_options(root, values.len() as int),
                if model.place.rank == root {
                    D::encoding(values)
                } else {
                    Seq::empty()
                },
            ),
            false,
            broadcast_answered::<T, D>(model, values.len() as int),
        ),
    }
}

/// What an exchange that brings `length` elements is worth; `sent` bytes went
/// out.
pub open spec fn answered_with<T, D: RankDevice<T>>(
    model: CollectiveModel,
    frame: FrameModel,
    length: int,
    sent: int,
    steps: int,
    too_long: Seq<char>,
) -> Script<(Seq<T>, CollectiveStats), D::Error> {
    if length > usize::MAX {
        fails(too_large(too_long))
    } else {
        match exactly::<T, D>(frame.payload, length) {
            Err(failure) => fails(failure),
            Ok(values) => yields(
                (
                    values,
                    stats_of(
                        model.place,
                        CollectiveAlgorithm::Direct,
                        steps,
                        saturate_usize(sent + frame.payload.len()) as int,
                        0,
                    ),
                ),
            ),
        }
    }
}

pub open spec fn all_gather_answered<T, D: RankDevice<T>>(
    model: CollectiveModel,
    length: int,
) -> spec_fn(FrameModel) -> Script<(Seq<T>, CollectiveStats), D::Error> {
    |frame: FrameModel|
        answered_with::<T, D>(
            model,
            frame,
            length * model.world(),
            length * D::ELEMENT_SIZE,
            one_step(model.place),
            "TCP all-gather output length"@,
        )
}

/// The script of an all-gather through the coordinator.
pub open spec fn all_gather_direct_script<T, D: RankDevice<T>>(
    model: CollectiveModel,
    values: Seq<T>,
) -> Script<(Seq<T>, CollectiveStats), D::Error> {
    tried(
        exchange_script(
            model.element_type,
            Opcode::AllGather,
            plain_options(ANY_RANK, values.len() as int),
            D::encoding(values),
        ),
        false,
        all_gather_answered::<T, D>(model, values.len() as int),
    )
}

impl CollectiveModel {
    /// The algorithm that runs a collective of `bytes` payload bytes.
    pub open spec fn algorithm(self, kind: CollectiveKind, bytes: int) -> CollectiveAlgorithm {
        if self.place.world_size > 1 {
            self.tuning.plan(kind, bytes as usize).algorithm
        } else {
            CollectiveAlgorithm::Direct
        }
    }

    /// The channels that it uses.
    pub open spec fn channels(self, kind: CollectiveKind, bytes: int) -> int {
        self.tuning.plan(kind, bytes as usize).ring_channels as int
    }
}

/// The script of an all-gather: the tuning's plan picks the algorithm.
pub open spec fn all_gather_script<T, D: RankDevice<T>>(
    model: CollectiveModel,
    values: Seq<T>,
    operation: u64,
) -> Script<(Seq<T>, CollectiveStats), D::Error> {
    let bytes = values.len() * D::ELEMENT_SIZE;
    let channels = model.channels(CollectiveKind::AllGather, bytes);
    match model.algorithm(CollectiveKind::AllGather, bytes) {
        CollectiveAlgorithm::Hierarchical => all_gather_hierarchical_script::<T, D>(
            model,
            values,
            operation,
            channels,
        ),
        CollectiveAlgorithm::Ring => all_gather_ring_script::<T, D>(
            model,
            values,
            operation,
            channels,
        ),
        _ => all_gather_direct_script::<T, D>(model, values),
    }
}

/// What an all-gather's channels are called.
pub open spec fn all_gather_label(algorithm: CollectiveAlgorithm) -> Seq<char> {
    match algorithm {
        CollectiveAlgorithm::Hierarchical => "hierarchical all-gather"@,
        _ => "ring all-gather"@,
    }
}

/// Where a collective that has several algorithms works on the device. `leaders`
/// is the scope of its hierarchical one.
pub open spec fn scope_of(algorithm: CollectiveAlgorithm, leaders: Scope) -> Scope {
    match algorithm {
        CollectiveAlgorithm::Ring => Scope::Ring { agreed: false },
        CollectiveAlgorithm::Hierarchical => leaders,
        _ => Scope::Outside,
    }
}

pub open spec fn gather_answered<T, D: RankDevice<T>>(
    model: CollectiveModel,
    length: int,
    root: u32,
) -> spec_fn(FrameModel) -> Script<(Option<Seq<T>>, CollectiveStats), D::Error> {
    |frame: FrameModel|
        if model.place.rank == root {
            tried(
                answered_with::<T, D>(
                    model,
                    frame,
                    length * model.world(),
                    length * D::ELEMENT_SIZE,
                    one_step(model.place),
                    "TCP gather output length"@,
                ),
                false,
                at_root::<T, D>(),
            )
        } else if frame.payload.len() != 0 {
            fails(bad_reply("non-root gather response contains data"@))
        } else {
            yields(
                (
                    None,
                    stats_of(
                        model.place,
                        CollectiveAlgorithm::Direct,
                        one_step(model.place),
                        length * D::ELEMENT_SIZE,
                        0,
                    ),
                ),
            )
        }
}

pub open spec fn at_root<T, D: RankDevice<T>>() -> spec_fn((Seq<T>, CollectiveStats)) -> Script<
    (Option<Seq<T>>, CollectiveStats),
    D::Error,
> {
    |answer: (Seq<T>, CollectiveStats)| yields((Some(answer.0), answer.1))
}

/// The script of a gather: only the root is answered with data.
pub open spec fn gather_script<T, D: RankDevice<T>>(
    model: CollectiveModel,
    values: Seq<T>,
    root: u32,
) -> Script<(Option<Seq<T>>, CollectiveStats), D::Error> {
    match root_defect(model.place, root) {
        Some(defect) => fails(Failure::Rank(defect)),
        None => tried(
            exchange_script(
                model.element_type,
                Opcode::Gather,
                plain_options(root, values.len() as int),
                D::encoding(values),
            ),
            false,
            gather_answered::<T, D>(model, values.len() as int, root),
        ),
    }
}

pub open spec fn scatter_answered<T, D: RankDevice<T>>(
    model: CollectiveModel,
    output_length: int,
    sent: int,
) -> spec_fn(FrameModel) -> Script<(Seq<T>, CollectiveStats), D::Error> {
    |frame: FrameModel|
        answered_with::<T, D>(
            model,
            frame,
            output_length,
            sent,
            one_step(model.place),
            ""@,
        )
}

/// Why a rank's part in a scatter is refused, if it is.
pub open spec fn scatter_defect<T, E>(
    model: CollectiveModel,
    input: Option<Seq<T>>,
    root: u32,
    output_length: int,
) -> Option<Failure<E>> {
    let total = output_length * model.world();
    match root_defect(model.place, root) {
        Some(defect) => Some(Failure::Rank(defect)),
        None => if total > usize::MAX {
            Some(too_large("TCP scatter input length"@))
        } else if model.place.rank == root {
            match input {
                None => Some(bad_length("TCP scatter root must provide the input buffer"@)),
                Some(values) => if values.len() != total {
                    Some(bad_length("TCP scatter root input has the wrong length"@))
                } else {
                    None
                },
            }
        } else if input is Some {
            Some(bad_length("non-root TCP scatter rank cannot provide the input buffer"@))
        } else {
            None
        },
    }
}

/// The script of a scatter: the root's values are shared out.
pub open spec fn scatter_script<T, D: RankDevice<T>>(
    model: CollectiveModel,
    input: Option<Seq<T>>,
    root: u32,
    output_length: int,
) -> Script<(Seq<T>, CollectiveStats), D::Error> {
    match scatter_defect::<T, D::Error>(model, input, root, output_length) {
        Some(failure) => fails(failure),
        None => tried(
            exchange_script(
                model.element_type,
                Opcode::Scatter,
                plain_options(root, output_length * model.world()),
                match input {
                    Some(values) => D::encoding(values),
                    None => Seq::empty(),
                },
            ),
            false,
            scatter_answered::<T, D>(
                model,
                output_length,
                match input {
                    Some(values) => values.len() * D::ELEMENT_SIZE,
                    None => 0,
                },
            ),
        ),
    }
}

/// What a collective to a root left there, and its statistics.
pub open spec fn rooted_buffer<T, D: RankDevice<T>>(
    result: Result<(Option<D::Buffer>, CollectiveStats), D::Error>,
) -> Result<(Option<Seq<T>>, CollectiveStats), D::Error> {
    match result {
        Ok((Some(buffer), stats)) => Ok((Some(D::values(&buffer)), stats)),
        Ok((None, stats)) => Ok((None, stats)),
        Err(error) => Err(error),
    }
}

pub open spec fn input_values<T, D: RankDevice<T>>(input: Option<&D::Buffer>) -> Option<Seq<T>> {
    match input {
        Some(buffer) => Some(D::values(buffer)),
        None => None,
    }
}

impl<'a, T, D: RankDevice<T>, S: RankTransport> DeviceCollective<'a, T, D, S> where
    D::Error: From<RankError> + From<NetworkError> + From<TopologyError>,
 {
    /// One exchange through the coordinator.
    pub(crate) fn exchange_direct(
        &mut self,
        opcode: Opcode,
        options: ExchangeOptions,
        payload: Vec<u8>,
    ) -> (result: Result<Frame, D::Error>)
        ensures
            *final(final(self).link) == *final(old(self).link),
            final(self).model() == old(self).model(),
            final(self).next() == old(self).next(),
            final(self).standing().faults == old(self).standing().faults,
            conversed(
                exchange_script(old(self).model().element_type, opcode, options, payload@),
                old(self).standing(),
                final(self).standing(),
                frame_of(result),
                false,
            ),
    {
        let ghost before = self.standing();
        let ghost script = exchange_script::<D::Error>(
            self.element_type,
            opcode,
            options,
            payload@,
        );
        proof {
            lemma_start(script, before.log);
        }
        let element_type = self.element_type;
        let reply = self.link.session.exchange_with_options(
            opcode,
            element_type,
            options,
            payload,
        );
        proof {
            lemma_asked(script, before.log, before.log, self.link.session.log().last());
        }
        match reply {
            Ok(frame) => Ok(frame),
            Err(error) => Err(from_network(error)),
        }
    }

    /// A new buffer that holds the values.
    pub(crate) fn store_new(&mut self, values: &[T]) -> (result: Result<D::Buffer, D::Error>)
        ensures
            *final(final(self).link) == *final(old(self).link),
            final(self).model() == old(self).model(),
            final(self).next() == old(self).next(),
            final(self).standing().log == old(self).standing().log,
            match result {
                Ok(buffer) => {
                    &&& final(self).standing().faults == old(self).standing().faults
                    &&& D::values(&buffer) == values@
                },
                Err(error) => {
                    &&& refused(
                        old(self).standing().faults,
                        final(self).standing().faults,
                        error,
                    )
                    &&& final(self).standing().faults.last().call.handles_whole(
                        values@.len() as int,
                    )
                },
            },
    {
        let mut buffer = match self.link.execution.allocate(values.len()) {
            Ok(buffer) => buffer,
            Err(error) => {
                return Err(error);
            },
        };
        match self.link.execution.copy_to_device(&mut buffer, values) {
            Ok(()) => Ok(buffer),
            Err(error) => Err(error),
        }
    }

    pub fn broadcast(&mut self, buffer: &mut D::Buffer, root: u32) -> (result: Result<
        CollectiveStats,
        D::Error,
    >)
        ensures
            *final(final(self).link) == *final(old(self).link),
            final(self).model() == old(self).model(),
            final(self).next() == old(self).next(),
            asked(
                old(self).standing().faults,
                final(self).standing().faults,
                |call: DeviceCall| call.handles_whole(D::values(&*old(buffer)).len() as int),
            ),
            conversed(
                broadcast_script::<T, D>(old(self).model(), D::values(&*old(buffer)), root),
                old(self).standing(),
                final(self).standing(),
                in_place::<T, D>(result, D::values(&*final(buffer))),
                false,
            ),
            result is Err && final(self).standing().faults == old(self).standing().faults
                ==> D::values(&*final(buffer)) == D::values(&*old(buffer)),
    {
        let ghost before = self.standing();
        let ghost model = self.model();
        let ghost held = D::values(&*buffer);
        let ghost script = broadcast_script::<T, D>(model, held, root);
        proof {
            lemma_start(script, before.log);
        }
        match self.validate_root(root) {
            Ok(()) => {},
            Err(error) => {
                return Err(error);
            },
        }
        let length: usize = self.link.execution.buffer_len(&*buffer);
        let payload = if self.rank() == root {
            match self.link.execution.copy_from_device(&*buffer) {
                Ok(values) => D::encode(values.as_slice()),
                Err(error) => {
                    return Err(error);
                },
            }
        } else {
            Vec::new()
        };
        let options = ExchangeOptions::new(root, length as u64);
        let ghost sent = payload@;
        let outcome = self.exchange_direct(Opcode::Broadcast, options, payload);
        proof {
            lemma_part(
                script,
                before,
                before,
                self.standing(),
                exchange_script(model.element_type, Opcode::Broadcast, options, sent),
                false,
                broadcast_answered::<T, D>(model, length as int),
                frame_of(outcome),
            );
        }
        let response = match outcome {
            Ok(response) => response,
            Err(error) => {
                return Err(error);
            },
        };
        let values = match self.decode_exact(response.payload.as_slice(), length) {
            Ok(values) => values,
            Err(error) => {
                return Err(error);
            },
        };
        match self.link.execution.copy_to_device(buffer, values.as_slice()) {
            Ok(()) => {},
            Err(error) => {
                assert(self.standing().faults.len() == before.faults.len() + 1);
                return Err(error);
            },
        }
        let steps: u32 = if self.world_size() > 1 {
            1
        } else {
            0
        };
        let bytes: usize = self.link.execution.buffer_bytes(&*buffer);
        Ok(self.stats(CollectiveAlgorithm::Direct, steps, bytes, 0))
    }

    fn all_gather_direct(&mut self, input: &D::Buffer) -> (result: Result<
        (D::Buffer, CollectiveStats),
        D::Error,
    >)
        ensures
            *final(final(self).link) == *final(old(self).link),
            final(self).model() == old(self).model(),
            final(self).next() == old(self).next(),
            asked(
                old(self).standing().faults,
                final(self).standing().faults,
                |call: DeviceCall|
                    call.handles_whole(D::values(input).len() as int)
                    || call.handles_whole(D::values(input).len() * old(self).model().world()),
            ),
            conversed(
                all_gather_direct_script::<T, D>(old(self).model(), D::values(input)),
                old(self).standing(),
                final(self).standing(),
                new_buffer::<T, D>(result),
                false,
            ),
    {
        let ghost before = self.standing();
        let ghost model = self.model();
        let ghost script = all_gather_direct_script::<T, D>(model, D::values(input));
        proof {
            lemma_start(script, before.log);
        }
        let values = match self.link.execution.copy_from_device(input) {
            Ok(values) => values,
            Err(error) => {
                return Err(error);
            },
        };
        let payload = D::encode(values.as_slice());
        let length: usize = self.link.execution.buffer_len(input);
        let options = ExchangeOptions::new(ANY_RANK, length as u64);
        let outcome = self.exchange_direct(Opcode::AllGather, options, payload);
        proof {
            lemma_part(
                script,
                before,
                before,
                self.standing(),
                exchange_script(
                    model.element_type,
                    Opcode::AllGather,
                    options,
                    D::encoding(D::values(input)),
                ),
                false,
                all_gather_answered::<T, D>(model, length as int),
                frame_of(outcome),
            );
        }
        let response = match outcome {
            Ok(response) => response,
            Err(error) => {
                return Err(error);
            },
        };
        let output_length: usize = match length.checked_mul(self.world_size() as usize) {
            Some(output_length) => output_length,
            None => {
                return Err(from_rank(RankError::Overflow("TCP all-gather output length")));
            },
        };
        let values = match self.decode_exact(response.payload.as_slice(), output_length) {
            Ok(values) => values,
            Err(error) => {
                return Err(error);
            },
        };
        let output = match self.store_new(values.as_slice()) {
            Ok(output) => output,
            Err(error) => {
                return Err(error);
            },
        };
        let steps: u32 = if self.world_size() > 1 {
            1
        } else {
            0
        };
        let bytes: usize = saturating_add_usize(
            self.link.execution.buffer_bytes(input),
            response.payload.len(),
        );
        let stats = self.stats(CollectiveAlgorithm::Direct, steps, bytes, 0);
        Ok((output, stats))
    }

    pub fn gather(&mut self, input: &D::Buffer, root: u32) -> (result: Result<
        (Option<D::Buffer>, CollectiveStats),
        D::Error,
    >)
        ensures
            *final(final(self).link) == *final(old(self).link),
            final(self).model() == old(self).model(),
            final(self).next() == old(self).next(),
            asked(
                old(self).standing().faults,
                final(self).standing().faults,
                |call: DeviceCall|
                    call.handles_whole(D::values(input).len() as int)
                    || call.handles_whole(D::values(input).len() * old(self).model().world()),
            ),
            conversed(
                gather_script::<T, D>(old(self).model(), D::values(input), root),
                old(self).standing(),
                final(self).standing(),
                rooted_buffer::<T, D>(result),
                false,
            ),
    {
        let ghost before = self.standing();
        let ghost model = self.model();
        let ghost script = gather_script::<T, D>(model, D::values(input), root);
        proof {
            lemma_start(script, before.log);
        }
        match self.validate_root(root) {
            Ok(()) => {},
            Err(error) => {
                return Err(error);
            },
        }
        let values = match self.link.execution.copy_from_device(input) {
            Ok(values) => values,
            Err(error) => {
                return Err(error);
            },
        };
        let payload = D::encode(values.as_slice());
        let length: usize = self.link.execution.buffer_len(input);
        let options = ExchangeOptions::new(root, length as u64);
        let outcome = self.exchange_direct(Opcode::Gather, options, payload);
        proof {
            lemma_part(
                script,
                before,
                before,
                self.standing(),
                exchange_script(
                    model.element_type,
                    Opcode::Gather,
                    options,
                    D::encoding(D::values(input)),
                ),
                false,
                gather_answered::<T, D>(model, length as int, root),
                frame_of(outcome),
            );
        }
        let response = match outcome {
            Ok(response) => response,
            Err(error) => {
                return Err(error);
            },
        };
        let steps: u32 = if self.world_size() > 1 {
            1
        } else {
            0
        };
        let sent: usize = self.link.execution.buffer_bytes(input);
        let bytes: usize = saturating_add_usize(sent, response.payload.len());
        if self.rank() == root {
            let output_length: usize = match length.checked_mul(self.world_size() as usize) {
                Some(output_length) => output_length,
                None => {
                    return Err(from_rank(RankError::Overflow("TCP gather output length")));
                },
            };
            let values = match self.decode_exact(response.payload.as_slice(), output_length) {
                Ok(values) => values,
                Err(error) => {
                    return Err(error);
                },
            };
            let output = match self.store_new(values.as_slice()) {
                Ok(output) => output,
                Err(error) => {
                    return Err(error);
                },
            };
            let stats = self.stats(CollectiveAlgorithm::Direct, steps, bytes, 0);
            Ok((Some(output), stats))
        } else {
            if response.payload.len() != 0 {
                return Err(
                    from_network(NetworkError::invalid("non-root gather response contains data")),
                );
            }
            let stats = self.stats(CollectiveAlgorithm::Direct, steps, bytes, 0);
            Ok((None, stats))
        }
    }

    pub fn scatter(
        &mut self,
        root_input: Option<&D::Buffer>,
        root: u32,
        output_length: usize,
    ) -> (result: Result<(D::Buffer, CollectiveStats), D::Error>)
        ensures
            *final(final(self).link) == *final(old(self).link),
            final(self).model() == old(self).model(),
            final(self).next() == old(self).next(),
            asked(
                old(self).standing().faults,
                final(self).standing().faults,
                |call: DeviceCall|
                    call.handles_whole(output_length as int)
                    || call.handles_whole(output_length * old(self).model().world()),
            ),
            conversed(
                scatter_script::<T, D>(
                    old(self).model(),
                    input_values::<T, D>(root_input),
                    root,
                    output_length as int,
                ),
                old(self).standing(),
                final(self).standing(),
                new_buffer::<T, D>(result),
                false,
            ),
    {
        let ghost before = self.standing();
        let ghost model = self.model();
        let ghost script = scatter_script::<T, D>(
            model,
            input_values::<T, D>(root_input),
            root,
            output_length as int,
        );
        proof {
            lemma_start(script, before.log);
        }
        match self.validate_root(root) {
            Ok(()) => {},
            Err(error) => {
                return Err(error);
            },
        }
        let total_length: usize = match output_length.checked_mul(self.world_size() as usize) {
            Some(total_length) => total_length,
            None => {
                return Err(from_rank(RankError::Overflow("TCP scatter input length")));
            },
        };
        let at_root = self.rank() == root;
        let (payload, sent) = match root_input {
            Some(input) => {
                if !at_root {
                    return Err(
                        from_rank(
                            RankError::InvalidLength(
                                "non-root TCP scatter rank cannot provide the input buffer",
                            ),
                        ),
                    );
                }
                if self.link.execution.buffer_len(input) != total_length {
                    return Err(
                        from_rank(
                            RankError::InvalidLength(
                                "TCP scatter root input has the wrong length",
                            ),
                        ),
                    );
                }
                let values = match self.link.execution.copy_from_device(input) {
                    Ok(values) => values,
                    Err(error) => {
                        return Err(error);
                    },
                };
                (D::encode(values.as_slice()), self.link.execution.buffer_bytes(input))
            },
            None => {
                if at_root {
                    return Err(
                        from_rank(
                            RankError::InvalidLength(
                                "TCP scatter root must provide the input buffer",
                            ),
                        ),
                    );
                }
                (Vec::new(), 0)
            },
        };
        let options = ExchangeOptions::new(root, total_length as u64);
        let ghost told = payload@;
        let outcome = self.exchange_direct(Opcode::Scatter, options, payload);
        proof {
            lemma_part(
                script,
                before,
                before,
                self.standing(),
                exchange_script(model.element_type, Opcode::Scatter, options, told),
                false,
                scatter_answered::<T, D>(model, output_length as int, sent as int),
                frame_of(outcome),
            );
        }
        let response = match outcome {
            Ok(response) => response,
            Err(error) => {
                return Err(error);
            },
        };
        let values = match self.decode_exact(response.payload.as_slice(), output_length) {
            Ok(values) => values,
            Err(error) => {
                return Err(error);
            },
        };
        let output = match self.store_new(values.as_slice()) {
            Ok(output) => output,
            Err(error) => {
                return Err(error);
            },
        };
        let steps: u32 = if self.world_size() > 1 {
            1
        } else {
            0
        };
        let bytes: usize = saturating_add_usize(sent, response.payload.len());
        let stats = self.stats(CollectiveAlgorithm::Direct, steps, bytes, 0);
        Ok((output, stats))
    }
}

impl<'a, T: Copy, D: RankDevice<T>, S: RankTransport> DeviceCollective<'a, T, D, S> where
    D::Error: From<RankError> + From<NetworkError> + From<TopologyError>,
 {
    pub fn all_gather(&mut self, input: &D::Buffer) -> (result: Result<
        (D::Buffer, CollectiveStats),
        D::Error,
    >)
        requires
            old(self).model().valid(),
        ensures
            *final(final(self).link) == *final(old(self).link),
            final(self).model() == old(self).model(),
            final(self).next() == old(self).model().next_after(
                old(self).model().algorithm(
                    CollectiveKind::AllGather,
                    D::values(input).len() * D::ELEMENT_SIZE,
                ),
                old(self).next(),
                final(self).standing().log != old(self).standing().log,
            ),
            asked(
                old(self).standing().faults,
                final(self).standing().faults,
                |call: DeviceCall|
                    call.handles_whole(D::values(input).len() as int)
                    || call.handles_whole(D::values(input).len() * old(self).model().world())
                    || call.handles_part(D::values(input).len() * old(self).model().world()),
            ),
            performed::<T, D, (Seq<T>, CollectiveStats)>(
                all_gather_script::<T, D>(old(self).model(), D::values(input), old(self).next()),
                all_gather_label(
                    old(self).model().algorithm(
                        CollectiveKind::AllGather,
                        D::values(input).len() * D::ELEMENT_SIZE,
                    ),
                ),
                scope_of(
                    old(self).model().algorithm(
                        CollectiveKind::AllGather,
                        D::values(input).len() * D::ELEMENT_SIZE,
                    ),
                    Scope::Outside,
                ),
                old(self).standing(),
                final(self).standing(),
                new_buffer::<T, D>(result),
            ),
    {
        if self.world_size() > 1 {
            let bytes: usize = self.link.execution.buffer_bytes(input);
            let plan = self.tuning.plan(CollectiveKind::AllGather, bytes);
            proof {
                self.model().lemma_plan_channels(CollectiveKind::AllGather, bytes);
            }
            match plan.algorithm {
                CollectiveAlgorithm::Hierarchical => {
                    return self.all_gather_hierarchical(input, plan.ring_channels);
                },
                CollectiveAlgorithm::Ring => {
                    return self.all_gather_ring(input, plan.ring_channels);
                },
                _ => {},
            }
        }
        self.all_gather_direct(input)
    }
}

} // verus!

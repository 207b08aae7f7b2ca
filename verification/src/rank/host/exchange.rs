//! Host-staged exchanges over a rank's transport.

use crate::math::{is_multiple_of, multiple_of};
use crate::rank::error::{RankError, RankFailure};
use crate::rank::network::{ExchangeOptions, NetworkFailure};
use crate::rank::operation::ReductionOperation;
use crate::rank::payload::{
    length_error, length_mismatch, validate_host_reduction_payload,
    validate_host_reduction_response,
};
use crate::rank::protocol::{ElementType, Opcode, ANY_RANK};
use crate::rank::script::{
    fails, followed, lemma_asked, lemma_start, reached, yields, Failure, Script, Stop,
    TransportCall, TransportEvent, TransportReply,
};
use crate::rank::stats::CollectiveStats;
use crate::rank::tags::reduction_exchange_options;
use crate::rank::transport::{barrier_call, barrier_outcome, RankPlace, RankTransport};
use crate::rank::{CollectiveAlgorithm, CollectiveTransport};
use vstd::prelude::*;
use vstd::slice::*;

verus! {

/// The statistics of a collective at a place.
pub open spec fn stats_of(
    place: RankPlace,
    algorithm: CollectiveAlgorithm,
    steps: int,
    bytes: int,
    launches: int,
) -> CollectiveStats {
    CollectiveStats {
        algorithm,
        transport: place.transport,
        steps: steps as u32,
        transferred_bytes: bytes as u64,
        reduction_kernel_launches: launches as u32,
    }
}

/// The steps of an exchange through the coordinator: one for each other rank.
pub open spec fn other_ranks(place: RankPlace) -> int {
    if place.world_size == 0 {
        0
    } else {
        place.world_size - 1
    }
}

/// One step where there is another rank at all.
pub open spec fn one_step(place: RankPlace) -> int {
    if place.world_size > 1 {
        1
    } else {
        0
    }
}

/// The envelope of a reduction: its tag names the operation.
pub open spec fn reduction_options(
    root: u32,
    element_count: int,
    operation: ReductionOperation,
) -> ExchangeOptions {
    ExchangeOptions {
        root_rank: root,
        element_count: element_count as u64,
        flags: 0,
        tag: (operation.spec_code() + 1) as u64,
    }
}

/// Why a reduction's payload is refused, if it is.
pub open spec fn payload_defect(
    element_type: ElementType,
    element_count: int,
    payload: Seq<u8>,
) -> Option<RankFailure> {
    let expected = element_count * element_type.width();
    if element_type.width() == 0 {
        Some(RankFailure::InvalidLength("host reduction requires a tensor element type"@))
    } else if expected > usize::MAX {
        Some(RankFailure::Overflow("host reduction payload bytes"@))
    } else if payload.len() != expected {
        Some(
            RankFailure::Network(
                NetworkFailure::InvalidConfiguration(
                    length_mismatch("host reduction payload"@, payload.len(), expected as nat),
                ),
            ),
        )
    } else {
        None
    }
}

/// What a reduction's response is worth: its payload, where it has the length
/// that is expected, and the exchange's statistics.
pub open spec fn reduction_response<E>(
    place: RankPlace,
    name: Seq<char>,
    sent: int,
    expected: int,
    response: TransportReply,
) -> Script<(Seq<u8>, CollectiveStats), E> {
    match response.frame() {
        Err(failure) => fails(Failure::Rank(RankFailure::Network(failure))),
        Ok(frame) => if expected > usize::MAX {
            fails(Failure::Rank(RankFailure::Overflow("host "@ + name + " response bytes"@)))
        } else if frame.payload.len() != expected {
            fails(
                Failure::Rank(
                    RankFailure::Network(
                        NetworkFailure::InvalidConfiguration(
                            length_mismatch(
                                "host "@ + name + " response"@,
                                frame.payload.len(),
                                expected as nat,
                            ),
                        ),
                    ),
                ),
            )
        } else if sent + expected > usize::MAX {
            fails(Failure::Rank(RankFailure::Overflow("host "@ + name + " transferred bytes"@)))
        } else {
            yields(
                (
                    frame.payload,
                    stats_of(
                        place,
                        CollectiveAlgorithm::Direct,
                        other_ranks(place),
                        sent + expected,
                        0,
                    ),
                ),
            )
        },
    }
}

/// The script of a reduction through the coordinator.
pub open spec fn reduction_script<E>(
    place: RankPlace,
    opcode: Opcode,
    name: Seq<char>,
    element_type: ElementType,
    element_count: int,
    root: u32,
    operation: ReductionOperation,
    payload: Seq<u8>,
    expected: int,
) -> Script<(Seq<u8>, CollectiveStats), E> {
    match payload_defect(element_type, element_count, payload) {
        Some(defect) => fails(Failure::Rank(defect)),
        None => Script::Ask(
            TransportCall::Exchange {
                opcode,
                element_type,
                options: reduction_options(root, element_count, operation),
                payload,
            },
            |reply: TransportReply|
                reduction_response(place, name, payload.len() as int, expected, reply),
        ),
    }
}

/// A root that the world does not have.
pub open spec fn root_defect(place: RankPlace, root: u32) -> Option<RankFailure> {
    if root >= place.world_size {
        Some(
            RankFailure::RankOutOfRange {
                rank: root as usize,
                world_size: place.world_size as usize,
            },
        )
    } else {
        None
    }
}

/// The script of a reduction to a root: only the root is answered with data.
pub open spec fn rooted_reduction_script<E>(
    place: RankPlace,
    element_type: ElementType,
    element_count: int,
    root: u32,
    operation: ReductionOperation,
    payload: Seq<u8>,
) -> Script<(Seq<u8>, CollectiveStats), E> {
    match root_defect(place, root) {
        Some(defect) => fails(Failure::Rank(defect)),
        None => reduction_script(
            place,
            Opcode::Reduce,
            "reduce"@,
            element_type,
            element_count,
            root,
            operation,
            payload,
            if place.rank == root {
                payload.len() * place.world_size
            } else {
                0
            },
        ),
    }
}

/// The script of a reduction whose result is shared out: the response holds
/// every rank's part for this one.
pub open spec fn scattered_reduction_script<E>(
    place: RankPlace,
    element_type: ElementType,
    element_count: int,
    operation: ReductionOperation,
    payload: Seq<u8>,
) -> Script<(Seq<u8>, CollectiveStats), E> {
    if !multiple_of(element_count, place.world_size as int) {
        fails(
            Failure::Rank(
                RankFailure::InvalidLength(
                    "host reduce-scatter input length must be divisible by world size"@,
                ),
            ),
        )
    } else {
        reduction_script(
            place,
            Opcode::ReduceScatter,
            "reduce-scatter"@,
            element_type,
            element_count,
            ANY_RANK,
            operation,
            payload,
            payload.len() as int,
        )
    }
}

/// The script of one exchange of host payloads with two neighbours.
pub open spec fn host_payload_script<E>(
    order: Seq<usize>,
    element_type: ElementType,
    payload: Seq<u8>,
    receive_bytes: int,
    destination: u32,
    source: u32,
    rail_hint: int,
    tag: u64,
) -> Script<Seq<u8>, E> {
    let width = element_type.width() as int;
    let rail = order[rail_hint % order.len() as int];
    if width == 0 || payload.len() as int % width != 0 || receive_bytes % width != 0 {
        fails(
            Failure::Rank(
                RankFailure::InvalidLength(
                    "pairwise host payload does not align to its element type"@,
                ),
            ),
        )
    } else {
        Script::Ask(
            TransportCall::Send {
                rail,
                destination,
                tag,
                element_type,
                element_count: (payload.len() as int / width) as u64,
                payload,
            },
            |reply: TransportReply|
                match reply.outcome() {
                    Err(failure) => fails(Failure::Rank(RankFailure::Network(failure))),
                    Ok(()) => Script::Ask(
                        TransportCall::Receive {
                            rail,
                            source: Some(source),
                            tag,
                            element_type,
                            element_count: (receive_bytes / width) as u64,
                        },
                        |reply: TransportReply| host_payload_received(receive_bytes, reply),
                    ),
                },
        )
    }
}

pub open spec fn host_payload_received<E>(receive_bytes: int, reply: TransportReply) -> Script<
    Seq<u8>,
    E,
> {
    match reply.frame() {
        Err(failure) => fails(Failure::Rank(RankFailure::Network(failure))),
        Ok(frame) => if frame.payload.len() != receive_bytes {
            fails(
                Failure::Rank(
                    RankFailure::Network(
                        NetworkFailure::InvalidConfiguration(
                            length_mismatch(
                                "pairwise host response"@,
                                frame.payload.len(),
                                receive_bytes as nat,
                            ),
                        ),
                    ),
                ),
            )
        } else {
            yields(frame.payload)
        },
    }
}

/// The script of a barrier.
pub open spec fn barrier_script<E>(place: RankPlace) -> Script<CollectiveStats, E> {
    Script::Ask(
        barrier_call(),
        |reply: TransportReply|
            match barrier_outcome(reply) {
                Err(failure) => fails(Failure::Rank(RankFailure::Network(failure))),
                Ok(()) => yields(
                    stats_of(place, CollectiveAlgorithm::Direct, one_step(place), 0, 0),
                ),
            },
    )
}

/// The calls follow the script, and the result is what the script ended in.
pub open spec fn host_performed<R, E>(
    script: Script<R, E>,
    before: Seq<TransportEvent>,
    now: Seq<TransportEvent>,
    result: Result<R, RankFailure>,
) -> bool {
    &&& followed(script, before, now)
    &&& reached(script, before, now) == Script::Done(
        match result {
            Ok(value) => Ok::<R, Stop<E>>(value),
            Err(failure) => Err(Stop { failure: Failure::Rank(failure), in_channel: false }),
        },
    )
}

pub open spec fn staged(result: Result<(Vec<u8>, CollectiveStats), RankError>) -> Result<
    (Seq<u8>, CollectiveStats),
    RankFailure,
> {
    match result {
        Ok((payload, stats)) => Ok((payload@, stats)),
        Err(error) => Err(error@),
    }
}

pub open spec fn rooted(result: Result<(Option<Vec<u8>>, CollectiveStats), RankError>) -> Result<
    (Seq<u8>, CollectiveStats),
    RankFailure,
> {
    match result {
        Ok((Some(payload), stats)) => Ok((payload@, stats)),
        Ok((None, stats)) => Ok((Seq::empty(), stats)),
        Err(error) => Err(error@),
    }
}

/// How a notice ended, as the rank reports it.
pub open spec fn told(reply: TransportReply) -> Result<(), RankFailure> {
    match reply.outcome() {
        Ok(()) => Ok(()),
        Err(failure) => Err(RankFailure::Network(failure)),
    }
}

pub open spec fn plain<R>(result: Result<R, RankError>) -> Result<R, RankFailure> {
    match result {
        Ok(value) => Ok(value),
        Err(error) => Err(error@),
    }
}

pub open spec fn bytes_of(result: Result<Vec<u8>, RankError>) -> Result<Seq<u8>, RankFailure> {
    match result {
        Ok(bytes) => Ok(bytes@),
        Err(error) => Err(error@),
    }
}

/// The statistics of a collective at a transport.
pub fn transport_stats<S: RankTransport>(
    session: &S,
    algorithm: CollectiveAlgorithm,
    steps: u32,
    transferred_bytes: usize,
    reduction_kernel_launches: u32,
) -> (stats: CollectiveStats)
    ensures
        stats == stats_of(
            session.place(),
            algorithm,
            steps as int,
            transferred_bytes as int,
            reduction_kernel_launches as int,
        ),
{
    CollectiveStats {
        algorithm,
        transport: session.transport(),
        steps,
        transferred_bytes: transferred_bytes as u64,
        reduction_kernel_launches,
    }
}

/// Refuses a root that the world does not have.
pub fn validate_transport_root<S: RankTransport>(session: &S, root: u32) -> (result: Result<
    (),
    RankError,
>)
    ensures
        match root_defect(session.place(), root) {
            Some(defect) => result is Err && result->Err_0@ == defect,
            None => result is Ok,
        },
{
    if root >= session.world_size() {
        return Err(
            RankError::RankOutOfRange {
                rank: root as usize,
                world_size: session.world_size() as usize,
            },
        );
    }
    Ok(())
}

/// Sends a payload to one neighbour and receives one of a known length from
/// another, on the rail of a channel.
pub fn exchange_payload<S: RankTransport, E>(
    session: &mut S,
    collective_rail_order: &[usize],
    element_type: ElementType,
    payload: Vec<u8>,
    receive_bytes: usize,
    destination: u32,
    source: u32,
    rail_hint: usize,
    tag: u64,
) -> (result: Result<Vec<u8>, RankError>)
    requires
        collective_rail_order@.len() > 0,
    ensures
        final(session).place() == old(session).place(),
        host_performed(
            host_payload_script::<E>(
                collective_rail_order@,
                element_type,
                payload@,
                receive_bytes as int,
                destination,
                source,
                rail_hint as int,
                tag,
            ),
            old(session).log(),
            final(session).log(),
            bytes_of(result),
        ),
        result is Ok ==> result->Ok_0@.len() == receive_bytes,
{
    let ghost script = host_payload_script::<E>(
        collective_rail_order@,
        element_type,
        payload@,
        receive_bytes as int,
        destination,
        source,
        rail_hint as int,
        tag,
    );
    let ghost before = session.log();
    proof {
        lemma_start(script, before);
    }
    let element_bytes: usize = element_type.byte_width();
    if element_bytes == 0 || payload.len() % element_bytes != 0 || receive_bytes % element_bytes
        != 0 {
        return Err(
            RankError::InvalidLength("pairwise host payload does not align to its element type"),
        );
    }
    let send_elements: usize = payload.len() / element_bytes;
    let receive_elements: usize = receive_bytes / element_bytes;
    let rail: usize = collective_rail_order[rail_hint % collective_rail_order.len()];
    let sent = session.send_on_rail(
        rail,
        destination,
        tag,
        element_type,
        send_elements as u64,
        payload,
    );
    let ghost told = session.log();
    proof {
        lemma_asked(script, before, before, told.last());
    }
    match sent {
        Ok(()) => {},
        Err(error) => {
            return Err(RankError::Network(error));
        },
    }
    let received = session.receive_on_rail(
        rail,
        Some(source),
        tag,
        element_type,
        receive_elements as u64,
    );
    proof {
        lemma_asked(script, before, told, session.log().last());
    }
    match received {
        Ok(response) => {
            if response.payload.len() != receive_bytes {
                return Err(
                    RankError::Network(
                        length_error(
                            "pairwise host response",
                            response.payload.len(),
                            receive_bytes,
                        ),
                    ),
                );
            }
            Ok(response.payload)
        },
        Err(error) => Err(RankError::Network(error)),
    }
}

/// A rank's host-staged collectives. Times are in nanoseconds.
pub struct HostStagedExchange<'a, S: RankTransport> {
    pub session: &'a mut S,
}

impl<'a, S: RankTransport> HostStagedExchange<'a, S> {
    pub fn new(session: &'a mut S) -> (exchange: Self)
        ensures
            *exchange.session == *old(session),
            *final(exchange.session) == *final(session),
    {
        Self { session }
    }

    pub fn rank(&self) -> (rank: u32)
        ensures
            rank == old(self.session).place().rank,
    {
        self.session.rank()
    }

    pub fn world_size(&self) -> (world_size: u32)
        ensures
            world_size == old(self.session).place().world_size,
    {
        self.session.world_size()
    }

    pub fn transport(&self) -> (transport: CollectiveTransport)
        ensures
            transport == old(self.session).place().transport,
    {
        self.session.transport()
    }

    pub fn heartbeat(&mut self, timeout_ns: u128) -> (result: Result<u128, RankError>)
        ensures
            *final(final(self).session) == *final(old(self).session),
            final(self).session.place() == old(self).session.place(),
            final(self).session.log() == old(self).session.log().push(
                (TransportEvent {
                    call: TransportCall::Heartbeat(timeout_ns),
                    reply: final(self).session.log().last().reply,
                }),
            ),
            plain(result) == (match final(self).session.log().last().reply.time() {
                Ok(time) => Ok::<u128, RankFailure>(time),
                Err(failure) => Err(RankFailure::Network(failure)),
            }),
    {
        match self.session.heartbeat(timeout_ns) {
            Ok(time) => Ok(time),
            Err(error) => Err(RankError::Network(error)),
        }
    }

    pub fn all_reduce_host_staged(
        &mut self,
        element_type: ElementType,
        element_count: usize,
        payload: Vec<u8>,
        operation: ReductionOperation,
    ) -> (result: Result<(Vec<u8>, CollectiveStats), RankError>)
        ensures
            *final(final(self).session) == *final(old(self).session),
            final(self).session.place() == old(self).session.place(),
            host_performed(
                reduction_script::<RankError>(
                    old(self).session.place(),
                    Opcode::AllReduce,
                    "all-reduce"@,
                    element_type,
                    element_count as int,
                    ANY_RANK,
                    operation,
                    payload@,
                    payload@.len() * old(self).session.place().world_size,
                ),
                old(self).session.log(),
                final(self).session.log(),
                staged(result),
            ),
    {
        proof {
            lemma_texts();
        }
        let ghost place = self.session.place();
        let ghost before = self.session.log();
        let ghost script = reduction_script::<RankError>(
            place,
            Opcode::AllReduce,
            "all-reduce"@,
            element_type,
            element_count as int,
            ANY_RANK,
            operation,
            payload@,
            payload@.len() * place.world_size,
        );
        proof {
            lemma_start(script, before);
        }
        let rank_bytes: usize = match validate_host_reduction_payload(
            element_type,
            element_count,
            payload.as_slice(),
        ) {
            Ok(rank_bytes) => rank_bytes,
            Err(error) => {
                return Err(error);
            },
        };
        let options = reduction_exchange_options(ANY_RANK, element_count, operation.code());
        let reply = self.session.exchange_with_options(
            Opcode::AllReduce,
            element_type,
            options,
            payload,
        );
        proof {
            lemma_asked(script, before, before, self.session.log().last());
        }
        let response = match reply {
            Ok(response) => response,
            Err(error) => {
                return Err(RankError::Network(error));
            },
        };
        let expected: usize = match rank_bytes.checked_mul(self.world_size() as usize) {
            Some(expected) => expected,
            None => {
                return Err(RankError::Overflow("host all-reduce response bytes"));
            },
        };
        match validate_host_reduction_response(
            "all-reduce",
            response.payload.as_slice(),
            expected,
        ) {
            Ok(()) => {},
            Err(error) => {
                return Err(error);
            },
        }
        let transferred: usize = match rank_bytes.checked_add(response.payload.len()) {
            Some(transferred) => transferred,
            None => {
                return Err(RankError::Overflow("host all-reduce transferred bytes"));
            },
        };
        let steps: u32 = self.world_size().saturating_sub(1);
        let stats = transport_stats(
            &*self.session,
            CollectiveAlgorithm::Direct,
            steps,
            transferred,
            0,
        );
        Ok((response.payload, stats))
    }

    pub fn reduce_host_staged(
        &mut self,
        element_type: ElementType,
        element_count: usize,
        payload: Vec<u8>,
        root: u32,
        operation: ReductionOperation,
    ) -> (result: Result<(Option<Vec<u8>>, CollectiveStats), RankError>)
        ensures
            *final(final(self).session) == *final(old(self).session),
            final(self).session.place() == old(self).session.place(),
            host_performed(
                rooted_reduction_script::<RankError>(
                    old(self).session.place(),
                    element_type,
                    element_count as int,
                    root,
                    operation,
                    payload@,
                ),
                old(self).session.log(),
                final(self).session.log(),
                rooted(result),
            ),
            result is Ok ==> (result->Ok_0.0 is Some <==> root == old(self).session.place().rank),
    {
        proof {
            lemma_texts();
        }
        let ghost place = self.session.place();
        let ghost before = self.session.log();
        let ghost script = rooted_reduction_script::<RankError>(
            place,
            element_type,
            element_count as int,
            root,
            operation,
            payload@,
        );
        proof {
            lemma_start(script, before);
        }
        match self.validate_root(root) {
            Ok(()) => {},
            Err(error) => {
                return Err(error);
            },
        }
        let rank_bytes: usize = match validate_host_reduction_payload(
            element_type,
            element_count,
            payload.as_slice(),
        ) {
            Ok(rank_bytes) => rank_bytes,
            Err(error) => {
                return Err(error);
            },
        };
        let options = reduction_exchange_options(root, element_count, operation.code());
        let reply = self.session.exchange_with_options(
            Opcode::Reduce,
            element_type,
            options,
            payload,
        );
        proof {
            lemma_asked(script, before, before, self.session.log().last());
        }
        let response = match reply {
            Ok(response) => response,
            Err(error) => {
                return Err(RankError::Network(error));
            },
        };
        let at_root = self.rank() == root;
        let expected: usize = if at_root {
            match rank_bytes.checked_mul(self.world_size() as usize) {
                Some(expected) => expected,
                None => {
                    return Err(RankError::Overflow("host reduce response bytes"));
                },
            }
        } else {
            0
        };
        match validate_host_reduction_response("reduce", response.payload.as_slice(), expected) {
            Ok(()) => {},
            Err(error) => {
                return Err(error);
            },
        }
        let transferred: usize = match rank_bytes.checked_add(response.payload.len()) {
            Some(transferred) => transferred,
            None => {
                return Err(RankError::Overflow("host reduce transferred bytes"));
            },
        };
        let steps: u32 = self.world_size().saturating_sub(1);
        let stats = transport_stats(
            &*self.session,
            CollectiveAlgorithm::Direct,
            steps,
            transferred,
            0,
        );
        if at_root {
            Ok((Some(response.payload), stats))
        } else {
            assert(response.payload@ =~= Seq::<u8>::empty());
            Ok((None, stats))
        }
    }

    pub fn reduce_scatter_host_staged(
        &mut self,
        element_type: ElementType,
        element_count: usize,
        payload: Vec<u8>,
        operation: ReductionOperation,
    ) -> (result: Result<(Vec<u8>, CollectiveStats), RankError>)
        ensures
            *final(final(self).session) == *final(old(self).session),
            final(self).session.place() == old(self).session.place(),
            host_performed(
                scattered_reduction_script::<RankError>(
                    old(self).session.place(),
                    element_type,
                    element_count as int,
                    operation,
                    payload@,
                ),
                old(self).session.log(),
                final(self).session.log(),
                staged(result),
            ),
    {
        proof {
            lemma_texts();
        }
        let ghost place = self.session.place();
        let ghost before = self.session.log();
        let ghost script = scattered_reduction_script::<RankError>(
            place,
            element_type,
            element_count as int,
            operation,
            payload@,
        );
        proof {
            lemma_start(script, before);
        }
        if !is_multiple_of(element_count, self.world_size() as usize) {
            return Err(
                RankError::InvalidLength(
                    "host reduce-scatter input length must be divisible by world size",
                ),
            );
        }
        let rank_bytes: usize = match validate_host_reduction_payload(
            element_type,
            element_count,
            payload.as_slice(),
        ) {
            Ok(rank_bytes) => rank_bytes,
            Err(error) => {
                return Err(error);
            },
        };
        let options = reduction_exchange_options(ANY_RANK, element_count, operation.code());
        let reply = self.session.exchange_with_options(
            Opcode::ReduceScatter,
            element_type,
            options,
            payload,
        );
        proof {
            lemma_asked(script, before, before, self.session.log().last());
        }
        let response = match reply {
            Ok(response) => response,
            Err(error) => {
                return Err(RankError::Network(error));
            },
        };
        match validate_host_reduction_response(
            "reduce-scatter",
            response.payload.as_slice(),
            rank_bytes,
        ) {
            Ok(()) => {},
            Err(error) => {
                return Err(error);
            },
        }
        let transferred: usize = match rank_bytes.checked_add(response.payload.len()) {
            Some(transferred) => transferred,
            None => {
                return Err(RankError::Overflow("host reduce-scatter transferred bytes"));
            },
        };
        let steps: u32 = self.world_size().saturating_sub(1);
        let stats = transport_stats(
            &*self.session,
            CollectiveAlgorithm::Direct,
            steps,
            transferred,
            0,
        );
        Ok((response.payload, stats))
    }

    pub fn exchange_host_payload(
        &mut self,
        collective_rail_order: &[usize],
        element_type: ElementType,
        payload: Vec<u8>,
        receive_bytes: usize,
        destination: u32,
        source: u32,
        rail_hint: usize,
        tag: u64,
    ) -> (result: Result<Vec<u8>, RankError>)
        requires
            collective_rail_order@.len() > 0,
        ensures
            *final(final(self).session) == *final(old(self).session),
            final(self).session.place() == old(self).session.place(),
            host_performed(
                host_payload_script::<RankError>(
                    collective_rail_order@,
                    element_type,
                    payload@,
                    receive_bytes as int,
                    destination,
                    source,
                    rail_hint as int,
                    tag,
                ),
                old(self).session.log(),
                final(self).session.log(),
                bytes_of(result),
            ),
    {
        exchange_payload::<S, RankError>(
            &mut *self.session,
            collective_rail_order,
            element_type,
            payload,
            receive_bytes,
            destination,
            source,
            rail_hint,
            tag,
        )
    }

    pub fn barrier(&mut self) -> (result: Result<CollectiveStats, RankError>)
        ensures
            *final(final(self).session) == *final(old(self).session),
            final(self).session.place() == old(self).session.place(),
            host_performed(
                barrier_script::<RankError>(old(self).session.place()),
                old(self).session.log(),
                final(self).session.log(),
                plain(result),
            ),
    {
        let ghost before = self.session.log();
        let ghost script = barrier_script::<RankError>(self.session.place());
        proof {
            lemma_start(script, before);
        }
        let reply = self.session.barrier();
        proof {
            lemma_asked(script, before, before, self.session.log().last());
        }
        match reply {
            Ok(()) => {},
            Err(error) => {
                return Err(RankError::Network(error));
            },
        }
        let steps: u32 = if self.world_size() > 1 {
            1
        } else {
            0
        };
        Ok(transport_stats(&*self.session, CollectiveAlgorithm::Direct, steps, 0, 0))
    }

    pub fn set_timeout(&mut self, timeout_ns: u128) -> (result: Result<(), RankError>)
        ensures
            *final(final(self).session) == *final(old(self).session),
            final(self).session.place() == old(self).session.place(),
            final(self).session.log() == old(self).session.log().push(
                (TransportEvent {
                    call: TransportCall::SetTimeout(timeout_ns),
                    reply: final(self).session.log().last().reply,
                }),
            ),
            plain(result) == told(final(self).session.log().last().reply),
    {
        match self.session.set_timeout(timeout_ns) {
            Ok(()) => Ok(()),
            Err(error) => Err(RankError::Network(error)),
        }
    }

    pub fn abort(&mut self, message: &str) -> (result: Result<(), RankError>)
        ensures
            *final(final(self).session) == *final(old(self).session),
            final(self).session.place() == old(self).session.place(),
            final(self).session.log() == old(self).session.log().push(
                (TransportEvent {
                    call: TransportCall::Abort(message@),
                    reply: final(self).session.log().last().reply,
                }),
            ),
            plain(result) == told(final(self).session.log().last().reply),
    {
        match self.session.abort(message) {
            Ok(()) => Ok(()),
            Err(error) => Err(RankError::Network(error)),
        }
    }

    pub fn validate_root(&self, root: u32) -> (result: Result<(), RankError>)
        ensures
            match root_defect(old(self.session).place(), root) {
                Some(defect) => result is Err && result->Err_0@ == defect,
                None => result is Ok,
            },
    {
        validate_transport_root(&*self.session, root)
    }

    /// The byte count of a machine word always fits: there is no failure.
    pub fn stats(
        &self,
        algorithm: CollectiveAlgorithm,
        steps: u32,
        transferred_bytes: usize,
        reduction_kernel_launches: u32,
    ) -> (result: Result<CollectiveStats, RankError>)
        ensures
            result == Ok::<CollectiveStats, RankError>(
                stats_of(
                    old(self.session).place(),
                    algorithm,
                    steps as int,
                    transferred_bytes as int,
                    reduction_kernel_launches as int,
                ),
            ),
    {
        Ok(
            transport_stats(
                &*self.session,
                algorithm,
                steps,
                transferred_bytes,
                reduction_kernel_launches,
            ),
        )
    }
}

/// The fixed texts of the reductions' failures.
pub proof fn lemma_texts()
    ensures
        "host "@ + "all-reduce"@ + " response bytes"@ == "host all-reduce response bytes"@,
        "host "@ + "all-reduce"@ + " transferred bytes"@ == "host all-reduce transferred bytes"@,
        "host "@ + "reduce"@ + " response bytes"@ == "host reduce response bytes"@,
        "host "@ + "reduce"@ + " transferred bytes"@ == "host reduce transferred bytes"@,
        "host "@ + "reduce-scatter"@ + " transferred bytes"@
            == "host reduce-scatter transferred bytes"@,
{
    reveal_strlit("host ");
    reveal_strlit("all-reduce");
    reveal_strlit("reduce");
    reveal_strlit("reduce-scatter");
    reveal_strlit(" response bytes");
    reveal_strlit(" transferred bytes");
    reveal_strlit("host all-reduce response bytes");
    reveal_strlit("host all-reduce transferred bytes");
    reveal_strlit("host reduce response bytes");
    reveal_strlit("host reduce transferred bytes");
    reveal_strlit("host reduce-scatter transferred bytes");
    assert("host "@ + "all-reduce"@ + " response bytes"@ =~= "host all-reduce response bytes"@);
    assert("host "@ + "all-reduce"@ + " transferred bytes"@
        =~= "host all-reduce transferred bytes"@);
    assert("host "@ + "reduce"@ + " response bytes"@ =~= "host reduce response bytes"@);
    assert("host "@ + "reduce"@ + " transferred bytes"@ =~= "host reduce transferred bytes"@);
    assert("host "@ + "reduce-scatter"@ + " transferred bytes"@
        =~= "host reduce-scatter transferred bytes"@);
}

} // verus!

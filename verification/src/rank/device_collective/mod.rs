//! Rank-local collectives over a device and a transport.

pub mod all_gather;
pub mod all_to_all;
pub mod column_laws;
pub mod delivery;
pub mod direct;
pub mod direct_laws;
pub mod hierarchical;
pub mod laws;
pub mod output;
pub mod pairwise;
pub mod pairwise_laws;
pub mod pairwise_prospects;
pub mod point_to_point;
pub mod reduce_dispatch;
pub mod reduce_scatter;
pub mod reduction;
pub mod ring;
pub mod ring_prospects;
pub mod success;

use crate::math::{max_int, min_int};
use crate::rank::device::{lemma_reading_length, refused, DeviceCall, RankDevice, Refusal};
use crate::rank::device_collective::ring::received_bytes;
use crate::rank::error::{raised, RankError, RankFailure};
use crate::rank::hash::fnv;
use crate::rank::host::exchange::{
    exchange_payload, host_payload_script, root_defect, stats_of, transport_stats,
    validate_transport_root,
};
use crate::rank::network::{ExchangeOptions, NetworkError, NetworkFailure};
use crate::rank::payload::{decode_exact, length_mismatch};
use crate::rank::protocol::{ElementType, Opcode, ANY_RANK};
use crate::rank::script::{
    bad_reply, fails, followed, lemma_asked, lemma_onward, lemma_over, lemma_ran_ask, lemma_start,
    lemma_tried, reached, since, tried, yields, Failure, Script, TransportCall, TransportEvent,
    TransportReply,
};
use crate::rank::stats::CollectiveStats;
use crate::rank::tags::{agreement_bytes, ring_agreement_tag, slices};
use crate::rank::topology::tuning::{CollectiveTuning, TuningModel};
use crate::rank::topology::{
    CollectiveAutotuneEntry, CollectiveKind, TopologyError, TopologyFailure,
};
use crate::rank::transport::{RankPlace, RankTransport};
use crate::rank::CollectiveAlgorithm;
use crate::text::{decimal, push_decimal};
use std::marker::PhantomData;
use vstd::prelude::*;
use vstd::string::*;

verus! {

/// What a rank's collectives run on: the device, the transport and the number
/// of the next internal operation.
pub struct RankLink<D, S> {
    pub execution: D,
    pub session: S,
    pub internal_sequence: u64,
}

pub struct DeviceCollective<'a, T, D: RankDevice<T>, S: RankTransport> {
    pub link: &'a mut RankLink<D, S>,
    pub tuning: &'a CollectiveTuning,
    pub collective_rail_order: &'a [usize],
    pub element_type: ElementType,
    pub element: PhantomData<T>,
}

/// What a collective's script depends on besides its input.
pub struct CollectiveModel {
    pub place: RankPlace,
    pub tuning: TuningModel,
    pub rails: Seq<usize>,
    pub element_type: ElementType,
}

impl CollectiveModel {
    /// The tuning is one for this world, the rails are in its order, and the
    /// rank is one of the world's.
    pub open spec fn valid(self) -> bool {
        &&& self.tuning.valid()
        &&& self.tuning.topology.world_size == self.place.world_size
        &&& self.place.rank < self.place.world_size
        &&& 0 < self.place.rails
        &&& 0 < self.rails.len()
        &&& self.rails == self.tuning.rail_order()
    }

    /// A plan always has a channel.
    pub proof fn lemma_plan_channels(self, kind: CollectiveKind, bytes: usize)
        requires
            self.valid(),
        ensures
            self.tuning.plan(kind, bytes).ring_channels > 0,
    {
        if let Some(profile) = self.tuning.autotune_profile {
            lemma_measured_channels(profile.entries, kind, bytes, 0);
        }
    }

    pub open spec fn world(self) -> int {
        self.place.world_size as int
    }

    /// The rail of a channel.
    pub open spec fn rail(self, channel: int) -> usize {
        self.rails[channel % self.rails.len() as int]
    }

    /// The ring of a channel.
    pub open spec fn ring(self, channel: int) -> Seq<u32> {
        self.tuning.ring_for_channel(channel)
    }
}

proof fn lemma_measured_channels(
    entries: Seq<CollectiveAutotuneEntry>,
    kind: CollectiveKind,
    bytes: usize,
    from: int,
)
    requires
        forall|i: int| 0 <= i < entries.len() ==> 0 < (#[trigger] entries[i]).ring_channels,
    ensures
        TuningModel::measured_from(entries, kind, bytes, from) matches Some(entry) ==> 0
            < entry.ring_channels,
    decreases entries.len() - from,
{
    if 0 <= from < entries.len() {
        lemma_measured_channels(entries, kind, bytes, from + 1);
    }
}

/// What has been said on the transport and what the device has refused.
pub struct Standing<E> {
    pub log: Seq<TransportEvent>,
    pub faults: Seq<Refusal<E>>,
}

/// Where a collective works on the device: inside its channels, whose failures
/// are told to the other ranks, or outside of them.
pub enum Scope {
    /// Only outside.
    Outside,
    /// Outside until the ranks have agreed, then inside, in bytes.
    Ring { agreed: bool },
    /// Once the ranks have agreed, what is sent is read inside, but for the
    /// rank's own `length` elements from `start` on; all else is outside.
    Pairwise { agreed: bool, start: int, length: int },
    /// Inside, in bytes; a part is read before anything is said, and the rest is
    /// done after that.
    LeaderRing,
    /// Once `collected` calls are answered, bytes are handled inside; before that
    /// only reading them is. Whole buffers and runs of elements are handled
    /// outside, and with them, where the collective `stores` its result, the
    /// room for it.
    Leaders { collected: int, stores: bool },
}

impl Scope {
    /// The call is one that is made inside a channel after `said` calls on the
    /// transport; an agreement comes first.
    pub open spec fn inside(self, call: DeviceCall, said: int) -> bool {
        match self {
            Scope::Outside => false,
            Scope::Ring { agreed } => (agreed || 0 < said) && call.in_bytes(),
            Scope::Pairwise { agreed, start, length } => match call {
                DeviceCall::LoadBytes { offset, length: asked, .. } => {
                    &&& agreed || 0 < said
                    &&& length == 0 || offset != start || asked != length
                },
                _ => false,
            },
            Scope::LeaderRing => call is LoadBytes || (call.in_bytes() && 0 < said),
            Scope::Leaders { collected, .. } => {
                call is LoadBytes || (call.in_bytes() && collected < said)
            },
        }
    }

    /// The call is one that is made outside the channels.
    pub open spec fn outside(self, call: DeviceCall, said: int) -> bool {
        match self {
            Scope::Ring { agreed } => !agreed && said <= 0,
            Scope::LeaderRing => false,
            Scope::Leaders { stores, .. } => {
                !self.inside(call, said) || (stores && call is Allocate)
            },
            _ => !self.inside(call, said),
        }
    }

    /// What is on one side of a part is on the same side of the whole. `grew`
    /// calls were answered before the part.
    pub open spec fn part_of(self, whole: Scope, grew: int) -> bool {
        &&& forall|call: DeviceCall, said: int|
            0 <= said && #[trigger] self.inside(call, said) ==> whole.inside(call, said + grew)
        &&& forall|call: DeviceCall, said: int|
            0 <= said && #[trigger] self.outside(call, said) ==> whole.outside(call, said + grew)
    }
}

/// `error` reports `failure` in the caller's own error type.
pub open spec fn carries<E>(error: E, failure: Failure<E>) -> bool where
    E: From<RankError> + From<NetworkError> + From<TopologyError>,
 {
    match failure {
        Failure::Rank(failure) => exists|cause: RankError|
            #![trigger cause@]
            cause@ == failure && raised(cause, error),
        Failure::Network(failure) => exists|cause: NetworkError|
            #![trigger cause@]
            cause@ == failure && raised(cause, error),
        Failure::Topology(failure) => exists|cause: TopologyError|
            #![trigger cause@]
            cause@ == failure && raised(cause, error),
        Failure::Device(failure) => error == failure,
    }
}

/// The calls follow the script. A result is what the script ended in; an error
/// is the device's, or reports the failure that the script ended in.
pub open spec fn conversed<R, E>(
    script: Script<R, E>,
    before: Standing<E>,
    now: Standing<E>,
    result: Result<R, E>,
    in_channel: bool,
) -> bool where E: From<RankError> + From<NetworkError> + From<TopologyError> {
    &&& followed(script, before.log, now.log)
    &&& match result {
        Ok(value) => {
            &&& now.faults == before.faults
            &&& reached(script, before.log, now.log) == Script::<R, E>::Done(Ok(value))
        },
        Err(error) => {
            ||| refused(before.faults, now.faults, error)
            ||| {
                &&& now.faults == before.faults
                &&& reached(script, before.log, now.log) matches Script::Done(Err(stop))
                &&& carries(error, stop.failure)
                &&& stop.in_channel == in_channel
            }
        },
    }
}

/// The same, where a failure inside a channel is followed by an abort that
/// tells the other ranks of it, and one outside is not. Where the device refused
/// a call, its scope tells which it was.
pub open spec fn performed<T, D: RankDevice<T>, R>(
    script: Script<R, D::Error>,
    label: Seq<char>,
    scope: Scope,
    before: Standing<D::Error>,
    now: Standing<D::Error>,
    result: Result<R, D::Error>,
) -> bool where D::Error: From<RankError> + From<NetworkError> + From<TopologyError> {
    ||| {
        &&& conversed(script, before, now, result, false)
        &&& now.faults == before.faults || scope.outside(
            now.faults.last().call,
            now.log.len() - before.log.len(),
        )
    }
    ||| {
        &&& result is Err
        &&& before.log.len() < now.log.len()
        &&& now.log.last().call == TransportCall::Abort(
            label + " channel failed: "@ + D::message(&result->Err_0),
        )
        &&& conversed(
            script,
            before,
            (Standing { log: now.log.drop_last(), faults: now.faults }),
            result,
            true,
        )
        &&& now.faults == before.faults || scope.inside(
            now.faults.last().call,
            now.log.len() - 1 - before.log.len(),
        )
    }
}

/// If the device has refused a call, it was reading bytes or something had been
/// said before.
pub open spec fn reads_first<E>(before: Standing<E>, now: Standing<E>) -> bool {
    ||| now.faults == before.faults
    ||| now.faults.last().call is LoadBytes
    ||| before.log.len() < now.log.len()
}

/// The device refused nothing, and either no call was made or the first one
/// failed.
pub open spec fn refused_at_once<E>(before: Standing<E>, now: Standing<E>) -> bool {
    &&& now.faults == before.faults
    &&& now.log.len() <= before.log.len() || (now.log.len() == before.log.len() + 1
        && now.log.last().reply is Failed)
}

/// What goes on after an agreement was not refused at once.
pub(crate) proof fn lemma_past_agreement<E>(
    tag: u64,
    complaint: Seq<char>,
    before: Standing<E>,
    mid: Standing<E>,
    now: Standing<E>,
) where E: From<RankError> + From<NetworkError> + From<TopologyError>
    requires
        conversed(agreement_script::<E>(tag, complaint), before, mid, Ok::<(), E>(()), false),
        mid.log.len() <= now.log.len(),
        now.log.take(mid.log.len() as int) == mid.log,
    ensures
        !refused_at_once(before, now),
{
    let agreement = agreement_script::<E>(tag, complaint);
    let events = since(before.log, mid.log);
    lemma_ran_ask(agreement->Ask_0, agreement->Ask_1, events, ());
    let answer = (agreement->Ask_1)(events[0].reply);
    lemma_over(answer->Done_0, events.skip(1));
    assert(events.len() == 1);
    assert(events[0] == mid.log.last());
    assert(!(events[0].reply is Failed));
    if now.log.len() == before.log.len() + 1 {
        assert(now.log.last() == now.log.take(mid.log.len() as int).last());
    }
}

/// A part of a script that a part of the work has run.
pub proof fn lemma_part<A, B, E>(
    script: Script<B, E>,
    before: Standing<E>,
    mid: Standing<E>,
    now: Standing<E>,
    first: Script<A, E>,
    in_channel: bool,
    next: spec_fn(A) -> Script<B, E>,
    result: Result<A, E>,
) where E: From<RankError> + From<NetworkError> + From<TopologyError>
    requires
        followed(script, before.log, mid.log),
        reached(script, before.log, mid.log) == tried(first, in_channel, next),
        mid.faults == before.faults,
        conversed(first, mid, now, result, false),
    ensures
        followed(script, before.log, now.log),
        result matches Ok(value) ==> {
            &&& reached(script, before.log, now.log) == next(value)
            &&& now.faults == before.faults
        },
        result matches Err(error) ==> conversed(
            script,
            before,
            now,
            Err::<B, E>(error),
            in_channel,
        ),
{
    lemma_tried(script, before.log, mid.log, now.log, first, in_channel, next);
}

/// The rest of a script, run by itself.
pub proof fn lemma_rest<R, E>(
    script: Script<R, E>,
    before: Standing<E>,
    mid: Standing<E>,
    now: Standing<E>,
    rest: Script<R, E>,
    result: Result<R, E>,
    in_channel: bool,
) where E: From<RankError> + From<NetworkError> + From<TopologyError>
    requires
        followed(script, before.log, mid.log),
        reached(script, before.log, mid.log) == rest,
        mid.faults == before.faults,
        conversed(rest, mid, now, result, in_channel),
    ensures
        conversed(script, before, now, result, in_channel),
{
    lemma_onward(script, before.log, mid.log, now.log);
}

/// The rest of a script, run by itself, with an abort or without.
pub proof fn lemma_performed_rest<T, D: RankDevice<T>, R>(
    script: Script<R, D::Error>,
    label: Seq<char>,
    part: Scope,
    whole: Scope,
    before: Standing<D::Error>,
    mid: Standing<D::Error>,
    now: Standing<D::Error>,
    rest: Script<R, D::Error>,
    result: Result<R, D::Error>,
) where D::Error: From<RankError> + From<NetworkError> + From<TopologyError>
    requires
        followed(script, before.log, mid.log),
        reached(script, before.log, mid.log) == rest,
        mid.faults == before.faults,
        part.part_of(whole, mid.log.len() - before.log.len()),
        performed::<T, D, R>(rest, label, part, mid, now, result),
    ensures
        performed::<T, D, R>(script, label, whole, before, now, result),
{
    let call = now.faults.last().call;
    let said = now.log.len() - mid.log.len();
    if conversed(rest, mid, now, result, false) && (now.faults == mid.faults || part.outside(
        call,
        said,
    )) {
        assert(part.outside(call, said) ==> whole.outside(
            call,
            said + (mid.log.len() - before.log.len()),
        ));
        lemma_rest(script, before, mid, now, rest, result, false);
    } else {
        let quiet = Standing { log: now.log.drop_last(), faults: now.faults };
        lemma_rest(script, before, mid, quiet, rest, result, true);
        assert(now.faults == mid.faults || part.inside(call, quiet.log.len() - mid.log.len()));
    }
}

/// A part that ended in an abort, or did not.
pub proof fn lemma_performed_part<T, D: RankDevice<T>, A, B>(
    script: Script<B, D::Error>,
    label: Seq<char>,
    part: Scope,
    whole: Scope,
    before: Standing<D::Error>,
    mid: Standing<D::Error>,
    now: Standing<D::Error>,
    first: Script<A, D::Error>,
    next: spec_fn(A) -> Script<B, D::Error>,
    result: Result<A, D::Error>,
) where D::Error: From<RankError> + From<NetworkError> + From<TopologyError>
    requires
        followed(script, before.log, mid.log),
        reached(script, before.log, mid.log) == tried(first, false, next),
        mid.faults == before.faults,
        part.part_of(whole, mid.log.len() - before.log.len()),
        performed::<T, D, A>(first, label, part, mid, now, result),
    ensures
        result matches Ok(value) ==> {
            &&& followed(script, before.log, now.log)
            &&& reached(script, before.log, now.log) == next(value)
            &&& now.faults == before.faults
        },
        result matches Err(error) ==> performed::<T, D, B>(
            script,
            label,
            whole,
            before,
            now,
            Err::<B, D::Error>(error),
        ),
{
    let call = now.faults.last().call;
    let said = now.log.len() - mid.log.len();
    if conversed(first, mid, now, result, false) && (now.faults == mid.faults || part.outside(
        call,
        said,
    )) {
        assert(part.outside(call, said) ==> whole.outside(
            call,
            said + (mid.log.len() - before.log.len()),
        ));
        lemma_part(script, before, mid, now, first, false, next, result);
    } else {
        let quiet = Standing { log: now.log.drop_last(), faults: now.faults };
        lemma_tried(script, before.log, mid.log, quiet.log, first, false, next);
        assert(now.faults == mid.faults || part.inside(call, quiet.log.len() - mid.log.len()));
    }
}

/// A failure of the rank's own checks, in the caller's error type.
pub fn from_rank<E>(error: RankError) -> (result: E) where
    E: From<RankError> + From<NetworkError> + From<TopologyError>,

    ensures
        carries(result, Failure::Rank(error@)),
{
    let ghost cause = error;
    let result = E::from(error);
    assert(cause@ == error@ && raised(cause, result));
    result
}

/// A failure on the network, in the caller's error type.
pub fn from_network<E>(error: NetworkError) -> (result: E) where
    E: From<RankError> + From<NetworkError> + From<TopologyError>,

    ensures
        carries(result, Failure::Network(error@)),
{
    let ghost cause = error;
    let result = E::from(error);
    assert(cause@ == error@ && raised(cause, result));
    result
}

/// A failure of the topology, in the caller's error type.
pub fn from_topology<E>(error: TopologyError) -> (result: E) where
    E: From<RankError> + From<NetworkError> + From<TopologyError>,

    ensures
        carries(result, Failure::Topology(error@)),
{
    let ghost cause = error;
    let result = E::from(error);
    assert(cause@ == error@ && raised(cause, result));
    result
}

/// Appends elements.
pub(crate) fn append_values<T: Copy>(into: &mut Vec<T>, values: &[T])
    ensures
        final(into)@ == old(into)@ + values@,
{
    let ghost start = into@;
    let mut index: usize = 0;
    while index < values.len()
        invariant
            index <= values@.len(),
            into@ == start + values@.take(index as int),
        decreases values.len() - index,
    {
        into.push(values[index]);
        index = index + 1;
        assert(into@ =~= start + values@.take(index as int));
    }
    assert(values@.take(index as int) =~= values@);
}

/// How many channels a collective of `elements` per rank uses.
pub open spec fn effective_channels(requested: int, elements: int) -> int {
    min_int(requested, max_int(elements, 1))
}

pub open spec fn absent_from_ring(rank: u32) -> TopologyFailure {
    TopologyFailure::InvalidRing(
        "rank "@ + decimal(rank as nat) + " is absent from the configured ring"@,
    )
}

/// What the ranks make of the answer to their agreement.
pub open spec fn agreement_reply<E>(reply: TransportReply, complaint: Seq<char>) -> Script<(), E> {
    match reply.frame() {
        Err(failure) => fails(Failure::Network(failure)),
        Ok(frame) => if frame.header.opcode != Opcode::Barrier || frame.payload.len() != 0 {
            fails(bad_reply(complaint))
        } else {
            yields(())
        },
    }
}

/// The script of an agreement: a barrier whose tag is the ranks' common hash.
pub open spec fn agreement_script<E>(tag: u64, complaint: Seq<char>) -> Script<(), E> {
    Script::Ask(
        TransportCall::Exchange {
            opcode: Opcode::Barrier,
            element_type: ElementType::Untyped,
            options: ExchangeOptions { root_rank: ANY_RANK, element_count: 0, flags: 0, tag },
            payload: Seq::empty(),
        },
        |reply: TransportReply| agreement_reply(reply, complaint),
    )
}

impl CollectiveModel {
    /// The rings of the first channels.
    pub open spec fn channel_rings(self, channels: int) -> Seq<Seq<u32>> {
        Seq::new(channels as nat, |channel: int| self.ring(channel))
    }

    /// The rails of the first channels.
    pub open spec fn channel_rails(self, channels: int) -> Seq<usize> {
        Seq::new(channels as nat, |channel: int| self.rail(channel))
    }

    /// The script of a ring collective's agreement.
    pub open spec fn ring_agreement<E>(
        self,
        operation: u64,
        length: int,
        discriminator: u32,
        channels: int,
    ) -> Script<(), E> {
        agreement_script(
            fnv(
                agreement_bytes(
                    operation,
                    length as u64,
                    self.channel_rings(channels),
                    discriminator,
                    channels as u64,
                    self.channel_rails(channels),
                ),
            ),
            "invalid ring collective agreement response"@,
        )
    }
}

/// A payload of a number of elements, as the device decodes it.
pub open spec fn exactly<T, D: RankDevice<T>>(payload: Seq<u8>, elements: int) -> Result<
    Seq<T>,
    Failure<D::Error>,
> {
    let expected = elements * D::ELEMENT_SIZE;
    if expected > usize::MAX {
        Err(Failure::Rank(RankFailure::Overflow("TCP decoded payload bytes"@)))
    } else if payload.len() != expected {
        Err(
            Failure::Rank(
                RankFailure::Network(
                    NetworkFailure::InvalidConfiguration(
                        length_mismatch("TCP response"@, payload.len(), expected as nat),
                    ),
                ),
            ),
        )
    } else {
        match D::refusal(payload) {
            Some(error) => Err(Failure::Device(error)),
            None => Ok(D::reading(payload)),
        }
    }
}

impl<'a, T, D: RankDevice<T>, S: RankTransport> DeviceCollective<'a, T, D, S> {
    pub open spec fn model(&self) -> CollectiveModel {
        CollectiveModel {
            place: self.link.session.place(),
            tuning: self.tuning@,
            rails: self.collective_rail_order@,
            element_type: self.element_type,
        }
    }

    pub open spec fn standing(&self) -> Standing<D::Error> {
        Standing { log: self.link.session.log(), faults: self.link.execution.faults() }
    }

    pub open spec fn next(&self) -> u64 {
        self.link.internal_sequence
    }
}

impl<'a, T, D: RankDevice<T>, S: RankTransport> DeviceCollective<'a, T, D, S> where
    D::Error: From<RankError> + From<NetworkError> + From<TopologyError>,
 {
    pub fn new(
        link: &'a mut RankLink<D, S>,
        tuning: &'a CollectiveTuning,
        collective_rail_order: &'a [usize],
        element_type: ElementType,
    ) -> (collective: Self)
        ensures
            *collective.link == *old(link),
            *final(collective.link) == *final(link),
            collective.tuning == tuning,
            collective.collective_rail_order == collective_rail_order,
            collective.element_type == element_type,
    {
        DeviceCollective {
            link,
            tuning,
            collective_rail_order,
            element_type,
            element: PhantomData,
        }
    }

    pub fn rank(&self) -> (rank: u32)
        ensures
            rank == self.model().place.rank,
    {
        self.link.session.rank()
    }

    pub fn world_size(&self) -> (world_size: u32)
        ensures
            world_size == self.model().place.world_size,
    {
        self.link.session.world_size()
    }

    pub(crate) fn effective_ring_channels(
        &self,
        requested_channels: usize,
        elements_per_rank: usize,
    ) -> (channels: usize)
        ensures
            channels == effective_channels(requested_channels as int, elements_per_rank as int),
    {
        let most: usize = if elements_per_rank == 0 {
            1
        } else {
            elements_per_rank
        };
        if requested_channels < most {
            requested_channels
        } else {
            most
        }
    }

    pub(crate) fn collective_rail_for_channel(&self, channel: usize) -> (rail: usize)
        requires
            self.model().rails.len() > 0,
        ensures
            rail == self.model().rail(channel as int),
    {
        self.collective_rail_order[channel % self.collective_rail_order.len()]
    }

    /// Tells the other ranks of a failure in a channel.
    pub(crate) fn propagate_channel_failure<R>(
        &mut self,
        operation: &str,
        result: Result<R, D::Error>,
    ) -> (passed: Result<R, D::Error>)
        ensures
            *final(final(self).link) == *final(old(self).link),
            final(self).model() == old(self).model(),
            final(self).next() == old(self).next(),
            final(self).standing().faults == old(self).standing().faults,
            passed == result,
            match result {
                Ok(_) => final(self).standing().log == old(self).standing().log,
                Err(error) => {
                    &&& final(self).standing().log.len() == old(self).standing().log.len() + 1
                    &&& final(self).standing().log.drop_last() == old(self).standing().log
                    &&& final(self).standing().log.last().call == TransportCall::Abort(
                        operation@ + " channel failed: "@ + D::message(&error),
                    )
                },
            },
    {
        if let Err(error) = &result {
            let mut text = String::from_str(operation);
            text.append(" channel failed: ");
            let reason = D::error_text(error);
            text.append(reason.as_str());
            let ghost before = self.link.session.log();
            let _ = self.link.session.abort(text.as_str());
            assert(self.link.session.log().drop_last() =~= before);
        }
        result
    }

    pub(crate) fn ring_position(&self, ring: &[u32]) -> (result: Result<usize, D::Error>)
        ensures
            match result {
                Ok(position) => {
                    &&& position < ring@.len()
                    &&& ring@[position as int] == self.model().place.rank
                },
                Err(error) => {
                    &&& !ring@.contains(self.model().place.rank)
                    &&& carries(
                        error,
                        Failure::Topology(absent_from_ring(self.model().place.rank)),
                    )
                },
            },
    {
        let rank: u32 = self.rank();
        let mut index: usize = 0;
        while index < ring.len()
            invariant
                index <= ring@.len(),
                rank == self.model().place.rank,
                forall|i: int| 0 <= i < index ==> ring@[i] != rank,
            decreases ring.len() - index,
        {
            if ring[index] == rank {
                return Ok(index);
            }
            index = index + 1;
        }
        let mut text = String::from_str("rank ");
        push_decimal(&mut text, rank as u64);
        text.append(" is absent from the configured ring");
        Err(from_topology(TopologyError::InvalidRing(text)))
    }

    /// Asks the other ranks to agree on what is about to run.
    pub(crate) fn agree(&mut self, tag: u64, complaint: &str) -> (result: Result<(), D::Error>)
        ensures
            *final(final(self).link) == *final(old(self).link),
            final(self).model() == old(self).model(),
            final(self).next() == old(self).next(),
            final(self).standing().log.len() == old(self).standing().log.len() + 1,
            final(self).standing().faults == old(self).standing().faults,
            conversed(
                agreement_script(tag, complaint@),
                old(self).standing(),
                final(self).standing(),
                result,
                false,
            ),
    {
        let ghost before = self.standing();
        let ghost script = agreement_script::<D::Error>(tag, complaint@);
        proof {
            lemma_start(script, before.log);
        }
        let options = ExchangeOptions { root_rank: ANY_RANK, element_count: 0, flags: 0, tag };
        let reply = self.link.session.exchange_with_options(
            Opcode::Barrier,
            ElementType::Untyped,
            options,
            Vec::new(),
        );
        proof {
            lemma_asked(script, before.log, before.log, self.link.session.log().last());
        }
        let response = match reply {
            Ok(response) => response,
            Err(error) => {
                return Err(from_network(error));
            },
        };
        if response.header.opcode != Opcode::Barrier || response.payload.len() != 0 {
            return Err(from_network(NetworkError::invalid(complaint)));
        }
        Ok(())
    }

    /// The rails of the first channels.
    pub(crate) fn rails_of(&self, channels: usize) -> (rails: Vec<usize>)
        requires
            self.model().rails.len() > 0,
        ensures
            rails@ == self.model().channel_rails(channels as int),
    {
        let mut rails: Vec<usize> = Vec::new();
        let mut channel: usize = 0;
        while channel < channels
            invariant
                channel <= channels,
                self.model().rails.len() > 0,
                rails@ == self.model().channel_rails(channel as int),
            decreases channels - channel,
        {
            rails.push(self.collective_rail_for_channel(channel));
            channel = channel + 1;
            assert(rails@ =~= self.model().channel_rails(channel as int));
        }
        rails
    }

    pub(crate) fn ring_agreement(
        &mut self,
        operation: u64,
        length: usize,
        discriminator: u32,
        channels: usize,
    ) -> (result: Result<(), D::Error>)
        requires
            old(self).model().valid(),
        ensures
            *final(final(self).link) == *final(old(self).link),
            final(self).model() == old(self).model(),
            final(self).next() == old(self).next(),
            final(self).standing().log.len() == old(self).standing().log.len() + 1,
            final(self).standing().faults == old(self).standing().faults,
            conversed(
                old(self).model().ring_agreement(
                    operation,
                    length as int,
                    discriminator,
                    channels as int,
                ),
                old(self).standing(),
                final(self).standing(),
                result,
                false,
            ),
    {
        let ghost model = self.model();
        let mut rings: Vec<&[u32]> = Vec::new();
        let mut channel: usize = 0;
        let tuning = self.tuning;
        while channel < channels
            invariant
                channel <= channels,
                model.valid(),
                tuning@ == model.tuning,
                slices(rings@) == model.channel_rings(channel as int),
            decreases channels - channel,
        {
            let ghost was = slices(rings@);
            let order = tuning.ring_order_for_channel(channel);
            rings.push(order);
            assert(slices(rings@) =~= was.push(order@));
            channel = channel + 1;
            assert(slices(rings@) =~= model.channel_rings(channel as int));
        }
        let channel_rails = self.rails_of(channels);
        let tag: u64 = ring_agreement_tag(
            operation,
            length,
            rings.as_slice(),
            discriminator,
            channels,
            channel_rails.as_slice(),
        );
        self.agree(tag, "invalid ring collective agreement response")
    }

    pub(crate) fn stats(
        &self,
        algorithm: CollectiveAlgorithm,
        steps: u32,
        transferred_bytes: usize,
        reduction_kernel_launches: u32,
    ) -> (stats: CollectiveStats)
        ensures
            stats == stats_of(
                self.model().place,
                algorithm,
                steps as int,
                transferred_bytes as int,
                reduction_kernel_launches as int,
            ),
    {
        transport_stats(
            &self.link.session,
            algorithm,
            steps,
            transferred_bytes,
            reduction_kernel_launches,
        )
    }

    pub(crate) fn validate_root(&self, root: u32) -> (result: Result<(), D::Error>)
        ensures
            match root_defect(self.model().place, root) {
                Some(defect) => result is Err && carries(result->Err_0, Failure::Rank(defect)),
                None => result is Ok,
            },
    {
        match validate_transport_root(&self.link.session, root) {
            Ok(()) => Ok(()),
            Err(error) => Err(from_rank(error)),
        }
    }

    pub(crate) fn decode_exact(&self, payload: &[u8], expected_elements: usize) -> (result: Result<
        Vec<T>,
        D::Error,
    >)
        ensures
            match exactly::<T, D>(payload@, expected_elements as int) {
                Ok(values) => {
                    &&& result is Ok && result->Ok_0@ == values
                    &&& values.len() == expected_elements
                },
                Err(failure) => result is Err && carries(result->Err_0, failure),
            },
    {
        let result = decode_exact(payload, expected_elements, D::ELEMENT_SIZE, D::decode);
        proof {
            let overflow = RankError::Overflow("TCP decoded payload bytes");
            assert(overflow@ == RankFailure::Overflow("TCP decoded payload bytes"@));
        }
        if let Ok(values) = &result {
            proof {
                lemma_reading_length::<T, D>(payload@, expected_elements as nat);
            }
        }
        result
    }

    /// Sends a host payload to one neighbour and receives one of a known length
    /// from another.
    pub(crate) fn exchange_host_payload(
        &mut self,
        element_type: ElementType,
        payload: Vec<u8>,
        receive_bytes: usize,
        destination: u32,
        source: u32,
        rail_hint: usize,
        tag: u64,
    ) -> (result: Result<Vec<u8>, D::Error>)
        requires
            old(self).model().rails.len() > 0,
        ensures
            *final(final(self).link) == *final(old(self).link),
            final(self).model() == old(self).model(),
            final(self).next() == old(self).next(),
            final(self).standing().faults == old(self).standing().faults,
            conversed(
                host_payload_script(
                    old(self).model().rails,
                    element_type,
                    payload@,
                    receive_bytes as int,
                    destination,
                    source,
                    rail_hint as int,
                    tag,
                ),
                old(self).standing(),
                final(self).standing(),
                received_bytes(result),
                false,
            ),
            result is Ok ==> result->Ok_0@.len() == receive_bytes,
    {
        let order = self.collective_rail_order;
        match exchange_payload::<S, D::Error>(
            &mut self.link.session,
            order,
            element_type,
            payload,
            receive_bytes,
            destination,
            source,
            rail_hint,
            tag,
        ) {
            Ok(bytes) => Ok(bytes),
            Err(error) => Err(from_rank(error)),
        }
    }
}

} // verus!

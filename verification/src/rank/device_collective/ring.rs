//! Ring exchanges and the ring all-reduce.

use crate::math::{
    saturate_usize, saturating_add_usize, saturating_mul_usize,
};
use crate::rank::device::{
    asked, lemma_bytes_fit, lemma_reading_length, overwritten, reads_evenly, reduced_into,
    DeviceCall, RankDevice,
};
use crate::rank::device_collective::{
    absent_from_ring, conversed, effective_channels, from_network, from_rank, lemma_part,
    lemma_past_agreement, lemma_performed_part, lemma_rest, performed, reads_first, refused_at_once,
    CollectiveModel, DeviceCollective, Scope,
};
use crate::rank::error::RankError;
use crate::rank::host::exchange::stats_of;
use crate::rank::layout::{
    are_balanced_ranges, balanced_ranges, balanced_start, law_balanced_partition,
};
use crate::rank::network::NetworkError;
use crate::rank::operation::ReductionOperation;
use crate::rank::payload::{length_error, length_mismatch};
use crate::rank::protocol::ElementType;
use crate::rank::script::{
    bad_reply, fails, followed, lemma_asked, lemma_start, reached, too_large, tried, yields,
    Failure, Script, TransportCall, TransportReply,
};
use crate::rank::stats::CollectiveStats;
use crate::rank::hash::fnv;
use crate::rank::tags::{
    agreement_bytes, hierarchy_ring_data_tag, hierarchy_tag, ring_data_tag, ring_tag,
};
use crate::rank::topology::rings::is_ring;
use crate::rank::topology::TopologyError;
use crate::rank::transport::RankTransport;
use crate::rank::CollectiveAlgorithm;
use std::ops::Range;
use vstd::arithmetic::div_mod::*;
use vstd::bytes::*;
use vstd::prelude::*;

verus! {

/// What a rank makes of the chunk that a neighbour sent.
pub open spec fn chunk_received<T, D: RankDevice<T>>(
    receive_length: int,
    reply: TransportReply,
) -> Script<Seq<u8>, D::Error> {
    let expected = receive_length * D::ELEMENT_SIZE;
    match reply.frame() {
        Err(failure) => fails(Failure::Network(failure)),
        Ok(frame) => if expected > usize::MAX {
            fails(too_large("ring receive byte length"@))
        } else if frame.payload.len() != expected {
            fails(
                bad_reply(
                    length_mismatch("ring response"@, frame.payload.len(), expected as nat),
                ),
            )
        } else {
            yields(frame.payload)
        },
    }
}

/// The script of one exchange of chunks: a part goes to one neighbour, and one
/// of `receive_length` elements is received from another.
pub open spec fn chunk_script<T, D: RankDevice<T>>(
    element_type: ElementType,
    rail: usize,
    part: Seq<T>,
    receive_length: int,
    destination: u32,
    source: u32,
    tag: u64,
) -> Script<Seq<u8>, D::Error> {
    Script::Ask(
        TransportCall::Send {
            rail,
            destination,
            tag,
            element_type,
            element_count: part.len() as u64,
            payload: D::encoding(part),
        },
        |reply: TransportReply|
            match reply.outcome() {
                Err(failure) => fails(Failure::Network(failure)),
                Ok(()) => Script::Ask(
                    TransportCall::Receive {
                        rail,
                        source: Some(source),
                        tag,
                        element_type,
                        element_count: receive_length as u64,
                    },
                    |reply: TransportReply| chunk_received::<T, D>(receive_length, reply),
                ),
            },
    )
}

/// One exchange of a relay: what is sent from where, what is received to where,
/// and whether what is received is reduced in or written over.
pub struct Leg {
    pub send_start: int,
    pub send_length: int,
    pub receive_start: int,
    pub receive_length: int,
    pub destination: u32,
    pub source: u32,
    pub tag: u64,
    pub reduce: bool,
}

/// A buffer on the way, the bytes moved and the kernels launched.
pub struct Tally<T> {
    pub values: Seq<T>,
    pub bytes: int,
    pub launches: int,
}

/// What the counts are called where they do not fit.
pub struct Labels {
    pub bytes: Seq<char>,
    pub launches: Seq<char>,
}

/// The bytes that a leg moves.
pub open spec fn leg_bytes<T, D: RankDevice<T>>(leg: Leg) -> int {
    saturate_usize(
        saturate_usize(leg.send_length * D::ELEMENT_SIZE) + leg.receive_length * D::ELEMENT_SIZE,
    ) as int
}

/// A leg's bytes taken in.
pub open spec fn leg_applied<T, D: RankDevice<T>>(
    tally: Tally<T>,
    leg: Leg,
    received: Seq<u8>,
    reduce: spec_fn(T, T) -> T,
    labels: Labels,
) -> Result<Tally<T>, Failure<D::Error>> {
    let bytes = tally.bytes + leg_bytes::<T, D>(leg);
    let launches = tally.launches + (if leg.reduce && leg.receive_length != 0 {
        1int
    } else {
        0
    });
    let values = if leg.reduce {
        reduced_into(tally.values, leg.receive_start, D::reading(received), reduce)
    } else {
        overwritten(tally.values, leg.receive_start, D::reading(received))
    };
    if bytes > usize::MAX {
        Err(too_large(labels.bytes))
    } else if launches > u32::MAX {
        Err(too_large(labels.launches))
    } else {
        Ok(Tally { values, bytes, launches })
    }
}

pub open spec fn leg_next<T, D: RankDevice<T>>(
    tally: Tally<T>,
    leg: Leg,
    reduce: spec_fn(T, T) -> T,
    labels: Labels,
) -> spec_fn(Seq<u8>) -> Script<Tally<T>, D::Error> {
    |received: Seq<u8>|
        match leg_applied::<T, D>(tally, leg, received, reduce, labels) {
            Ok(tally) => yields(tally),
            Err(failure) => fails(failure),
        }
}

/// The script of one leg: a part of `from` goes out, and what comes in is taken
/// into the tally.
pub open spec fn leg_script<T, D: RankDevice<T>>(
    element_type: ElementType,
    rail: usize,
    from: Seq<T>,
    tally: Tally<T>,
    leg: Leg,
    reduce: spec_fn(T, T) -> T,
    labels: Labels,
) -> Script<Tally<T>, D::Error> {
    tried(
        chunk_script::<T, D>(
            element_type,
            rail,
            from.subrange(leg.send_start, leg.send_start + leg.send_length),
            leg.receive_length,
            leg.destination,
            leg.source,
            leg.tag,
        ),
        false,
        leg_next::<T, D>(tally, leg, reduce, labels),
    )
}

/// The script of the legs from `index` on. What is sent is taken from the buffer
/// as it stands.
pub open spec fn relay<T, D: RankDevice<T>>(
    element_type: ElementType,
    rail: usize,
    legs: Seq<Leg>,
    index: int,
    tally: Tally<T>,
    reduce: spec_fn(T, T) -> T,
    labels: Labels,
) -> Script<Tally<T>, D::Error>
    decreases legs.len() - index, 1int,
{
    if index < 0 || index >= legs.len() {
        yields(tally)
    } else {
        tried(
            leg_script::<T, D>(
                element_type,
                rail,
                tally.values,
                tally,
                legs[index],
                reduce,
                labels,
            ),
            false,
            relay_next::<T, D>(element_type, rail, legs, index, reduce, labels),
        )
    }
}

pub open spec fn relay_next<T, D: RankDevice<T>>(
    element_type: ElementType,
    rail: usize,
    legs: Seq<Leg>,
    index: int,
    reduce: spec_fn(T, T) -> T,
    labels: Labels,
) -> spec_fn(Tally<T>) -> Script<Tally<T>, D::Error>
    decreases legs.len() - index, 0int,
{
    |tally: Tally<T>|
        if index < 0 || index >= legs.len() {
            yields(tally)
        } else {
            relay::<T, D>(element_type, rail, legs, index + 1, tally, reduce, labels)
        }
}

pub open spec fn tallied<T, D: RankDevice<T>>(
    result: Result<(usize, u32), D::Error>,
    values: Seq<T>,
) -> Result<Tally<T>, D::Error> {
    match result {
        Ok((bytes, launches)) => Ok(
            Tally { values, bytes: bytes as int, launches: launches as int },
        ),
        Err(error) => Err(error),
    }
}

pub open spec fn received_bytes<E>(result: Result<Vec<u8>, E>) -> Result<Seq<u8>, E> {
    match result {
        Ok(bytes) => Ok(bytes@),
        Err(error) => Err(error),
    }
}

impl<'a, T, D: RankDevice<T>, S: RankTransport> DeviceCollective<'a, T, D, S> where
    D::Error: From<RankError> + From<NetworkError> + From<TopologyError>,
 {
    pub fn exchange_ring_chunk_bytes(
        &mut self,
        buffer: &D::Buffer,
        send_range: Range<usize>,
        receive_length: usize,
        destination: u32,
        source: u32,
        rail_hint: usize,
        tag: u64,
    ) -> (result: Result<Vec<u8>, D::Error>)
        requires
            send_range.start <= send_range.end,
            old(self).model().rails.len() > 0,
        ensures
            *final(final(self).link) == *final(old(self).link),
            final(self).model() == old(self).model(),
            final(self).next() == old(self).next(),
            asked(
                old(self).standing().faults,
                final(self).standing().faults,
                |call: DeviceCall| call == (DeviceCall::LoadBytes {
                    held: D::values(buffer).len(),
                    offset: send_range.start as nat,
                    length: (send_range.end - send_range.start) as nat,
                }),
            ),
            result is Ok ==> old(self).standing().log.len() < final(self).standing().log.len(),
            conversed(
                chunk_script::<T, D>(
                    old(self).model().element_type,
                    old(self).model().rail(rail_hint as int),
                    D::values(buffer).subrange(send_range.start as int, send_range.end as int),
                    receive_length as int,
                    destination,
                    source,
                    tag,
                ),
                old(self).standing(),
                final(self).standing(),
                received_bytes(result),
                false,
            ),
            result is Ok ==> {
                &&& result->Ok_0@.len() == receive_length * D::ELEMENT_SIZE
                &&& reads_evenly::<T, D>()
            },
    {
        let ghost before = self.standing();
        let ghost part = D::values(buffer).subrange(
            send_range.start as int,
            send_range.end as int,
        );
        let rail: usize = self.collective_rail_for_channel(rail_hint);
        let ghost script = chunk_script::<T, D>(
            self.element_type,
            rail,
            part,
            receive_length as int,
            destination,
            source,
            tag,
        );
        proof {
            lemma_start(script, before.log);
        }
        let length: usize = send_range.end - send_range.start;
        let payload = match self.link.execution.copy_bytes_from_device_at(
            buffer,
            send_range.start,
            length,
        ) {
            Ok(payload) => payload,
            Err(error) => {
                return Err(error);
            },
        };
        let sent = self.link.session.send_on_rail(
            rail,
            destination,
            tag,
            self.element_type,
            length as u64,
            payload,
        );
        let ghost told = self.link.session.log();
        proof {
            lemma_asked(script, before.log, before.log, told.last());
        }
        match sent {
            Ok(()) => {},
            Err(error) => {
                return Err(from_network(error));
            },
        }
        let received = self.link.session.receive_on_rail(
            rail,
            Some(source),
            tag,
            self.element_type,
            receive_length as u64,
        );
        proof {
            lemma_asked(script, before.log, told, self.link.session.log().last());
        }
        let response = match received {
            Ok(response) => response,
            Err(error) => {
                return Err(from_network(error));
            },
        };
        let receive_bytes: usize = match receive_length.checked_mul(D::ELEMENT_SIZE) {
            Some(receive_bytes) => receive_bytes,
            None => {
                return Err(from_rank(RankError::Overflow("ring receive byte length")));
            },
        };
        if response.payload.len() != receive_bytes {
            return Err(
                from_network(
                    length_error("ring response", response.payload.len(), receive_bytes),
                ),
            );
        }
        Ok(response.payload)
    }

    /// One leg that reduces what it receives into the buffer.
    pub(crate) fn exchange_reduce(
        &mut self,
        buffer: &mut D::Buffer,
        send_range: Range<usize>,
        receive_range: Range<usize>,
        destination: u32,
        source: u32,
        channel: usize,
        tag: u64,
        function: &D::Kernel,
        transferred_bytes: usize,
        launches: u32,
        bytes_label: &'static str,
        launches_label: &'static str,
    ) -> (result: Result<(usize, u32), D::Error>)
        requires
            send_range.start <= send_range.end <= D::values(&*old(buffer)).len(),
            receive_range.start <= receive_range.end <= D::values(&*old(buffer)).len(),
            old(self).model().rails.len() > 0,
        ensures
            *final(final(self).link) == *final(old(self).link),
            final(self).model() == old(self).model(),
            final(self).next() == old(self).next(),
            D::values(&*final(buffer)).len() == D::values(&*old(buffer)).len(),
            result is Ok ==> forall|x: int|
                0 <= x < D::values(&*old(buffer)).len() && !(receive_range.start <= x
                    < receive_range.end) ==> #[trigger] D::values(&*final(buffer))[x] == D::values(
                    &*old(buffer),
                )[x],
            asked(
                old(self).standing().faults,
                final(self).standing().faults,
                |call: DeviceCall| call.handles_part(D::values(&*old(buffer)).len() as int),
            ),
            reads_first(old(self).standing(), final(self).standing()),
            conversed(
                leg_script::<T, D>(
                    old(self).model().element_type,
                    old(self).model().rail(channel as int),
                    D::values(&*old(buffer)),
                    (Tally {
                        values: D::values(&*old(buffer)),
                        bytes: transferred_bytes as int,
                        launches: launches as int,
                    }),
                    (Leg {
                        send_start: send_range.start as int,
                        send_length: send_range.end - send_range.start,
                        receive_start: receive_range.start as int,
                        receive_length: receive_range.end - receive_range.start,
                        destination,
                        source,
                        tag,
                        reduce: true,
                    }),
                    D::reduction(function),
                    (Labels { bytes: bytes_label@, launches: launches_label@ }),
                ),
                old(self).standing(),
                final(self).standing(),
                tallied::<T, D>(result, D::values(&*final(buffer))),
                false,
            ),
    {
        let ghost before = self.standing();
        let ghost model = self.model();
        let ghost leg = Leg {
            send_start: send_range.start as int,
            send_length: send_range.end - send_range.start,
            receive_start: receive_range.start as int,
            receive_length: receive_range.end - receive_range.start,
            destination,
            source,
            tag,
            reduce: true,
        };
        let ghost tally = Tally {
            values: D::values(&*buffer),
            bytes: transferred_bytes as int,
            launches: launches as int,
        };
        let ghost labels = Labels { bytes: bytes_label@, launches: launches_label@ };
        let ghost next = leg_next::<T, D>(tally, leg, D::reduction(function), labels);
        let ghost script = leg_script::<T, D>(
            model.element_type,
            model.rail(channel as int),
            D::values(&*buffer),
            tally,
            leg,
            D::reduction(function),
            labels,
        );
        let ghost first = chunk_script::<T, D>(
            model.element_type,
            model.rail(channel as int),
            D::values(&*buffer).subrange(leg.send_start, leg.send_start + leg.send_length),
            leg.receive_length,
            destination,
            source,
            tag,
        );
        proof {
            lemma_start(script, before.log);
        }
        let send_length: usize = send_range.end - send_range.start;
        let receive_length: usize = receive_range.end - receive_range.start;
        let outcome = self.exchange_ring_chunk_bytes(
            &*buffer,
            send_range,
            receive_length,
            destination,
            source,
            channel,
            tag,
        );
        proof {
            lemma_part(
                script,
                before,
                before,
                self.standing(),
                first,
                false,
                next,
                received_bytes(outcome),
            );
        }
        let received = match outcome {
            Ok(received) => received,
            Err(error) => {
                return Err(error);
            },
        };
        let moved: usize = saturating_add_usize(
            saturating_mul_usize(send_length, D::ELEMENT_SIZE),
            received.len(),
        );
        let total: usize = match transferred_bytes.checked_add(moved) {
            Some(total) => total,
            None => {
                return Err(from_rank(RankError::Overflow(bytes_label)));
            },
        };
        let ghost mid = self.standing();
        let ghost held = D::values(&*buffer);
        let outcome = self.reduce_bytes_into(
            buffer,
            receive_range.start,
            receive_length,
            received.as_slice(),
            function,
        );
        proof {
            lemma_reading_length::<T, D>(received@, receive_length as nat);
            assert(reduced_into(held, leg.receive_start, D::reading(received@), D::reduction(function))
                =~= held || receive_length > 0);
        }
        let launched: u32 = match outcome {
            Ok(launched) => launched,
            Err(error) => {
                return Err(error);
            },
        };
        match launches.checked_add(launched) {
            Some(launches) => Ok((total, launches)),
            None => Err(from_rank(RankError::Overflow(launches_label))),
        }
    }
}

/// The place `steps` before `position` on a ring of `count`.
pub(crate) fn back(position: usize, steps: usize, count: usize) -> (place: usize)
    requires
        position < count,
        steps <= count,
    ensures
        place == (position - steps) % (count as int),
        place < count,
{
    if position >= steps {
        proof {
            lemma_small_mod((position - steps) as nat, count as nat);
        }
        position - steps
    } else {
        proof {
            lemma_mod_add_multiples_vanish(position - steps, count as int);
            lemma_small_mod((position - steps + count) as nat, count as nat);
        }
        position + (count - steps)
    }
}

/// The place after `position` on a ring of `count`.
pub(crate) fn forward(position: usize, count: usize) -> (place: usize)
    requires
        position < count,
    ensures
        place == (position + 1) % (count as int),
        place < count,
{
    if position + 1 == count {
        proof {
            lemma_mod_self_0(count as int);
        }
        0
    } else {
        proof {
            lemma_small_mod((position + 1) as nat, count as nat);
        }
        position + 1
    }
}

/// The partitions of a range of a buffer.
pub(crate) fn partitions_of(start: usize, length: usize, count: usize) -> (ranges: Vec<
    Range<usize>,
>)
    requires
        count > 0,
        start + length <= usize::MAX,
    ensures
        ranges@.len() == count,
        forall|i: int|
            0 <= i < count ==> {
                &&& (#[trigger] ranges@[i]).start == start + balanced_start(
                    length as int,
                    count as int,
                    i,
                )
                &&& ranges@[i].end == start + balanced_start(length as int, count as int, i + 1)
                &&& start <= ranges@[i].start <= ranges@[i].end <= start + length
            },
{
    let parts = balanced_ranges(length, count);
    let mut ranges: Vec<Range<usize>> = Vec::new();
    let mut index: usize = 0;
    while index < count
        invariant
            index <= count,
            count > 0,
            start + length <= usize::MAX,
            are_balanced_ranges(parts@, length as int, count as int),
            ranges@.len() == index,
            forall|i: int|
                0 <= i < index ==> {
                    &&& (#[trigger] ranges@[i]).start == start + balanced_start(
                        length as int,
                        count as int,
                        i,
                    )
                    &&& ranges@[i].end == start + balanced_start(
                        length as int,
                        count as int,
                        i + 1,
                    )
                    &&& start <= ranges@[i].start <= ranges@[i].end <= start + length
                },
        decreases count - index,
    {
        proof {
            law_balanced_partition(length as int, count as int, index as int);
        }
        assert(parts@[index as int].start <= parts@[index as int].end <= length);
        ranges.push(
            Range { start: start + parts[index].start, end: start + parts[index].end },
        );
        index = index + 1;
    }
    ranges
}

/// One leg of a round: every block moves one place on. `blocks` holds the block
/// of each place, and `origin` is the place whose block goes out first.
pub open spec fn round_leg(
    ring: Seq<u32>,
    blocks: Seq<(int, int)>,
    position: int,
    origin: int,
    tag: u64,
    reduce: bool,
    step: int,
) -> Leg {
    let count = ring.len() as int;
    let send = blocks[(origin - step) % count];
    let receive = blocks[(origin - step - 1) % count];
    Leg {
        send_start: send.0,
        send_length: send.1 - send.0,
        receive_start: receive.0,
        receive_length: receive.1 - receive.0,
        destination: ring[(position + 1) % count],
        source: ring[(position - 1) % count],
        tag,
        reduce,
    }
}

/// The legs of a round: one fewer than there are places.
pub open spec fn round_legs(
    ring: Seq<u32>,
    blocks: Seq<(int, int)>,
    position: int,
    origin: int,
    tags: spec_fn(int) -> u64,
    reduce: bool,
) -> Seq<Leg> {
    Seq::new(
        (ring.len() - 1) as nat,
        |step: int| round_leg(ring, blocks, position, origin, tags(step), reduce, step),
    )
}

/// How a round's messages are tagged: as a ring collective's, or as those of a
/// phase of a hierarchical one.
#[derive(Debug, Clone, Copy, PartialEq, Eq)]
pub struct RoundTags {
    pub operation: u64,
    pub channel: usize,
    pub phase: u32,
    pub hierarchical: bool,
}

impl RoundTags {
    pub open spec fn tags(self) -> spec_fn(int) -> u64 {
        |step: int|
            if self.hierarchical {
                hierarchy_tag(
                    fnv(
                        spec_u64_to_le_bytes(self.operation) + spec_u32_to_le_bytes(self.phase)
                            + spec_u64_to_le_bytes(self.channel as u64) + spec_u64_to_le_bytes(
                            step as u64,
                        ),
                    ),
                )
            } else {
                ring_tag(self.operation, self.phase as u64, self.channel as u64, step as u64)
            }
    }

    pub(crate) fn tag(self, step: usize) -> (tag: u64)
        ensures
            tag == self.tags()(step as int),
    {
        if self.hierarchical {
            hierarchy_ring_data_tag(self.operation, self.phase, self.channel, step)
        } else {
            ring_data_tag(self.operation, self.phase as u64, self.channel, step)
        }
    }
}

/// Ranges as pairs of bounds.
pub open spec fn bounds(ranges: Seq<Range<usize>>) -> Seq<(int, int)> {
    Seq::new(ranges.len(), |i: int| (ranges[i].start as int, ranges[i].end as int))
}

/// Every range lies in a buffer.
pub open spec fn ranges_fit(ranges: Seq<Range<usize>>, length: int) -> bool {
    forall|i: int|
        0 <= i < ranges.len() ==> (#[trigger] ranges[i]).start <= ranges[i].end <= length
}

/// Only what lies in one of the blocks is changed.
pub open spec fn changed_in<T>(before: Seq<T>, after: Seq<T>, blocks: Seq<Range<usize>>) -> bool {
    &&& after.len() == before.len()
    &&& forall|x: int|
        0 <= x < before.len() && !in_some(blocks, x) ==> #[trigger] after[x] == before[x]
}

/// A place of a buffer lies in one of the blocks.
pub open spec fn in_some(blocks: Seq<Range<usize>>, x: int) -> bool {
    exists|i: int| 0 <= i < blocks.len() && (#[trigger] blocks[i]).start <= x < blocks[i].end
}

/// The script of two rounds: the first reduces, the second writes over.
pub open spec fn two_rounds<T, D: RankDevice<T>>(
    element_type: ElementType,
    rail: usize,
    ring: Seq<u32>,
    blocks: Seq<(int, int)>,
    position: int,
    first: RoundTags,
    second: RoundTags,
    values: Seq<T>,
    reduce: spec_fn(T, T) -> T,
    labels: Labels,
) -> Script<Tally<T>, D::Error> {
    tried(
        relay::<T, D>(
            element_type,
            rail,
            round_legs(ring, blocks, position, position, first.tags(), true),
            0,
            Tally { values, bytes: 0, launches: 0 },
            reduce,
            labels,
        ),
        false,
        second_round::<T, D>(
            element_type,
            rail,
            ring,
            blocks,
            position,
            second,
            reduce,
            labels,
        ),
    )
}

pub open spec fn second_round<T, D: RankDevice<T>>(
    element_type: ElementType,
    rail: usize,
    ring: Seq<u32>,
    blocks: Seq<(int, int)>,
    position: int,
    tags: RoundTags,
    reduce: spec_fn(T, T) -> T,
    labels: Labels,
) -> spec_fn(Tally<T>) -> Script<Tally<T>, D::Error> {
    |tally: Tally<T>|
        relay::<T, D>(
            element_type,
            rail,
            round_legs(
                ring,
                blocks,
                position,
                (position + 1) % (ring.len() as int),
                tags.tags(),
                false,
            ),
            0,
            tally,
            reduce,
            labels,
        )
}

/// The blocks of a range that is shared out over a ring of ranks: each place has
/// its rank's partition.
pub open spec fn rank_blocks(ring: Seq<u32>, start: int, length: int) -> Seq<(int, int)> {
    let count = ring.len() as int;
    Seq::new(
        ring.len(),
        |place: int|
            (
                start + balanced_start(length, count, ring[place] as int),
                start + balanced_start(length, count, ring[place] + 1),
            ),
    )
}

/// The elements of a partition.
pub open spec fn chunk_length(length: int, count: int, chunk: int) -> int {
    balanced_start(length, count, chunk + 1) - balanced_start(length, count, chunk)
}

pub open spec fn all_reduce_labels() -> Labels {
    Labels {
        bytes: "ring all-reduce transferred bytes"@,
        launches: "ring all-reduce kernel launches"@,
    }
}

/// The script of one channel of a ring all-reduce.
pub open spec fn all_reduce_channel<T, D: RankDevice<T>>(
    model: CollectiveModel,
    values: Seq<T>,
    start: int,
    length: int,
    operation: u64,
    channel: usize,
    reduce: spec_fn(T, T) -> T,
) -> Script<Tally<T>, D::Error> {
    let ring = model.ring(channel as int);
    if !ring.contains(model.place.rank) {
        fails(Failure::Topology(absent_from_ring(model.place.rank)))
    } else {
        two_rounds::<T, D>(
            model.element_type,
            model.rail(channel as int),
            ring,
            rank_blocks(ring, start, length),
            ring.index_of(model.place.rank),
            RoundTags { operation, channel, phase: 0, hierarchical: false },
            RoundTags { operation, channel, phase: 1, hierarchical: false },
            values,
            reduce,
            all_reduce_labels(),
        )
    }
}

/// The channels of a collective from `index` on, one after the other; each ends
/// in a tally, and the counts are gathered. A channel that fails ends the
/// collective with its failure: the abort that follows is told to all ranks, and
/// the channels after it are not begun.
pub open spec fn channels_script<T, E>(
    channel: spec_fn(int, Seq<T>) -> Script<Tally<T>, E>,
    index: int,
    count: int,
    values: Seq<T>,
    totals: Seq<(int, int)>,
) -> Script<(Seq<T>, Seq<(int, int)>), E>
    decreases count - index, 1int,
{
    if index >= count {
        yields((values, totals))
    } else {
        tried(channel(index, values), true, channels_next(channel, index, count, totals))
    }
}

pub open spec fn channels_next<T, E>(
    channel: spec_fn(int, Seq<T>) -> Script<Tally<T>, E>,
    index: int,
    count: int,
    totals: Seq<(int, int)>,
) -> spec_fn(Tally<T>) -> Script<(Seq<T>, Seq<(int, int)>), E>
    decreases count - index, 0int,
{
    |tally: Tally<T>|
        if index >= count {
            yields((tally.values, totals))
        } else {
            channels_script(
                channel,
                index + 1,
                count,
                tally.values,
                totals.push((tally.bytes, tally.launches)),
            )
        }
}

/// The channels' counts added up.
pub open spec fn totalled<E>(totals: Seq<(int, int)>, labels: Labels) -> Result<
    (int, int),
    Failure<E>,
>
    decreases totals.len(),
{
    if totals.len() == 0 {
        Ok((0int, 0int))
    } else {
        match totalled::<E>(totals.drop_last(), labels) {
            Err(failure) => Err(failure),
            Ok((bytes, launches)) => if bytes + totals.last().0 > usize::MAX {
                Err(too_large(labels.bytes))
            } else if launches + totals.last().1 > u32::MAX {
                Err(too_large(labels.launches))
            } else {
                Ok((bytes + totals.last().0, launches + totals.last().1))
            },
        }
    }
}

/// A prefix that does not fit makes the whole not fit.
proof fn lemma_totalled_prefix<E>(totals: Seq<(int, int)>, end: int, labels: Labels)
    requires
        0 <= end <= totals.len(),
        totalled::<E>(totals.take(end), labels) is Err,
    ensures
        totalled::<E>(totals, labels) == totalled::<E>(totals.take(end), labels),
    decreases totals.len() - end,
{
    if end < totals.len() {
        assert(totals.drop_last().take(end) =~= totals.take(end));
        lemma_totalled_prefix::<E>(totals.drop_last(), end, labels);
    } else {
        assert(totals.take(end) =~= totals);
    }
}

/// Counts as plain numbers.
pub open spec fn counted(totals: Seq<(usize, u32)>) -> Seq<(int, int)> {
    Seq::new(totals.len(), |i: int| (totals[i].0 as int, totals[i].1 as int))
}

/// Adds up the channels' counts.
pub(crate) fn total_counts<E>(
    totals: &Vec<(usize, u32)>,
    bytes_label: &'static str,
    launches_label: &'static str,
) -> (result: Result<(usize, u32), RankError>)
    ensures
        match totalled::<E>(
            counted(totals@),
            (Labels { bytes: bytes_label@, launches: launches_label@ }),
        ) {
            Ok((bytes, launches)) => {
                &&& result is Ok
                &&& result->Ok_0.0 == bytes
                &&& result->Ok_0.1 == launches
            },
            Err(failure) => result is Err && Failure::<E>::Rank(result->Err_0@) == failure,
        },
{
    let ghost labels = Labels { bytes: bytes_label@, launches: launches_label@ };
    let ghost all = counted(totals@);
    let mut bytes: usize = 0;
    let mut launches: u32 = 0;
    let mut index: usize = 0;
    while index < totals.len()
        invariant
            index <= totals@.len(),
            all == counted(totals@),
            labels == (Labels { bytes: bytes_label@, launches: launches_label@ }),
            totalled::<E>(all.take(index as int), labels) == Ok::<(int, int), Failure<E>>(
                (bytes as int, launches as int),
            ),
        decreases totals.len() - index,
    {
        assert(all.take(index + 1).drop_last() =~= all.take(index as int));
        let (more_bytes, more_launches) = totals[index];
        match bytes.checked_add(more_bytes) {
            Some(sum) => {
                bytes = sum;
            },
            None => {
                proof {
                    lemma_totalled_prefix::<E>(all, index + 1, labels);
                }
                return Err(RankError::Overflow(bytes_label));
            },
        }
        match launches.checked_add(more_launches) {
            Some(sum) => {
                launches = sum;
            },
            None => {
                proof {
                    lemma_totalled_prefix::<E>(all, index + 1, labels);
                }
                return Err(RankError::Overflow(launches_label));
            },
        }
        index = index + 1;
    }
    assert(all.take(index as int) =~= all);
    Ok((bytes, launches))
}

/// The channels of a ring all-reduce over a whole buffer.
pub open spec fn all_reduce_channels<T, D: RankDevice<T>>(
    model: CollectiveModel,
    length: int,
    channels: int,
    operation: u64,
    reduce: spec_fn(T, T) -> T,
) -> spec_fn(int, Seq<T>) -> Script<Tally<T>, D::Error> {
    |channel: int, values: Seq<T>|
        all_reduce_channel::<T, D>(
            model,
            values,
            balanced_start(length, channels, channel),
            chunk_length(length, channels, channel),
            operation,
            channel as usize,
            reduce,
        )
}

pub open spec fn all_reduce_finished<T, D: RankDevice<T>>(model: CollectiveModel) -> spec_fn(
    (Seq<T>, Seq<(int, int)>),
) -> Script<(Seq<T>, CollectiveStats), D::Error> {
    |run: (Seq<T>, Seq<(int, int)>)|
        match totalled::<D::Error>(run.1, all_reduce_labels()) {
            Err(failure) => fails(failure),
            Ok((bytes, launches)) => yields(
                (
                    run.0,
                    stats_of(
                        model.place,
                        CollectiveAlgorithm::Ring,
                        2 * (model.world() - 1),
                        bytes,
                        launches,
                    ),
                ),
            ),
        }
}

pub open spec fn all_reduce_agreed<T, D: RankDevice<T>>(
    model: CollectiveModel,
    values: Seq<T>,
    channels: int,
    operation: u64,
    reduce: spec_fn(T, T) -> T,
) -> spec_fn(()) -> Script<(Seq<T>, CollectiveStats), D::Error> {
    |agreed: ()|
        tried(
            channels_script(
                all_reduce_channels::<T, D>(
                    model,
                    values.len() as int,
                    channels,
                    operation,
                    reduce,
                ),
                0,
                channels,
                values,
                Seq::empty(),
            ),
            false,
            all_reduce_finished::<T, D>(model),
        )
}

/// The script of a ring all-reduce.
pub open spec fn all_reduce_ring_script<T, D: RankDevice<T>>(
    model: CollectiveModel,
    values: Seq<T>,
    operation: u64,
    reduction: ReductionOperation,
    ring_channels: int,
    reduce: spec_fn(T, T) -> T,
) -> Script<(Seq<T>, CollectiveStats), D::Error> {
    let channels = effective_channels(ring_channels, values.len() as int);
    tried(
        model.ring_agreement(
            operation,
            values.len() as int,
            (0x100 + reduction.spec_code()) as u32,
            channels,
        ),
        false,
        all_reduce_agreed::<T, D>(model, values, channels, operation, reduce),
    )
}

impl<'a, T, D: RankDevice<T>, S: RankTransport> DeviceCollective<'a, T, D, S> where
    D::Error: From<RankError> + From<NetworkError> + From<TopologyError>,
 {
    /// One leg that writes what it receives over the buffer.
    pub(crate) fn exchange_store(
        &mut self,
        buffer: &mut D::Buffer,
        send_range: Range<usize>,
        receive_range: Range<usize>,
        destination: u32,
        source: u32,
        channel: usize,
        tag: u64,
        transferred_bytes: usize,
        bytes_label: &'static str,
        Ghost(launches): Ghost<u32>,
        Ghost(reduce): Ghost<spec_fn(T, T) -> T>,
        Ghost(launches_label): Ghost<Seq<char>>,
    ) -> (result: Result<usize, D::Error>)
        requires
            send_range.start <= send_range.end <= D::values(&*old(buffer)).len(),
            receive_range.start <= receive_range.end <= D::values(&*old(buffer)).len(),
            old(self).model().rails.len() > 0,
        ensures
            *final(final(self).link) == *final(old(self).link),
            final(self).model() == old(self).model(),
            final(self).next() == old(self).next(),
            D::values(&*final(buffer)).len() == D::values(&*old(buffer)).len(),
            result is Ok ==> forall|x: int|
                0 <= x < D::values(&*old(buffer)).len() && !(receive_range.start <= x
                    < receive_range.end) ==> #[trigger] D::values(&*final(buffer))[x] == D::values(
                    &*old(buffer),
                )[x],
            asked(
                old(self).standing().faults,
                final(self).standing().faults,
                |call: DeviceCall| call.handles_part(D::values(&*old(buffer)).len() as int),
            ),
            reads_first(old(self).standing(), final(self).standing()),
            conversed(
                leg_script::<T, D>(
                    old(self).model().element_type,
                    old(self).model().rail(channel as int),
                    D::values(&*old(buffer)),
                    (Tally {
                        values: D::values(&*old(buffer)),
                        bytes: transferred_bytes as int,
                        launches: launches as int,
                    }),
                    (Leg {
                        send_start: send_range.start as int,
                        send_length: send_range.end - send_range.start,
                        receive_start: receive_range.start as int,
                        receive_length: receive_range.end - receive_range.start,
                        destination,
                        source,
                        tag,
                        reduce: false,
                    }),
                    reduce,
                    (Labels { bytes: bytes_label@, launches: launches_label }),
                ),
                old(self).standing(),
                final(self).standing(),
                match result {
                    Ok(bytes) => Ok(
                        Tally {
                            values: D::values(&*final(buffer)),
                            bytes: bytes as int,
                            launches: launches as int,
                        },
                    ),
                    Err(error) => Err(error),
                },
                false,
            ),
    {
        let ghost before = self.standing();
        let ghost model = self.model();
        let ghost leg = Leg {
            send_start: send_range.start as int,
            send_length: send_range.end - send_range.start,
            receive_start: receive_range.start as int,
            receive_length: receive_range.end - receive_range.start,
            destination,
            source,
            tag,
            reduce: false,
        };
        let ghost tally = Tally {
            values: D::values(&*buffer),
            bytes: transferred_bytes as int,
            launches: launches as int,
        };
        let ghost labels = Labels { bytes: bytes_label@, launches: launches_label };
        let ghost next = leg_next::<T, D>(tally, leg, reduce, labels);
        let ghost script = leg_script::<T, D>(
            model.element_type,
            model.rail(channel as int),
            D::values(&*buffer),
            tally,
            leg,
            reduce,
            labels,
        );
        let ghost first = chunk_script::<T, D>(
            model.element_type,
            model.rail(channel as int),
            D::values(&*buffer).subrange(leg.send_start, leg.send_start + leg.send_length),
            leg.receive_length,
            destination,
            source,
            tag,
        );
        proof {
            lemma_start(script, before.log);
        }
        let send_length: usize = send_range.end - send_range.start;
        let receive_length: usize = receive_range.end - receive_range.start;
        let outcome = self.exchange_ring_chunk_bytes(
            &*buffer,
            send_range,
            receive_length,
            destination,
            source,
            channel,
            tag,
        );
        proof {
            lemma_part(
                script,
                before,
                before,
                self.standing(),
                first,
                false,
                next,
                received_bytes(outcome),
            );
        }
        let received = match outcome {
            Ok(received) => received,
            Err(error) => {
                return Err(error);
            },
        };
        let moved: usize = saturating_add_usize(
            saturating_mul_usize(send_length, D::ELEMENT_SIZE),
            received.len(),
        );
        let total: usize = match transferred_bytes.checked_add(moved) {
            Some(total) => total,
            None => {
                return Err(from_rank(RankError::Overflow(bytes_label)));
            },
        };
        proof {
            lemma_bytes_fit(
                D::values(&*buffer).len() as int,
                receive_range.start as int,
                receive_length as int,
                D::ELEMENT_SIZE as int,
            );
            lemma_reading_length::<T, D>(received@, receive_length as nat);
        }
        if received.len() != 0 {
            match self.link.execution.copy_bytes_to_device_at(
                buffer,
                receive_range.start,
                received.as_slice(),
            ) {
                Ok(()) => {},
                Err(error) => {
                    return Err(error);
                },
            }
        } else {
            proof {
                lemma_nothing_overwritten::<T, D>(
                    D::values(&*buffer),
                    leg.receive_start,
                    received@,
                    receive_length as nat,
                );
            }
        }
        Ok(total)
    }

    /// One round of a ring collective, in place.
    pub(crate) fn ring_round(
        &mut self,
        buffer: &mut D::Buffer,
        ring: &[u32],
        blocks: &Vec<Range<usize>>,
        position: usize,
        origin: usize,
        tags: RoundTags,
        rail_hint: usize,
        function: &D::Kernel,
        reduce: bool,
        start_bytes: usize,
        start_launches: u32,
        bytes_label: &'static str,
        launches_label: &'static str,
    ) -> (result: Result<(usize, u32), D::Error>)
        requires
            position < ring@.len(),
            origin < ring@.len(),
            blocks@.len() == ring@.len(),
            ranges_fit(blocks@, D::values(&*old(buffer)).len() as int),
            old(self).model().rails.len() > 0,
        ensures
            *final(final(self).link) == *final(old(self).link),
            final(self).model() == old(self).model(),
            final(self).next() == old(self).next(),
            D::values(&*final(buffer)).len() == D::values(&*old(buffer)).len(),
            result is Ok ==> changed_in(
                D::values(&*old(buffer)),
                D::values(&*final(buffer)),
                blocks@,
            ),
            asked(
                old(self).standing().faults,
                final(self).standing().faults,
                |call: DeviceCall| call.handles_part(D::values(&*old(buffer)).len() as int),
            ),
            reads_first(old(self).standing(), final(self).standing()),
            conversed(
                relay::<T, D>(
                    old(self).model().element_type,
                    old(self).model().rail(rail_hint as int),
                    round_legs(
                        ring@,
                        bounds(blocks@),
                        position as int,
                        origin as int,
                        tags.tags(),
                        reduce,
                    ),
                    0,
                    (Tally {
                        values: D::values(&*old(buffer)),
                        bytes: start_bytes as int,
                        launches: start_launches as int,
                    }),
                    D::reduction(function),
                    (Labels { bytes: bytes_label@, launches: launches_label@ }),
                ),
                old(self).standing(),
                final(self).standing(),
                tallied::<T, D>(result, D::values(&*final(buffer))),
                false,
            ),
    {
        let ghost before = self.standing();
        let ghost model = self.model();
        let ghost rail = model.rail(rail_hint as int);
        let ghost combine = D::reduction(function);
        let ghost labels = Labels { bytes: bytes_label@, launches: launches_label@ };
        let ghost legs = round_legs(
            ring@,
            bounds(blocks@),
            position as int,
            origin as int,
            tags.tags(),
            reduce,
        );
        let ghost script = relay::<T, D>(
            model.element_type,
            rail,
            legs,
            0,
            (Tally {
                values: D::values(&*buffer),
                bytes: start_bytes as int,
                launches: start_launches as int,
            }),
            combine,
            labels,
        );
        proof {
            lemma_start(script, before.log);
        }
        let count: usize = ring.len();
        let previous: usize = back(position, 1, count);
        let next: usize = forward(position, count);
        let source: u32 = ring[previous];
        let destination: u32 = ring[next];
        let mut transferred_bytes: usize = start_bytes;
        let mut launches: u32 = start_launches;
        let mut step: usize = 0;
        while step < count - 1
            invariant
                step <= count - 1,
                count == ring@.len(),
                origin < count,
                position < count,
                blocks@.len() == count,
                source == ring@[(position - 1) % (count as int)],
                destination == ring@[(position + 1) % (count as int)],
                changed_in(D::values(&*old(buffer)), D::values(&*buffer), blocks@),
                ranges_fit(blocks@, D::values(&*buffer).len() as int),
                D::values(&*buffer).len() == D::values(&*old(buffer)).len(),
                model.rails.len() > 0,
                model == old(self).model(),
                rail == model.rail(rail_hint as int),
                combine == D::reduction(function),
                labels == (Labels { bytes: bytes_label@, launches: launches_label@ }),
                legs == round_legs(
                    ring@,
                    bounds(blocks@),
                    position as int,
                    origin as int,
                    tags.tags(),
                    reduce,
                ),
                before == old(self).standing(),
                script == relay::<T, D>(
                    model.element_type,
                    rail,
                    legs,
                    0,
                    (Tally {
                        values: D::values(&*old(buffer)),
                        bytes: start_bytes as int,
                        launches: start_launches as int,
                    }),
                    combine,
                    labels,
                ),
                *final(self.link) == *final(old(self).link),
                self.model() == model,
                self.next() == old(self).next(),
                self.standing().faults == before.faults,
                followed(script, before.log, self.standing().log),
                reached(script, before.log, self.standing().log) == relay::<T, D>(
                    model.element_type,
                    rail,
                    legs,
                    step as int,
                    (Tally {
                        values: D::values(&*buffer),
                        bytes: transferred_bytes as int,
                        launches: launches as int,
                    }),
                    combine,
                    labels,
                ),
            decreases count - 1 - step,
        {
            let send: usize = back(origin, step, count);
            let receive: usize = back(origin, step + 1, count);
            let send_range = Range { start: blocks[send].start, end: blocks[send].end };
            let receive_range = Range { start: blocks[receive].start, end: blocks[receive].end };
            let tag: u64 = tags.tag(step);
            let ghost tally = Tally {
                values: D::values(&*buffer),
                bytes: transferred_bytes as int,
                launches: launches as int,
            };
            let ghost leg = legs[step as int];
            let ghost first = leg_script::<T, D>(
                model.element_type,
                rail,
                tally.values,
                tally,
                leg,
                combine,
                labels,
            );
            let ghost after = relay_next::<T, D>(
                model.element_type,
                rail,
                legs,
                step as int,
                combine,
                labels,
            );
            let ghost mid = self.standing();
            assert(bounds(blocks@)[send as int] == (
                blocks@[send as int].start as int,
                blocks@[send as int].end as int,
            ));
            assert(bounds(blocks@)[receive as int] == (
                blocks@[receive as int].start as int,
                blocks@[receive as int].end as int,
            ));
            assert(leg == (Leg {
                send_start: send_range.start as int,
                send_length: send_range.end - send_range.start,
                receive_start: receive_range.start as int,
                receive_length: receive_range.end - receive_range.start,
                destination,
                source,
                tag,
                reduce,
            }));
            let outcome = if reduce {
                self.exchange_reduce(
                    buffer,
                    send_range,
                    receive_range,
                    destination,
                    source,
                    rail_hint,
                    tag,
                    function,
                    transferred_bytes,
                    launches,
                    bytes_label,
                    launches_label,
                )
            } else {
                match self.exchange_store(
                    buffer,
                    send_range,
                    receive_range,
                    destination,
                    source,
                    rail_hint,
                    tag,
                    transferred_bytes,
                    bytes_label,
                    Ghost(launches),
                    Ghost(combine),
                    Ghost(launches_label@),
                ) {
                    Ok(bytes) => Ok((bytes, launches)),
                    Err(error) => Err(error),
                }
            };
            proof {
                lemma_part(
                    script,
                    before,
                    mid,
                    self.standing(),
                    first,
                    false,
                    after,
                    tallied::<T, D>(outcome, D::values(&*buffer)),
                );
            }
            match outcome {
                Ok((bytes, count_now)) => {
                    transferred_bytes = bytes;
                    launches = count_now;
                    assert forall|x: int|
                        0 <= x < D::values(&*buffer).len() && !in_some(
                            blocks@,
                            x,
                        ) implies #[trigger] D::values(&*buffer)[x] == D::values(
                        &*old(buffer),
                    )[x] by {
                        assert(!(blocks@[receive as int].start <= x
                            < blocks@[receive as int].end));
                    }
                },
                Err(error) => {
                    return Err(error);
                },
            }
            step = step + 1;
        }
        Ok((transferred_bytes, launches))
    }
}

/// Nothing received changes nothing.
proof fn lemma_nothing_overwritten<T, D: RankDevice<T>>(
    values: Seq<T>,
    offset: int,
    bytes: Seq<u8>,
    count: nat,
)
    requires
        bytes.len() == 0,
        bytes.len() == count * D::ELEMENT_SIZE,
        reads_evenly::<T, D>(),
    ensures
        overwritten(values, offset, D::reading(bytes)) == values,
{
    assert(0 * D::ELEMENT_SIZE == 0) by (nonlinear_arith);
    lemma_reading_length::<T, D>(bytes, 0);
    assert(overwritten(values, offset, D::reading(bytes)) =~= values);
}

/// The blocks of a range that is shared out over a ring of ranks.
pub(crate) fn place_blocks(ring: &[u32], start: usize, length: usize) -> (blocks: Vec<Range<usize>>)
    requires
        ring@.len() > 0,
        forall|i: int| 0 <= i < ring@.len() ==> #[trigger] ring@[i] < ring@.len(),
        start + length <= usize::MAX,
    ensures
        blocks@.len() == ring@.len(),
        bounds(blocks@) == rank_blocks(ring@, start as int, length as int),
        ranges_fit(blocks@, start + length),
{
    let ranges = partitions_of(start, length, ring.len());
    let mut blocks: Vec<Range<usize>> = Vec::new();
    let mut place: usize = 0;
    while place < ring.len()
        invariant
            place <= ring@.len(),
            start + length <= usize::MAX,
            forall|i: int| 0 <= i < ring@.len() ==> #[trigger] ring@[i] < ring@.len(),
            ranges@.len() == ring@.len(),
            forall|i: int|
                0 <= i < ring@.len() ==> {
                    &&& (#[trigger] ranges@[i]).start == start + balanced_start(
                        length as int,
                        ring@.len() as int,
                        i,
                    )
                    &&& ranges@[i].end == start + balanced_start(
                        length as int,
                        ring@.len() as int,
                        i + 1,
                    )
                    &&& start <= ranges@[i].start <= ranges@[i].end <= start + length
                },
            blocks@.len() == place,
            forall|i: int|
                0 <= i < place ==> {
                    &&& (#[trigger] blocks@[i]).start == start + balanced_start(
                        length as int,
                        ring@.len() as int,
                        ring@[i] as int,
                    )
                    &&& blocks@[i].end == start + balanced_start(
                        length as int,
                        ring@.len() as int,
                        ring@[i] + 1,
                    )
                    &&& blocks@[i].start <= blocks@[i].end <= start + length
                },
        decreases ring.len() - place,
    {
        let chunk: usize = ring[place] as usize;
        assert(ring@[place as int] < ring@.len());
        blocks.push(Range { start: ranges[chunk].start, end: ranges[chunk].end });
        place = place + 1;
    }
    assert(bounds(blocks@) =~= rank_blocks(ring@, start as int, length as int));
    blocks
}

/// A ring holds a rank at one place only.
pub(crate) proof fn lemma_place_in_ring(ring: Seq<u32>, place: int)
    requires
        0 <= place < ring.len(),
        ring.no_duplicates(),
    ensures
        ring.contains(ring[place]),
        ring.index_of(ring[place]) == place,
{
    let found = ring.index_of(ring[place]);
    assert(ring[found] == ring[place]);
}

impl CollectiveModel {
    /// The ring of a channel holds every rank once.
    pub proof fn lemma_ring(self, channel: int)
        requires
            self.valid(),
            0 <= channel,
        ensures
            is_ring(self.place.world_size, self.ring(channel)),
    {
        let count = self.tuning.ring_orders.len() as int;
        lemma_mod_bound(channel, count);
        assert(is_ring(
            self.tuning.topology.world_size,
            self.tuning.ring_orders[channel % count],
        ));
    }
}

impl<'a, T, D: RankDevice<T>, S: RankTransport> DeviceCollective<'a, T, D, S> where
    D::Error: From<RankError> + From<NetworkError> + From<TopologyError>,
 {
    /// Two rounds over a ring: the blocks are reduced, then shared.
    pub(crate) fn reduce_and_share(
        &mut self,
        buffer: &mut D::Buffer,
        ring: &[u32],
        blocks: &Vec<Range<usize>>,
        position: usize,
        first: RoundTags,
        second: RoundTags,
        rail_hint: usize,
        function: &D::Kernel,
        bytes_label: &'static str,
        launches_label: &'static str,
    ) -> (result: Result<(usize, u32), D::Error>)
        requires
            position < ring@.len(),
            blocks@.len() == ring@.len(),
            ranges_fit(blocks@, D::values(&*old(buffer)).len() as int),
            old(self).model().rails.len() > 0,
        ensures
            *final(final(self).link) == *final(old(self).link),
            final(self).model() == old(self).model(),
            final(self).next() == old(self).next(),
            D::values(&*final(buffer)).len() == D::values(&*old(buffer)).len(),
            asked(
                old(self).standing().faults,
                final(self).standing().faults,
                |call: DeviceCall| call.handles_part(D::values(&*old(buffer)).len() as int),
            ),
            reads_first(old(self).standing(), final(self).standing()),
            conversed(
                two_rounds::<T, D>(
                    old(self).model().element_type,
                    old(self).model().rail(rail_hint as int),
                    ring@,
                    bounds(blocks@),
                    position as int,
                    first,
                    second,
                    D::values(&*old(buffer)),
                    D::reduction(function),
                    (Labels { bytes: bytes_label@, launches: launches_label@ }),
                ),
                old(self).standing(),
                final(self).standing(),
                tallied::<T, D>(result, D::values(&*final(buffer))),
                false,
            ),
    {
        let ghost before = self.standing();
        let ghost model = self.model();
        let ghost rail = model.rail(rail_hint as int);
        let ghost combine = D::reduction(function);
        let ghost labels = Labels { bytes: bytes_label@, launches: launches_label@ };
        let ghost script = two_rounds::<T, D>(
            model.element_type,
            rail,
            ring@,
            bounds(blocks@),
            position as int,
            first,
            second,
            D::values(&*buffer),
            combine,
            labels,
        );
        let ghost next = second_round::<T, D>(
            model.element_type,
            rail,
            ring@,
            bounds(blocks@),
            position as int,
            second,
            combine,
            labels,
        );
        let ghost start = Tally { values: D::values(&*buffer), bytes: 0, launches: 0 };
        let ghost first_relay = relay::<T, D>(
            model.element_type,
            rail,
            round_legs(
                ring@,
                bounds(blocks@),
                position as int,
                position as int,
                first.tags(),
                true,
            ),
            0,
            start,
            combine,
            labels,
        );
        proof {
            lemma_start(script, before.log);
        }
        let outcome = self.ring_round(
            buffer,
            ring,
            blocks,
            position,
            position,
            first,
            rail_hint,
            function,
            true,
            0,
            0,
            bytes_label,
            launches_label,
        );
        let ghost mid = self.standing();
        let ghost reduced = tallied::<T, D>(outcome, D::values(&*buffer));
        proof {
            lemma_part(script, before, before, mid, first_relay, false, next, reduced);
        }
        let (bytes, launches) = match outcome {
            Ok(counts) => counts,
            Err(error) => {
                return Err(error);
            },
        };
        let origin: usize = forward(position, ring.len());
        let ghost rest = next(reduced->Ok_0);
        let outcome = self.ring_round(
            buffer,
            ring,
            blocks,
            position,
            origin,
            second,
            rail_hint,
            function,
            false,
            bytes,
            launches,
            bytes_label,
            launches_label,
        );
        proof {
            lemma_rest(
                script,
                before,
                mid,
                self.standing(),
                rest,
                tallied::<T, D>(outcome, D::values(&*buffer)),
                false,
            );
        }
        outcome
    }

    fn all_reduce_ring_channel(
        &mut self,
        buffer: &mut D::Buffer,
        channel_range: Range<usize>,
        operation: u64,
        channel: usize,
        function: &D::Kernel,
    ) -> (result: Result<(usize, u32), D::Error>)
        requires
            old(self).model().valid(),
            channel_range.start <= channel_range.end <= D::values(&*old(buffer)).len(),
        ensures
            *final(final(self).link) == *final(old(self).link),
            final(self).model() == old(self).model(),
            final(self).next() == old(self).next(),
            D::values(&*final(buffer)).len() == D::values(&*old(buffer)).len(),
            asked(
                old(self).standing().faults,
                final(self).standing().faults,
                |call: DeviceCall| call.handles_part(D::values(&*old(buffer)).len() as int),
            ),
            conversed(
                all_reduce_channel::<T, D>(
                    old(self).model(),
                    D::values(&*old(buffer)),
                    channel_range.start as int,
                    channel_range.end - channel_range.start,
                    operation,
                    channel,
                    D::reduction(function),
                ),
                old(self).standing(),
                final(self).standing(),
                tallied::<T, D>(result, D::values(&*final(buffer))),
                false,
            ),
    {
        let ghost before = self.standing();
        let ghost model = self.model();
        proof {
            model.lemma_ring(channel as int);
            lemma_start(
                all_reduce_channel::<T, D>(
                    model,
                    D::values(&*buffer),
                    channel_range.start as int,
                    channel_range.end - channel_range.start,
                    operation,
                    channel,
                    D::reduction(function),
                ),
                before.log,
            );
        }
        let tuning = self.tuning;
        let ring = tuning.ring_order_for_channel(channel);
        let position: usize = match self.ring_position(ring) {
            Ok(position) => position,
            Err(error) => {
                return Err(error);
            },
        };
        proof {
            lemma_place_in_ring(ring@, position as int);
        }
        let limit: usize = self.link.execution.buffer_len(&*buffer);
        let blocks = place_blocks(
            ring,
            channel_range.start,
            channel_range.end - channel_range.start,
        );
        assert(ranges_fit(blocks@, D::values(&*buffer).len() as int));
        self.reduce_and_share(
            buffer,
            ring,
            &blocks,
            position,
            RoundTags { operation, channel, phase: 0, hierarchical: false },
            RoundTags { operation, channel, phase: 1, hierarchical: false },
            channel,
            function,
            "ring all-reduce transferred bytes",
            "ring all-reduce kernel launches",
        )
    }

    /// The channels of a ring all-reduce; a failure in one is told to the other
    /// ranks.
    fn all_reduce_ring_channels(
        &mut self,
        buffer: &mut D::Buffer,
        operation: u64,
        channels: usize,
        function: &D::Kernel,
    ) -> (result: Result<Vec<(usize, u32)>, D::Error>)
        requires
            old(self).model().valid(),
            channels > 0,
        ensures
            *final(final(self).link) == *final(old(self).link),
            final(self).model() == old(self).model(),
            final(self).next() == old(self).next(),
            D::values(&*final(buffer)).len() == D::values(&*old(buffer)).len(),
            asked(
                old(self).standing().faults,
                final(self).standing().faults,
                |call: DeviceCall| call.handles_part(D::values(&*old(buffer)).len() as int),
            ),
            performed::<T, D, (Seq<T>, Seq<(int, int)>)>(
                channels_script(
                    all_reduce_channels::<T, D>(
                        old(self).model(),
                        D::values(&*old(buffer)).len() as int,
                        channels as int,
                        operation,
                        D::reduction(function),
                    ),
                    0,
                    channels as int,
                    D::values(&*old(buffer)),
                    Seq::empty(),
                ),
                "ring all-reduce"@,
                (Scope::Ring { agreed: true }),
                old(self).standing(),
                final(self).standing(),
                counted_result::<T, D>(result, D::values(&*final(buffer))),
            ),
    {
        let ghost before = self.standing();
        let ghost model = self.model();
        let ghost combine = D::reduction(function);
        let length: usize = self.link.execution.buffer_len(&*buffer);
        let ghost each = all_reduce_channels::<T, D>(
            model,
            length as int,
            channels as int,
            operation,
            combine,
        );
        let ghost script = channels_script(
            each,
            0,
            channels as int,
            D::values(&*buffer),
            Seq::empty(),
        );
        let ranges = balanced_ranges(length, channels);
        let mut totals: Vec<(usize, u32)> = Vec::new();
        assert(counted(totals@) =~= Seq::empty());
        proof {
            lemma_start(script, before.log);
        }
        let mut channel: usize = 0;
        while channel < channels
            invariant
                channel <= channels,
                channels > 0,
                are_balanced_ranges(ranges@, length as int, channels as int),
                length == D::values(&*buffer).len(),
                length == D::values(&*old(buffer)).len(),
                model == old(self).model(),
                model.valid(),
                combine == D::reduction(function),
                each == all_reduce_channels::<T, D>(
                    model,
                    length as int,
                    channels as int,
                    operation,
                    combine,
                ),
                before == old(self).standing(),
                script == channels_script(
                    each,
                    0,
                    channels as int,
                    D::values(&*old(buffer)),
                    Seq::empty(),
                ),
                *final(self.link) == *final(old(self).link),
                self.model() == model,
                self.next() == old(self).next(),
                self.standing().faults == before.faults,
                followed(script, before.log, self.standing().log),
                reached(script, before.log, self.standing().log) == channels_script(
                    each,
                    channel as int,
                    channels as int,
                    D::values(&*buffer),
                    counted(totals@),
                ),
            decreases channels - channel,
        {
            proof {
                law_balanced_partition(length as int, channels as int, channel as int);
            }
            let ghost mid = self.standing();
            let ghost first = each(channel as int, D::values(&*buffer));
            let ghost next = channels_next(
                each,
                channel as int,
                channels as int,
                counted(totals@),
            );
            let range = Range { start: ranges[channel].start, end: ranges[channel].end };
            let outcome = self.all_reduce_ring_channel(
                buffer,
                range,
                operation,
                channel,
                function,
            );
            let ghost told = self.standing();
            proof {
                lemma_part(
                    script,
                    before,
                    mid,
                    told,
                    first,
                    true,
                    next,
                    tallied::<T, D>(outcome, D::values(&*buffer)),
                );
            }
            let outcome = self.propagate_channel_failure("ring all-reduce", outcome);
            match outcome {
                Ok(counts) => {
                    let ghost was = counted(totals@);
                    totals.push(counts);
                    assert(counted(totals@) =~= was.push((counts.0 as int, counts.1 as int)));
                },
                Err(error) => {
                    return Err(error);
                },
            }
            channel = channel + 1;
        }
        Ok(totals)
    }

    pub fn all_reduce_ring(
        &mut self,
        buffer: &mut D::Buffer,
        reduction_operation: ReductionOperation,
        function: &D::Kernel,
        ring_channels: usize,
    ) -> (result: Result<CollectiveStats, D::Error>)
        requires
            old(self).model().valid(),
            ring_channels > 0,
        ensures
            *final(final(self).link) == *final(old(self).link),
            final(self).model() == old(self).model(),
            final(self).next() == old(self).next().wrapping_add(1),
            D::values(&*final(buffer)).len() == D::values(&*old(buffer)).len(),
            result is Err && refused_at_once(old(self).standing(), final(self).standing())
                ==> D::values(&*final(buffer)) == D::values(&*old(buffer)),
            asked(
                old(self).standing().faults,
                final(self).standing().faults,
                |call: DeviceCall| call.handles_part(D::values(&*old(buffer)).len() as int),
            ),
            performed::<T, D, (Seq<T>, CollectiveStats)>(
                all_reduce_ring_script::<T, D>(
                    old(self).model(),
                    D::values(&*old(buffer)),
                    old(self).next(),
                    reduction_operation,
                    ring_channels as int,
                    D::reduction(function),
                ),
                "ring all-reduce"@,
                (Scope::Ring { agreed: false }),
                old(self).standing(),
                final(self).standing(),
                in_place::<T, D>(result, D::values(&*final(buffer))),
            ),
    {
        let ghost before = self.standing();
        let ghost model = self.model();
        let ghost combine = D::reduction(function);
        let ghost held = D::values(&*buffer);
        let world_size: u32 = self.world_size();
        let operation: u64 = self.link.internal_sequence;
        self.link.internal_sequence = operation.wrapping_add(1);
        let length: usize = self.link.execution.buffer_len(&*buffer);
        let channels: usize = self.effective_ring_channels(ring_channels, length);
        let ghost script = all_reduce_ring_script::<T, D>(
            model,
            held,
            operation,
            reduction_operation,
            ring_channels as int,
            combine,
        );
        let ghost agreed = all_reduce_agreed::<T, D>(
            model,
            held,
            channels as int,
            operation,
            combine,
        );
        proof {
            lemma_start(script, before.log);
        }
        let discriminator: u32 = 0x100 + reduction_operation.code();
        let outcome = self.ring_agreement(operation, length, discriminator, channels);
        let ghost mid = self.standing();
        proof {
            lemma_part(
                script,
                before,
                before,
                mid,
                model.ring_agreement(operation, length as int, discriminator, channels as int),
                false,
                agreed,
                outcome,
            );
        }
        match outcome {
            Ok(()) => {},
            Err(error) => {
                return Err(error);
            },
        }
        let ghost run = channels_script(
            all_reduce_channels::<T, D>(
                model,
                length as int,
                channels as int,
                operation,
                combine,
            ),
            0,
            channels as int,
            held,
            Seq::empty(),
        );
        let outcome = self.all_reduce_ring_channels(buffer, operation, channels, function);
        proof {
            assert(self.standing().log.take(mid.log.len() as int) =~= mid.log);
            lemma_past_agreement(
                fnv(
                    agreement_bytes(
                        operation,
                        length as u64,
                        model.channel_rings(channels as int),
                        discriminator,
                        channels as u64,
                        model.channel_rails(channels as int),
                    ),
                ),
                "invalid ring collective agreement response"@,
                before,
                mid,
                self.standing(),
            );
            lemma_performed_part::<T, D, (Seq<T>, Seq<(int, int)>), (Seq<T>, CollectiveStats)>(
                script,
                "ring all-reduce"@,
                (Scope::Ring { agreed: true }),
                (Scope::Ring { agreed: false }),
                before,
                mid,
                self.standing(),
                run,
                all_reduce_finished::<T, D>(model),
                counted_result::<T, D>(outcome, D::values(&*buffer)),
            );
        }
        let totals = match outcome {
            Ok(totals) => totals,
            Err(error) => {
                return Err(error);
            },
        };
        let (bytes, launches) = match total_counts::<D::Error>(
            &totals,
            "ring all-reduce transferred bytes",
            "ring all-reduce kernel launches",
        ) {
            Ok(counts) => counts,
            Err(error) => {
                return Err(from_rank(error));
            },
        };
        let steps: u32 = (2 * (world_size as u64 - 1)) as u32;
        Ok(self.stats(CollectiveAlgorithm::Ring, steps, bytes, launches))
    }
}

/// What a collective in place left in the buffer, and its statistics.
pub open spec fn in_place<T, D: RankDevice<T>>(
    result: Result<CollectiveStats, D::Error>,
    values: Seq<T>,
) -> Result<(Seq<T>, CollectiveStats), D::Error> {
    match result {
        Ok(stats) => Ok((values, stats)),
        Err(error) => Err(error),
    }
}

pub open spec fn counted_result<T, D: RankDevice<T>>(
    result: Result<Vec<(usize, u32)>, D::Error>,
    values: Seq<T>,
) -> Result<(Seq<T>, Seq<(int, int)>), D::Error> {
    match result {
        Ok(totals) => Ok((values, counted(totals@))),
        Err(error) => Err(error),
    }
}

} // verus!

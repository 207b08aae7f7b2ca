//! What the ranks of a world end up with when each runs its part of a ring
//! collective and each receives what its neighbour sent.

use crate::rank::device::{lossless, reads_evenly, RankDevice};
use crate::rank::device_collective::delivery::{
    delivered_to, facing, hop_taken, hops_for_each, hops_from, in_order_delivery,
    lemma_channels_took, lemma_delivered_in_parts, lemma_facing_channels, lemma_hop_met,
    lemma_took_parts, took, Hop,
};
use crate::rank::device_collective::ring::{
    all_reduce_agreed, all_reduce_channel, all_reduce_channels, all_reduce_finished,
    all_reduce_labels, all_reduce_ring_script, channels_next, channels_script, chunk_length,
    chunk_received, chunk_script, leg_applied, leg_next, leg_script, lemma_place_in_ring,
    rank_blocks, relay, relay_next, round_leg, round_legs, second_round, two_rounds, Labels, Leg,
    RoundTags, Tally,
};
use crate::rank::device_collective::{agreement_script, effective_channels, CollectiveModel};
use crate::rank::hash::fnv;
use crate::rank::layout::{
    balanced_owner, balanced_start, law_balanced_partition, lemma_balanced_monotone,
    lemma_balanced_owner,
};
use crate::rank::operation::ReductionOperation;
use crate::rank::protocol::ElementType;
use crate::rank::rounds::{
    arranged, by_place, in_block, incoming, law_any_ring, law_rounds, law_two_rounds,
    lemma_incoming, order_free, rank_fold, ring_fold, rounds, stepped,
};
use crate::rank::script::{
    lemma_over, lemma_ran_ask, lemma_ran_tried, ran, tried, Failure, Script, Stop, TransportCall,
    TransportEvent,
};
use crate::rank::stats::CollectiveStats;
use crate::rank::tags::agreement_bytes;
use crate::rank::topology::rings::{is_ring, lemma_ring_holds_all};
use vstd::arithmetic::div_mod::*;
use vstd::prelude::*;

verus! {

/// The device reads back what it encodes.
pub open spec fn faithful<T, D: RankDevice<T>>() -> bool {
    &&& reads_evenly::<T, D>()
    &&& forall|values: Seq<T>| #![trigger D::encoding(values)] lossless::<T, D>(values)
}

/// The bytes that a send carries.
pub open spec fn sent(call: TransportCall) -> Seq<u8> {
    match call {
        TransportCall::Send { payload, .. } => payload,
        _ => arbitrary(),
    }
}

/// The bytes that a receive brought.
pub open spec fn got(event: TransportEvent) -> Seq<u8> {
    match event.reply.frame() {
        Ok(frame) => frame.payload,
        Err(_) => arbitrary(),
    }
}

/// The ranks' conversations, event by event: what a rank receives from another
/// is what that rank sent in the call before.
pub open spec fn in_step(traces: Seq<Seq<TransportEvent>>) -> bool {
    forall|r: int, i: int|
        #![trigger traces[r][i]]
        0 <= r < traces.len() && 1 <= i < traces[r].len() ==> (match traces[r][i].call {
            TransportCall::Receive { source: Some(source), .. } => traces[r][i].reply.frame() is Ok
                && source < traces.len() && i - 1 < traces[source as int].len() ==> got(
                traces[r][i],
            ) == sent(traces[source as int][i - 1].call),
            _ => true,
        })
}

/// A part of every rank's conversation.
pub open spec fn part_of(
    traces: Seq<Seq<TransportEvent>>,
    from: int,
    to: int,
) -> Seq<Seq<TransportEvent>> {
    Seq::new(traces.len(), |r: int| traces[r].subrange(from, to))
}

/// The rest of every rank's conversation.
pub open spec fn rest_of(traces: Seq<Seq<TransportEvent>>, from: int) -> Seq<
    Seq<TransportEvent>,
> {
    Seq::new(traces.len(), |r: int| traces[r].skip(from))
}

pub proof fn lemma_part_in_step(traces: Seq<Seq<TransportEvent>>, from: int, to: int)
    requires
        in_step(traces),
        0 <= from <= to,
        forall|r: int| 0 <= r < traces.len() ==> to <= (#[trigger] traces[r]).len(),
    ensures
        in_step(part_of(traces, from, to)),
{
    let parts = part_of(traces, from, to);
    assert forall|r: int, i: int|
        #![trigger parts[r][i]]
        0 <= r < parts.len() && 1 <= i < parts[r].len() implies (match parts[r][i].call {
        TransportCall::Receive { source: Some(source), .. } => parts[r][i].reply.frame() is Ok
            && source < parts.len() && i - 1 < parts[source as int].len() ==> got(parts[r][i])
            == sent(parts[source as int][i - 1].call),
        _ => true,
    }) by {
        assert(parts[r][i] == traces[r][from + i]);
        if let TransportCall::Receive { source: Some(source), .. } = parts[r][i].call {
            if source < parts.len() {
                assert(to <= traces[source as int].len());
            }
        }
    }
}

pub proof fn lemma_rest_in_step(traces: Seq<Seq<TransportEvent>>, from: int)
    requires
        in_step(traces),
        0 <= from,
        forall|r: int| 0 <= r < traces.len() ==> from <= (#[trigger] traces[r]).len(),
    ensures
        in_step(rest_of(traces, from)),
{
    let parts = rest_of(traces, from);
    assert forall|r: int, i: int|
        #![trigger parts[r][i]]
        0 <= r < parts.len() && 1 <= i < parts[r].len() implies (match parts[r][i].call {
        TransportCall::Receive { source: Some(source), .. } => parts[r][i].reply.frame() is Ok
            && source < parts.len() && i - 1 < parts[source as int].len() ==> got(parts[r][i])
            == sent(parts[source as int][i - 1].call),
        _ => true,
    }) by {
        assert(parts[r][i] == traces[r][from + i]);
        if let TransportCall::Receive { source: Some(source), .. } = parts[r][i].call {
            if source < parts.len() {
                assert(from <= traces[source as int].len());
            }
        }
    }
}

/// Where every rank's hops fit every other's, in-order delivery brings each rank in
/// every hop what the other sent in the same hop.
pub proof fn lemma_delivered_in_step(traces: Seq<Seq<TransportEvent>>, hops: Seq<Seq<Hop>>)
    requires
        in_order_delivery(traces),
        traces.len() <= u32::MAX,
        hops.len() == traces.len(),
        forall|r: int| 0 <= r < traces.len() ==> took(#[trigger] traces[r], hops[r]),
        forall|r: int, s: int|
            #![trigger hops[r], hops[s]]
            0 <= r < traces.len() && 0 <= s < traces.len() ==> facing(
                hops[r],
                r as u32,
                hops[s],
                s as u32,
            ),
    ensures
        in_step(traces),
{
    assert forall|r: int, i: int|
        #![trigger traces[r][i]]
        0 <= r < traces.len() && 1 <= i < traces[r].len() implies (match traces[r][i].call {
        TransportCall::Receive { source: Some(source), .. } => traces[r][i].reply.frame() is Ok
            && source < traces.len() && i - 1 < traces[source as int].len() ==> got(traces[r][i])
            == sent(traces[source as int][i - 1].call),
        _ => true,
    }) by {
        if let TransportCall::Receive { source: Some(source), .. } = traces[r][i].call {
            if source < traces.len() {
                let own = hops[r];
                let j = i / 2;
                assert(took(traces[r], own));
                assert(hop_taken(own[j], traces[r][2 * j], traces[r][2 * j + 1]));
                assert(i == 2 * j + 1);
                assert(own[j].source == source);
                assert(took(traces[source as int], hops[source as int]));
                assert(facing(hops[r], r as u32, hops[source as int], source));
                assert(delivered_to(traces[r], r as u32, traces[source as int], source));
                lemma_hop_met(
                    traces[r],
                    own,
                    r as u32,
                    traces[source as int],
                    hops[source as int],
                    source,
                    j,
                );
            }
        }
    }
}

/// What follows an agreement is delivered in order.
pub proof fn lemma_rest_delivered(traces: Seq<Seq<TransportEvent>>)
    requires
        in_order_delivery(traces),
        forall|r: int|
            0 <= r < traces.len() ==> (#[trigger] traces[r]).len() >= 1
                && traces[r][0].call is Exchange,
    ensures
        in_order_delivery(rest_of(traces, 1)),
{
    let rests = rest_of(traces, 1);
    assert forall|r: int, s: int|
        #![trigger rests[r], rests[s]]
        0 <= r < rests.len() && 0 <= s < rests.len() implies delivered_to(
        rests[r],
        r as u32,
        rests[s],
        s as u32,
    ) by {
        let own = traces[r];
        let other = traces[s];
        assert(own[0].call is Exchange && other[0].call is Exchange);
        assert(delivered_to(traces[r], r as u32, traces[s], s as u32));
        lemma_delivered_in_parts(
            own,
            r as u32,
            1,
            own.len() as int,
            other,
            s as u32,
            1,
            other.len() as int,
        );
        assert(own.subrange(1, own.len() as int) =~= rests[r]);
        assert(other.subrange(1, other.len() as int) =~= rests[s]);
    }
}

/// Two places of a ring: the one receives from the other exactly where that one
/// sends to it.
pub proof fn lemma_neighbours(ring: Seq<u32>, place: int, other: int, distance: int)
    requires
        ring.no_duplicates(),
        0 <= place < ring.len(),
        0 <= other < ring.len(),
    ensures
        ring[(place - distance) % (ring.len() as int)] == ring[other] <==> ring[(other + distance)
            % (ring.len() as int)] == ring[place],
{
    let places = ring.len() as int;
    let before = (place - distance) % places;
    let after = (other + distance) % places;
    lemma_mod_bound(place - distance, places);
    lemma_mod_bound(other + distance, places);
    lemma_small_mod(place as nat, places as nat);
    lemma_small_mod(other as nat, places as nat);
    if before == other {
        lemma_add_mod_noop_right(distance, place - distance, places);
    }
    if after == place {
        lemma_add_mod_noop_right(-distance, other + distance, places);
    }
}

/// An exchange of chunks that succeeds is a send and a receive.
pub proof fn lemma_chunk_ran<T, D: RankDevice<T>>(
    element_type: ElementType,
    rail: usize,
    part: Seq<T>,
    receive_length: int,
    destination: u32,
    source: u32,
    tag: u64,
    events: Seq<TransportEvent>,
    bytes: Seq<u8>,
)
    requires
        ran(
            chunk_script::<T, D>(
                element_type,
                rail,
                part,
                receive_length,
                destination,
                source,
                tag,
            ),
            events,
            bytes,
        ),
    ensures
        events.len() == 2,
        sent(events[0].call) == D::encoding(part),
        events[1].call matches TransportCall::Receive { source: Some(from), .. } && from == source,
        events[1].reply.frame() is Ok,
        hop_taken(Hop { destination, source, tag }, events[0], events[1]),
        got(events[1]) == bytes,
        bytes.len() == receive_length * D::ELEMENT_SIZE,
{
    let script = chunk_script::<T, D>(
        element_type,
        rail,
        part,
        receive_length,
        destination,
        source,
        tag,
    );
    lemma_ran_ask(script->Ask_0, script->Ask_1, events, bytes);
    let second = (script->Ask_1)(events[0].reply);
    match events[0].reply.outcome() {
        Err(failure) => {
            lemma_over::<Seq<u8>, D::Error>(
                Err(Stop { failure: Failure::Network(failure), in_channel: false }),
                events.skip(1),
            );
        },
        Ok(()) => {
            lemma_ran_ask(second->Ask_0, second->Ask_1, events.skip(1), bytes);
            assert(events.skip(1)[0] == events[1]);
            let third = (second->Ask_1)(events[1].reply);
            assert(third == chunk_received::<T, D>(receive_length, events[1].reply));
            lemma_over(third->Done_0, events.skip(1).skip(1));
            assert(events.len() == 2);
        },
    }
}

/// The hop of a leg.
pub open spec fn leg_hop(leg: Leg) -> Hop {
    Hop { destination: leg.destination, source: leg.source, tag: leg.tag }
}

/// The hops of the legs from one on.
pub open spec fn leg_hops(legs: Seq<Leg>, index: int) -> Seq<Hop> {
    Seq::new((legs.len() - index) as nat, |j: int| leg_hop(legs[index + j]))
}

/// The first leg of a relay that succeeds.
pub proof fn lemma_relay_step<T, D: RankDevice<T>>(
    element_type: ElementType,
    rail: usize,
    legs: Seq<Leg>,
    index: int,
    tally: Tally<T>,
    reduce: spec_fn(T, T) -> T,
    labels: Labels,
    events: Seq<TransportEvent>,
    last: Tally<T>,
)
    requires
        ran(relay::<T, D>(element_type, rail, legs, index, tally, reduce, labels), events, last),
        0 <= index < legs.len(),
    ensures
        events.len() >= 2,
        ({
            let leg = legs[index];
            let bytes = got(events[1]);
            let next = leg_applied::<T, D>(tally, leg, bytes, reduce, labels);
            &&& sent(events[0].call) == D::encoding(
                tally.values.subrange(leg.send_start, leg.send_start + leg.send_length),
            )
            &&& hop_taken(leg_hop(leg), events[0], events[1])
            &&& bytes.len() == leg.receive_length * D::ELEMENT_SIZE
            &&& next is Ok
            &&& ran(
                relay::<T, D>(element_type, rail, legs, index + 1, next->Ok_0, reduce, labels),
                events.skip(2),
                last,
            )
        }),
{
    let leg = legs[index];
    let first = leg_script::<T, D>(
        element_type,
        rail,
        tally.values,
        tally,
        leg,
        reduce,
        labels,
    );
    let onward = relay_next::<T, D>(element_type, rail, legs, index, reduce, labels);
    let (k, mid) = lemma_ran_tried(first, false, onward, events, last);
    let chunk = chunk_script::<T, D>(
        element_type,
        rail,
        tally.values.subrange(leg.send_start, leg.send_start + leg.send_length),
        leg.receive_length,
        leg.destination,
        leg.source,
        leg.tag,
    );
    let taking = leg_next::<T, D>(tally, leg, reduce, labels);
    let (j, bytes) = lemma_ran_tried(chunk, false, taking, events.take(k), mid);
    lemma_chunk_ran::<T, D>(
        element_type,
        rail,
        tally.values.subrange(leg.send_start, leg.send_start + leg.send_length),
        leg.receive_length,
        leg.destination,
        leg.source,
        leg.tag,
        events.take(k).take(j),
        bytes,
    );
    let done = taking(bytes);
    lemma_over(done->Done_0, events.take(k).skip(j));
    assert(k == 2);
    assert(events.take(k).take(j)[0] == events[0]);
    assert(events.take(k).take(j)[1] == events[1]);
}

/// A relay that succeeds takes the hops of its legs.
pub proof fn lemma_relay_length<T, D: RankDevice<T>>(
    element_type: ElementType,
    rail: usize,
    legs: Seq<Leg>,
    index: int,
    tally: Tally<T>,
    reduce: spec_fn(T, T) -> T,
    labels: Labels,
    events: Seq<TransportEvent>,
    last: Tally<T>,
)
    requires
        ran(relay::<T, D>(element_type, rail, legs, index, tally, reduce, labels), events, last),
        0 <= index <= legs.len(),
    ensures
        events.len() == 2 * (legs.len() - index),
        took(events, leg_hops(legs, index)),
        index == legs.len() ==> last == tally,
    decreases legs.len() - index,
{
    if index == legs.len() {
        lemma_over::<Tally<T>, D::Error>(Ok(tally), events);
    } else {
        lemma_relay_step::<T, D>(
            element_type,
            rail,
            legs,
            index,
            tally,
            reduce,
            labels,
            events,
            last,
        );
        let next = leg_applied::<T, D>(tally, legs[index], got(events[1]), reduce, labels);
        lemma_relay_length::<T, D>(
            element_type,
            rail,
            legs,
            index + 1,
            next->Ok_0,
            reduce,
            labels,
            events.skip(2),
            last,
        );
        let one = seq![leg_hop(legs[index])];
        assert(took(events.take(2), one));
        lemma_took_parts(events.take(2), one, events.skip(2), leg_hops(legs, index + 1));
        assert(events.take(2) + events.skip(2) =~= events);
        assert(one + leg_hops(legs, index + 1) =~= leg_hops(legs, index));
    }
}

/// The steps of a round from one on.
pub open spec fn rounds_on<T>(
    tables: Seq<Seq<T>>,
    blocks: Seq<(int, int)>,
    offset: int,
    from: int,
    to: int,
    reducing: bool,
    reduce: spec_fn(T, T) -> T,
) -> Seq<Seq<T>>
    decreases to - from,
{
    if from >= to {
        tables
    } else {
        rounds_on(
            stepped(tables, blocks, offset, from, reducing, reduce),
            blocks,
            offset,
            from + 1,
            to,
            reducing,
            reduce,
        )
    }
}

/// Steps taken one after the other are the steps of the round.
pub proof fn lemma_rounds_on<T>(
    tables: Seq<Seq<T>>,
    blocks: Seq<(int, int)>,
    offset: int,
    from: int,
    to: int,
    reducing: bool,
    reduce: spec_fn(T, T) -> T,
)
    requires
        0 <= from <= to,
    ensures
        rounds_on(
            rounds(tables, blocks, offset, from, reducing, reduce),
            blocks,
            offset,
            from,
            to,
            reducing,
            reduce,
        ) == rounds(tables, blocks, offset, to, reducing, reduce),
    decreases to - from,
{
    if from < to {
        lemma_rounds_on(tables, blocks, offset, from + 1, to, reducing, reduce);
    }
}

/// What the tallies' buffers hold.
pub open spec fn values_of<T>(tallies: Seq<Tally<T>>) -> Seq<Seq<T>> {
    Seq::new(tallies.len(), |p: int| tallies[p].values)
}

/// What a leg of a round sends and receives.
proof fn lemma_round_leg(
    ring: Seq<u32>,
    blocks: Seq<(int, int)>,
    place: int,
    offset: int,
    tag: u64,
    reducing: bool,
    step: int,
)
    requires
        0 <= place < ring.len(),
        blocks.len() == ring.len(),
    ensures
        ({
            let places = ring.len() as int;
            let leg = round_leg(
                ring,
                blocks,
                place,
                (place + offset) % places,
                tag,
                reducing,
                step,
            );
            let next = (place + 1) % places;
            let before = (place - 1) % places;
            let received = blocks[incoming(place, offset, step, places)];
            let given = blocks[(place + offset - step) % places];
            &&& leg.send_start == given.0
            &&& leg.send_start + leg.send_length == given.1
            &&& leg.receive_start == received.0
            &&& leg.receive_start + leg.receive_length == received.1
            &&& leg.source == ring[before]
            &&& leg.reduce == reducing
            &&& (before + offset - step) % places == incoming(place, offset, step, places)
        }),
{
    let places = ring.len() as int;
    let origin = (place + offset) % places;
    lemma_add_mod_noop_right(-step, place + offset, places);
    lemma_add_mod_noop_right(-step - 1, place + offset, places);
    assert((origin - step) % places == (place + offset - step) % places);
    assert((origin - step - 1) % places == (place + offset - step - 1) % places);
    lemma_add_mod_noop_right(offset - step, place - 1, places);
}

/// What a place receives is what the place before it sent in the call before.
pub open spec fn handed(traces: Seq<Seq<TransportEvent>>, place: int, index: int) -> bool {
    let before = traces[(place - 1) % (traces.len() as int)];
    0 < index < traces[place].len() && index % 2 == 1 && index - 1 < before.len() ==> got(
        traces[place][index],
    ) == sent(before[index - 1].call)
}

/// So it is at every place.
pub open spec fn handed_on(traces: Seq<Seq<TransportEvent>>) -> bool {
    forall|p: int, i: int| 0 <= p < traces.len() ==> #[trigger] handed(traces, p, i)
}

/// So it is in a part that starts at an even place.
pub proof fn lemma_part_handed_on(traces: Seq<Seq<TransportEvent>>, from: int, to: int)
    requires
        handed_on(traces),
        0 <= from <= to,
        from % 2 == 0,
        forall|p: int| 0 <= p < traces.len() ==> to <= (#[trigger] traces[p]).len(),
    ensures
        handed_on(part_of(traces, from, to)),
{
    let places = traces.len() as int;
    let parts = part_of(traces, from, to);
    assert forall|p: int, i: int| 0 <= p < places implies #[trigger] handed(parts, p, i) by {
        lemma_mod_bound(p - 1, places);
        assert(handed(traces, p, from + i));
        assert(to <= traces[(p - 1) % places].len());
        assert(to <= traces[p].len());
    }
}

/// So it is from an even place on.
pub proof fn lemma_rest_handed_on(traces: Seq<Seq<TransportEvent>>, from: int)
    requires
        handed_on(traces),
        0 <= from,
        from % 2 == 0,
        forall|p: int| 0 <= p < traces.len() ==> from <= (#[trigger] traces[p]).len(),
    ensures
        handed_on(rest_of(traces, from)),
{
    let places = traces.len() as int;
    let rests = rest_of(traces, from);
    assert forall|p: int, i: int| 0 <= p < places implies #[trigger] handed(rests, p, i) by {
        lemma_mod_bound(p - 1, places);
        assert(handed(traces, p, i + from));
        assert(from <= traces[(p - 1) % places].len());
        assert(from <= traces[p].len());
    }
}

/// A round of a ring collective: the ring, the block of each place, and how many
/// places on a place's first block lies.
#[verifier::reject_recursive_types(T)]
pub struct Round<T> {
    pub element_type: ElementType,
    pub rail: usize,
    pub ring: Seq<u32>,
    pub blocks: Seq<(int, int)>,
    pub length: int,
    pub offset: int,
    pub tags: spec_fn(int) -> u64,
    pub reducing: bool,
    pub reduce: spec_fn(T, T) -> T,
    pub labels: Labels,
}

impl<T> Round<T> {
    pub open spec fn places(self) -> int {
        self.ring.len() as int
    }

    /// The legs of a place.
    pub open spec fn legs(self, place: int) -> Seq<Leg> {
        round_legs(
            self.ring,
            self.blocks,
            place,
            (place + self.offset) % (self.ring.len() as int),
            self.tags,
            self.reducing,
        )
    }

    /// The script of a place from a leg on.
    pub open spec fn script<D: RankDevice<T>>(
        self,
        place: int,
        index: int,
        tally: Tally<T>,
    ) -> Script<Tally<T>, D::Error> {
        relay::<T, D>(
            self.element_type,
            self.rail,
            self.legs(place),
            index,
            tally,
            self.reduce,
            self.labels,
        )
    }

    /// Every place runs its part to the end.
    pub open spec fn runs<D: RankDevice<T>>(
        self,
        index: int,
        tallies: Seq<Tally<T>>,
        traces: Seq<Seq<TransportEvent>>,
        finals: Seq<Tally<T>>,
    ) -> bool {
        &&& 0 < self.places()
        &&& arranged(values_of(tallies), self.blocks, self.length)
        &&& tallies.len() == self.places()
        &&& finals.len() == self.places()
        &&& traces.len() == self.places()
        &&& handed_on(traces)
        &&& 0 <= index <= self.places() - 1
        &&& forall|p: int|
            0 <= p < self.places() ==> #[trigger] self.ran_at::<D>(
                p,
                index,
                tallies,
                traces,
                finals,
            )
    }

    pub open spec fn ran_at<D: RankDevice<T>>(
        self,
        place: int,
        index: int,
        tallies: Seq<Tally<T>>,
        traces: Seq<Seq<TransportEvent>>,
        finals: Seq<Tally<T>>,
    ) -> bool {
        ran(
            self.script::<D>(place, index, tallies[place]),
            traces[place],
            finals[place],
        )
    }

    /// The tally of a place after a leg.
    pub open spec fn next<D: RankDevice<T>>(
        self,
        place: int,
        index: int,
        tallies: Seq<Tally<T>>,
        traces: Seq<Seq<TransportEvent>>,
    ) -> Tally<T> {
        leg_applied::<T, D>(
            tallies[place],
            self.legs(place)[index],
            got(traces[place][1]),
            self.reduce,
            self.labels,
        )->Ok_0
    }

    /// Where each rank receives what another sent in the call before, each place of
    /// the ring receives what the place before it sent.
    pub proof fn lemma_handed_on<D: RankDevice<T>>(
        self,
        tallies: Seq<Tally<T>>,
        traces: Seq<Seq<TransportEvent>>,
        finals: Seq<Tally<T>>,
    )
        requires
            0 < self.places(),
            in_step(traces),
            forall|p: int| 0 <= p < self.places() ==> (#[trigger] self.ring[p]) < traces.len(),
            forall|p: int|
                0 <= p < self.places() ==> #[trigger] self.ran_at::<D>(
                    p,
                    0,
                    tallies,
                    by_place(traces, self.ring),
                    finals,
                ),
        ensures
            handed_on(by_place(traces, self.ring)),
    {
        let places = self.places();
        let held = by_place(traces, self.ring);
        assert forall|p: int, i: int| 0 <= p < places implies #[trigger] handed(held, p, i) by {
            assert(self.ran_at::<D>(p, 0, tallies, held, finals));
            lemma_relay_length::<T, D>(
                self.element_type,
                self.rail,
                self.legs(p),
                0,
                tallies[p],
                self.reduce,
                self.labels,
                held[p],
                finals[p],
            );
            let hops = leg_hops(self.legs(p), 0);
            let j = i / 2;
            lemma_mod_bound(p - 1, places);
            if 0 < i < held[p].len() && i % 2 == 1 {
                assert(i == 2 * j + 1);
                assert(hop_taken(hops[j], held[p][2 * j], held[p][2 * j + 1]));
                assert(hops[j].source == self.ring[(p - 1) % places]);
                let rank = self.ring[p] as int;
                assert(traces[rank][i] == held[p][i]);
            }
        }
    }

    /// One leg of a place: what it holds is what the step makes of it, and the
    /// rest of its part runs on.
    proof fn lemma_leg<D: RankDevice<T>>(
        self,
        place: int,
        index: int,
        tallies: Seq<Tally<T>>,
        traces: Seq<Seq<TransportEvent>>,
        finals: Seq<Tally<T>>,
    )
        requires
            faithful::<T, D>(),
            self.runs::<D>(index, tallies, traces, finals),
            index < self.places() - 1,
            0 <= place < self.places(),
        ensures
            traces[place].len() >= 2,
            ran(
                self.script::<D>(
                    place,
                    index + 1,
                    self.next::<D>(place, index, tallies, traces),
                ),
                traces[place].skip(2),
                finals[place],
            ),
            self.next::<D>(place, index, tallies, traces).values == stepped(
                values_of(tallies),
                self.blocks,
                self.offset,
                index,
                self.reducing,
                self.reduce,
            )[place],
    {
        let places = self.places();
        let tables = values_of(tallies);
        let before = (place - 1) % places;
        lemma_mod_bound(place - 1, places);
        lemma_incoming(place, 0, self.offset, index, places);
        let block = self.blocks[incoming(place, self.offset, index, places)];
        lemma_round_leg(
            self.ring,
            self.blocks,
            place,
            self.offset,
            (self.tags)(index),
            self.reducing,
            index,
        );
        lemma_round_leg(
            self.ring,
            self.blocks,
            before,
            self.offset,
            (self.tags)(index),
            self.reducing,
            index,
        );
        assert(self.ran_at::<D>(place, index, tallies, traces, finals));
        assert(self.ran_at::<D>(before, index, tallies, traces, finals));
        let mine = traces[place];
        let theirs = traces[before];
        lemma_relay_step::<T, D>(
            self.element_type,
            self.rail,
            self.legs(place),
            index,
            tallies[place],
            self.reduce,
            self.labels,
            mine,
            finals[place],
        );
        lemma_relay_step::<T, D>(
            self.element_type,
            self.rail,
            self.legs(before),
            index,
            tallies[before],
            self.reduce,
            self.labels,
            theirs,
            finals[before],
        );
        let given = tables[before].subrange(block.0, block.1);
        assert(handed(traces, place, 1));
        assert(got(mine[1]) == sent(theirs[0].call));
        assert(sent(theirs[0].call) == D::encoding(given));
        assert(lossless::<T, D>(given));
    }

    /// Each place ends with what the round's steps make of all the places'
    /// buffers.
    pub proof fn lemma_round<D: RankDevice<T>>(
        self,
        index: int,
        tallies: Seq<Tally<T>>,
        traces: Seq<Seq<TransportEvent>>,
        finals: Seq<Tally<T>>,
    )
        requires
            faithful::<T, D>(),
            self.runs::<D>(index, tallies, traces, finals),
        ensures
            forall|r: int|
                0 <= r < self.places() ==> (#[trigger] traces[r]).len() == 2 * (self.places()
                    - 1 - index),
            values_of(finals) == rounds_on(
                values_of(tallies),
                self.blocks,
                self.offset,
                index,
                self.places() - 1,
                self.reducing,
                self.reduce,
            ),
        decreases self.places() - index,
    {
        let places = self.places();
        let tables = values_of(tallies);
        assert forall|p: int| 0 <= p < places implies (#[trigger] traces[p]).len()
            == 2 * (places - 1 - index) && (index == places - 1 ==> finals[p] == tallies[p]) by {
            assert(self.ran_at::<D>(p, index, tallies, traces, finals));
            lemma_relay_length::<T, D>(
                self.element_type,
                self.rail,
                self.legs(p),
                index,
                tallies[p],
                self.reduce,
                self.labels,
                traces[p],
                finals[p],
            );
        }
        if index == places - 1 {
            assert forall|p: int| 0 <= p < places implies #[trigger] finals[p] == tallies[p] by {
                assert(traces[p].len() == 0);
            }
            assert(values_of(finals) =~= tables);
        } else {
            let nexts = Seq::new(
                places as nat,
                |p: int| self.next::<D>(p, index, tallies, traces),
            );
            let rests = rest_of(traces, 2);
            lemma_rest_handed_on(traces, 2);
            let now = stepped(
                tables,
                self.blocks,
                self.offset,
                index,
                self.reducing,
                self.reduce,
            );
            assert forall|p: int| 0 <= p < places implies (#[trigger] nexts[p]).values == now[p] by {
                self.lemma_leg::<D>(p, index, tallies, traces, finals);
            }
            assert(values_of(nexts) =~= now);
            assert forall|p: int| 0 <= p < now.len() implies (#[trigger] now[p]).len()
                == self.length by {
                assert(tables[p].len() == self.length);
            }
            assert forall|p: int| 0 <= p < places implies #[trigger] self.ran_at::<D>(
                p,
                index + 1,
                nexts,
                rests,
                finals,
            ) by {
                self.lemma_leg::<D>(p, index, tallies, traces, finals);
            }
            self.lemma_round::<D>(index + 1, nexts, rests, finals);
        }
    }
}

/// Every run of a channel to its end makes `step` calls.
#[verifier::opaque]
pub open spec fn calls_for_each<T, E>(
    channel: spec_fn(int, Seq<T>) -> Script<Tally<T>, E>,
    step: int,
) -> bool {
    forall|c: int, v: Seq<T>, events: Seq<TransportEvent>, tally: Tally<T>| #[trigger]
        ran(channel(c, v), events, tally) ==> events.len() == step
}

proof fn lemma_calls_for_one<T, E>(
    channel: spec_fn(int, Seq<T>) -> Script<Tally<T>, E>,
    step: int,
    index: int,
    values: Seq<T>,
    events: Seq<TransportEvent>,
    tally: Tally<T>,
)
    requires
        calls_for_each(channel, step),
        ran(channel(index, values), events, tally),
    ensures
        events.len() == step,
{
    reveal(calls_for_each);
}

/// What a channel starts from.
pub open spec fn given_to<T>(values: Seq<T>, tallies: Seq<Tally<T>>, channel: int) -> Seq<T> {
    if channel == 0 {
        values
    } else {
        tallies[channel - 1].values
    }
}

/// The conversation of one rank's channels: each channel's part, one after the
/// other, each of `step` calls.
pub open spec fn channels_ran<T, E>(
    channel: spec_fn(int, Seq<T>) -> Script<Tally<T>, E>,
    from: int,
    count: int,
    values: Seq<T>,
    step: int,
    trace: Seq<TransportEvent>,
    tallies: Seq<Tally<T>>,
) -> bool {
    &&& tallies.len() == count - from
    &&& trace.len() == (count - from) * step
    &&& forall|k: int|
        #![trigger tallies[k]]
        0 <= k < count - from ==> ran(
            channel(from + k, given_to(values, tallies, k)),
            trace.subrange(k * step, k * step + step),
            tallies[k],
        )
}

/// A later part of a conversation, counted from its second part on.
pub proof fn lemma_later_part(trace: Seq<TransportEvent>, step: int, part: int, parts: int)
    requires
        0 < part < parts,
        0 <= step,
        trace.len() == parts * step,
    ensures
        step <= trace.len(),
        trace.skip(step).subrange((part - 1) * step, (part - 1) * step + step) == trace.subrange(
            part * step,
            part * step + step,
        ),
{
    let i = part - 1;
    assert(i * step + step == part * step) by (nonlinear_arith)
        requires
            part == i + 1,
    ;
    assert(0 <= i * step) by (nonlinear_arith)
        requires
            0 <= i,
            0 <= step,
    ;
    assert(part * step + step <= parts * step) by (nonlinear_arith)
        requires
            part + 1 <= parts,
            0 <= step,
    ;
    assert(trace.skip(step).subrange(i * step, i * step + step) =~= trace.subrange(
        part * step,
        part * step + step,
    ));
}

/// What the last channel left.
pub open spec fn left_by<T>(values: Seq<T>, tallies: Seq<Tally<T>>) -> Seq<T> {
    if tallies.len() == 0 {
        values
    } else {
        tallies.last().values
    }
}

/// Channels that run to the end run one after the other.
pub proof fn lemma_channels_ran<T, E>(
    channel: spec_fn(int, Seq<T>) -> Script<Tally<T>, E>,
    from: int,
    count: int,
    values: Seq<T>,
    totals: Seq<(int, int)>,
    step: int,
    trace: Seq<TransportEvent>,
    last: (Seq<T>, Seq<(int, int)>),
) -> (tallies: Seq<Tally<T>>)
    requires
        ran(channels_script(channel, from, count, values, totals), trace, last),
        0 <= from <= count,
        0 <= step,
        calls_for_each(channel, step),
    ensures
        channels_ran(channel, from, count, values, step, trace, tallies),
        last.0 == left_by(values, tallies),
    decreases count - from,
{
    if from == count {
        lemma_over::<(Seq<T>, Seq<(int, int)>), E>(Ok((values, totals)), trace);
        assert(0 * step == 0) by (nonlinear_arith);
        Seq::empty()
    } else {
        let onward = channels_next(channel, from, count, totals);
        let (k, tally) = lemma_ran_tried(channel(from, values), true, onward, trace, last);
        lemma_calls_for_one(channel, step, from, values, trace.take(k), tally);
        let rest = lemma_channels_ran(
            channel,
            from + 1,
            count,
            tally.values,
            totals.push((tally.bytes, tally.launches)),
            step,
            trace.skip(step),
            last,
        );
        let tallies = seq![tally] + rest;
        let parts = count - from;
        assert(parts * step == (parts - 1) * step + step) by (nonlinear_arith);
        assert forall|j: int| #![trigger tallies[j]] 0 <= j < parts implies ran(
            channel(from + j, given_to(values, tallies, j)),
            trace.subrange(j * step, j * step + step),
            tallies[j],
        ) by {
            if j == 0 {
                assert(0 * step == 0) by (nonlinear_arith);
                assert(trace.subrange(0, step) =~= trace.take(step));
            } else {
                assert(tallies[j] == rest[j - 1]);
                lemma_later_part(trace, step, j, parts);
                assert(given_to(tally.values, rest, j - 1) == given_to(values, tallies, j));
                assert(from + 1 + (j - 1) == from + j);
            }
        }
        assert(left_by(values, tallies) == left_by(tally.values, rest));
        tallies
    }
}

/// A world: one model for each rank, all tuned alike.
pub open spec fn one_world(models: Seq<CollectiveModel>) -> bool {
    &&& models.len() > 0
    &&& forall|r: int|
        #![trigger models[r]]
        0 <= r < models.len() ==> {
            &&& models[r].valid()
            &&& models[r].place.rank == r
            &&& models[r].place.world_size == models.len()
            &&& models[r].tuning == models[0].tuning
            &&& models[r].element_type == models[0].element_type
        }
}

/// The ring and the rail of a channel are the same for every rank.
pub proof fn lemma_one_world(models: Seq<CollectiveModel>, rank: int, channel: int)
    requires
        one_world(models),
        0 <= rank < models.len(),
        0 <= channel,
    ensures
        models[rank].ring(channel) == models[0].ring(channel),
        models[rank].rail(channel) == models[0].rail(channel),
        is_ring(models.len() as u32, models[0].ring(channel)),
        models[0].ring(channel).contains(rank as u32),
{
    let first = models[0];
    let own = models[rank];
    assert(own.tuning == first.tuning);
    first.lemma_ring(channel);
    lemma_ring_holds_all(models.len() as u32, first.ring(channel), rank as u32);
}

/// The partitions of a range on a ring are arranged for a round.
proof fn lemma_rank_blocks<T>(
    tables: Seq<Seq<T>>,
    world_size: u32,
    ring: Seq<u32>,
    start: int,
    length: int,
    whole: int,
)
    requires
        is_ring(world_size, ring),
        tables.len() == world_size,
        0 <= start,
        0 <= length,
        start + length <= whole,
        forall|r: int| 0 <= r < tables.len() ==> (#[trigger] tables[r]).len() == whole,
    ensures
        arranged(by_place(tables, ring), rank_blocks(ring, start, length), whole),
        forall|p: int|
            0 <= p < world_size ==> start <= (#[trigger] rank_blocks(ring, start, length)[p]).0
                && rank_blocks(ring, start, length)[p].1 <= start + length,
{
    let blocks = rank_blocks(ring, start, length);
    let count = world_size as int;
    let held = by_place(tables, ring);
    assert forall|p: int| 0 <= p < held.len() implies (#[trigger] held[p]).len() == whole by {
        assert(tables[ring[p] as int].len() == whole);
    }
    assert forall|b: int| 0 <= b < blocks.len() implies start <= (#[trigger] blocks[b]).0
        <= blocks[b].1 <= start + length by {
        law_balanced_partition(length, count, ring[b] as int);
    }
    assert forall|b: int, c: int, x: int|
        0 <= b < blocks.len() && 0 <= c < blocks.len() && in_block(blocks, b, x) && in_block(
            blocks,
            c,
            x,
        ) implies b == c by {
        let one = ring[b] as int;
        let other = ring[c] as int;
        if one < other {
            lemma_balanced_monotone(length, count, one + 1, other);
        } else if other < one {
            lemma_balanced_monotone(length, count, other + 1, one);
        } else {
            assert(ring[b] == ring[c]);
        }
    }
}

/// The place on a ring whose partition of a range an element lies in.
pub open spec fn place_of(ring: Seq<u32>, start: int, length: int, element: int) -> int {
    ring.index_of(balanced_owner(length, ring.len() as int, element - start) as u32)
}

proof fn lemma_place_of(world_size: u32, ring: Seq<u32>, start: int, length: int, element: int)
    requires
        is_ring(world_size, ring),
        start <= element < start + length,
    ensures
        0 <= place_of(ring, start, length, element) < world_size,
        in_block(
            rank_blocks(ring, start, length),
            place_of(ring, start, length, element),
            element,
        ),
{
    let count = world_size as int;
    lemma_balanced_owner(length, count, element - start);
    let owner = balanced_owner(length, count, element - start);
    lemma_ring_holds_all(world_size, ring, owner as u32);
}

/// One channel of a ring all-reduce in every rank: each element of the channel is
/// reduced round the ring, from the place of its partition on, and nothing else
/// is changed.
pub open spec fn channel_reduced<T>(
    tables: Seq<Seq<T>>,
    ring: Seq<u32>,
    start: int,
    length: int,
    reduce: spec_fn(T, T) -> T,
    rank: int,
    element: int,
) -> T {
    if start <= element < start + length {
        ring_fold(
            by_place(tables, ring),
            element,
            place_of(ring, start, length, element),
            ring.len() - 1,
            reduce,
        )
    } else {
        tables[rank][element]
    }
}

/// Two rounds that succeed: the conversation of each.
pub proof fn lemma_two_rounds_ran<T, D: RankDevice<T>>(
    element_type: ElementType,
    rail: usize,
    ring: Seq<u32>,
    blocks: Seq<(int, int)>,
    position: int,
    first: RoundTags,
    second: RoundTags,
    values: Seq<T>,
    reduce: spec_fn(T, T) -> T,
    labels: Labels,
    trace: Seq<TransportEvent>,
    last: Tally<T>,
) -> (mid: Tally<T>)
    requires
        0 < ring.len(),
        ran(
            two_rounds::<T, D>(
                element_type,
                rail,
                ring,
                blocks,
                position,
                first,
                second,
                values,
                reduce,
                labels,
            ),
            trace,
            last,
        ),
    ensures
        trace.len() == 4 * (ring.len() - 1),
        took(trace, two_round_hops(ring, blocks, position, first, second)),
        ran(
            relay::<T, D>(
                element_type,
                rail,
                round_legs(ring, blocks, position, position, first.tags(), true),
                0,
                (Tally { values, bytes: 0, launches: 0 }),
                reduce,
                labels,
            ),
            trace.take(2 * (ring.len() - 1)),
            mid,
        ),
        ran(
            second_round::<T, D>(
                element_type,
                rail,
                ring,
                blocks,
                position,
                second,
                reduce,
                labels,
            )(mid),
            trace.skip(2 * (ring.len() - 1)),
            last,
        ),
{
    let tally = Tally { values, bytes: 0, launches: 0 };
    let one = round_legs(ring, blocks, position, position, first.tags(), true);
    let other = round_legs(
        ring,
        blocks,
        position,
        (position + 1) % (ring.len() as int),
        second.tags(),
        false,
    );
    let onward = second_round::<T, D>(
        element_type,
        rail,
        ring,
        blocks,
        position,
        second,
        reduce,
        labels,
    );
    let (k, mid) = lemma_ran_tried(
        relay::<T, D>(element_type, rail, one, 0, tally, reduce, labels),
        false,
        onward,
        trace,
        last,
    );
    lemma_relay_length::<T, D>(
        element_type,
        rail,
        one,
        0,
        tally,
        reduce,
        labels,
        trace.take(k),
        mid,
    );
    lemma_relay_length::<T, D>(
        element_type,
        rail,
        other,
        0,
        mid,
        reduce,
        labels,
        trace.skip(k),
        last,
    );
    lemma_took_parts(trace.take(k), leg_hops(one, 0), trace.skip(k), leg_hops(other, 0));
    assert(trace.take(k) + trace.skip(k) =~= trace);
    mid
}

/// The hops of two rounds.
pub open spec fn two_round_hops(
    ring: Seq<u32>,
    blocks: Seq<(int, int)>,
    position: int,
    first: RoundTags,
    second: RoundTags,
) -> Seq<Hop> {
    leg_hops(round_legs(ring, blocks, position, position, first.tags(), true), 0) + leg_hops(
        round_legs(
            ring,
            blocks,
            position,
            (position + 1) % (ring.len() as int),
            second.tags(),
            false,
        ),
        0,
    )
}

/// What two rounds leave at every place: each element of a block is reduced round
/// the ring, from the place of the block on, and nothing else is changed.
pub proof fn lemma_two_rounds<T, D: RankDevice<T>>(
    element_type: ElementType,
    rail: usize,
    ring: Seq<u32>,
    blocks: Seq<(int, int)>,
    whole: int,
    first: RoundTags,
    second: RoundTags,
    tables: Seq<Seq<T>>,
    reduce: spec_fn(T, T) -> T,
    labels: Labels,
    traces: Seq<Seq<TransportEvent>>,
    finals: Seq<Tally<T>>,
)
    requires
        faithful::<T, D>(),
        tables.len() == ring.len(),
        traces.len() == ring.len(),
        finals.len() == ring.len(),
        arranged(tables, blocks, whole),
        handed_on(traces),
        forall|p: int|
            #![trigger finals[p]]
            0 <= p < ring.len() ==> ran(
                two_rounds::<T, D>(
                    element_type,
                    rail,
                    ring,
                    blocks,
                    p,
                    first,
                    second,
                    tables[p],
                    reduce,
                    labels,
                ),
                traces[p],
                finals[p],
            ),
    ensures
        forall|p: int| 0 <= p < ring.len() ==> (#[trigger] finals[p]).values.len() == whole,
        forall|p: int, b: int, x: int|
            #![trigger finals[p].values[x], in_block(blocks, b, x)]
            0 <= p < ring.len() && 0 <= b < blocks.len() && in_block(blocks, b, x)
                ==> finals[p].values[x] == ring_fold(tables, x, b, ring.len() - 1, reduce),
        forall|p: int, x: int|
            0 <= p < ring.len() && 0 <= x < whole && (forall|b: int|
                0 <= b < blocks.len() ==> !in_block(blocks, b, x)) ==> (
            #[trigger] finals[p].values[x]) == tables[p][x],
{
    let places = ring.len() as int;
    let step = 2 * (places - 1);
    let one = Round {
        element_type,
        rail,
        ring,
        blocks,
        length: whole,
        offset: 0,
        tags: first.tags(),
        reducing: true,
        reduce,
        labels,
    };
    let other = Round { offset: 1, tags: second.tags(), reducing: false, ..one };
    let starts = Seq::new(
        places as nat,
        |p: int| Tally { values: tables[p], bytes: 0, launches: 0 },
    );
    let parts = part_of(traces, 0, step);
    let rests = rest_of(traces, step);
    let mids = Seq::new(
        places as nat,
        |p: int|
            choose|mid: Tally<T>|
                ran(one.script::<D>(p, 0, starts[p]), parts[p], mid) && ran(
                    other.script::<D>(p, 0, mid),
                    rests[p],
                    finals[p],
                ),
    );
    assert forall|p: int| 0 <= p < places implies (#[trigger] traces[p]).len() == 2 * step && ran(
        one.script::<D>(p, 0, starts[p]),
        parts[p],
        mids[p],
    ) && ran(other.script::<D>(p, 0, mids[p]), rests[p], finals[p]) by {
        let mid = lemma_two_rounds_ran::<T, D>(
            element_type,
            rail,
            ring,
            blocks,
            p,
            first,
            second,
            tables[p],
            reduce,
            labels,
            traces[p],
            finals[p],
        );
        lemma_small_mod(p as nat, places as nat);
        assert(parts[p] =~= traces[p].take(step));
        assert(ran(one.script::<D>(p, 0, starts[p]), parts[p], mid));
        assert(ran(other.script::<D>(p, 0, mid), rests[p], finals[p]));
    }
    lemma_part_handed_on(traces, 0, step);
    lemma_rest_handed_on(traces, step);
    assert(values_of(starts) =~= tables);
    assert forall|p: int| 0 <= p < places implies #[trigger] one.ran_at::<D>(
        p,
        0,
        starts,
        parts,
        mids,
    ) by {
        assert(traces[p].len() == 2 * step);
    }
    one.lemma_round::<D>(0, starts, parts, mids);
    lemma_rounds_on(tables, blocks, 0, 0, places - 1, true, reduce);
    law_rounds(tables, blocks, whole, 0, places - 1, true, reduce);
    let reduced = rounds(tables, blocks, 0, places - 1, true, reduce);
    assert forall|p: int| 0 <= p < places implies #[trigger] other.ran_at::<D>(
        p,
        0,
        mids,
        rests,
        finals,
    ) by {
        assert(traces[p].len() == 2 * step);
    }
    other.lemma_round::<D>(0, mids, rests, finals);
    lemma_rounds_on(reduced, blocks, 1, 0, places - 1, false, reduce);
    law_rounds(reduced, blocks, whole, 1, places - 1, false, reduce);
    let shared = rounds(reduced, blocks, 1, places - 1, false, reduce);
    assert(values_of(finals) == shared);
    assert forall|p: int| 0 <= p < places implies (#[trigger] finals[p]).values.len() == whole by {
        assert(values_of(finals)[p] == finals[p].values);
        assert(shared[p].len() == whole);
    }
    assert forall|p: int, b: int, x: int|
        #![trigger finals[p].values[x], in_block(blocks, b, x)]
        0 <= p < places && 0 <= b < blocks.len() && in_block(
            blocks,
            b,
            x,
        ) implies finals[p].values[x] == ring_fold(tables, x, b, places - 1, reduce) by {
        law_two_rounds(tables, blocks, whole, 0, p, b, x, reduce);
        assert(values_of(finals)[p] == finals[p].values);
    }
    assert forall|p: int, x: int|
        0 <= p < places && 0 <= x < whole && (forall|b: int|
            0 <= b < blocks.len() ==> !in_block(blocks, b, x)) implies (
    #[trigger] finals[p].values[x]) == tables[p][x] by {
        assert(values_of(finals)[p] == finals[p].values);
        assert(shared[p][x] == reduced[p][x]);
        assert(reduced[p][x] == tables[p][x]);
    }
}

/// A channel that succeeds is two rounds.
proof fn lemma_all_reduce_channel_ran<T, D: RankDevice<T>>(
    model: CollectiveModel,
    values: Seq<T>,
    start: int,
    length: int,
    operation: u64,
    channel: usize,
    reduce: spec_fn(T, T) -> T,
    trace: Seq<TransportEvent>,
    last: Tally<T>,
)
    requires
        model.valid(),
        ran(
            all_reduce_channel::<T, D>(
                model,
                values,
                start,
                length,
                operation,
                channel,
                reduce,
            ),
            trace,
            last,
        ),
    ensures
        trace.len() == 4 * (model.world() - 1),
        took(trace, channel_hops(model, start, length, operation, channel)),
{
    let ring = model.ring(channel as int);
    model.lemma_ring(channel as int);
    lemma_ring_holds_all(model.place.world_size, ring, model.place.rank);
    let mid = lemma_two_rounds_ran::<T, D>(
        model.element_type,
        model.rail(channel as int),
        ring,
        rank_blocks(ring, start, length),
        ring.index_of(model.place.rank),
        RoundTags { operation, channel, phase: 0, hierarchical: false },
        RoundTags { operation, channel, phase: 1, hierarchical: false },
        values,
        reduce,
        all_reduce_labels(),
        trace,
        last,
    );
}

/// The hops of a rank in one channel of a ring all-reduce.
pub open spec fn channel_hops(
    model: CollectiveModel,
    start: int,
    length: int,
    operation: u64,
    channel: usize,
) -> Seq<Hop> {
    let ring = model.ring(channel as int);
    two_round_hops(
        ring,
        rank_blocks(ring, start, length),
        ring.index_of(model.place.rank),
        RoundTags { operation, channel, phase: 0, hierarchical: false },
        RoundTags { operation, channel, phase: 1, hierarchical: false },
    )
}

/// The hops of a rank in each channel.
pub open spec fn all_reduce_hops(
    model: CollectiveModel,
    length: int,
    channels: int,
    operation: u64,
) -> spec_fn(int) -> Seq<Hop> {
    |channel: int|
        channel_hops(
            model,
            balanced_start(length, channels, channel),
            chunk_length(length, channels, channel),
            operation,
            channel as usize,
        )
}

/// What one channel of a ring all-reduce leaves on every rank.
proof fn lemma_all_reduce_channel<T, D: RankDevice<T>>(
    models: Seq<CollectiveModel>,
    tables: Seq<Seq<T>>,
    whole: int,
    start: int,
    length: int,
    operation: u64,
    channel: usize,
    reduce: spec_fn(T, T) -> T,
    traces: Seq<Seq<TransportEvent>>,
    finals: Seq<Tally<T>>,
)
    requires
        faithful::<T, D>(),
        one_world(models),
        tables.len() == models.len(),
        traces.len() == models.len(),
        finals.len() == models.len(),
        in_step(traces),
        0 <= start,
        0 <= length,
        start + length <= whole,
        forall|r: int| 0 <= r < tables.len() ==> (#[trigger] tables[r]).len() == whole,
        forall|r: int|
            #![trigger finals[r]]
            0 <= r < models.len() ==> ran(
                all_reduce_channel::<T, D>(
                    models[r],
                    tables[r],
                    start,
                    length,
                    operation,
                    channel,
                    reduce,
                ),
                traces[r],
                finals[r],
            ),
    ensures
        forall|r: int| 0 <= r < models.len() ==> (#[trigger] finals[r]).values.len() == whole,
        forall|r: int, x: int|
            #![trigger finals[r].values[x]]
            0 <= r < models.len() && 0 <= x < whole ==> finals[r].values[x] == channel_reduced(
                tables,
                models[0].ring(channel as int),
                start,
                length,
                reduce,
                r,
                x,
            ),
{
    let world_size = models.len() as u32;
    let places = models.len() as int;
    assert(models[0].place.world_size == models.len());
    lemma_one_world(models, 0, channel as int);
    let ring = models[0].ring(channel as int);
    let blocks = rank_blocks(ring, start, length);
    let held = by_place(tables, ring);
    let said = by_place(traces, ring);
    let ends = by_place(finals, ring);
    let one = RoundTags { operation, channel, phase: 0, hierarchical: false };
    let two = RoundTags { operation, channel, phase: 1, hierarchical: false };
    assert forall|p: int| #![trigger ends[p]] 0 <= p < places implies ran(
        two_rounds::<T, D>(
            models[0].element_type,
            models[0].rail(channel as int),
            ring,
            blocks,
            p,
            one,
            two,
            held[p],
            reduce,
            all_reduce_labels(),
        ),
        said[p],
        ends[p],
    ) by {
        let r = ring[p] as int;
        lemma_one_world(models, r, channel as int);
        assert(models[r].place.rank == r);
        lemma_place_in_ring(ring, p);
        assert(finals[r] == ends[p]);
    }
    assert forall|p: int| 0 <= p < places implies took(
        #[trigger] said[p],
        two_round_hops(ring, blocks, p, one, two),
    ) by {
        let r = ring[p] as int;
        lemma_one_world(models, r, channel as int);
        assert(models[r].place.rank == r);
        lemma_place_in_ring(ring, p);
        assert(finals[r] == ends[p]);
        lemma_all_reduce_channel_ran::<T, D>(
            models[r],
            tables[r],
            start,
            length,
            operation,
            channel,
            reduce,
            traces[r],
            finals[r],
        );
    }
    assert forall|p: int, i: int| 0 <= p < places implies #[trigger] handed(said, p, i) by {
        assert(took(said[p], two_round_hops(ring, blocks, p, one, two)));
        let hops = two_round_hops(ring, blocks, p, one, two);
        let j = i / 2;
        lemma_mod_bound(p - 1, places);
        if 0 < i < said[p].len() && i % 2 == 1 {
            assert(i == 2 * j + 1);
            assert(hop_taken(hops[j], said[p][2 * j], said[p][2 * j + 1]));
            assert(hops[j].source == ring[(p - 1) % places]);
            assert(traces[ring[p] as int][i] == said[p][i]);
        }
    }
    lemma_rank_blocks(tables, world_size, ring, start, length, whole);
    lemma_two_rounds::<T, D>(
        models[0].element_type,
        models[0].rail(channel as int),
        ring,
        blocks,
        whole,
        one,
        two,
        held,
        reduce,
        all_reduce_labels(),
        said,
        ends,
    );
    assert forall|r: int| 0 <= r < models.len() implies (#[trigger] finals[r]).values.len()
        == whole by {
        lemma_ring_holds_all(world_size, ring, r as u32);
        assert(ends[ring.index_of(r as u32)] == finals[r]);
    }
    assert forall|r: int, x: int|
        #![trigger finals[r].values[x]]
        0 <= r < models.len() && 0 <= x < whole implies finals[r].values[x] == channel_reduced(
        tables,
        ring,
        start,
        length,
        reduce,
        r,
        x,
    ) by {
        lemma_ring_holds_all(world_size, ring, r as u32);
        let p = ring.index_of(r as u32);
        assert(ends[p].values[x] == finals[r].values[x]);
        if start <= x < start + length {
            lemma_place_of(world_size, ring, start, length, x);
            assert(in_block(blocks, place_of(ring, start, length, x), x));
        } else {
            assert forall|b: int| 0 <= b < blocks.len() implies !in_block(blocks, b, x) by {
                assert(start <= blocks[b].0 && blocks[b].1 <= start + length);
            }
        }
    }
}

/// A collective that succeeds after an agreement goes on after one call.
pub proof fn lemma_agreed<R, E>(
    tag: u64,
    complaint: Seq<char>,
    agreed: spec_fn(()) -> Script<R, E>,
    trace: Seq<TransportEvent>,
    result: R,
)
    requires
        ran(tried(agreement_script(tag, complaint), false, agreed), trace, result),
    ensures
        trace.len() >= 1,
        trace[0].call is Exchange,
        ran(agreed(()), trace.skip(1), result),
{
    let agreement = agreement_script::<E>(tag, complaint);
    let (k, mid) = lemma_ran_tried(agreement, false, agreed, trace, result);
    lemma_ran_ask(agreement->Ask_0, agreement->Ask_1, trace.take(k), mid);
    let answer = (agreement->Ask_1)(trace.take(k)[0].reply);
    lemma_over(answer->Done_0, trace.take(k).skip(1));
    assert(k == 1);
}

/// A ring collective that succeeds is an agreement and its channels.
pub proof fn lemma_ring_collective<T, R, E>(
    tag: u64,
    complaint: Seq<char>,
    channel: spec_fn(int, Seq<T>) -> Script<Tally<T>, E>,
    count: int,
    values: Seq<T>,
    agreed: spec_fn(()) -> Script<R, E>,
    finished: spec_fn((Seq<T>, Seq<(int, int)>)) -> Script<R, E>,
    trace: Seq<TransportEvent>,
    result: R,
) -> (run: (Seq<T>, Seq<(int, int)>))
    requires
        ran(tried(agreement_script(tag, complaint), false, agreed), trace, result),
        agreed(()) == tried(
            channels_script(channel, 0, count, values, Seq::empty()),
            false,
            finished,
        ),
        forall|run: (Seq<T>, Seq<(int, int)>)| (#[trigger] finished(run)) is Done,
    ensures
        trace.len() >= 1,
        trace[0].call is Exchange,
        ran(
            channels_script(channel, 0, count, values, Seq::empty()),
            trace.skip(1),
            run,
        ),
        finished(run) == Script::<R, E>::Done(Ok(result)),
{
    lemma_agreed(tag, complaint, agreed, trace, result);
    let channels = channels_script(channel, 0, count, values, Seq::empty());
    let (j, run) = lemma_ran_tried(channels, false, finished, trace.skip(1), result);
    lemma_over(finished(run)->Done_0, trace.skip(1).skip(j));
    assert(trace.skip(1).take(j) =~= trace.skip(1));
    run
}

/// A fold looks at one element of each place only.
pub proof fn lemma_fold_column<T>(
    one: Seq<Seq<T>>,
    other: Seq<Seq<T>>,
    element: int,
    start: int,
    hops: int,
    reduce: spec_fn(T, T) -> T,
)
    requires
        0 < one.len() == other.len(),
        forall|p: int|
            #![trigger one[p]]
            0 <= p < one.len() ==> one[p][element] == other[p][element],
    ensures
        ring_fold(one, element, start, hops, reduce) == ring_fold(
            other,
            element,
            start,
            hops,
            reduce,
        ),
    decreases hops,
{
    let places = one.len() as int;
    if hops <= 0 {
        lemma_mod_bound(start, places);
        assert(one[start % places][element] == other[start % places][element]);
    } else {
        lemma_fold_column(one, other, element, start, hops - 1, reduce);
        lemma_mod_bound(start + hops, places);
        assert(one[(start + hops) % places][element] == other[(start + hops) % places][element]);
    }
}

/// An element lies in one partition only.
pub proof fn lemma_owner_is(length: int, partitions: int, index: int, element: int)
    requires
        0 <= length,
        0 <= index < partitions,
        balanced_start(length, partitions, index) <= element < balanced_start(
            length,
            partitions,
            index + 1,
        ),
    ensures
        0 <= element < length,
        balanced_owner(length, partitions, element) == index,
{
    law_balanced_partition(length, partitions, index);
    lemma_balanced_owner(length, partitions, element);
    let owner = balanced_owner(length, partitions, element);
    if owner < index {
        lemma_balanced_monotone(length, partitions, owner + 1, index);
    } else if index < owner {
        lemma_balanced_monotone(length, partitions, index + 1, owner);
    }
}

/// What a ring all-reduce makes of an element: it goes round the ring of its
/// channel, from the place of its partition on, and is reduced with each rank's
/// own.
pub open spec fn ring_reduced<T>(
    model: CollectiveModel,
    inputs: Seq<Seq<T>>,
    length: int,
    channels: int,
    reduce: spec_fn(T, T) -> T,
    element: int,
) -> T {
    let channel = balanced_owner(length, channels, element);
    channel_reduced(
        inputs,
        model.ring(channel),
        balanced_start(length, channels, channel),
        chunk_length(length, channels, channel),
        reduce,
        0,
        element,
    )
}

/// The tables that the channels before one have left.
pub open spec fn before_channel<T>(
    inputs: Seq<Seq<T>>,
    tallies: Seq<Seq<Tally<T>>>,
    channel: int,
) -> Seq<Seq<T>> {
    Seq::new(inputs.len(), |r: int| given_to(inputs[r], tallies[r], channel))
}

/// The first channels of a ring all-reduce in every rank.
proof fn lemma_all_reduce_channels<T, D: RankDevice<T>>(
    models: Seq<CollectiveModel>,
    inputs: Seq<Seq<T>>,
    length: int,
    channels: int,
    operation: u64,
    reduce: spec_fn(T, T) -> T,
    traces: Seq<Seq<TransportEvent>>,
    tallies: Seq<Seq<Tally<T>>>,
    done: int,
)
    requires
        faithful::<T, D>(),
        one_world(models),
        inputs.len() == models.len(),
        traces.len() == models.len(),
        tallies.len() == models.len(),
        in_step(traces),
        0 < channels <= usize::MAX,
        0 <= length,
        0 <= done <= channels,
        forall|r: int| 0 <= r < inputs.len() ==> (#[trigger] inputs[r]).len() == length,
        forall|r: int|
            #![trigger tallies[r]]
            0 <= r < models.len() ==> channels_ran(
                all_reduce_channels::<T, D>(models[r], length, channels, operation, reduce),
                0,
                channels,
                inputs[r],
                4 * (models.len() - 1),
                traces[r],
                tallies[r],
            ),
    ensures
        forall|r: int|
            0 <= r < models.len() ==> (#[trigger] before_channel(inputs, tallies, done)[r]).len()
                == length,
        forall|r: int, x: int|
            #![trigger before_channel(inputs, tallies, done)[r][x]]
            0 <= r < models.len() && 0 <= x < length ==> before_channel(inputs, tallies, done)[r][x]
                == (if balanced_owner(length, channels, x) < done {
                ring_reduced(models[0], inputs, length, channels, reduce, x)
            } else {
                inputs[r][x]
            }),
    decreases done,
{
    if done == 0 {
        assert forall|r: int, x: int|
            #![trigger before_channel(inputs, tallies, done)[r][x]]
            0 <= r < models.len() && 0 <= x < length implies before_channel(
            inputs,
            tallies,
            done,
        )[r][x] == (if balanced_owner(length, channels, x) < done {
            ring_reduced(models[0], inputs, length, channels, reduce, x)
        } else {
            inputs[r][x]
        }) by {
            lemma_balanced_owner(length, channels, x);
        }
    } else {
        let c = done - 1;
        let step = 4 * (models.len() - 1);
        lemma_all_reduce_channels::<T, D>(
            models,
            inputs,
            length,
            channels,
            operation,
            reduce,
            traces,
            tallies,
            c,
        );
        let tables = before_channel(inputs, tallies, c);
        let now = before_channel(inputs, tallies, done);
        let start = balanced_start(length, channels, c);
        let size = chunk_length(length, channels, c);
        let finals = Seq::new(models.len(), |r: int| tallies[r][c]);
        let parts = part_of(traces, c * step, c * step + step);
        let ring = models[0].ring(c);
        law_balanced_partition(length, channels, c);
        assert(0 <= c * step) by (nonlinear_arith)
            requires
                0 <= c,
                0 <= step,
        ;
        assert(c * step + step <= channels * step) by (nonlinear_arith)
            requires
                c + 1 <= channels,
                0 <= step,
        ;
        assert forall|r: int| 0 <= r < traces.len() implies c * step + step <= (
        #[trigger] traces[r]).len() by {
            assert(tallies[r].len() == channels);
        }
        lemma_part_in_step(traces, c * step, c * step + step);
        assert forall|r: int| #![trigger finals[r]] 0 <= r < models.len() implies ran(
            all_reduce_channel::<T, D>(
                models[r],
                tables[r],
                start,
                size,
                operation,
                c as usize,
                reduce,
            ),
            parts[r],
            finals[r],
        ) by {
            assert(tallies[r].len() == channels);
            assert(ran(
                all_reduce_channels::<T, D>(models[r], length, channels, operation, reduce)(
                    0 + c,
                    given_to(inputs[r], tallies[r], c),
                ),
                traces[r].subrange(c * step, c * step + step),
                tallies[r][c],
            ));
        }
        lemma_all_reduce_channel::<T, D>(
            models,
            tables,
            length,
            start,
            size,
            operation,
            c as usize,
            reduce,
            parts,
            finals,
        );
        assert forall|r: int| 0 <= r < models.len() implies (#[trigger] now[r]).len() == length by {
            assert(now[r] == finals[r].values);
        }
        assert forall|r: int, x: int|
            #![trigger now[r][x]]
            0 <= r < models.len() && 0 <= x < length implies now[r][x] == (if balanced_owner(
            length,
            channels,
            x,
        ) < done {
            ring_reduced(models[0], inputs, length, channels, reduce, x)
        } else {
            inputs[r][x]
        }) by {
            assert(now[r] == finals[r].values);
            assert(finals[r].values[x] == now[r][x]);
            lemma_balanced_owner(length, channels, x);
            let owner = balanced_owner(length, channels, x);
            assert(tables[r][x] == before_channel(inputs, tallies, c)[r][x]);
            if start <= x < start + size {
                lemma_owner_is(length, channels, c, x);
                lemma_one_world(models, 0, c);
                let held = by_place(tables, ring);
                let whole = by_place(inputs, ring);
                assert forall|p: int| #![trigger held[p]] 0 <= p < held.len() implies held[p][x]
                    == whole[p][x] by {
                    assert(tables[ring[p] as int][x] == before_channel(
                        inputs,
                        tallies,
                        c,
                    )[ring[p] as int][x]);
                }
                lemma_fold_column(
                    held,
                    whole,
                    x,
                    place_of(ring, start, size, x),
                    ring.len() - 1,
                    reduce,
                );
            } else {
                assert(owner != c);
            }
        }
    }
}

/// The calls of a channel of a ring all-reduce.
proof fn lemma_all_reduce_calls<T, D: RankDevice<T>>(
    model: CollectiveModel,
    length: int,
    channels: int,
    operation: u64,
    reduce: spec_fn(T, T) -> T,
)
    requires
        model.valid(),
    ensures
        calls_for_each(
            all_reduce_channels::<T, D>(model, length, channels, operation, reduce),
            4 * (model.world() - 1),
        ),
        hops_for_each(
            all_reduce_channels::<T, D>(model, length, channels, operation, reduce),
            all_reduce_hops(model, length, channels, operation),
        ),
{
    reveal(calls_for_each);
    reveal(hops_for_each);
    let hops = all_reduce_hops(model, length, channels, operation);
    let channel = all_reduce_channels::<T, D>(model, length, channels, operation, reduce);
    assert forall|c: int, v: Seq<T>, events: Seq<TransportEvent>, tally: Tally<T>| #[trigger]
        ran(channel(c, v), events, tally) implies events.len() == 4 * (model.world() - 1) && took(
        events,
        hops(c),
    ) by {
        lemma_all_reduce_channel_ran::<T, D>(
            model,
            v,
            balanced_start(length, channels, c),
            chunk_length(length, channels, c),
            operation,
            c as usize,
            reduce,
            events,
            tally,
        );
    }
}

/// A ring all-reduce that succeeds is an agreement and its channels.
proof fn lemma_all_reduce_ran<T, D: RankDevice<T>>(
    model: CollectiveModel,
    input: Seq<T>,
    operation: u64,
    reduction: ReductionOperation,
    ring_channels: int,
    reduce: spec_fn(T, T) -> T,
    trace: Seq<TransportEvent>,
    result: (Seq<T>, CollectiveStats),
) -> (tallies: Seq<Tally<T>>)
    requires
        model.valid(),
        0 < ring_channels,
        ran(
            all_reduce_ring_script::<T, D>(
                model,
                input,
                operation,
                reduction,
                ring_channels,
                reduce,
            ),
            trace,
            result,
        ),
    ensures
        trace.len() >= 1,
        ({
            let channels = effective_channels(ring_channels, input.len() as int);
            channels_ran(
                all_reduce_channels::<T, D>(
                    model,
                    input.len() as int,
                    channels,
                    operation,
                    reduce,
                ),
                0,
                channels,
                input,
                4 * (model.world() - 1),
                trace.skip(1),
                tallies,
            )
        }),
        left_by(input, tallies) == result.0,
        trace[0].call is Exchange,
        took(
            trace.skip(1),
            hops_from(
                all_reduce_hops(
                    model,
                    input.len() as int,
                    effective_channels(ring_channels, input.len() as int),
                    operation,
                ),
                0,
                effective_channels(ring_channels, input.len() as int),
            ),
        ),
{
    let length = input.len() as int;
    let channels = effective_channels(ring_channels, length);
    let step = 4 * (model.world() - 1);
    let chain = all_reduce_channels::<T, D>(model, length, channels, operation, reduce);
    let run = lemma_ring_collective(
        fnv(
            agreement_bytes(
                operation,
                length as u64,
                model.channel_rings(channels),
                (0x100 + reduction.spec_code()) as u32,
                channels as u64,
                model.channel_rails(channels),
            ),
        ),
        "invalid ring collective agreement response"@,
        chain,
        channels,
        input,
        all_reduce_agreed::<T, D>(model, input, channels, operation, reduce),
        all_reduce_finished::<T, D>(model),
        trace,
        result,
    );
    lemma_all_reduce_calls::<T, D>(model, length, channels, operation, reduce);
    lemma_channels_took(
        chain,
        all_reduce_hops(model, length, channels, operation),
        0,
        channels,
        input,
        Seq::empty(),
        trace.skip(1),
        run,
    );
    lemma_channels_ran(chain, 0, channels, input, Seq::empty(), step, trace.skip(1), run)
}

/// The hops of any two ranks in a ring all-reduce fit.
proof fn lemma_all_reduce_facing(
    models: Seq<CollectiveModel>,
    rank: int,
    other: int,
    length: int,
    channels: int,
    operation: u64,
)
    requires
        one_world(models),
        0 <= rank < models.len(),
        0 <= other < models.len(),
        channels <= usize::MAX,
    ensures
        facing(
            hops_from(all_reduce_hops(models[rank], length, channels, operation), 0, channels),
            rank as u32,
            hops_from(all_reduce_hops(models[other], length, channels, operation), 0, channels),
            other as u32,
        ),
{
    let own = all_reduce_hops(models[rank], length, channels, operation);
    let theirs = all_reduce_hops(models[other], length, channels, operation);
    assert forall|c: int| 0 <= c < channels implies facing(
        #[trigger] own(c),
        rank as u32,
        theirs(c),
        other as u32,
    ) by {
        lemma_one_world(models, rank, c);
        lemma_one_world(models, other, c);
        assert(models[rank].place.rank == rank && models[other].place.rank == other);
        let ring = models[0].ring(c);
        let p = ring.index_of(rank as u32);
        let q = ring.index_of(other as u32);
        lemma_neighbours(ring, p, q, 1);
        let one = own(c);
        let two = theirs(c);
        assert forall|j: int| #![trigger one[j]] 0 <= j < one.len() implies {
            &&& one[j].source == other as u32 <==> two[j].destination == rank as u32
            &&& one[j].source == other as u32 ==> one[j].tag == two[j].tag
        } by {}
    }
    lemma_facing_channels(own, rank as u32, theirs, other as u32, 0, channels);
}

/// A ring all-reduce. Where every rank of a world runs its part to the end and
/// receives what its neighbours send, all ranks hold the same: each element is
/// reduced round the ring of its channel, over every rank's own. With a reduction
/// whose order does not matter that is the reduction over the ranks in order.
pub proof fn law_ring_all_reduce<T, D: RankDevice<T>>(
    models: Seq<CollectiveModel>,
    inputs: Seq<Seq<T>>,
    length: int,
    operation: u64,
    reduction: ReductionOperation,
    ring_channels: int,
    reduce: spec_fn(T, T) -> T,
    traces: Seq<Seq<TransportEvent>>,
    results: Seq<(Seq<T>, CollectiveStats)>,
)
    requires
        faithful::<T, D>(),
        one_world(models),
        inputs.len() == models.len(),
        traces.len() == models.len(),
        results.len() == models.len(),
        0 < ring_channels <= usize::MAX,
        in_order_delivery(traces),
        forall|r: int| 0 <= r < inputs.len() ==> (#[trigger] inputs[r]).len() == length,
        forall|r: int|
            #![trigger results[r]]
            0 <= r < models.len() ==> ran(
                all_reduce_ring_script::<T, D>(
                    models[r],
                    inputs[r],
                    operation,
                    reduction,
                    ring_channels,
                    reduce,
                ),
                traces[r],
                results[r],
            ),
    ensures
        forall|r: int|
            0 <= r < models.len() ==> (#[trigger] results[r]).0 == Seq::new(
                length as nat,
                |x: int|
                    ring_reduced(
                        models[0],
                        inputs,
                        length,
                        effective_channels(ring_channels, length),
                        reduce,
                        x,
                    ),
            ),
        order_free(reduce) ==> forall|r: int, x: int|
            #![trigger results[r].0[x]]
            0 <= r < models.len() && 0 <= x < length ==> results[r].0[x] == rank_fold(
                inputs,
                x,
                models.len() - 1,
                reduce,
            ),
{
    assert(inputs[0].len() == length);
    let channels = effective_channels(ring_channels, length);
    let step = 4 * (models.len() - 1);
    let rests = rest_of(traces, 1);
    let tallies = Seq::new(
        models.len(),
        |r: int|
            choose|t: Seq<Tally<T>>|
                channels_ran(
                    all_reduce_channels::<T, D>(models[r], length, channels, operation, reduce),
                    0,
                    channels,
                    inputs[r],
                    step,
                    rests[r],
                    t,
                ) && left_by(inputs[r], t) == results[r].0,
    );
    let hops = Seq::new(
        models.len(),
        |r: int| hops_from(all_reduce_hops(models[r], length, channels, operation), 0, channels),
    );
    assert forall|r: int|
        #![trigger tallies[r]]
        0 <= r < models.len() implies traces[r].len() >= 1 && channels_ran(
        all_reduce_channels::<T, D>(models[r], length, channels, operation, reduce),
        0,
        channels,
        inputs[r],
        step,
        rests[r],
        tallies[r],
    ) && left_by(inputs[r], tallies[r]) == results[r].0 && traces[r][0].call is Exchange && took(
        rests[r],
        hops[r],
    ) by {
        assert(inputs[r].len() == length);
        let found = lemma_all_reduce_ran::<T, D>(
            models[r],
            inputs[r],
            operation,
            reduction,
            ring_channels,
            reduce,
            traces[r],
            results[r],
        );
        assert(rests[r] == traces[r].skip(1));
        assert(channels_ran(
            all_reduce_channels::<T, D>(models[r], length, channels, operation, reduce),
            0,
            channels,
            inputs[r],
            step,
            rests[r],
            found,
        ) && left_by(inputs[r], found) == results[r].0);
    }
    assert forall|r: int| 0 <= r < traces.len() implies (#[trigger] traces[r]).len() >= 1
        && traces[r][0].call is Exchange by {
        assert(tallies[r].len() == channels);
    }
    lemma_rest_delivered(traces);
    assert forall|r: int| 0 <= r < rests.len() implies took(#[trigger] rests[r], hops[r]) by {
        assert(tallies[r].len() == channels);
    }
    assert forall|r: int, s: int|
        #![trigger hops[r], hops[s]]
        0 <= r < rests.len() && 0 <= s < rests.len() implies facing(
        hops[r],
        r as u32,
        hops[s],
        s as u32,
    ) by {
        lemma_all_reduce_facing(models, r, s, length, channels, operation);
    }
    assert(models[0].place.world_size == models.len());
    lemma_delivered_in_step(rests, hops);
    lemma_all_reduce_channels::<T, D>(
        models,
        inputs,
        length,
        channels,
        operation,
        reduce,
        rests,
        tallies,
        channels,
    );
    let last = before_channel(inputs, tallies, channels);
    assert forall|r: int| 0 <= r < models.len() implies (#[trigger] results[r]).0 == Seq::new(
        length as nat,
        |x: int| ring_reduced(models[0], inputs, length, channels, reduce, x),
    ) by {
        assert(tallies[r].len() == channels);
        assert(last[r] == results[r].0);
        assert forall|x: int| 0 <= x < length implies results[r].0[x] == ring_reduced(
            models[0],
            inputs,
            length,
            channels,
            reduce,
            x,
        ) by {
            lemma_balanced_owner(length, channels, x);
            assert(last[r][x] == results[r].0[x]);
        }
        assert(results[r].0 =~= Seq::new(
            length as nat,
            |x: int| ring_reduced(models[0], inputs, length, channels, reduce, x),
        ));
    }
    if order_free(reduce) {
        assert forall|r: int, x: int|
            #![trigger results[r].0[x]]
            0 <= r < models.len() && 0 <= x < length implies results[r].0[x] == rank_fold(
            inputs,
            x,
            models.len() - 1,
            reduce,
        ) by {
            let c = balanced_owner(length, channels, x);
            lemma_balanced_owner(length, channels, x);
            lemma_one_world(models, 0, c);
            let ring = models[0].ring(c);
            law_any_ring(
                inputs,
                models.len() as u32,
                ring,
                x,
                place_of(
                    ring,
                    balanced_start(length, channels, c),
                    chunk_length(length, channels, c),
                    x,
                ),
                reduce,
            );
        }
    }
}

} // verus!

//! How the hierarchical reductions fare on a device and a transport that work.

use crate::rank::device::{lemma_reading_length, reads_evenly, RankDevice};
use crate::rank::device_collective::hierarchical::all_reduce::{
    all_reduce_hierarchical_script, all_reduce_hierarchy_agreed, hierarchical_all_reduce_labels,
    leader_all_reduce_channels,
    leader_all_reduce_labels, leader_all_reduce_script, leader_blocks, leader_collected,
    leader_ringed, leader_shared, leaders_finished, member_finished, member_script, member_sent,
    same_payload,
};
use crate::rank::device_collective::hierarchical::{
    collect_next, collect_script, collected, data_tag, group_of, receive_script, share_next,
    share_script,
};
use crate::rank::device_collective::ring::{
    channels_next, channels_script, chunk_length, chunk_script, leg_next, leg_script, relay,
    relay_next, round_legs, second_round, totalled, Labels, Leg, RoundTags, Tally,
};
use crate::rank::device_collective::{agreement_script, effective_channels, CollectiveModel};
use crate::rank::hash::fnv;
use crate::rank::layout::{balanced_start, law_balanced_partition};
use crate::rank::operation::ReductionOperation;
use crate::rank::prospects::{
    anything, fares, lemma_fares_ask, lemma_fares_done, lemma_fares_tried, overflowed,
};
use crate::rank::protocol::{ElementType, Opcode};
use crate::rank::script::{tried, Script, TransportCall, TransportReply};
use crate::rank::stats::CollectiveStats;
use crate::rank::tags::agreement_bytes;
use crate::rank::topology::cycles::heads;
use vstd::arithmetic::div_mod::*;
use vstd::prelude::*;

verus! {

/// How a transport that works answers a collective's calls: a send goes through,
/// a receive brings as many elements of its type as it asked for, the device's own
/// can be read, and the ranks agree.
pub open spec fn works<T, D: RankDevice<T>>() -> spec_fn(TransportCall, TransportReply) -> bool {
    |call: TransportCall, reply: TransportReply|
        match call {
            TransportCall::Send { .. } => reply is Finished,
            TransportCall::Receive { element_type, element_count, .. } => {
                &&& reply matches TransportReply::Delivered(frame)
                &&& frame.payload.len() == element_count * element_type.width()
                &&& element_type.width() == D::ELEMENT_SIZE ==> D::refusal(frame.payload) is None
            },
            TransportCall::Exchange { .. } => {
                &&& reply matches TransportReply::Delivered(frame)
                &&& frame.header.opcode == Opcode::Barrier
                &&& frame.payload.len() == 0
            },
            _ => true,
        }
}

/// An element always takes the same number of bytes.
pub open spec fn encodes_evenly<T, D: RankDevice<T>>() -> bool {
    &&& reads_evenly::<T, D>()
    &&& forall|values: Seq<T>|
        (#[trigger] D::encoding(values)).len() == values.len() * D::ELEMENT_SIZE
}

/// A number of values.
pub open spec fn sized<T>(length: int) -> spec_fn(Seq<T>) -> bool {
    |values: Seq<T>| values.len() == length
}

/// A tally of a number of values.
pub open spec fn sized_tally<T>(length: int) -> spec_fn(Tally<T>) -> bool {
    |tally: Tally<T>| tally.values.len() == length
}

/// Bytes of a number of elements.
pub open spec fn sized_bytes<T, D: RankDevice<T>>(length: int) -> spec_fn(Seq<u8>) -> bool {
    |bytes: Seq<u8>| bytes.len() == length * D::ELEMENT_SIZE
}

/// An agreement.
pub proof fn lemma_agreement_fares<T, D: RankDevice<T>>(tag: u64, complaint: Seq<char>)
    ensures
        fares(agreement_script::<D::Error>(tag, complaint), works::<T, D>(), anything()),
{
    let script = agreement_script::<D::Error>(tag, complaint);
    assert forall|reply: TransportReply| works::<T, D>()(script->Ask_0, reply) implies fares(
        #[trigger] (script->Ask_1)(reply),
        works::<T, D>(),
        anything(),
    ) by {
        lemma_fares_done((script->Ask_1)(reply), works::<T, D>(), anything());
    }
    lemma_fares_ask(script, works::<T, D>(), anything());
}

proof fn lemma_send_fares<T, D: RankDevice<T>>(
    model: CollectiveModel,
    destination: u32,
    tag: u64,
    count: int,
    payload: Seq<u8>,
)
    ensures
        fares(
            model.send_script::<D::Error>(destination, tag, count, payload),
            works::<T, D>(),
            anything(),
        ),
{
    let script = model.send_script::<D::Error>(destination, tag, count, payload);
    assert forall|reply: TransportReply| works::<T, D>()(script->Ask_0, reply) implies fares(
        #[trigger] (script->Ask_1)(reply),
        works::<T, D>(),
        anything(),
    ) by {
        lemma_fares_done((script->Ask_1)(reply), works::<T, D>(), anything());
    }
    lemma_fares_ask(script, works::<T, D>(), anything());
}

pub proof fn lemma_receive_fares<T, D: RankDevice<T>>(
    model: CollectiveModel,
    source: u32,
    tag: u64,
    length: int,
)
    requires
        model.element_type.width() == D::ELEMENT_SIZE,
        reads_evenly::<T, D>(),
        0 <= length <= u64::MAX,
    ensures
        fares(
            receive_script::<T, D>(model, source, tag, length),
            works::<T, D>(),
            sized(length),
        ),
{
    let script = receive_script::<T, D>(model, source, tag, length);
    assert forall|reply: TransportReply| works::<T, D>()(script->Ask_0, reply) implies fares(
        #[trigger] (script->Ask_1)(reply),
        works::<T, D>(),
        sized(length),
    ) by {
        let frame = reply->Delivered_0;
        lemma_reading_length::<T, D>(frame.payload, length as nat);
        lemma_fares_done((script->Ask_1)(reply), works::<T, D>(), sized(length));
    }
    lemma_fares_ask(script, works::<T, D>(), sized(length));
}

pub proof fn lemma_chunk_fares<T, D: RankDevice<T>>(
    element_type: ElementType,
    rail: usize,
    part: Seq<T>,
    length: int,
    destination: u32,
    source: u32,
    tag: u64,
)
    requires
        element_type.width() == D::ELEMENT_SIZE,
        0 <= length <= u64::MAX,
    ensures
        fares(
            chunk_script::<T, D>(element_type, rail, part, length, destination, source, tag),
            works::<T, D>(),
            sized_bytes::<T, D>(length),
        ),
{
    let works = works::<T, D>();
    let hopes = sized_bytes::<T, D>(length);
    let script = chunk_script::<T, D>(
        element_type,
        rail,
        part,
        length,
        destination,
        source,
        tag,
    );
    assert forall|reply: TransportReply| works(script->Ask_0, reply) implies fares(
        #[trigger] (script->Ask_1)(reply),
        works,
        hopes,
    ) by {
        let rest = (script->Ask_1)(reply);
        assert forall|answer: TransportReply| works(rest->Ask_0, answer) implies fares(
            #[trigger] (rest->Ask_1)(answer),
            works,
            hopes,
        ) by {
            lemma_fares_done((rest->Ask_1)(answer), works, hopes);
        }
        lemma_fares_ask(rest, works, hopes);
    }
    lemma_fares_ask(script, works, hopes);
}

proof fn lemma_leg_fares<T, D: RankDevice<T>>(
    element_type: ElementType,
    rail: usize,
    tally: Tally<T>,
    leg: Leg,
    reduce: spec_fn(T, T) -> T,
    labels: Labels,
)
    requires
        element_type.width() == D::ELEMENT_SIZE,
        0 <= leg.receive_length <= u64::MAX,
    ensures
        fares(
            leg_script::<T, D>(element_type, rail, tally.values, tally, leg, reduce, labels),
            works::<T, D>(),
            sized_tally(tally.values.len() as int),
        ),
{
    let works = works::<T, D>();
    let hopes = sized_bytes::<T, D>(leg.receive_length);
    let wishes = sized_tally::<T>(tally.values.len() as int);
    let next = leg_next::<T, D>(tally, leg, reduce, labels);
    let first = chunk_script::<T, D>(
        element_type,
        rail,
        tally.values.subrange(leg.send_start, leg.send_start + leg.send_length),
        leg.receive_length,
        leg.destination,
        leg.source,
        leg.tag,
    );
    lemma_chunk_fares::<T, D>(
        element_type,
        rail,
        tally.values.subrange(leg.send_start, leg.send_start + leg.send_length),
        leg.receive_length,
        leg.destination,
        leg.source,
        leg.tag,
    );
    assert forall|bytes: Seq<u8>| #[trigger] hopes(bytes) implies fares(
        next(bytes),
        works,
        wishes,
    ) by {
        lemma_fares_done(next(bytes), works, wishes);
    }
    lemma_fares_tried(first, false, next, works, hopes, wishes);
}

/// A relay.
pub proof fn lemma_relay_fares<T, D: RankDevice<T>>(
    element_type: ElementType,
    rail: usize,
    legs: Seq<Leg>,
    index: int,
    tally: Tally<T>,
    reduce: spec_fn(T, T) -> T,
    labels: Labels,
)
    requires
        element_type.width() == D::ELEMENT_SIZE,
        0 <= index <= legs.len(),
        forall|i: int| 0 <= i < legs.len() ==> 0 <= (#[trigger] legs[i]).receive_length <= u64::MAX,
    ensures
        fares(
            relay::<T, D>(element_type, rail, legs, index, tally, reduce, labels),
            works::<T, D>(),
            sized_tally(tally.values.len() as int),
        ),
    decreases legs.len() - index,
{
    let works = works::<T, D>();
    let script = relay::<T, D>(element_type, rail, legs, index, tally, reduce, labels);
    let hopes = sized_tally::<T>(tally.values.len() as int);
    if index == legs.len() {
        lemma_fares_done(script, works, hopes);
    } else {
        let leg = legs[index];
        lemma_leg_fares::<T, D>(element_type, rail, tally, leg, reduce, labels);
        let next = relay_next::<T, D>(element_type, rail, legs, index, reduce, labels);
        assert forall|value: Tally<T>| #[trigger] hopes(value) implies fares(
            next(value),
            works,
            hopes,
        ) by {
            lemma_relay_fares::<T, D>(
                element_type,
                rail,
                legs,
                index + 1,
                value,
                reduce,
                labels,
            );
        }
        lemma_fares_tried(
            leg_script::<T, D>(
                element_type,
                rail,
                tally.values,
                tally,
                leg,
                reduce,
                labels,
            ),
            false,
            next,
            works,
            hopes,
            hopes,
        );
    }
}

/// A leader that receives from its members.
pub proof fn lemma_collect_fares<T, D: RankDevice<T>>(
    model: CollectiveModel,
    group: Seq<u32>,
    index: int,
    operation: u64,
    phase: u32,
    tally: Tally<T>,
    reduce: spec_fn(T, T) -> T,
    labels: Labels,
)
    requires
        model.element_type.width() == D::ELEMENT_SIZE,
        encodes_evenly::<T, D>(),
        0 <= index,
        tally.values.len() <= u64::MAX,
    ensures
        fares(
            collect_script::<T, D>(
                model,
                group,
                index,
                operation,
                phase,
                tally.values.len() as int,
                tally,
                reduce,
                labels,
            ),
            works::<T, D>(),
            sized_tally(tally.values.len() as int),
        ),
    decreases group.len() - index,
{
    let works = works::<T, D>();
    let length = tally.values.len() as int;
    let wishes = sized_tally::<T>(length);
    let script = collect_script::<T, D>(
        model,
        group,
        index,
        operation,
        phase,
        length,
        tally,
        reduce,
        labels,
    );
    if index >= group.len() {
        lemma_fares_done(script, works, wishes);
    } else {
        let tag = data_tag(operation, phase, group[index]);
        let hopes = sized::<T>(length);
        let next = collect_next::<T, D>(
            model,
            group,
            index,
            operation,
            phase,
            length,
            tally,
            reduce,
            labels,
        );
        lemma_receive_fares::<T, D>(model, group[index], tag, length);
        assert forall|values: Seq<T>| #[trigger] hopes(values) implies fares(
            next(values),
            works,
            wishes,
        ) by {
            assert(D::encoding(values).len() == values.len() * D::ELEMENT_SIZE);
            match collected::<T, D>(tally, values, reduce, labels) {
                Err(failure) => {
                    assert(overflowed(failure));
                    lemma_fares_done(next(values), works, wishes);
                },
                Ok(more) => {
                    assert(more.values.len() == length);
                    lemma_collect_fares::<T, D>(
                        model,
                        group,
                        index + 1,
                        operation,
                        phase,
                        more,
                        reduce,
                        labels,
                    );
                },
            }
        }
        lemma_fares_tried(
            receive_script::<T, D>(model, group[index], tag, length),
            false,
            next,
            works,
            hopes,
            wishes,
        );
    }
}

/// A leader that sends to its members.
pub proof fn lemma_share_fares<T, D: RankDevice<T>>(
    model: CollectiveModel,
    group: Seq<u32>,
    index: int,
    operation: u64,
    phase: u32,
    count: int,
    payloads: spec_fn(int) -> Seq<u8>,
    bytes: int,
    label: Seq<char>,
)
    requires
        0 <= index,
    ensures
        fares(
            share_script::<D::Error>(
                model,
                group,
                index,
                operation,
                phase,
                count,
                payloads,
                bytes,
                label,
            ),
            works::<T, D>(),
            anything(),
        ),
    decreases group.len() - index,
{
    let works = works::<T, D>();
    let script = share_script::<D::Error>(
        model,
        group,
        index,
        operation,
        phase,
        count,
        payloads,
        bytes,
        label,
    );
    if index >= group.len() {
        lemma_fares_done(script, works, anything());
    } else {
        let tag = data_tag(operation, phase, group[index]);
        let next = share_next::<D::Error>(
            model,
            group,
            index,
            operation,
            phase,
            count,
            payloads,
            bytes,
            label,
        );
        lemma_send_fares::<T, D>(model, group[index], tag, count, payloads(index));
        let hopes = anything::<()>();
        assert forall|sent: ()| #[trigger] hopes(sent) implies fares(
            next(sent),
            works,
            anything(),
        ) by {
            if bytes + payloads(index).len() > usize::MAX {
                lemma_fares_done(next(sent), works, anything());
            } else {
                lemma_share_fares::<T, D>(
                    model,
                    group,
                    index + 1,
                    operation,
                    phase,
                    count,
                    payloads,
                    bytes + payloads(index).len(),
                    label,
                );
            }
        }
        lemma_fares_tried(
            model.send_script::<D::Error>(group[index], tag, count, payloads(index)),
            false,
            next,
            works,
            hopes,
            anything(),
        );
    }
}

/// A member.
pub proof fn lemma_member_fares<T, D: RankDevice<T>>(
    model: CollectiveModel,
    leader: u32,
    values: Seq<T>,
    operation: u64,
    up: u32,
    down: u32,
    length: int,
    steps: int,
    label: Seq<char>,
)
    requires
        model.element_type.width() == D::ELEMENT_SIZE,
        reads_evenly::<T, D>(),
        0 <= length <= u64::MAX,
    ensures
        fares(
            member_script::<T, D>(
                model,
                leader,
                values,
                operation,
                up,
                down,
                length,
                steps,
                label,
            ),
            works::<T, D>(),
            anything(),
        ),
{
    let works = works::<T, D>();
    let sent = D::encoding(values).len() as int;
    let tag = data_tag(operation, up, model.place.rank);
    let reply = data_tag(operation, down, model.place.rank);
    let first = model.send_script::<D::Error>(
        leader,
        tag,
        values.len() as int,
        D::encoding(values),
    );
    let next = member_sent::<T, D>(model, leader, operation, down, length, sent, steps, label);
    let second = receive_script::<T, D>(model, leader, reply, length);
    let last = member_finished::<T, D>(model, sent, steps, label);
    lemma_send_fares::<T, D>(model, leader, tag, values.len() as int, D::encoding(values));
    lemma_receive_fares::<T, D>(model, leader, reply, length);
    let wishes = anything::<(Seq<T>, CollectiveStats)>();
    let hopes = sized::<T>(length);
    assert forall|answer: Seq<T>| #[trigger] hopes(answer) implies fares(
        last(answer),
        works,
        wishes,
    ) by {
        lemma_fares_done(last(answer), works, wishes);
    }
    lemma_fares_tried(second, false, last, works, hopes, wishes);
    let any = anything::<()>();
    assert forall|done: ()| #[trigger] any(done) implies fares(next(done), works, wishes) by {
        assert(next(done) == tried(second, false, last));
    }
    lemma_fares_tried(first, false, next, works, any, wishes);
}

/// Channels one after the other, each of which keeps the number of values.
pub proof fn lemma_channels_fare<T, D: RankDevice<T>>(
    channel: spec_fn(int, Seq<T>) -> Script<Tally<T>, D::Error>,
    index: int,
    count: int,
    values: Seq<T>,
    totals: Seq<(int, int)>,
)
    requires
        0 <= index,
        forall|i: int, held: Seq<T>|
            0 <= i < count && held.len() == values.len() ==> fares(
                #[trigger] channel(i, held),
                works::<T, D>(),
                sized_tally(values.len() as int),
            ),
    ensures
        fares(
            channels_script(channel, index, count, values, totals),
            works::<T, D>(),
            |run: (Seq<T>, Seq<(int, int)>)| run.0.len() == values.len(),
        ),
    decreases count - index,
{
    let works = works::<T, D>();
    let script = channels_script(channel, index, count, values, totals);
    let wishes = |run: (Seq<T>, Seq<(int, int)>)| run.0.len() == values.len();
    if index >= count {
        lemma_fares_done(script, works, wishes);
    } else {
        let next = channels_next(channel, index, count, totals);
        let hopes = sized_tally::<T>(values.len() as int);
        assert forall|tally: Tally<T>| #[trigger] hopes(tally) implies fares(
            next(tally),
            works,
            wishes,
        ) by {
            lemma_channels_fare::<T, D>(
                channel,
                index + 1,
                count,
                tally.values,
                totals.push((tally.bytes, tally.launches)),
            );
            let same = |run: (Seq<T>, Seq<(int, int)>)| run.0.len() == tally.values.len();
            assert(same =~= wishes);
        }
        lemma_fares_tried(channel(index, values), true, next, works, hopes, wishes);
    }
}

/// Channels' counts that do not add up do not fit.
pub proof fn lemma_totals_overflow<E>(totals: Seq<(int, int)>, labels: Labels)
    ensures
        totalled::<E>(totals, labels) matches Err(failure) ==> overflowed(failure),
    decreases totals.len(),
{
    if totals.len() > 0 {
        lemma_totals_overflow::<E>(totals.drop_last(), labels);
    }
}

/// Legs of a round over blocks.
pub proof fn lemma_round_legs(
    ring: Seq<u32>,
    blocks: Seq<(int, int)>,
    position: int,
    origin: int,
    tags: spec_fn(int) -> u64,
    reduce: bool,
)
    requires
        ring.len() > 0,
        blocks.len() == ring.len(),
        forall|i: int|
            0 <= i < blocks.len() ==> 0 <= (#[trigger] blocks[i]).1 - blocks[i].0 <= u64::MAX,
    ensures
        forall|i: int|
            0 <= i < round_legs(ring, blocks, position, origin, tags, reduce).len() ==> 0 <= (
            #[trigger] round_legs(ring, blocks, position, origin, tags, reduce)[i]).receive_length
                <= u64::MAX,
{
    let legs = round_legs(ring, blocks, position, origin, tags, reduce);
    assert forall|i: int| 0 <= i < legs.len() implies 0 <= (#[trigger] legs[i]).receive_length
        <= u64::MAX by {
        let place = (origin - i - 1) % (ring.len() as int);
        lemma_mod_bound(origin - i - 1, ring.len() as int);
        assert(0 <= blocks[place].1 - blocks[place].0 <= u64::MAX);
    }
}

/// The leaders' all-reduce.
pub proof fn lemma_leader_all_reduce_fares<T, D: RankDevice<T>>(
    model: CollectiveModel,
    leaders: Seq<u32>,
    position: int,
    values: Seq<T>,
    operation: u64,
    ring_channels: int,
    reduce: spec_fn(T, T) -> T,
)
    requires
        model.element_type.width() == D::ELEMENT_SIZE,
        leaders.len() > 0,
        ring_channels > 0,
        values.len() <= usize::MAX,
    ensures
        fares(
            leader_all_reduce_script::<T, D>(
                model,
                leaders,
                position,
                values,
                operation,
                ring_channels,
                reduce,
            ),
            works::<T, D>(),
            sized_tally(values.len() as int),
        ),
{
    let works = works::<T, D>();
    let length = values.len() as int;
    let channels = effective_channels(ring_channels, length);
    let count = leaders.len() as int;
    let channel = leader_all_reduce_channels::<T, D>(
        model,
        leaders,
        position,
        length,
        channels,
        operation,
        reduce,
    );
    let wishes = sized_tally::<T>(length);
    assert forall|c: int, held: Seq<T>|
        0 <= c < channels && held.len() == values.len() implies fares(
        #[trigger] channel(c, held),
        works,
        wishes,
    ) by {
        law_balanced_partition(length, channels, c);
        let part = chunk_length(length, channels, c);
        let blocks = leader_blocks(count, balanced_start(length, channels, c), part);
        assert forall|i: int| 0 <= i < blocks.len() implies 0 <= (#[trigger] blocks[i]).1
            - blocks[i].0 <= u64::MAX by {
            law_balanced_partition(part, count, i);
        }
        let first = RoundTags { operation, channel: c as usize, phase: 1, hierarchical: true };
        let second = RoundTags { operation, channel: c as usize, phase: 2, hierarchical: true };
        let labels = leader_all_reduce_labels();
        let rail = model.rail(c);
        let legs = round_legs(leaders, blocks, position, position, first.tags(), true);
        let back = round_legs(
            leaders,
            blocks,
            position,
            (position + 1) % count,
            second.tags(),
            false,
        );
        let start = Tally { values: held, bytes: 0, launches: 0 };
        lemma_round_legs(leaders, blocks, position, position, first.tags(), true);
        lemma_round_legs(
            leaders,
            blocks,
            position,
            (position + 1) % count,
            second.tags(),
            false,
        );
        lemma_relay_fares::<T, D>(model.element_type, rail, legs, 0, start, reduce, labels);
        let next = second_round::<T, D>(
            model.element_type,
            rail,
            leaders,
            blocks,
            position,
            second,
            reduce,
            labels,
        );
        assert forall|tally: Tally<T>| #[trigger] wishes(tally) implies fares(
            next(tally),
            works,
            wishes,
        ) by {
            lemma_relay_fares::<T, D>(model.element_type, rail, back, 0, tally, reduce, labels);
        }
        lemma_fares_tried(
            relay::<T, D>(model.element_type, rail, legs, 0, start, reduce, labels),
            false,
            next,
            works,
            wishes,
            wishes,
        );
    }
    lemma_channels_fare::<T, D>(channel, 0, channels, values, Seq::empty());
    let ran = |run: (Seq<T>, Seq<(int, int)>)| run.0.len() == values.len();
    let last = leaders_finished::<T, D::Error>(leader_all_reduce_labels());
    assert forall|run: (Seq<T>, Seq<(int, int)>)| #[trigger] ran(run) implies fares(
        last(run),
        works,
        wishes,
    ) by {
        lemma_totals_overflow::<D::Error>(run.1, leader_all_reduce_labels());
        lemma_fares_done(last(run), works, wishes);
    }
    lemma_fares_tried(
        channels_script(channel, 0, channels, values, Seq::empty()),
        false,
        last,
        works,
        ran,
        wishes,
    );
}

/// Where the device refuses nothing and the transport works, a rank's hierarchical
/// all-reduce ends in a result unless a count does not fit.
pub proof fn law_hierarchical_all_reduce_succeeds<T, D: RankDevice<T>>(
    model: CollectiveModel,
    values: Seq<T>,
    operation: u64,
    reduction: ReductionOperation,
    ring_channels: int,
    reduce: spec_fn(T, T) -> T,
)
    requires
        model.element_type.width() == D::ELEMENT_SIZE,
        encodes_evenly::<T, D>(),
        model.valid(),
        model.membership_defect() is None,
        ring_channels > 0,
        values.len() <= usize::MAX,
    ensures
        fares(
            all_reduce_hierarchical_script::<T, D>(
                model,
                values,
                operation,
                reduction,
                ring_channels,
                reduce,
            ),
            works::<T, D>(),
            anything(),
        ),
{
    let works = works::<T, D>();
    let wishes = anything::<(Seq<T>, CollectiveStats)>();
    let length = values.len() as int;
    let group = model.group();
    let groups = model.groups();
    let steps = model.hierarchy_steps(2 * (groups.len() - 1));
    let labels = hierarchical_all_reduce_labels();
    let agreed = all_reduce_hierarchy_agreed::<T, D>(
        model,
        values,
        operation,
        ring_channels,
        reduce,
    );
    let any = anything::<()>();
    assert forall|done: ()| #[trigger] any(done) implies fares(agreed(done), works, wishes) by {
        if model.place.rank != group[0] {
            lemma_member_fares::<T, D>(
                model,
                group[0],
                values,
                operation,
                0,
                3,
                length,
                steps,
                labels.bytes,
            );
        } else {
            let start = Tally { values, bytes: 0, launches: 0 };
            let hopes = sized_tally::<T>(length);
            let next = leader_collected::<T, D>(model, operation, ring_channels, steps, reduce);
            lemma_collect_fares::<T, D>(model, group, 1, operation, 0, start, reduce, labels);
            assert forall|collected: Tally<T>| #[trigger] hopes(collected) implies fares(
                next(collected),
                works,
                wishes,
            ) by {
                let leaders = heads(groups);
                let position = group_of(groups, model.place.rank);
                lemma_leader_all_reduce_fares::<T, D>(
                    model,
                    leaders,
                    position,
                    collected.values,
                    operation,
                    ring_channels,
                    reduce,
                );
                let last = leader_ringed::<T, D>(model, operation, steps, collected);
                assert forall|ringed: Tally<T>| #[trigger] hopes(ringed) implies fares(
                    last(ringed),
                    works,
                    wishes,
                ) by {
                    if collected.bytes + ringed.bytes > usize::MAX || collected.launches
                        + ringed.launches > u32::MAX {
                        lemma_fares_done(last(ringed), works, wishes);
                    } else {
                        let payloads = same_payload(D::encoding(ringed.values));
                        let bytes = collected.bytes + ringed.bytes;
                        let shared = leader_shared::<T, D>(
                            model,
                            ringed.values,
                            steps,
                            collected.launches + ringed.launches,
                        );
                        lemma_share_fares::<T, D>(
                            model,
                            group,
                            1,
                            operation,
                            3,
                            ringed.values.len() as int,
                            payloads,
                            bytes,
                            labels.bytes,
                        );
                        let counted = anything::<int>();
                        assert forall|total: int| #[trigger] counted(total) implies fares(
                            shared(total),
                            works,
                            wishes,
                        ) by {
                            lemma_fares_done(shared(total), works, wishes);
                        }
                        lemma_fares_tried(
                            share_script::<D::Error>(
                                model,
                                group,
                                1,
                                operation,
                                3,
                                ringed.values.len() as int,
                                payloads,
                                bytes,
                                labels.bytes,
                            ),
                            false,
                            shared,
                            works,
                            counted,
                            wishes,
                        );
                    }
                }
                lemma_fares_tried(
                    leader_all_reduce_script::<T, D>(
                        model,
                        leaders,
                        position,
                        collected.values,
                        operation,
                        ring_channels,
                        reduce,
                    ),
                    false,
                    last,
                    works,
                    hopes,
                    wishes,
                );
            }
            lemma_fares_tried(
                collect_script::<T, D>(
                    model,
                    group,
                    1,
                    operation,
                    0,
                    length,
                    start,
                    reduce,
                    labels,
                ),
                false,
                next,
                works,
                hopes,
                wishes,
            );
        }
    }
    let agreement = model.hierarchy_agreement::<D::Error>(
        operation,
        length,
        (0x600 + reduction.spec_code()) as u32,
        ring_channels,
    );
    lemma_hierarchy_agreement_fares::<T, D>(
        model,
        operation,
        length,
        (0x600 + reduction.spec_code()) as u32,
        ring_channels,
    );
    lemma_fares_tried(agreement, false, agreed, works, any, wishes);
}

/// The agreement of a hierarchical collective.
pub proof fn lemma_hierarchy_agreement_fares<T, D: RankDevice<T>>(
    model: CollectiveModel,
    operation: u64,
    length: int,
    discriminator: u32,
    ring_channels: int,
)
    ensures
        fares(
            model.hierarchy_agreement::<D::Error>(operation, length, discriminator, ring_channels),
            works::<T, D>(),
            anything(),
        ),
{
    lemma_agreement_fares::<T, D>(
        fnv(
            agreement_bytes(
                operation,
                length as u64,
                model.groups(),
                discriminator,
                ring_channels as u64,
                model.channel_rails(ring_channels),
            ),
        ),
        "invalid hierarchical collective agreement response"@,
    );
}

} // verus!

//! Messages between ranks: what a rank receives from another under a tag is what
//! that rank sent it under the tag, in the same order.

use crate::rank::device_collective::laws::{got, sent};
use crate::rank::device_collective::ring::{channels_next, channels_script, Tally};
use crate::rank::script::{
    lemma_over, lemma_ran_tried, ran, Script, TransportCall, TransportEvent,
};
use vstd::prelude::*;

verus! {

/// A call that sends to a rank under a tag.
pub open spec fn sends_to(call: TransportCall, rank: u32, tag: u64) -> bool {
    call matches TransportCall::Send { destination, tag: under, .. } && destination == rank
        && under == tag
}

/// A call that receives from a rank under a tag.
pub open spec fn receives_from(call: TransportCall, rank: u32, tag: u64) -> bool {
    call matches TransportCall::Receive { source: Some(source), tag: under, .. } && source == rank
        && under == tag
}

/// What was sent to a rank under a tag.
pub open spec fn outbound(events: Seq<TransportEvent>, rank: u32, tag: u64) -> Seq<Seq<u8>>
    decreases events.len(),
{
    if events.len() == 0 {
        Seq::empty()
    } else {
        let before = outbound(events.drop_last(), rank, tag);
        if sends_to(events.last().call, rank, tag) {
            before.push(sent(events.last().call))
        } else {
            before
        }
    }
}

/// What was received from a rank under a tag.
pub open spec fn inbound(events: Seq<TransportEvent>, rank: u32, tag: u64) -> Seq<Seq<u8>>
    decreases events.len(),
{
    if events.len() == 0 {
        Seq::empty()
    } else {
        let before = inbound(events.drop_last(), rank, tag);
        if receives_from(events.last().call, rank, tag) && events.last().reply.frame() is Ok {
            before.push(got(events.last()))
        } else {
            before
        }
    }
}

/// One rank's receipts from another are the first of what that one sent it.
pub open spec fn delivered_to(
    own: Seq<TransportEvent>,
    rank: u32,
    other: Seq<TransportEvent>,
    source: u32,
) -> bool {
    forall|tag: u64|
        #![trigger inbound(own, source, tag)]
        inbound(own, source, tag).is_prefix_of(outbound(other, rank, tag))
}

/// The ranks' conversations: every rank receives from every other what that one
/// sent it, tag by tag and in order.
pub open spec fn in_order_delivery(traces: Seq<Seq<TransportEvent>>) -> bool {
    forall|r: int, s: int|
        #![trigger traces[r], traces[s]]
        0 <= r < traces.len() && 0 <= s < traces.len() ==> delivered_to(
            traces[r],
            r as u32,
            traces[s],
            s as u32,
        )
}

pub proof fn lemma_outbound_parts(
    first: Seq<TransportEvent>,
    second: Seq<TransportEvent>,
    rank: u32,
    tag: u64,
)
    ensures
        outbound(first + second, rank, tag) == outbound(first, rank, tag) + outbound(
            second,
            rank,
            tag,
        ),
    decreases second.len(),
{
    if second.len() == 0 {
        assert(first + second =~= first);
        assert(outbound(first, rank, tag) + Seq::<Seq<u8>>::empty() =~= outbound(first, rank, tag));
    } else {
        lemma_outbound_parts(first, second.drop_last(), rank, tag);
        assert((first + second).drop_last() =~= first + second.drop_last());
        assert((first + second).last() == second.last());
        assert(outbound(first + second, rank, tag) =~= outbound(first, rank, tag) + outbound(
            second,
            rank,
            tag,
        ));
    }
}

pub proof fn lemma_inbound_parts(
    first: Seq<TransportEvent>,
    second: Seq<TransportEvent>,
    rank: u32,
    tag: u64,
)
    ensures
        inbound(first + second, rank, tag) == inbound(first, rank, tag) + inbound(
            second,
            rank,
            tag,
        ),
    decreases second.len(),
{
    if second.len() == 0 {
        assert(first + second =~= first);
        assert(inbound(first, rank, tag) + Seq::<Seq<u8>>::empty() =~= inbound(first, rank, tag));
    } else {
        lemma_inbound_parts(first, second.drop_last(), rank, tag);
        assert((first + second).drop_last() =~= first + second.drop_last());
        assert((first + second).last() == second.last());
        assert(inbound(first + second, rank, tag) =~= inbound(first, rank, tag) + inbound(
            second,
            rank,
            tag,
        ));
    }
}

/// Nothing is sent to a rank where no call does so.
pub proof fn lemma_no_outbound(events: Seq<TransportEvent>, rank: u32, tag: u64)
    requires
        forall|i: int|
            0 <= i < events.len() ==> !sends_to((#[trigger] events[i]).call, rank, tag),
    ensures
        outbound(events, rank, tag) == Seq::<Seq<u8>>::empty(),
    decreases events.len(),
{
    if events.len() > 0 {
        assert forall|i: int| 0 <= i < events.drop_last().len() implies !sends_to(
            (#[trigger] events.drop_last()[i]).call,
            rank,
            tag,
        ) by {
            assert(events.drop_last()[i] == events[i]);
        }
        lemma_no_outbound(events.drop_last(), rank, tag);
        assert(events.last() == events[events.len() - 1]);
    }
}

/// Nothing is received from a rank where no call does so.
pub proof fn lemma_no_inbound(events: Seq<TransportEvent>, rank: u32, tag: u64)
    requires
        forall|i: int|
            0 <= i < events.len() ==> !receives_from((#[trigger] events[i]).call, rank, tag),
    ensures
        inbound(events, rank, tag) == Seq::<Seq<u8>>::empty(),
    decreases events.len(),
{
    if events.len() > 0 {
        assert forall|i: int| 0 <= i < events.drop_last().len() implies !receives_from(
            (#[trigger] events.drop_last()[i]).call,
            rank,
            tag,
        ) by {
            assert(events.drop_last()[i] == events[i]);
        }
        lemma_no_inbound(events.drop_last(), rank, tag);
        assert(events.last() == events[events.len() - 1]);
    }
}

/// The only message to a rank under a tag.
pub proof fn lemma_one_outbound(events: Seq<TransportEvent>, place: int, rank: u32, tag: u64)
    requires
        0 <= place < events.len(),
        sends_to(events[place].call, rank, tag),
        forall|i: int|
            0 <= i < events.len() && i != place ==> !sends_to(
                (#[trigger] events[i]).call,
                rank,
                tag,
            ),
    ensures
        outbound(events, rank, tag) == seq![sent(events[place].call)],
{
    let first = events.take(place);
    let one = seq![events[place]];
    let rest = events.skip(place + 1);
    assert(events =~= first + one + rest);
    lemma_no_outbound(first, rank, tag);
    lemma_no_outbound(rest, rank, tag);
    assert(one.drop_last() =~= Seq::empty());
    assert(outbound(one.drop_last(), rank, tag) =~= Seq::empty());
    assert(one.last() == events[place]);
    assert(outbound(one, rank, tag) =~= seq![sent(events[place].call)]);
    lemma_outbound_parts(first + one, rest, rank, tag);
    lemma_outbound_parts(first, one, rank, tag);
    assert(outbound(events, rank, tag) =~= seq![sent(events[place].call)]);
}

/// The only message from a rank under a tag.
pub proof fn lemma_one_inbound(events: Seq<TransportEvent>, place: int, rank: u32, tag: u64)
    requires
        0 <= place < events.len(),
        receives_from(events[place].call, rank, tag),
        events[place].reply.frame() is Ok,
        forall|i: int|
            0 <= i < events.len() && i != place ==> !receives_from(
                (#[trigger] events[i]).call,
                rank,
                tag,
            ),
    ensures
        inbound(events, rank, tag) == seq![got(events[place])],
{
    let first = events.take(place);
    let one = seq![events[place]];
    let rest = events.skip(place + 1);
    assert(events =~= first + one + rest);
    lemma_no_inbound(first, rank, tag);
    lemma_no_inbound(rest, rank, tag);
    assert(one.drop_last() =~= Seq::empty());
    assert(inbound(one.drop_last(), rank, tag) =~= Seq::empty());
    assert(one.last() == events[place]);
    assert(inbound(one, rank, tag) =~= seq![got(events[place])]);
    lemma_inbound_parts(first + one, rest, rank, tag);
    lemma_inbound_parts(first, one, rank, tag);
    assert(inbound(events, rank, tag) =~= seq![got(events[place])]);
}

/// The only message from one rank to another under a tag arrives as it was sent.
pub proof fn lemma_only_message(
    own: Seq<TransportEvent>,
    rank: u32,
    place: int,
    other: Seq<TransportEvent>,
    source: u32,
    origin: int,
    tag: u64,
)
    requires
        delivered_to(own, rank, other, source),
        0 <= place < own.len(),
        receives_from(own[place].call, source, tag),
        own[place].reply.frame() is Ok,
        forall|i: int|
            0 <= i < own.len() && i != place ==> !receives_from(
                (#[trigger] own[i]).call,
                source,
                tag,
            ),
        0 <= origin < other.len(),
        sends_to(other[origin].call, rank, tag),
        forall|i: int|
            0 <= i < other.len() && i != origin ==> !sends_to(
                (#[trigger] other[i]).call,
                rank,
                tag,
            ),
    ensures
        got(own[place]) == sent(other[origin].call),
{
    lemma_one_inbound(own, place, source, tag);
    lemma_one_outbound(other, origin, rank, tag);
    let arrived = inbound(own, source, tag);
    let gone = outbound(other, rank, tag);
    assert(arrived.is_prefix_of(gone));
    assert(arrived[0] == gone[0]);
}

/// A call that sends to a rank.
pub open spec fn addresses(call: TransportCall, rank: u32) -> bool {
    call matches TransportCall::Send { destination, .. } && destination == rank
}

/// A call that receives from a rank.
pub open spec fn awaits(call: TransportCall, rank: u32) -> bool {
    call matches TransportCall::Receive { source: Some(source), .. } && source == rank
}

/// All that is sent to a rank is sent in a part of the conversation.
pub open spec fn sends_within(whole: Seq<TransportEvent>, from: int, to: int, rank: u32) -> bool {
    &&& 0 <= from <= to <= whole.len()
    &&& forall|i: int|
        0 <= i < whole.len() && !(from <= i < to) ==> !addresses(
            (#[trigger] whole[i]).call,
            rank,
        )
}

/// All that is received from a rank is received in a part of the conversation.
pub open spec fn receives_within(
    whole: Seq<TransportEvent>,
    from: int,
    to: int,
    rank: u32,
) -> bool {
    &&& 0 <= from <= to <= whole.len()
    &&& forall|i: int|
        0 <= i < whole.len() && !(from <= i < to) ==> !awaits((#[trigger] whole[i]).call, rank)
}

/// Delivery between two ranks is delivery between the parts in which they speak.
pub proof fn lemma_delivered_in_parts(
    own: Seq<TransportEvent>,
    rank: u32,
    from: int,
    to: int,
    other: Seq<TransportEvent>,
    source: u32,
    other_from: int,
    other_to: int,
)
    requires
        delivered_to(own, rank, other, source),
        receives_within(own, from, to, source),
        sends_within(other, other_from, other_to, rank),
    ensures
        delivered_to(
            own.subrange(from, to),
            rank,
            other.subrange(other_from, other_to),
            source,
        ),
{
    let part = own.subrange(from, to);
    let other_part = other.subrange(other_from, other_to);
    assert(own =~= own.take(from) + part + own.skip(to));
    assert(other =~= other.take(other_from) + other_part + other.skip(other_to));
    assert forall|tag: u64| #![trigger inbound(part, source, tag)] inbound(
        part,
        source,
        tag,
    ).is_prefix_of(outbound(other_part, rank, tag)) by {
        lemma_inbound_parts(own.take(from) + part, own.skip(to), source, tag);
        lemma_inbound_parts(own.take(from), part, source, tag);
        lemma_no_inbound(own.take(from), source, tag);
        lemma_no_inbound(own.skip(to), source, tag);
        assert(inbound(own, source, tag) =~= inbound(part, source, tag));
        lemma_outbound_parts(other.take(other_from) + other_part, other.skip(other_to), rank, tag);
        lemma_outbound_parts(other.take(other_from), other_part, rank, tag);
        lemma_no_outbound(other.take(other_from), rank, tag);
        lemma_no_outbound(other.skip(other_to), rank, tag);
        assert(outbound(other, rank, tag) =~= outbound(other_part, rank, tag));
        assert(inbound(own, source, tag).is_prefix_of(outbound(other, rank, tag)));
    }
}

/// One exchange of a rank with its neighbours: where it sends, from where it
/// receives, and under which tag.
pub struct Hop {
    pub destination: u32,
    pub source: u32,
    pub tag: u64,
}

/// Two events are a send and a receive of a hop.
pub open spec fn hop_taken(hop: Hop, first: TransportEvent, second: TransportEvent) -> bool {
    &&& sends_to(first.call, hop.destination, hop.tag)
    &&& receives_from(second.call, hop.source, hop.tag)
    &&& second.reply.frame() is Ok
}

/// Events are the hops, one after the other.
pub open spec fn took(events: Seq<TransportEvent>, hops: Seq<Hop>) -> bool {
    &&& events.len() == 2 * hops.len()
    &&& forall|j: int|
        #![trigger hops[j]]
        0 <= j < hops.len() ==> hop_taken(hops[j], events[2 * j], events[2 * j + 1])
}

pub proof fn lemma_took_parts(
    first: Seq<TransportEvent>,
    one: Seq<Hop>,
    second: Seq<TransportEvent>,
    other: Seq<Hop>,
)
    requires
        took(first, one),
        took(second, other),
    ensures
        took(first + second, one + other),
{
    let events = first + second;
    let hops = one + other;
    assert forall|j: int| #![trigger hops[j]] 0 <= j < hops.len() implies hop_taken(
        hops[j],
        events[2 * j],
        events[2 * j + 1],
    ) by {
        if j < one.len() {
            assert(hops[j] == one[j]);
        } else {
            let i = j - one.len();
            assert(hops[j] == other[i]);
            assert(events[2 * j] == second[2 * i]);
            assert(events[2 * j + 1] == second[2 * i + 1]);
        }
    }
}

/// How many of the first hops send to a rank under a tag.
pub open spec fn sent_before(hops: Seq<Hop>, count: int, rank: u32, tag: u64) -> int
    decreases count,
{
    if count <= 0 {
        0
    } else {
        sent_before(hops, count - 1, rank, tag) + (if hops[count - 1].destination == rank
            && hops[count - 1].tag == tag {
            1int
        } else {
            0
        })
    }
}

/// How many of the first hops receive from a rank under a tag.
pub open spec fn received_before(hops: Seq<Hop>, count: int, rank: u32, tag: u64) -> int
    decreases count,
{
    if count <= 0 {
        0
    } else {
        received_before(hops, count - 1, rank, tag) + (if hops[count - 1].source == rank
            && hops[count - 1].tag == tag {
            1int
        } else {
            0
        })
    }
}

/// A hop's send stands among all sends to its rank under its tag by the number of
/// those before it.
proof fn lemma_outbound_at(
    events: Seq<TransportEvent>,
    hops: Seq<Hop>,
    count: int,
    place: int,
    rank: u32,
    tag: u64,
)
    requires
        took(events, hops),
        0 <= count <= hops.len(),
    ensures
        outbound(events.take(2 * count), rank, tag).len() == sent_before(hops, count, rank, tag),
        0 <= place < count && hops[place].destination == rank && hops[place].tag == tag ==> {
            let before = sent_before(hops, place, rank, tag);
            &&& 0 <= before < outbound(events.take(2 * count), rank, tag).len()
            &&& outbound(events.take(2 * count), rank, tag)[before] == sent(
                events[2 * place].call,
            )
        },
    decreases count,
{
    let now = events.take(2 * count);
    if count == 0 {
        assert(now =~= Seq::empty());
    } else {
        let j = count - 1;
        let earlier = events.take(2 * j);
        lemma_outbound_at(events, hops, j, place, rank, tag);
        assert(hop_taken(hops[j], events[2 * j], events[2 * j + 1]));
        assert(now.drop_last() =~= events.take(2 * j + 1));
        assert(events.take(2 * j + 1).drop_last() =~= earlier);
        assert(now.last() == events[2 * j + 1]);
        assert(events.take(2 * j + 1).last() == events[2 * j]);
        assert(outbound(now, rank, tag) == outbound(events.take(2 * j + 1), rank, tag));
    }
}

proof fn lemma_inbound_at(
    events: Seq<TransportEvent>,
    hops: Seq<Hop>,
    count: int,
    place: int,
    rank: u32,
    tag: u64,
)
    requires
        took(events, hops),
        0 <= count <= hops.len(),
    ensures
        inbound(events.take(2 * count), rank, tag).len() == received_before(
            hops,
            count,
            rank,
            tag,
        ),
        0 <= place < count && hops[place].source == rank && hops[place].tag == tag ==> {
            let before = received_before(hops, place, rank, tag);
            &&& 0 <= before < inbound(events.take(2 * count), rank, tag).len()
            &&& inbound(events.take(2 * count), rank, tag)[before] == got(events[2 * place + 1])
        },
    decreases count,
{
    let now = events.take(2 * count);
    if count == 0 {
        assert(now =~= Seq::empty());
    } else {
        let j = count - 1;
        let earlier = events.take(2 * j);
        lemma_inbound_at(events, hops, j, place, rank, tag);
        assert(hop_taken(hops[j], events[2 * j], events[2 * j + 1]));
        assert(now.drop_last() =~= events.take(2 * j + 1));
        assert(events.take(2 * j + 1).drop_last() =~= earlier);
        assert(now.last() == events[2 * j + 1]);
        assert(events.take(2 * j + 1).last() == events[2 * j]);
        assert(inbound(events.take(2 * j + 1), rank, tag) == inbound(earlier, rank, tag));
    }
}

/// Two ranks' hops fit: in every hop the one receives from the other exactly where
/// that one sends to it, and under the same tag.
pub open spec fn facing(own: Seq<Hop>, rank: u32, other: Seq<Hop>, source: u32) -> bool {
    &&& own.len() == other.len()
    &&& forall|j: int|
        #![trigger own[j]]
        0 <= j < own.len() ==> {
            &&& own[j].source == source <==> other[j].destination == rank
            &&& own[j].source == source ==> own[j].tag == other[j].tag
        }
}

/// Hops that fit, one after the other.
pub proof fn lemma_facing_parts(
    own: Seq<Hop>,
    own_rest: Seq<Hop>,
    rank: u32,
    other: Seq<Hop>,
    other_rest: Seq<Hop>,
    source: u32,
)
    requires
        facing(own, rank, other, source),
        facing(own_rest, rank, other_rest, source),
    ensures
        facing(own + own_rest, rank, other + other_rest, source),
{
    let one = own + own_rest;
    let two = other + other_rest;
    assert forall|j: int| #![trigger one[j]] 0 <= j < one.len() implies {
        &&& one[j].source == source <==> two[j].destination == rank
        &&& one[j].source == source ==> one[j].tag == two[j].tag
    } by {
        if j < own.len() {
            assert(one[j] == own[j]);
        } else {
            assert(one[j] == own_rest[j - own.len()]);
        }
    }
}

/// The hops of the channels from one on, one channel after the other.
pub open spec fn hops_from(hops: spec_fn(int) -> Seq<Hop>, from: int, count: int) -> Seq<Hop>
    decreases count - from,
{
    if from >= count {
        Seq::empty()
    } else {
        hops(from) + hops_from(hops, from + 1, count)
    }
}

pub proof fn lemma_facing_channels(
    own: spec_fn(int) -> Seq<Hop>,
    rank: u32,
    other: spec_fn(int) -> Seq<Hop>,
    source: u32,
    from: int,
    count: int,
)
    requires
        forall|c: int| from <= c < count ==> facing(#[trigger] own(c), rank, other(c), source),
    ensures
        facing(hops_from(own, from, count), rank, hops_from(other, from, count), source),
    decreases count - from,
{
    if from < count {
        lemma_facing_channels(own, rank, other, source, from + 1, count);
        lemma_facing_parts(
            own(from),
            hops_from(own, from + 1, count),
            rank,
            other(from),
            hops_from(other, from + 1, count),
            source,
        );
    }
}

/// Every run of a channel to its end takes the channel's hops.
#[verifier::opaque]
pub open spec fn hops_for_each<T, E>(
    channel: spec_fn(int, Seq<T>) -> Script<Tally<T>, E>,
    hops: spec_fn(int) -> Seq<Hop>,
) -> bool {
    forall|c: int, v: Seq<T>, events: Seq<TransportEvent>, tally: Tally<T>| #[trigger]
        ran(channel(c, v), events, tally) ==> took(events, hops(c))
}

/// Channels that run to the end take their hops one after the other.
pub proof fn lemma_channels_took<T, E>(
    channel: spec_fn(int, Seq<T>) -> Script<Tally<T>, E>,
    hops: spec_fn(int) -> Seq<Hop>,
    from: int,
    count: int,
    values: Seq<T>,
    totals: Seq<(int, int)>,
    trace: Seq<TransportEvent>,
    last: (Seq<T>, Seq<(int, int)>),
)
    requires
        ran(channels_script(channel, from, count, values, totals), trace, last),
        hops_for_each(channel, hops),
    ensures
        took(trace, hops_from(hops, from, count)),
    decreases count - from,
{
    if from >= count {
        lemma_over::<(Seq<T>, Seq<(int, int)>), E>(Ok((values, totals)), trace);
    } else {
        let onward = channels_next(channel, from, count, totals);
        let (k, tally) = lemma_ran_tried(channel(from, values), true, onward, trace, last);
        assert(took(trace.take(k), hops(from))) by {
            reveal(hops_for_each);
        }
        lemma_channels_took(
            channel,
            hops,
            from + 1,
            count,
            tally.values,
            totals.push((tally.bytes, tally.launches)),
            trace.skip(k),
            last,
        );
        lemma_took_parts(
            trace.take(k),
            hops(from),
            trace.skip(k),
            hops_from(hops, from + 1, count),
        );
        assert(trace.take(k) + trace.skip(k) =~= trace);
    }
}

proof fn lemma_same_count(
    own: Seq<Hop>,
    rank: u32,
    other: Seq<Hop>,
    source: u32,
    count: int,
    tag: u64,
)
    requires
        facing(own, rank, other, source),
        0 <= count <= own.len(),
    ensures
        received_before(own, count, source, tag) == sent_before(other, count, rank, tag),
    decreases count,
{
    if count > 0 {
        lemma_same_count(own, rank, other, source, count - 1, tag);
        assert(own[count - 1].source == source <==> other[count - 1].destination == rank);
    }
}

/// What a rank receives in a hop is what the other sent in the same hop.
pub proof fn lemma_hop_met(
    own: Seq<TransportEvent>,
    own_hops: Seq<Hop>,
    rank: u32,
    other: Seq<TransportEvent>,
    other_hops: Seq<Hop>,
    source: u32,
    place: int,
)
    requires
        took(own, own_hops),
        took(other, other_hops),
        facing(own_hops, rank, other_hops, source),
        delivered_to(own, rank, other, source),
        0 <= place < own_hops.len(),
        own_hops[place].source == source,
    ensures
        got(own[2 * place + 1]) == sent(other[2 * place].call),
{
    let tag = own_hops[place].tag;
    let count = own_hops.len() as int;
    lemma_same_count(own_hops, rank, other_hops, source, place, tag);
    lemma_inbound_at(own, own_hops, count, place, source, tag);
    lemma_outbound_at(other, other_hops, count, place, rank, tag);
    assert(own.take(2 * count) =~= own);
    assert(other.take(2 * count) =~= other);
    let before = received_before(own_hops, place, source, tag);
    let arrived = inbound(own, source, tag);
    assert(arrived.is_prefix_of(outbound(other, rank, tag)));
    assert(arrived[before] == outbound(other, rank, tag)[before]);
}

} // verus!

//! What the ranks of a world end up with from a hierarchical all-gather.

use crate::math::saturate_usize;
use crate::rank::device::{lossless, RankDevice};
use crate::rank::device_collective::delivery::{
    addresses, awaits, hop_taken, hops_from, in_order_delivery, lemma_took_parts, receives_from,
    sends_to, took, Hop,
};
use crate::rank::device_collective::hierarchical::all_gather::{
    all_gather_hierarchical_script, all_gather_hierarchy_agreed, assembled, bundle_next,
    bundle_script, gather_bundled, gather_bytes_label, gather_channels, gather_merged, gather_next,
    gather_ringed, leader_all_gather_script, merged, own_piece, piece_next, piece_script,
    GatherChannel,
};
use crate::rank::device_collective::hierarchical::all_reduce::{leader_shared, same_payload};
use crate::rank::device_collective::hierarchical::costs::{
    hierarchical_cost, lemma_all_gather_cost,
};
use crate::rank::device_collective::hierarchical::laws::{
    beside, between_leaders, leader_after, leader_before, led, lemma_beside_channels,
    lemma_calls_beside, lemma_leaders_handed_on, lemma_member_ran, lemma_receive_ran,
    lemma_sent_down, lemma_sent_up, lemma_share_ran, lemma_world_groups, served, tiered,
};
use crate::rank::device_collective::hierarchical::{
    data_tag, group_of, receive_script, share_script,
};
use crate::rank::device_collective::laws::{
    faithful, got, handed, handed_on, lemma_agreed, lemma_later_part, lemma_part_handed_on,
    lemma_rest_handed_on, one_world, part_of, rest_of, sent,
};
use crate::rank::device_collective::pairwise_laws::lemma_host_payload_ran;
use crate::rank::device_collective::{effective_channels, exactly, CollectiveModel};
use crate::rank::hash::fnv;
use crate::rank::host::exchange::host_payload_script;
use crate::rank::layout::{balanced_start, laid_out, law_balanced_partition};
use crate::rank::rounds::{hops, incoming, lemma_incoming, lemma_reached_place};
use crate::rank::script::{
    bad_reply, lemma_over, lemma_ran_tried, ran, too_large, Failure, Stop, TransportEvent,
};
use crate::rank::stats::CollectiveStats;
use crate::rank::tags::agreement_bytes;
use crate::rank::topology::cycles::heads;
use crate::rank::topology::groups::{grouped, is_hierarchy};
use vstd::arithmetic::div_mod::*;
use vstd::prelude::*;

verus! {

/// The inputs of a group's members from one on, one after the other.
pub open spec fn bundle_from<T>(inputs: Seq<Seq<T>>, group: Seq<u32>, index: int) -> Seq<T>
    decreases group.len() - index,
{
    if index >= group.len() {
        Seq::empty()
    } else {
        inputs[group[index] as int] + bundle_from(inputs, group, index + 1)
    }
}

/// A member's input in its group's bundle.
proof fn lemma_bundle_row<T>(
    inputs: Seq<Seq<T>>,
    group: Seq<u32>,
    index: int,
    member: int,
    length: int,
)
    requires
        0 <= index <= member <= group.len(),
        forall|i: int|
            0 <= i < group.len() ==> inputs[(#[trigger] group[i]) as int].len() == length,
    ensures
        bundle_from(inputs, group, index).len() == (group.len() - index) * length,
        member < group.len() ==> {
            let start = (member - index) * length;
            &&& 0 <= start
            &&& start + length <= bundle_from(inputs, group, index).len()
            &&& bundle_from(inputs, group, index).subrange(start, start + length)
                == inputs[group[member] as int]
        },
    decreases group.len() - index,
{
    let all = bundle_from(inputs, group, index);
    if index == group.len() {
        assert(0 * length == 0) by (nonlinear_arith);
    } else {
        let first = inputs[group[index] as int];
        assert(first.len() == length);
        let rest = bundle_from(inputs, group, index + 1);
        let later = if member == index {
            index + 1
        } else {
            member
        };
        lemma_bundle_row(inputs, group, index + 1, later, length);
        let others = group.len() - index - 1;
        assert((others + 1) * length == others * length + length) by (nonlinear_arith);
        assert(0 <= others * length) by (nonlinear_arith)
            requires
                0 <= others,
                0 <= length,
        ;
        if member == index {
            assert(0 * length == 0) by (nonlinear_arith);
            assert(all.subrange(0, length) =~= first);
        } else if member < group.len() {
            let before = member - index - 1;
            assert((before + 1) * length == before * length + length) by (nonlinear_arith);
            let start = (member - index) * length;
            assert(start == before * length + length);
            assert(all.subrange(start, start + length) =~= rest.subrange(
                start - length,
                start,
            ));
        }
    }
}

/// The first member that a leader gathers from.
proof fn lemma_bundle_step<T, D: RankDevice<T>>(
    model: CollectiveModel,
    group: Seq<u32>,
    index: int,
    operation: u64,
    local: Seq<T>,
    bundle: Seq<T>,
    bytes: int,
    events: Seq<TransportEvent>,
    last: (Seq<T>, int),
) -> (total: int)
    requires
        0 <= index < group.len(),
        group[index] != group[0],
        ran(
            bundle_script::<T, D>(model, group, index, operation, local, bundle, bytes),
            events,
            last,
        ),
    ensures
        events.len() >= 1,
        receives_from(events[0].call, group[index], data_tag(operation, 4, group[index])),
        events[0].reply.frame() is Ok,
        ran(
            bundle_script::<T, D>(
                model,
                group,
                index + 1,
                operation,
                local,
                bundle + D::reading(got(events[0])),
                total,
            ),
            events.skip(1),
            last,
        ),
{
    let tag = data_tag(operation, 4, group[index]);
    let onward = bundle_next::<T, D>(model, group, index, operation, local, bundle, bytes);
    let (k, values) = lemma_ran_tried(
        receive_script::<T, D>(model, group[index], tag, local.len() as int),
        false,
        onward,
        events,
        last,
    );
    lemma_receive_ran::<T, D>(
        model,
        group[index],
        tag,
        local.len() as int,
        events.take(k),
        values,
    );
    assert(events.take(k)[0] == events[0]);
    let total = bytes + saturate_usize(values.len() * D::ELEMENT_SIZE);
    if total > usize::MAX {
        lemma_over::<(Seq<T>, int), D::Error>(
            Err(Stop { failure: too_large(gather_bytes_label()), in_channel: false }),
            events.skip(k),
        );
    }
    total
}

/// A leader gathers from each member in turn.
proof fn lemma_bundle_ran<T, D: RankDevice<T>>(
    model: CollectiveModel,
    group: Seq<u32>,
    index: int,
    operation: u64,
    local: Seq<T>,
    bundle: Seq<T>,
    bytes: int,
    events: Seq<TransportEvent>,
    last: (Seq<T>, int),
)
    requires
        1 <= index <= group.len(),
        forall|i: int| 1 <= i < group.len() ==> #[trigger] group[i] != group[0],
        ran(
            bundle_script::<T, D>(model, group, index, operation, local, bundle, bytes),
            events,
            last,
        ),
    ensures
        events.len() == group.len() - index,
        forall|k: int|
            #![trigger events[k]]
            0 <= k < events.len() ==> {
                &&& receives_from(
                    events[k].call,
                    group[index + k],
                    data_tag(operation, 4, group[index + k]),
                )
                &&& events[k].reply.frame() is Ok
            },
    decreases group.len() - index,
{
    if index == group.len() {
        lemma_over::<(Seq<T>, int), D::Error>(Ok((bundle, bytes)), events);
    } else {
        let total = lemma_bundle_step::<T, D>(
            model,
            group,
            index,
            operation,
            local,
            bundle,
            bytes,
            events,
            last,
        );
        lemma_bundle_ran::<T, D>(
            model,
            group,
            index + 1,
            operation,
            local,
            bundle + D::reading(got(events[0])),
            total,
            events.skip(1),
            last,
        );
        assert forall|k: int| #![trigger events[k]] 0 <= k < events.len() implies {
            &&& receives_from(
                events[k].call,
                group[index + k],
                data_tag(operation, 4, group[index + k]),
            )
            &&& events[k].reply.frame() is Ok
        } by {
            if k > 0 {
                assert(events.skip(1)[k - 1] == events[k]);
            }
        }
    }
}

/// What a leader has gathered where the members sent their inputs.
proof fn lemma_bundle_values<T, D: RankDevice<T>>(
    model: CollectiveModel,
    group: Seq<u32>,
    index: int,
    operation: u64,
    local: Seq<T>,
    bundle: Seq<T>,
    bytes: int,
    events: Seq<TransportEvent>,
    last: (Seq<T>, int),
    inputs: Seq<Seq<T>>,
)
    requires
        faithful::<T, D>(),
        1 <= index <= group.len(),
        events.len() == group.len() - index,
        forall|i: int| 1 <= i < group.len() ==> #[trigger] group[i] != group[0],
        ran(
            bundle_script::<T, D>(model, group, index, operation, local, bundle, bytes),
            events,
            last,
        ),
        forall|k: int|
            #![trigger events[k]]
            0 <= k < group.len() - index ==> got(events[k]) == D::encoding(
                inputs[group[index + k] as int],
            ),
    ensures
        last.0 == bundle + bundle_from(inputs, group, index),
    decreases group.len() - index,
{
    if index == group.len() {
        lemma_over::<(Seq<T>, int), D::Error>(Ok((bundle, bytes)), events);
        assert(bundle + Seq::<T>::empty() =~= bundle);
    } else {
        let total = lemma_bundle_step::<T, D>(
            model,
            group,
            index,
            operation,
            local,
            bundle,
            bytes,
            events,
            last,
        );
        let own = inputs[group[index] as int];
        assert(got(events[0]) == D::encoding(own));
        assert(lossless::<T, D>(own));
        let rest = events.skip(1);
        assert forall|k: int| #![trigger rest[k]] 0 <= k < group.len() - index - 1 implies got(
            rest[k],
        ) == D::encoding(inputs[group[index + 1 + k] as int]) by {
            assert(rest[k] == events[k + 1]);
        }
        lemma_bundle_values::<T, D>(
            model,
            group,
            index + 1,
            operation,
            local,
            bundle + own,
            total,
            rest,
            last,
            inputs,
        );
        assert(bundle + own + bundle_from(inputs, group, index + 1) =~= bundle + bundle_from(
            inputs,
            group,
            index,
        ));
    }
}

/// A step of a channel of the leaders' all-gather.
proof fn lemma_piece_step<T, D: RankDevice<T>>(
    at: GatherChannel,
    step: int,
    pieces: Seq<Option<Seq<T>>>,
    bytes: int,
    events: Seq<TransportEvent>,
    last: (Seq<Option<Seq<T>>>, int),
) -> (total: int)
    requires
        0 <= step < at.count() - 1,
        ran(piece_script::<T, D>(at, step, pieces, bytes), events, last),
    ensures
        events.len() >= 2,
        sent(events[0].call) == D::encoding(pieces[at.sends(step)]->Some_0),
        hop_taken(piece_hop(at, step), events[0], events[1]),
        ran(
            piece_script::<T, D>(
                at,
                step + 1,
                pieces.update(at.receives(step), Some(D::reading(got(events[1])))),
                total,
            ),
            events.skip(2),
            last,
        ),
{
    let payload = D::encoding(pieces[at.sends(step)]->Some_0);
    let receive = at.receives(step);
    let script = piece_script::<T, D>(at, step, pieces, bytes);
    if script is Done {
        lemma_over(script->Done_0, events);
    }
    let exchange = host_payload_script::<D::Error>(
        at.model.rails,
        at.model.element_type,
        payload,
        at.piece(receive) * D::ELEMENT_SIZE,
        at.leaders[(at.position + 1) % at.count()],
        at.leaders[(at.position - 1) % at.count()],
        at.channel as int,
        at.tag(step),
    );
    let onward = piece_next::<T, D>(at, step, pieces, bytes);
    if at.bundle(receive) > usize::MAX {
        lemma_over::<(Seq<Option<Seq<T>>>, int), D::Error>(
            Err(
                Stop {
                    failure: too_large("hierarchical all-gather leader bundle length"@),
                    in_channel: false,
                },
            ),
            events,
        );
    } else if at.piece(receive) * D::ELEMENT_SIZE > usize::MAX {
        lemma_over::<(Seq<Option<Seq<T>>>, int), D::Error>(
            Err(
                Stop {
                    failure: too_large("hierarchical all-gather leader bundle bytes"@),
                    in_channel: false,
                },
            ),
            events,
        );
    }
    let (k, received) = lemma_ran_tried(exchange, false, onward, events, last);
    lemma_host_payload_ran::<D::Error>(
        at.model.rails,
        at.model.element_type,
        payload,
        at.piece(receive) * D::ELEMENT_SIZE,
        at.leaders[(at.position + 1) % at.count()],
        at.leaders[(at.position - 1) % at.count()],
        at.channel as int,
        at.tag(step),
        events.take(k),
        received,
    );
    assert(events.take(k)[0] == events[0]);
    assert(events.take(k)[1] == events[1]);
    let total = bytes + saturate_usize((payload.len() + received.len()) as int);
    let after = onward(received);
    if total > usize::MAX {
        lemma_over(after->Done_0, events.skip(k));
    } else {
        match exactly::<T, D>(received, at.piece(receive)) {
            Err(failure) => {
                lemma_over(after->Done_0, events.skip(k));
            },
            Ok(values) => {},
        }
    }
    total
}

/// The hop of a step.
pub open spec fn piece_hop(at: GatherChannel, step: int) -> Hop {
    Hop {
        destination: at.leaders[(at.position + 1) % at.count()],
        source: at.leaders[(at.position - 1) % at.count()],
        tag: at.tag(step),
    }
}

/// The hops of a channel from a step on.
pub open spec fn piece_hops(at: GatherChannel, step: int) -> Seq<Hop> {
    Seq::new((at.count() - 1 - step) as nat, |j: int| piece_hop(at, step + j))
}

/// A channel that runs to the end takes its hops.
proof fn lemma_piece_ran<T, D: RankDevice<T>>(
    at: GatherChannel,
    step: int,
    pieces: Seq<Option<Seq<T>>>,
    bytes: int,
    events: Seq<TransportEvent>,
    last: (Seq<Option<Seq<T>>>, int),
)
    requires
        0 <= step <= at.count() - 1,
        ran(piece_script::<T, D>(at, step, pieces, bytes), events, last),
    ensures
        events.len() == 2 * (at.count() - 1 - step),
        took(events, piece_hops(at, step)),
        step == at.count() - 1 ==> last.0 == pieces,
    decreases at.count() - step,
{
    if step == at.count() - 1 {
        lemma_over::<(Seq<Option<Seq<T>>>, int), D::Error>(Ok((pieces, bytes)), events);
    } else {
        let total = lemma_piece_step::<T, D>(at, step, pieces, bytes, events, last);
        lemma_piece_ran::<T, D>(
            at,
            step + 1,
            pieces.update(at.receives(step), Some(D::reading(got(events[1])))),
            total,
            events.skip(2),
            last,
        );
        let one = seq![piece_hop(at, step)];
        assert(took(events.take(2), one));
        lemma_took_parts(events.take(2), one, events.skip(2), piece_hops(at, step + 1));
        assert(events.take(2) + events.skip(2) =~= events);
        assert(one + piece_hops(at, step + 1) =~= piece_hops(at, step));
    }
}

/// A leader has the pieces that have come to it by a step.
pub open spec fn has_come<T>(
    parts: Seq<Seq<T>>,
    place: int,
    step: int,
    pieces: Seq<Option<Seq<T>>>,
) -> bool {
    &&& pieces.len() == parts.len()
    &&& forall|g: int|
        0 <= g < parts.len() && hops(place, g, 0, parts.len() as int) <= step ==> (
        #[trigger] pieces[g]) == Some(parts[g])
}

/// A channel runs on after a step to its end.
spec fn goes_on<T, D: RankDevice<T>>(
    at: GatherChannel,
    step: int,
    pieces: Seq<Option<Seq<T>>>,
    bytes: int,
    events: Seq<TransportEvent>,
    last: (Seq<Option<Seq<T>>>, int),
) -> bool {
    ran(piece_script::<T, D>(at, step + 1, pieces, bytes), events, last)
}

/// The pieces travel round the leaders: at the end every leader has every piece.
proof fn lemma_pieces<T, D: RankDevice<T>>(
    ats: Seq<GatherChannel>,
    parts: Seq<Seq<T>>,
    step: int,
    pieces: Seq<Seq<Option<Seq<T>>>>,
    bytes: Seq<int>,
    traces: Seq<Seq<TransportEvent>>,
    finals: Seq<(Seq<Option<Seq<T>>>, int)>,
)
    requires
        faithful::<T, D>(),
        0 < parts.len(),
        ats.len() == parts.len(),
        pieces.len() == parts.len(),
        bytes.len() == parts.len(),
        traces.len() == parts.len(),
        finals.len() == parts.len(),
        0 <= step <= parts.len() - 1,
        handed_on(traces),
        forall|p: int|
            #![trigger ats[p]]
            0 <= p < parts.len() ==> ats[p].position == p && ats[p].count() == parts.len(),
        forall|p: int|
            #![trigger finals[p]]
            0 <= p < parts.len() ==> ran(
                piece_script::<T, D>(ats[p], step, pieces[p], bytes[p]),
                traces[p],
                finals[p],
            ),
        forall|p: int| 0 <= p < parts.len() ==> has_come(parts, p, step, #[trigger] pieces[p]),
    ensures
        forall|p: int|
            0 <= p < parts.len() ==> has_come(
                parts,
                p,
                parts.len() - 1,
                (#[trigger] finals[p]).0,
            ),
    decreases parts.len() - step,
{
    let places = parts.len() as int;
    assert forall|p: int| 0 <= p < places implies (#[trigger] traces[p]).len() == 2 * (places - 1
        - step) && (step == places - 1 ==> finals[p].0 == pieces[p]) by {
        assert(ats[p].position == p);
        lemma_piece_ran::<T, D>(ats[p], step, pieces[p], bytes[p], traces[p], finals[p]);
    }
    if step == places - 1 {
        assert forall|p: int| 0 <= p < places implies has_come(
            parts,
            p,
            places - 1,
            (#[trigger] finals[p]).0,
        ) by {
            assert(traces[p].len() == 0);
            assert(has_come(parts, p, step, pieces[p]));
        }
    } else {
        let rests = rest_of(traces, 2);
        lemma_rest_handed_on(traces, 2);
        let nexts = Seq::new(
            places as nat,
            |p: int|
                pieces[p].update(ats[p].receives(step), Some(D::reading(got(traces[p][1])))),
        );
        let totals = Seq::new(
            places as nat,
            |p: int|
                choose|total: int|
                    goes_on::<T, D>(ats[p], step, nexts[p], total, rests[p], finals[p]),
        );
        assert forall|p: int| #![trigger finals[p]] 0 <= p < places implies ran(
            piece_script::<T, D>(ats[p], step + 1, nexts[p], totals[p]),
            rests[p],
            finals[p],
        ) by {
            assert(ats[p].position == p);
            let total = lemma_piece_step::<T, D>(
                ats[p],
                step,
                pieces[p],
                bytes[p],
                traces[p],
                finals[p],
            );
            assert(goes_on::<T, D>(ats[p], step, nexts[p], total, rests[p], finals[p]));
        }
        assert forall|p: int| 0 <= p < places implies has_come(
            parts,
            p,
            step + 1,
            #[trigger] nexts[p],
        ) by {
            lemma_piece_arrived::<T, D>(ats, parts, step, pieces, bytes, traces, finals, p);
        }
        lemma_pieces::<T, D>(ats, parts, step + 1, nexts, totals, rests, finals);
    }
}

/// What a leader has after one more step.
proof fn lemma_piece_arrived<T, D: RankDevice<T>>(
    ats: Seq<GatherChannel>,
    parts: Seq<Seq<T>>,
    step: int,
    pieces: Seq<Seq<Option<Seq<T>>>>,
    bytes: Seq<int>,
    traces: Seq<Seq<TransportEvent>>,
    finals: Seq<(Seq<Option<Seq<T>>>, int)>,
    place: int,
)
    requires
        faithful::<T, D>(),
        ats.len() == parts.len(),
        pieces.len() == parts.len(),
        bytes.len() == parts.len(),
        traces.len() == parts.len(),
        finals.len() == parts.len(),
        0 <= step < parts.len() - 1,
        0 <= place < parts.len(),
        handed_on(traces),
        forall|p: int|
            #![trigger ats[p]]
            0 <= p < parts.len() ==> ats[p].position == p && ats[p].count() == parts.len(),
        forall|p: int|
            #![trigger finals[p]]
            0 <= p < parts.len() ==> ran(
                piece_script::<T, D>(ats[p], step, pieces[p], bytes[p]),
                traces[p],
                finals[p],
            ),
        forall|p: int| 0 <= p < parts.len() ==> has_come(parts, p, step, #[trigger] pieces[p]),
    ensures
        has_come(
            parts,
            place,
            step + 1,
            pieces[place].update(
                ats[place].receives(step),
                Some(D::reading(got(traces[place][1]))),
            ),
        ),
{
    let places = parts.len() as int;
    let before = (place - 1) % places;
    lemma_mod_bound(place - 1, places);
    assert(ats[place].position == place && ats[before].position == before);
    let receive = ats[place].receives(step);
    let one = lemma_piece_step::<T, D>(
        ats[place],
        step,
        pieces[place],
        bytes[place],
        traces[place],
        finals[place],
    );
    let other = lemma_piece_step::<T, D>(
        ats[before],
        step,
        pieces[before],
        bytes[before],
        traces[before],
        finals[before],
    );
    assert(handed(traces, place, 1));
    lemma_incoming(place, receive, 0, step, places);
    assert(receive == incoming(place, 0, step, places));
    lemma_add_mod_noop_right(-step, place - 1, places);
    assert(ats[before].sends(step) == receive);
    assert(has_come(parts, before, step, pieces[before]));
    assert(has_come(parts, place, step, pieces[place]));
    assert(pieces[before][receive] == Some(parts[receive]));
    assert(got(traces[place][1]) == D::encoding(parts[receive]));
    assert(lossless::<T, D>(parts[receive]));
    let next = pieces[place].update(receive, Some(D::reading(got(traces[place][1]))));
    assert forall|g: int|
        0 <= g < places && hops(place, g, 0, places) <= step + 1 implies (#[trigger] next[g])
        == Some(parts[g]) by {
        lemma_incoming(place, g, 0, step, places);
        if g != receive {
            assert(hops(place, g, 0, places) <= step);
        }
    }
}

/// A channel of a leader.
pub open spec fn at_channel(at: GatherChannel, channel: int) -> GatherChannel {
    GatherChannel { channel: channel as usize, ..at }
}

/// The hops of a leader in the channels.
pub open spec fn gather_hops(at: GatherChannel) -> spec_fn(int) -> Seq<Hop> {
    |channel: int| piece_hops(at_channel(at, channel), 0)
}

/// The channels of a leader from one on ran one after the other.
pub open spec fn gathers_ran<T, D: RankDevice<T>>(
    at: GatherChannel,
    bundle: Seq<T>,
    from: int,
    trace: Seq<TransportEvent>,
    runs: Seq<(Seq<Option<Seq<T>>>, int)>,
) -> bool {
    let step = 2 * (at.count() - 1);
    &&& runs.len() == at.channels - from
    &&& trace.len() == (at.channels - from) * step
    &&& forall|k: int|
        #![trigger runs[k]]
        0 <= k < runs.len() ==> ran(
            piece_script::<T, D>(
                at_channel(at, from + k),
                0,
                own_piece(bundle, at_channel(at, from + k)),
                0,
            ),
            trace.subrange(k * step, k * step + step),
            runs[k],
        )
}

proof fn lemma_gathers_ran<T, D: RankDevice<T>>(
    at: GatherChannel,
    bundle: Seq<T>,
    from: int,
    before: Seq<(Seq<Option<Seq<T>>>, int)>,
    trace: Seq<TransportEvent>,
    last: Seq<(Seq<Option<Seq<T>>>, int)>,
) -> (runs: Seq<(Seq<Option<Seq<T>>>, int)>)
    requires
        0 < at.count(),
        0 <= from <= at.channels,
        ran(gather_channels::<T, D>(at, bundle, from, before), trace, last),
    ensures
        last == before + runs,
        gathers_ran::<T, D>(at, bundle, from, trace, runs),
        took(trace, hops_from(gather_hops(at), from, at.channels)),
    decreases at.channels - from,
{
    let step = 2 * (at.count() - 1);
    if from == at.channels {
        lemma_over::<Seq<(Seq<Option<Seq<T>>>, int)>, D::Error>(Ok(before), trace);
        assert(0 * step == 0) by (nonlinear_arith);
        assert(before + Seq::<(Seq<Option<Seq<T>>>, int)>::empty() =~= before);
        Seq::empty()
    } else {
        let now = at_channel(at, from);
        let first = piece_script::<T, D>(now, 0, own_piece(bundle, now), 0);
        let onward = gather_next::<T, D>(at, bundle, from, before);
        let (k, run) = lemma_ran_tried(first, true, onward, trace, last);
        lemma_piece_ran::<T, D>(now, 0, own_piece(bundle, now), 0, trace.take(k), run);
        let rest = lemma_gathers_ran::<T, D>(
            at,
            bundle,
            from + 1,
            before.push(run),
            trace.skip(k),
            last,
        );
        lemma_took_parts(
            trace.take(k),
            piece_hops(now, 0),
            trace.skip(k),
            hops_from(gather_hops(at), from + 1, at.channels),
        );
        assert(trace.take(k) + trace.skip(k) =~= trace);
        let runs = seq![run] + rest;
        assert(before.push(run) + rest =~= before + runs);
        let parts = at.channels - from;
        assert(parts * step == (parts - 1) * step + step) by (nonlinear_arith);
        assert forall|j: int| #![trigger runs[j]] 0 <= j < runs.len() implies ran(
            piece_script::<T, D>(
                at_channel(at, from + j),
                0,
                own_piece(bundle, at_channel(at, from + j)),
                0,
            ),
            trace.subrange(j * step, j * step + step),
            runs[j],
        ) by {
            if j == 0 {
                assert(0 * step == 0) by (nonlinear_arith);
                assert(trace.subrange(0, step) =~= trace.take(step));
            } else {
                assert(runs[j] == rest[j - 1]);
                lemma_later_part(trace, step, j, parts);
                assert(from + 1 + (j - 1) == from + j);
            }
        }
        runs
    }
}

/// A channel's part of a group's bundle.
pub open spec fn bundle_part<T>(bundle: Seq<T>, channels: int, channel: int) -> Seq<T> {
    bundle.subrange(
        balanced_start(bundle.len() as int, channels, channel),
        balanced_start(bundle.len() as int, channels, channel + 1),
    )
}

/// The pieces of the channels put together are the bundles.
proof fn lemma_merged<T, E>(
    runs: Seq<(Seq<Option<Seq<T>>>, int)>,
    bundles: Seq<Seq<T>>,
    channels: int,
)
    requires
        0 < channels,
        runs.len() <= channels,
        forall|c: int, g: int|
            #![trigger runs[c].0[g]]
            0 <= c < runs.len() && 0 <= g < bundles.len() ==> runs[c].0[g] == Some(
                bundle_part(bundles[g], channels, c),
            ),
    ensures
        merged::<T, E>(runs, bundles.len() as int) matches Ok(all) ==> {
            &&& all.0.len() == bundles.len()
            &&& forall|g: int|
                #![trigger all.0[g]]
                0 <= g < bundles.len() ==> all.0[g] == bundles[g].take(
                    balanced_start(bundles[g].len() as int, channels, runs.len() as int),
                )
        },
    decreases runs.len(),
{
    let count = bundles.len() as int;
    if let Ok(all) = merged::<T, E>(runs, count) {
        if runs.len() == 0 {
            assert forall|g: int| #![trigger all.0[g]] 0 <= g < count implies all.0[g]
                == bundles[g].take(balanced_start(bundles[g].len() as int, channels, 0)) by {
                law_balanced_partition(bundles[g].len() as int, channels, 0);
                assert(bundles[g].take(0) =~= Seq::empty());
            }
        } else {
            let last = runs.len() - 1;
            let head = runs.drop_last();
            assert forall|c: int, g: int|
                #![trigger head[c].0[g]]
                0 <= c < head.len() && 0 <= g < count implies head[c].0[g] == Some(
                bundle_part(bundles[g], channels, c),
            ) by {
                assert(head[c].0[g] == runs[c].0[g]);
            }
            lemma_merged::<T, E>(head, bundles, channels);
            let before = merged::<T, E>(head, count)->Ok_0;
            assert forall|g: int| #![trigger all.0[g]] 0 <= g < count implies all.0[g]
                == bundles[g].take(
                balanced_start(bundles[g].len() as int, channels, runs.len() as int),
            ) by {
                law_balanced_partition(bundles[g].len() as int, channels, last);
                assert(runs[last].0[g] == Some(bundle_part(bundles[g], channels, last)));
                assert(before.0[g] == bundles[g].take(
                    balanced_start(bundles[g].len() as int, channels, last),
                ));
                assert(all.0[g] == before.0[g] + bundle_part(bundles[g], channels, last));
                assert(all.0[g] =~= bundles[g].take(
                    balanced_start(bundles[g].len() as int, channels, runs.len() as int),
                ));
            }
        }
    }
}

/// Out of the groups' bundles the ranks' inputs are taken in rank order.
proof fn lemma_assembled<T>(
    groups: Seq<Seq<u32>>,
    inputs: Seq<Seq<T>>,
    bundles: Seq<Seq<T>>,
    length: int,
    ranks: int,
)
    requires
        inputs.len() <= u32::MAX,
        is_hierarchy(inputs.len() as u32, groups),
        bundles.len() == groups.len(),
        0 <= ranks <= inputs.len(),
        forall|r: int| 0 <= r < inputs.len() ==> (#[trigger] inputs[r]).len() == length,
        forall|g: int|
            0 <= g < groups.len() ==> (#[trigger] bundles[g]) == bundle_from(
                inputs,
                groups[g],
                0,
            ),
    ensures
        assembled(groups, bundles, length, ranks) == laid_out(inputs.take(ranks)),
    decreases ranks,
{
    if ranks == 0 {
        assert(inputs.take(0) =~= Seq::empty());
    } else {
        let rank = ranks - 1;
        lemma_assembled(groups, inputs, bundles, length, rank);
        assert(inputs.take(ranks).drop_last() =~= inputs.take(rank));
        assert(grouped(groups, groups.len() as int, rank as u32));
        let g = group_of(groups, rank as u32);
        assert(groups[g].contains(rank as u32));
        let k = groups[g].index_of(rank as u32);
        assert(groups[g][k] == rank as u32);
        assert(bundles[g] == bundle_from(inputs, groups[g], 0));
        assert forall|i: int| 0 <= i < groups[g].len() implies inputs[(
        #[trigger] groups[g][i]) as int].len() == length by {
            assert(groups[g][i] < inputs.len());
        }
        lemma_bundle_row(inputs, groups[g], 0, k, length);
    }
}

/// A leader's part: its group's bundle, every group's, and where in its
/// conversation it starts to send to its members.
pub struct GatherRun<T> {
    pub bundle: (Seq<T>, int),
    pub bundles: (Seq<Seq<T>>, int),
    pub sharing: int,
}

/// A leader among the others.
pub open spec fn gather_place(
    model: CollectiveModel,
    group: int,
    length: int,
    operation: u64,
    ring_channels: int,
) -> GatherChannel {
    GatherChannel {
        model,
        groups: model.groups(),
        leaders: heads(model.groups()),
        position: group,
        length,
        operation,
        channel: 0,
        channels: effective_channels(ring_channels, length),
    }
}

/// A leader's part ran like this.
pub open spec fn gather_leads<T, D: RankDevice<T>>(
    model: CollectiveModel,
    group: int,
    input: Seq<T>,
    operation: u64,
    ring_channels: int,
    trace: Seq<TransportEvent>,
    result: (Seq<T>, CollectiveStats),
    run: GatherRun<T>,
) -> bool {
    let groups = model.groups();
    let own = groups[group];
    let count = own.len() as int;
    let length = input.len() as int;
    &&& count <= run.sharing
    &&& trace.len() == run.sharing + count - 1
    &&& trace[0].call is Exchange
    &&& ran(
        bundle_script::<T, D>(model, own, 1, operation, input, input, 0),
        trace.subrange(1, count),
        run.bundle,
    )
    &&& ran(
        leader_all_gather_script::<T, D>(
            gather_place(model, group, length, operation, ring_channels),
            run.bundle.0,
        ),
        trace.subrange(count, run.sharing),
        run.bundles,
    )
    &&& result.0 == assembled(groups, run.bundles.0, length, model.world())
    &&& forall|i: int|
        run.sharing <= i < trace.len() ==> sends_to(
            (#[trigger] trace[i]).call,
            own[i - run.sharing + 1],
            data_tag(operation, 6, own[i - run.sharing + 1]),
        ) && sent(trace[i].call) == D::encoding(result.0)
}

/// The end of a leader's part: it sends every member what it has put together.
proof fn lemma_output_shared<T, D: RankDevice<T>>(
    model: CollectiveModel,
    length: int,
    operation: u64,
    steps: int,
    bytes: int,
    ringed: (Seq<Seq<T>>, int),
    tail: Seq<TransportEvent>,
    result: (Seq<T>, CollectiveStats),
)
    requires
        0 < model.group().len(),
        ran(
            gather_ringed::<T, D>(model, length, operation, steps, bytes)(ringed),
            tail,
            result,
        ),
    ensures
        ({
            let own = model.group();
            &&& tail.len() == own.len() - 1
            &&& result.0 == assembled(model.groups(), ringed.0, length, model.world())
            &&& forall|k: int|
                #![trigger tail[k]]
                0 <= k < tail.len() ==> sends_to(
                    tail[k].call,
                    own[1 + k],
                    data_tag(operation, 6, own[1 + k]),
                ) && sent(tail[k].call) == D::encoding(result.0)
        }),
{
    let own = model.group();
    let output = assembled(model.groups(), ringed.0, length, model.world());
    if bytes + ringed.1 > usize::MAX {
        lemma_over::<(Seq<T>, CollectiveStats), D::Error>(
            Err(Stop { failure: too_large(gather_bytes_label()), in_channel: false }),
            tail,
        );
    } else if output.len() != length * model.world() {
        lemma_over::<(Seq<T>, CollectiveStats), D::Error>(
            Err(
                Stop {
                    failure: bad_reply(
                        "hierarchical all-gather assembled the wrong output length"@,
                    ),
                    in_channel: false,
                },
            ),
            tail,
        );
    }
    let payloads = same_payload(D::encoding(output));
    let shared = leader_shared::<T, D>(model, output, steps, 0);
    let (i, total) = lemma_ran_tried(
        share_script::<D::Error>(
            model,
            own,
            1,
            operation,
            6,
            output.len() as int,
            payloads,
            bytes + ringed.1,
            gather_bytes_label(),
        ),
        false,
        shared,
        tail,
        result,
    );
    lemma_over(shared(total)->Done_0, tail.skip(i));
    lemma_share_ran::<D::Error>(
        model,
        own,
        1,
        operation,
        6,
        output.len() as int,
        payloads,
        bytes + ringed.1,
        gather_bytes_label(),
        tail.take(i),
        total,
    );
    assert(tail.take(i) =~= tail);
}

proof fn lemma_gather_leads<T, D: RankDevice<T>>(
    model: CollectiveModel,
    group: int,
    input: Seq<T>,
    operation: u64,
    ring_channels: int,
    trace: Seq<TransportEvent>,
    result: (Seq<T>, CollectiveStats),
) -> (run: GatherRun<T>)
    requires
        model.membership_defect() is None,
        group_of(model.groups(), model.place.rank) == group,
        0 < model.groups()[group].len(),
        model.groups()[group][0] == model.place.rank,
        forall|i: int|
            1 <= i < model.groups()[group].len() ==> #[trigger] model.groups()[group][i]
                != model.groups()[group][0],
        ran(
            all_gather_hierarchical_script::<T, D>(model, input, operation, ring_channels),
            trace,
            result,
        ),
    ensures
        gather_leads::<T, D>(
            model,
            group,
            input,
            operation,
            ring_channels,
            trace,
            result,
            run,
        ),
{
    let groups = model.groups();
    let own = groups[group];
    let length = input.len() as int;
    let steps = model.hierarchy_steps(groups.len() - 1);
    lemma_agreed(
        fnv(
            agreement_bytes(
                operation,
                input.len() as u64,
                groups,
                0x700,
                ring_channels as u64,
                model.channel_rails(ring_channels),
            ),
        ),
        "invalid hierarchical collective agreement response"@,
        all_gather_hierarchy_agreed::<T, D>(model, input, operation, ring_channels),
        trace,
        result,
    );
    let rest = trace.skip(1);
    if input.len() * model.world() > usize::MAX {
        lemma_over::<(Seq<T>, CollectiveStats), D::Error>(
            Err(
                Stop {
                    failure: too_large("hierarchical all-gather output length"@),
                    in_channel: false,
                },
            ),
            rest,
        );
    } else if own.len() * input.len() > usize::MAX {
        lemma_over::<(Seq<T>, CollectiveStats), D::Error>(
            Err(
                Stop {
                    failure: too_large("hierarchical all-gather local bundle length"@),
                    in_channel: false,
                },
            ),
            rest,
        );
    }
    let gathering = bundle_script::<T, D>(model, own, 0, operation, input, Seq::empty(), 0);
    assert(Seq::<T>::empty() + input =~= input);
    assert(gathering == bundle_script::<T, D>(model, own, 1, operation, input, input, 0));
    let (k, bundle) = lemma_ran_tried(
        gathering,
        false,
        gather_bundled::<T, D>(model, length, operation, ring_channels, steps),
        rest,
        result,
    );
    assert(k == own.len() - 1) by {
        lemma_bundle_ran::<T, D>(
            model,
            own,
            1,
            operation,
            input,
            input,
            0,
            rest.take(k),
            bundle,
        );
    }
    let later = rest.skip(k);
    let (j, bundles) = lemma_ran_tried(
        leader_all_gather_script::<T, D>(
            gather_place(model, group, length, operation, ring_channels),
            bundle.0,
        ),
        false,
        gather_ringed::<T, D>(model, length, operation, steps, bundle.1),
        later,
        result,
    );
    let tail = later.skip(j);
    lemma_output_shared::<T, D>(
        model,
        length,
        operation,
        steps,
        bundle.1,
        bundles,
        tail,
        result,
    );
    let run = GatherRun { bundle, bundles, sharing: 1 + k + j };
    assert(trace.subrange(1, 1 + k) =~= rest.take(k));
    assert(trace.subrange(1 + k, run.sharing) =~= later.take(j));
    assert forall|n: int| run.sharing <= n < trace.len() implies sends_to(
        (#[trigger] trace[n]).call,
        own[n - run.sharing + 1],
        data_tag(operation, 6, own[n - run.sharing + 1]),
    ) && sent(trace[n].call) == D::encoding(result.0) by {
        assert(tail[n - run.sharing] == trace[n]);
    }
    run
}

/// A hierarchical all-gather in every rank of a world.
#[verifier::reject_recursive_types(T)]
pub struct GatherWorld<T> {
    pub models: Seq<CollectiveModel>,
    pub inputs: Seq<Seq<T>>,
    pub length: int,
    pub operation: u64,
    pub ring_channels: int,
    pub traces: Seq<Seq<TransportEvent>>,
    pub results: Seq<(Seq<T>, CollectiveStats)>,
}

impl<T> GatherWorld<T> {
    pub open spec fn groups(self) -> Seq<Seq<u32>> {
        self.models[0].groups()
    }

    /// The channels that the leaders use.
    pub open spec fn channels(self) -> int {
        effective_channels(self.ring_channels, self.length)
    }

    /// Every rank runs its part to the end, and what it receives is what the others
    /// sent it.
    pub open spec fn ran_by<D: RankDevice<T>>(self) -> bool {
        &&& faithful::<T, D>()
        &&& one_world(self.models)
        &&& self.models[0].tuning.hierarchy_groups is Some
        &&& self.inputs.len() == self.models.len()
        &&& self.traces.len() == self.models.len()
        &&& self.results.len() == self.models.len()
        &&& 0 < self.ring_channels <= usize::MAX
        &&& in_order_delivery(self.traces)
        &&& forall|r: int|
            0 <= r < self.inputs.len() ==> (#[trigger] self.inputs[r]).len() == self.length
        &&& forall|r: int| 0 <= r < self.models.len() ==> #[trigger] self.rank_ran::<D>(r)
    }

    pub open spec fn rank_ran<D: RankDevice<T>>(self, rank: int) -> bool {
        ran(
            all_gather_hierarchical_script::<T, D>(
                self.models[rank],
                self.inputs[rank],
                self.operation,
                self.ring_channels,
            ),
            self.traces[rank],
            self.results[rank],
        )
    }

    /// The rank that leads a group.
    pub open spec fn leader(self, group: int) -> int {
        self.groups()[group][0] as int
    }

    /// A leader's part ran like this.
    pub open spec fn leads<D: RankDevice<T>>(self, group: int, run: GatherRun<T>) -> bool {
        let rank = self.leader(group);
        gather_leads::<T, D>(
            self.models[rank],
            group,
            self.inputs[rank],
            self.operation,
            self.ring_channels,
            self.traces[rank],
            self.results[rank],
            run,
        )
    }

    /// What every rank of the groups stands by.
    proof fn lemma_setting<D: RankDevice<T>>(self, group: int, member: int)
        requires
            self.ran_by::<D>(),
            0 <= group < self.groups().len(),
            0 <= member < self.groups()[group].len(),
        ensures
            ({
                let rank = self.groups()[group][member];
                &&& rank < self.models.len()
                &&& self.models[rank as int].groups() == self.groups()
                &&& self.models[rank as int].tuning.hierarchy_groups is Some
                &&& self.models[rank as int].place.rank == rank
                &&& self.models[rank as int].world() == self.models.len()
                &&& self.models[rank as int].membership_defect() is None
                &&& group_of(self.groups(), rank) == group
                &&& self.inputs[rank as int].len() == self.length
                &&& self.rank_ran::<D>(rank as int)
            }),
    {
        lemma_world_groups(self.models, group, member);
        let rank = self.groups()[group][member] as int;
        assert(self.models[rank].place.world_size == self.models.len());
        assert(self.inputs[rank].len() == self.length);
        assert(self.rank_ran::<D>(rank));
    }

    /// The groups are a hierarchy.
    proof fn lemma_hierarchy<D: RankDevice<T>>(self)
        requires
            self.ran_by::<D>(),
        ensures
            is_hierarchy(self.models.len() as u32, self.groups()),
            self.models.len() <= u32::MAX,
    {
        assert(self.models[0].valid());
    }

    /// Only its leader stands first in a group.
    proof fn lemma_members_apart<D: RankDevice<T>>(self, group: int)
        requires
            self.ran_by::<D>(),
            0 <= group < self.groups().len(),
        ensures
            0 < self.groups()[group].len(),
            forall|i: int|
                1 <= i < self.groups()[group].len() ==> #[trigger] self.groups()[group][i]
                    != self.groups()[group][0],
    {
        self.lemma_hierarchy::<D>();
        let groups = self.groups();
        assert(groups[group].len() > 0);
        assert forall|i: int| 1 <= i < groups[group].len() implies #[trigger] groups[group][i]
            != groups[group][0] by {}
    }

    /// How a leader's part ran.
    pub open spec fn run<D: RankDevice<T>>(self, group: int) -> GatherRun<T> {
        choose|run: GatherRun<T>| self.leads::<D>(group, run)
    }

    proof fn lemma_run<D: RankDevice<T>>(self, group: int)
        requires
            self.ran_by::<D>(),
            0 <= group < self.groups().len(),
        ensures
            self.leads::<D>(group, self.run::<D>(group)),
    {
        self.lemma_members_apart::<D>(group);
        self.lemma_setting::<D>(group, 0);
        let rank = self.leader(group);
        let run = lemma_gather_leads::<T, D>(
            self.models[rank],
            group,
            self.inputs[rank],
            self.operation,
            self.ring_channels,
            self.traces[rank],
            self.results[rank],
        );
        assert(self.leads::<D>(group, run));
    }

    /// Where the leaders start to send to their members.
    pub open spec fn sharing<D: RankDevice<T>>(self) -> Seq<int> {
        Seq::new(self.groups().len(), |g: int| self.run::<D>(g).sharing)
    }

    /// A leader among the others.
    pub open spec fn at(self, group: int) -> GatherChannel {
        gather_place(
            self.models[self.leader(group)],
            group,
            self.length,
            self.operation,
            self.ring_channels,
        )
    }

    /// The hops of a leader.
    pub open spec fn hops(self, group: int) -> Seq<Hop> {
        hops_from(gather_hops(self.at(group)), 0, self.channels())
    }

    /// What a leader says to the others.
    pub open spec fn part<D: RankDevice<T>>(self, group: int) -> Seq<TransportEvent> {
        self.traces[self.leader(group)].subrange(
            self.groups()[group].len() as int,
            self.run::<D>(group).sharing,
        )
    }

    proof fn lemma_hops_beside<D: RankDevice<T>>(self, group: int)
        requires
            self.ran_by::<D>(),
            0 <= group < self.groups().len(),
        ensures
            beside(self.groups(), group, self.hops(group), self.hops(0)),
    {
        let groups = self.groups();
        let places = groups.len() as int;
        self.lemma_members_apart::<D>(group);
        self.lemma_members_apart::<D>(0);
        self.lemma_setting::<D>(group, 0);
        self.lemma_setting::<D>(0, 0);
        lemma_mod_bound(group - 1, places);
        lemma_mod_bound(group + 1, places);
        let own = gather_hops(self.at(group));
        let first = gather_hops(self.at(0));
        assert forall|c: int| 0 <= c < self.channels() implies beside(
            groups,
            group,
            #[trigger] own(c),
            first(c),
        ) by {
            let one = own(c);
            assert forall|j: int| #![trigger one[j]] 0 <= j < one.len() implies {
                &&& one[j].destination == leader_after(groups, group)
                &&& one[j].source == leader_before(groups, group)
                &&& one[j].tag == first(c)[j].tag
            } by {}
        }
        lemma_beside_channels(groups, group, own, first, 0, self.channels());
    }

    /// The leaders' all-gather at a leader.
    proof fn lemma_chain_ran<D: RankDevice<T>>(self, group: int) -> (runs: Seq<
        (Seq<Option<Seq<T>>>, int),
    >)
        requires
            self.ran_by::<D>(),
            0 <= group < self.groups().len(),
        ensures
            gathers_ran::<T, D>(
                self.at(group),
                self.run::<D>(group).bundle.0,
                0,
                self.part::<D>(group),
                runs,
            ),
            took(self.part::<D>(group), self.hops(group)),
            merged::<T, D::Error>(runs, self.groups().len() as int) == Ok::<
                (Seq<Seq<T>>, int),
                Failure<D::Error>,
            >(self.run::<D>(group).bundles),
    {
        self.lemma_members_apart::<D>(group);
        self.lemma_setting::<D>(group, 0);
        self.lemma_run::<D>(group);
        let run = self.run::<D>(group);
        let part = self.part::<D>(group);
        let at = self.at(group);
        let finished = gather_merged::<T, D>(at.groups, at.length);
        let (k, runs) = lemma_ran_tried(
            gather_channels::<T, D>(at, run.bundle.0, 0, Seq::empty()),
            false,
            finished,
            part,
            run.bundles,
        );
        lemma_over(finished(runs)->Done_0, part.skip(k));
        assert(part.take(k) =~= part);
        let found = lemma_gathers_ran::<T, D>(
            at,
            run.bundle.0,
            0,
            Seq::empty(),
            part,
            runs,
        );
        assert(Seq::<(Seq<Option<Seq<T>>>, int)>::empty() + found =~= found);
        found
    }

    /// A leader has led its group.
    proof fn lemma_led<D: RankDevice<T>>(self, group: int)
        requires
            self.ran_by::<D>(),
            0 <= group < self.groups().len(),
        ensures
            led(
                self.groups(),
                group,
                self.operation,
                4,
                6,
                self.traces[self.leader(group)],
                self.run::<D>(group).sharing,
            ),
    {
        self.lemma_members_apart::<D>(group);
        self.lemma_setting::<D>(group, 0);
        self.lemma_run::<D>(group);
        let groups = self.groups();
        let own = groups[group];
        let count = own.len() as int;
        let rank = self.leader(group);
        let trace = self.traces[rank];
        let run = self.run::<D>(group);
        let first = trace.subrange(1, count);
        let part = self.part::<D>(group);
        assert forall|i: int| 1 <= i < count implies receives_from(
            (#[trigger] trace[i]).call,
            own[i],
            data_tag(self.operation, 4, own[i]),
        ) && trace[i].reply.frame() is Ok by {
            lemma_bundle_ran::<T, D>(
                self.models[rank],
                own,
                1,
                self.operation,
                self.inputs[rank],
                self.inputs[rank],
                0,
                first,
                run.bundle,
            );
            assert(first[i - 1] == trace[i]);
        }
        assert(forall|i: int|
            0 <= i < part.len() ==> addresses(
                (#[trigger] part[i]).call,
                leader_after(groups, group),
            ) || awaits(part[i].call, leader_before(groups, group))) by {
            let runs = self.lemma_chain_ran::<D>(group);
            self.lemma_hops_beside::<D>(group);
            lemma_calls_beside(groups, group, part, self.hops(group), self.hops(0));
        }
        assert forall|i: int| count <= i < run.sharing implies addresses(
            (#[trigger] trace[i]).call,
            leader_after(groups, group),
        ) || awaits(trace[i].call, leader_before(groups, group)) by {
            assert(part[i - count] == trace[i]);
        }
    }

    /// A member's part.
    proof fn lemma_served<D: RankDevice<T>>(self, group: int, member: int)
        requires
            self.ran_by::<D>(),
            0 <= group < self.groups().len(),
            1 <= member < self.groups()[group].len(),
        ensures
            ({
                let rank = self.groups()[group][member] as int;
                let trace = self.traces[rank];
                &&& served(self.groups(), group, member, self.operation, 4, 6, trace)
                &&& sent(trace[1].call) == D::encoding(self.inputs[rank])
                &&& self.results[rank].0 == D::reading(got(trace[2]))
            }),
    {
        self.lemma_members_apart::<D>(group);
        self.lemma_setting::<D>(group, member);
        let groups = self.groups();
        let rank = groups[group][member] as int;
        let model = self.models[rank];
        let input = self.inputs[rank];
        let trace = self.traces[rank];
        assert(groups[group][member] != groups[group][0]);
        lemma_agreed(
            fnv(
                agreement_bytes(
                    self.operation,
                    input.len() as u64,
                    groups,
                    0x700,
                    self.ring_channels as u64,
                    model.channel_rails(self.ring_channels),
                ),
            ),
            "invalid hierarchical collective agreement response"@,
            all_gather_hierarchy_agreed::<T, D>(
                model,
                input,
                self.operation,
                self.ring_channels,
            ),
            trace,
            self.results[rank],
        );
        let rest = trace.skip(1);
        if input.len() * model.world() > usize::MAX {
            lemma_over::<(Seq<T>, CollectiveStats), D::Error>(
                Err(
                    Stop {
                        failure: too_large("hierarchical all-gather output length"@),
                        in_channel: false,
                    },
                ),
                rest,
            );
        }
        lemma_member_ran::<T, D>(
            model,
            groups[group][0],
            input,
            self.operation,
            4,
            6,
            input.len() * model.world(),
            model.hierarchy_steps(groups.len() - 1),
            gather_bytes_label(),
            rest,
            self.results[rank],
        );
        assert(rest[0] == trace[1]);
        assert(rest[1] == trace[2]);
    }

    proof fn lemma_tiered<D: RankDevice<T>>(self)
        requires
            self.ran_by::<D>(),
        ensures
            tiered(self.groups(), self.operation, 4, 6, self.traces, self.sharing::<D>()),
    {
        reveal(tiered);
        let groups = self.groups();
        let sharing = self.sharing::<D>();
        self.lemma_hierarchy::<D>();
        assert forall|g: int| #![trigger sharing[g]] 0 <= g < groups.len() implies led(
            groups,
            g,
            self.operation,
            4,
            6,
            self.traces[groups[g][0] as int],
            sharing[g],
        ) by {
            self.lemma_led::<D>(g);
        }
        assert forall|g: int, k: int|
            #![trigger groups[g][k]]
            0 <= g < groups.len() && 1 <= k < groups[g].len() implies served(
            groups,
            g,
            k,
            self.operation,
            4,
            6,
            self.traces[groups[g][k] as int],
        ) by {
            self.lemma_served::<D>(g, k);
        }
    }

    /// The groups' bundles.
    pub open spec fn bundles(self) -> Seq<Seq<T>> {
        Seq::new(
            self.groups().len(),
            |g: int| bundle_from(self.inputs, self.groups()[g], 0),
        )
    }

    /// A leader has gathered its group's bundle.
    proof fn lemma_bundled<D: RankDevice<T>>(self, group: int)
        requires
            self.ran_by::<D>(),
            0 <= group < self.groups().len(),
        ensures
            self.run::<D>(group).bundle.0 == self.bundles()[group],
    {
        self.lemma_tiered::<D>();
        self.lemma_members_apart::<D>(group);
        self.lemma_setting::<D>(group, 0);
        self.lemma_run::<D>(group);
        let groups = self.groups();
        let own = groups[group];
        let count = own.len() as int;
        let rank = self.leader(group);
        let run = self.run::<D>(group);
        let first = self.traces[rank].subrange(1, count);
        assert forall|k: int| #![trigger first[k]] 0 <= k < count - 1 implies got(first[k])
            == D::encoding(self.inputs[own[1 + k] as int]) by {
            self.lemma_served::<D>(group, 1 + k);
            lemma_sent_up(
                groups,
                self.operation,
                4,
                6,
                self.traces,
                self.sharing::<D>(),
                group,
                1 + k,
            );
            assert(first[k] == self.traces[rank][1 + k]);
        }
        lemma_bundle_values::<T, D>(
            self.models[rank],
            own,
            1,
            self.operation,
            self.inputs[rank],
            self.inputs[rank],
            0,
            first,
            run.bundle,
            self.inputs,
        );
    }

    /// What the leaders say to each other is handed on from one to the next.
    proof fn lemma_handed_on<D: RankDevice<T>>(self)
        requires
            self.ran_by::<D>(),
        ensures
            handed_on(between_leaders(self.groups(), self.traces, self.sharing::<D>())),
    {
        let groups = self.groups();
        let hops = Seq::new(groups.len(), |g: int| self.hops(g));
        let said = between_leaders(groups, self.traces, self.sharing::<D>());
        self.lemma_tiered::<D>();
        assert forall|g: int| #![trigger hops[g]] 0 <= g < groups.len() implies took(
            said[g],
            hops[g],
        ) && beside(groups, g, hops[g], hops[0]) by {
            let runs = self.lemma_chain_ran::<D>(g);
            self.lemma_hops_beside::<D>(g);
            assert(said[g] == self.part::<D>(g));
        }
        lemma_leaders_handed_on(
            groups,
            self.operation,
            4,
            6,
            self.traces,
            self.sharing::<D>(),
            hops,
        );
    }

    /// The runs of a leader's channels.
    pub open spec fn runs<D: RankDevice<T>>(self, group: int) -> Seq<
        (Seq<Option<Seq<T>>>, int),
    > {
        choose|runs: Seq<(Seq<Option<Seq<T>>>, int)>| self.chained::<D>(group, runs)
    }

    /// Such runs make up the leader's part.
    pub open spec fn chained<D: RankDevice<T>>(
        self,
        group: int,
        runs: Seq<(Seq<Option<Seq<T>>>, int)>,
    ) -> bool {
        &&& gathers_ran::<T, D>(
            self.at(group),
            self.bundles()[group],
            0,
            self.part::<D>(group),
            runs,
        )
        &&& merged::<T, D::Error>(runs, self.groups().len() as int) == Ok::<
            (Seq<Seq<T>>, int),
            Failure<D::Error>,
        >(self.run::<D>(group).bundles)
    }

    proof fn lemma_runs<D: RankDevice<T>>(self, group: int)
        requires
            self.ran_by::<D>(),
            0 <= group < self.groups().len(),
        ensures
            self.chained::<D>(group, self.runs::<D>(group)),
    {
        let runs = self.lemma_chain_ran::<D>(group);
        self.lemma_bundled::<D>(group);
        assert(self.chained::<D>(group, runs));
    }

    /// A channel leaves every leader with every group's part.
    proof fn lemma_channel<D: RankDevice<T>>(self, channel: int, group: int)
        requires
            self.ran_by::<D>(),
            0 <= channel < self.channels(),
            0 <= group < self.groups().len(),
        ensures
            self.runs::<D>(group).len() == self.channels(),
            forall|g: int|
                0 <= g < self.groups().len() ==> (#[trigger] self.runs::<D>(group)[channel].0[g])
                    == Some(bundle_part(self.bundles()[g], self.channels(), channel)),
    {
        let groups = self.groups();
        let places = groups.len() as int;
        let step = 2 * (places - 1);
        let said = between_leaders(groups, self.traces, self.sharing::<D>());
        let traces = part_of(said, channel * step, channel * step + step);
        let ats = Seq::new(groups.len(), |g: int| at_channel(self.at(g), channel));
        let parts = Seq::new(
            groups.len(),
            |g: int| bundle_part(self.bundles()[g], self.channels(), channel),
        );
        let pieces = Seq::new(groups.len(), |g: int| own_piece(self.bundles()[g], ats[g]));
        let bytes = Seq::new(groups.len(), |g: int| 0int);
        let finals = Seq::new(groups.len(), |g: int| self.runs::<D>(g)[channel]);
        assert(0 <= channel * step && channel * step == 2 * (channel * (places - 1)))
            by (nonlinear_arith)
            requires
                0 <= channel,
                0 <= step,
                step == 2 * (places - 1),
        ;
        let channels = self.channels();
        assert(channel * step + step <= channels * step) by (nonlinear_arith)
            requires
                channel + 1 <= channels,
                0 <= step,
        ;
        assert forall|g: int|
            #![trigger finals[g]]
            #![trigger said[g]]
            0 <= g < places implies channel * step + step <= said[g].len() && ran(
            piece_script::<T, D>(ats[g], 0, pieces[g], bytes[g]),
            traces[g],
            finals[g],
        ) && self.runs::<D>(g).len() == self.channels() by {
            self.lemma_runs::<D>(g);
            self.lemma_members_apart::<D>(g);
            self.lemma_setting::<D>(g, 0);
            assert(said[g] == self.part::<D>(g));
            assert(self.runs::<D>(g).len() == self.channels());
            assert(ran(
                piece_script::<T, D>(
                    at_channel(self.at(g), 0 + channel),
                    0,
                    own_piece(self.bundles()[g], at_channel(self.at(g), 0 + channel)),
                    0,
                ),
                said[g].subrange(channel * step, channel * step + step),
                self.runs::<D>(g)[channel],
            ));
        }
        self.lemma_handed_on::<D>();
        lemma_part_handed_on(said, channel * step, channel * step + step);
        assert forall|p: int| #![trigger ats[p]] 0 <= p < places implies ats[p].position == p
            && ats[p].count() == places by {
            self.lemma_members_apart::<D>(p);
            self.lemma_setting::<D>(p, 0);
        }
        assert forall|p: int| 0 <= p < places implies has_come(parts, p, 0, #[trigger] pieces[p]) by {
            assert(ats[p].position == p && ats[p].count() == places);
            assert forall|g: int| 0 <= g < places && hops(p, g, 0, places) <= 0 implies (
            #[trigger] pieces[p][g]) == Some(parts[g]) by {
                lemma_reached_place(p, g, 0, places);
                lemma_small_mod(g as nat, places as nat);
                assert(g - 0 + hops(p, g, 0, places) == g);
                assert(ats[p].channels == self.channels());
                assert(ats[p].channel as int == channel);
            }
        }
        lemma_pieces::<T, D>(ats, parts, 0, pieces, bytes, traces, finals);
        assert(has_come(parts, group, places - 1, finals[group].0));
        assert forall|g: int| 0 <= g < places implies (#[trigger] self.runs::<D>(group)[channel].0[g])
            == Some(bundle_part(self.bundles()[g], self.channels(), channel)) by {
            lemma_reached_place(group, g, 0, places);
            assert(finals[group].0[g] == Some(parts[g]));
        }
    }

    /// Every leader ends with every group's bundle.
    proof fn lemma_gathered<D: RankDevice<T>>(self, group: int)
        requires
            self.ran_by::<D>(),
            0 <= group < self.groups().len(),
        ensures
            self.run::<D>(group).bundles.0 == self.bundles(),
    {
        let groups = self.groups();
        let bundles = self.bundles();
        let runs = self.runs::<D>(group);
        let channels = self.channels();
        self.lemma_channel::<D>(0, group);
        assert forall|c: int, g: int|
            #![trigger runs[c].0[g]]
            0 <= c < runs.len() && 0 <= g < bundles.len() implies runs[c].0[g] == Some(
            bundle_part(bundles[g], channels, c),
        ) by {
            self.lemma_channel::<D>(c, group);
        }
        lemma_merged::<T, D::Error>(runs, bundles, channels);
        self.lemma_runs::<D>(group);
        let all = self.run::<D>(group).bundles.0;
        assert forall|g: int| 0 <= g < bundles.len() implies all[g] == bundles[g] by {
            law_balanced_partition(bundles[g].len() as int, channels, 0);
            assert(all[g] == bundles[g].take(
                balanced_start(bundles[g].len() as int, channels, channels),
            ));
            assert(bundles[g].take(bundles[g].len() as int) =~= bundles[g]);
        }
        assert(all =~= bundles);
    }

    /// A leader ends with every rank's input, in rank order.
    proof fn lemma_leader_result<D: RankDevice<T>>(self, group: int)
        requires
            self.ran_by::<D>(),
            0 <= group < self.groups().len(),
        ensures
            self.results[self.leader(group)].0 == laid_out(self.inputs),
    {
        self.lemma_members_apart::<D>(group);
        self.lemma_setting::<D>(group, 0);
        self.lemma_run::<D>(group);
        self.lemma_gathered::<D>(group);
        self.lemma_hierarchy::<D>();
        lemma_assembled(
            self.groups(),
            self.inputs,
            self.bundles(),
            self.length,
            self.inputs.len() as int,
        );
        assert(self.inputs.take(self.inputs.len() as int) =~= self.inputs);
    }

    /// A member ends with what its leader has.
    proof fn lemma_member_result<D: RankDevice<T>>(self, group: int, member: int)
        requires
            self.ran_by::<D>(),
            0 <= group < self.groups().len(),
            1 <= member < self.groups()[group].len(),
        ensures
            self.results[self.groups()[group][member] as int].0
                == self.results[self.leader(group)].0,
    {
        self.lemma_setting::<D>(group, 0);
        self.lemma_run::<D>(group);
        self.lemma_tiered::<D>();
        self.lemma_served::<D>(group, member);
        let run = self.run::<D>(group);
        lemma_sent_down(
            self.groups(),
            self.operation,
            4,
            6,
            self.traces,
            self.sharing::<D>(),
            group,
            member,
        );
        let given = self.results[self.leader(group)].0;
        let sending = self.traces[self.leader(group)][run.sharing + (member - 1)];
        assert(self.sharing::<D>()[group] == run.sharing);
        assert(sent(sending.call) == D::encoding(given));
        assert(lossless::<T, D>(given));
    }
}

/// A hierarchical all-gather. Where every rank of a world runs its part to the end
/// and receives what the others send it, each rank holds every rank's input, in rank
/// order. All ranks report the same steps, and none launches kernels.
pub proof fn law_hierarchical_all_gather<T, D: RankDevice<T>>(world: GatherWorld<T>)
    requires
        world.ran_by::<D>(),
    ensures
        forall|r: int|
            0 <= r < world.models.len() ==> (#[trigger] world.results[r]).0 == laid_out(
                world.inputs,
            ),
        forall|r: int|
            0 <= r < world.models.len() ==> hierarchical_cost(
                world.models[r],
                world.groups().len() - 1,
                (#[trigger] world.results[r]).1,
            ) && world.results[r].1.reduction_kernel_launches == 0,
{
    let groups = world.groups();
    assert forall|r: int| 0 <= r < world.models.len() implies hierarchical_cost(
        world.models[r],
        world.groups().len() - 1,
        (#[trigger] world.results[r]).1,
    ) && world.results[r].1.reduction_kernel_launches == 0 by {
        assert(world.rank_ran::<D>(r));
        assert(world.models[r].valid() && world.models[r].tuning == world.models[0].tuning);
        lemma_all_gather_cost::<T, D>(
            world.models[r],
            world.inputs[r],
            world.operation,
            world.ring_channels,
            world.traces[r],
            world.results[r],
        );
    }
    world.lemma_hierarchy::<D>();
    assert forall|r: int| 0 <= r < world.models.len() implies (#[trigger] world.results[r]).0
        == laid_out(world.inputs) by {
        assert(grouped(groups, groups.len() as int, r as u32));
        let g = group_of(groups, r as u32);
        assert(groups[g].contains(r as u32));
        let k = groups[g].index_of(r as u32);
        assert(groups[g][k] == r as u32);
        world.lemma_leader_result::<D>(g);
        if k > 0 {
            world.lemma_member_result::<D>(g, k);
        }
    }
}

} // verus!

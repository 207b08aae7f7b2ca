//! What the ranks of a world end up with from a pairwise exchange.

use crate::math::sum_usize;
use crate::rank::device::{lossless, RankDevice};
use crate::rank::device_collective::all_to_all::{
    all_to_all_pairwise_script, all_to_all_v_pairwise_script, counts_next, counts_script,
    lemma_uniform, own_count_only, pairwise_agreed, pairwise_finished, pairwise_v_agreed,
    pairwise_v_counted, pairwise_v_finished, shard_plan, uniform, variable_plan, VariableModel,
};
use crate::rank::device_collective::delivery::{
    facing, hop_taken, hops_from, in_order_delivery, lemma_facing_channels, lemma_facing_parts,
    lemma_took_parts, took, Hop,
};
use crate::rank::device_collective::laws::{
    faithful, got, in_step, lemma_agreed, lemma_chunk_ran, lemma_delivered_in_step,
    lemma_neighbours, lemma_part_in_step, lemma_rest_delivered, lemma_rest_in_step, one_world,
    part_of, rest_of, sent,
};
use crate::rank::device_collective::pairwise::{
    joined, lemma_rows_apart, offset_of, own_row_only, pairwise_next, pairwise_script,
    step_destination, step_next, step_script, step_source, Pairwise,
};
use crate::rank::device_collective::ring::{chunk_length, chunk_script};
use crate::rank::device_collective::{effective_channels, CollectiveModel};
use crate::rank::host::exchange::{host_payload_received, host_payload_script};
use crate::rank::network::ExchangeOptions;
use crate::rank::protocol::{ElementType, Opcode, ANY_RANK};
use crate::rank::hash::fnv;
use crate::rank::layout::{balanced_start, laid_out, law_balanced_partition};
use crate::rank::script::{
    lemma_over, lemma_ran_ask, lemma_ran_tried, ran, too_large, tried, Script, Stop, TransportCall,
    TransportEvent,
};
use crate::rank::stats::CollectiveStats;
use crate::rank::tags::{agreement_bytes, ring_tag};
use crate::rank::topology::rings::{is_ring, lemma_ring_holds_all};
use crate::rank::CollectiveAlgorithm;
use vstd::arithmetic::div_mod::*;
use vstd::bytes::*;
use vstd::prelude::*;

verus! {

/// A channel of a step: the rank sends its part and receives from the source.
pub open spec fn exchanged<T, D: RankDevice<T>>(
    part: Seq<T>,
    source: u32,
    events: Seq<TransportEvent>,
    at: int,
) -> bool {
    &&& sent(events[at].call) == D::encoding(part)
    &&& events[at + 1].call matches TransportCall::Receive { source: Some(from), .. } && from
        == source
    &&& events[at + 1].reply.frame() is Ok
}

/// What a step does over a channel, counted from `channel` on; `known` parts have
/// come in before.
pub open spec fn taken_over<T, D: RankDevice<T>>(
    plan: Pairwise,
    input: Seq<T>,
    destination: u32,
    source: u32,
    channel: int,
    known: int,
    events: Seq<TransportEvent>,
    last: Seq<Seq<u8>>,
    c: int,
) -> bool {
    let at = 2 * (c - channel);
    &&& exchanged::<T, D>(plan.part(input, destination, c), source, events, at)
    &&& last[known + (c - channel)] == got(events[at + 1])
}

/// The hops of a step over the channels from one on.
pub open spec fn step_hops(
    plan: Pairwise,
    destination: u32,
    source: u32,
    step: int,
    channel: int,
) -> Seq<Hop> {
    Seq::new(
        (plan.channels - channel) as nat,
        |c: int|
            Hop {
                destination,
                source,
                tag: ring_tag(plan.operation, plan.phase, (channel + c) as u64, step as u64),
            },
    )
}

/// The hops of a rank in each step.
pub open spec fn pairwise_hops(ring: Seq<u32>, plan: Pairwise, position: int) -> spec_fn(
    int,
) -> Seq<Hop> {
    |step: int|
        step_hops(
            plan,
            step_destination(ring, position, step),
            step_source(ring, position, step),
            step,
            0,
        )
}

/// The hops of any two ranks of an exchange fit.
proof fn lemma_pairwise_facing(
    ring: Seq<u32>,
    place: int,
    plan: Pairwise,
    other: int,
    theirs: Pairwise,
)
    requires
        ring.no_duplicates(),
        0 <= place < ring.len(),
        0 <= other < ring.len(),
        plan.channels == theirs.channels,
        plan.operation == theirs.operation,
        plan.phase == theirs.phase,
    ensures
        facing(
            hops_from(pairwise_hops(ring, plan, place), 1, ring.len() as int),
            ring[place],
            hops_from(pairwise_hops(ring, theirs, other), 1, ring.len() as int),
            ring[other],
        ),
{
    let own = pairwise_hops(ring, plan, place);
    let others = pairwise_hops(ring, theirs, other);
    assert forall|step: int| 1 <= step < ring.len() implies facing(
        #[trigger] own(step),
        ring[place],
        others(step),
        ring[other],
    ) by {
        lemma_neighbours(ring, place, other, step);
        let one = own(step);
        let two = others(step);
        assert forall|j: int| #![trigger one[j]] 0 <= j < one.len() implies {
            &&& one[j].source == ring[other] <==> two[j].destination == ring[place]
            &&& one[j].source == ring[other] ==> one[j].tag == two[j].tag
        } by {}
    }
    lemma_facing_channels(own, ring[place], others, ring[other], 1, ring.len() as int);
}

/// A step that succeeds is an exchange over each channel.
proof fn lemma_step_ran<T, D: RankDevice<T>>(
    model: CollectiveModel,
    plan: Pairwise,
    input: Seq<T>,
    destination: u32,
    source: u32,
    step: int,
    channel: int,
    parts: Seq<Seq<u8>>,
    events: Seq<TransportEvent>,
    last: Seq<Seq<u8>>,
)
    requires
        ran(
            step_script::<T, D>(
                model,
                plan,
                input,
                destination,
                source,
                step,
                channel,
                parts,
            ),
            events,
            last,
        ),
        0 <= channel <= plan.channels,
    ensures
        events.len() == 2 * (plan.channels - channel),
        took(events, step_hops(plan, destination, source, step, channel)),
        last.len() == parts.len() + plan.channels - channel,
        forall|i: int| 0 <= i < parts.len() ==> #[trigger] last[i] == parts[i],
        forall|c: int|
            channel <= c < plan.channels ==> #[trigger] taken_over::<T, D>(
                plan,
                input,
                destination,
                source,
                channel,
                parts.len() as int,
                events,
                last,
                c,
            ),
    decreases plan.channels - channel,
{
    if channel == plan.channels {
        lemma_over::<Seq<Seq<u8>>, D::Error>(Ok(parts), events);
    } else {
        let part = plan.part(input, destination, channel);
        let length = chunk_length(
            plan.receive_counts[source as int] as int,
            plan.channels,
            channel,
        );
        let tag = ring_tag(plan.operation, plan.phase, channel as u64, step as u64);
        let first = chunk_script::<T, D>(
            model.element_type,
            model.rail(channel),
            part,
            length,
            destination,
            source,
            tag,
        );
        let onward = step_next::<T, D>(
            model,
            plan,
            input,
            destination,
            source,
            step,
            channel,
            parts,
        );
        let (k, bytes) = lemma_ran_tried(first, true, onward, events, last);
        lemma_chunk_ran::<T, D>(
            model.element_type,
            model.rail(channel),
            part,
            length,
            destination,
            source,
            tag,
            events.take(k),
            bytes,
        );
        assert(events.take(k)[0] == events[0]);
        assert(events.take(k)[1] == events[1]);
        let rest = events.skip(2);
        lemma_step_ran::<T, D>(
            model,
            plan,
            input,
            destination,
            source,
            step,
            channel + 1,
            parts.push(bytes),
            rest,
            last,
        );
        let one = seq![Hop { destination, source, tag }];
        let later = step_hops(plan, destination, source, step, channel + 1);
        assert(took(events.take(2), one));
        lemma_took_parts(events.take(2), one, rest, later);
        assert(events.take(2) + rest =~= events);
        assert(one + later =~= step_hops(plan, destination, source, step, channel));
        assert forall|i: int| 0 <= i < parts.len() implies #[trigger] last[i] == parts[i] by {
            assert(last[i] == parts.push(bytes)[i]);
        }
        assert(last[parts.len() as int] == parts.push(bytes)[parts.len() as int]);
        assert forall|c: int|
            channel <= c < plan.channels implies #[trigger] taken_over::<T, D>(
            plan,
            input,
            destination,
            source,
            channel,
            parts.len() as int,
            events,
            last,
            c,
        ) by {
            if c > channel {
                let at = 2 * (c - channel - 1);
                assert(taken_over::<T, D>(
                    plan,
                    input,
                    destination,
                    source,
                    channel + 1,
                    (parts.len() + 1) as int,
                    rest,
                    last,
                    c,
                ));
                assert(rest[at] == events[at + 2]);
                assert(rest[at + 1] == events[at + 3]);
            }
        }
    }
}

/// The steps of one rank's exchange: in each an exchange over every channel.
pub open spec fn steps_ran<T, D: RankDevice<T>>(
    ring: Seq<u32>,
    plan: Pairwise,
    input: Seq<T>,
    position: int,
    from: int,
    events: Seq<TransportEvent>,
) -> bool {
    forall|step: int, c: int|
        #![trigger plan.part(input, step_destination(ring, position, step), c)]
        from <= step < ring.len() && 0 <= c < plan.channels ==> exchanged::<T, D>(
            plan.part(input, step_destination(ring, position, step), c),
            step_source(ring, position, step),
            events,
            (step - from) * (2 * plan.channels) + 2 * c,
        )
}

/// What came in over the channels of a step.
pub open spec fn parts_at(
    events: Seq<TransportEvent>,
    channels: int,
    from: int,
    step: int,
) -> Seq<Seq<u8>> {
    Seq::new(
        channels as nat,
        |c: int| got(events[(step - from) * (2 * channels) + 2 * c + 1]),
    )
}

/// The rows once the steps from `from` on are through.
pub open spec fn rows_after<T, D: RankDevice<T>>(
    ring: Seq<u32>,
    position: int,
    channels: int,
    from: int,
    rows: Seq<Seq<T>>,
    events: Seq<TransportEvent>,
    all: Seq<Seq<T>>,
) -> bool {
    &&& all.len() == rows.len()
    &&& forall|step: int|
        from <= step < ring.len() ==> all[#[trigger] step_source(ring, position, step) as int]
            == joined::<T, D>(parts_at(events, channels, from, step))
    &&& forall|row: int|
        #![trigger all[row]]
        0 <= row < rows.len() && (forall|step: int|
            from <= step < ring.len() ==> row != #[trigger] step_source(ring, position, step))
            ==> all[row] == rows[row]
}

/// Two steps of an exchange have different sources.
proof fn lemma_sources_differ(ring: Seq<u32>, world_size: u32, position: int, one: int, other: int)
    requires
        is_ring(world_size, ring),
        0 <= position < ring.len(),
        0 <= one < ring.len(),
        0 <= other < ring.len(),
        step_source(ring, position, one) == step_source(ring, position, other),
    ensures
        one == other,
{
    let places = ring.len() as int;
    lemma_mod_bound(position - one, places);
    lemma_mod_bound(position - other, places);
    let p = (position - one) % places;
    let q = (position - other) % places;
    assert(ring[p] == ring[q]);
    assert(p == q);
    lemma_fundamental_div_mod(position - one, places);
    lemma_fundamental_div_mod(position - other, places);
    let a = (position - one) / places;
    let b = (position - other) / places;
    assert(other - one == places * (a - b)) by (nonlinear_arith)
        requires
            position - one == places * a + p,
            position - other == places * b + p,
    ;
    if a - b >= 1 {
        assert(places * (a - b) >= places) by (nonlinear_arith)
            requires
                a - b >= 1,
                places >= 0,
        ;
    } else if a - b <= -1 {
        assert(places * (a - b) <= -places) by (nonlinear_arith)
            requires
                a - b <= -1,
                places >= 0,
        ;
    } else {
        assert(places * (a - b) == 0) by (nonlinear_arith)
            requires
                a - b == 0,
        ;
    }
}

/// Where the events of a step stand, once those of the first step are taken off.
proof fn lemma_later_events(
    events: Seq<TransportEvent>,
    channels: int,
    from: int,
    step: int,
    steps: int,
)
    requires
        0 <= channels,
        from < step < steps,
        events.len() == (steps - from) * (2 * channels),
    ensures
        2 * channels <= events.len(),
        forall|i: int|
            0 <= i < 2 * channels ==> #[trigger] events.skip(2 * channels)[(step - (from + 1)) * (2
                * channels) + i] == events[(step - from) * (2 * channels) + i],
{
    let width = 2 * channels;
    let gone = step - from;
    assert(gone * width == (gone - 1) * width + width) by (nonlinear_arith);
    assert((gone - 1) * width >= 0) by (nonlinear_arith)
        requires
            gone >= 1,
            width >= 0,
    ;
    assert((steps - from) * width >= gone * width + width) by (nonlinear_arith)
        requires
            steps - from >= gone + 1,
            width >= 0,
    ;
    assert forall|i: int| 0 <= i < width implies #[trigger] events.skip(width)[(step - (from + 1))
        * width + i] == events[(step - from) * width + i] by {
        assert(step - (from + 1) == gone - 1);
    }
}

/// A pairwise exchange that succeeds goes step by step.
proof fn lemma_pairwise_ran<T, D: RankDevice<T>>(
    model: CollectiveModel,
    plan: Pairwise,
    input: Seq<T>,
    position: int,
    step: int,
    rows: Seq<Seq<T>>,
    bytes: int,
    events: Seq<TransportEvent>,
    last: (Seq<T>, int),
) -> (all: Seq<Seq<T>>)
    requires
        ran(
            pairwise_script::<T, D>(model, plan, input, position, step, rows, bytes),
            events,
            last,
        ),
        is_ring(model.place.world_size, model.tuning.ring_order),
        0 <= position < model.world(),
        0 < step <= model.world(),
        rows.len() == model.world(),
        0 <= plan.channels,
    ensures
        events.len() == (model.world() - step) * (2 * plan.channels),
        took(
            events,
            hops_from(
                pairwise_hops(model.tuning.ring_order, plan, position),
                step,
                model.world(),
            ),
        ),
        steps_ran::<T, D>(model.tuning.ring_order, plan, input, position, step, events),
        rows_after::<T, D>(
            model.tuning.ring_order,
            position,
            plan.channels,
            step,
            rows,
            events,
            all,
        ),
        last.0 == laid_out(all),
    decreases model.world() - step,
{
    let ring = model.tuning.ring_order;
    let world = model.world();
    let width = 2 * plan.channels;
    if step == world {
        lemma_over::<(Seq<T>, int), D::Error>(Ok((laid_out(rows), bytes)), events);
        assert(0 * width == 0) by (nonlinear_arith);
        rows
    } else {
        let destination = step_destination(ring, position, step);
        let source = step_source(ring, position, step);
        lemma_mod_bound(position - step, world);
        let first = step_script::<T, D>(
            model,
            plan,
            input,
            destination,
            source,
            step,
            0,
            Seq::empty(),
        );
        let onward = pairwise_next::<T, D>(model, plan, input, position, step, rows, bytes);
        let (k, parts) = lemma_ran_tried(first, false, onward, events, last);
        let start = events.take(k);
        let rest = events.skip(k);
        lemma_step_ran::<T, D>(
            model,
            plan,
            input,
            destination,
            source,
            step,
            0,
            Seq::empty(),
            start,
            parts,
        );
        let total = bytes + plan.moved(
            destination,
            source,
            D::ELEMENT_SIZE as int,
            plan.channels,
        );
        if total > usize::MAX {
            lemma_over::<(Seq<T>, int), D::Error>(
                Err(Stop { failure: too_large(plan.bytes_label), in_channel: false }),
                rest,
            );
        }
        let now = rows.update(source as int, joined::<T, D>(parts));
        let all = lemma_pairwise_ran::<T, D>(
            model,
            plan,
            input,
            position,
            step + 1,
            now,
            total,
            rest,
            last,
        );
        let each = pairwise_hops(ring, plan, position);
        lemma_took_parts(start, each(step), rest, hops_from(each, step + 1, world));
        assert(start + rest =~= events);
        assert((world - step) * width == (world - (step + 1)) * width + width)
            by (nonlinear_arith);
        assert(0 * width == 0) by (nonlinear_arith);
        assert forall|s: int, c: int|
            #![trigger plan.part(input, step_destination(ring, position, s), c)]
            step <= s < ring.len() && 0 <= c < plan.channels implies exchanged::<T, D>(
            plan.part(input, step_destination(ring, position, s), c),
            step_source(ring, position, s),
            events,
            (s - step) * (2 * plan.channels) + 2 * c,
        ) by {
            if s == step {
                assert(taken_over::<T, D>(
                    plan,
                    input,
                    destination,
                    source,
                    0,
                    0,
                    start,
                    parts,
                    c,
                ));
                assert(start[2 * c] == events[2 * c]);
                assert(start[2 * c + 1] == events[2 * c + 1]);
            } else {
                lemma_later_events(events, plan.channels, step, s, world);
                let at = (s - (step + 1)) * (2 * plan.channels) + 2 * c;
                assert(exchanged::<T, D>(
                    plan.part(input, step_destination(ring, position, s), c),
                    step_source(ring, position, s),
                    rest,
                    at,
                ));
                assert(rest[at] == events[(s - step) * (2 * plan.channels) + 2 * c]);
                assert(rest[(s - (step + 1)) * (2 * plan.channels) + (2 * c + 1)] == events[(s
                    - step) * (2 * plan.channels) + (2 * c + 1)]);
            }
        }
        assert forall|s: int| step <= s < ring.len() implies all[#[trigger] step_source(
            ring,
            position,
            s,
        ) as int] == joined::<T, D>(parts_at(events, plan.channels, step, s)) by {
            if s == step {
                let mine = parts_at(events, plan.channels, step, s);
                assert forall|c: int| 0 <= c < plan.channels implies parts[c] == mine[c] by {
                    assert(taken_over::<T, D>(
                        plan,
                        input,
                        destination,
                        source,
                        0,
                        0,
                        start,
                        parts,
                        c,
                    ));
                    assert(start[2 * c + 1] == events[2 * c + 1]);
                }
                assert(parts =~= mine);
                assert forall|t: int| step + 1 <= t < ring.len() implies source
                    != #[trigger] step_source(ring, position, t) by {
                    if source == step_source(ring, position, t) {
                        lemma_sources_differ(ring, model.place.world_size, position, step, t);
                    }
                }
                assert(source < world);
                assert(all[source as int] == now[source as int]);
            } else {
                lemma_later_events(events, plan.channels, step, s, world);
                let mine = parts_at(events, plan.channels, step, s);
                let theirs = parts_at(rest, plan.channels, step + 1, s);
                assert forall|c: int| 0 <= c < plan.channels implies theirs[c] == mine[c] by {
                    assert(rest[(s - (step + 1)) * (2 * plan.channels) + (2 * c + 1)] == events[(s
                        - step) * (2 * plan.channels) + (2 * c + 1)]);
                }
                assert(theirs =~= mine);
            }
        }
        assert forall|row: int|
            #![trigger all[row]]
            0 <= row < rows.len() && (forall|s: int|
                step <= s < ring.len() ==> row != #[trigger] step_source(
                    ring,
                    position,
                    s,
                )) implies all[row] == rows[row] by {
            assert(row != step_source(ring, position, step));
            assert(all[row] == now[row]);
        }
        all
    }
}

/// What is read back of parts of a range, one after another, is the range.
proof fn lemma_joined_parts<T, D: RankDevice<T>>(
    plan: Pairwise,
    input: Seq<T>,
    destination: u32,
    parts: Seq<Seq<u8>>,
    count: int,
)
    requires
        faithful::<T, D>(),
        0 <= count <= plan.channels,
        0 < plan.channels,
        parts.len() == plan.channels,
        0 <= offset_of(plan.send_counts, destination as int),
        offset_of(plan.send_counts, destination as int) + plan.send_counts[destination as int]
            <= input.len(),
        forall|c: int|
            0 <= c < plan.channels ==> #[trigger] parts[c] == D::encoding(
                plan.part(input, destination, c),
            ),
    ensures
        ({
            let start = offset_of(plan.send_counts, destination as int);
            let length = plan.send_counts[destination as int] as int;
            let end = balanced_start(length, plan.channels, count);
            &&& 0 <= end <= length
            &&& joined::<T, D>(parts.take(count)) == input.subrange(start, start + end)
        }),
    decreases count,
{
    let start = offset_of(plan.send_counts, destination as int);
    let length = plan.send_counts[destination as int] as int;
    if count == 0 {
        law_balanced_partition(length, plan.channels, 0);
        assert(parts.take(0) =~= Seq::empty());
        assert(input.subrange(start, start) =~= Seq::empty());
    } else {
        lemma_joined_parts::<T, D>(plan, input, destination, parts, count - 1);
        law_balanced_partition(length, plan.channels, count - 1);
        let part = plan.part(input, destination, count - 1);
        assert(parts.take(count).drop_last() =~= parts.take(count - 1));
        assert(parts.take(count).last() == parts[count - 1]);
        assert(lossless::<T, D>(part));
        assert(D::reading(D::encoding(part)) == part);
        assert(input.subrange(start, start + balanced_start(length, plan.channels, count))
            =~= input.subrange(start, start + balanced_start(length, plan.channels, count - 1))
            + part);
    }
}

/// What a rank has for another.
pub open spec fn meant_for<T>(plan: Pairwise, input: Seq<T>, rank: int) -> Seq<T> {
    let start = offset_of(plan.send_counts, rank);
    input.subrange(start, start + plan.send_counts[rank])
}

/// Each rank's plan and input fit together, and the plans use the same channels
/// and tags.
pub open spec fn planned<T>(plans: Seq<Pairwise>, inputs: Seq<Seq<T>>) -> bool {
    &&& plans.len() == inputs.len()
    &&& forall|r: int|
        #![trigger plans[r]]
        0 <= r < plans.len() ==> {
            &&& 0 < plans[r].channels == plans[0].channels
            &&& plans[r].operation == plans[0].operation
            &&& plans[r].phase == plans[0].phase
            &&& plans[r].send_counts.len() == plans.len()
            &&& sum_usize(plans[r].send_counts) == inputs[r].len()
        }
}

/// Each rank's part of a pairwise exchange, from its first step on; `bytes` were
/// moved before.
pub open spec fn pairwise_part<T, D: RankDevice<T>>(
    model: CollectiveModel,
    plan: Pairwise,
    input: Seq<T>,
    bytes: int,
) -> Script<(Seq<T>, int), D::Error> {
    pairwise_script::<T, D>(
        model,
        plan,
        input,
        model.tuning.ring_order.index_of(model.place.rank),
        1,
        own_row_only(
            model.place.rank,
            model.world(),
            meant_for(plan, input, model.place.rank as int),
        ),
        bytes,
    )
}

/// The step of an exchange in which a rank hears from another.
proof fn lemma_step_for(ring: Seq<u32>, world_size: u32, position: int, place: int) -> (step: int)
    requires
        is_ring(world_size, ring),
        0 <= position < ring.len(),
        0 <= place < ring.len(),
        place != position,
    ensures
        0 < step < ring.len(),
        step_source(ring, position, step) == ring[place],
        step_destination(ring, place, step) == ring[position],
{
    let places = ring.len() as int;
    let step = (position - place) % places;
    lemma_mod_bound(position - place, places);
    lemma_sub_mod_noop_right(position, position - place, places);
    lemma_small_mod(place as nat, places as nat);
    assert((position - step) % places == place);
    lemma_add_mod_noop_right(place, position - place, places);
    lemma_small_mod(position as nat, places as nat);
    assert((place + step) % places == position);
    if step == 0 {
        assert((position - step) % places == position);
    }
    step
}

/// What a rank hears from another in its step is what that rank has for it.
proof fn lemma_heard<T, D: RankDevice<T>>(
    ring: Seq<u32>,
    world_size: u32,
    plans: Seq<Pairwise>,
    inputs: Seq<Seq<T>>,
    traces: Seq<Seq<TransportEvent>>,
    rank: int,
    source: int,
    step: int,
)
    requires
        faithful::<T, D>(),
        is_ring(world_size, ring),
        planned(plans, inputs),
        plans.len() == world_size,
        traces.len() == world_size,
        in_step(traces),
        0 <= rank < world_size,
        0 <= source < world_size,
        0 < step < world_size,
        step_source(ring, ring.index_of(rank as u32), step) == source,
        step_destination(ring, ring.index_of(source as u32), step) == rank,
        forall|r: int|
            #![trigger traces[r]]
            0 <= r < world_size ==> traces[r].len() == (world_size - 1) * (2 * plans[0].channels)
                && steps_ran::<T, D>(
                ring,
                plans[r],
                inputs[r],
                ring.index_of(r as u32),
                1,
                traces[r],
            ),
    ensures
        joined::<T, D>(parts_at(traces[rank], plans[0].channels, 1, step)) == meant_for(
            plans[source],
            inputs[source],
            rank,
        ),
{
    let channels = plans[0].channels;
    let plan = plans[source];
    let parts = parts_at(traces[rank], channels, 1, step);
    assert(plans[rank].channels == channels);
    assert(plan.channels == channels);
    let width = 2 * channels;
    assert((step - 1) * width >= 0) by (nonlinear_arith)
        requires
            step >= 1,
            width >= 0,
    ;
    assert((step - 1) * width + width <= (world_size - 1) * width) by (nonlinear_arith)
        requires
            step <= world_size - 1,
            width >= 0,
    ;
    assert(traces[rank].len() == traces[source].len());
    assert forall|c: int| 0 <= c < channels implies #[trigger] parts[c] == D::encoding(
        plan.part(inputs[source], rank as u32, c),
    ) by {
        let at = (step - 1) * (2 * channels) + 2 * c;
        let mine = plans[rank].part(
            inputs[rank],
            step_destination(ring, ring.index_of(rank as u32), step),
            c,
        );
        let theirs = plan.part(
            inputs[source],
            step_destination(ring, ring.index_of(source as u32), step),
            c,
        );
        assert(exchanged::<T, D>(mine, source as u32, traces[rank], at));
        assert(steps_ran::<T, D>(
            ring,
            plan,
            inputs[source],
            ring.index_of(source as u32),
            1,
            traces[source],
        ));
        assert(sent(traces[source][at].call) == D::encoding(theirs));
        assert(got(traces[rank][at + 1]) == sent(traces[source][at].call));
    }
    lemma_rows_apart(plan.send_counts, rank, rank);
    lemma_joined_parts::<T, D>(plan, inputs[source], rank as u32, parts, channels);
    law_balanced_partition(plan.send_counts[rank] as int, channels, 0);
    assert(parts.take(channels) =~= parts);
}

/// What the ranks hold after an exchange in which each receives in every call what
/// the other sent in the call before.
proof fn lemma_exchanged<T, D: RankDevice<T>>(
    models: Seq<CollectiveModel>,
    plans: Seq<Pairwise>,
    inputs: Seq<Seq<T>>,
    bytes: Seq<int>,
    traces: Seq<Seq<TransportEvent>>,
    results: Seq<(Seq<T>, int)>,
)
    requires
        faithful::<T, D>(),
        one_world(models),
        planned(plans, inputs),
        inputs.len() == models.len(),
        traces.len() == models.len(),
        results.len() == models.len(),
        in_step(traces),
        forall|r: int|
            #![trigger results[r]]
            0 <= r < models.len() ==> ran(
                pairwise_part::<T, D>(models[r], plans[r], inputs[r], bytes[r]),
                traces[r],
                results[r],
            ),
    ensures
        forall|r: int|
            0 <= r < models.len() ==> (#[trigger] results[r]).0 == laid_out(
                Seq::new(models.len(), |s: int| meant_for(plans[s], inputs[s], r)),
            ),
{
    let world_size = models.len() as u32;
    assert(models[0].valid() && models[0].place.world_size == models.len());
    let ring = models[0].tuning.ring_order;
    let channels = plans[0].channels;
    assert(is_ring(world_size, ring));
    let alls = Seq::new(
        models.len(),
        |r: int|
            choose|all: Seq<Seq<T>>|
                rows_after::<T, D>(
                    ring,
                    ring.index_of(r as u32),
                    channels,
                    1,
                    own_row_only(
                        r as u32,
                        models.len() as int,
                        meant_for(plans[r], inputs[r], r),
                    ),
                    traces[r],
                    all,
                ) && results[r].0 == laid_out(all),
    );
    assert forall|r: int| #![trigger traces[r]] 0 <= r < world_size implies traces[r].len() == (
    world_size - 1) * (2 * channels) && steps_ran::<T, D>(
        ring,
        plans[r],
        inputs[r],
        ring.index_of(r as u32),
        1,
        traces[r],
    ) && rows_after::<T, D>(
        ring,
        ring.index_of(r as u32),
        channels,
        1,
        own_row_only(r as u32, models.len() as int, meant_for(plans[r], inputs[r], r)),
        traces[r],
        alls[r],
    ) && results[r].0 == laid_out(alls[r]) by {
        let model = models[r];
        assert(model.tuning == models[0].tuning);
        assert(model.place.rank == r && model.place.world_size == models.len());
        assert(plans[r].channels == channels);
        lemma_ring_holds_all(world_size, ring, r as u32);
        assert(ran(
            pairwise_part::<T, D>(models[r], plans[r], inputs[r], bytes[r]),
            traces[r],
            results[r],
        ));
        let own = own_row_only(
            r as u32,
            models.len() as int,
            meant_for(plans[r], inputs[r], r),
        );
        let all = lemma_pairwise_ran::<T, D>(
            model,
            plans[r],
            inputs[r],
            ring.index_of(r as u32),
            1,
            own,
            bytes[r],
            traces[r],
            results[r],
        );
        assert(rows_after::<T, D>(
            ring,
            ring.index_of(r as u32),
            channels,
            1,
            own,
            traces[r],
            all,
        ) && results[r].0 == laid_out(all));
    }
    assert forall|r: int| 0 <= r < models.len() implies (#[trigger] results[r]).0 == laid_out(
        Seq::new(models.len(), |s: int| meant_for(plans[s], inputs[s], r)),
    ) by {
        let rows = Seq::new(models.len(), |s: int| meant_for(plans[s], inputs[s], r));
        assert(traces[r].len() == (world_size - 1) * (2 * channels));
        let position = ring.index_of(r as u32);
        lemma_ring_holds_all(world_size, ring, r as u32);
        assert forall|s: int| 0 <= s < models.len() implies alls[r][s] == rows[s] by {
            if s == r {
                assert forall|step: int| 1 <= step < ring.len() implies s != #[trigger] step_source(
                    ring,
                    position,
                    step,
                ) by {
                    lemma_small_mod(position as nat, ring.len());
                    assert(step_source(ring, position, 0) == r);
                    if step_source(ring, position, step) == s {
                        lemma_sources_differ(ring, world_size, position, 0, step);
                    }
                }
                assert(alls[r][s] == meant_for(plans[r], inputs[r], r));
            } else {
                lemma_ring_holds_all(world_size, ring, s as u32);
                let place = ring.index_of(s as u32);
                let step = lemma_step_for(ring, world_size, position, place);
                lemma_heard::<T, D>(
                    ring,
                    world_size,
                    plans,
                    inputs,
                    traces,
                    r,
                    s,
                    step,
                );
                assert(alls[r][step_source(ring, position, step) as int] == joined::<T, D>(
                    parts_at(traces[r], channels, 1, step),
                ));
            }
        }
        assert(alls[r] =~= rows);
    }
}

/// The hops of every rank of an exchange.
pub open spec fn exchange_hops(ring: Seq<u32>, plans: Seq<Pairwise>) -> Seq<Seq<Hop>> {
    Seq::new(
        plans.len(),
        |r: int|
            hops_from(
                pairwise_hops(ring, plans[r], ring.index_of(r as u32)),
                1,
                ring.len() as int,
            ),
    )
}

/// A rank of an exchange that runs its part to the end takes its hops.
proof fn lemma_exchange_took<T, D: RankDevice<T>>(
    models: Seq<CollectiveModel>,
    plans: Seq<Pairwise>,
    input: Seq<T>,
    bytes: int,
    trace: Seq<TransportEvent>,
    result: (Seq<T>, int),
    rank: int,
)
    requires
        one_world(models),
        plans.len() == models.len(),
        0 <= rank < models.len(),
        0 <= plans[rank].channels,
        ran(pairwise_part::<T, D>(models[rank], plans[rank], input, bytes), trace, result),
    ensures
        took(trace, exchange_hops(models[0].tuning.ring_order, plans)[rank]),
{
    let model = models[rank];
    assert(models[0].valid() && model.valid());
    assert(model.tuning == models[0].tuning);
    assert(model.place.rank == rank && model.place.world_size == models.len());
    let ring = model.tuning.ring_order;
    lemma_ring_holds_all(model.place.world_size, ring, rank as u32);
    let all = lemma_pairwise_ran::<T, D>(
        model,
        plans[rank],
        input,
        ring.index_of(rank as u32),
        1,
        own_row_only(
            model.place.rank,
            model.world(),
            meant_for(plans[rank], input, rank),
        ),
        bytes,
        trace,
        result,
    );
}

/// The hops of an exchange fit.
proof fn lemma_exchange_facing<T>(
    models: Seq<CollectiveModel>,
    plans: Seq<Pairwise>,
    inputs: Seq<Seq<T>>,
    rank: int,
    other: int,
)
    requires
        one_world(models),
        planned(plans, inputs),
        plans.len() == models.len(),
        0 <= rank < models.len(),
        0 <= other < models.len(),
    ensures
        facing(
            exchange_hops(models[0].tuning.ring_order, plans)[rank],
            rank as u32,
            exchange_hops(models[0].tuning.ring_order, plans)[other],
            other as u32,
        ),
{
    let ring = models[0].tuning.ring_order;
    assert(models[0].valid() && models[0].place.world_size == models.len());
    lemma_ring_holds_all(models.len() as u32, ring, rank as u32);
    lemma_ring_holds_all(models.len() as u32, ring, other as u32);
    assert(plans[rank].channels == plans[other].channels);
    lemma_pairwise_facing(
        ring,
        ring.index_of(rank as u32),
        plans[rank],
        ring.index_of(other as u32),
        plans[other],
    );
}

/// A pairwise exchange. Where every rank of a world runs its part to the end and
/// receives what the others send, each rank holds what each rank had for it, in
/// rank order.
pub proof fn law_pairwise_exchange<T, D: RankDevice<T>>(
    models: Seq<CollectiveModel>,
    plans: Seq<Pairwise>,
    inputs: Seq<Seq<T>>,
    bytes: Seq<int>,
    traces: Seq<Seq<TransportEvent>>,
    results: Seq<(Seq<T>, int)>,
)
    requires
        faithful::<T, D>(),
        one_world(models),
        planned(plans, inputs),
        inputs.len() == models.len(),
        traces.len() == models.len(),
        results.len() == models.len(),
        in_order_delivery(traces),
        forall|r: int|
            #![trigger results[r]]
            0 <= r < models.len() ==> ran(
                pairwise_part::<T, D>(models[r], plans[r], inputs[r], bytes[r]),
                traces[r],
                results[r],
            ),
    ensures
        forall|r: int|
            0 <= r < models.len() ==> (#[trigger] results[r]).0 == laid_out(
                Seq::new(models.len(), |s: int| meant_for(plans[s], inputs[s], r)),
            ),
{
    let hops = exchange_hops(models[0].tuning.ring_order, plans);
    assert forall|r: int| 0 <= r < traces.len() implies took(#[trigger] traces[r], hops[r]) by {
        assert(plans[r].channels == plans[0].channels);
        lemma_exchange_took::<T, D>(
            models,
            plans,
            inputs[r],
            bytes[r],
            traces[r],
            results[r],
            r,
        );
    }
    assert forall|r: int, s: int|
        #![trigger hops[r], hops[s]]
        0 <= r < traces.len() && 0 <= s < traces.len() implies facing(
        hops[r],
        r as u32,
        hops[s],
        s as u32,
    ) by {
        lemma_exchange_facing(models, plans, inputs, r, s);
    }
    assert(models[0].place.world_size == models.len());
    lemma_delivered_in_step(traces, hops);
    lemma_exchanged::<T, D>(models, plans, inputs, bytes, traces, results);
}

/// A pairwise all-to-all. Where every rank of a world runs its part to the end and
/// receives what the others send, each rank holds the shard that each rank had for
/// it, in rank order.
pub proof fn law_pairwise_all_to_all<T, D: RankDevice<T>>(
    models: Seq<CollectiveModel>,
    inputs: Seq<Seq<T>>,
    shard: usize,
    operation: u64,
    ring_channels: int,
    traces: Seq<Seq<TransportEvent>>,
    results: Seq<(Seq<T>, CollectiveStats)>,
)
    requires
        faithful::<T, D>(),
        one_world(models),
        inputs.len() == models.len(),
        traces.len() == models.len(),
        results.len() == models.len(),
        0 < ring_channels,
        in_order_delivery(traces),
        forall|r: int|
            0 <= r < inputs.len() ==> (#[trigger] inputs[r]).len() == shard * models.len(),
        forall|r: int|
            #![trigger results[r]]
            0 <= r < models.len() ==> ran(
                all_to_all_pairwise_script::<T, D>(
                    models[r],
                    inputs[r],
                    operation,
                    ring_channels,
                ),
                traces[r],
                results[r],
            ),
    ensures
        forall|r: int|
            0 <= r < models.len() ==> (#[trigger] results[r]).0 == laid_out(
                Seq::new(
                    models.len(),
                    |s: int| inputs[s].subrange(r * shard, r * shard + shard),
                ),
            ),
{
    let world = models.len() as int;
    let channels = effective_channels(ring_channels, shard as int);
    let rests = rest_of(traces, 1);
    let plans = Seq::new(
        models.len(),
        |r: int| shard_plan(models[r], shard, channels, operation),
    );
    let runs = Seq::new(
        models.len(),
        |r: int|
            choose|run: (Seq<T>, int)|
                ran(pairwise_part::<T, D>(models[r], plans[r], inputs[r], 0), rests[r], run) && run.0
                    == results[r].0,
    );
    lemma_uniform(shard, world, world);
    assert(uniform(shard, world).take(world) =~= uniform(shard, world));
    assert(world * shard == shard * world) by (nonlinear_arith);
    assert forall|r: int| #![trigger traces[r]] 0 <= r < models.len() implies traces[r].len() >= 1
        && traces[r][0].call is Exchange && ran(pairwise_part::<T, D>(models[r], plans[r], inputs[r], 0), rests[r], runs[r])
        && runs[r].0 == results[r].0 by {
        let model = models[r];
        assert(model.place.rank == r && model.place.world_size == models.len() && model.valid());
        assert(inputs[r].len() == shard * models.len());
        lemma_div_multiples_vanish(shard as int, world);
        assert(world * shard == shard * world);
        assert(inputs[r].len() as int / model.world() == shard);
        lemma_ring_holds_all(
            model.place.world_size,
            model.tuning.ring_order,
            model.place.rank,
        );
        lemma_uniform(shard, world, r);
        let agreed = pairwise_agreed::<T, D>(model, inputs[r], shard, channels, operation);
        assert(ran(
            all_to_all_pairwise_script::<T, D>(model, inputs[r], operation, ring_channels),
            traces[r],
            results[r],
        ));
        lemma_agreed(
            fnv(
                agreement_bytes(
                    operation,
                    inputs[r].len() as u64,
                    model.channel_rings(channels),
                    0x400,
                    channels as u64,
                    model.channel_rails(channels),
                ),
            ),
            "invalid ring collective agreement response"@,
            agreed,
            traces[r],
            results[r],
        );
        let rest = traces[r].skip(1);
        let part = pairwise_part::<T, D>(model, plans[r], inputs[r], 0);
        assert(meant_for(plans[r], inputs[r], r) == inputs[r].subrange(
            r * shard,
            r * shard + shard,
        ));
        assert(agreed(()) == tried(part, false, pairwise_finished::<T, D>(model)));
        let (j, run) = lemma_ran_tried(
            part,
            false,
            pairwise_finished::<T, D>(model),
            rest,
            results[r],
        );
        let end = pairwise_finished::<T, D>(model)(run);
        lemma_over(end->Done_0, rest.skip(j));
        assert(rest.take(j) =~= rest);
        assert(ran(part, rests[r], run) && run.0 == results[r].0);
    }
    lemma_rest_delivered(traces);
    assert forall|r: int| #![trigger plans[r]] 0 <= r < plans.len() implies {
        &&& 0 < plans[r].channels == plans[0].channels
        &&& plans[r].operation == plans[0].operation
        &&& plans[r].phase == plans[0].phase
        &&& plans[r].send_counts.len() == plans.len()
        &&& sum_usize(plans[r].send_counts) == inputs[r].len()
    } by {
        assert(models[r].place.world_size == models.len());
        assert(inputs[r].len() == shard * models.len());
    }
    let none = Seq::new(models.len(), |r: int| 0int);
    assert forall|r: int| #![trigger runs[r]] 0 <= r < models.len() implies ran(
        pairwise_part::<T, D>(models[r], plans[r], inputs[r], none[r]),
        rests[r],
        runs[r],
    ) by {
        assert(traces[r].len() >= 1);
    }
    law_pairwise_exchange::<T, D>(models, plans, inputs, none, rests, runs);
    assert forall|r: int| 0 <= r < models.len() implies (#[trigger] results[r]).0 == laid_out(
        Seq::new(models.len(), |s: int| inputs[s].subrange(r * shard, r * shard + shard)),
    ) by {
        assert(traces[r].len() >= 1);
        let one = Seq::new(models.len(), |s: int| meant_for(plans[s], inputs[s], r));
        let other = Seq::new(
            models.len(),
            |s: int| inputs[s].subrange(r * shard, r * shard + shard),
        );
        assert(runs[r].0 == laid_out(one));
        lemma_uniform(shard, world, r);
        assert forall|s: int| 0 <= s < models.len() implies one[s] == other[s] by {
            assert(models[s].place.world_size == models.len());
            assert(plans[s].send_counts == uniform(shard, world));
        }
        assert(one =~= other);
    }
}

/// A step of a count exchange: one count goes out and one comes in.
pub open spec fn count_step(
    ring: Seq<u32>,
    send_counts: Seq<usize>,
    position: int,
    from: int,
    events: Seq<TransportEvent>,
    all: Seq<usize>,
    step: int,
) -> bool {
    let at = 2 * (step - from);
    let source = step_source(ring, position, step);
    &&& sent(events[at].call) == spec_u64_to_le_bytes(
        send_counts[step_destination(ring, position, step) as int] as u64,
    )
    &&& events[at + 1].call matches TransportCall::Receive { source: Some(from), .. } && from
        == source
    &&& events[at + 1].reply.frame() is Ok
    &&& all[source as int] == spec_u64_from_le_bytes(got(events[at + 1]))
}

/// The counts once the steps from `from` on are through: each step sends one
/// count and brings one.
pub open spec fn counts_ran(
    ring: Seq<u32>,
    send_counts: Seq<usize>,
    position: int,
    from: int,
    counts: Seq<usize>,
    events: Seq<TransportEvent>,
    all: Seq<usize>,
) -> bool {
    &&& events.len() == 2 * (ring.len() - from)
    &&& all.len() == counts.len()
    &&& forall|step: int|
        from <= step < ring.len() ==> #[trigger] count_step(
            ring,
            send_counts,
            position,
            from,
            events,
            all,
            step,
        )
    &&& forall|rank: int|
        #![trigger all[rank]]
        0 <= rank < counts.len() && (forall|step: int|
            from <= step < ring.len() ==> rank != #[trigger] step_source(ring, position, step))
            ==> all[rank] == counts[rank]
}

/// An exchange of host payloads that succeeds is a send and a receive.
pub proof fn lemma_host_payload_ran<E>(
    order: Seq<usize>,
    element_type: ElementType,
    payload: Seq<u8>,
    receive_bytes: int,
    destination: u32,
    source: u32,
    rail_hint: int,
    tag: u64,
    events: Seq<TransportEvent>,
    bytes: Seq<u8>,
)
    requires
        ran(
            host_payload_script::<E>(
                order,
                element_type,
                payload,
                receive_bytes,
                destination,
                source,
                rail_hint,
                tag,
            ),
            events,
            bytes,
        ),
    ensures
        events.len() == 2,
        sent(events[0].call) == payload,
        events[1].call matches TransportCall::Receive { source: Some(from), .. } && from == source,
        events[1].reply.frame() is Ok,
        got(events[1]) == bytes,
        hop_taken(Hop { destination, source, tag }, events[0], events[1]),
{
    let script = host_payload_script::<E>(
        order,
        element_type,
        payload,
        receive_bytes,
        destination,
        source,
        rail_hint,
        tag,
    );
    if script is Done {
        lemma_over(script->Done_0, events);
    }
    lemma_ran_ask(script->Ask_0, script->Ask_1, events, bytes);
    let second = (script->Ask_1)(events[0].reply);
    match events[0].reply.outcome() {
        Err(failure) => {
            lemma_over(second->Done_0, events.skip(1));
        },
        Ok(()) => {
            lemma_ran_ask(second->Ask_0, second->Ask_1, events.skip(1), bytes);
            assert(events.skip(1)[0] == events[1]);
            let third = (second->Ask_1)(events[1].reply);
            assert(third == host_payload_received::<E>(receive_bytes, events[1].reply));
            lemma_over(third->Done_0, events.skip(1).skip(1));
            assert(events.len() == 2);
        },
    }
}

/// The hops of a rank in each step of a count exchange.
pub open spec fn count_hops(ring: Seq<u32>, operation: u64, position: int) -> spec_fn(
    int,
) -> Seq<Hop> {
    |step: int|
        seq![
            Hop {
                destination: step_destination(ring, position, step),
                source: step_source(ring, position, step),
                tag: ring_tag(operation, 0, 0, step as u64),
            },
        ]
}

/// The hops of any two ranks of a count exchange fit.
proof fn lemma_counts_facing(ring: Seq<u32>, operation: u64, place: int, other: int)
    requires
        ring.no_duplicates(),
        0 <= place < ring.len(),
        0 <= other < ring.len(),
    ensures
        facing(
            hops_from(count_hops(ring, operation, place), 1, ring.len() as int),
            ring[place],
            hops_from(count_hops(ring, operation, other), 1, ring.len() as int),
            ring[other],
        ),
{
    let own = count_hops(ring, operation, place);
    let others = count_hops(ring, operation, other);
    assert forall|step: int| 1 <= step < ring.len() implies facing(
        #[trigger] own(step),
        ring[place],
        others(step),
        ring[other],
    ) by {
        lemma_neighbours(ring, place, other, step);
    }
    lemma_facing_channels(own, ring[place], others, ring[other], 1, ring.len() as int);
}

/// A count exchange that succeeds goes step by step.
proof fn lemma_counts_ran<E>(
    model: CollectiveModel,
    send_counts: Seq<usize>,
    operation: u64,
    step: int,
    counts: Seq<usize>,
    bytes: int,
    events: Seq<TransportEvent>,
    last: (Seq<usize>, int),
)
    requires
        ran(
            counts_script::<E>(model, send_counts, operation, step, counts, bytes),
            events,
            last,
        ),
        is_ring(model.place.world_size, model.tuning.ring_order),
        model.place.rank < model.place.world_size,
        0 < step <= model.world(),
        counts.len() == model.world(),
    ensures
        counts_ran(
            model.tuning.ring_order,
            send_counts,
            model.tuning.ring_order.index_of(model.place.rank),
            step,
            counts,
            events,
            last.0,
        ),
        took(
            events,
            hops_from(
                count_hops(
                    model.tuning.ring_order,
                    operation,
                    model.tuning.ring_order.index_of(model.place.rank),
                ),
                step,
                model.world(),
            ),
        ),
    decreases model.world() - step,
{
    let ring = model.tuning.ring_order;
    let world = model.world();
    let position = ring.index_of(model.place.rank);
    lemma_ring_holds_all(model.place.world_size, ring, model.place.rank);
    if step == world {
        lemma_over::<(Seq<usize>, int), E>(Ok((counts, bytes)), events);
    } else {
        let destination = step_destination(ring, position, step);
        let source = step_source(ring, position, step);
        lemma_mod_bound(position - step, world);
        let payload = spec_u64_to_le_bytes(send_counts[destination as int] as u64);
        let tag = ring_tag(operation, 0, 0, step as u64);
        let first = host_payload_script::<E>(
            model.rails,
            ElementType::U8,
            payload,
            8,
            destination,
            source,
            0,
            tag,
        );
        let onward = counts_next::<E>(model, send_counts, operation, step, counts, bytes);
        let (k, received) = lemma_ran_tried(first, false, onward, events, last);
        lemma_host_payload_ran::<E>(
            model.rails,
            ElementType::U8,
            payload,
            8,
            destination,
            source,
            0,
            tag,
            events.take(k),
            received,
        );
        assert(events.take(k)[0] == events[0]);
        assert(events.take(k)[1] == events[1]);
        let rest = events.skip(2);
        let count = spec_u64_from_le_bytes(received);
        let then = onward(received);
        if then is Done {
            lemma_over(then->Done_0, rest);
        }
        let now = counts.update(source as int, count as usize);
        lemma_counts_ran::<E>(
            model,
            send_counts,
            operation,
            step + 1,
            now,
            bytes + 16,
            rest,
            last,
        );
        let each = count_hops(ring, operation, position);
        assert(took(events.take(2), each(step)));
        lemma_took_parts(events.take(2), each(step), rest, hops_from(each, step + 1, world));
        assert(events.take(2) + rest =~= events);
        let all = last.0;
        assert forall|s: int| step <= s < ring.len() implies #[trigger] count_step(
            ring,
            send_counts,
            position,
            step,
            events,
            all,
            s,
        ) by {
            if s == step {
                assert forall|t: int| step + 1 <= t < ring.len() implies source
                    != #[trigger] step_source(ring, position, t) by {
                    if source == step_source(ring, position, t) {
                        lemma_sources_differ(ring, model.place.world_size, position, step, t);
                    }
                }
                assert(all[source as int] == now[source as int]);
            } else {
                let at = 2 * (s - (step + 1));
                assert(count_step(ring, send_counts, position, step + 1, rest, all, s));
                assert(rest[at] == events[at + 2]);
                assert(rest[at + 1] == events[at + 3]);
            }
        }
        assert forall|rank: int|
            #![trigger all[rank]]
            0 <= rank < counts.len() && (forall|s: int|
                step <= s < ring.len() ==> rank != #[trigger] step_source(
                    ring,
                    position,
                    s,
                )) implies all[rank] == counts[rank] by {
            assert(rank != step_source(ring, position, step));
            assert(all[rank] == now[rank]);
        }
    }
}

/// What the ranks learn from the count exchange: how many elements each has for
/// them.
proof fn lemma_counts_heard(
    ring: Seq<u32>,
    world_size: u32,
    sends: Seq<Seq<usize>>,
    traces: Seq<Seq<TransportEvent>>,
    learnt: Seq<Seq<usize>>,
    rank: int,
)
    requires
        is_ring(world_size, ring),
        sends.len() == world_size,
        traces.len() == world_size,
        learnt.len() == world_size,
        in_step(traces),
        0 <= rank < world_size,
        forall|r: int|
            #![trigger traces[r]]
            0 <= r < world_size ==> learnt[r].len() == world_size && counts_ran(
                ring,
                sends[r],
                ring.index_of(r as u32),
                1,
                Seq::new(
                    world_size as nat,
                    |s: int|
                        if s == r {
                            sends[r][s]
                        } else {
                            0
                        },
                ),
                traces[r],
                learnt[r],
            ),
    ensures
        learnt[rank] == Seq::new(world_size as nat, |s: int| sends[s][rank]),
{
    let expected = Seq::new(world_size as nat, |s: int| sends[s][rank]);
    let position = ring.index_of(rank as u32);
    lemma_ring_holds_all(world_size, ring, rank as u32);
    assert(traces[rank].len() == 2 * (world_size - 1));
    assert forall|s: int| 0 <= s < world_size implies learnt[rank][s] == expected[s] by {
        if s == rank {
            assert forall|step: int| 1 <= step < ring.len() implies s != #[trigger] step_source(
                ring,
                position,
                step,
            ) by {
                lemma_small_mod(position as nat, ring.len());
                assert(step_source(ring, position, 0) == rank);
                if step_source(ring, position, step) == s {
                    lemma_sources_differ(ring, world_size, position, 0, step);
                }
            }
            assert(learnt[rank][s] == sends[rank][s]);
        } else {
            lemma_ring_holds_all(world_size, ring, s as u32);
            let place = ring.index_of(s as u32);
            let step = lemma_step_for(ring, world_size, position, place);
            let at = 2 * (step - 1);
            assert(traces[s].len() == 2 * (world_size - 1));
            assert(count_step(ring, sends[rank], position, 1, traces[rank], learnt[rank], step));
            assert(count_step(ring, sends[s], place, 1, traces[s], learnt[s], step));
            assert(got(traces[rank][at + 1]) == sent(traces[s][at].call));
            lemma_auto_spec_u64_to_from_le_bytes();
        }
    }
    assert(learnt[rank] =~= expected);
}

/// A rank's part in a pairwise variable all-to-all is an agreement, the count
/// exchange and the exchange of the elements.
proof fn lemma_variable_run<T, D: RankDevice<T>>(
    model: CollectiveModel,
    input: Seq<T>,
    send_counts: Seq<usize>,
    operation: u64,
    ring_channels: int,
    trace: Seq<TransportEvent>,
    result: VariableModel<T>,
) -> (run: (int, (Seq<T>, int)))
    requires
        model.valid(),
        ran(
            all_to_all_v_pairwise_script::<T, D>(
                model,
                input,
                send_counts,
                operation,
                ring_channels,
            ),
            trace,
            result,
        ),
    ensures
        trace.len() >= 2 * model.world() - 1,
        trace[0].call is Exchange,
        took(
            trace.subrange(1, 2 * model.world() - 1),
            hops_from(
                count_hops(
                    model.tuning.ring_order,
                    operation,
                    model.tuning.ring_order.index_of(model.place.rank),
                ),
                1,
                model.world(),
            ),
        ),
        counts_ran(
            model.tuning.ring_order,
            send_counts,
            model.tuning.ring_order.index_of(model.place.rank),
            1,
            own_count_only(model, send_counts),
            trace.subrange(1, 2 * model.world() - 1),
            result.counts,
        ),
        ran(
            pairwise_part::<T, D>(
                model,
                variable_plan(
                    send_counts,
                    result.counts,
                    if ring_channels < 1 {
                        1
                    } else {
                        ring_channels
                    },
                    operation,
                ),
                input,
                run.0,
            ),
            trace.skip(2 * model.world() - 1),
            run.1,
        ),
        result.buffer == (if sum_usize(result.counts) == 0 {
            None::<Seq<T>>
        } else {
            Some(run.1.0)
        }),
{
    let channels = if ring_channels < 1 {
        1
    } else {
        ring_channels
    };
    let ring = model.tuning.ring_order;
    lemma_ring_holds_all(model.place.world_size, ring, model.place.rank);
    let agreed = pairwise_v_agreed::<T, D>(model, input, send_counts, channels, operation);
    lemma_agreed(
        fnv(
            agreement_bytes(
                operation,
                0,
                model.channel_rings(channels),
                0x500,
                channels as u64,
                model.channel_rails(channels),
            ),
        ),
        "invalid ring collective agreement response"@,
        agreed,
        trace,
        result,
    );
    let rest = trace.skip(1);
    let own = own_count_only(model, send_counts);
    let counting = counts_script::<D::Error>(model, send_counts, operation, 1, own, 0);
    let counted = pairwise_v_counted::<T, D>(model, input, send_counts, channels, operation);
    assert(agreed(()) == tried(counting, false, counted));
    let (k, learnt) = lemma_ran_tried(counting, false, counted, rest, result);
    lemma_counts_ran::<D::Error>(
        model,
        send_counts,
        operation,
        1,
        own,
        0,
        rest.take(k),
        learnt,
    );
    assert(k == 2 * (model.world() - 1));
    assert(rest.take(k) =~= trace.subrange(1, 2 * model.world() - 1));
    let then = counted(learnt);
    let last = rest.skip(k);
    assert(last =~= trace.skip(2 * model.world() - 1));
    if sum_usize(learnt.0) > usize::MAX {
        lemma_over(then->Done_0, last);
    }
    let part = pairwise_part::<T, D>(
        model,
        variable_plan(send_counts, learnt.0, channels, operation),
        input,
        learnt.1,
    );
    let finished = pairwise_v_finished::<T, D>(model, learnt.0);
    assert(then == tried(part, false, finished));
    let (j, run) = lemma_ran_tried(part, false, finished, last, result);
    let end = finished(run);
    lemma_over(end->Done_0, last.skip(j));
    assert(last.take(j) =~= last);
    (learnt.1, run)
}

/// In a variable all-to-all each rank receives in every call what the other sent in
/// the call before: in the count exchange, and in the exchange of the elements.
proof fn lemma_variable_in_step<T, D: RankDevice<T>>(
    models: Seq<CollectiveModel>,
    plans: Seq<Pairwise>,
    inputs: Seq<Seq<T>>,
    operation: u64,
    bytes: Seq<int>,
    traces: Seq<Seq<TransportEvent>>,
    ends: Seq<(Seq<T>, int)>,
)
    requires
        one_world(models),
        planned(plans, inputs),
        plans.len() == models.len(),
        traces.len() == models.len(),
        ends.len() == models.len(),
        in_order_delivery(traces),
        forall|r: int|
            0 <= r < traces.len() ==> (#[trigger] traces[r]).len() >= 2 * models.len() - 1
                && traces[r][0].call is Exchange && took(
                part_of(traces, 1, 2 * models.len() - 1)[r],
                hops_from(
                    count_hops(
                        models[0].tuning.ring_order,
                        operation,
                        models[0].tuning.ring_order.index_of(r as u32),
                    ),
                    1,
                    models.len() as int,
                ),
            ),
        forall|r: int|
            #![trigger ends[r]]
            0 <= r < models.len() ==> ran(
                pairwise_part::<T, D>(models[r], plans[r], inputs[r], bytes[r]),
                rest_of(traces, 2 * models.len() - 1)[r],
                ends[r],
            ),
    ensures
        in_step(part_of(traces, 1, 2 * models.len() - 1)),
        in_step(rest_of(traces, 2 * models.len() - 1)),
{
    let world = models.len() as int;
    let ring = models[0].tuning.ring_order;
    assert(models[0].valid() && models[0].place.world_size == models.len());
    let counting = part_of(traces, 1, 2 * world - 1);
    let moving = rest_of(traces, 2 * world - 1);
    let all = rest_of(traces, 1);
    let counts = Seq::new(
        models.len(),
        |r: int| hops_from(count_hops(ring, operation, ring.index_of(r as u32)), 1, world),
    );
    let moves = exchange_hops(ring, plans);
    let hops = Seq::new(models.len(), |r: int| counts[r] + moves[r]);
    lemma_rest_delivered(traces);
    assert forall|r: int| 0 <= r < all.len() implies took(#[trigger] all[r], hops[r]) by {
        assert(traces[r].len() >= 2 * world - 1);
        assert(plans[r].channels == plans[0].channels);
        lemma_exchange_took::<T, D>(
            models,
            plans,
            inputs[r],
            bytes[r],
            moving[r],
            ends[r],
            r,
        );
        lemma_took_parts(counting[r], counts[r], moving[r], moves[r]);
        assert(all[r] =~= counting[r] + moving[r]);
    }
    assert forall|r: int, s: int|
        #![trigger hops[r], hops[s]]
        0 <= r < all.len() && 0 <= s < all.len() implies facing(
        hops[r],
        r as u32,
        hops[s],
        s as u32,
    ) by {
        lemma_ring_holds_all(models.len() as u32, ring, r as u32);
        lemma_ring_holds_all(models.len() as u32, ring, s as u32);
        lemma_counts_facing(
            ring,
            operation,
            ring.index_of(r as u32),
            ring.index_of(s as u32),
        );
        lemma_exchange_facing(models, plans, inputs, r, s);
        lemma_facing_parts(counts[r], moves[r], r as u32, counts[s], moves[s], s as u32);
    }
    lemma_delivered_in_step(all, hops);
    assert forall|r: int| 0 <= r < all.len() implies 2 * world - 2 <= (#[trigger] all[r]).len() by {
        assert(traces[r].len() >= 2 * world - 1);
    }
    lemma_part_in_step(all, 0, 2 * world - 2);
    lemma_rest_in_step(all, 2 * world - 2);
    assert forall|r: int| 0 <= r < all.len() implies part_of(all, 0, 2 * world - 2)[r]
        == counting[r] && rest_of(all, 2 * world - 2)[r] == moving[r] by {
        assert(traces[r].len() >= 2 * world - 1);
        assert(part_of(all, 0, 2 * world - 2)[r] =~= counting[r]);
        assert(rest_of(all, 2 * world - 2)[r] =~= moving[r]);
    }
    assert(part_of(all, 0, 2 * world - 2) =~= counting);
    assert(rest_of(all, 2 * world - 2) =~= moving);
}

/// The call that a pairwise variable all-to-all starts with.
pub open spec fn v_agreement(
    model: CollectiveModel,
    operation: u64,
    ring_channels: int,
) -> TransportCall {
    let channels = if ring_channels < 1 {
        1
    } else {
        ring_channels
    };
    TransportCall::Exchange {
        opcode: Opcode::Barrier,
        element_type: ElementType::Untyped,
        options: ExchangeOptions {
            root_rank: ANY_RANK,
            element_count: 0,
            flags: 0,
            tag: fnv(
                agreement_bytes(
                    operation,
                    0,
                    model.channel_rings(channels),
                    0x500,
                    channels as u64,
                    model.channel_rails(channels),
                ),
            ),
        },
        payload: Seq::empty(),
    }
}

/// Ranks with one tuning start with the same call.
proof fn lemma_same_agreement(
    model: CollectiveModel,
    other: CollectiveModel,
    operation: u64,
    ring_channels: int,
)
    requires
        model.valid(),
        other.valid(),
        model.tuning == other.tuning,
    ensures
        v_agreement(model, operation, ring_channels) == v_agreement(
            other,
            operation,
            ring_channels,
        ),
{
    let channels = if ring_channels < 1 {
        1
    } else {
        ring_channels
    };
    assert(model.channel_rings(channels) =~= other.channel_rings(channels));
    assert(model.channel_rails(channels) =~= other.channel_rails(channels));
}

/// What a rank reports of a pairwise variable all-to-all, and its first call.
proof fn lemma_variable_cost<T, D: RankDevice<T>>(
    model: CollectiveModel,
    input: Seq<T>,
    send_counts: Seq<usize>,
    operation: u64,
    ring_channels: int,
    events: Seq<TransportEvent>,
    value: VariableModel<T>,
)
    requires
        ran(
            all_to_all_v_pairwise_script::<T, D>(
                model,
                input,
                send_counts,
                operation,
                ring_channels,
            ),
            events,
            value,
        ),
    ensures
        value.stats.algorithm == CollectiveAlgorithm::Pairwise,
        value.stats.steps == (2 * (model.world() - 1)) as u32,
        value.stats.reduction_kernel_launches == 0,
        0 < events.len(),
        events[0].call == v_agreement(model, operation, ring_channels),
{
    let channels = if ring_channels < 1 {
        1
    } else {
        ring_channels
    };
    let script = all_to_all_v_pairwise_script::<T, D>(
        model,
        input,
        send_counts,
        operation,
        ring_channels,
    );
    if !model.tuning.ring_order.contains(model.place.rank) {
        lemma_over(script->Done_0, events);
    } else {
        let agreed = pairwise_v_agreed::<T, D>(model, input, send_counts, channels, operation);
        lemma_ran_ask(script->Ask_0, script->Ask_1, events, value);
        let (k, done) = lemma_ran_tried(
            model.ring_agreement(operation, 0, 0x500, channels),
            false,
            agreed,
            events,
            value,
        );
        let rest = events.skip(k);
        let counted = pairwise_v_counted::<T, D>(model, input, send_counts, channels, operation);
        let (l, learnt) = lemma_ran_tried(
            counts_script(
                model,
                send_counts,
                operation,
                1,
                own_count_only(model, send_counts),
                0,
            ),
            false,
            counted,
            rest,
            value,
        );
        let moving = rest.skip(l);
        if sum_usize(learnt.0) > usize::MAX {
            lemma_over(counted(learnt)->Done_0, moving);
        } else {
            let own = offset_of(send_counts, model.place.rank as int);
            let finished = pairwise_v_finished::<T, D>(model, learnt.0);
            let (m, run) = lemma_ran_tried(
                pairwise_script::<T, D>(
                    model,
                    variable_plan(send_counts, learnt.0, channels, operation),
                    input,
                    model.tuning.ring_order.index_of(model.place.rank),
                    1,
                    own_row_only(
                        model.place.rank,
                        model.world(),
                        input.subrange(own, own + send_counts[model.place.rank as int]),
                    ),
                    learnt.1,
                ),
                false,
                finished,
                moving,
                value,
            );
            lemma_over(finished(run)->Done_0, moving.skip(m));
        }
    }
}

/// A pairwise variable all-to-all. Where every rank of a world runs its part to
/// the end and receives what the others send, each rank learns how many elements
/// each rank had for it and holds those elements, in rank order; it has no buffer
/// where there are none. All ranks report the same steps, and the agreement that
/// each of them starts with is the same call, whatever its lengths and counts.
pub proof fn law_pairwise_all_to_all_v<T, D: RankDevice<T>>(
    models: Seq<CollectiveModel>,
    inputs: Seq<Seq<T>>,
    sends: Seq<Seq<usize>>,
    operation: u64,
    ring_channels: int,
    traces: Seq<Seq<TransportEvent>>,
    results: Seq<VariableModel<T>>,
)
    requires
        faithful::<T, D>(),
        one_world(models),
        inputs.len() == models.len(),
        sends.len() == models.len(),
        traces.len() == models.len(),
        results.len() == models.len(),
        in_order_delivery(traces),
        forall|r: int|
            #![trigger sends[r]]
            0 <= r < sends.len() ==> sends[r].len() == models.len() && sum_usize(sends[r])
                == inputs[r].len(),
        forall|r: int|
            #![trigger results[r]]
            0 <= r < models.len() ==> ran(
                all_to_all_v_pairwise_script::<T, D>(
                    models[r],
                    inputs[r],
                    sends[r],
                    operation,
                    ring_channels,
                ),
                traces[r],
                results[r],
            ),
    ensures
        forall|r: int|
            0 <= r < models.len() ==> (#[trigger] results[r]).counts == Seq::new(
                models.len(),
                |s: int| sends[s][r],
            ),
        forall|r: int|
            0 <= r < models.len() ==> (#[trigger] results[r]).buffer == (if sum_usize(
                results[r].counts,
            ) == 0 {
                None::<Seq<T>>
            } else {
                Some(
                    laid_out(
                        Seq::new(
                            models.len(),
                            |s: int|
                                inputs[s].subrange(
                                    offset_of(sends[s], r),
                                    offset_of(sends[s], r) + sends[s][r],
                                ),
                        ),
                    ),
                )
            }),
        forall|r: int|
            0 <= r < models.len() ==> {
                &&& (#[trigger] results[r]).stats.algorithm == CollectiveAlgorithm::Pairwise
                &&& results[r].stats.steps == (2 * (models.len() - 1)) as u32
                &&& results[r].stats.reduction_kernel_launches == 0
                &&& 0 < traces[r].len()
                &&& traces[r][0].call == v_agreement(models[0], operation, ring_channels)
            },
{
    assert forall|r: int| 0 <= r < models.len() implies {
        &&& (#[trigger] results[r]).stats.algorithm == CollectiveAlgorithm::Pairwise
        &&& results[r].stats.steps == (2 * (models.len() - 1)) as u32
        &&& results[r].stats.reduction_kernel_launches == 0
        &&& 0 < traces[r].len()
        &&& traces[r][0].call == v_agreement(models[0], operation, ring_channels)
    } by {
        assert(models[0].valid());
        assert(models[r].valid() && models[r].tuning == models[0].tuning);
        lemma_variable_cost::<T, D>(
            models[r],
            inputs[r],
            sends[r],
            operation,
            ring_channels,
            traces[r],
            results[r],
        );
        lemma_same_agreement(models[r], models[0], operation, ring_channels);
    }
    let world_size = models.len() as u32;
    let world = models.len() as int;
    assert(models[0].valid() && models[0].place.world_size == models.len());
    let ring = models[0].tuning.ring_order;
    let channels = if ring_channels < 1 {
        1
    } else {
        ring_channels
    };
    let counting = part_of(traces, 1, 2 * world - 1);
    let rests = rest_of(traces, 2 * world - 1);
    let learnt = Seq::new(models.len(), |r: int| results[r].counts);
    let plans = Seq::new(
        models.len(),
        |r: int| variable_plan(sends[r], results[r].counts, channels, operation),
    );
    let runs = Seq::new(
        models.len(),
        |r: int|
            choose|run: (int, (Seq<T>, int))|
                ran(
                    pairwise_part::<T, D>(models[r], plans[r], inputs[r], run.0),
                    rests[r],
                    run.1,
                ) && results[r].buffer == (if sum_usize(results[r].counts) == 0 {
                    None::<Seq<T>>
                } else {
                    Some(run.1.0)
                }),
    );
    assert forall|r: int| #![trigger traces[r]] 0 <= r < models.len() implies traces[r].len() >= 2
        * world - 1 && traces[r][0].call is Exchange && took(
        counting[r],
        hops_from(count_hops(ring, operation, ring.index_of(r as u32)), 1, world),
    ) && learnt[r].len() == world_size && counts_ran(
        ring,
        sends[r],
        ring.index_of(r as u32),
        1,
        Seq::new(
            world_size as nat,
            |s: int|
                if s == r {
                    sends[r][s]
                } else {
                    0
                },
        ),
        counting[r],
        learnt[r],
    ) && ran(
        pairwise_part::<T, D>(models[r], plans[r], inputs[r], runs[r].0),
        rests[r],
        runs[r].1,
    ) && results[r].buffer == (if sum_usize(results[r].counts) == 0 {
        None::<Seq<T>>
    } else {
        Some(runs[r].1.0)
    }) by {
        let model = models[r];
        assert(model.valid() && model.place.rank == r && model.place.world_size == models.len());
        assert(model.tuning == models[0].tuning);
        assert(ran(
            all_to_all_v_pairwise_script::<T, D>(
                models[r],
                inputs[r],
                sends[r],
                operation,
                ring_channels,
            ),
            traces[r],
            results[r],
        ));
        let run = lemma_variable_run::<T, D>(
            model,
            inputs[r],
            sends[r],
            operation,
            ring_channels,
            traces[r],
            results[r],
        );
        assert(own_count_only(model, sends[r]) =~= Seq::new(
            world_size as nat,
            |s: int|
                if s == r {
                    sends[r][s]
                } else {
                    0
                },
        ));
        assert(ran(
            pairwise_part::<T, D>(models[r], plans[r], inputs[r], run.0),
            rests[r],
            run.1,
        ) && results[r].buffer == (if sum_usize(results[r].counts) == 0 {
            None::<Seq<T>>
        } else {
            Some(run.1.0)
        }));
    }
    assert forall|r: int| #![trigger plans[r]] 0 <= r < plans.len() implies {
        &&& 0 < plans[r].channels == plans[0].channels
        &&& plans[r].operation == plans[0].operation
        &&& plans[r].phase == plans[0].phase
        &&& plans[r].send_counts.len() == plans.len()
        &&& sum_usize(plans[r].send_counts) == inputs[r].len()
    } by {
        assert(sends[r].len() == models.len());
    }
    let bytes = Seq::new(models.len(), |r: int| runs[r].0);
    let ends = Seq::new(models.len(), |r: int| runs[r].1);
    assert forall|r: int| #![trigger ends[r]] 0 <= r < models.len() implies ran(
        pairwise_part::<T, D>(models[r], plans[r], inputs[r], bytes[r]),
        rests[r],
        ends[r],
    ) by {
        assert(traces[r].len() >= 2 * world - 1);
    }
    assert forall|r: int| 0 <= r < traces.len() implies (#[trigger] traces[r]).len() >= 2 * world
        - 1 && traces[r][0].call is Exchange && took(
        counting[r],
        hops_from(count_hops(ring, operation, ring.index_of(r as u32)), 1, world),
    ) by {}
    lemma_variable_in_step::<T, D>(
        models,
        plans,
        inputs,
        operation,
        bytes,
        traces,
        ends,
    );
    assert forall|r: int| #![trigger counting[r]] 0 <= r < world_size implies learnt[r].len()
        == world_size && counts_ran(
        ring,
        sends[r],
        ring.index_of(r as u32),
        1,
        Seq::new(
            world_size as nat,
            |s: int|
                if s == r {
                    sends[r][s]
                } else {
                    0
                },
        ),
        counting[r],
        learnt[r],
    ) by {
        assert(traces[r].len() >= 2 * world - 1);
    }
    assert forall|r: int| 0 <= r < models.len() implies (#[trigger] results[r]).counts == Seq::new(
        models.len(),
        |s: int| sends[s][r],
    ) by {
        lemma_counts_heard(ring, world_size, sends, counting, learnt, r);
        assert(learnt[r] == results[r].counts);
    }
    lemma_exchanged::<T, D>(models, plans, inputs, bytes, rests, ends);
    assert forall|r: int| 0 <= r < models.len() implies (#[trigger] results[r]).buffer == (
    if sum_usize(results[r].counts) == 0 {
        None::<Seq<T>>
    } else {
        Some(
            laid_out(
                Seq::new(
                    models.len(),
                    |s: int|
                        inputs[s].subrange(
                            offset_of(sends[s], r),
                            offset_of(sends[s], r) + sends[s][r],
                        ),
                ),
            ),
        )
    }) by {
        assert(traces[r].len() >= 2 * world - 1);
        let one = Seq::new(models.len(), |s: int| meant_for(plans[s], inputs[s], r));
        let other = Seq::new(
            models.len(),
            |s: int|
                inputs[s].subrange(
                    offset_of(sends[s], r),
                    offset_of(sends[s], r) + sends[s][r],
                ),
        );
        assert(ends[r].0 == laid_out(one));
        assert(one =~= other);
    }
}

} // verus!

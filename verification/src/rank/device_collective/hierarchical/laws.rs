//! What the ranks of a world end up with when each runs its part of a hierarchical
//! collective and each receives what the others sent it.

use crate::rank::device::{lossless, reduced_into, RankDevice};
use crate::rank::device_collective::delivery::{
    addresses, awaits, delivered_to, hop_taken, hops_from, in_order_delivery,
    lemma_delivered_in_parts, lemma_hop_met, lemma_only_message, receives_from, sends_to, took,
    Hop,
};
use crate::rank::device_collective::hierarchical::all_reduce::{
    member_finished, member_script, member_sent,
};
use crate::rank::device_collective::hierarchical::{
    collect_next, collect_script, collected, data_tag, group_of, lemma_membership,
    receive_script, share_next, share_script,
};
use crate::rank::device_collective::laws::{
    faithful, got, handed, handed_on, one_world, sent,
};
use crate::rank::device_collective::ring::{Labels, Tally};
use crate::rank::device_collective::CollectiveModel;
use crate::rank::rounds::{
    in_order, law_any_ring, law_full_fold, lemma_fold_as_list, order_free, rank_fold, ring_fold,
    taken_in,
};
use crate::rank::script::{
    lemma_over, lemma_ran_ask, lemma_ran_tried, ran, too_large, Stop, TransportEvent,
};
use crate::rank::stats::CollectiveStats;
use crate::rank::topology::groups::{grouped, is_hierarchy, lemma_members, members};
use crate::rank::topology::rings::is_ring;
use vstd::arithmetic::div_mod::*;
use vstd::prelude::*;

verus! {

/// A send that succeeds.
pub proof fn lemma_send_ran<E>(
    model: CollectiveModel,
    destination: u32,
    tag: u64,
    element_count: int,
    payload: Seq<u8>,
    events: Seq<TransportEvent>,
)
    requires
        ran(model.send_script::<E>(destination, tag, element_count, payload), events, ()),
    ensures
        events.len() == 1,
        sends_to(events[0].call, destination, tag),
        sent(events[0].call) == payload,
{
    let script = model.send_script::<E>(destination, tag, element_count, payload);
    lemma_ran_ask(script->Ask_0, script->Ask_1, events, ());
    let after = (script->Ask_1)(events[0].reply);
    lemma_over(after->Done_0, events.skip(1));
}

/// A receive that succeeds.
pub proof fn lemma_receive_ran<T, D: RankDevice<T>>(
    model: CollectiveModel,
    source: u32,
    tag: u64,
    length: int,
    events: Seq<TransportEvent>,
    values: Seq<T>,
)
    requires
        ran(receive_script::<T, D>(model, source, tag, length), events, values),
    ensures
        events.len() == 1,
        receives_from(events[0].call, source, tag),
        events[0].reply.frame() is Ok,
        got(events[0]).len() == length * D::ELEMENT_SIZE,
        values == D::reading(got(events[0])),
{
    let script = receive_script::<T, D>(model, source, tag, length);
    lemma_ran_ask(script->Ask_0, script->Ask_1, events, values);
    let after = (script->Ask_1)(events[0].reply);
    lemma_over(after->Done_0, events.skip(1));
}

/// The first member that a leader collects from.
proof fn lemma_collect_step<T, D: RankDevice<T>>(
    model: CollectiveModel,
    group: Seq<u32>,
    index: int,
    operation: u64,
    phase: u32,
    length: int,
    tally: Tally<T>,
    reduce: spec_fn(T, T) -> T,
    labels: Labels,
    events: Seq<TransportEvent>,
    last: Tally<T>,
) -> (next: Tally<T>)
    requires
        faithful::<T, D>(),
        0 <= index < group.len(),
        tally.values.len() == length,
        ran(
            collect_script::<T, D>(
                model,
                group,
                index,
                operation,
                phase,
                length,
                tally,
                reduce,
                labels,
            ),
            events,
            last,
        ),
    ensures
        events.len() >= 1,
        receives_from(events[0].call, group[index], data_tag(operation, phase, group[index])),
        events[0].reply.frame() is Ok,
        got(events[0]).len() == length * D::ELEMENT_SIZE,
        next.values == reduced_into(tally.values, 0, D::reading(got(events[0])), reduce),
        ran(
            collect_script::<T, D>(
                model,
                group,
                index + 1,
                operation,
                phase,
                length,
                next,
                reduce,
                labels,
            ),
            events.skip(1),
            last,
        ),
{
    let tag = data_tag(operation, phase, group[index]);
    let onward = collect_next::<T, D>(
        model,
        group,
        index,
        operation,
        phase,
        length,
        tally,
        reduce,
        labels,
    );
    let (k, values) = lemma_ran_tried(
        receive_script::<T, D>(model, group[index], tag, length),
        false,
        onward,
        events,
        last,
    );
    lemma_receive_ran::<T, D>(model, group[index], tag, length, events.take(k), values);
    assert(events.take(k)[0] == events[0]);
    assert(lossless::<T, D>(values));
    match collected::<T, D>(tally, values, reduce, labels) {
        Err(failure) => {
            lemma_over::<Tally<T>, D::Error>(
                Err(Stop { failure, in_channel: false }),
                events.skip(k),
            );
            tally
        },
        Ok(next) => {
            assert(next.values =~= reduced_into(tally.values, 0, values, reduce));
            next
        },
    }
}

/// A leader collects from each member in turn.
pub proof fn lemma_collect_ran<T, D: RankDevice<T>>(
    model: CollectiveModel,
    group: Seq<u32>,
    index: int,
    operation: u64,
    phase: u32,
    length: int,
    tally: Tally<T>,
    reduce: spec_fn(T, T) -> T,
    labels: Labels,
    events: Seq<TransportEvent>,
    last: Tally<T>,
)
    requires
        faithful::<T, D>(),
        0 <= index <= group.len(),
        tally.values.len() == length,
        ran(
            collect_script::<T, D>(
                model,
                group,
                index,
                operation,
                phase,
                length,
                tally,
                reduce,
                labels,
            ),
            events,
            last,
        ),
    ensures
        events.len() == group.len() - index,
        last.values.len() == length,
        forall|k: int|
            #![trigger events[k]]
            0 <= k < events.len() ==> {
                &&& receives_from(
                    events[k].call,
                    group[index + k],
                    data_tag(operation, phase, group[index + k]),
                )
                &&& events[k].reply.frame() is Ok
            },
    decreases group.len() - index,
{
    if index == group.len() {
        lemma_over::<Tally<T>, D::Error>(Ok(tally), events);
    } else {
        let next = lemma_collect_step::<T, D>(
            model,
            group,
            index,
            operation,
            phase,
            length,
            tally,
            reduce,
            labels,
            events,
            last,
        );
        lemma_collect_ran::<T, D>(
            model,
            group,
            index + 1,
            operation,
            phase,
            length,
            next,
            reduce,
            labels,
            events.skip(1),
            last,
        );
        assert forall|k: int| #![trigger events[k]] 0 <= k < events.len() implies {
            &&& receives_from(
                events[k].call,
                group[index + k],
                data_tag(operation, phase, group[index + k]),
            )
            &&& events[k].reply.frame() is Ok
        } by {
            if k > 0 {
                assert(events.skip(1)[k - 1] == events[k]);
            }
        }
    }
}

/// An element with the members' own from one on reduced into it.
pub open spec fn members_fold<T>(
    so_far: T,
    inputs: Seq<Seq<T>>,
    group: Seq<u32>,
    index: int,
    element: int,
    reduce: spec_fn(T, T) -> T,
) -> T
    decreases group.len() - index,
{
    if index >= group.len() {
        so_far
    } else {
        members_fold(
            reduce(so_far, inputs[group[index] as int][element]),
            inputs,
            group,
            index + 1,
            element,
            reduce,
        )
    }
}

/// What a leader has collected where the members sent their inputs.
pub proof fn lemma_collect_values<T, D: RankDevice<T>>(
    model: CollectiveModel,
    group: Seq<u32>,
    index: int,
    operation: u64,
    phase: u32,
    length: int,
    tally: Tally<T>,
    reduce: spec_fn(T, T) -> T,
    labels: Labels,
    events: Seq<TransportEvent>,
    last: Tally<T>,
    inputs: Seq<Seq<T>>,
)
    requires
        faithful::<T, D>(),
        0 <= index <= group.len(),
        tally.values.len() == length,
        ran(
            collect_script::<T, D>(
                model,
                group,
                index,
                operation,
                phase,
                length,
                tally,
                reduce,
                labels,
            ),
            events,
            last,
        ),
        forall|k: int|
            #![trigger events[k]]
            0 <= k < group.len() - index ==> {
                &&& got(events[k]) == D::encoding(inputs[group[index + k] as int])
                &&& inputs[group[index + k] as int].len() == length
            },
    ensures
        last.values.len() == length,
        forall|x: int|
            0 <= x < length ==> #[trigger] last.values[x] == members_fold(
                tally.values[x],
                inputs,
                group,
                index,
                x,
                reduce,
            ),
    decreases group.len() - index,
{
    if index == group.len() {
        lemma_over::<Tally<T>, D::Error>(Ok(tally), events);
    } else {
        let next = lemma_collect_step::<T, D>(
            model,
            group,
            index,
            operation,
            phase,
            length,
            tally,
            reduce,
            labels,
            events,
            last,
        );
        let rest = events.skip(1);
        assert forall|k: int| #![trigger rest[k]] 0 <= k < group.len() - index - 1 implies {
            &&& got(rest[k]) == D::encoding(inputs[group[index + 1 + k] as int])
            &&& inputs[group[index + 1 + k] as int].len() == length
        } by {
            lemma_collect_ran::<T, D>(
                model,
                group,
                index,
                operation,
                phase,
                length,
                tally,
                reduce,
                labels,
                events,
                last,
            );
            assert(rest[k] == events[k + 1]);
        }
        lemma_collect_values::<T, D>(
            model,
            group,
            index + 1,
            operation,
            phase,
            length,
            next,
            reduce,
            labels,
            rest,
            last,
            inputs,
        );
        let own = inputs[group[index] as int];
        assert(got(events[0]) == D::encoding(own) && own.len() == length);
        assert(lossless::<T, D>(own));
        assert forall|x: int| 0 <= x < length implies #[trigger] last.values[x] == members_fold(
            tally.values[x],
            inputs,
            group,
            index,
            x,
            reduce,
        ) by {
            assert(next.values[x] == reduce(tally.values[x], own[x]));
        }
    }
}

/// A leader sends to each member in turn.
pub proof fn lemma_share_ran<E>(
    model: CollectiveModel,
    group: Seq<u32>,
    index: int,
    operation: u64,
    phase: u32,
    count: int,
    payloads: spec_fn(int) -> Seq<u8>,
    bytes: int,
    label: Seq<char>,
    events: Seq<TransportEvent>,
    last: int,
)
    requires
        0 <= index <= group.len(),
        ran(
            share_script::<E>(
                model,
                group,
                index,
                operation,
                phase,
                count,
                payloads,
                bytes,
                label,
            ),
            events,
            last,
        ),
    ensures
        events.len() == group.len() - index,
        forall|k: int|
            #![trigger events[k]]
            0 <= k < events.len() ==> {
                &&& sends_to(
                    events[k].call,
                    group[index + k],
                    data_tag(operation, phase, group[index + k]),
                )
                &&& sent(events[k].call) == payloads(index + k)
            },
    decreases group.len() - index,
{
    if index == group.len() {
        lemma_over::<int, E>(Ok(bytes), events);
    } else {
        let tag = data_tag(operation, phase, group[index]);
        let onward = share_next::<E>(
            model,
            group,
            index,
            operation,
            phase,
            count,
            payloads,
            bytes,
            label,
        );
        let (k, done) = lemma_ran_tried(
            model.send_script::<E>(group[index], tag, count, payloads(index)),
            false,
            onward,
            events,
            last,
        );
        lemma_send_ran::<E>(model, group[index], tag, count, payloads(index), events.take(k));
        assert(events.take(k)[0] == events[0]);
        let rest = events.skip(1);
        if bytes + payloads(index).len() > usize::MAX {
            lemma_over::<int, E>(
                Err(Stop { failure: too_large(label), in_channel: false }),
                rest,
            );
        }
        lemma_share_ran::<E>(
            model,
            group,
            index + 1,
            operation,
            phase,
            count,
            payloads,
            bytes + payloads(index).len(),
            label,
            rest,
            last,
        );
        assert forall|i: int| #![trigger events[i]] 0 <= i < events.len() implies {
            &&& sends_to(
                events[i].call,
                group[index + i],
                data_tag(operation, phase, group[index + i]),
            )
            &&& sent(events[i].call) == payloads(index + i)
        } by {
            if i > 0 {
                assert(rest[i - 1] == events[i]);
            }
        }
    }
}

/// A member sends its values to its leader and is sent others back.
pub proof fn lemma_member_ran<T, D: RankDevice<T>>(
    model: CollectiveModel,
    leader: u32,
    values: Seq<T>,
    operation: u64,
    up: u32,
    down: u32,
    length: int,
    steps: int,
    label: Seq<char>,
    events: Seq<TransportEvent>,
    result: (Seq<T>, CollectiveStats),
)
    requires
        ran(
            member_script::<T, D>(
                model,
                leader,
                values,
                operation,
                up,
                down,
                length,
                steps,
                label,
            ),
            events,
            result,
        ),
    ensures
        events.len() == 2,
        sends_to(events[0].call, leader, data_tag(operation, up, model.place.rank)),
        sent(events[0].call) == D::encoding(values),
        receives_from(events[1].call, leader, data_tag(operation, down, model.place.rank)),
        events[1].reply.frame() is Ok,
        result.0 == D::reading(got(events[1])),
{
    let up_tag = data_tag(operation, up, model.place.rank);
    let down_tag = data_tag(operation, down, model.place.rank);
    let bytes = D::encoding(values).len() as int;
    let onward = member_sent::<T, D>(
        model,
        leader,
        operation,
        down,
        length,
        bytes,
        steps,
        label,
    );
    let (k, done) = lemma_ran_tried(
        model.send_script::<D::Error>(
            leader,
            up_tag,
            values.len() as int,
            D::encoding(values),
        ),
        false,
        onward,
        events,
        result,
    );
    lemma_send_ran::<D::Error>(
        model,
        leader,
        up_tag,
        values.len() as int,
        D::encoding(values),
        events.take(k),
    );
    let rest = events.skip(k);
    let finished = member_finished::<T, D>(model, bytes, steps, label);
    let (j, back) = lemma_ran_tried(
        receive_script::<T, D>(model, leader, down_tag, length),
        false,
        finished,
        rest,
        result,
    );
    lemma_receive_ran::<T, D>(model, leader, down_tag, length, rest.take(j), back);
    lemma_over(finished(back)->Done_0, rest.skip(j));
    assert(events.take(k)[0] == events[0]);
    assert(rest.take(j)[0] == events[1]);
}

/// The members of a hierarchy's groups, group after group, are all the ranks.
pub proof fn lemma_members_ring(world_size: u32, groups: Seq<Seq<u32>>)
    requires
        is_hierarchy(world_size, groups),
    ensures
        is_ring(world_size, members(groups, groups.len() as int)),
{
    let count = groups.len() as int;
    let all = members(groups, count);
    let ordered = in_order(world_size as int);
    lemma_members(world_size, groups, count);
    all.unique_seq_to_set();
    assert(ordered.no_duplicates());
    ordered.unique_seq_to_set();
    assert forall|r: u32| all.to_set().contains(r) == ordered.to_set().contains(r) by {
        if r < world_size {
            assert(ordered[r as int] == r);
            assert(grouped(groups, count, (r as int) as u32));
            assert(all.contains(r));
        } else {
            if all.contains(r) {
                let i = all.index_of(r);
                assert(all[i] < world_size);
            }
            if ordered.contains(r) {
                let i = ordered.index_of(r);
                assert(ordered[i] < world_size);
            }
        }
    }
    assert(all.to_set() =~= ordered.to_set());
    assert(groups[0].len() > 0);
    assert(groups[0][0] < world_size);
}

/// A group's elements folded one after the other into what came before are the
/// group's own fold reduced with it.
proof fn lemma_group_fold<T>(
    inputs: Seq<Seq<T>>,
    group: Seq<u32>,
    index: int,
    element: int,
    so_far: T,
    before: Option<T>,
    reduce: spec_fn(T, T) -> T,
)
    requires
        order_free(reduce),
        0 <= index <= group.len(),
    ensures
        ({
            let f = taken_in(inputs, element, reduce);
            let own = members_fold(so_far, inputs, group, index, element, reduce);
            match before {
                None => group.skip(index).fold_left(Some(so_far), f) == Some(own),
                Some(value) => group.skip(index).fold_left(Some(reduce(so_far, value)), f) == Some(
                    reduce(own, value),
                ),
            }
        }),
    decreases group.len() - index,
{
    let f = taken_in(inputs, element, reduce);
    let rest = group.skip(index);
    if index < group.len() {
        let next = inputs[group[index] as int][element];
        lemma_group_fold(
            inputs,
            group,
            index + 1,
            element,
            reduce(so_far, next),
            before,
            reduce,
        );
        let start = match before {
            None => Some(so_far),
            Some(value) => Some(reduce(so_far, value)),
        };
        rest.lemma_fold_left_split(start, f, 1);
        assert(rest.subrange(1, rest.len() as int) =~= group.skip(index + 1));
        let one = rest.subrange(0, 1);
        assert(one.drop_last() =~= Seq::empty());
        assert(one.drop_last().fold_left(start, f) == start);
        assert(one.fold_left(start, f) == f(start, group[index]));
        assert(reduce(next, so_far) == reduce(so_far, next));
        if let Some(value) = before {
            assert(reduce(next, reduce(so_far, value)) == reduce(reduce(next, so_far), value));
        }
    }
}

/// The fold of every group, and of these in order, is the fold of the members of
/// all groups, one after the other.
proof fn lemma_folds_of_groups<T>(
    inputs: Seq<Seq<T>>,
    groups: Seq<Seq<u32>>,
    tables: Seq<Seq<T>>,
    count: int,
    element: int,
    reduce: spec_fn(T, T) -> T,
)
    requires
        order_free(reduce),
        0 < count <= groups.len(),
        groups.len() == tables.len(),
        forall|g: int| 0 <= g < groups.len() ==> (#[trigger] groups[g]).len() > 0,
        forall|g: int|
            0 <= g < groups.len() ==> (#[trigger] tables[g])[element] == members_fold(
                inputs[groups[g][0] as int][element],
                inputs,
                groups[g],
                1,
                element,
                reduce,
            ),
    ensures
        members(groups, count).fold_left(None, taken_in(inputs, element, reduce)) == Some(
            rank_fold(tables, element, count - 1, reduce),
        ),
    decreases count,
{
    let f = taken_in(inputs, element, reduce);
    let g = count - 1;
    let group = groups[g];
    let first = inputs[group[0] as int][element];
    let all = members(groups, count);
    let head = members(groups, g);
    let before = if g == 0 {
        None
    } else {
        Some(rank_fold(tables, element, g - 1, reduce))
    };
    assert(tables[g][element] == members_fold(first, inputs, group, 1, element, reduce));
    if g > 0 {
        lemma_folds_of_groups(inputs, groups, tables, g, element, reduce);
    } else {
        assert(head =~= Seq::empty());
        assert(head.fold_left(None::<T>, f) == None::<T>);
    }
    assert(head.fold_left(None, f) == before);
    all.lemma_fold_left_split(None, f, head.len() as int);
    assert(all.subrange(0, head.len() as int) =~= head);
    assert(all.subrange(head.len() as int, all.len() as int) =~= group);
    group.lemma_fold_left_split(before, f, 1);
    let one = group.subrange(0, 1);
    assert(one.drop_last() =~= Seq::empty());
    assert(one.drop_last().fold_left(before, f) == before);
    assert(one.fold_left(before, f) == f(before, group[0]));
    assert(group.subrange(1, group.len() as int) =~= group.skip(1));
    lemma_group_fold(inputs, group, 1, element, first, before, reduce);
}

/// With a reduction whose order does not matter, reducing within the groups and
/// then round the leaders, from any start, is the reduction over the ranks in
/// order.
pub proof fn law_groups_then_leaders<T>(
    inputs: Seq<Seq<T>>,
    world_size: u32,
    groups: Seq<Seq<u32>>,
    tables: Seq<Seq<T>>,
    element: int,
    start: int,
    reduce: spec_fn(T, T) -> T,
)
    requires
        order_free(reduce),
        is_hierarchy(world_size, groups),
        inputs.len() == world_size,
        groups.len() == tables.len(),
        forall|g: int|
            0 <= g < groups.len() ==> (#[trigger] tables[g])[element] == members_fold(
                inputs[groups[g][0] as int][element],
                inputs,
                groups[g],
                1,
                element,
                reduce,
            ),
    ensures
        ring_fold(tables, element, start, groups.len() - 1, reduce) == rank_fold(
            inputs,
            element,
            world_size - 1,
            reduce,
        ),
{
    let count = groups.len() as int;
    let all = members(groups, count);
    law_full_fold(tables, element, start, reduce);
    lemma_folds_of_groups(inputs, groups, tables, count, element, reduce);
    lemma_members_ring(world_size, groups);
    law_any_ring(inputs, world_size, all, element, 0, reduce);
    lemma_fold_as_list(inputs, all, element, world_size - 1, reduce);
    assert(all.take(world_size as int) =~= all);
}

/// The leaders before and after one, round the hierarchy.
pub open spec fn leader_before(groups: Seq<Seq<u32>>, group: int) -> u32 {
    groups[(group - 1) % (groups.len() as int)][0]
}

pub open spec fn leader_after(groups: Seq<Seq<u32>>, group: int) -> u32 {
    groups[(group + 1) % (groups.len() as int)][0]
}

/// A leader's conversation: an agreement, a receive from each member of its group,
/// what it says to the leaders beside it up to `sharing`, and a send to each
/// member.
pub open spec fn led(
    groups: Seq<Seq<u32>>,
    group: int,
    operation: u64,
    up: u32,
    down: u32,
    trace: Seq<TransportEvent>,
    sharing: int,
) -> bool {
    let own = groups[group];
    let count = own.len() as int;
    &&& count <= sharing
    &&& trace.len() == sharing + count - 1
    &&& trace[0].call is Exchange
    &&& forall|i: int|
        1 <= i < count ==> receives_from(
            (#[trigger] trace[i]).call,
            own[i],
            data_tag(operation, up, own[i]),
        ) && trace[i].reply.frame() is Ok
    &&& forall|i: int|
        count <= i < sharing ==> addresses(
            (#[trigger] trace[i]).call,
            leader_after(groups, group),
        ) || awaits(trace[i].call, leader_before(groups, group))
    &&& forall|i: int|
        sharing <= i < trace.len() ==> sends_to(
            (#[trigger] trace[i]).call,
            own[i - sharing + 1],
            data_tag(operation, down, own[i - sharing + 1]),
        )
}

/// A member's conversation: an agreement, a send to its leader and a receive from
/// it.
pub open spec fn served(
    groups: Seq<Seq<u32>>,
    group: int,
    member: int,
    operation: u64,
    up: u32,
    down: u32,
    trace: Seq<TransportEvent>,
) -> bool {
    let own = groups[group];
    &&& trace.len() == 3
    &&& trace[0].call is Exchange
    &&& sends_to(trace[1].call, own[0], data_tag(operation, up, own[member]))
    &&& receives_from(trace[2].call, own[0], data_tag(operation, down, own[member]))
    &&& trace[2].reply.frame() is Ok
}

/// The conversations of a hierarchical collective.
#[verifier::opaque]
pub open spec fn tiered(
    groups: Seq<Seq<u32>>,
    operation: u64,
    up: u32,
    down: u32,
    traces: Seq<Seq<TransportEvent>>,
    sharing: Seq<int>,
) -> bool {
    &&& traces.len() <= u32::MAX
    &&& is_hierarchy(traces.len() as u32, groups)
    &&& in_order_delivery(traces)
    &&& sharing.len() == groups.len()
    &&& forall|g: int|
        #![trigger sharing[g]]
        0 <= g < groups.len() ==> led(
            groups,
            g,
            operation,
            up,
            down,
            traces[groups[g][0] as int],
            sharing[g],
        )
    &&& forall|g: int, k: int|
        #![trigger groups[g][k]]
        0 <= g < groups.len() && 1 <= k < groups[g].len() ==> served(
            groups,
            g,
            k,
            operation,
            up,
            down,
            traces[groups[g][k] as int],
        )
}

/// What a member sends reaches its leader.
pub proof fn lemma_sent_up(
    groups: Seq<Seq<u32>>,
    operation: u64,
    up: u32,
    down: u32,
    traces: Seq<Seq<TransportEvent>>,
    sharing: Seq<int>,
    group: int,
    member: int,
)
    requires
        tiered(groups, operation, up, down, traces, sharing),
        0 <= group < groups.len(),
        1 <= member < groups[group].len(),
    ensures
        got(traces[groups[group][0] as int][member]) == sent(
            traces[groups[group][member] as int][1].call,
        ),
{
    reveal(tiered);
    let leader = groups[group][0];
    let rank = groups[group][member];
    let own = traces[leader as int];
    let other = traces[rank as int];
    let tag = data_tag(operation, up, rank);
    let places = groups.len() as int;
    assert(leader < traces.len() && rank < traces.len());
    assert(led(groups, group, operation, up, down, own, sharing[group]));
    assert(served(groups, group, member, operation, up, down, other));
    lemma_mod_bound(group - 1, places);
    assert forall|i: int| 0 <= i < own.len() && i != member implies !receives_from(
        (#[trigger] own[i]).call,
        rank,
        tag,
    ) by {
        if 1 <= i < groups[group].len() {
            assert(groups[group][i] != groups[group][member]);
        } else if groups[group].len() <= i < sharing[group] {
            assert(groups[(group - 1) % places][0] != groups[group][member]);
        }
    }
    assert(delivered_to(traces[leader as int], leader, traces[rank as int], rank));
    lemma_only_message(own, leader, member, other, rank, 1, tag);
}

/// What a leader sends reaches the member.
pub proof fn lemma_sent_down(
    groups: Seq<Seq<u32>>,
    operation: u64,
    up: u32,
    down: u32,
    traces: Seq<Seq<TransportEvent>>,
    sharing: Seq<int>,
    group: int,
    member: int,
)
    requires
        tiered(groups, operation, up, down, traces, sharing),
        0 <= group < groups.len(),
        1 <= member < groups[group].len(),
    ensures
        got(traces[groups[group][member] as int][2]) == sent(
            traces[groups[group][0] as int][sharing[group] + member - 1].call,
        ),
{
    reveal(tiered);
    let leader = groups[group][0];
    let rank = groups[group][member];
    let own = traces[rank as int];
    let other = traces[leader as int];
    let tag = data_tag(operation, down, rank);
    let places = groups.len() as int;
    let origin = sharing[group] + member - 1;
    assert(leader < traces.len() && rank < traces.len());
    assert(led(groups, group, operation, up, down, other, sharing[group]));
    assert(served(groups, group, member, operation, up, down, own));
    lemma_mod_bound(group + 1, places);
    assert(sends_to(other[origin].call, rank, tag));
    assert forall|i: int| 0 <= i < other.len() && i != origin implies !sends_to(
        (#[trigger] other[i]).call,
        rank,
        tag,
    ) by {
        if 1 <= i < groups[group].len() {
            assert(other[i].call is Receive);
        } else if groups[group].len() <= i < sharing[group] {
            assert(groups[(group + 1) % places][0] != groups[group][member]);
        } else if sharing[group] <= i {
            assert(groups[group][i - sharing[group] + 1] != groups[group][member]);
        }
    }
    assert(delivered_to(traces[rank as int], rank, traces[leader as int], leader));
    lemma_only_message(own, rank, 2, other, leader, origin, tag);
}

/// What a leader says to the leaders beside it.
pub open spec fn between_leaders(
    groups: Seq<Seq<u32>>,
    traces: Seq<Seq<TransportEvent>>,
    sharing: Seq<int>,
) -> Seq<Seq<TransportEvent>> {
    Seq::new(
        groups.len(),
        |g: int| traces[groups[g][0] as int].subrange(groups[g].len() as int, sharing[g]),
    )
}

/// What a leader sends to the next is delivered in that part of the conversation.
pub proof fn lemma_between_leaders(
    groups: Seq<Seq<u32>>,
    operation: u64,
    up: u32,
    down: u32,
    traces: Seq<Seq<TransportEvent>>,
    sharing: Seq<int>,
    group: int,
)
    requires
        tiered(groups, operation, up, down, traces, sharing),
        0 <= group < groups.len(),
    ensures
        ({
            let before = (group - 1) % (groups.len() as int);
            &&& 0 <= before < groups.len()
            &&& delivered_to(
                between_leaders(groups, traces, sharing)[group],
                groups[group][0],
                between_leaders(groups, traces, sharing)[before],
                groups[before][0],
            )
        }),
{
    reveal(tiered);
    let places = groups.len() as int;
    let before = (group - 1) % places;
    lemma_mod_bound(group - 1, places);
    let rank = groups[group][0];
    let source = groups[before][0];
    let own = traces[rank as int];
    let other = traces[source as int];
    assert(groups[group].len() > 0 && groups[before].len() > 0);
    assert(rank < traces.len() && source < traces.len());
    assert(led(groups, group, operation, up, down, own, sharing[group]));
    assert(led(groups, before, operation, up, down, other, sharing[before]));
    assert(delivered_to(traces[rank as int], rank, traces[source as int], source));
    assert forall|i: int|
        0 <= i < own.len() && !(groups[group].len() <= i < sharing[group]) implies !awaits(
        (#[trigger] own[i]).call,
        source,
    ) by {
        if 1 <= i < groups[group].len() {
            assert(groups[group][i] != groups[before][0]);
        } else if sharing[group] <= i {
            assert(own[i].call is Send);
        }
    }
    assert forall|i: int|
        0 <= i < other.len() && !(groups[before].len() <= i < sharing[before]) implies !addresses(
        (#[trigger] other[i]).call,
        rank,
    ) by {
        if 1 <= i < groups[before].len() {
            assert(other[i].call is Receive);
        } else if sharing[before] <= i {
            assert(groups[before][i - sharing[before] + 1] != groups[group][0]);
        }
    }
    lemma_delivered_in_parts(
        own,
        rank,
        groups[group].len() as int,
        sharing[group],
        other,
        source,
        groups[before].len() as int,
        sharing[before],
    );
}

/// The groups of a world are a hierarchy, the same for every rank.
pub proof fn lemma_world_groups(models: Seq<CollectiveModel>, group: int, member: int)
    requires
        one_world(models),
        models[0].tuning.hierarchy_groups is Some,
        0 <= group < models[0].groups().len(),
        0 <= member < models[0].groups()[group].len(),
    ensures
        is_hierarchy(models.len() as u32, models[0].groups()),
        models.len() <= u32::MAX,
        ({
            let rank = models[0].groups()[group][member];
            &&& rank < models.len()
            &&& models[rank as int].groups() == models[0].groups()
            &&& models[rank as int].tuning.hierarchy_groups is Some
            &&& models[rank as int].place.rank == rank
            &&& models[rank as int].membership_defect() is None
            &&& group_of(models[0].groups(), rank) == group
        }),
{
    let first = models[0];
    let groups = first.groups();
    assert(first.valid());
    assert(is_hierarchy(first.tuning.topology.world_size, groups));
    let rank = groups[group][member];
    assert(rank < models.len());
    assert(models[rank as int].tuning == models[0].tuning);
    lemma_membership(groups, group, member);
}

/// What the groups' members hold, reduced within each group.
pub open spec fn group_tables<T>(
    groups: Seq<Seq<u32>>,
    inputs: Seq<Seq<T>>,
    length: int,
    reduce: spec_fn(T, T) -> T,
) -> Seq<Seq<T>> {
    Seq::new(
        groups.len(),
        |g: int|
            Seq::new(
                length as nat,
                |x: int|
                    members_fold(
                        inputs[groups[g][0] as int][x],
                        inputs,
                        groups[g],
                        1,
                        x,
                        reduce,
                    ),
            ),
    )
}

/// A leader's hops: each with the leaders beside it, and under the tags of the first
/// leader's.
pub open spec fn beside(
    groups: Seq<Seq<u32>>,
    group: int,
    own: Seq<Hop>,
    first: Seq<Hop>,
) -> bool {
    &&& own.len() == first.len()
    &&& forall|j: int|
        #![trigger own[j]]
        0 <= j < own.len() ==> {
            &&& own[j].destination == leader_after(groups, group)
            &&& own[j].source == leader_before(groups, group)
            &&& own[j].tag == first[j].tag
        }
}

pub proof fn lemma_beside_channels(
    groups: Seq<Seq<u32>>,
    group: int,
    own: spec_fn(int) -> Seq<Hop>,
    first: spec_fn(int) -> Seq<Hop>,
    from: int,
    count: int,
)
    requires
        forall|c: int| from <= c < count ==> beside(groups, group, #[trigger] own(c), first(c)),
    ensures
        beside(groups, group, hops_from(own, from, count), hops_from(first, from, count)),
    decreases count - from,
{
    if from < count {
        lemma_beside_channels(groups, group, own, first, from + 1, count);
        let one = hops_from(own, from, count);
        let two = hops_from(first, from, count);
        let later = hops_from(own, from + 1, count);
        assert(beside(groups, group, own(from), first(from)));
        assert forall|j: int| #![trigger one[j]] 0 <= j < one.len() implies {
            &&& one[j].destination == leader_after(groups, group)
            &&& one[j].source == leader_before(groups, group)
            &&& one[j].tag == two[j].tag
        } by {
            if j < own(from).len() {
                assert(one[j] == own(from)[j]);
            } else {
                assert(one[j] == later[j - own(from).len()]);
            }
        }
    }
}

/// Such hops are calls to the leaders beside.
pub proof fn lemma_calls_beside(
    groups: Seq<Seq<u32>>,
    group: int,
    part: Seq<TransportEvent>,
    own: Seq<Hop>,
    first: Seq<Hop>,
)
    requires
        took(part, own),
        beside(groups, group, own, first),
    ensures
        forall|i: int|
            0 <= i < part.len() ==> addresses(
                (#[trigger] part[i]).call,
                leader_after(groups, group),
            ) || awaits(part[i].call, leader_before(groups, group)),
{
    assert forall|i: int| 0 <= i < part.len() implies addresses(
        (#[trigger] part[i]).call,
        leader_after(groups, group),
    ) || awaits(part[i].call, leader_before(groups, group)) by {
        let j = i / 2;
        assert(own[j].destination == leader_after(groups, group));
        assert(hop_taken(own[j], part[2 * j], part[2 * j + 1]));
    }
}

/// What each leader receives from the one before it is what that one sent.
pub proof fn lemma_leaders_handed_on(
    groups: Seq<Seq<u32>>,
    operation: u64,
    up: u32,
    down: u32,
    traces: Seq<Seq<TransportEvent>>,
    sharing: Seq<int>,
    hops: Seq<Seq<Hop>>,
)
    requires
        tiered(groups, operation, up, down, traces, sharing),
        hops.len() == groups.len(),
        forall|g: int|
            #![trigger hops[g]]
            0 <= g < groups.len() ==> took(between_leaders(groups, traces, sharing)[g], hops[g])
                && beside(groups, g, hops[g], hops[0]),
    ensures
        handed_on(between_leaders(groups, traces, sharing)),
{
    let said = between_leaders(groups, traces, sharing);
    let places = groups.len() as int;
    assert forall|p: int, i: int| 0 <= p < places implies #[trigger] handed(said, p, i) by {
        let before = (p - 1) % places;
        lemma_mod_bound(p - 1, places);
        lemma_add_mod_noop_right(1, p - 1, places);
        lemma_small_mod(p as nat, places as nat);
        assert((before + 1) % places == p);
        let own = hops[p];
        let other = hops[before];
        assert(took(said[p], own) && took(said[before], other));
        assert(beside(groups, p, own, hops[0]) && beside(groups, before, other, hops[0]));
        if 0 < i < said[p].len() && i % 2 == 1 {
            let j = i / 2;
            assert(i == 2 * j + 1);
            lemma_between_leaders(groups, operation, up, down, traces, sharing, p);
            assert forall|n: int| #![trigger own[n]] 0 <= n < own.len() implies {
                &&& own[n].source == groups[before][0] <==> other[n].destination == groups[p][0]
                &&& own[n].source == groups[before][0] ==> own[n].tag == other[n].tag
            } by {
                assert(other[n].destination == leader_after(groups, before));
            }
            assert(own[j].source == groups[before][0]);
            lemma_hop_met(said[p], own, groups[p][0], said[before], other, groups[before][0], j);
        }
    }
}

} // verus!

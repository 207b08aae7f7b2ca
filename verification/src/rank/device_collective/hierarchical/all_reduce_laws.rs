//! What the ranks of a world end up with from a hierarchical all-reduce.

use crate::rank::device::{lossless, RankDevice};
use crate::rank::device_collective::delivery::{
    addresses, awaits, hops_for_each, hops_from, in_order_delivery, lemma_channels_took,
    receives_from, sends_to, took, Hop,
};
use crate::rank::device_collective::hierarchical::all_reduce::{
    all_reduce_hierarchical_script, all_reduce_hierarchy_agreed, hierarchical_all_reduce_labels,
    leader_all_reduce_channels, leader_all_reduce_labels, leader_all_reduce_script,
    leader_blocks, leader_collected, leader_ringed, leader_shared, leaders_finished,
    same_payload,
};
use crate::rank::device_collective::hierarchical::costs::{
    hierarchical_cost, lemma_all_reduce_cost,
};
use crate::rank::device_collective::hierarchical::laws::{
    beside, between_leaders, group_tables, law_groups_then_leaders, leader_after, leader_before,
    led, lemma_beside_channels, lemma_calls_beside, lemma_collect_ran, lemma_collect_values,
    lemma_leaders_handed_on, lemma_member_ran, lemma_sent_down, lemma_sent_up, lemma_share_ran,
    lemma_world_groups, served, tiered,
};
use crate::rank::device_collective::hierarchical::{
    collect_script, data_tag, group_of, lemma_membership, share_script,
};
use crate::rank::device_collective::laws::{
    before_channel, calls_for_each, channels_ran, faithful, given_to, got, handed_on, left_by,
    lemma_agreed, lemma_channels_ran, lemma_fold_column, lemma_owner_is, lemma_part_handed_on,
    lemma_two_rounds, lemma_two_rounds_ran, one_world, part_of, sent, two_round_hops,
};
use crate::rank::device_collective::ring::{
    channels_script, chunk_length, two_rounds, RoundTags, Tally,
};
use crate::rank::device_collective::{effective_channels, CollectiveModel};
use crate::rank::hash::fnv;
use crate::rank::layout::{
    balanced_owner, balanced_start, law_balanced_partition, lemma_balanced_monotone,
    lemma_balanced_owner,
};
use crate::rank::operation::ReductionOperation;
use crate::rank::rounds::{arranged, in_block, order_free, rank_fold, ring_fold};
use crate::rank::script::{
    lemma_over, lemma_ran_tried, ran, too_large, Stop, TransportEvent,
};
use crate::rank::stats::CollectiveStats;
use crate::rank::tags::agreement_bytes;
use crate::rank::topology::cycles::heads;
use crate::rank::topology::groups::{apart, grouped, is_hierarchy};
use vstd::arithmetic::div_mod::*;
use vstd::prelude::*;

verus! {

/// The tags of the first round of a channel of the leaders.
pub open spec fn first_tags(operation: u64, channel: int) -> RoundTags {
    RoundTags { operation, channel: channel as usize, phase: 1, hierarchical: true }
}

/// The tags of the second.
pub open spec fn second_tags(operation: u64, channel: int) -> RoundTags {
    RoundTags { operation, channel: channel as usize, phase: 2, hierarchical: true }
}

/// The blocks of a channel of the leaders.
pub open spec fn channel_blocks(count: int, length: int, channels: int, channel: int) -> Seq<
    (int, int),
> {
    leader_blocks(
        count,
        balanced_start(length, channels, channel),
        chunk_length(length, channels, channel),
    )
}

/// The hops of a leader in the channels.
pub open spec fn leader_hops(
    leaders: Seq<u32>,
    position: int,
    length: int,
    channels: int,
    operation: u64,
) -> spec_fn(int) -> Seq<Hop> {
    |channel: int|
        two_round_hops(
            leaders,
            channel_blocks(leaders.len() as int, length, channels, channel),
            position,
            first_tags(operation, channel),
            second_tags(operation, channel),
        )
}

/// The blocks of a range that is shared out over the leaders are arranged for a
/// round.
proof fn lemma_leader_blocks<T>(tables: Seq<Seq<T>>, start: int, length: int, whole: int)
    requires
        0 < tables.len(),
        0 <= start,
        0 <= length,
        start + length <= whole,
        forall|p: int| 0 <= p < tables.len() ==> (#[trigger] tables[p]).len() == whole,
    ensures
        arranged(tables, leader_blocks(tables.len() as int, start, length), whole),
        forall|b: int|
            0 <= b < tables.len() ==> start <= (#[trigger] leader_blocks(
                tables.len() as int,
                start,
                length,
            )[b]).0 && leader_blocks(tables.len() as int, start, length)[b].1 <= start + length,
{
    let count = tables.len() as int;
    let blocks = leader_blocks(count, start, length);
    assert forall|b: int| 0 <= b < count implies start <= (#[trigger] blocks[b]).0 <= blocks[b].1
        <= start + length by {
        law_balanced_partition(length, count, b);
    }
    assert forall|b: int, c: int, x: int|
        0 <= b < count && 0 <= c < count && in_block(blocks, b, x) && in_block(
            blocks,
            c,
            x,
        ) implies b == c by {
        if b < c {
            lemma_balanced_monotone(length, count, b + 1, c);
        } else if c < b {
            lemma_balanced_monotone(length, count, c + 1, b);
        }
    }
}

/// A run of a channel of a leader.
proof fn lemma_leader_calls<T, D: RankDevice<T>>(
    model: CollectiveModel,
    leaders: Seq<u32>,
    position: int,
    length: int,
    channels: int,
    operation: u64,
    reduce: spec_fn(T, T) -> T,
)
    requires
        0 < leaders.len(),
    ensures
        calls_for_each(
            leader_all_reduce_channels::<T, D>(
                model,
                leaders,
                position,
                length,
                channels,
                operation,
                reduce,
            ),
            4 * (leaders.len() - 1),
        ),
        hops_for_each(
            leader_all_reduce_channels::<T, D>(
                model,
                leaders,
                position,
                length,
                channels,
                operation,
                reduce,
            ),
            leader_hops(leaders, position, length, channels, operation),
        ),
{
    reveal(calls_for_each);
    reveal(hops_for_each);
    let channel = leader_all_reduce_channels::<T, D>(
        model,
        leaders,
        position,
        length,
        channels,
        operation,
        reduce,
    );
    let hops = leader_hops(leaders, position, length, channels, operation);
    assert forall|c: int, v: Seq<T>, events: Seq<TransportEvent>, tally: Tally<T>| #[trigger]
        ran(channel(c, v), events, tally) implies events.len() == 4 * (leaders.len() - 1) && took(
        events,
        hops(c),
    ) by {
        let mid = lemma_two_rounds_ran::<T, D>(
            model.element_type,
            model.rail(c),
            leaders,
            channel_blocks(leaders.len() as int, length, channels, c),
            position,
            first_tags(operation, c),
            second_tags(operation, c),
            v,
            reduce,
            leader_all_reduce_labels(),
            events,
            tally,
        );
    }
}

/// A leader's part in the leaders' all-reduce.
proof fn lemma_leader_ran<T, D: RankDevice<T>>(
    model: CollectiveModel,
    leaders: Seq<u32>,
    position: int,
    values: Seq<T>,
    operation: u64,
    ring_channels: int,
    reduce: spec_fn(T, T) -> T,
    trace: Seq<TransportEvent>,
    last: Tally<T>,
) -> (tallies: Seq<Tally<T>>)
    requires
        0 < leaders.len(),
        0 < ring_channels,
        ran(
            leader_all_reduce_script::<T, D>(
                model,
                leaders,
                position,
                values,
                operation,
                ring_channels,
                reduce,
            ),
            trace,
            last,
        ),
    ensures
        ({
            let length = values.len() as int;
            let channels = effective_channels(ring_channels, length);
            &&& channels_ran(
                leader_all_reduce_channels::<T, D>(
                    model,
                    leaders,
                    position,
                    length,
                    channels,
                    operation,
                    reduce,
                ),
                0,
                channels,
                values,
                4 * (leaders.len() - 1),
                trace,
                tallies,
            )
            &&& took(
                trace,
                hops_from(
                    leader_hops(leaders, position, length, channels, operation),
                    0,
                    channels,
                ),
            )
        }),
        left_by(values, tallies) == last.values,
{
    let length = values.len() as int;
    let channels = effective_channels(ring_channels, length);
    let channel = leader_all_reduce_channels::<T, D>(
        model,
        leaders,
        position,
        length,
        channels,
        operation,
        reduce,
    );
    let finished = leaders_finished::<T, D::Error>(leader_all_reduce_labels());
    let (k, run) = lemma_ran_tried(
        channels_script(channel, 0, channels, values, Seq::empty()),
        false,
        finished,
        trace,
        last,
    );
    lemma_over(finished(run)->Done_0, trace.skip(k));
    assert(trace.take(k) =~= trace);
    lemma_leader_calls::<T, D>(model, leaders, position, length, channels, operation, reduce);
    lemma_channels_took(
        channel,
        leader_hops(leaders, position, length, channels, operation),
        0,
        channels,
        values,
        Seq::empty(),
        trace,
        run,
    );
    lemma_channels_ran(
        channel,
        0,
        channels,
        values,
        Seq::empty(),
        4 * (leaders.len() - 1),
        trace,
        run,
    )
}

/// What the leaders' all-reduce makes of an element: it goes round the leaders,
/// from the place of its partition on.
pub open spec fn leaders_reduced<T>(
    tables: Seq<Seq<T>>,
    length: int,
    channels: int,
    reduce: spec_fn(T, T) -> T,
    element: int,
) -> T {
    let channel = balanced_owner(length, channels, element);
    ring_fold(
        tables,
        element,
        balanced_owner(
            chunk_length(length, channels, channel),
            tables.len() as int,
            element - balanced_start(length, channels, channel),
        ),
        tables.len() - 1,
        reduce,
    )
}

/// One channel of the leaders' all-reduce.
proof fn lemma_leader_channel<T, D: RankDevice<T>>(
    models: Seq<CollectiveModel>,
    leaders: Seq<u32>,
    tables: Seq<Seq<T>>,
    length: int,
    channels: int,
    channel: int,
    operation: u64,
    reduce: spec_fn(T, T) -> T,
    traces: Seq<Seq<TransportEvent>>,
    finals: Seq<Tally<T>>,
)
    requires
        faithful::<T, D>(),
        0 < leaders.len(),
        models.len() == leaders.len(),
        tables.len() == leaders.len(),
        traces.len() == leaders.len(),
        finals.len() == leaders.len(),
        handed_on(traces),
        0 <= channel < channels,
        0 <= length,
        forall|p: int|
            #![trigger models[p]]
            0 <= p < models.len() ==> models[p].element_type == models[0].element_type
                && models[p].rail(channel) == models[0].rail(channel),
        forall|p: int| 0 <= p < tables.len() ==> (#[trigger] tables[p]).len() == length,
        forall|p: int|
            #![trigger finals[p]]
            0 <= p < leaders.len() ==> ran(
                leader_all_reduce_channels::<T, D>(
                    models[p],
                    leaders,
                    p,
                    length,
                    channels,
                    operation,
                    reduce,
                )(channel, tables[p]),
                traces[p],
                finals[p],
            ),
    ensures
        forall|p: int| 0 <= p < leaders.len() ==> (#[trigger] finals[p]).values.len() == length,
        forall|p: int, x: int|
            #![trigger finals[p].values[x]]
            0 <= p < leaders.len() && 0 <= x < length ==> finals[p].values[x] == (
            if balanced_owner(length, channels, x) == channel {
                leaders_reduced(tables, length, channels, reduce, x)
            } else {
                tables[p][x]
            }),
{
    let count = leaders.len() as int;
    let start = balanced_start(length, channels, channel);
    let size = chunk_length(length, channels, channel);
    let blocks = channel_blocks(count, length, channels, channel);
    law_balanced_partition(length, channels, channel);
    lemma_leader_blocks(tables, start, size, length);
    assert forall|p: int| #![trigger finals[p]] 0 <= p < count implies ran(
        two_rounds::<T, D>(
            models[0].element_type,
            models[0].rail(channel),
            leaders,
            blocks,
            p,
            first_tags(operation, channel),
            second_tags(operation, channel),
            tables[p],
            reduce,
            leader_all_reduce_labels(),
        ),
        traces[p],
        finals[p],
    ) by {
        assert(models[p].element_type == models[0].element_type);
    }
    lemma_two_rounds::<T, D>(
        models[0].element_type,
        models[0].rail(channel),
        leaders,
        blocks,
        length,
        first_tags(operation, channel),
        second_tags(operation, channel),
        tables,
        reduce,
        leader_all_reduce_labels(),
        traces,
        finals,
    );
    assert forall|p: int, x: int|
        #![trigger finals[p].values[x]]
        0 <= p < count && 0 <= x < length implies finals[p].values[x] == (if balanced_owner(
        length,
        channels,
        x,
    ) == channel {
        leaders_reduced(tables, length, channels, reduce, x)
    } else {
        tables[p][x]
    }) by {
        lemma_balanced_owner(length, channels, x);
        if balanced_owner(length, channels, x) == channel {
            let b = balanced_owner(size, count, x - start);
            lemma_balanced_owner(size, count, x - start);
            assert(in_block(blocks, b, x));
        } else {
            assert forall|b: int| 0 <= b < blocks.len() implies !in_block(blocks, b, x) by {
                if in_block(blocks, b, x) {
                    assert(start <= blocks[b].0 && blocks[b].1 <= start + size);
                    lemma_owner_is(length, channels, channel, x);
                }
            }
        }
    }
}

/// The first channels of the leaders' all-reduce.
proof fn lemma_leader_channels<T, D: RankDevice<T>>(
    models: Seq<CollectiveModel>,
    leaders: Seq<u32>,
    tables: Seq<Seq<T>>,
    length: int,
    channels: int,
    operation: u64,
    reduce: spec_fn(T, T) -> T,
    traces: Seq<Seq<TransportEvent>>,
    tallies: Seq<Seq<Tally<T>>>,
    done: int,
)
    requires
        faithful::<T, D>(),
        0 < leaders.len(),
        models.len() == leaders.len(),
        tables.len() == leaders.len(),
        traces.len() == leaders.len(),
        tallies.len() == leaders.len(),
        handed_on(traces),
        0 < channels,
        0 <= length,
        0 <= done <= channels,
        forall|p: int, c: int|
            #![trigger models[p].rail(c)]
            0 <= p < models.len() && 0 <= c < channels ==> models[p].rail(c) == models[0].rail(c),
        forall|p: int|
            #![trigger models[p]]
            0 <= p < models.len() ==> models[p].element_type == models[0].element_type,
        forall|p: int| 0 <= p < tables.len() ==> (#[trigger] tables[p]).len() == length,
        forall|p: int|
            #![trigger tallies[p]]
            0 <= p < leaders.len() ==> channels_ran(
                leader_all_reduce_channels::<T, D>(
                    models[p],
                    leaders,
                    p,
                    length,
                    channels,
                    operation,
                    reduce,
                ),
                0,
                channels,
                tables[p],
                4 * (leaders.len() - 1),
                traces[p],
                tallies[p],
            ),
    ensures
        forall|p: int|
            0 <= p < leaders.len() ==> (#[trigger] before_channel(tables, tallies, done)[p]).len()
                == length,
        forall|p: int, x: int|
            #![trigger before_channel(tables, tallies, done)[p][x]]
            0 <= p < leaders.len() && 0 <= x < length ==> before_channel(tables, tallies, done)[p][x]
                == (if balanced_owner(length, channels, x) < done {
                leaders_reduced(tables, length, channels, reduce, x)
            } else {
                tables[p][x]
            }),
    decreases done,
{
    let count = leaders.len() as int;
    if done == 0 {
        assert forall|p: int, x: int|
            #![trigger before_channel(tables, tallies, done)[p][x]]
            0 <= p < count && 0 <= x < length implies before_channel(tables, tallies, done)[p][x]
            == (if balanced_owner(length, channels, x) < done {
            leaders_reduced(tables, length, channels, reduce, x)
        } else {
            tables[p][x]
        }) by {
            lemma_balanced_owner(length, channels, x);
        }
    } else {
        let c = done - 1;
        let step = 4 * (count - 1);
        lemma_leader_channels::<T, D>(
            models,
            leaders,
            tables,
            length,
            channels,
            operation,
            reduce,
            traces,
            tallies,
            c,
        );
        let before = before_channel(tables, tallies, c);
        let now = before_channel(tables, tallies, done);
        let finals = Seq::new(count as nat, |p: int| tallies[p][c]);
        let parts = part_of(traces, c * step, c * step + step);
        assert(0 <= c * step && c * step == 2 * (c * (2 * (count - 1)))) by (nonlinear_arith)
            requires
                0 <= c,
                0 <= step,
                step == 4 * (count - 1),
        ;
        assert(c * step + step <= channels * step) by (nonlinear_arith)
            requires
                c + 1 <= channels,
                0 <= step,
        ;
        assert forall|p: int| 0 <= p < traces.len() implies c * step + step <= (
        #[trigger] traces[p]).len() by {
            assert(tallies[p].len() == channels);
        }
        lemma_part_handed_on(traces, c * step, c * step + step);
        assert forall|p: int| #![trigger finals[p]] 0 <= p < count implies ran(
            leader_all_reduce_channels::<T, D>(
                models[p],
                leaders,
                p,
                length,
                channels,
                operation,
                reduce,
            )(c, before[p]),
            parts[p],
            finals[p],
        ) by {
            assert(tallies[p].len() == channels);
            assert(ran(
                leader_all_reduce_channels::<T, D>(
                    models[p],
                    leaders,
                    p,
                    length,
                    channels,
                    operation,
                    reduce,
                )(0 + c, given_to(tables[p], tallies[p], c)),
                traces[p].subrange(c * step, c * step + step),
                tallies[p][c],
            ));
        }
        assert forall|p: int| #![trigger models[p]] 0 <= p < count implies models[p].element_type
            == models[0].element_type && models[p].rail(c) == models[0].rail(c) by {}
        lemma_leader_channel::<T, D>(
            models,
            leaders,
            before,
            length,
            channels,
            c,
            operation,
            reduce,
            parts,
            finals,
        );
        assert forall|p: int| 0 <= p < count implies (#[trigger] now[p]).len() == length by {
            assert(now[p] == finals[p].values);
        }
        assert forall|p: int, x: int|
            #![trigger now[p][x]]
            0 <= p < count && 0 <= x < length implies now[p][x] == (if balanced_owner(
            length,
            channels,
            x,
        ) < done {
            leaders_reduced(tables, length, channels, reduce, x)
        } else {
            tables[p][x]
        }) by {
            assert(now[p] == finals[p].values);
            assert(finals[p].values[x] == now[p][x]);
            assert(before[p][x] == before_channel(tables, tallies, c)[p][x]);
            let owner = balanced_owner(length, channels, x);
            if owner == c {
                assert forall|q: int| #![trigger before[q]] 0 <= q < before.len() implies before[q][x]
                    == tables[q][x] by {
                    assert(before[q][x] == before_channel(tables, tallies, c)[q][x]);
                }
                lemma_fold_column(
                    before,
                    tables,
                    x,
                    balanced_owner(
                        chunk_length(length, channels, c),
                        count,
                        x - balanced_start(length, channels, c),
                    ),
                    count - 1,
                    reduce,
                );
            }
        }
    }
}

/// A leader's conversation: the agreement, what it collects from the members of
/// its group, its part in the leaders' all-reduce, and what it sends to the
/// members.
pub struct LeaderRun<T> {
    pub collected: Tally<T>,
    pub ringed: Tally<T>,
    pub sharing: int,
}

/// A leader's part runs to its end.
pub open spec fn leads<T, D: RankDevice<T>>(
    model: CollectiveModel,
    input: Seq<T>,
    operation: u64,
    ring_channels: int,
    reduce: spec_fn(T, T) -> T,
    trace: Seq<TransportEvent>,
    result: (Seq<T>, CollectiveStats),
    run: LeaderRun<T>,
) -> bool {
    let group = model.group();
    let count = group.len() as int;
    &&& count <= run.sharing
    &&& trace.len() == run.sharing + count - 1
    &&& trace[0].call is Exchange
    &&& ran(
        collect_script::<T, D>(
            model,
            group,
            1,
            operation,
            0,
            input.len() as int,
            (Tally { values: input, bytes: 0, launches: 0 }),
            reduce,
            hierarchical_all_reduce_labels(),
        ),
        trace.subrange(1, count),
        run.collected,
    )
    &&& run.collected.values.len() == input.len()
    &&& ran(
        leader_all_reduce_script::<T, D>(
            model,
            heads(model.groups()),
            group_of(model.groups(), model.place.rank),
            run.collected.values,
            operation,
            ring_channels,
            reduce,
        ),
        trace.subrange(count, run.sharing),
        run.ringed,
    )
    &&& result.0 == run.ringed.values
    &&& forall|i: int|
        run.sharing <= i < trace.len() ==> sends_to(
            (#[trigger] trace[i]).call,
            group[i - run.sharing + 1],
            data_tag(operation, 3, group[i - run.sharing + 1]),
        ) && sent(trace[i].call) == D::encoding(run.ringed.values)
}

proof fn lemma_leader_parts<T, D: RankDevice<T>>(
    model: CollectiveModel,
    input: Seq<T>,
    operation: u64,
    reduction: ReductionOperation,
    ring_channels: int,
    reduce: spec_fn(T, T) -> T,
    trace: Seq<TransportEvent>,
    result: (Seq<T>, CollectiveStats),
) -> (run: LeaderRun<T>)
    requires
        faithful::<T, D>(),
        model.membership_defect() is None,
        model.place.rank == model.group()[0],
        0 < model.group().len(),
        ran(
            all_reduce_hierarchical_script::<T, D>(
                model,
                input,
                operation,
                reduction,
                ring_channels,
                reduce,
            ),
            trace,
            result,
        ),
    ensures
        leads::<T, D>(model, input, operation, ring_channels, reduce, trace, result, run),
{
    let group = model.group();
    let labels = hierarchical_all_reduce_labels();
    let steps = model.hierarchy_steps(2 * (model.groups().len() - 1));
    let start = Tally { values: input, bytes: 0, launches: 0 };
    lemma_agreed(
        fnv(
            agreement_bytes(
                operation,
                input.len() as u64,
                model.groups(),
                (0x600 + reduction.spec_code()) as u32,
                ring_channels as u64,
                model.channel_rails(ring_channels),
            ),
        ),
        "invalid hierarchical collective agreement response"@,
        all_reduce_hierarchy_agreed::<T, D>(model, input, operation, ring_channels, reduce),
        trace,
        result,
    );
    let rest = trace.skip(1);
    let collect = collect_script::<T, D>(
        model,
        group,
        1,
        operation,
        0,
        input.len() as int,
        start,
        reduce,
        labels,
    );
    let onward = leader_collected::<T, D>(model, operation, ring_channels, steps, reduce);
    let (k, collected) = lemma_ran_tried(collect, false, onward, rest, result);
    lemma_collect_ran::<T, D>(
        model,
        group,
        1,
        operation,
        0,
        input.len() as int,
        start,
        reduce,
        labels,
        rest.take(k),
        collected,
    );
    let later = rest.skip(k);
    let ring = leader_all_reduce_script::<T, D>(
        model,
        heads(model.groups()),
        group_of(model.groups(), model.place.rank),
        collected.values,
        operation,
        ring_channels,
        reduce,
    );
    let sharing = leader_ringed::<T, D>(model, operation, steps, collected);
    let (j, ringed) = lemma_ran_tried(ring, false, sharing, later, result);
    let tail = later.skip(j);
    if collected.bytes + ringed.bytes > usize::MAX {
        lemma_over::<(Seq<T>, CollectiveStats), D::Error>(
            Err(Stop { failure: too_large(labels.bytes), in_channel: false }),
            tail,
        );
    } else if collected.launches + ringed.launches > u32::MAX {
        lemma_over::<(Seq<T>, CollectiveStats), D::Error>(
            Err(Stop { failure: too_large(labels.launches), in_channel: false }),
            tail,
        );
    }
    let payloads = same_payload(D::encoding(ringed.values));
    let bytes = collected.bytes + ringed.bytes;
    let share = share_script::<D::Error>(
        model,
        group,
        1,
        operation,
        3,
        ringed.values.len() as int,
        payloads,
        bytes,
        labels.bytes,
    );
    let shared = leader_shared::<T, D>(
        model,
        ringed.values,
        steps,
        collected.launches + ringed.launches,
    );
    let (i, total) = lemma_ran_tried(share, false, shared, tail, result);
    lemma_over(shared(total)->Done_0, tail.skip(i));
    lemma_share_ran::<D::Error>(
        model,
        group,
        1,
        operation,
        3,
        ringed.values.len() as int,
        payloads,
        bytes,
        labels.bytes,
        tail.take(i),
        total,
    );
    assert(tail.take(i) =~= tail);
    let run = LeaderRun { collected, ringed, sharing: 1 + k + j };
    assert(trace.subrange(1, 1 + k) =~= rest.take(k));
    assert(trace.subrange(1 + k, run.sharing) =~= later.take(j));
    assert forall|n: int| run.sharing <= n < trace.len() implies sends_to(
        (#[trigger] trace[n]).call,
        group[n - run.sharing + 1],
        data_tag(operation, 3, group[n - run.sharing + 1]),
    ) && sent(trace[n].call) == D::encoding(ringed.values) by {
        assert(tail[n - run.sharing] == trace[n]);
    }
    run
}

/// A leader's hops in the leaders' all-reduce are with the leaders beside it.
proof fn lemma_leader_hops(
    groups: Seq<Seq<u32>>,
    group: int,
    length: int,
    channels: int,
    operation: u64,
)
    requires
        0 <= group < groups.len(),
    ensures
        beside(
            groups,
            group,
            hops_from(
                leader_hops(heads(groups), group, length, channels, operation),
                0,
                channels,
            ),
            hops_from(leader_hops(heads(groups), 0, length, channels, operation), 0, channels),
        ),
{
    let leaders = heads(groups);
    let places = groups.len() as int;
    lemma_mod_bound(group - 1, places);
    lemma_mod_bound(group + 1, places);
    let own = leader_hops(leaders, group, length, channels, operation);
    let first = leader_hops(leaders, 0, length, channels, operation);
    assert forall|c: int| 0 <= c < channels implies beside(
        groups,
        group,
        #[trigger] own(c),
        first(c),
    ) by {
        let one = own(c);
        assert forall|j: int| #![trigger one[j]] 0 <= j < one.len() implies {
            &&& one[j].destination == leader_after(groups, group)
            &&& one[j].source == leader_before(groups, group)
            &&& one[j].tag == first(c)[j].tag
        } by {}
    }
    lemma_beside_channels(groups, group, own, first, 0, channels);
}

/// A leader that runs its part to the end has led its group.
proof fn lemma_leads_led<T, D: RankDevice<T>>(
    model: CollectiveModel,
    group: int,
    input: Seq<T>,
    operation: u64,
    ring_channels: int,
    reduce: spec_fn(T, T) -> T,
    trace: Seq<TransportEvent>,
    result: (Seq<T>, CollectiveStats),
    run: LeaderRun<T>,
) -> (tallies: Seq<Tally<T>>)
    requires
        faithful::<T, D>(),
        0 < ring_channels,
        0 <= group < model.groups().len(),
        group_of(model.groups(), model.place.rank) == group,
        0 < model.group().len(),
        leads::<T, D>(model, input, operation, ring_channels, reduce, trace, result, run),
    ensures
        led(model.groups(), group, operation, 0, 3, trace, run.sharing),
        ({
            let length = input.len() as int;
            let channels = effective_channels(ring_channels, length);
            let leaders = heads(model.groups());
            let part = trace.subrange(model.group().len() as int, run.sharing);
            &&& channels_ran(
                leader_all_reduce_channels::<T, D>(
                    model,
                    leaders,
                    group,
                    length,
                    channels,
                    operation,
                    reduce,
                ),
                0,
                channels,
                run.collected.values,
                4 * (leaders.len() - 1),
                part,
                tallies,
            )
            &&& took(
                part,
                hops_from(
                    leader_hops(leaders, group, length, channels, operation),
                    0,
                    channels,
                ),
            )
        }),
        left_by(run.collected.values, tallies) == result.0,
{
    let groups = model.groups();
    let own = model.group();
    let count = own.len() as int;
    let length = input.len() as int;
    let channels = effective_channels(ring_channels, length);
    let leaders = heads(groups);
    let places = groups.len() as int;
    let first = trace.subrange(1, count);
    let part = trace.subrange(count, run.sharing);
    lemma_collect_ran::<T, D>(
        model,
        own,
        1,
        operation,
        0,
        length,
        Tally { values: input, bytes: 0, launches: 0 },
        reduce,
        hierarchical_all_reduce_labels(),
        first,
        run.collected,
    );
    let tallies = lemma_leader_ran::<T, D>(
        model,
        leaders,
        group,
        run.collected.values,
        operation,
        ring_channels,
        reduce,
        part,
        run.ringed,
    );
    let hops = hops_from(
        leader_hops(leaders, group, length, channels, operation),
        0,
        channels,
    );
    lemma_leader_hops(groups, group, length, channels, operation);
    lemma_calls_beside(
        groups,
        group,
        part,
        hops,
        hops_from(leader_hops(leaders, 0, length, channels, operation), 0, channels),
    );
    assert forall|i: int| 1 <= i < count implies receives_from(
        (#[trigger] trace[i]).call,
        own[i],
        data_tag(operation, 0, own[i]),
    ) && trace[i].reply.frame() is Ok by {
        assert(first[i - 1] == trace[i]);
    }
    assert forall|i: int| count <= i < run.sharing implies addresses(
        (#[trigger] trace[i]).call,
        leader_after(groups, group),
    ) || awaits(trace[i].call, leader_before(groups, group)) by {
        assert(part[i - count] == trace[i]);
    }
    tallies
}

/// A member's part in a hierarchical all-reduce.
proof fn lemma_member_served<T, D: RankDevice<T>>(
    model: CollectiveModel,
    group: int,
    member: int,
    input: Seq<T>,
    operation: u64,
    reduction: ReductionOperation,
    ring_channels: int,
    reduce: spec_fn(T, T) -> T,
    trace: Seq<TransportEvent>,
    result: (Seq<T>, CollectiveStats),
)
    requires
        model.tuning.hierarchy_groups is Some,
        apart(model.groups(), model.groups().len() as int),
        0 <= group < model.groups().len(),
        1 <= member < model.groups()[group].len(),
        model.groups()[group][member] == model.place.rank,
        ran(
            all_reduce_hierarchical_script::<T, D>(
                model,
                input,
                operation,
                reduction,
                ring_channels,
                reduce,
            ),
            trace,
            result,
        ),
    ensures
        served(model.groups(), group, member, operation, 0, 3, trace),
        sent(trace[1].call) == D::encoding(input),
        result.0 == D::reading(got(trace[2])),
{
    let groups = model.groups();
    lemma_membership(groups, group, member);
    assert(groups[group][0] != groups[group][member]);
    let agreed = all_reduce_hierarchy_agreed::<T, D>(
        model,
        input,
        operation,
        ring_channels,
        reduce,
    );
    lemma_agreed(
        fnv(
            agreement_bytes(
                operation,
                input.len() as u64,
                groups,
                (0x600 + reduction.spec_code()) as u32,
                ring_channels as u64,
                model.channel_rails(ring_channels),
            ),
        ),
        "invalid hierarchical collective agreement response"@,
        agreed,
        trace,
        result,
    );
    lemma_member_ran::<T, D>(
        model,
        groups[group][0],
        input,
        operation,
        0,
        3,
        input.len() as int,
        model.hierarchy_steps(2 * (groups.len() - 1)),
        hierarchical_all_reduce_labels().bytes,
        trace.skip(1),
        result,
    );
    assert(trace.skip(1)[0] == trace[1]);
    assert(trace.skip(1)[1] == trace[2]);
}

/// Every rank of a world runs its part of a hierarchical all-reduce to the end, and
/// what it receives is what the others sent it.
pub open spec fn hierarchical_all_reduce_ran<T, D: RankDevice<T>>(
    models: Seq<CollectiveModel>,
    inputs: Seq<Seq<T>>,
    length: int,
    operation: u64,
    reduction: ReductionOperation,
    ring_channels: int,
    reduce: spec_fn(T, T) -> T,
    traces: Seq<Seq<TransportEvent>>,
    results: Seq<(Seq<T>, CollectiveStats)>,
) -> bool {
    &&& faithful::<T, D>()
    &&& one_world(models)
    &&& models[0].tuning.hierarchy_groups is Some
    &&& inputs.len() == models.len()
    &&& traces.len() == models.len()
    &&& results.len() == models.len()
    &&& 0 < ring_channels
    &&& in_order_delivery(traces)
    &&& forall|r: int| 0 <= r < inputs.len() ==> (#[trigger] inputs[r]).len() == length
    &&& forall|r: int|
        #![trigger results[r]]
        0 <= r < models.len() ==> ran(
            all_reduce_hierarchical_script::<T, D>(
                models[r],
                inputs[r],
                operation,
                reduction,
                ring_channels,
                reduce,
            ),
            traces[r],
            results[r],
        )
}

/// How a leader's part ran.
spec fn leader_run<T, D: RankDevice<T>>(
    models: Seq<CollectiveModel>,
    inputs: Seq<Seq<T>>,
    operation: u64,
    ring_channels: int,
    reduce: spec_fn(T, T) -> T,
    traces: Seq<Seq<TransportEvent>>,
    results: Seq<(Seq<T>, CollectiveStats)>,
    group: int,
) -> LeaderRun<T> {
    let rank = models[0].groups()[group][0] as int;
    choose|run: LeaderRun<T>|
        leads::<T, D>(
            models[rank],
            inputs[rank],
            operation,
            ring_channels,
            reduce,
            traces[rank],
            results[rank],
            run,
        )
}

proof fn lemma_leader_run<T, D: RankDevice<T>>(
    models: Seq<CollectiveModel>,
    inputs: Seq<Seq<T>>,
    length: int,
    operation: u64,
    reduction: ReductionOperation,
    ring_channels: int,
    reduce: spec_fn(T, T) -> T,
    traces: Seq<Seq<TransportEvent>>,
    results: Seq<(Seq<T>, CollectiveStats)>,
    group: int,
)
    requires
        hierarchical_all_reduce_ran::<T, D>(
            models,
            inputs,
            length,
            operation,
            reduction,
            ring_channels,
            reduce,
            traces,
            results,
        ),
        0 <= group < models[0].groups().len(),
        0 < models[0].groups()[group].len(),
    ensures
        ({
            let rank = models[0].groups()[group][0] as int;
            leads::<T, D>(
                models[rank],
                inputs[rank],
                operation,
                ring_channels,
                reduce,
                traces[rank],
                results[rank],
                leader_run::<T, D>(
                    models,
                    inputs,
                    operation,
                    ring_channels,
                    reduce,
                    traces,
                    results,
                    group,
                ),
            )
        }),
{
    lemma_world_groups(models, group, 0);
    let rank = models[0].groups()[group][0] as int;
    let run = lemma_leader_parts::<T, D>(
        models[rank],
        inputs[rank],
        operation,
        reduction,
        ring_channels,
        reduce,
        traces[rank],
        results[rank],
    );
}

/// The conversations of a hierarchical all-reduce.
proof fn lemma_all_reduce_tiered<T, D: RankDevice<T>>(
    models: Seq<CollectiveModel>,
    inputs: Seq<Seq<T>>,
    length: int,
    operation: u64,
    reduction: ReductionOperation,
    ring_channels: int,
    reduce: spec_fn(T, T) -> T,
    traces: Seq<Seq<TransportEvent>>,
    results: Seq<(Seq<T>, CollectiveStats)>,
    sharing: Seq<int>,
)
    requires
        hierarchical_all_reduce_ran::<T, D>(
            models,
            inputs,
            length,
            operation,
            reduction,
            ring_channels,
            reduce,
            traces,
            results,
        ),
        sharing == Seq::new(
            models[0].groups().len(),
            |g: int|
                leader_run::<T, D>(
                    models,
                    inputs,
                    operation,
                    ring_channels,
                    reduce,
                    traces,
                    results,
                    g,
                ).sharing,
        ),
    ensures
        tiered(models[0].groups(), operation, 0, 3, traces, sharing),
{
    reveal(tiered);
    let groups = models[0].groups();
    assert(models[0].valid());
    assert(is_hierarchy(models.len() as u32, groups));
    assert forall|g: int| #![trigger sharing[g]] 0 <= g < groups.len() implies led(
        groups,
        g,
        operation,
        0,
        3,
        traces[groups[g][0] as int],
        sharing[g],
    ) by {
        assert(groups[g].len() > 0);
        lemma_world_groups(models, g, 0);
        lemma_leader_run::<T, D>(
            models,
            inputs,
            length,
            operation,
            reduction,
            ring_channels,
            reduce,
            traces,
            results,
            g,
        );
        let rank = groups[g][0] as int;
        let tallies = lemma_leads_led::<T, D>(
            models[rank],
            g,
            inputs[rank],
            operation,
            ring_channels,
            reduce,
            traces[rank],
            results[rank],
            leader_run::<T, D>(
                models,
                inputs,
                operation,
                ring_channels,
                reduce,
                traces,
                results,
                g,
            ),
        );
    }
    assert forall|g: int, k: int|
        #![trigger groups[g][k]]
        0 <= g < groups.len() && 1 <= k < groups[g].len() implies served(
        groups,
        g,
        k,
        operation,
        0,
        3,
        traces[groups[g][k] as int],
    ) by {
        lemma_world_groups(models, g, k);
        let rank = groups[g][k] as int;
        lemma_member_served::<T, D>(
            models[rank],
            g,
            k,
            inputs[rank],
            operation,
            reduction,
            ring_channels,
            reduce,
            traces[rank],
            results[rank],
        );
    }
}

/// A leader has collected its group's fold.
proof fn lemma_group_collected<T, D: RankDevice<T>>(
    models: Seq<CollectiveModel>,
    inputs: Seq<Seq<T>>,
    length: int,
    operation: u64,
    reduction: ReductionOperation,
    ring_channels: int,
    reduce: spec_fn(T, T) -> T,
    traces: Seq<Seq<TransportEvent>>,
    results: Seq<(Seq<T>, CollectiveStats)>,
    sharing: Seq<int>,
    group: int,
)
    requires
        hierarchical_all_reduce_ran::<T, D>(
            models,
            inputs,
            length,
            operation,
            reduction,
            ring_channels,
            reduce,
            traces,
            results,
        ),
        tiered(models[0].groups(), operation, 0, 3, traces, sharing),
        0 <= group < models[0].groups().len(),
    ensures
        leader_run::<T, D>(
            models,
            inputs,
            operation,
            ring_channels,
            reduce,
            traces,
            results,
            group,
        ).collected.values == group_tables(models[0].groups(), inputs, length, reduce)[group],
{
    let groups = models[0].groups();
    let own = groups[group];
    let count = own.len() as int;
    assert(groups[group].len() > 0);
    lemma_world_groups(models, group, 0);
    let rank = own[0] as int;
    let run = leader_run::<T, D>(
        models,
        inputs,
        operation,
        ring_channels,
        reduce,
        traces,
        results,
        group,
    );
    lemma_leader_run::<T, D>(
        models,
        inputs,
        length,
        operation,
        reduction,
        ring_channels,
        reduce,
        traces,
        results,
        group,
    );
    let first = traces[rank].subrange(1, count);
    assert(inputs[rank].len() == length);
    assert forall|k: int| #![trigger first[k]] 0 <= k < count - 1 implies {
        &&& got(first[k]) == D::encoding(inputs[own[1 + k] as int])
        &&& inputs[own[1 + k] as int].len() == length
    } by {
        lemma_world_groups(models, group, 1 + k);
        let member = own[1 + k] as int;
        assert(inputs[member].len() == length);
        lemma_member_served::<T, D>(
            models[member],
            group,
            1 + k,
            inputs[member],
            operation,
            reduction,
            ring_channels,
            reduce,
            traces[member],
            results[member],
        );
        lemma_sent_up(groups, operation, 0, 3, traces, sharing, group, 1 + k);
        assert(first[k] == traces[rank][1 + k]);
    }
    lemma_collect_values::<T, D>(
        models[rank],
        own,
        1,
        operation,
        0,
        length,
        Tally { values: inputs[rank], bytes: 0, launches: 0 },
        reduce,
        hierarchical_all_reduce_labels(),
        first,
        run.collected,
        inputs,
    );
    assert(run.collected.values =~= group_tables(groups, inputs, length, reduce)[group]);
}

/// A hierarchical all-reduce. Where every rank of a world runs its part to the end
/// and receives what the others send it, all ranks hold the same: each element is
/// reduced within the groups, and what the leaders then hold is reduced round the
/// leaders. With a reduction whose order does not matter that is the reduction over
/// the ranks in order. All ranks report the same steps, and only leaders launch
/// kernels.
pub proof fn law_hierarchical_all_reduce<T, D: RankDevice<T>>(
    models: Seq<CollectiveModel>,
    inputs: Seq<Seq<T>>,
    length: int,
    operation: u64,
    reduction: ReductionOperation,
    ring_channels: int,
    reduce: spec_fn(T, T) -> T,
    traces: Seq<Seq<TransportEvent>>,
    results: Seq<(Seq<T>, CollectiveStats)>,
)
    requires
        hierarchical_all_reduce_ran::<T, D>(
            models,
            inputs,
            length,
            operation,
            reduction,
            ring_channels,
            reduce,
            traces,
            results,
        ),
    ensures
        forall|r: int|
            0 <= r < models.len() ==> (#[trigger] results[r]).0 == Seq::new(
                length as nat,
                |x: int|
                    leaders_reduced(
                        group_tables(models[0].groups(), inputs, length, reduce),
                        length,
                        effective_channels(ring_channels, length),
                        reduce,
                        x,
                    ),
            ),
        order_free(reduce) ==> forall|r: int, x: int|
            #![trigger results[r].0[x]]
            0 <= r < models.len() && 0 <= x < length ==> results[r].0[x] == rank_fold(
                inputs,
                x,
                models.len() - 1,
                reduce,
            ),
        forall|r: int|
            0 <= r < models.len() ==> hierarchical_cost(
                models[r],
                2 * (models[0].groups().len() - 1),
                (#[trigger] results[r]).1,
            ),
{
    assert forall|r: int| 0 <= r < models.len() implies hierarchical_cost(
        models[r],
        2 * (models[0].groups().len() - 1),
        (#[trigger] results[r]).1,
    ) by {
        assert(models[r].valid() && models[r].tuning == models[0].tuning);
        lemma_all_reduce_cost::<T, D>(
            models[r],
            inputs[r],
            operation,
            reduction,
            ring_channels,
            reduce,
            traces[r],
            results[r],
        );
    }
    let groups = models[0].groups();
    let tables = group_tables(groups, inputs, length, reduce);
    let channels = effective_channels(ring_channels, length);
    let places = groups.len() as int;
    assert(models[0].valid());
    assert(inputs[0].len() == length);
    let sharing = Seq::new(
        groups.len(),
        |g: int|
            leader_run::<T, D>(
                models,
                inputs,
                operation,
                ring_channels,
                reduce,
                traces,
                results,
                g,
            ).sharing,
    );
    lemma_all_reduce_tiered::<T, D>(
        models,
        inputs,
        length,
        operation,
        reduction,
        ring_channels,
        reduce,
        traces,
        results,
        sharing,
    );
    let reduced = Seq::new(
        length as nat,
        |x: int| leaders_reduced(tables, length, channels, reduce, x),
    );
    assert forall|g: int| 0 <= g < places implies #[trigger] results[groups[g][0] as int].0
        == reduced by {
        lemma_leaders_left::<T, D>(
            models,
            inputs,
            length,
            operation,
            reduction,
            ring_channels,
            reduce,
            traces,
            results,
            sharing,
            g,
        );
    }
    assert forall|r: int| 0 <= r < models.len() implies (#[trigger] results[r]).0 == reduced by {
        assert(grouped(groups, places, r as u32));
        let g = group_of(groups, r as u32);
        assert(groups[g].contains(r as u32));
        let k = groups[g].index_of(r as u32);
        assert(groups[g][k] == r as u32);
        assert(results[groups[g][0] as int].0 == reduced);
        if k > 0 {
            lemma_result_shared::<T, D>(
                models,
                inputs,
                length,
                operation,
                reduction,
                ring_channels,
                reduce,
                traces,
                results,
                sharing,
                g,
                k,
            );
        }
    }
    if order_free(reduce) {
        assert forall|r: int, x: int|
            #![trigger results[r].0[x]]
            0 <= r < models.len() && 0 <= x < length implies results[r].0[x] == rank_fold(
            inputs,
            x,
            models.len() - 1,
            reduce,
        ) by {
            assert(results[r].0 == reduced);
            let c = balanced_owner(length, channels, x);
            law_groups_then_leaders(
                inputs,
                models.len() as u32,
                groups,
                tables,
                x,
                balanced_owner(
                    chunk_length(length, channels, c),
                    places,
                    x - balanced_start(length, channels, c),
                ),
                reduce,
            );
        }
    }
}

/// What the leaders' all-reduce leaves a leader.
proof fn lemma_leaders_left<T, D: RankDevice<T>>(
    models: Seq<CollectiveModel>,
    inputs: Seq<Seq<T>>,
    length: int,
    operation: u64,
    reduction: ReductionOperation,
    ring_channels: int,
    reduce: spec_fn(T, T) -> T,
    traces: Seq<Seq<TransportEvent>>,
    results: Seq<(Seq<T>, CollectiveStats)>,
    sharing: Seq<int>,
    group: int,
)
    requires
        hierarchical_all_reduce_ran::<T, D>(
            models,
            inputs,
            length,
            operation,
            reduction,
            ring_channels,
            reduce,
            traces,
            results,
        ),
        sharing == Seq::new(
            models[0].groups().len(),
            |g: int|
                leader_run::<T, D>(
                    models,
                    inputs,
                    operation,
                    ring_channels,
                    reduce,
                    traces,
                    results,
                    g,
                ).sharing,
        ),
        tiered(models[0].groups(), operation, 0, 3, traces, sharing),
        0 <= group < models[0].groups().len(),
    ensures
        results[models[0].groups()[group][0] as int].0 == Seq::new(
            length as nat,
            |x: int|
                leaders_reduced(
                    group_tables(models[0].groups(), inputs, length, reduce),
                    length,
                    effective_channels(ring_channels, length),
                    reduce,
                    x,
                ),
        ),
{
    let groups = models[0].groups();
    let leaders = heads(groups);
    let places = groups.len() as int;
    let tables = group_tables(groups, inputs, length, reduce);
    let channels = effective_channels(ring_channels, length);
    let step = 4 * (places - 1);
    let said = between_leaders(groups, traces, sharing);
    let led_by = Seq::new(groups.len(), |g: int| models[groups[g][0] as int]);
    assert(inputs[0].len() == length);
    let tallies = Seq::new(
        groups.len(),
        |g: int|
            choose|t: Seq<Tally<T>>|
                channels_ran(
                    leader_all_reduce_channels::<T, D>(
                        led_by[g],
                        leaders,
                        g,
                        length,
                        channels,
                        operation,
                        reduce,
                    ),
                    0,
                    channels,
                    tables[g],
                    step,
                    said[g],
                    t,
                ) && left_by(tables[g], t) == results[groups[g][0] as int].0,
    );
    assert forall|g: int|
        #![trigger tallies[g]]
        #![trigger said[g]]
        0 <= g < places implies channels_ran(
        leader_all_reduce_channels::<T, D>(
            led_by[g],
            leaders,
            g,
            length,
            channels,
            operation,
            reduce,
        ),
        0,
        channels,
        tables[g],
        step,
        said[g],
        tallies[g],
    ) && left_by(tables[g], tallies[g]) == results[groups[g][0] as int].0 && took(
        said[g],
        hops_from(leader_hops(leaders, g, length, channels, operation), 0, channels),
    ) by {
        assert(groups[g].len() > 0);
        lemma_world_groups(models, g, 0);
        let rank = groups[g][0] as int;
        assert(inputs[rank].len() == length);
        let run = leader_run::<T, D>(
            models,
            inputs,
            operation,
            ring_channels,
            reduce,
            traces,
            results,
            g,
        );
        lemma_leader_run::<T, D>(
            models,
            inputs,
            length,
            operation,
            reduction,
            ring_channels,
            reduce,
            traces,
            results,
            g,
        );
        lemma_group_collected::<T, D>(
            models,
            inputs,
            length,
            operation,
            reduction,
            ring_channels,
            reduce,
            traces,
            results,
            sharing,
            g,
        );
        let found = lemma_leads_led::<T, D>(
            models[rank],
            g,
            inputs[rank],
            operation,
            ring_channels,
            reduce,
            traces[rank],
            results[rank],
            run,
        );
        assert(sharing[g] == run.sharing);
        assert(channels_ran(
            leader_all_reduce_channels::<T, D>(
                led_by[g],
                leaders,
                g,
                length,
                channels,
                operation,
                reduce,
            ),
            0,
            channels,
            tables[g],
            step,
            said[g],
            found,
        ) && left_by(tables[g], found) == results[groups[g][0] as int].0);
    }
    let hops = Seq::new(
        groups.len(),
        |g: int| hops_from(leader_hops(leaders, g, length, channels, operation), 0, channels),
    );
    assert forall|g: int| #![trigger hops[g]] 0 <= g < places implies took(said[g], hops[g])
        && beside(groups, g, hops[g], hops[0]) by {
        assert(tallies[g].len() == channels);
        lemma_leader_hops(groups, g, length, channels, operation);
    }
    lemma_leaders_handed_on(groups, operation, 0, 3, traces, sharing, hops);
    assert forall|g: int| #![trigger led_by[g]] 0 <= g < places implies led_by[g].element_type
        == led_by[0].element_type && led_by[g].tuning == led_by[0].tuning && led_by[g].rails
        == led_by[0].rails by {
        assert(groups[g].len() > 0 && groups[0].len() > 0);
        lemma_world_groups(models, g, 0);
        lemma_world_groups(models, 0, 0);
        let rank = groups[g][0] as int;
        let first = groups[0][0] as int;
        assert(models[rank].valid() && models[first].valid());
        assert(models[rank].tuning == models[0].tuning);
        assert(models[first].tuning == models[0].tuning);
    }
    assert forall|g: int, c: int|
        #![trigger led_by[g].rail(c)]
        0 <= g < places && 0 <= c < channels implies led_by[g].rail(c) == led_by[0].rail(c) by {
        assert(led_by[g].rails == led_by[0].rails);
    }
    lemma_leader_channels::<T, D>(
        led_by,
        leaders,
        tables,
        length,
        channels,
        operation,
        reduce,
        said,
        tallies,
        channels,
    );
    let last = before_channel(tables, tallies, channels);
    assert(tallies[group].len() == channels);
    let result = results[groups[group][0] as int].0;
    assert(last[group] == result);
    assert forall|x: int| 0 <= x < length implies result[x] == leaders_reduced(
        tables,
        length,
        channels,
        reduce,
        x,
    ) by {
        lemma_balanced_owner(length, channels, x);
        assert(last[group][x] == result[x]);
    }
    assert(result =~= Seq::new(
        length as nat,
        |x: int| leaders_reduced(tables, length, channels, reduce, x),
    ));
}

/// A member ends with what its leader has.
proof fn lemma_result_shared<T, D: RankDevice<T>>(
    models: Seq<CollectiveModel>,
    inputs: Seq<Seq<T>>,
    length: int,
    operation: u64,
    reduction: ReductionOperation,
    ring_channels: int,
    reduce: spec_fn(T, T) -> T,
    traces: Seq<Seq<TransportEvent>>,
    results: Seq<(Seq<T>, CollectiveStats)>,
    sharing: Seq<int>,
    group: int,
    member: int,
)
    requires
        hierarchical_all_reduce_ran::<T, D>(
            models,
            inputs,
            length,
            operation,
            reduction,
            ring_channels,
            reduce,
            traces,
            results,
        ),
        sharing == Seq::new(
            models[0].groups().len(),
            |g: int|
                leader_run::<T, D>(
                    models,
                    inputs,
                    operation,
                    ring_channels,
                    reduce,
                    traces,
                    results,
                    g,
                ).sharing,
        ),
        tiered(models[0].groups(), operation, 0, 3, traces, sharing),
        0 <= group < models[0].groups().len(),
        1 <= member < models[0].groups()[group].len(),
    ensures
        results[models[0].groups()[group][member] as int].0
            == results[models[0].groups()[group][0] as int].0,
{
    let groups = models[0].groups();
    lemma_world_groups(models, group, 0);
    lemma_world_groups(models, group, member);
    let leader = groups[group][0] as int;
    let rank = groups[group][member] as int;
    let run = leader_run::<T, D>(
        models,
        inputs,
        operation,
        ring_channels,
        reduce,
        traces,
        results,
        group,
    );
    lemma_leader_run::<T, D>(
        models,
        inputs,
        length,
        operation,
        reduction,
        ring_channels,
        reduce,
        traces,
        results,
        group,
    );
    lemma_member_served::<T, D>(
        models[rank],
        group,
        member,
        inputs[rank],
        operation,
        reduction,
        ring_channels,
        reduce,
        traces[rank],
        results[rank],
    );
    lemma_sent_down(groups, operation, 0, 3, traces, sharing, group, member);
    assert(sharing[group] == run.sharing);
    let given = run.ringed.values;
    let sending = traces[leader][run.sharing + (member - 1)];
    assert(sent(sending.call) == D::encoding(given));
    assert(lossless::<T, D>(given));
}

} // verus!

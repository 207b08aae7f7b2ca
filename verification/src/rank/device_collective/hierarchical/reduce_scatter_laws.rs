//! What the ranks of a world end up with from a hierarchical reduce-scatter.

use crate::rank::device::{lossless, RankDevice};
use crate::rank::device_collective::all_gather::lemma_row_fits;
use crate::rank::device_collective::delivery::{
    addresses, awaits, hops_for_each, hops_from, in_order_delivery, lemma_channels_took,
    receives_from, sends_to, took, Hop,
};
use crate::rank::device_collective::hierarchical::all_reduce::leaders_finished;
use crate::rank::device_collective::hierarchical::costs::{
    hierarchical_cost, lemma_reduce_scatter_cost,
};
use crate::rank::device_collective::hierarchical::laws::{
    beside, between_leaders, group_tables, law_groups_then_leaders, leader_after, leader_before,
    led, lemma_beside_channels, lemma_calls_beside, lemma_collect_ran, lemma_collect_values,
    lemma_leaders_handed_on, lemma_member_ran, lemma_members_ring, lemma_sent_down,
    lemma_sent_up, lemma_share_ran, lemma_world_groups, served, tiered,
};
use crate::rank::device_collective::hierarchical::reduce_scatter::{
    channel_parts, group_bounds, hierarchical_reduce_scatter_labels,
    leader_reduce_scatter_channels, leader_reduce_scatter_labels, leader_reduce_scatter_script,
    lemma_packed_members, packed_groups, packed_members, reduce_scatter_hierarchical_script,
    reduce_scatter_hierarchy_agreed, row_payloads, rows_collected, rows_ringed, rows_shared,
    shortest,
};
use crate::rank::device_collective::hierarchical::{
    collect_script, data_tag, group_of, lemma_membership, member_of, share_script,
};
use crate::rank::device_collective::laws::{
    before_channel, calls_for_each, channels_ran, faithful, given_to, got, handed_on, left_by,
    leg_hops, lemma_agreed, lemma_channels_ran, lemma_owner_is, lemma_part_handed_on,
    lemma_relay_length, lemma_rounds_on, one_world, part_of, sent, values_of, Round,
};
use crate::rank::device_collective::ring::{channels_script, round_legs, RoundTags, Tally};
use crate::rank::device_collective::{effective_channels, CollectiveModel};
use crate::rank::hash::fnv;
use crate::rank::layout::{balanced_owner, law_balanced_partition, lemma_balanced_owner};
use crate::rank::operation::ReductionOperation;
use crate::rank::rounds::{
    arranged, come_round, hops, in_block, law_rounds, order_free, rank_fold, ring_fold, rounds,
};
use crate::rank::script::{
    bad_reply, lemma_over, lemma_ran_tried, ran, too_large, Script, Stop, TransportEvent,
};
use crate::rank::stats::CollectiveStats;
use crate::rank::tags::agreement_bytes;
use crate::rank::topology::cycles::heads;
use crate::rank::topology::groups::{grouped, is_hierarchy, members};
use vstd::arithmetic::div_mod::*;
use vstd::prelude::*;

verus! {

/// Where each group's rows stand, group after group.
pub open spec fn row_ranges(groups: Seq<Seq<u32>>, width: int) -> Seq<(int, int)> {
    Seq::new(
        groups.len(),
        |g: int|
            (members(groups, g).len() * width, members(groups, g + 1).len() * width),
    )
}

/// The rows of a group's members, one after the other.
proof fn lemma_members_packed<T>(
    values: Seq<T>,
    width: int,
    group: Seq<u32>,
    count: int,
    rows: int,
    member: int,
    column: int,
)
    requires
        0 <= member < count <= group.len(),
        0 <= column < width,
        values.len() == width * rows,
        forall|i: int| 0 <= i < group.len() ==> #[trigger] group[i] < rows,
    ensures
        packed_members(values, width, group, count)[member * width + column]
            == values[group[member] * width + column],
    decreases count,
{
    lemma_packed_members(values, width, group, count - 1, rows);
    lemma_row_fits(group[count - 1] as int, width, rows);
    if member < count - 1 {
        lemma_members_packed(values, width, group, count - 1, rows, member, column);
        assert(member * width + width <= (count - 1) * width) by (nonlinear_arith)
            requires
                member + 1 <= count - 1,
                0 <= width,
        ;
        assert(0 <= member * width) by (nonlinear_arith)
            requires
                0 <= member,
                0 <= width,
        ;
    }
}

/// The rows of the groups, one group after the other.
pub(crate) proof fn lemma_groups_packed<T>(
    values: Seq<T>,
    width: int,
    groups: Seq<Seq<u32>>,
    count: int,
    rows: int,
)
    requires
        0 <= count <= groups.len(),
        0 <= width,
        values.len() == width * rows,
        forall|g: int, i: int|
            0 <= g < groups.len() && 0 <= i < groups[g].len() ==> #[trigger] groups[g][i] < rows,
    ensures
        packed_groups(values, width, groups, count).len() == members(groups, count).len() * width,
    decreases count,
{
    if count > 0 {
        lemma_groups_packed(values, width, groups, count - 1, rows);
        let group = groups[count - 1];
        lemma_packed_members(values, width, group, group.len() as int, rows);
        let before = members(groups, count - 1).len();
        assert((before + group.len()) * width == before * width + group.len() * width)
            by (nonlinear_arith);
    } else {
        assert(0 * width == 0) by (nonlinear_arith);
    }
}

/// A cell of the packed rows.
proof fn lemma_packed_cell<T>(
    values: Seq<T>,
    width: int,
    groups: Seq<Seq<u32>>,
    count: int,
    rows: int,
    group: int,
    member: int,
    column: int,
)
    requires
        0 <= group < count <= groups.len(),
        0 <= member < groups[group].len(),
        0 <= column < width,
        values.len() == width * rows,
        forall|g: int, i: int|
            0 <= g < groups.len() && 0 <= i < groups[g].len() ==> #[trigger] groups[g][i] < rows,
    ensures
        ({
            let place = members(groups, group).len() * width + member * width + column;
            &&& 0 <= place < packed_groups(values, width, groups, count).len()
            &&& packed_groups(values, width, groups, count)[place]
                == values[groups[group][member] * width + column]
        }),
    decreases count,
{
    let last = count - 1;
    let own = groups[last];
    lemma_groups_packed(values, width, groups, last, rows);
    lemma_packed_members(values, width, own, own.len() as int, rows);
    assert(0 <= member * width) by (nonlinear_arith)
        requires
            0 <= member,
            0 <= width,
    ;
    assert(0 <= members(groups, group).len() * width) by (nonlinear_arith)
        requires
            0 <= width,
    ;
    if group < last {
        lemma_packed_cell(values, width, groups, last, rows, group, member, column);
    } else {
        lemma_members_packed(values, width, own, own.len() as int, rows, member, column);
        assert(member * width + width <= own.len() * width) by (nonlinear_arith)
            requires
                member + 1 <= own.len(),
                0 <= width,
        ;
    }
}

/// The groups' ranges, from whatever they were packed.
proof fn lemma_bounds<T>(values: Seq<T>, width: int, groups: Seq<Seq<u32>>, rows: int)
    requires
        0 <= width,
        values.len() == width * rows,
        forall|g: int, i: int|
            0 <= g < groups.len() && 0 <= i < groups[g].len() ==> #[trigger] groups[g][i] < rows,
    ensures
        group_bounds(values, width, groups) == row_ranges(groups, width),
{
    assert forall|g: int| 0 <= g < groups.len() implies group_bounds(values, width, groups)[g]
        == row_ranges(groups, width)[g] by {
        lemma_groups_packed(values, width, groups, g, rows);
        lemma_groups_packed(values, width, groups, g + 1, rows);
    }
    assert(group_bounds(values, width, groups) =~= row_ranges(groups, width));
}

/// Ranges that lie one after the other up to a length.
pub open spec fn in_line(ranges: Seq<(int, int)>, length: int) -> bool {
    &&& forall|g: int| 0 <= g < ranges.len() ==> 0 <= (#[trigger] ranges[g]).0 <= ranges[g].1
        <= length
    &&& forall|g: int, h: int|
        0 <= g < h < ranges.len() ==> (#[trigger] ranges[g]).1 <= (#[trigger] ranges[h]).0
}

pub(crate) proof fn lemma_members_grow(groups: Seq<Seq<u32>>, count: int, end: int)
    requires
        0 <= count <= end <= groups.len(),
    ensures
        members(groups, count).len() <= members(groups, end).len(),
    decreases end - count,
{
    if count < end {
        lemma_members_grow(groups, count, end - 1);
    }
}

proof fn lemma_ranges_in_line(groups: Seq<Seq<u32>>, width: int)
    requires
        0 <= width,
    ensures
        in_line(
            row_ranges(groups, width),
            members(groups, groups.len() as int).len() * width,
        ),
{
    let ranges = row_ranges(groups, width);
    let count = groups.len() as int;
    assert forall|g: int| 0 <= g < ranges.len() implies 0 <= (#[trigger] ranges[g]).0
        <= ranges[g].1 <= members(groups, count).len() * width by {
        lemma_members_grow(groups, g, g + 1);
        lemma_members_grow(groups, g + 1, count);
        let a = members(groups, g).len();
        let b = members(groups, g + 1).len();
        let c = members(groups, count).len();
        assert(0 <= a * width <= b * width <= c * width) by (nonlinear_arith)
            requires
                0 <= a <= b <= c,
                0 <= width,
        ;
    }
    assert forall|g: int, h: int| 0 <= g < h < ranges.len() implies (#[trigger] ranges[g]).1 <= (
    #[trigger] ranges[h]).0 by {
        lemma_members_grow(groups, g + 1, h);
        let a = members(groups, g + 1).len();
        let b = members(groups, h).len();
        assert(a * width <= b * width) by (nonlinear_arith)
            requires
                0 <= a <= b,
                0 <= width,
        ;
    }
}

/// The channel that an element of a range belongs to.
pub open spec fn part_channel(range: (int, int), channels: int, element: int) -> int {
    balanced_owner(range.1 - range.0, channels, element - range.0)
}

/// The parts of a channel are arranged for a round, and an element of a range lies
/// in the range's part of its own channel only.
proof fn lemma_channel_parts<T>(
    tables: Seq<Seq<T>>,
    ranges: Seq<(int, int)>,
    length: int,
    channels: int,
    channel: int,
)
    requires
        0 < tables.len() == ranges.len(),
        0 <= channel < channels,
        in_line(ranges, length),
        forall|p: int| 0 <= p < tables.len() ==> (#[trigger] tables[p]).len() == length,
    ensures
        arranged(tables, channel_parts(ranges, channels, channel), length),
        forall|g: int, h: int, x: int|
            #![trigger in_block(ranges, g, x), in_block(
                channel_parts(ranges, channels, channel),
                h,
                x,
            )]
            0 <= g < ranges.len() && 0 <= h < ranges.len() && in_block(ranges, g, x) ==> (in_block(
                channel_parts(ranges, channels, channel),
                h,
                x,
            ) <==> g == h && part_channel(ranges[g], channels, x) == channel),
{
    let parts = channel_parts(ranges, channels, channel);
    assert forall|b: int| 0 <= b < ranges.len() implies ranges[b].0 <= (#[trigger] parts[b]).0
        <= parts[b].1 <= ranges[b].1 by {
        law_balanced_partition(ranges[b].1 - ranges[b].0, channels, channel);
    }
    assert forall|b: int, c: int, x: int|
        0 <= b < ranges.len() && 0 <= c < ranges.len() && in_block(parts, b, x) && in_block(
            parts,
            c,
            x,
        ) implies b == c by {
        assert(ranges[b].0 <= parts[b].0 && parts[b].1 <= ranges[b].1);
        assert(ranges[c].0 <= parts[c].0 && parts[c].1 <= ranges[c].1);
        if b < c {
            assert(ranges[b].1 <= ranges[c].0);
        } else if c < b {
            assert(ranges[c].1 <= ranges[b].0);
        }
    }
    assert forall|g: int, h: int, x: int|
        #![trigger in_block(ranges, g, x), in_block(parts, h, x)]
        0 <= g < ranges.len() && 0 <= h < ranges.len() && in_block(ranges, g, x) implies (in_block(
        parts,
        h,
        x,
    ) <==> g == h && part_channel(ranges[g], channels, x) == channel) by {
        assert(ranges[h].0 <= parts[h].0 && parts[h].1 <= ranges[h].1);
        if g < h {
            assert(ranges[g].1 <= ranges[h].0);
        } else if h < g {
            assert(ranges[h].1 <= ranges[g].0);
        } else {
            let size = ranges[g].1 - ranges[g].0;
            lemma_balanced_owner(size, channels, x - ranges[g].0);
            if in_block(parts, h, x) {
                lemma_owner_is(size, channels, channel, x - ranges[g].0);
            }
        }
    }
}

/// How the messages of a channel of the leaders' reduce-scatter are tagged.
pub open spec fn scatter_tags(operation: u64, channel: int) -> RoundTags {
    RoundTags { operation, channel: channel as usize, phase: 8, hierarchical: true }
}

/// The hops of a leader in the channels.
pub open spec fn scatter_hops(
    leaders: Seq<u32>,
    position: int,
    ranges: Seq<(int, int)>,
    channels: int,
    operation: u64,
) -> spec_fn(int) -> Seq<Hop> {
    |channel: int|
        leg_hops(
            round_legs(
                leaders,
                channel_parts(ranges, channels, channel),
                position,
                (position - 1) % (leaders.len() as int),
                scatter_tags(operation, channel).tags(),
                true,
            ),
            0,
        )
}

proof fn lemma_scatter_calls<T, D: RankDevice<T>>(
    model: CollectiveModel,
    leaders: Seq<u32>,
    position: int,
    ranges: Seq<(int, int)>,
    channels: int,
    operation: u64,
    reduce: spec_fn(T, T) -> T,
)
    requires
        0 < leaders.len(),
    ensures
        calls_for_each(
            leader_reduce_scatter_channels::<T, D>(
                model,
                leaders,
                position,
                ranges,
                channels,
                operation,
                reduce,
            ),
            2 * (leaders.len() - 1),
        ),
        hops_for_each(
            leader_reduce_scatter_channels::<T, D>(
                model,
                leaders,
                position,
                ranges,
                channels,
                operation,
                reduce,
            ),
            scatter_hops(leaders, position, ranges, channels, operation),
        ),
{
    reveal(calls_for_each);
    reveal(hops_for_each);
    let channel = leader_reduce_scatter_channels::<T, D>(
        model,
        leaders,
        position,
        ranges,
        channels,
        operation,
        reduce,
    );
    let each = scatter_hops(leaders, position, ranges, channels, operation);
    assert forall|c: int, v: Seq<T>, events: Seq<TransportEvent>, tally: Tally<T>| #[trigger]
        ran(channel(c, v), events, tally) implies events.len() == 2 * (leaders.len() - 1) && took(
        events,
        each(c),
    ) by {
        lemma_relay_length::<T, D>(
            model.element_type,
            model.rail(c),
            round_legs(
                leaders,
                channel_parts(ranges, channels, c),
                position,
                (position - 1) % (leaders.len() as int),
                scatter_tags(operation, c).tags(),
                true,
            ),
            0,
            Tally { values: v, bytes: 0, launches: 0 },
            reduce,
            leader_reduce_scatter_labels(),
            events,
            tally,
        );
    }
}

/// One channel of the leaders' reduce-scatter: it leaves each leader with its own
/// part reduced round the leaders, and changes nothing outside the channel.
proof fn lemma_scatter_channel<T, D: RankDevice<T>>(
    models: Seq<CollectiveModel>,
    leaders: Seq<u32>,
    tables: Seq<Seq<T>>,
    length: int,
    ranges: Seq<(int, int)>,
    channels: int,
    channel: int,
    operation: u64,
    reduce: spec_fn(T, T) -> T,
    traces: Seq<Seq<TransportEvent>>,
    finals: Seq<Tally<T>>,
)
    requires
        faithful::<T, D>(),
        0 < leaders.len(),
        models.len() == leaders.len(),
        tables.len() == leaders.len(),
        traces.len() == leaders.len(),
        finals.len() == leaders.len(),
        ranges.len() == leaders.len(),
        in_line(ranges, length),
        handed_on(traces),
        0 <= channel < channels,
        forall|p: int|
            #![trigger models[p]]
            0 <= p < models.len() ==> models[p].element_type == models[0].element_type
                && models[p].rail(channel) == models[0].rail(channel),
        forall|p: int| 0 <= p < tables.len() ==> (#[trigger] tables[p]).len() == length,
        forall|p: int|
            #![trigger finals[p]]
            0 <= p < leaders.len() ==> ran(
                leader_reduce_scatter_channels::<T, D>(
                    models[p],
                    leaders,
                    p,
                    ranges,
                    channels,
                    operation,
                    reduce,
                )(channel, tables[p]),
                traces[p],
                finals[p],
            ),
    ensures
        forall|p: int| 0 <= p < leaders.len() ==> (#[trigger] finals[p]).values.len() == length,
        forall|p: int, g: int, x: int|
            #![trigger finals[p].values[x], in_block(ranges, g, x)]
            0 <= p < leaders.len() && 0 <= g < ranges.len() && in_block(ranges, g, x) ==> {
                &&& part_channel(ranges[g], channels, x) != channel ==> finals[p].values[x]
                    == tables[p][x]
                &&& part_channel(ranges[g], channels, x) == channel && g == p
                    ==> finals[p].values[x] == ring_fold(
                    tables,
                    x,
                    p + 1,
                    leaders.len() - 1,
                    reduce,
                )
            },
{
    let places = leaders.len() as int;
    let parts = channel_parts(ranges, channels, channel);
    lemma_channel_parts(tables, ranges, length, channels, channel);
    let round = Round {
        element_type: models[0].element_type,
        rail: models[0].rail(channel),
        ring: leaders,
        blocks: parts,
        length,
        offset: -1,
        tags: scatter_tags(operation, channel).tags(),
        reducing: true,
        reduce,
        labels: leader_reduce_scatter_labels(),
    };
    let starts = Seq::new(
        places as nat,
        |p: int| Tally { values: tables[p], bytes: 0, launches: 0 },
    );
    assert(values_of(starts) =~= tables);
    assert forall|p: int| 0 <= p < places implies #[trigger] round.ran_at::<D>(
        p,
        0,
        starts,
        traces,
        finals,
    ) by {
        assert(models[p].element_type == models[0].element_type);
        assert(p + -1 == p - 1);
    }
    round.lemma_round::<D>(0, starts, traces, finals);
    lemma_rounds_on(tables, parts, -1, 0, places - 1, true, reduce);
    law_rounds(tables, parts, length, -1, places - 1, true, reduce);
    let left = rounds(tables, parts, -1, places - 1, true, reduce);
    assert(values_of(finals) == left);
    assert forall|p: int| 0 <= p < places implies (#[trigger] finals[p]).values.len() == length by {
        assert(values_of(finals)[p] == finals[p].values);
        assert(left[p].len() == length);
    }
    assert forall|p: int, g: int, x: int|
        #![trigger finals[p].values[x], in_block(ranges, g, x)]
        0 <= p < places && 0 <= g < ranges.len() && in_block(ranges, g, x) implies {
        &&& part_channel(ranges[g], channels, x) != channel ==> finals[p].values[x] == tables[p][x]
        &&& part_channel(ranges[g], channels, x) == channel && g == p ==> finals[p].values[x]
            == ring_fold(tables, x, p + 1, places - 1, reduce)
    } by {
        assert(values_of(finals)[p] == finals[p].values);
        assert(0 <= ranges[g].0 && ranges[g].1 <= length);
        if part_channel(ranges[g], channels, x) != channel {
            assert forall|b: int| 0 <= b < parts.len() implies !in_block(parts, b, x) by {}
            assert(left[p][x] == tables[p][x]);
        } else if g == p {
            assert(in_block(parts, g, x));
            assert(left[p][x] == come_round(tables, p, x, g, -1, places - 1, true, reduce));
            lemma_mod_add_multiples_vanish(-1, places);
            lemma_small_mod((places - 1) as nat, places as nat);
            assert(hops(p, p, -1, places) == places - 1);
        }
    }
}

/// The first channels of the leaders' reduce-scatter.
proof fn lemma_scatter_channels<T, D: RankDevice<T>>(
    models: Seq<CollectiveModel>,
    leaders: Seq<u32>,
    tables: Seq<Seq<T>>,
    length: int,
    ranges: Seq<(int, int)>,
    channels: int,
    operation: u64,
    reduce: spec_fn(T, T) -> T,
    traces: Seq<Seq<TransportEvent>>,
    tallies: Seq<Seq<Tally<T>>>,
    done: int,
)
    requires
        faithful::<T, D>(),
        0 < leaders.len(),
        models.len() == leaders.len(),
        tables.len() == leaders.len(),
        traces.len() == leaders.len(),
        tallies.len() == leaders.len(),
        ranges.len() == leaders.len(),
        in_line(ranges, length),
        handed_on(traces),
        0 < channels,
        0 <= done <= channels,
        forall|p: int, c: int|
            #![trigger models[p].rail(c)]
            0 <= p < models.len() && 0 <= c < channels ==> models[p].rail(c) == models[0].rail(c),
        forall|p: int|
            #![trigger models[p]]
            0 <= p < models.len() ==> models[p].element_type == models[0].element_type,
        forall|p: int| 0 <= p < tables.len() ==> (#[trigger] tables[p]).len() == length,
        forall|p: int|
            #![trigger tallies[p]]
            0 <= p < leaders.len() ==> channels_ran(
                leader_reduce_scatter_channels::<T, D>(
                    models[p],
                    leaders,
                    p,
                    ranges,
                    channels,
                    operation,
                    reduce,
                ),
                0,
                channels,
                tables[p],
                2 * (leaders.len() - 1),
                traces[p],
                tallies[p],
            ),
    ensures
        forall|p: int|
            0 <= p < leaders.len() ==> (#[trigger] before_channel(tables, tallies, done)[p]).len()
                == length,
        forall|p: int, g: int, x: int|
            #![trigger before_channel(tables, tallies, done)[p][x], in_block(ranges, g, x)]
            0 <= p < leaders.len() && 0 <= g < ranges.len() && in_block(ranges, g, x)
                ==> scatter_left(
                tables,
                ranges,
                channels,
                reduce,
                done,
                p,
                g,
                x,
                before_channel(tables, tallies, done)[p][x],
            ),
    decreases done,
{
    let places = leaders.len() as int;
    let now = before_channel(tables, tallies, done);
    if done == 0 {
        assert forall|p: int, g: int, x: int|
            #![trigger now[p][x], in_block(ranges, g, x)]
            0 <= p < places && 0 <= g < ranges.len() && in_block(ranges, g, x) implies scatter_left(
            tables,
            ranges,
            channels,
            reduce,
            done,
            p,
            g,
            x,
            now[p][x],
        ) by {
            lemma_balanced_owner(ranges[g].1 - ranges[g].0, channels, x - ranges[g].0);
        }
    } else {
        let c = done - 1;
        let step = 2 * (places - 1);
        lemma_scatter_channels::<T, D>(
            models,
            leaders,
            tables,
            length,
            ranges,
            channels,
            operation,
            reduce,
            traces,
            tallies,
            c,
        );
        let before = before_channel(tables, tallies, c);
        let finals = Seq::new(places as nat, |p: int| tallies[p][c]);
        let said = part_of(traces, c * step, c * step + step);
        assert(0 <= c * step && c * step == 2 * (c * (places - 1))) by (nonlinear_arith)
            requires
                0 <= c,
                0 <= step,
                step == 2 * (places - 1),
        ;
        assert(c * step + step <= channels * step) by (nonlinear_arith)
            requires
                c + 1 <= channels,
                0 <= step,
        ;
        assert forall|p: int| 0 <= p < traces.len() implies c * step + step <= (
        #[trigger] traces[p]).len() by {
            assert(tallies[p].len() == channels);
        }
        lemma_part_handed_on(traces, c * step, c * step + step);
        assert forall|p: int| #![trigger finals[p]] 0 <= p < places implies ran(
            leader_reduce_scatter_channels::<T, D>(
                models[p],
                leaders,
                p,
                ranges,
                channels,
                operation,
                reduce,
            )(c, before[p]),
            said[p],
            finals[p],
        ) by {
            assert(tallies[p].len() == channels);
            assert(ran(
                leader_reduce_scatter_channels::<T, D>(
                    models[p],
                    leaders,
                    p,
                    ranges,
                    channels,
                    operation,
                    reduce,
                )(0 + c, given_to(tables[p], tallies[p], c)),
                traces[p].subrange(c * step, c * step + step),
                tallies[p][c],
            ));
        }
        assert forall|p: int| #![trigger models[p]] 0 <= p < places implies models[p].element_type
            == models[0].element_type && models[p].rail(c) == models[0].rail(c) by {}
        lemma_scatter_channel::<T, D>(
            models,
            leaders,
            before,
            length,
            ranges,
            channels,
            c,
            operation,
            reduce,
            said,
            finals,
        );
        assert forall|p: int| 0 <= p < places implies (#[trigger] now[p]).len() == length by {
            assert(now[p] == finals[p].values);
        }
        assert forall|p: int, g: int, x: int|
            #![trigger now[p][x], in_block(ranges, g, x)]
            0 <= p < places && 0 <= g < ranges.len() && in_block(ranges, g, x) implies scatter_left(
            tables,
            ranges,
            channels,
            reduce,
            done,
            p,
            g,
            x,
            now[p][x],
        ) by {
            assert(now[p] == finals[p].values);
            assert(finals[p].values[x] == now[p][x]);
            assert(scatter_left(
                tables,
                ranges,
                channels,
                reduce,
                c,
                p,
                g,
                x,
                before_channel(tables, tallies, c)[p][x],
            ));
            if part_channel(ranges[g], channels, x) == c && g == p {
                assert forall|q: int| #![trigger before[q]] 0 <= q < before.len() implies before[q][x]
                    == tables[q][x] by {
                    assert(scatter_left(
                        tables,
                        ranges,
                        channels,
                        reduce,
                        c,
                        q,
                        g,
                        x,
                        before_channel(tables, tallies, c)[q][x],
                    ));
                }
                lemma_fold_cells(before, x, tables, x, p + 1, places - 1, reduce);
            }
        }
    }
}

/// What the channels before one have left of an element at a place: untouched
/// where its channel is still to come, and reduced round the leaders where its
/// channel is through and it is the place's own.
pub open spec fn scatter_left<T>(
    tables: Seq<Seq<T>>,
    ranges: Seq<(int, int)>,
    channels: int,
    reduce: spec_fn(T, T) -> T,
    done: int,
    place: int,
    group: int,
    element: int,
    value: T,
) -> bool {
    let channel = part_channel(ranges[group], channels, element);
    &&& channel >= done ==> value == tables[place][element]
    &&& channel < done && group == place ==> value == ring_fold(
        tables,
        element,
        place + 1,
        tables.len() - 1,
        reduce,
    )
}

/// Folds over cells that hold the same are the same.
pub proof fn lemma_fold_cells<T>(
    one: Seq<Seq<T>>,
    element: int,
    other: Seq<Seq<T>>,
    place: int,
    start: int,
    count: int,
    reduce: spec_fn(T, T) -> T,
)
    requires
        0 < one.len() == other.len(),
        forall|p: int|
            #![trigger one[p]]
            0 <= p < one.len() ==> one[p][element] == other[p][place],
    ensures
        ring_fold(one, element, start, count, reduce) == ring_fold(
            other,
            place,
            start,
            count,
            reduce,
        ),
    decreases count,
{
    let places = one.len() as int;
    if count <= 0 {
        lemma_mod_bound(start, places);
        assert(one[start % places][element] == other[start % places][place]);
    } else {
        lemma_fold_cells(one, element, other, place, start, count - 1, reduce);
        lemma_mod_bound(start + count, places);
        assert(one[(start + count) % places][element] == other[(start + count) % places][place]);
    }
}

/// A leader's part: what it collected, what the leaders' reduce-scatter left it,
/// and where in its conversation it starts to send to its members.
pub struct ScatterRun<T> {
    pub collected: Tally<T>,
    pub ringed: Tally<T>,
    pub sharing: int,
}

/// The end of a leader's part: it sends each member its row and keeps its own.
proof fn lemma_rows_shared<T, D: RankDevice<T>>(
    model: CollectiveModel,
    width: int,
    operation: u64,
    steps: int,
    collected: Tally<T>,
    range: (int, int),
    ringed: Tally<T>,
    tail: Seq<TransportEvent>,
    result: (Seq<T>, CollectiveStats),
)
    requires
        0 < model.group().len(),
        ran(
            rows_ringed::<T, D>(model, width, operation, steps, collected, range)(ringed),
            tail,
            result,
        ),
    ensures
        ({
            let own = model.group();
            let rows = ringed.values.subrange(range.0, range.1);
            let member = member_of(model.groups(), model.place.rank);
            &&& tail.len() == own.len() - 1
            &&& result.0 == rows.subrange(member * width, member * width + width)
            &&& forall|k: int|
                #![trigger tail[k]]
                0 <= k < tail.len() ==> sends_to(
                    tail[k].call,
                    own[1 + k],
                    data_tag(operation, 9, own[1 + k]),
                ) && sent(tail[k].call) == row_payloads::<T, D>(rows, width)(1 + k)
        }),
{
    let own = model.group();
    let labels = hierarchical_reduce_scatter_labels();
    if collected.bytes + ringed.bytes > usize::MAX {
        lemma_over::<(Seq<T>, CollectiveStats), D::Error>(
            Err(Stop { failure: too_large(labels.bytes), in_channel: false }),
            tail,
        );
    } else if collected.launches + ringed.launches > u32::MAX {
        lemma_over::<(Seq<T>, CollectiveStats), D::Error>(
            Err(Stop { failure: too_large(labels.launches), in_channel: false }),
            tail,
        );
    }
    let rows = ringed.values.subrange(range.0, range.1);
    let member = member_of(model.groups(), model.place.rank);
    let payloads = row_payloads::<T, D>(rows, width);
    let bytes = collected.bytes + ringed.bytes;
    let shared = rows_shared::<T, D>(
        model,
        rows.subrange(member * width, member * width + width),
        steps,
        collected.launches + ringed.launches,
    );
    let (i, total) = lemma_ran_tried(
        share_script::<D::Error>(
            model,
            own,
            1,
            operation,
            9,
            width,
            payloads,
            bytes,
            labels.bytes,
        ),
        false,
        shared,
        tail,
        result,
    );
    lemma_over(shared(total)->Done_0, tail.skip(i));
    lemma_share_ran::<D::Error>(
        model,
        own,
        1,
        operation,
        9,
        width,
        payloads,
        bytes,
        labels.bytes,
        tail.take(i),
        total,
    );
    assert(tail.take(i) =~= tail);
}

/// A leader's part ran like this.
pub open spec fn scatter_leads<T, D: RankDevice<T>>(
    model: CollectiveModel,
    group: int,
    input: Seq<T>,
    width: int,
    operation: u64,
    ring_channels: int,
    reduce: spec_fn(T, T) -> T,
    trace: Seq<TransportEvent>,
    result: (Seq<T>, CollectiveStats),
    run: ScatterRun<T>,
) -> bool {
    let groups = model.groups();
    let own = groups[group];
    let count = own.len() as int;
    let range = row_ranges(groups, width)[group];
    let rows = run.ringed.values.subrange(range.0, range.1);
    &&& count <= run.sharing
    &&& trace.len() == run.sharing + count - 1
    &&& trace[0].call is Exchange
    &&& ran(
        collect_script::<T, D>(
            model,
            own,
            1,
            operation,
            7,
            input.len() as int,
            (Tally { values: input, bytes: 0, launches: 0 }),
            reduce,
            hierarchical_reduce_scatter_labels(),
        ),
        trace.subrange(1, count),
        run.collected,
    )
    &&& run.collected.values.len() == input.len()
    &&& ran(
        leader_reduce_scatter_script::<T, D>(
            model,
            heads(groups),
            group,
            packed_groups(run.collected.values, width, groups, groups.len() as int),
            row_ranges(groups, width),
            operation,
            ring_channels,
            reduce,
        ),
        trace.subrange(count, run.sharing),
        run.ringed,
    )
    &&& result.0 == rows.subrange(0, width)
    &&& forall|i: int|
        run.sharing <= i < trace.len() ==> sends_to(
            (#[trigger] trace[i]).call,
            own[i - run.sharing + 1],
            data_tag(operation, 9, own[i - run.sharing + 1]),
        ) && sent(trace[i].call) == row_payloads::<T, D>(rows, width)(i - run.sharing + 1)
}

/// What a leader does with what it has collected.
proof fn lemma_rows_ringed<T, D: RankDevice<T>>(
    model: CollectiveModel,
    group: int,
    width: int,
    operation: u64,
    ring_channels: int,
    steps: int,
    reduce: spec_fn(T, T) -> T,
    ranks: int,
    collected: Tally<T>,
    later: Seq<TransportEvent>,
    result: (Seq<T>, CollectiveStats),
) -> (split: (int, Tally<T>))
    requires
        0 <= width,
        group_of(model.groups(), model.place.rank) == group,
        collected.values.len() == width * ranks,
        forall|g: int, i: int|
            0 <= g < model.groups().len() && 0 <= i < model.groups()[g].len()
                ==> #[trigger] model.groups()[g][i] < ranks,
        ran(
            rows_collected::<T, D>(model, width, operation, ring_channels, steps, reduce)(
                collected,
            ),
            later,
            result,
        ),
    ensures
        0 <= split.0 <= later.len(),
        ran(
            leader_reduce_scatter_script::<T, D>(
                model,
                heads(model.groups()),
                group,
                packed_groups(
                    collected.values,
                    width,
                    model.groups(),
                    model.groups().len() as int,
                ),
                row_ranges(model.groups(), width),
                operation,
                ring_channels,
                reduce,
            ),
            later.take(split.0),
            split.1,
        ),
        ran(
            rows_ringed::<T, D>(
                model,
                width,
                operation,
                steps,
                collected,
                row_ranges(model.groups(), width)[group],
            )(split.1),
            later.skip(split.0),
            result,
        ),
{
    let groups = model.groups();
    let values = collected.values;
    let packed = packed_groups(values, width, groups, groups.len() as int);
    let ranges = row_ranges(groups, width);
    lemma_bounds(values, width, groups, ranks);
    if packed.len() != values.len() {
        lemma_over::<(Seq<T>, CollectiveStats), D::Error>(
            Err(
                Stop {
                    failure: bad_reply(
                        "hierarchical reduce-scatter packing changed the input length"@,
                    ),
                    in_channel: false,
                },
            ),
            later,
        );
    }
    lemma_ran_tried(
        leader_reduce_scatter_script::<T, D>(
            model,
            heads(groups),
            group,
            packed,
            ranges,
            operation,
            ring_channels,
            reduce,
        ),
        false,
        rows_ringed::<T, D>(model, width, operation, steps, collected, ranges[group]),
        later,
        result,
    )
}

#[verifier::spinoff_prover]
#[verifier::rlimit(40)]
proof fn lemma_scatter_leads<T, D: RankDevice<T>>(
    model: CollectiveModel,
    group: int,
    input: Seq<T>,
    width: int,
    operation: u64,
    reduction: ReductionOperation,
    ring_channels: int,
    reduce: spec_fn(T, T) -> T,
    ranks: int,
    trace: Seq<TransportEvent>,
    result: (Seq<T>, CollectiveStats),
) -> (run: ScatterRun<T>)
    requires
        faithful::<T, D>(),
        model.membership_defect() is None,
        group_of(model.groups(), model.place.rank) == group,
        member_of(model.groups(), model.place.rank) == 0,
        0 < model.groups()[group].len(),
        model.groups()[group][0] == model.place.rank,
        0 <= width,
        input.len() == width * ranks,
        forall|g: int, i: int|
            0 <= g < model.groups().len() && 0 <= i < model.groups()[g].len()
                ==> #[trigger] model.groups()[g][i] < ranks,
        ran(
            reduce_scatter_hierarchical_script::<T, D>(
                model,
                input,
                width,
                operation,
                reduction,
                ring_channels,
                reduce,
            ),
            trace,
            result,
        ),
    ensures
        scatter_leads::<T, D>(
            model,
            group,
            input,
            width,
            operation,
            ring_channels,
            reduce,
            trace,
            result,
            run,
        ),
{
    let groups = model.groups();
    let own = groups[group];
    let labels = hierarchical_reduce_scatter_labels();
    let steps = model.hierarchy_steps(groups.len() - 1);
    let start = Tally { values: input, bytes: 0, launches: 0 };
    lemma_agreed(
        fnv(
            agreement_bytes(
                operation,
                input.len() as u64,
                groups,
                (0x800 + reduction.spec_code()) as u32,
                ring_channels as u64,
                model.channel_rails(ring_channels),
            ),
        ),
        "invalid hierarchical collective agreement response"@,
        reduce_scatter_hierarchy_agreed::<T, D>(
            model,
            input,
            width,
            operation,
            ring_channels,
            reduce,
        ),
        trace,
        result,
    );
    let rest = trace.skip(1);
    let (k, collected) = lemma_ran_tried(
        collect_script::<T, D>(
            model,
            own,
            1,
            operation,
            7,
            input.len() as int,
            start,
            reduce,
            labels,
        ),
        false,
        rows_collected::<T, D>(model, width, operation, ring_channels, steps, reduce),
        rest,
        result,
    );
    assert(k == own.len() - 1 && collected.values.len() == input.len()) by {
        lemma_collect_ran::<T, D>(
            model,
            own,
            1,
            operation,
            7,
            input.len() as int,
            start,
            reduce,
            labels,
            rest.take(k),
            collected,
        );
    }
    let later = rest.skip(k);
    let (j, ringed) = lemma_rows_ringed::<T, D>(
        model,
        group,
        width,
        operation,
        ring_channels,
        steps,
        reduce,
        ranks,
        collected,
        later,
        result,
    );
    let tail = later.skip(j);
    let range = row_ranges(groups, width)[group];
    lemma_rows_shared::<T, D>(
        model,
        width,
        operation,
        steps,
        collected,
        range,
        ringed,
        tail,
        result,
    );
    assert(0 * width == 0) by (nonlinear_arith);
    let run = ScatterRun { collected, ringed, sharing: 1 + k + j };
    assert(trace.subrange(1, 1 + k) =~= rest.take(k));
    assert(trace.subrange(1 + k, run.sharing) =~= later.take(j));
    let rows = ringed.values.subrange(range.0, range.1);
    assert forall|n: int| run.sharing <= n < trace.len() implies sends_to(
        (#[trigger] trace[n]).call,
        own[n - run.sharing + 1],
        data_tag(operation, 9, own[n - run.sharing + 1]),
    ) && sent(trace[n].call) == row_payloads::<T, D>(rows, width)(n - run.sharing + 1) by {
        assert(tail[n - run.sharing] == trace[n]);
    }
    run
}

/// A hierarchical reduce-scatter in every rank of a world.
#[verifier::reject_recursive_types(T)]
pub struct ScatterWorld<T> {
    pub models: Seq<CollectiveModel>,
    pub inputs: Seq<Seq<T>>,
    pub width: int,
    pub operation: u64,
    pub reduction: ReductionOperation,
    pub ring_channels: int,
    pub reduce: spec_fn(T, T) -> T,
    pub traces: Seq<Seq<TransportEvent>>,
    pub results: Seq<(Seq<T>, CollectiveStats)>,
}

impl<T> ScatterWorld<T> {
    pub open spec fn groups(self) -> Seq<Seq<u32>> {
        self.models[0].groups()
    }

    /// The elements of every rank's input.
    pub open spec fn length(self) -> int {
        self.width * self.models.len()
    }

    /// The channels that the leaders use.
    pub open spec fn channels(self) -> int {
        effective_channels(self.ring_channels, shortest(row_ranges(self.groups(), self.width)))
    }

    /// Every rank runs its part to the end, and what it receives is what the others
    /// sent it.
    pub open spec fn ran_by<D: RankDevice<T>>(self) -> bool {
        &&& faithful::<T, D>()
        &&& one_world(self.models)
        &&& self.models[0].tuning.hierarchy_groups is Some
        &&& self.inputs.len() == self.models.len()
        &&& self.traces.len() == self.models.len()
        &&& self.results.len() == self.models.len()
        &&& 0 <= self.width
        &&& 0 < self.ring_channels
        &&& in_order_delivery(self.traces)
        &&& forall|r: int|
            0 <= r < self.inputs.len() ==> (#[trigger] self.inputs[r]).len() == self.length()
        &&& forall|r: int| 0 <= r < self.models.len() ==> #[trigger] self.rank_ran::<D>(r)
    }

    pub open spec fn rank_ran<D: RankDevice<T>>(self, rank: int) -> bool {
        ran(
            reduce_scatter_hierarchical_script::<T, D>(
                self.models[rank],
                self.inputs[rank],
                self.width,
                self.operation,
                self.reduction,
                self.ring_channels,
                self.reduce,
            ),
            self.traces[rank],
            self.results[rank],
        )
    }

    /// The rank that leads a group.
    pub open spec fn leader(self, group: int) -> int {
        self.groups()[group][0] as int
    }

    /// What a leader has of its group's rows at the end.
    pub open spec fn rows(self, group: int, run: ScatterRun<T>) -> Seq<T> {
        let range = row_ranges(self.groups(), self.width)[group];
        run.ringed.values.subrange(range.0, range.1)
    }

    /// A leader's part ran like this.
    pub open spec fn leads<D: RankDevice<T>>(self, group: int, run: ScatterRun<T>) -> bool {
        let rank = self.leader(group);
        scatter_leads::<T, D>(
            self.models[rank],
            group,
            self.inputs[rank],
            self.width,
            self.operation,
            self.ring_channels,
            self.reduce,
            self.traces[rank],
            self.results[rank],
            run,
        )
    }

    /// What every rank of the groups stands by.
    proof fn lemma_setting<D: RankDevice<T>>(self, group: int, member: int)
        requires
            self.ran_by::<D>(),
            0 <= group < self.groups().len(),
            0 <= member < self.groups()[group].len(),
        ensures
            ({
                let rank = self.groups()[group][member];
                &&& rank < self.models.len()
                &&& self.models[rank as int].groups() == self.groups()
                &&& self.models[rank as int].tuning.hierarchy_groups is Some
                &&& self.models[rank as int].place.rank == rank
                &&& self.models[rank as int].membership_defect() is None
                &&& group_of(self.groups(), rank) == group
                &&& member_of(self.groups(), rank) == member
                &&& self.inputs[rank as int].len() == self.length()
                &&& self.rank_ran::<D>(rank as int)
            }),
    {
        lemma_world_groups(self.models, group, member);
        lemma_membership(self.groups(), group, member);
        let rank = self.groups()[group][member] as int;
        assert(self.inputs[rank].len() == self.length());
        assert(self.rank_ran::<D>(rank));
    }

    /// The groups are a hierarchy.
    proof fn lemma_hierarchy<D: RankDevice<T>>(self)
        requires
            self.ran_by::<D>(),
        ensures
            is_hierarchy(self.models.len() as u32, self.groups()),
            self.models.len() <= u32::MAX,
    {
        assert(self.models[0].valid());
    }

    proof fn lemma_leads<D: RankDevice<T>>(self, group: int) -> (run: ScatterRun<T>)
        requires
            self.ran_by::<D>(),
            0 <= group < self.groups().len(),
            0 < self.groups()[group].len(),
        ensures
            self.leads::<D>(group, run),
    {
        self.lemma_setting::<D>(group, 0);
        self.lemma_hierarchy::<D>();
        let rank = self.leader(group);
        lemma_scatter_leads::<T, D>(
            self.models[rank],
            group,
            self.inputs[rank],
            self.width,
            self.operation,
            self.reduction,
            self.ring_channels,
            self.reduce,
            self.models.len() as int,
            self.traces[rank],
            self.results[rank],
        )
    }

    /// How a leader's part ran.
    pub open spec fn run<D: RankDevice<T>>(self, group: int) -> ScatterRun<T> {
        choose|run: ScatterRun<T>| self.leads::<D>(group, run)
    }

    proof fn lemma_run<D: RankDevice<T>>(self, group: int)
        requires
            self.ran_by::<D>(),
            0 <= group < self.groups().len(),
            0 < self.groups()[group].len(),
        ensures
            self.leads::<D>(group, self.run::<D>(group)),
    {
        let run = self.lemma_leads::<D>(group);
    }

    /// Where the leaders start to send to their members.
    pub open spec fn sharing<D: RankDevice<T>>(self) -> Seq<int> {
        Seq::new(self.groups().len(), |g: int| self.run::<D>(g).sharing)
    }

    /// The packed rows that a leader takes to the others.
    pub open spec fn packed<D: RankDevice<T>>(self, group: int) -> Seq<T> {
        packed_groups(
            self.run::<D>(group).collected.values,
            self.width,
            self.groups(),
            self.groups().len() as int,
        )
    }

    /// The hops of a leader.
    pub open spec fn hops(self, group: int) -> Seq<Hop> {
        hops_from(
            scatter_hops(
                heads(self.groups()),
                group,
                row_ranges(self.groups(), self.width),
                self.channels(),
                self.operation,
            ),
            0,
            self.channels(),
        )
    }

    /// The channels of a leader.
    pub open spec fn chain<D: RankDevice<T>>(self, group: int) -> spec_fn(int, Seq<T>) -> Script<
        Tally<T>,
        D::Error,
    > {
        leader_reduce_scatter_channels::<T, D>(
            self.models[self.leader(group)],
            heads(self.groups()),
            group,
            row_ranges(self.groups(), self.width),
            self.channels(),
            self.operation,
            self.reduce,
        )
    }

    proof fn lemma_hops_beside(self, group: int)
        requires
            0 <= group < self.groups().len(),
        ensures
            beside(self.groups(), group, self.hops(group), self.hops(0)),
    {
        let groups = self.groups();
        let leaders = heads(groups);
        let places = groups.len() as int;
        let ranges = row_ranges(groups, self.width);
        lemma_mod_bound(group - 1, places);
        lemma_mod_bound(group + 1, places);
        let own = scatter_hops(leaders, group, ranges, self.channels(), self.operation);
        let first = scatter_hops(leaders, 0, ranges, self.channels(), self.operation);
        assert forall|c: int| 0 <= c < self.channels() implies beside(
            groups,
            group,
            #[trigger] own(c),
            first(c),
        ) by {
            let one = own(c);
            assert forall|j: int| #![trigger one[j]] 0 <= j < one.len() implies {
                &&& one[j].destination == leader_after(groups, group)
                &&& one[j].source == leader_before(groups, group)
                &&& one[j].tag == first(c)[j].tag
            } by {}
        }
        lemma_beside_channels(groups, group, own, first, 0, self.channels());
    }

    /// What a leader says to the others.
    proof fn lemma_chain_ran<D: RankDevice<T>>(self, group: int) -> (tallies: Seq<Tally<T>>)
        requires
            self.ran_by::<D>(),
            0 <= group < self.groups().len(),
            0 < self.groups()[group].len(),
        ensures
            ({
                let part = self.traces[self.leader(group)].subrange(
                    self.groups()[group].len() as int,
                    self.run::<D>(group).sharing,
                );
                &&& channels_ran(
                    self.chain::<D>(group),
                    0,
                    self.channels(),
                    self.packed::<D>(group),
                    2 * (self.groups().len() - 1),
                    part,
                    tallies,
                )
                &&& took(part, self.hops(group))
            }),
            left_by(self.packed::<D>(group), tallies) == self.run::<D>(group).ringed.values,
    {
        self.lemma_setting::<D>(group, 0);
        self.lemma_run::<D>(group);
        let groups = self.groups();
        let own = groups[group];
        let count = own.len() as int;
        let rank = self.leader(group);
        let model = self.models[rank];
        let trace = self.traces[rank];
        let run = self.run::<D>(group);
        let leaders = heads(groups);
        let ranges = row_ranges(groups, self.width);
        let part = trace.subrange(count, run.sharing);
        let finished = leaders_finished::<T, D::Error>(leader_reduce_scatter_labels());
        let (k, total) = lemma_ran_tried(
            channels_script(
                self.chain::<D>(group),
                0,
                self.channels(),
                self.packed::<D>(group),
                Seq::empty(),
            ),
            false,
            finished,
            part,
            run.ringed,
        );
        lemma_over(finished(total)->Done_0, part.skip(k));
        assert(part.take(k) =~= part);
        lemma_scatter_calls::<T, D>(
            model,
            leaders,
            group,
            ranges,
            self.channels(),
            self.operation,
            self.reduce,
        );
        lemma_channels_took(
            self.chain::<D>(group),
            scatter_hops(leaders, group, ranges, self.channels(), self.operation),
            0,
            self.channels(),
            self.packed::<D>(group),
            Seq::empty(),
            part,
            total,
        );
        lemma_channels_ran(
            self.chain::<D>(group),
            0,
            self.channels(),
            self.packed::<D>(group),
            Seq::empty(),
            2 * (groups.len() - 1),
            part,
            total,
        )
    }

    /// A leader has led its group.
    proof fn lemma_led<D: RankDevice<T>>(self, group: int)
        requires
            self.ran_by::<D>(),
            0 <= group < self.groups().len(),
            0 < self.groups()[group].len(),
        ensures
            led(
                self.groups(),
                group,
                self.operation,
                7,
                9,
                self.traces[self.leader(group)],
                self.run::<D>(group).sharing,
            ),
    {
        self.lemma_setting::<D>(group, 0);
        self.lemma_run::<D>(group);
        let groups = self.groups();
        let own = groups[group];
        let count = own.len() as int;
        let rank = self.leader(group);
        let trace = self.traces[rank];
        let run = self.run::<D>(group);
        let first = trace.subrange(1, count);
        let part = trace.subrange(count, run.sharing);
        assert forall|i: int| 1 <= i < count implies receives_from(
            (#[trigger] trace[i]).call,
            own[i],
            data_tag(self.operation, 7, own[i]),
        ) && trace[i].reply.frame() is Ok by {
            lemma_collect_ran::<T, D>(
                self.models[rank],
                own,
                1,
                self.operation,
                7,
                self.length(),
                Tally { values: self.inputs[rank], bytes: 0, launches: 0 },
                self.reduce,
                hierarchical_reduce_scatter_labels(),
                first,
                run.collected,
            );
            assert(first[i - 1] == trace[i]);
        }
        assert(forall|i: int|
            0 <= i < part.len() ==> addresses(
                (#[trigger] part[i]).call,
                leader_after(groups, group),
            ) || awaits(part[i].call, leader_before(groups, group))) by {
            let tallies = self.lemma_chain_ran::<D>(group);
            self.lemma_hops_beside(group);
            lemma_calls_beside(groups, group, part, self.hops(group), self.hops(0));
        }
        assert forall|i: int| count <= i < run.sharing implies addresses(
            (#[trigger] trace[i]).call,
            leader_after(groups, group),
        ) || awaits(trace[i].call, leader_before(groups, group)) by {
            assert(part[i - count] == trace[i]);
        }
    }

    /// A member's part.
    proof fn lemma_served<D: RankDevice<T>>(self, group: int, member: int)
        requires
            self.ran_by::<D>(),
            0 <= group < self.groups().len(),
            1 <= member < self.groups()[group].len(),
        ensures
            ({
                let rank = self.groups()[group][member] as int;
                let trace = self.traces[rank];
                &&& served(self.groups(), group, member, self.operation, 7, 9, trace)
                &&& sent(trace[1].call) == D::encoding(self.inputs[rank])
                &&& self.results[rank].0 == D::reading(got(trace[2]))
            }),
    {
        self.lemma_setting::<D>(group, member);
        let groups = self.groups();
        let rank = groups[group][member] as int;
        let model = self.models[rank];
        let input = self.inputs[rank];
        let trace = self.traces[rank];
        assert(groups[group][0] != groups[group][member]) by {
            self.lemma_hierarchy::<D>();
        }
        lemma_agreed(
            fnv(
                agreement_bytes(
                    self.operation,
                    input.len() as u64,
                    groups,
                    (0x800 + self.reduction.spec_code()) as u32,
                    self.ring_channels as u64,
                    model.channel_rails(self.ring_channels),
                ),
            ),
            "invalid hierarchical collective agreement response"@,
            reduce_scatter_hierarchy_agreed::<T, D>(
                model,
                input,
                self.width,
                self.operation,
                self.ring_channels,
                self.reduce,
            ),
            trace,
            self.results[rank],
        );
        lemma_member_ran::<T, D>(
            model,
            groups[group][0],
            input,
            self.operation,
            7,
            9,
            self.width,
            model.hierarchy_steps(groups.len() - 1),
            hierarchical_reduce_scatter_labels().bytes,
            trace.skip(1),
            self.results[rank],
        );
        assert(trace.skip(1)[0] == trace[1]);
        assert(trace.skip(1)[1] == trace[2]);
    }

    proof fn lemma_tiered<D: RankDevice<T>>(self)
        requires
            self.ran_by::<D>(),
        ensures
            tiered(self.groups(), self.operation, 7, 9, self.traces, self.sharing::<D>()),
    {
        reveal(tiered);
        let groups = self.groups();
        let sharing = self.sharing::<D>();
        self.lemma_hierarchy::<D>();
        assert forall|g: int| #![trigger sharing[g]] 0 <= g < groups.len() implies led(
            groups,
            g,
            self.operation,
            7,
            9,
            self.traces[groups[g][0] as int],
            sharing[g],
        ) by {
            assert(groups[g].len() > 0);
            self.lemma_led::<D>(g);
        }
        assert forall|g: int, k: int|
            #![trigger groups[g][k]]
            0 <= g < groups.len() && 1 <= k < groups[g].len() implies served(
            groups,
            g,
            k,
            self.operation,
            7,
            9,
            self.traces[groups[g][k] as int],
        ) by {
            self.lemma_served::<D>(g, k);
        }
    }

    /// What the groups' members hold, reduced within each group.
    pub open spec fn tables(self) -> Seq<Seq<T>> {
        group_tables(self.groups(), self.inputs, self.length(), self.reduce)
    }

    /// A leader has collected its group's fold.
    proof fn lemma_collected<D: RankDevice<T>>(self, group: int)
        requires
            self.ran_by::<D>(),
            0 <= group < self.groups().len(),
        ensures
            self.run::<D>(group).collected.values == self.tables()[group],
    {
        self.lemma_tiered::<D>();
        let groups = self.groups();
        let own = groups[group];
        let count = own.len() as int;
        assert(groups[group].len() > 0);
        self.lemma_setting::<D>(group, 0);
        self.lemma_run::<D>(group);
        let rank = self.leader(group);
        let run = self.run::<D>(group);
        let first = self.traces[rank].subrange(1, count);
        assert forall|k: int| #![trigger first[k]] 0 <= k < count - 1 implies {
            &&& got(first[k]) == D::encoding(self.inputs[own[1 + k] as int])
            &&& self.inputs[own[1 + k] as int].len() == self.length()
        } by {
            self.lemma_setting::<D>(group, 1 + k);
            self.lemma_served::<D>(group, 1 + k);
            lemma_sent_up(
                groups,
                self.operation,
                7,
                9,
                self.traces,
                self.sharing::<D>(),
                group,
                1 + k,
            );
            assert(first[k] == self.traces[rank][1 + k]);
        }
        lemma_collect_values::<T, D>(
            self.models[rank],
            own,
            1,
            self.operation,
            7,
            self.length(),
            Tally { values: self.inputs[rank], bytes: 0, launches: 0 },
            self.reduce,
            hierarchical_reduce_scatter_labels(),
            first,
            run.collected,
            self.inputs,
        );
        assert(run.collected.values =~= self.tables()[group]);
    }

    /// The packed rows of all leaders.
    pub open spec fn packs<D: RankDevice<T>>(self) -> Seq<Seq<T>> {
        Seq::new(self.groups().len(), |g: int| self.packed::<D>(g))
    }

    /// The packed rows are as many as the ranks, and each holds what its rank's row
    /// is in the group's fold.
    proof fn lemma_packs<D: RankDevice<T>>(self, group: int)
        requires
            self.ran_by::<D>(),
            0 <= group < self.groups().len(),
        ensures
            self.packs::<D>()[group].len() == self.length(),
            members(self.groups(), self.groups().len() as int).len() * self.width
                == self.length(),
            forall|g: int, k: int, column: int|
                #![trigger self.cell(g, k, column)]
                0 <= g < self.groups().len() && 0 <= k < self.groups()[g].len() && 0 <= column
                    < self.width ==> self.packs::<D>()[group][self.cell(g, k, column)]
                    == self.tables()[group][self.groups()[g][k] * self.width + column],
    {
        let groups = self.groups();
        let count = groups.len() as int;
        let ranks = self.models.len() as int;
        self.lemma_hierarchy::<D>();
        self.lemma_collected::<D>(group);
        let values = self.run::<D>(group).collected.values;
        lemma_members_ring(self.models.len() as u32, groups);
        lemma_groups_packed(values, self.width, groups, count, ranks);
        assert(ranks * self.width == self.width * ranks) by (nonlinear_arith);
        assert forall|g: int, k: int, column: int|
            #![trigger self.cell(g, k, column)]
            0 <= g < count && 0 <= k < groups[g].len() && 0 <= column
                < self.width implies self.packs::<D>()[group][self.cell(g, k, column)]
            == self.tables()[group][groups[g][k] * self.width + column] by {
            lemma_packed_cell(values, self.width, groups, count, ranks, g, k, column);
        }
    }

    /// Where a column of a member's row stands among the packed rows.
    pub open spec fn cell(self, group: int, member: int, column: int) -> int {
        members(self.groups(), group).len() * self.width + member * self.width + column
    }

    /// What the leaders' reduce-scatter leaves a leader of its group's rows.
    proof fn lemma_scattered<D: RankDevice<T>>(self, group: int)
        requires
            self.ran_by::<D>(),
            0 <= group < self.groups().len(),
        ensures
            self.run::<D>(group).ringed.values.len() == self.length(),
            forall|x: int|
                #![trigger self.run::<D>(group).ringed.values[x]]
                in_block(row_ranges(self.groups(), self.width), group, x) ==> self.run::<D>(
                    group,
                ).ringed.values[x] == ring_fold(
                    self.packs::<D>(),
                    x,
                    group + 1,
                    self.groups().len() - 1,
                    self.reduce,
                ),
    {
        let groups = self.groups();
        let leaders = heads(groups);
        let places = groups.len() as int;
        let ranges = row_ranges(groups, self.width);
        let sharing = self.sharing::<D>();
        let said = between_leaders(groups, self.traces, sharing);
        let led_by = Seq::new(groups.len(), |g: int| self.models[self.leader(g)]);
        let packs = self.packs::<D>();
        let step = 2 * (places - 1);
        self.lemma_tiered::<D>();
        let tallies = Seq::new(
            groups.len(),
            |g: int|
                choose|t: Seq<Tally<T>>|
                    channels_ran(
                        self.chain::<D>(g),
                        0,
                        self.channels(),
                        packs[g],
                        step,
                        said[g],
                        t,
                    ) && left_by(packs[g], t) == self.run::<D>(g).ringed.values,
        );
        let hops = Seq::new(groups.len(), |g: int| self.hops(g));
        assert forall|g: int|
            #![trigger tallies[g]]
            0 <= g < places implies channels_ran(
            self.chain::<D>(g),
            0,
            self.channels(),
            packs[g],
            step,
            said[g],
            tallies[g],
        ) && left_by(packs[g], tallies[g]) == self.run::<D>(g).ringed.values && took(
            said[g],
            hops[g],
        ) by {
            assert(groups[g].len() > 0);
            let found = self.lemma_chain_ran::<D>(g);
            assert(channels_ran(
                self.chain::<D>(g),
                0,
                self.channels(),
                packs[g],
                step,
                said[g],
                found,
            ) && left_by(packs[g], found) == self.run::<D>(g).ringed.values);
        }
        assert forall|g: int| #![trigger hops[g]] 0 <= g < places implies took(said[g], hops[g])
            && beside(groups, g, hops[g], hops[0]) by {
            assert(tallies[g].len() == self.channels());
            self.lemma_hops_beside(g);
        }
        lemma_leaders_handed_on(groups, self.operation, 7, 9, self.traces, sharing, hops);
        assert forall|g: int| #![trigger led_by[g]] 0 <= g < places implies led_by[g].element_type
            == led_by[0].element_type && led_by[g].rails == led_by[0].rails by {
            assert(groups[g].len() > 0 && groups[0].len() > 0);
            self.lemma_setting::<D>(g, 0);
            self.lemma_setting::<D>(0, 0);
            let rank = self.leader(g);
            let first = self.leader(0);
            assert(self.models[rank].valid() && self.models[first].valid());
            assert(self.models[rank].tuning == self.models[0].tuning);
            assert(self.models[first].tuning == self.models[0].tuning);
        }
        assert forall|g: int, c: int|
            #![trigger led_by[g].rail(c)]
            0 <= g < places && 0 <= c < self.channels() implies led_by[g].rail(c)
            == led_by[0].rail(c) by {
            assert(led_by[g].rails == led_by[0].rails);
        }
        assert forall|g: int| 0 <= g < packs.len() implies (#[trigger] packs[g]).len()
            == self.length() by {
            self.lemma_packs::<D>(g);
        }
        self.lemma_packs::<D>(0);
        lemma_ranges_in_line(groups, self.width);
        lemma_scatter_channels::<T, D>(
            led_by,
            leaders,
            packs,
            self.length(),
            ranges,
            self.channels(),
            self.operation,
            self.reduce,
            said,
            tallies,
            self.channels(),
        );
        let last = before_channel(packs, tallies, self.channels());
        assert(tallies[group].len() == self.channels());
        let ringed = self.run::<D>(group).ringed.values;
        assert(last[group] == ringed);
        assert forall|x: int| #![trigger ringed[x]] in_block(ranges, group, x) implies ringed[x]
            == ring_fold(packs, x, group + 1, places - 1, self.reduce) by {
            assert(scatter_left(
                packs,
                ranges,
                self.channels(),
                self.reduce,
                self.channels(),
                group,
                group,
                x,
                last[group][x],
            ));
            lemma_balanced_owner(
                ranges[group].1 - ranges[group].0,
                self.channels(),
                x - ranges[group].0,
            );
        }
    }

    /// A row of a group at its leader.
    proof fn lemma_row<D: RankDevice<T>>(self, group: int, member: int)
        requires
            self.ran_by::<D>(),
            0 <= group < self.groups().len(),
            0 <= member < self.groups()[group].len(),
        ensures
            ({
                let rows = self.rows(group, self.run::<D>(group));
                &&& 0 <= member * self.width
                &&& member * self.width + self.width <= rows.len()
                &&& rows.subrange(member * self.width, member * self.width + self.width)
                    == self.row(group, member)
            }),
    {
        let groups = self.groups();
        let ranges = row_ranges(groups, self.width);
        let count = groups[group].len();
        let base = members(groups, group).len();
        let rows = self.rows(group, self.run::<D>(group));
        self.lemma_scattered::<D>(group);
        self.lemma_packs::<D>(group);
        lemma_ranges_in_line(groups, self.width);
        let start = member * self.width;
        assert((base + count) * self.width == base * self.width + count * self.width)
            by (nonlinear_arith);
        assert(0 <= start && start + self.width <= count * self.width) by (nonlinear_arith)
            requires
                start == member * self.width,
                0 <= member,
                member + 1 <= count,
                0 <= self.width,
        ;
        assert(rows.len() == count * self.width);
        let read = rows.subrange(start, start + self.width);
        assert forall|column: int| 0 <= column < self.width implies read[column] == self.row(
            group,
            member,
        )[column] by {
            let x = self.cell(group, member, column);
            assert(in_block(ranges, group, x));
            let element = groups[group][member] * self.width + column;
            let packs = self.packs::<D>();
            let tables = self.tables();
            assert forall|p: int| #![trigger packs[p]] 0 <= p < packs.len() implies packs[p][x]
                == tables[p][element] by {
                self.lemma_packs::<D>(p);
                assert(packs[p][self.cell(group, member, column)] == tables[p][element]);
            }
            lemma_fold_cells(
                packs,
                x,
                tables,
                element,
                group + 1,
                groups.len() - 1,
                self.reduce,
            );
            assert(self.run::<D>(group).ringed.values[x] == read[column]);
        }
        assert(read =~= self.row(group, member));
    }

    /// What the collective makes of a rank's row: each column is reduced within the
    /// groups, and what the leaders then hold is reduced round the leaders, ending
    /// at the rank's own.
    pub open spec fn row(self, group: int, member: int) -> Seq<T> {
        Seq::new(
            self.width as nat,
            |column: int|
                ring_fold(
                    self.tables(),
                    self.groups()[group][member] * self.width + column,
                    group + 1,
                    self.groups().len() - 1,
                    self.reduce,
                ),
        )
    }

    /// What a rank ends with.
    proof fn lemma_result<D: RankDevice<T>>(self, group: int, member: int)
        requires
            self.ran_by::<D>(),
            0 <= group < self.groups().len(),
            0 <= member < self.groups()[group].len(),
        ensures
            self.results[self.groups()[group][member] as int].0 == self.row(group, member),
    {
        let groups = self.groups();
        self.lemma_setting::<D>(group, member);
        self.lemma_run::<D>(group);
        self.lemma_row::<D>(group, member);
        let run = self.run::<D>(group);
        let rows = self.rows(group, run);
        if member == 0 {
            assert(0 * self.width == 0) by (nonlinear_arith);
        } else {
            self.lemma_tiered::<D>();
            self.lemma_served::<D>(group, member);
            lemma_sent_down(
                groups,
                self.operation,
                7,
                9,
                self.traces,
                self.sharing::<D>(),
                group,
                member,
            );
            let given = rows.subrange(member * self.width, member * self.width + self.width);
            let sending = self.traces[self.leader(group)][run.sharing + (member - 1)];
            assert(self.sharing::<D>()[group] == run.sharing);
            assert(sent(sending.call) == D::encoding(given));
            assert(lossless::<T, D>(given));
        }
    }
}

/// A hierarchical reduce-scatter. Where every rank of a world runs its part to the
/// end and receives what the others send it, each rank holds its own row: each
/// column is reduced within the groups, and what the leaders then hold is reduced
/// round the leaders. With a reduction whose order does not matter that is the
/// reduction over the ranks in order. All ranks report the same steps, and only
/// leaders launch kernels.
pub proof fn law_hierarchical_reduce_scatter<T, D: RankDevice<T>>(world: ScatterWorld<T>)
    requires
        world.ran_by::<D>(),
    ensures
        forall|g: int, k: int|
            #![trigger world.groups()[g][k]]
            0 <= g < world.groups().len() && 0 <= k < world.groups()[g].len()
                ==> world.results[world.groups()[g][k] as int].0 == world.row(g, k),
        order_free(world.reduce) ==> forall|r: int|
            0 <= r < world.models.len() ==> (#[trigger] world.results[r]).0 == Seq::new(
                world.width as nat,
                |column: int|
                    rank_fold(
                        world.inputs,
                        r * world.width + column,
                        world.models.len() - 1,
                        world.reduce,
                    ),
            ),
        forall|r: int|
            0 <= r < world.models.len() ==> hierarchical_cost(
                world.models[r],
                world.groups().len() - 1,
                (#[trigger] world.results[r]).1,
            ),
{
    let groups = world.groups();
    assert forall|r: int| 0 <= r < world.models.len() implies hierarchical_cost(
        world.models[r],
        world.groups().len() - 1,
        (#[trigger] world.results[r]).1,
    ) by {
        assert(world.rank_ran::<D>(r));
        assert(world.models[r].valid() && world.models[r].tuning == world.models[0].tuning);
        lemma_reduce_scatter_cost::<T, D>(
            world.models[r],
            world.inputs[r],
            world.width,
            world.operation,
            world.reduction,
            world.ring_channels,
            world.reduce,
            world.traces[r],
            world.results[r],
        );
    }
    assert forall|g: int, k: int|
        #![trigger groups[g][k]]
        0 <= g < groups.len() && 0 <= k < groups[g].len() implies world.results[groups[g][k] as int].0
        == world.row(g, k) by {
        world.lemma_result::<D>(g, k);
    }
    if order_free(world.reduce) {
        assert(world.models[0].valid());
        assert(is_hierarchy(world.models.len() as u32, groups));
        assert forall|r: int| 0 <= r < world.models.len() implies (#[trigger] world.results[r]).0
            == Seq::new(
            world.width as nat,
            |column: int|
                rank_fold(
                    world.inputs,
                    r * world.width + column,
                    world.models.len() - 1,
                    world.reduce,
                ),
        ) by {
            assert(grouped(groups, groups.len() as int, r as u32));
            let g = group_of(groups, r as u32);
            assert(groups[g].contains(r as u32));
            let k = groups[g].index_of(r as u32);
            assert(groups[g][k] == r as u32);
            let row = world.row(g, k);
            assert(world.results[r].0 == row);
            assert forall|column: int| 0 <= column < world.width implies row[column] == rank_fold(
                world.inputs,
                r * world.width + column,
                world.models.len() - 1,
                world.reduce,
            ) by {
                lemma_row_fits(r, world.width, world.models.len() as int);
                law_groups_then_leaders(
                    world.inputs,
                    world.models.len() as u32,
                    groups,
                    world.tables(),
                    r * world.width + column,
                    g + 1,
                    world.reduce,
                );
            }
            assert(row =~= Seq::new(
                world.width as nat,
                |column: int|
                    rank_fold(
                        world.inputs,
                        r * world.width + column,
                        world.models.len() - 1,
                        world.reduce,
                    ),
            ));
        }
    }
}

} // verus!

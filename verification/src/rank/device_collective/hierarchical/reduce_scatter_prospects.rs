//! How a hierarchical reduce-scatter fares on a device and a transport that work.

use crate::rank::device::RankDevice;
use crate::rank::device_collective::hierarchical::all_reduce::leaders_finished;
use crate::rank::device_collective::hierarchical::laws::lemma_members_ring;
use crate::rank::device_collective::hierarchical::prospects::{
    encodes_evenly, lemma_channels_fare, lemma_collect_fares, lemma_hierarchy_agreement_fares,
    lemma_member_fares, lemma_relay_fares, lemma_round_legs, lemma_share_fares,
    lemma_totals_overflow, sized_tally, works,
};
use crate::rank::device_collective::hierarchical::reduce_scatter::{
    channel_parts, group_bounds, hierarchical_reduce_scatter_labels,
    leader_reduce_scatter_channels, leader_reduce_scatter_labels, leader_reduce_scatter_script,
    packed_groups, reduce_scatter_hierarchical_script, reduce_scatter_hierarchy_agreed,
    row_payloads, rows_collected, rows_ringed, rows_shared, shortest,
};
use crate::rank::device_collective::hierarchical::reduce_scatter_laws::{
    lemma_groups_packed, lemma_members_grow,
};
use crate::rank::device_collective::hierarchical::{
    collect_script, group_of, member_of, share_script,
};
use crate::rank::device_collective::ring::{channels_script, round_legs, RoundTags, Tally};
use crate::rank::device_collective::{effective_channels, CollectiveModel};
use crate::rank::layout::law_balanced_partition;
use crate::rank::operation::ReductionOperation;
use crate::rank::prospects::{anything, fares, lemma_fares_done, lemma_fares_tried};
use crate::rank::stats::CollectiveStats;
use crate::rank::topology::cycles::heads;
use crate::rank::topology::groups::{is_hierarchy, members};
use vstd::prelude::*;

verus! {

/// The leaders' reduce-scatter.
proof fn lemma_leader_reduce_scatter_fares<T, D: RankDevice<T>>(
    model: CollectiveModel,
    leaders: Seq<u32>,
    position: int,
    values: Seq<T>,
    ranges: Seq<(int, int)>,
    operation: u64,
    ring_channels: int,
    reduce: spec_fn(T, T) -> T,
)
    requires
        model.element_type.width() == D::ELEMENT_SIZE,
        leaders.len() > 0,
        ranges.len() == leaders.len(),
        ring_channels > 0,
        forall|g: int|
            0 <= g < ranges.len() ==> 0 <= (#[trigger] ranges[g]).1 - ranges[g].0 <= usize::MAX,
    ensures
        fares(
            leader_reduce_scatter_script::<T, D>(
                model,
                leaders,
                position,
                values,
                ranges,
                operation,
                ring_channels,
                reduce,
            ),
            works::<T, D>(),
            sized_tally(values.len() as int),
        ),
{
    let works = works::<T, D>();
    let length = values.len() as int;
    let channels = effective_channels(ring_channels, shortest(ranges));
    let count = leaders.len() as int;
    let channel = leader_reduce_scatter_channels::<T, D>(
        model,
        leaders,
        position,
        ranges,
        channels,
        operation,
        reduce,
    );
    let wishes = sized_tally::<T>(length);
    let labels = leader_reduce_scatter_labels();
    assert forall|c: int, held: Seq<T>|
        0 <= c < channels && held.len() == values.len() implies fares(
        #[trigger] channel(c, held),
        works,
        wishes,
    ) by {
        let blocks = channel_parts(ranges, channels, c);
        assert forall|g: int| 0 <= g < blocks.len() implies 0 <= (#[trigger] blocks[g]).1
            - blocks[g].0 <= u64::MAX by {
            assert(0 <= ranges[g].1 - ranges[g].0 <= usize::MAX);
            law_balanced_partition(ranges[g].1 - ranges[g].0, channels, c);
        }
        let tags = RoundTags { operation, channel: c as usize, phase: 8, hierarchical: true };
        let origin = (position - 1) % count;
        let legs = round_legs(leaders, blocks, position, origin, tags.tags(), true);
        lemma_round_legs(leaders, blocks, position, origin, tags.tags(), true);
        lemma_relay_fares::<T, D>(
            model.element_type,
            model.rail(c),
            legs,
            0,
            Tally { values: held, bytes: 0, launches: 0 },
            reduce,
            labels,
        );
    }
    lemma_channels_fare::<T, D>(channel, 0, channels, values, Seq::empty());
    let ran = |run: (Seq<T>, Seq<(int, int)>)| run.0.len() == values.len();
    let last = leaders_finished::<T, D::Error>(labels);
    assert forall|run: (Seq<T>, Seq<(int, int)>)| #[trigger] ran(run) implies fares(
        last(run),
        works,
        wishes,
    ) by {
        lemma_totals_overflow::<D::Error>(run.1, labels);
        lemma_fares_done(last(run), works, wishes);
    }
    lemma_fares_tried(
        channels_script(channel, 0, channels, values, Seq::empty()),
        false,
        last,
        works,
        ran,
        wishes,
    );
}

/// The packed rows are as many as the rows, and a group's are some of them.
proof fn lemma_packed_sizes<T>(
    values: Seq<T>,
    width: int,
    world_size: u32,
    groups: Seq<Seq<u32>>,
)
    requires
        is_hierarchy(world_size, groups),
        0 <= width,
        values.len() == width * world_size,
    ensures
        packed_groups(values, width, groups, groups.len() as int).len() == values.len(),
        forall|g: int|
            0 <= g < groups.len() ==> 0 <= (#[trigger] group_bounds(values, width, groups)[g]).1
                - group_bounds(values, width, groups)[g].0 <= values.len(),
{
    let rows = world_size as int;
    let count = groups.len() as int;
    let ranges = group_bounds(values, width, groups);
    lemma_members_ring(world_size, groups);
    lemma_groups_packed(values, width, groups, count, rows);
    assert(members(groups, count).len() * width == width * rows) by (nonlinear_arith)
        requires
            members(groups, count).len() == rows,
    ;
    assert forall|g: int| 0 <= g < groups.len() implies 0 <= (#[trigger] ranges[g]).1 - ranges[g].0
        <= values.len() by {
        lemma_groups_packed(values, width, groups, g, rows);
        lemma_groups_packed(values, width, groups, g + 1, rows);
        lemma_members_grow(groups, g, g + 1);
        lemma_members_grow(groups, g + 1, count);
        let a = members(groups, g).len();
        let b = members(groups, g + 1).len();
        let c = members(groups, count).len();
        assert(0 <= a * width <= b * width <= c * width) by (nonlinear_arith)
            requires
                0 <= a <= b <= c,
                0 <= width,
        ;
    }
}

/// A leader that hands out the rows of its group.
proof fn lemma_rows_ringed_fares<T, D: RankDevice<T>>(
    model: CollectiveModel,
    width: int,
    operation: u64,
    steps: int,
    collected: Tally<T>,
    range: (int, int),
    ringed: Tally<T>,
)
    ensures
        fares(
            rows_ringed::<T, D>(model, width, operation, steps, collected, range)(ringed),
            works::<T, D>(),
            anything(),
        ),
{
    let works = works::<T, D>();
    let wishes = anything::<(Seq<T>, CollectiveStats)>();
    let labels = hierarchical_reduce_scatter_labels();
    let script = rows_ringed::<T, D>(model, width, operation, steps, collected, range)(ringed);
    if collected.bytes + ringed.bytes > usize::MAX || collected.launches + ringed.launches
        > u32::MAX {
        lemma_fares_done(script, works, wishes);
    } else {
        let rows = ringed.values.subrange(range.0, range.1);
        let member = member_of(model.groups(), model.place.rank);
        let payloads = row_payloads::<T, D>(rows, width);
        let bytes = collected.bytes + ringed.bytes;
        let shared = rows_shared::<T, D>(
            model,
            rows.subrange(member * width, member * width + width),
            steps,
            collected.launches + ringed.launches,
        );
        lemma_share_fares::<T, D>(
            model,
            model.group(),
            1,
            operation,
            9,
            width,
            payloads,
            bytes,
            labels.bytes,
        );
        let counted = anything::<int>();
        assert forall|total: int| #[trigger] counted(total) implies fares(
            shared(total),
            works,
            wishes,
        ) by {
            lemma_fares_done(shared(total), works, wishes);
        }
        lemma_fares_tried(
            share_script::<D::Error>(
                model,
                model.group(),
                1,
                operation,
                9,
                width,
                payloads,
                bytes,
                labels.bytes,
            ),
            false,
            shared,
            works,
            counted,
            wishes,
        );
    }
}

/// Where the device refuses nothing and the transport works, a rank's hierarchical
/// reduce-scatter of a row for every rank ends in a result unless a count does not
/// fit.
pub proof fn law_hierarchical_reduce_scatter_succeeds<T, D: RankDevice<T>>(
    model: CollectiveModel,
    values: Seq<T>,
    width: int,
    operation: u64,
    reduction: ReductionOperation,
    ring_channels: int,
    reduce: spec_fn(T, T) -> T,
)
    requires
        model.element_type.width() == D::ELEMENT_SIZE,
        encodes_evenly::<T, D>(),
        model.valid(),
        model.membership_defect() is None,
        ring_channels > 0,
        0 <= width,
        values.len() == width * model.world(),
        values.len() <= usize::MAX,
    ensures
        fares(
            reduce_scatter_hierarchical_script::<T, D>(
                model,
                values,
                width,
                operation,
                reduction,
                ring_channels,
                reduce,
            ),
            works::<T, D>(),
            anything(),
        ),
{
    let works = works::<T, D>();
    let wishes = anything::<(Seq<T>, CollectiveStats)>();
    let length = values.len() as int;
    let group = model.group();
    let groups = model.groups();
    let steps = model.hierarchy_steps(groups.len() - 1);
    let labels = hierarchical_reduce_scatter_labels();
    assert(width <= length) by (nonlinear_arith)
        requires
            0 <= width,
            length == width * model.world(),
            1 <= model.world(),
    ;
    let agreed = reduce_scatter_hierarchy_agreed::<T, D>(
        model,
        values,
        width,
        operation,
        ring_channels,
        reduce,
    );
    let any = anything::<()>();
    assert forall|done: ()| #[trigger] any(done) implies fares(agreed(done), works, wishes) by {
        if model.place.rank != group[0] {
            lemma_member_fares::<T, D>(
                model,
                group[0],
                values,
                operation,
                7,
                9,
                width,
                steps,
                labels.bytes,
            );
        } else {
            let start = Tally { values, bytes: 0, launches: 0 };
            let hopes = sized_tally::<T>(length);
            let next = rows_collected::<T, D>(
                model,
                width,
                operation,
                ring_channels,
                steps,
                reduce,
            );
            lemma_collect_fares::<T, D>(model, group, 1, operation, 7, start, reduce, labels);
            assert forall|collected: Tally<T>| #[trigger] hopes(collected) implies fares(
                next(collected),
                works,
                wishes,
            ) by {
                let leaders = heads(groups);
                let position = group_of(groups, model.place.rank);
                let packed = packed_groups(
                    collected.values,
                    width,
                    groups,
                    groups.len() as int,
                );
                let ranges = group_bounds(collected.values, width, groups);
                lemma_packed_sizes(collected.values, width, model.place.world_size, groups);
                lemma_leader_reduce_scatter_fares::<T, D>(
                    model,
                    leaders,
                    position,
                    packed,
                    ranges,
                    operation,
                    ring_channels,
                    reduce,
                );
                let last = rows_ringed::<T, D>(
                    model,
                    width,
                    operation,
                    steps,
                    collected,
                    ranges[position],
                );
                assert forall|ringed: Tally<T>| #[trigger] hopes(ringed) implies fares(
                    last(ringed),
                    works,
                    wishes,
                ) by {
                    lemma_rows_ringed_fares::<T, D>(
                        model,
                        width,
                        operation,
                        steps,
                        collected,
                        ranges[position],
                        ringed,
                    );
                }
                lemma_fares_tried(
                    leader_reduce_scatter_script::<T, D>(
                        model,
                        leaders,
                        position,
                        packed,
                        ranges,
                        operation,
                        ring_channels,
                        reduce,
                    ),
                    false,
                    last,
                    works,
                    hopes,
                    wishes,
                );
            }
            lemma_fares_tried(
                collect_script::<T, D>(
                    model,
                    group,
                    1,
                    operation,
                    7,
                    length,
                    start,
                    reduce,
                    labels,
                ),
                false,
                next,
                works,
                hopes,
                wishes,
            );
        }
    }
    let discriminator = (0x800 + reduction.spec_code()) as u32;
    lemma_hierarchy_agreement_fares::<T, D>(
        model,
        operation,
        length,
        discriminator,
        ring_channels,
    );
    lemma_fares_tried(
        model.hierarchy_agreement::<D::Error>(operation, length, discriminator, ring_channels),
        false,
        agreed,
        works,
        any,
        wishes,
    );
}

} // verus!

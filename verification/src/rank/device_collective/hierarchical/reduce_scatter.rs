//! The hierarchical reduce-scatter.

use crate::math::min_int;
use crate::rank::device::{asked, DeviceCall, RankDevice};
use crate::rank::device_collective::all_gather::lemma_row_fits;
use crate::rank::device_collective::hierarchical::all_reduce::{
    answered, leaders_finished, member_script,
};
use crate::rank::device_collective::hierarchical::{
    as_int, collect_script, group_of, group_scope, leaders_scope, member_of, share_next,
    share_script,
};
use crate::rank::device_collective::reduce_scatter::new_buffer;
use crate::rank::device_collective::ring::{
    back, bounds, channels_next, channels_script, counted, ranges_fit, relay, round_legs, tallied,
    total_counts, Labels, RoundTags, Tally,
};
use crate::rank::device_collective::{
    append_values, conversed, effective_channels, from_network, from_rank, lemma_part,
    lemma_performed_part, lemma_performed_rest, lemma_rest, performed, reads_first, CollectiveModel,
    DeviceCollective, Scope,
};
use crate::rank::error::RankError;
use crate::rank::host::exchange::stats_of;
use crate::rank::layout::{
    balanced_ranges, balanced_start, hierarchy_steps, law_balanced_partition, rank_lists,
};
use crate::rank::network::NetworkError;
use crate::rank::operation::ReductionOperation;
use crate::rank::script::{
    bad_reply, fails, followed, lemma_start, reached, too_large, tried, yields, Failure, Script,
};
use crate::rank::stats::CollectiveStats;
use crate::rank::tags::hierarchy_data_tag;
use crate::rank::topology::cycles::heads;
use crate::rank::topology::estimates::group_leaders;
use crate::rank::topology::groups::is_hierarchy;
use crate::rank::topology::TopologyError;
use crate::rank::transport::RankTransport;
use crate::rank::CollectiveAlgorithm;
use std::ops::Range;
use vstd::prelude::*;
use vstd::slice::*;

verus! {

pub open spec fn hierarchical_reduce_scatter_labels() -> Labels {
    Labels {
        bytes: "hierarchical reduce-scatter transferred bytes"@,
        launches: "hierarchical reduce-scatter kernel launches"@,
    }
}

pub open spec fn leader_reduce_scatter_labels() -> Labels {
    Labels {
        bytes: "hierarchical leader reduce-scatter transferred bytes"@,
        launches: "hierarchical leader reduce-scatter kernel launches"@,
    }
}

/// The row of a rank.
pub open spec fn row_of<T>(values: Seq<T>, width: int, rank: u32) -> Seq<T> {
    values.subrange(rank * width, rank * width + width)
}

/// The rows of the first `count` members of a group, one after the other.
pub open spec fn packed_members<T>(values: Seq<T>, width: int, group: Seq<u32>, count: int) -> Seq<T>
    decreases count,
{
    if count <= 0 {
        Seq::empty()
    } else {
        packed_members(values, width, group, count - 1) + row_of(values, width, group[count - 1])
    }
}

/// The rows of the first `count` groups, one after the other.
pub open spec fn packed_groups<T>(
    values: Seq<T>,
    width: int,
    groups: Seq<Seq<u32>>,
    count: int,
) -> Seq<T>
    decreases count,
{
    if count <= 0 {
        Seq::empty()
    } else {
        packed_groups(values, width, groups, count - 1) + packed_members(
            values,
            width,
            groups[count - 1],
            groups[count - 1].len() as int,
        )
    }
}

/// Where each group's rows stand in the packed buffer.
pub open spec fn group_bounds<T>(values: Seq<T>, width: int, groups: Seq<Seq<u32>>) -> Seq<
    (int, int),
> {
    Seq::new(
        groups.len(),
        |g: int|
            (
                packed_groups(values, width, groups, g).len() as int,
                packed_groups(values, width, groups, g + 1).len() as int,
            ),
    )
}

/// The shortest of some ranges.
pub open spec fn shortest(ranges: Seq<(int, int)>) -> int
    decreases ranges.len(),
{
    if ranges.len() == 0 {
        0
    } else if ranges.len() == 1 {
        ranges[0].1 - ranges[0].0
    } else {
        min_int(shortest(ranges.drop_last()), ranges.last().1 - ranges.last().0)
    }
}

/// A channel's part of each range.
pub open spec fn channel_parts(ranges: Seq<(int, int)>, channels: int, channel: int) -> Seq<
    (int, int),
> {
    Seq::new(
        ranges.len(),
        |g: int|
            (
                ranges[g].0 + balanced_start(ranges[g].1 - ranges[g].0, channels, channel),
                ranges[g].0 + balanced_start(ranges[g].1 - ranges[g].0, channels, channel + 1),
            ),
    )
}

/// The channels of the leaders' reduce-scatter.
pub open spec fn leader_reduce_scatter_channels<T, D: RankDevice<T>>(
    model: CollectiveModel,
    leaders: Seq<u32>,
    position: int,
    ranges: Seq<(int, int)>,
    channels: int,
    operation: u64,
    reduce: spec_fn(T, T) -> T,
) -> spec_fn(int, Seq<T>) -> Script<Tally<T>, D::Error> {
    |channel: int, values: Seq<T>|
        relay::<T, D>(
            model.element_type,
            model.rail(channel),
            round_legs(
                leaders,
                channel_parts(ranges, channels, channel),
                position,
                (position - 1) % (leaders.len() as int),
                (RoundTags {
                    operation,
                    channel: channel as usize,
                    phase: 8,
                    hierarchical: true,
                }).tags(),
                true,
            ),
            0,
            Tally { values, bytes: 0, launches: 0 },
            reduce,
            leader_reduce_scatter_labels(),
        )
}

/// The script of the leaders' reduce-scatter.
pub open spec fn leader_reduce_scatter_script<T, D: RankDevice<T>>(
    model: CollectiveModel,
    leaders: Seq<u32>,
    position: int,
    values: Seq<T>,
    ranges: Seq<(int, int)>,
    operation: u64,
    ring_channels: int,
    reduce: spec_fn(T, T) -> T,
) -> Script<Tally<T>, D::Error> {
    let channels = effective_channels(ring_channels, shortest(ranges));
    tried(
        channels_script(
            leader_reduce_scatter_channels::<T, D>(
                model,
                leaders,
                position,
                ranges,
                channels,
                operation,
                reduce,
            ),
            0,
            channels,
            values,
            Seq::empty(),
        ),
        false,
        leaders_finished::<T, D::Error>(leader_reduce_scatter_labels()),
    )
}

/// The bytes of each member's row.
pub open spec fn row_payloads<T, D: RankDevice<T>>(rows: Seq<T>, width: int) -> spec_fn(
    int,
) -> Seq<u8> {
    |index: int| D::encoding(rows.subrange(index * width, index * width + width))
}

pub open spec fn rows_shared<T, D: RankDevice<T>>(
    model: CollectiveModel,
    row: Seq<T>,
    steps: int,
    launches: int,
) -> spec_fn(int) -> Script<(Seq<T>, CollectiveStats), D::Error> {
    |bytes: int|
        yields(
            (
                row,
                stats_of(
                    model.place,
                    CollectiveAlgorithm::Hierarchical,
                    steps,
                    bytes,
                    launches,
                ),
            ),
        )
}

pub open spec fn rows_ringed<T, D: RankDevice<T>>(
    model: CollectiveModel,
    width: int,
    operation: u64,
    steps: int,
    collected: Tally<T>,
    range: (int, int),
) -> spec_fn(Tally<T>) -> Script<(Seq<T>, CollectiveStats), D::Error> {
    |ringed: Tally<T>|
        {
            let labels = hierarchical_reduce_scatter_labels();
            let rows = ringed.values.subrange(range.0, range.1);
            let member = member_of(model.groups(), model.place.rank);
            if collected.bytes + ringed.bytes > usize::MAX {
                fails(too_large(labels.bytes))
            } else if collected.launches + ringed.launches > u32::MAX {
                fails(too_large(labels.launches))
            } else {
                tried(
                    share_script(
                        model,
                        model.group(),
                        1,
                        operation,
                        9,
                        width,
                        row_payloads::<T, D>(rows, width),
                        collected.bytes + ringed.bytes,
                        labels.bytes,
                    ),
                    false,
                    rows_shared::<T, D>(
                        model,
                        rows.subrange(member * width, member * width + width),
                        steps,
                        collected.launches + ringed.launches,
                    ),
                )
            }
        }
}

pub open spec fn rows_collected<T, D: RankDevice<T>>(
    model: CollectiveModel,
    width: int,
    operation: u64,
    ring_channels: int,
    steps: int,
    reduce: spec_fn(T, T) -> T,
) -> spec_fn(Tally<T>) -> Script<(Seq<T>, CollectiveStats), D::Error> {
    |collected: Tally<T>|
        {
            let groups = model.groups();
            let packed = packed_groups(collected.values, width, groups, groups.len() as int);
            let ranges = group_bounds(collected.values, width, groups);
            let position = group_of(groups, model.place.rank);
            if packed.len() != collected.values.len() {
                fails(
                    bad_reply("hierarchical reduce-scatter packing changed the input length"@),
                )
            } else {
                tried(
                    leader_reduce_scatter_script::<T, D>(
                        model,
                        heads(groups),
                        position,
                        packed,
                        ranges,
                        operation,
                        ring_channels,
                        reduce,
                    ),
                    false,
                    rows_ringed::<T, D>(
                        model,
                        width,
                        operation,
                        steps,
                        collected,
                        ranges[position],
                    ),
                )
            }
        }
}

pub open spec fn reduce_scatter_hierarchy_agreed<T, D: RankDevice<T>>(
    model: CollectiveModel,
    values: Seq<T>,
    width: int,
    operation: u64,
    ring_channels: int,
    reduce: spec_fn(T, T) -> T,
) -> spec_fn(()) -> Script<(Seq<T>, CollectiveStats), D::Error> {
    |agreed: ()|
        {
            let group = model.group();
            let steps = model.hierarchy_steps(model.groups().len() - 1);
            if model.place.rank != group[0] {
                member_script::<T, D>(
                    model,
                    group[0],
                    values,
                    operation,
                    7,
                    9,
                    width,
                    steps,
                    hierarchical_reduce_scatter_labels().bytes,
                )
            } else {
                tried(
                    collect_script::<T, D>(
                        model,
                        group,
                        1,
                        operation,
                        7,
                        values.len() as int,
                        Tally { values, bytes: 0, launches: 0 },
                        reduce,
                        hierarchical_reduce_scatter_labels(),
                    ),
                    false,
                    rows_collected::<T, D>(model, width, operation, ring_channels, steps, reduce),
                )
            }
        }
}

/// The script of a hierarchical reduce-scatter: the members' values are reduced
/// at the leader, the leaders reduce the groups' rows among themselves round a
/// ring, and each member is sent its row.
pub open spec fn reduce_scatter_hierarchical_script<T, D: RankDevice<T>>(
    model: CollectiveModel,
    values: Seq<T>,
    width: int,
    operation: u64,
    reduction: ReductionOperation,
    ring_channels: int,
    reduce: spec_fn(T, T) -> T,
) -> Script<(Seq<T>, CollectiveStats), D::Error> {
    match model.membership_defect() {
        Some(defect) => fails(Failure::Topology(defect)),
        None => tried(
            model.hierarchy_agreement(
                operation,
                values.len() as int,
                (0x800 + reduction.spec_code()) as u32,
                ring_channels,
            ),
            false,
            reduce_scatter_hierarchy_agreed::<T, D>(
                model,
                values,
                width,
                operation,
                ring_channels,
                reduce,
            ),
        ),
    }
}

/// The rows of members take a width each.
pub proof fn lemma_packed_members<T>(
    values: Seq<T>,
    width: int,
    group: Seq<u32>,
    count: int,
    rows: int,
)
    requires
        0 <= count <= group.len(),
        0 <= width,
        width * rows <= values.len(),
        forall|i: int| 0 <= i < group.len() ==> #[trigger] group[i] < rows,
    ensures
        packed_members(values, width, group, count).len() == count * width,
    decreases count,
{
    if count > 0 {
        lemma_packed_members(values, width, group, count - 1, rows);
        lemma_row_fits(group[count - 1] as int, width, rows);
        assert((count - 1) * width + width == count * width) by (nonlinear_arith);
    } else {
        assert(0 * width == 0) by (nonlinear_arith);
    }
}

/// The length of the shortest range.
fn shortest_range(ranges: &Vec<Range<usize>>) -> (length: usize)
    requires
        ranges_fit(ranges@, usize::MAX as int),
    ensures
        length == shortest(bounds(ranges@)),
{
    if ranges.len() == 0 {
        return 0;
    }
    let ghost all = bounds(ranges@);
    let mut least: usize = ranges[0].end - ranges[0].start;
    let mut index: usize = 1;
    assert(all.take(1)[0] == all[0]);
    while index < ranges.len()
        invariant
            1 <= index <= ranges@.len(),
            all == bounds(ranges@),
            ranges_fit(ranges@, usize::MAX as int),
            least == shortest(all.take(index as int)),
        decreases ranges.len() - index,
    {
        let length: usize = ranges[index].end - ranges[index].start;
        assert(all.take(index + 1).drop_last() =~= all.take(index as int));
        assert(all.take(index + 1).last() == all[index as int]);
        if length < least {
            least = length;
        }
        index = index + 1;
    }
    assert(all.take(index as int) =~= all);
    least
}

/// A channel's part of each range.
fn parts_of_channel(ranges: &Vec<Range<usize>>, channels: usize, channel: usize) -> (parts: Vec<
    Range<usize>,
>)
    requires
        channel < channels,
        ranges_fit(ranges@, usize::MAX as int),
    ensures
        bounds(parts@) == channel_parts(bounds(ranges@), channels as int, channel as int),
        forall|limit: int| ranges_fit(ranges@, limit) ==> #[trigger] ranges_fit(parts@, limit),
{
    let mut parts: Vec<Range<usize>> = Vec::new();
    let ghost all = bounds(ranges@);
    let mut index: usize = 0;
    while index < ranges.len()
        invariant
            index <= ranges@.len(),
            channel < channels,
            all == bounds(ranges@),
            ranges_fit(ranges@, usize::MAX as int),
            parts@.len() == index,
            forall|g: int|
                0 <= g < index ==> {
                    &&& (#[trigger] parts@[g]).start == all[g].0 + balanced_start(
                        all[g].1 - all[g].0,
                        channels as int,
                        channel as int,
                    )
                    &&& parts@[g].end == all[g].0 + balanced_start(
                        all[g].1 - all[g].0,
                        channels as int,
                        channel + 1,
                    )
                    &&& ranges@[g].start <= parts@[g].start <= parts@[g].end <= ranges@[g].end
                },
        decreases ranges.len() - index,
    {
        let start: usize = ranges[index].start;
        let length: usize = ranges[index].end - start;
        let slices = balanced_ranges(length, channels);
        proof {
            law_balanced_partition(length as int, channels as int, channel as int);
        }
        assert(slices@[channel as int].start <= slices@[channel as int].end <= length);
        parts.push(
            Range { start: start + slices[channel].start, end: start + slices[channel].end },
        );
        index = index + 1;
    }
    assert(bounds(parts@) =~= channel_parts(all, channels as int, channel as int));
    assert forall|limit: int| ranges_fit(ranges@, limit) implies #[trigger] ranges_fit(
        parts@,
        limit,
    ) by {
        assert forall|i: int| 0 <= i < parts@.len() implies (#[trigger] parts@[i]).start
            <= parts@[i].end <= limit by {
            assert(ranges@[i].start <= ranges@[i].end <= limit);
        }
    }
    parts
}

/// The rows in the order of the groups, and where each group's stand.
fn pack_groups<T: Copy>(values: &[T], width: usize, groups: &[Vec<u32>], Ghost(rows): Ghost<int>) -> (packed: (
    Vec<T>,
    Vec<Range<usize>>,
))
    requires
        width * rows <= values@.len(),
        forall|g: int, i: int|
            0 <= g < groups@.len() && 0 <= i < groups@[g]@.len() ==> #[trigger] groups@[g]@[i]
                < rows,
    ensures
        packed.0@ == packed_groups(
            values@,
            width as int,
            rank_lists(groups@),
            groups@.len() as int,
        ),
        bounds(packed.1@) == group_bounds(values@, width as int, rank_lists(groups@)),
        ranges_fit(packed.1@, packed.0@.len() as int),
{
    let ghost lists = rank_lists(groups@);
    let limit: usize = values.len();
    let mut packed: Vec<T> = Vec::new();
    let mut ranges: Vec<Range<usize>> = Vec::new();
    let mut group_index: usize = 0;
    while group_index < groups.len()
        invariant
            group_index <= groups@.len(),
            lists == rank_lists(groups@),
            limit == values@.len(),
            width * rows <= values@.len(),
            forall|g: int, i: int|
                0 <= g < groups@.len() && 0 <= i < groups@[g]@.len() ==> #[trigger] groups@[g]@[i]
                    < rows,
            packed@ == packed_groups(values@, width as int, lists, group_index as int),
            ranges@.len() == group_index,
            forall|g: int|
                0 <= g < group_index ==> {
                    &&& (#[trigger] ranges@[g]).start == packed_groups(
                        values@,
                        width as int,
                        lists,
                        g,
                    ).len()
                    &&& ranges@[g].end == packed_groups(
                        values@,
                        width as int,
                        lists,
                        g + 1,
                    ).len()
                    &&& ranges@[g].start <= ranges@[g].end <= packed@.len()
                },
        decreases groups.len() - group_index,
    {
        let start: usize = packed.len();
        let ghost before = packed@;
        let ghost group = lists[group_index as int];
        assert(group == groups@[group_index as int]@);
        let mut member: usize = 0;
        while member < groups[group_index].len()
            invariant
                group_index < groups@.len(),
                group == groups@[group_index as int]@,
                member <= group.len(),
                limit == values@.len(),
                width * rows <= values@.len(),
                forall|g: int, i: int|
                    0 <= g < groups@.len() && 0 <= i < groups@[g]@.len() ==> #[trigger] groups@[g]@[i]
                        < rows,
                packed@ == before + packed_members(values@, width as int, group, member as int),
            decreases group.len() - member,
        {
            let rank: usize = groups[group_index][member] as usize;
            proof {
                assert(groups@[group_index as int]@[member as int] < rows);
                lemma_row_fits(rank as int, width as int, rows);
            }
            let row_start: usize = rank * width;
            let row = slice_subrange(values, row_start, row_start + width);
            append_values(&mut packed, row);
            member = member + 1;
            assert(packed@ =~= before + packed_members(
                values@,
                width as int,
                group,
                member as int,
            ));
        }
        ranges.push(Range { start, end: packed.len() });
        group_index = group_index + 1;
        assert(packed@ =~= packed_groups(values@, width as int, lists, group_index as int));
    }
    assert(bounds(ranges@) =~= group_bounds(values@, width as int, lists));
    (packed, ranges)
}

impl<'a, T: Copy, D: RankDevice<T>, S: RankTransport> DeviceCollective<'a, T, D, S> where
    D::Error: From<RankError> + From<NetworkError> + From<TopologyError>,
 {
    /// One channel of the leaders' reduce-scatter.
    fn leader_reduce_scatter_ring_channel(
        &mut self,
        buffer: &mut D::Buffer,
        leaders: &[u32],
        position: usize,
        ranges: &Vec<Range<usize>>,
        operation: u64,
        channel: usize,
        function: &D::Kernel,
    ) -> (result: Result<(usize, u32), D::Error>)
        requires
            old(self).model().rails.len() > 0,
            position < leaders@.len(),
            ranges@.len() == leaders@.len(),
            ranges_fit(ranges@, D::values(&*old(buffer)).len() as int),
        ensures
            *final(final(self).link) == *final(old(self).link),
            final(self).model() == old(self).model(),
            final(self).next() == old(self).next(),
            D::values(&*final(buffer)).len() == D::values(&*old(buffer)).len(),
            asked(
                old(self).standing().faults,
                final(self).standing().faults,
                |call: DeviceCall| call.handles_part(D::values(&*old(buffer)).len() as int),
            ),
            reads_first(old(self).standing(), final(self).standing()),
            conversed(
                relay::<T, D>(
                    old(self).model().element_type,
                    old(self).model().rail(channel as int),
                    round_legs(
                        leaders@,
                        bounds(ranges@),
                        position as int,
                        (position - 1) % (leaders@.len() as int),
                        (RoundTags { operation, channel, phase: 8, hierarchical: true }).tags(),
                        true,
                    ),
                    0,
                    (Tally { values: D::values(&*old(buffer)), bytes: 0, launches: 0 }),
                    D::reduction(function),
                    leader_reduce_scatter_labels(),
                ),
                old(self).standing(),
                final(self).standing(),
                tallied::<T, D>(result, D::values(&*final(buffer))),
                false,
            ),
    {
        let origin: usize = back(position, 1, leaders.len());
        self.ring_round(
            buffer,
            leaders,
            ranges,
            position,
            origin,
            RoundTags { operation, channel, phase: 8, hierarchical: true },
            channel,
            function,
            true,
            0,
            0,
            "hierarchical leader reduce-scatter transferred bytes",
            "hierarchical leader reduce-scatter kernel launches",
        )
    }

    /// The leaders' reduce-scatter; a failure in a channel is told to the other
    /// ranks.
    fn leader_reduce_scatter_ring(
        &mut self,
        buffer: &mut D::Buffer,
        leaders: &[u32],
        position: usize,
        ranges: &Vec<Range<usize>>,
        operation: u64,
        function: &D::Kernel,
        ring_channels: usize,
    ) -> (result: Result<(usize, u32), D::Error>)
        requires
            old(self).model().rails.len() > 0,
            position < leaders@.len(),
            ring_channels > 0,
            ranges@.len() == leaders@.len(),
            ranges_fit(ranges@, D::values(&*old(buffer)).len() as int),
        ensures
            *final(final(self).link) == *final(old(self).link),
            final(self).model() == old(self).model(),
            final(self).next() == old(self).next(),
            D::values(&*final(buffer)).len() == D::values(&*old(buffer)).len(),
            asked(
                old(self).standing().faults,
                final(self).standing().faults,
                |call: DeviceCall| call.handles_part(D::values(&*old(buffer)).len() as int),
            ),
            performed::<T, D, Tally<T>>(
                leader_reduce_scatter_script::<T, D>(
                    old(self).model(),
                    leaders@,
                    position as int,
                    D::values(&*old(buffer)),
                    bounds(ranges@),
                    operation,
                    ring_channels as int,
                    D::reduction(function),
                ),
                "hierarchical reduce-scatter"@,
                Scope::LeaderRing,
                old(self).standing(),
                final(self).standing(),
                tallied::<T, D>(result, D::values(&*final(buffer))),
            ),
    {
        let ghost before = self.standing();
        let ghost model = self.model();
        let ghost combine = D::reduction(function);
        let limit: usize = self.link.execution.buffer_len(&*buffer);
        assert(ranges_fit(ranges@, usize::MAX as int));
        let minimum_range: usize = shortest_range(ranges);
        let channels: usize = self.effective_ring_channels(ring_channels, minimum_range);
        let ghost each = leader_reduce_scatter_channels::<T, D>(
            model,
            leaders@,
            position as int,
            bounds(ranges@),
            channels as int,
            operation,
            combine,
        );
        let ghost run = channels_script(
            each,
            0,
            channels as int,
            D::values(&*buffer),
            Seq::empty(),
        );
        let ghost script = leader_reduce_scatter_script::<T, D>(
            model,
            leaders@,
            position as int,
            D::values(&*buffer),
            bounds(ranges@),
            operation,
            ring_channels as int,
            combine,
        );
        let ghost next_part = leaders_finished::<T, D::Error>(leader_reduce_scatter_labels());
        let mut totals: Vec<(usize, u32)> = Vec::new();
        assert(counted(totals@) =~= Seq::empty());
        proof {
            lemma_start(run, before.log);
            lemma_start(script, before.log);
        }
        let mut channel: usize = 0;
        while channel < channels
            invariant
                channel <= channels,
                channels > 0,
                position < leaders@.len(),
                ranges@.len() == leaders@.len(),
                limit == D::values(&*buffer).len(),
                limit == D::values(&*old(buffer)).len(),
                ranges_fit(ranges@, limit as int),
                ranges_fit(ranges@, usize::MAX as int),
                model == old(self).model(),
                model.rails.len() > 0,
                combine == D::reduction(function),
                each == leader_reduce_scatter_channels::<T, D>(
                    model,
                    leaders@,
                    position as int,
                    bounds(ranges@),
                    channels as int,
                    operation,
                    combine,
                ),
                before == old(self).standing(),
                run == channels_script(
                    each,
                    0,
                    channels as int,
                    D::values(&*old(buffer)),
                    Seq::empty(),
                ),
                next_part == leaders_finished::<T, D::Error>(leader_reduce_scatter_labels()),
                followed(script, before.log, before.log),
                reached(script, before.log, before.log) == tried(run, false, next_part),
                script == leader_reduce_scatter_script::<T, D>(
                    model,
                    leaders@,
                    position as int,
                    D::values(&*old(buffer)),
                    bounds(ranges@),
                    operation,
                    ring_channels as int,
                    combine,
                ),
                *final(self.link) == *final(old(self).link),
                self.model() == model,
                self.next() == old(self).next(),
                self.standing().faults == before.faults,
                followed(run, before.log, self.standing().log),
                reached(run, before.log, self.standing().log) == channels_script(
                    each,
                    channel as int,
                    channels as int,
                    D::values(&*buffer),
                    counted(totals@),
                ),
            decreases channels - channel,
        {
            let parts = parts_of_channel(ranges, channels, channel);
            assert(ranges_fit(parts@, limit as int));
            assert(bounds(parts@).len() == leaders@.len());
            let ghost mid = self.standing();
            let ghost first = each(channel as int, D::values(&*buffer));
            let ghost next = channels_next(
                each,
                channel as int,
                channels as int,
                counted(totals@),
            );
            let outcome = self.leader_reduce_scatter_ring_channel(
                buffer,
                leaders,
                position,
                &parts,
                operation,
                channel,
                function,
            );
            proof {
                lemma_part(
                    run,
                    before,
                    mid,
                    self.standing(),
                    first,
                    true,
                    next,
                    tallied::<T, D>(outcome, D::values(&*buffer)),
                );
            }
            let outcome = self.propagate_channel_failure("hierarchical reduce-scatter", outcome);
            match outcome {
                Ok(counts) => {
                    let ghost was = counted(totals@);
                    totals.push(counts);
                    assert(counted(totals@) =~= was.push((counts.0 as int, counts.1 as int)));
                },
                Err(error) => {
                    proof {
                        lemma_performed_part::<T, D, (Seq<T>, Seq<(int, int)>), Tally<T>>(
                            script,
                            "hierarchical reduce-scatter"@,
                            Scope::LeaderRing,
                            Scope::LeaderRing,
                            before,
                            before,
                            self.standing(),
                            run,
                            next_part,
                            Err::<(Seq<T>, Seq<(int, int)>), D::Error>(error),
                        );
                    }
                    return Err(error);
                },
            }
            channel = channel + 1;
        }
        proof {
            lemma_performed_part::<T, D, (Seq<T>, Seq<(int, int)>), Tally<T>>(
                script,
                "hierarchical reduce-scatter"@,
                Scope::LeaderRing,
                Scope::LeaderRing,
                before,
                before,
                self.standing(),
                run,
                next_part,
                Ok::<(Seq<T>, Seq<(int, int)>), D::Error>(
                    (D::values(&*buffer), counted(totals@)),
                ),
            );
        }
        match total_counts::<D::Error>(
            &totals,
            "hierarchical leader reduce-scatter transferred bytes",
            "hierarchical leader reduce-scatter kernel launches",
        ) {
            Ok(counts) => Ok(counts),
            Err(error) => Err(from_rank(error)),
        }
    }

    /// Sends each other member of the group its row.
    fn share_rows(
        &mut self,
        group: &[u32],
        operation: u64,
        width: usize,
        rows: &Vec<T>,
        start_bytes: usize,
    ) -> (result: Result<usize, D::Error>)
        requires
            old(self).model().place.rails > 0,
            group@.len() > 0,
            rows@.len() == group@.len() * width,
        ensures
            *final(final(self).link) == *final(old(self).link),
            final(self).model() == old(self).model(),
            final(self).next() == old(self).next(),
            final(self).standing().faults == old(self).standing().faults,
            conversed(
                share_script(
                    old(self).model(),
                    group@,
                    1,
                    operation,
                    9,
                    width as int,
                    row_payloads::<T, D>(rows@, width as int),
                    start_bytes as int,
                    hierarchical_reduce_scatter_labels().bytes,
                ),
                old(self).standing(),
                final(self).standing(),
                as_int(result),
                false,
            ),
    {
        let ghost before = self.standing();
        let ghost model = self.model();
        let ghost payloads = row_payloads::<T, D>(rows@, width as int);
        let ghost label = hierarchical_reduce_scatter_labels().bytes;
        let ghost script = share_script::<D::Error>(
            model,
            group@,
            1,
            operation,
            9,
            width as int,
            payloads,
            start_bytes as int,
            label,
        );
        proof {
            lemma_start(script, before.log);
        }
        let limit: usize = rows.len();
        let mut transferred_bytes: usize = start_bytes;
        let mut index: usize = 1;
        while index < group.len()
            invariant
                1 <= index <= group@.len(),
                limit == rows@.len(),
                rows@.len() == group@.len() * width,
                model == old(self).model(),
                model.place.rails > 0,
                payloads == row_payloads::<T, D>(rows@, width as int),
                label == hierarchical_reduce_scatter_labels().bytes,
                before == old(self).standing(),
                script == share_script::<D::Error>(
                    model,
                    group@,
                    1,
                    operation,
                    9,
                    width as int,
                    payloads,
                    start_bytes as int,
                    label,
                ),
                *final(self.link) == *final(old(self).link),
                self.model() == model,
                self.next() == old(self).next(),
                self.standing().faults == before.faults,
                followed(script, before.log, self.standing().log),
                reached(script, before.log, self.standing().log) == share_script::<D::Error>(
                    model,
                    group@,
                    index as int,
                    operation,
                    9,
                    width as int,
                    payloads,
                    transferred_bytes as int,
                    label,
                ),
            decreases group.len() - index,
        {
            let member: u32 = group[index];
            let tag: u64 = hierarchy_data_tag(operation, 9, member);
            assert(index * width + width <= rows@.len()) by (nonlinear_arith)
                requires
                    index + 1 <= group@.len(),
                    rows@.len() == group@.len() * width,
            ;
            let start: usize = index * width;
            let row = slice_subrange(rows.as_slice(), start, start + width);
            assert(row@ =~= rows@.subrange(index * width, index * width + width));
            let payload = D::encode(row);
            assert(payload@ == payloads(index as int));
            let moved: usize = payload.len();
            let ghost mid = self.standing();
            let outcome = self.send_bytes(member, tag, width, payload);
            proof {
                lemma_part(
                    script,
                    before,
                    mid,
                    self.standing(),
                    model.send_script(member, tag, width as int, payloads(index as int)),
                    false,
                    share_next(
                        model,
                        group@,
                        index as int,
                        operation,
                        9,
                        width as int,
                        payloads,
                        transferred_bytes as int,
                        label,
                    ),
                    outcome,
                );
            }
            match outcome {
                Ok(()) => {},
                Err(error) => {
                    return Err(error);
                },
            }
            match transferred_bytes.checked_add(moved) {
                Some(total) => {
                    transferred_bytes = total;
                },
                None => {
                    return Err(
                        from_rank(
                            RankError::Overflow("hierarchical reduce-scatter transferred bytes"),
                        ),
                    );
                },
            }
            index = index + 1;
        }
        Ok(transferred_bytes)
    }
}

impl<'a, T: Copy, D: RankDevice<T>, S: RankTransport> DeviceCollective<'a, T, D, S> where
    D::Error: From<RankError> + From<NetworkError> + From<TopologyError>,
 {
    /// What the leader does once the leaders' ring has reduced `packed`: the rows
    /// of its group go to their members.
    fn scatter_ringed(
        &mut self,
        packed: &D::Buffer,
        group: &[u32],
        own: Range<usize>,
        member_index: usize,
        output_length: usize,
        operation: u64,
        steps: u32,
        bytes: usize,
        launches: u32,
        leader_bytes: usize,
        leader_launches: u32,
        Ghost(collected): Ghost<Tally<T>>,
    ) -> (result: Result<(D::Buffer, CollectiveStats), D::Error>)
        requires
            old(self).model().valid(),
            group@ == old(self).model().group(),
            member_index < group@.len(),
            member_index == member_of(old(self).model().groups(), old(self).model().place.rank),
            own.start <= own.end <= D::values(packed).len(),
            own.end - own.start == group@.len() * output_length,
            collected.bytes == bytes,
            collected.launches == launches,
        ensures
            *final(final(self).link) == *final(old(self).link),
            final(self).model() == old(self).model(),
            final(self).next() == old(self).next(),
            asked(
                old(self).standing().faults,
                final(self).standing().faults,
                |call: DeviceCall|
                    call.handles_whole(output_length as int)
                    || call.handles_run(D::values(packed).len() as int),
            ),
            conversed(
                rows_ringed::<T, D>(
                    old(self).model(),
                    output_length as int,
                    operation,
                    steps as int,
                    collected,
                    (own.start as int, own.end as int),
                )(
                    Tally {
                        values: D::values(packed),
                        bytes: leader_bytes as int,
                        launches: leader_launches as int,
                    },
                ),
                old(self).standing(),
                final(self).standing(),
                new_buffer::<T, D>(result),
                false,
            ),
    {
        let ghost before = self.standing();
        let ghost model = self.model();
        let ghost width = output_length as int;
        let ghost script = rows_ringed::<T, D>(
            model,
            width,
            operation,
            steps as int,
            collected,
            (own.start as int, own.end as int),
        )(
            Tally {
                values: D::values(packed),
                bytes: leader_bytes as int,
                launches: leader_launches as int,
            },
        );
        proof {
            lemma_start(script, before.log);
        }
        let bytes: usize = match bytes.checked_add(leader_bytes) {
            Some(bytes) => bytes,
            None => {
                return Err(
                    from_rank(
                        RankError::Overflow("hierarchical reduce-scatter transferred bytes"),
                    ),
                );
            },
        };
        let launches: u32 = match launches.checked_add(leader_launches) {
            Some(launches) => launches,
            None => {
                return Err(
                    from_rank(
                        RankError::Overflow("hierarchical reduce-scatter kernel launches"),
                    ),
                );
            },
        };
        let own_length: usize = own.end - own.start;
        let rows = match self.link.execution.copy_from_device_at(
            packed,
            own.start,
            own_length,
        ) {
            Ok(rows) => rows,
            Err(error) => {
                return Err(error);
            },
        };
        let outcome = self.share_rows(group, operation, output_length, &rows, bytes);
        proof {
            lemma_part(
                script,
                before,
                before,
                self.standing(),
                share_script::<D::Error>(
                    model,
                    group@,
                    1,
                    operation,
                    9,
                    width,
                    row_payloads::<T, D>(rows@, width),
                    bytes as int,
                    hierarchical_reduce_scatter_labels().bytes,
                ),
                false,
                rows_shared::<T, D>(
                    model,
                    rows@.subrange(member_index * width, member_index * width + width),
                    steps as int,
                    launches as int,
                ),
                as_int(outcome),
            );
        }
        let total: usize = match outcome {
            Ok(total) => total,
            Err(error) => {
                return Err(error);
            },
        };
        let limit: usize = rows.len();
        assert(member_index * output_length + output_length <= limit) by (nonlinear_arith)
            requires
                member_index + 1 <= group@.len(),
                limit == group@.len() * output_length,
        ;
        let row_start: usize = member_index * output_length;
        let row = slice_subrange(rows.as_slice(), row_start, row_start + output_length);
        assert(row@ =~= rows@.subrange(member_index * width, member_index * width + width));
        let mut output = match self.link.execution.allocate(output_length) {
            Ok(output) => output,
            Err(error) => {
                return Err(error);
            },
        };
        match self.link.execution.copy_to_device(&mut output, row) {
            Ok(()) => {},
            Err(error) => {
                return Err(error);
            },
        }
        let stats = self.stats(CollectiveAlgorithm::Hierarchical, steps, total, launches);
        Ok((output, stats))
    }

    /// What the leader does once its group's values are collected in `working`.
    fn scatter_collected(
        &mut self,
        working: &D::Buffer,
        output_length: usize,
        groups: &[Vec<u32>],
        group_index: usize,
        member_index: usize,
        operation: u64,
        function: &D::Kernel,
        ring_channels: usize,
        steps: u32,
        bytes: usize,
        launches: u32,
    ) -> (result: Result<(D::Buffer, CollectiveStats), D::Error>)
        requires
            old(self).model().valid(),
            ring_channels > 0,
            old(self).model().tuning.hierarchy_groups is Some,
            rank_lists(groups@) == old(self).model().groups(),
            group_index < groups@.len(),
            group_index == group_of(old(self).model().groups(), old(self).model().place.rank),
            member_index < groups@[group_index as int]@.len(),
            member_index == member_of(old(self).model().groups(), old(self).model().place.rank),
            output_length * old(self).model().world() <= D::values(working).len(),
        ensures
            *final(final(self).link) == *final(old(self).link),
            final(self).model() == old(self).model(),
            final(self).next() == old(self).next(),
            asked(
                old(self).standing().faults,
                final(self).standing().faults,
                |call: DeviceCall|
                    call.handles_whole(D::values(working).len() as int)
                    || call.handles_part(D::values(working).len() as int)
                    || call.handles_whole(output_length as int)
                    || call.handles_run(D::values(working).len() as int),
            ),
            performed::<T, D, (Seq<T>, CollectiveStats)>(
                rows_collected::<T, D>(
                    old(self).model(),
                    output_length as int,
                    operation,
                    ring_channels as int,
                    steps as int,
                    D::reduction(function),
                )(
                    Tally {
                        values: D::values(working),
                        bytes: bytes as int,
                        launches: launches as int,
                    },
                ),
                "hierarchical reduce-scatter"@,
                (Scope::Leaders { collected: 0, stores: true }),
                old(self).standing(),
                final(self).standing(),
                new_buffer::<T, D>(result),
            ),
    {
        let ghost before = self.standing();
        let ghost model = self.model();
        let ghost combine = D::reduction(function);
        let ghost lists = rank_lists(groups@);
        let ghost width = output_length as int;
        let length: usize = self.link.execution.buffer_len(working);
        let group = groups[group_index].as_slice();
        assert(group@ == lists[group_index as int]);
        let leaders = group_leaders(groups);
        let ghost tally = Tally {
            values: D::values(working),
            bytes: bytes as int,
            launches: launches as int,
        };
        let ghost script = rows_collected::<T, D>(
            model,
            width,
            operation,
            ring_channels as int,
            steps as int,
            combine,
        )(tally);
        proof {
            lemma_start(script, before.log);
        }
        let reduced_values = match self.link.execution.copy_from_device(working) {
            Ok(reduced_values) => reduced_values,
            Err(error) => {
                return Err(error);
            },
        };
        proof {
            assert(is_hierarchy(model.place.world_size, lists));
            assert forall|g: int, i: int|
                0 <= g < groups@.len() && 0 <= i < groups@[g]@.len() implies #[trigger] groups@[g]@[i]
                < model.world() by {
                assert(lists[g] == groups@[g]@);
                assert(lists[g][i] < model.place.world_size);
            }
        }
        let (packed_values, group_ranges) = pack_groups(
            reduced_values.as_slice(),
            output_length,
            groups,
            Ghost(model.world()),
        );
        if packed_values.len() != length {
            return Err(
                from_network(
                    NetworkError::invalid(
                        "hierarchical reduce-scatter packing changed the input length",
                    ),
                ),
            );
        }
        let mut packed = match self.link.execution.allocate(packed_values.len()) {
            Ok(packed) => packed,
            Err(error) => {
                return Err(error);
            },
        };
        match self.link.execution.copy_to_device(&mut packed, packed_values.as_slice()) {
            Ok(()) => {},
            Err(error) => {
                return Err(error);
            },
        }
        let ghost ranges = bounds(group_ranges@);
        assert(ranges == group_bounds(tally.values, width, lists));
        let ghost ringing = leader_reduce_scatter_script::<T, D>(
            model,
            leaders@,
            group_index as int,
            packed_values@,
            ranges,
            operation,
            ring_channels as int,
            combine,
        );
        assert(group_ranges@.len() == ranges.len());
        let outcome = self.leader_reduce_scatter_ring(
            &mut packed,
            leaders.as_slice(),
            group_index,
            &group_ranges,
            operation,
            function,
            ring_channels,
        );
        let ghost rung = self.standing();
        proof {
            lemma_performed_part::<T, D, Tally<T>, (Seq<T>, CollectiveStats)>(
                script,
                "hierarchical reduce-scatter"@,
                Scope::LeaderRing,
                (Scope::Leaders { collected: 0, stores: true }),
                before,
                before,
                rung,
                ringing,
                rows_ringed::<T, D>(
                    model,
                    width,
                    operation,
                    steps as int,
                    tally,
                    ranges[group_index as int],
                ),
                tallied::<T, D>(outcome, D::values(&packed)),
            );
        }
        let (leader_bytes, leader_launches) = match outcome {
            Ok(counts) => counts,
            Err(error) => {
                return Err(error);
            },
        };
        let own = Range {
            start: group_ranges[group_index].start,
            end: group_ranges[group_index].end,
        };
        proof {
            assert(ranges[group_index as int] == (own.start as int, own.end as int));
            assert forall|i: int| 0 <= i < group@.len() implies #[trigger] group@[i]
                < model.world() by {
                assert(lists[group_index as int][i] < model.place.world_size);
            }
            lemma_packed_members(
                tally.values,
                width,
                group@,
                group@.len() as int,
                model.world(),
            );
            assert(own.end - own.start == group@.len() * output_length);
        }
        let ghost ringed = Tally {
            values: D::values(&packed),
            bytes: leader_bytes as int,
            launches: leader_launches as int,
        };
        let outcome = self.scatter_ringed(
            &packed,
            group,
            own,
            member_index,
            output_length,
            operation,
            steps,
            bytes,
            launches,
            leader_bytes,
            leader_launches,
            Ghost(tally),
        );
        proof {
            lemma_rest(
                script,
                before,
                rung,
                self.standing(),
                rows_ringed::<T, D>(
                    model,
                    width,
                    operation,
                    steps as int,
                    tally,
                    ranges[group_index as int],
                )(ringed),
                new_buffer::<T, D>(outcome),
                false,
            );
        }
        outcome
    }

    /// The leader's part of a hierarchical reduce-scatter.
    fn reduce_scatter_as_leader(
        &mut self,
        input: &D::Buffer,
        output_length: usize,
        groups: &[Vec<u32>],
        group_index: usize,
        member_index: usize,
        operation: u64,
        function: &D::Kernel,
        ring_channels: usize,
        steps: u32,
    ) -> (result: Result<(D::Buffer, CollectiveStats), D::Error>)
        requires
            old(self).model().valid(),
            ring_channels > 0,
            old(self).model().tuning.hierarchy_groups is Some,
            rank_lists(groups@) == old(self).model().groups(),
            group_index < groups@.len(),
            group_index == group_of(old(self).model().groups(), old(self).model().place.rank),
            member_index < groups@[group_index as int]@.len(),
            member_index == member_of(old(self).model().groups(), old(self).model().place.rank),
            output_length * old(self).model().world() <= D::values(input).len(),
        ensures
            *final(final(self).link) == *final(old(self).link),
            final(self).model() == old(self).model(),
            final(self).next() == old(self).next(),
            asked(
                old(self).standing().faults,
                final(self).standing().faults,
                |call: DeviceCall|
                    call.handles_whole(D::values(input).len() as int)
                    || call.handles_part(D::values(input).len() as int)
                    || call.handles_whole(output_length as int)
                    || call.handles_run(D::values(input).len() as int),
            ),
            performed::<T, D, (Seq<T>, CollectiveStats)>(
                tried(
                    collect_script::<T, D>(
                        old(self).model(),
                        old(self).model().group(),
                        1,
                        operation,
                        7,
                        D::values(input).len() as int,
                        (Tally { values: D::values(input), bytes: 0, launches: 0 }),
                        D::reduction(function),
                        hierarchical_reduce_scatter_labels(),
                    ),
                    false,
                    rows_collected::<T, D>(
                        old(self).model(),
                        output_length as int,
                        operation,
                        ring_channels as int,
                        steps as int,
                        D::reduction(function),
                    ),
                ),
                "hierarchical reduce-scatter"@,
                group_scope(old(self).model(), 0, true),
                old(self).standing(),
                final(self).standing(),
                new_buffer::<T, D>(result),
            ),
    {
        let ghost before = self.standing();
        let ghost model = self.model();
        let ghost combine = D::reduction(function);
        let ghost lists = rank_lists(groups@);
        let ghost width = output_length as int;
        let length: usize = self.link.execution.buffer_len(input);
        let group = groups[group_index].as_slice();
        assert(group@ == lists[group_index as int]);
        let ghost collecting = collect_script::<T, D>(
            model,
            group@,
            1,
            operation,
            7,
            length as int,
            (Tally { values: D::values(input), bytes: 0, launches: 0 }),
            combine,
            hierarchical_reduce_scatter_labels(),
        );
        let ghost next = rows_collected::<T, D>(
            model,
            width,
            operation,
            ring_channels as int,
            steps as int,
            combine,
        );
        let ghost script = tried(collecting, false, next);
        proof {
            lemma_start(script, before.log);
        }
        let mut working = match self.link.execution.allocate(length) {
            Ok(working) => working,
            Err(error) => {
                return Err(error);
            },
        };
        let held = match self.link.execution.copy_from_device(input) {
            Ok(held) => held,
            Err(error) => {
                return Err(error);
            },
        };
        match self.link.execution.copy_to_device(&mut working, held.as_slice()) {
            Ok(()) => {},
            Err(error) => {
                return Err(error);
            },
        }
        let outcome = self.collect_members(
            &mut working,
            group,
            operation,
            7,
            length,
            function,
            "hierarchical reduce-scatter transferred bytes",
            "hierarchical reduce-scatter kernel launches",
        );
        let ghost mid = self.standing();
        proof {
            lemma_part(
                script,
                before,
                before,
                mid,
                collecting,
                false,
                next,
                tallied::<T, D>(outcome, D::values(&working)),
            );
        }
        let (bytes, launches) = match outcome {
            Ok(counts) => counts,
            Err(error) => {
                return Err(error);
            },
        };
        let ghost tally = Tally {
            values: D::values(&working),
            bytes: bytes as int,
            launches: launches as int,
        };
        let outcome = self.scatter_collected(
            &working,
            output_length,
            groups,
            group_index,
            member_index,
            operation,
            function,
            ring_channels,
            steps,
            bytes,
            launches,
        );
        proof {
            lemma_performed_rest::<T, D, (Seq<T>, CollectiveStats)>(
                script,
                "hierarchical reduce-scatter"@,
                (Scope::Leaders { collected: 0, stores: true }),
                group_scope(model, 0, true),
                before,
                mid,
                self.standing(),
                next(tally),
                new_buffer::<T, D>(outcome),
            );
        }
        outcome
    }

    pub fn reduce_scatter_hierarchical(
        &mut self,
        input: &D::Buffer,
        output_length: usize,
        reduction_operation: ReductionOperation,
        function: &D::Kernel,
        ring_channels: usize,
    ) -> (result: Result<(D::Buffer, CollectiveStats), D::Error>)
        requires
            old(self).model().valid(),
            ring_channels > 0,
            old(self).model().membership_defect() is None && old(self).model().place.rank == old(
                self,
            ).model().group()[0] ==> output_length * old(self).model().world() <= D::values(
                input,
            ).len(),
        ensures
            *final(final(self).link) == *final(old(self).link),
            final(self).model() == old(self).model(),
            final(self).next() == (if old(self).model().membership_defect() is Some {
                old(self).next()
            } else {
                old(self).next().wrapping_add(1)
            }),
            asked(
                old(self).standing().faults,
                final(self).standing().faults,
                |call: DeviceCall|
                    call.handles_whole(D::values(input).len() as int)
                    || call.handles_part(D::values(input).len() as int)
                    || call.handles_whole(output_length as int)
                    || call.handles_run(D::values(input).len() as int),
            ),
            performed::<T, D, (Seq<T>, CollectiveStats)>(
                reduce_scatter_hierarchical_script::<T, D>(
                    old(self).model(),
                    D::values(input),
                    output_length as int,
                    old(self).next(),
                    reduction_operation,
                    ring_channels as int,
                    D::reduction(function),
                ),
                "hierarchical reduce-scatter"@,
                leaders_scope(old(self).model(), true),
                old(self).standing(),
                final(self).standing(),
                new_buffer::<T, D>(result),
            ),
    {
        let ghost before = self.standing();
        let ghost model = self.model();
        let ghost combine = D::reduction(function);
        let ghost script = reduce_scatter_hierarchical_script::<T, D>(
            model,
            D::values(input),
            output_length as int,
            self.next(),
            reduction_operation,
            ring_channels as int,
            combine,
        );
        proof {
            lemma_start(script, before.log);
        }
        let (groups, group_index, member_index) = match self.hierarchy_membership() {
            Ok(membership) => membership,
            Err(error) => {
                return Err(error);
            },
        };
        let ghost lists = rank_lists(groups@);
        let leader: u32 = groups[group_index][0];
        assert(lists[group_index as int] == groups@[group_index as int]@);
        let operation: u64 = self.link.internal_sequence;
        self.link.internal_sequence = operation.wrapping_add(1);
        let length: usize = self.link.execution.buffer_len(input);
        let discriminator: u32 = 0x800 + reduction_operation.code();
        let ghost agreed = reduce_scatter_hierarchy_agreed::<T, D>(
            model,
            D::values(input),
            output_length as int,
            operation,
            ring_channels as int,
            combine,
        );
        let outcome = self.hierarchy_agreement(
            groups,
            operation,
            length,
            discriminator,
            ring_channels,
        );
        let ghost mid = self.standing();
        proof {
            lemma_part(
                script,
                before,
                before,
                mid,
                model.hierarchy_agreement(
                    operation,
                    length as int,
                    discriminator,
                    ring_channels as int,
                ),
                false,
                agreed,
                outcome,
            );
        }
        match outcome {
            Ok(()) => {},
            Err(error) => {
                return Err(error);
            },
        }
        let inter: usize = groups.len() - 1;
        let steps: u32 = hierarchy_steps(groups, inter);
        let ghost rest = agreed(());
        if self.rank() != leader {
            let values = match self.link.execution.copy_from_device(input) {
                Ok(values) => values,
                Err(error) => {
                    return Err(error);
                },
            };
            let outcome = self.member_exchange(
                leader,
                values.as_slice(),
                operation,
                7,
                9,
                output_length,
                steps,
                "hierarchical reduce-scatter transferred bytes",
            );
            proof {
                lemma_rest(script, before, mid, self.standing(), rest, answered(outcome), false);
            }
            let (row, stats) = match outcome {
                Ok(answer) => answer,
                Err(error) => {
                    return Err(error);
                },
            };
            let mut output = match self.link.execution.allocate(output_length) {
                Ok(output) => output,
                Err(error) => {
                    return Err(error);
                },
            };
            return match self.link.execution.copy_to_device(&mut output, row.as_slice()) {
                Ok(()) => Ok((output, stats)),
                Err(error) => Err(error),
            };
        }
        let outcome = self.reduce_scatter_as_leader(
            input,
            output_length,
            groups,
            group_index,
            member_index,
            operation,
            function,
            ring_channels,
            steps,
        );
        proof {
            lemma_performed_rest::<T, D, (Seq<T>, CollectiveStats)>(
                script,
                "hierarchical reduce-scatter"@,
                group_scope(model, 0, true),
                leaders_scope(model, true),
                before,
                mid,
                self.standing(),
                rest,
                new_buffer::<T, D>(outcome),
            );
        }
        outcome
    }
}

} // verus!

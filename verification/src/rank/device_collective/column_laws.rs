//! What the ranks of a world end up with from a ring reduce-scatter and from a ring
//! all-gather, whose channels take the same columns of every rank's row.

use crate::in_process::collective::blocks::{block_is, lemma_all_blocks, lemma_block_read};
use crate::rank::device::RankDevice;
use crate::rank::device_collective::all_gather::{
    all_gather_agreed, all_gather_channels, all_gather_finished, all_gather_labels,
    all_gather_ring_script, lemma_row_fits, own_row_known, unreduced,
};
use crate::rank::device_collective::delivery::{
    facing, hops_for_each, hops_from, in_order_delivery, lemma_channels_took,
    lemma_facing_channels, took, Hop,
};
use crate::rank::device_collective::laws::{
    before_channel, calls_for_each, channels_ran, faithful, given_to, in_step, left_by, leg_hops,
    lemma_delivered_in_step, lemma_neighbours, lemma_rest_delivered,
    lemma_channels_ran, lemma_fold_column, lemma_one_world, lemma_owner_is, lemma_part_in_step,
    lemma_relay_length, lemma_ring_collective, lemma_rounds_on, one_world,
    part_of, rest_of, values_of, Round,
};
use crate::rank::device_collective::reduce_scatter::{
    column_blocks, own_row, reduce_scatter_agreed, reduce_scatter_channels,
    reduce_scatter_finished, reduce_scatter_labels, reduce_scatter_ring_script,
};
use crate::rank::device_collective::ring::{
    chunk_length, lemma_place_in_ring, relay, round_legs, Labels, RoundTags, Tally,
};
use crate::rank::device_collective::{effective_channels, CollectiveModel};
use crate::rank::hash::fnv;
use crate::rank::layout::{
    balanced_owner, balanced_start, laid_out, law_balanced_partition, lemma_balanced_owner,
};
use crate::rank::operation::ReductionOperation;
use crate::rank::rounds::{
    arranged, by_place, come_round, hops, in_block, law_any_ring, law_rounds,
    lemma_reached_place, order_free, rank_fold, ring_fold, rounds,
};
use crate::rank::script::{lemma_over, ran, too_large, Failure, Script, Stop, TransportEvent};
use crate::rank::stats::CollectiveStats;
use crate::rank::tags::agreement_bytes;
use crate::rank::topology::rings::{is_ring, lemma_ring_holds_all};
use vstd::arithmetic::div_mod::*;
use vstd::prelude::*;

verus! {

/// Two cells of rows of the same width are the same only in the same row.
proof fn lemma_one_row(row: int, column: int, other: int, other_column: int, width: int)
    requires
        0 <= column < width,
        0 <= other_column < width,
        row * width + column == other * width + other_column,
    ensures
        row == other,
        column == other_column,
{
    if row < other {
        assert(row * width + width <= other * width) by (nonlinear_arith)
            requires
                row + 1 <= other,
                width >= 0,
        ;
    } else if other < row {
        assert(other * width + width <= row * width) by (nonlinear_arith)
            requires
                other + 1 <= row,
                width >= 0,
        ;
    }
}

/// The columns of every row are arranged for a round.
proof fn lemma_column_blocks<T>(
    tables: Seq<Seq<T>>,
    world_size: u32,
    ring: Seq<u32>,
    width: int,
    start: int,
    length: int,
)
    requires
        is_ring(world_size, ring),
        tables.len() == world_size,
        0 <= start,
        0 <= length,
        start + length <= width,
        forall|r: int|
            0 <= r < tables.len() ==> (#[trigger] tables[r]).len() == width * world_size,
    ensures
        arranged(
            by_place(tables, ring),
            column_blocks(ring, width, start, length),
            width * world_size,
        ),
{
    let blocks = column_blocks(ring, width, start, length);
    let held = by_place(tables, ring);
    let whole = width * world_size;
    assert forall|p: int| 0 <= p < held.len() implies (#[trigger] held[p]).len() == whole by {
        assert(tables[ring[p] as int].len() == whole);
    }
    assert forall|b: int| 0 <= b < blocks.len() implies 0 <= (#[trigger] blocks[b]).0
        <= blocks[b].1 <= whole by {
        lemma_row_fits(ring[b] as int, width, world_size as int);
    }
    assert forall|b: int, c: int, x: int|
        0 <= b < blocks.len() && 0 <= c < blocks.len() && in_block(blocks, b, x) && in_block(
            blocks,
            c,
            x,
        ) implies b == c by {
        lemma_one_row(
            ring[b] as int,
            x - ring[b] * width,
            ring[c] as int,
            x - ring[c] * width,
            width,
        );
        assert(ring[b] == ring[c]);
    }
}

/// The part of one rank in a round over columns.
pub open spec fn column_part<T, D: RankDevice<T>>(
    model: CollectiveModel,
    values: Seq<T>,
    width: int,
    start: int,
    length: int,
    operation: u64,
    channel: usize,
    offset: int,
    reducing: bool,
    reduce: spec_fn(T, T) -> T,
    labels: Labels,
) -> Script<Tally<T>, D::Error> {
    let ring = model.ring(channel as int);
    let position = ring.index_of(model.place.rank);
    relay::<T, D>(
        model.element_type,
        model.rail(channel as int),
        round_legs(
            ring,
            column_blocks(ring, width, start, length),
            position,
            (position + offset) % (ring.len() as int),
            (RoundTags { operation, channel, phase: 0, hierarchical: false }).tags(),
            reducing,
        ),
        0,
        Tally { values, bytes: 0, launches: 0 },
        reduce,
        labels,
    )
}

/// What a round over columns leaves in a cell of a rank's table.
pub open spec fn column_left<T>(
    tables: Seq<Seq<T>>,
    ring: Seq<u32>,
    width: int,
    start: int,
    length: int,
    offset: int,
    reducing: bool,
    reduce: spec_fn(T, T) -> T,
    rank: int,
    row: int,
    column: int,
) -> T {
    if start <= column < start + length {
        come_round(
            by_place(tables, ring),
            ring.index_of(rank as u32),
            row * width + column,
            ring.index_of(row as u32),
            offset,
            ring.len() - 1,
            reducing,
            reduce,
        )
    } else {
        tables[rank][row * width + column]
    }
}

/// The hops of a rank in a round over columns.
pub open spec fn column_hops(
    model: CollectiveModel,
    width: int,
    start: int,
    length: int,
    operation: u64,
    channel: usize,
    offset: int,
    reducing: bool,
) -> Seq<Hop> {
    let ring = model.ring(channel as int);
    let position = ring.index_of(model.place.rank);
    leg_hops(
        round_legs(
            ring,
            column_blocks(ring, width, start, length),
            position,
            (position + offset) % (ring.len() as int),
            (RoundTags { operation, channel, phase: 0, hierarchical: false }).tags(),
            reducing,
        ),
        0,
    )
}

/// The hops of a rank in the rounds over the columns of each channel.
pub open spec fn columns_hops(
    model: CollectiveModel,
    width: int,
    channels: int,
    operation: u64,
    offset: int,
    reducing: bool,
) -> spec_fn(int) -> Seq<Hop> {
    |channel: int|
        column_hops(
            model,
            width,
            balanced_start(width, channels, channel),
            chunk_length(width, channels, channel),
            operation,
            channel as usize,
            offset,
            reducing,
        )
}

/// Where every rank takes the hops of its rounds after an agreement, each receives
/// in every call what the other sent in the call before.
proof fn lemma_columns_in_step(
    models: Seq<CollectiveModel>,
    width: int,
    channels: int,
    operation: u64,
    offset: int,
    reducing: bool,
    traces: Seq<Seq<TransportEvent>>,
)
    requires
        one_world(models),
        traces.len() == models.len(),
        in_order_delivery(traces),
        channels <= usize::MAX,
        forall|r: int|
            #![trigger traces[r]]
            0 <= r < traces.len() ==> traces[r].len() >= 1 && traces[r][0].call is Exchange && took(
                traces[r].skip(1),
                hops_from(
                    columns_hops(models[r], width, channels, operation, offset, reducing),
                    0,
                    channels,
                ),
            ),
    ensures
        in_step(rest_of(traces, 1)),
{
    let rests = rest_of(traces, 1);
    let hops = Seq::new(
        models.len(),
        |r: int|
            hops_from(
                columns_hops(models[r], width, channels, operation, offset, reducing),
                0,
                channels,
            ),
    );
    lemma_rest_delivered(traces);
    assert forall|r: int| 0 <= r < rests.len() implies took(#[trigger] rests[r], hops[r]) by {
        assert(rests[r] == traces[r].skip(1));
    }
    assert forall|r: int, s: int|
        #![trigger hops[r], hops[s]]
        0 <= r < rests.len() && 0 <= s < rests.len() implies facing(
        hops[r],
        r as u32,
        hops[s],
        s as u32,
    ) by {
        lemma_columns_facing(models, r, s, width, channels, operation, offset, reducing);
    }
    assert(models[0].place.world_size == models.len());
    lemma_delivered_in_step(rests, hops);
}

/// The hops of any two ranks in rounds over columns fit.
proof fn lemma_columns_facing(
    models: Seq<CollectiveModel>,
    rank: int,
    other: int,
    width: int,
    channels: int,
    operation: u64,
    offset: int,
    reducing: bool,
)
    requires
        one_world(models),
        0 <= rank < models.len(),
        0 <= other < models.len(),
        channels <= usize::MAX,
    ensures
        facing(
            hops_from(
                columns_hops(models[rank], width, channels, operation, offset, reducing),
                0,
                channels,
            ),
            rank as u32,
            hops_from(
                columns_hops(models[other], width, channels, operation, offset, reducing),
                0,
                channels,
            ),
            other as u32,
        ),
{
    let own = columns_hops(models[rank], width, channels, operation, offset, reducing);
    let theirs = columns_hops(models[other], width, channels, operation, offset, reducing);
    assert forall|c: int| 0 <= c < channels implies facing(
        #[trigger] own(c),
        rank as u32,
        theirs(c),
        other as u32,
    ) by {
        lemma_one_world(models, rank, c);
        lemma_one_world(models, other, c);
        assert(models[rank].place.rank == rank && models[other].place.rank == other);
        let ring = models[0].ring(c);
        let p = ring.index_of(rank as u32);
        let q = ring.index_of(other as u32);
        lemma_neighbours(ring, p, q, 1);
        let one = own(c);
        let two = theirs(c);
        assert forall|j: int| #![trigger one[j]] 0 <= j < one.len() implies {
            &&& one[j].source == other as u32 <==> two[j].destination == rank as u32
            &&& one[j].source == other as u32 ==> one[j].tag == two[j].tag
        } by {}
    }
    lemma_facing_channels(own, rank as u32, theirs, other as u32, 0, channels);
}

/// A rank's part in a round over columns makes two calls for each other rank.
proof fn lemma_column_calls<T, D: RankDevice<T>>(
    model: CollectiveModel,
    values: Seq<T>,
    width: int,
    start: int,
    length: int,
    operation: u64,
    channel: usize,
    offset: int,
    reducing: bool,
    reduce: spec_fn(T, T) -> T,
    labels: Labels,
    trace: Seq<TransportEvent>,
    last: Tally<T>,
)
    requires
        model.valid(),
        ran(
            column_part::<T, D>(
                model,
                values,
                width,
                start,
                length,
                operation,
                channel,
                offset,
                reducing,
                reduce,
                labels,
            ),
            trace,
            last,
        ),
    ensures
        trace.len() == 2 * (model.world() - 1),
        took(
            trace,
            column_hops(model, width, start, length, operation, channel, offset, reducing),
        ),
{
    let ring = model.ring(channel as int);
    model.lemma_ring(channel as int);
    let position = ring.index_of(model.place.rank);
    lemma_relay_length::<T, D>(
        model.element_type,
        model.rail(channel as int),
        round_legs(
            ring,
            column_blocks(ring, width, start, length),
            position,
            (position + offset) % (ring.len() as int),
            (RoundTags { operation, channel, phase: 0, hierarchical: false }).tags(),
            reducing,
        ),
        0,
        Tally { values, bytes: 0, launches: 0 },
        reduce,
        labels,
        trace,
        last,
    );
}

/// What a round over columns leaves on every rank.
proof fn lemma_column_round<T, D: RankDevice<T>>(
    models: Seq<CollectiveModel>,
    tables: Seq<Seq<T>>,
    width: int,
    start: int,
    length: int,
    operation: u64,
    channel: usize,
    offset: int,
    reducing: bool,
    reduce: spec_fn(T, T) -> T,
    labels: Labels,
    traces: Seq<Seq<TransportEvent>>,
    finals: Seq<Tally<T>>,
)
    requires
        faithful::<T, D>(),
        one_world(models),
        tables.len() == models.len(),
        traces.len() == models.len(),
        finals.len() == models.len(),
        in_step(traces),
        0 <= start,
        0 <= length,
        start + length <= width,
        forall|r: int|
            0 <= r < tables.len() ==> (#[trigger] tables[r]).len() == width * models.len(),
        forall|r: int|
            #![trigger finals[r]]
            0 <= r < models.len() ==> ran(
                column_part::<T, D>(
                    models[r],
                    tables[r],
                    width,
                    start,
                    length,
                    operation,
                    channel,
                    offset,
                    reducing,
                    reduce,
                    labels,
                ),
                traces[r],
                finals[r],
            ),
    ensures
        forall|r: int|
            0 <= r < models.len() ==> (#[trigger] finals[r]).values.len() == width * models.len(),
        forall|r: int, row: int, column: int|
            #![trigger finals[r].values[row * width + column]]
            0 <= r < models.len() && 0 <= row < models.len() && 0 <= column < width
                ==> finals[r].values[row * width + column] == column_left(
                tables,
                models[0].ring(channel as int),
                width,
                start,
                length,
                offset,
                reducing,
                reduce,
                r,
                row,
                column,
            ),
{
    let world_size = models.len() as u32;
    let places = models.len() as int;
    let whole = width * places;
    assert(models[0].place.world_size == models.len());
    lemma_one_world(models, 0, channel as int);
    let ring = models[0].ring(channel as int);
    let blocks = column_blocks(ring, width, start, length);
    let held = by_place(tables, ring);
    let round = Round {
        element_type: models[0].element_type,
        rail: models[0].rail(channel as int),
        ring,
        blocks,
        length: whole,
        offset,
        tags: (RoundTags { operation, channel, phase: 0, hierarchical: false }).tags(),
        reducing,
        reduce,
        labels,
    };
    let starts = Seq::new(
        places as nat,
        |p: int| Tally { values: held[p], bytes: 0, launches: 0 },
    );
    let ends = by_place(finals, ring);
    lemma_column_blocks(tables, world_size, ring, width, start, length);
    assert(values_of(starts) =~= held);
    let said = by_place(traces, ring);
    assert forall|p: int| 0 <= p < places implies #[trigger] round.ran_at::<D>(
        p,
        0,
        starts,
        said,
        ends,
    ) by {
        let r = ring[p] as int;
        lemma_one_world(models, r, channel as int);
        assert(models[r].place.rank == r);
        lemma_place_in_ring(ring, p);
        assert(finals[r] == ends[p]);
    }
    round.lemma_handed_on::<D>(starts, traces, ends);
    round.lemma_round::<D>(0, starts, said, ends);
    lemma_rounds_on(held, blocks, offset, 0, places - 1, reducing, reduce);
    law_rounds(held, blocks, whole, offset, places - 1, reducing, reduce);
    let left = rounds(held, blocks, offset, places - 1, reducing, reduce);
    assert(values_of(ends) == left);
    assert forall|r: int| 0 <= r < models.len() implies (#[trigger] finals[r]).values.len()
        == whole by {
        lemma_ring_holds_all(world_size, ring, r as u32);
        let p = ring.index_of(r as u32);
        assert(values_of(ends)[p] == finals[r].values);
        assert(left[p].len() == whole);
    }
    assert forall|r: int, row: int, column: int|
        #![trigger finals[r].values[row * width + column]]
        0 <= r < models.len() && 0 <= row < models.len() && 0 <= column
            < width implies finals[r].values[row * width + column] == column_left(
        tables,
        ring,
        width,
        start,
        length,
        offset,
        reducing,
        reduce,
        r,
        row,
        column,
    ) by {
        let x = row * width + column;
        lemma_ring_holds_all(world_size, ring, r as u32);
        lemma_ring_holds_all(world_size, ring, row as u32);
        lemma_row_fits(row, width, places);
        let p = ring.index_of(r as u32);
        let b = ring.index_of(row as u32);
        assert(ring[b] as int == row);
        assert(values_of(ends)[p] == finals[r].values);
        assert(left[p][x] == finals[r].values[x]);
        if start <= column < start + length {
            assert(in_block(blocks, b, x));
        } else {
            assert forall|c: int| 0 <= c < blocks.len() implies !in_block(blocks, c, x) by {
                if in_block(blocks, c, x) {
                    lemma_one_row(ring[c] as int, x - ring[c] * width, row, column, width);
                }
            }
            assert(left[p][x] == held[p][x]);
        }
    }
}

/// The parts of one rank in the rounds over the columns of each channel.
pub open spec fn column_parts<T, D: RankDevice<T>>(
    model: CollectiveModel,
    width: int,
    channels: int,
    operation: u64,
    offset: int,
    reducing: bool,
    reduce: spec_fn(T, T) -> T,
    labels: Labels,
) -> spec_fn(int, Seq<T>) -> Script<Tally<T>, D::Error> {
    |channel: int, values: Seq<T>|
        column_part::<T, D>(
            model,
            values,
            width,
            balanced_start(width, channels, channel),
            chunk_length(width, channels, channel),
            operation,
            channel as usize,
            offset,
            reducing,
            reduce,
            labels,
        )
}

/// The calls of each channel of a collective over columns.
proof fn lemma_calls_for_columns<T, D: RankDevice<T>>(
    model: CollectiveModel,
    width: int,
    channels: int,
    operation: u64,
    offset: int,
    reducing: bool,
    reduce: spec_fn(T, T) -> T,
    labels: Labels,
)
    requires
        model.valid(),
    ensures
        calls_for_each(
            column_parts::<T, D>(
                model,
                width,
                channels,
                operation,
                offset,
                reducing,
                reduce,
                labels,
            ),
            2 * (model.world() - 1),
        ),
        hops_for_each(
            column_parts::<T, D>(
                model,
                width,
                channels,
                operation,
                offset,
                reducing,
                reduce,
                labels,
            ),
            columns_hops(model, width, channels, operation, offset, reducing),
        ),
{
    reveal(calls_for_each);
    reveal(hops_for_each);
    let each = columns_hops(model, width, channels, operation, offset, reducing);
    let channel = column_parts::<T, D>(
        model,
        width,
        channels,
        operation,
        offset,
        reducing,
        reduce,
        labels,
    );
    assert forall|c: int, v: Seq<T>, events: Seq<TransportEvent>, tally: Tally<T>| #[trigger]
        ran(channel(c, v), events, tally) implies events.len() == 2 * (model.world() - 1) && took(
        events,
        each(c),
    ) by {
        lemma_column_calls::<T, D>(
            model,
            v,
            width,
            balanced_start(width, channels, c),
            chunk_length(width, channels, c),
            operation,
            c as usize,
            offset,
            reducing,
            reduce,
            labels,
            events,
            tally,
        );
    }
}

/// What has come round to a cell rests on that cell of each table only.
proof fn lemma_come_round_cell<T>(
    one: Seq<Seq<T>>,
    other: Seq<Seq<T>>,
    place: int,
    element: int,
    block: int,
    offset: int,
    steps: int,
    reducing: bool,
    reduce: spec_fn(T, T) -> T,
)
    requires
        0 < one.len() == other.len(),
        0 <= place < one.len(),
        forall|p: int|
            #![trigger one[p]]
            0 <= p < one.len() ==> one[p][element] == other[p][element],
    ensures
        come_round(one, place, element, block, offset, steps, reducing, reduce) == come_round(
            other,
            place,
            element,
            block,
            offset,
            steps,
            reducing,
            reduce,
        ),
{
    let places = one.len() as int;
    lemma_fold_column(
        one,
        other,
        element,
        block - offset,
        hops(place, block, offset, places),
        reduce,
    );
    lemma_mod_bound(block - offset, places);
    assert(one[(block - offset) % places][element] == other[(block - offset) % places][element]);
    assert(one[place][element] == other[place][element]);
}

/// What all the channels before one leave in a cell of a rank's table.
pub open spec fn columns_left<T>(
    model: CollectiveModel,
    tables: Seq<Seq<T>>,
    width: int,
    channels: int,
    offset: int,
    reducing: bool,
    reduce: spec_fn(T, T) -> T,
    rank: int,
    row: int,
    column: int,
) -> T {
    let channel = balanced_owner(width, channels, column);
    column_left(
        tables,
        model.ring(channel),
        width,
        balanced_start(width, channels, channel),
        chunk_length(width, channels, channel),
        offset,
        reducing,
        reduce,
        rank,
        row,
        column,
    )
}

/// The first channels of a collective over columns in every rank.
proof fn lemma_columns<T, D: RankDevice<T>>(
    models: Seq<CollectiveModel>,
    inputs: Seq<Seq<T>>,
    width: int,
    channels: int,
    operation: u64,
    offset: int,
    reducing: bool,
    reduce: spec_fn(T, T) -> T,
    labels: Labels,
    traces: Seq<Seq<TransportEvent>>,
    tallies: Seq<Seq<Tally<T>>>,
    done: int,
)
    requires
        faithful::<T, D>(),
        one_world(models),
        inputs.len() == models.len(),
        traces.len() == models.len(),
        tallies.len() == models.len(),
        in_step(traces),
        0 < channels <= usize::MAX,
        0 <= width,
        0 <= done <= channels,
        forall|r: int|
            0 <= r < inputs.len() ==> (#[trigger] inputs[r]).len() == width * models.len(),
        forall|r: int|
            #![trigger tallies[r]]
            0 <= r < models.len() ==> channels_ran(
                column_parts::<T, D>(
                    models[r],
                    width,
                    channels,
                    operation,
                    offset,
                    reducing,
                    reduce,
                    labels,
                ),
                0,
                channels,
                inputs[r],
                2 * (models.len() - 1),
                traces[r],
                tallies[r],
            ),
    ensures
        forall|r: int|
            0 <= r < models.len() ==> (#[trigger] before_channel(inputs, tallies, done)[r]).len()
                == width * models.len(),
        forall|r: int, row: int, column: int|
            #![trigger before_channel(inputs, tallies, done)[r][row * width + column]]
            0 <= r < models.len() && 0 <= row < models.len() && 0 <= column < width
                ==> before_channel(inputs, tallies, done)[r][row * width + column] == (
            if balanced_owner(width, channels, column) < done {
                columns_left(
                    models[0],
                    inputs,
                    width,
                    channels,
                    offset,
                    reducing,
                    reduce,
                    r,
                    row,
                    column,
                )
            } else {
                inputs[r][row * width + column]
            }),
    decreases done,
{
    let now = before_channel(inputs, tallies, done);
    if done == 0 {
        assert forall|r: int, row: int, column: int|
            #![trigger now[r][row * width + column]]
            0 <= r < models.len() && 0 <= row < models.len() && 0 <= column
                < width implies balanced_owner(width, channels, column) >= done by {
            lemma_balanced_owner(width, channels, column);
        }
    } else {
        let c = done - 1;
        let step = 2 * (models.len() - 1);
        lemma_columns::<T, D>(
            models,
            inputs,
            width,
            channels,
            operation,
            offset,
            reducing,
            reduce,
            labels,
            traces,
            tallies,
            c,
        );
        let tables = before_channel(inputs, tallies, c);
        let start = balanced_start(width, channels, c);
        let size = chunk_length(width, channels, c);
        let finals = Seq::new(models.len(), |r: int| tallies[r][c]);
        let parts = part_of(traces, c * step, c * step + step);
        let ring = models[0].ring(c);
        law_balanced_partition(width, channels, c);
        assert(0 <= c * step) by (nonlinear_arith)
            requires
                0 <= c,
                0 <= step,
        ;
        assert(c * step + step <= channels * step) by (nonlinear_arith)
            requires
                c + 1 <= channels,
                0 <= step,
        ;
        assert forall|r: int| 0 <= r < traces.len() implies c * step + step <= (
        #[trigger] traces[r]).len() by {
            assert(tallies[r].len() == channels);
        }
        lemma_part_in_step(traces, c * step, c * step + step);
        assert forall|r: int| #![trigger finals[r]] 0 <= r < models.len() implies ran(
            column_part::<T, D>(
                models[r],
                tables[r],
                width,
                start,
                size,
                operation,
                c as usize,
                offset,
                reducing,
                reduce,
                labels,
            ),
            parts[r],
            finals[r],
        ) by {
            assert(tallies[r].len() == channels);
            assert(ran(
                column_parts::<T, D>(
                    models[r],
                    width,
                    channels,
                    operation,
                    offset,
                    reducing,
                    reduce,
                    labels,
                )(0 + c, given_to(inputs[r], tallies[r], c)),
                traces[r].subrange(c * step, c * step + step),
                tallies[r][c],
            ));
        }
        lemma_column_round::<T, D>(
            models,
            tables,
            width,
            start,
            size,
            operation,
            c as usize,
            offset,
            reducing,
            reduce,
            labels,
            parts,
            finals,
        );
        assert forall|r: int| 0 <= r < models.len() implies (#[trigger] now[r]).len() == width
            * models.len() by {
            assert(now[r] == finals[r].values);
        }
        assert forall|r: int, row: int, column: int|
            #![trigger now[r][row * width + column]]
            0 <= r < models.len() && 0 <= row < models.len() && 0 <= column < width implies now[r][
        row * width + column] == (if balanced_owner(width, channels, column) < done {
            columns_left(
                models[0],
                inputs,
                width,
                channels,
                offset,
                reducing,
                reduce,
                r,
                row,
                column,
            )
        } else {
            inputs[r][row * width + column]
        }) by {
            let x = row * width + column;
            assert(now[r] == finals[r].values);
            assert(finals[r].values[row * width + column] == now[r][x]);
            lemma_balanced_owner(width, channels, column);
            assert(tables[r][x] == before_channel(inputs, tallies, c)[r][row * width + column]);
            if start <= column < start + size {
                lemma_owner_is(width, channels, c, column);
                lemma_one_world(models, 0, c);
                let held = by_place(tables, ring);
                let whole = by_place(inputs, ring);
                lemma_ring_holds_all(models.len() as u32, ring, r as u32);
                assert forall|p: int| #![trigger held[p]] 0 <= p < held.len() implies held[p][x]
                    == whole[p][x] by {
                    assert(tables[ring[p] as int][x] == before_channel(
                        inputs,
                        tallies,
                        c,
                    )[ring[p] as int][row * width + column]);
                }
                lemma_come_round_cell(
                    held,
                    whole,
                    ring.index_of(r as u32),
                    x,
                    ring.index_of(row as u32),
                    offset,
                    ring.len() - 1,
                    reducing,
                    reduce,
                );
            } else {
                assert(balanced_owner(width, channels, column) != c);
            }
        }
    }
}

/// The channels of a ring reduce-scatter are rounds over columns that reduce, from
/// the block before a rank's own on.
proof fn lemma_reduce_scatter_parts<T, D: RankDevice<T>>(
    model: CollectiveModel,
    width: int,
    channels: int,
    operation: u64,
    reduce: spec_fn(T, T) -> T,
)
    requires
        model.valid(),
    ensures
        reduce_scatter_channels::<T, D>(model, width, channels, operation, reduce)
            == column_parts::<T, D>(
            model,
            width,
            channels,
            operation,
            -1,
            true,
            reduce,
            reduce_scatter_labels(),
        ),
{
    let one = reduce_scatter_channels::<T, D>(model, width, channels, operation, reduce);
    let other = column_parts::<T, D>(
        model,
        width,
        channels,
        operation,
        -1,
        true,
        reduce,
        reduce_scatter_labels(),
    );
    assert forall|c: int, v: Seq<T>| #[trigger] one(c, v) == other(c, v) by {
        let channel = c as usize;
        model.lemma_ring(channel as int);
        lemma_ring_holds_all(
            model.place.world_size,
            model.ring(channel as int),
            model.place.rank,
        );
    }
    assert(one =~= other);
}

/// The channels of a ring all-gather are rounds over columns that copy, from a
/// rank's own block on.
proof fn lemma_all_gather_parts<T, D: RankDevice<T>>(
    model: CollectiveModel,
    width: int,
    channels: int,
    operation: u64,
)
    requires
        model.valid(),
    ensures
        all_gather_channels::<T, D>(model, width, channels, operation) == column_parts::<T, D>(
            model,
            width,
            channels,
            operation,
            0,
            false,
            unreduced(),
            all_gather_labels(),
        ),
{
    let one = all_gather_channels::<T, D>(model, width, channels, operation);
    let other = column_parts::<T, D>(
        model,
        width,
        channels,
        operation,
        0,
        false,
        unreduced(),
        all_gather_labels(),
    );
    assert forall|c: int, v: Seq<T>| #[trigger] one(c, v) == other(c, v) by {
        let channel = c as usize;
        let ring = model.ring(channel as int);
        model.lemma_ring(channel as int);
        lemma_ring_holds_all(model.place.world_size, ring, model.place.rank);
        lemma_small_mod(ring.index_of(model.place.rank) as nat, ring.len());
    }
    assert(one =~= other);
}

/// What a ring reduce-scatter makes of a column of a rank's row: it goes round the
/// ring of its channel, from the place after the rank's on, and is reduced with
/// each rank's own.
pub open spec fn ring_scattered<T>(
    model: CollectiveModel,
    inputs: Seq<Seq<T>>,
    width: int,
    channels: int,
    reduce: spec_fn(T, T) -> T,
    rank: int,
    column: int,
) -> T {
    let ring = model.ring(balanced_owner(width, channels, column));
    ring_fold(
        by_place(inputs, ring),
        rank * width + column,
        ring.index_of(rank as u32) + 1,
        ring.len() - 1,
        reduce,
    )
}

/// A rank's part in a ring reduce-scatter is an agreement and its channels.
proof fn lemma_reduce_scatter_run<T, D: RankDevice<T>>(
    model: CollectiveModel,
    input: Seq<T>,
    width: int,
    operation: u64,
    reduction: ReductionOperation,
    ring_channels: int,
    reduce: spec_fn(T, T) -> T,
    trace: Seq<TransportEvent>,
    result: (Seq<T>, CollectiveStats),
) -> (tallies: Seq<Tally<T>>)
    requires
        model.valid(),
        0 < ring_channels,
        ran(
            reduce_scatter_ring_script::<T, D>(
                model,
                input,
                width,
                operation,
                reduction,
                ring_channels,
                reduce,
            ),
            trace,
            result,
        ),
    ensures
        trace.len() >= 1,
        channels_ran(
            column_parts::<T, D>(
                model,
                width,
                effective_channels(ring_channels, width),
                operation,
                -1,
                true,
                reduce,
                reduce_scatter_labels(),
            ),
            0,
            effective_channels(ring_channels, width),
            input,
            2 * (model.world() - 1),
            trace.skip(1),
            tallies,
        ),
        own_row(model, left_by(input, tallies), width) == result.0,
        trace[0].call is Exchange,
        took(
            trace.skip(1),
            hops_from(
                columns_hops(
                    model,
                    width,
                    effective_channels(ring_channels, width),
                    operation,
                    -1,
                    true,
                ),
                0,
                effective_channels(ring_channels, width),
            ),
        ),
{
    let channels = effective_channels(ring_channels, width);
    let chain = reduce_scatter_channels::<T, D>(model, width, channels, operation, reduce);
    let run = lemma_ring_collective(
        fnv(
            agreement_bytes(
                operation,
                input.len() as u64,
                model.channel_rings(channels),
                (0x300 + reduction.spec_code()) as u32,
                channels as u64,
                model.channel_rails(channels),
            ),
        ),
        "invalid ring collective agreement response"@,
        chain,
        channels,
        input,
        reduce_scatter_agreed::<T, D>(model, input, width, channels, operation, reduce),
        reduce_scatter_finished::<T, D>(model, width),
        trace,
        result,
    );
    lemma_reduce_scatter_parts::<T, D>(model, width, channels, operation, reduce);
    lemma_calls_for_columns::<T, D>(
        model,
        width,
        channels,
        operation,
        -1,
        true,
        reduce,
        reduce_scatter_labels(),
    );
    lemma_channels_took(
        chain,
        columns_hops(model, width, channels, operation, -1, true),
        0,
        channels,
        input,
        Seq::empty(),
        trace.skip(1),
        run,
    );
    lemma_channels_ran(
        chain,
        0,
        channels,
        input,
        Seq::empty(),
        2 * (model.world() - 1),
        trace.skip(1),
        run,
    )
}

/// What the rounds of a reduce-scatter leave in a rank's own row.
proof fn lemma_scattered_cell<T>(
    models: Seq<CollectiveModel>,
    inputs: Seq<Seq<T>>,
    width: int,
    channels: int,
    reduce: spec_fn(T, T) -> T,
    rank: int,
    column: int,
)
    requires
        one_world(models),
        0 < channels,
        0 <= rank < models.len(),
        0 <= column < width,
    ensures
        columns_left(models[0], inputs, width, channels, -1, true, reduce, rank, rank, column)
            == ring_scattered(models[0], inputs, width, channels, reduce, rank, column),
{
    let c = balanced_owner(width, channels, column);
    lemma_balanced_owner(width, channels, column);
    lemma_one_world(models, 0, c);
    let ring = models[0].ring(c);
    let places = ring.len() as int;
    lemma_ring_holds_all(models.len() as u32, ring, rank as u32);
    let p = ring.index_of(rank as u32);
    lemma_mod_add_multiples_vanish(-1, places);
    lemma_small_mod((places - 1) as nat, places as nat);
    assert(hops(p, p, -1, places) == places - 1);
}

/// What the ranks hold of their rows once a reduce-scatter's channels are through.
proof fn lemma_scattered<T, D: RankDevice<T>>(
    models: Seq<CollectiveModel>,
    inputs: Seq<Seq<T>>,
    width: int,
    channels: int,
    operation: u64,
    reduce: spec_fn(T, T) -> T,
    traces: Seq<Seq<TransportEvent>>,
    tallies: Seq<Seq<Tally<T>>>,
    results: Seq<(Seq<T>, CollectiveStats)>,
)
    requires
        faithful::<T, D>(),
        one_world(models),
        inputs.len() == models.len(),
        traces.len() == models.len(),
        tallies.len() == models.len(),
        results.len() == models.len(),
        in_step(traces),
        0 < channels <= usize::MAX,
        0 <= width,
        forall|r: int|
            0 <= r < inputs.len() ==> (#[trigger] inputs[r]).len() == width * models.len(),
        forall|r: int|
            #![trigger tallies[r]]
            0 <= r < models.len() ==> channels_ran(
                column_parts::<T, D>(
                    models[r],
                    width,
                    channels,
                    operation,
                    -1,
                    true,
                    reduce,
                    reduce_scatter_labels(),
                ),
                0,
                channels,
                inputs[r],
                2 * (models.len() - 1),
                traces[r],
                tallies[r],
            ) && own_row(models[r], left_by(inputs[r], tallies[r]), width) == results[r].0,
    ensures
        forall|r: int|
            0 <= r < models.len() ==> (#[trigger] results[r]).0 == Seq::new(
                width as nat,
                |column: int|
                    ring_scattered(models[0], inputs, width, channels, reduce, r, column),
            ),
{
    let last = before_channel(inputs, tallies, channels);
    assert forall|r: int| 0 <= r < models.len() implies (#[trigger] results[r]).0 == Seq::new(
        width as nat,
        |column: int| ring_scattered(models[0], inputs, width, channels, reduce, r, column),
    ) by {
        let expected = Seq::new(
            width as nat,
            |column: int| ring_scattered(models[0], inputs, width, channels, reduce, r, column),
        );
        assert(tallies[r].len() == channels);
        assert(left_by(inputs[r], tallies[r]) == last[r]);
        assert(models[r].place.rank == r);
        assert(block_is(last[r], r, width, expected) && last[r].len() == models.len() * width) by {
            lemma_columns::<T, D>(
                models,
                inputs,
                width,
                channels,
                operation,
                -1,
                true,
                reduce,
                reduce_scatter_labels(),
                traces,
                tallies,
                channels,
            );
            assert(last[r].len() == width * models.len());
            assert(width * models.len() == models.len() * width) by (nonlinear_arith);
            assert forall|column: int| 0 <= column < width implies #[trigger] last[r][r * width
                + column] == expected[column] by {
                lemma_balanced_owner(width, channels, column);
                lemma_scattered_cell(models, inputs, width, channels, reduce, r, column);
            }
        }
        lemma_block_read(last[r], r, width, expected, models.len() as int);
    }
}

/// With a reduction whose order does not matter a scattered column is the
/// reduction over the ranks in order.
proof fn lemma_scattered_in_order<T>(
    models: Seq<CollectiveModel>,
    inputs: Seq<Seq<T>>,
    width: int,
    channels: int,
    reduce: spec_fn(T, T) -> T,
    rank: int,
    column: int,
)
    requires
        one_world(models),
        inputs.len() == models.len(),
        0 < channels,
        0 <= rank < models.len(),
        0 <= column < width,
        order_free(reduce),
    ensures
        ring_scattered(models[0], inputs, width, channels, reduce, rank, column) == rank_fold(
            inputs,
            rank * width + column,
            models.len() - 1,
            reduce,
        ),
{
    let c = balanced_owner(width, channels, column);
    lemma_balanced_owner(width, channels, column);
    lemma_one_world(models, 0, c);
    assert(models[0].place.world_size == models.len());
    let ring = models[0].ring(c);
    law_any_ring(
        inputs,
        models.len() as u32,
        ring,
        rank * width + column,
        ring.index_of(rank as u32) + 1,
        reduce,
    );
}

/// A ring reduce-scatter. Where every rank of a world runs its part to the end and
/// receives what its neighbours send, each rank holds its own row: each column is
/// reduced round the ring of its channel, over every rank's own. With a reduction
/// whose order does not matter that is the reduction over the ranks in order.
pub proof fn law_ring_reduce_scatter<T, D: RankDevice<T>>(
    models: Seq<CollectiveModel>,
    inputs: Seq<Seq<T>>,
    width: int,
    operation: u64,
    reduction: ReductionOperation,
    ring_channels: int,
    reduce: spec_fn(T, T) -> T,
    traces: Seq<Seq<TransportEvent>>,
    results: Seq<(Seq<T>, CollectiveStats)>,
)
    requires
        faithful::<T, D>(),
        one_world(models),
        inputs.len() == models.len(),
        traces.len() == models.len(),
        results.len() == models.len(),
        0 < ring_channels <= usize::MAX,
        0 <= width,
        in_order_delivery(traces),
        forall|r: int|
            0 <= r < inputs.len() ==> (#[trigger] inputs[r]).len() == width * models.len(),
        forall|r: int|
            #![trigger results[r]]
            0 <= r < models.len() ==> ran(
                reduce_scatter_ring_script::<T, D>(
                    models[r],
                    inputs[r],
                    width,
                    operation,
                    reduction,
                    ring_channels,
                    reduce,
                ),
                traces[r],
                results[r],
            ),
    ensures
        forall|r: int|
            0 <= r < models.len() ==> (#[trigger] results[r]).0 == Seq::new(
                width as nat,
                |column: int|
                    ring_scattered(
                        models[0],
                        inputs,
                        width,
                        effective_channels(ring_channels, width),
                        reduce,
                        r,
                        column,
                    ),
            ),
        order_free(reduce) ==> forall|r: int, column: int|
            #![trigger results[r].0[column]]
            0 <= r < models.len() && 0 <= column < width ==> results[r].0[column] == rank_fold(
                inputs,
                r * width + column,
                models.len() - 1,
                reduce,
            ),
{
    let channels = effective_channels(ring_channels, width);
    let step = 2 * (models.len() - 1);
    let rests = rest_of(traces, 1);
    let labels = reduce_scatter_labels();
    let tallies = Seq::new(
        models.len(),
        |r: int|
            choose|t: Seq<Tally<T>>|
                channels_ran(
                    column_parts::<T, D>(
                        models[r],
                        width,
                        channels,
                        operation,
                        -1,
                        true,
                        reduce,
                        labels,
                    ),
                    0,
                    channels,
                    inputs[r],
                    step,
                    rests[r],
                    t,
                ) && own_row(models[r], left_by(inputs[r], t), width) == results[r].0,
    );
    assert forall|r: int|
        #![trigger tallies[r]]
        0 <= r < models.len() implies traces[r].len() >= 1 && channels_ran(
        column_parts::<T, D>(models[r], width, channels, operation, -1, true, reduce, labels),
        0,
        channels,
        inputs[r],
        step,
        rests[r],
        tallies[r],
    ) && own_row(models[r], left_by(inputs[r], tallies[r]), width) == results[r].0
        && traces[r][0].call is Exchange && took(
        traces[r].skip(1),
        hops_from(columns_hops(models[r], width, channels, operation, -1, true), 0, channels),
    ) by {
        let model = models[r];
        assert(model.place.world_size == models.len());
        let found = lemma_reduce_scatter_run::<T, D>(
            model,
            inputs[r],
            width,
            operation,
            reduction,
            ring_channels,
            reduce,
            traces[r],
            results[r],
        );
        assert(rests[r] == traces[r].skip(1));
        assert(channels_ran(
            column_parts::<T, D>(model, width, channels, operation, -1, true, reduce, labels),
            0,
            channels,
            inputs[r],
            step,
            rests[r],
            found,
        ) && own_row(
            model,
            left_by(inputs[r], found),
            width,
        ) == results[r].0);
    }
    assert forall|r: int|
        #![trigger traces[r]]
        0 <= r < traces.len() implies traces[r].len() >= 1 && traces[r][0].call is Exchange && took(
        traces[r].skip(1),
        hops_from(columns_hops(models[r], width, channels, operation, -1, true), 0, channels),
    ) by {
        assert(tallies[r].len() == channels);
    }
    lemma_columns_in_step(models, width, channels, operation, -1, true, traces);
    lemma_scattered::<T, D>(
        models,
        inputs,
        width,
        channels,
        operation,
        reduce,
        rests,
        tallies,
        results,
    );
    if order_free(reduce) {
        assert forall|r: int, column: int|
            #![trigger results[r].0[column]]
            0 <= r < models.len() && 0 <= column < width implies results[r].0[column]
            == rank_fold(inputs, r * width + column, models.len() - 1, reduce) by {
            lemma_scattered_in_order(models, inputs, width, channels, reduce, r, column);
        }
    }
}

/// A rank's part in a ring all-gather is an agreement and its channels.
proof fn lemma_all_gather_run<T, D: RankDevice<T>>(
    model: CollectiveModel,
    input: Seq<T>,
    operation: u64,
    ring_channels: int,
    trace: Seq<TransportEvent>,
    result: (Seq<T>, CollectiveStats),
) -> (tallies: Seq<Tally<T>>)
    requires
        model.valid(),
        0 < ring_channels,
        ran(
            all_gather_ring_script::<T, D>(model, input, operation, ring_channels),
            trace,
            result,
        ),
    ensures
        trace.len() >= 1,
        ({
            let width = input.len() as int;
            let channels = effective_channels(ring_channels, width);
            &&& channels_ran(
                column_parts::<T, D>(
                    model,
                    width,
                    channels,
                    operation,
                    0,
                    false,
                    unreduced(),
                    all_gather_labels(),
                ),
                0,
                channels,
                own_row_known(model, input),
                2 * (model.world() - 1),
                trace.skip(1),
                tallies,
            )
            &&& took(
                trace.skip(1),
                hops_from(columns_hops(model, width, channels, operation, 0, false), 0, channels),
            )
        }),
        trace[0].call is Exchange,
        left_by(own_row_known(model, input), tallies) == result.0,
{
    let width = input.len() as int;
    let channels = effective_channels(ring_channels, width);
    let chain = all_gather_channels::<T, D>(model, width, channels, operation);
    let start = own_row_known(model, input);
    if input.len() * model.world() > usize::MAX {
        let refusal: Failure<D::Error> = too_large("ring all-gather output length"@);
        lemma_over::<(Seq<T>, CollectiveStats), D::Error>(
            Err(Stop { failure: refusal, in_channel: false }),
            trace,
        );
    }
    let run = lemma_ring_collective(
        fnv(
            agreement_bytes(
                operation,
                width as u64,
                model.channel_rings(channels),
                0x200,
                channels as u64,
                model.channel_rails(channels),
            ),
        ),
        "invalid ring collective agreement response"@,
        chain,
        channels,
        start,
        all_gather_agreed::<T, D>(model, input, channels, operation),
        all_gather_finished::<T, D>(model),
        trace,
        result,
    );
    lemma_all_gather_parts::<T, D>(model, width, channels, operation);
    lemma_calls_for_columns::<T, D>(
        model,
        width,
        channels,
        operation,
        0,
        false,
        unreduced(),
        all_gather_labels(),
    );
    lemma_channels_took(
        chain,
        columns_hops(model, width, channels, operation, 0, false),
        0,
        channels,
        start,
        Seq::empty(),
        trace.skip(1),
        run,
    );
    lemma_channels_ran(
        chain,
        0,
        channels,
        start,
        Seq::empty(),
        2 * (model.world() - 1),
        trace.skip(1),
        run,
    )
}

/// A ring all-gather. Where every rank of a world runs its part to the end and
/// receives what its neighbours send, each rank holds every rank's input, in rank
/// order.
pub proof fn law_ring_all_gather<T, D: RankDevice<T>>(
    models: Seq<CollectiveModel>,
    inputs: Seq<Seq<T>>,
    width: int,
    operation: u64,
    ring_channels: int,
    traces: Seq<Seq<TransportEvent>>,
    results: Seq<(Seq<T>, CollectiveStats)>,
)
    requires
        faithful::<T, D>(),
        one_world(models),
        inputs.len() == models.len(),
        traces.len() == models.len(),
        results.len() == models.len(),
        0 < ring_channels <= usize::MAX,
        in_order_delivery(traces),
        forall|r: int| 0 <= r < inputs.len() ==> (#[trigger] inputs[r]).len() == width,
        forall|r: int|
            #![trigger results[r]]
            0 <= r < models.len() ==> ran(
                all_gather_ring_script::<T, D>(models[r], inputs[r], operation, ring_channels),
                traces[r],
                results[r],
            ),
    ensures
        forall|r: int| 0 <= r < models.len() ==> (#[trigger] results[r]).0 == laid_out(inputs),
{
    assert(inputs[0].len() == width);
    let channels = effective_channels(ring_channels, width);
    let step = 2 * (models.len() - 1);
    let rests = rest_of(traces, 1);
    let labels = all_gather_labels();
    let reduce = unreduced::<T>();
    let starts = Seq::new(models.len(), |r: int| own_row_known(models[r], inputs[r]));
    let tallies = Seq::new(
        models.len(),
        |r: int|
            choose|t: Seq<Tally<T>>|
                channels_ran(
                    column_parts::<T, D>(
                        models[r],
                        width,
                        channels,
                        operation,
                        0,
                        false,
                        reduce,
                        labels,
                    ),
                    0,
                    channels,
                    starts[r],
                    step,
                    rests[r],
                    t,
                ) && left_by(starts[r], t) == results[r].0,
    );
    assert forall|r: int|
        #![trigger tallies[r]]
        0 <= r < models.len() implies traces[r].len() >= 1 && channels_ran(
        column_parts::<T, D>(models[r], width, channels, operation, 0, false, reduce, labels),
        0,
        channels,
        starts[r],
        step,
        rests[r],
        tallies[r],
    ) && left_by(starts[r], tallies[r]) == results[r].0 && traces[r][0].call is Exchange && took(
        traces[r].skip(1),
        hops_from(columns_hops(models[r], width, channels, operation, 0, false), 0, channels),
    ) by {
        assert(inputs[r].len() == width);
        let found = lemma_all_gather_run::<T, D>(
            models[r],
            inputs[r],
            operation,
            ring_channels,
            traces[r],
            results[r],
        );
        assert(rests[r] == traces[r].skip(1));
        assert(channels_ran(
            column_parts::<T, D>(models[r], width, channels, operation, 0, false, reduce, labels),
            0,
            channels,
            starts[r],
            step,
            rests[r],
            found,
        ) && left_by(starts[r], found) == results[r].0);
    }
    assert forall|r: int|
        #![trigger traces[r]]
        0 <= r < traces.len() implies traces[r].len() >= 1 && traces[r][0].call is Exchange && took(
        traces[r].skip(1),
        hops_from(columns_hops(models[r], width, channels, operation, 0, false), 0, channels),
    ) by {
        assert(tallies[r].len() == channels);
    }
    lemma_columns_in_step(models, width, channels, operation, 0, false, traces);
    assert forall|r: int| 0 <= r < starts.len() implies (#[trigger] starts[r]).len() == width
        * models.len() by {
        assert(inputs[r].len() == width);
        assert(models[r].place.world_size == models.len());
        lemma_row_fits(r, width, models.len() as int);
    }
    lemma_columns::<T, D>(
        models,
        starts,
        width,
        channels,
        operation,
        0,
        false,
        reduce,
        labels,
        rests,
        tallies,
        channels,
    );
    let last = before_channel(starts, tallies, channels);
    assert forall|r: int| 0 <= r < models.len() implies (#[trigger] results[r]).0 == laid_out(
        inputs,
    ) by {
        assert(tallies[r].len() == channels);
        let held = last[r];
        assert(results[r].0 == held);
        assert(width * models.len() == models.len() * width) by (nonlinear_arith);
        assert forall|row: int| 0 <= row < inputs.len() implies #[trigger] block_is(
            held,
            row,
            width,
            inputs[row],
        ) by {
            assert(inputs[row].len() == width);
            assert(models[row].place.rank == row);
            lemma_row_fits(row, width, models.len() as int);
            assert forall|column: int| 0 <= column < width implies #[trigger] held[row * width
                + column] == inputs[row][column] by {
                let c = balanced_owner(width, channels, column);
                lemma_balanced_owner(width, channels, column);
                lemma_one_world(models, 0, c);
                let ring = models[0].ring(c);
                let places = ring.len() as int;
                lemma_ring_holds_all(models.len() as u32, ring, r as u32);
                lemma_ring_holds_all(models.len() as u32, ring, row as u32);
                let p = ring.index_of(r as u32);
                let b = ring.index_of(row as u32);
                lemma_reached_place(p, b, 0, places);
                lemma_small_mod(b as nat, places as nat);
                assert(last[r][row * width + column] == by_place(starts, ring)[b][row * width
                    + column]);
                assert(ring[b] as int == row);
                assert(starts[row][row * width + column] == inputs[row][column]);
            }
        }
        lemma_all_blocks(held, width, inputs);
    }
}

} // verus!

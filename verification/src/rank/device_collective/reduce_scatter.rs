//! The ring reduce-scatter.

use crate::rank::device::{asked, lemma_bytes_fit, lossless, DeviceCall, RankDevice};
use crate::rank::device_collective::ring::{
    back, bounds, channels_next, channels_script, chunk_length, counted, counted_result, in_some,
    lemma_place_in_ring, ranges_fit, relay, round_legs, tallied, total_counts, totalled, Labels,
    RoundTags, Tally,
};
use crate::rank::device_collective::{
    absent_from_ring, conversed, effective_channels, from_rank, lemma_part, lemma_performed_part,
    performed, CollectiveModel, DeviceCollective, Scope,
};
use crate::rank::error::RankError;
use crate::rank::host::exchange::stats_of;
use crate::rank::layout::{
    are_balanced_ranges, balanced_ranges, balanced_start, law_balanced_partition,
};
use crate::rank::network::NetworkError;
use crate::rank::operation::ReductionOperation;
use crate::rank::script::{
    fails, followed, lemma_start, reached, tried, yields, Failure, Script,
};
use crate::rank::stats::CollectiveStats;
use crate::rank::topology::rings::is_ring;
use crate::rank::topology::TopologyError;
use crate::rank::transport::RankTransport;
use crate::rank::CollectiveAlgorithm;
use std::ops::Range;
use vstd::prelude::*;

verus! {

pub open spec fn reduce_scatter_labels() -> Labels {
    Labels {
        bytes: "ring reduce-scatter transferred bytes"@,
        launches: "ring reduce-scatter kernel launches"@,
    }
}

/// The blocks of a channel: the same columns of every rank's row.
pub open spec fn column_blocks(ring: Seq<u32>, width: int, start: int, length: int) -> Seq<
    (int, int),
> {
    Seq::new(
        ring.len(),
        |place: int| (ring[place] * width + start, ring[place] * width + start + length),
    )
}

/// The script of one channel of a ring reduce-scatter.
pub open spec fn reduce_scatter_channel<T, D: RankDevice<T>>(
    model: CollectiveModel,
    values: Seq<T>,
    width: int,
    start: int,
    length: int,
    operation: u64,
    channel: usize,
    reduce: spec_fn(T, T) -> T,
) -> Script<Tally<T>, D::Error> {
    let ring = model.ring(channel as int);
    let position = ring.index_of(model.place.rank);
    if !ring.contains(model.place.rank) {
        fails(Failure::Topology(absent_from_ring(model.place.rank)))
    } else {
        relay::<T, D>(
            model.element_type,
            model.rail(channel as int),
            round_legs(
                ring,
                column_blocks(ring, width, start, length),
                position,
                (position - 1) % (ring.len() as int),
                (RoundTags { operation, channel, phase: 0, hierarchical: false }).tags(),
                true,
            ),
            0,
            Tally { values, bytes: 0, launches: 0 },
            reduce,
            reduce_scatter_labels(),
        )
    }
}

pub open spec fn reduce_scatter_channels<T, D: RankDevice<T>>(
    model: CollectiveModel,
    width: int,
    channels: int,
    operation: u64,
    reduce: spec_fn(T, T) -> T,
) -> spec_fn(int, Seq<T>) -> Script<Tally<T>, D::Error> {
    |channel: int, values: Seq<T>|
        reduce_scatter_channel::<T, D>(
            model,
            values,
            width,
            balanced_start(width, channels, channel),
            chunk_length(width, channels, channel),
            operation,
            channel as usize,
            reduce,
        )
}

/// The row of this rank.
pub open spec fn own_row<T>(model: CollectiveModel, values: Seq<T>, width: int) -> Seq<T> {
    values.subrange(model.place.rank * width, model.place.rank * width + width)
}

pub open spec fn reduce_scatter_finished<T, D: RankDevice<T>>(
    model: CollectiveModel,
    width: int,
) -> spec_fn((Seq<T>, Seq<(int, int)>)) -> Script<(Seq<T>, CollectiveStats), D::Error> {
    |run: (Seq<T>, Seq<(int, int)>)|
        match totalled::<D::Error>(run.1, reduce_scatter_labels()) {
            Err(failure) => fails(failure),
            Ok((bytes, launches)) => yields(
                (
                    own_row(model, run.0, width),
                    stats_of(
                        model.place,
                        CollectiveAlgorithm::Ring,
                        model.world() - 1,
                        bytes,
                        launches,
                    ),
                ),
            ),
        }
}

pub open spec fn reduce_scatter_agreed<T, D: RankDevice<T>>(
    model: CollectiveModel,
    values: Seq<T>,
    width: int,
    channels: int,
    operation: u64,
    reduce: spec_fn(T, T) -> T,
) -> spec_fn(()) -> Script<(Seq<T>, CollectiveStats), D::Error> {
    |agreed: ()|
        tried(
            channels_script(
                reduce_scatter_channels::<T, D>(model, width, channels, operation, reduce),
                0,
                channels,
                values,
                Seq::empty(),
            ),
            false,
            reduce_scatter_finished::<T, D>(model, width),
        )
}

/// The script of a ring reduce-scatter: rows of `width` elements for the ranks.
pub open spec fn reduce_scatter_ring_script<T, D: RankDevice<T>>(
    model: CollectiveModel,
    values: Seq<T>,
    width: int,
    operation: u64,
    reduction: ReductionOperation,
    ring_channels: int,
    reduce: spec_fn(T, T) -> T,
) -> Script<(Seq<T>, CollectiveStats), D::Error> {
    let channels = effective_channels(ring_channels, width);
    tried(
        model.ring_agreement(
            operation,
            values.len() as int,
            (0x300 + reduction.spec_code()) as u32,
            channels,
        ),
        false,
        reduce_scatter_agreed::<T, D>(model, values, width, channels, operation, reduce),
    )
}

/// What a collective left in a new buffer, and its statistics.
pub open spec fn new_buffer<T, D: RankDevice<T>>(
    result: Result<(D::Buffer, CollectiveStats), D::Error>,
) -> Result<(Seq<T>, CollectiveStats), D::Error> {
    match result {
        Ok((buffer, stats)) => Ok((D::values(&buffer), stats)),
        Err(error) => Err(error),
    }
}

/// A row's columns lie apart from another column's blocks.
proof fn lemma_columns_apart(row: int, column: int, other: int, width: int, start: int, end: int)
    requires
        0 <= column < start <= end <= width,
    ensures
        !(other * width + start <= row * width + column < other * width + end),
{
    if row < other {
        assert(row * width + width <= other * width) by (nonlinear_arith)
            requires
                row + 1 <= other,
                width >= 0,
        ;
    } else if other < row {
        assert(other * width + width <= row * width) by (nonlinear_arith)
            requires
                other + 1 <= row,
                width >= 0,
        ;
    }
}

impl<'a, T, D: RankDevice<T>, S: RankTransport> DeviceCollective<'a, T, D, S> where
    D::Error: From<RankError> + From<NetworkError> + From<TopologyError>,
 {
    fn reduce_scatter_ring_channel(
        &mut self,
        working: &mut D::Buffer,
        output: &mut D::Buffer,
        output_length: usize,
        channel_range: Range<usize>,
        operation: u64,
        channel: usize,
        function: &D::Kernel,
    ) -> (result: Result<(usize, u32), D::Error>)
        requires
            old(self).model().valid(),
            channel_range.start <= channel_range.end <= output_length,
            D::values(&*old(working)).len() == output_length * old(self).model().world(),
            D::values(&*old(output)).len() == output_length,
        ensures
            *final(final(self).link) == *final(old(self).link),
            final(self).model() == old(self).model(),
            final(self).next() == old(self).next(),
            D::values(&*final(working)).len() == D::values(&*old(working)).len(),
            D::values(&*final(output)).len() == output_length,
            result is Ok ==> {
                let row = old(self).model().place.rank * output_length;
                &&& forall|i: int|
                    0 <= i < channel_range.start ==> #[trigger] D::values(&*final(output))[i]
                        == D::values(&*old(output))[i]
                &&& forall|i: int|
                    0 <= i < channel_range.start ==> #[trigger] D::values(
                        &*final(working),
                    )[row + i] == D::values(&*old(working))[row + i]
                &&& forall|i: int|
                    channel_range.start <= i < channel_range.end ==> #[trigger] D::values(
                        &*final(output),
                    )[i] == D::values(&*final(working))[row + i]
            },
            asked(
                old(self).standing().faults,
                final(self).standing().faults,
                |call: DeviceCall| call.handles_part(D::values(&*old(working)).len() as int),
            ),
            conversed(
                reduce_scatter_channel::<T, D>(
                    old(self).model(),
                    D::values(&*old(working)),
                    output_length as int,
                    channel_range.start as int,
                    channel_range.end - channel_range.start,
                    operation,
                    channel,
                    D::reduction(function),
                ),
                old(self).standing(),
                final(self).standing(),
                tallied::<T, D>(result, D::values(&*final(working))),
                false,
            ),
    {
        let ghost before = self.standing();
        let ghost model = self.model();
        let ghost script = reduce_scatter_channel::<T, D>(
            model,
            D::values(&*working),
            output_length as int,
            channel_range.start as int,
            channel_range.end - channel_range.start,
            operation,
            channel,
            D::reduction(function),
        );
        proof {
            model.lemma_ring(channel as int);
            lemma_start(script, before.log);
        }
        let tuning = self.tuning;
        let ring = tuning.ring_order_for_channel(channel);
        let position: usize = match self.ring_position(ring) {
            Ok(position) => position,
            Err(error) => {
                return Err(error);
            },
        };
        proof {
            lemma_place_in_ring(ring@, position as int);
        }
        let limit: usize = self.link.execution.buffer_len(&*working);
        let count: usize = ring.len();
        let mut blocks: Vec<Range<usize>> = Vec::new();
        let mut place: usize = 0;
        while place < count
            invariant
                place <= count,
                count == ring@.len(),
                is_ring(model.place.world_size, ring@),
                limit == output_length * model.world(),
                channel_range.start <= channel_range.end <= output_length,
                blocks@.len() == place,
                ranges_fit(blocks@, limit as int),
                forall|i: int|
                    0 <= i < place ==> {
                        &&& (#[trigger] blocks@[i]).start == ring@[i] * output_length
                            + channel_range.start
                        &&& blocks@[i].end == ring@[i] * output_length + channel_range.end
                    },
            decreases count - place,
        {
            let row: usize = ring[place] as usize;
            assert(row * output_length + output_length <= limit) by (nonlinear_arith)
                requires
                    row + 1 <= model.world(),
                    limit == output_length * model.world(),
            ;
            let row_start: usize = row * output_length;
            blocks.push(
                Range {
                    start: row_start + channel_range.start,
                    end: row_start + channel_range.end,
                },
            );
            place = place + 1;
        }
        assert(bounds(blocks@) =~= column_blocks(
            ring@,
            output_length as int,
            channel_range.start as int,
            channel_range.end - channel_range.start,
        ));
        let ghost held = D::values(&*working);
        let origin: usize = back(position, 1, count);
        let outcome = self.ring_round(
            working,
            ring,
            &blocks,
            position,
            origin,
            RoundTags { operation, channel, phase: 0, hierarchical: false },
            channel,
            function,
            true,
            0,
            0,
            "ring reduce-scatter transferred bytes",
            "ring reduce-scatter kernel launches",
        );
        let counts = match outcome {
            Ok(counts) => counts,
            Err(error) => {
                return Err(error);
            },
        };
        let rank: usize = self.rank() as usize;
        assert(rank * output_length + output_length <= limit) by (nonlinear_arith)
            requires
                rank + 1 <= model.world(),
                limit == output_length * model.world(),
        ;
        let row: usize = rank * output_length;
        let length: usize = channel_range.end - channel_range.start;
        let part = match self.link.execution.copy_bytes_from_device_at(
            &*working,
            row + channel_range.start,
            length,
        ) {
            Ok(part) => part,
            Err(error) => {
                return Err(error);
            },
        };
        proof {
            lemma_bytes_fit(
                output_length as int,
                channel_range.start as int,
                length as int,
                D::ELEMENT_SIZE as int,
            );
            assert(output_length <= output_length * model.world()) by (nonlinear_arith)
                requires
                    0 <= output_length,
                    1 <= model.world(),
            ;
        }
        match self.link.execution.copy_bytes_to_device_at(
            output,
            channel_range.start,
            part.as_slice(),
        ) {
            Ok(()) => {},
            Err(error) => {
                return Err(error);
            },
        }
        proof {
            let taken = D::values(&*working).subrange(
                row + channel_range.start,
                row + channel_range.start + length,
            );
            assert(lossless::<T, D>(taken));
            assert forall|i: int| 0 <= i < channel_range.start implies #[trigger] D::values(
                &*working,
            )[row + i] == held[row + i] by {
                if in_some(blocks@, row + i) {
                    let k = choose|k: int|
                        0 <= k < blocks@.len() && (#[trigger] blocks@[k]).start <= row + i
                            < blocks@[k].end;
                    lemma_columns_apart(
                        rank as int,
                        i,
                        ring@[k] as int,
                        output_length as int,
                        channel_range.start as int,
                        channel_range.end as int,
                    );
                }
            }
            assert forall|i: int|
                channel_range.start <= i < channel_range.end implies #[trigger] D::values(
                &*output,
            )[i] == D::values(&*working)[row + i] by {
                assert(taken[i - channel_range.start] == D::values(&*working)[row + i]);
            }
        }
        Ok(counts)
    }

    /// The channels of a ring reduce-scatter; a failure in one is told to the
    /// other ranks.
    fn reduce_scatter_ring_channels(
        &mut self,
        working: &mut D::Buffer,
        output: &mut D::Buffer,
        output_length: usize,
        operation: u64,
        channels: usize,
        function: &D::Kernel,
    ) -> (result: Result<Vec<(usize, u32)>, D::Error>)
        requires
            old(self).model().valid(),
            channels > 0,
            D::values(&*old(working)).len() == output_length * old(self).model().world(),
            D::values(&*old(output)).len() == output_length,
        ensures
            *final(final(self).link) == *final(old(self).link),
            final(self).model() == old(self).model(),
            final(self).next() == old(self).next(),
            D::values(&*final(working)).len() == D::values(&*old(working)).len(),
            result is Ok ==> D::values(&*final(output)) == own_row(
                old(self).model(),
                D::values(&*final(working)),
                output_length as int,
            ),
            asked(
                old(self).standing().faults,
                final(self).standing().faults,
                |call: DeviceCall| call.handles_part(D::values(&*old(working)).len() as int),
            ),
            performed::<T, D, (Seq<T>, Seq<(int, int)>)>(
                channels_script(
                    reduce_scatter_channels::<T, D>(
                        old(self).model(),
                        output_length as int,
                        channels as int,
                        operation,
                        D::reduction(function),
                    ),
                    0,
                    channels as int,
                    D::values(&*old(working)),
                    Seq::empty(),
                ),
                "ring reduce-scatter"@,
                (Scope::Ring { agreed: true }),
                old(self).standing(),
                final(self).standing(),
                counted_result::<T, D>(result, D::values(&*final(working))),
            ),
    {
        let ghost before = self.standing();
        let ghost model = self.model();
        let ghost combine = D::reduction(function);
        let ghost row = model.place.rank * output_length;
        let ghost each = reduce_scatter_channels::<T, D>(
            model,
            output_length as int,
            channels as int,
            operation,
            combine,
        );
        let ghost script = channels_script(
            each,
            0,
            channels as int,
            D::values(&*working),
            Seq::empty(),
        );
        let ranges = balanced_ranges(output_length, channels);
        let mut totals: Vec<(usize, u32)> = Vec::new();
        assert(counted(totals@) =~= Seq::empty());
        proof {
            lemma_start(script, before.log);
            law_balanced_partition(output_length as int, channels as int, 0);
        }
        let mut channel: usize = 0;
        while channel < channels
            invariant
                channel <= channels,
                channels > 0,
                are_balanced_ranges(ranges@, output_length as int, channels as int),
                D::values(&*working).len() == output_length * model.world(),
                D::values(&*working).len() == D::values(&*old(working)).len(),
                D::values(&*output).len() == output_length,
                model == old(self).model(),
                model.valid(),
                row == model.place.rank * output_length,
                combine == D::reduction(function),
                each == reduce_scatter_channels::<T, D>(
                    model,
                    output_length as int,
                    channels as int,
                    operation,
                    combine,
                ),
                before == old(self).standing(),
                script == channels_script(
                    each,
                    0,
                    channels as int,
                    D::values(&*old(working)),
                    Seq::empty(),
                ),
                forall|i: int|
                    0 <= i < balanced_start(output_length as int, channels as int, channel as int)
                        ==> #[trigger] D::values(&*output)[i] == D::values(&*working)[row + i],
                *final(self.link) == *final(old(self).link),
                self.model() == model,
                self.next() == old(self).next(),
                self.standing().faults == before.faults,
                followed(script, before.log, self.standing().log),
                reached(script, before.log, self.standing().log) == channels_script(
                    each,
                    channel as int,
                    channels as int,
                    D::values(&*working),
                    counted(totals@),
                ),
            decreases channels - channel,
        {
            proof {
                law_balanced_partition(output_length as int, channels as int, channel as int);
            }
            let ghost mid = self.standing();
            let ghost first = each(channel as int, D::values(&*working));
            let ghost next = channels_next(
                each,
                channel as int,
                channels as int,
                counted(totals@),
            );
            let ghost old_output = D::values(&*output);
            let ghost old_working = D::values(&*working);
            let range = Range { start: ranges[channel].start, end: ranges[channel].end };
            let ghost start = range.start as int;
            let ghost end = range.end as int;
            let outcome = self.reduce_scatter_ring_channel(
                working,
                output,
                output_length,
                range,
                operation,
                channel,
                function,
            );
            let ghost told = self.standing();
            proof {
                lemma_part(
                    script,
                    before,
                    mid,
                    told,
                    first,
                    true,
                    next,
                    tallied::<T, D>(outcome, D::values(&*working)),
                );
            }
            let outcome = self.propagate_channel_failure("ring reduce-scatter", outcome);
            match outcome {
                Ok(counts) => {
                    let ghost was = counted(totals@);
                    totals.push(counts);
                    assert(counted(totals@) =~= was.push((counts.0 as int, counts.1 as int)));
                    assert forall|i: int| 0 <= i < end implies #[trigger] D::values(&*output)[i]
                        == D::values(&*working)[row + i] by {
                        if i < start {
                            assert(D::values(&*output)[i] == old_output[i]);
                            assert(D::values(&*working)[row + i] == old_working[row + i]);
                        }
                    }
                },
                Err(error) => {
                    return Err(error);
                },
            }
            channel = channel + 1;
        }
        proof {
            law_balanced_partition(output_length as int, channels as int, 0);
            let rank = model.place.rank as int;
            assert(rank * output_length + output_length <= output_length * model.world())
                by (nonlinear_arith)
                requires
                    rank + 1 <= model.world(),
                    output_length >= 0,
            ;
            assert(0 <= rank * output_length) by (nonlinear_arith)
                requires
                    rank >= 0,
                    output_length >= 0,
            ;
            assert(D::values(&*output) =~= own_row(
                model,
                D::values(&*working),
                output_length as int,
            ));
        }
        Ok(totals)
    }

    pub fn reduce_scatter_ring(
        &mut self,
        input: &D::Buffer,
        output_length: usize,
        reduction_operation: ReductionOperation,
        function: &D::Kernel,
        ring_channels: usize,
    ) -> (result: Result<(D::Buffer, CollectiveStats), D::Error>)
        requires
            old(self).model().valid(),
            ring_channels > 0,
            D::values(input).len() == output_length * old(self).model().world(),
        ensures
            *final(final(self).link) == *final(old(self).link),
            final(self).model() == old(self).model(),
            final(self).next() == (if final(self).standing().log == old(self).standing().log {
                old(self).next()
            } else {
                old(self).next().wrapping_add(1)
            }),
            asked(
                old(self).standing().faults,
                final(self).standing().faults,
                |call: DeviceCall|
                    call.handles_whole(D::values(input).len() as int)
                    || call.handles_part(D::values(input).len() as int),
            ),
            performed::<T, D, (Seq<T>, CollectiveStats)>(
                reduce_scatter_ring_script::<T, D>(
                    old(self).model(),
                    D::values(input),
                    output_length as int,
                    old(self).next(),
                    reduction_operation,
                    ring_channels as int,
                    D::reduction(function),
                ),
                "ring reduce-scatter"@,
                (Scope::Ring { agreed: false }),
                old(self).standing(),
                final(self).standing(),
                new_buffer::<T, D>(result),
            ),
    {
        let ghost before = self.standing();
        let ghost model = self.model();
        let ghost combine = D::reduction(function);
        let world_size: u32 = self.world_size();
        let length: usize = self.link.execution.buffer_len(input);
        let ghost script = reduce_scatter_ring_script::<T, D>(
            model,
            D::values(input),
            output_length as int,
            self.next(),
            reduction_operation,
            ring_channels as int,
            combine,
        );
        proof {
            lemma_start(script, before.log);
        }
        let mut working = match self.link.execution.allocate(length) {
            Ok(working) => working,
            Err(error) => {
                return Err(error);
            },
        };
        let held = match self.link.execution.copy_from_device(input) {
            Ok(held) => held,
            Err(error) => {
                return Err(error);
            },
        };
        match self.link.execution.copy_to_device(&mut working, held.as_slice()) {
            Ok(()) => {},
            Err(error) => {
                return Err(error);
            },
        }
        assert(output_length <= output_length * model.world()) by (nonlinear_arith)
            requires
                0 <= output_length,
                1 <= model.world(),
        ;
        let mut output = match self.link.execution.allocate(output_length) {
            Ok(output) => output,
            Err(error) => {
                return Err(error);
            },
        };
        let operation: u64 = self.link.internal_sequence;
        self.link.internal_sequence = operation.wrapping_add(1);
        let channels: usize = self.effective_ring_channels(ring_channels, output_length);
        let discriminator: u32 = 0x300 + reduction_operation.code();
        let outcome = self.ring_agreement(operation, length, discriminator, channels);
        let ghost mid = self.standing();
        proof {
            lemma_part(
                script,
                before,
                before,
                mid,
                model.ring_agreement(operation, length as int, discriminator, channels as int),
                false,
                reduce_scatter_agreed::<T, D>(
                    model,
                    D::values(input),
                    output_length as int,
                    channels as int,
                    operation,
                    combine,
                ),
                outcome,
            );
        }
        match outcome {
            Ok(()) => {},
            Err(error) => {
                return Err(error);
            },
        }
        let ghost run = channels_script(
            reduce_scatter_channels::<T, D>(
                model,
                output_length as int,
                channels as int,
                operation,
                combine,
            ),
            0,
            channels as int,
            D::values(input),
            Seq::empty(),
        );
        let outcome = self.reduce_scatter_ring_channels(
            &mut working,
            &mut output,
            output_length,
            operation,
            channels,
            function,
        );
        proof {
            lemma_performed_part::<T, D, (Seq<T>, Seq<(int, int)>), (Seq<T>, CollectiveStats)>(
                script,
                "ring reduce-scatter"@,
                (Scope::Ring { agreed: true }),
                (Scope::Ring { agreed: false }),
                before,
                mid,
                self.standing(),
                run,
                reduce_scatter_finished::<T, D>(model, output_length as int),
                counted_result::<T, D>(outcome, D::values(&working)),
            );
        }
        let totals = match outcome {
            Ok(totals) => totals,
            Err(error) => {
                return Err(error);
            },
        };
        let (bytes, launches) = match total_counts::<D::Error>(
            &totals,
            "ring reduce-scatter transferred bytes",
            "ring reduce-scatter kernel launches",
        ) {
            Ok(counts) => counts,
            Err(error) => {
                return Err(from_rank(error));
            },
        };
        let stats = self.stats(CollectiveAlgorithm::Ring, world_size - 1, bytes, launches);
        Ok((output, stats))
    }
}

} // verus!

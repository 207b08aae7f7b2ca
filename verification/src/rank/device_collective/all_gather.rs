//! The ring all-gather.

use crate::math::{saturating_add_usize, saturating_mul_usize};
use crate::rank::device::{
    asked, lemma_bytes_fit, lemma_reading_length, overwritten, DeviceCall, RankDevice,
};
use crate::rank::device_collective::reduce_scatter::{column_blocks, new_buffer};
use crate::rank::device_collective::ring::{
    back, channels_next, channels_script, chunk_length, chunk_script, counted, forward, leg_next,
    leg_script, lemma_place_in_ring, received_bytes, relay, relay_next, round_legs, total_counts,
    totalled, Labels, Leg, RoundTags, Tally,
};
use crate::rank::device_collective::{
    absent_from_ring, conversed, effective_channels, from_rank, lemma_part, lemma_performed_part,
    performed, CollectiveModel, DeviceCollective, Scope,
};
use crate::rank::error::RankError;
use crate::rank::host::exchange::stats_of;
use crate::rank::layout::{
    are_balanced_ranges, balanced_ranges, balanced_start, law_balanced_partition,
};
use crate::rank::network::NetworkError;
use crate::rank::script::{
    fails, followed, lemma_start, reached, too_large, tried, yields, Failure, Script,
};
use crate::rank::stats::CollectiveStats;
use crate::rank::topology::rings::{is_ring, lemma_ring_holds_all};
use crate::rank::topology::TopologyError;
use crate::rank::transport::RankTransport;
use crate::rank::CollectiveAlgorithm;
use std::ops::Range;
use vstd::arithmetic::div_mod::*;
use vstd::prelude::*;

verus! {

/// No reduction takes place.
pub open spec fn unreduced<T>() -> spec_fn(T, T) -> T {
    |destination: T, source: T| destination
}

pub open spec fn all_gather_labels() -> Labels {
    Labels { bytes: "ring all-gather transferred bytes"@, launches: ""@ }
}

/// The output before anything is received: only the rank's own row is known.
pub open spec fn own_row_known<T>(model: CollectiveModel, input: Seq<T>) -> Seq<T> {
    let own = model.place.rank * input.len();
    Seq::new(
        (input.len() * model.world()) as nat,
        |i: int|
            if own <= i < own + input.len() {
                input[i - own]
            } else {
                arbitrary()
            },
    )
}

/// The script of one channel of a ring all-gather.
pub open spec fn all_gather_channel<T, D: RankDevice<T>>(
    model: CollectiveModel,
    values: Seq<T>,
    width: int,
    start: int,
    length: int,
    operation: u64,
    channel: usize,
) -> Script<Tally<T>, D::Error> {
    let ring = model.ring(channel as int);
    let position = ring.index_of(model.place.rank);
    if !ring.contains(model.place.rank) {
        fails(Failure::Topology(absent_from_ring(model.place.rank)))
    } else {
        relay::<T, D>(
            model.element_type,
            model.rail(channel as int),
            round_legs(
                ring,
                column_blocks(ring, width, start, length),
                position,
                position,
                (RoundTags { operation, channel, phase: 0, hierarchical: false }).tags(),
                false,
            ),
            0,
            Tally { values, bytes: 0, launches: 0 },
            unreduced(),
            all_gather_labels(),
        )
    }
}

pub open spec fn all_gather_channels<T, D: RankDevice<T>>(
    model: CollectiveModel,
    width: int,
    channels: int,
    operation: u64,
) -> spec_fn(int, Seq<T>) -> Script<Tally<T>, D::Error> {
    |channel: int, values: Seq<T>|
        all_gather_channel::<T, D>(
            model,
            values,
            width,
            balanced_start(width, channels, channel),
            chunk_length(width, channels, channel),
            operation,
            channel as usize,
        )
}

pub open spec fn all_gather_finished<T, D: RankDevice<T>>(model: CollectiveModel) -> spec_fn(
    (Seq<T>, Seq<(int, int)>),
) -> Script<(Seq<T>, CollectiveStats), D::Error> {
    |run: (Seq<T>, Seq<(int, int)>)|
        match totalled::<D::Error>(run.1, all_gather_labels()) {
            Err(failure) => fails(failure),
            Ok((bytes, launches)) => yields(
                (
                    run.0,
                    stats_of(
                        model.place,
                        CollectiveAlgorithm::Ring,
                        model.world() - 1,
                        bytes,
                        0,
                    ),
                ),
            ),
        }
}

pub open spec fn all_gather_agreed<T, D: RankDevice<T>>(
    model: CollectiveModel,
    input: Seq<T>,
    channels: int,
    operation: u64,
) -> spec_fn(()) -> Script<(Seq<T>, CollectiveStats), D::Error> {
    |agreed: ()|
        tried(
            channels_script(
                all_gather_channels::<T, D>(model, input.len() as int, channels, operation),
                0,
                channels,
                own_row_known(model, input),
                Seq::empty(),
            ),
            false,
            all_gather_finished::<T, D>(model),
        )
}

/// The script of a ring all-gather: the output holds every rank's row.
pub open spec fn all_gather_ring_script<T, D: RankDevice<T>>(
    model: CollectiveModel,
    input: Seq<T>,
    operation: u64,
    ring_channels: int,
) -> Script<(Seq<T>, CollectiveStats), D::Error> {
    let channels = effective_channels(ring_channels, input.len() as int);
    if input.len() * model.world() > usize::MAX {
        fails(too_large("ring all-gather output length"@))
    } else {
        tried(
            model.ring_agreement(operation, input.len() as int, 0x200, channels),
            false,
            all_gather_agreed::<T, D>(model, input, channels, operation),
        )
    }
}

/// Two buffers agree on a column range of a row.
pub open spec fn rows_agree<T>(
    one: Seq<T>,
    other: Seq<T>,
    width: int,
    row: int,
    start: int,
    end: int,
) -> bool {
    forall|c: int| start <= c < end ==> #[trigger] one[row * width + c] == other[row * width + c]
}

/// A row lies in the output.
pub(crate) proof fn lemma_row_fits(row: int, width: int, rows: int)
    requires
        0 <= row < rows,
        0 <= width,
    ensures
        0 <= row * width,
        row * width + width <= width * rows,
{
    assert(0 <= row * width) by (nonlinear_arith)
        requires
            0 <= row,
            0 <= width,
    ;
    assert(row * width + width <= width * rows) by (nonlinear_arith)
        requires
            row + 1 <= rows,
            0 <= width,
    ;
}

/// Buffers that agree on every row are equal.
pub(crate) proof fn lemma_rows_make_all<T>(one: Seq<T>, other: Seq<T>, width: int, rows: int)
    requires
        one.len() == width * rows,
        other.len() == width * rows,
        0 <= width,
        0 <= rows,
        forall|row: int| 0 <= row < rows ==> #[trigger] rows_agree(one, other, width, row, 0, width),
    ensures
        one == other,
{
    assert forall|i: int| 0 <= i < one.len() implies one[i] == other[i] by {
        if width == 0 {
            assert(width * rows == 0) by (nonlinear_arith)
                requires
                    width == 0,
            ;
        } else {
            let row = i / width;
            let column = i % width;
            lemma_fundamental_div_mod(i, width);
            lemma_mod_bound(i, width);
            assert(row >= 0) by {
                lemma_div_pos_is_pos(i, width);
            }
            assert(row < rows) by (nonlinear_arith)
                requires
                    i == width * row + column,
                    0 <= column,
                    i < width * rows,
                    width > 0,
            ;
            assert(row * width == width * row) by (nonlinear_arith);
            assert(rows_agree(one, other, width, row, 0, width));
            assert(one[row * width + column] == other[row * width + column]);
        }
    }
    assert(one =~= other);
}

/// What a channel of an all-gather left, by its script.
pub open spec fn gathered<T, E>(result: Result<(usize, Ghost<Seq<T>>), E>) -> Result<Tally<T>, E> {
    match result {
        Ok((bytes, values)) => Ok(Tally { values: values@, bytes: bytes as int, launches: 0 }),
        Err(error) => Err(error),
    }
}

pub open spec fn gathered_all<T, E>(result: Result<Vec<(usize, u32)>, E>, values: Seq<T>) -> Result<
    (Seq<T>, Seq<(int, int)>),
    E,
> {
    match result {
        Ok(totals) => Ok((values, counted(totals@))),
        Err(error) => Err(error),
    }
}

impl<'a, T, D: RankDevice<T>, S: RankTransport> DeviceCollective<'a, T, D, S> where
    D::Error: From<RankError> + From<NetworkError> + From<TopologyError>,
 {
    fn all_gather_ring_channel(
        &mut self,
        output: &mut D::Buffer,
        input_length: usize,
        channel_range: Range<usize>,
        operation: u64,
        channel: usize,
        Ghost(known): Ghost<Seq<T>>,
    ) -> (result: Result<(usize, Ghost<Seq<T>>), D::Error>)
        requires
            old(self).model().valid(),
            channel_range.start <= channel_range.end <= input_length,
            D::values(&*old(output)).len() == input_length * old(self).model().world(),
            known.len() == input_length * old(self).model().world(),
            rows_agree(
                D::values(&*old(output)),
                known,
                input_length as int,
                old(self).model().place.rank as int,
                0,
                input_length as int,
            ),
            forall|row: int|
                0 <= row < old(self).model().world() ==> #[trigger] rows_agree(
                    D::values(&*old(output)),
                    known,
                    input_length as int,
                    row,
                    0,
                    channel_range.start as int,
                ),
        ensures
            *final(final(self).link) == *final(old(self).link),
            final(self).model() == old(self).model(),
            final(self).next() == old(self).next(),
            D::values(&*final(output)).len() == D::values(&*old(output)).len(),
            result is Ok ==> {
                let now = result->Ok_0.1@;
                &&& now.len() == known.len()
                &&& rows_agree(
                    D::values(&*final(output)),
                    now,
                    input_length as int,
                    old(self).model().place.rank as int,
                    0,
                    input_length as int,
                )
                &&& forall|row: int|
                    0 <= row < old(self).model().world() ==> #[trigger] rows_agree(
                        D::values(&*final(output)),
                        now,
                        input_length as int,
                        row,
                        0,
                        channel_range.end as int,
                    )
            },
            asked(
                old(self).standing().faults,
                final(self).standing().faults,
                |call: DeviceCall| call.handles_part(D::values(&*old(output)).len() as int),
            ),
            conversed(
                all_gather_channel::<T, D>(
                    old(self).model(),
                    known,
                    input_length as int,
                    channel_range.start as int,
                    channel_range.end - channel_range.start,
                    operation,
                    channel,
                ),
                old(self).standing(),
                final(self).standing(),
                gathered(result),
                false,
            ),
    {
        let ghost before = self.standing();
        let ghost model = self.model();
        let ghost width = input_length as int;
        let ghost first_column = channel_range.start as int;
        let ghost last_column = channel_range.end as int;
        let ghost script = all_gather_channel::<T, D>(
            model,
            known,
            width,
            first_column,
            last_column - first_column,
            operation,
            channel,
        );
        proof {
            model.lemma_ring(channel as int);
            lemma_start(script, before.log);
        }
        let tuning = self.tuning;
        let ring = tuning.ring_order_for_channel(channel);
        let position: usize = match self.ring_position(ring) {
            Ok(position) => position,
            Err(error) => {
                return Err(error);
            },
        };
        proof {
            lemma_place_in_ring(ring@, position as int);
            lemma_small_mod(position as nat, ring@.len() as nat);
        }
        let tags = RoundTags { operation, channel, phase: 0, hierarchical: false };
        let ghost blocks = column_blocks(ring@, width, first_column, last_column - first_column);
        let ghost legs = round_legs(
            ring@,
            blocks,
            position as int,
            position as int,
            tags.tags(),
            false,
        );
        let ghost rail = model.rail(channel as int);
        let ghost labels = all_gather_labels();
        let limit: usize = self.link.execution.buffer_len(&*output);
        let count: usize = ring.len();
        let source: u32 = ring[back(position, 1, count)];
        let destination: u32 = ring[forward(position, count)];
        let length: usize = channel_range.end - channel_range.start;
        let ghost mut now = known;
        let mut transferred_bytes: usize = 0;
        let mut step: usize = 0;
        while step < count - 1
            invariant
                step <= count - 1,
                count == ring@.len(),
                position < count,
                position as int % (count as int) == position,
                model == old(self).model(),
                model.valid(),
                model.world() == count,
                ring@[position as int] == model.place.rank,
                is_ring(model.place.world_size, ring@),
                width == input_length,
                first_column == channel_range.start,
                last_column == channel_range.end,
                length == last_column - first_column,
                first_column <= last_column <= width,
                limit == width * count,
                D::values(&*output).len() == limit,
                D::values(&*old(output)).len() == limit,
                now.len() == limit,
                known.len() == limit,
                source == ring@[(position - 1) % (count as int)],
                destination == ring@[(position + 1) % (count as int)],
                rail == model.rail(channel as int),
                labels == all_gather_labels(),
                tags == (RoundTags { operation, channel, phase: 0, hierarchical: false }),
                blocks == column_blocks(ring@, width, first_column, last_column - first_column),
                legs == round_legs(
                    ring@,
                    blocks,
                    position as int,
                    position as int,
                    tags.tags(),
                    false,
                ),
                before == old(self).standing(),
                script == all_gather_channel::<T, D>(
                    model,
                    known,
                    width,
                    first_column,
                    last_column - first_column,
                    operation,
                    channel,
                ),
                forall|i: int|
                    0 <= i < limit && D::values(&*old(output))[i] == known[i]
                        ==> #[trigger] D::values(&*output)[i] == now[i],
                forall|m: int|
                    0 <= m <= step ==> #[trigger] rows_agree(
                        D::values(&*output),
                        now,
                        width,
                        ring@[(position - m) % (count as int)] as int,
                        first_column,
                        last_column,
                    ),
                *final(self.link) == *final(old(self).link),
                self.model() == model,
                self.next() == old(self).next(),
                self.standing().faults == before.faults,
                followed(script, before.log, self.standing().log),
                reached(script, before.log, self.standing().log) == relay::<T, D>(
                    model.element_type,
                    rail,
                    legs,
                    step as int,
                    (Tally { values: now, bytes: transferred_bytes as int, launches: 0 }),
                    unreduced(),
                    labels,
                ),
            decreases count - 1 - step,
        {
            let send: usize = back(position, step, count);
            let receive: usize = back(position, step + 1, count);
            let send_row: usize = ring[send] as usize;
            let receive_row: usize = ring[receive] as usize;
            proof {
                lemma_row_fits(send_row as int, width, count as int);
                lemma_row_fits(receive_row as int, width, count as int);
            }
            let send_start: usize = send_row * input_length + channel_range.start;
            let receive_start: usize = receive_row * input_length + channel_range.start;
            let tag: u64 = tags.tag(step);
            let ghost tally = Tally { values: now, bytes: transferred_bytes as int, launches: 0 };
            let ghost leg = legs[step as int];
            assert(blocks[send as int] == (
                send_row * width + first_column,
                send_row * width + first_column + (last_column - first_column),
            ));
            assert(blocks[receive as int] == (
                receive_row * width + first_column,
                receive_row * width + first_column + (last_column - first_column),
            ));
            assert(leg == (Leg {
                send_start: send_start as int,
                send_length: length as int,
                receive_start: receive_start as int,
                receive_length: length as int,
                destination,
                source,
                tag,
                reduce: false,
            }));
            let ghost first = leg_script::<T, D>(
                model.element_type,
                rail,
                now,
                tally,
                leg,
                unreduced(),
                labels,
            );
            let ghost after = relay_next::<T, D>(
                model.element_type,
                rail,
                legs,
                step as int,
                unreduced(),
                labels,
            );
            let ghost taken = leg_next::<T, D>(tally, leg, unreduced(), labels);
            let ghost mid = self.standing();
            proof {
                assert(rows_agree(
                    D::values(&*output),
                    now,
                    width,
                    ring@[(position - step) % (count as int)] as int,
                    first_column,
                    last_column,
                ));
                let sent = D::values(&*output).subrange(
                    send_start as int,
                    send_start + length,
                );
                let due = now.subrange(send_start as int, send_start + length);
                assert forall|i: int| 0 <= i < length implies sent[i] == due[i] by {
                    let c = first_column + i;
                    assert(D::values(&*output)[send_row * width + c] == now[send_row * width + c]);
                }
                assert(sent =~= due);
                lemma_start(first, mid.log);
            }
            let outcome = self.exchange_ring_chunk_bytes(
                &*output,
                Range { start: send_start, end: send_start + length },
                length,
                destination,
                source,
                channel,
                tag,
            );
            let ghost told = self.standing();
            proof {
                lemma_part(
                    first,
                    mid,
                    mid,
                    told,
                    chunk_script::<T, D>(
                        model.element_type,
                        rail,
                        now.subrange(send_start as int, send_start + length),
                        length as int,
                        destination,
                        source,
                        tag,
                    ),
                    false,
                    taken,
                    received_bytes(outcome),
                );
            }
            let received = match outcome {
                Ok(received) => received,
                Err(error) => {
                    proof {
                        lemma_part(
                            script,
                            before,
                            mid,
                            told,
                            first,
                            false,
                            after,
                            Err::<Tally<T>, D::Error>(error),
                        );
                    }
                    return Err(error);
                },
            };
            let moved: usize = saturating_add_usize(
                saturating_mul_usize(length, D::ELEMENT_SIZE),
                received.len(),
            );
            let total = transferred_bytes.checked_add(moved);
            if total.is_none() {
                let error = from_rank(RankError::Overflow("ring all-gather transferred bytes"));
                proof {
                    lemma_part(
                        script,
                        before,
                        mid,
                        told,
                        first,
                        false,
                        after,
                        Err::<Tally<T>, D::Error>(error),
                    );
                }
                return Err(error);
            }
            let ghost held = D::values(&*output);
            let ghost came = D::reading(received@);
            proof {
                lemma_reading_length::<T, D>(received@, length as nat);
                let grown = Tally {
                    values: overwritten(now, receive_start as int, came),
                    bytes: total->Some_0 as int,
                    launches: 0,
                };
                lemma_part(
                    script,
                    before,
                    mid,
                    told,
                    first,
                    false,
                    after,
                    Ok::<Tally<T>, D::Error>(grown),
                );
            }
            proof {
                lemma_bytes_fit(
                    D::values(&*output).len() as int,
                    receive_start as int,
                    length as int,
                    D::ELEMENT_SIZE as int,
                );
            }
            match self.link.execution.copy_bytes_to_device_at(
                output,
                receive_start,
                received.as_slice(),
            ) {
                Ok(()) => {},
                Err(error) => {
                    return Err(error);
                },
            }
            proof {
                let later = overwritten(now, receive_start as int, came);
                assert forall|i: int|
                    0 <= i < limit && D::values(&*old(output))[i]
                        == known[i] implies #[trigger] D::values(&*output)[i] == later[i] by {
                    assert(held[i] == now[i]);
                }
                assert forall|m: int| 0 <= m <= step + 1 implies #[trigger] rows_agree(
                    D::values(&*output),
                    later,
                    width,
                    ring@[(position - m) % (count as int)] as int,
                    first_column,
                    last_column,
                ) by {
                    let row = ring@[(position - m) % (count as int)] as int;
                    lemma_mod_bound(position - m, count as int);
                    lemma_row_fits(row, width, count as int);
                    assert forall|c: int| first_column <= c < last_column implies #[trigger] D::values(
                        &*output,
                    )[row * width + c] == later[row * width + c] by {
                        if m <= step {
                            assert(rows_agree(held, now, width, row, first_column, last_column));
                            assert(held[row * width + c] == now[row * width + c]);
                        } else {
                            assert(row == receive_row);
                        }
                    }
                }
                now = later;
            }
            transferred_bytes = total.unwrap();
            step = step + 1;
        }
        proof {
            assert forall|row: int| 0 <= row < model.world() implies #[trigger] rows_agree(
                D::values(&*output),
                now,
                width,
                row,
                0,
                last_column,
            ) by {
                lemma_row_fits(row, width, count as int);
                lemma_ring_holds_all(model.place.world_size, ring@, row as u32);
                let place = ring@.index_of(row as u32);
                let m = (position - place) % (count as int);
                lemma_mod_bound(position - place, count as int);
                lemma_back_again(position as int, place, count as int);
                assert(rows_agree(
                    D::values(&*output),
                    now,
                    width,
                    ring@[(position - m) % (count as int)] as int,
                    first_column,
                    last_column,
                ));
                assert forall|c: int| 0 <= c < last_column implies #[trigger] D::values(
                    &*output,
                )[row * width + c] == now[row * width + c] by {
                    if c < first_column {
                        assert(rows_agree(
                            D::values(&*old(output)),
                            known,
                            width,
                            row,
                            0,
                            first_column,
                        ));
                        assert(D::values(&*old(output))[row * width + c] == known[row * width + c]);
                    }
                }
            }
            let own = model.place.rank as int;
            lemma_row_fits(own, width, count as int);
            assert forall|c: int| 0 <= c < width implies #[trigger] D::values(
                &*output,
            )[own * width + c] == now[own * width + c] by {
                assert(D::values(&*old(output))[own * width + c] == known[own * width + c]);
            }
        }
        Ok((transferred_bytes, Ghost(now)))
    }
}

impl<'a, T, D: RankDevice<T>, S: RankTransport> DeviceCollective<'a, T, D, S> where
    D::Error: From<RankError> + From<NetworkError> + From<TopologyError>,
 {
    /// The channels of a ring all-gather; a failure in one is told to the other
    /// ranks.
    fn all_gather_ring_channels(
        &mut self,
        output: &mut D::Buffer,
        input_length: usize,
        operation: u64,
        channels: usize,
        Ghost(known): Ghost<Seq<T>>,
    ) -> (result: Result<Vec<(usize, u32)>, D::Error>)
        requires
            old(self).model().valid(),
            channels > 0,
            D::values(&*old(output)).len() == input_length * old(self).model().world(),
            known.len() == input_length * old(self).model().world(),
            rows_agree(
                D::values(&*old(output)),
                known,
                input_length as int,
                old(self).model().place.rank as int,
                0,
                input_length as int,
            ),
        ensures
            *final(final(self).link) == *final(old(self).link),
            final(self).model() == old(self).model(),
            final(self).next() == old(self).next(),
            asked(
                old(self).standing().faults,
                final(self).standing().faults,
                |call: DeviceCall| call.handles_part(D::values(&*old(output)).len() as int),
            ),
            performed::<T, D, (Seq<T>, Seq<(int, int)>)>(
                channels_script(
                    all_gather_channels::<T, D>(
                        old(self).model(),
                        input_length as int,
                        channels as int,
                        operation,
                    ),
                    0,
                    channels as int,
                    known,
                    Seq::empty(),
                ),
                "ring all-gather"@,
                (Scope::Ring { agreed: true }),
                old(self).standing(),
                final(self).standing(),
                gathered_all(result, D::values(&*final(output))),
            ),
    {
        let ghost before = self.standing();
        let ghost model = self.model();
        let ghost width = input_length as int;
        let ghost each = all_gather_channels::<T, D>(model, width, channels as int, operation);
        let ghost script = channels_script(each, 0, channels as int, known, Seq::empty());
        let ranges = balanced_ranges(input_length, channels);
        let mut totals: Vec<(usize, u32)> = Vec::new();
        assert(counted(totals@) =~= Seq::empty());
        proof {
            lemma_start(script, before.log);
            law_balanced_partition(width, channels as int, 0);
        }
        let ghost mut now = known;
        let mut channel: usize = 0;
        while channel < channels
            invariant
                channel <= channels,
                channels > 0,
                width == input_length,
                are_balanced_ranges(ranges@, width, channels as int),
                D::values(&*output).len() == width * model.world(),
                D::values(&*output).len() == D::values(&*old(output)).len(),
                now.len() == width * model.world(),
                model == old(self).model(),
                model.valid(),
                each == all_gather_channels::<T, D>(model, width, channels as int, operation),
                before == old(self).standing(),
                script == channels_script(each, 0, channels as int, known, Seq::empty()),
                rows_agree(
                    D::values(&*output),
                    now,
                    width,
                    model.place.rank as int,
                    0,
                    width,
                ),
                forall|row: int|
                    0 <= row < model.world() ==> #[trigger] rows_agree(
                        D::values(&*output),
                        now,
                        width,
                        row,
                        0,
                        balanced_start(width, channels as int, channel as int),
                    ),
                *final(self.link) == *final(old(self).link),
                self.model() == model,
                self.next() == old(self).next(),
                self.standing().faults == before.faults,
                followed(script, before.log, self.standing().log),
                reached(script, before.log, self.standing().log) == channels_script(
                    each,
                    channel as int,
                    channels as int,
                    now,
                    counted(totals@),
                ),
            decreases channels - channel,
        {
            proof {
                law_balanced_partition(width, channels as int, channel as int);
            }
            let ghost mid = self.standing();
            let ghost first = each(channel as int, now);
            let ghost next = channels_next(
                each,
                channel as int,
                channels as int,
                counted(totals@),
            );
            let range = Range { start: ranges[channel].start, end: ranges[channel].end };
            let outcome = self.all_gather_ring_channel(
                output,
                input_length,
                range,
                operation,
                channel,
                Ghost(now),
            );
            proof {
                lemma_part(
                    script,
                    before,
                    mid,
                    self.standing(),
                    first,
                    true,
                    next,
                    gathered(outcome),
                );
            }
            let outcome = self.propagate_channel_failure("ring all-gather", outcome);
            match outcome {
                Ok((bytes, values)) => {
                    let ghost was = counted(totals@);
                    totals.push((bytes, 0));
                    assert(counted(totals@) =~= was.push((bytes as int, 0int)));
                    proof {
                        now = values@;
                    }
                },
                Err(error) => {
                    return Err(error);
                },
            }
            channel = channel + 1;
        }
        proof {
            law_balanced_partition(width, channels as int, 0);
            lemma_rows_make_all(D::values(&*output), now, width, model.world());
        }
        Ok(totals)
    }

    pub fn all_gather_ring(&mut self, input: &D::Buffer, ring_channels: usize) -> (result: Result<
        (D::Buffer, CollectiveStats),
        D::Error,
    >)
        requires
            old(self).model().valid(),
            ring_channels > 0,
        ensures
            *final(final(self).link) == *final(old(self).link),
            final(self).model() == old(self).model(),
            final(self).next() == (if final(self).standing().log == old(self).standing().log {
                old(self).next()
            } else {
                old(self).next().wrapping_add(1)
            }),
            asked(
                old(self).standing().faults,
                final(self).standing().faults,
                |call: DeviceCall| call.handles_part(D::values(input).len() * old(self).model().world()),
            ),
            performed::<T, D, (Seq<T>, CollectiveStats)>(
                all_gather_ring_script::<T, D>(
                    old(self).model(),
                    D::values(input),
                    old(self).next(),
                    ring_channels as int,
                ),
                "ring all-gather"@,
                (Scope::Ring { agreed: false }),
                old(self).standing(),
                final(self).standing(),
                new_buffer::<T, D>(result),
            ),
    {
        let ghost before = self.standing();
        let ghost model = self.model();
        let world_size: u32 = self.world_size();
        let length: usize = self.link.execution.buffer_len(input);
        let ghost script = all_gather_ring_script::<T, D>(
            model,
            D::values(input),
            self.next(),
            ring_channels as int,
        );
        proof {
            lemma_start(script, before.log);
        }
        let output_length: usize = match length.checked_mul(world_size as usize) {
            Some(output_length) => output_length,
            None => {
                return Err(from_rank(RankError::Overflow("ring all-gather output length")));
            },
        };
        let rank: usize = self.rank() as usize;
        proof {
            lemma_row_fits(rank as int, length as int, model.world());
            lemma_row_fits(0, length as int, model.world());
            lemma_bytes_fit(
                output_length as int,
                rank * length,
                length as int,
                D::ELEMENT_SIZE as int,
            );
        }
        let mut output = match self.link.execution.allocate(output_length) {
            Ok(output) => output,
            Err(error) => {
                return Err(error);
            },
        };
        let local = match self.link.execution.copy_bytes_from_device_at(input, 0, length) {
            Ok(local) => local,
            Err(error) => {
                return Err(error);
            },
        };
        match self.link.execution.copy_bytes_to_device_at(
            &mut output,
            rank * length,
            local.as_slice(),
        ) {
            Ok(()) => {},
            Err(error) => {
                return Err(error);
            },
        }
        let ghost known = own_row_known(model, D::values(input));
        proof {
            assert(D::values(input).subrange(0, length as int) =~= D::values(input));
            assert(rows_agree(
                D::values(&output),
                known,
                length as int,
                rank as int,
                0,
                length as int,
            ));
        }
        let operation: u64 = self.link.internal_sequence;
        self.link.internal_sequence = operation.wrapping_add(1);
        let channels: usize = self.effective_ring_channels(ring_channels, length);
        let outcome = self.ring_agreement(operation, length, 0x200, channels);
        let ghost mid = self.standing();
        proof {
            lemma_part(
                script,
                before,
                before,
                mid,
                model.ring_agreement(operation, length as int, 0x200, channels as int),
                false,
                all_gather_agreed::<T, D>(model, D::values(input), channels as int, operation),
                outcome,
            );
        }
        match outcome {
            Ok(()) => {},
            Err(error) => {
                return Err(error);
            },
        }
        let ghost run = channels_script(
            all_gather_channels::<T, D>(model, length as int, channels as int, operation),
            0,
            channels as int,
            known,
            Seq::empty(),
        );
        let outcome = self.all_gather_ring_channels(
            &mut output,
            length,
            operation,
            channels,
            Ghost(known),
        );
        proof {
            lemma_performed_part::<T, D, (Seq<T>, Seq<(int, int)>), (Seq<T>, CollectiveStats)>(
                script,
                "ring all-gather"@,
                (Scope::Ring { agreed: true }),
                (Scope::Ring { agreed: false }),
                before,
                mid,
                self.standing(),
                run,
                all_gather_finished::<T, D>(model),
                gathered_all(outcome, D::values(&output)),
            );
        }
        let totals = match outcome {
            Ok(totals) => totals,
            Err(error) => {
                return Err(error);
            },
        };
        let (bytes, _) = match total_counts::<D::Error>(
            &totals,
            "ring all-gather transferred bytes",
            "",
        ) {
            Ok(counts) => counts,
            Err(error) => {
                return Err(from_rank(error));
            },
        };
        let stats = self.stats(CollectiveAlgorithm::Ring, world_size - 1, bytes, 0);
        Ok((output, stats))
    }
}

/// Going back the way from one place to another leads to the other.
pub(crate) proof fn lemma_back_again(position: int, place: int, count: int)
    requires
        0 <= position < count,
        0 <= place < count,
    ensures
        (position - (position - place) % count) % count == place,
{
    if position >= place {
        lemma_small_mod((position - place) as nat, count as nat);
    } else {
        lemma_mod_add_multiples_vanish(position - place, count);
        lemma_small_mod((position - place + count) as nat, count as nat);
        lemma_mod_add_multiples_vanish(place - count, count);
    }
    lemma_small_mod(place as nat, count as nat);
}

} // verus!

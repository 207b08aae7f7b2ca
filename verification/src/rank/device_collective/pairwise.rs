//! Pairwise exchanges: in each step a rank sends to one rank and receives from
//! another, as far ahead on the ring as the other is behind.

use crate::math::{
    lemma_sum_prefix, lemma_sum_step, saturate_usize, saturating_add_usize, saturating_mul_usize,
    sum_usize,
};
use crate::rank::device::{lemma_bytes_fit, 
    asked, lemma_reading_length, overwritten, reads_evenly, refused, DeviceCall, RankDevice,
};
use crate::rank::device_collective::all_gather::lemma_back_again;
use crate::rank::device_collective::ring::{back, chunk_length, chunk_script, received_bytes};
use crate::rank::device_collective::{
    carries, from_rank, lemma_part, lemma_performed_part, performed, CollectiveModel,
    DeviceCollective, Scope,
};
use crate::rank::error::RankError;
use crate::rank::layout::{
    are_balanced_ranges, balanced_ranges, balanced_start, laid_out, law_balanced_partition,
    lemma_balanced_monotone,
};
use crate::rank::network::NetworkError;
use crate::rank::script::{fails, followed, lemma_start, reached, too_large, tried, yields, Script};
use crate::rank::tags::{ring_data_tag, ring_tag};
use crate::rank::topology::rings::lemma_ring_holds_all;
use crate::rank::topology::TopologyError;
use crate::rank::transport::RankTransport;
use std::ops::Range;
use vstd::arithmetic::div_mod::*;
use vstd::prelude::*;

verus! {

/// Where a rank's elements start among the elements of all.
pub open spec fn offset_of(counts: Seq<usize>, rank: int) -> int {
    sum_usize(counts.take(rank))
}

/// How many elements go to each rank and come from each, over how many channels
/// and under which tags.
pub struct Pairwise {
    pub send_counts: Seq<usize>,
    pub receive_counts: Seq<usize>,
    pub channels: int,
    pub operation: u64,
    pub phase: u64,
    pub bytes_label: Seq<char>,
}

/// The rank that a rank sends to in a step.
pub open spec fn step_destination(ring: Seq<u32>, position: int, step: int) -> u32 {
    ring[(position + step) % (ring.len() as int)]
}

/// The rank that a rank receives from in a step.
pub open spec fn step_source(ring: Seq<u32>, position: int, step: int) -> u32 {
    ring[(position - step) % (ring.len() as int)]
}

impl Pairwise {
    /// What goes to a rank over a channel.
    pub open spec fn part<T>(self, input: Seq<T>, destination: u32, channel: int) -> Seq<T> {
        let start = offset_of(self.send_counts, destination as int);
        let length = self.send_counts[destination as int] as int;
        input.subrange(
            start + balanced_start(length, self.channels, channel),
            start + balanced_start(length, self.channels, channel + 1),
        )
    }

    /// The bytes that a step moves over its first channels.
    pub open spec fn moved(
        self,
        destination: u32,
        source: u32,
        element_size: int,
        channels: int,
    ) -> int
        decreases channels,
    {
        if channels <= 0 {
            0
        } else {
            self.moved(destination, source, element_size, channels - 1) + saturate_usize(
                saturate_usize(
                    chunk_length(
                        self.send_counts[destination as int] as int,
                        self.channels,
                        channels - 1,
                    ) * element_size,
                ) + chunk_length(
                    self.receive_counts[source as int] as int,
                    self.channels,
                    channels - 1,
                ) * element_size,
            )
        }
    }
}

/// The elements of the parts, one after another.
pub open spec fn joined<T, D: RankDevice<T>>(parts: Seq<Seq<u8>>) -> Seq<T>
    decreases parts.len(),
{
    if parts.len() == 0 {
        Seq::empty()
    } else {
        joined::<T, D>(parts.drop_last()) + D::reading(parts.last())
    }
}

/// The rows before anything is received: only the rank's own is known.
pub open spec fn own_row_only<T>(rank: u32, ranks: int, own: Seq<T>) -> Seq<Seq<T>> {
    Seq::new(
        ranks as nat,
        |row: int|
            if row == rank {
                own
            } else {
                Seq::empty()
            },
    )
}

/// The script of one step's channels from `channel` on.
pub open spec fn step_script<T, D: RankDevice<T>>(
    model: CollectiveModel,
    plan: Pairwise,
    input: Seq<T>,
    destination: u32,
    source: u32,
    step: int,
    channel: int,
    parts: Seq<Seq<u8>>,
) -> Script<Seq<Seq<u8>>, D::Error>
    decreases plan.channels - channel, 1int,
{
    if channel >= plan.channels {
        yields(parts)
    } else {
        tried(
            chunk_script::<T, D>(
                model.element_type,
                model.rail(channel),
                plan.part(input, destination, channel),
                chunk_length(plan.receive_counts[source as int] as int, plan.channels, channel),
                destination,
                source,
                ring_tag(plan.operation, plan.phase, channel as u64, step as u64),
            ),
            true,
            step_next::<T, D>(model, plan, input, destination, source, step, channel, parts),
        )
    }
}

pub open spec fn step_next<T, D: RankDevice<T>>(
    model: CollectiveModel,
    plan: Pairwise,
    input: Seq<T>,
    destination: u32,
    source: u32,
    step: int,
    channel: int,
    parts: Seq<Seq<u8>>,
) -> spec_fn(Seq<u8>) -> Script<Seq<Seq<u8>>, D::Error>
    decreases plan.channels - channel, 0int,
{
    |received: Seq<u8>|
        if channel >= plan.channels {
            yields(parts)
        } else {
            step_script::<T, D>(
                model,
                plan,
                input,
                destination,
                source,
                step,
                channel + 1,
                parts.push(received),
            )
        }
}

/// The script of the steps from `step` on: each brings the row of one rank.
pub open spec fn pairwise_script<T, D: RankDevice<T>>(
    model: CollectiveModel,
    plan: Pairwise,
    input: Seq<T>,
    position: int,
    step: int,
    rows: Seq<Seq<T>>,
    bytes: int,
) -> Script<(Seq<T>, int), D::Error>
    decreases model.world() - step, 1int,
{
    let ring = model.tuning.ring_order;
    if step >= model.world() {
        yields((laid_out(rows), bytes))
    } else {
        tried(
            step_script::<T, D>(
                model,
                plan,
                input,
                step_destination(ring, position, step),
                step_source(ring, position, step),
                step,
                0,
                Seq::empty(),
            ),
            false,
            pairwise_next::<T, D>(model, plan, input, position, step, rows, bytes),
        )
    }
}

pub open spec fn pairwise_next<T, D: RankDevice<T>>(
    model: CollectiveModel,
    plan: Pairwise,
    input: Seq<T>,
    position: int,
    step: int,
    rows: Seq<Seq<T>>,
    bytes: int,
) -> spec_fn(Seq<Seq<u8>>) -> Script<(Seq<T>, int), D::Error>
    decreases model.world() - step, 0int,
{
    |parts: Seq<Seq<u8>>|
        {
            let ring = model.tuning.ring_order;
            let source = step_source(ring, position, step);
            let total = bytes + plan.moved(
                step_destination(ring, position, step),
                source,
                D::ELEMENT_SIZE as int,
                plan.channels,
            );
            if step >= model.world() {
                yields((laid_out(rows), bytes))
            } else if total > usize::MAX {
                fails(too_large(plan.bytes_label))
            } else {
                pairwise_script::<T, D>(
                    model,
                    plan,
                    input,
                    position,
                    step + 1,
                    rows.update(source as int, joined::<T, D>(parts)),
                    total,
                )
            }
        }
}

/// What an output holds; there is none where nothing is received.
pub open spec fn held<T, D: RankDevice<T>>(output: Option<D::Buffer>) -> Seq<T> {
    match output {
        Some(buffer) => D::values(&buffer),
        None => Seq::empty(),
    }
}

pub open spec fn part_list<E>(result: Result<Vec<Vec<u8>>, E>) -> Result<Seq<Seq<u8>>, E> {
    match result {
        Ok(parts) => Ok(part_seqs(parts@)),
        Err(error) => Err(error),
    }
}

pub open spec fn part_seqs(parts: Seq<Vec<u8>>) -> Seq<Seq<u8>> {
    Seq::new(parts.len(), |i: int| parts[i]@)
}

/// What an exchange left in the output, and the bytes moved.
pub open spec fn laid_result<T, D: RankDevice<T>>(
    result: Result<usize, D::Error>,
    output: Option<D::Buffer>,
) -> Result<(Seq<T>, int), D::Error> {
    match result {
        Ok(bytes) => Ok((held::<T, D>(output), bytes as int)),
        Err(error) => Err(error),
    }
}

/// An output holds a row where it belongs.
pub open spec fn row_in_place<T>(
    values: Seq<T>,
    counts: Seq<usize>,
    rows: Seq<Seq<T>>,
    row: int,
) -> bool {
    &&& rows[row].len() == counts[row]
    &&& values.subrange(offset_of(counts, row), offset_of(counts, row) + counts[row]) == rows[row]
}

/// A row lies within the output, and apart from every other.
pub(crate) proof fn lemma_rows_apart(counts: Seq<usize>, row: int, other: int)
    requires
        0 <= row < counts.len(),
        0 <= other < counts.len(),
    ensures
        0 <= offset_of(counts, row),
        offset_of(counts, row) + counts[row] <= sum_usize(counts),
        row < other ==> offset_of(counts, row) + counts[row] <= offset_of(counts, other),
        other < row ==> offset_of(counts, other) + counts[other] <= offset_of(counts, row),
{
    lemma_sum_step(counts, row);
    lemma_sum_step(counts, other);
    lemma_sum_prefix(counts, row);
    lemma_sum_prefix(counts, row + 1);
    if row < other {
        lemma_sum_prefix(counts.take(other), row + 1);
        assert(counts.take(other).take(row + 1) =~= counts.take(row + 1));
    }
    if other < row {
        lemma_sum_prefix(counts.take(row), other + 1);
        assert(counts.take(row).take(other + 1) =~= counts.take(other + 1));
    }
}

/// Rows in their places make up the output.
proof fn lemma_rows_make_output<T>(
    values: Seq<T>,
    counts: Seq<usize>,
    rows: Seq<Seq<T>>,
    ranks: int,
)
    requires
        rows.len() == counts.len(),
        0 <= ranks <= counts.len(),
        values.len() == sum_usize(counts),
        forall|row: int|
            0 <= row < ranks ==> #[trigger] row_in_place(values, counts, rows, row),
    ensures
        values.take(offset_of(counts, ranks)) == laid_out(rows.take(ranks)),
    decreases ranks,
{
    lemma_sum_prefix(counts, ranks);
    if ranks == 0 {
        assert(counts.take(0) =~= Seq::empty());
        assert(rows.take(0) =~= Seq::empty());
        assert(values.take(0) =~= Seq::empty());
    } else {
        lemma_rows_make_output(values, counts, rows, ranks - 1);
        lemma_sum_step(counts, ranks - 1);
        lemma_sum_prefix(counts, ranks - 1);
        assert(row_in_place(values, counts, rows, ranks - 1));
        assert(rows.take(ranks).drop_last() =~= rows.take(ranks - 1));
        let before = offset_of(counts, ranks - 1);
        assert(values.take(offset_of(counts, ranks)) =~= values.take(before) + values.subrange(
            before,
            before + counts[ranks - 1],
        ));
    }
}

proof fn lemma_joined_length<T, D: RankDevice<T>>(parts: Seq<Seq<u8>>, length: int, channels: int)
    requires
        reads_evenly::<T, D>(),
        0 <= length,
        0 < channels,
        parts.len() <= channels,
        forall|c: int|
            0 <= c < parts.len() ==> (#[trigger] parts[c]).len() == chunk_length(
                length,
                channels,
                c,
            ) * D::ELEMENT_SIZE,
    ensures
        joined::<T, D>(parts).len() == balanced_start(length, channels, parts.len() as int),
    decreases parts.len(),
{
    if parts.len() == 0 {
        law_balanced_partition(length, channels, 0);
    } else {
        let last = parts.len() - 1;
        lemma_joined_length::<T, D>(parts.drop_last(), length, channels);
        lemma_balanced_monotone(length, channels, last, last + 1);
        lemma_reading_length::<T, D>(parts.last(), chunk_length(length, channels, last) as nat);
    }
}

/// Where a pairwise exchange works on the device. The rank's own row is not sent.
pub open spec fn own_row_apart(counts: Seq<usize>, rank: u32, agreed: bool) -> Scope {
    Scope::Pairwise {
        agreed,
        start: offset_of(counts, rank as int),
        length: counts[rank as int] as int,
    }
}

impl<'a, T, D: RankDevice<T>, S: RankTransport> DeviceCollective<'a, T, D, S> where
    D::Error: From<RankError> + From<NetworkError> + From<TopologyError>,
 {
    /// One step's exchanges; a failure in a channel is told to the other ranks.
    fn pairwise_step(
        &mut self,
        input: &D::Buffer,
        send_start: usize,
        send_length: usize,
        receive_length: usize,
        destination: u32,
        source: u32,
        channels: usize,
        operation: u64,
        phase: u64,
        step: usize,
        label: &str,
        Ghost(plan): Ghost<Pairwise>,
    ) -> (result: Result<Vec<Vec<u8>>, D::Error>)
        requires
            old(self).model().valid(),
            channels > 0,
            plan.channels == channels,
            plan.operation == operation,
            plan.phase == phase,
            send_start == offset_of(plan.send_counts, destination as int),
            send_length == plan.send_counts[destination as int],
            receive_length == plan.receive_counts[source as int],
            send_start + send_length <= D::values(input).len() <= usize::MAX,
            plan.send_counts.len() == old(self).model().world(),
            destination < old(self).model().world(),
            destination != old(self).model().place.rank,
        ensures
            *final(final(self).link) == *final(old(self).link),
            final(self).model() == old(self).model(),
            final(self).next() == old(self).next(),
            asked(
                old(self).standing().faults,
                final(self).standing().faults,
                |call: DeviceCall| call.handles_part(D::values(input).len() as int),
            ),
            performed::<T, D, Seq<Seq<u8>>>(
                step_script::<T, D>(
                    old(self).model(),
                    plan,
                    D::values(input),
                    destination,
                    source,
                    step as int,
                    0,
                    Seq::empty(),
                ),
                label@,
                own_row_apart(plan.send_counts, old(self).model().place.rank, true),
                old(self).standing(),
                final(self).standing(),
                part_list(result),
            ),
            result is Ok ==> {
                &&& reads_evenly::<T, D>()
                &&& result->Ok_0@.len() == channels
                &&& forall|c: int|
                    0 <= c < channels ==> (#[trigger] result->Ok_0@[c])@.len() == chunk_length(
                        receive_length as int,
                        channels as int,
                        c,
                    ) * D::ELEMENT_SIZE
            },
    {
        let ghost before = self.standing();
        let ghost model = self.model();
        let ghost values = D::values(input);
        let ghost script = step_script::<T, D>(
            model,
            plan,
            values,
            destination,
            source,
            step as int,
            0,
            Seq::empty(),
        );
        proof {
            lemma_start(script, before.log);
        }
        let send_ranges = balanced_ranges(send_length, channels);
        let receive_ranges = balanced_ranges(receive_length, channels);
        let mut parts: Vec<Vec<u8>> = Vec::new();
        let mut channel: usize = 0;
        assert(part_seqs(parts@) =~= Seq::empty());
        while channel < channels
            invariant
                channel <= channels,
                channels > 0,
                model.valid(),
                plan.channels == channels,
                plan.operation == operation,
                plan.phase == phase,
                send_start == offset_of(plan.send_counts, destination as int),
                send_length == plan.send_counts[destination as int],
                receive_length == plan.receive_counts[source as int],
                send_start + send_length <= values.len() <= usize::MAX,
                plan.send_counts.len() == model.world(),
                destination < model.world(),
                destination != model.place.rank,
                are_balanced_ranges(send_ranges@, send_length as int, channels as int),
                are_balanced_ranges(receive_ranges@, receive_length as int, channels as int),
                values == D::values(input),
                before == old(self).standing(),
                model == old(self).model(),
                script == step_script::<T, D>(
                    model,
                    plan,
                    values,
                    destination,
                    source,
                    step as int,
                    0,
                    Seq::empty(),
                ),
                self.model() == model,
                self.next() == old(self).next(),
                *final(self.link) == *final(old(self).link),
                self.standing().faults == before.faults,
                followed(script, before.log, self.standing().log),
                reached(script, before.log, self.standing().log) == step_script::<T, D>(
                    model,
                    plan,
                    values,
                    destination,
                    source,
                    step as int,
                    channel as int,
                    part_seqs(parts@),
                ),
                channel > 0 ==> reads_evenly::<T, D>(),
                parts@.len() == channel,
                forall|c: int|
                    0 <= c < channel ==> (#[trigger] parts@[c])@.len() == chunk_length(
                        receive_length as int,
                        channels as int,
                        c,
                    ) * D::ELEMENT_SIZE,
            decreases channels - channel,
        {
            proof {
                law_balanced_partition(send_length as int, channels as int, channel as int);
                law_balanced_partition(receive_length as int, channels as int, channel as int);
                lemma_rows_apart(
                    plan.send_counts,
                    destination as int,
                    model.place.rank as int,
                );
                lemma_balanced_monotone(
                    send_length as int,
                    channels as int,
                    channel + 1,
                    channels as int,
                );
            }
            let send_from: usize = send_start + send_ranges[channel].start;
            let send_to: usize = send_start + send_ranges[channel].end;
            let length: usize = receive_ranges[channel].end - receive_ranges[channel].start;
            let ghost mid = self.standing();
            let tag: u64 = ring_data_tag(operation, phase, channel, step);
            let outcome = self.exchange_ring_chunk_bytes(
                input,
                Range { start: send_from, end: send_to },
                length,
                destination,
                source,
                channel,
                tag,
            );
            proof {
                lemma_part(
                    script,
                    before,
                    mid,
                    self.standing(),
                    chunk_script::<T, D>(
                        model.element_type,
                        model.rail(channel as int),
                        plan.part(values, destination, channel as int),
                        length as int,
                        destination,
                        source,
                        tag,
                    ),
                    true,
                    step_next::<T, D>(
                        model,
                        plan,
                        values,
                        destination,
                        source,
                        step as int,
                        channel as int,
                        part_seqs(parts@),
                    ),
                    received_bytes(outcome),
                );
            }
            let outcome = self.propagate_channel_failure(label, outcome);
            match outcome {
                Ok(received) => {
                    let ghost was = part_seqs(parts@);
                    let ghost bytes = received@;
                    parts.push(received);
                    assert(part_seqs(parts@) =~= was.push(bytes));
                },
                Err(error) => {
                    return Err(error);
                },
            }
            channel = channel + 1;
        }
        Ok(parts)
    }

    /// Writes a step's parts to the output and counts the bytes that it moved.
    fn pairwise_store(
        &mut self,
        output: &mut Option<D::Buffer>,
        offset: usize,
        send_length: usize,
        receive_length: usize,
        channels: usize,
        parts: &Vec<Vec<u8>>,
        transferred_bytes: usize,
        bytes_label: &'static str,
        Ghost(plan): Ghost<Pairwise>,
        Ghost(destination): Ghost<u32>,
        Ghost(source): Ghost<u32>,
    ) -> (result: Result<usize, D::Error>)
        requires
            reads_evenly::<T, D>(),
            channels > 0,
            plan.channels == channels,
            send_length == plan.send_counts[destination as int],
            receive_length == plan.receive_counts[source as int],
            offset + receive_length <= held::<T, D>(*old(output)).len() <= usize::MAX,
            parts@.len() == channels,
            forall|c: int|
                0 <= c < channels ==> (#[trigger] parts@[c])@.len() == chunk_length(
                    receive_length as int,
                    channels as int,
                    c,
                ) * D::ELEMENT_SIZE,
        ensures
            *final(final(self).link) == *final(old(self).link),
            final(self).model() == old(self).model(),
            final(self).next() == old(self).next(),
            final(self).standing().log == old(self).standing().log,
            held::<T, D>(*final(output)).len() == held::<T, D>(*old(output)).len(),
            *final(output) is Some <==> *old(output) is Some,
            ({
                let total = transferred_bytes + plan.moved(
                    destination,
                    source,
                    D::ELEMENT_SIZE as int,
                    channels as int,
                );
                let was = old(self).standing().faults;
                let now = final(self).standing().faults;
                match result {
                    Ok(bytes) => {
                        &&& now == was
                        &&& bytes == total
                        &&& held::<T, D>(*final(output)) == overwritten(
                            held::<T, D>(*old(output)),
                            offset as int,
                            joined::<T, D>(part_seqs(parts@)),
                        )
                        &&& joined::<T, D>(part_seqs(parts@)).len() == receive_length
                    },
                    Err(error) => {
                        ||| {
                            &&& refused(was, now, error)
                            &&& now.last().call is StoreBytes
                            &&& now.last().call.handles_part(
                                held::<T, D>(*old(output)).len() as int,
                            )
                        }
                        ||| {
                            &&& now == was
                            &&& total > usize::MAX
                            &&& carries(error, too_large(bytes_label@))
                        }
                    },
                }
            }),
    {
        let ghost start = held::<T, D>(*output);
        let receive_ranges = balanced_ranges(receive_length, channels);
        let send_ranges = balanced_ranges(send_length, channels);
        let mut bytes: usize = transferred_bytes;
        let mut channel: usize = 0;
        assert(joined::<T, D>(part_seqs(parts@).take(0)) =~= Seq::empty());
        assert(overwritten(start, offset as int, Seq::<T>::empty()) =~= start);
        while channel < channels
            invariant
                channel <= channels,
                channels > 0,
                plan.channels == channels,
                send_length == plan.send_counts[destination as int],
                receive_length == plan.receive_counts[source as int],
                are_balanced_ranges(send_ranges@, send_length as int, channels as int),
                are_balanced_ranges(receive_ranges@, receive_length as int, channels as int),
                offset + receive_length <= start.len() <= usize::MAX,
                reads_evenly::<T, D>(),
                parts@.len() == channels,
                forall|c: int|
                    0 <= c < channels ==> (#[trigger] parts@[c])@.len() == chunk_length(
                        receive_length as int,
                        channels as int,
                        c,
                    ) * D::ELEMENT_SIZE,
                start == held::<T, D>(*old(output)),
                *output is Some <==> *old(output) is Some,
                held::<T, D>(*output).len() == start.len(),
                held::<T, D>(*output) == overwritten(
                    start,
                    offset as int,
                    joined::<T, D>(part_seqs(parts@).take(channel as int)),
                ),
                bytes == transferred_bytes + plan.moved(
                    destination,
                    source,
                    D::ELEMENT_SIZE as int,
                    channel as int,
                ),
                self.standing() == old(self).standing(),
                self.model() == old(self).model(),
                self.next() == old(self).next(),
                *final(self.link) == *final(old(self).link),
            decreases channels - channel,
        {
            let ghost done = part_seqs(parts@).take(channel as int);
            let ghost more = part_seqs(parts@).take(channel + 1);
            proof {
                law_balanced_partition(send_length as int, channels as int, channel as int);
                law_balanced_partition(receive_length as int, channels as int, channel as int);
                lemma_balanced_monotone(
                    receive_length as int,
                    channels as int,
                    channel + 1,
                    channels as int,
                );
                assert(more.drop_last() =~= done);
                assert(more.last() == parts@[channel as int]@);
                lemma_joined_length::<T, D>(done, receive_length as int, channels as int);
                lemma_joined_length::<T, D>(more, receive_length as int, channels as int);
            }
            let length: usize = receive_ranges[channel].end - receive_ranges[channel].start;
            proof {
                lemma_reading_length::<T, D>(parts@[channel as int]@, length as nat);
                lemma_bytes_fit(
                    start.len() as int,
                    offset + receive_ranges@[channel as int].start,
                    length as int,
                    D::ELEMENT_SIZE as int,
                );
            }
            let ghost held_before = held::<T, D>(*output);
            if length != 0 {
                match output {
                    Some(buffer) => {
                        match self.link.execution.copy_bytes_to_device_at(
                            buffer,
                            offset + receive_ranges[channel].start,
                            parts[channel].as_slice(),
                        ) {
                            Ok(()) => {},
                            Err(error) => {
                                return Err(error);
                            },
                        }
                    },
                    None => {},
                }
            }
            assert(held::<T, D>(*output) =~= overwritten(
                start,
                offset as int,
                joined::<T, D>(more),
            ));
            let sent: usize = send_ranges[channel].end - send_ranges[channel].start;
            let moved: usize = saturating_add_usize(
                saturating_mul_usize(sent, D::ELEMENT_SIZE),
                parts[channel].len(),
            );
            proof {
                lemma_moved_grows(
                    plan,
                    destination,
                    source,
                    D::ELEMENT_SIZE as int,
                    channel + 1,
                    channels as int,
                );
            }
            bytes = match bytes.checked_add(moved) {
                Some(total) => total,
                None => {
                    return Err(from_rank(RankError::Overflow(bytes_label)));
                },
            };
            channel = channel + 1;
        }
        proof {
            assert(part_seqs(parts@).take(channels as int) =~= part_seqs(parts@));
            lemma_joined_length::<T, D>(
                part_seqs(parts@),
                receive_length as int,
                channels as int,
            );
            law_balanced_partition(receive_length as int, channels as int, 0);
        }
        Ok(bytes)
    }

    /// The steps of a pairwise exchange. The output's own row is in place.
    pub(crate) fn pairwise_steps(
        &mut self,
        input: &D::Buffer,
        output: &mut Option<D::Buffer>,
        position: usize,
        send_counts: &[usize],
        send_offsets: &[usize],
        receive_counts: &[usize],
        receive_offsets: &[usize],
        channels: usize,
        operation: u64,
        phase: u64,
        transferred_bytes: usize,
        label: &str,
        bytes_label: &'static str,
        Ghost(rows): Ghost<Seq<Seq<T>>>,
    ) -> (result: Result<usize, D::Error>)
        requires
            old(self).model().valid(),
            channels > 0,
            position < old(self).model().world(),
            old(self).model().tuning.ring_order[position as int] == old(self).model().place.rank,
            send_counts@.len() == old(self).model().world(),
            receive_counts@.len() == old(self).model().world(),
            send_offsets@.len() == old(self).model().world(),
            receive_offsets@.len() == old(self).model().world(),
            sum_usize(send_counts@) == D::values(input).len() <= usize::MAX,
            sum_usize(receive_counts@) <= usize::MAX,
            forall|i: int|
                0 <= i < old(self).model().world() ==> #[trigger] send_offsets@[i] == offset_of(
                    send_counts@,
                    i,
                ),
            forall|i: int|
                0 <= i < old(self).model().world() ==> #[trigger] receive_offsets@[i] == offset_of(
                    receive_counts@,
                    i,
                ),
            held::<T, D>(*old(output)).len() == sum_usize(receive_counts@),
            rows.len() == old(self).model().world(),
            row_in_place(
                held::<T, D>(*old(output)),
                receive_counts@,
                rows,
                old(self).model().place.rank as int,
            ),
        ensures
            *final(final(self).link) == *final(old(self).link),
            final(self).model() == old(self).model(),
            final(self).next() == old(self).next(),
            *final(output) is Some <==> *old(output) is Some,
            asked(
                old(self).standing().faults,
                final(self).standing().faults,
                |call: DeviceCall|
                    call.handles_part(D::values(input).len() as int)
                    || call.handles_part(held::<T, D>(*old(output)).len() as int),
            ),
            performed::<T, D, (Seq<T>, int)>(
                pairwise_script::<T, D>(
                    old(self).model(),
                    (Pairwise {
                        send_counts: send_counts@,
                        receive_counts: receive_counts@,
                        channels: channels as int,
                        operation,
                        phase,
                        bytes_label: bytes_label@,
                    }),
                    D::values(input),
                    position as int,
                    1,
                    rows,
                    transferred_bytes as int,
                ),
                label@,
                own_row_apart(send_counts@, old(self).model().place.rank, true),
                old(self).standing(),
                final(self).standing(),
                laid_result::<T, D>(result, *final(output)),
            ),
    {
        let ghost before = self.standing();
        let ghost model = self.model();
        let ghost plan = Pairwise {
            send_counts: send_counts@,
            receive_counts: receive_counts@,
            channels: channels as int,
            operation,
            phase,
            bytes_label: bytes_label@,
        };
        let ghost values = D::values(input);
        let ghost script = pairwise_script::<T, D>(
            model,
            plan,
            values,
            position as int,
            1,
            rows,
            transferred_bytes as int,
        );
        let tuning = self.tuning;
        let world: usize = self.world_size() as usize;
        let ghost ring = model.tuning.ring_order;
        proof {
            lemma_start(script, before.log);
            lemma_small_mod(position as nat, world as nat);
        }
        let ghost mut known = rows;
        let mut bytes: usize = transferred_bytes;
        let mut step: usize = 1;
        while step < world
            invariant
                1 <= step <= world,
                channels > 0,
                position < world,
                world == model.world(),
                model.valid(),
                tuning@ == model.tuning,
                ring == model.tuning.ring_order,
                ring[position as int] == model.place.rank,
                send_counts@.len() == world,
                receive_counts@.len() == world,
                send_offsets@.len() == world,
                receive_offsets@.len() == world,
                sum_usize(send_counts@) == values.len() <= usize::MAX,
                held::<T, D>(*output).len() == held::<T, D>(*old(output)).len(),
                sum_usize(receive_counts@) <= usize::MAX,
                forall|i: int|
                    0 <= i < world ==> #[trigger] send_offsets@[i] == offset_of(send_counts@, i),
                forall|i: int|
                    0 <= i < world ==> #[trigger] receive_offsets@[i] == offset_of(
                        receive_counts@,
                        i,
                    ),
                plan == (Pairwise {
                    send_counts: send_counts@,
                    receive_counts: receive_counts@,
                    channels: channels as int,
                    operation,
                    phase,
                    bytes_label: bytes_label@,
                }),
                values == D::values(input),
                held::<T, D>(*output).len() == sum_usize(receive_counts@),
                *output is Some <==> *old(output) is Some,
                known.len() == world,
                forall|s: int|
                    0 <= s < step ==> row_in_place(
                        held::<T, D>(*output),
                        receive_counts@,
                        known,
                        (#[trigger] step_source(ring, position as int, s)) as int,
                    ),
                before == old(self).standing(),
                model == old(self).model(),
                script == pairwise_script::<T, D>(
                    model,
                    plan,
                    values,
                    position as int,
                    1,
                    rows,
                    transferred_bytes as int,
                ),
                self.model() == model,
                self.next() == old(self).next(),
                *final(self.link) == *final(old(self).link),
                self.standing().faults == before.faults,
                followed(script, before.log, self.standing().log),
                reached(script, before.log, self.standing().log) == pairwise_script::<T, D>(
                    model,
                    plan,
                    values,
                    position as int,
                    step as int,
                    known,
                    bytes as int,
                ),
            decreases world - step,
        {
            let to: usize = ahead(position, step, world);
            let from: usize = back(position, step, world);
            let destination: u32 = tuning.ring_order[to];
            let source: u32 = tuning.ring_order[from];
            assert(destination == step_destination(ring, position as int, step as int));
            assert(source == step_source(ring, position as int, step as int));
            let send_start: usize = send_offsets[destination as usize];
            let send_length: usize = send_counts[destination as usize];
            let receive_length: usize = receive_counts[source as usize];
            proof {
                assert(to != position) by {
                    if position + step < world {
                        lemma_small_mod((position + step) as nat, world as nat);
                    } else {
                        lemma_mod_add_multiples_vanish(position + step - world, world as int);
                        lemma_small_mod((position + step - world) as nat, world as nat);
                    }
                }
                assert(destination != model.place.rank);
                lemma_rows_apart(send_counts@, destination as int, destination as int);
                lemma_rows_apart(receive_counts@, source as int, source as int);
            }
            let ghost mid = self.standing();
            let outcome = self.pairwise_step(
                input,
                send_start,
                send_length,
                receive_length,
                destination,
                source,
                channels,
                operation,
                phase,
                step,
                label,
                Ghost(plan),
            );
            proof {
                lemma_performed_part::<T, D, Seq<Seq<u8>>, (Seq<T>, int)>(
                    script,
                    label@,
                    own_row_apart(send_counts@, model.place.rank, true),
                    own_row_apart(send_counts@, model.place.rank, true),
                    before,
                    mid,
                    self.standing(),
                    step_script::<T, D>(
                        model,
                        plan,
                        values,
                        destination,
                        source,
                        step as int,
                        0,
                        Seq::empty(),
                    ),
                    pairwise_next::<T, D>(
                        model,
                        plan,
                        values,
                        position as int,
                        step as int,
                        known,
                        bytes as int,
                    ),
                    part_list(outcome),
                );
            }
            let parts = match outcome {
                Ok(parts) => parts,
                Err(error) => {
                    return Err(error);
                },
            };
            let ghost held_before = held::<T, D>(*output);
            bytes = match self.pairwise_store(
                output,
                receive_offsets[source as usize],
                send_length,
                receive_length,
                channels,
                &parts,
                bytes,
                bytes_label,
                Ghost(plan),
                Ghost(destination),
                Ghost(source),
            ) {
                Ok(bytes) => bytes,
                Err(error) => {
                    return Err(error);
                },
            };
            proof {
                let row = joined::<T, D>(part_seqs(parts@));
                let now = known.update(source as int, row);
                let at = offset_of(receive_counts@, source as int);
                assert forall|s: int| 0 <= s < step + 1 implies row_in_place(
                    held::<T, D>(*output),
                    receive_counts@,
                    now,
                    (#[trigger] step_source(ring, position as int, s)) as int,
                ) by {
                    let other = step_source(ring, position as int, s);
                    lemma_mod_bound(position - s, world as int);
                    if s == step {
                        assert(held::<T, D>(*output).subrange(at, at + receive_length) =~= row);
                    } else {
                        lemma_places_differ(position as int, s, step as int, world as int);
                        assert(other != source);
                        lemma_rows_apart(receive_counts@, other as int, source as int);
                        assert(row_in_place(
                            held_before,
                            receive_counts@,
                            known,
                            other as int,
                        ));
                        let start = offset_of(receive_counts@, other as int);
                        assert(held::<T, D>(*output).subrange(
                            start,
                            start + receive_counts@[other as int],
                        ) =~= held_before.subrange(
                            start,
                            start + receive_counts@[other as int],
                        ));
                    }
                }
                known = now;
            }
            step = step + 1;
        }
        proof {
            assert forall|row: int| 0 <= row < world implies #[trigger] row_in_place(
                held::<T, D>(*output),
                receive_counts@,
                known,
                row,
            ) by {
                lemma_ring_holds_all(model.place.world_size, ring, row as u32);
                let place = ring.index_of(row as u32);
                let s = (position - place) % (world as int);
                lemma_mod_bound(position - place, world as int);
                lemma_back_again(position as int, place, world as int);
                assert(step_source(ring, position as int, s) == row);
            }
            lemma_rows_make_output(
                held::<T, D>(*output),
                receive_counts@,
                known,
                world as int,
            );
            assert(receive_counts@.take(world as int) =~= receive_counts@);
            assert(known.take(world as int) =~= known);
            let all = held::<T, D>(*output);
            assert(all.take(all.len() as int) =~= all);
        }
        Ok(bytes)
    }
}

/// The bytes of more channels are no fewer.
proof fn lemma_moved_grows(
    plan: Pairwise,
    destination: u32,
    source: u32,
    element_size: int,
    some: int,
    all: int,
)
    requires
        some <= all,
        0 <= element_size,
        plan.channels > 0,
        all <= plan.channels,
    ensures
        plan.moved(destination, source, element_size, some) <= plan.moved(
            destination,
            source,
            element_size,
            all,
        ),
    decreases all - some,
{
    if some < all && all > 0 {
        lemma_moved_grows(plan, destination, source, element_size, some, all - 1);
        let sent = plan.send_counts[destination as int] as int;
        let received = plan.receive_counts[source as int] as int;
        lemma_balanced_monotone(sent, plan.channels, all - 1, all);
        lemma_balanced_monotone(received, plan.channels, all - 1, all);
        assert(0 <= chunk_length(sent, plan.channels, all - 1) * element_size)
            by (nonlinear_arith)
            requires
                0 <= chunk_length(sent, plan.channels, all - 1),
                0 <= element_size,
        ;
        assert(0 <= chunk_length(received, plan.channels, all - 1) * element_size)
            by (nonlinear_arith)
            requires
                0 <= chunk_length(received, plan.channels, all - 1),
                0 <= element_size,
        ;
    }
}

/// Steps of different lengths lead to different places.
proof fn lemma_places_differ(position: int, fewer: int, more: int, count: int)
    requires
        0 <= position < count,
        0 <= fewer < more < count,
    ensures
        (position - fewer) % count != (position - more) % count,
{
    if position >= fewer {
        lemma_small_mod((position - fewer) as nat, count as nat);
    } else {
        lemma_mod_add_multiples_vanish(position - fewer, count);
        lemma_small_mod((position - fewer + count) as nat, count as nat);
    }
    if position >= more {
        lemma_small_mod((position - more) as nat, count as nat);
    } else {
        lemma_mod_add_multiples_vanish(position - more, count);
        lemma_small_mod((position - more + count) as nat, count as nat);
    }
}

/// The place `steps` after `position` on a ring of `count`.
pub(crate) fn ahead(position: usize, steps: usize, count: usize) -> (place: usize)
    requires
        position < count,
        steps <= count,
    ensures
        place == (position + steps) % (count as int),
        place < count,
{
    if steps < count - position {
        proof {
            lemma_small_mod((position + steps) as nat, count as nat);
        }
        position + steps
    } else {
        proof {
            lemma_mod_add_multiples_vanish(position + steps - count, count as int);
            lemma_small_mod((position + steps - count) as nat, count as nat);
        }
        steps - (count - position)
    }
}

} // verus!

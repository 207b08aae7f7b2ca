//! Exchanges in which every rank sends a part of its own to every other.

use crate::in_process::buffer::{held_values, DistributedBuffer, VariableDistributedBuffer};
use crate::in_process::collective::blocks::{
    block_is, lemma_all_blocks, lemma_block_fits, lemma_block_written, lemma_laid_out_block,
};
use crate::in_process::collective::exchange::{costed, others, spread};
use crate::in_process::collective::{
    asked_of, bytes_moved, foreign, kept, settled, transferred_bytes, InProcessCollective,
};
use crate::in_process::device::InProcessDevice;
use crate::in_process::error::InProcessError;
use crate::math::{
    checked_sum, is_multiple_of, lemma_sum_prefix, lemma_sum_step, multiple_of, saturate_usize,
    saturating_mul_usize, sum_usize,
};
use crate::rank::device::{overwritten, DeviceCall};
use crate::rank::layout::laid_out;
use crate::rank::{CollectiveAlgorithm, CollectiveStats};
use vstd::arithmetic::div_mod::*;
use vstd::prelude::*;
use vstd::slice::*;

verus! {

/// The shards that a rank gets, by source.
pub open spec fn shards_for<T>(rows: Seq<Seq<T>>, width: int, rank: int) -> Seq<Seq<T>> {
    Seq::new(
        rows.len(),
        |source: int| rows[source].subrange(rank * width, rank * width + width),
    )
}

/// Every rank holds the shards that the ranks had for it, in rank order.
pub open spec fn exchanged<T>(rows: Seq<Seq<T>>, width: int) -> Seq<Seq<T>> {
    Seq::new(rows.len(), |rank: int| laid_out(shards_for(rows, width, rank)))
}

pub open spec fn all_to_all_model<T, D: InProcessDevice<T>>(
    id: u64,
    world: int,
    input: &DistributedBuffer<T, D>,
) -> Result<(Seq<Seq<T>>, CollectiveStats), InProcessError> {
    let width = input.length_per_rank as int / world;
    match foreign(id, world, input.communicator_id, input.buffers@.len() as int) {
        Some(defect) => Err(defect),
        None => if !multiple_of(input.length_per_rank as int, world) {
            Err(
                InProcessError::InvalidLength(
                    "all-to-all rank length must be divisible by world size",
                ),
            )
        } else {
            costed(
                exchanged(input.rows(), width),
                CollectiveAlgorithm::Direct,
                others(world),
                bytes_moved(
                    saturate_usize(world * others(world)) as int,
                    width,
                    D::ELEMENT_SIZE as int,
                ),
                0,
            )
        },
    }
}

/// The counts as numbers.
pub open spec fn count_table(counts: Seq<Vec<usize>>) -> Seq<Seq<usize>> {
    Seq::new(counts.len(), |source: int| counts[source]@)
}

/// How many elements a rank gets, by source.
pub open spec fn counts_for(counts: Seq<Seq<usize>>, rank: int) -> Seq<usize> {
    Seq::new(counts.len(), |source: int| counts[source][rank])
}

/// The first row of the counts that does not fit a rank's elements.
pub open spec fn row_defect(counts: Seq<Seq<usize>>, length: int, rows: int) -> Option<
    InProcessError,
>
    decreases rows,
{
    if rows <= 0 {
        None
    } else {
        match row_defect(counts, length, rows - 1) {
            Some(defect) => Some(defect),
            None => if sum_usize(counts[rows - 1]) > usize::MAX {
                Some(InProcessError::Overflow("all-to-all-v send count"))
            } else if sum_usize(counts[rows - 1]) != length {
                Some(
                    InProcessError::InvalidLength(
                        "each all-to-all-v send-count row must sum to the input rank length",
                    ),
                )
            } else {
                None
            },
        }
    }
}

/// Whether some rank of the first would get more elements than can be counted.
pub open spec fn too_many_for_some(counts: Seq<Seq<usize>>, ranks: int) -> bool {
    exists|rank: int|
        0 <= rank < ranks && sum_usize(#[trigger] counts_for(counts, rank)) > usize::MAX
}

/// The counts are one row per rank with one entry per rank.
pub open spec fn square(counts: Seq<Seq<usize>>, world: int) -> bool {
    &&& counts.len() == world
    &&& forall|source: int|
        0 <= source < counts.len() ==> (#[trigger] counts[source]).len() == world
}

/// The elements of the first destinations of a row, the row's own rank left out.
pub open spec fn remote_in_row(row: Seq<usize>, source: int, destinations: int) -> int
    decreases destinations,
{
    if destinations <= 0 {
        0
    } else {
        remote_in_row(row, source, destinations - 1) + if destinations - 1 == source {
            0
        } else {
            row[destinations - 1] as int
        }
    }
}

/// The elements of the first rows that go to another rank.
pub open spec fn remote(counts: Seq<Seq<usize>>, rows: int) -> int
    decreases rows,
{
    if rows <= 0 {
        0
    } else {
        remote(counts, rows - 1) + remote_in_row(
            counts[rows - 1],
            rows - 1,
            counts[rows - 1].len() as int,
        )
    }
}

/// The part of a rank's elements that is for another.
pub open spec fn segment<T>(row: Seq<T>, counts: Seq<usize>, rank: int) -> Seq<T> {
    let start = sum_usize(counts.take(rank));
    row.subrange(start, start + counts[rank])
}

/// The parts that a rank gets, by source.
pub open spec fn segments_for<T>(
    rows: Seq<Seq<T>>,
    counts: Seq<Seq<usize>>,
    rank: int,
) -> Seq<Seq<T>> {
    Seq::new(rows.len(), |source: int| segment(rows[source], counts[source], rank))
}

/// Every rank holds the parts that the ranks had for it, in rank order.
pub open spec fn all_to_all_v_model<T, D: InProcessDevice<T>>(
    id: u64,
    world: int,
    input: &DistributedBuffer<T, D>,
    counts: Seq<Seq<usize>>,
) -> Result<(Seq<Seq<T>>, CollectiveStats), InProcessError> {
    match foreign(id, world, input.communicator_id, input.buffers@.len() as int) {
        Some(defect) => Err(defect),
        None => if !square(counts, world) {
            Err(
                InProcessError::InvalidLength(
                    "all-to-all-v send_counts must be a world_size square matrix",
                ),
            )
        } else {
            match row_defect(counts, input.length_per_rank as int, world) {
                Some(defect) => Err(defect),
                None => if too_many_for_some(counts, world) {
                    Err(InProcessError::Overflow("all-to-all-v receive count"))
                } else if remote(counts, world) > usize::MAX {
                    Err(InProcessError::Overflow("all-to-all-v transferred elements"))
                } else {
                    costed(
                        Seq::new(
                            world as nat,
                            |rank: int| laid_out(segments_for(input.rows(), counts, rank)),
                        ),
                        CollectiveAlgorithm::Direct,
                        others(world),
                        bytes_moved(1, remote(counts, world), D::ELEMENT_SIZE as int),
                        0,
                    )
                },
            }
        },
    }
}

/// What a new variable buffer holds, and the cost.
pub open spec fn spread_variable<T, D: InProcessDevice<T>, E>(
    result: Result<(VariableDistributedBuffer<T, D>, CollectiveStats), E>,
) -> Result<(Seq<Seq<T>>, CollectiveStats), E> {
    match result {
        Ok((buffer, stats)) => Ok((buffer.rows(), stats)),
        Err(error) => Err(error),
    }
}

proof fn lemma_row_prefix(counts: Seq<Seq<usize>>, length: int, some: int, all: int)
    requires
        0 <= some <= all,
        row_defect(counts, length, some) is Some,
    ensures
        row_defect(counts, length, all) == row_defect(counts, length, some),
    decreases all - some,
{
    if some < all {
        lemma_row_prefix(counts, length, some, all - 1);
    }
}

proof fn lemma_rows_fit(counts: Seq<Seq<usize>>, length: int, rows: int, row: int)
    requires
        0 <= row < rows,
        row_defect(counts, length, rows) is None,
    ensures
        sum_usize(counts[row]) == length,
    decreases rows,
{
    if row < rows - 1 {
        lemma_rows_fit(counts, length, rows - 1, row);
    }
}

proof fn lemma_remote_grows_in_row(row: Seq<usize>, source: int, some: int, all: int)
    requires
        0 <= some <= all <= row.len(),
    ensures
        0 <= remote_in_row(row, source, some) <= remote_in_row(row, source, all),
    decreases all,
{
    if all > 0 {
        lemma_remote_grows_in_row(
            row,
            source,
            if some < all {
                some
            } else {
                all - 1
            },
            all - 1,
        );
    }
}

proof fn lemma_remote_grows(counts: Seq<Seq<usize>>, some: int, all: int)
    requires
        0 <= some <= all <= counts.len(),
    ensures
        0 <= remote(counts, some) <= remote(counts, all),
    decreases all,
{
    if all > 0 {
        lemma_remote_grows_in_row(
            counts[all - 1],
            all - 1,
            0,
            counts[all - 1].len() as int,
        );
        lemma_remote_grows(
            counts,
            if some < all {
                some
            } else {
                all - 1
            },
            all - 1,
        );
    }
}

/// Counts the elements that go to another rank.
fn remote_elements(counts: &[Vec<usize>]) -> (elements: Option<usize>)
    ensures
        elements == (if remote(count_table(counts@), counts@.len() as int) > usize::MAX {
            None
        } else {
            Some(remote(count_table(counts@), counts@.len() as int) as usize)
        }),
{
    let ghost table = count_table(counts@);
    let mut total: usize = 0;
    let mut source: usize = 0;
    while source < counts.len()
        invariant
            source <= counts@.len(),
            table == count_table(counts@),
            total == remote(table, source as int),
        decreases counts.len() - source,
    {
        let row = &counts[source];
        assert(table[source as int] == row@);
        let mut destination: usize = 0;
        while destination < row.len()
            invariant
                destination <= row@.len(),
                source < counts@.len(),
                table == count_table(counts@),
                table[source as int] == row@,
                total == remote(table, source as int) + remote_in_row(
                    row@,
                    source as int,
                    destination as int,
                ),
            decreases row.len() - destination,
        {
            if source != destination {
                proof {
                    lemma_remote_grows_in_row(
                        row@,
                        source as int,
                        destination + 1,
                        row@.len() as int,
                    );
                    lemma_remote_grows(table, source + 1, counts@.len() as int);
                }
                match total.checked_add(row[destination]) {
                    Some(sum) => {
                        total = sum;
                    },
                    None => {
                        return None;
                    },
                }
            }
            destination = destination + 1;
        }
        source = source + 1;
    }
    Some(total)
}

/// How many elements each rank gets, where they can be counted.
fn receive_lengths(counts: &[Vec<usize>], world: usize) -> (lengths: Option<Vec<usize>>)
    requires
        square(count_table(counts@), world as int),
    ensures
        match lengths {
            Some(lengths) => {
                &&& !too_many_for_some(count_table(counts@), world as int)
                &&& lengths@.len() == world
                &&& forall|rank: int|
                    0 <= rank < world ==> #[trigger] lengths@[rank] == sum_usize(
                        counts_for(count_table(counts@), rank),
                    )
            },
            None => too_many_for_some(count_table(counts@), world as int),
        },
{
    let ghost table = count_table(counts@);
    let mut lengths: Vec<usize> = Vec::new();
    let mut rank: usize = 0;
    while rank < world
        invariant
            rank <= world,
            table == count_table(counts@),
            square(table, world as int),
            !too_many_for_some(table, rank as int),
            lengths@.len() == rank,
            forall|r: int|
                0 <= r < rank ==> #[trigger] lengths@[r] == sum_usize(counts_for(table, r)),
        decreases world - rank,
    {
        let ghost column = counts_for(table, rank as int);
        let mut total: usize = 0;
        let mut source: usize = 0;
        assert(column.take(0) =~= Seq::empty());
        while source < counts.len()
            invariant
                source <= counts@.len(),
                rank < world,
                table == count_table(counts@),
                square(table, world as int),
                column == counts_for(table, rank as int),
                total == sum_usize(column.take(source as int)),
            decreases counts.len() - source,
        {
            assert(table[source as int] == counts@[source as int]@);
            proof {
                lemma_sum_step(column, source as int);
                lemma_sum_prefix(column, source + 1);
            }
            match total.checked_add(counts[source][rank]) {
                Some(sum) => {
                    total = sum;
                },
                None => {
                    assert(sum_usize(counts_for(table, rank as int)) > usize::MAX);
                    return None;
                },
            }
            source = source + 1;
        }
        assert(column.take(source as int) =~= column);
        lengths.push(total);
        rank = rank + 1;
    }
    Some(lengths)
}

/// Checks each row of the counts.
fn check_rows(counts: &[Vec<usize>], length: usize) -> (result: Result<(), InProcessError>)
    ensures
        match row_defect(count_table(counts@), length as int, counts@.len() as int) {
            Some(defect) => result == Err::<(), InProcessError>(defect),
            None => result is Ok,
        },
{
    let ghost table = count_table(counts@);
    let mut row: usize = 0;
    while row < counts.len()
        invariant
            row <= counts@.len(),
            table == count_table(counts@),
            row_defect(table, length as int, row as int) is None,
        decreases counts.len() - row,
    {
        assert(table[row as int] == counts@[row as int]@);
        match checked_sum(counts[row].as_slice()) {
            Some(total) => {
                if total != length {
                    proof {
                        lemma_row_prefix(table, length as int, row + 1, counts@.len() as int);
                    }
                    return Err(
                        InProcessError::InvalidLength(
                            "each all-to-all-v send-count row must sum to the input rank length",
                        ),
                    );
                }
            },
            None => {
                proof {
                    lemma_row_prefix(table, length as int, row + 1, counts@.len() as int);
                }
                return Err(InProcessError::Overflow("all-to-all-v send count"));
            },
        }
        row = row + 1;
    }
    Ok(())
}

/// Checks that the counts are one row per rank with one entry per rank.
fn is_square(counts: &[Vec<usize>], world: usize) -> (is: bool)
    ensures
        is == square(count_table(counts@), world as int),
{
    if counts.len() != world {
        return false;
    }
    let ghost table = count_table(counts@);
    let mut row: usize = 0;
    while row < counts.len()
        invariant
            row <= counts@.len(),
            counts@.len() == world,
            table == count_table(counts@),
            forall|source: int| 0 <= source < row ==> (#[trigger] table[source]).len() == world,
        decreases counts.len() - row,
    {
        assert(table[row as int] == counts@[row as int]@);
        if counts[row].len() != world {
            return false;
        }
        row = row + 1;
    }
    true
}

impl<'a, T, D: InProcessDevice<T>, E> InProcessCollective<'a, T, D, E> where
    E: From<D::Error> + From<InProcessError>,
 {
    /// Equal counts: each input rank holds a shard for every rank, in rank order,
    /// and each output rank one from every rank, in rank order.
    pub fn all_to_all(&mut self, input: &DistributedBuffer<T, D>) -> (result: Result<
        (DistributedBuffer<T, D>, CollectiveStats),
        E,
    >)
        requires
            input.wf(),
            old(self).world() > 0,
        ensures
            *final(final(self).contexts) == *final(old(self).contexts),
            final(self).same(old(self)),
            asked_of(
                old(self).faults(),
                final(self).faults(),
                |on: int, call: DeviceCall|
                    call.within(input.length_per_rank as int),
            ),
            result is Ok ==> {
                &&& result->Ok_0.0.wf()
                &&& result->Ok_0.0.communicator_id == old(self).id
                &&& result->Ok_0.0.length_per_rank == input.length_per_rank
            },
            settled(
                all_to_all_model(old(self).id, old(self).world(), input),
                old(self).faults(),
                final(self).faults(),
                spread(result),
            ),
    {
        match self.validate_buffer(input) {
            Ok(()) => {},
            Err(error) => {
                return Err(E::from(error));
            },
        }
        let world: usize = self.world_size();
        let length: usize = input.length_per_rank;
        if !is_multiple_of(length, world) {
            return Err(
                E::from(
                    InProcessError::InvalidLength(
                        "all-to-all rank length must be divisible by world size",
                    ),
                ),
            );
        }
        let width: usize = length / world;
        proof {
            lemma_fundamental_div_mod(length as int, world as int);
        }
        let ghost rows = input.rows();
        let mut output = match self.allocate(length) {
            Ok(output) => output,
            Err(error) => {
                return Err(error);
            },
        };
        let mut source: usize = 0;
        while source < world
            invariant
                source <= world,
                world == self.world(),
                *final(self.contexts) == *final(old(self).contexts),
                self.same(old(self)),
                self.faults() == old(self).faults(),
                input.wf(),
                input.buffers@.len() == world,
                input.length_per_rank == length,
                length == world * width,
                rows == input.rows(),
                output.wf(),
                output.communicator_id == old(self).id,
                output.length_per_rank == length,
                output.buffers@.len() == world,
                forall|d: int, s: int|
                    0 <= d < world && 0 <= s < source ==> #[trigger] block_is(
                        output.rows()[d],
                        s,
                        width as int,
                        shards_for(rows, width as int, d)[s],
                    ),
            decreases world - source,
        {
            let mut destination: usize = 0;
            while destination < world
                invariant
                    destination <= world,
                    source < world,
                    world == self.world(),
                    *final(self.contexts) == *final(old(self).contexts),
                    self.same(old(self)),
                    self.faults() == old(self).faults(),
                    input.wf(),
                    input.buffers@.len() == world,
                    input.length_per_rank == length,
                    length == world * width,
                    rows == input.rows(),
                    output.wf(),
                    output.communicator_id == old(self).id,
                    output.length_per_rank == length,
                    output.buffers@.len() == world,
                    forall|d: int, s: int|
                        0 <= d < world && 0 <= s < (if d < destination {
                            source + 1
                        } else {
                            source as int
                        }) ==> #[trigger] block_is(
                            output.rows()[d],
                            s,
                            width as int,
                            shards_for(rows, width as int, d)[s],
                        ),
                decreases world - destination,
            {
                proof {
                    lemma_block_fits(destination as int, width as int, world as int);
                    lemma_block_fits(source as int, width as int, world as int);
                    assert(D::values(&input.buffers@[source as int]).len() == length);
                    assert(D::values(&output.buffers@[destination as int]).len() == length);
                }
                let values = match self.load_at(
                    source,
                    &input.buffers[source],
                    destination * width,
                    width,
                ) {
                    Ok(values) => values,
                    Err(error) => {
                        return Err(error);
                    },
                };
                let ghost was = output.rows();
                match self.store_at(
                    destination,
                    &mut output.buffers[destination],
                    source * width,
                    values.as_slice(),
                ) {
                    Ok(()) => {},
                    Err(error) => {
                        return Err(error);
                    },
                }
                proof {
                    let now = output.rows();
                    let wanted = shards_for(rows, width as int, destination as int);
                    assert(values@ == wanted[source as int]);
                    assert(now =~= was.update(destination as int, now[destination as int]));
                    assert forall|d: int, s: int|
                        0 <= d < world && 0 <= s < (if d < destination + 1 {
                            source + 1
                        } else {
                            source as int
                        }) implies #[trigger] block_is(
                        now[d],
                        s,
                        width as int,
                        shards_for(rows, width as int, d)[s],
                    ) by {
                        if d == destination {
                            if s != source {
                                assert(block_is(was[d], s, width as int, wanted[s]));
                            }
                            lemma_block_written(
                                was[d],
                                source as int,
                                values@,
                                s,
                                wanted[s],
                                width as int,
                                world as int,
                            );
                        } else {
                            assert(block_is(
                                was[d],
                                s,
                                width as int,
                                shards_for(rows, width as int, d)[s],
                            ));
                        }
                    }
                }
                destination = destination + 1;
            }
            source = source + 1;
        }
        proof {
            let wanted = Seq::new(
                world as nat,
                |rank: int| laid_out(shards_for(rows, width as int, rank)),
            );
            assert forall|d: int| 0 <= d < world implies #[trigger] output.rows()[d]
                == wanted[d] by {
                assert(D::values(&output.buffers@[d]).len() == length);
                lemma_all_blocks(
                    output.rows()[d],
                    width as int,
                    shards_for(rows, width as int, d),
                );
            }
            assert(output.rows() =~= wanted);
        }
        let mut stats = CollectiveStats::new(CollectiveAlgorithm::Direct);
        stats.steps = (world - 1) as u32;
        stats.transferred_bytes = match transferred_bytes(
            saturating_mul_usize(world, world - 1),
            width,
            D::ELEMENT_SIZE,
        ) {
            Ok(bytes) => bytes,
            Err(error) => {
                return Err(E::from(error));
            },
        };
        Ok((output, stats))
    }

    /// Hands one rank's elements out.
    fn hand_out(
        &mut self,
        output: &mut VariableDistributedBuffer<T, D>,
        receive_offsets: &mut Vec<usize>,
        source: usize,
        counts: &Vec<usize>,
        values: &[T],
        Ghost(rows): Ghost<Seq<Seq<T>>>,
        Ghost(table): Ghost<Seq<Seq<usize>>>,
    ) -> (result: Result<(), E>)
        requires
            source < old(self).world(),
            square(table, old(self).world()),
            rows.len() == old(self).world(),
            rows[source as int] == values@,
            table[source as int] == counts@,
            sum_usize(counts@) == values@.len() <= usize::MAX,
            old(output).wf(),
            old(output).buffers@.len() == old(self).world(),
            forall|rank: int|
                0 <= rank < old(self).world() ==> #[trigger] old(output).lengths@[rank]
                    == sum_usize(counts_for(table, rank)),
            old(receive_offsets)@.len() == old(self).world(),
            forall|rank: int|
                0 <= rank < old(self).world() ==> #[trigger] old(receive_offsets)@[rank]
                    == sum_usize(counts_for(table, rank).take(source as int)),
            forall|rank: int|
                0 <= rank < old(self).world() ==> (#[trigger] old(output).rows()[rank]).take(
                    sum_usize(counts_for(table, rank).take(source as int)),
                ) == laid_out(segments_for(rows, table, rank).take(source as int)),
        ensures
            *final(final(self).contexts) == *final(old(self).contexts),
            final(self).same(old(self)),
            asked_of(
                old(self).faults(),
                final(self).faults(),
                |on: int, call: DeviceCall|
                    call.within(old(output).lengths@[on] as int),
            ),
            final(output).wf(),
            final(output).communicator_id == old(output).communicator_id,
            final(output).lengths == old(output).lengths,
            kept(result, old(self).faults(), final(self).faults()),
            result is Ok ==> {
                &&& final(receive_offsets)@.len() == old(self).world()
                &&& forall|rank: int|
                    0 <= rank < old(self).world() ==> #[trigger] final(receive_offsets)@[rank]
                        == sum_usize(counts_for(table, rank).take(source + 1))
                &&& forall|rank: int|
                    0 <= rank < old(self).world() ==> (#[trigger] final(output).rows()[rank]).take(
                        sum_usize(counts_for(table, rank).take(source + 1)),
                    ) == laid_out(segments_for(rows, table, rank).take(source + 1))
            },
    {
        let world: usize = self.world_size();
        let mut send_offset: usize = 0;
        let mut destination: usize = 0;
        assert(counts@.take(0) =~= Seq::empty());
        while destination < world
            invariant
                destination <= world,
                world == self.world(),
                source < world,
                square(table, world as int),
                rows.len() == world,
                rows[source as int] == values@,
                table[source as int] == counts@,
                sum_usize(counts@) == values@.len() <= usize::MAX,
                *final(self.contexts) == *final(old(self).contexts),
                self.same(old(self)),
                self.faults() == old(self).faults(),
                output.wf(),
                output.communicator_id == old(output).communicator_id,
                output.lengths == old(output).lengths,
                output.buffers@.len() == world,
                forall|rank: int|
                    0 <= rank < world ==> #[trigger] output.lengths@[rank] == sum_usize(
                        counts_for(table, rank),
                    ),
                send_offset == sum_usize(counts@.take(destination as int)),
                receive_offsets@.len() == world,
                forall|rank: int|
                    0 <= rank < world ==> #[trigger] receive_offsets@[rank] == sum_usize(
                        counts_for(table, rank).take(
                            if rank < destination {
                                source + 1
                            } else {
                                source as int
                            },
                        ),
                    ),
                forall|rank: int|
                    0 <= rank < world ==> (#[trigger] output.rows()[rank]).take(
                        sum_usize(
                            counts_for(table, rank).take(
                                if rank < destination {
                                    source + 1
                                } else {
                                    source as int
                                },
                            ),
                        ),
                    ) == laid_out(
                        segments_for(rows, table, rank).take(
                            if rank < destination {
                                source + 1
                            } else {
                                source as int
                            },
                        ),
                    ),
            decreases world - destination,
        {
            let count: usize = counts[destination];
            let ghost column = counts_for(table, destination as int);
            let ghost parts = segments_for(rows, table, destination as int);
            let ghost was = output.rows();
            let ghost offset = receive_offsets@[destination as int] as int;
            proof {
                lemma_sum_step(counts@, destination as int);
                lemma_sum_prefix(counts@, destination + 1);
                lemma_sum_prefix(counts@, destination as int);
                lemma_sum_step(column, source as int);
                lemma_sum_prefix(column, source + 1);
                lemma_sum_prefix(column, source as int);
                assert(column[source as int] == count);
                assert(held_values::<T, D>(output.buffers@[destination as int]).len()
                    == output.lengths@[destination as int]);
                assert(was[destination as int].len() == sum_usize(column));
                assert(parts.take(source + 1).drop_last() =~= parts.take(source as int));
            }
            let send_end: usize = send_offset + count;
            if count != 0 {
                let part = slice_subrange(values, send_offset, send_end);
                match &mut output.buffers[destination] {
                    Some(buffer) => {
                        match self.store_at(
                            destination,
                            buffer,
                            receive_offsets[destination],
                            part,
                        ) {
                            Ok(()) => {},
                            Err(error) => {
                                return Err(error);
                            },
                        }
                    },
                    None => {},
                }
            }
            proof {
                let now = output.rows();
                let d = destination as int;
                assert(now =~= was.update(d, now[d]));
                let part = segment(values@, counts@, d);
                assert(parts[source as int] == part);
                assert(part.len() == count);
                assert(now[d] =~= overwritten(was[d], offset, part));
                assert(now[d].take(offset + count) =~= was[d].take(offset) + part);
                assert(parts.take(source + 1).last() == part);
            }
            let received: usize = receive_offsets[destination] + count;
            receive_offsets.set(destination, received);
            send_offset = send_end;
            destination = destination + 1;
        }
        Ok(())
    }

    pub fn all_to_all_v(
        &mut self,
        input: &DistributedBuffer<T, D>,
        send_counts: &[Vec<usize>],
    ) -> (result: Result<(VariableDistributedBuffer<T, D>, CollectiveStats), E>)
        requires
            input.wf(),
        ensures
            *final(final(self).contexts) == *final(old(self).contexts),
            final(self).same(old(self)),
            asked_of(
                old(self).faults(),
                final(self).faults(),
                |on: int, call: DeviceCall|
                    {
                        ||| call == (DeviceCall::Load { held: input.rows()[on].len() })
                        ||| call.within(sum_usize(counts_for(count_table(send_counts@), on)))
                    },
            ),
            result is Ok ==> {
                &&& result->Ok_0.0.wf()
                &&& result->Ok_0.0.communicator_id == old(self).id
            },
            settled(
                all_to_all_v_model(
                    old(self).id,
                    old(self).world(),
                    input,
                    count_table(send_counts@),
                ),
                old(self).faults(),
                final(self).faults(),
                spread_variable(result),
            ),
    {
        match self.validate_buffer(input) {
            Ok(()) => {},
            Err(error) => {
                return Err(E::from(error));
            },
        }
        let world: usize = self.world_size();
        let ghost table = count_table(send_counts@);
        if !is_square(send_counts, world) {
            return Err(
                E::from(
                    InProcessError::InvalidLength(
                        "all-to-all-v send_counts must be a world_size square matrix",
                    ),
                ),
            );
        }
        let length: usize = input.length_per_rank;
        match check_rows(send_counts, length) {
            Ok(()) => {},
            Err(error) => {
                return Err(E::from(error));
            },
        }
        let lengths = match receive_lengths(send_counts, world) {
            Some(lengths) => lengths,
            None => {
                return Err(E::from(InProcessError::Overflow("all-to-all-v receive count")));
            },
        };
        let mut output = match self.allocate_variable(lengths.as_slice()) {
            Ok(output) => output,
            Err(error) => {
                return Err(error);
            },
        };
        let ghost rows = input.rows();
        let mut receive_offsets: Vec<usize> = Vec::new();
        let mut rank: usize = 0;
        while rank < world
            invariant
                rank <= world,
                receive_offsets@.len() == rank,
                forall|r: int| 0 <= r < rank ==> #[trigger] receive_offsets@[r] == 0,
            decreases world - rank,
        {
            receive_offsets.push(0);
            rank = rank + 1;
        }
        proof {
            assert forall|r: int| 0 <= r < world implies counts_for(table, r).take(0)
                == Seq::<usize>::empty() && (#[trigger] output.rows()[r]).take(0)
                == Seq::<T>::empty() && segments_for(rows, table, r).take(0)
                == Seq::<Seq<T>>::empty() by {
                assert(counts_for(table, r).take(0) =~= Seq::<usize>::empty());
                assert(output.rows()[r].take(0) =~= Seq::<T>::empty());
                assert(segments_for(rows, table, r).take(0) =~= Seq::<Seq<T>>::empty());
            }
            assert forall|r: int| 0 <= r < world implies #[trigger] receive_offsets@[r]
                == sum_usize(counts_for(table, r).take(0)) by {
                assert(counts_for(table, r).take(0) =~= Seq::<usize>::empty());
            }
        }
        let mut source: usize = 0;
        while source < world
            invariant
                source <= world,
                world == self.world(),
                *final(self.contexts) == *final(old(self).contexts),
                self.same(old(self)),
                self.faults() == old(self).faults(),
                input.wf(),
                foreign(
                    self.id,
                    self.world(),
                    input.communicator_id,
                    input.buffers@.len() as int,
                ) is None,
                input.length_per_rank == length,
                rows == input.rows(),
                table == count_table(send_counts@),
                square(table, world as int),
                row_defect(table, length as int, world as int) is None,
                output.wf(),
                output.communicator_id == old(self).id,
                output.buffers@.len() == world,
                forall|r: int|
                    0 <= r < world ==> #[trigger] output.lengths@[r] == sum_usize(
                        counts_for(table, r),
                    ),
                receive_offsets@.len() == world,
                forall|r: int|
                    0 <= r < world ==> #[trigger] receive_offsets@[r] == sum_usize(
                        counts_for(table, r).take(source as int),
                    ),
                forall|r: int|
                    0 <= r < world ==> (#[trigger] output.rows()[r]).take(
                        sum_usize(counts_for(table, r).take(source as int)),
                    ) == laid_out(segments_for(rows, table, r).take(source as int)),
            decreases world - source,
        {
            let values = match self.download_rank(input, source) {
                Ok(values) => values,
                Err(error) => {
                    return Err(error);
                },
            };
            proof {
                assert(table[source as int] == send_counts@[source as int]@);
                lemma_rows_fit(table, length as int, world as int, source as int);
                assert(D::values(&input.buffers@[source as int]).len() == length);
            }
            match self.hand_out(
                &mut output,
                &mut receive_offsets,
                source,
                &send_counts[source],
                values.as_slice(),
                Ghost(rows),
                Ghost(table),
            ) {
                Ok(()) => {},
                Err(error) => {
                    return Err(error);
                },
            }
            source = source + 1;
        }
        proof {
            let wanted = Seq::new(
                world as nat,
                |rank: int| laid_out(segments_for(rows, table, rank)),
            );
            assert forall|r: int| 0 <= r < world implies #[trigger] output.rows()[r]
                == wanted[r] by {
                let held = output.rows()[r];
                assert(counts_for(table, r).take(world as int) =~= counts_for(table, r));
                assert(segments_for(rows, table, r).take(world as int) =~= segments_for(
                    rows,
                    table,
                    r,
                ));
                assert(held_values::<T, D>(output.buffers@[r]).len() == output.lengths@[r]);
                assert(held.take(held.len() as int) =~= held);
            }
            assert(output.rows() =~= wanted);
        }
        proof {
            lemma_remote_grows(table, 0, world as int);
        }
        let elements: usize = match remote_elements(send_counts) {
            Some(elements) => elements,
            None => {
                return Err(
                    E::from(InProcessError::Overflow("all-to-all-v transferred elements")),
                );
            },
        };
        let mut stats = CollectiveStats::new(CollectiveAlgorithm::Direct);
        if world > 0 {
            stats.steps = (world - 1) as u32;
        }
        stats.transferred_bytes = match transferred_bytes(1, elements, D::ELEMENT_SIZE) {
            Ok(bytes) => bytes,
            Err(error) => {
                return Err(E::from(error));
            },
        };
        Ok((output, stats))
    }
}

/// Exchanging equal shards twice gives every rank its own elements back.
proof fn lemma_exchanged_twice<T>(rows: Seq<Seq<T>>, width: int)
    requires
        0 <= width,
        forall|r: int| 0 <= r < rows.len() ==> (#[trigger] rows[r]).len() == rows.len() * width,
    ensures
        exchanged(exchanged(rows, width), width) == rows,
        forall|r: int|
            0 <= r < rows.len() ==> (#[trigger] exchanged(rows, width)[r]).len() == rows.len()
                * width,
{
    let world = rows.len() as int;
    let once = exchanged(rows, width);
    let twice = exchanged(once, width);
    assert forall|r: int, source: int| 0 <= r < world && 0 <= source < world implies (
    #[trigger] shards_for(rows, width, r)[source]).len() == width by {
        lemma_block_fits(r, width, world);
        assert(rows[source].len() == world * width);
    }
    assert forall|r: int| 0 <= r < world implies (#[trigger] once[r]).len() == world * width by {
        lemma_laid_out_block(shards_for(rows, width, r), width, 0);
    }
    assert forall|r: int| 0 <= r < world implies #[trigger] twice[r] == rows[r] by {
        let parts = shards_for(once, width, r);
        assert forall|b: int| 0 <= b < world implies #[trigger] block_is(
            rows[r],
            b,
            width,
            parts[b],
        ) by {
            lemma_laid_out_block(shards_for(rows, width, b), width, r);
            lemma_block_fits(b, width, world);
            let part = rows[r].subrange(b * width, b * width + width);
            assert(once[b] == laid_out(shards_for(rows, width, b)));
            assert(parts[b] == part);
            assert forall|c: int| 0 <= c < width implies #[trigger] rows[r][b * width + c]
                == parts[b][c] by {
                assert(part[c] == rows[r][b * width + c]);
            }
        }
        assert(rows[r].len() == world * width);
        lemma_all_blocks(rows[r], width, parts);
    }
    assert(twice =~= rows);
}

/// An all-to-all of what an all-to-all gave succeeds at the same cost and gives
/// every rank its own elements back.
pub proof fn law_all_to_all_twice<T, D: InProcessDevice<T>>(
    id: u64,
    world: int,
    input: &DistributedBuffer<T, D>,
    output: &DistributedBuffer<T, D>,
)
    requires
        input.wf(),
        all_to_all_model(id, world, input) is Ok,
        output.communicator_id == id,
        output.length_per_rank == input.length_per_rank,
        output.rows() == all_to_all_model(id, world, input)->Ok_0.0,
    ensures
        all_to_all_model(id, world, output) == Ok::<
            (Seq<Seq<T>>, CollectiveStats),
            InProcessError,
        >((input.rows(), all_to_all_model(id, world, input)->Ok_0.1)),
{
    let rows = input.rows();
    let length = input.length_per_rank as int;
    assert(output.rows().len() == output.buffers@.len());
    if world > 0 {
        let width = length / world;
        lemma_fundamental_div_mod(length, world);
        lemma_div_pos_is_pos(length, world);
        assert(length == world * width);
        assert forall|r: int| 0 <= r < rows.len() implies (#[trigger] rows[r]).len() == rows.len()
            * width by {
            assert(D::values(&input.buffers@[r]).len() == length);
        }
        lemma_exchanged_twice(rows, width);
    } else {
        assert(exchanged(exchanged(rows, length / world), length / world) =~= rows);
    }
}

} // verus!

//! Reductions over the ranks.

use crate::in_process::buffer::{DistributedBuffer, RootedBuffer};
use crate::in_process::collective::blocks::lemma_wrapped;
use crate::in_process::collective::exchange::{collected, costed, left, others, placed, spread};
use crate::in_process::collective::memory::rank_defect;
use crate::in_process::collective::{
    asked_of, bytes_moved, cost, foreign, kept, lemma_faulted, ring_chunks, settled,
    transferred_bytes, InProcessCollective,
};
use crate::in_process::device::InProcessDevice;
use crate::in_process::error::InProcessError;
use crate::math::{is_multiple_of, max_int, min_int, multiple_of};
use crate::rank::device::{overwritten, reduced_into, DeviceCall};
use crate::rank::device_collective::ring::{back, bounds};
use crate::rank::layout::{
    are_balanced_ranges, balanced_bounds, balanced_len, balanced_owner, balanced_start,
    law_balanced_partition, lemma_balanced_monotone, lemma_balanced_owner,
};
use crate::rank::rounds::{
    arranged, in_block, incoming, law_two_rounds, lemma_whole_at, ring_fold, rounds, stepped,
};
use crate::rank::{CollectiveAlgorithm, CollectiveStats};
use std::ops::Range;
use vstd::arithmetic::div_mod::*;
use vstd::prelude::*;

verus! {

/// The root's elements with those of the other ranks below `ranks` reduced in,
/// in rank order.
pub open spec fn rooted_fold<T>(
    rows: Seq<Seq<T>>,
    root: int,
    ranks: int,
    reduce: spec_fn(T, T) -> T,
) -> Seq<T>
    decreases ranks,
{
    if ranks <= 0 {
        rows[root]
    } else if ranks - 1 == root {
        rooted_fold(rows, root, ranks - 1, reduce)
    } else {
        reduced_into(rooted_fold(rows, root, ranks - 1, reduce), 0, rows[ranks - 1], reduce)
    }
}

/// The root holds the reduction of every rank's elements.
pub open spec fn reduce_model<T, D: InProcessDevice<T>>(
    id: u64,
    world: int,
    input: &DistributedBuffer<T, D>,
    root: usize,
    reduce: spec_fn(T, T) -> T,
) -> Result<(Seq<T>, CollectiveStats), InProcessError> {
    match rank_defect(id, world, input, root) {
        Some(defect) => Err(defect),
        None => if input.length_per_rank == 0 {
            Ok((input.rows()[root as int], cost(CollectiveAlgorithm::Direct, 0, 0, 0)))
        } else if input.length_per_rank > u32::MAX {
            Err(InProcessError::InvalidLength("GX kernels use u32 element indices"))
        } else {
            costed(
                rooted_fold(input.rows(), root as int, world, reduce),
                CollectiveAlgorithm::Direct,
                others(world),
                bytes_moved(others(world), input.length_per_rank as int, D::ELEMENT_SIZE as int),
                others(world),
            )
        },
    }
}

/// Every element reduced round the ring. The chunk of an element starts on the
/// rank after the chunk's own and ends on the chunk's own rank.
pub open spec fn ring_sum<T>(
    rows: Seq<Seq<T>>,
    length: int,
    reduce: spec_fn(T, T) -> T,
) -> Seq<T> {
    Seq::new(
        length as nat,
        |element: int|
            ring_fold(
                rows,
                element,
                balanced_owner(length, rows.len() as int, element) + 1,
                rows.len() - 1,
                reduce,
            ),
    )
}

/// Why an all-reduce is refused, if it is.
pub open spec fn all_reduce_defect<T, D: InProcessDevice<T>>(
    id: u64,
    world: int,
    buffer: &DistributedBuffer<T, D>,
) -> Option<InProcessError> {
    match foreign(id, world, buffer.communicator_id, buffer.buffers@.len() as int) {
        Some(defect) => Some(defect),
        None => if world == 1 {
            None
        } else if buffer.length_per_rank > u32::MAX {
            Some(InProcessError::InvalidLength("GX kernels use u32 element indices"))
        } else if world == 0 {
            Some(InProcessError::EmptyWorld)
        } else {
            None
        },
    }
}

/// Every rank holds the reduction of every rank's elements.
pub open spec fn all_reduced<T>(
    rows: Seq<Seq<T>>,
    length: int,
    reduce: spec_fn(T, T) -> T,
) -> Seq<Seq<T>> {
    if rows.len() == 1 {
        rows
    } else {
        Seq::new(rows.len(), |rank: int| ring_sum(rows, length, reduce))
    }
}

pub open spec fn all_reduce_model<T, D: InProcessDevice<T>>(
    id: u64,
    world: int,
    buffer: &DistributedBuffer<T, D>,
    reduce: spec_fn(T, T) -> T,
) -> Result<(Seq<Seq<T>>, CollectiveStats), InProcessError> {
    let length = buffer.length_per_rank as int;
    let rows = all_reduced(buffer.rows(), length, reduce);
    match all_reduce_defect(id, world, buffer) {
        Some(defect) => Err(defect),
        None => if world == 1 {
            Ok((rows, cost(CollectiveAlgorithm::Ring, 0, 0, 0)))
        } else {
            costed(
                rows,
                CollectiveAlgorithm::Ring,
                2 * (world - 1),
                bytes_moved(2 * (world - 1), length, D::ELEMENT_SIZE as int),
                (world - 1) * min_int(world, length),
            )
        },
    }
}

/// Every rank holds its chunk of the reduction of every rank's elements.
pub open spec fn reduce_scatter_model<T, D: InProcessDevice<T>>(
    id: u64,
    world: int,
    input: &DistributedBuffer<T, D>,
    reduce: spec_fn(T, T) -> T,
) -> Result<(Seq<Seq<T>>, CollectiveStats), InProcessError> {
    let length = input.length_per_rank as int;
    match foreign(id, world, input.communicator_id, input.buffers@.len() as int) {
        Some(defect) => Err(defect),
        None => if !multiple_of(length, world) {
            Err(
                InProcessError::InvalidLength(
                    "reduce-scatter input length must be divisible by world size",
                ),
            )
        } else if length > u32::MAX {
            Err(InProcessError::InvalidLength("GX kernels use u32 element indices"))
        } else {
            costed(
                Seq::new(
                    world as nat,
                    |rank: int|
                        ring_sum(input.rows(), length, reduce).subrange(
                            balanced_start(length, world, rank),
                            balanced_start(length, world, rank + 1),
                        ),
                ),
                CollectiveAlgorithm::Ring,
                world - 1,
                bytes_moved(world - 1, length, D::ELEMENT_SIZE as int),
                (world - 1) * min_int(world, length),
            )
        },
    }
}

/// The ranges have the bounds of the partitions.
proof fn lemma_bounds(chunks: Seq<Range<usize>>, length: int, world: int)
    requires
        are_balanced_ranges(chunks, length, world),
    ensures
        bounds(chunks) == balanced_bounds(length, world),
{
    assert(bounds(chunks) =~= balanced_bounds(length, world));
}

/// The chunks are arranged for a round.
proof fn lemma_arranged<T>(rows: Seq<Seq<T>>, length: int)
    requires
        0 <= length,
        0 < rows.len(),
        forall|p: int| 0 <= p < rows.len() ==> (#[trigger] rows[p]).len() == length,
    ensures
        arranged(rows, balanced_bounds(length, rows.len() as int), length),
{
    let world = rows.len() as int;
    let blocks = balanced_bounds(length, world);
    assert forall|b: int| 0 <= b < blocks.len() implies 0 <= (#[trigger] blocks[b]).0
        <= blocks[b].1 <= length by {
        law_balanced_partition(length, world, b);
    }
    assert forall|b: int, c: int, x: int|
        0 <= b < blocks.len() && 0 <= c < blocks.len() && in_block(blocks, b, x) && in_block(
            blocks,
            c,
            x,
        ) implies b == c by {
        if b < c {
            lemma_balanced_monotone(length, world, b + 1, c);
        } else if c < b {
            lemma_balanced_monotone(length, world, c + 1, b);
        }
    }
}

/// A chunk has elements exactly where there are elements enough.
proof fn lemma_chunk_filled(length: int, world: int, chunk: int)
    requires
        0 <= length,
        0 <= chunk < world,
    ensures
        balanced_start(length, world, chunk) < balanced_start(length, world, chunk + 1) <==> chunk
            < min_int(world, length),
{
    law_balanced_partition(length, world, chunk);
    if length < world {
        lemma_small_mod(length as nat, world as nat);
        lemma_basic_div(length, world);
    } else {
        lemma_div_non_zero(length, world);
    }
}

/// How many of the first `ranks` ranks get one of the first `filled` chunks when
/// rank 0 gets chunk `first`.
pub open spec fn filled_so_far(ranks: int, first: int, filled: int, world: int) -> int {
    if first + ranks <= world {
        min_int(filled, first + ranks) - min_int(filled, first)
    } else {
        filled - min_int(filled, first) + min_int(filled, first + ranks - world)
    }
}

/// Every scratch buffer has room for every chunk, and no more than a rank's
/// elements need; where it is used whole, every chunk fills it.
pub open spec fn roomy<T, D: InProcessDevice<T>>(
    scratch: Seq<D::Buffer>,
    length: int,
    whole: bool,
) -> bool {
    forall|rank: int, chunk: int|
        #![trigger D::values(&scratch[rank]), balanced_len(length, scratch.len() as int, chunk)]
        0 <= rank < scratch.len() && 0 <= chunk < scratch.len() ==> {
            let room = D::values(&scratch[rank]).len();
            let needed = balanced_len(length, scratch.len() as int, chunk);
            &&& needed <= room <= max_int(length, 1)
            &&& whole ==> needed == room
        }
}

impl<'a, T, D: InProcessDevice<T>, E> InProcessCollective<'a, T, D, E> where
    E: From<D::Error> + From<InProcessError>,
 {
    pub fn reduce_sum(
        &mut self,
        input: &DistributedBuffer<T, D>,
        root: usize,
        function: &D::Kernel,
    ) -> (result: Result<(RootedBuffer<T, D>, CollectiveStats), E>)
        requires
            input.wf(),
            old(self).world() - 1 <= u32::MAX,
        ensures
            *final(final(self).contexts) == *final(old(self).contexts),
            final(self).same(old(self)),
            asked_of(
                old(self).faults(),
                final(self).faults(),
                |on: int, call: DeviceCall|
                    call.within(input.length_per_rank as int),
            ),
            result is Ok ==> {
                &&& result->Ok_0.0.communicator_id == old(self).id
                &&& result->Ok_0.0.root == root
            },
            settled(
                reduce_model(
                    old(self).id,
                    old(self).world(),
                    input,
                    root,
                    D::reduction(function),
                ),
                old(self).faults(),
                final(self).faults(),
                collected(result),
            ),
    {
        match self.validate_buffer(input) {
            Ok(()) => {},
            Err(error) => {
                return Err(E::from(error));
            },
        }
        match self.check_rank(root) {
            Ok(()) => {},
            Err(error) => {
                return Err(E::from(error));
            },
        }
        let ghost reduce = D::reduction(function);
        let ghost rows = input.rows();
        let world: usize = self.world_size();
        let length: usize = input.length_per_rank;
        let mut output = match self.allocate_rooted(root, length) {
            Ok(output) => output,
            Err(error) => {
                return Err(error);
            },
        };
        let root_values = match self.download_rank(input, root) {
            Ok(values) => values,
            Err(error) => {
                return Err(error);
            },
        };
        match self.store_on(root, &mut output.buffer, root_values.as_slice()) {
            Ok(()) => {},
            Err(error) => {
                return Err(error);
            },
        }
        if length == 0 {
            return Ok((output, CollectiveStats::new(CollectiveAlgorithm::Direct)));
        }
        let mut scratch = match self.allocate_on(root, length) {
            Ok(scratch) => scratch,
            Err(error) => {
                return Err(error);
            },
        };
        if length > u32::MAX as usize {
            return Err(
                E::from(InProcessError::InvalidLength("GX kernels use u32 element indices")),
            );
        }
        let launch = D::prepare_reduction(length as u32, 0);
        let mut stats = CollectiveStats::new(CollectiveAlgorithm::Direct);
        let mut rank: usize = 0;
        while rank < world
            invariant
                rank <= world,
                world == self.world(),
                root < world,
                world - 1 <= u32::MAX,
                *final(self.contexts) == *final(old(self).contexts),
                self.same(old(self)),
                self.faults() == old(self).faults(),
                foreign(
                    self.id,
                    self.world(),
                    input.communicator_id,
                    input.buffers@.len() as int,
                ) is None,
                input.wf(),
                input.length_per_rank == length,
                rows == input.rows(),
                reduce == D::reduction(function),
                output.communicator_id == old(self).id,
                output.root == root,
                D::extent(&launch) == (length as nat, 0nat),
                D::values(&output.buffer).len() == length,
                D::values(&scratch).len() == length,
                D::values(&output.buffer) == rooted_fold(rows, root as int, rank as int, reduce),
                stats == cost(
                    CollectiveAlgorithm::Direct,
                    if root < rank {
                        rank - 1
                    } else {
                        rank as int
                    },
                    0,
                    if root < rank {
                        rank - 1
                    } else {
                        rank as int
                    },
                ),
            decreases world - rank,
        {
            if rank != root {
                let values = match self.download_rank(input, rank) {
                    Ok(values) => values,
                    Err(error) => {
                        return Err(error);
                    },
                };
                match self.store_on(root, &mut scratch, values.as_slice()) {
                    Ok(()) => {},
                    Err(error) => {
                        return Err(error);
                    },
                }
                assert(D::values(&scratch).take(length as int) =~= rows[rank as int]);
                match self.reduce_on(root, function, &launch, &scratch, &mut output.buffer) {
                    Ok(()) => {},
                    Err(error) => {
                        return Err(error);
                    },
                }
                stats.steps = stats.steps + 1;
                stats.reduction_kernel_launches = stats.reduction_kernel_launches + 1;
            }
            rank = rank + 1;
        }
        stats.transferred_bytes = match transferred_bytes(world - 1, length, D::ELEMENT_SIZE) {
            Ok(bytes) => bytes,
            Err(error) => {
                return Err(E::from(error));
            },
        };
        Ok((output, stats))
    }

    /// Reads the chunk that each rank sends in a step.
    fn stage(
        &mut self,
        buffer: &DistributedBuffer<T, D>,
        chunks: &Vec<Range<usize>>,
        behind: usize,
    ) -> (result: Result<Vec<Vec<T>>, E>)
        requires
            buffer.wf(),
            buffer.buffers@.len() == old(self).world(),
            behind <= old(self).world(),
            are_balanced_ranges(
                chunks@,
                buffer.length_per_rank as int,
                old(self).world(),
            ),
        ensures
            *final(final(self).contexts) == *final(old(self).contexts),
            final(self).same(old(self)),
            asked_of(
                old(self).faults(),
                final(self).faults(),
                |on: int, call: DeviceCall|
                    call.within(buffer.length_per_rank as int),
            ),
            kept(result, old(self).faults(), final(self).faults()),
            result matches Ok(staged) ==> {
                let world = old(self).world();
                let blocks = balanced_bounds(buffer.length_per_rank as int, world);
                &&& staged@.len() == world
                &&& forall|rank: int|
                    0 <= rank < world ==> (#[trigger] staged@[rank])@
                        == buffer.rows()[rank].subrange(
                        blocks[(rank - behind) % world].0,
                        blocks[(rank - behind) % world].1,
                    )
            },
    {
        let world: usize = self.world_size();
        let ghost blocks = balanced_bounds(buffer.length_per_rank as int, world as int);
        let mut staged: Vec<Vec<T>> = Vec::new();
        let mut rank: usize = 0;
        while rank < world
            invariant
                rank <= world,
                world == self.world(),
                *final(self.contexts) == *final(old(self).contexts),
                self.same(old(self)),
                self.faults() == old(self).faults(),
                buffer.wf(),
                buffer.buffers@.len() == world,
                behind <= world,
                are_balanced_ranges(chunks@, buffer.length_per_rank as int, world as int),
                blocks == balanced_bounds(buffer.length_per_rank as int, world as int),
                staged@.len() == rank,
                forall|r: int|
                    0 <= r < rank ==> (#[trigger] staged@[r])@ == buffer.rows()[r].subrange(
                        blocks[(r - behind) % (world as int)].0,
                        blocks[(r - behind) % (world as int)].1,
                    ),
            decreases world - rank,
        {
            let chunk: usize = back(rank, behind, world);
            proof {
                law_balanced_partition(
                    buffer.length_per_rank as int,
                    world as int,
                    chunk as int,
                );
            }
            let start: usize = chunks[chunk].start;
            match self.load_at(
                rank,
                &buffer.buffers[rank],
                start,
                chunks[chunk].end - start,
            ) {
                Ok(values) => {
                    staged.push(values);
                },
                Err(error) => {
                    return Err(error);
                },
            }
            rank = rank + 1;
        }
        Ok(staged)
    }

    /// One step of the reducing round. `whole` says that the scratch buffers are
    /// as long as the chunks.
    fn reduce_step(
        &mut self,
        buffer: &mut DistributedBuffer<T, D>,
        scratch: &mut Vec<D::Buffer>,
        chunks: &Vec<Range<usize>>,
        step: usize,
        whole: bool,
        function: &D::Kernel,
        launches: u32,
    ) -> (result: Result<u32, E>)
        requires
            old(buffer).wf(),
            old(buffer).buffers@.len() == old(self).world(),
            old(scratch)@.len() == old(self).world(),
            roomy::<T, D>(old(scratch)@, old(buffer).length_per_rank as int, whole),
            step + 1 < old(self).world(),
            old(buffer).length_per_rank <= u32::MAX,
            are_balanced_ranges(
                chunks@,
                old(buffer).length_per_rank as int,
                old(self).world(),
            ),
            launches + min_int(old(self).world(), old(buffer).length_per_rank as int) <= u32::MAX,
        ensures
            *final(final(self).contexts) == *final(old(self).contexts),
            final(self).same(old(self)),
            asked_of(
                old(self).faults(),
                final(self).faults(),
                |on: int, call: DeviceCall|
                    call.within(max_int(old(buffer).length_per_rank as int, 1)),
            ),
            final(buffer).same_shape(old(buffer)),
            final(scratch)@.len() == old(scratch)@.len(),
            forall|i: int|
                0 <= i < old(scratch)@.len() ==> D::values(
                    &#[trigger] final(scratch)@[i],
                ).len() == D::values(&old(scratch)@[i]).len(),
            kept(result, old(self).faults(), final(self).faults()),
            result matches Ok(total) ==> {
                &&& final(buffer).rows() == stepped(
                    old(buffer).rows(),
                    balanced_bounds(old(buffer).length_per_rank as int, old(self).world()),
                    -1,
                    step as int,
                    true,
                    D::reduction(function),
                )
                &&& total == launches + min_int(
                    old(self).world(),
                    old(buffer).length_per_rank as int,
                )
            },
    {
        let world: usize = self.world_size();
        let length: usize = buffer.length_per_rank;
        let ghost before = buffer.rows();
        let ghost blocks = balanced_bounds(length as int, world as int);
        let ghost reduce = D::reduction(function);
        let ghost wanted = stepped(before, blocks, -1, step as int, true, reduce);
        let ghost filled = min_int(world as int, length as int);
        let ghost first = world - step - 2;
        let staged = match self.stage(&*buffer, chunks, step + 1) {
            Ok(staged) => staged,
            Err(error) => {
                return Err(error);
            },
        };
        let mut total: u32 = launches;
        let mut rank: usize = 0;
        while rank < world
            invariant
                rank <= world,
                world == self.world(),
                step + 1 < world,
                length <= u32::MAX,
                *final(self.contexts) == *final(old(self).contexts),
                self.same(old(self)),
                self.faults() == old(self).faults(),
                buffer.same_shape(old(buffer)),
                buffer.wf(),
                buffer.buffers@.len() == world,
                buffer.length_per_rank == length,
                scratch@.len() == world,
                old(scratch)@.len() == world,
                roomy::<T, D>(old(scratch)@, length as int, whole),
                length == old(buffer).length_per_rank,
                forall|i: int|
                    0 <= i < world ==> D::values(&#[trigger] scratch@[i]).len() == D::values(
                        &old(scratch)@[i],
                    ).len(),
                are_balanced_ranges(chunks@, length as int, world as int),
                before == old(buffer).rows(),
                before.len() == world,
                forall|r: int| 0 <= r < world ==> (#[trigger] before[r]).len() == length,
                blocks == balanced_bounds(length as int, world as int),
                reduce == D::reduction(function),
                wanted == stepped(before, blocks, -1, step as int, true, reduce),
                filled == min_int(world as int, length as int),
                first == world - step - 2,
                launches + filled <= u32::MAX,
                staged@.len() == world,
                forall|r: int|
                    0 <= r < world ==> (#[trigger] staged@[r])@ == before[r].subrange(
                        blocks[(r - (step + 1)) % (world as int)].0,
                        blocks[(r - (step + 1)) % (world as int)].1,
                    ),
                forall|r: int|
                    0 <= r < world ==> #[trigger] buffer.rows()[r] == (if r < rank {
                        wanted[r]
                    } else {
                        before[r]
                    }),
                total == launches + filled_so_far(rank as int, first, filled, world as int),
            decreases world - rank,
        {
            let source: usize = back(rank, 1, world);
            let chunk: usize = back(rank, step + 2, world);
            let start: usize = chunks[chunk].start;
            let end: usize = chunks[chunk].end;
            let ghost was = buffer.rows();
            proof {
                lemma_wrapped(rank - 1, world as int);
                lemma_wrapped(rank - (step + 2), world as int);
                lemma_wrapped(source - (step + 1), world as int);
                assert(chunk == (source - (step + 1)) % (world as int));
                assert(chunk == incoming(rank as int, -1, step as int, world as int));
                law_balanced_partition(length as int, world as int, chunk as int);
                lemma_chunk_filled(length as int, world as int, chunk as int);
                assert(staged@[source as int]@ == before[source as int].subrange(
                    start as int,
                    end as int,
                ));
                assert(buffer.rows()[rank as int] == before[rank as int]);
                assert(wanted[rank as int] == reduced_into(
                    before[rank as int],
                    start as int,
                    staged@[source as int]@,
                    reduce,
                ));
            }
            proof {
                let needed = balanced_len(length as int, world as int, chunk as int);
                assert(end - start == needed);
                assert(needed <= D::values(&old(scratch)@[rank as int]).len());
            }
            if start != end {
                if whole {
                    match self.store_on(rank, &mut scratch[rank], staged[source].as_slice()) {
                        Ok(()) => {},
                        Err(error) => {
                            return Err(error);
                        },
                    }
                } else {
                    match self.store_at(rank, &mut scratch[rank], 0, staged[source].as_slice()) {
                        Ok(()) => {},
                        Err(error) => {
                            return Err(error);
                        },
                    }
                }
                assert(D::values(&scratch@[rank as int]).take(end - start)
                    =~= staged@[source as int]@);
                let launch = D::prepare_reduction((end - start) as u32, start as u32);
                match self.reduce_on(
                    rank,
                    function,
                    &launch,
                    &scratch[rank],
                    &mut buffer.buffers[rank],
                ) {
                    Ok(()) => {},
                    Err(error) => {
                        return Err(error);
                    },
                }
                total = total + 1;
            } else {
                assert(reduced_into(
                    before[rank as int],
                    start as int,
                    staged@[source as int]@,
                    reduce,
                ) =~= before[rank as int]);
            }
            assert(buffer.rows() =~= was.update(rank as int, wanted[rank as int]));
            rank = rank + 1;
        }
        assert(buffer.rows() =~= wanted);
        Ok(total)
    }

    /// One step of the round that shares the chunks out.
    fn share_step(
        &mut self,
        buffer: &mut DistributedBuffer<T, D>,
        chunks: &Vec<Range<usize>>,
        step: usize,
        Ghost(reduce): Ghost<spec_fn(T, T) -> T>,
    ) -> (result: Result<(), E>)
        requires
            old(buffer).wf(),
            old(buffer).buffers@.len() == old(self).world(),
            step + 1 < old(self).world(),
            are_balanced_ranges(
                chunks@,
                old(buffer).length_per_rank as int,
                old(self).world(),
            ),
        ensures
            *final(final(self).contexts) == *final(old(self).contexts),
            final(self).same(old(self)),
            asked_of(
                old(self).faults(),
                final(self).faults(),
                |on: int, call: DeviceCall|
                    call.within(old(buffer).length_per_rank as int),
            ),
            final(buffer).same_shape(old(buffer)),
            kept(result, old(self).faults(), final(self).faults()),
            result is Ok ==> final(buffer).rows() == stepped(
                old(buffer).rows(),
                balanced_bounds(old(buffer).length_per_rank as int, old(self).world()),
                0,
                step as int,
                false,
                reduce,
            ),
    {
        let world: usize = self.world_size();
        let length: usize = buffer.length_per_rank;
        let ghost before = buffer.rows();
        let ghost blocks = balanced_bounds(length as int, world as int);
        let ghost wanted = stepped(before, blocks, 0, step as int, false, reduce);
        let staged = match self.stage(&*buffer, chunks, step) {
            Ok(staged) => staged,
            Err(error) => {
                return Err(error);
            },
        };
        let mut rank: usize = 0;
        while rank < world
            invariant
                rank <= world,
                world == self.world(),
                step + 1 < world,
                *final(self.contexts) == *final(old(self).contexts),
                self.same(old(self)),
                self.faults() == old(self).faults(),
                buffer.same_shape(old(buffer)),
                buffer.wf(),
                buffer.buffers@.len() == world,
                buffer.length_per_rank == length,
                are_balanced_ranges(chunks@, length as int, world as int),
                before == old(buffer).rows(),
                before.len() == world,
                forall|r: int| 0 <= r < world ==> (#[trigger] before[r]).len() == length,
                blocks == balanced_bounds(length as int, world as int),
                wanted == stepped(before, blocks, 0, step as int, false, reduce),
                staged@.len() == world,
                forall|r: int|
                    0 <= r < world ==> (#[trigger] staged@[r])@ == before[r].subrange(
                        blocks[(r - step) % (world as int)].0,
                        blocks[(r - step) % (world as int)].1,
                    ),
                forall|r: int|
                    0 <= r < world ==> #[trigger] buffer.rows()[r] == (if r < rank {
                        wanted[r]
                    } else {
                        before[r]
                    }),
            decreases world - rank,
        {
            let source: usize = back(rank, 1, world);
            let chunk: usize = back(rank, step + 1, world);
            let start: usize = chunks[chunk].start;
            let end: usize = chunks[chunk].end;
            let ghost was = buffer.rows();
            proof {
                lemma_wrapped(rank - 1, world as int);
                lemma_wrapped(rank - (step + 1), world as int);
                lemma_wrapped(source - step, world as int);
                assert(chunk == (source - step) % (world as int));
                assert(chunk == incoming(rank as int, 0, step as int, world as int));
                law_balanced_partition(length as int, world as int, chunk as int);
                assert(staged@[source as int]@ == before[source as int].subrange(
                    start as int,
                    end as int,
                ));
                assert(buffer.rows()[rank as int] == before[rank as int]);
                assert(wanted[rank as int] == overwritten(
                    before[rank as int],
                    start as int,
                    staged@[source as int]@,
                ));
            }
            if start != end {
                match self.store_at(
                    rank,
                    &mut buffer.buffers[rank],
                    start,
                    staged[source].as_slice(),
                ) {
                    Ok(()) => {},
                    Err(error) => {
                        return Err(error);
                    },
                }
            } else {
                assert(overwritten(
                    before[rank as int],
                    start as int,
                    staged@[source as int]@,
                ) =~= before[rank as int]);
            }
            assert(buffer.rows() =~= was.update(rank as int, wanted[rank as int]));
            rank = rank + 1;
        }
        assert(buffer.rows() =~= wanted);
        Ok(())
    }

    /// A scratch buffer on every rank.
    fn scratch_buffers(&mut self, length: usize) -> (result: Result<Vec<D::Buffer>, E>)
        ensures
            *final(final(self).contexts) == *final(old(self).contexts),
            final(self).same(old(self)),
            asked_of(
                old(self).faults(),
                final(self).faults(),
                |on: int, call: DeviceCall|
                    call == (DeviceCall::Allocate { length: length as nat }),
            ),
            kept(result, old(self).faults(), final(self).faults()),
            result matches Ok(scratch) ==> {
                &&& scratch@.len() == old(self).world()
                &&& forall|i: int|
                    0 <= i < scratch@.len() ==> D::values(&#[trigger] scratch@[i]).len() == length
            },
    {
        match self.allocate(length) {
            Ok(buffer) => Ok(buffer.buffers),
            Err(error) => Err(error),
        }
    }

    /// The reducing round.
    fn reduce_round(
        &mut self,
        buffer: &mut DistributedBuffer<T, D>,
        scratch: &mut Vec<D::Buffer>,
        chunks: &Vec<Range<usize>>,
        whole: bool,
        function: &D::Kernel,
    ) -> (result: Result<u32, E>)
        requires
            0 < old(self).world(),
            old(buffer).wf(),
            old(buffer).buffers@.len() == old(self).world(),
            old(scratch)@.len() == old(self).world(),
            roomy::<T, D>(old(scratch)@, old(buffer).length_per_rank as int, whole),
            old(buffer).length_per_rank <= u32::MAX,
            are_balanced_ranges(
                chunks@,
                old(buffer).length_per_rank as int,
                old(self).world(),
            ),
            (old(self).world() - 1) * min_int(
                old(self).world(),
                old(buffer).length_per_rank as int,
            ) <= u32::MAX,
        ensures
            *final(final(self).contexts) == *final(old(self).contexts),
            final(self).same(old(self)),
            asked_of(
                old(self).faults(),
                final(self).faults(),
                |on: int, call: DeviceCall|
                    call.within(max_int(old(buffer).length_per_rank as int, 1)),
            ),
            final(buffer).same_shape(old(buffer)),
            kept(result, old(self).faults(), final(self).faults()),
            result matches Ok(launches) ==> {
                &&& final(buffer).rows() == rounds(
                    old(buffer).rows(),
                    balanced_bounds(old(buffer).length_per_rank as int, old(self).world()),
                    -1,
                    old(self).world() - 1,
                    true,
                    D::reduction(function),
                )
                &&& launches == (old(self).world() - 1) * min_int(
                    old(self).world(),
                    old(buffer).length_per_rank as int,
                )
            },
    {
        let world: usize = self.world_size();
        let ghost length = buffer.length_per_rank as int;
        let ghost before = buffer.rows();
        let ghost blocks = balanced_bounds(length, world as int);
        let ghost reduce = D::reduction(function);
        let ghost filled = min_int(world as int, length);
        let mut launches: u32 = 0;
        let mut step: usize = 0;
        assert(0 * filled == 0) by (nonlinear_arith);
        while step < world - 1
            invariant
                step <= world - 1,
                world == self.world(),
                *final(self.contexts) == *final(old(self).contexts),
                self.same(old(self)),
                self.faults() == old(self).faults(),
                buffer.same_shape(old(buffer)),
                buffer.wf(),
                buffer.buffers@.len() == world,
                buffer.length_per_rank == length,
                length <= u32::MAX,
                scratch@.len() == world,
                old(scratch)@.len() == world,
                roomy::<T, D>(scratch@, length, whole),
                length == old(buffer).length_per_rank,
                are_balanced_ranges(chunks@, length, world as int),
                before == old(buffer).rows(),
                blocks == balanced_bounds(length, world as int),
                reduce == D::reduction(function),
                filled == min_int(world as int, length),
                (world - 1) * filled <= u32::MAX,
                buffer.rows() == rounds(before, blocks, -1, step as int, true, reduce),
                launches == step * filled,
            decreases world - 1 - step,
        {
            proof {
                assert((step + 1) * filled == step * filled + filled) by (nonlinear_arith);
                assert((step + 1) * filled <= (world - 1) * filled) by (nonlinear_arith)
                    requires
                        step + 1 <= world - 1,
                        0 <= filled,
                ;
            }
            launches = match self.reduce_step(
                buffer,
                scratch,
                chunks,
                step,
                whole,
                function,
                launches,
            ) {
                Ok(launches) => launches,
                Err(error) => {
                    return Err(error);
                },
            };
            assert(roomy::<T, D>(scratch@, length, whole));
            step = step + 1;
        }
        Ok(launches)
    }

    pub fn all_reduce_sum(&mut self, buffer: &mut DistributedBuffer<T, D>, function: &D::Kernel) -> (
    result: Result<CollectiveStats, E>)
        requires
            old(buffer).wf(),
            2 * (old(self).world() - 1) <= u32::MAX,
            (old(self).world() - 1) * min_int(
                old(self).world(),
                old(buffer).length_per_rank as int,
            ) <= u32::MAX,
        ensures
            *final(final(self).contexts) == *final(old(self).contexts),
            final(self).same(old(self)),
            asked_of(
                old(self).faults(),
                final(self).faults(),
                |on: int, call: DeviceCall|
                    call.within(max_int(old(buffer).length_per_rank as int, 1)),
            ),
            final(buffer).same_shape(old(buffer)),
            settled(
                all_reduce_model(
                    old(self).id,
                    old(self).world(),
                    &*old(buffer),
                    D::reduction(function),
                ),
                old(self).faults(),
                final(self).faults(),
                placed(result, final(buffer).rows()),
            ),
            left(
                all_reduce_defect(old(self).id, old(self).world(), &*old(buffer)),
                old(buffer).rows(),
                all_reduced(
                    old(buffer).rows(),
                    old(buffer).length_per_rank as int,
                    D::reduction(function),
                ),
                old(self).faults(),
                final(self).faults(),
                final(buffer).rows(),
            ),
    {
        match self.validate_buffer(&*buffer) {
            Ok(()) => {},
            Err(error) => {
                return Err(E::from(error));
            },
        }
        let world: usize = self.world_size();
        let mut stats = CollectiveStats::new(CollectiveAlgorithm::Ring);
        if world == 1 {
            return Ok(stats);
        }
        let length: usize = buffer.length_per_rank;
        if length > u32::MAX as usize {
            return Err(
                E::from(InProcessError::InvalidLength("GX kernels use u32 element indices")),
            );
        }
        let chunks = match ring_chunks(length as u32, world) {
            Ok(chunks) => chunks,
            Err(error) => {
                return Err(E::from(error));
            },
        };
        let ghost before = buffer.rows();
        let ghost blocks = balanced_bounds(length as int, world as int);
        let ghost reduce = D::reduction(function);
        proof {
            law_balanced_partition(length as int, world as int, 0);
        }
        let most: usize = chunks[0].end;
        let mut scratch = match self.scratch_buffers(
            if most < 1 {
                1
            } else {
                most
            },
        ) {
            Ok(scratch) => scratch,
            Err(error) => {
                proof {
                    lemma_faulted(old(self).faults(), self.faults(), error);
                }
                return Err(error);
            },
        };
        proof {
            assert forall|rank: int, chunk: int|
                #![trigger D::values(&scratch@[rank]), balanced_len(length as int, world as int, chunk)]
                0 <= rank < world && 0 <= chunk < world implies {
                let room = D::values(&scratch@[rank]).len();
                let needed = balanced_len(length as int, world as int, chunk);
                needed <= room <= max_int(length as int, 1)
            } by {
                law_balanced_partition(length as int, world as int, 0);
            }
        }
        stats.reduction_kernel_launches = match self.reduce_round(
            buffer,
            &mut scratch,
            &chunks,
            false,
            function,
        ) {
            Ok(launches) => launches,
            Err(error) => {
                proof {
                    lemma_faulted(old(self).faults(), self.faults(), error);
                }
                return Err(error);
            },
        };
        let ghost reduced = buffer.rows();
        let mut step: usize = 0;
        while step < world - 1
            invariant
                step <= world - 1,
                1 < world == self.world(),
                all_reduce_defect(old(self).id, old(self).world(), &*old(buffer)) is None,
                *final(self.contexts) == *final(old(self).contexts),
                self.same(old(self)),
                self.faults() == old(self).faults(),
                buffer.same_shape(old(buffer)),
                buffer.wf(),
                buffer.buffers@.len() == world,
                buffer.length_per_rank == length,
                length == old(buffer).length_per_rank,
                are_balanced_ranges(chunks@, length as int, world as int),
                blocks == balanced_bounds(length as int, world as int),
                buffer.rows() == rounds(reduced, blocks, 0, step as int, false, reduce),
            decreases world - 1 - step,
        {
            match self.share_step(buffer, &chunks, step, Ghost(reduce)) {
                Ok(()) => {},
                Err(error) => {
                    proof {
                        lemma_faulted(old(self).faults(), self.faults(), error);
                    }
                    return Err(error);
                },
            }
            step = step + 1;
        }
        proof {
            let wanted = ring_sum(before, length as int, reduce);
            assert forall|r: int| 0 <= r < world implies (#[trigger] before[r]).len() == length by {
                assert(D::values(&old(buffer).buffers@[r]).len() == length);
            }
            lemma_arranged(before, length as int);
            assert forall|r: int| 0 <= r < world implies #[trigger] buffer.rows()[r]
                == wanted by {
                assert(D::values(&buffer.buffers@[r]).len() == length);
                assert forall|x: int| 0 <= x < length implies buffer.rows()[r][x]
                    == wanted[x] by {
                    lemma_balanced_owner(length as int, world as int, x);
                    let owner = balanced_owner(length as int, world as int, x);
                    assert(in_block(blocks, owner, x));
                    law_two_rounds(before, blocks, length as int, -1, r, owner, x, reduce);
                }
                assert(buffer.rows()[r] =~= wanted);
            }
            assert(buffer.rows() =~= Seq::new(world as nat, |rank: int| wanted));
        }
        stats.steps = 2 * (world as u32 - 1);
        stats.transferred_bytes = match transferred_bytes(
            2 * (world - 1),
            length,
            D::ELEMENT_SIZE,
        ) {
            Ok(bytes) => bytes,
            Err(error) => {
                return Err(E::from(error));
            },
        };
        Ok(stats)
    }

    pub fn reduce_scatter_sum(
        &mut self,
        input: &DistributedBuffer<T, D>,
        function: &D::Kernel,
    ) -> (result: Result<(DistributedBuffer<T, D>, CollectiveStats), E>)
        requires
            input.wf(),
            old(self).world() > 0,
            old(self).world() - 1 <= u32::MAX,
            (old(self).world() - 1) * min_int(old(self).world(), input.length_per_rank as int)
                <= u32::MAX,
        ensures
            *final(final(self).contexts) == *final(old(self).contexts),
            final(self).same(old(self)),
            asked_of(
                old(self).faults(),
                final(self).faults(),
                |on: int, call: DeviceCall|
                    call.within(max_int(input.length_per_rank as int, 1)),
            ),
            result is Ok ==> {
                &&& result->Ok_0.0.wf()
                &&& result->Ok_0.0.communicator_id == old(self).id
                &&& result->Ok_0.0.length_per_rank == input.length_per_rank as int / old(
                    self,
                ).world()
            },
            settled(
                reduce_scatter_model(
                    old(self).id,
                    old(self).world(),
                    input,
                    D::reduction(function),
                ),
                old(self).faults(),
                final(self).faults(),
                spread(result),
            ),
    {
        match self.validate_buffer(input) {
            Ok(()) => {},
            Err(error) => {
                return Err(E::from(error));
            },
        }
        let world: usize = self.world_size();
        let length: usize = input.length_per_rank;
        if !is_multiple_of(length, world) {
            return Err(
                E::from(
                    InProcessError::InvalidLength(
                        "reduce-scatter input length must be divisible by world size",
                    ),
                ),
            );
        }
        let output_length: usize = length / world;
        if length > u32::MAX as usize {
            return Err(
                E::from(InProcessError::InvalidLength("GX kernels use u32 element indices")),
            );
        }
        let chunks = match ring_chunks(length as u32, world) {
            Ok(chunks) => chunks,
            Err(error) => {
                return Err(E::from(error));
            },
        };
        let ghost before = input.rows();
        let ghost blocks = balanced_bounds(length as int, world as int);
        let ghost reduce = D::reduction(function);
        let mut working = match self.allocate(length) {
            Ok(working) => working,
            Err(error) => {
                return Err(error);
            },
        };
        let mut rank: usize = 0;
        while rank < world
            invariant
                rank <= world,
                world == self.world(),
                *final(self.contexts) == *final(old(self).contexts),
                self.same(old(self)),
                self.faults() == old(self).faults(),
                foreign(
                    self.id,
                    self.world(),
                    input.communicator_id,
                    input.buffers@.len() as int,
                ) is None,
                before == input.rows(),
                input.wf(),
                input.length_per_rank == length,
                working.wf(),
                working.length_per_rank == length,
                working.buffers@.len() == world,
                forall|r: int| 0 <= r < rank ==> #[trigger] working.rows()[r] == before[r],
            decreases world - rank,
        {
            assert(D::values(&input.buffers@[rank as int]).len() == length);
            assert(D::values(&working.buffers@[rank as int]).len() == length);
            let values = match self.download_rank(input, rank) {
                Ok(values) => values,
                Err(error) => {
                    return Err(error);
                },
            };
            let ghost was = working.rows();
            match self.store_on(rank, &mut working.buffers[rank], values.as_slice()) {
                Ok(()) => {},
                Err(error) => {
                    return Err(error);
                },
            }
            assert(working.rows() =~= was.update(rank as int, before[rank as int]));
            rank = rank + 1;
        }
        assert(working.rows() =~= before);
        let mut scratch = match self.scratch_buffers(output_length) {
            Ok(scratch) => scratch,
            Err(error) => {
                return Err(error);
            },
        };
        let mut stats = CollectiveStats::new(CollectiveAlgorithm::Ring);
        proof {
            assert forall|rank: int, chunk: int|
                #![trigger D::values(&scratch@[rank]), balanced_len(length as int, world as int, chunk)]
                0 <= rank < world && 0 <= chunk < world implies {
                let room = D::values(&scratch@[rank]).len();
                let needed = balanced_len(length as int, world as int, chunk);
                needed == room <= max_int(length as int, 1)
            } by {
                law_balanced_partition(length as int, world as int, chunk);
            }
        }
        stats.reduction_kernel_launches = match self.reduce_round(
            &mut working,
            &mut scratch,
            &chunks,
            true,
            function,
        ) {
            Ok(launches) => launches,
            Err(error) => {
                return Err(error);
            },
        };
        let ghost sum = ring_sum(before, length as int, reduce);
        let ghost wanted = Seq::new(
            world as nat,
            |rank: int|
                sum.subrange(
                    balanced_start(length as int, world as int, rank),
                    balanced_start(length as int, world as int, rank + 1),
                ),
        );
        proof {
            assert forall|r: int| 0 <= r < world implies (#[trigger] before[r]).len() == length by {
                assert(D::values(&input.buffers@[r]).len() == length);
            }
            lemma_arranged(before, length as int);
        }
        let mut output = match self.allocate(output_length) {
            Ok(output) => output,
            Err(error) => {
                return Err(error);
            },
        };
        let mut rank: usize = 0;
        while rank < world
            invariant
                rank <= world,
                world == self.world(),
                *final(self.contexts) == *final(old(self).contexts),
                self.same(old(self)),
                self.faults() == old(self).faults(),
                are_balanced_ranges(chunks@, length as int, world as int),
                before.len() == world,
                arranged(before, blocks, length as int),
                blocks == balanced_bounds(length as int, world as int),
                sum == ring_sum(before, length as int, reduce),
                wanted == Seq::new(
                    world as nat,
                    |rank: int|
                        sum.subrange(
                            balanced_start(length as int, world as int, rank),
                            balanced_start(length as int, world as int, rank + 1),
                        ),
                ),
                working.wf(),
                working.length_per_rank == length,
                working.buffers@.len() == world,
                working.rows() == rounds(before, blocks, -1, world - 1, true, reduce),
                output.wf(),
                output.communicator_id == old(self).id,
                output.length_per_rank == output_length,
                input.length_per_rank == length,
                output_length <= length,
                forall|r: int|
                    0 <= r < world ==> output_length == #[trigger] balanced_len(
                        length as int,
                        world as int,
                        r,
                    ),
                output.buffers@.len() == world,
                forall|r: int| 0 <= r < rank ==> #[trigger] output.rows()[r] == wanted[r],
            decreases world - rank,
        {
            proof {
                law_balanced_partition(length as int, world as int, rank as int);
                assert(D::values(&working.buffers@[rank as int]).len() == length);
                assert(D::values(&output.buffers@[rank as int]).len() == output_length);
                assert(output_length == balanced_len(length as int, world as int, rank as int));
            }
            let start: usize = chunks[rank].start;
            let end: usize = chunks[rank].end;
            let values = match self.load_at(rank, &working.buffers[rank], start, end - start) {
                Ok(values) => values,
                Err(error) => {
                    return Err(error);
                },
            };
            proof {
                let held = working.rows()[rank as int];
                assert forall|x: int| start <= x < end implies held[x] == sum[x] by {
                    lemma_balanced_owner(length as int, world as int, x);
                    let owner = balanced_owner(length as int, world as int, x);
                    assert(in_block(blocks, owner, x));
                    assert(in_block(blocks, rank as int, x));
                    lemma_whole_at(
                        before,
                        blocks,
                        length as int,
                        -1,
                        rank as int,
                        x,
                        reduce,
                    );
                    lemma_small_mod(rank as nat, world as nat);
                }
                assert(values@ =~= wanted[rank as int]);
            }
            let ghost was = output.rows();
            match self.store_on(rank, &mut output.buffers[rank], values.as_slice()) {
                Ok(()) => {},
                Err(error) => {
                    return Err(error);
                },
            }
            assert(output.rows() =~= was.update(rank as int, wanted[rank as int]));
            rank = rank + 1;
        }
        assert(output.rows() =~= wanted);
        stats.steps = (world - 1) as u32;
        stats.transferred_bytes = match transferred_bytes(world - 1, length, D::ELEMENT_SIZE) {
            Ok(bytes) => bytes,
            Err(error) => {
                return Err(E::from(error));
            },
        };
        Ok((output, stats))
    }
}

} // verus!

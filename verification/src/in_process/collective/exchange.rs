//! Exchanges that reduce nothing.

use crate::in_process::buffer::{DistributedBuffer, RootedBuffer};
use crate::in_process::collective::blocks::{
    block_is, lemma_all_blocks, lemma_block_fits, lemma_block_read, lemma_block_written,
    lemma_wrapped, wrapped,
};
use crate::in_process::collective::memory::rank_defect;
use crate::in_process::collective::{
    asked_of, bytes_moved, cost, foreign, kept, lemma_faulted, outside, rooted_defect, settled,
    transferred_bytes, InProcessCollective, PointToPointTransfer,
};
use crate::in_process::device::InProcessDevice;
use crate::in_process::error::InProcessError;
use crate::math::{is_multiple_of, multiple_of, saturate_usize, saturating_mul_usize};
use crate::rank::device::{overwritten, DeviceCall};
use crate::rank::device_collective::ring::back;
use crate::rank::layout::laid_out;
use crate::rank::{CollectiveAlgorithm, CollectiveStats};
use vstd::arithmetic::div_mod::*;
use vstd::prelude::*;

verus! {

/// One step where there is another rank at all.
pub open spec fn single_step(world: int) -> int {
    if world > 1 {
        1
    } else {
        0
    }
}

/// The other ranks.
pub open spec fn others(world: int) -> int {
    if world == 0 {
        0
    } else {
        world - 1
    }
}

/// A collective's value with its cost, unless the bytes do not fit.
pub open spec fn costed<R>(
    value: R,
    algorithm: CollectiveAlgorithm,
    steps: int,
    bytes: Result<u64, InProcessError>,
    launches: int,
) -> Result<(R, CollectiveStats), InProcessError> {
    match bytes {
        Ok(bytes) => Ok((value, cost(algorithm, steps, bytes, launches))),
        Err(error) => Err(error),
    }
}

/// A collective in place: what the buffer holds, and the cost.
pub open spec fn placed<R, E>(result: Result<CollectiveStats, E>, value: R) -> Result<
    (R, CollectiveStats),
    E,
> {
    match result {
        Ok(stats) => Ok((value, stats)),
        Err(error) => Err(error),
    }
}

/// What a new distributed buffer holds, and the cost.
pub open spec fn spread<T, D: InProcessDevice<T>, E>(
    result: Result<(DistributedBuffer<T, D>, CollectiveStats), E>,
) -> Result<(Seq<Seq<T>>, CollectiveStats), E> {
    match result {
        Ok((buffer, stats)) => Ok((buffer.rows(), stats)),
        Err(error) => Err(error),
    }
}

/// What a new rooted buffer holds, and the cost.
pub open spec fn collected<T, D: InProcessDevice<T>, E>(
    result: Result<(RootedBuffer<T, D>, CollectiveStats), E>,
) -> Result<(Seq<T>, CollectiveStats), E> {
    match result {
        Ok((buffer, stats)) => Ok((D::values(&buffer.buffer), stats)),
        Err(error) => Err(error),
    }
}

/// Every rank holds what the root held.
pub open spec fn broadcast_model<T, D: InProcessDevice<T>>(
    id: u64,
    world: int,
    buffer: &DistributedBuffer<T, D>,
    root: usize,
) -> Result<(Seq<Seq<T>>, CollectiveStats), InProcessError> {
    match rank_defect(id, world, buffer, root) {
        Some(defect) => Err(defect),
        None => costed(
            Seq::new(world as nat, |rank: int| buffer.rows()[root as int]),
            CollectiveAlgorithm::Direct,
            single_step(world),
            bytes_moved(others(world), buffer.length_per_rank as int, D::ELEMENT_SIZE as int),
            0,
        ),
    }
}

/// Every rank holds every rank's elements, in rank order.
pub open spec fn all_gather_model<T, D: InProcessDevice<T>>(
    id: u64,
    world: int,
    input: &DistributedBuffer<T, D>,
) -> Result<(Seq<Seq<T>>, CollectiveStats), InProcessError> {
    match foreign(id, world, input.communicator_id, input.buffers@.len() as int) {
        Some(defect) => Err(defect),
        None => if input.length_per_rank * world > usize::MAX {
            Err(InProcessError::Overflow("all-gather output length"))
        } else {
            costed(
                Seq::new(world as nat, |rank: int| laid_out(input.rows())),
                CollectiveAlgorithm::Ring,
                others(world),
                bytes_moved(
                    saturate_usize(world * others(world)) as int,
                    input.length_per_rank as int,
                    D::ELEMENT_SIZE as int,
                ),
                0,
            )
        },
    }
}

/// The root holds every rank's elements, in rank order.
pub open spec fn gather_model<T, D: InProcessDevice<T>>(
    id: u64,
    world: int,
    input: &DistributedBuffer<T, D>,
    root: usize,
) -> Result<(Seq<T>, CollectiveStats), InProcessError> {
    match foreign(id, world, input.communicator_id, input.buffers@.len() as int) {
        Some(defect) => Err(defect),
        None => if input.length_per_rank * world > usize::MAX {
            Err(InProcessError::Overflow("gather output length"))
        } else {
            match outside(root, world) {
                Some(defect) => Err(defect),
                None => costed(
                    laid_out(input.rows()),
                    CollectiveAlgorithm::Direct,
                    single_step(world),
                    bytes_moved(
                        others(world),
                        input.length_per_rank as int,
                        D::ELEMENT_SIZE as int,
                    ),
                    0,
                ),
            }
        },
    }
}

/// The parts of an input, one for each rank.
pub open spec fn shares<T>(values: Seq<T>, width: int, ranks: int) -> Seq<Seq<T>> {
    Seq::new(ranks as nat, |rank: int| values.subrange(rank * width, rank * width + width))
}

/// Every rank holds its share of the root's elements.
pub open spec fn scatter_model<T, D: InProcessDevice<T>>(
    id: u64,
    world: int,
    input: &RootedBuffer<T, D>,
) -> Result<(Seq<Seq<T>>, CollectiveStats), InProcessError> {
    let values = D::values(&input.buffer);
    let width = values.len() as int / world;
    match rooted_defect(id, world, input.communicator_id, input.root) {
        Some(defect) => Err(defect),
        None => if !multiple_of(values.len() as int, world) {
            Err(
                InProcessError::InvalidLength(
                    "scatter input length must be divisible by world size",
                ),
            )
        } else {
            costed(
                shares(values, width, world),
                CollectiveAlgorithm::Direct,
                single_step(world),
                bytes_moved(others(world), width, D::ELEMENT_SIZE as int),
                0,
            )
        },
    }
}

/// Why a transfer between buffers of these lengths is refused, if it is.
pub open spec fn transfer_defect(
    world: int,
    source_length: int,
    destination_length: int,
    transfer: PointToPointTransfer,
) -> Option<InProcessError> {
    let start = transfer.source_range.start as int;
    let end = transfer.source_range.end as int;
    match outside(transfer.source_rank, world) {
        Some(defect) => Some(defect),
        None => match outside(transfer.destination_rank, world) {
            Some(defect) => Some(defect),
            None => if start > end || end > source_length {
                Some(InProcessError::InvalidLength("send source range is outside the rank buffer"))
            } else if transfer.destination_offset + (end - start) > usize::MAX {
                Some(InProcessError::Overflow("send destination range"))
            } else if transfer.destination_offset + (end - start) > destination_length {
                Some(
                    InProcessError::InvalidLength(
                        "receive destination range is outside the rank buffer",
                    ),
                )
            } else {
                None
            },
        },
    }
}

/// A part of a source rank's elements is written over a destination rank's.
pub open spec fn transferred<T>(
    source: Seq<Seq<T>>,
    destination: Seq<Seq<T>>,
    transfer: PointToPointTransfer,
) -> Seq<Seq<T>> {
    let to = transfer.destination_rank as int;
    destination.update(
        to,
        overwritten(
            destination[to],
            transfer.destination_offset as int,
            source[transfer.source_rank as int].subrange(
                transfer.source_range.start as int,
                transfer.source_range.end as int,
            ),
        ),
    )
}

/// Why a transfer between two distributed buffers is refused, if it is.
pub open spec fn send_recv_defect<T, D: InProcessDevice<T>>(
    id: u64,
    world: int,
    source: &DistributedBuffer<T, D>,
    destination: &DistributedBuffer<T, D>,
    transfer: PointToPointTransfer,
) -> Option<InProcessError> {
    match foreign(id, world, source.communicator_id, source.buffers@.len() as int) {
        Some(defect) => Some(defect),
        None => match foreign(
            id,
            world,
            destination.communicator_id,
            destination.buffers@.len() as int,
        ) {
            Some(defect) => Some(defect),
            None => transfer_defect(
                world,
                source.length_per_rank as int,
                destination.length_per_rank as int,
                transfer,
            ),
        },
    }
}

/// A transfer between two distributed buffers.
pub open spec fn send_recv_model<T, D: InProcessDevice<T>>(
    id: u64,
    world: int,
    source: &DistributedBuffer<T, D>,
    destination: &DistributedBuffer<T, D>,
    transfer: PointToPointTransfer,
) -> Result<(Seq<Seq<T>>, CollectiveStats), InProcessError> {
    let moved = transfer.source_range.end - transfer.source_range.start;
    match send_recv_defect(id, world, source, destination, transfer) {
        Some(defect) => Err(defect),
        None => costed(
            transferred(source.rows(), destination.rows(), transfer),
            CollectiveAlgorithm::Direct,
            if moved == 0 {
                0
            } else {
                1
            },
            bytes_moved(1, moved, D::ELEMENT_SIZE as int),
            0,
        ),
    }
}

/// What a call in place leaves where no device failed: the old rows where it
/// was refused, the new ones where only its cost cannot be counted.
pub open spec fn left<T, X>(
    defect: Option<InProcessError>,
    old_rows: Seq<Seq<T>>,
    new_rows: Seq<Seq<T>>,
    faults: Seq<Seq<X>>,
    now: Seq<Seq<X>>,
    rows: Seq<Seq<T>>,
) -> bool {
    match defect {
        Some(_) => rows == old_rows && now == faults,
        None => now == faults ==> rows == new_rows,
    }
}

/// The calls that a transfer makes: the source's part is read, and written to the
/// destination.
pub open spec fn transfer_call<T>(
    on: int,
    call: DeviceCall,
    source: Seq<Seq<T>>,
    destination: Seq<Seq<T>>,
    transfer: PointToPointTransfer,
) -> bool {
    let length = transfer.source_range.end - transfer.source_range.start;
    ||| on == transfer.source_rank && call == (DeviceCall::LoadAt {
        held: source[on].len(),
        offset: transfer.source_range.start as nat,
        length: length as nat,
    })
    ||| on == transfer.destination_rank && call == (DeviceCall::StoreAt {
        room: destination[on].len(),
        offset: transfer.destination_offset as nat,
        values: length as nat,
    })
}

impl<T, D: InProcessDevice<T>> DistributedBuffer<T, D> {
    /// The same buffer, with other contents.
    pub open spec fn same_shape(&self, other: &Self) -> bool {
        &&& self.communicator_id == other.communicator_id
        &&& self.length_per_rank == other.length_per_rank
        &&& self.buffers@.len() == other.buffers@.len()
        &&& other.wf() ==> self.wf()
    }
}

impl<'a, T, D: InProcessDevice<T>, E> InProcessCollective<'a, T, D, E> where
    E: From<D::Error> + From<InProcessError>,
 {
    pub fn broadcast(&mut self, buffer: &mut DistributedBuffer<T, D>, root: usize) -> (result:
        Result<CollectiveStats, E>)
        ensures
            *final(final(self).contexts) == *final(old(self).contexts),
            final(self).same(old(self)),
            asked_of(
                old(self).faults(),
                final(self).faults(),
                |on: int, call: DeviceCall|
                    {
                        let rows = old(buffer).rows();
                        if on == root {
                            call == (DeviceCall::Load { held: rows[on].len() })
                        } else {
                            call == (DeviceCall::Store {
                                room: rows[on].len(),
                                values: rows[root as int].len(),
                            })
                        }
                    },
            ),
            final(buffer).same_shape(old(buffer)),
            settled(
                broadcast_model(old(self).id, old(self).world(), &*old(buffer), root),
                old(self).faults(),
                final(self).faults(),
                placed(result, final(buffer).rows()),
            ),
            left(
                rank_defect(old(self).id, old(self).world(), &*old(buffer), root),
                old(buffer).rows(),
                Seq::new(old(self).world() as nat, |rank: int| old(buffer).rows()[root as int]),
                old(self).faults(),
                final(self).faults(),
                final(buffer).rows(),
            ),
    {
        match self.validate_buffer(&*buffer) {
            Ok(()) => {},
            Err(error) => {
                return Err(E::from(error));
            },
        }
        let root_values = match self.download_rank(&*buffer, root) {
            Ok(values) => values,
            Err(error) => {
                proof {
                    if rank_defect(old(self).id, old(self).world(), &*old(buffer), root) is None {
                        lemma_faulted(old(self).faults(), self.faults(), error);
                    }
                }
                return Err(error);
            },
        };
        let world: usize = self.world_size();
        let ghost first = buffer.rows()[root as int];
        let mut rank: usize = 0;
        while rank < world
            invariant
                rank <= world,
                world == self.world(),
                root < world,
                rank_defect(old(self).id, old(self).world(), &*old(buffer), root) is None,
                *final(self.contexts) == *final(old(self).contexts),
                self.same(old(self)),
                self.faults() == old(self).faults(),
                buffer.same_shape(old(buffer)),
                buffer.buffers@.len() == world,
                root_values@ == first,
                first == old(buffer).rows()[root as int],
                forall|i: int|
                    rank <= i < world ==> #[trigger] buffer.rows()[i] == old(buffer).rows()[i],
                buffer.rows()[root as int] == first,
                forall|i: int| 0 <= i < rank ==> #[trigger] buffer.rows()[i] == first,
            decreases world - rank,
        {
            let ghost was = buffer.rows();
            assert(was[rank as int] == old(buffer).rows()[rank as int]);
            if rank != root {
                match self.store_on(rank, &mut buffer.buffers[rank], root_values.as_slice()) {
                    Ok(()) => {},
                    Err(error) => {
                        proof {
                            lemma_faulted(old(self).faults(), self.faults(), error);
                        }
                        return Err(error);
                    },
                }
            }
            assert(buffer.rows() =~= was.update(rank as int, first));
            rank = rank + 1;
        }
        assert(buffer.rows() =~= Seq::new(world as nat, |rank: int| first));
        let mut stats = CollectiveStats::new(CollectiveAlgorithm::Direct);
        if world > 1 {
            stats.steps = 1;
        }
        stats.transferred_bytes = match transferred_bytes(
            world - 1,
            buffer.length_per_rank,
            D::ELEMENT_SIZE,
        ) {
            Ok(bytes) => bytes,
            Err(error) => {
                return Err(E::from(error));
            },
        };
        Ok(stats)
    }

    /// One step of the ring: each rank passes a block on to the next.
    fn pass_blocks(
        &mut self,
        output: &mut DistributedBuffer<T, D>,
        width: usize,
        step: usize,
        Ghost(rows): Ghost<Seq<Seq<T>>>,
    ) -> (result: Result<(), E>)
        requires
            old(output).wf(),
            old(output).buffers@.len() == old(self).world(),
            rows.len() == old(self).world(),
            old(output).length_per_rank == rows.len() * width,
            step + 1 < old(self).world(),
            forall|r: int, b: int|
                0 <= r < rows.len() && 0 <= b < rows.len() && wrapped(r - b, rows.len() as int)
                    <= step ==> #[trigger] block_is(
                    old(output).rows()[r],
                    b,
                    width as int,
                    rows[b],
                ),
        ensures
            *final(final(self).contexts) == *final(old(self).contexts),
            final(self).same(old(self)),
            asked_of(
                old(self).faults(),
                final(self).faults(),
                |on: int, call: DeviceCall|
                    call.within(old(output).length_per_rank as int),
            ),
            final(output).same_shape(old(output)),
            kept(result, old(self).faults(), final(self).faults()),
            result is Ok ==> forall|r: int, b: int|
                0 <= r < rows.len() && 0 <= b < rows.len() && wrapped(r - b, rows.len() as int)
                    <= step + 1 ==> #[trigger] block_is(
                    final(output).rows()[r],
                    b,
                    width as int,
                    rows[b],
                ),
    {
        let world: usize = self.world_size();
        let mut staged: Vec<Vec<T>> = Vec::new();
        let mut rank: usize = 0;
        while rank < world
            invariant
                rank <= world,
                world == self.world(),
                step + 1 < world,
                rows.len() == world,
                *final(self.contexts) == *final(old(self).contexts),
                self.same(old(self)),
                self.faults() == old(self).faults(),
                *output == *old(output),
                output.wf(),
                output.buffers@.len() == world,
                output.length_per_rank == world * width,
                forall|r: int, b: int|
                    0 <= r < world && 0 <= b < world && wrapped(r - b, world as int) <= step
                        ==> #[trigger] block_is(output.rows()[r], b, width as int, rows[b]),
                staged@.len() == rank,
                forall|i: int|
                    0 <= i < rank ==> (#[trigger] staged@[i])@ == rows[wrapped(
                        i - step,
                        world as int,
                    )],
            decreases world - rank,
        {
            let send: usize = back(rank, step, world);
            proof {
                lemma_wrapped(rank - step, world as int);
                lemma_block_fits(send as int, width as int, world as int);
                assert(wrapped(rank - send, world as int) == step);
                assert(block_is(
                    output.rows()[rank as int],
                    send as int,
                    width as int,
                    rows[send as int],
                ));
                assert(D::values(&output.buffers@[rank as int]).len() == world * width);
                lemma_block_read(
                    output.rows()[rank as int],
                    send as int,
                    width as int,
                    rows[send as int],
                    world as int,
                );
            }
            match self.load_at(rank, &output.buffers[rank], send * width, width) {
                Ok(values) => {
                    staged.push(values);
                },
                Err(error) => {
                    return Err(error);
                },
            }
            rank = rank + 1;
        }
        assert forall|b: int| 0 <= b < world implies (#[trigger] rows[b]).len() == width by {
            assert(block_is(output.rows()[b], b, width as int, rows[b]));
        }
        let mut rank: usize = 0;
        while rank < world
            invariant
                rank <= world,
                world == self.world(),
                step + 1 < world,
                rows.len() == world,
                *final(self.contexts) == *final(old(self).contexts),
                self.same(old(self)),
                self.faults() == old(self).faults(),
                output.same_shape(old(output)),
                output.wf(),
                output.buffers@.len() == world,
                output.length_per_rank == world * width,
                staged@.len() == world,
                forall|i: int|
                    0 <= i < world ==> (#[trigger] staged@[i])@ == rows[wrapped(
                        i - step,
                        world as int,
                    )],
                forall|b: int| 0 <= b < world ==> (#[trigger] rows[b]).len() == width,
                forall|r: int, b: int|
                    0 <= r < world && 0 <= b < world && wrapped(r - b, world as int) <= (if r
                        < rank {
                        step + 1
                    } else {
                        step as int
                    }) ==> #[trigger] block_is(output.rows()[r], b, width as int, rows[b]),
            decreases world - rank,
        {
            let source: usize = back(rank, 1, world);
            let receive: usize = back(rank, step + 1, world);
            let ghost was = output.rows();
            proof {
                lemma_wrapped(rank - 1, world as int);
                lemma_wrapped(rank - (step + 1), world as int);
                lemma_block_fits(receive as int, width as int, world as int);
                assert(wrapped(source - step, world as int) == receive);
                assert(staged@[source as int]@ == rows[receive as int]);
                assert(D::values(&output.buffers@[rank as int]).len() == world * width);
            }
            match self.store_at(
                rank,
                &mut output.buffers[rank],
                receive * width,
                staged[source].as_slice(),
            ) {
                Ok(()) => {},
                Err(error) => {
                    return Err(error);
                },
            }
            proof {
                let now = output.rows();
                assert(now =~= was.update(rank as int, now[rank as int]));
                assert forall|r: int, b: int|
                    0 <= r < world && 0 <= b < world && wrapped(r - b, world as int) <= (if r < rank
                        + 1 {
                        step + 1
                    } else {
                        step as int
                    }) implies #[trigger] block_is(now[r], b, width as int, rows[b]) by {
                    if r == rank {
                        if b != receive {
                            assert(wrapped(r - b, world as int) <= step);
                            assert(block_is(was[r], b, width as int, rows[b]));
                        }
                        lemma_block_written(
                            was[r],
                            receive as int,
                            rows[receive as int],
                            b,
                            rows[b],
                            width as int,
                            world as int,
                        );
                    } else {
                        assert(block_is(was[r], b, width as int, rows[b]));
                    }
                }
            }
            rank = rank + 1;
        }
        Ok(())
    }

    pub fn all_gather(&mut self, input: &DistributedBuffer<T, D>) -> (result: Result<
        (DistributedBuffer<T, D>, CollectiveStats),
        E,
    >)
        requires
            input.wf(),
        ensures
            *final(final(self).contexts) == *final(old(self).contexts),
            final(self).same(old(self)),
            asked_of(
                old(self).faults(),
                final(self).faults(),
                |on: int, call: DeviceCall|
                    call.within(input.length_per_rank * old(self).world()),
            ),
            result is Ok ==> {
                &&& result->Ok_0.0.wf()
                &&& result->Ok_0.0.communicator_id == old(self).id
                &&& result->Ok_0.0.length_per_rank == input.length_per_rank * old(self).world()
            },
            settled(
                all_gather_model(old(self).id, old(self).world(), input),
                old(self).faults(),
                final(self).faults(),
                spread(result),
            ),
    {
        match self.validate_buffer(input) {
            Ok(()) => {},
            Err(error) => {
                return Err(E::from(error));
            },
        }
        let world: usize = self.world_size();
        let width: usize = input.length_per_rank;
        let ghost rows = input.rows();
        let output_length: usize = match width.checked_mul(world) {
            Some(output_length) => output_length,
            None => {
                return Err(E::from(InProcessError::Overflow("all-gather output length")));
            },
        };
        let mut output = match self.allocate(output_length) {
            Ok(output) => output,
            Err(error) => {
                return Err(error);
            },
        };
        assert(width * world == world * width) by (nonlinear_arith);
        assert(0 < world ==> width <= world * width) by (nonlinear_arith);
        let mut rank: usize = 0;
        while rank < world
            invariant
                rank <= world,
                world == self.world(),
                *final(self.contexts) == *final(old(self).contexts),
                self.same(old(self)),
                self.faults() == old(self).faults(),
                foreign(
                    self.id,
                    self.world(),
                    input.communicator_id,
                    input.buffers@.len() as int,
                ) is None,
                input.wf(),
                input.length_per_rank == width,
                input.length_per_rank * old(self).world() == world * width,
                0 < world ==> width <= world * width,
                rows == input.rows(),
                rows.len() == world,
                output.wf(),
                output.communicator_id == old(self).id,
                output.buffers@.len() == world,
                output.length_per_rank == output_length,
                output_length == world * width,
                forall|r: int, b: int|
                    0 <= r < rank && 0 <= b < world && wrapped(r - b, world as int) <= 0
                        ==> #[trigger] block_is(output.rows()[r], b, width as int, rows[b]),
            decreases world - rank,
        {
            assert(D::values(&input.buffers@[rank as int]).len() == width);
            let local = match self.download_rank(input, rank) {
                Ok(local) => local,
                Err(error) => {
                    return Err(error);
                },
            };
            let ghost was = output.rows();
            proof {
                lemma_block_fits(rank as int, width as int, world as int);
                assert(D::values(&output.buffers@[rank as int]).len() == world * width);
                assert(D::values(&input.buffers@[rank as int]).len() == width);
            }
            match self.store_at(
                rank,
                &mut output.buffers[rank],
                rank * width,
                local.as_slice(),
            ) {
                Ok(()) => {},
                Err(error) => {
                    return Err(error);
                },
            }
            proof {
                let now = output.rows();
                assert(now =~= was.update(rank as int, now[rank as int]));
                assert forall|r: int, b: int|
                    0 <= r < rank + 1 && 0 <= b < world && wrapped(r - b, world as int)
                        <= 0 implies #[trigger] block_is(now[r], b, width as int, rows[b]) by {
                    if r == rank {
                        assert(b == rank);
                        lemma_block_written(
                            was[r],
                            r,
                            rows[r],
                            r,
                            rows[r],
                            width as int,
                            world as int,
                        );
                    } else {
                        assert(block_is(was[r], b, width as int, rows[b]));
                    }
                }
            }
            rank = rank + 1;
        }
        let other_ranks: usize = if world == 0 {
            0
        } else {
            world - 1
        };
        let mut step: usize = 0;
        while step < other_ranks
            invariant
                world == self.world(),
                other_ranks == others(world as int),
                step <= other_ranks,
                *final(self.contexts) == *final(old(self).contexts),
                self.same(old(self)),
                self.faults() == old(self).faults(),
                rows.len() == world,
                output.wf(),
                output.communicator_id == old(self).id,
                output.buffers@.len() == world,
                input.length_per_rank * old(self).world() == world * width,
                output.length_per_rank == world * width,
                forall|r: int, b: int|
                    0 <= r < world && 0 <= b < world && wrapped(r - b, world as int) <= step
                        ==> #[trigger] block_is(output.rows()[r], b, width as int, rows[b]),
            decreases other_ranks - step,
        {
            match self.pass_blocks(&mut output, width, step, Ghost(rows)) {
                Ok(()) => {},
                Err(error) => {
                    return Err(error);
                },
            }
            step = step + 1;
        }
        proof {
            assert forall|r: int| 0 <= r < world implies #[trigger] output.rows()[r] == laid_out(
                rows,
            ) by {
                assert(D::values(&output.buffers@[r]).len() == world * width);
                assert forall|b: int| 0 <= b < rows.len() implies #[trigger] block_is(
                    output.rows()[r],
                    b,
                    width as int,
                    rows[b],
                ) by {
                    lemma_wrapped(r - b, world as int);
                }
                lemma_all_blocks(output.rows()[r], width as int, rows);
            }
            assert(output.rows() =~= Seq::new(world as nat, |rank: int| laid_out(rows)));
        }
        let mut stats = CollectiveStats::new(CollectiveAlgorithm::Ring);
        stats.steps = other_ranks as u32;
        stats.transferred_bytes = match transferred_bytes(
            saturating_mul_usize(world, other_ranks),
            width,
            D::ELEMENT_SIZE,
        ) {
            Ok(bytes) => bytes,
            Err(error) => {
                return Err(E::from(error));
            },
        };
        Ok((output, stats))
    }

    pub fn gather(&mut self, input: &DistributedBuffer<T, D>, root: usize) -> (result: Result<
        (RootedBuffer<T, D>, CollectiveStats),
        E,
    >)
        requires
            input.wf(),
        ensures
            *final(final(self).contexts) == *final(old(self).contexts),
            final(self).same(old(self)),
            asked_of(
                old(self).faults(),
                final(self).faults(),
                |on: int, call: DeviceCall|
                    call.within(input.length_per_rank * old(self).world()),
            ),
            result is Ok ==> {
                &&& result->Ok_0.0.communicator_id == old(self).id
                &&& result->Ok_0.0.root == root
            },
            settled(
                gather_model(old(self).id, old(self).world(), input, root),
                old(self).faults(),
                final(self).faults(),
                collected(result),
            ),
    {
        match self.validate_buffer(input) {
            Ok(()) => {},
            Err(error) => {
                return Err(E::from(error));
            },
        }
        let world: usize = self.world_size();
        let width: usize = input.length_per_rank;
        let ghost rows = input.rows();
        let output_length: usize = match width.checked_mul(world) {
            Some(output_length) => output_length,
            None => {
                return Err(E::from(InProcessError::Overflow("gather output length")));
            },
        };
        let mut output = match self.allocate_rooted(root, output_length) {
            Ok(output) => output,
            Err(error) => {
                return Err(error);
            },
        };
        assert(width * world == world * width) by (nonlinear_arith);
        assert(0 < world ==> width <= world * width) by (nonlinear_arith);
        let mut rank: usize = 0;
        while rank < world
            invariant
                rank <= world,
                world == self.world(),
                root < world,
                *final(self.contexts) == *final(old(self).contexts),
                self.same(old(self)),
                self.faults() == old(self).faults(),
                foreign(
                    self.id,
                    self.world(),
                    input.communicator_id,
                    input.buffers@.len() as int,
                ) is None,
                input.wf(),
                input.length_per_rank == width,
                input.length_per_rank * old(self).world() == world * width,
                0 < world ==> width <= world * width,
                rows == input.rows(),
                rows.len() == world,
                output.communicator_id == old(self).id,
                output.root == root,
                D::values(&output.buffer).len() == world * width,
                world * width <= usize::MAX,
                forall|b: int|
                    0 <= b < rank ==> #[trigger] block_is(
                        D::values(&output.buffer),
                        b,
                        width as int,
                        rows[b],
                    ),
            decreases world - rank,
        {
            assert(D::values(&input.buffers@[rank as int]).len() == width);
            let values = match self.download_rank(input, rank) {
                Ok(values) => values,
                Err(error) => {
                    return Err(error);
                },
            };
            let ghost was = D::values(&output.buffer);
            proof {
                lemma_block_fits(rank as int, width as int, world as int);
                assert(D::values(&input.buffers@[rank as int]).len() == width);
            }
            match self.store_at(root, &mut output.buffer, rank * width, values.as_slice()) {
                Ok(()) => {},
                Err(error) => {
                    return Err(error);
                },
            }
            proof {
                assert forall|b: int| 0 <= b < rank + 1 implies #[trigger] block_is(
                    D::values(&output.buffer),
                    b,
                    width as int,
                    rows[b],
                ) by {
                    if b != rank {
                        assert(block_is(was, b, width as int, rows[b]));
                    }
                    lemma_block_written(
                        was,
                        rank as int,
                        rows[rank as int],
                        b,
                        rows[b],
                        width as int,
                        world as int,
                    );
                }
            }
            rank = rank + 1;
        }
        proof {
            lemma_all_blocks(D::values(&output.buffer), width as int, rows);
        }
        let mut stats = CollectiveStats::new(CollectiveAlgorithm::Direct);
        if world > 1 {
            stats.steps = 1;
        }
        stats.transferred_bytes = match transferred_bytes(world - 1, width, D::ELEMENT_SIZE) {
            Ok(bytes) => bytes,
            Err(error) => {
                return Err(E::from(error));
            },
        };
        Ok((output, stats))
    }

    pub fn scatter(&mut self, input: &RootedBuffer<T, D>) -> (result: Result<
        (DistributedBuffer<T, D>, CollectiveStats),
        E,
    >)
        ensures
            *final(final(self).contexts) == *final(old(self).contexts),
            final(self).same(old(self)),
            asked_of(
                old(self).faults(),
                final(self).faults(),
                |on: int, call: DeviceCall|
                    call.within(D::values(&input.buffer).len() as int),
            ),
            result is Ok ==> {
                &&& result->Ok_0.0.wf()
                &&& result->Ok_0.0.communicator_id == old(self).id
                &&& result->Ok_0.0.length_per_rank == D::values(&input.buffer).len() as int / old(
                    self,
                ).world()
            },
            settled(
                scatter_model(old(self).id, old(self).world(), input),
                old(self).faults(),
                final(self).faults(),
                spread(result),
            ),
    {
        match self.validate_rooted_buffer(input) {
            Ok(()) => {},
            Err(error) => {
                return Err(E::from(error));
            },
        }
        let world: usize = self.world_size();
        let length: usize = input.len();
        if !is_multiple_of(length, world) {
            return Err(
                E::from(
                    InProcessError::InvalidLength(
                        "scatter input length must be divisible by world size",
                    ),
                ),
            );
        }
        let width: usize = length / world;
        proof {
            lemma_fundamental_div_mod(length as int, world as int);
        }
        let mut output = match self.allocate(width) {
            Ok(output) => output,
            Err(error) => {
                return Err(error);
            },
        };
        let ghost values = D::values(&input.buffer);
        let ghost wanted = shares(values, width as int, world as int);
        let mut rank: usize = 0;
        while rank < world
            invariant
                rank <= world,
                world == self.world(),
                input.root < world,
                *final(self.contexts) == *final(old(self).contexts),
                self.same(old(self)),
                self.faults() == old(self).faults(),
                values == D::values(&input.buffer),
                values.len() == length,
                length == world * width,
                wanted == shares(values, width as int, world as int),
                output.wf(),
                output.communicator_id == old(self).id,
                output.length_per_rank == width,
                output.buffers@.len() == world,
                forall|i: int| 0 <= i < rank ==> #[trigger] output.rows()[i] == wanted[i],
            decreases world - rank,
        {
            proof {
                lemma_block_fits(rank as int, width as int, world as int);
            }
            let part = match self.load_at(input.root, &input.buffer, rank * width, width) {
                Ok(part) => part,
                Err(error) => {
                    return Err(error);
                },
            };
            let ghost was = output.rows();
            match self.store_on(rank, &mut output.buffers[rank], part.as_slice()) {
                Ok(()) => {},
                Err(error) => {
                    return Err(error);
                },
            }
            assert(output.rows() =~= was.update(rank as int, wanted[rank as int]));
            rank = rank + 1;
        }
        assert(output.rows() =~= wanted);
        let mut stats = CollectiveStats::new(CollectiveAlgorithm::Direct);
        if world > 1 {
            stats.steps = 1;
        }
        stats.transferred_bytes = match transferred_bytes(world - 1, width, D::ELEMENT_SIZE) {
            Ok(bytes) => bytes,
            Err(error) => {
                return Err(E::from(error));
            },
        };
        Ok((output, stats))
    }

    /// Checks a transfer between buffers of these lengths.
    fn check_transfer(
        &self,
        transfer: &PointToPointTransfer,
        source_length: usize,
        destination_length: usize,
    ) -> (result: Result<usize, InProcessError>)
        ensures
            match result {
                Ok(length) => {
                    &&& transfer_defect(
                        self.world(),
                        source_length as int,
                        destination_length as int,
                        *transfer,
                    ) is None
                    &&& transfer.source_rank < self.world()
                    &&& transfer.destination_rank < self.world()
                    &&& transfer.source_range.start <= transfer.source_range.end <= source_length
                    &&& length == transfer.source_range.end - transfer.source_range.start
                    &&& transfer.destination_offset + length <= destination_length
                },
                Err(error) => transfer_defect(
                    self.world(),
                    source_length as int,
                    destination_length as int,
                    *transfer,
                ) == Some(error),
            },
    {
        match self.check_rank(transfer.source_rank) {
            Ok(()) => {},
            Err(error) => {
                return Err(error);
            },
        }
        match self.check_rank(transfer.destination_rank) {
            Ok(()) => {},
            Err(error) => {
                return Err(error);
            },
        }
        if transfer.source_range.start > transfer.source_range.end || transfer.source_range.end
            > source_length {
            return Err(
                InProcessError::InvalidLength("send source range is outside the rank buffer"),
            );
        }
        let length: usize = transfer.source_range.end - transfer.source_range.start;
        match transfer.destination_offset.checked_add(length) {
            Some(end) => {
                if end > destination_length {
                    return Err(
                        InProcessError::InvalidLength(
                            "receive destination range is outside the rank buffer",
                        ),
                    );
                }
            },
            None => {
                return Err(InProcessError::Overflow("send destination range"));
            },
        }
        Ok(length)
    }

    /// Writes what a transfer carries.
    fn deliver(
        &mut self,
        destination: &mut DistributedBuffer<T, D>,
        transfer: &PointToPointTransfer,
        values: &[T],
    ) -> (result: Result<CollectiveStats, E>)
        requires
            transfer.destination_rank < old(self).world(),
            old(destination).buffers@.len() == old(self).world(),
        ensures
            *final(final(self).contexts) == *final(old(self).contexts),
            final(self).same(old(self)),
            asked_of(
                old(self).faults(),
                final(self).faults(),
                |on: int, call: DeviceCall|
                    on == transfer.destination_rank && call == (DeviceCall::StoreAt {
                        room: old(destination).rows()[on].len(),
                        offset: transfer.destination_offset as nat,
                        values: values@.len(),
                    }),
            ),
            final(destination).same_shape(old(destination)),
            settled(
                costed(
                    old(destination).rows().update(
                        transfer.destination_rank as int,
                        overwritten(
                            old(destination).rows()[transfer.destination_rank as int],
                            transfer.destination_offset as int,
                            values@,
                        ),
                    ),
                    CollectiveAlgorithm::Direct,
                    if values@.len() == 0 {
                        0
                    } else {
                        1
                    },
                    bytes_moved(1, values@.len() as int, D::ELEMENT_SIZE as int),
                    0,
                ),
                old(self).faults(),
                final(self).faults(),
                placed(result, final(destination).rows()),
            ),
            left(
                None,
                old(destination).rows(),
                old(destination).rows().update(
                    transfer.destination_rank as int,
                    overwritten(
                        old(destination).rows()[transfer.destination_rank as int],
                        transfer.destination_offset as int,
                        values@,
                    ),
                ),
                old(self).faults(),
                final(self).faults(),
                final(destination).rows(),
            ),
    {
        let to: usize = transfer.destination_rank;
        let ghost was = destination.rows();
        match self.store_at(
            to,
            &mut destination.buffers[to],
            transfer.destination_offset,
            values,
        ) {
            Ok(()) => {},
            Err(error) => {
                proof {
                    lemma_faulted(old(self).faults(), self.faults(), error);
                }
                return Err(error);
            },
        }
        assert(destination.rows() =~= was.update(
            to as int,
            overwritten(was[to as int], transfer.destination_offset as int, values@),
        ));
        let mut stats = CollectiveStats::new(CollectiveAlgorithm::Direct);
        if values.len() != 0 {
            stats.steps = 1;
        }
        stats.transferred_bytes = match transferred_bytes(1, values.len(), D::ELEMENT_SIZE) {
            Ok(bytes) => bytes,
            Err(error) => {
                return Err(E::from(error));
            },
        };
        Ok(stats)
    }

    /// A tagged transfer between two rank-local buffers. It is synchronous here;
    /// network transports match send and receive by the tag.
    pub fn send_recv(
        &mut self,
        source: &DistributedBuffer<T, D>,
        destination: &mut DistributedBuffer<T, D>,
        transfer: PointToPointTransfer,
    ) -> (result: Result<CollectiveStats, E>)
        ensures
            *final(final(self).contexts) == *final(old(self).contexts),
            final(self).same(old(self)),
            asked_of(
                old(self).faults(),
                final(self).faults(),
                |on: int, call: DeviceCall|
                    transfer_call(on, call, source.rows(), old(destination).rows(), transfer),
            ),
            final(destination).same_shape(old(destination)),
            settled(
                send_recv_model(
                    old(self).id,
                    old(self).world(),
                    source,
                    &*old(destination),
                    transfer,
                ),
                old(self).faults(),
                final(self).faults(),
                placed(result, final(destination).rows()),
            ),
            left(
                send_recv_defect(
                    old(self).id,
                    old(self).world(),
                    source,
                    &*old(destination),
                    transfer,
                ),
                old(destination).rows(),
                transferred(source.rows(), old(destination).rows(), transfer),
                old(self).faults(),
                final(self).faults(),
                final(destination).rows(),
            ),
    {
        match self.validate_buffer(source) {
            Ok(()) => {},
            Err(error) => {
                return Err(E::from(error));
            },
        }
        match self.validate_buffer(&*destination) {
            Ok(()) => {},
            Err(error) => {
                return Err(E::from(error));
            },
        }
        let length: usize = match self.check_transfer(
            &transfer,
            source.length_per_rank,
            destination.length_per_rank,
        ) {
            Ok(length) => length,
            Err(error) => {
                return Err(E::from(error));
            },
        };
        let from: usize = transfer.source_rank;
        let values = match self.load_at(
            from,
            &source.buffers[from],
            transfer.source_range.start,
            length,
        ) {
            Ok(values) => values,
            Err(error) => {
                proof {
                    lemma_faulted(old(self).faults(), self.faults(), error);
                }
                return Err(error);
            },
        };
        self.deliver(destination, &transfer, values.as_slice())
    }

    /// A tagged transfer within one distributed buffer.
    pub fn send_recv_within(
        &mut self,
        buffer: &mut DistributedBuffer<T, D>,
        transfer: PointToPointTransfer,
    ) -> (result: Result<CollectiveStats, E>)
        ensures
            *final(final(self).contexts) == *final(old(self).contexts),
            final(self).same(old(self)),
            asked_of(
                old(self).faults(),
                final(self).faults(),
                |on: int, call: DeviceCall|
                    transfer_call(on, call, old(buffer).rows(), old(buffer).rows(), transfer),
            ),
            final(buffer).same_shape(old(buffer)),
            settled(
                send_recv_model(
                    old(self).id,
                    old(self).world(),
                    &*old(buffer),
                    &*old(buffer),
                    transfer,
                ),
                old(self).faults(),
                final(self).faults(),
                placed(result, final(buffer).rows()),
            ),
            left(
                send_recv_defect(
                    old(self).id,
                    old(self).world(),
                    &*old(buffer),
                    &*old(buffer),
                    transfer,
                ),
                old(buffer).rows(),
                transferred(old(buffer).rows(), old(buffer).rows(), transfer),
                old(self).faults(),
                final(self).faults(),
                final(buffer).rows(),
            ),
    {
        match self.validate_buffer(&*buffer) {
            Ok(()) => {},
            Err(error) => {
                return Err(E::from(error));
            },
        }
        let length: usize = match self.check_transfer(
            &transfer,
            buffer.length_per_rank,
            buffer.length_per_rank,
        ) {
            Ok(length) => length,
            Err(error) => {
                return Err(E::from(error));
            },
        };
        let from: usize = transfer.source_rank;
        let values = match self.load_at(
            from,
            &buffer.buffers[from],
            transfer.source_range.start,
            length,
        ) {
            Ok(values) => values,
            Err(error) => {
                proof {
                    lemma_faulted(old(self).faults(), self.faults(), error);
                }
                return Err(error);
            },
        };
        self.deliver(buffer, &transfer, values.as_slice())
    }
}

} // verus!

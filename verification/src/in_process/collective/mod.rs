//! The collectives of an in-process world.

pub mod all_to_all;
pub mod blocks;
pub mod exchange;
pub mod laws;
pub mod memory;
pub mod reduction;

use crate::in_process::buffer::{DistributedBuffer, RootedBuffer, VariableDistributedBuffer};
use crate::in_process::device::InProcessDevice;
use crate::in_process::error::InProcessError;
use crate::rank::device::{fault_kept, overwritten, reduced_into, DeviceCall, Refusal};
use crate::rank::error::raised;
use crate::rank::layout::{are_balanced_ranges, balanced_ranges};
use crate::rank::{CollectiveAlgorithm, CollectiveStats, CollectiveTransport};
use std::marker::PhantomData;
use std::ops::Range;
use vstd::prelude::*;

verus! {

#[derive(Debug, PartialEq, Eq)]
pub struct PointToPointTransfer {
    pub source_rank: usize,
    pub source_range: Range<usize>,
    pub destination_rank: usize,
    pub destination_offset: usize,
    pub tag: u64,
}

impl Clone for PointToPointTransfer {
    fn clone(&self) -> (transfer: Self)
        ensures
            transfer == *self,
    {
        PointToPointTransfer {
            source_rank: self.source_rank,
            source_range: Range { start: self.source_range.start, end: self.source_range.end },
            destination_rank: self.destination_rank,
            destination_offset: self.destination_offset,
            tag: self.tag,
        }
    }
}

pub struct InProcessCollective<'a, T, D: InProcessDevice<T>, E> {
    pub id: u64,
    pub contexts: &'a mut Vec<D::Context>,
    pub marker: PhantomData<(T, E)>,
}

/// A context has refused one more call, with an error that this one reports.
pub open spec fn faulted<X, E: From<X>>(
    before: Seq<Seq<Refusal<X>>>,
    now: Seq<Seq<Refusal<X>>>,
    error: E,
) -> bool {
    exists|rank: int, refusal: Refusal<X>|
        #![trigger before.update(rank, before[rank].push(refusal))]
        {
            &&& 0 <= rank < before.len()
            &&& now == before.update(rank, before[rank].push(refusal))
            &&& raised(refusal.error, error)
        }
}

/// If a rank's context has refused one more call, it is one of `calls`.
pub open spec fn asked_of<X>(
    before: Seq<Seq<Refusal<X>>>,
    now: Seq<Seq<Refusal<X>>>,
    calls: spec_fn(int, DeviceCall) -> bool,
) -> bool {
    forall|rank: int|
        0 <= rank < before.len() && #[trigger] now[rank] != before[rank] ==> calls(
            rank,
            now[rank].last().call,
        )
}

/// A context that refused a call has entered it.
pub(crate) proof fn lemma_faulted<X, E: From<X>>(
    before: Seq<Seq<Refusal<X>>>,
    now: Seq<Seq<Refusal<X>>>,
    error: E,
)
    requires
        faulted(before, now, error),
    ensures
        now != before,
{
    let (rank, refusal) = choose|rank: int, refusal: Refusal<X>|
        #![trigger before.update(rank, before[rank].push(refusal))]
        {
            &&& 0 <= rank < before.len()
            &&& now == before.update(rank, before[rank].push(refusal))
            &&& raised(refusal.error, error)
        };
    assert(now[rank].len() == before[rank].len() + 1);
}

/// A result is the model's. An error is a context's, or reports the model's
/// failure.
pub open spec fn settled<R, X, E: From<X> + From<InProcessError>>(
    model: Result<R, InProcessError>,
    before: Seq<Seq<Refusal<X>>>,
    now: Seq<Seq<Refusal<X>>>,
    result: Result<R, E>,
) -> bool {
    match result {
        Ok(value) => now == before && model == Ok::<R, InProcessError>(value),
        Err(error) => {
            ||| faulted(before, now, error)
            ||| {
                &&& now == before
                &&& model matches Err(cause)
                &&& raised(cause, error)
            }
        },
    }
}

/// The only error is a context's.
pub open spec fn kept<R, X, E: From<X>>(
    result: Result<R, E>,
    before: Seq<Seq<Refusal<X>>>,
    now: Seq<Seq<Refusal<X>>>,
) -> bool {
    match result {
        Ok(_) => now == before,
        Err(error) => faulted(before, now, error),
    }
}

/// Splits a rank's elements into one chunk per rank, the longer ones first.
pub(crate) fn ring_chunks(length: u32, world_size: usize) -> (result: Result<
    Vec<Range<usize>>,
    InProcessError,
>)
    ensures
        match result {
            Ok(ranges) => world_size > 0 && are_balanced_ranges(
                ranges@,
                length as int,
                world_size as int,
            ),
            Err(error) => world_size == 0 && error == InProcessError::EmptyWorld,
        },
{
    if world_size == 0 {
        return Err(InProcessError::EmptyWorld);
    }
    Ok(balanced_ranges(length as usize, world_size))
}

/// The bytes of a number of transfers.
pub open spec fn bytes_moved(transfers: int, elements: int, element_bytes: int) -> Result<
    u64,
    InProcessError,
> {
    if transfers * elements > usize::MAX || transfers * elements * element_bytes > usize::MAX {
        Err(InProcessError::Overflow("transferred bytes"))
    } else {
        Ok((transfers * elements * element_bytes) as u64)
    }
}

pub(crate) fn transferred_bytes(
    transfers: usize,
    elements: usize,
    element_bytes: usize,
) -> (result: Result<u64, InProcessError>)
    ensures
        result == bytes_moved(transfers as int, elements as int, element_bytes as int),
{
    let product: usize = match transfers.checked_mul(elements) {
        Some(product) => product,
        None => {
            return Err(InProcessError::Overflow("transferred bytes"));
        },
    };
    match product.checked_mul(element_bytes) {
        Some(bytes) => Ok(bytes as u64),
        None => Err(InProcessError::Overflow("transferred bytes")),
    }
}

/// What a collective cost.
pub open spec fn cost(
    algorithm: CollectiveAlgorithm,
    steps: int,
    bytes: u64,
    launches: int,
) -> CollectiveStats {
    CollectiveStats {
        algorithm,
        transport: CollectiveTransport::HostStaged,
        steps: steps as u32,
        transferred_bytes: bytes,
        reduction_kernel_launches: launches as u32,
    }
}

impl<'a, T, D: InProcessDevice<T>, E> InProcessCollective<'a, T, D, E> {
    pub open spec fn world(&self) -> int {
        self.contexts@.len() as int
    }

    /// The calls that the ranks' contexts have refused so far.
    pub open spec fn faults(&self) -> Seq<Seq<Refusal<D::Error>>> {
        Seq::new(self.contexts@.len(), |rank: int| D::faults(&self.contexts@[rank]))
    }

    /// The same collective, later.
    pub open spec fn same(&self, other: &Self) -> bool {
        &&& self.id == other.id
        &&& self.contexts@.len() == other.contexts@.len()
    }
}

/// Why a buffer is not one of the collective's, if it is not.
pub open spec fn foreign(
    id: u64,
    world: int,
    communicator_id: u64,
    ranks: int,
) -> Option<InProcessError> {
    if communicator_id != id || ranks != world {
        Some(InProcessError::WrongCommunicator)
    } else {
        None
    }
}

/// A rank that the world does not have.
pub open spec fn outside(rank: usize, world: int) -> Option<InProcessError> {
    if rank >= world {
        Some(InProcessError::RankOutOfRange { rank, world_size: world as usize })
    } else {
        None
    }
}

/// What is wrong with a rooted buffer.
pub open spec fn rooted_defect(
    id: u64,
    world: int,
    communicator_id: u64,
    root: usize,
) -> Option<InProcessError> {
    if communicator_id != id {
        Some(InProcessError::WrongCommunicator)
    } else {
        outside(root, world)
    }
}

impl<'a, T, D: InProcessDevice<T>, E> InProcessCollective<'a, T, D, E> where
    E: From<D::Error> + From<InProcessError>,
 {
    pub fn world_size(&self) -> (world_size: usize)
        ensures
            world_size == self.world(),
    {
        self.contexts.len()
    }

    pub fn transport(&self) -> (transport: CollectiveTransport)
        ensures
            transport == CollectiveTransport::HostStaged,
    {
        CollectiveTransport::HostStaged
    }

    pub(crate) fn check_rank(&self, rank: usize) -> (result: Result<(), InProcessError>)
        ensures
            match outside(rank, self.world()) {
                Some(defect) => result == Err::<(), InProcessError>(defect),
                None => result is Ok,
            },
    {
        if rank >= self.world_size() {
            Err(InProcessError::RankOutOfRange { rank, world_size: self.world_size() })
        } else {
            Ok(())
        }
    }

    pub(crate) fn validate_buffer(&self, buffer: &DistributedBuffer<T, D>) -> (result: Result<
        (),
        InProcessError,
    >)
        ensures
            match foreign(
                self.id,
                self.world(),
                buffer.communicator_id,
                buffer.buffers@.len() as int,
            ) {
                Some(defect) => result == Err::<(), InProcessError>(defect),
                None => result is Ok,
            },
    {
        if buffer.communicator_id != self.id || buffer.world_size() != self.world_size() {
            return Err(InProcessError::WrongCommunicator);
        }
        Ok(())
    }

    pub(crate) fn validate_rooted_buffer(&self, buffer: &RootedBuffer<T, D>) -> (result: Result<
        (),
        InProcessError,
    >)
        ensures
            match rooted_defect(self.id, self.world(), buffer.communicator_id, buffer.root) {
                Some(defect) => result == Err::<(), InProcessError>(defect),
                None => result is Ok,
            },
    {
        if buffer.communicator_id != self.id {
            return Err(InProcessError::WrongCommunicator);
        }
        self.check_rank(buffer.root)
    }

    pub(crate) fn validate_variable_buffer(
        &self,
        buffer: &VariableDistributedBuffer<T, D>,
    ) -> (result: Result<(), InProcessError>)
        ensures
            match foreign(
                self.id,
                self.world(),
                buffer.communicator_id,
                buffer.buffers@.len() as int,
            ) {
                Some(defect) => result == Err::<(), InProcessError>(defect),
                None => result is Ok,
            },
    {
        if buffer.communicator_id != self.id || buffer.world_size() != self.world_size() {
            return Err(InProcessError::WrongCommunicator);
        }
        Ok(())
    }

    /// Hands a context's outcome on in the caller's error type.
    fn passed<R>(
        &self,
        rank: usize,
        outcome: Result<R, D::Error>,
        Ghost(before): Ghost<Seq<Seq<Refusal<D::Error>>>>,
        Ghost(call): Ghost<DeviceCall>,
    ) -> (result: Result<R, E>)
        requires
            rank < before.len(),
            self.faults().len() == before.len(),
            forall|i: int| 0 <= i < before.len() && i != rank ==> self.faults()[i] == before[i],
            fault_kept(outcome, call, before[rank as int], self.faults()[rank as int]),
        ensures
            kept(result, before, self.faults()),
            asked_of(
                before,
                self.faults(),
                |on: int, asked: DeviceCall| on == rank && asked == call,
            ),
            match outcome {
                Ok(value) => result == Ok::<R, E>(value),
                Err(_) => result is Err,
            },
    {
        match outcome {
            Ok(value) => {
                assert(self.faults() =~= before);
                Ok(value)
            },
            Err(error) => {
                let ghost refusal = Refusal { call, error };
                let result = E::from(error);
                assert(self.faults() =~= before.update(
                    rank as int,
                    before[rank as int].push(refusal),
                ));
                assert(raised(refusal.error, result));
                Err(result)
            },
        }
    }

    pub(crate) fn allocate_on(&mut self, rank: usize, length: usize) -> (result: Result<
        D::Buffer,
        E,
    >)
        requires
            rank < old(self).world(),
        ensures
            *final(final(self).contexts) == *final(old(self).contexts),
            final(self).same(old(self)),
            kept(result, old(self).faults(), final(self).faults()),
            asked_of(
                old(self).faults(),
                final(self).faults(),
                |on: int, call: DeviceCall|
                    on == rank && call == (DeviceCall::Allocate { length: length as nat }),
            ),
            result is Ok ==> D::values(&result->Ok_0).len() == length,
    {
        let ghost before = self.faults();
        let ghost call = DeviceCall::Allocate { length: length as nat };
        let outcome = D::allocate(&mut self.contexts[rank], length);
        self.passed(rank, outcome, Ghost(before), Ghost(call))
    }

    pub(crate) fn store_on(&mut self, rank: usize, buffer: &mut D::Buffer, values: &[T]) -> (result:
        Result<(), E>)
        requires
            rank < old(self).world(),
        ensures
            *final(final(self).contexts) == *final(old(self).contexts),
            final(self).same(old(self)),
            kept(result, old(self).faults(), final(self).faults()),
            asked_of(
                old(self).faults(),
                final(self).faults(),
                |on: int, call: DeviceCall|
                    on == rank && call == (DeviceCall::Store { room: D::values(&*old(buffer)).len(), values: values@.len() }),
            ),
            D::values(&*final(buffer)).len() == D::values(&*old(buffer)).len(),
            result is Ok ==> D::values(&*final(buffer)) == values@,
    {
        let ghost before = self.faults();
        let ghost call = DeviceCall::Store { room: D::values(&*buffer).len(), values: values@.len() };
        let outcome = D::copy_to_device(&mut self.contexts[rank], buffer, values);
        self.passed(rank, outcome, Ghost(before), Ghost(call))
    }

    pub(crate) fn store_at(
        &mut self,
        rank: usize,
        buffer: &mut D::Buffer,
        offset: usize,
        values: &[T],
    ) -> (result: Result<(), E>)
        requires
            rank < old(self).world(),
        ensures
            *final(final(self).contexts) == *final(old(self).contexts),
            final(self).same(old(self)),
            kept(result, old(self).faults(), final(self).faults()),
            asked_of(
                old(self).faults(),
                final(self).faults(),
                |on: int, call: DeviceCall|
                    on == rank && call == (DeviceCall::StoreAt {
                        room: D::values(&*old(buffer)).len(),
                        offset: offset as nat,
                        values: values@.len(),
                    }),
            ),
            D::values(&*final(buffer)).len() == D::values(&*old(buffer)).len(),
            result is Ok ==> {
                &&& offset + values@.len() <= D::values(&*old(buffer)).len()
                &&& D::values(&*final(buffer)) == overwritten(
                    D::values(&*old(buffer)),
                    offset as int,
                    values@,
                )
            },
    {
        let ghost before = self.faults();
        let ghost call = DeviceCall::StoreAt {
            room: D::values(&*buffer).len(),
            offset: offset as nat,
            values: values@.len(),
        };
        let outcome = D::copy_to_device_at(&mut self.contexts[rank], buffer, offset, values);
        self.passed(rank, outcome, Ghost(before), Ghost(call))
    }

    pub(crate) fn load_from(&mut self, rank: usize, buffer: &D::Buffer) -> (result: Result<
        Vec<T>,
        E,
    >)
        requires
            rank < old(self).world(),
        ensures
            *final(final(self).contexts) == *final(old(self).contexts),
            final(self).same(old(self)),
            kept(result, old(self).faults(), final(self).faults()),
            asked_of(
                old(self).faults(),
                final(self).faults(),
                |on: int, call: DeviceCall|
                    on == rank && call == (DeviceCall::Load { held: D::values(buffer).len() }),
            ),
            result is Ok ==> result->Ok_0@ == D::values(buffer),
    {
        let ghost before = self.faults();
        let ghost call = DeviceCall::Load { held: D::values(buffer).len() };
        let outcome = D::copy_from_device(&mut self.contexts[rank], buffer);
        self.passed(rank, outcome, Ghost(before), Ghost(call))
    }

    pub(crate) fn load_at(
        &mut self,
        rank: usize,
        buffer: &D::Buffer,
        offset: usize,
        length: usize,
    ) -> (result: Result<Vec<T>, E>)
        requires
            rank < old(self).world(),
        ensures
            *final(final(self).contexts) == *final(old(self).contexts),
            final(self).same(old(self)),
            kept(result, old(self).faults(), final(self).faults()),
            asked_of(
                old(self).faults(),
                final(self).faults(),
                |on: int, call: DeviceCall|
                    on == rank && call == (DeviceCall::LoadAt {
                        held: D::values(buffer).len(),
                        offset: offset as nat,
                        length: length as nat,
                    }),
            ),
            result is Ok ==> {
                &&& offset + length <= D::values(buffer).len()
                &&& result->Ok_0@ == D::values(buffer).subrange(offset as int, offset + length)
            },
    {
        let ghost before = self.faults();
        let ghost call = DeviceCall::LoadAt {
            held: D::values(buffer).len(),
            offset: offset as nat,
            length: length as nat,
        };
        let outcome = D::copy_from_device_at(&mut self.contexts[rank], buffer, offset, length);
        self.passed(rank, outcome, Ghost(before), Ghost(call))
    }

    pub(crate) fn reduce_on(
        &mut self,
        rank: usize,
        kernel: &D::Kernel,
        launch: &D::ReductionLaunch,
        source: &D::Buffer,
        destination: &mut D::Buffer,
    ) -> (result: Result<(), E>)
        requires
            rank < old(self).world(),
        ensures
            *final(final(self).contexts) == *final(old(self).contexts),
            final(self).same(old(self)),
            kept(result, old(self).faults(), final(self).faults()),
            asked_of(
                old(self).faults(),
                final(self).faults(),
                |on: int, call: DeviceCall|
                    on == rank && call == (DeviceCall::Reduce {
                        source: D::values(source).len(),
                        destination: D::values(&*old(destination)).len(),
                        length: D::extent(launch).0,
                        offset: D::extent(launch).1,
                    }),
            ),
            D::values(&*final(destination)).len() == D::values(&*old(destination)).len(),
            result is Ok ==> {
                let (length, offset) = D::extent(launch);
                &&& length <= D::values(source).len()
                &&& offset + length <= D::values(&*old(destination)).len()
                &&& D::values(&*final(destination)) == reduced_into(
                    D::values(&*old(destination)),
                    offset as int,
                    D::values(source).take(length as int),
                    D::reduction(kernel),
                )
            },
    {
        let ghost before = self.faults();
        let ghost call = DeviceCall::Reduce {
            source: D::values(source).len(),
            destination: D::values(&*destination).len(),
            length: D::extent(launch).0,
            offset: D::extent(launch).1,
        };
        let outcome = D::launch_reduction(
            &mut self.contexts[rank],
            kernel,
            launch,
            source,
            destination,
        );
        self.passed(rank, outcome, Ghost(before), Ghost(call))
    }
}

} // verus!

//! Reductions on the device.

use crate::rank::device::{
    asked, lemma_bytes_fit, lemma_reading_length, reduced_into, refused, DeviceCall, RankDevice,
};
use crate::rank::device_collective::{carries, from_network, from_rank, DeviceCollective, Standing};
use crate::rank::error::RankError;
use crate::rank::network::NetworkError;
use crate::rank::payload::{length_error, length_mismatch};
use crate::rank::script::{bad_length, bad_reply, too_large, Failure};
use crate::rank::topology::TopologyError;
use crate::rank::transport::RankTransport;
use vstd::prelude::*;
use vstd::slice::*;

verus! {

/// Nothing was said. A result is the model's; an error is the device's, or
/// reports the model's failure.
pub open spec fn settled<R, E>(
    model: Result<R, Failure<E>>,
    before: Standing<E>,
    now: Standing<E>,
    result: Result<R, E>,
) -> bool where E: From<RankError> + From<NetworkError> + From<TopologyError> {
    &&& now.log == before.log
    &&& match result {
        Ok(value) => now.faults == before.faults && model == Ok::<R, Failure<E>>(value),
        Err(error) => {
            ||| refused(before.faults, now.faults, error)
            ||| {
                &&& now.faults == before.faults
                &&& model matches Err(failure)
                &&& carries(error, failure)
            }
        },
    }
}

/// Bytes of `count` elements reduced into a buffer at `offset`, and the kernel
/// launches that it takes.
pub open spec fn reduced_bytes<T, D: RankDevice<T>>(
    destination: Seq<T>,
    offset: int,
    count: int,
    bytes: Seq<u8>,
    reduce: spec_fn(T, T) -> T,
) -> Result<(Seq<T>, u32), Failure<D::Error>> {
    if count * D::ELEMENT_SIZE > usize::MAX {
        Err(too_large("reduction input byte length"@))
    } else if bytes.len() != count * D::ELEMENT_SIZE {
        Err(bad_length("reduction input does not match its element count"@))
    } else if count == 0 {
        Ok((destination, 0u32))
    } else if offset + count > usize::MAX {
        Err(too_large("hierarchical reduction destination range"@))
    } else if offset + count > destination.len() {
        Err(bad_length("hierarchical reduction destination range is out of bounds"@))
    } else {
        Ok((reduced_into(destination, offset, D::reading(bytes), reduce), 1u32))
    }
}

/// The part of a response that a rank sent.
pub open spec fn rank_part(payload: Seq<u8>, rank_bytes: int, rank: int) -> Seq<u8> {
    payload.subrange(rank * rank_bytes, rank * rank_bytes + rank_bytes)
}

/// The parts of the first `ranks` ranks, each reduced into the ones before.
pub open spec fn stacked<T, D: RankDevice<T>>(
    payload: Seq<u8>,
    rank_bytes: int,
    ranks: int,
    reduce: spec_fn(T, T) -> T,
) -> Result<Seq<T>, Failure<D::Error>>
    decreases ranks,
{
    let part = rank_part(payload, rank_bytes, ranks - 1);
    if ranks <= 1 {
        match D::refusal(rank_part(payload, rank_bytes, 0)) {
            Some(error) => Err(Failure::Device(error)),
            None => Ok(D::reading(rank_part(payload, rank_bytes, 0))),
        }
    } else {
        match stacked::<T, D>(payload, rank_bytes, ranks - 1, reduce) {
            Err(failure) => Err(failure),
            Ok(values) => match D::refusal(part) {
                Some(error) => Err(Failure::Device(error)),
                None => Ok(reduced_into(values, 0, D::reading(part), reduce)),
            },
        }
    }
}

/// Why a response is refused before any of it is reduced, if it is.
pub open spec fn concatenation_defect<T, D: RankDevice<T>>(
    payload: Seq<u8>,
    length: int,
    world_size: int,
) -> Option<Failure<D::Error>> {
    let rank_bytes = length * D::ELEMENT_SIZE;
    if rank_bytes > usize::MAX {
        Some(too_large("TCP reduction rank bytes"@))
    } else if rank_bytes * world_size > usize::MAX {
        Some(too_large("TCP reduction response bytes"@))
    } else if payload.len() != rank_bytes * world_size {
        Some(
            bad_reply(
                length_mismatch(
                    "TCP reduction response"@,
                    payload.len(),
                    (rank_bytes * world_size) as nat,
                ),
            ),
        )
    } else {
        match D::refusal(rank_part(payload, rank_bytes, 0)) {
            Some(error) => Some(Failure::Device(error)),
            None => None,
        }
    }
}

/// What a response of every rank's elements reduces to, and the kernel launches
/// that it takes.
pub open spec fn concatenated<T, D: RankDevice<T>>(
    payload: Seq<u8>,
    length: int,
    world_size: int,
    reduce: spec_fn(T, T) -> T,
) -> Result<(Seq<T>, u32), Failure<D::Error>> {
    let rank_bytes = length * D::ELEMENT_SIZE;
    let ranks = if length == 0 {
        1
    } else {
        world_size
    };
    match concatenation_defect::<T, D>(payload, length, world_size) {
        Some(defect) => Err(defect),
        None => match stacked::<T, D>(payload, rank_bytes, ranks, reduce) {
            Err(failure) => Err(failure),
            Ok(values) => Ok((values, (ranks - 1) as u32)),
        },
    }
}

/// A prefix that cannot be reduced makes the whole irreducible.
proof fn lemma_stacked_prefix<T, D: RankDevice<T>>(
    payload: Seq<u8>,
    rank_bytes: int,
    ranks: int,
    end: int,
    reduce: spec_fn(T, T) -> T,
)
    requires
        1 <= ranks <= end,
        stacked::<T, D>(payload, rank_bytes, ranks, reduce) is Err,
    ensures
        stacked::<T, D>(payload, rank_bytes, end, reduce) == stacked::<T, D>(
            payload,
            rank_bytes,
            ranks,
            reduce,
        ),
    decreases end - ranks,
{
    if ranks < end {
        lemma_stacked_prefix::<T, D>(payload, rank_bytes, ranks, end - 1, reduce);
    }
}

/// What a buffer holds after a reduction, and its launches.
pub open spec fn with_launches<T, D: RankDevice<T>>(
    result: Result<u32, D::Error>,
    buffer: Seq<T>,
) -> Result<(Seq<T>, u32), D::Error> {
    match result {
        Ok(launches) => Ok((buffer, launches)),
        Err(error) => Err(error),
    }
}

impl<'a, T, D: RankDevice<T>, S: RankTransport> DeviceCollective<'a, T, D, S> where
    D::Error: From<RankError> + From<NetworkError> + From<TopologyError>,
 {
    pub fn reduce_bytes_into(
        &mut self,
        destination: &mut D::Buffer,
        destination_offset: usize,
        element_count: usize,
        values: &[u8],
        function: &D::Kernel,
    ) -> (result: Result<u32, D::Error>)
        ensures
            *final(final(self).link) == *final(old(self).link),
            final(self).model() == old(self).model(),
            final(self).next() == old(self).next(),
            D::values(&*final(destination)).len() == D::values(&*old(destination)).len(),
            asked(
                old(self).standing().faults,
                final(self).standing().faults,
                |call: DeviceCall| call.reduces_part(D::values(&*old(destination)).len() as int),
            ),
            settled(
                reduced_bytes::<T, D>(
                    D::values(&*old(destination)),
                    destination_offset as int,
                    element_count as int,
                    values@,
                    D::reduction(function),
                ),
                old(self).standing(),
                final(self).standing(),
                with_launches::<T, D>(result, D::values(&*final(destination))),
            ),
            reduced_bytes::<T, D>(
                D::values(&*old(destination)),
                destination_offset as int,
                element_count as int,
                values@,
                D::reduction(function),
            ) is Err ==> {
                &&& D::values(&*final(destination)) == D::values(&*old(destination))
                &&& final(self).standing() == old(self).standing()
            },
    {
        let expected_bytes: usize = match element_count.checked_mul(D::ELEMENT_SIZE) {
            Some(expected_bytes) => expected_bytes,
            None => {
                return Err(from_rank(RankError::Overflow("reduction input byte length")));
            },
        };
        if values.len() != expected_bytes {
            return Err(
                from_rank(
                    RankError::InvalidLength("reduction input does not match its element count"),
                ),
            );
        }
        if element_count == 0 {
            return Ok(0);
        }
        let end: usize = match destination_offset.checked_add(element_count) {
            Some(end) => end,
            None => {
                return Err(
                    from_rank(RankError::Overflow("hierarchical reduction destination range")),
                );
            },
        };
        if end > self.link.execution.buffer_len(destination) {
            return Err(
                from_rank(
                    RankError::InvalidLength(
                        "hierarchical reduction destination range is out of bounds",
                    ),
                ),
            );
        }
        let mut scratch = match self.link.execution.allocate(element_count) {
            Ok(scratch) => scratch,
            Err(error) => {
                return Err(error);
            },
        };
        proof {
            lemma_bytes_fit(
                element_count as int,
                0,
                element_count as int,
                D::ELEMENT_SIZE as int,
            );
        }
        match self.link.execution.copy_bytes_to_device_at(&mut scratch, 0, values) {
            Ok(()) => {},
            Err(error) => {
                return Err(error);
            },
        }
        proof {
            lemma_reading_length::<T, D>(values@, element_count as nat);
            assert(D::values(&scratch) =~= D::reading(values@));
            assert(D::values(&scratch).take(element_count as int) =~= D::reading(values@));
        }
        let launch = match self.link.execution.prepare_reduction(
            element_count,
            destination_offset,
        ) {
            Ok(launch) => launch,
            Err(error) => {
                return Err(error);
            },
        };
        match self.link.execution.launch_reduction(function, &launch, &scratch, destination) {
            Ok(()) => Ok(1),
            Err(error) => Err(error),
        }
    }

    pub fn reduce_values_into(
        &mut self,
        destination: &mut D::Buffer,
        destination_offset: usize,
        values: &[T],
        function: &D::Kernel,
    ) -> (result: Result<u32, D::Error>)
        ensures
            *final(final(self).link) == *final(old(self).link),
            final(self).model() == old(self).model(),
            final(self).next() == old(self).next(),
            D::values(&*final(destination)).len() == D::values(&*old(destination)).len(),
            asked(
                old(self).standing().faults,
                final(self).standing().faults,
                |call: DeviceCall| call.reduces_part(D::values(&*old(destination)).len() as int),
            ),
            settled(
                reduced_bytes::<T, D>(
                    D::values(&*old(destination)),
                    destination_offset as int,
                    values@.len() as int,
                    D::encoding(values@),
                    D::reduction(function),
                ),
                old(self).standing(),
                final(self).standing(),
                with_launches::<T, D>(result, D::values(&*final(destination))),
            ),
            reduced_bytes::<T, D>(
                D::values(&*old(destination)),
                destination_offset as int,
                values@.len() as int,
                D::encoding(values@),
                D::reduction(function),
            ) is Err ==> {
                &&& D::values(&*final(destination)) == D::values(&*old(destination))
                &&& final(self).standing() == old(self).standing()
            },
    {
        let bytes = D::encode(values);
        self.reduce_bytes_into(
            destination,
            destination_offset,
            values.len(),
            bytes.as_slice(),
            function,
        )
    }

    pub fn reduce_concatenated(
        &mut self,
        payload: &[u8],
        output: &mut D::Buffer,
        length: usize,
        function: &D::Kernel,
    ) -> (result: Result<u32, D::Error>)
        requires
            old(self).model().place.world_size > 0,
        ensures
            *final(final(self).link) == *final(old(self).link),
            final(self).model() == old(self).model(),
            final(self).next() == old(self).next(),
            D::values(&*final(output)).len() == D::values(&*old(output)).len(),
            asked(
                old(self).standing().faults,
                final(self).standing().faults,
                |call: DeviceCall|
                    call == (DeviceCall::Store {
                        room: D::values(&*old(output)).len(),
                        values: length as nat,
                    }) || call.handles_whole(length as int) || call.handles_part(length as int),
            ),
            settled(
                concatenated::<T, D>(
                    payload@,
                    length as int,
                    old(self).model().world(),
                    D::reduction(function),
                ),
                old(self).standing(),
                final(self).standing(),
                with_launches::<T, D>(result, D::values(&*final(output))),
            ),
            concatenation_defect::<T, D>(payload@, length as int, old(self).model().world())
                is Some ==> {
                &&& D::values(&*final(output)) == D::values(&*old(output))
                &&& final(self).standing() == old(self).standing()
            },
    {
        let ghost reduce = D::reduction(function);
        let rank_bytes: usize = match length.checked_mul(D::ELEMENT_SIZE) {
            Some(rank_bytes) => rank_bytes,
            None => {
                return Err(from_rank(RankError::Overflow("TCP reduction rank bytes")));
            },
        };
        let world: usize = self.world_size() as usize;
        let expected: usize = match rank_bytes.checked_mul(world) {
            Some(expected) => expected,
            None => {
                return Err(from_rank(RankError::Overflow("TCP reduction response bytes")));
            },
        };
        if payload.len() != expected {
            return Err(
                from_network(length_error("TCP reduction response", payload.len(), expected)),
            );
        }
        assert(rank_bytes <= expected) by (nonlinear_arith)
            requires
                expected == rank_bytes * world,
                world > 0,
        ;
        let ghost ranks = if length == 0 {
            1
        } else {
            world as int
        };
        let first_part = slice_subrange(payload, 0, rank_bytes);
        assert(0 * rank_bytes == 0) by (nonlinear_arith);
        assert(first_part@ =~= rank_part(payload@, rank_bytes as int, 0));
        let first = match D::decode(first_part) {
            Ok(first) => first,
            Err(error) => {
                proof {
                    lemma_stacked_prefix::<T, D>(payload@, rank_bytes as int, 1, ranks, reduce);
                }
                return Err(error);
            },
        };
        proof {
            lemma_reading_length::<T, D>(first_part@, length as nat);
        }
        match self.link.execution.copy_to_device(output, first.as_slice()) {
            Ok(()) => {},
            Err(error) => {
                return Err(error);
            },
        }
        if length == 0 {
            return Ok(0);
        }
        if world == 1 {
            return Ok(0);
        }
        let mut scratch = match self.link.execution.allocate(length) {
            Ok(scratch) => scratch,
            Err(error) => {
                return Err(error);
            },
        };
        let launch = match self.link.execution.prepare_reduction(length, 0) {
            Ok(launch) => launch,
            Err(error) => {
                return Err(error);
            },
        };
        let mut source: usize = 1;
        while source < world
            invariant
                1 <= source <= world,
                0 < length,
                world == old(self).model().world(),
                ranks == world,
                rank_bytes == length * D::ELEMENT_SIZE,
                expected == rank_bytes * world,
                payload@.len() == expected,
                reduce == D::reduction(function),
                D::extent(&launch) == (length as nat, 0nat),
                D::values(&scratch).len() == length,
                D::values(&*output).len() == D::values(&*old(output)).len(),
                D::values(&*output).len() == length,
                *final(self.link) == *final(old(self).link),
                self.model() == old(self).model(),
                self.next() == old(self).next(),
                self.standing() == old(self).standing(),
                stacked::<T, D>(payload@, rank_bytes as int, source as int, reduce) == Ok::<
                    Seq<T>,
                    Failure<D::Error>,
                >(D::values(&*output)),
                rank_bytes * world <= usize::MAX,
                concatenation_defect::<T, D>(payload@, length as int, world as int) is None,
                concatenated::<T, D>(payload@, length as int, world as int, reduce) == (
                match stacked::<T, D>(payload@, rank_bytes as int, ranks, reduce) {
                    Err(failure) => Err(failure),
                    Ok(values) => Ok((values, (ranks - 1) as u32)),
                }),
            decreases world - source,
        {
            assert(source * rank_bytes + rank_bytes <= expected) by (nonlinear_arith)
                requires
                    source + 1 <= world,
                    expected == rank_bytes * world,
            ;
            let start: usize = source * rank_bytes;
            let part = slice_subrange(payload, start, start + rank_bytes);
            assert(part@ =~= rank_part(payload@, rank_bytes as int, source as int));
            let values = match D::decode(part) {
                Ok(values) => values,
                Err(error) => {
                    proof {
                        lemma_stacked_prefix::<T, D>(
                            payload@,
                            rank_bytes as int,
                            source + 1,
                            ranks,
                            reduce,
                        );
                    }
                    return Err(error);
                },
            };
            proof {
                lemma_reading_length::<T, D>(part@, length as nat);
            }
            match self.link.execution.copy_to_device(&mut scratch, values.as_slice()) {
                Ok(()) => {},
                Err(error) => {
                    return Err(error);
                },
            }
            proof {
                assert(D::values(&scratch).take(length as int) =~= D::reading(part@));
            }
            match self.link.execution.launch_reduction(function, &launch, &scratch, output) {
                Ok(()) => {},
                Err(error) => {
                    return Err(error);
                },
            }
            source = source + 1;
        }
        Ok(self.world_size() - 1)
    }
}

} // verus!

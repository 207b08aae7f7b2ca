//! The device boundary of the rank-local collectives.
//!
//! A device owns buffers of elements and the kernel that reduces one buffer into
//! another. Its contract promises no success: it says what a buffer holds after
//! a call that succeeded, and that each error is entered among the device's
//! faults together with the call that was refused.

use vstd::arithmetic::div_mod::*;
use vstd::prelude::*;

verus! {

/// `values` with `part` written over it at `offset`.
pub open spec fn overwritten<T>(values: Seq<T>, offset: int, part: Seq<T>) -> Seq<T> {
    Seq::new(
        values.len(),
        |i: int|
            if offset <= i < offset + part.len() {
                part[i - offset]
            } else {
                values[i]
            },
    )
}

/// `values` with `part` reduced into it at `offset`.
pub open spec fn reduced_into<T>(
    values: Seq<T>,
    offset: int,
    part: Seq<T>,
    reduce: spec_fn(T, T) -> T,
) -> Seq<T> {
    Seq::new(
        values.len(),
        |i: int|
            if offset <= i < offset + part.len() {
                reduce(values[i], part[i - offset])
            } else {
                values[i]
            },
    )
}

/// A call on a device, with the sizes that decide whether it can be done. Sizes
/// are in elements; a store of bytes also tells the bytes of an element.
pub enum DeviceCall {
    Allocate { length: nat },
    /// `values` elements over a whole buffer of `room`.
    Store { room: nat, values: nat },
    /// `values` elements into a buffer of `room`, from `offset` on.
    StoreAt { room: nat, offset: nat, values: nat },
    /// The same as encoded elements of `size` bytes each.
    StoreBytes { room: nat, offset: nat, bytes: nat, size: nat },
    /// All of a buffer of `held` elements.
    Load { held: nat },
    LoadAt { held: nat, offset: nat, length: nat },
    /// The same, encoded.
    LoadBytes { held: nat, offset: nat, length: nat },
    Prepare { length: nat, offset: nat },
    /// `length` elements of a buffer of `source` reduced into one of
    /// `destination`, from `offset` on.
    Reduce { source: nat, destination: nat, length: nat, offset: nat },
}

impl DeviceCall {
    /// The parts of the buffers that the call names lie inside them.
    pub open spec fn fits(self) -> bool {
        match self {
            DeviceCall::Allocate { .. } => true,
            DeviceCall::Store { room, values } => values == room,
            DeviceCall::StoreAt { room, offset, values } => offset + values <= room,
            DeviceCall::StoreBytes { room, offset, bytes, size } => {
                offset <= room && bytes <= (room - offset) * size
            },
            DeviceCall::Load { .. } => true,
            DeviceCall::LoadAt { held, offset, length } => offset + length <= held,
            DeviceCall::LoadBytes { held, offset, length } => offset + length <= held,
            DeviceCall::Prepare { .. } => true,
            DeviceCall::Reduce { source, destination, length, offset } => {
                length <= source && offset + length <= destination
            },
        }
    }

    /// The call is about scratch, bytes or a reduction.
    pub open spec fn in_bytes(self) -> bool {
        !(self is Store || self is StoreAt || self is Load || self is LoadAt)
    }

    /// The parts lie inside the buffers, and none of them is longer than `length`.
    pub open spec fn within(self, length: int) -> bool {
        &&& self.fits()
        &&& match self {
            DeviceCall::Allocate { length: asked } => asked <= length,
            DeviceCall::Store { room, .. } => room <= length,
            DeviceCall::StoreAt { room, .. } => room <= length,
            DeviceCall::StoreBytes { room, .. } => room <= length,
            DeviceCall::Load { held } => held <= length,
            DeviceCall::LoadAt { held, .. } => held <= length,
            DeviceCall::LoadBytes { held, .. } => held <= length,
            DeviceCall::Prepare { length: asked, offset } => offset + asked <= length,
            DeviceCall::Reduce { source, destination, .. } => {
                source <= length && destination <= length
            },
        }
    }

    /// A new buffer of `length` elements, filled whole or read whole.
    pub open spec fn handles_whole(self, length: int) -> bool {
        match self {
            DeviceCall::Allocate { length: asked } => asked == length,
            DeviceCall::Store { room, values } => room == length && values == length,
            DeviceCall::Load { held } => held == length,
            _ => false,
        }
    }

    /// The same of some length.
    pub open spec fn fits_whole(self) -> bool {
        self.fits() && (self is Allocate || self is Store || self is Load)
    }

    /// Elements of a buffer of `length` that lie inside it.
    pub open spec fn handles_run(self, length: int) -> bool {
        match self {
            DeviceCall::LoadAt { held, .. } => held == length && self.fits(),
            _ => false,
        }
    }

    /// A part of a buffer of `length` elements, or scratch for one, read, written
    /// or reduced into as its bytes; no part reaches past the buffer's end.
    pub open spec fn handles_part(self, length: int) -> bool {
        &&& self.fits()
        &&& match self {
            DeviceCall::Allocate { length: asked } => asked <= length,
            DeviceCall::StoreBytes { room, .. } => room <= length,
            DeviceCall::LoadBytes { held, .. } => held <= length,
            DeviceCall::Prepare { length: asked, offset } => offset + asked <= length,
            DeviceCall::Reduce { source, destination, .. } => {
                source <= length && destination <= length
            },
            _ => false,
        }
    }

    /// The same, with nothing read.
    pub open spec fn reduces_part(self, length: int) -> bool {
        self.handles_part(length) && !(self is LoadBytes)
    }
}

/// An error that a device returned, and the call that it refused.
pub struct Refusal<E> {
    pub call: DeviceCall,
    pub error: E,
}

/// An error is entered among the faults with the call, and nothing else is.
pub open spec fn fault_kept<R, E>(
    result: Result<R, E>,
    call: DeviceCall,
    before: Seq<Refusal<E>>,
    after: Seq<Refusal<E>>,
) -> bool {
    match result {
        Ok(_) => after == before,
        Err(error) => after == before.push(Refusal { call, error }),
    }
}

/// The device has refused one more call, with this error.
pub open spec fn refused<E>(
    before: Seq<Refusal<E>>,
    now: Seq<Refusal<E>>,
    error: E,
) -> bool {
    now == before.push(Refusal { call: now.last().call, error })
}

/// If the device has refused one more call, it is one of `calls`.
pub open spec fn asked<E>(
    before: Seq<Refusal<E>>,
    now: Seq<Refusal<E>>,
    calls: spec_fn(DeviceCall) -> bool,
) -> bool {
    now == before || calls(now.last().call)
}

/// The bytes of elements that have room.
pub proof fn lemma_bytes_fit(room: int, offset: int, count: int, size: int)
    requires
        0 <= offset,
        0 <= count,
        0 <= size,
        offset + count <= room,
    ensures
        count * size <= (room - offset) * size,
{
    assert(count * size <= (room - offset) * size) by (nonlinear_arith)
        requires
            0 <= size,
            count <= room - offset,
    ;
}

/// Encoded elements take `ELEMENT_SIZE` bytes each and are read back.
pub open spec fn lossless<T, D: RankDevice<T>>(values: Seq<T>) -> bool {
    &&& D::encoding(values).len() == values.len() * D::ELEMENT_SIZE
    &&& D::reading(D::encoding(values)) == values
    &&& D::refusal(D::encoding(values)) is None
}

/// An element takes some bytes, and bytes of a number of elements stand for that
/// many.
pub open spec fn reads_evenly<T, D: RankDevice<T>>() -> bool {
    &&& D::ELEMENT_SIZE > 0
    &&& forall|bytes: Seq<u8>|
        bytes.len() as int % D::ELEMENT_SIZE as int == 0 ==> (#[trigger] D::reading(
            bytes,
        )).len() == bytes.len() as int / D::ELEMENT_SIZE as int
}

/// How many elements bytes stand for.
pub proof fn lemma_reading_length<T, D: RankDevice<T>>(bytes: Seq<u8>, count: nat)
    requires
        reads_evenly::<T, D>(),
        bytes.len() == count * D::ELEMENT_SIZE,
    ensures
        D::reading(bytes).len() == count,
{
    lemma_mod_multiples_basic(count as int, D::ELEMENT_SIZE as int);
    lemma_div_multiples_vanish(count as int, D::ELEMENT_SIZE as int);
    assert(D::ELEMENT_SIZE * count == count * D::ELEMENT_SIZE) by (nonlinear_arith);
}

pub trait RankDevice<T>: Sized {
    type Buffer;

    type Kernel;

    type ReductionLaunch;

    type Error;

    const ELEMENT_SIZE: usize;

    /// The calls that the device has refused so far, with the errors.
    closed spec fn faults(&self) -> Seq<Refusal<Self::Error>> {
        arbitrary()
    }

    /// What a buffer holds.
    closed spec fn values(buffer: &Self::Buffer) -> Seq<T> {
        arbitrary()
    }

    /// The bytes that stand for elements.
    closed spec fn encoding(values: Seq<T>) -> Seq<u8> {
        arbitrary()
    }

    /// The elements that bytes stand for.
    closed spec fn reading(bytes: Seq<u8>) -> Seq<T> {
        arbitrary()
    }

    /// Why bytes cannot be decoded, if they cannot.
    closed spec fn refusal(bytes: Seq<u8>) -> Option<Self::Error> {
        arbitrary()
    }

    /// What a kernel makes of a destination's element and a source's.
    closed spec fn reduction(kernel: &Self::Kernel) -> spec_fn(T, T) -> T {
        arbitrary()
    }

    /// How many elements a launch reduces, and from where in the destination.
    closed spec fn extent(launch: &Self::ReductionLaunch) -> (nat, nat) {
        arbitrary()
    }

    /// An error as text.
    closed spec fn message(error: &Self::Error) -> Seq<char> {
        arbitrary()
    }

    fn error_text(error: &Self::Error) -> (text: String)
        ensures
            text@ == Self::message(error),
    ;

    fn buffer_len(&self, buffer: &Self::Buffer) -> (length: usize)
        ensures
            length == Self::values(buffer).len(),
    ;

    fn buffer_bytes(&self, buffer: &Self::Buffer) -> (bytes: usize)
        ensures
            bytes == Self::values(buffer).len() * Self::ELEMENT_SIZE,
    ;

    fn encode(values: &[T]) -> (bytes: Vec<u8>)
        ensures
            bytes@ == Self::encoding(values@),
            bytes@.len() == values@.len() * Self::ELEMENT_SIZE,
            Self::reading(bytes@) == values@,
            Self::refusal(bytes@) is None,
            Self::ELEMENT_SIZE > 0,
            forall|bytes: Seq<u8>|
                bytes.len() as int % Self::ELEMENT_SIZE as int == 0 ==> (#[trigger] Self::reading(
                    bytes,
                )).len() == bytes.len() as int / Self::ELEMENT_SIZE as int,
    ;

    fn decode(bytes: &[u8]) -> (result: Result<Vec<T>, Self::Error>)
        ensures
            match Self::refusal(bytes@) {
                Some(error) => result is Err && result->Err_0 == error,
                None => result is Ok && result->Ok_0@ == Self::reading(bytes@),
            },
            result is Ok ==> {
                &&& Self::ELEMENT_SIZE > 0
                &&& forall|bytes: Seq<u8>|
                    bytes.len() as int % Self::ELEMENT_SIZE as int == 0 ==> (
                    #[trigger] Self::reading(bytes)).len() == bytes.len() as int
                        / Self::ELEMENT_SIZE as int
            },
    ;

    fn allocate(&mut self, length: usize) -> (result: Result<Self::Buffer, Self::Error>)
        ensures
            fault_kept(
                result,
                (DeviceCall::Allocate { length: length as nat }),
                old(self).faults(),
                final(self).faults(),
            ),
            result is Ok ==> Self::values(&result->Ok_0).len() == length,
    ;

    fn copy_to_device(&mut self, buffer: &mut Self::Buffer, values: &[T]) -> (result: Result<
        (),
        Self::Error,
    >)
        ensures
            fault_kept(
                result,
                (DeviceCall::Store { room: Self::values(&*old(buffer)).len(), values: values@.len() }),
                old(self).faults(),
                final(self).faults(),
            ),
            Self::values(&*final(buffer)).len() == Self::values(&*old(buffer)).len(),
            result is Ok ==> Self::values(&*final(buffer)) == values@,
    ;

    fn copy_from_device(&mut self, buffer: &Self::Buffer) -> (result: Result<Vec<T>, Self::Error>)
        ensures
            fault_kept(
                result,
                (DeviceCall::Load { held: Self::values(buffer).len() }),
                old(self).faults(),
                final(self).faults(),
            ),
            result is Ok ==> result->Ok_0@ == Self::values(buffer),
    ;

    fn copy_from_device_at(
        &mut self,
        buffer: &Self::Buffer,
        element_offset: usize,
        length: usize,
    ) -> (result: Result<Vec<T>, Self::Error>)
        ensures
            fault_kept(
                result,
                (DeviceCall::LoadAt {
                    held: Self::values(buffer).len(),
                    offset: element_offset as nat,
                    length: length as nat,
                }),
                old(self).faults(),
                final(self).faults(),
            ),
            result is Ok ==> {
                &&& element_offset + length <= Self::values(buffer).len()
                &&& result->Ok_0@ == Self::values(buffer).subrange(
                    element_offset as int,
                    element_offset + length,
                )
            },
    ;

    fn copy_bytes_to_device_at(
        &mut self,
        buffer: &mut Self::Buffer,
        element_offset: usize,
        values: &[u8],
    ) -> (result: Result<(), Self::Error>)
        ensures
            fault_kept(
                result,
                (DeviceCall::StoreBytes {
                    room: Self::values(&*old(buffer)).len(),
                    offset: element_offset as nat,
                    bytes: values@.len(),
                    size: Self::ELEMENT_SIZE as nat,
                }),
                old(self).faults(),
                final(self).faults(),
            ),
            Self::values(&*final(buffer)).len() == Self::values(&*old(buffer)).len(),
            result is Ok ==> {
                &&& element_offset + Self::reading(values@).len() <= Self::values(
                    &*old(buffer),
                ).len()
                &&& Self::values(&*final(buffer)) == overwritten(
                    Self::values(&*old(buffer)),
                    element_offset as int,
                    Self::reading(values@),
                )
                &&& Self::ELEMENT_SIZE > 0
                &&& forall|bytes: Seq<u8>|
                    bytes.len() as int % Self::ELEMENT_SIZE as int == 0 ==> (
                    #[trigger] Self::reading(bytes)).len() == bytes.len() as int
                        / Self::ELEMENT_SIZE as int
            },
    ;

    fn copy_bytes_from_device_at(
        &mut self,
        buffer: &Self::Buffer,
        element_offset: usize,
        length: usize,
    ) -> (result: Result<Vec<u8>, Self::Error>)
        ensures
            fault_kept(
                result,
                (DeviceCall::LoadBytes {
                    held: Self::values(buffer).len(),
                    offset: element_offset as nat,
                    length: length as nat,
                }),
                old(self).faults(),
                final(self).faults(),
            ),
            result is Ok ==> {
                &&& element_offset + length <= Self::values(buffer).len()
                &&& result->Ok_0@ == Self::encoding(
                    Self::values(buffer).subrange(element_offset as int, element_offset + length),
                )
                &&& result->Ok_0@.len() == length * Self::ELEMENT_SIZE
                &&& Self::reading(result->Ok_0@) == Self::values(buffer).subrange(
                    element_offset as int,
                    element_offset + length,
                )
                &&& Self::refusal(result->Ok_0@) is None
                &&& Self::ELEMENT_SIZE > 0
                &&& forall|bytes: Seq<u8>|
                    bytes.len() as int % Self::ELEMENT_SIZE as int == 0 ==> (
                    #[trigger] Self::reading(bytes)).len() == bytes.len() as int
                        / Self::ELEMENT_SIZE as int
            },
    ;

    fn prepare_reduction(&mut self, length: usize, destination_offset: usize) -> (result: Result<
        Self::ReductionLaunch,
        Self::Error,
    >)
        ensures
            fault_kept(
                result,
                (DeviceCall::Prepare {
                    length: length as nat,
                    offset: destination_offset as nat,
                }),
                old(self).faults(),
                final(self).faults(),
            ),
            result is Ok ==> Self::extent(&result->Ok_0) == (
                length as nat,
                destination_offset as nat,
            ),
    ;

    fn launch_reduction(
        &mut self,
        kernel: &Self::Kernel,
        launch: &Self::ReductionLaunch,
        source: &Self::Buffer,
        destination: &mut Self::Buffer,
    ) -> (result: Result<(), Self::Error>)
        ensures
            fault_kept(
                result,
                (DeviceCall::Reduce {
                    source: Self::values(source).len(),
                    destination: Self::values(&*old(destination)).len(),
                    length: Self::extent(launch).0,
                    offset: Self::extent(launch).1,
                }),
                old(self).faults(),
                final(self).faults(),
            ),
            Self::values(&*final(destination)).len() == Self::values(&*old(destination)).len(),
            result is Ok ==> {
                let (length, offset) = Self::extent(launch);
                &&& length <= Self::values(source).len()
                &&& offset + length <= Self::values(&*old(destination)).len()
                &&& Self::values(&*final(destination)) == reduced_into(
                    Self::values(&*old(destination)),
                    offset as int,
                    Self::values(source).take(length as int),
                    Self::reduction(kernel),
                )
            },
    ;
}

} // verus!

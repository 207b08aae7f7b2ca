//! The device boundary of the in-process collectives.
//!
//! Each rank has a context on a device. As with the device of a rank's own
//! collectives, the contract promises no success: it says what a buffer holds
//! after a call that succeeded, and that each error is entered among the
//! context's faults together with the call that was refused.

use crate::rank::device::{fault_kept, overwritten, reduced_into, DeviceCall, Refusal};
use vstd::prelude::*;

verus! {

pub trait InProcessDevice<T>: Sized {
    type Context;

    type Buffer;

    type Kernel;

    type ReductionLaunch;

    type Error;

    const ELEMENT_SIZE: usize;

    /// The calls that a context has refused so far, with the errors.
    closed spec fn faults(context: &Self::Context) -> Seq<Refusal<Self::Error>> {
        arbitrary()
    }

    /// What a buffer holds.
    closed spec fn values(buffer: &Self::Buffer) -> Seq<T> {
        arbitrary()
    }

    /// What a kernel makes of a destination's element and a source's.
    closed spec fn reduction(kernel: &Self::Kernel) -> spec_fn(T, T) -> T {
        arbitrary()
    }

    /// How many elements a launch reduces, and from where in the destination.
    closed spec fn extent(launch: &Self::ReductionLaunch) -> (nat, nat) {
        arbitrary()
    }

    fn buffer_len(buffer: &Self::Buffer) -> (length: usize)
        ensures
            length == Self::values(buffer).len(),
    ;

    fn buffer_is_empty(buffer: &Self::Buffer) -> (empty: bool)
        ensures
            empty == (Self::values(buffer).len() == 0),
    ;

    fn allocate(context: &mut Self::Context, length: usize) -> (result: Result<
        Self::Buffer,
        Self::Error,
    >)
        ensures
            fault_kept(
                result,
                (DeviceCall::Allocate { length: length as nat }),
                Self::faults(&*old(context)),
                Self::faults(&*final(context)),
            ),
            result is Ok ==> Self::values(&result->Ok_0).len() == length,
    ;

    fn copy_to_device(
        context: &mut Self::Context,
        buffer: &mut Self::Buffer,
        values: &[T],
    ) -> (result: Result<(), Self::Error>)
        ensures
            fault_kept(
                result,
                (DeviceCall::Store { room: Self::values(&*old(buffer)).len(), values: values@.len() }),
                Self::faults(&*old(context)),
                Self::faults(&*final(context)),
            ),
            Self::values(&*final(buffer)).len() == Self::values(&*old(buffer)).len(),
            result is Ok ==> Self::values(&*final(buffer)) == values@,
    ;

    fn copy_to_device_at(
        context: &mut Self::Context,
        buffer: &mut Self::Buffer,
        offset: usize,
        values: &[T],
    ) -> (result: Result<(), Self::Error>)
        ensures
            fault_kept(
                result,
                (DeviceCall::StoreAt {
                    room: Self::values(&*old(buffer)).len(),
                    offset: offset as nat,
                    values: values@.len(),
                }),
                Self::faults(&*old(context)),
                Self::faults(&*final(context)),
            ),
            Self::values(&*final(buffer)).len() == Self::values(&*old(buffer)).len(),
            result is Ok ==> {
                &&& offset + values@.len() <= Self::values(&*old(buffer)).len()
                &&& Self::values(&*final(buffer)) == overwritten(
                    Self::values(&*old(buffer)),
                    offset as int,
                    values@,
                )
            },
    ;

    fn copy_from_device(context: &mut Self::Context, buffer: &Self::Buffer) -> (result: Result<
        Vec<T>,
        Self::Error,
    >)
        ensures
            fault_kept(
                result,
                (DeviceCall::Load { held: Self::values(buffer).len() }),
                Self::faults(&*old(context)),
                Self::faults(&*final(context)),
            ),
            result is Ok ==> result->Ok_0@ == Self::values(buffer),
    ;

    fn copy_from_device_at(
        context: &mut Self::Context,
        buffer: &Self::Buffer,
        offset: usize,
        length: usize,
    ) -> (result: Result<Vec<T>, Self::Error>)
        ensures
            fault_kept(
                result,
                (DeviceCall::LoadAt {
                    held: Self::values(buffer).len(),
                    offset: offset as nat,
                    length: length as nat,
                }),
                Self::faults(&*old(context)),
                Self::faults(&*final(context)),
            ),
            result is Ok ==> {
                &&& offset + length <= Self::values(buffer).len()
                &&& result->Ok_0@ == Self::values(buffer).subrange(
                    offset as int,
                    offset + length,
                )
            },
    ;

    fn prepare_reduction(length: u32, destination_offset: u32) -> (launch: Self::ReductionLaunch)
        ensures
            Self::extent(&launch) == (length as nat, destination_offset as nat),
    ;

    fn launch_reduction(
        context: &mut Self::Context,
        kernel: &Self::Kernel,
        launch: &Self::ReductionLaunch,
        source: &Self::Buffer,
        destination: &mut Self::Buffer,
    ) -> (result: Result<(), Self::Error>)
        ensures
            fault_kept(
                result,
                (DeviceCall::Reduce {
                    source: Self::values(source).len(),
                    destination: Self::values(&*old(destination)).len(),
                    length: Self::extent(launch).0,
                    offset: Self::extent(launch).1,
                }),
                Self::faults(&*old(context)),
                Self::faults(&*final(context)),
            ),
            Self::values(&*final(destination)).len() == Self::values(&*old(destination)).len(),
            result is Ok ==> {
                let (length, offset) = Self::extent(launch);
                &&& length <= Self::values(source).len()
                &&& offset + length <= Self::values(&*old(destination)).len()
                &&& Self::values(&*final(destination)) == reduced_into(
                    Self::values(&*old(destination)),
                    offset as int,
                    Self::values(source).take(length as int),
                    Self::reduction(kernel),
                )
            },
    ;
}

} // verus!

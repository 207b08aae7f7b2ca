//! Memory on the ranks: allocation, upload and download.

use crate::in_process::buffer::{
    held_values, DistributedBuffer, RootedBuffer, VariableDistributedBuffer,
};
use crate::in_process::collective::{
    asked_of, foreign, kept, outside, rooted_defect, settled, InProcessCollective,
};
use crate::in_process::device::InProcessDevice;
use crate::in_process::error::InProcessError;
use crate::rank::device::DeviceCall;
use std::marker::PhantomData;
use vstd::prelude::*;

verus! {

/// Why existing buffers cannot be attached: for a reason of the collective's
/// own, or because one lies on another device than its rank's.
#[derive(Debug, PartialEq, Eq)]
pub enum ImportError {
    InProcess(InProcessError),
    DeviceMismatch,
}

/// Whether the ranks' buffers, taken one by one, all have the first one's length
/// and all lie on their rank's device, and what the first that does not lacks.
pub open spec fn import_defect(lengths: Seq<nat>, on_device: Seq<bool>, ranks: int) -> Option<
    ImportError,
>
    decreases ranks,
{
    if ranks <= 0 {
        None
    } else {
        match import_defect(lengths, on_device, ranks - 1) {
            Some(defect) => Some(defect),
            None => if lengths[ranks - 1] != lengths[0] {
                Some(
                    ImportError::InProcess(
                        InProcessError::InvalidLength("rank tensor lengths must match"),
                    ),
                )
            } else if !on_device[ranks - 1] {
                Some(ImportError::DeviceMismatch)
            } else {
                None
            },
        }
    }
}

/// Why buffers are not attached, if they are not.
pub open spec fn attach_defect(lengths: Seq<nat>, on_device: Seq<bool>, world: int) -> Option<
    ImportError,
> {
    if lengths.len() != world {
        Some(
            ImportError::InProcess(
                InProcessError::InvalidLength("one tensor buffer is required per rank"),
            ),
        )
    } else if world == 0 {
        Some(ImportError::InProcess(InProcessError::EmptyWorld))
    } else {
        import_defect(lengths, on_device, world)
    }
}

/// The lengths of buffers.
pub open spec fn lengths_of<T, D: InProcessDevice<T>>(buffers: Seq<D::Buffer>) -> Seq<nat> {
    Seq::new(buffers.len(), |i: int| D::values(&buffers[i]).len())
}

/// A defect among the first ranks is the defect.
proof fn lemma_import_prefix(lengths: Seq<nat>, on_device: Seq<bool>, some: int, all: int)
    requires
        0 <= some <= all,
        import_defect(lengths, on_device, some) is Some,
    ensures
        import_defect(lengths, on_device, all) == import_defect(lengths, on_device, some),
    decreases all - some,
{
    if some < all {
        lemma_import_prefix(lengths, on_device, some, all - 1);
    }
}

proof fn lemma_import_even(lengths: Seq<nat>, on_device: Seq<bool>, all: int, rank: int)
    requires
        0 <= rank < all,
        import_defect(lengths, on_device, all) is None,
    ensures
        lengths[rank] == lengths[0],
    decreases all,
{
    if rank < all - 1 {
        lemma_import_even(lengths, on_device, all - 1, rank);
    }
}

/// What a variable buffer's upload or download is refused for.
pub open spec fn variable_defect<T, D: InProcessDevice<T>>(
    id: u64,
    world: int,
    buffer: &VariableDistributedBuffer<T, D>,
    rank: usize,
) -> Option<InProcessError> {
    match foreign(id, world, buffer.communicator_id, buffer.buffers@.len() as int) {
        Some(defect) => Some(defect),
        None => outside(rank, world),
    }
}

/// What a variable buffer's upload of `length` elements is refused for.
pub open spec fn upload_defect<T, D: InProcessDevice<T>>(
    id: u64,
    world: int,
    buffer: &VariableDistributedBuffer<T, D>,
    rank: usize,
    length: int,
) -> Option<InProcessError> {
    match variable_defect(id, world, buffer, rank) {
        Some(defect) => Some(defect),
        None => if length != buffer.lengths@[rank as int] {
            Some(
                InProcessError::InvalidLength(
                    "variable rank upload length does not match allocation",
                ),
            )
        } else {
            None
        },
    }
}

/// What a buffer's upload or download is refused for.
pub open spec fn rank_defect<T, D: InProcessDevice<T>>(
    id: u64,
    world: int,
    buffer: &DistributedBuffer<T, D>,
    rank: usize,
) -> Option<InProcessError> {
    match foreign(id, world, buffer.communicator_id, buffer.buffers@.len() as int) {
        Some(defect) => Some(defect),
        None => outside(rank, world),
    }
}

/// A defect as the result that it makes.
pub open spec fn unless<R>(defect: Option<InProcessError>, value: R) -> Result<R, InProcessError> {
    match defect {
        Some(defect) => Err(defect),
        None => Ok(value),
    }
}

/// What a download brought.
pub open spec fn downloaded<T, E>(result: Result<Vec<T>, E>) -> Result<Seq<T>, E> {
    match result {
        Ok(values) => Ok(values@),
        Err(error) => Err(error),
    }
}

impl<'a, T, D: InProcessDevice<T>, E> InProcessCollective<'a, T, D, E> where
    E: From<D::Error> + From<InProcessError>,
 {
    /// Attaches existing rank buffers without moving their values. `on_device`
    /// says of each whether it lies on its rank's device.
    pub fn import_buffers(&self, buffers: Vec<D::Buffer>, on_device: &[bool]) -> (result: Result<
        DistributedBuffer<T, D>,
        ImportError,
    >)
        requires
            on_device@.len() == buffers@.len(),
        ensures
            match attach_defect(lengths_of::<T, D>(buffers@), on_device@, self.world()) {
                Some(defect) => result is Err && result->Err_0 == defect,
                None => {
                    &&& result is Ok
                    &&& result->Ok_0.communicator_id == self.id
                    &&& result->Ok_0.buffers@ == buffers@
                    &&& result->Ok_0.wf()
                },
            },
    {
        let ghost lengths = lengths_of::<T, D>(buffers@);
        if buffers.len() != self.world_size() {
            return Err(
                ImportError::InProcess(
                    InProcessError::InvalidLength("one tensor buffer is required per rank"),
                ),
            );
        }
        if buffers.len() == 0 {
            return Err(ImportError::InProcess(InProcessError::EmptyWorld));
        }
        let length_per_rank: usize = D::buffer_len(&buffers[0]);
        let mut rank: usize = 0;
        while rank < buffers.len()
            invariant
                rank <= buffers@.len(),
                buffers@.len() == self.world(),
                0 < buffers@.len(),
                on_device@.len() == buffers@.len(),
                lengths == lengths_of::<T, D>(buffers@),
                length_per_rank == lengths[0],
                import_defect(lengths, on_device@, rank as int) is None,
            decreases buffers.len() - rank,
        {
            if D::buffer_len(&buffers[rank]) != length_per_rank {
                proof {
                    lemma_import_prefix(lengths, on_device@, rank + 1, self.world());
                }
                return Err(
                    ImportError::InProcess(
                        InProcessError::InvalidLength("rank tensor lengths must match"),
                    ),
                );
            }
            if !on_device[rank] {
                proof {
                    lemma_import_prefix(lengths, on_device@, rank + 1, self.world());
                }
                return Err(ImportError::DeviceMismatch);
            }
            rank = rank + 1;
        }
        proof {
            assert forall|i: int| 0 <= i < buffers@.len() implies D::values(
                &#[trigger] buffers@[i],
            ).len() == length_per_rank by {
                lemma_import_even(lengths, on_device@, rank as int, i);
                assert(lengths[i] == D::values(&buffers@[i]).len());
            }
        }
        Ok(
            DistributedBuffer {
                communicator_id: self.id,
                buffers,
                length_per_rank,
                marker: PhantomData,
            },
        )
    }

    pub fn allocate(&mut self, length_per_rank: usize) -> (result: Result<
        DistributedBuffer<T, D>,
        E,
    >)
        ensures
            *final(final(self).contexts) == *final(old(self).contexts),
            final(self).same(old(self)),
            asked_of(
                old(self).faults(),
                final(self).faults(),
                |on: int, call: DeviceCall|
                    call == (DeviceCall::Allocate { length: length_per_rank as nat }),
            ),
            kept(result, old(self).faults(), final(self).faults()),
            result matches Ok(buffer) ==> {
                &&& buffer.communicator_id == old(self).id
                &&& buffer.buffers@.len() == old(self).world()
                &&& buffer.length_per_rank == length_per_rank
                &&& buffer.wf()
            },
    {
        let mut buffers: Vec<D::Buffer> = Vec::new();
        let mut rank: usize = 0;
        while rank < self.world_size()
            invariant
                rank <= self.world(),
                *final(self.contexts) == *final(old(self).contexts),
                self.same(old(self)),
                self.faults() == old(self).faults(),
                buffers@.len() == rank,
                forall|i: int|
                    0 <= i < rank ==> D::values(&#[trigger] buffers@[i]).len() == length_per_rank,
            decreases self.world() - rank,
        {
            match self.allocate_on(rank, length_per_rank) {
                Ok(buffer) => {
                    buffers.push(buffer);
                },
                Err(error) => {
                    return Err(error);
                },
            }
            rank = rank + 1;
        }
        Ok(
            DistributedBuffer {
                communicator_id: self.id,
                buffers,
                length_per_rank,
                marker: PhantomData,
            },
        )
    }

    pub fn allocate_rooted(&mut self, root: usize, length: usize) -> (result: Result<
        RootedBuffer<T, D>,
        E,
    >)
        ensures
            *final(final(self).contexts) == *final(old(self).contexts),
            final(self).same(old(self)),
            asked_of(
                old(self).faults(),
                final(self).faults(),
                |on: int, call: DeviceCall|
                    on == root && call == (DeviceCall::Allocate { length: length as nat }),
            ),
            match result {
                Ok(buffer) => {
                    &&& outside(root, old(self).world()) is None
                    &&& final(self).faults() == old(self).faults()
                    &&& buffer.communicator_id == old(self).id
                    &&& buffer.root == root
                    &&& D::values(&buffer.buffer).len() == length
                },
                Err(_) => settled(
                    unless(outside(root, old(self).world()), arbitrary()),
                    old(self).faults(),
                    final(self).faults(),
                    result,
                ),
            },
    {
        match self.check_rank(root) {
            Ok(()) => {},
            Err(error) => {
                return Err(E::from(error));
            },
        }
        match self.allocate_on(root, length) {
            Ok(buffer) => Ok(
                RootedBuffer { communicator_id: self.id, root, buffer, marker: PhantomData },
            ),
            Err(error) => Err(error),
        }
    }

    pub fn allocate_variable(&mut self, lengths: &[usize]) -> (result: Result<
        VariableDistributedBuffer<T, D>,
        E,
    >)
        ensures
            *final(final(self).contexts) == *final(old(self).contexts),
            final(self).same(old(self)),
            asked_of(
                old(self).faults(),
                final(self).faults(),
                |on: int, call: DeviceCall|
                    call == (DeviceCall::Allocate { length: lengths@[on] as nat }),
            ),
            match result {
                Ok(buffer) => {
                    &&& lengths@.len() == old(self).world()
                    &&& final(self).faults() == old(self).faults()
                    &&& buffer.communicator_id == old(self).id
                    &&& buffer.lengths@ == lengths@
                    &&& buffer.wf()
                },
                Err(_) => settled(
                    unless(
                        if lengths@.len() != old(self).world() {
                            Some(
                                InProcessError::InvalidLength(
                                    "variable buffer lengths must contain one entry per rank",
                                ),
                            )
                        } else {
                            None
                        },
                        arbitrary(),
                    ),
                    old(self).faults(),
                    final(self).faults(),
                    result,
                ),
            },
    {
        if lengths.len() != self.world_size() {
            return Err(
                E::from(
                    InProcessError::InvalidLength(
                        "variable buffer lengths must contain one entry per rank",
                    ),
                ),
            );
        }
        let mut buffers: Vec<Option<D::Buffer>> = Vec::new();
        let mut kept_lengths: Vec<usize> = Vec::new();
        let mut rank: usize = 0;
        while rank < self.world_size()
            invariant
                rank <= self.world(),
                lengths@.len() == self.world(),
                *final(self.contexts) == *final(old(self).contexts),
                self.same(old(self)),
                self.faults() == old(self).faults(),
                buffers@.len() == rank,
                kept_lengths@ == lengths@.take(rank as int),
                forall|i: int|
                    0 <= i < rank ==> {
                        &&& held_values::<T, D>(#[trigger] buffers@[i]).len() == lengths@[i]
                        &&& buffers@[i] is None <==> lengths@[i] == 0
                    },
            decreases self.world() - rank,
        {
            let length: usize = lengths[rank];
            if length == 0 {
                buffers.push(None);
            } else {
                match self.allocate_on(rank, length) {
                    Ok(buffer) => {
                        buffers.push(Some(buffer));
                    },
                    Err(error) => {
                        return Err(error);
                    },
                }
            }
            kept_lengths.push(length);
            assert(kept_lengths@ =~= lengths@.take(rank + 1));
            rank = rank + 1;
        }
        assert(kept_lengths@ =~= lengths@);
        Ok(
            VariableDistributedBuffer {
                communicator_id: self.id,
                buffers,
                lengths: kept_lengths,
                marker: PhantomData,
            },
        )
    }

    pub fn upload_variable_rank(
        &mut self,
        buffer: &mut VariableDistributedBuffer<T, D>,
        rank: usize,
        values: &[T],
    ) -> (result: Result<(), E>)
        requires
            old(buffer).wf(),
        ensures
            *final(final(self).contexts) == *final(old(self).contexts),
            final(self).same(old(self)),
            asked_of(
                old(self).faults(),
                final(self).faults(),
                |on: int, call: DeviceCall|
                    on == rank && call == (DeviceCall::Store {
                        room: old(buffer).rows()[on].len(),
                        values: values@.len(),
                    }),
            ),
            final(buffer).wf(),
            final(buffer).communicator_id == old(buffer).communicator_id,
            final(buffer).lengths == old(buffer).lengths,
            forall|i: int|
                0 <= i < old(buffer).buffers@.len() && i != rank ==> final(buffer).rows()[i] == old(
                    buffer,
                ).rows()[i],
            result is Ok ==> final(buffer).rows() == old(buffer).rows().update(
                rank as int,
                values@,
            ),
            upload_defect(
                old(self).id,
                old(self).world(),
                &*old(buffer),
                rank,
                values@.len() as int,
            ) is Some ==> {
                &&& final(buffer).rows() == old(buffer).rows()
                &&& final(self).faults() == old(self).faults()
            },
            settled(
                unless(
                    upload_defect(
                        old(self).id,
                        old(self).world(),
                        &*old(buffer),
                        rank,
                        values@.len() as int,
                    ),
                    (),
                ),
                old(self).faults(),
                final(self).faults(),
                result,
            ),
    {
        match self.validate_variable_buffer(&*buffer) {
            Ok(()) => {},
            Err(error) => {
                return Err(E::from(error));
            },
        }
        match self.check_rank(rank) {
            Ok(()) => {},
            Err(error) => {
                return Err(E::from(error));
            },
        }
        if values.len() != buffer.lengths[rank] {
            return Err(
                E::from(
                    InProcessError::InvalidLength(
                        "variable rank upload length does not match allocation",
                    ),
                ),
            );
        }
        let ghost was = buffer.rows();
        assert(held_values::<T, D>(buffer.buffers@[rank as int]).len() == values@.len());
        match &mut buffer.buffers[rank] {
            Some(rank_buffer) => {
                match self.store_on(rank, rank_buffer, values) {
                    Ok(()) => {},
                    Err(error) => {
                        return Err(error);
                    },
                }
            },
            None => {
                assert(values@ =~= Seq::empty());
            },
        }
        assert(buffer.rows() =~= was.update(rank as int, values@));
        Ok(())
    }

    pub fn download_variable_rank(
        &mut self,
        buffer: &VariableDistributedBuffer<T, D>,
        rank: usize,
    ) -> (result: Result<Vec<T>, E>)
        requires
            buffer.wf(),
        ensures
            *final(final(self).contexts) == *final(old(self).contexts),
            final(self).same(old(self)),
            asked_of(
                old(self).faults(),
                final(self).faults(),
                |on: int, call: DeviceCall|
                    on == rank && call == (DeviceCall::Load {
                        held: buffer.rows()[on].len(),
                    }),
            ),
            variable_defect(old(self).id, old(self).world(), buffer, rank) is Some ==> final(self).faults() == old(self).faults(),
            settled(
                unless(
                    variable_defect(old(self).id, old(self).world(), buffer, rank),
                    buffer.rows()[rank as int],
                ),
                old(self).faults(),
                final(self).faults(),
                downloaded(result),
            ),
    {
        match self.validate_variable_buffer(buffer) {
            Ok(()) => {},
            Err(error) => {
                return Err(E::from(error));
            },
        }
        match self.check_rank(rank) {
            Ok(()) => {},
            Err(error) => {
                return Err(E::from(error));
            },
        }
        match &buffer.buffers[rank] {
            Some(rank_buffer) => self.load_from(rank, rank_buffer),
            None => Ok(Vec::new()),
        }
    }

    pub fn upload_root(&mut self, buffer: &mut RootedBuffer<T, D>, values: &[T]) -> (result: Result<
        (),
        E,
    >)
        ensures
            *final(final(self).contexts) == *final(old(self).contexts),
            final(self).same(old(self)),
            asked_of(
                old(self).faults(),
                final(self).faults(),
                |on: int, call: DeviceCall|
                    on == old(buffer).root && call == (DeviceCall::Store {
                        room: D::values(&old(buffer).buffer).len(),
                        values: values@.len(),
                    }),
            ),
            final(buffer).communicator_id == old(buffer).communicator_id,
            final(buffer).root == old(buffer).root,
            D::values(&final(buffer).buffer).len() == D::values(&old(buffer).buffer).len(),
            result is Ok ==> D::values(&final(buffer).buffer) == values@,
            rooted_defect(
                old(self).id,
                old(self).world(),
                old(buffer).communicator_id,
                old(buffer).root,
            ) is Some ==> {
                &&& D::values(&final(buffer).buffer) == D::values(&old(buffer).buffer)
                &&& final(self).faults() == old(self).faults()
            },
            settled(
                unless(
                    rooted_defect(
                        old(self).id,
                        old(self).world(),
                        old(buffer).communicator_id,
                        old(buffer).root,
                    ),
                    (),
                ),
                old(self).faults(),
                final(self).faults(),
                result,
            ),
    {
        match self.validate_rooted_buffer(&*buffer) {
            Ok(()) => {},
            Err(error) => {
                return Err(E::from(error));
            },
        }
        let root: usize = buffer.root;
        self.store_on(root, &mut buffer.buffer, values)
    }

    pub fn download_root(&mut self, buffer: &RootedBuffer<T, D>) -> (result: Result<Vec<T>, E>)
        ensures
            *final(final(self).contexts) == *final(old(self).contexts),
            final(self).same(old(self)),
            asked_of(
                old(self).faults(),
                final(self).faults(),
                |on: int, call: DeviceCall|
                    on == buffer.root && call == (DeviceCall::Load {
                        held: D::values(&buffer.buffer).len(),
                    }),
            ),
            rooted_defect(
                old(self).id,
                old(self).world(),
                buffer.communicator_id,
                buffer.root,
            ) is Some ==> final(self).faults() == old(self).faults(),
            settled(
                unless(
                    rooted_defect(
                        old(self).id,
                        old(self).world(),
                        buffer.communicator_id,
                        buffer.root,
                    ),
                    D::values(&buffer.buffer),
                ),
                old(self).faults(),
                final(self).faults(),
                downloaded(result),
            ),
    {
        match self.validate_rooted_buffer(buffer) {
            Ok(()) => {},
            Err(error) => {
                return Err(E::from(error));
            },
        }
        self.load_from(buffer.root, &buffer.buffer)
    }

    pub fn upload_rank(
        &mut self,
        buffer: &mut DistributedBuffer<T, D>,
        rank: usize,
        values: &[T],
    ) -> (result: Result<(), E>)
        ensures
            *final(final(self).contexts) == *final(old(self).contexts),
            final(self).same(old(self)),
            asked_of(
                old(self).faults(),
                final(self).faults(),
                |on: int, call: DeviceCall|
                    on == rank && call == (DeviceCall::Store {
                        room: old(buffer).rows()[on].len(),
                        values: values@.len(),
                    }),
            ),
            old(buffer).wf() ==> final(buffer).wf(),
            final(buffer).communicator_id == old(buffer).communicator_id,
            final(buffer).length_per_rank == old(buffer).length_per_rank,
            final(buffer).buffers@.len() == old(buffer).buffers@.len(),
            forall|i: int|
                0 <= i < old(buffer).buffers@.len() && i != rank ==> final(buffer).rows()[i] == old(
                    buffer,
                ).rows()[i],
            result is Ok ==> final(buffer).rows() == old(buffer).rows().update(
                rank as int,
                values@,
            ),
            rank_defect(old(self).id, old(self).world(), &*old(buffer), rank) is Some ==> {
                &&& final(buffer).rows() == old(buffer).rows()
                &&& final(self).faults() == old(self).faults()
            },
            settled(
                unless(rank_defect(old(self).id, old(self).world(), &*old(buffer), rank), ()),
                old(self).faults(),
                final(self).faults(),
                result,
            ),
    {
        match self.validate_buffer(&*buffer) {
            Ok(()) => {},
            Err(error) => {
                return Err(E::from(error));
            },
        }
        match self.check_rank(rank) {
            Ok(()) => {},
            Err(error) => {
                return Err(E::from(error));
            },
        }
        let ghost was = buffer.rows();
        match self.store_on(rank, &mut buffer.buffers[rank], values) {
            Ok(()) => {},
            Err(error) => {
                return Err(error);
            },
        }
        assert(buffer.rows() =~= was.update(rank as int, values@));
        Ok(())
    }

    pub fn download_rank(&mut self, buffer: &DistributedBuffer<T, D>, rank: usize) -> (result:
        Result<Vec<T>, E>)
        ensures
            *final(final(self).contexts) == *final(old(self).contexts),
            final(self).same(old(self)),
            asked_of(
                old(self).faults(),
                final(self).faults(),
                |on: int, call: DeviceCall|
                    on == rank && call == (DeviceCall::Load {
                        held: buffer.rows()[on].len(),
                    }),
            ),
            rank_defect(old(self).id, old(self).world(), buffer, rank) is Some ==> final(self).faults() == old(self).faults(),
            settled(
                unless(
                    rank_defect(old(self).id, old(self).world(), buffer, rank),
                    buffer.rows()[rank as int],
                ),
                old(self).faults(),
                final(self).faults(),
                downloaded(result),
            ),
    {
        match self.validate_buffer(buffer) {
            Ok(()) => {},
            Err(error) => {
                return Err(E::from(error));
            },
        }
        match self.check_rank(rank) {
            Ok(()) => {},
            Err(error) => {
                return Err(E::from(error));
            },
        }
        self.load_from(rank, &buffer.buffers[rank])
    }
}

} // verus!

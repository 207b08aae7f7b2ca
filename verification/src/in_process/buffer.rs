//! Buffers that are spread over the ranks of a communicator.

use crate::in_process::device::InProcessDevice;
use std::marker::PhantomData;
use vstd::prelude::*;

verus! {

/// One buffer per rank, all of one length.
pub struct DistributedBuffer<T, D: InProcessDevice<T>> {
    pub communicator_id: u64,
    pub buffers: Vec<D::Buffer>,
    pub length_per_rank: usize,
    pub marker: PhantomData<(T, D)>,
}

/// One buffer per rank, each of a length of its own; a rank of length 0 has none.
pub struct VariableDistributedBuffer<T, D: InProcessDevice<T>> {
    pub communicator_id: u64,
    pub buffers: Vec<Option<D::Buffer>>,
    pub lengths: Vec<usize>,
    pub marker: PhantomData<(T, D)>,
}

/// A buffer on one rank.
pub struct RootedBuffer<T, D: InProcessDevice<T>> {
    pub communicator_id: u64,
    pub root: usize,
    pub buffer: D::Buffer,
    pub marker: PhantomData<(T, D)>,
}

impl<T, D: InProcessDevice<T>> DistributedBuffer<T, D> {
    /// What the ranks' buffers hold.
    pub open spec fn rows(&self) -> Seq<Seq<T>> {
        Seq::new(self.buffers@.len(), |rank: int| D::values(&self.buffers@[rank]))
    }

    /// Every rank's buffer has the buffer's length.
    pub open spec fn wf(&self) -> bool {
        forall|rank: int|
            0 <= rank < self.buffers@.len() ==> D::values(&#[trigger] self.buffers@[rank]).len()
                == self.length_per_rank
    }

    pub fn world_size(&self) -> (world_size: usize)
        ensures
            world_size == self.buffers@.len(),
    {
        self.buffers.len()
    }

    pub fn length_per_rank(&self) -> (length: usize)
        ensures
            length == self.length_per_rank,
    {
        self.length_per_rank
    }

    pub fn rank_buffer(&self, rank: usize) -> (buffer: Option<&D::Buffer>)
        ensures
            match buffer {
                Some(buffer) => rank < self.buffers@.len() && *buffer == self.buffers@[rank as int],
                None => rank >= self.buffers@.len(),
            },
    {
        if rank < self.buffers.len() {
            Some(&self.buffers[rank])
        } else {
            None
        }
    }
}

/// What a buffer that may be missing holds.
pub open spec fn held_values<T, D: InProcessDevice<T>>(buffer: Option<D::Buffer>) -> Seq<T> {
    match buffer {
        Some(buffer) => D::values(&buffer),
        None => Seq::empty(),
    }
}

impl<T, D: InProcessDevice<T>> VariableDistributedBuffer<T, D> {
    /// What the ranks' buffers hold.
    pub open spec fn rows(&self) -> Seq<Seq<T>> {
        Seq::new(self.buffers@.len(), |rank: int| held_values::<T, D>(self.buffers@[rank]))
    }

    /// Every rank's buffer has the length that is noted for it.
    pub open spec fn wf(&self) -> bool {
        &&& self.lengths@.len() == self.buffers@.len()
        &&& forall|rank: int|
            0 <= rank < self.buffers@.len() ==> {
                &&& held_values::<T, D>(#[trigger] self.buffers@[rank]).len()
                    == self.lengths@[rank]
                &&& self.buffers@[rank] is None <==> self.lengths@[rank] == 0
            }
    }

    pub fn world_size(&self) -> (world_size: usize)
        ensures
            world_size == self.buffers@.len(),
    {
        self.buffers.len()
    }

    pub fn rank_length(&self, rank: usize) -> (length: Option<usize>)
        ensures
            length == (if rank < self.lengths@.len() {
                Some(self.lengths@[rank as int])
            } else {
                None
            }),
    {
        if rank < self.lengths.len() {
            Some(self.lengths[rank])
        } else {
            None
        }
    }

    pub fn rank_buffer(&self, rank: usize) -> (buffer: Option<&D::Buffer>)
        ensures
            match buffer {
                Some(buffer) => rank < self.buffers@.len() && self.buffers@[rank as int] == Some(
                    *buffer,
                ),
                None => rank < self.buffers@.len() ==> self.buffers@[rank as int] is None,
            },
    {
        if rank < self.buffers.len() {
            match &self.buffers[rank] {
                Some(buffer) => Some(buffer),
                None => None,
            }
        } else {
            None
        }
    }
}

impl<T, D: InProcessDevice<T>> RootedBuffer<T, D> {
    pub fn root(&self) -> (root: usize)
        ensures
            root == self.root,
    {
        self.root
    }

    pub fn len(&self) -> (length: usize)
        ensures
            length == D::values(&self.buffer).len(),
    {
        D::buffer_len(&self.buffer)
    }

    pub fn is_empty(&self) -> (empty: bool)
        ensures
            empty == (D::values(&self.buffer).len() == 0),
    {
        D::buffer_is_empty(&self.buffer)
    }

    pub fn buffer(&self) -> (buffer: &D::Buffer)
        ensures
            *buffer == self.buffer,
    {
        &self.buffer
    }
}

} // verus!

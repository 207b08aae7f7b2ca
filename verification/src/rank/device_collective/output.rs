//! What collectives hand back.

use crate::math::{lemma_sum_prefix, lemma_sum_step, sum_usize};
use vstd::prelude::*;

verus! {

/// A buffer of elements from every rank, with the counts by rank. There is no
/// buffer where nothing was received.
#[derive(Debug, Clone)]
pub struct VariableCollectiveOutput<B> {
    pub buffer: Option<B>,
    pub counts: Vec<usize>,
}

/// A received point-to-point message.
#[derive(Debug, Clone)]
pub struct ReceivedMessage<B> {
    pub buffer: B,
    pub source_rank: u32,
    pub tag: u64,
}

impl<B> ReceivedMessage<B> {
    pub fn buffer(&self) -> (buffer: &B)
        ensures
            *buffer == self.buffer,
    {
        &self.buffer
    }

    pub fn source_rank(&self) -> (rank: u32)
        ensures
            rank == self.source_rank,
    {
        self.source_rank
    }

    pub fn tag(&self) -> (tag: u64)
        ensures
            tag == self.tag,
    {
        self.tag
    }
}

impl<B> VariableCollectiveOutput<B> {
    pub fn buffer(&self) -> (buffer: Option<&B>)
        ensures
            match buffer {
                Some(buffer) => self.buffer == Some(*buffer),
                None => self.buffer is None,
            },
    {
        match &self.buffer {
            Some(buffer) => Some(buffer),
            None => None,
        }
    }

    pub fn counts(&self) -> (counts: &[usize])
        ensures
            counts@ == self.counts@,
    {
        self.counts.as_slice()
    }

    /// The elements in all. The counts of an output always fit.
    pub fn len(&self) -> (length: usize)
        requires
            sum_usize(self.counts@) <= usize::MAX,
        ensures
            length == sum_usize(self.counts@),
    {
        let mut total: usize = 0;
        let mut index: usize = 0;
        while index < self.counts.len()
            invariant
                index <= self.counts@.len(),
                sum_usize(self.counts@) <= usize::MAX,
                total == sum_usize(self.counts@.take(index as int)),
            decreases self.counts.len() - index,
        {
            proof {
                lemma_sum_step(self.counts@, index as int);
                lemma_sum_prefix(self.counts@, index + 1);
            }
            total = total + self.counts[index];
            index = index + 1;
        }
        assert(self.counts@.take(index as int) =~= self.counts@);
        total
    }

    pub fn is_empty(&self) -> (empty: bool)
        ensures
            empty == self.buffer is None,
    {
        self.buffer.is_none()
    }
}

} // verus!

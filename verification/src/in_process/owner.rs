//! The owner of an in-process world's contexts.

use crate::in_process::collective::InProcessCollective;
use crate::in_process::device::InProcessDevice;
use crate::in_process::error::InProcessError;
use crate::rank::error::raised;
use crate::rank::{CollectiveAlgorithm, CollectiveStats, CollectiveTransport};
use std::marker::PhantomData;
use vstd::prelude::*;

verus! {

/// Where communicators get their numbers from. It counts up from 1 and cannot
/// be copied, so a process that makes one keeps its communicators apart.
#[derive(Debug)]
pub struct CommunicatorIds {
    next: u64,
}

impl CommunicatorIds {
    /// The number of the next communicator.
    pub closed spec fn upcoming(self) -> u64 {
        self.next
    }

    pub fn new() -> (ids: Self)
        ensures
            ids.upcoming() == 1,
    {
        CommunicatorIds { next: 1 }
    }
}

pub struct Communicator<C> {
    pub id: u64,
    pub contexts: Vec<C>,
}

impl<C> Communicator<C> {
    /// A communicator of the contexts, in rank order, and what `initialize` made
    /// of the first. Only a communicator that comes to be takes a number.
    pub fn new<K, E, F>(ids: &mut CommunicatorIds, contexts: Vec<C>, initialize: F) -> (result:
        Result<(Self, K), E>) where F: FnOnce(&C) -> Result<K, E>, E: From<InProcessError>
        requires
            contexts@.len() > 0 ==> initialize.requires((&contexts@[0],)),
        ensures
            match result {
                Ok((communicator, kernels)) => {
                    &&& contexts@.len() > 0
                    &&& initialize.ensures((&contexts@[0],), Ok::<K, E>(kernels))
                    &&& communicator.contexts@ == contexts@
                    &&& communicator.id == old(ids).upcoming()
                    &&& final(ids).upcoming() == old(ids).upcoming().wrapping_add(1)
                },
                Err(error) => {
                    &&& final(ids).upcoming() == old(ids).upcoming()
                    &&& if contexts@.len() == 0 {
                        raised(InProcessError::EmptyWorld, error)
                    } else {
                        initialize.ensures((&contexts@[0],), Err::<K, E>(error))
                    }
                },
            },
    {
        if contexts.len() == 0 {
            return Err(E::from(InProcessError::EmptyWorld));
        }
        let kernels = match initialize(&contexts[0]) {
            Ok(kernels) => kernels,
            Err(error) => {
                return Err(error);
            },
        };
        let id: u64 = ids.next;
        ids.next = id.wrapping_add(1);
        Ok((Communicator { id, contexts }, kernels))
    }

    pub fn world_size(&self) -> (world_size: usize)
        ensures
            world_size == self.contexts@.len(),
    {
        self.contexts.len()
    }

    pub fn transport(&self) -> (transport: CollectiveTransport)
        ensures
            transport == CollectiveTransport::HostStaged,
    {
        CollectiveTransport::HostStaged
    }

    /// The collectives on the contexts.
    pub fn collective<T, D, E>(&mut self) -> (collective: InProcessCollective<'_, T, D, E>) where
        D: InProcessDevice<T, Context = C>,
        E: From<D::Error> + From<InProcessError>,

        ensures
            collective.id == old(self).id,
            *collective.contexts == old(self).contexts,
            final(self).id == old(self).id,
            final(self).contexts == *final(collective.contexts),
    {
        InProcessCollective { id: self.id, contexts: &mut self.contexts, marker: PhantomData }
    }

    pub fn barrier(&self) -> (result: Result<CollectiveStats, InProcessError>)
        ensures
            if self.contexts@.len() == 0 {
                result == Err::<CollectiveStats, InProcessError>(InProcessError::EmptyWorld)
            } else {
                result == Ok::<CollectiveStats, InProcessError>(
                    (CollectiveStats {
                        algorithm: CollectiveAlgorithm::Direct,
                        transport: CollectiveTransport::HostStaged,
                        steps: if self.contexts@.len() > 1 {
                            1
                        } else {
                            0
                        },
                        transferred_bytes: 0,
                        reduction_kernel_launches: 0,
                    }),
                )
            },
    {
        if self.world_size() == 0 {
            return Err(InProcessError::EmptyWorld);
        }
        let mut stats = CollectiveStats::new(CollectiveAlgorithm::Direct);
        if self.world_size() > 1 {
            stats.steps = 1;
        }
        Ok(stats)
    }
}

} // verus!

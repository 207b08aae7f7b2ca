//! A rank's communicator: its device, its transport and how it is tuned.

use crate::rank::device::RankDevice;
use crate::rank::device_collective::{CollectiveModel, DeviceCollective, RankLink};
use crate::rank::error::{raised, RankError};
use crate::rank::host::HostStagedExchange;
use crate::rank::network::NetworkError;
use crate::rank::protocol::ElementType;
use crate::rank::topology::tuning::{CollectiveTuning, TuningModel};
use crate::rank::topology::{CollectiveKind, CollectivePlan, TopologyError, TopologyFailure};
use crate::rank::transport::{RankPlace, RankTransport};
use crate::rank::CollectiveTransport;
use crate::text::{decimal, push_decimal};
use vstd::prelude::*;
use vstd::string::*;

verus! {

pub struct RankCommunicator<D, S: RankTransport> {
    pub link: RankLink<D, S>,
    pub tuning: CollectiveTuning,
    pub collective_rail_order: Vec<usize>,
}

/// Why a tuning does not fit a transport, if it does not.
pub open spec fn tuning_defect(place: RankPlace, tuning: TuningModel) -> Option<TopologyFailure> {
    if tuning.transport != place.transport {
        Some(
            TopologyFailure::TransportMismatch {
                tuning: tuning.transport,
                communicator: place.transport,
            },
        )
    } else if tuning.ring_order.len() != place.world_size {
        Some(
            TopologyFailure::InvalidRing(
                "contains "@ + decimal(tuning.ring_order.len()) + " ranks, expected "@ + decimal(
                    place.world_size as nat,
                ),
            ),
        )
    } else if tuning.p2p_rails != place.rails {
        Some(TopologyFailure::P2pRailMismatch { tuning: tuning.p2p_rails, session: place.rails })
    } else {
        None
    }
}

/// Checks a tuning against a transport.
fn check_tuning<S: RankTransport>(session: &S, tuning: &CollectiveTuning) -> (result: Result<
    (),
    TopologyError,
>)
    ensures
        match tuning_defect(session.place(), tuning@) {
            Some(defect) => result is Err && result->Err_0@ == defect,
            None => result is Ok,
        },
{
    let transport = session.transport();
    if tuning.transport() != transport {
        return Err(
            TopologyError::TransportMismatch {
                tuning: tuning.transport(),
                communicator: transport,
            },
        );
    }
    let ranks: usize = tuning.ring_order.len();
    if ranks != session.world_size() as usize {
        let mut text = String::from_str("contains ");
        push_decimal(&mut text, ranks as u64);
        text.append(" ranks, expected ");
        push_decimal(&mut text, session.world_size() as u64);
        return Err(TopologyError::InvalidRing(text));
    }
    if tuning.p2p_rails() != session.p2p_rails() {
        return Err(
            TopologyError::P2pRailMismatch {
                tuning: tuning.p2p_rails(),
                session: session.p2p_rails(),
            },
        );
    }
    Ok(())
}

impl<D, S: RankTransport> RankCommunicator<D, S> {
    /// What the collectives of an element type depend on.
    pub open spec fn model(&self, element_type: ElementType) -> CollectiveModel {
        CollectiveModel {
            place: self.link.session.place(),
            tuning: self.tuning@,
            rails: self.collective_rail_order@,
            element_type,
        }
    }

    /// The collectives can run: the rank is one of its world's, and every entry
    /// of an autotune profile has a channel.
    pub open spec fn ready(&self) -> bool {
        self.model(ElementType::Untyped).valid()
    }

    /// A communicator on a transport. The device is initialized only where the
    /// tuning fits.
    pub fn from_transport_with_tuning<F, E>(
        initialize: F,
        transport: S,
        tuning: CollectiveTuning,
    ) -> (result: Result<Self, E>) where F: FnOnce() -> Result<D, E>, E: From<TopologyError>
        requires
            tuning@.valid(),
            initialize.requires(()),
        ensures
            match tuning_defect(transport.place(), tuning@) {
                Some(defect) => result is Err && exists|cause: TopologyError|
                    #![trigger cause@]
                    cause@ == defect && raised(cause, result->Err_0),
                None => match result {
                    Ok(communicator) => {
                        &&& initialize.ensures(
                            (),
                            Ok::<D, E>(communicator.link.execution),
                        )
                        &&& communicator.link.session == transport
                        &&& communicator.link.internal_sequence == 0
                        &&& communicator.tuning == tuning
                        &&& communicator.collective_rail_order@ == tuning@.rail_order()
                        &&& transport.place().rank < transport.place().world_size
                            ==> communicator.ready()
                    },
                    Err(error) => initialize.ensures((), Err::<D, E>(error)),
                },
            },
    {
        match check_tuning(&transport, &tuning) {
            Ok(()) => {},
            Err(error) => {
                let ghost cause = error;
                let result = E::from(error);
                assert(cause@ == error@ && raised(cause, result));
                return Err(result);
            },
        }
        let execution = match initialize() {
            Ok(execution) => execution,
            Err(error) => {
                return Err(error);
            },
        };
        let collective_rail_order = tuning.rail_order();
        Ok(
            RankCommunicator {
                link: RankLink { execution, session: transport, internal_sequence: 0 },
                tuning,
                collective_rail_order,
            },
        )
    }

    pub fn rank(&self) -> (rank: u32)
        ensures
            rank == self.link.session.place().rank,
    {
        self.link.session.rank()
    }

    pub fn world_size(&self) -> (world_size: u32)
        ensures
            world_size == self.link.session.place().world_size,
    {
        self.link.session.world_size()
    }

    pub fn p2p_rails(&self) -> (rails: usize)
        ensures
            rails == self.link.session.place().rails,
    {
        self.link.session.p2p_rails()
    }

    pub fn collective_rail_order(&self) -> (order: &[usize])
        ensures
            order@ == self.collective_rail_order@,
    {
        self.collective_rail_order.as_slice()
    }

    pub fn plan_collective(&self, kind: CollectiveKind, payload_bytes: usize) -> (plan:
        CollectivePlan)
        requires
            self.tuning@.valid(),
        ensures
            plan == self.tuning@.plan(kind, payload_bytes),
    {
        self.tuning.plan(kind, payload_bytes)
    }

    pub fn transport(&self) -> (transport: CollectiveTransport)
        ensures
            transport == self.link.session.place().transport,
    {
        self.link.session.transport()
    }

    pub fn tuning(&self) -> (tuning: &CollectiveTuning)
        ensures
            *tuning == self.tuning,
    {
        &self.tuning
    }

    pub fn execution(&self) -> (execution: &D)
        ensures
            *execution == self.link.execution,
    {
        &self.link.execution
    }

    /// The collectives whose data is staged on the host.
    pub fn host(&mut self) -> (exchange: HostStagedExchange<'_, S>)
        ensures
            *exchange.session == old(self).link.session,
            final(self).link.session == *final(exchange.session),
            final(self).link.execution == old(self).link.execution,
            final(self).link.internal_sequence == old(self).link.internal_sequence,
            final(self).tuning == old(self).tuning,
            final(self).collective_rail_order == old(self).collective_rail_order,
    {
        HostStagedExchange::new(&mut self.link.session)
    }

    /// The collectives on the device, for an element type.
    pub fn device_collective<T>(&mut self, element_type: ElementType) -> (collective:
        DeviceCollective<'_, T, D, S>) where
        D: RankDevice<T>,
        D::Error: From<RankError> + From<NetworkError> + From<TopologyError>,

        ensures
            *collective.link == old(self).link,
            final(self).link == *final(collective.link),
            collective.model() == old(self).model(element_type),
            final(self).tuning == old(self).tuning,
            final(self).collective_rail_order == old(self).collective_rail_order,
    {
        DeviceCollective::new(
            &mut self.link,
            &self.tuning,
            self.collective_rail_order.as_slice(),
            element_type,
        )
    }
}

} // verus!

//! Messages from one rank to another.

use crate::rank::device::{asked, DeviceCall, RankDevice};
use crate::rank::device_collective::output::ReceivedMessage;
use crate::rank::device_collective::{
    conversed, exactly, from_network, CollectiveModel, DeviceCollective,
};
use crate::rank::error::RankError;
use crate::rank::host::exchange::stats_of;
use crate::rank::network::NetworkError;
use crate::rank::protocol::frame::FrameModel;
use crate::rank::script::{
    bad_reply, fails, lemma_asked, lemma_start, yields, Failure, Script, TransportCall,
    TransportReply,
};
use crate::rank::stats::CollectiveStats;
use crate::rank::topology::TopologyError;
use crate::rank::transport::{tag_rail, RankTransport};
use crate::rank::CollectiveAlgorithm;
use vstd::prelude::*;

verus! {

/// The script of a send.
pub open spec fn send_script<T, D: RankDevice<T>>(
    model: CollectiveModel,
    values: Seq<T>,
    destination: u32,
    tag: u64,
) -> Script<CollectiveStats, D::Error> {
    Script::Ask(
        TransportCall::Send {
            rail: tag_rail(tag, model.place.rails),
            destination,
            tag,
            element_type: model.element_type,
            element_count: values.len() as u64,
            payload: D::encoding(values),
        },
        |reply: TransportReply|
            match reply.outcome() {
                Err(failure) => fails(Failure::Network(failure)),
                Ok(()) => yields(
                    stats_of(
                        model.place,
                        CollectiveAlgorithm::Direct,
                        1,
                        D::encoding(values).len() as int,
                        0,
                    ),
                ),
            },
    )
}

/// Whether a frame is the one that was asked for.
pub open spec fn matches_request(
    model: CollectiveModel,
    frame: FrameModel,
    source: Option<u32>,
    tag: u64,
    length: int,
) -> bool {
    &&& frame.header.tag == tag
    &&& frame.header.element_type == model.element_type
    &&& frame.header.element_count == length
    &&& source matches Some(source) ==> frame.header.source_rank == source
}

/// A message as its values, its source and its tag, and the statistics.
pub struct MessageModel<T> {
    pub values: Seq<T>,
    pub source_rank: u32,
    pub tag: u64,
    pub stats: CollectiveStats,
}

pub open spec fn message_received<T, D: RankDevice<T>>(
    model: CollectiveModel,
    source: Option<u32>,
    tag: u64,
    length: int,
    reply: TransportReply,
) -> Script<MessageModel<T>, D::Error> {
    match reply.frame() {
        Err(failure) => fails(Failure::Network(failure)),
        Ok(frame) => if !matches_request(model, frame, source, tag, length) {
            fails(bad_reply("TCP point-to-point response does not match the receive request"@))
        } else {
            match exactly::<T, D>(frame.payload, length) {
                Err(failure) => fails(failure),
                Ok(values) => yields(
                    MessageModel {
                        values,
                        source_rank: frame.header.source_rank,
                        tag,
                        stats: stats_of(
                            model.place,
                            CollectiveAlgorithm::Direct,
                            1,
                            frame.payload.len() as int,
                            0,
                        ),
                    },
                ),
            }
        },
    }
}

/// The script of a receive.
pub open spec fn receive_script<T, D: RankDevice<T>>(
    model: CollectiveModel,
    source: Option<u32>,
    tag: u64,
    length: int,
) -> Script<MessageModel<T>, D::Error> {
    Script::Ask(
        TransportCall::Receive {
            rail: tag_rail(tag, model.place.rails),
            source,
            tag,
            element_type: model.element_type,
            element_count: length as u64,
        },
        |reply: TransportReply| message_received::<T, D>(model, source, tag, length, reply),
    )
}

pub open spec fn message_of<T, D: RankDevice<T>>(
    result: Result<(ReceivedMessage<D::Buffer>, CollectiveStats), D::Error>,
) -> Result<MessageModel<T>, D::Error> {
    match result {
        Ok((message, stats)) => Ok(
            MessageModel {
                values: D::values(&message.buffer),
                source_rank: message.source_rank,
                tag: message.tag,
                stats,
            },
        ),
        Err(error) => Err(error),
    }
}

impl<'a, T, D: RankDevice<T>, S: RankTransport> DeviceCollective<'a, T, D, S> where
    D::Error: From<RankError> + From<NetworkError> + From<TopologyError>,
 {
    pub fn send(&mut self, input: &D::Buffer, destination: u32, tag: u64) -> (result: Result<
        CollectiveStats,
        D::Error,
    >)
        requires
            old(self).model().place.rails > 0,
        ensures
            *final(final(self).link) == *final(old(self).link),
            final(self).model() == old(self).model(),
            final(self).next() == old(self).next(),
            asked(
                old(self).standing().faults,
                final(self).standing().faults,
                |call: DeviceCall| call == (DeviceCall::Load { held: D::values(input).len() }),
            ),
            conversed(
                send_script::<T, D>(old(self).model(), D::values(input), destination, tag),
                old(self).standing(),
                final(self).standing(),
                result,
                false,
            ),
    {
        let ghost before = self.standing();
        let ghost script = send_script::<T, D>(self.model(), D::values(input), destination, tag);
        proof {
            lemma_start(script, before.log);
        }
        let values = match self.link.execution.copy_from_device(input) {
            Ok(values) => values,
            Err(error) => {
                return Err(error);
            },
        };
        let payload = D::encode(values.as_slice());
        let transferred_bytes: usize = payload.len();
        let length: usize = self.link.execution.buffer_len(input);
        let element_type = self.element_type;
        let sent = self.link.session.send(destination, tag, element_type, length as u64, payload);
        proof {
            lemma_asked(script, before.log, before.log, self.link.session.log().last());
        }
        match sent {
            Ok(()) => Ok(self.stats(CollectiveAlgorithm::Direct, 1, transferred_bytes, 0)),
            Err(error) => Err(from_network(error)),
        }
    }

    pub fn receive(&mut self, source: Option<u32>, tag: u64, length: usize) -> (result: Result<
        (ReceivedMessage<D::Buffer>, CollectiveStats),
        D::Error,
    >)
        requires
            old(self).model().place.rails > 0,
        ensures
            *final(final(self).link) == *final(old(self).link),
            final(self).model() == old(self).model(),
            final(self).next() == old(self).next(),
            asked(
                old(self).standing().faults,
                final(self).standing().faults,
                |call: DeviceCall| call.handles_whole(length as int),
            ),
            conversed(
                receive_script::<T, D>(old(self).model(), source, tag, length as int),
                old(self).standing(),
                final(self).standing(),
                message_of::<T, D>(result),
                false,
            ),
    {
        let ghost before = self.standing();
        let ghost script = receive_script::<T, D>(self.model(), source, tag, length as int);
        proof {
            lemma_start(script, before.log);
        }
        let element_type = self.element_type;
        let received = self.link.session.receive(source, tag, element_type, length as u64);
        proof {
            lemma_asked(script, before.log, before.log, self.link.session.log().last());
        }
        let response = match received {
            Ok(response) => response,
            Err(error) => {
                return Err(from_network(error));
            },
        };
        let foreign = match source {
            Some(source) => response.header.source_rank != source,
            None => false,
        };
        if response.header.tag != tag || response.header.element_type != element_type
            || response.header.element_count != length as u64 || foreign {
            return Err(
                from_network(
                    NetworkError::invalid(
                        "TCP point-to-point response does not match the receive request",
                    ),
                ),
            );
        }
        let values = match self.decode_exact(response.payload.as_slice(), length) {
            Ok(values) => values,
            Err(error) => {
                return Err(error);
            },
        };
        let buffer = match self.store_new(values.as_slice()) {
            Ok(buffer) => buffer,
            Err(error) => {
                return Err(error);
            },
        };
        let stats = self.stats(CollectiveAlgorithm::Direct, 1, response.payload.len(), 0);
        Ok((ReceivedMessage { buffer, source_rank: response.header.source_rank, tag }, stats))
    }
}

} // verus!

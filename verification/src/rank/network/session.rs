//! A rank's side of a session: the requests that it makes and the responses
//! that it accepts.

use crate::rank::network::control::{
    blank_header, checked, empty_payload, framed, invalid, make_frame, message_bytes,
    response_defect, seen, validate_response,
};
use crate::rank::network::{ExchangeOptions, NetworkError, NetworkFailure};
use crate::rank::protocol::frame::FrameModel;
use crate::rank::protocol::{
    ElementType, Frame, FrameHeader, Opcode, ProtocolError, UniqueId, ANY_RANK,
};
use crate::text::{decimal, lossy, lossy_text, push_decimal, push_usize};
use vstd::prelude::*;
use vstd::string::*;
use vstd::utf8::*;

verus! {

/// The header of a rank's collective request.
pub open spec fn request_header(
    unique_id: UniqueId,
    opcode: Opcode,
    element_type: ElementType,
    rank: u32,
    world_size: u32,
    sequence: u64,
    options: ExchangeOptions,
) -> FrameHeader {
    FrameHeader {
        flags: options.flags,
        root_rank: options.root_rank,
        tag: options.tag,
        ..blank_header(
            unique_id,
            opcode,
            element_type,
            rank,
            world_size,
            sequence,
            options.element_count,
        )
    }
}

/// Why a response is not taken.
pub open spec fn refusal(
    response: Option<FrameModel>,
    closed: Seq<char>,
    session: SessionModel,
) -> Option<NetworkFailure> {
    match response {
        None => Some(invalid(closed)),
        Some(frame) => match response_defect(
            frame.header,
            session.unique_id,
            session.rank,
            session.world_size,
            session.next_sequence,
        ) {
            Some(defect) => Some(defect),
            None => if frame.header.opcode == Opcode::Abort {
                Some(NetworkFailure::RemoteAbort(lossy(frame.payload)))
            } else {
                None
            },
        },
    }
}

/// A session as plain data.
pub struct SessionModel {
    pub unique_id: UniqueId,
    pub rank: u32,
    pub world_size: u32,
    pub next_sequence: u64,
}

/// A rank's ordered collective channel.
#[derive(Debug)]
pub struct RankSession {
    unique_id: UniqueId,
    rank: u32,
    world_size: u32,
    next_sequence: u64,
}

impl View for RankSession {
    type V = SessionModel;

    closed spec fn view(&self) -> SessionModel {
        SessionModel {
            unique_id: self.unique_id,
            rank: self.rank,
            world_size: self.world_size,
            next_sequence: self.next_sequence,
        }
    }
}

/// An optional frame seen through its model.
pub open spec fn maybe(frame: Option<Frame>) -> Option<FrameModel> {
    match frame {
        Some(frame) => Some(frame@),
        None => None,
    }
}

/// The timeout in whole milliseconds, at least one.
pub open spec fn milliseconds(nanoseconds: u128) -> u128 {
    if nanoseconds / 1_000_000 == 0 {
        1
    } else {
        nanoseconds / 1_000_000
    }
}

impl RankSession {
    pub fn new(unique_id: UniqueId, rank: u32, world_size: u32) -> (session: Self)
        ensures
            session@ == (SessionModel { unique_id, rank, world_size, next_sequence: 0 }),
    {
        Self { unique_id, rank, world_size, next_sequence: 0 }
    }

    pub fn rank(&self) -> (rank: u32)
        ensures
            rank == self@.rank,
    {
        self.rank
    }

    pub fn world_size(&self) -> (size: u32)
        ensures
            size == self@.world_size,
    {
        self.world_size
    }

    pub fn next_sequence(&self) -> (sequence: u64)
        ensures
            sequence == self@.next_sequence,
    {
        self.next_sequence
    }

    /// The frame that asks for the next collective.
    pub fn request(
        &self,
        opcode: Opcode,
        element_type: ElementType,
        options: ExchangeOptions,
        payload: Vec<u8>,
    ) -> (result: Result<Frame, NetworkError>)
        ensures
            seen(result) == framed(
                request_header(
                    self@.unique_id,
                    opcode,
                    element_type,
                    self@.rank,
                    self@.world_size,
                    self@.next_sequence,
                    options,
                ),
                payload@,
            ),
    {
        let mut header = FrameHeader::collective(
            self.unique_id,
            opcode,
            element_type,
            self.rank,
            options.root_rank,
            self.world_size,
            self.next_sequence,
            options.element_count,
        );
        header.flags = options.flags;
        header.tag = options.tag;
        make_frame(header, payload)
    }

    fn take(&mut self, response: Option<Frame>, closed: &str) -> (result: Result<
        Frame,
        NetworkError,
    >)
        ensures
            *final(self) == *old(self),
            match refusal(maybe(response), closed@, old(self)@) {
                Some(failure) => result is Err && result->Err_0@ == failure,
                None => result is Ok && response == Some(result->Ok_0),
            },
    {
        let frame = match response {
            Some(frame) => frame,
            None => {
                return Err(NetworkError::invalid(closed));
            },
        };
        match validate_response(
            &frame,
            self.unique_id,
            self.rank,
            self.world_size,
            self.next_sequence,
        ) {
            Ok(()) => {},
            Err(error) => {
                return Err(error);
            },
        }
        if frame.header.opcode == Opcode::Abort {
            return Err(NetworkError::RemoteAbort(lossy_text(frame.payload.as_slice())));
        }
        Ok(frame)
    }

    fn advance(&mut self) -> (result: Result<(), NetworkError>)
        ensures
            if old(self)@.next_sequence == u64::MAX {
                &&& result is Err
                &&& result->Err_0@ == NetworkFailure::Protocol(ProtocolError::SequenceOverflow)
                &&& final(self)@ == old(self)@
            } else {
                &&& result is Ok
                &&& final(self)@ == (SessionModel {
                    next_sequence: (old(self)@.next_sequence + 1) as u64,
                    ..old(self)@
                })
            },
    {
        match self.next_sequence.checked_add(1) {
            Some(next) => {
                self.next_sequence = next;
                Ok(())
            },
            None => Err(NetworkError::from(ProtocolError::SequenceOverflow)),
        }
    }

    /// Takes the response to the pending collective; `None` is a closed
    /// connection. Only a response that is taken completes the sequence.
    pub fn accept(&mut self, response: Option<Frame>) -> (result: Result<Frame, NetworkError>)
        ensures
            match refusal(
                maybe(response),
                "coordinator closed before collective response"@,
                old(self)@,
            ) {
                Some(failure) => {
                    &&& result is Err
                    &&& result->Err_0@ == failure
                    &&& final(self)@ == old(self)@
                },
                None => if old(self)@.next_sequence == u64::MAX {
                    &&& result is Err
                    &&& result->Err_0@ == NetworkFailure::Protocol(ProtocolError::SequenceOverflow)
                    &&& final(self)@ == old(self)@
                } else {
                    &&& result is Ok
                    &&& response == Some(result->Ok_0)
                    &&& final(self)@ == (SessionModel {
                        next_sequence: (old(self)@.next_sequence + 1) as u64,
                        ..old(self)@
                    })
                },
            },
    {
        let frame = match self.take(response, "coordinator closed before collective response") {
            Ok(frame) => frame,
            Err(error) => {
                return Err(error);
            },
        };
        match self.advance() {
            Ok(()) => Ok(frame),
            Err(error) => Err(error),
        }
    }

    /// The frame that asks for a barrier.
    pub fn barrier_request(&self) -> (result: Result<Frame, NetworkError>)
        ensures
            seen(result) == framed(
                request_header(
                    self@.unique_id,
                    Opcode::Barrier,
                    ElementType::Untyped,
                    self@.rank,
                    self@.world_size,
                    self@.next_sequence,
                    (ExchangeOptions { root_rank: ANY_RANK, element_count: 0, flags: 0, tag: 0 }),
                ),
                Seq::empty(),
            ),
    {
        self.request(
            Opcode::Barrier,
            ElementType::Untyped,
            ExchangeOptions::new(ANY_RANK, 0),
            empty_payload(),
        )
    }

    /// The timeout that a request hands to the coordinator, from nanoseconds.
    pub fn timeout_ms(nanoseconds: u128) -> (result: Result<u64, NetworkError>)
        ensures
            if nanoseconds == 0 {
                result is Err && result->Err_0@ == invalid(
                    "collective timeout must be greater than zero"@,
                )
            } else if milliseconds(nanoseconds) > u64::MAX {
                result is Err && result->Err_0@ == invalid(
                    "collective timeout exceeds u64 milliseconds"@,
                )
            } else {
                result is Ok && result->Ok_0 == milliseconds(nanoseconds)
            },
    {
        if nanoseconds == 0 {
            return Err(NetworkError::invalid("collective timeout must be greater than zero"));
        }
        let whole: u128 = nanoseconds / 1_000_000;
        let bounded: u128 = if whole == 0 {
            1
        } else {
            whole
        };
        if bounded > u64::MAX as u128 {
            return Err(NetworkError::invalid("collective timeout exceeds u64 milliseconds"));
        }
        Ok(bounded as u64)
    }

    /// The frame that sets the timeout of all future collectives.
    pub fn timeout_request(&self, timeout_ms: u64) -> (result: Result<Frame, NetworkError>)
        ensures
            seen(result) == framed(
                request_header(
                    self@.unique_id,
                    Opcode::SetTimeout,
                    ElementType::Untyped,
                    self@.rank,
                    self@.world_size,
                    self@.next_sequence,
                    (ExchangeOptions {
                        root_rank: ANY_RANK,
                        element_count: 0,
                        flags: 0,
                        tag: timeout_ms,
                    }),
                ),
                Seq::empty(),
            ),
    {
        let mut options = ExchangeOptions::new(ANY_RANK, 0);
        options.tag = timeout_ms;
        self.request(Opcode::SetTimeout, ElementType::Untyped, options, empty_payload())
    }

    /// Takes the answer to a timeout request.
    pub fn accept_timeout(&mut self, response: Option<Frame>) -> (result: Result<(), NetworkError>)
        ensures
            match refusal(
                maybe(response),
                "coordinator closed before SET_TIMEOUT response"@,
                old(self)@,
            ) {
                Some(failure) => {
                    &&& result is Err
                    &&& result->Err_0@ == failure
                    &&& final(self)@ == old(self)@
                },
                None => if (response->0).header.opcode != Opcode::SetTimeout || (
                response->0).payload@.len() > 0 {
                    &&& result is Err
                    &&& result->Err_0@ == invalid("invalid SET_TIMEOUT response"@)
                    &&& final(self)@ == old(self)@
                } else if old(self)@.next_sequence == u64::MAX {
                    &&& result is Err
                    &&& result->Err_0@ == NetworkFailure::Protocol(ProtocolError::SequenceOverflow)
                    &&& final(self)@ == old(self)@
                } else {
                    &&& result is Ok
                    &&& final(self)@ == (SessionModel {
                        next_sequence: (old(self)@.next_sequence + 1) as u64,
                        ..old(self)@
                    })
                },
            },
    {
        let frame = match self.take(response, "coordinator closed before SET_TIMEOUT response") {
            Ok(frame) => frame,
            Err(error) => {
                return Err(error);
            },
        };
        if frame.header.opcode != Opcode::SetTimeout || frame.payload.len() > 0 {
            return Err(NetworkError::invalid("invalid SET_TIMEOUT response"));
        }
        self.advance()
    }
}

/// What a rank's request is answered by on a point-to-point channel.
#[derive(Debug, Clone, Copy, PartialEq, Eq, Structural)]
pub struct P2pResponseKey {
    pub opcode: Opcode,
    pub sequence: u64,
}

/// A point-to-point channel as plain data.
#[verifier::ext_equal]
pub struct ChannelModel {
    pub unique_id: UniqueId,
    pub rank: u32,
    pub world_size: u32,
    pub next_send: u64,
    pub next_receive: u64,
    pub next_heartbeat: u64,
    pub pending: Set<P2pResponseKey>,
}

impl ChannelModel {
    pub open spec fn is_request(opcode: Opcode) -> bool {
        opcode == Opcode::Send || opcode == Opcode::Receive || opcode == Opcode::Heartbeat
    }

    /// The sequence of the next request of a kind.
    pub open spec fn next(self, opcode: Opcode) -> u64 {
        match opcode {
            Opcode::Send => self.next_send,
            Opcode::Receive => self.next_receive,
            _ => self.next_heartbeat,
        }
    }

    /// The channel after a request of a kind took its sequence.
    pub open spec fn taken(self, opcode: Opcode) -> ChannelModel {
        let next = (self.next(opcode) + 1) as u64;
        match opcode {
            Opcode::Send => ChannelModel { next_send: next, ..self },
            Opcode::Receive => ChannelModel { next_receive: next, ..self },
            _ => ChannelModel { next_heartbeat: next, ..self },
        }
    }

    /// Whatever waits was asked for, and each sequence is new.
    pub open spec fn valid(self) -> bool {
        forall|key: P2pResponseKey| #[trigger]
            self.pending.contains(key) ==> ChannelModel::is_request(key.opcode) && key.sequence
                < self.next(key.opcode)
    }

    /// The frame of a request.
    pub open spec fn request_of(
        self,
        opcode: Opcode,
        peer: u32,
        tag: u64,
        element_type: ElementType,
        element_count: u64,
        payload: Seq<u8>,
    ) -> Result<FrameModel, NetworkFailure> {
        framed(
            FrameHeader {
                destination_rank: peer,
                tag,
                ..blank_header(
                    self.unique_id,
                    opcode,
                    element_type,
                    self.rank,
                    self.world_size,
                    self.next(opcode),
                    element_count,
                )
            },
            payload,
        )
    }
}

/// What a frame on a point-to-point channel leads to.
#[derive(Debug)]
pub enum ReaderStep {
    /// The response that a request waits for.
    Deliver { key: P2pResponseKey, frame: Frame },
    /// A response that nothing waits for any more.
    Ignore,
    /// The channel is broken; the requests that waited fail with the message.
    Fail { message: String, waiting: Vec<P2pResponseKey> },
}

/// A rank's point-to-point channel to the coordinator.
#[derive(Debug)]
pub struct P2pChannel {
    unique_id: UniqueId,
    rank: u32,
    world_size: u32,
    next_send: u64,
    next_receive: u64,
    next_heartbeat: u64,
    pending: Vec<P2pResponseKey>,
}

impl View for P2pChannel {
    type V = ChannelModel;

    closed spec fn view(&self) -> ChannelModel {
        ChannelModel {
            unique_id: self.unique_id,
            rank: self.rank,
            world_size: self.world_size,
            next_send: self.next_send,
            next_receive: self.next_receive,
            next_heartbeat: self.next_heartbeat,
            pending: self.pending@.to_set(),
        }
    }
}

/// Why a point-to-point response breaks the channel.
pub open spec fn reader_failure(
    frame: FrameModel,
    unique_id: UniqueId,
    rank: u32,
    world_size: u32,
) -> Option<Seq<char>> {
    if frame.header.unique_id != unique_id || frame.header.world_size != world_size
        || frame.header.destination_rank != rank {
        Some("invalid point-to-point response envelope"@)
    } else if frame.header.opcode == Opcode::Abort {
        Some(lossy(frame.payload))
    } else if !ChannelModel::is_request(frame.header.opcode) {
        Some(
            "unexpected "@ + frame.header.opcode.spec_name()
                + " response on point-to-point channel"@,
        )
    } else {
        None
    }
}

impl P2pChannel {
    /// The sequences still have room, and no key is listed twice.
    pub closed spec fn intact(&self) -> bool {
        self.pending@.no_duplicates() && self@.valid()
    }

    pub fn new(unique_id: UniqueId, rank: u32, world_size: u32) -> (channel: Self)
        ensures
            channel.intact(),
            channel@ == (ChannelModel {
                unique_id,
                rank,
                world_size,
                next_send: 0,
                next_receive: 0,
                next_heartbeat: 0,
                pending: Set::empty(),
            }),
    {
        let channel = Self {
            unique_id,
            rank,
            world_size,
            next_send: 0,
            next_receive: 0,
            next_heartbeat: 0,
            pending: Vec::new(),
        };
        assert(channel.pending@.to_set() =~= Set::empty());
        channel
    }

    /// Numbers a request and lists it as waiting. `failure` is what broke the
    /// session, where something did.
    pub fn submit(
        &mut self,
        failure: Option<&str>,
        opcode: Opcode,
        peer: u32,
        tag: u64,
        element_type: ElementType,
        element_count: u64,
        payload: Vec<u8>,
    ) -> (result: Result<(P2pResponseKey, Frame), NetworkError>)
        requires
            old(self).intact(),
        ensures
            final(self).intact(),
            ({
                let before = old(self)@;
                let after = final(self)@;
                let made = before.request_of(
                    opcode,
                    peer,
                    tag,
                    element_type,
                    element_count,
                    payload@,
                );
                if failure is Some {
                    &&& result is Err
                    &&& result->Err_0@ == NetworkFailure::RemoteAbort((failure->0)@)
                    &&& after == before
                } else if !ChannelModel::is_request(opcode) {
                    &&& result is Err
                    &&& result->Err_0@ == invalid(
                        opcode.spec_name() + " is not a point-to-point request"@,
                    )
                    &&& after == before
                } else if before.next(opcode) == u64::MAX {
                    &&& result is Err
                    &&& result->Err_0@ == NetworkFailure::Protocol(ProtocolError::SequenceOverflow)
                    &&& after == before
                } else {
                    match made {
                        Err(failure) => {
                            &&& result is Err
                            &&& result->Err_0@ == failure
                            &&& after == before.taken(opcode)
                        },
                        Ok(frame) => {
                            let key = P2pResponseKey { opcode, sequence: before.next(opcode) };
                            &&& result is Ok
                            &&& (result->Ok_0).0 == key
                            &&& (result->Ok_0).1@ == frame
                            &&& !before.pending.contains(key)
                            &&& after == (ChannelModel {
                                pending: before.pending.insert(key),
                                ..before.taken(opcode)
                            })
                        },
                    }
                }
            }),
    {
        let ghost before = self@;
        match failure {
            Some(message) => {
                return Err(NetworkError::RemoteAbort(String::from_str(message)));
            },
            None => {},
        }
        let sequence: u64 = match opcode {
            Opcode::Send => self.next_send,
            Opcode::Receive => self.next_receive,
            Opcode::Heartbeat => self.next_heartbeat,
            _ => {
                let mut text = String::from_str(opcode.name());
                text.append(" is not a point-to-point request");
                return Err(NetworkError::InvalidConfiguration(text));
            },
        };
        let next: u64 = match sequence.checked_add(1) {
            Some(next) => next,
            None => {
                return Err(NetworkError::from(ProtocolError::SequenceOverflow));
            },
        };
        match opcode {
            Opcode::Send => {
                self.next_send = next;
            },
            Opcode::Receive => {
                self.next_receive = next;
            },
            _ => {
                self.next_heartbeat = next;
            },
        }
        assert(self@ =~= before.taken(opcode));
        let mut header = FrameHeader::collective(
            self.unique_id,
            opcode,
            element_type,
            self.rank,
            ANY_RANK,
            self.world_size,
            sequence,
            element_count,
        );
        header.destination_rank = peer;
        header.tag = tag;
        let frame = match make_frame(header, payload) {
            Ok(frame) => frame,
            Err(error) => {
                return Err(error);
            },
        };
        let key = P2pResponseKey { opcode, sequence };
        let ghost listed = self.pending@;
        proof {
            assert(!listed.contains(key)) by {
                if listed.contains(key) {
                    assert(before.pending.contains(key));
                }
            }
        }
        self.pending.push(key);
        proof {
            assert(self.pending@.to_set() =~= before.pending.insert(key)) by {
                assert forall|k: P2pResponseKey| self.pending@.to_set().contains(k)
                    <==> before.pending.insert(key).contains(k) by {
                    if listed.contains(k) {
                        let i = choose|i: int| 0 <= i < listed.len() && listed[i] == k;
                        assert(self.pending@[i] == k);
                    }
                    assert(self.pending@[listed.len() as int] == key);
                }
            }
            assert(self@ =~= (ChannelModel {
                pending: before.pending.insert(key),
                ..before.taken(opcode)
            }));
        }
        Ok((key, frame))
    }

    /// Forgets a request: whether it was still waiting.
    pub fn withdraw(&mut self, key: P2pResponseKey) -> (waited: bool)
        requires
            old(self).intact(),
        ensures
            final(self).intact(),
            waited == old(self)@.pending.contains(key),
            final(self)@ == (ChannelModel {
                pending: old(self)@.pending.remove(key),
                ..old(self)@
            }),
    {
        let ghost before = self@;
        let ghost listed = self.pending@;
        let mut index: usize = 0;
        while index < self.pending.len()
            invariant
                index <= self.pending@.len(),
                self.pending@ == listed,
                self@ == before,
                before == old(self)@,
                self.intact(),
                before.pending == listed.to_set(),
                forall|i: int| 0 <= i < index ==> #[trigger] listed[i] != key,
            decreases self.pending@.len() - index,
        {
            if self.pending[index] == key {
                self.pending.remove(index);
                proof {
                    let left = listed.remove(index as int);
                    assert(listed[index as int] == key);
                    assert(listed.contains(key));
                    assert forall|k: P2pResponseKey| left.to_set().contains(k)
                        <==> before.pending.remove(key).contains(k) by {
                        if left.contains(k) {
                            let i = choose|i: int| 0 <= i < left.len() && left[i] == k;
                            let j = if i < index {
                                i
                            } else {
                                i + 1
                            };
                            assert(listed[j] == k);
                            assert(listed[j] != listed[index as int]);
                        }
                        if listed.contains(k) && k != key {
                            let j = choose|j: int| 0 <= j < listed.len() && listed[j] == k;
                            assert(left[if j < index {
                                j
                            } else {
                                j - 1
                            }] == k);
                        }
                    }
                    assert(left.to_set() =~= before.pending.remove(key));
                    assert(left.no_duplicates());
                    assert(self@ =~= (ChannelModel {
                        pending: before.pending.remove(key),
                        ..before
                    }));
                }
                return true;
            }
            index = index + 1;
        }
        proof {
            assert(!listed.contains(key));
            assert(before.pending.remove(key) =~= before.pending);
        }
        false
    }

    fn fail(&mut self, message: String) -> (step: ReaderStep)
        requires
            old(self).intact(),
        ensures
            final(self).intact(),
            step is Fail,
            step->message@ == message@,
            step->waiting@.to_set() == old(self)@.pending,
            step->waiting@.no_duplicates(),
            final(self)@ == (ChannelModel { pending: Set::empty(), ..old(self)@ }),
    {
        let ghost before = self@;
        let mut waiting: Vec<P2pResponseKey> = Vec::new();
        std::mem::swap(&mut waiting, &mut self.pending);
        proof {
            assert(self.pending@.to_set() =~= Set::<P2pResponseKey>::empty());
            assert(self@ =~= (ChannelModel { pending: Set::empty(), ..before }));
        }
        ReaderStep::Fail { message, waiting }
    }

    /// Takes a frame that came on the channel.
    pub fn on_frame(&mut self, frame: Frame) -> (step: ReaderStep)
        requires
            old(self).intact(),
        ensures
            final(self).intact(),
            ({
                let before = old(self)@;
                let after = final(self)@;
                let key = P2pResponseKey {
                    opcode: frame.header.opcode,
                    sequence: frame.header.sequence,
                };
                match reader_failure(frame@, before.unique_id, before.rank, before.world_size) {
                    Some(message) => {
                        &&& step is Fail
                        &&& step->message@ == message
                        &&& step->waiting@.to_set() == before.pending
                        &&& after == (ChannelModel { pending: Set::empty(), ..before })
                    },
                    None => if before.pending.contains(key) {
                        &&& step == (ReaderStep::Deliver { key, frame })
                        &&& after == (ChannelModel {
                            pending: before.pending.remove(key),
                            ..before
                        })
                    } else {
                        &&& step is Ignore
                        &&& after == before
                    },
                }
            }),
    {
        if !frame.header.unique_id.same(&self.unique_id) || frame.header.world_size
            != self.world_size || frame.header.destination_rank != self.rank {
            return self.fail(String::from_str("invalid point-to-point response envelope"));
        }
        if frame.header.opcode == Opcode::Abort {
            return self.fail(lossy_text(frame.payload.as_slice()));
        }
        match frame.header.opcode {
            Opcode::Send | Opcode::Receive | Opcode::Heartbeat => {},
            _ => {
                let mut text = String::from_str("unexpected ");
                text.append(frame.header.opcode.name());
                text.append(" response on point-to-point channel");
                return self.fail(text);
            },
        }
        let key = P2pResponseKey {
            opcode: frame.header.opcode,
            sequence: frame.header.sequence,
        };
        let ghost before = self@;
        if self.withdraw(key) {
            ReaderStep::Deliver { key, frame }
        } else {
            assert(before.pending.remove(key) =~= before.pending);
            assert(self@ =~= before);
            ReaderStep::Ignore
        }
    }

    /// The coordinator closed the channel.
    pub fn on_closed(&mut self) -> (step: ReaderStep)
        requires
            old(self).intact(),
        ensures
            final(self).intact(),
            step is Fail,
            step->message@ == "point-to-point coordinator closed"@,
            step->waiting@.to_set() == old(self)@.pending,
            final(self)@ == (ChannelModel { pending: Set::empty(), ..old(self)@ }),
    {
        self.fail(String::from_str("point-to-point coordinator closed"))
    }

    /// Reading from the channel failed.
    pub fn on_read_failure(&mut self, error: &str) -> (step: ReaderStep)
        requires
            old(self).intact(),
        ensures
            final(self).intact(),
            step is Fail,
            step->message@ == "point-to-point read failed: "@ + error@,
            step->waiting@.to_set() == old(self)@.pending,
            final(self)@ == (ChannelModel { pending: Set::empty(), ..old(self)@ }),
    {
        let mut text = String::from_str("point-to-point read failed: ");
        text.append(error);
        self.fail(text)
    }

    /// Writing to the channel failed: whatever waits fails with the error.
    pub fn on_write_failure(&mut self, error: &str) -> (step: ReaderStep)
        requires
            old(self).intact(),
        ensures
            final(self).intact(),
            step is Fail,
            step->message@ == error@,
            step->waiting@.to_set() == old(self)@.pending,
            final(self)@ == (ChannelModel { pending: Set::empty(), ..old(self)@ }),
    {
        self.fail(String::from_str(error))
    }

    /// The frame with which this rank gives up the session.
    pub fn abort_request(&mut self, message: &str) -> (result: Result<Frame, NetworkError>)
        requires
            old(self).intact(),
        ensures
            final(self).intact(),
            if old(self)@.next_send == u64::MAX {
                &&& result is Err
                &&& result->Err_0@ == NetworkFailure::Protocol(ProtocolError::SequenceOverflow)
                &&& final(self)@ == old(self)@
            } else {
                &&& final(self)@ == old(self)@.taken(Opcode::Send)
                &&& seen(result) == framed(
                    blank_header(
                        old(self)@.unique_id,
                        Opcode::Abort,
                        ElementType::U8,
                        old(self)@.rank,
                        old(self)@.world_size,
                        old(self)@.next_send,
                        encode_utf8(message@).len() as u64,
                    ),
                    encode_utf8(message@),
                )
            },
    {
        let ghost before = self@;
        let sequence: u64 = self.next_send;
        self.next_send = match sequence.checked_add(1) {
            Some(next) => next,
            None => {
                return Err(NetworkError::from(ProtocolError::SequenceOverflow));
            },
        };
        assert(self@ =~= before.taken(Opcode::Send));
        let payload = message_bytes(message);
        let header = FrameHeader::collective(
            self.unique_id,
            Opcode::Abort,
            ElementType::U8,
            self.rank,
            ANY_RANK,
            self.world_size,
            sequence,
            payload.len() as u64,
        );
        make_frame(header, payload)
    }

    /// The frame with which this rank leaves.
    pub fn leave_request(&self) -> (result: Result<Frame, NetworkError>)
        ensures
            seen(result) == framed(
                blank_header(
                    self@.unique_id,
                    Opcode::Leave,
                    ElementType::Untyped,
                    self@.rank,
                    self@.world_size,
                    0,
                    0,
                ),
                Seq::empty(),
            ),
    {
        let header = FrameHeader::collective(
            self.unique_id,
            Opcode::Leave,
            ElementType::Untyped,
            self.rank,
            ANY_RANK,
            self.world_size,
            0,
            0,
        );
        make_frame(header, empty_payload())
    }
}

/// What a request that was not answered in time fails with.
pub fn p2p_timeout_error(opcode: Opcode, tag: u64) -> (error: NetworkError)
    ensures
        error@ == NetworkFailure::Timeout(
            "point-to-point "@ + opcode.spec_name() + " with tag "@ + decimal(tag as nat),
        ),
{
    let mut text = String::from_str("point-to-point ");
    text.append(opcode.name());
    text.append(" with tag ");
    push_decimal(&mut text, tag);
    NetworkError::Timeout(text)
}

/// What is wrong with the answer to a request, by what was asked.
pub open spec fn answer_defect(opcode: Opcode, frame: FrameModel) -> Option<NetworkFailure> {
    match opcode {
        Opcode::Send => if frame.header.opcode != Opcode::Send || frame.payload.len() > 0 {
            Some(invalid("invalid point-to-point send acknowledgement"@))
        } else {
            None
        },
        Opcode::Receive => if frame.header.opcode != Opcode::Receive {
            Some(invalid("invalid point-to-point receive response"@))
        } else {
            None
        },
        Opcode::Heartbeat => if frame.header.opcode != Opcode::Heartbeat || frame.payload.len() > 0 {
            Some(invalid("invalid heartbeat response"@))
        } else {
            None
        },
        Opcode::Barrier => if frame.header.opcode != Opcode::Barrier || frame.payload.len() > 0 {
            Some(invalid("invalid barrier response"@))
        } else {
            None
        },
        _ => None,
    }
}

/// Holds the answer against what was asked.
pub fn validate_answer(opcode: Opcode, frame: &Frame) -> (result: Result<(), NetworkError>)
    ensures
        checked(result, answer_defect(opcode, frame@)),
{
    match opcode {
        Opcode::Send => {
            if frame.header.opcode != Opcode::Send || frame.payload.len() > 0 {
                return Err(
                    NetworkError::invalid("invalid point-to-point send acknowledgement"),
                );
            }
        },
        Opcode::Receive => {
            if frame.header.opcode != Opcode::Receive {
                return Err(NetworkError::invalid("invalid point-to-point receive response"));
            }
        },
        Opcode::Heartbeat => {
            if frame.header.opcode != Opcode::Heartbeat || frame.payload.len() > 0 {
                return Err(NetworkError::invalid("invalid heartbeat response"));
            }
        },
        Opcode::Barrier => {
            if frame.header.opcode != Opcode::Barrier || frame.payload.len() > 0 {
                return Err(NetworkError::invalid("invalid barrier response"));
            }
        },
        _ => {},
    }
    Ok(())
}

/// Refuses a destination outside the world.
pub fn validate_destination(destination: u32, world_size: u32) -> (result: Result<
    (),
    NetworkError,
>)
    ensures
        checked(
            result,
            if destination >= world_size {
                Some(
                    NetworkFailure::Protocol(
                        ProtocolError::RankOutOfRange {
                            name: "destination",
                            rank: destination,
                            world_size,
                        },
                    ),
                )
            } else {
                None
            },
        ),
{
    if destination >= world_size {
        return Err(
            NetworkError::from(
                ProtocolError::RankOutOfRange {
                    name: "destination",
                    rank: destination,
                    world_size,
                },
            ),
        );
    }
    Ok(())
}

/// Refuses a source outside the world, where one is named.
pub fn validate_source(source: Option<u32>, world_size: u32) -> (result: Result<(), NetworkError>)
    ensures
        checked(
            result,
            match source {
                Some(source) => if source >= world_size {
                    Some(
                        NetworkFailure::Protocol(
                            ProtocolError::RankOutOfRange {
                                name: "source",
                                rank: source,
                                world_size,
                            },
                        ),
                    )
                } else {
                    None
                },
                None => None,
            },
        ),
{
    match source {
        Some(source) => {
            if source >= world_size {
                return Err(
                    NetworkError::from(
                        ProtocolError::RankOutOfRange { name: "source", rank: source, world_size },
                    ),
                );
            }
            Ok(())
        },
        None => Ok(()),
    }
}

/// Refuses a rail that a session does not have.
pub fn validate_rail(rail: usize, rails: usize) -> (result: Result<(), NetworkError>)
    ensures
        checked(
            result,
            if rail >= rails {
                Some(
                    invalid(
                        "point-to-point rail "@ + decimal(rail as nat) + " is outside 0.."@
                            + decimal(rails as nat),
                    ),
                )
            } else {
                None
            },
        ),
{
    if rail >= rails {
        let mut text = String::from_str("point-to-point rail ");
        push_usize(&mut text, rail);
        text.append(" is outside 0..");
        push_usize(&mut text, rails);
        return Err(NetworkError::InvalidConfiguration(text));
    }
    Ok(())
}

/// The rail that a tag uses where none is named.
pub fn rail_of_tag(tag: u64, rails: usize) -> (rail: usize)
    requires
        rails > 0,
    ensures
        rail == tag as int % (rails as int),
        rail < rails,
{
    (tag % rails as u64) as usize
}

} // verus!

//! The coordinator's collective channel: it collects one request per rank and
//! answers all of them at once.

use crate::rank::network::control::{abort_frames, abort_of, invalid};
use crate::rank::network::laws::law_routed_requests_agree;
use crate::rank::network::routing::{agreed, frames_of, route, validate_and_route};
use crate::rank::network::{NetworkError, NetworkFailure};
use crate::rank::protocol::agreement::AgreementModel;
use crate::rank::protocol::frame::FrameModel;
use crate::rank::protocol::{CollectiveAgreement, Frame, Opcode, ProtocolError, UniqueId};
use crate::text::{decimal, push_decimal, push_usize};
use vstd::prelude::*;
use vstd::string::*;

verus! {

/// What an event leads to.
#[derive(Debug)]
pub enum CollectiveStep {
    /// Some rank has not asked yet.
    Wait,
    /// One response per rank, and the timeout in milliseconds that holds from
    /// now on where the ranks set one.
    Reply { responses: Vec<Frame>, timeout_ms: Option<u64> },
    /// The session ended between collectives.
    Finish,
    /// The session failed.
    Fail(NetworkError),
}

/// The same as plain data.
pub enum StepModel {
    Wait,
    Reply { responses: Seq<FrameModel>, timeout_ms: Option<u64> },
    Finish,
    Fail(NetworkFailure),
}

impl View for CollectiveStep {
    type V = StepModel;

    open spec fn view(&self) -> StepModel {
        match *self {
            CollectiveStep::Wait => StepModel::Wait,
            CollectiveStep::Reply { responses, timeout_ms } => StepModel::Reply {
                responses: frames_of(responses@),
                timeout_ms,
            },
            CollectiveStep::Finish => StepModel::Finish,
            CollectiveStep::Fail(error) => StepModel::Fail(error@),
        }
    }
}

/// Slots with frames seen through their models.
pub open spec fn slots_of(slots: Seq<Option<Frame>>) -> Seq<Option<FrameModel>> {
    Seq::new(
        slots.len(),
        |i: int|
            match slots[i] {
                Some(frame) => Some(frame@),
                None => None,
            },
    )
}

/// A coordinator as plain data.
#[verifier::ext_equal]
pub struct CoordinatorModel {
    pub unique_id: UniqueId,
    pub agreement: AgreementModel,
    pub requests: Seq<Option<FrameModel>>,
    pub active_sequence: u64,
}

/// The ranks before `count` that have not asked, separated by commas.
pub open spec fn missing_ranks(requests: Seq<Option<FrameModel>>, count: int) -> Seq<char>
    decreases count,
{
    if count <= 0 {
        Seq::empty()
    } else if requests[count - 1] is Some {
        missing_ranks(requests, count - 1)
    } else if all_asked(requests, count - 1) {
        decimal((count - 1) as nat)
    } else {
        missing_ranks(requests, count - 1) + ","@ + decimal((count - 1) as nat)
    }
}

/// Every one of the first `count` ranks has asked.
pub open spec fn all_asked(requests: Seq<Option<FrameModel>>, count: int) -> bool {
    forall|i: int| 0 <= i < count ==> (#[trigger] requests[i]) is Some
}

/// No rank has asked.
pub open spec fn none_asked(requests: Seq<Option<FrameModel>>) -> bool {
    forall|i: int| 0 <= i < requests.len() ==> (#[trigger] requests[i]) is None
}

pub open spec fn no_requests(count: nat) -> Seq<Option<FrameModel>> {
    Seq::new(count, |i: int| None::<FrameModel>)
}

/// The requests of all ranks.
pub open spec fn gathered(requests: Seq<Option<FrameModel>>) -> Seq<FrameModel> {
    Seq::new(requests.len(), |i: int| requests[i]->0)
}

impl CoordinatorModel {
    /// One slot per rank, and the agreement waits for the next collective.
    pub open spec fn valid(self) -> bool {
        &&& 0 < self.requests.len() <= u32::MAX
        &&& self.agreement.world_size == self.requests.len()
        &&& self.agreement.valid()
        &&& self.agreement.idle()
        &&& self.active_sequence == self.agreement.next_sequence
    }

    /// The answer to a full set of requests.
    pub open spec fn answered(self, requests: Seq<FrameModel>) -> (CoordinatorModel, StepModel) {
        let sequence = self.agreement.next_sequence;
        let (agreement, failure) = agreed(
            self.agreement,
            self.unique_id,
            sequence,
            requests,
            requests.len() as int,
        );
        let after = CoordinatorModel {
            agreement,
            requests: no_requests(requests.len()),
            ..self
        };
        match (match failure {
            Some(failure) => Err(failure),
            None => route(requests, self.unique_id, sequence),
        }) {
            Err(failure) => (after, StepModel::Fail(failure)),
            Ok(responses) => (
                CoordinatorModel { active_sequence: agreement.next_sequence, ..after },
                StepModel::Reply {
                    responses,
                    timeout_ms: if requests[0].header.opcode == Opcode::SetTimeout {
                        Some(requests[0].header.tag)
                    } else {
                        None
                    },
                },
            ),
        }
    }

    /// The coordinator after a rank's request.
    pub open spec fn asked(self, rank: int, frame: FrameModel) -> (CoordinatorModel, StepModel) {
        let sequence = self.agreement.next_sequence;
        let requests = self.requests.update(rank, Some(frame));
        if self.requests[rank] is Some {
            (
                CoordinatorModel { requests, ..self },
                StepModel::Fail(
                    invalid(
                        "rank "@ + decimal(rank as nat) + " submitted collective sequence "@
                            + decimal(sequence as nat) + " twice"@,
                    ),
                ),
            )
        } else if !all_asked(requests, requests.len() as int) {
            (CoordinatorModel { requests, ..self }, StepModel::Wait)
        } else {
            self.answered(gathered(requests))
        }
    }

    /// What the end of a rank's connection leads to; `known` is a failure that
    /// the point-to-point side has already reported.
    pub open spec fn ended(self, message: Seq<char>, known: Option<Seq<char>>) -> StepModel {
        match known {
            Some(text) => StepModel::Fail(invalid(text)),
            None => StepModel::Fail(invalid(message)),
        }
    }

    pub open spec fn closed_text(self, rank: int) -> Seq<char> {
        "rank "@ + decimal(rank as nat) + " disconnected during collective sequence "@ + decimal(
            self.agreement.next_sequence as nat,
        )
    }

    pub open spec fn failed_text(self, rank: int, message: Seq<char>) -> Seq<char> {
        "rank "@ + decimal(rank as nat) + " failed during collective sequence "@ + decimal(
            self.agreement.next_sequence as nat,
        ) + ": "@ + message
    }

    pub open spec fn late_text(self) -> Seq<char> {
        "collective sequence "@ + decimal(self.agreement.next_sequence as nat)
            + "; missing ranks ["@ + missing_ranks(self.requests, self.requests.len() as int)
            + "]"@
    }
}

/// The text of an optional message.
pub open spec fn message_of(message: Option<&str>) -> Option<Seq<char>> {
    match message {
        Some(text) => Some(text@),
        None => None,
    }
}

/// The coordinator's state of the collective channel.
#[derive(Debug)]
pub struct CollectiveCoordinator {
    unique_id: UniqueId,
    agreement: CollectiveAgreement,
    requests: Vec<Option<Frame>>,
    active_sequence: u64,
}

impl View for CollectiveCoordinator {
    type V = CoordinatorModel;

    closed spec fn view(&self) -> CoordinatorModel {
        CoordinatorModel {
            unique_id: self.unique_id,
            agreement: self.agreement@,
            requests: slots_of(self.requests@),
            active_sequence: self.active_sequence,
        }
    }
}

fn empty_slots(count: usize) -> (slots: Vec<Option<Frame>>)
    ensures
        slots_of(slots@) == no_requests(count as nat),
{
    let mut slots: Vec<Option<Frame>> = Vec::new();
    let mut index: usize = 0;
    while index < count
        invariant
            index <= count,
            slots@.len() == index,
            forall|i: int| 0 <= i < index ==> (#[trigger] slots@[i]) is None,
        decreases count - index,
    {
        slots.push(None);
        index = index + 1;
    }
    assert(slots_of(slots@) =~= no_requests(count as nat));
    slots
}

/// The frames of slots that are all filled.
fn take_all(slots: Vec<Option<Frame>>) -> (frames: Vec<Frame>)
    requires
        all_asked(slots_of(slots@), slots@.len() as int),
    ensures
        frames_of(frames@) == gathered(slots_of(slots@)),
{
    let ghost all = slots@;
    let ghost model = gathered(slots_of(slots@));
    let count: usize = slots.len();
    let mut slots = slots;
    let mut frames: Vec<Frame> = Vec::new();
    let mut index: usize = 0;
    assert(all.skip(0) =~= all);
    while index < count
        invariant
            index <= count,
            count == all.len(),
            slots@ == all.skip(index as int),
            all_asked(slots_of(all), all.len() as int),
            model == gathered(slots_of(all)),
            frames@.len() == index,
            forall|i: int| 0 <= i < index ==> (#[trigger] frames@[i])@ == model[i],
        decreases count - index,
    {
        let slot = slots.remove(0);
        proof {
            assert(slots@ =~= all.skip(index + 1));
            assert(slot == all[index as int]);
            assert(slots_of(all)[index as int] is Some);
        }
        match slot {
            Some(frame) => {
                frames.push(frame);
            },
            None => {},
        }
        index = index + 1;
    }
    assert(frames_of(frames@) =~= model);
    frames
}

impl CollectiveCoordinator {
    pub fn new(unique_id: UniqueId, world_size: usize) -> (result: Result<Self, NetworkError>)
        requires
            world_size <= u32::MAX,
        ensures
            if world_size == 0 {
                result is Err && result->Err_0@ == NetworkFailure::Protocol(
                    ProtocolError::EmptyWorld,
                )
            } else {
                &&& result is Ok
                &&& result->Ok_0@.valid()
                &&& result->Ok_0@.unique_id == unique_id
                &&& result->Ok_0@.requests == no_requests(world_size as nat)
                &&& result->Ok_0@.active_sequence == 0
            },
    {
        match CollectiveAgreement::new(world_size) {
            Ok(agreement) => Ok(
                Self {
                    unique_id,
                    agreement,
                    requests: empty_slots(world_size),
                    active_sequence: 0,
                },
            ),
            Err(error) => Err(NetworkError::from(error)),
        }
    }

    fn all_asked(&self) -> (all: bool)
        ensures
            all == all_asked(self@.requests, self@.requests.len() as int),
    {
        let mut rank: usize = 0;
        while rank < self.requests.len()
            invariant
                rank <= self.requests@.len(),
                forall|i: int| 0 <= i < rank ==> (#[trigger] self@.requests[i]) is Some,
            decreases self.requests@.len() - rank,
        {
            if self.requests[rank].is_none() {
                assert(self@.requests[rank as int] is None);
                return false;
            }
            rank = rank + 1;
        }
        true
    }

    /// Whether no rank has asked since the last answer.
    pub fn is_idle(&self) -> (idle: bool)
        ensures
            idle == none_asked(self@.requests),
    {
        let mut rank: usize = 0;
        while rank < self.requests.len()
            invariant
                rank <= self.requests@.len(),
                forall|i: int| 0 <= i < rank ==> (#[trigger] self@.requests[i]) is None,
            decreases self.requests@.len() - rank,
        {
            if self.requests[rank].is_some() {
                assert(self@.requests[rank as int] is Some);
                return false;
            }
            rank = rank + 1;
        }
        true
    }

    /// Takes a request from a rank's connection.
    pub fn on_frame(&mut self, rank: usize, frame: Frame) -> (step: CollectiveStep)
        requires
            old(self)@.valid(),
            rank < old(self)@.requests.len(),
        ensures
            (final(self)@, step@) == old(self)@.asked(rank as int, frame@),
            step is Fail || final(self)@.valid(),
    {
        let ghost before = self@;
        let sequence: u64 = self.agreement.next_sequence();
        let taken: bool = self.requests[rank].is_some();
        assert(taken == (before.requests[rank as int] is Some));
        self.requests.set(rank, Some(frame));
        let ghost requests = before.requests.update(rank as int, Some(frame@));
        proof {
            assert(slots_of(self.requests@) =~= requests);
            assert(self@ =~= (CoordinatorModel { requests, ..before }));
        }
        if taken {
            let mut text = String::from_str("rank ");
            push_usize(&mut text, rank);
            text.append(" submitted collective sequence ");
            push_decimal(&mut text, sequence);
            text.append(" twice");
            return CollectiveStep::Fail(NetworkError::InvalidConfiguration(text));
        }
        if !self.all_asked() {
            return CollectiveStep::Wait;
        }
        let mut slots = empty_slots(self.requests.len());
        std::mem::swap(&mut slots, &mut self.requests);
        let frames = take_all(slots);
        let ghost model = gathered(requests);
        let result = validate_and_route(
            &mut self.agreement,
            self.unique_id,
            sequence,
            frames.as_slice(),
        );
        proof {
            assert(frames_of(frames@) == model);
            if agreed(
                before.agreement,
                before.unique_id,
                sequence,
                model,
                model.len() as int,
            ).1 is None {
                law_routed_requests_agree(before.agreement, before.unique_id, sequence, model);
            }
        }
        match result {
            Ok(responses) => {
                self.active_sequence = self.agreement.next_sequence();
                assert(model[0].header == frames@[0].header);
                let timeout_ms: Option<u64> = if frames[0].header.opcode == Opcode::SetTimeout {
                    Some(frames[0].header.tag)
                } else {
                    None
                };
                assert(self@ =~= before.answered(model).0);
                CollectiveStep::Reply { responses, timeout_ms }
            },
            Err(error) => {
                assert(self@ =~= before.answered(model).0);
                CollectiveStep::Fail(error)
            },
        }
    }

    /// A rank's connection was closed. Between collectives this ends the
    /// session; `server_failure` is what the point-to-point side reported.
    pub fn on_closed(&self, rank: usize, server_failure: Option<&str>) -> (step: CollectiveStep)
        ensures
            step@ == if none_asked(self@.requests) {
                StepModel::Finish
            } else {
                self@.ended(self@.closed_text(rank as int), message_of(server_failure))
            },
    {
        if self.is_idle() {
            return CollectiveStep::Finish;
        }
        match server_failure {
            Some(message) => CollectiveStep::Fail(NetworkError::invalid(message)),
            None => {
                let mut text = String::from_str("rank ");
                push_usize(&mut text, rank);
                text.append(" disconnected during collective sequence ");
                push_decimal(&mut text, self.agreement.next_sequence());
                CollectiveStep::Fail(NetworkError::InvalidConfiguration(text))
            },
        }
    }

    /// A rank's connection failed.
    pub fn on_failed(&self, rank: usize, message: &str, server_failure: Option<&str>) -> (step:
        CollectiveStep)
        ensures
            step@ == self@.ended(self@.failed_text(rank as int, message@), message_of(server_failure)),
    {
        match server_failure {
            Some(known) => CollectiveStep::Fail(NetworkError::invalid(known)),
            None => {
                let mut text = String::from_str("rank ");
                push_usize(&mut text, rank);
                text.append(" failed during collective sequence ");
                push_decimal(&mut text, self.agreement.next_sequence());
                text.append(": ");
                text.append(message);
                CollectiveStep::Fail(NetworkError::InvalidConfiguration(text))
            },
        }
    }

    /// The point-to-point side reported a failure.
    pub fn on_server_failure(&self, message: &str) -> (step: CollectiveStep)
        ensures
            step@ == StepModel::Fail(invalid(message@)),
    {
        CollectiveStep::Fail(NetworkError::invalid(message))
    }

    /// The collective took too long.
    pub fn on_timeout(&self) -> (step: CollectiveStep)
        ensures
            step@ == StepModel::Fail(NetworkFailure::Timeout(self@.late_text())),
    {
        let ghost model = self@.requests;
        let mut text = String::from_str("collective sequence ");
        push_decimal(&mut text, self.agreement.next_sequence());
        text.append("; missing ranks [");
        let ghost head = text@;
        let mut first = true;
        let mut rank: usize = 0;
        assert(text@ =~= head + missing_ranks(model, 0));
        while rank < self.requests.len()
            invariant
                rank <= self.requests@.len(),
                model == self@.requests,
                first == all_asked(model, rank as int),
                text@ == head + missing_ranks(model, rank as int),
                first ==> missing_ranks(model, rank as int) == Seq::<char>::empty(),
            decreases self.requests@.len() - rank,
        {
            if self.requests[rank].is_none() {
                assert(model[rank as int] is None);
                if !first {
                    text.append(",");
                }
                push_usize(&mut text, rank);
                assert(text@ =~= head + missing_ranks(model, rank + 1));
                first = false;
            } else {
                assert(model[rank as int] is Some);
            }
            rank = rank + 1;
        }
        text.append("]");
        CollectiveStep::Fail(NetworkError::Timeout(text))
    }

    /// The readers of all connections are gone.
    pub fn on_disconnected(&self) -> (step: CollectiveStep)
        ensures
            step@ == StepModel::Fail(NetworkFailure::ChannelClosed),
    {
        CollectiveStep::Fail(NetworkError::ChannelClosed)
    }

    /// The aborts that tell every rank of a failure, in the sequence that it
    /// waits for.
    pub fn abort_all(&self, message: &str) -> (frames: Vec<Option<Frame>>)
        requires
            self@.requests.len() <= u32::MAX,
        ensures
            frames@.len() == self@.requests.len(),
            forall|r: int|
                0 <= r < frames@.len() ==> match abort_of(
                    self@.unique_id,
                    self@.active_sequence,
                    r as u32,
                    self@.requests.len() as u32,
                    message@,
                ) {
                    Ok(frame) => (#[trigger] frames@[r]) is Some && frames@[r]->0@ == frame,
                    Err(_) => frames@[r] is None,
                },
    {
        abort_frames(
            self.unique_id,
            self.active_sequence,
            self.requests.len() as u32,
            message,
        )
    }
}

} // verus!

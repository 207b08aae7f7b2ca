//! Control frames and the checks on them.

use crate::chars::{chars_of, number, parse_number, trim_chars, trimmed};
use crate::rank::network::{NetworkError, NetworkFailure};
use crate::rank::protocol::frame::FrameModel;
use crate::rank::protocol::header::crc32;
use crate::rank::protocol::{
    ElementType, Frame, FrameHeader, Opcode, ProtocolError, UniqueId, ANY_RANK, FLAG_P2P_CHANNEL,
};
use crate::rank::topology::error::{transport_name, transport_text};
use crate::rank::topology::parse::{is_word, reads, Variable, VariableModel};
use crate::rank::topology::MAX_P2P_RAILS;
use crate::rank::CollectiveTransport;
use crate::text::{decimal, push_decimal, push_usize, quote, quoted};
use vstd::prelude::*;
use vstd::string::*;
use vstd::utf8::*;

verus! {

/// A header that only an opcode and a sender fill.
pub open spec fn blank_header(
    unique_id: UniqueId,
    opcode: Opcode,
    element_type: ElementType,
    source_rank: u32,
    world_size: u32,
    sequence: u64,
    element_count: u64,
) -> FrameHeader {
    FrameHeader {
        opcode,
        element_type,
        flags: 0,
        source_rank,
        destination_rank: ANY_RANK,
        root_rank: ANY_RANK,
        world_size,
        sequence,
        tag: 0,
        element_count,
        payload_bytes: 0,
        unique_id,
        payload_checksum: crc32(Seq::empty()),
    }
}

/// The frame of a header and a payload, or the failure that stops it.
pub open spec fn framed(header: FrameHeader, payload: Seq<u8>) -> Result<
    FrameModel,
    NetworkFailure,
> {
    match FrameModel::make(header, payload) {
        Ok(frame) => Ok(frame),
        Err(error) => Err(NetworkFailure::Protocol(error)),
    }
}

/// A result with a frame seen through its model.
pub open spec fn seen(result: Result<Frame, NetworkError>) -> Result<FrameModel, NetworkFailure> {
    match result {
        Ok(frame) => Ok(frame@),
        Err(error) => Err(error@),
    }
}

/// Whether a check's result is what its defect says.
pub open spec fn checked(result: Result<(), NetworkError>, defect: Option<NetworkFailure>) -> bool {
    match defect {
        Some(failure) => result is Err && result->Err_0@ == failure,
        None => result is Ok,
    }
}

pub open spec fn invalid(message: Seq<char>) -> NetworkFailure {
    NetworkFailure::InvalidConfiguration(message)
}

/// Builds a frame.
pub fn make_frame(header: FrameHeader, payload: Vec<u8>) -> (result: Result<Frame, NetworkError>)
    ensures
        seen(result) == framed(header, payload@),
{
    match Frame::new(header, payload) {
        Ok(frame) => Ok(frame),
        Err(error) => Err(NetworkError::from(error)),
    }
}

pub fn empty_payload() -> (payload: Vec<u8>)
    ensures
        payload@ == Seq::<u8>::empty(),
{
    let payload: Vec<u8> = Vec::new();
    assert(payload@ =~= Seq::<u8>::empty());
    payload
}

/// The bytes of a message.
pub fn message_bytes(message: &str) -> (bytes: Vec<u8>)
    ensures
        bytes@ == encode_utf8(message@),
{
    message.as_bytes_vec()
}

/// The coordinator's control frame to one rank.
pub fn control_frame(
    unique_id: UniqueId,
    opcode: Opcode,
    sequence: u64,
    destination: u32,
    world_size: u32,
) -> (result: Result<Frame, NetworkError>)
    ensures
        seen(result) == framed(
            (FrameHeader {
                destination_rank: destination,
                ..blank_header(
                    unique_id,
                    opcode,
                    ElementType::Untyped,
                    0,
                    world_size,
                    sequence,
                    0,
                )
            }),
            Seq::empty(),
        ),
{
    let mut header = FrameHeader::collective(
        unique_id,
        opcode,
        ElementType::Untyped,
        0,
        ANY_RANK,
        world_size,
        sequence,
        0,
    );
    header.destination_rank = destination;
    make_frame(header, empty_payload())
}

/// The coordinator's abort to one rank.
pub fn abort_frame(
    unique_id: UniqueId,
    sequence: u64,
    destination: u32,
    world_size: u32,
    message: &str,
) -> (result: Result<Frame, NetworkError>)
    ensures
        seen(result) == abort_of(unique_id, sequence, destination, world_size, message@),
{
    let payload = message_bytes(message);
    let mut header = FrameHeader::collective(
        unique_id,
        Opcode::Abort,
        ElementType::U8,
        0,
        ANY_RANK,
        world_size,
        sequence,
        payload.len() as u64,
    );
    header.destination_rank = destination;
    make_frame(header, payload)
}

pub open spec fn abort_of(
    unique_id: UniqueId,
    sequence: u64,
    destination: u32,
    world_size: u32,
    message: Seq<char>,
) -> Result<FrameModel, NetworkFailure> {
    framed(
        FrameHeader {
            destination_rank: destination,
            ..blank_header(
                unique_id,
                Opcode::Abort,
                ElementType::U8,
                0,
                world_size,
                sequence,
                encode_utf8(message).len() as u64,
            )
        },
        encode_utf8(message),
    )
}

/// The aborts to all ranks; a rank whose frame cannot be built gets none.
pub fn abort_frames(
    unique_id: UniqueId,
    sequence: u64,
    world_size: u32,
    message: &str,
) -> (frames: Vec<Option<Frame>>)
    ensures
        frames@.len() == world_size,
        forall|r: int|
            0 <= r < world_size ==> match abort_of(
                unique_id,
                sequence,
                r as u32,
                world_size,
                message@,
            ) {
                Ok(frame) => (#[trigger] frames@[r]) is Some && frames@[r]->0@ == frame,
                Err(_) => frames@[r] is None,
            },
{
    let mut frames: Vec<Option<Frame>> = Vec::new();
    let mut rank: u32 = 0;
    while rank < world_size
        invariant
            rank <= world_size,
            frames@.len() == rank,
            forall|r: int|
                0 <= r < rank ==> match abort_of(
                    unique_id,
                    sequence,
                    r as u32,
                    world_size,
                    message@,
                ) {
                    Ok(frame) => (#[trigger] frames@[r]) is Some && frames@[r]->0@ == frame,
                    Err(_) => frames@[r] is None,
                },
        decreases world_size - rank,
    {
        match abort_frame(unique_id, sequence, rank, world_size, message) {
            Ok(frame) => {
                frames.push(Some(frame));
            },
            Err(_) => {
                frames.push(None);
            },
        }
        rank = rank + 1;
    }
    frames
}

/// The channel that a rank joins, as header flags and tag.
pub open spec fn on_channel(header: FrameHeader, p2p: bool, rail: usize) -> FrameHeader {
    if p2p {
        FrameHeader { flags: FLAG_P2P_CHANNEL, tag: rail as u64, ..header }
    } else {
        header
    }
}

/// A rank's first frame on a channel.
pub fn join_frame(unique_id: UniqueId, rank: u32, world_size: u32, p2p: bool, rail: usize) -> (result:
    Result<Frame, NetworkError>)
    ensures
        seen(result) == framed(
            on_channel(
                blank_header(
                    unique_id,
                    Opcode::Join,
                    ElementType::Untyped,
                    rank,
                    world_size,
                    0,
                    0,
                ),
                p2p,
                rail,
            ),
            Seq::empty(),
        ),
{
    let mut header = FrameHeader::collective(
        unique_id,
        Opcode::Join,
        ElementType::Untyped,
        rank,
        ANY_RANK,
        world_size,
        0,
        0,
    );
    if p2p {
        header.flags = FLAG_P2P_CHANNEL;
        header.tag = rail as u64;
    }
    make_frame(header, empty_payload())
}

/// The coordinator's answer to a rank that joined: the frame of a plain
/// control message with the channel marked on its header.
pub fn ready_frame(unique_id: UniqueId, rank: u32, world_size: u32, p2p: bool, rail: usize) -> (result:
    Result<Frame, NetworkError>)
    ensures
        seen(result) == match framed(
            FrameHeader {
                destination_rank: rank,
                ..blank_header(
                    unique_id,
                    Opcode::Ready,
                    ElementType::Untyped,
                    0,
                    world_size,
                    0,
                    0,
                )
            },
            Seq::empty(),
        ) {
            Ok(frame) => Ok(
                FrameModel { header: on_channel(frame.header, p2p, rail), payload: frame.payload },
            ),
            Err(failure) => Err(failure),
        },
{
    match control_frame(unique_id, Opcode::Ready, 0, rank, world_size) {
        Ok(frame) => {
            let mut ready = frame;
            if p2p {
                ready.header.flags = FLAG_P2P_CHANNEL;
                ready.header.tag = rail as u64;
            }
            Ok(ready)
        },
        Err(error) => Err(error),
    }
}

/// Why a rank's first frame is refused.
pub open spec fn join_defect(
    frame: FrameModel,
    unique_id: UniqueId,
    world_size: int,
    p2p: bool,
    rail: usize,
) -> Option<NetworkFailure> {
    let expected_rail: u64 = if p2p {
        rail as u64
    } else {
        0
    };
    if frame.header.opcode != Opcode::Join || frame.header.element_type != ElementType::Untyped
        || frame.payload.len() > 0 {
        Some(invalid("first rank frame must be an empty JOIN"@))
    } else if frame.header.unique_id != unique_id {
        Some(NetworkFailure::WrongSession)
    } else if frame.header.has_p2p_channel() != p2p {
        Some(invalid("rank joined the wrong TCP channel"@))
    } else if frame.header.tag != expected_rail {
        Some(
            invalid(
                "rank joined point-to-point rail "@ + decimal(frame.header.tag as nat)
                    + ", coordinator expects "@ + decimal(expected_rail as nat),
            ),
        )
    } else if frame.header.world_size != world_size {
        Some(
            invalid(
                "rank declares world size "@ + decimal(frame.header.world_size as nat)
                    + ", coordinator expects "@ + decimal(world_size as nat),
            ),
        )
    } else {
        None
    }
}

pub fn validate_join(
    frame: &Frame,
    unique_id: UniqueId,
    world_size: usize,
    p2p: bool,
    rail: usize,
) -> (result: Result<(), NetworkError>)
    ensures
        checked(result, join_defect(frame@, unique_id, world_size as int, p2p, rail)),
{
    if frame.header.opcode != Opcode::Join || frame.header.element_type != ElementType::Untyped
        || frame.payload.len() > 0 {
        return Err(NetworkError::invalid("first rank frame must be an empty JOIN"));
    }
    if !frame.header.unique_id.same(&unique_id) {
        return Err(NetworkError::WrongSession);
    }
    if (frame.header.flags & FLAG_P2P_CHANNEL != 0) != p2p {
        return Err(NetworkError::invalid("rank joined the wrong TCP channel"));
    }
    let expected_rail: u64 = if p2p {
        rail as u64
    } else {
        0
    };
    if frame.header.tag != expected_rail {
        let mut text = String::from_str("rank joined point-to-point rail ");
        push_decimal(&mut text, frame.header.tag);
        text.append(", coordinator expects ");
        push_decimal(&mut text, expected_rail);
        return Err(NetworkError::InvalidConfiguration(text));
    }
    if frame.header.world_size as usize != world_size {
        let mut text = String::from_str("rank declares world size ");
        push_decimal(&mut text, frame.header.world_size as u64);
        text.append(", coordinator expects ");
        push_usize(&mut text, world_size);
        return Err(NetworkError::InvalidConfiguration(text));
    }
    Ok(())
}

/// Why a response is not the one that a rank waits for.
pub open spec fn response_defect(
    header: FrameHeader,
    unique_id: UniqueId,
    rank: u32,
    world_size: u32,
    sequence: u64,
) -> Option<NetworkFailure> {
    if header.unique_id != unique_id || header.world_size != world_size {
        Some(NetworkFailure::WrongSession)
    } else if header.destination_rank != rank {
        Some(
            NetworkFailure::WrongDestination { expected: rank, actual: header.destination_rank },
        )
    } else if header.sequence != sequence {
        Some(
            NetworkFailure::Protocol(
                ProtocolError::SequenceMismatch { expected: sequence, actual: header.sequence },
            ),
        )
    } else {
        None
    }
}

pub fn validate_response(
    frame: &Frame,
    unique_id: UniqueId,
    rank: u32,
    world_size: u32,
    sequence: u64,
) -> (result: Result<(), NetworkError>)
    ensures
        checked(result, response_defect(frame.header, unique_id, rank, world_size, sequence)),
{
    if !frame.header.unique_id.same(&unique_id) || frame.header.world_size != world_size {
        return Err(NetworkError::WrongSession);
    }
    if frame.header.destination_rank != rank {
        return Err(
            NetworkError::WrongDestination {
                expected: rank,
                actual: frame.header.destination_rank,
            },
        );
    }
    if frame.header.sequence != sequence {
        return Err(
            NetworkError::from(
                ProtocolError::SequenceMismatch {
                    expected: sequence,
                    actual: frame.header.sequence,
                },
            ),
        );
    }
    Ok(())
}

/// Why an answer to a rank that joined is refused.
pub open spec fn ready_defect(
    header: FrameHeader,
    unique_id: UniqueId,
    rank: u32,
    world_size: u32,
    p2p: bool,
    rail: usize,
) -> Option<NetworkFailure> {
    match response_defect(header, unique_id, rank, world_size, 0) {
        Some(defect) => Some(defect),
        None => if header.opcode != Opcode::Ready || header.has_p2p_channel() != p2p || header.tag
            != (if p2p {
            rail as u64
        } else {
            0
        }) {
            Some(
                invalid(
                    "coordinator answered JOIN on the wrong channel/rail with "@
                        + header.opcode.spec_name() + " tag "@ + decimal(header.tag as nat),
                ),
            )
        } else {
            None
        },
    }
}

/// Checks the coordinator's answer to a join; `None` is a closed connection.
pub fn validate_ready(
    frame: Option<&Frame>,
    unique_id: UniqueId,
    rank: u32,
    world_size: u32,
    p2p: bool,
    rail: usize,
) -> (result: Result<(), NetworkError>)
    ensures
        checked(
            result,
            match frame {
                Some(ready) => ready_defect(
                    ready.header,
                    unique_id,
                    rank,
                    world_size,
                    p2p,
                    rail,
                ),
                None => Some(invalid("coordinator closed before READY"@)),
            },
        ),
{
    let ready = match frame {
        Some(ready) => ready,
        None => {
            return Err(NetworkError::invalid("coordinator closed before READY"));
        },
    };
    match validate_response(ready, unique_id, rank, world_size, 0) {
        Ok(()) => {},
        Err(error) => {
            return Err(error);
        },
    }
    let expected_tag: u64 = if p2p {
        rail as u64
    } else {
        0
    };
    if ready.header.opcode != Opcode::Ready || (ready.header.flags & FLAG_P2P_CHANNEL != 0) != p2p
        || ready.header.tag != expected_tag {
        let mut text = String::from_str(
            "coordinator answered JOIN on the wrong channel/rail with ",
        );
        text.append(ready.header.opcode.name());
        text.append(" tag ");
        push_decimal(&mut text, ready.header.tag);
        return Err(NetworkError::InvalidConfiguration(text));
    }
    Ok(())
}

/// The ranks that have joined a channel.
#[derive(Debug)]
pub struct RankRoster {
    pub unique_id: UniqueId,
    pub p2p: bool,
    pub rail: usize,
    pub joined: Vec<bool>,
}

impl RankRoster {
    pub fn new(unique_id: UniqueId, world_size: usize, p2p: bool, rail: usize) -> (roster: Self)
        ensures
            roster.unique_id == unique_id,
            roster.p2p == p2p,
            roster.rail == rail,
            roster.joined@ == Seq::new(world_size as nat, |i: int| false),
    {
        let joined = crate::rank::topology::paths::repeat(false, world_size);
        assert(joined@ =~= Seq::new(world_size as nat, |i: int| false));
        Self { unique_id, p2p, rail, joined }
    }

    /// Takes a rank's first frame and says which rank sent it; `None` is a
    /// closed connection.
    pub fn enrol(&mut self, frame: Option<&Frame>) -> (result: Result<usize, NetworkError>)
        requires
            match frame {
                Some(frame) => frame@.valid(),
                None => true,
            },
        ensures
            final(self).unique_id == old(self).unique_id,
            final(self).p2p == old(self).p2p,
            final(self).rail == old(self).rail,
            match frame {
                None => {
                    &&& result is Err
                    &&& result->Err_0@ == invalid("rank closed before JOIN"@)
                    &&& final(self).joined@ == old(self).joined@
                },
                Some(frame) => match join_defect(
                    frame@,
                    old(self).unique_id,
                    old(self).joined@.len() as int,
                    old(self).p2p,
                    old(self).rail,
                ) {
                    Some(defect) => {
                        &&& result is Err
                        &&& result->Err_0@ == defect
                        &&& final(self).joined@ == old(self).joined@
                    },
                    None => {
                        let rank = frame.header.source_rank;
                        &&& rank < old(self).joined@.len()
                        &&& if old(self).joined@[rank as int] {
                            &&& result is Err
                            &&& result->Err_0@ == NetworkFailure::RankAlreadyJoined(rank)
                            &&& final(self).joined@ == old(self).joined@
                        } else {
                            &&& result == Ok::<usize, NetworkError>(rank as usize)
                            &&& final(self).joined@ == old(self).joined@.update(rank as int, true)
                        }
                    },
                },
            },
    {
        let frame = match frame {
            Some(frame) => frame,
            None => {
                return Err(NetworkError::invalid("rank closed before JOIN"));
            },
        };
        match validate_join(frame, self.unique_id, self.joined.len(), self.p2p, self.rail) {
            Ok(()) => {},
            Err(error) => {
                return Err(error);
            },
        }
        assert(frame.header.defect() is None);
        let rank: usize = frame.header.source_rank as usize;
        if self.joined[rank] {
            return Err(NetworkError::RankAlreadyJoined(frame.header.source_rank));
        }
        self.joined.set(rank, true);
        Ok(rank)
    }

    pub fn complete(&self) -> (all: bool)
        ensures
            all == (forall|i: int| 0 <= i < self.joined@.len() ==> #[trigger] self.joined@[i]),
    {
        let mut rank: usize = 0;
        while rank < self.joined.len()
            invariant
                rank <= self.joined@.len(),
                forall|i: int| 0 <= i < rank ==> #[trigger] self.joined@[i],
            decreases self.joined@.len() - rank,
        {
            if !self.joined[rank] {
                return false;
            }
            rank = rank + 1;
        }
        true
    }
}

/// A transport that runs over TCP.
pub open spec fn is_tcp(transport: CollectiveTransport) -> bool {
    transport == CollectiveTransport::TcpHostStaged || transport == CollectiveTransport::TcpPeer
}

pub open spec fn tcp_defect(transport: CollectiveTransport) -> Option<NetworkFailure> {
    if is_tcp(transport) {
        None
    } else {
        Some(invalid(transport_text(transport) + " is not a TCP transport"@))
    }
}

pub fn validate_tcp_transport(transport: CollectiveTransport) -> (result: Result<(), NetworkError>)
    ensures
        checked(result, tcp_defect(transport)),
{
    match transport {
        CollectiveTransport::TcpHostStaged | CollectiveTransport::TcpPeer => Ok(()),
        _ => {
            let mut text = String::from_str(transport_name(transport));
            text.append(" is not a TCP transport");
            Err(NetworkError::InvalidConfiguration(text))
        },
    }
}

pub open spec fn rails_defect(rails: usize) -> Option<NetworkFailure> {
    if 1 <= rails <= MAX_P2P_RAILS {
        None
    } else {
        Some(
            invalid(
                "point-to-point rail count "@ + decimal(rails as nat) + " is outside 1..="@
                    + decimal(MAX_P2P_RAILS as nat),
            ),
        )
    }
}

pub fn validate_p2p_rails(rails: usize) -> (result: Result<(), NetworkError>)
    ensures
        checked(result, rails_defect(rails)),
{
    if 1 <= rails && rails <= MAX_P2P_RAILS {
        return Ok(());
    }
    let mut text = String::from_str("point-to-point rail count ");
    push_usize(&mut text, rails);
    text.append(" is outside 1..=");
    push_usize(&mut text, MAX_P2P_RAILS);
    Err(NetworkError::InvalidConfiguration(text))
}

/// A setting that is no text.
pub open spec fn not_unicode(name: Seq<char>, rendering: Seq<char>) -> NetworkFailure {
    invalid(name + " is not Unicode: "@ + quoted(rendering))
}

pub fn not_unicode_error(name: &str, rendering: &str) -> (error: NetworkError)
    ensures
        error@ == not_unicode(name@, rendering@),
{
    let mut text = String::from_str(name);
    text.append(" is not Unicode: ");
    let shown = quote(rendering);
    text.append(shown.as_str());
    NetworkError::InvalidConfiguration(text)
}

/// The rail count that `GX1_P2P_RAILS` names.
pub open spec fn rails_setting(value: VariableModel) -> Result<usize, NetworkFailure> {
    match value {
        VariableModel::Absent => Ok(1),
        VariableModel::NotUnicode(text) => Err(not_unicode("GX1_P2P_RAILS"@, text)),
        VariableModel::Text(text) => match number(trimmed(text), usize::MAX as nat) {
            Some(rails) => match rails_defect(rails as usize) {
                Some(defect) => Err(defect),
                None => Ok(rails as usize),
            },
            None => Err(
                invalid(
                    "GX1_P2P_RAILS must be an integer in 1..="@ + decimal(MAX_P2P_RAILS as nat)
                        + ", got "@ + quoted(text),
                ),
            ),
        },
    }
}

pub fn p2p_rails_from_environment(value: &Variable) -> (result: Result<usize, NetworkError>)
    ensures
        match rails_setting(value@) {
            Ok(rails) => result is Ok && result->Ok_0 == rails,
            Err(failure) => result is Err && result->Err_0@ == failure,
        },
{
    match value {
        Variable::Absent => Ok(1),
        Variable::NotUnicode(text) => Err(not_unicode_error("GX1_P2P_RAILS", text.as_str())),
        Variable::Text(text) => {
            let chars = chars_of(text.as_str());
            let inner = trim_chars(chars.as_slice());
            match parse_number(inner.as_slice(), usize::MAX as u64) {
                Some(rails) => match validate_p2p_rails(rails as usize) {
                    Ok(()) => Ok(rails as usize),
                    Err(error) => Err(error),
                },
                None => {
                    let mut message = String::from_str("GX1_P2P_RAILS must be an integer in 1..=");
                    push_usize(&mut message, MAX_P2P_RAILS);
                    message.append(", got ");
                    let shown = quote(text.as_str());
                    message.append(shown.as_str());
                    Err(NetworkError::InvalidConfiguration(message))
                },
            }
        },
    }
}

/// The transport that `GX1_COLLECTIVE_TRANSPORT` names.
pub open spec fn tcp_setting(value: VariableModel) -> Result<CollectiveTransport, NetworkFailure> {
    match value {
        VariableModel::Absent => Ok(CollectiveTransport::TcpHostStaged),
        VariableModel::NotUnicode(text) => Err(not_unicode("GX1_COLLECTIVE_TRANSPORT"@, text)),
        VariableModel::Text(text) => if is_word(text, "coordinator"@) || is_word(
            text,
            "tcp_coordinator"@,
        ) || is_word(text, "tcp_host_staged"@) {
            Ok(CollectiveTransport::TcpHostStaged)
        } else if is_word(text, "peer"@) || is_word(text, "tcp_peer"@) {
            Ok(CollectiveTransport::TcpPeer)
        } else {
            Err(
                invalid(
                    "GX1_COLLECTIVE_TRANSPORT must be tcp_host_staged or tcp_peer, got "@ + quoted(
                        text,
                    ),
                ),
            )
        },
    }
}

pub fn tcp_transport_from_environment(value: &Variable) -> (result: Result<
    CollectiveTransport,
    NetworkError,
>)
    ensures
        match tcp_setting(value@) {
            Ok(transport) => result is Ok && result->Ok_0 == transport,
            Err(failure) => result is Err && result->Err_0@ == failure,
        },
{
    match value {
        Variable::Absent => Ok(CollectiveTransport::TcpHostStaged),
        Variable::NotUnicode(text) => Err(
            not_unicode_error("GX1_COLLECTIVE_TRANSPORT", text.as_str()),
        ),
        Variable::Text(text) => {
            if reads(text.as_str(), "coordinator") || reads(text.as_str(), "tcp_coordinator")
                || reads(text.as_str(), "tcp_host_staged") {
                Ok(CollectiveTransport::TcpHostStaged)
            } else if reads(text.as_str(), "peer") || reads(text.as_str(), "tcp_peer") {
                Ok(CollectiveTransport::TcpPeer)
            } else {
                let mut message = String::from_str(
                    "GX1_COLLECTIVE_TRANSPORT must be tcp_host_staged or tcp_peer, got ",
                );
                let shown = quote(text.as_str());
                message.append(shown.as_str());
                Err(NetworkError::InvalidConfiguration(message))
            }
        },
    }
}

/// What the other ranks are told of a failure.
pub open spec fn failure_text(failure: NetworkFailure) -> Seq<char> {
    match failure {
        NetworkFailure::RemoteAbort(message) => message,
        _ => failure.message(),
    }
}

pub fn server_failure_text(error: &NetworkError) -> (text: String)
    ensures
        text@ == failure_text(error@),
{
    match error {
        NetworkError::RemoteAbort(message) => message.clone(),
        _ => error.to_string(),
    }
}

/// A world that a coordinator can serve.
pub fn validate_world_size(world_size: usize) -> (result: Result<(), NetworkError>)
    ensures
        checked(
            result,
            if 0 < world_size <= u32::MAX {
                None
            } else {
                Some(
                    invalid(
                        "TCP collective world size "@ + decimal(world_size as nat)
                            + " is outside 1..="@ + decimal(u32::MAX as nat) + " "@,
                    ),
                )
            },
        ),
{
    if world_size == 0 || world_size as u64 > u32::MAX as u64 {
        let mut text = String::from_str("TCP collective world size ");
        push_usize(&mut text, world_size);
        text.append(" is outside 1..=");
        push_decimal(&mut text, u32::MAX as u64);
        text.append(" ");
        return Err(NetworkError::InvalidConfiguration(text));
    }
    Ok(())
}

/// A rank that can connect.
pub fn validate_session_rank(rank: u32, world_size: u32) -> (result: Result<(), NetworkError>)
    ensures
        checked(
            result,
            if rank < world_size {
                None
            } else {
                Some(
                    invalid(
                        "rank "@ + decimal(rank as nat)
                            + " is outside TCP collective world size "@ + decimal(
                            world_size as nat,
                        ),
                    ),
                )
            },
        ),
{
    if world_size == 0 || rank >= world_size {
        let mut text = String::from_str("rank ");
        push_decimal(&mut text, rank as u64);
        text.append(" is outside TCP collective world size ");
        push_decimal(&mut text, world_size as u64);
        return Err(NetworkError::InvalidConfiguration(text));
    }
    Ok(())
}

/// A timeout, in nanoseconds, that is not zero.
pub fn validate_timeout(nanoseconds: u128, name: &str) -> (result: Result<(), NetworkError>)
    ensures
        checked(
            result,
            if nanoseconds == 0 {
                Some(invalid(name@ + " timeout must be greater than zero"@))
            } else {
                None
            },
        ),
{
    if nanoseconds == 0 {
        let mut text = String::from_str(name);
        text.append(" timeout must be greater than zero");
        return Err(NetworkError::InvalidConfiguration(text));
    }
    Ok(())
}

} // verus!

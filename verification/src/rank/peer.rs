//! Direct connections between ranks: how a mesh is set up, what is sent over
//! it, and how what arrives is matched.

use crate::rank::network::control::{
    blank_header, checked, empty_payload, framed, invalid, make_frame, message_bytes, seen,
};
use crate::rank::network::{NetworkError, NetworkFailure};
use crate::rank::protocol::frame::FrameModel;
use crate::rank::protocol::{
    ElementType, Frame, FrameHeader, Opcode, ProtocolError, UniqueId, ANY_RANK, FLAG_P2P_CHANNEL,
};
use crate::rank::topology::links::table;
use crate::text::{decimal, lossy, lossy_text, push_decimal, push_usize};
use vstd::prelude::*;
use vstd::string::*;
use vstd::utf8::*;

verus! {

/// The header of a frame that sets up a connection.
pub open spec fn setup_header(
    unique_id: UniqueId,
    opcode: Opcode,
    rank: u32,
    peer: u32,
    world_size: u32,
    rail: usize,
) -> FrameHeader {
    FrameHeader {
        flags: FLAG_P2P_CHANNEL,
        destination_rank: peer,
        tag: rail as u64,
        ..blank_header(unique_id, opcode, ElementType::Untyped, rank, world_size, 0, 0)
    }
}

fn setup_frame(
    unique_id: UniqueId,
    opcode: Opcode,
    rank: u32,
    peer: u32,
    world_size: u32,
    rail: usize,
) -> (result: Result<Frame, NetworkError>)
    ensures
        seen(result) == framed(
            setup_header(unique_id, opcode, rank, peer, world_size, rail),
            Seq::empty(),
        ),
{
    let mut header = FrameHeader::collective(
        unique_id,
        opcode,
        ElementType::Untyped,
        rank,
        ANY_RANK,
        world_size,
        0,
        0,
    );
    header.destination_rank = peer;
    header.flags = FLAG_P2P_CHANNEL;
    header.tag = rail as u64;
    make_frame(header, empty_payload())
}

/// The first frame on a connection, from the rank that dials.
pub fn peer_join_frame(unique_id: UniqueId, rank: u32, peer: u32, world_size: u32, rail: usize) -> (result:
    Result<Frame, NetworkError>)
    ensures
        seen(result) == framed(
            setup_header(unique_id, Opcode::Join, rank, peer, world_size, rail),
            Seq::empty(),
        ),
{
    setup_frame(unique_id, Opcode::Join, rank, peer, world_size, rail)
}

/// The answer to it.
pub fn peer_ready_frame(
    unique_id: UniqueId,
    rank: u32,
    peer: u32,
    world_size: u32,
    rail: usize,
) -> (result: Result<Frame, NetworkError>)
    ensures
        seen(result) == framed(
            setup_header(unique_id, Opcode::Ready, rank, peer, world_size, rail),
            Seq::empty(),
        ),
{
    setup_frame(unique_id, Opcode::Ready, rank, peer, world_size, rail)
}

/// Why an answer on a dialled connection is refused.
pub open spec fn peer_ready_defect(
    ready: FrameModel,
    unique_id: UniqueId,
    rank: u32,
    peer: u32,
    world_size: u32,
    rail: usize,
) -> Option<NetworkFailure> {
    let header = ready.header;
    if header.opcode != Opcode::Ready || header.unique_id != unique_id || header.source_rank != peer
        || header.destination_rank != rank || header.world_size != world_size
        || !header.has_p2p_channel() || header.tag != rail as u64 || ready.payload.len() > 0 {
        Some(
            invalid(
                "invalid READY from direct peer rank "@ + decimal(peer as nat) + " rail "@
                    + decimal(rail as nat),
            ),
        )
    } else {
        None
    }
}

/// Checks the answer on a dialled connection; `None` is a closed connection.
pub fn validate_peer_ready(
    ready: Option<&Frame>,
    unique_id: UniqueId,
    rank: u32,
    peer: u32,
    world_size: u32,
    rail: usize,
) -> (result: Result<(), NetworkError>)
    ensures
        checked(
            result,
            match ready {
                Some(ready) => peer_ready_defect(ready@, unique_id, rank, peer, world_size, rail),
                None => Some(invalid("direct peer closed before READY"@)),
            },
        ),
{
    let ready = match ready {
        Some(ready) => ready,
        None => {
            return Err(NetworkError::invalid("direct peer closed before READY"));
        },
    };
    if ready.header.opcode != Opcode::Ready || !ready.header.unique_id.same(&unique_id)
        || ready.header.source_rank != peer || ready.header.destination_rank != rank
        || ready.header.world_size != world_size || ready.header.flags & FLAG_P2P_CHANNEL == 0
        || ready.header.tag != rail as u64 || ready.payload.len() > 0 {
        let mut text = String::from_str("invalid READY from direct peer rank ");
        push_decimal(&mut text, peer as u64);
        text.append(" rail ");
        push_usize(&mut text, rail);
        return Err(NetworkError::InvalidConfiguration(text));
    }
    Ok(())
}

/// Why a first frame on an accepted connection is refused.
pub open spec fn peer_join_defect(
    frame: FrameModel,
    unique_id: UniqueId,
    rank: u32,
    world_size: u32,
    rails: usize,
) -> Option<NetworkFailure> {
    let header = frame.header;
    if header.opcode != Opcode::Join || header.element_type != ElementType::Untyped
        || header.unique_id != unique_id || header.destination_rank != rank || header.world_size
        != world_size || !header.has_p2p_channel() || frame.payload.len() > 0 {
        Some(invalid("invalid direct peer JOIN"@))
    } else if header.tag > usize::MAX {
        Some(invalid("direct peer rail exceeds usize"@))
    } else if header.tag >= rails {
        Some(invalid(rail_text(header.tag as usize, rails)))
    } else {
        None
    }
}

pub open spec fn rail_text(rail: usize, rails: usize) -> Seq<char> {
    "direct peer rail "@ + decimal(rail as nat) + " is outside 0.."@ + decimal(rails as nat)
}

fn rail_error(rail: usize, rails: usize) -> (error: NetworkError)
    ensures
        error@ == invalid(rail_text(rail, rails)),
{
    let mut text = String::from_str("direct peer rail ");
    push_usize(&mut text, rail);
    text.append(" is outside 0..");
    push_usize(&mut text, rails);
    NetworkError::InvalidConfiguration(text)
}

/// The peer and the rail that a first frame names.
pub fn validate_peer_join(
    frame: &Frame,
    unique_id: UniqueId,
    rank: u32,
    world_size: u32,
    rails: usize,
) -> (result: Result<(u32, usize), NetworkError>)
    ensures
        match peer_join_defect(frame@, unique_id, rank, world_size, rails) {
            Some(defect) => result is Err && result->Err_0@ == defect,
            None => result == Ok::<(u32, usize), NetworkError>(
                (frame.header.source_rank, frame.header.tag as usize),
            ) && frame.header.tag < rails,
        },
{
    if frame.header.opcode != Opcode::Join || frame.header.element_type != ElementType::Untyped
        || !frame.header.unique_id.same(&unique_id) || frame.header.destination_rank != rank
        || frame.header.world_size != world_size || frame.header.flags & FLAG_P2P_CHANNEL == 0
        || frame.payload.len() > 0 {
        return Err(NetworkError::invalid("invalid direct peer JOIN"));
    }
    if frame.header.tag > usize::MAX as u64 {
        return Err(NetworkError::invalid("direct peer rail exceeds usize"));
    }
    let rail: usize = frame.header.tag as usize;
    if rail >= rails {
        return Err(rail_error(rail, rails));
    }
    Ok((frame.header.source_rank, rail))
}

/// The first rank before `count` whose endpoint count is not the rails'.
pub open spec fn endpoints_defect(counts: Seq<usize>, rails: usize, count: int) -> Option<
    NetworkFailure,
>
    decreases count,
{
    if count <= 0 {
        None
    } else {
        match endpoints_defect(counts, rails, count - 1) {
            Some(defect) => Some(defect),
            None => if counts[count - 1] != rails {
                Some(
                    invalid(
                        "peer endpoint table contains "@ + decimal(counts[count - 1] as nat)
                            + " rail endpoints for rank "@ + decimal((count - 1) as nat)
                            + ", expected "@ + decimal(rails as nat),
                    ),
                )
            } else {
                None
            },
        }
    }
}

/// Why a mesh cannot be set up from its tables.
pub open spec fn mesh_defect(
    counts: Seq<usize>,
    listeners: usize,
    world_size: u32,
    rails: usize,
) -> Option<NetworkFailure> {
    if counts.len() != world_size {
        Some(
            invalid(
                "peer endpoint table contains "@ + decimal(counts.len()) + " ranks, expected "@
                    + decimal(world_size as nat),
            ),
        )
    } else if endpoints_defect(counts, rails, counts.len() as int) is Some {
        endpoints_defect(counts, rails, counts.len() as int)
    } else if listeners != 1 && listeners != rails {
        Some(
            invalid(
                "direct peer mesh contains "@ + decimal(listeners as nat)
                    + " listeners, expected one shared listener or "@ + decimal(rails as nat)
                    + " rail listeners"@,
            ),
        )
    } else {
        None
    }
}

proof fn lemma_endpoints_defect(counts: Seq<usize>, rails: usize, count: int, end: int)
    requires
        count <= end,
    ensures
        endpoints_defect(counts, rails, count) is Some ==> endpoints_defect(counts, rails, end)
            == endpoints_defect(counts, rails, count),
    decreases end - count,
{
    if count < end {
        lemma_endpoints_defect(counts, rails, count, end - 1);
    }
}

/// Holds the tables of a mesh against the session: how many endpoints each
/// rank has, and how many listeners this one opened.
pub fn validate_mesh(
    endpoint_counts: &[usize],
    listeners: usize,
    world_size: u32,
    rails: usize,
) -> (result: Result<(), NetworkError>)
    ensures
        checked(result, mesh_defect(endpoint_counts@, listeners, world_size, rails)),
{
    if endpoint_counts.len() as u64 != world_size as u64 {
        let mut text = String::from_str("peer endpoint table contains ");
        push_usize(&mut text, endpoint_counts.len());
        text.append(" ranks, expected ");
        push_decimal(&mut text, world_size as u64);
        return Err(NetworkError::InvalidConfiguration(text));
    }
    let mut peer: usize = 0;
    while peer < endpoint_counts.len()
        invariant
            peer <= endpoint_counts@.len(),
            endpoint_counts@.len() == world_size,
            endpoints_defect(endpoint_counts@, rails, peer as int) is None,
        decreases endpoint_counts@.len() - peer,
    {
        if endpoint_counts[peer] != rails {
            let mut text = String::from_str("peer endpoint table contains ");
            push_usize(&mut text, endpoint_counts[peer]);
            text.append(" rail endpoints for rank ");
            push_usize(&mut text, peer);
            text.append(", expected ");
            push_usize(&mut text, rails);
            proof {
                lemma_endpoints_defect(
                    endpoint_counts@,
                    rails,
                    peer + 1,
                    endpoint_counts@.len() as int,
                );
            }
            return Err(NetworkError::InvalidConfiguration(text));
        }
        peer = peer + 1;
    }
    if listeners != 1 && listeners != rails {
        let mut text = String::from_str("direct peer mesh contains ");
        push_usize(&mut text, listeners);
        text.append(" listeners, expected one shared listener or ");
        push_usize(&mut text, rails);
        text.append(" rail listeners");
        return Err(NetworkError::InvalidConfiguration(text));
    }
    Ok(())
}

/// An acknowledgement that a send waits for.
#[derive(Debug, Clone, Copy, PartialEq, Eq, Structural)]
pub struct AckKey {
    pub peer: u32,
    pub rail: usize,
    pub sequence: u64,
}

/// A frame that arrived and waits to be received.
#[derive(Debug)]
pub struct QueuedFrame {
    pub rail: usize,
    pub frame: Frame,
}

/// Queued frames as plain data.
pub open spec fn queue_of(frames: Seq<QueuedFrame>) -> Seq<(usize, FrameModel)> {
    Seq::new(frames.len(), |i: int| (frames[i].rail, frames[i].frame@))
}

/// A mesh as plain data. A connection holds the sequence of its next send.
#[verifier::ext_equal]
pub struct MeshModel {
    pub unique_id: UniqueId,
    pub rank: u32,
    pub world_size: u32,
    pub rails: usize,
    pub connections: Seq<Seq<Option<u64>>>,
    pub inbox: Seq<(usize, FrameModel)>,
    pub pending: Set<AckKey>,
    pub failure: Option<Seq<char>>,
}

/// Whether a queued frame is what a receive asks for.
pub open spec fn wanted(queued: (usize, FrameModel), rail: usize, source: Option<u32>, tag: u64) -> bool {
    &&& queued.0 == rail
    &&& queued.1.header.tag == tag
    &&& match source {
        Some(source) => queued.1.header.source_rank == source,
        None => true,
    }
}

fn is_wanted(queued: &QueuedFrame, rail: usize, source: Option<u32>, tag: u64) -> (fits: bool)
    ensures
        fits == wanted((queued.rail, queued.frame@), rail, source, tag),
{
    if queued.rail != rail || queued.frame.header.tag != tag {
        return false;
    }
    match source {
        Some(source) => queued.frame.header.source_rank == source,
        None => true,
    }
}

/// The first queued frame at or behind `from` that a receive asks for.
pub open spec fn first_wanted(
    inbox: Seq<(usize, FrameModel)>,
    rail: usize,
    source: Option<u32>,
    tag: u64,
    from: int,
) -> Option<int>
    decreases inbox.len() - from,
{
    if from < 0 || from >= inbox.len() {
        None
    } else if wanted(inbox[from], rail, source, tag) {
        Some(from)
    } else {
        first_wanted(inbox, rail, source, tag, from + 1)
    }
}

impl MeshModel {
    pub open spec fn valid(self) -> bool {
        &&& self.rank < self.world_size
        &&& self.connections.len() == self.rails
        &&& forall|r: int|
            0 <= r < self.rails ==> (#[trigger] self.connections[r]).len() == self.world_size
        &&& forall|key: AckKey| #[trigger]
            self.pending.contains(key) ==> {
                &&& key.peer < self.world_size
                &&& key.rail < self.rails
                &&& self.connections[key.rail as int][key.peer as int] is Some
                &&& key.sequence < self.connections[key.rail as int][key.peer as int]->0
            }
    }

    /// Why a connection that was accepted cannot join the mesh.
    pub open spec fn join_defect(
        self,
        join: FrameModel,
        listener: usize,
        listeners: usize,
    ) -> Option<NetworkFailure> {
        let peer = join.header.source_rank;
        let rail = join.header.tag as usize;
        match peer_join_defect(join, self.unique_id, self.rank, self.world_size, self.rails) {
            Some(defect) => Some(defect),
            None => if listeners == self.rails && rail != listener {
                Some(
                    invalid(
                        "direct peer rail "@ + decimal(rail as nat)
                            + " joined dedicated listener "@ + decimal(listener as nat),
                    ),
                )
            } else if peer <= self.rank {
                Some(
                    invalid(
                        "rank "@ + decimal(self.rank as nat) + " accepted direct peer "@ + decimal(
                            peer as nat,
                        ) + "; only higher ranks connect"@,
                    ),
                )
            } else if self.connections[rail as int][peer as int] is Some {
                Some(
                    invalid(
                        "direct peer rank "@ + decimal(peer as nat) + " rail "@ + decimal(
                            rail as nat,
                        ) + " joined twice"@,
                    ),
                )
            } else {
                None
            },
        }
    }

    pub open spec fn connected(self, rail: int, peer: int, next: u64) -> MeshModel {
        MeshModel {
            connections: self.connections.update(
                rail,
                self.connections[rail].update(peer, Some(next)),
            ),
            ..self
        }
    }

    /// What stops a send before it has a connection.
    pub open spec fn send_defect(self, rail: usize, destination: u32) -> Option<NetworkFailure> {
        if rail >= self.rails {
            Some(invalid(rail_text(rail, self.rails)))
        } else if destination >= self.world_size {
            Some(
                NetworkFailure::Protocol(
                    ProtocolError::RankOutOfRange {
                        name: "peer",
                        rank: destination,
                        world_size: self.world_size,
                    },
                ),
            )
        } else {
            match self.failure {
                Some(message) => Some(NetworkFailure::RemoteAbort(message)),
                None => None,
            }
        }
    }

    /// The frame of a send.
    pub open spec fn send_frame(
        self,
        destination: u32,
        sequence: u64,
        tag: u64,
        element_type: ElementType,
        element_count: u64,
        payload: Seq<u8>,
    ) -> Result<FrameModel, NetworkFailure> {
        framed(
            FrameHeader {
                destination_rank: destination,
                tag,
                ..blank_header(
                    self.unique_id,
                    Opcode::Send,
                    element_type,
                    self.rank,
                    self.world_size,
                    sequence,
                    element_count,
                )
            },
            payload,
        )
    }

    /// The mesh after a send, and what it leads to.
    pub open spec fn sent(
        self,
        rail: usize,
        destination: u32,
        tag: u64,
        element_type: ElementType,
        element_count: u64,
        payload: Seq<u8>,
    ) -> (MeshModel, Result<Option<(AckKey, FrameModel)>, NetworkFailure>) {
        match self.send_defect(rail, destination) {
            Some(defect) => (self, Err(defect)),
            None => if destination == self.rank {
                match self.send_frame(self.rank, 0, tag, element_type, element_count, payload) {
                    Err(failure) => (self, Err(failure)),
                    Ok(frame) => (
                        MeshModel { inbox: self.inbox.push((rail, frame)), ..self },
                        Ok(None),
                    ),
                }
            } else {
                match self.connections[rail as int][destination as int] {
                    None => (
                        self,
                        Err(
                            invalid(
                                "direct peer connection to rank "@ + decimal(destination as nat)
                                    + " rail "@ + decimal(rail as nat) + " is absent"@,
                            ),
                        ),
                    ),
                    Some(sequence) => if sequence == u64::MAX {
                        (self, Err(NetworkFailure::Protocol(ProtocolError::SequenceOverflow)))
                    } else {
                        let after = self.connected(
                            rail as int,
                            destination as int,
                            (sequence + 1) as u64,
                        );
                        let key = AckKey { peer: destination, rail, sequence };
                        match self.send_frame(
                            destination,
                            sequence,
                            tag,
                            element_type,
                            element_count,
                            payload,
                        ) {
                            Err(failure) => (after, Err(failure)),
                            Ok(frame) => (
                                MeshModel { pending: after.pending.insert(key), ..after },
                                Ok(Some((key, frame))),
                            ),
                        }
                    },
                }
            },
        }
    }

    /// The mesh after a receive, and what it returns: nothing while no frame
    /// fits.
    pub open spec fn received(
        self,
        rail: usize,
        source: Option<u32>,
        tag: u64,
        element_type: ElementType,
        element_count: u64,
    ) -> (MeshModel, Result<Option<FrameModel>, NetworkFailure>) {
        if rail >= self.rails {
            (self, Err(invalid(rail_text(rail, self.rails))))
        } else if source is Some && source->0 >= self.world_size {
            (
                self,
                Err(
                    NetworkFailure::Protocol(
                        ProtocolError::RankOutOfRange {
                            name: "peer",
                            rank: source->0,
                            world_size: self.world_size,
                        },
                    ),
                ),
            )
        } else if self.failure is Some {
            (self, Err(NetworkFailure::RemoteAbort(self.failure->0)))
        } else {
            match first_wanted(self.inbox, rail, source, tag, 0) {
                None => (self, Ok(None)),
                Some(place) => {
                    let frame = self.inbox[place].1;
                    let after = MeshModel { inbox: self.inbox.remove(place), ..self };
                    if frame.header.element_type != element_type || frame.header.element_count
                        != element_count {
                        (
                            after,
                            Err(
                                invalid(
                                    "direct peer tag "@ + decimal(tag as nat)
                                        + " contract mismatch: send "@
                                        + frame.header.element_type.spec_name() + "/"@ + decimal(
                                        frame.header.element_count as nat,
                                    ) + " receive "@ + element_type.spec_name() + "/"@ + decimal(
                                        element_count as nat,
                                    ),
                                ),
                            ),
                        )
                    } else {
                        (after, Ok(Some(frame)))
                    }
                },
            }
        }
    }

    /// The mesh once something broke it: the first message stays, and nothing
    /// waits for an acknowledgement any more.
    pub open spec fn failed(self, message: Seq<char>) -> MeshModel {
        MeshModel {
            failure: match self.failure {
                Some(first) => Some(first),
                None => Some(message),
            },
            pending: Set::empty(),
            ..self
        }
    }

    /// The acknowledgement of a send that arrived.
    pub open spec fn acknowledgement(self, peer: u32, send: FrameHeader) -> Result<
        FrameModel,
        NetworkFailure,
    > {
        framed(
            FrameHeader {
                destination_rank: peer,
                tag: send.tag,
                ..blank_header(
                    self.unique_id,
                    Opcode::Send,
                    ElementType::Untyped,
                    self.rank,
                    self.world_size,
                    send.sequence,
                    0,
                )
            },
            Seq::empty(),
        )
    }

    /// Why a frame on a connection breaks the mesh.
    pub open spec fn arrival_failure(self, peer: u32, frame: FrameModel) -> Option<Seq<char>> {
        let header = frame.header;
        if header.unique_id != self.unique_id || header.world_size != self.world_size
            || header.source_rank != peer || header.destination_rank != self.rank
            || header.root_rank != ANY_RANK {
            Some("invalid direct peer frame envelope"@)
        } else {
            match header.opcode {
                Opcode::Send => if header.element_type == ElementType::Untyped {
                    if frame.payload.len() > 0 || header.element_count != 0 {
                        Some("invalid direct peer send acknowledgement"@)
                    } else {
                        None
                    }
                } else {
                    match self.acknowledgement(peer, header) {
                        Ok(_) => None,
                        Err(failure) => Some(failure.message()),
                    }
                },
                Opcode::Abort => Some(lossy(frame.payload)),
                Opcode::Leave => Some("direct peer rank "@ + decimal(peer as nat) + " left"@),
                _ => Some(
                    "unexpected "@ + header.opcode.spec_name() + " on direct peer connection"@,
                ),
            }
        }
    }
}

/// What a frame on a connection leads to.
#[derive(Debug)]
pub enum PeerStep {
    /// The frame was queued: write its acknowledgement to the peer.
    Acknowledge { frame: Frame },
    /// A send was acknowledged.
    Release { key: AckKey },
    /// An acknowledgement that nothing waits for.
    Ignore,
    /// The mesh is broken; the sends that waited fail with the message.
    Fail { message: String, waiting: Vec<AckKey> },
}

/// The state of a rank's direct connections.
#[derive(Debug)]
pub struct PeerMesh {
    unique_id: UniqueId,
    rank: u32,
    world_size: u32,
    rails: usize,
    connections: Vec<Vec<Option<u64>>>,
    inbox: Vec<QueuedFrame>,
    pending: Vec<AckKey>,
    failure: Option<String>,
}

impl View for PeerMesh {
    type V = MeshModel;

    closed spec fn view(&self) -> MeshModel {
        MeshModel {
            unique_id: self.unique_id,
            rank: self.rank,
            world_size: self.world_size,
            rails: self.rails,
            connections: table(self.connections@),
            inbox: queue_of(self.inbox@),
            pending: self.pending@.to_set(),
            failure: match self.failure {
                Some(message) => Some(message@),
                None => None,
            },
        }
    }
}

/// The connections of a rank that dialled all lower ranks and no other.
pub open spec fn dialled(rank: u32, world_size: u32, rails: usize) -> Seq<Seq<Option<u64>>> {
    Seq::new(
        rails as nat,
        |r: int|
            Seq::new(
                world_size as nat,
                |p: int|
                    if p < rank {
                        Some(0u64)
                    } else {
                        None
                    },
            ),
    )
}

impl PeerMesh {
    /// No key is listed twice.
    pub closed spec fn intact(&self) -> bool {
        self.pending@.no_duplicates() && self@.valid()
    }

    /// The mesh of a rank that has dialled all lower ranks on every rail.
    pub fn new(unique_id: UniqueId, rank: u32, world_size: u32, rails: usize) -> (mesh: Self)
        requires
            rank < world_size,
        ensures
            mesh.intact(),
            mesh@ == (MeshModel {
                unique_id,
                rank,
                world_size,
                rails,
                connections: dialled(rank, world_size, rails),
                inbox: Seq::empty(),
                pending: Set::empty(),
                failure: None,
            }),
    {
        let mut connections: Vec<Vec<Option<u64>>> = Vec::new();
        let mut rail: usize = 0;
        while rail < rails
            invariant
                rail <= rails,
                connections@.len() == rail,
                forall|r: int|
                    0 <= r < rail ==> (#[trigger] connections@[r])@ == dialled(
                        rank,
                        world_size,
                        rails,
                    )[r],
            decreases rails - rail,
        {
            let mut row: Vec<Option<u64>> = Vec::new();
            let mut peer: u32 = 0;
            while peer < world_size
                invariant
                    peer <= world_size,
                    rail < rails,
                    row@.len() == peer,
                    forall|p: int|
                        0 <= p < peer ==> #[trigger] row@[p] == dialled(rank, world_size, rails)[
                            rail as int
                        ][p],
                decreases world_size - peer,
            {
                if peer < rank {
                    row.push(Some(0));
                } else {
                    row.push(None);
                }
                peer = peer + 1;
            }
            assert(row@ =~= dialled(rank, world_size, rails)[rail as int]);
            connections.push(row);
            rail = rail + 1;
        }
        let mesh = Self {
            unique_id,
            rank,
            world_size,
            rails,
            connections,
            inbox: Vec::new(),
            pending: Vec::new(),
            failure: None,
        };
        proof {
            assert(mesh@.connections =~= dialled(rank, world_size, rails));
            assert(mesh@.pending =~= Set::<AckKey>::empty());
            assert(mesh@.inbox =~= Seq::<(usize, FrameModel)>::empty());
            assert(mesh@ =~= (MeshModel {
                unique_id,
                rank,
                world_size,
                rails,
                connections: dialled(rank, world_size, rails),
                inbox: Seq::empty(),
                pending: Set::empty(),
                failure: None,
            }));
        }
        mesh
    }

    /// How many connections the higher ranks will make.
    pub fn expected_incoming(&self) -> (count: u128)
        requires
            self@.valid(),
        ensures
            count == (self@.world_size - self@.rank - 1) * self@.rails,
    {
        let higher: u32 = self.world_size - self.rank - 1;
        assert(higher * self.rails <= u128::MAX) by (nonlinear_arith)
            requires
                0 <= higher <= u32::MAX,
                0 <= self.rails <= u64::MAX,
        ;
        higher as u128 * self.rails as u128
    }

    fn set_connection(&mut self, rail: usize, peer: u32, next: u64)
        requires
            old(self)@.valid(),
            rail < old(self)@.rails,
            peer < old(self)@.world_size,
        ensures
            final(self)@ == old(self)@.connected(rail as int, peer as int, next),
            final(self).pending@ == old(self).pending@,
    {
        let ghost before = self@;
        let ghost rows = self.connections@;
        assert(before.connections[rail as int].len() == self.world_size);
        let mut row: Vec<Option<u64>> = Vec::new();
        std::mem::swap(&mut row, &mut self.connections[rail]);
        row.set(peer as usize, Some(next));
        std::mem::swap(&mut row, &mut self.connections[rail]);
        proof {
            assert(table(self.connections@) =~= before.connected(
                rail as int,
                peer as int,
                next,
            ).connections);
            assert(self@ =~= before.connected(rail as int, peer as int, next));
        }
    }

    /// Takes the first frame of a connection that a listener accepted; `None`
    /// is a closed connection. The answer goes back on the connection.
    pub fn accept(&mut self, join: Option<&Frame>, listener: usize, listeners: usize) -> (result:
        Result<(u32, usize, Frame), NetworkError>)
        requires
            old(self).intact(),
            match join {
                Some(join) => join@.valid(),
                None => true,
            },
        ensures
            final(self).intact(),
            match join {
                None => {
                    &&& result is Err
                    &&& result->Err_0@ == invalid("direct peer closed before JOIN"@)
                    &&& final(self)@ == old(self)@
                },
                Some(join) => match old(self)@.join_defect(join@, listener, listeners) {
                    Some(defect) => {
                        &&& result is Err
                        &&& result->Err_0@ == defect
                        &&& final(self)@ == old(self)@
                    },
                    None => {
                        let peer = join.header.source_rank;
                        let rail = join.header.tag as usize;
                        match framed(
                            setup_header(
                                old(self)@.unique_id,
                                Opcode::Ready,
                                old(self)@.rank,
                                peer,
                                old(self)@.world_size,
                                rail,
                            ),
                            Seq::empty(),
                        ) {
                            Err(failure) => {
                                &&& result is Err
                                &&& result->Err_0@ == failure
                                &&& final(self)@ == old(self)@
                            },
                            Ok(ready) => {
                                &&& result is Ok
                                &&& (result->Ok_0).0 == peer
                                &&& (result->Ok_0).1 == rail
                                &&& (result->Ok_0).2@ == ready
                                &&& final(self)@ == old(self)@.connected(
                                    rail as int,
                                    peer as int,
                                    0,
                                )
                            },
                        }
                    },
                },
            },
    {
        let ghost before = self@;
        let join = match join {
            Some(join) => join,
            None => {
                return Err(NetworkError::invalid("direct peer closed before JOIN"));
            },
        };
        let (peer, rail) = match validate_peer_join(
            join,
            self.unique_id,
            self.rank,
            self.world_size,
            self.rails,
        ) {
            Ok(named) => named,
            Err(error) => {
                return Err(error);
            },
        };
        if listeners == self.rails && rail != listener {
            let mut text = String::from_str("direct peer rail ");
            push_usize(&mut text, rail);
            text.append(" joined dedicated listener ");
            push_usize(&mut text, listener);
            return Err(NetworkError::InvalidConfiguration(text));
        }
        if peer <= self.rank {
            let mut text = String::from_str("rank ");
            push_decimal(&mut text, self.rank as u64);
            text.append(" accepted direct peer ");
            push_decimal(&mut text, peer as u64);
            text.append("; only higher ranks connect");
            return Err(NetworkError::InvalidConfiguration(text));
        }
        assert(join.header.defect() is None);
        assert(before.connections[rail as int].len() == self.world_size);
        if self.connections[rail][peer as usize].is_some() {
            let mut text = String::from_str("direct peer rank ");
            push_decimal(&mut text, peer as u64);
            text.append(" rail ");
            push_usize(&mut text, rail);
            text.append(" joined twice");
            return Err(NetworkError::InvalidConfiguration(text));
        }
        let ready = match peer_ready_frame(
            self.unique_id,
            self.rank,
            peer,
            self.world_size,
            rail,
        ) {
            Ok(ready) => ready,
            Err(error) => {
                return Err(error);
            },
        };
        self.set_connection(rail, peer, 0);
        Ok((peer, rail, ready))
    }

    /// What a mesh that was not complete in time fails with.
    pub fn setup_timeout_error(&self, accepted: u128) -> (error: NetworkError)
        requires
            self@.valid(),
        ensures
            error@ == NetworkFailure::Timeout(
                "direct peer mesh setup; accepted "@ + decimal(accepted as nat) + " of "@ + decimal(
                    ((self@.world_size - self@.rank - 1) * self@.rails) as nat,
                ) + " connections"@,
            ),
    {
        let mut text = String::from_str("direct peer mesh setup; accepted ");
        crate::text::push_wide(&mut text, accepted);
        text.append(" of ");
        crate::text::push_wide(&mut text, self.expected_incoming());
        text.append(" connections");
        NetworkError::Timeout(text)
    }

    /// Sends to a peer: the frame to write and the acknowledgement to wait
    /// for, or nothing where the rank sends to itself.
    pub fn send_on_rail(
        &mut self,
        rail: usize,
        destination: u32,
        tag: u64,
        element_type: ElementType,
        element_count: u64,
        payload: Vec<u8>,
    ) -> (result: Result<Option<(AckKey, Frame)>, NetworkError>)
        requires
            old(self).intact(),
        ensures
            final(self).intact(),
            ({
                let (after, outcome) = old(self)@.sent(
                    rail,
                    destination,
                    tag,
                    element_type,
                    element_count,
                    payload@,
                );
                &&& final(self)@ == after
                &&& match outcome {
                    Err(failure) => result is Err && result->Err_0@ == failure,
                    Ok(None) => result is Ok && result->Ok_0 is None,
                    Ok(Some((key, frame))) => {
                        &&& result is Ok
                        &&& result->Ok_0 is Some
                        &&& (result->Ok_0->0).0 == key
                        &&& (result->Ok_0->0).1@ == frame
                    },
                }
            }),
    {
        let ghost before = self@;
        if rail >= self.rails {
            return Err(rail_error(rail, self.rails));
        }
        if destination >= self.world_size {
            return Err(
                NetworkError::from(
                    ProtocolError::RankOutOfRange {
                        name: "peer",
                        rank: destination,
                        world_size: self.world_size,
                    },
                ),
            );
        }
        match &self.failure {
            Some(message) => {
                return Err(NetworkError::RemoteAbort(message.clone()));
            },
            None => {},
        }
        let mut header = FrameHeader::collective(
            self.unique_id,
            Opcode::Send,
            element_type,
            self.rank,
            ANY_RANK,
            self.world_size,
            0,
            element_count,
        );
        header.destination_rank = destination;
        header.tag = tag;
        if destination == self.rank {
            match make_frame(header, payload) {
                Ok(frame) => {
                    let ghost waiting = self.inbox@;
                    self.inbox.push(QueuedFrame { rail, frame });
                    proof {
                        assert(queue_of(self.inbox@) =~= queue_of(waiting).push((rail, frame@)));
                        assert(self@ =~= (MeshModel {
                            inbox: before.inbox.push((rail, frame@)),
                            ..before
                        }));
                    }
                    return Ok(None);
                },
                Err(error) => {
                    return Err(error);
                },
            }
        }
        assert(before.connections[rail as int].len() == self.world_size);
        let sequence: u64 = match self.connections[rail][destination as usize] {
            Some(sequence) => sequence,
            None => {
                let mut text = String::from_str("direct peer connection to rank ");
                push_decimal(&mut text, destination as u64);
                text.append(" rail ");
                push_usize(&mut text, rail);
                text.append(" is absent");
                return Err(NetworkError::InvalidConfiguration(text));
            },
        };
        let next: u64 = match sequence.checked_add(1) {
            Some(next) => next,
            None => {
                return Err(NetworkError::from(ProtocolError::SequenceOverflow));
            },
        };
        self.set_connection(rail, destination, next);
        let ghost counted = self@;
        let ghost listed = self.pending@;
        header.sequence = sequence;
        let frame = match make_frame(header, payload) {
            Ok(frame) => frame,
            Err(error) => {
                return Err(error);
            },
        };
        let key = AckKey { peer: destination, rail, sequence };
        proof {
            assert(!listed.contains(key)) by {
                if listed.contains(key) {
                    assert(before.pending.contains(key));
                }
            }
        }
        self.pending.push(key);
        proof {
            lemma_listed(listed, key);
            assert(self@ =~= (MeshModel { pending: counted.pending.insert(key), ..counted }));
        }
        Ok(Some((key, frame)))
    }

    /// Receives what fits from what has arrived; nothing while nothing fits.
    pub fn receive_on_rail(
        &mut self,
        rail: usize,
        source: Option<u32>,
        tag: u64,
        element_type: ElementType,
        element_count: u64,
    ) -> (result: Result<Option<Frame>, NetworkError>)
        requires
            old(self).intact(),
        ensures
            final(self).intact(),
            ({
                let (after, outcome) = old(self)@.received(
                    rail,
                    source,
                    tag,
                    element_type,
                    element_count,
                );
                &&& final(self)@ == after
                &&& match outcome {
                    Err(failure) => result is Err && result->Err_0@ == failure,
                    Ok(None) => result is Ok && result->Ok_0 is None,
                    Ok(Some(frame)) => {
                        &&& result is Ok
                        &&& result->Ok_0 is Some
                        &&& (result->Ok_0->0)@ == frame
                    },
                }
            }),
    {
        let ghost before = self@;
        if rail >= self.rails {
            return Err(rail_error(rail, self.rails));
        }
        match source {
            Some(source) => {
                if source >= self.world_size {
                    return Err(
                        NetworkError::from(
                            ProtocolError::RankOutOfRange {
                                name: "peer",
                                rank: source,
                                world_size: self.world_size,
                            },
                        ),
                    );
                }
            },
            None => {},
        }
        match &self.failure {
            Some(message) => {
                return Err(NetworkError::RemoteAbort(message.clone()));
            },
            None => {},
        }
        let ghost model = self@.inbox;
        let mut place: usize = 0;
        while place < self.inbox.len() && !is_wanted(&self.inbox[place], rail, source, tag)
            invariant
                place <= self.inbox@.len(),
                model == queue_of(self.inbox@),
                first_wanted(model, rail, source, tag, 0) == first_wanted(
                    model,
                    rail,
                    source,
                    tag,
                    place as int,
                ),
            decreases self.inbox@.len() - place,
        {
            assert(!wanted(model[place as int], rail, source, tag));
            place = place + 1;
        }
        if place == self.inbox.len() {
            return Ok(None);
        }
        assert(wanted(model[place as int], rail, source, tag));
        let ghost waiting = self.inbox@;
        let queued = self.inbox.remove(place);
        proof {
            assert(queue_of(self.inbox@) =~= queue_of(waiting).remove(place as int));
            assert(self@ =~= (MeshModel { inbox: before.inbox.remove(place as int), ..before }));
        }
        let found = queued.frame;
        if found.header.element_type != element_type || found.header.element_count
            != element_count {
            let mut text = String::from_str("direct peer tag ");
            push_decimal(&mut text, tag);
            text.append(" contract mismatch: send ");
            text.append(found.header.element_type.name());
            text.append("/");
            push_decimal(&mut text, found.header.element_count);
            text.append(" receive ");
            text.append(element_type.name());
            text.append("/");
            push_decimal(&mut text, element_count);
            return Err(NetworkError::InvalidConfiguration(text));
        }
        Ok(Some(found))
    }

    /// Breaks the mesh: the first message stays, and every send that waited
    /// for an acknowledgement is handed back.
    pub fn fail(&mut self, message: &str) -> (waiting: Vec<AckKey>)
        requires
            old(self).intact(),
        ensures
            final(self).intact(),
            final(self)@ == old(self)@.failed(message@),
            waiting@.to_set() == old(self)@.pending,
            waiting@.no_duplicates(),
    {
        let ghost before = self@;
        if self.failure.is_none() {
            self.failure = Some(String::from_str(message));
        }
        let mut waiting: Vec<AckKey> = Vec::new();
        std::mem::swap(&mut waiting, &mut self.pending);
        proof {
            assert(self.pending@.to_set() =~= Set::<AckKey>::empty());
            assert(self@ =~= before.failed(message@));
        }
        waiting
    }

    fn broken(&mut self, message: String) -> (step: PeerStep)
        requires
            old(self).intact(),
        ensures
            final(self).intact(),
            final(self)@ == old(self)@.failed(message@),
            step is Fail,
            step->message@ == message@,
            step->waiting@.to_set() == old(self)@.pending,
    {
        let waiting = self.fail(message.as_str());
        PeerStep::Fail { message, waiting }
    }

    /// Stops waiting for an acknowledgement: whether it was still waited for.
    pub fn withdraw(&mut self, key: AckKey) -> (waited: bool)
        requires
            old(self).intact(),
        ensures
            final(self).intact(),
            waited == old(self)@.pending.contains(key),
            final(self)@ == (MeshModel { pending: old(self)@.pending.remove(key), ..old(self)@ }),
    {
        let ghost before = self@;
        let ghost listed = self.pending@;
        let mut index: usize = 0;
        while index < self.pending.len()
            invariant
                index <= self.pending@.len(),
                self.pending@ == listed,
                self@ == before,
                before == old(self)@,
                self.intact(),
                before.pending == listed.to_set(),
                forall|i: int| 0 <= i < index ==> #[trigger] listed[i] != key,
            decreases self.pending@.len() - index,
        {
            if self.pending[index] == key {
                self.pending.remove(index);
                proof {
                    assert(listed[index as int] == key);
                    assert(listed.contains(key));
                    lemma_unlisted(listed, index as int);
                    assert(self@ =~= (MeshModel { pending: before.pending.remove(key), ..before }));
                }
                return true;
            }
            index = index + 1;
        }
        proof {
            assert(!listed.contains(key));
            assert(before.pending.remove(key) =~= before.pending);
            assert(self@ =~= (MeshModel { pending: before.pending.remove(key), ..before }));
        }
        false
    }

    /// Takes a frame that came on a connection.
    pub fn on_frame(&mut self, peer: u32, rail: usize, frame: Frame) -> (step: PeerStep)
        requires
            old(self).intact(),
        ensures
            final(self).intact(),
            ({
                let before = old(self)@;
                let after = final(self)@;
                let key = AckKey { peer, rail, sequence: frame.header.sequence };
                match before.arrival_failure(peer, frame@) {
                    Some(message) => {
                        &&& step is Fail
                        &&& step->message@ == message
                        &&& step->waiting@.to_set() == before.pending
                        &&& after == before.failed(message)
                    },
                    None => if frame.header.element_type != ElementType::Untyped {
                        &&& step is Acknowledge
                        &&& Ok::<FrameModel, NetworkFailure>(step->frame@)
                            == before.acknowledgement(peer, frame.header)
                        &&& after == (MeshModel {
                            inbox: before.inbox.push((rail, frame@)),
                            ..before
                        })
                    } else if before.pending.contains(key) {
                        &&& step == (PeerStep::Release { key })
                        &&& after == (MeshModel {
                            pending: before.pending.remove(key),
                            ..before
                        })
                    } else {
                        step is Ignore && after == before
                    },
                }
            }),
    {
        let ghost before = self@;
        if !frame.header.unique_id.same(&self.unique_id) || frame.header.world_size
            != self.world_size || frame.header.source_rank != peer
            || frame.header.destination_rank != self.rank || frame.header.root_rank != ANY_RANK {
            return self.broken(String::from_str("invalid direct peer frame envelope"));
        }
        match frame.header.opcode {
            Opcode::Send => {
                if frame.header.element_type == ElementType::Untyped {
                    if frame.payload.len() > 0 || frame.header.element_count != 0 {
                        return self.broken(
                            String::from_str("invalid direct peer send acknowledgement"),
                        );
                    }
                    let key = AckKey { peer, rail, sequence: frame.header.sequence };
                    if self.withdraw(key) {
                        PeerStep::Release { key }
                    } else {
                        assert(before.pending.remove(key) =~= before.pending);
                        assert(self@ =~= before);
                        PeerStep::Ignore
                    }
                } else {
                    let mut header = FrameHeader::collective(
                        self.unique_id,
                        Opcode::Send,
                        ElementType::Untyped,
                        self.rank,
                        ANY_RANK,
                        self.world_size,
                        frame.header.sequence,
                        0,
                    );
                    header.destination_rank = peer;
                    header.tag = frame.header.tag;
                    match make_frame(header, empty_payload()) {
                        Ok(acknowledgement) => {
                            let ghost waiting = self.inbox@;
                            self.inbox.push(QueuedFrame { rail, frame });
                            proof {
                                assert(queue_of(self.inbox@) =~= queue_of(waiting).push(
                                    (rail, frame@),
                                ));
                                assert(self@ =~= (MeshModel {
                                    inbox: before.inbox.push((rail, frame@)),
                                    ..before
                                }));
                            }
                            PeerStep::Acknowledge { frame: acknowledgement }
                        },
                        Err(error) => {
                            let message = error.to_string();
                            self.broken(message)
                        },
                    }
                }
            },
            Opcode::Abort => {
                let message = lossy_text(frame.payload.as_slice());
                self.broken(message)
            },
            Opcode::Leave => {
                let mut text = String::from_str("direct peer rank ");
                push_decimal(&mut text, peer as u64);
                text.append(" left");
                self.broken(text)
            },
            _ => {
                let mut text = String::from_str("unexpected ");
                text.append(frame.header.opcode.name());
                text.append(" on direct peer connection");
                self.broken(text)
            },
        }
    }

    /// A connection ended; `error` is what reading from it reported.
    pub fn on_closed(&mut self, peer: u32, rail: usize, error: Option<&str>) -> (step: PeerStep)
        requires
            old(self).intact(),
        ensures
            final(self).intact(),
            ({
                let head = "direct peer rank "@ + decimal(peer as nat) + " rail "@ + decimal(
                    rail as nat,
                );
                let message = match error {
                    Some(error) => head + " read failed: "@ + error@,
                    None => head + " closed"@,
                };
                &&& step is Fail
                &&& step->message@ == message
                &&& step->waiting@.to_set() == old(self)@.pending
                &&& final(self)@ == old(self)@.failed(message)
            }),
    {
        let mut text = String::from_str("direct peer rank ");
        push_decimal(&mut text, peer as u64);
        text.append(" rail ");
        push_usize(&mut text, rail);
        match error {
            Some(error) => {
                text.append(" read failed: ");
                text.append(error);
            },
            None => {
                text.append(" closed");
            },
        }
        self.broken(text)
    }

    /// Writing a send failed.
    pub fn on_send_failure(&mut self, destination: u32, rail: usize, error: &str) -> (waiting: Vec<
        AckKey,
    >)
        requires
            old(self).intact(),
        ensures
            final(self).intact(),
            waiting@.to_set() == old(self)@.pending,
            final(self)@ == old(self)@.failed(
                "direct peer send to rank "@ + decimal(destination as nat) + " rail "@ + decimal(
                    rail as nat,
                ) + " failed: "@ + error@,
            ),
    {
        let mut text = String::from_str("direct peer send to rank ");
        push_decimal(&mut text, destination as u64);
        text.append(" rail ");
        push_usize(&mut text, rail);
        text.append(" failed: ");
        text.append(error);
        self.fail(text.as_str())
    }

    /// Writing an acknowledgement failed.
    pub fn on_acknowledgement_failure(&mut self, error: &str) -> (waiting: Vec<AckKey>)
        requires
            old(self).intact(),
        ensures
            final(self).intact(),
            waiting@.to_set() == old(self)@.pending,
            final(self)@ == old(self)@.failed("direct peer acknowledgement failed: "@ + error@),
    {
        let mut text = String::from_str("direct peer acknowledgement failed: ");
        text.append(error);
        self.fail(text.as_str())
    }

    /// A send was not acknowledged in time: it is withdrawn, the mesh breaks,
    /// and the send fails.
    pub fn on_send_timeout(&mut self, key: AckKey, tag: u64) -> (result: (NetworkError, Vec<AckKey>))
        requires
            old(self).intact(),
        ensures
            final(self).intact(),
            ({
                let message = "direct peer send to rank "@ + decimal(key.peer as nat) + " rail "@
                    + decimal(key.rail as nat) + " with tag "@ + decimal(tag as nat)
                    + " timed out"@;
                &&& result.0@ == NetworkFailure::Timeout(message)
                &&& result.1@.to_set() == old(self)@.pending.remove(key)
                &&& final(self)@ == old(self)@.failed(message)
            }),
    {
        let ghost before = self@;
        self.withdraw(key);
        let mut text = String::from_str("direct peer send to rank ");
        push_decimal(&mut text, key.peer as u64);
        text.append(" rail ");
        push_usize(&mut text, key.rail);
        text.append(" with tag ");
        push_decimal(&mut text, tag);
        text.append(" timed out");
        let waiting = self.fail(text.as_str());
        assert(self@ =~= before.failed(text@));
        (NetworkError::Timeout(text), waiting)
    }

    /// Nothing that a receive asks for arrived in time.
    pub fn on_receive_timeout(&mut self, rail: usize, tag: u64) -> (result: (
        NetworkError,
        Vec<AckKey>,
    ))
        requires
            old(self).intact(),
        ensures
            final(self).intact(),
            ({
                let message = "direct peer receive on rail "@ + decimal(rail as nat)
                    + " with tag "@ + decimal(tag as nat) + " timed out"@;
                &&& result.0@ == NetworkFailure::Timeout(message)
                &&& result.1@.to_set() == old(self)@.pending
                &&& final(self)@ == old(self)@.failed(message)
            }),
    {
        let mut text = String::from_str("direct peer receive on rail ");
        push_usize(&mut text, rail);
        text.append(" with tag ");
        push_decimal(&mut text, tag);
        text.append(" timed out");
        let waiting = self.fail(text.as_str());
        (NetworkError::Timeout(text), waiting)
    }

    /// The message that broke the mesh, where something did.
    pub fn failure(&self) -> (failure: Option<&str>)
        ensures
            match failure {
                Some(message) => self@.failure == Some(message@),
                None => self@.failure is None,
            },
    {
        match &self.failure {
            Some(message) => Some(message.as_str()),
            None => None,
        }
    }

    /// The frame that tells a peer of a failure.
    pub fn abort_frame(&self, peer: u32, message: &str) -> (result: Result<Frame, NetworkError>)
        ensures
            seen(result) == framed(
                (FrameHeader {
                    destination_rank: peer,
                    ..blank_header(
                        self@.unique_id,
                        Opcode::Abort,
                        ElementType::U8,
                        self@.rank,
                        self@.world_size,
                        0,
                        encode_utf8(message@).len() as u64,
                    )
                }),
                encode_utf8(message@),
            ),
    {
        let payload = message_bytes(message);
        let mut header = FrameHeader::collective(
            self.unique_id,
            Opcode::Abort,
            ElementType::U8,
            self.rank,
            ANY_RANK,
            self.world_size,
            0,
            payload.len() as u64,
        );
        header.destination_rank = peer;
        make_frame(header, payload)
    }

    /// The frame with which this rank leaves a peer.
    pub fn leave_frame(&self, peer: u32) -> (result: Result<Frame, NetworkError>)
        ensures
            seen(result) == framed(
                (FrameHeader {
                    destination_rank: peer,
                    ..blank_header(
                        self@.unique_id,
                        Opcode::Leave,
                        ElementType::Untyped,
                        self@.rank,
                        self@.world_size,
                        0,
                        0,
                    )
                }),
                Seq::empty(),
            ),
    {
        let mut header = FrameHeader::collective(
            self.unique_id,
            Opcode::Leave,
            ElementType::Untyped,
            self.rank,
            ANY_RANK,
            self.world_size,
            0,
            0,
        );
        header.destination_rank = peer;
        make_frame(header, empty_payload())
    }
}

proof fn lemma_listed(listed: Seq<AckKey>, key: AckKey)
    requires
        listed.no_duplicates(),
        !listed.contains(key),
    ensures
        listed.push(key).to_set() == listed.to_set().insert(key),
        listed.push(key).no_duplicates(),
{
    let more = listed.push(key);
    assert forall|k: AckKey| more.to_set().contains(k) <==> listed.to_set().insert(key).contains(
        k,
    ) by {
        if listed.contains(k) {
            let i = choose|i: int| 0 <= i < listed.len() && listed[i] == k;
            assert(more[i] == k);
        }
        assert(more[listed.len() as int] == key);
    }
    assert(more.to_set() =~= listed.to_set().insert(key));
}

proof fn lemma_unlisted(listed: Seq<AckKey>, place: int)
    requires
        listed.no_duplicates(),
        0 <= place < listed.len(),
    ensures
        listed.remove(place).to_set() == listed.to_set().remove(listed[place]),
        listed.remove(place).no_duplicates(),
{
    let left = listed.remove(place);
    let key = listed[place];
    assert forall|k: AckKey| left.to_set().contains(k) <==> listed.to_set().remove(key).contains(
        k,
    ) by {
        if left.contains(k) {
            let i = choose|i: int| 0 <= i < left.len() && left[i] == k;
            let j = if i < place {
                i
            } else {
                i + 1
            };
            assert(listed[j] == k);
        }
        if listed.contains(k) && k != key {
            let j = choose|j: int| 0 <= j < listed.len() && listed[j] == k;
            assert(left[if j < place {
                j
            } else {
                j - 1
            }] == k);
        }
    }
    assert(left.to_set() =~= listed.to_set().remove(key));
}

/// A receive takes the earliest frame that fits, and leaves the others in
/// their order.
pub proof fn law_receive_takes_the_earliest(
    mesh: MeshModel,
    rail: usize,
    source: Option<u32>,
    tag: u64,
    place: int,
)
    requires
        first_wanted(mesh.inbox, rail, source, tag, 0) == Some(place),
    ensures
        0 <= place < mesh.inbox.len(),
        wanted(mesh.inbox[place], rail, source, tag),
        forall|i: int| 0 <= i < place ==> !wanted(#[trigger] mesh.inbox[i], rail, source, tag),
{
    lemma_first_wanted(mesh.inbox, rail, source, tag, 0);
}

proof fn lemma_first_wanted(
    inbox: Seq<(usize, FrameModel)>,
    rail: usize,
    source: Option<u32>,
    tag: u64,
    from: int,
)
    requires
        0 <= from,
    ensures
        first_wanted(inbox, rail, source, tag, from) matches Some(place) ==> {
            &&& from <= place < inbox.len()
            &&& wanted(inbox[place], rail, source, tag)
            &&& forall|i: int| from <= i < place ==> !wanted(#[trigger] inbox[i], rail, source, tag)
        },
    decreases inbox.len() - from,
{
    if from < inbox.len() && !wanted(inbox[from], rail, source, tag) {
        lemma_first_wanted(inbox, rail, source, tag, from + 1);
    }
}

} // verus!

//! The coordinator's side of point-to-point traffic: sends and receives are
//! matched in the order in which they came.

use crate::rank::network::control::{
    blank_header, checked, empty_payload, framed, invalid, make_frame, seen,
};
use crate::rank::network::routing::frames_of;
use crate::rank::network::{NetworkError, NetworkFailure};
use crate::rank::protocol::frame::FrameModel;
use crate::rank::protocol::{ElementType, Frame, FrameHeader, Opcode, UniqueId, ANY_RANK};
use crate::rank::topology::paths::repeat;
use crate::text::{decimal, lossy, lossy_text, push_decimal, push_usize, push_wide};
use vstd::prelude::*;
use vstd::slice::*;
use vstd::string::*;

verus! {

/// Why a point-to-point request is refused.
pub open spec fn p2p_defect(
    frame: FrameModel,
    unique_id: UniqueId,
    world_size: int,
    connection_rank: int,
) -> Option<NetworkFailure> {
    let header = frame.header;
    let blank = header.destination_rank == ANY_RANK && header.element_type == ElementType::Untyped
        && header.element_count == 0 && frame.payload.len() == 0;
    if header.unique_id != unique_id {
        Some(NetworkFailure::WrongSession)
    } else if header.world_size != world_size || header.source_rank != connection_rank {
        Some(
            invalid(
                "point-to-point connection rank "@ + decimal(connection_rank as nat)
                    + " submitted source "@ + decimal(header.source_rank as nat) + " and world "@
                    + decimal(header.world_size as nat),
            ),
        )
    } else if header.root_rank != ANY_RANK {
        Some(invalid("point-to-point request cannot declare a collective root"@))
    } else {
        match header.opcode {
            Opcode::Send => if header.destination_rank == ANY_RANK {
                Some(invalid("point-to-point send requires a destination rank"@))
            } else {
                None
            },
            Opcode::Receive => if frame.payload.len() > 0 {
                Some(invalid("point-to-point receive request cannot carry data"@))
            } else {
                None
            },
            Opcode::Abort => if header.destination_rank != ANY_RANK || header.element_type
                != ElementType::U8 || frame.payload.len() == 0 {
                Some(invalid("point-to-point abort requires a non-empty U8 message"@))
            } else {
                None
            },
            Opcode::Heartbeat => if blank {
                None
            } else {
                Some(invalid("point-to-point heartbeat must be an empty control frame"@))
            },
            Opcode::Leave => if blank {
                None
            } else {
                Some(invalid("point-to-point LEAVE must be an empty control frame"@))
            },
            _ => Some(
                invalid(
                    "opcode "@ + header.opcode.spec_name()
                        + " is invalid on the point-to-point channel"@,
                ),
            ),
        }
    }
}

pub fn validate_p2p_request(
    frame: &Frame,
    unique_id: UniqueId,
    world_size: usize,
    connection_rank: usize,
) -> (result: Result<(), NetworkError>)
    ensures
        checked(
            result,
            p2p_defect(frame@, unique_id, world_size as int, connection_rank as int),
        ),
{
    if !frame.header.unique_id.same(&unique_id) {
        return Err(NetworkError::WrongSession);
    }
    if frame.header.world_size as usize != world_size || frame.header.source_rank as usize
        != connection_rank {
        let mut text = String::from_str("point-to-point connection rank ");
        push_usize(&mut text, connection_rank);
        text.append(" submitted source ");
        push_decimal(&mut text, frame.header.source_rank as u64);
        text.append(" and world ");
        push_decimal(&mut text, frame.header.world_size as u64);
        return Err(NetworkError::InvalidConfiguration(text));
    }
    if frame.header.root_rank != ANY_RANK {
        return Err(
            NetworkError::invalid("point-to-point request cannot declare a collective root"),
        );
    }
    let blank: bool = frame.header.destination_rank == ANY_RANK && frame.header.element_type
        == ElementType::Untyped && frame.header.element_count == 0 && frame.payload.len() == 0;
    match frame.header.opcode {
        Opcode::Send => {
            if frame.header.destination_rank == ANY_RANK {
                return Err(
                    NetworkError::invalid("point-to-point send requires a destination rank"),
                );
            }
        },
        Opcode::Receive => {
            if frame.payload.len() > 0 {
                return Err(
                    NetworkError::invalid("point-to-point receive request cannot carry data"),
                );
            }
        },
        Opcode::Abort => {
            if frame.header.destination_rank != ANY_RANK || frame.header.element_type
                != ElementType::U8 || frame.payload.len() == 0 {
                return Err(
                    NetworkError::invalid("point-to-point abort requires a non-empty U8 message"),
                );
            }
        },
        Opcode::Heartbeat => {
            if !blank {
                return Err(
                    NetworkError::invalid(
                        "point-to-point heartbeat must be an empty control frame",
                    ),
                );
            }
        },
        Opcode::Leave => {
            if !blank {
                return Err(
                    NetworkError::invalid("point-to-point LEAVE must be an empty control frame"),
                );
            }
        },
        _ => {
            let mut text = String::from_str("opcode ");
            text.append(frame.header.opcode.name());
            text.append(" is invalid on the point-to-point channel");
            return Err(NetworkError::InvalidConfiguration(text));
        },
    }
    Ok(())
}

/// Whether a receive asks for a send.
pub open spec fn pairs(send: FrameHeader, receive: FrameHeader) -> bool {
    &&& send.destination_rank == receive.source_rank
    &&& receive.destination_rank == ANY_RANK || receive.destination_rank == send.source_rank
    &&& send.tag == receive.tag
}

pub fn p2p_matches(send: &Frame, receive: &Frame) -> (matched: bool)
    ensures
        matched == pairs(send.header, receive.header),
{
    send.header.destination_rank == receive.header.source_rank && (
    receive.header.destination_rank == ANY_RANK || receive.header.destination_rank
        == send.header.source_rank) && send.header.tag == receive.header.tag
}

/// The answer to a send, to its sender.
pub open spec fn acknowledgement_of(send: FrameHeader, unique_id: UniqueId, world_size: u32) -> Result<
    FrameModel,
    NetworkFailure,
> {
    framed(
        FrameHeader {
            destination_rank: send.source_rank,
            tag: send.tag,
            ..blank_header(
                unique_id,
                Opcode::Send,
                ElementType::Untyped,
                send.source_rank,
                world_size,
                send.sequence,
                0,
            )
        },
        Seq::empty(),
    )
}

pub fn p2p_send_acknowledgement(send: &Frame, unique_id: UniqueId, world_size: u32) -> (result:
    Result<Frame, NetworkError>)
    ensures
        seen(result) == acknowledgement_of(send.header, unique_id, world_size),
{
    let mut header = FrameHeader::collective(
        unique_id,
        Opcode::Send,
        ElementType::Untyped,
        send.header.source_rank,
        ANY_RANK,
        world_size,
        send.header.sequence,
        0,
    );
    header.destination_rank = send.header.source_rank;
    header.tag = send.header.tag;
    make_frame(header, empty_payload())
}

/// The answer to a heartbeat.
pub open spec fn heartbeat_of(heartbeat: FrameHeader, unique_id: UniqueId, world_size: u32) -> Result<
    FrameModel,
    NetworkFailure,
> {
    framed(
        FrameHeader {
            destination_rank: heartbeat.source_rank,
            ..blank_header(
                unique_id,
                Opcode::Heartbeat,
                ElementType::Untyped,
                heartbeat.source_rank,
                world_size,
                heartbeat.sequence,
                0,
            )
        },
        Seq::empty(),
    )
}

pub fn p2p_heartbeat_response(heartbeat: &Frame, unique_id: UniqueId, world_size: u32) -> (result:
    Result<Frame, NetworkError>)
    ensures
        seen(result) == heartbeat_of(heartbeat.header, unique_id, world_size),
{
    let mut header = FrameHeader::collective(
        unique_id,
        Opcode::Heartbeat,
        ElementType::Untyped,
        heartbeat.header.source_rank,
        ANY_RANK,
        world_size,
        heartbeat.header.sequence,
        0,
    );
    header.destination_rank = heartbeat.header.source_rank;
    make_frame(header, empty_payload())
}

/// What a receive is answered with by a send, or why the two do not fit.
pub open spec fn delivery_of(
    send: FrameModel,
    receive: FrameHeader,
    unique_id: UniqueId,
    world_size: u32,
) -> Result<FrameModel, NetworkFailure> {
    if send.header.element_type != receive.element_type || send.header.element_count
        != receive.element_count {
        Err(
            invalid(
                "point-to-point tag "@ + decimal(send.header.tag as nat)
                    + " contract mismatch: send "@ + send.header.element_type.spec_name() + "/"@
                    + decimal(send.header.element_count as nat) + " receive "@
                    + receive.element_type.spec_name() + "/"@ + decimal(
                    receive.element_count as nat,
                ),
            ),
        )
    } else {
        framed(
            FrameHeader {
                destination_rank: receive.source_rank,
                tag: send.header.tag,
                ..blank_header(
                    unique_id,
                    Opcode::Receive,
                    send.header.element_type,
                    send.header.source_rank,
                    world_size,
                    receive.sequence,
                    send.header.element_count,
                )
            },
            send.payload,
        )
    }
}

/// Answers a receive with a send.
pub fn deliver_p2p_receive(
    send: &Frame,
    receive: &Frame,
    unique_id: UniqueId,
    world_size: u32,
) -> (result: Result<Frame, NetworkError>)
    ensures
        seen(result) == delivery_of(send@, receive.header, unique_id, world_size),
{
    if send.header.element_type != receive.header.element_type || send.header.element_count
        != receive.header.element_count {
        let mut text = String::from_str("point-to-point tag ");
        push_decimal(&mut text, send.header.tag);
        text.append(" contract mismatch: send ");
        text.append(send.header.element_type.name());
        text.append("/");
        push_decimal(&mut text, send.header.element_count);
        text.append(" receive ");
        text.append(receive.header.element_type.name());
        text.append("/");
        push_decimal(&mut text, receive.header.element_count);
        return Err(NetworkError::InvalidConfiguration(text));
    }
    let mut header = FrameHeader::collective(
        unique_id,
        Opcode::Receive,
        send.header.element_type,
        send.header.source_rank,
        ANY_RANK,
        world_size,
        receive.header.sequence,
        send.header.element_count,
    );
    header.destination_rank = receive.header.source_rank;
    header.tag = send.header.tag;
    make_frame(header, slice_to_vec(send.payload.as_slice()))
}

/// A frame for one rank.
#[derive(Debug)]
pub struct Delivery {
    pub rank: usize,
    pub frame: Frame,
}

/// What an event leads to: frames to write, in order, and then the failure
/// that ends the session.
#[derive(Debug)]
pub struct Routing {
    pub deliveries: Vec<Delivery>,
    pub failure: Option<NetworkError>,
}

/// The same as plain data.
#[verifier::ext_equal]
pub struct RoutingModel {
    pub deliveries: Seq<(int, FrameModel)>,
    pub failure: Option<NetworkFailure>,
}

impl View for Routing {
    type V = RoutingModel;

    open spec fn view(&self) -> RoutingModel {
        RoutingModel {
            deliveries: Seq::new(
                self.deliveries@.len(),
                |i: int| (self.deliveries@[i].rank as int, self.deliveries@[i].frame@),
            ),
            failure: match self.failure {
                Some(error) => Some(error@),
                None => None,
            },
        }
    }
}

impl RoutingModel {
    pub open spec fn quiet() -> RoutingModel {
        RoutingModel { deliveries: Seq::empty(), failure: None }
    }

    pub open spec fn failed(failure: NetworkFailure) -> RoutingModel {
        RoutingModel { deliveries: Seq::empty(), failure: Some(failure) }
    }

    /// One more frame, or the failure that stops it.
    pub open spec fn then_send(
        self,
        rank: int,
        frame: Result<FrameModel, NetworkFailure>,
    ) -> RoutingModel {
        match frame {
            Ok(frame) => RoutingModel { deliveries: self.deliveries.push((rank, frame)), ..self },
            Err(failure) => RoutingModel { failure: Some(failure), ..self },
        }
    }
}

impl Routing {
    fn quiet() -> (routing: Self)
        ensures
            routing@ == RoutingModel::quiet(),
    {
        let routing = Self { deliveries: Vec::new(), failure: None };
        assert(routing@ =~= RoutingModel::quiet());
        routing
    }

    fn failed(error: NetworkError) -> (routing: Self)
        ensures
            routing@ == RoutingModel::failed(error@),
    {
        let routing = Self { deliveries: Vec::new(), failure: Some(error) };
        assert(routing@ =~= RoutingModel::failed(error@));
        routing
    }

    fn then_send(self, rank: usize, frame: Result<Frame, NetworkError>) -> (routing: Self)
        ensures
            routing@ == self@.then_send(rank as int, seen(frame)),
    {
        let mut routing = self;
        let ghost before = routing@;
        match frame {
            Ok(frame) => {
                routing.deliveries.push(Delivery { rank, frame });
                assert(routing@ =~= before.then_send(rank as int, seen(Ok(frame))));
            },
            Err(error) => {
                routing.failure = Some(error);
                assert(routing@ =~= before.then_send(rank as int, seen(Err(error))));
            },
        }
        routing
    }
}

/// A router as plain data.
#[verifier::ext_equal]
pub struct RouterModel {
    pub unique_id: UniqueId,
    pub world_size: nat,
    pub leased: bool,
    pub sends: Seq<FrameModel>,
    pub receives: Seq<FrameModel>,
    pub graceful: Seq<bool>,
    pub closed: Seq<bool>,
}

/// The first receive at or behind `from` that asks for a send.
pub open spec fn receive_for(receives: Seq<FrameModel>, send: FrameHeader, from: int) -> Option<int>
    decreases receives.len() - from,
{
    if from < 0 || from >= receives.len() {
        None
    } else if pairs(send, receives[from].header) {
        Some(from)
    } else {
        receive_for(receives, send, from + 1)
    }
}

/// The first send at or behind `from` that a receive asks for.
pub open spec fn send_for(sends: Seq<FrameModel>, receive: FrameHeader, from: int) -> Option<int>
    decreases sends.len() - from,
{
    if from < 0 || from >= sends.len() {
        None
    } else if pairs(sends[from].header, receive) {
        Some(from)
    } else {
        send_for(sends, receive, from + 1)
    }
}

impl RouterModel {
    /// No waiting send has a waiting receive that asks for it, and every
    /// waiting receive comes from a rank of the world.
    pub open spec fn valid(self) -> bool {
        &&& 0 < self.world_size <= u32::MAX
        &&& self.graceful.len() == self.world_size
        &&& self.closed.len() == self.world_size
        &&& forall|i: int|
            0 <= i < self.receives.len() ==> (#[trigger] self.receives[i]).header.source_rank
                < self.world_size
        &&& forall|i: int, j: int|
            0 <= i < self.sends.len() && 0 <= j < self.receives.len() ==> !pairs(
                (#[trigger] self.sends[i]).header,
                (#[trigger] self.receives[j]).header,
            )
    }

    pub open spec fn new(unique_id: UniqueId, world_size: nat, leased: bool) -> RouterModel {
        RouterModel {
            unique_id,
            world_size,
            leased,
            sends: Seq::empty(),
            receives: Seq::empty(),
            graceful: Seq::new(world_size, |i: int| false),
            closed: Seq::new(world_size, |i: int| false),
        }
    }

    /// The router after an accepted send, and what it leads to.
    pub open spec fn sent(self, frame: FrameModel) -> (RouterModel, RoutingModel) {
        let size = self.world_size as u32;
        let acknowledgement = acknowledgement_of(frame.header, self.unique_id, size);
        let answered = RoutingModel::quiet().then_send(
            frame.header.source_rank as int,
            acknowledgement,
        );
        if acknowledgement is Err {
            (self, answered)
        } else {
            match receive_for(self.receives, frame.header, 0) {
                Some(place) => {
                    let receive = self.receives[place].header;
                    (
                        RouterModel { receives: self.receives.remove(place), ..self },
                        answered.then_send(
                            receive.source_rank as int,
                            delivery_of(frame, receive, self.unique_id, size),
                        ),
                    )
                },
                None => (RouterModel { sends: self.sends.push(frame), ..self }, answered),
            }
        }
    }

    /// The router after an accepted receive, and what it leads to.
    pub open spec fn asked(self, frame: FrameModel) -> (RouterModel, RoutingModel) {
        let size = self.world_size as u32;
        match send_for(self.sends, frame.header, 0) {
            Some(place) => (
                RouterModel { sends: self.sends.remove(place), ..self },
                RoutingModel::quiet().then_send(
                    frame.header.source_rank as int,
                    delivery_of(self.sends[place], frame.header, self.unique_id, size),
                ),
            ),
            None => (
                RouterModel { receives: self.receives.push(frame), ..self },
                RoutingModel::quiet(),
            ),
        }
    }

    /// The router after a request, and what it leads to.
    pub open spec fn requested(self, rank: int, frame: FrameModel) -> (RouterModel, RoutingModel) {
        match p2p_defect(frame, self.unique_id, self.world_size as int, rank) {
            Some(defect) => (self, RoutingModel::failed(defect)),
            None => match frame.header.opcode {
                Opcode::Send => self.sent(frame),
                Opcode::Receive => self.asked(frame),
                Opcode::Heartbeat => (
                    self,
                    RoutingModel::quiet().then_send(
                        rank,
                        heartbeat_of(frame.header, self.unique_id, self.world_size as u32),
                    ),
                ),
                Opcode::Abort => (
                    self,
                    RoutingModel::failed(
                        NetworkFailure::RemoteAbort(
                            "rank "@ + decimal(rank as nat) + " aborted: "@ + lossy(frame.payload),
                        ),
                    ),
                ),
                _ => (self, RoutingModel::quiet()),
            },
        }
    }

    /// The router after a frame on a rank's connection.
    pub open spec fn framed(self, rank: int, frame: FrameModel) -> (RouterModel, RoutingModel) {
        if self.graceful[rank] {
            (
                self,
                RoutingModel::failed(
                    invalid(
                        "point-to-point rank "@ + decimal(rank as nat) + " sent data after LEAVE"@,
                    ),
                ),
            )
        } else {
            let (after, routing) = self.requested(rank, frame);
            if routing.failure is None && frame.header.opcode == Opcode::Leave {
                (RouterModel { graceful: after.graceful.update(rank, true), ..after }, routing)
            } else {
                (after, routing)
            }
        }
    }

    /// The router after a rank's connection ended, with what messages say of
    /// the end.
    pub open spec fn ended(self, rank: int, message: Seq<char>) -> (RouterModel, RoutingModel) {
        let after = RouterModel { closed: self.closed.update(rank, true), ..self };
        if self.leased && !self.graceful[rank] {
            (
                after,
                RoutingModel::failed(
                    invalid("point-to-point rank "@ + decimal(rank as nat) + message),
                ),
            )
        } else {
            (after, RoutingModel::quiet())
        }
    }

    pub open spec fn all_closed(self) -> bool {
        forall|i: int| 0 <= i < self.closed.len() ==> #[trigger] self.closed[i]
    }

    /// Whether a rank must show signs of life.
    pub open spec fn is_overdue(self, rank: int, idle: Seq<u128>, timeout: u128) -> bool {
        !self.closed[rank] && !self.graceful[rank] && idle[rank] >= timeout
    }

    /// The first rank at or behind `from` whose lease has run out.
    pub open spec fn overdue_from(self, idle: Seq<u128>, timeout: u128, from: int) -> Option<
        NetworkFailure,
    >
        decreases self.world_size - from,
    {
        if from < 0 || from >= self.world_size {
            None
        } else if self.is_overdue(from, idle, timeout) {
            Some(
                NetworkFailure::Timeout(
                    "heartbeat lease for rank "@ + decimal(from as nat) + "; last contact "@
                        + decimal((idle[from] / 1_000_000) as nat) + " ms ago"@,
                ),
            )
        } else {
            self.overdue_from(idle, timeout, from + 1)
        }
    }
}

/// The coordinator's state of one point-to-point rail.
#[derive(Debug)]
pub struct P2pRouter {
    unique_id: UniqueId,
    world_size: u32,
    leased: bool,
    sends: Vec<Frame>,
    receives: Vec<Frame>,
    graceful: Vec<bool>,
    closed: Vec<bool>,
}

impl View for P2pRouter {
    type V = RouterModel;

    closed spec fn view(&self) -> RouterModel {
        RouterModel {
            unique_id: self.unique_id,
            world_size: self.world_size as nat,
            leased: self.leased,
            sends: frames_of(self.sends@),
            receives: frames_of(self.receives@),
            graceful: self.graceful@,
            closed: self.closed@,
        }
    }
}

proof fn lemma_receive_for(receives: Seq<FrameModel>, send: FrameHeader, from: int)
    requires
        0 <= from,
    ensures
        match receive_for(receives, send, from) {
            Some(place) => from <= place < receives.len() && pairs(send, receives[place].header),
            None => forall|j: int|
                from <= j < receives.len() ==> !pairs(send, (#[trigger] receives[j]).header),
        },
    decreases receives.len() - from,
{
    if from < receives.len() && !pairs(send, receives[from].header) {
        lemma_receive_for(receives, send, from + 1);
    }
}

proof fn lemma_send_for(sends: Seq<FrameModel>, receive: FrameHeader, from: int)
    requires
        0 <= from,
    ensures
        match send_for(sends, receive, from) {
            Some(place) => from <= place < sends.len() && pairs(sends[place].header, receive),
            None => forall|j: int|
                from <= j < sends.len() ==> !pairs((#[trigger] sends[j]).header, receive),
        },
    decreases sends.len() - from,
{
    if from < sends.len() && !pairs(sends[from].header, receive) {
        lemma_send_for(sends, receive, from + 1);
    }
}

/// Whatever a rank requests, no waiting send is left beside a waiting receive
/// that asks for it.
pub proof fn law_nothing_matching_waits(router: RouterModel, rank: int, frame: FrameModel)
    requires
        router.valid(),
        0 <= rank < router.world_size,
    ensures
        router.framed(rank, frame).0.valid(),
{
    lemma_receive_for(router.receives, frame.header, 0);
    lemma_send_for(router.sends, frame.header, 0);
    let after = router.framed(rank, frame).0;
    if p2p_defect(frame, router.unique_id, router.world_size as int, rank) is None
        && !router.graceful[rank] {
        match frame.header.opcode {
            Opcode::Send => {
                match receive_for(router.receives, frame.header, 0) {
                    Some(place) => {
                        let rest = router.receives.remove(place);
                        assert forall|j: int| 0 <= j < rest.len() implies (#[trigger] rest[j])
                            == router.receives[if j < place {
                            j
                        } else {
                            j + 1
                        }] by {}
                    },
                    None => {},
                }
            },
            Opcode::Receive => {
                match send_for(router.sends, frame.header, 0) {
                    Some(place) => {
                        let rest = router.sends.remove(place);
                        assert forall|j: int| 0 <= j < rest.len() implies (#[trigger] rest[j])
                            == router.sends[if j < place {
                            j
                        } else {
                            j + 1
                        }] by {}
                    },
                    None => {},
                }
            },
            _ => {},
        }
    }
}

/// A receive is answered with the earliest waiting send that it asks for, and
/// a send goes to the earliest waiting receive that asks for it.
pub proof fn law_matching_is_in_order(router: RouterModel, frame: FrameModel, place: int)
    requires
        0 <= place,
    ensures
        place < router.sends.len() && send_for(router.sends, frame.header, 0) == Some(place)
            ==> forall|i: int|
            0 <= i < place ==> !pairs((#[trigger] router.sends[i]).header, frame.header),
        place < router.receives.len() && receive_for(router.receives, frame.header, 0) == Some(
            place,
        ) ==> forall|i: int|
            0 <= i < place ==> !pairs(frame.header, (#[trigger] router.receives[i]).header),
{
    lemma_first_send(router.sends, frame.header, 0);
    lemma_first_receive(router.receives, frame.header, 0);
}

proof fn lemma_first_send(sends: Seq<FrameModel>, receive: FrameHeader, from: int)
    requires
        0 <= from,
    ensures
        send_for(sends, receive, from) matches Some(place) ==> forall|i: int|
            from <= i < place ==> !pairs((#[trigger] sends[i]).header, receive),
    decreases sends.len() - from,
{
    if from < sends.len() && !pairs(sends[from].header, receive) {
        lemma_first_send(sends, receive, from + 1);
    }
}

proof fn lemma_first_receive(receives: Seq<FrameModel>, send: FrameHeader, from: int)
    requires
        0 <= from,
    ensures
        receive_for(receives, send, from) matches Some(place) ==> forall|i: int|
            from <= i < place ==> !pairs(send, (#[trigger] receives[i]).header),
    decreases receives.len() - from,
{
    if from < receives.len() && !pairs(send, receives[from].header) {
        lemma_first_receive(receives, send, from + 1);
    }
}

impl P2pRouter {
    pub fn new(unique_id: UniqueId, world_size: u32, leased: bool) -> (router: Self)
        requires
            world_size > 0,
        ensures
            router@ == RouterModel::new(unique_id, world_size as nat, leased),
            router@.valid(),
    {
        let router = Self {
            unique_id,
            world_size,
            leased,
            sends: Vec::new(),
            receives: Vec::new(),
            graceful: repeat(false, world_size as usize),
            closed: repeat(false, world_size as usize),
        };
        assert(router@ =~= RouterModel::new(unique_id, world_size as nat, leased));
        router
    }

    fn find_receive(&self, send: &Frame) -> (found: Option<usize>)
        ensures
            match found {
                Some(place) => receive_for(self@.receives, send.header, 0) == Some(place as int)
                    && place < self@.receives.len(),
                None => receive_for(self@.receives, send.header, 0) is None,
            },
    {
        let ghost model = self@.receives;
        let mut index: usize = 0;
        while index < self.receives.len()
            invariant
                index <= self.receives@.len(),
                model == self@.receives,
                receive_for(model, send.header, 0) == receive_for(model, send.header, index as int),
            decreases self.receives@.len() - index,
        {
            assert(model[index as int].header == self.receives@[index as int].header);
            if p2p_matches(send, &self.receives[index]) {
                return Some(index);
            }
            index = index + 1;
        }
        None
    }

    fn find_send(&self, receive: &Frame) -> (found: Option<usize>)
        ensures
            match found {
                Some(place) => send_for(self@.sends, receive.header, 0) == Some(place as int)
                    && place < self@.sends.len(),
                None => send_for(self@.sends, receive.header, 0) is None,
            },
    {
        let ghost model = self@.sends;
        let mut index: usize = 0;
        while index < self.sends.len()
            invariant
                index <= self.sends@.len(),
                model == self@.sends,
                send_for(model, receive.header, 0) == send_for(model, receive.header, index as int),
            decreases self.sends@.len() - index,
        {
            assert(model[index as int].header == self.sends@[index as int].header);
            if p2p_matches(&self.sends[index], receive) {
                return Some(index);
            }
            index = index + 1;
        }
        None
    }

    fn route_send(&mut self, frame: Frame) -> (routing: Routing)
        requires
            old(self)@.valid(),
        ensures
            (final(self)@, routing@) == old(self)@.sent(frame@),
    {
        let ghost before = self@;
        let acknowledgement = p2p_send_acknowledgement(&frame, self.unique_id, self.world_size);
        let stopped: bool = acknowledgement.is_err();
        let answered = Routing::quiet().then_send(
            frame.header.source_rank as usize,
            acknowledgement,
        );
        if stopped {
            return answered;
        }
        match self.find_receive(&frame) {
            Some(place) => {
                let ghost waiting = self.receives@;
                let receive = self.receives.remove(place);
                proof {
                    assert(frames_of(self.receives@) =~= frames_of(waiting).remove(place as int));
                    assert(self@ =~= (RouterModel {
                        receives: before.receives.remove(place as int),
                        ..before
                    }));
                }
                let delivered = deliver_p2p_receive(
                    &frame,
                    &receive,
                    self.unique_id,
                    self.world_size,
                );
                answered.then_send(receive.header.source_rank as usize, delivered)
            },
            None => {
                let ghost waiting = self.sends@;
                self.sends.push(frame);
                proof {
                    assert(frames_of(self.sends@) =~= frames_of(waiting).push(frame@));
                    assert(self@ =~= (RouterModel { sends: before.sends.push(frame@), ..before }));
                }
                answered
            },
        }
    }

    fn route_receive(&mut self, frame: Frame) -> (routing: Routing)
        requires
            old(self)@.valid(),
        ensures
            (final(self)@, routing@) == old(self)@.asked(frame@),
    {
        let ghost before = self@;
        match self.find_send(&frame) {
            Some(place) => {
                let ghost waiting = self.sends@;
                let send = self.sends.remove(place);
                proof {
                    assert(frames_of(self.sends@) =~= frames_of(waiting).remove(place as int));
                    assert(self@ =~= (RouterModel {
                        sends: before.sends.remove(place as int),
                        ..before
                    }));
                }
                let delivered = deliver_p2p_receive(
                    &send,
                    &frame,
                    self.unique_id,
                    self.world_size,
                );
                Routing::quiet().then_send(frame.header.source_rank as usize, delivered)
            },
            None => {
                let ghost waiting = self.receives@;
                self.receives.push(frame);
                proof {
                    assert(frames_of(self.receives@) =~= frames_of(waiting).push(frame@));
                    assert(self@ =~= (RouterModel {
                        receives: before.receives.push(frame@),
                        ..before
                    }));
                }
                Routing::quiet()
            },
        }
    }

    /// Takes a request from a rank's connection.
    pub fn route_p2p_request(&mut self, connection_rank: usize, frame: Frame) -> (routing: Routing)
        requires
            old(self)@.valid(),
        ensures
            (final(self)@, routing@) == old(self)@.requested(connection_rank as int, frame@),
    {
        match validate_p2p_request(
            &frame,
            self.unique_id,
            self.world_size as usize,
            connection_rank,
        ) {
            Ok(()) => {},
            Err(error) => {
                return Routing::failed(error);
            },
        }
        match frame.header.opcode {
            Opcode::Send => self.route_send(frame),
            Opcode::Receive => self.route_receive(frame),
            Opcode::Heartbeat => {
                let response = p2p_heartbeat_response(&frame, self.unique_id, self.world_size);
                Routing::quiet().then_send(connection_rank, response)
            },
            Opcode::Abort => {
                let mut text = String::from_str("rank ");
                push_usize(&mut text, connection_rank);
                text.append(" aborted: ");
                let message = lossy_text(frame.payload.as_slice());
                text.append(message.as_str());
                Routing::failed(NetworkError::RemoteAbort(text))
            },
            _ => Routing::quiet(),
        }
    }

    /// Takes a frame that came on a rank's connection.
    pub fn on_frame(&mut self, rank: usize, frame: Frame) -> (routing: Routing)
        requires
            old(self)@.valid(),
            rank < old(self)@.world_size,
        ensures
            final(self)@.valid(),
            (final(self)@, routing@) == old(self)@.framed(rank as int, frame@),
    {
        let ghost before = self@;
        proof {
            law_nothing_matching_waits(before, rank as int, frame@);
        }
        if self.graceful[rank] {
            let mut text = String::from_str("point-to-point rank ");
            push_usize(&mut text, rank);
            text.append(" sent data after LEAVE");
            return Routing::failed(NetworkError::InvalidConfiguration(text));
        }
        let leaving: bool = frame.header.opcode == Opcode::Leave;
        let routing = self.route_p2p_request(rank, frame);
        if leaving && routing.failure.is_none() {
            let ghost routed = self@;
            self.graceful.set(rank, true);
            assert(self@ =~= (RouterModel {
                graceful: routed.graceful.update(rank as int, true),
                ..routed
            }));
        }
        routing
    }

    fn close(&mut self, rank: usize, message: &str) -> (routing: Routing)
        requires
            old(self)@.valid(),
            rank < old(self)@.world_size,
        ensures
            final(self)@.valid(),
            (final(self)@, routing@) == old(self)@.ended(rank as int, message@),
    {
        let ghost before = self@;
        self.closed.set(rank, true);
        assert(self@ =~= (RouterModel { closed: before.closed.update(rank as int, true), ..before }));
        if self.leased && !self.graceful[rank] {
            let mut text = String::from_str("point-to-point rank ");
            push_usize(&mut text, rank);
            text.append(message);
            return Routing::failed(NetworkError::InvalidConfiguration(text));
        }
        Routing::quiet()
    }

    /// A rank's connection was closed.
    pub fn on_closed(&mut self, rank: usize) -> (routing: Routing)
        requires
            old(self)@.valid(),
            rank < old(self)@.world_size,
        ensures
            final(self)@.valid(),
            (final(self)@, routing@) == old(self)@.ended(
                rank as int,
                " disconnected without LEAVE"@,
            ),
    {
        self.close(rank, " disconnected without LEAVE")
    }

    /// A rank's connection failed.
    pub fn on_failed(&mut self, rank: usize, message: &str) -> (routing: Routing)
        requires
            old(self)@.valid(),
            rank < old(self)@.world_size,
        ensures
            final(self)@.valid(),
            (final(self)@, routing@) == old(self)@.ended(
                rank as int,
                " failed without LEAVE: "@ + message@,
            ),
    {
        let mut text = String::from_str(" failed without LEAVE: ");
        text.append(message);
        self.close(rank, text.as_str())
    }

    /// Whether every rank's connection has ended.
    pub fn all_closed(&self) -> (all: bool)
        ensures
            all == self@.all_closed(),
    {
        let mut rank: usize = 0;
        while rank < self.closed.len()
            invariant
                rank <= self.closed@.len(),
                forall|i: int| 0 <= i < rank ==> #[trigger] self.closed@[i],
            decreases self.closed@.len() - rank,
        {
            if !self.closed[rank] {
                assert(!self@.closed[rank as int]);
                return false;
            }
            rank = rank + 1;
        }
        true
    }

    /// The first rank whose lease has run out, by how many nanoseconds each
    /// rank has been silent.
    pub fn overdue(&self, idle_ns: &[u128], timeout_ns: u128) -> (failure: Option<NetworkError>)
        requires
            self@.valid(),
            idle_ns@.len() == self@.world_size,
        ensures
            match failure {
                Some(error) => self@.overdue_from(idle_ns@, timeout_ns, 0) == Some(error@),
                None => self@.overdue_from(idle_ns@, timeout_ns, 0) is None,
            },
    {
        let ghost model = self@;
        let mut rank: usize = 0;
        while rank < self.world_size as usize
            invariant
                rank <= self.world_size,
                model == self@,
                model.valid(),
                idle_ns@.len() == self.world_size,
                model.overdue_from(idle_ns@, timeout_ns, 0) == model.overdue_from(
                    idle_ns@,
                    timeout_ns,
                    rank as int,
                ),
            decreases self.world_size - rank,
        {
            if !self.closed[rank] && !self.graceful[rank] && idle_ns[rank] >= timeout_ns {
                let mut text = String::from_str("heartbeat lease for rank ");
                push_usize(&mut text, rank);
                text.append("; last contact ");
                push_wide(&mut text, idle_ns[rank] / 1_000_000);
                text.append(" ms ago");
                return Some(NetworkError::Timeout(text));
            }
            rank = rank + 1;
        }
        None
    }
}

/// How long the router waits for an event, in nanoseconds: a quarter of the
/// lease, between one and 250 milliseconds.
pub fn poll_interval_ns(lease_ns: u128) -> (interval: u128)
    ensures
        interval == (if lease_ns / 4 < 1_000_000 {
            1_000_000
        } else if lease_ns / 4 > 250_000_000 {
            250_000_000
        } else {
            lease_ns / 4
        }),
{
    let quarter: u128 = lease_ns / 4;
    if quarter < 1_000_000 {
        1_000_000
    } else if quarter > 250_000_000 {
        250_000_000
    } else {
        quarter
    }
}

} // verus!

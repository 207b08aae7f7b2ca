//! The coordinator, the point-to-point rails, the sessions and the peer meshes, driven
//! by the frames that sockets would carry.

use ruccl::rank::network::control::{
    abort_frames, join_frame, p2p_rails_from_environment, ready_frame, server_failure_text,
    tcp_transport_from_environment, validate_ready, validate_tcp_transport, validate_timeout,
    validate_world_size, RankRoster,
};
use ruccl::rank::network::coordinator::{CollectiveCoordinator, CollectiveStep};
use ruccl::rank::network::endpoints::{
    endpoint_rows, publish_frame, published_entries, published_table, rail_address_fields,
    rail_addresses, rank_endpoints, table_entries, table_frame, validate_addresses, EndpointEntry,
};
use ruccl::rank::network::matching::{poll_interval_ns, P2pRouter};
use ruccl::rank::network::probe::{
    aggregate_metrics, rail_metrics, LinkProbe, ProbeTask, TopologyProbe,
};
use ruccl::rank::network::schedule::{
    probe_step, ProbeDirection, ProbeSample, ProbeScope, ProbeStep,
};
use ruccl::rank::network::session::{
    p2p_timeout_error, validate_answer, P2pChannel, RankSession, ReaderStep,
};
use ruccl::rank::peer::{peer_join_frame, validate_peer_ready, PeerMesh, PeerStep};
use ruccl::rank::topology::parse::Variable;
use ruccl::rank::{
    CollectiveTransport, ElementType, ExchangeOptions, Frame, NetworkError, Opcode,
    TopologyProbeOptions, UniqueId, ANY_RANK,
};

fn id() -> UniqueId {
    UniqueId::from_bytes([9; 16])
}

fn words(values: &[u32]) -> Vec<u8> {
    values.iter().flat_map(|value| value.to_le_bytes()).collect()
}

fn copy(frame: &Frame) -> Frame {
    Frame::decode(&frame.encode().unwrap()).unwrap()
}

fn session(rank: u32, world: u32) -> RankSession {
    RankSession::new(id(), rank, world)
}

fn replies(step: CollectiveStep) -> Vec<Frame> {
    match step {
        CollectiveStep::Reply { responses, .. } => responses,
        _ => panic!("not answered"),
    }
}

#[test]
fn rendezvous_routes_all_gather_all_to_all_and_barrier() {
    let mut coordinator = CollectiveCoordinator::new(id(), 3).unwrap();
    let mut sessions: Vec<RankSession> = (0..3).map(|rank| session(rank, 3)).collect();
    let mut run = |opcode: Opcode, count: u64, payload: &dyn Fn(u32) -> Vec<u8>| -> Vec<Vec<u8>> {
        let mut answered = Vec::new();
        for rank in 0..3 {
            let request = sessions[rank]
                .request(
                    opcode,
                    ElementType::U32,
                    ExchangeOptions::new(ANY_RANK, count),
                    payload(rank as u32),
                )
                .unwrap();
            let step = coordinator.on_frame(rank, request);
            if rank < 2 {
                assert!(matches!(step, CollectiveStep::Wait));
                assert!(!coordinator.is_idle());
            } else {
                answered = replies(step);
            }
        }
        answered
            .into_iter()
            .enumerate()
            .map(|(rank, frame)| sessions[rank].accept(Some(frame)).unwrap().payload)
            .collect()
    };
    let gathered = run(Opcode::AllGather, 2, &|rank| words(&[rank * 10, rank * 10 + 1]));
    assert_eq!(gathered, vec![words(&[0, 1, 10, 11, 20, 21]); 3]);
    let exchanged = run(Opcode::AllToAll, 3, &|rank| {
        words(&[rank * 100, rank * 100 + 1, rank * 100 + 2])
    });
    for (rank, payload) in exchanged.into_iter().enumerate() {
        let rank = rank as u32;
        assert_eq!(payload, words(&[rank, 100 + rank, 200 + rank]));
    }
    let mut answers = Vec::new();
    for rank in 0..3 {
        let request = sessions[rank].barrier_request().unwrap();
        if let CollectiveStep::Reply { responses, .. } = coordinator.on_frame(rank, request) {
            answers = responses;
        }
    }
    for (rank, frame) in answers.into_iter().enumerate() {
        let frame = sessions[rank].accept(Some(frame)).unwrap();
        assert_eq!(frame.header.opcode, Opcode::Barrier);
        assert_eq!(sessions[rank].next_sequence(), 3);
    }
    assert!(matches!(coordinator.on_closed(1, None), CollectiveStep::Finish));
}

#[test]
fn rendezvous_aborts_mismatched_collective_order() {
    let mut coordinator = CollectiveCoordinator::new(id(), 2).unwrap();
    let mut first = session(0, 2);
    let request = first
        .request(
            Opcode::AllGather,
            ElementType::U8,
            ExchangeOptions::new(ANY_RANK, 1),
            vec![1],
        )
        .unwrap();
    assert!(matches!(coordinator.on_frame(0, request), CollectiveStep::Wait));
    let other = session(1, 2).barrier_request().unwrap();
    let error = match coordinator.on_frame(1, other) {
        CollectiveStep::Fail(error) => error,
        _ => panic!("routed"),
    };
    let aborts = coordinator.abort_all(&error.to_string());
    let abort = aborts.into_iter().next().unwrap().unwrap();
    assert_eq!(abort.header.opcode, Opcode::Abort);
    match first.accept(Some(abort)) {
        Err(NetworkError::RemoteAbort(text)) => assert_eq!(text, error.to_string()),
        _ => panic!("accepted"),
    }
    assert_eq!(first.next_sequence(), 0);
}

#[test]
fn timeout_names_missing_ranks() {
    let mut coordinator = CollectiveCoordinator::new(id(), 3).unwrap();
    let request = session(1, 3).barrier_request().unwrap();
    assert!(matches!(coordinator.on_frame(1, request), CollectiveStep::Wait));
    match coordinator.on_timeout() {
        CollectiveStep::Fail(NetworkError::Timeout(text)) => {
            assert_eq!(text, "collective sequence 0; missing ranks [0,2]");
        }
        _ => panic!("no timeout"),
    }
    match coordinator.on_closed(2, None) {
        CollectiveStep::Fail(NetworkError::InvalidConfiguration(text)) => {
            assert_eq!(text, "rank 2 disconnected during collective sequence 0");
        }
        _ => panic!("no failure"),
    }
    match coordinator.on_failed(2, "reset", Some("rail 0 broke")) {
        CollectiveStep::Fail(NetworkError::InvalidConfiguration(text)) => {
            assert_eq!(text, "rail 0 broke");
        }
        _ => panic!("no failure"),
    }
    let again = session(1, 3).barrier_request().unwrap();
    match coordinator.on_frame(1, again) {
        CollectiveStep::Fail(NetworkError::InvalidConfiguration(text)) => {
            assert_eq!(text, "rank 1 submitted collective sequence 0 twice");
        }
        _ => panic!("no failure"),
    }
    assert!(matches!(
        coordinator.on_disconnected(),
        CollectiveStep::Fail(NetworkError::ChannelClosed)
    ));
}

#[test]
fn timeouts_are_set_for_all_future_sequences() {
    let mut coordinator = CollectiveCoordinator::new(id(), 2).unwrap();
    let mut sessions = [session(0, 2), session(1, 2)];
    let milliseconds = RankSession::timeout_ms(120_000_000).unwrap();
    assert_eq!(milliseconds, 120);
    assert_eq!(RankSession::timeout_ms(1).unwrap(), 1);
    assert!(RankSession::timeout_ms(0).is_err());
    let request = sessions[0].timeout_request(milliseconds).unwrap();
    assert!(matches!(coordinator.on_frame(0, request), CollectiveStep::Wait));
    let request = sessions[1].timeout_request(milliseconds).unwrap();
    match coordinator.on_frame(1, request) {
        CollectiveStep::Reply {
            responses,
            timeout_ms,
        } => {
            assert_eq!(timeout_ms, Some(120));
            for (session, response) in sessions.iter_mut().zip(responses) {
                session.accept_timeout(Some(response)).unwrap();
                assert_eq!(session.next_sequence(), 1);
            }
        }
        _ => panic!("not answered"),
    }
}

#[test]
fn every_rank_joins_once() {
    let mut roster = RankRoster::new(id(), 2, true, 3);
    let join = join_frame(id(), 1, 2, true, 3).unwrap();
    assert_eq!(roster.enrol(Some(&join)).unwrap(), 1);
    assert!(!roster.complete());
    assert!(matches!(
        roster.enrol(Some(&join)),
        Err(NetworkError::RankAlreadyJoined(1))
    ));
    let stranger = join_frame(UniqueId::from_bytes([1; 16]), 0, 2, true, 3).unwrap();
    assert!(matches!(
        roster.enrol(Some(&stranger)),
        Err(NetworkError::WrongSession)
    ));
    assert!(roster.enrol(None).is_err());
    let plain = join_frame(id(), 0, 2, false, 0).unwrap();
    assert!(roster.enrol(Some(&plain)).is_err());
    let other = join_frame(id(), 0, 2, true, 3).unwrap();
    assert_eq!(roster.enrol(Some(&other)).unwrap(), 0);
    assert!(roster.complete());
    let ready = ready_frame(id(), 0, 2, true, 3).unwrap();
    assert!(validate_ready(Some(&ready), id(), 0, 2, true, 3).is_ok());
    assert!(validate_ready(Some(&ready), id(), 0, 2, true, 2).is_err());
    assert!(validate_ready(Some(&ready), id(), 1, 2, true, 3).is_err());
    assert!(validate_ready(None, id(), 0, 2, true, 3).is_err());
}

#[test]
fn sends_and_receives_are_paired_by_tag_and_source() {
    let mut router = P2pRouter::new(id(), 3, false);
    let mut channels: Vec<P2pChannel> = (0..3).map(|rank| P2pChannel::new(id(), rank, 3)).collect();
    let (_, send) = channels[1]
        .submit(None, Opcode::Send, 0, 101, ElementType::U8, 2, vec![7, 8])
        .unwrap();
    let mut routing = router.on_frame(1, send);
    assert!(routing.failure.is_none());
    assert_eq!(routing.deliveries.len(), 1);
    let acknowledgement = routing.deliveries.remove(0);
    assert_eq!(acknowledgement.rank, 1);
    match channels[1].on_frame(acknowledgement.frame) {
        ReaderStep::Deliver { frame, .. } => {
            assert!(validate_answer(Opcode::Send, &frame).is_ok());
        }
        _ => panic!("not acknowledged"),
    }
    let (other, receive) = channels[0]
        .submit(None, Opcode::Receive, 2, 101, ElementType::U8, 2, vec![])
        .unwrap();
    assert!(router.on_frame(0, receive).deliveries.is_empty());
    let (key, receive) = channels[0]
        .submit(None, Opcode::Receive, ANY_RANK, 101, ElementType::U8, 2, vec![])
        .unwrap();
    let mut routing = router.on_frame(0, receive);
    assert!(routing.failure.is_none());
    assert_eq!(routing.deliveries.len(), 1);
    match channels[0].on_frame(routing.deliveries.remove(0).frame) {
        ReaderStep::Deliver { key: found, frame } => {
            assert_eq!(found, key);
            assert_eq!(frame.payload, vec![7, 8]);
            assert_eq!(frame.header.source_rank, 1);
            assert!(validate_answer(Opcode::Receive, &frame).is_ok());
        }
        _ => panic!("not delivered"),
    }
    assert!(channels[0].withdraw(other));
    assert!(!channels[0].withdraw(other));
    assert_eq!(
        p2p_timeout_error(Opcode::Receive, 101).to_string(),
        NetworkError::Timeout("point-to-point Receive with tag 101".to_string()).to_string()
    );
}

#[test]
fn heartbeats_and_leases() {
    let mut router = P2pRouter::new(id(), 2, true);
    let mut channel = P2pChannel::new(id(), 1, 2);
    let (_, beat) = channel
        .submit(None, Opcode::Heartbeat, ANY_RANK, 0, ElementType::Untyped, 0, vec![])
        .unwrap();
    let routing = router.on_frame(1, beat);
    assert_eq!(routing.deliveries.len(), 1);
    assert_eq!(routing.deliveries[0].rank, 1);
    assert_eq!(routing.deliveries[0].frame.header.opcode, Opcode::Heartbeat);
    assert!(router.overdue(&[10, 20], 30).is_none());
    match router.overdue(&[10_000_000, 30_000_000], 25_000_000) {
        Some(NetworkError::Timeout(text)) => {
            assert_eq!(text, "heartbeat lease for rank 1; last contact 30 ms ago");
        }
        _ => panic!("no timeout"),
    }
    let leave = channel.leave_request().unwrap();
    assert!(router.on_frame(1, leave).failure.is_none());
    assert!(router.on_closed(1).failure.is_none());
    assert!(router.overdue(&[1, u128::MAX], 30).is_none());
    match router.on_closed(0).failure {
        Some(NetworkError::InvalidConfiguration(text)) => {
            assert_eq!(text, "point-to-point rank 0 disconnected without LEAVE");
        }
        _ => panic!("no failure"),
    }
    assert!(router.all_closed());
    assert_eq!(poll_interval_ns(40_000_000), 10_000_000);
    assert_eq!(poll_interval_ns(1), 1_000_000);
    assert_eq!(poll_interval_ns(u128::MAX), 250_000_000);
}

#[test]
fn an_abort_interrupts_what_waits() {
    let mut router = P2pRouter::new(id(), 2, false);
    let mut channels = [P2pChannel::new(id(), 0, 2), P2pChannel::new(id(), 1, 2)];
    let (key, receive) = channels[0]
        .submit(None, Opcode::Receive, 1, 99, ElementType::U8, 1, vec![])
        .unwrap();
    router.on_frame(0, receive);
    let abort = channels[1].abort_request("injected rank failure").unwrap();
    let error = router.on_frame(1, abort).failure.unwrap();
    let message = server_failure_text(&error);
    let frames = abort_frames(id(), 0, 2, &message);
    let frame = frames.into_iter().next().unwrap().unwrap();
    match channels[0].on_frame(frame) {
        ReaderStep::Fail { message, waiting } => {
            assert!(message.contains("injected rank failure"));
            assert_eq!(waiting, vec![key]);
        }
        _ => panic!("no failure"),
    }
    let refused = channels[0].submit(
        Some("broken"),
        Opcode::Send,
        1,
        0,
        ElementType::U8,
        0,
        vec![],
    );
    assert!(matches!(refused, Err(NetworkError::RemoteAbort(text)) if text == "broken"));
    match channels[1].on_closed() {
        ReaderStep::Fail { message, .. } => {
            assert_eq!(message, "point-to-point coordinator closed");
        }
        _ => panic!("no failure"),
    }
}

fn mesh_pair() -> (PeerMesh, PeerMesh) {
    let mut low = PeerMesh::new(id(), 0, 2, 2);
    let high = PeerMesh::new(id(), 1, 2, 2);
    assert_eq!(low.expected_incoming(), 2);
    assert_eq!(high.expected_incoming(), 0);
    for rail in 0..2 {
        let join = peer_join_frame(id(), 1, 0, 2, rail).unwrap();
        let (peer, found, ready) = low.accept(Some(&join), 0, 1).unwrap();
        assert_eq!((peer, found), (1, rail));
        assert!(validate_peer_ready(Some(&ready), id(), 1, 0, 2, rail).is_ok());
        assert!(low.accept(Some(&join), 0, 1).is_err());
    }
    (low, high)
}

#[test]
fn peer_mesh_routes_data_on_multiple_rails() {
    let (mut low, mut high) = mesh_pair();
    let (key, frame) = high
        .send_on_rail(1, 0, 202, ElementType::U8, 2, vec![2, 2])
        .unwrap()
        .unwrap();
    assert!(low.receive_on_rail(1, Some(1), 202, ElementType::U8, 2).unwrap().is_none());
    let acknowledgement = match low.on_frame(1, 1, copy(&frame)) {
        PeerStep::Acknowledge { frame } => frame,
        _ => panic!("not acknowledged"),
    };
    match high.on_frame(0, 1, acknowledgement) {
        PeerStep::Release { key: found } => assert_eq!(found, key),
        _ => panic!("not released"),
    }
    assert!(low.receive_on_rail(0, Some(1), 202, ElementType::U8, 2).unwrap().is_none());
    let received = low.receive_on_rail(1, Some(1), 202, ElementType::U8, 2).unwrap().unwrap();
    assert_eq!(received.payload, vec![2, 2]);
    assert!(high.send_on_rail(0, 1, 5, ElementType::U8, 1, vec![3]).unwrap().is_none());
    let own = high.receive_on_rail(0, None, 5, ElementType::U8, 1).unwrap().unwrap();
    assert_eq!(own.payload, vec![3]);
}

#[test]
fn a_peer_that_leaves_breaks_the_mesh() {
    let (mut low, mut high) = mesh_pair();
    let (key, _) = low
        .send_on_rail(0, 1, 7, ElementType::U8, 1, vec![1])
        .unwrap()
        .unwrap();
    let leave = high.leave_frame(0).unwrap();
    match low.on_frame(1, 0, leave) {
        PeerStep::Fail { message, waiting } => {
            assert!(message.contains("direct peer rank 1 left"));
            assert_eq!(waiting, vec![key]);
        }
        _ => panic!("no failure"),
    }
    assert!(matches!(
        low.receive_on_rail(0, None, 7, ElementType::U8, 1),
        Err(NetworkError::RemoteAbort(_))
    ));
    let waiting = high.fail("injected direct peer failure");
    assert!(waiting.is_empty());
    assert_eq!(high.failure(), Some("injected direct peer failure"));
    high.fail("later");
    assert_eq!(high.failure(), Some("injected direct peer failure"));
    let (error, _) = high.on_receive_timeout(1, 9);
    assert_eq!(
        error.to_string(),
        NetworkError::Timeout("direct peer receive on rail 1 with tag 9 timed out".to_string())
            .to_string()
    );
}

#[test]
fn endpoints_are_published_and_tabulated() {
    let own = vec!["10.0.0.1:700".to_string(), "10.0.0.1:701".to_string()];
    let frame = publish_frame(id(), 1, 2, 2, &own).unwrap();
    let given = published_entries(Some(&frame), id(), 1, 2, 2).unwrap();
    assert_eq!(given, own);
    let entries: Vec<EndpointEntry> = given
        .iter()
        .enumerate()
        .map(|(rail, text)| EndpointEntry::Address {
            text: text.clone(),
            port: 700 + rail as u16,
            unspecified: false,
            reached: String::new(),
        })
        .collect();
    let row = rank_endpoints(1, &given, &entries, 2).unwrap();
    assert_eq!(row, own);
    let shared = vec![EndpointEntry::Address {
        text: "0.0.0.0:9".to_string(),
        port: 9,
        unspecified: true,
        reached: "10.0.0.7:9".to_string(),
    }];
    let other = rank_endpoints(0, &["0.0.0.0:9".to_string()], &shared, 2).unwrap();
    assert_eq!(other, vec!["10.0.0.7:9", "10.0.0.7:9"]);
    let zero = vec![EndpointEntry::Address {
        text: "10.0.0.1:0".to_string(),
        port: 0,
        unspecified: false,
        reached: String::new(),
    }];
    assert!(rank_endpoints(0, &["10.0.0.1:0".to_string()], &zero, 2).is_err());
    // One line per rank only where no rank published more.
    let shared = vec!["10.0.0.8:7".to_string(), "10.0.0.8:7".to_string()];
    assert_eq!(
        published_table(&[other.clone(), shared.clone()], &[1, 1]),
        b"10.0.0.7:9\n10.0.0.8:7".to_vec()
    );
    assert_eq!(
        published_table(&[other.clone(), shared], &[1, 2]),
        b"10.0.0.7:9\n10.0.0.7:9\n10.0.0.8:7\n10.0.0.8:7".to_vec()
    );
    let bytes = published_table(&[other.clone(), row.clone()], &[1, 2]);
    let frame = table_frame(id(), 1, 2, 2, bytes).unwrap();
    let entries = table_entries(Some(&frame), id(), 1, 2, 2).unwrap();
    assert_eq!(endpoint_rows(&entries, 2, 2).unwrap(), vec![other, row]);
    assert!(endpoint_rows(&entries, 3, 2).is_err());
    assert!(table_entries(None, id(), 1, 2, 2).is_err());
    assert_eq!(
        rail_address_fields("LIST", "a, b", 2).unwrap(),
        vec!["a".to_string(), " b".to_string()]
    );
    assert!(rail_address_fields("LIST", "a", 2).is_err());
    assert!(validate_addresses(1, 0, 4).is_ok());
    assert!(validate_addresses(2, 0, 4).is_err());
    assert!(validate_addresses(4, 3, 4).is_err());
    assert_eq!(rail_addresses(3, 1, 0), (0, None));
    assert_eq!(rail_addresses(3, 4, 1), (3, Some(0)));
    assert_eq!(rail_addresses(3, 4, 4), (3, Some(3)));
}

#[test]
fn network_settings() {
    let text = |value: &str| Variable::Text(value.to_string());
    assert_eq!(p2p_rails_from_environment(&Variable::Absent).unwrap(), 1);
    assert_eq!(p2p_rails_from_environment(&text(" 4 ")).unwrap(), 4);
    assert!(p2p_rails_from_environment(&text("0")).is_err());
    assert_eq!(
        p2p_rails_from_environment(&text("many")).unwrap_err().to_string(),
        NetworkError::InvalidConfiguration(
            "GX1_P2P_RAILS must be an integer in 1..=64, got \"many\"".to_string()
        )
        .to_string()
    );
    assert_eq!(
        tcp_transport_from_environment(&text("TCP_PEER")).unwrap(),
        CollectiveTransport::TcpPeer
    );
    assert_eq!(
        tcp_transport_from_environment(&text("coordinator")).unwrap(),
        CollectiveTransport::TcpHostStaged
    );
    assert!(tcp_transport_from_environment(&text("pigeon")).is_err());
    assert!(tcp_transport_from_environment(&Variable::NotUnicode("?".to_string())).is_err());
    assert!(validate_tcp_transport(CollectiveTransport::Rdma).is_err());
    assert!(validate_world_size(0).is_err());
    assert!(validate_world_size(8).is_ok());
    assert!(validate_timeout(0, "TCP collective").is_err());
    assert!(validate_timeout(1, "TCP collective").is_ok());
}

#[test]
fn a_probe_measures_every_pair_and_rail() {
    let options = TopologyProbeOptions {
        payload_bytes: 1024,
        latency_iterations: 1,
        bandwidth_iterations: 1,
        warmup_iterations: 0,
    };
    assert!(matches!(
        TopologyProbe::new(2, 1, CollectiveTransport::TcpHostStaged, options),
        Err(NetworkError::InvalidConfiguration(text))
            if text.contains("requires GX1_COLLECTIVE_TRANSPORT=tcp_peer")
    ));
    let mut probe = TopologyProbe::new(2, 2, CollectiveTransport::TcpPeer, options).unwrap();
    for rail in 0..2 {
        assert!(matches!(
            probe.task(),
            ProbeTask::Rail { first_rank: 0, second_rank: 1, rail: found } if found == rail
        ));
        let forward = LinkProbe { bandwidth_mbps: 900, latency_ns: 1500 };
        let reverse = LinkProbe { bandwidth_mbps: 700, latency_ns: 2500 };
        let mut payload = rail_metrics(0, 0, 1, Some(forward), None);
        payload.extend(rail_metrics(1, 0, 1, None, Some(reverse)));
        probe.record_rail(&payload).unwrap();
    }
    assert!(matches!(
        probe.task(),
        ProbeTask::Aggregate { first_rank: 0, second_rank: 1 }
    ));
    let mut payload = aggregate_metrics(0, 0, 1, Some(1600), None);
    payload.extend(aggregate_metrics(1, 0, 1, None, Some(1300)));
    probe.record_aggregate(&payload).unwrap();
    assert!(matches!(probe.task(), ProbeTask::Done));
    let topology = probe.into_topology();
    let links = topology.links();
    assert_eq!(links.len(), 1);
    assert_eq!(topology.rail_links().len(), 2);
    assert_eq!(topology.rail_links()[0].bandwidth_mbps, links[0].bandwidth_mbps);
    assert_eq!(links[0].bandwidth_mbps, 256);
    assert_eq!(links[0].latency_ns, 4096);
    assert_eq!(topology.aggregate_links()[0].bandwidth_mbps, 512);
}

#[test]
fn probe_rounds_follow_the_options() {
    let options = TopologyProbeOptions {
        payload_bytes: 64,
        latency_iterations: 3,
        bandwidth_iterations: 2,
        warmup_iterations: 1,
    };
    let direction = ProbeDirection::reverse(0, 2);
    assert_eq!((direction.sender, direction.receiver), (2, 0));
    let mut samples = Vec::new();
    for round in 0..7 {
        let sent = match probe_step(direction, ProbeScope::Rail(1), options, 2, round) {
            ProbeStep::Send { to, messages, sample } => {
                assert_eq!(to, 0);
                samples.push(sample);
                messages
            }
            other => panic!("unexpected {:?}", other),
        };
        let small = round < 4;
        assert_eq!(sent.len(), 1);
        assert_eq!(sent[0].rail, 1);
        assert_eq!(sent[0].bytes, if small { 1 } else { 64 });
        assert_eq!(sent[0].fill, if small { 0 } else { 0xa5 });
        assert_eq!(sent[0].tag, direction.tag(1, if small { 0 } else { 1 }));
        assert_eq!(
            probe_step(direction, ProbeScope::Rail(1), options, 0, round),
            ProbeStep::Receive { from: 2, messages: sent }
        );
        assert_eq!(
            probe_step(direction, ProbeScope::Rail(1), options, 1, round),
            ProbeStep::Done
        );
    }
    assert_eq!(
        samples,
        vec![
            ProbeSample::Warmup,
            ProbeSample::Latency,
            ProbeSample::Latency,
            ProbeSample::Latency,
            ProbeSample::Warmup,
            ProbeSample::Bandwidth,
            ProbeSample::Bandwidth,
        ]
    );
    for rank in 0..3 {
        assert_eq!(
            probe_step(direction, ProbeScope::Rail(1), options, rank, 7),
            ProbeStep::Done
        );
    }
    match probe_step(ProbeDirection::forward(0, 2), ProbeScope::AllRails(2), options, 0, 0) {
        ProbeStep::Send { to, messages, sample } => {
            assert_eq!((to, sample), (2, ProbeSample::Warmup));
            assert_eq!(messages.len(), 2);
            assert_eq!((messages[1].rail, messages[1].bytes, messages[1].fill), (1, 64, 0x5a));
        }
        other => panic!("unexpected {:?}", other),
    }
    assert_eq!(
        probe_step(ProbeDirection::forward(0, 2), ProbeScope::AllRails(2), options, 0, 3),
        ProbeStep::Done
    );
}

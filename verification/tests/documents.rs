//! Profiles as JSON documents.

use ruccl::rank::topology::document::{document_text, read_document, DocumentField};
use ruccl::rank::{
    AlgorithmPolicy, CollectiveAlgorithm, CollectiveAutotuneEntry, CollectiveAutotuneProfile,
    CollectiveKind, CollectivePlanSource, CollectiveTopology, CollectiveTransport,
    CollectiveTuning, TopologyError, TopologyLink, TopologyRailLink,
    COLLECTIVE_AUTOTUNE_PROFILE_VERSION,
};

fn topology(bandwidth_mbps: u64, latency_ns: u64) -> CollectiveTopology {
    let mut topology = CollectiveTopology::empty(2).unwrap();
    topology
        .add_link(TopologyLink { first_rank: 0, second_rank: 1, bandwidth_mbps, latency_ns })
        .unwrap();
    for rail in 0..2 {
        topology
            .add_rail_link(TopologyRailLink {
                rail,
                first_rank: 0,
                second_rank: 1,
                bandwidth_mbps,
                latency_ns,
            })
            .unwrap();
    }
    topology
}

fn tuning(bandwidth_mbps: u64, latency_ns: u64) -> CollectiveTuning {
    CollectiveTuning::from_topology(
        AlgorithmPolicy::Auto,
        0,
        topology(bandwidth_mbps, latency_ns),
        None,
    )
    .unwrap()
    .with_transport(CollectiveTransport::TcpPeer)
    .unwrap()
    .with_p2p_rails(2)
    .unwrap()
}

fn profile(tuning: &CollectiveTuning) -> CollectiveAutotuneProfile {
    CollectiveAutotuneProfile {
        version: COLLECTIVE_AUTOTUNE_PROFILE_VERSION,
        world_size: 2,
        topology_fingerprint: tuning.topology_fingerprint_hex(),
        execution_fingerprint: tuning.execution_fingerprint_hex(),
        entries: vec![CollectiveAutotuneEntry {
            operation: CollectiveKind::AllReduce,
            min_payload_bytes: 0,
            max_payload_bytes: u64::MAX,
            algorithm: CollectiveAlgorithm::Ring,
            ring_channels: 1,
            measured_time_ns: 1,
        }],
    }
}

fn invalid(result: Result<CollectiveTuning, TopologyError>) -> String {
    match result {
        Err(TopologyError::InvalidProfile(text)) => text,
        other => panic!("unexpected {:?}", other),
    }
}

#[test]
fn documents_hold_texts_nulls_and_other_values() {
    let document = read_document(
        r#"{"detected_topology_links": "0-1:64:65536", "detected_topology_rail_links": null}"#,
    )
    .unwrap();
    assert_eq!(document.links, DocumentField::Text("0-1:64:65536".into()));
    assert_eq!(document.rail_links, DocumentField::Null);
    assert_eq!(document.aggregate_links, DocumentField::Missing);
    assert_eq!(
        document_text("detected_topology_links", &document.links),
        Ok(Some("0-1:64:65536"))
    );
    assert_eq!(document_text("detected_topology_rail_links", &document.rail_links), Ok(None));
    let document = read_document(r#"{"detected_topology_aggregate_links": 7}"#).unwrap();
    assert_eq!(document.aggregate_links, DocumentField::Other);
    assert_eq!(
        document_text("detected_topology_aggregate_links", &document.aggregate_links),
        Err(TopologyError::InvalidProfile(
            "detected_topology_aggregate_links must be a string or null".into()
        ))
    );
    // A document without names holds none of them.
    assert_eq!(read_document("[1, 2]").unwrap().links, DocumentField::Missing);
    assert_eq!(
        read_document("{").unwrap_err(),
        "EOF while parsing an object at line 1 column 1"
    );
}

#[test]
fn profile_texts_are_refused_in_order() {
    let adjacent = tuning(256, 262_144);
    let measured = profile(&tuning(64, 65_536));
    let refused = || Err("missing field `version`".to_string());
    let unset = || Err(TopologyError::InvalidRing("setting".into()));
    // The text comes first.
    assert_eq!(
        invalid(adjacent.clone().with_autotune_profile_text("p.json", "{", refused(), unset())),
        "p.json is not valid JSON: EOF while parsing an object at line 1 column 1"
    );
    // Then its fields in turn.
    assert_eq!(
        invalid(adjacent.clone().with_autotune_profile_text(
            "p.json",
            r#"{"detected_topology_aggregate_links": 1, "detected_topology_rail_links": [],
                "detected_topology_links": {}}"#,
            refused(),
            unset(),
        )),
        "detected_topology_links must be a string or null"
    );
    assert_eq!(
        invalid(adjacent.clone().with_autotune_profile_text(
            "p.json",
            r#"{"detected_topology_aggregate_links": 1, "detected_topology_rail_links": []}"#,
            refused(),
            unset(),
        )),
        "detected_topology_rail_links must be a string or null"
    );
    assert_eq!(
        invalid(adjacent.clone().with_autotune_profile_text(
            "p.json",
            r#"{"detected_topology_aggregate_links": 1}"#,
            refused(),
            unset(),
        )),
        "detected_topology_aggregate_links must be a string or null"
    );
    // Then the profile, the setting, and whether the profile fits.
    assert_eq!(
        invalid(adjacent.clone().with_autotune_profile_text("p.json", "{}", refused(), unset())),
        "p.json is not valid JSON: missing field `version`"
    );
    assert!(matches!(
        adjacent.clone().with_autotune_profile_text("p.json", "{}", Ok(measured.clone()), unset()),
        Err(TopologyError::InvalidRing(text)) if text == "setting"
    ));
    assert!(adjacent
        .clone()
        .with_autotune_profile_text("p.json", "{}", Ok(measured.clone()), Ok(true))
        .is_err());
    let text = r#"{"detected_topology_links": "0-1:64:65536",
        "detected_topology_rail_links": "0@0-1:64:65536,1@0-1:64:65536"}"#;
    assert!(adjacent
        .clone()
        .with_autotune_profile_text("p.json", text, Ok(measured.clone()), Ok(false))
        .is_err());
    let profiled = adjacent
        .with_autotune_profile_text("p.json", text, Ok(measured), Ok(true))
        .unwrap();
    let plan = profiled.plan(CollectiveKind::AllReduce, 1024);
    assert_eq!(plan.algorithm, CollectiveAlgorithm::Ring);
    assert_eq!(plan.source, CollectivePlanSource::Autotune);
}

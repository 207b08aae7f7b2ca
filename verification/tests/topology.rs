//! Topology, planning and autotune profiles.

use ruccl::rank::topology::channels::ring_edges;
use ruccl::rank::topology::parse::{parse_topology_aggregate_links, parse_topology_rail_links};
use ruccl::rank::topology::rings::validate_ring_order;
use ruccl::rank::topology::parse::Variable;
use ruccl::rank::topology::settings::TuningVariables;
use ruccl::rank::topology::{MAX_P2P_RAILS, MAX_RING_CHANNELS};
use ruccl::rank::{
    AlgorithmPolicy, CollectiveAlgorithm, CollectiveAutotuneEntry, CollectiveAutotuneProfile,
    CollectiveKind, CollectivePlanSource, CollectiveTopology, CollectiveTransport, CollectiveTuning,
    TopologyAggregateLink, TopologyError, TopologyLink, TopologyRailLink,
    COLLECTIVE_AUTOTUNE_PROFILE_VERSION,
};

#[test]
fn complete_four_rank_topology_builds_three_edge_balanced_rings() {
    let topology = CollectiveTopology::uniform(4).unwrap();
    let orders = topology.best_ring_orders(MAX_RING_CHANNELS).unwrap();
    assert_eq!(orders.len(), 3);
    let mut edge_counts = [[0_u32; 4]; 4];
    for order in &orders {
        validate_ring_order(4, order).unwrap();
        for index in 0..order.len() {
            let first = order[index] as usize;
            let second = order[(index + 1) % order.len()] as usize;
            edge_counts[first][second] += 1;
            edge_counts[second][first] += 1;
        }
    }
    for (first, counts) in edge_counts.iter().enumerate() {
        for (second, count) in counts.iter().enumerate().skip(first + 1) {
            assert_eq!(*count, 2, "edge {first}-{second}");
        }
    }

    let tuning = CollectiveTuning::from_topology(
        AlgorithmPolicy::Ring,
        0,
        topology,
        Some(vec![0, 2, 1, 3]),
    )
    .unwrap();
    assert_eq!(tuning.ring_orders().len(), 3);
    assert_eq!(tuning.ring_order_for_channel(0), [0, 2, 1, 3]);
    assert_ne!(
        ring_edges(tuning.ring_order_for_channel(0)),
        ring_edges(tuning.ring_order_for_channel(1))
    );
}

#[test]
fn multi_ring_cost_serializes_channels_that_share_a_rail() {
    let base = CollectiveTuning::new(AlgorithmPolicy::Ring, 0, vec![0, 1]).unwrap();
    let single = base
        .clone()
        .with_ring_channels(1)
        .unwrap()
        .plan(CollectiveKind::AllReduce, 16 * 1024 * 1024)
        .peer_estimated_time_ns
        .unwrap();
    let shared_rail = base
        .clone()
        .with_ring_channels(4)
        .unwrap()
        .plan(CollectiveKind::AllReduce, 16 * 1024 * 1024)
        .peer_estimated_time_ns
        .unwrap();
    let independent_rails = base
        .with_ring_channels(4)
        .unwrap()
        .with_p2p_rails(4)
        .unwrap()
        .plan(CollectiveKind::AllReduce, 16 * 1024 * 1024)
        .peer_estimated_time_ns
        .unwrap();
    assert!(shared_rail > single);
    assert!(independent_rails < single);
}

#[test]
fn multi_ring_cost_uses_the_link_metrics_for_each_assigned_rail() {
    let build = |second_rail_bandwidth: u64| {
        let mut topology = CollectiveTopology::empty(2).unwrap();
        topology
            .add_link(TopologyLink {
                first_rank: 0,
                second_rank: 1,
                bandwidth_mbps: second_rail_bandwidth.min(100_000),
                latency_ns: 100,
            })
            .unwrap();
        for (rail, bandwidth_mbps) in [(0, 100_000), (1, second_rail_bandwidth)] {
            topology
                .add_rail_link(TopologyRailLink {
                    rail,
                    first_rank: 0,
                    second_rank: 1,
                    bandwidth_mbps,
                    latency_ns: 100,
                })
                .unwrap();
        }
        CollectiveTuning::from_topology(AlgorithmPolicy::Ring, 0, topology, None)
            .unwrap()
            .with_ring_channels(2)
            .unwrap()
            .with_p2p_rails(2)
            .unwrap()
    };
    let balanced = build(100_000);
    let slow_second_rail = build(1_000);
    let balanced_time = balanced.multi_ring_step_time_ns(16 * 1024 * 1024).unwrap();
    let heterogeneous_time = slow_second_rail
        .multi_ring_step_time_ns(16 * 1024 * 1024)
        .unwrap();
    assert!(heterogeneous_time > balanced_time.saturating_mul(50));
    assert_ne!(
        balanced.topology_fingerprint(),
        slow_second_rail.topology_fingerprint()
    );
}

#[test]
fn concurrent_rail_aggregate_capacity_caps_ring_pairwise_and_hierarchy_costs() {
    let build = |aggregate_bandwidth_mbps: Option<u64>, channels: usize| {
        let mut topology = CollectiveTopology::empty(4).unwrap();
        for first_rank in 0..4_u32 {
            for second_rank in first_rank + 1..4_u32 {
                topology
                    .add_link(TopologyLink {
                        first_rank,
                        second_rank,
                        bandwidth_mbps: 100_000,
                        latency_ns: 100,
                    })
                    .unwrap();
                for rail in 0..2 {
                    topology
                        .add_rail_link(TopologyRailLink {
                            rail,
                            first_rank,
                            second_rank,
                            bandwidth_mbps: 100_000,
                            latency_ns: 100,
                        })
                        .unwrap();
                }
                if let Some(bandwidth_mbps) = aggregate_bandwidth_mbps {
                    topology
                        .add_aggregate_link(TopologyAggregateLink {
                            first_rank,
                            second_rank,
                            bandwidth_mbps,
                        })
                        .unwrap();
                }
            }
        }
        CollectiveTuning::from_topology(
            AlgorithmPolicy::Ring,
            0,
            topology,
            Some(vec![0, 1, 2, 3]),
        )
        .unwrap()
        .with_ring_channels(channels)
        .unwrap()
        .with_p2p_rails(2)
        .unwrap()
    };
    let payload = 64 * 1024 * 1024;
    let uncapped = build(None, 2);
    let capped = build(Some(1_000), 2);
    assert!(
        capped.multi_ring_step_time_ns(payload).unwrap()
            > uncapped
                .multi_ring_step_time_ns(payload)
                .unwrap()
                .saturating_mul(20)
    );
    assert!(
        capped
            .topology
            .pairwise_time_ns(&capped.ring_order, payload / 4, 2, &capped.rail_order())
            .unwrap()
            > uncapped
                .topology
                .pairwise_time_ns(&uncapped.ring_order, payload / 4, 2, &uncapped.rail_order(),)
                .unwrap()
                .saturating_mul(20)
    );

    let uncapped_hierarchy = uncapped
        .with_hierarchy(vec![vec![0], vec![1], vec![2], vec![3]])
        .unwrap();
    let capped_hierarchy = capped
        .with_hierarchy(vec![vec![0], vec![1], vec![2], vec![3]])
        .unwrap();
    assert!(
        capped_hierarchy
            .hierarchical_estimated_time_ns(CollectiveKind::AllReduce, payload)
            .unwrap()
            > uncapped_hierarchy
                .hierarchical_estimated_time_ns(CollectiveKind::AllReduce, payload)
                .unwrap()
                .saturating_mul(20)
    );

    let uncapped_single = build(None, 1);
    let capped_single = build(Some(1_000), 1);
    assert_eq!(
        capped_single.multi_ring_step_time_ns(payload),
        uncapped_single.multi_ring_step_time_ns(payload)
    );
    assert_ne!(
        capped_single.topology_fingerprint(),
        uncapped_single.topology_fingerprint()
    );
}

#[test]
fn topology_aware_rail_order_skips_slow_noncontiguous_rails_first() {
    let mut topology = CollectiveTopology::empty(2).unwrap();
    topology
        .add_link(TopologyLink {
            first_rank: 0,
            second_rank: 1,
            bandwidth_mbps: 1_000,
            latency_ns: 1_000,
        })
        .unwrap();
    for (rail, bandwidth_mbps, latency_ns) in [
        (0, 100_000, 100),
        (1, 1_000, 1_000),
        (2, 80_000, 150),
        (3, 2_000, 900),
    ] {
        topology
            .add_rail_link(TopologyRailLink {
                rail,
                first_rank: 0,
                second_rank: 1,
                bandwidth_mbps,
                latency_ns,
            })
            .unwrap();
    }
    let automatic = CollectiveTuning::from_topology(AlgorithmPolicy::Ring, 0, topology, None)
        .unwrap()
        .with_p2p_rails(4)
        .unwrap()
        .with_ring_channels(2)
        .unwrap();
    assert_eq!(automatic.rail_order(), vec![0, 2, 3, 1]);
    assert_eq!(
        (0..6)
            .map(|channel| automatic.rail_for_channel(channel))
            .collect::<Vec<_>>(),
        vec![0, 2, 3, 1, 0, 2]
    );

    let same_explicit = automatic.clone().with_rail_order(vec![0, 2, 3, 1]).unwrap();
    assert_eq!(
        automatic.topology_fingerprint(),
        same_explicit.topology_fingerprint()
    );
    let natural = automatic.clone().with_rail_order(vec![0, 1, 2, 3]).unwrap();
    let automatic_time = automatic
        .plan(CollectiveKind::AllReduce, 16 * 1024 * 1024)
        .peer_estimated_time_ns
        .unwrap();
    let natural_time = natural
        .plan(CollectiveKind::AllReduce, 16 * 1024 * 1024)
        .peer_estimated_time_ns
        .unwrap();
    assert!(natural_time > automatic_time.saturating_mul(50));
    assert_ne!(
        automatic.topology_fingerprint(),
        natural.topology_fingerprint()
    );

    assert!(matches!(
        automatic.clone().with_rail_order(vec![0, 1, 1, 3]),
        Err(TopologyError::InvalidRailOrder(_))
    ));
    assert!(matches!(
        automatic.clone().with_rail_order(vec![0, 1, 2]),
        Err(TopologyError::InvalidRailOrder(_))
    ));
    assert!(matches!(
        automatic.with_rail_order(vec![0, 1, 2, 4]),
        Err(TopologyError::InvalidRailOrder(_))
    ));
}

#[test]
fn pairwise_cost_uses_the_link_metrics_for_each_assigned_rail() {
    let build = |second_rail_bandwidth: u64, channels: usize| {
        let mut topology = CollectiveTopology::empty(2).unwrap();
        topology
            .add_link(TopologyLink {
                first_rank: 0,
                second_rank: 1,
                bandwidth_mbps: 100_000,
                latency_ns: 100,
            })
            .unwrap();
        for (rail, bandwidth_mbps) in [(0, 100_000), (1, second_rail_bandwidth)] {
            topology
                .add_rail_link(TopologyRailLink {
                    rail,
                    first_rank: 0,
                    second_rank: 1,
                    bandwidth_mbps,
                    latency_ns: 100,
                })
                .unwrap();
        }
        CollectiveTuning::from_topology(AlgorithmPolicy::Ring, 0, topology, None)
            .unwrap()
            .with_ring_channels(channels)
            .unwrap()
            .with_p2p_rails(2)
            .unwrap()
            .plan(CollectiveKind::AllToAll, 16 * 1024 * 1024)
            .peer_estimated_time_ns
            .unwrap()
    };

    let balanced = build(100_000, 2);
    let slow_second_rail = build(1_000, 2);
    let rail_zero_only = build(1_000, 1);
    assert!(slow_second_rail > balanced.saturating_mul(50));
    assert!(slow_second_rail > rail_zero_only.saturating_mul(40));
}

#[test]
fn hierarchical_inter_leader_cost_uses_assigned_rail_metrics() {
    let build = |second_rail_bandwidth: u64, channels: usize| {
        let mut topology = CollectiveTopology::empty(4).unwrap();
        for first_rank in 0..4_u32 {
            for second_rank in first_rank + 1..4_u32 {
                topology
                    .add_link(TopologyLink {
                        first_rank,
                        second_rank,
                        bandwidth_mbps: 100_000,
                        latency_ns: 100,
                    })
                    .unwrap();
                for (rail, bandwidth_mbps) in [(0, 100_000), (1, second_rail_bandwidth)] {
                    topology
                        .add_rail_link(TopologyRailLink {
                            rail,
                            first_rank,
                            second_rank,
                            bandwidth_mbps,
                            latency_ns: 100,
                        })
                        .unwrap();
                }
            }
        }
        CollectiveTuning::from_topology(
            AlgorithmPolicy::Hierarchical,
            0,
            topology,
            Some(vec![0, 1, 2, 3]),
        )
        .unwrap()
        .with_hierarchy(vec![vec![0, 1], vec![2, 3]])
        .unwrap()
        .with_ring_channels(channels)
        .unwrap()
        .with_p2p_rails(2)
        .unwrap()
    };

    let balanced = build(100_000, 2);
    let slow_second_rail = build(1_000, 2);
    let rail_zero_only = build(1_000, 1);
    for kind in [
        CollectiveKind::AllReduce,
        CollectiveKind::AllGather,
        CollectiveKind::ReduceScatter,
    ] {
        let balanced_time = balanced
            .plan(kind, 64 * 1024 * 1024)
            .hierarchical_estimated_time_ns
            .unwrap();
        let heterogeneous_time = slow_second_rail
            .plan(kind, 64 * 1024 * 1024)
            .hierarchical_estimated_time_ns
            .unwrap();
        let rail_zero_time = rail_zero_only
            .plan(kind, 64 * 1024 * 1024)
            .hierarchical_estimated_time_ns
            .unwrap();
        assert!(heterogeneous_time > balanced_time.saturating_mul(4));
        assert!(heterogeneous_time > rail_zero_time.saturating_mul(4));
    }
}

#[test]
fn explicit_rail_topology_parser_validates_the_configured_rail_count() {
    let mut topology = CollectiveTopology::uniform(2).unwrap();
    parse_topology_rail_links(&mut topology, "0@0-1:100000:100,1@0-1:25000:900", 2).unwrap();
    assert_eq!(
        topology.rail_links(),
        vec![
            TopologyRailLink {
                rail: 0,
                first_rank: 0,
                second_rank: 1,
                bandwidth_mbps: 100_000,
                latency_ns: 100,
            },
            TopologyRailLink {
                rail: 1,
                first_rank: 0,
                second_rank: 1,
                bandwidth_mbps: 25_000,
                latency_ns: 900,
            },
        ]
    );
    assert!(parse_topology_rail_links(&mut topology, "2@0-1:1:1", 2).is_err());
}

#[test]
fn explicit_aggregate_topology_parser_validates_and_preserves_bandwidth() {
    let mut topology = CollectiveTopology::uniform(3).unwrap();
    parse_topology_aggregate_links(&mut topology, "0-1:150000,1-2:75000").unwrap();
    assert_eq!(
        topology.aggregate_links(),
        vec![
            TopologyAggregateLink {
                first_rank: 0,
                second_rank: 1,
                bandwidth_mbps: 150_000,
            },
            TopologyAggregateLink {
                first_rank: 1,
                second_rank: 2,
                bandwidth_mbps: 75_000,
            },
        ]
    );
    assert!(parse_topology_aggregate_links(&mut topology, "0-1:0").is_err());
    assert!(parse_topology_aggregate_links(&mut topology, "0@1:100").is_err());
}

#[test]
fn topology_prefers_the_high_bandwidth_closed_ring() {
    let mut topology = CollectiveTopology::empty(4).unwrap();
    for (first, second, bandwidth) in [
        (0, 1, 100_000),
        (1, 2, 100_000),
        (2, 3, 100_000),
        (3, 0, 100_000),
        (0, 2, 10_000),
        (1, 3, 10_000),
    ] {
        topology
            .add_link(TopologyLink {
                first_rank: first,
                second_rank: second,
                bandwidth_mbps: bandwidth,
                latency_ns: 500,
            })
            .unwrap();
    }
    let ring = topology.best_ring_order().unwrap();
    let edges = (0..ring.len())
        .map(|index| {
            let first = ring[index];
            let second = ring[(index + 1) % ring.len()];
            (first.min(second), first.max(second))
        })
        .collect::<Vec<_>>();
    assert!(edges.iter().all(|edge| !matches!(edge, (0, 2) | (1, 3))));
}

#[test]
fn tuning_selects_direct_for_small_and_ring_for_large_payloads() {
    let tuning = CollectiveTuning::new(AlgorithmPolicy::Auto, 1024, vec![0, 1]).unwrap();
    assert_eq!(
        tuning.all_reduce_algorithm(1023),
        CollectiveAlgorithm::Direct
    );
    assert_eq!(tuning.all_reduce_algorithm(1024), CollectiveAlgorithm::Ring);
}

#[test]
fn auto_planner_uses_collective_specific_peer_algorithms_and_costs() {
    let tuning = CollectiveTuning::new(AlgorithmPolicy::Auto, 0, vec![0, 1, 2, 3]).unwrap();
    for kind in [
        CollectiveKind::AllReduce,
        CollectiveKind::AllGather,
        CollectiveKind::ReduceScatter,
    ] {
        let plan = tuning.plan(kind, 4 * 1024 * 1024);
        assert_eq!(plan.algorithm, CollectiveAlgorithm::Ring);
        assert!(plan.peer_estimated_time_ns.unwrap() < plan.direct_estimated_time_ns);
        assert_eq!(plan.estimated_time_ns, plan.peer_estimated_time_ns.unwrap());
    }
    let all_to_all = tuning.plan(CollectiveKind::AllToAll, 4 * 1024 * 1024);
    assert_eq!(all_to_all.algorithm, CollectiveAlgorithm::Pairwise);
    assert!(all_to_all.peer_estimated_time_ns.unwrap() < all_to_all.direct_estimated_time_ns);
}

#[test]
fn auto_planner_keeps_direct_when_peer_links_are_slower() {
    let mut topology = CollectiveTopology::empty(2).unwrap();
    topology
        .add_link(TopologyLink {
            first_rank: 0,
            second_rank: 1,
            bandwidth_mbps: 1,
            latency_ns: 1_000_000,
        })
        .unwrap();
    let tuning = CollectiveTuning::from_topology(AlgorithmPolicy::Auto, 0, topology, None)
        .unwrap()
        .with_direct_transport(100_000, 100)
        .unwrap();
    let plan = tuning.plan(CollectiveKind::AllReduce, 1024 * 1024);
    assert_eq!(plan.algorithm, CollectiveAlgorithm::Direct);
    assert!(plan.direct_estimated_time_ns < plan.peer_estimated_time_ns.unwrap());
}

#[test]
fn hierarchy_validation_requires_unique_full_rank_coverage() {
    let tuning = CollectiveTuning::new(AlgorithmPolicy::Auto, 0, vec![0, 1, 2, 3]).unwrap();
    assert!(matches!(
        tuning
            .clone()
            .with_hierarchy(vec![vec![0, 1], vec![1, 2, 3]]),
        Err(TopologyError::InvalidHierarchy(_))
    ));
    assert!(matches!(
        tuning.clone().with_hierarchy(vec![vec![0, 1], vec![2]]),
        Err(TopologyError::InvalidHierarchy(_))
    ));
    assert!(matches!(
        tuning.with_hierarchy(vec![vec![0, 1, 2, 3]]),
        Err(TopologyError::InvalidHierarchy(_))
    ));
}

#[test]
fn auto_planner_selects_hierarchy_for_fast_local_and_slow_cross_group_links() {
    let mut topology = CollectiveTopology::empty(4).unwrap();
    for first_rank in 0..4_u32 {
        for second_rank in first_rank + 1..4_u32 {
            let local = (first_rank < 2) == (second_rank < 2);
            topology
                .add_link(TopologyLink {
                    first_rank,
                    second_rank,
                    bandwidth_mbps: if local { 200_000 } else { 10_000 },
                    latency_ns: if local { 200 } else { 50_000 },
                })
                .unwrap();
        }
    }
    let tuning = CollectiveTuning::from_topology(
        AlgorithmPolicy::Auto,
        0,
        topology,
        Some(vec![0, 1, 2, 3]),
    )
    .unwrap()
    .with_direct_transport(1_000, 100_000)
    .unwrap()
    .with_hierarchy(vec![vec![0, 1], vec![2, 3]])
    .unwrap();

    for kind in [
        CollectiveKind::AllReduce,
        CollectiveKind::AllGather,
        CollectiveKind::ReduceScatter,
    ] {
        let plan = tuning.plan(kind, 16 * 1024 * 1024);
        assert_eq!(plan.algorithm, CollectiveAlgorithm::Hierarchical);
        assert!(
            plan.hierarchical_estimated_time_ns.unwrap() < plan.peer_estimated_time_ns.unwrap()
        );
        assert_eq!(
            plan.estimated_time_ns,
            plan.hierarchical_estimated_time_ns.unwrap()
        );
    }
    let all_to_all = tuning.plan(CollectiveKind::AllToAll, 16 * 1024 * 1024);
    assert_eq!(all_to_all.algorithm, CollectiveAlgorithm::Pairwise);
    assert_eq!(all_to_all.hierarchical_estimated_time_ns, None);
}

#[test]
fn inferred_hierarchy_finds_fast_domains_and_selects_low_cost_leaders() {
    let mut topology = CollectiveTopology::empty(6).unwrap();
    for first_rank in 0..6_u32 {
        for second_rank in first_rank + 1..6_u32 {
            let first_domain = first_rank / 3;
            let second_domain = second_rank / 3;
            let (bandwidth_mbps, latency_ns) = if first_domain != second_domain {
                (10_000, 50_000)
            } else if first_rank.abs_diff(second_rank) == 1 {
                (200_000, 200)
            } else {
                (120_000, 300)
            };
            topology
                .add_link(TopologyLink {
                    first_rank,
                    second_rank,
                    bandwidth_mbps,
                    latency_ns,
                })
                .unwrap();
        }
    }
    let base = CollectiveTuning::from_topology(AlgorithmPolicy::Auto, 0, topology, None)
        .unwrap()
        .with_ring_channels(2)
        .unwrap()
        .with_p2p_rails(2)
        .unwrap();
    let inferred = base
        .clone()
        .with_inferred_hierarchy(16 * 1024 * 1024)
        .unwrap();
    assert_eq!(
        inferred.hierarchy_groups(),
        Some([vec![1, 0, 2], vec![4, 3, 5]].as_slice())
    );
    for kind in [
        CollectiveKind::AllReduce,
        CollectiveKind::AllGather,
        CollectiveKind::ReduceScatter,
    ] {
        let plan = inferred.plan(kind, 16 * 1024 * 1024);
        assert_eq!(plan.algorithm, CollectiveAlgorithm::Hierarchical);
        assert!(
            plan.hierarchical_estimated_time_ns.unwrap() < plan.peer_estimated_time_ns.unwrap()
        );
    }
    let explicit = base
        .with_hierarchy(vec![vec![1, 0, 2], vec![4, 3, 5]])
        .unwrap();
    assert_eq!(
        inferred.topology_fingerprint(),
        explicit.topology_fingerprint()
    );
}

#[test]
fn inferred_hierarchy_rejects_uniform_topology_without_distinct_domains() {
    let tuning = CollectiveTuning::new(AlgorithmPolicy::Auto, 0, vec![0, 1, 2, 3]).unwrap();
    assert!(matches!(
        tuning.with_inferred_hierarchy(16 * 1024 * 1024),
        Err(TopologyError::InvalidHierarchy(message))
            if message.contains("no distinct fast-link domains")
    ));
}

#[test]
fn hierarchy_changes_the_autotune_fingerprint() {
    let tuning = CollectiveTuning::new(AlgorithmPolicy::Auto, 0, vec![0, 1, 2, 3]).unwrap();
    let flat = tuning.topology_fingerprint();
    let hierarchical = tuning
        .with_hierarchy(vec![vec![0, 1], vec![2, 3]])
        .unwrap()
        .topology_fingerprint();
    assert_ne!(flat, hierarchical);
}

#[test]
fn ring_channel_count_is_validated_without_changing_hardware_fingerprint() {
    let tuning = CollectiveTuning::new(AlgorithmPolicy::Ring, 0, vec![0, 1]).unwrap();
    assert!(matches!(
        tuning.clone().with_ring_channels(0),
        Err(TopologyError::InvalidRingChannels(0))
    ));
    assert!(matches!(
        tuning.clone().with_ring_channels(MAX_RING_CHANNELS + 1),
        Err(TopologyError::InvalidRingChannels(_))
    ));
    let original_fingerprint = tuning.topology_fingerprint();
    let tuning = tuning.with_ring_channels(4).unwrap();
    assert_eq!(tuning.ring_channels(), 4);
    assert_eq!(
        tuning.plan(CollectiveKind::AllReduce, 1024).ring_channels,
        4
    );
    assert_eq!(original_fingerprint, tuning.topology_fingerprint());
}

#[test]
fn point_to_point_rails_are_validated_and_change_hardware_fingerprint() {
    let tuning = CollectiveTuning::new(AlgorithmPolicy::Ring, 0, vec![0, 1]).unwrap();
    assert!(matches!(
        tuning.clone().with_p2p_rails(0),
        Err(TopologyError::InvalidP2pRails(0))
    ));
    assert!(matches!(
        tuning.clone().with_p2p_rails(MAX_P2P_RAILS + 1),
        Err(TopologyError::InvalidP2pRails(_))
    ));
    let original_fingerprint = tuning.topology_fingerprint();
    let single_rail_time = tuning
        .clone()
        .with_ring_channels(4)
        .unwrap()
        .plan(CollectiveKind::AllReduce, 16 * 1024 * 1024)
        .peer_estimated_time_ns
        .unwrap();
    let tuning = tuning.with_p2p_rails(4).unwrap();
    assert_eq!(tuning.p2p_rails(), 4);
    assert_ne!(original_fingerprint, tuning.topology_fingerprint());
    let four_rail_time = tuning
        .with_ring_channels(4)
        .unwrap()
        .plan(CollectiveKind::AllReduce, 16 * 1024 * 1024)
        .peer_estimated_time_ns
        .unwrap();
    assert!(four_rail_time < single_rail_time);
}

#[test]
fn tcp_peer_transport_changes_execution_but_not_hardware_fingerprint() {
    let coordinator = CollectiveTuning::new(AlgorithmPolicy::Ring, 0, vec![0, 1, 2]).unwrap();
    let peer = coordinator
        .clone()
        .with_transport(CollectiveTransport::TcpPeer)
        .unwrap();
    assert_eq!(peer.transport(), CollectiveTransport::TcpPeer);
    assert_eq!(
        coordinator.topology_fingerprint(),
        peer.topology_fingerprint()
    );
    assert_ne!(
        coordinator.execution_fingerprint(),
        peer.execution_fingerprint()
    );
}

#[test]
fn pairwise_estimate_routes_across_sparse_connected_topology() {
    let mut topology = CollectiveTopology::empty(4).unwrap();
    for (first_rank, second_rank) in [(0, 1), (1, 2), (2, 3), (3, 0)] {
        topology
            .add_link(TopologyLink {
                first_rank,
                second_rank,
                bandwidth_mbps: 50_000,
                latency_ns: 400,
            })
            .unwrap();
    }
    let tuning = CollectiveTuning::from_topology(
        AlgorithmPolicy::Ring,
        0,
        topology,
        Some(vec![0, 1, 2, 3]),
    )
    .unwrap();
    let plan = tuning.plan(CollectiveKind::AllToAll, 4096);
    assert_eq!(plan.algorithm, CollectiveAlgorithm::Pairwise);
    assert!(plan.peer_estimated_time_ns.is_some());
    assert_ne!(plan.estimated_time_ns, u64::MAX);
}

#[test]
fn autotune_profile_overrides_model_only_for_measured_ranges() {
    let tuning =
        CollectiveTuning::new(AlgorithmPolicy::Auto, 16 * 1024 * 1024, vec![0, 1]).unwrap();
    assert_eq!(
        tuning
            .plan(CollectiveKind::AllReduce, 1024 * 1024)
            .algorithm,
        CollectiveAlgorithm::Direct
    );
    let profile = CollectiveAutotuneProfile {
        version: COLLECTIVE_AUTOTUNE_PROFILE_VERSION,
        world_size: 2,
        topology_fingerprint: tuning.topology_fingerprint_hex(),
        execution_fingerprint: tuning.execution_fingerprint_hex(),
        entries: vec![CollectiveAutotuneEntry {
            operation: CollectiveKind::AllReduce,
            min_payload_bytes: 512 * 1024,
            max_payload_bytes: 2 * 1024 * 1024,
            algorithm: CollectiveAlgorithm::Ring,
            ring_channels: 3,
            measured_time_ns: 123_456,
        }],
    };
    let tuning = tuning.with_autotune_profile(profile).unwrap();
    let measured = tuning.plan(CollectiveKind::AllReduce, 1024 * 1024);
    assert_eq!(measured.algorithm, CollectiveAlgorithm::Ring);
    assert_eq!(measured.source, CollectivePlanSource::Autotune);
    assert_eq!(measured.ring_channels, 3);
    assert_eq!(measured.estimated_time_ns, 123_456);
    let unmeasured = tuning.plan(CollectiveKind::AllReduce, 4 * 1024 * 1024);
    assert_eq!(unmeasured.algorithm, CollectiveAlgorithm::Direct);
    assert_eq!(unmeasured.source, CollectivePlanSource::Model);
}

#[test]
fn probed_profile_accepts_one_adjacent_metric_bucket_but_not_a_topology_change() {
    let topology = |bandwidth_mbps, latency_ns| {
        let mut topology = CollectiveTopology::empty(2).unwrap();
        topology
            .add_link(TopologyLink {
                first_rank: 0,
                second_rank: 1,
                bandwidth_mbps,
                latency_ns,
            })
            .unwrap();
        for rail in 0..2 {
            topology
                .add_rail_link(TopologyRailLink {
                    rail,
                    first_rank: 0,
                    second_rank: 1,
                    bandwidth_mbps,
                    latency_ns,
                })
                .unwrap();
        }
        topology
    };
    let pinned =
        CollectiveTuning::from_topology(AlgorithmPolicy::Auto, 0, topology(64, 65_536), None)
            .unwrap()
            .with_transport(CollectiveTransport::TcpPeer)
            .unwrap()
            .with_p2p_rails(2)
            .unwrap();
    let profile = CollectiveAutotuneProfile {
        version: COLLECTIVE_AUTOTUNE_PROFILE_VERSION,
        world_size: 2,
        topology_fingerprint: pinned.topology_fingerprint_hex(),
        execution_fingerprint: pinned.execution_fingerprint_hex(),
        entries: vec![CollectiveAutotuneEntry {
            operation: CollectiveKind::AllReduce,
            min_payload_bytes: 0,
            max_payload_bytes: u64::MAX,
            algorithm: CollectiveAlgorithm::Ring,
            ring_channels: 1,
            measured_time_ns: 1,
        }],
    };
    let adjacent =
        CollectiveTuning::from_topology(AlgorithmPolicy::Auto, 0, topology(256, 262_144), None)
            .unwrap()
            .with_transport(CollectiveTransport::TcpPeer)
            .unwrap()
            .with_p2p_rails(2)
            .unwrap();
    assert!(
        adjacent
            .clone()
            .with_autotune_profile(profile.clone())
            .is_err()
    );
    adjacent
        .validate_autotune_profile_with_detected(
            &profile,
            Some("0-1:64:65536"),
            Some("0@0-1:64:65536,1@0-1:64:65536"),
            None,
            true,
        )
        .unwrap();

    let changed = CollectiveTuning::from_topology(
        AlgorithmPolicy::Auto,
        0,
        topology(1024, 1_048_576),
        None,
    )
    .unwrap()
    .with_transport(CollectiveTransport::TcpPeer)
    .unwrap()
    .with_p2p_rails(2)
    .unwrap();
    assert!(
        changed
            .validate_autotune_profile_with_detected(
                &profile,
                Some("0-1:64:65536"),
                Some("0@0-1:64:65536,1@0-1:64:65536"),
                None,
                true,
            )
            .is_err()
    );
}

#[test]
fn probed_profile_tolerates_adjacent_aggregate_capacity_but_requires_the_cap() {
    let topology = |aggregate_bandwidth_mbps| {
        let mut topology = CollectiveTopology::empty(2).unwrap();
        topology
            .add_link(TopologyLink {
                first_rank: 0,
                second_rank: 1,
                bandwidth_mbps: 64,
                latency_ns: 65_536,
            })
            .unwrap();
        for rail in 0..2 {
            topology
                .add_rail_link(TopologyRailLink {
                    rail,
                    first_rank: 0,
                    second_rank: 1,
                    bandwidth_mbps: 64,
                    latency_ns: 65_536,
                })
                .unwrap();
        }
        topology
            .add_aggregate_link(TopologyAggregateLink {
                first_rank: 0,
                second_rank: 1,
                bandwidth_mbps: aggregate_bandwidth_mbps,
            })
            .unwrap();
        topology
    };
    let tuning = |aggregate_bandwidth_mbps| {
        CollectiveTuning::from_topology(
            AlgorithmPolicy::Auto,
            0,
            topology(aggregate_bandwidth_mbps),
            None,
        )
        .unwrap()
        .with_transport(CollectiveTransport::TcpPeer)
        .unwrap()
        .with_p2p_rails(2)
        .unwrap()
    };
    let pinned = tuning(64);
    let profile = CollectiveAutotuneProfile {
        version: COLLECTIVE_AUTOTUNE_PROFILE_VERSION,
        world_size: 2,
        topology_fingerprint: pinned.topology_fingerprint_hex(),
        execution_fingerprint: pinned.execution_fingerprint_hex(),
        entries: vec![CollectiveAutotuneEntry {
            operation: CollectiveKind::AllReduce,
            min_payload_bytes: 0,
            max_payload_bytes: u64::MAX,
            algorithm: CollectiveAlgorithm::Ring,
            ring_channels: 2,
            measured_time_ns: 1,
        }],
    };

    let adjacent = tuning(256);
    adjacent
        .validate_autotune_profile_with_detected(
            &profile,
            Some("0-1:64:65536"),
            Some("0@0-1:64:65536,1@0-1:64:65536"),
            Some("0-1:64"),
            true,
        )
        .unwrap();
    assert!(
        adjacent
            .validate_autotune_profile_with_detected(
                &profile,
                Some("0-1:64:65536"),
                Some("0@0-1:64:65536,1@0-1:64:65536"),
                None,
                true,
            )
            .is_err()
    );
    assert!(
        tuning(1024)
            .validate_autotune_profile_with_detected(
                &profile,
                Some("0-1:64:65536"),
                Some("0@0-1:64:65536,1@0-1:64:65536"),
                Some("0-1:64"),
                true,
            )
            .is_err()
    );
}

#[test]
fn probed_profile_rejects_adjacent_metrics_when_the_preferred_rail_order_flips() {
    let topology = |first_rail_bandwidth, second_rail_bandwidth| {
        let mut topology = CollectiveTopology::empty(2).unwrap();
        topology
            .add_link(TopologyLink {
                first_rank: 0,
                second_rank: 1,
                bandwidth_mbps: 64,
                latency_ns: 65_536,
            })
            .unwrap();
        for (rail, bandwidth_mbps) in [(0, first_rail_bandwidth), (1, second_rail_bandwidth)] {
            topology
                .add_rail_link(TopologyRailLink {
                    rail,
                    first_rank: 0,
                    second_rank: 1,
                    bandwidth_mbps,
                    latency_ns: 65_536,
                })
                .unwrap();
        }
        topology
    };
    let pinned =
        CollectiveTuning::from_topology(AlgorithmPolicy::Auto, 0, topology(64, 256), None)
            .unwrap()
            .with_transport(CollectiveTransport::TcpPeer)
            .unwrap()
            .with_p2p_rails(2)
            .unwrap();
    assert_eq!(pinned.rail_order(), vec![1, 0]);
    let profile = CollectiveAutotuneProfile {
        version: COLLECTIVE_AUTOTUNE_PROFILE_VERSION,
        world_size: 2,
        topology_fingerprint: pinned.topology_fingerprint_hex(),
        execution_fingerprint: pinned.execution_fingerprint_hex(),
        entries: vec![CollectiveAutotuneEntry {
            operation: CollectiveKind::AllReduce,
            min_payload_bytes: 0,
            max_payload_bytes: u64::MAX,
            algorithm: CollectiveAlgorithm::Ring,
            ring_channels: 2,
            measured_time_ns: 1,
        }],
    };

    let current =
        CollectiveTuning::from_topology(AlgorithmPolicy::Auto, 0, topology(256, 64), None)
            .unwrap()
            .with_transport(CollectiveTransport::TcpPeer)
            .unwrap()
            .with_p2p_rails(2)
            .unwrap();
    assert_eq!(current.rail_order(), vec![0, 1]);
    assert!(
        current
            .validate_autotune_profile_with_detected(
                &profile,
                Some("0-1:64:65536"),
                Some("0@0-1:64:65536,1@0-1:256:65536"),
                None,
                true,
            )
            .is_err()
    );
}

#[test]
fn autotune_profile_rejects_stale_overlapping_and_wrong_algorithm_entries() {
    let tuning = CollectiveTuning::new(AlgorithmPolicy::Auto, 0, vec![0, 1]).unwrap();
    let entry = CollectiveAutotuneEntry {
        operation: CollectiveKind::AllReduce,
        min_payload_bytes: 0,
        max_payload_bytes: 1024,
        algorithm: CollectiveAlgorithm::Ring,
        ring_channels: 1,
        measured_time_ns: 100,
    };
    let profile = |fingerprint: String, entries: Vec<CollectiveAutotuneEntry>| {
        CollectiveAutotuneProfile {
            version: COLLECTIVE_AUTOTUNE_PROFILE_VERSION,
            world_size: 2,
            topology_fingerprint: fingerprint,
            execution_fingerprint: tuning.execution_fingerprint_hex(),
            entries,
        }
    };
    assert!(matches!(
        tuning
            .clone()
            .with_autotune_profile(profile("0000000000000000".into(), vec![entry])),
        Err(TopologyError::InvalidProfile(_))
    ));
    let mut wrong_execution = profile(tuning.topology_fingerprint_hex(), vec![entry]);
    wrong_execution.execution_fingerprint = "0000000000000000".into();
    assert!(matches!(
        tuning.clone().with_autotune_profile(wrong_execution),
        Err(TopologyError::InvalidProfile(_))
    ));
    assert!(matches!(
        tuning.clone().with_autotune_profile(profile(
            tuning.topology_fingerprint_hex(),
            vec![
                entry,
                CollectiveAutotuneEntry {
                    min_payload_bytes: 1024,
                    max_payload_bytes: 2048,
                    ..entry
                },
            ]
        )),
        Err(TopologyError::InvalidProfile(_))
    ));
    let profiled = tuning
        .clone()
        .with_autotune_profile(profile(tuning.topology_fingerprint_hex(), vec![entry]))
        .unwrap();
    assert!(matches!(
        profiled.with_transport(CollectiveTransport::HostStaged),
        Err(TopologyError::InvalidProfile(_))
    ));
    assert!(matches!(
        tuning.clone().with_autotune_profile(profile(
            tuning.topology_fingerprint_hex(),
            vec![CollectiveAutotuneEntry {
                operation: CollectiveKind::AllToAll,
                algorithm: CollectiveAlgorithm::Ring,
                ..entry
            }]
        )),
        Err(TopologyError::InvalidProfile(_))
    ));
    assert!(matches!(
        tuning.clone().with_autotune_profile(profile(
            tuning.topology_fingerprint_hex(),
            vec![CollectiveAutotuneEntry {
                algorithm: CollectiveAlgorithm::Hierarchical,
                ..entry
            }]
        )),
        Err(TopologyError::InvalidProfile(_))
    ));
}

#[test]
fn duplicate_rank_is_rejected() {
    assert!(matches!(
        CollectiveTuning::new(AlgorithmPolicy::Ring, 0, vec![0, 0]),
        Err(TopologyError::InvalidRing(_))
    ));
}

#[test]
fn absent_settings_give_the_uniform_tuning() {
    let absent = TuningVariables {
        algorithm: Variable::Absent,
        ring_threshold: Variable::Absent,
        ring_channels: Variable::Absent,
        p2p_rails: Variable::Absent,
        direct_bandwidth: Variable::Absent,
        direct_latency: Variable::Absent,
        transport: Variable::Absent,
        links: Variable::Absent,
        rail_links: Variable::Absent,
        aggregate_links: Variable::Absent,
        rail_order: Variable::Absent,
        ring_order: Variable::Absent,
        groups: Variable::Absent,
        group_payload: Variable::Absent,
    };
    let tuning = CollectiveTuning::from_environment(12, &absent).unwrap();
    assert_eq!(tuning.topology, CollectiveTopology::uniform(12).unwrap());
    assert_eq!(tuning.ring_order, (0..12).collect::<Vec<u32>>());
    assert_eq!((tuning.ring_channels, tuning.p2p_rails), (1, 1));
    assert_eq!(tuning.transport, CollectiveTransport::TcpHostStaged);
    assert!(matches!(
        CollectiveTuning::from_environment(0, &absent),
        Err(TopologyError::EmptyWorld)
    ));
    let built = CollectiveTuning::from_topology(
        AlgorithmPolicy::Auto,
        256 * 1024,
        CollectiveTopology::uniform(12).unwrap(),
        None,
    )
    .unwrap();
    assert_eq!(tuning.ring_threshold_bytes, built.ring_threshold_bytes);
    assert_eq!(tuning.ring_order, built.ring_order);
    assert_eq!(tuning.ring_orders, built.ring_orders);
    assert_eq!(tuning.topology_fingerprint(), built.topology_fingerprint());
}

#[test]
fn fewer_rings_are_the_first_of_more_and_use_their_own_links() {
    let topology = CollectiveTopology::uniform(5).unwrap();
    let all = topology.best_ring_orders(64).unwrap();
    assert_eq!(all.len(), 12);
    assert_eq!(topology.best_ring_orders(3).unwrap(), all[..3].to_vec());
    for (index, ring) in all.iter().enumerate() {
        for other in &all[index + 1..] {
            assert_ne!(ring_edges(ring), ring_edges(other));
        }
    }
}

#[test]
fn an_added_link_is_listed_in_order() {
    let mut topology = CollectiveTopology::empty(4).unwrap();
    let link = |first_rank, second_rank, bandwidth_mbps| TopologyLink {
        first_rank,
        second_rank,
        bandwidth_mbps,
        latency_ns: 5,
    };
    topology.add_link(link(2, 3, 7)).unwrap();
    topology.add_link(link(1, 0, 9)).unwrap();
    assert_eq!(topology.links(), vec![link(0, 1, 9), link(2, 3, 7)]);
    topology.add_link(link(3, 2, 8)).unwrap();
    topology.add_link(link(0, 3, 1)).unwrap();
    let listed = vec![link(0, 1, 9), link(0, 3, 1), link(2, 3, 8)];
    assert_eq!(topology.links(), listed);
    assert!(topology.add_link(link(1, 1, 1)).is_err());
    assert_eq!(topology.links(), listed);
}

#[test]
fn every_transport_has_its_own_execution_fingerprint() {
    let tuning = CollectiveTuning::new(AlgorithmPolicy::Auto, 0, vec![0, 1]).unwrap();
    let mut seen = Vec::new();
    for transport in [
        CollectiveTransport::HostStaged,
        CollectiveTransport::TcpHostStaged,
        CollectiveTransport::TcpPeer,
        CollectiveTransport::PciePeer,
        CollectiveTransport::Rdma,
        CollectiveTransport::GxLink,
    ] {
        let moved = tuning.clone().with_transport(transport).unwrap();
        assert!(!seen.contains(&moved.execution_fingerprint()));
        seen.push(moved.execution_fingerprint());
    }
    let two = tuning.clone().with_p2p_rails(2).unwrap();
    let three = tuning.with_p2p_rails(3).unwrap();
    assert_ne!(two.topology_fingerprint(), three.topology_fingerprint());
}

#[test]
fn no_closed_ring_beats_the_first_one_offered() {
    let mut topology = CollectiveTopology::empty(5).unwrap();
    let mut bandwidths = vec![vec![0u64; 5]; 5];
    for first in 0..5u32 {
        for second in first + 1..5 {
            let bandwidth = 1_000 + u64::from((first * 7 + second * 13) % 11) * 100;
            bandwidths[first as usize][second as usize] = bandwidth;
            bandwidths[second as usize][first as usize] = bandwidth;
            topology
                .add_link(TopologyLink {
                    first_rank: first,
                    second_rank: second,
                    bandwidth_mbps: bandwidth,
                    latency_ns: 100,
                })
                .unwrap();
        }
    }
    let score = |ring: &[u32]| {
        let links: Vec<u64> = (0..ring.len())
            .map(|index| {
                let next = ring[(index + 1) % ring.len()] as usize;
                bandwidths[ring[index] as usize][next]
            })
            .collect();
        (*links.iter().min().unwrap(), links.iter().sum::<u64>())
    };
    let best = topology.best_ring_order().unwrap();
    assert_eq!(best[0], 0);
    let mut rings: Vec<Vec<u32>> = vec![Vec::new()];
    for _ in 0..5 {
        rings = rings
            .into_iter()
            .flat_map(|ring| {
                (0..5u32).filter(|rank| !ring.contains(rank)).map(|rank| {
                    let mut longer = ring.clone();
                    longer.push(rank);
                    longer
                }).collect::<Vec<_>>()
            })
            .collect();
    }
    assert_eq!(rings.len(), 120);
    for ring in &rings {
        assert!(score(ring) <= score(&best));
    }
}

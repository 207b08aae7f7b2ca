//! Probe measurements.

use ruccl::rank::network::probe::{
    conservative_probe_bandwidth_bucket, conservative_probe_latency_bucket,
};

#[test]
fn topology_probe_metrics_use_stable_conservative_buckets() {
    assert_eq!(conservative_probe_bandwidth_bucket(1), 1);
    assert_eq!(conservative_probe_bandwidth_bucket(63), 16);
    assert_eq!(conservative_probe_bandwidth_bucket(64), 64);
    assert_eq!(conservative_probe_bandwidth_bucket(255), 64);
    assert_eq!(conservative_probe_bandwidth_bucket(256), 256);
    assert_eq!(conservative_probe_latency_bucket(1), 4);
    assert_eq!(conservative_probe_latency_bucket(32_769), 65_536);
    assert_eq!(conservative_probe_latency_bucket(65_535), 65_536);
    assert_eq!(conservative_probe_latency_bucket(65_536), 262_144);
}

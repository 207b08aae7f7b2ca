//! What measurements are worth: medians, latencies and bandwidths.

use crate::math::{max_int, saturate_u128};
use crate::rank::network::probe::{
    bucket, latency_bucket, law_bucket, measured_link, median_of, megabytes_per_second,
    options_defect, options_of, value_leq, TopologyProbeOptions,
};
use crate::rank::topology::parse::VariableModel;
use vstd::arithmetic::div_mod::*;
use vstd::prelude::*;
use vstd::relations::*;
use vstd::seq_lib::*;

verus! {

/// One more where a value is wanted.
pub open spec fn counting(wanted: spec_fn(u64) -> bool) -> spec_fn(int, u64) -> int {
    |count: int, value: u64|
        if wanted(value) {
            count + 1
        } else {
            count
        }
}

/// How many values are wanted.
pub open spec fn how_many(values: Seq<u64>, wanted: spec_fn(u64) -> bool) -> int {
    values.fold_left(0int, counting(wanted))
}

proof fn lemma_counted(values: Seq<u64>, wanted: spec_fn(u64) -> bool, end: int)
    requires
        0 <= end <= values.len(),
    ensures
        0 <= how_many(values, wanted) <= values.len(),
        (forall|i: int| 0 <= i < end ==> wanted(#[trigger] values[i])) ==> end <= how_many(
            values,
            wanted,
        ),
        (forall|i: int| end <= i < values.len() ==> !wanted(#[trigger] values[i])) ==> how_many(
            values,
            wanted,
        ) <= end,
    decreases values.len(),
{
    if values.len() > 0 {
        let shorter = values.drop_last();
        assert(values.last() == values[values.len() - 1]);
        if end == values.len() {
            lemma_counted(shorter, wanted, end - 1);
            if forall|i: int| 0 <= i < end ==> wanted(#[trigger] values[i]) {
                assert forall|i: int| 0 <= i < end - 1 implies wanted(#[trigger] shorter[i]) by {
                    assert(shorter[i] == values[i]);
                }
            }
        } else {
            lemma_counted(shorter, wanted, end);
            if forall|i: int| 0 <= i < end ==> wanted(#[trigger] values[i]) {
                assert forall|i: int| 0 <= i < end implies wanted(#[trigger] shorter[i]) by {
                    assert(shorter[i] == values[i]);
                }
            }
            if forall|i: int| end <= i < values.len() ==> !wanted(#[trigger] values[i]) {
                assert forall|i: int| end <= i < shorter.len() implies !wanted(
                    #[trigger] shorter[i],
                ) by {
                    assert(shorter[i] == values[i]);
                }
            }
        }
    }
}

/// The median is one of the samples. At most half of the samples are below it,
/// and more than half are not above it.
pub proof fn law_median(samples: Seq<u64>)
    requires
        samples.len() > 0,
    ensures
        samples.contains(median_of(samples)),
        how_many(samples, |sample: u64| sample < median_of(samples)) <= samples.len() as int / 2,
        samples.len() as int / 2 < how_many(samples, |sample: u64| sample <= median_of(samples)),
{
    let sorted = samples.sort_by(value_leq());
    let half = samples.len() as int / 2;
    let middle = median_of(samples);
    let below = |sample: u64| sample < middle;
    let within = |sample: u64| sample <= middle;
    assert(total_ordering(value_leq()));
    samples.lemma_sort_by_ensures(value_leq());
    samples.to_multiset_ensures();
    sorted.to_multiset_ensures();
    assert(sorted.len() == samples.len());
    assert(sorted[half] == middle);
    assert(sorted.contains(middle));
    assert(sorted.to_multiset().contains(middle));
    assert(samples.contains(middle));
    lemma_fold_left_permutation(samples, sorted, counting(below), 0int);
    lemma_fold_left_permutation(samples, sorted, counting(within), 0int);
    assert forall|i: int| half <= i < sorted.len() implies !below(#[trigger] sorted[i]) by {
        if half < i {
            assert(value_leq()(sorted[half], sorted[i]));
        }
    }
    assert forall|i: int| 0 <= i < half + 1 implies within(#[trigger] sorted[i]) by {
        if i < half {
            assert(value_leq()(sorted[i], sorted[half]));
        }
    }
    lemma_counted(sorted, below, half);
    lemma_counted(sorted, within, half + 1);
}

/// The time that a transfer took without the round trip, at least a nanosecond.
/// A round trip is twice the latency, unless none was measured at all.
pub open spec fn time_under_way(round_trip: u64, latency: u64, elapsed: u64) -> int {
    max_int(
        if round_trip == 0 {
            elapsed as int
        } else {
            elapsed - 2 * latency
        },
        1,
    )
}

/// A bandwidth is what the bytes and the time say, rounded down, but at least one
/// megabyte per second.
pub open spec fn carries_in(bandwidth: u64, bytes: int, time: int) -> bool {
    &&& 1 <= bandwidth
    &&& 1 < bandwidth ==> bandwidth * time <= bytes * 1000
    &&& bandwidth < u64::MAX ==> bytes * 1000 < (bandwidth + 1) * time
}

proof fn lemma_bandwidth(bytes: u128, nanoseconds: u64)
    requires
        bytes * 1000 <= u128::MAX,
    ensures
        carries_in(
            megabytes_per_second(bytes, nanoseconds),
            bytes as int,
            max_int(nanoseconds as int, 1),
        ),
{
    let time = max_int(nanoseconds as int, 1);
    let moved = bytes * 1000;
    let rate = moved / time;
    lemma_fundamental_div_mod(moved, time);
    lemma_mod_bound(moved, time);
    assert(time * rate == rate * time) by (nonlinear_arith);
    assert((rate + 1) * time == rate * time + time) by (nonlinear_arith);
    assert(0 <= rate) by {
        lemma_div_pos_is_pos(moved, time);
    }
    let bandwidth = megabytes_per_second(bytes, nanoseconds);
    if rate >= u64::MAX {
        assert(bandwidth == u64::MAX);
        assert(bandwidth * time <= rate * time) by (nonlinear_arith)
            requires
                bandwidth <= rate,
                time > 0,
        ;
    } else if rate == 0 {
        assert(bandwidth == 1);
        assert((bandwidth + 1) * time >= time) by (nonlinear_arith)
            requires
                bandwidth == 1,
                time >= 1,
        ;
    } else {
        assert(bandwidth == rate);
    }
}

/// The latency of a link is half the median round trip, rounded up and at least
/// one nanosecond. The payload took the median time without the round trip, and
/// the bandwidth is what was carried in that time.
pub proof fn law_link_measures_what_was_carried(
    latencies: Seq<u64>,
    times: Seq<u64>,
    payload: usize,
)
    requires
        latencies.len() > 0,
        times.len() > 0,
    ensures
        ({
            let trip = median_of(latencies);
            let probe = measured_link(latencies, times, payload);
            &&& trip == 0 ==> probe.latency_ns == 1
            &&& 0 < trip < u64::MAX ==> trip <= 2 * probe.latency_ns <= trip + 1
            &&& trip == u64::MAX ==> 2 * probe.latency_ns == trip - 1
            &&& carries_in(
                probe.bandwidth_mbps,
                payload as int,
                time_under_way(trip, probe.latency_ns, median_of(times)),
            )
        }),
{
    let trip = median_of(latencies);
    let probe = measured_link(latencies, times, payload);
    let left = time_under_way(trip, probe.latency_ns, median_of(times));
    let elapsed = median_of(times);
    assert(payload * 1000 <= u128::MAX);
    lemma_bandwidth(
        payload as u128,
        if trip == 0 {
            elapsed
        } else if elapsed > 2 * probe.latency_ns {
            (elapsed - 2 * probe.latency_ns) as u64
        } else {
            0
        },
    );
}

proof fn lemma_slower(bytes: int, more: int, time: int, longer: int, fast: u64, slow: u64)
    requires
        0 <= bytes <= more,
        0 < time <= longer,
        carries_in(fast, more, time),
        carries_in(slow, bytes, longer),
    ensures
        slow <= fast,
{
    if slow > fast {
        assert((fast + 1) * time <= slow * longer) by (nonlinear_arith)
            requires
                0 < time <= longer,
                fast + 1 <= slow,
        ;
    }
}

/// With the same latencies, a longer transfer of no more bytes never measures a
/// higher bandwidth.
pub proof fn law_longer_transfers_are_no_faster(
    latencies: Seq<u64>,
    times: Seq<u64>,
    longer: Seq<u64>,
    payload: usize,
    more: usize,
)
    requires
        latencies.len() > 0,
        times.len() > 0,
        longer.len() > 0,
        median_of(times) <= median_of(longer),
        payload <= more,
    ensures
        measured_link(latencies, longer, payload).bandwidth_mbps <= measured_link(
            latencies,
            times,
            more,
        ).bandwidth_mbps,
        measured_link(latencies, longer, payload).latency_ns == measured_link(
            latencies,
            times,
            more,
        ).latency_ns,
{
    law_link_measures_what_was_carried(latencies, times, more);
    law_link_measures_what_was_carried(latencies, longer, payload);
    let latency = measured_link(latencies, times, more).latency_ns;
    let trip = median_of(latencies);
    lemma_slower(
        payload as int,
        more as int,
        time_under_way(trip, latency, median_of(times)),
        time_under_way(trip, latency, median_of(longer)),
        measured_link(latencies, times, more).bandwidth_mbps,
        measured_link(latencies, longer, payload).bandwidth_mbps,
    );
}

/// Where a payload is under way for twice the time, the bandwidth is half, down to
/// one megabyte per second.
pub proof fn law_twice_the_time_is_half_the_bandwidth(
    latencies: Seq<u64>,
    times: Seq<u64>,
    longer: Seq<u64>,
    payload: usize,
)
    requires
        latencies.len() > 0,
        times.len() > 0,
        longer.len() > 0,
        measured_link(latencies, times, payload).bandwidth_mbps < u64::MAX,
        ({
            let trip = median_of(latencies);
            let latency = measured_link(latencies, times, payload).latency_ns;
            time_under_way(trip, latency, median_of(longer)) == 2 * time_under_way(
                trip,
                latency,
                median_of(times),
            )
        }),
    ensures
        measured_link(latencies, longer, payload).bandwidth_mbps == max_int(
            measured_link(latencies, times, payload).bandwidth_mbps as int / 2,
            1,
        ),
{
    law_link_measures_what_was_carried(latencies, times, payload);
    law_link_measures_what_was_carried(latencies, longer, payload);
    let latency = measured_link(latencies, times, payload).latency_ns;
    let time = time_under_way(median_of(latencies), latency, median_of(times));
    let fast = measured_link(latencies, times, payload).bandwidth_mbps as int;
    let slow = measured_link(latencies, longer, payload).bandwidth_mbps as int;
    let moved = payload * 1000;
    lemma_slower(
        payload as int,
        payload as int,
        time,
        2 * time,
        fast as u64,
        slow as u64,
    );
    assert(1 < slow ==> slow * (2 * time) < (fast + 1) * time);
    assert(1 < slow ==> 2 * slow < fast + 1) by (nonlinear_arith)
        requires
            1 < slow ==> slow * (2 * time) < (fast + 1) * time,
            0 < time,
    ;
    assert(1 < fast ==> fast * time < (slow + 1) * (2 * time));
    assert(1 < fast ==> fast < 2 * (slow + 1)) by (nonlinear_arith)
        requires
            1 < fast ==> fast * time < (slow + 1) * (2 * time),
            0 < time,
    ;
}

/// What all rails carry together is every rail's payload in the median time.
pub proof fn law_rails_carry_together(times: Seq<u64>, payload: usize, rails: usize)
    requires
        times.len() > 0,
        payload * rails * 1000 <= u128::MAX,
    ensures
        carries_in(
            megabytes_per_second(
                saturate_u128(payload * rails),
                median_of(times),
            ),
            payload * rails,
            max_int(median_of(times) as int, 1),
        ),
{
    assert(0 <= payload * rails) by (nonlinear_arith);
    lemma_bandwidth(saturate_u128(payload * rails), median_of(times));
}

/// A setting that is absent has its default, whatever the others say: a probe sends
/// a mebibyte three times and measures the latency sixteen times, each after one
/// round that does not count.
pub proof fn law_absent_options_have_defaults(
    payload: VariableModel,
    latency: VariableModel,
    bandwidth: VariableModel,
    warmup: VariableModel,
)
    ensures
        options_of(payload, latency, bandwidth, warmup) matches Ok(options) ==> {
            &&& payload is Absent ==> options.payload_bytes == 1024 * 1024
            &&& latency is Absent ==> options.latency_iterations == 16
            &&& bandwidth is Absent ==> options.bandwidth_iterations == 3
            &&& warmup is Absent ==> options.warmup_iterations == 1
        },
        payload is Absent && latency is Absent && bandwidth is Absent && warmup is Absent
            ==> options_of(payload, latency, bandwidth, warmup) is Ok,
{
}

/// A probe's options can be used where it sends something that fits a frame, up to a
/// gibibyte, measures everything at least once and nothing more than ten thousand
/// times.
pub proof fn law_usable_options(options: TopologyProbeOptions)
    ensures
        options_defect(options) is None <==> {
            &&& 0 < options.payload_bytes <= 1073741824
            &&& 0 < options.latency_iterations <= 10_000
            &&& 0 < options.bandwidth_iterations <= 10_000
            &&& options.warmup_iterations <= 10_000
        },
{
}

/// What a measurement stands for is cautious: a bandwidth is never rated above what
/// was measured, nor a fourth of it or less, and a latency is rated above what was
/// measured, by at most four times. Larger measurements are never rated lower.
pub proof fn law_ratings_are_cautious(value: u64, larger: u64)
    requires
        0 < value <= larger,
    ensures
        bucket(value) <= value < 4 * bucket(value),
        latency_bucket(value) < u64::MAX ==> value < latency_bucket(value) <= 4 * value,
        bucket(value) <= bucket(larger),
        latency_bucket(value) <= latency_bucket(larger),
    decreases value,
{
    law_bucket(value);
    law_bucket(larger);
    if value >= 4 {
        law_ratings_are_cautious((value / 4) as u64, (larger / 4) as u64);
        law_bucket((value / 4) as u64);
        law_bucket((larger / 4) as u64);
    }
}

} // verus!

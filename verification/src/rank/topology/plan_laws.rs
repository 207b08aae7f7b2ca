//! What plans and estimates keep to.

use crate::math::{ceiling_div, saturate_u128, saturate_u64};
use crate::rank::topology::links::LinkCost;
use crate::rank::topology::paths::{link_time, transfer_time, wide_transfer_time};
use crate::rank::topology::tuning::TuningModel;
use crate::rank::topology::{
    AlgorithmPolicy, CollectiveAutotuneEntry, CollectiveKind, CollectivePlan,
    CollectivePlanSource,
};
use crate::rank::CollectiveAlgorithm;
use vstd::arithmetic::div_mod::*;
use vstd::arithmetic::mul::*;
use vstd::prelude::*;

verus! {

/// A profile has nothing on collectives of this kind and size.
pub open spec fn unmeasured(tuning: TuningModel, kind: CollectiveKind, payload: usize) -> bool {
    tuning.autotune_profile matches Some(profile) ==> forall|i: int|
        0 <= i < profile.entries.len() ==> !({
            let entry = #[trigger] profile.entries[i];
            &&& entry.operation == kind
            &&& entry.min_payload_bytes <= payload <= entry.max_payload_bytes
        })
}

/// A plan's own estimate for its algorithm.
pub open spec fn own_estimate(plan: CollectivePlan) -> Option<u64> {
    match plan.algorithm {
        CollectiveAlgorithm::Direct => Some(plan.direct_estimated_time_ns),
        CollectiveAlgorithm::Ring => plan.peer_estimated_time_ns,
        CollectiveAlgorithm::Pairwise => plan.peer_estimated_time_ns,
        CollectiveAlgorithm::Hierarchical => plan.hierarchical_estimated_time_ns,
    }
}

proof fn lemma_unmeasured(
    entries: Seq<CollectiveAutotuneEntry>,
    kind: CollectiveKind,
    payload: usize,
    from: int,
)
    requires
        0 <= from,
        forall|i: int|
            0 <= i < entries.len() ==> !({
                let entry = #[trigger] entries[i];
                &&& entry.operation == kind
                &&& entry.min_payload_bytes <= payload <= entry.max_payload_bytes
            }),
    ensures
        TuningModel::measured_from(entries, kind, payload, from) is None,
    decreases entries.len() - from,
{
    if from < entries.len() {
        lemma_unmeasured(entries, kind, payload, from + 1);
    }
}

/// An automatic plan that nothing has been measured for, and that is large enough
/// for peers, takes the algorithm with the least estimate: what it expects is its
/// algorithm's estimate, and none of the others is below it. Of equal estimates
/// the direct one comes first and the hierarchical one last.
pub proof fn law_automatic_plans_are_fastest(
    tuning: TuningModel,
    kind: CollectiveKind,
    payload: usize,
)
    requires
        tuning.algorithm_policy == AlgorithmPolicy::Auto,
        unmeasured(tuning, kind, payload),
        tuning.ring_threshold_bytes <= payload,
    ensures
        ({
            let plan = tuning.plan(kind, payload);
            let time = plan.estimated_time_ns;
            &&& plan.source == CollectivePlanSource::Model
            &&& plan.ring_channels == tuning.ring_channels
            &&& own_estimate(plan) == Some(time)
            &&& time <= plan.direct_estimated_time_ns
            &&& plan.peer_estimated_time_ns matches Some(peer) ==> time <= peer
            &&& plan.hierarchical_estimated_time_ns matches Some(grouped) ==> time <= grouped
            &&& time == plan.direct_estimated_time_ns ==> plan.algorithm
                == CollectiveAlgorithm::Direct
            &&& plan.algorithm == CollectiveAlgorithm::Hierarchical
                ==> plan.peer_estimated_time_ns != Some(time)
        }),
{
    if let Some(profile) = tuning.autotune_profile {
        lemma_unmeasured(profile.entries, kind, payload, 0);
    }
}

/// An automatic plan for less than the threshold, where nothing has been measured,
/// runs over the coordinator.
pub proof fn law_small_plans_are_direct(
    tuning: TuningModel,
    kind: CollectiveKind,
    payload: usize,
)
    requires
        tuning.algorithm_policy == AlgorithmPolicy::Auto,
        unmeasured(tuning, kind, payload),
        payload < tuning.ring_threshold_bytes,
    ensures
        tuning.plan(kind, payload).algorithm == CollectiveAlgorithm::Direct,
        tuning.plan(kind, payload).source == CollectivePlanSource::Model,
        own_estimate(tuning.plan(kind, payload)) == Some(
            tuning.plan(kind, payload).estimated_time_ns,
        ),
{
    if let Some(profile) = tuning.autotune_profile {
        lemma_unmeasured(profile.entries, kind, payload, 0);
    }
}

/// A policy other than the automatic one decides for every collective and size:
/// `Direct` for the coordinator, `Ring` for peers, and `Hierarchical` for groups
/// where the collective can run over them and for peers elsewhere. Peers exchange
/// all-to-all in pairs and everything else round rings. A rank on its own needs
/// neither.
pub proof fn law_policies_are_obeyed(tuning: TuningModel, kind: CollectiveKind, payload: usize)
    ensures
        ({
            let plan = tuning.plan(kind, payload);
            let policy = tuning.algorithm_policy;
            let alone = tuning.ring_order.len() <= 1;
            &&& alone || policy == AlgorithmPolicy::Direct ==> plan.algorithm
                == CollectiveAlgorithm::Direct
            &&& !alone && policy == AlgorithmPolicy::Ring && kind == CollectiveKind::AllToAll
                ==> plan.algorithm == CollectiveAlgorithm::Pairwise
            &&& !alone && policy == AlgorithmPolicy::Ring && kind != CollectiveKind::AllToAll
                ==> plan.algorithm == CollectiveAlgorithm::Ring
            &&& !alone && policy == AlgorithmPolicy::Hierarchical
                && plan.hierarchical_estimated_time_ns is Some ==> plan.algorithm
                == CollectiveAlgorithm::Hierarchical
            &&& !alone && policy == AlgorithmPolicy::Hierarchical
                && plan.hierarchical_estimated_time_ns is None ==> plan.algorithm == (if kind
                == CollectiveKind::AllToAll {
                CollectiveAlgorithm::Pairwise
            } else {
                CollectiveAlgorithm::Ring
            })
            &&& policy != AlgorithmPolicy::Auto ==> {
                &&& plan.source == CollectivePlanSource::Policy
                &&& plan.ring_channels == tuning.ring_channels
                &&& own_estimate(plan) matches Some(time) ==> plan.estimated_time_ns == time
            }
            &&& kind == CollectiveKind::AllToAll || tuning.hierarchy_groups is None
                ==> plan.hierarchical_estimated_time_ns is None
            &&& alone ==> {
                &&& plan.direct_estimated_time_ns == 0
                &&& plan.peer_estimated_time_ns == Some(0u64)
            }
        }),
{
}

proof fn lemma_wide_time(bytes: u128, bandwidth: u64)
    requires
        0 < bandwidth,
        wide_transfer_time(bytes, bandwidth) < u64::MAX,
    ensures
        bytes < u128::MAX,
        bytes * 1000 <= wide_transfer_time(bytes, bandwidth) * bandwidth < bytes * 1000 + bandwidth,
{
    let time = wide_transfer_time(bytes, bandwidth) as int;
    let rate = bandwidth as int;
    let most = u128::MAX as int;
    if bytes * 1000 + (bandwidth - 1) >= most {
        assert(time == most / rate);
        lemma_fundamental_div_mod(most, rate);
        lemma_mod_bound(most, rate);
        assert(false) by (nonlinear_arith)
            requires
                most == rate * time + most % rate,
                most % rate < rate,
                0 < rate <= 0xffff_ffff_ffff_ffff,
                0 <= time < 0xffff_ffff_ffff_ffff,
                most == 0xffff_ffff_ffff_ffff_ffff_ffff_ffff_ffff,
        ;
    }
    let moved = bytes * 1000 + (bandwidth - 1);
    assert(time == moved / rate);
    lemma_fundamental_div_mod(moved, rate);
    lemma_mod_bound(moved, rate);
    lemma_mul_is_commutative(rate, time);
}

/// Bytes take the time that the bandwidth says, rounded up to a nanosecond, and over
/// a link they are late by its latency.
pub proof fn law_transfer_time(cost: LinkCost, bytes: int)
    requires
        0 <= bytes,
        0 < cost.bandwidth_mbps,
        link_time(cost, bytes) < u64::MAX,
    ensures
        ({
            let moving = link_time(cost, bytes) - cost.latency_ns;
            &&& transfer_time(bytes, cost.bandwidth_mbps as int) == moving
            &&& bytes * 1000 <= moving * cost.bandwidth_mbps < bytes * 1000 + cost.bandwidth_mbps
        }),
{
    let rate = cost.bandwidth_mbps as int;
    let quotient = bytes * 1000 / rate;
    lemma_fundamental_div_mod(bytes * 1000, rate);
    lemma_mod_bound(bytes * 1000, rate);
    lemma_div_pos_is_pos(bytes * 1000, rate);
    lemma_mul_is_commutative(rate, quotient);
    assert((quotient + 1) * rate == quotient * rate + rate) by (nonlinear_arith);
    assert(transfer_time(bytes, rate) == ceiling_div(bytes * 1000, rate));
}

/// Over the coordinator every rank sends its payload and is answered: as much in
/// an all-reduce or an all-to-all, every rank's payload in an all-gather and its
/// share, rounded up, in a reduce-scatter. All of these bytes share the direct
/// bandwidth, in time rounded up, and every rank waits for the latency twice.
pub proof fn law_direct_estimate(
    tuning: TuningModel,
    kind: CollectiveKind,
    payload: usize,
    answer: int,
)
    requires
        1 < tuning.ring_order.len(),
        0 < tuning.direct_bandwidth_mbps,
        tuning.direct_estimate(kind, payload) < u64::MAX,
        0 <= answer,
        match kind {
            CollectiveKind::AllReduce | CollectiveKind::AllToAll => answer == payload,
            CollectiveKind::AllGather => answer == payload * tuning.ring_order.len(),
            CollectiveKind::ReduceScatter => payload <= answer * tuning.ring_order.len() < payload
                + tuning.ring_order.len(),
        },
    ensures
        ({
            let ranks = tuning.ring_order.len() as int;
            let moving = tuning.direct_estimate(kind, payload) - 2 * tuning.direct_latency_ns
                * ranks;
            let bytes = ranks * (payload + answer);
            bytes * 1000 <= moving * tuning.direct_bandwidth_mbps < bytes * 1000
                + tuning.direct_bandwidth_mbps
        }),
{
    let ranks = tuning.ring_order.len() as int;
    let bandwidth = tuning.direct_bandwidth_mbps;
    let response = match kind {
        CollectiveKind::AllReduce | CollectiveKind::AllToAll => payload as int,
        CollectiveKind::AllGather => saturate_u128(payload * ranks) as int,
        CollectiveKind::ReduceScatter => ceiling_div(payload as int, ranks),
    };
    if kind == CollectiveKind::ReduceScatter {
        lemma_fundamental_div_mod(payload as int, ranks);
        lemma_mod_bound(payload as int, ranks);
        let quotient = payload as int / ranks;
        assert(response * ranks >= payload && response * ranks < payload + ranks) by {
            if payload as int % ranks == 0 {
                lemma_mul_is_commutative(ranks, quotient);
            } else {
                assert((quotient + 1) * ranks == ranks * quotient + ranks) by (nonlinear_arith);
            }
        }
        assert(response == answer) by (nonlinear_arith)
            requires
                payload <= response * ranks < payload + ranks,
                payload <= answer * ranks < payload + ranks,
                0 < ranks,
        ;
    }
    let both = saturate_u128(payload + response);
    assert(0 <= payload * ranks) by (nonlinear_arith)
        requires
            0 < ranks,
    ;
    assert(0 <= response);
    assert(0 <= ranks * both) by (nonlinear_arith)
        requires
            0 < ranks,
    ;
    let bytes = saturate_u128(ranks * both);
    let time = wide_transfer_time(bytes, bandwidth);
    let doubled = saturate_u128(tuning.direct_latency_ns * 2);
    assert(0 <= doubled * ranks) by (nonlinear_arith)
        requires
            0 < ranks,
    ;
    let latency = saturate_u128(doubled * ranks);
    assert(tuning.direct_estimate(kind, payload) == saturate_u64(
        saturate_u128(time + latency) as int,
    ));
    assert(time < u64::MAX);
    assert(latency == doubled * ranks);
    assert(2 * tuning.direct_latency_ns * ranks == doubled * ranks);
    lemma_wide_time(bytes, bandwidth);
    assert(bytes == ranks * both);
    if both == u128::MAX {
        assert(ranks * both >= both) by (nonlinear_arith)
            requires
                1 <= ranks,
        ;
    }
    assert(both == payload + response);
    assert(response == answer);
}

/// Round rings, a reduce-scatter goes half the way of an all-reduce, and gathering
/// as many bytes as a reduce-scatter leaves with each rank takes as long.
pub proof fn law_ring_estimates_agree(tuning: TuningModel, payload: usize, whole: usize)
    requires
        0 < tuning.ring_order.len(),
        whole == payload * tuning.ring_order.len(),
    ensures
        match tuning.peer_estimate(CollectiveKind::ReduceScatter, payload) {
            Some(time) => tuning.peer_estimate(CollectiveKind::AllReduce, payload) == Some(
                saturate_u64(2 * time),
            ),
            None => tuning.peer_estimate(CollectiveKind::AllReduce, payload) is None,
        },
        tuning.peer_estimate(CollectiveKind::AllGather, payload) == tuning.peer_estimate(
            CollectiveKind::ReduceScatter,
            whole,
        ),
{
    let ranks = tuning.ring_order.len() as int;
    lemma_mod_multiples_basic(payload as int, ranks);
    lemma_div_multiples_vanish(payload as int, ranks);
    lemma_mul_is_commutative(payload as int, ranks);
    assert(ceiling_div(whole as int, ranks) == payload);
    let chunk = ceiling_div(payload as int, ranks);
    if let Some(step) = tuning.multi_ring_step(chunk) {
        let steps = ranks - 1;
        assert(step * (2 * steps) == 2 * (step * steps)) by (nonlinear_arith);
        assert(0 <= step * steps) by (nonlinear_arith)
            requires
                0 <= steps,
        ;
    }
}

} // verus!

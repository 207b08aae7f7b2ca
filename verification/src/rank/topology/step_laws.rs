//! What a step of a collective takes at least, and over one ring exactly.

use crate::math::{ceiling_div, saturate_u64};
use crate::rank::layout::{balanced_len, law_balanced_partition};
use crate::rank::topology::estimates::ring_flows;
use crate::rank::topology::links::{rank_pairs_of, TopologyModel};
use crate::rank::topology::paths::link_time;
use crate::rank::topology::stripes::{
    all_flows, busiest, cap_time, channel_time, channels_for, link_flow_time, linked_time,
    rails_for, slot_load, striped, Flow,
};
use crate::rank::topology::tuning::TuningModel;
use crate::rank::topology::CollectiveKind;
use vstd::arithmetic::div_mod::*;
use vstd::prelude::*;

verus! {

proof fn lemma_linked(model: TopologyModel, flows: Seq<Flow>, rail: int)
    requires
        linked_time(model, flows, rail) is Some,
    ensures
        forall|i: int|
            0 <= i < flows.len() ==> {
                &&& (#[trigger] link_flow_time(model, flows[i], rail)) matches Some(time)
                &&& time <= linked_time(model, flows, rail)->0
            },
        exists|i: int|
            0 <= i < flows.len() && #[trigger] link_flow_time(model, flows[i], rail)
                == linked_time(model, flows, rail),
    decreases flows.len(),
{
    let all = linked_time(model, flows, rail);
    if flows.len() == 1 {
        assert(link_flow_time(model, flows[0], rail) == all);
    } else {
        let shorter = flows.drop_last();
        let last = flows.len() - 1;
        lemma_linked(model, shorter, rail);
        assert forall|i: int| 0 <= i < flows.len() implies {
            &&& (#[trigger] link_flow_time(model, flows[i], rail)) matches Some(time)
            &&& time <= all->0
        } by {
            if i < last {
                assert(shorter[i] == flows[i]);
                assert(link_flow_time(model, shorter[i], rail) is Some);
            }
        }
        if link_flow_time(model, flows[last], rail) == all {
        } else {
            let i = choose|i: int|
                0 <= i < shorter.len() && #[trigger] link_flow_time(model, shorter[i], rail)
                    == linked_time(model, shorter, rail);
            assert(shorter[i] == flows[i]);
            assert(link_flow_time(model, flows[i], rail) == all);
        }
    }
}

proof fn lemma_load(times: Seq<u64>, rails: int, count: int, channel: int)
    requires
        0 <= channel < count <= times.len(),
        0 < rails,
    ensures
        times[channel] <= slot_load(times, rails, channel % rails, count),
    decreases count,
{
    if channel < count - 1 {
        lemma_load(times, rails, count - 1, channel);
    }
}

proof fn lemma_busiest(times: Seq<u64>, rails: int, slots: int, slot: int)
    requires
        0 <= slot < slots,
    ensures
        slot_load(times, rails, slot, times.len() as int) <= busiest(times, rails, slots)
            <= u64::MAX,
    decreases slots,
{
    if slot < slots - 1 {
        lemma_busiest(times, rails, slots - 1, slot);
    } else if slots > 1 {
        lemma_busiest(times, rails, slots - 1, 0);
    } else {
        assert(busiest(times, rails, 0) == 0);
    }
}

proof fn lemma_caps(
    model: TopologyModel,
    flows: Seq<Flow>,
    pairs: Seq<(u32, u32)>,
)
    ensures
        0 <= cap_time(model, flows, pairs) <= u64::MAX,
    decreases pairs.len(),
{
    if pairs.len() > 0 {
        lemma_caps(model, flows, pairs.drop_last());
    }
}

/// A step over rings takes no less than any of its transfers: between two
/// neighbours on the ring of any channel there is a link on the channel's rail, and
/// the step lasts at least as long as that link needs for the channel's part.
pub proof fn law_ring_steps_last_as_long_as_any_link(
    tuning: TuningModel,
    bytes: int,
    channel: int,
    place: int,
)
    requires
        0 < tuning.rail_order().len(),
        0 <= bytes <= usize::MAX,
        tuning.multi_ring_step(bytes) is Some,
        0 <= channel < channels_for(tuning.ring_channels as int, bytes),
        0 <= place < tuning.ring_for_channel(channel).len(),
    ensures
        ({
            let channels = channels_for(tuning.ring_channels as int, bytes);
            let rails = rails_for(tuning.rail_order().len() as int, channels);
            let rail = tuning.rail_order()[channel % rails] as int;
            let ring = tuning.ring_for_channel(channel);
            let next = if place + 1 < ring.len() {
                place + 1
            } else {
                0
            };
            let part = balanced_len(bytes, channels, channel);
            &&& tuning.topology.link_on_rail(ring[place] as int, ring[next] as int, rail) matches Some(
                cost,
            )
            &&& link_time(cost, part) <= tuning.multi_ring_step(bytes)->0
        }),
{
    let channels = channels_for(tuning.ring_channels as int, bytes);
    let rails = rails_for(tuning.rail_order().len() as int, channels);
    let flows = Seq::new(
        channels as nat,
        |c: int| ring_flows(tuning.ring_for_channel(c), balanced_len(bytes, channels, c)),
    );
    let order = tuning.rail_order();
    let times = Seq::new(
        flows.len(),
        |c: int| channel_time(tuning.topology, flows, order, rails, false, c)->0,
    );
    law_balanced_partition(bytes, channels, channel);
    assert(channel_time(tuning.topology, flows, order, rails, false, channel) is Some);
    lemma_linked(tuning.topology, flows[channel], order[channel % rails] as int);
    lemma_mod_bound(channel, rails);
    lemma_load(times, rails, channels, channel);
    lemma_busiest(times, rails, rails, channel % rails);
    lemma_caps(
        tuning.topology,
        all_flows(flows, channels),
        rank_pairs_of(tuning.topology.world_size),
    );
    assert(link_flow_time(
        tuning.topology,
        flows[channel][place],
        order[channel % rails] as int,
    ) is Some);
}

/// Over a single ring a step lasts as long as the slowest link round it needs, and
/// the ring is gone round once, or for an all-reduce twice, but for the last hop.
pub proof fn law_one_ring_waits_for_its_slowest_link(tuning: TuningModel, payload: usize)
    requires
        tuning.ring_channels == 1,
        1 < tuning.ring_order.len(),
        0 < tuning.rail_order().len(),
        tuning.peer_estimate(CollectiveKind::AllReduce, payload) is Some,
    ensures
        exists|place: int|
            #![trigger tuning.ring_for_channel(0)[place]]
            {
                let ranks = tuning.ring_order.len() as int;
                let ring = tuning.ring_for_channel(0);
                let next = if place + 1 < ring.len() {
                    place + 1
                } else {
                    0
                };
                let part = ceiling_div(payload as int, ranks);
                &&& 0 <= place < ring.len()
                &&& tuning.topology.link_on_rail(
                    ring[place] as int,
                    ring[next] as int,
                    tuning.rail_order()[0] as int,
                ) matches Some(cost)
                &&& tuning.peer_estimate(CollectiveKind::AllReduce, payload) == Some(
                    saturate_u64(2 * (ranks - 1) * link_time(cost, part)),
                )
                &&& tuning.peer_estimate(CollectiveKind::ReduceScatter, payload) == Some(
                    saturate_u64((ranks - 1) * link_time(cost, part)),
                )
            },
{
    let ranks = tuning.ring_order.len() as int;
    let part = ceiling_div(payload as int, ranks);
    lemma_fundamental_div_mod(payload as int, ranks);
    lemma_mod_bound(payload as int, ranks);
    lemma_div_pos_is_pos(payload as int, ranks);
    assert(0 <= part <= payload) by {
        let quotient = payload as int / ranks;
        assert(2 * quotient <= ranks * quotient) by (nonlinear_arith)
            requires
                2 <= ranks,
                0 <= quotient,
        ;
    }
    let channels = channels_for(1, part);
    assert(channels == 1);
    let order = tuning.rail_order();
    let rails = rails_for(order.len() as int, 1);
    assert(rails == 1);
    let ring = tuning.ring_for_channel(0);
    let flows = Seq::new(
        1,
        |c: int| ring_flows(tuning.ring_for_channel(c), balanced_len(part, 1, c)),
    );
    lemma_basic_div(0, 1);
    assert(part / 1 == part && part % 1 == 0);
    assert(balanced_len(part, 1, 0) == part);
    assert(0int % 1 == 0);
    assert(channel_time(tuning.topology, flows, order, 1, false, 0) is Some);
    let times = Seq::new(1, |c: int| channel_time(tuning.topology, flows, order, 1, false, c)->0);
    reveal_with_fuel(slot_load, 2);
    reveal_with_fuel(busiest, 2);
    assert(slot_load(times, 1, 0, 1) == times[0]);
    assert(busiest(times, 1, 1) == times[0]);
    let step = tuning.multi_ring_step(part)->0;
    assert(striped(tuning.topology, flows, order, 1, false) == Some(times[0]));
    assert(flows =~= Seq::new(
        channels as nat,
        |c: int| ring_flows(tuning.ring_for_channel(c), balanced_len(part, channels, c)),
    ));
    assert(step == times[0]);
    let rail = order[0] as int;
    lemma_linked(tuning.topology, flows[0], rail);
    let place = choose|i: int|
        0 <= i < flows[0].len() && #[trigger] link_flow_time(tuning.topology, flows[0][i], rail)
            == linked_time(tuning.topology, flows[0], rail);
    assert(link_flow_time(tuning.topology, flows[0][place], rail) == Some(step));
    assert(tuning.ring_for_channel(0)[place] == flows[0][place].source);
    assert(step * (2 * (ranks - 1)) == 2 * (ranks - 1) * step) by (nonlinear_arith);
    assert(step * (ranks - 1) == (ranks - 1) * step) by (nonlinear_arith);
}

} // verus!

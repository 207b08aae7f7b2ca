//! The time of one step whose messages are striped over channels and rails.

use crate::math::{
    max_int, min_int, saturate_u64, saturate_usize, saturating_add_u64, saturating_add_usize,
};
use crate::rank::layout::balanced_len;
use crate::rank::topology::links::{
    rank_pairs, rank_pairs_of, table, CollectiveTopology, TopologyModel,
};
use crate::rank::topology::paths::{
    link_time, link_transfer_time_ns, repeat, transfer_time, transfer_time_ns,
};
use vstd::prelude::*;

verus! {

/// Bytes from one rank to another.
#[derive(Debug, Clone, Copy, PartialEq, Eq, Structural)]
pub struct Flow {
    pub source: u32,
    pub destination: u32,
    pub bytes: usize,
}

/// The slower of two times, where both are known.
pub open spec fn slower(a: Option<u64>, b: Option<u64>) -> Option<u64> {
    match (a, b) {
        (Some(x), Some(y)) => Some(
            if x >= y {
                x
            } else {
                y
            },
        ),
        _ => None,
    }
}

/// The time of the slowest flow over fastest routes on a rail.
pub open spec fn routed_time(model: TopologyModel, flows: Seq<Flow>, rail: int) -> Option<u64>
    decreases flows.len(),
{
    if flows.len() == 0 {
        Some(0)
    } else {
        slower(
            routed_time(model, flows.drop_last(), rail),
            model.rail_route_time(
                flows.last().source as int,
                flows.last().destination as int,
                flows.last().bytes as int,
                rail,
            ),
        )
    }
}

/// The time of one flow over its own link on a rail.
pub open spec fn link_flow_time(model: TopologyModel, flow: Flow, rail: int) -> Option<u64> {
    match model.link_on_rail(flow.source as int, flow.destination as int, rail) {
        Some(cost) => Some(link_time(cost, flow.bytes as int)),
        None => None,
    }
}

/// The time of the slowest flow over own links on a rail. No flow has no time.
pub open spec fn linked_time(model: TopologyModel, flows: Seq<Flow>, rail: int) -> Option<u64>
    decreases flows.len(),
{
    if flows.len() == 0 {
        None
    } else if flows.len() == 1 {
        link_flow_time(model, flows[0], rail)
    } else {
        slower(
            linked_time(model, flows.drop_last(), rail),
            link_flow_time(model, flows.last(), rail),
        )
    }
}

/// The summed time of the first `count` channels that share a rail.
pub open spec fn slot_load(times: Seq<u64>, rails: int, slot: int, count: int) -> u64
    decreases count,
{
    if count <= 0 {
        0
    } else if (count - 1) % rails == slot {
        saturate_u64(slot_load(times, rails, slot, count - 1) + times[count - 1])
    } else {
        slot_load(times, rails, slot, count - 1)
    }
}

/// The largest load of the first `slots` rails.
pub open spec fn busiest(times: Seq<u64>, rails: int, slots: int) -> int
    decreases slots,
{
    if slots <= 0 {
        0
    } else {
        max_int(
            busiest(times, rails, slots - 1),
            slot_load(times, rails, slots - 1, times.len() as int) as int,
        )
    }
}

/// The bytes that flows move from one rank to another.
pub open spec fn pair_bytes(flows: Seq<Flow>, source: int, destination: int) -> usize
    decreases flows.len(),
{
    if flows.len() == 0 {
        0
    } else {
        let rest = pair_bytes(flows.drop_last(), source, destination);
        if flows.last().source == source && flows.last().destination == destination {
            saturate_usize(rest + flows.last().bytes)
        } else {
            rest
        }
    }
}

/// The flows of the first `count` channels, channel after channel.
pub open spec fn all_flows(channels: Seq<Seq<Flow>>, count: int) -> Seq<Flow>
    decreases count,
{
    if count <= 0 {
        Seq::empty()
    } else {
        all_flows(channels, count - 1) + channels[count - 1]
    }
}

/// The larger of the bytes of a pair's two directions.
pub open spec fn pair_load(flows: Seq<Flow>, first: int, second: int) -> int {
    max_int(pair_bytes(flows, first, second) as int, pair_bytes(flows, second, first) as int)
}

/// The longest time that the caps of the listed pairs impose.
pub open spec fn cap_time(
    model: TopologyModel,
    flows: Seq<Flow>,
    pairs: Seq<(u32, u32)>,
) -> int
    decreases pairs.len(),
{
    if pairs.len() == 0 {
        0
    } else {
        let rest = cap_time(model, flows, pairs.drop_last());
        let first = pairs.last().0 as int;
        let second = pairs.last().1 as int;
        let bytes = pair_load(flows, first, second);
        match model.aggregate_links[first][second] {
            Some(cap) => if bytes == 0 {
                rest
            } else {
                max_int(rest, transfer_time(bytes, cap as int) as int)
            },
            None => rest,
        }
    }
}

/// The time of each channel on its rail.
pub open spec fn channel_time(
    model: TopologyModel,
    channels: Seq<Seq<Flow>>,
    rail_order: Seq<usize>,
    rails: int,
    routed: bool,
    channel: int,
) -> Option<u64> {
    let rail = rail_order[channel % rails] as int;
    if routed {
        routed_time(model, channels[channel], rail)
    } else {
        linked_time(model, channels[channel], rail)
    }
}

/// Every channel has a time.
pub open spec fn all_timed(
    model: TopologyModel,
    channels: Seq<Seq<Flow>>,
    rail_order: Seq<usize>,
    rails: int,
    routed: bool,
    count: int,
) -> bool {
    forall|c: int|
        0 <= c < count ==> (#[trigger] channel_time(
            model,
            channels,
            rail_order,
            rails,
            routed,
            c,
        )) is Some
}

/// The time of a striped step: channels on one rail follow one another, rails
/// run side by side, and the caps bound what the rails of a pair carry.
pub open spec fn striped(
    model: TopologyModel,
    channels: Seq<Seq<Flow>>,
    rail_order: Seq<usize>,
    rails: int,
    routed: bool,
) -> Option<u64> {
    let count = channels.len() as int;
    if all_timed(model, channels, rail_order, rails, routed, count) {
        let times = Seq::new(
            channels.len(),
            |c: int| channel_time(model, channels, rail_order, rails, routed, c)->0,
        );
        let capped = if rails > 1 {
            cap_time(model, all_flows(channels, count), rank_pairs_of(model.world_size))
        } else {
            0
        };
        Some(max_int(busiest(times, rails, rails), capped) as u64)
    } else {
        None
    }
}

/// The channels that a step of some bytes is split into.
pub open spec fn channels_for(wanted: int, bytes: int) -> int {
    max_int(min_int(wanted, max_int(bytes, 1)), 1)
}

/// The rails that channels are spread over.
pub open spec fn rails_for(rail_count: int, channels: int) -> int {
    max_int(min_int(rail_count, channels), 1)
}

pub fn channel_count(wanted: usize, bytes: usize) -> (count: usize)
    ensures
        count == channels_for(wanted as int, bytes as int),
        count >= 1,
{
    let limit: usize = if bytes == 0 {
        1
    } else {
        bytes
    };
    let least: usize = if wanted < limit {
        wanted
    } else {
        limit
    };
    if least == 0 {
        1
    } else {
        least
    }
}

pub fn rail_slots(rail_count: usize, channels: usize) -> (count: usize)
    ensures
        count == rails_for(rail_count as int, channels as int),
        count >= 1,
{
    let least: usize = if rail_count < channels {
        rail_count
    } else {
        channels
    };
    if least == 0 {
        1
    } else {
        least
    }
}

/// The size of one part of a balanced split.
pub fn part_size(total: usize, parts: usize, part: usize) -> (size: usize)
    requires
        part < parts,
    ensures
        size == balanced_len(total as int, parts as int, part as int),
{
    proof {
        crate::rank::layout::law_balanced_partition(total as int, parts as int, part as int);
    }
    let extra: usize = if part < total % parts {
        1
    } else {
        0
    };
    total / parts + extra
}

pub open spec fn flows_inside(flows: Seq<Flow>, size: int) -> bool {
    forall|i: int|
        0 <= i < flows.len() ==> (#[trigger] flows[i]).source < size && flows[i].destination < size
}

pub open spec fn channels_inside(channels: Seq<Seq<Flow>>, size: int) -> bool {
    forall|c: int| 0 <= c < channels.len() ==> flows_inside(#[trigger] channels[c], size)
}

proof fn lemma_routed_prefix(model: TopologyModel, flows: Seq<Flow>, rail: int, end: int)
    requires
        0 <= end <= flows.len(),
    ensures
        routed_time(model, flows, rail) is Some ==> routed_time(
            model,
            flows.take(end),
            rail,
        ) is Some,
    decreases flows.len(),
{
    if end == flows.len() {
        assert(flows.take(end) =~= flows);
    } else {
        assert(flows.drop_last().take(end) =~= flows.take(end));
        lemma_routed_prefix(model, flows.drop_last(), rail, end);
    }
}

proof fn lemma_linked_prefix(model: TopologyModel, flows: Seq<Flow>, rail: int, end: int)
    requires
        1 <= end <= flows.len(),
    ensures
        linked_time(model, flows, rail) is Some ==> linked_time(
            model,
            flows.take(end),
            rail,
        ) is Some,
    decreases flows.len(),
{
    if end == flows.len() {
        assert(flows.take(end) =~= flows);
    } else {
        assert(flows.drop_last().take(end) =~= flows.take(end));
        lemma_linked_prefix(model, flows.drop_last(), rail, end);
    }
}

impl CollectiveTopology {
    fn slowest_routed(&self, flows: &Vec<Flow>, rail: usize) -> (time: Option<u64>)
        requires
            self@.valid(),
            flows_inside(flows@, self@.world_size as int),
        ensures
            time == routed_time(self@, flows@, rail as int),
    {
        let mut slowest: u64 = 0;
        let mut index: usize = 0;
        while index < flows.len()
            invariant
                index <= flows.len(),
                self@.valid(),
                flows_inside(flows@, self@.world_size as int),
                routed_time(self@, flows@.take(index as int), rail as int) == Some(slowest),
            decreases flows.len() - index,
        {
            let flow = flows[index];
            proof {
                assert(flows@.take(index + 1).drop_last() =~= flows@.take(index as int));
                lemma_routed_prefix(self@, flows@, rail as int, index + 1);
            }
            match self.shortest_transfer_time_ns_on_rail(
                flow.source,
                flow.destination,
                flow.bytes,
                rail,
            ) {
                Some(time) => {
                    if time > slowest {
                        slowest = time;
                    }
                },
                None => {
                    return None;
                },
            }
            index = index + 1;
        }
        assert(flows@.take(index as int) =~= flows@);
        Some(slowest)
    }

    fn slowest_linked(&self, flows: &Vec<Flow>, rail: usize) -> (time: Option<u64>)
        requires
            self@.valid(),
            flows_inside(flows@, self@.world_size as int),
        ensures
            time == linked_time(self@, flows@, rail as int),
    {
        if flows.len() == 0 {
            return None;
        }
        let mut slowest: u64 = 0;
        let mut index: usize = 0;
        while index < flows.len()
            invariant
                index <= flows.len(),
                flows@.len() > 0,
                self@.valid(),
                flows_inside(flows@, self@.world_size as int),
                index == 0 ==> slowest == 0,
                index > 0 ==> linked_time(self@, flows@.take(index as int), rail as int) == Some(
                    slowest,
                ),
            decreases flows.len() - index,
        {
            let flow = flows[index];
            proof {
                assert(flows@.take(index + 1).drop_last() =~= flows@.take(index as int));
                assert(flows@.take(index + 1)[0] == flows@[0]);
                lemma_linked_prefix(self@, flows@, rail as int, index + 1);
            }
            match self.link_on_rail(flow.source, flow.destination, rail) {
                Some(link) => {
                    proof {
                        let from = flow.source as int;
                        let to = flow.destination as int;
                        assert(self@.links[from][to] matches Some(cost) ==> cost.bandwidth_mbps
                            > 0);
                        if rail < self@.rail_links.len() {
                            let rows = self@.rail_links[rail as int];
                            assert(rows[from][to] matches Some(cost) ==> cost.bandwidth_mbps > 0);
                        }
                    }
                    let time: u64 = link_transfer_time_ns(link, flow.bytes);
                    if time > slowest {
                        slowest = time;
                    }
                },
                None => {
                    return None;
                },
            }
            index = index + 1;
        }
        assert(flows@.take(index as int) =~= flows@);
        Some(slowest)
    }

    /// The longest time that the caps of pairs impose on the bytes they carry.
    pub fn aggregate_transfer_cap_ns(
        &self,
        bytes_by_pair: &Vec<Vec<usize>>,
        flows: Ghost<Seq<Flow>>,
    ) -> (time: u64)
        requires
            self@.valid(),
            bytes_by_pair@.len() == self@.world_size,
            forall|i: int|
                0 <= i < self@.world_size ==> (#[trigger] bytes_by_pair@[i])@.len()
                    == self@.world_size,
            forall|i: int, j: int|
                0 <= i < self@.world_size && 0 <= j < self@.world_size
                    ==> #[trigger] bytes_by_pair@[i]@[j] == pair_bytes(flows@, i, j),
        ensures
            time == cap_time(self@, flows@, rank_pairs_of(self@.world_size)),
    {
        let pairs = rank_pairs(self.world_size);
        let mut slowest: u64 = 0;
        let mut index: usize = 0;
        while index < pairs.len()
            invariant
                index <= pairs.len(),
                self@.valid(),
                bytes_by_pair@.len() == self@.world_size,
                forall|i: int|
                    0 <= i < self@.world_size ==> (#[trigger] bytes_by_pair@[i])@.len()
                        == self@.world_size,
                forall|i: int, j: int|
                    0 <= i < self@.world_size && 0 <= j < self@.world_size
                        ==> #[trigger] bytes_by_pair@[i]@[j] == pair_bytes(flows@, i, j),
                forall|k: int|
                    0 <= k < pairs@.len() ==> (#[trigger] pairs@[k]).0 < pairs@[k].1
                        < self.world_size,
                slowest == cap_time(self@, flows@, pairs@.take(index as int)),
            decreases pairs.len() - index,
        {
            let (first, second) = pairs[index];
            assert(pairs@.take(index + 1).drop_last() =~= pairs@.take(index as int));
            let forward: usize = bytes_by_pair[first as usize][second as usize];
            let reverse: usize = bytes_by_pair[second as usize][first as usize];
            let bytes: usize = if forward >= reverse {
                forward
            } else {
                reverse
            };
            assert(bytes == pair_load(flows@, first as int, second as int));
            assert(self@.aggregate_links[first as int][second as int] matches Some(cap) ==> cap
                > 0);
            if bytes != 0 {
                match self.aggregate_bandwidth_mbps(first, second) {
                    Some(cap) => {
                        let time: u64 = transfer_time_ns(bytes, cap);
                        if time > slowest {
                            slowest = time;
                        }
                    },
                    None => {},
                }
            }
            index = index + 1;
        }
        assert(pairs@.take(index as int) =~= pairs@);
        slowest
    }

    /// The bytes of the flows by source and destination.
    fn collect_bytes(&self, channels: &Vec<Vec<Flow>>) -> (bytes: Vec<Vec<usize>>)
        requires
            self@.valid(),
            channels_inside(table(channels@), self@.world_size as int),
        ensures
            bytes@.len() == self@.world_size,
            forall|i: int|
                0 <= i < self@.world_size ==> (#[trigger] bytes@[i])@.len() == self@.world_size,
            forall|i: int, j: int|
                0 <= i < self@.world_size && 0 <= j < self@.world_size
                    ==> #[trigger] bytes@[i]@[j] == pair_bytes(
                    all_flows(table(channels@), channels@.len() as int),
                    i,
                    j,
                ),
    {
        let size: usize = self.world_size as usize;
        let ghost model = table(channels@);
        let mut bytes: Vec<Vec<usize>> = Vec::new();
        let mut row: usize = 0;
        while row < size
            invariant
                row <= size,
                bytes@.len() == row,
                forall|i: int|
                    0 <= i < row ==> (#[trigger] bytes@[i])@ == Seq::new(
                        size as nat,
                        |j: int| 0usize,
                    ),
            decreases size - row,
        {
            bytes.push(repeat(0usize, size));
            row = row + 1;
        }
        let mut channel: usize = 0;
        while channel < channels.len()
            invariant
                channel <= channels.len(),
                size == self@.world_size,
                model == table(channels@),
                channels_inside(model, size as int),
                bytes@.len() == size,
                forall|i: int| 0 <= i < size ==> (#[trigger] bytes@[i])@.len() == size,
                forall|i: int, j: int|
                    0 <= i < size && 0 <= j < size ==> #[trigger] bytes@[i]@[j] == pair_bytes(
                        all_flows(model, channel as int),
                        i,
                        j,
                    ),
            decreases channels.len() - channel,
        {
            let ghost head = all_flows(model, channel as int);
            let flows = &channels[channel];
            let mut index: usize = 0;
            assert(model[channel as int] == flows@);
            assert(head + flows@.take(0) =~= head);
            while index < flows.len()
                invariant
                    index <= flows.len(),
                    flows_inside(flows@, size as int),
                    bytes@.len() == size,
                    forall|i: int| 0 <= i < size ==> (#[trigger] bytes@[i])@.len() == size,
                    forall|i: int, j: int|
                        0 <= i < size && 0 <= j < size ==> #[trigger] bytes@[i]@[j] == pair_bytes(
                            head + flows@.take(index as int),
                            i,
                            j,
                        ),
                decreases flows.len() - index,
            {
                let flow = flows[index];
                let source: usize = flow.source as usize;
                let destination: usize = flow.destination as usize;
                assert(flows@[index as int].source < size);
                let ghost before = bytes@;
                let more: usize = saturating_add_usize(bytes[source][destination], flow.bytes);
                bytes[source][destination] = more;
                proof {
                    let was = head + flows@.take(index as int);
                    let now = head + flows@.take(index + 1);
                    assert(now.drop_last() =~= was);
                    assert(now.last() == flow);
                    assert forall|i: int, j: int|
                        0 <= i < size && 0 <= j < size implies #[trigger] bytes@[i]@[j]
                        == pair_bytes(now, i, j) by {
                        assert(before[i]@[j] == pair_bytes(was, i, j));
                    }
                }
                index = index + 1;
            }
            assert(flows@.take(index as int) =~= flows@);
            channel = channel + 1;
        }
        bytes
    }

    /// The time of a striped step.
    pub fn striped_time(
        &self,
        channels: &Vec<Vec<Flow>>,
        rail_order: &[usize],
        rails: usize,
        routed: bool,
    ) -> (time: Option<u64>)
        requires
            self@.valid(),
            channels_inside(table(channels@), self@.world_size as int),
            0 < rails <= rail_order@.len(),
        ensures
            time == striped(self@, table(channels@), rail_order@, rails as int, routed),
    {
        let ghost model = self@;
        let ghost all = table(channels@);
        let mut times: Vec<u64> = Vec::new();
        let mut channel: usize = 0;
        while channel < channels.len()
            invariant
                channel <= channels.len(),
                model == self@,
                self@.valid(),
                all == table(channels@),
                channels_inside(all, self@.world_size as int),
                0 < rails <= rail_order@.len(),
                times@.len() == channel,
                forall|c: int|
                    0 <= c < channel ==> (#[trigger] channel_time(
                        model,
                        all,
                        rail_order@,
                        rails as int,
                        routed,
                        c,
                    )) == Some(times@[c]),
            decreases channels.len() - channel,
        {
            let slot: usize = channel % rails;
            let rail: usize = rail_order[slot];
            assert(all[channel as int] == channels@[channel as int]@);
            let time = if routed {
                self.slowest_routed(&channels[channel], rail)
            } else {
                self.slowest_linked(&channels[channel], rail)
            };
            assert(time == channel_time(
                model,
                all,
                rail_order@,
                rails as int,
                routed,
                channel as int,
            ));
            match time {
                Some(time) => {
                    times.push(time);
                },
                None => {
                    assert(!all_timed(
                        model,
                        all,
                        rail_order@,
                        rails as int,
                        routed,
                        all.len() as int,
                    ));
                    return None;
                },
            }
            channel = channel + 1;
        }
        assert(times@ =~= Seq::new(
            all.len(),
            |c: int| channel_time(model, all, rail_order@, rails as int, routed, c)->0,
        ));
        let mut slowest: u64 = 0;
        let mut slot: usize = 0;
        while slot < rails
            invariant
                slot <= rails,
                0 < rails,
                slowest == busiest(times@, rails as int, slot as int),
            decreases rails - slot,
        {
            let mut load: u64 = 0;
            let mut index: usize = 0;
            while index < times.len()
                invariant
                    index <= times.len(),
                    0 < rails,
                    load == slot_load(times@, rails as int, slot as int, index as int),
                decreases times.len() - index,
            {
                if index % rails == slot {
                    load = saturating_add_u64(load, times[index]);
                }
                index = index + 1;
            }
            if load > slowest {
                slowest = load;
            }
            slot = slot + 1;
        }
        if rails > 1 {
            let bytes = self.collect_bytes(channels);
            let capped: u64 = self.aggregate_transfer_cap_ns(
                &bytes,
                Ghost(all_flows(all, all.len() as int)),
            );
            if capped > slowest {
                slowest = capped;
            }
        }
        Some(slowest)
    }
}

} // verus!

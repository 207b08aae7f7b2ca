//! Transfer times over links and over shortest routes.

use crate::math::{
    ceiling_div, saturate_u128, saturate_u64, saturating_add_u128, saturating_add_u64,
    saturating_mul_u128,
};
use crate::rank::topology::links::{CollectiveTopology, LinkCost, TopologyModel};
use vstd::arithmetic::div_mod::*;
use vstd::prelude::*;

verus! {

/// Nanoseconds to move bytes at a bandwidth, rounded up.
pub open spec fn transfer_time(bytes: int, bandwidth_mbps: int) -> u64 {
    saturate_u64(ceiling_div(bytes * 1000, bandwidth_mbps))
}

/// The same for byte counts beyond a machine word, in saturating arithmetic.
pub open spec fn wide_transfer_time(bytes: u128, bandwidth_mbps: u64) -> u128 {
    saturate_u128(saturate_u128(bytes * 1000) + (bandwidth_mbps - 1)) / (bandwidth_mbps as u128)
}

/// Nanoseconds to move bytes over one link.
pub open spec fn link_time(cost: LinkCost, bytes: int) -> u64 {
    saturate_u64(cost.latency_ns + transfer_time(bytes, cost.bandwidth_mbps as int))
}

proof fn lemma_ceiling(numerator: int, denominator: int)
    requires
        0 <= numerator,
        0 < denominator,
    ensures
        (numerator + (denominator - 1)) / denominator == ceiling_div(numerator, denominator),
{
    let q = numerator / denominator;
    let r = numerator % denominator;
    lemma_fundamental_div_mod(numerator, denominator);
    lemma_mod_bound(numerator, denominator);
    if r == 0 {
        lemma_fundamental_div_mod_converse(
            numerator + (denominator - 1),
            denominator,
            q,
            denominator - 1,
        );
    } else {
        assert(denominator * (q + 1) == denominator * q + denominator) by (nonlinear_arith);
        lemma_fundamental_div_mod_converse(
            numerator + (denominator - 1),
            denominator,
            q + 1,
            r - 1,
        );
    }
}

pub fn transfer_time_ns_u128(bytes: u128, bandwidth_mbps: u64) -> (time: u128)
    requires
        bandwidth_mbps > 0,
    ensures
        time == wide_transfer_time(bytes, bandwidth_mbps),
{
    let numerator: u128 = saturating_mul_u128(bytes, 1000);
    let denominator: u128 = bandwidth_mbps as u128;
    saturating_add_u128(numerator, denominator - 1) / denominator
}

pub fn saturating_u64(value: u128) -> (result: u64)
    ensures
        result == saturate_u64(value as int),
{
    if value > u64::MAX as u128 {
        u64::MAX
    } else {
        value as u64
    }
}

pub fn transfer_time_ns(bytes: usize, bandwidth_mbps: u64) -> (time: u64)
    requires
        bandwidth_mbps > 0,
    ensures
        time == transfer_time(bytes as int, bandwidth_mbps as int),
{
    proof {
        lemma_ceiling(bytes * 1000, bandwidth_mbps as int);
    }
    saturating_u64(transfer_time_ns_u128(bytes as u128, bandwidth_mbps))
}

pub fn link_transfer_time_ns(link: LinkCost, bytes: usize) -> (time: u64)
    requires
        link.bandwidth_mbps > 0,
    ensures
        time == link_time(link, bytes as int),
{
    saturating_add_u64(link.latency_ns, transfer_time_ns(bytes, link.bandwidth_mbps))
}

/// What a transfer of some bytes meets: the links of a topology, all rails or
/// one, between permitted ranks.
pub struct Routes {
    pub model: TopologyModel,
    pub rail: Option<int>,
    pub bytes: int,
    pub permitted: Seq<bool>,
}

impl Routes {
    pub open spec fn size(self) -> int {
        self.model.world_size as int
    }

    /// The time from one rank to a linked one.
    pub open spec fn edge(self, from: int, to: int) -> Option<u64> {
        if !self.permitted[from] || !self.permitted[to] {
            None
        } else {
            match (match self.rail {
                Some(rail) => self.model.link_on_rail(from, to, rail),
                None => self.model.link(from, to),
            }) {
                Some(cost) => Some(link_time(cost, self.bytes)),
                None => None,
            }
        }
    }

    /// A sequence of ranks, each linked to the next.
    pub open spec fn walk(self, ranks: Seq<int>) -> bool
        decreases ranks.len(),
    {
        if ranks.len() == 0 {
            false
        } else if ranks.len() == 1 {
            0 <= ranks[0] < self.size()
        } else {
            &&& self.walk(ranks.drop_last())
            &&& 0 <= ranks.last() < self.size()
            &&& self.edge(ranks[ranks.len() - 2], ranks.last()) is Some
        }
    }

    /// The time of a walk.
    pub open spec fn time(self, ranks: Seq<int>) -> int
        decreases ranks.len(),
    {
        if ranks.len() <= 1 {
            0
        } else {
            self.time(ranks.drop_last()) + self.edge(ranks[ranks.len() - 2], ranks.last())->0
        }
    }

    /// A walk from one rank to another.
    pub open spec fn joins(self, ranks: Seq<int>, from: int, to: int) -> bool {
        self.walk(ranks) && ranks[0] == from && ranks.last() == to
    }

    /// Some walk takes exactly this time.
    pub open spec fn reached(self, from: int, to: int, time: int) -> bool {
        exists|ranks: Seq<int>| #[trigger] self.joins(ranks, from, to) && self.time(ranks) == time
    }

    /// No walk takes less time.
    pub open spec fn at_least(self, from: int, to: int, time: int) -> bool {
        forall|ranks: Seq<int>| #[trigger]
            self.joins(ranks, from, to) ==> self.time(ranks) >= time
    }

    /// The time of the fastest walk. A time of `u64::MAX` counts as no walk.
    pub open spec fn fastest(self, from: int, to: int, time: u64) -> bool {
        &&& time < u64::MAX
        &&& self.reached(from, to, time as int)
        &&& self.at_least(from, to, time as int)
    }

    pub open spec fn distance(self, from: int, to: int) -> Option<u64> {
        if exists|time: u64| self.fastest(from, to, time) {
            Some(choose|time: u64| self.fastest(from, to, time))
        } else {
            None
        }
    }

    proof fn lemma_time_nonnegative(self, ranks: Seq<int>)
        ensures
            self.time(ranks) >= 0,
        decreases ranks.len(),
    {
        if ranks.len() > 1 {
            self.lemma_time_nonnegative(ranks.drop_last());
        }
    }

    /// A time that is the fastest is the distance.
    pub proof fn lemma_distance(self, from: int, to: int, time: u64)
        requires
            self.fastest(from, to, time),
        ensures
            self.distance(from, to) == Some(time),
    {
        let chosen = choose|other: u64| self.fastest(from, to, other);
        assert(self.fastest(from, to, chosen));
        let first = choose|ranks: Seq<int>| #[trigger]
            self.joins(ranks, from, to) && self.time(ranks) == time;
        let second = choose|ranks: Seq<int>| #[trigger]
            self.joins(ranks, from, to) && self.time(ranks) == chosen;
        assert(self.joins(first, from, to));
        assert(self.joins(second, from, to));
    }

    /// Where every walk takes `u64::MAX` or more there is no distance.
    pub proof fn lemma_no_distance(self, from: int, to: int)
        requires
            self.at_least(from, to, u64::MAX as int),
        ensures
            self.distance(from, to) is None,
    {
        if exists|time: u64| self.fastest(from, to, time) {
            let time = choose|time: u64| self.fastest(from, to, time);
            let ranks = choose|ranks: Seq<int>| #[trigger]
                self.joins(ranks, from, to) && self.time(ranks) == time;
            assert(self.joins(ranks, from, to));
        }
    }

    /// A rank is at no distance from itself.
    pub proof fn lemma_self_distance(self, rank: int)
        requires
            0 <= rank < self.size(),
        ensures
            self.distance(rank, rank) == Some(0u64),
    {
        let here = seq![rank];
        assert(self.joins(here, rank, rank));
        assert(self.time(here) == 0);
        assert forall|ranks: Seq<int>| #[trigger] self.joins(ranks, rank, rank) implies self.time(
            ranks,
        ) >= 0 by {
            self.lemma_time_nonnegative(ranks);
        }
        self.lemma_distance(rank, rank, 0);
    }

    /// The state of a shortest-route search: every known time is some walk's,
    /// settled ranks are at their fastest, and settled ranks have told their
    /// neighbours.
    pub open spec fn searching(self, source: int, times: Seq<u64>, settled: Seq<bool>) -> bool {
        &&& 0 <= source < self.size()
        &&& times.len() == self.size()
        &&& settled.len() == self.size()
        &&& self.permitted.len() == self.size()
        &&& times[source] == 0
        &&& forall|v: int|
            0 <= v < self.size() && #[trigger] times[v] < u64::MAX ==> self.reached(
                source,
                v,
                times[v] as int,
            )
        &&& forall|v: int|
            0 <= v < self.size() && #[trigger] settled[v] ==> self.at_least(
                source,
                v,
                times[v] as int,
            )
    }

    /// Rank `u` has told rank `v` of the way over it.
    pub open spec fn told(self, times: Seq<u64>, u: int, v: int) -> bool {
        self.edge(u, v) matches Some(edge) ==> times[v] <= saturate_u64(times[u] + edge)
    }

    pub open spec fn all_told(self, times: Seq<u64>, settled: Seq<bool>) -> bool {
        forall|u: int, v: int|
            0 <= u < self.size() && 0 <= v < self.size() && settled[u] && !settled[v]
                ==> #[trigger] self.told(times, u, v)
    }

    /// No walk to a rank that is not settled is faster than the least of their
    /// known times.
    proof fn lemma_frontier(
        self,
        source: int,
        times: Seq<u64>,
        settled: Seq<bool>,
        least: u64,
        ranks: Seq<int>,
    )
        requires
            self.searching(source, times, settled),
            self.all_told(times, settled),
            forall|v: int| 0 <= v < self.size() && !settled[v] ==> #[trigger] times[v] >= least,
            self.walk(ranks),
            ranks[0] == source,
            !settled[ranks.last()],
        ensures
            self.time(ranks) >= least,
        decreases ranks.len(),
    {
        if ranks.len() == 1 {
            assert(times[source] >= least);
        } else {
            let head = ranks.drop_last();
            let before = head.last();
            let last = ranks.last();
            assert(before == ranks[ranks.len() - 2]);
            assert(head[0] == source);
            self.lemma_walk_inside(head);
            if settled[before] {
                assert(self.joins(head, source, before));
                assert(self.at_least(source, before, times[before] as int));
                assert(self.told(times, before, last));
                assert(times[last] >= least);
            } else {
                self.lemma_frontier(source, times, settled, least, head);
            }
        }
    }

    proof fn lemma_walk_inside(self, ranks: Seq<int>)
        requires
            self.walk(ranks),
        ensures
            0 <= ranks.last() < self.size(),
    {
    }

    /// A walk goes on over one more link.
    proof fn lemma_reach_on(self, source: int, from: int, to: int, time: int)
        requires
            self.reached(source, from, time),
            0 <= to < self.size(),
            self.edge(from, to) is Some,
        ensures
            self.reached(source, to, time + self.edge(from, to)->0),
    {
        let ranks = choose|ranks: Seq<int>| #[trigger]
            self.joins(ranks, source, from) && self.time(ranks) == time;
        let on = ranks.push(to);
        assert(on.drop_last() =~= ranks);
        assert(on[on.len() - 2] == from);
        assert(self.joins(on, source, to));
        assert(self.time(on) == time + self.edge(from, to)->0);
    }
}

/// How many flags are not set.
pub open spec fn unset(flags: Seq<bool>) -> nat
    decreases flags.len(),
{
    if flags.len() == 0 {
        0
    } else {
        unset(flags.drop_last()) + (if flags.last() {
            0nat
        } else {
            1nat
        })
    }
}

/// Setting a flag leaves one less unset.
pub proof fn lemma_set_flag(flags: Seq<bool>, index: int)
    requires
        0 <= index < flags.len(),
        !flags[index],
    ensures
        unset(flags.update(index, true)) + 1 == unset(flags),
    decreases flags.len(),
{
    if index == flags.len() - 1 {
        assert(flags.update(index, true).drop_last() =~= flags.drop_last());
    } else {
        assert(flags.update(index, true).drop_last() =~= flags.drop_last().update(index, true));
        lemma_set_flag(flags.drop_last(), index);
    }
}

fn filled<T: Copy>(count: usize, value: T) -> (values: Vec<T>)
    ensures
        values@ == Seq::new(count as nat, |i: int| value),
{
    let mut values: Vec<T> = Vec::new();
    let mut index: usize = 0;
    while index < count
        invariant
            index <= count,
            values@.len() == index,
            forall|i: int| 0 <= i < index ==> values@[i] == value,
        decreases count - index,
    {
        values.push(value);
        index = index + 1;
    }
    assert(values@ =~= Seq::new(count as nat, |i: int| value));
    values
}

/// A vector of one value.
pub fn repeat<T: Copy>(value: T, count: usize) -> (values: Vec<T>)
    ensures
        values@ == Seq::new(count as nat, |i: int| value),
{
    filled(count, value)
}

/// The rank outside `settled` with the least time, the lowest of equals.
fn nearest(times: &Vec<u64>, settled: &Vec<bool>) -> (found: Option<usize>)
    requires
        times@.len() == settled@.len(),
    ensures
        match found {
            Some(rank) => {
                &&& rank < times@.len()
                &&& !settled@[rank as int]
                &&& forall|v: int|
                    0 <= v < times@.len() && !settled@[v] ==> #[trigger] times@[v]
                        >= times@[rank as int]
            },
            None => forall|v: int| 0 <= v < times@.len() ==> #[trigger] settled@[v],
        },
{
    let mut found: Option<usize> = None;
    let mut index: usize = 0;
    while index < times.len()
        invariant
            index <= times@.len(),
            times@.len() == settled@.len(),
            match found {
                Some(rank) => {
                    &&& rank < index
                    &&& !settled@[rank as int]
                    &&& forall|v: int|
                        0 <= v < index && !settled@[v] ==> #[trigger] times@[v]
                            >= times@[rank as int]
                },
                None => forall|v: int| 0 <= v < index ==> #[trigger] settled@[v],
            },
        decreases times@.len() - index,
    {
        if !settled[index] {
            match found {
                Some(rank) => {
                    if times[index] < times[rank] {
                        found = Some(index);
                    }
                },
                None => {
                    found = Some(index);
                },
            }
        }
        index = index + 1;
    }
    found
}

impl CollectiveTopology {
    /// The link that a transfer between two ranks uses.
    fn route_link(&self, from: u32, to: u32, rail: Option<usize>) -> (link: Option<LinkCost>)
        requires
            self@.valid(),
            from < self@.world_size,
            to < self@.world_size,
        ensures
            link == (match rail {
                Some(rail) => self@.link_on_rail(from as int, to as int, rail as int),
                None => self@.link(from as int, to as int),
            }),
            link matches Some(cost) ==> cost.bandwidth_mbps > 0,
    {
        match rail {
            Some(rail) => {
                let link = self.link_on_rail(from, to, rail);
                proof {
                    assert(self@.links[from as int][to as int] matches Some(cost)
                        ==> cost.bandwidth_mbps > 0);
                    if rail < self@.rail_links.len() {
                        let rows = self@.rail_links[rail as int];
                        assert(rows[from as int][to as int] matches Some(cost)
                            ==> cost.bandwidth_mbps > 0);
                    }
                }
                link
            },
            None => {
                let link = self.link(from, to);
                assert(self@.links[from as int][to as int] matches Some(cost)
                    ==> cost.bandwidth_mbps > 0);
                link
            },
        }
    }

    /// The time of the fastest route between two ranks.
    pub fn shortest_route(
        &self,
        source: u32,
        destination: u32,
        bytes: usize,
        rail: Option<usize>,
        permitted: &Vec<bool>,
    ) -> (time: Option<u64>)
        requires
            self@.valid(),
            source < self@.world_size,
            destination < self@.world_size,
            permitted@.len() == self@.world_size,
        ensures
            ({
                let routes = Routes {
                    model: self@,
                    rail: match rail {
                        Some(rail) => Some(rail as int),
                        None => None,
                    },
                    bytes: bytes as int,
                    permitted: permitted@,
                };
                &&& time == routes.distance(source as int, destination as int)
                &&& time is None ==> routes.at_least(
                    source as int,
                    destination as int,
                    u64::MAX as int,
                )
            }),
    {
        let ghost routes = Routes {
            model: self@,
            rail: match rail {
                Some(rail) => Some(rail as int),
                None => None,
            },
            bytes: bytes as int,
            permitted: permitted@,
        };
        if source == destination {
            proof {
                routes.lemma_self_distance(source as int);
            }
            return Some(0);
        }
        let count: usize = self.world_size as usize;
        let mut times: Vec<u64> = filled(count, u64::MAX);
        let mut settled: Vec<bool> = filled(count, false);
        times.set(source as usize, 0);
        proof {
            let here = seq![source as int];
            assert(routes.joins(here, source as int, source as int));
            assert(routes.time(here) == 0);
        }
        loop
            invariant
                self@.valid(),
                count == self.world_size,
                source < count,
                destination < count,
                source != destination,
                permitted@.len() == count,
                routes == (Routes {
                    model: self@,
                    rail: match rail {
                        Some(rail) => Some(rail as int),
                        None => None,
                    },
                    bytes: bytes as int,
                    permitted: permitted@,
                }),
                routes.searching(source as int, times@, settled@),
                routes.all_told(times@, settled@),
                !settled@[destination as int],
            decreases unset(settled@),
        {
            let current: usize = match nearest(&times, &settled) {
                Some(rank) => rank,
                None => {
                    return None;
                },
            };
            let ghost least = times@[current as int];
            proof {
                assert forall|v: int| 0 <= v < routes.size() && !settled@[v] implies routes.at_least(
                    source as int,
                    v,
                    least as int,
                ) by {
                    assert forall|ranks: Seq<int>| #[trigger]
                        routes.joins(ranks, source as int, v) implies routes.time(ranks)
                        >= least by {
                        routes.lemma_frontier(source as int, times@, settled@, least, ranks);
                    }
                }
            }
            if times[current] == u64::MAX {
                proof {
                    assert(routes.at_least(source as int, destination as int, least as int));
                    routes.lemma_no_distance(source as int, destination as int);
                }
                return None;
            }
            if current == destination as usize {
                proof {
                    assert(routes.reached(source as int, destination as int, least as int));
                    routes.lemma_distance(source as int, destination as int, least);
                }
                return Some(times[current]);
            }
            let ghost before = settled@;
            proof {
                lemma_set_flag(settled@, current as int);
            }
            settled.set(current, true);
            let mut next: usize = 0;
            while next < count
                invariant
                    next <= count,
                    self@.valid(),
                    count == self.world_size,
                    current < count,
                    source < count,
                    permitted@.len() == count,
                    routes == (Routes {
                        model: self@,
                        rail: match rail {
                            Some(rail) => Some(rail as int),
                            None => None,
                        },
                        bytes: bytes as int,
                        permitted: permitted@,
                    }),
                    settled@ == before.update(current as int, true),
                    before.len() == count,
                    !before[current as int],
                    times@.len() == count,
                    times@[current as int] == least,
                    least < u64::MAX,
                    routes.searching(source as int, times@, settled@),
                    forall|u: int, v: int|
                        0 <= u < count && 0 <= v < count && before[u] && !settled@[v]
                            ==> #[trigger] routes.told(times@, u, v),
                    forall|v: int|
                        0 <= v < next && !settled@[v] ==> #[trigger] routes.told(
                            times@,
                            current as int,
                            v,
                        ),
                decreases count - next,
            {
                if !settled[next] && permitted[current] && permitted[next] {
                    match self.route_link(current as u32, next as u32, rail) {
                        Some(link) => {
                            let edge: u64 = link_transfer_time_ns(link, bytes);
                            let candidate: u64 = saturating_add_u64(times[current], edge);
                            assert(routes.edge(current as int, next as int) == Some(edge));
                            if candidate < times[next] {
                                let ghost earlier = times@;
                                times.set(next, candidate);
                                proof {
                                    routes.lemma_reach_on(
                                        source as int,
                                        current as int,
                                        next as int,
                                        least as int,
                                    );
                                    assert(candidate == least + edge);
                                    assert(routes.reached(
                                        source as int,
                                        next as int,
                                        candidate as int,
                                    ));
                                    assert forall|u: int, v: int|
                                        0 <= u < count && 0 <= v < count && before[u]
                                            && !settled@[v] implies #[trigger] routes.told(
                                        times@,
                                        u,
                                        v,
                                    ) by {
                                        assert(routes.told(earlier, u, v));
                                    }
                                    assert forall|v: int|
                                        0 <= v < next && !settled@[v] implies #[trigger] routes.told(
                                        times@,
                                        current as int,
                                        v,
                                    ) by {
                                        assert(routes.told(earlier, current as int, v));
                                    }
                                }
                            }
                        },
                        None => {},
                    }
                }
                next = next + 1;
            }
        }
    }

    /// The time of the fastest route over whole links.
    pub fn shortest_transfer_time_ns(&self, source: u32, destination: u32, bytes: usize) -> (time:
        Option<u64>)
        requires
            self@.valid(),
            source < self@.world_size,
            destination < self@.world_size,
        ensures
            time == self@.route_time(source as int, destination as int, bytes as int),
    {
        let permitted = filled(self.world_size as usize, true);
        self.shortest_route(source, destination, bytes, None, &permitted)
    }

    /// The time of the fastest route on one rail.
    pub fn shortest_transfer_time_ns_on_rail(
        &self,
        source: u32,
        destination: u32,
        bytes: usize,
        rail: usize,
    ) -> (time: Option<u64>)
        requires
            self@.valid(),
            source < self@.world_size,
            destination < self@.world_size,
        ensures
            time == self@.rail_route_time(
                source as int,
                destination as int,
                bytes as int,
                rail as int,
            ),
    {
        let permitted = filled(self.world_size as usize, true);
        self.shortest_route(source, destination, bytes, Some(rail), &permitted)
    }

    /// The time of the fastest route over whole links between members of a
    /// group.
    pub fn shortest_transfer_time_ns_within(
        &self,
        source: u32,
        destination: u32,
        bytes: usize,
        allowed: &[u32],
    ) -> (time: Option<u64>)
        requires
            self@.valid(),
            source < self@.world_size,
            destination < self@.world_size,
            forall|i: int| 0 <= i < allowed@.len() ==> #[trigger] allowed@[i] < self@.world_size,
        ensures
            time == self@.group_route_time(
                source as int,
                destination as int,
                bytes as int,
                allowed@,
            ),
    {
        let mut permitted = filled(self.world_size as usize, false);
        let mut index: usize = 0;
        while index < allowed.len()
            invariant
                index <= allowed.len(),
                permitted@.len() == self.world_size,
                forall|i: int|
                    0 <= i < allowed@.len() ==> #[trigger] allowed@[i] < self@.world_size,
                forall|v: int|
                    0 <= v < self.world_size ==> (#[trigger] permitted@[v] <==> allowed@.take(
                        index as int,
                    ).contains(v as u32)),
            decreases allowed.len() - index,
        {
            let ghost before = permitted@;
            permitted.set(allowed[index] as usize, true);
            proof {
                let now = allowed@.take(index + 1);
                let was = allowed@.take(index as int);
                assert(now.last() == allowed@[index as int]);
                assert(now.drop_last() =~= was);
                assert forall|v: int| 0 <= v < self.world_size implies (#[trigger] permitted@[v]
                    <==> now.contains(v as u32)) by {
                    if was.contains(v as u32) {
                        let k = choose|k: int| 0 <= k < was.len() && was[k] == v as u32;
                        assert(now[k] == v as u32);
                    }
                    if now.contains(v as u32) && v as u32 != allowed@[index as int] {
                        let k = choose|k: int| 0 <= k < now.len() && now[k] == v as u32;
                        assert(was[k] == v as u32);
                    }
                    assert(now[index as int] == allowed@[index as int]);
                }
            }
            index = index + 1;
        }
        assert(allowed@.take(index as int) =~= allowed@);
        assert(permitted@ =~= Seq::new(
            self.world_size as nat,
            |v: int| allowed@.contains(v as u32),
        ));
        self.shortest_route(source, destination, bytes, None, &permitted)
    }
}

impl TopologyModel {
    /// All ranks permitted.
    pub open spec fn everyone(self) -> Seq<bool> {
        Seq::new(self.world_size as nat, |i: int| true)
    }

    /// The time of the fastest route over whole links.
    pub open spec fn route_time(self, source: int, destination: int, bytes: int) -> Option<u64> {
        (Routes { model: self, rail: None, bytes, permitted: self.everyone() }).distance(
            source,
            destination,
        )
    }

    /// The time of the fastest route on one rail.
    pub open spec fn rail_route_time(
        self,
        source: int,
        destination: int,
        bytes: int,
        rail: int,
    ) -> Option<u64> {
        (Routes { model: self, rail: Some(rail), bytes, permitted: self.everyone() }).distance(
            source,
            destination,
        )
    }

    /// The time of the fastest route between members of a group.
    pub open spec fn group_route_time(
        self,
        source: int,
        destination: int,
        bytes: int,
        group: Seq<u32>,
    ) -> Option<u64> {
        (Routes {
            model: self,
            rail: None,
            bytes,
            permitted: Seq::new(self.world_size as nat, |v: int| group.contains(v as u32)),
        }).distance(source, destination)
    }
}

} // verus!

//! Links between ranks: whole links, links of single rails, and caps on what
//! all rails of a pair carry together.

use crate::rank::topology::{
    TopologyError, TopologyFailure, DEFAULT_BANDWIDTH_MBPS, DEFAULT_LATENCY_NS, MAX_P2P_RAILS,
};
use vstd::prelude::*;

verus! {

#[derive(Debug, Clone, Copy, PartialEq, Eq, Structural)]
pub struct TopologyLink {
    pub first_rank: u32,
    pub second_rank: u32,
    pub bandwidth_mbps: u64,
    pub latency_ns: u64,
}

#[derive(Debug, Clone, Copy, PartialEq, Eq, Structural)]
pub struct TopologyRailLink {
    pub rail: usize,
    pub first_rank: u32,
    pub second_rank: u32,
    pub bandwidth_mbps: u64,
    pub latency_ns: u64,
}

#[derive(Debug, Clone, Copy, PartialEq, Eq, Structural)]
pub struct TopologyAggregateLink {
    pub first_rank: u32,
    pub second_rank: u32,
    pub bandwidth_mbps: u64,
}

/// What one link costs.
#[derive(Debug, Clone, Copy, PartialEq, Eq, Structural)]
pub struct LinkCost {
    pub bandwidth_mbps: u64,
    pub latency_ns: u64,
}

#[derive(Debug, Clone, PartialEq, Eq)]
pub struct CollectiveTopology {
    pub world_size: u32,
    pub links: Vec<Vec<Option<LinkCost>>>,
    pub rail_links: Vec<Vec<Vec<Option<LinkCost>>>>,
    pub aggregate_links: Vec<Vec<Option<u64>>>,
}

/// A table of pairs of ranks.
pub open spec fn table<T>(rows: Seq<Vec<T>>) -> Seq<Seq<T>> {
    Seq::new(rows.len(), |i: int| rows[i]@)
}

/// A topology as plain data.
#[verifier::ext_equal]
pub struct TopologyModel {
    pub world_size: u32,
    pub links: Seq<Seq<Option<LinkCost>>>,
    pub rail_links: Seq<Seq<Seq<Option<LinkCost>>>>,
    pub aggregate_links: Seq<Seq<Option<u64>>>,
}

impl View for CollectiveTopology {
    type V = TopologyModel;

    open spec fn view(&self) -> TopologyModel {
        TopologyModel {
            world_size: self.world_size,
            links: table(self.links@),
            rail_links: Seq::new(self.rail_links@.len(), |i: int| table(self.rail_links@[i]@)),
            aggregate_links: table(self.aggregate_links@),
        }
    }
}

/// A square table of the world's size.
pub open spec fn square<T>(rows: Seq<Seq<T>>, size: int) -> bool {
    rows.len() == size && forall|i: int| 0 <= i < size ==> (#[trigger] rows[i]).len() == size
}

/// A table that reads the same from both ends of every link.
pub open spec fn symmetric<T>(rows: Seq<Seq<Option<T>>>, size: int) -> bool {
    forall|i: int, j: int|
        0 <= i < size && 0 <= j < size ==> #[trigger] rows[i][j] == rows[j][i]
}

/// A link table: square, symmetric, no rank linked to itself, no link without
/// bandwidth.
pub open spec fn link_table(rows: Seq<Seq<Option<LinkCost>>>, size: int) -> bool {
    &&& square(rows, size)
    &&& symmetric(rows, size)
    &&& forall|i: int| 0 <= i < size ==> (#[trigger] rows[i])[i] is None
    &&& forall|i: int, j: int|
        0 <= i < size && 0 <= j < size ==> (#[trigger] rows[i][j] matches Some(cost)
            ==> cost.bandwidth_mbps > 0)
}

/// A table of caps.
pub open spec fn cap_table(rows: Seq<Seq<Option<u64>>>, size: int) -> bool {
    &&& square(rows, size)
    &&& symmetric(rows, size)
    &&& forall|i: int| 0 <= i < size ==> (#[trigger] rows[i])[i] is None
    &&& forall|i: int, j: int|
        0 <= i < size && 0 <= j < size ==> (#[trigger] rows[i][j] matches Some(cap) ==> cap > 0)
}

/// A table with one entry set for a pair, in both directions.
pub open spec fn with_pair<T>(
    rows: Seq<Seq<Option<T>>>,
    first: int,
    second: int,
    value: T,
) -> Seq<Seq<Option<T>>> {
    Seq::new(
        rows.len(),
        |i: int|
            Seq::new(
                rows[i].len(),
                |j: int|
                    if (i == first && j == second) || (i == second && j == first) {
                        Some(value)
                    } else {
                        rows[i][j]
                    },
            ),
    )
}

/// A table without entries.
pub open spec fn blank<T>(size: int) -> Seq<Seq<Option<T>>> {
    Seq::new(size as nat, |i: int| Seq::new(size as nat, |j: int| None::<T>))
}

impl TopologyModel {
    pub open spec fn valid(self) -> bool {
        &&& self.world_size > 0
        &&& link_table(self.links, self.world_size as int)
        &&& self.rail_links.len() <= MAX_P2P_RAILS
        &&& forall|r: int|
            0 <= r < self.rail_links.len() ==> link_table(
                #[trigger] self.rail_links[r],
                self.world_size as int,
            )
        &&& cap_table(self.aggregate_links, self.world_size as int)
    }

    pub open spec fn in_world(self, rank: u32) -> bool {
        rank < self.world_size
    }

    /// The link between two ranks.
    pub open spec fn link(self, first: int, second: int) -> Option<LinkCost> {
        self.links[first][second]
    }

    /// The link between two ranks on one rail: the rail's own, or the whole
    /// link where the rail has none.
    pub open spec fn link_on_rail(self, first: int, second: int, rail: int) -> Option<LinkCost> {
        if 0 <= rail < self.rail_links.len() && self.rail_links[rail][first][second] is Some {
            self.rail_links[rail][first][second]
        } else {
            self.link(first, second)
        }
    }

    pub open spec fn empty(world_size: u32) -> TopologyModel {
        TopologyModel {
            world_size,
            links: blank(world_size as int),
            rail_links: Seq::empty(),
            aggregate_links: blank(world_size as int),
        }
    }

    /// Every two ranks linked alike.
    pub open spec fn uniform(world_size: u32) -> TopologyModel {
        TopologyModel {
            links: Seq::new(
                world_size as nat,
                |i: int|
                    Seq::new(
                        world_size as nat,
                        |j: int|
                            if i == j {
                                None::<LinkCost>
                            } else {
                                Some(
                                    LinkCost {
                                        bandwidth_mbps: DEFAULT_BANDWIDTH_MBPS,
                                        latency_ns: DEFAULT_LATENCY_NS,
                                    },
                                )
                            },
                    ),
            ),
            ..TopologyModel::empty(world_size)
        }
    }

    /// Why a link between two ranks is refused, if it is.
    pub open spec fn pair_defect(self, first: u32, second: u32, bandwidth: u64) -> Option<
        TopologyFailure,
    > {
        if !self.in_world(first) {
            Some(TopologyFailure::RankOutOfRange { rank: first, world_size: self.world_size })
        } else if !self.in_world(second) {
            Some(TopologyFailure::RankOutOfRange { rank: second, world_size: self.world_size })
        } else if first == second {
            Some(TopologyFailure::SelfLink(first))
        } else if bandwidth == 0 {
            Some(TopologyFailure::ZeroBandwidth { first_rank: first, second_rank: second })
        } else {
            None
        }
    }

    pub open spec fn with_link(self, link: TopologyLink) -> TopologyModel {
        TopologyModel {
            links: with_pair(
                self.links,
                link.first_rank as int,
                link.second_rank as int,
                LinkCost { bandwidth_mbps: link.bandwidth_mbps, latency_ns: link.latency_ns },
            ),
            ..self
        }
    }

    /// The rail tables, extended by blank ones until `count` are there.
    pub open spec fn rails_up_to(self, count: int) -> Seq<Seq<Seq<Option<LinkCost>>>> {
        Seq::new(
            if self.rail_links.len() >= count {
                self.rail_links.len()
            } else {
                count as nat
            },
            |r: int|
                if r < self.rail_links.len() {
                    self.rail_links[r]
                } else {
                    blank(self.world_size as int)
                },
        )
    }

    pub open spec fn with_rail_link(self, link: TopologyRailLink) -> TopologyModel {
        let tables = self.rails_up_to(link.rail + 1);
        TopologyModel {
            rail_links: tables.update(
                link.rail as int,
                with_pair(
                    tables[link.rail as int],
                    link.first_rank as int,
                    link.second_rank as int,
                    LinkCost { bandwidth_mbps: link.bandwidth_mbps, latency_ns: link.latency_ns },
                ),
            ),
            ..self
        }
    }

    pub open spec fn with_aggregate_link(self, link: TopologyAggregateLink) -> TopologyModel {
        TopologyModel {
            aggregate_links: with_pair(
                self.aggregate_links,
                link.first_rank as int,
                link.second_rank as int,
                link.bandwidth_mbps,
            ),
            ..self
        }
    }
}

/// The pairs of `first` with the higher ranks below `end`, ascending.
pub open spec fn row_pairs(first: int, end: int) -> Seq<(u32, u32)>
    decreases end - first,
{
    if end <= first + 1 {
        Seq::empty()
    } else {
        row_pairs(first, end - 1).push((first as u32, (end - 1) as u32))
    }
}

/// The pairs of distinct ranks whose lower rank is below `rows`, the lower
/// rank first, in ascending order.
pub open spec fn pairs_below(rows: int, size: int) -> Seq<(u32, u32)>
    decreases rows,
{
    if rows <= 0 {
        Seq::empty()
    } else {
        pairs_below(rows - 1, size) + row_pairs(rows - 1, size)
    }
}

/// All pairs of distinct ranks of a world, ascending.
pub open spec fn rank_pairs_of(size: u32) -> Seq<(u32, u32)> {
    pairs_below(size as int, size as int)
}

proof fn lemma_row_pairs(first: int, end: int, size: int)
    requires
        0 <= first,
        end <= size <= u32::MAX,
    ensures
        forall|k: int|
            0 <= k < row_pairs(first, end).len() ==> (#[trigger] row_pairs(first, end)[k]).0
                == first && first < row_pairs(first, end)[k].1 < end,
    decreases end - first,
{
    if end > first + 1 {
        lemma_row_pairs(first, end - 1, size);
        let shorter = row_pairs(first, end - 1);
        assert forall|k: int| 0 <= k < row_pairs(first, end).len() implies (
        #[trigger] row_pairs(first, end)[k]).0 == first && first < row_pairs(first, end)[k].1
            < end by {
            if k < shorter.len() {
                assert(row_pairs(first, end)[k] == shorter[k]);
            }
        }
    }
}

/// Every listed pair is ordered and inside the world.
pub proof fn lemma_pairs_bounds(rows: int, size: int)
    requires
        rows <= size <= u32::MAX,
    ensures
        forall|k: int|
            0 <= k < pairs_below(rows, size).len() ==> (#[trigger] pairs_below(rows, size)[k]).0
                < pairs_below(rows, size)[k].1 < size,
    decreases rows,
{
    if rows > 0 {
        lemma_pairs_bounds(rows - 1, size);
        lemma_row_pairs(rows - 1, size, size);
        let head = pairs_below(rows - 1, size);
        let tail = row_pairs(rows - 1, size);
        assert forall|k: int| 0 <= k < pairs_below(rows, size).len() implies (
        #[trigger] pairs_below(rows, size)[k]).0 < pairs_below(rows, size)[k].1 < size by {
            if k < head.len() {
                assert(pairs_below(rows, size)[k] == head[k]);
            } else {
                assert(pairs_below(rows, size)[k] == tail[k - head.len()]);
            }
        }
    }
}

/// Lists the pairs of distinct ranks, ascending.
pub fn rank_pairs(size: u32) -> (pairs: Vec<(u32, u32)>)
    ensures
        pairs@ == rank_pairs_of(size),
        forall|k: int|
            0 <= k < pairs@.len() ==> (#[trigger] pairs@[k]).0 < pairs@[k].1 < size,
{
    let mut pairs: Vec<(u32, u32)> = Vec::new();
    let mut first: u32 = 0;
    while first < size
        invariant
            first <= size,
            pairs@ == pairs_below(first as int, size as int),
        decreases size - first,
    {
        let mut second: u32 = first + 1;
        let ghost head = pairs@;
        assert(pairs@ =~= head + row_pairs(first as int, second as int));
        while second < size
            invariant
                first < second <= size,
                pairs@ == head + row_pairs(first as int, second as int),
            decreases size - second,
        {
            pairs.push((first, second));
            assert(row_pairs(first as int, second + 1) == row_pairs(
                first as int,
                second as int,
            ).push((first, second)));
            assert(pairs@ =~= head + row_pairs(first as int, second + 1));
            second = second + 1;
        }
        first = first + 1;
    }
    proof {
        lemma_pairs_bounds(size as int, size as int);
    }
    pairs
}

/// The links of the listed pairs, in their order.
pub open spec fn links_of(model: TopologyModel, pairs: Seq<(u32, u32)>) -> Seq<TopologyLink>
    decreases pairs.len(),
{
    if pairs.len() == 0 {
        Seq::empty()
    } else {
        let rest = links_of(model, pairs.drop_last());
        let (first_rank, second_rank) = pairs.last();
        match model.link(first_rank as int, second_rank as int) {
            Some(cost) => rest.push(
                TopologyLink {
                    first_rank,
                    second_rank,
                    bandwidth_mbps: cost.bandwidth_mbps,
                    latency_ns: cost.latency_ns,
                },
            ),
            None => rest,
        }
    }
}

/// One rail's own links of the listed pairs, in their order.
pub open spec fn one_rail_links_of(
    model: TopologyModel,
    rail: int,
    pairs: Seq<(u32, u32)>,
) -> Seq<TopologyRailLink>
    decreases pairs.len(),
{
    if pairs.len() == 0 {
        Seq::empty()
    } else {
        let rest = one_rail_links_of(model, rail, pairs.drop_last());
        let (first_rank, second_rank) = pairs.last();
        match model.rail_links[rail][first_rank as int][second_rank as int] {
            Some(cost) => rest.push(
                TopologyRailLink {
                    rail: rail as usize,
                    first_rank,
                    second_rank,
                    bandwidth_mbps: cost.bandwidth_mbps,
                    latency_ns: cost.latency_ns,
                },
            ),
            None => rest,
        }
    }
}

/// The own links of the first `rails` rails, rail by rail.
pub open spec fn rail_links_of(model: TopologyModel, rails: int) -> Seq<TopologyRailLink>
    decreases rails,
{
    if rails <= 0 {
        Seq::empty()
    } else {
        rail_links_of(model, rails - 1) + one_rail_links_of(
            model,
            rails - 1,
            rank_pairs_of(model.world_size),
        )
    }
}

/// The caps of the listed pairs, in their order.
pub open spec fn aggregate_links_of(model: TopologyModel, pairs: Seq<(u32, u32)>) -> Seq<
    TopologyAggregateLink,
>
    decreases pairs.len(),
{
    if pairs.len() == 0 {
        Seq::empty()
    } else {
        let rest = aggregate_links_of(model, pairs.drop_last());
        let (first_rank, second_rank) = pairs.last();
        match model.aggregate_links[first_rank as int][second_rank as int] {
            Some(bandwidth_mbps) => rest.push(
                TopologyAggregateLink { first_rank, second_rank, bandwidth_mbps },
            ),
            None => rest,
        }
    }
}

fn blank_row<T>(size: usize) -> (row: Vec<Option<T>>)
    ensures
        row@ == Seq::new(size as nat, |j: int| None::<T>),
{
    let mut row: Vec<Option<T>> = Vec::new();
    let mut index: usize = 0;
    while index < size
        invariant
            index <= size,
            row@.len() == index,
            forall|j: int| 0 <= j < index ==> row@[j] is None,
        decreases size - index,
    {
        row.push(None);
        index = index + 1;
    }
    assert(row@ =~= Seq::new(size as nat, |j: int| None::<T>));
    row
}

fn blank_table<T>(size: usize) -> (rows: Vec<Vec<Option<T>>>)
    ensures
        table(rows@) == blank::<T>(size as int),
{
    let mut rows: Vec<Vec<Option<T>>> = Vec::new();
    let mut index: usize = 0;
    while index < size
        invariant
            index <= size,
            rows@.len() == index,
            forall|i: int|
                0 <= i < index ==> (#[trigger] rows@[i])@ == Seq::new(
                    size as nat,
                    |j: int| None::<T>,
                ),
        decreases size - index,
    {
        rows.push(blank_row(size));
        index = index + 1;
    }
    assert(table(rows@) =~= blank::<T>(size as int));
    rows
}

/// Sets one entry for a pair, in both directions.
fn set_pair<T: Copy>(rows: &mut Vec<Vec<Option<T>>>, first: usize, second: usize, value: T)
    requires
        first != second,
        first < old(rows)@.len(),
        second < old(rows)@.len(),
        second < old(rows)@[first as int]@.len(),
        first < old(rows)@[second as int]@.len(),
    ensures
        table(final(rows)@) == with_pair(table(old(rows)@), first as int, second as int, value),
{
    let ghost before = table(rows@);
    rows[first][second] = Some(value);
    rows[second][first] = Some(value);
    let ghost after = table(rows@);
    let ghost wanted = with_pair(before, first as int, second as int, value);
    assert(after.len() == wanted.len());
    assert forall|i: int| 0 <= i < wanted.len() implies #[trigger] after[i] == wanted[i] by {
        assert(after[i] =~= wanted[i]);
    }
    assert(after =~= wanted);
}

impl CollectiveTopology {
    pub fn uniform(world_size: u32) -> (result: Result<Self, TopologyError>)
        ensures
            match result {
                Ok(topology) => {
                    &&& world_size > 0
                    &&& topology@ == TopologyModel::uniform(world_size)
                    &&& topology@.valid()
                },
                Err(error) => world_size == 0 && error@ == TopologyFailure::EmptyWorld,
            },
    {
        let mut topology = match CollectiveTopology::empty(world_size) {
            Ok(topology) => topology,
            Err(error) => {
                return Err(error);
            },
        };
        let cost = LinkCost {
            bandwidth_mbps: DEFAULT_BANDWIDTH_MBPS,
            latency_ns: DEFAULT_LATENCY_NS,
        };
        let size: usize = world_size as usize;
        let mut links: Vec<Vec<Option<LinkCost>>> = Vec::new();
        let mut first: usize = 0;
        let ghost wanted = TopologyModel::uniform(world_size).links;
        while first < size
            invariant
                first <= size,
                size == world_size,
                cost.bandwidth_mbps == DEFAULT_BANDWIDTH_MBPS,
                cost.latency_ns == DEFAULT_LATENCY_NS,
                wanted == TopologyModel::uniform(world_size).links,
                links@.len() == first,
                forall|i: int| 0 <= i < first ==> (#[trigger] links@[i])@ == wanted[i],
            decreases size - first,
        {
            let mut row: Vec<Option<LinkCost>> = Vec::new();
            let mut second: usize = 0;
            while second < size
                invariant
                    first < size,
                    second <= size,
                    size == world_size,
                    cost.bandwidth_mbps == DEFAULT_BANDWIDTH_MBPS,
                    cost.latency_ns == DEFAULT_LATENCY_NS,
                    wanted == TopologyModel::uniform(world_size).links,
                    row@.len() == second,
                    forall|j: int|
                        0 <= j < second ==> #[trigger] row@[j] == wanted[first as int][j],
                decreases size - second,
            {
                if second == first {
                    row.push(None);
                } else {
                    row.push(Some(cost));
                }
                second = second + 1;
            }
            assert(row@ =~= wanted[first as int]);
            links.push(row);
            first = first + 1;
        }
        assert(table(links@) =~= wanted);
        topology.links = links;
        assert(topology@ =~= TopologyModel::uniform(world_size));
        Ok(topology)
    }

    pub fn empty(world_size: u32) -> (result: Result<Self, TopologyError>)
        ensures
            match result {
                Ok(topology) => {
                    &&& world_size > 0
                    &&& topology@ == TopologyModel::empty(world_size)
                    &&& topology@.valid()
                },
                Err(error) => world_size == 0 && error@ == TopologyFailure::EmptyWorld,
            },
    {
        if world_size == 0 {
            return Err(TopologyError::EmptyWorld);
        }
        let topology = Self {
            world_size,
            links: blank_table(world_size as usize),
            rail_links: Vec::new(),
            aggregate_links: blank_table(world_size as usize),
        };
        assert(topology@ =~= TopologyModel::empty(world_size));
        Ok(topology)
    }

    pub fn world_size(&self) -> (size: u32)
        ensures
            size == self@.world_size,
    {
        self.world_size
    }

    /// Refuses a pair of ranks that no link can join.
    fn check_pair(&self, first_rank: u32, second_rank: u32, bandwidth_mbps: u64) -> (result: Result<
        (),
        TopologyError,
    >)
        ensures
            match self@.pair_defect(first_rank, second_rank, bandwidth_mbps) {
                Some(defect) => result is Err && result->Err_0@ == defect,
                None => result is Ok,
            },
    {
        if first_rank >= self.world_size {
            return Err(
                TopologyError::RankOutOfRange { rank: first_rank, world_size: self.world_size },
            );
        }
        if second_rank >= self.world_size {
            return Err(
                TopologyError::RankOutOfRange { rank: second_rank, world_size: self.world_size },
            );
        }
        if first_rank == second_rank {
            return Err(TopologyError::SelfLink(first_rank));
        }
        if bandwidth_mbps == 0 {
            return Err(TopologyError::ZeroBandwidth { first_rank, second_rank });
        }
        Ok(())
    }

    pub fn add_link(&mut self, link: TopologyLink) -> (result: Result<(), TopologyError>)
        requires
            old(self)@.valid(),
        ensures
            final(self)@.valid(),
            match old(self)@.pair_defect(link.first_rank, link.second_rank, link.bandwidth_mbps) {
                Some(defect) => {
                    &&& result is Err
                    &&& result->Err_0@ == defect
                    &&& final(self)@ == old(self)@
                },
                None => result is Ok && final(self)@ == old(self)@.with_link(link),
            },
    {
        match self.check_pair(link.first_rank, link.second_rank, link.bandwidth_mbps) {
            Ok(()) => {},
            Err(error) => {
                return Err(error);
            },
        }
        let cost = LinkCost { bandwidth_mbps: link.bandwidth_mbps, latency_ns: link.latency_ns };
        assert(self@.links[link.first_rank as int].len() == self.world_size);
        assert(self@.links[link.second_rank as int].len() == self.world_size);
        set_pair(
            &mut self.links,
            link.first_rank as usize,
            link.second_rank as usize,
            cost,
        );
        assert(self@ =~= old(self)@.with_link(link));
        Ok(())
    }

    pub fn links(&self) -> (links: Vec<TopologyLink>)
        requires
            self@.valid(),
        ensures
            links@ == links_of(self@, rank_pairs_of(self@.world_size)),
    {
        let pairs = rank_pairs(self.world_size);
        let mut links: Vec<TopologyLink> = Vec::new();
        let mut index: usize = 0;
        while index < pairs.len()
            invariant
                index <= pairs.len(),
                self@.valid(),
                forall|k: int|
                    0 <= k < pairs@.len() ==> (#[trigger] pairs@[k]).0 < pairs@[k].1
                        < self.world_size,
                links@ == links_of(self@, pairs@.take(index as int)),
            decreases pairs.len() - index,
        {
            let (first_rank, second_rank) = pairs[index];
            assert(pairs@.take(index + 1).drop_last() =~= pairs@.take(index as int));
            match self.link(first_rank, second_rank) {
                Some(cost) => {
                    links.push(
                        TopologyLink {
                            first_rank,
                            second_rank,
                            bandwidth_mbps: cost.bandwidth_mbps,
                            latency_ns: cost.latency_ns,
                        },
                    );
                },
                None => {},
            }
            index = index + 1;
        }
        assert(pairs@.take(index as int) =~= pairs@);
        links
    }

    pub fn add_rail_link(&mut self, link: TopologyRailLink) -> (result: Result<(), TopologyError>)
        requires
            old(self)@.valid(),
        ensures
            final(self)@.valid(),
            if link.rail >= MAX_P2P_RAILS {
                &&& result is Err
                &&& result->Err_0@ == TopologyFailure::InvalidP2pRails(
                    crate::math::saturate_usize(link.rail + 1),
                )
                &&& final(self)@ == old(self)@
            } else {
                match old(self)@.pair_defect(
                    link.first_rank,
                    link.second_rank,
                    link.bandwidth_mbps,
                ) {
                    Some(defect) => {
                        &&& result is Err
                        &&& result->Err_0@ == defect
                        &&& final(self)@ == old(self)@
                    },
                    None => result is Ok && final(self)@ == old(self)@.with_rail_link(link),
                }
            },
    {
        match validate_p2p_rails(crate::math::saturating_add_usize(link.rail, 1)) {
            Ok(()) => {},
            Err(error) => {
                return Err(error);
            },
        }
        match self.check_pair(link.first_rank, link.second_rank, link.bandwidth_mbps) {
            Ok(()) => {},
            Err(error) => {
                return Err(error);
            },
        }
        let ghost before = self@;
        while self.rail_links.len() <= link.rail
            invariant
                before.valid(),
                before == old(self)@,
                link.rail < MAX_P2P_RAILS,
                self.world_size == before.world_size,
                self@.links == before.links,
                self@.aggregate_links == before.aggregate_links,
                self@.rail_links.len() >= before.rail_links.len(),
                self@.rail_links.len() <= link.rail + 1 || self@.rail_links.len()
                    == before.rail_links.len(),
                forall|r: int|
                    0 <= r < self@.rail_links.len() ==> #[trigger] self@.rail_links[r] == (if r
                        < before.rail_links.len() {
                        before.rail_links[r]
                    } else {
                        blank(before.world_size as int)
                    }),
            decreases link.rail + 1 - self.rail_links.len(),
        {
            let ghost earlier = self@.rail_links;
            self.rail_links.push(blank_table(self.world_size as usize));
            assert(self@.rail_links =~= earlier.push(blank(before.world_size as int)));
        }
        assert(self@.rail_links =~= before.rails_up_to(link.rail + 1));
        let cost = LinkCost { bandwidth_mbps: link.bandwidth_mbps, latency_ns: link.latency_ns };
        let ghost tables = self@.rail_links;
        assert(link_table(tables[link.rail as int], self.world_size as int));
        let mut rows: Vec<Vec<Option<LinkCost>>> = Vec::new();
        std::mem::swap(&mut rows, &mut self.rail_links[link.rail]);
        assert(table(rows@) == tables[link.rail as int]);
        assert(table(rows@)[link.first_rank as int].len() == self.world_size);
        assert(table(rows@)[link.second_rank as int].len() == self.world_size);
        set_pair(&mut rows, link.first_rank as usize, link.second_rank as usize, cost);
        self.rail_links[link.rail] = rows;
        assert(self@.rail_links =~= before.with_rail_link(link).rail_links);
        assert(self@ =~= before.with_rail_link(link));
        assert forall|r: int| 0 <= r < self@.rail_links.len() implies link_table(
            #[trigger] self@.rail_links[r],
            self@.world_size as int,
        ) by {
            if r != link.rail {
                assert(self@.rail_links[r] == tables[r]);
            }
        }
        Ok(())
    }

    pub fn rail_links(&self) -> (links: Vec<TopologyRailLink>)
        requires
            self@.valid(),
        ensures
            links@ == rail_links_of(self@, self@.rail_links.len() as int),
    {
        let pairs = rank_pairs(self.world_size);
        let mut links: Vec<TopologyRailLink> = Vec::new();
        let mut rail: usize = 0;
        while rail < self.rail_links.len()
            invariant
                rail <= self.rail_links.len(),
                self@.valid(),
                pairs@ == rank_pairs_of(self.world_size),
                forall|k: int|
                    0 <= k < pairs@.len() ==> (#[trigger] pairs@[k]).0 < pairs@[k].1
                        < self.world_size,
                links@ == rail_links_of(self@, rail as int),
            decreases self.rail_links.len() - rail,
        {
            let ghost head = links@;
            let mut index: usize = 0;
            assert(link_table(self@.rail_links[rail as int], self.world_size as int));
            assert(head + one_rail_links_of(self@, rail as int, pairs@.take(0)) =~= head);
            while index < pairs.len()
                invariant
                    index <= pairs.len(),
                    rail < self.rail_links.len(),
                    self@.valid(),
                    link_table(self@.rail_links[rail as int], self.world_size as int),
                    forall|k: int|
                        0 <= k < pairs@.len() ==> (#[trigger] pairs@[k]).0 < pairs@[k].1
                            < self.world_size,
                    links@ == head + one_rail_links_of(
                        self@,
                        rail as int,
                        pairs@.take(index as int),
                    ),
                decreases pairs.len() - index,
            {
                let (first_rank, second_rank) = pairs[index];
                assert(pairs@.take(index + 1).drop_last() =~= pairs@.take(index as int));
                assert(self@.rail_links[rail as int][first_rank as int].len() == self.world_size);
                match self.rail_links[rail][first_rank as usize][second_rank as usize] {
                    Some(cost) => {
                        links.push(
                            TopologyRailLink {
                                rail,
                                first_rank,
                                second_rank,
                                bandwidth_mbps: cost.bandwidth_mbps,
                                latency_ns: cost.latency_ns,
                            },
                        );
                    },
                    None => {},
                }
                assert(links@ =~= head + one_rail_links_of(
                    self@,
                    rail as int,
                    pairs@.take(index + 1),
                ));
                index = index + 1;
            }
            assert(pairs@.take(index as int) =~= pairs@);
            rail = rail + 1;
        }
        links
    }

    pub fn add_aggregate_link(&mut self, link: TopologyAggregateLink) -> (result: Result<
        (),
        TopologyError,
    >)
        requires
            old(self)@.valid(),
        ensures
            final(self)@.valid(),
            match old(self)@.pair_defect(link.first_rank, link.second_rank, link.bandwidth_mbps) {
                Some(defect) => {
                    &&& result is Err
                    &&& result->Err_0@ == defect
                    &&& final(self)@ == old(self)@
                },
                None => result is Ok && final(self)@ == old(self)@.with_aggregate_link(link),
            },
    {
        match self.check_pair(link.first_rank, link.second_rank, link.bandwidth_mbps) {
            Ok(()) => {},
            Err(error) => {
                return Err(error);
            },
        }
        assert(self@.aggregate_links[link.first_rank as int].len() == self.world_size);
        assert(self@.aggregate_links[link.second_rank as int].len() == self.world_size);
        set_pair(
            &mut self.aggregate_links,
            link.first_rank as usize,
            link.second_rank as usize,
            link.bandwidth_mbps,
        );
        assert(self@ =~= old(self)@.with_aggregate_link(link));
        Ok(())
    }

    pub fn aggregate_links(&self) -> (links: Vec<TopologyAggregateLink>)
        requires
            self@.valid(),
        ensures
            links@ == aggregate_links_of(self@, rank_pairs_of(self@.world_size)),
    {
        let pairs = rank_pairs(self.world_size);
        let mut links: Vec<TopologyAggregateLink> = Vec::new();
        let mut index: usize = 0;
        while index < pairs.len()
            invariant
                index <= pairs.len(),
                self@.valid(),
                forall|k: int|
                    0 <= k < pairs@.len() ==> (#[trigger] pairs@[k]).0 < pairs@[k].1
                        < self.world_size,
                links@ == aggregate_links_of(self@, pairs@.take(index as int)),
            decreases pairs.len() - index,
        {
            let (first_rank, second_rank) = pairs[index];
            assert(pairs@.take(index + 1).drop_last() =~= pairs@.take(index as int));
            match self.aggregate_bandwidth_mbps(first_rank, second_rank) {
                Some(bandwidth_mbps) => {
                    links.push(TopologyAggregateLink { first_rank, second_rank, bandwidth_mbps });
                },
                None => {},
            }
            index = index + 1;
        }
        assert(pairs@.take(index as int) =~= pairs@);
        links
    }

    /// The link between two ranks.
    pub fn link(&self, first: u32, second: u32) -> (cost: Option<LinkCost>)
        requires
            self@.valid(),
            first < self@.world_size,
            second < self@.world_size,
        ensures
            cost == self@.link(first as int, second as int),
    {
        assert(self@.links[first as int].len() == self.world_size);
        self.links[first as usize][second as usize]
    }

    /// The link between two ranks on one rail.
    pub fn link_on_rail(&self, first: u32, second: u32, rail: usize) -> (cost: Option<LinkCost>)
        requires
            self@.valid(),
            first < self@.world_size,
            second < self@.world_size,
        ensures
            cost == self@.link_on_rail(first as int, second as int, rail as int),
    {
        if rail < self.rail_links.len() {
            assert(link_table(self@.rail_links[rail as int], self.world_size as int));
            assert(self@.rail_links[rail as int][first as int].len() == self.world_size);
            let own = self.rail_links[rail][first as usize][second as usize];
            if own.is_some() {
                return own;
            }
        }
        self.link(first, second)
    }

    /// The cap on what all rails of a pair carry together.
    pub fn aggregate_bandwidth_mbps(&self, first: u32, second: u32) -> (cap: Option<u64>)
        requires
            self@.valid(),
            first < self@.world_size,
            second < self@.world_size,
        ensures
            cap == self@.aggregate_links[first as int][second as int],
    {
        assert(self@.aggregate_links[first as int].len() == self.world_size);
        self.aggregate_links[first as usize][second as usize]
    }
}

/// Refuses a rail count that no session can have.
pub fn validate_p2p_rails(rails: usize) -> (result: Result<(), TopologyError>)
    ensures
        match result {
            Ok(()) => 0 < rails <= MAX_P2P_RAILS,
            Err(error) => !(0 < rails <= MAX_P2P_RAILS) && error@
                == TopologyFailure::InvalidP2pRails(rails),
        },
{
    if rails == 0 || rails > MAX_P2P_RAILS {
        return Err(TopologyError::InvalidP2pRails(rails));
    }
    Ok(())
}

/// A link that was added is read back the same from both of its ends, and no
/// other pair changes.
pub proof fn law_added_link_is_read_back(
    model: TopologyModel,
    link: TopologyLink,
    first: int,
    second: int,
)
    requires
        model.valid(),
        model.pair_defect(link.first_rank, link.second_rank, link.bandwidth_mbps) is None,
        0 <= first < model.world_size,
        0 <= second < model.world_size,
    ensures
        ({
            let cost = Some(
                LinkCost { bandwidth_mbps: link.bandwidth_mbps, latency_ns: link.latency_ns },
            );
            let after = model.with_link(link);
            &&& after.link(link.first_rank as int, link.second_rank as int) == cost
            &&& after.link(link.second_rank as int, link.first_rank as int) == cost
            &&& !(first == link.first_rank && second == link.second_rank) && !(first
                == link.second_rank && second == link.first_rank) ==> after.link(first, second)
                == model.link(first, second)
        }),
{
}

} // verus!

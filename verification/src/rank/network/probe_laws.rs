//! What a probe has measured when it is done.

use crate::math::saturate_u64;
use crate::rank::network::laws::law_gathering_answers_all_alike;
use crate::rank::network::probe::{law_bucket, value_at, ProbeModel, ProbeTask};
use crate::rank::network::routing::route;
use crate::rank::protocol::frame::FrameModel;
use crate::rank::protocol::{Opcode, UniqueId};
use crate::rank::topology::links::{LinkCost, TopologyModel};
use crate::rank::topology::MAX_P2P_RAILS;
use vstd::prelude::*;

verus! {

impl TopologyModel {
    /// A rail's own link between two ranks.
    pub open spec fn own_link(self, rail: int, first: int, second: int) -> Option<LinkCost> {
        if rail < self.rail_links.len() {
            self.rail_links[rail][first][second]
        } else {
            None
        }
    }

    /// The first rails all have a link of their own between two ranks, which
    /// carries something and takes its time.
    pub open spec fn railed(self, first: int, second: int, rails: int) -> bool {
        forall|rail: int|
            0 <= rail < rails ==> {
                &&& (#[trigger] self.own_link(rail, first, second)) matches Some(link)
                &&& 0 < link.bandwidth_mbps
                &&& 0 < link.latency_ns
            }
    }

    /// The least bandwidth of the first rails' links between two ranks.
    pub open spec fn least_bandwidth(self, first: int, second: int, rails: int) -> u64
        decreases rails,
    {
        if rails <= 0 {
            u64::MAX
        } else {
            let before = self.least_bandwidth(first, second, rails - 1);
            let own = self.own_link(rails - 1, first, second)->0.bandwidth_mbps;
            if own < before {
                own
            } else {
                before
            }
        }
    }

    /// The greatest latency of the first rails' links between two ranks.
    pub open spec fn greatest_latency(self, first: int, second: int, rails: int) -> u64
        decreases rails,
    {
        if rails <= 0 {
            0
        } else {
            let before = self.greatest_latency(first, second, rails - 1);
            let own = self.own_link(rails - 1, first, second)->0.latency_ns;
            if own > before {
                own
            } else {
                before
            }
        }
    }

    /// The bandwidths of the first rails' links between two ranks, added up.
    pub open spec fn summed_bandwidth(self, first: int, second: int, rails: int) -> int
        decreases rails,
    {
        if rails <= 0 {
            0
        } else {
            self.summed_bandwidth(first, second, rails - 1) + self.own_link(
                rails - 1,
                first,
                second,
            )->0.bandwidth_mbps
        }
    }
}

/// The first rails have the same links between two ranks in both topologies.
spec fn same_rails(a: TopologyModel, b: TopologyModel, first: int, second: int, rails: int) -> bool {
    forall|rail: int|
        0 <= rail < rails ==> #[trigger] a.own_link(rail, first, second) == b.own_link(
            rail,
            first,
            second,
        )
}

proof fn lemma_same_rails(
    a: TopologyModel,
    b: TopologyModel,
    first: int,
    second: int,
    rails: int,
)
    requires
        same_rails(a, b, first, second, rails),
    ensures
        a.railed(first, second, rails) ==> b.railed(first, second, rails),
        a.least_bandwidth(first, second, rails) == b.least_bandwidth(first, second, rails),
        a.greatest_latency(first, second, rails) == b.greatest_latency(first, second, rails),
        a.summed_bandwidth(first, second, rails) == b.summed_bandwidth(first, second, rails),
    decreases rails,
{
    if rails > 0 {
        lemma_same_rails(a, b, first, second, rails - 1);
        assert(a.own_link(rails - 1, first, second) == b.own_link(rails - 1, first, second));
    }
    if a.railed(first, second, rails) {
        assert forall|rail: int| 0 <= rail < rails implies {
            &&& (#[trigger] b.own_link(rail, first, second)) matches Some(link)
            &&& 0 < link.bandwidth_mbps
            &&& 0 < link.latency_ns
        } by {
            assert(a.own_link(rail, first, second) is Some);
        }
    }
}

/// The least bandwidth and the greatest latency of some links.
proof fn lemma_positive(model: TopologyModel, first: int, second: int, rails: int)
    requires
        model.railed(first, second, rails),
        0 <= rails,
    ensures
        0 < model.least_bandwidth(first, second, rails),
        0 < rails ==> 0 < model.greatest_latency(first, second, rails),
    decreases rails,
{
    if rails > 0 {
        assert(model.own_link(rails - 1, first, second) is Some);
        lemma_positive(model, first, second, rails - 1);
    }
}

/// The bandwidths add up to one at least for each rail.
proof fn lemma_summed(model: TopologyModel, first: int, second: int, rails: int)
    requires
        model.valid(),
        model.railed(first, second, rails),
        0 <= first < model.world_size,
        0 <= second < model.world_size,
        0 <= rails,
    ensures
        rails <= model.summed_bandwidth(first, second, rails),
    decreases rails,
{
    if rails > 0 {
        assert(model.own_link(rails - 1, first, second) is Some);
        lemma_summed(model, first, second, rails - 1);
        assert(model.rail_links[rails - 1][first][second] is Some);
    }
}

impl ProbeModel {
    /// The probe after one more gathering: refused metrics change nothing.
    pub open spec fn taking(self, payload: Seq<u8>) -> ProbeModel {
        match self.task() {
            ProbeTask::Rail { .. } => if self.rail_defect(payload) is None {
                self.with_rail(payload)
            } else {
                self
            },
            ProbeTask::Aggregate { .. } => if self.aggregate_defect(payload) is None {
                self.with_aggregate(payload)
            } else {
                self
            },
            ProbeTask::Done => self,
        }
    }

    /// The probe of a world after these gatherings.
    pub open spec fn probed(
        world_size: u32,
        rails: usize,
        gathered: Seq<Seq<u8>>,
    ) -> ProbeModel
        decreases gathered.len(),
    {
        if gathered.len() == 0 {
            ProbeModel::start(world_size, rails)
        } else {
            ProbeModel::probed(world_size, rails, gathered.drop_last()).taking(gathered.last())
        }
    }

    /// Whether the probe has left a pair behind.
    pub open spec fn passed(self, first: int, second: int) -> bool {
        first < self.first || (first == self.first && second < self.second)
    }

    /// A pair with a link on every rail, a link as slow as the slowest of them
    /// and as late as the latest and, where there are several rails, an
    /// aggregate link that carries no more than they do together.
    pub open spec fn measured(self, first: int, second: int) -> bool {
        let rails = self.rails as int;
        &&& self.topology.railed(first, second, rails)
        &&& self.topology.link(first, second) == Some(
            LinkCost {
                bandwidth_mbps: self.topology.least_bandwidth(first, second, rails),
                latency_ns: self.topology.greatest_latency(first, second, rails),
            },
        )
        &&& 0 < self.topology.least_bandwidth(first, second, rails)
        &&& 0 < self.topology.greatest_latency(first, second, rails)
        &&& rails > 1 ==> {
            &&& self.topology.aggregate_links[first][second] matches Some(cap)
            &&& 0 < cap <= self.topology.summed_bandwidth(first, second, rails)
        }
    }

    /// One rail has no aggregate links beside it.
    pub open spec fn capless(self) -> bool {
        self.rails == 1 ==> forall|first: int, second: int|
            0 <= first < self.topology.world_size && 0 <= second < self.topology.world_size
                ==> #[trigger] self.topology.aggregate_links[first][second] is None
    }

    /// What the rails of the current pair that are measured amount to.
    pub open spec fn underway(self) -> bool {
        let first = self.first as int;
        let second = self.second as int;
        let rails = self.rail as int;
        &&& self.topology.railed(first, second, rails)
        &&& self.bandwidth == self.topology.least_bandwidth(first, second, rails)
        &&& self.latency == self.topology.greatest_latency(first, second, rails)
        &&& self.sum == saturate_u64(self.topology.summed_bandwidth(first, second, rails))
    }

    /// Every pair left behind is measured, and the current one is under way.
    pub open spec fn covers(self) -> bool {
        &&& self.valid()
        &&& self.all_passed_measured()
        &&& self.capless()
        &&& !self.done() ==> self.underway()
    }

    pub open spec fn all_passed_measured(self) -> bool {
        forall|first: int, second: int|
            0 <= first < second < self.topology.world_size && #[trigger] self.passed(first, second)
                ==> self.measured(first, second)
    }
}

/// A pair whose links stay as they were stays measured.
proof fn lemma_still_measured(before: ProbeModel, after: ProbeModel, first: int, second: int)
    requires
        before.measured(first, second),
        before.rails == after.rails,
        same_rails(before.topology, after.topology, first, second, before.rails as int),
        after.topology.link(first, second) == before.topology.link(first, second),
        after.topology.aggregate_links[first][second]
            == before.topology.aggregate_links[first][second],
    ensures
        after.measured(first, second),
{
    lemma_same_rails(before.topology, after.topology, first, second, before.rails as int);
}

proof fn lemma_finished(probe: ProbeModel)
    requires
        probe.topology.valid(),
        0 < probe.rails <= MAX_P2P_RAILS,
        probe.rail == probe.rails,
        probe.bandwidth > 0,
        !probe.done(),
        probe.first < probe.second < probe.topology.world_size,
        probe.all_passed_measured(),
        probe.capless(),
        probe.underway(),
        probe.rails > 1 ==> {
            &&& probe.topology.aggregate_links[probe.first as int][probe.second as int] matches Some(
                cap,
            )
            &&& 0 < cap <= probe.topology.summed_bandwidth(
                probe.first as int,
                probe.second as int,
                probe.rails as int,
            )
        },
    ensures
        probe.finished().covers(),
{
    let after = probe.finished();
    assert(after.topology.valid());
    assert forall|first: int, second: int|
        0 <= first < second < after.topology.world_size && #[trigger] after.passed(
            first,
            second,
        ) implies after.measured(first, second) by {
        assert(same_rails(probe.topology, after.topology, first, second, probe.rails as int));
        if first != probe.first || second != probe.second {
            assert(probe.passed(first, second));
            lemma_still_measured(probe, after, first, second);
        } else {
            lemma_same_rails(
                probe.topology,
                after.topology,
                first,
                second,
                probe.rails as int,
            );
            lemma_positive(after.topology, first, second, probe.rails as int);
        }
    }
}

proof fn lemma_taking_rail(probe: ProbeModel, payload: Seq<u8>)
    requires
        probe.covers(),
        probe.task() is Rail,
        probe.rail_defect(payload) is None,
    ensures
        probe.with_rail(payload).covers(),
{
    let link = probe.rail_link(payload);
    let there = value_at(payload, 4 * probe.first);
    let back = value_at(payload, 4 * probe.second + 2);
    law_bucket(
        if there <= back {
            there
        } else {
            back
        },
    );
    let there_latency = value_at(payload, 4 * probe.first + 1);
    let back_latency = value_at(payload, 4 * probe.second + 3);
    law_bucket(
        if there_latency >= back_latency {
            there_latency
        } else {
            back_latency
        },
    );
    let more = ProbeModel {
        topology: probe.topology.with_rail_link(link),
        rail: (probe.rail + 1) as usize,
        bandwidth: if link.bandwidth_mbps < probe.bandwidth {
            link.bandwidth_mbps
        } else {
            probe.bandwidth
        },
        latency: if link.latency_ns > probe.latency {
            link.latency_ns
        } else {
            probe.latency
        },
        sum: saturate_u64(probe.sum + link.bandwidth_mbps),
        ..probe
    };
    assert(more.topology.valid());
    assert forall|first: int, second: int|
        0 <= first < second < more.topology.world_size && #[trigger] more.passed(
            first,
            second,
        ) implies more.measured(first, second) by {
        assert(probe.passed(first, second));
        assert(probe.measured(first, second));
        assert forall|rail: int| 0 <= rail < probe.rails implies #[trigger] probe.topology.own_link(
            rail,
            first,
            second,
        ) == more.topology.own_link(rail, first, second) by {
            assert(probe.topology.own_link(rail, first, second) is Some);
        }
        lemma_still_measured(probe, more, first, second);
    }
    let first = probe.first as int;
    let second = probe.second as int;
    let rail = probe.rail as int;
    assert(more.underway()) by {
        assert forall|r: int| 0 <= r < rail implies #[trigger] probe.topology.own_link(
            r,
            first,
            second,
        ) == more.topology.own_link(r, first, second) by {
            assert(probe.topology.own_link(r, first, second) is Some);
        }
        lemma_same_rails(probe.topology, more.topology, first, second, rail);
        assert(more.topology.own_link(rail, first, second) == Some(
            LinkCost { bandwidth_mbps: link.bandwidth_mbps, latency_ns: link.latency_ns },
        ));
        assert forall|r: int| 0 <= r < rail + 1 implies {
            &&& (#[trigger] more.topology.own_link(r, first, second)) matches Some(link)
            &&& 0 < link.bandwidth_mbps
            &&& 0 < link.latency_ns
        } by {
            if r < rail {
                assert(probe.topology.own_link(r, first, second) is Some);
            }
        }
        lemma_summed(more.topology, first, second, rail);
    }
    if probe.rails == 1 {
        lemma_finished(more);
    }
}

proof fn lemma_taking_aggregate(probe: ProbeModel, payload: Seq<u8>)
    requires
        probe.covers(),
        probe.task() is Aggregate,
        probe.aggregate_defect(payload) is None,
    ensures
        probe.with_aggregate(payload).covers(),
{
    let more = ProbeModel {
        topology: probe.topology.with_aggregate_link(probe.aggregate_link(payload)),
        ..probe
    };
    let rails = probe.rails as int;
    assert(more.topology.valid());
    assert forall|first: int, second: int|
        0 <= first < second < more.topology.world_size && #[trigger] more.passed(
            first,
            second,
        ) implies more.measured(first, second) by {
        assert(probe.passed(first, second));
        assert(same_rails(probe.topology, more.topology, first, second, rails));
        lemma_still_measured(probe, more, first, second);
    }
    let first = probe.first as int;
    let second = probe.second as int;
    assert(same_rails(probe.topology, more.topology, first, second, rails));
    lemma_same_rails(probe.topology, more.topology, first, second, rails);
    lemma_summed(probe.topology, first, second, rails);
    lemma_finished(more);
}

proof fn lemma_probed(world_size: u32, rails: usize, gathered: Seq<Seq<u8>>)
    requires
        world_size > 0,
        0 < rails <= MAX_P2P_RAILS,
    ensures
        ProbeModel::probed(world_size, rails, gathered).covers(),
        ProbeModel::probed(world_size, rails, gathered).rails == rails,
        ProbeModel::probed(world_size, rails, gathered).topology.world_size == world_size,
    decreases gathered.len(),
{
    if gathered.len() > 0 {
        lemma_probed(world_size, rails, gathered.drop_last());
        let probe = ProbeModel::probed(world_size, rails, gathered.drop_last());
        let payload = gathered.last();
        if probe.task() is Rail && probe.rail_defect(payload) is None {
            lemma_taking_rail(probe, payload);
        } else if probe.task() is Aggregate && probe.aggregate_defect(payload) is None {
            lemma_taking_aggregate(probe, payload);
        }
    }
}

/// Whatever is gathered on the way, a probe that is done gives a valid topology
/// in which every two ranks have a link on every rail, a link with exactly the
/// least bandwidth and the greatest latency of those and, where there are
/// several rails, an aggregate link of at most their sum. All of these are
/// positive, and with one rail there are no aggregate links.
pub proof fn law_probe_measures_every_pair(
    world_size: u32,
    rails: usize,
    gathered: Seq<Seq<u8>>,
    first: int,
    second: int,
)
    requires
        world_size > 0,
        0 < rails <= MAX_P2P_RAILS,
        ProbeModel::probed(world_size, rails, gathered).done(),
        0 <= first < second < world_size,
    ensures
        ProbeModel::probed(world_size, rails, gathered).topology.valid(),
        ProbeModel::probed(world_size, rails, gathered).measured(first, second),
        ProbeModel::probed(world_size, rails, gathered).capless(),
{
    lemma_probed(world_size, rails, gathered);
    assert(ProbeModel::probed(world_size, rails, gathered).passed(first, second));
}

/// What a rank is answered in a row of gatherings through the coordinator.
pub open spec fn gathered_by(
    gatherings: Seq<Seq<FrameModel>>,
    unique_id: UniqueId,
    sequences: Seq<u64>,
    rank: int,
) -> Seq<Seq<u8>> {
    Seq::new(
        gatherings.len(),
        |k: int| route(gatherings[k], unique_id, sequences[k])->Ok_0[rank].payload,
    )
}

/// All ranks of a world get the same topology: what each gathers through the
/// coordinator is the same. Once one is done, all are, and every pair is measured.
pub proof fn law_ranks_probe_alike(
    world_size: u32,
    rails: usize,
    gatherings: Seq<Seq<FrameModel>>,
    unique_id: UniqueId,
    sequences: Seq<u64>,
    rank: int,
    other: int,
)
    requires
        0 <= rank < world_size,
        0 <= other < world_size,
        forall|k: int|
            0 <= k < gatherings.len() ==> {
                &&& (#[trigger] gatherings[k]).len() == world_size
                &&& gatherings[k][0].header.opcode == Opcode::AllGather
                &&& route(gatherings[k], unique_id, sequences[k]) is Ok
            },
    ensures
        ProbeModel::probed(
            world_size,
            rails,
            gathered_by(gatherings, unique_id, sequences, rank),
        ) == ProbeModel::probed(
            world_size,
            rails,
            gathered_by(gatherings, unique_id, sequences, other),
        ),
        ({
            let probe = ProbeModel::probed(
                world_size,
                rails,
                gathered_by(gatherings, unique_id, sequences, rank),
            );
            0 < rails <= MAX_P2P_RAILS && probe.done() ==> {
                &&& probe.topology.valid()
                &&& probe.capless()
                &&& forall|first: int, second: int|
                    0 <= first < second < world_size ==> #[trigger] probe.measured(first, second)
            }
        }),
{
    let one = gathered_by(gatherings, unique_id, sequences, rank);
    let two = gathered_by(gatherings, unique_id, sequences, other);
    assert forall|k: int| 0 <= k < gatherings.len() implies one[k] == two[k] by {
        assert(gatherings[k].len() == world_size);
        law_gathering_answers_all_alike(gatherings[k], unique_id, sequences[k], rank);
        law_gathering_answers_all_alike(gatherings[k], unique_id, sequences[k], other);
    }
    assert(one =~= two);
    let probe = ProbeModel::probed(world_size, rails, one);
    if 0 < rails <= MAX_P2P_RAILS && probe.done() {
        lemma_probed(world_size, rails, one);
        assert forall|first: int, second: int|
            0 <= first < second < world_size implies #[trigger] probe.measured(first, second) by {
            law_probe_measures_every_pair(world_size, rails, one, first, second);
        }
    }
}

} // verus!

//! Changes to a tuning: each is refused where it does not fit, or where a
//! measured profile no longer applies.

use crate::rank::layout::rank_lists;
use crate::rank::topology::cycles::{groupings, hierarchy_candidates_of};
use crate::rank::topology::groups::{hierarchy_defect, is_hierarchy, validate_hierarchy_groups};
use crate::rank::topology::links::validate_p2p_rails;
use crate::rank::topology::order::{compare_lists, copy_lists, lex_less_lists, Comparison};
use crate::rank::topology::profile::{lemma_accepted_channels, optional_text, undetected, Detected};
use crate::rank::topology::rails::{rail_order_defect, validate_rail_order};
use crate::rank::topology::tuning::{
    validate_ring_channels, CollectiveTuning, ProfileModel, TuningModel,
};
use crate::rank::topology::{
    CollectiveAutotuneProfile, CollectiveKind, TopologyError, TopologyFailure, MAX_P2P_RAILS,
    MAX_RING_CHANNELS,
};
use crate::rank::CollectiveTransport;
use vstd::prelude::*;
use vstd::string::*;

verus! {

impl TuningModel {
    /// The changed tuning, refused where its profile does not fit any more.
    pub open spec fn rechecked(self) -> Result<TuningModel, TopologyFailure> {
        match self.autotune_profile {
            Some(profile) => match self.profile_defect(profile, undetected()) {
                Some(defect) => Err(defect),
                None => Ok(self),
            },
            None => Ok(self),
        }
    }

    pub open spec fn with_direct_transport(self, bandwidth: u64, latency: u64) -> Result<
        TuningModel,
        TopologyFailure,
    > {
        if bandwidth == 0 {
            Err(TopologyFailure::ZeroDirectBandwidth)
        } else {
            (TuningModel {
                direct_bandwidth_mbps: bandwidth,
                direct_latency_ns: latency,
                ..self
            }).rechecked()
        }
    }

    pub open spec fn with_transport(self, transport: CollectiveTransport) -> Result<
        TuningModel,
        TopologyFailure,
    > {
        (TuningModel { transport, ..self }).rechecked()
    }

    pub open spec fn with_hierarchy(self, groups: Seq<Seq<u32>>) -> Result<
        TuningModel,
        TopologyFailure,
    > {
        match hierarchy_defect(self.topology.world_size, groups) {
            Some(defect) => Err(defect),
            None => (TuningModel { hierarchy_groups: Some(groups), ..self }).rechecked(),
        }
    }

    pub open spec fn with_ring_channels(self, channels: usize) -> Result<
        TuningModel,
        TopologyFailure,
    > {
        if 0 < channels <= MAX_RING_CHANNELS {
            (TuningModel { ring_channels: channels, ..self }).rechecked()
        } else {
            Err(TopologyFailure::InvalidRingChannels(channels))
        }
    }

    pub open spec fn with_p2p_rails(self, rails: usize) -> Result<TuningModel, TopologyFailure> {
        if !(0 < rails <= MAX_P2P_RAILS) {
            Err(TopologyFailure::InvalidP2pRails(rails))
        } else {
            match (match self.rail_order_override {
                Some(order) => rail_order_defect(rails as int, order),
                None => None,
            }) {
                Some(defect) => Err(defect),
                None => (TuningModel { p2p_rails: rails, ..self }).rechecked(),
            }
        }
    }

    pub open spec fn with_rail_order(self, order: Seq<usize>) -> Result<
        TuningModel,
        TopologyFailure,
    > {
        match rail_order_defect(self.p2p_rails as int, order) {
            Some(defect) => Err(defect),
            None => (TuningModel { rail_order_override: Some(order), ..self }).rechecked(),
        }
    }

    pub open spec fn with_profile(self, profile: ProfileModel, detected: Detected) -> Result<
        TuningModel,
        TopologyFailure,
    > {
        match self.profile_defect(profile, detected) {
            Some(defect) => Err(defect),
            None => Ok(TuningModel { autotune_profile: Some(profile), ..self }),
        }
    }

    /// The tuning over some groups.
    pub open spec fn grouped(self, groups: Seq<Seq<u32>>) -> TuningModel {
        TuningModel { hierarchy_groups: Some(groups), ..self }
    }

    /// The summed estimates of the collectives that can run over groups.
    pub open spec fn grouping_score(self, groups: Seq<Seq<u32>>, payload: usize) -> Option<u128> {
        let tuning = self.grouped(groups);
        match (
            tuning.hierarchical_estimate(CollectiveKind::AllReduce, payload),
            tuning.hierarchical_estimate(CollectiveKind::AllGather, payload),
            tuning.hierarchical_estimate(CollectiveKind::ReduceScatter, payload),
        ) {
            (Some(reduce), Some(gather), Some(scatter)) => Some((reduce + gather + scatter) as u128),
            _ => None,
        }
    }

    /// The best of the first `count` groupings: the lowest score, then the
    /// first in order.
    pub open spec fn best_grouping(
        self,
        candidates: Seq<Seq<Seq<u32>>>,
        payload: usize,
        count: int,
    ) -> Option<Seq<Seq<u32>>>
        decreases count,
    {
        if count <= 0 {
            None
        } else {
            let groups = candidates[count - 1];
            let best = self.best_grouping(candidates, payload, count - 1);
            match (self.grouping_score(groups, payload), best) {
                (None, _) => best,
                (Some(_), None) => Some(groups),
                (Some(score), Some(other)) => {
                    let best_score = self.grouping_score(other, payload)->0;
                    if score < best_score || (score == best_score && lex_less_lists(groups, other)) {
                        Some(groups)
                    } else {
                        best
                    }
                },
            }
        }
    }

    pub open spec fn with_inferred_hierarchy(self, payload: usize) -> Result<
        TuningModel,
        TopologyFailure,
    > {
        let candidates = hierarchy_candidates_of(self.topology, payload as int);
        if payload == 0 {
            Err(
                TopologyFailure::InvalidHierarchy(
                    "automatic grouping payload must be greater than zero"@,
                ),
            )
        } else {
            match self.best_grouping(candidates, payload, candidates.len() as int) {
                Some(groups) => self.grouped(groups).rechecked(),
                None => Err(
                    TopologyFailure::InvalidHierarchy(
                        "automatic grouping found no distinct fast-link domains"@,
                    ),
                ),
            }
        }
    }
}

/// A builder's result is what its model says.
pub open spec fn built(
    result: Result<CollectiveTuning, TopologyError>,
    model: Result<TuningModel, TopologyFailure>,
) -> bool {
    match model {
        Ok(tuning) => result is Ok && result->Ok_0@ == tuning && result->Ok_0@.valid(),
        Err(failure) => result is Err && result->Err_0@ == failure,
    }
}

/// Nothing that a builder accepts changes what the plans of a tuning rest on
/// besides the field that it names: here, the number of channels.
pub proof fn law_channels_change_nothing_else(tuning: TuningModel, channels: usize)
    requires
        tuning.with_ring_channels(channels) is Ok,
    ensures
        ({
            let changed = tuning.with_ring_channels(channels)->Ok_0;
            &&& changed == (TuningModel { ring_channels: channels, ..tuning })
            &&& changed.fingerprint() == tuning.fingerprint()
            &&& changed.execution() == tuning.execution()
        }),
{
    let changed = tuning.with_ring_channels(channels)->Ok_0;
    crate::rank::topology::fingerprint::law_fingerprint_covers_topology_only(changed, tuning);
}

/// The grouping that is inferred is never worse than any that was considered.
pub proof fn law_inferred_grouping_is_best(
    tuning: TuningModel,
    candidates: Seq<Seq<Seq<u32>>>,
    payload: usize,
    count: int,
    place: int,
)
    requires
        0 <= place < count <= candidates.len(),
        tuning.grouping_score(candidates[place], payload) is Some,
    ensures
        tuning.best_grouping(candidates, payload, count) is Some,
        tuning.grouping_score(
            tuning.best_grouping(candidates, payload, count)->0,
            payload,
        ) is Some,
        tuning.grouping_score(tuning.best_grouping(candidates, payload, count)->0, payload)->0
            <= tuning.grouping_score(candidates[place], payload)->0,
    decreases count,
{
    lemma_best_scored(tuning, candidates, payload, count - 1);
    if place < count - 1 {
        law_inferred_grouping_is_best(tuning, candidates, payload, count - 1, place);
    }
}

proof fn lemma_best_scored(
    tuning: TuningModel,
    candidates: Seq<Seq<Seq<u32>>>,
    payload: usize,
    count: int,
)
    requires
        count <= candidates.len(),
    ensures
        match tuning.best_grouping(candidates, payload, count) {
            Some(groups) => tuning.grouping_score(groups, payload) is Some && exists|i: int|
                0 <= i < count && #[trigger] candidates[i] == groups,
            None => true,
        },
    decreases count,
{
    if count > 0 {
        lemma_best_scored(tuning, candidates, payload, count - 1);
    }
}

impl CollectiveTuning {
    fn rechecked(self) -> (result: Result<Self, TopologyError>)
        requires
            self@.valid(),
        ensures
            built(result, self@.rechecked()),
    {
        match &self.autotune_profile {
            Some(profile) => match self.validate_autotune_profile(profile) {
                Ok(()) => {},
                Err(error) => {
                    return Err(error);
                },
            },
            None => {},
        }
        Ok(self)
    }

    pub fn with_direct_transport(self, bandwidth_mbps: u64, latency_ns: u64) -> (result: Result<
        Self,
        TopologyError,
    >)
        requires
            self@.valid(),
        ensures
            built(result, self@.with_direct_transport(bandwidth_mbps, latency_ns)),
    {
        if bandwidth_mbps == 0 {
            return Err(TopologyError::ZeroDirectBandwidth);
        }
        let mut tuning = self;
        tuning.direct_bandwidth_mbps = bandwidth_mbps;
        tuning.direct_latency_ns = latency_ns;
        tuning.rechecked()
    }

    pub fn with_transport(self, transport: CollectiveTransport) -> (result: Result<
        Self,
        TopologyError,
    >)
        requires
            self@.valid(),
        ensures
            built(result, self@.with_transport(transport)),
    {
        let mut tuning = self;
        tuning.transport = transport;
        tuning.rechecked()
    }

    pub fn with_hierarchy(self, groups: Vec<Vec<u32>>) -> (result: Result<Self, TopologyError>)
        requires
            self@.valid(),
        ensures
            built(result, self@.with_hierarchy(rank_lists(groups@))),
    {
        match validate_hierarchy_groups(self.topology.world_size, groups.as_slice()) {
            Ok(()) => {},
            Err(error) => {
                return Err(error);
            },
        }
        let mut tuning = self;
        tuning.hierarchy_groups = Some(groups);
        tuning.rechecked()
    }

    /// The summed estimates of the collectives that can run over the groups.
    fn grouping_score(&self, payload_bytes: usize) -> (score: Option<u128>)
        requires
            self@.valid(),
            self@.hierarchy_groups is Some,
        ensures
            score == self@.grouping_score(self@.hierarchy_groups->0, payload_bytes),
    {
        assert(self@.grouped(self@.hierarchy_groups->0) == self@);
        let reduce = match self.hierarchical_estimated_time_ns(
            CollectiveKind::AllReduce,
            payload_bytes,
        ) {
            Some(time) => time,
            None => {
                return None;
            },
        };
        let gather = match self.hierarchical_estimated_time_ns(
            CollectiveKind::AllGather,
            payload_bytes,
        ) {
            Some(time) => time,
            None => {
                return None;
            },
        };
        let scatter = match self.hierarchical_estimated_time_ns(
            CollectiveKind::ReduceScatter,
            payload_bytes,
        ) {
            Some(time) => time,
            None => {
                return None;
            },
        };
        Some(reduce as u128 + gather as u128 + scatter as u128)
    }

    /// The tuning with other groups, and their score.
    fn regrouped(self, groups: &Vec<Vec<u32>>, payload_bytes: usize) -> (found: (
        Self,
        Option<u128>,
    ))
        requires
            self@.valid(),
            is_hierarchy(self@.topology.world_size, rank_lists(groups@)),
        ensures
            found.0@ == self@.grouped(rank_lists(groups@)),
            found.0@.valid(),
            found.1 == self@.grouping_score(rank_lists(groups@), payload_bytes),
    {
        let mut tuning = self;
        tuning.hierarchy_groups = Some(copy_lists(groups.as_slice()));
        assert(tuning@ == self@.grouped(rank_lists(groups@)));
        let score = tuning.grouping_score(payload_bytes);
        (tuning, score)
    }

    /// The best of the groupings that the topology suggests, if one has a score.
    /// The tuning comes back with the last that was tried.
    #[verifier::rlimit(40)]
    fn inferred_grouping(self, candidates: &Vec<Vec<Vec<u32>>>, payload_bytes: usize) -> (found: (
        Self,
        Option<Vec<Vec<u32>>>,
    ))
        requires
            self@.valid(),
            forall|i: int|
                0 <= i < candidates@.len() ==> #[trigger] groupings(candidates@)[i].len() >= 2
                    && crate::rank::topology::groups::is_partition(
                    self@.topology.world_size,
                    groupings(candidates@)[i],
                ),
        ensures
            found.0@.valid(),
            forall|groups: Seq<Seq<u32>>| #[trigger]
                found.0@.grouped(groups) == self@.grouped(groups),
            self@.best_grouping(
                groupings(candidates@),
                payload_bytes,
                candidates@.len() as int,
            ) == (match found.1 {
                Some(groups) => Some(rank_lists(groups@)),
                None => None,
            }),
            found.1 matches Some(groups) ==> is_hierarchy(
                self@.topology.world_size,
                rank_lists(groups@),
            ),
    {
        let ghost start = self@;
        let ghost model = groupings(candidates@);
        let mut tuning = self;
        let mut best: Option<(u128, Vec<Vec<u32>>)> = None;
        let mut index: usize = 0;
        while index < candidates.len()
            invariant
                index <= candidates@.len(),
                start.valid(),
                model == groupings(candidates@),
                forall|i: int|
                    0 <= i < candidates@.len() ==> #[trigger] groupings(candidates@)[i].len() >= 2
                        && crate::rank::topology::groups::is_partition(
                        start.topology.world_size,
                        groupings(candidates@)[i],
                    ),
                forall|groups: Seq<Seq<u32>>| #[trigger]
                    tuning@.grouped(groups) == start.grouped(groups),
                tuning@.valid(),
                match best {
                    Some(found) => {
                        &&& start.best_grouping(model, payload_bytes, index as int) == Some(
                            rank_lists(found.1@),
                        )
                        &&& start.grouping_score(rank_lists(found.1@), payload_bytes) == Some(
                            found.0,
                        )
                        &&& is_hierarchy(start.topology.world_size, rank_lists(found.1@))
                    },
                    None => start.best_grouping(model, payload_bytes, index as int) is None,
                },
            decreases candidates@.len() - index,
        {
            let ghost groups = model[index as int];
            proof {
                assert(groupings(candidates@)[index as int] == rank_lists(
                    candidates@[index as int]@,
                ));
                assert(is_hierarchy(start.topology.world_size, groups));
                assert(tuning@.grouped(groups) == start.grouped(groups));
            }
            let (regrouped, score) = tuning.regrouped(&candidates[index], payload_bytes);
            tuning = regrouped;
            proof {
                assert forall|other: Seq<Seq<u32>>| #[trigger]
                    tuning@.grouped(other) == start.grouped(other) by {}
            }
            if let Some(score) = score {
                let better: bool = match &best {
                    Some(found) => score < found.0 || (score == found.0 && compare_lists(
                        candidates[index].as_slice(),
                        found.1.as_slice(),
                    ) == Comparison::Before),
                    None => true,
                };
                if better {
                    best = Some((score, copy_lists(candidates[index].as_slice())));
                }
            }
            index = index + 1;
        }
        match best {
            Some((_, groups)) => (tuning, Some(groups)),
            None => (tuning, None),
        }
    }

    pub fn with_inferred_hierarchy(self, payload_bytes: usize) -> (result: Result<
        Self,
        TopologyError,
    >)
        requires
            self@.valid(),
        ensures
            built(result, self@.with_inferred_hierarchy(payload_bytes)),
    {
        if payload_bytes == 0 {
            return Err(
                TopologyError::InvalidHierarchy(
                    String::from_str("automatic grouping payload must be greater than zero"),
                ),
            );
        }
        let ghost start = self@;
        let candidates = self.topology.hierarchy_candidates(payload_bytes);
        let (mut tuning, best) = self.inferred_grouping(&candidates, payload_bytes);
        match best {
            Some(groups) => {
                let ghost before = tuning@;
                let ghost chosen = rank_lists(groups@);
                tuning.hierarchy_groups = Some(groups);
                proof {
                    assert(tuning@ == before.grouped(chosen));
                    assert(before.grouped(chosen) == start.grouped(chosen));
                }
                tuning.rechecked()
            },
            None => Err(
                TopologyError::InvalidHierarchy(
                    String::from_str("automatic grouping found no distinct fast-link domains"),
                ),
            ),
        }
    }

    pub fn with_ring_channels(self, channels: usize) -> (result: Result<Self, TopologyError>)
        requires
            self@.valid(),
        ensures
            built(result, self@.with_ring_channels(channels)),
    {
        match validate_ring_channels(channels) {
            Ok(()) => {},
            Err(error) => {
                return Err(error);
            },
        }
        let mut tuning = self;
        tuning.ring_channels = channels;
        tuning.rechecked()
    }

    pub fn with_p2p_rails(self, rails: usize) -> (result: Result<Self, TopologyError>)
        requires
            self@.valid(),
        ensures
            built(result, self@.with_p2p_rails(rails)),
    {
        match validate_p2p_rails(rails) {
            Ok(()) => {},
            Err(error) => {
                return Err(error);
            },
        }
        match &self.rail_order_override {
            Some(order) => match validate_rail_order(rails, order.as_slice()) {
                Ok(()) => {},
                Err(error) => {
                    return Err(error);
                },
            },
            None => {},
        }
        let mut tuning = self;
        tuning.p2p_rails = rails;
        tuning.rechecked()
    }

    pub fn with_rail_order(self, order: Vec<usize>) -> (result: Result<Self, TopologyError>)
        requires
            self@.valid(),
        ensures
            built(result, self@.with_rail_order(order@)),
    {
        match validate_rail_order(self.p2p_rails, order.as_slice()) {
            Ok(()) => {},
            Err(error) => {
                return Err(error);
            },
        }
        let mut tuning = self;
        tuning.rail_order_override = Some(order);
        tuning.rechecked()
    }

    pub fn with_autotune_profile(self, profile: CollectiveAutotuneProfile) -> (result: Result<
        Self,
        TopologyError,
    >)
        requires
            self@.valid(),
        ensures
            built(result, self@.with_profile(profile@, undetected())),
    {
        match self.validate_autotune_profile(&profile) {
            Ok(()) => {},
            Err(error) => {
                return Err(error);
            },
        }
        proof {
            lemma_accepted_channels(self@, profile@, undetected());
        }
        let mut tuning = self;
        tuning.autotune_profile = Some(profile);
        Ok(tuning)
    }

    /// Takes a profile that also recorded what topology was detected when it
    /// was measured.
    pub fn with_detected_autotune_profile(
        self,
        profile: CollectiveAutotuneProfile,
        detected_topology_links: Option<&str>,
        detected_topology_rail_links: Option<&str>,
        detected_topology_aggregate_links: Option<&str>,
        allow_detected_topology: bool,
    ) -> (result: Result<Self, TopologyError>)
        requires
            self@.valid(),
        ensures
            built(
                result,
                self@.with_profile(
                    profile@,
                    (Detected {
                        links: optional_text(detected_topology_links),
                        rail_links: optional_text(detected_topology_rail_links),
                        aggregate_links: optional_text(detected_topology_aggregate_links),
                        allowed: allow_detected_topology,
                    }),
                ),
            ),
    {
        match self.validate_autotune_profile_with_detected(
            &profile,
            detected_topology_links,
            detected_topology_rail_links,
            detected_topology_aggregate_links,
            allow_detected_topology,
        ) {
            Ok(()) => {},
            Err(error) => {
                return Err(error);
            },
        }
        proof {
            lemma_accepted_channels(
                self@,
                profile@,
                Detected {
                    links: optional_text(detected_topology_links),
                    rail_links: optional_text(detected_topology_rail_links),
                    aggregate_links: optional_text(detected_topology_aggregate_links),
                    allowed: allow_detected_topology,
                },
            );
        }
        let mut tuning = self;
        tuning.autotune_profile = Some(profile);
        Ok(tuning)
    }
}

} // verus!

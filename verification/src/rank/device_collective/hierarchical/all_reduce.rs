//! The hierarchical all-reduce.

use crate::math::{saturate_usize, saturating_mul_usize};
use crate::rank::device::{asked, DeviceCall, RankDevice};
use crate::rank::device_collective::hierarchical::{
    as_int, collect_script, data_tag, decoded_values, group_of, group_scope, leaders_scope,
    lemma_steps, receive_script, share_script, twice_less_one,
};
use crate::rank::device_collective::ring::{
    bounds, channels_next, channels_script, chunk_length, counted, in_place, partitions_of,
    ranges_fit, tallied, total_counts, totalled, two_rounds, Labels, RoundTags, Tally,
};
use crate::rank::device_collective::{
    conversed, effective_channels, from_rank, lemma_part, lemma_past_agreement,
    lemma_performed_part, lemma_performed_rest, lemma_rest, performed, reads_first, refused_at_once,
    CollectiveModel, DeviceCollective, Scope,
};
use crate::rank::error::RankError;
use crate::rank::host::exchange::stats_of;
use crate::rank::layout::{
    are_balanced_ranges, balanced_ranges, balanced_start, hierarchy_steps, law_balanced_partition,
    rank_lists,
};
use crate::rank::network::NetworkError;
use crate::rank::operation::ReductionOperation;
use crate::rank::script::{
    fails, followed, lemma_start, reached, too_large, tried, yields, Failure, Script,
};
use crate::rank::stats::CollectiveStats;
use crate::rank::hash::fnv;
use crate::rank::tags::{agreement_bytes, hierarchy_data_tag};
use crate::rank::topology::cycles::heads;
use crate::rank::topology::estimates::group_leaders;
use crate::rank::topology::TopologyError;
use crate::rank::transport::RankTransport;
use crate::rank::CollectiveAlgorithm;
use std::ops::Range;
use vstd::prelude::*;

verus! {

pub open spec fn hierarchical_all_reduce_labels() -> Labels {
    Labels {
        bytes: "hierarchical all-reduce transferred bytes"@,
        launches: "hierarchical all-reduce kernel launches"@,
    }
}

pub open spec fn leader_all_reduce_labels() -> Labels {
    Labels {
        bytes: "hierarchical leader all-reduce transferred bytes"@,
        launches: "hierarchical leader all-reduce kernel launches"@,
    }
}

/// The blocks of a range that is shared out over the leaders.
pub open spec fn leader_blocks(count: int, start: int, length: int) -> Seq<(int, int)> {
    Seq::new(
        count as nat,
        |place: int|
            (
                start + balanced_start(length, count, place),
                start + balanced_start(length, count, place + 1),
            ),
    )
}

/// The channels of the leaders' all-reduce.
pub open spec fn leader_all_reduce_channels<T, D: RankDevice<T>>(
    model: CollectiveModel,
    leaders: Seq<u32>,
    position: int,
    length: int,
    channels: int,
    operation: u64,
    reduce: spec_fn(T, T) -> T,
) -> spec_fn(int, Seq<T>) -> Script<Tally<T>, D::Error> {
    |channel: int, values: Seq<T>|
        two_rounds::<T, D>(
            model.element_type,
            model.rail(channel),
            leaders,
            leader_blocks(
                leaders.len() as int,
                balanced_start(length, channels, channel),
                chunk_length(length, channels, channel),
            ),
            position,
            RoundTags { operation, channel: channel as usize, phase: 1, hierarchical: true },
            RoundTags { operation, channel: channel as usize, phase: 2, hierarchical: true },
            values,
            reduce,
            leader_all_reduce_labels(),
        )
}

pub open spec fn leaders_finished<T, E>(labels: Labels) -> spec_fn(
    (Seq<T>, Seq<(int, int)>),
) -> Script<Tally<T>, E> {
    |run: (Seq<T>, Seq<(int, int)>)|
        match totalled::<E>(run.1, labels) {
            Err(failure) => fails(failure),
            Ok((bytes, launches)) => yields(Tally { values: run.0, bytes, launches }),
        }
}

/// The script of the leaders' all-reduce.
pub open spec fn leader_all_reduce_script<T, D: RankDevice<T>>(
    model: CollectiveModel,
    leaders: Seq<u32>,
    position: int,
    values: Seq<T>,
    operation: u64,
    ring_channels: int,
    reduce: spec_fn(T, T) -> T,
) -> Script<Tally<T>, D::Error> {
    let channels = effective_channels(ring_channels, values.len() as int);
    tried(
        channels_script(
            leader_all_reduce_channels::<T, D>(
                model,
                leaders,
                position,
                values.len() as int,
                channels,
                operation,
                reduce,
            ),
            0,
            channels,
            values,
            Seq::empty(),
        ),
        false,
        leaders_finished::<T, D::Error>(leader_all_reduce_labels()),
    )
}

/// What a member makes of the reduced values that its leader sends.
pub open spec fn member_finished<T, D: RankDevice<T>>(
    model: CollectiveModel,
    sent: int,
    steps: int,
    label: Seq<char>,
) -> spec_fn(Seq<T>) -> Script<(Seq<T>, CollectiveStats), D::Error> {
    |values: Seq<T>|
        {
            let bytes = sent + saturate_usize(values.len() * D::ELEMENT_SIZE);
            if bytes > usize::MAX {
                fails(too_large(label))
            } else {
                yields(
                    (
                        values,
                        stats_of(
                            model.place,
                            CollectiveAlgorithm::Hierarchical,
                            steps,
                            bytes,
                            0,
                        ),
                    ),
                )
            }
        }
}

pub open spec fn member_sent<T, D: RankDevice<T>>(
    model: CollectiveModel,
    leader: u32,
    operation: u64,
    phase: u32,
    length: int,
    sent: int,
    steps: int,
    label: Seq<char>,
) -> spec_fn(()) -> Script<(Seq<T>, CollectiveStats), D::Error> {
    |done: ()|
        tried(
            receive_script::<T, D>(
                model,
                leader,
                data_tag(operation, phase, model.place.rank),
                length,
            ),
            false,
            member_finished::<T, D>(model, sent, steps, label),
        )
}

/// The script of a member: its values go to the leader in one phase, and
/// `length` elements come back in another.
pub open spec fn member_script<T, D: RankDevice<T>>(
    model: CollectiveModel,
    leader: u32,
    values: Seq<T>,
    operation: u64,
    up: u32,
    down: u32,
    length: int,
    steps: int,
    label: Seq<char>,
) -> Script<(Seq<T>, CollectiveStats), D::Error> {
    tried(
        model.send_script(
            leader,
            data_tag(operation, up, model.place.rank),
            values.len() as int,
            D::encoding(values),
        ),
        false,
        member_sent::<T, D>(
            model,
            leader,
            operation,
            down,
            length,
            D::encoding(values).len() as int,
            steps,
            label,
        ),
    )
}

/// The same payload for every member.
pub open spec fn same_payload(payload: Seq<u8>) -> spec_fn(int) -> Seq<u8> {
    |index: int| payload
}

pub open spec fn leader_shared<T, D: RankDevice<T>>(
    model: CollectiveModel,
    values: Seq<T>,
    steps: int,
    launches: int,
) -> spec_fn(int) -> Script<(Seq<T>, CollectiveStats), D::Error> {
    |bytes: int|
        yields(
            (
                values,
                stats_of(
                    model.place,
                    CollectiveAlgorithm::Hierarchical,
                    steps,
                    bytes,
                    launches,
                ),
            ),
        )
}

pub open spec fn leader_ringed<T, D: RankDevice<T>>(
    model: CollectiveModel,
    operation: u64,
    steps: int,
    collected: Tally<T>,
) -> spec_fn(Tally<T>) -> Script<(Seq<T>, CollectiveStats), D::Error> {
    |ringed: Tally<T>|
        {
            let labels = hierarchical_all_reduce_labels();
            if collected.bytes + ringed.bytes > usize::MAX {
                fails(too_large(labels.bytes))
            } else if collected.launches + ringed.launches > u32::MAX {
                fails(too_large(labels.launches))
            } else {
                tried(
                    share_script(
                        model,
                        model.group(),
                        1,
                        operation,
                        3,
                        ringed.values.len() as int,
                        same_payload(D::encoding(ringed.values)),
                        collected.bytes + ringed.bytes,
                        labels.bytes,
                    ),
                    false,
                    leader_shared::<T, D>(
                        model,
                        ringed.values,
                        steps,
                        collected.launches + ringed.launches,
                    ),
                )
            }
        }
}

pub open spec fn leader_collected<T, D: RankDevice<T>>(
    model: CollectiveModel,
    operation: u64,
    ring_channels: int,
    steps: int,
    reduce: spec_fn(T, T) -> T,
) -> spec_fn(Tally<T>) -> Script<(Seq<T>, CollectiveStats), D::Error> {
    |collected: Tally<T>|
        tried(
            leader_all_reduce_script::<T, D>(
                model,
                heads(model.groups()),
                group_of(model.groups(), model.place.rank),
                collected.values,
                operation,
                ring_channels,
                reduce,
            ),
            false,
            leader_ringed::<T, D>(model, operation, steps, collected),
        )
}

pub open spec fn all_reduce_hierarchy_agreed<T, D: RankDevice<T>>(
    model: CollectiveModel,
    values: Seq<T>,
    operation: u64,
    ring_channels: int,
    reduce: spec_fn(T, T) -> T,
) -> spec_fn(()) -> Script<(Seq<T>, CollectiveStats), D::Error> {
    |agreed: ()|
        {
            let group = model.group();
            let steps = model.hierarchy_steps(2 * (model.groups().len() - 1));
            if model.place.rank != group[0] {
                member_script::<T, D>(
                    model,
                    group[0],
                    values,
                    operation,
                    0,
                    3,
                    values.len() as int,
                    steps,
                    hierarchical_all_reduce_labels().bytes,
                )
            } else {
                tried(
                    collect_script::<T, D>(
                        model,
                        group,
                        1,
                        operation,
                        0,
                        values.len() as int,
                        Tally { values, bytes: 0, launches: 0 },
                        reduce,
                        hierarchical_all_reduce_labels(),
                    ),
                    false,
                    leader_collected::<T, D>(model, operation, ring_channels, steps, reduce),
                )
            }
        }
}

/// The script of a hierarchical all-reduce: the members' values are reduced at
/// the leader, the leaders reduce among themselves round a ring, and the members
/// are sent the result.
pub open spec fn all_reduce_hierarchical_script<T, D: RankDevice<T>>(
    model: CollectiveModel,
    values: Seq<T>,
    operation: u64,
    reduction: ReductionOperation,
    ring_channels: int,
    reduce: spec_fn(T, T) -> T,
) -> Script<(Seq<T>, CollectiveStats), D::Error> {
    match model.membership_defect() {
        Some(defect) => fails(Failure::Topology(defect)),
        None => tried(
            model.hierarchy_agreement(
                operation,
                values.len() as int,
                (0x600 + reduction.spec_code()) as u32,
                ring_channels,
            ),
            false,
            all_reduce_hierarchy_agreed::<T, D>(model, values, operation, ring_channels, reduce),
        ),
    }
}

impl<'a, T, D: RankDevice<T>, S: RankTransport> DeviceCollective<'a, T, D, S> where
    D::Error: From<RankError> + From<NetworkError> + From<TopologyError>,
 {
    /// One channel of the leaders' all-reduce.
    fn leader_all_reduce_ring_channel(
        &mut self,
        buffer: &mut D::Buffer,
        leaders: &[u32],
        position: usize,
        channel_range: Range<usize>,
        operation: u64,
        channel: usize,
        function: &D::Kernel,
    ) -> (result: Result<(usize, u32), D::Error>)
        requires
            old(self).model().rails.len() > 0,
            position < leaders@.len(),
            channel_range.start <= channel_range.end <= D::values(&*old(buffer)).len(),
        ensures
            *final(final(self).link) == *final(old(self).link),
            final(self).model() == old(self).model(),
            final(self).next() == old(self).next(),
            D::values(&*final(buffer)).len() == D::values(&*old(buffer)).len(),
            asked(
                old(self).standing().faults,
                final(self).standing().faults,
                |call: DeviceCall| call.handles_part(D::values(&*old(buffer)).len() as int),
            ),
            reads_first(old(self).standing(), final(self).standing()),
            conversed(
                two_rounds::<T, D>(
                    old(self).model().element_type,
                    old(self).model().rail(channel as int),
                    leaders@,
                    leader_blocks(
                        leaders@.len() as int,
                        channel_range.start as int,
                        channel_range.end - channel_range.start,
                    ),
                    position as int,
                    (RoundTags { operation, channel, phase: 1, hierarchical: true }),
                    (RoundTags { operation, channel, phase: 2, hierarchical: true }),
                    D::values(&*old(buffer)),
                    D::reduction(function),
                    leader_all_reduce_labels(),
                ),
                old(self).standing(),
                final(self).standing(),
                tallied::<T, D>(result, D::values(&*final(buffer))),
                false,
            ),
    {
        let limit: usize = self.link.execution.buffer_len(&*buffer);
        let blocks = partitions_of(
            channel_range.start,
            channel_range.end - channel_range.start,
            leaders.len(),
        );
        assert(bounds(blocks@) =~= leader_blocks(
            leaders@.len() as int,
            channel_range.start as int,
            channel_range.end - channel_range.start,
        ));
        assert(ranges_fit(blocks@, D::values(&*buffer).len() as int));
        self.reduce_and_share(
            buffer,
            leaders,
            &blocks,
            position,
            RoundTags { operation, channel, phase: 1, hierarchical: true },
            RoundTags { operation, channel, phase: 2, hierarchical: true },
            channel,
            function,
            "hierarchical leader all-reduce transferred bytes",
            "hierarchical leader all-reduce kernel launches",
        )
    }

    /// The leaders' all-reduce; a failure in a channel is told to the other
    /// ranks.
    fn leader_all_reduce_ring(
        &mut self,
        buffer: &mut D::Buffer,
        leaders: &[u32],
        position: usize,
        operation: u64,
        function: &D::Kernel,
        ring_channels: usize,
    ) -> (result: Result<(usize, u32), D::Error>)
        requires
            old(self).model().rails.len() > 0,
            position < leaders@.len(),
            ring_channels > 0,
        ensures
            *final(final(self).link) == *final(old(self).link),
            final(self).model() == old(self).model(),
            final(self).next() == old(self).next(),
            D::values(&*final(buffer)).len() == D::values(&*old(buffer)).len(),
            asked(
                old(self).standing().faults,
                final(self).standing().faults,
                |call: DeviceCall| call.handles_part(D::values(&*old(buffer)).len() as int),
            ),
            performed::<T, D, Tally<T>>(
                leader_all_reduce_script::<T, D>(
                    old(self).model(),
                    leaders@,
                    position as int,
                    D::values(&*old(buffer)),
                    operation,
                    ring_channels as int,
                    D::reduction(function),
                ),
                "hierarchical all-reduce"@,
                Scope::LeaderRing,
                old(self).standing(),
                final(self).standing(),
                tallied::<T, D>(result, D::values(&*final(buffer))),
            ),
    {
        let ghost before = self.standing();
        let ghost model = self.model();
        let ghost combine = D::reduction(function);
        let length: usize = self.link.execution.buffer_len(&*buffer);
        let channels: usize = self.effective_ring_channels(ring_channels, length);
        let ghost each = leader_all_reduce_channels::<T, D>(
            model,
            leaders@,
            position as int,
            length as int,
            channels as int,
            operation,
            combine,
        );
        let ghost run = channels_script(
            each,
            0,
            channels as int,
            D::values(&*buffer),
            Seq::empty(),
        );
        let ghost script = leader_all_reduce_script::<T, D>(
            model,
            leaders@,
            position as int,
            D::values(&*buffer),
            operation,
            ring_channels as int,
            combine,
        );
        let ranges = balanced_ranges(length, channels);
        let mut totals: Vec<(usize, u32)> = Vec::new();
        assert(counted(totals@) =~= Seq::empty());
        proof {
            lemma_start(run, before.log);
            lemma_start(script, before.log);
        }
        let mut channel: usize = 0;
        while channel < channels
            invariant
                channel <= channels,
                channels > 0,
                position < leaders@.len(),
                are_balanced_ranges(ranges@, length as int, channels as int),
                length == D::values(&*buffer).len(),
                length == D::values(&*old(buffer)).len(),
                model == old(self).model(),
                model.rails.len() > 0,
                combine == D::reduction(function),
                each == leader_all_reduce_channels::<T, D>(
                    model,
                    leaders@,
                    position as int,
                    length as int,
                    channels as int,
                    operation,
                    combine,
                ),
                before == old(self).standing(),
                run == channels_script(
                    each,
                    0,
                    channels as int,
                    D::values(&*old(buffer)),
                    Seq::empty(),
                ),
                followed(script, before.log, before.log),
                reached(script, before.log, before.log) == tried(
                    run,
                    false,
                    leaders_finished::<T, D::Error>(leader_all_reduce_labels()),
                ),
                script == leader_all_reduce_script::<T, D>(
                    model,
                    leaders@,
                    position as int,
                    D::values(&*old(buffer)),
                    operation,
                    ring_channels as int,
                    combine,
                ),
                *final(self.link) == *final(old(self).link),
                self.model() == model,
                self.next() == old(self).next(),
                self.standing().faults == before.faults,
                followed(run, before.log, self.standing().log),
                reached(run, before.log, self.standing().log) == channels_script(
                    each,
                    channel as int,
                    channels as int,
                    D::values(&*buffer),
                    counted(totals@),
                ),
            decreases channels - channel,
        {
            proof {
                law_balanced_partition(length as int, channels as int, channel as int);
            }
            let ghost mid = self.standing();
            let ghost first = each(channel as int, D::values(&*buffer));
            let ghost next = channels_next(
                each,
                channel as int,
                channels as int,
                counted(totals@),
            );
            let range = Range { start: ranges[channel].start, end: ranges[channel].end };
            let outcome = self.leader_all_reduce_ring_channel(
                buffer,
                leaders,
                position,
                range,
                operation,
                channel,
                function,
            );
            proof {
                lemma_part(
                    run,
                    before,
                    mid,
                    self.standing(),
                    first,
                    true,
                    next,
                    tallied::<T, D>(outcome, D::values(&*buffer)),
                );
            }
            let outcome = self.propagate_channel_failure("hierarchical all-reduce", outcome);
            match outcome {
                Ok(counts) => {
                    let ghost was = counted(totals@);
                    totals.push(counts);
                    assert(counted(totals@) =~= was.push((counts.0 as int, counts.1 as int)));
                },
                Err(error) => {
                    proof {
                        lemma_performed_part::<T, D, (Seq<T>, Seq<(int, int)>), Tally<T>>(
                            script,
                            "hierarchical all-reduce"@,
                            Scope::LeaderRing,
                            Scope::LeaderRing,
                            before,
                            before,
                            self.standing(),
                            run,
                            leaders_finished::<T, D::Error>(leader_all_reduce_labels()),
                            Err::<(Seq<T>, Seq<(int, int)>), D::Error>(error),
                        );
                    }
                    return Err(error);
                },
            }
            channel = channel + 1;
        }
        proof {
            lemma_performed_part::<T, D, (Seq<T>, Seq<(int, int)>), Tally<T>>(
                script,
                "hierarchical all-reduce"@,
                Scope::LeaderRing,
                Scope::LeaderRing,
                before,
                before,
                self.standing(),
                run,
                leaders_finished::<T, D::Error>(leader_all_reduce_labels()),
                Ok::<(Seq<T>, Seq<(int, int)>), D::Error>(
                    (D::values(&*buffer), counted(totals@)),
                ),
            );
        }
        match total_counts::<D::Error>(
            &totals,
            "hierarchical leader all-reduce transferred bytes",
            "hierarchical leader all-reduce kernel launches",
        ) {
            Ok(counts) => Ok(counts),
            Err(error) => Err(from_rank(error)),
        }
    }
}

impl<'a, T, D: RankDevice<T>, S: RankTransport> DeviceCollective<'a, T, D, S> where
    D::Error: From<RankError> + From<NetworkError> + From<TopologyError>,
 {
    /// A member's part: its values go to the leader, and the leader's answer
    /// comes back.
    pub(crate) fn member_exchange(
        &mut self,
        leader: u32,
        values: &[T],
        operation: u64,
        up: u32,
        down: u32,
        length: usize,
        steps: u32,
        label: &'static str,
    ) -> (result: Result<(Vec<T>, CollectiveStats), D::Error>)
        requires
            old(self).model().place.rails > 0,
        ensures
            *final(final(self).link) == *final(old(self).link),
            final(self).model() == old(self).model(),
            final(self).next() == old(self).next(),
            final(self).standing().faults == old(self).standing().faults,
            result is Ok ==> result->Ok_0.0@.len() == length,
            conversed(
                member_script::<T, D>(
                    old(self).model(),
                    leader,
                    values@,
                    operation,
                    up,
                    down,
                    length as int,
                    steps as int,
                    label@,
                ),
                old(self).standing(),
                final(self).standing(),
                answered(result),
                false,
            ),
    {
        let ghost before = self.standing();
        let ghost model = self.model();
        let ghost script = member_script::<T, D>(
            model,
            leader,
            values@,
            operation,
            up,
            down,
            length as int,
            steps as int,
            label@,
        );
        proof {
            lemma_start(script, before.log);
        }
        let payload = D::encode(values);
        let sent: usize = payload.len();
        let rank: u32 = self.rank();
        let up_tag: u64 = hierarchy_data_tag(operation, up, rank);
        let outcome = self.send_bytes(leader, up_tag, values.len(), payload);
        let ghost mid = self.standing();
        proof {
            lemma_part(
                script,
                before,
                before,
                mid,
                model.send_script(
                    leader,
                    up_tag,
                    values@.len() as int,
                    D::encoding(values@),
                ),
                false,
                member_sent::<T, D>(
                    model,
                    leader,
                    operation,
                    down,
                    length as int,
                    sent as int,
                    steps as int,
                    label@,
                ),
                outcome,
            );
        }
        match outcome {
            Ok(()) => {},
            Err(error) => {
                return Err(error);
            },
        }
        let down_tag: u64 = hierarchy_data_tag(operation, down, rank);
        let outcome = self.receive_values(leader, down_tag, length);
        proof {
            lemma_part(
                script,
                before,
                mid,
                self.standing(),
                receive_script::<T, D>(model, leader, down_tag, length as int),
                false,
                member_finished::<T, D>(model, sent as int, steps as int, label@),
                decoded_values(outcome),
            );
        }
        let answer = match outcome {
            Ok(answer) => answer,
            Err(error) => {
                return Err(error);
            },
        };
        let total: usize = match sent.checked_add(
            saturating_mul_usize(answer.len(), D::ELEMENT_SIZE),
        ) {
            Some(total) => total,
            None => {
                return Err(from_rank(RankError::Overflow(label)));
            },
        };
        let stats = self.stats(CollectiveAlgorithm::Hierarchical, steps, total, 0);
        Ok((answer, stats))
    }

    /// The leader's part of a hierarchical all-reduce.
    fn all_reduce_as_leader(
        &mut self,
        buffer: &mut D::Buffer,
        groups: &[Vec<u32>],
        group_index: usize,
        operation: u64,
        function: &D::Kernel,
        ring_channels: usize,
        steps: u32,
    ) -> (result: Result<CollectiveStats, D::Error>)
        requires
            old(self).model().valid(),
            ring_channels > 0,
            old(self).model().tuning.hierarchy_groups is Some,
            rank_lists(groups@) == old(self).model().groups(),
            group_index < groups@.len(),
            group_index == group_of(old(self).model().groups(), old(self).model().place.rank),
        ensures
            *final(final(self).link) == *final(old(self).link),
            final(self).model() == old(self).model(),
            final(self).next() == old(self).next(),
            D::values(&*final(buffer)).len() == D::values(&*old(buffer)).len(),
            asked(
                old(self).standing().faults,
                final(self).standing().faults,
                |call: DeviceCall|
                    call.handles_whole(D::values(&*old(buffer)).len() as int)
                    || call.handles_part(D::values(&*old(buffer)).len() as int),
            ),
            performed::<T, D, (Seq<T>, CollectiveStats)>(
                tried(
                    collect_script::<T, D>(
                        old(self).model(),
                        old(self).model().group(),
                        1,
                        operation,
                        0,
                        D::values(&*old(buffer)).len() as int,
                        (Tally { values: D::values(&*old(buffer)), bytes: 0, launches: 0 }),
                        D::reduction(function),
                        hierarchical_all_reduce_labels(),
                    ),
                    false,
                    leader_collected::<T, D>(
                        old(self).model(),
                        operation,
                        ring_channels as int,
                        steps as int,
                        D::reduction(function),
                    ),
                ),
                "hierarchical all-reduce"@,
                group_scope(old(self).model(), 0, false),
                old(self).standing(),
                final(self).standing(),
                in_place::<T, D>(result, D::values(&*final(buffer))),
            ),
    {
        let ghost before = self.standing();
        let ghost model = self.model();
        let ghost combine = D::reduction(function);
        let ghost lists = rank_lists(groups@);
        let length: usize = self.link.execution.buffer_len(&*buffer);
        let group = groups[group_index].as_slice();
        assert(group@ == lists[group_index as int]);
        let leaders = group_leaders(groups);
        let ghost collecting = collect_script::<T, D>(
            model,
            group@,
            1,
            operation,
            0,
            length as int,
            (Tally { values: D::values(&*buffer), bytes: 0, launches: 0 }),
            combine,
            hierarchical_all_reduce_labels(),
        );
        let ghost next = leader_collected::<T, D>(
            model,
            operation,
            ring_channels as int,
            steps as int,
            combine,
        );
        let ghost script = tried(collecting, false, next);
        proof {
            lemma_start(script, before.log);
        }
        let outcome = self.collect_members(
            buffer,
            group,
            operation,
            0,
            length,
            function,
            "hierarchical all-reduce transferred bytes",
            "hierarchical all-reduce kernel launches",
        );
        let ghost mid = self.standing();
        let ghost held = D::values(&*buffer);
        proof {
            lemma_part(
                script,
                before,
                before,
                mid,
                collecting,
                false,
                next,
                tallied::<T, D>(outcome, held),
            );
        }
        let (bytes, launches) = match outcome {
            Ok(counts) => counts,
            Err(error) => {
                return Err(error);
            },
        };
        let ghost tally = Tally { values: held, bytes: bytes as int, launches: launches as int };
        let ghost ringing = leader_all_reduce_script::<T, D>(
            model,
            leaders@,
            group_index as int,
            held,
            operation,
            ring_channels as int,
            combine,
        );
        let outcome = self.leader_all_reduce_ring(
            buffer,
            leaders.as_slice(),
            group_index,
            operation,
            function,
            ring_channels,
        );
        let ghost rung = self.standing();
        proof {
            lemma_performed_part::<T, D, Tally<T>, (Seq<T>, CollectiveStats)>(
                script,
                "hierarchical all-reduce"@,
                Scope::LeaderRing,
                group_scope(model, 0, false),
                before,
                mid,
                rung,
                ringing,
                leader_ringed::<T, D>(model, operation, steps as int, tally),
                tallied::<T, D>(outcome, D::values(&*buffer)),
            );
        }
        let (leader_bytes, leader_launches) = match outcome {
            Ok(counts) => counts,
            Err(error) => {
                return Err(error);
            },
        };
        let bytes: usize = match bytes.checked_add(leader_bytes) {
            Some(bytes) => bytes,
            None => {
                return Err(
                    from_rank(RankError::Overflow("hierarchical all-reduce transferred bytes")),
                );
            },
        };
        let launches: u32 = match launches.checked_add(leader_launches) {
            Some(launches) => launches,
            None => {
                return Err(
                    from_rank(RankError::Overflow("hierarchical all-reduce kernel launches")),
                );
            },
        };
        let reduced = match self.link.execution.copy_from_device(&*buffer) {
            Ok(reduced) => reduced,
            Err(error) => {
                return Err(error);
            },
        };
        let payload = D::encode(reduced.as_slice());
        let ghost payloads = same_payload(payload@);
        let outcome = self.share_with_members(
            group,
            operation,
            3,
            length,
            &payload,
            bytes,
            "hierarchical all-reduce transferred bytes",
            Ghost(payloads),
        );
        proof {
            lemma_part(
                script,
                before,
                rung,
                self.standing(),
                share_script::<D::Error>(
                    model,
                    group@,
                    1,
                    operation,
                    3,
                    length as int,
                    payloads,
                    bytes as int,
                    hierarchical_all_reduce_labels().bytes,
                ),
                false,
                leader_shared::<T, D>(
                    model,
                    D::values(&*buffer),
                    steps as int,
                    launches as int,
                ),
                as_int(outcome),
            );
        }
        match outcome {
            Ok(total) => Ok(
                self.stats(CollectiveAlgorithm::Hierarchical, steps, total, launches),
            ),
            Err(error) => Err(error),
        }
    }

    pub fn all_reduce_hierarchical(
        &mut self,
        buffer: &mut D::Buffer,
        reduction_operation: ReductionOperation,
        function: &D::Kernel,
        ring_channels: usize,
    ) -> (result: Result<CollectiveStats, D::Error>)
        requires
            old(self).model().valid(),
            ring_channels > 0,
        ensures
            *final(final(self).link) == *final(old(self).link),
            final(self).model() == old(self).model(),
            final(self).next() == (if old(self).model().membership_defect() is Some {
                old(self).next()
            } else {
                old(self).next().wrapping_add(1)
            }),
            D::values(&*final(buffer)).len() == D::values(&*old(buffer)).len(),
            result is Err && refused_at_once(old(self).standing(), final(self).standing())
                ==> D::values(&*final(buffer)) == D::values(&*old(buffer)),
            asked(
                old(self).standing().faults,
                final(self).standing().faults,
                |call: DeviceCall|
                    call.handles_whole(D::values(&*old(buffer)).len() as int)
                    || call.handles_part(D::values(&*old(buffer)).len() as int),
            ),
            performed::<T, D, (Seq<T>, CollectiveStats)>(
                all_reduce_hierarchical_script::<T, D>(
                    old(self).model(),
                    D::values(&*old(buffer)),
                    old(self).next(),
                    reduction_operation,
                    ring_channels as int,
                    D::reduction(function),
                ),
                "hierarchical all-reduce"@,
                leaders_scope(old(self).model(), false),
                old(self).standing(),
                final(self).standing(),
                in_place::<T, D>(result, D::values(&*final(buffer))),
            ),
    {
        let ghost before = self.standing();
        let ghost model = self.model();
        let ghost combine = D::reduction(function);
        let ghost script = all_reduce_hierarchical_script::<T, D>(
            model,
            D::values(&*buffer),
            self.next(),
            reduction_operation,
            ring_channels as int,
            combine,
        );
        proof {
            lemma_start(script, before.log);
        }
        let (groups, group_index, _) = match self.hierarchy_membership() {
            Ok(membership) => membership,
            Err(error) => {
                return Err(error);
            },
        };
        let ghost lists = rank_lists(groups@);
        let leader: u32 = groups[group_index][0];
        assert(lists[group_index as int] == groups@[group_index as int]@);
        let operation: u64 = self.link.internal_sequence;
        self.link.internal_sequence = operation.wrapping_add(1);
        let length: usize = self.link.execution.buffer_len(&*buffer);
        let discriminator: u32 = 0x600 + reduction_operation.code();
        let ghost agreed = all_reduce_hierarchy_agreed::<T, D>(
            model,
            D::values(&*buffer),
            operation,
            ring_channels as int,
            combine,
        );
        let outcome = self.hierarchy_agreement(
            groups,
            operation,
            length,
            discriminator,
            ring_channels,
        );
        let ghost mid = self.standing();
        proof {
            lemma_part(
                script,
                before,
                before,
                mid,
                model.hierarchy_agreement(
                    operation,
                    length as int,
                    discriminator,
                    ring_channels as int,
                ),
                false,
                agreed,
                outcome,
            );
        }
        match outcome {
            Ok(()) => {},
            Err(error) => {
                return Err(error);
            },
        }
        let inter: usize = twice_less_one(groups.len());
        let steps: u32 = hierarchy_steps(groups, inter);
        proof {
            lemma_steps(groups, 2 * (groups@.len() - 1));
        }
        let ghost rest = agreed(());
        if self.rank() != leader {
            let values = match self.link.execution.copy_from_device(&*buffer) {
                Ok(values) => values,
                Err(error) => {
                    return Err(error);
                },
            };
            let outcome = self.member_exchange(
                leader,
                values.as_slice(),
                operation,
                0,
                3,
                length,
                steps,
                "hierarchical all-reduce transferred bytes",
            );
            proof {
                lemma_rest(script, before, mid, self.standing(), rest, answered(outcome), false);
                lemma_past_agreement(
                    fnv(
                        agreement_bytes(
                            operation,
                            length as u64,
                            model.groups(),
                            discriminator,
                            ring_channels as u64,
                            model.channel_rails(ring_channels as int),
                        ),
                    ),
                    "invalid hierarchical collective agreement response"@,
                    before,
                    mid,
                    self.standing(),
                );
            }
            let (reduced, stats) = match outcome {
                Ok(answer) => answer,
                Err(error) => {
                    return Err(error);
                },
            };
            return match self.link.execution.copy_to_device(buffer, reduced.as_slice()) {
                Ok(()) => Ok(stats),
                Err(error) => Err(error),
            };
        }
        let outcome = self.all_reduce_as_leader(
            buffer,
            groups,
            group_index,
            operation,
            function,
            ring_channels,
            steps,
        );
        proof {
            assert(self.standing().log.take(mid.log.len() as int) =~= mid.log);
            lemma_past_agreement(
                fnv(
                    agreement_bytes(
                        operation,
                        length as u64,
                        model.groups(),
                        discriminator,
                        ring_channels as u64,
                        model.channel_rails(ring_channels as int),
                    ),
                ),
                "invalid hierarchical collective agreement response"@,
                before,
                mid,
                self.standing(),
            );
            lemma_performed_rest::<T, D, (Seq<T>, CollectiveStats)>(
                script,
                "hierarchical all-reduce"@,
                group_scope(model, 0, false),
                leaders_scope(model, false),
                before,
                mid,
                self.standing(),
                rest,
                in_place::<T, D>(outcome, D::values(&*buffer)),
            );
        }
        outcome
    }
}

/// What a leader answered, and the statistics.
pub open spec fn answered<T, E>(result: Result<(Vec<T>, CollectiveStats), E>) -> Result<
    (Seq<T>, CollectiveStats),
    E,
> {
    match result {
        Ok((values, stats)) => Ok((values@, stats)),
        Err(error) => Err(error),
    }
}

} // verus!

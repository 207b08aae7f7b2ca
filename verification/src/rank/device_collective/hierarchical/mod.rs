//! Hierarchical collectives: within the groups, and between their leaders.

pub mod all_gather;
pub mod all_gather_laws;
pub mod all_gather_prospects;
pub mod all_reduce;
pub mod all_reduce_laws;
pub mod costs;
pub mod laws;
pub mod prospects;
pub mod reduce_scatter;
pub mod reduce_scatter_laws;
pub mod reduce_scatter_prospects;

use crate::math::{min_int, saturate_usize, saturating_mul_usize};
use crate::rank::device::{asked, DeviceCall, RankDevice};
use crate::rank::device_collective::reduction::reduced_bytes;
use crate::rank::device_collective::ring::{tallied, Labels, Tally};
use crate::rank::device_collective::{
    agreement_script, carries, conversed, exactly, from_network, from_rank, from_topology,
    lemma_part, CollectiveModel, DeviceCollective, Scope,
};
use crate::rank::error::RankError;
use crate::rank::hash::fnv;
use crate::rank::layout::{rank_lists, widest_local};
use crate::rank::network::NetworkError;
use crate::rank::script::{
    fails, followed, lemma_asked, lemma_start, reached, too_large, tried, yields, Failure, Script,
    TransportCall, TransportReply,
};
use crate::rank::tags::{
    agreement_bytes, hierarchy_agreement_tag, hierarchy_data_tag, hierarchy_tag,
};
use crate::rank::topology::groups::{apart, grouped};
use crate::rank::topology::{TopologyError, TopologyFailure};
use crate::rank::transport::{tag_rail, RankTransport};
use crate::text::{decimal, push_decimal};
use vstd::bytes::*;
use vstd::prelude::*;
use vstd::slice::*;
use vstd::string::*;

verus! {

pub open spec fn without_groups() -> TopologyFailure {
    TopologyFailure::InvalidHierarchy(
        "hierarchical collective selected without topology groups"@,
    )
}

pub open spec fn absent_from_hierarchy(rank: u32) -> TopologyFailure {
    TopologyFailure::InvalidHierarchy(
        "rank "@ + decimal(rank as nat) + " is absent from the configured hierarchy"@,
    )
}

/// The group that a rank stands in.
pub open spec fn group_of(groups: Seq<Seq<u32>>, rank: u32) -> int {
    choose|g: int| 0 <= g < groups.len() && (#[trigger] groups[g]).contains(rank)
}

/// The place of a rank in its group.
pub open spec fn member_of(groups: Seq<Seq<u32>>, rank: u32) -> int {
    groups[group_of(groups, rank)].index_of(rank)
}

/// A rank stands at one place of a hierarchy only.
pub proof fn lemma_membership(groups: Seq<Seq<u32>>, g: int, i: int)
    requires
        apart(groups, groups.len() as int),
        0 <= g < groups.len(),
        0 <= i < groups[g].len(),
    ensures
        grouped(groups, groups.len() as int, groups[g][i]),
        group_of(groups, groups[g][i]) == g,
        member_of(groups, groups[g][i]) == i,
{
    let rank = groups[g][i];
    assert(groups[g].contains(rank));
    let h = group_of(groups, rank);
    assert(groups[h].contains(rank));
    let j = groups[h].index_of(rank);
    assert(groups[h][j] == rank);
    assert(groups[g][i] == groups[h][j]);
}

impl CollectiveModel {
    pub open spec fn groups(self) -> Seq<Seq<u32>> {
        self.tuning.hierarchy_groups->Some_0
    }

    /// The group of this rank.
    pub open spec fn group(self) -> Seq<u32> {
        self.groups()[group_of(self.groups(), self.place.rank)]
    }

    /// Why this rank has no place in the hierarchy, if it has none.
    pub open spec fn membership_defect(self) -> Option<TopologyFailure> {
        match self.tuning.hierarchy_groups {
            None => Some(without_groups()),
            Some(groups) => if grouped(groups, groups.len() as int, self.place.rank) {
                None
            } else {
                Some(absent_from_hierarchy(self.place.rank))
            },
        }
    }

    /// The script of a hierarchical collective's agreement.
    pub open spec fn hierarchy_agreement<E>(
        self,
        operation: u64,
        length: int,
        discriminator: u32,
        ring_channels: int,
    ) -> Script<(), E> {
        agreement_script(
            fnv(
                agreement_bytes(
                    operation,
                    length as u64,
                    self.groups(),
                    discriminator,
                    ring_channels as u64,
                    self.channel_rails(ring_channels),
                ),
            ),
            "invalid hierarchical collective agreement response"@,
        )
    }

    /// The steps of a hierarchical collective with `inter` steps between the
    /// leaders.
    pub open spec fn hierarchy_steps(self, inter: int) -> int {
        min_int(2 * widest_local(self.groups()) + inter, u32::MAX as int)
    }

    /// The script of one send on the rail that the tag selects.
    pub open spec fn send_script<E>(
        self,
        destination: u32,
        tag: u64,
        element_count: int,
        payload: Seq<u8>,
    ) -> Script<(), E> {
        Script::Ask(
            TransportCall::Send {
                rail: tag_rail(tag, self.place.rails),
                destination,
                tag,
                element_type: self.element_type,
                element_count: element_count as u64,
                payload,
            },
            |reply: TransportReply|
                match reply.outcome() {
                    Err(failure) => fails(Failure::Network(failure)),
                    Ok(()) => yields(()),
                },
        )
    }
}

/// Where a hierarchical reduction works on the device once `said` of the calls
/// that come before its group are answered.
pub open spec fn group_scope(model: CollectiveModel, said: int, stores: bool) -> Scope {
    Scope::Leaders { collected: said + model.group().len() - 1, stores }
}

/// Where a hierarchical reduction works on the device: an agreement comes first.
pub open spec fn leaders_scope(model: CollectiveModel, stores: bool) -> Scope {
    group_scope(model, 1, stores)
}

/// The tag of a message within a group.
pub open spec fn data_tag(operation: u64, phase: u32, index: u32) -> u64 {
    hierarchy_tag(
        fnv(
            spec_u64_to_le_bytes(operation) + spec_u32_to_le_bytes(phase) + spec_u32_to_le_bytes(
                index,
            ),
        ),
    )
}

/// The script that receives a number of elements.
pub open spec fn receive_script<T, D: RankDevice<T>>(
    model: CollectiveModel,
    source: u32,
    tag: u64,
    length: int,
) -> Script<Seq<T>, D::Error> {
    Script::Ask(
        TransportCall::Receive {
            rail: tag_rail(tag, model.place.rails),
            source: Some(source),
            tag,
            element_type: model.element_type,
            element_count: length as u64,
        },
        |reply: TransportReply|
            match reply.frame() {
                Err(failure) => fails(Failure::Network(failure)),
                Ok(frame) => match exactly::<T, D>(frame.payload, length) {
                    Err(failure) => fails(failure),
                    Ok(values) => yields(values),
                },
            },
    )
}

/// What a member sent, reduced into a leader's buffer.
pub open spec fn collected<T, D: RankDevice<T>>(
    tally: Tally<T>,
    values: Seq<T>,
    reduce: spec_fn(T, T) -> T,
    labels: Labels,
) -> Result<Tally<T>, Failure<D::Error>> {
    let bytes = tally.bytes + saturate_usize(values.len() * D::ELEMENT_SIZE);
    if bytes > usize::MAX {
        Err(too_large(labels.bytes))
    } else {
        match reduced_bytes::<T, D>(
            tally.values,
            0,
            values.len() as int,
            D::encoding(values),
            reduce,
        ) {
            Err(failure) => Err(failure),
            Ok((now, launched)) => if tally.launches + launched > u32::MAX {
                Err(too_large(labels.launches))
            } else {
                Ok(Tally { values: now, bytes, launches: tally.launches + launched })
            },
        }
    }
}

/// The script in which a leader receives from the members of its group from
/// `index` on, and reduces each into its buffer.
pub open spec fn collect_script<T, D: RankDevice<T>>(
    model: CollectiveModel,
    group: Seq<u32>,
    index: int,
    operation: u64,
    phase: u32,
    length: int,
    tally: Tally<T>,
    reduce: spec_fn(T, T) -> T,
    labels: Labels,
) -> Script<Tally<T>, D::Error>
    decreases group.len() - index, 1int,
{
    if index < 0 || index >= group.len() {
        yields(tally)
    } else {
        tried(
            receive_script::<T, D>(
                model,
                group[index],
                data_tag(operation, phase, group[index]),
                length,
            ),
            false,
            collect_next::<T, D>(
                model,
                group,
                index,
                operation,
                phase,
                length,
                tally,
                reduce,
                labels,
            ),
        )
    }
}

pub open spec fn collect_next<T, D: RankDevice<T>>(
    model: CollectiveModel,
    group: Seq<u32>,
    index: int,
    operation: u64,
    phase: u32,
    length: int,
    tally: Tally<T>,
    reduce: spec_fn(T, T) -> T,
    labels: Labels,
) -> spec_fn(Seq<T>) -> Script<Tally<T>, D::Error>
    decreases group.len() - index, 0int,
{
    |values: Seq<T>|
        match collected::<T, D>(tally, values, reduce, labels) {
            Err(failure) => fails(failure),
            Ok(tally) => if index < 0 || index >= group.len() {
                yields(tally)
            } else {
                collect_script::<T, D>(
                    model,
                    group,
                    index + 1,
                    operation,
                    phase,
                    length,
                    tally,
                    reduce,
                    labels,
                )
            },
        }
}

/// The script in which a leader sends to the members of its group from `index`
/// on: to each its payload, all of `count` elements.
pub open spec fn share_script<E>(
    model: CollectiveModel,
    group: Seq<u32>,
    index: int,
    operation: u64,
    phase: u32,
    count: int,
    payloads: spec_fn(int) -> Seq<u8>,
    bytes: int,
    label: Seq<char>,
) -> Script<int, E>
    decreases group.len() - index, 1int,
{
    if index < 0 || index >= group.len() {
        yields(bytes)
    } else {
        tried(
            model.send_script(
                group[index],
                data_tag(operation, phase, group[index]),
                count,
                payloads(index),
            ),
            false,
            share_next(model, group, index, operation, phase, count, payloads, bytes, label),
        )
    }
}

pub open spec fn share_next<E>(
    model: CollectiveModel,
    group: Seq<u32>,
    index: int,
    operation: u64,
    phase: u32,
    count: int,
    payloads: spec_fn(int) -> Seq<u8>,
    bytes: int,
    label: Seq<char>,
) -> spec_fn(()) -> Script<int, E>
    decreases group.len() - index, 0int,
{
    |sent: ()|
        if bytes + payloads(index).len() > usize::MAX {
            fails(too_large(label))
        } else if index < 0 || index >= group.len() {
            yields(bytes)
        } else {
            share_script(
                model,
                group,
                index + 1,
                operation,
                phase,
                count,
                payloads,
                bytes + payloads(index).len(),
                label,
            )
        }
}

pub open spec fn decoded_values<T, E>(result: Result<Vec<T>, E>) -> Result<Seq<T>, E> {
    match result {
        Ok(values) => Ok(values@),
        Err(error) => Err(error),
    }
}

pub open spec fn as_int<E>(result: Result<usize, E>) -> Result<int, E> {
    match result {
        Ok(value) => Ok(value as int),
        Err(error) => Err(error),
    }
}

impl<'a, T, D: RankDevice<T>, S: RankTransport> DeviceCollective<'a, T, D, S> where
    D::Error: From<RankError> + From<NetworkError> + From<TopologyError>,
 {
    /// The groups, and the place of this rank in them.
    pub(crate) fn hierarchy_membership(&self) -> (result: Result<
        (&'a [Vec<u32>], usize, usize),
        D::Error,
    >)
        requires
            self.model().valid(),
        ensures
            match self.model().membership_defect() {
                Some(defect) => {
                    &&& result is Err
                    &&& carries(result->Err_0, Failure::Topology(defect))
                },
                None => {
                    &&& result is Ok
                    &&& rank_lists(result->Ok_0.0@) == self.model().groups()
                    &&& result->Ok_0.1 < result->Ok_0.0@.len()
                    &&& result->Ok_0.2 < result->Ok_0.0@[result->Ok_0.1 as int]@.len()
                    &&& result->Ok_0.1 == group_of(
                        self.model().groups(),
                        self.model().place.rank,
                    )
                    &&& result->Ok_0.2 == member_of(
                        self.model().groups(),
                        self.model().place.rank,
                    )
                },
            },
    {
        let tuning = self.tuning;
        let groups = match tuning.hierarchy_groups() {
            Some(groups) => groups,
            None => {
                return Err(
                    from_topology(
                        TopologyError::InvalidHierarchy(
                            String::from_str(
                                "hierarchical collective selected without topology groups",
                            ),
                        ),
                    ),
                );
            },
        };
        let ghost lists = rank_lists(groups@);
        let rank: u32 = self.rank();
        let mut group_index: usize = 0;
        while group_index < groups.len()
            invariant
                group_index <= groups@.len(),
                lists == rank_lists(groups@),
                rank == self.model().place.rank,
                self.model().tuning.hierarchy_groups == Some(lists),
                self.model().valid(),
                forall|g: int| 0 <= g < group_index ==> !(#[trigger] lists[g]).contains(rank),
            decreases groups.len() - group_index,
        {
            let mut member_index: usize = 0;
            while member_index < groups[group_index].len()
                invariant
                    group_index < groups@.len(),
                    member_index <= groups@[group_index as int]@.len(),
                    lists == rank_lists(groups@),
                    rank == self.model().place.rank,
                    self.model().tuning.hierarchy_groups == Some(lists),
                    self.model().valid(),
                    forall|i: int|
                        0 <= i < member_index ==> groups@[group_index as int]@[i] != rank,
                decreases groups@[group_index as int]@.len() - member_index,
            {
                if groups[group_index][member_index] == rank {
                    proof {
                        assert(lists[group_index as int] == groups@[group_index as int]@);
                        lemma_membership(lists, group_index as int, member_index as int);
                    }
                    return Ok((groups, group_index, member_index));
                }
                member_index = member_index + 1;
            }
            assert(lists[group_index as int] == groups@[group_index as int]@);
            group_index = group_index + 1;
        }
        let mut text = String::from_str("rank ");
        push_decimal(&mut text, rank as u64);
        text.append(" is absent from the configured hierarchy");
        Err(from_topology(TopologyError::InvalidHierarchy(text)))
    }

    pub(crate) fn hierarchy_agreement(
        &mut self,
        groups: &[Vec<u32>],
        operation: u64,
        length: usize,
        discriminator: u32,
        ring_channels: usize,
    ) -> (result: Result<(), D::Error>)
        requires
            old(self).model().valid(),
            rank_lists(groups@) == old(self).model().groups(),
        ensures
            *final(final(self).link) == *final(old(self).link),
            final(self).model() == old(self).model(),
            final(self).next() == old(self).next(),
            final(self).standing().log.len() == old(self).standing().log.len() + 1,
            final(self).standing().faults == old(self).standing().faults,
            conversed(
                old(self).model().hierarchy_agreement(
                    operation,
                    length as int,
                    discriminator,
                    ring_channels as int,
                ),
                old(self).standing(),
                final(self).standing(),
                result,
                false,
            ),
    {
        let channel_rails = self.rails_of(ring_channels);
        let tag: u64 = hierarchy_agreement_tag(
            operation,
            length,
            groups,
            discriminator,
            ring_channels,
            channel_rails.as_slice(),
        );
        self.agree(tag, "invalid hierarchical collective agreement response")
    }

    pub(crate) fn receive_values(&mut self, source: u32, tag: u64, length: usize) -> (result:
        Result<Vec<T>, D::Error>)
        requires
            old(self).model().place.rails > 0,
        ensures
            *final(final(self).link) == *final(old(self).link),
            final(self).model() == old(self).model(),
            final(self).next() == old(self).next(),
            final(self).standing().faults == old(self).standing().faults,
            final(self).standing().log.len() == old(self).standing().log.len() + 1,
            conversed(
                receive_script::<T, D>(old(self).model(), source, tag, length as int),
                old(self).standing(),
                final(self).standing(),
                decoded_values(result),
                false,
            ),
            result is Ok ==> result->Ok_0@.len() == length,
    {
        let ghost before = self.standing();
        let ghost script = receive_script::<T, D>(self.model(), source, tag, length as int);
        proof {
            lemma_start(script, before.log);
        }
        let reply = self.link.session.receive(
            Some(source),
            tag,
            self.element_type,
            length as u64,
        );
        proof {
            lemma_asked(script, before.log, before.log, self.link.session.log().last());
        }
        let response = match reply {
            Ok(response) => response,
            Err(error) => {
                return Err(from_network(error));
            },
        };
        self.decode_exact(response.payload.as_slice(), length)
    }

    pub(crate) fn send_bytes(
        &mut self,
        destination: u32,
        tag: u64,
        element_count: usize,
        payload: Vec<u8>,
    ) -> (result: Result<(), D::Error>)
        requires
            old(self).model().place.rails > 0,
        ensures
            *final(final(self).link) == *final(old(self).link),
            final(self).model() == old(self).model(),
            final(self).next() == old(self).next(),
            final(self).standing().faults == old(self).standing().faults,
            conversed(
                old(self).model().send_script(
                    destination,
                    tag,
                    element_count as int,
                    payload@,
                ),
                old(self).standing(),
                final(self).standing(),
                result,
                false,
            ),
    {
        let ghost before = self.standing();
        let ghost script = self.model().send_script::<D::Error>(
            destination,
            tag,
            element_count as int,
            payload@,
        );
        proof {
            lemma_start(script, before.log);
        }
        let reply = self.link.session.send(
            destination,
            tag,
            self.element_type,
            element_count as u64,
            payload,
        );
        proof {
            lemma_asked(script, before.log, before.log, self.link.session.log().last());
        }
        match reply {
            Ok(()) => Ok(()),
            Err(error) => Err(from_network(error)),
        }
    }

    /// Receives from the other members of the group and reduces each into the
    /// buffer.
    pub(crate) fn collect_members(
        &mut self,
        buffer: &mut D::Buffer,
        group: &[u32],
        operation: u64,
        phase: u32,
        length: usize,
        function: &D::Kernel,
        bytes_label: &'static str,
        launches_label: &'static str,
    ) -> (result: Result<(usize, u32), D::Error>)
        requires
            old(self).model().place.rails > 0,
            group@.len() > 0,
        ensures
            *final(final(self).link) == *final(old(self).link),
            final(self).model() == old(self).model(),
            final(self).next() == old(self).next(),
            D::values(&*final(buffer)).len() == D::values(&*old(buffer)).len(),
            asked(
                old(self).standing().faults,
                final(self).standing().faults,
                |call: DeviceCall| call.reduces_part(D::values(&*old(buffer)).len() as int),
            ),
            final(self).standing().log.len() <= old(self).standing().log.len() + group@.len() - 1,
            result is Ok ==> final(self).standing().log.len() == old(self).standing().log.len()
                + group@.len() - 1,
            conversed(
                collect_script::<T, D>(
                    old(self).model(),
                    group@,
                    1,
                    operation,
                    phase,
                    length as int,
                    (Tally { values: D::values(&*old(buffer)), bytes: 0, launches: 0 }),
                    D::reduction(function),
                    (Labels { bytes: bytes_label@, launches: launches_label@ }),
                ),
                old(self).standing(),
                final(self).standing(),
                tallied::<T, D>(result, D::values(&*final(buffer))),
                false,
            ),
    {
        let ghost before = self.standing();
        let ghost model = self.model();
        let ghost combine = D::reduction(function);
        let ghost labels = Labels { bytes: bytes_label@, launches: launches_label@ };
        let ghost script = collect_script::<T, D>(
            model,
            group@,
            1,
            operation,
            phase,
            length as int,
            (Tally { values: D::values(&*buffer), bytes: 0, launches: 0 }),
            combine,
            labels,
        );
        proof {
            lemma_start(script, before.log);
        }
        let mut transferred_bytes: usize = 0;
        let mut launches: u32 = 0;
        let mut index: usize = 1;
        while index < group.len()
            invariant
                1 <= index <= group@.len(),
                model == old(self).model(),
                model.place.rails > 0,
                combine == D::reduction(function),
                labels == (Labels { bytes: bytes_label@, launches: launches_label@ }),
                before == old(self).standing(),
                script == collect_script::<T, D>(
                    model,
                    group@,
                    1,
                    operation,
                    phase,
                    length as int,
                    (Tally { values: D::values(&*old(buffer)), bytes: 0, launches: 0 }),
                    combine,
                    labels,
                ),
                D::values(&*buffer).len() == D::values(&*old(buffer)).len(),
                *final(self.link) == *final(old(self).link),
                self.model() == model,
                self.next() == old(self).next(),
                self.standing().faults == before.faults,
                self.standing().log.len() == before.log.len() + index - 1,
                followed(script, before.log, self.standing().log),
                reached(script, before.log, self.standing().log) == collect_script::<T, D>(
                    model,
                    group@,
                    index as int,
                    operation,
                    phase,
                    length as int,
                    (Tally {
                        values: D::values(&*buffer),
                        bytes: transferred_bytes as int,
                        launches: launches as int,
                    }),
                    combine,
                    labels,
                ),
            decreases group.len() - index,
        {
            let member: u32 = group[index];
            let tag: u64 = hierarchy_data_tag(operation, phase, member);
            let ghost mid = self.standing();
            let ghost tally = Tally {
                values: D::values(&*buffer),
                bytes: transferred_bytes as int,
                launches: launches as int,
            };
            let outcome = self.receive_values(member, tag, length);
            proof {
                lemma_part(
                    script,
                    before,
                    mid,
                    self.standing(),
                    receive_script::<T, D>(model, member, tag, length as int),
                    false,
                    collect_next::<T, D>(
                        model,
                        group@,
                        index as int,
                        operation,
                        phase,
                        length as int,
                        tally,
                        combine,
                        labels,
                    ),
                    decoded_values(outcome),
                );
            }
            let values = match outcome {
                Ok(values) => values,
                Err(error) => {
                    return Err(error);
                },
            };
            match transferred_bytes.checked_add(
                saturating_mul_usize(values.len(), D::ELEMENT_SIZE),
            ) {
                Some(total) => {
                    transferred_bytes = total;
                },
                None => {
                    return Err(from_rank(RankError::Overflow(bytes_label)));
                },
            }
            let launched: u32 = match self.reduce_values_into(
                buffer,
                0,
                values.as_slice(),
                function,
            ) {
                Ok(launched) => launched,
                Err(error) => {
                    return Err(error);
                },
            };
            match launches.checked_add(launched) {
                Some(total) => {
                    launches = total;
                },
                None => {
                    return Err(from_rank(RankError::Overflow(launches_label)));
                },
            }
            index = index + 1;
        }
        Ok((transferred_bytes, launches))
    }

    /// Sends the same payload to the other members of the group.
    pub(crate) fn share_with_members(
        &mut self,
        group: &[u32],
        operation: u64,
        phase: u32,
        count: usize,
        payload: &Vec<u8>,
        start_bytes: usize,
        label: &'static str,
        Ghost(payloads): Ghost<spec_fn(int) -> Seq<u8>>,
    ) -> (result: Result<usize, D::Error>)
        requires
            old(self).model().place.rails > 0,
            group@.len() > 0,
            forall|i: int| #[trigger] payloads(i) == payload@,
        ensures
            *final(final(self).link) == *final(old(self).link),
            final(self).model() == old(self).model(),
            final(self).next() == old(self).next(),
            final(self).standing().faults == old(self).standing().faults,
            conversed(
                share_script(
                    old(self).model(),
                    group@,
                    1,
                    operation,
                    phase,
                    count as int,
                    payloads,
                    start_bytes as int,
                    label@,
                ),
                old(self).standing(),
                final(self).standing(),
                as_int(result),
                false,
            ),
    {
        let ghost before = self.standing();
        let ghost model = self.model();
        let ghost script = share_script::<D::Error>(
            model,
            group@,
            1,
            operation,
            phase,
            count as int,
            payloads,
            start_bytes as int,
            label@,
        );
        proof {
            lemma_start(script, before.log);
        }
        let mut transferred_bytes: usize = start_bytes;
        let mut index: usize = 1;
        while index < group.len()
            invariant
                1 <= index <= group@.len(),
                model == old(self).model(),
                model.place.rails > 0,
                forall|i: int| #[trigger] payloads(i) == payload@,
                before == old(self).standing(),
                script == share_script::<D::Error>(
                    model,
                    group@,
                    1,
                    operation,
                    phase,
                    count as int,
                    payloads,
                    start_bytes as int,
                    label@,
                ),
                *final(self.link) == *final(old(self).link),
                self.model() == model,
                self.next() == old(self).next(),
                self.standing().faults == before.faults,
                followed(script, before.log, self.standing().log),
                reached(script, before.log, self.standing().log) == share_script::<D::Error>(
                    model,
                    group@,
                    index as int,
                    operation,
                    phase,
                    count as int,
                    payloads,
                    transferred_bytes as int,
                    label@,
                ),
            decreases group.len() - index,
        {
            let member: u32 = group[index];
            let tag: u64 = hierarchy_data_tag(operation, phase, member);
            let ghost mid = self.standing();
            let copy = payload.clone();
            assert(copy@ == payloads(index as int));
            let outcome = self.send_bytes(member, tag, count, copy);
            proof {
                lemma_part(
                    script,
                    before,
                    mid,
                    self.standing(),
                    model.send_script(member, tag, count as int, payloads(index as int)),
                    false,
                    share_next(
                        model,
                        group@,
                        index as int,
                        operation,
                        phase,
                        count as int,
                        payloads,
                        transferred_bytes as int,
                        label@,
                    ),
                    outcome,
                );
            }
            match outcome {
                Ok(()) => {},
                Err(error) => {
                    return Err(error);
                },
            }
            match transferred_bytes.checked_add(payload.len()) {
                Some(total) => {
                    transferred_bytes = total;
                },
                None => {
                    return Err(from_rank(RankError::Overflow(label)));
                },
            }
            index = index + 1;
        }
        Ok(transferred_bytes)
    }
}

/// Twice one less than a count; the largest number where that does not fit.
pub(crate) fn twice_less_one(count: usize) -> (twice: usize)
    requires
        count > 0,
    ensures
        twice == saturate_usize(2 * (count - 1)),
{
    saturating_mul_usize(count - 1, 2)
}

/// A step count that does not fit a machine word does not fit the statistics.
pub(crate) proof fn lemma_steps(groups: &[Vec<u32>], inter: int)
    requires
        0 <= inter,
    ensures
        min_int(2 * widest_local(rank_lists(groups@)) + saturate_usize(inter), u32::MAX as int)
            == min_int(2 * widest_local(rank_lists(groups@)) + inter, u32::MAX as int),
{
    lemma_widest(rank_lists(groups@));
}

proof fn lemma_widest(groups: Seq<Seq<u32>>)
    ensures
        widest_local(groups) >= 0,
    decreases groups.len(),
{
    if groups.len() > 0 {
        lemma_widest(groups.drop_last());
    }
}

} // verus!

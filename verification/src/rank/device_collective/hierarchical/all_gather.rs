//! The hierarchical all-gather.

use crate::math::{saturate_usize, saturating_add_usize, saturating_mul_usize};
use crate::rank::device::{asked, DeviceCall, RankDevice};
use crate::rank::device_collective::hierarchical::all_reduce::{
    answered, leader_shared, member_script, same_payload,
};
use crate::rank::device_collective::hierarchical::{
    as_int, data_tag, decoded_values, group_of, member_of, receive_script, share_script,
};
use crate::rank::device_collective::reduce_scatter::new_buffer;
use crate::rank::device_collective::ring::{
    back, chunk_length, forward, received_bytes, RoundTags,
};
use crate::rank::device_collective::{
    append_values, conversed, effective_channels, exactly, from_network, from_rank, lemma_part,
    lemma_performed_part, lemma_performed_rest, lemma_rest, performed, CollectiveModel,
    DeviceCollective, Scope,
};
use crate::rank::error::RankError;
use crate::rank::host::exchange::host_payload_script;
use crate::rank::layout::{
    are_balanced_ranges, balanced_ranges, balanced_start, hierarchy_steps, law_balanced_partition,
    rank_lists,
};
use crate::rank::network::NetworkError;
use crate::rank::script::{
    bad_reply, fails, followed, lemma_start, reached, too_large, tried, yields, Failure, Script,
};
use crate::rank::stats::CollectiveStats;
use crate::rank::tags::hierarchy_data_tag;
use crate::rank::topology::cycles::heads;
use crate::rank::topology::estimates::group_leaders;
use crate::rank::topology::groups::{grouped, is_hierarchy};
use crate::rank::topology::TopologyError;
use crate::rank::transport::RankTransport;
use crate::rank::CollectiveAlgorithm;
use crate::text::{decimal, push_usize};
use std::ops::Range;
use vstd::arithmetic::div_mod::*;
use vstd::prelude::*;
use vstd::slice::*;
use vstd::string::*;

verus! {

pub open spec fn gather_bytes_label() -> Seq<char> {
    "hierarchical all-gather transferred bytes"@
}

/// The script in which a leader gathers its group's values from `index` on into
/// one bundle, in the order of the group.
pub open spec fn bundle_script<T, D: RankDevice<T>>(
    model: CollectiveModel,
    group: Seq<u32>,
    index: int,
    operation: u64,
    local: Seq<T>,
    bundle: Seq<T>,
    bytes: int,
) -> Script<(Seq<T>, int), D::Error>
    decreases group.len() - index, 1int,
{
    if index < 0 || index >= group.len() {
        yields((bundle, bytes))
    } else if group[index] == group[0] {
        bundle_script::<T, D>(model, group, index + 1, operation, local, bundle + local, bytes)
    } else {
        tried(
            receive_script::<T, D>(
                model,
                group[index],
                data_tag(operation, 4, group[index]),
                local.len() as int,
            ),
            false,
            bundle_next::<T, D>(model, group, index, operation, local, bundle, bytes),
        )
    }
}

pub open spec fn bundle_next<T, D: RankDevice<T>>(
    model: CollectiveModel,
    group: Seq<u32>,
    index: int,
    operation: u64,
    local: Seq<T>,
    bundle: Seq<T>,
    bytes: int,
) -> spec_fn(Seq<T>) -> Script<(Seq<T>, int), D::Error>
    decreases group.len() - index, 0int,
{
    |values: Seq<T>|
        {
            let total = bytes + saturate_usize(values.len() * D::ELEMENT_SIZE);
            if total > usize::MAX {
                fails(too_large(gather_bytes_label()))
            } else if index < 0 || index >= group.len() {
                yields((bundle, bytes))
            } else {
                bundle_script::<T, D>(
                    model,
                    group,
                    index + 1,
                    operation,
                    local,
                    bundle + values,
                    total,
                )
            }
        }
}

/// What stays the same over one channel of the leaders' all-gather.
pub struct GatherChannel {
    pub model: CollectiveModel,
    pub groups: Seq<Seq<u32>>,
    pub leaders: Seq<u32>,
    pub position: int,
    pub length: int,
    pub operation: u64,
    pub channel: usize,
    pub channels: int,
}

impl GatherChannel {
    pub open spec fn count(self) -> int {
        self.leaders.len() as int
    }

    /// The leader whose piece goes out at a step.
    pub open spec fn sends(self, step: int) -> int {
        (self.position - step) % self.count()
    }

    /// The leader whose piece comes in at a step.
    pub open spec fn receives(self, step: int) -> int {
        (self.position - step - 1) % self.count()
    }

    /// The elements of a leader's bundle.
    pub open spec fn bundle(self, leader: int) -> int {
        self.groups[leader].len() * self.length
    }

    /// The elements of this channel's piece of a leader's bundle.
    pub open spec fn piece(self, leader: int) -> int {
        chunk_length(self.bundle(leader), self.channels, self.channel as int)
    }

    pub open spec fn tag(self, step: int) -> u64 {
        (RoundTags {
            operation: self.operation,
            channel: self.channel,
            phase: 5,
            hierarchical: true,
        }).tags()(step)
    }
}

/// The script of one channel of the leaders' all-gather from `step` on: every
/// piece travels round the ring.
pub open spec fn piece_script<T, D: RankDevice<T>>(
    at: GatherChannel,
    step: int,
    pieces: Seq<Option<Seq<T>>>,
    bytes: int,
) -> Script<(Seq<Option<Seq<T>>>, int), D::Error>
    decreases at.count() - step, 1int,
{
    let payload = D::encoding(pieces[at.sends(step)]->Some_0);
    let receive = at.receives(step);
    if step < 0 || step >= at.count() - 1 {
        yields((pieces, bytes))
    } else if at.bundle(receive) > usize::MAX {
        fails(too_large("hierarchical all-gather leader bundle length"@))
    } else if at.piece(receive) * D::ELEMENT_SIZE > usize::MAX {
        fails(too_large("hierarchical all-gather leader bundle bytes"@))
    } else {
        tried(
            host_payload_script(
                at.model.rails,
                at.model.element_type,
                payload,
                at.piece(receive) * D::ELEMENT_SIZE,
                at.leaders[(at.position + 1) % at.count()],
                at.leaders[(at.position - 1) % at.count()],
                at.channel as int,
                at.tag(step),
            ),
            false,
            piece_next::<T, D>(at, step, pieces, bytes),
        )
    }
}

pub open spec fn piece_next<T, D: RankDevice<T>>(
    at: GatherChannel,
    step: int,
    pieces: Seq<Option<Seq<T>>>,
    bytes: int,
) -> spec_fn(Seq<u8>) -> Script<(Seq<Option<Seq<T>>>, int), D::Error>
    decreases at.count() - step, 0int,
{
    |received: Seq<u8>|
        {
            let payload = D::encoding(pieces[at.sends(step)]->Some_0);
            let receive = at.receives(step);
            let total = bytes + saturate_usize((payload.len() + received.len()) as int);
            if total > usize::MAX {
                fails(too_large(gather_bytes_label()))
            } else {
                match exactly::<T, D>(received, at.piece(receive)) {
                    Err(failure) => fails(failure),
                    Ok(values) => if step < 0 || step >= at.count() - 1 {
                        yields((pieces, bytes))
                    } else {
                        piece_script::<T, D>(
                            at,
                            step + 1,
                            pieces.update(receive, Some(values)),
                            total,
                        )
                    },
                }
            }
        }
}

/// The pieces of a channel at its start: only the own one.
pub open spec fn own_piece<T>(bundle: Seq<T>, at: GatherChannel) -> Seq<Option<Seq<T>>> {
    let length = bundle.len() as int;
    let channel = at.channel as int;
    Seq::new(
        at.leaders.len(),
        |g: int|
            if g == at.position {
                Some(
                    bundle.subrange(
                        balanced_start(length, at.channels, channel),
                        balanced_start(length, at.channels, channel + 1),
                    ),
                )
            } else {
                None
            },
    )
}

/// The channels of the leaders' all-gather from `channel` on.
pub open spec fn gather_channels<T, D: RankDevice<T>>(
    at: GatherChannel,
    bundle: Seq<T>,
    channel: int,
    runs: Seq<(Seq<Option<Seq<T>>>, int)>,
) -> Script<Seq<(Seq<Option<Seq<T>>>, int)>, D::Error>
    decreases at.channels - channel, 1int,
{
    let now = GatherChannel { channel: channel as usize, ..at };
    if channel >= at.channels {
        yields(runs)
    } else {
        tried(
            piece_script::<T, D>(now, 0, own_piece(bundle, now), 0),
            true,
            gather_next::<T, D>(at, bundle, channel, runs),
        )
    }
}

pub open spec fn gather_next<T, D: RankDevice<T>>(
    at: GatherChannel,
    bundle: Seq<T>,
    channel: int,
    runs: Seq<(Seq<Option<Seq<T>>>, int)>,
) -> spec_fn((Seq<Option<Seq<T>>>, int)) -> Script<Seq<(Seq<Option<Seq<T>>>, int)>, D::Error>
    decreases at.channels - channel, 0int,
{
    |run: (Seq<Option<Seq<T>>>, int)|
        if channel >= at.channels {
            yields(runs)
        } else {
            gather_channels::<T, D>(at, bundle, channel + 1, runs.push(run))
        }
}

/// Some piece is missing.
pub open spec fn incomplete<T>(pieces: Seq<Option<Seq<T>>>) -> bool {
    exists|g: int| 0 <= g < pieces.len() && (#[trigger] pieces[g]) is None
}

/// The channels' pieces put together: each group's bundle, and the bytes moved.
pub open spec fn merged<T, E>(runs: Seq<(Seq<Option<Seq<T>>>, int)>, count: int) -> Result<
    (Seq<Seq<T>>, int),
    Failure<E>,
>
    decreases runs.len(),
{
    if runs.len() == 0 {
        Ok((Seq::new(count as nat, |g: int| Seq::empty()), 0int))
    } else {
        let (pieces, moved) = runs.last();
        match merged::<T, E>(runs.drop_last(), count) {
            Err(failure) => Err(failure),
            Ok((bundles, bytes)) => if bytes + moved > usize::MAX {
                Err(too_large(gather_bytes_label()))
            } else if incomplete(pieces) {
                Err(
                    bad_reply(
                        "hierarchical all-gather did not receive every leader bundle channel"@,
                    ),
                )
            } else {
                Ok(
                    (
                        Seq::new(count as nat, |g: int| bundles[g] + pieces[g]->Some_0),
                        bytes + moved,
                    ),
                )
            },
        }
    }
}

/// Why the first `count` bundles are not the groups', if they are not.
pub open spec fn bundle_defect<T, E>(
    bundles: Seq<Seq<T>>,
    groups: Seq<Seq<u32>>,
    length: int,
    count: int,
) -> Option<Failure<E>>
    decreases count,
{
    if count <= 0 {
        None
    } else {
        let expected = groups[count - 1].len() * length;
        match bundle_defect::<T, E>(bundles, groups, length, count - 1) {
            Some(failure) => Some(failure),
            None => if expected > usize::MAX {
                Some(too_large("hierarchical all-gather bundle length"@))
            } else if bundles[count - 1].len() != expected {
                Some(
                    bad_reply(
                        "hierarchical all-gather bundle has "@ + decimal(bundles[count - 1].len())
                            + " elements, expected "@ + decimal(expected as nat),
                    ),
                )
            } else {
                None
            },
        }
    }
}

pub open spec fn gather_merged<T, D: RankDevice<T>>(
    groups: Seq<Seq<u32>>,
    length: int,
) -> spec_fn(Seq<(Seq<Option<Seq<T>>>, int)>) -> Script<(Seq<Seq<T>>, int), D::Error> {
    |runs: Seq<(Seq<Option<Seq<T>>>, int)>|
        match merged::<T, D::Error>(runs, groups.len() as int) {
            Err(failure) => fails(failure),
            Ok((bundles, bytes)) => match bundle_defect::<T, D::Error>(
                bundles,
                groups,
                length,
                groups.len() as int,
            ) {
                Some(failure) => fails(failure),
                None => yields((bundles, bytes)),
            },
        }
}

/// The script of the leaders' all-gather: every leader ends with every group's
/// bundle.
pub open spec fn leader_all_gather_script<T, D: RankDevice<T>>(
    at: GatherChannel,
    bundle: Seq<T>,
) -> Script<(Seq<Seq<T>>, int), D::Error> {
    tried(
        gather_channels::<T, D>(at, bundle, 0, Seq::empty()),
        false,
        gather_merged::<T, D>(at.groups, at.length),
    )
}

/// The values of a rank, as its group's bundle holds them.
pub open spec fn bundled<T>(
    groups: Seq<Seq<u32>>,
    bundles: Seq<Seq<T>>,
    length: int,
    rank: int,
) -> Seq<T> {
    let member = member_of(groups, rank as u32);
    bundles[group_of(groups, rank as u32)].subrange(member * length, member * length + length)
}

/// The values of the first `ranks` ranks, in the order of the ranks.
pub open spec fn assembled<T>(
    groups: Seq<Seq<u32>>,
    bundles: Seq<Seq<T>>,
    length: int,
    ranks: int,
) -> Seq<T>
    decreases ranks,
{
    if ranks <= 0 {
        Seq::empty()
    } else {
        assembled(groups, bundles, length, ranks - 1) + bundled(
            groups,
            bundles,
            length,
            ranks - 1,
        )
    }
}

pub open spec fn gather_ringed<T, D: RankDevice<T>>(
    model: CollectiveModel,
    length: int,
    operation: u64,
    steps: int,
    bytes: int,
) -> spec_fn((Seq<Seq<T>>, int)) -> Script<(Seq<T>, CollectiveStats), D::Error> {
    |ringed: (Seq<Seq<T>>, int)|
        {
            let output = assembled(model.groups(), ringed.0, length, model.world());
            if bytes + ringed.1 > usize::MAX {
                fails(too_large(gather_bytes_label()))
            } else if output.len() != length * model.world() {
                fails(bad_reply("hierarchical all-gather assembled the wrong output length"@))
            } else {
                tried(
                    share_script(
                        model,
                        model.group(),
                        1,
                        operation,
                        6,
                        output.len() as int,
                        same_payload(D::encoding(output)),
                        bytes + ringed.1,
                        gather_bytes_label(),
                    ),
                    false,
                    leader_shared::<T, D>(model, output, steps, 0),
                )
            }
        }
}

pub open spec fn gather_bundled<T, D: RankDevice<T>>(
    model: CollectiveModel,
    length: int,
    operation: u64,
    ring_channels: int,
    steps: int,
) -> spec_fn((Seq<T>, int)) -> Script<(Seq<T>, CollectiveStats), D::Error> {
    |run: (Seq<T>, int)|
        tried(
            leader_all_gather_script::<T, D>(
                GatherChannel {
                    model,
                    groups: model.groups(),
                    leaders: heads(model.groups()),
                    position: group_of(model.groups(), model.place.rank),
                    length,
                    operation,
                    channel: 0,
                    channels: effective_channels(ring_channels, length),
                },
                run.0,
            ),
            false,
            gather_ringed::<T, D>(model, length, operation, steps, run.1),
        )
}

/// The leader's part of the script.
pub open spec fn gather_leader_script<T, D: RankDevice<T>>(
    model: CollectiveModel,
    values: Seq<T>,
    operation: u64,
    ring_channels: int,
    steps: int,
) -> Script<(Seq<T>, CollectiveStats), D::Error> {
    if model.group().len() * values.len() > usize::MAX {
        fails(too_large("hierarchical all-gather local bundle length"@))
    } else {
        tried(
            bundle_script::<T, D>(
                model,
                model.group(),
                0,
                operation,
                values,
                Seq::empty(),
                0,
            ),
            false,
            gather_bundled::<T, D>(
                model,
                values.len() as int,
                operation,
                ring_channels,
                steps,
            ),
        )
    }
}

pub open spec fn all_gather_hierarchy_agreed<T, D: RankDevice<T>>(
    model: CollectiveModel,
    values: Seq<T>,
    operation: u64,
    ring_channels: int,
) -> spec_fn(()) -> Script<(Seq<T>, CollectiveStats), D::Error> {
    |agreed: ()|
        {
            let group = model.group();
            let steps = model.hierarchy_steps(model.groups().len() - 1);
            if values.len() * model.world() > usize::MAX {
                fails(too_large("hierarchical all-gather output length"@))
            } else if model.place.rank != group[0] {
                member_script::<T, D>(
                    model,
                    group[0],
                    values,
                    operation,
                    4,
                    6,
                    values.len() * model.world(),
                    steps,
                    gather_bytes_label(),
                )
            } else {
                gather_leader_script::<T, D>(model, values, operation, ring_channels, steps)
            }
        }
}

/// The script of a hierarchical all-gather: each group's values are bundled at
/// its leader, the leaders exchange the bundles round a ring, and the members
/// are sent every rank's values in the order of the ranks.
pub open spec fn all_gather_hierarchical_script<T, D: RankDevice<T>>(
    model: CollectiveModel,
    values: Seq<T>,
    operation: u64,
    ring_channels: int,
) -> Script<(Seq<T>, CollectiveStats), D::Error> {
    match model.membership_defect() {
        Some(defect) => fails(Failure::Topology(defect)),
        None => tried(
            model.hierarchy_agreement(operation, values.len() as int, 0x700, ring_channels),
            false,
            all_gather_hierarchy_agreed::<T, D>(model, values, operation, ring_channels),
        ),
    }
}

/// Pieces as sequences.
pub open spec fn piece_views<T>(pieces: Seq<Option<Vec<T>>>) -> Seq<Option<Seq<T>>> {
    Seq::new(
        pieces.len(),
        |g: int|
            match pieces[g] {
                Some(piece) => Some(piece@),
                None => None,
            },
    )
}

/// Runs as sequences.
pub open spec fn run_views<T>(runs: Seq<(Vec<Option<Vec<T>>>, usize)>) -> Seq<
    (Seq<Option<Seq<T>>>, int),
> {
    Seq::new(runs.len(), |c: int| (piece_views(runs[c].0@), runs[c].1 as int))
}

/// Bundles as sequences.
pub open spec fn bundle_views<T>(bundles: Seq<Vec<T>>) -> Seq<Seq<T>> {
    Seq::new(bundles.len(), |g: int| bundles[g]@)
}

pub open spec fn pieces_result<T, E>(result: Result<(Vec<Option<Vec<T>>>, usize), E>) -> Result<
    (Seq<Option<Seq<T>>>, int),
    E,
> {
    match result {
        Ok((pieces, bytes)) => Ok((piece_views(pieces@), bytes as int)),
        Err(error) => Err(error),
    }
}

pub open spec fn bundle_result<T, E>(result: Result<(Vec<T>, usize), E>) -> Result<
    (Seq<T>, int),
    E,
> {
    match result {
        Ok((bundle, bytes)) => Ok((bundle@, bytes as int)),
        Err(error) => Err(error),
    }
}

pub open spec fn bundles_result<T, E>(result: Result<(Vec<Vec<T>>, usize), E>) -> Result<
    (Seq<Seq<T>>, int),
    E,
> {
    match result {
        Ok((bundles, bytes)) => Ok((bundle_views(bundles@), bytes as int)),
        Err(error) => Err(error),
    }
}

/// A prefix that cannot be merged makes the whole unmergeable.
proof fn lemma_merged_prefix<T, E>(
    runs: Seq<(Seq<Option<Seq<T>>>, int)>,
    count: int,
    end: int,
)
    requires
        0 <= end <= runs.len(),
        merged::<T, E>(runs.take(end), count) is Err,
    ensures
        merged::<T, E>(runs, count) == merged::<T, E>(runs.take(end), count),
    decreases runs.len() - end,
{
    if end < runs.len() {
        assert(runs.drop_last().take(end) =~= runs.take(end));
        lemma_merged_prefix::<T, E>(runs.drop_last(), count, end);
    } else {
        assert(runs.take(end) =~= runs);
    }
}

/// A bundle that is not its group's shows in the whole.
proof fn lemma_defect_prefix<T, E>(
    bundles: Seq<Seq<T>>,
    groups: Seq<Seq<u32>>,
    length: int,
    count: int,
    end: int,
)
    requires
        0 <= count <= end,
        bundle_defect::<T, E>(bundles, groups, length, count) is Some,
    ensures
        bundle_defect::<T, E>(bundles, groups, length, end) == bundle_defect::<T, E>(
            bundles,
            groups,
            length,
            count,
        ),
    decreases end - count,
{
    if count < end {
        lemma_defect_prefix::<T, E>(bundles, groups, length, count, end - 1);
    }
}

/// Without a defect every bundle has its group's length.
proof fn lemma_no_defect<T, E>(
    bundles: Seq<Seq<T>>,
    groups: Seq<Seq<u32>>,
    length: int,
    count: int,
    group: int,
)
    requires
        0 <= group < count,
        bundle_defect::<T, E>(bundles, groups, length, count) is None,
    ensures
        bundles[group].len() == groups[group].len() * length,
        groups[group].len() * length <= usize::MAX,
    decreases count,
{
    if group < count - 1 {
        lemma_no_defect::<T, E>(bundles, groups, length, count - 1, group);
    }
}

/// Puts the channels' pieces together.
fn merge_pieces<T: Copy, E>(runs: &Vec<(Vec<Option<Vec<T>>>, usize)>, count: usize) -> (result:
    Result<(Vec<Vec<T>>, usize), Result<RankError, NetworkError>>)
    requires
        forall|c: int| 0 <= c < runs@.len() ==> (#[trigger] runs@[c]).0@.len() == count,
    ensures
        match merged::<T, E>(run_views(runs@), count as int) {
            Ok((bundles, bytes)) => {
                &&& result is Ok
                &&& bundle_views(result->Ok_0.0@) == bundles
                &&& result->Ok_0.0@.len() == count
                &&& result->Ok_0.1 == bytes
            },
            Err(failure) => {
                &&& result is Err
                &&& match result->Err_0 {
                    Ok(error) => failure == Failure::<E>::Rank(error@),
                    Err(error) => failure == Failure::<E>::Network(error@),
                }
            },
        },
{
    let ghost all = run_views(runs@);
    let mut bundles: Vec<Vec<T>> = Vec::new();
    let mut start: usize = 0;
    while start < count
        invariant
            start <= count,
            bundles@.len() == start,
            forall|g: int| 0 <= g < start ==> (#[trigger] bundles@[g])@ == Seq::<T>::empty(),
        decreases count - start,
    {
        bundles.push(Vec::new());
        start = start + 1;
    }
    let mut bytes: usize = 0;
    let mut channel: usize = 0;
    assert(bundle_views(bundles@) =~= Seq::new(count as nat, |g: int| Seq::<T>::empty()));
    assert(all.take(0) =~= Seq::empty());
    while channel < runs.len()
        invariant
            channel <= runs@.len(),
            forall|c: int| 0 <= c < runs@.len() ==> (#[trigger] runs@[c]).0@.len() == count,
            all == run_views(runs@),
            bundles@.len() == count,
            merged::<T, E>(all.take(channel as int), count as int) == Ok::<
                (Seq<Seq<T>>, int),
                Failure<E>,
            >((bundle_views(bundles@), bytes as int)),
        decreases runs.len() - channel,
    {
        assert(all.take(channel + 1).drop_last() =~= all.take(channel as int));
        assert(all.take(channel + 1).last() == all[channel as int]);
        let ghost before = bundle_views(bundles@);
        let ghost pieces = piece_views(runs@[channel as int].0@);
        assert(runs@[channel as int].0@.len() == count);
        match bytes.checked_add(runs[channel].1) {
            Some(total) => {
                bytes = total;
            },
            None => {
                proof {
                    lemma_merged_prefix::<T, E>(all, count as int, channel + 1);
                }
                return Err(
                    Ok(RankError::Overflow("hierarchical all-gather transferred bytes")),
                );
            },
        }
        let mut group: usize = 0;
        while group < count
            invariant
                group <= count,
                channel < runs@.len(),
                runs@[channel as int].0@.len() == count,
                pieces == piece_views(runs@[channel as int].0@),
                all == run_views(runs@),
                bundles@.len() == count,
                before.len() == count,
                all.take(channel + 1).len() == channel + 1,
                all.take(channel + 1).last() == (pieces, runs@[channel as int].1 as int),
                forall|g: int| 0 <= g < group ==> (#[trigger] pieces[g]) is Some,
                forall|g: int|
                    0 <= g < group ==> (#[trigger] bundles@[g])@ == before[g] + pieces[g]->Some_0,
                forall|g: int| group <= g < count ==> (#[trigger] bundles@[g])@ == before[g],
                merged::<T, E>(all.take(channel + 1).drop_last(), count as int) == Ok::<
                    (Seq<Seq<T>>, int),
                    Failure<E>,
                >((before, bytes - runs@[channel as int].1)),
            decreases count - group,
        {
            match &runs[channel].0[group] {
                Some(piece) => {
                    assert(pieces[group as int] == Some(piece@));
                    append_values(&mut bundles[group], piece.as_slice());
                },
                None => {
                    proof {
                        assert(pieces[group as int] is None);
                        assert(incomplete(pieces));
                        lemma_merged_prefix::<T, E>(all, count as int, channel + 1);
                    }
                    return Err(
                        Err(
                            NetworkError::invalid(
                                "hierarchical all-gather did not receive every leader bundle channel",
                            ),
                        ),
                    );
                },
            }
            group = group + 1;
        }
        assert(!incomplete(pieces));
        assert(bundle_views(bundles@) =~= Seq::new(
            count as nat,
            |g: int| before[g] + pieces[g]->Some_0,
        ));
        channel = channel + 1;
    }
    assert(all.take(channel as int) =~= all);
    Ok((bundles, bytes))
}

/// Refuses bundles that are not the groups'.
fn validate_bundles<T, E>(bundles: &Vec<Vec<T>>, groups: &[Vec<u32>], length: usize) -> (result:
    Result<(), Result<RankError, NetworkError>>)
    requires
        bundles@.len() == groups@.len(),
    ensures
        match bundle_defect::<T, E>(
            bundle_views(bundles@),
            rank_lists(groups@),
            length as int,
            groups@.len() as int,
        ) {
            None => result is Ok,
            Some(failure) => {
                &&& result is Err
                &&& match result->Err_0 {
                    Ok(error) => failure == Failure::<E>::Rank(error@),
                    Err(error) => failure == Failure::<E>::Network(error@),
                }
            },
        },
{
    let ghost views = bundle_views(bundles@);
    let ghost lists = rank_lists(groups@);
    let mut index: usize = 0;
    while index < groups.len()
        invariant
            index <= groups@.len(),
            bundles@.len() == groups@.len(),
            views == bundle_views(bundles@),
            lists == rank_lists(groups@),
            bundle_defect::<T, E>(views, lists, length as int, index as int) is None,
        decreases groups.len() - index,
    {
        assert(lists[index as int] == groups@[index as int]@);
        assert(views[index as int] == bundles@[index as int]@);
        let expected: usize = match groups[index].len().checked_mul(length) {
            Some(expected) => expected,
            None => {
                proof {
                    lemma_defect_prefix::<T, E>(
                        views,
                        lists,
                        length as int,
                        index + 1,
                        groups@.len() as int,
                    );
                }
                return Err(Ok(RankError::Overflow("hierarchical all-gather bundle length")));
            },
        };
        if bundles[index].len() != expected {
            proof {
                lemma_defect_prefix::<T, E>(
                    views,
                    lists,
                    length as int,
                    index + 1,
                    groups@.len() as int,
                );
            }
            let mut text = String::from_str("hierarchical all-gather bundle has ");
            push_usize(&mut text, bundles[index].len());
            text.append(" elements, expected ");
            push_usize(&mut text, expected);
            return Err(Err(NetworkError::InvalidConfiguration(text)));
        }
        index = index + 1;
    }
    Ok(())
}

/// A rank's place in a table of groups and members.
spec fn stands_at(places: Seq<(usize, usize)>, rank: u32, group: int, member: int) -> bool {
    places[rank as int].0 == group && places[rank as int].1 == member
}

/// Puts every rank's values into the order of the ranks.
fn assemble<T: Copy>(groups: &[Vec<u32>], bundles: &Vec<Vec<T>>, length: usize, world_size: usize) -> (output:
    Vec<T>)
    requires
        world_size <= u32::MAX,
        is_hierarchy(world_size as u32, rank_lists(groups@)),
        bundles@.len() == groups@.len(),
        forall|g: int|
            0 <= g < groups@.len() ==> (#[trigger] bundles@[g])@.len() == groups@[g]@.len()
                * length,
    ensures
        output@ == assembled(
            rank_lists(groups@),
            bundle_views(bundles@),
            length as int,
            world_size as int,
        ),
{
    let ghost lists = rank_lists(groups@);
    let ghost views = bundle_views(bundles@);
    let mut places: Vec<(usize, usize)> = Vec::new();
    let mut start: usize = 0;
    while start < world_size
        invariant
            start <= world_size,
            places@.len() == start,
        decreases world_size - start,
    {
        places.push((0, 0));
        start = start + 1;
    }
    let mut group: usize = 0;
    while group < groups.len()
        invariant
            group <= groups@.len(),
            lists == rank_lists(groups@),
            world_size <= u32::MAX,
            is_hierarchy(world_size as u32, lists),
            places@.len() == world_size,
            forall|g: int, i: int|
                0 <= g < group && 0 <= i < lists[g].len() ==> stands_at(
                    places@,
                    #[trigger] lists[g][i],
                    g,
                    i,
                ),
        decreases groups.len() - group,
    {
        assert(lists[group as int] == groups@[group as int]@);
        let mut member: usize = 0;
        while member < groups[group].len()
            invariant
                group < groups@.len(),
                lists == rank_lists(groups@),
                lists[group as int] == groups@[group as int]@,
                member <= lists[group as int].len(),
                world_size <= u32::MAX,
                is_hierarchy(world_size as u32, lists),
                places@.len() == world_size,
                forall|g: int, i: int|
                    0 <= g < lists.len() && 0 <= i < lists[g].len() && (g < group || g == group
                        && i < member) ==> stands_at(places@, #[trigger] lists[g][i], g, i),
            decreases lists[group as int].len() - member,
        {
            let rank: usize = groups[group][member] as usize;
            assert(lists[group as int][member as int] < world_size);
            let ghost was = places@;
            places.set(rank, (group, member));
            assert forall|g: int, i: int|
                0 <= g < lists.len() && 0 <= i < lists[g].len() && (g < group || g == group && i
                    < member + 1) implies stands_at(places@, #[trigger] lists[g][i], g, i) by {
                if g != group || i != member {
                    assert(lists[g][i] != lists[group as int][member as int]);
                    assert(lists[g][i] < world_size);
                }
            }
            member = member + 1;
        }
        group = group + 1;
    }
    let mut output: Vec<T> = Vec::new();
    let mut rank: usize = 0;
    while rank < world_size
        invariant
            rank <= world_size,
            world_size <= u32::MAX,
            lists == rank_lists(groups@),
            views == bundle_views(bundles@),
            is_hierarchy(world_size as u32, lists),
            bundles@.len() == groups@.len(),
            forall|g: int|
                0 <= g < groups@.len() ==> (#[trigger] bundles@[g])@.len() == groups@[g]@.len()
                    * length,
            places@.len() == world_size,
            forall|g: int, i: int|
                0 <= g < lists.len() && 0 <= i < lists[g].len() ==> stands_at(
                    places@,
                    #[trigger] lists[g][i],
                    g,
                    i,
                ),
            output@ == assembled(lists, views, length as int, rank as int),
        decreases world_size - rank,
    {
        let (home, member) = places[rank];
        let ghost g = group_of(lists, rank as u32);
        let ghost i = member_of(lists, rank as u32);
        proof {
            assert(grouped(lists, lists.len() as int, rank as u32));
            assert(lists[g].contains(rank as u32));
            assert(lists[g][i] == rank as u32);
            assert(stands_at(places@, lists[g][i], g, i));
            assert(lists[g] == groups@[g]@);
        }
        assert(home == g && member == i);
        let limit: usize = bundles[home].len();
        assert(member * length + length <= limit) by (nonlinear_arith)
            requires
                member + 1 <= groups@[home as int]@.len(),
                limit == groups@[home as int]@.len() * length,
        ;
        let first: usize = member * length;
        let row = slice_subrange(bundles[home].as_slice(), first, first + length);
        assert(row@ =~= bundled(lists, views, length as int, rank as int));
        append_values(&mut output, row);
        rank = rank + 1;
    }
    output
}

impl<'a, T: Copy, D: RankDevice<T>, S: RankTransport> DeviceCollective<'a, T, D, S> where
    D::Error: From<RankError> + From<NetworkError> + From<TopologyError>,
 {
    /// Gathers the group's values into one bundle.
    fn gather_bundle(&mut self, group: &[u32], operation: u64, local: &Vec<T>) -> (result: Result<
        (Vec<T>, usize),
        D::Error,
    >)
        requires
            old(self).model().place.rails > 0,
            group@.len() > 0,
        ensures
            *final(final(self).link) == *final(old(self).link),
            final(self).model() == old(self).model(),
            final(self).next() == old(self).next(),
            final(self).standing().faults == old(self).standing().faults,
            conversed(
                bundle_script::<T, D>(
                    old(self).model(),
                    group@,
                    0,
                    operation,
                    local@,
                    Seq::empty(),
                    0,
                ),
                old(self).standing(),
                final(self).standing(),
                bundle_result(result),
                false,
            ),
    {
        let ghost before = self.standing();
        let ghost model = self.model();
        let ghost script = bundle_script::<T, D>(
            model,
            group@,
            0,
            operation,
            local@,
            Seq::empty(),
            0,
        );
        proof {
            lemma_start(script, before.log);
        }
        let mut bundle: Vec<T> = Vec::new();
        let mut transferred_bytes: usize = 0;
        let mut index: usize = 0;
        let leader: u32 = group[0];
        while index < group.len()
            invariant
                index <= group@.len(),
                group@.len() > 0,
                leader == group@[0],
                model == old(self).model(),
                model.place.rails > 0,
                before == old(self).standing(),
                script == bundle_script::<T, D>(
                    model,
                    group@,
                    0,
                    operation,
                    local@,
                    Seq::empty(),
                    0,
                ),
                *final(self.link) == *final(old(self).link),
                self.model() == model,
                self.next() == old(self).next(),
                self.standing().faults == before.faults,
                followed(script, before.log, self.standing().log),
                reached(script, before.log, self.standing().log) == bundle_script::<T, D>(
                    model,
                    group@,
                    index as int,
                    operation,
                    local@,
                    bundle@,
                    transferred_bytes as int,
                ),
            decreases group.len() - index,
        {
            let member: u32 = group[index];
            if member == leader {
                append_values(&mut bundle, local.as_slice());
            } else {
                let tag: u64 = hierarchy_data_tag(operation, 4, member);
                let ghost mid = self.standing();
                let outcome = self.receive_values(member, tag, local.len());
                proof {
                    lemma_part(
                        script,
                        before,
                        mid,
                        self.standing(),
                        receive_script::<T, D>(model, member, tag, local@.len() as int),
                        false,
                        bundle_next::<T, D>(
                            model,
                            group@,
                            index as int,
                            operation,
                            local@,
                            bundle@,
                            transferred_bytes as int,
                        ),
                        decoded_values(outcome),
                    );
                }
                let values = match outcome {
                    Ok(values) => values,
                    Err(error) => {
                        return Err(error);
                    },
                };
                match transferred_bytes.checked_add(
                    saturating_mul_usize(values.len(), D::ELEMENT_SIZE),
                ) {
                    Some(total) => {
                        transferred_bytes = total;
                    },
                    None => {
                        return Err(
                            from_rank(
                                RankError::Overflow("hierarchical all-gather transferred bytes"),
                            ),
                        );
                    },
                }
                append_values(&mut bundle, values.as_slice());
            }
            index = index + 1;
        }
        Ok((bundle, transferred_bytes))
    }

    /// One channel of the leaders' all-gather.
    fn leader_all_gather_ring_channel(
        &mut self,
        own_piece: Vec<T>,
        groups: &[Vec<u32>],
        leaders: &[u32],
        position: usize,
        input_length: usize,
        operation: u64,
        channel: usize,
        channels: usize,
    ) -> (result: Result<(Vec<Option<Vec<T>>>, usize), D::Error>)
        requires
            old(self).model().rails.len() > 0,
            position < leaders@.len(),
            groups@.len() == leaders@.len(),
            channel < channels,
        ensures
            *final(final(self).link) == *final(old(self).link),
            final(self).model() == old(self).model(),
            final(self).next() == old(self).next(),
            result is Ok ==> result->Ok_0.0@.len() == leaders@.len(),
            final(self).standing().faults == old(self).standing().faults,
            conversed(
                piece_script::<T, D>(
                    (GatherChannel {
                        model: old(self).model(),
                        groups: rank_lists(groups@),
                        leaders: leaders@,
                        position: position as int,
                        length: input_length as int,
                        operation,
                        channel,
                        channels: channels as int,
                    }),
                    0,
                    Seq::new(
                        leaders@.len(),
                        |g: int|
                            if g == position {
                                Some(own_piece@)
                            } else {
                                None
                            },
                    ),
                    0,
                ),
                old(self).standing(),
                final(self).standing(),
                pieces_result(result),
                false,
            ),
    {
        let ghost before = self.standing();
        let ghost model = self.model();
        let ghost lists = rank_lists(groups@);
        let ghost at = GatherChannel {
            model,
            groups: lists,
            leaders: leaders@,
            position: position as int,
            length: input_length as int,
            operation,
            channel,
            channels: channels as int,
        };
        let ghost initial = Seq::new(
            leaders@.len(),
            |g: int|
                if g == position {
                    Some(own_piece@)
                } else {
                    None
                },
        );
        let ghost script = piece_script::<T, D>(at, 0, initial, 0);
        proof {
            lemma_start(script, before.log);
        }
        let count: usize = leaders.len();
        let mut pieces: Vec<Option<Vec<T>>> = Vec::new();
        let mut start: usize = 0;
        while start < count
            invariant
                start <= count,
                pieces@.len() == start,
                forall|g: int| 0 <= g < start ==> (#[trigger] pieces@[g]) is None,
            decreases count - start,
        {
            pieces.push(None);
            start = start + 1;
        }
        pieces.set(position, Some(own_piece));
        assert(piece_views(pieces@) =~= initial);
        let source: u32 = leaders[back(position, 1, count)];
        let destination: u32 = leaders[forward(position, count)];
        let tags = RoundTags { operation, channel, phase: 5, hierarchical: true };
        let element_type = self.element_type;
        proof {
            lemma_small_mod(position as nat, count as nat);
        }
        let mut transferred_bytes: usize = 0;
        let mut step: usize = 0;
        while step < count - 1
            invariant
                step <= count - 1,
                count == leaders@.len(),
                groups@.len() == count,
                position < count,
                channel < channels,
                lists == rank_lists(groups@),
                model == old(self).model(),
                model.rails.len() > 0,
                element_type == model.element_type,
                at == (GatherChannel {
                    model,
                    groups: lists,
                    leaders: leaders@,
                    position: position as int,
                    length: input_length as int,
                    operation,
                    channel,
                    channels: channels as int,
                }),
                source == leaders@[(position - 1) % (count as int)],
                destination == leaders@[(position + 1) % (count as int)],
                tags == (RoundTags { operation, channel, phase: 5, hierarchical: true }),
                before == old(self).standing(),
                script == piece_script::<T, D>(at, 0, initial, 0),
                initial == Seq::new(
                    leaders@.len(),
                    |g: int|
                        if g == position {
                            Some(own_piece@)
                        } else {
                            None
                        },
                ),
                pieces@.len() == count,
                forall|m: int|
                    0 <= m <= step ==> (#[trigger] pieces@[(position - m) % (
                    count as int)]) is Some,
                *final(self.link) == *final(old(self).link),
                self.model() == model,
                self.next() == old(self).next(),
                self.standing().faults == before.faults,
                followed(script, before.log, self.standing().log),
                reached(script, before.log, self.standing().log) == piece_script::<T, D>(
                    at,
                    step as int,
                    piece_views(pieces@),
                    transferred_bytes as int,
                ),
            decreases count - 1 - step,
        {
            let send: usize = back(position, step, count);
            let receive: usize = back(position, step + 1, count);
            assert(pieces@[(position - step) % (count as int)] is Some);
            let ghost held = piece_views(pieces@);
            let payload = match &pieces[send] {
                Some(piece) => {
                    assert(held[send as int] == Some(piece@));
                    D::encode(piece.as_slice())
                },
                None => Vec::new(),
            };
            assert(lists[receive as int] == groups@[receive as int]@);
            let receive_total: usize = match groups[receive].len().checked_mul(input_length) {
                Some(receive_total) => receive_total,
                None => {
                    return Err(
                        from_rank(
                            RankError::Overflow("hierarchical all-gather leader bundle length"),
                        ),
                    );
                },
            };
            let ranges = balanced_ranges(receive_total, channels);
            proof {
                law_balanced_partition(receive_total as int, channels as int, channel as int);
            }
            let receive_elements: usize = ranges[channel].end - ranges[channel].start;
            assert(receive_elements == at.piece(receive as int));
            let receive_bytes: usize = match receive_elements.checked_mul(D::ELEMENT_SIZE) {
                Some(receive_bytes) => receive_bytes,
                None => {
                    return Err(
                        from_rank(
                            RankError::Overflow("hierarchical all-gather leader bundle bytes"),
                        ),
                    );
                },
            };
            let send_bytes: usize = payload.len();
            let tag: u64 = tags.tag(step);
            let ghost mid = self.standing();
            let outcome = self.exchange_host_payload(
                element_type,
                payload,
                receive_bytes,
                destination,
                source,
                channel,
                tag,
            );
            let ghost next = piece_next::<T, D>(
                at,
                step as int,
                held,
                transferred_bytes as int,
            );
            proof {
                lemma_part(
                    script,
                    before,
                    mid,
                    self.standing(),
                    host_payload_script(
                        model.rails,
                        model.element_type,
                        payload@,
                        receive_bytes as int,
                        destination,
                        source,
                        channel as int,
                        tag,
                    ),
                    false,
                    next,
                    received_bytes(outcome),
                );
            }
            let received = match outcome {
                Ok(received) => received,
                Err(error) => {
                    return Err(error);
                },
            };
            match transferred_bytes.checked_add(
                saturating_add_usize(send_bytes, received.len()),
            ) {
                Some(total) => {
                    transferred_bytes = total;
                },
                None => {
                    return Err(
                        from_rank(
                            RankError::Overflow("hierarchical all-gather transferred bytes"),
                        ),
                    );
                },
            }
            let values = match self.decode_exact(received.as_slice(), receive_elements) {
                Ok(values) => values,
                Err(error) => {
                    return Err(error);
                },
            };
            let ghost old_pieces = pieces@;
            let ghost came = values@;
            pieces.set(receive, Some(values));
            proof {
                assert(piece_views(pieces@) =~= held.update(receive as int, Some(came)));
                assert forall|m: int| 0 <= m <= step + 1 implies (#[trigger] pieces@[(position - m)
                    % (count as int)]) is Some by {
                    lemma_mod_bound(position - m, count as int);
                    if m <= step {
                        assert(old_pieces[(position - m) % (count as int)] is Some);
                    }
                }
            }
            step = step + 1;
        }
        Ok((pieces, transferred_bytes))
    }

    /// The leaders' all-gather; a failure in a channel is told to the other
    /// ranks.
    fn leader_all_gather_ring(
        &mut self,
        own_bundle: &Vec<T>,
        groups: &[Vec<u32>],
        leaders: &[u32],
        position: usize,
        input_length: usize,
        operation: u64,
        ring_channels: usize,
    ) -> (result: Result<(Vec<Vec<T>>, usize), D::Error>)
        requires
            old(self).model().rails.len() > 0,
            position < leaders@.len(),
            groups@.len() == leaders@.len(),
            ring_channels > 0,
        ensures
            *final(final(self).link) == *final(old(self).link),
            final(self).model() == old(self).model(),
            final(self).next() == old(self).next(),
            result is Ok ==> {
                &&& result->Ok_0.0@.len() == groups@.len()
                &&& bundle_defect::<T, D::Error>(
                    bundle_views(result->Ok_0.0@),
                    rank_lists(groups@),
                    input_length as int,
                    groups@.len() as int,
                ) is None
            },
            final(self).standing().faults == old(self).standing().faults,
            performed::<T, D, (Seq<Seq<T>>, int)>(
                leader_all_gather_script::<T, D>(
                    (GatherChannel {
                        model: old(self).model(),
                        groups: rank_lists(groups@),
                        leaders: leaders@,
                        position: position as int,
                        length: input_length as int,
                        operation,
                        channel: 0,
                        channels: effective_channels(ring_channels as int, input_length as int),
                    }),
                    own_bundle@,
                ),
                "hierarchical all-gather"@,
                Scope::Outside,
                old(self).standing(),
                final(self).standing(),
                bundles_result(result),
            ),
    {
        let ghost before = self.standing();
        let ghost model = self.model();
        let ghost lists = rank_lists(groups@);
        let channels: usize = self.effective_ring_channels(ring_channels, input_length);
        let ghost at = GatherChannel {
            model,
            groups: lists,
            leaders: leaders@,
            position: position as int,
            length: input_length as int,
            operation,
            channel: 0,
            channels: channels as int,
        };
        let ghost run = gather_channels::<T, D>(at, own_bundle@, 0, Seq::empty());
        let ghost script = leader_all_gather_script::<T, D>(at, own_bundle@);
        let ghost finish = gather_merged::<T, D>(lists, input_length as int);
        let ranges = balanced_ranges(own_bundle.len(), channels);
        let mut runs: Vec<(Vec<Option<Vec<T>>>, usize)> = Vec::new();
        assert(run_views(runs@) =~= Seq::empty());
        proof {
            lemma_start(run, before.log);
            lemma_start(script, before.log);
        }
        let mut channel: usize = 0;
        while channel < channels
            invariant
                channel <= channels,
                channels > 0,
                position < leaders@.len(),
                groups@.len() == leaders@.len(),
                lists == rank_lists(groups@),
                model == old(self).model(),
                model.rails.len() > 0,
                are_balanced_ranges(ranges@, own_bundle@.len() as int, channels as int),
                at == (GatherChannel {
                    model,
                    groups: lists,
                    leaders: leaders@,
                    position: position as int,
                    length: input_length as int,
                    operation,
                    channel: 0,
                    channels: channels as int,
                }),
                channels == effective_channels(ring_channels as int, input_length as int),
                before == old(self).standing(),
                run == gather_channels::<T, D>(at, own_bundle@, 0, Seq::empty()),
                finish == gather_merged::<T, D>(lists, input_length as int),
                script == leader_all_gather_script::<T, D>(at, own_bundle@),
                followed(script, before.log, before.log),
                reached(script, before.log, before.log) == tried(run, false, finish),
                forall|c: int|
                    0 <= c < runs@.len() ==> (#[trigger] runs@[c]).0@.len() == leaders@.len(),
                *final(self.link) == *final(old(self).link),
                self.model() == model,
                self.next() == old(self).next(),
                self.standing().faults == before.faults,
                followed(run, before.log, self.standing().log),
                reached(run, before.log, self.standing().log) == gather_channels::<T, D>(
                    at,
                    own_bundle@,
                    channel as int,
                    run_views(runs@),
                ),
            decreases channels - channel,
        {
            proof {
                law_balanced_partition(own_bundle@.len() as int, channels as int, channel as int);
            }
            let piece = slice_to_vec(
                slice_subrange(
                    own_bundle.as_slice(),
                    ranges[channel].start,
                    ranges[channel].end,
                ),
            );
            let ghost now = GatherChannel { channel, ..at };
            let ghost start = own_piece(own_bundle@, now);
            assert(start =~= Seq::new(
                leaders@.len(),
                |g: int|
                    if g == position {
                        Some(piece@)
                    } else {
                        None
                    },
            ));
            let ghost mid = self.standing();
            let outcome = self.leader_all_gather_ring_channel(
                piece,
                groups,
                leaders,
                position,
                input_length,
                operation,
                channel,
                channels,
            );
            proof {
                lemma_part(
                    run,
                    before,
                    mid,
                    self.standing(),
                    piece_script::<T, D>(now, 0, start, 0),
                    true,
                    gather_next::<T, D>(at, own_bundle@, channel as int, run_views(runs@)),
                    pieces_result(outcome),
                );
            }
            let outcome = self.propagate_channel_failure("hierarchical all-gather", outcome);
            match outcome {
                Ok(ran) => {
                    let ghost was = run_views(runs@);
                    let ghost view = (piece_views(ran.0@), ran.1 as int);
                    runs.push(ran);
                    assert(run_views(runs@) =~= was.push(view));
                },
                Err(error) => {
                    proof {
                        lemma_performed_part::<
                            T,
                            D,
                            Seq<(Seq<Option<Seq<T>>>, int)>,
                            (Seq<Seq<T>>, int),
                        >(
                            script,
                            "hierarchical all-gather"@,
                            Scope::Outside,
                            Scope::Outside,
                            before,
                            before,
                            self.standing(),
                            run,
                            finish,
                            Err::<Seq<(Seq<Option<Seq<T>>>, int)>, D::Error>(error),
                        );
                    }
                    return Err(error);
                },
            }
            channel = channel + 1;
        }
        proof {
            lemma_performed_part::<T, D, Seq<(Seq<Option<Seq<T>>>, int)>, (Seq<Seq<T>>, int)>(
                script,
                "hierarchical all-gather"@,
                Scope::Outside,
                Scope::Outside,
                before,
                before,
                self.standing(),
                run,
                finish,
                Ok::<Seq<(Seq<Option<Seq<T>>>, int)>, D::Error>(run_views(runs@)),
            );
        }
        let (bundles, bytes) = match merge_pieces::<T, D::Error>(&runs, groups.len()) {
            Ok(found) => found,
            Err(Ok(error)) => {
                return Err(from_rank(error));
            },
            Err(Err(error)) => {
                return Err(from_network(error));
            },
        };
        match validate_bundles::<T, D::Error>(&bundles, groups, input_length) {
            Ok(()) => Ok((bundles, bytes)),
            Err(Ok(error)) => Err(from_rank(error)),
            Err(Err(error)) => Err(from_network(error)),
        }
    }

    /// The leader's part of a hierarchical all-gather.
    fn all_gather_as_leader(
        &mut self,
        local: &Vec<T>,
        output_length: usize,
        groups: &[Vec<u32>],
        group_index: usize,
        operation: u64,
        ring_channels: usize,
        steps: u32,
    ) -> (result: Result<(D::Buffer, CollectiveStats), D::Error>)
        requires
            old(self).model().valid(),
            ring_channels > 0,
            old(self).model().tuning.hierarchy_groups is Some,
            rank_lists(groups@) == old(self).model().groups(),
            group_index < groups@.len(),
            group_index == group_of(old(self).model().groups(), old(self).model().place.rank),
            output_length == local@.len() * old(self).model().world(),
        ensures
            *final(final(self).link) == *final(old(self).link),
            final(self).model() == old(self).model(),
            final(self).next() == old(self).next(),
            asked(
                old(self).standing().faults,
                final(self).standing().faults,
                |call: DeviceCall| call.handles_whole(local@.len() * old(self).model().world()),
            ),
            performed::<T, D, (Seq<T>, CollectiveStats)>(
                gather_leader_script::<T, D>(
                    old(self).model(),
                    local@,
                    operation,
                    ring_channels as int,
                    steps as int,
                ),
                "hierarchical all-gather"@,
                Scope::Outside,
                old(self).standing(),
                final(self).standing(),
                new_buffer::<T, D>(result),
            ),
    {
        let ghost before = self.standing();
        let ghost model = self.model();
        let ghost lists = rank_lists(groups@);
        let length: usize = local.len();
        let group = groups[group_index].as_slice();
        assert(group@ == lists[group_index as int]);
        let leaders = group_leaders(groups);
        let ghost script = gather_leader_script::<T, D>(
            model,
            local@,
            operation,
            ring_channels as int,
            steps as int,
        );
        proof {
            lemma_start(script, before.log);
        }
        if group.len().checked_mul(length).is_none() {
            return Err(
                from_rank(RankError::Overflow("hierarchical all-gather local bundle length")),
            );
        }
        let outcome = self.gather_bundle(group, operation, local);
        let ghost mid = self.standing();
        proof {
            lemma_part(
                script,
                before,
                before,
                mid,
                bundle_script::<T, D>(
                    model,
                    group@,
                    0,
                    operation,
                    local@,
                    Seq::empty(),
                    0,
                ),
                false,
                gather_bundled::<T, D>(
                    model,
                    length as int,
                    operation,
                    ring_channels as int,
                    steps as int,
                ),
                bundle_result(outcome),
            );
        }
        let (own_bundle, bytes) = match outcome {
            Ok(found) => found,
            Err(error) => {
                return Err(error);
            },
        };
        let ghost at = GatherChannel {
            model,
            groups: lists,
            leaders: leaders@,
            position: group_index as int,
            length: length as int,
            operation,
            channel: 0,
            channels: effective_channels(ring_channels as int, length as int),
        };
        let outcome = self.leader_all_gather_ring(
            &own_bundle,
            groups,
            leaders.as_slice(),
            group_index,
            length,
            operation,
            ring_channels,
        );
        let ghost rung = self.standing();
        proof {
            lemma_performed_part::<T, D, (Seq<Seq<T>>, int), (Seq<T>, CollectiveStats)>(
                script,
                "hierarchical all-gather"@,
                Scope::Outside,
                Scope::Outside,
                before,
                mid,
                rung,
                leader_all_gather_script::<T, D>(at, own_bundle@),
                gather_ringed::<T, D>(
                    model,
                    length as int,
                    operation,
                    steps as int,
                    bytes as int,
                ),
                bundles_result(outcome),
            );
        }
        let (bundles, leader_bytes) = match outcome {
            Ok(found) => found,
            Err(error) => {
                return Err(error);
            },
        };
        let bytes: usize = match bytes.checked_add(leader_bytes) {
            Some(bytes) => bytes,
            None => {
                return Err(
                    from_rank(RankError::Overflow("hierarchical all-gather transferred bytes")),
                );
            },
        };
        proof {
            assert forall|g: int| 0 <= g < groups@.len() implies (#[trigger] bundles@[g])@.len()
                == groups@[g]@.len() * length by {
                lemma_no_defect::<T, D::Error>(
                    bundle_views(bundles@),
                    lists,
                    length as int,
                    groups@.len() as int,
                    g,
                );
            }
        }
        let output_values = assemble(groups, &bundles, length, self.world_size() as usize);
        if output_values.len() != output_length {
            return Err(
                from_network(
                    NetworkError::invalid(
                        "hierarchical all-gather assembled the wrong output length",
                    ),
                ),
            );
        }
        let payload = D::encode(output_values.as_slice());
        let ghost payloads = same_payload(payload@);
        let outcome = self.share_with_members(
            group,
            operation,
            6,
            output_length,
            &payload,
            bytes,
            "hierarchical all-gather transferred bytes",
            Ghost(payloads),
        );
        proof {
            lemma_part(
                script,
                before,
                rung,
                self.standing(),
                share_script::<D::Error>(
                    model,
                    group@,
                    1,
                    operation,
                    6,
                    output_length as int,
                    payloads,
                    bytes as int,
                    gather_bytes_label(),
                ),
                false,
                leader_shared::<T, D>(model, output_values@, steps as int, 0),
                as_int(outcome),
            );
        }
        let total: usize = match outcome {
            Ok(total) => total,
            Err(error) => {
                return Err(error);
            },
        };
        let mut output = match self.link.execution.allocate(output_length) {
            Ok(output) => output,
            Err(error) => {
                return Err(error);
            },
        };
        match self.link.execution.copy_to_device(&mut output, output_values.as_slice()) {
            Ok(()) => {},
            Err(error) => {
                return Err(error);
            },
        }
        let stats = self.stats(CollectiveAlgorithm::Hierarchical, steps, total, 0);
        Ok((output, stats))
    }

    pub fn all_gather_hierarchical(&mut self, input: &D::Buffer, ring_channels: usize) -> (result:
        Result<(D::Buffer, CollectiveStats), D::Error>)
        requires
            old(self).model().valid(),
            ring_channels > 0,
        ensures
            *final(final(self).link) == *final(old(self).link),
            final(self).model() == old(self).model(),
            final(self).next() == (if old(self).model().membership_defect() is Some {
                old(self).next()
            } else {
                old(self).next().wrapping_add(1)
            }),
            asked(
                old(self).standing().faults,
                final(self).standing().faults,
                |call: DeviceCall|
                    call.handles_whole(D::values(input).len() as int)
                    || call.handles_whole(D::values(input).len() * old(self).model().world()),
            ),
            performed::<T, D, (Seq<T>, CollectiveStats)>(
                all_gather_hierarchical_script::<T, D>(
                    old(self).model(),
                    D::values(input),
                    old(self).next(),
                    ring_channels as int,
                ),
                "hierarchical all-gather"@,
                Scope::Outside,
                old(self).standing(),
                final(self).standing(),
                new_buffer::<T, D>(result),
            ),
    {
        let ghost before = self.standing();
        let ghost model = self.model();
        let ghost script = all_gather_hierarchical_script::<T, D>(
            model,
            D::values(input),
            self.next(),
            ring_channels as int,
        );
        proof {
            lemma_start(script, before.log);
        }
        let (groups, group_index, _) = match self.hierarchy_membership() {
            Ok(membership) => membership,
            Err(error) => {
                return Err(error);
            },
        };
        let ghost lists = rank_lists(groups@);
        let leader: u32 = groups[group_index][0];
        assert(lists[group_index as int] == groups@[group_index as int]@);
        let operation: u64 = self.link.internal_sequence;
        self.link.internal_sequence = operation.wrapping_add(1);
        let length: usize = self.link.execution.buffer_len(input);
        let ghost agreed = all_gather_hierarchy_agreed::<T, D>(
            model,
            D::values(input),
            operation,
            ring_channels as int,
        );
        let outcome = self.hierarchy_agreement(groups, operation, length, 0x700, ring_channels);
        let ghost mid = self.standing();
        proof {
            lemma_part(
                script,
                before,
                before,
                mid,
                model.hierarchy_agreement(
                    operation,
                    length as int,
                    0x700,
                    ring_channels as int,
                ),
                false,
                agreed,
                outcome,
            );
        }
        match outcome {
            Ok(()) => {},
            Err(error) => {
                return Err(error);
            },
        }
        let output_length: usize = match length.checked_mul(self.world_size() as usize) {
            Some(output_length) => output_length,
            None => {
                return Err(
                    from_rank(RankError::Overflow("hierarchical all-gather output length")),
                );
            },
        };
        let local = match self.link.execution.copy_from_device(input) {
            Ok(local) => local,
            Err(error) => {
                return Err(error);
            },
        };
        let inter: usize = groups.len() - 1;
        let steps: u32 = hierarchy_steps(groups, inter);
        let ghost rest = agreed(());
        if self.rank() != leader {
            let outcome = self.member_exchange(
                leader,
                local.as_slice(),
                operation,
                4,
                6,
                output_length,
                steps,
                "hierarchical all-gather transferred bytes",
            );
            proof {
                lemma_rest(script, before, mid, self.standing(), rest, answered(outcome), false);
            }
            let (values, stats) = match outcome {
                Ok(answer) => answer,
                Err(error) => {
                    return Err(error);
                },
            };
            let mut output = match self.link.execution.allocate(output_length) {
                Ok(output) => output,
                Err(error) => {
                    return Err(error);
                },
            };
            return match self.link.execution.copy_to_device(&mut output, values.as_slice()) {
                Ok(()) => Ok((output, stats)),
                Err(error) => Err(error),
            };
        }
        let outcome = self.all_gather_as_leader(
            &local,
            output_length,
            groups,
            group_index,
            operation,
            ring_channels,
            steps,
        );
        proof {
            lemma_performed_rest::<T, D, (Seq<T>, CollectiveStats)>(
                script,
                "hierarchical all-gather"@,
                Scope::Outside,
                Scope::Outside,
                before,
                mid,
                self.standing(),
                rest,
                new_buffer::<T, D>(outcome),
            );
        }
        outcome
    }
}

} // verus!

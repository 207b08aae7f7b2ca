//! What the hierarchical collectives report of their cost.

use crate::rank::device::RankDevice;
use crate::rank::device_collective::hierarchical::all_gather::{
    all_gather_hierarchical_script, all_gather_hierarchy_agreed, assembled, bundle_script,
    gather_bundled, gather_bytes_label, gather_ringed, leader_all_gather_script, GatherChannel,
};
use crate::rank::device_collective::hierarchical::all_reduce::{
    all_reduce_hierarchical_script, all_reduce_hierarchy_agreed, hierarchical_all_reduce_labels,
    leader_all_reduce_script, leader_collected, leader_ringed, leader_shared, member_finished,
    member_script, member_sent, same_payload,
};
use crate::rank::device_collective::hierarchical::reduce_scatter::{
    group_bounds, hierarchical_reduce_scatter_labels, leader_reduce_scatter_script, packed_groups,
    reduce_scatter_hierarchical_script, reduce_scatter_hierarchy_agreed, row_payloads,
    rows_collected, rows_ringed, rows_shared,
};
use crate::rank::device_collective::hierarchical::{
    collect_script, data_tag, group_of, member_of, receive_script, share_script,
};
use crate::rank::device_collective::ring::Tally;
use crate::rank::device_collective::{effective_channels, CollectiveModel};
use crate::rank::layout::widest_local;
use crate::rank::operation::ReductionOperation;
use crate::rank::script::{lemma_over, lemma_ran_tried, ran, Script, Stop, TransportEvent};
use crate::rank::topology::cycles::heads;
use crate::rank::{CollectiveAlgorithm, CollectiveStats};
use vstd::prelude::*;

verus! {

/// What a rank reports of a hierarchical collective with `inter` steps between
/// the leaders: only a leader launches kernels.
pub open spec fn hierarchical_cost(
    model: CollectiveModel,
    inter: int,
    stats: CollectiveStats,
) -> bool {
    &&& stats.algorithm == CollectiveAlgorithm::Hierarchical
    &&& stats.steps == model.hierarchy_steps(inter)
    &&& model.place.rank != model.group()[0] ==> stats.reduction_kernel_launches == 0
}

pub proof fn lemma_widest_local(groups: Seq<Seq<u32>>)
    ensures
        0 <= widest_local(groups),
    decreases groups.len(),
{
    if groups.len() > 0 {
        lemma_widest_local(groups.drop_last());
    }
}

/// A script that has ended in a value was run to that value.
proof fn lemma_ran_done<R, E>(
    result: Result<R, Stop<E>>,
    events: Seq<TransportEvent>,
    value: R,
)
    requires
        ran(Script::<R, E>::Done(result), events, value),
    ensures
        result == Ok::<R, Stop<E>>(value),
{
    lemma_over(result, events);
}

/// What a member reports.
proof fn lemma_member_cost<T, D: RankDevice<T>>(
    model: CollectiveModel,
    leader: u32,
    values: Seq<T>,
    operation: u64,
    up: u32,
    down: u32,
    length: int,
    steps: int,
    label: Seq<char>,
    events: Seq<TransportEvent>,
    value: (Seq<T>, CollectiveStats),
)
    requires
        ran(
            member_script::<T, D>(
                model,
                leader,
                values,
                operation,
                up,
                down,
                length,
                steps,
                label,
            ),
            events,
            value,
        ),
    ensures
        value.1.algorithm == CollectiveAlgorithm::Hierarchical,
        value.1.steps == steps as u32,
        value.1.reduction_kernel_launches == 0,
{
    let bytes = D::encoding(values).len() as int;
    let sent = member_sent::<T, D>(model, leader, operation, down, length, bytes, steps, label);
    let (k, done) = lemma_ran_tried(
        model.send_script(
            leader,
            data_tag(operation, up, model.place.rank),
            values.len() as int,
            D::encoding(values),
        ),
        false,
        sent,
        events,
        value,
    );
    let rest = events.skip(k);
    let finished = member_finished::<T, D>(model, bytes, steps, label);
    let (l, given) = lemma_ran_tried(
        receive_script::<T, D>(
            model,
            leader,
            data_tag(operation, down, model.place.rank),
            length,
        ),
        false,
        finished,
        rest,
        value,
    );
    lemma_ran_done(finished(given)->Done_0, rest.skip(l), value);
}

/// What a rank reports of a hierarchical all-reduce.
pub proof fn lemma_all_reduce_cost<T, D: RankDevice<T>>(
    model: CollectiveModel,
    values: Seq<T>,
    operation: u64,
    reduction: ReductionOperation,
    ring_channels: int,
    reduce: spec_fn(T, T) -> T,
    events: Seq<TransportEvent>,
    value: (Seq<T>, CollectiveStats),
)
    requires
        model.groups().len() > 0,
        ran(
            all_reduce_hierarchical_script::<T, D>(
                model,
                values,
                operation,
                reduction,
                ring_channels,
                reduce,
            ),
            events,
            value,
        ),
    ensures
        hierarchical_cost(model, 2 * (model.groups().len() - 1), value.1),
{
    let steps = model.hierarchy_steps(2 * (model.groups().len() - 1));
    lemma_widest_local(model.groups());
    let script = all_reduce_hierarchical_script::<T, D>(
        model,
        values,
        operation,
        reduction,
        ring_channels,
        reduce,
    );
    if model.membership_defect() is Some {
        lemma_ran_done(script->Done_0, events, value);
    } else {
        let agreed = all_reduce_hierarchy_agreed::<T, D>(
            model,
            values,
            operation,
            ring_channels,
            reduce,
        );
        let (k, done) = lemma_ran_tried(
            model.hierarchy_agreement(
                operation,
                values.len() as int,
                (0x600 + reduction.spec_code()) as u32,
                ring_channels,
            ),
            false,
            agreed,
            events,
            value,
        );
        let rest = events.skip(k);
        let labels = hierarchical_all_reduce_labels();
        if model.place.rank != model.group()[0] {
            lemma_member_cost::<T, D>(
                model,
                model.group()[0],
                values,
                operation,
                0,
                3,
                values.len() as int,
                steps,
                labels.bytes,
                rest,
                value,
            );
        } else {
            let (l, collected) = lemma_ran_tried(
                collect_script::<T, D>(
                    model,
                    model.group(),
                    1,
                    operation,
                    0,
                    values.len() as int,
                    Tally { values, bytes: 0, launches: 0 },
                    reduce,
                    labels,
                ),
                false,
                leader_collected::<T, D>(model, operation, ring_channels, steps, reduce),
                rest,
                value,
            );
            let ringing = rest.skip(l);
            let next = leader_ringed::<T, D>(model, operation, steps, collected);
            let (m, ringed) = lemma_ran_tried(
                leader_all_reduce_script::<T, D>(
                    model,
                    heads(model.groups()),
                    group_of(model.groups(), model.place.rank),
                    collected.values,
                    operation,
                    ring_channels,
                    reduce,
                ),
                false,
                next,
                ringing,
                value,
            );
            let sharing = ringing.skip(m);
            if collected.bytes + ringed.bytes > usize::MAX || collected.launches + ringed.launches
                > u32::MAX {
                lemma_ran_done(next(ringed)->Done_0, sharing, value);
            } else {
                let shared = leader_shared::<T, D>(
                    model,
                    ringed.values,
                    steps,
                    collected.launches + ringed.launches,
                );
                let (n, bytes) = lemma_ran_tried(
                    share_script(
                        model,
                        model.group(),
                        1,
                        operation,
                        3,
                        ringed.values.len() as int,
                        same_payload(D::encoding(ringed.values)),
                        collected.bytes + ringed.bytes,
                        labels.bytes,
                    ),
                    false,
                    shared,
                    sharing,
                    value,
                );
                lemma_ran_done(shared(bytes)->Done_0, sharing.skip(n), value);
            }
        }
    }
}

/// What a rank reports of a hierarchical reduce-scatter.
pub proof fn lemma_reduce_scatter_cost<T, D: RankDevice<T>>(
    model: CollectiveModel,
    values: Seq<T>,
    width: int,
    operation: u64,
    reduction: ReductionOperation,
    ring_channels: int,
    reduce: spec_fn(T, T) -> T,
    events: Seq<TransportEvent>,
    value: (Seq<T>, CollectiveStats),
)
    requires
        model.groups().len() > 0,
        ran(
            reduce_scatter_hierarchical_script::<T, D>(
                model,
                values,
                width,
                operation,
                reduction,
                ring_channels,
                reduce,
            ),
            events,
            value,
        ),
    ensures
        hierarchical_cost(model, model.groups().len() - 1, value.1),
{
    let steps = model.hierarchy_steps(model.groups().len() - 1);
    lemma_widest_local(model.groups());
    let script = reduce_scatter_hierarchical_script::<T, D>(
        model,
        values,
        width,
        operation,
        reduction,
        ring_channels,
        reduce,
    );
    if model.membership_defect() is Some {
        lemma_ran_done(script->Done_0, events, value);
    } else {
        let agreed = reduce_scatter_hierarchy_agreed::<T, D>(
            model,
            values,
            width,
            operation,
            ring_channels,
            reduce,
        );
        let (k, done) = lemma_ran_tried(
            model.hierarchy_agreement(
                operation,
                values.len() as int,
                (0x800 + reduction.spec_code()) as u32,
                ring_channels,
            ),
            false,
            agreed,
            events,
            value,
        );
        let rest = events.skip(k);
        let labels = hierarchical_reduce_scatter_labels();
        if model.place.rank != model.group()[0] {
            lemma_member_cost::<T, D>(
                model,
                model.group()[0],
                values,
                operation,
                7,
                9,
                width,
                steps,
                labels.bytes,
                rest,
                value,
            );
        } else {
            let after = rows_collected::<T, D>(
                model,
                width,
                operation,
                ring_channels,
                steps,
                reduce,
            );
            let (l, collected) = lemma_ran_tried(
                collect_script::<T, D>(
                    model,
                    model.group(),
                    1,
                    operation,
                    7,
                    values.len() as int,
                    Tally { values, bytes: 0, launches: 0 },
                    reduce,
                    labels,
                ),
                false,
                after,
                rest,
                value,
            );
            let ringing = rest.skip(l);
            let groups = model.groups();
            let packed = packed_groups(collected.values, width, groups, groups.len() as int);
            let ranges = group_bounds(collected.values, width, groups);
            let position = group_of(groups, model.place.rank);
            if packed.len() != collected.values.len() {
                lemma_ran_done(after(collected)->Done_0, ringing, value);
            } else {
                let next = rows_ringed::<T, D>(
                    model,
                    width,
                    operation,
                    steps,
                    collected,
                    ranges[position],
                );
                let (m, ringed) = lemma_ran_tried(
                    leader_reduce_scatter_script::<T, D>(
                        model,
                        heads(groups),
                        position,
                        packed,
                        ranges,
                        operation,
                        ring_channels,
                        reduce,
                    ),
                    false,
                    next,
                    ringing,
                    value,
                );
                let sharing = ringing.skip(m);
                if collected.bytes + ringed.bytes > usize::MAX || collected.launches
                    + ringed.launches > u32::MAX {
                    lemma_ran_done(next(ringed)->Done_0, sharing, value);
                } else {
                    let rows = ringed.values.subrange(ranges[position].0, ranges[position].1);
                    let member = member_of(groups, model.place.rank);
                    let shared = rows_shared::<T, D>(
                        model,
                        rows.subrange(member * width, member * width + width),
                        steps,
                        collected.launches + ringed.launches,
                    );
                    let (n, bytes) = lemma_ran_tried(
                        share_script(
                            model,
                            model.group(),
                            1,
                            operation,
                            9,
                            width,
                            row_payloads::<T, D>(rows, width),
                            collected.bytes + ringed.bytes,
                            labels.bytes,
                        ),
                        false,
                        shared,
                        sharing,
                        value,
                    );
                    lemma_ran_done(shared(bytes)->Done_0, sharing.skip(n), value);
                }
            }
        }
    }
}

/// What a rank reports of a hierarchical all-gather, which launches no kernels.
pub proof fn lemma_all_gather_cost<T, D: RankDevice<T>>(
    model: CollectiveModel,
    values: Seq<T>,
    operation: u64,
    ring_channels: int,
    events: Seq<TransportEvent>,
    value: (Seq<T>, CollectiveStats),
)
    requires
        model.groups().len() > 0,
        ran(
            all_gather_hierarchical_script::<T, D>(model, values, operation, ring_channels),
            events,
            value,
        ),
    ensures
        hierarchical_cost(model, model.groups().len() - 1, value.1),
        value.1.reduction_kernel_launches == 0,
{
    let steps = model.hierarchy_steps(model.groups().len() - 1);
    lemma_widest_local(model.groups());
    let script = all_gather_hierarchical_script::<T, D>(model, values, operation, ring_channels);
    if model.membership_defect() is Some {
        lemma_ran_done(script->Done_0, events, value);
    } else {
        let agreed = all_gather_hierarchy_agreed::<T, D>(model, values, operation, ring_channels);
        let (k, done) = lemma_ran_tried(
            model.hierarchy_agreement(operation, values.len() as int, 0x700, ring_channels),
            false,
            agreed,
            events,
            value,
        );
        let rest = events.skip(k);
        let length = values.len() as int;
        if length * model.world() > usize::MAX {
            lemma_ran_done(agreed(done)->Done_0, rest, value);
        } else if model.place.rank != model.group()[0] {
            lemma_member_cost::<T, D>(
                model,
                model.group()[0],
                values,
                operation,
                4,
                6,
                length * model.world(),
                steps,
                gather_bytes_label(),
                rest,
                value,
            );
        } else if model.group().len() * length > usize::MAX {
            lemma_ran_done(agreed(done)->Done_0, rest, value);
        } else {
            let (l, run) = lemma_ran_tried(
                bundle_script::<T, D>(model, model.group(), 0, operation, values, Seq::empty(), 0),
                false,
                gather_bundled::<T, D>(model, length, operation, ring_channels, steps),
                rest,
                value,
            );
            let ringing = rest.skip(l);
            let next = gather_ringed::<T, D>(model, length, operation, steps, run.1);
            let (m, ringed) = lemma_ran_tried(
                leader_all_gather_script::<T, D>(
                    GatherChannel {
                        model,
                        groups: model.groups(),
                        leaders: heads(model.groups()),
                        position: group_of(model.groups(), model.place.rank),
                        length,
                        operation,
                        channel: 0,
                        channels: effective_channels(ring_channels, length),
                    },
                    run.0,
                ),
                false,
                next,
                ringing,
                value,
            );
            let sharing = ringing.skip(m);
            let output = assembled(model.groups(), ringed.0, length, model.world());
            if run.1 + ringed.1 > usize::MAX || output.len() != length * model.world() {
                lemma_ran_done(next(ringed)->Done_0, sharing, value);
            } else {
                let shared = leader_shared::<T, D>(model, output, steps, 0);
                let (n, bytes) = lemma_ran_tried(
                    share_script(
                        model,
                        model.group(),
                        1,
                        operation,
                        6,
                        output.len() as int,
                        same_payload(D::encoding(output)),
                        run.1 + ringed.1,
                        gather_bytes_label(),
                    ),
                    false,
                    shared,
                    sharing,
                    value,
                );
                lemma_ran_done(shared(bytes)->Done_0, sharing.skip(n), value);
            }
        }
    }
}

} // verus!

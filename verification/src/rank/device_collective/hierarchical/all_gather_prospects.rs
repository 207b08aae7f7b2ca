//! How a hierarchical all-gather fares on a device and a transport that work.

use crate::math::saturate_usize;
use crate::rank::device::{lemma_reading_length, RankDevice};
use crate::rank::device_collective::all_gather::lemma_back_again;
use crate::rank::device_collective::hierarchical::all_gather::{
    all_gather_hierarchical_script, all_gather_hierarchy_agreed, assembled, bundle_defect,
    bundle_next, bundle_script, bundled, gather_bundled, gather_bytes_label, gather_channels,
    gather_leader_script, gather_merged, gather_next, gather_ringed, incomplete,
    leader_all_gather_script, merged, own_piece, piece_next, piece_script, GatherChannel,
};
use crate::rank::device_collective::hierarchical::all_reduce::{leader_shared, same_payload};
use crate::rank::device_collective::hierarchical::prospects::{
    encodes_evenly, lemma_hierarchy_agreement_fares, lemma_member_fares, lemma_receive_fares,
    lemma_share_fares, sized, works,
};
use crate::rank::device_collective::hierarchical::{
    data_tag, group_of, member_of, receive_script, share_script,
};
use crate::rank::device_collective::{effective_channels, CollectiveModel};
use crate::rank::host::exchange::host_payload_script;
use crate::rank::layout::{balanced_start, law_balanced_partition};
use crate::rank::prospects::{
    anything, fares, lemma_fares_ask, lemma_fares_done, lemma_fares_tried, overflowed,
};
use crate::rank::protocol::ElementType;
use crate::rank::script::TransportReply;
use crate::rank::stats::CollectiveStats;
use crate::rank::topology::cycles::heads;
use crate::rank::topology::groups::{grouped, is_hierarchy};
use vstd::arithmetic::div_mod::*;
use vstd::prelude::*;

verus! {

/// Bytes of a number of elements of `size` bytes each.
proof fn lemma_even_bytes(count: int, size: int)
    requires
        0 <= count,
        0 < size,
    ensures
        (count * size) % size == 0,
        (count * size) / size == count,
{
    lemma_mod_multiples_basic(count, size);
    lemma_div_multiples_vanish(count, size);
    assert(size * count == count * size) by (nonlinear_arith);
}

/// One exchange of encoded elements.
proof fn lemma_host_payload_fares<T, D: RankDevice<T>>(
    order: Seq<usize>,
    element_type: ElementType,
    sent: int,
    payload: Seq<u8>,
    count: int,
    destination: u32,
    source: u32,
    rail_hint: int,
    tag: u64,
)
    requires
        0 < D::ELEMENT_SIZE,
        element_type.width() == D::ELEMENT_SIZE,
        0 <= sent,
        payload.len() == sent * D::ELEMENT_SIZE,
        0 <= count <= u64::MAX,
    ensures
        fares(
            host_payload_script::<D::Error>(
                order,
                element_type,
                payload,
                count * D::ELEMENT_SIZE,
                destination,
                source,
                rail_hint,
                tag,
            ),
            works::<T, D>(),
            readable::<T, D>(count),
        ),
{
    let works = works::<T, D>();
    let hopes = readable::<T, D>(count);
    lemma_even_bytes(sent, D::ELEMENT_SIZE as int);
    lemma_even_bytes(count, D::ELEMENT_SIZE as int);
    let script = host_payload_script::<D::Error>(
        order,
        element_type,
        payload,
        count * D::ELEMENT_SIZE,
        destination,
        source,
        rail_hint,
        tag,
    );
    assert forall|reply: TransportReply| works(script->Ask_0, reply) implies fares(
        #[trigger] (script->Ask_1)(reply),
        works,
        hopes,
    ) by {
        let rest = (script->Ask_1)(reply);
        assert forall|answer: TransportReply| works(rest->Ask_0, answer) implies fares(
            #[trigger] (rest->Ask_1)(answer),
            works,
            hopes,
        ) by {
            lemma_fares_done((rest->Ask_1)(answer), works, hopes);
        }
        lemma_fares_ask(rest, works, hopes);
    }
    lemma_fares_ask(script, works, hopes);
}

/// Bytes of a number of elements that can be read.
spec fn readable<T, D: RankDevice<T>>(count: int) -> spec_fn(Seq<u8>) -> bool {
    |bytes: Seq<u8>| bytes.len() == count * D::ELEMENT_SIZE && D::refusal(bytes) is None
}

/// A bundle of a number of values.
spec fn sized_bundle<T>(length: int) -> spec_fn((Seq<T>, int)) -> bool {
    |run: (Seq<T>, int)| run.0.len() == length
}

/// A leader that bundles its group's values.
proof fn lemma_bundle_fares<T, D: RankDevice<T>>(
    model: CollectiveModel,
    group: Seq<u32>,
    index: int,
    operation: u64,
    local: Seq<T>,
    bundle: Seq<T>,
    bytes: int,
)
    requires
        model.element_type.width() == D::ELEMENT_SIZE,
        encodes_evenly::<T, D>(),
        0 <= index <= group.len(),
        local.len() <= usize::MAX,
        bundle.len() == index * local.len(),
    ensures
        fares(
            bundle_script::<T, D>(model, group, index, operation, local, bundle, bytes),
            works::<T, D>(),
            sized_bundle((group.len() * local.len()) as int),
        ),
    decreases group.len() - index,
{
    let works = works::<T, D>();
    let length = local.len() as int;
    let wishes = sized_bundle::<T>((group.len() * local.len()) as int);
    let script = bundle_script::<T, D>(model, group, index, operation, local, bundle, bytes);
    assert((index + 1) * length == index * length + length) by (nonlinear_arith);
    if index == group.len() {
        lemma_fares_done(script, works, wishes);
    } else if group[index] == group[0] {
        lemma_bundle_fares::<T, D>(
            model,
            group,
            index + 1,
            operation,
            local,
            bundle + local,
            bytes,
        );
    } else {
        let tag = data_tag(operation, 4, group[index]);
        let hopes = sized::<T>(length);
        let next = bundle_next::<T, D>(model, group, index, operation, local, bundle, bytes);
        lemma_receive_fares::<T, D>(model, group[index], tag, length);
        assert forall|values: Seq<T>| #[trigger] hopes(values) implies fares(
            next(values),
            works,
            wishes,
        ) by {
            let total = bytes + saturate_usize(values.len() * D::ELEMENT_SIZE);
            if total > usize::MAX {
                lemma_fares_done(next(values), works, wishes);
            } else {
                lemma_bundle_fares::<T, D>(
                    model,
                    group,
                    index + 1,
                    operation,
                    local,
                    bundle + values,
                    total,
                );
            }
        }
        lemma_fares_tried(
            receive_script::<T, D>(model, group[index], tag, length),
            false,
            next,
            works,
            hopes,
            wishes,
        );
    }
}

/// The piece of a leader is there, as long as it should be.
spec fn holds<T>(at: GatherChannel, pieces: Seq<Option<Seq<T>>>, leader: int) -> bool {
    pieces[leader] matches Some(piece) && piece.len() == at.piece(leader)
}

/// All the leaders' pieces are there.
spec fn holds_all<T>(at: GatherChannel) -> spec_fn((Seq<Option<Seq<T>>>, int)) -> bool {
    |run: (Seq<Option<Seq<T>>>, int)|
        {
            &&& run.0.len() == at.count()
            &&& forall|leader: int| 0 <= leader < at.count() ==> #[trigger] holds(at, run.0, leader)
        }
}

/// The leaders' all-gather of a world, as it should be.
spec fn sound(at: GatherChannel) -> bool {
    &&& 0 < at.count()
    &&& at.groups.len() == at.count()
    &&& 0 <= at.position < at.count()
    &&& 0 <= at.length
    &&& 0 <= at.channel < at.channels
}

proof fn lemma_piece_size(at: GatherChannel, leader: int)
    requires
        sound(at),
    ensures
        0 <= at.bundle(leader),
        0 <= at.piece(leader) <= at.bundle(leader),
{
    let members = at.groups[leader].len();
    assert(0 <= members * at.length) by (nonlinear_arith)
        requires
            0 <= members,
            0 <= at.length,
    ;
    law_balanced_partition(at.bundle(leader), at.channels, at.channel as int);
}

/// One channel of the leaders' all-gather.
proof fn lemma_piece_fares<T, D: RankDevice<T>>(
    at: GatherChannel,
    step: int,
    pieces: Seq<Option<Seq<T>>>,
    bytes: int,
)
    requires
        encodes_evenly::<T, D>(),
        at.model.element_type.width() == D::ELEMENT_SIZE,
        sound(at),
        0 <= step <= at.count() - 1,
        pieces.len() == at.count(),
        forall|m: int| 0 <= m <= step ==> holds(at, pieces, #[trigger] at.sends(m)),
    ensures
        fares(
            piece_script::<T, D>(at, step, pieces, bytes),
            works::<T, D>(),
            holds_all::<T>(at),
        ),
    decreases at.count() - step,
{
    let works = works::<T, D>();
    let wishes = holds_all::<T>(at);
    let script = piece_script::<T, D>(at, step, pieces, bytes);
    let receive = at.receives(step);
    let count = at.count();
    lemma_piece_size(at, receive);
    lemma_mod_bound(at.position - step - 1, count);
    if step == count - 1 {
        assert forall|leader: int| 0 <= leader < count implies #[trigger] holds(
            at,
            pieces,
            leader,
        ) by {
            let m = (at.position - leader) % count;
            lemma_mod_bound(at.position - leader, count);
            lemma_back_again(at.position, leader, count);
            assert(at.sends(m) == leader);
        }
        lemma_fares_done(script, works, wishes);
    } else if at.bundle(receive) > usize::MAX || at.piece(receive) * D::ELEMENT_SIZE > usize::MAX {
        lemma_fares_done(script, works, wishes);
    } else {
        assert(holds(at, pieces, at.sends(step)));
        let piece = pieces[at.sends(step)]->Some_0;
        let payload = D::encoding(piece);
        let to = at.leaders[(at.position + 1) % count];
        let from = at.leaders[(at.position - 1) % count];
        lemma_host_payload_fares::<T, D>(
            at.model.rails,
            at.model.element_type,
            piece.len() as int,
            payload,
            at.piece(receive),
            to,
            from,
            at.channel as int,
            at.tag(step),
        );
        let hopes = readable::<T, D>(at.piece(receive));
        let next = piece_next::<T, D>(at, step, pieces, bytes);
        assert forall|received: Seq<u8>| #[trigger] hopes(received) implies fares(
            next(received),
            works,
            wishes,
        ) by {
            let total = bytes + saturate_usize((payload.len() + received.len()) as int);
            if total > usize::MAX {
                lemma_fares_done(next(received), works, wishes);
            } else {
                lemma_reading_length::<T, D>(received, at.piece(receive) as nat);
                let values = D::reading(received);
                let more = pieces.update(receive, Some(values));
                assert forall|m: int| 0 <= m <= step + 1 implies holds(
                    at,
                    more,
                    #[trigger] at.sends(m),
                ) by {
                    lemma_mod_bound(at.position - m, count);
                    if at.sends(m) != receive {
                        assert(m <= step);
                        assert(holds(at, pieces, at.sends(m)));
                    }
                }
                lemma_piece_fares::<T, D>(at, step + 1, more, total);
            }
        }
        lemma_fares_tried(
            host_payload_script::<D::Error>(
                at.model.rails,
                at.model.element_type,
                payload,
                at.piece(receive) * D::ELEMENT_SIZE,
                to,
                from,
                at.channel as int,
                at.tag(step),
            ),
            false,
            next,
            works,
            hopes,
            wishes,
        );
    }
}

/// The channel of a number.
spec fn at_channel(at: GatherChannel, channel: int) -> GatherChannel {
    GatherChannel { channel: channel as usize, ..at }
}

/// Channels that each brought all of their pieces.
spec fn brought<T>(at: GatherChannel, runs: Seq<(Seq<Option<Seq<T>>>, int)>) -> bool {
    forall|c: int|
        0 <= c < runs.len() ==> holds_all::<T>(at_channel(at, c))(#[trigger] runs[c])
}

/// All the channels, each of which brought all of its pieces.
spec fn all_brought<T>(at: GatherChannel) -> spec_fn(Seq<(Seq<Option<Seq<T>>>, int)>) -> bool {
    |runs: Seq<(Seq<Option<Seq<T>>>, int)>| runs.len() == at.channels && brought(at, runs)
}

/// The channels of the leaders' all-gather.
proof fn lemma_gather_channels_fare<T, D: RankDevice<T>>(
    at: GatherChannel,
    bundle: Seq<T>,
    channel: int,
    runs: Seq<(Seq<Option<Seq<T>>>, int)>,
)
    requires
        encodes_evenly::<T, D>(),
        at.model.element_type.width() == D::ELEMENT_SIZE,
        sound(at),
        at.channels <= usize::MAX,
        bundle.len() == at.bundle(at.position),
        0 <= channel <= at.channels,
        runs.len() == channel,
        brought(at, runs),
    ensures
        fares(
            gather_channels::<T, D>(at, bundle, channel, runs),
            works::<T, D>(),
            all_brought::<T>(at),
        ),
    decreases at.channels - channel,
{
    let works = works::<T, D>();
    let wishes = all_brought::<T>(at);
    let script = gather_channels::<T, D>(at, bundle, channel, runs);
    if channel == at.channels {
        lemma_fares_done(script, works, wishes);
    } else {
        let now = at_channel(at, channel);
        let pieces = own_piece(bundle, now);
        law_balanced_partition(bundle.len() as int, at.channels, channel);
        assert forall|m: int| 0 <= m <= 0 implies holds(now, pieces, #[trigger] now.sends(m)) by {
            lemma_small_mod(now.position as nat, now.count() as nat);
        }
        lemma_piece_fares::<T, D>(now, 0, pieces, 0);
        let hopes = holds_all::<T>(now);
        let next = gather_next::<T, D>(at, bundle, channel, runs);
        assert forall|run: (Seq<Option<Seq<T>>>, int)| #[trigger] hopes(run) implies fares(
            next(run),
            works,
            wishes,
        ) by {
            let more = runs.push(run);
            assert forall|c: int| 0 <= c < more.len() implies holds_all::<T>(at_channel(at, c))(
                #[trigger] more[c],
            ) by {
                if c < channel {
                    assert(more[c] == runs[c]);
                }
            }
            lemma_gather_channels_fare::<T, D>(at, bundle, channel + 1, more);
        }
        lemma_fares_tried(
            piece_script::<T, D>(now, 0, pieces, 0),
            true,
            next,
            works,
            hopes,
            wishes,
        );
    }
}

/// What channels brought, put together.
proof fn lemma_merged<T, E>(at: GatherChannel, runs: Seq<(Seq<Option<Seq<T>>>, int)>)
    requires
        sound(at),
        runs.len() <= at.channels <= usize::MAX,
        brought(at, runs),
    ensures
        match merged::<T, E>(runs, at.count()) {
            Err(failure) => overflowed(failure),
            Ok((bundles, _)) => {
                &&& bundles.len() == at.count()
                &&& forall|g: int|
                    0 <= g < at.count() ==> (#[trigger] bundles[g]).len() == balanced_start(
                        at.bundle(g),
                        at.channels,
                        runs.len() as int,
                    )
            },
        },
    decreases runs.len(),
{
    if runs.len() == 0 {
        assert forall|g: int| 0 <= g < at.count() implies #[trigger] balanced_start(
            at.bundle(g),
            at.channels,
            0,
        ) == 0 by {
            lemma_piece_size(at, g);
            law_balanced_partition(at.bundle(g), at.channels, 0);
        }
    } else {
        let c = runs.len() - 1;
        let before = runs.drop_last();
        assert(brought(at, before)) by {
            assert forall|i: int| 0 <= i < before.len() implies holds_all::<T>(at_channel(at, i))(
                #[trigger] before[i],
            ) by {
                assert(before[i] == runs[i]);
            }
        }
        lemma_merged::<T, E>(at, before);
        let now = at_channel(at, c);
        let (pieces, moved) = runs.last();
        assert(holds_all::<T>(now)(runs[c]));
        assert(!incomplete(pieces)) by {
            if incomplete(pieces) {
                let g = choose|g: int| 0 <= g < pieces.len() && (#[trigger] pieces[g]) is None;
                assert(holds(now, pieces, g));
            }
        }
        if let Ok((bundles, bytes)) = merged::<T, E>(before, at.count()) {
            assert forall|g: int| 0 <= g < at.count() implies (bundles[g]
                + pieces[g]->Some_0).len() == #[trigger] balanced_start(
                at.bundle(g),
                at.channels,
                c + 1,
            ) by {
                assert(holds(now, pieces, g));
                lemma_piece_size(at, g);
                law_balanced_partition(at.bundle(g), at.channels, c);
            }
        }
    }
}

/// Bundles as long as the groups' have no defect but their size.
proof fn lemma_bundles_pass<T, E>(
    bundles: Seq<Seq<T>>,
    groups: Seq<Seq<u32>>,
    length: int,
    count: int,
)
    requires
        0 <= count <= groups.len(),
        forall|g: int|
            0 <= g < groups.len() ==> (#[trigger] bundles[g]).len() == groups[g].len() * length,
    ensures
        bundle_defect::<T, E>(bundles, groups, length, count) matches Some(failure) ==> overflowed(
            failure,
        ),
    decreases count,
{
    if count > 0 {
        lemma_bundles_pass::<T, E>(bundles, groups, length, count - 1);
    }
}

/// The groups' bundles.
spec fn sized_bundles<T>(groups: Seq<Seq<u32>>, length: int) -> spec_fn((Seq<Seq<T>>, int)) -> bool {
    |run: (Seq<Seq<T>>, int)|
        {
            &&& run.0.len() == groups.len()
            &&& forall|g: int|
                0 <= g < groups.len() ==> (#[trigger] run.0[g]).len() == groups[g].len() * length
        }
}

/// The leaders' all-gather.
proof fn lemma_leader_all_gather_fares<T, D: RankDevice<T>>(at: GatherChannel, bundle: Seq<T>)
    requires
        encodes_evenly::<T, D>(),
        at.model.element_type.width() == D::ELEMENT_SIZE,
        sound(at),
        at.channels <= usize::MAX,
        bundle.len() == at.bundle(at.position),
    ensures
        fares(
            leader_all_gather_script::<T, D>(at, bundle),
            works::<T, D>(),
            sized_bundles(at.groups, at.length),
        ),
{
    let works = works::<T, D>();
    let hopes = all_brought::<T>(at);
    let wishes = sized_bundles::<T>(at.groups, at.length);
    let next = gather_merged::<T, D>(at.groups, at.length);
    lemma_gather_channels_fare::<T, D>(at, bundle, 0, Seq::empty());
    assert forall|runs: Seq<(Seq<Option<Seq<T>>>, int)>| #[trigger] hopes(runs) implies fares(
        next(runs),
        works,
        wishes,
    ) by {
        lemma_merged::<T, D::Error>(at, runs);
        if let Ok((bundles, _)) = merged::<T, D::Error>(runs, at.count()) {
            assert forall|g: int| 0 <= g < at.groups.len() implies (#[trigger] bundles[g]).len()
                == at.groups[g].len() * at.length by {
                lemma_piece_size(at, g);
                law_balanced_partition(at.bundle(g), at.channels, 0);
            }
            lemma_bundles_pass::<T, D::Error>(bundles, at.groups, at.length, at.count());
        }
        lemma_fares_done(next(runs), works, wishes);
    }
    lemma_fares_tried(
        gather_channels::<T, D>(at, bundle, 0, Seq::empty()),
        false,
        next,
        works,
        hopes,
        wishes,
    );
}

/// The values of all ranks make up the output.
proof fn lemma_assembled_size<T>(
    world_size: u32,
    groups: Seq<Seq<u32>>,
    bundles: Seq<Seq<T>>,
    length: int,
    ranks: int,
)
    requires
        is_hierarchy(world_size, groups),
        0 <= length,
        0 <= ranks <= world_size,
        forall|g: int|
            0 <= g < groups.len() ==> (#[trigger] bundles[g]).len() == groups[g].len() * length,
    ensures
        assembled(groups, bundles, length, ranks).len() == ranks * length,
    decreases ranks,
{
    if ranks > 0 {
        lemma_assembled_size(world_size, groups, bundles, length, ranks - 1);
        let rank = (ranks - 1) as u32;
        assert(grouped(groups, groups.len() as int, rank));
        let g = group_of(groups, rank);
        assert(groups[g].contains(rank));
        let member = member_of(groups, rank);
        assert(bundles[g].len() == groups[g].len() * length);
        let members = groups[g].len();
        assert(0 <= member * length && member * length + length <= members * length)
            by (nonlinear_arith)
            requires
                0 <= member,
                member + 1 <= members,
                0 <= length,
        ;
        assert(bundled(groups, bundles, length, ranks - 1).len() == length);
        assert((ranks - 1) * length + length == ranks * length) by (nonlinear_arith);
    } else {
        assert(0 * length == 0) by (nonlinear_arith);
    }
}

/// A leader once its group's values are bundled.
proof fn lemma_gather_leader_fares<T, D: RankDevice<T>>(
    model: CollectiveModel,
    values: Seq<T>,
    operation: u64,
    ring_channels: int,
    steps: int,
)
    requires
        encodes_evenly::<T, D>(),
        model.element_type.width() == D::ELEMENT_SIZE,
        model.valid(),
        model.membership_defect() is None,
        0 < ring_channels <= usize::MAX,
        values.len() <= usize::MAX,
    ensures
        fares(
            gather_leader_script::<T, D>(model, values, operation, ring_channels, steps),
            works::<T, D>(),
            anything(),
        ),
{
    let works = works::<T, D>();
    let wishes = anything::<(Seq<T>, CollectiveStats)>();
    let group = model.group();
    let groups = model.groups();
    let length = values.len() as int;
    let script = gather_leader_script::<T, D>(model, values, operation, ring_channels, steps);
    if group.len() * values.len() > usize::MAX {
        lemma_fares_done(script, works, wishes);
    } else {
        assert(0 * length == 0) by (nonlinear_arith);
        lemma_bundle_fares::<T, D>(model, group, 0, operation, values, Seq::empty(), 0);
        let hopes = sized_bundle::<T>((group.len() * values.len()) as int);
        let next = gather_bundled::<T, D>(model, length, operation, ring_channels, steps);
        let at = GatherChannel {
            model,
            groups,
            leaders: heads(groups),
            position: group_of(groups, model.place.rank),
            length,
            operation,
            channel: 0,
            channels: effective_channels(ring_channels, length),
        };
        assert(grouped(groups, groups.len() as int, model.place.rank));
        assert forall|run: (Seq<T>, int)| #[trigger] hopes(run) implies fares(
            next(run),
            works,
            wishes,
        ) by {
            lemma_leader_all_gather_fares::<T, D>(at, run.0);
            let ringed = sized_bundles::<T>(groups, length);
            let last = gather_ringed::<T, D>(model, length, operation, steps, run.1);
            assert forall|found: (Seq<Seq<T>>, int)| #[trigger] ringed(found) implies fares(
                last(found),
                works,
                wishes,
            ) by {
                let output = assembled(groups, found.0, length, model.world());
                lemma_assembled_size(
                    model.place.world_size,
                    groups,
                    found.0,
                    length,
                    model.world(),
                );
                assert(model.world() * length == length * model.world()) by (nonlinear_arith);
                let bytes = run.1 + found.1;
                if bytes > usize::MAX {
                    lemma_fares_done(last(found), works, wishes);
                } else {
                    let payloads = same_payload(D::encoding(output));
                    let shared = leader_shared::<T, D>(model, output, steps, 0);
                    lemma_share_fares::<T, D>(
                        model,
                        group,
                        1,
                        operation,
                        6,
                        output.len() as int,
                        payloads,
                        bytes,
                        gather_bytes_label(),
                    );
                    let counted = anything::<int>();
                    assert forall|total: int| #[trigger] counted(total) implies fares(
                        shared(total),
                        works,
                        wishes,
                    ) by {
                        lemma_fares_done(shared(total), works, wishes);
                    }
                    lemma_fares_tried(
                        share_script::<D::Error>(
                            model,
                            group,
                            1,
                            operation,
                            6,
                            output.len() as int,
                            payloads,
                            bytes,
                            gather_bytes_label(),
                        ),
                        false,
                        shared,
                        works,
                        counted,
                        wishes,
                    );
                }
            }
            lemma_fares_tried(
                leader_all_gather_script::<T, D>(at, run.0),
                false,
                last,
                works,
                ringed,
                wishes,
            );
        }
        lemma_fares_tried(
            bundle_script::<T, D>(model, group, 0, operation, values, Seq::empty(), 0),
            false,
            next,
            works,
            hopes,
            wishes,
        );
    }
}

/// Where the device refuses nothing and the transport works, a rank's hierarchical
/// all-gather ends in a result unless a count does not fit.
pub proof fn law_hierarchical_all_gather_succeeds<T, D: RankDevice<T>>(
    model: CollectiveModel,
    values: Seq<T>,
    operation: u64,
    ring_channels: int,
)
    requires
        encodes_evenly::<T, D>(),
        model.element_type.width() == D::ELEMENT_SIZE,
        model.valid(),
        model.membership_defect() is None,
        0 < ring_channels <= usize::MAX,
        values.len() <= usize::MAX,
    ensures
        fares(
            all_gather_hierarchical_script::<T, D>(model, values, operation, ring_channels),
            works::<T, D>(),
            anything(),
        ),
{
    let works = works::<T, D>();
    let wishes = anything::<(Seq<T>, CollectiveStats)>();
    let length = values.len() as int;
    let group = model.group();
    let steps = model.hierarchy_steps(model.groups().len() - 1);
    let agreed = all_gather_hierarchy_agreed::<T, D>(model, values, operation, ring_channels);
    let any = anything::<()>();
    assert forall|done: ()| #[trigger] any(done) implies fares(agreed(done), works, wishes) by {
        if values.len() * model.world() > usize::MAX {
            lemma_fares_done(agreed(done), works, wishes);
        } else if model.place.rank != group[0] {
            assert(0 <= values.len() * model.world()) by (nonlinear_arith)
                requires
                    0 <= values.len(),
                    0 <= model.world(),
            ;
            lemma_member_fares::<T, D>(
                model,
                group[0],
                values,
                operation,
                4,
                6,
                values.len() * model.world(),
                steps,
                gather_bytes_label(),
            );
        } else {
            lemma_gather_leader_fares::<T, D>(model, values, operation, ring_channels, steps);
        }
    }
    lemma_hierarchy_agreement_fares::<T, D>(model, operation, length, 0x700, ring_channels);
    lemma_fares_tried(
        model.hierarchy_agreement::<D::Error>(operation, length, 0x700, ring_channels),
        false,
        agreed,
        works,
        any,
        wishes,
    );
}

} // verus!

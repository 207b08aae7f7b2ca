//! How the ring collectives fare on a device and a transport that work.

use crate::rank::device::RankDevice;
use crate::rank::device_collective::all_gather::{
    all_gather_agreed, all_gather_channels, all_gather_finished, all_gather_labels,
    all_gather_ring_script, own_row_known, unreduced,
};
use crate::rank::device_collective::hierarchical::prospects::{
    lemma_channels_fare, lemma_relay_fares, lemma_round_legs, lemma_totals_overflow, sized_tally,
    works,
};
use crate::rank::device_collective::pairwise_prospects::lemma_ring_agreement_fares;
use crate::rank::device_collective::reduce_scatter::{
    column_blocks, reduce_scatter_agreed, reduce_scatter_channels, reduce_scatter_finished,
    reduce_scatter_labels, reduce_scatter_ring_script,
};
use crate::rank::device_collective::ring::{
    all_reduce_agreed, all_reduce_channels, all_reduce_finished, all_reduce_labels,
    all_reduce_ring_script, channels_script, chunk_length, rank_blocks, relay, round_legs,
    second_round, RoundTags, Tally,
};
use crate::rank::device_collective::{effective_channels, CollectiveModel};
use crate::rank::layout::{balanced_start, law_balanced_partition};
use crate::rank::operation::ReductionOperation;
use crate::rank::prospects::{anything, fares, lemma_fares_done, lemma_fares_tried};
use crate::rank::script::{tried, Script};
use crate::rank::stats::CollectiveStats;
use crate::rank::topology::rings::lemma_ring_holds_all;
use vstd::prelude::*;

verus! {

/// Channels after an agreement, and what their counts come to.
proof fn lemma_ring_run_fares<T, D: RankDevice<T>>(
    model: CollectiveModel,
    operation: u64,
    length: int,
    discriminator: u32,
    channels: int,
    channel: spec_fn(int, Seq<T>) -> Script<Tally<T>, D::Error>,
    values: Seq<T>,
    last: spec_fn((Seq<T>, Seq<(int, int)>)) -> Script<(Seq<T>, CollectiveStats), D::Error>,
    agreed: spec_fn(()) -> Script<(Seq<T>, CollectiveStats), D::Error>,
)
    requires
        forall|c: int, held: Seq<T>|
            0 <= c < channels && held.len() == values.len() ==> fares(
                #[trigger] channel(c, held),
                works::<T, D>(),
                sized_tally(values.len() as int),
            ),
        forall|run: (Seq<T>, Seq<(int, int)>)|
            fares(#[trigger] last(run), works::<T, D>(), anything()),
        agreed(()) == tried(
            channels_script(channel, 0, channels, values, Seq::empty()),
            false,
            last,
        ),
    ensures
        fares(
            tried(
                model.ring_agreement::<D::Error>(operation, length, discriminator, channels),
                false,
                agreed,
            ),
            works::<T, D>(),
            anything(),
        ),
{
    let works = works::<T, D>();
    let wishes = anything::<(Seq<T>, CollectiveStats)>();
    let ran = |run: (Seq<T>, Seq<(int, int)>)| run.0.len() == values.len();
    lemma_channels_fare::<T, D>(channel, 0, channels, values, Seq::empty());
    assert forall|run: (Seq<T>, Seq<(int, int)>)| #[trigger] ran(run) implies fares(
        last(run),
        works,
        wishes,
    ) by {}
    lemma_fares_tried(
        channels_script(channel, 0, channels, values, Seq::empty()),
        false,
        last,
        works,
        ran,
        wishes,
    );
    let any = anything::<()>();
    assert forall|done: ()| #[trigger] any(done) implies fares(agreed(done), works, wishes) by {
        assert(done == ());
    }
    lemma_ring_agreement_fares::<T, D>(model, operation, length, discriminator, channels);
    lemma_fares_tried(
        model.ring_agreement::<D::Error>(operation, length, discriminator, channels),
        false,
        agreed,
        works,
        any,
        wishes,
    );
}

/// Where the device refuses nothing and the transport works, a rank's ring
/// all-reduce ends in a result unless a count does not fit.
pub proof fn law_ring_all_reduce_succeeds<T, D: RankDevice<T>>(
    model: CollectiveModel,
    values: Seq<T>,
    operation: u64,
    reduction: ReductionOperation,
    ring_channels: int,
    reduce: spec_fn(T, T) -> T,
)
    requires
        model.valid(),
        model.element_type.width() == D::ELEMENT_SIZE,
        0 < ring_channels <= usize::MAX,
        values.len() <= usize::MAX,
    ensures
        fares(
            all_reduce_ring_script::<T, D>(
                model,
                values,
                operation,
                reduction,
                ring_channels,
                reduce,
            ),
            works::<T, D>(),
            anything(),
        ),
{
    let works = works::<T, D>();
    let length = values.len() as int;
    let channels = effective_channels(ring_channels, length);
    let channel = all_reduce_channels::<T, D>(model, length, channels, operation, reduce);
    let wishes = sized_tally::<T>(length);
    let labels = all_reduce_labels();
    assert forall|c: int, held: Seq<T>|
        0 <= c < channels && held.len() == values.len() implies fares(
        #[trigger] channel(c, held),
        works,
        wishes,
    ) by {
        model.lemma_ring(c);
        let ring = model.ring(c);
        lemma_ring_holds_all(model.place.world_size, ring, model.place.rank);
        let position = ring.index_of(model.place.rank);
        let count = ring.len() as int;
        law_balanced_partition(length, channels, c);
        let part = chunk_length(length, channels, c);
        let blocks = rank_blocks(ring, balanced_start(length, channels, c), part);
        assert forall|i: int| 0 <= i < blocks.len() implies 0 <= (#[trigger] blocks[i]).1
            - blocks[i].0 <= u64::MAX by {
            law_balanced_partition(part, count, ring[i] as int);
        }
        let first = RoundTags { operation, channel: c as usize, phase: 0, hierarchical: false };
        let second = RoundTags { operation, channel: c as usize, phase: 1, hierarchical: false };
        let rail = model.rail(c);
        let legs = round_legs(ring, blocks, position, position, first.tags(), true);
        let origin = (position + 1) % count;
        let back = round_legs(ring, blocks, position, origin, second.tags(), false);
        let start = Tally { values: held, bytes: 0, launches: 0 };
        lemma_round_legs(ring, blocks, position, position, first.tags(), true);
        lemma_round_legs(ring, blocks, position, origin, second.tags(), false);
        lemma_relay_fares::<T, D>(model.element_type, rail, legs, 0, start, reduce, labels);
        let next = second_round::<T, D>(
            model.element_type,
            rail,
            ring,
            blocks,
            position,
            second,
            reduce,
            labels,
        );
        assert forall|tally: Tally<T>| #[trigger] wishes(tally) implies fares(
            next(tally),
            works,
            wishes,
        ) by {
            lemma_relay_fares::<T, D>(model.element_type, rail, back, 0, tally, reduce, labels);
        }
        lemma_fares_tried(
            relay::<T, D>(model.element_type, rail, legs, 0, start, reduce, labels),
            false,
            next,
            works,
            wishes,
            wishes,
        );
    }
    let last = all_reduce_finished::<T, D>(model);
    assert forall|run: (Seq<T>, Seq<(int, int)>)| fares(
        #[trigger] last(run),
        works,
        anything(),
    ) by {
        lemma_totals_overflow::<D::Error>(run.1, labels);
        lemma_fares_done(last(run), works, anything());
    }
    lemma_ring_run_fares::<T, D>(
        model,
        operation,
        length,
        (0x100 + reduction.spec_code()) as u32,
        channels,
        channel,
        values,
        last,
        all_reduce_agreed::<T, D>(model, values, channels, operation, reduce),
    );
}

/// Where the device refuses nothing and the transport works, a rank's ring
/// reduce-scatter ends in a result unless a count does not fit.
pub proof fn law_ring_reduce_scatter_succeeds<T, D: RankDevice<T>>(
    model: CollectiveModel,
    values: Seq<T>,
    width: int,
    operation: u64,
    reduction: ReductionOperation,
    ring_channels: int,
    reduce: spec_fn(T, T) -> T,
)
    requires
        model.valid(),
        model.element_type.width() == D::ELEMENT_SIZE,
        0 < ring_channels <= usize::MAX,
        0 <= width <= usize::MAX,
    ensures
        fares(
            reduce_scatter_ring_script::<T, D>(
                model,
                values,
                width,
                operation,
                reduction,
                ring_channels,
                reduce,
            ),
            works::<T, D>(),
            anything(),
        ),
{
    let works = works::<T, D>();
    let channels = effective_channels(ring_channels, width);
    let channel = reduce_scatter_channels::<T, D>(model, width, channels, operation, reduce);
    let wishes = sized_tally::<T>(values.len() as int);
    let labels = reduce_scatter_labels();
    assert forall|c: int, held: Seq<T>|
        0 <= c < channels && held.len() == values.len() implies fares(
        #[trigger] channel(c, held),
        works,
        wishes,
    ) by {
        model.lemma_ring(c);
        let ring = model.ring(c);
        lemma_ring_holds_all(model.place.world_size, ring, model.place.rank);
        let position = ring.index_of(model.place.rank);
        law_balanced_partition(width, channels, c);
        let blocks = column_blocks(
            ring,
            width,
            balanced_start(width, channels, c),
            chunk_length(width, channels, c),
        );
        let tags = RoundTags { operation, channel: c as usize, phase: 0, hierarchical: false };
        let origin = (position - 1) % (ring.len() as int);
        let legs = round_legs(ring, blocks, position, origin, tags.tags(), true);
        lemma_round_legs(ring, blocks, position, origin, tags.tags(), true);
        lemma_relay_fares::<T, D>(
            model.element_type,
            model.rail(c),
            legs,
            0,
            Tally { values: held, bytes: 0, launches: 0 },
            reduce,
            labels,
        );
    }
    let last = reduce_scatter_finished::<T, D>(model, width);
    assert forall|run: (Seq<T>, Seq<(int, int)>)| fares(
        #[trigger] last(run),
        works,
        anything(),
    ) by {
        lemma_totals_overflow::<D::Error>(run.1, labels);
        lemma_fares_done(last(run), works, anything());
    }
    lemma_ring_run_fares::<T, D>(
        model,
        operation,
        values.len() as int,
        (0x300 + reduction.spec_code()) as u32,
        channels,
        channel,
        values,
        last,
        reduce_scatter_agreed::<T, D>(model, values, width, channels, operation, reduce),
    );
}

/// Where the device refuses nothing and the transport works, a rank's ring
/// all-gather ends in a result unless a count does not fit.
pub proof fn law_ring_all_gather_succeeds<T, D: RankDevice<T>>(
    model: CollectiveModel,
    values: Seq<T>,
    operation: u64,
    ring_channels: int,
)
    requires
        model.valid(),
        model.element_type.width() == D::ELEMENT_SIZE,
        0 < ring_channels <= usize::MAX,
        values.len() <= usize::MAX,
    ensures
        fares(
            all_gather_ring_script::<T, D>(model, values, operation, ring_channels),
            works::<T, D>(),
            anything(),
        ),
{
    let works = works::<T, D>();
    let width = values.len() as int;
    let channels = effective_channels(ring_channels, width);
    let channel = all_gather_channels::<T, D>(model, width, channels, operation);
    let known = own_row_known(model, values);
    let wishes = sized_tally::<T>(known.len() as int);
    let labels = all_gather_labels();
    if values.len() * model.world() > usize::MAX {
        lemma_fares_done(
            all_gather_ring_script::<T, D>(model, values, operation, ring_channels),
            works,
            anything(),
        );
    } else {
        assert forall|c: int, held: Seq<T>|
            0 <= c < channels && held.len() == known.len() implies fares(
            #[trigger] channel(c, held),
            works,
            wishes,
        ) by {
            model.lemma_ring(c);
            let ring = model.ring(c);
            lemma_ring_holds_all(model.place.world_size, ring, model.place.rank);
            let position = ring.index_of(model.place.rank);
            law_balanced_partition(width, channels, c);
            let blocks = column_blocks(
                ring,
                width,
                balanced_start(width, channels, c),
                chunk_length(width, channels, c),
            );
            let tags = RoundTags {
                operation,
                channel: c as usize,
                phase: 0,
                hierarchical: false,
            };
            let legs = round_legs(ring, blocks, position, position, tags.tags(), false);
            lemma_round_legs(ring, blocks, position, position, tags.tags(), false);
            lemma_relay_fares::<T, D>(
                model.element_type,
                model.rail(c),
                legs,
                0,
                Tally { values: held, bytes: 0, launches: 0 },
                unreduced(),
                labels,
            );
        }
        let last = all_gather_finished::<T, D>(model);
        assert forall|run: (Seq<T>, Seq<(int, int)>)| fares(
            #[trigger] last(run),
            works,
            anything(),
        ) by {
            lemma_totals_overflow::<D::Error>(run.1, labels);
            lemma_fares_done(last(run), works, anything());
        }
        lemma_ring_run_fares::<T, D>(
            model,
            operation,
            width,
            0x200,
            channels,
            channel,
            known,
            last,
            all_gather_agreed::<T, D>(model, values, channels, operation),
        );
    }
}

} // verus!

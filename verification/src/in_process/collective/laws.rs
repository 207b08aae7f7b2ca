//! What collectives among the ranks of a process bring about, element by element.

use crate::in_process::buffer::{DistributedBuffer, RootedBuffer};
use crate::in_process::collective::all_to_all::{
    all_to_all_model, all_to_all_v_model, row_defect, segment, segments_for, shards_for,
};
use crate::in_process::collective::blocks::{lemma_block_fits, lemma_laid_out_block};
use crate::in_process::collective::exchange::{
    all_gather_model, broadcast_model, gather_model, scatter_model, send_recv_model,
};
use crate::in_process::collective::reduction::{
    all_reduce_model, reduce_model, reduce_scatter_model, ring_sum, rooted_fold,
};
use crate::in_process::collective::PointToPointTransfer;
use crate::in_process::device::InProcessDevice;
use crate::math::{lemma_sum_prefix, lemma_sum_step, min_int, sum_usize};
use crate::rank::layout::{balanced_owner, laid_out, law_balanced_partition};
use crate::rank::rounds::{law_full_fold, order_free, rank_fold};
use vstd::arithmetic::div_mod::*;
use vstd::multiset::*;
use vstd::prelude::*;
use vstd::seq_lib::*;

verus! {

/// One more row's element reduced in.
pub open spec fn reducing<T>(element: int, reduce: spec_fn(T, T) -> T) -> spec_fn(
    T,
    Seq<T>,
) -> T {
    |so_far: T, row: Seq<T>| reduce(so_far, row[element])
}

/// An element of the first row with those of all other rows reduced in.
pub open spec fn over_all_rows<T>(
    rows: Seq<Seq<T>>,
    element: int,
    reduce: spec_fn(T, T) -> T,
) -> T {
    rows.drop_first().fold_left(rows[0][element], reducing(element, reduce))
}

/// The first rows, without the root's.
spec fn all_but<T>(rows: Seq<Seq<T>>, root: int, ranks: int) -> Seq<Seq<T>> {
    if ranks <= root {
        rows.take(ranks)
    } else {
        rows.take(ranks).remove(root)
    }
}

proof fn lemma_rooted<T>(
    rows: Seq<Seq<T>>,
    root: int,
    ranks: int,
    length: int,
    element: int,
    reduce: spec_fn(T, T) -> T,
)
    requires
        0 <= root < rows.len(),
        0 <= ranks <= rows.len(),
        forall|r: int| 0 <= r < rows.len() ==> (#[trigger] rows[r]).len() == length,
        0 <= element < length,
    ensures
        rooted_fold(rows, root, ranks, reduce).len() == length,
        rooted_fold(rows, root, ranks, reduce)[element] == all_but(rows, root, ranks).fold_left(
            rows[root][element],
            reducing(element, reduce),
        ),
    decreases ranks,
{
    let f = reducing(element, reduce);
    assert(rows[root].len() == length);
    if ranks <= 0 {
        assert(rows.take(0) =~= Seq::empty());
    } else {
        lemma_rooted(rows, root, ranks - 1, length, element, reduce);
        let before = all_but(rows, root, ranks - 1);
        let now = all_but(rows, root, ranks);
        assert(rows[ranks - 1].len() == length);
        if ranks - 1 == root {
            assert(now =~= before);
        } else {
            assert(now =~= before.push(rows[ranks - 1]));
            assert(now.drop_last() =~= before);
            assert(now.last() == rows[ranks - 1]);
        }
    }
}

/// A fold that begins with the first row.
spec fn beginning<T>(element: int, reduce: spec_fn(T, T) -> T) -> spec_fn(
    Option<T>,
    Seq<T>,
) -> Option<T> {
    |so_far: Option<T>, row: Seq<T>|
        match so_far {
            None => Some(row[element]),
            Some(value) => Some(reduce(value, row[element])),
        }
}

proof fn lemma_beginning<T>(
    first: Seq<T>,
    rest: Seq<Seq<T>>,
    element: int,
    reduce: spec_fn(T, T) -> T,
)
    ensures
        (seq![first] + rest).fold_left(None, beginning(element, reduce)) == Some(
            rest.fold_left(first[element], reducing(element, reduce)),
        ),
    decreases rest.len(),
{
    let all = seq![first] + rest;
    let g = beginning(element, reduce);
    if rest.len() == 0 {
        assert(all.drop_last() =~= Seq::empty());
        assert(all.drop_last().fold_left(None::<T>, g) == None::<T>);
        assert(all.last() == first);
    } else {
        lemma_beginning(first, rest.drop_last(), element, reduce);
        assert(all.drop_last() =~= seq![first] + rest.drop_last());
        assert(all.last() == rest.last());
    }
}

/// Where the order does not matter, any row may come first.
proof fn lemma_any_first<T>(
    rows: Seq<Seq<T>>,
    root: int,
    element: int,
    reduce: spec_fn(T, T) -> T,
)
    requires
        0 <= root < rows.len(),
        order_free(reduce),
    ensures
        rows.remove(root).fold_left(rows[root][element], reducing(element, reduce))
            == over_all_rows(rows, element, reduce),
{
    broadcast use group_multiset_axioms;

    let g = beginning(element, reduce);
    let moved = seq![rows[root]] + rows.remove(root);
    assert forall|a: Seq<T>, b: Seq<T>, v: Option<T>| #[trigger] g(g(v, a), b) == g(g(v, b), a) by {
        let x = a[element];
        let y = b[element];
        assert(reduce(x, y) == reduce(y, x));
        if let Some(value) = v {
            assert(reduce(value, reduce(x, y)) == reduce(reduce(value, x), y));
            assert(reduce(value, reduce(y, x)) == reduce(reduce(value, y), x));
        }
    }
    to_multiset_remove(rows, root);
    to_multiset_remove(moved, 0);
    assert(moved.remove(0) =~= rows.remove(root));
    assert(moved[0] == rows[root]);
    rows.to_multiset_ensures();
    moved.to_multiset_ensures();
    assert(rows.contains(rows[root]));
    assert(moved.contains(rows[root]));
    assert(rows.to_multiset().count(rows[root]) > 0);
    assert(moved.to_multiset().count(rows[root]) > 0);
    assert(rows.to_multiset() =~= rows.remove(root).to_multiset().insert(rows[root]));
    assert(moved.to_multiset() =~= rows.remove(root).to_multiset().insert(rows[root]));
    lemma_fold_left_permutation(moved, rows, g, None);
    lemma_beginning(rows[root], rows.remove(root), element, reduce);
    lemma_beginning(rows[0], rows.drop_first(), element, reduce);
    assert(seq![rows[0]] + rows.drop_first() =~= rows);
}

proof fn lemma_ranks_in_order<T>(
    rows: Seq<Seq<T>>,
    element: int,
    last: int,
    reduce: spec_fn(T, T) -> T,
)
    requires
        0 <= last < rows.len(),
        order_free(reduce),
    ensures
        rank_fold(rows, element, last, reduce) == rows.subrange(1, last + 1).fold_left(
            rows[0][element],
            reducing(element, reduce),
        ),
    decreases last,
{
    let part = rows.subrange(1, last + 1);
    if last > 0 {
        lemma_ranks_in_order(rows, element, last - 1, reduce);
        assert(part.drop_last() =~= rows.subrange(1, last));
        assert(part.last() == rows[last]);
        let before = rank_fold(rows, element, last - 1, reduce);
        assert(reduce(rows[last][element], before) == reduce(before, rows[last][element]));
    } else {
        assert(part =~= Seq::empty());
    }
}

proof fn lemma_ring_sum<T>(
    rows: Seq<Seq<T>>,
    length: int,
    element: int,
    reduce: spec_fn(T, T) -> T,
)
    requires
        0 < rows.len(),
        0 <= element < length,
        order_free(reduce),
    ensures
        ring_sum(rows, length, reduce).len() == length,
        ring_sum(rows, length, reduce)[element] == over_all_rows(rows, element, reduce),
{
    let world = rows.len() as int;
    law_full_fold(rows, element, balanced_owner(length, world, element) + 1, reduce);
    lemma_ranks_in_order(rows, element, world - 1, reduce);
    assert(rows.subrange(1, world) =~= rows.drop_first());
}

/// A rooted reduction begins with the root's element and reduces that of every
/// other rank into it once, in rank order.
pub proof fn law_reduce_begins_with_the_root<T, D: InProcessDevice<T>>(
    id: u64,
    world: int,
    input: &DistributedBuffer<T, D>,
    root: usize,
    reduce: spec_fn(T, T) -> T,
    element: int,
)
    requires
        input.wf(),
        reduce_model(id, world, input, root, reduce) is Ok,
        0 <= element < input.length_per_rank,
    ensures
        reduce_model(id, world, input, root, reduce)->Ok_0.0.len() == input.length_per_rank,
        reduce_model(id, world, input, root, reduce)->Ok_0.0[element] == input.rows().remove(
            root as int,
        ).fold_left(input.rows()[root as int][element], reducing(element, reduce)),
{
    let rows = input.rows();
    assert forall|r: int| 0 <= r < rows.len() implies (#[trigger] rows[r]).len()
        == input.length_per_rank by {
        assert(D::values(&input.buffers@[r]).len() == input.length_per_rank);
    }
    lemma_rooted(
        rows,
        root as int,
        world,
        input.length_per_rank as int,
        element,
        reduce,
    );
    assert(rows.take(world) =~= rows);
}

/// With a reduction whose order does not matter, a rooted reduction takes every
/// rank's own element exactly once, whichever rank is the root.
pub proof fn law_reduce_takes_every_rank_once<T, D: InProcessDevice<T>>(
    id: u64,
    world: int,
    input: &DistributedBuffer<T, D>,
    root: usize,
    reduce: spec_fn(T, T) -> T,
)
    requires
        input.wf(),
        order_free(reduce),
        reduce_model(id, world, input, root, reduce) is Ok,
    ensures
        reduce_model(id, world, input, root, reduce)->Ok_0.0 == Seq::new(
            input.length_per_rank as nat,
            |element: int| over_all_rows(input.rows(), element, reduce),
        ),
{
    let values = reduce_model(id, world, input, root, reduce)->Ok_0.0;
    let wanted = Seq::new(
        input.length_per_rank as nat,
        |element: int| over_all_rows(input.rows(), element, reduce),
    );
    if input.length_per_rank == 0 {
        assert(D::values(&input.buffers@[root as int]).len() == 0);
    } else {
        law_reduce_begins_with_the_root(id, world, input, root, reduce, 0);
    }
    assert forall|element: int| 0 <= element < wanted.len() implies values[element]
        == wanted[element] by {
        law_reduce_begins_with_the_root(id, world, input, root, reduce, element);
        lemma_any_first(input.rows(), root as int, element, reduce);
    }
    assert(values =~= wanted);
}

/// Every rank may be the root of a rooted reduction that one rank can be the root
/// of, and where the order does not matter they all get the same.
pub proof fn law_any_root_reduces_alike<T, D: InProcessDevice<T>>(
    id: u64,
    world: int,
    input: &DistributedBuffer<T, D>,
    root: usize,
    other: usize,
    reduce: spec_fn(T, T) -> T,
)
    requires
        input.wf(),
        order_free(reduce),
        reduce_model(id, world, input, root, reduce) is Ok,
        other < world,
    ensures
        reduce_model(id, world, input, other, reduce) == reduce_model(
            id,
            world,
            input,
            root,
            reduce,
        ),
{
    law_reduce_takes_every_rank_once(id, world, input, root, reduce);
    law_reduce_takes_every_rank_once(id, world, input, other, reduce);
}

/// With a reduction whose order does not matter, every rank holds after an
/// all-reduce what the root of a rooted reduction would hold: every rank's own
/// element exactly once.
pub proof fn law_all_reduce_takes_every_rank_once<T, D: InProcessDevice<T>>(
    id: u64,
    world: int,
    buffer: &DistributedBuffer<T, D>,
    reduce: spec_fn(T, T) -> T,
    rank: int,
    element: int,
)
    requires
        buffer.wf(),
        order_free(reduce),
        all_reduce_model(id, world, buffer, reduce) is Ok,
        0 <= rank < world,
        0 <= element < buffer.length_per_rank,
    ensures
        all_reduce_model(id, world, buffer, reduce)->Ok_0.0.len() == world,
        all_reduce_model(id, world, buffer, reduce)->Ok_0.0[rank].len() == buffer.length_per_rank,
        all_reduce_model(id, world, buffer, reduce)->Ok_0.0[rank][element] == over_all_rows(
            buffer.rows(),
            element,
            reduce,
        ),
{
    let rows = buffer.rows();
    assert(D::values(&buffer.buffers@[rank]).len() == buffer.length_per_rank);
    if world == 1 {
        assert(rows.drop_first() =~= Seq::empty());
        assert(rows.drop_first().fold_left(rows[0][element], reducing(element, reduce))
            == rows[0][element]);
    } else {
        lemma_ring_sum(rows, buffer.length_per_rank as int, element, reduce);
    }
}

/// With a reduction whose order does not matter, a reduce-scatter leaves every rank
/// its own equal share of what an all-reduce would make: the shares lie in rank
/// order.
pub proof fn law_reduce_scatter_shares_the_reduction<T, D: InProcessDevice<T>>(
    id: u64,
    world: int,
    input: &DistributedBuffer<T, D>,
    reduce: spec_fn(T, T) -> T,
    rank: int,
    place: int,
)
    requires
        input.wf(),
        order_free(reduce),
        reduce_scatter_model(id, world, input, reduce) is Ok,
        0 <= rank < world,
        0 <= place < input.length_per_rank as int / world,
    ensures
        reduce_scatter_model(id, world, input, reduce)->Ok_0.0.len() == world,
        input.length_per_rank as int % world == 0,
        reduce_scatter_model(id, world, input, reduce)->Ok_0.0[rank].len()
            == input.length_per_rank as int / world,
        reduce_scatter_model(id, world, input, reduce)->Ok_0.0[rank][place] == over_all_rows(
            input.rows(),
            rank * (input.length_per_rank as int / world) + place,
            reduce,
        ),
{
    let rows = input.rows();
    let length = input.length_per_rank as int;
    let width = length / world;
    law_balanced_partition(length, world, rank);
    lemma_block_fits(rank, width, world);
    lemma_fundamental_div_mod(length, world);
    lemma_ring_sum(rows, length, rank * width + place, reduce);
    let whole = ring_sum(rows, length, reduce);
    assert(whole.subrange(rank * width, rank * width + width)[place] == whole[rank * width
        + place]);
}

/// After a broadcast every rank holds what the root held.
pub proof fn law_broadcast_spreads_the_root<T, D: InProcessDevice<T>>(
    id: u64,
    world: int,
    buffer: &DistributedBuffer<T, D>,
    root: usize,
    rank: int,
)
    requires
        broadcast_model(id, world, buffer, root) is Ok,
        0 <= rank < world,
    ensures
        broadcast_model(id, world, buffer, root)->Ok_0.0.len() == world,
        broadcast_model(id, world, buffer, root)->Ok_0.0[rank] == D::values(
            &buffer.buffers@[root as int],
        ),
{
}

/// An all-gather gives every rank, and a gather its root, the elements of every
/// rank, one rank after the other.
pub proof fn law_gathers_keep_rank_order<T, D: InProcessDevice<T>>(
    id: u64,
    world: int,
    input: &DistributedBuffer<T, D>,
    root: usize,
    rank: int,
    source: int,
)
    requires
        input.wf(),
        0 <= rank < world,
        0 <= source < world,
    ensures
        all_gather_model(id, world, input) matches Ok((rows, _)) ==> {
            let length = input.length_per_rank as int;
            &&& rows.len() == world
            &&& rows[rank].len() == world * length
            &&& rows[rank].subrange(source * length, source * length + length) == D::values(
                &input.buffers@[source],
            )
        },
        gather_model(id, world, input, root) matches Ok((values, _)) ==> {
            let length = input.length_per_rank as int;
            &&& values.len() == world * length
            &&& values.subrange(source * length, source * length + length) == D::values(
                &input.buffers@[source],
            )
        },
{
    let rows = input.rows();
    if rows.len() == world {
        assert forall|r: int| 0 <= r < rows.len() implies (#[trigger] rows[r]).len()
            == input.length_per_rank by {
            assert(D::values(&input.buffers@[r]).len() == input.length_per_rank);
        }
        lemma_laid_out_block(rows, input.length_per_rank as int, source);
    }
}

/// A scatter gives every rank its own equal share of the root's elements, in rank
/// order.
pub proof fn law_scatter_shares_in_rank_order<T, D: InProcessDevice<T>>(
    id: u64,
    world: int,
    input: &RootedBuffer<T, D>,
    rank: int,
    place: int,
)
    requires
        scatter_model(id, world, input) is Ok,
        0 <= rank < world,
        0 <= place < D::values(&input.buffer).len() as int / world,
    ensures
        ({
            let rows = scatter_model(id, world, input)->Ok_0.0;
            let values = D::values(&input.buffer);
            let width = values.len() as int / world;
            &&& values.len() as int % world == 0
            &&& rows.len() == world
            &&& rows[rank].len() == width
            &&& rows[rank][place] == values[rank * width + place]
        }),
{
    let values = D::values(&input.buffer);
    let width = values.len() as int / world;
    lemma_block_fits(rank, width, world);
    lemma_fundamental_div_mod(values.len() as int, world);
}

/// Scattering what was gathered gives every rank its own elements back.
pub proof fn law_scatter_undoes_gather<T, D: InProcessDevice<T>>(
    id: u64,
    world: int,
    input: &DistributedBuffer<T, D>,
    root: usize,
    rooted: &RootedBuffer<T, D>,
)
    requires
        input.wf(),
        0 < world,
        gather_model(id, world, input, root) is Ok,
        rooted.communicator_id == id,
        rooted.root == root,
        D::values(&rooted.buffer) == gather_model(id, world, input, root)->Ok_0.0,
    ensures
        scatter_model(id, world, rooted) is Ok,
        scatter_model(id, world, rooted)->Ok_0.0 == input.rows(),
{
    let rows = input.rows();
    let length = input.length_per_rank as int;
    law_gathers_keep_rank_order(id, world, input, root, 0, 0);
    lemma_mod_multiples_basic(length, world);
    lemma_div_multiples_vanish(length, world);
    assert(world * length == length * world) by (nonlinear_arith);
    assert forall|r: int| 0 <= r < world implies D::values(&rooted.buffer).subrange(
        r * length,
        r * length + length,
    ) == #[trigger] rows[r] by {
        law_gathers_keep_rank_order(id, world, input, root, r, r);
    }
    assert(scatter_model(id, world, rooted)->Ok_0.0 =~= rows);
}

/// In an all-to-all the share that one rank has for another arrives there, at the
/// place of the rank that it comes from.
pub proof fn law_all_to_all_delivers<T, D: InProcessDevice<T>>(
    id: u64,
    world: int,
    input: &DistributedBuffer<T, D>,
    source: int,
    destination: int,
)
    requires
        input.wf(),
        all_to_all_model(id, world, input) is Ok,
        0 <= source < world,
        0 <= destination < world,
    ensures
        ({
            let rows = all_to_all_model(id, world, input)->Ok_0.0;
            let width = input.length_per_rank as int / world;
            &&& rows.len() == world
            &&& rows[destination].len() == input.length_per_rank
            &&& rows[destination].subrange(source * width, source * width + width) == D::values(
                &input.buffers@[source],
            ).subrange(destination * width, destination * width + width)
        }),
{
    let rows = input.rows();
    let length = input.length_per_rank as int;
    let width = length / world;
    lemma_fundamental_div_mod(length, world);
    lemma_div_pos_is_pos(length, world);
    lemma_block_fits(destination, width, world);
    let parts = shards_for(rows, width, destination);
    assert forall|r: int| 0 <= r < parts.len() implies (#[trigger] parts[r]).len() == width by {
        assert(D::values(&input.buffers@[r]).len() == length);
    }
    lemma_laid_out_block(parts, width, source);
}

/// A transfer writes the source's range over the destination's at the offset and
/// leaves everything else as it was.
pub proof fn law_transfers_move_their_range<T, D: InProcessDevice<T>>(
    id: u64,
    world: int,
    source: &DistributedBuffer<T, D>,
    destination: &DistributedBuffer<T, D>,
    transfer: PointToPointTransfer,
    rank: int,
    place: int,
)
    requires
        source.wf(),
        destination.wf(),
        send_recv_model(id, world, source, destination, transfer) is Ok,
        0 <= rank < world,
        0 <= place < destination.length_per_rank,
    ensures
        ({
            let rows = send_recv_model(id, world, source, destination, transfer)->Ok_0.0;
            let moved = transfer.source_range.end - transfer.source_range.start;
            let from = transfer.destination_offset as int;
            &&& rows.len() == world
            &&& rows[rank].len() == destination.length_per_rank
            &&& rows[rank][place] == (if rank == transfer.destination_rank && from <= place < from
                + moved {
                D::values(&source.buffers@[transfer.source_rank as int])[transfer.source_range.start
                    + (place - from)]
            } else {
                D::values(&destination.buffers@[rank])[place]
            })
        }),
{
    assert(D::values(&destination.buffers@[rank]).len() == destination.length_per_rank);
    assert(D::values(&source.buffers@[transfer.source_rank as int]).len()
        == source.length_per_rank);
}

proof fn lemma_laid_out_part<T>(parts: Seq<Seq<T>>, part: int)
    requires
        0 <= part < parts.len(),
    ensures
        laid_out(parts.take(part)).len() + parts[part].len() <= laid_out(parts).len(),
        laid_out(parts).subrange(
            laid_out(parts.take(part)).len() as int,
            (laid_out(parts.take(part)).len() + parts[part].len()) as int,
        ) == parts[part],
    decreases parts.len(),
{
    let shorter = parts.drop_last();
    let at = laid_out(parts.take(part)).len() as int;
    let end = at + parts[part].len();
    if part < parts.len() - 1 {
        lemma_laid_out_part(shorter, part);
        assert(shorter.take(part) =~= parts.take(part));
        assert(laid_out(parts).subrange(at, end) =~= laid_out(shorter).subrange(at, end));
    } else {
        assert(parts.take(part) =~= shorter);
        assert(laid_out(parts).subrange(at, end) =~= parts[part]);
    }
}

proof fn lemma_rows_add_up(counts: Seq<Seq<usize>>, length: int, rows: int, source: int)
    requires
        row_defect(counts, length, rows) is None,
        0 <= source < rows,
    ensures
        sum_usize(counts[source]) == length,
    decreases rows,
{
    if source < rows - 1 {
        lemma_rows_add_up(counts, length, rows - 1, source);
    }
}

/// The counts of the first ranks for one of them.
pub open spec fn arriving(counts: Seq<Seq<usize>>, destination: int, ranks: int) -> Seq<usize> {
    Seq::new(ranks as nat, |source: int| counts[source][destination])
}

proof fn lemma_arriving<T>(
    rows: Seq<Seq<T>>,
    counts: Seq<Seq<usize>>,
    length: int,
    destination: int,
    ranks: int,
)
    requires
        0 <= ranks <= rows.len(),
        counts.len() == rows.len(),
        0 <= destination < rows.len(),
        row_defect(counts, length, rows.len() as int) is None,
        forall|s: int| 0 <= s < rows.len() ==> (#[trigger] rows[s]).len() == length,
        forall|s: int| 0 <= s < counts.len() ==> (#[trigger] counts[s]).len() == rows.len(),
    ensures
        laid_out(segments_for(rows, counts, destination).take(ranks)).len() == sum_usize(
            arriving(counts, destination, ranks),
        ),
        forall|s: int|
            0 <= s < ranks ==> (#[trigger] segments_for(rows, counts, destination)[s]).len()
                == counts[s][destination],
    decreases ranks,
{
    let parts = segments_for(rows, counts, destination);
    if ranks > 0 {
        lemma_arriving(rows, counts, length, destination, ranks - 1);
        let s = ranks - 1;
        assert(counts[s].len() == rows.len());
        assert(rows[s].len() == length);
        lemma_rows_add_up(counts, length, rows.len() as int, s);
        lemma_sum_prefix(counts[s], destination);
        lemma_sum_prefix(counts[s], destination + 1);
        lemma_sum_step(counts[s], destination);
        assert(parts[s] == segment(rows[s], counts[s], destination));
        assert(parts[s].len() == counts[s][destination]);
        assert(parts.take(ranks).drop_last() =~= parts.take(s));
        assert(parts.take(ranks).last() == parts[s]);
        assert(arriving(counts, destination, ranks).drop_last() =~= arriving(
            counts,
            destination,
            s,
        ));
    } else {
        assert(parts.take(0) =~= Seq::empty());
    }
}

/// In a variable all-to-all, what one rank has for another, behind what it has for
/// the ranks before, arrives there behind what the ranks before it had.
pub proof fn law_all_to_all_v_delivers<T, D: InProcessDevice<T>>(
    id: u64,
    world: int,
    input: &DistributedBuffer<T, D>,
    counts: Seq<Seq<usize>>,
    source: int,
    destination: int,
)
    requires
        input.wf(),
        all_to_all_v_model(id, world, input, counts) is Ok,
        0 <= source < world,
        0 <= destination < world,
    ensures
        ({
            let rows = all_to_all_v_model(id, world, input, counts)->Ok_0.0;
            let there = sum_usize(arriving(counts, destination, source));
            let here = sum_usize(counts[source].take(destination));
            let count = counts[source][destination] as int;
            &&& rows.len() == world
            &&& rows[destination].len() == sum_usize(arriving(counts, destination, world))
            &&& rows[destination].subrange(there, there + count) == D::values(
                &input.buffers@[source],
            ).subrange(here, here + count)
        }),
{
    let rows = input.rows();
    let length = input.length_per_rank as int;
    assert forall|s: int| 0 <= s < rows.len() implies (#[trigger] rows[s]).len() == length by {
        assert(D::values(&input.buffers@[s]).len() == length);
    }
    lemma_arriving(rows, counts, length, destination, source);
    lemma_arriving(rows, counts, length, destination, world);
    let parts = segments_for(rows, counts, destination);
    assert(parts.take(world) =~= parts);
    assert(parts[source].len() == counts[source][destination]);
    lemma_laid_out_part(parts, source);
}

/// The bytes that a collective counts are those of the elements that it moves
/// between ranks: the other ranks' for a broadcast or a rooted collective, all of
/// them twice round a ring for an all-reduce and once for a reduce-scatter. Every
/// element that moves in a reduction is reduced once.
pub proof fn law_costs_are_what_moves<T, D: InProcessDevice<T>>(
    id: u64,
    world: int,
    input: &DistributedBuffer<T, D>,
    root: usize,
    reduce: spec_fn(T, T) -> T,
)
    requires
        1 < world,
        2 * (world - 1) <= u32::MAX,
        (world - 1) * world <= u32::MAX,
        0 < input.length_per_rank,
    ensures
        ({
            let moved = (world - 1) * input.length_per_rank * D::ELEMENT_SIZE;
            let twice = 2 * (world - 1) * input.length_per_rank * D::ELEMENT_SIZE;
            &&& broadcast_model(id, world, input, root) matches Ok((_, stats)) ==> stats.steps == 1
                && stats.transferred_bytes == moved && stats.reduction_kernel_launches == 0
            &&& gather_model(id, world, input, root) matches Ok((_, stats)) ==> stats.steps == 1
                && stats.transferred_bytes == moved && stats.reduction_kernel_launches == 0
            &&& reduce_model(id, world, input, root, reduce) matches Ok((_, stats)) ==> stats.steps
                == world - 1 && stats.transferred_bytes == moved && stats.reduction_kernel_launches
                == world - 1
            &&& all_reduce_model(id, world, input, reduce) matches Ok((_, stats)) ==> stats.steps
                == 2 * (world - 1) && stats.transferred_bytes == twice
                && stats.reduction_kernel_launches == (world - 1) * min_int(
                world,
                input.length_per_rank as int,
            )
            &&& reduce_scatter_model(id, world, input, reduce) matches Ok((_, stats))
                ==> stats.steps == world - 1 && stats.transferred_bytes == moved
                && stats.reduction_kernel_launches == (world - 1) * min_int(
                world,
                input.length_per_rank as int,
            )
        }),
{
    let length = input.length_per_rank as int;
    let size = D::ELEMENT_SIZE as int;
    let moved = (world - 1) * length * size;
    let least = min_int(world, length);
    assert(0 <= (world - 1) * length) by (nonlinear_arith)
        requires
            1 < world,
            0 < length,
    ;
    assert(0 <= moved) by (nonlinear_arith)
        requires
            0 <= (world - 1) * length,
            0 <= size,
            moved == (world - 1) * length * size,
    ;
    assert(0 <= 2 * (world - 1) * length * size) by (nonlinear_arith)
        requires
            1 < world,
            0 < length,
            0 <= size,
    ;
    assert(0 <= (world - 1) * least <= (world - 1) * world) by (nonlinear_arith)
        requires
            1 < world,
            0 < least <= world,
    ;
}

/// The bytes of some transfers of some elements can be counted.
pub open spec fn countable(transfers: int, elements: int, size: int) -> bool {
    transfers * elements <= usize::MAX && transfers * elements * size <= usize::MAX
}

/// When collectives on a buffer succeed: the buffer is the communicator's, a root is
/// one of its ranks, shares are equal, what is reduced has elements that a kernel can
/// number, and the bytes that move can be counted. Nothing else is refused.
pub proof fn law_when_collectives_succeed<T, D: InProcessDevice<T>>(
    id: u64,
    world: int,
    input: &DistributedBuffer<T, D>,
    root: usize,
    reduce: spec_fn(T, T) -> T,
)
    requires
        0 < world <= usize::MAX,
    ensures
        ({
            let own = input.communicator_id == id && input.buffers@.len() == world;
            let length = input.length_per_rank as int;
            let size = D::ELEMENT_SIZE as int;
            &&& broadcast_model(id, world, input, root) is Ok <==> own && root < world && countable(
                world - 1,
                length,
                size,
            )
            &&& gather_model(id, world, input, root) is Ok <==> own && root < world && length
                * world <= usize::MAX && countable(world - 1, length, size)
            &&& reduce_model(id, world, input, root, reduce) is Ok <==> own && root < world && (
            length == 0 || (length <= u32::MAX && countable(world - 1, length, size)))
            &&& all_reduce_model(id, world, input, reduce) is Ok <==> own && (world == 1 || (length
                <= u32::MAX && countable(2 * (world - 1), length, size)))
            &&& reduce_scatter_model(id, world, input, reduce) is Ok <==> own && length % world == 0
                && length <= u32::MAX && countable(world - 1, length, size)
            &&& world * (world - 1) <= usize::MAX ==> {
                &&& all_gather_model(id, world, input) is Ok <==> own && length * world
                    <= usize::MAX && countable(world * (world - 1), length, size)
                &&& all_to_all_model(id, world, input) is Ok <==> own && length % world == 0
                    && countable(world * (world - 1), length / world, size)
            }
        }),
{
    assert(0 <= world * (world - 1)) by (nonlinear_arith)
        requires
            0 < world,
    ;
}

} // verus!

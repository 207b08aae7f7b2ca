//! Rounds of a ring: in every step each place hands a block on to the next.
//!
//! The tables are what the places hold. In step `step` the place `p` receives
//! from the place before it the block `p + offset - step - 1`, counted round the
//! ring, and reduces it into its own or writes it over. What a place holds after
//! a number of steps is stated here in closed form.

use crate::rank::device::{overwritten, reduced_into};
use crate::rank::topology::rings::{is_ring, lemma_ring_holds_all};
use vstd::arithmetic::div_mod::*;
use vstd::prelude::*;

verus! {

/// The block that a place receives in a step.
pub open spec fn incoming(place: int, offset: int, step: int, places: int) -> int {
    (place + offset - step - 1) % places
}

/// How many places a block has come round the ring when it reaches a place.
pub open spec fn hops(place: int, block: int, offset: int, places: int) -> int {
    (place + offset - block) % places
}

/// What the places hold after one step.
pub open spec fn stepped<T>(
    tables: Seq<Seq<T>>,
    blocks: Seq<(int, int)>,
    offset: int,
    step: int,
    reducing: bool,
    reduce: spec_fn(T, T) -> T,
) -> Seq<Seq<T>> {
    let places = tables.len() as int;
    Seq::new(
        tables.len(),
        |place: int|
            {
                let block = blocks[incoming(place, offset, step, places)];
                let part = tables[(place - 1) % places].subrange(block.0, block.1);
                if reducing {
                    reduced_into(tables[place], block.0, part, reduce)
                } else {
                    overwritten(tables[place], block.0, part)
                }
            },
    )
}

/// What the places hold after the first steps.
pub open spec fn rounds<T>(
    tables: Seq<Seq<T>>,
    blocks: Seq<(int, int)>,
    offset: int,
    steps: int,
    reducing: bool,
    reduce: spec_fn(T, T) -> T,
) -> Seq<Seq<T>>
    decreases steps,
{
    if steps <= 0 {
        tables
    } else {
        stepped(
            rounds(tables, blocks, offset, steps - 1, reducing, reduce),
            blocks,
            offset,
            steps - 1,
            reducing,
            reduce,
        )
    }
}

/// An element as it stands after going `hops` places from `start`, reduced with
/// each place's own.
pub open spec fn ring_fold<T>(
    tables: Seq<Seq<T>>,
    element: int,
    start: int,
    hops: int,
    reduce: spec_fn(T, T) -> T,
) -> T
    decreases hops,
{
    let places = tables.len() as int;
    if hops <= 0 {
        tables[start % places][element]
    } else {
        reduce(
            tables[(start + hops) % places][element],
            ring_fold(tables, element, start, hops - 1, reduce),
        )
    }
}

/// An element reduced over the places in order: each place's own into what the
/// places before it made.
pub open spec fn rank_fold<T>(
    tables: Seq<Seq<T>>,
    element: int,
    last: int,
    reduce: spec_fn(T, T) -> T,
) -> T
    decreases last,
{
    if last <= 0 {
        tables[0][element]
    } else {
        reduce(tables[last][element], rank_fold(tables, element, last - 1, reduce))
    }
}

/// The tables are of one length, and the blocks lie in it, apart from each other.
pub open spec fn arranged<T>(tables: Seq<Seq<T>>, blocks: Seq<(int, int)>, length: int) -> bool {
    &&& 0 < tables.len() == blocks.len()
    &&& forall|p: int| 0 <= p < tables.len() ==> (#[trigger] tables[p]).len() == length
    &&& forall|b: int|
        0 <= b < blocks.len() ==> 0 <= (#[trigger] blocks[b]).0 <= blocks[b].1 <= length
    &&& forall|b: int, c: int, x: int|
        #![trigger in_block(blocks, b, x), in_block(blocks, c, x)]
        0 <= b < blocks.len() && 0 <= c < blocks.len() && in_block(blocks, b, x) && in_block(
            blocks,
            c,
            x,
        ) ==> b == c
}

/// An element lies in a block.
pub open spec fn in_block(blocks: Seq<(int, int)>, block: int, element: int) -> bool {
    blocks[block].0 <= element < blocks[block].1
}

/// What an element of a block is at a place after the first steps.
pub open spec fn come_round<T>(
    tables: Seq<Seq<T>>,
    place: int,
    element: int,
    block: int,
    offset: int,
    steps: int,
    reducing: bool,
    reduce: spec_fn(T, T) -> T,
) -> T {
    let places = tables.len() as int;
    let gone = hops(place, block, offset, places);
    if gone > steps {
        tables[place][element]
    } else if reducing {
        ring_fold(tables, element, block - offset, gone, reduce)
    } else {
        tables[(block - offset) % places][element]
    }
}

/// In each step exactly the block arrives that has come that far, and it comes
/// from the place that it had reached.
pub proof fn lemma_incoming(place: int, block: int, offset: int, step: int, places: int)
    requires
        0 <= place < places,
        0 <= block < places,
        0 <= step < places - 1,
    ensures
        0 <= incoming(place, offset, step, places) < places,
        block == incoming(place, offset, step, places) <==> hops(place, block, offset, places)
            == step + 1,
        0 <= (place - 1) % places < places,
        hops(place, block, offset, places) == step + 1 ==> hops(
            (place - 1) % places,
            block,
            offset,
            places,
        ) == step,
{
    let other = incoming(place, offset, step, places);
    lemma_mod_bound(place + offset - step - 1, places);
    lemma_mod_bound(place - 1, places);
    lemma_sub_mod_noop_right(place + offset, place + offset - step - 1, places);
    lemma_small_mod((step + 1) as nat, places as nat);
    assert(hops(place, other, offset, places) == step + 1);
    let gone = hops(place, block, offset, places);
    lemma_sub_mod_noop_right(place + offset, place + offset - block, places);
    lemma_small_mod(block as nat, places as nat);
    assert((place + offset - gone) % places == block);
    if gone == step + 1 {
        assert(block == other);
        lemma_add_mod_noop(place - 1, offset - block, places);
        lemma_add_mod_noop((place - 1) % places, offset - block, places);
        lemma_mod_twice(place - 1, places);
        assert(hops((place - 1) % places, block, offset, places) == (place - 1 + offset - block)
            % places);
        lemma_sub_mod_noop_right(place + offset - block, 1, places);
        lemma_sub_mod_noop(place + offset - block, 1, places);
        lemma_sub_mod_noop(gone, 1, places);
        lemma_mod_twice(place + offset - block, places);
        lemma_small_mod(gone as nat, places as nat);
        lemma_small_mod(step as nat, places as nat);
        assert((place + offset - block - 1) % places == (gone - 1) % places);
    }
}

/// A block that has gone a number of places stands that far from its start.
pub proof fn lemma_reached_place(place: int, block: int, offset: int, places: int)
    requires
        0 <= place < places,
    ensures
        0 <= hops(place, block, offset, places) < places,
        (block - offset + hops(place, block, offset, places)) % places == place,
{
    lemma_mod_bound(place + offset - block, places);
    lemma_add_mod_noop_right(block - offset, place + offset - block, places);
    lemma_small_mod(place as nat, places as nat);
}

/// The closed form: an element of a block that has come to a place is what it
/// was made on the way; every other element is as it was.
pub proof fn law_rounds<T>(
    tables: Seq<Seq<T>>,
    blocks: Seq<(int, int)>,
    length: int,
    offset: int,
    steps: int,
    reducing: bool,
    reduce: spec_fn(T, T) -> T,
)
    requires
        arranged(tables, blocks, length),
        0 <= steps < tables.len(),
    ensures
        arranged(rounds(tables, blocks, offset, steps, reducing, reduce), blocks, length),
        forall|p: int, b: int, x: int|
            #![trigger rounds(tables, blocks, offset, steps, reducing, reduce)[p][x], in_block(
                blocks,
                b,
                x,
            )]
            0 <= p < tables.len() && 0 <= b < blocks.len() && in_block(blocks, b, x) ==> rounds(
                tables,
                blocks,
                offset,
                steps,
                reducing,
                reduce,
            )[p][x] == come_round(tables, p, x, b, offset, steps, reducing, reduce),
        forall|p: int, x: int|
            0 <= p < tables.len() && 0 <= x < length && (forall|b: int|
                0 <= b < blocks.len() ==> !in_block(blocks, b, x)) ==> #[trigger] rounds(
                tables,
                blocks,
                offset,
                steps,
                reducing,
                reduce,
            )[p][x] == tables[p][x],
    decreases steps,
{
    let places = tables.len() as int;
    let now = rounds(tables, blocks, offset, steps, reducing, reduce);
    if steps == 0 {
        assert forall|p: int, b: int, x: int|
            0 <= p < places && 0 <= b < places && in_block(blocks, b, x) implies now[p][x]
            == come_round(tables, p, x, b, offset, steps, reducing, reduce) by {
            lemma_reached_place(p, b, offset, places);
        }
    } else {
        let before = rounds(tables, blocks, offset, steps - 1, reducing, reduce);
        law_rounds(tables, blocks, length, offset, steps - 1, reducing, reduce);
        assert forall|p: int| 0 <= p < now.len() implies (#[trigger] now[p]).len() == length by {
            assert(before[p].len() == length);
        }
        assert forall|p: int, b: int, x: int|
            0 <= p < places && 0 <= b < places && in_block(blocks, b, x) implies now[p][x]
            == come_round(tables, p, x, b, offset, steps, reducing, reduce) by {
            let arriving = incoming(p, offset, steps - 1, places);
            let from = (p - 1) % places;
            lemma_incoming(p, b, offset, steps - 1, places);
            lemma_reached_place(p, b, offset, places);
            lemma_reached_place(from, b, offset, places);
            assert(before[p].len() == length);
            assert(before[from].len() == length);
            assert(before[p][x] == come_round(
                tables,
                p,
                x,
                b,
                offset,
                steps - 1,
                reducing,
                reduce,
            ));
            assert(before[from][x] == come_round(
                tables,
                from,
                x,
                b,
                offset,
                steps - 1,
                reducing,
                reduce,
            ));
            if b == arriving {
                assert(in_block(blocks, arriving, x));
            } else {
                assert(!in_block(blocks, arriving, x));
            }
        }
        assert forall|p: int, x: int|
            0 <= p < places && 0 <= x < length && (forall|b: int|
                0 <= b < blocks.len() ==> !in_block(blocks, b, x)) implies #[trigger] now[p][x]
            == tables[p][x] by {
            lemma_incoming(p, 0, offset, steps - 1, places);
            let arriving = incoming(p, offset, steps - 1, places);
            assert(!in_block(blocks, arriving, x));
            assert(before[p].len() == length);
            assert(before[(p - 1) % places].len() == length);
            assert(before[p][x] == tables[p][x]);
        }
    }
}

/// A full round that reduces leaves each block whole at the place before its
/// start.
pub proof fn lemma_whole_at<T>(
    tables: Seq<Seq<T>>,
    blocks: Seq<(int, int)>,
    length: int,
    offset: int,
    block: int,
    element: int,
    reduce: spec_fn(T, T) -> T,
)
    requires
        arranged(tables, blocks, length),
        0 <= block < blocks.len(),
        in_block(blocks, block, element),
    ensures
        ({
            let places = tables.len() as int;
            let place = (block - offset - 1) % places;
            &&& 0 <= place < places
            &&& rounds(tables, blocks, offset, places - 1, true, reduce)[place][element]
                == ring_fold(tables, element, block - offset, places - 1, reduce)
        }),
{
    let places = tables.len() as int;
    let place = (block - offset - 1) % places;
    law_rounds(tables, blocks, length, offset, places - 1, true, reduce);
    lemma_mod_bound(block - offset - 1, places);
    lemma_add_mod_noop(block - offset - 1, offset - block, places);
    lemma_add_mod_noop(place, offset - block, places);
    lemma_mod_twice(block - offset - 1, places);
    lemma_mod_add_multiples_vanish(-1, places);
    lemma_small_mod((places - 1) as nat, places as nat);
    assert(hops(place, block, offset, places) == places - 1);
}

/// Two full rounds, the first reducing and the second sharing out, leave every
/// place with every block whole.
pub proof fn law_two_rounds<T>(
    tables: Seq<Seq<T>>,
    blocks: Seq<(int, int)>,
    length: int,
    offset: int,
    place: int,
    block: int,
    element: int,
    reduce: spec_fn(T, T) -> T,
)
    requires
        arranged(tables, blocks, length),
        0 <= place < tables.len(),
        0 <= block < blocks.len(),
        in_block(blocks, block, element),
    ensures
        ({
            let places = tables.len() as int;
            let reduced = rounds(tables, blocks, offset, places - 1, true, reduce);
            rounds(reduced, blocks, offset + 1, places - 1, false, reduce)[place][element]
                == ring_fold(tables, element, block - offset, places - 1, reduce)
        }),
{
    let places = tables.len() as int;
    let reduced = rounds(tables, blocks, offset, places - 1, true, reduce);
    law_rounds(tables, blocks, length, offset, places - 1, true, reduce);
    law_rounds(reduced, blocks, length, offset + 1, places - 1, false, reduce);
    lemma_reached_place(place, block, offset + 1, places);
    lemma_whole_at(tables, blocks, length, offset, block, element, reduce);
}

/// The order of the operands does not matter, nor how they are grouped.
pub open spec fn order_free<T>(reduce: spec_fn(T, T) -> T) -> bool {
    &&& forall|a: T, b: T| #[trigger] reduce(a, b) == reduce(b, a)
    &&& forall|a: T, b: T, c: T| #[trigger] reduce(a, reduce(b, c)) == reduce(reduce(a, b), c)
}

/// The first element of a fold can be taken last.
proof fn lemma_first_last<T>(
    tables: Seq<Seq<T>>,
    element: int,
    start: int,
    hops: int,
    reduce: spec_fn(T, T) -> T,
)
    requires
        order_free(reduce),
        0 < hops,
    ensures
        ring_fold(tables, element, start, hops, reduce) == reduce(
            tables[start % (tables.len() as int)][element],
            ring_fold(tables, element, start + 1, hops - 1, reduce),
        ),
    decreases hops,
{
    let places = tables.len() as int;
    let first = tables[start % places][element];
    let last = tables[(start + hops) % places][element];
    if hops == 1 {
        assert(ring_fold(tables, element, start, 0, reduce) == first);
        assert(ring_fold(tables, element, start + 1, 0, reduce) == last);
        assert(reduce(last, first) == reduce(first, last));
    } else {
        lemma_first_last(tables, element, start, hops - 1, reduce);
        let rest = ring_fold(tables, element, start + 1, hops - 2, reduce);
        assert(start + hops == start + 1 + (hops - 1));
        assert(ring_fold(tables, element, start + 1, hops - 1, reduce) == reduce(last, rest));
        assert(reduce(last, reduce(first, rest)) == reduce(reduce(last, first), rest));
        assert(reduce(last, first) == reduce(first, last));
        assert(reduce(first, reduce(last, rest)) == reduce(reduce(first, last), rest));
    }
}

/// A full fold may start one place further on.
proof fn lemma_start_moves<T>(
    tables: Seq<Seq<T>>,
    element: int,
    start: int,
    reduce: spec_fn(T, T) -> T,
)
    requires
        order_free(reduce),
        0 < tables.len(),
    ensures
        ring_fold(tables, element, start, tables.len() - 1, reduce) == ring_fold(
            tables,
            element,
            start + 1,
            tables.len() - 1,
            reduce,
        ),
{
    let places = tables.len() as int;
    lemma_mod_add_multiples_vanish(start, places);
    if places == 1 {
        lemma_mod_add_multiples_vanish(start, 1);
    } else {
        lemma_first_last(tables, element, start, places - 1, reduce);
        assert((start + 1) + (places - 1) == start + places);
    }
}

/// With a reduction whose order does not matter, a full fold is the same from
/// every start: it is the reduction of the element over all places, in order.
pub proof fn law_full_fold<T>(
    tables: Seq<Seq<T>>,
    element: int,
    start: int,
    reduce: spec_fn(T, T) -> T,
)
    requires
        order_free(reduce),
        0 < tables.len(),
    ensures
        ring_fold(tables, element, start, tables.len() - 1, reduce) == rank_fold(
            tables,
            element,
            tables.len() - 1,
            reduce,
        ),
    decreases (if start < 0 {
        -start
    } else {
        start
    }),
{
    if start < 0 {
        lemma_start_moves(tables, element, start, reduce);
        law_full_fold(tables, element, start + 1, reduce);
    } else if start > 0 {
        lemma_start_moves(tables, element, start - 1, reduce);
        law_full_fold(tables, element, start - 1, reduce);
    } else {
        lemma_fold_from_first(tables, element, tables.len() - 1, reduce);
    }
}

proof fn lemma_fold_from_first<T>(
    tables: Seq<Seq<T>>,
    element: int,
    last: int,
    reduce: spec_fn(T, T) -> T,
)
    requires
        0 <= last < tables.len(),
    ensures
        ring_fold(tables, element, 0, last, reduce) == rank_fold(tables, element, last, reduce),
    decreases last,
{
    lemma_small_mod(last as nat, tables.len());
    if last > 0 {
        lemma_fold_from_first(tables, element, last - 1, reduce);
    }
}

/// What ranks hold, by their places on a ring.
pub open spec fn by_place<T>(tables: Seq<T>, ring: Seq<u32>) -> Seq<T> {
    Seq::new(ring.len(), |place: int| tables[ring[place] as int])
}

/// One more rank's element reduced in.
pub open spec fn taken_in<T>(
    tables: Seq<Seq<T>>,
    element: int,
    reduce: spec_fn(T, T) -> T,
) -> spec_fn(Option<T>, u32) -> Option<T> {
    |so_far: Option<T>, rank: u32|
        match so_far {
            None => Some(tables[rank as int][element]),
            Some(value) => Some(reduce(tables[rank as int][element], value)),
        }
}

/// A fold over places is a fold over the list of their ranks.
pub proof fn lemma_fold_as_list<T>(
    tables: Seq<Seq<T>>,
    ring: Seq<u32>,
    element: int,
    last: int,
    reduce: spec_fn(T, T) -> T,
)
    requires
        0 <= last < ring.len(),
    ensures
        ring.take(last + 1).fold_left(None, taken_in(tables, element, reduce)) == Some(
            ring_fold(by_place(tables, ring), element, 0, last, reduce),
        ),
    decreases last,
{
    let f = taken_in(tables, element, reduce);
    let list = ring.take(last + 1);
    lemma_small_mod(last as nat, ring.len());
    assert(list.drop_last() =~= ring.take(last));
    if last == 0 {
        assert(ring.take(0) =~= Seq::empty());
        assert(ring.take(0).fold_left(None::<T>, f) == None::<T>);
        lemma_small_mod(0, ring.len());
    } else {
        lemma_fold_as_list(tables, ring, element, last - 1, reduce);
    }
}

/// The ranks in order.
pub open spec fn in_order(ranks: int) -> Seq<u32> {
    Seq::new(ranks as nat, |rank: int| rank as u32)
}

/// A ring holds the same ranks as the list of all of them.
proof fn lemma_ring_is_all(world_size: u32, ring: Seq<u32>)
    requires
        is_ring(world_size, ring),
    ensures
        ring.to_multiset() == in_order(world_size as int).to_multiset(),
{
    let all = in_order(world_size as int);
    assert(all.no_duplicates());
    ring.lemma_multiset_has_no_duplicates();
    all.lemma_multiset_has_no_duplicates();
    assert forall|rank: u32| ring.to_multiset().count(rank) == all.to_multiset().count(rank) by {
        ring.to_multiset_ensures();
        all.to_multiset_ensures();
        assert(ring.contains(rank) <==> ring.to_multiset().count(rank) > 0);
        assert(all.contains(rank) <==> all.to_multiset().count(rank) > 0);
        if rank < world_size {
            lemma_ring_holds_all(world_size, ring, rank);
            assert(all[rank as int] == rank);
            assert(ring.to_multiset().contains(rank));
            assert(all.to_multiset().contains(rank));
        } else {
            assert(!ring.contains(rank));
            assert(!all.contains(rank));
        }
    }
    assert(ring.to_multiset() =~= all.to_multiset());
}

/// With a reduction whose order does not matter, a full fold round any ring of
/// the ranks, from any start, is the reduction over the ranks in order.
pub proof fn law_any_ring<T>(
    tables: Seq<Seq<T>>,
    world_size: u32,
    ring: Seq<u32>,
    element: int,
    start: int,
    reduce: spec_fn(T, T) -> T,
)
    requires
        is_ring(world_size, ring),
        tables.len() == world_size,
        order_free(reduce),
    ensures
        ring_fold(by_place(tables, ring), element, start, world_size - 1, reduce) == rank_fold(
            tables,
            element,
            world_size - 1,
            reduce,
        ),
{
    let f = taken_in(tables, element, reduce);
    let all = in_order(world_size as int);
    let last = world_size - 1;
    law_full_fold(by_place(tables, ring), element, start, reduce);
    law_full_fold(by_place(tables, ring), element, 0, reduce);
    assert forall|a: u32, b: u32, v: Option<T>| #[trigger] f(f(v, a), b) == f(f(v, b), a) by {
        let x = tables[a as int][element];
        let y = tables[b as int][element];
        assert(reduce(x, y) == reduce(y, x));
        if let Some(value) = v {
            assert(reduce(y, reduce(x, value)) == reduce(reduce(y, x), value));
            assert(reduce(x, reduce(y, value)) == reduce(reduce(x, y), value));
        }
    }
    lemma_ring_is_all(world_size, ring);
    vstd::seq_lib::lemma_fold_left_permutation(ring, all, f, None);
    lemma_fold_as_list(tables, ring, element, last, reduce);
    lemma_fold_as_list(tables, all, element, last, reduce);
    assert(ring.take(last + 1) =~= ring);
    assert(all.take(last + 1) =~= all);
    assert(by_place(tables, all) =~= tables);
    lemma_fold_from_first(tables, element, last, reduce);
}

} // verus!

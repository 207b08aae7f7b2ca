//! Equal blocks of a rank's elements, one after another.

use crate::rank::device::overwritten;
use crate::rank::layout::laid_out;
use vstd::arithmetic::div_mod::*;
use vstd::prelude::*;

verus! {

/// A block of `width` elements holds `part`.
pub open spec fn block_is<T>(values: Seq<T>, block: int, width: int, part: Seq<T>) -> bool {
    &&& part.len() == width
    &&& forall|c: int| 0 <= c < width ==> #[trigger] values[block * width + c] == part[c]
}

/// A block lies among the others.
pub proof fn lemma_block_fits(block: int, width: int, blocks: int)
    requires
        0 <= block < blocks,
        0 <= width,
    ensures
        0 <= block * width,
        block * width + width <= blocks * width,
{
    assert(0 <= block * width) by (nonlinear_arith)
        requires
            0 <= block,
            0 <= width,
    ;
    assert(block * width + width <= blocks * width) by (nonlinear_arith)
        requires
            block + 1 <= blocks,
            0 <= width,
    ;
}

/// Writing one block leaves every other as it was.
pub proof fn lemma_block_written<T>(
    values: Seq<T>,
    written: int,
    part: Seq<T>,
    other: int,
    held: Seq<T>,
    width: int,
    blocks: int,
)
    requires
        values.len() == blocks * width,
        0 <= written < blocks,
        0 <= other < blocks,
        part.len() == width,
        other != written ==> block_is(values, other, width, held),
        other == written ==> held == part,
    ensures
        block_is(overwritten(values, written * width, part), other, width, held),
{
    let now = overwritten(values, written * width, part);
    lemma_block_fits(written, width, blocks);
    lemma_block_fits(other, width, blocks);
    assert(other < written ==> other * width + width <= written * width) by (nonlinear_arith)
        requires
            0 <= width,
    ;
    assert(written < other ==> written * width + width <= other * width) by (nonlinear_arith)
        requires
            0 <= width,
    ;
    assert forall|c: int| 0 <= c < width implies #[trigger] now[other * width + c] == held[c] by {
        assert(other != written ==> values[other * width + c] == held[c]);
    }
}

/// A block, read.
pub proof fn lemma_block_read<T>(values: Seq<T>, block: int, width: int, part: Seq<T>, blocks: int)
    requires
        0 <= block < blocks,
        values.len() == blocks * width,
        block_is(values, block, width, part),
    ensures
        values.subrange(block * width, block * width + width) == part,
{
    lemma_block_fits(block, width, blocks);
    let read = values.subrange(block * width, block * width + width);
    assert forall|c: int| 0 <= c < width implies read[c] == part[c] by {
        assert(values[block * width + c] == part[c]);
    }
    assert(read =~= part);
}

/// The blocks make up the whole.
pub proof fn lemma_blocks_make_all<T>(
    values: Seq<T>,
    width: int,
    parts: Seq<Seq<T>>,
    blocks: int,
)
    requires
        values.len() == parts.len() * width,
        0 <= width,
        0 <= blocks <= parts.len(),
        forall|b: int|
            0 <= b < blocks ==> #[trigger] block_is(values, b, width, parts[b]),
    ensures
        0 <= blocks * width <= values.len(),
        values.take(blocks * width) == laid_out(parts.take(blocks)),
    decreases blocks,
{
    assert(0 <= blocks * width <= parts.len() * width) by (nonlinear_arith)
        requires
            0 <= blocks <= parts.len(),
            0 <= width,
    ;
    if blocks == 0 {
        assert(values.take(0) =~= Seq::empty());
        assert(parts.take(0) =~= Seq::empty());
    } else {
        lemma_blocks_make_all(values, width, parts, blocks - 1);
        let last = blocks - 1;
        assert(block_is(values, last, width, parts[last]));
        lemma_block_read(values, last, width, parts[last], parts.len() as int);
        assert(blocks * width == last * width + width) by (nonlinear_arith)
            requires
                blocks == last + 1,
        ;
        assert(parts.take(blocks).drop_last() =~= parts.take(last));
        assert(values.take(blocks * width) =~= values.take(last * width) + values.subrange(
            last * width,
            last * width + width,
        ));
    }
}

/// The blocks of every rank make up the whole.
pub proof fn lemma_all_blocks<T>(values: Seq<T>, width: int, parts: Seq<Seq<T>>)
    requires
        values.len() == parts.len() * width,
        0 <= width,
        forall|b: int|
            0 <= b < parts.len() ==> #[trigger] block_is(values, b, width, parts[b]),
    ensures
        values == laid_out(parts),
{
    lemma_blocks_make_all(values, width, parts, parts.len() as int);
    assert(parts.take(parts.len() as int) =~= parts);
    assert(values.take(values.len() as int) =~= values);
}

/// Equal parts, laid out, are read back block by block.
pub proof fn lemma_laid_out_block<T>(parts: Seq<Seq<T>>, width: int, block: int)
    requires
        0 <= width,
        forall|b: int| 0 <= b < parts.len() ==> (#[trigger] parts[b]).len() == width,
    ensures
        laid_out(parts).len() == parts.len() * width,
        0 <= block < parts.len() ==> laid_out(parts).subrange(block * width, block * width + width)
            == parts[block],
    decreases parts.len(),
{
    if parts.len() > 0 {
        let rest = parts.drop_last();
        let last = rest.len() as int;
        lemma_laid_out_block(rest, width, block);
        assert(parts[last].len() == width);
        assert(parts.len() * width == last * width + width) by (nonlinear_arith)
            requires
                parts.len() == last + 1,
        ;
        if 0 <= block < last {
            lemma_block_fits(block, width, last);
            assert(laid_out(parts).subrange(block * width, block * width + width) =~= laid_out(
                rest,
            ).subrange(block * width, block * width + width));
        } else if block == last {
            lemma_block_fits(last, width, last + 1);
            assert(laid_out(parts).subrange(block * width, block * width + width)
                =~= parts.last());
        }
    } else {
        assert(0 * width == 0);
    }
}

/// A place up to one round before the first, brought into the ring.
pub open spec fn wrapped(place: int, count: int) -> int {
    if place < 0 {
        place + count
    } else {
        place
    }
}

/// Bringing a place into the ring is taking its remainder.
pub proof fn lemma_wrapped(place: int, count: int)
    requires
        -count <= place < count,
        0 < count,
    ensures
        place % count == wrapped(place, count),
        0 <= wrapped(place, count) < count,
{
    if place < 0 {
        lemma_mod_add_multiples_vanish(place, count);
        lemma_small_mod((place + count) as nat, count as nat);
    } else {
        lemma_small_mod(place as nat, count as nat);
    }
}

} // verus!

//! Partitions, offsets and step counts.

use crate::math::{lemma_sum_prefix, lemma_sum_step, max_int, min_int, sum_usize};
use crate::rank::error::RankError;
use std::ops::Range;
use vstd::arithmetic::div_mod::*;
use vstd::prelude::*;

verus! {

/// Where partition `index` of `partitions` of a length begins: the first
/// `length % partitions` of them hold one more element than the rest.
pub open spec fn balanced_start(length: int, partitions: int, index: int) -> int {
    index * (length / partitions) + min_int(index, length % partitions)
}

/// The elements of partition `index`.
pub open spec fn balanced_len(length: int, partitions: int, index: int) -> int {
    length / partitions + (if index < length % partitions {
        1int
    } else {
        0
    })
}

/// The partitions follow one another from nothing to the whole length; an
/// earlier one is never smaller than a later one, and larger by one at most.
pub proof fn law_balanced_partition(length: int, partitions: int, index: int)
    requires
        0 <= length,
        0 <= index < partitions,
    ensures
        balanced_start(length, partitions, 0) == 0,
        balanced_start(length, partitions, partitions) == length,
        balanced_start(length, partitions, index + 1) == balanced_start(length, partitions, index)
            + balanced_len(length, partitions, index),
        0 <= balanced_start(length, partitions, index) <= balanced_start(
            length,
            partitions,
            index + 1,
        ) <= length,
        length / partitions <= balanced_len(length, partitions, index) <= length / partitions + 1,
        index + 1 < partitions ==> balanced_len(length, partitions, index + 1) <= balanced_len(
            length,
            partitions,
            index,
        ),
{
    let base = length / partitions;
    let extra = length % partitions;
    lemma_fundamental_div_mod(length, partitions);
    lemma_mod_bound(length, partitions);
    lemma_div_pos_is_pos(length, partitions);
    assert((index + 1) * base == index * base + base) by (nonlinear_arith);
    assert(0 <= index * base) by (nonlinear_arith)
        requires
            0 <= index,
            0 <= base,
    ;
    assert((index + 1) * base <= partitions * base) by (nonlinear_arith)
        requires
            index + 1 <= partitions,
            0 <= base,
    ;
    assert(partitions * base + extra == length);
    assert(0 * base == 0) by (nonlinear_arith);
}

/// Partitions are found in order: one that begins later ends later.
pub proof fn lemma_balanced_monotone(length: int, partitions: int, first: int, second: int)
    requires
        0 <= length,
        0 <= first <= second <= partitions,
        0 < partitions,
    ensures
        0 <= balanced_start(length, partitions, first) <= balanced_start(length, partitions, second)
            <= length,
    decreases second - first,
{
    if first == second {
        if first < partitions {
            law_balanced_partition(length, partitions, first);
        } else {
            law_balanced_partition(length, partitions, 0);
        }
    } else {
        law_balanced_partition(length, partitions, second - 1);
        lemma_balanced_monotone(length, partitions, first, second - 1);
    }
}

/// The partitions of a length, in order.
pub open spec fn are_balanced_ranges(ranges: Seq<Range<usize>>, length: int, partitions: int) -> bool {
    &&& ranges.len() == partitions
    &&& forall|i: int|
        0 <= i < partitions ==> (#[trigger] ranges[i]).start == balanced_start(
            length,
            partitions,
            i,
        ) && ranges[i].end == balanced_start(length, partitions, i + 1)
}

pub fn balanced_ranges(length: usize, partitions: usize) -> (ranges: Vec<Range<usize>>)
    requires
        partitions > 0,
    ensures
        are_balanced_ranges(ranges@, length as int, partitions as int),
{
    let base: usize = length / partitions;
    let remainder: usize = length % partitions;
    let mut start: usize = 0;
    let mut ranges: Vec<Range<usize>> = Vec::new();
    let mut partition: usize = 0;
    proof {
        law_balanced_partition(length as int, partitions as int, 0);
    }
    while partition < partitions
        invariant
            partition <= partitions,
            0 < partitions,
            base == length / partitions,
            remainder == length % partitions,
            start == balanced_start(length as int, partitions as int, partition as int),
            ranges@.len() == partition,
            forall|i: int|
                0 <= i < partition ==> (#[trigger] ranges@[i]).start == balanced_start(
                    length as int,
                    partitions as int,
                    i,
                ) && ranges@[i].end == balanced_start(length as int, partitions as int, i + 1),
        decreases partitions - partition,
    {
        proof {
            law_balanced_partition(length as int, partitions as int, partition as int);
        }
        let extra: usize = if partition < remainder {
            1
        } else {
            0
        };
        let end: usize = start + (base + extra);
        ranges.push(Range { start, end });
        start = end;
        partition = partition + 1;
    }
    ranges
}

pub fn prefix_offsets(counts: &[usize]) -> (result: Result<Vec<usize>, RankError>)
    ensures
        match result {
            Ok(offsets) => {
                &&& sum_usize(counts@) <= usize::MAX
                &&& offsets@.len() == counts@.len()
                &&& forall|i: int|
                    0 <= i < counts@.len() ==> #[trigger] offsets@[i] == sum_usize(counts@.take(i))
            },
            Err(error) => sum_usize(counts@) > usize::MAX && error == RankError::Overflow(
                "pairwise count prefix",
            ),
        },
{
    let mut total: usize = 0;
    let mut offsets: Vec<usize> = Vec::new();
    let mut index: usize = 0;
    while index < counts.len()
        invariant
            index <= counts.len(),
            total == sum_usize(counts@.take(index as int)),
            offsets@.len() == index,
            forall|i: int|
                0 <= i < index ==> #[trigger] offsets@[i] == sum_usize(counts@.take(i)),
        decreases counts.len() - index,
    {
        proof {
            lemma_sum_step(counts@, index as int);
            lemma_sum_prefix(counts@, index + 1);
        }
        offsets.push(total);
        match total.checked_add(counts[index]) {
            Some(next) => {
                total = next;
            },
            None => {
                return Err(RankError::Overflow("pairwise count prefix"));
            },
        }
        index = index + 1;
    }
    assert(counts@.take(index as int) =~= counts@);
    Ok(offsets)
}

/// The members of the lists, as sequences.
pub open spec fn rank_lists(groups: Seq<Vec<u32>>) -> Seq<Seq<u32>> {
    Seq::new(groups.len(), |i: int| groups[i]@)
}

/// The most members beside the first that a group has.
pub open spec fn widest_local(groups: Seq<Seq<u32>>) -> int
    decreases groups.len(),
{
    if groups.len() == 0 {
        0
    } else {
        max_int(widest_local(groups.drop_last()), groups.last().len() - 1)
    }
}

pub fn hierarchy_steps(groups: &[Vec<u32>], inter_steps: usize) -> (steps: u32)
    ensures
        steps == min_int(2 * widest_local(rank_lists(groups@)) + inter_steps, u32::MAX as int),
{
    let mut local_steps: usize = 0;
    let mut index: usize = 0;
    let ghost model = rank_lists(groups@);
    while index < groups.len()
        invariant
            index <= groups.len(),
            model == rank_lists(groups@),
            local_steps == widest_local(model.take(index as int)),
        decreases groups.len() - index,
    {
        assert(model.take(index + 1).drop_last() =~= model.take(index as int));
        let beside: usize = groups[index].len().saturating_sub(1);
        if beside > local_steps {
            local_steps = beside;
        }
        index = index + 1;
    }
    assert(model.take(index as int) =~= model);
    let doubled: usize = crate::math::saturating_mul_usize(local_steps, 2);
    let steps: usize = crate::math::saturating_add_usize(doubled, inter_steps);
    if steps > u32::MAX as usize {
        u32::MAX
    } else {
        steps as u32
    }
}

/// The rows, one after another.
pub open spec fn laid_out<T>(rows: Seq<Seq<T>>) -> Seq<T>
    decreases rows.len(),
{
    if rows.len() == 0 {
        Seq::empty()
    } else {
        laid_out(rows.drop_last()) + rows.last()
    }
}

/// The bounds of the partitions of a length.
pub open spec fn balanced_bounds(length: int, partitions: int) -> Seq<(int, int)> {
    Seq::new(
        partitions as nat,
        |index: int|
            (
                balanced_start(length, partitions, index),
                balanced_start(length, partitions, index + 1),
            ),
    )
}

/// The partition that an element lies in.
pub open spec fn balanced_owner(length: int, partitions: int, element: int) -> int {
    choose|index: int|
        0 <= index < partitions && #[trigger] balanced_start(length, partitions, index) <= element
            < balanced_start(length, partitions, index + 1)
}

/// Every element lies in a partition.
pub proof fn lemma_balanced_owner(length: int, partitions: int, element: int)
    requires
        0 <= element < length,
        0 < partitions,
    ensures
        0 <= balanced_owner(length, partitions, element) < partitions,
        balanced_start(length, partitions, balanced_owner(length, partitions, element)) <= element
            < balanced_start(length, partitions, balanced_owner(length, partitions, element) + 1),
{
    law_balanced_partition(length, partitions, 0);
    lemma_some_owner(length, partitions, element, partitions);
}

proof fn lemma_some_owner(length: int, partitions: int, element: int, end: int)
    requires
        0 <= element < balanced_start(length, partitions, end),
        0 <= length,
        0 <= end <= partitions,
        0 < partitions,
    ensures
        exists|index: int|
            0 <= index < partitions && #[trigger] balanced_start(length, partitions, index)
                <= element < balanced_start(length, partitions, index + 1),
    decreases end,
{
    if end == 0 {
        law_balanced_partition(length, partitions, 0);
    } else if balanced_start(length, partitions, end - 1) <= element {
        assert(0 <= end - 1 < partitions && balanced_start(length, partitions, end - 1) <= element
            < balanced_start(length, partitions, (end - 1) + 1));
    } else {
        lemma_some_owner(length, partitions, element, end - 1);
    }
}

} // verus!

//! Saturating and bounded integer arithmetic shared by the cost models.

use vstd::prelude::*;

verus! {

/// The smaller of two integers.
pub open spec fn min_int(a: int, b: int) -> int {
    if a <= b {
        a
    } else {
        b
    }
}

/// The larger of two integers.
pub open spec fn max_int(a: int, b: int) -> int {
    if a >= b {
        a
    } else {
        b
    }
}

/// `value` clamped to the largest `u64`.
pub open spec fn saturate_u64(value: int) -> u64 {
    if value >= u64::MAX {
        u64::MAX
    } else {
        value as u64
    }
}

/// `value` clamped to the largest `usize`.
pub open spec fn saturate_usize(value: int) -> usize {
    if value >= usize::MAX {
        usize::MAX
    } else {
        value as usize
    }
}

/// `value` clamped to the largest `u128`.
pub open spec fn saturate_u128(value: int) -> u128 {
    if value >= u128::MAX {
        u128::MAX
    } else {
        value as u128
    }
}

/// The quotient of two naturals rounded up.
pub open spec fn ceiling_div(numerator: int, denominator: int) -> int {
    if numerator % denominator == 0 {
        numerator / denominator
    } else {
        numerator / denominator + 1
    }
}

/// The sum of the counts, front to back.
pub open spec fn sum_usize(counts: Seq<usize>) -> int
    decreases counts.len(),
{
    if counts.len() == 0 {
        0
    } else {
        sum_usize(counts.drop_last()) + counts.last()
    }
}

/// A sum of counts is never negative.
pub proof fn lemma_sum_nonnegative(counts: Seq<usize>)
    ensures
        sum_usize(counts) >= 0,
    decreases counts.len(),
{
    if counts.len() > 0 {
        lemma_sum_nonnegative(counts.drop_last());
    }
}

/// A prefix of the counts never sums to more than all of them.
pub proof fn lemma_sum_prefix(counts: Seq<usize>, end: int)
    requires
        0 <= end <= counts.len(),
    ensures
        0 <= sum_usize(counts.take(end)) <= sum_usize(counts),
    decreases counts.len(),
{
    lemma_sum_nonnegative(counts.take(end));
    if end == counts.len() {
        assert(counts.take(end) =~= counts);
    } else {
        assert(counts.drop_last().take(end) =~= counts.take(end));
        lemma_sum_prefix(counts.drop_last(), end);
    }
}

/// One step of a prefix sum.
pub proof fn lemma_sum_step(counts: Seq<usize>, index: int)
    requires
        0 <= index < counts.len(),
    ensures
        sum_usize(counts.take(index + 1)) == sum_usize(counts.take(index)) + counts[index],
{
    assert(counts.take(index + 1).drop_last() =~= counts.take(index));
}

/// The sum of the counts, or `None` where it does not fit a `usize`.
pub fn checked_sum(counts: &[usize]) -> (sum: Option<usize>)
    ensures
        match sum {
            Some(total) => total == sum_usize(counts@),
            None => sum_usize(counts@) > usize::MAX,
        },
{
    let mut total: usize = 0;
    let mut index: usize = 0;
    while index < counts.len()
        invariant
            index <= counts.len(),
            total == sum_usize(counts@.take(index as int)),
        decreases counts.len() - index,
    {
        proof {
            lemma_sum_step(counts@, index as int);
            lemma_sum_prefix(counts@, index + 1);
        }
        match total.checked_add(counts[index]) {
            Some(next) => {
                total = next;
            },
            None => {
                return None;
            },
        }
        index = index + 1;
    }
    proof {
        assert(counts@.take(index as int) =~= counts@);
    }
    Some(total)
}

pub fn saturating_mul_u64(a: u64, b: u64) -> (product: u64)
    ensures
        product == saturate_u64(a * b),
{
    match a.checked_mul(b) {
        Some(product) => product,
        None => u64::MAX,
    }
}

pub fn saturating_mul_usize(a: usize, b: usize) -> (product: usize)
    ensures
        product == saturate_usize(a * b),
{
    match a.checked_mul(b) {
        Some(product) => product,
        None => usize::MAX,
    }
}

pub fn saturating_mul_u128(a: u128, b: u128) -> (product: u128)
    ensures
        product == saturate_u128(a * b),
{
    match a.checked_mul(b) {
        Some(product) => product,
        None => u128::MAX,
    }
}

pub fn saturating_add_u128(a: u128, b: u128) -> (sum: u128)
    ensures
        sum == saturate_u128(a + b),
{
    match a.checked_add(b) {
        Some(sum) => sum,
        None => u128::MAX,
    }
}

pub fn saturating_add_u64(a: u64, b: u64) -> (sum: u64)
    ensures
        sum == saturate_u64(a + b),
{
    match a.checked_add(b) {
        Some(sum) => sum,
        None => u64::MAX,
    }
}

pub fn saturating_add_usize(a: usize, b: usize) -> (sum: usize)
    ensures
        sum == saturate_usize(a + b),
{
    match a.checked_add(b) {
        Some(sum) => sum,
        None => usize::MAX,
    }
}

/// Whether `value` is a multiple of `of`; of 0 only 0 is one.
pub open spec fn multiple_of(value: int, of: int) -> bool {
    if of == 0 {
        value == 0
    } else {
        value % of == 0
    }
}

pub fn is_multiple_of(value: usize, of: usize) -> (multiple: bool)
    ensures
        multiple == multiple_of(value as int, of as int),
{
    if of == 0 {
        value == 0
    } else {
        value % of == 0
    }
}

} // verus!

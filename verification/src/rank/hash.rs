//! FNV-1a hashing of byte streams.

use vstd::arithmetic::div_mod::*;
use vstd::bytes::*;
use vstd::prelude::*;

verus! {

pub const FNV_OFFSET: u64 = 0xcbf2_9ce4_8422_2325;

pub const FNV_PRIME: u64 = 0x0000_0100_0000_01b3;

/// The hash after the bytes, starting from `hash`.
pub open spec fn fnv_extend(hash: u64, bytes: Seq<u8>) -> u64
    decreases bytes.len(),
{
    if bytes.len() == 0 {
        hash
    } else {
        (fnv_extend(hash, bytes.drop_last()) ^ (bytes.last() as u64)).wrapping_mul(FNV_PRIME)
    }
}

/// The FNV-1a hash of a byte stream.
pub open spec fn fnv(bytes: Seq<u8>) -> u64 {
    fnv_extend(FNV_OFFSET, bytes)
}

/// Hashing two streams one after the other hashes their concatenation.
pub proof fn lemma_fnv_concat(hash: u64, first: Seq<u8>, second: Seq<u8>)
    ensures
        fnv_extend(fnv_extend(hash, first), second) == fnv_extend(hash, first + second),
    decreases second.len(),
{
    if second.len() == 0 {
        assert(first + second =~= first);
    } else {
        assert((first + second).drop_last() =~= first + second.drop_last());
        lemma_fnv_concat(hash, first, second.drop_last());
    }
}

/// Multiplying by the prime loses nothing: it is odd.
proof fn lemma_prime_step(a: u64, b: u64)
    requires
        a.wrapping_mul(FNV_PRIME) == b.wrapping_mul(FNV_PRIME),
    ensures
        a == b,
{
    let all: int = 0x1_0000_0000_0000_0000;
    let prime: int = FNV_PRIME as int;
    // The prime times this is one beyond a multiple of `all`.
    let back: int = 0xce96_5057_aff6_957b;
    let over: int = 887285111055;
    assert(prime * back == over * all + 1);
    let x = a as int;
    let y = b as int;
    let p = (x * prime) / all;
    let q = (y * prime) / all;
    assert((x * prime) % all == (y * prime) % all);
    lemma_fundamental_div_mod(x * prime, all);
    lemma_fundamental_div_mod(y * prime, all);
    let gap = x - y;
    let turns = (p - q) * back - gap * over;
    assert(gap == all * turns) by (nonlinear_arith)
        requires
            x * prime - y * prime == all * p - all * q,
            prime * back == over * all + 1,
            gap == x - y,
            turns == (p - q) * back - gap * over,
    ;
    assert(turns == 0) by (nonlinear_arith)
        requires
            gap == all * turns,
            -all < gap < all,
            all > 0,
    ;
}

/// One different byte shows: streams of one length that differ in a single
/// byte have different hashes.
pub proof fn law_one_byte_shows(hash: u64, a: Seq<u8>, b: Seq<u8>, at: int)
    requires
        a.len() == b.len(),
        0 <= at < a.len(),
        a[at] != b[at],
        forall|i: int| 0 <= i < a.len() && i != at ==> a[i] == b[i],
    ensures
        fnv_extend(hash, a) != fnv_extend(hash, b),
    decreases a.len(),
{
    let before_a = fnv_extend(hash, a.drop_last());
    let before_b = fnv_extend(hash, b.drop_last());
    let last_a = a.last();
    let last_b = b.last();
    if at == a.len() - 1 {
        assert(a.drop_last() =~= b.drop_last());
    } else {
        law_one_byte_shows(hash, a.drop_last(), b.drop_last(), at);
    }
    assert(before_a != before_b || last_a != last_b);
    assert(before_a == before_b || last_a == last_b);
    let mixed_a = before_a ^ (last_a as u64);
    let mixed_b = before_b ^ (last_b as u64);
    assert(mixed_a != mixed_b) by (bit_vector)
        requires
            before_a != before_b || last_a != last_b,
            before_a == before_b || last_a == last_b,
            mixed_a == before_a ^ (last_a as u64),
            mixed_b == before_b ^ (last_b as u64),
    ;
    if mixed_a.wrapping_mul(FNV_PRIME) == mixed_b.wrapping_mul(FNV_PRIME) {
        lemma_prime_step(mixed_a, mixed_b);
    }
}

/// A hash that has consumed a known byte stream.
pub fn fnv_bytes(hash: u64, bytes: &[u8]) -> (result: u64)
    ensures
        result == fnv_extend(hash, bytes@),
{
    let mut result: u64 = hash;
    let mut index: usize = 0;
    assert(bytes@.take(0) =~= Seq::<u8>::empty());
    while index < bytes.len()
        invariant
            index <= bytes.len(),
            result == fnv_extend(hash, bytes@.take(index as int)),
        decreases bytes.len() - index,
    {
        assert(bytes@.take(index + 1).drop_last() =~= bytes@.take(index as int));
        result = (result ^ (bytes[index] as u64)).wrapping_mul(FNV_PRIME);
        index = index + 1;
    }
    assert(bytes@.take(index as int) =~= bytes@);
    result
}

/// Hashes a `u64` in little-endian order after `seen`.
pub fn fnv_u64(hash: u64, value: u64, seen: Ghost<Seq<u8>>) -> (result: u64)
    requires
        hash == fnv(seen@),
    ensures
        result == fnv(seen@ + spec_u64_to_le_bytes(value)),
{
    proof {
        lemma_fnv_concat(FNV_OFFSET, seen@, spec_u64_to_le_bytes(value));
    }
    fnv_bytes(hash, u64_to_le_bytes(value).as_slice())
}

/// Hashes a `u32` in little-endian order after `seen`.
pub fn fnv_u32(hash: u64, value: u32, seen: Ghost<Seq<u8>>) -> (result: u64)
    requires
        hash == fnv(seen@),
    ensures
        result == fnv(seen@ + spec_u32_to_le_bytes(value)),
{
    proof {
        lemma_fnv_concat(FNV_OFFSET, seen@, spec_u32_to_le_bytes(value));
    }
    fnv_bytes(hash, u32_to_le_bytes(value).as_slice())
}

/// The little-endian images of ranks, in order.
pub open spec fn ranks_bytes(ranks: Seq<u32>) -> Seq<u8>
    decreases ranks.len(),
{
    if ranks.len() == 0 {
        Seq::empty()
    } else {
        ranks_bytes(ranks.drop_last()) + spec_u32_to_le_bytes(ranks.last())
    }
}

/// The lists of ranks, each behind its length.
pub open spec fn rank_lists_bytes(lists: Seq<Seq<u32>>) -> Seq<u8>
    decreases lists.len(),
{
    if lists.len() == 0 {
        Seq::empty()
    } else {
        rank_lists_bytes(lists.drop_last()) + spec_u64_to_le_bytes(lists.last().len() as u64)
            + ranks_bytes(lists.last())
    }
}

/// The little-endian images of counts, in order.
pub open spec fn words_bytes(words: Seq<usize>) -> Seq<u8>
    decreases words.len(),
{
    if words.len() == 0 {
        Seq::empty()
    } else {
        words_bytes(words.drop_last()) + spec_u64_to_le_bytes(words.last() as u64)
    }
}

/// Hashes ranks after `seen`.
pub fn fnv_ranks(hash: u64, ranks: &[u32], seen: Ghost<Seq<u8>>) -> (result: u64)
    requires
        hash == fnv(seen@),
    ensures
        result == fnv(seen@ + ranks_bytes(ranks@)),
{
    let mut result: u64 = hash;
    let mut index: usize = 0;
    assert(seen@ + ranks_bytes(ranks@.take(0)) =~= seen@);
    while index < ranks.len()
        invariant
            index <= ranks.len(),
            result == fnv(seen@ + ranks_bytes(ranks@.take(index as int))),
        decreases ranks.len() - index,
    {
        let ghost done = seen@ + ranks_bytes(ranks@.take(index as int));
        result = fnv_u32(result, ranks[index], Ghost(done));
        proof {
            assert(ranks@.take(index + 1).drop_last() =~= ranks@.take(index as int));
            assert(done + spec_u32_to_le_bytes(ranks@[index as int]) =~= seen@ + ranks_bytes(
                ranks@.take(index + 1),
            ));
        }
        index = index + 1;
    }
    assert(ranks@.take(index as int) =~= ranks@);
    result
}

/// Hashes a list of ranks behind its length, after `seen`.
pub fn fnv_rank_list(hash: u64, ranks: &[u32], seen: Ghost<Seq<u8>>) -> (result: u64)
    requires
        hash == fnv(seen@),
    ensures
        result == fnv(seen@ + spec_u64_to_le_bytes(ranks@.len() as u64) + ranks_bytes(ranks@)),
{
    let length: u64 = ranks.len() as u64;
    let counted: u64 = fnv_u64(hash, length, seen);
    fnv_ranks(counted, ranks, Ghost(seen@ + spec_u64_to_le_bytes(length)))
}

/// Hashes counts after `seen`.
pub fn fnv_words(hash: u64, words: &[usize], seen: Ghost<Seq<u8>>) -> (result: u64)
    requires
        hash == fnv(seen@),
    ensures
        result == fnv(seen@ + words_bytes(words@)),
{
    let mut result: u64 = hash;
    let mut index: usize = 0;
    assert(seen@ + words_bytes(words@.take(0)) =~= seen@);
    while index < words.len()
        invariant
            index <= words.len(),
            result == fnv(seen@ + words_bytes(words@.take(index as int))),
        decreases words.len() - index,
    {
        let ghost done = seen@ + words_bytes(words@.take(index as int));
        result = fnv_u64(result, words[index] as u64, Ghost(done));
        proof {
            assert(words@.take(index + 1).drop_last() =~= words@.take(index as int));
            assert(done + spec_u64_to_le_bytes(words@[index as int] as u64) =~= seen@ + words_bytes(
                words@.take(index + 1),
            ));
        }
        index = index + 1;
    }
    assert(words@.take(index as int) =~= words@);
    result
}

} // verus!

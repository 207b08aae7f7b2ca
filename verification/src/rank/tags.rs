//! Tags of internal messages and of agreements.

use crate::rank::hash::{
    fnv, fnv_rank_list, fnv_u32, fnv_u64, fnv_words, rank_lists_bytes, words_bytes, FNV_OFFSET,
};
use crate::rank::layout::rank_lists;
use crate::rank::network::ExchangeOptions;
use vstd::bytes::*;
use vstd::prelude::*;

verus! {

pub const INTERNAL_RING_TAG_PREFIX: u64 = 0x4758_0000_0000_0000;

pub const INTERNAL_HIERARCHY_TAG_PREFIX: u64 = 0x4759_0000_0000_0000;

pub fn reduction_exchange_options(root_rank: u32, element_count: usize, operation: u32) -> (options:
    ExchangeOptions)
    ensures
        options == (ExchangeOptions {
            root_rank,
            element_count: element_count as u64,
            flags: 0,
            tag: (operation + 1) as u64,
        }),
{
    ExchangeOptions {
        root_rank,
        element_count: element_count as u64,
        flags: 0,
        tag: operation as u64 + 1,
    }
}

/// What the ranks agree on before a collective: the operation's number, its
/// length, kind and channels, the rank lists it runs over and the channels'
/// rails.
pub open spec fn agreement_bytes(
    operation: u64,
    length: u64,
    rank_lists: Seq<Seq<u32>>,
    discriminator: u32,
    channels: u64,
    channel_rails: Seq<usize>,
) -> Seq<u8> {
    spec_u64_to_le_bytes(operation) + spec_u64_to_le_bytes(length) + spec_u32_to_le_bytes(
        discriminator,
    ) + spec_u64_to_le_bytes(channels) + rank_lists_bytes(rank_lists) + words_bytes(channel_rails)
}

/// The slices' members, as sequences.
pub open spec fn slices(rings: Seq<&[u32]>) -> Seq<Seq<u32>> {
    Seq::new(rings.len(), |i: int| rings[i]@)
}

fn agreement_preamble(operation: u64, length: u64, discriminator: u32, channels: u64) -> (hash: u64)
    ensures
        hash == fnv(
            spec_u64_to_le_bytes(operation) + spec_u64_to_le_bytes(length) + spec_u32_to_le_bytes(
                discriminator,
            ) + spec_u64_to_le_bytes(channels),
        ),
{
    let ghost start = Seq::<u8>::empty();
    let first: u64 = fnv_u64(FNV_OFFSET, operation, Ghost(start));
    assert(start + spec_u64_to_le_bytes(operation) =~= spec_u64_to_le_bytes(operation));
    let ghost one = spec_u64_to_le_bytes(operation);
    let second: u64 = fnv_u64(first, length, Ghost(one));
    let ghost two = one + spec_u64_to_le_bytes(length);
    let third: u64 = fnv_u32(second, discriminator, Ghost(two));
    fnv_u64(third, channels, Ghost(two + spec_u32_to_le_bytes(discriminator)))
}

pub fn ring_agreement_tag(
    operation: u64,
    length: usize,
    rings: &[&[u32]],
    discriminator: u32,
    channels: usize,
    channel_rails: &[usize],
) -> (tag: u64)
    ensures
        tag == fnv(
            agreement_bytes(
                operation,
                length as u64,
                slices(rings@),
                discriminator,
                channels as u64,
                channel_rails@,
            ),
        ),
{
    let mut hash: u64 = agreement_preamble(
        operation,
        length as u64,
        discriminator,
        channels as u64,
    );
    let ghost preamble = spec_u64_to_le_bytes(operation) + spec_u64_to_le_bytes(length as u64)
        + spec_u32_to_le_bytes(discriminator) + spec_u64_to_le_bytes(channels as u64);
    let ghost model = slices(rings@);
    let mut index: usize = 0;
    assert(preamble + rank_lists_bytes(model.take(0)) =~= preamble);
    while index < rings.len()
        invariant
            index <= rings.len(),
            model == slices(rings@),
            hash == fnv(preamble + rank_lists_bytes(model.take(index as int))),
        decreases rings.len() - index,
    {
        let ghost done = preamble + rank_lists_bytes(model.take(index as int));
        hash = fnv_rank_list(hash, rings[index], Ghost(done));
        proof {
            assert(model.take(index + 1).drop_last() =~= model.take(index as int));
            assert(model.take(index + 1).last() == rings@[index as int]@);
            assert(done + spec_u64_to_le_bytes(rings@[index as int]@.len() as u64)
                + crate::rank::hash::ranks_bytes(rings@[index as int]@) =~= preamble
                + rank_lists_bytes(model.take(index + 1)));
        }
        index = index + 1;
    }
    assert(model.take(index as int) =~= model);
    fnv_words(hash, channel_rails, Ghost(preamble + rank_lists_bytes(model)))
}

/// The tag of one ring message: the operation, the phase, the channel and the
/// step, each in a field of its own.
pub open spec fn ring_tag(operation: u64, phase: u64, channel: u64, step: u64) -> u64 {
    INTERNAL_RING_TAG_PREFIX | ((operation & 0x00ff_ffff) << 24u64) | ((phase & 0x0f) << 20u64) | ((
    channel & 0xff) << 12u64) | (step & 0x0fff)
}

pub fn ring_data_tag(operation: u64, phase: u64, channel: usize, step: usize) -> (tag: u64)
    ensures
        tag == ring_tag(operation, phase, channel as u64, step as u64),
{
    INTERNAL_RING_TAG_PREFIX | ((operation & 0x00ff_ffff) << 24u64) | ((phase & 0x0f) << 20u64) | ((
    channel as u64 & 0xff) << 12u64) | (step as u64 & 0x0fff)
}

/// The fields of a ring tag can be read back: two ring tags are equal exactly
/// where the low bits of operation, phase, channel and step are.
pub proof fn law_ring_tag_fields(
    operation: u64,
    phase: u64,
    channel: u64,
    step: u64,
    other_operation: u64,
    other_phase: u64,
    other_channel: u64,
    other_step: u64,
)
    ensures
        ring_tag(operation, phase, channel, step) >> 48u64 == 0x4758,
        ring_tag(operation, phase, channel, step) == ring_tag(
            other_operation,
            other_phase,
            other_channel,
            other_step,
        ) <==> (operation % 0x100_0000 == other_operation % 0x100_0000 && phase % 0x10
            == other_phase % 0x10 && channel % 0x100 == other_channel % 0x100 && step % 0x1000
            == other_step % 0x1000),
{
    let p: u64 = INTERNAL_RING_TAG_PREFIX;
    assert((p | ((operation & 0x00ff_ffff) << 24u64) | ((phase & 0x0f) << 20u64) | ((channel & 0xff)
        << 12u64) | (step & 0x0fff)) >> 48u64 == 0x4758) by (bit_vector)
        requires
            p == 0x4758_0000_0000_0000u64,
    ;
    assert((p | ((operation & 0x00ff_ffff) << 24u64) | ((phase & 0x0f) << 20u64) | ((channel & 0xff)
        << 12u64) | (step & 0x0fff)) == (p | ((other_operation & 0x00ff_ffff) << 24u64) | ((
    other_phase & 0x0f) << 20u64) | ((other_channel & 0xff) << 12u64) | (other_step & 0x0fff))
        <==> (operation % 0x100_0000 == other_operation % 0x100_0000 && phase % 0x10 == other_phase
        % 0x10 && channel % 0x100 == other_channel % 0x100 && step % 0x1000 == other_step % 0x1000))
        by (bit_vector)
        requires
            p == 0x4758_0000_0000_0000u64,
    ;
}

pub fn hierarchy_agreement_tag(
    operation: u64,
    length: usize,
    groups: &[Vec<u32>],
    discriminator: u32,
    ring_channels: usize,
    channel_rails: &[usize],
) -> (tag: u64)
    ensures
        tag == fnv(
            agreement_bytes(
                operation,
                length as u64,
                rank_lists(groups@),
                discriminator,
                ring_channels as u64,
                channel_rails@,
            ),
        ),
{
    let mut hash: u64 = agreement_preamble(
        operation,
        length as u64,
        discriminator,
        ring_channels as u64,
    );
    let ghost preamble = spec_u64_to_le_bytes(operation) + spec_u64_to_le_bytes(length as u64)
        + spec_u32_to_le_bytes(discriminator) + spec_u64_to_le_bytes(ring_channels as u64);
    let ghost model = rank_lists(groups@);
    let mut index: usize = 0;
    assert(preamble + rank_lists_bytes(model.take(0)) =~= preamble);
    while index < groups.len()
        invariant
            index <= groups.len(),
            model == rank_lists(groups@),
            hash == fnv(preamble + rank_lists_bytes(model.take(index as int))),
        decreases groups.len() - index,
    {
        let ghost done = preamble + rank_lists_bytes(model.take(index as int));
        hash = fnv_rank_list(hash, groups[index].as_slice(), Ghost(done));
        proof {
            assert(model.take(index + 1).drop_last() =~= model.take(index as int));
            assert(model.take(index + 1).last() == groups@[index as int]@);
            assert(done + spec_u64_to_le_bytes(groups@[index as int]@.len() as u64)
                + crate::rank::hash::ranks_bytes(groups@[index as int]@) =~= preamble
                + rank_lists_bytes(model.take(index + 1)));
        }
        index = index + 1;
    }
    assert(model.take(index as int) =~= model);
    fnv_words(hash, channel_rails, Ghost(preamble + rank_lists_bytes(model)))
}

/// A hash under the prefix of hierarchical messages.
pub open spec fn hierarchy_tag(hash: u64) -> u64 {
    INTERNAL_HIERARCHY_TAG_PREFIX | (hash & 0x0000_ffff_ffff_ffff)
}

/// A hierarchical tag always carries its prefix, so it is never a ring tag.
pub proof fn law_hierarchy_tags_are_apart(
    hash: u64,
    operation: u64,
    phase: u64,
    channel: u64,
    step: u64,
)
    ensures
        hierarchy_tag(hash) >> 48u64 == 0x4759,
        hierarchy_tag(hash) != ring_tag(operation, phase, channel, step),
{
    let p: u64 = INTERNAL_HIERARCHY_TAG_PREFIX;
    assert((p | (hash & 0x0000_ffff_ffff_ffff)) >> 48u64 == 0x4759) by (bit_vector)
        requires
            p == 0x4759_0000_0000_0000u64,
    ;
    law_ring_tag_fields(operation, phase, channel, step, operation, phase, channel, step);
}

pub fn hierarchy_data_tag(operation: u64, phase: u32, index: u32) -> (tag: u64)
    ensures
        tag == hierarchy_tag(
            fnv(
                spec_u64_to_le_bytes(operation) + spec_u32_to_le_bytes(phase)
                    + spec_u32_to_le_bytes(index),
            ),
        ),
{
    let ghost start = Seq::<u8>::empty();
    let first: u64 = fnv_u64(FNV_OFFSET, operation, Ghost(start));
    assert(start + spec_u64_to_le_bytes(operation) =~= spec_u64_to_le_bytes(operation));
    let ghost one = spec_u64_to_le_bytes(operation);
    let second: u64 = fnv_u32(first, phase, Ghost(one));
    let hash: u64 = fnv_u32(second, index, Ghost(one + spec_u32_to_le_bytes(phase)));
    INTERNAL_HIERARCHY_TAG_PREFIX | (hash & 0x0000_ffff_ffff_ffff)
}

pub fn hierarchy_ring_data_tag(operation: u64, phase: u32, channel: usize, step: usize) -> (tag:
    u64)
    ensures
        tag == hierarchy_tag(
            fnv(
                spec_u64_to_le_bytes(operation) + spec_u32_to_le_bytes(phase)
                    + spec_u64_to_le_bytes(channel as u64) + spec_u64_to_le_bytes(step as u64),
            ),
        ),
{
    let ghost start = Seq::<u8>::empty();
    let first: u64 = fnv_u64(FNV_OFFSET, operation, Ghost(start));
    assert(start + spec_u64_to_le_bytes(operation) =~= spec_u64_to_le_bytes(operation));
    let ghost one = spec_u64_to_le_bytes(operation);
    let second: u64 = fnv_u32(first, phase, Ghost(one));
    let ghost two = one + spec_u32_to_le_bytes(phase);
    let third: u64 = fnv_u64(second, channel as u64, Ghost(two));
    let hash: u64 = fnv_u64(
        third,
        step as u64,
        Ghost(two + spec_u64_to_le_bytes(channel as u64)),
    );
    INTERNAL_HIERARCHY_TAG_PREFIX | (hash & 0x0000_ffff_ffff_ffff)
}

} // verus!

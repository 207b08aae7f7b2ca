//! Session identities.

use vstd::bytes::*;
use vstd::prelude::*;

verus! {

/// Identity of one collective session.
#[derive(Debug, Clone, Copy, PartialEq, Eq, Hash)]
pub struct UniqueId(pub [u8; 16]);

/// The identity drawn from a counter, a clock and a process number.
pub open spec fn mixed_identity(counter: u64, nanoseconds: u128, process: u32) -> u128 {
    nanoseconds ^ ((counter as u128) << 64u128) ^ ((process as u128) << 32u128)
}

impl UniqueId {
    /// The identity made of a per-process counter, the wall clock and the
    /// process number.
    pub fn from_parts(counter: u64, nanoseconds: u128, process: u32) -> (id: Self)
        ensures
            id.0@ == spec_u128_to_le_bytes(mixed_identity(counter, nanoseconds, process)),
    {
        let mixed: u128 = nanoseconds ^ ((counter as u128) << 64u128) ^ ((process as u128)
            << 32u128);
        let bytes = u128_to_le_bytes(mixed);
        proof {
            lemma_auto_spec_u128_to_from_le_bytes();
        }
        UniqueId(array_16(bytes.as_slice(), 0))
    }

    pub fn from_bytes(bytes: [u8; 16]) -> (id: Self)
        ensures
            id.0 == bytes,
    {
        UniqueId(bytes)
    }

    pub fn as_bytes(&self) -> (bytes: &[u8; 16])
        ensures
            *bytes == self.0,
    {
        &self.0
    }

    /// Whether both identities hold the same bytes.
    pub fn same(&self, other: &UniqueId) -> (same: bool)
        ensures
            same == (*self == *other),
    {
        let mut index: usize = 0;
        while index < 16
            invariant
                index <= 16,
                forall|i: int| 0 <= i < index ==> self.0@[i] == other.0@[i],
            decreases 16 - index,
        {
            if self.0[index] != other.0[index] {
                return false;
            }
            index = index + 1;
        }
        assert(self.0@ =~= other.0@);
        assert(self.0 =~= other.0);
        true
    }
}

/// Sixteen bytes of a slice from `offset` on.
pub fn array_16(bytes: &[u8], offset: usize) -> (result: [u8; 16])
    requires
        offset + 16 <= bytes.len(),
    ensures
        result@ == bytes@.subrange(offset as int, offset + 16),
{
    let mut result: [u8; 16] = [0;16];
    let mut index: usize = 0;
    while index < 16
        invariant
            index <= 16,
            offset + 16 <= bytes.len(),
            forall|i: int| 0 <= i < index ==> result@[i] == bytes@[offset + i],
        decreases 16 - index,
    {
        result[index] = bytes[offset + index];
        index = index + 1;
    }
    assert(result@ =~= bytes@.subrange(offset as int, offset + 16));
    result
}

} // verus!

//! Payload lengths and count prefixes.

use crate::math::sum_usize;
use crate::rank::error::{raised, RankError, RankFailure};
use crate::rank::network::{NetworkError, NetworkFailure};
use crate::rank::protocol::frame::FrameModel;
use crate::rank::protocol::header::{extend, get_u64};
use crate::rank::protocol::{ElementType, Frame, FLAG_COUNTS_PREFIX};
use crate::text::{decimal, push_decimal, push_usize};
use vstd::bytes::*;
use vstd::prelude::*;
use vstd::slice::*;
use vstd::string::*;

verus! {

/// A length other than the expected one, as text.
pub open spec fn length_mismatch(what: Seq<char>, actual: nat, expected: nat) -> Seq<char> {
    what + " has "@ + decimal(actual) + " bytes, expected "@ + decimal(expected)
}

/// A length other than the expected one, as an error.
pub fn length_error(what: &str, actual: usize, expected: usize) -> (error: NetworkError)
    ensures
        error@ == NetworkFailure::InvalidConfiguration(
            length_mismatch(what@, actual as nat, expected as nat),
        ),
{
    let mut text = String::from_str(what);
    text.append(" has ");
    push_usize(&mut text, actual);
    text.append(" bytes, expected ");
    push_usize(&mut text, expected);
    NetworkError::InvalidConfiguration(text)
}

pub fn validate_host_reduction_payload(
    element_type: ElementType,
    element_count: usize,
    payload: &[u8],
) -> (result: Result<usize, RankError>)
    ensures
        match result {
            Ok(bytes) => {
                &&& element_type.width() > 0
                &&& bytes == element_count * element_type.width()
                &&& bytes == payload@.len()
            },
            Err(error) => if element_type.width() == 0 {
                error@ == RankFailure::InvalidLength(
                    "host reduction requires a tensor element type"@,
                )
            } else if element_count * element_type.width() > usize::MAX {
                error@ == RankFailure::Overflow("host reduction payload bytes"@)
            } else {
                &&& payload@.len() != element_count * element_type.width()
                &&& error@ == RankFailure::Network(
                    NetworkFailure::InvalidConfiguration(
                        length_mismatch(
                            "host reduction payload"@,
                            payload@.len(),
                            (element_count * element_type.width()) as nat,
                        ),
                    ),
                )
            },
        },
{
    let element_bytes: usize = element_type.byte_width();
    if element_bytes == 0 {
        return Err(RankError::InvalidLength("host reduction requires a tensor element type"));
    }
    let expected: usize = match element_count.checked_mul(element_bytes) {
        Some(expected) => expected,
        None => {
            return Err(RankError::Overflow("host reduction payload bytes"));
        },
    };
    if payload.len() != expected {
        return Err(
            RankError::Network(length_error("host reduction payload", payload.len(), expected)),
        );
    }
    Ok(expected)
}

pub fn validate_host_reduction_response(operation: &str, payload: &[u8], expected: usize) -> (result:
    Result<(), RankError>)
    ensures
        match result {
            Ok(()) => payload@.len() == expected,
            Err(error) => {
                &&& payload@.len() != expected
                &&& error@ == RankFailure::Network(
                    NetworkFailure::InvalidConfiguration(
                        length_mismatch(
                            "host "@ + operation@ + " response"@,
                            payload@.len(),
                            expected as nat,
                        ),
                    ),
                )
            },
        },
{
    if payload.len() != expected {
        let mut what = String::from_str("host ");
        what.append(operation);
        what.append(" response");
        return Err(RankError::Network(length_error(what.as_str(), payload.len(), expected)));
    }
    Ok(())
}

/// Hands a payload of the expected length to its decoder.
pub fn decode_exact<T, E: From<RankError>>(
    payload: &[u8],
    expected_elements: usize,
    element_bytes: usize,
    decode: impl FnOnce(&[u8]) -> Result<Vec<T>, E>,
) -> (result: Result<Vec<T>, E>)
    requires
        payload@.len() == expected_elements * element_bytes ==> call_requires(decode, (payload,)),
    ensures
        if expected_elements * element_bytes > usize::MAX {
            &&& result is Err
            &&& raised(RankError::Overflow("TCP decoded payload bytes"), result->Err_0)
        } else if payload@.len() != expected_elements * element_bytes {
            &&& result is Err
            &&& exists|error: RankError|
                #![trigger error@]
                error@ == RankFailure::Network(
                    NetworkFailure::InvalidConfiguration(
                        length_mismatch(
                            "TCP response"@,
                            payload@.len(),
                            (expected_elements * element_bytes) as nat,
                        ),
                    ),
                ) && raised(error, result->Err_0)
        } else {
            call_ensures(decode, (payload,), result)
        },
{
    let expected_bytes: usize = match expected_elements.checked_mul(element_bytes) {
        Some(expected_bytes) => expected_bytes,
        None => {
            return Err(E::from(RankError::Overflow("TCP decoded payload bytes")));
        },
    };
    if payload.len() != expected_bytes {
        let error = RankError::Network(length_error("TCP response", payload.len(), expected_bytes));
        let ghost original = error;
        let converted = E::from(error);
        assert(original@ == RankFailure::Network(
            NetworkFailure::InvalidConfiguration(
                length_mismatch("TCP response"@, payload@.len(), expected_bytes as nat),
            ),
        ));
        assert(raised(original, converted));
        return Err(converted);
    }
    decode(payload)
}

/// The little-endian images of counts, eight bytes each.
pub open spec fn counts_bytes(counts: Seq<usize>) -> Seq<u8>
    decreases counts.len(),
{
    if counts.len() == 0 {
        Seq::empty()
    } else {
        counts_bytes(counts.drop_last()) + spec_u64_to_le_bytes(counts.last() as u64)
    }
}

/// The count in slot `index` of a prefix.
pub open spec fn count_at(bytes: Seq<u8>, index: int) -> u64 {
    spec_u64_from_le_bytes(bytes.subrange(8 * index, 8 * index + 8))
}

/// Encoded counts take eight bytes each and are read back slot by slot.
pub proof fn law_counts_round_trip(counts: Seq<usize>, rest: Seq<u8>)
    ensures
        counts_bytes(counts).len() == 8 * counts.len(),
        forall|i: int|
            0 <= i < counts.len() ==> #[trigger] count_at(counts_bytes(counts) + rest, i)
                == counts[i],
    decreases counts.len(),
{
    lemma_auto_spec_u64_to_from_le_bytes();
    if counts.len() > 0 {
        let head = counts.drop_last();
        let image = spec_u64_to_le_bytes(counts.last() as u64);
        law_counts_round_trip(head, image + rest);
        assert(counts_bytes(counts) + rest =~= counts_bytes(head) + (image + rest));
        let whole = counts_bytes(counts) + rest;
        assert(whole.subrange(8 * (counts.len() - 1), 8 * (counts.len() - 1) + 8) =~= image);
        assert forall|i: int| 0 <= i < counts.len() implies #[trigger] count_at(whole, i)
            == counts[i] by {
            if i < counts.len() - 1 {
                assert(head[i] == counts[i]);
            }
        }
    }
}

/// A count always fits its eight bytes: encoding never fails.
pub fn encode_counts(counts: &[usize]) -> (result: Result<Vec<u8>, RankError>)
    ensures
        result is Ok,
        result->Ok_0@ == counts_bytes(counts@),
{
    let mut encoded: Vec<u8> = Vec::new();
    let mut index: usize = 0;
    while index < counts.len()
        invariant
            index <= counts.len(),
            encoded@ == counts_bytes(counts@.take(index as int)),
        decreases counts.len() - index,
    {
        assert(counts@.take(index + 1).drop_last() =~= counts@.take(index as int));
        extend(&mut encoded, u64_to_le_bytes(counts[index] as u64).as_slice());
        index = index + 1;
    }
    assert(counts@.take(index as int) =~= counts@);
    Ok(encoded)
}

/// The counts that a prefix of `world_size` slots holds.
pub open spec fn prefix_counts(payload: Seq<u8>, world_size: int) -> Seq<int> {
    Seq::new(world_size as nat, |i: int| count_at(payload, i) as int)
}

pub open spec fn sum_int(values: Seq<int>) -> int
    decreases values.len(),
{
    if values.len() == 0 {
        0
    } else {
        sum_int(values.drop_last()) + values.last()
    }
}

/// Why a variable exchange's response is refused, if it is.
pub open spec fn counts_defect(frame: FrameModel, world_size: int, element_bytes: int) -> Option<
    RankFailure,
> {
    let counts = prefix_counts(frame.payload, world_size);
    let data = frame.payload.len() - 8 * world_size;
    if !frame.header.has_counts_prefix() {
        Some(
            RankFailure::Network(
                NetworkFailure::InvalidConfiguration("TCP all-to-all-v response is missing counts"@),
            ),
        )
    } else if 8 * world_size > usize::MAX {
        Some(RankFailure::Overflow("TCP all-to-all-v counts prefix"@))
    } else if frame.payload.len() < 8 * world_size {
        Some(
            RankFailure::Network(
                NetworkFailure::InvalidConfiguration("TCP all-to-all-v counts prefix is truncated"@),
            ),
        )
    } else if sum_int(counts) > usize::MAX {
        Some(RankFailure::Overflow("TCP all-to-all-v receive count"@))
    } else if sum_int(counts) != frame.header.element_count {
        Some(
            RankFailure::Network(
                NetworkFailure::InvalidConfiguration(
                    "TCP all-to-all-v counts sum to "@ + decimal(sum_int(counts) as nat)
                        + ", header declares "@ + decimal(frame.header.element_count as nat),
                ),
            ),
        )
    } else if sum_int(counts) * element_bytes > usize::MAX {
        Some(RankFailure::Overflow("TCP all-to-all-v data"@))
    } else if data != sum_int(counts) * element_bytes {
        Some(
            RankFailure::Network(
                NetworkFailure::InvalidConfiguration(
                    length_mismatch(
                        "TCP all-to-all-v data"@,
                        data as nat,
                        (sum_int(counts) * element_bytes) as nat,
                    ),
                ),
            ),
        )
    } else {
        None
    }
}

proof fn lemma_sum_int_prefix(values: Seq<int>, end: int)
    requires
        0 <= end <= values.len(),
        forall|i: int| 0 <= i < values.len() ==> values[i] >= 0,
    ensures
        0 <= sum_int(values.take(end)) <= sum_int(values),
    decreases values.len(),
{
    if values.len() == 0 {
        assert(values.take(end) =~= values);
    } else if end == values.len() {
        assert(values.take(end) =~= values);
        lemma_sum_int_prefix(values.drop_last(), end - 1);
    } else {
        assert(values.drop_last().take(end) =~= values.take(end));
        lemma_sum_int_prefix(values.drop_last(), end);
    }
}

proof fn lemma_sum_int_step(values: Seq<int>, index: int)
    requires
        0 <= index < values.len(),
    ensures
        sum_int(values.take(index + 1)) == sum_int(values.take(index)) + values[index],
{
    assert(values.take(index + 1).drop_last() =~= values.take(index));
}

pub fn decode_counts_response(response: &Frame, world_size: usize, element_bytes: usize) -> (result:
    Result<(Vec<usize>, &[u8]), RankError>)
    ensures
        match counts_defect(response@, world_size as int, element_bytes as int) {
            Some(defect) => result is Err && result->Err_0@ == defect,
            None => {
                &&& result is Ok
                &&& result->Ok_0.0@.len() == world_size
                &&& forall|i: int|
                    0 <= i < world_size ==> #[trigger] result->Ok_0.0@[i] == count_at(
                        response.payload@,
                        i,
                    )
                &&& result->Ok_0.1@ == response.payload@.skip(8 * world_size)
                &&& sum_usize(result->Ok_0.0@) == response.header.element_count
                &&& result->Ok_0.1@.len() == response.header.element_count * element_bytes
            },
        },
{
    if response.header.flags & FLAG_COUNTS_PREFIX == 0 {
        return Err(
            RankError::Network(NetworkError::invalid("TCP all-to-all-v response is missing counts")),
        );
    }
    let prefix_bytes: usize = match world_size.checked_mul(8) {
        Some(prefix_bytes) => prefix_bytes,
        None => {
            return Err(RankError::Overflow("TCP all-to-all-v counts prefix"));
        },
    };
    if response.payload.len() < prefix_bytes {
        return Err(
            RankError::Network(NetworkError::invalid("TCP all-to-all-v counts prefix is truncated")),
        );
    }
    let ghost wanted = prefix_counts(response.payload@, world_size as int);
    let mut counts: Vec<usize> = Vec::new();
    let mut total: usize = 0;
    let mut index: usize = 0;
    while index < world_size
        invariant
            index <= world_size,
            prefix_bytes == 8 * world_size,
            prefix_bytes <= response.payload@.len(),
            response.header.has_counts_prefix(),
            wanted == prefix_counts(response.payload@, world_size as int),
            counts@.len() == index,
            forall|i: int| 0 <= i < index ==> #[trigger] counts@[i] == wanted[i],
            total == sum_int(wanted.take(index as int)),
            total == sum_usize(counts@),
        decreases world_size - index,
    {
        let count: u64 = get_u64(response.payload.as_slice(), 8 * index);
        assert(count == wanted[index as int]);
        proof {
            lemma_sum_int_step(wanted, index as int);
            lemma_sum_int_prefix(wanted, index + 1);
            lemma_sum_int_prefix(wanted, index as int);
        }
        if count > usize::MAX as u64 {
            return Err(RankError::Overflow("TCP all-to-all-v receive count"));
        }
        match total.checked_add(count as usize) {
            Some(next) => {
                total = next;
            },
            None => {
                return Err(RankError::Overflow("TCP all-to-all-v receive count"));
            },
        }
        let ghost before = counts@;
        counts.push(count as usize);
        assert(counts@.drop_last() =~= before);
        index = index + 1;
    }
    assert(wanted.take(index as int) =~= wanted);
    if total as u64 != response.header.element_count {
        let mut text = String::from_str("TCP all-to-all-v counts sum to ");
        push_usize(&mut text, total);
        text.append(", header declares ");
        push_decimal(&mut text, response.header.element_count);
        return Err(RankError::Network(NetworkError::InvalidConfiguration(text)));
    }
    let data = slice_subrange(response.payload.as_slice(), prefix_bytes, response.payload.len());
    assert(data@ =~= response.payload@.skip(8 * world_size));
    let expected: usize = match total.checked_mul(element_bytes) {
        Some(expected) => expected,
        None => {
            return Err(RankError::Overflow("TCP all-to-all-v data"));
        },
    };
    if data.len() != expected {
        return Err(
            RankError::Network(length_error("TCP all-to-all-v data", data.len(), expected)),
        );
    }
    Ok((counts, data))
}

} // verus!

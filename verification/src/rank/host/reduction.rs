//! Reductions that the host computes itself.

use crate::rank::operation::ReductionOperation;
use crate::rank::protocol::ElementType;
use crate::text::{decimal, push_usize};
use vstd::arithmetic::div_mod::*;
use vstd::arithmetic::mul::*;
use vstd::bytes::*;
use vstd::prelude::*;
use vstd::slice::*;
use vstd::string::*;

verus! {

/// An element that the host can reduce.
pub trait HostReductionElement: Copy {
    const SIZE: usize;

    /// The elements that bytes stand for, or why they stand for none.
    closed spec fn decoded(bytes: Seq<u8>) -> Result<Seq<Self>, Seq<char>> {
        arbitrary()
    }

    /// The bytes that stand for elements.
    closed spec fn encoded(values: Seq<Self>) -> Seq<u8> {
        arbitrary()
    }

    /// What an operation makes of two elements, or why it makes nothing.
    closed spec fn combined(self, source: Self, operation: ReductionOperation) -> Result<Self, Seq<char>> {
        arbitrary()
    }

    fn decode(bytes: &[u8]) -> (result: Result<Vec<Self>, String>)
        ensures
            match Self::decoded(bytes@) {
                Ok(values) => result is Ok && result->Ok_0@ == values,
                Err(message) => result is Err && result->Err_0@ == message,
            },
            Self::SIZE > 0,
            result is Ok ==> result->Ok_0@.len() * Self::SIZE == bytes@.len(),
    ;

    fn encode(values: &[Self]) -> (bytes: Vec<u8>)
        ensures
            bytes@ == Self::encoded(values@),
            bytes@.len() == values@.len() * Self::SIZE,
            Self::decoded(bytes@) == Ok::<Seq<Self>, Seq<char>>(values@),
    ;

    fn combine(self, source: Self, operation: ReductionOperation) -> (result: Result<Self, String>)
        ensures
            match Self::combined(self, source, operation) {
                Ok(value) => result is Ok && result->Ok_0 == value,
                Err(message) => result is Err && result->Err_0@ == message,
            },
    ;
}

/// The elements that bytes of `size` each stand for.
pub open spec fn elements_of<T>(bytes: Seq<u8>, size: int, read: spec_fn(Seq<u8>) -> T) -> Seq<T> {
    Seq::new(
        (bytes.len() as int / size) as nat,
        |i: int| read(bytes.subrange(i * size, i * size + size)),
    )
}

/// The bytes of elements, one after the other.
pub open spec fn joined<T>(values: Seq<T>, write: spec_fn(T) -> Seq<u8>) -> Seq<u8>
    decreases values.len(),
{
    if values.len() == 0 {
        Seq::empty()
    } else {
        joined(values.drop_last(), write) + write(values.last())
    }
}

/// A byte count that no whole number of elements has.
pub open spec fn uneven_message(bytes: nat, size: nat) -> Seq<char> {
    "host reduction byte length "@ + decimal(bytes) + " is not divisible by "@ + decimal(size)
}

fn uneven_text(bytes: usize, size: usize) -> (text: String)
    ensures
        text@ == uneven_message(bytes as nat, size as nat),
{
    let mut text = String::from_str("host reduction byte length ");
    push_usize(&mut text, bytes);
    text.append(" is not divisible by ");
    push_usize(&mut text, size);
    text
}

proof fn lemma_elements_length(bytes: Seq<u8>, size: int)
    requires
        size > 0,
        bytes.len() as int % size == 0,
    ensures
        (bytes.len() as int / size) * size == bytes.len(),
{
    lemma_fundamental_div_mod(bytes.len() as int, size);
    lemma_mul_is_commutative(size, bytes.len() as int / size);
}

/// Elements are read back from their bytes, where each is read back from its own.
proof fn lemma_joined<T>(
    values: Seq<T>,
    size: int,
    read: spec_fn(Seq<u8>) -> T,
    write: spec_fn(T) -> Seq<u8>,
)
    requires
        size > 0,
        forall|value: T| (#[trigger] write(value)).len() == size && read(write(value)) == value,
    ensures
        joined(values, write).len() == values.len() * size,
        joined(values, write).len() as int % size == 0,
        elements_of(joined(values, write), size, read) == values,
    decreases values.len(),
{
    let bytes = joined(values, write);
    if values.len() > 0 {
        let head = values.drop_last();
        let count = head.len() as int;
        lemma_joined(head, size, read, write);
        let start = joined(head, write);
        assert(bytes.len() == count * size + size);
        assert((count + 1) * size == count * size + size) by (nonlinear_arith);
        lemma_div_multiples_vanish(values.len() as int, size);
        lemma_mod_multiples_basic(values.len() as int, size);
        lemma_div_multiples_vanish(count, size);
        lemma_mul_is_commutative(values.len() as int, size);
        lemma_mul_is_commutative(count, size);
        let found = elements_of(bytes, size, read);
        assert(found.len() == values.len());
        assert forall|i: int| 0 <= i < values.len() implies found[i] == values[i] by {
            if i == count {
                assert(bytes.subrange(i * size, i * size + size) =~= write(values.last()));
            } else {
                assert(i * size + size <= count * size) by (nonlinear_arith)
                    requires
                        i + 1 <= count,
                        size > 0,
                ;
                assert(0 <= i * size) by (nonlinear_arith)
                    requires
                        0 <= i,
                        size > 0,
                ;
                assert(bytes.subrange(i * size, i * size + size) =~= start.subrange(
                    i * size,
                    i * size + size,
                ));
                assert(elements_of(start, size, read)[i] == head[i]);
            }
        }
        assert(found =~= values);
    } else {
        lemma_small_mod(0, size as nat);
        assert(0int / size == 0) by {
            lemma_basic_div(0, size);
        }
        assert(elements_of(bytes, size, read) =~= values);
    }
}

/// The u8 that bytes stand for.
pub open spec fn read_u8() -> spec_fn(Seq<u8>) -> u8 {
    |bytes: Seq<u8>| bytes[0]
}

/// The bytes of a u8.
pub open spec fn write_u8() -> spec_fn(u8) -> Seq<u8> {
    |value: u8| seq![value]
}

/// Elements are read back from their bytes.
pub proof fn lemma_u8_lossless(values: Seq<u8>)
    ensures
        u8::encoded(values).len() == values.len() * u8::SIZE,
        u8::decoded(u8::encoded(values)) == Ok::<Seq<u8>, Seq<char>>(values),
{
    lemma_joined(values, 1, read_u8(), write_u8());
}

/// Bytes that can be read stand for as many elements as they have room for.
pub proof fn lemma_u8_length(bytes: Seq<u8>)
    ensures
        u8::decoded(bytes) is Ok ==> u8::decoded(bytes)->Ok_0.len() * u8::SIZE == bytes.len(),
{
    if bytes.len() as int % 1 == 0 {
        lemma_elements_length(bytes, 1);
    }
}

impl HostReductionElement for u8 {
    const SIZE: usize = 1;

    open spec fn decoded(bytes: Seq<u8>) -> Result<Seq<u8>, Seq<char>> {
        if bytes.len() as int % 1 != 0 {
            Err(uneven_message(bytes.len(), 1))
        } else {
            Ok(elements_of(bytes, 1, read_u8()))
        }
    }

    open spec fn encoded(values: Seq<u8>) -> Seq<u8> {
        joined(values, write_u8())
    }

    open spec fn combined(self, source: u8, operation: ReductionOperation) -> Result<
        u8,
        Seq<char>,
    > {
        Ok(
            match operation {
                ReductionOperation::Sum => self.wrapping_add(source),
                ReductionOperation::Product => self.wrapping_mul(source),
                ReductionOperation::Minimum => if source < self {
                    source
                } else {
                    self
                },
                ReductionOperation::Maximum => if source > self {
                    source
                } else {
                    self
                },
                ReductionOperation::BitAnd => self & source,
                ReductionOperation::BitOr => self | source,
                ReductionOperation::BitXor => self ^ source,
            },
        )
    }

    fn decode(bytes: &[u8]) -> (result: Result<Vec<u8>, String>) {
        proof {
            lemma_u8_length(bytes@);
        }
        if bytes.len() % 1 != 0 {
            return Err(uneven_text(bytes.len(), 1));
        }
        let limit: usize = bytes.len();
        let count: usize = limit / 1;
        let mut values: Vec<u8> = Vec::new();
        let mut index: usize = 0;
        let ghost all = elements_of(bytes@, 1, read_u8());
        while index < count
            invariant
                index <= count,
                count * 1 == limit,
                limit == bytes@.len(),
                all == elements_of(bytes@, 1, read_u8()),
                values@ == all.take(index as int),
                all.len() == count,
            decreases count - index,
        {
            let value: u8 = bytes[index];
            values.push(value);
            assert(bytes@.subrange(index * 1, index * 1 + 1)[0] == bytes@[index as int]);
            assert(values@ =~= all.take(index + 1));
            index = index + 1;
        }
        assert(all.take(count as int) =~= all);
        Ok(values)
    }

    fn encode(values: &[u8]) -> (bytes: Vec<u8>) {
        proof {
            lemma_u8_lossless(values@);
        }
        let mut bytes: Vec<u8> = Vec::new();
        let mut index: usize = 0;
        while index < values.len()
            invariant
                index <= values@.len(),
                bytes@ == joined(values@.take(index as int), write_u8()),
            decreases values.len() - index,
        {
            let ghost done = bytes@;
            assert(values@.take(index + 1).drop_last() =~= values@.take(index as int));
            bytes.push(values[index]);
            assert(bytes@ =~= done + write_u8()(values@[index as int]));
            index = index + 1;
        }
        assert(values@.take(index as int) =~= values@);
        bytes
    }

    fn combine(self, source: u8, operation: ReductionOperation) -> (result: Result<u8, String>) {
        Ok(
            match operation {
                ReductionOperation::Sum => self.wrapping_add(source),
                ReductionOperation::Product => self.wrapping_mul(source),
                ReductionOperation::Minimum => if source < self {
                    source
                } else {
                    self
                },
                ReductionOperation::Maximum => if source > self {
                    source
                } else {
                    self
                },
                ReductionOperation::BitAnd => self & source,
                ReductionOperation::BitOr => self | source,
                ReductionOperation::BitXor => self ^ source,
            },
        )
    }
}

/// The i8 that bytes stand for.
pub open spec fn read_i8() -> spec_fn(Seq<u8>) -> i8 {
    |bytes: Seq<u8>| bytes[0] as i8
}

/// The bytes of an i8.
pub open spec fn write_i8() -> spec_fn(i8) -> Seq<u8> {
    |value: i8| seq![value as u8]
}

/// Elements are read back from their bytes.
pub proof fn lemma_i8_lossless(values: Seq<i8>)
    ensures
        i8::encoded(values).len() == values.len() * i8::SIZE,
        i8::decoded(i8::encoded(values)) == Ok::<Seq<i8>, Seq<char>>(values),
{
    assert forall|value: i8|
        (#[trigger] write_i8()(value)).len() == 1 && read_i8()(write_i8()(value))
            == value by {
        assert((value as u8) as i8 == value) by (bit_vector);
    }
    lemma_joined(values, 1, read_i8(), write_i8());
}

/// Bytes that can be read stand for as many elements as they have room for.
pub proof fn lemma_i8_length(bytes: Seq<u8>)
    ensures
        i8::decoded(bytes) is Ok ==> i8::decoded(bytes)->Ok_0.len() * i8::SIZE == bytes.len(),
{
    if bytes.len() as int % 1 == 0 {
        lemma_elements_length(bytes, 1);
    }
}

impl HostReductionElement for i8 {
    const SIZE: usize = 1;

    open spec fn decoded(bytes: Seq<u8>) -> Result<Seq<i8>, Seq<char>> {
        if bytes.len() as int % 1 != 0 {
            Err(uneven_message(bytes.len(), 1))
        } else {
            Ok(elements_of(bytes, 1, read_i8()))
        }
    }

    open spec fn encoded(values: Seq<i8>) -> Seq<u8> {
        joined(values, write_i8())
    }

    open spec fn combined(self, source: i8, operation: ReductionOperation) -> Result<
        i8,
        Seq<char>,
    > {
        Ok(
            match operation {
                ReductionOperation::Sum => self.wrapping_add(source),
                ReductionOperation::Product => self.wrapping_mul(source),
                ReductionOperation::Minimum => if source < self {
                    source
                } else {
                    self
                },
                ReductionOperation::Maximum => if source > self {
                    source
                } else {
                    self
                },
                ReductionOperation::BitAnd => self & source,
                ReductionOperation::BitOr => self | source,
                ReductionOperation::BitXor => self ^ source,
            },
        )
    }

    fn decode(bytes: &[u8]) -> (result: Result<Vec<i8>, String>) {
        proof {
            lemma_i8_length(bytes@);
        }
        if bytes.len() % 1 != 0 {
            return Err(uneven_text(bytes.len(), 1));
        }
        let limit: usize = bytes.len();
        let count: usize = limit / 1;
        let mut values: Vec<i8> = Vec::new();
        let mut index: usize = 0;
        let ghost all = elements_of(bytes@, 1, read_i8());
        while index < count
            invariant
                index <= count,
                count * 1 == limit,
                limit == bytes@.len(),
                all == elements_of(bytes@, 1, read_i8()),
                values@ == all.take(index as int),
                all.len() == count,
            decreases count - index,
        {
            let value: i8 = bytes[index] as i8;
            values.push(value);
            assert(bytes@.subrange(index * 1, index * 1 + 1)[0] == bytes@[index as int]);
            assert(values@ =~= all.take(index + 1));
            index = index + 1;
        }
        assert(all.take(count as int) =~= all);
        Ok(values)
    }

    fn encode(values: &[i8]) -> (bytes: Vec<u8>) {
        proof {
            lemma_i8_lossless(values@);
        }
        let mut bytes: Vec<u8> = Vec::new();
        let mut index: usize = 0;
        while index < values.len()
            invariant
                index <= values@.len(),
                bytes@ == joined(values@.take(index as int), write_i8()),
            decreases values.len() - index,
        {
            let ghost done = bytes@;
            assert(values@.take(index + 1).drop_last() =~= values@.take(index as int));
            bytes.push(values[index] as u8);
            assert(bytes@ =~= done + write_i8()(values@[index as int]));
            index = index + 1;
        }
        assert(values@.take(index as int) =~= values@);
        bytes
    }

    fn combine(self, source: i8, operation: ReductionOperation) -> (result: Result<i8, String>) {
        Ok(
            match operation {
                ReductionOperation::Sum => self.wrapping_add(source),
                ReductionOperation::Product => self.wrapping_mul(source),
                ReductionOperation::Minimum => if source < self {
                    source
                } else {
                    self
                },
                ReductionOperation::Maximum => if source > self {
                    source
                } else {
                    self
                },
                ReductionOperation::BitAnd => self & source,
                ReductionOperation::BitOr => self | source,
                ReductionOperation::BitXor => self ^ source,
            },
        )
    }
}

/// The u16 that bytes stand for.
pub open spec fn read_u16() -> spec_fn(Seq<u8>) -> u16 {
    |bytes: Seq<u8>| spec_u16_from_le_bytes(bytes)
}

/// The bytes of a u16.
pub open spec fn write_u16() -> spec_fn(u16) -> Seq<u8> {
    |value: u16| spec_u16_to_le_bytes(value)
}

/// Elements are read back from their bytes.
pub proof fn lemma_u16_lossless(values: Seq<u16>)
    ensures
        u16::encoded(values).len() == values.len() * u16::SIZE,
        u16::decoded(u16::encoded(values)) == Ok::<Seq<u16>, Seq<char>>(values),
{
    lemma_auto_spec_u16_to_from_le_bytes();
    lemma_joined(values, 2, read_u16(), write_u16());
}

/// Bytes that can be read stand for as many elements as they have room for.
pub proof fn lemma_u16_length(bytes: Seq<u8>)
    ensures
        u16::decoded(bytes) is Ok ==> u16::decoded(bytes)->Ok_0.len() * u16::SIZE == bytes.len(),
{
    if bytes.len() as int % 2 == 0 {
        lemma_elements_length(bytes, 2);
    }
}

impl HostReductionElement for u16 {
    const SIZE: usize = 2;

    open spec fn decoded(bytes: Seq<u8>) -> Result<Seq<u16>, Seq<char>> {
        if bytes.len() as int % 2 != 0 {
            Err(uneven_message(bytes.len(), 2))
        } else {
            Ok(elements_of(bytes, 2, read_u16()))
        }
    }

    open spec fn encoded(values: Seq<u16>) -> Seq<u8> {
        joined(values, write_u16())
    }

    open spec fn combined(self, source: u16, operation: ReductionOperation) -> Result<
        u16,
        Seq<char>,
    > {
        Ok(
            match operation {
                ReductionOperation::Sum => self.wrapping_add(source),
                ReductionOperation::Product => self.wrapping_mul(source),
                ReductionOperation::Minimum => if source < self {
                    source
                } else {
                    self
                },
                ReductionOperation::Maximum => if source > self {
                    source
                } else {
                    self
                },
                ReductionOperation::BitAnd => self & source,
                ReductionOperation::BitOr => self | source,
                ReductionOperation::BitXor => self ^ source,
            },
        )
    }

    fn decode(bytes: &[u8]) -> (result: Result<Vec<u16>, String>) {
        proof {
            lemma_u16_length(bytes@);
        }
        if bytes.len() % 2 != 0 {
            return Err(uneven_text(bytes.len(), 2));
        }
        let limit: usize = bytes.len();
        let count: usize = limit / 2;
        let mut values: Vec<u16> = Vec::new();
        let mut index: usize = 0;
        let ghost all = elements_of(bytes@, 2, read_u16());
        while index < count
            invariant
                index <= count,
                count * 2 == limit,
                limit == bytes@.len(),
                all == elements_of(bytes@, 2, read_u16()),
                values@ == all.take(index as int),
                all.len() == count,
            decreases count - index,
        {
            let value: u16 = u16_from_le_bytes(
                slice_subrange(bytes, index * 2, index * 2 + 2),
            );
            values.push(value);
            assert(values@ =~= all.take(index + 1));
            index = index + 1;
        }
        assert(all.take(count as int) =~= all);
        Ok(values)
    }

    fn encode(values: &[u16]) -> (bytes: Vec<u8>) {
        proof {
            lemma_u16_lossless(values@);
        }
        let mut bytes: Vec<u8> = Vec::new();
        let mut index: usize = 0;
        while index < values.len()
            invariant
                index <= values@.len(),
                bytes@ == joined(values@.take(index as int), write_u16()),
            decreases values.len() - index,
        {
            let ghost done = bytes@;
            assert(values@.take(index + 1).drop_last() =~= values@.take(index as int));
            let mut image = u16_to_le_bytes(values[index]);
            bytes.append(&mut image);
            assert(bytes@ =~= done + write_u16()(values@[index as int]));
            index = index + 1;
        }
        assert(values@.take(index as int) =~= values@);
        bytes
    }

    fn combine(self, source: u16, operation: ReductionOperation) -> (result: Result<u16, String>) {
        Ok(
            match operation {
                ReductionOperation::Sum => self.wrapping_add(source),
                ReductionOperation::Product => self.wrapping_mul(source),
                ReductionOperation::Minimum => if source < self {
                    source
                } else {
                    self
                },
                ReductionOperation::Maximum => if source > self {
                    source
                } else {
                    self
                },
                ReductionOperation::BitAnd => self & source,
                ReductionOperation::BitOr => self | source,
                ReductionOperation::BitXor => self ^ source,
            },
        )
    }
}

/// The i16 that bytes stand for.
pub open spec fn read_i16() -> spec_fn(Seq<u8>) -> i16 {
    |bytes: Seq<u8>| spec_u16_from_le_bytes(bytes) as i16
}

/// The bytes of an i16.
pub open spec fn write_i16() -> spec_fn(i16) -> Seq<u8> {
    |value: i16| spec_u16_to_le_bytes(value as u16)
}

/// Elements are read back from their bytes.
pub proof fn lemma_i16_lossless(values: Seq<i16>)
    ensures
        i16::encoded(values).len() == values.len() * i16::SIZE,
        i16::decoded(i16::encoded(values)) == Ok::<Seq<i16>, Seq<char>>(values),
{
    lemma_auto_spec_u16_to_from_le_bytes();
    assert forall|value: i16|
        (#[trigger] write_i16()(value)).len() == 2 && read_i16()(write_i16()(value))
            == value by {
        assert((value as u16) as i16 == value) by (bit_vector);
    }
    lemma_joined(values, 2, read_i16(), write_i16());
}

/// Bytes that can be read stand for as many elements as they have room for.
pub proof fn lemma_i16_length(bytes: Seq<u8>)
    ensures
        i16::decoded(bytes) is Ok ==> i16::decoded(bytes)->Ok_0.len() * i16::SIZE == bytes.len(),
{
    if bytes.len() as int % 2 == 0 {
        lemma_elements_length(bytes, 2);
    }
}

impl HostReductionElement for i16 {
    const SIZE: usize = 2;

    open spec fn decoded(bytes: Seq<u8>) -> Result<Seq<i16>, Seq<char>> {
        if bytes.len() as int % 2 != 0 {
            Err(uneven_message(bytes.len(), 2))
        } else {
            Ok(elements_of(bytes, 2, read_i16()))
        }
    }

    open spec fn encoded(values: Seq<i16>) -> Seq<u8> {
        joined(values, write_i16())
    }

    open spec fn combined(self, source: i16, operation: ReductionOperation) -> Result<
        i16,
        Seq<char>,
    > {
        Ok(
            match operation {
                ReductionOperation::Sum => self.wrapping_add(source),
                ReductionOperation::Product => self.wrapping_mul(source),
                ReductionOperation::Minimum => if source < self {
                    source
                } else {
                    self
                },
                ReductionOperation::Maximum => if source > self {
                    source
                } else {
                    self
                },
                ReductionOperation::BitAnd => self & source,
                ReductionOperation::BitOr => self | source,
                ReductionOperation::BitXor => self ^ source,
            },
        )
    }

    fn decode(bytes: &[u8]) -> (result: Result<Vec<i16>, String>) {
        proof {
            lemma_i16_length(bytes@);
        }
        if bytes.len() % 2 != 0 {
            return Err(uneven_text(bytes.len(), 2));
        }
        let limit: usize = bytes.len();
        let count: usize = limit / 2;
        let mut values: Vec<i16> = Vec::new();
        let mut index: usize = 0;
        let ghost all = elements_of(bytes@, 2, read_i16());
        while index < count
            invariant
                index <= count,
                count * 2 == limit,
                limit == bytes@.len(),
                all == elements_of(bytes@, 2, read_i16()),
                values@ == all.take(index as int),
                all.len() == count,
            decreases count - index,
        {
            let value: i16 = u16_from_le_bytes(
                slice_subrange(bytes, index * 2, index * 2 + 2),
            ) as i16;
            values.push(value);
            assert(values@ =~= all.take(index + 1));
            index = index + 1;
        }
        assert(all.take(count as int) =~= all);
        Ok(values)
    }

    fn encode(values: &[i16]) -> (bytes: Vec<u8>) {
        proof {
            lemma_i16_lossless(values@);
        }
        let mut bytes: Vec<u8> = Vec::new();
        let mut index: usize = 0;
        while index < values.len()
            invariant
                index <= values@.len(),
                bytes@ == joined(values@.take(index as int), write_i16()),
            decreases values.len() - index,
        {
            let ghost done = bytes@;
            assert(values@.take(index + 1).drop_last() =~= values@.take(index as int));
            let mut image = u16_to_le_bytes(values[index] as u16);
            bytes.append(&mut image);
            assert(bytes@ =~= done + write_i16()(values@[index as int]));
            index = index + 1;
        }
        assert(values@.take(index as int) =~= values@);
        bytes
    }

    fn combine(self, source: i16, operation: ReductionOperation) -> (result: Result<i16, String>) {
        Ok(
            match operation {
                ReductionOperation::Sum => self.wrapping_add(source),
                ReductionOperation::Product => self.wrapping_mul(source),
                ReductionOperation::Minimum => if source < self {
                    source
                } else {
                    self
                },
                ReductionOperation::Maximum => if source > self {
                    source
                } else {
                    self
                },
                ReductionOperation::BitAnd => self & source,
                ReductionOperation::BitOr => self | source,
                ReductionOperation::BitXor => self ^ source,
            },
        )
    }
}

/// The u32 that bytes stand for.
pub open spec fn read_u32() -> spec_fn(Seq<u8>) -> u32 {
    |bytes: Seq<u8>| spec_u32_from_le_bytes(bytes)
}

/// The bytes of a u32.
pub open spec fn write_u32() -> spec_fn(u32) -> Seq<u8> {
    |value: u32| spec_u32_to_le_bytes(value)
}

/// Elements are read back from their bytes.
pub proof fn lemma_u32_lossless(values: Seq<u32>)
    ensures
        u32::encoded(values).len() == values.len() * u32::SIZE,
        u32::decoded(u32::encoded(values)) == Ok::<Seq<u32>, Seq<char>>(values),
{
    lemma_auto_spec_u32_to_from_le_bytes();
    lemma_joined(values, 4, read_u32(), write_u32());
}

/// Bytes that can be read stand for as many elements as they have room for.
pub proof fn lemma_u32_length(bytes: Seq<u8>)
    ensures
        u32::decoded(bytes) is Ok ==> u32::decoded(bytes)->Ok_0.len() * u32::SIZE == bytes.len(),
{
    if bytes.len() as int % 4 == 0 {
        lemma_elements_length(bytes, 4);
    }
}

impl HostReductionElement for u32 {
    const SIZE: usize = 4;

    open spec fn decoded(bytes: Seq<u8>) -> Result<Seq<u32>, Seq<char>> {
        if bytes.len() as int % 4 != 0 {
            Err(uneven_message(bytes.len(), 4))
        } else {
            Ok(elements_of(bytes, 4, read_u32()))
        }
    }

    open spec fn encoded(values: Seq<u32>) -> Seq<u8> {
        joined(values, write_u32())
    }

    open spec fn combined(self, source: u32, operation: ReductionOperation) -> Result<
        u32,
        Seq<char>,
    > {
        Ok(
            match operation {
                ReductionOperation::Sum => self.wrapping_add(source),
                ReductionOperation::Product => self.wrapping_mul(source),
                ReductionOperation::Minimum => if source < self {
                    source
                } else {
                    self
                },
                ReductionOperation::Maximum => if source > self {
                    source
                } else {
                    self
                },
                ReductionOperation::BitAnd => self & source,
                ReductionOperation::BitOr => self | source,
                ReductionOperation::BitXor => self ^ source,
            },
        )
    }

    fn decode(bytes: &[u8]) -> (result: Result<Vec<u32>, String>) {
        proof {
            lemma_u32_length(bytes@);
        }
        if bytes.len() % 4 != 0 {
            return Err(uneven_text(bytes.len(), 4));
        }
        let limit: usize = bytes.len();
        let count: usize = limit / 4;
        let mut values: Vec<u32> = Vec::new();
        let mut index: usize = 0;
        let ghost all = elements_of(bytes@, 4, read_u32());
        while index < count
            invariant
                index <= count,
                count * 4 == limit,
                limit == bytes@.len(),
                all == elements_of(bytes@, 4, read_u32()),
                values@ == all.take(index as int),
                all.len() == count,
            decreases count - index,
        {
            let value: u32 = u32_from_le_bytes(
                slice_subrange(bytes, index * 4, index * 4 + 4),
            );
            values.push(value);
            assert(values@ =~= all.take(index + 1));
            index = index + 1;
        }
        assert(all.take(count as int) =~= all);
        Ok(values)
    }

    fn encode(values: &[u32]) -> (bytes: Vec<u8>) {
        proof {
            lemma_u32_lossless(values@);
        }
        let mut bytes: Vec<u8> = Vec::new();
        let mut index: usize = 0;
        while index < values.len()
            invariant
                index <= values@.len(),
                bytes@ == joined(values@.take(index as int), write_u32()),
            decreases values.len() - index,
        {
            let ghost done = bytes@;
            assert(values@.take(index + 1).drop_last() =~= values@.take(index as int));
            let mut image = u32_to_le_bytes(values[index]);
            bytes.append(&mut image);
            assert(bytes@ =~= done + write_u32()(values@[index as int]));
            index = index + 1;
        }
        assert(values@.take(index as int) =~= values@);
        bytes
    }

    fn combine(self, source: u32, operation: ReductionOperation) -> (result: Result<u32, String>) {
        Ok(
            match operation {
                ReductionOperation::Sum => self.wrapping_add(source),
                ReductionOperation::Product => self.wrapping_mul(source),
                ReductionOperation::Minimum => if source < self {
                    source
                } else {
                    self
                },
                ReductionOperation::Maximum => if source > self {
                    source
                } else {
                    self
                },
                ReductionOperation::BitAnd => self & source,
                ReductionOperation::BitOr => self | source,
                ReductionOperation::BitXor => self ^ source,
            },
        )
    }
}

/// The u64 that bytes stand for.
pub open spec fn read_u64() -> spec_fn(Seq<u8>) -> u64 {
    |bytes: Seq<u8>| spec_u64_from_le_bytes(bytes)
}

/// The bytes of a u64.
pub open spec fn write_u64() -> spec_fn(u64) -> Seq<u8> {
    |value: u64| spec_u64_to_le_bytes(value)
}

/// Elements are read back from their bytes.
pub proof fn lemma_u64_lossless(values: Seq<u64>)
    ensures
        u64::encoded(values).len() == values.len() * u64::SIZE,
        u64::decoded(u64::encoded(values)) == Ok::<Seq<u64>, Seq<char>>(values),
{
    lemma_auto_spec_u64_to_from_le_bytes();
    lemma_joined(values, 8, read_u64(), write_u64());
}

/// Bytes that can be read stand for as many elements as they have room for.
pub proof fn lemma_u64_length(bytes: Seq<u8>)
    ensures
        u64::decoded(bytes) is Ok ==> u64::decoded(bytes)->Ok_0.len() * u64::SIZE == bytes.len(),
{
    if bytes.len() as int % 8 == 0 {
        lemma_elements_length(bytes, 8);
    }
}

impl HostReductionElement for u64 {
    const SIZE: usize = 8;

    open spec fn decoded(bytes: Seq<u8>) -> Result<Seq<u64>, Seq<char>> {
        if bytes.len() as int % 8 != 0 {
            Err(uneven_message(bytes.len(), 8))
        } else {
            Ok(elements_of(bytes, 8, read_u64()))
        }
    }

    open spec fn encoded(values: Seq<u64>) -> Seq<u8> {
        joined(values, write_u64())
    }

    open spec fn combined(self, source: u64, operation: ReductionOperation) -> Result<
        u64,
        Seq<char>,
    > {
        Ok(
            match operation {
                ReductionOperation::Sum => self.wrapping_add(source),
                ReductionOperation::Product => self.wrapping_mul(source),
                ReductionOperation::Minimum => if source < self {
                    source
                } else {
                    self
                },
                ReductionOperation::Maximum => if source > self {
                    source
                } else {
                    self
                },
                ReductionOperation::BitAnd => self & source,
                ReductionOperation::BitOr => self | source,
                ReductionOperation::BitXor => self ^ source,
            },
        )
    }

    fn decode(bytes: &[u8]) -> (result: Result<Vec<u64>, String>) {
        proof {
            lemma_u64_length(bytes@);
        }
        if bytes.len() % 8 != 0 {
            return Err(uneven_text(bytes.len(), 8));
        }
        let limit: usize = bytes.len();
        let count: usize = limit / 8;
        let mut values: Vec<u64> = Vec::new();
        let mut index: usize = 0;
        let ghost all = elements_of(bytes@, 8, read_u64());
        while index < count
            invariant
                index <= count,
                count * 8 == limit,
                limit == bytes@.len(),
                all == elements_of(bytes@, 8, read_u64()),
                values@ == all.take(index as int),
                all.len() == count,
            decreases count - index,
        {
            let value: u64 = u64_from_le_bytes(
                slice_subrange(bytes, index * 8, index * 8 + 8),
            );
            values.push(value);
            assert(values@ =~= all.take(index + 1));
            index = index + 1;
        }
        assert(all.take(count as int) =~= all);
        Ok(values)
    }

    fn encode(values: &[u64]) -> (bytes: Vec<u8>) {
        proof {
            lemma_u64_lossless(values@);
        }
        let mut bytes: Vec<u8> = Vec::new();
        let mut index: usize = 0;
        while index < values.len()
            invariant
                index <= values@.len(),
                bytes@ == joined(values@.take(index as int), write_u64()),
            decreases values.len() - index,
        {
            let ghost done = bytes@;
            assert(values@.take(index + 1).drop_last() =~= values@.take(index as int));
            let mut image = u64_to_le_bytes(values[index]);
            bytes.append(&mut image);
            assert(bytes@ =~= done + write_u64()(values@[index as int]));
            index = index + 1;
        }
        assert(values@.take(index as int) =~= values@);
        bytes
    }

    fn combine(self, source: u64, operation: ReductionOperation) -> (result: Result<u64, String>) {
        Ok(
            match operation {
                ReductionOperation::Sum => self.wrapping_add(source),
                ReductionOperation::Product => self.wrapping_mul(source),
                ReductionOperation::Minimum => if source < self {
                    source
                } else {
                    self
                },
                ReductionOperation::Maximum => if source > self {
                    source
                } else {
                    self
                },
                ReductionOperation::BitAnd => self & source,
                ReductionOperation::BitOr => self | source,
                ReductionOperation::BitXor => self ^ source,
            },
        )
    }
}

/// The i64 that bytes stand for.
pub open spec fn read_i64() -> spec_fn(Seq<u8>) -> i64 {
    |bytes: Seq<u8>| spec_u64_from_le_bytes(bytes) as i64
}

/// The bytes of an i64.
pub open spec fn write_i64() -> spec_fn(i64) -> Seq<u8> {
    |value: i64| spec_u64_to_le_bytes(value as u64)
}

/// Elements are read back from their bytes.
pub proof fn lemma_i64_lossless(values: Seq<i64>)
    ensures
        i64::encoded(values).len() == values.len() * i64::SIZE,
        i64::decoded(i64::encoded(values)) == Ok::<Seq<i64>, Seq<char>>(values),
{
    lemma_auto_spec_u64_to_from_le_bytes();
    assert forall|value: i64|
        (#[trigger] write_i64()(value)).len() == 8 && read_i64()(write_i64()(value))
            == value by {
        assert((value as u64) as i64 == value) by (bit_vector);
    }
    lemma_joined(values, 8, read_i64(), write_i64());
}

/// Bytes that can be read stand for as many elements as they have room for.
pub proof fn lemma_i64_length(bytes: Seq<u8>)
    ensures
        i64::decoded(bytes) is Ok ==> i64::decoded(bytes)->Ok_0.len() * i64::SIZE == bytes.len(),
{
    if bytes.len() as int % 8 == 0 {
        lemma_elements_length(bytes, 8);
    }
}

impl HostReductionElement for i64 {
    const SIZE: usize = 8;

    open spec fn decoded(bytes: Seq<u8>) -> Result<Seq<i64>, Seq<char>> {
        if bytes.len() as int % 8 != 0 {
            Err(uneven_message(bytes.len(), 8))
        } else {
            Ok(elements_of(bytes, 8, read_i64()))
        }
    }

    open spec fn encoded(values: Seq<i64>) -> Seq<u8> {
        joined(values, write_i64())
    }

    open spec fn combined(self, source: i64, operation: ReductionOperation) -> Result<
        i64,
        Seq<char>,
    > {
        Ok(
            match operation {
                ReductionOperation::Sum => self.wrapping_add(source),
                ReductionOperation::Product => self.wrapping_mul(source),
                ReductionOperation::Minimum => if source < self {
                    source
                } else {
                    self
                },
                ReductionOperation::Maximum => if source > self {
                    source
                } else {
                    self
                },
                ReductionOperation::BitAnd => self & source,
                ReductionOperation::BitOr => self | source,
                ReductionOperation::BitXor => self ^ source,
            },
        )
    }

    fn decode(bytes: &[u8]) -> (result: Result<Vec<i64>, String>) {
        proof {
            lemma_i64_length(bytes@);
        }
        if bytes.len() % 8 != 0 {
            return Err(uneven_text(bytes.len(), 8));
        }
        let limit: usize = bytes.len();
        let count: usize = limit / 8;
        let mut values: Vec<i64> = Vec::new();
        let mut index: usize = 0;
        let ghost all = elements_of(bytes@, 8, read_i64());
        while index < count
            invariant
                index <= count,
                count * 8 == limit,
                limit == bytes@.len(),
                all == elements_of(bytes@, 8, read_i64()),
                values@ == all.take(index as int),
                all.len() == count,
            decreases count - index,
        {
            let value: i64 = u64_from_le_bytes(
                slice_subrange(bytes, index * 8, index * 8 + 8),
            ) as i64;
            values.push(value);
            assert(values@ =~= all.take(index + 1));
            index = index + 1;
        }
        assert(all.take(count as int) =~= all);
        Ok(values)
    }

    fn encode(values: &[i64]) -> (bytes: Vec<u8>) {
        proof {
            lemma_i64_lossless(values@);
        }
        let mut bytes: Vec<u8> = Vec::new();
        let mut index: usize = 0;
        while index < values.len()
            invariant
                index <= values@.len(),
                bytes@ == joined(values@.take(index as int), write_i64()),
            decreases values.len() - index,
        {
            let ghost done = bytes@;
            assert(values@.take(index + 1).drop_last() =~= values@.take(index as int));
            let mut image = u64_to_le_bytes(values[index] as u64);
            bytes.append(&mut image);
            assert(bytes@ =~= done + write_i64()(values@[index as int]));
            index = index + 1;
        }
        assert(values@.take(index as int) =~= values@);
        bytes
    }

    fn combine(self, source: i64, operation: ReductionOperation) -> (result: Result<i64, String>) {
        Ok(
            match operation {
                ReductionOperation::Sum => self.wrapping_add(source),
                ReductionOperation::Product => self.wrapping_mul(source),
                ReductionOperation::Minimum => if source < self {
                    source
                } else {
                    self
                },
                ReductionOperation::Maximum => if source > self {
                    source
                } else {
                    self
                },
                ReductionOperation::BitAnd => self & source,
                ReductionOperation::BitOr => self | source,
                ReductionOperation::BitXor => self ^ source,
            },
        )
    }
}

/// The booleans that bytes stand for: 0 and 1, and nothing else.
pub open spec fn booleans(bytes: Seq<u8>) -> Result<Seq<bool>, Seq<char>>
    decreases bytes.len(),
{
    if bytes.len() == 0 {
        Ok(Seq::empty())
    } else {
        match booleans(bytes.drop_last()) {
            Err(message) => Err(message),
            Ok(values) => if bytes.last() <= 1 {
                Ok(values.push(bytes.last() == 1))
            } else {
                Err("invalid boolean reduction byte "@ + decimal(bytes.last() as nat))
            },
        }
    }
}

/// The bytes of booleans.
pub open spec fn boolean_bytes(values: Seq<bool>) -> Seq<u8> {
    values.map_values(
        |value: bool|
            if value {
                1u8
            } else {
                0u8
            },
    )
}

proof fn lemma_booleans_length(bytes: Seq<u8>)
    ensures
        booleans(bytes) is Ok ==> booleans(bytes)->Ok_0.len() == bytes.len(),
    decreases bytes.len(),
{
    if bytes.len() > 0 {
        lemma_booleans_length(bytes.drop_last());
    }
}

proof fn lemma_booleans_round_trip(values: Seq<bool>)
    ensures
        booleans(boolean_bytes(values)) == Ok::<Seq<bool>, Seq<char>>(values),
    decreases values.len(),
{
    if values.len() > 0 {
        lemma_booleans_round_trip(values.drop_last());
        assert(boolean_bytes(values).drop_last() =~= boolean_bytes(values.drop_last()));
        assert(values.drop_last().push(values.last()) =~= values);
    } else {
        assert(boolean_bytes(values) =~= Seq::empty());
        assert(values =~= Seq::empty());
    }
}

/// A prefix that cannot be read makes the whole unreadable.
proof fn lemma_booleans_prefix(bytes: Seq<u8>, end: int)
    requires
        0 <= end <= bytes.len(),
        booleans(bytes.take(end)) is Err,
    ensures
        booleans(bytes) == booleans(bytes.take(end)),
    decreases bytes.len() - end,
{
    if end < bytes.len() {
        assert(bytes.drop_last().take(end) =~= bytes.take(end));
        lemma_booleans_prefix(bytes.drop_last(), end);
    } else {
        assert(bytes.take(end) =~= bytes);
    }
}

/// Elements are read back from their bytes.
pub proof fn lemma_bool_lossless(values: Seq<bool>)
    ensures
        bool::encoded(values).len() == values.len() * bool::SIZE,
        bool::decoded(bool::encoded(values)) == Ok::<Seq<bool>, Seq<char>>(values),
{
    lemma_booleans_round_trip(values);
}

/// Bytes that can be read stand for as many elements as they have room for.
pub proof fn lemma_bool_length(bytes: Seq<u8>)
    ensures
        bool::decoded(bytes) is Ok ==> bool::decoded(bytes)->Ok_0.len() * bool::SIZE == bytes.len(),
{
    lemma_booleans_length(bytes);
}

impl HostReductionElement for bool {
    const SIZE: usize = 1;

    open spec fn decoded(bytes: Seq<u8>) -> Result<Seq<bool>, Seq<char>> {
        booleans(bytes)
    }

    open spec fn encoded(values: Seq<bool>) -> Seq<u8> {
        boolean_bytes(values)
    }

    open spec fn combined(self, source: bool, operation: ReductionOperation) -> Result<
        bool,
        Seq<char>,
    > {
        Ok(
            match operation {
                ReductionOperation::Sum
                | ReductionOperation::Maximum
                | ReductionOperation::BitOr => self || source,
                ReductionOperation::Product
                | ReductionOperation::Minimum
                | ReductionOperation::BitAnd => self && source,
                ReductionOperation::BitXor => self != source,
            },
        )
    }

    fn decode(bytes: &[u8]) -> (result: Result<Vec<bool>, String>) {
        proof {
            lemma_bool_length(bytes@);
        }
        let mut values: Vec<bool> = Vec::new();
        let mut index: usize = 0;
        while index < bytes.len()
            invariant
                index <= bytes@.len(),
                booleans(bytes@.take(index as int)) == Ok::<Seq<bool>, Seq<char>>(values@),
            decreases bytes.len() - index,
        {
            let value: u8 = bytes[index];
            assert(bytes@.take(index + 1).drop_last() =~= bytes@.take(index as int));
            if value > 1 {
                proof {
                    lemma_booleans_prefix(bytes@, index + 1);
                }
                let mut text = String::from_str("invalid boolean reduction byte ");
                push_usize(&mut text, value as usize);
                return Err(text);
            }
            values.push(value == 1);
            index = index + 1;
        }
        assert(bytes@.take(index as int) =~= bytes@);
        Ok(values)
    }

    fn encode(values: &[bool]) -> (bytes: Vec<u8>) {
        proof {
            lemma_bool_lossless(values@);
        }
        let mut bytes: Vec<u8> = Vec::new();
        let mut index: usize = 0;
        while index < values.len()
            invariant
                index <= values@.len(),
                bytes@ == boolean_bytes(values@.take(index as int)),
            decreases values.len() - index,
        {
            let byte: u8 = if values[index] {
                1
            } else {
                0
            };
            bytes.push(byte);
            index = index + 1;
            assert(bytes@ =~= boolean_bytes(values@.take(index as int)));
        }
        assert(values@.take(index as int) =~= values@);
        bytes
    }

    fn combine(self, source: bool, operation: ReductionOperation) -> (result: Result<
        bool,
        String,
    >) {
        Ok(
            match operation {
                ReductionOperation::Sum
                | ReductionOperation::Maximum
                | ReductionOperation::BitOr => self || source,
                ReductionOperation::Product
                | ReductionOperation::Minimum
                | ReductionOperation::BitAnd => self && source,
                ReductionOperation::BitXor => self != source,
            },
        )
    }
}

/// The first `count` elements of `row` combined into those of `into`.
pub open spec fn combined_row<T: HostReductionElement>(
    into: Seq<T>,
    row: Seq<T>,
    count: int,
    operation: ReductionOperation,
) -> Result<Seq<T>, Seq<char>>
    decreases count,
{
    if count <= 0 {
        Ok(into)
    } else {
        match combined_row(into, row, count - 1, operation) {
            Err(message) => Err(message),
            Ok(done) => match T::combined(into[count - 1], row[count - 1], operation) {
                Err(message) => Err(message),
                Ok(value) => Ok(done.update(count - 1, value)),
            },
        }
    }
}

/// The rows of the first `ranks` ranks, each combined into the one before.
pub open spec fn combined_rows<T: HostReductionElement>(
    values: Seq<T>,
    width: int,
    ranks: int,
    operation: ReductionOperation,
) -> Result<Seq<T>, Seq<char>>
    decreases ranks,
{
    if ranks <= 1 {
        Ok(values.subrange(0, width))
    } else {
        match combined_rows(values, width, ranks - 1, operation) {
            Err(message) => Err(message),
            Ok(done) => combined_row(
                done,
                values.subrange((ranks - 1) * width, (ranks - 1) * width + width),
                width,
                operation,
            ),
        }
    }
}

/// What the host makes of the ranks' payloads, one after the other.
pub open spec fn reduced_payload<T: HostReductionElement>(
    payload: Seq<u8>,
    elements_per_rank: int,
    world_size: int,
    operation: ReductionOperation,
) -> Result<Seq<u8>, Seq<char>> {
    let expected = elements_per_rank * world_size;
    if expected > usize::MAX {
        Err("host reduction element count overflow"@)
    } else if expected * T::SIZE > usize::MAX {
        Err("host reduction byte count overflow"@)
    } else if payload.len() != expected * T::SIZE {
        Err(
            "host reduction received "@ + decimal(payload.len()) + " bytes, expected "@ + decimal(
                (expected * T::SIZE) as nat,
            ),
        )
    } else if elements_per_rank == 0 {
        Ok(Seq::empty())
    } else {
        match T::decoded(payload) {
            Err(message) => Err(message),
            Ok(values) => match combined_rows(values, elements_per_rank, world_size, operation) {
                Err(message) => Err(message),
                Ok(row) => Ok(T::encoded(row)),
            },
        }
    }
}

pub open spec fn reduction_result(
    result: Result<Vec<u8>, String>,
    model: Result<Seq<u8>, Seq<char>>,
) -> bool {
    match model {
        Ok(bytes) => result is Ok && result->Ok_0@ == bytes,
        Err(message) => result is Err && result->Err_0@ == message,
    }
}

proof fn lemma_row_prefix<T: HostReductionElement>(
    into: Seq<T>,
    row: Seq<T>,
    count: int,
    end: int,
    operation: ReductionOperation,
)
    requires
        0 <= count <= end,
        combined_row(into, row, count, operation) is Err,
    ensures
        combined_row(into, row, end, operation) == combined_row(into, row, count, operation),
    decreases end - count,
{
    if count < end {
        lemma_row_prefix(into, row, count, end - 1, operation);
    }
}

proof fn lemma_rows_prefix<T: HostReductionElement>(
    values: Seq<T>,
    width: int,
    ranks: int,
    end: int,
    operation: ReductionOperation,
)
    requires
        1 <= ranks <= end,
        combined_rows(values, width, ranks, operation) is Err,
    ensures
        combined_rows(values, width, end, operation) == combined_rows(
            values,
            width,
            ranks,
            operation,
        ),
    decreases end - ranks,
{
    if ranks < end {
        lemma_rows_prefix(values, width, ranks, end - 1, operation);
    }
}

/// Combines a row into another, element by element.
fn combine_row<T: HostReductionElement>(
    into: &mut Vec<T>,
    row: &[T],
    operation: ReductionOperation,
) -> (result: Result<(), String>)
    requires
        old(into)@.len() == row@.len(),
    ensures
        match combined_row(old(into)@, row@, row@.len() as int, operation) {
            Ok(done) => result is Ok && final(into)@ == done,
            Err(message) => result is Err && result->Err_0@ == message,
        },
        final(into)@.len() == old(into)@.len(),
{
    let ghost before = into@;
    let mut index: usize = 0;
    while index < row.len()
        invariant
            index <= row@.len(),
            before == old(into)@,
            before.len() == row@.len(),
            into@.len() == row@.len(),
            combined_row(before, row@, index as int, operation) == Ok::<Seq<T>, Seq<char>>(into@),
            forall|i: int| index <= i < row@.len() ==> into@[i] == before[i],
        decreases row.len() - index,
    {
        match into[index].combine(row[index], operation) {
            Ok(value) => {
                into.set(index, value);
            },
            Err(message) => {
                proof {
                    lemma_row_prefix(before, row@, index + 1, row@.len() as int, operation);
                }
                return Err(message);
            },
        }
        index = index + 1;
    }
    Ok(())
}

pub fn reduce_host_values<T: HostReductionElement>(
    payload: &[u8],
    elements_per_rank: usize,
    world_size: usize,
    operation: ReductionOperation,
) -> (result: Result<Vec<u8>, String>)
    requires
        elements_per_rank == 0 || world_size > 0,
    ensures
        reduction_result(
            result,
            reduced_payload::<T>(
                payload@,
                elements_per_rank as int,
                world_size as int,
                operation,
            ),
        ),
{
    let expected_elements: usize = match elements_per_rank.checked_mul(world_size) {
        Some(expected_elements) => expected_elements,
        None => {
            return Err(String::from_str("host reduction element count overflow"));
        },
    };
    let expected_bytes: usize = match expected_elements.checked_mul(T::SIZE) {
        Some(expected_bytes) => expected_bytes,
        None => {
            return Err(String::from_str("host reduction byte count overflow"));
        },
    };
    if payload.len() != expected_bytes {
        let mut text = String::from_str("host reduction received ");
        push_usize(&mut text, payload.len());
        text.append(" bytes, expected ");
        push_usize(&mut text, expected_bytes);
        return Err(text);
    }
    if elements_per_rank == 0 {
        return Ok(Vec::new());
    }
    let values = match T::decode(payload) {
        Ok(values) => values,
        Err(message) => {
            return Err(message);
        },
    };
    proof {
        let size = T::SIZE as int;
        assert(values@.len() == expected_elements) by (nonlinear_arith)
            requires
                values@.len() * size == expected_elements * size,
                size > 0,
        ;
        assert(elements_per_rank <= expected_elements) by (nonlinear_arith)
            requires
                expected_elements == elements_per_rank * world_size,
                world_size > 0,
        ;
    }
    let mut output: Vec<T> = slice_to_vec(
        slice_subrange(values.as_slice(), 0, elements_per_rank),
    );
    assert(output@ =~= values@.subrange(0, elements_per_rank as int));
    let mut source: usize = 1;
    while source < world_size
        invariant
            1 <= source <= world_size,
            elements_per_rank > 0,
            expected_elements == elements_per_rank * world_size,
            values@.len() == expected_elements,
            output@.len() == elements_per_rank,
            combined_rows(values@, elements_per_rank as int, source as int, operation) == Ok::<
                Seq<T>,
                Seq<char>,
            >(output@),
            T::decoded(payload@) == Ok::<Seq<T>, Seq<char>>(values@),
            payload@.len() == expected_elements * T::SIZE,
            expected_elements * T::SIZE <= usize::MAX,
        decreases world_size - source,
    {
        assert(source * elements_per_rank + elements_per_rank <= expected_elements)
            by (nonlinear_arith)
            requires
                source + 1 <= world_size,
                expected_elements == elements_per_rank * world_size,
        ;
        let start: usize = source * elements_per_rank;
        let row = slice_subrange(values.as_slice(), start, start + elements_per_rank);
        assert(row@ =~= values@.subrange(
            source * elements_per_rank,
            source * elements_per_rank + elements_per_rank,
        ));
        match combine_row(&mut output, row, operation) {
            Ok(()) => {},
            Err(message) => {
                proof {
                    lemma_rows_prefix(
                        values@,
                        elements_per_rank as int,
                        source + 1,
                        world_size as int,
                        operation,
                    );
                }
                return Err(message);
            },
        }
        source = source + 1;
    }
    Ok(T::encode(output.as_slice()))
}

/// Why an element type does not have an operation, if it does not.
pub open spec fn operation_defect(
    element_type: ElementType,
    operation: ReductionOperation,
) -> Option<Seq<char>> {
    let complex = element_type == ElementType::Complex64 || element_type
        == ElementType::Complex128;
    let bitwise = operation == ReductionOperation::BitAnd || operation == ReductionOperation::BitOr
        || operation == ReductionOperation::BitXor;
    let ordering = operation == ReductionOperation::Minimum || operation
        == ReductionOperation::Maximum;
    if (complex || element_type == ElementType::F64) && bitwise {
        Some("bitwise reductions require an integer or boolean dtype"@)
    } else if complex && ordering {
        Some("MIN and MAX reductions are not defined for complex dtypes"@)
    } else {
        None
    }
}

pub fn validate_host_reduction_operation(
    element_type: ElementType,
    operation: ReductionOperation,
) -> (result: Result<(), String>)
    ensures
        match operation_defect(element_type, operation) {
            Some(message) => result is Err && result->Err_0@ == message,
            None => result is Ok,
        },
{
    let complex = element_type == ElementType::Complex64 || element_type
        == ElementType::Complex128;
    let bitwise = operation == ReductionOperation::BitAnd || operation == ReductionOperation::BitOr
        || operation == ReductionOperation::BitXor;
    let ordering = operation == ReductionOperation::Minimum || operation
        == ReductionOperation::Maximum;
    if (complex || element_type == ElementType::F64) && bitwise {
        return Err(String::from_str("bitwise reductions require an integer or boolean dtype"));
    }
    if complex && ordering {
        return Err(String::from_str("MIN and MAX reductions are not defined for complex dtypes"));
    }
    Ok(())
}

/// What the host makes of payloads of an element type. The element types of
/// floating point are the caller's: `F` for F64, `C` for Complex64 and `Z` for
/// Complex128.
pub open spec fn reduced_by_type<
    F: HostReductionElement,
    C: HostReductionElement,
    Z: HostReductionElement,
>(
    element_type: ElementType,
    payload: Seq<u8>,
    elements_per_rank: int,
    world_size: int,
    operation: ReductionOperation,
) -> Result<Seq<u8>, Seq<char>> {
    match element_type {
        ElementType::U8 => reduced_payload::<u8>(payload, elements_per_rank, world_size, operation),
        ElementType::U32 => reduced_payload::<u32>(
            payload,
            elements_per_rank,
            world_size,
            operation,
        ),
        ElementType::Bool => reduced_payload::<bool>(
            payload,
            elements_per_rank,
            world_size,
            operation,
        ),
        ElementType::I8 => reduced_payload::<i8>(payload, elements_per_rank, world_size, operation),
        ElementType::I16 => reduced_payload::<i16>(
            payload,
            elements_per_rank,
            world_size,
            operation,
        ),
        ElementType::I64 => reduced_payload::<i64>(
            payload,
            elements_per_rank,
            world_size,
            operation,
        ),
        ElementType::F64 => reduced_payload::<F>(payload, elements_per_rank, world_size, operation),
        ElementType::U16 => reduced_payload::<u16>(
            payload,
            elements_per_rank,
            world_size,
            operation,
        ),
        ElementType::U64 => reduced_payload::<u64>(
            payload,
            elements_per_rank,
            world_size,
            operation,
        ),
        ElementType::Complex64 => reduced_payload::<C>(
            payload,
            elements_per_rank,
            world_size,
            operation,
        ),
        ElementType::Complex128 => reduced_payload::<Z>(
            payload,
            elements_per_rank,
            world_size,
            operation,
        ),
        _ => Err("element type "@ + element_type.spec_name() + " does not use host reduction"@),
    }
}

pub fn reduce_host_payload<
    F: HostReductionElement,
    C: HostReductionElement,
    Z: HostReductionElement,
>(
    element_type: ElementType,
    payload: &[u8],
    elements_per_rank: usize,
    world_size: usize,
    operation: ReductionOperation,
) -> (result: Result<Vec<u8>, String>)
    requires
        elements_per_rank == 0 || world_size > 0,
    ensures
        reduction_result(
            result,
            reduced_by_type::<F, C, Z>(
                element_type,
                payload@,
                elements_per_rank as int,
                world_size as int,
                operation,
            ),
        ),
{
    match element_type {
        ElementType::U8 => reduce_host_values::<u8>(
            payload,
            elements_per_rank,
            world_size,
            operation,
        ),
        ElementType::U32 => reduce_host_values::<u32>(
            payload,
            elements_per_rank,
            world_size,
            operation,
        ),
        ElementType::Bool => reduce_host_values::<bool>(
            payload,
            elements_per_rank,
            world_size,
            operation,
        ),
        ElementType::I8 => reduce_host_values::<i8>(
            payload,
            elements_per_rank,
            world_size,
            operation,
        ),
        ElementType::I16 => reduce_host_values::<i16>(
            payload,
            elements_per_rank,
            world_size,
            operation,
        ),
        ElementType::I64 => reduce_host_values::<i64>(
            payload,
            elements_per_rank,
            world_size,
            operation,
        ),
        ElementType::F64 => reduce_host_values::<F>(
            payload,
            elements_per_rank,
            world_size,
            operation,
        ),
        ElementType::U16 => reduce_host_values::<u16>(
            payload,
            elements_per_rank,
            world_size,
            operation,
        ),
        ElementType::U64 => reduce_host_values::<u64>(
            payload,
            elements_per_rank,
            world_size,
            operation,
        ),
        ElementType::Complex64 => reduce_host_values::<C>(
            payload,
            elements_per_rank,
            world_size,
            operation,
        ),
        ElementType::Complex128 => reduce_host_values::<Z>(
            payload,
            elements_per_rank,
            world_size,
            operation,
        ),
        _ => {
            let mut text = String::from_str("element type ");
            text.append(element_type.name());
            text.append(" does not use host reduction");
            Err(text)
        },
    }
}

} // verus!

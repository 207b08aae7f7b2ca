//! What host reductions make of the ranks' elements, in numbers and bits.

use crate::rank::host::reduction::{
    booleans, combined_row, combined_rows, reduced_by_type, HostReductionElement,
    lemma_bool_length, lemma_bool_lossless, lemma_i16_length, lemma_i16_lossless,
    lemma_i64_length, lemma_i64_lossless, lemma_i8_length, lemma_i8_lossless, lemma_u16_length,
    lemma_u16_lossless, lemma_u32_length, lemma_u32_lossless, lemma_u64_length,
    lemma_u64_lossless, lemma_u8_length, lemma_u8_lossless,
};
use crate::rank::operation::ReductionOperation;
use crate::rank::protocol::ElementType;
use vstd::arithmetic::div_mod::*;
use vstd::bytes::*;
use vstd::prelude::*;

verus! {

/// How elements are read: as numbers, which count up to a modulus, and by bits.
#[verifier::reject_recursive_types(T)]
pub struct Reading<T> {
    pub number: spec_fn(T) -> int,
    pub bit: spec_fn(T, u64) -> bool,
    pub modulus: int,
}

/// The sum of numbers.
pub open spec fn sum_of(numbers: Seq<int>) -> int
    decreases numbers.len(),
{
    if numbers.len() == 0 {
        0
    } else {
        sum_of(numbers.drop_last()) + numbers.last()
    }
}

/// The product of numbers.
pub open spec fn product_of(numbers: Seq<int>) -> int
    decreases numbers.len(),
{
    if numbers.len() == 0 {
        1
    } else {
        product_of(numbers.drop_last()) * numbers.last()
    }
}

/// An odd number of flags is set.
pub open spec fn odd(flags: Seq<bool>) -> bool
    decreases flags.len(),
{
    flags.len() > 0 && odd(flags.drop_last()) != flags.last()
}

impl<T> Reading<T> {
    pub open spec fn numbers(self, values: Seq<T>) -> Seq<int> {
        Seq::new(values.len(), |i: int| (self.number)(values[i]))
    }

    pub open spec fn flags(self, values: Seq<T>, k: u64) -> Seq<bool> {
        Seq::new(values.len(), |i: int| (self.bit)(values[i], k))
    }

    /// A result is what an operation makes of all values: a sum or product up to
    /// the modulus, one of the values that none is below or above, or the bits
    /// that all, any or an odd number of the values have.
    pub open spec fn makes(self, operation: ReductionOperation, values: Seq<T>, result: T) -> bool {
        match operation {
            ReductionOperation::Sum => ((self.number)(result) - sum_of(self.numbers(values)))
                % self.modulus == 0,
            ReductionOperation::Product => ((self.number)(result) - product_of(
                self.numbers(values),
            )) % self.modulus == 0,
            ReductionOperation::Minimum => {
                &&& values.contains(result)
                &&& forall|i: int|
                    0 <= i < values.len() ==> (self.number)(result) <= (self.number)(
                        #[trigger] values[i],
                    )
            },
            ReductionOperation::Maximum => {
                &&& values.contains(result)
                &&& forall|i: int|
                    0 <= i < values.len() ==> (self.number)(result) >= (self.number)(
                        #[trigger] values[i],
                    )
            },
            ReductionOperation::BitAnd => forall|k: u64| #[trigger]
                (self.bit)(result, k) <==> (forall|i: int|
                    0 <= i < values.len() ==> (self.bit)(#[trigger] values[i], k)),
            ReductionOperation::BitOr => forall|k: u64| #[trigger]
                (self.bit)(result, k) <==> (exists|i: int|
                    0 <= i < values.len() && (self.bit)(#[trigger] values[i], k)),
            ReductionOperation::BitXor => forall|k: u64| #[trigger]
                (self.bit)(result, k) <==> odd(self.flags(values, k)),
        }
    }

    /// The same of two values.
    pub open spec fn makes_of_two(
        self,
        operation: ReductionOperation,
        a: T,
        b: T,
        result: T,
    ) -> bool {
        match operation {
            ReductionOperation::Sum => ((self.number)(result) - ((self.number)(a) + (self.number)(
                b,
            ))) % self.modulus == 0,
            ReductionOperation::Product => ((self.number)(result) - (self.number)(a)
                * (self.number)(b)) % self.modulus == 0,
            ReductionOperation::Minimum => {
                &&& result == a || result == b
                &&& (self.number)(result) <= (self.number)(a)
                &&& (self.number)(result) <= (self.number)(b)
            },
            ReductionOperation::Maximum => {
                &&& result == a || result == b
                &&& (self.number)(result) >= (self.number)(a)
                &&& (self.number)(result) >= (self.number)(b)
            },
            ReductionOperation::BitAnd => forall|k: u64| #[trigger]
                (self.bit)(result, k) <==> (self.bit)(a, k) && (self.bit)(b, k),
            ReductionOperation::BitOr => forall|k: u64| #[trigger]
                (self.bit)(result, k) <==> (self.bit)(a, k) || (self.bit)(b, k),
            ReductionOperation::BitXor => forall|k: u64| #[trigger]
                (self.bit)(result, k) <==> (self.bit)(a, k) != (self.bit)(b, k),
        }
    }

    proof fn lemma_one(self, operation: ReductionOperation, value: T)
        requires
            0 < self.modulus,
        ensures
            self.makes(operation, seq![value], value),
    {
        let values = seq![value];
        let numbers = self.numbers(values);
        assert(values[0] == value);
        assert(numbers.drop_last() =~= Seq::empty());
        assert(sum_of(numbers.drop_last()) == 0);
        assert(product_of(numbers.drop_last()) == 1);
        assert(1 * numbers.last() == numbers.last());
        lemma_small_mod(0, self.modulus as nat);
        assert(values.contains(value));
        assert forall|k: u64| #[trigger] (self.bit)(value, k) <==> odd(self.flags(values, k)) by {
            assert(self.flags(values, k).drop_last() =~= Seq::empty());
            assert(!odd(self.flags(values, k).drop_last()));
        }
    }

    proof fn lemma_more(
        self,
        operation: ReductionOperation,
        values: Seq<T>,
        so_far: T,
        value: T,
        result: T,
    )
        requires
            0 < self.modulus,
            self.makes(operation, values, so_far),
            self.makes_of_two(operation, so_far, value, result),
        ensures
            self.makes(operation, values.push(value), result),
    {
        let more = values.push(value);
        let numbers = self.numbers(values);
        let m = self.modulus;
        let before = (self.number)(so_far);
        let own = (self.number)(value);
        let now = (self.number)(result);
        assert(self.numbers(more).drop_last() =~= numbers);
        assert(more[values.len() as int] == value);
        assert forall|i: int| 0 <= i < values.len() implies #[trigger] more[i] == values[i] by {}
        lemma_small_mod(0, m as nat);
        match operation {
            ReductionOperation::Sum => {
                lemma_add_mod_noop(now - (before + own), before - sum_of(numbers), m);
                assert(now - (before + own) + (before - sum_of(numbers)) == now - (sum_of(numbers)
                    + own));
            },
            ReductionOperation::Product => {
                let gap = before - product_of(numbers);
                lemma_mul_mod_noop_left(gap, own, m);
                assert(0 * own == 0);
                assert((gap * own) % m == 0);
                lemma_add_mod_noop(now - before * own, gap * own, m);
                assert(now - before * own + gap * own == now - product_of(numbers) * own)
                    by (nonlinear_arith)
                    requires
                        gap == before - product_of(numbers),
                ;
            },
            ReductionOperation::Minimum | ReductionOperation::Maximum => {
                if result == so_far {
                    let i = choose|i: int| 0 <= i < values.len() && values[i] == so_far;
                    assert(more[i] == result);
                }
            },
            ReductionOperation::BitAnd => {
                assert forall|k: u64| #[trigger] (self.bit)(result, k) <==> (forall|i: int|
                    0 <= i < more.len() ==> (self.bit)(#[trigger] more[i], k)) by {
                    if (self.bit)(result, k) {
                        assert((self.bit)(so_far, k));
                    }
                    if forall|i: int| 0 <= i < more.len() ==> (self.bit)(#[trigger] more[i], k) {
                        assert((self.bit)(more[values.len() as int], k));
                        assert forall|i: int| 0 <= i < values.len() implies (self.bit)(
                            #[trigger] values[i],
                            k,
                        ) by {
                            assert((self.bit)(more[i], k));
                        }
                        assert((self.bit)(so_far, k));
                    }
                }
            },
            ReductionOperation::BitOr => {
                assert forall|k: u64| #[trigger] (self.bit)(result, k) <==> (exists|i: int|
                    0 <= i < more.len() && (self.bit)(#[trigger] more[i], k)) by {
                    if (self.bit)(so_far, k) {
                        let i = choose|i: int|
                            0 <= i < values.len() && (self.bit)(#[trigger] values[i], k);
                        assert((self.bit)(more[i], k));
                    }
                    if (self.bit)(value, k) {
                        assert((self.bit)(more[values.len() as int], k));
                    }
                    if exists|i: int| 0 <= i < more.len() && (self.bit)(#[trigger] more[i], k) {
                        let i = choose|i: int|
                            0 <= i < more.len() && (self.bit)(#[trigger] more[i], k);
                        if i < values.len() {
                            assert((self.bit)(values[i], k));
                            assert((self.bit)(so_far, k));
                        }
                    }
                }
            },
            ReductionOperation::BitXor => {
                assert forall|k: u64| #[trigger] (self.bit)(result, k) <==> odd(
                    self.flags(more, k),
                ) by {
                    assert(self.flags(more, k).drop_last() =~= self.flags(values, k));
                    assert((self.bit)(so_far, k) <==> odd(self.flags(values, k)));
                }
            },
        }
    }
}

/// One element of every rank's row.
pub open spec fn column<T>(values: Seq<T>, width: int, element: int, ranks: int) -> Seq<T> {
    Seq::new(ranks as nat, |rank: int| values[rank * width + element])
}

proof fn lemma_row<T: HostReductionElement>(
    into: Seq<T>,
    row: Seq<T>,
    count: int,
    operation: ReductionOperation,
)
    requires
        0 <= count <= into.len(),
        row.len() == into.len(),
        forall|a: T, b: T| (#[trigger] T::combined(a, b, operation)) is Ok,
    ensures
        combined_row(into, row, count, operation) is Ok,
        combined_row(into, row, count, operation)->Ok_0.len() == into.len(),
        forall|i: int|
            0 <= i < count ==> #[trigger] combined_row(into, row, count, operation)->Ok_0[i]
                == T::combined(into[i], row[i], operation)->Ok_0,
    decreases count,
{
    if count > 0 {
        lemma_row(into, row, count - 1, operation);
        assert(T::combined(into[count - 1], row[count - 1], operation) is Ok);
    }
}

/// Where two elements make what an operation means, all rows do.
proof fn lemma_rows<T: HostReductionElement>(
    values: Seq<T>,
    width: int,
    ranks: int,
    operation: ReductionOperation,
    meaning: ReductionOperation,
    reading: Reading<T>,
)
    requires
        0 < width,
        0 < ranks,
        ranks * width <= values.len(),
        0 < reading.modulus,
        forall|a: T, b: T|
            {
                &&& (#[trigger] T::combined(a, b, operation)) is Ok
                &&& reading.makes_of_two(meaning, a, b, T::combined(a, b, operation)->Ok_0)
            },
    ensures
        combined_rows(values, width, ranks, operation) is Ok,
        combined_rows(values, width, ranks, operation)->Ok_0.len() == width,
        forall|e: int|
            0 <= e < width ==> reading.makes(
                meaning,
                column(values, width, e, ranks),
                #[trigger] combined_rows(values, width, ranks, operation)->Ok_0[e],
            ),
    decreases ranks,
{
    assert(width <= ranks * width) by (nonlinear_arith)
        requires
            0 < ranks,
            0 < width,
    ;
    if ranks == 1 {
        assert forall|e: int| 0 <= e < width implies reading.makes(
            meaning,
            column(values, width, e, ranks),
            #[trigger] combined_rows(values, width, ranks, operation)->Ok_0[e],
        ) by {
            assert(0 * width == 0);
            assert(column(values, width, e, 1) =~= seq![values[e]]);
            reading.lemma_one(meaning, values[e]);
        }
    } else {
        let last = ranks - 1;
        assert(last * width + width == ranks * width) by (nonlinear_arith)
            requires
                last == ranks - 1,
        ;
        assert(0 <= last * width) by (nonlinear_arith)
            requires
                0 <= last,
                0 < width,
        ;
        lemma_rows(values, width, last, operation, meaning, reading);
        let before = combined_rows(values, width, last, operation)->Ok_0;
        let row = values.subrange(last * width, last * width + width);
        lemma_row(before, row, width, operation);
        assert forall|e: int| 0 <= e < width implies reading.makes(
            meaning,
            column(values, width, e, ranks),
            #[trigger] combined_rows(values, width, ranks, operation)->Ok_0[e],
        ) by {
            assert(row[e] == values[last * width + e]);
            assert(column(values, width, e, ranks) =~= column(values, width, e, last).push(row[e]));
            assert(T::combined(before[e], row[e], operation) is Ok);
            reading.lemma_more(
                meaning,
                column(values, width, e, last),
                before[e],
                row[e],
                T::combined(before[e], row[e], operation)->Ok_0,
            );
        }
    }
}

/// A u8 among bytes, in little-endian order.
pub open spec fn u8_at(bytes: Seq<u8>, index: int) -> u8 {
    bytes[index]
}

/// A u8 as a number up to its modulus, and by its bits.
pub open spec fn u8_reading() -> Reading<u8> {
    Reading {
        number: |value: u8| value as int,
        bit: |value: u8, k: u64| ((value as u64) >> k) & 1 == 1,
        modulus: 0x100,
    }
}

/// Two u8s make what the operation means.
pub proof fn law_u8_combines(a: u8, b: u8, operation: ReductionOperation)
    ensures
        u8::combined(a, b, operation) is Ok,
        u8_reading().makes_of_two(
            operation,
            a,
            b,
            u8::combined(a, b, operation)->Ok_0,
        ),
{
    let product = a as int * b as int;
    lemma_fundamental_div_mod(product, 0x100);
    lemma_mod_bound(product, 0x100);
    assert forall|k: u64| #[trigger] (u8_reading().bit)(a & b, k) <==> (u8_reading().bit)(a, k)
        && (u8_reading().bit)(b, k) by {
        lemma_u8_bits(a, b, k);
    }
    assert forall|k: u64| #[trigger] (u8_reading().bit)(a | b, k) <==> (u8_reading().bit)(a, k)
        || (u8_reading().bit)(b, k) by {
        lemma_u8_bits(a, b, k);
    }
    assert forall|k: u64| #[trigger] (u8_reading().bit)(a ^ b, k) <==> (u8_reading().bit)(a, k)
        != (u8_reading().bit)(b, k) by {
        lemma_u8_bits(a, b, k);
    }
}

proof fn lemma_u8_bits(a: u8, b: u8, k: u64)
    ensures
        ((((a & b) as u64) >> k) & 1 == 1) <==> ((((a as u64) >> k) & 1 == 1) && (((b as u64) >> k)
            & 1 == 1)),
        ((((a | b) as u64) >> k) & 1 == 1) <==> ((((a as u64) >> k) & 1 == 1) || (((b as u64) >> k)
            & 1 == 1)),
        ((((a ^ b) as u64) >> k) & 1 == 1) <==> ((((a as u64) >> k) & 1 == 1) != (((b as u64) >> k)
            & 1 == 1)),
{
    assert((((((a & b) as u64) >> k) & 1 == 1) <==> ((((a as u64) >> k) & 1 == 1) && (((b as u64)
        >> k) & 1 == 1))) && (((((a | b) as u64) >> k) & 1 == 1) <==> ((((a as u64) >> k) & 1 == 1)
        || (((b as u64) >> k) & 1 == 1))) && (((((a ^ b) as u64) >> k) & 1 == 1) <==> ((((a as u64)
        >> k) & 1 == 1) != (((b as u64) >> k) & 1 == 1)))) by (bit_vector);
}

/// Of the ranks' u8s, one row after the other, the host makes one row: each of its
/// elements is what the operation makes of that element of every rank.
pub proof fn law_u8_rows_reduce<
    F: HostReductionElement,
    C: HostReductionElement,
    Z: HostReductionElement,
>(payload: Seq<u8>, width: int, ranks: int, operation: ReductionOperation)
    requires
        0 < width,
        0 < ranks,
        payload.len() == width * ranks * 1,
        payload.len() <= usize::MAX,
    ensures
        ({
            let result = reduced_by_type::<F, C, Z>(
                ElementType::U8,
                payload,
                width,
                ranks,
                operation,
            );
            &&& result is Ok
            &&& result->Ok_0.len() == width * 1
            &&& forall|e: int|
                0 <= e < width ==> u8_reading().makes(
                    operation,
                    Seq::new(ranks as nat, |rank: int| u8_at(payload, rank * width + e)),
                    #[trigger] u8_at(result->Ok_0, e),
                )
        }),
{
    lemma_u8_length(payload);
    lemma_mod_multiples_basic(width * ranks, 1);
    let values = u8::decoded(payload)->Ok_0;
    assert(u8::decoded(payload) is Ok);
    assert(values.len() == width * ranks);
    assert(width * ranks == ranks * width) by (nonlinear_arith);
    assert forall|a: u8, b: u8|
        {
            &&& (#[trigger] u8::combined(a, b, operation)) is Ok
            &&& u8_reading().makes_of_two(
                operation,
                a,
                b,
                u8::combined(a, b, operation)->Ok_0,
            )
        } by {
        law_u8_combines(a, b, operation);
    }
    lemma_rows(values, width, ranks, operation, operation, u8_reading());
    let row = combined_rows(values, width, ranks, operation)->Ok_0;
    lemma_u8_lossless(row);
    let bytes = u8::encoded(row);
    assert(u8::decoded(bytes)->Ok_0 == row);
    assert forall|e: int| 0 <= e < width implies u8_reading().makes(
        operation,
        Seq::new(ranks as nat, |rank: int| u8_at(payload, rank * width + e)),
        #[trigger] u8_at(bytes, e),
    ) by {
        assert(row[e] == u8_at(bytes, e));
        let read = Seq::new(ranks as nat, |rank: int| u8_at(payload, rank * width + e));
        assert forall|rank: int| 0 <= rank < ranks implies column(values, width, e, ranks)[rank]
            == #[trigger] read[rank] by {
            assert(rank * width + e < ranks * width && 0 <= rank * width + e) by (nonlinear_arith)
                requires
                    0 <= rank < ranks,
                    0 <= e < width,
            ;
            assert(values[rank * width + e] == u8_at(payload, rank * width + e));
        }
        assert(column(values, width, e, ranks) =~= read);
    }
}

/// An i8 among bytes, in little-endian order.
pub open spec fn i8_at(bytes: Seq<u8>, index: int) -> i8 {
    bytes[index] as i8
}

/// An i8 as a number up to its modulus, and by its bits.
pub open spec fn i8_reading() -> Reading<i8> {
    Reading {
        number: |value: i8| value as int,
        bit: |value: i8, k: u64| ((value as u64) >> k) & 1 == 1,
        modulus: 0x100,
    }
}

/// Two i8s make what the operation means.
pub proof fn law_i8_combines(a: i8, b: i8, operation: ReductionOperation)
    ensures
        i8::combined(a, b, operation) is Ok,
        i8_reading().makes_of_two(
            operation,
            a,
            b,
            i8::combined(a, b, operation)->Ok_0,
        ),
{
    let product = a as int * b as int;
    lemma_fundamental_div_mod(product, 0x100);
    lemma_mod_bound(product, 0x100);
    assert forall|k: u64| #[trigger] (i8_reading().bit)(a & b, k) <==> (i8_reading().bit)(a, k)
        && (i8_reading().bit)(b, k) by {
        lemma_i8_bits(a, b, k);
    }
    assert forall|k: u64| #[trigger] (i8_reading().bit)(a | b, k) <==> (i8_reading().bit)(a, k)
        || (i8_reading().bit)(b, k) by {
        lemma_i8_bits(a, b, k);
    }
    assert forall|k: u64| #[trigger] (i8_reading().bit)(a ^ b, k) <==> (i8_reading().bit)(a, k)
        != (i8_reading().bit)(b, k) by {
        lemma_i8_bits(a, b, k);
    }
}

proof fn lemma_i8_bits(a: i8, b: i8, k: u64)
    ensures
        ((((a & b) as u64) >> k) & 1 == 1) <==> ((((a as u64) >> k) & 1 == 1) && (((b as u64) >> k)
            & 1 == 1)),
        ((((a | b) as u64) >> k) & 1 == 1) <==> ((((a as u64) >> k) & 1 == 1) || (((b as u64) >> k)
            & 1 == 1)),
        ((((a ^ b) as u64) >> k) & 1 == 1) <==> ((((a as u64) >> k) & 1 == 1) != (((b as u64) >> k)
            & 1 == 1)),
{
    assert((((((a & b) as u64) >> k) & 1 == 1) <==> ((((a as u64) >> k) & 1 == 1) && (((b as u64)
        >> k) & 1 == 1))) && (((((a | b) as u64) >> k) & 1 == 1) <==> ((((a as u64) >> k) & 1 == 1)
        || (((b as u64) >> k) & 1 == 1))) && (((((a ^ b) as u64) >> k) & 1 == 1) <==> ((((a as u64)
        >> k) & 1 == 1) != (((b as u64) >> k) & 1 == 1)))) by (bit_vector);
}

/// Of the ranks' i8s, one row after the other, the host makes one row: each of its
/// elements is what the operation makes of that element of every rank.
pub proof fn law_i8_rows_reduce<
    F: HostReductionElement,
    C: HostReductionElement,
    Z: HostReductionElement,
>(payload: Seq<u8>, width: int, ranks: int, operation: ReductionOperation)
    requires
        0 < width,
        0 < ranks,
        payload.len() == width * ranks * 1,
        payload.len() <= usize::MAX,
    ensures
        ({
            let result = reduced_by_type::<F, C, Z>(
                ElementType::I8,
                payload,
                width,
                ranks,
                operation,
            );
            &&& result is Ok
            &&& result->Ok_0.len() == width * 1
            &&& forall|e: int|
                0 <= e < width ==> i8_reading().makes(
                    operation,
                    Seq::new(ranks as nat, |rank: int| i8_at(payload, rank * width + e)),
                    #[trigger] i8_at(result->Ok_0, e),
                )
        }),
{
    lemma_i8_length(payload);
    lemma_mod_multiples_basic(width * ranks, 1);
    let values = i8::decoded(payload)->Ok_0;
    assert(i8::decoded(payload) is Ok);
    assert(values.len() == width * ranks);
    assert(width * ranks == ranks * width) by (nonlinear_arith);
    assert forall|a: i8, b: i8|
        {
            &&& (#[trigger] i8::combined(a, b, operation)) is Ok
            &&& i8_reading().makes_of_two(
                operation,
                a,
                b,
                i8::combined(a, b, operation)->Ok_0,
            )
        } by {
        law_i8_combines(a, b, operation);
    }
    lemma_rows(values, width, ranks, operation, operation, i8_reading());
    let row = combined_rows(values, width, ranks, operation)->Ok_0;
    lemma_i8_lossless(row);
    let bytes = i8::encoded(row);
    assert(i8::decoded(bytes)->Ok_0 == row);
    assert forall|e: int| 0 <= e < width implies i8_reading().makes(
        operation,
        Seq::new(ranks as nat, |rank: int| i8_at(payload, rank * width + e)),
        #[trigger] i8_at(bytes, e),
    ) by {
        assert(row[e] == i8_at(bytes, e));
        let read = Seq::new(ranks as nat, |rank: int| i8_at(payload, rank * width + e));
        assert forall|rank: int| 0 <= rank < ranks implies column(values, width, e, ranks)[rank]
            == #[trigger] read[rank] by {
            assert(rank * width + e < ranks * width && 0 <= rank * width + e) by (nonlinear_arith)
                requires
                    0 <= rank < ranks,
                    0 <= e < width,
            ;
            assert(values[rank * width + e] == i8_at(payload, rank * width + e));
        }
        assert(column(values, width, e, ranks) =~= read);
    }
}

/// A u16 among bytes, in little-endian order.
pub open spec fn u16_at(bytes: Seq<u8>, index: int) -> u16 {
    spec_u16_from_le_bytes(bytes.subrange(index * 2, index * 2 + 2))
}

/// A u16 as a number up to its modulus, and by its bits.
pub open spec fn u16_reading() -> Reading<u16> {
    Reading {
        number: |value: u16| value as int,
        bit: |value: u16, k: u64| ((value as u64) >> k) & 1 == 1,
        modulus: 0x1_0000,
    }
}

/// Two u16s make what the operation means.
pub proof fn law_u16_combines(a: u16, b: u16, operation: ReductionOperation)
    ensures
        u16::combined(a, b, operation) is Ok,
        u16_reading().makes_of_two(
            operation,
            a,
            b,
            u16::combined(a, b, operation)->Ok_0,
        ),
{
    let product = a as int * b as int;
    lemma_fundamental_div_mod(product, 0x1_0000);
    lemma_mod_bound(product, 0x1_0000);
    assert forall|k: u64| #[trigger] (u16_reading().bit)(a & b, k) <==> (u16_reading().bit)(a, k)
        && (u16_reading().bit)(b, k) by {
        lemma_u16_bits(a, b, k);
    }
    assert forall|k: u64| #[trigger] (u16_reading().bit)(a | b, k) <==> (u16_reading().bit)(a, k)
        || (u16_reading().bit)(b, k) by {
        lemma_u16_bits(a, b, k);
    }
    assert forall|k: u64| #[trigger] (u16_reading().bit)(a ^ b, k) <==> (u16_reading().bit)(a, k)
        != (u16_reading().bit)(b, k) by {
        lemma_u16_bits(a, b, k);
    }
}

proof fn lemma_u16_bits(a: u16, b: u16, k: u64)
    ensures
        ((((a & b) as u64) >> k) & 1 == 1) <==> ((((a as u64) >> k) & 1 == 1) && (((b as u64) >> k)
            & 1 == 1)),
        ((((a | b) as u64) >> k) & 1 == 1) <==> ((((a as u64) >> k) & 1 == 1) || (((b as u64) >> k)
            & 1 == 1)),
        ((((a ^ b) as u64) >> k) & 1 == 1) <==> ((((a as u64) >> k) & 1 == 1) != (((b as u64) >> k)
            & 1 == 1)),
{
    assert((((((a & b) as u64) >> k) & 1 == 1) <==> ((((a as u64) >> k) & 1 == 1) && (((b as u64)
        >> k) & 1 == 1))) && (((((a | b) as u64) >> k) & 1 == 1) <==> ((((a as u64) >> k) & 1 == 1)
        || (((b as u64) >> k) & 1 == 1))) && (((((a ^ b) as u64) >> k) & 1 == 1) <==> ((((a as u64)
        >> k) & 1 == 1) != (((b as u64) >> k) & 1 == 1)))) by (bit_vector);
}

/// Of the ranks' u16s, one row after the other, the host makes one row: each of its
/// elements is what the operation makes of that element of every rank.
pub proof fn law_u16_rows_reduce<
    F: HostReductionElement,
    C: HostReductionElement,
    Z: HostReductionElement,
>(payload: Seq<u8>, width: int, ranks: int, operation: ReductionOperation)
    requires
        0 < width,
        0 < ranks,
        payload.len() == width * ranks * 2,
        payload.len() <= usize::MAX,
    ensures
        ({
            let result = reduced_by_type::<F, C, Z>(
                ElementType::U16,
                payload,
                width,
                ranks,
                operation,
            );
            &&& result is Ok
            &&& result->Ok_0.len() == width * 2
            &&& forall|e: int|
                0 <= e < width ==> u16_reading().makes(
                    operation,
                    Seq::new(ranks as nat, |rank: int| u16_at(payload, rank * width + e)),
                    #[trigger] u16_at(result->Ok_0, e),
                )
        }),
{
    lemma_u16_length(payload);
    lemma_mod_multiples_basic(width * ranks, 2);
    let values = u16::decoded(payload)->Ok_0;
    assert(u16::decoded(payload) is Ok);
    assert(values.len() == width * ranks);
    assert(width * ranks == ranks * width) by (nonlinear_arith);
    assert forall|a: u16, b: u16|
        {
            &&& (#[trigger] u16::combined(a, b, operation)) is Ok
            &&& u16_reading().makes_of_two(
                operation,
                a,
                b,
                u16::combined(a, b, operation)->Ok_0,
            )
        } by {
        law_u16_combines(a, b, operation);
    }
    lemma_rows(values, width, ranks, operation, operation, u16_reading());
    let row = combined_rows(values, width, ranks, operation)->Ok_0;
    lemma_u16_lossless(row);
    let bytes = u16::encoded(row);
    assert(u16::decoded(bytes)->Ok_0 == row);
    assert forall|e: int| 0 <= e < width implies u16_reading().makes(
        operation,
        Seq::new(ranks as nat, |rank: int| u16_at(payload, rank * width + e)),
        #[trigger] u16_at(bytes, e),
    ) by {
        assert(row[e] == u16_at(bytes, e));
        let read = Seq::new(ranks as nat, |rank: int| u16_at(payload, rank * width + e));
        assert forall|rank: int| 0 <= rank < ranks implies column(values, width, e, ranks)[rank]
            == #[trigger] read[rank] by {
            assert(rank * width + e < ranks * width && 0 <= rank * width + e) by (nonlinear_arith)
                requires
                    0 <= rank < ranks,
                    0 <= e < width,
            ;
            assert(values[rank * width + e] == u16_at(payload, rank * width + e));
        }
        assert(column(values, width, e, ranks) =~= read);
    }
}

/// An i16 among bytes, in little-endian order.
pub open spec fn i16_at(bytes: Seq<u8>, index: int) -> i16 {
    spec_u16_from_le_bytes(bytes.subrange(index * 2, index * 2 + 2)) as i16
}

/// An i16 as a number up to its modulus, and by its bits.
pub open spec fn i16_reading() -> Reading<i16> {
    Reading {
        number: |value: i16| value as int,
        bit: |value: i16, k: u64| ((value as u64) >> k) & 1 == 1,
        modulus: 0x1_0000,
    }
}

/// Two i16s make what the operation means.
pub proof fn law_i16_combines(a: i16, b: i16, operation: ReductionOperation)
    ensures
        i16::combined(a, b, operation) is Ok,
        i16_reading().makes_of_two(
            operation,
            a,
            b,
            i16::combined(a, b, operation)->Ok_0,
        ),
{
    let product = a as int * b as int;
    lemma_fundamental_div_mod(product, 0x1_0000);
    lemma_mod_bound(product, 0x1_0000);
    assert forall|k: u64| #[trigger] (i16_reading().bit)(a & b, k) <==> (i16_reading().bit)(a, k)
        && (i16_reading().bit)(b, k) by {
        lemma_i16_bits(a, b, k);
    }
    assert forall|k: u64| #[trigger] (i16_reading().bit)(a | b, k) <==> (i16_reading().bit)(a, k)
        || (i16_reading().bit)(b, k) by {
        lemma_i16_bits(a, b, k);
    }
    assert forall|k: u64| #[trigger] (i16_reading().bit)(a ^ b, k) <==> (i16_reading().bit)(a, k)
        != (i16_reading().bit)(b, k) by {
        lemma_i16_bits(a, b, k);
    }
}

proof fn lemma_i16_bits(a: i16, b: i16, k: u64)
    ensures
        ((((a & b) as u64) >> k) & 1 == 1) <==> ((((a as u64) >> k) & 1 == 1) && (((b as u64) >> k)
            & 1 == 1)),
        ((((a | b) as u64) >> k) & 1 == 1) <==> ((((a as u64) >> k) & 1 == 1) || (((b as u64) >> k)
            & 1 == 1)),
        ((((a ^ b) as u64) >> k) & 1 == 1) <==> ((((a as u64) >> k) & 1 == 1) != (((b as u64) >> k)
            & 1 == 1)),
{
    assert((((((a & b) as u64) >> k) & 1 == 1) <==> ((((a as u64) >> k) & 1 == 1) && (((b as u64)
        >> k) & 1 == 1))) && (((((a | b) as u64) >> k) & 1 == 1) <==> ((((a as u64) >> k) & 1 == 1)
        || (((b as u64) >> k) & 1 == 1))) && (((((a ^ b) as u64) >> k) & 1 == 1) <==> ((((a as u64)
        >> k) & 1 == 1) != (((b as u64) >> k) & 1 == 1)))) by (bit_vector);
}

/// Of the ranks' i16s, one row after the other, the host makes one row: each of its
/// elements is what the operation makes of that element of every rank.
pub proof fn law_i16_rows_reduce<
    F: HostReductionElement,
    C: HostReductionElement,
    Z: HostReductionElement,
>(payload: Seq<u8>, width: int, ranks: int, operation: ReductionOperation)
    requires
        0 < width,
        0 < ranks,
        payload.len() == width * ranks * 2,
        payload.len() <= usize::MAX,
    ensures
        ({
            let result = reduced_by_type::<F, C, Z>(
                ElementType::I16,
                payload,
                width,
                ranks,
                operation,
            );
            &&& result is Ok
            &&& result->Ok_0.len() == width * 2
            &&& forall|e: int|
                0 <= e < width ==> i16_reading().makes(
                    operation,
                    Seq::new(ranks as nat, |rank: int| i16_at(payload, rank * width + e)),
                    #[trigger] i16_at(result->Ok_0, e),
                )
        }),
{
    lemma_i16_length(payload);
    lemma_mod_multiples_basic(width * ranks, 2);
    let values = i16::decoded(payload)->Ok_0;
    assert(i16::decoded(payload) is Ok);
    assert(values.len() == width * ranks);
    assert(width * ranks == ranks * width) by (nonlinear_arith);
    assert forall|a: i16, b: i16|
        {
            &&& (#[trigger] i16::combined(a, b, operation)) is Ok
            &&& i16_reading().makes_of_two(
                operation,
                a,
                b,
                i16::combined(a, b, operation)->Ok_0,
            )
        } by {
        law_i16_combines(a, b, operation);
    }
    lemma_rows(values, width, ranks, operation, operation, i16_reading());
    let row = combined_rows(values, width, ranks, operation)->Ok_0;
    lemma_i16_lossless(row);
    let bytes = i16::encoded(row);
    assert(i16::decoded(bytes)->Ok_0 == row);
    assert forall|e: int| 0 <= e < width implies i16_reading().makes(
        operation,
        Seq::new(ranks as nat, |rank: int| i16_at(payload, rank * width + e)),
        #[trigger] i16_at(bytes, e),
    ) by {
        assert(row[e] == i16_at(bytes, e));
        let read = Seq::new(ranks as nat, |rank: int| i16_at(payload, rank * width + e));
        assert forall|rank: int| 0 <= rank < ranks implies column(values, width, e, ranks)[rank]
            == #[trigger] read[rank] by {
            assert(rank * width + e < ranks * width && 0 <= rank * width + e) by (nonlinear_arith)
                requires
                    0 <= rank < ranks,
                    0 <= e < width,
            ;
            assert(values[rank * width + e] == i16_at(payload, rank * width + e));
        }
        assert(column(values, width, e, ranks) =~= read);
    }
}

/// A u32 among bytes, in little-endian order.
pub open spec fn u32_at(bytes: Seq<u8>, index: int) -> u32 {
    spec_u32_from_le_bytes(bytes.subrange(index * 4, index * 4 + 4))
}

/// A u32 as a number up to its modulus, and by its bits.
pub open spec fn u32_reading() -> Reading<u32> {
    Reading {
        number: |value: u32| value as int,
        bit: |value: u32, k: u64| ((value as u64) >> k) & 1 == 1,
        modulus: 0x1_0000_0000,
    }
}

/// Two u32s make what the operation means.
pub proof fn law_u32_combines(a: u32, b: u32, operation: ReductionOperation)
    ensures
        u32::combined(a, b, operation) is Ok,
        u32_reading().makes_of_two(
            operation,
            a,
            b,
            u32::combined(a, b, operation)->Ok_0,
        ),
{
    let product = a as int * b as int;
    lemma_fundamental_div_mod(product, 0x1_0000_0000);
    lemma_mod_bound(product, 0x1_0000_0000);
    assert forall|k: u64| #[trigger] (u32_reading().bit)(a & b, k) <==> (u32_reading().bit)(a, k)
        && (u32_reading().bit)(b, k) by {
        lemma_u32_bits(a, b, k);
    }
    assert forall|k: u64| #[trigger] (u32_reading().bit)(a | b, k) <==> (u32_reading().bit)(a, k)
        || (u32_reading().bit)(b, k) by {
        lemma_u32_bits(a, b, k);
    }
    assert forall|k: u64| #[trigger] (u32_reading().bit)(a ^ b, k) <==> (u32_reading().bit)(a, k)
        != (u32_reading().bit)(b, k) by {
        lemma_u32_bits(a, b, k);
    }
}

proof fn lemma_u32_bits(a: u32, b: u32, k: u64)
    ensures
        ((((a & b) as u64) >> k) & 1 == 1) <==> ((((a as u64) >> k) & 1 == 1) && (((b as u64) >> k)
            & 1 == 1)),
        ((((a | b) as u64) >> k) & 1 == 1) <==> ((((a as u64) >> k) & 1 == 1) || (((b as u64) >> k)
            & 1 == 1)),
        ((((a ^ b) as u64) >> k) & 1 == 1) <==> ((((a as u64) >> k) & 1 == 1) != (((b as u64) >> k)
            & 1 == 1)),
{
    assert((((((a & b) as u64) >> k) & 1 == 1) <==> ((((a as u64) >> k) & 1 == 1) && (((b as u64)
        >> k) & 1 == 1))) && (((((a | b) as u64) >> k) & 1 == 1) <==> ((((a as u64) >> k) & 1 == 1)
        || (((b as u64) >> k) & 1 == 1))) && (((((a ^ b) as u64) >> k) & 1 == 1) <==> ((((a as u64)
        >> k) & 1 == 1) != (((b as u64) >> k) & 1 == 1)))) by (bit_vector);
}

/// Of the ranks' u32s, one row after the other, the host makes one row: each of its
/// elements is what the operation makes of that element of every rank.
pub proof fn law_u32_rows_reduce<
    F: HostReductionElement,
    C: HostReductionElement,
    Z: HostReductionElement,
>(payload: Seq<u8>, width: int, ranks: int, operation: ReductionOperation)
    requires
        0 < width,
        0 < ranks,
        payload.len() == width * ranks * 4,
        payload.len() <= usize::MAX,
    ensures
        ({
            let result = reduced_by_type::<F, C, Z>(
                ElementType::U32,
                payload,
                width,
                ranks,
                operation,
            );
            &&& result is Ok
            &&& result->Ok_0.len() == width * 4
            &&& forall|e: int|
                0 <= e < width ==> u32_reading().makes(
                    operation,
                    Seq::new(ranks as nat, |rank: int| u32_at(payload, rank * width + e)),
                    #[trigger] u32_at(result->Ok_0, e),
                )
        }),
{
    lemma_u32_length(payload);
    lemma_mod_multiples_basic(width * ranks, 4);
    let values = u32::decoded(payload)->Ok_0;
    assert(u32::decoded(payload) is Ok);
    assert(values.len() == width * ranks);
    assert(width * ranks == ranks * width) by (nonlinear_arith);
    assert forall|a: u32, b: u32|
        {
            &&& (#[trigger] u32::combined(a, b, operation)) is Ok
            &&& u32_reading().makes_of_two(
                operation,
                a,
                b,
                u32::combined(a, b, operation)->Ok_0,
            )
        } by {
        law_u32_combines(a, b, operation);
    }
    lemma_rows(values, width, ranks, operation, operation, u32_reading());
    let row = combined_rows(values, width, ranks, operation)->Ok_0;
    lemma_u32_lossless(row);
    let bytes = u32::encoded(row);
    assert(u32::decoded(bytes)->Ok_0 == row);
    assert forall|e: int| 0 <= e < width implies u32_reading().makes(
        operation,
        Seq::new(ranks as nat, |rank: int| u32_at(payload, rank * width + e)),
        #[trigger] u32_at(bytes, e),
    ) by {
        assert(row[e] == u32_at(bytes, e));
        let read = Seq::new(ranks as nat, |rank: int| u32_at(payload, rank * width + e));
        assert forall|rank: int| 0 <= rank < ranks implies column(values, width, e, ranks)[rank]
            == #[trigger] read[rank] by {
            assert(rank * width + e < ranks * width && 0 <= rank * width + e) by (nonlinear_arith)
                requires
                    0 <= rank < ranks,
                    0 <= e < width,
            ;
            assert(values[rank * width + e] == u32_at(payload, rank * width + e));
        }
        assert(column(values, width, e, ranks) =~= read);
    }
}

/// A u64 among bytes, in little-endian order.
pub open spec fn u64_at(bytes: Seq<u8>, index: int) -> u64 {
    spec_u64_from_le_bytes(bytes.subrange(index * 8, index * 8 + 8))
}

/// A u64 as a number up to its modulus, and by its bits.
pub open spec fn u64_reading() -> Reading<u64> {
    Reading {
        number: |value: u64| value as int,
        bit: |value: u64, k: u64| ((value as u64) >> k) & 1 == 1,
        modulus: 0x1_0000_0000_0000_0000,
    }
}

/// Two u64s make what the operation means.
pub proof fn law_u64_combines(a: u64, b: u64, operation: ReductionOperation)
    ensures
        u64::combined(a, b, operation) is Ok,
        u64_reading().makes_of_two(
            operation,
            a,
            b,
            u64::combined(a, b, operation)->Ok_0,
        ),
{
    let product = a as int * b as int;
    lemma_fundamental_div_mod(product, 0x1_0000_0000_0000_0000);
    lemma_mod_bound(product, 0x1_0000_0000_0000_0000);
    assert forall|k: u64| #[trigger] (u64_reading().bit)(a & b, k) <==> (u64_reading().bit)(a, k)
        && (u64_reading().bit)(b, k) by {
        lemma_u64_bits(a, b, k);
    }
    assert forall|k: u64| #[trigger] (u64_reading().bit)(a | b, k) <==> (u64_reading().bit)(a, k)
        || (u64_reading().bit)(b, k) by {
        lemma_u64_bits(a, b, k);
    }
    assert forall|k: u64| #[trigger] (u64_reading().bit)(a ^ b, k) <==> (u64_reading().bit)(a, k)
        != (u64_reading().bit)(b, k) by {
        lemma_u64_bits(a, b, k);
    }
}

proof fn lemma_u64_bits(a: u64, b: u64, k: u64)
    ensures
        ((((a & b) as u64) >> k) & 1 == 1) <==> ((((a as u64) >> k) & 1 == 1) && (((b as u64) >> k)
            & 1 == 1)),
        ((((a | b) as u64) >> k) & 1 == 1) <==> ((((a as u64) >> k) & 1 == 1) || (((b as u64) >> k)
            & 1 == 1)),
        ((((a ^ b) as u64) >> k) & 1 == 1) <==> ((((a as u64) >> k) & 1 == 1) != (((b as u64) >> k)
            & 1 == 1)),
{
    assert((((((a & b) as u64) >> k) & 1 == 1) <==> ((((a as u64) >> k) & 1 == 1) && (((b as u64)
        >> k) & 1 == 1))) && (((((a | b) as u64) >> k) & 1 == 1) <==> ((((a as u64) >> k) & 1 == 1)
        || (((b as u64) >> k) & 1 == 1))) && (((((a ^ b) as u64) >> k) & 1 == 1) <==> ((((a as u64)
        >> k) & 1 == 1) != (((b as u64) >> k) & 1 == 1)))) by (bit_vector);
}

/// Of the ranks' u64s, one row after the other, the host makes one row: each of its
/// elements is what the operation makes of that element of every rank.
pub proof fn law_u64_rows_reduce<
    F: HostReductionElement,
    C: HostReductionElement,
    Z: HostReductionElement,
>(payload: Seq<u8>, width: int, ranks: int, operation: ReductionOperation)
    requires
        0 < width,
        0 < ranks,
        payload.len() == width * ranks * 8,
        payload.len() <= usize::MAX,
    ensures
        ({
            let result = reduced_by_type::<F, C, Z>(
                ElementType::U64,
                payload,
                width,
                ranks,
                operation,
            );
            &&& result is Ok
            &&& result->Ok_0.len() == width * 8
            &&& forall|e: int|
                0 <= e < width ==> u64_reading().makes(
                    operation,
                    Seq::new(ranks as nat, |rank: int| u64_at(payload, rank * width + e)),
                    #[trigger] u64_at(result->Ok_0, e),
                )
        }),
{
    lemma_u64_length(payload);
    lemma_mod_multiples_basic(width * ranks, 8);
    let values = u64::decoded(payload)->Ok_0;
    assert(u64::decoded(payload) is Ok);
    assert(values.len() == width * ranks);
    assert(width * ranks == ranks * width) by (nonlinear_arith);
    assert forall|a: u64, b: u64|
        {
            &&& (#[trigger] u64::combined(a, b, operation)) is Ok
            &&& u64_reading().makes_of_two(
                operation,
                a,
                b,
                u64::combined(a, b, operation)->Ok_0,
            )
        } by {
        law_u64_combines(a, b, operation);
    }
    lemma_rows(values, width, ranks, operation, operation, u64_reading());
    let row = combined_rows(values, width, ranks, operation)->Ok_0;
    lemma_u64_lossless(row);
    let bytes = u64::encoded(row);
    assert(u64::decoded(bytes)->Ok_0 == row);
    assert forall|e: int| 0 <= e < width implies u64_reading().makes(
        operation,
        Seq::new(ranks as nat, |rank: int| u64_at(payload, rank * width + e)),
        #[trigger] u64_at(bytes, e),
    ) by {
        assert(row[e] == u64_at(bytes, e));
        let read = Seq::new(ranks as nat, |rank: int| u64_at(payload, rank * width + e));
        assert forall|rank: int| 0 <= rank < ranks implies column(values, width, e, ranks)[rank]
            == #[trigger] read[rank] by {
            assert(rank * width + e < ranks * width && 0 <= rank * width + e) by (nonlinear_arith)
                requires
                    0 <= rank < ranks,
                    0 <= e < width,
            ;
            assert(values[rank * width + e] == u64_at(payload, rank * width + e));
        }
        assert(column(values, width, e, ranks) =~= read);
    }
}

/// An i64 among bytes, in little-endian order.
pub open spec fn i64_at(bytes: Seq<u8>, index: int) -> i64 {
    spec_u64_from_le_bytes(bytes.subrange(index * 8, index * 8 + 8)) as i64
}

/// An i64 as a number up to its modulus, and by its bits.
pub open spec fn i64_reading() -> Reading<i64> {
    Reading {
        number: |value: i64| value as int,
        bit: |value: i64, k: u64| ((value as u64) >> k) & 1 == 1,
        modulus: 0x1_0000_0000_0000_0000,
    }
}

/// Two i64s make what the operation means.
pub proof fn law_i64_combines(a: i64, b: i64, operation: ReductionOperation)
    ensures
        i64::combined(a, b, operation) is Ok,
        i64_reading().makes_of_two(
            operation,
            a,
            b,
            i64::combined(a, b, operation)->Ok_0,
        ),
{
    let product = a as int * b as int;
    lemma_fundamental_div_mod(product, 0x1_0000_0000_0000_0000);
    lemma_mod_bound(product, 0x1_0000_0000_0000_0000);
    assert forall|k: u64| #[trigger] (i64_reading().bit)(a & b, k) <==> (i64_reading().bit)(a, k)
        && (i64_reading().bit)(b, k) by {
        lemma_i64_bits(a, b, k);
    }
    assert forall|k: u64| #[trigger] (i64_reading().bit)(a | b, k) <==> (i64_reading().bit)(a, k)
        || (i64_reading().bit)(b, k) by {
        lemma_i64_bits(a, b, k);
    }
    assert forall|k: u64| #[trigger] (i64_reading().bit)(a ^ b, k) <==> (i64_reading().bit)(a, k)
        != (i64_reading().bit)(b, k) by {
        lemma_i64_bits(a, b, k);
    }
}

proof fn lemma_i64_bits(a: i64, b: i64, k: u64)
    ensures
        ((((a & b) as u64) >> k) & 1 == 1) <==> ((((a as u64) >> k) & 1 == 1) && (((b as u64) >> k)
            & 1 == 1)),
        ((((a | b) as u64) >> k) & 1 == 1) <==> ((((a as u64) >> k) & 1 == 1) || (((b as u64) >> k)
            & 1 == 1)),
        ((((a ^ b) as u64) >> k) & 1 == 1) <==> ((((a as u64) >> k) & 1 == 1) != (((b as u64) >> k)
            & 1 == 1)),
{
    assert((((((a & b) as u64) >> k) & 1 == 1) <==> ((((a as u64) >> k) & 1 == 1) && (((b as u64)
        >> k) & 1 == 1))) && (((((a | b) as u64) >> k) & 1 == 1) <==> ((((a as u64) >> k) & 1 == 1)
        || (((b as u64) >> k) & 1 == 1))) && (((((a ^ b) as u64) >> k) & 1 == 1) <==> ((((a as u64)
        >> k) & 1 == 1) != (((b as u64) >> k) & 1 == 1)))) by (bit_vector);
}

/// Of the ranks' i64s, one row after the other, the host makes one row: each of its
/// elements is what the operation makes of that element of every rank.
pub proof fn law_i64_rows_reduce<
    F: HostReductionElement,
    C: HostReductionElement,
    Z: HostReductionElement,
>(payload: Seq<u8>, width: int, ranks: int, operation: ReductionOperation)
    requires
        0 < width,
        0 < ranks,
        payload.len() == width * ranks * 8,
        payload.len() <= usize::MAX,
    ensures
        ({
            let result = reduced_by_type::<F, C, Z>(
                ElementType::I64,
                payload,
                width,
                ranks,
                operation,
            );
            &&& result is Ok
            &&& result->Ok_0.len() == width * 8
            &&& forall|e: int|
                0 <= e < width ==> i64_reading().makes(
                    operation,
                    Seq::new(ranks as nat, |rank: int| i64_at(payload, rank * width + e)),
                    #[trigger] i64_at(result->Ok_0, e),
                )
        }),
{
    lemma_i64_length(payload);
    lemma_mod_multiples_basic(width * ranks, 8);
    let values = i64::decoded(payload)->Ok_0;
    assert(i64::decoded(payload) is Ok);
    assert(values.len() == width * ranks);
    assert(width * ranks == ranks * width) by (nonlinear_arith);
    assert forall|a: i64, b: i64|
        {
            &&& (#[trigger] i64::combined(a, b, operation)) is Ok
            &&& i64_reading().makes_of_two(
                operation,
                a,
                b,
                i64::combined(a, b, operation)->Ok_0,
            )
        } by {
        law_i64_combines(a, b, operation);
    }
    lemma_rows(values, width, ranks, operation, operation, i64_reading());
    let row = combined_rows(values, width, ranks, operation)->Ok_0;
    lemma_i64_lossless(row);
    let bytes = i64::encoded(row);
    assert(i64::decoded(bytes)->Ok_0 == row);
    assert forall|e: int| 0 <= e < width implies i64_reading().makes(
        operation,
        Seq::new(ranks as nat, |rank: int| i64_at(payload, rank * width + e)),
        #[trigger] i64_at(bytes, e),
    ) by {
        assert(row[e] == i64_at(bytes, e));
        let read = Seq::new(ranks as nat, |rank: int| i64_at(payload, rank * width + e));
        assert forall|rank: int| 0 <= rank < ranks implies column(values, width, e, ranks)[rank]
            == #[trigger] read[rank] by {
            assert(rank * width + e < ranks * width && 0 <= rank * width + e) by (nonlinear_arith)
                requires
                    0 <= rank < ranks,
                    0 <= e < width,
            ;
            assert(values[rank * width + e] == i64_at(payload, rank * width + e));
        }
        assert(column(values, width, e, ranks) =~= read);
    }
}

/// A boolean as the number one or nothing, and as a single bit.
pub open spec fn bool_reading() -> Reading<bool> {
    Reading {
        number: |value: bool|
            if value {
                1
            } else {
                0
            },
        bit: |value: bool, k: u64| value,
        modulus: 2,
    }
}

/// What an operation means for booleans: sums and maxima ask for any, products and
/// minima for all.
pub open spec fn bool_meaning(operation: ReductionOperation) -> ReductionOperation {
    match operation {
        ReductionOperation::Sum => ReductionOperation::BitOr,
        ReductionOperation::Maximum => ReductionOperation::BitOr,
        ReductionOperation::Product => ReductionOperation::BitAnd,
        ReductionOperation::Minimum => ReductionOperation::BitAnd,
        other => other,
    }
}

proof fn lemma_booleans_read(bytes: Seq<u8>)
    requires
        forall|i: int| 0 <= i < bytes.len() ==> #[trigger] bytes[i] <= 1,
    ensures
        booleans(bytes) == Ok::<Seq<bool>, Seq<char>>(
            Seq::new(bytes.len(), |i: int| bytes[i] == 1),
        ),
    decreases bytes.len(),
{
    let wanted = Seq::new(bytes.len(), |i: int| bytes[i] == 1);
    if bytes.len() > 0 {
        let shorter = bytes.drop_last();
        assert forall|i: int| 0 <= i < shorter.len() implies #[trigger] shorter[i] <= 1 by {
            assert(shorter[i] == bytes[i]);
        }
        lemma_booleans_read(shorter);
        assert(bytes.last() == bytes[bytes.len() - 1]);
        assert(booleans(shorter)->Ok_0.push(bytes.last() == 1) =~= wanted);
    } else {
        assert(wanted =~= Seq::empty());
    }
}

/// Of the ranks' booleans, one row after the other, the host makes one row: each of
/// its elements says whether any, all or an odd number of the ranks have theirs set.
pub proof fn law_bool_rows_reduce<
    F: HostReductionElement,
    C: HostReductionElement,
    Z: HostReductionElement,
>(payload: Seq<u8>, width: int, ranks: int, operation: ReductionOperation)
    requires
        0 < width,
        0 < ranks,
        payload.len() == width * ranks,
        payload.len() <= usize::MAX,
        forall|i: int| 0 <= i < payload.len() ==> #[trigger] payload[i] <= 1,
    ensures
        ({
            let result = reduced_by_type::<F, C, Z>(
                ElementType::Bool,
                payload,
                width,
                ranks,
                operation,
            );
            &&& result is Ok
            &&& result->Ok_0.len() == width
            &&& forall|e: int|
                0 <= e < width ==> {
                    &&& (#[trigger] result->Ok_0[e]) <= 1
                    &&& bool_reading().makes(
                        bool_meaning(operation),
                        Seq::new(ranks as nat, |rank: int| payload[rank * width + e] == 1),
                        result->Ok_0[e] == 1,
                    )
                }
        }),
{
    lemma_bool_length(payload);
    lemma_booleans_read(payload);
    let values = bool::decoded(payload)->Ok_0;
    assert(values.len() == width * ranks);
    assert(width * ranks == ranks * width) by (nonlinear_arith);
    assert forall|a: bool, b: bool|
        {
            &&& (#[trigger] bool::combined(a, b, operation)) is Ok
            &&& bool_reading().makes_of_two(
                bool_meaning(operation),
                a,
                b,
                bool::combined(a, b, operation)->Ok_0,
            )
        } by {}
    lemma_rows(values, width, ranks, operation, bool_meaning(operation), bool_reading());
    let row = combined_rows(values, width, ranks, operation)->Ok_0;
    lemma_bool_lossless(row);
    let bytes = bool::encoded(row);
    assert forall|e: int| 0 <= e < width implies {
        &&& (#[trigger] bytes[e]) <= 1
        &&& bool_reading().makes(
            bool_meaning(operation),
            Seq::new(ranks as nat, |rank: int| payload[rank * width + e] == 1),
            bytes[e] == 1,
        )
    } by {
        assert((bytes[e] == 1) == row[e]);
        let read = Seq::new(ranks as nat, |rank: int| payload[rank * width + e] == 1);
        assert forall|rank: int| 0 <= rank < ranks implies column(values, width, e, ranks)[rank]
            == #[trigger] read[rank] by {
            assert(rank * width + e < ranks * width && 0 <= rank * width + e) by (nonlinear_arith)
                requires
                    0 <= rank < ranks,
                    0 <= e < width,
            ;
        }
        assert(column(values, width, e, ranks) =~= read);
    }
}

} // verus!

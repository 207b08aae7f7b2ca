//! Decimal, hexadecimal and list renderings used by messages.

use vstd::prelude::*;
use vstd::utf8::*;
use vstd::string::*;

verus! {

/// The decimal digits of `n`, most significant first.
pub open spec fn decimal(n: nat) -> Seq<char>
    decreases n,
{
    if n < 10 {
        seq![digit_char(n)]
    } else {
        decimal(n / 10).push(digit_char(n % 10))
    }
}

/// The character of a decimal digit.
pub open spec fn digit_char(digit: nat) -> char {
    (48 + digit) as char
}

/// The character of a lower-case hexadecimal digit.
pub open spec fn hex_char(digit: nat) -> char {
    if digit < 10 {
        (48 + digit) as char
    } else {
        (87 + digit) as char
    }
}

/// The last `width` hexadecimal digits of `n`.
pub open spec fn hex_fixed(n: nat, width: nat) -> Seq<char>
    decreases width,
{
    if width == 0 {
        Seq::empty()
    } else {
        hex_fixed(n / 16, (width - 1) as nat).push(hex_char(n % 16))
    }
}

/// The numbers in brackets, separated by a comma and a space.
pub open spec fn number_list(values: Seq<nat>) -> Seq<char> {
    seq!['['] + number_items(values) + seq![']']
}

pub open spec fn number_items(values: Seq<nat>) -> Seq<char>
    decreases values.len(),
{
    if values.len() == 0 {
        Seq::empty()
    } else if values.len() == 1 {
        decimal(values[0])
    } else {
        number_items(values.drop_last()) + seq![',', ' '] + decimal(values.last())
    }
}

/// A text in quotation marks, with what cannot be printed escaped.
pub uninterp spec fn quoted(text: Seq<char>) -> Seq<char>;

/// `str`'s `Debug` rendering, through `format!`: it depends on the text alone.
#[verifier::external_body]
pub(crate) fn quote(text: &str) -> (result: String)
    ensures
        result@ == quoted(text@),
{
    format!("{text:?}")
}

fn digit_text(digit: u8) -> (text: &'static str)
    requires
        digit < 16,
    ensures
        text@ == seq![hex_char(digit as nat)],
{
    proof {
        reveal_strlit("0");
        reveal_strlit("1");
        reveal_strlit("2");
        reveal_strlit("3");
        reveal_strlit("4");
        reveal_strlit("5");
        reveal_strlit("6");
        reveal_strlit("7");
        reveal_strlit("8");
        reveal_strlit("9");
        reveal_strlit("a");
        reveal_strlit("b");
        reveal_strlit("c");
        reveal_strlit("d");
        reveal_strlit("e");
        reveal_strlit("f");
    }
    let text = match digit {
        0 => "0",
        1 => "1",
        2 => "2",
        3 => "3",
        4 => "4",
        5 => "5",
        6 => "6",
        7 => "7",
        8 => "8",
        9 => "9",
        10 => "a",
        11 => "b",
        12 => "c",
        13 => "d",
        14 => "e",
        _ => "f",
    };
    assert(text@ =~= seq![hex_char(digit as nat)]);
    text
}

/// Appends the decimal digits of `n`.
pub fn push_decimal(out: &mut String, n: u64)
    ensures
        final(out)@ == old(out)@ + decimal(n as nat),
    decreases n,
{
    if n >= 10 {
        push_decimal(out, n / 10);
        let ghost prefix = out@;
        out.append(digit_text((n % 10) as u8));
        assert(out@ =~= old(out)@ + decimal(n as nat));
    } else {
        out.append(digit_text(n as u8));
    }
}

/// Appends the decimal digits of `n`.
pub fn push_usize(out: &mut String, n: usize)
    ensures
        final(out)@ == old(out)@ + decimal(n as nat),
{
    push_decimal(out, n as u64);
}

/// Appends the decimal digits of `n`.
pub fn push_wide(out: &mut String, n: u128)
    ensures
        final(out)@ == old(out)@ + decimal(n as nat),
    decreases n,
{
    if n >= 10 {
        push_wide(out, n / 10);
        out.append(digit_text((n % 10) as u8));
        assert(out@ =~= old(out)@ + decimal(n as nat));
    } else {
        out.append(digit_text(n as u8));
    }
}

/// Appends the last `width` hexadecimal digits of `n`.
pub fn push_hex(out: &mut String, n: u64, width: u8)
    ensures
        final(out)@ == old(out)@ + hex_fixed(n as nat, width as nat),
    decreases width,
{
    if width > 0 {
        push_hex(out, n / 16, width - 1);
        out.append(digit_text((n % 16) as u8));
        assert(out@ =~= old(out)@ + hex_fixed(n as nat, width as nat));
    } else {
        assert(out@ =~= old(out)@ + hex_fixed(n as nat, width as nat));
    }
}

/// Appends the numbers in brackets.
pub fn push_number_list(out: &mut String, values: &[u64])
    ensures
        final(out)@ == old(out)@ + number_list(values@.map_values(|v: u64| v as nat)),
{
    proof {
        reveal_strlit("[");
        reveal_strlit(", ");
        reveal_strlit("]");
    }
    let ghost numbers = values@.map_values(|v: u64| v as nat);
    out.append("[");
    assert("["@ =~= seq!['[']);
    assert(", "@ =~= seq![',', ' ']);
    assert("]"@ =~= seq![']']);
    let mut index: usize = 0;
    assert(out@ =~= old(out)@ + seq!['['] + number_items(numbers.take(0)));
    while index < values.len()
        invariant
            index <= values.len(),
            numbers == values@.map_values(|v: u64| v as nat),
            ", "@ == seq![',', ' '],
            out@ == old(out)@ + seq!['['] + number_items(numbers.take(index as int)),
        decreases values.len() - index,
    {
        let ghost before = out@;
        if index > 0 {
            out.append(", ");
        }
        push_decimal(out, values[index]);
        proof {
            let next = numbers.take(index + 1);
            assert(next.drop_last() =~= numbers.take(index as int));
            assert(next.last() == values@[index as int] as nat);
            assert(out@ =~= old(out)@ + seq!['['] + number_items(next));
        }
        index = index + 1;
    }
    out.append("]");
    assert(numbers.take(index as int) =~= numbers);
    assert(out@ =~= old(out)@ + number_list(numbers));
}

/// The text that a lossy reading makes of bytes that are no UTF-8.
pub uninterp spec fn lossy(bytes: Seq<u8>) -> Seq<char>;

/// `String::from_utf8_lossy`: bytes that are UTF-8 give the text that they
/// encode; what the replacement characters of other bytes are is left to the
/// function, and depends on the bytes alone.
#[verifier::external_body]
pub(crate) fn lossy_text(bytes: &[u8]) -> (text: String)
    ensures
        text@ == lossy(bytes@),
        valid_utf8(bytes@) ==> text@ == decode_utf8(bytes@),
{
    String::from_utf8_lossy(bytes).into_owned()
}

/// The complaint about bytes that are no UTF-8.
pub uninterp spec fn utf8_complaint(bytes: Seq<u8>) -> Seq<char>;

/// `std::str::from_utf8`: the text that the bytes encode, or the error's text
/// where they are no UTF-8, which depends on the bytes alone.
#[verifier::external_body]
pub(crate) fn checked_text(bytes: &[u8]) -> (result: Result<String, String>)
    ensures
        match result {
            Ok(text) => valid_utf8(bytes@) && text@ == decode_utf8(bytes@),
            Err(complaint) => !valid_utf8(bytes@) && complaint@ == utf8_complaint(bytes@),
        },
{
    match std::str::from_utf8(bytes) {
        Ok(text) => Ok(text.to_owned()),
        Err(error) => Err(error.to_string()),
    }
}

} // verus!

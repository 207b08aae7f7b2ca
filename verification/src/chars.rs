//! Small grammars on characters: splitting, trimming and numbers.

use vstd::prelude::*;
use vstd::string::*;

verus! {

/// Whether a character has Unicode's `White_Space` property.
pub uninterp spec fn white_space(c: char) -> bool;

/// `char::is_whitespace` tells characters with the property from the others. In
/// ASCII these are the space and the five controls from the tab on; which they
/// are beyond ASCII, is not stated.
pub assume_specification [char::is_whitespace](c: char) -> (white: bool)
    ensures
        white == white_space(c),
        (c as u32) < 0x80 ==> white == (c == ' ' || 0x09 <= c as u32 <= 0x0d),
;

/// `String::push` appends one character.
pub assume_specification [String::push](text: &mut String, c: char)
    ensures
        final(text)@ == old(text)@.push(c),
;

/// The characters of a text.
pub fn chars_of(text: &str) -> (chars: Vec<char>)
    ensures
        chars@ == text@,
{
    let mut chars: Vec<char> = Vec::new();
    for c in iter: text.chars()
        invariant
            iter.seq() == text@,
            chars@ == text@.take(iter.index() as int),
    {
        chars.push(c);
        assert(chars@ =~= text@.take(iter.index() + 1));
    }
    assert(text@.take(text@.len() as int) =~= text@);
    chars
}

/// A text of characters.
pub fn text_of(chars: &[char]) -> (text: String)
    ensures
        text@ == chars@,
{
    let mut text = String::new();
    let mut index: usize = 0;
    assert(text@ =~= chars@.take(0));
    while index < chars.len()
        invariant
            index <= chars.len(),
            text@ == chars@.take(index as int),
        decreases chars.len() - index,
    {
        text.push(chars[index]);
        assert(text@ =~= chars@.take(index + 1));
        index = index + 1;
    }
    assert(chars@.take(index as int) =~= chars@);
    text
}

/// Whether two lists of characters are equal.
pub fn same_chars(a: &[char], b: &[char]) -> (same: bool)
    ensures
        same == (a@ == b@),
{
    if a.len() != b.len() {
        return false;
    }
    let mut index: usize = 0;
    while index < a.len()
        invariant
            index <= a.len(),
            a@.len() == b@.len(),
            forall|i: int| 0 <= i < index ==> #[trigger] a@[i] == b@[i],
        decreases a.len() - index,
    {
        if a[index] != b[index] {
            return false;
        }
        index = index + 1;
    }
    assert(a@ =~= b@);
    true
}

/// Whether characters spell a text.
pub fn spells(chars: &[char], text: &str) -> (same: bool)
    ensures
        same == (chars@ == text@),
{
    let other = chars_of(text);
    same_chars(chars, other.as_slice())
}

/// The fields between separators. A text without one is a single field.
pub open spec fn split(text: Seq<char>, separator: char) -> Seq<Seq<char>>
    decreases text.len(),
{
    if text.len() == 0 {
        seq![Seq::empty()]
    } else {
        let before = split(text.drop_last(), separator);
        if text.last() == separator {
            before.push(Seq::empty())
        } else {
            before.drop_last().push(before.last().push(text.last()))
        }
    }
}

/// Character lists as sequences.
pub open spec fn char_lists(lists: Seq<Vec<char>>) -> Seq<Seq<char>> {
    Seq::new(lists.len(), |i: int| lists[i]@)
}

pub proof fn lemma_split_some(text: Seq<char>, separator: char)
    ensures
        split(text, separator).len() > 0,
    decreases text.len(),
{
    if text.len() > 0 {
        lemma_split_some(text.drop_last(), separator);
    }
}

pub fn split_chars(text: &[char], separator: char) -> (fields: Vec<Vec<char>>)
    ensures
        char_lists(fields@) == split(text@, separator),
{
    let mut fields: Vec<Vec<char>> = Vec::new();
    let mut field: Vec<char> = Vec::new();
    let mut index: usize = 0;
    assert(char_lists(fields@).push(field@) =~= split(text@.take(0), separator));
    while index < text.len()
        invariant
            index <= text.len(),
            char_lists(fields@).push(field@) == split(text@.take(index as int), separator),
        decreases text.len() - index,
    {
        let ghost before = char_lists(fields@);
        let ghost was = field@;
        proof {
            let now = text@.take(index + 1);
            assert(now.drop_last() =~= text@.take(index as int));
            assert(now.last() == text@[index as int]);
            assert(before.push(was).drop_last() =~= before);
        }
        if text[index] == separator {
            fields.push(field);
            field = Vec::new();
            assert(char_lists(fields@) =~= before.push(was));
            assert(field@ =~= Seq::<char>::empty());
        } else {
            field.push(text[index]);
        }
        index = index + 1;
    }
    assert(text@.take(index as int) =~= text@);
    let ghost before = char_lists(fields@);
    let ghost was = field@;
    fields.push(field);
    assert(char_lists(fields@) =~= before.push(was));
    fields
}

/// The text without white space at its start.
pub open spec fn trim_start(text: Seq<char>) -> Seq<char>
    decreases text.len(),
{
    if text.len() > 0 && white_space(text[0]) {
        trim_start(text.skip(1))
    } else {
        text
    }
}

/// The text without white space at its end.
pub open spec fn trim_end(text: Seq<char>) -> Seq<char>
    decreases text.len(),
{
    if text.len() > 0 && white_space(text.last()) {
        trim_end(text.drop_last())
    } else {
        text
    }
}

/// The text without white space at its ends.
pub open spec fn trimmed(text: Seq<char>) -> Seq<char> {
    trim_end(trim_start(text))
}

pub fn trim_chars(text: &[char]) -> (result: Vec<char>)
    ensures
        result@ == trimmed(text@),
{
    let mut start: usize = 0;
    assert(text@.skip(0) =~= text@);
    while start < text.len() && text[start].is_whitespace()
        invariant
            start <= text.len(),
            trim_start(text@) == trim_start(text@.skip(start as int)),
        decreases text.len() - start,
    {
        assert(text@.skip(start as int).skip(1) =~= text@.skip(start + 1));
        start = start + 1;
    }
    let ghost front = text@.skip(start as int);
    assert(trim_start(text@) == front);
    let mut end: usize = text.len();
    assert(text@.subrange(start as int, end as int) =~= front);
    while end > start && text[end - 1].is_whitespace()
        invariant
            start <= end <= text.len(),
            trim_end(front) == trim_end(text@.subrange(start as int, end as int)),
        decreases end,
    {
        assert(text@.subrange(start as int, end as int).drop_last() =~= text@.subrange(
            start as int,
            end - 1,
        ));
        end = end - 1;
    }
    let mut result: Vec<char> = Vec::new();
    let mut index: usize = start;
    while index < end
        invariant
            start <= index <= end <= text.len(),
            result@ == text@.subrange(start as int, index as int),
        decreases end - index,
    {
        result.push(text[index]);
        assert(result@ =~= text@.subrange(start as int, index + 1));
        index = index + 1;
    }
    result
}

/// Where a character first occurs; the length where it does not.
pub open spec fn first_of(text: Seq<char>, wanted: char) -> int
    decreases text.len(),
{
    if text.len() == 0 || text[0] == wanted {
        0
    } else {
        1 + first_of(text.skip(1), wanted)
    }
}

/// What stands before and after the first separator.
pub open spec fn halves(text: Seq<char>, separator: char) -> Option<(Seq<char>, Seq<char>)> {
    let at = first_of(text, separator);
    if at < text.len() {
        Some((text.take(at), text.skip(at + 1)))
    } else {
        None
    }
}

pub fn split_once(text: &[char], separator: char) -> (result: Option<(Vec<char>, Vec<char>)>)
    ensures
        match halves(text@, separator) {
            Some((before, after)) => {
                &&& result is Some
                &&& (result->0).0@ == before
                &&& (result->0).1@ == after
            },
            None => result is None,
        },
{
    let mut before: Vec<char> = Vec::new();
    let mut index: usize = 0;
    assert(text@.skip(0) =~= text@);
    while index < text.len() && text[index] != separator
        invariant
            index <= text.len(),
            first_of(text@, separator) == index + first_of(text@.skip(index as int), separator),
            before@ == text@.take(index as int),
        decreases text.len() - index,
    {
        assert(text@.skip(index as int).skip(1) =~= text@.skip(index + 1));
        before.push(text[index]);
        assert(before@ =~= text@.take(index + 1));
        index = index + 1;
    }
    if index == text.len() {
        return None;
    }
    let mut after: Vec<char> = Vec::new();
    let mut place: usize = index + 1;
    while place < text.len()
        invariant
            index + 1 <= place <= text.len(),
            after@ == text@.subrange(index + 1, place as int),
        decreases text.len() - place,
    {
        after.push(text[place]);
        assert(after@ =~= text@.subrange(index + 1, place + 1));
        place = place + 1;
    }
    assert(after@ =~= text@.skip(index + 1));
    Some((before, after))
}

/// Whether a character is a decimal digit.
pub open spec fn is_digit(c: char) -> bool {
    '0' <= c <= '9'
}

/// The number that digits spell.
pub open spec fn digits_value(text: Seq<char>) -> nat
    decreases text.len(),
{
    if text.len() == 0 {
        0
    } else {
        digits_value(text.drop_last()) * 10 + (text.last() as nat - 48) as nat
    }
}

/// The digits of a number behind an optional plus sign.
pub open spec fn digits_of(text: Seq<char>) -> Seq<char> {
    if text.len() > 0 && text[0] == '+' {
        text.skip(1)
    } else {
        text
    }
}

/// The number that a text spells, where it does and is no larger than `limit`.
pub open spec fn number(text: Seq<char>, limit: nat) -> Option<nat> {
    let digits = digits_of(text);
    if digits.len() > 0 && (forall|i: int| 0 <= i < digits.len() ==> is_digit(#[trigger] digits[i]))
        && digits_value(digits) <= limit {
        Some(digits_value(digits))
    } else {
        None
    }
}

proof fn lemma_digits_grow(digits: Seq<char>, end: int)
    requires
        0 <= end <= digits.len(),
        forall|i: int| 0 <= i < digits.len() ==> is_digit(#[trigger] digits[i]),
    ensures
        digits_value(digits.take(end)) <= digits_value(digits),
    decreases digits.len(),
{
    if end == digits.len() {
        assert(digits.take(end) =~= digits);
    } else {
        assert(digits.drop_last().take(end) =~= digits.take(end));
        lemma_digits_grow(digits.drop_last(), end);
    }
}

pub fn parse_number(text: &[char], limit: u64) -> (result: Option<u64>)
    ensures
        match number(text@, limit as nat) {
            Some(value) => result == Some(value as u64) && value <= limit,
            None => result is None,
        },
{
    let start: usize = if text.len() > 0 && text[0] == '+' {
        1
    } else {
        0
    };
    let ghost digits = digits_of(text@);
    assert(digits =~= text@.skip(start as int));
    if start == text.len() {
        return None;
    }
    let mut value: u64 = 0;
    let mut index: usize = start;
    assert(digits.take(0) =~= Seq::<char>::empty());
    while index < text.len()
        invariant
            start <= index <= text.len(),
            digits == text@.skip(start as int),
            digits == digits_of(text@),
            digits.len() > 0,
            forall|i: int| 0 <= i < index - start ==> is_digit(#[trigger] digits[i]),
            value == digits_value(digits.take(index - start)),
            value <= limit,
        decreases text.len() - index,
    {
        let c: char = text[index];
        assert(digits[index - start] == c);
        if c < '0' || c > '9' {
            assert(!is_digit(digits[index - start]));
            return None;
        }
        let digit: u64 = c as u64 - 48;
        proof {
            let now = digits.take(index - start + 1);
            assert(now.drop_last() =~= digits.take(index - start));
            assert(now.last() == c);
            if forall|i: int| 0 <= i < digits.len() ==> is_digit(#[trigger] digits[i]) {
                lemma_digits_grow(digits, index - start + 1);
            }
        }
        let wide: u128 = value as u128 * 10 + digit as u128;
        if wide > limit as u128 {
            return None;
        }
        value = wide as u64;
        index = index + 1;
    }
    assert(digits.take(index - start) =~= digits);
    Some(value)
}

/// A character in lower case, where it is an ASCII letter.
pub open spec fn lower(c: char) -> char {
    if 'A' <= c <= 'Z' {
        ((c as u8) + 32) as u8 as char
    } else {
        c
    }
}

/// A text with its ASCII letters in lower case.
pub open spec fn lowered(text: Seq<char>) -> Seq<char> {
    Seq::new(text.len(), |i: int| lower(text[i]))
}

pub fn lower_chars(text: &[char]) -> (result: Vec<char>)
    ensures
        result@ == lowered(text@),
{
    let mut result: Vec<char> = Vec::new();
    let mut index: usize = 0;
    while index < text.len()
        invariant
            index <= text.len(),
            result@.len() == index,
            forall|i: int| 0 <= i < index ==> #[trigger] result@[i] == lowered(text@)[i],
        decreases text.len() - index,
    {
        let c: char = text[index];
        if c >= 'A' && c <= 'Z' {
            let code: u8 = c as u8;
            result.push((code + 32) as char);
        } else {
            result.push(c);
        }
        index = index + 1;
    }
    assert(result@ =~= lowered(text@));
    result
}

} // verus!

//! Bytes of a text: runs of decimal digits and the place of a separator.

use vstd::prelude::*;

verus! {

/// The character `0`.
pub const ZERO: u8 = 48;

/// The character `5`.
pub const FIVE: u8 = 53;

/// The character `9`.
pub const NINE: u8 = 57;

/// The character `+`.
pub const PLUS: u8 = 43;

/// The character `-`.
pub const MINUS: u8 = 45;

/// The character `.`.
pub const POINT: u8 = 46;

/// The character `,`.
pub const COMMA: u8 = 44;

/// The character `e`.
pub const LOWER_E: u8 = 101;

/// The character `E`.
pub const UPPER_E: u8 = 69;

/// The line feed.
pub const LINE_FEED: u8 = 10;

/// The carriage return.
pub const CARRIAGE_RETURN: u8 = 13;

/// The byte is one of the characters `0` to `9`.
pub open spec fn is_digit(b: u8) -> bool {
    ZERO <= b <= NINE
}

/// The number that a string of decimal digits spells; zero for the empty
/// string.
pub open spec fn digits_value(s: Seq<u8>) -> nat
    decreases s.len(),
{
    if s.len() == 0 {
        0
    } else {
        digits_value(s.drop_last()) * 10 + (s.last() - ZERO) as nat
    }
}

/// The first place at or after `from` that holds no digit; the length of
/// the text where the digits run to its end.
pub open spec fn digits_end(s: Seq<u8>, from: int) -> int
    decreases s.len() - from,
{
    if 0 <= from < s.len() && is_digit(s[from]) {
        digits_end(s, from + 1)
    } else {
        from
    }
}

/// The first place at or after `from` that holds the byte `b`; the length
/// of the text where there is none.
pub open spec fn find_byte(s: Seq<u8>, b: u8, from: int) -> int
    decreases s.len() - from,
{
    if 0 <= from < s.len() && s[from] != b {
        find_byte(s, b, from + 1)
    } else {
        from
    }
}

/// `digits_end` is where the run of digits that starts at `from` stops.
pub proof fn lemma_digits_end(s: Seq<u8>, from: int)
    requires
        0 <= from <= s.len(),
    ensures
        from <= digits_end(s, from) <= s.len(),
        forall|i: int| from <= i < digits_end(s, from) ==> is_digit(#[trigger] s[i]),
        digits_end(s, from) < s.len() ==> !is_digit(s[digits_end(s, from)]),
    decreases s.len() - from,
{
    if from < s.len() && is_digit(s[from]) {
        lemma_digits_end(s, from + 1);
    }
}

/// A run of digits that stops at `to` makes `to` the value of `digits_end`.
pub proof fn lemma_digits_end_is(s: Seq<u8>, from: int, to: int)
    requires
        0 <= from <= to <= s.len(),
        forall|i: int| from <= i < to ==> is_digit(#[trigger] s[i]),
        to < s.len() ==> !is_digit(s[to]),
    ensures
        digits_end(s, from) == to,
    decreases to - from,
{
    if from < to {
        lemma_digits_end_is(s, from + 1, to);
    }
}

/// `find_byte` is where `b` first stands at or after `from`.
pub proof fn lemma_find_byte(s: Seq<u8>, b: u8, from: int)
    requires
        0 <= from <= s.len(),
    ensures
        from <= find_byte(s, b, from) <= s.len(),
        forall|i: int| from <= i < find_byte(s, b, from) ==> #[trigger] s[i] != b,
        find_byte(s, b, from) < s.len() ==> s[find_byte(s, b, from)] == b,
    decreases s.len() - from,
{
    if from < s.len() && s[from] != b {
        lemma_find_byte(s, b, from + 1);
    }
}

/// A stretch without `b` that stops at `to` makes `to` the value of
/// `find_byte`.
pub proof fn lemma_find_byte_is(s: Seq<u8>, b: u8, from: int, to: int)
    requires
        0 <= from <= to <= s.len(),
        forall|i: int| from <= i < to ==> #[trigger] s[i] != b,
        to < s.len() ==> s[to] == b,
    ensures
        find_byte(s, b, from) == to,
    decreases to - from,
{
    if from < to {
        lemma_find_byte_is(s, b, from + 1, to);
    }
}

/// Where the run of digits that starts at `from` stops.
pub fn scan_digits(text: &[u8], from: usize) -> (to: usize)
    requires
        from <= text.len(),
    ensures
        to == digits_end(text@, from as int),
        from <= to <= text.len(),
{
    let mut to = from;
    while to < text.len() && text[to] >= ZERO && text[to] <= NINE
        invariant
            from <= to <= text.len(),
            forall|i: int| from <= i < to ==> is_digit(#[trigger] text@[i]),
        decreases text.len() - to,
    {
        to += 1;
    }
    proof {
        lemma_digits_end_is(text@, from as int, to as int);
    }
    to
}

/// Where the byte `b` first stands at or after `from`.
pub fn scan_for(text: &[u8], b: u8, from: usize) -> (to: usize)
    requires
        from <= text.len(),
    ensures
        to == find_byte(text@, b, from as int),
        from <= to <= text.len(),
{
    let mut to = from;
    while to < text.len() && text[to] != b
        invariant
            from <= to <= text.len(),
            forall|i: int| from <= i < to ==> #[trigger] text@[i] != b,
        decreases text.len() - to,
    {
        to += 1;
    }
    proof {
        lemma_find_byte_is(text@, b, from as int, to as int);
    }
    to
}

} // verus!

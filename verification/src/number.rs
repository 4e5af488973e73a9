//! Whole numbers written in decimal.

use vstd::prelude::*;
use crate::text::{digits_end, digits_value, is_digit, lemma_digits_end_is, MINUS, NINE, PLUS, ZERO};

verus! {

/// Why a text is not a number of the kind asked for.
#[derive(Clone, Copy, Debug, PartialEq, Eq, Structural)]
pub enum NumberError {
    /// The text is empty.
    Empty,
    /// The text holds a character that has no place in the number, or lacks
    /// a part that the number needs.
    Invalid,
    /// The number lies above the greatest value of the kind.
    TooLarge,
    /// The number lies below the least value of the kind.
    TooSmall,
}

/// The 32-bit integer that a text spells: an optional sign and then digits
/// alone, at least one. Of several faults the leftmost decides: digits that
/// already leave the range before a foreign character is met give the range
/// fault.
pub open spec fn spec_parse_i32(s: Seq<u8>) -> Result<i32, NumberError> {
    if s.len() == 0 {
        Err(NumberError::Empty)
    } else {
        let negative = s[0] == MINUS;
        let start: int = if s[0] == PLUS || s[0] == MINUS {
            1
        } else {
            0
        };
        let end = digits_end(s, start);
        let magnitude = digits_value(s.subrange(start, end));
        if start == s.len() {
            Err(NumberError::Invalid)
        } else if negative && magnitude > 0x8000_0000 {
            Err(NumberError::TooSmall)
        } else if !negative && magnitude > 0x7fff_ffff {
            Err(NumberError::TooLarge)
        } else if end < s.len() {
            Err(NumberError::Invalid)
        } else if negative {
            Ok((-magnitude) as i32)
        } else {
            Ok(magnitude as i32)
        }
    }
}

/// Reads a 32-bit integer in decimal.
pub fn parse_i32(text: &[u8]) -> (r: Result<i32, NumberError>)
    ensures
        r == spec_parse_i32(text@),
{
    let len = text.len();
    if len == 0 {
        return Err(NumberError::Empty);
    }
    let negative = text[0] == MINUS;
    let start: usize = if text[0] == PLUS || text[0] == MINUS {
        1
    } else {
        0
    };
    if start == len {
        return Err(NumberError::Invalid);
    }
    let limit: u64 = if negative {
        0x8000_0000
    } else {
        0x7fff_ffff
    };
    let mut acc: u64 = 0;
    let mut over = false;
    let mut i: usize = start;
    assert(text@.subrange(start as int, i as int) =~= Seq::<u8>::empty());
    while i < len && text[i] >= ZERO && text[i] <= NINE
        invariant
            start <= i <= len,
            len == text.len(),
            limit <= 0x8000_0000,
            forall|k: int| start <= k < i ==> is_digit(#[trigger] text@[k]),
            !over ==> acc == digits_value(text@.subrange(start as int, i as int)) && acc <= limit,
            over ==> digits_value(text@.subrange(start as int, i as int)) > limit,
        decreases len - i,
    {
        let d: u64 = (text[i] - ZERO) as u64;
        proof {
            let next = text@.subrange(start as int, i + 1);
            assert(next.drop_last() =~= text@.subrange(start as int, i as int));
            assert(next.last() == text@[i as int]);
        }
        if !over {
            acc = acc * 10 + d;
            if acc > limit {
                over = true;
            }
        }
        i += 1;
    }
    proof {
        lemma_digits_end_is(text@, start as int, i as int);
    }
    if over {
        return Err(
            if negative {
                NumberError::TooSmall
            } else {
                NumberError::TooLarge
            },
        );
    }
    if i < len {
        return Err(NumberError::Invalid);
    }
    if negative {
        Ok((-(acc as i64)) as i32)
    } else {
        Ok(acc as i32)
    }
}

} // verus!

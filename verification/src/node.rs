//! One record of the scene resource: `id,parent_id,x,y,z`.

use vstd::prelude::*;
use vstd::slice::slice_subrange;
use vstd::string::StringSliceAdditionalSpecFns;
use crate::decimal::{parse_fixed, spec_parse_fixed};
use crate::fixed::Fixed;
use crate::number::{parse_i32, spec_parse_i32, NumberError};
use crate::text::{find_byte, scan_for, COMMA};

verus! {

/// A point of the scene: its identity, the identity of the point it hangs
/// from, and its place in world coordinates.
#[derive(Clone, Copy, Debug, PartialEq, Eq, Structural)]
pub struct Node {
    pub id: i32,
    pub parent_id: i32,
    pub x: Fixed,
    pub y: Fixed,
    pub z: Fixed,
}

/// Why a record is not a node.
#[derive(Clone, Copy, Debug, PartialEq, Eq, Structural)]
pub enum ParseError {
    /// One of the two identities is no 32-bit integer.
    Integer(NumberError),
    /// One of the three coordinates is no decimal number within range.
    Coordinate(NumberError),
    /// The record has fewer than five fields.
    MissingField,
}

/// Where field `k` of a record starts, counting from zero: after the comma
/// that ends the field before it. Beyond the end of the text where the
/// record has no such field.
pub open spec fn field_start(s: Seq<u8>, k: nat) -> int
    decreases k,
{
    if k == 0 {
        0
    } else {
        find_byte(s, COMMA, field_start(s, (k - 1) as nat)) + 1
    }
}

/// The record has a field `k`.
pub open spec fn has_field(s: Seq<u8>, k: nat) -> bool {
    field_start(s, k) <= s.len()
}

/// Field `k` of a record: the bytes from its start up to the next comma or
/// the end of the text.
pub open spec fn field(s: Seq<u8>, k: nat) -> Seq<u8> {
    s.subrange(field_start(s, k), find_byte(s, COMMA, field_start(s, k)))
}

/// Field `k` of a record, if it has one.
pub open spec fn field_of(s: Seq<u8>, k: nat) -> Option<Seq<u8>> {
    if has_field(s, k) {
        Some(field(s, k))
    } else {
        None
    }
}

/// The identity that a field spells, if the record has the field.
pub open spec fn integer_in(found: Option<Seq<u8>>) -> Result<i32, ParseError> {
    match found {
        None => Err(ParseError::MissingField),
        Some(f) => match spec_parse_i32(f) {
            Ok(v) => Ok(v),
            Err(e) => Err(ParseError::Integer(e)),
        },
    }
}

/// The coordinate that a field spells, if the record has the field.
pub open spec fn coordinate_in(found: Option<Seq<u8>>) -> Result<Fixed, ParseError> {
    match found {
        None => Err(ParseError::MissingField),
        Some(f) => match spec_parse_fixed(f) {
            Ok(v) => Ok(v),
            Err(e) => Err(ParseError::Coordinate(e)),
        },
    }
}

/// The identity that field `k` spells.
pub open spec fn integer_field(s: Seq<u8>, k: nat) -> Result<i32, ParseError> {
    integer_in(field_of(s, k))
}

/// The coordinate that field `k` spells.
pub open spec fn coordinate_field(s: Seq<u8>, k: nat) -> Result<Fixed, ParseError> {
    coordinate_in(field_of(s, k))
}

/// The node that a record spells. Its first five fields are read from left
/// to right and the first that fails decides the error; fields beyond the
/// fifth are not looked at.
#[verifier::opaque]
pub open spec fn spec_parse_node(s: Seq<u8>) -> Result<Node, ParseError> {
    match integer_field(s, 0) {
        Err(e) => Err(e),
        Ok(id) => match integer_field(s, 1) {
            Err(e) => Err(e),
            Ok(parent_id) => match coordinate_field(s, 2) {
                Err(e) => Err(e),
                Ok(x) => match coordinate_field(s, 3) {
                    Err(e) => Err(e),
                    Ok(y) => match coordinate_field(s, 4) {
                        Err(e) => Err(e),
                        Ok(z) => Ok(Node { id, parent_id, x, y, z }),
                    },
                },
            },
        },
    }
}

/// A place in a record from which field `k` is read next: its start, or
/// nothing where the record has run out.
spec fn at_field(s: Seq<u8>, k: nat, cursor: Option<usize>) -> bool {
    match cursor {
        Some(start) => start == field_start(s, k) && start <= s.len(),
        None => !has_field(s, k),
    }
}

/// The field that was found, as its bytes.
spec fn bytes_of(found: Option<&[u8]>) -> Option<Seq<u8>> {
    match found {
        Some(f) => Some(f@),
        None => None,
    }
}

/// Field `k` and the place from which the next one is read.
fn take_field<'a>(line: &'a [u8], cursor: Option<usize>, Ghost(k): Ghost<nat>) -> (r: (
    Option<&'a [u8]>,
    Option<usize>,
))
    requires
        at_field(line@, k, cursor),
    ensures
        bytes_of(r.0) == field_of(line@, k),
        at_field(line@, k + 1, r.1),
{
    match cursor {
        None => {
            proof {
                lemma_field_start_grows(line@, k);
            }
            (None, None)
        },
        Some(start) => {
            let end = scan_for(line, COMMA, start);
            let next = if end < line.len() {
                Some(end + 1)
            } else {
                None
            };
            (Some(slice_subrange(line, start, end)), next)
        },
    }
}

/// A record that lacks a field lacks all that follow it.
pub proof fn lemma_field_start_grows(s: Seq<u8>, k: nat)
    ensures
        !has_field(s, k) ==> !has_field(s, k + 1),
{
}

/// The identity that a field spells, if the record has the field.
fn integer_of(found: Option<&[u8]>) -> (r: Result<i32, ParseError>)
    ensures
        r == integer_in(bytes_of(found)),
{
    match found {
        None => Err(ParseError::MissingField),
        Some(f) => match parse_i32(f) {
            Ok(v) => Ok(v),
            Err(e) => Err(ParseError::Integer(e)),
        },
    }
}

/// The coordinate that a field spells, if the record has the field.
fn coordinate_of(found: Option<&[u8]>) -> (r: Result<Fixed, ParseError>)
    ensures
        r == coordinate_in(bytes_of(found)),
{
    match found {
        None => Err(ParseError::MissingField),
        Some(f) => match parse_fixed(f) {
            Ok(v) => Ok(v),
            Err(e) => Err(ParseError::Coordinate(e)),
        },
    }
}

/// Reads a node from the bytes of one record.
pub fn parse_node_bytes(line: &[u8]) -> (r: Result<Node, ParseError>)
    ensures
        r == spec_parse_node(line@),
{
    reveal(spec_parse_node);
    let (found, cursor) = take_field(line, Some(0), Ghost(0));
    let id = match integer_of(found) {
        Ok(v) => v,
        Err(e) => {
            return Err(e);
        },
    };
    let (found, cursor) = take_field(line, cursor, Ghost(1));
    let parent_id = match integer_of(found) {
        Ok(v) => v,
        Err(e) => {
            return Err(e);
        },
    };
    let (found, cursor) = take_field(line, cursor, Ghost(2));
    let x = match coordinate_of(found) {
        Ok(v) => v,
        Err(e) => {
            return Err(e);
        },
    };
    let (found, cursor) = take_field(line, cursor, Ghost(3));
    let y = match coordinate_of(found) {
        Ok(v) => v,
        Err(e) => {
            return Err(e);
        },
    };
    let (found, _) = take_field(line, cursor, Ghost(4));
    let z = match coordinate_of(found) {
        Ok(v) => v,
        Err(e) => {
            return Err(e);
        },
    };
    Ok(Node { id, parent_id, x, y, z })
}

/// The node that a record spells, or the text that reports why it spells
/// none.
pub open spec fn spec_parse_node_text(s: Seq<u8>) -> Result<Node, Seq<char>> {
    match spec_parse_node(s) {
        Ok(node) => Ok(node),
        Err(e) => Err(e.spec_message()),
    }
}

/// A result with the characters of its report in place of the report.
pub open spec fn report_view(r: Result<Node, String>) -> Result<Node, Seq<char>> {
    match r {
        Ok(node) => Ok(node),
        Err(report) => Err(report@),
    }
}

/// Reads a node from one record of the scene resource; a record that
/// spells none gives the text that reports its fault.
pub fn parse_node(line: &str) -> (r: Result<Node, String>)
    ensures
        report_view(r) == spec_parse_node_text(line.spec_bytes()),
{
    match parse_node_bytes(line.as_bytes()) {
        Ok(node) => Ok(node),
        Err(e) => Err(e.message()),
    }
}

impl ParseError {
    /// The text that reports the error.
    pub open spec fn spec_message(self) -> Seq<char> {
        match self {
            ParseError::Integer(NumberError::Empty) => {
                "failed to parse int in: cannot parse integer from empty string"@
            },
            ParseError::Integer(NumberError::Invalid) => {
                "failed to parse int in: invalid digit found in string"@
            },
            ParseError::Integer(NumberError::TooLarge) => {
                "failed to parse int in: number too large to fit in target type"@
            },
            ParseError::Integer(NumberError::TooSmall) => {
                "failed to parse int in: number too small to fit in target type"@
            },
            ParseError::Coordinate(NumberError::Empty) => {
                "failed to parse float in: cannot parse float from empty string"@
            },
            ParseError::Coordinate(NumberError::Invalid) => {
                "failed to parse float in: invalid float literal"@
            },
            ParseError::Coordinate(NumberError::TooLarge) => {
                "failed to parse float in: number too large to fit in target type"@
            },
            ParseError::Coordinate(NumberError::TooSmall) => {
                "failed to parse float in: number too small to fit in target type"@
            },
            ParseError::MissingField => "record has fewer than five fields"@,
        }
    }

    /// The text that reports the error.
    pub fn message(&self) -> (r: String)
        ensures
            r@ == self.spec_message(),
    {
        match self {
            ParseError::Integer(NumberError::Empty) => {
                "failed to parse int in: cannot parse integer from empty string".to_owned()
            },
            ParseError::Integer(NumberError::Invalid) => {
                "failed to parse int in: invalid digit found in string".to_owned()
            },
            ParseError::Integer(NumberError::TooLarge) => {
                "failed to parse int in: number too large to fit in target type".to_owned()
            },
            ParseError::Integer(NumberError::TooSmall) => {
                "failed to parse int in: number too small to fit in target type".to_owned()
            },
            ParseError::Coordinate(NumberError::Empty) => {
                "failed to parse float in: cannot parse float from empty string".to_owned()
            },
            ParseError::Coordinate(NumberError::Invalid) => {
                "failed to parse float in: invalid float literal".to_owned()
            },
            ParseError::Coordinate(NumberError::TooLarge) => {
                "failed to parse float in: number too large to fit in target type".to_owned()
            },
            ParseError::Coordinate(NumberError::TooSmall) => {
                "failed to parse float in: number too small to fit in target type".to_owned()
            },
            ParseError::MissingField => "record has fewer than five fields".to_owned(),
        }
    }
}

} // verus!

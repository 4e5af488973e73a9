//! The scene resource: one record per line, empty lines and records that
//! are no nodes left out.

use vstd::prelude::*;
use vstd::slice::slice_subrange;
use vstd::string::StringSliceAdditionalSpecFns;
use crate::node::{parse_node_bytes, spec_parse_node, Node, ParseError};
use crate::text::{find_byte, lemma_find_byte, scan_for, CARRIAGE_RETURN, LINE_FEED};

verus! {

/// What a scene resource holds: its nodes in the order of their records,
/// and for each record that is no node the reason, in the same order.
#[derive(Debug)]
pub struct Loaded {
    pub nodes: Vec<Node>,
    pub rejected: Vec<ParseError>,
}

/// The line that starts at `from`: the bytes up to the next line feed or
/// the end of the text, without the carriage return that may stand before
/// that line feed.
pub open spec fn line_at(s: Seq<u8>, from: int) -> Seq<u8> {
    let end = find_byte(s, LINE_FEED, from);
    if from < end < s.len() && s[end - 1] == CARRIAGE_RETURN {
        s.subrange(from, end - 1)
    } else {
        s.subrange(from, end)
    }
}

/// The nodes that the lines from `from` on spell, in their order. A line
/// that is empty or no node adds nothing.
pub open spec fn nodes_from(s: Seq<u8>, from: int) -> Seq<Node>
    decreases s.len() - from,
    via nodes_from_decreases
{
    if from < 0 || from >= s.len() {
        Seq::empty()
    } else {
        let line = line_at(s, from);
        let end = find_byte(s, LINE_FEED, from);
        let rest = if end < s.len() {
            nodes_from(s, end + 1)
        } else {
            Seq::empty()
        };
        match spec_parse_node(line) {
            Ok(node) => if line.len() > 0 {
                seq![node] + rest
            } else {
                rest
            },
            Err(_) => rest,
        }
    }
}

#[via_fn]
proof fn nodes_from_decreases(s: Seq<u8>, from: int) {
    if 0 <= from < s.len() {
        lemma_find_byte(s, LINE_FEED, from);
    }
}

/// The reasons for which lines from `from` on are no nodes, in their
/// order. An empty line adds nothing.
pub open spec fn rejected_from(s: Seq<u8>, from: int) -> Seq<ParseError>
    decreases s.len() - from,
    via rejected_from_decreases
{
    if from < 0 || from >= s.len() {
        Seq::empty()
    } else {
        let line = line_at(s, from);
        let end = find_byte(s, LINE_FEED, from);
        let rest = if end < s.len() {
            rejected_from(s, end + 1)
        } else {
            Seq::empty()
        };
        match spec_parse_node(line) {
            Err(e) => if line.len() > 0 {
                seq![e] + rest
            } else {
                rest
            },
            Ok(_) => rest,
        }
    }
}

#[via_fn]
proof fn rejected_from_decreases(s: Seq<u8>, from: int) {
    if 0 <= from < s.len() {
        lemma_find_byte(s, LINE_FEED, from);
    }
}

/// Reads the nodes of a scene resource from its bytes.
pub fn parse_items_bytes(source: &[u8]) -> (r: Loaded)
    ensures
        r.nodes@ == nodes_from(source@, 0),
        r.rejected@ == rejected_from(source@, 0),
{
    let len = source.len();
    let mut nodes: Vec<Node> = Vec::new();
    let mut rejected: Vec<ParseError> = Vec::new();
    let mut from: usize = 0;
    while from < len
        invariant
            from <= len,
            len == source.len(),
            nodes@ + nodes_from(source@, from as int) == nodes_from(source@, 0),
            rejected@ + rejected_from(source@, from as int) == rejected_from(source@, 0),
        decreases len - from,
    {
        let end = scan_for(source, LINE_FEED, from);
        let stop = if from < end && end < len && source[end - 1] == CARRIAGE_RETURN {
            end - 1
        } else {
            end
        };
        let line = slice_subrange(source, from, stop);
        let ghost nodes_rest = if end < len {
            nodes_from(source@, end + 1)
        } else {
            Seq::empty()
        };
        let ghost rejected_rest = if end < len {
            rejected_from(source@, end + 1)
        } else {
            Seq::empty()
        };
        let ghost nodes_before = nodes@;
        let ghost rejected_before = rejected@;
        if line.len() > 0 {
            match parse_node_bytes(line) {
                Ok(node) => {
                    nodes.push(node);
                    assert(nodes@ + nodes_rest =~= nodes_before + (seq![node] + nodes_rest));
                },
                Err(e) => {
                    rejected.push(e);
                    assert(rejected@ + rejected_rest =~= rejected_before + (seq![e]
                        + rejected_rest));
                },
            }
        }
        from = if end < len {
            end + 1
        } else {
            len
        };
    }
    assert(nodes@ + Seq::<Node>::empty() =~= nodes@);
    assert(rejected@ + Seq::<ParseError>::empty() =~= rejected@);
    Loaded { nodes, rejected }
}

/// Reads the nodes of a scene resource. Each line is one record; empty
/// lines are passed over, and a record that is no node is left out and its
/// fault reported.
pub fn parse_items(csv_source: &str) -> (r: Loaded)
    ensures
        r.nodes@ == nodes_from(csv_source.spec_bytes(), 0),
        r.rejected@ == rejected_from(csv_source.spec_bytes(), 0),
{
    parse_items_bytes(csv_source.as_bytes())
}

} // verus!

use node_scene::{
    parse_items, parse_items_bytes, parse_node, parse_node_bytes, Fixed, Node, NumberError,
    ParseError,
};

fn node(id: i32, parent_id: i32, x: i64, y: i64, z: i64) -> Node {
    Node {
        id,
        parent_id,
        x: Fixed { units: x },
        y: Fixed { units: y },
        z: Fixed { units: z },
    }
}

fn as_number(v: Fixed) -> f64 {
    v.units as f64 / 1e6
}

fn record(line: &str) -> Result<Node, ParseError> {
    parse_node_bytes(line.as_bytes())
}

#[test]
fn a_record_is_read() {
    let got = parse_node("12,5,1.5,2.5,3.5").unwrap();
    assert_eq!(got, node(12, 5, 1_500_000, 2_500_000, 3_500_000));
    assert_eq!(got.id, 12);
    assert_eq!(got.parent_id, 5);
    assert_eq!(as_number(got.x), 1.5);
    assert_eq!(as_number(got.y), 2.5);
    assert_eq!(as_number(got.z), 3.5);
}

#[test]
fn a_bad_record_is_refused() {
    assert_eq!(record("bad,data"), Err(ParseError::Integer(NumberError::Invalid)));
    assert_eq!(
        parse_node("bad,data"),
        Err(String::from("failed to parse int in: invalid digit found in string"))
    );
}

#[test]
fn a_refused_record_gives_its_report() {
    let lines = [
        "", "bad,data", "1", "1,2", "1,2,3,4", "1,2,x,4,5", "1,2,,4,5", "1,2,3,4,1e99",
        "1,2,3,-1e99,5", "99999999999,2,3,4,5", "1,-99999999999,3,4,5", "1,2,3,4,5,6",
        "12,5,1.5,2.5,3.5",
    ];
    for line in lines {
        match record(line) {
            Ok(node) => assert_eq!(parse_node(line), Ok(node), "{:?}", line),
            Err(fault) => assert_eq!(parse_node(line), Err(fault.message()), "{:?}", line),
        }
    }
}

#[test]
fn negative_and_signed_fields() {
    assert_eq!(
        record("-1,+2,-0.5,+1e2,-3"),
        Ok(node(-1, 2, -500_000, 100_000_000, -3_000_000))
    );
}

#[test]
fn fields_beyond_the_fifth_are_not_looked_at() {
    assert_eq!(record("1,2,3,4,5,6"), Ok(node(1, 2, 3_000_000, 4_000_000, 5_000_000)));
    assert_eq!(record("1,2,3,4,5,"), Ok(node(1, 2, 3_000_000, 4_000_000, 5_000_000)));
    assert_eq!(record("1,2,3,4,5,x,y"), Ok(node(1, 2, 3_000_000, 4_000_000, 5_000_000)));
}

#[test]
fn a_short_record_is_refused() {
    assert_eq!(record("1"), Err(ParseError::MissingField));
    assert_eq!(record("1,2"), Err(ParseError::MissingField));
    assert_eq!(record("1,2,3"), Err(ParseError::MissingField));
    assert_eq!(record("1,2,3,4"), Err(ParseError::MissingField));
}

#[test]
fn an_empty_field_is_refused() {
    assert_eq!(record(""), Err(ParseError::Integer(NumberError::Empty)));
    assert_eq!(record(",2,3,4,5"), Err(ParseError::Integer(NumberError::Empty)));
    assert_eq!(record("1,,3,4,5"), Err(ParseError::Integer(NumberError::Empty)));
    assert_eq!(record("1,2,,4,5"), Err(ParseError::Coordinate(NumberError::Empty)));
    assert_eq!(record("1,2,3,,5"), Err(ParseError::Coordinate(NumberError::Empty)));
    assert_eq!(record("1,2,3,4,"), Err(ParseError::Coordinate(NumberError::Empty)));
}

#[test]
fn the_first_field_that_fails_decides() {
    assert_eq!(record("a,b,c,d,e"), Err(ParseError::Integer(NumberError::Invalid)));
    assert_eq!(record("1,99999999999,c"), Err(ParseError::Integer(NumberError::TooLarge)));
    assert_eq!(record("1,-99999999999"), Err(ParseError::Integer(NumberError::TooSmall)));
    assert_eq!(record("1,2,c"), Err(ParseError::Coordinate(NumberError::Invalid)));
    assert_eq!(record("1,2,3,1e99,e"), Err(ParseError::Coordinate(NumberError::TooLarge)));
    assert_eq!(record("1,2,3,4,-1e99"), Err(ParseError::Coordinate(NumberError::TooSmall)));
    assert_eq!(record("1,b"), Err(ParseError::Integer(NumberError::Invalid)));
    assert_eq!(record("1.5,2,3,4,5"), Err(ParseError::Integer(NumberError::Invalid)));
}

#[test]
fn spaces_are_no_part_of_a_field() {
    assert_eq!(record("1, 2,3,4,5"), Err(ParseError::Integer(NumberError::Invalid)));
    assert_eq!(record("1,2,3 ,4,5"), Err(ParseError::Coordinate(NumberError::Invalid)));
    assert_eq!(record("1,2,3,4,5\r"), Err(ParseError::Coordinate(NumberError::Invalid)));
}

#[test]
fn values_without_a_number_are_refused_in_a_record() {
    assert_eq!(record("1,2,NaN,4,5"), Err(ParseError::Coordinate(NumberError::Invalid)));
    assert_eq!(record("1,2,3,inf,5"), Err(ParseError::Coordinate(NumberError::Invalid)));
    assert_eq!(record("1,2,3,4,-infinity"), Err(ParseError::Coordinate(NumberError::Invalid)));
}

#[test]
fn bytes_and_text_agree() {
    let lines = ["12,5,1.5,2.5,3.5", "bad,data", "", "1,2", "1,2,3,4,5,6", "\u{e9},1,2,3,4"];
    for line in lines {
        let from_bytes = parse_node_bytes(line.as_bytes()).map_err(|e| e.message());
        assert_eq!(parse_node(line), from_bytes, "{:?}", line);
    }
    assert_eq!(
        parse_node_bytes(&[0xff, 0x2c, 0x31]),
        Err(ParseError::Integer(NumberError::Invalid))
    );
}

#[test]
fn messages_name_the_fault() {
    let ints = [
        (NumberError::Empty, "failed to parse int in: cannot parse integer from empty string"),
        (NumberError::Invalid, "failed to parse int in: invalid digit found in string"),
        (NumberError::TooLarge, "failed to parse int in: number too large to fit in target type"),
        (NumberError::TooSmall, "failed to parse int in: number too small to fit in target type"),
    ];
    for (fault, text) in ints {
        assert_eq!(ParseError::Integer(fault).message(), text);
    }
    let coordinates = [
        (NumberError::Empty, "failed to parse float in: cannot parse float from empty string"),
        (NumberError::Invalid, "failed to parse float in: invalid float literal"),
        (
            NumberError::TooLarge,
            "failed to parse float in: number too large to fit in target type",
        ),
        (
            NumberError::TooSmall,
            "failed to parse float in: number too small to fit in target type",
        ),
    ];
    for (fault, text) in coordinates {
        assert_eq!(ParseError::Coordinate(fault).message(), text);
    }
    assert_eq!(ParseError::MissingField.message(), "record has fewer than five fields");
}

#[test]
fn integer_messages_are_those_of_the_standard_parser() {
    for text in ["", "bad", "99999999999", "-99999999999"] {
        let theirs = i32::from_str_radix(text, 10).unwrap_err();
        let ours = parse_node(text).unwrap_err();
        assert_eq!(ours, format!("failed to parse int in: {}", theirs));
    }
}

#[test]
fn a_resource_is_loaded() {
    let loaded = parse_items("12,5,1.5,2.5,3.5\nbad,data\n7,12,-3.0,2.0,7.0\n");
    assert_eq!(
        loaded.nodes,
        vec![
            node(12, 5, 1_500_000, 2_500_000, 3_500_000),
            node(7, 12, -3_000_000, 2_000_000, 7_000_000)
        ]
    );
    assert_eq!(loaded.rejected, vec![ParseError::Integer(NumberError::Invalid)]);
}

#[test]
fn a_bad_record_does_not_appear_among_the_nodes() {
    let loaded = parse_items("bad,data");
    assert!(loaded.nodes.is_empty());
    assert_eq!(loaded.rejected, vec![ParseError::Integer(NumberError::Invalid)]);
    let loaded = parse_items("12,5,1.5,2.5,3.5\nbad,data");
    assert_eq!(loaded.nodes, vec![node(12, 5, 1_500_000, 2_500_000, 3_500_000)]);
    assert_eq!(loaded.rejected.len(), 1);
}

#[test]
fn empty_lines_are_passed_over() {
    let loaded = parse_items("\n\n1,1,1,1,1\n\n\n2,2,2,2,2\n\n");
    assert_eq!(
        loaded.nodes,
        vec![
            node(1, 1, 1_000_000, 1_000_000, 1_000_000),
            node(2, 2, 2_000_000, 2_000_000, 2_000_000)
        ]
    );
    assert!(loaded.rejected.is_empty());
    let nothing = parse_items("");
    assert!(nothing.nodes.is_empty());
    assert!(nothing.rejected.is_empty());
    let blank = parse_items("\n\r\n\n");
    assert!(blank.nodes.is_empty());
    assert!(blank.rejected.is_empty());
}

#[test]
fn line_ends_of_both_kinds() {
    let loaded = parse_items("1,1,1,1,1\r\n2,2,2,2,2\n3,3,3,3,3");
    assert_eq!(loaded.nodes.len(), 3);
    assert_eq!(loaded.nodes[2], node(3, 3, 3_000_000, 3_000_000, 3_000_000));
    assert!(loaded.rejected.is_empty());
}

#[test]
fn a_carriage_return_counts_only_before_a_line_feed() {
    let loaded = parse_items("1,1,1,1,1\r");
    assert!(loaded.nodes.is_empty());
    assert_eq!(loaded.rejected, vec![ParseError::Coordinate(NumberError::Invalid)]);
    let loaded = parse_items("1,1,1,1,1\r\r\n");
    assert!(loaded.nodes.is_empty());
    assert_eq!(loaded.rejected, vec![ParseError::Coordinate(NumberError::Invalid)]);
    let loaded = parse_items("a\n\r");
    assert_eq!(
        loaded.rejected,
        vec![ParseError::Integer(NumberError::Invalid), ParseError::Integer(NumberError::Invalid)]
    );
}

#[test]
fn faults_come_in_the_order_of_their_records() {
    let loaded = parse_items("x\n1,2\n1,2,3,4,5\n1,2,y,4,5\n,\n");
    assert_eq!(loaded.nodes.len(), 1);
    assert_eq!(
        loaded.rejected,
        vec![
            ParseError::Integer(NumberError::Invalid),
            ParseError::MissingField,
            ParseError::Coordinate(NumberError::Invalid),
            ParseError::Integer(NumberError::Empty),
        ]
    );
}

#[test]
fn lines_are_those_of_the_standard_library() {
    let texts = [
        "",
        "\n",
        "\r\n",
        "\r",
        "1,1,1,1,1",
        "1,1,1,1,1\n",
        "1,1,1,1,1\r\n",
        "1,1,1,1,1\r",
        "1,1,1,1,1\n\r",
        "1,1,1,1,1\r\r\n2,2,2,2,2",
        "1,1,1,1,1\n\n2,2,2,2,2\r\n\r\n3,3,3,3,3",
        "bad,data\n1,2,3,4,5\nmore,bad\n",
        "1,2,3,4,5\n\u{e9}\n6,7,8,9,10",
    ];
    for text in texts {
        let mut nodes = Vec::new();
        let mut rejected = Vec::new();
        for line in text.lines() {
            if !line.is_empty() {
                match record(line) {
                    Ok(n) => nodes.push(n),
                    Err(e) => rejected.push(e),
                }
            }
        }
        let loaded = parse_items(text);
        assert_eq!(loaded.nodes, nodes, "{:?}", text);
        assert_eq!(loaded.rejected, rejected, "{:?}", text);
        let again = parse_items_bytes(text.as_bytes());
        assert_eq!(again.nodes, nodes, "{:?}", text);
        assert_eq!(again.rejected, rejected, "{:?}", text);
    }
}

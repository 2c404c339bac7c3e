use gridshare::codec::{
    decode_point, decode_points, deserialize_point, deserialize_points, encode_message,
    encode_record, parse_i32, pick_frame, split_bytes, ParseError,
};

#[test]
fn parses_plain_and_signed_integers() {
    assert_eq!(parse_i32(b"42"), Some(42));
    assert_eq!(parse_i32(b"-7"), Some(-7));
    assert_eq!(parse_i32(b"+5"), Some(5));
    assert_eq!(parse_i32(b"007"), Some(7));
}

#[test]
fn rejects_malformed_integers() {
    assert_eq!(parse_i32(b""), None);
    assert_eq!(parse_i32(b"-"), None);
    assert_eq!(parse_i32(b"+"), None);
    assert_eq!(parse_i32(b"1a"), None);
    assert_eq!(parse_i32(b" 1"), None);
    assert_eq!(parse_i32(b"--1"), None);
}

#[test]
fn integer_range_edges() {
    assert_eq!(parse_i32(b"2147483647"), Some(i32::MAX));
    assert_eq!(parse_i32(b"-2147483648"), Some(i32::MIN));
    assert_eq!(parse_i32(b"2147483648"), None);
    assert_eq!(parse_i32(b"-2147483649"), None);
    assert_eq!(parse_i32(b"99999999999999999999"), None);
}

#[test]
fn decodes_a_point() {
    assert_eq!(deserialize_point("2:3"), Ok((2, 3)));
    assert_eq!(deserialize_point("-10:+4"), Ok((-10, 4)));
    assert_eq!(decode_point(b"0:0"), Ok((0, 0)));
}

#[test]
fn extra_colons_are_dropped_from_the_row() {
    assert_eq!(deserialize_point("1:2:3"), Ok((1, 23)));
}

#[test]
fn rejects_malformed_points() {
    assert_eq!(deserialize_point("12"), Err(ParseError));
    assert_eq!(deserialize_point(":3"), Err(ParseError));
    assert_eq!(deserialize_point("3:"), Err(ParseError));
    assert_eq!(deserialize_point("a:1"), Err(ParseError));
    assert_eq!(deserialize_point(""), Err(ParseError));
    assert_eq!(deserialize_point("é:1"), Err(ParseError));
}

#[test]
fn decodes_lists_with_and_without_trailing_comma() {
    let with = deserialize_points("1:2,-3:4,");
    let without = deserialize_points("1:2,-3:4");
    assert_eq!(with, Ok(vec![(1, 2), (-3, 4)]));
    assert_eq!(with, without);
}

#[test]
fn decodes_the_empty_list() {
    assert_eq!(deserialize_points(""), Ok(vec![]));
    assert_eq!(decode_points(b""), Ok(vec![]));
}

#[test]
fn rejects_lists_with_a_bad_field() {
    assert_eq!(deserialize_points("1:2,,3:4"), Err(ParseError));
    assert_eq!(deserialize_points(","), Err(ParseError));
    assert_eq!(deserialize_points("1:2,x"), Err(ParseError));
}

#[test]
fn encodes_a_snapshot_message() {
    assert_eq!(encode_message(&[(1, 2), (-3, 4)]), b"1:2,-3:4,;".to_vec());
    assert_eq!(encode_message(&[(0, 0)]), b"0:0,;".to_vec());
    assert_eq!(
        encode_message(&[(i32::MIN, i32::MAX)]),
        b"-2147483648:2147483647,;".to_vec()
    );
}

#[test]
fn empty_snapshot_is_a_lone_semicolon() {
    assert_eq!(encode_message(&[]), b";".to_vec());
}

#[test]
fn encodes_a_record() {
    assert_eq!(encode_record((2, 3)), b"2:3\n".to_vec());
    assert_eq!(encode_record((-15, 100)), b"-15:100\n".to_vec());
}

#[test]
fn list_round_trip() {
    let list = vec![(1, 2), (-3, 4)];
    let mut message = encode_message(&list);
    assert_eq!(message.pop(), Some(b';'));
    assert_eq!(decode_points(&message), Ok(list));
}

#[test]
fn record_round_trip() {
    let mut record = encode_record((-2147483648, 7));
    assert_eq!(record.pop(), Some(b'\n'));
    assert_eq!(decode_point(&record), Ok((i32::MIN, 7)));
}

#[test]
fn splits_at_every_delimiter() {
    assert_eq!(
        split_bytes(b"a,,b,", b','),
        vec![b"a".to_vec(), vec![], b"b".to_vec(), vec![]]
    );
    assert_eq!(split_bytes(b"", b','), vec![Vec::<u8>::new()]);
}

#[test]
fn picks_the_first_frame_that_decodes() {
    assert_eq!(pick_frame(b"1:2,;3:4,;"), Some(vec![(1, 2)]));
    assert_eq!(pick_frame(b";;x;5:6,"), Some(vec![(5, 6)]));
}

#[test]
fn no_frame_to_pick() {
    assert_eq!(pick_frame(b""), None);
    assert_eq!(pick_frame(b";"), None);
    assert_eq!(pick_frame(b"x;y:z;"), None);
}

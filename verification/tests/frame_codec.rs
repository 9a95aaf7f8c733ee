//! The frame codec over raw bytes: completeness checking, parsing,
//! encoding, and the round trips between them.

use my_mini_redis::connection::{parse_frame, write_frame};
use my_mini_redis::frame::{Error, Frame};

fn parse_ok(bytes: &[u8]) -> (Frame, usize) {
    parse_frame(bytes).expect("valid frame").expect("complete frame")
}

#[test]
fn parses_simple_string() {
    let (frame, len) = parse_ok(b"+OK\r\n");
    assert_eq!(frame, Frame::Simple("OK".to_string()));
    assert_eq!(len, 5);
}

#[test]
fn parses_error_string() {
    let (frame, len) = parse_ok(b"-Error message\r\n");
    assert_eq!(frame, Frame::Error("Error message".to_string()));
    assert_eq!(len, 16);
}

#[test]
fn parses_integer() {
    let (frame, _) = parse_ok(b":1234\r\n");
    assert_eq!(frame, Frame::Integer(1234));
}

#[test]
fn parses_integer_with_leading_zeros() {
    let (frame, _) = parse_ok(b":007\r\n");
    assert_eq!(frame, Frame::Integer(7));
}

#[test]
fn parses_integer_ignoring_trailing_garbage_in_line() {
    // the protocol's number reader stops at the first non-digit
    let (frame, _) = parse_ok(b":12ab\r\n");
    assert_eq!(frame, Frame::Integer(12));
}

#[test]
fn rejects_integer_overflow() {
    assert!(parse_frame(b":99999999999999999999\r\n").is_err());
}

#[test]
fn parses_bulk() {
    let (frame, len) = parse_ok(b"$5\r\nhello\r\n");
    assert_eq!(frame, Frame::Bulk(b"hello".to_vec()));
    assert_eq!(len, 11);
}

#[test]
fn parses_empty_bulk() {
    let (frame, _) = parse_ok(b"$0\r\n\r\n");
    assert_eq!(frame, Frame::Bulk(Vec::new()));
}

#[test]
fn parses_null() {
    let (frame, len) = parse_ok(b"$-1\r\n");
    assert_eq!(frame, Frame::Null);
    assert_eq!(len, 5);
}

#[test]
fn rejects_bad_null_sentinel() {
    assert!(parse_frame(b"$-2\r\n").is_err());
}

#[test]
fn parses_array() {
    let (frame, len) = parse_ok(b"*2\r\n$3\r\nfoo\r\n:42\r\n");
    assert_eq!(
        frame,
        Frame::Array(vec![Frame::Bulk(b"foo".to_vec()), Frame::Integer(42)])
    );
    assert_eq!(len, 18);
}

#[test]
fn parses_nested_array() {
    let (frame, _) = parse_ok(b"*1\r\n*1\r\n:5\r\n");
    assert_eq!(
        frame,
        Frame::Array(vec![Frame::Array(vec![Frame::Integer(5)])])
    );
}

#[test]
fn leaves_trailing_bytes_for_the_next_frame() {
    let (frame, len) = parse_ok(b"+OK\r\n+NEXT\r\n");
    assert_eq!(frame, Frame::Simple("OK".to_string()));
    assert_eq!(len, 5);
    let (frame2, _) = parse_ok(&b"+OK\r\n+NEXT\r\n"[len..]);
    assert_eq!(frame2, Frame::Simple("NEXT".to_string()));
}

#[test]
fn incomplete_input_is_not_an_error() {
    assert!(matches!(parse_frame(b""), Ok(None)));
    assert!(matches!(parse_frame(b"+OK"), Ok(None)));
    assert!(matches!(parse_frame(b"$5\r\nhel"), Ok(None)));
    assert!(matches!(parse_frame(b"*2\r\n:1\r\n"), Ok(None)));
}

#[test]
fn rejects_unknown_tag() {
    assert!(parse_frame(b"!bad\r\n").is_err());
}

#[test]
fn rejects_invalid_utf8_in_simple() {
    assert!(parse_frame(b"+\xff\xfe\r\n").is_err());
}

#[test]
fn bulk_payload_may_hold_anything() {
    let (frame, _) = parse_ok(b"$2\r\n\xff\xfe\r\n");
    assert_eq!(frame, Frame::Bulk(vec![0xff, 0xfe]));
}

#[test]
fn encodes_each_form() {
    assert_eq!(write_frame(&Frame::Simple("OK".to_string())), b"+OK\r\n");
    assert_eq!(write_frame(&Frame::Error("oops".to_string())), b"-oops\r\n");
    assert_eq!(write_frame(&Frame::Integer(0)), b":0\r\n");
    assert_eq!(write_frame(&Frame::Integer(18446744073709551615)), b":18446744073709551615\r\n");
    assert_eq!(write_frame(&Frame::Null), b"$-1\r\n");
    assert_eq!(write_frame(&Frame::Bulk(b"bar".to_vec())), b"$3\r\nbar\r\n");
    assert_eq!(
        write_frame(&Frame::Array(vec![
            Frame::Bulk(b"get".to_vec()),
            Frame::Bulk(b"foo".to_vec())
        ])),
        b"*2\r\n$3\r\nget\r\n$3\r\nfoo\r\n"
    );
}

#[test]
fn encode_then_parse_is_identity() {
    let frames = vec![
        Frame::Simple("PONG".to_string()),
        Frame::Error("ERR unknown command 'x'".to_string()),
        Frame::Integer(65),
        Frame::Bulk("\u{4f60}\u{597d}\u{4e16}\u{754c}".as_bytes().to_vec()),
        Frame::Null,
        Frame::Array(vec![
            Frame::Bulk(b"message".to_vec()),
            Frame::Bulk(b"hello".to_vec()),
            Frame::Bulk(b"world".to_vec()),
        ]),
    ];
    for frame in frames {
        let bytes = write_frame(&frame);
        let (parsed, len) = parse_ok(&bytes);
        assert_eq!(len, bytes.len());
        assert_eq!(parsed, frame);
        // and re-encoding reproduces the emitted bytes exactly
        assert_eq!(write_frame(&parsed), bytes);
    }
}

#[test]
fn simple_text_may_hold_a_lone_cr() {
    let frame = Frame::Simple("a\rb".to_string());
    let bytes = write_frame(&frame);
    let (parsed, _) = parse_ok(&bytes);
    assert_eq!(parsed, frame);
}

#[test]
fn frames_render_for_error_reports() {
    assert_eq!(
        Frame::Integer(42).to_error(),
        "unexpected frame: 42".to_string()
    );
    assert_eq!(
        Frame::Simple("hi".to_string()).to_error(),
        "unexpected frame: hi".to_string()
    );
    assert_eq!(Frame::Null.to_error(), "unexpected frame: (nil)".to_string());
    let arr = Frame::Array(vec![
        Frame::Bulk(b"message".to_vec()),
        Frame::Integer(1900),
        Frame::Error("x".to_string()),
    ]);
    assert_eq!(
        arr.to_error(),
        "unexpected frame: message 1900 error: x".to_string()
    );
    assert_eq!(
        Frame::Bulk(vec![0xff]).to_error(),
        "unexpected frame: (invalid utf-8)".to_string()
    );
}

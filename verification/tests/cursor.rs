//! The byte-cursor helpers the codec is built from.

use my_mini_redis::frame::{get_decimal, get_line, get_u8, peek_u8, skip, Error, Frame};

#[test]
fn peek_does_not_advance_and_get_does() {
    let buf = b"ab";
    assert_eq!(peek_u8(buf, 0).unwrap(), b'a');
    assert_eq!(peek_u8(buf, 0).unwrap(), b'a');
    let (b, pos) = get_u8(buf, 0).unwrap();
    assert_eq!((b, pos), (b'a', 1));
    assert!(matches!(get_u8(buf, 2), Err(Error::Incomplete)));
}

#[test]
fn skip_needs_enough_bytes() {
    let buf = b"abcdef";
    assert_eq!(skip(buf, 1, 4).unwrap(), 5);
    assert!(matches!(skip(buf, 3, 4), Err(Error::Incomplete)));
}

#[test]
fn get_line_finds_the_first_crlf() {
    let buf = b"hello\r\nworld\r\n";
    let (end, npos) = get_line(buf, 0).unwrap();
    assert_eq!(&buf[..end], b"hello");
    assert_eq!(npos, 7);
    let (end2, npos2) = get_line(buf, npos).unwrap();
    assert_eq!(&buf[npos..end2], b"world");
    assert_eq!(npos2, buf.len());
    assert!(matches!(get_line(b"no newline", 0), Err(Error::Incomplete)));
}

#[test]
fn get_decimal_reads_the_line_as_a_number() {
    let (v, npos) = get_decimal(b"1024\r\nrest", 0).unwrap();
    assert_eq!((v, npos), (1024, 6));
    assert!(get_decimal(b"abc\r\n", 0).is_err());
    assert!(matches!(get_decimal(b"12", 0), Err(Error::Incomplete)));
}

#[test]
fn check_reports_the_length_without_building_a_frame() {
    assert_eq!(Frame::check(b"+OK\r\nmore", 0).unwrap(), 5);
    assert_eq!(Frame::check(b"*2\r\n:1\r\n:2\r\n", 0).unwrap(), 12);
    assert!(matches!(Frame::check(b"*2\r\n:1\r\n", 0), Err(Error::Incomplete)));
    // the check skips a null sentinel blind; parsing still validates it
    assert_eq!(Frame::check(b"$-9\r\n", 0).unwrap(), 5);
    assert!(Frame::parse(b"$-9\r\n", 0).is_err());
}

//! Command decoding and encoding, and the server's replies: the
//! end-to-end path from request bytes to reply bytes, without a socket.

use my_mini_redis::clients::duration_from_ms_str;
use my_mini_redis::cmd::{Applied, Command, Get, Ping, Publish, SetCmd};
use my_mini_redis::connection::{parse_frame, write_frame};
use my_mini_redis::db::Db;
use my_mini_redis::frame::Frame;
use my_mini_redis::server::next_backoff;

/// Feed request bytes through the whole server path: parse, decode, apply,
/// encode the reply.
fn serve(db: &mut Db, now: u64, request: &[u8]) -> Vec<u8> {
    let (frame, len) = parse_frame(request).unwrap().expect("complete frame");
    assert_eq!(len, request.len());
    let cmd = Command::from_frame(frame).unwrap();
    match cmd.apply(db, now) {
        Applied::Reply { frame, .. } => write_frame(&frame),
        other => panic!("expected a reply, got {:?}", matches!(other, Applied::Fatal { .. })),
    }
}

#[test]
fn ping_pong_without_message() {
    let mut db = Db::new();
    let reply = serve(&mut db, 0, b"*1\r\n$4\r\nping\r\n");
    assert_eq!(reply, b"+PONG\r\n");
}

#[test]
fn ping_pong_with_message() {
    let mut db = Db::new();
    let mut request: Vec<u8> = Vec::new();
    request.extend_from_slice(b"*2\r\n$4\r\nping\r\n$12\r\n");
    request.extend_from_slice("\u{4f60}\u{597d}\u{4e16}\u{754c}".as_bytes());
    request.extend_from_slice(b"\r\n");
    let reply = serve(&mut db, 0, &request);
    let mut expected: Vec<u8> = Vec::new();
    expected.extend_from_slice(b"$12\r\n");
    expected.extend_from_slice("\u{4f60}\u{597d}\u{4e16}\u{754c}".as_bytes());
    expected.extend_from_slice(b"\r\n");
    assert_eq!(reply, expected);
}

#[test]
fn get_set_round_trip_over_the_wire() {
    let mut db = Db::new();
    assert_eq!(serve(&mut db, 0, b"*3\r\n$3\r\nset\r\n$3\r\nfoo\r\n$3\r\nbar\r\n"), b"+OK\r\n");
    assert_eq!(serve(&mut db, 0, b"*2\r\n$3\r\nget\r\n$3\r\nfoo\r\n"), b"$3\r\nbar\r\n");
}

#[test]
fn get_of_missing_key_replies_null() {
    let mut db = Db::new();
    assert_eq!(serve(&mut db, 0, b"*2\r\n$3\r\nget\r\n$3\r\nfoo\r\n"), b"$-1\r\n");
}

#[test]
fn set_with_px_expires_after_the_purge() {
    let mut db = Db::new();
    assert_eq!(
        serve(&mut db, 1_000, b"*5\r\n$3\r\nset\r\n$3\r\nfoo\r\n$3\r\nbar\r\n$2\r\npx\r\n$2\r\n50\r\n"),
        b"+OK\r\n"
    );
    // before expiry the value is served
    assert_eq!(serve(&mut db, 1_000, b"*2\r\n$3\r\nget\r\n$3\r\nfoo\r\n"), b"$3\r\nbar\r\n");
    // 200 ms later the purge worker runs and the key is gone
    db.purge_expired_keys(1_200);
    assert_eq!(serve(&mut db, 1_200, b"*2\r\n$3\r\nget\r\n$3\r\nfoo\r\n"), b"$-1\r\n");
}

#[test]
fn set_with_ex_counts_seconds() {
    let mut db = Db::new();
    assert_eq!(
        serve(&mut db, 0, b"*5\r\n$3\r\nset\r\n$1\r\nk\r\n$1\r\nv\r\n$2\r\nex\r\n$1\r\n2\r\n"),
        b"+OK\r\n"
    );
    db.purge_expired_keys(1_999);
    assert_eq!(serve(&mut db, 1_999, b"*2\r\n$3\r\nget\r\n$1\r\nk\r\n"), b"$1\r\nv\r\n");
    db.purge_expired_keys(2_000);
    assert_eq!(serve(&mut db, 2_000, b"*2\r\n$3\r\nget\r\n$1\r\nk\r\n"), b"$-1\r\n");
}

#[test]
fn command_names_match_case_insensitively() {
    let mut db = Db::new();
    assert_eq!(serve(&mut db, 0, b"*1\r\n$4\r\nPING\r\n"), b"+PONG\r\n");
    assert_eq!(serve(&mut db, 0, b"*2\r\n$3\r\nGeT\r\n$1\r\nx\r\n"), b"$-1\r\n");
}

#[test]
fn unknown_command_replies_an_error_and_keeps_the_name() {
    let mut db = Db::new();
    assert_eq!(
        serve(&mut db, 0, b"*1\r\n$6\r\nFOOBAR\r\n"),
        b"-ERR unknown command 'FOOBAR'\r\n"
    );
}

#[test]
fn set_with_a_bad_option_is_a_protocol_error() {
    let (frame, _) = parse_frame(b"*4\r\n$3\r\nset\r\n$1\r\nk\r\n$1\r\nv\r\n$2\r\nzz\r\n")
        .unwrap()
        .unwrap();
    assert!(Command::from_frame(frame).is_err());
}

#[test]
fn ping_with_extra_arguments_is_a_protocol_error() {
    let (frame, _) = parse_frame(b"*3\r\n$4\r\nping\r\n$1\r\na\r\n$1\r\nb\r\n")
        .unwrap()
        .unwrap();
    assert!(Command::from_frame(frame).is_err());
}

#[test]
fn subscribe_needs_at_least_one_channel() {
    let (frame, _) = parse_frame(b"*1\r\n$9\r\nsubscribe\r\n").unwrap().unwrap();
    assert!(Command::from_frame(frame).is_err());
}

#[test]
fn publish_reply_counts_subscribers() {
    let mut db = Db::new();
    let _rx = db.subscribe("news".to_string());
    assert_eq!(
        serve(&mut db, 0, b"*3\r\n$7\r\npublish\r\n$4\r\nnews\r\n$2\r\nhi\r\n"),
        b":1\r\n"
    );
}

#[test]
fn client_request_frames_decode_back_to_the_same_command() {
    // GET
    let frame = Get::new("foo").into_frame();
    let decoded = Command::from_frame(frame).unwrap();
    assert!(matches!(decoded, Command::Get(ref g) if g.key() == "foo"));
    // SET with a lifetime travels as PX milliseconds
    let frame = SetCmd::new("k", b"v".to_vec(), Some(2500)).into_frame();
    assert_eq!(
        write_frame(&frame),
        b"*5\r\n$3\r\nset\r\n$1\r\nk\r\n$1\r\nv\r\n$2\r\npx\r\n:2500\r\n"
    );
    let decoded = Command::from_frame(frame).unwrap();
    assert!(
        matches!(decoded, Command::SetCmd(ref c) if c.key() == "k" && c.value() == &b"v".to_vec() && c.expire() == Some(2500))
    );
    // PING with a message
    let frame = Ping::new(Some(b"hey".to_vec())).into_frame();
    let decoded = Command::from_frame(frame).unwrap();
    assert!(matches!(decoded, Command::Ping(_)));
    // PUBLISH
    let frame = Publish::new("ch", b"m".to_vec()).into_frame();
    let decoded = Command::from_frame(frame).unwrap();
    assert!(matches!(decoded, Command::Publish(_)));
}

#[test]
fn backoff_doubles_until_it_turns_fatal() {
    let mut backoff: u64 = 1;
    let mut steps = 0;
    loop {
        match next_backoff(backoff) {
            Some(next) => {
                backoff = next;
                steps += 1;
            }
            None => break,
        }
    }
    assert_eq!(backoff, 128);
    assert_eq!(steps, 7);
}

#[test]
fn durations_on_the_command_line_are_strict_milliseconds() {
    assert_eq!(duration_from_ms_str("250"), Some(250));
    assert_eq!(duration_from_ms_str("+7"), Some(7));
    assert_eq!(duration_from_ms_str(""), None);
    assert_eq!(duration_from_ms_str("12ab"), None);
    assert_eq!(duration_from_ms_str("-5"), None);
    assert_eq!(duration_from_ms_str("99999999999999999999"), None);
}

//! The client's reading of reply frames.

use my_mini_redis::clients::{
    apply_unsubscribe_ack, classify_response, get_response, message_from_frame, ping_response,
    publish_response, set_response, subscribe_ack_matches,
};
use my_mini_redis::frame::Frame;

#[test]
fn ping_reply_is_the_text_or_the_echo() {
    assert_eq!(
        ping_response(Frame::Simple("PONG".to_string())).unwrap(),
        b"PONG".to_vec()
    );
    assert_eq!(
        ping_response(Frame::Bulk(b"hey".to_vec())).unwrap(),
        b"hey".to_vec()
    );
    assert!(ping_response(Frame::Null).is_err());
}

#[test]
fn get_reply_is_bytes_or_nothing() {
    assert_eq!(
        get_response(Frame::Bulk(b"bar".to_vec())).unwrap(),
        Some(b"bar".to_vec())
    );
    assert_eq!(get_response(Frame::Null).unwrap(), None);
    assert!(get_response(Frame::Integer(1)).is_err());
}

#[test]
fn set_reply_must_be_ok() {
    assert!(set_response(Frame::Simple("OK".to_string())).is_ok());
    assert!(set_response(Frame::Simple("NO".to_string())).is_err());
    assert!(set_response(Frame::Null).is_err());
}

#[test]
fn publish_reply_is_the_count() {
    assert_eq!(publish_response(Frame::Integer(3)).unwrap(), 3);
    assert!(publish_response(Frame::Null).is_err());
}

#[test]
fn error_frames_and_resets_surface_as_errors() {
    assert!(classify_response(Some(Frame::Error("boom".to_string()))).is_err());
    assert!(classify_response(None).is_err());
    assert_eq!(
        classify_response(Some(Frame::Integer(1))).unwrap(),
        Frame::Integer(1)
    );
}

#[test]
fn subscribe_acks_are_recognised() {
    let ack = Frame::Array(vec![
        Frame::Bulk(b"subscribe".to_vec()),
        Frame::Bulk(b"hello".to_vec()),
        Frame::Integer(1),
    ]);
    assert!(subscribe_ack_matches(&ack, "hello"));
    assert!(!subscribe_ack_matches(&ack, "world"));
    assert!(!subscribe_ack_matches(&Frame::Null, "hello"));
}

#[test]
fn forwarded_messages_are_read_back() {
    let frame = Frame::Array(vec![
        Frame::Bulk(b"message".to_vec()),
        Frame::Bulk(b"hello".to_vec()),
        Frame::Bulk(b"world".to_vec()),
    ]);
    let msg = message_from_frame(frame).unwrap();
    assert_eq!(msg.channel, "hello");
    assert_eq!(msg.content, b"world".to_vec());
    assert!(message_from_frame(Frame::Null).is_err());
}

#[test]
fn unsubscribe_acks_shrink_the_client_list_by_one() {
    let mut subscribed = vec!["hello".to_string(), "world".to_string()];
    let ack = Frame::Array(vec![
        Frame::Bulk(b"unsubscribe".to_vec()),
        Frame::Bulk(b"hello".to_vec()),
        Frame::Integer(1),
    ]);
    apply_unsubscribe_ack(&mut subscribed, &ack).unwrap();
    assert_eq!(subscribed, vec!["world".to_string()]);
    // acknowledging a channel that is not subscribed fails
    assert!(apply_unsubscribe_ack(&mut subscribed, &ack).is_err());
    assert_eq!(subscribed, vec!["world".to_string()]);
}

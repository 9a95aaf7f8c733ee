//! Pub/sub: the registry of broadcast endpoints, delivery counts, and the
//! subscription state machine of a connection in pub/sub mode.

use my_mini_redis::cmd::subscribe::{PubSubState, Subscribe};
use my_mini_redis::cmd::Command;
use my_mini_redis::db::Db;
use my_mini_redis::frame::Frame;

fn subscribe_cmd(channels: &[&str]) -> Subscribe {
    Subscribe::new(channels.iter().map(|c| c.to_string()).collect())
}

fn unsubscribe_frame(channels: &[&str]) -> Frame {
    let mut elems = vec![Frame::Bulk(b"unsubscribe".to_vec())];
    for ch in channels {
        elems.push(Frame::Bulk(ch.as_bytes().to_vec()));
    }
    Frame::Array(elems)
}

#[test]
fn publish_without_subscribers_reaches_nobody() {
    let db = Db::new();
    assert_eq!(db.publish("hello", b"world".to_vec()), 0);
}

#[test]
fn publish_counts_the_receivers_the_endpoint_reports() {
    let mut db = Db::new();
    let mut rx1 = db.subscribe("hello".to_string());
    let mut rx2 = db.subscribe("hello".to_string());
    assert_eq!(db.publish("hello", b"world".to_vec()), 2);
    assert_eq!(rx1.try_recv().unwrap(), b"world".to_vec());
    assert_eq!(rx2.try_recv().unwrap(), b"world".to_vec());
}

#[test]
fn receive_message_multiple_subscribed_channels() {
    let mut db = Db::new();
    let mut state = PubSubState::new(subscribe_cmd(&["hello", "world"]));

    let mut receivers = Vec::new();
    while let Some(name) = state.next_pending() {
        let (rx, ack) = state.subscribe_to_channel(&mut db, name);
        receivers.push(rx);
        assert!(matches!(ack, Frame::Array(_)));
    }
    assert_eq!(state.subscribed().len(), 2);

    assert_eq!(db.publish("hello", b"world".to_vec()), 1);
    assert_eq!(receivers[0].try_recv().unwrap(), b"world".to_vec());

    assert_eq!(db.publish("world", b"howdy?".to_vec()), 1);
    assert_eq!(receivers[1].try_recv().unwrap(), b"howdy?".to_vec());
}

#[test]
fn subscribe_ack_carries_channel_and_count() {
    let mut db = Db::new();
    let mut state = PubSubState::new(subscribe_cmd(&["hello"]));
    let name = state.next_pending().unwrap();
    let (_rx, ack) = state.subscribe_to_channel(&mut db, name);
    assert_eq!(
        ack,
        Frame::Array(vec![
            Frame::Bulk(b"subscribe".to_vec()),
            Frame::Bulk(b"hello".to_vec()),
            Frame::Integer(1),
        ])
    );
}

#[test]
fn unsubscribes_from_channels() {
    let mut db = Db::new();
    let mut state = PubSubState::new(subscribe_cmd(&["hello", "world"]));
    while let Some(name) = state.next_pending() {
        let _ = state.subscribe_to_channel(&mut db, name);
    }

    // an empty UNSUBSCRIBE removes every current subscription
    let (acks, removed) = state.handle_command(unsubscribe_frame(&[])).unwrap();
    assert_eq!(state.subscribed().len(), 0);
    assert_eq!(removed, vec!["hello".to_string(), "world".to_string()]);
    assert_eq!(acks.len(), 2);
    assert_eq!(
        acks[0],
        Frame::Array(vec![
            Frame::Bulk(b"unsubscribe".to_vec()),
            Frame::Bulk(b"hello".to_vec()),
            Frame::Integer(1),
        ])
    );
    assert_eq!(
        acks[1],
        Frame::Array(vec![
            Frame::Bulk(b"unsubscribe".to_vec()),
            Frame::Bulk(b"world".to_vec()),
            Frame::Integer(0),
        ])
    );
}

#[test]
fn unsubscribing_an_unknown_channel_still_acknowledges() {
    let mut db = Db::new();
    let mut state = PubSubState::new(subscribe_cmd(&["hello"]));
    while let Some(name) = state.next_pending() {
        let _ = state.subscribe_to_channel(&mut db, name);
    }
    let (acks, _) = state.handle_command(unsubscribe_frame(&["other"])).unwrap();
    assert_eq!(state.subscribed().len(), 1);
    assert_eq!(
        acks[0],
        Frame::Array(vec![
            Frame::Bulk(b"unsubscribe".to_vec()),
            Frame::Bulk(b"other".to_vec()),
            Frame::Integer(1),
        ])
    );
}

#[test]
fn other_commands_in_pubsub_mode_draw_an_error_and_continue() {
    let mut state = PubSubState::new(subscribe_cmd(&["hello"]));
    let get = Frame::Array(vec![
        Frame::Bulk(b"get".to_vec()),
        Frame::Bulk(b"foo".to_vec()),
    ]);
    let (acks, removed) = state.handle_command(get).unwrap();
    assert!(removed.is_empty());
    assert_eq!(
        acks,
        vec![Frame::Error("ERR unknown command 'get'".to_string())]
    );
}

#[test]
fn new_subscriptions_in_pubsub_mode_queue_for_attachment() {
    let mut state = PubSubState::new(subscribe_cmd(&["hello"]));
    while let Some(_name) = state.next_pending() {}
    let frame = subscribe_cmd(&["extra"]).into_frame();
    let (acks, removed) = state.handle_command(frame).unwrap();
    assert!(acks.is_empty() && removed.is_empty());
    assert_eq!(state.next_pending(), Some("extra".to_string()));
}

#[test]
fn unsubscribe_outside_pubsub_mode_is_refused() {
    let mut db = Db::new();
    let cmd = Command::from_frame(unsubscribe_frame(&["hello"])).unwrap();
    let applied = cmd.apply(&mut db, 0);
    assert!(matches!(
        applied,
        my_mini_redis::cmd::Applied::Fatal { .. }
    ));
}

#[test]
fn lagging_subscriber_misses_messages_and_resumes() {
    let mut db = Db::new();
    let mut rx = db.subscribe("busy".to_string());
    // overflow the bounded broadcast buffer without receiving
    for i in 0..1100u32 {
        assert_eq!(db.publish("busy", i.to_string().into_bytes()), 1);
    }
    // the lag is signalled once...
    assert!(matches!(
        rx.try_recv(),
        Err(tokio::sync::broadcast::error::TryRecvError::Lagged(_))
    ));
    // ...and reception resumes with a later message
    let next = rx.try_recv().unwrap();
    assert_eq!(next, b"76".to_vec());
}

//! The client's half of the protocol: interpreting reply frames. The
//! socket work stays outside; these functions take the frames a connection
//! read and say what they mean, exactly as the client primitives do.

use vstd::prelude::*;
use vstd::string::StrSliceExecFns;
use vstd::utf8::encode_utf8;

use crate::frame::{spec_eq_str, str_eq, string_from_utf8, views_of_seq, Frame, FrameView};
use crate::parse::{bytes_of, str_of};

verus! {

/// A message received by a subscriber: the channel it was published on and
/// its payload.
#[derive(Debug)]
pub struct Message {
    pub channel: String,
    pub content: Vec<u8>,
}

/// Classify a reply read from the connection: an error frame carries the
/// server's message, end of stream means the server reset the connection.
pub fn classify_response(response: Option<Frame>) -> (r: Result<Frame, String>)
    ensures
        match r {
            Ok(f) => response matches Some(g) && g@ == f@ && !(f@ is Error),
            Err(_) => response is None || (response matches Some(g) && g@ is Error),
        },
{
    match response {
        Some(Frame::Error(msg)) => Err(msg),
        Some(frame) => Ok(frame),
        None => Err(String::from_str("connection reset by server")),
    }
}

/// The bytes a `PING` reply carries: the text of `PONG`, or the echoed
/// message.
pub fn ping_response(frame: Frame) -> (r: Result<Vec<u8>, String>)
    ensures
        match r {
            Ok(b) => (frame@ matches FrameView::Simple(s) && b@ == encode_utf8(s)) || (
            frame@ matches FrameView::Bulk(d) && b@ == d),
            Err(_) => !(frame@ is Simple) && !(frame@ is Bulk),
        },
{
    match frame {
        Frame::Simple(value) => Ok(value.as_str().as_bytes_vec()),
        Frame::Bulk(value) => Ok(value),
        other => Err(other.to_error()),
    }
}

/// The value a `GET` reply carries: bytes, or nothing for null.
pub fn get_response(frame: Frame) -> (r: Result<Option<Vec<u8>>, String>)
    ensures
        match r {
            Ok(Some(b)) => (frame@ matches FrameView::Simple(s) && b@ == encode_utf8(s)) || (
            frame@ matches FrameView::Bulk(d) && b@ == d),
            Ok(None) => frame@ is Null,
            Err(_) => !(frame@ is Simple) && !(frame@ is Bulk) && !(frame@ is Null),
        },
{
    match frame {
        Frame::Simple(value) => Ok(Some(value.as_str().as_bytes_vec())),
        Frame::Bulk(value) => Ok(Some(value)),
        Frame::Null => Ok(None),
        other => Err(other.to_error()),
    }
}

/// A `SET` reply: only the simple string `OK` succeeds.
pub fn set_response(frame: Frame) -> (r: Result<(), String>)
    ensures
        match r {
            Ok(()) => frame@ == FrameView::Simple("OK"@),
            Err(_) => frame@ != FrameView::Simple("OK"@),
        },
{
    match frame {
        Frame::Simple(value) => {
            if str_eq(value.as_str(), "OK") {
                Ok(())
            } else {
                Err(Frame::Simple(value).to_error())
            }
        },
        other => Err(other.to_error()),
    }
}

/// A `PUBLISH` reply: the subscriber count.
pub fn publish_response(frame: Frame) -> (r: Result<u64, String>)
    ensures
        match r {
            Ok(n) => frame@ == FrameView::Integer(n),
            Err(_) => !(frame@ is Integer),
        },
{
    match frame {
        Frame::Integer(n) => Ok(n),
        other => Err(other.to_error()),
    }
}

/// Whether a reply acknowledges subscribing to `channel`:
/// `["subscribe", channel, ..]`.
pub fn subscribe_ack_matches(frame: &Frame, channel: &str) -> (r: bool)
    ensures
        r == (frame@ matches FrameView::Array(elems) && elems.len() >= 2 && spec_eq_str(
            elems[0],
            "subscribe"@,
        ) && spec_eq_str(elems[1], channel@)),
{
    match frame {
        Frame::Array(elems) => {
            proof {
                assert(frame@->Array_0 =~= views_of_seq(elems@));
            }
            if elems.len() >= 2 {
                elems[0].eq_str("subscribe") && elems[1].eq_str(channel)
            } else {
                false
            }
        },
        _ => false,
    }
}

/// Read a forwarded message out of a `["message", channel, payload]`
/// frame.
pub fn message_from_frame(frame: Frame) -> (r: Result<Message, String>)
    ensures
        match r {
            Ok(msg) => frame@ matches FrameView::Array(elems) && elems.len() == 3 && spec_eq_str(
                elems[0],
                "message"@,
            ) && str_of(elems[1]) == Some(msg.channel@) && bytes_of(elems[2]) == Some(
                msg.content@,
            ),
            Err(_) => !(frame@ matches FrameView::Array(elems) && elems.len() == 3 && spec_eq_str(
                elems[0],
                "message"@,
            ) && str_of(elems[1]) is Some && bytes_of(elems[2]) is Some),
        },
{
    match frame {
        Frame::Array(mut elems) => {
            proof {
                assert(views_of_seq(elems@) =~= FrameView::Array(views_of_seq(elems@))->Array_0);
            }
            if elems.len() != 3 {
                return Err(String::from_str("unexpected frame"));
            }
            let ghost evs = views_of_seq(elems@);
            let head = elems.remove(0);
            let chan = elems.remove(0);
            let payload = elems.remove(0);
            proof {
                assert(head@ == evs[0]);
                assert(chan@ == evs[1]);
                assert(payload@ == evs[2]);
            }
            if !head.eq_str("message") {
                return Err(String::from_str("unexpected frame"));
            }
            let channel: String = match chan {
                Frame::Simple(s) => s,
                Frame::Bulk(b) => match string_from_utf8(b) {
                    Some(s) => s,
                    None => {
                        return Err(String::from_str("unexpected frame"));
                    },
                },
                _ => {
                    return Err(String::from_str("unexpected frame"));
                },
            };
            let content: Vec<u8> = match payload {
                Frame::Simple(s) => s.as_str().as_bytes_vec(),
                Frame::Bulk(b) => b,
                Frame::Integer(n) => crate::parse::u64_to_be_bytes(n),
                _ => {
                    return Err(String::from_str("unexpected frame"));
                },
            };
            Ok(Message { channel, content })
        },
        other => Err(other.to_error()),
    }
}

/// A well-formed unsubscribe acknowledgement that applies to the list:
/// the frame has the `["unsubscribe", channel, ..]` shape and its channel
/// matches exactly one entry.
pub open spec fn spec_unsub_ack_applies(fv: FrameView, subscribed: Seq<String>) -> bool {
    &&& fv matches FrameView::Array(elems)
    &&& elems.len() >= 2
    &&& spec_eq_str(elems[0], "unsubscribe"@)
    &&& exists|j: int|
        0 <= j < subscribed.len() && spec_eq_str(elems[1], (#[trigger] subscribed[j])@) && (
        forall|t: int|
            0 <= t < subscribed.len() && t != j ==> !spec_eq_str(
                elems[1],
                (#[trigger] subscribed[t])@,
            ))
}

/// Apply one `["unsubscribe", channel, ..]` acknowledgement to the
/// client's list of subscribed channels. It succeeds exactly when the
/// acknowledged channel matches one and only one entry, and that entry
/// leaves the list; on any other frame — wrong shape, unknown channel, a
/// duplicate match, or an already empty list — it fails and the list is
/// unchanged.
#[verifier::rlimit(60)]
pub fn apply_unsubscribe_ack(subscribed: &mut Vec<String>, frame: &Frame) -> (r: Result<
    (),
    String,
>)
    ensures
        match r {
            Ok(()) => spec_unsub_ack_applies(frame@, old(subscribed)@) && (
            frame@ matches FrameView::Array(elems) ==> exists|j: int|
                0 <= j < old(subscribed)@.len() && spec_eq_str(
                    elems[1],
                    (#[trigger] old(subscribed)@[j])@,
                ) && final(subscribed)@ == old(subscribed)@.remove(j)),
            Err(_) => final(subscribed)@ == old(subscribed)@ && !spec_unsub_ack_applies(
                frame@,
                old(subscribed)@,
            ),
        },
{
    let ghost s0 = subscribed@;
    match frame {
        Frame::Array(elems) => {
            let ghost ev = views_of_seq(elems@);
            proof {
                assert(frame@->Array_0 =~= ev);
            }
            if elems.len() < 2 || !elems[0].eq_str("unsubscribe") {
                return Err(String::from_str("unexpected frame"));
            }
            if subscribed.len() == 0 {
                return Err(String::from_str("unexpected frame"));
            }
            let n: usize = subscribed.len();
            let mut i: usize = 0;
            let mut count: usize = 0;
            let mut first: usize = 0;
            while i < n
                invariant
                    i <= n,
                    n == subscribed@.len(),
                    subscribed@ == s0,
                    elems@.len() >= 2,
                    ev == views_of_seq(elems@),
                    frame@ == FrameView::Array(ev),
                    count <= 1,
                    count == 1 ==> first < i && spec_eq_str(ev[1], s0[first as int]@),
                    forall|t: int|
                        0 <= t < i && (count == 0 || t != first) ==> !spec_eq_str(
                            ev[1],
                            (#[trigger] s0[t])@,
                        ),
                decreases n - i,
            {
                if elems[1].eq_str(subscribed[i].as_str()) {
                    if count == 0 {
                        first = i;
                    } else {
                        // a second entry matches: no single entry is the match
                        proof {
                            assert(spec_eq_str(ev[1], s0[first as int]@));
                            assert(spec_eq_str(ev[1], s0[i as int]@));
                            if spec_unsub_ack_applies(frame@, s0) {
                                let j = choose|j: int|
                                    0 <= j < s0.len() && spec_eq_str(
                                        ev[1],
                                        (#[trigger] s0[j])@,
                                    ) && (forall|t: int|
                                        0 <= t < s0.len() && t != j ==> !spec_eq_str(
                                            ev[1],
                                            (#[trigger] s0[t])@,
                                        ));
                                if j != first {
                                    assert(!spec_eq_str(ev[1], s0[first as int]@));
                                } else {
                                    assert(!spec_eq_str(ev[1], s0[i as int]@));
                                }
                                assert(false);
                            }
                        }
                        return Err(String::from_str("unexpected frame"));
                    }
                    count = count + 1;
                }
                i = i + 1;
            }
            if count != 1 {
                // nothing matched
                proof {
                    assert(count == 0);
                    assert(forall|t: int|
                        0 <= t < s0.len() ==> !spec_eq_str(ev[1], (#[trigger] s0[t])@));
                    assert(!spec_unsub_ack_applies(frame@, s0));
                }
                return Err(String::from_str("unexpected frame"));
            }
            subscribed.remove(first);
            Ok(())
        },
        _ => {
            proof {
                assert(!(frame@ is Array));
            }
            Err(String::from_str("unexpected frame"))
        },
    }
}

} // verus!

verus! {

/// A lifetime given on the command line: the string read strictly as a
/// number of milliseconds.
pub fn duration_from_ms_str(src: &str) -> (r: Option<u64>)
    ensures
        r == crate::decimal::strict_u64(encode_utf8(src@)),
{
    crate::decimal::parse_u64_strict(src.as_bytes())
}

} // verus!

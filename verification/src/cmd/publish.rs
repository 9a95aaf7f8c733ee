//! `PUBLISH channel message`: deliver a message to every subscriber of a
//! channel.

use vstd::prelude::*;
use vstd::string::StrSliceExecFns;
use vstd::utf8::encode_utf8;

use crate::db::Db;
use crate::frame::{Frame, FrameView};
use crate::parse::{bytes_of, str_of, Parse, ParseError};

verus! {

/// Post a message to a channel; the reply counts the subscribers the
/// broadcast endpoint reported delivery to. The channel name space is
/// unrelated to the key space.
#[derive(Debug)]
pub struct Publish {
    channel: String,
    message: Vec<u8>,
}

impl View for Publish {
    type V = (Seq<char>, Seq<u8>);

    closed spec fn view(&self) -> (Seq<char>, Seq<u8>) {
        (self.channel@, self.message@)
    }
}

impl Publish {
    /// A `PUBLISH` of `message` on `channel`.
    pub fn new(channel: &str, message: Vec<u8>) -> (p: Publish)
        ensures
            p@ == (channel@, message@),
    {
        Publish { channel: String::from_str(channel), message }
    }

    /// Decode the fields that follow the command name: a channel string
    /// and a message.
    pub fn parse_frames(parse: &mut Parse) -> (r: Result<Publish, ParseError>)
        ensures
            match r {
                Ok(p) => old(parse)@.len() >= 2 && str_of(old(parse)@[0]) == Some(p@.0) && bytes_of(
                    old(parse)@[1],
                ) == Some(p@.1) && final(parse)@ == old(parse)@.skip(2),
                Err(ParseError::EndOfStream) => (old(parse)@.len() == 0 && final(parse)@ == old(parse)@) || (old(parse)@.len() == 1 && str_of(old(parse)@[0]) is Some && final(parse)@
                    == old(parse)@.drop_first()),
                Err(ParseError::Other(_)) => (old(parse)@.len() >= 1 && str_of(
                    old(parse)@[0],
                ) is None && final(parse)@ == old(parse)@.drop_first()) || (old(parse)@.len() >= 2
                    && str_of(old(parse)@[0]) is Some && bytes_of(old(parse)@[1]) is None && final(parse)@ == old(parse)@.skip(2)),
            },
    {
        let ghost before = parse@;
        let channel = parse.next_string()?;
        let message = parse.next_bytes()?;
        proof {
            assert(before.drop_first().drop_first() =~= before.skip(2));
        }
        Ok(Publish { channel, message })
    }

    /// Apply to the store: send on the channel's endpoint and reply with
    /// the reported receiver count — 0 whenever the channel has no
    /// endpoint or no subscribers.
    pub fn apply(self, db: &Db) -> (resp: Frame)
        requires
            db.wf(),
        ensures
            resp@ is Integer,
            !db@.channels.contains(self@.0) ==> resp@ == FrameView::Integer(0),
    {
        let n = db.publish(self.channel.as_str(), self.message);
        Frame::Integer(n as u64)
    }

    /// Encode as the array frame the client sends.
    pub fn into_frame(self) -> (f: Frame)
        ensures
            f@ == FrameView::Array(
                seq![
                    FrameView::Bulk(encode_utf8("publish"@)),
                    FrameView::Bulk(encode_utf8(self@.0)),
                    FrameView::Bulk(self@.1),
                ],
            ),
    {
        let ghost me = self@;
        let mut frame = Frame::array();
        frame.push_bulk(("publish").as_bytes_vec());
        frame.push_bulk(self.channel.as_str().as_bytes_vec());
        frame.push_bulk(self.message);
        proof {
            assert(Seq::<FrameView>::empty().push(FrameView::Bulk(encode_utf8("publish"@))).push(
                FrameView::Bulk(encode_utf8(me.0)),
            ).push(FrameView::Bulk(me.1)) =~= seq![
                FrameView::Bulk(encode_utf8("publish"@)),
                FrameView::Bulk(encode_utf8(me.0)),
                FrameView::Bulk(me.1),
            ]);
        }
        frame
    }
}

} // verus!

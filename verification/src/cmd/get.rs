//! `GET key`: read the value stored under a key.

use vstd::prelude::*;
use vstd::string::StrSliceExecFns;
use vstd::utf8::encode_utf8;

use crate::db::Db;
use crate::frame::{Frame, FrameView};
use crate::parse::{str_of, Parse, ParseError};

verus! {

/// Get the value of a key; the reply is the value as a bulk frame, or null
/// when the key holds nothing.
#[derive(Debug)]
pub struct Get {
    key: String,
}

impl View for Get {
    type V = Seq<char>;

    closed spec fn view(&self) -> Seq<char> {
        self.key@
    }
}

/// The array frame a `GET` encodes to.
pub open spec fn spec_get_frame(key: Seq<char>) -> FrameView {
    FrameView::Array(
        seq![
            FrameView::Bulk(encode_utf8("get"@)),
            FrameView::Bulk(encode_utf8(key)),
        ],
    )
}

impl Get {
    /// A `GET` for the given key.
    pub fn new(key: &str) -> (g: Get)
        ensures
            g@ == key@,
    {
        Get { key: String::from_str(key) }
    }

    /// The key this command reads.
    pub fn key(&self) -> (k: &str)
        ensures
            k@ == self@,
    {
        self.key.as_str()
    }

    /// Decode the fields that follow the command name: one key string.
    pub fn parse_frames(parse: &mut Parse) -> (r: Result<Get, ParseError>)
        ensures
            match r {
                Ok(g) => old(parse)@.len() > 0 && str_of(old(parse)@[0]) == Some(g@) && final(parse)@ == old(parse)@.drop_first(),
                Err(ParseError::EndOfStream) => old(parse)@.len() == 0 && final(parse)@ == old(parse)@,
                Err(ParseError::Other(_)) => old(parse)@.len() > 0 && str_of(
                    old(parse)@[0],
                ) is None && final(parse)@ == old(parse)@.drop_first(),
            },
    {
        let key = parse.next_string()?;
        Ok(Get { key })
    }

    /// Apply to the store: the stored bytes, or null. Expired entries the
    /// purge worker has not yet removed are still returned.
    pub fn apply(self, db: &Db) -> (resp: Frame)
        requires
            db.wf(),
        ensures
            resp@ == (if db@.entries.dom().contains(self@) {
                FrameView::Bulk(db@.entries[self@].data)
            } else {
                FrameView::Null
            }),
    {
        match db.get(self.key.as_str()) {
            Some(value) => Frame::Bulk(value),
            None => Frame::Null,
        }
    }

    /// Encode as the array frame the client sends.
    pub fn into_frame(self) -> (f: Frame)
        ensures
            f@ == spec_get_frame(self@),
    {
        let mut frame = Frame::array();
        frame.push_bulk(("get").as_bytes_vec());
        frame.push_bulk(self.key.as_str().as_bytes_vec());
        proof {
            assert(Seq::<FrameView>::empty().push(FrameView::Bulk(encode_utf8("get"@))).push(
                FrameView::Bulk(encode_utf8(self@)),
            ) =~= seq![
                FrameView::Bulk(encode_utf8("get"@)),
                FrameView::Bulk(encode_utf8(self@)),
            ]);
        }
        frame
    }
}

} // verus!

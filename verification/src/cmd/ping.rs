//! `PING [message]`: test the connection; echoes the message if given.

use vstd::prelude::*;
use vstd::string::StrSliceExecFns;

use crate::frame::{Frame, FrameView};
use crate::parse::{bytes_of, Parse, ParseError};

verus! {

/// Ping the server: the reply is `PONG`, or a copy of the optional
/// message.
#[derive(Debug)]
pub struct Ping {
    msg: Option<Vec<u8>>,
}

impl View for Ping {
    type V = Option<Seq<u8>>;

    closed spec fn view(&self) -> Option<Seq<u8>> {
        match self.msg {
            Some(ref m) => Some(m@),
            None => None,
        }
    }
}

impl Default for Ping {
    /// A `PING` without a message.
    fn default() -> (p: Ping)
        ensures
            p@ is None,
    {
        Ping { msg: None }
    }
}

impl Ping {
    /// A `PING`, with an optional message to echo.
    pub fn new(msg: Option<Vec<u8>>) -> (p: Ping)
        ensures
            p@ == match msg {
                Some(m) => Some(m@),
                None => None::<Seq<u8>>,
            },
    {
        Ping { msg }
    }

    /// Decode the optional message; a fully consumed frame means a bare
    /// `PING`.
    pub fn parse_frames(parse: &mut Parse) -> (r: Result<Ping, ParseError>)
        ensures
            match r {
                Ok(p) => (old(parse)@.len() == 0 && p@ is None && final(parse)@ == old(parse)@) || (
                old(parse)@.len() > 0 && p@ is Some && bytes_of(old(parse)@[0]) == Some(p@->0)
                    && final(parse)@ == old(parse)@.drop_first()),
                Err(e) => old(parse)@.len() > 0 && bytes_of(old(parse)@[0]) is None && e is Other
                    && final(parse)@ == old(parse)@.drop_first(),
            },
    {
        match parse.next_bytes() {
            Ok(msg) => Ok(Ping::new(Some(msg))),
            Err(ParseError::EndOfStream) => Ok(Ping::default()),
            Err(e) => Err(e),
        }
    }

    /// The reply: `PONG`, or the message echoed as a bulk frame.
    pub fn apply(self) -> (resp: Frame)
        ensures
            resp@ == match self@ {
                None => FrameView::Simple("PONG"@),
                Some(m) => FrameView::Bulk(m),
            },
    {
        match self.msg {
            None => Frame::Simple(String::from_str("PONG")),
            Some(m) => Frame::Bulk(m),
        }
    }

    /// Encode as the array frame the client sends.
    pub fn into_frame(self) -> (f: Frame)
        ensures
            f@ == FrameView::Array(
                match self@ {
                    None => seq![FrameView::Bulk(vstd::utf8::encode_utf8("ping"@))],
                    Some(m) => seq![
                        FrameView::Bulk(vstd::utf8::encode_utf8("ping"@)),
                        FrameView::Bulk(m),
                    ],
                },
            ),
    {
        let mut frame = Frame::array();
        frame.push_bulk(("ping").as_bytes_vec());
        match self.msg {
            Some(m) => {
                frame.push_bulk(m);
            },
            None => {},
        }
        proof {
            assert(frame@->Array_0 =~= frame@->Array_0);
            match self@ {
                None => {
                    assert(Seq::<FrameView>::empty().push(
                        FrameView::Bulk(vstd::utf8::encode_utf8("ping"@)),
                    ) =~= seq![FrameView::Bulk(vstd::utf8::encode_utf8("ping"@))]);
                },
                Some(m) => {
                    assert(Seq::<FrameView>::empty().push(
                        FrameView::Bulk(vstd::utf8::encode_utf8("ping"@)),
                    ).push(FrameView::Bulk(m)) =~= seq![
                        FrameView::Bulk(vstd::utf8::encode_utf8("ping"@)),
                        FrameView::Bulk(m),
                    ]);
                },
            }
        }
        frame
    }
}

} // verus!

//! Consuming an array frame as a typed token stream. Each command decoder
//! draws its fields from a `Parse` cursor; `EndOfStream` marks an optional
//! trailing token, every other mismatch is fatal to the connection.

use vstd::prelude::*;
use vstd::utf8::{decode_utf8, encode_utf8, valid_utf8};

use crate::decimal::atoi_u64;
use crate::frame::{string_from_utf8, views_of_seq, Frame, FrameView};

verus! {

broadcast use vstd::std_specs::vec::group_vec_axioms, vstd::seq::group_seq_axioms;

/// Cursor over the elements of an array frame, front to back.
pub struct Parse {
    parts: Vec<Frame>,
}

/// Error while extracting a value from a frame.
#[derive(Debug)]
pub enum ParseError {
    /// The frame has been fully consumed; commands with optional trailing
    /// tokens treat this as the end of their arguments.
    EndOfStream,
    /// Any other mismatch; terminates the connection.
    Other(String),
}

impl ParseError {
    pub fn other(msg: &str) -> (e: ParseError)
        ensures
            e is Other,
            e->Other_0@ == msg@,
    {
        ParseError::Other(String::from_str(msg))
    }

    /// The message this error reports.
    pub fn message(&self) -> (s: String)
        ensures
            self is Other ==> s@ == self->Other_0@,
    {
        match self {
            ParseError::EndOfStream => String::from_str(
                "protocol error: unexpected end of stream",
            ),
            ParseError::Other(m) => m.clone(),
        }
    }
}

/// The string a token stands for: a simple frame by its text, a bulk frame
/// by decoding its bytes when they are UTF-8.
pub open spec fn str_of(fv: FrameView) -> Option<Seq<char>> {
    match fv {
        FrameView::Simple(s) => Some(s),
        FrameView::Bulk(d) => if valid_utf8(d) {
            Some(decode_utf8(d))
        } else {
            None
        },
        _ => None,
    }
}

/// Big-endian bytes of a 64-bit number.
pub open spec fn be_bytes(n: u64) -> Seq<u8> {
    seq![
        (n >> 56) as u8,
        (n >> 48) as u8,
        (n >> 40) as u8,
        (n >> 32) as u8,
        (n >> 24) as u8,
        (n >> 16) as u8,
        (n >> 8) as u8,
        n as u8,
    ]
}

/// The raw bytes a token stands for: a simple frame by its UTF-8 bytes, a
/// bulk frame directly, an integer by its big-endian encoding.
pub open spec fn bytes_of(fv: FrameView) -> Option<Seq<u8>> {
    match fv {
        FrameView::Simple(s) => Some(encode_utf8(s)),
        FrameView::Bulk(d) => Some(d),
        FrameView::Integer(n) => Some(be_bytes(n)),
        _ => None,
    }
}

/// The number a token stands for: an integer frame directly, text read as a
/// base-10 number.
pub open spec fn int_of(fv: FrameView) -> Option<u64> {
    match fv {
        FrameView::Integer(n) => Some(n),
        FrameView::Simple(s) => atoi_u64(encode_utf8(s)),
        FrameView::Bulk(d) => atoi_u64(d),
        _ => None,
    }
}

impl View for Parse {
    type V = Seq<FrameView>;

    closed spec fn view(&self) -> Seq<FrameView> {
        views_of_seq(self.parts@)
    }
}

impl Parse {
    /// Wrap the elements of an array frame; any other frame is refused.
    pub fn new(frame: Frame) -> (r: Result<Parse, ParseError>)
        ensures
            match r {
                Ok(p) => frame@ is Array && p@ == frame@->Array_0,
                Err(e) => !(frame@ is Array) && e is Other,
            },
    {
        match frame {
            Frame::Array(arr) => {
                let p = Parse { parts: arr };
                proof {
                    assert(p@ =~= frame@->Array_0);
                }
                Ok(p)
            },
            _ => Err(ParseError::other("protocol error; expected array")),
        }
    }

    /// The next entry, as a whole frame.
    pub fn next(&mut self) -> (r: Result<Frame, ParseError>)
        ensures
            match r {
                Ok(f) => old(self)@.len() > 0 && f@ == old(self)@[0] && final(self)@ == old(self)@.drop_first(),
                Err(e) => old(self)@.len() == 0 && e is EndOfStream && final(self)@ == old(self)@,
            },
    {
        if self.parts.len() == 0 {
            return Err(ParseError::EndOfStream);
        }
        let ghost prior = self.parts@;
        let f = self.parts.remove(0);
        proof {
            assert(views_of_seq(prior.remove(0)) =~= views_of_seq(prior).drop_first());
        }
        Ok(f)
    }

    /// The next entry as a string.
    pub fn next_string(&mut self) -> (r: Result<String, ParseError>)
        ensures
            match r {
                Ok(s) => old(self)@.len() > 0 && str_of(old(self)@[0]) == Some(s@) && final(self)@
                    == old(self)@.drop_first(),
                Err(ParseError::EndOfStream) => old(self)@.len() == 0 && final(self)@ == old(self)@,
                Err(ParseError::Other(_)) => old(self)@.len() > 0 && str_of(old(self)@[0]) is None
                    && final(self)@ == old(self)@.drop_first(),
            },
    {
        match self.next()? {
            Frame::Simple(s) => Ok(s),
            Frame::Bulk(data) => match string_from_utf8(data) {
                Some(s) => Ok(s),
                None => Err(ParseError::other("protocol error: invalid string")),
            },
            _ => Err(ParseError::other(
                "protocol error: expected simple frame or bulk frame",
            )),
        }
    }

    /// The next entry as raw bytes.
    pub fn next_bytes(&mut self) -> (r: Result<Vec<u8>, ParseError>)
        ensures
            match r {
                Ok(b) => old(self)@.len() > 0 && bytes_of(old(self)@[0]) == Some(b@) && final(self)@ == old(self)@.drop_first(),
                Err(ParseError::EndOfStream) => old(self)@.len() == 0 && final(self)@ == old(self)@,
                Err(ParseError::Other(_)) => old(self)@.len() > 0 && bytes_of(
                    old(self)@[0],
                ) is None && final(self)@ == old(self)@.drop_first(),
            },
    {
        match self.next()? {
            Frame::Simple(s) => Ok(s.as_str().as_bytes_vec()),
            Frame::Bulk(data) => Ok(data),
            Frame::Integer(num) => Ok(u64_to_be_bytes(num)),
            _ => Err(ParseError::other(
                "protocol error: expected simple frame or bulk frame",
            )),
        }
    }

    /// The next entry as an unsigned number.
    pub fn next_int(&mut self) -> (r: Result<u64, ParseError>)
        ensures
            match r {
                Ok(v) => old(self)@.len() > 0 && int_of(old(self)@[0]) == Some(v) && final(self)@
                    == old(self)@.drop_first(),
                Err(ParseError::EndOfStream) => old(self)@.len() == 0 && final(self)@ == old(self)@,
                Err(ParseError::Other(_)) => old(self)@.len() > 0 && int_of(old(self)@[0]) is None
                    && final(self)@ == old(self)@.drop_first(),
            },
    {
        match self.next()? {
            Frame::Integer(num) => Ok(num),
            Frame::Simple(s) => match crate::decimal::parse_u64(s.as_str().as_bytes()) {
                Some(v) => Ok(v),
                None => Err(ParseError::other("protocol error: invalid number")),
            },
            Frame::Bulk(data) => match crate::decimal::parse_u64(data.as_slice()) {
                Some(v) => Ok(v),
                None => Err(ParseError::other("protocol error: invalid number")),
            },
            _ => Err(ParseError::other("protocol error; expected int frame")),
        }
    }

    /// Succeeds exactly when every entry has been consumed.
    pub fn finish(&mut self) -> (r: Result<(), ParseError>)
        ensures
            final(self)@ == old(self)@,
            match r {
                Ok(()) => old(self)@.len() == 0,
                Err(e) => old(self)@.len() > 0 && e is Other,
            },
    {
        if self.parts.len() == 0 {
            Ok(())
        } else {
            Err(ParseError::other("protocol error; expected end of frame, but there was more"))
        }
    }
}

/// The big-endian bytes of `num`, most significant first.
pub fn u64_to_be_bytes(num: u64) -> (out: Vec<u8>)
    ensures
        out@ == be_bytes(num),
{
    let mut out: Vec<u8> = Vec::new();
    out.push((num >> 56) as u8);
    out.push((num >> 48) as u8);
    out.push((num >> 40) as u8);
    out.push((num >> 32) as u8);
    out.push((num >> 24) as u8);
    out.push((num >> 16) as u8);
    out.push((num >> 8) as u8);
    out.push(num as u8);
    proof {
        assert(out@ =~= be_bytes(num));
    }
    out
}

} // verus!

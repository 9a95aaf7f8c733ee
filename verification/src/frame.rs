//! A type representing one RESP protocol frame, together with the wire
//! grammar: a specification-level parser and completeness check over byte
//! sequences, and executable functions proved to match them.
//!
//! Each frame starts with a one-byte tag: `+` simple string, `-` error,
//! `:` unsigned integer, `$` bulk bytes (or `$-1` for null), `*` array.
//! Lines end with CRLF.

use vstd::prelude::*;
use vstd::utf8::{decode_utf8, encode_utf8, valid_utf8};

use crate::decimal::{atoi_u64, u64_dec, MINUS};

verus! {

broadcast use vstd::std_specs::vec::group_vec_axioms, vstd::seq::group_seq_axioms;

/// ASCII carriage return.
pub const CR: u8 = 13;

/// ASCII line feed.
pub const LF: u8 = 10;

/// Tag byte of a simple string frame (`+`).
pub const TAG_SIMPLE: u8 = 43;

/// Tag byte of an error frame (`-`).
pub const TAG_ERROR: u8 = 45;

/// Tag byte of an integer frame (`:`).
pub const TAG_INTEGER: u8 = 58;

/// Tag byte of a bulk frame (`$`).
pub const TAG_BULK: u8 = 36;

/// Tag byte of an array frame (`*`).
pub const TAG_ARRAY: u8 = 42;

/// ASCII `1`, the digit of the `$-1` null sentinel.
pub const DIGIT_ONE: u8 = 49;

/// A frame in the Redis protocol.
#[derive(Debug, PartialEq)]
pub enum Frame {
    Simple(String),
    Error(String),
    Integer(u64),
    Bulk(Vec<u8>),
    Null,
    Array(Vec<Frame>),
}

/// Error from reading a frame out of a byte buffer.
#[derive(Debug)]
pub enum Error {
    /// Not enough data is buffered yet to hold a complete frame.
    Incomplete,
    /// The buffered bytes do not encode a frame.
    Other(String),
}

/// The mathematical value of a [`Frame`]: strings as character sequences,
/// payloads as byte sequences.
pub enum FrameView {
    Simple(Seq<char>),
    Error(Seq<char>),
    Integer(u64),
    Bulk(Seq<u8>),
    Null,
    Array(Seq<FrameView>),
}

impl Frame {
    pub open spec fn spec_view(self) -> FrameView
        decreases self,
    {
        match self {
            Frame::Simple(s) => FrameView::Simple(s@),
            Frame::Error(s) => FrameView::Error(s@),
            Frame::Integer(n) => FrameView::Integer(n),
            Frame::Bulk(b) => FrameView::Bulk(b@),
            Frame::Null => FrameView::Null,
            Frame::Array(v) => FrameView::Array(Frame::views_of(v)),
        }
    }

    /// Views of a run of frames, elementwise.
    pub open spec fn views_of(v: Vec<Frame>) -> Seq<FrameView>
        decreases v,
    {
        Seq::new(
            v@.len(),
            |i: int|
                if 0 <= i < v@.len() {
                    v@[i].spec_view()
                } else {
                    FrameView::Null
                },
        )
    }
}

impl View for Frame {
    type V = FrameView;

    open spec fn view(&self) -> FrameView {
        self.spec_view()
    }
}

/// Outcome of reading one frame from the front of a byte sequence.
pub enum FrameStep {
    /// A complete frame, and how many bytes it occupies.
    Frame(FrameView, int),
    /// The bytes are a proper prefix of some frame.
    Incomplete,
    /// The bytes do not encode a frame.
    Malformed,
}

/// Outcome of reading a run of consecutive frames.
pub enum ElemsStep {
    Elems(Seq<FrameView>, int),
    Incomplete,
    Malformed,
}

/// Outcome of the allocation-free completeness check.
pub enum CheckStep {
    /// A complete frame of this many bytes is present.
    Len(int),
    Incomplete,
    Malformed,
}

/// Position of the first CRLF pair at or after `i`, if the pair fits before
/// the end of `b`.
pub open spec fn find_crlf(b: Seq<u8>, i: int) -> Option<int>
    decreases b.len() - i,
{
    if i < 0 || i + 2 > b.len() {
        None
    } else if b[i] == CR && b[i + 1] == LF {
        Some(i)
    } else {
        find_crlf(b, i + 1)
    }
}

pub proof fn lemma_find_crlf_bounds(b: Seq<u8>, i: int)
    ensures
        match find_crlf(b, i) {
            Some(j) => i <= j && j + 2 <= b.len() && b[j] == CR && b[j + 1] == LF,
            None => true,
        },
    decreases b.len() - i,
{
    if i < 0 || i + 2 > b.len() {
    } else if b[i] == CR && b[i + 1] == LF {
    } else {
        lemma_find_crlf_bounds(b, i + 1);
    }
}

/// If the first CRLF pair of `b` stands at `k`, the search finds it.
pub proof fn lemma_find_crlf_at(b: Seq<u8>, i: int, k: int)
    requires
        0 <= i <= k,
        k + 2 <= b.len(),
        b[k] == CR && b[k + 1] == LF,
        forall|j: int| i <= j < k ==> !(#[trigger] b[j] == CR && b[j + 1] == LF),
    ensures
        find_crlf(b, i) == Some(k),
    decreases k - i,
{
    if i < k {
        lemma_find_crlf_at(b, i + 1, k);
    }
}

/// Reading one frame from the front of `b`, exactly as the connection does:
/// the tag byte decides the form; text lines run to the first CRLF; a bulk
/// length prefixes its payload; an array header is followed by that many
/// frames. `Incomplete` when the bytes are a prefix of some frame and more
/// input could complete it; `Malformed` when no continuation can.
pub open spec fn spec_parse(b: Seq<u8>) -> FrameStep
    decreases b.len(), 0nat,
    via spec_parse_decreases
{
    if b.len() < 1 {
        FrameStep::Incomplete
    } else {
        let tag = b[0];
        let rest = b.drop_first();
        if tag == TAG_SIMPLE {
            match find_crlf(rest, 0) {
                None => FrameStep::Incomplete,
                Some(i) => {
                    let line = rest.take(i);
                    if valid_utf8(line) {
                        FrameStep::Frame(FrameView::Simple(decode_utf8(line)), 3 + i)
                    } else {
                        FrameStep::Malformed
                    }
                },
            }
        } else if tag == TAG_ERROR {
            match find_crlf(rest, 0) {
                None => FrameStep::Incomplete,
                Some(i) => {
                    let line = rest.take(i);
                    if valid_utf8(line) {
                        FrameStep::Frame(FrameView::Error(decode_utf8(line)), 3 + i)
                    } else {
                        FrameStep::Malformed
                    }
                },
            }
        } else if tag == TAG_INTEGER {
            match find_crlf(rest, 0) {
                None => FrameStep::Incomplete,
                Some(i) => match atoi_u64(rest.take(i)) {
                    None => FrameStep::Malformed,
                    Some(v) => FrameStep::Frame(FrameView::Integer(v), 3 + i),
                },
            }
        } else if tag == TAG_BULK {
            if rest.len() < 1 {
                FrameStep::Incomplete
            } else if rest[0] == MINUS {
                match find_crlf(rest, 0) {
                    None => FrameStep::Incomplete,
                    Some(i) => {
                        if rest.take(i) == seq![MINUS, DIGIT_ONE] {
                            FrameStep::Frame(FrameView::Null, 3 + i)
                        } else {
                            FrameStep::Malformed
                        }
                    },
                }
            } else {
                match find_crlf(rest, 0) {
                    None => FrameStep::Incomplete,
                    Some(i) => match atoi_u64(rest.take(i)) {
                        None => FrameStep::Malformed,
                        Some(len) => {
                            if len > usize::MAX - 2 {
                                FrameStep::Malformed
                            } else {
                                let after = rest.skip(i + 2);
                                if after.len() < len + 2 {
                                    FrameStep::Incomplete
                                } else {
                                    FrameStep::Frame(
                                        FrameView::Bulk(after.take(len as int)),
                                        3 + i + len + 2,
                                    )
                                }
                            }
                        },
                    },
                }
            }
        } else if tag == TAG_ARRAY {
            match find_crlf(rest, 0) {
                None => FrameStep::Incomplete,
                Some(i) => match atoi_u64(rest.take(i)) {
                    None => FrameStep::Malformed,
                    Some(cnt) => {
                        if cnt > usize::MAX {
                            FrameStep::Malformed
                        } else {
                            match spec_parse_elems(rest.skip(i + 2), cnt as nat) {
                                ElemsStep::Elems(fvs, m) => FrameStep::Frame(
                                    FrameView::Array(fvs),
                                    3 + i + m,
                                ),
                                ElemsStep::Incomplete => FrameStep::Incomplete,
                                ElemsStep::Malformed => FrameStep::Malformed,
                            }
                        }
                    },
                },
            }
        } else {
            FrameStep::Malformed
        }
    }
}

/// Reading `count` consecutive frames from the front of `b`.
pub open spec fn spec_parse_elems(b: Seq<u8>, count: nat) -> ElemsStep
    decreases b.len(), count,
    via spec_parse_elems_decreases
{
    if count == 0 {
        ElemsStep::Elems(seq![], 0)
    } else {
        match spec_parse(b) {
            FrameStep::Frame(fv, n) => {
                if n < 1 || n > b.len() {
                    ElemsStep::Malformed
                } else {
                    match spec_parse_elems(b.skip(n), (count - 1) as nat) {
                        ElemsStep::Elems(fvs, m) => ElemsStep::Elems(seq![fv] + fvs, n + m),
                        ElemsStep::Incomplete => ElemsStep::Incomplete,
                        ElemsStep::Malformed => ElemsStep::Malformed,
                    }
                }
            },
            FrameStep::Incomplete => ElemsStep::Incomplete,
            FrameStep::Malformed => ElemsStep::Malformed,
        }
    }
}

#[via_fn]
proof fn spec_parse_decreases(b: Seq<u8>) {
    if b.len() >= 1 {
        let rest = b.drop_first();
        lemma_find_crlf_bounds(rest, 0);
    }
}

#[via_fn]
proof fn spec_parse_elems_decreases(b: Seq<u8>, count: nat) {
}

/// The completeness check over the same grammar: how far one complete frame
/// reaches, without interpreting payloads. It validates less than
/// [`spec_parse`]: text lines are not checked for UTF-8, and a `$-` header is
/// skipped four bytes blind.
pub open spec fn spec_check(b: Seq<u8>) -> CheckStep
    decreases b.len(), 0nat,
    via spec_check_decreases
{
    if b.len() < 1 {
        CheckStep::Incomplete
    } else {
        let tag = b[0];
        let rest = b.drop_first();
        if tag == TAG_SIMPLE || tag == TAG_ERROR {
            match find_crlf(rest, 0) {
                None => CheckStep::Incomplete,
                Some(i) => CheckStep::Len(3 + i),
            }
        } else if tag == TAG_INTEGER {
            match find_crlf(rest, 0) {
                None => CheckStep::Incomplete,
                Some(i) => match atoi_u64(rest.take(i)) {
                    None => CheckStep::Malformed,
                    Some(v) => CheckStep::Len(3 + i),
                },
            }
        } else if tag == TAG_BULK {
            if rest.len() < 1 {
                CheckStep::Incomplete
            } else if rest[0] == MINUS {
                if rest.len() < 4 {
                    CheckStep::Incomplete
                } else {
                    CheckStep::Len(5)
                }
            } else {
                match find_crlf(rest, 0) {
                    None => CheckStep::Incomplete,
                    Some(i) => match atoi_u64(rest.take(i)) {
                        None => CheckStep::Malformed,
                        Some(len) => {
                            if len > usize::MAX - 2 {
                                CheckStep::Malformed
                            } else if rest.len() - (i + 2) < len + 2 {
                                CheckStep::Incomplete
                            } else {
                                CheckStep::Len(3 + i + len + 2)
                            }
                        },
                    },
                }
            }
        } else if tag == TAG_ARRAY {
            match find_crlf(rest, 0) {
                None => CheckStep::Incomplete,
                Some(i) => match atoi_u64(rest.take(i)) {
                    None => CheckStep::Malformed,
                    Some(cnt) => match spec_check_elems(rest.skip(i + 2), cnt as nat) {
                        CheckStep::Len(m) => CheckStep::Len(3 + i + m),
                        CheckStep::Incomplete => CheckStep::Incomplete,
                        CheckStep::Malformed => CheckStep::Malformed,
                    },
                },
            }
        } else {
            CheckStep::Malformed
        }
    }
}

/// Checking `count` consecutive frames.
pub open spec fn spec_check_elems(b: Seq<u8>, count: nat) -> CheckStep
    decreases b.len(), count,
    via spec_check_elems_decreases
{
    if count == 0 {
        CheckStep::Len(0)
    } else {
        match spec_check(b) {
            CheckStep::Len(n) => {
                if n < 1 || n > b.len() {
                    CheckStep::Malformed
                } else {
                    match spec_check_elems(b.skip(n), (count - 1) as nat) {
                        CheckStep::Len(m) => CheckStep::Len(n + m),
                        CheckStep::Incomplete => CheckStep::Incomplete,
                        CheckStep::Malformed => CheckStep::Malformed,
                    }
                }
            },
            CheckStep::Incomplete => CheckStep::Incomplete,
            CheckStep::Malformed => CheckStep::Malformed,
        }
    }
}

#[via_fn]
proof fn spec_check_decreases(b: Seq<u8>) {
    if b.len() >= 1 {
        let rest = b.drop_first();
        lemma_find_crlf_bounds(rest, 0);
    }
}

#[via_fn]
proof fn spec_check_elems_decreases(b: Seq<u8>, count: nat) {
}

/// A successfully parsed frame occupies between 1 byte and the whole buffer.
pub proof fn lemma_parse_len(b: Seq<u8>)
    ensures
        match spec_parse(b) {
            FrameStep::Frame(fv, n) => 1 <= n <= b.len(),
            _ => true,
        },
    decreases b.len(), 0nat,
{
    if b.len() >= 1 {
        let rest = b.drop_first();
        lemma_find_crlf_bounds(rest, 0);
        if b[0] == TAG_ARRAY {
            match find_crlf(rest, 0) {
                Some(i) => match atoi_u64(rest.take(i)) {
                    Some(cnt) => {
                        if cnt <= usize::MAX {
                            lemma_parse_elems_len(rest.skip(i + 2), cnt as nat);
                        }
                    },
                    None => {},
                },
                None => {},
            }
        }
    }
}

pub proof fn lemma_parse_elems_len(b: Seq<u8>, count: nat)
    ensures
        match spec_parse_elems(b, count) {
            ElemsStep::Elems(fvs, m) => 0 <= m <= b.len() && fvs.len() == count,
            _ => true,
        },
    decreases b.len(), count,
{
    if count != 0 {
        lemma_parse_len(b);
        match spec_parse(b) {
            FrameStep::Frame(fv, n) => {
                if 1 <= n <= b.len() {
                    lemma_parse_elems_len(b.skip(n), (count - 1) as nat);
                }
            },
            _ => {},
        }
    }
}

/// A checked frame length is between 1 byte and the whole buffer.
pub proof fn lemma_check_len(b: Seq<u8>)
    ensures
        match spec_check(b) {
            CheckStep::Len(n) => 1 <= n <= b.len(),
            _ => true,
        },
    decreases b.len(), 0nat,
{
    if b.len() >= 1 {
        let rest = b.drop_first();
        lemma_find_crlf_bounds(rest, 0);
        if b[0] == TAG_ARRAY {
            match find_crlf(rest, 0) {
                Some(i) => match atoi_u64(rest.take(i)) {
                    Some(cnt) => {
                        lemma_check_elems_len(rest.skip(i + 2), cnt as nat);
                    },
                    None => {},
                },
                None => {},
            }
        }
    }
}

pub proof fn lemma_check_elems_len(b: Seq<u8>, count: nat)
    ensures
        match spec_check_elems(b, count) {
            CheckStep::Len(m) => 0 <= m <= b.len(),
            _ => true,
        },
    decreases b.len(), count,
{
    if count != 0 {
        lemma_check_len(b);
        match spec_check(b) {
            CheckStep::Len(n) => {
                if 1 <= n <= b.len() {
                    lemma_check_elems_len(b.skip(n), (count - 1) as nat);
                }
            },
            _ => {},
        }
    }
}

/// Whatever parses as a frame also passes the completeness check, with the
/// same length. The connection relies on this: it advances its buffer by the
/// checked length and hands the parser the same bytes.
pub proof fn lemma_parse_check_agree(b: Seq<u8>)
    ensures
        match spec_parse(b) {
            FrameStep::Frame(fv, n) => spec_check(b) == CheckStep::Len(n),
            _ => true,
        },
    decreases b.len(), 0nat,
{
    if b.len() >= 1 {
        let rest = b.drop_first();
        lemma_find_crlf_bounds(rest, 0);
        if b[0] == TAG_BULK {
            if rest.len() >= 1 && rest[0] == MINUS {
                match find_crlf(rest, 0) {
                    Some(i) => {
                        if rest.take(i) == seq![MINUS, DIGIT_ONE] {
                            assert(rest.take(i).len() == 2);
                            assert(i == 2);
                            assert(rest.len() >= 4);
                        }
                    },
                    None => {},
                }
            }
        } else if b[0] == TAG_ARRAY {
            match find_crlf(rest, 0) {
                Some(i) => match atoi_u64(rest.take(i)) {
                    Some(cnt) => {
                        if cnt <= usize::MAX {
                            lemma_parse_check_elems_agree(rest.skip(i + 2), cnt as nat);
                        }
                    },
                    None => {},
                },
                None => {},
            }
        }
    }
}

pub proof fn lemma_parse_check_elems_agree(b: Seq<u8>, count: nat)
    ensures
        match spec_parse_elems(b, count) {
            ElemsStep::Elems(fvs, m) => spec_check_elems(b, count) == CheckStep::Len(m),
            _ => true,
        },
    decreases b.len(), count,
{
    if count != 0 {
        lemma_parse_check_agree(b);
        lemma_parse_len(b);
        match spec_parse(b) {
            FrameStep::Frame(fv, n) => {
                if 1 <= n <= b.len() {
                    lemma_parse_check_elems_agree(b.skip(n), (count - 1) as nat);
                }
            },
            _ => {},
        }
    }
}

} // verus!

verus! {

impl Error {
    /// An `Other` protocol error with the given message.
    pub fn other(msg: &str) -> (e: Error)
        ensures
            e is Other,
            e->Other_0@ == msg@,
    {
        Error::Other(String::from_str(msg))
    }

    /// The message this error reports.
    pub fn message(&self) -> (s: String)
        ensures
            self is Other ==> s@ == self->Other_0@,
    {
        match self {
            Error::Incomplete => String::from_str("stream ended early"),
            Error::Other(m) => m.clone(),
        }
    }
}

/// Relies on `String::from_utf8`: returns the decoded string exactly when the
/// bytes are valid UTF-8.
#[verifier::external_body]
pub fn string_from_utf8(bytes: Vec<u8>) -> (r: Option<String>)
    ensures
        match r {
            Some(s) => valid_utf8(bytes@) && s@ == decode_utf8(bytes@),
            None => !valid_utf8(bytes@),
        },
{
    String::from_utf8(bytes).ok()
}

/// Copy of `src[a..b]` as a fresh vector.
pub fn copy_range(src: &[u8], a: usize, b: usize) -> (out: Vec<u8>)
    requires
        a <= b <= src@.len(),
    ensures
        out@ == src@.subrange(a as int, b as int),
{
    let mut out: Vec<u8> = Vec::new();
    let mut i: usize = a;
    while i < b
        invariant
            a <= i <= b <= src@.len(),
            out@ == src@.subrange(a as int, i as int),
        decreases b - i,
    {
        out.push(src[i]);
        proof {
            assert(src@.subrange(a as int, i + 1 as int) =~= src@.subrange(a as int, i as int).push(
                src@[i as int],
            ));
        }
        i = i + 1;
    }
    out
}

/// First byte at or after `pos`, without advancing.
pub fn peek_u8(src: &[u8], pos: usize) -> (r: Result<u8, Error>)
    ensures
        match r {
            Ok(b) => pos < src@.len() && b == src@[pos as int],
            Err(e) => pos >= src@.len() && e is Incomplete,
        },
{
    if pos >= src.len() {
        return Err(Error::Incomplete);
    }
    Ok(src[pos])
}

/// First byte at or after `pos`, advancing past it.
pub fn get_u8(src: &[u8], pos: usize) -> (r: Result<(u8, usize), Error>)
    ensures
        match r {
            Ok((b, npos)) => pos < src@.len() && b == src@[pos as int] && npos == pos + 1,
            Err(e) => pos >= src@.len() && e is Incomplete,
        },
{
    if pos >= src.len() {
        return Err(Error::Incomplete);
    }
    Ok((src[pos], pos + 1))
}

/// Advance the position by `n` bytes, if that many remain.
pub fn skip(src: &[u8], pos: usize, n: usize) -> (r: Result<usize, Error>)
    ensures
        match r {
            Ok(npos) => pos + n <= src@.len() && npos == pos + n,
            Err(e) => pos + n > src@.len() && e is Incomplete,
        },
{
    if pos > src.len() || n > src.len() - pos {
        return Err(Error::Incomplete);
    }
    Ok(pos + n)
}

/// Find the line that starts at `pos`: `Ok((end, npos))` where
/// `src[pos..end]` is the line and `npos` stands past its CRLF.
pub fn get_line(src: &[u8], pos: usize) -> (r: Result<(usize, usize), Error>)
    requires
        pos <= src@.len(),
    ensures
        ({
            let f = find_crlf(src@.skip(pos as int), 0);
            match r {
                Ok((end, npos)) => {
                    &&& pos <= end
                    &&& npos == end + 2
                    &&& npos <= src@.len()
                    &&& f == Some(end - pos)
                },
                Err(e) => f is None && e is Incomplete,
            }
        }),
{
    let ghost sfx = src@.skip(pos as int);
    let len: usize = src.len();
    let mut i: usize = pos;
    while i < len && i + 1 < len
        invariant
            pos <= i <= len,
            len == src@.len(),
            pos <= src@.len(),
            sfx == src@.skip(pos as int),
            find_crlf(sfx, 0) == find_crlf(sfx, i - pos),
        decreases len - i,
    {
        proof {
            assert(sfx[i - pos] == src@[i as int]);
            assert(sfx[i - pos + 1] == src@[i + 1]);
        }
        if src[i] == CR && src[i + 1] == LF {
            return Ok((i, i + 2));
        }
        i = i + 1;
    }
    proof {
        assert((i - pos) + 2 > sfx.len());
    }
    Err(Error::Incomplete)
}

/// Read the line at `pos` as an unsigned base-10 number, the way every
/// count and length on the wire is read.
pub fn get_decimal(src: &[u8], pos: usize) -> (r: Result<(u64, usize), Error>)
    requires
        pos <= src@.len(),
    ensures
        ({
            let f = find_crlf(src@.skip(pos as int), 0);
            match r {
                Ok((v, npos)) => match f {
                    Some(i) => pos + 2 <= npos && npos == pos + i + 2 && npos <= src@.len()
                        && atoi_u64(src@.skip(pos as int).take(i)) == Some(v),
                    None => false,
                },
                Err(Error::Incomplete) => f is None,
                Err(Error::Other(_)) => match f {
                    Some(i) => atoi_u64(src@.skip(pos as int).take(i)) is None,
                    None => false,
                },
            }
        }),
{
    let (end, npos) = get_line(src, pos)?;
    let line = copy_range(src, pos, end);
    proof {
        assert(src@.subrange(pos as int, end as int) =~= src@.skip(pos as int).take(end - pos));
    }
    match crate::decimal::parse_u64(line.as_slice()) {
        Some(v) => Ok((v, npos)),
        None => Err(Error::other("protocol error: invalid frame format")),
    }
}

} // verus!

verus! {

impl Frame {
    /// Checks that a complete frame begins at `pos`, without allocating
    /// frame nodes or copying payloads, and returns the position just past
    /// it. Matches [`spec_check`] on the bytes from `pos`.
    #[verifier::loop_isolation(false)]
    pub fn check(src: &[u8], pos: usize) -> (r: Result<usize, Error>)
        requires
            pos <= src@.len(),
        ensures
            ({
                let s = spec_check(src@.skip(pos as int));
                match r {
                    Ok(end) => pos < end <= src@.len() && s == CheckStep::Len(end - pos),
                    Err(Error::Incomplete) => s is Incomplete,
                    Err(Error::Other(_)) => s is Malformed,
                }
            }),
        decreases src@.len() - pos,
    {
        let ghost sfx = src@.skip(pos as int);
        let (tag, p) = match get_u8(src, pos) {
            Ok(t) => t,
            Err(_) => {
                return Err(Error::Incomplete);
            },
        };
        proof {
            assert(sfx[0] == src@[pos as int]);
            assert(sfx.drop_first() =~= src@.skip(p as int));
        }
        let ghost rest = src@.skip(p as int);
        if tag == TAG_SIMPLE || tag == TAG_ERROR {
            let (_end, npos) = get_line(src, p)?;
            Ok(npos)
        } else if tag == TAG_INTEGER {
            let (_v, npos) = get_decimal(src, p)?;
            Ok(npos)
        } else if tag == TAG_BULK {
            let b = peek_u8(src, p)?;
            if b == MINUS {
                let npos = skip(src, p, 4)?;
                Ok(npos)
            } else {
                let (len, npos) = get_decimal(src, p)?;
                if len > (usize::MAX - 2) as u64 {
                    return Err(Error::other("protocol error: invalid frame format"));
                }
                let n: usize = (len as usize) + 2;
                let npos2 = skip(src, npos, n)?;
                Ok(npos2)
            }
        } else if tag == TAG_ARRAY {
            let (cnt, npos) = get_decimal(src, p)?;
            proof {
                let i = npos - p - 2;
                assert(find_crlf(rest, 0) == Some(i));
                lemma_find_crlf_bounds(rest, 0);
                assert(rest.skip(i + 2) =~= src@.skip(npos as int));
            }
            let mut cur: usize = npos;
            let mut k: u64 = 0;
            while k < cnt
                invariant
                    k <= cnt,
                    npos <= cur <= src@.len(),
                    match spec_check_elems(src@.skip(cur as int), (cnt - k) as nat) {
                        CheckStep::Len(m) => spec_check_elems(
                            src@.skip(npos as int),
                            cnt as nat,
                        ) == CheckStep::Len(cur - npos + m),
                        CheckStep::Incomplete => spec_check_elems(
                            src@.skip(npos as int),
                            cnt as nat,
                        ) is Incomplete,
                        CheckStep::Malformed => spec_check_elems(
                            src@.skip(npos as int),
                            cnt as nat,
                        ) is Malformed,
                    },
                decreases cnt - k,
            {
                let prev = cur;
                match Frame::check(src, prev) {
                    Ok(c) => {
                        proof {
                            lemma_check_len(src@.skip(prev as int));
                            assert(src@.skip(prev as int).skip(c - prev) =~= src@.skip(c as int));
                        }
                        cur = c;
                    },
                    Err(e) => {
                        return Err(e);
                    },
                }
                k = k + 1;
            }
            Ok(cur)
        } else {
            Err(Error::other("protocol error: invalid frame type byte"))
        }
    }
}

} // verus!

verus! {

/// Views of a run of frames, elementwise, at the sequence level.
pub open spec fn views_of_seq(s: Seq<Frame>) -> Seq<FrameView> {
    Seq::new(
        s.len(),
        |i: int|
            if 0 <= i < s.len() {
                s[i].spec_view()
            } else {
                FrameView::Null
            },
    )
}

impl Frame {
    /// Parses the frame that begins at `pos`, returning it with the position
    /// just past it. Matches [`spec_parse`] on the bytes from `pos`.
    #[verifier::loop_isolation(false)]
    pub fn parse(src: &[u8], pos: usize) -> (r: Result<(Frame, usize), Error>)
        requires
            pos <= src@.len(),
        ensures
            ({
                let s = spec_parse(src@.skip(pos as int));
                match r {
                    Ok((f, end)) => pos < end <= src@.len() && s == FrameStep::Frame(
                        f@,
                        end - pos,
                    ),
                    Err(Error::Incomplete) => s is Incomplete,
                    Err(Error::Other(_)) => s is Malformed,
                }
            }),
        decreases src@.len() - pos,
    {
        let ghost sfx = src@.skip(pos as int);
        let (tag, p) = match get_u8(src, pos) {
            Ok(t) => t,
            Err(_) => {
                return Err(Error::Incomplete);
            },
        };
        proof {
            assert(sfx[0] == src@[pos as int]);
            assert(sfx.drop_first() =~= src@.skip(p as int));
        }
        let ghost rest = src@.skip(p as int);
        if tag == TAG_SIMPLE {
            let (end, npos) = get_line(src, p)?;
            let line = copy_range(src, p, end);
            proof {
                assert(line@ =~= rest.take(end - p));
            }
            match string_from_utf8(line) {
                Some(text) => Ok((Frame::Simple(text), npos)),
                None => Err(Error::other("protocol error; invalid frame format")),
            }
        } else if tag == TAG_ERROR {
            let (end, npos) = get_line(src, p)?;
            let line = copy_range(src, p, end);
            proof {
                assert(line@ =~= rest.take(end - p));
            }
            match string_from_utf8(line) {
                Some(text) => Ok((Frame::Error(text), npos)),
                None => Err(Error::other("protocol error; invalid frame format")),
            }
        } else if tag == TAG_INTEGER {
            let (v, npos) = get_decimal(src, p)?;
            Ok((Frame::Integer(v), npos))
        } else if tag == TAG_BULK {
            let b = peek_u8(src, p)?;
            if b == MINUS {
                let (end, npos) = get_line(src, p)?;
                let ghost i = end - p;
                proof {
                    lemma_find_crlf_bounds(rest, 0);
                    assert(rest.take(i).len() == i);
                }
                if end - p == 2 && src[p] == MINUS && src[p + 1] == DIGIT_ONE {
                    proof {
                        assert(rest[0] == src@[p as int]);
                        assert(rest[1] == src@[p + 1]);
                        assert(rest.take(i) =~= seq![MINUS, DIGIT_ONE]);
                    }
                    Ok((Frame::Null, npos))
                } else {
                    proof {
                        if rest.take(i) == seq![MINUS, DIGIT_ONE] {
                            assert(rest.take(i).len() == 2);
                            assert(rest.take(i)[0] == MINUS && rest.take(i)[1] == DIGIT_ONE);
                            assert(rest[0] == src@[p as int]);
                            assert(rest[1] == src@[p + 1]);
                            assert(false);
                        }
                    }
                    Err(Error::other("protocol error; invalid frame format"))
                }
            } else {
                let (len, npos) = get_decimal(src, p)?;
                if len > (usize::MAX - 2) as u64 {
                    return Err(Error::other("protocol error; invalid frame format"));
                }
                let len_usize: usize = len as usize;
                let n: usize = len_usize + 2;
                if n > src.len() - npos {
                    return Err(Error::Incomplete);
                }
                let data = copy_range(src, npos, npos + len_usize);
                proof {
                    let i = npos - p - 2;
                    assert(rest.skip(i + 2) =~= src@.skip(npos as int));
                    assert(src@.skip(npos as int).take(len as int) =~= src@.subrange(
                        npos as int,
                        npos + len_usize,
                    ));
                }
                Ok((Frame::Bulk(data), npos + n))
            }
        } else if tag == TAG_ARRAY {
            let (cnt, npos) = get_decimal(src, p)?;
            if cnt > usize::MAX as u64 {
                return Err(Error::other("protocol error; invalid frame format"));
            }
            let cntu: usize = cnt as usize;
            proof {
                let i = npos - p - 2;
                assert(find_crlf(rest, 0) == Some(i));
                lemma_find_crlf_bounds(rest, 0);
                assert(rest.skip(i + 2) =~= src@.skip(npos as int));
            }
            let mut out: Vec<Frame> = Vec::new();
            let mut cur: usize = npos;
            let mut k: usize = 0;
            proof {
                assert(views_of_seq(out@) + Seq::<FrameView>::empty() =~= views_of_seq(out@));
            }
            while k < cntu
                invariant
                    k <= cntu,
                    npos <= cur <= src@.len(),
                    out@.len() == k,
                    match spec_parse_elems(src@.skip(cur as int), (cntu - k) as nat) {
                        ElemsStep::Elems(fvs, m) => spec_parse_elems(
                            src@.skip(npos as int),
                            cntu as nat,
                        ) == ElemsStep::Elems(views_of_seq(out@) + fvs, cur - npos + m),
                        ElemsStep::Incomplete => spec_parse_elems(
                            src@.skip(npos as int),
                            cntu as nat,
                        ) is Incomplete,
                        ElemsStep::Malformed => spec_parse_elems(
                            src@.skip(npos as int),
                            cntu as nat,
                        ) is Malformed,
                    },
                decreases cntu - k,
            {
                let prev = cur;
                match Frame::parse(src, prev) {
                    Ok((f, c)) => {
                        proof {
                            assert(src@.skip(prev as int).skip(c - prev) =~= src@.skip(c as int));
                        }
                        let ghost old_out = out@;
                        let ghost fv = f@;
                        out.push(f);
                        proof {
                            assert(views_of_seq(out@) =~= views_of_seq(old_out).push(fv));
                            match spec_parse_elems(src@.skip(c as int), (cntu - k - 1) as nat) {
                                ElemsStep::Elems(fvs2, m2) => {
                                    assert(views_of_seq(old_out) + (seq![fv] + fvs2)
                                        =~= views_of_seq(out@) + fvs2);
                                },
                                _ => {},
                            }
                        }
                        cur = c;
                    },
                    Err(e) => {
                        return Err(e);
                    },
                }
                k = k + 1;
            }
            proof {
                assert(views_of_seq(out@) + Seq::<FrameView>::empty() =~= views_of_seq(out@));
                assert(Frame::views_of(out) =~= views_of_seq(out@));
            }
            Ok((Frame::Array(out), cur))
        } else {
            Err(Error::other("protocol error: invalid frame type byte"))
        }
    }
}

} // verus!

verus! {

/// No CRLF pair occurs inside `b`; text with this property survives a
/// round trip through its line form.
pub open spec fn no_crlf(b: Seq<u8>) -> bool {
    forall|i: int| 0 <= i < b.len() - 1 ==> !(#[trigger] b[i] == CR && b[i + 1] == LF)
}

/// The bytes the codec emits for a frame value.
pub open spec fn spec_encode(fv: FrameView) -> Seq<u8>
    decreases fv,
{
    match fv {
        FrameView::Simple(s) => seq![TAG_SIMPLE] + encode_utf8(s) + seq![CR, LF],
        FrameView::Error(s) => seq![TAG_ERROR] + encode_utf8(s) + seq![CR, LF],
        FrameView::Integer(n) => seq![TAG_INTEGER] + u64_dec(n) + seq![CR, LF],
        FrameView::Bulk(p) => seq![TAG_BULK] + u64_dec(p.len() as u64) + seq![CR, LF] + p + seq![
            CR,
            LF,
        ],
        FrameView::Null => seq![TAG_BULK, MINUS, DIGIT_ONE, CR, LF],
        FrameView::Array(elems) => seq![TAG_ARRAY] + u64_dec(elems.len() as u64) + seq![CR, LF]
            + spec_encode_elems(elems),
    }
}

/// The bytes the codec emits for a run of frames, in order.
pub open spec fn spec_encode_elems(elems: Seq<FrameView>) -> Seq<u8>
    decreases elems,
{
    if elems.len() == 0 {
        Seq::empty()
    } else {
        spec_encode(elems.first()) + spec_encode_elems(elems.drop_first())
    }
}

/// A frame whose encoding parses back: its text holds no CRLF pair, its
/// payloads and element counts fit a machine word, elementwise through
/// arrays.
pub open spec fn encodable(fv: FrameView) -> bool
    decreases fv,
{
    match fv {
        FrameView::Simple(s) => no_crlf(encode_utf8(s)),
        FrameView::Error(s) => no_crlf(encode_utf8(s)),
        FrameView::Integer(n) => true,
        FrameView::Bulk(p) => p.len() + 2 <= usize::MAX,
        FrameView::Null => true,
        FrameView::Array(elems) => elems.len() <= usize::MAX && encodable_elems(elems),
    }
}

pub open spec fn encodable_elems(elems: Seq<FrameView>) -> bool
    decreases elems,
{
    if elems.len() == 0 {
        true
    } else {
        encodable(elems.first()) && encodable_elems(elems.drop_first())
    }
}

/// A line of digits followed by CRLF and anything: the CRLF is found right
/// at the end of the digits.
proof fn lemma_line_crlf(line: Seq<u8>, tail: Seq<u8>)
    requires
        no_crlf(line),
        forall|i: int| 0 <= i < line.len() ==> #[trigger] line[i] != CR,
    ensures
        find_crlf(line + seq![CR, LF] + tail, 0) == Some(line.len() as int),
        (line + seq![CR, LF] + tail).take(line.len() as int) == line,
{
    let b = line + seq![CR, LF] + tail;
    let k = line.len() as int;
    assert(b[k] == CR && b[k + 1] == LF);
    assert forall|j: int| 0 <= j < k implies !(#[trigger] b[j] == CR && b[j + 1] == LF) by {
        assert(b[j] == line[j]);
        assert(line[j] != CR);
    }
    lemma_find_crlf_at(b, 0, k);
    assert(b.take(k) =~= line);
}

/// Same, for text that may hold CR bytes but never a CRLF pair.
proof fn lemma_text_crlf(line: Seq<u8>, tail: Seq<u8>)
    requires
        no_crlf(line),
    ensures
        find_crlf(line + seq![CR, LF] + tail, 0) == Some(line.len() as int),
        (line + seq![CR, LF] + tail).take(line.len() as int) == line,
{
    let b = line + seq![CR, LF] + tail;
    let k = line.len() as int;
    assert(b[k] == CR && b[k + 1] == LF);
    assert forall|j: int| 0 <= j < k implies !(#[trigger] b[j] == CR && b[j + 1] == LF) by {
        assert(b[j] == line[j]);
        if j < k - 1 {
            assert(b[j + 1] == line[j + 1]);
        } else {
            assert(b[j + 1] == CR);
        }
    }
    lemma_find_crlf_at(b, 0, k);
    assert(b.take(k) =~= line);
}

/// Digit strings hold no CR and no CRLF pair.
proof fn lemma_digits_no_crlf(s: Seq<u8>)
    requires
        crate::decimal::all_digits(s),
    ensures
        no_crlf(s),
        forall|i: int| 0 <= i < s.len() ==> #[trigger] s[i] != CR,
{
    assert forall|i: int| 0 <= i < s.len() implies #[trigger] s[i] != CR by {
        assert(crate::decimal::is_digit(s[i]));
    }
}

/// The round-trip law: parsing the encoding of a well-formed frame, with
/// anything after it, yields that frame back and consumes exactly its bytes.
/// Decode is a function of the bytes, so this also says that re-encoding
/// what was parsed from emitted bytes reproduces those bytes.
pub proof fn lemma_round_trip(fv: FrameView, rest: Seq<u8>)
    requires
        encodable(fv),
    ensures
        spec_encode(fv).len() >= 1,
        spec_parse(spec_encode(fv) + rest) == FrameStep::Frame(fv, spec_encode(fv).len() as int),
    decreases fv,
{
    broadcast use vstd::utf8::encode_utf8_valid_utf8, vstd::utf8::encode_utf8_decode_utf8;

    let enc = spec_encode(fv);
    let b = enc + rest;
    match fv {
        FrameView::Simple(s) => {
            let eu = encode_utf8(s);
            assert(b[0] == TAG_SIMPLE);
            assert(b.drop_first() =~= eu + seq![CR, LF] + rest);
            lemma_text_crlf(eu, rest);
            assert(decode_utf8(eu) == s);
        },
        FrameView::Error(s) => {
            let eu = encode_utf8(s);
            assert(b[0] == TAG_ERROR);
            assert(b.drop_first() =~= eu + seq![CR, LF] + rest);
            lemma_text_crlf(eu, rest);
            assert(decode_utf8(eu) == s);
        },
        FrameView::Integer(n) => {
            let d = u64_dec(n);
            crate::decimal::lemma_u64_dec_digits(n);
            crate::decimal::lemma_atoi_u64_dec(n);
            assert(b[0] == TAG_INTEGER);
            assert(b.drop_first() =~= d + seq![CR, LF] + rest);
            lemma_digits_no_crlf(d);
            lemma_line_crlf(d, rest);
        },
        FrameView::Bulk(p) => {
            let n = p.len() as u64;
            let d = u64_dec(n);
            crate::decimal::lemma_u64_dec_digits(n);
            crate::decimal::lemma_atoi_u64_dec(n);
            assert(b[0] == TAG_BULK);
            let r1 = b.drop_first();
            assert(r1 =~= d + seq![CR, LF] + (p + seq![CR, LF] + rest));
            lemma_digits_no_crlf(d);
            lemma_line_crlf(d, p + seq![CR, LF] + rest);
            assert(r1[0] == d[0]);
            assert(crate::decimal::is_digit(d[0]));
            assert(r1[0] != MINUS);
            let after = r1.skip(d.len() as int + 2);
            assert(after =~= p + seq![CR, LF] + rest);
            assert(after.len() >= p.len() + 2);
            assert(after.take(n as int) =~= p);
            assert(3 + d.len() + n + 2 == enc.len());
        },
        FrameView::Null => {
            assert(b[0] == TAG_BULK);
            let r1 = b.drop_first();
            assert(r1 =~= seq![MINUS, DIGIT_ONE] + seq![CR, LF] + rest);
            assert(r1[0] == MINUS);
            assert(r1[1] == DIGIT_ONE);
            lemma_line_crlf(seq![MINUS, DIGIT_ONE], rest);
            assert(r1.take(2) == seq![MINUS, DIGIT_ONE]);
        },
        FrameView::Array(elems) => {
            let n = elems.len() as u64;
            let d = u64_dec(n);
            crate::decimal::lemma_u64_dec_digits(n);
            crate::decimal::lemma_atoi_u64_dec(n);
            assert(b[0] == TAG_ARRAY);
            let r1 = b.drop_first();
            assert(r1 =~= d + seq![CR, LF] + (spec_encode_elems(elems) + rest));
            lemma_digits_no_crlf(d);
            lemma_line_crlf(d, spec_encode_elems(elems) + rest);
            let after = r1.skip(d.len() as int + 2);
            assert(after =~= spec_encode_elems(elems) + rest);
            lemma_round_trip_elems(elems, rest);
            assert(3 + d.len() + spec_encode_elems(elems).len() == enc.len());
        },
    }
}

/// Round trip for a run of frames.
pub proof fn lemma_round_trip_elems(elems: Seq<FrameView>, rest: Seq<u8>)
    requires
        encodable_elems(elems),
    ensures
        spec_parse_elems(spec_encode_elems(elems) + rest, elems.len() as nat) == ElemsStep::Elems(
            elems,
            spec_encode_elems(elems).len() as int,
        ),
    decreases elems,
{
    if elems.len() == 0 {
        assert(spec_encode_elems(elems) + rest =~= rest);
        assert(elems =~= Seq::<FrameView>::empty());
        assert(spec_parse_elems(rest, 0) == ElemsStep::Elems(Seq::<FrameView>::empty(), 0));
    } else {
        let first = elems.first();
        let tail = elems.drop_first();
        let e0 = spec_encode(first);
        let etail = spec_encode_elems(tail);
        let b = spec_encode_elems(elems) + rest;
        assert(b =~= e0 + (etail + rest));
        lemma_round_trip(first, etail + rest);
        assert(spec_parse(b) == FrameStep::Frame(first, e0.len() as int));
        assert(b.skip(e0.len() as int) =~= etail + rest);
        lemma_round_trip_elems(tail, rest);
        assert(seq![first] + tail =~= elems);
    }
}

} // verus!

verus! {

/// Whether a frame value compares equal to a string, as the clients compare
/// acknowledgement headers: a simple frame by its text, a bulk frame by the
/// string's UTF-8 bytes.
pub open spec fn spec_eq_str(fv: FrameView, s: Seq<char>) -> bool {
    match fv {
        FrameView::Simple(t) => t == s,
        FrameView::Bulk(b) => b == encode_utf8(s),
        _ => false,
    }
}

/// Byte-for-byte slice equality.
pub fn bytes_eq(a: &[u8], b: &[u8]) -> (r: bool)
    ensures
        r == (a@ == b@),
{
    if a.len() != b.len() {
        proof {
            assert(a@ != b@);
        }
        return false;
    }
    let n: usize = a.len();
    let mut i: usize = 0;
    while i < n
        invariant
            i <= n,
            n == a@.len() == b@.len(),
            forall|j: int| 0 <= j < i ==> a@[j] == b@[j],
        decreases n - i,
    {
        if a[i] != b[i] {
            return false;
        }
        i = i + 1;
    }
    proof {
        assert(a@ =~= b@);
    }
    true
}

/// String equality by UTF-8 bytes; the encoding is injective, so this is
/// equality of the character sequences.
pub fn str_eq(a: &str, b: &str) -> (r: bool)
    ensures
        r == (a@ == b@),
{
    broadcast use vstd::utf8::encode_utf8_decode_utf8;

    let r = bytes_eq(a.as_bytes(), b.as_bytes());
    proof {
        if encode_utf8(a@) == encode_utf8(b@) {
            assert(decode_utf8(encode_utf8(a@)) == decode_utf8(encode_utf8(b@)));
        }
    }
    r
}

impl Frame {
    /// An empty array frame.
    pub fn array() -> (f: Frame)
        ensures
            f@ == FrameView::Array(Seq::<FrameView>::empty()),
    {
        let f = Frame::Array(Vec::new());
        proof {
            assert(f@->Array_0 =~= Seq::<FrameView>::empty());
        }
        f
    }

    /// Append a bulk frame to an array frame. The caller must hold an array.
    pub fn push_bulk(&mut self, bytes: Vec<u8>)
        requires
            old(self)@ is Array,
        ensures
            final(self)@ == FrameView::Array(
                old(self)@->Array_0.push(FrameView::Bulk(bytes@)),
            ),
    {
        let ghost prior = self@->Array_0;
        match self {
            Frame::Array(vec) => {
                let ghost prior_elems = vec@;
                vec.push(Frame::Bulk(bytes));
                proof {
                    assert(Frame::views_of(*vec) =~= views_of_seq(prior_elems).push(
                        FrameView::Bulk(bytes@),
                    ));
                    assert(views_of_seq(prior_elems) =~= prior);
                }
            },
            _ => {
                proof {
                    assert(false);
                }
            },
        }
    }

    /// Append an integer frame to an array frame. The caller must hold an
    /// array.
    pub fn push_int(&mut self, value: u64)
        requires
            old(self)@ is Array,
        ensures
            final(self)@ == FrameView::Array(
                old(self)@->Array_0.push(FrameView::Integer(value)),
            ),
    {
        let ghost prior = self@->Array_0;
        match self {
            Frame::Array(vec) => {
                let ghost prior_elems = vec@;
                vec.push(Frame::Integer(value));
                proof {
                    assert(Frame::views_of(*vec) =~= views_of_seq(prior_elems).push(
                        FrameView::Integer(value),
                    ));
                    assert(views_of_seq(prior_elems) =~= prior);
                }
            },
            _ => {
                proof {
                    assert(false);
                }
            },
        }
    }

    /// Whether this frame equals the given string, the way the client
    /// compares reply headers.
    pub fn eq_str(&self, other: &str) -> (r: bool)
        ensures
            r == spec_eq_str(self@, other@),
    {
        broadcast use vstd::utf8::encode_utf8_decode_utf8;

        match self {
            Frame::Simple(t) => {
                let r = bytes_eq(t.as_str().as_bytes(), other.as_bytes());
                proof {
                    if encode_utf8(t@) == encode_utf8(other@) {
                        assert(decode_utf8(encode_utf8(t@)) == decode_utf8(encode_utf8(other@)));
                        assert(t@ == other@);
                    }
                }
                r
            },
            Frame::Bulk(b) => bytes_eq(b.as_slice(), other.as_bytes()),
            _ => false,
        }
    }

}

} // verus!

verus! {

/// Law: on bytes the codec emitted, decode then encode is the identity —
/// parsing consumes exactly the emitted bytes, yields the emitted frame,
/// and re-encoding that frame reproduces the bytes.
pub proof fn lemma_emitted_bytes_round_trip(fv: FrameView, b: Seq<u8>)
    requires
        encodable(fv),
        b == spec_encode(fv),
    ensures
        spec_parse(b) == FrameStep::Frame(fv, b.len() as int),
        spec_parse(b) matches FrameStep::Frame(g, n) ==> spec_encode(g) == b,
{
    lemma_round_trip(fv, Seq::empty());
    assert(spec_encode(fv) + Seq::<u8>::empty() =~= b);
}

} // verus!

verus! {

/// The character of one decimal digit byte.
pub open spec fn digit_char(b: u8) -> char {
    if b == 48 {
        '0'
    } else if b == 49 {
        '1'
    } else if b == 50 {
        '2'
    } else if b == 51 {
        '3'
    } else if b == 52 {
        '4'
    } else if b == 53 {
        '5'
    } else if b == 54 {
        '6'
    } else if b == 55 {
        '7'
    } else if b == 56 {
        '8'
    } else {
        '9'
    }
}

/// The decimal digits of `n`, as characters.
pub open spec fn dec_chars(n: u64) -> Seq<char> {
    Seq::new(u64_dec(n).len(), |i: int| digit_char(u64_dec(n)[i]))
}

/// The display text of a frame: simple text
/// as itself, errors with a marker, integers in decimal, bulk payloads
/// decoded when they are UTF-8, nil in parentheses, arrays joined with
/// spaces.
pub open spec fn spec_render(fv: FrameView) -> Seq<char>
    decreases fv,
{
    match fv {
        FrameView::Simple(s) => s,
        FrameView::Error(s) => "error: "@ + s,
        FrameView::Integer(n) => dec_chars(n),
        FrameView::Bulk(b) => if valid_utf8(b) {
            decode_utf8(b)
        } else {
            "(invalid utf-8)"@
        },
        FrameView::Null => "(nil)"@,
        FrameView::Array(parts) => spec_render_parts(parts),
    }
}

/// The display text of a run of frames, space-separated.
pub open spec fn spec_render_parts(parts: Seq<FrameView>) -> Seq<char>
    decreases parts,
{
    if parts.len() == 0 {
        Seq::empty()
    } else {
        spec_render(parts.first()) + spec_render_rest(parts.drop_first())
    }
}

pub open spec fn spec_render_rest(parts: Seq<FrameView>) -> Seq<char>
    decreases parts,
{
    if parts.len() == 0 {
        Seq::empty()
    } else {
        " "@ + spec_render(parts.first()) + spec_render_rest(parts.drop_first())
    }
}

/// Appending one more frame to a run appends a space and its text.
proof fn lemma_render_parts_snoc(parts: Seq<FrameView>, x: FrameView)
    ensures
        spec_render_parts(parts.push(x)) == if parts.len() == 0 {
            spec_render(x)
        } else {
            spec_render_parts(parts) + " "@ + spec_render(x)
        },
    decreases parts.len(),
{
    if parts.len() == 0 {
        assert(parts.push(x).first() == x);
        assert(parts.push(x).drop_first() =~= Seq::<FrameView>::empty());
        assert(spec_render_rest(Seq::<FrameView>::empty()) == Seq::<char>::empty());
        assert(spec_render(x) + Seq::<char>::empty() =~= spec_render(x));
    } else {
        assert(parts.push(x).first() == parts.first());
        assert(parts.push(x).drop_first() =~= parts.drop_first().push(x));
        lemma_render_rest_snoc(parts.drop_first(), x);
        assert(spec_render(parts.first()) + (spec_render_rest(parts.drop_first()) + (" "@
            + spec_render(x))) =~= (spec_render(parts.first()) + spec_render_rest(
            parts.drop_first(),
        ) + " "@) + spec_render(x));
        assert(spec_render_parts(parts) + " "@ + spec_render(x) =~= (spec_render(parts.first())
            + spec_render_rest(parts.drop_first()) + " "@) + spec_render(x));
    }
}

proof fn lemma_render_rest_snoc(parts: Seq<FrameView>, x: FrameView)
    ensures
        spec_render_rest(parts.push(x)) == spec_render_rest(parts) + " "@ + spec_render(x),
    decreases parts.len(),
{
    if parts.len() == 0 {
        assert(parts.push(x).first() == x);
        assert(parts.push(x).drop_first() =~= Seq::<FrameView>::empty());
        assert(spec_render_rest(Seq::<FrameView>::empty()) == Seq::<char>::empty());
        assert(spec_render_rest(parts.push(x)) == " "@ + spec_render(x) + Seq::<char>::empty());
        assert(" "@ + spec_render(x) + Seq::<char>::empty() =~= Seq::<char>::empty() + " "@
            + spec_render(x));
    } else {
        assert(parts.push(x).first() == parts.first());
        assert(parts.push(x).drop_first() =~= parts.drop_first().push(x));
        lemma_render_rest_snoc(parts.drop_first(), x);
        assert(" "@ + spec_render(parts.first()) + (spec_render_rest(parts.drop_first()) + " "@
            + spec_render(x)) =~= (" "@ + spec_render(parts.first()) + spec_render_rest(
            parts.drop_first(),
        )) + " "@ + spec_render(x));
    }
}

/// The decimal digits of `num` as a string.
fn render_u64(num: u64) -> (s: String)
    ensures
        s@ == dec_chars(num),
{
    let digits = crate::decimal::format_u64(num);
    let mut s = String::new();
    let n: usize = digits.len();
    let mut i: usize = 0;
    proof {
        crate::decimal::lemma_u64_dec_digits(num);
    }
    while i < n
        invariant
            i <= n,
            n == digits@.len(),
            digits@ == u64_dec(num),
            crate::decimal::all_digits(digits@),
            s@ == dec_chars(num).take(i as int),
        decreases n - i,
    {
        let b = digits[i];
        proof {
            reveal_strlit("0");
            reveal_strlit("1");
            reveal_strlit("2");
            reveal_strlit("3");
            reveal_strlit("4");
            reveal_strlit("5");
            reveal_strlit("6");
            reveal_strlit("7");
            reveal_strlit("8");
            reveal_strlit("9");
            assert(crate::decimal::is_digit(digits@[i as int]));
            assert(dec_chars(num)[i as int] == digit_char(b));
            assert(dec_chars(num).take(i + 1) =~= dec_chars(num).take(i as int).push(
                dec_chars(num)[i as int],
            ));
        }
        let d: &str = if b == 48 {
            proof {
                assert(("0")@ =~= seq!['0']);
            }
            "0"
        } else if b == 49 {
            proof {
                assert(("1")@ =~= seq!['1']);
            }
            "1"
        } else if b == 50 {
            proof {
                assert(("2")@ =~= seq!['2']);
            }
            "2"
        } else if b == 51 {
            proof {
                assert(("3")@ =~= seq!['3']);
            }
            "3"
        } else if b == 52 {
            proof {
                assert(("4")@ =~= seq!['4']);
            }
            "4"
        } else if b == 53 {
            proof {
                assert(("5")@ =~= seq!['5']);
            }
            "5"
        } else if b == 54 {
            proof {
                assert(("6")@ =~= seq!['6']);
            }
            "6"
        } else if b == 55 {
            proof {
                assert(("7")@ =~= seq!['7']);
            }
            "7"
        } else if b == 56 {
            proof {
                assert(("8")@ =~= seq!['8']);
            }
            "8"
        } else {
            proof {
                assert(("9")@ =~= seq!['9']);
            }
            "9"
        };
        proof {
            assert(d@ =~= seq![digit_char(b)]);
            assert(dec_chars(num).take(i as int).push(dec_chars(num)[i as int]) =~= dec_chars(
                num,
            ).take(i as int) + seq![digit_char(b)]);
        }
        s.append(d);
        i = i + 1;
    }
    proof {
        assert(dec_chars(num).take(n as int) =~= dec_chars(num));
    }
    s
}

impl Frame {
    /// The display text of this frame.
    pub fn render(&self) -> (s: String)
        ensures
            s@ == spec_render(self@),
        decreases *self,
    {
        match self {
            Frame::Simple(v) => v.clone(),
            Frame::Error(msg) => {
                let mut s = String::from_str("error: ");
                s.append(msg.as_str());
                s
            },
            Frame::Integer(num) => render_u64(*num),
            Frame::Bulk(b) => {
                let data = copy_range(b.as_slice(), 0, b.len());
                proof {
                    assert(data@ =~= b@);
                }
                match string_from_utf8(data) {
                    Some(text) => text,
                    None => String::from_str("(invalid utf-8)"),
                }
            },
            Frame::Null => String::from_str("(nil)"),
            Frame::Array(parts) => {
                proof {
                    assert(Frame::views_of(*parts) =~= views_of_seq(parts@));
                }
                render_parts(parts)
            },
        }
    }
}

impl Frame {
    /// The message describing this frame as unexpected, for error
    /// reporting.
    pub fn to_error(&self) -> (s: String)
        ensures
            s@ == "unexpected frame: "@ + spec_render(self@),
    {
        let mut s = String::from_str("unexpected frame: ");
        let rendered = self.render();
        s.append(rendered.as_str());
        s
    }
}

/// The display text of the frames in `parts`, space-separated.
fn render_parts(parts: &Vec<Frame>) -> (s: String)
    ensures
        s@ == spec_render_parts(views_of_seq(parts@)),
    decreases *parts,
{
    let ghost views = views_of_seq(parts@);
    let mut s = String::new();
    let n: usize = parts.len();
    let mut i: usize = 0;
    while i < n
        invariant
            i <= n,
            n == parts@.len(),
            views == views_of_seq(parts@),
            s@ == spec_render_parts(views.take(i as int)),
        decreases n - i,
    {
        proof {
            assert(views.take(i + 1) =~= views.take(i as int).push(views[i as int]));
            lemma_render_parts_snoc(views.take(i as int), views[i as int]);
            assert(parts@[i as int]@ == views[i as int]);
        }
        if i > 0 {
            s.append(" ");
        }
        let part = parts[i].render();
        s.append(part.as_str());
        i = i + 1;
    }
    proof {
        assert(views.take(n as int) =~= views);
    }
    s
}

} // verus!

//! The byte-level half of a connection: deciding whether the read buffer
//! holds a complete frame, parsing it, and encoding reply frames to bytes.
//! The socket itself stays outside; a caller feeds buffered bytes in and
//! writes the returned bytes out, advancing its buffer by the length this
//! module reports.

use vstd::prelude::*;

use crate::decimal::u64_dec;
use crate::frame::{
    spec_check, spec_encode, spec_encode_elems, spec_parse, views_of_seq, CheckStep, Error, Frame,
    FrameStep, FrameView, CR, LF, TAG_ARRAY,
};

verus! {

broadcast use vstd::std_specs::vec::group_vec_axioms, vstd::seq::group_seq_axioms;

/// A frame the writer can emit: arrays are written element-wise, one level
/// deep, so no element is itself an array.
pub open spec fn spec_writable(fv: FrameView) -> bool {
    match fv {
        FrameView::Array(elems) => forall|i: int|
            0 <= i < elems.len() ==> !((#[trigger] elems[i]) is Array),
        _ => true,
    }
}

/// Try to read one frame from the front of the buffer. `Ok(Some((frame,
/// len)))` when a complete valid frame spans the first `len` bytes — the
/// caller discards exactly those; `Ok(None)` when more bytes are needed;
/// `Err` when the buffer cannot encode a frame and the connection must
/// close.
pub fn parse_frame(buffer: &[u8]) -> (r: Result<Option<(Frame, usize)>, Error>)
    ensures
        ({
            let chk = spec_check(buffer@);
            let prs = spec_parse(buffer@);
            match r {
                Ok(None) => chk is Incomplete,
                Ok(Some((f, len))) => 0 < len <= buffer@.len() && chk == CheckStep::Len(len as int)
                    && prs == FrameStep::Frame(f@, len as int),
                Err(_) => chk is Malformed || (chk is Len && !(prs is Frame)),
            }
        }),
{
    proof {
        assert(buffer@.skip(0) =~= buffer@);
    }
    match Frame::check(buffer, 0) {
        Err(Error::Incomplete) => Ok(None),
        Err(e) => Err(e),
        Ok(len) => {
            match Frame::parse(buffer, 0) {
                Ok((f, end)) => {
                    proof {
                        crate::frame::lemma_parse_check_agree(buffer@);
                    }
                    Ok(Some((f, len)))
                },
                Err(e) => Err(e),
            }
        },
    }
}

/// Append `val` as decimal digits followed by CRLF, as the writer encodes
/// every number.
pub fn write_decimal(out: &mut Vec<u8>, val: u64)
    ensures
        final(out)@ == old(out)@ + u64_dec(val) + seq![CR, LF],
{
    let ghost prior = out@;
    let mut digits = crate::decimal::format_u64(val);
    let ghost d = digits@;
    out.append(&mut digits);
    out.push(CR);
    out.push(LF);
    proof {
        assert(out@ =~= prior + d + seq![CR, LF]);
    }
}

/// Append the encoding of one non-array frame.
pub fn write_value(out: &mut Vec<u8>, frame: &Frame)
    requires
        !(frame@ is Array),
    ensures
        final(out)@ == old(out)@ + spec_encode(frame@),
{
    let ghost prior = out@;
    match frame {
        Frame::Simple(val) => {
            out.push(crate::frame::TAG_SIMPLE);
            out.extend_from_slice(val.as_str().as_bytes());
            out.push(CR);
            out.push(LF);
            proof {
                assert(out@ =~= prior + spec_encode(frame@));
            }
        },
        Frame::Error(val) => {
            out.push(crate::frame::TAG_ERROR);
            out.extend_from_slice(val.as_str().as_bytes());
            out.push(CR);
            out.push(LF);
            proof {
                assert(out@ =~= prior + spec_encode(frame@));
            }
        },
        Frame::Integer(val) => {
            out.push(crate::frame::TAG_INTEGER);
            write_decimal(out, *val);
            proof {
                assert(out@ =~= prior + spec_encode(frame@));
            }
        },
        Frame::Null => {
            out.push(crate::frame::TAG_BULK);
            out.push(crate::decimal::MINUS);
            out.push(crate::frame::DIGIT_ONE);
            out.push(CR);
            out.push(LF);
            proof {
                assert(out@ =~= prior + spec_encode(frame@));
            }
        },
        Frame::Bulk(val) => {
            out.push(crate::frame::TAG_BULK);
            write_decimal(out, val.len() as u64);
            out.extend_from_slice(val.as_slice());
            out.push(CR);
            out.push(LF);
            proof {
                assert(out@ =~= prior + spec_encode(frame@));
            }
        },
        Frame::Array(_) => {
            proof {
                assert(false);
            }
        },
    }
}

/// Appending one element extends the encoding of a run by that element's
/// encoding.
pub proof fn lemma_encode_elems_snoc(s: Seq<FrameView>, x: FrameView)
    ensures
        spec_encode_elems(s.push(x)) == spec_encode_elems(s) + spec_encode(x),
    decreases s.len(),
{
    if s.len() == 0 {
        let e = Seq::<FrameView>::empty();
        assert(s =~= e);
        assert(s.push(x).first() == x);
        assert(s.push(x).drop_first() =~= e);
        assert(spec_encode_elems(e) == Seq::<u8>::empty());
        assert(spec_encode_elems(s.push(x)) == spec_encode(x) + Seq::<u8>::empty());
        assert(spec_encode(x) + Seq::<u8>::empty() =~= Seq::<u8>::empty() + spec_encode(x));
        assert(spec_encode_elems(s) + spec_encode(x) =~= Seq::<u8>::empty() + spec_encode(x));
    } else {
        assert(s.push(x).first() == s.first());
        assert(s.push(x).drop_first() =~= s.drop_first().push(x));
        lemma_encode_elems_snoc(s.drop_first(), x);
        assert(spec_encode(s.first()) + (spec_encode_elems(s.drop_first()) + spec_encode(x)) =~= (
        spec_encode(s.first()) + spec_encode_elems(s.drop_first())) + spec_encode(x));
    }
}

/// Encode one outgoing frame to bytes: arrays element-wise, everything else
/// in its single-line or length-prefixed form. The caller then writes and
/// flushes these bytes.
pub fn write_frame(frame: &Frame) -> (out: Vec<u8>)
    requires
        spec_writable(frame@),
    ensures
        out@ == spec_encode(frame@),
{
    let mut out: Vec<u8> = Vec::new();
    match frame {
        Frame::Array(list) => {
            let ghost elems = frame@->Array_0;
            proof {
                assert(elems =~= views_of_seq(list@));
            }
            out.push(TAG_ARRAY);
            write_decimal(&mut out, list.len() as u64);
            let ghost header = out@;
            let n: usize = list.len();
            let mut k: usize = 0;
            while k < n
                invariant
                    k <= n,
                    n == list@.len(),
                    elems == views_of_seq(list@),
                    spec_writable(FrameView::Array(elems)),
                    out@ == header + spec_encode_elems(elems.take(k as int)),
                decreases n - k,
            {
                proof {
                    assert(list@[k as int]@ == elems[k as int]);
                    assert(!(elems[k as int] is Array));
                    assert(elems.take(k + 1) =~= elems.take(k as int).push(elems[k as int]));
                    lemma_encode_elems_snoc(elems.take(k as int), elems[k as int]);
                }
                write_value(&mut out, &list[k]);
                k = k + 1;
            }
            proof {
                assert(elems.take(n as int) =~= elems);
                assert(out@ =~= spec_encode(frame@));
            }
        },
        _ => {
            write_value(&mut out, frame);
            proof {
                assert(out@ =~= spec_encode(frame@));
            }
        },
    }
    out
}

} // verus!

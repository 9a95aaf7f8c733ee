//! `SET key value [EX seconds | PX milliseconds]`: store a value, with an
//! optional time to live.

use vstd::prelude::*;
use vstd::string::StrSliceExecFns;
use vstd::utf8::encode_utf8;

use crate::cmd::{name_is, name_matches};
use crate::db::{spec_notify, Db, EntryView};
use crate::frame::{Frame, FrameView};
use crate::parse::{bytes_of, int_of, str_of, Parse, ParseError};

verus! {

/// Store `value` under `key`, discarding any previous value and lifetime;
/// with `EX`/`PX` the entry expires after the given time.
#[derive(Debug)]
pub struct SetCmd {
    key: String,
    value: Vec<u8>,
    expire_ms: Option<u64>,
}

impl View for SetCmd {
    type V = (Seq<char>, Seq<u8>, Option<u64>);

    closed spec fn view(&self) -> (Seq<char>, Seq<u8>, Option<u64>) {
        (self.key@, self.value@, self.expire_ms)
    }
}

/// What the tokens after the command name decode to: key, value, and the
/// lifetime in milliseconds — or nothing, on any mismatch: a missing or
/// non-string key, an option other than `EX`/`PX`, a malformed count, or
/// seconds too large to carry in milliseconds.
pub open spec fn spec_set_parse(args: Seq<FrameView>) -> Option<(Seq<char>, Seq<u8>, Option<u64>)> {
    if args.len() < 2 {
        None
    } else {
        match (str_of(args[0]), bytes_of(args[1])) {
            (Some(k), Some(v)) => {
                if args.len() == 2 {
                    Some((k, v, None))
                } else {
                    match str_of(args[2]) {
                        None => None,
                        Some(opt) => {
                            if name_is(opt, "EX"@) {
                                if args.len() < 4 {
                                    None
                                } else {
                                    match int_of(args[3]) {
                                        None => None,
                                        Some(secs) => if secs > u64::MAX / 1000 {
                                            None
                                        } else {
                                            Some((k, v, Some((secs * 1000) as u64)))
                                        },
                                    }
                                }
                            } else if name_is(opt, "PX"@) {
                                if args.len() < 4 {
                                    None
                                } else {
                                    match int_of(args[3]) {
                                        None => None,
                                        Some(ms) => Some((k, v, Some(ms))),
                                    }
                                }
                            } else {
                                None
                            }
                        },
                    }
                }
            },
            _ => None,
        }
    }
}

/// The expiry instant an entry gets: `now` plus the lifetime, saturating
/// at the largest representable instant.
pub open spec fn spec_when(now: u64, expire_ms: Option<u64>) -> Option<u64> {
    match expire_ms {
        Some(d) => Some(
            if now + d > u64::MAX {
                u64::MAX
            } else {
                (now + d) as u64
            },
        ),
        None => None,
    }
}

/// The array frame a `SET` encodes to; a lifetime always travels as `PX`
/// milliseconds, the higher-precision form.
pub open spec fn spec_set_frame(v: (Seq<char>, Seq<u8>, Option<u64>)) -> FrameView {
    match v.2 {
        None => FrameView::Array(
            seq![
                FrameView::Bulk(encode_utf8("set"@)),
                FrameView::Bulk(encode_utf8(v.0)),
                FrameView::Bulk(v.1),
            ],
        ),
        Some(ms) => FrameView::Array(
            seq![
                FrameView::Bulk(encode_utf8("set"@)),
                FrameView::Bulk(encode_utf8(v.0)),
                FrameView::Bulk(v.1),
                FrameView::Bulk(encode_utf8("px"@)),
                FrameView::Integer(ms),
            ],
        ),
    }
}

impl SetCmd {
    /// A `SET` of `value` under `key`, expiring after `expire_ms`
    /// milliseconds if given.
    pub fn new(key: &str, value: Vec<u8>, expire_ms: Option<u64>) -> (c: SetCmd)
        ensures
            c@ == (key@, value@, expire_ms),
    {
        SetCmd { key: String::from_str(key), value, expire_ms }
    }

    /// The key being written.
    pub fn key(&self) -> (k: &str)
        ensures
            k@ == self@.0,
    {
        self.key.as_str()
    }

    /// The value being written.
    pub fn value(&self) -> (v: &Vec<u8>)
        ensures
            v@ == self@.1,
    {
        &self.value
    }

    /// The lifetime in milliseconds, if one was given.
    pub fn expire(&self) -> (e: Option<u64>)
        ensures
            e == self@.2,
    {
        self.expire_ms
    }

    /// Decode the fields that follow the command name.
    pub fn parse_frames(parse: &mut Parse) -> (r: Result<SetCmd, ParseError>)
        ensures
            match r {
                Ok(c) => spec_set_parse(old(parse)@) == Some(c@) && (c@.2 is Some ==> final(parse)@
                    == old(parse)@.skip(4)) && (c@.2 is None ==> final(parse)@ == old(parse)@.skip(2)),
                Err(_) => spec_set_parse(old(parse)@) is None && final(parse)@.len() <= old(parse)@.len(),
            },
    {
        let ghost args = parse@;
        let key = parse.next_string()?;
        let value = parse.next_bytes()?;
        proof {
            assert(args.drop_first().drop_first() =~= args.skip(2));
        }
        let mut expire: Option<u64> = None;
        match parse.next_string() {
            Ok(s) => {
                proof {
                    assert(args.skip(2)[0] == args[2]);
                    assert(args.skip(2).drop_first() =~= args.skip(3));
                }
                if name_matches(s.as_str(), "EX") {
                    let secs = parse.next_int()?;
                    proof {
                        assert(args.skip(3)[0] == args[3]);
                        assert(args.skip(3).drop_first() =~= args.skip(4));
                    }
                    match secs.checked_mul(1000) {
                        Some(ms) => {
                            proof {
                                assert(secs <= u64::MAX / 1000) by (nonlinear_arith)
                                    requires
                                        secs * 1000 <= u64::MAX,
                                        secs >= 0,
                                ;
                            }
                            expire = Some(ms);
                        },
                        None => {
                            proof {
                                assert(secs > u64::MAX / 1000) by (nonlinear_arith)
                                    requires
                                        secs * 1000 > u64::MAX,
                                        secs >= 0,
                                ;
                            }
                            return Err(ParseError::other(
                                "protocol error: expiration out of range",
                            ));
                        },
                    }
                } else if name_matches(s.as_str(), "PX") {
                    let ms = parse.next_int()?;
                    proof {
                        assert(args.skip(3)[0] == args[3]);
                        assert(args.skip(3).drop_first() =~= args.skip(4));
                    }
                    expire = Some(ms);
                } else {
                    return Err(ParseError::other(
                        "currently `SET` only supports the expiration option",
                    ));
                }
            },
            Err(ParseError::EndOfStream) => {},
            Err(e) => {
                return Err(e);
            },
        }
        Ok(SetCmd { key, value, expire_ms: expire })
    }

    /// Apply to the store: install the entry, with its expiry instant
    /// computed from `now`, and reply `OK`. The boolean says whether the
    /// caller must wake the purge worker after releasing the lock.
    pub fn apply(self, db: &mut Db, now: u64) -> (r: (Frame, bool))
        requires
            old(db).wf(),
        ensures
            final(db).wf(),
            r.0@ == FrameView::Simple("OK"@),
            final(db)@.entries == old(db)@.entries.insert(
                self@.0,
                EntryView { data: self@.1, expires_at: spec_when(now, self@.2) },
            ),
            final(db)@.channels == old(db)@.channels,
            final(db)@.shutdown == old(db)@.shutdown,
            r.1 == spec_notify(old(db)@, spec_when(now, self@.2)),
    {
        let when: Option<u64> = match self.expire_ms {
            Some(d) => Some(now.saturating_add(d)),
            None => None,
        };
        let notify = db.set(self.key, self.value, when);
        (Frame::Simple(String::from_str("OK")), notify)
    }

    /// Encode as the array frame the client sends.
    pub fn into_frame(self) -> (f: Frame)
        ensures
            f@ == spec_set_frame(self@),
    {
        let ghost me = self@;
        let mut frame = Frame::array();
        frame.push_bulk(("set").as_bytes_vec());
        frame.push_bulk(self.key.as_str().as_bytes_vec());
        frame.push_bulk(self.value);
        match self.expire_ms {
            Some(ms) => {
                frame.push_bulk(("px").as_bytes_vec());
                frame.push_int(ms);
                proof {
                    assert(Seq::<FrameView>::empty().push(
                        FrameView::Bulk(encode_utf8("set"@)),
                    ).push(FrameView::Bulk(encode_utf8(me.0))).push(FrameView::Bulk(me.1)).push(
                        FrameView::Bulk(encode_utf8("px"@)),
                    ).push(FrameView::Integer(ms)) =~= spec_set_frame(me)->Array_0);
                }
            },
            None => {
                proof {
                    assert(Seq::<FrameView>::empty().push(
                        FrameView::Bulk(encode_utf8("set"@)),
                    ).push(FrameView::Bulk(encode_utf8(me.0))).push(FrameView::Bulk(me.1))
                        =~= spec_set_frame(me)->Array_0);
                }
            },
        }
        frame
    }
}

} // verus!

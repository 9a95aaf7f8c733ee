//! The command vocabulary: each request the server understands, how it is
//! decoded from an array frame, encoded back to one, and applied to the
//! shared state.

use vstd::prelude::*;
use vstd::utf8::{encode_utf8, is_ascii_chars};

use crate::db::Db;
use crate::frame::{Frame, FrameView};
use crate::parse::{str_of, Parse, ParseError};

pub mod get;
pub use get::Get;

pub mod ping;
pub use ping::Ping;

pub mod publish;
pub use publish::Publish;

pub mod set;
pub use set::SetCmd;

pub mod subscribe;
pub use subscribe::{Subscribe, Unsubscribe};

pub mod unknown;
pub use unknown::Unknown;

verus! {

/// ASCII lowercase of a byte: letters `A`..`Z` map down, all else is
/// unchanged.
pub open spec fn lower_byte(b: u8) -> u8 {
    if 65 <= b <= 90 {
        (b + 32) as u8
    } else {
        b
    }
}

/// Case-insensitive byte equality, folding ASCII letters only.
pub open spec fn ci_eq(a: Seq<u8>, b: Seq<u8>) -> bool {
    a.len() == b.len() && forall|i: int|
        0 <= i < a.len() ==> lower_byte(#[trigger] a[i]) == lower_byte(#[trigger] b[i])
}

/// Whether `name` is this command word, compared case-insensitively over
/// the UTF-8 bytes.
pub open spec fn name_is(name: Seq<char>, word: Seq<char>) -> bool {
    ci_eq(encode_utf8(name), encode_utf8(word))
}

/// Case-insensitive comparison of two byte slices, ASCII folding.
pub fn ascii_ci_eq(a: &[u8], b: &[u8]) -> (r: bool)
    ensures
        r == ci_eq(a@, b@),
{
    if a.len() != b.len() {
        return false;
    }
    let n: usize = a.len();
    let mut i: usize = 0;
    while i < n
        invariant
            i <= n,
            n == a@.len() == b@.len(),
            forall|j: int| 0 <= j < i ==> lower_byte(#[trigger] a@[j]) == lower_byte(
                #[trigger] b@[j],
            ),
        decreases n - i,
    {
        let x = a[i];
        let y = b[i];
        let xl: u8 = if 65 <= x && x <= 90 {
            x + 32
        } else {
            x
        };
        let yl: u8 = if 65 <= y && y <= 90 {
            y + 32
        } else {
            y
        };
        if xl != yl {
            return false;
        }
        i = i + 1;
    }
    true
}

/// Case-insensitive comparison of two strings over their UTF-8 bytes.
pub fn name_matches(a: &str, b: &str) -> (r: bool)
    ensures
        r == name_is(a@, b@),
{
    ascii_ci_eq(a.as_bytes(), b.as_bytes())
}

} // verus!

verus! {

/// A supported request, decoded from one array frame.
#[derive(Debug)]
pub enum Command {
    Get(Get),
    Publish(Publish),
    SetCmd(SetCmd),
    Subcribe(Subscribe),
    Unsubscribe(Unsubscribe),
    Ping(Ping),
    Unknown(Unknown),
}

/// The mathematical value of a [`Command`].
pub enum CommandView {
    Get(Seq<char>),
    Publish(Seq<char>, Seq<u8>),
    SetCmd(Seq<char>, Seq<u8>, Option<u64>),
    Subcribe(Seq<Seq<char>>),
    Unsubscribe(Seq<Seq<char>>),
    Ping(Option<Seq<u8>>),
    Unknown(Seq<char>),
}

impl View for Command {
    type V = CommandView;

    open spec fn view(&self) -> CommandView {
        match self {
            Command::Get(c) => CommandView::Get(c@),
            Command::Publish(c) => CommandView::Publish(c@.0, c@.1),
            Command::SetCmd(c) => CommandView::SetCmd(c@.0, c@.1, c@.2),
            Command::Subcribe(c) => CommandView::Subcribe(c@),
            Command::Unsubscribe(c) => CommandView::Unsubscribe(c@),
            Command::Ping(c) => CommandView::Ping(c@),
            Command::Unknown(c) => CommandView::Unknown(c@),
        }
    }
}

/// What a frame decodes to: the command, or nothing when the frame is not
/// an array, its first element is not a string, or the fields of the named
/// command do not fit. A name that matches no command decodes to
/// `Unknown`, whatever follows it.
pub open spec fn spec_from_frame(fv: FrameView) -> Option<CommandView> {
    match fv {
        FrameView::Array(elems) => {
            if elems.len() < 1 {
                None
            } else {
                match str_of(elems[0]) {
                    None => None,
                    Some(name) => spec_decode_named(name, elems.drop_first()),
                }
            }
        },
        _ => None,
    }
}

/// Decoding of the arguments, once the command name is read.
pub open spec fn spec_decode_named(name: Seq<char>, args: Seq<FrameView>) -> Option<CommandView> {
    if name_is(name, "get"@) {
        if args.len() == 1 {
            match str_of(args[0]) {
                Some(k) => Some(CommandView::Get(k)),
                None => None,
            }
        } else {
            None
        }
    } else if name_is(name, "publish"@) {
        if args.len() == 2 {
            match (str_of(args[0]), crate::parse::bytes_of(args[1])) {
                (Some(ch), Some(m)) => Some(CommandView::Publish(ch, m)),
                _ => None,
            }
        } else {
            None
        }
    } else if name_is(name, "set"@) {
        match set::spec_set_parse(args) {
            Some(t) => {
                if t.2 is Some && args.len() == 4 {
                    Some(CommandView::SetCmd(t.0, t.1, t.2))
                } else if t.2 is None {
                    Some(CommandView::SetCmd(t.0, t.1, t.2))
                } else {
                    None
                }
            },
            None => None,
        }
    } else if name_is(name, "subscribe"@) {
        if args.len() >= 1 {
            match subscribe::strs_of(args) {
                Some(chs) => Some(CommandView::Subcribe(chs)),
                None => None,
            }
        } else {
            None
        }
    } else if name_is(name, "unsubscribe"@) {
        match subscribe::strs_of(args) {
            Some(chs) => Some(CommandView::Unsubscribe(chs)),
            None => None,
        }
    } else if name_is(name, "ping"@) {
        if args.len() == 0 {
            Some(CommandView::Ping(None))
        } else if args.len() == 1 {
            match crate::parse::bytes_of(args[0]) {
                Some(m) => Some(CommandView::Ping(Some(m))),
                None => None,
            }
        } else {
            None
        }
    } else {
        Some(CommandView::Unknown(name))
    }
}

/// The name a command reports of itself: its word, or for `Unknown` the
/// name as received.
pub open spec fn spec_name(cv: CommandView) -> Seq<char> {
    match cv {
        CommandView::Get(..) => "get"@,
        CommandView::Publish(..) => "publish"@,
        CommandView::SetCmd(..) => "set"@,
        CommandView::Subcribe(..) => "subscribe"@,
        CommandView::Unsubscribe(..) => "unsubscribe"@,
        CommandView::Ping(..) => "ping"@,
        CommandView::Unknown(n) => n,
    }
}

impl Command {
    /// Decode a command from one received array frame. The command name is
    /// matched case-insensitively; unknown names decode to `Unknown` and
    /// never fail.
    pub fn from_frame(frame: Frame) -> (r: Result<Command, ParseError>)
        ensures
            match r {
                Ok(cmd) => spec_from_frame(frame@) == Some(cmd@),
                Err(_) => spec_from_frame(frame@) is None,
            },
    {
        let ghost fv = frame@;
        let mut parse = Parse::new(frame)?;
        let ghost elems = fv->Array_0;
        let command_name = parse.next_string()?;
        let ghost args = elems.drop_first();
        let command: Command;
        if name_matches(command_name.as_str(), "get") {
            command = Command::Get(Get::parse_frames(&mut parse)?);
        } else if name_matches(command_name.as_str(), "publish") {
            command = Command::Publish(Publish::parse_frames(&mut parse)?);
        } else if name_matches(command_name.as_str(), "set") {
            command = Command::SetCmd(SetCmd::parse_frames(&mut parse)?);
        } else if name_matches(command_name.as_str(), "subscribe") {
            command = Command::Subcribe(Subscribe::parse_frames(&mut parse)?);
        } else if name_matches(command_name.as_str(), "unsubscribe") {
            command = Command::Unsubscribe(Unsubscribe::parse_frames(&mut parse)?);
        } else if name_matches(command_name.as_str(), "ping") {
            command = Command::Ping(Ping::parse_frames(&mut parse)?);
        } else {
            return Ok(Command::Unknown(Unknown::new(command_name.as_str())));
        }
        parse.finish()?;
        proof {
            if command@ is SetCmd {
                let sp = set::spec_set_parse(args);
                if sp is Some && (sp->0).2 is Some {
                    assert(args.len() >= 4);
                    assert(args.skip(4).len() == args.len() - 4);
                }
            }
        }
        Ok(command)
    }

    /// The command's name, as the server reports it in errors.
    pub fn get_name(&self) -> (n: &str)
        ensures
            n@ == spec_name(self@),
    {
        match self {
            Command::Get(_) => "get",
            Command::Publish(_) => "publish",
            Command::SetCmd(_) => "set",
            Command::Subcribe(_) => "subscribe",
            Command::Unsubscribe(_) => "unsubscribe",
            Command::Ping(_) => "ping",
            Command::Unknown(cmd) => cmd.get_name(),
        }
    }
}

} // verus!

verus! {

/// What the connection must do after applying a command.
pub enum Applied {
    /// Write this reply; when `notify` is set, wake the purge worker after
    /// releasing the state lock.
    Reply { frame: Frame, notify: bool },
    /// Enter pub/sub mode, subscribing to these initial channels.
    StartPubSub { init: Subscribe },
    /// A command that cannot stand here; the connection fails with this
    /// message.
    Fatal { message: String },
}

impl Command {
    /// Apply the command to the shared state at instant `now` (in
    /// milliseconds), producing the reply to write or the mode change to
    /// perform. `UNSUBSCRIBE` cannot be applied outside pub/sub mode.
    pub fn apply(self, db: &mut Db, now: u64) -> (r: Applied)
        requires
            old(db).wf(),
        ensures
            final(db).wf(),
            match self@ {
                CommandView::Get(k) => final(db)@ == old(db)@ && (r matches Applied::Reply {
                    frame,
                    notify,
                } && !notify && frame@ == (if old(db)@.entries.dom().contains(k) {
                    FrameView::Bulk(old(db)@.entries[k].data)
                } else {
                    FrameView::Null
                })),
                CommandView::SetCmd(k, v, e) => (r matches Applied::Reply { frame, notify }
                    && frame@ == FrameView::Simple("OK"@) && final(db)@.entries == old(
                    db,
                )@.entries.insert(
                    k,
                    crate::db::EntryView { data: v, expires_at: set::spec_when(now, e) },
                ) && final(db)@.channels == old(db)@.channels && final(db)@.shutdown == old(
                    db,
                )@.shutdown && notify == crate::db::spec_notify(old(db)@, set::spec_when(now, e))),
                CommandView::Publish(ch, m) => final(db)@ == old(db)@ && (r matches Applied::Reply {
                    frame,
                    notify,
                } && !notify && frame@ is Integer && (!old(db)@.channels.contains(ch) ==> frame@
                    == FrameView::Integer(0))),
                CommandView::Ping(m) => final(db)@ == old(db)@ && (r matches Applied::Reply {
                    frame,
                    notify,
                } && !notify && frame@ == (match m {
                    None => FrameView::Simple("PONG"@),
                    Some(mm) => FrameView::Bulk(mm),
                })),
                CommandView::Unknown(n) => final(db)@ == old(db)@ && (r matches Applied::Reply {
                    frame,
                    notify,
                } && !notify && frame@ == FrameView::Error("ERR unknown command '"@ + n + "'"@)),
                CommandView::Subcribe(chs) => final(db)@ == old(db)@ && (
                r matches Applied::StartPubSub { init } && init@ == chs),
                CommandView::Unsubscribe(_) => final(db)@ == old(db)@ && r is Fatal,
            },
    {
        match self {
            Command::Get(cmd) => Applied::Reply { frame: cmd.apply(db), notify: false },
            Command::Publish(cmd) => Applied::Reply { frame: cmd.apply(db), notify: false },
            Command::SetCmd(cmd) => {
                let (frame, notify) = cmd.apply(db, now);
                Applied::Reply { frame, notify }
            },
            Command::Subcribe(cmd) => Applied::StartPubSub { init: cmd },
            Command::Ping(cmd) => Applied::Reply { frame: cmd.apply(), notify: false },
            Command::Unknown(cmd) => Applied::Reply { frame: cmd.apply(), notify: false },
            Command::Unsubscribe(_) => Applied::Fatal {
                message: String::from_str("`Unsubscribe` is unsupported in this context"),
            },
        }
    }
}

} // verus!

verus! {

/// The frame each command encodes to, as the `into_frame` of each command
/// ensures.
pub open spec fn spec_cmd_frame(cv: CommandView) -> FrameView {
    match cv {
        CommandView::Get(k) => get::spec_get_frame(k),
        CommandView::Publish(ch, m) => FrameView::Array(
            seq![
                FrameView::Bulk(encode_utf8("publish"@)),
                FrameView::Bulk(encode_utf8(ch)),
                FrameView::Bulk(m),
            ],
        ),
        CommandView::SetCmd(k, v, e) => set::spec_set_frame((k, v, e)),
        CommandView::Subcribe(chs) => FrameView::Array(
            seq![FrameView::Bulk(encode_utf8("subscribe"@))] + subscribe::bulk_names(chs),
        ),
        CommandView::Unsubscribe(chs) => FrameView::Array(
            seq![FrameView::Bulk(encode_utf8("unsubscribe"@))] + subscribe::bulk_names(chs),
        ),
        CommandView::Ping(m) => FrameView::Array(
            match m {
                None => seq![FrameView::Bulk(encode_utf8("ping"@))],
                Some(mm) => seq![FrameView::Bulk(encode_utf8("ping"@)), FrameView::Bulk(mm)],
            },
        ),
        CommandView::Unknown(_) => FrameView::Null,
    }
}

/// Law: decoding the frame a command encodes to yields the command back.
/// This holds for every command the client can construct and send: all but
/// `Unknown`, and a `SUBSCRIBE` must name at least one channel.
#[verifier::rlimit(60)]
pub proof fn lemma_command_round_trip(cv: CommandView)
    requires
        !(cv is Unknown),
        cv matches CommandView::Subcribe(chs) ==> chs.len() >= 1,
    ensures
        spec_from_frame(spec_cmd_frame(cv)) == Some(cv),
{
    broadcast use vstd::utf8::encode_utf8_valid_utf8, vstd::utf8::encode_utf8_decode_utf8;

    reveal_strlit("get");
    reveal_strlit("publish");
    reveal_strlit("set");
    reveal_strlit("subscribe");
    reveal_strlit("unsubscribe");
    reveal_strlit("ping");
    reveal_strlit("px");
    reveal_strlit("EX");
    reveal_strlit("PX");
    assert(is_ascii_chars("get"@));
    assert(is_ascii_chars("publish"@));
    assert(is_ascii_chars("set"@));
    assert(is_ascii_chars("subscribe"@));
    assert(is_ascii_chars("unsubscribe"@));
    assert(is_ascii_chars("ping"@));
    assert(is_ascii_chars("px"@));
    assert(is_ascii_chars("EX"@));
    assert(is_ascii_chars("PX"@));
    vstd::utf8::is_ascii_chars_encode_utf8("get"@);
    vstd::utf8::is_ascii_chars_encode_utf8("publish"@);
    vstd::utf8::is_ascii_chars_encode_utf8("set"@);
    vstd::utf8::is_ascii_chars_encode_utf8("subscribe"@);
    vstd::utf8::is_ascii_chars_encode_utf8("unsubscribe"@);
    vstd::utf8::is_ascii_chars_encode_utf8("ping"@);
    vstd::utf8::is_ascii_chars_encode_utf8("px"@);
    vstd::utf8::is_ascii_chars_encode_utf8("EX"@);
    vstd::utf8::is_ascii_chars_encode_utf8("PX"@);
    let fv = spec_cmd_frame(cv);
    match cv {
        CommandView::Get(k) => {
            let elems = fv->Array_0;
            assert(elems[0] == FrameView::Bulk(encode_utf8("get"@)));
            assert(str_of(elems[0]) == Some("get"@));
            assert(name_is("get"@, "get"@));
            let args = elems.drop_first();
            assert(args.len() == 1 && args[0] == FrameView::Bulk(encode_utf8(k)));
            assert(str_of(args[0]) == Some(k));
        },
        CommandView::Publish(ch, m) => {
            let elems = fv->Array_0;
            assert(str_of(elems[0]) == Some("publish"@));
            assert(!name_is("publish"@, "get"@)) by {
                assert(encode_utf8("publish"@).len() != encode_utf8("get"@).len());
            }
            assert(name_is("publish"@, "publish"@));
            let args = elems.drop_first();
            assert(args.len() == 2);
            assert(args[0] == FrameView::Bulk(encode_utf8(ch)));
            assert(args[1] == FrameView::Bulk(m));
        },
        CommandView::SetCmd(k, v, e) => {
            let elems = fv->Array_0;
            assert(str_of(elems[0]) == Some("set"@));
            assert(!name_is("set"@, "get"@)) by {
                assert(encode_utf8("set"@)[0] == 's' as u8);
                assert(encode_utf8("get"@)[0] == 'g' as u8);
                assert(lower_byte('s' as u8) != lower_byte('g' as u8));
            }
            assert(!name_is("set"@, "publish"@)) by {
                assert(encode_utf8("set"@).len() != encode_utf8("publish"@).len());
            }
            assert(name_is("set"@, "set"@));
            let args = elems.drop_first();
            match e {
                None => {
                    assert(args.len() == 2);
                    assert(str_of(args[0]) == Some(k));
                    assert(crate::parse::bytes_of(args[1]) == Some(v));
                    assert(set::spec_set_parse(args) == Some((k, v, e)));
                },
                Some(ms) => {
                    assert(args.len() == 4);
                    assert(str_of(args[0]) == Some(k));
                    assert(crate::parse::bytes_of(args[1]) == Some(v));
                    assert(str_of(args[2]) == Some("px"@));
                    assert(!name_is("px"@, "EX"@)) by {
                        assert(encode_utf8("px"@)[0] == 'p' as u8);
                        assert(encode_utf8("EX"@)[0] == 'E' as u8);
                        assert(lower_byte('p' as u8) != lower_byte('E' as u8));
                    }
                    assert(name_is("px"@, "PX"@)) by {
                        assert(encode_utf8("px"@).len() == 2);
                        assert(encode_utf8("PX"@).len() == 2);
                        assert(lower_byte(encode_utf8("px"@)[0]) == lower_byte(
                            encode_utf8("PX"@)[0],
                        ));
                        assert(lower_byte(encode_utf8("px"@)[1]) == lower_byte(
                            encode_utf8("PX"@)[1],
                        ));
                        assert forall|i: int| 0 <= i < 2 implies lower_byte(
                            #[trigger] encode_utf8("px"@)[i],
                        ) == lower_byte(#[trigger] encode_utf8("PX"@)[i]) by {
                            if i == 0 {
                            } else {
                                assert(i == 1);
                            }
                        }
                    }
                    assert(crate::parse::int_of(args[3]) == Some(ms));
                    assert(set::spec_set_parse(args) == Some((k, v, e)));
                },
            }
        },
        CommandView::Subcribe(chs) => {
            let elems = fv->Array_0;
            assert(elems[0] == FrameView::Bulk(encode_utf8("subscribe"@)));
            assert(str_of(elems[0]) == Some("subscribe"@));
            assert(!name_is("subscribe"@, "get"@) && !name_is("subscribe"@, "publish"@) && !name_is(
                "subscribe"@,
                "set"@,
            )) by {
                assert(encode_utf8("subscribe"@).len() == 9);
                assert(encode_utf8("get"@).len() == 3);
                assert(encode_utf8("publish"@).len() == 7);
                assert(encode_utf8("set"@).len() == 3);
            }
            assert(name_is("subscribe"@, "subscribe"@));
            let args = elems.drop_first();
            assert(args =~= subscribe::bulk_names(chs));
            assert forall|i: int| 0 <= i < args.len() implies str_of(#[trigger] args[i])
                is Some by {
                assert(args[i] == FrameView::Bulk(encode_utf8(chs[i])));
            }
            assert(subscribe::strs_of(args) == Some(chs)) by {
                assert(Seq::new(args.len(), |i: int| str_of(args[i])->0) =~= chs);
            }
        },
        CommandView::Unsubscribe(chs) => {
            let elems = fv->Array_0;
            assert(str_of(elems[0]) == Some("unsubscribe"@));
            assert(!name_is("unsubscribe"@, "get"@) && !name_is("unsubscribe"@, "publish"@)
                && !name_is("unsubscribe"@, "set"@) && !name_is("unsubscribe"@, "subscribe"@)) by {
                assert(encode_utf8("unsubscribe"@).len() == 11);
                assert(encode_utf8("get"@).len() == 3);
                assert(encode_utf8("publish"@).len() == 7);
                assert(encode_utf8("set"@).len() == 3);
                assert(encode_utf8("subscribe"@).len() == 9);
            }
            assert(name_is("unsubscribe"@, "unsubscribe"@));
            let args = elems.drop_first();
            assert(args =~= subscribe::bulk_names(chs));
            assert forall|i: int| 0 <= i < args.len() implies str_of(#[trigger] args[i])
                is Some by {
                assert(args[i] == FrameView::Bulk(encode_utf8(chs[i])));
            }
            assert(subscribe::strs_of(args) == Some(chs)) by {
                assert(Seq::new(args.len(), |i: int| str_of(args[i])->0) =~= chs);
            }
        },
        CommandView::Ping(m) => {
            let elems = fv->Array_0;
            assert(str_of(elems[0]) == Some("ping"@));
            assert(!name_is("ping"@, "get"@) && !name_is("ping"@, "publish"@) && !name_is(
                "ping"@,
                "set"@,
            ) && !name_is("ping"@, "subscribe"@) && !name_is("ping"@, "unsubscribe"@)) by {
                assert(encode_utf8("ping"@).len() == 4);
                assert(encode_utf8("get"@).len() == 3);
                assert(encode_utf8("publish"@).len() == 7);
                assert(encode_utf8("set"@).len() == 3);
                assert(encode_utf8("subscribe"@).len() == 9);
                assert(encode_utf8("unsubscribe"@).len() == 11);
            }
            assert(name_is("ping"@, "ping"@));
            let args = elems.drop_first();
            match m {
                None => {
                    assert(args.len() == 0);
                },
                Some(mm) => {
                    assert(args.len() == 1);
                    assert(args[0] == FrameView::Bulk(mm));
                },
            }
        },
        CommandView::Unknown(_) => {},
    }
}

} // verus!

//! `SUBSCRIBE` and `UNSUBSCRIBE`: entering pub/sub mode, managing the set
//! of channels one connection listens to, and the acknowledgement and
//! message frames the server emits in that mode.

use vstd::prelude::*;
use vstd::string::StrSliceExecFns;
use vstd::utf8::encode_utf8;

use crate::db::Db;
use crate::frame::{str_eq, Frame, FrameView};
use crate::parse::{str_of, Parse, ParseError};

verus! {

/// Subscribe the connection to one or more channels; the first `SUBSCRIBE`
/// moves the connection into pub/sub mode.
#[derive(Debug)]
pub struct Subscribe {
    channels: Vec<String>,
}

/// Unsubscribe from the given channels, or from every current one when the
/// list is empty.
#[derive(Debug)]
pub struct Unsubscribe {
    channels: Vec<String>,
}

/// The names of a channel list.
pub open spec fn names_of(channels: Seq<String>) -> Seq<Seq<char>> {
    Seq::new(channels.len(), |i: int| channels[i]@)
}

impl View for Subscribe {
    type V = Seq<Seq<char>>;

    closed spec fn view(&self) -> Seq<Seq<char>> {
        names_of(self.channels@)
    }
}

impl View for Unsubscribe {
    type V = Seq<Seq<char>>;

    closed spec fn view(&self) -> Seq<Seq<char>> {
        names_of(self.channels@)
    }
}

/// The strings of a token run, when every token is one.
pub open spec fn strs_of(args: Seq<FrameView>) -> Option<Seq<Seq<char>>> {
    if forall|i: int| 0 <= i < args.len() ==> str_of(#[trigger] args[i]) is Some {
        Some(Seq::new(args.len(), |i: int| str_of(args[i])->0))
    } else {
        None
    }
}

/// Copy of a channel list.
pub fn clone_string_vec(src: &Vec<String>) -> (out: Vec<String>)
    ensures
        out@ == src@,
{
    let n: usize = src.len();
    let mut out: Vec<String> = Vec::new();
    let mut i: usize = 0;
    while i < n
        invariant
            i <= n,
            n == src@.len(),
            out@ == src@.take(i as int),
        decreases n - i,
    {
        out.push(src[i].clone());
        proof {
            assert(src@.take(i + 1) =~= src@.take(i as int).push(src@[i as int]));
        }
        i = i + 1;
    }
    proof {
        assert(src@.take(n as int) =~= src@);
    }
    out
}

/// Read channel strings until the frame runs out; `min_one` demands at
/// least one, as `SUBSCRIBE` does.
fn parse_channels(parse: &mut Parse, min_one: bool) -> (r: Result<Vec<String>, ParseError>)
    ensures
        match r {
            Ok(chs) => strs_of(old(parse)@) == Some(names_of(chs@)) && final(parse)@.len() == 0
                && (min_one ==> old(parse)@.len() >= 1),
            Err(ParseError::EndOfStream) => min_one && old(parse)@.len() == 0 && final(parse)@
                == old(parse)@,
            Err(ParseError::Other(_)) => strs_of(old(parse)@) is None,
        },
{
    let ghost args = parse@;
    let mut channels: Vec<String> = Vec::new();
    if min_one {
        let first = parse.next_string()?;
        proof {
            assert(args.drop_first() =~= args.skip(1));
        }
        channels.push(first);
    }
    loop
        invariant_except_break
            args == old(parse)@,
            0 <= channels@.len() <= args.len(),
            parse@ == args.skip(channels@.len() as int),
            forall|i: int| 0 <= i < channels@.len() ==> str_of(#[trigger] args[i]) == Some(
                channels@[i]@,
            ),
        ensures
            strs_of(args) == Some(names_of(channels@)),
            parse@.len() == 0,
        decreases args.len() - channels@.len(),
    {
        let ghost k = channels@.len() as int;
        match parse.next_string() {
            Ok(s) => {
                proof {
                    assert(args.skip(k)[0] == args[k]);
                    assert(args.skip(k).drop_first() =~= args.skip(k + 1));
                }
                channels.push(s);
            },
            Err(ParseError::EndOfStream) => {
                proof {
                    assert(args.skip(k).len() == 0);
                    assert(strs_of(args) == Some(names_of(channels@))) by {
                        assert(forall|i: int|
                            0 <= i < args.len() ==> str_of(#[trigger] args[i]) is Some);
                        assert(names_of(channels@) =~= Seq::new(
                            args.len(),
                            |i: int| str_of(args[i])->0,
                        ));
                    }
                }
                break;
            },
            Err(e) => {
                proof {
                    assert(args.skip(k).len() > 0);
                    assert(0 <= k < args.len());
                    assert(args.skip(k)[0] == args[k]);
                    assert(str_of(args[k]) is None);
                    assert(strs_of(args) is None);
                }
                return Err(e);
            },
        }
    }
    Ok(channels)
}

impl Subscribe {
    /// A `SUBSCRIBE` to the given channels.
    pub fn new(channels: Vec<String>) -> (s: Subscribe)
        ensures
            s@ == names_of(channels@),
    {
        Subscribe { channels }
    }

    /// Decode the channel list: one or more strings.
    pub fn parse_frames(parse: &mut Parse) -> (r: Result<Subscribe, ParseError>)
        ensures
            match r {
                Ok(s) => strs_of(old(parse)@) == Some(s@) && old(parse)@.len() >= 1 && final(parse)@.len() == 0,
                Err(ParseError::EndOfStream) => old(parse)@.len() == 0 && final(parse)@ == old(parse)@,
                Err(ParseError::Other(_)) => strs_of(old(parse)@) is None,
            },
    {
        let channels = parse_channels(parse, true)?;
        Ok(Subscribe { channels })
    }

    /// Encode as the array frame the client sends.
    pub fn into_frame(self) -> (f: Frame)
        ensures
            f@ == FrameView::Array(
                seq![FrameView::Bulk(encode_utf8("subscribe"@))] + bulk_names(self@),
            ),
    {
        frame_of_channels("subscribe", self.channels)
    }
}

impl Unsubscribe {
    /// An `UNSUBSCRIBE` from the given channels; an empty list means every
    /// currently subscribed channel.
    pub fn new(channels: &Vec<String>) -> (u: Unsubscribe)
        ensures
            u@ == names_of(channels@),
    {
        Unsubscribe { channels: clone_string_vec(channels) }
    }

    /// Decode the channel list: zero or more strings.
    pub fn parse_frames(parse: &mut Parse) -> (r: Result<Unsubscribe, ParseError>)
        ensures
            match r {
                Ok(u) => strs_of(old(parse)@) == Some(u@) && final(parse)@.len() == 0,
                Err(_) => strs_of(old(parse)@) is None,
            },
    {
        let channels = parse_channels(parse, false)?;
        Ok(Unsubscribe { channels })
    }

    /// Encode as the array frame the client sends.
    pub fn into_frame(self) -> (f: Frame)
        ensures
            f@ == FrameView::Array(
                seq![FrameView::Bulk(encode_utf8("unsubscribe"@))] + bulk_names(self@),
            ),
    {
        frame_of_channels("unsubscribe", self.channels)
    }
}

/// Channel names as bulk frames, in order.
pub open spec fn bulk_names(names: Seq<Seq<char>>) -> Seq<FrameView> {
    Seq::new(names.len(), |i: int| FrameView::Bulk(encode_utf8(names[i])))
}

/// The command word followed by each channel name as a bulk frame.
fn frame_of_channels(word: &str, channels: Vec<String>) -> (f: Frame)
    ensures
        f@ == FrameView::Array(
            seq![FrameView::Bulk(encode_utf8(word@))] + bulk_names(names_of(channels@)),
        ),
{
    let ghost chs = channels@;
    let mut frame = Frame::array();
    frame.push_bulk(word.as_bytes_vec());
    let n: usize = channels.len();
    let mut i: usize = 0;
    proof {
        assert(Seq::<FrameView>::empty().push(FrameView::Bulk(encode_utf8(word@))) =~= seq![
            FrameView::Bulk(encode_utf8(word@)),
        ] + bulk_names(names_of(chs.take(0))));
    }
    while i < n
        invariant
            i <= n,
            n == channels@.len(),
            chs == channels@,
            frame@ is Array,
            frame@->Array_0 == seq![FrameView::Bulk(encode_utf8(word@))] + bulk_names(
                names_of(chs.take(i as int)),
            ),
        decreases n - i,
    {
        frame.push_bulk(channels[i].as_str().as_bytes_vec());
        proof {
            assert(chs.take(i + 1) =~= chs.take(i as int).push(chs[i as int]));
            assert((seq![FrameView::Bulk(encode_utf8(word@))] + bulk_names(
                names_of(chs.take(i as int)),
            )).push(FrameView::Bulk(encode_utf8(chs[i as int]@))) =~= seq![
                FrameView::Bulk(encode_utf8(word@)),
            ] + bulk_names(names_of(chs.take(i + 1))));
        }
        i = i + 1;
    }
    proof {
        assert(chs.take(n as int) =~= chs);
    }
    frame
}

} // verus!

verus! {

/// An acknowledgement or message frame: the word, the channel, and either
/// a count or a payload.
pub open spec fn ack_view(word: Seq<char>, ch: Seq<char>, n: u64) -> FrameView {
    FrameView::Array(
        seq![
            FrameView::Bulk(encode_utf8(word)),
            FrameView::Bulk(encode_utf8(ch)),
            FrameView::Integer(n),
        ],
    )
}

/// The frame carrying one forwarded message.
pub open spec fn message_view(ch: Seq<char>, msg: Seq<u8>) -> FrameView {
    FrameView::Array(
        seq![
            FrameView::Bulk(encode_utf8("message"@)),
            FrameView::Bulk(encode_utf8(ch)),
            FrameView::Bulk(msg),
        ],
    )
}

/// The reply to a subscription: `["subscribe", channel, count]`.
pub fn make_subscribe_frame(channel_name: String, num_subs: usize) -> (f: Frame)
    ensures
        f@ == ack_view("subscribe"@, channel_name@, num_subs as u64),
{
    let ghost ch = channel_name@;
    let mut response = Frame::array();
    response.push_bulk(("subscribe").as_bytes_vec());
    response.push_bulk(channel_name.as_str().as_bytes_vec());
    response.push_int(num_subs as u64);
    proof {
        assert(Seq::<FrameView>::empty().push(FrameView::Bulk(encode_utf8("subscribe"@))).push(
            FrameView::Bulk(encode_utf8(ch)),
        ).push(FrameView::Integer(num_subs as u64)) =~= ack_view(
            "subscribe"@,
            ch,
            num_subs as u64,
        )->Array_0);
    }
    response
}

/// The reply to an unsubscription: `["unsubscribe", channel, count]`.
pub fn make_unsubscribe_frame(channel_name: String, num_subs: usize) -> (f: Frame)
    ensures
        f@ == ack_view("unsubscribe"@, channel_name@, num_subs as u64),
{
    let ghost ch = channel_name@;
    let mut response = Frame::array();
    response.push_bulk(("unsubscribe").as_bytes_vec());
    response.push_bulk(channel_name.as_str().as_bytes_vec());
    response.push_int(num_subs as u64);
    proof {
        assert(Seq::<FrameView>::empty().push(FrameView::Bulk(encode_utf8("unsubscribe"@))).push(
            FrameView::Bulk(encode_utf8(ch)),
        ).push(FrameView::Integer(num_subs as u64)) =~= ack_view(
            "unsubscribe"@,
            ch,
            num_subs as u64,
        )->Array_0);
    }
    response
}

/// The frame forwarding one message from a subscribed channel.
pub fn make_message_frame(channel_name: String, msg: Vec<u8>) -> (f: Frame)
    ensures
        f@ == message_view(channel_name@, msg@),
{
    let ghost ch = channel_name@;
    let ghost m = msg@;
    let mut response = Frame::array();
    response.push_bulk(("message").as_bytes_vec());
    response.push_bulk(channel_name.as_str().as_bytes_vec());
    response.push_bulk(msg);
    proof {
        assert(Seq::<FrameView>::empty().push(FrameView::Bulk(encode_utf8("message"@))).push(
            FrameView::Bulk(encode_utf8(ch)),
        ).push(FrameView::Bulk(m)) =~= message_view(ch, m)->Array_0);
    }
    response
}

/// Removal of the first occurrence of a channel from a subscription list.
pub open spec fn remove_channel(s: Seq<Seq<char>>, ch: Seq<char>) -> Seq<Seq<char>>
    decreases s.len(),
{
    if s.len() == 0 {
        s
    } else if s[0] == ch {
        s.drop_first()
    } else {
        seq![s[0]] + remove_channel(s.drop_first(), ch)
    }
}

/// Processing a run of unsubscriptions: for each target, in order, the
/// channel leaves the subscription list (if present) and one
/// acknowledgement carries the count that remains.
pub open spec fn apply_unsubs(s: Seq<Seq<char>>, targets: Seq<Seq<char>>) -> (
    Seq<Seq<char>>,
    Seq<FrameView>,
)
    decreases targets.len(),
{
    if targets.len() == 0 {
        (s, Seq::empty())
    } else {
        let s1 = remove_channel(s, targets[0]);
        let rest = apply_unsubs(s1, targets.drop_first());
        (rest.0, seq![ack_view("unsubscribe"@, targets[0], s1.len() as u64)] + rest.1)
    }
}

} // verus!

verus! {

/// Removing the first occurrence found at `j` is removing index `j`.
proof fn lemma_remove_channel_at(s: Seq<Seq<char>>, ch: Seq<char>, j: int)
    requires
        0 <= j < s.len(),
        s[j] == ch,
        forall|i: int| 0 <= i < j ==> s[i] != ch,
    ensures
        remove_channel(s, ch) == s.remove(j),
    decreases j,
{
    if j == 0 {
        assert(remove_channel(s, ch) =~= s.remove(0));
    } else {
        assert(s[0] != ch);
        let d = s.drop_first();
        assert(forall|i: int| 0 <= i < j - 1 ==> #[trigger] d[i] == s[i + 1]);
        lemma_remove_channel_at(d, ch, j - 1);
        assert(seq![s[0]] + d.remove(j - 1) =~= s.remove(j));
    }
}

/// A channel not in the list leaves it unchanged.
proof fn lemma_remove_channel_absent(s: Seq<Seq<char>>, ch: Seq<char>)
    requires
        forall|i: int| 0 <= i < s.len() ==> s[i] != ch,
    ensures
        remove_channel(s, ch) == s,
    decreases s.len(),
{
    if s.len() > 0 {
        assert(s[0] != ch);
        let d = s.drop_first();
        assert(forall|i: int| 0 <= i < d.len() ==> #[trigger] d[i] == s[i + 1]);
        lemma_remove_channel_absent(d, ch);
        assert(seq![s[0]] + d =~= s);
    }
}

/// The server-side picture of one connection in pub/sub mode: the channels
/// whose messages it currently receives, in subscription order, and those
/// requested but not yet attached.
pub struct PubSubState {
    subscribed: Vec<String>,
    pending: Vec<String>,
}

impl View for PubSubState {
    type V = (Seq<Seq<char>>, Seq<Seq<char>>);

    closed spec fn view(&self) -> (Seq<Seq<char>>, Seq<Seq<char>>) {
        (names_of(self.subscribed@), names_of(self.pending@))
    }
}

impl PubSubState {
    /// Enter pub/sub mode: nothing attached yet, the initial channels
    /// pending.
    pub fn new(init: Subscribe) -> (ps: PubSubState)
        ensures
            ps@.0 == Seq::<Seq<char>>::empty(),
            ps@.1 == init@,
    {
        let ps = PubSubState { subscribed: Vec::new(), pending: init.channels };
        proof {
            assert(names_of(ps.subscribed@) =~= Seq::<Seq<char>>::empty());
        }
        ps
    }

    /// The channels currently subscribed, in subscription order.
    pub fn subscribed(&self) -> (s: &Vec<String>)
        ensures
            names_of(s@) == self@.0,
    {
        &self.subscribed
    }

    /// Take the next channel awaiting attachment, if any.
    pub fn next_pending(&mut self) -> (r: Option<String>)
        ensures
            final(self)@.0 == old(self)@.0,
            match r {
                Some(ch) => old(self)@.1.len() > 0 && ch@ == old(self)@.1[0] && final(self)@.1
                    == old(self)@.1.drop_first(),
                None => old(self)@.1.len() == 0 && final(self)@.1 == old(self)@.1,
            },
    {
        if self.pending.len() == 0 {
            return None;
        }
        let ghost prior = self.pending@;
        let ch = self.pending.remove(0);
        proof {
            assert(names_of(prior.remove(0)) =~= names_of(prior).drop_first());
        }
        Some(ch)
    }

    /// Attach one channel: a receiver comes from the store (creating the
    /// broadcast endpoint if needed), the channel joins the subscription
    /// list unless already on it, and the acknowledgement carries the new
    /// count.
    pub fn subscribe_to_channel(&mut self, db: &mut Db, name: String) -> (r: (
        tokio::sync::broadcast::Receiver<Vec<u8>>,
        Frame,
    ))
        requires
            old(db).wf(),
        ensures
            final(db).wf(),
            final(db)@ == (crate::db::DbView {
                channels: old(db)@.channels.insert(name@),
                ..old(db)@
            }),
            final(self)@.1 == old(self)@.1,
            final(self)@.0 == (if old(self)@.0.contains(name@) {
                old(self)@.0
            } else {
                old(self)@.0.push(name@)
            }),
            r.1@ == ack_view("subscribe"@, name@, final(self)@.0.len() as u64),
    {
        let rx = db.subscribe(name.clone());
        let n: usize = self.subscribed.len();
        let mut i: usize = 0;
        let mut present: bool = false;
        while i < n
            invariant
                i <= n,
                n == self.subscribed@.len(),
                present ==> self@.0.contains(name@),
                !present ==> forall|j: int| 0 <= j < i ==> names_of(self.subscribed@)[j] != name@,
            decreases n - i,
    {
            if str_eq(self.subscribed[i].as_str(), name.as_str()) {
                present = true;
                proof {
                    assert(names_of(self.subscribed@)[i as int] == name@);
                }
            }
            i = i + 1;
        }
        if !present {
            let ghost prior = self.subscribed@;
            self.subscribed.push(name.clone());
            proof {
                assert(names_of(self.subscribed@) =~= names_of(prior).push(name@));
            }
        }
        let ack = make_subscribe_frame(name, self.subscribed.len());
        (rx, ack)
    }
}

} // verus!

verus! {

impl PubSubState {
    /// Handle one frame received while in pub/sub mode. Only `SUBSCRIBE`
    /// and `UNSUBSCRIBE` act: new subscriptions are queued for attachment;
    /// unsubscriptions leave the subscription list and yield one
    /// acknowledgement each — an empty list means every current channel.
    /// Any other command draws an error reply and the connection stays in
    /// pub/sub mode. The returned frames are written in order; the
    /// returned channel names are detached by the caller.
    #[verifier::rlimit(30)]
    pub fn handle_command(&mut self, frame: Frame) -> (r: Result<(Vec<Frame>, Vec<String>), ParseError>)
        ensures
            match r {
                Ok(out) => match crate::cmd::spec_from_frame(frame@) {
                    Some(crate::cmd::CommandView::Subcribe(chs)) => final(self)@.0 == old(self)@.0
                        && final(self)@.1 == old(self)@.1 + chs && out.0@.len() == 0
                        && out.1@.len() == 0,
                    Some(crate::cmd::CommandView::Unsubscribe(chs)) => ({
                        let targets = if chs.len() == 0 {
                            old(self)@.0
                        } else {
                            chs
                        };
                        &&& final(self)@.0 == apply_unsubs(old(self)@.0, targets).0
                        &&& final(self)@.1 == old(self)@.1
                        &&& crate::frame::views_of_seq(out.0@) == apply_unsubs(
                            old(self)@.0,
                            targets,
                        ).1
                        &&& names_of(out.1@) == targets
                    }),
                    Some(cv) => final(self)@ == old(self)@ && out.1@.len() == 0
                        && crate::frame::views_of_seq(out.0@) == seq![
                        FrameView::Error(
                            "ERR unknown command '"@ + crate::cmd::spec_name(cv) + "'"@,
                        ),
                    ],
                    None => false,
                },
                Err(_) => crate::cmd::spec_from_frame(frame@) is None,
            },
    {
        match crate::cmd::Command::from_frame(frame)? {
            crate::cmd::Command::Subcribe(sub) => {
                let ghost pend0 = self.pending@;
                let mut incoming = sub.channels;
                let ghost inc = incoming@;
                self.pending.append(&mut incoming);
                proof {
                    assert(names_of(pend0 + inc) =~= names_of(pend0) + names_of(inc));
                }
                Ok((Vec::new(), Vec::new()))
            },
            crate::cmd::Command::Unsubscribe(unsub) => {
                let mut targets = unsub.channels;
                if targets.len() == 0 {
                    targets = clone_string_vec(&self.subscribed);
                }
                let ghost s0 = names_of(self.subscribed@);
                let ghost tv = names_of(targets@);
                let goal = Ghost(apply_unsubs(s0, tv));
                let n: usize = targets.len();
                let mut acks: Vec<Frame> = Vec::new();
                let mut removed: Vec<String> = Vec::new();
                let mut k: usize = 0;
                proof {
                    assert(tv.skip(0) =~= tv);
                    assert(crate::frame::views_of_seq(acks@) + apply_unsubs(
                        names_of(self.subscribed@),
                        tv.skip(0),
                    ).1 =~= apply_unsubs(s0, tv).1);
                }
                while k < n
                    invariant
                        k <= n,
                        n == targets@.len(),
                        tv == names_of(targets@),
                        goal@ == apply_unsubs(s0, tv),
                        self@.1 == old(self)@.1,
                        acks@.len() == k,
                        removed@ == targets@.take(k as int),
                        goal@.0 == apply_unsubs(names_of(self.subscribed@), tv.skip(k as int)).0,
                        goal@.1 == crate::frame::views_of_seq(acks@) + apply_unsubs(
                            names_of(self.subscribed@),
                            tv.skip(k as int),
                        ).1,
                    decreases n - k,
                {
                    let ghost scur = names_of(self.subscribed@);
                    let ch = targets[k].clone();
                    // drop the first matching subscription, if any
                    let m: usize = self.subscribed.len();
                    let mut j: usize = 0;
                    let mut found: bool = false;
                    while j < m && !found
                        invariant
                            j <= m,
                            m == self.subscribed@.len(),
                            scur == names_of(self.subscribed@),
                            0 <= k < tv.len(),
                            ch@ == tv[k as int],
                            !found ==> forall|t: int| 0 <= t < j ==> scur[t] != ch@,
                            found ==> j < m && scur[j as int] == ch@ && (forall|t: int|
                                0 <= t < j ==> scur[t] != ch@),
                        decreases m - j + (if found { 0int } else { 1int }),
                    {
                        if str_eq(self.subscribed[j].as_str(), ch.as_str()) {
                            found = true;
                            proof {
                                assert(scur[j as int] == ch@);
                            }
                        } else {
                            j = j + 1;
                        }
                    }
                    proof {
                        if found {
                            lemma_remove_channel_at(scur, ch@, j as int);
                        } else {
                            lemma_remove_channel_absent(scur, ch@);
                        }
                    }
                    if found {
                        let ghost prior = self.subscribed@;
                        self.subscribed.remove(j);
                        proof {
                            assert(names_of(prior.remove(j as int)) =~= names_of(prior).remove(
                                j as int,
                            ));
                        }
                    }
                    proof {
                        assert(names_of(self.subscribed@) == remove_channel(scur, ch@));
                    }
                    let ack = make_unsubscribe_frame(ch.clone(), self.subscribed.len());
                    let ghost acks0 = acks@;
                    acks.push(ack);
                    removed.push(ch);
                    proof {
                        let s1 = names_of(self.subscribed@);
                        assert(tv.skip(k as int)[0] == tv[k as int]);
                        assert(tv.skip(k as int).drop_first() =~= tv.skip(k + 1));
                        assert(s1.len() == self.subscribed@.len());
                        assert(crate::frame::views_of_seq(acks@) =~= crate::frame::views_of_seq(
                            acks0,
                        ).push(ack@));
                        let tail = apply_unsubs(s1, tv.skip(k + 1)).1;
                        assert(crate::frame::views_of_seq(acks0) + (seq![
                            ack_view("unsubscribe"@, tv[k as int], s1.len() as u64),
                        ] + tail) =~= crate::frame::views_of_seq(acks@) + tail);
                        assert(removed@ =~= targets@.take(k + 1));
                    }
                    k = k + 1;
                }
                proof {
                    assert(tv.skip(n as int).len() == 0);
                    assert(apply_unsubs(names_of(self.subscribed@), tv.skip(n as int)).0
                        == names_of(self.subscribed@));
                    assert(apply_unsubs(names_of(self.subscribed@), tv.skip(n as int)).1
                        =~= Seq::<FrameView>::empty());
                    assert(crate::frame::views_of_seq(acks@) + Seq::<FrameView>::empty()
                        =~= crate::frame::views_of_seq(acks@));
                    assert(removed@ =~= targets@);
                }
                Ok((acks, removed))
            },
            other => {
                let name = crate::cmd::Command::get_name(&other);
                let cmd = crate::cmd::Unknown::new(name);
                let f = cmd.apply();
                let ghost fv2 = f@;
                let mut replies: Vec<Frame> = Vec::new();
                replies.push(f);
                proof {
                    assert(crate::frame::views_of_seq(replies@) =~= seq![fv2]);
                }
                Ok((replies, Vec::new()))
            },
        }
    }
}

/// Law: `UNSUBSCRIBE` with no arguments removes every current
/// subscription — the subscription list empties — and emits one
/// acknowledgement per removed channel, each carrying the count that
/// remains after it.
pub proof fn lemma_unsubscribe_all(s: Seq<Seq<char>>)
    ensures
        apply_unsubs(s, s).0 == Seq::<Seq<char>>::empty(),
        apply_unsubs(s, s).1.len() == s.len(),
        forall|i: int|
            0 <= i < s.len() ==> apply_unsubs(s, s).1[i] == ack_view(
                "unsubscribe"@,
                s[i],
                (s.len() - 1 - i) as u64,
            ),
    decreases s.len(),
{
    if s.len() == 0 {
        assert(apply_unsubs(s, s).0 =~= Seq::<Seq<char>>::empty());
    } else {
        let d = s.drop_first();
        lemma_remove_channel_at(s, s[0], 0);
        assert(remove_channel(s, s[0]) =~= d);
        lemma_unsubscribe_all(d);
        assert(apply_unsubs(s, s).1 == seq![
            ack_view("unsubscribe"@, s[0], d.len() as u64),
        ] + apply_unsubs(d, d).1);
        assert forall|i: int| 0 <= i < s.len() implies apply_unsubs(s, s).1[i] == ack_view(
            "unsubscribe"@,
            s[i],
            (s.len() - 1 - i) as u64,
        ) by {
            if i > 0 {
                assert(apply_unsubs(s, s).1[i] == apply_unsubs(d, d).1[i - 1]);
                assert(d[i - 1] == s[i]);
            }
        }
    }
}

} // verus!

//! The shared server state: the key-space with per-entry expiry, the
//! expiration index that the purge worker walks in order, the pub/sub
//! registry of broadcast senders, and the shutdown flag. One [`Db`] value is
//! the state a server guards with its mutex; every operation here is a
//! short critical section over plain data.

use vstd::prelude::*;

use tokio::sync::broadcast;

use crate::frame::str_eq;

verus! {

broadcast use vstd::std_specs::vec::group_vec_axioms, vstd::seq::group_seq_axioms;

/// Capacity of each channel's broadcast buffer; consumers that lag further
/// than this may drop missed messages and continue.
pub const BROADCAST_CAPACITY: usize = 1024;

#[verifier::external_type_specification]
#[verifier::external_body]
#[verifier::reject_recursive_types(T)]
pub struct ExSender<T>(broadcast::Sender<T>);

#[verifier::external_type_specification]
#[verifier::external_body]
#[verifier::reject_recursive_types(T)]
pub struct ExReceiver<T>(broadcast::Receiver<T>);

#[verifier::external_type_specification]
#[verifier::external_body]
#[verifier::reject_recursive_types(T)]
pub struct ExSendError<T>(broadcast::error::SendError<T>);

/// Relies on `tokio::sync::broadcast::channel`: creates a sender/receiver
/// pair with the given buffer capacity. The channel's runtime behaviour is
/// outside the logic; nothing further is assumed of the pair.
#[verifier::external_body]
fn broadcast_channel(capacity: usize) -> (broadcast::Sender<Vec<u8>>, broadcast::Receiver<Vec<u8>>)
    requires
        1 <= capacity <= usize::MAX / 2,
{
    broadcast::channel(capacity)
}

/// Relies on `tokio::sync::broadcast::Sender::subscribe`: attaches a new
/// consumer to this sender's channel.
#[verifier::external_body]
fn broadcast_subscribe(tx: &broadcast::Sender<Vec<u8>>) -> broadcast::Receiver<Vec<u8>> {
    tx.subscribe()
}

/// Relies on `tokio::sync::broadcast::Sender::send`: `Ok(n)` reports the
/// positive number of active receivers at send time; `Err` returns the
/// value when there are none. Which of the two comes back depends on the
/// receivers alive at runtime.
#[verifier::external_body]
fn broadcast_send(tx: &broadcast::Sender<Vec<u8>>, value: Vec<u8>) -> (r: Result<
    usize,
    broadcast::error::SendError<Vec<u8>>,
>)
    ensures
        r is Ok ==> r->Ok_0 >= 1,
{
    tx.send(value)
}

/// A stored value and the instant, in milliseconds, at which it expires.
/// Replacement produces a new entry; entries are never edited in place.
pub struct Entry {
    pub data: Vec<u8>,
    pub expires_at: Option<u64>,
}

/// The mathematical value of an [`Entry`].
pub struct EntryView {
    pub data: Seq<u8>,
    pub expires_at: Option<u64>,
}

impl View for Entry {
    type V = EntryView;

    open spec fn view(&self) -> EntryView {
        EntryView { data: self.data@, expires_at: self.expires_at }
    }
}

/// The shared state: key-space, pub/sub registry, expiration index ordered
/// by instant, and the shutdown flag for the purge worker.
pub struct Db {
    entries: Vec<(String, Entry)>,
    pub_sub: Vec<(String, broadcast::Sender<Vec<u8>>)>,
    expirations: Vec<(u64, String)>,
    shutdown: bool,
}

/// The mathematical value of a [`Db`]: the key-space as a map, the registry
/// as the set of channel names with a broadcast endpoint, and the
/// expiration index as the ordered sequence of `(instant, key)` pairs.
pub struct DbView {
    pub entries: Map<Seq<char>, EntryView>,
    pub channels: Set<Seq<char>>,
    pub expirations: Seq<(u64, Seq<char>)>,
    pub shutdown: bool,
}

impl DbView {
    /// The instant of the next entry due to expire, if any.
    pub open spec fn next_expiration(self) -> Option<u64> {
        if self.expirations.len() == 0 {
            None
        } else {
            Some(self.expirations[0].0)
        }
    }
}

/// The key-space of an association list, later pairs shadowing earlier
/// ones; with distinct keys, the order does not matter.
pub open spec fn keys_map(s: Seq<(String, Entry)>) -> Map<Seq<char>, EntryView>
    decreases s.len(),
{
    if s.len() == 0 {
        Map::empty()
    } else {
        keys_map(s.drop_last()).insert(s.last().0@, s.last().1@)
    }
}

/// The set of channel names of the registry.
pub open spec fn channel_set(s: Seq<(String, broadcast::Sender<Vec<u8>>)>) -> Set<Seq<char>>
    decreases s.len(),
{
    if s.len() == 0 {
        Set::empty()
    } else {
        channel_set(s.drop_last()).insert(s.last().0@)
    }
}

/// The view of the expiration index.
pub open spec fn index_view(x: Seq<(u64, String)>) -> Seq<(u64, Seq<char>)> {
    x.map_values(|p: (u64, String)| (p.0, p.1@))
}

pub open spec fn distinct_entry_keys(s: Seq<(String, Entry)>) -> bool {
    forall|i: int, j: int|
        0 <= i < j < s.len() ==> (#[trigger] s[i]).0@ != (#[trigger] s[j]).0@
}

pub open spec fn distinct_channel_keys(s: Seq<(String, broadcast::Sender<Vec<u8>>)>) -> bool {
    forall|i: int, j: int|
        0 <= i < j < s.len() ==> (#[trigger] s[i]).0@ != (#[trigger] s[j]).0@
}

pub open spec fn distinct_index_keys(x: Seq<(u64, String)>) -> bool {
    forall|i: int, j: int|
        0 <= i < j < x.len() ==> (#[trigger] x[i]).1@ != (#[trigger] x[j]).1@
}

pub open spec fn index_sorted(x: Seq<(u64, String)>) -> bool {
    forall|i: int, j: int| 0 <= i < j < x.len() ==> (#[trigger] x[i]).0 <= (#[trigger] x[j]).0
}

/// Every index pair points at a live entry that expires at that instant.
pub open spec fn index_sound(em: Map<Seq<char>, EntryView>, x: Seq<(u64, String)>) -> bool {
    forall|j: int|
        0 <= j < x.len() ==> em.dom().contains((#[trigger] x[j]).1@) && em[x[j].1@].expires_at
            == Some(x[j].0)
}

/// Every entry with an expiry instant has an index pair for it.
pub open spec fn index_complete(em: Map<Seq<char>, EntryView>, x: Seq<(u64, String)>) -> bool {
    forall|k: Seq<char>|
        #[trigger] em.dom().contains(k) && em[k].expires_at is Some ==> exists|j: int|
            0 <= j < x.len() && (#[trigger] x[j]).0 == em[k].expires_at->0 && x[j].1@ == k
}

impl View for Db {
    type V = DbView;

    closed spec fn view(&self) -> DbView {
        DbView {
            entries: keys_map(self.entries@),
            channels: channel_set(self.pub_sub@),
            expirations: index_view(self.expirations@),
            shutdown: self.shutdown,
        }
    }
}

impl Db {
    /// Well-formedness: keys are unique everywhere; the index is ordered by
    /// instant; every entry with `expires_at = Some(t)` appears in the
    /// index as `(t, key)` exactly once, and no index pair references any
    /// other key.
    pub closed spec fn wf(&self) -> bool {
        &&& distinct_entry_keys(self.entries@)
        &&& distinct_channel_keys(self.pub_sub@)
        &&& distinct_index_keys(self.expirations@)
        &&& index_sorted(self.expirations@)
        &&& index_sound(keys_map(self.entries@), self.expirations@)
        &&& index_complete(keys_map(self.entries@), self.expirations@)
    }
}

/// With distinct keys, the pair at `i` is what the key-space maps its key
/// to.
proof fn lemma_keys_map_at(s: Seq<(String, Entry)>, i: int)
    requires
        distinct_entry_keys(s),
        0 <= i < s.len(),
    ensures
        keys_map(s).dom().contains(s[i].0@),
        keys_map(s)[s[i].0@] == s[i].1@,
    decreases s.len(),
{
    if i == s.len() - 1 {
    } else {
        assert(s.drop_last()[i] == s[i]);
        lemma_keys_map_at(s.drop_last(), i);
        assert(s[i].0@ != s.last().0@);
    }
}

/// A key no pair carries is not in the key-space.
proof fn lemma_keys_map_absent(s: Seq<(String, Entry)>, k: Seq<char>)
    requires
        forall|i: int| 0 <= i < s.len() ==> (#[trigger] s[i]).0@ != k,
    ensures
        !keys_map(s).dom().contains(k),
    decreases s.len(),
{
    if s.len() > 0 {
        assert(forall|i: int|
            0 <= i < s.drop_last().len() ==> (#[trigger] s.drop_last()[i]).0@ != k);
        lemma_keys_map_absent(s.drop_last(), k);
        assert(s.last().0@ != k);
    }
}

/// Membership in the key-space means some pair carries the key.
proof fn lemma_keys_map_member(s: Seq<(String, Entry)>, k: Seq<char>)
    requires
        keys_map(s).dom().contains(k),
    ensures
        exists|i: int| 0 <= i < s.len() && (#[trigger] s[i]).0@ == k,
    decreases s.len(),
{
    if s.len() > 0 {
        if s.last().0@ == k {
            assert(s[s.len() - 1].0@ == k);
        } else {
            lemma_keys_map_member(s.drop_last(), k);
            let i = choose|i: int| 0 <= i < s.drop_last().len() && (#[trigger] s.drop_last()[i]).0@ == k;
            assert(s[i].0@ == k);
        }
    }
}

/// Replacing the pair at `i` by one with the same key updates the
/// key-space at that key.
proof fn lemma_keys_map_update(s: Seq<(String, Entry)>, i: int, p: (String, Entry))
    requires
        distinct_entry_keys(s),
        0 <= i < s.len(),
        p.0@ == s[i].0@,
    ensures
        keys_map(s.update(i, p)) =~= keys_map(s).insert(p.0@, p.1@),
    decreases s.len(),
{
    if i == s.len() - 1 {
        assert(s.update(i, p).drop_last() =~= s.drop_last());
        assert(s.update(i, p).last() == p);
    } else {
        assert(s.update(i, p).drop_last() =~= s.drop_last().update(i, p));
        assert(s.drop_last()[i] == s[i]);
        lemma_keys_map_update(s.drop_last(), i, p);
        assert(s.update(i, p).last() == s.last());
        assert(s.last().0@ != p.0@);
        assert(keys_map(s.drop_last()).insert(p.0@, p.1@).insert(s.last().0@, s.last().1@)
            =~= keys_map(s.drop_last()).insert(s.last().0@, s.last().1@).insert(p.0@, p.1@));
    }
}

/// Appending a pair with a fresh key inserts it into the key-space.
proof fn lemma_keys_map_push(s: Seq<(String, Entry)>, p: (String, Entry))
    ensures
        keys_map(s.push(p)) =~= keys_map(s).insert(p.0@, p.1@),
{
    assert(s.push(p).drop_last() =~= s);
    assert(s.push(p).last() == p);
}

/// Removing the pair at `i` removes its key from the key-space.
proof fn lemma_keys_map_remove(s: Seq<(String, Entry)>, i: int)
    requires
        distinct_entry_keys(s),
        0 <= i < s.len(),
    ensures
        keys_map(s.remove(i)) =~= keys_map(s).remove(s[i].0@),
    decreases s.len(),
{
    if i == s.len() - 1 {
        assert(s.remove(i) =~= s.drop_last());
        lemma_keys_map_absent_of_distinct(s, i);
    } else {
        assert(s.remove(i).drop_last() =~= s.drop_last().remove(i));
        assert(s.drop_last()[i] == s[i]);
        lemma_keys_map_remove(s.drop_last(), i);
        assert(s.remove(i).last() == s.last());
        assert(s.last().0@ != s[i].0@);
        assert(keys_map(s.drop_last()).remove(s[i].0@).insert(s.last().0@, s.last().1@)
            =~= keys_map(s.drop_last()).insert(s.last().0@, s.last().1@).remove(s[i].0@));
    }
}

/// With distinct keys, a key occurs in no pair but its own; dropping that
/// pair leaves the key out of the key-space.
proof fn lemma_keys_map_absent_of_distinct(s: Seq<(String, Entry)>, i: int)
    requires
        distinct_entry_keys(s),
        0 <= i < s.len(),
        i == s.len() - 1,
    ensures
        !keys_map(s.drop_last()).dom().contains(s[i].0@),
{
    assert(forall|j: int|
        0 <= j < s.drop_last().len() ==> (#[trigger] s.drop_last()[j]).0@ != s[i].0@);
    lemma_keys_map_absent(s.drop_last(), s[i].0@);
}

/// Channel-set analogues.
proof fn lemma_channel_set_at(s: Seq<(String, broadcast::Sender<Vec<u8>>)>, i: int)
    requires
        0 <= i < s.len(),
    ensures
        channel_set(s).contains(s[i].0@),
    decreases s.len(),
{
    if i < s.len() - 1 {
        assert(s.drop_last()[i] == s[i]);
        lemma_channel_set_at(s.drop_last(), i);
    }
}

proof fn lemma_channel_set_push(s: Seq<(String, broadcast::Sender<Vec<u8>>)>, p: (
    String,
    broadcast::Sender<Vec<u8>>,
))
    ensures
        channel_set(s.push(p)) =~= channel_set(s).insert(p.0@),
{
    assert(s.push(p).drop_last() =~= s);
    assert(s.push(p).last() == p);
}

} // verus!

verus! {

/// Whether a `SET` must wake the purge worker: exactly when it gives the
/// store a new earliest expiry.
pub open spec fn spec_notify(db: DbView, expires_at: Option<u64>) -> bool {
    match expires_at {
        Some(w) => match db.next_expiration() {
            Some(e) => e > w,
            None => true,
        },
        None => false,
    }
}

impl Db {
    /// A fresh, empty state: no keys, no channels, no pending expirations,
    /// not shut down.
    pub fn new() -> (db: Db)
        ensures
            db.wf(),
            db@.entries == Map::<Seq<char>, EntryView>::empty(),
            db@.channels == Set::<Seq<char>>::empty(),
            db@.expirations == Seq::<(u64, Seq<char>)>::empty(),
            !db@.shutdown,
    {
        let db = Db {
            entries: Vec::new(),
            pub_sub: Vec::new(),
            expirations: Vec::new(),
            shutdown: false,
        };
        proof {
            assert(db@.expirations =~= Seq::<(u64, Seq<char>)>::empty());
        }
        db
    }

    /// The value stored under `key`, if any. Expiry is not checked here: a
    /// value whose instant has passed is still returned until the purge
    /// worker removes it.
    #[verifier::loop_isolation(false)]
    pub fn get(&self, key: &str) -> (r: Option<Vec<u8>>)
        requires
            self.wf(),
        ensures
            match r {
                Some(v) => self@.entries.dom().contains(key@) && v@ == self@.entries[key@].data,
                None => !self@.entries.dom().contains(key@),
            },
    {
        let n: usize = self.entries.len();
        let mut i: usize = 0;
        while i < n
            invariant
                i <= n,
                n == self.entries@.len(),
                forall|j: int| 0 <= j < i ==> (#[trigger] self.entries@[j]).0@ != key@,
            decreases n - i,
        {
            if str_eq(self.entries[i].0.as_str(), key) {
                proof {
                    lemma_keys_map_at(self.entries@, i as int);
                }
                let data = &self.entries[i].1.data;
                let out = crate::frame::copy_range(data.as_slice(), 0, data.len());
                proof {
                    assert(out@ =~= data@);
                }
                return Some(out);
            }
            i = i + 1;
        }
        proof {
            lemma_keys_map_absent(self.entries@, key@);
        }
        None
    }

    /// Whether the state has been marked shut down.
    pub fn is_shutdown(&self) -> (r: bool)
        ensures
            r == self@.shutdown,
    {
        self.shutdown
    }

    /// Mark the state shut down, so the purge worker exits on its next
    /// wake. The caller notifies the worker after releasing the lock.
    pub fn shutdown_purge_task(&mut self)
        requires
            old(self).wf(),
        ensures
            final(self).wf(),
            final(self)@ == (DbView { shutdown: true, ..old(self)@ }),
    {
        self.shutdown = true;
    }

    /// The instant of the next expiration, if any entry has one.
    pub fn next_expiration(&self) -> (r: Option<u64>)
        ensures
            r == self@.next_expiration(),
    {
        if self.expirations.len() == 0 {
            None
        } else {
            Some(self.expirations[0].0)
        }
    }

    /// A consumer endpoint for `key`'s channel, creating the broadcast
    /// sender if the channel has none yet.
    #[verifier::loop_isolation(false)]
    pub fn subscribe(&mut self, key: String) -> (rx: broadcast::Receiver<Vec<u8>>)
        requires
            old(self).wf(),
        ensures
            final(self).wf(),
            final(self)@ == (DbView { channels: old(self)@.channels.insert(key@), ..old(self)@ }),
    {
        let n: usize = self.pub_sub.len();
        let mut i: usize = 0;
        while i < n
            invariant
                i <= n,
                n == self.pub_sub@.len(),
                forall|j: int| 0 <= j < i ==> (#[trigger] self.pub_sub@[j]).0@ != key@,
            decreases n - i,
        {
            if str_eq(self.pub_sub[i].0.as_str(), key.as_str()) {
                proof {
                    lemma_channel_set_at(self.pub_sub@, i as int);
                    assert(old(self)@.channels.insert(key@) =~= old(self)@.channels);
                }
                return broadcast_subscribe(&self.pub_sub[i].1);
            }
            i = i + 1;
        }
        let (tx, rx) = broadcast_channel(BROADCAST_CAPACITY);
        let ghost prior = self.pub_sub@;
        self.pub_sub.push((key, tx));
        proof {
            lemma_channel_set_push(prior, self.pub_sub@.last());
            assert(forall|i: int, j: int|
                0 <= i < j < self.pub_sub@.len() ==> (#[trigger] self.pub_sub@[i]).0@ != (
                #[trigger] self.pub_sub@[j]).0@);
        }
        rx
    }

    /// Send `value` to every current subscriber of `key`'s channel,
    /// returning the number of receivers the broadcast endpoint reported
    /// delivery to, or 0 when the channel has no endpoint or no
    /// subscribers.
    #[verifier::loop_isolation(false)]
    pub fn publish(&self, key: &str, value: Vec<u8>) -> (n: usize)
        requires
            self.wf(),
        ensures
            !self@.channels.contains(key@) ==> n == 0,
    {
        let m: usize = self.pub_sub.len();
        let mut i: usize = 0;
        while i < m
            invariant
                i <= m,
                m == self.pub_sub@.len(),
            decreases m - i,
        {
            if str_eq(self.pub_sub[i].0.as_str(), key) {
                proof {
                    lemma_channel_set_at(self.pub_sub@, i as int);
                }
                return match broadcast_send(&self.pub_sub[i].1, value) {
                    Ok(count) => count,
                    Err(_) => 0,
                };
            }
            i = i + 1;
        }
        0
    }
}

} // verus!

verus! {

/// Index of the pair for `key` in the entry list, if one exists.
fn find_entry(entries: &Vec<(String, Entry)>, key: &str) -> (r: Option<usize>)
    ensures
        match r {
            Some(i) => i < entries@.len() && entries@[i as int].0@ == key@,
            None => forall|j: int| 0 <= j < entries@.len() ==> (#[trigger] entries@[j]).0@ != key@,
        },
{
    let n: usize = entries.len();
    let mut i: usize = 0;
    while i < n
        invariant
            i <= n,
            n == entries@.len(),
            forall|j: int| 0 <= j < i ==> (#[trigger] entries@[j]).0@ != key@,
        decreases n - i,
    {
        if str_eq(entries[i].0.as_str(), key) {
            return Some(i);
        }
        i = i + 1;
    }
    None
}

/// Index of the first `(when, key)` pair in the expiration index, if any.
fn find_pair(x: &Vec<(u64, String)>, when: u64, key: &str) -> (r: Option<usize>)
    ensures
        match r {
            Some(p) => p < x@.len() && x@[p as int].0 == when && x@[p as int].1@ == key@,
            None => forall|j: int|
                0 <= j < x@.len() ==> !((#[trigger] x@[j]).0 == when && x@[j].1@ == key@),
        },
{
    let n: usize = x.len();
    let mut i: usize = 0;
    while i < n
        invariant
            i <= n,
            n == x@.len(),
            forall|j: int| 0 <= j < i ==> !((#[trigger] x@[j]).0 == when && x@[j].1@ == key@),
        decreases n - i,
    {
        if x[i].0 == when && str_eq(x[i].1.as_str(), key) {
            return Some(i);
        }
        i = i + 1;
    }
    None
}

/// First position in the index whose instant lies after `when`; inserting
/// at this position keeps the index ordered.
fn find_insert_pos(x: &Vec<(u64, String)>, when: u64) -> (p: usize)
    ensures
        p <= x@.len(),
        forall|i: int| 0 <= i < p ==> (#[trigger] x@[i]).0 <= when,
        p < x@.len() ==> x@[p as int].0 > when,
{
    let n: usize = x.len();
    let mut i: usize = 0;
    while i < n
        invariant
            i <= n,
            n == x@.len(),
            forall|j: int| 0 <= j < i ==> (#[trigger] x@[j]).0 <= when,
        decreases n - i,
    {
        if x[i].0 > when {
            return i;
        }
        i = i + 1;
    }
    n
}

impl Db {
    /// Store `value` under `key`, replacing any previous entry and its
    /// index pair; with an expiry instant, the entry leaves the store once
    /// the purge worker passes that instant. Returns whether the purge
    /// worker must be woken, which is exactly when the store gained a new
    /// earliest expiry.
    #[verifier::rlimit(60)]
    pub fn set(&mut self, key: String, value: Vec<u8>, expires_at: Option<u64>) -> (notify: bool)
        requires
            old(self).wf(),
        ensures
            final(self).wf(),
            final(self)@.entries == old(self)@.entries.insert(
                key@,
                EntryView { data: value@, expires_at: expires_at },
            ),
            final(self)@.channels == old(self)@.channels,
            final(self)@.shutdown == old(self)@.shutdown,
            notify == spec_notify(old(self)@, expires_at),
    {
        let ghost em0 = keys_map(old(self).entries@);
        let mut notify: bool = false;
        match expires_at {
            Some(when) => {
                notify = match self.next_expiration() {
                    Some(e) => e > when,
                    None => true,
                };
            },
            None => {},
        };
        let entry = Entry { data: value, expires_at };
        let ghost ev = entry@;
        let ghost s0 = self.entries@;
        let mut prev_expires: Option<u64> = None;
        match find_entry(&self.entries, key.as_str()) {
            Some(i) => {
                prev_expires = self.entries[i].1.expires_at;
                proof {
                    lemma_keys_map_at(s0, i as int);
                    assert(em0.dom().contains(key@) && em0[key@].expires_at == prev_expires);
                }
                self.entries.set(i, (key.clone(), entry));
                proof {
                    lemma_keys_map_update(s0, i as int, self.entries@[i as int]);
                    assert forall|a: int, b: int|
                        0 <= a < b < self.entries@.len() implies (#[trigger] self.entries@[a]).0@
                        != (#[trigger] self.entries@[b]).0@ by {
                        assert(s0[a].0@ != s0[b].0@);
                    }
                }
            },
            None => {
                proof {
                    lemma_keys_map_absent(s0, key@);
                }
                self.entries.push((key.clone(), entry));
                proof {
                    lemma_keys_map_push(s0, self.entries@.last());
                    assert forall|a: int, b: int|
                        0 <= a < b < self.entries@.len() implies (#[trigger] self.entries@[a]).0@
                        != (#[trigger] self.entries@[b]).0@ by {
                        if b < s0.len() {
                            assert(s0[a].0@ != s0[b].0@);
                        } else {
                            assert(s0[a].0@ != key@);
                        }
                    }
                }
            },
        }
        let ghost em1 = keys_map(self.entries@);
        let ghost x0 = self.expirations@;
        proof {
            assert(em1 =~= em0.insert(key@, ev));
            assert(!em0.dom().contains(key@) ==> prev_expires is None);
        }
        if prev_expires.is_some() {
            let w: u64 = match prev_expires {
                Some(w) => w,
                None => 0,
            };
            match find_pair(&self.expirations, w, key.as_str()) {
                Some(p) => {
                    self.expirations.remove(p);
                    proof {
                        let x1 = self.expirations@;
                        assert forall|j: int| 0 <= j < x1.len() implies (#[trigger] x1[j]).1@
                            != key@ by {
                            let j0: int = if j < p {
                                j
                            } else {
                                j + 1
                            };
                            assert(x1[j] == x0[j0]);
                            if x0[j0].1@ == key@ {
                                assert(x0[p as int].1@ == key@);
                            }
                        }
                        assert forall|a: int, b: int| 0 <= a < b < x1.len() implies (
                        #[trigger] x1[a]).1@ != (#[trigger] x1[b]).1@ && x1[a].0 <= x1[b].0 by {
                            let a0: int = if a < p {
                                a
                            } else {
                                a + 1
                            };
                            let b0: int = if b < p {
                                b
                            } else {
                                b + 1
                            };
                            assert(x1[a] == x0[a0]);
                            assert(x1[b] == x0[b0]);
                        }
                        assert forall|j: int| 0 <= j < x1.len() implies em1.dom().contains(
                            (#[trigger] x1[j]).1@,
                        ) && em1[x1[j].1@].expires_at == Some(x1[j].0) by {
                            let j0: int = if j < p {
                                j
                            } else {
                                j + 1
                            };
                            assert(x1[j] == x0[j0]);
                            assert(x1[j].1@ != key@);
                        }
                        assert forall|k: Seq<char>|
                            #[trigger] em1.dom().contains(k) && k != key@ && em1[k].expires_at
                                is Some implies exists|j: int|
                            0 <= j < x1.len() && (#[trigger] x1[j]).0 == em1[k].expires_at->0 && x1[
                                j
                            ].1@ == k by {
                            assert(em0.dom().contains(k) && em0[k] == em1[k]);
                            let j0 = choose|j0: int|
                                0 <= j0 < x0.len() && (#[trigger] x0[j0]).0 == em0[k].expires_at->0
                                    && x0[j0].1@ == k;
                            assert(x0[p as int].1@ == key@);
                            let j: int = if j0 < p {
                                j0
                            } else {
                                j0 - 1
                            };
                            assert(x1[j] == x0[j0]);
                        }
                    }
                },
                None => {
                    proof {
                        assert(em0[key@].expires_at == Some(w));
                        let j = choose|j: int|
                            0 <= j < x0.len() && (#[trigger] x0[j]).0 == em0[key@].expires_at->0
                                && x0[j].1@ == key@;
                        assert(false);
                    }
                },
            }
        } else {
            proof {
                assert forall|j: int| 0 <= j < x0.len() implies (#[trigger] x0[j]).1@ != key@ by {
                    if x0[j].1@ == key@ {
                        assert(em0.dom().contains(key@) && em0[key@].expires_at == Some(x0[j].0));
                    }
                }
                assert forall|k: Seq<char>|
                    #[trigger] em1.dom().contains(k) && k != key@ && em1[k].expires_at
                        is Some implies exists|j: int|
                    0 <= j < x0.len() && (#[trigger] x0[j]).0 == em1[k].expires_at->0 && x0[j].1@
                        == k by {
                    assert(em0.dom().contains(k) && em0[k] == em1[k]);
                }
            }
        }
        let ghost x1 = self.expirations@;
        proof {
            assert(forall|j: int| 0 <= j < x1.len() ==> (#[trigger] x1[j]).1@ != key@);
            assert(distinct_index_keys(x1));
            assert(index_sorted(x1));
            assert forall|j: int| 0 <= j < x1.len() implies em1.dom().contains(
                (#[trigger] x1[j]).1@,
            ) && em1[x1[j].1@].expires_at == Some(x1[j].0) by {
                if prev_expires is None {
                    assert(x1 == x0);
                    assert(em0.dom().contains(x0[j].1@) && em0[x0[j].1@].expires_at == Some(
                        x0[j].0,
                    ));
                    assert(x1[j].1@ != key@);
                }
            }
        }
        if expires_at.is_some() {
            let w: u64 = match expires_at {
                Some(w) => w,
                None => 0,
            };
            let q = find_insert_pos(&self.expirations, w);
            self.expirations.insert(q, (w, key));
            proof {
                let x2 = self.expirations@;
                x1.insert_ensures(q as int, (w, key));
                assert(x2 == x1.insert(q as int, (w, key)));
                assert(x2[q as int].1@ == key@);
                assert forall|j: int| 0 <= j < x2.len() && j != q implies #[trigger] x2[j] == x1[
                    if j < q { j } else { j - 1 }
                ] by {}
                // ordered, keys still unique, every pair sound
                assert forall|a: int, b: int| 0 <= a < b < x2.len() implies (#[trigger] x2[a]).1@
                    != (#[trigger] x2[b]).1@ && x2[a].0 <= x2[b].0 by {
                    if a == q {
                        let b0: int = b - 1;
                        assert(x2[b] == x1[b0]);
                        assert(q as int <= b0 < x1.len());
                        assert(x1[q as int].0 > w);
                        assert(x1[b0].0 >= x1[q as int].0);
                    } else if b == q {
                        let a0: int = a;
                        assert(x2[a] == x1[a0]);
                        assert(x1[a0].0 <= w);
                    } else {
                        let a0: int = if a < q {
                            a
                        } else {
                            a - 1
                        };
                        let b0: int = if b < q {
                            b
                        } else {
                            b - 1
                        };
                        assert(x2[a] == x1[a0]);
                        assert(x2[b] == x1[b0]);
                        if a0 == b0 {
                            assert(a < q && b > q);
                            assert(false);
                        }
                    }
                }
                assert forall|j: int| 0 <= j < x2.len() implies em1.dom().contains(
                    (#[trigger] x2[j]).1@,
                ) && em1[x2[j].1@].expires_at == Some(x2[j].0) by {
                    if j != q {
                        let j0: int = if j < q {
                            j
                        } else {
                            j - 1
                        };
                        assert(x2[j] == x1[j0]);
                    } else {
                        assert(x2[j] == (w, key));
                        assert(em1[key@] == ev);
                    }
                }
                assert forall|k: Seq<char>|
                    #[trigger] em1.dom().contains(k) && em1[k].expires_at is Some implies exists|
                    j: int,
                |
                    0 <= j < x2.len() && (#[trigger] x2[j]).0 == em1[k].expires_at->0 && x2[j].1@
                        == k by {
                    if k == key@ {
                        assert(x2[q as int] == (w, key));
                        assert(em1[k].expires_at == Some(w));
                    } else {
                        let j0 = choose|j0: int|
                            0 <= j0 < x1.len() && (#[trigger] x1[j0]).0 == em1[k].expires_at->0
                                && x1[j0].1@ == k;
                        let j: int = if j0 < q {
                            j0
                        } else {
                            j0 + 1
                        };
                        assert(x2[j] == x1[j0]);
                    }
                }
            }
        } else {
            proof {
                assert forall|k: Seq<char>|
                    #[trigger] em1.dom().contains(k) && em1[k].expires_at is Some implies exists|
                    j: int,
                |
                    0 <= j < x1.len() && (#[trigger] x1[j]).0 == em1[k].expires_at->0 && x1[j].1@
                        == k by {
                    if k == key@ {
                        assert(em1[k] == ev);
                    }
                }
            }
        }
        proof {
            assert(keys_map(self.entries@) =~= em0.insert(key@, ev));
            assert(channel_set(self.pub_sub@) == channel_set(old(self).pub_sub@));
        }
        notify
    }
}

} // verus!

verus! {

/// Whether the entry stored for `k` is due at `now`.
pub open spec fn due(em: Map<Seq<char>, EntryView>, k: Seq<char>, now: u64) -> bool {
    em[k].expires_at is Some && em[k].expires_at->0 <= now
}

impl Db {
    /// Remove every entry whose expiry instant has passed, in index order,
    /// and report the instant of the earliest surviving expiry for the
    /// purge worker to sleep until. Under shutdown nothing is purged and
    /// `None` tells the worker to exit.
    #[verifier::loop_isolation(false)]
    #[verifier::rlimit(60)]
    pub fn purge_expired_keys(&mut self, now: u64) -> (r: Option<u64>)
        requires
            old(self).wf(),
        ensures
            final(self).wf(),
            old(self)@.shutdown ==> final(self)@ == old(self)@ && r is None,
            !old(self)@.shutdown ==> ({
                &&& final(self)@.channels == old(self)@.channels
                &&& final(self)@.shutdown == old(self)@.shutdown
                &&& forall|k: Seq<char>|
                    #[trigger] old(self)@.entries.dom().contains(k) && !due(
                        old(self)@.entries,
                        k,
                        now,
                    ) ==> final(self)@.entries.dom().contains(k) && final(self)@.entries[k] == old(
                        self,
                    )@.entries[k]
                &&& forall|k: Seq<char>|
                    #[trigger] final(self)@.entries.dom().contains(k) ==> old(
                        self,
                    )@.entries.dom().contains(k) && !due(old(self)@.entries, k, now)
                &&& forall|j: int|
                    0 <= j < final(self)@.expirations.len() ==> (
                    #[trigger] final(self)@.expirations[j]).0 > now
                &&& r == final(self)@.next_expiration()
            }),
    {
        if self.shutdown {
            return None;
        }
        let ghost em_old = keys_map(old(self).entries@);
        while self.expirations.len() > 0 && self.expirations[0].0 <= now
            invariant
                self.wf(),
                self.pub_sub@ == old(self).pub_sub@,
                self.shutdown == old(self).shutdown,
                forall|k: Seq<char>|
                    #[trigger] keys_map(self.entries@).dom().contains(k) ==> em_old.dom().contains(
                        k,
                    ) && keys_map(self.entries@)[k] == em_old[k],
                forall|k: Seq<char>|
                    #[trigger] em_old.dom().contains(k) && !due(em_old, k, now) ==> keys_map(
                        self.entries@,
                    ).dom().contains(k),
                forall|k: Seq<char>|
                    #[trigger] em_old.dom().contains(k) && !keys_map(self.entries@).dom().contains(
                        k,
                    ) ==> due(em_old, k, now),
            decreases self.expirations@.len(),
    {
            let ghost em = keys_map(self.entries@);
            let ghost x = self.expirations@;
            let ghost key_v = x[0].1@;
            let ghost when = x[0].0;
            proof {
                assert(em.dom().contains(key_v) && em[key_v].expires_at == Some(when));
            }
            match find_entry(&self.entries, self.expirations[0].1.as_str()) {
                Some(ei) => {
                    let ghost s = self.entries@;
                    self.entries.remove(ei);
                    proof {
                        lemma_keys_map_remove(s, ei as int);
                        assert forall|a: int, b: int|
                            0 <= a < b < self.entries@.len() implies (
                        #[trigger] self.entries@[a]).0@ != (#[trigger] self.entries@[b]).0@ by {
                            let a0: int = if a < ei {
                                a
                            } else {
                                a + 1
                            };
                            let b0: int = if b < ei {
                                b
                            } else {
                                b + 1
                            };
                            assert(self.entries@[a] == s[a0]);
                            assert(self.entries@[b] == s[b0]);
                        }
                    }
                },
                None => {
                    proof {
                        lemma_keys_map_member(self.entries@, key_v);
                        let i = choose|i: int|
                            0 <= i < self.entries@.len() && (#[trigger] self.entries@[i]).0@
                                == key_v;
                        assert(false);
                    }
                },
            }
            self.expirations.remove(0);
            proof {
                let em2 = keys_map(self.entries@);
                let x2 = self.expirations@;
                assert(em2 =~= em.remove(key_v));
                assert(forall|j: int| 0 <= j < x2.len() ==> #[trigger] x2[j] == x[j + 1]);
                assert forall|a: int, b: int| 0 <= a < b < x2.len() implies (#[trigger] x2[a]).1@
                    != (#[trigger] x2[b]).1@ && x2[a].0 <= x2[b].0 by {
                    assert(x2[a] == x[a + 1]);
                    assert(x2[b] == x[b + 1]);
                }
                assert forall|j: int| 0 <= j < x2.len() implies em2.dom().contains(
                    (#[trigger] x2[j]).1@,
                ) && em2[x2[j].1@].expires_at == Some(x2[j].0) by {
                    assert(x2[j] == x[j + 1]);
                    assert(x[j + 1].1@ != x[0].1@);
                }
                assert forall|k: Seq<char>|
                    #[trigger] em2.dom().contains(k) && em2[k].expires_at is Some implies exists|
                    j: int,
                |
                    0 <= j < x2.len() && (#[trigger] x2[j]).0 == em2[k].expires_at->0 && x2[j].1@
                        == k by {
                    assert(em.dom().contains(k) && em[k] == em2[k]);
                    let j0 = choose|j0: int|
                        0 <= j0 < x.len() && (#[trigger] x[j0]).0 == em[k].expires_at->0 && x[j0].1@
                            == k;
                    assert(j0 != 0);
                    assert(x2[j0 - 1] == x[j0]);
                }
                // the key just purged was due
                assert(due(em_old, key_v, now));
            }
        }
        proof {
            assert forall|j: int| 0 <= j < self.expirations@.len() implies (
            #[trigger] self.expirations@[j]).0 > now by {
                assert(self.expirations@[0].0 > now);
                assert(self.expirations@[0].0 <= self.expirations@[j].0);
            }
            assert forall|k: Seq<char>|
                #[trigger] keys_map(self.entries@).dom().contains(k) implies em_old.dom().contains(
                k,
            ) && !due(em_old, k, now) by {
                if due(em_old, k, now) {
                    let em2 = keys_map(self.entries@);
                    assert(em2[k] == em_old[k]);
                    let t = em2[k].expires_at->0;
                    let j = choose|j: int|
                        0 <= j < self.expirations@.len() && (#[trigger] self.expirations@[j]).0
                            == em2[k].expires_at->0 && self.expirations@[j].1@ == k;
                    assert(self.expirations@[j].0 > now);
                }
            }
        }
        if self.expirations.len() == 0 {
            None
        } else {
            Some(self.expirations[0].0)
        }
    }
}

} // verus!

verus! {

impl Db {
    /// Law of the expiration index. For every key whose entry carries
    /// `expires_at = Some(t)`, the pair `(t, key)` stands in the index, and
    /// index keys are pairwise distinct, so it stands there exactly once;
    /// every index pair points back at a live entry expiring at its
    /// instant — so a key without an expiry (or without an entry) is
    /// referenced by no index pair; and the index is ordered by instant,
    /// so [`DbView::next_expiration`] is the least instant of any pair, or
    /// `None` exactly when the index is empty.
    pub proof fn lemma_expiration_index_invariant(&self)
        requires
            self.wf(),
        ensures
            forall|k: Seq<char>|
                #[trigger] self@.entries.dom().contains(k) && self@.entries[k].expires_at
                    is Some ==> exists|j: int|
                    0 <= j < self@.expirations.len() && #[trigger] self@.expirations[j] == (
                    self@.entries[k].expires_at->0,
                    k,
                ),
            forall|i: int, j: int|
                0 <= i < j < self@.expirations.len() ==> (#[trigger] self@.expirations[i]).1 != (
                #[trigger] self@.expirations[j]).1,
            forall|j: int|
                0 <= j < self@.expirations.len() ==> self@.entries.dom().contains(
                    (#[trigger] self@.expirations[j]).1,
                ) && self@.entries[self@.expirations[j].1].expires_at == Some(
                    self@.expirations[j].0,
                ),
            forall|i: int, j: int|
                0 <= i < j < self@.expirations.len() ==> (#[trigger] self@.expirations[i]).0 <= (
                #[trigger] self@.expirations[j]).0,
            match self@.next_expiration() {
                Some(t) => forall|j: int|
                    0 <= j < self@.expirations.len() ==> t <= (#[trigger] self@.expirations[j]).0,
                None => self@.expirations.len() == 0,
            },
    {
        let x = self.expirations@;
        let em = keys_map(self.entries@);
        assert forall|k: Seq<char>|
            #[trigger] self@.entries.dom().contains(k) && self@.entries[k].expires_at
                is Some implies exists|j: int|
            0 <= j < self@.expirations.len() && #[trigger] self@.expirations[j] == (
            self@.entries[k].expires_at->0,
            k,
        ) by {
            let j = choose|j: int|
                0 <= j < x.len() && (#[trigger] x[j]).0 == em[k].expires_at->0 && x[j].1@ == k;
            assert(self@.expirations[j] == (self@.entries[k].expires_at->0, k));
        }
        assert forall|i: int, j: int| 0 <= i < j < self@.expirations.len() implies (
        #[trigger] self@.expirations[i]).1 != (#[trigger] self@.expirations[j]).1 by {
            assert(x[i].1@ != x[j].1@);
        }
        assert forall|j: int| 0 <= j < self@.expirations.len() implies self@.entries.dom().contains(
            (#[trigger] self@.expirations[j]).1,
        ) && self@.entries[self@.expirations[j].1].expires_at == Some(
            self@.expirations[j].0,
        ) by {
            assert(em.dom().contains(x[j].1@) && em[x[j].1@].expires_at == Some(x[j].0));
        }
        assert forall|i: int, j: int| 0 <= i < j < self@.expirations.len() implies (
        #[trigger] self@.expirations[i]).0 <= (#[trigger] self@.expirations[j]).0 by {
            assert(x[i].0 <= x[j].0);
        }
        if self@.expirations.len() > 0 {
            assert forall|j: int| 0 <= j < self@.expirations.len() implies self@.expirations[0].0
                <= (#[trigger] self@.expirations[j]).0 by {
                assert(x[0].0 <= x[j].0);
            }
        }
    }
}

/// Law: after `SET k v`, and until a purge removes the key, `GET k` reads
/// back exactly `v` — the updated key-space maps `k` to the stored bytes,
/// whatever was there before and whatever expiry the entry carries.
pub proof fn lemma_set_then_get(
    entries: Map<Seq<char>, EntryView>,
    k: Seq<char>,
    v: Seq<u8>,
    expires_at: Option<u64>,
)
    ensures
        entries.insert(k, EntryView { data: v, expires_at }).dom().contains(k),
        entries.insert(k, EntryView { data: v, expires_at })[k].data == v,
{
}

/// Law: once the purge worker has run past an entry's expiry instant, a
/// read finds nothing under its key. The hypothesis is what
/// [`Db::purge_expired_keys`] ensures of the key-spaces before and after.
pub proof fn lemma_purge_removes_due(
    before: Map<Seq<char>, EntryView>,
    after: Map<Seq<char>, EntryView>,
    now: u64,
    k: Seq<char>,
)
    requires
        forall|k2: Seq<char>|
            #[trigger] after.dom().contains(k2) ==> before.dom().contains(k2) && !due(
                before,
                k2,
                now,
            ),
        before.dom().contains(k),
        due(before, k, now),
    ensures
        !after.dom().contains(k),
{
}

} // verus!

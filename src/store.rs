//! The key-value store. An entry may carry an expiry instant; an entry whose
//! instant has passed reads as absent but stays in memory until overwritten.
//!
//! Instants are milliseconds on a monotonic clock that the caller reads and
//! hands in.
use vstd::prelude::*;
use crate::text::{opt_text, same_text};

verus! {

/// A stored value and the instant after which it reads as absent, if any.
#[derive(Debug, Clone)]
pub struct StoreEntry {
    pub value: String,
    pub expires_at: Option<u64>,
}

/// The mathematical form of a [`StoreEntry`].
pub type EntryView = (Seq<char>, Option<u64>);

impl View for StoreEntry {
    type V = EntryView;

    open spec fn view(&self) -> EntryView {
        (self.value@, self.expires_at)
    }
}

/// The expiry instant of an entry written at `now` with time to live `ttl`:
/// `now + ttl`, held at the largest instant the clock can show.
pub open spec fn expiry_of(now: u64, ttl: Option<u64>) -> Option<u64> {
    match ttl {
        Some(ms) => Some(if now + ms <= u64::MAX { (now + ms) as u64 } else { u64::MAX }),
        None => None,
    }
}

/// Whether an entry reads as absent at `now`: it has an expiry that is
/// strictly earlier than `now`.
pub open spec fn expired(e: EntryView, now: u64) -> bool {
    match e.1 {
        Some(at) => at < now,
        None => false,
    }
}

/// What a read of `key` at `now` sees in the contents `m`.
pub open spec fn lookup(m: Map<Seq<char>, EntryView>, key: Seq<char>, now: u64) -> Option<Seq<char>> {
    if m.contains_key(key) && !expired(m[key], now) {
        Some(m[key].0)
    } else {
        None
    }
}

/// A map from string keys to entries.
pub struct Store {
    entries: Vec<(String, StoreEntry)>,
    contents: Ghost<Map<Seq<char>, EntryView>>,
}

impl View for Store {
    type V = Map<Seq<char>, EntryView>;

    closed spec fn view(&self) -> Map<Seq<char>, EntryView> {
        self.contents@
    }
}

impl Store {
    /// The entries hold each key once, and exactly the keys and entries of
    /// the contents.
    pub closed spec fn wf(&self) -> bool {
        let es = self.entries@;
        &&& forall|i: int, j: int|
            0 <= i < j < es.len() ==> (#[trigger] es[i]).0@ != (#[trigger] es[j]).0@
        &&& forall|i: int| 0 <= i < es.len() ==> self.contents@.contains_key(#[trigger] es[i].0@)
            && self.contents@[es[i].0@] == es[i].1@
        &&& forall|k: Seq<char>| #[trigger] self.contents@.contains_key(k) ==> exists|i: int|
            0 <= i < es.len() && (#[trigger] es[i]).0@ == k
    }

    /// An empty store.
    pub fn new() -> (s: Store)
        ensures
            s.wf(),
            s@ == Map::<Seq<char>, EntryView>::empty(),
    {
        Store { entries: Vec::new(), contents: Ghost(Map::empty()) }
    }

    /// The position of `key` among the entries, if it is there.
    fn find(&self, key: &str) -> (r: Option<usize>)
        requires
            self.wf(),
        ensures
            match r {
                Some(i) => i < self.entries.len() && self.entries@[i as int].0@ == key@,
                None => !self@.contains_key(key@),
            },
    {
        let mut i: usize = 0;
        while i < self.entries.len()
            invariant
                self.wf(),
                i <= self.entries.len(),
                forall|j: int| 0 <= j < i ==> (#[trigger] self.entries@[j]).0@ != key@,
            decreases self.entries.len() - i,
        {
            if same_text(self.entries[i].0.as_str(), key) {
                return Some(i);
            }
            i = i + 1;
        }
        None
    }

    /// Reads `key` at instant `now`: its value, unless it is absent or its
    /// expiry is strictly earlier than `now`. Nothing is removed.
    pub fn get(&self, key: &str, now: u64) -> (r: Option<String>)
        requires
            self.wf(),
        ensures
            opt_text(r) == lookup(self@, key@, now),
    {
        match self.find(key) {
            Some(i) => {
                let e = &self.entries[i].1;
                assert(self@[key@] == e@);
                let live = match e.expires_at {
                    Some(at) => at >= now,
                    None => true,
                };
                if live {
                    Some(e.value.clone())
                } else {
                    None
                }
            },
            None => None,
        }
    }

    /// Writes `value` under `key` at instant `now`, replacing any earlier
    /// entry whole; with `ttl` the entry expires `ttl` milliseconds after
    /// `now`.
    pub fn set(&mut self, key: String, value: String, ttl: Option<u64>, now: u64)
        requires
            old(self).wf(),
        ensures
            final(self).wf(),
            final(self)@ == old(self)@.insert(key@, (value@, expiry_of(now, ttl))),
    {
        let expires_at = match ttl {
            Some(ms) => Some(now.saturating_add(ms)),
            None => None,
        };
        let entry = StoreEntry { value, expires_at };
        let ghost k = key@;
        let ghost ev = entry@;
        match self.find(key.as_str()) {
            Some(i) => {
                self.entries[i] = (key, entry);
                self.contents = Ghost(self.contents@.insert(k, ev));
                assert forall|c: Seq<char>| #[trigger] self.contents@.contains_key(c) implies exists|j: int|
                    0 <= j < self.entries@.len() && (#[trigger] self.entries@[j]).0@ == c by {
                    if c == k {
                        assert(self.entries@[i as int].0@ == c);
                    } else {
                        assert(old(self)@.contains_key(c));
                        let j = choose|j: int| 0 <= j < old(self).entries@.len() && (#[trigger] old(self).entries@[j]).0@ == c;
                        assert(self.entries@[j].0@ == c);
                    }
                }
            },
            None => {
                self.entries.push((key, entry));
                self.contents = Ghost(self.contents@.insert(k, ev));
                assert forall|c: Seq<char>| #[trigger] self.contents@.contains_key(c) implies exists|j: int|
                    0 <= j < self.entries@.len() && (#[trigger] self.entries@[j]).0@ == c by {
                    if c == k {
                        assert(self.entries@[old(self).entries@.len() as int].0@ == c);
                    } else {
                        let j = choose|j: int| 0 <= j < old(self).entries@.len() && (#[trigger] old(self).entries@[j]).0@ == c;
                        assert(self.entries@[j].0@ == c);
                    }
                }
            },
        }
    }
}


/// One write: key, value, time to live and the instant of the write.
pub type Write = (Seq<char>, Seq<char>, Option<u64>, u64);

/// The contents of a store that starts empty and takes the writes `ws` in
/// order.
pub open spec fn contents_after(ws: Seq<Write>) -> Map<Seq<char>, EntryView>
    decreases ws.len(),
{
    if ws.len() == 0 {
        Map::empty()
    } else {
        let w = ws.last();
        contents_after(ws.drop_last()).insert(w.0, (w.1, expiry_of(w.3, w.2)))
    }
}

/// A key that no write names reads as absent, at every instant.
pub proof fn lemma_unwritten_key_absent(ws: Seq<Write>, k: Seq<char>, now: u64)
    requires
        forall|i: int| 0 <= i < ws.len() ==> (#[trigger] ws[i]).0 != k,
    ensures
        lookup(contents_after(ws), k, now) is None,
    decreases ws.len(),
{
    if ws.len() > 0 {
        let rest = ws.drop_last();
        assert forall|i: int| 0 <= i < rest.len() implies (#[trigger] rest[i]).0 != k by {
            assert(rest[i] == ws[i]);
        }
        lemma_unwritten_key_absent(rest, k, now);
        assert(ws[ws.len() - 1].0 != k);
    }
}

/// Whatever a read returns is the value of the latest write to that key:
/// a read never sees a mixture of writes, nor a value nobody wrote.
pub proof fn lemma_read_sees_a_whole_write(ws: Seq<Write>, k: Seq<char>, now: u64)
    requires
        lookup(contents_after(ws), k, now) is Some,
    ensures
        exists|i: int|
            0 <= i < ws.len() && (#[trigger] ws[i]).0 == k && lookup(contents_after(ws), k, now)
                == Some(ws[i].1) && forall|j: int| i < j < ws.len() ==> (#[trigger] ws[j]).0 != k,
    decreases ws.len(),
{
    let last = ws.len() - 1;
    if ws[last].0 == k {
        assert(ws[last].0 == k);
    } else {
        let rest = ws.drop_last();
        lemma_read_sees_a_whole_write(rest, k, now);
        let i = choose|i: int|
            0 <= i < rest.len() && (#[trigger] rest[i]).0 == k && lookup(contents_after(rest), k, now)
                == Some(rest[i].1) && forall|j: int| i < j < rest.len() ==> (#[trigger] rest[j]).0 != k;
        assert(ws[i] == rest[i]);
        assert forall|j: int| i < j < ws.len() implies (#[trigger] ws[j]).0 != k by {
            if j < last {
                assert(ws[j] == rest[j]);
            }
        }
    }
}

/// A write without time to live is read back, at every later instant.
pub proof fn lemma_set_then_get(m: Map<Seq<char>, EntryView>, k: Seq<char>, v: Seq<char>, now: u64, t: u64)
    ensures
        lookup(m.insert(k, (v, expiry_of(now, None))), k, t) == Some(v),
{
}

/// A write with time to live `ttl` at `now` is read back up to and including
/// the instant `now + ttl`, and reads as absent strictly after it.
pub proof fn lemma_ttl_expiry(m: Map<Seq<char>, EntryView>, k: Seq<char>, v: Seq<char>, now: u64, ttl: u64, t: u64)
    requires
        ttl > 0,
    ensures
        lookup(m.insert(k, (v, expiry_of(now, Some(ttl)))), k, t) == if t <= now + ttl {
            Some(v)
        } else {
            None::<Seq<char>>
        },
{
}

/// A second write replaces the first whole: value and expiry.
pub proof fn lemma_overwrite_replaces_entry(
    m: Map<Seq<char>, EntryView>,
    k: Seq<char>,
    v1: Seq<char>,
    v2: Seq<char>,
    ttl: Option<u64>,
    now1: u64,
    now2: u64,
    t: u64,
)
    ensures
        m.insert(k, (v1, expiry_of(now1, ttl))).insert(k, (v2, expiry_of(now2, None)))[k] == (v2, None::<u64>),
        lookup(m.insert(k, (v1, expiry_of(now1, ttl))).insert(k, (v2, expiry_of(now2, None))), k, t)
            == Some(v2),
{
}

} // verus!

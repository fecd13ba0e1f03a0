//! The key/value store with expiry: entries, the index of their expiry instants,
//! and the purge step of the background sweeper.
//!
//! Instants are milliseconds on a monotonic clock that the caller reads.
use vstd::prelude::*;
use vstd::utf8::*;

use crate::frame::copy_range;
use crate::text::text_eq;

verus! {

/// A stored value: its key, its bytes, and the instant it expires at, if any.
#[derive(Debug)]
pub struct Entry {
    key: String,
    data: Vec<u8>,
    expires_at: Option<u64>,
}

/// The state of the store, guarded by the server's mutex.
#[derive(Debug)]
pub struct State {
    entries: Vec<Entry>,
    /// `(instant, key)` pairs, ordered by instant, then by key.
    expirations: Vec<(u64, String)>,
    shutdown: bool,
}

/// Value of an entry in the model: its bytes and its expiry instant.
pub type EntryModel = (Seq<u8>, Option<u64>);

/// The entry of the last slot whose key is `k`.
spec fn lookup(s: Seq<Entry>, k: Seq<char>) -> Option<EntryModel>
    decreases s.len(),
{
    if s.len() == 0 {
        None
    } else if s.last().key@ == k {
        Some((s.last().data@, s.last().expires_at))
    } else {
        lookup(s.drop_last(), k)
    }
}

spec fn keys_unique(s: Seq<Entry>) -> bool {
    forall|i: int, j: int| 0 <= i < j < s.len() ==> (#[trigger] s[i]).key@ != (#[trigger] s[j]).key@
}

/// Byte-wise lexicographic order, the order in which `String` compares keys.
pub open spec fn bytes_lt(a: Seq<u8>, b: Seq<u8>) -> bool
    decreases a.len(),
{
    if b.len() == 0 {
        false
    } else if a.len() == 0 {
        true
    } else if a[0] != b[0] {
        a[0] < b[0]
    } else {
        bytes_lt(a.drop_first(), b.drop_first())
    }
}

/// The order of the expiry index: by instant, then by key.
pub open spec fn pair_lt(p: (u64, Seq<char>), q: (u64, Seq<char>)) -> bool {
    p.0 < q.0 || (p.0 == q.0 && bytes_lt(encode_utf8(p.1), encode_utf8(q.1)))
}

proof fn lemma_bytes_lt_trans(a: Seq<u8>, b: Seq<u8>, c: Seq<u8>)
    requires
        bytes_lt(a, b),
        bytes_lt(b, c),
    ensures
        bytes_lt(a, c),
    decreases a.len(),
{
    if a.len() > 0 && a[0] == b[0] && b[0] == c[0] {
        lemma_bytes_lt_trans(a.drop_first(), b.drop_first(), c.drop_first());
    }
}

proof fn lemma_bytes_lt_total(a: Seq<u8>, b: Seq<u8>)
    requires
        a != b,
    ensures
        bytes_lt(a, b) || bytes_lt(b, a),
    decreases a.len(),
{
    if a.len() == 0 && b.len() == 0 {
        assert(a =~= b);
    } else if a.len() > 0 && b.len() > 0 && a[0] == b[0] {
        if a.drop_first() == b.drop_first() {
            assert(a =~= seq![a[0]] + a.drop_first());
            assert(b =~= seq![b[0]] + b.drop_first());
        } else {
            lemma_bytes_lt_total(a.drop_first(), b.drop_first());
        }
    }
}

proof fn lemma_pair_lt_trans(p: (u64, Seq<char>), q: (u64, Seq<char>), r: (u64, Seq<char>))
    requires
        pair_lt(p, q),
        pair_lt(q, r),
    ensures
        pair_lt(p, r),
{
    if p.0 == q.0 && q.0 == r.0 {
        lemma_bytes_lt_trans(encode_utf8(p.1), encode_utf8(q.1), encode_utf8(r.1));
    }
}

proof fn lemma_pair_lt_total(p: (u64, Seq<char>), q: (u64, Seq<char>))
    requires
        p.1 != q.1,
    ensures
        pair_lt(p, q) || pair_lt(q, p),
{
    if p.0 == q.0 {
        encode_utf8_decode_utf8(p.1);
        encode_utf8_decode_utf8(q.1);
        lemma_bytes_lt_total(encode_utf8(p.1), encode_utf8(q.1));
    }
}

fn bytes_less(a: &[u8], b: &[u8]) -> (r: bool)
    ensures
        r == bytes_lt(a@, b@),
{
    let mut k: usize = 0;
    proof {
        assert(a@.subrange(0, a@.len() as int) =~= a@);
        assert(b@.subrange(0, b@.len() as int) =~= b@);
    }
    while k < a.len() && k < b.len()
        invariant
            k <= a@.len(),
            k <= b@.len(),
            bytes_lt(a@, b@) == bytes_lt(
                a@.subrange(k as int, a@.len() as int),
                b@.subrange(k as int, b@.len() as int),
            ),
        decreases a.len() - k,
    {
        if a[k] != b[k] {
            return a[k] < b[k];
        }
        proof {
            assert(a@.subrange(k + 1, a@.len() as int) =~= a@.subrange(k as int, a@.len() as int).drop_first());
            assert(b@.subrange(k + 1, b@.len() as int) =~= b@.subrange(k as int, b@.len() as int).drop_first());
        }
        k += 1;
    }
    k < b.len()
}

/// Whether `(t, key)` comes before `(when, other)` in the expiry index.
fn pair_before(t: u64, key: &str, when: u64, other: &str) -> (r: bool)
    ensures
        r == pair_lt((t, key@), (when, other@)),
{
    if t != when {
        t < when
    } else {
        bytes_less(key.as_bytes(), other.as_bytes())
    }
}

/// Whether an entry has expired at `now`.
pub open spec fn expired(e: EntryModel, now: u64) -> bool {
    e.1 matches Some(t) && t <= now
}

/// The instant `ttl` milliseconds after `now`, or the last instant if that is later.
pub open spec fn deadline(now: u64, ttl: u64) -> u64 {
    if now + ttl > u64::MAX {
        u64::MAX
    } else {
        (now + ttl) as u64
    }
}

/// The store after setting `key` to `value` at `now`, expiring `ttl` milliseconds later if given.
pub open spec fn set_model(
    m: Map<Seq<char>, EntryModel>,
    key: Seq<char>,
    value: Seq<u8>,
    ttl: Option<u64>,
    now: u64,
) -> Map<Seq<char>, EntryModel> {
    m.insert(
        key,
        (
            value,
            match ttl {
                Some(d) => Some(deadline(now, d)),
                None => None,
            },
        ),
    )
}

/// The store after removing every entry expired at `now`.
pub open spec fn purge_model(m: Map<Seq<char>, EntryModel>, now: u64) -> Map<Seq<char>, EntryModel> {
    Map::new(|k: Seq<char>| m.contains_key(k) && !expired(m[k], now), |k: Seq<char>| m[k])
}

proof fn lemma_lookup(s: Seq<Entry>, k: Seq<char>)
    requires
        keys_unique(s),
    ensures
        (lookup(s, k) is Some) <==> (exists|i: int| 0 <= i < s.len() && (#[trigger] s[i]).key@ == k),
        forall|i: int|
            0 <= i < s.len() && (#[trigger] s[i]).key@ == k ==> lookup(s, k) == Some(
                (s[i].data@, s[i].expires_at),
            ),
    decreases s.len(),
{
    if s.len() > 0 {
        let t = s.drop_last();
        assert(keys_unique(t)) by {
            assert forall|i: int, j: int| 0 <= i < j < t.len() implies (#[trigger] t[i]).key@ != (
            #[trigger] t[j]).key@ by {
                assert(t[i] == s[i] && t[j] == s[j]);
            }
        }
        lemma_lookup(t, k);
        if s.last().key@ != k {
            if exists|i: int| 0 <= i < s.len() && (#[trigger] s[i]).key@ == k {
                let i = choose|i: int| 0 <= i < s.len() && (#[trigger] s[i]).key@ == k;
                assert(t[i] == s[i]);
            }
            assert forall|i: int| 0 <= i < s.len() && (#[trigger] s[i]).key@ == k implies lookup(
                s,
                k,
            ) == Some((s[i].data@, s[i].expires_at)) by {
                assert(t[i] == s[i]);
            }
            if lookup(t, k) is Some {
                let i = choose|i: int| 0 <= i < t.len() && (#[trigger] t[i]).key@ == k;
                assert(s[i] == t[i]);
            }
        } else {
            assert(s[s.len() - 1].key@ == k);
        }
    }
}

proof fn lemma_lookup_remove(s: Seq<Entry>, i: int, k: Seq<char>)
    requires
        keys_unique(s),
        0 <= i < s.len(),
    ensures
        keys_unique(s.remove(i)),
        lookup(s.remove(i), k) == if k == s[i].key@ {
            None
        } else {
            lookup(s, k)
        },
{
    let r = s.remove(i);
    assert(keys_unique(r)) by {
        assert forall|a: int, b: int| 0 <= a < b < r.len() implies (#[trigger] r[a]).key@ != (
        #[trigger] r[b]).key@ by {
            let a2 = if a < i {
                a
            } else {
                a + 1
            };
            let b2 = if b < i {
                b
            } else {
                b + 1
            };
            assert(r[a] == s[a2] && r[b] == s[b2]);
        }
    }
    lemma_lookup(s, k);
    lemma_lookup(r, k);
    if k == s[i].key@ {
        if lookup(r, k) is Some {
            let j = choose|j: int| 0 <= j < r.len() && (#[trigger] r[j]).key@ == k;
            let j2 = if j < i {
                j
            } else {
                j + 1
            };
            assert(r[j] == s[j2]);
        }
    } else {
        if lookup(s, k) is Some {
            let j = choose|j: int| 0 <= j < s.len() && (#[trigger] s[j]).key@ == k;
            let j2 = if j < i {
                j
            } else {
                j - 1
            };
            assert(r[j2] == s[j]);
        }
        if lookup(r, k) is Some {
            let j = choose|j: int| 0 <= j < r.len() && (#[trigger] r[j]).key@ == k;
            let j2 = if j < i {
                j
            } else {
                j + 1
            };
            assert(r[j] == s[j2]);
        }
    }
}

proof fn lemma_lookup_push(s: Seq<Entry>, e: Entry, k: Seq<char>)
    ensures
        lookup(s.push(e), k) == if k == e.key@ {
            Some((e.data@, e.expires_at))
        } else {
            lookup(s, k)
        },
{
    assert(s.push(e).drop_last() =~= s);
}

impl View for State {
    type V = Map<Seq<char>, EntryModel>;

    closed spec fn view(&self) -> Map<Seq<char>, EntryModel> {
        Map::new(
            |k: Seq<char>| lookup(self.entries@, k) is Some,
            |k: Seq<char>| lookup(self.entries@, k)->Some_0,
        )
    }
}

impl State {
    /// The expiry index: `(instant, key)` pairs in order of instant, then of key.
    pub closed spec fn expirations(&self) -> Seq<(u64, Seq<char>)> {
        self.expirations@.map_values(|p: (u64, String)| (p.0, p.1@))
    }

    /// Whether the sweeper has been told to stop.
    pub closed spec fn is_shut_down(&self) -> bool {
        self.shutdown
    }

    /// No two entries share a key.
    pub closed spec fn entries_unique(&self) -> bool {
        keys_unique(self.entries@)
    }

    /// The store's invariant: each entry with an expiry instant `t` under key `k`
    /// has the pair `(t, k)` in the expiry index, once, and the index holds no
    /// other pair; the index is ordered by instant, then by key.
    pub open spec fn wf(&self) -> bool {
        let x = self.expirations();
        &&& self.entries_unique()
        &&& forall|j: int|
            0 <= j < x.len() ==> self@.contains_key((#[trigger] x[j]).1) && self@[x[j].1].1 == Some(
                x[j].0,
            )
        &&& forall|k: Seq<char>|
            self@.contains_key(k) && (#[trigger] self@[k]).1 is Some ==> exists|j: int|
                0 <= j < x.len() && #[trigger] x[j] == (self@[k].1->Some_0, k)
        &&& forall|a: int, b: int| 0 <= a < b < x.len() ==> (#[trigger] x[a]).1 != (#[trigger] x[b]).1
        &&& forall|a: int, b: int| 0 <= a < b < x.len() ==> pair_lt(#[trigger] x[a], #[trigger] x[b])
    }

    proof fn lemma_view(&self, k: Seq<char>)
        requires
            self.entries_unique(),
        ensures
            self@.contains_key(k) <==> lookup(self.entries@, k) is Some,
            self@.contains_key(k) ==> self@[k] == lookup(self.entries@, k)->Some_0,
    {
    }

    /// In a well-formed store the index holds `(t, key)` exactly when the entry
    /// under `key` expires at `t`: replacing an entry leaves no stale pair.
    pub proof fn lemma_index_pairs(&self, key: Seq<char>, t: u64)
        requires
            self.wf(),
        ensures
            self.expirations().contains((t, key)) <==> (self@.contains_key(key) && self@[key].1 == Some(t)),
    {
        let x = self.expirations();
        if x.contains((t, key)) {
            let j = choose|j: int| 0 <= j < x.len() && x[j] == (t, key);
            assert(x[j].1 == key);
        }
        if self@.contains_key(key) && self@[key].1 == Some(t) {
            let j = choose|j: int| 0 <= j < x.len() && #[trigger] x[j] == (self@[key].1->Some_0, key);
            assert(x[j] == (t, key));
        }
    }

    /// An empty store.
    pub fn new() -> (r: State)
        ensures
            r.wf(),
            r@ == Map::<Seq<char>, EntryModel>::empty(),
            !r.is_shut_down(),
    {
        let r = State { entries: Vec::new(), expirations: Vec::new(), shutdown: false };
        assert(r@ =~= Map::<Seq<char>, EntryModel>::empty());
        assert(r.expirations() =~= Seq::<(u64, Seq<char>)>::empty());
        r
    }

    fn position(&self, key: &str) -> (r: Option<usize>)
        ensures
            r matches Some(i) ==> i < self.entries@.len() && self.entries@[i as int].key@ == key@,
            r is None ==> forall|i: int| 0 <= i < self.entries@.len() ==> (#[trigger] self.entries@[i]).key@ != key@,
    {
        let mut i: usize = 0;
        while i < self.entries.len()
            invariant
                i <= self.entries@.len(),
                forall|j: int| 0 <= j < i ==> (#[trigger] self.entries@[j]).key@ != key@,
            decreases self.entries.len() - i,
        {
            if text_eq(self.entries[i].key.as_str(), key) {
                return Some(i);
            }
            i += 1;
        }
        None
    }

    /// The value stored under `key`.
    pub fn get(&self, key: &str) -> (r: Option<Vec<u8>>)
        requires
            self.wf(),
        ensures
            r is Some <==> self@.contains_key(key@),
            r matches Some(v) ==> v@ == self@[key@].0,
    {
        proof {
            lemma_lookup(self.entries@, key@);
        }
        match self.position(key) {
            Some(i) => {
                let d = &self.entries[i].data;
                Some(copy_range(d.as_slice(), 0, d.len()))
            },
            None => None,
        }
    }

    /// The earliest instant in the expiry index.
    pub fn next_expiration(&self) -> (r: Option<u64>)
        requires
            self.wf(),
        ensures
            r is None <==> self.expirations().len() == 0,
            r matches Some(t) ==> t == self.expirations()[0].0 && forall|j: int|
                0 <= j < self.expirations().len() ==> t <= (#[trigger] self.expirations()[j]).0,
    {
        if self.expirations.len() == 0 {
            None
        } else {
            proof {
                let x = self.expirations();
                assert forall|j: int| 0 <= j < x.len() implies x[0].0 <= (#[trigger] x[j]).0 by {
                    if j > 0 {
                        assert(pair_lt(x[0], x[j]));
                    }
                }
            }
            Some(self.expirations[0].0)
        }
    }

    /// Removes the entry under `key`, if any, and its pair in the expiry index.
    fn remove_key(&mut self, key: &str)
        requires
            old(self).wf(),
        ensures
            final(self).wf(),
            final(self)@ == old(self)@.remove(key@),
            final(self).shutdown == old(self).shutdown,
            final(self).expirations().len() <= old(self).expirations().len(),
            (exists|j: int|
                0 <= j < old(self).expirations().len() && (#[trigger] old(self).expirations()[j]).1
                    == key@) ==> final(self).expirations().len() < old(self).expirations().len(),
    {
        let ghost m0 = self@;
        let ghost e0 = self.entries@;
        let ghost x0 = self.expirations();
        if let Some(i) = self.position(key) {
            self.entries.remove(i);
            proof {
                assert forall|k: Seq<char>| #[trigger] lookup(self.entries@, k) == if k == key@ {
                    None
                } else {
                    lookup(e0, k)
                } by {
                    lemma_lookup_remove(e0, i as int, k);
                }
                lemma_lookup_remove(e0, i as int, key@);
            }
        } else {
            proof {
                lemma_lookup(e0, key@);
            }
        }
        proof {
            assert(self@ =~= m0.remove(key@));
        }
        let mut j: usize = 0;
        while j < self.expirations.len()
            invariant
                j <= self.expirations@.len(),
                self.expirations() == x0,
                self.expirations@.len() == x0.len(),
                forall|a: int| 0 <= a < j ==> (#[trigger] x0[a]).1 != key@,
            ensures
                j <= self.expirations@.len(),
                self.expirations() == x0,
                self.expirations@.len() == x0.len(),
                forall|a: int| 0 <= a < j ==> (#[trigger] x0[a]).1 != key@,
                j < x0.len() ==> x0[j as int].1 == key@,
            decreases self.expirations.len() - j,
        {
            if text_eq(self.expirations[j].1.as_str(), key) {
                proof {
                    assert(x0[j as int] == (self.expirations@[j as int].0, self.expirations@[j as int].1@));
                }
                break;
            }
            proof {
                assert(x0[j as int] == (self.expirations@[j as int].0, self.expirations@[j as int].1@));
            }
            j += 1;
        }
        if j < self.expirations.len() {
            let ghost pair = self.expirations@[j as int];
            self.expirations.remove(j);
            proof {
                assert(x0[j as int] == (pair.0, pair.1@));
                assert(self.expirations() =~= x0.remove(j as int));
            }
        }
        proof {
            let x = self.expirations();
            let m = self@;
            assert(self.entries_unique());
            assert forall|a: int| 0 <= a < x.len() implies m.contains_key((#[trigger] x[a]).1)
                && m[x[a].1].1 == Some(x[a].0) by {
                if x.len() < x0.len() {
                    let a2 = if a < j {
                        a
                    } else {
                        a + 1
                    };
                    assert(x[a] == x0[a2]);
                    assert(x0[a2].1 != key@);
                } else {
                    assert(x[a] == x0[a]);
                }
            }
            assert forall|k: Seq<char>| m.contains_key(k) && (#[trigger] m[k]).1 is Some implies exists|a: int|
                0 <= a < x.len() && #[trigger] x[a] == (m[k].1->Some_0, k) by {
                assert(m0.contains_key(k) && m0[k] == m[k]);
                let b = choose|b: int| 0 <= b < x0.len() && #[trigger] x0[b] == (m0[k].1->Some_0, k);
                if x.len() < x0.len() {
                    if b < j {
                        assert(x[b] == x0[b]);
                    } else {
                        assert(b != j);
                        assert(x[b - 1] == x0[b]);
                    }
                } else {
                    assert(x[b] == x0[b]);
                }
            }
            assert forall|a: int, b: int| 0 <= a < b < x.len() implies (#[trigger] x[a]).1 != (
            #[trigger] x[b]).1 && pair_lt(x[a], x[b]) by {
                if x.len() < x0.len() {
                    let a2 = if a < j {
                        a
                    } else {
                        a + 1
                    };
                    let b2 = if b < j {
                        b
                    } else {
                        b + 1
                    };
                    assert(x[a] == x0[a2] && x[b] == x0[b2]);
                } else {
                    assert(x[a] == x0[a] && x[b] == x0[b]);
                }
            }
        }
    }

    /// Adds an entry under a key that the store does not hold.
    fn insert_new(&mut self, key: String, value: Vec<u8>, when: Option<u64>)
        requires
            old(self).wf(),
            !old(self)@.contains_key(key@),
        ensures
            final(self).wf(),
            final(self)@ == old(self)@.insert(key@, (value@, when)),
            final(self).shutdown == old(self).shutdown,
    {
        let ghost m0 = self@;
        let ghost e0 = self.entries@;
        let ghost x0 = self.expirations();
        let ghost kv = key@;
        let ghost vv = value@;
        proof {
            lemma_lookup(e0, key@);
        }
        let index_key = key.clone();
        let e = Entry { key, data: value, expires_at: when };
        self.entries.push(e);
        proof {
            assert forall|k: Seq<char>| #[trigger] lookup(self.entries@, k) == if k == kv {
                Some((vv, when))
            } else {
                lookup(e0, k)
            } by {
                lemma_lookup_push(e0, e, k);
            }
            assert(self@ =~= m0.insert(kv, (vv, when)));
            assert(keys_unique(self.entries@)) by {
                assert forall|a: int, b: int| 0 <= a < b < self.entries@.len() implies (
                #[trigger] self.entries@[a]).key@ != (#[trigger] self.entries@[b]).key@ by {
                    if b == e0.len() {
                        assert(self.entries@[a] == e0[a]);
                    } else {
                        assert(self.entries@[a] == e0[a] && self.entries@[b] == e0[b]);
                    }
                }
            }
        }
        if let Some(t) = when {
            let mut p: usize = 0;
            while p < self.expirations.len()
                invariant
                    p <= self.expirations@.len(),
                    self.expirations() == x0,
                    self.expirations@.len() == x0.len(),
                    kv == index_key@,
                    forall|a: int| 0 <= a < p ==> !pair_lt((t, kv), #[trigger] x0[a]),
                ensures
                    p <= self.expirations@.len(),
                    self.expirations() == x0,
                    self.expirations@.len() == x0.len(),
                    forall|a: int| 0 <= a < p ==> !pair_lt((t, kv), #[trigger] x0[a]),
                    p < x0.len() ==> pair_lt((t, kv), x0[p as int]),
                decreases self.expirations.len() - p,
            {
                proof {
                    assert(x0[p as int] == (self.expirations@[p as int].0, self.expirations@[p as int].1@));
                }
                if pair_before(t, index_key.as_str(), self.expirations[p].0, self.expirations[p].1.as_str()) {
                    break;
                }
                p += 1;
            }
            self.expirations.insert(p, (t, index_key));
            proof {
                let x = self.expirations();
                let m = self@;
                let ip = p as int;
                assert(x =~= x0.insert(ip, (t, kv)));
                assert forall|a: int| 0 <= a < x.len() implies m.contains_key((#[trigger] x[a]).1)
                    && m[x[a].1].1 == Some(x[a].0) by {
                    if a < ip {
                        assert(x[a] == x0[a]);
                    } else if a > ip {
                        assert(x[a] == x0[a - 1]);
                    }
                }
                assert forall|k: Seq<char>| m.contains_key(k) && (#[trigger] m[k]).1 is Some implies exists|a: int|
                    0 <= a < x.len() && #[trigger] x[a] == (m[k].1->Some_0, k) by {
                    if k == kv {
                        assert(x[ip] == (t, kv));
                    } else {
                        assert(m0.contains_key(k) && m0[k] == m[k]);
                        let b = choose|b: int| 0 <= b < x0.len() && #[trigger] x0[b] == (m0[k].1->Some_0, k);
                        if b < ip {
                            assert(x[b] == x0[b]);
                        } else {
                            assert(x[b + 1] == x0[b]);
                        }
                    }
                }
                assert forall|a: int, b: int| 0 <= a < b < x.len() implies (#[trigger] x[a]).1 != (
                #[trigger] x[b]).1 && pair_lt(x[a], x[b]) by {
                    let a2 = if a < ip {
                        a
                    } else {
                        a - 1
                    };
                    let b2 = if b < ip {
                        b
                    } else {
                        b - 1
                    };
                    if a == ip {
                        assert(x[b] == x0[b2]);
                        assert(m0.contains_key(x0[b2].1));
                        if b2 > p {
                            assert(pair_lt(x0[p as int], x0[b2]));
                            lemma_pair_lt_trans((t, kv), x0[p as int], x0[b2]);
                        }
                    } else if b == ip {
                        assert(x[a] == x0[a2]);
                        assert(m0.contains_key(x0[a2].1));
                        lemma_pair_lt_total(x0[a2], (t, kv));
                    } else {
                        assert(x[a] == x0[a2] && x[b] == x0[b2]);
                    }
                }
            }
        } else {
            proof {
                let x = self.expirations();
                let m = self@;
                assert forall|a: int| 0 <= a < x.len() implies m.contains_key((#[trigger] x[a]).1)
                    && m[x[a].1].1 == Some(x[a].0) by {
                    assert(m0.contains_key(x0[a].1));
                }
                assert forall|k: Seq<char>| m.contains_key(k) && (#[trigger] m[k]).1 is Some implies exists|a: int|
                    0 <= a < x.len() && #[trigger] x[a] == (m[k].1->Some_0, k) by {
                    assert(m0.contains_key(k) && m0[k] == m[k]);
                }
            }
        }
    }

    /// Sets `key` to `value`, replacing any previous entry and its expiry, and
    /// returns whether the sweeper must be woken: the new entry expires before
    /// every instant in the index.
    pub fn set(&mut self, key: String, value: Vec<u8>, expire: Option<u64>, now: u64) -> (notify:
        bool)
        requires
            old(self).wf(),
        ensures
            final(self).wf(),
            final(self)@ == set_model(old(self)@, key@, value@, expire, now),
            final(self).is_shut_down() == old(self).is_shut_down(),
            notify == (expire matches Some(d) && (old(self).expirations().len() == 0 || old(
                self,
            ).expirations()[0].0 > deadline(now, d))),
    {
        let when: Option<u64> = match expire {
            Some(d) => Some(
                if d > u64::MAX - now {
                    u64::MAX
                } else {
                    now + d
                },
            ),
            None => None,
        };
        let notify = match when {
            Some(t) => match self.next_expiration() {
                Some(e) => e > t,
                None => true,
            },
            None => false,
        };
        self.remove_key(key.as_str());
        self.insert_new(key, value, when);
        proof {
            assert(final(self)@ =~= set_model(old(self)@, key@, value@, expire, now));
        }
        notify
    }

    /// Removes every entry whose instant has come at `now`, and returns the
    /// earliest instant left in the index. Does nothing once shut down.
    pub fn purge_expired_keys(&mut self, now: u64) -> (r: Option<u64>)
        requires
            old(self).wf(),
        ensures
            final(self).wf(),
            final(self).is_shut_down() == old(self).is_shut_down(),
            old(self).is_shut_down() ==> r is None && final(self)@ == old(self)@,
            !old(self).is_shut_down() ==> final(self)@ == purge_model(old(self)@, now) && (r is None
                <==> final(self).expirations().len() == 0) && (r matches Some(t) ==> t
                == final(self).expirations()[0].0 && now < t),
    {
        if self.shutdown {
            return None;
        }
        let ghost m0 = self@;
        loop
            invariant
                self.wf(),
                !self.shutdown,
                forall|k: Seq<char>| #[trigger] self@.contains_key(k) ==> m0.contains_key(k) && self@[k] == m0[k],
                forall|k: Seq<char>| m0.contains_key(k) && !self@.contains_key(k) ==> expired(#[trigger] m0[k], now),
                forall|k: Seq<char>| #[trigger] m0.contains_key(k) && !expired(m0[k], now) ==> self@.contains_key(k),
            ensures
                self.wf(),
                !self.shutdown,
                forall|k: Seq<char>| #[trigger] self@.contains_key(k) ==> m0.contains_key(k) && self@[k] == m0[k],
                forall|k: Seq<char>| m0.contains_key(k) && !self@.contains_key(k) ==> expired(#[trigger] m0[k], now),
                forall|k: Seq<char>| #[trigger] m0.contains_key(k) && !expired(m0[k], now) ==> self@.contains_key(k),
                self.expirations@.len() == 0 || self.expirations@[0].0 > now,
            decreases self.expirations@.len(),
        {
            if self.expirations.len() == 0 {
                break;
            }
            if self.expirations[0].0 > now {
                break;
            }
            let key = self.expirations[0].1.clone();
            let ghost before = self@;
            proof {
                let x = self.expirations();
                assert(x[0] == (self.expirations@[0].0, self.expirations@[0].1@));
                assert(before.contains_key(key@) && before[key@].1 == Some(x[0].0));
            }
            self.remove_key(key.as_str());
            proof {
                assert forall|k: Seq<char>| m0.contains_key(k) && !self@.contains_key(k) implies expired(#[trigger] m0[k], now) by {
                    if k == key@ {
                        assert(m0[k] == before[k]);
                    }
                }
            }
        }
        proof {
            let x = self.expirations();
            assert forall|k: Seq<char>| #[trigger] self@.contains_key(k) implies !expired(self@[k], now) by {
                if self@[k].1 is Some {
                    let b = choose|b: int| 0 <= b < x.len() && #[trigger] x[b] == (self@[k].1->Some_0, k);
                    if b > 0 {
                        assert(pair_lt(x[0], x[b]));
                    }
                    assert(x[0].0 == self.expirations@[0].0);
                }
            }
            assert(self@ =~= purge_model(m0, now));
        }
        let r = self.next_expiration();
        proof {
            if self.expirations@.len() > 0 {
                assert(self.expirations()[0].0 == self.expirations@[0].0);
            }
        }
        r
    }

    /// Tells the sweeper to stop.
    pub fn shutdown_purge_task(&mut self)
        requires
            old(self).wf(),
        ensures
            final(self).wf(),
            final(self)@ == old(self)@,
            final(self).expirations() == old(self).expirations(),
            final(self).is_shut_down(),
    {
        self.shutdown = true;
        proof {
            assert(final(self)@ =~= old(self)@);
            assert(final(self).expirations() =~= old(self).expirations());
        }
    }

    /// Whether the sweeper has been told to stop.
    pub fn is_shutdown(&self) -> (r: bool)
        ensures
            r == self.is_shut_down(),
    {
        self.shutdown
    }
}

} // verus!

verus! {

/// The store after the sets `ops`, without expiry, applied in order.
pub open spec fn apply_sets(m: Map<Seq<char>, EntryModel>, ops: Seq<(Seq<char>, Seq<u8>)>) -> Map<
    Seq<char>,
    EntryModel,
>
    decreases ops.len(),
{
    if ops.len() == 0 {
        m
    } else {
        apply_sets(m, ops.drop_last()).insert(ops.last().0, (ops.last().1, None))
    }
}

/// Once `key` is set to `value` without expiry, the store holds `value` under
/// `key` through any later sets of other keys.
pub proof fn lemma_get_after_set(
    m: Map<Seq<char>, EntryModel>,
    key: Seq<char>,
    value: Seq<u8>,
    now: u64,
    later: Seq<(Seq<char>, Seq<u8>)>,
)
    requires
        forall|i: int| 0 <= i < later.len() ==> (#[trigger] later[i]).0 != key,
    ensures
        apply_sets(set_model(m, key, value, None, now), later).contains_key(key),
        apply_sets(set_model(m, key, value, None, now), later)[key] == (value, None::<u64>),
    decreases later.len(),
{
    if later.len() > 0 {
        let rest = later.drop_last();
        assert forall|i: int| 0 <= i < rest.len() implies (#[trigger] rest[i]).0 != key by {
            assert(rest[i] == later[i]);
        }
        lemma_get_after_set(m, key, value, now, rest);
        assert(later.last() == later[later.len() - 1]);
    }
}

/// An entry set with a time to live survives every purge before its deadline
/// and is removed by the first purge at or after it.
pub proof fn lemma_expiry(
    m: Map<Seq<char>, EntryModel>,
    key: Seq<char>,
    value: Seq<u8>,
    ttl: u64,
    set_time: u64,
    now: u64,
)
    requires
        set_time + ttl <= u64::MAX,
    ensures
        now < set_time + ttl ==> purge_model(set_model(m, key, value, Some(ttl), set_time), now).contains_key(key)
            && purge_model(set_model(m, key, value, Some(ttl), set_time), now)[key].0 == value,
        now >= set_time + ttl ==> !purge_model(set_model(m, key, value, Some(ttl), set_time), now).contains_key(key),
{
}

} // verus!

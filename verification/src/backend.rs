//! The storage-backend abstraction behind the store: a capability set any
//! concrete map must satisfy, a plain map, and a recording map that captures
//! read history for later proof export.

use vstd::prelude::*;
use crate::digest::{Digest, Node};

verus! {

/// Whether some entry of `s` carries the key `k`.
pub open spec fn has_key(s: Seq<(Digest, Node)>, k: Digest) -> bool {
    exists|i: int| 0 <= i < s.len() && (#[trigger] s[i]).0 == k
}

/// Whether all entries of `s` carry pairwise distinct keys.
pub open spec fn keys_distinct(s: Seq<(Digest, Node)>) -> bool {
    forall|i: int, j: int| 0 <= i < j < s.len() ==> (#[trigger] s[i]).0 != (#[trigger] s[j]).0
}

/// Inserts every entry of `s` into `m`, first to last; a later entry with the
/// same key wins.
pub open spec fn insert_all(m: Map<Digest, Node>, s: Seq<(Digest, Node)>) -> Map<Digest, Node>
    decreases s.len(),
{
    if s.len() == 0 {
        m
    } else {
        insert_all(m.insert(s[0].0, s[0].1), s.drop_first())
    }
}

/// The map a sequence of entries builds up from nothing.
pub open spec fn seq_to_map(s: Seq<(Digest, Node)>) -> Map<Digest, Node> {
    insert_all(Map::empty(), s)
}

pub proof fn lemma_insert_all_membership(m: Map<Digest, Node>, s: Seq<(Digest, Node)>, k: Digest)
    ensures
        insert_all(m, s).contains_key(k) <==> (m.contains_key(k) || has_key(s, k)),
        !has_key(s, k) && m.contains_key(k) ==> insert_all(m, s)[k] == m[k],
    decreases s.len(),
{
    if s.len() > 0 {
        let m1 = m.insert(s[0].0, s[0].1);
        lemma_insert_all_membership(m1, s.drop_first(), k);
        if has_key(s.drop_first(), k) {
            let i = choose|i: int| 0 <= i < s.drop_first().len() && (#[trigger] s.drop_first()[i]).0 == k;
            assert(s[i + 1].0 == k);
        }
        if has_key(s, k) && s[0].0 != k {
            let i = choose|i: int| 0 <= i < s.len() && (#[trigger] s[i]).0 == k;
            assert(s.drop_first()[i - 1].0 == k);
        }
    }
}

pub proof fn lemma_insert_all_value(m: Map<Digest, Node>, s: Seq<(Digest, Node)>, i: int)
    requires
        0 <= i < s.len(),
        forall|j: int| i < j < s.len() ==> (#[trigger] s[j]).0 != s[i].0,
    ensures
        insert_all(m, s).contains_key(s[i].0),
        insert_all(m, s)[s[i].0] == s[i].1,
    decreases s.len(),
{
    let m1 = m.insert(s[0].0, s[0].1);
    if i == 0 {
        lemma_insert_all_membership(m1, s.drop_first(), s[0].0);
        if has_key(s.drop_first(), s[0].0) {
            let j = choose|j: int|
                0 <= j < s.drop_first().len() && (#[trigger] s.drop_first()[j]).0 == s[0].0;
            assert(s[j + 1].0 == s[0].0);
            assert(false);
        }
    } else {
        lemma_insert_all_value(m1, s.drop_first(), i - 1);
        assert(s.drop_first()[i - 1] == s[i]);
        let t = s.drop_first();
        assert forall|j: int| i - 1 < j < t.len() implies (#[trigger] t[j]).0 != t[i - 1].0 by {
            assert(t[j] == s[j + 1]);
        }
    }
}

pub proof fn lemma_insert_all_finite(m: Map<Digest, Node>, s: Seq<(Digest, Node)>)
    requires
        m.dom().finite(),
    ensures
        insert_all(m, s).dom().finite(),
    decreases s.len(),
{
    if s.len() > 0 {
        lemma_insert_all_finite(m.insert(s[0].0, s[0].1), s.drop_first());
    }
}

pub proof fn lemma_insert_all_len(m: Map<Digest, Node>, s: Seq<(Digest, Node)>)
    requires
        m.dom().finite(),
        keys_distinct(s),
        forall|i: int| 0 <= i < s.len() ==> !m.contains_key((#[trigger] s[i]).0),
    ensures
        insert_all(m, s).dom().finite(),
        insert_all(m, s).dom().len() == m.dom().len() + s.len(),
    decreases s.len(),
{
    lemma_insert_all_finite(m, s);
    if s.len() > 0 {
        let m1 = m.insert(s[0].0, s[0].1);
        assert forall|i: int| 0 <= i < s.drop_first().len() implies !m1.contains_key(
            (#[trigger] s.drop_first()[i]).0,
        ) by {
            assert(s.drop_first()[i] == s[i + 1]);
        }
        lemma_insert_all_len(m1, s.drop_first());
    }
}

pub proof fn lemma_insert_all_push(m: Map<Digest, Node>, s: Seq<(Digest, Node)>, p: (Digest, Node))
    ensures
        insert_all(m, s.push(p)) == insert_all(m, s).insert(p.0, p.1),
    decreases s.len(),
{
    if s.len() == 0 {
        assert(s.push(p)[0] == p);
        assert(s.push(p).drop_first() =~= Seq::<(Digest, Node)>::empty());
        assert(insert_all(m, s.push(p)) == insert_all(
            m.insert(p.0, p.1),
            s.push(p).drop_first(),
        ));
        assert(insert_all(m, s.push(p)) == m.insert(p.0, p.1));
        assert(insert_all(m, s) == m);
    } else {
        assert(s.push(p)[0] == s[0]);
        assert(s.push(p).drop_first() =~= s.drop_first().push(p));
        lemma_insert_all_push(m.insert(s[0].0, s[0].1), s.drop_first(), p);
    }
}

pub proof fn lemma_seq_to_map_update(s: Seq<(Digest, Node)>, i: int, p: (Digest, Node))
    requires
        keys_distinct(s),
        0 <= i < s.len(),
        s[i].0 == p.0,
    ensures
        seq_to_map(s.update(i, p)) == seq_to_map(s).insert(p.0, p.1),
{
    lemma_insert_all_update(Map::empty(), s, i, p);
}

proof fn lemma_insert_all_update(
    m: Map<Digest, Node>,
    s: Seq<(Digest, Node)>,
    i: int,
    p: (Digest, Node),
)
    requires
        keys_distinct(s),
        0 <= i < s.len(),
        s[i].0 == p.0,
    ensures
        insert_all(m, s.update(i, p)) == insert_all(m, s).insert(p.0, p.1),
    decreases s.len(),
{
    if i == 0 {
        assert(s.update(0, p)[0] == p);
        assert(s.update(0, p).drop_first() =~= s.drop_first());
        let t = s.drop_first();
        assert(!has_key(t, p.0)) by {
            if has_key(t, p.0) {
                let j = choose|j: int| 0 <= j < t.len() && (#[trigger] t[j]).0 == p.0;
                assert(s[j + 1].0 == p.0);
            }
        }
        lemma_insert_all_absorb(m.insert(s[0].0, s[0].1), t, p.0, p.1);
        lemma_double_insert(m, t, p.0, s[0].1, p.1);
    } else {
        assert(s.update(i, p)[0] == s[0]);
        assert(s.update(i, p).drop_first() =~= s.drop_first().update(i - 1, p));
        assert forall|a: int, b: int| 0 <= a < b < s.drop_first().len() implies (
        #[trigger] s.drop_first()[a]).0 != (#[trigger] s.drop_first()[b]).0 by {
            assert(s.drop_first()[a] == s[a + 1]);
            assert(s.drop_first()[b] == s[b + 1]);
        }
        assert(s.drop_first()[i - 1] == s[i]);
        lemma_insert_all_update(m.insert(s[0].0, s[0].1), s.drop_first(), i - 1, p);
    }
}

/// An insertion of a key that no entry of `s` carries commutes with
/// inserting the entries of `s`.
proof fn lemma_insert_all_absorb(m: Map<Digest, Node>, s: Seq<(Digest, Node)>, k: Digest, v: Node)
    requires
        !has_key(s, k),
    ensures
        insert_all(m, s).insert(k, v) == insert_all(m.insert(k, v), s),
    decreases s.len(),
{
    if s.len() > 0 {
        assert(s[0].0 != k);
        assert(!has_key(s.drop_first(), k)) by {
            if has_key(s.drop_first(), k) {
                let j = choose|j: int|
                    0 <= j < s.drop_first().len() && (#[trigger] s.drop_first()[j]).0 == k;
                assert(s[j + 1].0 == k);
            }
        }
        assert(m.insert(k, v).insert(s[0].0, s[0].1) =~= m.insert(s[0].0, s[0].1).insert(k, v));
        lemma_insert_all_absorb(m.insert(s[0].0, s[0].1), s.drop_first(), k, v);
    }
}

/// Inserting twice under one key keeps only the later value, wherever in the
/// suffix the key does not recur.
proof fn lemma_double_insert(
    m: Map<Digest, Node>,
    s: Seq<(Digest, Node)>,
    k: Digest,
    v1: Node,
    v2: Node,
)
    ensures
        insert_all(m.insert(k, v2), s) == insert_all(m.insert(k, v1).insert(k, v2), s),
    decreases s.len(),
{
    assert(m.insert(k, v2) =~= m.insert(k, v1).insert(k, v2));
}

/// The capability set a concrete map type must satisfy to back the store:
/// lookup, insertion, key test, enumeration, bulk extension, and construction
/// from a list of entries. `data` is the map held; `recorded` is the read
/// history a recording backend accumulates, and stays empty on a plain one.
pub trait MerkleMapT: Sized {
    /// The key-to-node map this backend holds.
    spec fn data(&self) -> Map<Digest, Node>;

    /// The read history accumulated so far.
    spec fn recorded(&self) -> Map<Digest, Node>;

    /// Whether this backend records reads.
    spec fn records() -> bool;

    /// The backend's internal well-formedness.
    spec fn inv(&self) -> bool;

    proof fn lemma_inv(&self)
        requires
            self.inv(),
        ensures
            self.data().dom().finite(),
            self.recorded().dom().finite(),
    ;

    /// Builds a backend holding the given entries and no read history.
    fn from_entries(entries: Vec<(Digest, Node)>) -> (r: Self)
        ensures
            r.inv(),
            r.data() == seq_to_map(entries@),
            r.recorded() == Map::<Digest, Node>::empty(),
    ;

    /// Looks a key up; on a recording backend this also notes the entry read,
    /// the first time the key is seen.
    fn get(&mut self, key: &Digest) -> (r: Option<Node>)
        requires
            old(self).inv(),
        ensures
            final(self).inv(),
            final(self).data() == old(self).data(),
            r == (if old(self).data().contains_key(*key) {
                Some(old(self).data()[*key])
            } else {
                Option::<Node>::None
            }),
            final(self).recorded() == (if Self::records() && old(self).data().contains_key(*key)
                && !old(self).recorded().contains_key(*key) {
                old(self).recorded().insert(*key, old(self).data()[*key])
            } else {
                old(self).recorded()
            }),
    ;

    /// Looks a key up without touching the read history.
    fn peek(&self, key: &Digest) -> (r: Option<Node>)
        requires
            self.inv(),
        ensures
            r == (if self.data().contains_key(*key) {
                Some(self.data()[*key])
            } else {
                Option::<Node>::None
            }),
    ;

    /// Whether a key is present; never touches the read history.
    fn contains_key(&self, key: &Digest) -> (r: bool)
        requires
            self.inv(),
        ensures
            r == self.data().contains_key(*key),
    ;

    /// Inserts an entry, returning the value it replaces if the key was held.
    fn insert(&mut self, key: Digest, value: Node) -> (prev: Option<Node>)
        requires
            old(self).inv(),
        ensures
            final(self).inv(),
            final(self).data() == old(self).data().insert(key, value),
            final(self).recorded() == old(self).recorded(),
            prev == (if old(self).data().contains_key(key) {
                Some(old(self).data()[key])
            } else {
                Option::<Node>::None
            }),
    ;

    /// The number of entries held.
    fn len(&self) -> (n: usize)
        requires
            self.inv(),
        ensures
            n == self.data().dom().len(),
    ;

    /// Every entry held, each key once.
    fn entries(&self) -> (r: Vec<(Digest, Node)>)
        requires
            self.inv(),
        ensures
            r@.len() == self.data().dom().len(),
            keys_distinct(r@),
            forall|i: int| 0 <= i < r@.len() ==> self.data().contains_key((#[trigger] r@[i]).0)
                && self.data()[r@[i].0] == r@[i].1,
            forall|k: Digest| self.data().contains_key(k) ==> has_key(r@, k),
    ;

    /// Inserts every given entry, first to last.
    fn extend_entries(&mut self, entries: Vec<(Digest, Node)>)
        requires
            old(self).inv(),
        ensures
            final(self).inv(),
            final(self).data() == insert_all(old(self).data(), entries@),
            final(self).recorded() == old(self).recorded(),
    ;
}

/// The plain backend: a list of entries with pairwise distinct keys.
pub struct MerkleMap {
    entries: Vec<(Digest, Node)>,
}

impl MerkleMap {
    pub closed spec fn map_view(&self) -> Map<Digest, Node> {
        seq_to_map(self.entries@)
    }

    pub closed spec fn wf(&self) -> bool {
        keys_distinct(self.entries@)
    }

    /// The position of a key among the entries, if it is held.
    fn find(&self, key: &Digest) -> (r: Option<usize>)
        ensures
            match r {
                Some(i) => i < self.entries@.len() && self.entries@[i as int].0 == *key,
                None => !has_key(self.entries@, *key),
            },
    {
        let n = self.entries.len();
        let mut i: usize = 0;
        while i < n
            invariant
                n == self.entries@.len(),
                i <= n,
                forall|j: int| 0 <= j < i ==> (#[trigger] self.entries@[j]).0 != *key,
            decreases n - i,
        {
            if self.entries[i].0 == *key {
                return Some(i);
            }
            i = i + 1;
        }
        None
    }
}

impl MerkleMapT for MerkleMap {
    closed spec fn data(&self) -> Map<Digest, Node> {
        self.map_view()
    }

    closed spec fn recorded(&self) -> Map<Digest, Node> {
        Map::empty()
    }

    closed spec fn records() -> bool {
        false
    }

    closed spec fn inv(&self) -> bool {
        self.wf()
    }

    proof fn lemma_inv(&self) {
        lemma_insert_all_len(Map::empty(), self.entries@);
    }

    fn from_entries(entries: Vec<(Digest, Node)>) -> (r: Self) {
        let mut r = MerkleMap { entries: Vec::new() };
        let n = entries.len();
        let mut i: usize = 0;
        proof {
            assert(entries@.take(0) =~= Seq::<(Digest, Node)>::empty());
        }
        while i < n
            invariant
                n == entries@.len(),
                i <= n,
                r.wf(),
                r.map_view() == seq_to_map(entries@.take(i as int)),
            decreases n - i,
        {
            let pair = entries[i];
            r.store(pair.0, pair.1);
            proof {
                assert(entries@.take(i + 1) =~= entries@.take(i as int).push(pair));
                lemma_insert_all_push(Map::empty(), entries@.take(i as int), pair);
            }
            i = i + 1;
        }
        proof {
            assert(entries@.take(n as int) =~= entries@);
        }
        r
    }

    fn get(&mut self, key: &Digest) -> (r: Option<Node>) {
        self.lookup(key)
    }

    fn peek(&self, key: &Digest) -> (r: Option<Node>) {
        self.lookup(key)
    }

    fn contains_key(&self, key: &Digest) -> (r: bool) {
        self.lookup(key).is_some()
    }

    fn insert(&mut self, key: Digest, value: Node) -> (prev: Option<Node>) {
        self.store(key, value)
    }

    fn len(&self) -> (n: usize) {
        proof {
            lemma_insert_all_len(Map::empty(), self.entries@);
        }
        self.entries.len()
    }

    fn entries(&self) -> (r: Vec<(Digest, Node)>) {
        let n = self.entries.len();
        let mut r: Vec<(Digest, Node)> = Vec::new();
        let mut i: usize = 0;
        while i < n
            invariant
                n == self.entries@.len(),
                i <= n,
                r@ =~= self.entries@.take(i as int),
            decreases n - i,
        {
            r.push(self.entries[i]);
            proof {
                assert(self.entries@.take(i + 1) =~= self.entries@.take(i as int).push(
                    self.entries@[i as int],
                ));
            }
            i = i + 1;
        }
        proof {
            assert(r@ =~= self.entries@);
            lemma_insert_all_len(Map::empty(), self.entries@);
            assert forall|i: int| 0 <= i < r@.len() implies self.data().contains_key(
                (#[trigger] r@[i]).0,
            ) && self.data()[r@[i].0] == r@[i].1 by {
                lemma_insert_all_value(Map::empty(), self.entries@, i);
            }
            assert forall|k: Digest| self.data().contains_key(k) implies has_key(r@, k) by {
                lemma_insert_all_membership(Map::empty(), self.entries@, k);
            }
        }
        r
    }

    fn extend_entries(&mut self, entries: Vec<(Digest, Node)>) {
        let n = entries.len();
        let mut i: usize = 0;
        proof {
            assert(entries@.take(0) =~= Seq::<(Digest, Node)>::empty());
            assert(insert_all(self.map_view(), entries@.take(0)) == self.map_view());
        }
        while i < n
            invariant
                n == entries@.len(),
                i <= n,
                self.wf(),
                self.map_view() == insert_all(old(self).map_view(), entries@.take(i as int)),
            decreases n - i,
        {
            let pair = entries[i];
            self.store(pair.0, pair.1);
            proof {
                assert(entries@.take(i + 1) =~= entries@.take(i as int).push(pair));
                lemma_insert_all_push(old(self).map_view(), entries@.take(i as int), pair);
            }
            i = i + 1;
        }
        proof {
            assert(entries@.take(n as int) =~= entries@);
        }
    }
}

impl MerkleMap {
    /// A plain map never holds read history.
    pub proof fn lemma_no_recording(&self)
        ensures
            self.recorded() == Map::<Digest, Node>::empty(),
    {
    }

    /// An empty plain map.
    pub fn empty() -> (r: MerkleMap)
        ensures
            r.inv(),
            r.data() == Map::<Digest, Node>::empty(),
            r.recorded() == Map::<Digest, Node>::empty(),
    {
        MerkleMap { entries: Vec::new() }
    }

    /// Looks a key up.
    pub fn lookup(&self, key: &Digest) -> (r: Option<Node>)
        requires
            self.inv(),
        ensures
            r == (if self.data().contains_key(*key) {
                Some(self.data()[*key])
            } else {
                Option::<Node>::None
            }),
    {
        match self.find(key) {
            Some(i) => {
                proof {
                    lemma_insert_all_value(Map::empty(), self.entries@, i as int);
                }
                Some(self.entries[i].1)
            },
            None => {
                proof {
                    lemma_insert_all_membership(Map::empty(), self.entries@, *key);
                }
                None
            },
        }
    }

    /// Inserts an entry, returning the value it replaces if the key was held.
    pub fn store(&mut self, key: Digest, value: Node) -> (prev: Option<Node>)
        requires
            old(self).inv(),
        ensures
            final(self).inv(),
            final(self).data() == old(self).data().insert(key, value),
            final(self).recorded() == Map::<Digest, Node>::empty(),
            prev == (if old(self).data().contains_key(key) {
                Some(old(self).data()[key])
            } else {
                Option::<Node>::None
            }),
    {
        match self.find(&key) {
            Some(i) => {
                let prev = self.entries[i].1;
                proof {
                    lemma_insert_all_value(Map::empty(), self.entries@, i as int);
                }
                self.entries.remove(i);
                self.entries.insert(i, (key, value));
                proof {
                    assert(self.entries@ =~= old(self).entries@.update(i as int, (key, value)));
                    lemma_seq_to_map_update(old(self).entries@, i as int, (key, value));
                }
                Some(prev)
            },
            None => {
                self.entries.push((key, value));
                proof {
                    lemma_insert_all_push(Map::empty(), old(self).entries@, (key, value));
                    lemma_insert_all_membership(Map::empty(), old(self).entries@, key);
                    assert forall|a: int, b: int|
                        0 <= a < b < self.entries@.len() implies (#[trigger] self.entries@[a]).0
                        != (#[trigger] self.entries@[b]).0 by {
                        if b == self.entries@.len() - 1 {
                            assert(old(self).entries@[a].0 != key);
                        }
                    }
                }
                None
            },
        }
    }
}

/// The recording backend: a plain data map plus the history of entries read
/// through it, each key noted with the value it had when first read.
pub struct RecordingMerkleMap {
    store: MerkleMap,
    trace: MerkleMap,
}

impl RecordingMerkleMap {
    /// Wraps an existing plain map, starting with an empty read history.
    pub fn wrap(store: MerkleMap) -> (r: RecordingMerkleMap)
        requires
            store.inv(),
        ensures
            r.inv(),
            r.data() == store.data(),
            r.recorded() == Map::<Digest, Node>::empty(),
    {
        RecordingMerkleMap { store, trace: MerkleMap::empty() }
    }

    /// Consumes the backend and hands out exactly the entries read during its
    /// recording lifetime, as a plain map.
    pub fn into_proof(self) -> (r: MerkleMap)
        requires
            self.inv(),
        ensures
            r.inv(),
            r.data() == self.recorded(),
    {
        self.trace
    }
}

impl MerkleMapT for RecordingMerkleMap {
    closed spec fn data(&self) -> Map<Digest, Node> {
        self.store.data()
    }

    closed spec fn recorded(&self) -> Map<Digest, Node> {
        self.trace.data()
    }

    closed spec fn records() -> bool {
        true
    }

    closed spec fn inv(&self) -> bool {
        self.store.inv() && self.trace.inv()
    }

    proof fn lemma_inv(&self) {
        self.store.lemma_inv();
        self.trace.lemma_inv();
    }

    fn from_entries(entries: Vec<(Digest, Node)>) -> (r: Self) {
        RecordingMerkleMap { store: MerkleMap::from_entries(entries), trace: MerkleMap::empty() }
    }

    fn get(&mut self, key: &Digest) -> (r: Option<Node>) {
        match self.store.lookup(key) {
            Some(node) => {
                if self.trace.lookup(key).is_none() {
                    self.trace.store(*key, node);
                }
                Some(node)
            },
            None => None,
        }
    }

    fn peek(&self, key: &Digest) -> (r: Option<Node>) {
        self.store.lookup(key)
    }

    fn contains_key(&self, key: &Digest) -> (r: bool) {
        self.store.lookup(key).is_some()
    }

    fn insert(&mut self, key: Digest, value: Node) -> (prev: Option<Node>) {
        self.store.store(key, value)
    }

    fn len(&self) -> (n: usize) {
        self.store.len()
    }

    fn entries(&self) -> (r: Vec<(Digest, Node)>) {
        self.store.entries()
    }

    fn extend_entries(&mut self, entries: Vec<(Digest, Node)>) {
        self.store.extend_entries(entries)
    }
}

} // verus!

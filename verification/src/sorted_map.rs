//! A map kept as a vector of entries in ascending key order.
//!
//! The order of the entries is part of what the type promises: walking the
//! map visits the keys from the smallest to the largest, so everything
//! computed from a walk is reproducible.

use vstd::prelude::*;
use crate::order::{Key, Rank};

verus! {

/// The keys of `s` ascend strictly.
pub open spec fn ascending<K: Key, V>(s: Seq<(K, V)>) -> bool {
    forall|i: int, j: int| 0 <= i < j < s.len() ==> #[trigger] s[i].0.before(#[trigger] s[j].0)
}

/// `s` has an entry at index `i` whose key is `key`.
pub open spec fn holds_at<K: Key, V>(s: Seq<(K, V)>, key: K, i: int) -> bool {
    0 <= i < s.len() && s[i].0 == key
}

/// `s` has an entry for `key`.
pub open spec fn has_key<K: Key, V>(s: Seq<(K, V)>, key: K) -> bool {
    exists|i: int| holds_at(s, key, i)
}

/// `s` has an entry for `key` among its first `n`.
pub open spec fn has_key_within<K: Key, V>(s: Seq<(K, V)>, key: K, n: int) -> bool {
    exists|i: int| 0 <= i < n && holds_at(s, key, i)
}

/// The value of an entry of `s` for `key`.
pub open spec fn value_of<K: Key, V>(s: Seq<(K, V)>, key: K) -> V {
    s[choose|i: int| holds_at(s, key, i)].1
}

/// The entries of `s` as a map.
pub open spec fn to_map<K: Key, V>(s: Seq<(K, V)>) -> Map<K, V> {
    Map::new(|k: K| has_key(s, k), |k: K| value_of(s, k))
}

/// In an ascending sequence a key occurs at one index only.
pub proof fn lemma_one_index<K: Key, V>(s: Seq<(K, V)>, i: int, j: int)
    requires
        ascending(s),
        0 <= i < s.len(),
        0 <= j < s.len(),
        s[i].0 == s[j].0,
    ensures
        i == j,
{
    K::before_irreflexive(s[i].0);
    if i < j {
        assert(s[i].0.before(s[j].0));
    } else if j < i {
        assert(s[j].0.before(s[i].0));
    }
}

/// The map of an ascending sequence gives each entry's key that entry's value.
pub proof fn lemma_entry_in_map<K: Key, V>(s: Seq<(K, V)>, i: int)
    requires
        ascending(s),
        0 <= i < s.len(),
    ensures
        to_map(s).contains_key(s[i].0),
        to_map(s)[s[i].0] == s[i].1,
{
    assert(holds_at(s, s[i].0, i));
    let c = choose|c: int| holds_at(s, s[i].0, c);
    lemma_one_index(s, i, c);
}

/// Two ascending sequences that hold the same map are the same sequence.
pub proof fn lemma_same_map_same_entries<K: Key, V>(a: Seq<(K, V)>, b: Seq<(K, V)>)
    requires
        ascending(a),
        ascending(b),
        to_map(a) == to_map(b),
    ensures
        a == b,
    decreases a.len(),
{
    if a.len() == 0 {
        if b.len() > 0 {
            lemma_entry_in_map(b, 0);
            assert(to_map(a).contains_key(b[0].0));
            let c = choose|c: int| holds_at(a, b[0].0, c);
            assert(holds_at(a, b[0].0, c));
        }
        assert(a =~= b);
    } else {
        let n = a.len() - 1;
        lemma_entry_in_map(a, n);
        assert(to_map(b).contains_key(a[n].0));
        let cb = choose|c: int| holds_at(b, a[n].0, c);
        assert(holds_at(b, a[n].0, cb));
        assert(b.len() > 0);
        let m = b.len() - 1;
        lemma_entry_in_map(b, m);
        assert(to_map(a).contains_key(b[m].0));
        let ca = choose|c: int| holds_at(a, b[m].0, c);
        assert(holds_at(a, b[m].0, ca));
        // the two last keys are each other's upper bound
        K::before_connected(a[n].0, b[m].0);
        K::before_irreflexive(a[n].0);
        if a[n].0.before(b[m].0) {
            if ca < n {
                assert(a[ca].0.before(a[n].0));
                K::before_transitive(a[ca].0, a[n].0, b[m].0);
                K::before_irreflexive(b[m].0);
            }
        }
        if b[m].0.before(a[n].0) {
            if cb < m {
                assert(b[cb].0.before(b[m].0));
                K::before_transitive(b[cb].0, b[m].0, a[n].0);
            }
        }
        assert(a[n].0 == b[m].0);
        assert(a[n].1 == b[m].1);
        let a0 = a.drop_last();
        let b0 = b.drop_last();
        assert(ascending(a0));
        assert(ascending(b0));
        assert forall|k: K| has_key(a0, k) == has_key(b0, k) by {
            lemma_drop_last_keys(a, k);
            lemma_drop_last_keys(b, k);
            assert(to_map(a).dom().contains(k) == has_key(a, k));
            assert(to_map(b).dom().contains(k) == has_key(b, k));
        }
        assert forall|k: K| has_key(a0, k) implies value_of(a0, k) == value_of(b0, k) by {
            lemma_drop_last_keys(a, k);
            lemma_drop_last_keys(b, k);
            assert(to_map(a).dom().contains(k) == has_key(a, k));
            assert(to_map(b).dom().contains(k) == has_key(b, k));
            assert(to_map(a)[k] == value_of(a, k));
            assert(to_map(b)[k] == value_of(b, k));
        }
        assert(to_map(a0) =~= to_map(b0));
        lemma_same_map_same_entries(a0, b0);
        assert(a =~= a0.push(a[n]));
        assert(b =~= b0.push(b[m]));
    }
}

/// What dropping the last entry of an ascending sequence does to its keys.
pub proof fn lemma_drop_last_keys<K: Key, V>(s: Seq<(K, V)>, key: K)
    requires
        ascending(s),
        s.len() > 0,
    ensures
        has_key(s.drop_last(), key) == (has_key(s, key) && key != s.last().0),
        has_key(s.drop_last(), key) ==> value_of(s.drop_last(), key) == value_of(s, key),
{
    let d = s.drop_last();
    let n = s.len() - 1;
    assert(ascending(d));
    if has_key(d, key) {
        let c = choose|c: int| holds_at(d, key, c);
        assert(holds_at(s, key, c));
        assert(s[c].0.before(s[n].0));
        K::before_irreflexive(key);
        lemma_entry_in_map(s, c);
        lemma_entry_in_map(d, c);
    }
    if has_key(s, key) && key != s.last().0 {
        let c = choose|c: int| holds_at(s, key, c);
        assert(holds_at(d, key, c));
    }
}

/// The entries of a finite map in ascending key order.
pub open spec fn listing<K: Key, V>(m: Map<K, V>) -> Seq<(K, V)> {
    choose|s: Seq<(K, V)>| ascending(s) && to_map(s) == m
}

/// The listing of the map of an ascending sequence is that sequence.
pub proof fn lemma_listing<K: Key, V>(s: Seq<(K, V)>)
    requires
        ascending(s),
    ensures
        listing(to_map(s)) == s,
{
    let l = listing(to_map(s));
    assert(ascending(l) && to_map(l) == to_map(s));
    lemma_same_map_same_entries(l, s);
}

/// A sequence without entries holds the empty map.
pub proof fn lemma_empty_map<K: Key, V>(s: Seq<(K, V)>)
    requires
        s.len() == 0,
    ensures
        to_map(s) == Map::<K, V>::empty(),
        ascending(s),
{
    assert forall|k: K| !has_key(s, k) by {
        if has_key(s, k) {
            let c = choose|c: int| holds_at(s, k, c);
            assert(holds_at(s, k, c));
        }
    }
    assert(to_map(s) =~= Map::<K, V>::empty());
}

/// The map that a list of pairs makes when they are inserted one after the
/// other: of two pairs with one key the later one stays.
pub open spec fn collected<K: Key, V>(pairs: Seq<(K, V)>) -> Map<K, V>
    decreases pairs.len(),
{
    if pairs.len() == 0 {
        Map::empty()
    } else {
        collected(pairs.drop_last()).insert(pairs.last().0, pairs.last().1)
    }
}

/// A map from keys to values whose entries are kept in ascending key order.
#[derive(Clone, Debug, PartialEq, Eq)]
pub struct SortedMap<K, V> {
    entries: Vec<(K, V)>,
}

impl<K: Key, V> View for SortedMap<K, V> {
    type V = Seq<(K, V)>;

    closed spec fn view(&self) -> Seq<(K, V)> {
        self.entries@
    }
}

impl<K: Key, V: Copy> SortedMap<K, V> {
    /// The map that `pairs` make when they are inserted one after the other.
    pub fn from_pairs(pairs: &Vec<(K, V)>) -> (m: Self)
        ensures
            m.wf(),
            m.map() == collected(pairs@),
    {
        let mut m: SortedMap<K, V> = SortedMap::new();
        let n: usize = pairs.len();
        let mut i: usize = 0;
        proof {
            assert(pairs@.take(0) =~= Seq::<(K, V)>::empty());
        }
        while i < n
            invariant
                i <= n,
                n == pairs@.len(),
                m.wf(),
                m.map() == collected(pairs@.take(i as int)),
            decreases n - i,
        {
            proof {
                assert(pairs@.take(i + 1).drop_last() =~= pairs@.take(i as int));
            }
            m.insert(pairs[i].0, pairs[i].1);
            i += 1;
        }
        proof {
            assert(pairs@.take(n as int) =~= pairs@);
        }
        m
    }
}

impl<K: Key, V> SortedMap<K, V> {
    /// The keys ascend strictly, so no key occurs twice.
    pub open spec fn wf(&self) -> bool {
        ascending(self@)
    }

    /// The entries as a map.
    pub open spec fn map(&self) -> Map<K, V> {
        to_map(self@)
    }

    /// The empty map.
    pub fn new() -> (m: Self)
        ensures
            m.wf(),
            m@ == Seq::<(K, V)>::empty(),
            m.map() == Map::<K, V>::empty(),
    {
        let m = SortedMap { entries: Vec::new() };
        proof {
            lemma_empty_map(m@);
        }
        m
    }

    /// The number of entries.
    pub fn len(&self) -> (n: usize)
        ensures
            n == self@.len(),
    {
        self.entries.len()
    }

    /// The key of the entry at `index`, counting in ascending key order.
    pub fn key_at(&self, index: usize) -> (key: K)
        requires
            index < self@.len(),
        ensures
            key == self@[index as int].0,
    {
        self.entries[index].0
    }

    /// The value of the entry at `index`, counting in ascending key order.
    pub fn value_at(&self, index: usize) -> (value: &V)
        requires
            index < self@.len(),
        ensures
            *value == self@[index as int].1,
    {
        &self.entries[index].1
    }

    /// Where `key` is, or where it would have to go: `Ok` with the index of
    /// its entry, or `Err` with the index at which an entry for it keeps the
    /// order.
    pub fn find(&self, key: &K) -> (r: Result<usize, usize>)
        requires
            self.wf(),
        ensures
            match r {
                Ok(i) => holds_at(self@, *key, i as int),
                Err(i) => {
                    &&& !has_key(self@, *key)
                    &&& i <= self@.len()
                    &&& forall|j: int| 0 <= j < i ==> (#[trigger] self@[j]).0.before(*key)
                    &&& forall|j: int| i <= j < self@.len() ==> key.before((#[trigger] self@[j]).0)
                },
            },
    {
        let mut lo: usize = 0;
        let mut hi: usize = self.entries.len();
        while lo < hi
            invariant
                self.wf(),
                lo <= hi <= self@.len(),
                self@ == self.entries@,
                forall|j: int| 0 <= j < lo ==> (#[trigger] self@[j]).0.before(*key),
                forall|j: int| hi <= j < self@.len() ==> key.before((#[trigger] self@[j]).0),
            decreases hi - lo,
        {
            let mid: usize = lo + (hi - lo) / 2;
            match self.entries[mid].0.rank(key) {
                Rank::Same => {
                    return Ok(mid);
                },
                Rank::Before => {
                    assert forall|j: int| 0 <= j < mid + 1 implies (#[trigger] self@[j]).0.before(
                        *key,
                    ) by {
                        if j < mid {
                            assert(self@[j].0.before(self@[mid as int].0));
                            K::before_transitive(self@[j].0, self@[mid as int].0, *key);
                        }
                    }
                    lo = mid + 1;
                },
                Rank::After => {
                    assert forall|j: int| mid <= j < self@.len() implies key.before(
                        (#[trigger] self@[j]).0,
                    ) by {
                        if mid < j {
                            assert(self@[mid as int].0.before(self@[j].0));
                            K::before_transitive(*key, self@[mid as int].0, self@[j].0);
                        }
                    }
                    hi = mid;
                },
            }
        }
        proof {
            K::before_irreflexive(*key);
            if has_key(self@, *key) {
                let c = choose|c: int| holds_at(self@, *key, c);
                assert(holds_at(self@, *key, c));
                if c < lo {
                    assert(self@[c].0.before(*key));
                } else {
                    assert(key.before(self@[c].0));
                }
            }
        }
        Err(lo)
    }

    /// The value stored for `key`, if there is one.
    pub fn get(&self, key: &K) -> (r: Option<&V>)
        requires
            self.wf(),
        ensures
            r is Some <==> self.map().contains_key(*key),
            r matches Some(v) ==> *v == self.map()[*key],
    {
        match self.find(key) {
            Ok(i) => {
                proof {
                    lemma_entry_in_map(self@, i as int);
                }
                Some(&self.entries[i].1)
            },
            Err(_) => None,
        }
    }

    /// Stores `value` for `key`, in place of what was stored for it before.
    pub fn insert(&mut self, key: K, value: V)
        requires
            old(self).wf(),
        ensures
            final(self).wf(),
            final(self).map() == old(self).map().insert(key, value),
    {
        let ghost before = self@;
        match self.find(&key) {
            Ok(i) => {
                self.entries[i] = (key, value);
                proof {
                    let after = self@;
                    assert(after == before.update(i as int, (key, value)));
                    assert forall|a: int, b: int| 0 <= a < b < after.len() implies (
                    #[trigger] after[a]).0.before((#[trigger] after[b]).0) by {
                        assert(before[a].0.before(before[b].0));
                    }
                    lemma_update_map(before, i as int, value);
                }
            },
            Err(i) => {
                self.entries.insert(i, (key, value));
                proof {
                    let after = self@;
                    assert(after == before.insert(i as int, (key, value)));
                    lemma_insert_map(before, i as int, key, value);
                }
            },
        }
    }

    /// Appends an entry whose key stands after every key of the map.
    pub fn push_last(&mut self, key: K, value: V)
        requires
            old(self).wf(),
            old(self)@.len() > 0 ==> old(self)@.last().0.before(key),
        ensures
            final(self).wf(),
            final(self)@ == old(self)@.push((key, value)),
    {
        let ghost before = self@;
        self.entries.push((key, value));
        proof {
            lemma_push_ascending(before, key, value);
        }
    }

    /// Takes the entry for `key` out of the map, if there is one.
    pub fn remove(&mut self, key: &K)
        requires
            old(self).wf(),
        ensures
            final(self).wf(),
            final(self).map() == old(self).map().remove(*key),
    {
        let ghost before = self@;
        match self.find(key) {
            Ok(i) => {
                self.entries.remove(i);
                proof {
                    assert(self@ == before.remove(i as int));
                    lemma_remove_map(before, i as int);
                }
            },
            Err(_) => {
                proof {
                    assert(to_map(before) =~= to_map(before).remove(*key));
                }
            },
        }
    }

    /// Whether the map has no entries.
    pub fn is_empty(&self) -> (empty: bool)
        ensures
            empty == (self@.len() == 0),
            self.wf() ==> empty == (self.map() == Map::<K, V>::empty()),
    {
        let empty = self.entries.len() == 0;
        proof {
            if empty {
                lemma_empty_map(self@);
            } else if self.wf() {
                lemma_entry_in_map(self@, 0);
            }
        }
        empty
    }

    /// The entries in ascending key order.
    pub fn entries(&self) -> (v: &Vec<(K, V)>)
        ensures
            v@ == self@,
    {
        &self.entries
    }
}

/// Appending a key that stands after the last one keeps the order.
pub proof fn lemma_push_ascending<K: Key, V>(s: Seq<(K, V)>, key: K, value: V)
    requires
        ascending(s),
        s.len() > 0 ==> s.last().0.before(key),
    ensures
        ascending(s.push((key, value))),
{
    let t = s.push((key, value));
    assert forall|a: int, b: int| 0 <= a < b < t.len() implies (#[trigger] t[a]).0.before(
        (#[trigger] t[b]).0,
    ) by {
        if b < s.len() {
            assert(s[a].0.before(s[b].0));
        } else if a < s.len() - 1 {
            assert(s[a].0.before(s[s.len() - 1].0));
            K::before_transitive(s[a].0, s.last().0, key);
        }
    }
}

/// Taking out the entry at `i` takes its key out of the map.
pub proof fn lemma_remove_map<K: Key, V>(s: Seq<(K, V)>, i: int)
    requires
        ascending(s),
        0 <= i < s.len(),
    ensures
        ascending(s.remove(i)),
        to_map(s.remove(i)) == to_map(s).remove(s[i].0),
{
    let key = s[i].0;
    let t = s.remove(i);
    assert forall|a: int, b: int| 0 <= a < b < t.len() implies (#[trigger] t[a]).0.before(
        (#[trigger] t[b]).0,
    ) by {
        let a0 = if a < i { a } else { a + 1 };
        let b0 = if b < i { b } else { b + 1 };
        assert(s[a0].0.before(s[b0].0));
    }
    assert forall|k: K| has_key(t, k) == (k != key && has_key(s, k)) by {
        if has_key(t, k) {
            let c = choose|c: int| holds_at(t, k, c);
            let c0 = if c < i { c } else { c + 1 };
            assert(holds_at(s, k, c0));
            if k == key {
                lemma_one_index(s, c0, i);
            }
        }
        if k != key && has_key(s, k) {
            let c = choose|c: int| holds_at(s, k, c);
            if c < i {
                assert(holds_at(t, k, c));
            } else {
                assert(holds_at(t, k, c - 1));
            }
        }
    }
    assert forall|k: K| has_key(t, k) implies value_of(t, k) == value_of(s, k) by {
        let c = choose|c: int| holds_at(t, k, c);
        lemma_entry_in_map(t, c);
        let c0 = if c < i { c } else { c + 1 };
        assert(holds_at(s, k, c0));
        lemma_entry_in_map(s, c0);
    }
    assert(to_map(t) =~= to_map(s).remove(key));
}

/// Replacing the value of the entry at `i` replaces it in the map.
pub proof fn lemma_update_map<K: Key, V>(s: Seq<(K, V)>, i: int, value: V)
    requires
        ascending(s),
        0 <= i < s.len(),
    ensures
        ascending(s.update(i, (s[i].0, value))),
        to_map(s.update(i, (s[i].0, value))) == to_map(s).insert(s[i].0, value),
{
    let key = s[i].0;
    let t = s.update(i, (key, value));
    assert forall|a: int, b: int| 0 <= a < b < t.len() implies (#[trigger] t[a]).0.before(
        (#[trigger] t[b]).0,
    ) by {
        assert(s[a].0.before(s[b].0));
    }
    assert forall|k: K| has_key(t, k) == (k == key || has_key(s, k)) by {
        if has_key(t, k) {
            let c = choose|c: int| holds_at(t, k, c);
            assert(holds_at(s, k, c));
        }
        if has_key(s, k) {
            let c = choose|c: int| holds_at(s, k, c);
            assert(holds_at(t, k, c));
        }
        if k == key {
            assert(holds_at(t, k, i));
        }
    }
    assert forall|k: K| has_key(t, k) implies value_of(t, k) == (if k == key {
        value
    } else {
        value_of(s, k)
    }) by {
        let c = choose|c: int| holds_at(t, k, c);
        lemma_entry_in_map(t, c);
        if k != key {
            assert(holds_at(s, k, c));
            lemma_entry_in_map(s, c);
        } else {
            lemma_one_index(t, c, i);
        }
    }
    assert(to_map(t) =~= to_map(s).insert(key, value));
}

/// Putting a new key where the order wants it adds it to the map.
pub proof fn lemma_insert_map<K: Key, V>(s: Seq<(K, V)>, i: int, key: K, value: V)
    requires
        ascending(s),
        0 <= i <= s.len(),
        forall|j: int| 0 <= j < i ==> (#[trigger] s[j]).0.before(key),
        forall|j: int| i <= j < s.len() ==> key.before((#[trigger] s[j]).0),
    ensures
        ascending(s.insert(i, (key, value))),
        to_map(s.insert(i, (key, value))) == to_map(s).insert(key, value),
{
    let t = s.insert(i, (key, value));
    assert forall|a: int, b: int| 0 <= a < b < t.len() implies (#[trigger] t[a]).0.before(
        (#[trigger] t[b]).0,
    ) by {
        if b < i {
            assert(s[a].0.before(s[b].0));
        } else if b == i {
            assert(s[a].0.before(key));
        } else if a < i {
            assert(s[a].0.before(key));
            assert(key.before(s[b - 1].0));
            K::before_transitive(s[a].0, key, s[b - 1].0);
        } else if a == i {
            assert(key.before(s[b - 1].0));
        } else {
            assert(s[a - 1].0.before(s[b - 1].0));
        }
    }
    assert forall|k: K| has_key(t, k) == (k == key || has_key(s, k)) by {
        if has_key(t, k) {
            let c = choose|c: int| holds_at(t, k, c);
            if c < i {
                assert(holds_at(s, k, c));
            } else if c > i {
                assert(holds_at(s, k, c - 1));
            }
        }
        if has_key(s, k) {
            let c = choose|c: int| holds_at(s, k, c);
            if c < i {
                assert(holds_at(t, k, c));
            } else {
                assert(holds_at(t, k, c + 1));
            }
        }
        if k == key {
            assert(holds_at(t, k, i));
        }
    }
    assert forall|k: K| has_key(t, k) implies value_of(t, k) == (if k == key {
        value
    } else {
        value_of(s, k)
    }) by {
        let c = choose|c: int| holds_at(t, k, c);
        lemma_entry_in_map(t, c);
        if k == key {
            assert(holds_at(t, k, i));
            lemma_one_index(t, c, i);
        } else if c < i {
            assert(holds_at(s, k, c));
            lemma_entry_in_map(s, c);
        } else {
            assert(holds_at(s, k, c - 1));
            lemma_entry_in_map(s, c - 1);
        }
    }
    assert(to_map(t) =~= to_map(s).insert(key, value));
}

} // verus!

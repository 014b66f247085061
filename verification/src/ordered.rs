//! An ordered map from byte-string keys to values, kept as a strictly ascending
//! sequence of entries so that range scans visit keys in byte order.
use crate::bytes::{
    ByteOrder, compare_bytes, lemma_lex_asymmetric, lemma_lex_irreflexive, lemma_lex_transitive,
    lex_lt,
};
use vstd::prelude::*;

verus! {

/// The entries, in order, are strictly ascending by key.
pub open spec fn sorted<V>(s: Seq<(Seq<u8>, V)>) -> bool {
    forall|i: int, j: int| 0 <= i < j < s.len() ==> lex_lt(#[trigger] s[i].0, #[trigger] s[j].0)
}

/// No key occurs twice.
pub open spec fn unique<V>(s: Seq<(Seq<u8>, V)>) -> bool {
    forall|i: int, j: int| 0 <= i < j < s.len() ==> #[trigger] s[i].0 != #[trigger] s[j].0
}

/// Some entry has key `k`.
pub open spec fn has_key<V>(s: Seq<(Seq<u8>, V)>, k: Seq<u8>) -> bool {
    exists|i: int| 0 <= i < s.len() && #[trigger] s[i].0 == k
}

/// The map that an entry sequence denotes.
pub open spec fn map_of<V>(s: Seq<(Seq<u8>, V)>) -> Map<Seq<u8>, V>
    decreases s.len(),
{
    if s.len() == 0 {
        Map::empty()
    } else {
        map_of(s.drop_last()).insert(s.last().0, s.last().1)
    }
}

pub proof fn lemma_sorted_unique<V>(s: Seq<(Seq<u8>, V)>)
    requires
        sorted(s),
    ensures
        unique(s),
{
    assert forall|i: int, j: int| 0 <= i < j < s.len() implies #[trigger] s[i].0 != #[trigger] s[j].0 by {
        lemma_lex_irreflexive(s[i].0);
    }
}

/// Distinct keys denote a map with one binding per entry.
pub proof fn lemma_unique_len<V>(s: Seq<(Seq<u8>, V)>)
    requires
        unique(s),
    ensures
        map_of(s).dom().len() == s.len(),
    decreases s.len(),
{
    if s.len() > 0 {
        let d = s.drop_last();
        assert(unique(d)) by {
            assert forall|a: int, b: int| 0 <= a < b < d.len() implies #[trigger] d[a].0
                != #[trigger] d[b].0 by {
                assert(d[a] == s[a] && d[b] == s[b]);
            }
        }
        lemma_unique_len(d);
        lemma_map_of_finite(d);
        assert(s.last() == s[s.len() - 1]);
        assert forall|i: int| 0 <= i < d.len() implies #[trigger] d[i].0 != s.last().0 by {
            assert(d[i] == s[i]);
        }
        lemma_map_of_absent(d, s.last().0);
    }
}

pub proof fn lemma_map_of_finite<V>(s: Seq<(Seq<u8>, V)>)
    ensures
        map_of(s).dom().finite(),
    decreases s.len(),
{
    if s.len() > 0 {
        lemma_map_of_finite(s.drop_last());
    }
}

/// An entry's key maps to its value; a key that no entry has is absent.
pub proof fn lemma_map_of_index<V>(s: Seq<(Seq<u8>, V)>, i: int)
    requires
        unique(s),
        0 <= i < s.len(),
    ensures
        map_of(s).dom().contains(s[i].0),
        map_of(s)[s[i].0] == s[i].1,
    decreases s.len(),
{
    if i < s.len() - 1 {
        assert(s.drop_last()[i] == s[i]);
        lemma_map_of_index(s.drop_last(), i);
    }
}

pub proof fn lemma_map_of_absent<V>(s: Seq<(Seq<u8>, V)>, k: Seq<u8>)
    requires
        !has_key(s, k),
    ensures
        !map_of(s).dom().contains(k),
    decreases s.len(),
{
    if s.len() > 0 {
        assert(s.last().0 == s[s.len() - 1].0);
        assert forall|i: int| 0 <= i < s.drop_last().len() implies #[trigger] s.drop_last()[i].0 != k by {
            assert(s.drop_last()[i] == s[i]);
        }
        lemma_map_of_absent(s.drop_last(), k);
    }
}

pub proof fn lemma_map_of_has_key<V>(s: Seq<(Seq<u8>, V)>, k: Seq<u8>)
    requires
        unique(s),
    ensures
        map_of(s).dom().contains(k) == has_key(s, k),
{
    if has_key(s, k) {
        let i = choose|i: int| 0 <= i < s.len() && #[trigger] s[i].0 == k;
        lemma_map_of_index(s, i);
    } else {
        lemma_map_of_absent(s, k);
    }
}

proof fn lemma_map_of_insert<V>(s: Seq<(Seq<u8>, V)>, p: int, k: Seq<u8>, v: V)
    requires
        0 <= p <= s.len(),
        !has_key(s, k),
    ensures
        map_of(s.insert(p, (k, v))) == map_of(s).insert(k, v),
    decreases s.len(),
{
    let t = s.insert(p, (k, v));
    if p == s.len() {
        assert(t.drop_last() =~= s);
    } else {
        let d = s.drop_last();
        assert(t.drop_last() =~= d.insert(p, (k, v)));
        assert(t.last() == s.last());
        assert(s.last().0 == s[s.len() - 1].0);
        assert forall|i: int| 0 <= i < d.len() implies #[trigger] d[i].0 != k by {
            assert(d[i] == s[i]);
        }
        lemma_map_of_insert(d, p, k, v);
        assert(map_of(t) =~= map_of(s).insert(k, v));
    }
}

proof fn lemma_map_of_update<V>(s: Seq<(Seq<u8>, V)>, i: int, v: V)
    requires
        unique(s),
        0 <= i < s.len(),
    ensures
        map_of(s.update(i, (s[i].0, v))) == map_of(s).insert(s[i].0, v),
    decreases s.len(),
{
    let k = s[i].0;
    let t = s.update(i, (k, v));
    let d = s.drop_last();
    if i == s.len() - 1 {
        assert(t.drop_last() =~= d);
        assert(map_of(t) =~= map_of(s).insert(k, v));
    } else {
        assert(t.drop_last() =~= d.update(i, (k, v)));
        assert(d[i] == s[i]);
        assert(unique(d)) by {
            assert forall|a: int, b: int| 0 <= a < b < d.len() implies #[trigger] d[a].0
                != #[trigger] d[b].0 by {
                assert(d[a] == s[a] && d[b] == s[b]);
            }
        }
        lemma_map_of_update(d, i, v);
        assert(s.last() == s[s.len() - 1]);
        assert(s.last().0 != k);
        assert(map_of(t) =~= map_of(s).insert(k, v));
    }
}

proof fn lemma_map_of_remove<V>(s: Seq<(Seq<u8>, V)>, i: int)
    requires
        unique(s),
        0 <= i < s.len(),
    ensures
        map_of(s.remove(i)) == map_of(s).remove(s[i].0),
    decreases s.len(),
{
    let k = s[i].0;
    let d = s.drop_last();
    assert(unique(d)) by {
        assert forall|a: int, b: int| 0 <= a < b < d.len() implies #[trigger] d[a].0
            != #[trigger] d[b].0 by {
            assert(d[a] == s[a] && d[b] == s[b]);
        }
    }
    if i == s.len() - 1 {
        assert(s.remove(i) =~= d);
        assert forall|j: int| 0 <= j < d.len() implies #[trigger] d[j].0 != k by {
            assert(d[j] == s[j]);
        }
        lemma_map_of_absent(d, k);
        assert(map_of(s.remove(i)) =~= map_of(s).remove(k));
    } else {
        let t = s.remove(i);
        assert(t.drop_last() =~= d.remove(i));
        assert(t.last() == s.last());
        assert(d[i] == s[i]);
        lemma_map_of_remove(d, i);
        assert(s.last() == s[s.len() - 1]);
        assert(s.last().0 != k);
        assert(map_of(t) =~= map_of(s).remove(k));
    }
}

/// Entries ascending by byte key; the map view is `map_of(self.entries())`.
pub struct OrderedMap<V> {
    entries: Vec<(Vec<u8>, V)>,
}

impl<V> OrderedMap<V> {
    /// The entries as (key, value) pairs, in ascending key order.
    pub closed spec fn entries(&self) -> Seq<(Seq<u8>, V)> {
        self.entries@.map_values(|e: (Vec<u8>, V)| (e.0@, e.1))
    }

    pub open spec fn view(&self) -> Map<Seq<u8>, V> {
        map_of(self.entries())
    }

    /// Every map is strictly ascending by key.
    #[verifier::type_invariant]
    pub open spec fn wf(&self) -> bool {
        sorted(self.entries())
    }

    /// Strictly ascending entries have distinct keys and denote a finite map.
    pub proof fn lemma_wf(&self)
        requires
            self.wf(),
        ensures
            unique(self.entries()),
            self@.dom().finite(),
    {
        lemma_sorted_unique(self.entries());
        lemma_map_of_finite(self.entries());
    }

    pub fn new() -> (m: Self)
        ensures
            m.entries() == Seq::<(Seq<u8>, V)>::empty(),
            m@ == Map::<Seq<u8>, V>::empty(),
    {
        let m = OrderedMap { entries: Vec::new() };
        assert(m.entries() =~= Seq::<(Seq<u8>, V)>::empty());
        m
    }

    pub fn len(&self) -> (n: usize)
        ensures
            n == self.entries().len(),
    {
        self.entries.len()
    }

    /// The `i`-th entry in key order.
    pub fn entry(&self, i: usize) -> (e: (&Vec<u8>, &V))
        requires
            i < self.entries().len(),
        ensures
            e.0@ == self.entries()[i as int].0,
            *e.1 == self.entries()[i as int].1,
    {
        let e = &self.entries[i];
        (&e.0, &e.1)
    }

    /// Locate `key`: `Ok(i)` at its entry, or `Err(p)` where it would be inserted.
    pub fn find(&self, key: &[u8]) -> (r: Result<usize, usize>)
        ensures
            match r {
                Ok(i) => i < self.entries().len() && self.entries()[i as int].0 == key@,
                Err(p) => {
                    &&& p <= self.entries().len()
                    &&& forall|j: int| 0 <= j < p ==> lex_lt(#[trigger] self.entries()[j].0, key@)
                    &&& forall|j: int|
                        p <= j < self.entries().len() ==> lex_lt(key@, #[trigger] self.entries()[j].0)
                    &&& !has_key(self.entries(), key@)
                },
            },
    {
        proof {
            use_type_invariant(self);
        }
        let ghost e = self.entries();
        let mut lo: usize = 0;
        let mut hi: usize = self.entries.len();
        while lo < hi
            invariant
                lo <= hi <= self.entries@.len(),
                e == self.entries(),
                sorted(e),
                forall|j: int| 0 <= j < lo ==> lex_lt(#[trigger] e[j].0, key@),
                forall|j: int| hi <= j < e.len() ==> lex_lt(key@, #[trigger] e[j].0),
            decreases hi - lo,
        {
            let mid = lo + (hi - lo) / 2;
            assert(e[mid as int].0 == self.entries@[mid as int].0@);
            match compare_bytes(self.entries[mid].0.as_slice(), key) {
                ByteOrder::Equal => {
                    return Ok(mid);
                },
                ByteOrder::Greater => {
                    assert forall|j: int| mid <= j < e.len() implies lex_lt(key@, #[trigger] e[j].0) by {
                        if mid < j < hi {
                            lemma_lex_transitive(key@, e[mid as int].0, e[j].0);
                        }
                    }
                    hi = mid;
                },
                ByteOrder::Less => {
                    assert forall|j: int| 0 <= j <= mid implies lex_lt(#[trigger] e[j].0, key@) by {
                        if lo <= j < mid {
                            lemma_lex_transitive(e[j].0, e[mid as int].0, key@);
                        }
                    }
                    lo = mid + 1;
                },
            }
        }
        assert forall|j: int| 0 <= j < e.len() implies #[trigger] e[j].0 != key@ by {
            lemma_lex_irreflexive(key@);
        }
        Err(lo)
    }

    /// The value at `key`, if any.
    pub fn get(&self, key: &[u8]) -> (r: Option<&V>)
        ensures
            match r {
                Some(v) => self@.dom().contains(key@) && *v == self@[key@],
                None => !self@.dom().contains(key@),
            },
    {
        proof {
            use_type_invariant(self);
            self.lemma_wf();
        }
        match self.find(key) {
            Ok(i) => {
                proof {
                    lemma_map_of_index(self.entries(), i as int);
                }
                Some(&self.entries[i].1)
            },
            Err(_) => {
                proof {
                    lemma_map_of_absent(self.entries(), key@);
                }
                None
            },
        }
    }

    /// Bind `key` to `value`, keeping the entries ascending.
    pub fn set(&mut self, key: Vec<u8>, value: V)
        ensures
            final(self)@ == old(self)@.insert(key@, value),
            has_key(old(self).entries(), key@) ==> exists|i: int|
                0 <= i < old(self).entries().len() && #[trigger] old(self).entries()[i].0 == key@
                    && final(self).entries() == old(self).entries().update(i, (key@, value)),
            !has_key(old(self).entries(), key@) ==> exists|p: int|
                0 <= p <= old(self).entries().len() && final(self).entries()
                    == #[trigger] old(self).entries().insert(p, (key@, value)),
    {
        proof {
            use_type_invariant(&*self);
            self.lemma_wf();
        }
        let ghost e = self.entries();
        let ghost k = key@;
        match self.find(key.as_slice()) {
            Ok(i) => {
                proof {
                    lemma_map_of_update(e, i as int, value);
                }
                let ghost t = e.update(i as int, (k, value));
                assert(sorted(t)) by {
                    assert forall|a: int, b: int| 0 <= a < b < t.len() implies lex_lt(
                        #[trigger] t[a].0,
                        #[trigger] t[b].0,
                    ) by {
                        assert(e[a].0 == t[a].0 && e[b].0 == t[b].0);
                    }
                }
                let mut entries: Vec<(Vec<u8>, V)> = Vec::new();
                std::mem::swap(&mut entries, &mut self.entries);
                entries.set(i, (key, value));
                assert(entries@.map_values(|e: (Vec<u8>, V)| (e.0@, e.1)) =~= t);
                self.entries = entries;
                assert(self.entries() =~= t);
            },
            Err(p) => {
                proof {
                    lemma_map_of_insert(e, p as int, k, value);
                }
                let ghost t = e.insert(p as int, (k, value));
                assert(sorted(t)) by {
                    assert forall|a: int, b: int| 0 <= a < b < t.len() implies lex_lt(
                        #[trigger] t[a].0,
                        #[trigger] t[b].0,
                    ) by {
                        if b < p {
                            assert(t[a] == e[a] && t[b] == e[b]);
                        } else if b == p {
                            assert(t[a] == e[a]);
                        } else if a == p {
                            assert(t[b] == e[b - 1]);
                        } else if a < p {
                            assert(t[a] == e[a] && t[b] == e[b - 1]);
                        } else {
                            assert(t[a] == e[a - 1] && t[b] == e[b - 1]);
                        }
                    }
                }
                let mut entries: Vec<(Vec<u8>, V)> = Vec::new();
                std::mem::swap(&mut entries, &mut self.entries);
                entries.insert(p, (key, value));
                assert(entries@.map_values(|e: (Vec<u8>, V)| (e.0@, e.1)) =~= t);
                self.entries = entries;
                assert(self.entries() =~= t);
            },
        }
    }

    /// Unbind `key`, returning its previous value.
    pub fn remove(&mut self, key: &[u8]) -> (r: Option<V>)
        ensures
            final(self)@ == old(self)@.remove(key@),
            has_key(old(self).entries(), key@) ==> exists|i: int|
                0 <= i < old(self).entries().len() && #[trigger] old(self).entries()[i].0 == key@
                    && final(self).entries() == old(self).entries().remove(i),
            !has_key(old(self).entries(), key@) ==> final(self).entries() == old(self).entries(),
            match r {
                Some(v) => old(self)@.dom().contains(key@) && v == old(self)@[key@],
                None => !old(self)@.dom().contains(key@),
            },
    {
        proof {
            use_type_invariant(&*self);
            self.lemma_wf();
        }
        let ghost e = self.entries();
        match self.find(key) {
            Ok(i) => {
                proof {
                    lemma_map_of_remove(e, i as int);
                    lemma_map_of_index(e, i as int);
                }
                let ghost t = e.remove(i as int);
                assert(sorted(t)) by {
                    assert forall|a: int, b: int| 0 <= a < b < t.len() implies lex_lt(
                        #[trigger] t[a].0,
                        #[trigger] t[b].0,
                    ) by {
                        if b < i {
                            assert(t[a] == e[a] && t[b] == e[b]);
                        } else if a < i {
                            assert(t[a] == e[a] && t[b] == e[b + 1]);
                        } else {
                            assert(t[a] == e[a + 1] && t[b] == e[b + 1]);
                        }
                    }
                }
                let mut entries: Vec<(Vec<u8>, V)> = Vec::new();
                std::mem::swap(&mut entries, &mut self.entries);
                let removed = entries.remove(i);
                assert(entries@.map_values(|e: (Vec<u8>, V)| (e.0@, e.1)) =~= t);
                self.entries = entries;
                assert(self.entries() =~= t);
                Some(removed.1)
            },
            Err(_) => {
                proof {
                    lemma_map_of_absent(e, key@);
                }
                assert(map_of(e).remove(key@) =~= map_of(e));
                None
            },
        }
    }
}

} // verus!

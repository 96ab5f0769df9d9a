//! The shared string-keyed association map used throughout the pipeline.
//!
//! [`ArcStrMap`] keeps its entries in first-insertion order with pairwise
//! distinct keys; its view is the finite [`Map`] from key views to values.
//! [`ArcStrSet`] is the same structure with unit values, read as a set of
//! keys. The identity cache, the co-occurrence maps, and the graphs are all
//! instances of it.

use vstd::prelude::*;

verus! {

/// Association map from string keys to values, backed by an entry list held
/// in first-insertion order. Well-formedness ([`ArcStrMap::wf`]) keeps the
/// key views pairwise distinct, so the list denotes a finite map.
#[derive(Debug)]
pub struct ArcStrMap<V> {
    /// The entries, in first-insertion order.
    pub entries: Vec<(String, V)>,
}

/// A set of string keys: a map whose values carry no information.
pub type ArcStrSet = ArcStrMap<()>;

/// The key views of an entry list, in order.
pub open spec fn entry_keys<V>(s: Seq<(String, V)>) -> Seq<Seq<char>> {
    s.map_values(|e: (String, V)| e.0@)
}

/// Some index whose entry carries key `k` (unique when keys are distinct).
pub open spec fn key_index<V>(s: Seq<(String, V)>, k: Seq<char>) -> int {
    choose|i: int| 0 <= i < s.len() && (#[trigger] s[i]).0@ == k
}

/// Whether some entry of the list carries key `k`.
pub open spec fn has_key<V>(s: Seq<(String, V)>, k: Seq<char>) -> bool {
    exists|i: int| 0 <= i < s.len() && (#[trigger] s[i]).0@ == k
}

/// The finite map denoted by an entry list with distinct keys.
pub open spec fn seq_to_map<V>(s: Seq<(String, V)>) -> Map<Seq<char>, V> {
    Map::new(|k: Seq<char>| has_key(s, k), |k: Seq<char>| s[key_index(s, k)].1)
}

/// Pairwise distinct key views.
pub open spec fn keys_distinct<V>(s: Seq<(String, V)>) -> bool {
    forall|a: int, b: int|
        0 <= a < b < s.len() ==> (#[trigger] s[a]).0@ != (#[trigger] s[b]).0@
}

/// The domain of the denoted map is exactly the set of key views, hence
/// finite; with distinct keys its cardinality is the entry count, and each
/// entry is mapped to its own value.
pub proof fn lemma_seq_to_map<V>(s: Seq<(String, V)>)
    ensures
        seq_to_map(s).dom() =~= entry_keys(s).to_set(),
        seq_to_map(s).dom().finite(),
        keys_distinct(s) ==> seq_to_map(s).dom().len() == s.len(),
        keys_distinct(s) ==> forall|i: int|
            0 <= i < s.len() ==> seq_to_map(s)[(#[trigger] s[i]).0@] == s[i].1,
{
    broadcast use vstd::seq_lib::seq_to_set_is_finite;

    let keys = entry_keys(s);
    assert forall|k: Seq<char>| seq_to_map(s).dom().contains(k) <==> keys.to_set().contains(
        k,
    ) by {
        if has_key(s, k) {
            let i = key_index(s, k);
            assert(keys[i] == k);
        }
        if keys.to_set().contains(k) {
            let i = choose|i: int| 0 <= i < keys.len() && keys[i] == k;
            assert(s[i].0@ == k);
        }
    }
    assert(seq_to_map(s).dom() =~= keys.to_set());
    assert(keys.to_set().finite());
    if keys_distinct(s) {
        assert(keys.no_duplicates());
        keys.unique_seq_to_set();
        assert forall|i: int| 0 <= i < s.len() implies seq_to_map(s)[(#[trigger] s[i]).0@]
            == s[i].1 by {
            let k = s[i].0@;
            assert(has_key(s, k));
            let j = key_index(s, k);
            assert(j == i);
        }
    }
}

impl<V> View for ArcStrMap<V> {
    type V = Map<Seq<char>, V>;

    open spec fn view(&self) -> Map<Seq<char>, V> {
        seq_to_map(self.entries@)
    }
}

impl<V> ArcStrMap<V> {
    /// Well-formedness: the key views of the entries are pairwise distinct.
    pub open spec fn wf(&self) -> bool {
        keys_distinct(self.entries@)
    }

    /// The number of entries (equals the view's domain size when well
    /// formed).
    pub open spec fn spec_len(&self) -> nat {
        self.entries@.len()
    }

    /// An empty map.
    pub fn new() -> (r: Self)
        ensures
            r.wf(),
            r@ =~= Map::<Seq<char>, V>::empty(),
            r.spec_len() == 0,
    {
        let r = ArcStrMap { entries: Vec::new() };
        proof {
            assert forall|k: Seq<char>| !r@.contains_key(k) by {}
        }
        r
    }

    /// An empty map. Kept alongside [`ArcStrMap::new`] as a second
    /// constructor, as callers use both names.
    pub fn new_empty_arc_str() -> (r: Self)
        ensures
            r.wf(),
            r@ =~= Map::<Seq<char>, V>::empty(),
            r.spec_len() == 0,
    {
        Self::new()
    }

    /// Borrow the backing entry list.
    pub fn get_map(&self) -> (r: &Vec<(String, V)>)
        ensures
            r@ == self.entries@,
    {
        &self.entries
    }

    /// Borrow the entry list for iteration.
    pub fn iter(&self) -> (r: &Vec<(String, V)>)
        ensures
            r@ == self.entries@,
    {
        &self.entries
    }

    /// Consume the map into its entry list, in first-insertion order.
    pub fn into_iter(self) -> (r: Vec<(String, V)>)
        ensures
            r@ == self.entries@,
    {
        self.entries
    }

    /// The number of entries.
    pub fn len(&self) -> (r: usize)
        ensures
            r == self.spec_len(),
            self.wf() ==> r == self@.dom().len(),
    {
        proof {
            lemma_seq_to_map(self.entries@);
        }
        self.entries.len()
    }

    /// Whether the map has no entries.
    pub fn is_empty(&self) -> (r: bool)
        ensures
            r == (self.spec_len() == 0),
    {
        self.entries.len() == 0
    }

    /// Look the key up; `Some` exactly when the key is present.
    pub fn get(&self, query: &String) -> (r: Option<&V>)
        requires
            self.wf(),
        ensures
            match r {
                Some(v) => self@.contains_key(query@) && *v == self@[query@],
                None => !self@.contains_key(query@),
            },
    {
        let n = self.entries.len();
        let mut i: usize = 0;
        while i < n
            invariant
                self.wf(),
                n == self.entries@.len(),
                i <= n,
                forall|j: int| 0 <= j < i ==> (#[trigger] self.entries@[j]).0@ != query@,
            decreases n - i,
        {
            if self.entries[i].0 == *query {
                proof {
                    lemma_seq_to_map(self.entries@);
                    assert(has_key(self.entries@, query@));
                }
                return Some(&self.entries[i].1);
            }
            i = i + 1;
        }
        proof {
            assert(!has_key(self.entries@, query@));
        }
        None
    }

    /// Insert or update; the returned value is the previous binding, `Some`
    /// exactly when the key was already present. An update keeps the entry's
    /// position, so first-insertion order is preserved.
    pub fn insert(&mut self, query: String, value: V) -> (r: Option<V>)
        requires
            old(self).wf(),
        ensures
            final(self).wf(),
            final(self)@ =~= old(self)@.insert(query@, value),
            final(self).spec_len() == old(self).spec_len() + (if old(self)@.contains_key(
                query@,
            ) {
                0int
            } else {
                1int
            }),
            match r {
                Some(v) => old(self)@.contains_key(query@) && v == old(self)@[query@],
                None => !old(self)@.contains_key(query@),
            },
    {
        let ghost s0 = self.entries@;
        let n = self.entries.len();
        let mut i: usize = 0;
        while i < n
            invariant
                keys_distinct(s0),
                s0 == self.entries@,
                s0 == old(self).entries@,
                n == s0.len(),
                i <= n,
                forall|j: int| 0 <= j < i ==> (#[trigger] s0[j]).0@ != query@,
            decreases n - i,
        {
            if self.entries[i].0 == query {
                let ghost k0 = query@;
                let old_pair = self.entries.remove(i);
                self.entries.insert(i, (query, value));
                proof {
                    let s1 = self.entries@;
                    let pair = s1[i as int];
                    assert(old_pair == s0[i as int]);
                    assert(old_pair.0@ == k0);
                    assert forall|j: int| 0 <= j < s0.len() implies s1[j] == (if j == i {
                        pair
                    } else {
                        s0[j]
                    }) by {
                        assert(s1 == s0.remove(i as int).insert(i as int, pair));
                    }
                    assert(s1.len() == s0.len());
                    assert(pair.0@ == k0);
                    assert(pair.1 == value);
                    assert(keys_distinct(s1)) by {
                        assert forall|a: int, b: int| 0 <= a < b < s1.len() implies (
                        #[trigger] s1[a]).0@ != (#[trigger] s1[b]).0@ by {
                            assert(s1[a].0@ == s0[a].0@);
                            assert(s1[b].0@ == s0[b].0@);
                        }
                    }
                    lemma_seq_to_map(s0);
                    lemma_seq_to_map(s1);
                    assert(has_key(s0, k0));
                    assert(seq_to_map(s0).contains_key(k0));
                    assert(seq_to_map(s0)[k0] == s0[i as int].1);
                    assert forall|k: Seq<char>| has_key(s1, k) <==> has_key(s0, k) by {
                        if has_key(s1, k) {
                            let a = key_index(s1, k);
                            assert(s0[a].0@ == s1[a].0@);
                        }
                        if has_key(s0, k) {
                            let a = key_index(s0, k);
                            assert(s1[a].0@ == s0[a].0@);
                        }
                    }
                    assert forall|k: Seq<char>| #[trigger] seq_to_map(s1).contains_key(
                        k,
                    ) implies seq_to_map(s0).insert(k0, value).contains_key(k) && seq_to_map(s1)[k]
                        == seq_to_map(s0).insert(k0, value)[k] by {
                        let a = key_index(s1, k);
                        assert(0 <= a < s1.len() && s1[a].0@ == k);
                        assert(seq_to_map(s1)[s1[a].0@] == s1[a].1);
                        if a == i {
                            assert(k == k0);
                            assert(seq_to_map(s1)[k] == value);
                        } else {
                            assert(s1[a] == s0[a]);
                            assert(k != k0);
                            assert(seq_to_map(s0)[s0[a].0@] == s0[a].1);
                        }
                    }
                    assert forall|k: Seq<char>| #[trigger] seq_to_map(s0).insert(
                        k0,
                        value,
                    ).contains_key(k) implies seq_to_map(s1).contains_key(k) by {
                        if k == k0 {
                            assert(has_key(s1, k0));
                        } else {
                            assert(has_key(s0, k));
                        }
                    }
                    assert(seq_to_map(s1) =~= seq_to_map(s0).insert(k0, value));
                }
                return Some(old_pair.1);
            }
            i = i + 1;
        }
        self.entries.push((query, value));
        proof {
            let s1 = self.entries@;
            let k0 = s1[s1.len() - 1].0@;
            assert(k0 == query@);
            assert(!has_key(s0, query@));
            assert(forall|j: int| 0 <= j < s0.len() ==> s1[j] == s0[j]);
            assert(keys_distinct(s1)) by {
                assert forall|a: int, b: int| 0 <= a < b < s1.len() implies (#[trigger] s1[a]).0@
                    != (#[trigger] s1[b]).0@ by {
                    if b == s1.len() - 1 {
                        assert(s1[a] == s0[a]);
                        assert(!(s0[a].0@ == k0));
                    } else {
                        assert(s1[a] == s0[a]);
                        assert(s1[b] == s0[b]);
                    }
                }
            }
            lemma_seq_to_map(s0);
            lemma_seq_to_map(s1);
            assert forall|k: Seq<char>| #[trigger] seq_to_map(s1).contains_key(
                k,
            ) implies seq_to_map(s0).insert(k0, value).contains_key(k) && seq_to_map(s1)[k]
                == seq_to_map(s0).insert(k0, value)[k] by {
                let a = key_index(s1, k);
                assert(0 <= a < s1.len() && s1[a].0@ == k);
                assert(seq_to_map(s1)[s1[a].0@] == s1[a].1);
                if a == s1.len() - 1 {
                    assert(k == k0);
                    assert(seq_to_map(s1)[k] == value);
                } else {
                    assert(s1[a] == s0[a]);
                    assert(has_key(s0, k));
                    assert(k != k0);
                    assert(seq_to_map(s0)[s0[a].0@] == s0[a].1);
                }
            }
            assert forall|k: Seq<char>| #[trigger] seq_to_map(s0).insert(k0, value).contains_key(
                k,
            ) implies seq_to_map(s1).contains_key(k) by {
                if k == k0 {
                    assert(has_key(s1, k0));
                } else {
                    let a = key_index(s0, k);
                    assert(s1[a].0@ == s0[a].0@);
                    assert(has_key(s1, k));
                }
            }
            assert(seq_to_map(s1) =~= seq_to_map(s0).insert(k0, value));
            assert(seq_to_map(s1).dom().len() == s0.len() + 1);
        }
        None
    }

    /// The keys, cloned, in first-insertion order.
    pub fn keys(&self) -> (r: Vec<String>)
        ensures
            r@.map_values(|s: String| s@) =~= entry_keys(self.entries@),
    {
        let n = self.entries.len();
        let mut r: Vec<String> = Vec::new();
        let mut i: usize = 0;
        while i < n
            invariant
                n == self.entries@.len(),
                i <= n,
                r@.len() == i,
                forall|j: int| 0 <= j < i ==> (#[trigger] r@[j])@ == self.entries@[j].0@,
            decreases n - i,
        {
            r.push(self.entries[i].0.clone());
            i = i + 1;
        }
        r
    }
}

impl<V: Copy> ArcStrMap<V> {
    /// The values, in first-insertion order.
    pub fn values(&self) -> (r: Vec<V>)
        ensures
            r@ =~= self.entries@.map_values(|e: (String, V)| e.1),
    {
        let n = self.entries.len();
        let mut r: Vec<V> = Vec::new();
        let mut i: usize = 0;
        while i < n
            invariant
                n == self.entries@.len(),
                i <= n,
                r@.len() == i,
                forall|j: int| 0 <= j < i ==> r@[j] == (#[trigger] self.entries@[j]).1,
            decreases n - i,
        {
            r.push(self.entries[i].1);
            i = i + 1;
        }
        r
    }
}

impl ArcStrSet {
    /// Insert the key; the result says whether it was already present.
    pub fn insert_set(&mut self, query: String) -> (r: bool)
        requires
            old(self).wf(),
        ensures
            final(self).wf(),
            final(self)@ =~= old(self)@.insert(query@, ()),
            r == old(self)@.contains_key(query@),
    {
        let prev = self.insert(query, ());
        prev.is_some()
    }

    /// The keys of the set, cloned, in first-insertion order.
    pub fn keys_set(&self) -> (r: Vec<String>)
        ensures
            r@.map_values(|s: String| s@) =~= entry_keys(self.entries@),
    {
        self.keys()
    }
}

} // verus!

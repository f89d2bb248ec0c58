//! A map keyed by names, kept as an ordered list of distinct keys.
//!
//! Lookups compare names by their characters. New keys are appended, an
//! existing key keeps its place when its value is replaced, and removal keeps
//! the order of the other entries. The abstract value of a map is the sequence
//! of its entries, each key taken by its characters and each value by its deep
//! view; `as_map` forgets the order.
use vstd::prelude::*;

verus! {

/// No key occurs twice in `s`.
pub open spec fn distinct_keys<W>(s: Seq<(Seq<char>, W)>) -> bool {
    forall|i: int, j: int|
        #![trigger s[i], s[j]]
        0 <= i < s.len() && 0 <= j < s.len() && i != j ==> s[i].0 != s[j].0
}

/// Some entry of `s` has the key `k`.
pub open spec fn has_key<W>(s: Seq<(Seq<char>, W)>, k: Seq<char>) -> bool {
    exists|i: int| #![trigger s[i]] 0 <= i < s.len() && s[i].0 == k
}

/// The position of the entry with key `k` (meaningful when `has_key(s, k)`).
pub open spec fn key_index<W>(s: Seq<(Seq<char>, W)>, k: Seq<char>) -> int {
    choose|i: int| #![trigger s[i]] 0 <= i < s.len() && s[i].0 == k
}

/// The value stored under `k` (meaningful when `has_key(s, k)`).
pub open spec fn value_of<W>(s: Seq<(Seq<char>, W)>, k: Seq<char>) -> W {
    s[key_index(s, k)].1
}

/// The entries of `s` as a finite map, forgetting their order.
pub open spec fn as_map<W>(s: Seq<(Seq<char>, W)>) -> Map<Seq<char>, W> {
    Map::new(|k: Seq<char>| has_key(s, k), |k: Seq<char>| value_of(s, k))
}

/// The entries after storing `v` under `k`: an existing key keeps its place,
/// a new key is appended.
pub open spec fn inserted<W>(s: Seq<(Seq<char>, W)>, k: Seq<char>, v: W) -> Seq<(Seq<char>, W)> {
    if has_key(s, k) {
        s.update(key_index(s, k), (k, v))
    } else {
        s.push((k, v))
    }
}

/// The entries after removing the key `k`; the others keep their order.
pub open spec fn removed<W>(s: Seq<(Seq<char>, W)>, k: Seq<char>) -> Seq<(Seq<char>, W)> {
    if has_key(s, k) {
        s.remove(key_index(s, k))
    } else {
        s
    }
}

/// With distinct keys, the entry at position `i` is the one found under its key.
pub proof fn lemma_key_index<W>(s: Seq<(Seq<char>, W)>, i: int)
    requires
        distinct_keys(s),
        0 <= i < s.len(),
    ensures
        has_key(s, s[i].0),
        key_index(s, s[i].0) == i,
        value_of(s, s[i].0) == s[i].1,
{
    assert(has_key(s, s[i].0));
    let j = key_index(s, s[i].0);
    assert(s[j].0 == s[i].0);
}

/// Removing one entry keeps the keys distinct and removes exactly that key.
pub proof fn lemma_remove_entry<W>(s: Seq<(Seq<char>, W)>, i: int)
    requires
        distinct_keys(s),
        0 <= i < s.len(),
    ensures
        distinct_keys(s.remove(i)),
        forall|k: Seq<char>| has_key(s.remove(i), k) <==> (has_key(s, k) && k != s[i].0),
        forall|k: Seq<char>|
            has_key(s.remove(i), k) ==> value_of(s.remove(i), k) == value_of(s, k),
        as_map(s.remove(i)) == as_map(s).remove(s[i].0),
{
    let r = s.remove(i);
    assert forall|a: int, b: int|
        #![trigger r[a], r[b]]
        0 <= a < r.len() && 0 <= b < r.len() && a != b implies r[a].0 != r[b].0 by {
        let a2 = if a < i { a } else { a + 1 };
        let b2 = if b < i { b } else { b + 1 };
        assert(r[a] == s[a2]);
        assert(r[b] == s[b2]);
    }
    assert forall|k: Seq<char>| has_key(r, k) <==> (has_key(s, k) && k != s[i].0) by {
        if has_key(r, k) {
            let a = choose|a: int| #![trigger r[a]] 0 <= a < r.len() && r[a].0 == k;
            let a2 = if a < i { a } else { a + 1 };
            assert(r[a] == s[a2]);
        }
        if has_key(s, k) && k != s[i].0 {
            let a = choose|a: int| #![trigger s[a]] 0 <= a < s.len() && s[a].0 == k;
            if a < i {
                assert(r[a] == s[a]);
            } else {
                assert(r[a - 1] == s[a]);
            }
        }
    }
    assert forall|k: Seq<char>| has_key(r, k) implies value_of(r, k) == value_of(s, k) by {
        let a = key_index(r, k);
        let a2 = if a < i { a } else { a + 1 };
        assert(r[a] == s[a2]);
        lemma_key_index(s, a2);
    }
    assert(as_map(r) =~= as_map(s).remove(s[i].0));
}

/// Appending an entry under a new key keeps the keys distinct.
pub proof fn lemma_push_entry<W>(s: Seq<(Seq<char>, W)>, k: Seq<char>, v: W)
    requires
        distinct_keys(s),
        !has_key(s, k),
    ensures
        distinct_keys(s.push((k, v))),
        forall|k2: Seq<char>| has_key(s.push((k, v)), k2) <==> (has_key(s, k2) || k2 == k),
        as_map(s.push((k, v))) == as_map(s).insert(k, v),
{
    let r = s.push((k, v));
    assert forall|a: int, b: int|
        #![trigger r[a], r[b]]
        0 <= a < r.len() && 0 <= b < r.len() && a != b implies r[a].0 != r[b].0 by {
        if a < s.len() && b < s.len() {
            assert(r[a] == s[a] && r[b] == s[b]);
        } else if a < s.len() {
            assert(r[a] == s[a]);
        } else {
            assert(r[b] == s[b]);
        }
    }
    assert forall|k2: Seq<char>| has_key(r, k2) <==> (has_key(s, k2) || k2 == k) by {
        if has_key(r, k2) {
            let a = choose|a: int| #![trigger r[a]] 0 <= a < r.len() && r[a].0 == k2;
            if a < s.len() {
                assert(r[a] == s[a]);
            }
        }
        if has_key(s, k2) {
            let a = choose|a: int| #![trigger s[a]] 0 <= a < s.len() && s[a].0 == k2;
            assert(r[a] == s[a]);
        }
        if k2 == k {
            assert(r[s.len() as int].0 == k);
        }
    }
    assert forall|k2: Seq<char>| has_key(r, k2) implies value_of(r, k2) == (if k2 == k {
        v
    } else {
        value_of(s, k2)
    }) by {
        if k2 == k {
            lemma_key_index(r, s.len() as int);
        } else {
            let a = key_index(s, k2);
            lemma_key_index(s, a);
            assert(r[a] == s[a]);
            lemma_key_index(r, a);
        }
    }
    assert(as_map(r) =~= as_map(s).insert(k, v));
}

/// Replacing the value of one entry keeps the keys and changes only that value.
pub proof fn lemma_update_entry<W>(s: Seq<(Seq<char>, W)>, i: int, v: W)
    requires
        distinct_keys(s),
        0 <= i < s.len(),
    ensures
        distinct_keys(s.update(i, (s[i].0, v))),
        forall|k: Seq<char>| has_key(s.update(i, (s[i].0, v)), k) <==> has_key(s, k),
        as_map(s.update(i, (s[i].0, v))) == as_map(s).insert(s[i].0, v),
{
    let r = s.update(i, (s[i].0, v));
    assert forall|a: int, b: int|
        #![trigger r[a], r[b]]
        0 <= a < r.len() && 0 <= b < r.len() && a != b implies r[a].0 != r[b].0 by {
        assert(r[a].0 == s[a].0);
        assert(r[b].0 == s[b].0);
    }
    assert forall|k: Seq<char>| has_key(r, k) <==> has_key(s, k) by {
        if has_key(r, k) {
            let a = choose|a: int| #![trigger r[a]] 0 <= a < r.len() && r[a].0 == k;
            assert(r[a].0 == s[a].0);
        }
        if has_key(s, k) {
            let a = choose|a: int| #![trigger s[a]] 0 <= a < s.len() && s[a].0 == k;
            assert(r[a].0 == s[a].0);
        }
    }
    assert forall|k: Seq<char>| has_key(r, k) implies value_of(r, k) == (if k == s[i].0 {
        v
    } else {
        value_of(s, k)
    }) by {
        let a = key_index(r, k);
        lemma_key_index(r, a);
        lemma_key_index(s, a);
    }
    assert(as_map(r) =~= as_map(s).insert(s[i].0, v));
}

/// A map from names to values, in the order in which the names were added.
#[derive(Debug, Clone)]
pub struct NameMap<V> {
    keys: Vec<String>,
    values: Vec<V>,
}

impl<V: DeepView> View for NameMap<V> {
    type V = Seq<(Seq<char>, V::V)>;

    open spec fn view(&self) -> Seq<(Seq<char>, V::V)> {
        self.entries()
    }
}

impl<V: DeepView> NameMap<V> {
    /// The entries in order, each key by its characters and each value by its deep view.
    pub closed spec fn entries(&self) -> Seq<(Seq<char>, V::V)> {
        Seq::new(self.keys@.len(), |i: int| (self.keys@[i]@, self.values@[i].deep_view()))
    }

    /// Each key has its value.
    pub closed spec fn lengths_agree(&self) -> bool {
        self.keys@.len() == self.values@.len()
    }

    /// Well-formedness: one value per key, and no key twice.
    pub open spec fn wf(&self) -> bool {
        &&& self.lengths_agree()
        &&& distinct_keys(self@)
    }

    /// The entries as a map from names to values.
    pub open spec fn map(&self) -> Map<Seq<char>, V::V> {
        as_map(self@)
    }

    /// An empty map.
    pub fn new() -> (m: Self)
        ensures
            m.wf(),
            m@ == Seq::<(Seq<char>, V::V)>::empty(),
    {
        let m = NameMap { keys: Vec::new(), values: Vec::new() };
        assert(m@ =~= Seq::<(Seq<char>, V::V)>::empty());
        m
    }

    /// The number of entries.
    pub fn len(&self) -> (n: usize)
        requires
            self.wf(),
        ensures
            n == self@.len(),
    {
        self.keys.len()
    }

    /// Whether the map has no entry.
    pub fn is_empty(&self) -> (b: bool)
        requires
            self.wf(),
        ensures
            b == (self@.len() == 0),
    {
        self.keys.len() == 0
    }

    /// The key of the entry at position `i`.
    pub fn key_at(&self, i: usize) -> (k: &String)
        requires
            self.wf(),
            i < self@.len(),
        ensures
            k@ == self@[i as int].0,
    {
        &self.keys[i]
    }

    /// The value of the entry at position `i`.
    pub fn value_at(&self, i: usize) -> (v: &V)
        requires
            self.wf(),
            i < self@.len(),
        ensures
            v.deep_view() == self@[i as int].1,
    {
        &self.values[i]
    }

    /// The position of the entry with key `key`, if there is one.
    pub fn find(&self, key: &str) -> (r: Option<usize>)
        requires
            self.wf(),
        ensures
            r is None <==> !has_key(self@, key@),
            r matches Some(i) ==> i < self@.len() && self@[i as int].0 == key@ && key_index(
                self@,
                key@,
            ) == i,
    {
        let k = key.to_owned();
        let mut i: usize = 0;
        while i < self.keys.len()
            invariant
                self.wf(),
                k@ == key@,
                i <= self@.len(),
                forall|j: int| 0 <= j < i ==> #[trigger] self@[j].0 != key@,
            decreases self@.len() - i,
        {
            assert(self@[i as int].0 == self.keys@[i as int]@);
            if self.keys[i] == k {
                proof {
                    lemma_key_index(self@, i as int);
                }
                return Some(i);
            }
            i = i + 1;
        }
        assert(!has_key(self@, key@)) by {
            if has_key(self@, key@) {
                let j = choose|j: int| #![trigger self@[j]] 0 <= j < self@.len() && self@[j].0 == key@;
                assert(self@[j].0 != key@);
            }
        }
        None
    }

    /// Whether some entry has the key `key`.
    pub fn contains_key(&self, key: &str) -> (b: bool)
        requires
            self.wf(),
        ensures
            b == has_key(self@, key@),
            b == self.map().contains_key(key@),
    {
        self.find(key).is_some()
    }

    /// The value stored under `key`, if any.
    pub fn get(&self, key: &str) -> (r: Option<&V>)
        requires
            self.wf(),
        ensures
            r is Some <==> has_key(self@, key@),
            r matches Some(v) ==> v.deep_view() == value_of(self@, key@),
            r matches Some(v) ==> v.deep_view() == self.map()[key@],
    {
        match self.find(key) {
            Some(i) => Some(&self.values[i]),
            None => None,
        }
    }

    /// Stores `value` under `key`. An existing key keeps its place and its old
    /// value is returned; a new key is appended.
    pub fn insert(&mut self, key: String, value: V) -> (r: Option<V>)
        requires
            old(self).wf(),
        ensures
            final(self).wf(),
            final(self)@ == inserted(old(self)@, key@, value.deep_view()),
            r is Some <==> has_key(old(self)@, key@),
            r matches Some(v) ==> v.deep_view() == value_of(old(self)@, key@),
            final(self).map() == old(self).map().insert(key@, value.deep_view()),
    {
        let ghost old_view = self@;
        match self.find(key.as_str()) {
            Some(i) => {
                proof {
                    lemma_key_index(old_view, i as int);
                    lemma_update_entry(old_view, i as int, value.deep_view());
                }
                let mut v = value;
                std::mem::swap(&mut v, &mut self.values[i]);
                assert(self@ =~= old_view.update(i as int, (key@, value.deep_view())));
                Some(v)
            },
            None => {
                proof {
                    lemma_push_entry(old_view, key@, value.deep_view());
                }
                self.keys.push(key);
                self.values.push(value);
                assert(self@ =~= old_view.push((key@, value.deep_view())));
                None
            },
        }
    }

    /// Replaces the value of the entry at position `i`.
    pub fn set_value_at(&mut self, i: usize, value: V)
        requires
            old(self).wf(),
            i < old(self)@.len(),
        ensures
            final(self).wf(),
            final(self)@ == old(self)@.update(i as int, (old(self)@[i as int].0, value.deep_view())),
            final(self).map() == old(self).map().insert(old(self)@[i as int].0, value.deep_view()),
    {
        let ghost old_view = self@;
        proof {
            lemma_update_entry(old_view, i as int, value.deep_view());
        }
        let mut v = value;
        std::mem::swap(&mut v, &mut self.values[i]);
        assert(self@ =~= old_view.update(i as int, (old_view[i as int].0, value.deep_view())));
    }

    /// Takes out the entry at position `i`; the others keep their order.
    pub fn remove_at(&mut self, i: usize) -> (r: (String, V))
        requires
            old(self).wf(),
            i < old(self)@.len(),
        ensures
            final(self).wf(),
            final(self)@ == old(self)@.remove(i as int),
            r.0@ == old(self)@[i as int].0,
            r.1.deep_view() == old(self)@[i as int].1,
            final(self).map() == old(self).map().remove(old(self)@[i as int].0),
    {
        let ghost old_view = self@;
        proof {
            lemma_remove_entry(old_view, i as int);
        }
        let k = self.keys.remove(i);
        let v = self.values.remove(i);
        assert(self@ =~= old_view.remove(i as int));
        (k, v)
    }

    /// Removes the entry with key `key` and returns its value, if there is one.
    pub fn remove(&mut self, key: &str) -> (r: Option<V>)
        requires
            old(self).wf(),
        ensures
            final(self).wf(),
            final(self)@ == removed(old(self)@, key@),
            r is Some <==> has_key(old(self)@, key@),
            r matches Some(v) ==> v.deep_view() == value_of(old(self)@, key@),
            final(self).map() == old(self).map().remove(key@),
    {
        match self.find(key) {
            Some(i) => {
                let (_, v) = self.remove_at(i);
                Some(v)
            },
            None => {
                assert(old(self).map() =~= old(self).map().remove(key@));
                None
            },
        }
    }
}

} // verus!

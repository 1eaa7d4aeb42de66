//! String-keyed maps and sets kept in ascending key order. Iteration walks
//! that order.
use vstd::prelude::*;
use vstd::string::*;
use crate::text::{keys_ascending, sorted_keys, seq_less, str_less, lemma_ascending_distinct, lemma_ascending_no_duplicates, lemma_sorted_keys, lemma_seq_less_irreflexive, lemma_seq_less_total, lemma_seq_less_transitive};

verus! {

/// The views of a sequence of strings.
pub open spec fn strs(v: Seq<String>) -> Seq<Seq<char>> {
    v.map_values(|s: String| s@)
}

/// A copy of a vector of strings.
pub fn clone_strings(v: &Vec<String>) -> (r: Vec<String>)
    ensures
        strs(r@) == strs(v@),
{
    let mut r: Vec<String> = Vec::new();
    let mut i: usize = 0;
    while i < v.len()
        invariant
            i <= v@.len(),
            strs(r@) == strs(v@).take(i as int),
        decreases v.len() - i,
    {
        let ghost before = strs(r@);
        let s = v[i].clone();
        r.push(s);
        proof {
            assert(strs(v@).take(i + 1) =~= strs(v@).take(i as int).push(v@[i as int]@));
            assert(strs(r@) =~= before.push(v@[i as int]@));
        }
        i = i + 1;
    }
    assert(strs(v@).take(v@.len() as int) =~= strs(v@));
    r
}

/// `s` without the occurrence of `k`, if any.
pub open spec fn seq_without(s: Seq<Seq<char>>, k: Seq<char>) -> Seq<Seq<char>> {
    if s.contains(k) {
        s.remove(s.index_of(k))
    } else {
        s
    }
}

/// `s` with `k` added at the end unless already present.
pub open spec fn seq_with(s: Seq<Seq<char>>, k: Seq<char>) -> Seq<Seq<char>> {
    if s.contains(k) {
        s
    } else {
        s.push(k)
    }
}

/// A map from strings to values, each key once, in ascending order.
pub struct StrMap<V: View> {
    entries: Vec<(String, V)>,
}

impl<V: View> StrMap<V> {
    /// The keys in ascending order.
    pub closed spec fn key_order(&self) -> Seq<Seq<char>> {
        self.entries@.map_values(|e: (String, V)| e.0@)
    }

    /// The keys ascend.
    #[verifier::type_invariant]
    pub closed spec fn wf(&self) -> bool {
        keys_ascending(self.key_order())
    }

    /// The mapping from keys to the views of their values.
    pub closed spec fn map_view(&self) -> Map<Seq<char>, V::V> {
        Map::new(
            |k: Seq<char>| self.key_order().contains(k),
            |k: Seq<char>| self.entries@[self.key_order().index_of(k)].1@,
        )
    }

    /// The domain is the set of keys in ascending order, each once.
    pub proof fn lemma_keys(&self)
        requires
            self.wf(),
        ensures
            self.key_order().no_duplicates(),
            forall|k: Seq<char>| #[trigger] self.map_view().contains_key(k) <==> self.key_order().contains(k),
            self.map_view().dom() == self.key_order().to_set(),
            self.map_view().dom().finite(),
            self.map_view().len() == self.key_order().len(),
            self.key_order() == sorted_keys(self.map_view().dom()),
    {
        lemma_ascending_no_duplicates(self.key_order());
        assert(self.map_view().dom() =~= self.key_order().to_set());
        self.key_order().unique_seq_to_set();
        lemma_sorted_keys(self.key_order());
    }

    /// Makes the invariant of the map available to proofs; does nothing.
    pub fn note_invariant(&self)
        ensures
            self.wf(),
            self.key_order().no_duplicates(),
            forall|k: Seq<char>| #[trigger] self.map_view().contains_key(k) <==> self.key_order().contains(k),
            self.map_view().dom() == self.key_order().to_set(),
            self.map_view().dom().finite(),
            self.map_view().len() == self.key_order().len(),
            self.key_order() == sorted_keys(self.map_view().dom()),
    {
        proof {
            use_type_invariant(&*self);
            self.lemma_keys();
        }
    }

    proof fn lemma_value_at(&self, i: int)
        requires
            self.wf(),
            0 <= i < self.entries@.len(),
        ensures
            self.key_order()[i] == self.entries@[i].0@,
            self.map_view().contains_key(self.key_order()[i]),
            self.map_view()[self.key_order()[i]] == self.entries@[i].1@,
    {
        let ko = self.key_order();
        assert(ko.contains(ko[i]));
        let j = ko.index_of(ko[i]);
        assert(ko[j] == ko[i]);
        lemma_ascending_distinct(ko, i, j);
    }

    /// An empty map.
    pub fn new() -> (m: Self)
        ensures
            m.wf(),
            m.map_view() == Map::<Seq<char>, V::V>::empty(),
            m.key_order() == Seq::<Seq<char>>::empty(),
    {
        let m = StrMap { entries: Vec::new() };
        assert(m.key_order() =~= Seq::<Seq<char>>::empty());
        assert(m.map_view() =~= Map::<Seq<char>, V::V>::empty());
        m
    }

    /// The number of keys.
    pub fn len(&self) -> (n: usize)
        ensures
            n == self.key_order().len(),
    {
        proof {
            use_type_invariant(&*self);
        }
        self.entries.len()
    }

    /// The key at position `i` of the key order.
    pub fn key_at(&self, i: usize) -> (k: &String)
        requires
            i < self.key_order().len(),
        ensures
            k@ == self.key_order()[i as int],
    {
        proof {
            use_type_invariant(&*self);
        }
        &self.entries[i].0
    }

    /// The value under the key at position `i` of the key order.
    pub fn value_at(&self, i: usize) -> (v: &V)
        requires
            i < self.key_order().len(),
        ensures
            self.map_view().contains_key(self.key_order()[i as int]),
            v@ == self.map_view()[self.key_order()[i as int]],
    {
        proof {
            use_type_invariant(&*self);
        }
        proof {
            self.lemma_value_at(i as int);
        }
        &self.entries[i].1
    }

    /// The position of `k` in the key order, if present.
    pub fn find(&self, k: &String) -> (r: Option<usize>)
        ensures
            r is None <==> !self.map_view().contains_key(k@),
            r matches Some(i) ==> i < self.key_order().len() && self.key_order()[i as int] == k@,
    {
        proof {
            use_type_invariant(&*self);
        }
        let mut i: usize = 0;
        while i < self.entries.len()
            invariant
                i <= self.entries@.len(),
                forall|j: int| 0 <= j < i ==> self.key_order()[j] != k@,
            decreases self.entries.len() - i,
        {
            if self.entries[i].0 == *k {
                assert(self.key_order()[i as int] == k@);
                assert(self.key_order().contains(k@));
                return Some(i);
            }
            i = i + 1;
        }
        None
    }

    /// Whether `k` is a key.
    pub fn contains_key(&self, k: &String) -> (b: bool)
        ensures
            b == self.map_view().contains_key(k@),
    {
        proof {
            use_type_invariant(&*self);
        }
        self.find(k).is_some()
    }

    /// The value under `k`, if any.
    pub fn get(&self, k: &String) -> (r: Option<&V>)
        ensures
            r is None <==> !self.map_view().contains_key(k@),
            r matches Some(v) ==> v@ == self.map_view()[k@],
    {
        proof {
            use_type_invariant(&*self);
        }
        match self.find(k) {
            Some(i) => Some(self.value_at(i)),
            None => None,
        }
    }

    /// Sets the value under `k`, keeping the keys in ascending order.
    pub fn insert(&mut self, k: String, v: V)
        ensures
            final(self).map_view() == old(self).map_view().insert(k@, v@),
    {
        proof {
            use_type_invariant(&*self);
        }
        let ghost ko = self.key_order();
        let ghost km = k@;
        let ghost vm = v@;
        let n = self.entries.len();
        let mut j: usize = 0;
        while j < n && str_less(self.entries[j].0.as_str(), k.as_str())
            invariant
                n == self.entries@.len(),
                ko == self.key_order(),
                km == k@,
                j <= n,
                forall|i: int| 0 <= i < j ==> seq_less(#[trigger] ko[i], km),
            decreases n - j,
        {
            assert(ko[j as int] == self.entries@[j as int].0@);
            j = j + 1;
        }
        proof {
            assert(forall|i: int| 0 <= i < n ==> #[trigger] ko[i] == self.entries@[i].0@);
        }
        if j < n && self.entries[j].0 == k {
            let mut es: Vec<(String, V)> = Vec::new();
            std::mem::swap(&mut es, &mut self.entries);
            let (_, _old_v) = es.remove(j);
            es.insert(j, (k, v));
            assert(es@.map_values(|e: (String, V)| e.0@) =~= ko);
            self.entries = es;
            proof {
                assert(self.key_order() =~= ko);
                assert(ko[j as int] == km);
                assert(ko.contains(km));
                assert forall|q: Seq<char>| #[trigger] self.map_view().contains_key(q) implies self.map_view()[q] == old(self).map_view().insert(km, vm)[q] by {
                    let i2 = ko.index_of(q);
                    assert(ko[i2] == q);
                    if q == km {
                        lemma_ascending_distinct(ko, i2, j as int);
                    }
                }
                assert(self.map_view() =~= old(self).map_view().insert(km, vm));
            }
        } else {
            let mut es: Vec<(String, V)> = Vec::new();
            std::mem::swap(&mut es, &mut self.entries);
            es.insert(j, (k, v));
            proof {
                let ko2 = es@.map_values(|e: (String, V)| e.0@);
                assert(ko2 =~= ko.insert(j as int, km));
                if j < n {
                    lemma_seq_less_total(km, ko[j as int]);
                }
                assert forall|a: int, b: int| 0 <= a < b < ko2.len() implies seq_less(#[trigger] ko2[a], #[trigger] ko2[b]) by {
                    if a == j && b > j {
                        if b - 1 > j {
                            lemma_seq_less_transitive(km, ko[j as int], ko[b - 1]);
                        }
                    } else if a > j {
                        assert(ko2[a] == ko[a - 1]);
                        assert(ko2[b] == ko[b - 1]);
                    }
                }
            }
            self.entries = es;
            proof {
                let ko2 = self.key_order();
                assert(ko2 =~= ko.insert(j as int, km));
                assert forall|i: int| 0 <= i < n implies #[trigger] ko[i] != km by {
                    lemma_seq_less_irreflexive(km);
                    if i > j {
                        lemma_seq_less_transitive(km, ko[j as int], ko[i]);
                    }
                }
                assert(!ko.contains(km));
                assert forall|q: Seq<char>| true implies (#[trigger] ko2.contains(q) <==> (ko.contains(q) || q == km)) by {
                    if ko2.contains(q) {
                        let i = ko2.index_of(q);
                        if i < j {
                            assert(ko[i] == q);
                        } else if i > j {
                            assert(ko[i - 1] == q);
                        }
                    }
                    if ko.contains(q) {
                        let i = ko.index_of(q);
                        if i < j {
                            assert(ko2[i] == q);
                        } else {
                            assert(ko2[i + 1] == q);
                        }
                    }
                    if q == km {
                        assert(ko2[j as int] == q);
                    }
                }
                assert forall|q: Seq<char>| #[trigger] self.map_view().contains_key(q) implies self.map_view()[q] == old(self).map_view().insert(km, vm)[q] by {
                    let i2 = ko2.index_of(q);
                    assert(ko2[i2] == q);
                    if q == km {
                        lemma_ascending_distinct(ko2, i2, j as int);
                    } else {
                        let i1 = ko.index_of(q);
                        if i1 < j {
                            assert(ko2[i1] == q);
                            lemma_ascending_distinct(ko2, i1, i2);
                        } else {
                            assert(ko2[i1 + 1] == q);
                            lemma_ascending_distinct(ko2, i1 + 1, i2);
                        }
                    }
                }
                assert(self.map_view() =~= old(self).map_view().insert(km, vm));
            }
        }
    }

    /// Replaces the value under the key at position `i`, returning the old one.
    pub fn replace_at(&mut self, i: usize, v: V) -> (r: V)
        requires
            i < old(self).key_order().len(),
        ensures
            final(self).key_order() == old(self).key_order(),
            old(self).map_view().contains_key(old(self).key_order()[i as int]),
            r@ == old(self).map_view()[old(self).key_order()[i as int]],
            final(self).map_view() == old(self).map_view().insert(old(self).key_order()[i as int], v@),
    {
        proof {
            use_type_invariant(&*self);
            self.lemma_value_at(i as int);
        }
        let ghost ko = self.key_order();
        let ghost vm = v@;
        let mut es: Vec<(String, V)> = Vec::new();
        std::mem::swap(&mut es, &mut self.entries);
        let (k, old_v) = es.remove(i);
        es.insert(i, (k, v));
        assert(es@.map_values(|e: (String, V)| e.0@) =~= ko);
        self.entries = es;
        proof {
            assert(self.key_order() =~= ko);
            assert forall|q: Seq<char>| #[trigger] self.map_view().contains_key(q) implies self.map_view()[q] == old(self).map_view().insert(ko[i as int], vm)[q] by {
                let i2 = ko.index_of(q);
                assert(ko[i2] == q);
                if q == ko[i as int] {
                    lemma_ascending_distinct(ko, i2, i as int);
                }
            }
            assert(self.map_view() =~= old(self).map_view().insert(ko[i as int], vm));
        }
        old_v
    }

    /// Removes and returns the entry at position `i` of the key order.
    pub fn remove_at(&mut self, i: usize) -> (r: (String, V))
        requires
            i < old(self).key_order().len(),
        ensures
            final(self).wf(),
            r.0@ == old(self).key_order()[i as int],
            old(self).map_view().contains_key(r.0@),
            r.1@ == old(self).map_view()[r.0@],
            final(self).map_view() == old(self).map_view().remove(r.0@),
            final(self).key_order() == old(self).key_order().remove(i as int),
    {
        proof {
            use_type_invariant(&*self);
        }
        let ghost ko = self.key_order();
        proof {
            self.lemma_value_at(i as int);
            lemma_ascending_no_duplicates(ko);
        }
        let mut es: Vec<(String, V)> = Vec::new();
        std::mem::swap(&mut es, &mut self.entries);
        let r = es.remove(i);
        proof {
            let ko2 = es@.map_values(|e: (String, V)| e.0@);
            assert(ko2 =~= ko.remove(i as int));
            assert forall|a: int, b: int| 0 <= a < b < ko2.len() implies seq_less(#[trigger] ko2[a], #[trigger] ko2[b]) by {
                let a0 = if a < i { a } else { a + 1 };
                let b0 = if b < i { b } else { b + 1 };
                assert(ko2[a] == ko[a0]);
                assert(ko2[b] == ko[b0]);
            }
        }
        self.entries = es;
        proof {
            let ko2 = self.key_order();
            let km = r.0@;
            assert(ko2 =~= ko.remove(i as int));
            assert forall|q: Seq<char>| true implies (#[trigger] ko2.contains(q) <==> (ko.contains(q) && q != km)) by {
                if ko2.contains(q) {
                    let j = ko2.index_of(q);
                    if j < i {
                        assert(ko[j] == q);
                    } else {
                        assert(ko[j + 1] == q);
                    }
                }
                if ko.contains(q) && q != km {
                    let j = ko.index_of(q);
                    if j < i {
                        assert(ko2[j] == q);
                    } else {
                        assert(j != i);
                        assert(ko2[j - 1] == q);
                    }
                }
            }
            assert forall|q: Seq<char>| #[trigger] self.map_view().contains_key(q) implies self.map_view()[q] == old(self).map_view().remove(km)[q] by {
                let j = ko2.index_of(q);
                let j0 = ko.index_of(q);
                if j < i {
                    assert(ko[j] == q);
                    assert(j == j0);
                } else {
                    assert(ko[j + 1] == q);
                    assert(j + 1 == j0);
                }
            }
            assert(self.map_view() =~= old(self).map_view().remove(km));
        }
        r
    }

    /// Removes `k` and returns its value, if present.
    pub fn remove(&mut self, k: &String) -> (r: Option<V>)
        ensures
            final(self).wf(),
            r is None <==> !old(self).map_view().contains_key(k@),
            r matches Some(v) ==> v@ == old(self).map_view()[k@],
            final(self).map_view() == old(self).map_view().remove(k@),
            final(self).key_order() == seq_without(old(self).key_order(), k@),
    {
        proof {
            use_type_invariant(&*self);
        }
        match self.find(k) {
            Some(i) => {
                let ghost ko = self.key_order();
                let (_, v) = self.remove_at(i);
                proof {
                    lemma_ascending_no_duplicates(ko);
                    assert(ko.contains(k@));
                    let j = ko.index_of(k@);
                    assert(ko[j] == k@);
                    assert(j == i);
                }
                Some(v)
            },
            None => {
                proof {
                    assert(!self.key_order().contains(k@));
                    assert(self.map_view().remove(k@) =~= self.map_view());
                }
                None
            },
        }
    }
}

impl<V: View> View for StrMap<V> {
    type V = Map<Seq<char>, V::V>;

    open spec fn view(&self) -> Map<Seq<char>, V::V> {
        self.map_view()
    }
}

/// A set of strings, each once, in ascending order.
pub struct StrSet {
    inner: StrMap<bool>,
}

impl StrSet {
    /// The members in ascending order.
    pub closed spec fn elem_order(&self) -> Seq<Seq<char>> {
        self.inner.key_order()
    }

    /// Each member occurs once.
    pub closed spec fn wf(&self) -> bool {
        self.inner.wf()
    }

    /// The set of members.
    pub closed spec fn set_view(&self) -> Set<Seq<char>> {
        self.inner.map_view().dom()
    }

    /// The members are those of the key order, each once.
    pub proof fn lemma_elems(&self)
        requires
            self.wf(),
        ensures
            self.elem_order().no_duplicates(),
            self.set_view() == self.elem_order().to_set(),
            self.set_view().finite(),
            self.set_view().len() == self.elem_order().len(),
            forall|k: Seq<char>| #[trigger] self.set_view().contains(k) <==> self.elem_order().contains(k),
    {
        self.inner.lemma_keys();
    }

    /// Makes the invariant of the set available to proofs; does nothing.
    pub fn note_invariant(&self)
        ensures
            self.wf(),
            self.elem_order() == sorted_keys(self.set_view()),
            self.elem_order().no_duplicates(),
            self.set_view() == self.elem_order().to_set(),
            self.set_view().finite(),
            self.set_view().len() == self.elem_order().len(),
            forall|k: Seq<char>| #[trigger] self.set_view().contains(k) <==> self.elem_order().contains(k),
    {
        proof {
            use_type_invariant(&self.inner);
            self.lemma_elems();
            self.inner.lemma_keys();
        }
    }

    /// The members in ascending order.
    pub fn to_vec(&self) -> (r: Vec<String>)
        ensures
            strs(r@) == sorted_keys(self.set_view()),
    {
        self.note_invariant();
        let mut r: Vec<String> = Vec::new();
        let mut i: usize = 0;
        while i < self.len()
            invariant
                i <= self.elem_order().len(),
                strs(r@) == self.elem_order().take(i as int),
            decreases self.elem_order().len() - i,
        {
            let ghost before = strs(r@);
            r.push(self.elem_at(i).clone());
            proof {
                assert(self.elem_order().take(i + 1) =~= self.elem_order().take(i as int).push(self.elem_order()[i as int]));
                assert(strs(r@) =~= before.push(self.elem_order()[i as int]));
            }
            i = i + 1;
        }
        assert(self.elem_order().take(self.elem_order().len() as int) =~= self.elem_order());
        r
    }

    /// An empty set.
    pub fn new() -> (s: Self)
        ensures
            s.wf(),
            s.set_view() == Set::<Seq<char>>::empty(),
            s.elem_order() == Seq::<Seq<char>>::empty(),
    {
        let s = StrSet { inner: StrMap::new() };
        assert(s.set_view() =~= Set::<Seq<char>>::empty());
        s
    }

    /// The number of members.
    pub fn len(&self) -> (n: usize)
        ensures
            n == self.elem_order().len(),
    {
        proof {
            use_type_invariant(&self.inner);
        }
        self.inner.len()
    }

    /// The member at position `i` of the key order.
    pub fn elem_at(&self, i: usize) -> (k: &String)
        requires
            i < self.elem_order().len(),
        ensures
            k@ == self.elem_order()[i as int],
    {
        proof {
            use_type_invariant(&self.inner);
        }
        self.inner.key_at(i)
    }

    /// Whether `k` is a member.
    pub fn contains(&self, k: &String) -> (b: bool)
        ensures
            b == self.set_view().contains(k@),
    {
        proof {
            use_type_invariant(&self.inner);
        }
        self.inner.contains_key(k)
    }

    /// Adds `k`.
    pub fn insert(&mut self, k: String)
        ensures
            final(self).wf(),
            final(self).set_view() == old(self).set_view().insert(k@),
    {
        proof {
            use_type_invariant(&self.inner);
        }
        let ghost km = k@;
        self.inner.insert(k, true);
        assert(self.set_view() =~= old(self).set_view().insert(km));
        proof {
            use_type_invariant(&self.inner);
        }
    }

    /// Removes `k`, if present.
    pub fn remove(&mut self, k: &String)
        ensures
            final(self).wf(),
            final(self).set_view() == old(self).set_view().remove(k@),
    {
        proof {
            use_type_invariant(&self.inner);
        }
        let _ = self.inner.remove(k);
        assert(self.set_view() =~= old(self).set_view().remove(k@));
        proof {
            use_type_invariant(&self.inner);
        }
    }

    /// Whether the set has no member.
    pub fn is_empty(&self) -> (b: bool)
        ensures
            b == (self.set_view() == Set::<Seq<char>>::empty()),
    {
        proof {
            use_type_invariant(&self.inner);
        }
        proof {
            self.lemma_elems();
        }
        let b = self.inner.len() == 0;
        proof {
            if !b {
                assert(self.set_view().contains(self.elem_order()[0]));
            } else {
                assert(self.set_view() =~= Set::<Seq<char>>::empty());
            }
        }
        b
    }
}

impl View for StrSet {
    type V = Set<Seq<char>>;

    open spec fn view(&self) -> Set<Seq<char>> {
        self.set_view()
    }
}

} // verus!

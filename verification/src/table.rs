//! A map from strings to values, kept in two vectors side by side.

use vstd::prelude::*;
use crate::utils::{last_index_of, lemma_last_index_of};

verus! {

/// A map keyed by strings. No key is held twice.
pub struct Table<V> {
    keys: Vec<String>,
    vals: Vec<V>,
}

/// In a sequence that holds nothing twice, an element is found where it is.
pub proof fn lemma_index_unique(s: Seq<Seq<char>>, j: int)
    requires
        s.no_duplicates(),
        0 <= j < s.len(),
    ensures
        last_index_of(s, s[j]) == j,
{
    lemma_last_index_of(s, s[j]);
}

impl<V: DeepView> Table<V> {
    /// The keys, as contracts see them.
    pub closed spec fn keys(&self) -> Seq<Seq<char>> {
        self.keys.deep_view()
    }

    /// The two vectors are of one length and no key is held twice.
    pub closed spec fn wf(&self) -> bool {
        &&& self.keys@.len() == self.vals@.len()
        &&& self.keys().no_duplicates()
    }

    /// The map that the table stands for.
    pub closed spec fn model(&self) -> Map<Seq<char>, V::V> {
        Map::new(
            |k: Seq<char>| last_index_of(self.keys(), k) >= 0,
            |k: Seq<char>| self.vals@[last_index_of(self.keys(), k)].deep_view(),
        )
    }

    proof fn lemma_model(&self)
        requires
            self.wf(),
        ensures
            forall|k: Seq<char>| #[trigger] self.model().dom().contains(k) <==> self.keys().contains(k),
            forall|j: int|
                0 <= j < self.keys().len() ==> self.model().dom().contains(#[trigger] self.keys()[j])
                    && self.model()[self.keys()[j]] == self.vals@[j].deep_view(),
    {
        assert forall|k: Seq<char>| #[trigger] self.model().dom().contains(k) <==> self.keys().contains(k) by {
            lemma_last_index_of(self.keys(), k);
        }
        assert forall|j: int| 0 <= j < self.keys().len() implies self.model().dom().contains(
            #[trigger] self.keys()[j],
        ) && self.model()[self.keys()[j]] == self.vals@[j].deep_view() by {
            lemma_index_unique(self.keys(), j);
        }
    }

    /// A table without entries.
    pub fn new() -> (t: Self)
        ensures
            t.wf(),
            t.model() == Map::<Seq<char>, V::V>::empty(),
    {
        let t = Table { keys: Vec::new(), vals: Vec::new() };
        assert(t.keys() =~= Seq::<Seq<char>>::empty());
        assert(t.model() =~= Map::<Seq<char>, V::V>::empty());
        t
    }

    /// The number of entries.
    pub fn len(&self) -> (n: usize)
        requires
            self.wf(),
        ensures
            n == self.keys().len(),
    {
        self.keys.len()
    }

    /// The key of the entry at `i`, in the order in which the keys came.
    pub fn key_at(&self, i: usize) -> (key: &String)
        requires
            self.wf(),
            i < self.keys().len(),
        ensures
            key@ == self.keys()[i as int],
    {
        &self.keys[i]
    }

    /// The keys are those of the map, each once.
    pub proof fn lemma_keys(&self)
        requires
            self.wf(),
        ensures
            self.keys().no_duplicates(),
            forall|k: Seq<char>| #[trigger] self.model().dom().contains(k) <==> self.keys().contains(k),
    {
        self.lemma_model();
    }

    /// Where `key` is held, if it is.
    fn position(&self, key: &String) -> (r: Option<usize>)
        requires
            self.wf(),
        ensures
            match r {
                Some(i) => i < self.keys().len() && self.keys()[i as int] == key@,
                None => !self.keys().contains(key@),
            },
    {
        let ghost keys = self.keys();
        let mut i: usize = self.keys.len();
        while i > 0
            invariant
                i <= self.keys@.len(),
                keys == self.keys(),
                forall|j: int| i <= j < keys.len() ==> keys[j] != key@,
            decreases i,
        {
            i = i - 1;
            if self.keys[i] == *key {
                return Some(i);
            }
        }
        None
    }

    /// Whether the table holds `key`.
    pub fn contains_key(&self, key: &String) -> (b: bool)
        requires
            self.wf(),
        ensures
            b == self.model().dom().contains(key@),
    {
        proof {
            self.lemma_model();
        }
        self.position(key).is_some()
    }

    /// The value held for `key`.
    pub fn get(&self, key: &String) -> (r: Option<&V>)
        requires
            self.wf(),
        ensures
            r is Some <==> self.model().dom().contains(key@),
            r matches Some(v) ==> v.deep_view() == self.model()[key@],
    {
        proof {
            self.lemma_model();
        }
        match self.position(key) {
            Some(i) => Some(&self.vals[i]),
            None => None,
        }
    }

    /// Holds `val` for `key`, in place of what was held for it.
    pub fn insert(&mut self, key: String, val: V)
        requires
            old(self).wf(),
        ensures
            final(self).wf(),
            final(self).model() == old(self).model().insert(key@, val.deep_view()),
    {
        proof {
            self.lemma_model();
        }
        match self.position(&key) {
            Some(i) => {
                self.vals.set(i, val);
                proof {
                    self.lemma_model();
                    assert(self.keys() == old(self).keys());
                    assert(self.model() =~= old(self).model().insert(key@, val.deep_view())) by {
                        assert forall|k: Seq<char>| #[trigger]
                            self.model().dom().contains(k) && k != key@ implies self.model()[k] == old(
                            self,
                        ).model()[k] by {
                            lemma_last_index_of(self.keys(), k);
                        }
                    }
                }
            },
            None => {
                let ghost k0 = key@;
                self.keys.push(key);
                self.vals.push(val);
                proof {
                    assert(self.keys() =~= old(self).keys().push(k0));
                    assert(self.keys().no_duplicates());
                    self.lemma_model();
                    assert(self.model() =~= old(self).model().insert(k0, val.deep_view())) by {
                        assert(self.keys()[self.keys().len() - 1] == k0);
                        assert forall|k: Seq<char>| #[trigger]
                            self.model().dom().contains(k) <==> old(self).model().insert(
                                k0,
                                val.deep_view(),
                            ).dom().contains(k) by {
                            if old(self).keys().contains(k) {
                                let j = choose|j: int| 0 <= j < old(self).keys().len() && old(self).keys()[j] == k;
                                assert(self.keys()[j] == k);
                            }
                            if self.keys().contains(k) {
                                let j = choose|j: int| 0 <= j < self.keys().len() && self.keys()[j] == k;
                                if j < old(self).keys().len() {
                                    assert(old(self).keys()[j] == k);
                                }
                            }
                        }
                        assert forall|k: Seq<char>| #[trigger]
                            self.model().dom().contains(k) && k != k0 implies self.model()[k] == old(
                            self,
                        ).model()[k] by {
                            let j = choose|j: int| 0 <= j < self.keys().len() && self.keys()[j] == k;
                            assert(old(self).keys()[j] == k);
                            assert(self.vals@[j] == old(self).vals@[j]);
                        }
                    }
                }
            },
        }
    }

    /// Takes out what is held for `key`, and returns it.
    pub fn remove(&mut self, key: &String) -> (r: Option<V>)
        requires
            old(self).wf(),
        ensures
            final(self).wf(),
            final(self).model() == old(self).model().remove(key@),
            r is Some <==> old(self).model().dom().contains(key@),
            r matches Some(v) ==> v.deep_view() == old(self).model()[key@],
    {
        proof {
            self.lemma_model();
        }
        match self.position(key) {
            Some(i) => {
                let _ = self.keys.remove(i);
                let v = self.vals.remove(i);
                proof {
                    let before = old(self).keys();
                    assert(self.keys() =~= before.remove(i as int));
                    assert(self.keys().no_duplicates()) by {
                        assert forall|a: int, b: int|
                            0 <= a < self.keys().len() && 0 <= b < self.keys().len() && a != b implies self.keys()[a]
                            != self.keys()[b] by {
                            let a0 = if a < i { a } else { a + 1 };
                            let b0 = if b < i { b } else { b + 1 };
                            assert(self.keys()[a] == before[a0] && self.keys()[b] == before[b0]);
                        }
                    }
                    self.lemma_model();
                    assert(self.model() =~= old(self).model().remove(key@)) by {
                        assert forall|k: Seq<char>| #[trigger]
                            self.model().dom().contains(k) <==> old(self).model().remove(key@).dom().contains(
                                k,
                            ) by {
                            if self.keys().contains(k) {
                                let j = choose|j: int| 0 <= j < self.keys().len() && self.keys()[j] == k;
                                let j0 = if j < i { j } else { j + 1 };
                                assert(before[j0] == k);
                            }
                            if before.contains(k) && k != key@ {
                                let j0 = choose|j: int| 0 <= j < before.len() && before[j] == k;
                                let j = if j0 < i { j0 } else { j0 - 1 };
                                assert(self.keys()[j] == k);
                            }
                        }
                        assert forall|k: Seq<char>| #[trigger]
                            self.model().dom().contains(k) implies self.model()[k] == old(self).model()[k] by {
                            let j = choose|j: int| 0 <= j < self.keys().len() && self.keys()[j] == k;
                            let j0 = if j < i { j } else { j + 1 };
                            assert(before[j0] == k);
                            assert(self.vals@[j] == old(self).vals@[j0]);
                        }
                    }
                }
                Some(v)
            },
            None => {
                assert(self.model() =~= old(self).model().remove(key@));
                None
            },
        }
    }
}

} // verus!

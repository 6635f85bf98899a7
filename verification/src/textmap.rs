//! A small map keyed by strings, kept as two parallel lists.
//!
//! Its view is a mathematical map from character sequences to the views of
//! the values; no key is held twice.

use vstd::prelude::*;
use vstd::string::*;
use crate::text::str_eq;

verus! {

/// A map from strings to values of `V`.
pub struct TextMap<V> {
    keys: Vec<String>,
    values: Vec<V>,
}

impl<V: View> TextMap<V> {
    /// Some position holds `key`.
    pub closed spec fn holds(&self, key: Seq<char>) -> bool {
        exists|i: int| 0 <= i < self.keys.len() && (#[trigger] self.keys[i])@ == key
    }

    /// A position that holds `key`.
    pub closed spec fn position(&self, key: Seq<char>) -> int {
        choose|i: int| 0 <= i < self.keys.len() && (#[trigger] self.keys[i])@ == key
    }

    /// The two lists run in step and no key occurs twice.
    pub closed spec fn wf(&self) -> bool {
        &&& self.keys.len() == self.values.len()
        &&& forall|i: int, j: int|
            0 <= i < j < self.keys.len() ==> (#[trigger] self.keys[i])@ != (#[trigger] self.keys[j])@
    }

    /// The map this value stands for.
    pub closed spec fn view(&self) -> Map<Seq<char>, V::V> {
        Map::new(|k: Seq<char>| self.holds(k), |k: Seq<char>| self.values[self.position(k)]@)
    }

    /// The number of entries.
    pub closed spec fn count(&self) -> nat {
        self.keys.len() as nat
    }

    proof fn lemma_position(&self, i: int)
        requires
            self.wf(),
            0 <= i < self.keys.len(),
        ensures
            self.holds(self.keys[i]@),
            self.position(self.keys[i]@) == i,
    {
        let k = self.keys[i]@;
        assert(self.holds(k));
        let p = self.position(k);
        assert(0 <= p < self.keys.len() && self.keys[p]@ == k);
        if p < i {
            assert(self.keys[p]@ != self.keys[i]@);
        } else if i < p {
            assert(self.keys[i]@ != self.keys[p]@);
        }
    }

    /// A map without entries.
    pub fn new() -> (r: TextMap<V>)
        ensures
            r.wf(),
            r@ == Map::<Seq<char>, V::V>::empty(),
            r.count() == 0,
    {
        let r = TextMap { keys: Vec::new(), values: Vec::new() };
        assert(r@ =~= Map::<Seq<char>, V::V>::empty());
        r
    }

    fn find(&self, key: &str) -> (r: Option<usize>)
        requires
            self.wf(),
        ensures
            match r {
                Some(i) => i < self.keys.len() && self.keys[i as int]@ == key@ && self.holds(key@)
                    && self.position(key@) == i,
                None => !self.holds(key@),
            },
    {
        let mut i: usize = 0;
        while i < self.keys.len()
            invariant
                self.wf(),
                i <= self.keys.len(),
                forall|k: int| 0 <= k < i ==> (#[trigger] self.keys[k])@ != key@,
            decreases self.keys.len() - i,
        {
            if str_eq(self.keys[i].as_str(), key) {
                proof {
                    self.lemma_position(i as int);
                }
                return Some(i);
            }
            i += 1;
        }
        None
    }

    /// The value stored under `key`, if there is one.
    pub fn get(&self, key: &str) -> (r: Option<&V>)
        requires
            self.wf(),
        ensures
            match r {
                Some(v) => self@.contains_key(key@) && v@ == self@[key@],
                None => !self@.contains_key(key@),
            },
    {
        match self.find(key) {
            Some(i) => Some(&self.values[i]),
            None => None,
        }
    }

    /// Stores `value` under `key`, in place of what was there.
    pub fn set(&mut self, key: &str, value: V)
        requires
            old(self).wf(),
        ensures
            final(self).wf(),
            final(self)@ == old(self)@.insert(key@, value@),
    {
        let ghost before = *self;
        match self.find(key) {
            Some(i) => {
                self.values[i] = value;
                proof {
                    assert(self.keys == before.keys);
                    assert forall|k: Seq<char>| self.holds(k) == before.holds(k) by {}
                    assert forall|k: Seq<char>| #[trigger] self.holds(k) implies self.values[self.position(k)]@
                        == before@.insert(key@, value@)[k] by {
                        assert(self.position(k) == before.position(k));
                        let p = before.position(k);
                        assert(0 <= p < before.keys.len() && before.keys[p]@ == k);
                        if k == key@ {
                            assert(p == i);
                        } else {
                            assert(p != i);
                        }
                    }
                    assert(self@ =~= before@.insert(key@, value@));
                }
            },
            None => {
                self.keys.push(key.to_owned());
                self.values.push(value);
                proof {
                    let n = before.keys.len() as int;
                    assert(self.keys[n]@ == key@);
                    assert forall|i: int, j: int| 0 <= i < j < self.keys.len() implies (#[trigger] self.keys[i])@
                        != (#[trigger] self.keys[j])@ by {
                        if j == n {
                            assert(before.keys[i]@ != key@);
                        } else {
                            assert(before.keys[i]@ != before.keys[j]@);
                        }
                    }
                    assert(self.wf());
                    assert forall|k: Seq<char>| self.holds(k) == (before.holds(k) || k == key@) by {
                        if before.holds(k) {
                            let p = before.position(k);
                            assert(self.keys[p]@ == k);
                        }
                        if k == key@ {
                            assert(self.keys[n]@ == k);
                        }
                        if self.holds(k) {
                            let p = self.position(k);
                            if p < n {
                                assert(before.keys[p]@ == k);
                            }
                        }
                    }
                    assert forall|k: Seq<char>| #[trigger] self.holds(k) implies self.values[self.position(k)]@
                        == before@.insert(key@, value@)[k] by {
                        let p = self.position(k);
                        assert(0 <= p < self.keys.len() && self.keys[p]@ == k);
                        if k == key@ {
                            self.lemma_position(n);
                        } else {
                            assert(p < n);
                            assert(before.keys[p]@ == k);
                            before.lemma_position(p);
                        }
                    }
                    assert(self@ =~= before@.insert(key@, value@));
                }
            },
        }
    }

    /// How many entries the map holds.
    pub fn len(&self) -> (r: usize)
        requires
            self.wf(),
        ensures
            r == self.count(),
    {
        self.keys.len()
    }

    /// Whether the map holds nothing.
    pub fn is_empty(&self) -> (r: bool)
        requires
            self.wf(),
        ensures
            r == (self@ == Map::<Seq<char>, V::V>::empty()),
    {
        proof {
            if self.keys.len() == 0 {
                assert(self@ =~= Map::<Seq<char>, V::V>::empty());
            } else {
                self.lemma_position(0);
                assert(self@.contains_key(self.keys[0]@));
            }
        }
        self.keys.len() == 0
    }

    /// The key at position `i`, in the order in which keys first arrived.
    pub closed spec fn key_at(&self, i: int) -> Seq<char> {
        self.keys[i]@
    }

    /// The positions hold the keys of the map, each key once.
    pub proof fn lemma_positions(&self)
        requires
            self.wf(),
        ensures
            forall|i: int| 0 <= i < self.count() ==> self@.contains_key(#[trigger] self.key_at(i)),
            forall|i: int, j: int|
                0 <= i < j < self.count() ==> #[trigger] self.key_at(i) != #[trigger] self.key_at(j),
            forall|k: Seq<char>|
                self@.contains_key(k) ==> exists|i: int|
                    0 <= i < self.count() && #[trigger] self.key_at(i) == k,
    {
        assert forall|i: int| 0 <= i < self.count() implies self@.contains_key(
            #[trigger] self.key_at(i),
        ) by {
            self.lemma_position(i);
        }
        assert forall|k: Seq<char>| self@.contains_key(k) implies exists|i: int|
            0 <= i < self.count() && #[trigger] self.key_at(i) == k by {
            let p = self.position(k);
            assert(self.key_at(p) == k);
        }
    }

    /// The key and the value at position `i`.
    pub fn entry(&self, i: usize) -> (r: (&String, &V))
        requires
            self.wf(),
            i < self.count(),
        ensures
            r.0@ == self.key_at(i as int),
            self@.contains_key(r.0@),
            r.1@ == self@[r.0@],
    {
        proof {
            self.lemma_position(i as int);
        }
        (&self.keys[i], &self.values[i])
    }
}

} // verus!

//! A small map keyed by character sequences, kept in insertion order.
use vstd::prelude::*;

use crate::text::{chars_equal, first_index_of, lemma_first_index_of};

verus! {

/// Values keyed by character sequences; a key occurs at most once as seen through the view.
pub struct CharMap<V> {
    entries: Vec<(Vec<char>, V)>,
}

impl<V> CharMap<V> {
    /// The keys in insertion order.
    pub closed spec fn keys(&self) -> Seq<Seq<char>> {
        self.entries@.map_values(|e: (Vec<char>, V)| e.0@)
    }

    /// The number of entries.
    pub closed spec fn size(&self) -> nat {
        self.entries@.len()
    }

    /// An empty map.
    pub fn new() -> (out: Self)
        ensures
            out@ == Map::<Seq<char>, V>::empty(),
            out.size() == 0,
    {
        let out = CharMap { entries: Vec::new() };
        assert(out@ =~= Map::<Seq<char>, V>::empty());
        out
    }

    fn position(&self, key: &[char]) -> (res: Option<usize>)
        ensures
            res matches Some(i) ==> i < self.entries@.len() && first_index_of(self.keys(), key@)
                == Some(i as int),
            res is None ==> first_index_of(self.keys(), key@) is None,
    {
        proof {
            lemma_first_index_of(self.keys(), key@);
        }
        let mut i: usize = 0;
        while i < self.entries.len()
            invariant
                i <= self.entries@.len(),
                self.keys().len() == self.entries@.len(),
                forall|j: int| 0 <= j < i ==> self.keys()[j] != key@,
            decreases self.entries@.len() - i,
        {
            if chars_equal(&self.entries[i].0, key) {
                proof {
                    lemma_first_index_of(self.keys(), key@);
                    assert(self.keys()[i as int] == key@);
                    if let Some(k) = first_index_of(self.keys(), key@) {
                        assert(self.keys()[k] == key@);
                    }
                }
                return Some(i);
            }
            i += 1;
        }
        None
    }

    /// The value of `key`, if it has one.
    pub fn get(&self, key: &[char]) -> (res: Option<&V>)
        ensures
            res matches Some(v) ==> self@.contains_key(key@) && *v == self@[key@],
            res is None ==> !self@.contains_key(key@),
    {
        match self.position(key) {
            Some(i) => Some(&self.entries[i].1),
            None => None,
        }
    }

    /// Gives `key` the value `value` unless it has one already; says whether it was added.
    pub fn insert_if_absent(&mut self, key: Vec<char>, value: V) -> (added: bool)
        ensures
            added == !old(self)@.contains_key(key@),
            final(self)@ == if added {
                old(self)@.insert(key@, value)
            } else {
                old(self)@
            },
            final(self).size() == old(self).size() + if added {
                1int
            } else {
                0
            },
    {
        match self.position(&key) {
            Some(_) => false,
            None => {
                let ghost old_keys = self.keys();
                let ghost k = key@;
                self.entries.push((key, value));
                proof {
                    let new_keys = self.keys();
                    assert(new_keys =~= old_keys.push(k));
                    assert forall|x: Seq<char>| #[trigger] first_index_of(new_keys, x) == if x
                        == k {
                        Some(old_keys.len() as int)
                    } else {
                        first_index_of(old_keys, x)
                    } by {
                        lemma_first_index_of(new_keys, x);
                        lemma_first_index_of(old_keys, x);
                        if x == k {
                            assert(new_keys[old_keys.len() as int] == x);
                        } else {
                            match first_index_of(old_keys, x) {
                                Some(j) => {
                                    assert(new_keys[j] == x);
                                },
                                None => {},
                            }
                        }
                    }
                    assert forall|x: Seq<char>| #[trigger] self@.contains_key(x) implies self@[x]
                        == old(self)@.insert(k, value)[x] by {
                        if x != k {
                            let j = first_index_of(old_keys, x)->0;
                            lemma_first_index_of(old_keys, x);
                            assert(self.entries@[j] == old(self).entries@[j]);
                        }
                    }
                    assert(self@ =~= old(self)@.insert(k, value));
                }
                true
            },
        }
    }
}

impl<V> View for CharMap<V> {
    type V = Map<Seq<char>, V>;

    closed spec fn view(&self) -> Map<Seq<char>, V> {
        Map::new(
            |k: Seq<char>| first_index_of(self.keys(), k) is Some,
            |k: Seq<char>| self.entries@[first_index_of(self.keys(), k)->0].1,
        )
    }
}

} // verus!

//! Finite maps from texts, kept in ascending order of their keys.

use vstd::prelude::*;

use crate::sets::ascending;
use crate::text::{same_text, text_before, text_lt};

verus! {

/// A map from texts. It holds each of its keys once, in ascending order.
#[derive(Debug, PartialEq, Eq)]
pub struct TextMap<V> {
    entries: Vec<(String, V)>,
}

impl<V: Clone> Clone for TextMap<V> {
    fn clone(&self) -> (r: TextMap<V>)
        ensures
            r.keys() == self.keys(),
            r.values().len() == self.values().len(),
            forall|i: int|
                0 <= i < self.values().len() ==> cloned::<V>(
                    #[trigger] self.values()[i],
                    r.values()[i],
                ),
    {
        proof {
            use_type_invariant(self);
        }
        let ghost keys = self.keys();
        let mut entries: Vec<(String, V)> = Vec::new();
        let mut i: usize = 0;
        while i < self.entries.len()
            invariant
                i <= self.entries.len(),
                keys == self.keys(),
                entries@.len() == i,
                forall|k: int| 0 <= k < i ==> (#[trigger] entries@[k]).0@ == keys[k],
                forall|k: int|
                    0 <= k < i ==> cloned::<V>(self.entries@[k].1, (#[trigger] entries@[k]).1),
            decreases self.entries.len() - i,
        {
            let e = &self.entries[i];
            let k = e.0.clone();
            let v = e.1.clone();
            entries.push((k, v));
            i += 1;
        }
        assert(entries@.map_values(|e: (String, V)| e.0@) =~= keys);
        TextMap { entries }
    }
}

impl<V> TextMap<V> {
    #[verifier::type_invariant]
    spec fn ordered(self) -> bool {
        ascending(self.keys())
    }

    /// The keys in ascending order.
    pub closed spec fn keys(self) -> Seq<Seq<char>> {
        self.entries@.map_values(|e: (String, V)| e.0@)
    }

    /// The values in the order of their keys.
    pub closed spec fn values(self) -> Seq<V> {
        self.entries@.map_values(|e: (String, V)| e.1)
    }

    /// The value under a key.
    pub open spec fn at(self, key: Seq<char>) -> Option<V> {
        if self.keys().contains(key) {
            Some(self.values()[self.keys().index_of(key)])
        } else {
            None
        }
    }

    /// The mapping.
    pub open spec fn map(self) -> Map<Seq<char>, V> {
        Map::new(|k: Seq<char>| self.keys().contains(k), |k: Seq<char>| self.at(k)->0)
    }

    /// The keys are in ascending order, and there is a value for each.
    pub fn reveal_order(&self)
        ensures
            ascending(self.keys()),
            self.keys().len() == self.values().len(),
            forall|i: int|
                0 <= i < self.keys().len() ==> self.at(#[trigger] self.keys()[i]) == Some(
                    self.values()[i],
                ),
    {
        proof {
            use_type_invariant(self);
            lemma_ascending_positions(self.keys());
        }
    }

    /// The empty map.
    pub fn new() -> (r: TextMap<V>)
        ensures
            r.keys() == Seq::<Seq<char>>::empty(),
            forall|k: Seq<char>| #[trigger] r.at(k) is None,
            r.map() == Map::<Seq<char>, V>::empty(),
    {
        let r = TextMap { entries: Vec::new() };
        assert(r.keys() =~= Seq::<Seq<char>>::empty());
        assert(r.map() =~= Map::<Seq<char>, V>::empty());
        r
    }

    /// The number of keys.
    pub fn len(&self) -> (r: usize)
        ensures
            r == self.keys().len(),
            r == self.values().len(),
    {
        proof {
            use_type_invariant(self);
        }
        self.entries.len()
    }

    /// The key at a position in ascending order.
    pub fn key_at(&self, i: usize) -> (r: &String)
        requires
            i < self.keys().len(),
        ensures
            r@ == self.keys()[i as int],
    {
        &self.entries[i].0
    }

    /// The value at a position.
    pub fn value_at(&self, i: usize) -> (r: &V)
        requires
            i < self.values().len(),
        ensures
            *r == self.values()[i as int],
    {
        &self.entries[i].1
    }

    fn position(&self, key: &str) -> (r: (usize, bool))
        ensures
            r.0 <= self.keys().len(),
            forall|k: int| 0 <= k < r.0 ==> text_lt(#[trigger] self.keys()[k], key@),
            r.0 < self.keys().len() ==> !text_lt(self.keys()[r.0 as int], key@),
            r.1 == self.keys().contains(key@),
            r.1 ==> r.0 < self.keys().len() && self.keys()[r.0 as int] == key@
                && self.keys().index_of(key@) == r.0,
    {
        proof {
            use_type_invariant(self);
            lemma_ascending_positions(self.keys());
        }
        let mut i: usize = 0;
        while i < self.entries.len() && text_before(self.entries[i].0.as_str(), key)
            invariant
                i <= self.entries.len(),
                forall|k: int| 0 <= k < i ==> text_lt(#[trigger] self.keys()[k], key@),
            decreases self.entries.len() - i,
        {
            i += 1;
        }
        if i < self.entries.len() && same_text(self.entries[i].0.as_str(), key) {
            assert(self.keys()[i as int] == key@);
            return (i, true);
        }
        proof {
            assert(self.keys().len() == self.entries@.len());
            if self.keys().contains(key@) {
                let k = self.keys().index_of(key@);
                crate::text::lemma_text_lt_irreflexive(key@);
                if i < k {
                    assert(text_lt(self.keys()[i as int], self.keys()[k]));
                }
            }
        }
        (i, false)
    }

    /// The value under a key.
    pub fn get(&self, key: &str) -> (r: Option<&V>)
        ensures
            r is Some == self.at(key@) is Some,
            r matches Some(v) ==> self.at(key@) == Some(*v),
    {
        proof {
            use_type_invariant(self);
        }
        let (i, found) = self.position(key);
        if found {
            Some(&self.entries[i].1)
        } else {
            None
        }
    }

    /// Puts a value under a key, in place of the value that was there.
    pub fn insert(&mut self, key: &str, value: V)
        ensures
            forall|k: Seq<char>| #[trigger]
                final(self).at(k) == (if k == key@ {
                    Some(value)
                } else {
                    old(self).at(k)
                }),
            final(self).keys().to_set() == old(self).keys().to_set().insert(key@),
            final(self).keys().len() == old(self).keys().len() + (if old(self).at(
                key@,
            ) is Some {
                0int
            } else {
                1int
            }),
            final(self).map() == old(self).map().insert(key@, value),
            ascending(final(self).keys()),
    {
        proof {
            use_type_invariant(&*self);
            lemma_ascending_positions(self.keys());
        }
        let (i, found) = self.position(key);
        let ghost was = self.map();
        let ghost ks = self.keys();
        let ghost vs = self.values();
        let mut entries: Vec<(String, V)> = Vec::new();
        std::mem::swap(&mut entries, &mut self.entries);
        if found {
            entries.set(i, (key.to_owned(), value));
            proof {
                let after = entries@.map_values(|e: (String, V)| e.0@);
                assert(after =~= ks);
                assert(entries@.map_values(|e: (String, V)| e.1) =~= vs.update(i as int, value));
                assert(ks.to_set() =~= ks.to_set().insert(key@));
            }
        } else {
            proof {
                if i < ks.len() {
                    crate::text::lemma_text_lt_total(ks[i as int], key@);
                    assert(ks[i as int] != key@) by {
                        assert(ks.contains(ks[i as int]));
                    }
                }
            }
            entries.insert(i, (key.to_owned(), value));
            proof {
                let after = entries@.map_values(|e: (String, V)| e.0@);
                let held = entries@.map_values(|e: (String, V)| e.1);
                assert(after =~= ks.insert(i as int, key@));
                assert(held =~= vs.insert(i as int, value));
                assert(ascending(after)) by {
                    lemma_insert_ascending(ks, i as int, key@);
                }
                lemma_insert_set(ks, i as int, key@);
                lemma_ascending_positions(after);
                assert forall|k: Seq<char>| #![auto] after.contains(k) implies (if k == key@ {
                    held[after.index_of(k)] == value
                } else {
                    ks.contains(k) && held[after.index_of(k)] == vs[ks.index_of(k)]
                }) by {
                    let p = after.index_of(k);
                    if k == key@ {
                        assert(after[i as int] == key@);
                    } else {
                        let q = if p < i {
                            p
                        } else {
                            p - 1
                        };
                        assert(ks[q] == k);
                        assert(ks.index_of(k) == q);
                    }
                }
                assert forall|k: Seq<char>| #![auto] ks.contains(k) implies after.contains(k) by {
                    let q = ks.index_of(k);
                    let p = if q < i {
                        q
                    } else {
                        q + 1
                    };
                    assert(after[p] == k);
                }
                assert(after.contains(key@)) by {
                    assert(after[i as int] == key@);
                }
            }
        }
        self.entries = entries;
        proof {
            assert forall|k: Seq<char>| #[trigger] self.at(k) == (if k == key@ {
                Some(value)
            } else if was.dom().contains(k) {
                Some(was[k])
            } else {
                None
            }) by {}
            assert(self.map() =~= was.insert(key@, value));
        }
    }

    /// Takes a key and its value out.
    pub fn remove(&mut self, key: &str) -> (r: Option<V>)
        ensures
            r == old(self).at(key@),
            final(self).map() == old(self).map().remove(key@),
            forall|k: Seq<char>| #[trigger]
                final(self).at(k) == (if k == key@ {
                    None
                } else {
                    old(self).at(k)
                }),
    {
        proof {
            use_type_invariant(&*self);
            lemma_ascending_positions(self.keys());
        }
        let (i, found) = self.position(key);
        if !found {
            assert(self.map() =~= old(self).map().remove(key@));
            return None;
        }
        let ghost ks = self.keys();
        let ghost vs = self.values();
        let ghost was = self.map();
        let mut entries: Vec<(String, V)> = Vec::new();
        std::mem::swap(&mut entries, &mut self.entries);
        let (_, value) = entries.remove(i);
        proof {
            let after = entries@.map_values(|e: (String, V)| e.0@);
            let held = entries@.map_values(|e: (String, V)| e.1);
            assert(after =~= ks.remove(i as int));
            assert(held =~= vs.remove(i as int));
            assert forall|a: int, b: int| 0 <= a < b < after.len() implies text_lt(
                #[trigger] after[a],
                #[trigger] after[b],
            ) by {
                let p = if a < i {
                    a
                } else {
                    a + 1
                };
                let q = if b < i {
                    b
                } else {
                    b + 1
                };
                assert(after[a] == ks[p] && after[b] == ks[q]);
            }
            lemma_ascending_positions(after);
            assert forall|k: Seq<char>| #![auto] after.contains(k) implies ks.contains(k) && k
                != key@ && held[after.index_of(k)] == vs[ks.index_of(k)] by {
                let p = after.index_of(k);
                let q = if p < i {
                    p
                } else {
                    p + 1
                };
                assert(ks[q] == k);
                assert(ks.index_of(k) == q);
            }
            assert forall|k: Seq<char>| #![auto] ks.contains(k) && k != key@ implies after.contains(
                k,
            ) by {
                let q = ks.index_of(k);
                let p = if q < i {
                    q
                } else {
                    q - 1
                };
                assert(after[p] == k);
            }
        }
        self.entries = entries;
        proof {
            assert(self.map() =~= was.remove(key@));
        }
        Some(value)
    }
}

/// In an ascending list each member stands at one position.
pub proof fn lemma_ascending_positions(s: Seq<Seq<char>>)
    requires
        ascending(s),
    ensures
        forall|i: int| 0 <= i < s.len() ==> s.index_of(#[trigger] s[i]) == i,
        forall|i: int, j: int|
            0 <= i < s.len() && 0 <= j < s.len() && #[trigger] s[i] == #[trigger] s[j] ==> i == j,
{
    assert forall|i: int, j: int|
        0 <= i < s.len() && 0 <= j < s.len() && #[trigger] s[i] == #[trigger] s[j] implies i == j by {
        crate::text::lemma_text_lt_irreflexive(s[i]);
        if i < j {
            assert(text_lt(s[i], s[j]));
        } else if j < i {
            assert(text_lt(s[j], s[i]));
        }
    }
    assert forall|i: int| 0 <= i < s.len() implies s.index_of(#[trigger] s[i]) == i by {
        assert(s.contains(s[i]));
        let k = s.index_of(s[i]);
        assert(s[k] == s[i]);
    }
}

/// Putting a text before the first one that is after it keeps a list
/// ascending.
pub proof fn lemma_insert_ascending(s: Seq<Seq<char>>, i: int, x: Seq<char>)
    requires
        ascending(s),
        0 <= i <= s.len(),
        forall|k: int| 0 <= k < i ==> text_lt(#[trigger] s[k], x),
        i < s.len() ==> text_lt(x, s[i]),
    ensures
        ascending(s.insert(i, x)),
{
    let after = s.insert(i, x);
    assert forall|a: int, b: int| 0 <= a < b < after.len() implies text_lt(
        #[trigger] after[a],
        #[trigger] after[b],
    ) by {
        if b == i {
            assert(after[a] == s[a]);
        } else if a == i {
            assert(after[b] == s[b - 1]);
            if b - 1 > i {
                assert(text_lt(s[i], s[b - 1]));
                crate::text::lemma_text_lt_transitive(x, s[i], s[b - 1]);
            }
        } else {
            let p = if a < i {
                a
            } else {
                a - 1
            };
            let q = if b < i {
                b
            } else {
                b - 1
            };
            assert(after[a] == s[p] && after[b] == s[q]);
            assert(text_lt(s[p], s[q]));
        }
    }
}

/// Inserting an item into a list adds it to the list's set.
pub proof fn lemma_insert_set<A>(s: Seq<A>, i: int, x: A)
    requires
        0 <= i <= s.len(),
    ensures
        s.insert(i, x).to_set() == s.to_set().insert(x),
{
    let after = s.insert(i, x);
    assert forall|y: A| after.to_set().contains(y) == s.to_set().insert(x).contains(y) by {
        if s.contains(y) {
            let k = s.index_of(y);
            let m = if k < i {
                k
            } else {
                k + 1
            };
            assert(after[m] == y);
        }
        if y == x {
            assert(after[i] == y);
        }
        if after.contains(y) && y != x {
            let k = after.index_of(y);
            let m = if k < i {
                k
            } else {
                k - 1
            };
            assert(s[m] == y);
        }
    }
    assert(after.to_set() =~= s.to_set().insert(x));
}

} // verus!

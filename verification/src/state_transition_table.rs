//! The transition table of a finite automaton: an associative mapping keyed by
//! `(source state, input symbol)`, valued by an ordered list of destination
//! states. Entries are kept in insertion order and keys are unique; the
//! ordering of a destination list is a caller-side invariant.
use vstd::prelude::*;

verus! {

#[derive(Debug, Clone, PartialEq, Eq)]
pub struct StateTransitionTable {
    pub entries: Vec<((char, char), Vec<char>)>,
}

impl StateTransitionTable {
    /// Key uniqueness: the table denotes a finite map.
    pub open spec fn wf(self) -> bool {
        forall|i: int, j: int|
            0 <= i < j < self.entries@.len() ==> self.entries@[i].0 != self.entries@[j].0
    }

    pub open spec fn spec_len(self) -> nat {
        self.entries@.len()
    }

    /// The key of the entry at position `i`.
    pub open spec fn key_at(self, i: int) -> (char, char) {
        self.entries@[i].0
    }

    /// The destination list of the entry at position `i`.
    pub open spec fn val_at(self, i: int) -> Seq<char> {
        self.entries@[i].1@
    }

    pub open spec fn spec_contains_key(self, key: (char, char)) -> bool {
        exists|i: int| 0 <= i < self.entries@.len() && self.entries@[i].0 == key
    }

    /// The position of `key`; meaningful only when the key is present.
    pub open spec fn index_of(self, key: (char, char)) -> int {
        choose|i: int| 0 <= i < self.entries@.len() && self.entries@[i].0 == key
    }

    /// The destination list bound to `key`; meaningful only when present.
    pub open spec fn spec_get_val(self, key: (char, char)) -> Seq<char> {
        self.val_at(self.index_of(key))
    }

    /// The map reading of the table: the list bound to `key`, if any.
    pub open spec fn spec_get(self, key: (char, char)) -> Option<Seq<char>> {
        if self.spec_contains_key(key) {
            Some(self.spec_get_val(key))
        } else {
            None
        }
    }

    /// In a well-formed table, every position bears its own key's binding.
    pub proof fn lemma_get_at(self, i: int)
        requires
            self.wf(),
            0 <= i < self.spec_len(),
        ensures
            self.spec_contains_key(self.key_at(i)),
            self.index_of(self.key_at(i)) == i,
            self.spec_get(self.key_at(i)) == Some(self.val_at(i)),
    {
        assert(self.entries@[i].0 == self.key_at(i));
        let j = self.index_of(self.key_at(i));
        assert(0 <= j < self.entries@.len() && self.entries@[j].0 == self.key_at(i));
        if i < j {
            assert(self.entries@[i].0 != self.entries@[j].0);
        } else if j < i {
            assert(self.entries@[j].0 != self.entries@[i].0);
        }
    }

    pub fn new() -> (r: Self)
        ensures
            r.wf(),
            r.spec_len() == 0,
            forall|k: (char, char)| !r.spec_contains_key(k),
    {
        Self { entries: Vec::new() }
    }

    pub fn len(&self) -> (r: usize)
        ensures
            r == self.spec_len(),
    {
        self.entries.len()
    }

    /// The position of `key` in the entry list, if the key is present.
    pub fn find_index(&self, key: &(char, char)) -> (r: Option<usize>)
        ensures
            match r {
                Some(i) => 0 <= i < self.spec_len() && self.key_at(i as int) == *key,
                None => !self.spec_contains_key(*key),
            },
    {
        let mut i: usize = 0;
        while i < self.entries.len()
            invariant
                0 <= i <= self.entries@.len(),
                forall|k: int| 0 <= k < i ==> self.entries@[k].0 != *key,
            decreases self.entries@.len() - i,
        {
            let k = self.entries[i].0;
            if k.0 == key.0 && k.1 == key.1 {
                return Some(i);
            }
            i = i + 1;
        }
        None
    }

    pub fn get(&self, key: &(char, char)) -> (r: Option<&Vec<char>>)
        requires
            self.wf(),
        ensures
            match r {
                Some(v) => self.spec_contains_key(*key) && self.spec_get(*key) == Some(v@),
                None => !self.spec_contains_key(*key),
            },
    {
        match self.find_index(key) {
            Some(i) => {
                proof {
                    self.lemma_get_at(i as int);
                }
                Some(&self.entries[i].1)
            },
            None => None,
        }
    }

    /// Read access to the entries, for iteration in insertion order.
    pub fn iter(&self) -> (r: &Vec<((char, char), Vec<char>)>)
        ensures
            *r == self.entries,
    {
        &self.entries
    }

    /// Write access to the entries, for iteration in insertion order. The
    /// caller is responsible for keeping the keys unique.
    pub fn iter_mut(&mut self) -> (r: &mut Vec<((char, char), Vec<char>)>)
        ensures
            *r == old(self).entries,
            final(self).entries == *final(r),
    {
        &mut self.entries
    }

    /// Write access to the destination list bound to `key`, which must be
    /// present.
    pub fn get_mut(&mut self, key: &(char, char)) -> (r: &mut Vec<char>)
        requires
            old(self).wf(),
            old(self).spec_contains_key(*key),
        ensures
            (*r)@ == old(self).spec_get_val(*key),
            final(self).wf(),
            final(self).spec_len() == old(self).spec_len(),
            forall|i: int|
                0 <= i < old(self).spec_len() ==> final(self).key_at(i) == old(self).key_at(i),
            final(self).val_at(old(self).index_of(*key)) == final(r)@,
            forall|i: int|
                0 <= i < old(self).spec_len() && i != old(self).index_of(*key)
                    ==> final(self).val_at(i) == old(self).val_at(i),
    {
        let i = match self.find_index(key) {
            Some(i) => i,
            None => {
                proof {
                    assert(false);
                }
                0
            },
        };
        proof {
            self.lemma_get_at(i as int);
        }
        &mut self.entries[i].1
    }

    /// Binds `key` to `value`, replacing and returning any previous binding.
    pub fn insert(&mut self, key: (char, char), value: Vec<char>) -> (r: Option<Vec<char>>)
        requires
            old(self).wf(),
        ensures
            final(self).wf(),
            final(self).spec_contains_key(key),
            final(self).spec_get(key) == Some(value@),
            forall|k2: (char, char)|
                k2 != key ==> final(self).spec_get(k2) == old(self).spec_get(k2),
            match r {
                Some(v) => old(self).spec_contains_key(key) && old(self).spec_get(key) == Some(
                    v@,
                ),
                None => !old(self).spec_contains_key(key),
            },
            old(self).spec_contains_key(key) ==> final(self).spec_len() == old(self).spec_len()
                && final(self).index_of(key) == old(self).index_of(key),
            !old(self).spec_contains_key(key) ==> final(self).spec_len() == old(self).spec_len()
                + 1 && final(self).key_at(old(self).spec_len() as int) == key,
            forall|i: int|
                0 <= i < old(self).spec_len() && old(self).key_at(i) != key ==> final(self).key_at(
                    i,
                ) == old(self).key_at(i) && final(self).val_at(i) == old(self).val_at(i),
            forall|i: int|
                0 <= i < old(self).spec_len() ==> final(self).key_at(i) == old(self).key_at(i),
    {
        match self.find_index(&key) {
            Some(i) => {
                proof {
                    self.lemma_get_at(i as int);
                }
                let prev = self.entries.remove(i);
                self.entries.insert(i, (key, value));
                proof {
                    assert(self.entries@.len() == old(self).entries@.len());
                    assert forall|p: int| 0 <= p < self.entries@.len() && p != i implies self
                        .entries@[p] == old(self).entries@[p] by {}
                    assert(self.entries@[i as int].0 == key);
                    assert(self.entries@[i as int].1 == value);
                    self.lemma_get_at(i as int);
                    assert forall|k2: (char, char)| k2 != key implies final(self).spec_get(k2)
                        == old(self).spec_get(k2) by {
                        if old(self).spec_contains_key(k2) {
                            let p = old(self).index_of(k2);
                            assert(old(self).entries@[p].0 == k2);
                            assert(p != i);
                            assert(self.entries@[p].0 == k2);
                            self.lemma_get_at(p);
                            old(self).lemma_get_at(p);
                        } else {
                            if self.spec_contains_key(k2) {
                                let p = self.index_of(k2);
                                assert(self.entries@[p].0 == k2);
                                assert(p != i);
                                assert(old(self).entries@[p].0 == k2);
                            }
                        }
                    }
                }
                Some(prev.1)
            },
            None => {
                self.entries.push((key, value));
                proof {
                    assert(self.entries@ == old(self).entries@.push((key, value)));
                    let n = old(self).entries@.len() as int;
                    assert(self.entries@[n].0 == key);
                    assert(self.entries@[n].1 == value);
                    assert forall|p: int| 0 <= p < n implies self.entries@[p] == old(
                        self,
                    ).entries@[p] by {}
                    self.lemma_get_at(n);
                    assert forall|k2: (char, char)| k2 != key implies final(self).spec_get(k2)
                        == old(self).spec_get(k2) by {
                        if old(self).spec_contains_key(k2) {
                            let p = old(self).index_of(k2);
                            assert(old(self).entries@[p].0 == k2);
                            assert(self.entries@[p].0 == k2);
                            self.lemma_get_at(p);
                            old(self).lemma_get_at(p);
                        } else {
                            if self.spec_contains_key(k2) {
                                let p = self.index_of(k2);
                                assert(self.entries@[p].0 == k2);
                                assert(p != n);
                                assert(old(self).entries@[p].0 == k2);
                            }
                        }
                    }
                }
                None
            },
        }
    }

    /// Unbinds `key`, returning the list it was bound to, if any.
    pub fn remove(&mut self, key: &(char, char)) -> (r: Option<Vec<char>>)
        requires
            old(self).wf(),
        ensures
            final(self).wf(),
            !final(self).spec_contains_key(*key),
            forall|k2: (char, char)|
                k2 != *key ==> final(self).spec_get(k2) == old(self).spec_get(k2),
            match r {
                Some(v) => old(self).spec_contains_key(*key) && old(self).spec_get(*key) == Some(
                    v@,
                ) && final(self).spec_len() == old(self).spec_len() - 1,
                None => !old(self).spec_contains_key(*key) && *final(self) == *old(self),
            },
    {
        match self.find_index(key) {
            Some(i) => {
                proof {
                    self.lemma_get_at(i as int);
                }
                let prev = self.entries.remove(i);
                proof {
                    assert(self.entries@ == old(self).entries@.remove(i as int));
                    assert forall|p: int| 0 <= p < self.entries@.len() implies self.entries@[p]
                        == (if p < i {
                        old(self).entries@[p]
                    } else {
                        old(self).entries@[p + 1]
                    }) by {}
                    assert forall|p: int|
                        0 <= p < self.entries@.len() implies self.entries@[p].0 != *key by {
                        if p < i {
                            assert(old(self).entries@[p].0 != old(self).entries@[i as int].0);
                        } else {
                            assert(old(self).entries@[i as int].0 != old(self).entries@[p + 1].0);
                        }
                    }
                    assert forall|k2: (char, char)| k2 != *key implies final(self).spec_get(k2)
                        == old(self).spec_get(k2) by {
                        if old(self).spec_contains_key(k2) {
                            let p = old(self).index_of(k2);
                            assert(old(self).entries@[p].0 == k2);
                            assert(p != i);
                            if p < i {
                                assert(self.entries@[p].0 == k2);
                                self.lemma_get_at(p);
                            } else {
                                assert(self.entries@[p - 1].0 == k2);
                                self.lemma_get_at(p - 1);
                            }
                            old(self).lemma_get_at(p);
                        } else {
                            if self.spec_contains_key(k2) {
                                let p = self.index_of(k2);
                                assert(self.entries@[p].0 == k2);
                                if p < i {
                                    assert(old(self).entries@[p].0 == k2);
                                } else {
                                    assert(old(self).entries@[p + 1].0 == k2);
                                }
                            }
                        }
                    }
                }
                Some(prev.1)
            },
            None => None,
        }
    }

    /// Unbinds `key`, returning the full entry, if any.
    pub fn remove_entry(&mut self, key: &(char, char)) -> (r: Option<((char, char), Vec<char>)>)
        requires
            old(self).wf(),
        ensures
            final(self).wf(),
            !final(self).spec_contains_key(*key),
            forall|k2: (char, char)|
                k2 != *key ==> final(self).spec_get(k2) == old(self).spec_get(k2),
            match r {
                Some(e) => e.0 == *key && old(self).spec_get(*key) == Some(e.1@),
                None => !old(self).spec_contains_key(*key) && *final(self) == *old(self),
            },
    {
        let found = self.find_index(key).is_some();
        let k = (key.0, key.1);
        match self.remove(key) {
            Some(v) => Some((k, v)),
            None => None,
        }
    }
}

} // verus!

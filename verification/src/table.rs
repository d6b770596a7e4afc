use vstd::prelude::*;
use crate::text::str_equal;

verus! {

/// A table keyed by mod identifier in which each key occurs at most once.
/// The entries keep the order in which their keys were first inserted.
pub struct ModTable<V> {
    entries: Vec<(String, V)>,
}

/// The keys of a sequence of entries.
pub open spec fn entry_keys<V>(entries: Seq<(String, V)>) -> Seq<Seq<char>> {
    Seq::new(entries.len(), |i: int| entries[i].0@)
}

/// The values of a sequence of entries.
pub open spec fn entry_values<V>(entries: Seq<(String, V)>) -> Seq<V> {
    Seq::new(entries.len(), |i: int| entries[i].1)
}

impl<V> ModTable<V> {
    /// The keys, in table order.
    pub closed spec fn key_seq(&self) -> Seq<Seq<char>> {
        entry_keys(self.entries@)
    }

    /// The values, in table order: `value_seq()[i]` belongs to `key_seq()[i]`.
    pub closed spec fn value_seq(&self) -> Seq<V> {
        entry_values(self.entries@)
    }

    #[verifier::type_invariant]
    closed spec fn keys_are_distinct(&self) -> bool {
        self.key_seq().no_duplicates()
    }

    /// The table's shape: as many values as keys, no key twice.
    pub open spec fn table_wf(&self) -> bool {
        &&& self.key_seq().len() == self.value_seq().len()
        &&& self.key_seq().no_duplicates()
    }

    /// In a well-formed table the map view gives each key its own value.
    pub proof fn lemma_view(&self)
        requires
            self.table_wf(),
        ensures
            self@.dom() == self.key_seq().to_set(),
            forall|i: int|
                0 <= i < self.key_seq().len() ==> #[trigger] self@[self.key_seq()[i]]
                    == self.value_seq()[i],
    {
        assert(self@.dom() =~= self.key_seq().to_set());
        assert forall|i: int| 0 <= i < self.key_seq().len() implies #[trigger] self@[self.key_seq()[i]]
            == self.value_seq()[i] by {
            let k = self.key_seq()[i];
            assert(self.key_seq().contains(k));
            let j = self.key_seq().index_of(k);
            assert(self.key_seq()[j] == k);
        }
    }

    /// An empty table.
    pub fn new() -> (r: Self)
        ensures
            r@ == Map::<Seq<char>, V>::empty(),
            r.key_seq() == Seq::<Seq<char>>::empty(),
            r.table_wf(),
    {
        let r = ModTable { entries: Vec::new() };
        assert(r.key_seq() =~= Seq::<Seq<char>>::empty());
        assert(r@ =~= Map::<Seq<char>, V>::empty());
        r
    }

    /// Number of entries.
    pub fn len(&self) -> (r: usize)
        ensures
            r == self.key_seq().len(),
            self.table_wf(),
    {
        proof {
            use_type_invariant(self);
        }
        self.entries.len()
    }

    /// The key of entry `i`.
    pub fn key_at(&self, i: usize) -> (r: &String)
        requires
            i < self.key_seq().len(),
        ensures
            r@ == self.key_seq()[i as int],
    {
        &self.entries[i].0
    }

    /// The value of entry `i`.
    pub fn value_at(&self, i: usize) -> (r: &V)
        requires
            i < self.key_seq().len(),
        ensures
            *r == self.value_seq()[i as int],
            *r == self@[self.key_seq()[i as int]],
    {
        proof {
            use_type_invariant(self);
            self.lemma_view();
        }
        &self.entries[i].1
    }

    /// Position of `key`, if it is in the table.
    pub fn find(&self, key: &str) -> (r: Option<usize>)
        ensures
            self.table_wf(),
            r is None <==> !self@.dom().contains(key@),
            r matches Some(i) ==> i < self.key_seq().len() && self.key_seq()[i as int] == key@,
    {
        proof {
            use_type_invariant(self);
        }
        let n = self.entries.len();
        let mut i: usize = 0;
        while i < n
            invariant
                n == self.entries@.len(),
                self.table_wf(),
                i <= n,
                forall|j: int| 0 <= j < i ==> self.key_seq()[j] != key@,
            decreases n - i,
        {
            if str_equal(self.entries[i].0.as_str(), key) {
                assert(self.key_seq()[i as int] == key@);
                assert(self.key_seq().contains(key@));
                return Some(i);
            }
            i = i + 1;
        }
        None
    }

    /// Whether `key` is in the table.
    pub fn contains_key(&self, key: &str) -> (r: bool)
        ensures
            r == self@.dom().contains(key@),
    {
        self.find(key).is_some()
    }

    /// The value stored under `key`.
    pub fn get(&self, key: &str) -> (r: Option<&V>)
        ensures
            self@.dom().contains(key@) ==> r == Some(&self@[key@]),
            !self@.dom().contains(key@) ==> r is None,
    {
        match self.find(key) {
            Some(i) => Some(self.value_at(i)),
            None => None,
        }
    }

    /// The keys, in table order.
    pub fn keys(&self) -> (r: Vec<String>)
        ensures
            r.len() == self.key_seq().len(),
            forall|i: int| 0 <= i < r.len() ==> #[trigger] r@[i]@ == self.key_seq()[i],
            self.table_wf(),
    {
        proof {
            use_type_invariant(self);
        }
        let mut r: Vec<String> = Vec::new();
        let n = self.entries.len();
        for i in 0..n
            invariant
                n == self.entries@.len(),
                r.len() == i,
                forall|j: int| 0 <= j < i ==> #[trigger] r@[j]@ == self.key_seq()[j],
        {
            r.push(self.entries[i].0.clone());
        }
        r
    }

    /// Stores `value` under `key`, replacing the value already there; a new
    /// key goes to the end of the table.
    pub fn insert(&mut self, key: String, value: V)
        ensures
            final(self)@ == old(self)@.insert(key@, value),
            final(self).table_wf(),
            old(self)@.dom().contains(key@) ==> final(self).key_seq() == old(self).key_seq(),
            !old(self)@.dom().contains(key@) ==> final(self).key_seq() == old(self).key_seq().push(
                key@,
            ),
    {
        proof {
            use_type_invariant(&*self);
        }
        let ghost old_keys = self.key_seq();
        let ghost old_values = self.value_seq();
        let ghost k = key@;
        let found = self.find(key.as_str());
        let mut entries: Vec<(String, V)> = Vec::new();
        std::mem::swap(&mut entries, &mut self.entries);
        match found {
            Some(i) => {
                entries.set(i, (key, value));
            },
            None => {
                entries.push((key, value));
            },
        }
        proof {
            match found {
                Some(i) => {
                    assert(entry_keys(entries@) =~= old_keys);
                },
                None => {
                    assert(entry_keys(entries@) =~= old_keys.push(k));
                    assert(!old_keys.contains(k));
                },
            }
        }
        self.entries = entries;
        proof {
            let new_keys = self.key_seq();
            let new_values = self.value_seq();
            match found {
                Some(i) => {
                    assert(new_keys =~= old_keys);
                    assert(new_values =~= old_values.update(i as int, value));
                },
                None => {
                    assert(new_keys =~= old_keys.push(k));
                    assert(new_values =~= old_values.push(value));
                },
            }
            self.lemma_view();
            old(self).lemma_view();
            assert(self@.dom() =~= old(self)@.insert(k, value).dom()) by {
                assert forall|q: Seq<char>| #[trigger] new_keys.contains(q) implies (old_keys.contains(q)
                    || q == k) by {
                    let j = new_keys.index_of(q);
                    if q != k {
                        assert(old_keys[j] == q);
                    }
                }
                assert forall|q: Seq<char>| old_keys.contains(q) implies #[trigger] new_keys.contains(q) by {
                    let j = old_keys.index_of(q);
                    assert(new_keys[j] == q);
                }
                match found {
                    Some(i) => {
                        assert(new_keys[i as int] == k);
                    },
                    None => {
                        assert(new_keys[old_keys.len() as int] == k);
                    },
                }
            }
            assert forall|q: Seq<char>| #[trigger] self@.dom().contains(q) implies self@[q]
                == old(self)@.insert(k, value)[q] by {
                let j = new_keys.index_of(q);
                assert(new_keys[j] == q);
                if q != k {
                    assert(old_keys[j] == q);
                }
            }
            assert(self@ =~= old(self)@.insert(k, value));
        }
    }

    /// Removes `key` and its value; the other entries keep their order.
    pub fn remove(&mut self, key: &str)
        ensures
            final(self)@ == old(self)@.remove(key@),
            final(self).table_wf(),
            final(self).key_seq().to_set() == old(self).key_seq().to_set().remove(key@),
    {
        proof {
            use_type_invariant(&*self);
        }
        let ghost old_keys = self.key_seq();
        let ghost old_values = self.value_seq();
        let found = self.find(key);
        match found {
            Some(i) => {
                let mut entries: Vec<(String, V)> = Vec::new();
                std::mem::swap(&mut entries, &mut self.entries);
                let _ = entries.remove(i);
                proof {
                    assert(entry_keys(entries@) =~= old_keys.remove(i as int));
                }
                self.entries = entries;
                proof {
                    let new_keys = self.key_seq();
                    let new_values = self.value_seq();
                    assert(new_keys =~= old_keys.remove(i as int));
                    assert(new_values =~= old_values.remove(i as int));
                    self.lemma_view();
                    old(self).lemma_view();
                    assert(new_keys.to_set() =~= old_keys.to_set().remove(key@)) by {
                        assert forall|q: Seq<char>| #[trigger] new_keys.to_set().contains(q) implies
                            old_keys.to_set().remove(key@).contains(q) by {
                            let j = new_keys.index_of(q);
                            if j < i {
                                assert(old_keys[j] == q);
                            } else {
                                assert(old_keys[j + 1] == q);
                            }
                        }
                        assert forall|q: Seq<char>| #[trigger] old_keys.to_set().remove(key@).contains(q)
                            implies new_keys.to_set().contains(q) by {
                            let j = old_keys.index_of(q);
                            if j < i {
                                assert(new_keys[j] == q);
                            } else {
                                assert(new_keys[j - 1] == q);
                            }
                        }
                    }
                    assert forall|q: Seq<char>| #[trigger] self@.dom().contains(q) implies self@[q]
                        == old(self)@.remove(key@)[q] by {
                        let j = new_keys.index_of(q);
                        assert(new_keys[j] == q);
                        if j < i {
                            assert(old_keys[j] == q);
                        } else {
                            assert(old_keys[j + 1] == q);
                        }
                    }
                    assert(self@ =~= old(self)@.remove(key@));
                }
            },
            None => {
                proof {
                    assert(old(self)@.remove(key@) =~= old(self)@);
                    assert(old_keys.to_set().remove(key@) =~= old_keys.to_set());
                }
            },
        }
    }
}

impl<V> View for ModTable<V> {
    type V = Map<Seq<char>, V>;

    /// Each key of the table maps to its value.
    open spec fn view(&self) -> Map<Seq<char>, V> {
        Map::new(
            |k: Seq<char>| self.key_seq().contains(k),
            |k: Seq<char>| self.value_seq()[self.key_seq().index_of(k)],
        )
    }
}

} // verus!

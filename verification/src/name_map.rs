//! A map from names to values.

use vstd::prelude::*;

verus! {

/// A map from names to values. Each name occurs once.
pub struct NameMap<V> {
    entries: Vec<(String, V)>,
}

impl<V> View for NameMap<V> {
    type V = Map<Seq<char>, V>;

    closed spec fn view(&self) -> Map<Seq<char>, V> {
        Map::new(
            |name: Seq<char>| self.keys().contains(name),
            |name: Seq<char>| self.entries@[self.keys().index_of(name)].1,
        )
    }
}

impl<V> NameMap<V> {
    /// The names in the order in which `name_at` gives them.
    pub closed spec fn keys(self) -> Seq<Seq<char>> {
        Seq::new(self.entries@.len(), |i: int| self.entries@[i].0@)
    }

    #[verifier::type_invariant]
    spec fn names_are_distinct(self) -> bool {
        self.keys().no_duplicates()
    }

    /// The map without entries.
    pub fn new() -> (map: Self)
        ensures
            map@ == Map::<Seq<char>, V>::empty(),
    {
        let map = NameMap { entries: Vec::new() };
        assert(map@ == Map::<Seq<char>, V>::empty());
        map
    }

    /// An entry of the list is an entry of the map.
    proof fn lemma_entry(self, i: int)
        requires
            self.keys().no_duplicates(),
            0 <= i < self.entries@.len(),
        ensures
            self@.contains_key(self.entries@[i].0@),
            self@[self.entries@[i].0@] == self.entries@[i].1,
    {
        let name = self.entries@[i].0@;
        assert(self.keys()[i] == name);
        assert(self.keys().contains(name));
        let k = self.keys().index_of(name);
        assert(self.keys()[k] == name);
        assert(k == i);
    }

    /// How many names there are.
    pub fn len(&self) -> (len: usize)
        ensures
            len == self.keys().len(),
            self.keys().no_duplicates(),
            self.keys().to_set() == self@.dom(),
    {
        proof {
            use_type_invariant(self);
            assert(self.keys().to_set() =~= self@.dom());
        }
        self.entries.len()
    }

    /// The name at place `i`.
    pub fn name_at(&self, i: usize) -> (name: &str)
        requires
            i < self.keys().len(),
        ensures
            name@ == self.keys()[i as int],
            self@.contains_key(name@),
    {
        proof {
            use_type_invariant(self);
            self.lemma_entry(i as int);
        }
        self.entries[i].0.as_str()
    }

    /// The value of the name at place `i`.
    pub fn value_at(&self, i: usize) -> (value: &V)
        requires
            i < self.keys().len(),
        ensures
            self@.contains_key(self.keys()[i as int]),
            *value == self@[self.keys()[i as int]],
    {
        proof {
            use_type_invariant(self);
            self.lemma_entry(i as int);
        }
        &self.entries[i].1
    }

    /// The place of a name in the list, or the length of the list.
    fn place(&self, name: &str) -> (i: usize)
        ensures
            i <= self.entries@.len(),
            i < self.entries@.len() ==> self.entries@[i as int].0@ == name@,
            i < self.entries@.len() <==> self@.contains_key(name@),
    {
        let wanted = name.to_owned();
        let mut i: usize = 0;
        while i < self.entries.len()
            invariant
                wanted@ == name@,
                i <= self.entries@.len(),
                forall|k: int| 0 <= k < i ==> (#[trigger] self.entries@[k]).0@ != name@,
            decreases self.entries@.len() - i,
        {
            if self.entries[i].0 == wanted {
                assert(self.keys()[i as int] == name@);
                return i;
            }
            i = i + 1;
        }
        assert(!self.keys().contains(name@)) by {
            if self.keys().contains(name@) {
                let k = choose|k: int| 0 <= k < self.keys().len() && self.keys()[k] == name@;
                assert(self.entries@[k].0@ == name@);
            }
        }
        i
    }

    /// The value of a name, if it has one.
    pub fn get(&self, name: &str) -> (value: Option<&V>)
        ensures
            match value {
                Some(v) => self@.contains_key(name@) && *v == self@[name@],
                None => !self@.contains_key(name@),
            },
    {
        proof {
            use_type_invariant(self);
        }
        let i = self.place(name);
        if i < self.entries.len() {
            proof {
                self.lemma_entry(i as int);
            }
            Some(&self.entries[i].1)
        } else {
            None
        }
    }

    /// Gives the name this value, in place of any that it had.
    pub fn insert(&mut self, name: String, value: V)
        ensures
            final(self)@ == old(self)@.insert(name@, value),
    {
        proof {
            use_type_invariant(&*self);
        }
        let ghost before = *self;
        let i = self.place(name.as_str());
        let mut entries: Vec<(String, V)> = Vec::new();
        std::mem::swap(&mut entries, &mut self.entries);
        let ghost key = name@;
        if i < entries.len() {
            entries.set(i, (name, value));
            let ghost after = NameMap { entries };
            proof {
                assert(after.keys() =~= before.keys());
            }
            self.entries = entries;
        } else {
            entries.push((name, value));
            let ghost after = NameMap { entries };
            proof {
                assert(after.keys() =~= before.keys().push(key));
                assert(!before.keys().contains(key));
            }
            self.entries = entries;
        }
        proof {
            let now = *self;
            assert forall|k: Seq<char>| now.keys().contains(k) <==> before.keys().contains(k) || k == key by {
                if before.keys().contains(k) {
                    let j = before.keys().index_of(k);
                    assert(now.keys()[j] == k);
                }
                assert(now.keys()[i as int] == key);
                if now.keys().contains(k) {
                    let j = now.keys().index_of(k);
                    if j < before.keys().len() {
                        assert(before.keys()[j] == now.keys()[j]);
                    }
                }
            }
            assert forall|k: Seq<char>| before@.insert(key, value).contains_key(k) implies #[trigger] now@[k]
                == before@.insert(key, value)[k] by {
                if k == key {
                    now.lemma_entry(i as int);
                } else {
                    let j = before.keys().index_of(k);
                    assert(before.keys()[j] == k);
                    before.lemma_entry(j);
                    assert(now.entries@[j] == before.entries@[j]);
                    now.lemma_entry(j);
                }
            }
            assert(now@ =~= before@.insert(key, value));
        }
    }

    /// Takes the name out, and says whether it was there.
    pub fn remove(&mut self, name: &str) -> (removed: bool)
        ensures
            removed == old(self)@.contains_key(name@),
            final(self)@ == old(self)@.remove(name@),
    {
        proof {
            use_type_invariant(&*self);
        }
        let ghost before = *self;
        let i = self.place(name);
        if i >= self.entries.len() {
            assert(self@.remove(name@) =~= self@);
            return false;
        }
        let mut entries: Vec<(String, V)> = Vec::new();
        std::mem::swap(&mut entries, &mut self.entries);
        let ghost listed = entries@;
        entries.remove(i);
        let ghost after = NameMap { entries };
        proof {
            let key = name@;
            assert(after.entries@ == listed.remove(i as int));
            assert forall|j: int| 0 <= j < after.keys().len() implies #[trigger] after.keys()[j] == before.keys()[if j < i { j } else { j + 1 }] by {
            }
            assert(after.keys().no_duplicates());
            assert(before.keys()[i as int] == key);
            assert forall|k: Seq<char>| after.keys().contains(k) <==> before.keys().contains(k) && k != key by {
                if before.keys().contains(k) && k != key {
                    let j = before.keys().index_of(k);
                    if j < i {
                        assert(after.keys()[j] == k);
                    } else {
                        assert(after.keys()[j - 1] == k);
                    }
                }
                if after.keys().contains(k) {
                    let j = after.keys().index_of(k);
                    assert(after.keys()[j] == k);
                    assert(before.keys()[if j < i { j } else { j + 1 }] == k);
                }
            }
            assert forall|k: Seq<char>| before@.remove(key).contains_key(k) implies #[trigger] after@[k]
                == before@.remove(key)[k] by {
                let j = before.keys().index_of(k);
                assert(before.keys()[j] == k);
                before.lemma_entry(j);
                let l = if j < i { j } else { j - 1 };
                assert(after.entries@[l] == before.entries@[j]);
                after.lemma_entry(l);
            }
            assert(after@ =~= before@.remove(key));
        }
        self.entries = entries;
        true
    }
}

} // verus!

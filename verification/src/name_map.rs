//! A map from names to values.
//!
//! The map keeps its entries in the order in which their names were first
//! inserted, and no name occurs twice. Its model is a `Map` from the names'
//! characters to the values, which says nothing of that order: two maps that
//! hold the same entries have the same model.

use vstd::prelude::*;
use vstd::string::*;
use crate::text::same_text;

verus! {

/// A map from names to values of type `V`.
#[derive(Debug)]
pub struct NameMap<V> {
    keys: Vec<String>,
    values: Vec<V>,
}

impl<V> View for NameMap<V> {
    type V = Map<Seq<char>, V>;

    closed spec fn view(&self) -> Map<Seq<char>, V> {
        Map::new(
            |k: Seq<char>| exists|i: int| 0 <= i < self.keys.len() && self.keys[i]@ == k,
            |k: Seq<char>|
                self.values[choose|i: int| 0 <= i < self.keys.len() && self.keys[i]@ == k],
        )
    }
}

impl<V> NameMap<V> {
    #[verifier::type_invariant]
    closed spec fn distinct(&self) -> bool {
        &&& self.keys.len() == self.values.len()
        &&& forall|i: int, j: int|
            0 <= i < j < self.keys.len() ==> self.keys[i]@ != self.keys[j]@
    }

    /// The names of the map, in the order in which they were first inserted.
    pub closed spec fn names(&self) -> Seq<Seq<char>> {
        Seq::new(self.keys.len() as nat, |i: int| self.keys[i]@)
    }

    /// Whether the names are the domain of the model, each once.
    pub open spec fn names_are_domain(&self) -> bool {
        &&& self.names().no_duplicates()
        &&& self.names().to_set() == self@.dom()
        &&& self@.dom().finite()
        &&& self@.len() == self.names().len()
    }

    /// What the type invariant says of the names.
    proof fn lemma_names(&self)
        requires
            self.distinct(),
        ensures
            self.names_are_domain(),
    {
        let names = self.names();
        assert(names.no_duplicates());
        assert(names.to_set() =~= self@.dom()) by {
            assert forall|k: Seq<char>| names.to_set().contains(k) implies self@.dom().contains(
                k,
            ) by {
                let i = choose|i: int| 0 <= i < names.len() && names[i] == k;
                assert(self.keys[i]@ == k);
            }
            assert forall|k: Seq<char>| self@.dom().contains(k) implies names.to_set().contains(
                k,
            ) by {
                let i = choose|i: int| 0 <= i < self.keys.len() && self.keys[i]@ == k;
                assert(names[i] == k);
            }
        }
        vstd::seq_lib::seq_to_set_is_finite(names);
        names.unique_seq_to_set();
    }

    /// An empty map.
    pub fn new() -> (map: Self)
        ensures
            map@ == Map::<Seq<char>, V>::empty(),
            map.names() == Seq::<Seq<char>>::empty(),
    {
        let map = NameMap { keys: Vec::new(), values: Vec::new() };
        assert(map@ =~= Map::<Seq<char>, V>::empty());
        assert(map.names() =~= Seq::<Seq<char>>::empty());
        map
    }

    /// The place of `key` among the names.
    fn find(&self, key: &str) -> (r: Option<usize>)
        ensures
            match r {
                Some(i) => i < self.keys.len() && self.keys[i as int]@ == key@,
                None => forall|i: int| 0 <= i < self.keys.len() ==> self.keys[i]@ != key@,
            },
    {
        let mut i: usize = 0;
        while i < self.keys.len()
            invariant
                i <= self.keys.len(),
                forall|j: int| 0 <= j < i ==> self.keys[j]@ != key@,
            decreases self.keys.len() - i,
        {
            if same_text(self.keys[i].as_str(), key) {
                return Some(i);
            }
            i += 1;
        }
        None
    }

    /// The number of entries.
    pub fn len(&self) -> (n: usize)
        ensures
            n == self@.len(),
            n == self.names().len(),
            self.names_are_domain(),
    {
        proof {
            use_type_invariant(self);
            self.lemma_names();
        }
        self.keys.len()
    }

    /// Whether the map holds no entry.
    pub fn is_empty(&self) -> (b: bool)
        ensures
            b == (self@.len() == 0),
            b == (self@ == Map::<Seq<char>, V>::empty()),
    {
        proof {
            use_type_invariant(self);
            self.lemma_names();
            if self.keys.len() == 0 {
                assert(self@ =~= Map::<Seq<char>, V>::empty());
            } else {
                assert(self@.contains_key(self.keys[0]@));
            }
        }
        self.keys.len() == 0
    }

    /// Whether the map holds an entry under `key`.
    pub fn contains_key(&self, key: &str) -> (b: bool)
        ensures
            b == self@.contains_key(key@),
    {
        self.find(key).is_some()
    }

    /// The value under `key`, if there is one.
    pub fn get(&self, key: &str) -> (r: Option<&V>)
        ensures
            match r {
                Some(v) => self@.contains_key(key@) && *v == self@[key@],
                None => !self@.contains_key(key@),
            },
    {
        proof {
            use_type_invariant(self);
        }
        match self.find(key) {
            Some(i) => Some(&self.values[i]),
            None => None,
        }
    }

    /// The value under `key`, if there is one, for changing in place: the
    /// map afterwards holds under `key` what the caller leaves in the value,
    /// and is otherwise as before.
    pub fn get_mut(&mut self, key: &str) -> (r: Option<&mut V>)
        ensures
            match r {
                Some(v) => {
                    &&& old(self)@.contains_key(key@)
                    &&& *v == old(self)@[key@]
                    &&& final(self)@ == old(self)@.insert(key@, *final(v))
                    &&& final(self).names() == old(self).names()
                },
                None => !old(self)@.contains_key(key@) && *final(self) == *old(self),
            },
    {
        proof {
            use_type_invariant(&*self);
        }
        match self.find(key) {
            Some(i) => Some(&mut self.values[i]),
            None => None,
        }
    }

    /// Puts `value` under `key`, in place of the value that was there, which
    /// is returned. A new name is added after the names already present.
    pub fn insert(&mut self, key: String, value: V) -> (r: Option<V>)
        ensures
            final(self)@ == old(self)@.insert(key@, value),
            r == if old(self)@.contains_key(key@) {
                Some(old(self)@[key@])
            } else {
                None::<V>
            },
            final(self).names() == if old(self)@.contains_key(key@) {
                old(self).names()
            } else {
                old(self).names().push(key@)
            },
    {
        proof {
            use_type_invariant(&*self);
        }
        match self.find(key.as_str()) {
            Some(i) => {
                let mut value = value;
                std::mem::swap(&mut self.values[i], &mut value);
                assert(self@ =~= old(self)@.insert(key@, self.values[i as int]));
                Some(value)
            },
            None => {
                let mut taken = NameMap { keys: Vec::new(), values: Vec::new() };
                std::mem::swap(self, &mut taken);
                let NameMap { mut keys, mut values } = taken;
                keys.push(key);
                values.push(value);
                *self = NameMap { keys, values };
                proof {
                    let n = old(self).keys.len() as int;
                    assert(self.keys[n]@ == key@);
                    assert forall|k: Seq<char>| old(self)@.contains_key(k) implies (
                    #[trigger] self@.contains_key(k)) && self@[k] == old(self)@[k] by {
                        let i = choose|i: int|
                            0 <= i < old(self).keys.len() && old(self).keys[i]@ == k;
                        assert(self.keys[i]@ == k);
                    }
                    assert(self@ =~= old(self)@.insert(key@, value));
                    assert(self.names() =~= old(self).names().push(key@));
                }
                None
            },
        }
    }

    /// The name of the entry at place `i` in insertion order.
    pub fn name_at(&self, i: usize) -> (name: &str)
        requires
            i < self.names().len(),
        ensures
            name@ == self.names()[i as int],
            self@.contains_key(name@),
    {
        self.keys[i].as_str()
    }

    /// The value of the entry at place `i` in insertion order.
    pub fn value_at(&self, i: usize) -> (value: &V)
        requires
            i < self.names().len(),
        ensures
            self@.contains_key(self.names()[i as int]),
            *value == self@[self.names()[i as int]],
    {
        proof {
            use_type_invariant(self);
            assert(self.keys[i as int]@ == self.names()[i as int]);
        }
        &self.values[i]
    }
}

impl<V> Default for NameMap<V> {
    fn default() -> (map: Self)
        ensures
            map@ == Map::<Seq<char>, V>::empty(),
    {
        NameMap::new()
    }
}

} // verus!

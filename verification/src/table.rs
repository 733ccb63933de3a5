//! A table of named values.
//!
//! Each name occurs once. The values of a table are looked up by name; setting
//! a name that is already there replaces its value.

use crate::text::str_eq;
use vstd::prelude::*;

verus! {

/// Named values. The view maps each name to its value.
#[derive(Debug)]
pub struct Table<V> {
    names: Vec<String>,
    values: Vec<V>,
}

impl<V> View for Table<V> {
    type V = Map<Seq<char>, V>;

    closed spec fn view(&self) -> Map<Seq<char>, V> {
        Map::new(
            |name: Seq<char>| self.holds(name),
            |name: Seq<char>| self.values@[self.index_of(name)],
        )
    }
}

impl<V> Table<V> {
    spec fn holds(&self, name: Seq<char>) -> bool {
        exists|i: int| 0 <= i < self.names@.len() && (#[trigger] self.names@[i])@ == name
    }

    spec fn index_of(&self, name: Seq<char>) -> int {
        choose|i: int| 0 <= i < self.names@.len() && (#[trigger] self.names@[i])@ == name
    }

    #[verifier::type_invariant]
    spec fn inv(&self) -> bool {
        &&& self.names@.len() == self.values@.len()
        &&& forall|i: int, j: int|
            0 <= i < j < self.names@.len() ==> (#[trigger] self.names@[i])@ != (
            #[trigger] self.names@[j])@
    }

    proof fn lemma_entries(&self)
        requires
            self.inv(),
        ensures
            forall|i: int|
                0 <= i < self.names@.len() ==> {
                    let name = (#[trigger] self.names@[i])@;
                    self.holds(name) && self.index_of(name) == i && self@.dom().contains(name)
                        && self@[name] == self.values@[i]
                },
    {
        assert forall|i: int| 0 <= i < self.names@.len() implies ({
            let name = (#[trigger] self.names@[i])@;
            self.holds(name) && self.index_of(name) == i
        }) by {
            let name = self.names@[i]@;
            let j = self.index_of(name);
            assert(self.names@[j]@ == name);
        }
    }

    pub fn new() -> (t: Self)
        ensures
            t@ == Map::<Seq<char>, V>::empty(),
    {
        let t: Table<V> = Table { names: Vec::new(), values: Vec::new() };
        assert(t@ =~= Map::<Seq<char>, V>::empty());
        t
    }

    fn position(&self, name: &str) -> (r: Option<usize>)
        ensures
            match r {
                Some(i) => i < self.names@.len() && self.names@[i as int]@ == name@
                    && self.names@.len() == self.values@.len() && self.index_of(name@) == i,
                None => !self.holds(name@),
            },
    {
        proof {
            use_type_invariant(&*self);
        }
        let mut i: usize = 0;
        while i < self.names.len()
            invariant
                i <= self.names@.len(),
                self.inv(),
                forall|j: int| 0 <= j < i ==> (#[trigger] self.names@[j])@ != name@,
            decreases self.names.len() - i,
        {
            if str_eq(self.names[i].as_str(), name) {
                return Some(i);
            }
            i = i + 1;
        }
        None
    }

    /// The value of `name`, if it has one.
    pub fn get(&self, name: &str) -> (r: Option<&V>)
        ensures
            match r {
                Some(v) => self@.dom().contains(name@) && *v == self@[name@],
                None => !self@.dom().contains(name@),
            },
    {
        match self.position(name) {
            Some(i) => Some(&self.values[i]),
            None => None,
        }
    }

    pub fn contains_key(&self, name: &str) -> (r: bool)
        ensures
            r == self@.dom().contains(name@),
    {
        self.position(name).is_some()
    }

    /// The table with the value of `name` set.
    pub fn insert(self, name: String, value: V) -> (t: Self)
        ensures
            t@ == self@.insert(name@, value),
    {
        proof {
            use_type_invariant(&self);
        }
        let at: Option<usize> = self.position(name.as_str());
        let ghost key = name@;
        let ghost before = self;
        let mut names: Vec<String> = self.names;
        let mut values: Vec<V> = self.values;
        match at {
            Some(i) => {
                values.set(i, value);
            },
            None => {
                names.push(name);
                values.push(value);
            },
        }
        let t: Table<V> = Table { names, values };
        proof {
            before.lemma_entries();
            t.lemma_entries();
            assert forall|k: Seq<char>| t.holds(k) == (before.holds(k) || k == key) by {
                if before.holds(k) {
                    let i = before.index_of(k);
                    assert(t.names@[i]@ == k);
                }
                if k == key {
                    let i = match at {
                        Some(i) => i as int,
                        None => before.names@.len() as int,
                    };
                    assert(t.names@[i]@ == k);
                }
                if t.holds(k) {
                    let i = t.index_of(k);
                    assert(i < before.names@.len() ==> before.names@[i]@ == k);
                }
            }
            assert forall|k: Seq<char>| #[trigger]
                t@.dom().contains(k) implies t@[k] == before@.insert(key, value)[k] by {
                let i = t.index_of(k);
                assert(t.names@[i]@ == k);
                if k != key {
                    assert(before.names@[i]@ == k);
                    assert(before.index_of(k) == i);
                }
            }
            assert(t@ =~= before@.insert(key, value));
        }
        t
    }

    /// The number of names.
    pub fn len(&self) -> (n: usize)
        ensures
            self@.dom().finite(),
            n == self@.dom().len(),
    {
        proof {
            use_type_invariant(&*self);
            self.lemma_entries();
            let keys = self.names@.map_values(|s: String| s@);
            assert(keys.no_duplicates());
            keys.unique_seq_to_set();
            vstd::seq_lib::seq_to_set_is_finite(keys);
            assert forall|k: Seq<char>| keys.to_set().contains(k) == self@.dom().contains(k) by {
                if self.holds(k) {
                    assert(keys[self.index_of(k)] == k);
                }
                if keys.contains(k) {
                    let i = choose|i: int| 0 <= i < keys.len() && keys[i] == k;
                    assert(self.names@[i]@ == k);
                }
            }
            assert(keys.to_set() =~= self@.dom());
        }
        self.names.len()
    }
}

} // verus!

//! Tables keyed by name.
use vstd::hash_map::StringHashMap;
use vstd::prelude::*;

verus! {

broadcast use vstd::hash_map::group_hash_map_axioms;

/// A table from names to values: constant-time lookup by name, and a walk over all entries.
///
/// Its view is the map from names to the views of the values. The order of the walk is not part
/// of the view.
#[verifier::reject_recursive_types(T)]
pub struct Table<T> {
    slots: StringHashMap<usize>,
    entries: Vec<(String, T)>,
}

impl<T: View> View for Table<T> {
    type V = Map<Seq<char>, T::V>;

    closed spec fn view(&self) -> Map<Seq<char>, T::V> {
        Map::new(
            |name: Seq<char>| self.slots@.contains_key(name),
            |name: Seq<char>| self.entries@[self.slots@[name] as int].1@,
        )
    }
}

impl<T: View> Table<T> {
    /// Each slot points at the entry of its name, and each entry has its slot.
    pub closed spec fn wf(&self) -> bool {
        &&& forall|name: Seq<char>| #[trigger]
            self.slots@.contains_key(name) ==> self.slots@[name] < self.entries@.len()
                && self.entries@[self.slots@[name] as int].0@ == name
        &&& forall|at: int|
            0 <= at < self.entries@.len() ==> self.slots@.contains_key(
                (#[trigger] self.entries@[at]).0@,
            ) && self.slots@[self.entries@[at].0@] == at
    }

    /// The names in walking order.
    pub closed spec fn walk(&self) -> Seq<Seq<char>> {
        self.entries@.map_values(|entry: (String, T)| entry.0@)
    }

    /// The walk meets every name of the table once.
    pub proof fn lemma_walk(&self)
        requires
            self.wf(),
        ensures
            self.walk().no_duplicates(),
            self.walk().to_set() =~= self@.dom(),
    {
        assert forall|name: Seq<char>| self@.contains_key(name) implies self.walk().contains(
            name,
        ) by {
            assert(self.walk()[self.slots@[name] as int] == name);
        }
    }

    pub fn new() -> (table: Self)
        ensures
            table.wf(),
            table@ == Map::<Seq<char>, T::V>::empty(),
    {
        let table = Table { slots: StringHashMap::new(), entries: Vec::new() };
        assert(table@ =~= Map::<Seq<char>, T::V>::empty());
        table
    }

    /// The number of entries.
    pub fn len(&self) -> (count: usize)
        requires
            self.wf(),
        ensures
            count == self@.len(),
            count == self.walk().len(),
    {
        proof {
            self.lemma_walk();
            self.walk().unique_seq_to_set();
        }
        self.entries.len()
    }

    pub fn contains_key(&self, name: &str) -> (present: bool)
        ensures
            present == self@.contains_key(name@),
    {
        self.slots.contains_key(name)
    }

    pub fn get(&self, name: &str) -> (value: Option<&T>)
        requires
            self.wf(),
        ensures
            match value {
                Some(value) => self@.contains_key(name@) && value@ == self@[name@],
                None => !self@.contains_key(name@),
            },
    {
        match self.slots.get(name) {
            Some(at) => Some(&self.entries[*at].1),
            None => None,
        }
    }

    /// The name at a position of the walk.
    pub fn name_at(&self, at: usize) -> (name: &String)
        requires
            self.wf(),
            at < self.walk().len(),
        ensures
            name@ == self.walk()[at as int],
            self@.contains_key(name@),
    {
        &self.entries[at].0
    }

    /// The value at a position of the walk.
    pub fn value_at(&self, at: usize) -> (value: &T)
        requires
            self.wf(),
            at < self.walk().len(),
        ensures
            self@.contains_key(self.walk()[at as int]),
            value@ == self@[self.walk()[at as int]],
    {
        &self.entries[at].1
    }

    /// Set the value of a name, which may be new.
    pub fn insert(&mut self, name: String, value: T)
        requires
            old(self).wf(),
        ensures
            final(self).wf(),
            final(self)@ == old(self)@.insert(name@, value@),
    {
        let at: usize = match self.slots.get(name.as_str()) {
            Some(at) => *at,
            None => self.entries.len(),
        };
        if at < self.entries.len() {
            let ghost before = self.entries@;
            self.entries.set(at, (name, value));
            assert(self@ =~= old(self)@.insert(name@, value@));
        } else {
            self.slots.insert(name.clone(), at);
            self.entries.push((name, value));
            assert(self@ =~= old(self)@.insert(name@, value@));
        }
    }

    /// Take a name out of the table.
    pub fn remove(&mut self, name: &str) -> (value: Option<T>)
        requires
            old(self).wf(),
        ensures
            final(self).wf(),
            final(self)@ == old(self)@.remove(name@),
            match value {
                Some(value) => old(self)@.contains_key(name@) && value@ == old(self)@[name@],
                None => !old(self)@.contains_key(name@),
            },
    {
        let at: usize = match self.slots.get(name) {
            Some(at) => *at,
            None => {
                assert(self@ =~= old(self)@.remove(name@));
                return None;
            },
        };
        self.slots.remove(name);
        let ghost before = self.entries@;
        let taken = self.entries.swap_remove(at);
        if at < self.entries.len() {
            let moved: String = self.entries[at].0.clone();
            self.slots.insert(moved, at);
        }
        proof {
            assert forall|other: Seq<char>| #[trigger]
                self.slots@.contains_key(other) implies self.slots@[other] < self.entries@.len()
                && self.entries@[self.slots@[other] as int].0@ == other by {
                assert(old(self).slots@.contains_key(other));
            }
            assert forall|k: int| 0 <= k < self.entries@.len() implies self.slots@.contains_key(
                (#[trigger] self.entries@[k]).0@,
            ) && self.slots@[self.entries@[k].0@] == k by {
                assert(before[k].0@ == before[k].0@);
                assert(before[before.len() - 1].0@ == before[before.len() - 1].0@);
            }
            assert(self@ =~= old(self)@.remove(name@));
        }
        Some(taken.1)
    }
}

} // verus!

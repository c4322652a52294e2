//! A map from text to values that can also be walked by position.
use vstd::hash_map::StringHashMap;
use vstd::prelude::*;

verus! {

/// Values under text keys: found by key in a hash map, walked by position.
/// The positions follow no particular order.
pub struct Table<V> {
    items: Vec<(String, V)>,
    places: StringHashMap<usize>,
}

impl<V: View> View for Table<V> {
    type V = Map<Seq<char>, V::V>;

    closed spec fn view(&self) -> Map<Seq<char>, V::V> {
        Map::new(
            |key: Seq<char>| self.places@.contains_key(key),
            |key: Seq<char>| self.items@[self.places@[key] as int].1@,
        )
    }
}

impl<V: View> Table<V> {
    /// The hash map and the positions agree.
    pub closed spec fn wf(&self) -> bool {
        &&& self.places@.dom().finite()
        &&& self.places@.len() == self.items@.len()
        &&& forall|i: int|
            #![trigger self.items@[i]]
            0 <= i < self.items@.len() ==> self.places@.contains_key(self.items@[i].0@)
                && self.places@[self.items@[i].0@] == i
        &&& forall|key: Seq<char>| #[trigger]
            self.places@.contains_key(key) ==> self.places@[key] < self.items@.len()
                && self.items@[self.places@[key] as int].0@ == key
    }

    /// The keys in the order of their positions.
    pub closed spec fn keys(&self) -> Seq<Seq<char>> {
        self.items@.map_values(|item: (String, V)| item.0@)
    }

    /// The keys by position are the keys of the map, each once.
    pub proof fn lemma_keys(&self)
        requires
            self.wf(),
        ensures
            self@.dom().finite(),
            self.keys().len() == self@.len(),
            self.keys().no_duplicates(),
            forall|i: int| 0 <= i < self.keys().len() ==> self@.contains_key(#[trigger] self.keys()[i]),
            forall|key: Seq<char>| #[trigger] self@.contains_key(key) ==> self.keys().contains(key),
    {
        assert(self@.dom() =~= self.places@.dom());
        assert forall|i: int| 0 <= i < self.keys().len() implies self@.contains_key(
            #[trigger] self.keys()[i],
        ) by {
            let _ = self.items@[i];
        }
        assert forall|i: int, j: int|
            0 <= i < self.keys().len() && 0 <= j < self.keys().len() && i
                != j implies self.keys()[i] != self.keys()[j] by {
            let _ = self.items@[i];
            let _ = self.items@[j];
        }
        assert forall|key: Seq<char>| #[trigger] self@.contains_key(key) implies self.keys().contains(
            key,
        ) by {
            assert(self.places@.contains_key(key));
            assert(self.keys()[self.places@[key] as int] == key);
        }
    }

    /// No entries.
    pub fn new() -> (table: Table<V>)
        ensures
            table.wf(),
            table@ == Map::<Seq<char>, V::V>::empty(),
    {
        let table = Table { items: Vec::new(), places: StringHashMap::new() };
        assert(table@ =~= Map::empty());
        table
    }

    /// The number of entries.
    pub fn len(&self) -> (length: usize)
        requires
            self.wf(),
        ensures
            length == self@.len(),
            length == self.keys().len(),
    {
        proof {
            self.lemma_keys();
        }
        self.items.len()
    }

    /// Whether a key is present.
    pub fn contains(&self, key: &str) -> (present: bool)
        requires
            self.wf(),
        ensures
            present == self@.contains_key(key@),
    {
        self.places.contains_key(key)
    }

    /// The value under a key.
    pub fn get(&self, key: &str) -> (value: Option<&V>)
        requires
            self.wf(),
        ensures
            match value {
                Some(v) => self@.contains_key(key@) && v@ == self@[key@],
                None => !self@.contains_key(key@),
            },
    {
        match self.places.get(key) {
            Some(place) => Some(&self.items[*place].1),
            None => None,
        }
    }

    /// The key at a position.
    pub fn key_at(&self, index: usize) -> (key: &String)
        requires
            self.wf(),
            index < self.keys().len(),
        ensures
            key@ == self.keys()[index as int],
    {
        &self.items[index].0
    }

    /// The value at a position.
    pub fn value_at(&self, index: usize) -> (value: &V)
        requires
            self.wf(),
            index < self.keys().len(),
        ensures
            self@.contains_key(self.keys()[index as int]),
            value@ == self@[self.keys()[index as int]],
    {
        let item = &self.items[index];
        assert(self.places@[self.items@[index as int].0@] == index);
        &item.1
    }

    /// Puts a value under a key; says whether the key was there before.
    pub fn insert(&mut self, key: String, value: V) -> (replaced: bool)
        requires
            old(self).wf(),
        ensures
            final(self).wf(),
            final(self)@ == old(self)@.insert(key@, value@),
            replaced == old(self)@.contains_key(key@),
    {
        let ghost before = *self;
        let found: Option<usize> = match self.places.get(key.as_str()) {
            Some(place) => Some(*place),
            None => None,
        };
        match found {
            Some(place) => {
                let ghost name = key@;
                self.items[place] = (key, value);
                proof {
                    assert forall|i: int|
                        #![trigger self.items@[i]]
                        0 <= i < self.items@.len() implies self.places@.contains_key(
                        self.items@[i].0@,
                    ) && self.places@[self.items@[i].0@] == i by {
                        let _ = before.items@[i];
                    }
                    assert(self@ =~= before@.insert(name, value@));
                }
                true
            },
            None => {
                let ghost name = key@;
                self.places.insert(key.clone(), self.items.len());
                self.items.push((key, value));
                proof {
                    assert forall|i: int|
                        #![trigger self.items@[i]]
                        0 <= i < self.items@.len() implies self.places@.contains_key(
                        self.items@[i].0@,
                    ) && self.places@[self.items@[i].0@] == i by {
                        if i < before.items@.len() {
                            let _ = before.items@[i];
                        }
                    }
                    assert(self@ =~= before@.insert(name, value@));
                }
                false
            },
        }
    }

    /// Takes a key out; says whether it was there.
    pub fn remove(&mut self, key: &str) -> (removed: bool)
        requires
            old(self).wf(),
        ensures
            final(self).wf(),
            final(self)@ == old(self)@.remove(key@),
            removed == old(self)@.contains_key(key@),
    {
        let ghost before = *self;
        let found: Option<usize> = match self.places.get(key) {
            Some(place) => Some(*place),
            None => None,
        };
        match found {
            Some(place) => {
                self.places.remove(key);
                let _ = self.items.swap_remove(place);
                if place < self.items.len() {
                    let moved = self.items[place].0.clone();
                    assert(moved@ == before.items@[before.items@.len() - 1].0@);
                    self.places.insert(moved, place);
                }
                proof {
                    let last = before.items@.len() - 1;
                    let _ = before.items@[last];
                    let _ = before.items@[place as int];
                    assert(self.places@.dom() =~= before.places@.dom().remove(key@));
                    assert forall|i: int|
                        #![trigger self.items@[i]]
                        0 <= i < self.items@.len() implies self.places@.contains_key(
                        self.items@[i].0@,
                    ) && self.places@[self.items@[i].0@] == i by {
                        let _ = before.items@[i];
                    }
                    assert forall|k: Seq<char>| #[trigger]
                        self.places@.contains_key(k) implies self.places@[k] < self.items@.len()
                        && self.items@[self.places@[k] as int].0@ == k by {
                        assert(before.places@.contains_key(k));
                    }
                    assert forall|k: Seq<char>| #[trigger]
                        self@.contains_key(k) implies self@[k] == before@[k] by {
                        assert(before.places@.contains_key(k));
                    }
                    assert(self@ =~= before@.remove(key@));
                }
                true
            },
            None => {
                assert(self@ =~= before@.remove(key@));
                false
            },
        }
    }

    /// Takes everything out.
    pub fn clear(&mut self)
        ensures
            final(self).wf(),
            final(self)@ == Map::<Seq<char>, V::V>::empty(),
    {
        self.items.clear();
        self.places.clear();
        assert(self@ =~= Map::empty());
    }
}

} // verus!

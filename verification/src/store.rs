//! The key-value store: a map from string keys to string values.
//!
//! A store is an ordinary value. Whoever shares one between workers puts
//! it behind a lock and takes the lock around each single operation; the
//! operations themselves are sequential and say exactly what they do to
//! the map.

use vstd::hash_map::StringHashMap;
use vstd::prelude::*;

verus! {

/// The state of a store, as contracts speak of it.
pub type State = Map<Seq<char>, Seq<char>>;

/// An in-memory map from keys to values, without bound or expiry.
pub struct Store {
    entries: StringHashMap<String>,
}

impl View for Store {
    type V = State;

    closed spec fn view(&self) -> State {
        Map::new(
            |key: Seq<char>| self.entries@.contains_key(key),
            |key: Seq<char>| self.entries@[key]@,
        )
    }
}

impl Store {
    /// Creates an empty store.
    pub fn new() -> (store: Store)
        ensures
            store@ == Map::<Seq<char>, Seq<char>>::empty(),
    {
        let store = Store { entries: StringHashMap::new() };
        store
    }

    /// The value stored under `key`, if there is one.
    pub fn get(&self, key: &str) -> (value: Option<String>)
        ensures
            match value {
                Some(text) => self@.contains_key(key@) && text@ == self@[key@],
                None => !self@.contains_key(key@),
            },
    {
        match self.entries.get(key) {
            Some(text) => Some(text.clone()),
            None => None,
        }
    }

    /// Stores `value` under `key`, in place of what was there.
    pub fn set(&mut self, key: String, value: String)
        ensures
            final(self)@ == old(self)@.insert(key@, value@),
    {
        self.entries.insert(key, value);
    }

    /// Removes `key` and its value; does nothing if the key is absent.
    pub fn delete(&mut self, key: &str)
        ensures
            final(self)@ == old(self)@.remove(key@),
    {
        self.entries.remove(key);
    }
}

} // verus!

//! The key-value store: a map from text keys to values.

use crate::value::{RespValue, Value};
use vstd::hash_map::StringHashMap;
use vstd::prelude::*;

verus! {

/// What a store holds, as a mathematical map from key to value.
pub type State = Map<Seq<char>, Value>;

/// The in-memory store. Its model is a [`State`].
pub struct Store {
    map: StringHashMap<RespValue>,
}

impl View for Store {
    type V = State;

    closed spec fn view(&self) -> State {
        self.map@.map_values(|v: RespValue| v@)
    }
}

impl Store {
    /// An empty store.
    pub fn new() -> (store: Store)
        ensures
            store@ == State::empty(),
    {
        let store = Store { map: StringHashMap::new() };
        assert(store@ =~= State::empty());
        store
    }

    /// The number of keys in the store.
    pub fn len(&self) -> (n: usize)
        ensures
            n == self@.len(),
    {
        broadcast use vstd::hash_map::group_hash_map_axioms;

        assert(self@.dom() =~= self.map@.dom());
        self.map.len()
    }

    /// A copy of the value stored under `key`, if there is one.
    pub fn get(&self, key: &str) -> (found: Option<RespValue>)
        ensures
            match found {
                Some(value) => self@.contains_key(key@) && value@ == self@[key@],
                None => !self@.contains_key(key@),
            },
    {
        match self.map.get(key) {
            Some(value) => Some(value.clone()),
            None => None,
        }
    }

    /// Stores `value` under `key`, in place of what was there.
    pub fn insert(&mut self, key: String, value: RespValue)
        ensures
            final(self)@ == old(self)@.insert(key@, value@),
    {
        self.map.insert(key, value);
        assert(self@ =~= old(self)@.insert(key@, value@));
    }

    /// Removes `key` and says whether it was there.
    pub fn remove(&mut self, key: &str) -> (was_there: bool)
        ensures
            was_there == old(self)@.contains_key(key@),
            final(self)@ == old(self)@.remove(key@),
    {
        let was_there = self.map.contains_key(key);
        self.map.remove(key);
        assert(self@ =~= old(self)@.remove(key@));
        was_there
    }
}

} // verus!

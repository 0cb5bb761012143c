//! Index keys and the table that gives each key its slot.

use crate::names::NameTable;
use std::collections::HashMap;
use vstd::prelude::*;

verus! {

/// A key of an equality index: an integer code or a text.
pub enum Key {
    Int(i64),
    Text(String),
}

/// What a key stands for in contracts.
pub enum KeyModel {
    Int(i64),
    Text(Seq<char>),
}

impl View for Key {
    type V = KeyModel;

    open spec fn view(&self) -> KeyModel {
        match self {
            Key::Int(i) => KeyModel::Int(*i),
            Key::Text(s) => KeyModel::Text(s@),
        }
    }
}

impl Key {
    /// Whether the two keys stand for the same value.
    pub fn same(&self, other: &Key) -> (b: bool)
        ensures
            b == (self@ == other@),
    {
        match self {
            Key::Int(i) => match other {
                Key::Int(j) => *i == *j,
                Key::Text(_) => false,
            },
            Key::Text(s) => match other {
                Key::Int(_) => false,
                Key::Text(t) => *s == *t,
            },
        }
    }

    /// A copy of the key.
    pub fn duplicate(&self) -> (k: Key)
        ensures
            k@ == self@,
    {
        match self {
            Key::Int(i) => Key::Int(*i),
            Key::Text(s) => Key::Text(s.clone()),
        }
    }
}

/// A table from keys to slots.
pub struct KeyTable {
    ints: HashMap<i64, usize>,
    names: NameTable,
}

impl View for KeyTable {
    type V = Map<KeyModel, usize>;

    closed spec fn view(&self) -> Map<KeyModel, usize> {
        Map::new(
            |k: KeyModel|
                match k {
                    KeyModel::Int(i) => self.ints@.contains_key(i),
                    KeyModel::Text(s) => self.names@.contains_key(s),
                },
            |k: KeyModel|
                match k {
                    KeyModel::Int(i) => self.ints@[i],
                    KeyModel::Text(s) => self.names@[s],
                },
        )
    }
}

impl KeyTable {
    /// An empty table.
    pub fn new() -> (t: KeyTable)
        ensures
            t@ == Map::<KeyModel, usize>::empty(),
    {
        let t = KeyTable { ints: HashMap::new(), names: NameTable::new() };
        assert(t@ =~= Map::<KeyModel, usize>::empty());
        t
    }

    /// The slot of `key`, if it has one.
    pub fn get(&self, key: &Key) -> (r: Option<usize>)
        ensures
            r == if self@.contains_key(key@) {
                Some(self@[key@])
            } else {
                None
            },
    {
        broadcast use vstd::std_specs::hash::group_hash_axioms;

        match key {
            Key::Int(i) => match self.ints.get(i) {
                Some(slot) => Some(*slot),
                None => None,
            },
            Key::Text(s) => self.names.get(s.as_str()),
        }
    }

    /// Gives `key` the slot `slot`.
    pub fn set(&mut self, key: Key, slot: usize)
        ensures
            final(self)@ == old(self)@.insert(key@, slot),
    {
        broadcast use vstd::std_specs::hash::group_hash_axioms;

        match key {
            Key::Int(i) => {
                self.ints.insert(i, slot);
            },
            Key::Text(s) => {
                self.names.insert(s, slot);
            },
        }
        assert(final(self)@ =~= old(self)@.insert(key@, slot));
    }

    /// Takes the slot of `key` away.
    pub fn unset(&mut self, key: &Key)
        ensures
            final(self)@ == old(self)@.remove(key@),
    {
        broadcast use vstd::std_specs::hash::group_hash_axioms;

        match key {
            Key::Int(i) => {
                self.ints.remove(i);
            },
            Key::Text(s) => {
                self.names.remove(s.as_str());
            },
        }
        assert(final(self)@ =~= old(self)@.remove(key@));
    }
}

} // verus!

//! A table from names to slot numbers, kept in a hash map with the Fx hasher.

use fxhash::FxHashMap;
use vstd::prelude::*;

verus! {

/// The hasher of the `fxhash` crate, which Verus carries through unread.
#[verifier::external_type_specification]
#[verifier::external_body]
pub struct ExFxHasher(fxhash::FxHasher);

/// The std builder that makes a default hasher for each map, carried
/// through unread as well.
#[verifier::external_type_specification]
#[verifier::external_body]
#[verifier::reject_recursive_types(H)]
pub struct ExBuildHasherDefault<H>(core::hash::BuildHasherDefault<H>);

/// A hash map from names to slots that hashes with the Fx hasher.
pub type NameMap = FxHashMap<String, usize>;

/// The entries of a name map: the slot of each name it holds, by the
/// characters of the name.
pub uninterp spec fn name_slots(m: NameMap) -> Map<Seq<char>, usize>;

/// The entries of a map that holds no name.
pub open spec fn no_names() -> Map<Seq<char>, usize> {
    Map::empty()
}

/// `FxHashMap::default`: a map without entries.
#[verifier::external_body]
fn name_map_new() -> (fresh: NameMap)
    ensures
        name_slots(fresh) == no_names(),
{
    NameMap::default()
}

/// `HashMap::get` through `str`: the slot stored under the name, if any.
#[verifier::external_body]
fn name_map_get(m: &NameMap, name: &str) -> (r: Option<usize>)
    ensures
        r == if name_slots(*m).contains_key(name@) {
            Some(name_slots(*m)[name@])
        } else {
            None
        },
{
    m.get(name).copied()
}

/// `HashMap::insert`: afterwards the name has the slot, and every other name
/// what it had.
#[verifier::external_body]
fn name_map_insert(m: &mut NameMap, name: String, slot: usize)
    ensures
        name_slots(*final(m)) == name_slots(*old(m)).insert(name@, slot),
{
    m.insert(name, slot);
}

/// `HashMap::remove` through `str`: afterwards the name has no slot, and
/// every other name what it had.
#[verifier::external_body]
fn name_map_remove(m: &mut NameMap, name: &str)
    ensures
        name_slots(*final(m)) == name_slots(*old(m)).remove(name@),
{
    m.remove(name);
}

/// A table from names to slots.
pub struct NameTable {
    map: NameMap,
}

impl View for NameTable {
    type V = Map<Seq<char>, usize>;

    closed spec fn view(&self) -> Map<Seq<char>, usize> {
        name_slots(self.map)
    }
}

impl NameTable {
    /// An empty table.
    pub fn new() -> (t: NameTable)
        ensures
            t@ == Map::<Seq<char>, usize>::empty(),
    {
        NameTable { map: name_map_new() }
    }

    /// The slot of `name`, if it has one.
    pub fn get(&self, name: &str) -> (r: Option<usize>)
        ensures
            r == if self@.contains_key(name@) {
                Some(self@[name@])
            } else {
                None
            },
    {
        name_map_get(&self.map, name)
    }

    /// Gives `name` the slot `slot`.
    pub fn insert(&mut self, name: String, slot: usize)
        ensures
            final(self)@ == old(self)@.insert(name@, slot),
    {
        name_map_insert(&mut self.map, name, slot)
    }

    /// Takes the slot of `name` away.
    pub fn remove(&mut self, name: &str)
        ensures
            final(self)@ == old(self)@.remove(name@),
    {
        name_map_remove(&mut self.map, name)
    }
}

} // verus!

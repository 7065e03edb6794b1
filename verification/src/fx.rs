//! Hash collections of the graph and the analyses: sets and maps keyed by
//! plain ids or by names, on top of `rustc_hash`.
//!
//! Nothing here exposes iteration order: a caller that needs an order walks
//! the ids themselves.

use rustc_hash::{FxBuildHasher, FxHashMap, FxHashSet};
use vstd::prelude::*;

verus! {

/// The hasher state of `rustc_hash`'s collections, carried opaquely.
#[verifier::external_type_specification]
#[verifier::external_body]
pub struct ExFxBuildHasher(FxBuildHasher);

/// The names that a set of strings holds.
pub uninterp spec fn name_set_contents(s: FxHashSet<String>) -> Set<Seq<char>>;

/// The entries of a map from names to ids.
pub uninterp spec fn name_map_contents(m: FxHashMap<String, u32>) -> Map<Seq<char>, u32>;

/// The map without entries.
pub open spec fn no_ids() -> Map<u32, u32> {
    Map::empty()
}

/// The table without entries.
pub open spec fn no_entries<V>() -> Map<u32, V> {
    Map::empty()
}

/// The map without names.
pub open spec fn no_names() -> Map<Seq<char>, u32> {
    Map::empty()
}

// ---- rustc_hash::FxHashSet<u32> --------------------------------------------

/// `FxHashSet::default`: the new set is empty.
#[verifier::external_body]
fn id_set_new() -> (s: FxHashSet<u32>)
    ensures
        s@ == Set::<u32>::empty(),
{
    FxHashSet::default()
}

/// `FxHashSet::insert`: the id is added, and the result tells whether it was
/// not there before.
#[verifier::external_body]
fn id_set_insert(s: &mut FxHashSet<u32>, id: u32) -> (added: bool)
    ensures
        final(s)@ == old(s)@.insert(id),
        added == !old(s)@.contains(id),
{
    s.insert(id)
}

/// `FxHashSet::remove`: the id is gone, and the result tells whether it was
/// there before.
#[verifier::external_body]
fn id_set_remove(s: &mut FxHashSet<u32>, id: u32) -> (removed: bool)
    ensures
        final(s)@ == old(s)@.remove(id),
        removed == old(s)@.contains(id),
{
    s.remove(&id)
}

/// `FxHashSet::contains`: membership.
#[verifier::external_body]
fn id_set_contains(s: &FxHashSet<u32>, id: u32) -> (r: bool)
    ensures
        r == s@.contains(id),
{
    s.contains(&id)
}

/// `FxHashSet::is_empty`: whether no id is in the set.
#[verifier::external_body]
fn id_set_is_empty(s: &FxHashSet<u32>) -> (r: bool)
    ensures
        r == (s@ == Set::<u32>::empty()),
{
    s.is_empty()
}

// ---- rustc_hash::FxHashMap<u32, V> -----------------------------------------

/// `FxHashMap::default`: the new map is empty.
#[verifier::external_body]
fn id_map_new<V>() -> (m: FxHashMap<u32, V>)
    ensures
        m@ == no_entries::<V>(),
{
    FxHashMap::default()
}

/// `FxHashMap::insert`: the key maps to the value, whatever it mapped to
/// before.
#[verifier::external_body]
fn id_map_insert<V>(m: &mut FxHashMap<u32, V>, key: u32, value: V)
    ensures
        final(m)@ == old(m)@.insert(key, value),
{
    m.insert(key, value);
}

/// `FxHashMap::get`: the value that the key maps to, if it is there.
#[verifier::external_body]
fn id_map_get<V>(m: &FxHashMap<u32, V>, key: u32) -> (r: Option<&V>)
    ensures
        match r {
            Some(v) => m@.contains_key(key) && *v == m@[key],
            None => !m@.contains_key(key),
        },
{
    m.get(&key)
}

/// `FxHashMap::is_empty`: whether no key is in the map.
#[verifier::external_body]
fn id_map_is_empty(m: &FxHashMap<u32, u32>) -> (r: bool)
    ensures
        r == (m@ == no_ids()),
{
    m.is_empty()
}

// ---- rustc_hash::FxHashSet<String> -----------------------------------------

/// `FxHashSet::default` on strings: the new set is empty.
#[verifier::external_body]
fn name_set_new() -> (s: FxHashSet<String>)
    ensures
        name_set_contents(s) == Set::<Seq<char>>::empty(),
{
    FxHashSet::default()
}

/// `FxHashSet::insert` on strings: the name is added, and the result tells
/// whether it was not there before.
#[verifier::external_body]
fn name_set_insert(s: &mut FxHashSet<String>, name: String) -> (added: bool)
    ensures
        name_set_contents(*final(s)) == name_set_contents(*old(s)).insert(name@),
        added == !name_set_contents(*old(s)).contains(name@),
{
    s.insert(name)
}

/// `FxHashSet::remove` on strings: the name is gone.
#[verifier::external_body]
fn name_set_remove(s: &mut FxHashSet<String>, name: &str)
    ensures
        name_set_contents(*final(s)) == name_set_contents(*old(s)).remove(name@),
{
    s.remove(name);
}

/// `FxHashSet::contains` on strings: membership.
#[verifier::external_body]
fn name_set_contains(s: &FxHashSet<String>, name: &str) -> (r: bool)
    ensures
        r == name_set_contents(*s).contains(name@),
{
    s.contains(name)
}

// ---- rustc_hash::FxHashMap<String, u32> ------------------------------------

/// `FxHashMap::default` on names: the new map is empty.
#[verifier::external_body]
fn name_map_new() -> (m: FxHashMap<String, u32>)
    ensures
        name_map_contents(m) == no_names(),
{
    FxHashMap::default()
}

/// `FxHashMap::insert` on names: the name maps to the value, whatever it
/// mapped to before.
#[verifier::external_body]
fn name_map_insert(m: &mut FxHashMap<String, u32>, name: String, value: u32)
    ensures
        name_map_contents(*final(m)) == name_map_contents(*old(m)).insert(name@, value),
{
    m.insert(name, value);
}

/// `FxHashMap::get` on names: the value that the name maps to, if it is there.
#[verifier::external_body]
fn name_map_get(m: &FxHashMap<String, u32>, name: &str) -> (r: Option<u32>)
    ensures
        r == (if name_map_contents(*m).contains_key(name@) {
            Some(name_map_contents(*m)[name@])
        } else {
            None
        }),
{
    m.get(name).copied()
}

// ---- the library's collections ---------------------------------------------

/// A set of ids.
#[derive(Debug)]
pub struct IdSet {
    set: FxHashSet<u32>,
}

/// A map from ids to ids.
#[derive(Debug)]
pub struct IdMap {
    map: FxHashMap<u32, u32>,
}

/// A set of names.
#[derive(Debug)]
pub struct NameSet {
    set: FxHashSet<String>,
}

/// A map from names to ids.
#[derive(Debug)]
pub struct NameMap {
    map: FxHashMap<String, u32>,
}

impl View for IdSet {
    type V = Set<u32>;

    closed spec fn view(&self) -> Set<u32> {
        self.set@
    }
}

impl View for IdMap {
    type V = Map<u32, u32>;

    closed spec fn view(&self) -> Map<u32, u32> {
        self.map@
    }
}

impl View for NameSet {
    type V = Set<Seq<char>>;

    closed spec fn view(&self) -> Set<Seq<char>> {
        name_set_contents(self.set)
    }
}

impl View for NameMap {
    type V = Map<Seq<char>, u32>;

    closed spec fn view(&self) -> Map<Seq<char>, u32> {
        name_map_contents(self.map)
    }
}

impl IdSet {
    pub fn new() -> (s: Self)
        ensures
            s@ == Set::<u32>::empty(),
    {
        IdSet { set: id_set_new() }
    }

    /// Adds the id; tells whether it is new.
    pub fn insert(&mut self, id: u32) -> (added: bool)
        ensures
            final(self)@ == old(self)@.insert(id),
            added == !old(self)@.contains(id),
    {
        id_set_insert(&mut self.set, id)
    }

    /// Takes the id out; tells whether it was there.
    pub fn remove(&mut self, id: u32) -> (removed: bool)
        ensures
            final(self)@ == old(self)@.remove(id),
            removed == old(self)@.contains(id),
    {
        id_set_remove(&mut self.set, id)
    }

    pub fn contains(&self, id: u32) -> (r: bool)
        ensures
            r == self@.contains(id),
    {
        id_set_contains(&self.set, id)
    }

    pub fn is_empty(&self) -> (r: bool)
        ensures
            r == (self@ == Set::<u32>::empty()),
    {
        id_set_is_empty(&self.set)
    }
}

impl IdMap {
    pub fn new() -> (m: Self)
        ensures
            m@ == no_ids(),
    {
        IdMap { map: id_map_new() }
    }

    pub fn insert(&mut self, key: u32, value: u32)
        ensures
            final(self)@ == old(self)@.insert(key, value),
    {
        id_map_insert(&mut self.map, key, value)
    }

    pub fn get(&self, key: u32) -> (r: Option<u32>)
        ensures
            r == (if self@.contains_key(key) {
                Some(self@[key])
            } else {
                None
            }),
    {
        match id_map_get(&self.map, key) {
            Some(v) => Some(*v),
            None => None,
        }
    }

    pub fn contains_key(&self, key: u32) -> (r: bool)
        ensures
            r == self@.contains_key(key),
    {
        id_map_get(&self.map, key).is_some()
    }

    pub fn is_empty(&self) -> (r: bool)
        ensures
            r == (self@ == no_ids()),
    {
        id_map_is_empty(&self.map)
    }
}

impl NameSet {
    pub fn new() -> (s: Self)
        ensures
            s@ == Set::<Seq<char>>::empty(),
    {
        NameSet { set: name_set_new() }
    }

    /// Adds the name; tells whether it is new.
    pub fn insert(&mut self, name: String) -> (added: bool)
        ensures
            final(self)@ == old(self)@.insert(name@),
            added == !old(self)@.contains(name@),
    {
        name_set_insert(&mut self.set, name)
    }

    pub fn remove(&mut self, name: &str)
        ensures
            final(self)@ == old(self)@.remove(name@),
    {
        name_set_remove(&mut self.set, name)
    }

    pub fn contains(&self, name: &str) -> (r: bool)
        ensures
            r == self@.contains(name@),
    {
        name_set_contains(&self.set, name)
    }
}

impl NameMap {
    pub fn new() -> (m: Self)
        ensures
            m@ == no_names(),
    {
        NameMap { map: name_map_new() }
    }

    pub fn insert(&mut self, name: String, value: u32)
        ensures
            final(self)@ == old(self)@.insert(name@, value),
    {
        name_map_insert(&mut self.map, name, value)
    }

    pub fn get(&self, name: &str) -> (r: Option<u32>)
        ensures
            r == (if self@.contains_key(name@) {
                Some(self@[name@])
            } else {
                None
            }),
    {
        name_map_get(&self.map, name)
    }
}


// ---- tables ----------------------------------------------------------------

/// A map from ids that also knows its keys in the order in which they came.
#[derive(Debug)]
pub struct Table<V> {
    map: FxHashMap<u32, V>,
    keys: Vec<u32>,
}

impl<V> View for Table<V> {
    type V = Map<u32, V>;

    closed spec fn view(&self) -> Map<u32, V> {
        self.map@
    }
}

impl<V> Table<V> {
    /// The keys, in the order in which they came.
    pub closed spec fn keys(self) -> Seq<u32> {
        self.keys@
    }

    /// Every key is listed, once.
    pub open spec fn wf(self) -> bool {
        &&& self.keys().no_duplicates()
        &&& forall|k: u32| #[trigger] self@.contains_key(k) <==> self.keys().contains(k)
    }

    pub fn new() -> (t: Self)
        ensures
            t.wf(),
            t@ == no_entries::<V>(),
            t.keys() == Seq::<u32>::empty(),
    {
        Table { map: id_map_new(), keys: Vec::new() }
    }

    /// Maps the key to the value, whatever it mapped to before.
    pub fn put(&mut self, key: u32, value: V)
        requires
            old(self).wf(),
        ensures
            final(self).wf(),
            final(self)@ == old(self)@.insert(key, value),
            final(self).keys() == if old(self)@.contains_key(key) {
                old(self).keys()
            } else {
                old(self).keys().push(key)
            },
    {
        let ghost before = self.keys@;
        assert(old(self)@.contains_key(key) <==> before.contains(key));
        if id_map_get(&self.map, key).is_none() {
            self.keys.push(key);
            assert forall|k: u32| before.push(key).contains(k) <==> (before.contains(k) || k == key) by {
                assert(before.push(key).last() == key);
                if before.contains(k) {
                    let i = choose|i: int| 0 <= i < before.len() && before[i] == k;
                    assert(before.push(key)[i] == k);
                }
            }
        }
        id_map_insert(&mut self.map, key, value);
        assert forall|k: u32| #[trigger] self@.contains_key(k) <==> self.keys().contains(k) by {
            assert(old(self)@.contains_key(k) <==> before.contains(k));
            assert(old(self)@.contains_key(key) <==> before.contains(key));
        }
    }

    pub fn get(&self, key: u32) -> (r: Option<&V>)
        ensures
            match r {
                Some(v) => self@.contains_key(key) && *v == self@[key],
                None => !self@.contains_key(key),
            },
    {
        id_map_get(&self.map, key)
    }

    pub fn contains_key(&self, key: u32) -> (r: bool)
        ensures
            r == self@.contains_key(key),
    {
        id_map_get(&self.map, key).is_some()
    }

    pub fn len(&self) -> (n: usize)
        ensures
            n == self.keys().len(),
    {
        self.keys.len()
    }

    /// The key that came at that place.
    pub fn key_at(&self, i: usize) -> (k: u32)
        requires
            i < self.keys().len(),
        ensures
            k == self.keys()[i as int],
    {
        self.keys[i]
    }
}

} // verus!

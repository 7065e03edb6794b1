//! Maps from names that know their names in the order in which they came.

use crate::fx::NameMap;
use vstd::prelude::*;

verus! {

/// A map from names to values.
#[derive(Debug)]
pub struct NameTable<V> {
    index: NameMap,
    keys: Vec<String>,
    vals: Vec<V>,
}

impl<V> NameTable<V> {
    pub closed spec fn wf(self) -> bool {
        &&& self.vals@.len() == self.keys@.len() <= u32::MAX
        &&& forall|i: int|
            0 <= i < self.keys@.len() ==> self.index@.contains_key((#[trigger] self.keys@[i])@)
                && self.index@[self.keys@[i]@] == i
        &&& forall|n: Seq<char>| #[trigger]
            self.index@.contains_key(n) ==> self.index@[n] < self.keys@.len() && self.keys@[self.index@[n] as int]@
                == n
    }

    /// The names, in the order in which they came.
    pub closed spec fn names(self) -> Seq<Seq<char>> {
        self.keys@.map_values(|s: String| s@)
    }

    /// The number of names.
    pub closed spec fn count(self) -> nat {
        self.keys@.len()
    }

    /// Whether the name has a value.
    pub closed spec fn has(self, n: Seq<char>) -> bool {
        self.index@.contains_key(n)
    }

    /// The value of a name.
    pub closed spec fn at(self, n: Seq<char>) -> V {
        self.vals@[self.index@[n] as int]
    }

    /// The names in order are those that have a value, each once.
    pub proof fn lemma_names(self)
        requires
            self.wf(),
        ensures
            self.names().len() == self.count(),
            self.count() <= u32::MAX,
            self.names().no_duplicates(),
            forall|n: Seq<char>| #[trigger] self.has(n) <==> self.names().contains(n),
    {
        assert forall|n: Seq<char>| #[trigger] self.has(n) <==> self.names().contains(n) by {
            if self.has(n) {
                assert(self.names()[self.index@[n] as int] == n);
            }
            if self.names().contains(n) {
                let i = choose|i: int| 0 <= i < self.names().len() && self.names()[i] == n;
                assert(self.keys@[i]@ == n);
            }
        }
        assert forall|i: int, j: int| 0 <= i < self.names().len() && 0 <= j < self.names().len() && i
            != j implies self.names()[i] != self.names()[j] by {
            assert(self.index@[self.keys@[i]@] == i);
            assert(self.index@[self.keys@[j]@] == j);
        }
    }

    pub fn new() -> (t: Self)
        ensures
            t.wf(),
            t.count() == 0,
            forall|n: Seq<char>| !#[trigger] t.has(n),
    {
        NameTable { index: NameMap::new(), keys: Vec::new(), vals: Vec::new() }
    }

    pub fn get(&self, name: &String) -> (r: Option<&V>)
        requires
            self.wf(),
        ensures
            match r {
                Some(v) => self.has(name@) && *v == self.at(name@),
                None => !self.has(name@),
            },
    {
        match self.index.get(name.as_str()) {
            Some(i) => Some(&self.vals[i as usize]),
            None => None,
        }
    }

    pub fn contains(&self, name: &String) -> (r: bool)
        ensures
            r == self.has(name@),
    {
        self.index.get(name.as_str()).is_some()
    }

    /// Gives the name a value, whatever it had before. A new name needs room.
    pub fn put(&mut self, name: &String, value: V)
        requires
            old(self).wf(),
            old(self).has(name@) || old(self).count() < u32::MAX,
        ensures
            final(self).wf(),
            forall|n: Seq<char>| #[trigger] final(self).has(n) <==> old(self).has(n) || n == name@,
            final(self).at(name@) == value,
            forall|n: Seq<char>| old(self).has(n) && n != name@ ==> #[trigger] final(self).at(n) == old(self).at(n),
            final(self).names() == if old(self).has(name@) {
                old(self).names()
            } else {
                old(self).names().push(name@)
            },
            final(self).count() == old(self).count() + if old(self).has(name@) {
                0int
            } else {
                1int
            },
    {
        match self.index.get(name.as_str()) {
            Some(i) => {
                self.vals.set(i as usize, value);
            },
            None => {
                let i = self.keys.len() as u32;
                let ghost before = self.keys@;
                self.index.insert(name.clone(), i);
                self.keys.push(name.clone());
                self.vals.push(value);
                assert(self.names() =~= old(self).names().push(name@));
                assert forall|k: int| 0 <= k < self.keys@.len() implies self.index@.contains_key(
                    (#[trigger] self.keys@[k])@,
                ) && self.index@[self.keys@[k]@] == k by {
                    if k < before.len() {
                        assert(self.keys@[k] == before[k]);
                        assert(old(self).index@.contains_key(before[k]@));
                    }
                }
            },
        }
        assert forall|n: Seq<char>| old(self).has(n) && n != name@ implies #[trigger] self.at(n) == old(self).at(
            n,
        ) by {
            assert(self.index@[n] == old(self).index@[n]);
            if old(self).has(name@) {
                assert(old(self).keys@[old(self).index@[n] as int]@ == n);
                assert(old(self).keys@[old(self).index@[name@] as int]@ == name@);
            }
        }
    }

    pub fn len(&self) -> (n: usize)
        ensures
            n == self.count(),
    {
        self.keys.len()
    }

    /// The name that came at that place.
    pub fn key_at(&self, i: usize) -> (k: &String)
        requires
            self.wf(),
            i < self.count(),
        ensures
            k@ == self.names()[i as int],
            self.has(k@),
    {
        &self.keys[i]
    }

    /// The value of the name that came at that place.
    pub fn val_at(&self, i: usize) -> (v: &V)
        requires
            self.wf(),
            i < self.count(),
        ensures
            *v == self.at(self.names()[i as int]),
    {
        assert(self.index@[self.keys@[i as int]@] == i);
        &self.vals[i]
    }
}

} // verus!

//! Maps and sets of coordinates, stored in hash tables under one number
//! for each coordinate.

use std::collections::{HashMap, HashSet};
use vstd::prelude::*;
use vstd::set_lib::lemma_map_size;

verus! {

broadcast use vstd::std_specs::hash::group_hash_axioms;

/// The number under which a coordinate is stored: the row and the column,
/// each moved into the non-negative numbers, side by side.
pub open spec fn key_of(at: (i32, i32)) -> u64 {
    ((at.0 + 0x8000_0000) * 0x1_0000_0000 + (at.1 + 0x8000_0000)) as u64
}

/// Different coordinates are stored under different numbers.
pub proof fn lemma_key_of_injective(a: (i32, i32), b: (i32, i32))
    ensures
        key_of(a) == key_of(b) <==> a == b,
{
}

/// The coordinate that is stored under a number.
pub open spec fn coordinate_of(k: u64) -> (i32, i32) {
    ((k / 0x1_0000_0000 - 0x8000_0000) as i32, (k % 0x1_0000_0000 - 0x8000_0000) as i32)
}

/// Every number stores a coordinate, and every coordinate is stored
/// under a number: the one leads to the other and back.
pub proof fn lemma_key_round_trip(at: (i32, i32), k: u64)
    ensures
        coordinate_of(key_of(at)) == at,
        key_of(coordinate_of(k)) == k,
{
}

/// The number under which `at` is stored.
fn key(at: (i32, i32)) -> (k: u64)
    ensures
        k == key_of(at),
{
    let row: u64 = (at.0 as i64 + 0x8000_0000) as u64;
    let col: u64 = (at.1 as i64 + 0x8000_0000) as u64;
    row * 0x1_0000_0000 + col
}

/// A finite map from coordinates to values.
pub struct CoordMap<T> {
    entries: HashMap<u64, T>,
}

impl<T> View for CoordMap<T> {
    type V = Map<(i32, i32), T>;

    closed spec fn view(&self) -> Map<(i32, i32), T> {
        Map::new(
            |at: (i32, i32)| self.entries@.contains_key(key_of(at)),
            |at: (i32, i32)| self.entries@[key_of(at)],
        )
    }
}

impl<T: Copy> CoordMap<T> {
    /// The map without entries.
    pub fn new() -> (made: Self)
        ensures
            made@ == Map::<(i32, i32), T>::empty(),
    {
        let made = CoordMap { entries: HashMap::new() };
        assert(made@ =~= Map::<(i32, i32), T>::empty());
        made
    }

    /// Maps `at` to `value`, whatever it was mapped to before.
    pub fn insert(&mut self, at: (i32, i32), value: T)
        ensures
            final(self)@ == old(self)@.insert(at, value),
    {
        self.entries.insert(key(at), value);
        proof {
            assert forall|other: (i32, i32)| other != at implies key_of(other) != key_of(at) by {
                lemma_key_of_injective(other, at);
            }
            assert(self@ =~= old(self)@.insert(at, value));
        }
    }

    /// What `at` is mapped to, if anything.
    pub fn get(&self, at: (i32, i32)) -> (found: Option<T>)
        ensures
            found == if self@.contains_key(at) {
                Some(self@[at])
            } else {
                None
            },
    {
        let k = key(at);
        match self.entries.get(&k) {
            Some(value) => Some(*value),
            None => None,
        }
    }

    /// Whether `at` is mapped to anything.
    pub fn contains_key(&self, at: (i32, i32)) -> (found: bool)
        ensures
            found == self@.contains_key(at),
    {
        let k = key(at);
        self.entries.contains_key(&k)
    }

    /// How many coordinates are mapped to anything.
    pub fn len(&self) -> (count: usize)
        ensures
            self@.dom().finite(),
            count == self@.dom().len(),
    {
        proof {
            self.lemma_as_many_as_stored();
        }
        self.entries.len()
    }

    /// The map has as many entries as are stored, and so finitely many.
    proof fn lemma_as_many_as_stored(&self)
        ensures
            self@.dom().finite(),
            self@.dom().len() == self.entries@.dom().len(),
    {
        let stored = self.entries@.dom();
        let back = |k: u64| coordinate_of(k);
        assert forall|a: u64, b: u64| #[trigger] back(a) == #[trigger] back(b) implies a == b by {
            lemma_key_round_trip((0, 0), a);
            lemma_key_round_trip((0, 0), b);
        }
        assert(stored.map(back) =~= self@.dom()) by {
            assert forall|at: (i32, i32)| stored.map(back).contains(at) <==> self@.dom().contains(
                at,
            ) by {
                if stored.map(back).contains(at) {
                    let k = choose|k: u64| stored.contains(k) && back(k) == at;
                    lemma_key_round_trip(at, k);
                }
                if self@.dom().contains(at) {
                    lemma_key_round_trip(at, key_of(at));
                    assert(stored.contains(key_of(at)) && back(key_of(at)) == at);
                }
            }
        }
        lemma_map_size(stored, self@.dom(), back);
    }
}

/// A finite set of coordinates that knows how many it holds.
pub struct CoordSet {
    keys: HashSet<u64>,
}

impl View for CoordSet {
    type V = Set<(i32, i32)>;

    closed spec fn view(&self) -> Set<(i32, i32)> {
        Set::new(|at: (i32, i32)| self.keys@.contains(key_of(at)))
    }
}

impl CoordSet {
    /// The set is finite and its size is that of what is stored. Every
    /// constructor establishes this and every operation keeps it.
    pub closed spec fn wf(&self) -> bool {
        self@.finite() && self.keys@.finite() && self@.len() == self.keys@.len()
    }

    /// The empty set.
    pub fn new() -> (made: Self)
        ensures
            made.wf(),
            made@ == Set::<(i32, i32)>::empty(),
    {
        let made = CoordSet { keys: HashSet::new() };
        assert(made@ =~= Set::<(i32, i32)>::empty());
        made
    }

    /// Adds `at` to the set.
    pub fn insert(&mut self, at: (i32, i32))
        requires
            old(self).wf(),
        ensures
            final(self).wf(),
            final(self)@ == old(self)@.insert(at),
    {
        self.keys.insert(key(at));
        proof {
            assert forall|other: (i32, i32)| other != at implies key_of(other) != key_of(at) by {
                lemma_key_of_injective(other, at);
            }
            assert(self@ =~= old(self)@.insert(at));
            assert(old(self)@.contains(at) <==> old(self).keys@.contains(key_of(at)));
        }
    }

    /// Whether `at` is in the set.
    pub fn contains(&self, at: (i32, i32)) -> (found: bool)
        ensures
            found == self@.contains(at),
    {
        let k = key(at);
        self.keys.contains(&k)
    }

    /// How many coordinates the set holds.
    pub fn len(&self) -> (count: usize)
        requires
            self.wf(),
        ensures
            count == self@.len(),
    {
        self.keys.len()
    }
}

} // verus!

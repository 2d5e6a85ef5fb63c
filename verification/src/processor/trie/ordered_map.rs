//! A map that keeps its entries in the order in which their keys first came.

use vstd::prelude::*;
use vstd::std_specs::cmp::PartialEqSpec;
use vstd::std_specs::slice::into_iter_elts;

verus! {

/// Key/value pairs in insertion order; looked up by scanning from the front.
#[derive(Debug)]
pub struct OrderedMap<K, V> {
    entries: Vec<(K, V)>,
}

impl<K, V> View for OrderedMap<K, V> {
    type V = Seq<(K, V)>;

    closed spec fn view(&self) -> Seq<(K, V)> {
        self.entries@
    }
}

/// The first position at or after `from` whose key equals `key`, or `-1`.
pub open spec fn position_from<K: PartialEq, V>(entries: Seq<(K, V)>, key: K, from: int) -> int
    decreases entries.len() - from,
{
    if from < 0 || from >= entries.len() {
        -1
    } else if entries[from].0.eq_spec(&key) {
        from
    } else {
        position_from(entries, key, from + 1)
    }
}

/// The first position whose key equals `key`, or `-1`.
pub open spec fn position<K: PartialEq, V>(entries: Seq<(K, V)>, key: K) -> int {
    position_from(entries, key, 0)
}

/// A found position lies within the entries, at or after the start.
pub proof fn lemma_position_bounds<K: PartialEq, V>(entries: Seq<(K, V)>, key: K, from: int)
    requires
        0 <= from,
    ensures
        position_from(entries, key, from) == -1 || (from <= position_from(entries, key, from)
            < entries.len() && entries[position_from(entries, key, from)].0.eq_spec(&key)),
    decreases entries.len() - from,
{
    if from < entries.len() && !entries[from].0.eq_spec(&key) {
        lemma_position_bounds(entries, key, from + 1);
    }
}

impl<K: PartialEq, V> OrderedMap<K, V> {
    /// The map without entries.
    pub fn new() -> (m: Self)
        ensures
            m@ == Seq::<(K, V)>::empty(),
    {
        Self { entries: Vec::new() }
    }

    /// The number of entries.
    pub fn len(&self) -> (n: usize)
        ensures
            n == self@.len(),
    {
        self.entries.len()
    }

    /// Whether the map has no entries.
    pub fn is_empty(&self) -> (b: bool)
        ensures
            b == (self@.len() == 0),
    {
        self.entries.len() == 0
    }

    /// Where the first entry with a key equal to `key` stands.
    fn find(&self, key: &K) -> (r: Option<usize>)
        ensures
            r matches Some(at) ==> at < self@.len(),
            K::obeys_eq_spec() ==> match r {
                Some(at) => position(self@, *key) == at,
                None => position(self@, *key) == -1,
            },
    {
        let mut i: usize = 0;
        while i < self.entries.len()
            invariant
                i <= self.entries.len(),
                K::obeys_eq_spec() ==> position(self@, *key) == position_from(
                    self@,
                    *key,
                    i as int,
                ),
            decreases self.entries.len() - i,
        {
            if self.entries[i].0 == *key {
                return Some(i);
            }
            i += 1;
        }
        None
    }

    /// The value of the first entry whose key equals `key`.
    pub fn get(&self, key: &K) -> (r: Option<&V>)
        ensures
            K::obeys_eq_spec() ==> match r {
                Some(v) => 0 <= position(self@, *key) < self@.len() && *v == self@[position(
                    self@,
                    *key,
                )].1,
                None => position(self@, *key) == -1,
            },
    {
        match self.find(key) {
            Some(at) => Some(&self.entries[at].1),
            None => None,
        }
    }

    /// Gives `key` the value `value`: in place where an equal key is present,
    /// which hands back the value it had; as a new last entry otherwise.
    pub fn insert(&mut self, key: K, value: V) -> (r: Option<V>)
        ensures
            K::obeys_eq_spec() ==> match r {
                Some(v) => {
                    let at = position(old(self)@, key);
                    &&& 0 <= at < old(self)@.len()
                    &&& v == old(self)@[at].1
                    &&& final(self)@ == old(self)@.update(at, (old(self)@[at].0, value))
                },
                None => position(old(self)@, key) == -1 && final(self)@ == old(self)@.push(
                    (key, value),
                ),
            },
    {
        match self.find(&key) {
            Some(at) => {
                let mut given = value;
                std::mem::swap(&mut self.entries[at].1, &mut given);
                assert(self.entries@ =~= old(self).entries@.update(
                    at as int,
                    (old(self).entries@[at as int].0, value),
                ));
                Some(given)
            },
            None => {
                self.entries.push((key, value));
                None
            },
        }
    }

    /// The entries in insertion order.
    pub fn iter(&self) -> (it: std::slice::Iter<'_, (K, V)>)
        ensures
            into_iter_elts(it) == self@,
    {
        let it = self.entries.iter();
        proof {
            broadcast use vstd::std_specs::slice::axiom_spec_slice_iter;
            assert(into_iter_elts(it) =~= self@);
        }
        it
    }

    /// The values in insertion order.
    pub fn values(&self) -> (r: Vec<&V>)
        ensures
            r.len() == self@.len(),
            forall|i: int| 0 <= i < r.len() ==> *(#[trigger] r[i]) == self@[i].1,
    {
        let mut r: Vec<&V> = Vec::new();
        let mut i: usize = 0;
        while i < self.entries.len()
            invariant
                i <= self.entries.len(),
                r.len() == i,
                forall|j: int| 0 <= j < i ==> *(#[trigger] r[j]) == self@[j].1,
            decreases self.entries.len() - i,
        {
            r.push(&self.entries[i].1);
            i += 1;
        }
        r
    }

    /// The keys in insertion order.
    pub fn keys(&self) -> (r: Vec<&K>)
        ensures
            r.len() == self@.len(),
            forall|i: int| 0 <= i < r.len() ==> *(#[trigger] r[i]) == self@[i].0,
    {
        let mut r: Vec<&K> = Vec::new();
        let mut i: usize = 0;
        while i < self.entries.len()
            invariant
                i <= self.entries.len(),
                r.len() == i,
                forall|j: int| 0 <= j < i ==> *(#[trigger] r[j]) == self@[j].0,
            decreases self.entries.len() - i,
        {
            r.push(&self.entries[i].0);
            i += 1;
        }
        r
    }

    /// The entry at `index` in insertion order, if there is one.
    pub fn get_index(&self, index: usize) -> (r: Option<(&K, &V)>)
        ensures
            match r {
                Some((k, v)) => index < self@.len() && *k == self@[index as int].0 && *v
                    == self@[index as int].1,
                None => index >= self@.len(),
            },
    {
        if index < self.entries.len() {
            Some((&self.entries[index].0, &self.entries[index].1))
        } else {
            None
        }
    }
}

} // verus!

//! Small maps from names of any kind to values.

use vstd::prelude::*;

use crate::config::{OutputId, OutputIdView};
use crate::ordered::{
    distinct_keys, extended, has_key, lemma_slot_unique, lemma_upsert_distinct, lookup, slot_of,
    upsert,
};
use crate::text::{opt_text, same_opt_text};

verus! {

/// A name that values can be filed under.
pub trait Key: Sized {
    /// What the name reads.
    type Text;

    spec fn text(&self) -> Self::Text;

    /// Tells whether two names read the same.
    fn same(&self, other: &Self) -> (same: bool)
        ensures
            same == (self.text() == other.text()),
    ;
}

impl Key for String {
    type Text = Seq<char>;

    open spec fn text(&self) -> Seq<char> {
        self@
    }

    fn same(&self, other: &String) -> (same: bool) {
        *self == *other
    }
}

impl Key for Option<String> {
    type Text = Option<Seq<char>>;

    open spec fn text(&self) -> Option<Seq<char>> {
        opt_text(*self)
    }

    fn same(&self, other: &Option<String>) -> (same: bool) {
        same_opt_text(self, other)
    }
}

impl Key for OutputId {
    type Text = OutputIdView;

    open spec fn text(&self) -> OutputIdView {
        self@
    }

    fn same(&self, other: &OutputId) -> (same: bool) {
        self.component == other.component && same_opt_text(&self.port, &other.port)
    }
}

/// The entries of a list, by what their names read.
pub open spec fn texted<K: Key, V>(entries: Seq<(K, V)>) -> Seq<(K::Text, V)> {
    entries.map_values(|e: (K, V)| (e.0.text(), e.1))
}

/// Takes the entry with the key out of a list.
pub open spec fn without<K, V>(entries: Seq<(K, V)>, key: K) -> Seq<(K, V)> {
    if has_key(entries, key) {
        entries.remove(slot_of(entries, key))
    } else {
        entries
    }
}

/// Taking out a key: it is known no longer, and every other key stays what it is.
pub proof fn lemma_without<K, V>(entries: Seq<(K, V)>, key: K, other: K)
    requires
        distinct_keys(entries),
    ensures
        distinct_keys(without(entries, key)),
        lookup(without(entries, key), other) == (if other == key {
            None
        } else {
            lookup(entries, other)
        }),
{
    let left = without(entries, key);
    if has_key(entries, key) {
        let at = slot_of(entries, key);
        assert(entries[at].0 == key);
        let origin = |i: int| {
            if i < at {
                i
            } else {
                i + 1
            }
        };
        assert forall|i: int| 0 <= i < left.len() implies #[trigger] left[i] == entries[origin(
            i,
        )] by {}
        assert forall|i: int, j: int| 0 <= i < j < left.len() implies (#[trigger] left[i]).0 != (
        #[trigger] left[j]).0 by {
            assert(entries[origin(i)].0 != entries[origin(j)].0);
        }
        if has_key(left, other) {
            let i = slot_of(left, other);
            assert(left[i].0 == other);
            assert(entries[origin(i)].0 == other);
            lemma_slot_unique(entries, origin(i));
            lemma_slot_unique(left, i);
            if other == key {
                lemma_slot_unique(entries, at);
            }
        } else if other != key && has_key(entries, other) {
            let k = slot_of(entries, other);
            assert(entries[k].0 == other);
            let i = if k < at {
                k
            } else {
                k - 1
            };
            assert(left[i].0 == other);
        }
    }
}

/// A map from names to values, for a few names. It keeps the order in which the names came.
pub struct KeyedMap<K: Key, V> {
    entries: Vec<(K, V)>,
}

impl<K: Key, V> View for KeyedMap<K, V> {
    type V = Seq<(K::Text, V)>;

    closed spec fn view(&self) -> Seq<(K::Text, V)> {
        texted(self.entries@)
    }
}

impl<K: Key, V> KeyedMap<K, V> {
    #[verifier::type_invariant]
    spec fn inv(self) -> bool {
        distinct_keys(texted(self.entries@))
    }

    /// An empty map.
    pub fn new() -> (map: Self)
        ensures
            map@ == Seq::<(K::Text, V)>::empty(),
    {
        let map = KeyedMap { entries: Vec::new() };
        assert(map@ =~= Seq::<(K::Text, V)>::empty());
        map
    }

    /// The number of names. The names of a map are distinct.
    pub fn len(&self) -> (len: usize)
        ensures
            len == self@.len(),
            distinct_keys(self@),
    {
        proof {
            use_type_invariant(self);
        }
        self.entries.len()
    }

    /// The position of a name.
    fn find(&self, key: &K) -> (position: Option<usize>)
        ensures
            match position {
                Some(i) => i < self@.len() && has_key(self@, key.text()) && slot_of(
                    self@,
                    key.text(),
                ) == i,
                None => !has_key(self@, key.text()),
            },
    {
        proof {
            use_type_invariant(self);
        }
        let mut i: usize = 0;
        while i < self.entries.len()
            invariant
                i <= self.entries@.len(),
                distinct_keys(self@),
                self@ == texted(self.entries@),
                forall|j: int| 0 <= j < i ==> (#[trigger] self@[j]).0 != key.text(),
            decreases self.entries@.len() - i,
        {
            if self.entries[i].0.same(key) {
                proof {
                    lemma_slot_unique(self@, i as int);
                }
                return Some(i);
            }
            i += 1;
        }
        None
    }

    /// The value of a name.
    pub fn get(&self, key: &K) -> (value: Option<&V>)
        ensures
            match value {
                Some(v) => lookup(self@, key.text()) == Some(*v),
                None => lookup(self@, key.text()) is None,
            },
    {
        match self.find(key) {
            Some(i) => Some(&self.entries[i].1),
            None => None,
        }
    }

    /// Files a value under a name: a known name keeps its place, an unknown one comes last.
    pub fn insert(&mut self, key: K, value: V)
        ensures
            final(self)@ == upsert(old(self)@, key.text(), value),
    {
        proof {
            use_type_invariant(&*self);
        }
        let found = self.find(&key);
        let mut entries: Vec<(K, V)> = Vec::new();
        std::mem::swap(&mut entries, &mut self.entries);
        let ghost before = texted(entries@);
        proof {
            lemma_upsert_distinct(before, key.text(), value);
        }
        match found {
            Some(i) => {
                entries.set(i, (key, value));
            },
            None => {
                entries.push((key, value));
            },
        }
        assert(texted(entries@) =~= upsert(before, key.text(), value));
        self.entries = entries;
    }

    /// Takes a name out of the map, and hands out its value.
    pub fn take(&mut self, key: &K) -> (value: Option<V>)
        ensures
            final(self)@ == without(old(self)@, key.text()),
            value == lookup(old(self)@, key.text()),
    {
        proof {
            use_type_invariant(&*self);
        }
        match self.find(key) {
            Some(i) => {
                let mut entries: Vec<(K, V)> = Vec::new();
                std::mem::swap(&mut entries, &mut self.entries);
                let ghost before = texted(entries@);
                let entry = entries.remove(i);
                proof {
                    let after = texted(entries@);
                    assert(after =~= before.remove(i as int));
                    assert forall|a: int, b: int| 0 <= a < b < after.len() implies (
                    #[trigger] after[a]).0 != (#[trigger] after[b]).0 by {
                        let p = if a < i {
                            a
                        } else {
                            a + 1
                        };
                        let q = if b < i {
                            b
                        } else {
                            b + 1
                        };
                        assert(before[p].0 != before[q].0);
                    }
                }
                self.entries = entries;
                Some(entry.1)
            },
            None => None,
        }
    }

    /// The names with their values, in order.
    pub fn into_entries(self) -> (entries: Vec<(K, V)>)
        ensures
            texted(entries@) == self@,
            distinct_keys(self@),
    {
        proof {
            use_type_invariant(&self);
        }
        self.entries
    }

    /// The name at a position.
    pub fn key_at(&self, position: usize) -> (key: &K)
        requires
            position < self@.len(),
        ensures
            key.text() == self@[position as int].0,
    {
        &self.entries[position].0
    }

    /// The value at a position.
    pub fn value_at(&self, position: usize) -> (value: &V)
        requires
            position < self@.len(),
        ensures
            *value == self@[position as int].1,
    {
        &self.entries[position].1
    }

    /// Files every entry of a list, from the first to the last.
    pub fn extend_entries(&mut self, entries: Vec<(K, V)>)
        ensures
            final(self)@ == extended(old(self)@, texted(entries@)),
    {
        let ghost before = self@;
        let ghost list = entries@;
        let ghost given = texted(list);
        assert(given.take(0).len() == 0);
        for entry in it: entries
            invariant
                it.seq() == list,
                given == texted(list),
                self@ == extended(before, given.take(it.index())),
        {
            proof {
                let i = it.index() as int;
                assert(given.take(i + 1).drop_last() =~= given.take(i));
                assert(given[i] == (list[i].0.text(), list[i].1));
            }
            self.insert(entry.0, entry.1);
        }
        assert(given.take(given.len() as int) =~= given);
    }

    /// The map that a list of entries makes when each is filed, from the first to the last.
    pub fn from_entries(entries: Vec<(K, V)>) -> (map: Self)
        ensures
            map@ == extended(Seq::empty(), texted(entries@)),
    {
        let mut map = KeyedMap::new();
        map.extend_entries(entries);
        map
    }
}

} // verus!
